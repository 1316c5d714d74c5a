//! What the store holds of the terms of a document after the document is put
//! into the index.

use crate::assoc::{assoc_map, distinct_keys, has_key, key_index, lemma_assoc_entry};
use crate::doc_id_set::DocIdSet;
use crate::bitmap::serialized_values;
use crate::document::{DocId, Document, SegmentId};
use crate::document_index::{location_put, tombstone};
use crate::index::{
    holds_only, insertion, insertion_tail, lemma_insertion_parts, lemma_stored_writes_families,
    lemma_term_writes_families, lemma_totals_writes_families, segment_counter_put,
};
use crate::key::{
    KeyModel, TAG_ACTIVE_SEGMENT, TAG_DELETION_LIST, TAG_FIELD_VALUE, TAG_METADATA, TAG_STATISTIC,
    TAG_TERM_DICTIONARY, TAG_TERM_DIRECTORY, TAG_UNIQUE_KEY,
};
use crate::schema::FieldId;
use crate::merged::context_in;
use crate::search::term_matches;
use crate::segment::{posting_in, term_directory_key};
use crate::segment_builder::{
    document_terms, only_if, SegmentBuilder, term_position, terms_within,
};
use crate::segment_ops::values_of;
use crate::segment_writer::{
    activation, directory_write, directory_writes, resolved_ids, stored_writes, total_docs_write,
    totals_writes,
};
use crate::term::TermId;
use crate::term_dictionary::{fresh_count, grown_by, resolves, term_writes, TermDictionary};
use crate::write_batch::{
    apply_batch, lemma_apply_last_put, lemma_apply_untouched, lemma_other_families,
    lemma_touches_concat, op_key, OpModel, stored, StoreModel, touches, within_families,
};
use vstd::prelude::*;

verus! {

/// What holds of a builder for the batch to be what puts the document into
/// the index and for `after` and `next_after` to be the dictionary afterwards:
/// the builder holds the document and nothing else; the batch is the insertion
/// of the builder; `after` has for every term of the builder the id under which
/// the batch writes of it, and no term but those that had an id or are terms of
/// the builder; and `next_after` is the next id behind those that the batch
/// hands out.
#[verifier::opaque]
pub open spec fn inserts_with(
    builder: SegmentBuilder,
    batch: Seq<OpModel>,
    doc: Document,
    segment: u32,
    known: Map<Seq<u8>, TermId>,
    next_term_id: u32,
    previous: Option<DocId>,
    after: Map<Seq<u8>, TermId>,
    next_after: u32,
) -> bool {
    &&& holds_only(builder, doc)
    &&& batch == insertion(builder, segment, known, next_term_id, doc.key_bytes(), previous)
    &&& resolves(
        after,
        builder.terms(),
        resolved_ids(known, next_term_id, builder.terms()),
        builder.terms().len() as int,
    )
    &&& grown_by(known, after, builder.terms(), builder.terms().len() as int)
    &&& next_after == next_term_id + fresh_count(known, builder.terms())
}

/// The batch is what puts the document into the index, and `after` and
/// `next_after` are the dictionary afterwards: every term of the document has
/// in `after` the id under which the batch writes of it; every term of `after`
/// had its id before or is a term of the document, written by the batch; and
/// `next_after` is the next id behind those.
pub open spec fn inserts_under(
    batch: Seq<OpModel>,
    doc: Document,
    segment: u32,
    known: Map<Seq<u8>, TermId>,
    next_term_id: u32,
    previous: Option<DocId>,
    after: Map<Seq<u8>, TermId>,
    next_after: u32,
) -> bool {
    exists|builder: SegmentBuilder| #[trigger]
        inserts_with(
            builder,
            batch,
            doc,
            segment,
            known,
            next_term_id,
            previous,
            after,
            next_after,
        )
}

/// What the laws on searching an inserted document use of the builder.
pub proof fn lemma_inserts_with(
    builder: SegmentBuilder,
    batch: Seq<OpModel>,
    doc: Document,
    segment: u32,
    known: Map<Seq<u8>, TermId>,
    next_term_id: u32,
    previous: Option<DocId>,
    after: Map<Seq<u8>, TermId>,
    next_after: u32,
)
    requires
        inserts_with(
            builder,
            batch,
            doc,
            segment,
            known,
            next_term_id,
            previous,
            after,
            next_after,
        ),
    ensures
        holds_only(builder, doc),
        batch == insertion(builder, segment, known, next_term_id, doc.key_bytes(), previous),
        resolves(
            after,
            builder.terms(),
            resolved_ids(known, next_term_id, builder.terms()),
            builder.terms().len() as int,
        ),
{
    reveal(inserts_with);
}

/// A batch that puts a document into the index under a dictionary is one that
/// puts the document into the index.
pub proof fn lemma_inserts_under(
    batch: Seq<OpModel>,
    doc: Document,
    segment: u32,
    known: Map<Seq<u8>, TermId>,
    next_term_id: u32,
    previous: Option<DocId>,
    after: Map<Seq<u8>, TermId>,
    next_after: u32,
)
    requires
        inserts_under(batch, doc, segment, known, next_term_id, previous, after, next_after),
    ensures
        crate::index::inserts(batch, doc, segment, known, next_term_id, previous),
{
    let builder = choose|builder: SegmentBuilder| #[trigger]
        inserts_with(
            builder,
            batch,
            doc,
            segment,
            known,
            next_term_id,
            previous,
            after,
            next_after,
        );
    reveal(inserts_with);
    assert(holds_only(builder, doc));
}

/// After a document is put into the index, every term of the dictionary had
/// its id before or is a term of the document.
pub proof fn lemma_new_terms_are_the_documents(
    batch: Seq<OpModel>,
    doc: Document,
    segment: u32,
    known: Map<Seq<u8>, TermId>,
    next_term_id: u32,
    previous: Option<DocId>,
    after: Map<Seq<u8>, TermId>,
    next_after: u32,
    term: Seq<u8>,
)
    requires
        inserts_under(batch, doc, segment, known, next_term_id, previous, after, next_after),
        after.contains_key(term),
    ensures
        known.contains_key(term) || document_terms(doc.indexed()).contains(term),
{
    let builder = choose|builder: SegmentBuilder| #[trigger]
        inserts_with(
            builder,
            batch,
            doc,
            segment,
            known,
            next_term_id,
            previous,
            after,
            next_after,
        );
    reveal(inserts_with);
    reveal(holds_only);
    reveal(terms_within);
    if !known.contains_key(term) {
        let j = choose|j: int| 0 <= j < builder.terms().len() && builder.terms()[j] == term;
        assert(document_terms(doc.indexed()).contains(builder.terms()[j]));
    }
}

/// No id stands for two terms.
pub open spec fn one_term_each(ids: Map<Seq<u8>, TermId>) -> bool {
    forall|a: Seq<u8>, b: Seq<u8>|
        ids.contains_key(a) && ids.contains_key(b) && a != b ==> ids[a] != ids[b]
}

/// In a dictionary no id stands for two terms.
pub proof fn lemma_ids_of_their_own(dictionary: TermDictionary)
    requires
        dictionary.wf(),
    ensures
        one_term_each(dictionary@),
{
    let entries = dictionary.entries();
    assert forall|a: Seq<u8>, b: Seq<u8>|
        dictionary@.contains_key(a) && dictionary@.contains_key(b) && a != b implies dictionary@[a]
        != dictionary@[b] by {
        let i = key_index(entries, a);
        let j = key_index(entries, b);
        assert(entries[i].0 == a && entries[j].0 == b);
        assert(i != j);
    }
}

/// The set of the first ordinal alone, written in the format of the roaring
/// crate, is read back. `DocIdSet::serialize` says so of the bytes it hands out.
pub open spec fn first_is_read_back() -> bool {
    is_read_back(set![0u16])
}

/// The writes of the term directories come in pairs, in the order of the
/// directories.
pub proof fn lemma_directory_writes_at(
    directories: Seq<((u16, usize), DocIdSet)>,
    ids: Seq<TermId>,
    segment: SegmentId,
    j: int,
)
    requires
        0 <= j < directories.len(),
    ensures
        directory_writes(directories, ids, segment).len() == 2 * directories.len(),
        directory_writes(directories, ids, segment)[2 * j] == directory_write(
            directories[j],
            ids,
            segment,
        )[0],
        directory_writes(directories, ids, segment)[2 * j + 1] == directory_write(
            directories[j],
            ids,
            segment,
        )[1],
    decreases directories.len(),
{
    let before = directories.drop_last();
    let all = directory_writes(directories, ids, segment);
    let fewer = directory_writes(before, ids, segment);
    let last = directory_write(directories.last(), ids, segment);
    assert(all == fewer + last);
    assert(last.len() == 2);
    if before.len() > 0 {
        lemma_directory_writes_at(before, ids, segment, if j < before.len() { j } else { 0 });
    } else {
        assert(fewer.len() == 0);
    }
    if j < before.len() {
        assert(before[j] == directories[j]);
        assert(all[2 * j] == fewer[2 * j]);
        assert(all[2 * j + 1] == fewer[2 * j + 1]);
    } else {
        assert(all[2 * j] == last[0]);
        assert(all[2 * j + 1] == last[1]);
    }
}

/// In a builder that holds one document and nothing else, the directory of a
/// field and a term of the document holds the document alone.
pub proof fn lemma_directory_of_term(
    builder: SegmentBuilder,
    doc: Document,
    field: FieldId,
    term: Seq<u8>,
)
    requires
        holds_only(builder, doc),
        doc.has_term(field, term),
    ensures
        distinct_keys(builder.directories()),
        builder.terms().no_duplicates(),
        forall|i: int|
            0 <= i < builder.directories().len() ==> (#[trigger] builder.directories()[i]).0.1
                < builder.terms().len(),
        builder.terms().contains(term),
        has_key(
            builder.directories(),
            (field.0, term_position(builder.terms(), term) as usize),
        ),
        ({
            let at = key_index(
                builder.directories(),
                (field.0, term_position(builder.terms(), term) as usize),
            );
            &&& 0 <= at < builder.directories().len()
            &&& builder.directories()[at].0 == (
                field.0,
                term_position(builder.terms(), term) as usize,
            )
            &&& builder.directories()[at].0.1 as int == term_position(builder.terms(), term)
            &&& builder.directories()[at].1@ == set![0u16]
        }),
{
    reveal(holds_only);
    builder.lemma_terms_fit();
    assert(builder.posting(field, term) == set![0u16]);
    assert(set![0u16].contains(0u16));
    let local = (field.0, term_position(builder.terms(), term) as usize);
    let at = key_index(builder.directories(), local);
    lemma_assoc_entry(builder.directories(), at);
}

/// No write of a term directory behind that of directory `d` is about the key
/// of directory `d`, where the terms have ids of their own.
pub proof fn lemma_directory_is_last(
    dirs: Seq<((u16, usize), DocIdSet)>,
    terms: Seq<Seq<u8>>,
    ids: Seq<TermId>,
    after: Map<Seq<u8>, TermId>,
    dest: SegmentId,
    d: int,
)
    requires
        distinct_keys(dirs),
        terms.no_duplicates(),
        forall|i: int| 0 <= i < dirs.len() ==> (#[trigger] dirs[i]).0.1 < terms.len(),
        ids.len() == terms.len(),
        resolves(after, terms, ids, terms.len() as int),
        one_term_each(after),
        0 <= d < dirs.len(),
    ensures
        ({
            let writes = directory_writes(dirs, ids, dest);
            &&& writes.len() == 2 * dirs.len()
            &&& writes[2 * d] == directory_write(dirs[d], ids, dest)[0]
            &&& !touches(writes.subrange(2 * d + 1, writes.len() as int), op_key(writes[2 * d]))
        }),
{
    let writes = directory_writes(dirs, ids, dest);
    lemma_directory_writes_at(dirs, ids, dest, d);
    let key = op_key(writes[2 * d]);
    let p = dirs[d].0.1 as int;
    let this = KeyModel::TermDirectory {
        field_id: FieldId(dirs[d].0.0),
        term_id: ids[p],
        segment_id: dest,
    };
    assert(key == this.encoding());
    let later = writes.subrange(2 * d + 1, writes.len() as int);
    assert forall|k: int| 0 <= k < later.len() implies op_key(#[trigger] later[k]) != key by {
        let m = 2 * d + 1 + k;
        let j = m / 2;
        lemma_directory_writes_at(dirs, ids, dest, j);
        assert(later[k] == writes[m]);
        if m % 2 == 1 {
            assert(m == 2 * j + 1);
            assert(op_key(writes[m])[0] == TAG_STATISTIC);
            assert(key[0] == TAG_TERM_DIRECTORY);
        } else {
            assert(m == 2 * j);
            assert(j > d);
            assert(dirs[j].0 != dirs[d].0);
            let q = dirs[j].0.1 as int;
            let other = KeyModel::TermDirectory {
                field_id: FieldId(dirs[j].0.0),
                term_id: ids[q],
                segment_id: dest,
            };
            assert(op_key(writes[m]) == other.encoding());
            if other.encoding() == this.encoding() {
                other.lemma_encoding_injective(this);
                assert(q != p);
                assert(terms[q] != terms[p]);
                assert(after.contains_key(terms[q]) && after[terms[q]] == ids[q]);
                assert(after.contains_key(terms[p]) && after[terms[p]] == ids[p]);
            }
        }
    }
}

/// Nothing behind the kept values in an insertion is about a term directory.
pub proof fn lemma_tail_is_elsewhere(
    builder: SegmentBuilder,
    segment: u32,
    key: Seq<u8>,
    previous: Option<DocId>,
    about: Seq<u8>,
)
    requires
        about.len() > 0,
        about[0] == TAG_TERM_DIRECTORY,
    ensures
        !touches(insertion_tail(builder, segment, key, previous), about),
{
    let a = seq![total_docs_write(builder.doc_count(), SegmentId(segment))];
    let b = totals_writes(builder.totals(), SegmentId(segment));
    let c = seq![activation(SegmentId(segment))];
    let d = seq![location_put(key, DocId(SegmentId(segment), 0))];
    let e = match previous {
        Some(previous) => tombstone(previous),
        None => Seq::empty(),
    };
    lemma_totals_writes_families(builder.totals(), SegmentId(segment));
    assert(within_families(a, TAG_STATISTIC, TAG_STATISTIC));
    assert(within_families(c, TAG_ACTIVE_SEGMENT, TAG_ACTIVE_SEGMENT));
    assert(within_families(d, TAG_UNIQUE_KEY, TAG_UNIQUE_KEY));
    assert(within_families(e, TAG_DELETION_LIST, TAG_STATISTIC));
    lemma_other_families(a, TAG_STATISTIC, TAG_STATISTIC, about);
    lemma_other_families(b, TAG_STATISTIC, TAG_STATISTIC, about);
    lemma_other_families(c, TAG_ACTIVE_SEGMENT, TAG_ACTIVE_SEGMENT, about);
    lemma_other_families(d, TAG_UNIQUE_KEY, TAG_UNIQUE_KEY, about);
    lemma_other_families(e, TAG_DELETION_LIST, TAG_STATISTIC, about);
    lemma_touches_concat(a, b, about);
    lemma_touches_concat(a + b, c, about);
    lemma_touches_concat(a + b + c, d, about);
    lemma_touches_concat(a + b + c + d, e, about);
}

/// In an insertion, the write of the term directory of a field and a term of
/// the document puts the set of the first ordinal alone under the id that the
/// term has afterwards, and no later write of a term directory is about its key.
#[verifier::spinoff_prover]
pub proof fn lemma_term_directory_put(
    builder: SegmentBuilder,
    doc: Document,
    segment: u32,
    ids: Seq<TermId>,
    after: Map<Seq<u8>, TermId>,
    field: FieldId,
    term: Seq<u8>,
)
    requires
        holds_only(builder, doc),
        doc.has_term(field, term),
        ids.len() == builder.terms().len(),
        resolves(after, builder.terms(), ids, builder.terms().len() as int),
        one_term_each(after),
    ensures
        after.contains_key(term),
        ({
            let writes = directory_writes(builder.directories(), ids, SegmentId(segment));
            let at = 2 * key_index(
                builder.directories(),
                (field.0, term_position(builder.terms(), term) as usize),
            );
            let key = term_directory_key(segment, field, after[term]);
            &&& 0 <= at < writes.len()
            &&& writes[at] == (OpModel::Put {
                key,
                value: serialized_values(values_of(set![0u16])),
            })
            &&& !touches(writes.subrange(at + 1, writes.len() as int), key)
        }),
{
    let dest = SegmentId(segment);
    let terms = builder.terms();
    let dirs = builder.directories();
    lemma_directory_of_term(builder, doc, field, term);
    let p = term_position(terms, term);
    assert(terms[p] == term);
    let d = key_index(dirs, (field.0, p as usize));
    assert(after.contains_key(terms[p]) && after[terms[p]] == ids[p]);
    lemma_directory_is_last(dirs, terms, ids, after, dest, d);
    lemma_directory_put(dirs[d], ids, segment, field, after[term]);
}

/// The write of a term directory puts the ordinals of the directory under the
/// key of the field and of the id of the term.
pub proof fn lemma_directory_put(
    directory: ((u16, usize), DocIdSet),
    ids: Seq<TermId>,
    segment: u32,
    field: FieldId,
    id: TermId,
)
    requires
        directory.0.0 == field.0,
        ids[directory.0.1 as int] == id,
    ensures
        directory_write(directory, ids, SegmentId(segment))[0] == (OpModel::Put {
            key: term_directory_key(segment, field, id),
            value: serialized_values(values_of(directory.1@)),
        }),
{
    assert(directory.1.values() =~= values_of(directory.1@));
    assert(FieldId(directory.0.0) == field);
}

/// In a builder that holds one document and nothing else, a directory of a
/// field and a term that the document does not have in the field is empty.
pub proof fn lemma_directory_of_other_term(
    builder: SegmentBuilder,
    doc: Document,
    field: FieldId,
    term: Seq<u8>,
    j: int,
)
    requires
        holds_only(builder, doc),
        !doc.has_term(field, term),
        0 <= j < builder.directories().len(),
        builder.directories()[j].0.0 == field.0,
        builder.directories()[j].0.1 < builder.terms().len(),
        builder.terms()[builder.directories()[j].0.1 as int] == term,
    ensures
        builder.directories()[j].1@ == Set::<u16>::empty(),
{
    reveal(holds_only);
    let terms = builder.terms();
    let dirs = builder.directories();
    let q = dirs[j].0.1 as int;
    assert(builder.posting(field, term) == Set::<u16>::empty());
    assert(terms.contains(term));
    assert(term_position(terms, term) == q);
    assert(dirs[j].0 == (field.0, q as usize));
    lemma_assoc_entry(dirs, j);
}

/// The facts about a builder that the writes of its term directories rest on.
pub proof fn lemma_builder_facts(builder: SegmentBuilder, doc: Document)
    requires
        holds_only(builder, doc),
    ensures
        distinct_keys(builder.directories()),
        builder.terms().no_duplicates(),
        forall|i: int|
            0 <= i < builder.directories().len() ==> (#[trigger] builder.directories()[i]).0.1
                < builder.terms().len(),
{
    reveal(holds_only);
}

/// A set of ordinals, written in the format of the roaring crate, is read back.
/// `DocIdSet::serialize` says so of the bytes it hands out.
pub open spec fn is_read_back(set: Set<u16>) -> bool {
    DocIdSet::deserialized(serialized_values(values_of(set))) == Some(set)
}

/// No write of an insertion before the term directories is about a term
/// directory.
pub proof fn lemma_head_is_elsewhere(
    segment: u32,
    known: Map<Seq<u8>, TermId>,
    next_term_id: u32,
    terms: Seq<Seq<u8>>,
    about: Seq<u8>,
)
    requires
        about.len() > 0,
        about[0] == TAG_TERM_DIRECTORY,
    ensures
        !touches(
            seq![segment_counter_put((segment + 1) as u32)] + term_writes(
                known,
                next_term_id,
                terms,
            ),
            about,
        ),
{
    let a = seq![segment_counter_put((segment + 1) as u32)];
    let b = term_writes(known, next_term_id, terms);
    lemma_term_writes_families(known, next_term_id, terms);
    assert(within_families(a, TAG_METADATA, TAG_METADATA));
    lemma_other_families(a, TAG_METADATA, TAG_METADATA, about);
    lemma_other_families(b, TAG_TERM_DICTIONARY, TAG_METADATA, about);
    lemma_touches_concat(a, b, about);
}

/// Where no term directory is of the field and the id, no write of a term
/// directory is about the key of the field and the id.
pub proof fn lemma_no_directory_no_write(
    dirs: Seq<((u16, usize), DocIdSet)>,
    ids: Seq<TermId>,
    segment: u32,
    field: FieldId,
    id: TermId,
)
    requires
        forall|j: int|
            0 <= j < dirs.len() ==> !((#[trigger] dirs[j]).0.0 == field.0 && ids[dirs[j].0.1 as int]
                == id),
    ensures
        !touches(
            directory_writes(dirs, ids, SegmentId(segment)),
            term_directory_key(segment, field, id),
        ),
{
    let dest = SegmentId(segment);
    let writes = directory_writes(dirs, ids, dest);
    let key = term_directory_key(segment, field, id);
    let this = KeyModel::TermDirectory { field_id: field, term_id: id, segment_id: dest };
    assert forall|m: int| 0 <= m < writes.len() implies op_key(#[trigger] writes[m]) != key by {
        if dirs.len() > 0 {
            lemma_directory_writes_at(dirs, ids, dest, 0);
            let j = m / 2;
            lemma_directory_writes_at(dirs, ids, dest, j);
            if m % 2 == 1 {
                assert(m == 2 * j + 1);
                assert(op_key(writes[m])[0] == TAG_STATISTIC);
                assert(key[0] == TAG_TERM_DIRECTORY);
            } else {
                assert(m == 2 * j);
                let other = KeyModel::TermDirectory {
                    field_id: FieldId(dirs[j].0.0),
                    term_id: ids[dirs[j].0.1 as int],
                    segment_id: dest,
                };
                assert(op_key(writes[m]) == other.encoding());
                if other.encoding() == this.encoding() {
                    other.lemma_encoding_injective(this);
                }
            }
        }
    }
}

/// After a document is put into the index in a segment that is new, a search
/// of the new segment for a term that the document does not have in a field
/// reads no document, where the empty set is read back as it is written.
#[verifier::spinoff_prover]
pub proof fn lemma_other_term_is_absent(
    store: StoreModel,
    batch: Seq<OpModel>,
    doc: Document,
    segment: u32,
    known: Map<Seq<u8>, TermId>,
    next_term_id: u32,
    previous: Option<DocId>,
    after: Map<Seq<u8>, TermId>,
    next_after: u32,
    field: FieldId,
    term: Seq<u8>,
)
    requires
        inserts_under(batch, doc, segment, known, next_term_id, previous, after, next_after),
        one_term_each(after),
        after.contains_key(term),
        !doc.has_term(field, term),
        stored(store, term_directory_key(segment, field, after[term])) is None,
        is_read_back(Set::<u16>::empty()),
    ensures
        posting_in(apply_batch(store, batch), segment, field, after[term]) == Set::<u16>::empty(),
{
    let builder = choose|builder: SegmentBuilder| #[trigger]
        inserts_with(
            builder,
            batch,
            doc,
            segment,
            known,
            next_term_id,
            previous,
            after,
            next_after,
        );
    lemma_inserts_with(
        builder,
        batch,
        doc,
        segment,
        known,
        next_term_id,
        previous,
        after,
        next_after,
    );
    let dest = SegmentId(segment);
    let terms = builder.terms();
    let dirs = builder.directories();
    let ids = resolved_ids(known, next_term_id, terms);
    let id = after[term];
    let key = term_directory_key(segment, field, id);
    let writes = directory_writes(dirs, ids, dest);
    let kept = stored_writes(builder.stored_values(), ids, dest);
    let tail = insertion_tail(builder, segment, doc.key_bytes(), previous);
    let head = seq![segment_counter_put((segment + 1) as u32)] + term_writes(
        known,
        next_term_id,
        terms,
    );
    assert(key.len() > 0 && key[0] == TAG_TERM_DIRECTORY);
    lemma_builder_facts(builder, doc);
    lemma_rest_is_elsewhere(builder, ids, segment, doc.key_bytes(), previous, key);
    lemma_insertion_parts(builder, segment, known, next_term_id, doc.key_bytes(), previous);
    assert(batch =~= head + writes + (kept + tail));
    if exists|j: int|
        0 <= j < dirs.len() && (#[trigger] dirs[j]).0.0 == field.0 && ids[dirs[j].0.1 as int] == id {
        let j = choose|j: int|
            0 <= j < dirs.len() && (#[trigger] dirs[j]).0.0 == field.0 && ids[dirs[j].0.1 as int]
                == id;
        let q = dirs[j].0.1 as int;
        assert(after.contains_key(terms[q]) && after[terms[q]] == ids[q]);
        assert(terms[q] == term);
        lemma_directory_of_other_term(builder, doc, field, term, j);
        lemma_directory_is_last(dirs, terms, ids, after, dest, j);
        lemma_directory_put(dirs[j], ids, segment, field, id);
        let value = serialized_values(values_of(Set::<u16>::empty()));
        lemma_put_stays(store, head, writes, 2 * j, key, value, kept + tail);
    } else {
        lemma_no_directory_no_write(dirs, ids, segment, field, id);
        lemma_head_is_elsewhere(segment, known, next_term_id, terms, key);
        lemma_touches_concat(head, writes, key);
        lemma_touches_concat(head + writes, kept + tail, key);
        lemma_apply_untouched(store, batch, key);
    }
}


/// Neither a write of a kept value nor one behind the kept values in an
/// insertion is about a term directory.
pub proof fn lemma_rest_is_elsewhere(
    builder: SegmentBuilder,
    ids: Seq<TermId>,
    segment: u32,
    key: Seq<u8>,
    previous: Option<DocId>,
    about: Seq<u8>,
)
    requires
        about.len() > 0,
        about[0] == TAG_TERM_DIRECTORY,
    ensures
        !touches(
            stored_writes(builder.stored_values(), ids, SegmentId(segment)) + insertion_tail(
                builder,
                segment,
                key,
                previous,
            ),
            about,
        ),
{
    let kept = stored_writes(builder.stored_values(), ids, SegmentId(segment));
    lemma_stored_writes_families(builder.stored_values(), ids, SegmentId(segment));
    lemma_other_families(kept, TAG_FIELD_VALUE, TAG_FIELD_VALUE, about);
    lemma_tail_is_elsewhere(builder, segment, key, previous, about);
    lemma_touches_concat(kept, insertion_tail(builder, segment, key, previous), about);
}

/// After a document is put into the index, the store has, for every field and
/// term of the document, a term directory of the new segment that holds the
/// document alone; and where that is read back as it is written, a search of
/// the new segment for the term reads the document.
#[verifier::spinoff_prover]
pub proof fn lemma_inserted_term_is_stored(
    store: StoreModel,
    batch: Seq<OpModel>,
    doc: Document,
    segment: u32,
    known: Map<Seq<u8>, TermId>,
    next_term_id: u32,
    previous: Option<DocId>,
    after: Map<Seq<u8>, TermId>,
    next_after: u32,
    field: FieldId,
    term: Seq<u8>,
)
    requires
        inserts_under(batch, doc, segment, known, next_term_id, previous, after, next_after),
        one_term_each(after),
        doc.has_term(field, term),
    ensures
        after.contains_key(term),
        stored(apply_batch(store, batch), term_directory_key(segment, field, after[term])) == Some(
            serialized_values(values_of(set![0u16])),
        ),
        first_is_read_back() ==> posting_in(
            apply_batch(store, batch),
            segment,
            field,
            after[term],
        ) == set![0u16],
{
    let builder = choose|builder: SegmentBuilder| #[trigger]
        inserts_with(
            builder,
            batch,
            doc,
            segment,
            known,
            next_term_id,
            previous,
            after,
            next_after,
        );
    lemma_inserts_with(
        builder,
        batch,
        doc,
        segment,
        known,
        next_term_id,
        previous,
        after,
        next_after,
    );
    let dest = SegmentId(segment);
    let ids = resolved_ids(known, next_term_id, builder.terms());
    lemma_term_directory_put(builder, doc, segment, ids, after, field, term);
    let key = term_directory_key(segment, field, after[term]);
    let value = serialized_values(values_of(set![0u16]));
    let writes = directory_writes(builder.directories(), ids, dest);
    let at = 2 * key_index(
        builder.directories(),
        (field.0, term_position(builder.terms(), term) as usize),
    );
    let kept = stored_writes(builder.stored_values(), ids, dest);
    let tail = insertion_tail(builder, segment, doc.key_bytes(), previous);
    assert(key.len() > 0 && key[0] == TAG_TERM_DIRECTORY);
    lemma_rest_is_elsewhere(builder, ids, segment, doc.key_bytes(), previous, key);
    let head = seq![segment_counter_put((segment + 1) as u32)] + term_writes(
        known,
        next_term_id,
        builder.terms(),
    );
    lemma_insertion_parts(builder, segment, known, next_term_id, doc.key_bytes(), previous);
    lemma_put_stays(store, head, writes, at, key, value, kept + tail);
    assert(batch =~= head + writes + (kept + tail));
}

/// A value that is put stays where no later write is about its key.
pub proof fn lemma_put_stays(
    store: StoreModel,
    head: Seq<OpModel>,
    writes: Seq<OpModel>,
    at: int,
    key: Seq<u8>,
    value: Seq<u8>,
    rest: Seq<OpModel>,
)
    requires
        0 <= at < writes.len(),
        writes[at] == (OpModel::Put { key, value }),
        !touches(writes.subrange(at + 1, writes.len() as int), key),
        !touches(rest, key),
    ensures
        stored(apply_batch(store, head + writes + rest), key) == Some(value),
{
    let put = OpModel::Put { key, value };
    let later = writes.subrange(at + 1, writes.len() as int);
    let before = head + writes.subrange(0, at);
    lemma_touches_concat(later, rest, key);
    assert(writes =~= writes.subrange(0, at) + seq![put] + later);
    assert(head + writes + rest =~= before + seq![put] + (later + rest));
    lemma_apply_last_put(store, before, key, value, later + rest);
}

/// After a document is put into the index in a segment that is new, a search
/// of the new segment for a term in a field finds the document exactly where
/// the document has the term in the field, and no other document. This holds
/// where the sets written are read back as they are written.
pub proof fn lemma_search_finds_inserted(
    store: StoreModel,
    batch: Seq<OpModel>,
    doc: Document,
    segment: u32,
    known: Map<Seq<u8>, TermId>,
    next_term_id: u32,
    previous: Option<DocId>,
    terms: Seq<(Seq<u8>, TermId)>,
    next_after: u32,
    field: FieldId,
    term: Seq<u8>,
)
    requires
        inserts_under(
            batch,
            doc,
            segment,
            known,
            next_term_id,
            previous,
            assoc_map(terms),
            next_after,
        ),
        one_term_each(assoc_map(terms)),
        forall|id: TermId| stored(store, #[trigger] term_directory_key(segment, field, id)) is None,
        is_read_back(set![0u16]),
        is_read_back(Set::<u16>::empty()),
    ensures
        term_matches(context_in(apply_batch(store, batch), segment, terms), field, term)
            == only_if(doc.has_term(field, term), 0),
{
    let after = assoc_map(terms);
    if doc.has_term(field, term) {
        lemma_inserted_term_is_stored(
            store,
            batch,
            doc,
            segment,
            known,
            next_term_id,
            previous,
            after,
            next_after,
            field,
            term,
        );
    } else if has_key(terms, term) {
        lemma_other_term_is_absent(
            store,
            batch,
            doc,
            segment,
            known,
            next_term_id,
            previous,
            after,
            next_after,
            field,
            term,
        );
    }
}

/// Writes the empty set and the set of the first ordinal alone in the format
/// of the roaring crate, and hands back the two byte strings. What the crate
/// is trusted to do then shows that both sets are read back, which is what the
/// laws on searching an inserted document ask for.
pub fn write_small_sets() -> (bytes: (Vec<u8>, Vec<u8>))
    ensures
        bytes.0@ == serialized_values(values_of(Set::<u16>::empty())),
        bytes.1@ == serialized_values(values_of(set![0u16])),
        is_read_back(Set::<u16>::empty()),
        is_read_back(set![0u16]),
{
    let mut set = DocIdSet::new();
    let none = set.serialize();
    assert(set.values() =~= values_of(Set::<u16>::empty()));
    set.insert(0);
    let first = set.serialize();
    assert(set@ =~= set![0u16]);
    assert(set.values() =~= values_of(set![0u16]));
    (none, first)
}

} // verus!
