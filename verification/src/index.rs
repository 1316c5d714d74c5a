//! The state of an index that is kept in memory, and the writes that keep the
//! store in step with it.

use crate::decimal::{digits_of, parse_decimal, parsed, to_decimal};
use crate::doc_id_set::DocIdSet;
use crate::document::{
    DocId, Document, FieldValue, FieldValueModel, SegmentId, StoredFieldReadError,
};
use crate::document_index::{
    deletion_list_whole, DocumentIndexManager, lemma_tombstone_deletes, location_put, tombstone,
};
use crate::key::{
    Key, KeyModel, name_next_field_id, name_next_segment_id, name_next_term_dictionary_id,
    TAG_ACTIVE_SEGMENT, TAG_DELETION_LIST, TAG_FIELD_VALUE, TAG_METADATA, TAG_STATISTIC,
    TAG_TERM_DICTIONARY, TAG_TERM_DIRECTORY, TAG_UNIQUE_KEY, ValueKind,
};
use crate::schema::{
    AddFieldError, FieldDataType, FieldDefinitionModel, FieldFlags, FieldId, FIRST_FIELD_ID, Schema,
};
use crate::segment::{deleted_in, deletion_list_key};
use crate::segment_builder::{
    document_terms, document_values, FieldTotals, indexed_values, LocalKind, only_if,
    SegmentBuilder, stored_field_values, stored_model, StoredValue, terms_within, totals_after,
    totals_of,
};
use crate::segment_writer::{
    activation, directory_write, directory_writes, resolved_ids, segment_writes, stored_write,
    stored_writes, total_docs_write, totals_write, totals_writes, write_segment,
};
use crate::term::{copy_bytes, TermId};
use crate::term_dictionary::{
    fresh_count, grown_by, resolves, term_creation, term_writes, TermDictionary,
};
use crate::write_batch::{
    apply_batch, lemma_apply_concat, lemma_apply_last_put, lemma_apply_untouched,
    lemma_other_families, lemma_touches_concat, op_key, OpModel, stored, StoreModel, touches,
    within_families, WriteBatch,
};
use vstd::prelude::*;
use vstd::utf8::encode_utf8;

verus! {

/// The first id that a segment gets.
pub const FIRST_SEGMENT_ID: u32 = 0;

/// The first id that a term gets.
pub const FIRST_TERM_ID: u32 = 1;

/// Why a document was not written to the index.
#[derive(Debug, PartialEq, Eq)]
pub enum DocumentInsertError {
    /// The segment is full.
    SegmentFull,
    /// The document has a field that the schema does not have, or has as deleted.
    FieldDoesntExist(FieldId),
    /// No id is left for the segment or for its terms.
    IdsExhausted,
}

impl DocumentInsertError {
    /// The error of the index for an error of the segment builder.
    pub fn from(e: crate::segment_builder::DocumentInsertError) -> (error: DocumentInsertError)
        ensures
            error == DocumentInsertError::SegmentFull,
    {
        match e {
            crate::segment_builder::DocumentInsertError::SegmentFull => {
                DocumentInsertError::SegmentFull
            },
        }
    }
}

/// The write that stores the id that the next segment gets.
pub open spec fn segment_counter_put(next: u32) -> OpModel {
    OpModel::Put {
        key: (KeyModel::Metadata { name: name_next_segment_id() }).encoding(),
        value: digits_of(next as nat),
    }
}

/// The write that stores the id that the next field gets.
pub open spec fn field_counter_put(next: u32) -> OpModel {
    OpModel::Put {
        key: (KeyModel::Metadata { name: name_next_field_id() }).encoding(),
        value: digits_of(next as nat),
    }
}

/// The write that stores the definition of a field.
pub open spec fn field_definition_put(field_id: FieldId, definition: FieldDefinitionModel) -> OpModel {
    OpModel::Put {
        key: (KeyModel::FieldDefinition { field_id }).encoding(),
        value: definition.encoding(),
    }
}

/// The write that stores the id that the next term gets.
pub open spec fn term_counter_put(next: u32) -> OpModel {
    OpModel::Put {
        key: (KeyModel::Metadata { name: name_next_term_dictionary_id() }).encoding(),
        value: digits_of(next as nat),
    }
}

/// The builder holds the document, at ordinal zero, and nothing else: its
/// term directories, kept values and totals are those of the document, and it
/// has no term but those of the document.
#[verifier::opaque]
pub open spec fn holds_only(builder: SegmentBuilder, doc: Document) -> bool {
    &&& builder.wf()
    &&& builder.doc_count() == 1
    &&& forall|f: FieldId, t: Seq<u8>| #[trigger]
        builder.posting(f, t) == only_if(doc.has_term(f, t), 0)
    &&& builder.stored() == document_values(doc, 0)
    &&& forall|f: FieldId| #[trigger]
        totals_of(builder.totals(), f) == totals_after(
            FieldTotals { docs: 0, tokens: 0 },
            doc.indexed(),
            f,
        )
    &&& terms_within(builder.terms(), Seq::empty(), document_terms(doc.indexed()))
}

/// The writes that put a document into the index as the one document of the
/// segment `segment`: the id that the next segment gets, the new terms, the
/// segment, the place that the document's key names, and the record of the
/// deletion of the document that the key named before, if it named one.
pub open spec fn insertion(
    builder: SegmentBuilder,
    segment: u32,
    known: Map<Seq<u8>, crate::term::TermId>,
    next_term_id: u32,
    key: Seq<u8>,
    previous: Option<DocId>,
) -> Seq<OpModel> {
    seq![segment_counter_put((segment + 1) as u32)] + term_writes(
        known,
        next_term_id,
        builder.terms(),
    ) + segment_writes(
        builder,
        resolved_ids(known, next_term_id, builder.terms()),
        SegmentId(segment),
    ) + seq![location_put(key, DocId(SegmentId(segment), 0))] + (match previous {
        Some(previous) => tombstone(previous),
        None => Seq::empty(),
    })
}

/// The batch is what puts the document into the index, for some builder that
/// holds the document and nothing else.
pub open spec fn inserts(
    batch: Seq<OpModel>,
    doc: Document,
    segment: u32,
    known: Map<Seq<u8>, crate::term::TermId>,
    next_term_id: u32,
    previous: Option<DocId>,
) -> bool {
    exists|builder: SegmentBuilder| #[trigger]
        holds_only(builder, doc) && batch == insertion(
            builder,
            segment,
            known,
            next_term_id,
            doc.key_bytes(),
            previous,
        )
}

/// The field is one of the indexed or of the stored fields of the document.
pub open spec fn has_field(doc: Document, field: FieldId) -> bool {
    ||| exists|i: int| 0 <= i < doc.indexed_fields@.len() && (#[trigger] doc.indexed_fields@[i]).0 == field
    ||| exists|i: int| 0 <= i < doc.stored_fields@.len() && (#[trigger] doc.stored_fields@[i]).0 == field
}

/// Fewer ids are left for terms than the document has terms.
pub open spec fn terms_exhaust(doc: Document, next_term_id: u32) -> bool {
    exists|builder: SegmentBuilder| #[trigger]
        holds_only(builder, doc) && next_term_id + builder.terms().len() > u32::MAX
}

/// Every field of the document is one that the schema takes documents for.
pub open spec fn fields_accepted(schema: Schema, doc: Document) -> bool {
    &&& forall|i: int|
        0 <= i < doc.indexed_fields@.len() ==> schema.accepts(
            (#[trigger] doc.indexed_fields@[i]).0,
        )
    &&& forall|i: int|
        0 <= i < doc.stored_fields@.len() ==> schema.accepts((#[trigger] doc.stored_fields@[i]).0)
}

/// The counter that stored bytes stand for: the number they spell in decimal.
/// Where nothing is stored there is no counter.
pub open spec fn counter_of(bytes: Option<Seq<u8>>) -> Option<u32> {
    match bytes {
        Some(bytes) => parsed(bytes),
        None => None,
    }
}

/// The error is one that a merge of the segments gives: no id is left for the
/// new segment; or an id is left and the error names a segment that is given
/// twice or one that is given and not live; or every segment is given once and
/// is live, and more documents are left than a segment holds.
pub open spec fn merge_refused(
    error: crate::segment_ops::SegmentMergeError,
    next_segment_id: u32,
    store: StoreModel,
    source_segments: Seq<u32>,
) -> bool {
    match error {
        crate::segment_ops::SegmentMergeError::IdsExhausted => next_segment_id == u32::MAX,
        crate::segment_ops::SegmentMergeError::DuplicateSegment(segment) => {
            &&& next_segment_id < u32::MAX
            &&& exists|i: int, j: int|
                0 <= i < j < source_segments.len() && source_segments[i] == segment
                    && source_segments[j] == segment
        },
        crate::segment_ops::SegmentMergeError::SegmentNotActive(segment) => {
            &&& next_segment_id < u32::MAX
            &&& source_segments.contains(segment)
            &&& !crate::segment_ops::is_active(store, segment)
        },
        crate::segment_ops::SegmentMergeError::TooManyDocuments => {
            &&& next_segment_id < u32::MAX
            &&& crate::segment_ops::mergeable(store, source_segments, source_segments.len() as int)
            &&& crate::segment_ops::live_documents(store, source_segments).len() > 0x1_0000
        },
        crate::segment_ops::SegmentMergeError::SegmentActive(_) => false,
    }
}

/// What an index keeps in memory: its schema, the id of its next segment, the
/// ids of its terms, and the documents that its unique keys name.
pub struct Index {
    pub schema: Schema,
    pub next_segment_id: u32,
    pub term_dictionary: TermDictionary,
    pub document_index: DocumentIndexManager,
}

impl Index {
    /// Every part is well-formed.
    pub open spec fn wf(&self) -> bool {
        self.schema.wf() && self.term_dictionary.wf() && self.document_index.wf()
    }

    /// A new index, and the writes that start its store: the ids that the first
    /// field, the first segment and the first term get.
    pub fn create() -> (result: (Index, WriteBatch))
        ensures
            result.0.wf(),
            result.0.schema.fields() == Seq::<crate::schema::FieldDefinition>::empty(),
            result.0.next_segment_id == FIRST_SEGMENT_ID,
            result.0.term_dictionary.next_id() == FIRST_TERM_ID,
            result.0.term_dictionary@ == Map::<Seq<u8>, crate::term::TermId>::empty(),
            result.0.document_index@ == Map::<Seq<u8>, DocId>::empty(),
            result.1@ == seq![
                field_counter_put(FIRST_FIELD_ID),
                segment_counter_put(FIRST_SEGMENT_ID),
                term_counter_put(FIRST_TERM_ID),
            ],
    {
        let mut batch = WriteBatch::new();
        let field = to_decimal(FIRST_FIELD_ID);
        batch.put(&Key::next_field_id(), field.as_slice());
        let segment = to_decimal(FIRST_SEGMENT_ID);
        batch.put(&Key::next_segment_id(), segment.as_slice());
        let term = to_decimal(FIRST_TERM_ID);
        batch.put(&Key::next_term_dictionary_id(), term.as_slice());
        let index = Index {
            schema: Schema::new(),
            next_segment_id: FIRST_SEGMENT_ID,
            term_dictionary: TermDictionary::new(FIRST_TERM_ID),
            document_index: DocumentIndexManager::new(),
        };
        assert(index.term_dictionary@ =~= Map::<Seq<u8>, crate::term::TermId>::empty());
        assert(batch@ =~= seq![
            field_counter_put(FIRST_FIELD_ID),
            segment_counter_put(FIRST_SEGMENT_ID),
            term_counter_put(FIRST_TERM_ID),
        ]);
        (index, batch)
    }

    /// Reads a stored counter: the number that the bytes spell in decimal.
    /// Fails where nothing is stored and on bytes that spell no number of 32
    /// bits.
    pub fn read_counter(bytes: Option<&[u8]>) -> (counter: Option<u32>)
        ensures
            counter == counter_of(crate::merge_operator::optional_bytes(bytes)),
    {
        match bytes {
            Some(bytes) => parse_decimal(bytes),
            None => None,
        }
    }

    /// Puts the parts of an index that was loaded together. Fails where the id
    /// of the next segment is not stored or cannot be read.
    pub fn open(
        next_segment_id: Option<&[u8]>,
        schema: Schema,
        term_dictionary: TermDictionary,
        document_index: DocumentIndexManager,
    ) -> (index: Option<Index>)
        ensures
            index is Some <==> counter_of(
                crate::merge_operator::optional_bytes(next_segment_id),
            ) is Some,
            index matches Some(index) ==> {
                &&& Some(index.next_segment_id) == counter_of(
                    crate::merge_operator::optional_bytes(next_segment_id),
                )
                &&& index.schema == schema
                &&& index.term_dictionary == term_dictionary
                &&& index.document_index == document_index
            },
    {
        match Index::read_counter(next_segment_id) {
            Some(next_segment_id) => Some(
                Index { schema, next_segment_id, term_dictionary, document_index },
            ),
            None => None,
        }
    }

    /// Hands out the id of a new segment and appends to the batch the write
    /// that stores the id that the next one gets. Fails, changing nothing,
    /// exactly where no id is left.
    pub fn new_segment_id(&mut self, write_batch: &mut WriteBatch) -> (segment_id: Option<SegmentId>)
        ensures
            final(self).schema == old(self).schema,
            final(self).term_dictionary == old(self).term_dictionary,
            final(self).document_index == old(self).document_index,
            match segment_id {
                Some(segment_id) => {
                    &&& old(self).next_segment_id < u32::MAX
                    &&& segment_id == SegmentId(old(self).next_segment_id)
                    &&& final(self).next_segment_id == old(self).next_segment_id + 1
                    &&& final(write_batch)@ == old(write_batch)@.push(
                        segment_counter_put(final(self).next_segment_id),
                    )
                },
                None => {
                    &&& old(self).next_segment_id == u32::MAX
                    &&& final(self).next_segment_id == old(self).next_segment_id
                    &&& final(write_batch)@ == old(write_batch)@
                },
            },
    {
        if self.next_segment_id == u32::MAX {
            return None;
        }
        let segment_id = self.next_segment_id;
        self.next_segment_id = segment_id + 1;
        let next = to_decimal(segment_id + 1);
        write_batch.put(&Key::next_segment_id(), next.as_slice());
        Some(SegmentId(segment_id))
    }

    /// Adds a field to the schema; the batch stores the id that the next field
    /// gets, and the definition of the new field. Fails, changing nothing,
    /// exactly where a field of the name is there and not deleted, or no id is
    /// left.
    pub fn add_field(&mut self, name: String, data_type: FieldDataType, flags: FieldFlags) -> (result:
        Result<(FieldId, WriteBatch), AddFieldError>)
        requires
            old(self).wf(),
        ensures
            final(self).wf(),
            final(self).next_segment_id == old(self).next_segment_id,
            final(self).term_dictionary == old(self).term_dictionary,
            final(self).document_index == old(self).document_index,
            match result {
                Ok((field_id, batch)) => {
                    &&& !old(self).schema.has_name(encode_utf8(name@))
                    &&& old(self).schema.next_field_id() < 0x1_0000
                    &&& field_id.0 == old(self).schema.next_field_id()
                    &&& final(self).schema.fields().len() == old(self).schema.fields().len() + 1
                    &&& final(self).schema.has(field_id)
                    &&& final(self).schema.definition(field_id).name_spec() == name@
                    &&& final(self).schema.definition(field_id).data_type_spec() == data_type
                    &&& final(self).schema.definition(field_id).flags_spec() == flags
                    &&& final(self).schema.fields().subrange(
                        0,
                        old(self).schema.fields().len() as int,
                    ) == old(self).schema.fields()
                    &&& batch@ == seq![
                        field_counter_put((field_id.0 + 1) as u32),
                        field_definition_put(
                            field_id,
                            (FieldDefinitionModel { name: name@, data_type, flags }),
                        ),
                    ]
                },
                Err(error) => {
                    &&& crate::schema::add_refused(error, old(self).schema, name@)
                    &&& final(self).schema.fields() == old(self).schema.fields()
                },
            },
    {
        match self.schema.add_field(name, data_type, flags) {
            Ok(field_id) => {
                let mut batch = WriteBatch::new();
                let next = to_decimal(field_id.0 as u32 + 1);
                batch.put(&Key::next_field_id(), next.as_slice());
                self.put_definition(field_id, &mut batch);
                assert(batch@ =~= seq![
                    field_counter_put((field_id.0 + 1) as u32),
                    field_definition_put(
                        field_id,
                        (FieldDefinitionModel { name: name@, data_type, flags }),
                    ),
                ]);
                Ok((field_id, batch))
            },
            Err(error) => Err(error),
        }
    }

    /// Appends the write that stores the definition of a field of the schema.
    fn put_definition(&self, field_id: FieldId, write_batch: &mut WriteBatch)
        requires
            self.schema.wf(),
            self.schema.has(field_id),
        ensures
            final(write_batch)@ == old(write_batch)@.push(
                field_definition_put(field_id, self.schema.definition(field_id)@),
            ),
    {
        match self.schema.get(field_id) {
            Some(definition) => {
                let bytes = definition.to_bytes();
                write_batch.put(&Key::field_definition(field_id), bytes.as_slice());
            },
            None => {},
        }
    }

    /// Marks a field as deleted; see the schema. The batch stores the
    /// definition with its new flags, and is empty where no field was deleted.
    pub fn delete_field(&mut self, field_id: FieldId) -> (result: (bool, WriteBatch))
        requires
            old(self).wf(),
        ensures
            final(self).wf(),
            result.0 == old(self).schema.accepts(field_id),
            !final(self).schema.accepts(field_id),
            final(self).next_segment_id == old(self).next_segment_id,
            final(self).term_dictionary == old(self).term_dictionary,
            final(self).document_index == old(self).document_index,
            final(self).schema.fields().len() == old(self).schema.fields().len(),
            forall|other: FieldId|
                other != field_id && #[trigger] old(self).schema.has(other) ==> final(self).schema.definition(
                    other,
                ) == old(self).schema.definition(other),
            result.1@ == if result.0 {
                seq![
                    field_definition_put(
                        field_id,
                        (FieldDefinitionModel {
                            flags: (FieldFlags {
                                deleted: true,
                                ..old(self).schema.definition(field_id).flags_spec()
                            }),
                            ..old(self).schema.definition(field_id)@
                        }),
                    ),
                ]
            } else {
                Seq::empty()
            },
            !result.0 ==> final(self).schema.fields() == old(self).schema.fields(),
    {
        let mut batch = WriteBatch::new();
        let deleted = self.schema.delete_field(field_id);
        assert forall|other: FieldId|
            other != field_id && #[trigger] old(self).schema.has(other) implies self.schema.definition(
            other,
        ) == old(self).schema.definition(other) by {
            assert(self.schema.has(other) == old(self).schema.has(other));
        }
        if deleted {
            self.put_definition(field_id, &mut batch);
            assert(batch@ =~= seq![
                field_definition_put(field_id, self.schema.definition(field_id)@),
            ]);
            assert(self.schema.definition(field_id)@ == (FieldDefinitionModel {
                flags: (FieldFlags {
                    deleted: true,
                    ..old(self).schema.definition(field_id).flags_spec()
                }),
                ..old(self).schema.definition(field_id)@
            }));
        }
        (deleted, batch)
    }

    /// The first field of the document that the schema takes no documents for.
    fn rejected_field(&self, doc: &Document) -> (field: Option<FieldId>)
        requires
            self.schema.wf(),
        ensures
            field is None <==> fields_accepted(self.schema, *doc),
            field matches Some(field) ==> !self.schema.accepts(field) && has_field(*doc, field),
    {
        let mut i: usize = 0;
        while i < doc.indexed_fields.len()
            invariant
                i <= doc.indexed_fields.len(),
                self.schema.wf(),
                forall|j: int| 0 <= j < i ==> self.schema.accepts((#[trigger] doc.indexed_fields@[j]).0),
            decreases doc.indexed_fields.len() - i,
        {
            let field = doc.indexed_fields[i].0;
            assert(doc.indexed_fields@[i as int].0 == field);
            match self.schema.get(field) {
                Some(definition) => {
                    if definition.flags().deleted {
                        return Some(field);
                    }
                },
                None => {
                    return Some(field);
                },
            }
            i += 1;
        }
        let mut k: usize = 0;
        while k < doc.stored_fields.len()
            invariant
                k <= doc.stored_fields.len(),
                self.schema.wf(),
                forall|j: int|
                    0 <= j < doc.indexed_fields@.len() ==> self.schema.accepts(
                        (#[trigger] doc.indexed_fields@[j]).0,
                    ),
                forall|j: int| 0 <= j < k ==> self.schema.accepts((#[trigger] doc.stored_fields@[j]).0),
            decreases doc.stored_fields.len() - k,
        {
            let field = doc.stored_fields[k].0;
            assert(doc.stored_fields@[k as int].0 == field);
            match self.schema.get(field) {
                Some(definition) => {
                    if definition.flags().deleted {
                        return Some(field);
                    }
                },
                None => {
                    return Some(field);
                },
            }
            k += 1;
        }
        None
    }

    /// A segment in the making that holds the document and nothing else.
    fn build_segment(doc: &Document) -> (builder: SegmentBuilder)
        requires
            doc.wf(),
        ensures
            holds_only(builder, *doc),
            builder.wf(),
    {
        let mut builder = SegmentBuilder::new();
        proof {
            assert forall|f: FieldId, t: Seq<u8>| #[trigger]
                builder.posting(f, t) == Set::<u16>::empty() by {}
            assert(builder.stored() =~= Seq::empty());
        }
        let ghost empty = builder;
        let added = builder.add_document(doc);
        proof {
            reveal(holds_only);
            assert(added is Ok);
            assert forall|f: FieldId, t: Seq<u8>| #[trigger]
                builder.posting(f, t) == only_if(doc.has_term(f, t), 0) by {
                assert(empty.posting(f, t) =~= Set::<u16>::empty());
                assert(Set::<u16>::empty().union(only_if(doc.has_term(f, t), 0)) =~= only_if(
                    doc.has_term(f, t),
                    0,
                ));
            }
            assert(builder.stored() =~= document_values(*doc, 0));
            assert forall|f: FieldId| #[trigger]
                totals_of(builder.totals(), f) == totals_after(
                    FieldTotals { docs: 0, tokens: 0 },
                    doc.indexed(),
                    f,
                ) by {
                assert(totals_of(empty.totals(), f) == FieldTotals { docs: 0, tokens: 0 });
            }
        }
        builder
    }

    /// Puts a document into the index, in a segment of its own, and hands back
    /// the writes to commit as one. A document that the key named before is
    /// replaced: the batch records its deletion.
    ///
    /// Fails, changing nothing, where the document has a field that the schema
    /// takes no documents for, and where no id is left for the segment or fewer
    /// ids are left for terms than the document has terms.
    ///
    /// The index changes at once. Where the write of the batch can fail,
    /// `prepare_insert` works the change out first and leaves the index as it is.
    #[verifier::spinoff_prover]
    #[verifier::rlimit(60)]
    pub fn insert_or_update_document(&mut self, doc: &Document) -> (result: Result<
        WriteBatch,
        DocumentInsertError,
    >)
        requires
            old(self).wf(),
            doc.wf(),
        ensures
            final(self).wf(),
            final(self).schema == old(self).schema,
            match result {
                Ok(batch) => {
                    &&& fields_accepted(old(self).schema, *doc)
                    &&& old(self).next_segment_id < u32::MAX
                    &&& final(self).next_segment_id == old(self).next_segment_id + 1
                    &&& final(self).document_index@ == old(self).document_index@.insert(
                        doc.key_bytes(),
                        DocId(SegmentId(old(self).next_segment_id), 0),
                    )
                    &&& crate::term_dictionary::extends(
                        old(self).term_dictionary@,
                        final(self).term_dictionary@,
                    )
                    &&& inserts(
                        batch@,
                        *doc,
                        old(self).next_segment_id,
                        old(self).term_dictionary@,
                        old(self).term_dictionary.next_id(),
                        if old(self).document_index@.contains_key(doc.key_bytes()) {
                            Some(old(self).document_index@[doc.key_bytes()])
                        } else {
                            None
                        },
                    )
                    &&& crate::inserted::inserts_under(
                        batch@,
                        *doc,
                        old(self).next_segment_id,
                        old(self).term_dictionary@,
                        old(self).term_dictionary.next_id(),
                        if old(self).document_index@.contains_key(doc.key_bytes()) {
                            Some(old(self).document_index@[doc.key_bytes()])
                        } else {
                            None
                        },
                        final(self).term_dictionary@,
                        final(self).term_dictionary.next_id(),
                    )
                },
                Err(error) => {
                    &&& final(self).next_segment_id == old(self).next_segment_id
                    &&& final(self).document_index.entries() == old(self).document_index.entries()
                    &&& final(self).term_dictionary.entries() == old(self).term_dictionary.entries()
                    &&& final(self).term_dictionary.next_id() == old(self).term_dictionary.next_id()
                    &&& match error {
                        DocumentInsertError::FieldDoesntExist(field) => !fields_accepted(
                            old(self).schema,
                            *doc,
                        ) && has_field(*doc, field) && !old(self).schema.accepts(field),
                        DocumentInsertError::IdsExhausted => fields_accepted(
                            old(self).schema,
                            *doc,
                        ) && (old(self).next_segment_id == u32::MAX || terms_exhaust(
                            *doc,
                            old(self).term_dictionary.next_id(),
                        )),
                        DocumentInsertError::SegmentFull => false,
                    }
                },
            },
    {
        if let Some(field) = self.rejected_field(doc) {
            return Err(DocumentInsertError::FieldDoesntExist(field));
        }
        if self.next_segment_id == u32::MAX {
            return Err(DocumentInsertError::IdsExhausted);
        }
        // Build the segment in memory.
        let builder = Index::build_segment(doc);
        // Write the segment.
        let segment = self.next_segment_id;
        let written = match write_segment(&builder, SegmentId(segment), &mut self.term_dictionary) {
            Some(written) => written,
            None => {
                assert(holds_only(builder, *doc) && old(self).term_dictionary.next_id()
                    + builder.terms().len() > u32::MAX);
                return Err(DocumentInsertError::IdsExhausted);
            },
        };
        let ghost resolved = self.term_dictionary@;
        let ghost resolved_next = self.term_dictionary.next_id();
        assert(grown_by(
            old(self).term_dictionary@,
            resolved,
            builder.terms(),
            builder.terms().len() as int,
        ));
        assert(resolves(
            resolved,
            builder.terms(),
            resolved_ids(
                old(self).term_dictionary@,
                old(self).term_dictionary.next_id(),
                builder.terms(),
            ),
            builder.terms().len() as int,
        ));
        let mut batch = WriteBatch::new();
        let allocated = self.new_segment_id(&mut batch);
        batch.extend(written);
        // The key names the new document.
        let key = copy_bytes(doc.key.as_str().as_bytes());
        let replaced = self.document_index.insert_or_replace_key(
            &key,
            DocId::from_segment_ord(segment, 0),
        );
        batch.extend(replaced.1);
        proof {
            assert(batch@ =~= insertion(
                builder,
                segment,
                old(self).term_dictionary@,
                old(self).term_dictionary.next_id(),
                doc.key_bytes(),
                replaced.0,
            ));
            assert(self.term_dictionary@ == resolved);
            assert(self.term_dictionary.next_id() == resolved_next);
            assert(crate::inserted::inserts_with(
                builder,
                batch@,
                *doc,
                segment,
                old(self).term_dictionary@,
                old(self).term_dictionary.next_id(),
                replaced.0,
                resolved,
                resolved_next,
            )) by {
                reveal(crate::inserted::inserts_with);
            }
        }
        Ok(batch)
    }

    /// Merges segments into a new one, given the entries of the store as they
    /// are now, and hands back the id of the new segment and the writes to commit
    /// as one. The keys of the documents that are left name their new places.
    ///
    /// The batch stores the id that the next segment gets, writes the new
    /// segment, makes it live in place of the merged ones, stores the new
    /// places of the keys, and last writes the deletion list of the new segment.
    ///
    /// Fails, changing nothing, exactly where no id is left, a segment is given
    /// twice or is not live, or more documents are left than a segment holds;
    /// the error says which.
    ///
    /// The index changes at once. Where the write of the batch can fail,
    /// `prepare_merge` works the change out first and leaves the index as it is.
    #[verifier::spinoff_prover]
    pub fn merge_segments(
        &mut self,
        entries: &Vec<(Vec<u8>, Vec<u8>)>,
        source_segments: &Vec<u32>,
    ) -> (result: Result<(SegmentId, WriteBatch), crate::segment_ops::SegmentMergeError>)
        requires
            old(self).wf(),
        ensures
            final(self).wf(),
            final(self).schema == old(self).schema,
            final(self).term_dictionary == old(self).term_dictionary,
            match result {
                Ok((dest, batch)) => {
                    let store = crate::segment::entries_map(entries@);
                    let kept = crate::segment_ops::live_documents(store, source_segments@);
                    let mapping = crate::doc_id_mapping::mapping_of(kept);
                    &&& old(self).next_segment_id < u32::MAX
                    &&& dest == SegmentId(old(self).next_segment_id)
                    &&& final(self).next_segment_id == old(self).next_segment_id + 1
                    &&& kept.len() <= 0x1_0000
                    &&& final(self).document_index.entries()
                        == crate::document_index::relocated_entries(
                        old(self).document_index.entries(),
                        mapping,
                        dest,
                    )
                    &&& crate::segment_ops::merge_model(
                        entries@,
                        source_segments@,
                        mapping,
                        dest.0,
                    ).all_readable()
                    &&& batch@ == seq![segment_counter_put(final(self).next_segment_id)]
                        + crate::segment_ops::merge_model(
                        entries@,
                        source_segments@,
                        mapping,
                        dest.0,
                    ).writes(kept.len()) + crate::document_index::relocation_puts(
                        old(self).document_index.entries(),
                        mapping,
                        dest,
                    ) + seq![
                        OpModel::Put {
                            key: deletion_list_key(dest.0),
                            value: crate::doc_id_set::ordinal_bytes(
                                crate::doc_id_set::listing_of(
                                    crate::document_index::relocated_deletions(
                                        crate::segment_ops::deletions_in(store, source_segments@),
                                        mapping,
                                    ),
                                ),
                            ),
                        },
                    ]
                },
                Err(error) => {
                    &&& final(self).next_segment_id == old(self).next_segment_id
                    &&& final(self).document_index == old(self).document_index
                    &&& merge_refused(
                        error,
                        old(self).next_segment_id,
                        crate::segment::entries_map(entries@),
                        source_segments@,
                    )
                },
            },
            result is Ok <==> old(self).next_segment_id < u32::MAX
                && crate::segment_ops::mergeable(
                crate::segment::entries_map(entries@),
                source_segments@,
                source_segments@.len() as int,
            ) && crate::segment_ops::live_documents(
                crate::segment::entries_map(entries@),
                source_segments@,
            ).len() <= 0x1_0000,
    {
        if self.next_segment_id == u32::MAX {
            return Err(crate::segment_ops::SegmentMergeError::IdsExhausted);
        }
        let dest = self.next_segment_id;
        let merged = match crate::segment_ops::merge_segments(entries, source_segments, dest) {
            Ok(merged) => merged,
            Err(error) => {
                return Err(error);
            },
        };
        let mut batch = WriteBatch::new();
        let allocated = self.new_segment_id(&mut batch);
        batch.extend(merged.0);
        let deletions = crate::segment_ops::load_deletions(entries, source_segments);
        let batch = self.document_index.commit_segment_merge(batch, &deletions, dest, &merged.1);
        Ok((SegmentId(dest), batch))
    }

    /// Takes a document out of the index by its key; see the index of keys.
    /// The index changes at once; `prepare_remove` works the change out first.
    pub fn remove_document_by_key(&mut self, key: &Vec<u8>) -> (result: (Option<DocId>, WriteBatch))
        requires
            old(self).wf(),
        ensures
            final(self).wf(),
            final(self).schema == old(self).schema,
            final(self).next_segment_id == old(self).next_segment_id,
            final(self).term_dictionary == old(self).term_dictionary,
            final(self).document_index@ == old(self).document_index@.remove(key@),
            result.0 == (if old(self).document_index@.contains_key(key@) {
                Some(old(self).document_index@[key@])
            } else {
                None
            }),
            result.1@ == (match result.0 {
                Some(doc_id) => seq![
                    OpModel::Delete { key: (KeyModel::UniqueKey { key: key@ }).encoding() },
                ] + tombstone(doc_id),
                None => Seq::empty(),
            }),
    {
        self.document_index.delete_document_by_key(key)
    }

    /// Whether a document of the key is in the index.
    pub fn contains_document_key(&self, key: &Vec<u8>) -> (present: bool)
        ensures
            present == self.document_index@.contains_key(key@),
    {
        self.document_index.contains_document_key(key)
    }

    /// Reads a stored value of a field, given the bytes that the store has for
    /// it, if it has any. Fails where the schema does not have the field or the
    /// bytes are no value of the field's type.
    pub fn read_stored_field(&self, field_id: FieldId, stored: Option<&[u8]>) -> (value: Result<
        Option<FieldValue>,
        StoredFieldReadError,
    >)
        requires
            self.wf(),
        ensures
            match value {
                Ok(Some(value)) => {
                    &&& self.schema.has(field_id)
                    &&& stored matches Some(bytes) && FieldValueModel::decoding(
                        self.schema.definition(field_id).data_type_spec(),
                        bytes@,
                    ) == Some(value@)
                },
                Ok(None) => self.schema.has(field_id) && stored is None,
                Err(error) => {
                    ||| !self.schema.has(field_id) && error
                        == StoredFieldReadError::InvalidFieldRef(field_id)
                    ||| self.schema.has(field_id) && (stored matches Some(bytes)
                        && FieldValueModel::decoding(
                        self.schema.definition(field_id).data_type_spec(),
                        bytes@,
                    ) is None && crate::document::tells_of(
                        error,
                        self.schema.definition(field_id).data_type_spec(),
                        bytes@,
                    ))
                },
            },
    {
        let definition = match self.schema.get(field_id) {
            Some(definition) => definition,
            None => {
                return Err(StoredFieldReadError::InvalidFieldRef(field_id));
            },
        };
        match stored {
            Some(bytes) => match FieldValue::from_bytes(definition.data_type(), bytes) {
                Ok(value) => Ok(Some(value)),
                Err(error) => Err(error),
            },
            None => Ok(None),
        }
    }
}

/// The writes that record new terms are about terms and metadata.
pub proof fn lemma_term_writes_families(
    known: Map<Seq<u8>, TermId>,
    next_id: u32,
    terms: Seq<Seq<u8>>,
)
    ensures
        within_families(term_writes(known, next_id, terms), TAG_TERM_DICTIONARY, TAG_METADATA),
    decreases terms.len(),
{
    if terms.len() > 0 {
        lemma_term_writes_families(known, next_id, terms.drop_last());
        let before = term_writes(known, next_id, terms.drop_last());
        let all = term_writes(known, next_id, terms);
        assert forall|i: int| 0 <= i < all.len() implies op_key(#[trigger] all[i]).len() > 0 && (
        op_key(all[i])[0] == TAG_TERM_DICTIONARY || op_key(all[i])[0] == TAG_METADATA) by {
            if i < before.len() {
                assert(all[i] == before[i]);
            } else {
                let creation = term_creation(
                    terms.last(),
                    (next_id + fresh_count(known, terms.drop_last())) as u32,
                );
                assert(all[i] == creation[i - before.len()]);
            }
        }
    }
}

/// The writes of term directories are about term directories and statistics.
pub proof fn lemma_directory_writes_families(
    directories: Seq<((u16, usize), DocIdSet)>,
    ids: Seq<TermId>,
    segment: SegmentId,
)
    ensures
        within_families(
            directory_writes(directories, ids, segment),
            TAG_TERM_DIRECTORY,
            TAG_STATISTIC,
        ),
    decreases directories.len(),
{
    if directories.len() > 0 {
        lemma_directory_writes_families(directories.drop_last(), ids, segment);
        let before = directory_writes(directories.drop_last(), ids, segment);
        let all = directory_writes(directories, ids, segment);
        let last = directory_write(directories.last(), ids, segment);
        assert forall|i: int| 0 <= i < all.len() implies op_key(#[trigger] all[i]).len() > 0 && (
        op_key(all[i])[0] == TAG_TERM_DIRECTORY || op_key(all[i])[0] == TAG_STATISTIC) by {
            if i < before.len() {
                assert(all[i] == before[i]);
            } else {
                assert(all[i] == last[i - before.len()]);
            }
        }
    }
}

/// The writes of the totals of fields are about statistics.
pub proof fn lemma_totals_writes_families(totals: Seq<(u16, FieldTotals)>, segment: SegmentId)
    ensures
        within_families(totals_writes(totals, segment), TAG_STATISTIC, TAG_STATISTIC),
    decreases totals.len(),
{
    if totals.len() > 0 {
        lemma_totals_writes_families(totals.drop_last(), segment);
        let before = totals_writes(totals.drop_last(), segment);
        let all = totals_writes(totals, segment);
        let last = totals_write(totals.last(), segment);
        assert forall|i: int| 0 <= i < all.len() implies op_key(#[trigger] all[i]).len() > 0 && (
        op_key(all[i])[0] == TAG_STATISTIC) by {
            if i < before.len() {
                assert(all[i] == before[i]);
            } else {
                assert(all[i] == last[i - before.len()]);
            }
        }
    }
}

/// The writes of kept values are about kept values.
pub proof fn lemma_stored_writes_families(
    values: Seq<StoredValue>,
    ids: Seq<TermId>,
    segment: SegmentId,
)
    ensures
        within_families(stored_writes(values, ids, segment), TAG_FIELD_VALUE, TAG_FIELD_VALUE),
{
}

/// What comes behind the kept values in an insertion: the statistics, the
/// activation, the place of the key, and the record of a deletion.
pub open spec fn insertion_tail(
    builder: SegmentBuilder,
    segment: u32,
    key: Seq<u8>,
    previous: Option<DocId>,
) -> Seq<OpModel> {
    seq![total_docs_write(builder.doc_count(), SegmentId(segment))] + totals_writes(
        builder.totals(),
        SegmentId(segment),
    ) + seq![activation(SegmentId(segment))] + seq![
        location_put(key, DocId(SegmentId(segment), 0)),
    ] + (match previous {
        Some(previous) => tombstone(previous),
        None => Seq::empty(),
    })
}

/// What comes before the kept values in an insertion: the id of the next
/// segment, the new terms, and the term directories.
pub open spec fn insertion_head(
    builder: SegmentBuilder,
    segment: u32,
    known: Map<Seq<u8>, TermId>,
    next_term_id: u32,
) -> Seq<OpModel> {
    seq![segment_counter_put((segment + 1) as u32)] + term_writes(
        known,
        next_term_id,
        builder.terms(),
    ) + directory_writes(
        builder.directories(),
        resolved_ids(known, next_term_id, builder.terms()),
        SegmentId(segment),
    )
}

/// Nothing behind the kept values in an insertion is about a kept value.
pub proof fn lemma_insertion_tail(
    builder: SegmentBuilder,
    segment: u32,
    key: Seq<u8>,
    previous: Option<DocId>,
    about: Seq<u8>,
)
    requires
        about.len() > 0,
        about[0] == TAG_FIELD_VALUE,
    ensures
        !touches(insertion_tail(builder, segment, key, previous), about),
{
    let a = seq![total_docs_write(builder.doc_count(), SegmentId(segment))];
    let b = totals_writes(builder.totals(), SegmentId(segment));
    let c = seq![activation(SegmentId(segment))];
    let d = seq![location_put(key, DocId(SegmentId(segment), 0))];
    let e = match previous {
        Some(previous) => tombstone(previous),
        None => Seq::empty(),
    };
    lemma_totals_writes_families(builder.totals(), SegmentId(segment));
    assert(within_families(a, TAG_STATISTIC, TAG_STATISTIC));
    assert(within_families(c, TAG_ACTIVE_SEGMENT, TAG_ACTIVE_SEGMENT));
    assert(within_families(d, TAG_UNIQUE_KEY, TAG_UNIQUE_KEY));
    assert(within_families(e, TAG_DELETION_LIST, TAG_STATISTIC));
    lemma_other_families(a, TAG_STATISTIC, TAG_STATISTIC, about);
    lemma_other_families(b, TAG_STATISTIC, TAG_STATISTIC, about);
    lemma_other_families(c, TAG_ACTIVE_SEGMENT, TAG_ACTIVE_SEGMENT, about);
    lemma_other_families(d, TAG_UNIQUE_KEY, TAG_UNIQUE_KEY, about);
    lemma_other_families(e, TAG_DELETION_LIST, TAG_STATISTIC, about);
    lemma_touches_concat(a, b, about);
    lemma_touches_concat(a + b, c, about);
    lemma_touches_concat(a + b + c, d, about);
    lemma_touches_concat(a + b + c + d, e, about);
}

/// The key under which the value itself of a field of a document is kept.
pub open spec fn field_value_key(doc_id: DocId, field: FieldId) -> Seq<u8> {
    (KeyModel::DocumentFieldValue { doc_id, field_id: field, kind: ValueKind::Value }).encoding()
}

/// In a builder that holds one document and nothing else, the values of the
/// stored fields are kept last, in the order of the fields.
pub proof fn lemma_kept_values(builder: SegmentBuilder, doc: Document, i: int)
    requires
        holds_only(builder, doc),
        0 <= i < doc.stored().len(),
    ensures
        ({
            let at = indexed_values(0, doc.indexed()).len() + i;
            let raw = builder.stored_values();
            &&& raw.len() == indexed_values(0, doc.indexed()).len() + doc.stored().len()
            &&& raw[at].ord == 0
            &&& raw[at].field == doc.stored()[i].0
            &&& raw[at].kind == LocalKind::Value
            &&& raw[at].value@ == doc.stored()[i].1.encoding()
        }),
{
    reveal(holds_only);
    let indexed = indexed_values(0, doc.indexed());
    let kept = stored_field_values(0, doc.stored());
    let at = indexed.len() + i;
    let raw = builder.stored_values();
    assert(builder.stored() == indexed + kept);
    assert(builder.stored().len() == raw.len());
    assert(builder.stored()[at] == kept[i]);
    assert(builder.stored()[at] == stored_model(raw[at], builder.terms()));
}

/// The write of the value itself of a field is about the key of that value,
/// and about the key of the value of no other field.
pub proof fn lemma_value_write(
    value: StoredValue,
    ids: Seq<TermId>,
    dest: SegmentId,
    field: FieldId,
)
    requires
        value.kind == LocalKind::Value,
        value.ord == 0,
    ensures
        value.field == field ==> stored_write(value, ids, dest) == (OpModel::Put {
            key: field_value_key(DocId(dest, 0), field),
            value: value.value@,
        }),
        value.field != field ==> op_key(stored_write(value, ids, dest)) != field_value_key(
            DocId(dest, 0),
            field,
        ),
{
    if value.field != field {
        let other = KeyModel::DocumentFieldValue {
            doc_id: DocId(dest, 0),
            field_id: value.field,
            kind: ValueKind::Value,
        };
        let this = KeyModel::DocumentFieldValue {
            doc_id: DocId(dest, 0),
            field_id: field,
            kind: ValueKind::Value,
        };
        if other.encoding() == this.encoding() {
            other.lemma_encoding_injective(this);
        }
    }
}

/// The key of a kept value is of the family of kept values.
pub proof fn lemma_field_value_key(doc_id: DocId, field: FieldId)
    ensures
        field_value_key(doc_id, field).len() > 0,
        field_value_key(doc_id, field)[0] == TAG_FIELD_VALUE,
{
}

/// The writes of an insertion are those before the kept values, those of the
/// kept values, and those behind.
pub proof fn lemma_insertion_parts(
    builder: SegmentBuilder,
    segment: u32,
    known: Map<Seq<u8>, TermId>,
    next_term_id: u32,
    key: Seq<u8>,
    previous: Option<DocId>,
)
    ensures
        insertion(builder, segment, known, next_term_id, key, previous) == insertion_head(
            builder,
            segment,
            known,
            next_term_id,
        ) + stored_writes(
            builder.stored_values(),
            resolved_ids(known, next_term_id, builder.terms()),
            SegmentId(segment),
        ) + insertion_tail(builder, segment, key, previous),
{
    let whole = insertion(builder, segment, known, next_term_id, key, previous);
    let parts = insertion_head(builder, segment, known, next_term_id) + stored_writes(
        builder.stored_values(),
        resolved_ids(known, next_term_id, builder.terms()),
        SegmentId(segment),
    ) + insertion_tail(builder, segment, key, previous);
    assert(whole =~= parts);
}

/// After a document is put into the index, the store has, for every stored
/// field of the document, the bytes of the field's value, and these are read
/// back as the value. For a time this holds of whole microseconds outside a
/// leap second, since no more is stored of a time.
#[verifier::spinoff_prover]
pub proof fn lemma_stored_fields_round_trip(
    store: StoreModel,
    batch: Seq<OpModel>,
    doc: Document,
    segment: u32,
    known: Map<Seq<u8>, TermId>,
    next_term_id: u32,
    previous: Option<DocId>,
    i: int,
    data_type: FieldDataType,
)
    requires
        doc.wf(),
        inserts(batch, doc, segment, known, next_term_id, previous),
        0 <= i < doc.stored().len(),
        doc.stored()[i].1.has_type(data_type),
        doc.stored()[i].1.exact(),
    ensures
        stored(
            apply_batch(store, batch),
            field_value_key(DocId(SegmentId(segment), 0), doc.stored()[i].0),
        ) == Some(doc.stored()[i].1.encoding()),
        FieldValueModel::decoding(data_type, doc.stored()[i].1.encoding()) == Some(
            doc.stored()[i].1,
        ),
{
    doc.stored()[i].1.lemma_round_trip(data_type);
    let builder = choose|builder: SegmentBuilder| #[trigger]
        holds_only(builder, doc) && batch == insertion(
            builder,
            segment,
            known,
            next_term_id,
            doc.key_bytes(),
            previous,
        );
    let dest = SegmentId(segment);
    let ids = resolved_ids(known, next_term_id, builder.terms());
    let field = doc.stored()[i].0;
    let key = field_value_key(DocId(dest, 0), field);
    let value = doc.stored()[i].1.encoding();
    let first = indexed_values(0, doc.indexed()).len();
    let at = first + i;
    let raw = builder.stored_values();
    let writes = stored_writes(raw, ids, dest);
    let put = OpModel::Put { key, value };
    lemma_kept_values(builder, doc, i);
    lemma_value_write(raw[at], ids, dest, field);
    assert(writes[at] == put);
    let later = writes.subrange(at + 1, writes.len() as int);
    assert forall|k: int| 0 <= k < later.len() implies op_key(#[trigger] later[k]) != key by {
        let j = at + 1 + k;
        lemma_kept_values(builder, doc, j - first);
        assert(doc.stored()[j - first].0 != doc.stored()[i].0);
        lemma_value_write(raw[j], ids, dest, field);
        assert(later[k] == stored_write(raw[j], ids, dest));
    }
    assert(!touches(later, key));
    let tail = insertion_tail(builder, segment, doc.key_bytes(), previous);
    lemma_field_value_key(DocId(dest, 0), field);
    lemma_insertion_tail(builder, segment, doc.key_bytes(), previous, key);
    lemma_touches_concat(later, tail, key);
    let head = insertion_head(builder, segment, known, next_term_id);
    let before = head + writes.subrange(0, at);
    lemma_insertion_parts(builder, segment, known, next_term_id, doc.key_bytes(), previous);
    assert(writes =~= writes.subrange(0, at) + seq![put] + later);
    assert(head + writes + tail =~= before + seq![put] + (later + tail));
    lemma_apply_last_put(store, before, key, value, later + tail);
}

/// After a document is put into the index in place of another, the document
/// that was replaced is among the deleted ones of its segment; the segment of
/// the new document is live, the key names the new document, and the new
/// document is not deleted, its segment being new.
#[verifier::spinoff_prover]
pub proof fn lemma_replacement(
    store: StoreModel,
    batch: Seq<OpModel>,
    doc: Document,
    segment: u32,
    known: Map<Seq<u8>, TermId>,
    next_term_id: u32,
    previous: DocId,
)
    requires
        inserts(batch, doc, segment, known, next_term_id, Some(previous)),
        deletion_list_whole(store, previous.0.0),
        previous.0.0 != segment,
        stored(store, deletion_list_key(segment)) is None,
    ensures
        deleted_in(apply_batch(store, batch), previous.0.0).contains(previous.1),
        forall|ord: u16|
            deleted_in(store, previous.0.0).contains(ord) ==> deleted_in(
                apply_batch(store, batch),
                previous.0.0,
            ).contains(ord),
        deleted_in(apply_batch(store, batch), segment) == Set::<u16>::empty(),
        stored(
            apply_batch(store, batch),
            (KeyModel::ActiveSegment { segment_id: SegmentId(segment) }).encoding(),
        ) is Some,
        stored(
            apply_batch(store, batch),
            (KeyModel::UniqueKey { key: doc.key_bytes() }).encoding(),
        ) == Some(DocId(SegmentId(segment), 0).encoding()),
{
    let builder = choose|builder: SegmentBuilder| #[trigger]
        holds_only(builder, doc) && batch == insertion(
            builder,
            segment,
            known,
            next_term_id,
            doc.key_bytes(),
            Some(previous),
        );
    let dest = SegmentId(segment);
    let ids = resolved_ids(known, next_term_id, builder.terms());
    let counter = seq![segment_counter_put((segment + 1) as u32)];
    let terms = term_writes(known, next_term_id, builder.terms());
    let directories = directory_writes(builder.directories(), ids, dest);
    let values = stored_writes(builder.stored_values(), ids, dest);
    let total = seq![total_docs_write(builder.doc_count(), dest)];
    let totals = totals_writes(builder.totals(), dest);
    let active = activation(dest);
    let location = location_put(doc.key_bytes(), DocId(dest, 0));
    let tomb = tombstone(previous);
    lemma_term_writes_families(known, next_term_id, builder.terms());
    lemma_directory_writes_families(builder.directories(), ids, dest);
    lemma_stored_writes_families(builder.stored_values(), ids, dest);
    lemma_totals_writes_families(builder.totals(), dest);
    assert(within_families(counter, TAG_METADATA, TAG_METADATA));
    assert(within_families(total, TAG_STATISTIC, TAG_STATISTIC));
    assert(within_families(seq![active], TAG_ACTIVE_SEGMENT, TAG_ACTIVE_SEGMENT));
    assert(within_families(seq![location], TAG_UNIQUE_KEY, TAG_UNIQUE_KEY));
    assert(within_families(tomb, TAG_DELETION_LIST, TAG_STATISTIC));
    // The deletion lists are left alone until the deletion is recorded.
    let proper = counter + terms + directories + values + total + totals + seq![active] + seq![
        location,
    ];
    assert(batch =~= proper + tomb);
    lemma_apply_concat(store, proper, tomb);
    let midway = apply_batch(store, proper);
    assert forall|which: u32| !touches(proper, #[trigger] deletion_list_key(which)) by {
        let about = deletion_list_key(which);
        lemma_other_families(counter, TAG_METADATA, TAG_METADATA, about);
        lemma_other_families(terms, TAG_TERM_DICTIONARY, TAG_METADATA, about);
        lemma_other_families(directories, TAG_TERM_DIRECTORY, TAG_STATISTIC, about);
        lemma_other_families(values, TAG_FIELD_VALUE, TAG_FIELD_VALUE, about);
        lemma_other_families(total, TAG_STATISTIC, TAG_STATISTIC, about);
        lemma_other_families(totals, TAG_STATISTIC, TAG_STATISTIC, about);
        lemma_other_families(seq![active], TAG_ACTIVE_SEGMENT, TAG_ACTIVE_SEGMENT, about);
        lemma_other_families(seq![location], TAG_UNIQUE_KEY, TAG_UNIQUE_KEY, about);
        lemma_touches_concat(counter, terms, about);
        lemma_touches_concat(counter + terms, directories, about);
        lemma_touches_concat(counter + terms + directories, values, about);
        lemma_touches_concat(counter + terms + directories + values, total, about);
        lemma_touches_concat(counter + terms + directories + values + total, totals, about);
        lemma_touches_concat(
            counter + terms + directories + values + total + totals,
            seq![active],
            about,
        );
        lemma_touches_concat(
            counter + terms + directories + values + total + totals + seq![active],
            seq![location],
            about,
        );
    }
    lemma_apply_untouched(store, proper, deletion_list_key(previous.0.0));
    lemma_apply_untouched(store, proper, deletion_list_key(segment));
    lemma_tombstone_deletes(midway, previous);
    assert(deleted_in(midway, previous.0.0) == deleted_in(store, previous.0.0));
    assert(deleted_in(apply_batch(store, batch), segment) =~= Set::<u16>::empty());
    // The activation and the place of the key are the last writes about their keys.
    let active_key = (KeyModel::ActiveSegment { segment_id: dest }).encoding();
    let before_active = counter + terms + directories + values + total + totals;
    lemma_other_families(seq![location], TAG_UNIQUE_KEY, TAG_UNIQUE_KEY, active_key);
    lemma_other_families(tomb, TAG_DELETION_LIST, TAG_STATISTIC, active_key);
    lemma_touches_concat(seq![location], tomb, active_key);
    assert(batch =~= before_active + seq![active] + (seq![location] + tomb));
    lemma_apply_last_put(store, before_active, active_key, Seq::empty(), seq![location] + tomb);
    let unique = (KeyModel::UniqueKey { key: doc.key_bytes() }).encoding();
    lemma_other_families(tomb, TAG_DELETION_LIST, TAG_STATISTIC, unique);
    assert(batch =~= (before_active + seq![active]) + seq![location] + tomb);
    lemma_apply_last_put(
        store,
        before_active + seq![active],
        unique,
        DocId(dest, 0).encoding(),
        tomb,
    );
}

/// The record of a deletion is about a deletion list and a statistic.
pub proof fn lemma_tombstone_families(doc_id: DocId)
    ensures
        within_families(tombstone(doc_id), TAG_DELETION_LIST, TAG_STATISTIC),
{
}

/// Putting a document into the index brings no deleted document back: every
/// document that was deleted is deleted still.
#[verifier::spinoff_prover]
pub proof fn lemma_insertion_keeps_deletions(
    store: StoreModel,
    batch: Seq<OpModel>,
    doc: Document,
    segment: u32,
    known: Map<Seq<u8>, TermId>,
    next_term_id: u32,
    previous: Option<DocId>,
    of: u32,
    ord: u16,
)
    requires
        inserts(batch, doc, segment, known, next_term_id, previous),
        previous matches Some(previous) ==> deletion_list_whole(store, previous.0.0),
        deleted_in(store, of).contains(ord),
    ensures
        deleted_in(apply_batch(store, batch), of).contains(ord),
{
    let builder = choose|builder: SegmentBuilder| #[trigger]
        holds_only(builder, doc) && batch == insertion(
            builder,
            segment,
            known,
            next_term_id,
            doc.key_bytes(),
            previous,
        );
    let dest = SegmentId(segment);
    let ids = resolved_ids(known, next_term_id, builder.terms());
    let head = insertion_head(builder, segment, known, next_term_id);
    let values = stored_writes(builder.stored_values(), ids, dest);
    let total = seq![total_docs_write(builder.doc_count(), dest)];
    let totals = totals_writes(builder.totals(), dest);
    let active = seq![activation(dest)];
    let location = seq![location_put(doc.key_bytes(), DocId(dest, 0))];
    let counter = seq![segment_counter_put((segment + 1) as u32)];
    let terms = term_writes(known, next_term_id, builder.terms());
    let directories = directory_writes(builder.directories(), ids, dest);
    let proper = counter + terms + directories + values + total + totals + active + location;
    lemma_term_writes_families(known, next_term_id, builder.terms());
    lemma_directory_writes_families(builder.directories(), ids, dest);
    lemma_stored_writes_families(builder.stored_values(), ids, dest);
    lemma_totals_writes_families(builder.totals(), dest);
    assert(within_families(counter, TAG_METADATA, TAG_METADATA));
    assert(within_families(total, TAG_STATISTIC, TAG_STATISTIC));
    assert(within_families(active, TAG_ACTIVE_SEGMENT, TAG_ACTIVE_SEGMENT));
    assert(within_families(location, TAG_UNIQUE_KEY, TAG_UNIQUE_KEY));
    assert forall|which: u32| !touches(proper, #[trigger] deletion_list_key(which)) by {
        let about = deletion_list_key(which);
        lemma_other_families(counter, TAG_METADATA, TAG_METADATA, about);
        lemma_other_families(terms, TAG_TERM_DICTIONARY, TAG_METADATA, about);
        lemma_other_families(directories, TAG_TERM_DIRECTORY, TAG_STATISTIC, about);
        lemma_other_families(values, TAG_FIELD_VALUE, TAG_FIELD_VALUE, about);
        lemma_other_families(total, TAG_STATISTIC, TAG_STATISTIC, about);
        lemma_other_families(totals, TAG_STATISTIC, TAG_STATISTIC, about);
        lemma_other_families(active, TAG_ACTIVE_SEGMENT, TAG_ACTIVE_SEGMENT, about);
        lemma_other_families(location, TAG_UNIQUE_KEY, TAG_UNIQUE_KEY, about);
        lemma_touches_concat(counter, terms, about);
        lemma_touches_concat(counter + terms, directories, about);
        lemma_touches_concat(counter + terms + directories, values, about);
        lemma_touches_concat(counter + terms + directories + values, total, about);
        lemma_touches_concat(counter + terms + directories + values + total, totals, about);
        lemma_touches_concat(
            counter + terms + directories + values + total + totals,
            active,
            about,
        );
        lemma_touches_concat(
            counter + terms + directories + values + total + totals + active,
            location,
            about,
        );
    }
    let midway = apply_batch(store, proper);
    lemma_apply_untouched(store, proper, deletion_list_key(of));
    match previous {
        Some(previous) => {
            assert(batch =~= proper + tombstone(previous));
            lemma_apply_concat(store, proper, tombstone(previous));
            lemma_apply_untouched(store, proper, deletion_list_key(previous.0.0));
            lemma_tombstone_deletes(midway, previous);
            if of != previous.0.0 {
                assert(stored(apply_batch(midway, tombstone(previous)), deletion_list_key(of))
                    == stored(midway, deletion_list_key(of)));
            }
        },
        None => {
            assert(batch =~= proper);
        },
    }
}

/// Taking a document out of the index by its key deletes it, and every
/// document that was deleted is deleted still.
#[verifier::spinoff_prover]
pub proof fn lemma_removal_deletes(store: StoreModel, key: Seq<u8>, doc_id: DocId, of: u32, ord: u16)
    requires
        deletion_list_whole(store, doc_id.0.0),
    ensures
        ({
            let after = apply_batch(
                store,
                seq![OpModel::Delete { key: (KeyModel::UniqueKey { key }).encoding() }]
                    + tombstone(doc_id),
            );
            &&& deleted_in(after, doc_id.0.0).contains(doc_id.1)
            &&& deleted_in(store, of).contains(ord) ==> deleted_in(after, of).contains(ord)
            &&& stored(after, (KeyModel::UniqueKey { key }).encoding()) is None
        }),
{
    let unique = (KeyModel::UniqueKey { key }).encoding();
    let first = seq![OpModel::Delete { key: unique }];
    let batch = first + tombstone(doc_id);
    lemma_apply_concat(store, first, tombstone(doc_id));
    let midway = apply_batch(store, first);
    assert(Seq::<OpModel>::empty().push(OpModel::Delete { key: unique }) =~= first);
    crate::write_batch::lemma_apply_push(store, Seq::empty(), OpModel::Delete { key: unique });
    assert(apply_batch(store, Seq::<OpModel>::empty()) == store);
    assert(midway == store.remove(unique));
    assert forall|which: u32| stored(midway, #[trigger] deletion_list_key(which)) == stored(
        store,
        deletion_list_key(which),
    ) by {
        assert(deletion_list_key(which)[0] == TAG_DELETION_LIST);
        assert(unique[0] == TAG_UNIQUE_KEY);
    }
    lemma_tombstone_deletes(midway, doc_id);
    if of != doc_id.0.0 {
        assert(stored(apply_batch(midway, tombstone(doc_id)), deletion_list_key(of)) == stored(
            midway,
            deletion_list_key(of),
        ));
    }
    lemma_tombstone_families(doc_id);
    lemma_other_families(tombstone(doc_id), TAG_DELETION_LIST, TAG_STATISTIC, unique);
    lemma_apply_untouched(midway, tombstone(doc_id), unique);
}

} // verus!
