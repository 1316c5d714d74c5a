//! Changes to an index that wait for their write.
//!
//! The functions of the index that change it hand out a batch for the store
//! after the change is made in memory. Where the write of a batch can fail, the
//! functions here come first: each works out, from an index that it leaves as
//! it is, the batch and the index as it will be. The caller writes the batch
//! and then puts the new index in place with `commit`; where the write fails it
//! drops the new index, and memory and store agree as before.

use crate::doc_id_set::{DocIdSet, listing_of, ordinal_bytes};
use crate::document::{DocId, Document, SegmentId};
use crate::doc_id_mapping::{DocIdMapping, mapping_of};
use crate::document_index::{
    deletion_views, DocumentIndexManager, location_put, relocated_deletions, relocated_entries,
    relocation_puts, tombstone,
};
use crate::index::{
    DocumentInsertError, field_counter_put, field_definition_put, fields_accepted, has_field,
    Index, inserts, merge_refused, segment_counter_put, terms_exhaust,
};
use crate::key::KeyModel;
use crate::schema::{
    add_refused, AddFieldError, FieldDataType, FieldDefinitionModel, FieldFlags, FieldId,
    same_fields, Schema,
};
use vstd::utf8::encode_utf8;
use crate::segment::{deletion_list_key, entries_map};
use crate::segment_ops::{deletions_in, live_documents, merge_model, mergeable, SegmentMergeError};
use crate::term_dictionary::extends;
use crate::write_batch::{OpModel, WriteBatch};
use vstd::prelude::*;

verus! {

/// Schemas of the same fields take documents for the same fields.
pub proof fn lemma_same_fields(a: Schema, b: Schema)
    requires
        same_fields(a, b),
    ensures
        a.wf() == b.wf(),
        forall|field: FieldId| #[trigger] a.has(field) == b.has(field),
        forall|field: FieldId| #[trigger] a.accepts(field) == b.accepts(field),
        forall|doc: Document| #[trigger] fields_accepted(a, doc) == fields_accepted(b, doc),
{
    assert forall|field: FieldId| #[trigger] a.accepts(field) == b.accepts(
        field,
    ) by {
        if a.has(field) {
            let i = Schema::place(field);
            assert(a.fields()[i]@ == b.fields()[i]@);
        }
    }
    assert(a.wf() == b.wf()) by {
        if a.wf() {
            assert forall|i: int, j: int|
                0 <= i < b.fields().len() && 0 <= j < b.fields().len() && i != j
                    && !b.fields()[i].flags_spec().deleted
                    && !b.fields()[j].flags_spec().deleted implies b.fields()[i].name_bytes()
                != b.fields()[j].name_bytes() by {
                assert(a.fields()[i]@ == b.fields()[i]@);
                assert(a.fields()[j]@ == b.fields()[j]@);
            }
        }
        if b.wf() {
            assert forall|i: int, j: int|
                0 <= i < a.fields().len() && 0 <= j < a.fields().len() && i != j
                    && !a.fields()[i].flags_spec().deleted
                    && !a.fields()[j].flags_spec().deleted implies a.fields()[i].name_bytes()
                != a.fields()[j].name_bytes() by {
                assert(a.fields()[i]@ == b.fields()[i]@);
                assert(a.fields()[j]@ == b.fields()[j]@);
            }
        }
    }
}

impl Index {
    /// The two indexes hold the same: the same fields, the same id for the next
    /// segment, the same terms with the same ids, and the same keys for the
    /// same documents.
    pub open spec fn agrees(&self, other: &Index) -> bool {
        &&& same_fields(self.schema, other.schema)
        &&& self.next_segment_id == other.next_segment_id
        &&& self.term_dictionary.entries() == other.term_dictionary.entries()
        &&& self.term_dictionary.next_id() == other.term_dictionary.next_id()
        &&& self.document_index.entries() == other.document_index.entries()
    }

    /// Puts in place the index that a change was worked out to give. To be
    /// called when the batch of that change is written.
    pub fn commit(&mut self, next: Index)
        ensures
            *final(self) == next,
    {
        *self = next;
    }

    /// Works out what `insert_or_update_document` does, leaving the index as
    /// it is: the batch to write and the index to commit when it is written.
    pub fn prepare_insert(&self, doc: &Document) -> (result: Result<
        (WriteBatch, Index),
        DocumentInsertError,
    >)
        requires
            self.wf(),
            doc.wf(),
        ensures
            match result {
                Ok((batch, next)) => {
                    &&& next.wf()
                    &&& same_fields(next.schema, self.schema)
                    &&& fields_accepted(self.schema, *doc)
                    &&& self.next_segment_id < u32::MAX
                    &&& next.next_segment_id == self.next_segment_id + 1
                    &&& next.document_index@ == self.document_index@.insert(
                        doc.key_bytes(),
                        DocId(SegmentId(self.next_segment_id), 0),
                    )
                    &&& extends(self.term_dictionary@, next.term_dictionary@)
                    &&& inserts(
                        batch@,
                        *doc,
                        self.next_segment_id,
                        self.term_dictionary@,
                        self.term_dictionary.next_id(),
                        if self.document_index@.contains_key(doc.key_bytes()) {
                            Some(self.document_index@[doc.key_bytes()])
                        } else {
                            None
                        },
                    )
                    &&& crate::inserted::inserts_under(
                        batch@,
                        *doc,
                        self.next_segment_id,
                        self.term_dictionary@,
                        self.term_dictionary.next_id(),
                        if self.document_index@.contains_key(doc.key_bytes()) {
                            Some(self.document_index@[doc.key_bytes()])
                        } else {
                            None
                        },
                        next.term_dictionary@,
                        next.term_dictionary.next_id(),
                    )
                },
                Err(error) => match error {
                    DocumentInsertError::FieldDoesntExist(field) => !fields_accepted(
                        self.schema,
                        *doc,
                    ) && has_field(*doc, field) && !self.schema.accepts(field),
                    DocumentInsertError::IdsExhausted => fields_accepted(self.schema, *doc) && (
                    self.next_segment_id == u32::MAX || terms_exhaust(
                        *doc,
                        self.term_dictionary.next_id(),
                    )),
                    DocumentInsertError::SegmentFull => false,
                },
            },
    {
        let mut next = self.clone();
        proof {
            lemma_same_fields(next.schema, self.schema);
        }
        match next.insert_or_update_document(doc) {
            Ok(batch) => Ok((batch, next)),
            Err(error) => Err(error),
        }
    }

    /// Works out what `remove_document_by_key` does, leaving the index as it
    /// is: the document that the key names, the batch to write and the index
    /// to commit when it is written.
    pub fn prepare_remove(&self, key: &Vec<u8>) -> (result: (Option<DocId>, WriteBatch, Index))
        requires
            self.wf(),
        ensures
            result.2.wf(),
            same_fields(result.2.schema, self.schema),
            result.2.next_segment_id == self.next_segment_id,
            result.2.term_dictionary.entries() == self.term_dictionary.entries(),
            result.2.term_dictionary.next_id() == self.term_dictionary.next_id(),
            result.2.document_index@ == self.document_index@.remove(key@),
            result.0 == (if self.document_index@.contains_key(key@) {
                Some(self.document_index@[key@])
            } else {
                None
            }),
            result.1@ == (match result.0 {
                Some(doc_id) => seq![
                    OpModel::Delete { key: (KeyModel::UniqueKey { key: key@ }).encoding() },
                ] + tombstone(doc_id),
                None => Seq::empty(),
            }),
    {
        let mut next = self.clone();
        let removed = next.remove_document_by_key(key);
        (removed.0, removed.1, next)
    }

    /// Works out what `merge_segments` does, leaving the index as it is: the id
    /// of the new segment, the batch to write and the index to commit when it
    /// is written.
    pub fn prepare_merge(&self, entries: &Vec<(Vec<u8>, Vec<u8>)>, source_segments: &Vec<u32>) -> (result:
        Result<(SegmentId, WriteBatch, Index), SegmentMergeError>)
        requires
            self.wf(),
        ensures
            match result {
                Ok((dest, batch, next)) => {
                    let store = entries_map(entries@);
                    let kept = live_documents(store, source_segments@);
                    let mapping = mapping_of(kept);
                    &&& next.wf()
                    &&& same_fields(next.schema, self.schema)
                    &&& next.term_dictionary.entries() == self.term_dictionary.entries()
                    &&& next.term_dictionary.next_id() == self.term_dictionary.next_id()
                    &&& dest == SegmentId(self.next_segment_id)
                    &&& next.next_segment_id == self.next_segment_id + 1
                    &&& next.document_index.entries() == relocated_entries(
                        self.document_index.entries(),
                        mapping,
                        dest,
                    )
                    &&& merge_model(entries@, source_segments@, mapping, dest.0).all_readable()
                    &&& batch@ == seq![segment_counter_put(next.next_segment_id)] + merge_model(
                        entries@,
                        source_segments@,
                        mapping,
                        dest.0,
                    ).writes(kept.len()) + relocation_puts(
                        self.document_index.entries(),
                        mapping,
                        dest,
                    ) + seq![
                        OpModel::Put {
                            key: deletion_list_key(dest.0),
                            value: ordinal_bytes(
                                listing_of(
                                    relocated_deletions(
                                        deletions_in(store, source_segments@),
                                        mapping,
                                    ),
                                ),
                            ),
                        },
                    ]
                },
                Err(error) => merge_refused(
                    error,
                    self.next_segment_id,
                    entries_map(entries@),
                    source_segments@,
                ),
            },
            result is Ok <==> self.next_segment_id < u32::MAX && mergeable(
                entries_map(entries@),
                source_segments@,
                source_segments@.len() as int,
            ) && live_documents(entries_map(entries@), source_segments@).len() <= 0x1_0000,
    {
        let mut next = self.clone();
        match next.merge_segments(entries, source_segments) {
            Ok(merged) => Ok((merged.0, merged.1, next)),
            Err(error) => Err(error),
        }
    }
}

impl Index {
    /// Works out what `add_field` does, leaving the index as it is: the id of
    /// the new field, the batch to write and the index to commit when it is
    /// written.
    pub fn prepare_add_field(&self, name: String, data_type: FieldDataType, flags: FieldFlags) -> (result:
        Result<(FieldId, WriteBatch, Index), AddFieldError>)
        requires
            self.wf(),
        ensures
            match result {
                Ok((field_id, batch, next)) => {
                    &&& next.wf()
                    &&& next.next_segment_id == self.next_segment_id
                    &&& next.term_dictionary.entries() == self.term_dictionary.entries()
                    &&& next.term_dictionary.next_id() == self.term_dictionary.next_id()
                    &&& next.document_index.entries() == self.document_index.entries()
                    &&& !self.schema.has_name(encode_utf8(name@))
                    &&& self.schema.next_field_id() < 0x1_0000
                    &&& field_id.0 == self.schema.next_field_id()
                    &&& next.schema.fields().len() == self.schema.fields().len() + 1
                    &&& forall|i: int|
                        0 <= i < self.schema.fields().len() ==> (#[trigger] next.schema.fields()[i])@
                            == self.schema.fields()[i]@
                    &&& next.schema.definition(field_id)@ == (FieldDefinitionModel {
                        name: name@,
                        data_type,
                        flags,
                    })
                    &&& batch@ == seq![
                        field_counter_put((field_id.0 + 1) as u32),
                        field_definition_put(
                            field_id,
                            (FieldDefinitionModel { name: name@, data_type, flags }),
                        ),
                    ]
                },
                Err(error) => add_refused(error, self.schema, name@),
            },
    {
        let mut next = self.clone();
        let ghost copied = next.schema;
        proof {
            lemma_same_names(copied, self.schema);
        }
        match next.add_field(name, data_type, flags) {
            Ok(added) => {
                proof {
                    let before = copied.fields();
                    let after = next.schema.fields();
                    assert forall|i: int| 0 <= i < self.schema.fields().len() implies (
                    #[trigger] after[i])@ == self.schema.fields()[i]@ by {
                        assert(after.subrange(0, before.len() as int)[i] == after[i]);
                        assert(before[i]@ == self.schema.fields()[i]@);
                    }
                }
                Ok((added.0, added.1, next))
            },
            Err(error) => Err(error),
        }
    }

    /// Works out what `delete_field` does, leaving the index as it is: whether
    /// a field is deleted, the batch to write and the index to commit when it
    /// is written.
    pub fn prepare_delete_field(&self, field_id: FieldId) -> (result: (bool, WriteBatch, Index))
        requires
            self.wf(),
        ensures
            result.2.wf(),
            result.0 == self.schema.accepts(field_id),
            !result.2.schema.accepts(field_id),
            result.2.next_segment_id == self.next_segment_id,
            result.2.term_dictionary.entries() == self.term_dictionary.entries(),
            result.2.term_dictionary.next_id() == self.term_dictionary.next_id(),
            result.2.document_index.entries() == self.document_index.entries(),
            result.2.schema.fields().len() == self.schema.fields().len(),
            forall|other: FieldId|
                other != field_id && #[trigger] self.schema.has(other) ==> result.2.schema.definition(
                    other,
                )@ == self.schema.definition(other)@,
            result.1@ == if result.0 {
                seq![
                    field_definition_put(
                        field_id,
                        (FieldDefinitionModel {
                            flags: (FieldFlags {
                                deleted: true,
                                ..self.schema.definition(field_id).flags_spec()
                            }),
                            ..self.schema.definition(field_id)@
                        }),
                    ),
                ]
            } else {
                Seq::empty()
            },
            !result.0 ==> same_fields(result.2.schema, self.schema),
    {
        let mut next = self.clone();
        let ghost copied = next.schema;
        proof {
            lemma_same_fields(copied, self.schema);
            if self.schema.has(field_id) {
                assert(copied.fields()[Schema::place(field_id)]@ == self.schema.fields()[Schema::place(
                    field_id,
                )]@);
            }
        }
        let deleted = next.delete_field(field_id);
        proof {
            assert forall|other: FieldId|
                other != field_id && #[trigger] self.schema.has(other) implies next.schema.definition(
                other,
            )@ == self.schema.definition(other)@ by {
                assert(copied.has(other));
                assert(copied.fields()[Schema::place(other)]@ == self.schema.fields()[Schema::place(
                    other,
                )]@);
            }
        }
        (deleted.0, deleted.1, next)
    }
}

/// Schemas of the same fields have the same names taken.
pub proof fn lemma_same_names(a: Schema, b: Schema)
    requires
        same_fields(a, b),
    ensures
        forall|name: Seq<u8>| #[trigger] a.has_name(name) == b.has_name(name),
{
    assert forall|name: Seq<u8>| #[trigger] a.has_name(name) == b.has_name(name) by {
        if a.has_name(name) {
            let i = choose|i: int|
                0 <= i < a.fields().len() && (#[trigger] a.fields()[i]).name_bytes() == name
                    && !a.fields()[i].flags_spec().deleted;
            assert(a.fields()[i]@ == b.fields()[i]@);
            assert(b.fields()[i].name_bytes() == name);
        }
        if b.has_name(name) {
            let i = choose|i: int|
                0 <= i < b.fields().len() && (#[trigger] b.fields()[i]).name_bytes() == name
                    && !b.fields()[i].flags_spec().deleted;
            assert(a.fields()[i]@ == b.fields()[i]@);
            assert(a.fields()[i].name_bytes() == name);
        }
    }
}

impl DocumentIndexManager {
    /// Puts in place the index of keys that a change was worked out to give. To
    /// be called when the batch of that change is written.
    pub fn commit(&mut self, next: DocumentIndexManager)
        ensures
            *final(self) == next,
    {
        *self = next;
    }

    /// Works out what `insert_or_replace_key` does, leaving the index of keys
    /// as it is: the document that the key named, the batch to write and the
    /// index of keys to commit when it is written.
    pub fn prepare_insert_or_replace(&self, key: &Vec<u8>, doc_ref: DocId) -> (result: (
        Option<DocId>,
        WriteBatch,
        DocumentIndexManager,
    ))
        requires
            self.wf(),
        ensures
            result.2.wf(),
            result.2@ == self@.insert(key@, doc_ref),
            result.0 == (if self@.contains_key(key@) {
                Some(self@[key@])
            } else {
                None
            }),
            result.1@ == seq![location_put(key@, doc_ref)] + (match result.0 {
                Some(previous) => tombstone(previous),
                None => Seq::empty(),
            }),
    {
        let mut next = self.clone();
        let replaced = next.insert_or_replace_key(key, doc_ref);
        (replaced.0, replaced.1, next)
    }

    /// Works out what `delete_document_by_key` does, leaving the index of keys
    /// as it is: the document that the key named, the batch to write and the
    /// index of keys to commit when it is written.
    pub fn prepare_delete(&self, key: &Vec<u8>) -> (result: (
        Option<DocId>,
        WriteBatch,
        DocumentIndexManager,
    ))
        requires
            self.wf(),
        ensures
            result.2.wf(),
            result.2@ == self@.remove(key@),
            result.0 == (if self@.contains_key(key@) {
                Some(self@[key@])
            } else {
                None
            }),
            result.1@ == (match result.0 {
                Some(doc_id) => seq![
                    OpModel::Delete { key: (KeyModel::UniqueKey { key: key@ }).encoding() },
                ] + tombstone(doc_id),
                None => Seq::empty(),
            }),
    {
        let mut next = self.clone();
        let removed = next.delete_document_by_key(key);
        (removed.0, removed.1, next)
    }

    /// Works out what `commit_segment_merge` does, leaving the index of keys as
    /// it is: the whole batch of the merge to write, and the index of keys to
    /// commit when it is written.
    pub fn prepare_segment_merge(
        &self,
        write_batch: WriteBatch,
        source_deletions: &Vec<(u32, DocIdSet)>,
        dest_segment: u32,
        doc_ref_mapping: &DocIdMapping,
    ) -> (result: (WriteBatch, DocumentIndexManager))
        requires
            self.wf(),
            doc_ref_mapping.wf(),
        ensures
            result.1.wf(),
            result.1.entries() == relocated_entries(
                self.entries(),
                doc_ref_mapping@,
                SegmentId(dest_segment),
            ),
            result.0@ == write_batch@ + relocation_puts(
                self.entries(),
                doc_ref_mapping@,
                SegmentId(dest_segment),
            ) + seq![
                OpModel::Put {
                    key: (KeyModel::DeletedDocument {
                        segment_id: SegmentId(dest_segment),
                    }).encoding(),
                    value: ordinal_bytes(
                        listing_of(
                            relocated_deletions(
                                deletion_views(source_deletions@),
                                doc_ref_mapping@,
                            ),
                        ),
                    ),
                },
            ],
    {
        let mut next = self.clone();
        let batch = next.commit_segment_merge(
            write_batch,
            source_deletions,
            dest_segment,
            doc_ref_mapping,
        );
        (batch, next)
    }
}

impl Clone for Index {
    /// Another index that holds the same.
    fn clone(&self) -> (copy: Index)
        ensures
            copy.agrees(self),
            self.wf() ==> copy.wf(),
    {
        let copy = Index {
            schema: self.schema.clone(),
            next_segment_id: self.next_segment_id,
            term_dictionary: self.term_dictionary.clone(),
            document_index: self.document_index.clone(),
        };
        copy
    }
}

} // verus!
