//! The keys of the store: one family per kind of entry, told apart by the first
//! byte, with numbers written most significant byte first so that the entries of
//! one family are stored in the order of their fields.

use crate::document::{DocId, SegmentId};
use crate::encoding::{
    be_u16, be_u32, lemma_decode_encode, lemma_encode_decode, read_u16_be, read_u32_be, u16_of_be,
    u32_of_be, write_u16_be, write_u32_be,
};
use crate::schema::FieldId;
use crate::term::{copy_bytes, Term, TermId};
use vstd::prelude::*;
use vstd::utf8::encode_utf8;

verus! {

/// First byte of a metadata key, `.`.
pub const TAG_METADATA: u8 = 46;

/// First byte of a field definition key, `f`.
pub const TAG_FIELD_DEFINITION: u8 = 102;

/// First byte of an active segment key, `a`.
pub const TAG_ACTIVE_SEGMENT: u8 = 97;

/// First byte of a term directory key, `d`.
pub const TAG_TERM_DIRECTORY: u8 = 100;

/// First byte of a stored value key, `v`.
pub const TAG_FIELD_VALUE: u8 = 118;

/// First byte of a deletion list key, `x`.
pub const TAG_DELETION_LIST: u8 = 120;

/// First byte of a statistic key, `s`.
pub const TAG_STATISTIC: u8 = 115;

/// First byte of a unique key entry, `k`.
pub const TAG_UNIQUE_KEY: u8 = 107;

/// First byte of a term dictionary key, `t`.
pub const TAG_TERM_DICTIONARY: u8 = 116;

/// The bytes `total_docs`.
pub open spec fn name_total_docs() -> Seq<u8> {
    seq![116u8, 111u8, 116u8, 97u8, 108u8, 95u8, 100u8, 111u8, 99u8, 115u8]
}

/// The bytes `deleted_docs`.
pub open spec fn name_deleted_docs() -> Seq<u8> {
    seq![100u8, 101u8, 108u8, 101u8, 116u8, 101u8, 100u8, 95u8, 100u8, 111u8, 99u8, 115u8]
}

/// The bytes `fdoc`.
pub open spec fn name_field_docs() -> Seq<u8> {
    seq![102u8, 100u8, 111u8, 99u8]
}

/// The bytes `ftok`.
pub open spec fn name_field_tokens() -> Seq<u8> {
    seq![102u8, 116u8, 111u8, 107u8]
}

/// The bytes `tdf`.
pub open spec fn name_term_doc_frequency() -> Seq<u8> {
    seq![116u8, 100u8, 102u8]
}

/// The bytes `val`.
pub open spec fn name_value() -> Seq<u8> {
    seq![118u8, 97u8, 108u8]
}

/// The bytes `len`.
pub open spec fn name_length() -> Seq<u8> {
    seq![108u8, 101u8, 110u8]
}

/// The bytes `tf`.
pub open spec fn name_term_frequency() -> Seq<u8> {
    seq![116u8, 102u8]
}

/// The bytes `next_field_id`.
pub open spec fn name_next_field_id() -> Seq<u8> {
    seq![110u8, 101u8, 120u8, 116u8, 95u8, 102u8, 105u8, 101u8, 108u8, 100u8, 95u8, 105u8, 100u8]
}

/// The bytes `next_segment_id`.
pub open spec fn name_next_segment_id() -> Seq<u8> {
    seq![110u8, 101u8, 120u8, 116u8, 95u8, 115u8, 101u8, 103u8, 109u8, 101u8, 110u8, 116u8, 95u8, 105u8, 100u8]
}

/// The bytes `next_term_dictionary_id`.
pub open spec fn name_next_term_dictionary_id() -> Seq<u8> {
    seq![110u8, 101u8, 120u8, 116u8, 95u8, 116u8, 101u8, 114u8, 109u8, 95u8, 100u8, 105u8, 99u8, 116u8, 105u8, 111u8, 110u8, 97u8, 114u8, 121u8, 95u8, 105u8, 100u8]
}

/// The bytes `schema`.
pub open spec fn name_schema() -> Seq<u8> {
    seq![115u8, 99u8, 104u8, 101u8, 109u8, 97u8]
}

/// Appends `more` to `out`.
pub fn append_bytes(out: &mut Vec<u8>, more: &[u8])
    ensures
        final(out)@ == old(out)@ + more@,
{
    let mut i: usize = 0;
    while i < more.len()
        invariant
            i <= more.len(),
            out@ == old(out)@ + more@.subrange(0, i as int),
        decreases more.len() - i,
    {
        out.push(more[i]);
        assert(more@.subrange(0, i as int).push(more@[i as int]) =~= more@.subrange(
            0,
            i as int + 1,
        ));
        assert(out@ =~= old(out)@ + more@.subrange(0, i as int + 1));
        i += 1;
    }
    assert(more@.subrange(0, i as int) =~= more@);
}

/// Whether `bytes` begins with `prefix`.
pub fn starts_with(bytes: &[u8], prefix: &[u8]) -> (begins: bool)
    ensures
        begins == (prefix@.len() <= bytes@.len() && bytes@.subrange(0, prefix@.len() as int)
            == prefix@),
{
    if prefix.len() > bytes.len() {
        return false;
    }
    let mut i: usize = 0;
    while i < prefix.len()
        invariant
            i <= prefix.len(),
            prefix.len() <= bytes.len(),
            forall|j: int| 0 <= j < i ==> bytes@[j] == prefix@[j],
        decreases prefix.len() - i,
    {
        if bytes[i] != prefix[i] {
            assert(bytes@.subrange(0, prefix@.len() as int)[i as int] != prefix@[i as int]);
            return false;
        }
        i += 1;
    }
    assert(bytes@.subrange(0, prefix@.len() as int) =~= prefix@);
    true
}

/// What a statistic of a segment counts.
#[derive(Clone, Copy, Debug, PartialEq, Eq, Structural)]
pub enum StatisticKey {
    /// The documents ever added to the segment.
    TotalDocs,
    /// The documents of the segment that were deleted.
    DeletedDocs,
    /// The documents that have the field.
    TotalFieldDocs(FieldId),
    /// The tokens of the field, over all documents.
    TotalFieldTokens(FieldId),
    /// The documents that have the term in the field.
    TermDocFrequency(FieldId, TermId),
}

impl StatisticKey {
    /// The name of the statistic in a key.
    pub open spec fn encoding(self) -> Seq<u8> {
        match self {
            StatisticKey::TotalDocs => name_total_docs(),
            StatisticKey::DeletedDocs => name_deleted_docs(),
            StatisticKey::TotalFieldDocs(field) => name_field_docs() + be_u16(field.0),
            StatisticKey::TotalFieldTokens(field) => name_field_tokens() + be_u16(field.0),
            StatisticKey::TermDocFrequency(field, term) => name_term_doc_frequency() + be_u16(
                field.0,
            ) + be_u32(term.0),
        }
    }

    /// The statistic that a name stands for, if it is the name of one.
    pub open spec fn decoding(bytes: Seq<u8>) -> Option<StatisticKey> {
        if bytes == name_total_docs() {
            Some(StatisticKey::TotalDocs)
        } else if bytes == name_deleted_docs() {
            Some(StatisticKey::DeletedDocs)
        } else if bytes.len() == 6 && bytes.subrange(0, 4) == name_field_docs() {
            Some(StatisticKey::TotalFieldDocs(FieldId(u16_of_be(bytes.subrange(4, 6)))))
        } else if bytes.len() == 6 && bytes.subrange(0, 4) == name_field_tokens() {
            Some(StatisticKey::TotalFieldTokens(FieldId(u16_of_be(bytes.subrange(4, 6)))))
        } else if bytes.len() == 9 && bytes.subrange(0, 3) == name_term_doc_frequency() {
            Some(
                StatisticKey::TermDocFrequency(
                    FieldId(u16_of_be(bytes.subrange(3, 5))),
                    TermId(u32_of_be(bytes.subrange(5, 9))),
                ),
            )
        } else {
            None
        }
    }

    /// The bytes of the name of the counter.
    pub fn to_bytes(&self) -> (bytes: Vec<u8>)
        ensures
            bytes@ == self.encoding(),
    {
        match self {
            StatisticKey::TotalDocs => {
                let bytes = vec![116u8, 111u8, 116u8, 97u8, 108u8, 95u8, 100u8, 111u8, 99u8, 115u8];
                assert(bytes@ =~= name_total_docs());
                bytes
            },
            StatisticKey::DeletedDocs => {
                let bytes = vec![
                    100u8,
                    101u8,
                    108u8,
                    101u8,
                    116u8,
                    101u8,
                    100u8,
                    95u8,
                    100u8,
                    111u8,
                    99u8,
                    115u8,
                ];
                assert(bytes@ =~= name_deleted_docs());
                bytes
            },
            StatisticKey::TotalFieldDocs(field) => {
                let mut bytes = vec![102u8, 100u8, 111u8, 99u8];
                assert(bytes@ =~= name_field_docs());
                let mut id = write_u16_be(field.0);
                bytes.append(&mut id);
                bytes
            },
            StatisticKey::TotalFieldTokens(field) => {
                let mut bytes = vec![102u8, 116u8, 111u8, 107u8];
                assert(bytes@ =~= name_field_tokens());
                let mut id = write_u16_be(field.0);
                bytes.append(&mut id);
                bytes
            },
            StatisticKey::TermDocFrequency(field, term) => {
                let mut bytes = vec![116u8, 100u8, 102u8];
                assert(bytes@ =~= name_term_doc_frequency());
                let mut id = write_u16_be(field.0);
                bytes.append(&mut id);
                let mut id = write_u32_be(term.0);
                bytes.append(&mut id);
                bytes
            },
        }
    }

    /// The counter that bytes name, if they name one.
    pub fn from_bytes(bytes: &[u8]) -> (statistic: Option<StatisticKey>)
        ensures
            statistic == StatisticKey::decoding(bytes@),
    {
        let total_docs = StatisticKey::TotalDocs.to_bytes();
        let deleted_docs = StatisticKey::DeletedDocs.to_bytes();
        let field_docs = vec![102u8, 100u8, 111u8, 99u8];
        let field_tokens = vec![102u8, 116u8, 111u8, 107u8];
        let term_doc_frequency = vec![116u8, 100u8, 102u8];
        proof {
            assert(field_docs@ =~= name_field_docs());
            assert(field_tokens@ =~= name_field_tokens());
            assert(term_doc_frequency@ =~= name_term_doc_frequency());
            assert(bytes@.subrange(0, bytes@.len() as int) =~= bytes@);
        }
        if bytes.len() == 10 && starts_with(bytes, total_docs.as_slice()) {
            Some(StatisticKey::TotalDocs)
        } else if bytes.len() == 12 && starts_with(bytes, deleted_docs.as_slice()) {
            Some(StatisticKey::DeletedDocs)
        } else if bytes.len() == 6 && starts_with(bytes, field_docs.as_slice()) {
            Some(StatisticKey::TotalFieldDocs(FieldId(read_u16_be(&bytes[4..6]))))
        } else if bytes.len() == 6 && starts_with(bytes, field_tokens.as_slice()) {
            Some(StatisticKey::TotalFieldTokens(FieldId(read_u16_be(&bytes[4..6]))))
        } else if bytes.len() == 9 && starts_with(bytes, term_doc_frequency.as_slice()) {
            Some(
                StatisticKey::TermDocFrequency(
                    FieldId(read_u16_be(&bytes[3..5])),
                    TermId(read_u32_be(&bytes[5..9])),
                ),
            )
        } else {
            None
        }
    }

    /// A name stands for the statistic that it was made from.
    pub proof fn lemma_decoding_of_encoding(self)
        ensures
            StatisticKey::decoding(self.encoding()) == Some(self),
    {
        let bytes = self.encoding();
        match self {
            StatisticKey::TotalDocs => {},
            StatisticKey::DeletedDocs => {
                assert(bytes.len() != name_total_docs().len());
            },
            StatisticKey::TotalFieldDocs(field) => {
                lemma_decode_encode(field.0, 0, 0, 0);
                assert(bytes.len() == 6);
                assert(bytes.subrange(0, 4) =~= name_field_docs());
                assert(bytes.subrange(4, 6) =~= be_u16(field.0));
            },
            StatisticKey::TotalFieldTokens(field) => {
                lemma_decode_encode(field.0, 0, 0, 0);
                assert(bytes.len() == 6);
                assert(bytes.subrange(0, 4) =~= name_field_tokens());
                assert(bytes.subrange(0, 4)[1] != name_field_docs()[1]);
                assert(bytes.subrange(4, 6) =~= be_u16(field.0));
            },
            StatisticKey::TermDocFrequency(field, term) => {
                lemma_decode_encode(field.0, term.0, 0, 0);
                assert(bytes.len() == 9);
                assert(bytes.subrange(0, 3) =~= name_term_doc_frequency());
                assert(bytes.subrange(3, 5) =~= be_u16(field.0));
                assert(bytes.subrange(5, 9) =~= be_u32(term.0));
            },
        }
    }

    /// A name of a statistic is the one name of that statistic.
    pub proof fn lemma_encoding_of_decoding(bytes: Seq<u8>)
        requires
            StatisticKey::decoding(bytes) is Some,
        ensures
            StatisticKey::decoding(bytes).unwrap().encoding() == bytes,
    {
        match StatisticKey::decoding(bytes).unwrap() {
            StatisticKey::TotalDocs => {},
            StatisticKey::DeletedDocs => {},
            StatisticKey::TotalFieldDocs(field) => {
                lemma_encode_decode(bytes.subrange(4, 6));
                assert(bytes =~= bytes.subrange(0, 4) + bytes.subrange(4, 6));
            },
            StatisticKey::TotalFieldTokens(field) => {
                lemma_encode_decode(bytes.subrange(4, 6));
                assert(bytes =~= bytes.subrange(0, 4) + bytes.subrange(4, 6));
            },
            StatisticKey::TermDocFrequency(field, term) => {
                lemma_encode_decode(bytes.subrange(3, 5));
                lemma_encode_decode(bytes.subrange(5, 9));
                assert(bytes =~= bytes.subrange(0, 3) + bytes.subrange(3, 5) + bytes.subrange(
                    5,
                    9,
                ));
            },
        }
    }
}

/// What a stored value of a document's field holds.
#[derive(Clone, Copy, Debug, PartialEq, Eq, Structural)]
pub enum ValueKind {
    /// The field's value itself.
    Value,
    /// The field's length in tokens, squashed into one byte.
    Length,
    /// How often the term occurs in the field, where that is more than once.
    TermFrequency(TermId),
}

impl ValueKind {
    /// The name of the kind in a key.
    pub open spec fn encoding(self) -> Seq<u8> {
        match self {
            ValueKind::Value => name_value(),
            ValueKind::Length => name_length(),
            ValueKind::TermFrequency(term) => name_term_frequency() + be_u32(term.0),
        }
    }

    /// The kind that a name stands for, if it is the name of one.
    pub open spec fn decoding(bytes: Seq<u8>) -> Option<ValueKind> {
        if bytes == name_value() {
            Some(ValueKind::Value)
        } else if bytes == name_length() {
            Some(ValueKind::Length)
        } else if bytes.len() == 6 && bytes.subrange(0, 2) == name_term_frequency() {
            Some(ValueKind::TermFrequency(TermId(u32_of_be(bytes.subrange(2, 6)))))
        } else {
            None
        }
    }

    /// The bytes that name the kind of value.
    pub fn to_bytes(&self) -> (bytes: Vec<u8>)
        ensures
            bytes@ == self.encoding(),
    {
        match self {
            ValueKind::Value => {
                let bytes = vec![118u8, 97u8, 108u8];
                assert(bytes@ =~= name_value());
                bytes
            },
            ValueKind::Length => {
                let bytes = vec![108u8, 101u8, 110u8];
                assert(bytes@ =~= name_length());
                bytes
            },
            ValueKind::TermFrequency(term) => {
                let mut bytes = vec![116u8, 102u8];
                assert(bytes@ =~= name_term_frequency());
                let mut id = write_u32_be(term.0);
                bytes.append(&mut id);
                bytes
            },
        }
    }

    /// The kind of value that bytes name, if they name one.
    pub fn from_bytes(bytes: &[u8]) -> (kind: Option<ValueKind>)
        ensures
            kind == ValueKind::decoding(bytes@),
    {
        let value = vec![118u8, 97u8, 108u8];
        let length = vec![108u8, 101u8, 110u8];
        let term_frequency = vec![116u8, 102u8];
        proof {
            assert(value@ =~= name_value());
            assert(length@ =~= name_length());
            assert(term_frequency@ =~= name_term_frequency());
            assert(bytes@.subrange(0, bytes@.len() as int) =~= bytes@);
        }
        if bytes.len() == 3 && starts_with(bytes, value.as_slice()) {
            Some(ValueKind::Value)
        } else if bytes.len() == 3 && starts_with(bytes, length.as_slice()) {
            Some(ValueKind::Length)
        } else if bytes.len() == 6 && starts_with(bytes, term_frequency.as_slice()) {
            Some(ValueKind::TermFrequency(TermId(read_u32_be(&bytes[2..6]))))
        } else {
            None
        }
    }

    /// A name stands for the kind that it was made from.
    pub proof fn lemma_decoding_of_encoding(self)
        ensures
            ValueKind::decoding(self.encoding()) == Some(self),
    {
        let bytes = self.encoding();
        match self {
            ValueKind::Value => {},
            ValueKind::Length => {
                assert(bytes[0] != name_value()[0]);
            },
            ValueKind::TermFrequency(term) => {
                lemma_decode_encode(0, term.0, 0, 0);
                assert(bytes.len() == 6);
                assert(bytes.subrange(0, 2) =~= name_term_frequency());
                assert(bytes.subrange(2, 6) =~= be_u32(term.0));
            },
        }
    }

    /// A name of a kind is the one name of that kind.
    pub proof fn lemma_encoding_of_decoding(bytes: Seq<u8>)
        requires
            ValueKind::decoding(bytes) is Some,
        ensures
            ValueKind::decoding(bytes).unwrap().encoding() == bytes,
    {
        match ValueKind::decoding(bytes).unwrap() {
            ValueKind::Value => {},
            ValueKind::Length => {},
            ValueKind::TermFrequency(term) => {
                lemma_encode_decode(bytes.subrange(2, 6));
                assert(bytes =~= bytes.subrange(0, 2) + bytes.subrange(2, 6));
            },
        }
    }
}

/// A key of the store, as the bytes of its parts.
pub enum KeyModel {
    Metadata { name: Seq<u8> },
    FieldDefinition { field_id: FieldId },
    ActiveSegment { segment_id: SegmentId },
    DocumentFieldValue { doc_id: DocId, field_id: FieldId, kind: ValueKind },
    DeletedDocument { segment_id: SegmentId },
    TermDictionary { term: Seq<u8> },
    TermDirectory { field_id: FieldId, term_id: TermId, segment_id: SegmentId },
    UniqueKey { key: Seq<u8> },
    Statistic { segment_id: SegmentId, statistic: StatisticKey },
}

impl KeyModel {
    /// The bytes of the key: the byte of its family, then its parts in order.
    pub open spec fn encoding(self) -> Seq<u8> {
        match self {
            KeyModel::Metadata { name } => seq![TAG_METADATA] + name,
            KeyModel::FieldDefinition { field_id } => seq![TAG_FIELD_DEFINITION] + be_u16(
                field_id.0,
            ),
            KeyModel::ActiveSegment { segment_id } => seq![TAG_ACTIVE_SEGMENT] + be_u32(
                segment_id.0,
            ),
            KeyModel::DocumentFieldValue { doc_id, field_id, kind } => seq![TAG_FIELD_VALUE]
                + be_u32(doc_id.0.0) + be_u16(doc_id.1) + be_u16(field_id.0) + kind.encoding(),
            KeyModel::DeletedDocument { segment_id } => seq![TAG_DELETION_LIST] + be_u32(
                segment_id.0,
            ),
            KeyModel::TermDictionary { term } => seq![TAG_TERM_DICTIONARY] + term,
            KeyModel::TermDirectory { field_id, term_id, segment_id } => seq![TAG_TERM_DIRECTORY]
                + be_u16(field_id.0) + be_u32(term_id.0) + be_u32(segment_id.0),
            KeyModel::UniqueKey { key } => seq![TAG_UNIQUE_KEY] + key,
            KeyModel::Statistic { segment_id, statistic } => seq![TAG_STATISTIC] + be_u32(
                segment_id.0,
            ) + statistic.encoding(),
        }
    }

    /// The key that the bytes spell, if they spell one.
    pub open spec fn decoding(bytes: Seq<u8>) -> Option<KeyModel> {
        if bytes.len() == 0 {
            None
        } else {
            let tag = bytes[0];
            let rest = bytes.subrange(1, bytes.len() as int);
            if tag == TAG_METADATA {
                Some(KeyModel::Metadata { name: rest })
            } else if tag == TAG_UNIQUE_KEY {
                Some(KeyModel::UniqueKey { key: rest })
            } else if tag == TAG_TERM_DICTIONARY {
                Some(KeyModel::TermDictionary { term: rest })
            } else if tag == TAG_FIELD_DEFINITION && rest.len() == 2 {
                Some(KeyModel::FieldDefinition { field_id: FieldId(u16_of_be(rest)) })
            } else if tag == TAG_ACTIVE_SEGMENT && rest.len() == 4 {
                Some(KeyModel::ActiveSegment { segment_id: SegmentId(u32_of_be(rest)) })
            } else if tag == TAG_DELETION_LIST && rest.len() == 4 {
                Some(KeyModel::DeletedDocument { segment_id: SegmentId(u32_of_be(rest)) })
            } else if tag == TAG_TERM_DIRECTORY && rest.len() == 10 {
                Some(
                    KeyModel::TermDirectory {
                        field_id: FieldId(u16_of_be(rest.subrange(0, 2))),
                        term_id: TermId(u32_of_be(rest.subrange(2, 6))),
                        segment_id: SegmentId(u32_of_be(rest.subrange(6, 10))),
                    },
                )
            } else if tag == TAG_FIELD_VALUE && rest.len() >= 8 {
                match ValueKind::decoding(rest.subrange(8, rest.len() as int)) {
                    Some(kind) => Some(
                        KeyModel::DocumentFieldValue {
                            doc_id: DocId(
                                SegmentId(u32_of_be(rest.subrange(0, 4))),
                                u16_of_be(rest.subrange(4, 6)),
                            ),
                            field_id: FieldId(u16_of_be(rest.subrange(6, 8))),
                            kind,
                        },
                    ),
                    None => None,
                }
            } else if tag == TAG_STATISTIC && rest.len() >= 4 {
                match StatisticKey::decoding(rest.subrange(4, rest.len() as int)) {
                    Some(statistic) => Some(
                        KeyModel::Statistic {
                            segment_id: SegmentId(u32_of_be(rest.subrange(0, 4))),
                            statistic,
                        },
                    ),
                    None => None,
                }
            } else {
                None
            }
        }
    }

    /// The bytes of a key spell that key again.
    pub proof fn lemma_decoding_of_encoding(self)
        ensures
            KeyModel::decoding(self.encoding()) == Some(self),
    {
        let bytes = self.encoding();
        let rest = bytes.subrange(1, bytes.len() as int);
        match self {
            KeyModel::Metadata { name } => {
                assert(rest =~= name);
            },
            KeyModel::UniqueKey { key } => {
                assert(rest =~= key);
            },
            KeyModel::TermDictionary { term } => {
                assert(rest =~= term);
            },
            KeyModel::FieldDefinition { field_id } => {
                lemma_decode_encode(field_id.0, 0, 0, 0);
                assert(rest =~= be_u16(field_id.0));
            },
            KeyModel::ActiveSegment { segment_id } => {
                lemma_decode_encode(0, segment_id.0, 0, 0);
                assert(rest =~= be_u32(segment_id.0));
            },
            KeyModel::DeletedDocument { segment_id } => {
                lemma_decode_encode(0, segment_id.0, 0, 0);
                assert(rest =~= be_u32(segment_id.0));
            },
            KeyModel::TermDirectory { field_id, term_id, segment_id } => {
                lemma_decode_encode(field_id.0, term_id.0, 0, 0);
                lemma_decode_encode(0, segment_id.0, 0, 0);
                assert(rest.len() == 10);
                assert(rest.subrange(0, 2) =~= be_u16(field_id.0));
                assert(rest.subrange(2, 6) =~= be_u32(term_id.0));
                assert(rest.subrange(6, 10) =~= be_u32(segment_id.0));
            },
            KeyModel::DocumentFieldValue { doc_id, field_id, kind } => {
                lemma_decode_encode(doc_id.1, doc_id.0.0, 0, 0);
                lemma_decode_encode(field_id.0, 0, 0, 0);
                kind.lemma_decoding_of_encoding();
                assert(rest.len() >= 8);
                assert(rest.subrange(0, 4) =~= be_u32(doc_id.0.0));
                assert(rest.subrange(4, 6) =~= be_u16(doc_id.1));
                assert(rest.subrange(6, 8) =~= be_u16(field_id.0));
                assert(rest.subrange(8, rest.len() as int) =~= kind.encoding());
            },
            KeyModel::Statistic { segment_id, statistic } => {
                lemma_decode_encode(0, segment_id.0, 0, 0);
                statistic.lemma_decoding_of_encoding();
                assert(rest.len() >= 4);
                assert(rest.subrange(0, 4) =~= be_u32(segment_id.0));
                assert(rest.subrange(4, rest.len() as int) =~= statistic.encoding());
            },
        }
    }

    /// Bytes that spell a key are the bytes of that key: no key has two spellings.
    pub proof fn lemma_encoding_of_decoding(bytes: Seq<u8>)
        requires
            KeyModel::decoding(bytes) is Some,
        ensures
            KeyModel::decoding(bytes).unwrap().encoding() == bytes,
    {
        let rest = bytes.subrange(1, bytes.len() as int);
        let key = KeyModel::decoding(bytes).unwrap();
        assert(bytes =~= seq![bytes[0]] + rest);
        match key {
            KeyModel::Metadata { name } => {},
            KeyModel::UniqueKey { key } => {},
            KeyModel::TermDictionary { term } => {},
            KeyModel::FieldDefinition { field_id } => {
                lemma_encode_decode(rest);
            },
            KeyModel::ActiveSegment { segment_id } => {
                lemma_encode_decode(rest);
            },
            KeyModel::DeletedDocument { segment_id } => {
                lemma_encode_decode(rest);
            },
            KeyModel::TermDirectory { field_id, term_id, segment_id } => {
                lemma_encode_decode(rest.subrange(0, 2));
                lemma_encode_decode(rest.subrange(2, 6));
                lemma_encode_decode(rest.subrange(6, 10));
                assert(rest =~= rest.subrange(0, 2) + rest.subrange(2, 6) + rest.subrange(6, 10));
                assert(key.encoding() =~= seq![bytes[0]] + rest);
            },
            KeyModel::DocumentFieldValue { doc_id, field_id, kind } => {
                let tail = rest.subrange(8, rest.len() as int);
                lemma_encode_decode(rest.subrange(0, 4));
                lemma_encode_decode(rest.subrange(4, 6));
                lemma_encode_decode(rest.subrange(6, 8));
                ValueKind::lemma_encoding_of_decoding(tail);
                assert(rest =~= rest.subrange(0, 4) + rest.subrange(4, 6) + rest.subrange(6, 8)
                    + tail);
                assert(key.encoding() =~= seq![bytes[0]] + rest);
            },
            KeyModel::Statistic { segment_id, statistic } => {
                let tail = rest.subrange(4, rest.len() as int);
                lemma_encode_decode(rest.subrange(0, 4));
                StatisticKey::lemma_encoding_of_decoding(tail);
                assert(rest =~= rest.subrange(0, 4) + tail);
                assert(key.encoding() =~= seq![bytes[0]] + rest);
            },
        }
    }

    /// Different keys have different bytes.
    pub proof fn lemma_encoding_injective(self, other: KeyModel)
        requires
            self.encoding() == other.encoding(),
        ensures
            self == other,
    {
        self.lemma_decoding_of_encoding();
        other.lemma_decoding_of_encoding();
    }
}

/// A key of the store.
#[derive(Debug, PartialEq, Eq)]
pub enum Key {
    /// Metadata of the index: the next ids to hand out, the schema.
    Metadata { name: Vec<u8> },
    /// The definition of a field.
    FieldDefinition { field_id: FieldId },
    /// Present while the segment is live.
    ActiveSegment { segment_id: SegmentId },
    /// A stored value of a field of a document.
    DocumentFieldValue { doc_id: DocId, field_id: FieldId, kind: ValueKind },
    /// The ordinals of the deleted documents of a segment.
    DeletedDocument { segment_id: SegmentId },
    /// The id of a term.
    TermDictionary { term: Vec<u8> },
    /// The ordinals of the documents of a segment that have the term in the field.
    TermDirectory { field_id: FieldId, term_id: TermId, segment_id: SegmentId },
    /// The document that a unique key names.
    UniqueKey { key: Vec<u8> },
    /// A statistic of a segment.
    Statistic { segment_id: SegmentId, statistic: StatisticKey },
}

impl View for Key {
    type V = KeyModel;

    open spec fn view(&self) -> KeyModel {
        match *self {
            Key::Metadata { name } => KeyModel::Metadata { name: name@ },
            Key::FieldDefinition { field_id } => KeyModel::FieldDefinition { field_id },
            Key::ActiveSegment { segment_id } => KeyModel::ActiveSegment { segment_id },
            Key::DocumentFieldValue { doc_id, field_id, kind } => KeyModel::DocumentFieldValue {
                doc_id,
                field_id,
                kind,
            },
            Key::DeletedDocument { segment_id } => KeyModel::DeletedDocument { segment_id },
            Key::TermDictionary { term } => KeyModel::TermDictionary { term: term@ },
            Key::TermDirectory { field_id, term_id, segment_id } => KeyModel::TermDirectory {
                field_id,
                term_id,
                segment_id,
            },
            Key::UniqueKey { key } => KeyModel::UniqueKey { key: key@ },
            Key::Statistic { segment_id, statistic } => KeyModel::Statistic {
                segment_id,
                statistic,
            },
        }
    }
}

impl Key {
    /// Reads a key. Succeeds exactly on the bytes that `to_bytes` writes for some key.
    pub fn from_bytes(bytes: &[u8]) -> (key: Option<Key>)
        ensures
            match key {
                Some(key) => KeyModel::decoding(bytes@) == Some(key@),
                None => KeyModel::decoding(bytes@) is None,
            },
    {
        if bytes.len() == 0 {
            return None;
        }
        let tag = bytes[0];
        let rest = &bytes[1..bytes.len()];
        if tag == TAG_METADATA {
            Some(Key::Metadata { name: copy_bytes(rest) })
        } else if tag == TAG_UNIQUE_KEY {
            Some(Key::UniqueKey { key: copy_bytes(rest) })
        } else if tag == TAG_TERM_DICTIONARY {
            Some(Key::TermDictionary { term: copy_bytes(rest) })
        } else if tag == TAG_FIELD_DEFINITION && rest.len() == 2 {
            Some(Key::FieldDefinition { field_id: FieldId(read_u16_be(rest)) })
        } else if tag == TAG_ACTIVE_SEGMENT && rest.len() == 4 {
            Some(Key::ActiveSegment { segment_id: SegmentId(read_u32_be(rest)) })
        } else if tag == TAG_DELETION_LIST && rest.len() == 4 {
            Some(Key::DeletedDocument { segment_id: SegmentId(read_u32_be(rest)) })
        } else if tag == TAG_TERM_DIRECTORY && rest.len() == 10 {
            Some(
                Key::TermDirectory {
                    field_id: FieldId(read_u16_be(&rest[0..2])),
                    term_id: TermId(read_u32_be(&rest[2..6])),
                    segment_id: SegmentId(read_u32_be(&rest[6..10])),
                },
            )
        } else if tag == TAG_FIELD_VALUE && rest.len() >= 8 {
            match ValueKind::from_bytes(&rest[8..rest.len()]) {
                Some(kind) => Some(
                    Key::DocumentFieldValue {
                        doc_id: DocId(
                            SegmentId(read_u32_be(&rest[0..4])),
                            read_u16_be(&rest[4..6]),
                        ),
                        field_id: FieldId(read_u16_be(&rest[6..8])),
                        kind,
                    },
                ),
                None => None,
            }
        } else if tag == TAG_STATISTIC && rest.len() >= 4 {
            match StatisticKey::from_bytes(&rest[4..rest.len()]) {
                Some(statistic) => Some(
                    Key::Statistic { segment_id: SegmentId(read_u32_be(&rest[0..4])), statistic },
                ),
                None => None,
            }
        } else {
            None
        }
    }

    /// Writes the key: the byte of its family, then its parts in order.
    pub fn to_bytes(&self) -> (bytes: Vec<u8>)
        ensures
            bytes@ == self@.encoding(),
    {
        let mut bytes: Vec<u8> = Vec::new();
        match self {
            Key::Metadata { name } => {
                bytes.push(TAG_METADATA);
                append_bytes(&mut bytes, name.as_slice());
            },
            Key::FieldDefinition { field_id } => {
                bytes.push(TAG_FIELD_DEFINITION);
                let mut part = write_u16_be(field_id.0);
                bytes.append(&mut part);
            },
            Key::ActiveSegment { segment_id } => {
                bytes.push(TAG_ACTIVE_SEGMENT);
                let mut part = write_u32_be(segment_id.0);
                bytes.append(&mut part);
            },
            Key::DocumentFieldValue { doc_id, field_id, kind } => {
                bytes.push(TAG_FIELD_VALUE);
                let mut part = write_u32_be(doc_id.0.0);
                bytes.append(&mut part);
                let mut part = write_u16_be(doc_id.1);
                bytes.append(&mut part);
                let mut part = write_u16_be(field_id.0);
                bytes.append(&mut part);
                let mut part = kind.to_bytes();
                bytes.append(&mut part);
            },
            Key::DeletedDocument { segment_id } => {
                bytes.push(TAG_DELETION_LIST);
                let mut part = write_u32_be(segment_id.0);
                bytes.append(&mut part);
            },
            Key::TermDictionary { term } => {
                bytes.push(TAG_TERM_DICTIONARY);
                append_bytes(&mut bytes, term.as_slice());
            },
            Key::TermDirectory { field_id, term_id, segment_id } => {
                bytes.push(TAG_TERM_DIRECTORY);
                let mut part = write_u16_be(field_id.0);
                bytes.append(&mut part);
                let mut part = write_u32_be(term_id.0);
                bytes.append(&mut part);
                let mut part = write_u32_be(segment_id.0);
                bytes.append(&mut part);
            },
            Key::UniqueKey { key } => {
                bytes.push(TAG_UNIQUE_KEY);
                append_bytes(&mut bytes, key.as_slice());
            },
            Key::Statistic { segment_id, statistic } => {
                bytes.push(TAG_STATISTIC);
                let mut part = write_u32_be(segment_id.0);
                bytes.append(&mut part);
                let mut part = statistic.to_bytes();
                bytes.append(&mut part);
            },
        }
        assert(bytes@ =~= self@.encoding());
        bytes
    }

    /// The key of a piece of metadata.
    pub fn metadata(name: String) -> (key: Key)
        ensures
            key@ == (KeyModel::Metadata { name: encode_utf8(name@) }),
    {
        Key::Metadata { name: copy_bytes(name.as_str().as_bytes()) }
    }

    /// The key of the definition of a field.
    pub fn field_definition(field_id: FieldId) -> (key: Key)
        ensures
            key@ == (KeyModel::FieldDefinition { field_id }),
    {
        Key::FieldDefinition { field_id }
    }

    /// The key that marks a segment as active.
    pub fn active_segment(segment_id: SegmentId) -> (key: Key)
        ensures
            key@ == (KeyModel::ActiveSegment { segment_id }),
    {
        Key::ActiveSegment { segment_id }
    }

    /// The key of the value itself of a field of a document.
    pub fn document_field_value(doc_id: DocId, field_id: FieldId) -> (key: Key)
        ensures
            key@ == (KeyModel::DocumentFieldValue { doc_id, field_id, kind: ValueKind::Value }),
    {
        Key::DocumentFieldValue { doc_id, field_id, kind: ValueKind::Value }
    }

    /// The key of a stored value of any kind.
    pub fn stored_value(doc_id: DocId, field_id: FieldId, kind: ValueKind) -> (key: Key)
        ensures
            key@ == (KeyModel::DocumentFieldValue { doc_id, field_id, kind }),
    {
        Key::DocumentFieldValue { doc_id, field_id, kind }
    }

    /// The key under which the deletion of the document is recorded: that of the
    /// deletion list of its segment.
    pub fn deleted_document(doc_id: DocId) -> (key: Key)
        ensures
            key@ == (KeyModel::DeletedDocument { segment_id: doc_id.0 }),
    {
        Key::DeletedDocument { segment_id: doc_id.0 }
    }

    /// The key under which the id of the term is kept.
    pub fn term_dictionary(term: &Term) -> (key: Key)
        ensures
            key@ == (KeyModel::TermDictionary { term: term@ }),
    {
        Key::TermDictionary { term: copy_bytes(term.as_bytes()) }
    }

    /// The key of the documents of a segment that hold a term in a field.
    pub fn term_directory(field_id: FieldId, term_id: TermId, segment_id: SegmentId) -> (key: Key)
        ensures
            key@ == (KeyModel::TermDirectory { field_id, term_id, segment_id }),
    {
        Key::TermDirectory { field_id, term_id, segment_id }
    }

    /// The key of the entry that says which document the unique key names.
    pub fn unique_key(key: &[u8]) -> (unique: Key)
        ensures
            unique@ == (KeyModel::UniqueKey { key: key@ }),
    {
        Key::UniqueKey { key: copy_bytes(key) }
    }

    /// The key of a counter of a segment.
    pub fn statistic(segment_id: SegmentId, statistic: StatisticKey) -> (key: Key)
        ensures
            key@ == (KeyModel::Statistic { segment_id, statistic }),
    {
        Key::Statistic { segment_id, statistic }
    }

    /// The key of the piece of metadata `next_field_id`: the id that the next field gets.
    pub fn next_field_id() -> (key: Key)
        ensures
            key@ == (KeyModel::Metadata { name: name_next_field_id() }),
    {
        let name = vec![110u8, 101u8, 120u8, 116u8, 95u8, 102u8, 105u8, 101u8, 108u8, 100u8, 95u8, 105u8, 100u8];
        assert(name@ =~= name_next_field_id());
        Key::Metadata { name }
    }

    /// The key of the piece of metadata `next_segment_id`: the id that the next segment gets.
    pub fn next_segment_id() -> (key: Key)
        ensures
            key@ == (KeyModel::Metadata { name: name_next_segment_id() }),
    {
        let name = vec![110u8, 101u8, 120u8, 116u8, 95u8, 115u8, 101u8, 103u8, 109u8, 101u8, 110u8, 116u8, 95u8, 105u8, 100u8];
        assert(name@ =~= name_next_segment_id());
        Key::Metadata { name }
    }

    /// The key of the piece of metadata `next_term_dictionary_id`: the id that the next term gets.
    pub fn next_term_dictionary_id() -> (key: Key)
        ensures
            key@ == (KeyModel::Metadata { name: name_next_term_dictionary_id() }),
    {
        let name = vec![110u8, 101u8, 120u8, 116u8, 95u8, 116u8, 101u8, 114u8, 109u8, 95u8, 100u8, 105u8, 99u8, 116u8, 105u8, 111u8, 110u8, 97u8, 114u8, 121u8, 95u8, 105u8, 100u8];
        assert(name@ =~= name_next_term_dictionary_id());
        Key::Metadata { name }
    }

    /// The key of the piece of metadata `schema`: the schema.
    pub fn schema() -> (key: Key)
        ensures
            key@ == (KeyModel::Metadata { name: name_schema() }),
    {
        let name = vec![115u8, 99u8, 104u8, 101u8, 109u8, 97u8];
        assert(name@ =~= name_schema());
        Key::Metadata { name }
    }
}

} // verus!
