//! Documents, their identifiers and their stored values.

use crate::assoc::{distinct_keys, has_key};
use crate::encoding::{
    i64_of_le, le_i64, le_u16, le_u32, lemma_decode_encode, lemma_encode_decode, read_i64_le,
    read_u16_le, read_u32_le, u16_of_le, u32_of_le, write_i64_le, write_u16_le, write_u32_le,
};
use crate::schema::{FieldDataType, FieldId};
use crate::term::copy_bytes;
use crate::term_vector::TermVector;
use core::str::Utf8Error;
use vstd::prelude::*;
use vstd::utf8::{decode_utf8, encode_utf8, valid_utf8};

verus! {

/// Identifies a segment. Segment ids are handed out in increasing order and never reused.
#[derive(Clone, Copy, Debug, PartialEq, Eq, Hash, Structural)]
pub struct SegmentId(pub u32);

/// Identifies a document: the segment that holds it and its ordinal inside that segment.
#[derive(Clone, Copy, Debug, PartialEq, Eq, Hash, Structural)]
pub struct DocId(pub SegmentId, pub u16);

impl DocId {
    /// The six bytes under which a document's location is stored: the segment id
    /// in four bytes and the ordinal in two, both least significant byte first.
    pub open spec fn encoding(self) -> Seq<u8> {
        le_u32(self.0.0) + le_u16(self.1)
    }

    /// The location that six stored bytes spell; nothing for any other length.
    pub open spec fn decoding(bytes: Seq<u8>) -> Option<DocId> {
        if bytes.len() == 6 {
            Some(DocId(SegmentId(u32_of_le(bytes)), u16_of_le(bytes.subrange(4, 6))))
        } else {
            None
        }
    }

    /// The document at an ordinal of a segment.
    pub fn from_segment_ord(segment: u32, ord: u16) -> (doc_id: DocId)
        ensures
            doc_id == DocId(SegmentId(segment), ord),
    {
        DocId(SegmentId(segment), ord)
    }

    /// The id of the segment of the document.
    pub fn segment(&self) -> (segment: u32)
        ensures
            segment == self.0.0,
    {
        self.0.0
    }

    /// The ordinal of the document in its segment.
    pub fn ord(&self) -> (ord: u16)
        ensures
            ord == self.1,
    {
        self.1
    }

    /// Encodes the location for storage.
    pub fn to_bytes(&self) -> (bytes: Vec<u8>)
        ensures
            bytes@ == self.encoding(),
    {
        let mut bytes = write_u32_le(self.0.0);
        let mut ord_bytes = write_u16_le(self.1);
        bytes.append(&mut ord_bytes);
        bytes
    }

    /// Decodes a stored location. Succeeds exactly on inputs of six bytes.
    pub fn from_bytes(bytes: &[u8]) -> (doc_id: Option<DocId>)
        ensures
            doc_id == DocId::decoding(bytes@),
    {
        if bytes.len() != 6 {
            return None;
        }
        let segment = read_u32_le(bytes);
        let ord = read_u16_le(&bytes[4..6]);
        Some(DocId(SegmentId(segment), ord))
    }

    /// A location survives being stored and read back.
    pub proof fn lemma_decoding_of_encoding(self)
        ensures
            DocId::decoding(self.encoding()) == Some(self),
    {
        lemma_decode_encode(self.1, self.0.0, 0, 0);
        assert(self.encoding().subrange(4, 6) =~= le_u16(self.1));
        assert(u32_of_le(self.encoding()) == u32_of_le(le_u32(self.0.0)));
    }

    /// Six bytes decode to the one location that encodes to them.
    pub proof fn lemma_encoding_of_decoding(bytes: Seq<u8>)
        requires
            bytes.len() == 6,
        ensures
            DocId::decoding(bytes).unwrap().encoding() == bytes,
    {
        let front = bytes.subrange(0, 4);
        let back = bytes.subrange(4, 6);
        lemma_encode_decode(front);
        lemma_encode_decode(back);
        assert(u32_of_le(bytes) == u32_of_le(front));
        assert(DocId::decoding(bytes).unwrap().encoding() =~= front + back);
        assert(front + back =~= bytes);
    }
}

/// Declares `core::str::Utf8Error`, the error of `core::str::from_utf8`. It is
/// carried to the caller and never looked into.
#[verifier::external_type_specification]
#[verifier::external_body]
pub struct ExUtf8Error(Utf8Error);

/// Calls `core::str::from_utf8` and copies the text it returns. Trusted: the call
/// succeeds exactly on valid UTF-8, and the text is what the bytes encode.
#[verifier::external_body]
pub(crate) fn string_from_utf8(bytes: &[u8]) -> (text: Result<String, Utf8Error>)
    ensures
        text is Ok <==> valid_utf8(bytes@),
        text matches Ok(string) ==> string@ == decode_utf8(bytes@),
{
    core::str::from_utf8(bytes).map(|text| text.to_string())
}

/// The byte `t`, which stands for true.
pub const BYTE_TRUE: u8 = 116;

/// The byte `f`, which stands for false.
pub const BYTE_FALSE: u8 = 102;

/// The microseconds in a second.
pub const MICROS_PER_SECOND: i64 = 1_000_000;

/// A point in time: whole seconds since the start of 1970, and the nanoseconds
/// into the second. The nanoseconds may run into a leap second.
///
/// Only times that can be stored are values of this type: those whose
/// microseconds since the start of 1970 fit in 64 bits.
#[derive(Clone, Copy, Debug, PartialEq, Eq)]
pub struct DateTime {
    timestamp: i64,
    nanosecond: u32,
}

/// The microseconds since the start of 1970 of a time given in seconds and nanoseconds.
pub open spec fn micros_of(timestamp: i64, nanosecond: u32) -> int {
    timestamp * 1_000_000 + nanosecond as int / 1000
}

/// A time of so many seconds and nanoseconds can be stored.
pub open spec fn storable_time(timestamp: i64, nanosecond: u32) -> bool {
    nanosecond < 2_000_000_000 && i64::MIN <= micros_of(timestamp, nanosecond) <= i64::MAX
}

impl DateTime {
    #[verifier::type_invariant]
    spec fn storable(self) -> bool {
        storable_time(self.timestamp, self.nanosecond)
    }

    /// The whole seconds since the start of 1970.
    pub closed spec fn seconds(self) -> i64 {
        self.timestamp
    }

    /// The nanoseconds into the second.
    pub closed spec fn nanos(self) -> u32 {
        self.nanosecond
    }

    /// The microseconds since the start of 1970, which is what is stored of a time.
    pub open spec fn micros(self) -> int {
        micros_of(self.seconds(), self.nanos())
    }

    /// The time that stored microseconds stand for.
    pub open spec fn seconds_of_micros(micros: i64) -> i64 {
        (micros as int / 1_000_000) as i64
    }

    /// The nanoseconds into the second of the time that stored microseconds stand for.
    pub open spec fn nanos_of_micros(micros: i64) -> u32 {
        ((micros as int % 1_000_000) * 1000) as u32
    }

    /// The time of so many seconds and nanoseconds, if it can be stored.
    pub fn new(timestamp: i64, nanosecond: u32) -> (time: Option<DateTime>)
        ensures
            time is Some <==> storable_time(timestamp, nanosecond),
            time matches Some(time) ==> time.seconds() == timestamp && time.nanos() == nanosecond,
    {
        if nanosecond >= 2_000_000_000 {
            return None;
        }
        let micros: i128 = timestamp as i128 * 1_000_000 + (nanosecond / 1000) as i128;
        if micros < -0x8000_0000_0000_0000 || micros > 0x7fff_ffff_ffff_ffff {
            return None;
        }
        Some(DateTime { timestamp, nanosecond })
    }

    /// The seconds since the epoch.
    pub fn timestamp(&self) -> (timestamp: i64)
        ensures
            timestamp == self.seconds(),
    {
        self.timestamp
    }

    /// The nanoseconds beyond the second.
    pub fn nanosecond(&self) -> (nanosecond: u32)
        ensures
            nanosecond == self.nanos(),
    {
        self.nanosecond
    }

    /// The microseconds since the start of 1970.
    pub fn timestamp_micros(&self) -> (micros: i64)
        ensures
            micros == self.micros(),
    {
        proof {
            use_type_invariant(self);
        }
        let micros: i128 = self.timestamp as i128 * 1_000_000 + (self.nanosecond / 1000) as i128;
        micros as i64
    }

    /// The time that is so many microseconds from the start of 1970.
    pub fn from_timestamp_micros(micros: i64) -> (time: DateTime)
        ensures
            time.seconds() == DateTime::seconds_of_micros(micros),
            time.nanos() == DateTime::nanos_of_micros(micros),
            time.micros() == micros,
    {
        let seconds: i64;
        let rest: i64;
        if micros >= 0 {
            seconds = micros / MICROS_PER_SECOND;
            rest = micros % MICROS_PER_SECOND;
        } else {
            let back: i64 = -(micros + 1);
            seconds = -(back / MICROS_PER_SECOND) - 1;
            rest = MICROS_PER_SECOND - 1 - back % MICROS_PER_SECOND;
        }
        assert(seconds * 1_000_000 + rest == micros);
        assert(0 <= rest < 1_000_000);
        assert(seconds == micros as int / 1_000_000 && rest == micros as int % 1_000_000) by {
            lemma_quotient(micros as int, seconds as int, rest as int);
        }
        let nanosecond: u32 = (rest * 1000) as u32;
        assert(nanosecond as int / 1000 == rest);
        DateTime { timestamp: seconds, nanosecond }
    }
}

proof fn lemma_quotient(x: int, q: int, r: int)
    requires
        q * 1_000_000 + r == x,
        0 <= r < 1_000_000,
    ensures
        q == x / 1_000_000,
        r == x % 1_000_000,
{
}

/// A value of a field.
#[derive(Debug, PartialEq)]
pub enum FieldValue {
    String(String),
    Integer(i64),
    Boolean(bool),
    DateTime(DateTime),
}

/// Why a stored value could not be read.
#[derive(Debug, PartialEq)]
pub enum StoredFieldReadError {
    /// No field of the index has this id.
    InvalidFieldRef(FieldId),
    /// The value of a text field is not UTF-8.
    TextFieldUTF8DecodeError(Vec<u8>, Utf8Error),
    /// The value of a boolean field is neither true nor false.
    BooleanFieldDecodeError(Vec<u8>),
    /// The value of an integer or date and time field is not eight bytes long.
    IntegerFieldValueSizeError(usize),
}

/// A field value as plain data.
pub enum FieldValueModel {
    String(Seq<char>),
    Integer(i64),
    Boolean(bool),
    DateTime { seconds: i64, nanos: u32 },
}

impl FieldValueModel {
    /// The bytes stored for the value: UTF-8 for a string; for an integer its
    /// eight bytes, least significant first; `t` or `f` for a boolean; for a time
    /// its microseconds since the start of 1970, in the eight bytes of an integer.
    pub open spec fn encoding(self) -> Seq<u8> {
        match self {
            FieldValueModel::String(text) => encode_utf8(text),
            FieldValueModel::Integer(value) => le_i64(value),
            FieldValueModel::Boolean(value) => if value {
                seq![BYTE_TRUE]
            } else {
                seq![BYTE_FALSE]
            },
            FieldValueModel::DateTime { seconds, nanos } => le_i64(
                micros_of(seconds, nanos) as i64,
            ),
        }
    }

    /// The value that stored bytes stand for in a field of the type, if they
    /// stand for one.
    pub open spec fn decoding(data_type: FieldDataType, bytes: Seq<u8>) -> Option<
        FieldValueModel,
    > {
        match data_type {
            FieldDataType::Text | FieldDataType::PlainString => if valid_utf8(bytes) {
                Some(FieldValueModel::String(decode_utf8(bytes)))
            } else {
                None
            },
            FieldDataType::Integer => if bytes.len() == 8 {
                Some(FieldValueModel::Integer(i64_of_le(bytes)))
            } else {
                None
            },
            FieldDataType::Boolean => if bytes == seq![BYTE_TRUE] {
                Some(FieldValueModel::Boolean(true))
            } else if bytes == seq![BYTE_FALSE] {
                Some(FieldValueModel::Boolean(false))
            } else {
                None
            },
            FieldDataType::DateTime => if bytes.len() == 8 {
                Some(
                    FieldValueModel::DateTime {
                        seconds: DateTime::seconds_of_micros(i64_of_le(bytes)),
                        nanos: DateTime::nanos_of_micros(i64_of_le(bytes)),
                    },
                )
            } else {
                None
            },
        }
    }

    /// The value is of the type: a string for the two text types, and so on.
    pub open spec fn has_type(self, data_type: FieldDataType) -> bool {
        match (self, data_type) {
            (FieldValueModel::String(_), FieldDataType::Text) => true,
            (FieldValueModel::String(_), FieldDataType::PlainString) => true,
            (FieldValueModel::Integer(_), FieldDataType::Integer) => true,
            (FieldValueModel::Boolean(_), FieldDataType::Boolean) => true,
            (FieldValueModel::DateTime { .. }, FieldDataType::DateTime) => true,
            _ => false,
        }
    }

    /// The value is read back as it was stored. For a time this holds of whole
    /// microseconds outside a leap second only, since no more is stored of a time.
    pub open spec fn exact(self) -> bool {
        match self {
            FieldValueModel::DateTime { seconds, nanos } => nanos % 1000 == 0 && nanos
                < 1_000_000_000 && storable_time(seconds, nanos),
            _ => true,
        }
    }

    /// A value that is stored and read back in a field of its type is the value
    /// that was stored.
    pub proof fn lemma_round_trip(self, data_type: FieldDataType)
        requires
            self.has_type(data_type),
            self.exact(),
        ensures
            FieldValueModel::decoding(data_type, self.encoding()) == Some(self),
    {
        match self {
            FieldValueModel::String(text) => {
                vstd::utf8::encode_utf8_valid_utf8(text);
                vstd::utf8::encode_utf8_decode_utf8(text);
            },
            FieldValueModel::Integer(value) => {
                lemma_decode_encode(0, 0, 0, value);
            },
            FieldValueModel::Boolean(value) => {
                assert(seq![BYTE_TRUE][0] != seq![BYTE_FALSE][0]);
            },
            FieldValueModel::DateTime { seconds, nanos } => {
                let micros = micros_of(seconds, nanos) as i64;
                lemma_decode_encode(0, 0, 0, micros);
                lemma_quotient(micros as int, seconds as int, nanos as int / 1000);
            },
        }
    }
}

impl View for FieldValue {
    type V = FieldValueModel;

    open spec fn view(&self) -> FieldValueModel {
        match *self {
            FieldValue::String(text) => FieldValueModel::String(text@),
            FieldValue::Integer(value) => FieldValueModel::Integer(value),
            FieldValue::Boolean(value) => FieldValueModel::Boolean(value),
            FieldValue::DateTime(time) => FieldValueModel::DateTime {
                seconds: time.seconds(),
                nanos: time.nanos(),
            },
        }
    }
}

/// The error is the one for bytes that stand for no value of the type: for
/// text, that the bytes are no UTF-8, with the bytes; for a boolean, that the
/// bytes are neither byte of a boolean, with the bytes; for a number or a
/// time, that the bytes are not eight, with their number.
pub open spec fn tells_of(error: StoredFieldReadError, data_type: FieldDataType, bytes: Seq<u8>) -> bool {
    match data_type {
        FieldDataType::Text | FieldDataType::PlainString => error
            matches StoredFieldReadError::TextFieldUTF8DecodeError(held, _) && held@ == bytes,
        FieldDataType::Boolean => error matches StoredFieldReadError::BooleanFieldDecodeError(held)
            && held@ == bytes,
        FieldDataType::Integer | FieldDataType::DateTime => error
            == StoredFieldReadError::IntegerFieldValueSizeError(bytes.len() as usize),
    }
}

impl FieldValue {
    /// The bytes to store for the value.
    pub fn to_bytes(&self) -> (bytes: Vec<u8>)
        ensures
            bytes@ == self@.encoding(),
    {
        match self {
            FieldValue::String(string) => copy_bytes(string.as_str().as_bytes()),
            FieldValue::Integer(value) => write_i64_le(*value),
            FieldValue::Boolean(value) => {
                let mut bytes: Vec<u8> = Vec::new();
                if *value {
                    bytes.push(BYTE_TRUE);
                } else {
                    bytes.push(BYTE_FALSE);
                }
                assert(bytes@ =~= self@.encoding());
                bytes
            },
            FieldValue::DateTime(value) => write_i64_le(value.timestamp_micros()),
        }
    }

    /// Reads the stored value of a field of the given type. Fails exactly on
    /// bytes that stand for no value of the type; the error holds the bytes, or
    /// their number where the type asks for eight.
    pub fn from_bytes(data_type: FieldDataType, bytes: &[u8]) -> (value: Result<
        FieldValue,
        StoredFieldReadError,
    >)
        ensures
            match value {
                Ok(value) => FieldValueModel::decoding(data_type, bytes@) == Some(value@),
                Err(error) => {
                    &&& FieldValueModel::decoding(data_type, bytes@) is None
                    &&& tells_of(error, data_type, bytes@)
                },
            },
    {
        match data_type {
            FieldDataType::Text | FieldDataType::PlainString => match string_from_utf8(bytes) {
                Ok(text) => Ok(FieldValue::String(text)),
                Err(error) => Err(
                    StoredFieldReadError::TextFieldUTF8DecodeError(copy_bytes(bytes), error),
                ),
            },
            FieldDataType::Integer => {
                if bytes.len() != 8 {
                    return Err(StoredFieldReadError::IntegerFieldValueSizeError(bytes.len()));
                }
                Ok(FieldValue::Integer(read_i64_le(bytes)))
            },
            FieldDataType::Boolean => {
                if bytes.len() == 1 && bytes[0] == BYTE_TRUE {
                    assert(bytes@ =~= seq![BYTE_TRUE]);
                    Ok(FieldValue::Boolean(true))
                } else if bytes.len() == 1 && bytes[0] == BYTE_FALSE {
                    assert(bytes@ =~= seq![BYTE_FALSE]);
                    Ok(FieldValue::Boolean(false))
                } else {
                    proof {
                        if bytes@.len() == 1 {
                            assert(seq![BYTE_TRUE][0] != bytes@[0]);
                            assert(seq![BYTE_FALSE][0] != bytes@[0]);
                        }
                    }
                    Err(StoredFieldReadError::BooleanFieldDecodeError(copy_bytes(bytes)))
                }
            },
            FieldDataType::DateTime => {
                if bytes.len() != 8 {
                    return Err(StoredFieldReadError::IntegerFieldValueSizeError(bytes.len()));
                }
                let micros = read_i64_le(bytes);
                Ok(FieldValue::DateTime(DateTime::from_timestamp_micros(micros)))
            },
        }
    }
}

/// A document to index: its unique key, the terms of its indexed fields and the
/// values of its stored fields.
#[derive(Debug)]
pub struct Document {
    pub key: String,
    pub indexed_fields: Vec<(FieldId, TermVector)>,
    pub stored_fields: Vec<(FieldId, FieldValue)>,
}

impl Document {
    /// The indexed fields in order, each with the entries of its term vector.
    pub open spec fn indexed(&self) -> Seq<(FieldId, Seq<(Seq<u8>, Seq<u32>)>)> {
        Seq::new(
            self.indexed_fields@.len(),
            |i: int| (self.indexed_fields@[i].0, self.indexed_fields@[i].1.entries()),
        )
    }

    /// The stored fields in order, each with its value.
    pub open spec fn stored(&self) -> Seq<(FieldId, FieldValueModel)> {
        Seq::new(
            self.stored_fields@.len(),
            |i: int| (self.stored_fields@[i].0, self.stored_fields@[i].1@),
        )
    }

    /// No field is indexed twice or stored twice, and every term vector is
    /// well-formed.
    pub open spec fn wf(&self) -> bool {
        &&& distinct_keys(self.indexed())
        &&& distinct_keys(self.stored())
        &&& forall|i: int|
            0 <= i < self.indexed_fields@.len() ==> (#[trigger] self.indexed_fields@[i]).1.wf()
    }

    /// The document has the term in the field.
    pub open spec fn has_term(&self, field: FieldId, term: Seq<u8>) -> bool {
        exists|i: int|
            0 <= i < self.indexed().len() && (#[trigger] self.indexed()[i]).0 == field && has_key(
                self.indexed()[i].1,
                term,
            )
    }

    /// Whether the document is well-formed: no field is indexed twice or
    /// stored twice, and every term vector is well-formed.
    pub fn is_valid(&self) -> (valid: bool)
        ensures
            valid == self.wf(),
    {
        let mut i: usize = 0;
        while i < self.indexed_fields.len()
            invariant
                i <= self.indexed_fields.len(),
                forall|k: int| 0 <= k < i ==> (#[trigger] self.indexed_fields@[k]).1.wf(),
                forall|a: int, b: int|
                    0 <= a < i && 0 <= b < i && a != b ==> self.indexed()[a].0 != self.indexed()[b].0,
            decreases self.indexed_fields.len() - i,
        {
            if !self.indexed_fields[i].1.is_valid() {
                return false;
            }
            let mut j: usize = 0;
            while j < i
                invariant
                    j <= i < self.indexed_fields.len(),
                    forall|k: int| 0 <= k < j ==> self.indexed()[k].0 != self.indexed()[i as int].0,
                decreases i - j,
            {
                if self.indexed_fields[j].0.0 == self.indexed_fields[i].0.0 {
                    assert(self.indexed()[j as int].0 == self.indexed()[i as int].0);
                    return false;
                }
                j += 1;
            }
            i += 1;
        }
        let mut i: usize = 0;
        while i < self.stored_fields.len()
            invariant
                i <= self.stored_fields.len(),
                forall|k: int|
                    0 <= k < self.indexed_fields@.len() ==> (#[trigger] self.indexed_fields@[k]).1.wf(),
                distinct_keys(self.indexed()),
                forall|a: int, b: int|
                    0 <= a < i && 0 <= b < i && a != b ==> self.stored()[a].0 != self.stored()[b].0,
            decreases self.stored_fields.len() - i,
        {
            let mut j: usize = 0;
            while j < i
                invariant
                    j <= i < self.stored_fields.len(),
                    forall|k: int| 0 <= k < j ==> self.stored()[k].0 != self.stored()[i as int].0,
                decreases i - j,
            {
                if self.stored_fields[j].0.0 == self.stored_fields[i].0.0 {
                    assert(self.stored()[j as int].0 == self.stored()[i as int].0);
                    return false;
                }
                j += 1;
            }
            i += 1;
        }
        true
    }

    /// The unique key of the document as bytes.
    pub open spec fn key_bytes(&self) -> Seq<u8> {
        encode_utf8(self.key@)
    }
}

} // verus!
