//! The order of the keys: the bytes of keys are in the order of the keys, so
//! that a scan of the store from a prefix on yields the entries of one family
//! in the order of their parts.

use crate::encoding::{be_u16, be_u32, lemma_decode_encode};
use crate::key::{
    KeyModel, TAG_ACTIVE_SEGMENT, TAG_DELETION_LIST, TAG_FIELD_DEFINITION, TAG_FIELD_VALUE,
    TAG_METADATA, TAG_STATISTIC, TAG_TERM_DICTIONARY, TAG_TERM_DIRECTORY, TAG_UNIQUE_KEY,
};
use vstd::prelude::*;

verus! {

/// The first byte string stands before the second in the order of byte
/// strings: at the first place where the two differ the first has the smaller
/// byte, or the first is a beginning of the second and shorter.
pub open spec fn bytes_before(a: Seq<u8>, b: Seq<u8>) -> bool {
    exists|i: int| #[trigger] differ_at(a, b, i)
}

/// The byte strings are the same before place `i`, and at place `i` the first
/// ends or has the smaller byte.
pub open spec fn differ_at(a: Seq<u8>, b: Seq<u8>, i: int) -> bool {
    &&& 0 <= i <= a.len()
    &&& i < b.len()
    &&& a.subrange(0, i) == b.subrange(0, i)
    &&& i < a.len() ==> a[i] < b[i]
}

/// Byte strings that begin with parts of one length are in the order of those
/// parts, and where those are the same, in the order of what follows them.
#[verifier::spinoff_prover]
pub proof fn lemma_before_concat(p: Seq<u8>, s: Seq<u8>, q: Seq<u8>, t: Seq<u8>)
    requires
        p.len() == q.len(),
    ensures
        bytes_before(p + s, q + t) == (bytes_before(p, q) || (p == q && bytes_before(s, t))),
        (p + s == q + t) == (p == q && s == t),
{
    let a = p + s;
    let b = q + t;
    let n = p.len() as int;
    if a == b {
        assert(p =~= a.subrange(0, n));
        assert(q =~= b.subrange(0, n));
        assert(s =~= a.subrange(n, a.len() as int));
        assert(t =~= b.subrange(n, b.len() as int));
    }
    if bytes_before(a, b) {
        let i = choose|i: int| #[trigger] differ_at(a, b, i);
        if i < n {
            assert(p.subrange(0, i) =~= a.subrange(0, i).subrange(0, i));
            assert(q.subrange(0, i) =~= b.subrange(0, i).subrange(0, i));
            assert(a[i] == p[i] && b[i] == q[i]);
            assert(differ_at(p, q, i));
        } else {
            assert(p =~= a.subrange(0, i).subrange(0, n));
            assert(q =~= b.subrange(0, i).subrange(0, n));
            assert(s.subrange(0, i - n) =~= a.subrange(0, i).subrange(n, i));
            assert(t.subrange(0, i - n) =~= b.subrange(0, i).subrange(n, i));
            if i < a.len() {
                assert(a[i] == s[i - n] && b[i] == t[i - n]);
            }
            assert(differ_at(s, t, i - n));
        }
    }
    if bytes_before(p, q) {
        let i = choose|i: int| #[trigger] differ_at(p, q, i);
        assert(a.subrange(0, i) =~= p.subrange(0, i));
        assert(b.subrange(0, i) =~= q.subrange(0, i));
        assert(a[i] == p[i] && b[i] == q[i]);
        assert(differ_at(a, b, i));
    }
    if p == q && bytes_before(s, t) {
        let j = choose|j: int| #[trigger] differ_at(s, t, j);
        assert(a.subrange(0, n + j) =~= p + s.subrange(0, j));
        assert(b.subrange(0, n + j) =~= q + t.subrange(0, j));
        if j < s.len() {
            assert(a[n + j] == s[j] && b[n + j] == t[j]);
        }
        assert(differ_at(a, b, n + j));
    }
}

/// Single bytes are in the order of their values.
pub proof fn lemma_before_byte(a: u8, b: u8)
    ensures
        bytes_before(seq![a], seq![b]) == (a < b),
{
    if bytes_before(seq![a], seq![b]) {
        let i = choose|i: int| #[trigger] differ_at(seq![a], seq![b], i);
        assert(i == 0);
    }
    if a < b {
        assert(seq![a].subrange(0, 0) =~= seq![b].subrange(0, 0));
        assert(differ_at(seq![a], seq![b], 0));
    }
}

/// Numbers of two bytes, most significant byte first, are in the order of
/// their values.
pub proof fn lemma_before_u16(x: u16, y: u16)
    ensures
        bytes_before(be_u16(x), be_u16(y)) == (x < y),
        (be_u16(x) == be_u16(y)) == (x == y),
{
    lemma_decode_encode(x, 0, 0, 0);
    lemma_decode_encode(y, 0, 0, 0);
    let high_x = seq![(x / 0x100) as u8];
    let low_x = seq![(x % 0x100) as u8];
    let high_y = seq![(y / 0x100) as u8];
    let low_y = seq![(y % 0x100) as u8];
    assert(be_u16(x) =~= high_x + low_x);
    assert(be_u16(y) =~= high_y + low_y);
    lemma_before_concat(high_x, low_x, high_y, low_y);
    lemma_before_byte((x / 0x100) as u8, (y / 0x100) as u8);
    lemma_before_byte((x % 0x100) as u8, (y % 0x100) as u8);
    assert((high_x == high_y) == (x / 0x100 == y / 0x100)) by {
        if high_x == high_y {
            assert(high_x[0] == high_y[0]);
        }
    }
}

/// The four bytes of a number are the two bytes of its upper half, then the
/// two bytes of its lower half.
proof fn lemma_halves(x: u32)
    ensures
        be_u32(x) == be_u16((x / 0x1_0000) as u16) + be_u16((x % 0x1_0000) as u16),
{
    assert(x / 0x100_0000 == (x / 0x1_0000) / 0x100) by (bit_vector);
    assert(x / 0x1_0000 % 0x100 == (x / 0x1_0000) % 0x100) by (bit_vector);
    assert(x / 0x100 % 0x100 == (x % 0x1_0000) / 0x100) by (bit_vector);
    assert(x % 0x100 == (x % 0x1_0000) % 0x100) by (bit_vector);
    assert(x / 0x1_0000 < 0x1_0000) by (bit_vector);
    assert(x % 0x1_0000 < 0x1_0000) by (bit_vector);
    assert(be_u32(x) =~= be_u16((x / 0x1_0000) as u16) + be_u16((x % 0x1_0000) as u16));
}

/// Numbers of four bytes, most significant byte first, are in the order of
/// their values.
pub proof fn lemma_before_u32(x: u32, y: u32)
    ensures
        bytes_before(be_u32(x), be_u32(y)) == (x < y),
        (be_u32(x) == be_u32(y)) == (x == y),
{
    lemma_decode_encode(0, x, 0, 0);
    lemma_decode_encode(0, y, 0, 0);
    let high_x = (x / 0x1_0000) as u16;
    let low_x = (x % 0x1_0000) as u16;
    let high_y = (y / 0x1_0000) as u16;
    let low_y = (y % 0x1_0000) as u16;
    lemma_halves(x);
    lemma_halves(y);
    lemma_before_concat(be_u16(high_x), be_u16(low_x), be_u16(high_y), be_u16(low_y));
    lemma_before_u16(high_x, high_y);
    lemma_before_u16(low_x, low_y);
    assert(x == high_x * 0x1_0000 + low_x);
    assert(y == high_y * 0x1_0000 + low_y);
}

/// The byte of the family of a key.
pub open spec fn family(key: KeyModel) -> u8 {
    match key {
        KeyModel::Metadata { .. } => TAG_METADATA,
        KeyModel::FieldDefinition { .. } => TAG_FIELD_DEFINITION,
        KeyModel::ActiveSegment { .. } => TAG_ACTIVE_SEGMENT,
        KeyModel::DocumentFieldValue { .. } => TAG_FIELD_VALUE,
        KeyModel::DeletedDocument { .. } => TAG_DELETION_LIST,
        KeyModel::TermDictionary { .. } => TAG_TERM_DICTIONARY,
        KeyModel::TermDirectory { .. } => TAG_TERM_DIRECTORY,
        KeyModel::UniqueKey { .. } => TAG_UNIQUE_KEY,
        KeyModel::Statistic { .. } => TAG_STATISTIC,
    }
}

/// The first key of a family stands before the second key of the family: its
/// parts, in the order in which they are written, are the smaller ones. Numbers
/// are in the order of their values, names in the order of byte strings.
pub open spec fn parts_before(x: KeyModel, y: KeyModel) -> bool {
    match (x, y) {
        (KeyModel::Metadata { name: a }, KeyModel::Metadata { name: b }) => bytes_before(a, b),
        (KeyModel::UniqueKey { key: a }, KeyModel::UniqueKey { key: b }) => bytes_before(a, b),
        (KeyModel::TermDictionary { term: a }, KeyModel::TermDictionary { term: b }) => bytes_before(
            a,
            b,
        ),
        (KeyModel::FieldDefinition { field_id: a }, KeyModel::FieldDefinition { field_id: b }) => a.0
            < b.0,
        (KeyModel::ActiveSegment { segment_id: a }, KeyModel::ActiveSegment { segment_id: b }) => a.0
            < b.0,
        (
            KeyModel::DeletedDocument { segment_id: a },
            KeyModel::DeletedDocument { segment_id: b },
        ) => a.0 < b.0,
        (
            KeyModel::TermDirectory { field_id: f, term_id: t, segment_id: s },
            KeyModel::TermDirectory { field_id: g, term_id: u, segment_id: r },
        ) => f.0 < g.0 || (f.0 == g.0 && (t.0 < u.0 || (t.0 == u.0 && s.0 < r.0))),
        (
            KeyModel::DocumentFieldValue { doc_id: d, field_id: f, kind: k },
            KeyModel::DocumentFieldValue { doc_id: e, field_id: g, kind: l },
        ) => d.0.0 < e.0.0 || (d.0.0 == e.0.0 && (d.1 < e.1 || (d.1 == e.1 && (f.0 < g.0 || (f.0
            == g.0 && bytes_before(k.encoding(), l.encoding())))))),
        (
            KeyModel::Statistic { segment_id: s, statistic: n },
            KeyModel::Statistic { segment_id: r, statistic: m },
        ) => s.0 < r.0 || (s.0 == r.0 && bytes_before(n.encoding(), m.encoding())),
        _ => false,
    }
}

/// The first key stands before the second: its family is the earlier one, or
/// the two are of one family and its parts are the smaller ones.
pub open spec fn key_before(x: KeyModel, y: KeyModel) -> bool {
    family(x) < family(y) || (family(x) == family(y) && parts_before(x, y))
}

/// The bytes of a key behind the byte of its family.
pub open spec fn parts(key: KeyModel) -> Seq<u8> {
    match key {
        KeyModel::Metadata { name } => name,
        KeyModel::UniqueKey { key } => key,
        KeyModel::TermDictionary { term } => term,
        KeyModel::FieldDefinition { field_id } => be_u16(field_id.0),
        KeyModel::ActiveSegment { segment_id } => be_u32(segment_id.0),
        KeyModel::DeletedDocument { segment_id } => be_u32(segment_id.0),
        KeyModel::TermDirectory { field_id, term_id, segment_id } => be_u16(field_id.0) + (be_u32(
            term_id.0,
        ) + be_u32(segment_id.0)),
        KeyModel::DocumentFieldValue { doc_id, field_id, kind } => be_u32(doc_id.0.0) + (be_u16(
            doc_id.1,
        ) + (be_u16(field_id.0) + kind.encoding())),
        KeyModel::Statistic { segment_id, statistic } => be_u32(segment_id.0)
            + statistic.encoding(),
    }
}

/// The bytes of a key are the byte of its family, then its parts.
pub proof fn lemma_family_first(key: KeyModel)
    ensures
        key.encoding() == seq![family(key)] + parts(key),
{
    assert(key.encoding() =~= seq![family(key)] + parts(key));
}

/// The parts of term directories are in the order of the field, the term and
/// the segment.
proof fn lemma_directories_in_order(x: KeyModel, y: KeyModel)
    requires
        x is TermDirectory,
        y is TermDirectory,
    ensures
        bytes_before(parts(x), parts(y)) == parts_before(x, y),
{
    match (x, y) {
        (
            KeyModel::TermDirectory { field_id: f, term_id: t, segment_id: s },
            KeyModel::TermDirectory { field_id: g, term_id: u, segment_id: r },
        ) => {
            lemma_before_concat(
                be_u16(f.0),
                be_u32(t.0) + be_u32(s.0),
                be_u16(g.0),
                be_u32(u.0) + be_u32(r.0),
            );
            lemma_before_concat(be_u32(t.0), be_u32(s.0), be_u32(u.0), be_u32(r.0));
            lemma_before_u16(f.0, g.0);
            lemma_before_u32(t.0, u.0);
            lemma_before_u32(s.0, r.0);
        },
        _ => {},
    }
}

/// The parts of the keys of kept values are in the order of the segment, the
/// ordinal, the field and the kind.
proof fn lemma_values_in_order(x: KeyModel, y: KeyModel)
    requires
        x is DocumentFieldValue,
        y is DocumentFieldValue,
    ensures
        bytes_before(parts(x), parts(y)) == parts_before(x, y),
{
    match (x, y) {
        (
            KeyModel::DocumentFieldValue { doc_id: d, field_id: f, kind: k },
            KeyModel::DocumentFieldValue { doc_id: e, field_id: g, kind: l },
        ) => {
            let tail_x = be_u16(d.1) + (be_u16(f.0) + k.encoding());
            let tail_y = be_u16(e.1) + (be_u16(g.0) + l.encoding());
            lemma_before_concat(be_u32(d.0.0), tail_x, be_u32(e.0.0), tail_y);
            lemma_before_concat(
                be_u16(d.1),
                be_u16(f.0) + k.encoding(),
                be_u16(e.1),
                be_u16(g.0) + l.encoding(),
            );
            lemma_before_concat(be_u16(f.0), k.encoding(), be_u16(g.0), l.encoding());
            lemma_before_u32(d.0.0, e.0.0);
            lemma_before_u16(d.1, e.1);
            lemma_before_u16(f.0, g.0);
        },
        _ => {},
    }
}

/// The parts of the keys of statistics are in the order of the segment and
/// the name.
proof fn lemma_statistics_in_order(x: KeyModel, y: KeyModel)
    requires
        x is Statistic,
        y is Statistic,
    ensures
        bytes_before(parts(x), parts(y)) == parts_before(x, y),
{
    match (x, y) {
        (
            KeyModel::Statistic { segment_id: s, statistic: n },
            KeyModel::Statistic { segment_id: r, statistic: m },
        ) => {
            lemma_before_concat(be_u32(s.0), n.encoding(), be_u32(r.0), m.encoding());
            lemma_before_u32(s.0, r.0);
        },
        _ => {},
    }
}

/// The parts of keys of one number are in the order of the number.
proof fn lemma_numbers_in_order(x: KeyModel, y: KeyModel)
    requires
        (x is FieldDefinition && y is FieldDefinition) || (x is ActiveSegment && y is ActiveSegment)
            || (x is DeletedDocument && y is DeletedDocument),
    ensures
        bytes_before(parts(x), parts(y)) == parts_before(x, y),
{
    match (x, y) {
        (KeyModel::FieldDefinition { field_id: a }, KeyModel::FieldDefinition { field_id: b }) => {
            lemma_before_u16(a.0, b.0);
        },
        (KeyModel::ActiveSegment { segment_id: a }, KeyModel::ActiveSegment { segment_id: b }) => {
            lemma_before_u32(a.0, b.0);
        },
        (
            KeyModel::DeletedDocument { segment_id: a },
            KeyModel::DeletedDocument { segment_id: b },
        ) => {
            lemma_before_u32(a.0, b.0);
        },
        _ => {},
    }
}

/// The bytes of keys are in the order of the keys.
#[verifier::spinoff_prover]
pub proof fn lemma_keys_in_order(x: KeyModel, y: KeyModel)
    ensures
        bytes_before(x.encoding(), y.encoding()) == key_before(x, y),
{
    let tag_x = seq![family(x)];
    let tag_y = seq![family(y)];
    lemma_family_first(x);
    lemma_family_first(y);
    lemma_before_concat(tag_x, parts(x), tag_y, parts(y));
    lemma_before_byte(family(x), family(y));
    assert((tag_x == tag_y) == (family(x) == family(y))) by {
        if tag_x == tag_y {
            assert(tag_x[0] == tag_y[0]);
        }
    }
    if family(x) == family(y) {
        if x is TermDirectory {
            lemma_directories_in_order(x, y);
        } else if x is DocumentFieldValue {
            lemma_values_in_order(x, y);
        } else if x is Statistic {
            lemma_statistics_in_order(x, y);
        } else if x is FieldDefinition || x is ActiveSegment || x is DeletedDocument {
            lemma_numbers_in_order(x, y);
        }
    }
}

} // verus!
