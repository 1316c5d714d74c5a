use kite::document::{DocId, SegmentId};
use kite::key::{Key, StatisticKey, ValueKind};
use kite::schema::FieldId;
use kite::term::{Term, TermId};

fn all_keys() -> Vec<Key> {
    vec![
        Key::metadata("next_field_id".to_string()),
        Key::next_field_id(),
        Key::next_segment_id(),
        Key::next_term_dictionary_id(),
        Key::schema(),
        Key::field_definition(FieldId(0x0102)),
        Key::active_segment(SegmentId(0x01020304)),
        Key::document_field_value(DocId(SegmentId(7), 9), FieldId(3)),
        Key::stored_value(DocId(SegmentId(7), 9), FieldId(3), ValueKind::Length),
        Key::stored_value(DocId(SegmentId(7), 9), FieldId(3), ValueKind::TermFrequency(TermId(5))),
        Key::deleted_document(DocId(SegmentId(0xffff_ffff), 12)),
        Key::term_dictionary(&Term::from_string("hello")),
        Key::term_directory(FieldId(1), TermId(2), SegmentId(3)),
        Key::unique_key(b"test_doc"),
        Key::unique_key(b""),
        Key::statistic(SegmentId(1), StatisticKey::TotalDocs),
        Key::statistic(SegmentId(1), StatisticKey::DeletedDocs),
        Key::statistic(SegmentId(1), StatisticKey::TotalFieldDocs(FieldId(2))),
        Key::statistic(SegmentId(1), StatisticKey::TotalFieldTokens(FieldId(2))),
        Key::statistic(SegmentId(1), StatisticKey::TermDocFrequency(FieldId(2), TermId(3))),
    ]
}

#[test]
fn keys_are_written_family_first() {
    assert_eq!(Key::next_segment_id().to_bytes(), b".next_segment_id".to_vec());
    assert_eq!(Key::next_field_id().to_bytes(), b".next_field_id".to_vec());
    assert_eq!(Key::next_term_dictionary_id().to_bytes(), b".next_term_dictionary_id".to_vec());
    assert_eq!(Key::schema().to_bytes(), b".schema".to_vec());
    assert_eq!(Key::metadata("x".to_string()).to_bytes(), b".x".to_vec());
    assert_eq!(Key::field_definition(FieldId(0x0102)).to_bytes(), vec![b'f', 1, 2]);
    assert_eq!(Key::active_segment(SegmentId(0x01020304)).to_bytes(), vec![b'a', 1, 2, 3, 4]);
    assert_eq!(
        Key::term_directory(FieldId(1), TermId(2), SegmentId(3)).to_bytes(),
        vec![b'd', 0, 1, 0, 0, 0, 2, 0, 0, 0, 3]
    );
    assert_eq!(
        Key::document_field_value(DocId(SegmentId(7), 9), FieldId(3)).to_bytes(),
        vec![b'v', 0, 0, 0, 7, 0, 9, 0, 3, b'v', b'a', b'l']
    );
    assert_eq!(
        Key::stored_value(DocId(SegmentId(7), 9), FieldId(3), ValueKind::Length).to_bytes(),
        vec![b'v', 0, 0, 0, 7, 0, 9, 0, 3, b'l', b'e', b'n']
    );
    assert_eq!(
        Key::stored_value(DocId(SegmentId(7), 9), FieldId(3), ValueKind::TermFrequency(TermId(5)))
            .to_bytes(),
        vec![b'v', 0, 0, 0, 7, 0, 9, 0, 3, b't', b'f', 0, 0, 0, 5]
    );
    assert_eq!(
        Key::deleted_document(DocId(SegmentId(0x0a0b0c0d), 12)).to_bytes(),
        vec![b'x', 0x0a, 0x0b, 0x0c, 0x0d]
    );
    assert_eq!(Key::unique_key(b"test_doc").to_bytes(), b"ktest_doc".to_vec());
    assert_eq!(Key::term_dictionary(&Term::from_string("hello")).to_bytes(), b"thello".to_vec());
    assert_eq!(
        Key::statistic(SegmentId(1), StatisticKey::TotalDocs).to_bytes(),
        b"s\x00\x00\x00\x01total_docs".to_vec()
    );
    assert_eq!(
        Key::statistic(SegmentId(1), StatisticKey::DeletedDocs).to_bytes(),
        b"s\x00\x00\x00\x01deleted_docs".to_vec()
    );
    assert_eq!(
        Key::statistic(SegmentId(1), StatisticKey::TotalFieldDocs(FieldId(2))).to_bytes(),
        b"s\x00\x00\x00\x01fdoc\x00\x02".to_vec()
    );
    assert_eq!(
        Key::statistic(SegmentId(1), StatisticKey::TotalFieldTokens(FieldId(2))).to_bytes(),
        b"s\x00\x00\x00\x01ftok\x00\x02".to_vec()
    );
    assert_eq!(
        Key::statistic(SegmentId(1), StatisticKey::TermDocFrequency(FieldId(2), TermId(3)))
            .to_bytes(),
        b"s\x00\x00\x00\x01tdf\x00\x02\x00\x00\x00\x03".to_vec()
    );
}

#[test]
fn keys_are_read_back() {
    for key in all_keys() {
        assert_eq!(Key::from_bytes(&key.to_bytes()), Some(key));
    }
}

#[test]
fn different_keys_have_different_bytes() {
    let keys = all_keys();
    for (i, first) in keys.iter().enumerate() {
        for (j, second) in keys.iter().enumerate() {
            assert_eq!(first.to_bytes() == second.to_bytes(), first == second, "{} {}", i, j);
        }
    }
}

#[test]
fn bytes_that_spell_no_key_are_refused() {
    assert_eq!(Key::from_bytes(b""), None);
    assert_eq!(Key::from_bytes(b"?"), None);
    assert_eq!(Key::from_bytes(&[b'f', 1]), None);
    assert_eq!(Key::from_bytes(&[b'f', 1, 2, 3]), None);
    assert_eq!(Key::from_bytes(&[b'a', 1, 2, 3]), None);
    assert_eq!(Key::from_bytes(&[b'x', 1, 2, 3, 4, 5]), None);
    assert_eq!(Key::from_bytes(&[b'd', 0, 1, 0, 0, 0, 2, 0, 0, 0]), None);
    assert_eq!(Key::from_bytes(b"v\x00\x00\x00\x07\x00\x09\x00\x03"), None);
    assert_eq!(Key::from_bytes(b"v\x00\x00\x00\x07\x00\x09\x00\x03value"), None);
    assert_eq!(Key::from_bytes(b"s\x00\x00\x00\x01docs"), None);
    assert_eq!(Key::from_bytes(b"s\x00\x00"), None);
    assert_eq!(Key::from_bytes(b"k"), Some(Key::unique_key(b"")));
}

#[test]
fn keys_of_a_family_are_in_the_order_of_their_fields() {
    let directory = |field, term, segment| {
        Key::term_directory(FieldId(field), TermId(term), SegmentId(segment)).to_bytes()
    };
    assert!(directory(1, 2, 300) < directory(1, 3, 0));
    assert!(directory(1, 0xffff_ffff, 0xffff_ffff) < directory(2, 0, 0));
    assert!(directory(1, 2, 255) < directory(1, 2, 256));
    let value = |segment, ord, field| {
        Key::document_field_value(DocId(SegmentId(segment), ord), FieldId(field)).to_bytes()
    };
    assert!(value(1, 255, 9) < value(1, 256, 0));
    assert!(value(1, 65535, 9) < value(2, 0, 0));
    assert!(Key::unique_key(b"a").to_bytes() < Key::unique_key(b"ab").to_bytes());
    assert!(Key::unique_key(b"ab").to_bytes() < Key::unique_key(b"b").to_bytes());
    assert!(Key::active_segment(SegmentId(9)).to_bytes() < Key::unique_key(b"").to_bytes());
}

#[test]
fn names_of_statistics_and_kinds_are_read_back() {
    assert_eq!(StatisticKey::TotalDocs.to_bytes(), b"total_docs".to_vec());
    assert_eq!(StatisticKey::DeletedDocs.to_bytes(), b"deleted_docs".to_vec());
    assert_eq!(StatisticKey::from_bytes(b"total_docs"), Some(StatisticKey::TotalDocs));
    assert_eq!(StatisticKey::from_bytes(b"deleted_docs"), Some(StatisticKey::DeletedDocs));
    assert_eq!(
        StatisticKey::from_bytes(b"tdf\x01\x02\x00\x00\x00\x03"),
        Some(StatisticKey::TermDocFrequency(FieldId(0x0102), TermId(3)))
    );
    assert_eq!(StatisticKey::from_bytes(b"total_doc"), None);
    assert_eq!(StatisticKey::from_bytes(b"fdoc\x00"), None);
    assert_eq!(ValueKind::from_bytes(b"val"), Some(ValueKind::Value));
    assert_eq!(ValueKind::from_bytes(b"len"), Some(ValueKind::Length));
    assert_eq!(
        ValueKind::from_bytes(b"tf\x00\x00\x01\x00"),
        Some(ValueKind::TermFrequency(TermId(256)))
    );
    assert_eq!(ValueKind::from_bytes(b"tf"), None);
    assert_eq!(ValueKind::from_bytes(b"vale"), None);
}

#[test]
fn locations_are_stored_in_six_bytes() {
    let doc_id = DocId::from_segment_ord(0x01020304, 0x0506);
    assert_eq!(doc_id.to_bytes(), vec![4, 3, 2, 1, 6, 5]);
    assert_eq!(DocId::from_bytes(&[4, 3, 2, 1, 6, 5]), Some(doc_id));
    assert_eq!(DocId::from_bytes(&[4, 3, 2, 1, 6]), None);
    assert_eq!(DocId::from_bytes(&[4, 3, 2, 1, 6, 5, 0]), None);
    assert_eq!(doc_id.segment(), 0x01020304);
    assert_eq!(doc_id.ord(), 0x0506);
}
