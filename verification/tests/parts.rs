use kite::collectors::top_score::{ScoredDocument, TopScoreCollector};
use kite::doc_id_mapping::DocIdMapping;
use kite::doc_id_set::DocIdSet;
use kite::document::{DocId, Document, FieldValue, SegmentId};
use kite::document_index::DocumentIndexManager;
use kite::key::Key;
use kite::scoring::read_frequency;
use kite::schema::{
    AddFieldError, FieldDataType, FieldDefinition, FieldFlags, FieldId, Schema, FIELD_DELETED,
    FIELD_INDEXED, FIELD_STORED, FIELD_UNIQUE,
};
use kite::segment_builder::{squash_length, SegmentBuilder};
use kite::segment_writer::write_segment;
use kite::term::{Term, TermId};
use kite::term_dictionary::TermDictionary;
use kite::term_vector::TermVector;
use kite::token::Token;
use kite::write_batch::{WriteBatch, WriteOp};

fn token(word: &str, position: u32) -> Token {
    Token { term: Term::from_string(word), position }
}

fn doc(segment: u32, ord: u16) -> DocId {
    DocId(SegmentId(segment), ord)
}

#[test]
fn tokens_are_grouped_by_term() {
    let vector = TermVector::from_tokens(vec![
        token("hello", 1),
        token("world", 2),
        token("hello", 5),
        token("hello", 3),
    ]);
    assert_eq!(vector.len(), 2);
    assert_eq!(vector.term_at(0), &Term::from_string("hello"));
    assert_eq!(vector.positions_at(0), &vec![1, 5, 3]);
    assert_eq!(vector.term_at(1), &Term::from_string("world"));
    assert_eq!(vector.positions_at(1), &vec![2]);
    assert_eq!(vector.token_count(), 4);
    assert_eq!(TermVector::new().len(), 0);
}

#[test]
fn tokens_come_back_in_the_order_of_their_positions() {
    let vector = TermVector::from_tokens(vec![
        token("c", 9),
        token("a", 4),
        token("c", 1),
        token("b", 4),
        token("a", 2),
    ]);
    assert_eq!(
        vector.into_tokens(),
        vec![token("c", 1), token("a", 2), token("a", 4), token("b", 4), token("c", 9)]
    );
    assert_eq!(TermVector::new().into_tokens(), Vec::<Token>::new());
}

#[test]
fn lengths_are_squashed_into_a_byte() {
    assert_eq!(squash_length(0), 0);
    assert_eq!(squash_length(1), 0);
    assert_eq!(squash_length(2), 1);
    assert_eq!(squash_length(3), 2);
    assert_eq!(squash_length(4), 3);
    assert_eq!(squash_length(5), 4);
    assert_eq!(squash_length(9), 6);
    assert_eq!(squash_length(100), 27);
    assert_eq!(squash_length(7338), 254);
    assert_eq!(squash_length(7367), 254);
    assert_eq!(squash_length(7368), 255);
    assert_eq!(squash_length(1_000_000), 255);
    assert_eq!(squash_length(usize::MAX), 255);
}

#[test]
fn flags_are_bits() {
    assert_eq!(FieldFlags::empty().bits(), 0);
    let flags = FieldFlags::from_bits(FIELD_INDEXED | FIELD_UNIQUE).unwrap();
    assert!(flags.indexed && flags.unique && !flags.stored && !flags.deleted);
    assert_eq!(flags.bits(), 5);
    assert_eq!(FieldFlags::from_bits(15).unwrap().bits(), 15);
    assert_eq!(FieldFlags::from_bits(16), None);
    let stored = FieldFlags::from_bits(FIELD_STORED).unwrap();
    assert!(flags.union(stored).contains(stored));
    assert!(!flags.contains(stored));
    assert!(flags.contains(FieldFlags::empty()));
    assert_eq!(flags.union(stored).bits(), 7);
    assert_eq!(FieldFlags::from_bits(FIELD_DELETED).unwrap().bits(), 8);
}

#[test]
fn schema_hands_out_field_ids() {
    let mut schema = Schema::new();
    let indexed = FieldFlags::from_bits(FIELD_INDEXED).unwrap();
    assert_eq!(schema.add_field("title".to_string(), FieldDataType::Text, indexed).unwrap(), FieldId(1));
    assert_eq!(schema.add_field("body".to_string(), FieldDataType::Text, indexed).unwrap(), FieldId(2));
    match schema.add_field("title".to_string(), FieldDataType::Integer, indexed) {
        Err(AddFieldError::FieldAlreadyExists(name)) => assert_eq!(name, "title"),
        other => panic!("{:?}", other),
    }
    assert_eq!(schema.len(), 2);
    assert_eq!(schema.get_field_by_name("body"), Some(FieldId(2)));
    assert_eq!(schema.get_field_by_name("nothing"), None);
    let definition = schema.get(FieldId(1)).unwrap();
    assert_eq!(definition.name(), "title");
    assert_eq!(definition.data_type(), FieldDataType::Text);
    assert_eq!(definition.flags(), indexed);
    assert!(schema.get(FieldId(0)).is_none());
    assert!(schema.get(FieldId(3)).is_none());
    assert!(schema.has_free_id());

    // A deleted field keeps its id; its name is free again.
    assert!(schema.delete_field(FieldId(1)));
    assert!(!schema.delete_field(FieldId(1)));
    assert!(!schema.delete_field(FieldId(7)));
    assert!(schema.get(FieldId(1)).unwrap().flags().deleted);
    assert_eq!(schema.get_field_by_name("title"), None);
    assert_eq!(schema.add_field("title".to_string(), FieldDataType::Text, indexed).unwrap(), FieldId(3));
    assert_eq!(schema.get_field_by_name("title"), Some(FieldId(3)));
    let definition = FieldDefinition::new("pk".to_string(), FieldDataType::Integer, indexed);
    assert_eq!(definition.name(), "pk");
}

#[test]
fn terms_get_ids_once() {
    let mut dictionary = TermDictionary::new(1);
    let mut batch = WriteBatch::new();
    let hello = Term::from_string("hello");
    let world = Term::from_string("world");
    assert_eq!(dictionary.get(&hello), None);
    assert_eq!(dictionary.get_or_create(&hello, &mut batch), Some(TermId(1)));
    assert_eq!(dictionary.get_or_create(&world, &mut batch), Some(TermId(2)));
    assert_eq!(dictionary.get_or_create(&hello, &mut batch), Some(TermId(1)));
    assert_eq!(dictionary.get(&world), Some(TermId(2)));
    assert_eq!(dictionary.len(), 2);
    assert_eq!(
        batch.ops,
        vec![
            WriteOp::Put { key: b"thello".to_vec(), value: vec![0, 0, 0, 1] },
            WriteOp::Put { key: b".next_term_dictionary_id".to_vec(), value: b"2".to_vec() },
            WriteOp::Put { key: b"tworld".to_vec(), value: vec![0, 0, 0, 2] },
            WriteOp::Put { key: b".next_term_dictionary_id".to_vec(), value: b"3".to_vec() },
        ]
    );
}

#[test]
fn terms_run_out_of_ids() {
    let mut dictionary = TermDictionary::new(u32::MAX - 1);
    let mut batch = WriteBatch::new();
    assert_eq!(dictionary.get_or_create(&Term::from_string("a"), &mut batch), Some(TermId(u32::MAX - 1)));
    assert_eq!(dictionary.get_or_create(&Term::from_string("b"), &mut batch), None);
    assert_eq!(dictionary.get_or_create(&Term::from_string("a"), &mut batch), Some(TermId(u32::MAX - 1)));
    assert_eq!(batch.len(), 2);
    assert_eq!(dictionary.resolve_all(&vec![Term::from_string("c")], &mut batch), None);
    assert_eq!(
        dictionary.resolve_all(&vec![], &mut batch),
        Some(vec![])
    );
}

#[test]
fn dictionary_is_loaded_from_its_entries() {
    let entries = vec![
        (b"thello".to_vec(), vec![0, 0, 0, 1]),
        (b"tworld".to_vec(), vec![0, 0, 0, 2]),
    ];
    let dictionary = TermDictionary::open(3, &entries).unwrap();
    assert_eq!(dictionary.get(&Term::from_string("world")), Some(TermId(2)));
    assert!(TermDictionary::open(2, &entries).is_none());
    assert!(TermDictionary::open(3, &vec![(b"khello".to_vec(), vec![0, 0, 0, 1])]).is_none());
    assert!(TermDictionary::open(3, &vec![(b"thello".to_vec(), vec![0, 0, 1])]).is_none());
    let twice = vec![(b"ta".to_vec(), vec![0, 0, 0, 1]), (b"tb".to_vec(), vec![0, 0, 0, 1])];
    assert!(TermDictionary::open(3, &twice).is_none());
    let twice = vec![(b"ta".to_vec(), vec![0, 0, 0, 1]), (b"ta".to_vec(), vec![0, 0, 0, 2])];
    assert!(TermDictionary::open(3, &twice).is_none());
}

#[test]
fn builder_writes_a_segment() {
    let mut builder = SegmentBuilder::new();
    let first = Document {
        key: "one".to_string(),
        indexed_fields: vec![(
            FieldId(1),
            TermVector::from_tokens(vec![token("hello", 1), token("world", 2), token("hello", 3)]),
        )],
        stored_fields: vec![(FieldId(2), FieldValue::Boolean(true))],
    };
    let second = Document {
        key: "two".to_string(),
        indexed_fields: vec![(FieldId(1), TermVector::from_tokens(vec![token("world", 1)]))],
        stored_fields: vec![],
    };
    assert_eq!(builder.add_document(&first), Ok(0));
    assert_eq!(builder.add_document(&second), Ok(1));
    assert_eq!(builder.documents(), 2);
    assert_eq!(builder.term_list(), &vec![Term::from_string("hello"), Term::from_string("world")]);
    assert_eq!(builder.directory_count(), 2);
    assert_eq!(builder.directory(1).2.to_vec(), vec![0u16, 1]);
    assert_eq!(builder.totals_at(0).1.docs, 2);
    assert_eq!(builder.totals_at(0).1.tokens, 4);
    assert_eq!(builder.stored_count(), 3);

    let mut dictionary = TermDictionary::new(5);
    let mut known = WriteBatch::new();
    dictionary.get_or_create(&Term::from_string("world"), &mut known);
    let batch = write_segment(&builder, SegmentId(9), &mut dictionary).unwrap();
    let hello = DocIdSet::from_bytes(vec![0, 0]).serialize();
    let world = DocIdSet::from_bytes(vec![0, 0, 0, 1]).serialize();
    let count = |n: u8| vec![0, 0, 0, 0, 0, 0, 0, n];
    assert_eq!(
        batch.ops,
        vec![
            WriteOp::Put { key: b"thello".to_vec(), value: vec![0, 0, 0, 6] },
            WriteOp::Put { key: b".next_term_dictionary_id".to_vec(), value: b"7".to_vec() },
            WriteOp::Put { key: b"d\x00\x01\x00\x00\x00\x06\x00\x00\x00\x09".to_vec(), value: hello },
            WriteOp::Merge {
                key: b"s\x00\x00\x00\x09tdf\x00\x01\x00\x00\x00\x06".to_vec(),
                value: count(1),
            },
            WriteOp::Put { key: b"d\x00\x01\x00\x00\x00\x05\x00\x00\x00\x09".to_vec(), value: world },
            WriteOp::Merge {
                key: b"s\x00\x00\x00\x09tdf\x00\x01\x00\x00\x00\x05".to_vec(),
                value: count(2),
            },
            WriteOp::Put {
                key: b"v\x00\x00\x00\x09\x00\x00\x00\x01tf\x00\x00\x00\x06".to_vec(),
                value: count(2),
            },
            WriteOp::Put { key: b"v\x00\x00\x00\x09\x00\x00\x00\x01len".to_vec(), value: vec![2] },
            WriteOp::Put { key: b"v\x00\x00\x00\x09\x00\x00\x00\x02val".to_vec(), value: vec![b't'] },
            WriteOp::Merge { key: b"s\x00\x00\x00\x09total_docs".to_vec(), value: count(2) },
            WriteOp::Merge { key: b"s\x00\x00\x00\x09fdoc\x00\x01".to_vec(), value: count(2) },
            WriteOp::Merge { key: b"s\x00\x00\x00\x09ftok\x00\x01".to_vec(), value: count(4) },
            WriteOp::Put { key: b"a\x00\x00\x00\x09".to_vec(), value: vec![] },
        ]
    );
}

#[test]
fn keys_name_documents() {
    let mut index = DocumentIndexManager::new();
    let key = b"test_doc".to_vec();
    assert!(!index.contains_document_key(&key));
    let (previous, batch) = index.insert_or_replace_key(&key, doc(1, 2));
    assert_eq!(previous, None);
    assert_eq!(
        batch.ops,
        vec![WriteOp::Put { key: b"ktest_doc".to_vec(), value: vec![1, 0, 0, 0, 2, 0] }]
    );
    assert!(index.contains_document_key(&key));
    assert_eq!(index.get(&key), Some(doc(1, 2)));

    let (previous, batch) = index.insert_or_replace_key(&key, doc(3, 0));
    assert_eq!(previous, Some(doc(1, 2)));
    assert_eq!(
        batch.ops,
        vec![
            WriteOp::Put { key: b"ktest_doc".to_vec(), value: vec![3, 0, 0, 0, 0, 0] },
            WriteOp::Merge { key: b"x\x00\x00\x00\x01".to_vec(), value: vec![0, 2] },
            WriteOp::Merge {
                key: b"s\x00\x00\x00\x01deleted_docs".to_vec(),
                value: vec![0, 0, 0, 0, 0, 0, 0, 1],
            },
        ]
    );
    assert_eq!(index.get(&key), Some(doc(3, 0)));

    let (previous, batch) = index.delete_document_by_key(&key);
    assert_eq!(previous, Some(doc(3, 0)));
    assert_eq!(
        batch.ops,
        vec![
            WriteOp::Delete { key: b"ktest_doc".to_vec() },
            WriteOp::Merge { key: b"x\x00\x00\x00\x03".to_vec(), value: vec![0, 0] },
            WriteOp::Merge {
                key: b"s\x00\x00\x00\x03deleted_docs".to_vec(),
                value: vec![0, 0, 0, 0, 0, 0, 0, 1],
            },
        ]
    );
    assert!(!index.contains_document_key(&key));
    assert_eq!(index.delete_document_by_key(&key).0, None);
}

#[test]
fn index_of_keys_is_loaded_from_a_scan() {
    let entries = vec![
        (b"ka".to_vec(), vec![1, 0, 0, 0, 2, 0]),
        (b"kb".to_vec(), vec![3, 0, 0, 0, 4, 0]),
        (b"s\x00\x00\x00\x01total_docs".to_vec(), vec![0; 8]),
        (b"kc".to_vec(), vec![5, 0, 0, 0, 6, 0]),
    ];
    let index = DocumentIndexManager::open(&entries).unwrap();
    assert_eq!(index.get(&b"a".to_vec()), Some(doc(1, 2)));
    assert_eq!(index.get(&b"b".to_vec()), Some(doc(3, 4)));
    assert_eq!(index.get(&b"c".to_vec()), None);
    assert!(DocumentIndexManager::open(&vec![(b"ka".to_vec(), vec![1, 0, 0])]).is_none());
    assert!(DocumentIndexManager::open(&vec![]).is_some());
}

#[test]
fn merge_moves_keys_and_late_deletions() {
    let mut index = DocumentIndexManager::new();
    index.insert_or_replace_key(&b"a".to_vec(), doc(1, 0));
    index.insert_or_replace_key(&b"b".to_vec(), doc(2, 5));
    index.insert_or_replace_key(&b"c".to_vec(), doc(7, 0));
    let mut mapping = DocIdMapping::new();
    assert_eq!(mapping.push(doc(1, 0)), 0);
    assert_eq!(mapping.push(doc(1, 3)), 1);
    assert_eq!(mapping.push(doc(2, 5)), 2);
    assert_eq!(mapping.get(doc(1, 3)), Some(1));
    assert_eq!(mapping.get(doc(1, 1)), None);
    assert_eq!(mapping.source(2), doc(2, 5));
    assert_eq!(mapping.len(), 3);

    // The document at ordinal 1 of segment 1 was deleted before the merge, the
    // one at ordinal 3 while it ran.
    let deletions = vec![
        (1u32, DocIdSet::from_bytes(vec![0, 1, 0, 3])),
        (2u32, DocIdSet::new()),
    ];
    let mut batch = WriteBatch::new();
    batch.put(&Key::active_segment(SegmentId(9)), &[]);
    let batch = index.commit_segment_merge(batch, &deletions, 9, &mapping);
    assert_eq!(
        batch.ops,
        vec![
            WriteOp::Put { key: b"a\x00\x00\x00\x09".to_vec(), value: vec![] },
            WriteOp::Put { key: b"ka".to_vec(), value: vec![9, 0, 0, 0, 0, 0] },
            WriteOp::Put { key: b"kb".to_vec(), value: vec![9, 0, 0, 0, 2, 0] },
            WriteOp::Put { key: b"x\x00\x00\x00\x09".to_vec(), value: vec![0, 1] },
        ]
    );
    assert_eq!(index.get(&b"a".to_vec()), Some(doc(9, 0)));
    assert_eq!(index.get(&b"b".to_vec()), Some(doc(9, 2)));
    assert_eq!(index.get(&b"c".to_vec()), Some(doc(7, 0)));
}

#[test]
fn collector_keeps_the_best_documents() {
    let mut collector = TopScoreCollector::new(3);
    collector.collect(doc(1, 5), 10);
    collector.collect(doc(1, 2), 30);
    collector.collect(doc(2, 0), 20);
    collector.collect(doc(1, 7), 20);
    collector.collect(doc(1, 9), 5);
    collector.collect(doc(0, 9), 20);
    assert_eq!(collector.len(), 3);
    assert_eq!(
        collector.into_sorted_vec(),
        vec![
            ScoredDocument { doc_id: doc(1, 2), score: 30 },
            ScoredDocument { doc_id: doc(0, 9), score: 20 },
            ScoredDocument { doc_id: doc(1, 7), score: 20 },
        ]
    );
    let mut all = TopScoreCollector::new(10);
    all.collect(doc(1, 1), 1);
    all.collect(doc(1, 0), 1);
    assert_eq!(
        all.into_sorted_vec(),
        vec![
            ScoredDocument { doc_id: doc(1, 0), score: 1 },
            ScoredDocument { doc_id: doc(1, 1), score: 1 },
        ]
    );
    let mut none = TopScoreCollector::new(0);
    none.collect(doc(1, 1), 1);
    assert_eq!(none.into_sorted_vec(), vec![]);
}

#[test]
fn sets_are_shown_as_lists() {
    let set = DocIdSet::from_bytes(vec![0, 7, 0, 3, 1, 0]);
    assert_eq!(set.to_debug_string(), "[3, 7, 256]");
    assert_eq!(DocIdSet::new().to_debug_string(), "[]");
    assert_eq!(DocIdSet::from_bytes(vec![0, 0]).to_debug_string(), "[0]");
    assert_eq!(
        DocIdSet::from_bytes(vec![255, 255, 0, 10, 0, 0, 0, 10]).to_debug_string(),
        "[0, 10, 65535]"
    );
}

#[test]
fn vectors_and_tokens_convert() {
    let tokens = vec![token("b", 2), token("a", 1), token("b", 3)];
    let vector: TermVector = tokens.into();
    assert_eq!(vector.len(), 2);
    assert_eq!(vector.positions_at(0), &vec![2, 3]);
    assert!(vector.is_valid());
    let tokens: Vec<Token> = vector.into();
    assert_eq!(tokens, vec![token("a", 1), token("b", 2), token("b", 3)]);
}

#[test]
fn documents_with_a_field_twice_are_not_valid() {
    let valid = Document {
        key: "doc".to_string(),
        indexed_fields: vec![
            (FieldId(1), TermVector::from_tokens(vec![token("a", 1)])),
            (FieldId(2), TermVector::new()),
        ],
        stored_fields: vec![(FieldId(1), FieldValue::Integer(1)), (FieldId(3), FieldValue::Integer(2))],
    };
    assert!(valid.is_valid());
    let indexed_twice = Document {
        key: "doc".to_string(),
        indexed_fields: vec![(FieldId(1), TermVector::new()), (FieldId(1), TermVector::new())],
        stored_fields: vec![],
    };
    assert!(!indexed_twice.is_valid());
    let stored_twice = Document {
        key: "doc".to_string(),
        indexed_fields: vec![],
        stored_fields: vec![(FieldId(2), FieldValue::Integer(1)), (FieldId(2), FieldValue::Integer(2))],
    };
    assert!(!stored_twice.is_valid());
}

#[test]
fn field_definitions_are_stored_and_read_back() {
    let flags = FieldFlags { indexed: true, stored: true, unique: false, deleted: false };
    let definition = FieldDefinition::new("title".to_string(), FieldDataType::Text, flags);
    assert_eq!(definition.to_bytes(), vec![0, 3, b't', b'i', b't', b'l', b'e']);
    let read = FieldDefinition::from_bytes(&definition.to_bytes()).unwrap();
    assert_eq!(read.name(), "title");
    assert_eq!(read.data_type(), FieldDataType::Text);
    assert_eq!(read.flags(), flags);

    let flags = FieldFlags { indexed: false, stored: true, unique: true, deleted: true };
    let definition = FieldDefinition::new("".to_string(), FieldDataType::DateTime, flags);
    assert_eq!(definition.to_bytes(), vec![4, 14]);
    let read = FieldDefinition::from_bytes(&[4, 14]).unwrap();
    assert_eq!(read.name(), "");
    assert_eq!(read.data_type(), FieldDataType::DateTime);
    assert_eq!(read.flags(), flags);

    assert_eq!(FieldDataType::of_code(1), Some(FieldDataType::PlainString));
    assert_eq!(FieldDataType::of_code(2), Some(FieldDataType::Integer));
    assert_eq!(FieldDataType::Boolean.code(), 3);
    assert_eq!(FieldDataType::of_code(5), None);

    // Too short, no type, no flags, no text.
    assert!(FieldDefinition::from_bytes(&[]).is_none());
    assert!(FieldDefinition::from_bytes(&[0]).is_none());
    assert!(FieldDefinition::from_bytes(&[5, 0, b'a']).is_none());
    assert!(FieldDefinition::from_bytes(&[0, 16, b'a']).is_none());
    assert!(FieldDefinition::from_bytes(&[0, 1, 0xff]).is_none());
}

#[test]
fn schema_is_loaded_from_its_definitions() {
    let schema = Schema::open(&vec![]).unwrap();
    assert_eq!(schema.len(), 0);

    // A deleted field may share its name with a later one.
    let definitions = vec![
        vec![0, 9, b'a'],
        vec![2, 2, b'n'],
        vec![1, 1, b'a'],
    ];
    let mut schema = Schema::open(&definitions).unwrap();
    assert_eq!(schema.len(), 3);
    assert_eq!(schema.get_field_by_name("a"), Some(FieldId(3)));
    assert_eq!(schema.get_field_by_name("n"), Some(FieldId(2)));
    assert!(schema.get(FieldId(1)).unwrap().flags().deleted);
    assert_eq!(schema.get(FieldId(2)).unwrap().data_type(), FieldDataType::Integer);
    let flags = FieldFlags { indexed: true, stored: false, unique: false, deleted: false };
    assert_eq!(schema.add_field("b".to_string(), FieldDataType::Text, flags).unwrap(), FieldId(4));

    // Two fields that are not deleted cannot have one name.
    assert!(Schema::open(&vec![vec![0, 1, b'a'], vec![1, 1, b'a']]).is_none());
    // A definition that cannot be read.
    assert!(Schema::open(&vec![vec![0, 1, b'a'], vec![9, 1, b'b']]).is_none());
}

#[test]
fn collector_takes_the_hits_of_a_segment() {
    let hits = DocIdSet::from_bytes(vec![0, 9, 0, 2, 0, 5]);
    let mut collector = TopScoreCollector::new(10);
    // One score too few: nothing is taken.
    assert!(!collector.collect_segment(4, &hits, &vec![1, 2]));
    assert_eq!(collector.len(), 0);
    // The scores go to the ordinals in ascending order.
    assert!(collector.collect_segment(4, &hits, &vec![7, 3, 7]));
    assert!(collector.collect_segment(1, &DocIdSet::from_bytes(vec![0, 6]), &vec![7]));
    assert!(collector.collect_segment(2, &DocIdSet::new(), &vec![]));
    assert_eq!(
        collector.into_sorted_vec(),
        vec![
            ScoredDocument { doc_id: doc(1, 6), score: 7 },
            ScoredDocument { doc_id: doc(4, 2), score: 7 },
            ScoredDocument { doc_id: doc(4, 9), score: 7 },
            ScoredDocument { doc_id: doc(4, 5), score: 3 },
        ]
    );
    let mut best = TopScoreCollector::new(2);
    assert!(best.collect_segment(4, &hits, &vec![7, 3, 7]));
    assert_eq!(
        best.into_sorted_vec(),
        vec![
            ScoredDocument { doc_id: doc(4, 2), score: 7 },
            ScoredDocument { doc_id: doc(4, 9), score: 7 },
        ]
    );
}

#[test]
fn fields_are_refused_with_an_error() {
    let live = FieldFlags { indexed: true, stored: false, unique: false, deleted: false };
    let gone = FieldFlags { indexed: true, stored: false, unique: false, deleted: true };
    let mut schema = Schema::new();
    // A field may be added as deleted: it has an id and takes no documents.
    assert_eq!(schema.add_field("old".to_string(), FieldDataType::Text, gone).unwrap(), FieldId(1));
    assert!(schema.get(FieldId(1)).unwrap().flags().deleted);
    assert_eq!(schema.get_field_by_name("old"), None);
    assert_eq!(schema.add_field("old".to_string(), FieldDataType::Text, live).unwrap(), FieldId(2));
    match schema.add_field("old".to_string(), FieldDataType::Text, gone) {
        Err(AddFieldError::FieldAlreadyExists(name)) => assert_eq!(name, "old"),
        other => panic!("{:?}", other),
    }

    // With every id taken no field is added.
    let definitions: Vec<Vec<u8>> = (0..0xffffu32).map(|_| vec![0, 9, b'x']).collect();
    let mut full = Schema::open(&definitions).unwrap();
    assert_eq!(full.len(), 0xffff);
    assert!(!full.has_free_id());
    match full.add_field("new".to_string(), FieldDataType::Text, live) {
        Err(AddFieldError::IdsExhausted) => {}
        other => panic!("{:?}", other),
    }
    assert_eq!(full.len(), 0xffff);
    let mut almost = Schema::open(&definitions[1..].to_vec()).unwrap();
    assert_eq!(almost.add_field("new".to_string(), FieldDataType::Text, live).unwrap(), FieldId(0xffff));
}

#[test]
fn key_index_changes_are_worked_out_first() {
    let mut index = DocumentIndexManager::new();
    let key = b"k".to_vec();
    let (previous, batch, next) = index.prepare_insert_or_replace(&key, doc(1, 0));
    assert_eq!(previous, None);
    assert_eq!(batch.len(), 1);
    // Nothing has changed until the new index is put in place.
    assert!(!index.contains_document_key(&key));
    assert!(next.contains_document_key(&key));
    index.commit(next);
    assert_eq!(index.get(&key), Some(doc(1, 0)));

    let (previous, batch, next) = index.prepare_insert_or_replace(&key, doc(2, 0));
    assert_eq!(previous, Some(doc(1, 0)));
    assert_eq!(batch.len(), 3);
    // The write failed: the new index is dropped.
    drop(next);
    assert_eq!(index.get(&key), Some(doc(1, 0)));

    let (removed, batch, next) = index.prepare_delete(&key);
    assert_eq!(removed, Some(doc(1, 0)));
    assert_eq!(batch.len(), 3);
    assert!(index.contains_document_key(&key));
    index.commit(next);
    assert!(!index.contains_document_key(&key));

    let mut mapping = DocIdMapping::new();
    mapping.push(doc(1, 3));
    let mut index = DocumentIndexManager::new();
    index.insert_or_replace_key(&key, doc(1, 3));
    let (batch, next) = index.prepare_segment_merge(WriteBatch::new(), &vec![], 9, &mapping);
    assert_eq!(batch.len(), 2);
    assert_eq!(index.get(&key), Some(doc(1, 3)));
    assert_eq!(next.get(&key), Some(doc(9, 0)));
}

#[test]
fn sets_are_made_of_numbers_read() {
    let set = DocIdSet::from_values(&vec![7, 3, 65535, 3]).unwrap();
    assert_eq!(set.to_vec(), vec![3u16, 7, 65535]);
    assert_eq!(DocIdSet::from_values(&vec![]).unwrap().to_vec(), Vec::<u16>::new());
    // A number above the largest ordinal is no ordinal.
    assert!(DocIdSet::from_values(&vec![1, 65536]).is_none());
    assert!(DocIdSet::from_values(&vec![u32::MAX]).is_none());
}

#[test]
fn small_sets_are_written_as_roaring_writes_them() {
    let (none, first) = kite::inserted::write_small_sets();
    assert_eq!(none, vec![0x3a, 0x30, 0, 0, 0, 0, 0, 0]);
    assert_eq!(first, vec![0x3a, 0x30, 0, 0, 1, 0, 0, 0, 0, 0, 0, 0, 16, 0, 0, 0, 0, 0]);
    assert_eq!(DocIdSet::deserialize(&none).unwrap().to_vec(), Vec::<u16>::new());
    assert_eq!(DocIdSet::deserialize(&first).unwrap().to_vec(), vec![0u16]);
}

#[test]
fn frequencies_are_read_with_one_for_none() {
    assert_eq!(read_frequency(None), 1);
    assert_eq!(read_frequency(Some(&[0, 0, 0, 0, 0, 0, 0, 3])), 3);
    assert_eq!(read_frequency(Some(&[0, 0, 0, 0, 255, 255, 255, 255])), u32::MAX);
    // No number of tokens: too large, none, below none, or no eight bytes.
    assert_eq!(read_frequency(Some(&[0, 0, 0, 1, 0, 0, 0, 0])), 1);
    assert_eq!(read_frequency(Some(&[0; 8])), 1);
    assert_eq!(read_frequency(Some(&[255; 8])), 1);
    assert_eq!(read_frequency(Some(&[3])), 1);
}

#[test]
fn collector_takes_the_hits_of_all_segments() {
    let found = vec![
        (4u32, DocIdSet::from_bytes(vec![0, 9, 0, 2])),
        (1u32, DocIdSet::from_bytes(vec![0, 6])),
        (2u32, DocIdSet::new()),
    ];
    let mut collector = TopScoreCollector::new(10);
    // Scores that do not fit: a list too few, a score too many.
    assert!(!collector.collect_all(&found, &vec![vec![1, 2], vec![3]]));
    assert!(!collector.collect_all(&found, &vec![vec![1, 2], vec![3, 4], vec![]]));
    assert_eq!(collector.len(), 0);
    assert!(collector.collect_all(&found, &vec![vec![5, 7], vec![7], vec![]]));
    assert_eq!(
        collector.into_sorted_vec(),
        vec![
            ScoredDocument { doc_id: doc(1, 6), score: 7 },
            ScoredDocument { doc_id: doc(4, 9), score: 7 },
            ScoredDocument { doc_id: doc(4, 2), score: 5 },
        ]
    );
}
