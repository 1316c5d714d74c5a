use std::collections::BTreeMap;

use kite::collectors::top_score::TopScoreCollector;
use kite::document::{DocId, Document, FieldValue, SegmentId};
use kite::document_index::DocumentIndexManager;
use kite::index::{DocumentInsertError, Index};
use kite::key::{Key, StatisticKey, ValueKind};
use kite::merge_operator::merge;
use kite::query::multi_term_selector::MultiTermSelector;
use kite::query::Query;
use kite::schema::{FieldDataType, FieldFlags, FieldId};
use kite::scoring::{load_count, load_term_frequency, selected_terms_of};
use kite::search::{search_all, search_segment, SearchError};
use kite::segment::{MemorySegment, Segment};
use kite::segment_builder::SegmentBuilder;
use kite::segment_ops::{purge_segments, SegmentMergeError};
use kite::segment_stats::get_segment_statistics;
use kite::term::Term;
use kite::term_dictionary::TermDictionary;
use kite::term_vector::TermVector;
use kite::token::Token;
use kite::write_batch::{WriteBatch, WriteOp};

/// An ordered store in memory that applies batches as a store would.
struct Store {
    data: BTreeMap<Vec<u8>, Vec<u8>>,
}

impl Store {
    fn new() -> Store {
        Store { data: BTreeMap::new() }
    }

    fn write(&mut self, batch: WriteBatch) {
        for op in batch.ops {
            match op {
                WriteOp::Put { key, value } => {
                    self.data.insert(key, value);
                }
                WriteOp::Delete { key } => {
                    self.data.remove(&key);
                }
                WriteOp::Merge { key, value } => {
                    let merged = merge(
                        &key,
                        self.data.get(&key).map(|held| held.as_slice()),
                        &vec![value],
                    )
                    .unwrap();
                    self.data.insert(key, merged);
                }
            }
        }
    }

    fn entries(&self) -> Vec<(Vec<u8>, Vec<u8>)> {
        self.data.iter().map(|(key, value)| (key.clone(), value.clone())).collect()
    }

    fn active_segments(&self) -> Vec<u32> {
        let mut segments = Vec::new();
        for key in self.data.keys() {
            if let Some(Key::ActiveSegment { segment_id }) = Key::from_bytes(key) {
                segments.push(segment_id.0);
            }
        }
        segments
    }

    fn key_of(&self, doc_id: DocId) -> Option<Vec<u8>> {
        for (key, value) in self.data.iter() {
            if let Some(Key::UniqueKey { key: name }) = Key::from_bytes(key) {
                if DocId::from_bytes(value) == Some(doc_id) {
                    return Some(name);
                }
            }
        }
        None
    }
}

fn vector(words: &[&str]) -> TermVector {
    let mut tokens = Vec::new();
    for (place, word) in words.iter().enumerate() {
        tokens.push(Token { term: Term::from_string(word), position: place as u32 + 1 });
    }
    TermVector::from_tokens(tokens)
}

fn flags(indexed: bool, stored: bool) -> FieldFlags {
    FieldFlags { indexed, stored, unique: false, deleted: false }
}

struct Fixture {
    store: Store,
    index: Index,
    title: FieldId,
    body: FieldId,
    pk: FieldId,
}

fn fixture() -> Fixture {
    let mut store = Store::new();
    let (mut index, batch) = Index::create();
    store.write(batch);
    let (title, batch) =
        index.add_field("title".to_string(), FieldDataType::Text, flags(true, false)).unwrap();
    store.write(batch);
    let (body, batch) =
        index.add_field("body".to_string(), FieldDataType::Text, flags(true, false)).unwrap();
    store.write(batch);
    let (pk, batch) =
        index.add_field("pk".to_string(), FieldDataType::Integer, flags(false, true)).unwrap();
    store.write(batch);
    Fixture { store, index, title, body, pk }
}

fn insert(fixture: &mut Fixture, key: &str, title: &[&str], body: &[&str], pk: i64) {
    let doc = Document {
        key: key.to_string(),
        indexed_fields: vec![(fixture.title, vector(title)), (fixture.body, vector(body))],
        stored_fields: vec![(fixture.pk, FieldValue::Integer(pk))],
    };
    let batch = fixture.index.insert_or_update_document(&doc).unwrap();
    fixture.store.write(batch);
}

/// The keys of the documents that a search of all live segments returns.
fn search(fixture: &Fixture, query: &Query) -> Vec<String> {
    let entries = fixture.store.entries();
    let mut found = Vec::new();
    for segment_id in fixture.store.active_segments() {
        let segment = MemorySegment::new(segment_id, &entries);
        let hits = search_segment(&segment, query, &fixture.index.term_dictionary).unwrap();
        for ord in hits.to_vec() {
            let key = fixture.store.key_of(segment.doc_id(ord)).unwrap();
            found.push(String::from_utf8(key).unwrap());
        }
    }
    found.sort();
    found
}

fn term(field: FieldId, word: &str) -> Query {
    Query::term(field, Term::from_string(word))
}

fn read_pk(fixture: &Fixture, key: &str) -> Option<FieldValue> {
    let doc_id = fixture.index.document_index.get(&key.as_bytes().to_vec())?;
    let stored =
        fixture.store.data.get(&Key::document_field_value(doc_id, fixture.pk).to_bytes());
    fixture.index.read_stored_field(fixture.pk, stored.map(|bytes| bytes.as_slice())).unwrap()
}

#[test]
fn basic_index_and_search() {
    let mut fixture = fixture();
    insert(&mut fixture, "test_doc", &["hello", "world"], &["lorem", "ipsum", "dolar"], 1);
    insert(&mut fixture, "another_test_doc", &["howdy", "partner"], &["lorem", "ipsum", "dolar"], 2);

    let leaves = vec!["howdy", "partner", "hello"];
    let query = Query::Disjunction {
        queries: leaves.iter().map(|word| term(fixture.title, word)).collect(),
    };
    assert_eq!(search(&fixture, &query), vec!["another_test_doc", "test_doc"]);

    // Every leaf that a document matches adds its boost to the document's score.
    let boost = 2.0f32;
    let entries = fixture.store.entries();
    let mut collector = TopScoreCollector::new(10);
    for segment_id in fixture.store.active_segments() {
        let segment = MemorySegment::new(segment_id, &entries);
        let hits = search_segment(&segment, &query, &fixture.index.term_dictionary).unwrap();
        for ord in hits.to_vec() {
            let mut score = 0.0f32;
            for word in leaves.iter() {
                let leaf = term(fixture.title, word);
                let matched =
                    search_segment(&segment, &leaf, &fixture.index.term_dictionary).unwrap();
                if matched.contains_doc(ord) {
                    score += boost;
                }
            }
            collector.collect(segment.doc_id(ord), score.to_bits());
        }
    }
    let docs = collector.into_sorted_vec();
    assert_eq!(docs.len(), 2);
    assert_eq!(fixture.store.key_of(docs[0].doc_id).unwrap(), b"another_test_doc".to_vec());
    assert_eq!(fixture.store.key_of(docs[1].doc_id).unwrap(), b"test_doc".to_vec());
    assert!(f32::from_bits(docs[0].score) > f32::from_bits(docs[1].score));
    assert_eq!(f32::from_bits(docs[0].score), 4.0);
    assert_eq!(f32::from_bits(docs[1].score), 2.0);
}

#[test]
fn stored_fields_are_read_back() {
    let mut fixture = fixture();
    insert(&mut fixture, "test_doc", &["hello", "world"], &["lorem"], 1);
    insert(&mut fixture, "another_test_doc", &["howdy"], &["lorem"], -2);
    assert_eq!(read_pk(&fixture, "test_doc"), Some(FieldValue::Integer(1)));
    assert_eq!(read_pk(&fixture, "another_test_doc"), Some(FieldValue::Integer(-2)));
    assert_eq!(read_pk(&fixture, "no_such_doc"), None);
}

#[test]
fn update_replaces_the_document_of_a_key() {
    let mut fixture = fixture();
    insert(&mut fixture, "k", &["old", "shared"], &["lorem"], 1);
    insert(&mut fixture, "k", &["new", "shared"], &["lorem"], 2);

    assert_eq!(search(&fixture, &term(fixture.title, "old")), Vec::<String>::new());
    assert_eq!(search(&fixture, &term(fixture.title, "new")), vec!["k"]);
    assert_eq!(search(&fixture, &term(fixture.title, "shared")), vec!["k"]);
    assert_eq!(read_pk(&fixture, "k"), Some(FieldValue::Integer(2)));

    // Exactly one document of the key is live.
    let entries = fixture.store.entries();
    let first = MemorySegment::new(0, &entries);
    let second = MemorySegment::new(1, &entries);
    assert_eq!(first.deleted().to_vec(), vec![0u16]);
    assert_eq!(second.deleted().to_vec(), Vec::<u16>::new());
    assert_eq!(
        fixture.index.document_index.get(&b"k".to_vec()),
        Some(DocId(SegmentId(1), 0))
    );
    let statistics = get_segment_statistics(&vec![first, second]).unwrap();
    assert_eq!(statistics[0].0, 0);
    assert_eq!(statistics[0].1.total_docs(), 1);
    assert_eq!(statistics[0].1.deleted_docs(), 1);
    assert_eq!(statistics[1].1.total_docs(), 1);
    assert_eq!(statistics[1].1.deleted_docs(), 0);
}

#[test]
fn removed_document_is_not_found() {
    let mut fixture = fixture();
    insert(&mut fixture, "one", &["hello", "world"], &["lorem"], 1);
    insert(&mut fixture, "two", &["hello", "there"], &["lorem"], 2);

    let (removed, batch) = fixture.index.remove_document_by_key(&b"one".to_vec());
    fixture.store.write(batch);
    assert_eq!(removed, Some(DocId(SegmentId(0), 0)));

    assert!(!fixture.index.contains_document_key(&b"one".to_vec()));
    assert!(fixture.index.contains_document_key(&b"two".to_vec()));
    assert_eq!(search(&fixture, &term(fixture.title, "hello")), vec!["two"]);
    assert_eq!(search(&fixture, &term(fixture.title, "world")), Vec::<String>::new());
    assert_eq!(search(&fixture, &Query::all()), vec!["two"]);

    // Removing a key that names nothing writes nothing.
    let (removed, batch) = fixture.index.remove_document_by_key(&b"one".to_vec());
    assert_eq!(removed, None);
    assert_eq!(batch.len(), 0);

    // Once deleted, a document stays deleted whatever is written later.
    insert(&mut fixture, "three", &["hello"], &["lorem"], 3);
    let (_, batch) = fixture.index.remove_document_by_key(&b"three".to_vec());
    fixture.store.write(batch);
    assert_eq!(search(&fixture, &term(fixture.title, "hello")), vec!["two"]);
}

#[test]
fn merge_keeps_live_documents() {
    let mut fixture = fixture();
    insert(&mut fixture, "one", &["hello", "world"], &["lorem", "ipsum"], 1);
    insert(&mut fixture, "two", &["hello", "hello", "there"], &["lorem"], 2);
    insert(&mut fixture, "three", &["howdy"], &["dolar"], 3);
    let (_, batch) = fixture.index.remove_document_by_key(&b"two".to_vec());
    fixture.store.write(batch);

    let before_hello = search(&fixture, &term(fixture.title, "hello"));
    let before_all = search(&fixture, &Query::all());
    assert_eq!(before_hello, vec!["one"]);
    assert_eq!(before_all, vec!["one", "three"]);

    let sources = fixture.store.active_segments();
    assert_eq!(sources, vec![0, 1, 2]);
    let entries = fixture.store.entries();
    let (dest, batch) = fixture.index.merge_segments(&entries, &sources).unwrap();
    fixture.store.write(batch);
    assert_eq!(dest, SegmentId(3));
    assert_eq!(fixture.store.active_segments(), vec![3]);

    let entries = fixture.store.entries();
    let batch = purge_segments(&entries, &sources).unwrap();
    fixture.store.write(batch);

    // The keys of the merged segments are gone.
    for key in fixture.store.data.keys() {
        match Key::from_bytes(key).unwrap() {
            Key::TermDirectory { segment_id, .. } => assert_eq!(segment_id, dest),
            Key::DocumentFieldValue { doc_id, .. } => assert_eq!(doc_id.0, dest),
            Key::DeletedDocument { segment_id } => assert_eq!(segment_id, dest),
            Key::Statistic { segment_id, .. } => assert_eq!(segment_id, dest),
            Key::ActiveSegment { segment_id } => assert_eq!(segment_id, dest),
            _ => {}
        }
    }

    // A reader sees what it saw before.
    assert_eq!(search(&fixture, &term(fixture.title, "hello")), before_hello);
    assert_eq!(search(&fixture, &Query::all()), before_all);
    assert_eq!(search(&fixture, &term(fixture.title, "there")), Vec::<String>::new());
    assert_eq!(search(&fixture, &term(fixture.body, "dolar")), vec!["three"]);
    assert_eq!(read_pk(&fixture, "one"), Some(FieldValue::Integer(1)));
    assert_eq!(read_pk(&fixture, "three"), Some(FieldValue::Integer(3)));
    assert_eq!(read_pk(&fixture, "two"), None);
    assert_eq!(
        fixture.index.document_index.get(&b"one".to_vec()),
        Some(DocId(dest, 0))
    );
    assert_eq!(
        fixture.index.document_index.get(&b"three".to_vec()),
        Some(DocId(dest, 1))
    );

    // The statistics of the new segment are worked out anew.
    let entries = fixture.store.entries();
    let merged = MemorySegment::new(dest.0, &entries);
    assert_eq!(merged.total_docs(), 2);
    assert_eq!(merged.deleted().to_vec(), Vec::<u16>::new());
    let total_docs = kite::key::StatisticKey::TotalFieldDocs(fixture.title).to_bytes();
    assert_eq!(merged.load_statistic(&total_docs).unwrap(), Some(2));
    let total_tokens = kite::key::StatisticKey::TotalFieldTokens(fixture.title).to_bytes();
    assert_eq!(merged.load_statistic(&total_tokens).unwrap(), Some(3));

    // Segments that are live are not purged.
    let entries = fixture.store.entries();
    assert_eq!(
        purge_segments(&entries, &vec![dest.0]),
        Err(SegmentMergeError::SegmentActive(dest.0))
    );
}

#[test]
fn merge_refuses_unknown_and_repeated_segments() {
    let mut fixture = fixture();
    insert(&mut fixture, "one", &["hello"], &["lorem"], 1);
    let entries = fixture.store.entries();
    assert_eq!(
        fixture.index.merge_segments(&entries, &vec![0, 7]).err(),
        Some(SegmentMergeError::SegmentNotActive(7))
    );
    assert_eq!(
        fixture.index.merge_segments(&entries, &vec![0, 0]).err(),
        Some(SegmentMergeError::DuplicateSegment(0))
    );
    assert_eq!(fixture.index.next_segment_id, 1);
}

#[test]
fn segment_is_full_after_65536_documents() {
    let mut builder = SegmentBuilder::new();
    let doc = Document { key: "doc".to_string(), indexed_fields: vec![], stored_fields: vec![] };
    for expected in 0..65536u32 {
        assert_eq!(builder.add_document(&doc), Ok(expected as u16));
    }
    assert_eq!(
        builder.add_document(&doc),
        Err(kite::segment_builder::DocumentInsertError::SegmentFull)
    );
    assert_eq!(builder.documents(), 65536);
}

#[test]
fn one_document_per_segment_takes_65537_documents() {
    let (mut index, _) = Index::create();
    for n in 0..65537u32 {
        let doc = Document {
            key: n.to_string(),
            indexed_fields: vec![],
            stored_fields: vec![],
        };
        let batch = index.insert_or_update_document(&doc).unwrap();
        assert!(batch.len() >= 4);
    }
    assert_eq!(index.next_segment_id, 65537);
    assert!(index.contains_document_key(&b"65536".to_vec()));
}

#[test]
fn prefix_selects_terms() {
    let mut fixture = fixture();
    insert(&mut fixture, "a", &["hello"], &["lorem"], 1);
    insert(&mut fixture, "b", &["help"], &["lorem"], 2);
    insert(&mut fixture, "c", &["world"], &["lorem"], 3);
    insert(&mut fixture, "d", &["hel"], &["hello"], 4);
    let query = Query::MultiTerm {
        field: fixture.title,
        term_selector: MultiTermSelector::Prefix("hel".to_string()),
    };
    assert_eq!(search(&fixture, &query), vec!["a", "b", "d"]);
    let query = Query::MultiTerm {
        field: fixture.body,
        term_selector: MultiTermSelector::Prefix("hel".to_string()),
    };
    assert_eq!(search(&fixture, &query), vec!["d"]);
    assert!(MultiTermSelector::Prefix("hel".to_string()).matches(&Term::from_string("help")));
    assert!(!MultiTermSelector::Prefix("hel".to_string()).matches(&Term::from_string("he")));
    assert!(MultiTermSelector::Prefix("".to_string()).matches(&Term::from_string("")));
}

#[test]
fn queries_combine_matches() {
    let mut fixture = fixture();
    insert(&mut fixture, "a", &["red", "green"], &["x"], 1);
    insert(&mut fixture, "b", &["red", "blue"], &["y"], 2);
    insert(&mut fixture, "c", &["green", "blue"], &["x"], 3);
    let red = || term(fixture.title, "red");
    let green = || term(fixture.title, "green");
    let blue = || term(fixture.title, "blue");

    assert_eq!(search(&fixture, &Query::Nothing), Vec::<String>::new());
    assert_eq!(search(&fixture, &Query::all()), vec!["a", "b", "c"]);
    assert_eq!(search(&fixture, &term(fixture.title, "purple")), Vec::<String>::new());
    assert_eq!(search(&fixture, &term(fixture.body, "red")), Vec::<String>::new());
    assert_eq!(
        search(&fixture, &Query::Conjunction { queries: vec![red(), green()] }),
        vec!["a"]
    );
    assert_eq!(search(&fixture, &Query::Conjunction { queries: vec![] }), Vec::<String>::new());
    assert_eq!(
        search(&fixture, &Query::Disjunction { queries: vec![red(), green()] }),
        vec!["a", "b", "c"]
    );
    assert_eq!(
        search(&fixture, &Query::DisjunctionMax { queries: vec![green(), blue()] }),
        vec!["a", "b", "c"]
    );
    assert_eq!(search(&fixture, &Query::Disjunction { queries: vec![] }), Vec::<String>::new());
    assert_eq!(search(&fixture, &red().filter(term(fixture.body, "y"))), vec!["b"]);
    assert_eq!(search(&fixture, &red().exclude(blue())), vec!["a"]);
    assert_eq!(search(&fixture, &Query::all().exclude(red())), vec!["c"]);
}

#[test]
fn document_with_unknown_field_is_refused() {
    let mut fixture = fixture();
    let doc = Document {
        key: "doc".to_string(),
        indexed_fields: vec![(FieldId(9), vector(&["hello"]))],
        stored_fields: vec![],
    };
    assert_eq!(
        fixture.index.insert_or_update_document(&doc).err(),
        Some(DocumentInsertError::FieldDoesntExist(FieldId(9)))
    );
    let (deleted, batch) = fixture.index.delete_field(fixture.body);
    assert!(deleted);
    fixture.store.write(batch);
    let doc = Document {
        key: "doc".to_string(),
        indexed_fields: vec![(fixture.title, vector(&["hello"])), (fixture.body, vector(&["x"]))],
        stored_fields: vec![],
    };
    assert_eq!(
        fixture.index.insert_or_update_document(&doc).err(),
        Some(DocumentInsertError::FieldDoesntExist(fixture.body))
    );
    assert_eq!(fixture.index.next_segment_id, 0);
    assert!(fixture.store.active_segments().is_empty());
}

#[test]
fn index_is_loaded_from_its_store() {
    let mut fixture = fixture();
    insert(&mut fixture, "one", &["hello", "world"], &["lorem"], 1);
    insert(&mut fixture, "two", &["hello"], &["ipsum"], 2);

    let entries = fixture.store.entries();
    let keys: Vec<(Vec<u8>, Vec<u8>)> =
        entries.iter().filter(|(key, _)| key[0] == b'k').cloned().collect();
    let terms: Vec<(Vec<u8>, Vec<u8>)> =
        entries.iter().filter(|(key, _)| key[0] == b't').cloned().collect();
    let next_term = fixture.store.data.get(&Key::next_term_dictionary_id().to_bytes());
    let next_term = Index::read_counter(next_term.map(|bytes| bytes.as_slice())).unwrap();
    assert_eq!(next_term, 5);
    let dictionary = TermDictionary::open(next_term, &terms).unwrap();
    assert_eq!(dictionary.get(&Term::from_string("hello")), Some(kite::term::TermId(1)));
    assert_eq!(dictionary.get(&Term::from_string("ipsum")), Some(kite::term::TermId(4)));
    let document_index = DocumentIndexManager::open(&keys).unwrap();
    assert_eq!(document_index.get(&b"two".to_vec()), Some(DocId(SegmentId(1), 0)));
    let definitions: Vec<Vec<u8>> = entries
        .iter()
        .filter(|(key, _)| key[0] == b'f')
        .map(|(_, value)| value.clone())
        .collect();
    let schema = kite::schema::Schema::open(&definitions).unwrap();
    assert_eq!(schema.len(), fixture.index.schema.len());
    assert_eq!(schema.get_field_by_name("title"), Some(fixture.title));
    assert_eq!(schema.get_field_by_name("body"), Some(fixture.body));
    assert_eq!(
        schema.get(fixture.title).unwrap().flags(),
        fixture.index.schema.get(fixture.title).unwrap().flags()
    );
    let next_segment = fixture.store.data.get(&Key::next_segment_id().to_bytes());
    let index = Index::open(
        next_segment.map(|bytes| bytes.as_slice()),
        schema,
        dictionary,
        document_index,
    )
    .unwrap();
    assert_eq!(index.next_segment_id, 2);
    assert_eq!(index.schema.get_field_by_name("body"), Some(fixture.body));
    assert!(Index::open(Some(b"x"), kite::schema::Schema::new(), TermDictionary::new(1), DocumentIndexManager::new()).is_none());
    // A counter that is not stored is no counter.
    assert_eq!(Index::read_counter(None), None);
    assert_eq!(Index::read_counter(Some(b"17")), Some(17));
    assert!(Index::open(None, kite::schema::Schema::new(), TermDictionary::new(1), DocumentIndexManager::new()).is_none());
}

#[test]
fn term_frequencies_and_lengths_are_kept() {
    let mut fixture = fixture();
    insert(&mut fixture, "one", &["a", "b", "a", "c", "a"], &["lorem"], 1);
    let entries = fixture.store.entries();
    let segment = MemorySegment::new(0, &entries);
    let a = fixture.index.term_dictionary.get(&Term::from_string("a")).unwrap();
    let b = fixture.index.term_dictionary.get(&Term::from_string("b")).unwrap();
    let frequency = segment
        .load_stored_field_value_raw(0, fixture.title, &ValueKind::TermFrequency(a).to_bytes())
        .unwrap();
    assert_eq!(frequency, Some(vec![0, 0, 0, 0, 0, 0, 0, 3]));
    let frequency = segment
        .load_stored_field_value_raw(0, fixture.title, &ValueKind::TermFrequency(b).to_bytes())
        .unwrap();
    assert_eq!(frequency, None);
    // Five tokens: the root of five, less one, times three is 3.7.
    let length =
        segment.load_stored_field_value_raw(0, fixture.title, &ValueKind::Length.to_bytes()).unwrap();
    assert_eq!(length, Some(vec![4]));
    // One token squashes to zero, which is not written.
    let length =
        segment.load_stored_field_value_raw(0, fixture.body, &ValueKind::Length.to_bytes()).unwrap();
    assert_eq!(length, None);
    let tokens = kite::key::StatisticKey::TotalFieldTokens(fixture.title).to_bytes();
    assert_eq!(segment.load_statistic(&tokens).unwrap(), Some(5));
    let docs = kite::key::StatisticKey::TotalFieldDocs(fixture.title).to_bytes();
    assert_eq!(segment.load_statistic(&docs).unwrap(), Some(1));
    let frequency = kite::key::StatisticKey::TermDocFrequency(fixture.title, a).to_bytes();
    assert_eq!(segment.load_statistic(&frequency).unwrap(), Some(1));
    assert_eq!(segment.posting(fixture.title, a).to_vec(), vec![0u16]);
    assert_eq!(segment.id(), 0);
}

/// A segment that answers from a map and fails on request, as a segment over a
/// store of a caller's own would.
struct MapSegment {
    id: u32,
    data: BTreeMap<Vec<u8>, Vec<u8>>,
    broken: bool,
}

impl MapSegment {
    fn get(&self, key: &[u8]) -> Result<Option<Vec<u8>>, String> {
        if self.broken {
            Err("the store failed".to_string())
        } else {
            Ok(self.data.get(key).cloned())
        }
    }
}

impl Segment for MapSegment {
    fn load_statistic(&self, stat_name: &[u8]) -> Result<Option<i64>, String> {
        let mut key = Key::active_segment(SegmentId(self.id)).to_bytes();
        key[0] = kite::key::TAG_STATISTIC;
        key.extend_from_slice(stat_name);
        Ok(self.get(&key)?.and_then(|value| {
            if value.len() == 8 {
                let mut bytes = [0u8; 8];
                bytes.copy_from_slice(&value);
                Some(i64::from_be_bytes(bytes))
            } else {
                None
            }
        }))
    }

    fn load_stored_field_value_raw(
        &self,
        doc_ord: u16,
        field_id: FieldId,
        value_type: &[u8],
    ) -> Result<Option<Vec<u8>>, String> {
        let mut key =
            Key::document_field_value(DocId(SegmentId(self.id), doc_ord), field_id).to_bytes();
        key.truncate(9);
        key.extend_from_slice(value_type);
        self.get(&key)
    }

    fn load_term_directory(
        &self,
        field_id: FieldId,
        term_id: kite::term::TermId,
    ) -> Result<Option<kite::doc_id_set::DocIdSet>, String> {
        let key = Key::term_directory(field_id, term_id, SegmentId(self.id)).to_bytes();
        Ok(self.get(&key)?.and_then(|value| kite::doc_id_set::DocIdSet::deserialize(&value)))
    }

    fn load_deletion_list(&self) -> Result<Option<kite::doc_id_set::DocIdSet>, String> {
        let key = Key::deleted_document(DocId(SegmentId(self.id), 0)).to_bytes();
        Ok(self.get(&key)?.map(kite::doc_id_set::DocIdSet::from_bytes))
    }

    fn id(&self) -> u32 {
        self.id
    }
}

#[test]
fn search_runs_on_a_segment_of_the_callers() {
    let mut fixture = fixture();
    insert(&mut fixture, "one", &["hello", "world"], &["lorem"], 1);
    let (_, batch) = fixture.index.remove_document_by_key(&b"one".to_vec());
    let mut segment = MapSegment { id: 0, data: fixture.store.data.clone(), broken: false };
    let query = term(fixture.title, "hello");
    let hits = search_segment(&segment, &query, &fixture.index.term_dictionary).unwrap();
    assert_eq!(hits.to_vec(), vec![0u16]);
    assert_eq!(segment.doc_id(7), DocId(SegmentId(0), 7));

    fixture.store.write(batch);
    segment.data = fixture.store.data.clone();
    let hits = search_segment(&segment, &query, &fixture.index.term_dictionary).unwrap();
    assert_eq!(hits.to_vec(), Vec::<u16>::new());

    segment.broken = true;
    assert_eq!(
        search_segment(&segment, &query, &fixture.index.term_dictionary).err(),
        Some("the store failed".to_string())
    );
    assert!(get_segment_statistics(&vec![segment]).is_err());
}

#[test]
fn fields_are_stored_with_the_index() {
    let mut fixture = fixture();
    let key = |field: FieldId| Key::field_definition(field).to_bytes();
    assert_eq!(key(fixture.title), vec![b'f', 0, 1]);
    assert_eq!(
        fixture.store.data.get(&key(fixture.title)),
        Some(&vec![0, 1, b't', b'i', b't', b'l', b'e'])
    );
    assert_eq!(fixture.store.data.get(&key(fixture.pk)), Some(&vec![2, 2, b'p', b'k']));
    assert_eq!(
        fixture.store.data.get(&Key::next_field_id().to_bytes()),
        Some(&b"4".to_vec())
    );

    // A name that is taken: nothing is written.
    let taken = fixture.index.add_field("title".to_string(), FieldDataType::Text, flags(true, false));
    assert!(taken.is_err());

    // A deleted field stays in the store, with the flag.
    let (deleted, batch) = fixture.index.delete_field(fixture.title);
    assert!(deleted);
    assert_eq!(batch.len(), 1);
    fixture.store.write(batch);
    assert_eq!(
        fixture.store.data.get(&key(fixture.title)),
        Some(&vec![0, 9, b't', b'i', b't', b'l', b'e'])
    );
    let (deleted, batch) = fixture.index.delete_field(fixture.title);
    assert!(!deleted);
    assert_eq!(batch.len(), 0);
    let (deleted, batch) = fixture.index.delete_field(FieldId(40));
    assert!(!deleted);
    assert_eq!(batch.len(), 0);

    // The name is free again, and the schema that is read back knows both.
    let (again, batch) =
        fixture.index.add_field("title".to_string(), FieldDataType::PlainString, flags(true, true)).unwrap();
    fixture.store.write(batch);
    assert_eq!(again, FieldId(4));
    let definitions: Vec<Vec<u8>> = fixture
        .store
        .entries()
        .into_iter()
        .filter(|(key, _)| key[0] == b'f')
        .map(|(_, value)| value)
        .collect();
    let schema = kite::schema::Schema::open(&definitions).unwrap();
    assert_eq!(schema.len(), 4);
    assert_eq!(schema.get_field_by_name("title"), Some(FieldId(4)));
    assert!(schema.get(FieldId(1)).unwrap().flags().deleted);
    assert_eq!(schema.get(FieldId(4)).unwrap().data_type(), FieldDataType::PlainString);
}

#[test]
fn merge_needs_an_id_for_the_new_segment() {
    let mut fixture = fixture();
    insert(&mut fixture, "one", &["hello"], &["lorem"], 1);
    let entries = fixture.store.entries();
    fixture.index.next_segment_id = u32::MAX;
    assert_eq!(
        fixture.index.merge_segments(&entries, &vec![0]).err(),
        Some(SegmentMergeError::IdsExhausted)
    );
    assert_eq!(fixture.index.next_segment_id, u32::MAX);
    assert!(fixture.index.contains_document_key(&b"one".to_vec()));

    fixture.index.next_segment_id = 1;
    let (dest, batch) = fixture.index.merge_segments(&entries, &vec![0]).unwrap();
    assert_eq!(dest, SegmentId(1));
    assert!(batch.len() > 0);
    assert_eq!(fixture.index.next_segment_id, 2);
}

#[test]
fn a_failed_write_leaves_the_index_as_it_was() {
    let mut fixture = fixture();
    insert(&mut fixture, "one", &["hello"], &["lorem"], 1);
    let doc = Document {
        key: "one".to_string(),
        indexed_fields: vec![(fixture.title, vector(&["fresh", "words"]))],
        stored_fields: vec![(fixture.pk, FieldValue::Integer(2))],
    };
    let terms = fixture.index.term_dictionary.len();

    // The change is worked out and its write fails: nothing has changed.
    let (batch, next) = fixture.index.prepare_insert(&doc).unwrap();
    assert!(batch.len() > 0);
    drop(next);
    assert_eq!(fixture.index.next_segment_id, 1);
    assert_eq!(fixture.index.term_dictionary.len(), terms);
    assert_eq!(fixture.index.term_dictionary.get(&Term::from_string("fresh")), None);
    assert_eq!(
        fixture.index.document_index.get(&b"one".to_vec()),
        Some(DocId(SegmentId(0), 0))
    );
    assert_eq!(search(&fixture, &term(fixture.title, "hello")), vec!["one"]);

    // Worked out again and written: the same batch, and the index follows.
    let (again, next) = fixture.index.prepare_insert(&doc).unwrap();
    assert_eq!(again.ops, batch.ops);
    fixture.store.write(again);
    fixture.index.commit(next);
    assert_eq!(fixture.index.next_segment_id, 2);
    assert_eq!(fixture.index.term_dictionary.len(), terms + 2);
    assert_eq!(search(&fixture, &term(fixture.title, "hello")), Vec::<String>::new());
    assert_eq!(search(&fixture, &term(fixture.title, "fresh")), vec!["one"]);
    assert_eq!(read_pk(&fixture, "one"), Some(FieldValue::Integer(2)));

    // A document that is refused is refused before anything is worked out.
    let unknown = Document {
        key: "two".to_string(),
        indexed_fields: vec![(FieldId(9), vector(&["x"]))],
        stored_fields: vec![],
    };
    assert_eq!(
        fixture.index.prepare_insert(&unknown).err(),
        Some(DocumentInsertError::FieldDoesntExist(FieldId(9)))
    );
}

#[test]
fn merges_and_removals_are_worked_out_first() {
    let mut fixture = fixture();
    insert(&mut fixture, "one", &["hello"], &["lorem"], 1);
    insert(&mut fixture, "two", &["hello"], &["ipsum"], 2);
    let entries = fixture.store.entries();

    let (dest, batch, next) = fixture.index.prepare_merge(&entries, &vec![0, 1]).unwrap();
    assert_eq!(dest, SegmentId(2));
    assert_eq!(fixture.index.next_segment_id, 2);
    assert_eq!(fixture.index.document_index.get(&b"two".to_vec()), Some(DocId(SegmentId(1), 0)));
    assert_eq!(next.document_index.get(&b"two".to_vec()), Some(DocId(SegmentId(2), 1)));
    assert_eq!(
        fixture.index.prepare_merge(&entries, &vec![0, 0]).err(),
        Some(SegmentMergeError::DuplicateSegment(0))
    );
    fixture.store.write(batch);
    fixture.index.commit(next);
    assert_eq!(fixture.index.next_segment_id, 3);
    assert_eq!(fixture.store.active_segments(), vec![2]);
    assert_eq!(search(&fixture, &term(fixture.title, "hello")), vec!["one", "two"]);

    let (removed, batch, next) = fixture.index.prepare_remove(&b"one".to_vec());
    assert_eq!(removed, Some(DocId(SegmentId(2), 0)));
    assert!(fixture.index.contains_document_key(&b"one".to_vec()));
    fixture.store.write(batch);
    fixture.index.commit(next);
    assert!(!fixture.index.contains_document_key(&b"one".to_vec()));
    assert_eq!(search(&fixture, &term(fixture.title, "hello")), vec!["two"]);

    let (field, batch, next) = fixture
        .index
        .prepare_add_field("tags".to_string(), FieldDataType::PlainString, flags(true, true))
        .unwrap();
    assert_eq!(field, FieldId(4));
    assert_eq!(batch.len(), 2);
    assert_eq!(fixture.index.schema.len(), 3);
    fixture.index.commit(next);
    assert_eq!(fixture.index.schema.get_field_by_name("tags"), Some(FieldId(4)));
    let (deleted, batch, next) = fixture.index.prepare_delete_field(field);
    assert!(deleted);
    assert_eq!(batch.len(), 1);
    assert_eq!(fixture.index.schema.get_field_by_name("tags"), Some(FieldId(4)));
    fixture.index.commit(next);
    assert_eq!(fixture.index.schema.get_field_by_name("tags"), None);
}

#[test]
fn segment_keys_are_built_by_the_library() {
    assert_eq!(
        kite::segment::statistic_key_bytes(258, b"total_docs"),
        [&[b's', 0, 0, 1, 2][..], &b"total_docs"[..]].concat()
    );
    assert_eq!(
        kite::segment::stored_value_key_bytes(258, 3, FieldId(4), b"val"),
        [&[b'v', 0, 0, 1, 2, 0, 3, 0, 4][..], &b"val"[..]].concat()
    );
    assert_eq!(kite::segment::read_counter(Some(&[0, 0, 0, 0, 0, 0, 1, 2])), Some(258));
    assert_eq!(kite::segment::read_counter(Some(&[255; 8])), Some(-1));
    assert_eq!(kite::segment::read_counter(Some(&[1, 2])), None);
    assert_eq!(kite::segment::read_counter(None), None);
}

#[test]
fn all_segments_are_searched_once() {
    let mut fixture = fixture();
    insert(&mut fixture, "one", &["hello", "help", "hello"], &["lorem"], 1);
    insert(&mut fixture, "two", &["world"], &["lorem"], 2);
    insert(&mut fixture, "three", &["help"], &["ipsum"], 3);
    let entries = fixture.store.entries();
    let segments: Vec<MemorySegment> =
        fixture.store.active_segments().iter().map(|id| MemorySegment::new(*id, &entries)).collect();
    let dictionary = &fixture.index.term_dictionary;

    let query = Query::MultiTerm {
        field: fixture.title,
        term_selector: MultiTermSelector::Prefix("hel".to_string()),
    };
    let found = search_all(&segments, &query, dictionary).unwrap();
    let ids: Vec<u32> = found.iter().map(|(id, _)| *id).collect();
    assert_eq!(ids, vec![0, 1, 2]);
    assert_eq!(found[0].1.to_vec(), vec![0u16]);
    assert_eq!(found[1].1.to_vec(), Vec::<u16>::new());
    assert_eq!(found[2].1.to_vec(), vec![0u16]);

    // A segment that is given twice is not searched twice.
    let twice =
        vec![MemorySegment::new(1, &entries), MemorySegment::new(0, &entries), MemorySegment::new(1, &entries)];
    assert_eq!(search_all(&twice, &query, dictionary).err(), Some(SearchError::SegmentTwice(1)));

    // What is read to score the first document.
    let hello = dictionary.get(&Term::from_string("hello")).unwrap();
    let help = dictionary.get(&Term::from_string("help")).unwrap();
    let selector = MultiTermSelector::Prefix("hel".to_string());
    assert_eq!(
        selected_terms_of(&segments[0], dictionary, fixture.title, &selector, 0).unwrap(),
        vec![hello, help]
    );
    assert_eq!(
        selected_terms_of(&segments[2], dictionary, fixture.title, &selector, 0).unwrap(),
        vec![help]
    );
    assert_eq!(
        selected_terms_of(&segments[1], dictionary, fixture.title, &selector, 0).unwrap(),
        vec![]
    );
    assert_eq!(load_term_frequency(&segments[0], 0, fixture.title, hello).unwrap(), 2);
    assert_eq!(load_term_frequency(&segments[0], 0, fixture.title, help).unwrap(), 1);
    assert_eq!(load_count(&segments[0], &StatisticKey::TotalDocs).unwrap(), 1);
    assert_eq!(load_count(&segments[0], &StatisticKey::TotalFieldTokens(fixture.title)).unwrap(), 3);
    assert_eq!(load_count(&segments[0], &StatisticKey::DeletedDocs).unwrap(), 0);
    assert_eq!(load_count(&segments[0], &StatisticKey::TermDocFrequency(fixture.title, hello)).unwrap(), 1);
}

#[test]
fn counts_of_segments_stay_in_bounds() {
    let mut fixture = fixture();
    insert(&mut fixture, "one", &["hello"], &["lorem"], 1);
    insert(&mut fixture, "two", &["hello"], &["ipsum"], 2);
    insert(&mut fixture, "one", &["again"], &["lorem"], 3);
    let (_, batch) = fixture.index.remove_document_by_key(&b"two".to_vec());
    fixture.store.write(batch);
    insert(&mut fixture, "three", &["hello"], &["ipsum"], 4);

    let check = |fixture: &Fixture, ids: &[u32], expected: &[(i64, i64)]| {
        let entries = fixture.store.entries();
        let segments: Vec<MemorySegment> =
            ids.iter().map(|id| MemorySegment::new(*id, &entries)).collect();
        let statistics = get_segment_statistics(&segments).unwrap();
        for ((id, counts), (total, deleted)) in statistics.iter().zip(expected.iter()) {
            assert!(0 <= counts.deleted_docs(), "segment {}", id);
            assert!(counts.deleted_docs() <= counts.total_docs(), "segment {}", id);
            assert!(counts.total_docs() <= 65536, "segment {}", id);
            assert_eq!((counts.total_docs(), counts.deleted_docs()), (*total, *deleted));
        }
    };
    // The first two documents are deleted, each once.
    check(&fixture, &[0, 1, 2, 3], &[(1, 1), (1, 1), (1, 0), (1, 0)]);

    let entries = fixture.store.entries();
    let (dest, batch) = fixture.index.merge_segments(&entries, &vec![2, 3]).unwrap();
    fixture.store.write(batch);
    assert_eq!(dest, SegmentId(4));
    check(&fixture, &[2, 3, 4], &[(1, 0), (1, 0), (2, 0)]);
    let (_, batch) = fixture.index.remove_document_by_key(&b"three".to_vec());
    fixture.store.write(batch);
    check(&fixture, &[4], &[(2, 1)]);
    let entries = fixture.store.entries();
    let batch = purge_segments(&entries, &vec![0, 1, 2, 3]).unwrap_err();
    assert_eq!(batch, SegmentMergeError::SegmentActive(0));
    let batch = purge_segments(&entries, &vec![2, 3]).unwrap();
    fixture.store.write(batch);
    // Nothing is counted of a segment whose entries are removed.
    check(&fixture, &[2, 3, 4], &[(0, 0), (0, 0), (2, 1)]);
    assert_eq!(search(&fixture, &Query::all()), vec!["one"]);
}

/// Loads an index from a store, as it is opened from disk.
fn open_from(store: &Store) -> Option<Index> {
    let entries = store.entries();
    let of_family = |tag: u8| -> Vec<(Vec<u8>, Vec<u8>)> {
        entries.iter().filter(|(key, _)| key[0] == tag).cloned().collect()
    };
    let definitions: Vec<Vec<u8>> = of_family(b'f').into_iter().map(|(_, value)| value).collect();
    let schema = kite::schema::Schema::open(&definitions)?;
    let next_term = store.data.get(&Key::next_term_dictionary_id().to_bytes());
    let next_term = Index::read_counter(next_term.map(|bytes| bytes.as_slice()))?;
    let dictionary = TermDictionary::open(next_term, &of_family(b't'))?;
    let document_index = DocumentIndexManager::open(&of_family(b'k'))?;
    let next_segment = store.data.get(&Key::next_segment_id().to_bytes());
    Index::open(next_segment.map(|bytes| bytes.as_slice()), schema, dictionary, document_index)
}

#[test]
fn test_create() {
    let mut store = Store::new();
    let (index, batch) = Index::create();
    assert_eq!(batch.len(), 3);
    store.write(batch);
    assert_eq!(store.data.get(&b".next_field_id".to_vec()), Some(&b"1".to_vec()));
    assert_eq!(store.data.get(&b".next_segment_id".to_vec()), Some(&b"0".to_vec()));
    assert_eq!(store.data.get(&b".next_term_dictionary_id".to_vec()), Some(&b"1".to_vec()));
    assert_eq!(index.next_segment_id, 0);
    assert_eq!(index.schema.len(), 0);
}

#[test]
fn test_open() {
    // A store that was not created is not opened.
    let mut store = Store::new();
    assert!(open_from(&store).is_none());

    let (_, batch) = Index::create();
    store.write(batch);

    let index = open_from(&store);
    assert!(index.is_some());
    let index = index.unwrap();
    assert_eq!(index.next_segment_id, 0);
    assert_eq!(index.term_dictionary.len(), 0);
}

#[test]
fn test() {
    let mut fixture = fixture();
    insert(&mut fixture, "test_doc", &["hello", "world"], &["lorem", "ipsum", "dolar"], 1);
    insert(&mut fixture, "another_test_doc", &["howdy", "partner"], &["lorem", "ipsum", "dolar"], 2);
    // The two segments of the two documents.
    let sources = fixture.store.active_segments();
    assert_eq!(sources, vec![0, 1]);
    let entries = fixture.store.entries();
    let (_, batch) = fixture.index.merge_segments(&entries, &sources).unwrap();
    fixture.store.write(batch);
    let entries = fixture.store.entries();
    fixture.store.write(purge_segments(&entries, &sources).unwrap());

    let index = open_from(&fixture.store).unwrap();
    let title = index.schema.get_field_by_name("title").unwrap();
    let query = Query::Disjunction {
        queries: vec![
            Query::term(title, Term::from_string("howdy")),
            Query::term(title, Term::from_string("partner")),
            Query::term(title, Term::from_string("hello")),
        ],
    };
    let entries = fixture.store.entries();
    let segments: Vec<MemorySegment> =
        fixture.store.active_segments().iter().map(|id| MemorySegment::new(*id, &entries)).collect();
    let found = search_all(&segments, &query, &index.term_dictionary).unwrap();
    let scores: Vec<Vec<u32>> = found.iter().map(|(_, hits)| vec![1; hits.len()]).collect();
    let mut collector = TopScoreCollector::new(10);
    assert!(collector.collect_all(&found, &scores));
    let docs = collector.into_sorted_vec();
    assert_eq!(docs.len(), 2);
    assert_eq!(docs[0].doc_id, DocId(SegmentId(2), 0));
    assert_eq!(docs[1].doc_id, DocId(SegmentId(2), 1));
}
