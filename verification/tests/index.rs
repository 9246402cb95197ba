use meilidb_data::apply::Indexed;
use meilidb_data::docindex::DocIndex;
use meilidb_data::events::{event_is_set, Event, WaitAction, Waiting};
use meilidb_data::index::{all_attributes, resolve_fields, Index, Stored};
use meilidb_data::names::tree_names;
use meilidb_data::schema::{resolve_schema, IndexError, Schema, SchemaProps};
use meilidb_data::update::{DetailedDuration, Update, UpdateType};

const STORED: SchemaProps = SchemaProps { stored: true, indexed: true, ranked: false };
const RANKED: SchemaProps = SchemaProps { stored: true, indexed: false, ranked: true };

fn schema() -> Schema {
    let mut s = Schema::new("id".to_string());
    assert_eq!(s.add_attribute("id".to_string(), STORED), Some(0));
    assert_eq!(s.add_attribute("title".to_string(), STORED), Some(1));
    assert_eq!(s.add_attribute("rank".to_string(), RANKED), Some(2));
    s
}

fn other_schema() -> Schema {
    let mut s = Schema::new("id".to_string());
    s.add_attribute("id".to_string(), STORED);
    s.add_attribute("body".to_string(), STORED);
    s
}

fn nothing() -> Indexed {
    Indexed { occurrences: vec![], fields: vec![], ranked: vec![] }
}

fn empty() -> Stored {
    Stored {
        schema: None,
        indexed: nothing(),
        synonyms: vec![],
        custom: vec![],
        updates: vec![],
        results: vec![],
    }
}

fn fresh() -> Index {
    match Index::with_schema(empty(), schema()) {
        Ok(index) => index,
        Err(e) => panic!("a fresh index opens: {:?}", e),
    }
}

fn occurrence(term: &str, document_id: u64, word_index: u16) -> (Vec<u8>, DocIndex) {
    (
        term.as_bytes().to_vec(),
        DocIndex {
            document_id,
            attribute: 1,
            word_index,
            char_index: word_index * 6,
            char_length: term.len() as u16,
        },
    )
}

/// What indexing makes of the document `{id: 1, title: "hello world"}`.
fn hello_world() -> Indexed {
    Indexed {
        occurrences: vec![occurrence("hello", 1, 0), occurrence("world", 1, 1)],
        fields: vec![(1, 0, b"1".to_vec()), (1, 1, b"hello world".to_vec())],
        ranked: vec![(1, 2, 7)],
    }
}

const TOOK: DetailedDuration = DetailedDuration { main: 1500 };

/// Applies the next update as the worker does, and hands back its id.
fn work(index: &mut Index, indexed: Result<Indexed, String>) -> u64 {
    let id = index.apply_next(indexed).expect("an update is queued");
    let status = index.complete(TOOK).expect("an update is in transaction");
    assert_eq!(status.update_id, id);
    assert_eq!(status.detailed_duration, TOOK);
    id
}

fn add_hello_world(index: &mut Index) -> u64 {
    let mut addition = index.documents_addition();
    addition.update_document(b"{id: 1, title: hello world}".to_vec());
    let id = addition.finalize(index).expect("the update is queued");
    assert_eq!(work(index, Ok(hello_world())), id);
    id
}

fn terms(set: &fst::Set) -> Vec<Vec<u8>> {
    set.stream().into_bytes()
}

#[test]
fn scenario_documents_addition() {
    let mut index = fresh();
    let id = add_hello_world(&mut index);
    let status = index.update_status(id).unwrap().expect("the status is recorded");
    assert_eq!(status.update_id, id);
    assert_eq!(status.update_type, UpdateType::DocumentsAddition { number: 1 });
    assert_eq!(status.result, Ok(()));
    let stats = index.stats();
    assert_eq!(stats.number_of_documents, 1);
    assert_eq!(stats.number_of_words, 2);
    assert_eq!(stats.number_attrs_in_ranked_map, 1);
    let reader = index.as_ref();
    assert!(reader.words().contains("hello"));
    assert!(reader.words().contains("world"));
    assert_eq!(terms(reader.words()), vec![b"hello".to_vec(), b"world".to_vec()]);
    assert!(reader.has_word(b"hello"));
    assert!(!reader.has_word(b"hell"));
    let postings = reader.word_indexes(b"hello").expect("hello has postings");
    assert_eq!(postings.len(), 1);
    assert_eq!(postings[0].document_id, 1);
    assert_eq!(reader.word_indexes(b"other"), None);
    assert_eq!(
        reader.words_index().doc_words_of(1),
        Some(&vec![b"hello".to_vec(), b"world".to_vec()])
    );
    assert_eq!(reader.documents_index().get_field(1, 1), Some(&b"hello world".to_vec()));
    assert_eq!(reader.ranked_map().get(1, 2), Some(7));
}

#[test]
fn scenario_documents_deletion() {
    let mut index = fresh();
    add_hello_world(&mut index);
    let mut deletion = index.documents_deletion();
    deletion.delete_document_by_id(1);
    let id = deletion.finalize(&mut index).unwrap();
    assert_eq!(work(&mut index, Ok(nothing())), id);
    let status = index.update_status(id).unwrap().unwrap();
    assert_eq!(status.update_type, UpdateType::DocumentsDeletion { number: 1 });
    assert_eq!(status.result, Ok(()));
    let stats = index.stats();
    assert_eq!(stats.number_of_documents, 0);
    assert_eq!(stats.number_of_words, 0);
    assert_eq!(stats.number_attrs_in_ranked_map, 0);
    let reader = index.as_ref();
    assert!(reader.words().is_empty());
    assert_eq!(reader.words_index().doc_words_of(1), None);
    assert_eq!(reader.word_indexes(b"hello"), None);
    assert_eq!(reader.documents_index().get_field(1, 1), None);
}

#[test]
fn scenario_synonyms() {
    let mut index = fresh();
    let mut addition = index.synonyms_addition();
    addition.add_synonym(b"car".to_vec(), vec![b"auto".to_vec(), b"vehicle".to_vec()]);
    let id = addition.finalize(&mut index).unwrap();
    assert_eq!(work(&mut index, Ok(nothing())), id);
    assert_eq!(
        index.update_status(id).unwrap().unwrap().update_type,
        UpdateType::SynonymsAddition { number: 1 }
    );
    {
        let reader = index.as_ref();
        assert!(reader.synonyms().contains("car"));
        let alternatives = reader.alternatives_to(b"car").expect("car has alternatives");
        assert!(alternatives.contains("auto"));
        assert!(alternatives.contains("vehicle"));
        assert_eq!(alternatives.len(), 2);
        assert!(reader.alternatives_to(b"bike").is_none());
    }
    let mut deletion = index.synonyms_deletion();
    deletion.delete_all_alternatives_of(b"car".to_vec());
    let id = deletion.finalize(&mut index).unwrap();
    assert_eq!(work(&mut index, Ok(nothing())), id);
    assert_eq!(
        index.update_status(id).unwrap().unwrap().update_type,
        UpdateType::SynonymsDeletion { number: 1 }
    );
    let reader = index.as_ref();
    assert!(reader.synonyms().is_empty());
    assert!(reader.alternatives_to(b"car").is_none());
}

#[test]
fn specific_alternatives_are_removed() {
    let mut index = fresh();
    let mut addition = index.synonyms_addition();
    addition.add_synonym(b"car".to_vec(), vec![b"auto".to_vec(), b"vehicle".to_vec()]);
    addition.add_synonym(b"bike".to_vec(), vec![b"cycle".to_vec()]);
    addition.finalize(&mut index).unwrap();
    work(&mut index, Ok(nothing()));
    let mut deletion = index.synonyms_deletion();
    deletion.delete_specific_alternatives_of(b"car".to_vec(), vec![b"auto".to_vec()]);
    deletion.delete_specific_alternatives_of(b"bike".to_vec(), vec![b"cycle".to_vec()]);
    deletion.finalize(&mut index).unwrap();
    work(&mut index, Ok(nothing()));
    let reader = index.as_ref();
    assert_eq!(terms(reader.synonyms()), vec![b"car".to_vec()]);
    assert_eq!(
        reader.synonyms_index().alternatives_to(b"car"),
        Some(&vec![b"vehicle".to_vec()])
    );
    assert!(reader.alternatives_to(b"bike").is_none());
}

#[test]
fn scenario_updates_complete_in_order() {
    let mut index = fresh();
    let mut ids = vec![];
    for _ in 0..3 {
        let mut addition = index.documents_addition();
        addition.update_document(b"a document".to_vec());
        ids.push(addition.finalize(&mut index).unwrap());
    }
    assert!(ids[0] < ids[1] && ids[1] < ids[2]);
    for id in &ids {
        assert!(index.update_status(*id).unwrap().is_none());
    }
    assert_eq!(index.next_update().map(|(id, _)| id), Some(ids[0]));
    assert_eq!(work(&mut index, Ok(hello_world())), ids[0]);
    assert_eq!(work(&mut index, Ok(nothing())), ids[1]);
    assert_eq!(work(&mut index, Ok(nothing())), ids[2]);
    for id in &ids {
        let status = index.update_status(*id).unwrap().expect("the status is recorded");
        assert_eq!(status.update_id, *id);
        assert_eq!(status.result, Ok(()));
    }
    assert!(index.next_update().is_none());
    assert_eq!(index.apply_next(Ok(nothing())), None);
    assert!(index.complete(TOOK).is_none());
}

#[test]
fn scenario_statuses_match_what_is_recorded() {
    let mut index = fresh();
    let first = index.push_documents_deletion(vec![4, 5]).unwrap();
    let second = index.push_synonyms_addition(vec![]).unwrap();
    let mut seen = vec![];
    while let Some(id) = index.apply_next(Ok(nothing())) {
        let status = index.complete(TOOK).unwrap();
        assert_eq!(status.update_id, id);
        seen.push(status);
    }
    assert_eq!(seen.len(), 2);
    assert_eq!(seen[0].update_id, first);
    assert_eq!(seen[1].update_id, second);
    assert_eq!(seen[0].update_type, UpdateType::DocumentsDeletion { number: 2 });
    assert_eq!(seen[1].update_type, UpdateType::SynonymsAddition { number: 0 });
    for status in seen {
        let recorded = index.update_status(status.update_id).unwrap().unwrap();
        assert_eq!(recorded.update_id, status.update_id);
        assert_eq!(recorded.update_type, status.update_type);
        assert_eq!(recorded.result, status.result);
        assert_eq!(recorded.detailed_duration, status.detailed_duration);
    }
}

#[test]
fn scenario_schema_never_changes() {
    let mut stored = empty();
    stored.schema = Some(schema());
    assert_eq!(
        Index::with_schema(stored, other_schema()).err(),
        Some(IndexError::SchemaDiffer)
    );
    let mut stored = empty();
    stored.schema = Some(schema());
    let index = Index::new(stored).expect("an index with a schema opens without one");
    assert!(index.schema().same_as(&schema()));
    let mut stored = empty();
    stored.schema = Some(schema());
    let index = Index::with_schema(stored, schema()).expect("the same schema is accepted");
    assert!(index.schema().same_as(&schema()));
    assert_eq!(Index::new(empty()).err(), Some(IndexError::SchemaMissing));
    let index = fresh();
    assert!(index.schema().same_as(&schema()));
}

#[test]
fn resolve_schema_settles_the_schema() {
    let (s, write) = resolve_schema(Some(schema()), None).unwrap();
    assert!(s.same_as(&schema()) && write);
    let (s, write) = resolve_schema(None, Some(schema())).unwrap();
    assert!(s.same_as(&schema()) && !write);
    let (s, write) = resolve_schema(Some(schema()), Some(schema())).unwrap();
    assert!(s.same_as(&schema()) && !write);
    assert_eq!(resolve_schema(Some(schema()), Some(other_schema())).err(), Some(IndexError::SchemaDiffer));
    assert_eq!(resolve_schema(None, None).err(), Some(IndexError::SchemaMissing));
}

#[test]
fn schema_names_its_attributes() {
    let s = schema();
    assert_eq!(s.len(), 3);
    assert_eq!(s.identifier(), "id");
    assert_eq!(s.attribute(&"id".to_string()), Some(0));
    assert_eq!(s.attribute(&"rank".to_string()), Some(2));
    assert_eq!(s.attribute(&"body".to_string()), None);
    assert_eq!(s.props(2), Some(RANKED));
    assert_eq!(s.props(3), None);
    assert!(s.clone().same_as(&s));
    assert!(!s.same_as(&other_schema()));
    let mut renamed = Schema::new("key".to_string());
    renamed.add_attribute("id".to_string(), STORED);
    renamed.add_attribute("title".to_string(), STORED);
    renamed.add_attribute("rank".to_string(), RANKED);
    assert!(!s.same_as(&renamed));
    let mut twice = Schema::new("id".to_string());
    twice.add_attribute("a".to_string(), STORED);
    twice.add_attribute("a".to_string(), RANKED);
    assert_eq!(twice.attribute(&"a".to_string()), Some(0));
    assert_eq!(all_attributes(&s), vec![0, 1, 2]);
    assert_eq!(resolve_fields(&s, &vec!["rank".to_string(), "id".to_string()]), vec![2, 0]);
    // a name that the schema lacks is passed over
    assert_eq!(resolve_fields(&s, &vec!["rank".to_string(), "body".to_string()]), vec![2]);
    assert_eq!(resolve_fields(&s, &vec!["body".to_string()]), Vec::<u16>::new());
    // a name that is asked for twice counts once
    assert_eq!(
        resolve_fields(&s, &vec!["id".to_string(), "rank".to_string(), "id".to_string()]),
        vec![0, 2]
    );
    assert_eq!(resolve_fields(&s, &vec![]), Vec::<u16>::new());
}

#[test]
fn successive_enqueues_get_increasing_ids() {
    let mut index = fresh();
    let mut last = None;
    for n in 0..20u64 {
        let id = if n % 2 == 0 {
            index.push_documents_deletion(vec![n]).unwrap()
        } else {
            index.raw_push_update(vec![n as u8]).unwrap()
        };
        if let Some(previous) = last {
            assert!(previous < id);
        }
        last = Some(id);
        if n % 3 == 0 {
            work(&mut index, Ok(nothing()));
        }
    }
}

#[test]
fn an_id_is_queued_or_recorded_never_both() {
    let mut index = fresh();
    let ids: Vec<u64> = (0..4).map(|n| index.push_documents_deletion(vec![n]).unwrap()).collect();
    // an id is queued where the worker has not reached it and no result is recorded
    let queued = |index: &Index, id: u64| {
        let reached = index.next_update().map_or(false, |(next, _)| next <= id);
        reached && index.update_status(id).unwrap().is_none()
    };
    for (n, id) in ids.iter().enumerate() {
        for (m, other) in ids.iter().enumerate() {
            let recorded = index.update_status(*other).unwrap().is_some();
            assert_eq!(recorded, m < n);
            assert_eq!(queued(&index, *other), m >= n);
        }
        assert_eq!(index.apply_next(Ok(nothing())), Some(*id));
        // in transaction the update is in neither tree
        assert!(index.update_status(*id).unwrap().is_none());
        assert_ne!(index.next_update().map(|(next, _)| next), Some(*id));
        index.complete(TOOK);
        assert!(index.update_status(*id).unwrap().is_some());
    }
    assert!(index.next_update().is_none());
}

#[test]
fn a_payload_that_is_no_update_fails_and_is_consumed() {
    let mut index = fresh();
    let bad = index.raw_push_update(vec![1, 2, 3]).unwrap();
    let good = index.push_documents_deletion(vec![]).unwrap();
    match index.next_update() {
        Some((id, None)) => assert_eq!(id, bad),
        _ => panic!("the payload is no update"),
    }
    assert_eq!(work(&mut index, Ok(hello_world())), bad);
    let status = index.update_status(bad).unwrap().unwrap();
    assert_eq!(status.update_type, UpdateType::Malformed { number: 0 });
    assert_eq!(status.result, Err("malformed update".to_string()));
    assert_eq!(index.stats().number_of_words, 0);
    match index.next_update() {
        Some((id, Some(Update::DocumentsDeletion(ids)))) => {
            assert_eq!(id, good);
            assert!(ids.is_empty());
        },
        _ => panic!("the deletion is next"),
    }
    assert_eq!(work(&mut index, Ok(nothing())), good);
    assert_eq!(index.update_status(good).unwrap().unwrap().result, Ok(()));
}

#[test]
fn a_failed_indexing_is_recorded_and_changes_nothing() {
    let mut index = fresh();
    add_hello_world(&mut index);
    let id = index.push_documents_addition(vec![b"no id".to_vec(), b"none".to_vec()]).unwrap();
    assert_eq!(work(&mut index, Err("missing document id".to_string())), id);
    let status = index.update_status(id).unwrap().unwrap();
    assert_eq!(status.update_type, UpdateType::DocumentsAddition { number: 2 });
    assert_eq!(status.result, Err("missing document id".to_string()));
    let stats = index.stats();
    assert_eq!(stats.number_of_documents, 1);
    assert_eq!(stats.number_of_words, 2);
    // the next update is applied all the same
    let next = index.push_documents_deletion(vec![1]).unwrap();
    assert_eq!(work(&mut index, Ok(nothing())), next);
    assert_eq!(index.stats().number_of_documents, 0);
}

#[test]
fn the_dictionaries_hold_what_has_postings() {
    let mut index = fresh();
    index.push_documents_addition(vec![vec![], vec![]]).unwrap();
    let batch = Indexed {
        occurrences: vec![
            occurrence("b", 1, 0),
            occurrence("a", 1, 1),
            occurrence("b", 2, 0),
            occurrence("c", 2, 1),
        ],
        fields: vec![(1, 1, b"b a".to_vec()), (2, 1, b"b c".to_vec())],
        ranked: vec![],
    };
    work(&mut index, Ok(batch));
    assert_eq!(
        terms(index.as_ref().words()),
        vec![b"a".to_vec(), b"b".to_vec(), b"c".to_vec()]
    );
    index.push_documents_deletion(vec![1]).unwrap();
    work(&mut index, Ok(nothing()));
    let reader = index.as_ref();
    assert_eq!(terms(reader.words()), vec![b"b".to_vec(), b"c".to_vec()]);
    for term in [&b"a"[..], b"b", b"c", b"d"] {
        assert_eq!(reader.has_word(term), reader.word_indexes(term).is_some());
        assert_eq!(reader.words().contains(term), reader.word_indexes(term).is_some());
    }
    assert_eq!(index.stats().number_of_words, 2);
    assert_eq!(index.stats().number_of_documents, 1);
}

#[test]
fn an_index_opens_on_what_was_stored() {
    let mut first = fresh();
    let done = first.push_documents_deletion(vec![9]).unwrap();
    work(&mut first, Ok(nothing()));
    let recorded = meilidb_data::status::encode_status(&first.update_status(done).unwrap().unwrap());
    let queued = meilidb_data::codec::encode_update(&Update::DocumentsDeletion(vec![1]));
    let stored = Stored {
        schema: Some(schema()),
        indexed: hello_world(),
        synonyms: vec![(b"car".to_vec(), vec![b"auto".to_vec()])],
        custom: vec![(b"k".to_vec(), b"v".to_vec()), (b"k".to_vec(), b"w".to_vec())],
        updates: vec![(done, vec![0]), (5, queued), (u64::MAX, vec![])],
        results: vec![(done, recorded)],
    };
    let mut index = Index::new(stored).unwrap();
    assert_eq!(index.stats().number_of_words, 2);
    assert_eq!(index.stats().number_of_documents, 1);
    assert_eq!(index.stats().number_attrs_in_ranked_map, 1);
    assert!(index.as_ref().synonyms().contains("car"));
    assert_eq!(index.custom_settings().get(b"k"), Some(&b"w".to_vec()));
    assert_eq!(index.update_status(done).unwrap().unwrap().update_id, done);
    // the update whose result is recorded is not queued again
    assert_eq!(index.next_update().map(|(id, _)| id), Some(5));
    // and a new update gets an id above every id that was stored
    let id = index.push_documents_deletion(vec![]).unwrap();
    assert_eq!(id, 6);
    assert_eq!(work(&mut index, Ok(nothing())), 5);
    assert_eq!(index.stats().number_of_documents, 0);
    assert_eq!(work(&mut index, Ok(nothing())), 6);
    assert!(index.next_update().is_none());
}

#[test]
fn a_result_that_is_no_status_is_an_encoding_failure() {
    let mut stored = empty();
    stored.schema = Some(schema());
    stored.results = vec![(3, vec![1, 2, 3])];
    let index = Index::new(stored).unwrap();
    assert_eq!(index.update_status(3).err(), Some(IndexError::EncodingFailure));
    assert!(index.update_status(2).unwrap().is_none());
    match index.update_status_blocking(3, Waiting::Subscribed) {
        (Waiting::Subscribed, WaitAction::Fail(IndexError::EncodingFailure)) => {},
        _ => panic!("the failure is handed back"),
    }
}

#[test]
fn waiting_subscribes_before_it_reads() {
    let mut index = fresh();
    let id = index.push_documents_deletion(vec![]).unwrap();
    let state = match index.update_status_blocking(id, Waiting::Start) {
        (state, WaitAction::Subscribe(prefix)) => {
            assert_eq!(prefix, id.to_be_bytes().to_vec());
            state
        },
        _ => panic!("the caller subscribes first"),
    };
    assert_eq!(state, Waiting::Subscribed);
    let state = match index.update_status_blocking(id, state) {
        (state, WaitAction::Block) => state,
        _ => panic!("the caller blocks while no result is recorded"),
    };
    work(&mut index, Ok(nothing()));
    match index.update_status_blocking(id, state) {
        (_, WaitAction::Return(status)) => assert_eq!(status.update_id, id),
        _ => panic!("the status is handed back"),
    }
    // a result that is recorded before the caller subscribes is found all the same
    let state = index.update_status_blocking(id, Waiting::Start).0;
    assert!(matches!(index.update_status_blocking(id, state).1, WaitAction::Return(_)));
}

#[test]
fn only_a_set_event_wakes_the_worker() {
    assert!(event_is_set(&Event::Insert(vec![1], vec![2])));
    assert!(!event_is_set(&Event::Remove(vec![1])));
}

#[test]
fn tree_names_carry_the_name_of_the_index() {
    let names = tree_names("movies");
    assert_eq!(names.main, "movies");
    assert_eq!(names.synonyms, "movies-synonyms");
    assert_eq!(names.words, "movies-words");
    assert_eq!(names.docs_words, "movies-docs-words");
    assert_eq!(names.documents, "movies-documents");
    assert_eq!(names.custom, "movies-custom");
    assert_eq!(names.updates, "movies-updates");
    assert_eq!(names.updates_results, "movies-updates-results");
}

#[test]
fn document_hands_out_the_raw_fields() {
    let mut index = fresh();
    add_hello_world(&mut index);
    let all = vec![(0u16, b"1".to_vec()), (1, b"hello world".to_vec())];
    assert_eq!(index.document(None, 1), all);
    assert_eq!(
        index.document(Some(&vec!["title".to_string()]), 1),
        vec![(1u16, b"hello world".to_vec())]
    );
    assert_eq!(
        index.document(Some(&vec!["title".to_string(), "id".to_string()]), 1),
        vec![(1u16, b"hello world".to_vec()), (0, b"1".to_vec())]
    );
    // an attribute that has no field kept is passed over
    assert_eq!(index.document(Some(&vec!["rank".to_string()]), 1), vec![]);
    // a name that the schema lacks is passed over: only what is named and
    // known is loaded
    assert_eq!(
        index.document(Some(&vec!["title".to_string(), "nope".to_string()]), 1),
        vec![(1u16, b"hello world".to_vec())]
    );
    assert_eq!(index.document(Some(&vec!["nope".to_string()]), 1), vec![]);
    // a name that is asked for twice is loaded once
    assert_eq!(
        index.document(Some(&vec!["title".to_string(), "title".to_string()]), 1),
        vec![(1u16, b"hello world".to_vec())]
    );
    assert_eq!(index.document(Some(&vec![]), 1), vec![]);
    assert_eq!(index.document(None, 2), vec![]);
}

#[test]
fn custom_settings_do_not_touch_the_index() {
    let mut index = fresh();
    add_hello_world(&mut index);
    index.set_custom_setting(b"k".to_vec(), b"v".to_vec());
    assert_eq!(index.custom_settings().get(b"k"), Some(&b"v".to_vec()));
    assert_eq!(index.as_ref().custom_settings_index().get(b"k"), Some(&b"v".to_vec()));
    index.del_custom_setting(b"k");
    assert_eq!(index.custom_settings().get(b"k"), None);
    assert_eq!(index.stats().number_of_words, 2);
}

#[test]
fn no_id_is_left_after_the_last() {
    let mut stored = empty();
    stored.schema = Some(schema());
    stored.updates = vec![(u64::MAX - 1, vec![])];
    let mut index = Index::new(stored).unwrap();
    assert_eq!(index.push_documents_deletion(vec![]).err(), Some(IndexError::StorageFailure));
    assert_eq!(index.raw_push_update(vec![]).err(), Some(IndexError::StorageFailure));
    // what is queued is applied all the same
    assert_eq!(work(&mut index, Ok(nothing())), u64::MAX - 1);
    assert!(index.next_update().is_none());
    assert_eq!(
        index.update_status(u64::MAX - 1).unwrap().unwrap().update_type,
        UpdateType::Malformed { number: 0 }
    );
}

#[test]
fn the_number_of_synonyms_counts_each_source_once() {
    let mut index = fresh();
    let mut addition = index.synonyms_addition();
    addition.add_synonym(b"car".to_vec(), vec![b"auto".to_vec()]);
    addition.add_synonym(b"bike".to_vec(), vec![b"cycle".to_vec()]);
    addition.add_synonym(b"car".to_vec(), vec![b"vehicle".to_vec()]);
    let id = addition.finalize(&mut index).unwrap();
    work(&mut index, Ok(nothing()));
    assert_eq!(
        index.update_status(id).unwrap().unwrap().update_type,
        UpdateType::SynonymsAddition { number: 2 }
    );
    assert_eq!(
        index.as_ref().synonyms_index().alternatives_to(b"car"),
        Some(&vec![b"auto".to_vec(), b"vehicle".to_vec()])
    );
    let mut deletion = index.synonyms_deletion();
    deletion.delete_specific_alternatives_of(b"car".to_vec(), vec![b"auto".to_vec()]);
    deletion.delete_all_alternatives_of(b"car".to_vec());
    deletion.delete_all_alternatives_of(b"bike".to_vec());
    deletion.delete_all_alternatives_of(b"boat".to_vec());
    let id = deletion.finalize(&mut index).unwrap();
    work(&mut index, Ok(nothing()));
    assert_eq!(
        index.update_status(id).unwrap().unwrap().update_type,
        UpdateType::SynonymsDeletion { number: 3 }
    );
    assert!(index.as_ref().synonyms().is_empty());
    assert_eq!(
        Update::SynonymsAddition(vec![(vec![1], vec![]), (vec![1], vec![]), (vec![], vec![])])
            .update_type(),
        UpdateType::SynonymsAddition { number: 2 }
    );
}

#[test]
fn the_next_id_is_the_least_above_what_was_stored() {
    let mut index = fresh();
    assert_eq!(index.next_update_id(), 0);
    assert_eq!(index.push_documents_deletion(vec![]).unwrap(), 0);
    assert_eq!(index.next_update_id(), 1);
    let mut stored = empty();
    stored.schema = Some(schema());
    stored.updates = vec![(7, vec![]), (3, vec![])];
    stored.results = vec![(9, vec![]), (u64::MAX, vec![])];
    let mut index = Index::new(stored).unwrap();
    assert_eq!(index.next_update_id(), 10);
    assert_eq!(index.push_documents_deletion(vec![]).unwrap(), 10);
}

#[test]
fn open_says_whether_the_schema_has_to_be_written() {
    let (index, write) = Index::open(empty(), Some(schema())).unwrap();
    assert!(write);
    assert!(index.schema().same_as(&schema()));
    let mut stored = empty();
    stored.schema = Some(schema());
    let (_, write) = Index::open(stored, Some(schema())).unwrap();
    assert!(!write);
    let mut stored = empty();
    stored.schema = Some(schema());
    let (_, write) = Index::open(stored, None).unwrap();
    assert!(!write);
    assert_eq!(Index::open(empty(), None).err(), Some(IndexError::SchemaMissing));
    let mut stored = empty();
    stored.schema = Some(schema());
    assert_eq!(Index::open(stored, Some(other_schema())).err(), Some(IndexError::SchemaDiffer));
}

#[test]
fn builders_hand_over_what_they_gathered() {
    let index = fresh();
    let mut addition = index.documents_addition();
    addition.update_document(vec![1]);
    addition.update_document(vec![2, 3]);
    match addition.into_update() {
        Update::DocumentsAddition(documents) => assert_eq!(documents, vec![vec![1], vec![2, 3]]),
        _ => panic!("a documents addition"),
    }
    let mut deletion = index.documents_deletion();
    deletion.delete_document_by_id(4);
    match deletion.into_update() {
        Update::DocumentsDeletion(ids) => assert_eq!(ids, vec![4]),
        _ => panic!("a documents deletion"),
    }
    let mut addition = index.synonyms_addition();
    addition.add_synonym(vec![1], vec![vec![2]]);
    match addition.into_update() {
        Update::SynonymsAddition(entries) => assert_eq!(entries, vec![(vec![1], vec![vec![2]])]),
        _ => panic!("a synonyms addition"),
    }
    let mut deletion = index.synonyms_deletion();
    deletion.delete_all_alternatives_of(vec![1]);
    deletion.delete_specific_alternatives_of(vec![2], vec![vec![3]]);
    match deletion.into_update() {
        Update::SynonymsDeletion(entries) => {
            assert_eq!(entries, vec![(vec![1], None), (vec![2], Some(vec![vec![3]]))])
        },
        _ => panic!("a synonyms deletion"),
    }
}
