use meilidb_data::bytes::{compare, starts_with, Order};
use meilidb_data::custom::CustomSettingsIndex;
use meilidb_data::docindex::{
    attr_key, attr_of_key, doc_index_key, doc_index_of_key, document_key, field_key,
    field_of_key, pack_postings, unpack_postings, DocIndex,
};
use meilidb_data::documents::DocumentsIndex;
use meilidb_data::ranked_map::RankedMap;
use meilidb_data::set::{ByteSet, MultiMap};
use meilidb_data::synonyms::SynonymsIndex;
use meilidb_data::tree::Tree;
use meilidb_data::words::WordsIndex;

fn di(document_id: u64, attribute: u16, word_index: u16) -> DocIndex {
    DocIndex { document_id, attribute, word_index, char_index: word_index * 6, char_length: 5 }
}

#[test]
fn compare_is_lexicographic() {
    assert_eq!(compare(b"", b""), Order::Same);
    assert_eq!(compare(b"", b"a"), Order::Before);
    assert_eq!(compare(b"a", b""), Order::After);
    assert_eq!(compare(b"abc", b"abd"), Order::Before);
    assert_eq!(compare(b"abd", b"abc"), Order::After);
    assert_eq!(compare(b"ab", b"abc"), Order::Before);
    assert_eq!(compare(b"abc", b"abc"), Order::Same);
    assert_eq!(compare(&[0xff], &[0x00, 0xff]), Order::After);
}

#[test]
fn starts_with_tests_the_prefix() {
    assert!(starts_with(b"hello", b""));
    assert!(starts_with(b"hello", b"hel"));
    assert!(starts_with(b"hello", b"hello"));
    assert!(!starts_with(b"hello", b"hello!"));
    assert!(!starts_with(b"hello", b"help"));
}

#[test]
fn tree_keeps_keys_in_order() {
    let mut t: Tree<u32> = Tree::new();
    assert!(t.is_empty());
    assert!(t.first().is_none());
    assert_eq!(t.insert(b"m".to_vec(), 1), None);
    assert_eq!(t.insert(b"a".to_vec(), 2), None);
    assert_eq!(t.insert(b"z".to_vec(), 3), None);
    assert_eq!(t.insert(b"ma".to_vec(), 4), None);
    assert_eq!(t.insert(b"m".to_vec(), 5), Some(1));
    assert_eq!(t.len(), 4);
    assert_eq!(t.key_list(), &vec![b"a".to_vec(), b"m".to_vec(), b"ma".to_vec(), b"z".to_vec()]);
    assert_eq!(t.first(), Some((&b"a".to_vec(), &2)));
    assert_eq!(t.get(b"m"), Some(&5));
    assert_eq!(t.get(b"n"), None);
    assert!(t.contains_key(b"ma"));
    assert_eq!(t.key_at(3), &b"z".to_vec());
    assert_eq!(t.value_at(3), &3);
    assert_eq!(t.remove(b"a"), Some(2));
    assert_eq!(t.remove(b"a"), None);
    assert_eq!(t.first(), Some((&b"m".to_vec(), &5)));
    t.remove_prefix(b"m");
    assert_eq!(t.key_list(), &vec![b"z".to_vec()]);
    t.remove_prefix(b"");
    assert!(t.is_empty());
}

#[test]
fn byte_set_is_a_set() {
    let mut s = ByteSet::new();
    assert!(s.is_empty());
    assert!(s.insert(b"b".to_vec()));
    assert!(s.insert(b"a".to_vec()));
    assert!(!s.insert(b"b".to_vec()));
    assert_eq!(s.len(), 2);
    assert!(s.contains(b"a"));
    assert!(!s.contains(b"c"));
    assert_eq!(s.as_list(), &vec![b"a".to_vec(), b"b".to_vec()]);
    assert!(s.remove(b"a"));
    assert!(!s.remove(b"a"));
    s.insert(b"ba".to_vec());
    s.insert(b"c".to_vec());
    s.remove_prefix(b"b");
    assert_eq!(s.as_list(), &vec![b"c".to_vec()]);
}

#[test]
fn multi_map_drops_a_key_without_members() {
    let mut m = MultiMap::new();
    m.insert(b"k", b"x".to_vec());
    m.insert(b"k", b"y".to_vec());
    m.insert(b"j", b"x".to_vec());
    assert_eq!(m.len(), 2);
    assert_eq!(m.key_list(), &vec![b"j".to_vec(), b"k".to_vec()]);
    assert_eq!(m.get(b"k").map(|s| s.len()), Some(2));
    m.remove_item(b"k", b"x");
    assert_eq!(m.get(b"k").map(|s| s.as_list().clone()), Some(vec![b"y".to_vec()]));
    m.remove_item(b"k", b"y");
    assert!(m.get(b"k").is_none());
    assert_eq!(m.len(), 1);
    m.remove_items_with_prefix(b"j", b"x");
    assert_eq!(m.len(), 0);
    m.insert(b"a", b"1".to_vec());
    m.remove_key(b"a");
    m.remove_key(b"a");
    assert_eq!(m.len(), 0);
}

#[test]
fn keys_are_big_endian() {
    assert_eq!(document_key(258), vec![0, 0, 0, 0, 0, 0, 1, 2]);
    assert_eq!(attr_key(258), vec![1, 2]);
    assert_eq!(field_key(1, 2), vec![0, 0, 0, 0, 0, 0, 0, 1, 0, 2]);
    let d = DocIndex {
        document_id: 1,
        attribute: 2,
        word_index: 3,
        char_index: 4,
        char_length: 0x0506,
    };
    let key = doc_index_key(&d);
    assert_eq!(key, vec![0, 0, 0, 0, 0, 0, 0, 1, 0, 2, 0, 3, 0, 4, 5, 6]);
    assert_eq!(doc_index_of_key(&key), Some(d));
    assert_eq!(doc_index_of_key(&key[..15]), None);
}

#[test]
fn doc_index_keys_sort_as_the_occurrences() {
    let list = [di(1, 0, 0), di(1, 0, 1), di(1, 1, 0), di(2, 0, 0), di(256, 0, 0)];
    for a in list {
        for b in list {
            let by_fields = (a.document_id, a.attribute, a.word_index)
                < (b.document_id, b.attribute, b.word_index);
            assert_eq!(by_fields, doc_index_key(&a) < doc_index_key(&b));
        }
    }
}

#[test]
fn postings_and_words_of_documents_agree() {
    let mut w = WordsIndex::new();
    w.add_occurrence(b"hello", &di(1, 0, 0));
    w.add_occurrence(b"world", &di(1, 0, 1));
    w.add_occurrence(b"hello", &di(2, 0, 0));
    w.add_occurrence(b"hello", &di(2, 0, 0));
    assert_eq!(w.number_of_terms(), 2);
    assert_eq!(w.term_list(), &vec![b"hello".to_vec(), b"world".to_vec()]);
    assert_eq!(w.doc_indexes(b"hello"), Some(vec![di(1, 0, 0), di(2, 0, 0)]));
    assert_eq!(w.doc_indexes(b"world"), Some(vec![di(1, 0, 1)]));
    assert_eq!(w.doc_indexes(b"other"), None);
    assert_eq!(w.doc_words_of(1), Some(&vec![b"hello".to_vec(), b"world".to_vec()]));
    assert_eq!(w.doc_words_of(2), Some(&vec![b"hello".to_vec()]));
    assert_eq!(w.doc_words_of(3), None);
    // for every document and term, the document is among the postings of the
    // term exactly where the term is among the words of the document
    for id in 0..4u64 {
        for term in [&b"hello"[..], b"world", b"other"] {
            let in_postings = w
                .doc_indexes(term)
                .map_or(false, |l| l.iter().any(|d| d.document_id == id));
            let in_words =
                w.doc_words_of(id).map_or(false, |l| l.iter().any(|t| t.as_slice() == term));
            assert_eq!(in_postings, in_words);
        }
    }
    w.remove_document(1);
    assert_eq!(w.term_list(), &vec![b"hello".to_vec()]);
    assert_eq!(w.doc_indexes(b"hello"), Some(vec![di(2, 0, 0)]));
    assert_eq!(w.doc_indexes(b"world"), None);
    assert_eq!(w.doc_words_of(1), None);
    w.remove_document(1);
    w.remove_document(2);
    assert_eq!(w.number_of_terms(), 0);
    assert_eq!(w.doc_words_of(2), None);
}

#[test]
fn documents_index_counts_documents() {
    let mut d = DocumentsIndex::new();
    assert_eq!(d.len(), 0);
    d.set_field(1, 0, b"one".to_vec());
    d.set_field(1, 1, b"two".to_vec());
    d.set_field(2, 0, b"three".to_vec());
    d.set_field(1, 0, b"uno".to_vec());
    assert_eq!(d.len(), 2);
    assert_eq!(d.get_field(1, 0), Some(&b"uno".to_vec()));
    assert_eq!(d.get_field(1, 1), Some(&b"two".to_vec()));
    assert_eq!(d.get_field(1, 2), None);
    assert_eq!(d.get_field(3, 0), None);
    assert_eq!(d.fields(1).map(|f| f.len()), Some(2));
    assert!(d.fields(3).is_none());
    d.del_document(1);
    assert_eq!(d.len(), 1);
    assert_eq!(d.get_field(1, 0), None);
    assert_eq!(d.get_field(2, 0), Some(&b"three".to_vec()));
    d.del_document(1);
    assert_eq!(d.len(), 1);
}

#[test]
fn synonyms_index_keeps_alternatives() {
    let mut s = SynonymsIndex::new();
    s.add_alternative(b"car", b"vehicle".to_vec());
    s.add_alternative(b"car", b"auto".to_vec());
    s.add_alternative(b"bike", b"cycle".to_vec());
    assert_eq!(s.len(), 2);
    assert_eq!(s.source_list(), &vec![b"bike".to_vec(), b"car".to_vec()]);
    assert_eq!(s.alternatives_to(b"car"), Some(&vec![b"auto".to_vec(), b"vehicle".to_vec()]));
    assert_eq!(s.alternatives_to(b"boat"), None);
    s.remove_alternative(b"car", b"auto");
    assert_eq!(s.alternatives_to(b"car"), Some(&vec![b"vehicle".to_vec()]));
    s.remove_alternative(b"car", b"vehicle");
    assert_eq!(s.alternatives_to(b"car"), None);
    assert_eq!(s.source_list(), &vec![b"bike".to_vec()]);
    s.del(b"bike");
    assert_eq!(s.len(), 0);
}

#[test]
fn custom_settings_are_free_form() {
    let mut c = CustomSettingsIndex::new();
    assert_eq!(c.get(b"k"), None);
    c.set(b"k".to_vec(), b"v".to_vec());
    c.set(b"k".to_vec(), b"w".to_vec());
    assert_eq!(c.get(b"k"), Some(&b"w".to_vec()));
    c.del(b"k");
    assert_eq!(c.get(b"k"), None);
}

#[test]
fn ranked_map_drops_a_document() {
    let mut r = RankedMap::new();
    r.insert(1, 0, 10);
    r.insert(1, 1, 11);
    r.insert(2, 0, 20);
    r.insert(1, 0, 12);
    assert_eq!(r.len(), 3);
    assert_eq!(r.get(1, 0), Some(12));
    assert_eq!(r.get(2, 1), None);
    r.remove_document(1);
    assert_eq!(r.len(), 1);
    assert_eq!(r.get(1, 0), None);
    assert_eq!(r.get(1, 1), None);
    assert_eq!(r.get(2, 0), Some(20));
}

#[test]
fn postings_are_packed_key_by_key() {
    let list = vec![di(1, 0, 0), di(1, 0, 1), di(2, 3, 4)];
    let packed = pack_postings(&list);
    assert_eq!(packed.len(), 48);
    assert_eq!(packed[..16], doc_index_key(&list[0])[..]);
    assert_eq!(packed[32..], doc_index_key(&list[2])[..]);
    assert_eq!(unpack_postings(&packed), Some(list));
    assert_eq!(pack_postings(&vec![]), Vec::<u8>::new());
    assert_eq!(unpack_postings(&[]), Some(vec![]));
    assert_eq!(unpack_postings(&packed[..47]), None);
    assert_eq!(unpack_postings(&[0; 17]), None);
}

#[test]
fn keys_of_fields_and_attributes_are_read_back() {
    assert_eq!(field_of_key(&field_key(258, 772)), Some((258, 772)));
    assert_eq!(field_of_key(&[0; 9]), None);
    assert_eq!(field_of_key(&[0; 11]), None);
    assert_eq!(attr_of_key(&attr_key(772)), Some(772));
    assert_eq!(attr_of_key(&[3, 4]), Some(772));
    assert_eq!(attr_of_key(&[3]), None);
}

#[test]
fn occurrences_are_ordered_as_their_keys() {
    let list = [di(1, 0, 0), di(1, 0, 1), di(1, 1, 0), di(2, 0, 0), di(256, 0, 0)];
    for a in list {
        for b in list {
            assert_eq!(a < b, doc_index_key(&a) < doc_index_key(&b));
        }
    }
}
