use meilidb_data::codec::{decode_terms, decode_update, encode_terms, encode_update};
use meilidb_data::status::{decode_status, encode_status};
use meilidb_data::update::{DetailedDuration, Update, UpdateStatus, UpdateType};

fn same(a: &Update, b: &Update) -> bool {
    match (a, b) {
        (Update::DocumentsAddition(x), Update::DocumentsAddition(y)) => x == y,
        (Update::DocumentsDeletion(x), Update::DocumentsDeletion(y)) => x == y,
        (Update::SynonymsAddition(x), Update::SynonymsAddition(y)) => x == y,
        (Update::SynonymsDeletion(x), Update::SynonymsDeletion(y)) => x == y,
        _ => false,
    }
}

fn samples() -> Vec<Update> {
    vec![
        Update::DocumentsAddition(vec![]),
        Update::DocumentsAddition(vec![vec![0x81, 0xa2, b'i', b'd', 1], vec![], vec![0xc0]]),
        Update::DocumentsDeletion(vec![]),
        Update::DocumentsDeletion(vec![0, 1, u64::MAX, 42]),
        Update::SynonymsAddition(vec![]),
        Update::SynonymsAddition(vec![
            (b"car".to_vec(), vec![b"auto".to_vec(), b"vehicle".to_vec()]),
            (b"".to_vec(), vec![]),
        ]),
        Update::SynonymsDeletion(vec![]),
        Update::SynonymsDeletion(vec![
            (b"car".to_vec(), None),
            (b"bike".to_vec(), Some(vec![])),
            (b"boat".to_vec(), Some(vec![b"ship".to_vec()])),
        ]),
    ]
}

#[test]
fn update_round_trip() {
    for update in samples() {
        let bytes = encode_update(&update);
        let back = decode_update(&bytes).expect("an encoding decodes");
        assert!(same(&update, &back));
    }
}

#[test]
fn update_is_tagged_with_the_name_of_its_variant() {
    let names: [&[u8]; 4] =
        [b"DocumentsAddition", b"DocumentsDeletion", b"SynonymsAddition", b"SynonymsDeletion"];
    let updates = [
        Update::DocumentsAddition(vec![]),
        Update::DocumentsDeletion(vec![]),
        Update::SynonymsAddition(vec![]),
        Update::SynonymsDeletion(vec![]),
    ];
    for (update, name) in updates.iter().zip(names.iter()) {
        let bytes = encode_update(update);
        let mut expected = (name.len() as u64).to_be_bytes().to_vec();
        expected.extend_from_slice(name);
        expected.extend_from_slice(&0u64.to_be_bytes());
        assert_eq!(bytes, expected);
    }
}

#[test]
fn documents_deletion_bytes() {
    let bytes = encode_update(&Update::DocumentsDeletion(vec![1, 258]));
    let mut expected = 17u64.to_be_bytes().to_vec();
    expected.extend_from_slice(b"DocumentsDeletion");
    expected.extend_from_slice(&2u64.to_be_bytes());
    expected.extend_from_slice(&[0, 0, 0, 0, 0, 0, 0, 1]);
    expected.extend_from_slice(&[0, 0, 0, 0, 0, 0, 1, 2]);
    assert_eq!(bytes, expected);
}

#[test]
fn synonyms_deletion_bytes() {
    let bytes = encode_update(&Update::SynonymsDeletion(vec![
        (b"a".to_vec(), None),
        (b"b".to_vec(), Some(vec![b"c".to_vec()])),
    ]));
    let mut expected = 16u64.to_be_bytes().to_vec();
    expected.extend_from_slice(b"SynonymsDeletion");
    expected.extend_from_slice(&2u64.to_be_bytes());
    expected.extend_from_slice(&1u64.to_be_bytes());
    expected.push(b'a');
    expected.push(0);
    expected.extend_from_slice(&1u64.to_be_bytes());
    expected.push(b'b');
    expected.push(1);
    expected.extend_from_slice(&1u64.to_be_bytes());
    expected.extend_from_slice(&1u64.to_be_bytes());
    expected.push(b'c');
    assert_eq!(bytes, expected);
}

#[test]
fn what_is_no_encoding_does_not_decode() {
    assert!(decode_update(&[]).is_none());
    assert!(decode_update(&[1, 2, 3]).is_none());
    let good = encode_update(&Update::DocumentsDeletion(vec![7]));
    // cut short
    assert!(decode_update(&good[..good.len() - 1]).is_none());
    // something behind the end
    let mut long = good.clone();
    long.push(0);
    assert!(decode_update(&long).is_none());
    // an unknown name
    let mut unknown = 7u64.to_be_bytes().to_vec();
    unknown.extend_from_slice(b"Unknown");
    unknown.extend_from_slice(&0u64.to_be_bytes());
    assert!(decode_update(&unknown).is_none());
    // a count that the input cannot hold
    let mut huge = 17u64.to_be_bytes().to_vec();
    huge.extend_from_slice(b"DocumentsDeletion");
    huge.extend_from_slice(&u64::MAX.to_be_bytes());
    assert!(decode_update(&huge).is_none());
    // a flag that is neither 0 nor 1
    let mut flag = 16u64.to_be_bytes().to_vec();
    flag.extend_from_slice(b"SynonymsDeletion");
    flag.extend_from_slice(&1u64.to_be_bytes());
    flag.extend_from_slice(&0u64.to_be_bytes());
    flag.push(2);
    assert!(decode_update(&flag).is_none());
}

#[test]
fn update_type_counts_the_batch() {
    assert_eq!(
        Update::DocumentsAddition(vec![vec![], vec![]]).update_type(),
        UpdateType::DocumentsAddition { number: 2 }
    );
    assert_eq!(
        Update::DocumentsDeletion(vec![1, 2, 3]).update_type(),
        UpdateType::DocumentsDeletion { number: 3 }
    );
    assert_eq!(
        Update::SynonymsAddition(vec![(vec![], vec![vec![], vec![]])]).update_type(),
        UpdateType::SynonymsAddition { number: 1 }
    );
    assert_eq!(
        Update::SynonymsDeletion(vec![]).update_type(),
        UpdateType::SynonymsDeletion { number: 0 }
    );
    assert_eq!(UpdateType::Malformed { number: 0 }.number(), 0);
    assert_eq!(UpdateType::SynonymsAddition { number: 9 }.number(), 9);
}

fn status(update_type: UpdateType, result: Result<(), String>) -> UpdateStatus {
    UpdateStatus {
        update_id: 0x0102,
        update_type,
        result,
        detailed_duration: DetailedDuration { main: 1_000_000_007 },
    }
}

#[test]
fn status_round_trip() {
    let kinds = [
        UpdateType::DocumentsAddition { number: 3 },
        UpdateType::DocumentsDeletion { number: 0 },
        UpdateType::SynonymsAddition { number: 1 },
        UpdateType::SynonymsDeletion { number: usize::MAX },
        UpdateType::Malformed { number: 0 },
    ];
    for kind in kinds {
        for result in [Ok(()), Err(String::new()), Err("missing document id: héllo".to_string())] {
            let s = status(kind, result);
            let back = decode_status(&encode_status(&s)).expect("an encoding decodes");
            assert_eq!(back.update_id, s.update_id);
            assert_eq!(back.update_type, s.update_type);
            assert_eq!(back.result, s.result);
            assert_eq!(back.detailed_duration, s.detailed_duration);
        }
    }
}

#[test]
fn status_bytes() {
    let s = status(UpdateType::DocumentsDeletion { number: 5 }, Err("no".to_string()));
    let mut expected = vec![0, 0, 0, 0, 0, 0, 1, 2];
    expected.push(1);
    expected.extend_from_slice(&5u64.to_be_bytes());
    expected.push(1);
    expected.extend_from_slice(&2u64.to_be_bytes());
    expected.extend_from_slice(b"no");
    expected.extend_from_slice(&1_000_000_007u64.to_be_bytes());
    assert_eq!(encode_status(&s), expected);

    let ok = status(UpdateType::DocumentsAddition { number: 1 }, Ok(()));
    let mut expected = vec![0, 0, 0, 0, 0, 0, 1, 2];
    expected.push(0);
    expected.extend_from_slice(&1u64.to_be_bytes());
    expected.push(0);
    expected.extend_from_slice(&1_000_000_007u64.to_be_bytes());
    assert_eq!(encode_status(&ok), expected);
}

#[test]
fn what_is_no_status_does_not_decode() {
    assert!(decode_status(&[]).is_none());
    let good = encode_status(&status(UpdateType::Malformed { number: 0 }, Err("x".to_string())));
    assert!(decode_status(&good[..good.len() - 1]).is_none());
    let mut long = good.clone();
    long.push(0);
    assert!(decode_status(&long).is_none());
    // a kind that does not exist
    let mut kind = good.clone();
    kind[8] = 5;
    assert!(decode_status(&kind).is_none());
    // a message that is not UTF-8
    let mut text = good.clone();
    let at = good.len() - 9;
    text[at] = 0xff;
    assert!(decode_status(&text).is_none());
    // an outcome that is neither success nor failure
    let mut outcome = good;
    outcome[17] = 2;
    assert!(decode_status(&outcome).is_none());
}

#[test]
fn status_clone_is_equal() {
    let s = status(UpdateType::SynonymsAddition { number: 2 }, Err("why".to_string()));
    let c = s.clone();
    assert_eq!(c.update_id, s.update_id);
    assert_eq!(c.update_type, s.update_type);
    assert_eq!(c.result, s.result);
    assert_eq!(c.detailed_duration, s.detailed_duration);
}

#[test]
fn a_list_of_terms_round_trips() {
    for terms in [vec![], vec![b"auto".to_vec(), b"vehicle".to_vec()], vec![vec![], vec![0xff]]] {
        assert_eq!(decode_terms(&encode_terms(&terms)), Some(terms));
    }
    let mut expected = 2u64.to_be_bytes().to_vec();
    expected.extend_from_slice(&1u64.to_be_bytes());
    expected.push(b'a');
    expected.extend_from_slice(&0u64.to_be_bytes());
    assert_eq!(encode_terms(&vec![b"a".to_vec(), vec![]]), expected);
    assert_eq!(decode_terms(&expected[..expected.len() - 1]), None);
    expected.push(0);
    assert_eq!(decode_terms(&expected), None);
    assert_eq!(decode_terms(&[]), None);
}
