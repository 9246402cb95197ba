use meilidb_data::keys::{update_id_of_key, update_key};

#[test]
fn update_key_is_big_endian() {
    assert_eq!(update_key(1), vec![0, 0, 0, 0, 0, 0, 0, 1]);
    assert_eq!(update_key(0x0102030405060708), vec![1, 2, 3, 4, 5, 6, 7, 8]);
    assert_eq!(update_key(u64::MAX), vec![255; 8]);
}

#[test]
fn update_key_round_trip() {
    for id in [0u64, 1, 255, 256, 65_535, 1 << 40, u64::MAX] {
        assert_eq!(update_id_of_key(&update_key(id)), Some(id));
    }
    assert_eq!(update_id_of_key(&[1, 2, 3]), None);
    assert_eq!(update_id_of_key(&[0; 9]), None);
}

#[test]
fn update_keys_sort_as_ids() {
    let ids = [0u64, 1, 2, 255, 256, 257, 1 << 32, u64::MAX - 1, u64::MAX];
    for a in ids {
        for b in ids {
            assert_eq!(a < b, update_key(a) < update_key(b));
        }
    }
}
