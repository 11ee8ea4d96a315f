use mmdb::engine::Db;
use mmdb::error::Error;
use mmdb::multikey::{MapxDk, MapxRawKeyMk};

#[test]
fn basic_multi_key_mapx_double_key_test_basic_cases() {
    let mut db = Db::new();
    let map = MapxDk::<u8, u8, u8>::new(&mut db);

    assert!(map.insert(&mut db, &1u8, &1u8, &9u8).is_none());
    assert!(map.insert(&mut db, &1, &2, &8).is_none());
    assert!(map.insert(&mut db, &1, &3, &7).is_none());

    assert_eq!(map.get(&db, &1, &1).unwrap(), 9);
    assert_eq!(map.get(&db, &1, &2).unwrap(), 8);
    assert_eq!(map.get(&db, &1, &3).unwrap(), 7);

    // does not exist
    assert!(map.remove(&mut db, &1, Some(&4)).is_none());

    assert!(map.remove(&mut db, &1, Some(&1)).is_some());
    assert!(map.get(&db, &1, &1).is_none());

    // partial-path remove
    assert!(map.remove(&mut db, &1, None).is_none()); // yes, is none
    assert!(map.get(&db, &1, &2).is_none());
    assert!(map.get(&db, &1, &3).is_none());

    map.or_insert(&mut db, &1, &99, &100);
    assert_eq!(map.get(&db, &1, &99).unwrap(), 100);
}

#[test]
fn basic_multi_key_mapx_rawkey_test_basic_cases() {
    let mut db = Db::new();
    let map = MapxRawKeyMk::<u32>::new(&mut db, 4);

    // key size mismatch
    assert!(map.insert(&mut db, &vec![vec![1]], &0u32).is_err());

    assert!(map.insert(&mut db, &vec![vec![1], vec![2], vec![3], vec![4]], &9).is_ok());
    assert!(map.insert(&mut db, &vec![vec![1], vec![2], vec![3], vec![40]], &8).is_ok());
    assert!(map.insert(&mut db, &vec![vec![1], vec![2], vec![30], vec![40]], &7).is_ok());
    assert!(map.insert(&mut db, &vec![vec![1], vec![2], vec![30], vec![41]], &6).is_ok());

    assert_eq!(map.get(&db, &vec![vec![1], vec![2], vec![3], vec![4]]).unwrap(), 9);
    assert_eq!(map.get(&db, &vec![vec![1], vec![2], vec![3], vec![40]]).unwrap(), 8);
    assert_eq!(map.get(&db, &vec![vec![1], vec![2], vec![30], vec![40]]).unwrap(), 7);
    assert_eq!(map.get(&db, &vec![vec![1], vec![2], vec![30], vec![41]]).unwrap(), 6);

    // key size mismatch
    assert!(map.get(&db, &vec![vec![1], vec![2], vec![3]]).is_none());
    assert!(map.get(&db, &vec![vec![1], vec![2]]).is_none());
    assert!(map.get(&db, &vec![vec![1]]).is_none());
    assert!(map.get(&db, &vec![]).is_none());

    // does not exist
    assert!(map.remove(&mut db, &vec![vec![1], vec![2], vec![3], vec![200]]).unwrap().is_none());

    assert!(map.remove(&mut db, &vec![vec![1], vec![2], vec![3], vec![40]]).unwrap().is_some());
    assert!(map.get(&db, &vec![vec![1], vec![2], vec![3], vec![40]]).is_none());

    // partial-path remove
    assert!(map.remove(&mut db, &vec![vec![1], vec![2], vec![30]]).unwrap().is_none()); // yes, is none
    assert!(map.get(&db, &vec![vec![1], vec![2], vec![30], vec![40]]).is_none());
    assert!(map.get(&db, &vec![vec![1], vec![2], vec![30], vec![41]]).is_none());

    // nothing will be removed by an empty key
    assert!(map.remove(&mut db, &vec![]).unwrap().is_none());

    assert!(map.get(&db, &vec![vec![1], vec![2], vec![3], vec![4]]).is_some());
    assert!(map.remove(&mut db, &vec![vec![1]]).unwrap().is_none()); // yes, is none
    assert!(map.get(&db, &vec![vec![1], vec![2], vec![3], vec![4]]).is_none());

    assert_eq!(map.or_insert(&mut db, &vec![], &0u32), Err(Error::ShapeMismatch));
    map.or_insert(&mut db, &vec![vec![11], vec![12], vec![13], vec![14]], &777).unwrap();
    assert_eq!(map.get(&db, &vec![vec![11], vec![12], vec![13], vec![14]]).unwrap(), 777);

    let items = map.entries(&db);
    assert_eq!(items.len(), 1);
    assert_eq!(items[0].0, vec![vec![11], vec![12], vec![13], vec![14]]);
    assert_eq!(items[0].1, 777);

    map.or_insert(&mut db, &vec![vec![11], vec![12], vec![13], vec![15]], &888).unwrap();
    assert_eq!(map.get(&db, &vec![vec![11], vec![12], vec![13], vec![15]]).unwrap(), 888);

    let mut cnt = 0;
    let check = |items: Vec<(Vec<Vec<u8>>, u32)>| -> usize {
        for (k, v) in items.iter() {
            if *v == 777 {
                assert_eq!(k, &vec![vec![11], vec![12], vec![13], vec![14]]);
            } else {
                assert_eq!(*v, 888);
                assert_eq!(k, &vec![vec![11], vec![12], vec![13], vec![15]]);
            }
        }
        items.len()
    };

    cnt += check(map.entries(&db));
    cnt += check(map.entries_with_key_prefix(&db, &vec![vec![11]]));
    cnt += check(map.entries_with_key_prefix(&db, &vec![vec![11], vec![12]]));
    cnt += check(map.entries_with_key_prefix(&db, &vec![vec![11], vec![12], vec![13]]));
    cnt += check(map.entries_with_key_prefix(&db, &vec![vec![11], vec![12], vec![13], vec![14]]));
    cnt += check(map.entries_with_key_prefix(&db, &vec![vec![11], vec![12], vec![13], vec![15]]));

    cnt += check(map.entries_with_key_prefix(&db, &vec![vec![111]]));
    cnt += check(map.entries_with_key_prefix(&db, &vec![vec![111], vec![12]]));
    cnt += check(map.entries_with_key_prefix(&db, &vec![vec![111], vec![12], vec![13]]));
    cnt += check(map.entries_with_key_prefix(&db, &vec![vec![111], vec![12], vec![13], vec![14]]));
    cnt += check(map.entries_with_key_prefix(&db, &vec![vec![111], vec![12], vec![13], vec![15]]));

    assert_eq!(cnt, 10);
}
