use mmdb::engine::Db;
use mmdb::mpt::{MptOnce, MptStore};
use std::collections::BTreeMap;

fn b(s: &str) -> Vec<u8> {
    s.as_bytes().to_vec()
}

#[test]
fn trie_db_destroy_and_prune() {
    let mut db = Db::new();
    let s = MptStore::new(&mut db);
    let bk = MptStore::new_backend(&mut db, &vec![0], None).unwrap();
    let mut hdr = s.trie_create(&mut db, &b(""), bk).unwrap();

    hdr.insert(&db, &b("k"), &b("v0")).unwrap();
    assert_eq!(b("v0"), hdr.get(&db, &b("k")).unwrap().unwrap());
    let root0 = hdr.commit(&mut db).unwrap();

    hdr.insert(&db, &b("k"), &b("v1")).unwrap();
    assert_eq!(b("v1"), hdr.get(&db, &b("k")).unwrap().unwrap());
    let root1 = hdr.commit(&mut db).unwrap();

    hdr.insert(&db, &b("k"), &b("v2")).unwrap();
    assert_eq!(b("v2"), hdr.get(&db, &b("k")).unwrap().unwrap());
    let root2 = hdr.commit(&mut db).unwrap();

    s.trie_swap_head(&mut db, &vec![0], &root1).unwrap();
    s.trie_destroy(&mut db, &vec![0]);

    let hdr = s.trie_restore(&db, &vec![0], &root0, true).unwrap();
    assert_eq!(b("v0"), hdr.get(&db, &b("k")).unwrap().unwrap());

    assert!(s.trie_restore(&db, &vec![0], &root0, false).is_err());
    s.trie_swap_head(&mut db, &vec![0], &root0).unwrap();
    assert!(s.trie_restore(&db, &vec![0], &root0, false).is_ok());
    assert!(s.trie_restore(&db, &vec![0], &root1, true).is_err());
    assert!(s.trie_restore(&db, &vec![0], &root2, true).is_err());

    // the trie doesn't exist
    assert!(s.trie_prune(&mut db, &vec![0], &root1, true).is_err());

    let mut hdr = hdr;
    hdr.insert(&db, &b("k"), &b("v3")).unwrap();
    assert_eq!(b("v3"), hdr.get(&db, &b("k")).unwrap().unwrap());
    let root3 = hdr.commit(&mut db).unwrap();

    hdr.insert(&db, &b("k"), &b("v4")).unwrap();
    assert_eq!(b("v4"), hdr.get(&db, &b("k")).unwrap().unwrap());
    let root4 = hdr.commit(&mut db).unwrap();

    s.trie_prune(&mut db, &vec![0], &root3, true).unwrap();

    assert!(s.trie_restore(&db, &vec![0], &root0, false).is_err());
    assert!(s.trie_restore(&db, &vec![0], &root1, false).is_err());
    assert!(s.trie_restore(&db, &vec![0], &root2, false).is_err());

    assert!(s.trie_restore(&db, &vec![0], &root0, true).is_err());
    assert!(s.trie_restore(&db, &vec![0], &root1, true).is_err());
    assert!(s.trie_restore(&db, &vec![0], &root2, true).is_err());

    // the registered head is root4, so root3 can be found
    let hdr = s.trie_restore(&db, &vec![0], &root3, false).unwrap();
    assert_eq!(b("v3"), hdr.get(&db, &b("k")).unwrap().unwrap());

    assert!(s.trie_restore(&db, &vec![0], &root4, false).is_err());
    let hdr = s.trie_restore(&db, &vec![0], &root4, true).unwrap();
    assert_eq!(b("v4"), hdr.get(&db, &b("k")).unwrap().unwrap());

    s.trie_swap_head(&mut db, &vec![0], &root3).unwrap();
    let hdr = s.trie_restore(&db, &vec![0], &root3, false).unwrap();
    assert_eq!(b("v3"), hdr.get(&db, &b("k")).unwrap().unwrap());
    assert!(s.trie_restore(&db, &vec![0], &root4, false).is_err());

    s.trie_swap_head(&mut db, &vec![0], &root4).unwrap();
    let hdr = s.trie_restore(&db, &vec![0], &root4, false).unwrap();
    assert_eq!(b("v4"), hdr.get(&db, &b("k")).unwrap().unwrap());

    let hdr = s.trie_restore(&db, &vec![0], &root3, false).unwrap();
    assert_eq!(b("v3"), hdr.get(&db, &b("k")).unwrap().unwrap());
    drop(hdr);

    s.trie_prune(&mut db, &vec![0], &root4, true).unwrap();
    assert!(s.trie_restore(&db, &vec![0], &root3, false).is_err());
    assert!(s.trie_restore(&db, &vec![0], &root3, true).is_err());
}

#[test]
fn trie_db_restore() {
    let mut db = Db::new();
    let s = MptStore::new(&mut db);
    let bk = MptStore::new_backend(&mut db, &vec![0], None).unwrap();
    let mut hdr = s.trie_create(&mut db, &b(""), bk).unwrap();

    hdr.insert(&db, &b("key"), &b("value")).unwrap();
    assert_eq!(b("value"), hdr.get(&db, &b("key")).unwrap().unwrap());

    let root = hdr.commit(&mut db).unwrap();
    assert_eq!(root, hdr.root());

    let hdr_encoded = hdr.encode();
    drop(hdr);

    let mut hdr = MptOnce::decode(&db, &hdr_encoded).unwrap();
    assert_eq!(b("value"), hdr.get(&db, &b("key")).unwrap().unwrap());
    assert_eq!(root, hdr.root());

    hdr.insert(&db, &b("key1"), &b("value1")).unwrap();
    assert_eq!(b("value1"), hdr.get(&db, &b("key1")).unwrap().unwrap());

    let old_hdr_ro = hdr.ro_handle(&db, &root).unwrap();
    assert_eq!(root, old_hdr_ro.root());
    assert_eq!(b("value"), old_hdr_ro.get(&db, &b("key")).unwrap().unwrap());
    assert!(old_hdr_ro.get(&db, &b("key1")).unwrap().is_none());

    let new_root = hdr.commit(&mut db).unwrap();
    assert_eq!(new_root, hdr.root());
    assert_ne!(new_root, root);
    assert_eq!(new_root.len(), 32);
}

#[test]
fn trie_db_iter() {
    let mut db = Db::new();
    let s = MptStore::new(&mut db);
    let bk = MptStore::new_backend(&mut db, &vec![0], None).unwrap();
    let mut hdr = s.trie_create(&mut db, &b("backend_key"), bk).unwrap();
    assert!(hdr.is_empty(&db));

    {
        let samples = (0u8..200).map(|i| (vec![i], vec![i])).collect::<Vec<_>>();
        samples.iter().for_each(|(k, v)| {
            hdr.insert(&db, k, v).unwrap();
        });

        let root = hdr.commit(&mut db).unwrap();

        let ro_hdr = hdr.ro_handle(&db, &root).unwrap();
        let bt = ro_hdr.iter(&db).into_iter().collect::<BTreeMap<_, _>>();

        bt.iter().enumerate().for_each(|(i, (k, v))| {
            assert_eq!(&[i as u8], k.as_slice());
            assert_eq!(k, v);
        });

        let keylist = ro_hdr.key_iter(&db);
        assert_eq!(keylist, bt.keys().cloned().collect::<Vec<_>>());
    }

    {
        let samples = (0u8..200).map(|i| (vec![i], vec![i + 1])).collect::<Vec<_>>();
        samples.iter().for_each(|(k, v)| {
            hdr.insert(&db, k, v).unwrap();
        });

        let root = hdr.commit(&mut db).unwrap();

        let ro_hdr = hdr.ro_handle(&db, &root).unwrap();
        let bt = ro_hdr.iter(&db).into_iter().collect::<BTreeMap<_, _>>();

        bt.iter().enumerate().for_each(|(i, (k, v))| {
            assert_eq!(&[i as u8], k.as_slice());
            assert_eq!(&[k[0] + 1], v.as_slice());
        });

        let keylist = ro_hdr.key_iter(&db);
        assert_eq!(keylist, bt.keys().cloned().collect::<Vec<_>>());
        assert!(!hdr.is_empty(&db));
    }

    assert!(!hdr.is_empty(&db));
    hdr.clear(&db).unwrap();
    assert!(hdr.is_empty(&db));
}

#[test]
fn trie_create_refuses_duplicate_key() {
    let mut db = Db::new();
    let s = MptStore::new(&mut db);
    let bk1 = MptStore::new_backend(&mut db, &vec![7], None).unwrap();
    let bk2 = MptStore::new_backend(&mut db, &vec![8], None).unwrap();
    s.trie_create(&mut db, &b("world"), bk1).unwrap();
    assert!(s.trie_create(&mut db, &b("world"), bk2).is_err());
}

#[test]
fn trie_commit_refuses_known_root() {
    let mut db = Db::new();
    let s = MptStore::new(&mut db);
    let bk = MptStore::new_backend(&mut db, &vec![9], None).unwrap();
    let mut hdr = s.trie_create(&mut db, &b("w"), bk).unwrap();
    hdr.insert(&db, &b("k"), &b("v")).unwrap();
    hdr.commit(&mut db).unwrap();
    // same content, same root: registering it again is refused
    assert!(hdr.commit(&mut db).is_err());
}

#[test]
fn trie_decode_refuses_short_root() {
    let mut db = Db::new();
    let s = MptStore::new(&mut db);
    let bk = MptStore::new_backend(&mut db, &vec![3], None).unwrap();
    let hdr = s.trie_create(&mut db, &b("x"), bk).unwrap();
    let enc = hdr.encode();
    assert!(MptOnce::decode(&db, &enc).is_ok());
    assert!(MptOnce::decode(&db, &b("oops")).is_err());
}
