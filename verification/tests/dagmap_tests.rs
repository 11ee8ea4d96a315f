use mmdb::dagmap::{DagMap, DagMapRaw};
use mmdb::dagmap_rawkey::DagMapRawKey;
use mmdb::engine::Db;
use mmdb::ende::ValueEnDe;

fn b(s: &str) -> Vec<u8> {
    s.as_bytes().to_vec()
}

fn s(x: &str) -> Vec<u8> {
    x.as_bytes().to_vec()
}

#[test]
fn mod_dagmap_functions() {
    let mut db = Db::new();

    let i0 = DagMap::new(&mut db, vec![0], None).unwrap();
    i0.insert(&mut db, &b("k0"), &b("v0"));
    assert_eq!(i0.get(&db, &b("k0")).unwrap().as_slice(), "v0".as_bytes());
    assert!(i0.get(&db, &b("k1")).is_none());

    let i1 = DagMap::new(&mut db, vec![1], Some(&i0)).unwrap();
    i1.insert(&mut db, &b("k1"), &b("v1"));
    assert_eq!(i1.get(&db, &b("k1")).unwrap().as_slice(), "v1".as_bytes());
    assert_eq!(i1.get(&db, &b("k0")).unwrap().as_slice(), "v0".as_bytes());

    // Child ID exist
    assert!(DagMap::new(&mut db, vec![1], Some(&i0)).is_err());

    let i2 = DagMap::new(&mut db, vec![2], Some(&i1)).unwrap();
    i2.insert(&mut db, &b("k2"), &b("v2"));
    assert_eq!(i2.get(&db, &b("k2")).unwrap().as_slice(), "v2".as_bytes());
    assert_eq!(i2.get(&db, &b("k1")).unwrap().as_slice(), "v1".as_bytes());
    assert_eq!(i2.get(&db, &b("k0")).unwrap().as_slice(), "v0".as_bytes());
    i2.insert(&mut db, &b("k2"), &b("v2x"));
    assert_eq!(i2.get(&db, &b("k2")).unwrap().as_slice(), "v2x".as_bytes());
    assert_eq!(i2.get(&db, &b("k1")).unwrap().as_slice(), "v1".as_bytes());
    assert_eq!(i2.get(&db, &b("k0")).unwrap().as_slice(), "v0".as_bytes());
    i2.insert(&mut db, &b("k1"), &b("v1x"));
    assert_eq!(i2.get(&db, &b("k2")).unwrap().as_slice(), "v2x".as_bytes());
    assert_eq!(i2.get(&db, &b("k1")).unwrap().as_slice(), "v1x".as_bytes());
    assert_eq!(i2.get(&db, &b("k0")).unwrap().as_slice(), "v0".as_bytes());
    i2.insert(&mut db, &b("k0"), &b("v0x"));
    assert_eq!(i2.get(&db, &b("k2")).unwrap().as_slice(), "v2x".as_bytes());
    assert_eq!(i2.get(&db, &b("k1")).unwrap().as_slice(), "v1x".as_bytes());
    assert_eq!(i2.get(&db, &b("k0")).unwrap().as_slice(), "v0x".as_bytes());

    assert!(i1.get(&db, &b("k2")).is_none());
    assert_eq!(i1.get(&db, &b("k1")).unwrap().as_slice(), "v1".as_bytes());
    assert_eq!(i1.get(&db, &b("k0")).unwrap().as_slice(), "v0".as_bytes());

    assert!(i0.get(&db, &b("k2")).is_none());
    assert!(i0.get(&db, &b("k1")).is_none());
    assert_eq!(i0.get(&db, &b("k0")).unwrap().as_slice(), "v0".as_bytes());

    let mut head = i2.prune(&mut db);

    assert_eq!(head.get(&db, &b("k2")).unwrap().as_slice(), "v2x".as_bytes());
    assert_eq!(head.get(&db, &b("k1")).unwrap().as_slice(), "v1x".as_bytes());
    assert_eq!(head.get(&db, &b("k0")).unwrap().as_slice(), "v0x".as_bytes());

    assert_eq!(i1.get(&db, &b("k2")).unwrap().as_slice(), "v2x".as_bytes());
    assert_eq!(i1.get(&db, &b("k1")).unwrap().as_slice(), "v1x".as_bytes());
    assert_eq!(i1.get(&db, &b("k0")).unwrap().as_slice(), "v0x".as_bytes());

    assert_eq!(i0.get(&db, &b("k2")).unwrap().as_slice(), "v2x".as_bytes());
    assert_eq!(i0.get(&db, &b("k1")).unwrap().as_slice(), "v1x".as_bytes());
    assert_eq!(i0.get(&db, &b("k0")).unwrap().as_slice(), "v0x".as_bytes());

    // prune with deep stack
    for i in 10u8..=255 {
        head.insert(&mut db, &i.to_be_bytes().to_vec(), &i.to_be_bytes().to_vec());
        let parent = head;
        head = DagMap::new(&mut db, vec![i], Some(&parent)).unwrap();
    }

    let head = head.prune(&mut db);
    assert!(!head.has_parent(&db));
    assert!(head.children_is_empty(&db));

    for i in 10u8..=255 {
        assert_eq!(
            head.get(&db, &i.to_be_bytes().to_vec()).unwrap().as_slice(),
            i.to_be_bytes()
        );
    }
}

#[test]
fn test_dagmap_functions() {
    let mut db = Db::new();

    let mut i0 = DagMapRaw::new(&mut db, vec![0], None).unwrap();
    i0.insert(&db, &b("k0"), &b("v0"));
    assert_eq!(i0.get(&db, &b("k0")).unwrap().as_slice(), "v0".as_bytes());
    assert!(i0.get(&db, &b("k1")).is_none());
    i0.commit(&mut db);

    let i1 = DagMapRaw::new(&mut db, vec![1], Some(&i0)).unwrap();
    i1.insert_direct(&mut db, &b("k1"), &b("v1"));
    assert_eq!(i1.get(&db, &b("k1")).unwrap().as_slice(), "v1".as_bytes());
    assert_eq!(i1.get(&db, &b("k0")).unwrap().as_slice(), "v0".as_bytes());
    // need NOT commit when using insert_direct

    // Child ID exist
    assert!(DagMapRaw::new(&mut db, vec![1], Some(&i0)).is_err());

    let mut i2 = DagMapRaw::new(&mut db, vec![2], Some(&i1)).unwrap();
    i2.insert(&db, &b("k2"), &b("v2"));
    assert_eq!(i2.get(&db, &b("k2")).unwrap().as_slice(), "v2".as_bytes());
    assert_eq!(i2.get(&db, &b("k1")).unwrap().as_slice(), "v1".as_bytes());
    assert_eq!(i2.get(&db, &b("k0")).unwrap().as_slice(), "v0".as_bytes());
    i2.insert(&db, &b("k2"), &b("v2x"));
    assert_eq!(i2.get(&db, &b("k2")).unwrap().as_slice(), "v2x".as_bytes());
    assert_eq!(i2.get(&db, &b("k1")).unwrap().as_slice(), "v1".as_bytes());
    assert_eq!(i2.get(&db, &b("k0")).unwrap().as_slice(), "v0".as_bytes());
    i2.insert(&db, &b("k1"), &b("v1x"));
    assert_eq!(i2.get(&db, &b("k2")).unwrap().as_slice(), "v2x".as_bytes());
    assert_eq!(i2.get(&db, &b("k1")).unwrap().as_slice(), "v1x".as_bytes());
    assert_eq!(i2.get(&db, &b("k0")).unwrap().as_slice(), "v0".as_bytes());
    i2.insert(&db, &b("k0"), &b("v0x"));
    assert_eq!(i2.get(&db, &b("k2")).unwrap().as_slice(), "v2x".as_bytes());
    assert_eq!(i2.get(&db, &b("k1")).unwrap().as_slice(), "v1x".as_bytes());
    assert_eq!(i2.get(&db, &b("k0")).unwrap().as_slice(), "v0x".as_bytes());

    assert!(i1.get(&db, &b("k2")).is_none());
    assert_eq!(i1.get(&db, &b("k1")).unwrap().as_slice(), "v1".as_bytes());
    assert_eq!(i1.get(&db, &b("k0")).unwrap().as_slice(), "v0".as_bytes());

    assert!(i0.get(&db, &b("k2")).is_none());
    assert!(i0.get(&db, &b("k1")).is_none());
    assert_eq!(i0.get(&db, &b("k0")).unwrap().as_slice(), "v0".as_bytes());
    i2.commit(&mut db);

    let mut head = i2.prune(&mut db).unwrap();

    assert_eq!(head.get(&db, &b("k2")).unwrap().as_slice(), "v2x".as_bytes());
    assert_eq!(head.get(&db, &b("k1")).unwrap().as_slice(), "v1x".as_bytes());
    assert_eq!(head.get(&db, &b("k0")).unwrap().as_slice(), "v0x".as_bytes());

    assert_eq!(i1.get(&db, &b("k2")).unwrap().as_slice(), "v2x".as_bytes());
    assert_eq!(i1.get(&db, &b("k1")).unwrap().as_slice(), "v1x".as_bytes());
    assert_eq!(i1.get(&db, &b("k0")).unwrap().as_slice(), "v0x".as_bytes());

    assert_eq!(i0.get(&db, &b("k2")).unwrap().as_slice(), "v2x".as_bytes());
    assert_eq!(i0.get(&db, &b("k1")).unwrap().as_slice(), "v1x".as_bytes());
    assert_eq!(i0.get(&db, &b("k0")).unwrap().as_slice(), "v0x".as_bytes());

    // prune with deep stack
    for i in 10u8..=255 {
        head.insert(&db, &i.to_be_bytes().to_vec(), &i.to_be_bytes().to_vec());
        head.commit(&mut db);
        let parent = head;
        head = DagMapRaw::new(&mut db, vec![i], Some(&parent)).unwrap();
    }

    let mut head = head.prune(&mut db).unwrap();
    assert!(!head.has_parent(&db));
    assert!(head.children_is_empty(&db));

    for i in 10u8..=255 {
        assert_eq!(
            head.get(&db, &i.to_be_bytes().to_vec()).unwrap().as_slice(),
            i.to_be_bytes()
        );
    }

    for i in 0u8..=255 {
        head.remove(&db, &i.to_be_bytes().to_vec());
        assert!(head.get(&db, &i.to_be_bytes().to_vec()).is_none());
    }
}

#[test]
fn dagmap_rawkey_functions() {
    let mut db = Db::new();

    let mut i0 = DagMapRawKey::<Vec<u8>>::new(&mut db, vec![0], None).unwrap();
    i0.insert(&db, &b("k0"), &s("v0"));
    assert_eq!(i0.get(&db, &b("k0")).unwrap(), s("v0"));
    assert!(i0.get(&db, &b("k1")).is_none());
    i0.commit(&mut db);
    let i0_raw = i0.into_inner();

    let i1 = DagMapRawKey::<Vec<u8>>::new(&mut db, vec![1], Some(&i0_raw)).unwrap();
    i1.insert_direct(&mut db, &b("k1"), &s("v1"));
    assert_eq!(i1.get(&db, &b("k1")).unwrap(), s("v1"));
    assert_eq!(i1.get(&db, &b("k0")).unwrap(), s("v0"));
    // need NOT commit when using insert_direct
    let i1_raw = i1.into_inner();

    // Child ID exist
    assert!(DagMapRawKey::<Vec<u8>>::new(&mut db, vec![1], Some(&i0_raw)).is_err());

    let mut i2 = DagMapRawKey::<Vec<u8>>::new(&mut db, vec![2], Some(&i1_raw)).unwrap();
    i2.insert(&db, &b("k2"), &s("v2"));
    assert_eq!(i2.get(&db, &b("k2")).unwrap(), s("v2"));
    assert_eq!(i2.get(&db, &b("k1")).unwrap(), s("v1"));
    assert_eq!(i2.get(&db, &b("k0")).unwrap(), s("v0"));
    i2.insert(&db, &b("k2"), &s("v2x"));
    assert_eq!(i2.get(&db, &b("k2")).unwrap(), s("v2x"));
    assert_eq!(i2.get(&db, &b("k1")).unwrap(), s("v1"));
    assert_eq!(i2.get(&db, &b("k0")).unwrap(), s("v0"));
    i2.insert(&db, &b("k1"), &s("v1x"));
    assert_eq!(i2.get(&db, &b("k2")).unwrap(), s("v2x"));
    assert_eq!(i2.get(&db, &b("k1")).unwrap(), s("v1x"));
    assert_eq!(i2.get(&db, &b("k0")).unwrap(), s("v0"));
    i2.insert(&db, &b("k0"), &s("v0x"));
    assert_eq!(i2.get(&db, &b("k2")).unwrap(), s("v2x"));
    assert_eq!(i2.get(&db, &b("k1")).unwrap(), s("v1x"));
    assert_eq!(i2.get(&db, &b("k0")).unwrap(), s("v0x"));

    assert!(i1_raw.get(&db, &b("k2")).is_none());
    assert_eq!(i1_raw.get(&db, &b("k1")).unwrap(), s("v1").encode());
    assert_eq!(i1_raw.get(&db, &b("k0")).unwrap(), s("v0").encode());

    assert!(i0_raw.get(&db, &b("k2")).is_none());
    assert!(i0_raw.get(&db, &b("k1")).is_none());
    assert_eq!(i0_raw.get(&db, &b("k0")).unwrap(), s("v0").encode());
    i2.commit(&mut db);

    let mut head = i2.prune(&mut db).unwrap();

    assert_eq!(head.get(&db, &b("k2")).unwrap(), s("v2x"));
    assert_eq!(head.get(&db, &b("k1")).unwrap(), s("v1x"));
    assert_eq!(head.get(&db, &b("k0")).unwrap(), s("v0x"));

    assert_eq!(i1_raw.get(&db, &b("k2")).unwrap(), s("v2x").encode());
    assert_eq!(i1_raw.get(&db, &b("k1")).unwrap(), s("v1x").encode());
    assert_eq!(i1_raw.get(&db, &b("k0")).unwrap(), s("v0x").encode());

    assert_eq!(i0_raw.get(&db, &b("k2")).unwrap(), s("v2x").encode());
    assert_eq!(i0_raw.get(&db, &b("k1")).unwrap(), s("v1x").encode());
    assert_eq!(i0_raw.get(&db, &b("k0")).unwrap(), s("v0x").encode());

    // prune with deep stack
    for i in 10u8..=255 {
        head.insert(&db, &i.to_be_bytes().to_vec(), &i.to_be_bytes().to_vec());
        head.commit(&mut db);
        let parent = head.into_inner();
        head = DagMapRawKey::<Vec<u8>>::new(&mut db, vec![i], Some(&parent)).unwrap();
    }

    let mut head = head.prune(&mut db).unwrap();

    for i in 10u8..=255 {
        assert_eq!(head.get(&db, &i.to_be_bytes().to_vec()).unwrap(), i.to_be_bytes().to_vec());
    }

    for i in 0u8..=255 {
        head.remove(&db, &i.to_be_bytes().to_vec());
        assert!(head.get(&db, &i.to_be_bytes().to_vec()).is_none());
    }
}

#[test]
fn prune_refuses_dirty_cache() {
    let mut db = Db::new();
    let mut n = DagMapRaw::new(&mut db, vec![42], None).unwrap();
    n.insert(&db, &b("k"), &b("v"));
    // the staged write was never committed
    let n = n.prune(&mut db);
    assert!(n.is_err());
}

#[test]
fn destroy_leaves_nothing() {
    let mut db = Db::new();
    let p = DagMapRaw::new(&mut db, vec![1], None).unwrap();
    let mut c = DagMapRaw::new(&mut db, vec![2], Some(&p)).unwrap();
    c.insert_direct(&mut db, &b("k"), &b("v"));
    c.destroy(&mut db);
    assert!(c.is_dead(&db));
    assert!(c.get(&db, &b("k")).is_none());
}

#[test]
fn tombstone_shadows_ancestor_binding() {
    let mut db = Db::new();
    let parent = DagMap::new(&mut db, vec![1], None).unwrap();
    parent.insert(&mut db, &b("k"), &b("v0"));
    let child = DagMap::new(&mut db, vec![2], Some(&parent)).unwrap();
    assert_eq!(child.get(&db, &b("k")).unwrap(), b("v0"));
    child.remove(&mut db, &b("k"));
    assert!(child.get(&db, &b("k")).is_none());
    assert_eq!(parent.get(&db, &b("k")).unwrap(), b("v0"));
}
