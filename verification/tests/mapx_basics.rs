use mmdb::engine::Db;
use mmdb::ende::ValueEnDe;
use mmdb::error::Error;
use mmdb::kv::KvBuf;
use mmdb::mapx::Mapx;

fn b(s: &str) -> Vec<u8> {
    s.as_bytes().to_vec()
}

#[test]
fn mapx_len_matches_entry_count() {
    let mut db = Db::new();
    let m = Mapx::new(&mut db);
    assert_eq!(m.len(&db), 0);
    m.insert(&mut db, &b("a"), &b("1"));
    m.insert(&mut db, &b("b"), &b("2"));
    m.insert(&mut db, &b("a"), &b("3"));
    assert_eq!(m.len(&db), 2);
    assert_eq!(m.entries(&db).len(), 2);
    m.remove(&mut db, &b("a"));
    assert_eq!(m.len(&db), 1);
    assert_eq!(m.entries(&db).len(), 1);
    m.remove(&mut db, &b("zz"));
    assert_eq!(m.len(&db), 1);
    m.clear(&mut db);
    assert_eq!(m.len(&db), 0);
    assert!(m.is_empty(&db));
}

#[test]
fn mapx_prefix_isolation() {
    let mut db = Db::new();
    let a = Mapx::new(&mut db);
    let c = Mapx::new(&mut db);
    a.insert(&mut db, &b("k"), &b("va"));
    c.insert(&mut db, &b("k"), &b("vc"));
    a.insert(&mut db, &b("only-a"), &b("x"));
    a.remove(&mut db, &b("k"));
    a.clear(&mut db);
    assert_eq!(c.get(&db, &b("k")).unwrap(), b("vc"));
    assert_eq!(c.len(&db), 1);
    assert!(a.get(&db, &b("k")).is_none());
}

#[test]
fn mapx_prefix_roundtrip_aliases() {
    let mut db = Db::new();
    let m = Mapx::new(&mut db);
    m.insert(&mut db, &b("k"), &b("v"));
    let sl = m.as_prefix_slice();
    assert_eq!(sl.len(), 8);
    let m2 = Mapx::from_prefix_slice(&sl).unwrap();
    assert!(m.is_the_same_instance(&m2));
    assert_eq!(m2.get(&db, &b("k")).unwrap(), b("v"));
    m2.insert(&mut db, &b("k2"), &b("v2"));
    assert_eq!(m.get(&db, &b("k2")).unwrap(), b("v2"));
    match Mapx::from_prefix_slice(&b("short")) {
        Ok(_) => panic!("a five-byte prefix must be refused"),
        Err(e) => assert_eq!(e, Error::ShapeMismatch),
    }
}

#[test]
fn mapx_shadow_and_clone() {
    let mut db = Db::new();
    let m = Mapx::new(&mut db);
    m.insert(&mut db, &b("k"), &b("v"));
    let sh = m.shadow();
    assert!(sh.is_the_same_instance(&m));
    sh.insert(&mut db, &b("k2"), &b("v2"));
    assert_eq!(m.get(&db, &b("k2")).unwrap(), b("v2"));
    let cp = m.deep_clone(&mut db);
    assert!(!cp.is_the_same_instance(&m));
    assert!(cp.content_eq(&m, &db));
    cp.insert(&mut db, &b("k3"), &b("v3"));
    assert!(m.get(&db, &b("k3")).is_none());
    assert!(!cp.content_eq(&m, &db));
}

#[test]
fn value_codec_roundtrips() {
    let v8: u8 = 250;
    assert_eq!(u8::decode(&v8.encode()).unwrap(), 250);
    let v32: u32 = 0xdead_beef;
    assert_eq!(u32::decode(&v32.encode()).unwrap(), 0xdead_beef);
    let v64: u64 = 0x0102_0304_0506_0708;
    assert_eq!(u64::decode(&v64.encode()).unwrap(), v64);
    let raw: Vec<u8> = vec![1, 2, 3];
    assert_eq!(<Vec<u8>>::decode(&raw.encode()).unwrap(), vec![1, 2, 3]);
    assert_eq!(u32::decode(&vec![1, 2, 3]), Err(Error::ShapeMismatch));
    assert_eq!(u64::decode(&vec![1]), Err(Error::ShapeMismatch));
    assert_eq!(u8::decode(&vec![]), Err(Error::ShapeMismatch));
}

#[test]
fn entry_framing_roundtrip() {
    let mut kb = KvBuf::new();
    kb.set(b("alpha"), b("one"));
    kb.set(b("beta"), b("two"));
    let enc = mmdb::ende::encode_entries(&kb);
    let back = mmdb::mpt::decode_entries(&enc).unwrap();
    assert_eq!(back.get(&b("alpha")).unwrap(), b("one"));
    assert_eq!(back.get(&b("beta")).unwrap(), b("two"));
    assert!(back.get(&b("gamma")).is_none());
    // not a framed stream at all
    assert!(mmdb::mpt::decode_entries(&b("junk")).is_err());
}

#[test]
fn mapx_range_selects_by_byte_order() {
    let mut db = Db::new();
    let m = Mapx::new(&mut db);
    m.insert(&mut db, &b("apple"), &b("1"));
    m.insert(&mut db, &b("banana"), &b("2"));
    m.insert(&mut db, &b("cherry"), &b("3"));
    m.insert(&mut db, &b("date"), &b("4"));
    let mid = m.range(&db, &b("b"), &b("d"));
    assert_eq!(mid.len(), 2);
    assert!(mid.iter().any(|p| p.0 == b("banana") && p.1 == b("2")));
    assert!(mid.iter().any(|p| p.0 == b("cherry") && p.1 == b("3")));
    let all = m.range(&db, &b(""), &b("zzz"));
    assert_eq!(all.len(), 4);
    let none = m.range(&db, &b("x"), &b("y"));
    assert_eq!(none.len(), 0);
}
