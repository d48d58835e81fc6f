use miniredis::db::RedisDB;

#[test]
fn new_store_is_empty() {
    let db = RedisDB::new();
    assert_eq!(db.get(b"k"), None);
    let db2 = RedisDB::default();
    assert_eq!(db2.get(b""), None);
}

#[test]
fn set_then_get_returns_exact_bytes() {
    let mut db = RedisDB::new();
    let value = vec![0u8, 255, 13, 10, 0, 7];
    db.set(b"bin\x00key".to_vec(), value.clone());
    assert_eq!(db.get(b"bin\x00key"), Some(&value));
    assert_eq!(db.get(b"bin"), None);
}

#[test]
fn set_overwrites() {
    let mut db = RedisDB::new();
    db.set(b"k".to_vec(), b"one".to_vec());
    db.set(b"k".to_vec(), b"two".to_vec());
    assert_eq!(db.get(b"k"), Some(&b"two".to_vec()));
    assert_eq!(db.del(b"k"), 1);
    assert_eq!(db.get(b"k"), None);
}

#[test]
fn empty_key_and_value() {
    let mut db = RedisDB::new();
    db.set(Vec::new(), Vec::new());
    assert_eq!(db.get(b""), Some(&Vec::new()));
}

#[test]
fn flushall_then_get_is_nil() {
    let mut db = RedisDB::new();
    for i in 0..50u8 {
        db.set(vec![i], vec![i, i]);
    }
    assert_eq!(db.get(&[7]), Some(&vec![7, 7]));
    db.flushall();
    for i in 0..50u8 {
        assert_eq!(db.get(&[i]), None);
    }
}

#[test]
fn del_counts_present_keys() {
    let mut db = RedisDB::new();
    assert_eq!(db.del(b"absent"), 0);
    db.set(b"a".to_vec(), b"1".to_vec());
    db.set(b"b".to_vec(), b"2".to_vec());
    db.set(b"c".to_vec(), b"3".to_vec());
    let keys: [&[u8]; 4] = [b"a", b"x", b"c", b"y"];
    let removed: i64 = keys.iter().map(|k| db.del(k)).sum();
    assert_eq!(removed, 2);
    assert_eq!(db.get(b"a"), None);
    assert_eq!(db.get(b"c"), None);
    assert_eq!(db.get(b"b"), Some(&b"2".to_vec()));
}

#[test]
fn many_keys_survive_each_other() {
    let mut db = RedisDB::new();
    for i in 0..300u32 {
        db.set(i.to_le_bytes().to_vec(), (i * 3).to_le_bytes().to_vec());
    }
    for i in (0..300u32).step_by(2) {
        assert_eq!(db.del(&i.to_le_bytes()), 1);
    }
    for i in 0..300u32 {
        let expected = if i % 2 == 0 { None } else { Some((i * 3).to_le_bytes().to_vec()) };
        assert_eq!(db.get(&i.to_le_bytes()).cloned(), expected);
    }
}
