use tiny_bitcask::bitcask::{BitCaskHandle, Opts};
use tiny_bitcask::dirmodel::Dir;

fn open_empty(limit: u32) -> BitCaskHandle {
    BitCaskHandle::open(Dir::new(), Opts::new(limit)).unwrap()
}

#[test]
fn test_open() {
    let db = BitCaskHandle::open(Dir::new(), Opts::default());
    assert!(db.is_ok());
    let db = db.unwrap();
    for x in db.list_keys() {
        println!("{:?}", String::from_utf8(x).unwrap());
    }
}

#[test]
fn test_put() {
    let mut db = open_empty(0);
    for i in 0..10 {
        let key = format!("hello#{i}").into_bytes();
        let world = format!("world#{i}").into_bytes();
        db.put(&key, &world).unwrap();
    }
    for i in 0..10 {
        let key = format!("hello#{i}").into_bytes();
        let value = db.get(&key);
        assert_eq!(value.unwrap(), format!("world#{i}").as_bytes().to_vec());
    }
}

#[test]
fn test_delete() {
    let opts = Opts::new(1024);
    let dir = {
        let mut db = BitCaskHandle::open(Dir::new(), opts).unwrap();
        db.delete(&b"foo".to_vec()).unwrap();
        db.close().unwrap();
        db.dir
    };
    let db = BitCaskHandle::open(dir, opts).unwrap();
    let hello = db.get(&b"foo".to_vec());
    assert!(hello.is_none())
}

#[test]
fn test_file_limit() {
    let mut db = open_empty(128);
    for i in 0..10 {
        let key = format!("hello#{i}").into_bytes();
        let world = format!("world#{i}").into_bytes();
        db.put(&key, &world).unwrap();
    }
}

#[test]
fn test_get() {
    let mut db = open_empty(128);
    for i in 0..10 {
        let key = format!("hello#{i}").into_bytes();
        let world = format!("world#{i}").into_bytes();
        db.put(&key, &world).unwrap();
    }
    let res = db.get(&b"hello#1".to_vec()).unwrap();
    println!("res: {:?}", String::from_utf8(res.clone()).unwrap());
    assert_eq!(res, b"world#1".to_vec());
}

#[test]
fn test_merge() {
    let opts = Opts::new(20);
    let mut db = BitCaskHandle::open(Dir::new(), opts).unwrap();
    for i in 0..10 {
        let key = format!("hello#{i}").into_bytes();
        let world = format!("world#{i}").into_bytes();
        db.put(&key, &world).unwrap();
    }
    let res = db.merge();
    assert!(res.is_ok());
}

#[test]
fn empty_open_makes_no_files() {
    let db = open_empty(4096);
    assert!(db.list_keys().is_empty());
    assert_eq!(db.dir.file_count(), 0);
}

#[test]
fn rotation_splits_segments() {
    let mut db = open_empty(128);
    for i in 0..10 {
        let key = format!("hello#{i}").into_bytes();
        let world = format!("world#{i}").into_bytes();
        db.put(&key, &world).unwrap();
    }
    assert!(db.dir.file_count() >= 2);
    for i in 0..10 {
        let key = format!("hello#{i}").into_bytes();
        assert_eq!(db.get(&key).unwrap(), format!("world#{i}").into_bytes());
    }
}

#[test]
fn delete_persists_across_reopen() {
    let opts = Opts::new(1024);
    let mut db = BitCaskHandle::open(Dir::new(), opts).unwrap();
    db.put(&b"foo".to_vec(), &b"bar".to_vec()).unwrap();
    db.close().unwrap();
    let mut db = BitCaskHandle::open(db.dir, opts).unwrap();
    assert!(db.delete(&b"foo".to_vec()).unwrap());
    db.close().unwrap();
    let db = BitCaskHandle::open(db.dir, opts).unwrap();
    assert!(db.get(&b"foo".to_vec()).is_none());
}

#[test]
fn merge_reclaims_segments() {
    let mut db = open_empty(20);
    for i in 0..10 {
        let key = format!("hello#{i}").into_bytes();
        let world = format!("world#{i}").into_bytes();
        db.put(&key, &world).unwrap();
    }
    let before = db.dir.file_count();
    assert!(before > 2);
    db.merge().unwrap();
    // one merged sealed segment plus the active one
    assert_eq!(db.dir.file_count(), 2);
    for i in 0..10 {
        let key = format!("hello#{i}").into_bytes();
        assert_eq!(db.get(&key).unwrap(), format!("world#{i}").into_bytes());
    }
}

#[test]
fn merge_twice_is_stable() {
    let mut db = open_empty(20);
    for i in 0..10 {
        let key = format!("hello#{i}").into_bytes();
        let world = format!("world#{i}").into_bytes();
        db.put(&key, &world).unwrap();
    }
    db.merge().unwrap();
    let keys1 = db.list_keys();
    let count1 = db.dir.file_count();
    db.merge().unwrap();
    assert_eq!(db.list_keys(), keys1);
    assert_eq!(db.dir.file_count(), count1);
    assert!(count1 <= 2);
    for i in 0..10 {
        let key = format!("hello#{i}").into_bytes();
        assert_eq!(db.get(&key).unwrap(), format!("world#{i}").into_bytes());
    }
}

#[test]
fn hint_file_only_accelerates_recovery() {
    let opts = Opts::new(20);
    let mut db = BitCaskHandle::open(Dir::new(), opts).unwrap();
    for i in 0..10 {
        let key = format!("hello#{i}").into_bytes();
        let world = format!("world#{i}").into_bytes();
        db.put(&key, &world).unwrap();
    }
    db.merge().unwrap();
    db.close().unwrap();
    let with_hint = db.dir.clone();
    let mut without_hint = db.dir.clone();
    assert!(without_hint.files[0].hint.is_some());
    without_hint.files[0].hint = None;
    let db1 = BitCaskHandle::open(with_hint, opts).unwrap();
    let db2 = BitCaskHandle::open(without_hint, opts).unwrap();
    assert_eq!(db1.list_keys(), db2.list_keys());
    for k in db1.list_keys() {
        assert_eq!(db1.get(&k), db2.get(&k));
    }
}

#[test]
fn reopen_keeps_last_values() {
    let opts = Opts::new(64);
    let mut db = BitCaskHandle::open(Dir::new(), opts).unwrap();
    db.put(&b"a".to_vec(), &b"1".to_vec()).unwrap();
    db.put(&b"a".to_vec(), &b"2".to_vec()).unwrap();
    db.put(&b"b".to_vec(), &b"3".to_vec()).unwrap();
    db.delete(&b"b".to_vec()).unwrap();
    db.close().unwrap();
    let db = BitCaskHandle::open(db.dir, opts).unwrap();
    assert_eq!(db.get(&b"a".to_vec()).unwrap(), b"2".to_vec());
    assert!(db.get(&b"b".to_vec()).is_none());
    assert_eq!(db.list_keys(), vec![b"a".to_vec()]);
}

#[test]
fn list_keys_is_sorted_and_live() {
    let mut db = open_empty(4096);
    db.put(&b"zebra".to_vec(), &b"1".to_vec()).unwrap();
    db.put(&b"apple".to_vec(), &b"2".to_vec()).unwrap();
    db.put(&b"mango".to_vec(), &b"3".to_vec()).unwrap();
    db.delete(&b"mango".to_vec()).unwrap();
    assert_eq!(db.list_keys(), vec![b"apple".to_vec(), b"zebra".to_vec()]);
}
