use hibp_index::keys::{NoPayload, SHA1};
use hibp_index::hashlist::{TypedListReader, TypedListWriter};
use hibp_index::errors::{HashListCreateError, HashListOpenError};
use hibp_index::prefix::Prefix;
use hibp_index::read_at::MemFile;

fn key(b0: u8, b1: u8, last: u8) -> SHA1 {
    let mut k = [0u8; 20];
    k[0] = b0;
    k[1] = b1;
    k[19] = last;
    SHA1(k)
}

#[test]
fn hash_list_round_trip() {
    let a = key(0xab, 0xc1, 1);
    let b = key(0xab, 0xc7, 2);
    let prefix = Prefix::new_from_key(&a.0, 12);
    let mut w = TypedListWriter::<SHA1, NoPayload>::create("shard", 1_600_000_000, prefix).unwrap();
    let mut file = w.take_output();
    w.add(&a, &NoPayload);
    w.add(&b, &NoPayload);
    file.extend(w.take_output());
    let mut r = TypedListReader::<SHA1, NoPayload, MemFile>::open(MemFile { data: file.clone() }).unwrap();
    assert_eq!(r.description(), "shard");
    assert_eq!(r.mtime(), 1_600_000_000);
    assert_eq!(r.prefix().bits(), 12);
    let e1 = r.next_entry().unwrap().unwrap();
    assert_eq!(e1.0, a);
    let e2 = r.next_entry().unwrap().unwrap();
    assert_eq!(e2.0, b);
    assert!(r.next_entry().is_none());
    let mut r = TypedListReader::<SHA1, NoPayload, MemFile>::open(MemFile { data: file.clone() }).unwrap();
    assert!(r.lookup(&b).unwrap().is_some());
    let mut r = TypedListReader::<SHA1, NoPayload, MemFile>::open(MemFile { data: file }).unwrap();
    assert!(r.lookup(&key(0xab, 0xc5, 0)).unwrap().is_none());
}

#[test]
fn hash_list_errors() {
    let a = key(0xab, 0xc1, 1);
    let prefix = Prefix::new_from_key(&a.0, 12);
    let r = TypedListWriter::<SHA1, NoPayload>::create("two\nlines", 0, prefix);
    assert!(matches!(r, Err(HashListCreateError::InvalidDescription)));
    let r = TypedListReader::<SHA1, NoPayload, MemFile>::open(MemFile { data: b"hash-list-v1\nSHA-1\nx\n".to_vec() });
    assert!(matches!(r, Err(HashListOpenError::InvalidHeader)));
    let mut bad = b"hash-list-v0\nSHA-1\nx\n".to_vec();
    bad.extend_from_slice(&i64::MAX.to_be_bytes());
    bad.extend_from_slice(&[20, 0, 8, 0xab]);
    let r = TypedListReader::<SHA1, NoPayload, MemFile>::open(MemFile { data: bad });
    assert!(matches!(r, Err(HashListOpenError::InvalidMtime)));
}

#[test]
fn hash_list_refuses_foreign_key_type() {
    let mut data = b"hash-list-v0\nNTLM\nx\n".to_vec();
    data.extend_from_slice(&0i64.to_be_bytes());
    data.extend_from_slice(&[16, 0, 8, 0xab]);
    let r = TypedListReader::<SHA1, NoPayload, MemFile>::open(MemFile { data });
    assert!(matches!(r, Err(HashListOpenError::InvalidKeyLength)));
    let mut data = b"hash-list-v0\nbad name\nx\n".to_vec();
    data.extend_from_slice(&0i64.to_be_bytes());
    data.extend_from_slice(&[20, 0, 8, 0xab]);
    let r = TypedListReader::<SHA1, NoPayload, MemFile>::open(MemFile { data });
    assert!(matches!(r, Err(HashListOpenError::KeyTypeError(_))));
    let r = TypedListReader::<SHA1, NoPayload, MemFile>::open(MemFile { data: b"hash-list-v0\nSHA-1\nx\n".to_vec() });
    assert!(matches!(r, Err(HashListOpenError::IOError(_))));
}

#[test]
fn hash_list_layout_is_exact() {
    let k = key(0xab, 0xc1, 1);
    let prefix = Prefix::new_from_key(&k.0, 12);
    let mut w = TypedListWriter::<SHA1, NoPayload>::create("d", -1, prefix).unwrap();
    let h = w.take_output();
    let mut expected = b"hash-list-v0\nSHA-1\nd\n".to_vec();
    expected.extend_from_slice(&(-1i64).to_be_bytes());
    expected.extend_from_slice(&[20, 0, 12, 0xab, 0xc0]);
    assert_eq!(h, expected);
    w.add(&k, &NoPayload);
    let rec = w.take_output();
    let mut want = vec![0x01u8];
    want.extend_from_slice(&k.0[2..]);
    assert_eq!(rec, want);
}
