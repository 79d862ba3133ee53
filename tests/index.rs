use hibp_index::depth::Depth;
use hibp_index::errors::{BuilderCreateError, IndexOpenError, LookupError, TableReadError};
use hibp_index::keys::{KeyData, NoPayload, PayloadData, FixedByteArray, NT, SHA1};
use hibp_index::read_at::MemFile;
use hibp_index::typed::{TypedBuilder, TypedIndex};
use hibp_index::reader::Index;
use std::io::Write;

fn build<D: KeyData, P: PayloadData>(depth: u8, desc: &str, entries: &[(D, P)]) -> Vec<u8> {
    let mut b = TypedBuilder::<D, P>::create(desc, Depth::new(depth).unwrap()).unwrap();
    let mut out = b.take_output();
    for (k, p) in entries {
        b.add_entry(k, p);
        out.extend(b.take_output());
    }
    out.extend(b.finish().unwrap());
    out
}

fn sha1(s: &str) -> SHA1 {
    SHA1::from_str(s).unwrap()
}

fn nt(s: &str) -> NT {
    NT::from_str(s).unwrap()
}

fn deflate(data: &[u8]) -> Vec<u8> {
    let mut e = flate2::write::DeflateEncoder::new(Vec::new(), flate2::Compression::default());
    e.write_all(data).unwrap();
    e.finish().unwrap()
}

fn header_of<D: KeyData>(payload: u8) -> Vec<u8> {
    let mut h = b"hash-index-v0\n".to_vec();
    h.extend_from_slice(D::key_type().name().as_bytes());
    h.extend_from_slice(b"\ntest\n");
    h.push(D::size() as u8);
    h.push(payload);
    h
}

fn with_table(mut file: Vec<u8>, depth: u8, offsets: &[u64]) -> Vec<u8> {
    let mut raw = vec![depth];
    for o in offsets {
        raw.extend_from_slice(&o.to_be_bytes());
    }
    let c = deflate(&raw);
    file.extend_from_slice(&c);
    file.extend_from_slice(&(c.len() as u32).to_be_bytes());
    file
}

#[test]
fn build_and_lookup_sha1_depth20() {
    let keys = [
        sha1("0000000000000000000000000000000000000001"),
        sha1("00000000000000000000000000000000DEADBEEF"),
        sha1("FFFFFFFFFFFFFFFFFFFFFFFFFFFFFFFFFFFFFFFE"),
    ];
    let entries: Vec<(SHA1, NoPayload)> = keys.iter().map(|k| (*k, NoPayload)).collect();
    let file = build(20, "pwned", &entries);
    let index = TypedIndex::<SHA1, NoPayload, MemFile>::open(MemFile { data: file }).unwrap();
    assert_eq!(index.description(), "pwned");
    assert_eq!(index.payload_size(), 0);
    assert!(matches!(index.lookup(&keys[0]), Ok(Some(NoPayload))));
    assert!(matches!(index.lookup(&sha1("0000000000000000000000000000000000000002")), Ok(None)));
    assert!(matches!(index.lookup(&keys[1]), Ok(Some(NoPayload))));
    assert!(matches!(index.lookup(&keys[2]), Ok(Some(NoPayload))));
    assert!(matches!(index.lookup(&sha1("FFFFFFFFFFFFFFFFFFFFFFFFFFFFFFFFFFFFFFFF")), Ok(None)));
}

#[test]
fn range_on_unaligned_depth() {
    let a = nt("11223344000000000000000000000000");
    let b = nt("11223355000000000000000000000000");
    let c = nt("11224000000000000000000000000000");
    let d = Depth::new(20).unwrap();
    assert_eq!(d.index(&a.0), 0x11223);
    assert_eq!(d.index(&b.0), 0x11223);
    assert_eq!(d.index(&c.0), 0x11224);
    let entries = vec![(a, NoPayload), (b, NoPayload), (c, NoPayload)];
    let file = build(20, "nt", &entries);
    let index = TypedIndex::<NT, NoPayload, MemFile>::open(MemFile { data: file }).unwrap();
    let q = nt("11223000000000000000000000000000");
    let found = index.lookup_range(&q.0, 20).unwrap();
    let keys: Vec<NT> = found.iter().map(|e| e.0).collect();
    assert_eq!(keys, vec![a, b]);
}

#[test]
fn range_across_buckets() {
    let mut entries = Vec::new();
    for i in 0u8..40 {
        let mut k = [0u8; 20];
        k[0] = 0xab;
        k[1] = i * 6;
        k[2] = i;
        entries.push((SHA1(k), NoPayload));
    }
    let mut before = [0u8; 20];
    before[0] = 0xaa;
    before[1] = 0xff;
    let mut after = [0u8; 20];
    after[0] = 0xac;
    entries.insert(0, (SHA1(before), NoPayload));
    entries.push((SHA1(after), NoPayload));
    let file = build(16, "range", &entries);
    let index = TypedIndex::<SHA1, NoPayload, MemFile>::open(MemFile { data: file }).unwrap();
    let mut q = [0u8; 20];
    q[0] = 0xab;
    q[1] = 0x5f;
    let found = index.lookup_range(&q, 12).unwrap();
    let expected: Vec<SHA1> = entries
        .iter()
        .map(|e| e.0)
        .filter(|k| k.0[0] == 0xab && (k.0[1] >> 4) == 0x5)
        .collect();
    assert!(!expected.is_empty());
    let got: Vec<SHA1> = found.iter().map(|e| e.0).collect();
    assert_eq!(got, expected);
    let all = index.lookup_range(&q, 0).unwrap();
    assert_eq!(all.len(), entries.len());
    let none = index.lookup_range(&after, 160).unwrap();
    assert_eq!(none.len(), 1);
}

#[test]
fn truncated_table_length() {
    let entries = vec![(sha1("0000000000000000000000000000000000000001"), NoPayload)];
    let mut file = build(8, "x", &entries);
    let n = file.len();
    file[n - 4..].copy_from_slice(&0xffff_ff00u32.to_be_bytes());
    let r = TypedIndex::<SHA1, NoPayload, MemFile>::open(MemFile { data: file });
    assert!(matches!(
        r,
        Err(IndexOpenError::IOError(_))
            | Err(IndexOpenError::TableReadError(TableReadError::IOError(_)))
            | Err(IndexOpenError::TableReadError(TableReadError::TooMuchTableData))
    ));
}

#[test]
fn decreasing_offsets_refused() {
    let h = header_of::<SHA1>(0);
    let hl = h.len() as u64;
    let mut offsets = vec![hl; 17];
    offsets[5] = hl + 40;
    offsets[6] = hl + 20;
    let file = with_table(h, 4, &offsets);
    let r = TypedIndex::<SHA1, NoPayload, MemFile>::open(MemFile { data: file });
    assert!(matches!(r, Err(IndexOpenError::TableReadError(TableReadError::InvalidTableOffsets))));
}

#[test]
fn too_much_table_data_refused() {
    let h = header_of::<SHA1>(0);
    let hl = h.len() as u64;
    let mut raw = vec![0u8];
    raw.extend_from_slice(&hl.to_be_bytes());
    raw.extend_from_slice(&hl.to_be_bytes());
    raw.push(7);
    let c = deflate(&raw);
    let mut file = h;
    file.extend_from_slice(&c);
    file.extend_from_slice(&(c.len() as u32).to_be_bytes());
    let r = TypedIndex::<SHA1, NoPayload, MemFile>::open(MemFile { data: file });
    assert!(matches!(r, Err(IndexOpenError::TableReadError(TableReadError::TooMuchTableData))));
}

#[test]
fn invalid_depth_refused() {
    let h = header_of::<SHA1>(0);
    let file = with_table(h, 25, &[0, 0]);
    let r = TypedIndex::<SHA1, NoPayload, MemFile>::open(MemFile { data: file });
    assert!(matches!(r, Err(IndexOpenError::TableReadError(TableReadError::InvalidDepth { depth: 25 }))));
}

#[test]
fn misaligned_segment() {
    let mut file = header_of::<SHA1>(0);
    let hl = file.len() as u64;
    file.extend_from_slice(&[0u8; 19]);
    let file = with_table(file, 0, &[hl, hl + 19]);
    let index = TypedIndex::<SHA1, NoPayload, MemFile>::open(MemFile { data: file }).unwrap();
    let r = index.lookup(&sha1("0000000000000000000000000000000000000001"));
    assert!(matches!(r, Err(LookupError::InvalidSegmentLength)));
}

#[test]
fn bad_magic_refused() {
    let mut file = header_of::<SHA1>(0);
    file[0] = b'X';
    let hl = file.len() as u64 - 0;
    let file = with_table(file, 0, &[hl, hl]);
    let r = Index::open(MemFile { data: file });
    assert!(matches!(r, Err(IndexOpenError::InvalidHeader)));
}

#[test]
fn bad_key_type_refused() {
    let mut file = b"hash-index-v0\nSHA 1\ntest\n".to_vec();
    file.push(20);
    file.push(0);
    let hl = file.len() as u64;
    let file = with_table(file, 0, &[hl, hl]);
    let r = Index::open(MemFile { data: file });
    assert!(matches!(r, Err(IndexOpenError::KeyTypeError(_))));
}

#[test]
fn wrong_key_type_for_typed_index() {
    let entries = vec![(sha1("0000000000000000000000000000000000000001"), NoPayload)];
    let file = build(8, "x", &entries);
    let r = TypedIndex::<NT, NoPayload, MemFile>::open(MemFile { data: file });
    assert!(matches!(r, Err(IndexOpenError::InvalidKeyLength)));
}

#[test]
fn depth_zero_works() {
    let keys = [
        sha1("0100000000000000000000000000000000000000"),
        sha1("8000000000000000000000000000000000000000"),
    ];
    let entries: Vec<(SHA1, NoPayload)> = keys.iter().map(|k| (*k, NoPayload)).collect();
    let file = build(0, "flat", &entries);
    let index = Index::open(MemFile { data: file }).unwrap();
    assert_eq!(index.table.file_offsets.len(), 2);
    assert!(matches!(index.lookup(&keys[1].0), Ok(Some(_))));
    assert!(matches!(index.lookup(&[0u8; 20]), Ok(None)));
}

#[test]
fn depth_twenty_four_table_size() {
    let d = Depth::new(24).unwrap();
    assert_eq!(d.table_entries(), 16_777_217);
    assert!(Depth::new(25).is_none());
    assert_eq!(Depth::new(0).unwrap().table_entries(), 2);
}

#[test]
fn empty_payload_entry_size() {
    let d = Depth::new(20).unwrap();
    assert_eq!(d.entry_size(20, 0), 18);
    assert_eq!(d.entry_size(16, 4), 18);
    assert_eq!(Depth::new(7).unwrap().entry_size(20, 0), 20);
}

#[derive(Clone, Copy, Debug, PartialEq)]
struct Count([u8; 2]);

impl FixedByteArray for Count {
    fn size() -> usize {
        2
    }

    fn data(&self) -> &[u8] {
        &self.0
    }

    fn from_data(d: &[u8]) -> Count {
        Count([d[0], d[1]])
    }
}

impl PayloadData for Count {}

#[test]
fn payload_round_trip() {
    let keys = [
        nt("00000000000000000000000000000001"),
        nt("10000000000000000000000000000001"),
        nt("10000000000000000000000000000002"),
    ];
    let entries: Vec<(NT, Count)> = keys.iter().enumerate().map(|(i, k)| (*k, Count([i as u8, 7]))).collect();
    let file = build(12, "counts", &entries);
    let index = TypedIndex::<NT, Count, MemFile>::open(MemFile { data: file }).unwrap();
    assert_eq!(index.payload_size(), 2);
    for (i, k) in keys.iter().enumerate() {
        assert_eq!(index.lookup(k).unwrap(), Some(Count([i as u8, 7])));
    }
    assert_eq!(index.lookup(&nt("10000000000000000000000000000003")).unwrap(), None);
}

#[test]
fn hibp_lines() {
    let mut b = TypedBuilder::<SHA1, NoPayload>::create("hibp", Depth::new(16).unwrap()).unwrap();
    let mut file = b.take_output();
    b.add_entry_from_hibp_line("000000005AD76BD555C1D6D771DE417A4B87E4B4:4").unwrap();
    b.add_entry_from_hibp_line("").unwrap();
    b.add_entry_from_hibp_line("00000000A8DAE4228F821FB418F59826079BF368:2").unwrap();
    assert!(b.add_entry_from_hibp_line("no colon here").is_err());
    assert!(b.add_entry_from_hibp_line("XYZ:1").is_err());
    assert!(b.add_entry_from_hibp_line("000000005AD76BD555C1D6D771DE417A4B87E4B4:4").is_err());
    file.extend(b.finish().unwrap());
    let index = TypedIndex::<SHA1, NoPayload, MemFile>::open(MemFile { data: file }).unwrap();
    assert!(index.lookup(&sha1("000000005AD76BD555C1D6D771DE417A4B87E4B4")).unwrap().is_some());
    assert!(index.lookup(&sha1("00000000A8DAE4228F821FB418F59826079BF368")).unwrap().is_some());
    assert!(index.lookup(&sha1("00000000A8DAE4228F821FB418F59826079BF369")).unwrap().is_none());
}

#[test]
fn header_layout_is_exact() {
    let b = TypedBuilder::<SHA1, NoPayload>::create("desc", Depth::new(16).unwrap()).unwrap();
    let mut b = b;
    let h = b.take_output();
    let mut expected = b"hash-index-v0\nSHA-1\ndesc\n".to_vec();
    expected.push(20);
    expected.push(0);
    assert_eq!(h, expected);
}

#[test]
fn builder_create_errors() {
    let r = TypedBuilder::<SHA1, NoPayload>::create("two\nlines", Depth::new(16).unwrap());
    assert!(matches!(r, Err(BuilderCreateError::InvalidDescription { .. })));
    let long = "x".repeat(5000);
    let r = TypedBuilder::<SHA1, NoPayload>::create(&long, Depth::new(16).unwrap());
    assert!(matches!(r, Err(BuilderCreateError::HeaderTooBig)));
}

#[test]
fn walk_yields_matches_lazily() {
    let keys = [
        nt("11000000000000000000000000000000"),
        nt("12000000000000000000000000000000"),
        nt("12100000000000000000000000000000"),
        nt("13000000000000000000000000000000"),
    ];
    let entries: Vec<(NT, NoPayload)> = keys.iter().map(|k| (*k, NoPayload)).collect();
    let file = build(4, "walk", &entries);
    let index = Index::open(MemFile { data: file }).unwrap();
    let q = nt("12000000000000000000000000000000");
    let mut w = index.walk(&q.0, 8);
    let a = index.next_match(&mut w).unwrap().unwrap();
    assert_eq!(a.0, keys[1].0.to_vec());
    let b = index.next_match(&mut w).unwrap().unwrap();
    assert_eq!(b.0, keys[2].0.to_vec());
    assert!(index.next_match(&mut w).unwrap().is_none());
    assert!(index.next_match(&mut w).unwrap().is_none());
}

#[test]
fn empty_file_refused() {
    let r = Index::open(MemFile { data: Vec::new() });
    assert!(matches!(r, Err(IndexOpenError::InvalidHeader)));
    let mut file = header_of::<SHA1>(0);
    file.truncate(file.len() - 1);
    let r = Index::open(MemFile { data: file });
    assert!(matches!(r, Err(IndexOpenError::IOError(_))));
}

#[test]
fn table_length_reaching_into_header_refused() {
    let entries = vec![(sha1("0000000000000000000000000000000000000001"), NoPayload)];
    let mut file = build(8, "x", &entries);
    let n = file.len();
    let claimed = (n - 4 - 3) as u32;
    file[n - 4..].copy_from_slice(&claimed.to_be_bytes());
    let r = TypedIndex::<SHA1, NoPayload, MemFile>::open(MemFile { data: file });
    assert!(matches!(
        r,
        Err(IndexOpenError::IOError(_)) | Err(IndexOpenError::TableReadError(TableReadError::IOError(_)))
    ));
}

#[test]
fn empty_bucket_lookup_finds_nothing() {
    let entries = vec![(sha1("8000000000000000000000000000000000000001"), NoPayload)];
    let file = build(8, "x", &entries);
    let index = TypedIndex::<SHA1, NoPayload, MemFile>::open(MemFile { data: file }).unwrap();
    assert!(matches!(index.lookup(&sha1("0000000000000000000000000000000000000001")), Ok(None)));
}

#[test]
fn finished_walk_stays_finished() {
    let entries = vec![(sha1("1000000000000000000000000000000000000001"), NoPayload)];
    let file = build(8, "x", &entries);
    let index = Index::open(MemFile { data: file }).unwrap();
    let mut w = index.walk(&[0x10u8; 20], 8);
    assert!(index.next_match(&mut w).unwrap().is_some());
    assert!(index.next_match(&mut w).unwrap().is_none());
    assert!(w.done);
    assert!(index.next_match(&mut w).unwrap().is_none());
}
