use hibp_index::buf_read::{moved_by, BufReader, SeekFrom};
use hibp_index::read_at::{read_at_till_eof, read_exact_at, MemFile};

fn file(n: usize) -> MemFile {
    MemFile { data: (0..n).map(|i| (i % 251) as u8).collect() }
}

#[test]
fn paged_reads_follow_the_file() {
    let f = file(20_000);
    let mut r = BufReader::new(&f, 16);
    let mut buf = [0u8; 100];
    assert_eq!(r.read(&mut buf).unwrap(), 100);
    assert_eq!(&buf[..], &f.data[..100]);
    assert_eq!(r.seek(SeekFrom::Start(8190)).unwrap(), 8190);
    assert_eq!(r.read(&mut buf).unwrap(), 2);
    assert_eq!(&buf[..2], &f.data[8190..8192]);
    assert_eq!(r.read(&mut buf).unwrap(), 100);
    assert_eq!(&buf[..], &f.data[8192..8292]);
    assert_eq!(r.seek(SeekFrom::Start(100)).unwrap(), 100);
    assert_eq!(r.read(&mut buf).unwrap(), 100);
    assert_eq!(&buf[..], &f.data[100..200]);
}

#[test]
fn reads_past_the_end_return_nothing() {
    let f = file(10);
    let mut r = BufReader::new(&f, 1);
    let mut buf = [0u8; 4];
    assert_eq!(r.seek(SeekFrom::End(-2)).unwrap(), 8);
    assert_eq!(r.read(&mut buf).unwrap(), 2);
    assert_eq!(r.read(&mut buf).unwrap(), 0);
    assert_eq!(r.seek(SeekFrom::Start(1000)).unwrap(), 1000);
    assert_eq!(r.read(&mut buf).unwrap(), 0);
}

#[test]
fn seek_relative_and_overflow() {
    let f = file(10);
    let mut r = BufReader::new(&f, 2);
    assert_eq!(r.seek(SeekFrom::Current(5)).unwrap(), 5);
    assert_eq!(r.seek(SeekFrom::Current(-3)).unwrap(), 2);
    let e = r.seek(SeekFrom::Current(-3)).unwrap_err();
    assert_eq!(e.to_string(), "position overflow");
    assert_eq!(r.seek(SeekFrom::Current(0)).unwrap(), 2);
    assert!(r.seek(SeekFrom::End(-11)).is_err());
    assert_eq!(r.seek(SeekFrom::Current(0)).unwrap(), 2);
    assert_eq!(r.seek(SeekFrom::Start(u64::MAX)).unwrap(), u64::MAX);
    assert!(r.seek(SeekFrom::Current(1)).is_err());
    assert_eq!(moved_by(5, i64::MIN), None);
    assert_eq!(moved_by(u64::MAX, -1), Some(u64::MAX - 1));
}

#[test]
fn positional_reads() {
    let f = file(50);
    assert_eq!(read_at_till_eof(&f, 10, 45).unwrap(), f.data[45..].to_vec());
    assert_eq!(read_exact_at(&f, 5, 40).unwrap(), f.data[40..45].to_vec());
    assert!(read_exact_at(&f, 11, 40).is_err());
    assert_eq!(read_at_till_eof(&f, 10, 60).unwrap(), Vec::<u8>::new());
}
