//! Sequential reads with a cache of pages over a positional reader.
use vstd::prelude::*;
use crate::read_at::{FileLen, ReadAt, read_at_till_eof, till_eof};

verus! {

/// Bits of the page size.
pub const PAGE_SIZE_BITS: u64 = 13;

/// Size of a cached page in bytes.
pub const PAGE_SIZE: u64 = 8192;

/// `cached::stores::LruCache`, seen only through what it holds.
#[verifier::external_type_specification]
#[verifier::external_body]
#[verifier::reject_recursive_types(K)]
#[verifier::reject_recursive_types(V)]
#[verifier::reject_recursive_types(S)]
pub struct ExLruCache<K, V, S>(cached::stores::LruCache<K, V, S>);

/// Least recently used pages, by page number.
pub type PageCache = cached::stores::LruCache<u64, Vec<u8>>;

/// Pages a cache holds.
pub uninterp spec fn cache_contents(c: cached::stores::LruCache<u64, Vec<u8>>) -> Map<u64, Seq<u8>>;

/// Relies on `cached::stores::LruCache::new`: an empty cache that keeps at
/// most `capacity` pages; it panics on a capacity of zero.
#[verifier::external_body]
fn new_cache(capacity: usize) -> (r: PageCache)
    requires
        0 < capacity < 0x1000_0000,
    ensures
        cache_contents(r).dom() == Set::<u64>::empty(),
{
    cached::stores::LruCache::new(capacity)
}

/// Relies on `cached::Cached::cache_get` of `LruCache`: the page stored
/// under `page`, if any; only its recency changes.
#[verifier::external_body]
fn cache_get(c: &mut PageCache, page: u64) -> (r: Option<Vec<u8>>)
    ensures
        cache_contents(*final(c)) == cache_contents(*old(c)),
        r is Some <==> cache_contents(*old(c)).contains_key(page),
        r matches Some(v) ==> v@ == cache_contents(*old(c))[page],
{
    cached::Cached::cache_get(c, &page).cloned()
}

/// Relies on `cached::Cached::cache_set` of `LruCache`: stores `data`
/// under `page`; least recently used other pages may be evicted.
#[verifier::external_body]
fn cache_set(c: &mut PageCache, page: u64, data: Vec<u8>)
    ensures
        cache_contents(*final(c)).contains_key(page),
        cache_contents(*final(c))[page] == data@,
        forall|k: u64| #[trigger] cache_contents(*final(c)).contains_key(k) && k != page ==> cache_contents(
            *old(c),
        ).contains_key(k) && cache_contents(*final(c))[k] == cache_contents(*old(c))[k],
{
    cached::Cached::cache_set(c, page, data);
}

/// Relies on `std::io::Error::new(ErrorKind::Other, ..)`: the error that
/// reports a position out of range.
#[verifier::external_body]
fn position_overflow() -> std::io::Error {
    std::io::Error::new(std::io::ErrorKind::Other, "position overflow")
}

/// Where a seek goes.
#[derive(Clone, Copy, PartialEq, Eq, Structural, Debug)]
pub enum SeekFrom {
    /// To this offset.
    Start(u64),
    /// This far from the end of the file.
    End(i64),
    /// This far from the current position.
    Current(i64),
}

/// Position `p` moved by `off`, when it stays within `0..=u64::MAX`.
pub open spec fn moved(p: u64, off: i64) -> Option<u64> {
    let q = p + off;
    if 0 <= q <= u64::MAX {
        Some(q as u64)
    } else {
        None
    }
}

/// Reader with a position, serving reads from cached pages of `reader`.
pub struct BufReader<'a, R> {
    pub cache: PageCache,
    pub position: u64,
    pub reader: &'a R,
}

impl<'a, R: ReadAt + FileLen> BufReader<'a, R> {
    /// Every cached page holds what the file holds there.
    pub open spec fn wf(&self) -> bool {
        forall|p: u64| #[trigger] cache_contents(self.cache).contains_key(p) ==> cache_contents(self.cache)[p]
            == till_eof(self.reader.content(), p * PAGE_SIZE, PAGE_SIZE as int)
    }

    /// Reader at position zero with room for `cache_capacity` pages.
    pub fn new(reader: &'a R, cache_capacity: usize) -> (r: Self)
        requires
            0 < cache_capacity < 0x1000_0000,
        ensures
            r.wf(),
            r.position == 0,
            r.reader == reader,
    {
        BufReader { cache: new_cache(cache_capacity), position: 0, reader }
    }

    /// The bytes from the position to the end of its page, or of the file.
    fn load_page(&mut self) -> (r: Result<Vec<u8>, std::io::Error>)
        requires
            old(self).wf(),
        ensures
            final(self).wf(),
            final(self).position == old(self).position,
            final(self).reader == old(self).reader,
            r matches Ok(v) ==> v@ == till_eof(
                old(self).reader.content(),
                old(self).position as int,
                PAGE_SIZE - old(self).position % PAGE_SIZE,
            ),
    {
        let page = self.position >> PAGE_SIZE_BITS;
        proof {
            vstd::bits::lemma_u64_shr_is_div(self.position, PAGE_SIZE_BITS);
            vstd::arithmetic::power2::lemma2_to64();
            vstd::arithmetic::div_mod::lemma_fundamental_div_mod(self.position as int, PAGE_SIZE as int);
        }
        let page_offset: u64 = page * PAGE_SIZE;
        let offset: usize = (self.position - page_offset) as usize;
        let data = match cache_get(&mut self.cache, page) {
            Some(d) => d,
            None => {
                let d = read_at_till_eof(self.reader, PAGE_SIZE as usize, page_offset)?;
                cache_set(&mut self.cache, page, d.clone());
                d
            },
        };
        let ghost c = self.reader.content();
        assert(data@ == till_eof(c, page_offset as int, PAGE_SIZE as int));
        let mut out: Vec<u8> = Vec::new();
        if offset >= data.len() {
            assert(out@ =~= till_eof(c, self.position as int, PAGE_SIZE - self.position % PAGE_SIZE));
            return Ok(out);
        }
        let mut i: usize = offset;
        while i < data.len()
            invariant
                offset <= i,
                i <= data@.len(),
                out@ == data@.subrange(offset as int, i as int),
            decreases data@.len() - i,
        {
            out.push(data[i]);
            i = i + 1;
            assert(out@ =~= data@.subrange(offset as int, i as int));
        }
        proof {
            if data@.len() <= offset {
                assert(out@ =~= till_eof(c, self.position as int, PAGE_SIZE - self.position % PAGE_SIZE));
            } else {
                assert(out@ =~= till_eof(c, self.position as int, PAGE_SIZE - self.position % PAGE_SIZE));
            }
        }
        Ok(out)
    }

    /// Read into `buf` from the position: as much as `buf` holds and the
    /// current page has; none only at the end of the file or for an empty `buf`.
    pub fn read(&mut self, buf: &mut [u8]) -> (r: Result<usize, std::io::Error>)
        requires
            old(self).wf(),
        ensures
            final(self).wf(),
            final(self).reader == old(self).reader,
            final(buf)@.len() == old(buf)@.len(),
            r matches Ok(n) ==> {
                let avail = till_eof(
                    old(self).reader.content(),
                    old(self).position as int,
                    PAGE_SIZE - old(self).position % PAGE_SIZE,
                );
                let most = if avail.len() < old(buf)@.len() { avail.len() } else { old(buf)@.len() as nat };
                &&& n == if old(self).position + most <= u64::MAX { most } else { (u64::MAX - old(self).position) as nat }
                &&& final(buf)@.subrange(0, n as int) == avail.subrange(0, n as int)
                &&& final(self).position == old(self).position + n
            },
            r is Err ==> final(self).position == old(self).position,
    {
        let source = self.load_page()?;
        let mut amount: usize = if source.len() < buf.len() { source.len() } else { buf.len() };
        if amount as u64 > u64::MAX - self.position {
            amount = (u64::MAX - self.position) as usize;
        }
        let mut i: usize = 0;
        while i < amount
            invariant
                i <= amount,
                amount <= source@.len(),
                amount <= buf@.len(),
                buf@.len() == old(buf)@.len(),
                forall|j: int| 0 <= j < i ==> buf@[j] == source@[j],
            decreases amount - i,
        {
            buf[i] = source[i];
            i = i + 1;
        }
        assert(buf@.subrange(0, amount as int) =~= source@.subrange(0, amount as int));
        self.position = self.position + amount as u64;
        Ok(amount)
    }

    /// Move the position; a position below zero or above `u64::MAX` is an
    /// error that leaves the position as it was.
    pub fn seek(&mut self, pos: SeekFrom) -> (r: Result<u64, std::io::Error>)
        requires
            old(self).wf(),
        ensures
            final(self).wf(),
            final(self).reader == old(self).reader,
            r is Err ==> final(self).position == old(self).position,
            r matches Ok(p) ==> p == final(self).position,
            pos matches SeekFrom::Start(p) ==> r is Ok && final(self).position == p,
            pos matches SeekFrom::Current(off) ==> (moved(old(self).position, off) matches Some(p) ==> r is Ok
                && final(self).position == p) && (moved(old(self).position, off) is None ==> r is Err),
            pos matches SeekFrom::End(off) ==> (r is Ok ==> old(self).reader.content().len() <= u64::MAX
                && moved(old(self).reader.content().len() as u64, off) == Some(final(self).position)),
    {
        match pos {
            SeekFrom::Start(p) => {
                self.position = p;
                Ok(p)
            },
            SeekFrom::Current(off) => {
                match moved_by(self.position, off) {
                    Some(p) => {
                        self.position = p;
                        Ok(p)
                    },
                    None => Err(position_overflow()),
                }
            },
            SeekFrom::End(off) => {
                let len = self.reader.file_len()?;
                match moved_by(len, off) {
                    Some(p) => {
                        self.position = p;
                        Ok(p)
                    },
                    None => Err(position_overflow()),
                }
            },
        }
    }
}

impl<'a, R: ReadAt + FileLen> BufReader<'a, R> {
    /// Read exactly `len` bytes from the position; fails where the file ends first.
    pub fn read_exact(&mut self, len: usize) -> (r: Result<Vec<u8>, std::io::Error>)
        requires
            old(self).wf(),
        ensures
            final(self).wf(),
            final(self).reader == old(self).reader,
            r matches Ok(v) ==> {
                &&& v@.len() == len
                &&& final(self).position == old(self).position + len
                &&& len > 0 ==> old(self).position + len <= final(self).reader.content().len()
                &&& len > 0 ==> v@ == old(self).reader.content().subrange(old(self).position as int, old(self).position + len)
            },
    {
        let ghost c = self.reader.content();
        let ghost p0 = self.position as int;
        let mut out: Vec<u8> = Vec::new();
        while out.len() < len
            invariant
                self.wf(),
                self.reader == old(self).reader,
                c == self.reader.content(),
                p0 == old(self).position,
                out@.len() <= len,
                self.position == p0 + out@.len(),
                out@.len() > 0 ==> p0 + out@.len() <= c.len(),
                out@.len() > 0 ==> out@ == c.subrange(p0, p0 + out@.len()),
            decreases len - out@.len(),
        {
            let want: usize = len - out.len();
            let mut tmp: Vec<u8> = vec![0u8; want];
            let ghost pos = self.position as int;
            let n = self.read(tmp.as_mut_slice())?;
            if n == 0 {
                return Err(crate::errors::unexpected_eof());
            }
            let ghost before = out@;
            let mut i: usize = 0;
            while i < n
                invariant
                    i <= n,
                    n <= tmp@.len(),
                    out@ == before + tmp@.subrange(0, i as int),
                decreases n - i,
            {
                out.push(tmp[i]);
                i = i + 1;
                assert(out@ =~= before + tmp@.subrange(0, i as int));
            }
            proof {
                let avail = till_eof(c, pos, PAGE_SIZE - pos % (PAGE_SIZE as int));
                assert(tmp@.subrange(0, n as int) == avail.subrange(0, n as int));
                assert(pos < c.len());
                assert(avail.subrange(0, n as int) =~= c.subrange(pos, pos + n));
                if before.len() == 0 {
                    assert(out@ =~= c.subrange(p0, p0 + out@.len()));
                } else {
                    assert(out@ =~= c.subrange(p0, p0 + out@.len()));
                }
            }
        }
        Ok(out)
    }
}

/// `p` moved by `off`, unless that leaves `0..=u64::MAX`.
pub fn moved_by(p: u64, off: i64) -> (r: Option<u64>)
    ensures
        r == moved(p, off),
{
    if off >= 0 {
        let o = off as u64;
        if p > u64::MAX - o {
            None
        } else {
            Some(p + o)
        }
    } else {
        let o: u64 = ((-(off + 1)) as u64) + 1;
        if p < o {
            None
        } else {
            Some(p - o)
        }
    }
}

} // verus!
