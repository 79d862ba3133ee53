//! Positional reads over a file of fixed content.
use vstd::prelude::*;
use crate::errors::unexpected_eof;

verus! {

/// Random-access reads over a file whose content does not change.
///
/// Implementations retry reads that the system interrupted.
pub trait ReadAt {
    /// The bytes of the file; implementations that model their content
    /// give it here.
    open spec fn content(&self) -> Seq<u8> {
        Seq::empty()
    }

    /// Read bytes at `offset` into `buf`; fewer than `buf` holds may be read,
    /// and none only at or past the end of the file.
    fn read_at(&self, buf: &mut [u8], offset: u64) -> (r: Result<usize, std::io::Error>)
        ensures
            final(buf)@.len() == old(buf)@.len(),
            r matches Ok(n) ==> {
                &&& n <= old(buf)@.len()
                &&& n > 0 ==> offset + n <= self.content().len()
                &&& n > 0 ==> final(buf)@.subrange(0, n as int) == self.content().subrange(offset as int, offset + n)
                &&& n == 0 ==> old(buf)@.len() == 0 || offset >= self.content().len()
            },
    ;
}

/// Files that know their length.
pub trait FileLen: ReadAt {
    /// Length of the file in bytes.
    fn file_len(&self) -> (r: Result<u64, std::io::Error>)
        ensures
            r matches Ok(n) ==> n == self.content().len(),
    ;
}

/// The bytes from `offset` up to `len` of them, fewer where the file ends first.
pub open spec fn till_eof(content: Seq<u8>, offset: int, len: int) -> Seq<u8> {
    if offset >= content.len() {
        Seq::empty()
    } else if offset + len <= content.len() {
        content.subrange(offset, offset + len)
    } else {
        content.subrange(offset, content.len() as int)
    }
}

/// Read up to `len` bytes at `offset`, stopping early only at the end of the file.
pub fn read_at_till_eof<R: ReadAt>(reader: &R, len: usize, offset: u64) -> (r: Result<Vec<u8>, std::io::Error>)
    requires
        offset + len <= u64::MAX + 1,
    ensures
        r matches Ok(v) ==> v@ == till_eof(reader.content(), offset as int, len as int),
{
    let mut out: Vec<u8> = Vec::new();
    let mut got: usize = 0;
    assert(out@ =~= till_eof(reader.content(), offset as int, 0));
    while got < len
        invariant
            got <= len,
            out@.len() == got,
            offset + len <= u64::MAX + 1,
            got > 0 ==> offset + got <= reader.content().len(),
            out@ == till_eof(reader.content(), offset as int, got as int),
        decreases len - got,
    {
        let want: usize = len - got;
        let mut tmp: Vec<u8> = vec![0u8; want];
        let at: u64 = offset + got as u64;
        let n = match reader.read_at(tmp.as_mut_slice(), at) {
            Ok(n) => n,
            Err(e) => return Err(e),
        };
        if n == 0 {
            assert(out@ =~= till_eof(reader.content(), offset as int, len as int));
            return Ok(out);
        }
        let ghost before = out@;
        assert(before =~= reader.content().subrange(offset as int, offset + got));
        let mut i: usize = 0;
        while i < n
            invariant
                i <= n,
                n <= tmp@.len(),
                out@ == before + tmp@.subrange(0, i as int),
            decreases n - i,
        {
            out.push(tmp[i]);
            i = i + 1;
            assert(out@ =~= before + tmp@.subrange(0, i as int));
        }
        assert(out@ =~= reader.content().subrange(offset as int, offset + got + n));
        got = got + n;
        assert(out@ =~= till_eof(reader.content(), offset as int, got as int));
    }
    assert(out@ =~= till_eof(reader.content(), offset as int, len as int));
    Ok(out)
}

/// Read exactly `len` bytes at `offset`; fails where the file ends first.
pub fn read_exact_at<R: ReadAt>(reader: &R, len: usize, offset: u64) -> (r: Result<Vec<u8>, std::io::Error>)
    requires
        offset + len <= u64::MAX,
    ensures
        r matches Ok(v) ==> v@.len() == len,
        r matches Ok(v) ==> len > 0 ==> offset + len <= reader.content().len() && v@ == reader.content().subrange(
            offset as int,
            offset + len,
        ),
        len > 0 && offset + len > reader.content().len() ==> r is Err,
{
    let v = read_at_till_eof(reader, len, offset)?;
    if v.len() < len {
        return Err(unexpected_eof());
    }
    Ok(v)
}

/// A file held in memory.
pub struct MemFile {
    pub data: Vec<u8>,
}

impl ReadAt for MemFile {
    open spec fn content(&self) -> Seq<u8> {
        self.data@
    }

    fn read_at(&self, buf: &mut [u8], offset: u64) -> (r: Result<usize, std::io::Error>) {
        let len = self.data.len();
        if offset >= len as u64 {
            return Ok(0);
        }
        let start = offset as usize;
        let mut n: usize = len - start;
        if n > buf.len() {
            n = buf.len();
        }
        let mut i: usize = 0;
        while i < n
            invariant
                i <= n,
                start + n <= self.data@.len(),
                len == self.data@.len(),
                n <= buf@.len(),
                buf@.len() == old(buf)@.len(),
                forall|j: int| 0 <= j < i ==> buf@[j] == self.data@[start + j],
            decreases n - i,
        {
            buf[i] = self.data[start + i];
            i = i + 1;
        }
        assert(buf@.subrange(0, n as int) =~= self.data@.subrange(offset as int, offset + n));
        Ok(n)
    }
}

impl FileLen for MemFile {
    fn file_len(&self) -> (r: Result<u64, std::io::Error>) {
        Ok(self.data.len() as u64)
    }
}

} // verus!
