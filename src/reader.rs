//! Reading an index file: header, bucket table, point lookups and prefix walks.
use vstd::prelude::*;
use std::cmp::Ordering;
use vstd::arithmetic::power2::pow2;
use vstd::utf8::{encode_utf8, valid_utf8};
use crate::bytes::{be_value, read_be};
use crate::errors::{IndexOpenError, TableReadError, unexpected_eof};
use crate::format::{deflated, INDEX_V0_HEADER_LIMIT, index_header, index_magic, index_magic_bytes, inflate, inflated, invalid_data};
use crate::header::{find_newline, header_lines, is_prefix, no_newline, slice_bytes, string_from_utf8};
use crate::key_type::known_by_name;
use crate::key_type::{KeyType, all_graphic};
use crate::read_at::{FileLen, ReadAt, read_at_till_eof, read_exact_at, till_eof};
use crate::table::{Table, raw_offset};
use crate::bytes::lex_lt;
use crate::depth::{Depth, LimPrefix, LimPrefixRange, bucket_bytes, bucket_of};
use crate::bits::{prefix_bytes, prefix_of, suffix_bytes, unsplit_bytes};
use crate::errors::LookupError;
use crate::format::{masked_entry_key, strip_key};
use crate::key_suffix::KeySuffix;
use crate::buf_read::{BufReader, SeekFrom};

verus! {

/// Pages a point lookup keeps in its cache.
pub const LOOKUP_CACHE_PAGES: usize = 16;

/// `h` starts with an index header of these fields.
pub open spec fn has_index_header(h: Seq<u8>, name: Seq<u8>, description: Seq<u8>, key_size: u8, payload_size: u8) -> bool {
    &&& is_prefix(index_header(name, description, key_size, payload_size), h)
    &&& no_newline(name)
    &&& no_newline(description)
}

/// Length of the compressed table, from the last four bytes of file `c`.
pub open spec fn table_len(c: Seq<u8>) -> nat {
    be_value(c.subrange(c.len() - 4, c.len() as int))
}

/// The compressed table of file `c`: the bytes before its last four.
pub open spec fn table_blob(c: Seq<u8>) -> Seq<u8> {
    c.subrange(c.len() - 4 - table_len(c), c.len() - 4)
}

/// `t` is the table stored at the end of file `c`.
pub open spec fn stored_table(c: Seq<u8>, t: Table) -> bool {
    let raw = inflated(table_blob(c));
    &&& c.len() >= 4
    &&& table_len(c) <= c.len() - 4
    &&& t.wf()
    &&& raw.len() == 1 + 8 * t.file_offsets@.len()
    &&& raw[0] == t.depth@
    &&& forall|i: int| 0 <= i < t.file_offsets@.len() ==> #[trigger] t.file_offsets@[i] == raw_offset(raw, i)
    &&& forall|x: Seq<u8>| #![trigger deflated(x)] table_blob(c) == deflated(x) ==> raw == x
}

/// Fields of an index header.
pub struct IndexHeader {
    /// Size of the header in bytes.
    pub header_len: u64,
    pub key_type: KeyType,
    pub description: String,
    pub key_size: u8,
    pub payload_size: u8,
}

proof fn lemma_first_newline(h: Seq<u8>, start: int, i: int, j: int)
    requires
        0 <= start <= i < h.len(),
        start <= j < h.len(),
        h[i] == 0x0au8,
        h[j] == 0x0au8,
        no_newline(h.subrange(start, i)),
        no_newline(h.subrange(start, j)),
    ensures
        i == j,
{
    if i < j {
        assert(h.subrange(start, j)[i - start] == h[i]);
    } else if j < i {
        assert(h.subrange(start, i)[j - start] == h[j]);
    }
}

/// `h` starts with a header whose fields can be parsed.
pub open spec fn parsable_header(h: Seq<u8>) -> bool {
    exists|name: Seq<u8>, description: Seq<u8>, k: u8, p: u8|
        #[trigger] has_index_header(h, name, description, k, p) && all_graphic(name) && valid_utf8(name) && valid_utf8(
            description,
        )
}

proof fn lemma_header_layout(h: Seq<u8>, name: Seq<u8>, desc: Seq<u8>, k: u8, p: u8)
    requires
        has_index_header(h, name, desc, k, p),
    ensures
        h.len() >= 18 + (name.len() as int) + (desc.len() as int),
        h[13] == 0x0au8,
        h.subrange(0, 13) == index_magic(),
        no_newline(h.subrange(0, 13)),
        h[14 + (name.len() as int)] == 0x0au8,
        h.subrange(14, 14 + (name.len() as int)) == name,
        h[15 + (name.len() as int) + (desc.len() as int)] == 0x0au8,
        h.subrange(15 + (name.len() as int), 15 + (name.len() as int) + (desc.len() as int)) == desc,
        h[16 + (name.len() as int) + (desc.len() as int)] == k,
        h[17 + (name.len() as int) + (desc.len() as int)] == p,
{
    let hh = index_header(name, desc, k, p);
    assert(h.subrange(0, hh.len() as int) == hh);
    assert forall|j: int| 0 <= j < hh.len() implies h[j] == hh[j] by {
        assert(h.subrange(0, hh.len() as int)[j] == h[j]);
    }
    assert(h.subrange(0, 13) =~= index_magic());
    assert(h.subrange(14, 14 + (name.len() as int)) =~= name);
    assert(h.subrange(15 + (name.len() as int), 15 + (name.len() as int) + (desc.len() as int)) =~= desc);
}

/// The key type name line of header text `h`.
pub open spec fn header_name(h: Seq<u8>) -> Seq<u8> {
    let l = header_lines(h)->Some_0;
    h.subrange(l.0 + 1, l.1)
}

/// The description line of header text `h`.
pub open spec fn header_desc(h: Seq<u8>) -> Seq<u8> {
    let l = header_lines(h)->Some_0;
    h.subrange(l.1 + 1, l.2)
}

/// Size of the header in `h`: three lines and two size bytes.
pub open spec fn header_end(h: Seq<u8>) -> int {
    header_lines(h)->Some_0.2 + 3
}

/// `h` lacks three lines, or its first line is not the index magic.
pub open spec fn bad_index_lines(h: Seq<u8>) -> bool {
    header_lines(h) is None || h.subrange(0, header_lines(h)->Some_0.0) != index_magic()
}

/// The lines are right but the key type name is neither known nor ASCII graphic.
pub open spec fn bad_key_name(h: Seq<u8>) -> bool {
    !bad_index_lines(h) && known_by_name(header_name(h)) is None && !all_graphic(header_name(h))
}

/// Every field of the header in `h` can be read.
pub open spec fn header_fields_ok(h: Seq<u8>) -> bool {
    !bad_index_lines(h) && !bad_key_name(h) && valid_utf8(header_desc(h)) && h.len() >= header_end(h)
}

/// Parse the header at the start of `h`.
pub fn parse_index_header(h: &[u8]) -> (r: Result<IndexHeader, IndexOpenError>)
    ensures
        r matches Ok(hd) ==> has_index_header(
            h@,
            hd.key_type.spec_name(),
            encode_utf8(hd.description@),
            hd.key_size,
            hd.payload_size,
        ) && hd.key_type.wf(),
        parsable_header(h@) ==> r is Ok,
        bad_index_lines(h@) <==> (r matches Err(IndexOpenError::InvalidHeader)),
        bad_key_name(h@) <==> (r matches Err(IndexOpenError::KeyTypeError(_))),
        header_fields_ok(h@) <==> r is Ok,
        r is Err ==> (r matches Err(IndexOpenError::InvalidHeader)) || (r matches Err(IndexOpenError::KeyTypeError(_)))
            || (r matches Err(IndexOpenError::IOError(_))),
        r matches Ok(hd) ==> hd.key_type.spec_name() == header_name(h@) && encode_utf8(hd.description@)
            == header_desc(h@) && hd.key_size == h@[header_end(h@) - 2] && hd.payload_size == h@[header_end(h@) - 1]
            && hd.header_len == header_end(h@),
{
    let hl = h.len();
    let magic = index_magic_bytes();
    let ghost complete = parsable_header(h@);
    let n1 = match find_newline(h, 0) {
        Some(n) => n,
        None => {
            assert(!complete) by {
                if complete {
                    let (nm, ds, k, p) = choose|nm: Seq<u8>, ds: Seq<u8>, k: u8, p: u8|
                        #[trigger] has_index_header(h@, nm, ds, k, p) && all_graphic(nm) && valid_utf8(nm) && valid_utf8(ds);
                    lemma_header_layout(h@, nm, ds, k, p);
                    assert(h@.subrange(0, h@.len() as int)[13] == h@[13]);
                }
            }
            return Err(IndexOpenError::InvalidHeader);
        },
    };
    assert(complete ==> n1 == 13) by {
        if complete {
            let (nm, ds, k, p) = choose|nm: Seq<u8>, ds: Seq<u8>, k: u8, p: u8|
                #[trigger] has_index_header(h@, nm, ds, k, p) && all_graphic(nm) && valid_utf8(nm) && valid_utf8(ds);
            lemma_header_layout(h@, nm, ds, k, p);
            lemma_first_newline(h@, 0, n1 as int, 13);
        }
    }
    let line1 = slice_bytes(h, 0, n1);
    if line1.len() != magic.len() {
        return Err(IndexOpenError::InvalidHeader);
    }
    let mut i: usize = 0;
    while i < magic.len()
        invariant
            i <= magic@.len(),
            line1@.len() == magic@.len(),
            magic@ == index_magic(),
            line1@ == h@.subrange(0, n1 as int),
            crate::header::next_newline(h@, 0) == Some(n1 as int),
            complete ==> n1 == 13,
            complete == parsable_header(h@),
            forall|j: int| 0 <= j < i ==> line1@[j] == magic@[j],
        decreases magic@.len() - i,
    {
        if line1[i] != magic[i] {
            assert(line1@ != magic@);
            assert(!complete) by {
                if complete {
                    let (nm, ds, k, p) = choose|nm: Seq<u8>, ds: Seq<u8>, k: u8, p: u8|
                        #[trigger] has_index_header(h@, nm, ds, k, p) && all_graphic(nm) && valid_utf8(nm) && valid_utf8(ds);
                    lemma_header_layout(h@, nm, ds, k, p);
                }
            }
            return Err(IndexOpenError::InvalidHeader);
        }
        i = i + 1;
    }
    assert(line1@ =~= magic@);
    let n2 = match find_newline(h, n1 + 1) {
        Some(n) => n,
        None => {
            assert(!complete) by {
                if complete {
                    let (nm, ds, k, p) = choose|nm: Seq<u8>, ds: Seq<u8>, k: u8, p: u8|
                        #[trigger] has_index_header(h@, nm, ds, k, p) && all_graphic(nm) && valid_utf8(nm) && valid_utf8(ds);
                    lemma_header_layout(h@, nm, ds, k, p);
                    let j: int = 14 + nm.len() as int;
                    assert(h@.subrange(14, h@.len() as int)[j - 14] == h@[j]);
                }
            }
            return Err(IndexOpenError::InvalidHeader);
        },
    };
    let n3 = match find_newline(h, n2 + 1) {
        Some(n) => n,
        None => {
            assert(!complete) by {
                if complete {
                    let (nm, ds, k, p) = choose|nm: Seq<u8>, ds: Seq<u8>, k: u8, p: u8|
                        #[trigger] has_index_header(h@, nm, ds, k, p) && all_graphic(nm) && valid_utf8(nm) && valid_utf8(ds);
                    lemma_header_layout(h@, nm, ds, k, p);
                    let j: int = 14 + nm.len() as int;
                    assert(no_newline(h@.subrange(14, j))) by {
                        assert forall|x: int| 0 <= x < j - 14 implies #[trigger] h@.subrange(14, j)[x] != 0x0au8 by {
                            assert(h@.subrange(14, j)[x] == nm[x]);
                        }
                    }
                    lemma_first_newline(h@, 14, n2 as int, j);
                    let j3: int = 15 + nm.len() as int + ds.len() as int;
                    assert(h@.subrange(n2 + 1, h@.len() as int)[j3 - n2 - 1] == h@[j3]);
                }
            }
            return Err(IndexOpenError::InvalidHeader);
        },
    };
    let name = slice_bytes(h, n1 + 1, n2);
    let desc = slice_bytes(h, n2 + 1, n3);
    assert(header_lines(h@) == Some((n1 as int, n2 as int, n3 as int)));
    assert(h@.subrange(0, n1 as int) == index_magic());
    let ghost tail_ok = h@.len() - n3 >= 3;
    assert(complete ==> valid_utf8(desc@) && all_graphic(name@) && valid_utf8(name@) && tail_ok) by {
        if complete {
            let (nm, ds, k, p) = choose|nm: Seq<u8>, ds: Seq<u8>, k: u8, p: u8|
                #[trigger] has_index_header(h@, nm, ds, k, p) && all_graphic(nm) && valid_utf8(nm) && valid_utf8(ds);
            lemma_header_layout(h@, nm, ds, k, p);
            let j: int = 14 + nm.len() as int;
            assert(no_newline(h@.subrange(14, j))) by {
                assert forall|x: int| 0 <= x < j - 14 implies #[trigger] h@.subrange(14, j)[x] != 0x0au8 by {
                    assert(h@.subrange(14, j)[x] == nm[x]);
                }
            }
            lemma_first_newline(h@, 14, n2 as int, j);
            let s3: int = j + 1;
            let j3: int = s3 + ds.len() as int;
            assert(no_newline(h@.subrange(s3, j3))) by {
                assert forall|x: int| 0 <= x < j3 - s3 implies #[trigger] h@.subrange(s3, j3)[x] != 0x0au8 by {
                    assert(h@.subrange(s3, j3)[x] == ds[x]);
                }
            }
            lemma_first_newline(h@, s3, n3 as int, j3);
            assert(name@ =~= nm);
            assert(desc@ =~= ds);
        }
    }
    let key_type = match KeyType::from_bytes(name.as_slice()) {
        Ok(t) => t,
        Err(e) => return Err(IndexOpenError::KeyTypeError(e)),
    };
    let description = match string_from_utf8(desc.as_slice()) {
        Some(s) => s,
        None => return Err(IndexOpenError::IOError(invalid_data())),
    };
    if hl - n3 < 3 {
        return Err(IndexOpenError::IOError(unexpected_eof()));
    }
    let key_size = h[n3 + 1];
    let payload_size = h[n3 + 2];
    proof {
        let hh = index_header(name@, desc@, key_size, payload_size);
        assert(h@.subrange(0, hh.len() as int) =~= hh);
        assert(no_newline(name@)) by {
            assert forall|x: int| 0 <= x < name@.len() implies #[trigger] name@[x] != 0x0au8 by {
                assert(h@.subrange(n1 + 1, n2 as int)[x] == name@[x]);
            }
        }
        assert(no_newline(desc@)) by {
            assert forall|x: int| 0 <= x < desc@.len() implies #[trigger] desc@[x] != 0x0au8 by {
                assert(h@.subrange(n2 + 1, n3 as int)[x] == desc@[x]);
            }
        }
    }
    Ok(IndexHeader { header_len: (n3 + 3) as u64, key_type, description, key_size, payload_size })
}

/// The compressed table of `c` lies after a header of `hl` bytes.
pub open spec fn trailer_fits(c: Seq<u8>, hl: int) -> bool {
    c.len() >= 4 + hl && table_len(c) <= c.len() - 4 - hl
}

/// Serialized table `raw` has a valid depth.
pub open spec fn raw_depth_ok(raw: Seq<u8>) -> bool {
    raw.len() > 0 && raw[0] <= 24
}

/// Serialized table `raw` has a valid depth and one offset per slot.
pub open spec fn raw_size_ok(raw: Seq<u8>) -> bool {
    raw_depth_ok(raw) && raw.len() == 1 + 8 * (pow2(raw[0] as nat) + 1)
}

/// The offsets of serialized table `raw` never decrease.
pub open spec fn raw_sorted(raw: Seq<u8>) -> bool {
    forall|i: int, j: int| 0 <= i <= j < pow2(raw[0] as nat) + 1 ==> raw_offset(raw, i) <= raw_offset(raw, j)
}

/// Read the bucket table at the end of `database`, after a header of
/// `header_len` bytes.
pub fn read_table<R: ReadAt + FileLen>(database: &R, header_len: u64) -> (r: Result<Table, TableReadError>)
    ensures
        r matches Ok(t) ==> stored_table(database.content(), t) && trailer_fits(database.content(), header_len as int),
        !trailer_fits(database.content(), header_len as int) ==> r is Err,
        ({
            let raw = inflated(table_blob(database.content()));
            &&& trailer_fits(database.content(), header_len as int) && raw.len() > 0 && !raw_depth_ok(raw) ==> (r matches Err(
                TableReadError::InvalidDepth { .. },
            ) || r matches Err(TableReadError::IOError(_)))
            &&& trailer_fits(database.content(), header_len as int) && raw_depth_ok(raw) && raw.len() > 1 + 8 * (pow2(
                raw[0] as nat,
            ) + 1) ==> (r matches Err(TableReadError::TooMuchTableData) || r matches Err(TableReadError::IOError(_)))
            &&& trailer_fits(database.content(), header_len as int) && raw_size_ok(raw) && !raw_sorted(raw) ==> (r matches Err(
                TableReadError::InvalidTableOffsets,
            ) || r matches Err(TableReadError::IOError(_)))
            &&& r matches Ok(t) ==> raw_size_ok(raw) && raw_sorted(raw) && t.depth@ == raw[0]
            &&& (r matches Err(TableReadError::InvalidDepth { .. })) ==> !raw_depth_ok(raw)
            &&& (r matches Err(TableReadError::TooMuchTableData)) ==> raw_depth_ok(raw) && !raw_size_ok(raw)
            &&& (r matches Err(TableReadError::InvalidTableOffsets)) ==> raw_size_ok(raw) && !raw_sorted(raw)
        }),
{
    let len = match database.file_len() {
        Ok(n) => n,
        Err(e) => return Err(TableReadError::IOError(e)),
    };
    if len < 4 || len - 4 < header_len {
        return Err(TableReadError::IOError(unexpected_eof()));
    }
    let trailer = match read_exact_at(database, 4, len - 4) {
        Ok(v) => v,
        Err(e) => return Err(TableReadError::IOError(e)),
    };
    let tsize = read_be(trailer.as_slice(), 0, 4);
    proof {
        assert(trailer@.subrange(0, 4) =~= trailer@);
    }
    if tsize > len - 4 - header_len {
        return Err(TableReadError::IOError(invalid_data()));
    }
    let blob = match read_exact_at(database, (tsize as u32) as usize, len - 4 - tsize) {
        Ok(v) => v,
        Err(e) => return Err(TableReadError::IOError(e)),
    };
    let raw = match inflate(blob.as_slice()) {
        Ok(v) => v,
        Err(e) => return Err(TableReadError::IOError(e)),
    };
    proof {
        let c = database.content();
        assert(trailer@ == c.subrange(c.len() - 4, c.len() as int));
        assert(tsize == table_len(c));
        vstd::arithmetic::power2::lemma2_to64();
        assert((tsize as u32) as usize == tsize);
        if tsize == 0 {
            assert(blob@ =~= c.subrange(c.len() - 4 - tsize, c.len() - 4));
        }
        assert(blob@ == table_blob(c));
        assert(raw@ == inflated(table_blob(c)));
    }
    Table::from_raw(raw.as_slice())
}

/// Reader of an index file over `R`.
pub struct Index<R> {
    pub key_type: KeyType,
    pub description: String,
    pub key_size: u8,
    pub payload_size: u8,
    pub table: Table,
    pub database: R,
}

impl<R: ReadAt + FileLen> Index<R> {
    /// The table is valid and keys fit its depth.
    pub open spec fn wf(&self) -> bool {
        &&& self.table.wf()
        &&& self.table.depth.valid_key_size_spec(self.key_size as nat)
    }

    /// Size in bytes of one stored entry.
    pub open spec fn entry_size(&self) -> nat {
        (self.key_size - self.table.depth@ / 8 + self.payload_size) as nat
    }

    /// Size in bytes of the stored part of a key.
    pub open spec fn stored_key_size(&self) -> nat {
        (self.key_size - self.table.depth@ / 8) as nat
    }

    /// Stored key of the `i`-th entry from offset `s`, as compared.
    pub open spec fn stored_key(&self, s: int, i: int) -> Seq<u8> {
        let e = self.entry_size() as int;
        masked_entry_key(
            self.database.content().subrange(s + i * e, s + i * e + self.stored_key_size()),
            self.table.depth@,
        )
    }

    /// Payload of the `i`-th entry from offset `s`.
    pub open spec fn stored_payload(&self, s: int, i: int) -> Seq<u8> {
        let e = self.entry_size() as int;
        self.database.content().subrange(s + i * e + self.stored_key_size(), s + (i + 1) * e)
    }

    /// Start offset of the bucket of `key`.
    pub open spec fn bucket_start(&self, key: Seq<u8>) -> int {
        self.table.file_offsets@[bucket_of(self.table.depth@, key) as int] as int
    }

    /// Bucket `b` does not hold a whole number of entries.
    pub open spec fn misaligned(&self, b: int) -> bool {
        (self.table.file_offsets@[b + 1] - self.table.file_offsets@[b]) % (self.entry_size() as int) != 0
    }

    /// Length in bytes of the bucket of `key`.
    pub open spec fn bucket_len(&self, key: Seq<u8>) -> int {
        self.table.file_offsets@[bucket_of(self.table.depth@, key) + 1int] - self.bucket_start(key)
    }

    /// Scanning the bucket of `key` meets an entry equal to it, after only
    /// smaller ones, and that entry's payload is `p`.
    pub open spec fn scan_finds(&self, key: Seq<u8>, p: Seq<u8>) -> bool {
        let s = self.bucket_start(key);
        let e = self.entry_size() as int;
        let t = strip_key(key, self.table.depth@);
        exists|i: int| #![trigger self.stored_key(s, i)]
            0 <= i < self.bucket_len(key) / e && s + (i + 1) * e <= self.database.content().len()
            && (forall|j: int| 0 <= j < i ==> lex_lt(#[trigger] self.stored_key(s, j), t))
            && self.stored_key(s, i) == t && p == self.stored_payload(s, i)
    }

    /// Scanning the bucket of `key` meets no entry equal to it before a
    /// greater one or the end of the bucket.
    pub open spec fn scan_misses(&self, key: Seq<u8>) -> bool {
        let s = self.bucket_start(key);
        let e = self.entry_size() as int;
        let t = strip_key(key, self.table.depth@);
        forall|i: int| #![trigger self.stored_key(s, i)]
            0 <= i < self.bucket_len(key) / e && (forall|j: int| 0 <= j < i ==> lex_lt(#[trigger] self.stored_key(s, j), t))
            ==> self.stored_key(s, i) != t
    }

    /// Open an index: parse its header and its table.
    pub fn open(database: R) -> (r: Result<Index<R>, IndexOpenError>)
        ensures
            r matches Ok(ix) ==> {
                &&& ix.wf()
                &&& ix.database == database
                &&& has_index_header(
                    till_eof(database.content(), 0, 4096),
                    ix.key_type.spec_name(),
                    encode_utf8(ix.description@),
                    ix.key_size,
                    ix.payload_size,
                )
                &&& stored_table(database.content(), ix.table)
                &&& header_fields_ok(till_eof(database.content(), 0, 4096))
                &&& trailer_fits(database.content(), header_end(till_eof(database.content(), 0, 4096)))
            },
            ({
                let c = database.content();
                let h = till_eof(c, 0, 4096);
                let raw = inflated(table_blob(c));
                let io = (r matches Err(IndexOpenError::IOError(_))) || (r matches Err(
                    IndexOpenError::TableReadError(TableReadError::IOError(_)),
                ));
                &&& (r matches Err(IndexOpenError::InvalidHeader)) ==> bad_index_lines(h)
                &&& bad_index_lines(h) ==> (r matches Err(IndexOpenError::InvalidHeader) || io)
                &&& (r matches Err(IndexOpenError::KeyTypeError(_))) ==> bad_key_name(h)
                &&& bad_key_name(h) ==> (r matches Err(IndexOpenError::KeyTypeError(_)) || io)
                &&& header_fields_ok(h) && !trailer_fits(c, header_end(h)) ==> r is Err
                &&& header_fields_ok(h) && trailer_fits(c, header_end(h)) && raw_size_ok(raw) && !raw_sorted(raw) ==> (r matches Err(
                    IndexOpenError::TableReadError(TableReadError::InvalidTableOffsets),
                ) || io)
                &&& header_fields_ok(h) && trailer_fits(c, header_end(h)) && raw_size_ok(raw) && raw_sorted(raw) && !(
                h[header_end(h) - 2] > 0 && raw[0] / 8 + 1 <= h[header_end(h) - 2]) ==> (r matches Err(
                    IndexOpenError::InvalidKeyLength,
                ) || io)
                &&& (r matches Err(IndexOpenError::InvalidKeyLength)) ==> (header_fields_ok(h) && raw_size_ok(raw)
                    && !(h[header_end(h) - 2] > 0 && raw[0] / 8 + 1 <= h[header_end(h) - 2]))
            }),
    {
        let h = match read_at_till_eof(&database, 4096, 0) {
            Ok(v) => v,
            Err(e) => return Err(IndexOpenError::IOError(e)),
        };
        let hd = match parse_index_header(h.as_slice()) {
            Ok(hd) => hd,
            Err(e) => return Err(e),
        };
        let table = match read_table(&database, hd.header_len) {
            Ok(t) => t,
            Err(e) => {
                assert(header_fields_ok(h@));
                assert(!bad_index_lines(h@));
                return Err(IndexOpenError::TableReadError(e));
            },
        };
        if !table.depth.valid_key_size(hd.key_size) {
            return Err(IndexOpenError::InvalidKeyLength);
        }
        Ok(Index {
            key_type: hd.key_type,
            description: hd.description,
            key_size: hd.key_size,
            payload_size: hd.payload_size,
            table,
            database,
        })
    }

    /// Key type of the index.
    pub fn key_type(&self) -> (r: &KeyType)
        ensures
            r == &self.key_type,
    {
        &self.key_type
    }

    /// Description of the index.
    pub fn description(&self) -> (r: &str)
        ensures
            r@ == self.description@,
    {
        self.description.as_str()
    }

    /// Length in bytes of each key.
    pub fn key_size(&self) -> (r: u8)
        ensures
            r == self.key_size,
    {
        self.key_size
    }

    /// Length in bytes of each payload.
    pub fn payload_size(&self) -> (r: u8)
        ensures
            r == self.payload_size,
    {
        self.payload_size
    }

    /// Look up `key`: scan its bucket while entries stay below it.
    ///
    /// Returns the payload of the entry whose key equals `key`, if the scan
    /// meets it.
    pub fn lookup(&self, key: &[u8]) -> (r: Result<Option<Vec<u8>>, LookupError>)
        requires
            self.wf(),
            key@.len() == self.key_size,
        ensures
            (self.bucket_len(key@) % (self.entry_size() as int) != 0) == (r matches Err(
                LookupError::InvalidSegmentLength,
            )),
            r matches Ok(Some(p)) ==> self.scan_finds(key@, p@) && p@.len() == self.payload_size,
            r matches Ok(None) ==> self.scan_misses(key@),
            self.bucket_len(key@) == 0 ==> r matches Ok(None),
    {
        let depth = self.table.depth;
        let d = depth.as_u8();
        let (start, end) = self.table.lookup(key);
        let ks: usize = (self.key_size - d / 8) as usize;
        let es: u64 = ks as u64 + self.payload_size as u64;
        let ghost b = bucket_of(depth@, key@) as int;
        let ghost s = start as int;
        let ghost e = es as int;
        let ghost t = strip_key(key@, depth@);
        proof {
            if end == start {
                vstd::arithmetic::div_mod::lemma_small_mod(0, es as nat);
            }
        }
        if (end - start) % es != 0 {
            return Err(LookupError::InvalidSegmentLength);
        }
        let n: u64 = (end - start) / es;
        proof {
            let x = (end - start) as int;
            vstd::arithmetic::div_mod::lemma_fundamental_div_mod(x, e);
            assert(n * es == end - start) by (nonlinear_arith)
                requires
                    x == e * (x / e) + x % e,
                    x % e == 0,
                    n == x / e,
                    e == es,
                    x == end - start,
            ;
        }
        let target = KeySuffix::new(depth, key);
        let mut pages = BufReader::new(&self.database, LOOKUP_CACHE_PAGES);
        let _ = pages.seek(SeekFrom::Start(start));
        let mut i: u64 = 0;
        while i < n
            invariant
                i <= n,
                pages.wf(),
                pages.reader == &self.database,
                pages.position == start + i * es,
                n * es == end - start,
                n == (end - start) as int / (es as int),
                (end - start) % (es as int) == 0,
                es == self.entry_size(),
                ks == self.stored_key_size(),
                es > 0,
                ks > 0,
                start <= end,
                s == start,
                e == es,
                t == target@,
                t == strip_key(key@, depth@),
                target.depth == depth,
                depth == self.table.depth,
                self.wf(),
                t.len() == ks,
                b == bucket_of(depth@, key@),
                start == self.table.file_offsets@[b],
                end == self.table.file_offsets@[b + 1],
                forall|j: int| 0 <= j < i ==> lex_lt(#[trigger] self.stored_key(s, j), t),
            decreases n - i,
        {
            proof {
                vstd::arithmetic::mul::lemma_mul_inequality((i + 1) as int, n as int, es as int);
                assert((i + 1) * es == i * es + es) by (nonlinear_arith);
            }
            let entry = match pages.read_exact(es as usize) {
                Ok(v) => v,
                Err(err) => return Err(LookupError::IOError(err)),
            };
            let key_part = crate::header::slice_bytes(entry.as_slice(), 0, ks);
            let ghost c = self.database.content();
            proof {
                assert(key_part@ =~= c.subrange(s + i * e, s + i * e + ks));
            }
            match target.compare_entry(key_part.as_slice()) {
                Ordering::Equal => {
                    let payload = crate::header::slice_bytes(entry.as_slice(), ks, es as usize);
                    proof {
                        assert(payload@ =~= self.stored_payload(s, i as int));
                        assert(self.stored_key(s, i as int) == t);
                        assert((i + 1) * es == i * es + es) by (nonlinear_arith);
                        assert(s + (i + 1) * e <= self.database.content().len());
                        assert(0 <= i < n);
                        assert(forall|j: int| 0 <= j < i ==> lex_lt(#[trigger] self.stored_key(s, j), t));
                        assert(self.scan_finds(key@, payload@));

                    }
                    return Ok(Some(payload));
                },
                Ordering::Greater => {},
                Ordering::Less => {
                    proof {
                        assert forall|x: int| #![trigger self.stored_key(s, x)]
                            0 <= x < n && (forall|j: int| 0 <= j < x ==> lex_lt(#[trigger] self.stored_key(s, j), t))
                            implies self.stored_key(s, x) != t by {
                            if x < i {
                                crate::bytes::lemma_lex_asym(self.stored_key(s, x), t);
                            } else if x == i {
                                crate::bytes::lemma_lex_asym(t, self.stored_key(s, x));
                            } else {
                                crate::bytes::lemma_lex_asym(t, self.stored_key(s, i as int));
                            }
                        }
                    }
                    return Ok(None);
                },
            }
            i = i + 1;
        }
        proof {
            assert forall|x: int| #![trigger self.stored_key(s, x)]
                0 <= x < n && (forall|j: int| 0 <= j < x ==> lex_lt(#[trigger] self.stored_key(s, j), t))
                implies self.stored_key(s, x) != t by {
                crate::bytes::lemma_lex_asym(self.stored_key(s, x), t);
            }
        }
        Ok(None)
    }
}

/// Key rebuilt from bucket `b` of a table of depth `d` and the stored key
/// `e` of one of its entries.
pub open spec fn rebuilt_key(d: nat, key_size: nat, b: nat, e: Seq<u8>) -> Seq<u8> {
    unsplit_bytes(
        prefix_bytes(bucket_bytes(d, b), key_size, d),
        suffix_bytes(Seq::new(d / 8, |i: int| 0u8) + e, d),
    )
}

/// The entries a range scan yields from `es`: those whose first `key_bits`
/// bits equal `query`, skipping smaller ones, up to the first greater one.
pub open spec fn scan_range(es: Seq<(Seq<u8>, Seq<u8>)>, query: Seq<u8>, key_bits: nat) -> Seq<(Seq<u8>, Seq<u8>)>
    decreases es.len(),
{
    if es.len() == 0 {
        Seq::empty()
    } else {
        let pk = prefix_bytes(es[0].0, es[0].0.len(), key_bits);
        if pk == query {
            seq![es[0]] + scan_range(es.drop_first(), query, key_bits)
        } else if lex_lt(pk, query) {
            scan_range(es.drop_first(), query, key_bits)
        } else {
            Seq::empty()
        }
    }
}

/// Keys and payloads of `v` as byte strings.
pub open spec fn pairs_view(v: Seq<(Vec<u8>, Vec<u8>)>) -> Seq<(Seq<u8>, Seq<u8>)> {
    Seq::new(v.len(), |i: int| (v[i].0@, v[i].1@))
}

/// Outcome of testing one entry during a scan.
#[derive(Clone, Copy, PartialEq, Eq, Structural, Debug)]
pub enum ForwardSearchResult {
    /// The entry matches.
    Match,
    /// The entry is smaller: go on.
    Continue,
    /// The entry is greater: nothing further can match.
    Break,
}

/// Tests keys against the first `key_bits` bits of a query key.
pub struct ForwardRangeSearch {
    pub prefix: Vec<u8>,
    pub key_bits: u32,
}

impl ForwardRangeSearch {
    /// Search for keys of `key_size` bytes sharing the first `key_bits` bits of `key`.
    pub fn new(key: &[u8], key_bits: u32, key_size: usize) -> (r: ForwardRangeSearch)
        requires
            key_bits as int <= key_size * 8,
            (key_bits as int + 7) / 8 <= key@.len(),
        ensures
            r.prefix@ == prefix_bytes(key@, key_size as nat, key_bits as nat),
            r.key_bits == key_bits,
    {
        ForwardRangeSearch { prefix: prefix_of(key, key_size, key_bits), key_bits }
    }

    /// Compare the first `key_bits` bits of `key` with those searched for.
    pub fn test_key(&self, key: &[u8]) -> (r: ForwardSearchResult)
        requires
            (self.key_bits as int + 7) / 8 <= key@.len(),
            self.key_bits as int <= self.prefix@.len() * 8,
        ensures
            (r == ForwardSearchResult::Match) == (prefix_bytes(key@, self.prefix@.len(), self.key_bits as nat)
                == self.prefix@),
            (r == ForwardSearchResult::Continue) == lex_lt(
                prefix_bytes(key@, self.prefix@.len(), self.key_bits as nat),
                self.prefix@,
            ),
            (r == ForwardSearchResult::Break) == lex_lt(
                self.prefix@,
                prefix_bytes(key@, self.prefix@.len(), self.key_bits as nat),
            ),
    {
        let kp = prefix_of(key, self.prefix.len(), self.key_bits);
        match crate::bytes::compare_bytes(self.prefix.as_slice(), kp.as_slice()) {
            Ordering::Equal => ForwardSearchResult::Match,
            Ordering::Greater => ForwardSearchResult::Continue,
            Ordering::Less => ForwardSearchResult::Break,
        }
    }
}

/// State of a walk over the entries whose keys share a bit prefix.
pub struct IndexWalk<'a, R> {
    pub pages: BufReader<'a, R>,
    pub search: ForwardRangeSearch,
    pub prefixes: LimPrefixRange,
    pub current: Option<LimPrefix>,
    pub offset: u64,
    pub remaining: u64,
    pub done: bool,
}

impl<'a, R> IndexWalk<'a, R> {
    /// Decreases with every entry read and every bucket opened.
    pub open spec fn measure(&self) -> int {
        (self.prefixes.end - self.prefixes.first) * 0x1_0000_0000_0000_0001 + self.remaining + if self.current is Some {
            1int
        } else {
            0int
        }
    }
}

impl<R: ReadAt + FileLen> Index<R> {
    /// `w` walks this index.
    pub open spec fn walk_wf(&self, w: &IndexWalk<'_, R>) -> bool {
        let e = self.entry_size() as int;
        &&& w.pages.wf()
        &&& w.pages.reader == &self.database
        &&& w.current is Some ==> w.pages.position == w.offset
        &&& w.prefixes.wf()
        &&& w.prefixes.depth == self.table.depth
        &&& w.search.prefix@.len() == self.key_size
        &&& w.search.key_bits <= self.key_size * 8
        &&& w.current matches Some(p) ==> {
            &&& p.wf()
            &&& p.depth == self.table.depth
            &&& self.table.file_offsets@[p.bucket as int] <= w.offset
            &&& w.offset + w.remaining * e == self.table.file_offsets@[p.bucket + 1int]
            &&& (w.offset - self.table.file_offsets@[p.bucket as int]) % e == 0
        }
    }

    /// Entry at offset `o` of bucket `b` is stored in the file, and rebuilds
    /// to key `k` with payload `p`.
    pub open spec fn holds_entry(&self, b: nat, o: int, k: Seq<u8>, p: Seq<u8>) -> bool {
        let e = self.entry_size() as int;
        let ks = self.stored_key_size() as int;
        &&& b < pow2(self.table.depth@)
        &&& self.table.file_offsets@[b as int] <= o
        &&& o + e <= self.table.file_offsets@[b + 1int]
        &&& (o - self.table.file_offsets@[b as int]) % e == 0
        &&& o + e <= self.database.content().len()
        &&& k == rebuilt_key(self.table.depth@, self.key_size as nat, b, self.database.content().subrange(o, o + ks))
        &&& p == self.database.content().subrange(o + ks, o + e)
    }

    /// Entries of bucket `b`, keys rebuilt, in file order.
    pub open spec fn bucket_entries(&self, b: int) -> Seq<(Seq<u8>, Seq<u8>)> {
        let s = self.table.file_offsets@[b] as int;
        let e = self.entry_size() as int;
        let ks = self.stored_key_size() as int;
        let c = self.database.content();
        Seq::new(
            ((self.table.file_offsets@[b + 1] - s) / e) as nat,
            |i: int|
                (
                    rebuilt_key(self.table.depth@, self.key_size as nat, b as nat, c.subrange(s + i * e, s + i * e + ks)),
                    c.subrange(s + i * e + ks, s + (i + 1) * e),
                ),
        )
    }

    /// Entries of buckets `first` to `end`, in file order.
    pub open spec fn range_entries(&self, first: int, end: int) -> Seq<(Seq<u8>, Seq<u8>)>
        decreases end - first,
    {
        if first >= end {
            Seq::empty()
        } else {
            self.bucket_entries(first) + self.range_entries(first + 1, end)
        }
    }

    /// Entries a walk has yet to read.
    pub open spec fn walk_rest(&self, w: &IndexWalk<'_, R>) -> Seq<(Seq<u8>, Seq<u8>)> {
        if w.done {
            Seq::empty()
        } else {
            let cur = match w.current {
                Some(p) => {
                    let be = self.bucket_entries(p.bucket as int);
                    be.subrange(be.len() - w.remaining, be.len() as int)
                },
                None => Seq::empty(),
            };
            cur + self.range_entries(w.prefixes.first as int, w.prefixes.end as int)
        }
    }

    /// `kp` is a stored entry whose key starts with the first `key_bits`
    /// bits of `query`.
    pub open spec fn range_entry(&self, query: Seq<u8>, key_bits: nat, kp: (Vec<u8>, Vec<u8>)) -> bool {
        &&& prefix_bytes(kp.0@, self.key_size as nat, key_bits) == query
        &&& kp.0@.len() == self.key_size
        &&& kp.1@.len() == self.payload_size
        &&& exists|b: nat, o: int| self.holds_entry(b, o, kp.0@, kp.1@)
    }

    /// Start a walk over the entries whose first `key_bits` bits equal those of `key`.
    pub fn walk(&self, key: &[u8], key_bits: u32) -> (r: IndexWalk<'_, R>)
        requires
            self.wf(),
            key_bits as int <= self.key_size * 8,
            (key_bits as int + 7) / 8 <= key@.len(),
        ensures
            self.walk_wf(&r),
            r.search.prefix@ == prefix_bytes(key@, self.key_size as nat, key_bits as nat),
            r.search.key_bits == key_bits,
            r.prefixes == self.table.depth.prefix_range_spec(key@, key_bits as nat),
            r.current is None,
            !r.done,
    {
        let search = ForwardRangeSearch::new(key, key_bits, self.key_size as usize);
        let prefixes = self.table.depth.prefix_range(key, key_bits);
        let pages = BufReader::new(&self.database, LOOKUP_CACHE_PAGES);
        IndexWalk { pages, search, prefixes, current: None, offset: 0, remaining: 0, done: false }
    }

    /// The next entry of the walk whose key matches; `None` once none is left.
    #[verifier::rlimit(80)]
    pub fn next_match(&self, w: &mut IndexWalk<'_, R>) -> (r: Result<Option<(Vec<u8>, Vec<u8>)>, LookupError>)
        requires
            self.wf(),
            self.walk_wf(old(w)),
        ensures
            r is Ok ==> self.walk_wf(final(w)),
            final(w).search == old(w).search,
            final(w).measure() <= old(w).measure(),
            r matches Ok(Some(_)) ==> final(w).measure() < old(w).measure(),
            r matches Ok(Some(kp)) ==> self.range_entry(old(w).search.prefix@, old(w).search.key_bits as nat, kp),
            r matches Ok(Some(kp)) ==> scan_range(self.walk_rest(old(w)), old(w).search.prefix@, old(w).search.key_bits as nat)
                == seq![(kp.0@, kp.1@)] + scan_range(self.walk_rest(final(w)), old(w).search.prefix@, old(w).search.key_bits as nat),
            r matches Ok(None) ==> scan_range(self.walk_rest(old(w)), old(w).search.prefix@, old(w).search.key_bits as nat)
                == Seq::<(Seq<u8>, Seq<u8>)>::empty(),
            r matches Ok(None) ==> final(w).done,
            old(w).done ==> r matches Ok(None),
            old(w).current is None && old(w).prefixes.first >= old(w).prefixes.end ==> r matches Ok(None),
            r matches Err(LookupError::InvalidSegmentLength) ==> exists|b: int|
                old(w).prefixes.first <= b < old(w).prefixes.end && #[trigger] self.misaligned(b),
            !old(w).done && old(w).current is None && old(w).prefixes.first < old(w).prefixes.end && self.misaligned(
                old(w).prefixes.first as int,
            ) ==> r matches Err(LookupError::InvalidSegmentLength),
    {
        let depth = self.table.depth;
        let d = depth.as_u8();
        let ks: usize = (self.key_size - d / 8) as usize;
        let es: u64 = ks as u64 + self.payload_size as u64;
        let ghost w0 = w.measure();
        let ghost q = old(w).search.prefix@;
        let ghost kb = old(w).search.key_bits as nat;
        let ghost goal = scan_range(self.walk_rest(old(w)), q, kb);
        loop
            invariant
                self.wf(),
                self.walk_wf(w),
                w.search == old(w).search,
                q == w.search.prefix@,
                kb == w.search.key_bits,
                q == old(w).search.prefix@,
                kb == old(w).search.key_bits,
                goal == scan_range(self.walk_rest(old(w)), q, kb),
                scan_range(self.walk_rest(w), q, kb) == goal,
                w.prefixes.end == old(w).prefixes.end,
                old(w).prefixes.first <= w.prefixes.first,
                w.done == old(w).done,
                (old(w).current is None && w.prefixes.first == old(w).prefixes.first) ==> w.current is None,
                (old(w).current is None && w.prefixes.first > old(w).prefixes.first) ==> !self.misaligned(
                    old(w).prefixes.first as int,
                ),
                w.measure() <= w0,
                w0 == old(w).measure(),
                depth == self.table.depth,
                d == depth@,
                es == self.entry_size(),
                ks == self.stored_key_size(),
            decreases w.measure(),
        {
            if w.done {
                assert(self.walk_rest(w) =~= Seq::<(Seq<u8>, Seq<u8>)>::empty());
                assert(scan_range(self.walk_rest(w), q, kb) =~= Seq::<(Seq<u8>, Seq<u8>)>::empty());
                return Ok(None);
            }
            let ghost rest0 = self.walk_rest(w);
            match w.current {
                Some(prefix) => {
                    if w.remaining == 0 {
                        w.current = None;
                        assert(self.walk_rest(w) =~= rest0);
                    } else {
                        proof {
                            assert(w.remaining * es == (w.remaining - 1) * es + es) by (nonlinear_arith);
                            assert((w.remaining - 1) * es >= 0) by (nonlinear_arith)
                                requires w.remaining >= 1;
                        }
                        let at = w.offset;
                        let entry = match w.pages.read_exact(es as usize) {
                            Ok(v) => v,
                            Err(err) => return Err(LookupError::IOError(err)),
                        };
                        let ghost s0 = self.table.file_offsets@[prefix.bucket as int];
                        w.offset = at + es;
                        w.remaining = w.remaining - 1;
                        proof {
                            vstd::arithmetic::div_mod::lemma_mod_add_multiples_vanish((at - s0) as int, es as int);
                        }
                        let mut key: Vec<u8> = Vec::new();
                        let mut i: usize = 0;
                        while i < (d / 8) as usize
                            invariant
                                i <= d / 8,
                                key@ == Seq::new(i as nat, |j: int| 0u8),
                            decreases d / 8 - i,
                        {
                            key.push(0u8);
                            i = i + 1;
                            assert(key@ =~= Seq::new(i as nat, |j: int| 0u8));
                        }
                        let stored = crate::header::slice_bytes(entry.as_slice(), 0, ks);
                        crate::bytes::append_bytes(&mut key, stored.as_slice());
                        let payload = crate::header::slice_bytes(entry.as_slice(), ks, es as usize);
                        let ghost c = self.database.content();
                        prefix.set_key_prefix(&mut key);
                        proof {
                            assert(stored@ =~= c.subrange(at as int, at + ks));
                            assert(payload@ =~= c.subrange(at + ks, at + es));
                            assert(self.holds_entry(prefix.bucket as nat, at as int, key@, payload@));
                            assert(key@.len() == self.key_size);
                            let b = prefix.bucket as int;
                            let be = self.bucket_entries(b);
                            let fb = self.table.file_offsets@[b] as int;
                            let fb1 = self.table.file_offsets@[b + 1] as int;
                            let e = es as int;
                            let rem = w.remaining as int + 1;
                            let idx = (at - fb) / e;
                            vstd::arithmetic::div_mod::lemma_fundamental_div_mod(at - fb, e);
                            assert(at - fb == e * idx);
                            assert(fb1 - fb == (idx + rem) * e) by (nonlinear_arith)
                                requires
                                    at - fb == e * idx,
                                    at + rem * e == fb1,
                            ;
                            vstd::arithmetic::div_mod::lemma_div_by_multiple(idx + rem, e);
                            assert(be.len() == idx + rem);
                            assert(fb + idx * e == at) by (nonlinear_arith)
                                requires
                                    at - fb == e * idx,
                            ;
                            assert(fb + (idx + 1) * e == at + e) by (nonlinear_arith)
                                requires
                                    fb + idx * e == at,
                            ;
                            assert(be[idx] == (key@, payload@));
                            assert(rest0 =~= seq![(key@, payload@)] + self.walk_rest(w));
                            assert(rest0.drop_first() =~= self.walk_rest(w));
                            crate::bytes::lemma_lex_asym(prefix_bytes(key@, key@.len(), kb), q);
                            crate::bytes::lemma_lex_asym(q, prefix_bytes(key@, key@.len(), kb));
                        }
                        match w.search.test_key(key.as_slice()) {
                            ForwardSearchResult::Match => {
                                assert(scan_range(rest0, q, kb) == seq![(key@, payload@)] + scan_range(self.walk_rest(w), q, kb));
                                let kp = (key, payload);
                                assert(kp.0@.len() == self.key_size);
                                assert(self.holds_entry(prefix.bucket as nat, at as int, kp.0@, kp.1@));
                                assert(prefix_bytes(kp.0@, self.key_size as nat, old(w).search.key_bits as nat) == old(w).search.prefix@);
                                return Ok(Some(kp));
                            },
                            ForwardSearchResult::Continue => {
                                assert(scan_range(rest0, q, kb) == scan_range(self.walk_rest(w), q, kb));
                            },
                            ForwardSearchResult::Break => {
                                assert(scan_range(rest0, q, kb) =~= Seq::<(Seq<u8>, Seq<u8>)>::empty());
                                w.done = true;
                                return Ok(None);
                            },
                        }
                    }
                },
                None => {
                    let ghost old_first = w.prefixes.first as int;
                    match w.prefixes.next() {
                        None => {
                            assert(rest0 =~= Seq::<(Seq<u8>, Seq<u8>)>::empty());
                            w.done = true;
                            return Ok(None);
                        },
                        Some(prefix) => {
                            let (start, end) = self.table.lookup_prefix(prefix);
                            proof {
                                vstd::arithmetic::power2::lemma2_to64();
                                if self.table.depth@ < 24 {
                                    vstd::arithmetic::power2::lemma_pow2_strictly_increases(self.table.depth@, 24);
                                }
                                assert(prefix.bucket as int == old_first);
                            }
                            if (end - start) % es != 0 {
                                assert(self.misaligned(old_first));
                                return Err(LookupError::InvalidSegmentLength);
                            }
                            assert(!self.misaligned(old_first));
                            proof {
                                vstd::arithmetic::div_mod::lemma_fundamental_div_mod((end - start) as int, es as int);
                                vstd::arithmetic::div_mod::lemma_small_mod(0, es as nat);
                                assert((end - start) as int / (es as int) * es == es * ((end - start) as int / (es as int))) by (nonlinear_arith);
                            }
                            let _ = w.pages.seek(SeekFrom::Start(start));
                            w.current = Some(prefix);
                            w.offset = start;
                            w.remaining = (end - start) / es;
                            proof {
                                vstd::arithmetic::power2::lemma2_to64();
                                if self.table.depth@ < 24 {
                                    vstd::arithmetic::power2::lemma_pow2_strictly_increases(self.table.depth@, 24);
                                }
                                let b = prefix.bucket as int;
                                assert(b == old_first);
                                let be = self.bucket_entries(b);
                                assert(be.len() == w.remaining);
                                assert(be.subrange(be.len() - w.remaining, be.len() as int) =~= be);
                                assert(rest0 == self.range_entries(old_first, w.prefixes.end as int));
                                assert(self.range_entries(old_first, w.prefixes.end as int) == be + self.range_entries(
                                    old_first + 1,
                                    w.prefixes.end as int,
                                ));
                                assert(self.walk_rest(w) =~= rest0);
                            }
                        },
                    }
                },
            }
        }
    }

    /// Every entry whose first `key_bits` bits equal those of `key`, in file order.
    pub fn lookup_range(&self, key: &[u8], key_bits: u32) -> (r: Result<Vec<(Vec<u8>, Vec<u8>)>, LookupError>)
        requires
            self.wf(),
            key_bits as int <= self.key_size * 8,
            (key_bits as int + 7) / 8 <= key@.len(),
        ensures
            r matches Ok(v) ==> forall|i: int| 0 <= i < v@.len() ==> self.range_entry(
                prefix_bytes(key@, self.key_size as nat, key_bits as nat),
                key_bits as nat,
                #[trigger] v@[i],
            ),
            r matches Ok(v) ==> pairs_view(v@) == scan_range(
                self.range_entries(
                    self.table.depth.prefix_range_spec(key@, key_bits as nat).first as int,
                    self.table.depth.prefix_range_spec(key@, key_bits as nat).end as int,
                ),
                prefix_bytes(key@, self.key_size as nat, key_bits as nat),
                key_bits as nat,
            ),
    {
        let mut w = self.walk(key, key_bits);
        let mut out: Vec<(Vec<u8>, Vec<u8>)> = Vec::new();
        let ghost q = prefix_bytes(key@, self.key_size as nat, key_bits as nat);
        let ghost goal = scan_range(
            self.range_entries(
                self.table.depth.prefix_range_spec(key@, key_bits as nat).first as int,
                self.table.depth.prefix_range_spec(key@, key_bits as nat).end as int,
            ),
            q,
            key_bits as nat,
        );
        assert(self.walk_rest(&w) =~= self.range_entries(w.prefixes.first as int, w.prefixes.end as int));
        assert(pairs_view(out@) =~= Seq::<(Seq<u8>, Seq<u8>)>::empty());
        assert(pairs_view(out@) + scan_range(self.walk_rest(&w), q, key_bits as nat) =~= goal);
        loop
            invariant
                self.wf(),
                self.walk_wf(&w),
                pairs_view(out@) + scan_range(self.walk_rest(&w), q, key_bits as nat) == goal,
                goal == scan_range(
                    self.range_entries(
                        self.table.depth.prefix_range_spec(key@, key_bits as nat).first as int,
                        self.table.depth.prefix_range_spec(key@, key_bits as nat).end as int,
                    ),
                    q,
                    key_bits as nat,
                ),
                q == prefix_bytes(key@, self.key_size as nat, key_bits as nat),
                w.search.prefix@ == prefix_bytes(key@, self.key_size as nat, key_bits as nat),
                w.search.key_bits == key_bits,
                forall|i: int| 0 <= i < out@.len() ==> self.range_entry(
                    prefix_bytes(key@, self.key_size as nat, key_bits as nat),
                    key_bits as nat,
                    #[trigger] out@[i],
                ),
            decreases w.measure(),
        {
            let ghost before = out@;
            match self.next_match(&mut w) {
                Ok(Some(entry)) => {
                    out.push(entry);
                    proof {
                        assert(pairs_view(out@) =~= pairs_view(before) + seq![(entry.0@, entry.1@)]);
                        assert(pairs_view(out@) + scan_range(self.walk_rest(&w), q, key_bits as nat) =~= pairs_view(before)
                            + (seq![(entry.0@, entry.1@)] + scan_range(self.walk_rest(&w), q, key_bits as nat)));
                    }
                },
                Ok(None) => {
                    assert(pairs_view(out@) =~= goal);
                    assert(pairs_view(out@) == scan_range(
                        self.range_entries(
                            self.table.depth.prefix_range_spec(key@, key_bits as nat).first as int,
                            self.table.depth.prefix_range_spec(key@, key_bits as nat).end as int,
                        ),
                        prefix_bytes(key@, self.key_size as nat, key_bits as nat),
                        key_bits as nat,
                    ));
                    return Ok(out);
                },
                Err(e) => return Err(e),
            }
        }
    }
}

} // verus!
