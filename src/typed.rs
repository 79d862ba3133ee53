//! Index reader and builder for fixed key and payload types.
use vstd::prelude::*;
use crate::builder::Builder;
use crate::depth::Depth;
use crate::errors::{BuilderCreateError, HibpLineError, IndexOpenError, LookupError};
use crate::hex::{all_hex, parsed_hex};
use crate::key_type::KnownKeyType;
use crate::header::slice_bytes;
use vstd::string::StringSliceAdditionalSpecFns;
use crate::format::strip_key;
use crate::hex::HexError;
use crate::keys::{FixedByteArray, KeyData, NoPayload, PayloadData};
use crate::read_at::{FileLen, ReadAt};
use crate::reader::Index;

verus! {

/// Index reader whose keys are `D` and payloads `P`.
pub struct TypedIndex<D, P, R> {
    pub index: Index<R>,
    pub marker: std::marker::PhantomData<(D, P)>,
}

impl<D: KeyData, P: PayloadData, R: ReadAt + FileLen> TypedIndex<D, P, R> {
    /// The index holds keys of `D` and payloads at least as long as `P`.
    pub open spec fn wf(&self) -> bool {
        &&& self.index.wf()
        &&& self.index.key_type == crate::key_type::KeyType::Known(D::spec_key_type())
        &&& self.index.key_size == D::spec_size()
        &&& self.index.payload_size >= P::spec_size()
    }

    /// Use `index` with keys of `D` and payloads of `P`.
    pub fn new(index: Index<R>) -> (r: Result<Self, IndexOpenError>)
        requires
            index.wf(),
        ensures
            r matches Ok(t) ==> t.wf() && t.index == index,
            r is Err ==> (r matches Err(IndexOpenError::InvalidKeyLength)),
            (index.key_size == D::spec_size() && index.payload_size >= P::spec_size() && index.key_type
                == crate::key_type::KeyType::Known(D::spec_key_type())) ==> r is Ok,
    {
        let kt = D::key_type();
        let same = match index.key_type.as_known() {
            Some(k) => k == kt,
            None => false,
        };
        if !same {
            return Err(IndexOpenError::InvalidKeyLength);
        }
        if index.key_size as usize != D::size() {
            return Err(IndexOpenError::InvalidKeyLength);
        }
        if (index.payload_size as usize) < P::size() {
            return Err(IndexOpenError::InvalidKeyLength);
        }
        Ok(TypedIndex { index, marker: std::marker::PhantomData })
    }

    /// `item` is a stored entry whose key starts with the first `key_bits`
    /// bits of `key`, its payload cut to the size of `P`.
    pub open spec fn range_item(&self, key: Seq<u8>, key_bits: nat, item: (D, P)) -> bool {
        exists|kp: (Vec<u8>, Vec<u8>)|
            #[trigger] self.index.range_entry(crate::bits::prefix_bytes(key, D::spec_size(), key_bits), key_bits, kp)
                && item.0.spec_data() == kp.0@ && item.1.spec_data() == kp.1@.subrange(0, P::spec_size() as int)
    }

    /// Every item of `v` is a stored entry matching the first `key_bits` bits of `key`.
    pub open spec fn range_result(&self, key: Seq<u8>, key_bits: nat, v: Seq<(D, P)>) -> bool {
        forall|i: int| 0 <= i < v.len() ==> self.range_item(key, key_bits, #[trigger] v[i])
    }

    /// Open an index file and use it with keys of `D` and payloads of `P`.
    pub fn open(database: R) -> (r: Result<Self, IndexOpenError>)
        ensures
            r matches Ok(t) ==> {
                &&& t.wf()
                &&& t.index.database == database
                &&& crate::reader::has_index_header(
                    crate::read_at::till_eof(database.content(), 0, 4096),
                    D::spec_key_type().spec_name(),
                    vstd::utf8::encode_utf8(t.index.description@),
                    D::spec_size() as u8,
                    t.index.payload_size,
                )
                &&& crate::reader::stored_table(database.content(), t.index.table)
            },
            ({
                let c = database.content();
                let h = crate::read_at::till_eof(c, 0, 4096);
                let raw = crate::format::inflated(crate::reader::table_blob(c));
                let io = (r matches Err(IndexOpenError::IOError(_))) || (r matches Err(
                    IndexOpenError::TableReadError(crate::errors::TableReadError::IOError(_)),
                ));
                &&& (r matches Err(IndexOpenError::InvalidHeader)) ==> crate::reader::bad_index_lines(h)
                &&& crate::reader::bad_index_lines(h) ==> (r matches Err(IndexOpenError::InvalidHeader) || io)
                &&& (r matches Err(IndexOpenError::KeyTypeError(_))) ==> crate::reader::bad_key_name(h)
                &&& crate::reader::bad_key_name(h) ==> (r matches Err(IndexOpenError::KeyTypeError(_)) || io)
                &&& crate::reader::header_fields_ok(h) && crate::reader::trailer_fits(c, crate::reader::header_end(h))
                    && crate::reader::raw_size_ok(raw) && !crate::reader::raw_sorted(raw) ==> (r matches Err(
                    IndexOpenError::TableReadError(crate::errors::TableReadError::InvalidTableOffsets),
                ) || io)
            }),
    {
        let index = match Index::open(database) {
            Ok(i) => i,
            Err(e) => return Err(e),
        };
        Self::new(index)
    }

    /// Description of the index.
    pub fn description(&self) -> (r: &str)
        ensures
            r@ == self.index.description@,
    {
        self.index.description()
    }

    /// Length in bytes of each stored payload; may exceed that of `P`.
    pub fn payload_size(&self) -> (r: u8)
        ensures
            r == self.index.payload_size,
    {
        self.index.payload_size()
    }

    /// Look up `key`; its payload, cut to the size of `P`, when found.
    pub fn lookup(&self, key: &D) -> (r: Result<Option<P>, LookupError>)
        requires
            self.wf(),
        ensures
            (self.index.bucket_len(key.spec_data()) % (self.index.entry_size() as int) != 0) == (r matches Err(
                LookupError::InvalidSegmentLength,
            )),
            r matches Ok(Some(v)) ==> exists|p: Seq<u8>| #[trigger] self.index.scan_finds(key.spec_data(), p)
                && v.spec_data() == p.subrange(0, P::spec_size() as int),
            r matches Ok(None) ==> self.index.scan_misses(key.spec_data()),
            self.index.bucket_len(key.spec_data()) == 0 ==> r matches Ok(None),
    {
        match self.index.lookup(key.data()) {
            Ok(Some(p)) => {
                let n = P::size();
                let cut = slice_bytes(p.as_slice(), 0, n);
                Ok(Some(P::from_data(cut.as_slice())))
            },
            Ok(None) => Ok(None),
            Err(e) => Err(e),
        }
    }

    /// Every entry whose key starts with the first `key_bits` bits of `key`.
    pub fn lookup_range(&self, key: &[u8], key_bits: u32) -> (r: Result<Vec<(D, P)>, LookupError>)
        requires
            self.wf(),
            key_bits as int <= D::spec_size() * 8,
            (key_bits as int + 7) / 8 <= key@.len(),
        ensures
            r matches Ok(v) ==> self.range_result(key@, key_bits as nat, v@),
            r matches Ok(v) ==> {
                let scan = crate::reader::scan_range(
                    self.index.range_entries(
                        self.index.table.depth.prefix_range_spec(key@, key_bits as nat).first as int,
                        self.index.table.depth.prefix_range_spec(key@, key_bits as nat).end as int,
                    ),
                    crate::bits::prefix_bytes(key@, D::spec_size(), key_bits as nat),
                    key_bits as nat,
                );
                &&& v@.len() == scan.len()
                &&& forall|i: int| 0 <= i < v@.len() ==> (#[trigger] v@[i]).0.spec_data() == scan[i].0
                    && v@[i].1.spec_data() == scan[i].1.subrange(0, P::spec_size() as int)
            },
    {
        let all = match self.index.lookup_range(key, key_bits) {
            Ok(v) => v,
            Err(e) => return Err(e),
        };
        let mut out: Vec<(D, P)> = Vec::new();
        let mut i: usize = 0;
        let n = P::size();
        while i < all.len()
            invariant
                i <= all@.len(),
                n == P::spec_size(),
                self.wf(),
                out@.len() == i,
                forall|j: int| 0 <= j < all@.len() ==> self.index.range_entry(
                    crate::bits::prefix_bytes(key@, self.index.key_size as nat, key_bits as nat),
                    key_bits as nat,
                    #[trigger] all@[j],
                ),
                forall|j: int| 0 <= j < i ==> (#[trigger] out@[j]).0.spec_data() == all@[j].0@ && out@[j].1.spec_data()
                    == all@[j].1@.subrange(0, n as int),
            decreases all@.len() - i,
        {
            let entry = &all[i];
            let k = D::from_data(entry.0.as_slice());
            let cut = slice_bytes(entry.1.as_slice(), 0, n);
            let p = P::from_data(cut.as_slice());
            out.push((k, p));
            i = i + 1;
        }
        proof {
            assert forall|j: int| 0 <= j < out@.len() implies (#[trigger] out@[j]).0.spec_data()
                == crate::reader::pairs_view(all@)[j].0 && out@[j].1.spec_data()
                == crate::reader::pairs_view(all@)[j].1.subrange(0, P::spec_size() as int) by {
            }
            assert forall|j: int| 0 <= j < out@.len() implies self.range_item(key@, key_bits as nat, #[trigger] out@[j]) by {
                let kp = all@[j];
                assert(self.index.range_entry(
                    crate::bits::prefix_bytes(key@, D::spec_size(), key_bits as nat),
                    key_bits as nat,
                    kp,
                ));
            }
        }
        Ok(out)
    }
}

/// Index builder whose keys are `D` and payloads `P`.
pub struct TypedBuilder<D, P> {
    pub builder: Builder,
    pub marker: std::marker::PhantomData<(D, P)>,
}

impl<D: KeyData, P: PayloadData> TypedBuilder<D, P> {
    /// The builder writes keys of `D` and payloads of `P`.
    pub open spec fn wf(&self) -> bool {
        &&& self.builder.wf()
        &&& self.builder.key_bytes == D::spec_size()
        &&& self.builder.payload_size == P::spec_size()
    }

    /// Start an index of keys of `D` and payloads of `P`.
    pub fn create(description: &str, depth: Depth) -> (r: Result<Self, BuilderCreateError>)
        requires
            P::spec_size() < 256,
        ensures
            r matches Ok(b) ==> b.wf() && b.builder.depth == depth && b.builder.offsets@.len() == 0
                && b.builder.previous is None,
            !depth.valid_key_size_spec(D::spec_size()) ==> (r matches Err(BuilderCreateError::InvalidKeyLength)),
            depth.valid_key_size_spec(D::spec_size()) && description.spec_bytes().contains(0x0au8) ==> (r matches Err(
                BuilderCreateError::InvalidDescription { .. },
            )),
            depth.valid_key_size_spec(D::spec_size()) && !description.spec_bytes().contains(0x0au8) ==> {
                let h = crate::format::index_header(
                    D::spec_key_type().spec_name(),
                    description.spec_bytes(),
                    D::spec_size() as u8,
                    P::spec_size() as u8,
                );
                &&& h.len() > crate::format::INDEX_V0_HEADER_LIMIT ==> (r matches Err(BuilderCreateError::HeaderTooBig))
                &&& h.len() <= crate::format::INDEX_V0_HEADER_LIMIT ==> (r matches Ok(b) && b.builder.written@ == h)
            },
    {
        let kt = D::key_type();
        let builder = Builder::create(kt, description, P::size() as u8, depth)?;
        Ok(TypedBuilder { builder, marker: std::marker::PhantomData })
    }

    /// Add an entry; keys come in strictly ascending order.
    pub fn add_entry(&mut self, key: &D, payload: &P)
        requires
            old(self).wf(),
            old(self).builder.accepts(key.spec_data()),
            old(self).builder.position + old(self).builder.spec_entry_size() <= u64::MAX,
        ensures
            final(self).wf(),
            final(self).builder.written@ == old(self).builder.written@ + strip_key(
                key.spec_data(),
                old(self).builder.depth@,
            ) + payload.spec_data(),
            final(self).builder.previous matches Some(p) && p@ == key.spec_data(),
            final(self).builder.depth == old(self).builder.depth,
            final(self).builder.position == old(self).builder.position + old(self).builder.spec_entry_size(),
    {
        self.builder.add_entry(key.data(), payload.data());
    }

    /// Hand out the bytes produced since the last call.
    pub fn take_output(&mut self) -> (r: Vec<u8>)
        requires
            old(self).wf(),
        ensures
            final(self).wf(),
            r@ == old(self).builder.pending@,
            final(self).builder.written == old(self).builder.written,
            final(self).builder.previous == old(self).builder.previous,
            final(self).builder.position == old(self).builder.position,
            final(self).builder.depth == old(self).builder.depth,
    {
        self.builder.take_output()
    }

    /// Close the index: the remaining bytes to write.
    pub fn finish(self) -> (r: Result<Vec<u8>, std::io::Error>)
        requires
            self.wf(),
        ensures
            r matches Ok(v) ==> exists|raw: Seq<u8>| #![auto]
                crate::table::is_table_raw(raw, self.builder.depth@, self.builder.final_offsets())
                && crate::format::deflated(raw).len() < 0x1_0000_0000
                && v@ == self.builder.pending@ + crate::format::deflated(raw) + crate::bytes::be_bytes(
                    crate::format::deflated(raw).len(),
                    4,
                ),
            forall|raw: Seq<u8>| #![auto]
                crate::table::is_table_raw(raw, self.builder.depth@, self.builder.final_offsets())
                && crate::format::deflated(raw).len() < 0xffff_ffff ==> r is Ok,
    {
        self.builder.finish()
    }
}

/// `c` is the position of the first colon in `t`.
pub open spec fn first_colon(t: Seq<u8>, c: int) -> bool {
    0 <= c < t.len() && t[c] == 0x3au8 && forall|j: int| 0 <= j < c ==> t[j] != 0x3au8
}

/// Position of the first colon in `t`.
fn find_colon(t: &[u8]) -> (r: Option<usize>)
    ensures
        r matches Some(c) ==> c < t@.len() && t@[c as int] == 0x3au8 && forall|j: int| 0 <= j < c ==> t@[j] != 0x3au8,
        r is None ==> forall|j: int| 0 <= j < t@.len() ==> t@[j] != 0x3au8,
{
    let mut i: usize = 0;
    while i < t.len()
        invariant
            i <= t@.len(),
            forall|j: int| 0 <= j < i ==> t@[j] != 0x3au8,
        decreases t@.len() - i,
    {
        if t[i] == 0x3a {
            return Some(i);
        }
        i = i + 1;
    }
    None
}

impl<D: KeyData> TypedBuilder<D, NoPayload> {
    /// Add the hash of a line of a pwned-passwords file, `HASH:COUNT`; the
    /// count is ignored, and an empty line adds nothing.
    pub fn add_entry_from_hibp_line(&mut self, line: &str) -> (r: Result<(), HibpLineError>)
        requires
            old(self).wf(),
        ensures
            final(self).wf(),
            final(self).builder.depth == old(self).builder.depth,
            line.spec_bytes().len() == 0 ==> r is Ok && final(self).builder.written == old(self).builder.written,
            !line.spec_bytes().contains(0x3au8) && line.spec_bytes().len() > 0 ==> (r matches Err(
                HibpLineError::InvalidLine,
            )),
            r is Err ==> final(self).builder.written == old(self).builder.written,
            r is Ok && line.spec_bytes().contains(0x3au8) ==> exists|c: int| #![auto]
                0 <= c < line.spec_bytes().len() && line.spec_bytes()[c] == 0x3au8
                && (forall|j: int| 0 <= j < c ==> line.spec_bytes()[j] != 0x3au8)
                && c == 2 * D::spec_size() && all_hex(line.spec_bytes().subrange(0, c))
                && final(self).builder.written@ == old(self).builder.written@ + strip_key(
                    parsed_hex(line.spec_bytes().subrange(0, c), D::spec_size(), 0),
                    old(self).builder.depth@,
                ),
            forall|c: int| #[trigger] first_colon(line.spec_bytes(), c) ==> {
                let hash = line.spec_bytes().subrange(0, c);
                let k = parsed_hex(hash, D::spec_size(), 0);
                let ok_hash = hash.len() == 2 * D::spec_size() && all_hex(hash);
                let room = old(self).builder.position + old(self).builder.spec_entry_size() <= u64::MAX;
                &&& !ok_hash ==> (r matches Err(HibpLineError::InvalidHash(_)))
                &&& ok_hash && !old(self).builder.accepts(k) ==> (r matches Err(HibpLineError::UnorderedKey))
                &&& ok_hash && old(self).builder.accepts(k) && !room ==> (r matches Err(HibpLineError::TooLarge))
                &&& ok_hash && old(self).builder.accepts(k) && room ==> r is Ok
            },
    {
        let t = line.as_bytes();
        match find_colon(t) {
            None => {
                if t.len() == 0 {
                    return Ok(());
                }
                assert(!line.spec_bytes().contains(0x3au8));
                Err(HibpLineError::InvalidLine)
            },
            Some(c) => {
                assert(first_colon(t@, c as int));
                assert forall|c2: int| #[trigger] first_colon(t@, c2) implies c2 == c by {
                    if c2 < c {
                        assert(t@[c2] != 0x3au8);
                    } else if c2 > c {
                        assert(t@[c as int] != 0x3au8);
                    }
                }
                let h = slice_bytes(t, 0, c);
                let key = match D::from_hex(h.as_slice()) {
                    Ok(k) => k,
                    Err(e) => return Err(HibpLineError::InvalidHash(e)),
                };
                if !self.builder.is_next_key(key.data()) {
                    return Err(HibpLineError::UnorderedKey);
                }
                let es: u64 = (self.builder.key_bytes - self.builder.depth.as_u8() / 8) as u64;
                if self.builder.position > u64::MAX - es {
                    return Err(HibpLineError::TooLarge);
                }
                let np = NoPayload;
                self.add_entry(&key, &np);
                proof {
                    assert(np.spec_data() =~= Seq::<u8>::empty());
                    assert(final(self).builder.written@ =~= old(self).builder.written@ + strip_key(key.spec_data(), old(self).builder.depth@));
                    if !all_hex(h@) {
                        assert(false);
                    }
                    assert(key.spec_data() == parsed_hex(h@, D::spec_size(), 0));
                }
                Ok(())
            },
        }
    }
}

} // verus!
