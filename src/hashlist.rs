//! Hash lists: the entries under one bit prefix, as a file of their own.
use vstd::prelude::*;
use vstd::string::StringSliceAdditionalSpecFns;
use crate::bits::{prefix_bytes, suffix_bytes, suffix_of, unsplit_bytes, unsplit_of};
use crate::bytes::lex_lt;
use crate::bytes::{append_bytes, be_bytes, be_value, push_be, read_be};
use crate::errors::{HashListCreateError, HashListOpenError, unexpected_eof};
use crate::format::invalid_data;
use crate::header::{find_newline, header_lines, no_newline, slice_bytes, string_from_utf8};
use crate::reader::{header_desc, header_name};
use crate::key_type::{all_graphic, known_by_name};
use vstd::utf8::valid_utf8;
use vstd::utf8::encode_utf8;
use crate::key_type::{KeyType, KnownKeyType};
use crate::keys::{FixedByteArray, KeyData, PayloadData};
use crate::prefix::Prefix;
use crate::read_at::{ReadAt, read_at_till_eof, read_exact_at, till_eof};

verus! {

/// Largest size of a hash list header in bytes.
pub const HASH_LIST_V0_HEADER_LIMIT: u64 = 4096;

/// The first line of a hash list: "hash-list-v0".
pub open spec fn list_magic() -> Seq<u8> {
    seq![0x68u8, 0x61, 0x73, 0x68, 0x2d, 0x6c, 0x69, 0x73, 0x74, 0x2d, 0x76, 0x30]
}

proof fn lemma_list_head(h: Seq<u8>, n1: int, n2: int, n3: int, raw_mtime: u64, mtime: i64)
    requires
        0 <= n1 < n2 < n3,
        n3 + 12 <= h.len(),
        h[n1] == 0x0au8,
        h[n2] == 0x0au8,
        h[n3] == 0x0au8,
        h.subrange(0, n1) == list_magic(),
        no_newline(h.subrange(n1 + 1, n2)),
        no_newline(h.subrange(n2 + 1, n3)),
        raw_mtime == be_value(h.subrange(n3 + 1, n3 + 9)),
        raw_mtime <= 0x7fff_ffff_ffff_ffff ==> mtime == raw_mtime,
        raw_mtime > 0x7fff_ffff_ffff_ffff ==> mtime == raw_mtime - 0x1_0000_0000_0000_0000,
    ensures
        ({
            let head = list_head(h.subrange(n1 + 1, n2), h.subrange(n2 + 1, n3), mtime, h[n3 + 9], h[n3 + 10], h[n3 + 11]);
            &&& head.len() == n3 + 12
            &&& h.subrange(0, head.len() as int) == head
        }),
{
    let mb = h.subrange(n3 + 1, n3 + 9);
    crate::bytes::lemma_be_bytes_of_value(mb);
    let head = list_head(h.subrange(n1 + 1, n2), h.subrange(n2 + 1, n3), mtime, h[n3 + 9], h[n3 + 10], h[n3 + 11]);
    crate::table::lemma_be_len(raw_mtime as nat, 8);
    assert(head =~= h.subrange(0, n3 + 12));
}

/// Signed value of eight big-endian bytes, two's complement.
pub open spec fn signed64(v: nat) -> int {
    if v <= 0x7fff_ffff_ffff_ffff { v as int } else { v - 0x1_0000_0000_0000_0000 }
}

/// `h` lacks three lines, or its first line is not the hash list magic.
pub open spec fn bad_list_lines(h: Seq<u8>) -> bool {
    header_lines(h) is None || h.subrange(0, header_lines(h)->Some_0.0) != list_magic()
}

/// The lines are right but the key type name is neither known nor ASCII graphic.
pub open spec fn bad_list_name(h: Seq<u8>) -> bool {
    !bad_list_lines(h) && known_by_name(header_name(h)) is None && !all_graphic(header_name(h))
}

/// Lines, name and description are right and the fixed fields follow.
pub open spec fn list_fields_readable(h: Seq<u8>) -> bool {
    !bad_list_lines(h) && !bad_list_name(h) && valid_utf8(header_desc(h)) && h.len() >= header_lines(h)->Some_0.2 + 12
}

/// Byte `i` after the description line of `h`.
pub open spec fn list_field(h: Seq<u8>, i: int) -> u8 {
    h[header_lines(h)->Some_0.2 + i]
}

/// The modification time in `h`.
pub open spec fn list_mtime(h: Seq<u8>) -> int {
    let n3 = header_lines(h)->Some_0.2;
    signed64(be_value(h.subrange(n3 + 1, n3 + 9)))
}

fn list_magic_bytes() -> (r: Vec<u8>)
    ensures
        r@ == list_magic(),
{
    let r = vec![0x68u8, 0x61, 0x73, 0x68, 0x2d, 0x6c, 0x69, 0x73, 0x74, 0x2d, 0x76, 0x30];
    assert(r@ =~= list_magic());
    r
}

/// Header of a hash list followed by its prefix: magic, key type name and
/// description lines, modification time, key size, payload size, prefix
/// length in bits and the bytes holding the prefix.
pub open spec fn list_header(
    name: Seq<u8>,
    description: Seq<u8>,
    mtime: i64,
    key_size: u8,
    payload_size: u8,
    bits: u8,
    prefix: Seq<u8>,
) -> Seq<u8> {
    list_head(name, description, mtime, key_size, payload_size, bits) + prefix.subrange(0, ((bits as int) + 7) / 8)
}

/// Header of a hash list up to its prefix bytes.
pub open spec fn list_head(name: Seq<u8>, description: Seq<u8>, mtime: i64, key_size: u8, payload_size: u8, bits: u8) -> Seq<
    u8,
> {
    list_magic() + seq![0x0au8] + name + seq![0x0au8] + description + seq![0x0au8] + be_bytes(
        (if mtime >= 0 { mtime as int } else { mtime as int + 0x1_0000_0000_0000_0000 }) as nat,
        8,
    ) + seq![key_size, payload_size, bits]
}

/// The modification time is one a UTC date can hold.
pub uninterp spec fn utc_timestamp_valid(secs: i64) -> bool;

/// Relies on `chrono::Utc.timestamp_opt(secs, 0)`: whether a single UTC
/// date has that Unix time.
#[verifier::external_body]
fn mtime_in_range(secs: i64) -> (r: bool)
    ensures
        r == utc_timestamp_valid(secs),
{
    chrono::TimeZone::timestamp_opt(&chrono::Utc, secs, 0).single().is_some()
}

/// Writer of a hash list whose keys are `K` and payloads `P`.
///
/// The bytes come out as for the index builder: `take_output` hands out
/// what was produced so far.
pub struct TypedListWriter<K, P> {
    pub prefix: Prefix,
    pub pending: Vec<u8>,
    pub written: Ghost<Seq<u8>>,
    pub marker: std::marker::PhantomData<(K, P)>,
}

impl<K: KeyData, P: PayloadData> TypedListWriter<K, P> {
    /// The prefix fits the keys.
    pub open spec fn wf(&self) -> bool {
        &&& self.prefix.key@.len() == K::spec_size()
        &&& self.prefix.bits <= 8 * K::spec_size()
        &&& self.prefix.bits < 256
        &&& self.pending@.len() <= self.written@.len()
        &&& self.pending@ == self.written@.subrange(
            self.written@.len() - self.pending@.len(),
            self.written@.len() as int,
        )
    }

    /// Start a hash list of the entries under `prefix`.
    pub fn create(description: &str, mtime: i64, prefix: Prefix) -> (r: Result<Self, HashListCreateError>)
        requires
            prefix.key@.len() == K::spec_size(),
            prefix.bits <= 8 * K::spec_size(),
            prefix.bits < 256,
            K::spec_size() < 256,
            P::spec_size() < 256,
        ensures
            description.spec_bytes().contains(0x0au8) <==> (r matches Err(HashListCreateError::InvalidDescription)),
            r matches Ok(w) ==> w.wf() && w.written@ == w.pending@ && w.written@ == list_header(
                K::spec_key_type().spec_name(),
                description.spec_bytes(),
                mtime,
                K::spec_size() as u8,
                P::spec_size() as u8,
                prefix.bits as u8,
                prefix.key@,
            ) && w.prefix.key@ == prefix.key@ && w.prefix.bits == prefix.bits,
    {
        let desc = description.as_bytes();
        let mut i: usize = 0;
        while i < desc.len()
            invariant
                i <= desc@.len(),
                desc@ == description.spec_bytes(),
                forall|j: int| 0 <= j < i ==> desc@[j] != 0x0au8,
            decreases desc@.len() - i,
        {
            if desc[i] == 0x0a {
                return Err(HashListCreateError::InvalidDescription);
            }
            i = i + 1;
        }
        let mut h = list_magic_bytes();
        h.push(0x0a);
        let name = K::key_type().name_bytes();
        append_bytes(&mut h, name.as_slice());
        h.push(0x0a);
        append_bytes(&mut h, desc);
        h.push(0x0a);
        let unsigned: u64 = if mtime >= 0 { mtime as u64 } else { (mtime as i128 + 0x1_0000_0000_0000_0000i128) as u64 };
        push_be(&mut h, unsigned, 8);
        h.push(K::size() as u8);
        h.push(P::size() as u8);
        h.push(prefix.bits as u8);
        let nb: usize = ((prefix.bits + 7) / 8) as usize;
        let pb = slice_bytes(prefix.key.as_slice(), 0, nb);
        append_bytes(&mut h, pb.as_slice());
        let ghost w = h@;
        assert(h@ =~= list_header(
            K::spec_key_type().spec_name(),
            description.spec_bytes(),
            mtime,
            K::spec_size() as u8,
            P::spec_size() as u8,
            prefix.bits as u8,
            prefix.key@,
        ));
        assert(w.subrange(0, w.len() as int) =~= w);
        Ok(TypedListWriter { prefix, pending: h, written: Ghost(w), marker: std::marker::PhantomData })
    }

    /// Add an entry under the prefix: its suffix bytes, then its payload.
    pub fn add(&mut self, key: &K, payload: &P)
        requires
            old(self).wf(),
        ensures
            final(self).wf(),
            final(self).prefix == old(self).prefix,
            final(self).written@ == old(self).written@ + suffix_bytes(key.spec_data(), old(self).prefix.bits as nat).subrange(
                (old(self).prefix.bits / 8) as int,
                K::spec_size() as int,
            ) + payload.spec_data(),
    {
        let bits = self.prefix.bits;
        let data = key.data();
        let s = suffix_of(data, bits);
        let start = (bits / 8) as usize;
        let tail = slice_bytes(s.as_slice(), start, s.len());
        let ghost w0 = self.written@;
        append_bytes(&mut self.pending, tail.as_slice());
        append_bytes(&mut self.pending, payload.data());
        self.written = Ghost(w0 + tail@ + payload.spec_data());
        proof {
            let w = self.written@;
            let pe = self.pending@;
            assert(pe =~= w.subrange(w.len() - pe.len(), w.len() as int));
        }
    }

    /// Hand out the bytes produced since the last call.
    pub fn take_output(&mut self) -> (r: Vec<u8>)
        requires
            old(self).wf(),
        ensures
            final(self).wf(),
            r@ == old(self).pending@,
            final(self).written == old(self).written,
            final(self).prefix == old(self).prefix,
    {
        let mut r: Vec<u8> = Vec::new();
        std::mem::swap(&mut r, &mut self.pending);
        proof {
            let w = self.written@;
            assert(self.pending@ =~= w.subrange(w.len() - 0, w.len() as int));
        }
        r
    }
}

/// Fields of a hash list header.
pub struct ListHeader {
    pub key_type: KeyType,
    pub description: String,
    pub mtime: i64,
    pub key_size: u8,
    pub payload_size: u8,
}

/// Reader of a hash list whose keys are `K` and payloads `P`.
pub struct TypedListReader<K, P, R> {
    pub reader: R,
    pub header: ListHeader,
    pub prefix: Prefix,
    pub position: u64,
    pub marker: std::marker::PhantomData<(K, P)>,
}

/// The header of `h` fits keys `K` and payloads `P`: its key type, key
/// size, payload size and prefix length.
pub open spec fn list_fits<K: KeyData, P: PayloadData>(h: Seq<u8>) -> bool {
    &&& known_by_name(header_name(h)) == Some(K::spec_key_type())
    &&& list_field(h, 9) == K::spec_size()
    &&& list_field(h, 10) >= P::spec_size()
    &&& (list_field(h, 11) + 7) / 8 < K::spec_size()
}

/// Parse the header of a hash list of keys `K` and payloads `P`: its fields,
/// the prefix length in bits and where the prefix bytes start.
pub fn parse_list_header<K: KeyData, P: PayloadData>(h: &[u8]) -> (r: Result<(ListHeader, u8, usize), HashListOpenError>)
    requires
        K::spec_size() < 256,
    ensures
        bad_list_lines(h@) <==> (r matches Err(HashListOpenError::InvalidHeader)),
        bad_list_name(h@) <==> (r matches Err(HashListOpenError::KeyTypeError(_))),
        (list_fields_readable(h@) && !utc_timestamp_valid(list_mtime(h@) as i64)) <==> (r matches Err(
            HashListOpenError::InvalidMtime,
        )),
        (list_fields_readable(h@) && utc_timestamp_valid(list_mtime(h@) as i64) && !list_fits::<K, P>(h@)) <==> (r matches Err(
            HashListOpenError::InvalidKeyLength,
        )),
        (list_fields_readable(h@) && utc_timestamp_valid(list_mtime(h@) as i64) && list_fits::<K, P>(h@)) <==> r is Ok,
        r matches Ok(x) ==> {
            let hd = x.0;
            let head = list_head(header_name(h@), header_desc(h@), hd.mtime, hd.key_size, hd.payload_size, x.1);
            &&& hd.key_type == KeyType::Known(K::spec_key_type())
            &&& hd.key_type.spec_name() == header_name(h@)
            &&& encode_utf8(hd.description@) == header_desc(h@)
            &&& hd.mtime == list_mtime(h@)
            &&& hd.key_size == list_field(h@, 9)
            &&& hd.payload_size == list_field(h@, 10)
            &&& x.1 == list_field(h@, 11)
            &&& x.2 == head.len()
            &&& x.2 <= h@.len()
            &&& h@.subrange(0, head.len() as int) == head
            &&& no_newline(header_name(h@))
            &&& no_newline(header_desc(h@))
        },
{
    let hl = h.len();
    let n1 = match find_newline(h, 0) {
        Some(n) => n,
        None => return Err(HashListOpenError::InvalidHeader),
    };
    let n2 = match find_newline(h, n1 + 1) {
        Some(n) => n,
        None => return Err(HashListOpenError::InvalidHeader),
    };
    let n3 = match find_newline(h, n2 + 1) {
        Some(n) => n,
        None => return Err(HashListOpenError::InvalidHeader),
    };
    assert(header_lines(h@) == Some((n1 as int, n2 as int, n3 as int)));
    let magic = slice_bytes(h, 0, n1);
    let want = list_magic_bytes();
    if !bytes_equal(magic.as_slice(), want.as_slice()) {
        return Err(HashListOpenError::InvalidHeader);
    }
    let name = slice_bytes(h, n1 + 1, n2);
    let key_type = match KeyType::from_bytes(name.as_slice()) {
        Ok(t) => t,
        Err(e) => return Err(HashListOpenError::KeyTypeError(e)),
    };
    let desc = slice_bytes(h, n2 + 1, n3);
    let description = match string_from_utf8(desc.as_slice()) {
        Some(s) => s,
        None => return Err(HashListOpenError::IOError(invalid_data())),
    };
    if hl - n3 < 12 {
        return Err(HashListOpenError::IOError(unexpected_eof()));
    }
    let raw_mtime = read_be(h, n3 + 1, 8);
    let mtime: i64 = if raw_mtime <= 0x7fff_ffff_ffff_ffff {
        raw_mtime as i64
    } else {
        (raw_mtime as i128 - 0x1_0000_0000_0000_0000i128) as i64
    };
    proof {
        vstd::arithmetic::power2::lemma2_to64_rest();
    }
    assert(mtime == list_mtime(h@));
    if !mtime_in_range(mtime) {
        return Err(HashListOpenError::InvalidMtime);
    }
    let key_size = h[n3 + 9];
    let payload_size = h[n3 + 10];
    let bits = h[n3 + 11];
    let known = match key_type.as_known() {
        Some(k) => k,
        None => return Err(HashListOpenError::InvalidKeyLength),
    };
    if known != K::key_type() {
        return Err(HashListOpenError::InvalidKeyLength);
    }
    if key_size as usize != K::size() {
        return Err(HashListOpenError::InvalidKeyLength);
    }
    if (payload_size as usize) < P::size() {
        return Err(HashListOpenError::InvalidKeyLength);
    }
    let nb: usize = ((bits as usize) + 7) / 8;
    if nb >= K::size() {
        return Err(HashListOpenError::InvalidKeyLength);
    }
    proof {
        lemma_list_head(h@, n1 as int, n2 as int, n3 as int, raw_mtime, mtime);
    }
    Ok((ListHeader { key_type, description, mtime, key_size, payload_size }, bits, n3 + 12))
}

fn bytes_equal(a: &[u8], b: &[u8]) -> (r: bool)
    ensures
        r == (a@ == b@),
{
    if a.len() != b.len() {
        return false;
    }
    let mut i: usize = 0;
    while i < a.len()
        invariant
            i <= a@.len(),
            a@.len() == b@.len(),
            forall|j: int| 0 <= j < i ==> a@[j] == b@[j],
        decreases a@.len() - i,
    {
        if a[i] != b[i] {
            return false;
        }
        i = i + 1;
    }
    assert(a@ =~= b@);
    true
}

impl<K: KeyData, P: PayloadData, R: ReadAt> TypedListReader<K, P, R> {
    /// Entries follow the prefix; the prefix fits the keys.
    pub open spec fn wf(&self) -> bool {
        &&& self.prefix.key@.len() == K::spec_size()
        &&& self.prefix.bits < 8 * K::spec_size()
        &&& self.header.payload_size >= P::spec_size()
        &&& K::spec_size() < 256
    }

    /// Bytes of a stored suffix.
    pub open spec fn stored_suffix_size(&self) -> nat {
        (K::spec_size() - self.prefix.bits / 8) as nat
    }

    /// Key of the entry stored at offset `o`: the prefix joined with the
    /// stored suffix.
    pub open spec fn entry_key_at(&self, o: int) -> Seq<u8> {
        let bits = self.prefix.bits as nat;
        unsplit_bytes(
            self.prefix.key@,
            suffix_bytes(
                Seq::new(bits / 8, |i: int| 0u8) + self.reader.content().subrange(o, o + self.stored_suffix_size()),
                bits,
            ),
        )
    }

    /// Payload of the entry stored at offset `o`, cut to the size of `P`.
    pub open spec fn entry_payload_at(&self, o: int) -> Seq<u8> {
        let start = o + self.stored_suffix_size();
        self.reader.content().subrange(start, start + P::spec_size())
    }

    /// Bytes of one stored entry: suffix and payload.
    pub open spec fn record_size(&self) -> nat {
        self.stored_suffix_size() + self.header.payload_size as nat
    }

    /// No entry can be read at offset `o`: the file ends first.
    pub open spec fn entry_absent(&self, o: int) -> bool {
        o + self.record_size() > u64::MAX || o + self.stored_suffix_size() > self.reader.content().len()
    }

    /// Every entry from offset `from` to before `to` has a key below `key`.
    pub open spec fn all_below(&self, from: int, to: int, key: Seq<u8>) -> bool {
        forall|o: int| #![trigger self.entry_key_at(o)]
            from <= o < to && (o - from) % (self.record_size() as int) == 0 ==> lex_lt(self.entry_key_at(o), key)
    }

    /// Prefix shared by the entries.
    pub fn prefix(&self) -> (r: &Prefix)
        ensures
            r == &self.prefix,
    {
        &self.prefix
    }

    /// Description of the list.
    pub fn description(&self) -> (r: &str)
        ensures
            r@ == self.header.description@,
    {
        self.header.description.as_str()
    }

    /// Modification time of the list, in seconds since 1970 (UTC).
    pub fn mtime(&self) -> (r: i64)
        ensures
            r == self.header.mtime,
    {
        self.header.mtime
    }

    /// Open a hash list of keys `K` and payloads at least as long as `P`.
    pub fn open(reader: R) -> (r: Result<Self, HashListOpenError>)
        requires
            K::spec_size() < 256,
        ensures
            r matches Ok(l) ==> l.wf() && l.reader == reader && utc_timestamp_valid(l.header.mtime)
                && l.header.key_type == KeyType::Known(K::spec_key_type()),
            r matches Ok(l) ==> {
                let head = list_head(
                    l.header.key_type.spec_name(),
                    encode_utf8(l.header.description@),
                    l.header.mtime,
                    l.header.key_size,
                    l.header.payload_size,
                    l.prefix.bits as u8,
                );
                let c = reader.content();
                &&& head.len() <= c.len() && c.subrange(0, head.len() as int) == head
                &&& no_newline(l.header.key_type.spec_name())
                &&& no_newline(encode_utf8(l.header.description@))
                &&& l.position == head.len() + (l.prefix.bits + 7) / 8
                &&& l.prefix.key@ == prefix_bytes(
                    c.subrange(head.len() as int, l.position as int),
                    K::spec_size(),
                    l.prefix.bits as nat,
                )
            },
            ({
                let h = till_eof(reader.content(), 0, 4096);
                let io = r matches Err(HashListOpenError::IOError(_));
                let ok_time = utc_timestamp_valid(list_mtime(h) as i64);
                &&& (r matches Err(HashListOpenError::InvalidHeader)) ==> bad_list_lines(h)
                &&& bad_list_lines(h) ==> (r matches Err(HashListOpenError::InvalidHeader)) || io
                &&& (r matches Err(HashListOpenError::KeyTypeError(_))) ==> bad_list_name(h)
                &&& bad_list_name(h) ==> (r matches Err(HashListOpenError::KeyTypeError(_))) || io
                &&& (r matches Err(HashListOpenError::InvalidMtime)) ==> list_fields_readable(h) && !ok_time
                &&& list_fields_readable(h) && !ok_time ==> (r matches Err(HashListOpenError::InvalidMtime)) || io
                &&& (r matches Err(HashListOpenError::InvalidKeyLength)) ==> list_fields_readable(h) && ok_time
                    && !list_fits::<K, P>(h)
                &&& list_fields_readable(h) && ok_time && !list_fits::<K, P>(h) ==> (r matches Err(
                    HashListOpenError::InvalidKeyLength,
                )) || io
                &&& r is Ok ==> list_fields_readable(h) && ok_time && list_fits::<K, P>(h)
            }),
    {
        let h = match read_at_till_eof(&reader, 4096, 0) {
            Ok(v) => v,
            Err(e) => return Err(HashListOpenError::IOError(e)),
        };
        let (header, bits, start) = match parse_list_header::<K, P>(h.as_slice()) {
            Ok(x) => x,
            Err(e) => return Err(e),
        };
        let nb: usize = ((bits as usize) + 7) / 8;
        assert(h@.len() <= 4096);
        let raw = match read_exact_at(&reader, nb, start as u64) {
            Ok(v) => v,
            Err(e) => return Err(HashListOpenError::IOError(e)),
        };
        let prefix = Prefix::new_from_raw(raw.as_slice(), K::size(), bits as u32);
        proof {
            let c = reader.content();
            assert(c.subrange(0, start as int) =~= h@.subrange(0, start as int));
            if nb == 0 {
                assert(raw@ =~= c.subrange(start as int, start as int));
            }
        }
        Ok(TypedListReader { reader, header, prefix, position: (start + nb) as u64, marker: std::marker::PhantomData })
    }

    /// Read the next entry; `None` at the end of the list.
    pub fn next_entry(&mut self) -> (r: Option<Result<(K, P), std::io::Error>>)
        requires
            old(self).wf(),
        ensures
            final(self).wf(),
            final(self).prefix == old(self).prefix,
            final(self).reader == old(self).reader,
            final(self).header == old(self).header,
            final(self).position >= old(self).position,
            r matches Some(Ok(_)) ==> final(self).position == old(self).position + old(self).record_size(),
            r is None ==> old(self).entry_absent(old(self).position as int) && final(self).position == old(self).position,
            r matches Some(Ok(e)) ==> e.0.spec_data() == old(self).entry_key_at(old(self).position as int)
                && e.1.spec_data() == old(self).entry_payload_at(old(self).position as int),
    {
        let bits = self.prefix.bits;
        let skip = (bits / 8) as usize;
        let n: usize = K::size() - skip;
        let ps = self.header.payload_size as usize;
        if self.position > u64::MAX - (n + ps) as u64 {
            return None;
        }
        let got = match read_at_till_eof(&self.reader, n, self.position) {
            Ok(v) => v,
            Err(e) => return Some(Err(e)),
        };
        if got.len() < n {
            return None;
        }
        let payload = match read_exact_at(&self.reader, ps, self.position + n as u64) {
            Ok(v) => v,
            Err(e) => return Some(Err(e)),
        };
        let ghost c = self.reader.content();
        let ghost o = self.position as int;
        self.position = self.position + (n + ps) as u64;
        let suffix = Prefix::suffix_from_stored(got.as_slice(), bits);
        let key = unsplit_of(self.prefix.key.as_slice(), suffix.as_slice());
        let cut = slice_bytes(payload.as_slice(), 0, P::size());
        proof {
            assert(got@ == c.subrange(o, o + n)) by {
                assert(o < c.len());
            }
            if P::spec_size() > 0 {
                assert(cut@ =~= c.subrange(o + n, o + n + P::spec_size()));
            } else {
                assert(cut@ =~= c.subrange(o + n, o + n + P::spec_size()));
            }
        }
        Some(Ok((K::from_data(key.as_slice()), P::from_data(cut.as_slice()))))
    }

    /// Find `key`: read entries while they stay below it.
    pub fn lookup(&mut self, key: &K) -> (r: Result<Option<P>, std::io::Error>)
        requires
            old(self).wf(),
        ensures
            final(self).wf(),
            final(self).reader == old(self).reader,
            final(self).prefix == old(self).prefix,
            r matches Ok(Some(v)) ==> exists|o: int| #![trigger old(self).entry_key_at(o)]
                old(self).position <= o && (o - old(self).position) % (old(self).record_size() as int) == 0
                && old(self).all_below(old(self).position as int, o, key.spec_data())
                && old(self).entry_key_at(o) == key.spec_data() && v.spec_data() == old(self).entry_payload_at(o)
                && final(self).position == o + old(self).record_size(),
            r matches Ok(None) ==> exists|o: int| #![trigger old(self).entry_key_at(o)]
                old(self).position <= o && (o - old(self).position) % (old(self).record_size() as int) == 0
                && old(self).all_below(old(self).position as int, o, key.spec_data())
                && ((old(self).entry_absent(o) && final(self).position == o) || (lex_lt(
                key.spec_data(),
                old(self).entry_key_at(o),
            ) && final(self).position == o + old(self).record_size())),
    {
        let ghost o0 = self.position as int;
        let ghost rs = old(self).record_size() as int;
        proof {
            vstd::arithmetic::div_mod::lemma_mod_self_0(rs);
            vstd::arithmetic::div_mod::lemma_small_mod(0, rs as nat);
        }
        loop
            invariant
                self.wf(),
                self.reader == old(self).reader,
                self.prefix == old(self).prefix,
                self.header == old(self).header,
                self.position >= old(self).position,
                o0 == old(self).position,
                rs == old(self).record_size(),
                rs > 0,
                (self.position - o0) % rs == 0,
                old(self).all_below(o0, self.position as int, key.spec_data()),
            decreases u64::MAX - self.position,
        {
            let ghost pos0 = self.position as int;
            match self.next_entry() {
                None => {
                    assert(old(self).entry_absent(pos0));
                    let ghost witness = old(self).entry_key_at(pos0);
                    return Ok(None);
                },
                Some(Err(e)) => return Err(e),
                Some(Ok((k, p))) => {
                    match crate::bytes::compare_bytes(k.data(), key.data()) {
                        std::cmp::Ordering::Less => {
                            proof {
                                vstd::arithmetic::div_mod::lemma_mod_add_multiples_vanish(pos0 - o0, rs);
                                assert forall|o: int| #![trigger old(self).entry_key_at(o)]
                                    o0 <= o < pos0 + rs && (o - o0) % rs == 0 implies lex_lt(
                                    old(self).entry_key_at(o),
                                    key.spec_data(),
                                ) by {
                                    if o >= pos0 {
                                        lemma_same_record(o0, pos0, o, rs);
                                    }
                                }
                            }
                        },
                        std::cmp::Ordering::Equal => {
                            assert(old(self).entry_key_at(pos0) == key.spec_data());
                            return Ok(Some(p));
                        },
                        std::cmp::Ordering::Greater => {
                            assert(lex_lt(key.spec_data(), old(self).entry_key_at(pos0)));
                            return Ok(None);
                        },
                    }
                },
            }
        }
    }
}

proof fn lemma_same_record(o0: int, p: int, o: int, rs: int)
    requires
        rs > 0,
        o0 <= p <= o < p + rs,
        (p - o0) % rs == 0,
        (o - o0) % rs == 0,
    ensures
        o == p,
{
    vstd::arithmetic::div_mod::lemma_fundamental_div_mod(p - o0, rs);
    vstd::arithmetic::div_mod::lemma_fundamental_div_mod(o - o0, rs);
    let a = (p - o0) / rs;
    let b = (o - o0) / rs;
    assert(o - p == rs * (b - a)) by (nonlinear_arith)
        requires
            p - o0 == rs * a + 0,
            o - o0 == rs * b + 0,
    ;
    if b - a >= 1 {
        assert(rs * (b - a) >= rs) by (nonlinear_arith)
            requires
                b - a >= 1,
                rs > 0,
        ;
    }
    if b - a <= -1 {
        assert(rs * (b - a) <= -rs) by (nonlinear_arith)
            requires
                b - a <= -1,
                rs > 0,
        ;
    }
}

impl Prefix {
    /// Suffix key from the stored bytes that follow the whole bytes of a
    /// `bits`-bit prefix: those bytes zero, the prefix bits cleared.
    pub fn suffix_from_stored(stored: &[u8], bits: u32) -> (r: Vec<u8>)
        requires
            (bits / 8) as int + stored@.len() < usize::MAX,
            bits as int <= ((bits / 8) as int + stored@.len()) * 8,
        ensures
            r@ == suffix_bytes(Seq::new((bits / 8) as nat, |i: int| 0u8) + stored@, bits as nat),
    {
        let s = crate::prefix::Suffix::new_from_suffix_raw(stored, bits);
        s.key
    }
}

} // verus!
