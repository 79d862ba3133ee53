//! Streaming construction of an index file.
use vstd::prelude::*;
use vstd::arithmetic::power2::pow2;
use vstd::string::StringSliceAdditionalSpecFns;
use crate::bytes::{lex_lt, lt_at, be_bytes, append_bytes, copy_bytes, push_be};
use crate::depth::{Depth, bucket_of, head32, byte_or_zero};
use crate::errors::BuilderCreateError;
use crate::format::{
    INDEX_V0_HEADER_LIMIT, index_header, index_magic_bytes, strip_key, strip_key_of, deflate, deflated,
    invalid_data,
};
use crate::key_type::KnownKeyType;
use crate::table::{Table, is_table_raw, offsets_sorted};
use crate::header::no_newline;

verus! {

/// Keys in lexicographic order fall in buckets in the same order.
pub proof fn lemma_bucket_monotone(d: nat, a: Seq<u8>, b: Seq<u8>)
    requires
        d <= 32,
        a.len() == b.len(),
        lex_lt(a, b),
    ensures
        bucket_of(d, a) <= bucket_of(d, b),
{
    let i = choose|i: int| lt_at(a, b, i);
    assert forall|j: int| 0 <= j < 4 && j < i implies byte_or_zero(a, j) == byte_or_zero(b, j) by {}
    assert forall|j: int| 0 <= j < 4 implies byte_or_zero(a, j) <= 255 && byte_or_zero(b, j) <= 255 by {}
    if i < 4 {
        assert(byte_or_zero(a, i) < byte_or_zero(b, i));
    } else {
        assert(byte_or_zero(a, 3) == byte_or_zero(b, 3));
    }
    assert(head32(a) <= head32(b));
    vstd::arithmetic::power2::lemma_pow2_pos((32 - d) as nat);
    vstd::arithmetic::div_mod::lemma_div_is_ordered(head32(a) as int, head32(b) as int, pow2((32 - d) as nat) as int);
}

/// Streaming writer of an index file.
///
/// The bytes of the file come out in order: the header when created, one
/// stored entry per key added, then the compressed table and its length when
/// finished. `take_output` hands out the bytes produced so far.
pub struct Builder {
    pub key_bytes: u8,
    pub payload_size: u8,
    pub depth: Depth,
    /// Size of the header; the first entry starts there.
    pub header_len: u64,
    /// Number of bytes produced so far.
    pub position: u64,
    /// Start offset of each bucket up to that of the last key added.
    pub offsets: Vec<u64>,
    /// The last key added.
    pub previous: Option<Vec<u8>>,
    /// Bytes produced and not yet handed out.
    pub pending: Vec<u8>,
    /// Every byte produced so far.
    pub written: Ghost<Seq<u8>>,
    /// Keys added so far, in order.
    pub keys: Ghost<Seq<Seq<u8>>>,
    /// Payloads added so far, in order.
    pub payloads: Ghost<Seq<Seq<u8>>>,
    /// For each offset, the number of entries before it.
    pub starts: Ghost<Seq<nat>>,
    /// Key type name and description in the header.
    pub header_text: Ghost<(Seq<u8>, Seq<u8>)>,
}

impl Builder {
    /// Size in bytes of one stored entry.
    pub open spec fn spec_entry_size(&self) -> nat {
        (self.key_bytes - self.depth@ / 8 + self.payload_size) as nat
    }

    /// Internal consistency of the builder.
    pub open spec fn wf(&self) -> bool {
        self.layout_wf() && self.model_wf()
    }

    /// Size in bytes of the stored part of a key.
    pub open spec fn spec_stored_key_size(&self) -> nat {
        (self.key_bytes - self.depth@ / 8) as nat
    }

    /// The bytes produced hold, after the header, one stored entry per key
    /// added, keys ascending, and each offset is the start of the first entry
    /// of its bucket.
    pub open spec fn model_wf(&self) -> bool {
        let n = self.keys@.len();
        let e = self.spec_entry_size() as int;
        let h = self.header_len as int;
        let ks = self.spec_stored_key_size() as int;
        let d = self.depth@;
        &&& self.payloads@.len() == n
        &&& self.position == h + n * e
        &&& self.header_len <= INDEX_V0_HEADER_LIMIT
        &&& no_newline(self.header_text@.0)
        &&& no_newline(self.header_text@.1)
        &&& self.written@.subrange(0, h) == index_header(
            self.header_text@.0,
            self.header_text@.1,
            self.key_bytes,
            self.payload_size,
        )
        &&& forall|j: int| 0 <= j < n ==> (#[trigger] self.keys@[j]).len() == self.key_bytes
        &&& forall|j: int| 0 <= j < n ==> (#[trigger] self.payloads@[j]).len() == self.payload_size
        &&& forall|j: int| 0 <= j < n ==> self.written@.subrange(h + j * e, h + j * e + ks) == strip_key(
            #[trigger] self.keys@[j],
            d,
        )
        &&& forall|j: int| 0 <= j < n ==> self.written@.subrange(h + j * e + ks, h + j * e + e)
            == #[trigger] self.payloads@[j]
        &&& forall|i: int, j: int| 0 <= i < j < n ==> lex_lt(#[trigger] self.keys@[i], #[trigger] self.keys@[j])
        &&& (self.previous matches Some(p) ==> n > 0 && p@ == self.keys@[n - 1])
        &&& (self.previous is None ==> n == 0)
        &&& self.starts@.len() == self.offsets@.len()
        &&& forall|b: int| 0 <= b < self.offsets@.len() ==> self.offsets@[b] == h + (#[trigger] self.starts@[b]) * e
            && self.starts@[b] <= n
        &&& forall|b: int, j: int| #![trigger self.starts@[b], self.keys@[j]]
            0 <= b < self.offsets@.len() && 0 <= j < self.starts@[b] ==> bucket_of(d, self.keys@[j]) < b
        &&& forall|b: int, j: int| #![trigger self.starts@[b], self.keys@[j]]
            0 <= b < self.offsets@.len() && self.starts@[b] <= j < n ==> bucket_of(d, self.keys@[j]) >= b
    }

    /// Layout of the bytes produced and of the offsets.
    pub open spec fn layout_wf(&self) -> bool {
        let e = self.spec_entry_size();
        &&& self.depth@ <= 24
        &&& self.key_bytes > 0
        &&& self.depth@ / 8 < self.key_bytes
        &&& self.written@.len() == self.position
        &&& self.header_len <= self.position
        &&& (self.position - self.header_len) % (e as int) == 0
        &&& self.pending@.len() <= self.written@.len()
        &&& self.pending@ == self.written@.subrange(self.written@.len() - self.pending@.len(), self.written@.len() as int)
        &&& self.offsets@.len() <= pow2(self.depth@)
        &&& offsets_sorted(self.offsets@)
        &&& forall|i: int| 0 <= i < self.offsets@.len() ==> self.header_len <= #[trigger] self.offsets@[i] <= self.position
        &&& forall|i: int| 0 <= i < self.offsets@.len() ==> (#[trigger] self.offsets@[i] - self.header_len) % (e as int) == 0
        &&& (self.previous is None <==> self.offsets@.len() == 0)
        &&& self.previous matches Some(p) ==> p@.len() == self.key_bytes && bucket_of(self.depth@, p@) + 1 == self.offsets@.len()
    }

    /// `key` may come next: it is greater than every key added so far.
    pub open spec fn accepts(&self, key: Seq<u8>) -> bool {
        match self.previous {
            None => true,
            Some(p) => lex_lt(p@, key),
        }
    }

    /// Table offsets once finished: missing buckets start, and the entries
    /// end, where the last entry ends.
    pub open spec fn final_offsets(&self) -> Seq<u64> {
        self.offsets@ + Seq::new((pow2(self.depth@) + 1 - self.offsets@.len()) as nat, |i: int| self.position)
    }

    /// Start an index with the given key type, description, payload size and depth.
    pub fn create(key_type: KnownKeyType, description: &str, payload_size: u8, depth: Depth) -> (r: Result<
        Builder,
        BuilderCreateError,
    >)
        ensures
            !depth.valid_key_size_spec(key_type.spec_len()) ==> (r matches Err(BuilderCreateError::InvalidKeyLength)),
            depth.valid_key_size_spec(key_type.spec_len()) && description.spec_bytes().contains(0x0au8) ==> (r matches Err(
                BuilderCreateError::InvalidDescription { description: d },
            ) && d@ == description@),
            depth.valid_key_size_spec(key_type.spec_len()) && !description.spec_bytes().contains(0x0au8) ==> {
                let h = index_header(key_type.spec_name(), description.spec_bytes(), key_type.spec_len() as u8, payload_size);
                &&& h.len() > INDEX_V0_HEADER_LIMIT ==> (r matches Err(BuilderCreateError::HeaderTooBig))
                &&& h.len() <= INDEX_V0_HEADER_LIMIT ==> (r matches Ok(b) && b.wf() && b.written@ == h && b.pending@ == h
                    && b.header_len == h.len() && b.offsets@.len() == 0 && b.previous is None
                    && b.key_bytes == key_type.spec_len() && b.payload_size == payload_size && b.depth == depth)
            },
    {
        let key_bytes = key_type.key_bytes_length();
        if !depth.valid_key_size(key_bytes) {
            return Err(BuilderCreateError::InvalidKeyLength);
        }
        let desc = description.as_bytes();
        let mut i: usize = 0;
        while i < desc.len()
            invariant
                i <= desc@.len(),
                desc@ == description.spec_bytes(),
                forall|j: int| 0 <= j < i ==> desc@[j] != 0x0au8,
                depth.valid_key_size_spec(key_bytes as nat),
                key_bytes == key_type.spec_len(),
            decreases desc@.len() - i,
        {
            if desc[i] == 0x0a {
                return Err(BuilderCreateError::InvalidDescription { description: description.to_owned() });
            }
            i = i + 1;
        }
        let mut h = index_magic_bytes();
        h.push(0x0a);
        let name = key_type.name_bytes();
        append_bytes(&mut h, name.as_slice());
        h.push(0x0a);
        append_bytes(&mut h, desc);
        h.push(0x0a);
        h.push(key_bytes);
        h.push(payload_size);
        assert(h@ =~= index_header(key_type.spec_name(), description.spec_bytes(), key_bytes, payload_size));
        if h.len() > 4096 {
            return Err(BuilderCreateError::HeaderTooBig);
        }
        let header_len = h.len() as u64;
        let ghost w = h@;
        let b = Builder {
            key_bytes,
            payload_size,
            depth,
            header_len,
            position: header_len,
            offsets: Vec::new(),
            previous: None,
            pending: h,
            written: Ghost(w),
            keys: Ghost(Seq::empty()),
            payloads: Ghost(Seq::empty()),
            starts: Ghost(Seq::empty()),
            header_text: Ghost((key_type.spec_name(), description.spec_bytes())),
        };
        proof {
            assert(w.subrange(0, w.len() as int) =~= w);
            key_type.lemma_name_no_newline();
            vstd::arithmetic::div_mod::lemma_mod_self_0(b.spec_entry_size() as int);
            vstd::arithmetic::div_mod::lemma_small_mod(0, b.spec_entry_size());
            assert((b.position - b.header_len) % (b.spec_entry_size() as int) == 0);
            assert(b.offsets@.len() <= pow2(b.depth@));
            assert(b.wf());
            assert(!description.spec_bytes().contains(0x0au8));
        }
        Ok(b)
    }

    /// Whether `key` may come next.
    pub fn is_next_key(&self, key: &[u8]) -> (r: bool)
        requires
            self.wf(),
            key@.len() == self.key_bytes,
        ensures
            r == self.accepts(key@),
    {
        match &self.previous {
            None => true,
            Some(p) => match crate::bytes::compare_bytes(p.as_slice(), key) {
                std::cmp::Ordering::Less => true,
                _ => false,
            },
        }
    }

    /// Add the entry of `key` with `payload`; keys come in strictly
    /// ascending order.
    pub fn add_entry(&mut self, key: &[u8], payload: &[u8])
        requires
            old(self).wf(),
            key@.len() == old(self).key_bytes,
            payload@.len() == old(self).payload_size,
            old(self).accepts(key@),
            old(self).position + old(self).spec_entry_size() <= u64::MAX,
        ensures
            final(self).wf(),
            final(self).written@ == old(self).written@ + strip_key(key@, old(self).depth@) + payload@,
            final(self).pending@ == old(self).pending@ + strip_key(key@, old(self).depth@) + payload@,
            final(self).offsets@ == old(self).offsets@ + Seq::new(
                (bucket_of(old(self).depth@, key@) + 1 - old(self).offsets@.len()) as nat,
                |i: int| old(self).position,
            ),
            final(self).previous matches Some(p) && p@ == key@,
            final(self).position == old(self).position + old(self).spec_entry_size(),
            final(self).key_bytes == old(self).key_bytes,
            final(self).payload_size == old(self).payload_size,
            final(self).depth == old(self).depth,
            final(self).header_len == old(self).header_len,
    {
        let d = self.depth.as_u8();
        let b = self.depth.index(key);
        proof {
            if self.previous is Some {
                let p = self.previous->Some_0;
                lemma_bucket_monotone(d as nat, p@, key@);
            }
        }
        let ghost old_offsets = self.offsets@;
        let pos = self.position;
        let ghost e = self.spec_entry_size();
        let target: usize = b as usize + 1;
        while self.offsets.len() < target
            invariant
                self.layout_wf() || self.offsets@.len() > old_offsets.len(),
                self.previous == old(self).previous,
                self.position == pos,
                self.header_len == old(self).header_len,
                self.depth == old(self).depth,
                self.key_bytes == old(self).key_bytes,
                self.payload_size == old(self).payload_size,
                self.pending == old(self).pending,
                self.written == old(self).written,
                self.keys == old(self).keys,
                self.payloads == old(self).payloads,
                self.starts == old(self).starts,
                self.header_text == old(self).header_text,
                e == self.spec_entry_size(),
                old(self).wf(),
                target == b + 1,
                b < pow2(d as nat),
                d == self.depth@,
                old_offsets == old(self).offsets@,
                old_offsets.len() <= target,
                old_offsets.len() <= self.offsets@.len() <= target,
                self.offsets@ == old_offsets + Seq::new((self.offsets@.len() - old_offsets.len()) as nat, |i: int| pos),
            decreases target - self.offsets@.len(),
        {
            self.offsets.push(pos);
            assert(self.offsets@ =~= old_offsets + Seq::new((self.offsets@.len() - old_offsets.len()) as nat, |i: int| pos));
        }
        let entry = strip_key_of(key, d);
        let ghost w0 = self.written@;
        append_bytes(&mut self.pending, entry.as_slice());
        append_bytes(&mut self.pending, payload);
        self.written = Ghost(w0 + entry@ + payload@);
        self.position = pos + (entry.len() + payload.len()) as u64;
        self.previous = Some(copy_bytes(key));
        let ghost n0 = self.keys@.len();
        self.keys = Ghost(self.keys@.push(key@));
        self.payloads = Ghost(self.payloads@.push(payload@));
        self.starts = Ghost(self.starts@ + Seq::new((b + 1 - old_offsets.len()) as nat, |i: int| n0));
        proof {
            assert(self.offsets@ =~= old_offsets + Seq::new((b + 1 - old_offsets.len()) as nat, |i: int| pos));
            lemma_add_entry_model(*old(self), *self, key@, payload@, b as nat);
            let w = self.written@;
            let pe = self.pending@;
            assert(entry@.len() + payload@.len() == e);
            assert(pe == old(self).pending@ + entry@ + payload@);
            assert(pe =~= w.subrange(w.len() - pe.len(), w.len() as int));
            vstd::arithmetic::div_mod::lemma_mod_add_multiples_vanish((pos - self.header_len) as int, e as int);
            assert(self.offsets@ =~= old_offsets + Seq::new((b + 1 - old_offsets.len()) as nat, |i: int| pos));
            assert forall|i: int, j: int| 0 <= i <= j < self.offsets@.len() implies self.offsets@[i] <= self.offsets@[j] by {
                if j >= old_offsets.len() {
                    if i < old_offsets.len() {
                        assert(old_offsets[i] <= pos);
                    }
                }
            }
            assert forall|i: int| 0 <= i < self.offsets@.len() implies self.header_len <= #[trigger] self.offsets@[i] <= self.position
                && (self.offsets@[i] - self.header_len) % (e as int) == 0 by {
                if i < old_offsets.len() {
                    assert(old_offsets[i] == self.offsets@[i]);
                }
            }
        }
    }

    /// Hand out the bytes produced since the last call.
    pub fn take_output(&mut self) -> (r: Vec<u8>)
        requires
            old(self).wf(),
        ensures
            final(self).wf(),
            r@ == old(self).pending@,
            final(self).pending@.len() == 0,
            final(self).written == old(self).written,
            final(self).offsets == old(self).offsets,
            final(self).previous == old(self).previous,
            final(self).position == old(self).position,
            final(self).key_bytes == old(self).key_bytes,
            final(self).payload_size == old(self).payload_size,
            final(self).depth == old(self).depth,
            final(self).header_len == old(self).header_len,
    {
        let mut r: Vec<u8> = Vec::new();
        std::mem::swap(&mut r, &mut self.pending);
        proof {
            let w = self.written@;
            assert(self.pending@ =~= w.subrange(w.len() - 0, w.len() as int));
        }
        r
    }

    /// Close the index: the remaining bytes to write, which end with the
    /// compressed table and its length as four big-endian bytes.
    pub fn finish(self) -> (r: Result<Vec<u8>, std::io::Error>)
        requires
            self.wf(),
        ensures
            r matches Ok(v) ==> exists|raw: Seq<u8>| #![auto]
                is_table_raw(raw, self.depth@, self.final_offsets())
                && deflated(raw).len() < 0x1_0000_0000
                && v@ == self.pending@ + deflated(raw) + be_bytes(deflated(raw).len(), 4),
            forall|raw: Seq<u8>| #![auto]
                is_table_raw(raw, self.depth@, self.final_offsets()) && deflated(raw).len() < 0xffff_ffff ==> r is Ok,
    {
        let mut offsets = self.offsets;
        let entries = self.depth.table_entries();
        let pos = self.position;
        let ghost old_offsets = offsets@;
        proof {
            vstd::arithmetic::power2::lemma2_to64();
        }
        while offsets.len() < entries
            invariant
                entries == pow2(self.depth@) + 1,
                old_offsets.len() <= offsets@.len() <= entries,
                old_offsets == self.offsets@,
                self.wf(),
                offsets@ == old_offsets + Seq::new((offsets@.len() - old_offsets.len()) as nat, |i: int| pos),
                pos == self.position,
            decreases entries - offsets@.len(),
        {
            offsets.push(pos);
            assert(offsets@ =~= old_offsets + Seq::new((offsets@.len() - old_offsets.len()) as nat, |i: int| pos));
        }
        assert(offsets@ =~= self.final_offsets());
        let table = Table { depth: self.depth, file_offsets: offsets };
        let raw = table.to_raw();
        let compressed = deflate(raw.as_slice())?;
        if compressed.len() >= 0xffff_ffff {
            assert forall|raw2: Seq<u8>| #![auto]
                is_table_raw(raw2, self.depth@, self.final_offsets()) implies deflated(raw2).len() >= 0xffff_ffff by {
                crate::table::lemma_table_raw_unique(raw2, raw@, self.depth@, self.final_offsets());
            }
            return Err(invalid_data());
        }
        let mut out = self.pending;
        append_bytes(&mut out, compressed.as_slice());
        push_be(&mut out, compressed.len() as u64, 4);
        assert(is_table_raw(raw@, self.depth@, self.final_offsets()));
        Ok(out)
    }
}

proof fn lemma_add_entry_model(s0: Builder, s1: Builder, key: Seq<u8>, payload: Seq<u8>, bq: nat)
    requires
        s0.wf(),
        key.len() == s0.key_bytes,
        payload.len() == s0.payload_size,
        s0.accepts(key),
        bq == bucket_of(s0.depth@, key),
        s1.key_bytes == s0.key_bytes,
        s1.payload_size == s0.payload_size,
        s1.depth == s0.depth,
        s1.header_len == s0.header_len,
        s1.keys@ == s0.keys@.push(key),
        s1.payloads@ == s0.payloads@.push(payload),
        s1.written@ == s0.written@ + strip_key(key, s0.depth@) + payload,
        s1.position == s0.position + s0.spec_entry_size(),
        bq + 1 >= s0.offsets@.len(),
        s1.offsets@ == s0.offsets@ + Seq::new((bq + 1 - s0.offsets@.len()) as nat, |i: int| s0.position),
        s1.starts@ == s0.starts@ + Seq::new((bq + 1 - s0.offsets@.len()) as nat, |i: int| s0.keys@.len()),
        s1.previous matches Some(p) && p@ == key,
        s1.header_text == s0.header_text,
    ensures
        s1.model_wf(),
{
    assert(s1.written@.subrange(0, s0.header_len as int) =~= s0.written@.subrange(0, s0.header_len as int));
    let n = s0.keys@.len();
    let e = s0.spec_entry_size() as int;
    let h = s0.header_len as int;
    let ks = s0.spec_stored_key_size() as int;
    let d = s0.depth@;
    let w0 = s0.written@;
    let w1 = s1.written@;
    assert(strip_key(key, d).len() == ks);
    assert(w0.len() == h + n * e);
    assert(h + (n + 1) * e == h + n * e + e) by (nonlinear_arith);
    assert forall|j: int| 0 <= j < n + 1 implies w1.subrange(h + j * e, h + j * e + ks) == strip_key(
        #[trigger] s1.keys@[j],
        d,
    ) && w1.subrange(h + j * e + ks, h + j * e + e) == s1.payloads@[j] by {
        if j < n {
            assert(j * e + e <= n * e) by (nonlinear_arith)
                requires
                    j < n,
                    e > 0,
            ;
            assert(j * e >= 0) by (nonlinear_arith)
                requires
                    j >= 0,
                    e > 0,
            ;
            assert(w1.subrange(h + j * e, h + j * e + ks) =~= w0.subrange(h + j * e, h + j * e + ks));
            assert(w1.subrange(h + j * e + ks, h + j * e + e) =~= w0.subrange(h + j * e + ks, h + j * e + e));
            assert(s1.keys@[j] == s0.keys@[j]);
            assert(s1.payloads@[j] == s0.payloads@[j]);
        } else {
            assert(w1.subrange(h + j * e, h + j * e + ks) =~= strip_key(key, d));
            assert(w1.subrange(h + j * e + ks, h + j * e + e) =~= payload);
        }
    }
    if n > 0 {
        let prev = s0.keys@[n - 1];
        assert(lex_lt(prev, key));
        assert forall|j: int| 0 <= j < n implies bucket_of(d, #[trigger] s0.keys@[j]) <= bq by {
            if j < n - 1 {
                crate::bytes::lemma_lex_trans(s0.keys@[j], prev, key);
            }
            lemma_bucket_monotone(d, s0.keys@[j], key);
        }
        assert forall|i: int, j: int| 0 <= i < j < n + 1 implies lex_lt(#[trigger] s1.keys@[i], #[trigger] s1.keys@[j]) by {
            if j == n {
                if i < n - 1 {
                    crate::bytes::lemma_lex_trans(s0.keys@[i], prev, key);
                }
            } else {
                assert(s1.keys@[i] == s0.keys@[i] && s1.keys@[j] == s0.keys@[j]);
            }
        }
        assert(s0.previous is Some);
        let prev0 = s0.previous->Some_0;
        assert(bucket_of(d, prev0@) + 1 == s0.offsets@.len());
    } else {
        assert forall|i: int, j: int| 0 <= i < j < n + 1 implies lex_lt(#[trigger] s1.keys@[i], #[trigger] s1.keys@[j]) by {}
    }
    let len0 = s0.offsets@.len() as int;
    assert forall|b: int| 0 <= b < s1.offsets@.len() implies s1.offsets@[b] == h + (#[trigger] s1.starts@[b]) * e
        && s1.starts@[b] <= n + 1 by {
        if b < len0 {
            assert(s1.starts@[b] == s0.starts@[b]);
            assert(s1.offsets@[b] == s0.offsets@[b]);
        } else {
            assert(s1.starts@[b] == n);
        }
    }
    assert forall|b: int, j: int| #![trigger s1.starts@[b], s1.keys@[j]]
        0 <= b < s1.offsets@.len() && 0 <= j < s1.starts@[b] implies bucket_of(d, s1.keys@[j]) < b by {
        if b < len0 {
            assert(s1.starts@[b] == s0.starts@[b]);
            assert(s0.starts@[b] <= n);
            assert(s1.keys@[j] == s0.keys@[j]);
            assert(bucket_of(d, s0.keys@[j]) < b);
        } else {
            assert(s1.starts@[b] == n);
            assert(s1.keys@[j] == s0.keys@[j]);
            assert(bucket_of(d, s0.keys@[j]) <= len0 - 1) by {
                let prev0 = s0.previous->Some_0;
                if j < n - 1 {
                    assert(lex_lt(s0.keys@[j], s0.keys@[n - 1]));
                    lemma_bucket_monotone(d, s0.keys@[j], s0.keys@[n - 1]);
                }
            }
        }
    }
    assert forall|b: int, j: int| #![trigger s1.starts@[b], s1.keys@[j]]
        0 <= b < s1.offsets@.len() && s1.starts@[b] <= j < n + 1 implies bucket_of(d, s1.keys@[j]) >= b by {
        if j < n {
            assert(b < len0);
            assert(s1.starts@[b] == s0.starts@[b]);
            assert(s1.keys@[j] == s0.keys@[j]);
            assert(bucket_of(d, s0.keys@[j]) >= b);
        } else {
            assert(s1.keys@[j] == key);
        }
    }
    assert forall|j: int| 0 <= j < n + 1 implies (#[trigger] s1.keys@[j]).len() == s1.key_bytes by {
        if j < n {
            assert(s1.keys@[j] == s0.keys@[j]);
        }
    }
    assert forall|j: int| 0 <= j < n + 1 implies (#[trigger] s1.payloads@[j]).len() == s1.payload_size by {
        if j < n {
            assert(s1.payloads@[j] == s0.payloads@[j]);
        }
    }
    assert forall|j: int| 0 <= j < n + 1 implies w1.subrange(h + j * e + ks, h + j * e + e)
        == #[trigger] s1.payloads@[j] by {
        assert(w1.subrange(h + j * e, h + j * e + ks) == strip_key(s1.keys@[j], d));
    }
    assert forall|j: int| 0 <= j < n + 1 implies w1.subrange(h + j * e, h + j * e + ks) == strip_key(#[trigger] s1.keys@[j], d) by {
    }
    assert(s1.payloads@.len() == n + 1);
    assert(s1.position == h + (n + 1) * e);
    assert(s1.previous matches Some(p) ==> n + 1 > 0 && p@ == s1.keys@[n + 1 - 1]);
    assert(s1.starts@.len() == s1.offsets@.len());
}

/// The table of a finished index starts buckets in order, ends at the end of
/// the entries, and gives each bucket a whole number of entries.
pub proof fn lemma_finished_table(b: Builder)
    requires
        b.wf(),
    ensures
        b.final_offsets().len() == pow2(b.depth@) + 1,
        offsets_sorted(b.final_offsets()),
        b.final_offsets().last() == b.position,
        forall|i: int| 0 <= i < pow2(b.depth@) ==> (#[trigger] b.final_offsets()[i + 1] - b.final_offsets()[i]) % (
            b.spec_entry_size() as int) == 0,
{
    let f = b.final_offsets();
    let e = b.spec_entry_size() as int;
    let h = b.header_len as int;
    vstd::arithmetic::power2::lemma_pow2_pos(b.depth@);
    assert(f.len() == pow2(b.depth@) + 1);
    assert forall|i: int| 0 <= i < f.len() implies h <= #[trigger] f[i] <= b.position && (f[i] - h) % e == 0 by {
        if i < b.offsets@.len() {
        }
    }
    assert forall|i: int, j: int| 0 <= i <= j < f.len() implies f[i] <= f[j] by {
        if j >= b.offsets@.len() {
        }
    }
    assert forall|i: int| 0 <= i < pow2(b.depth@) implies (#[trigger] f[i + 1] - f[i]) % e == 0 by {
        let x = f[i] - h;
        let y = f[i + 1] - h;
        vstd::arithmetic::div_mod::lemma_fundamental_div_mod(x, e);
        vstd::arithmetic::div_mod::lemma_fundamental_div_mod(y, e);
        assert(y - x == e * (y / e - x / e)) by (nonlinear_arith)
            requires
                x == e * (x / e) + x % e,
                y == e * (y / e) + y % e,
                x % e == 0,
                y % e == 0,
        ;
        vstd::arithmetic::div_mod::lemma_mod_multiples_basic(y / e - x / e, e);
        assert(e * (y / e - x / e) == (y / e - x / e) * e) by (nonlinear_arith);
    }
}

} // verus!
