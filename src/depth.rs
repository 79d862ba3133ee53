//! Table depth, bucket indices and ranges of buckets.
use vstd::prelude::*;
use vstd::arithmetic::power2::{pow2, lemma2_to64, lemma_pow2_pos, lemma_pow2_adds};
use vstd::arithmetic::div_mod::{lemma_fundamental_div_mod, lemma_div_is_ordered, lemma_div_pos_is_pos};
use vstd::bits::{lemma_u64_shr_is_div, lemma_u64_shl_is_mul};
use crate::bits::{keep_high, keep_low, prefix_bytes, suffix_bytes, unsplit_bytes};

verus! {

/// Largest supported depth (bits of key prefix addressing the table).
pub const TABLE_MAX_DEPTH: u8 = 24;

/// Byte `i` of `k`, or zero past its end.
pub open spec fn byte_or_zero(k: Seq<u8>, i: int) -> nat {
    if 0 <= i < k.len() {
        k[i] as nat
    } else {
        0
    }
}

/// The first four bytes of `k` as a big-endian number, zero-padded.
pub open spec fn head32(k: Seq<u8>) -> nat {
    byte_or_zero(k, 0) * 0x1000000 + byte_or_zero(k, 1) * 0x10000 + byte_or_zero(k, 2) * 0x100
        + byte_or_zero(k, 3)
}

/// Bucket of key `k` in a table of depth `d`: its `d` most significant bits.
pub open spec fn bucket_of(d: nat, k: Seq<u8>) -> nat {
    head32(k) / pow2((32 - d) as nat)
}

/// Big-endian bytes of a 32-bit number.
pub open spec fn be32_bytes(v: nat) -> Seq<u8> {
    seq![(v / 0x1000000 % 0x100) as u8, (v / 0x10000 % 0x100) as u8, (v / 0x100 % 0x100) as u8, (v % 0x100) as u8]
}

/// The first `d` bits of a key whose bucket is `b`, as four bytes.
pub open spec fn bucket_bytes(d: nat, b: nat) -> Seq<u8> {
    be32_bytes(b * pow2((32 - d) as nat))
}

/// Number of key bits addressing the bucket table; at most 24.
#[derive(Copy, Clone, PartialEq, Eq, Structural, PartialOrd, Ord, Hash, Debug)]
pub struct Depth(u8);

impl Depth {
    /// The depth in bits.
    pub closed spec fn view(self) -> nat {
        self.0 as nat
    }

    #[verifier::type_invariant]
    spec fn inv(self) -> bool {
        self.0 <= TABLE_MAX_DEPTH
    }

    /// Depths of the same number of bits are the same.
    pub proof fn lemma_same(self, other: Depth)
        requires
            self@ == other@,
        ensures
            self == other,
    {
    }

    /// Depth of 20 bits.
    pub fn depth20() -> (r: Depth)
        ensures
            r@ == 20,
    {
        Depth(20)
    }

    /// Depth of 16 bits.
    pub fn depth16() -> (r: Depth)
        ensures
            r@ == 16,
    {
        Depth(16)
    }

    /// A depth of `depth` bits; `None` when it exceeds the maximum of 24.
    pub fn new(depth: u8) -> (r: Option<Depth>)
        ensures
            depth <= 24 <==> r is Some,
            r matches Some(d) ==> d@ == depth,
    {
        if depth > TABLE_MAX_DEPTH {
            return None;
        }
        Some(Depth(depth))
    }

    /// Depth in bits.
    pub fn as_u8(self) -> (r: u8)
        ensures
            r == self@,
            r <= 24,
    {
        proof {
            use_type_invariant(self);
        }
        self.0
    }

    /// Keys of `key_bytes` bytes fit this depth.
    pub open spec fn valid_key_size_spec(self, key_bytes: nat) -> bool {
        key_bytes > 0 && self@ / 8 + 1 <= key_bytes
    }

    /// Whether keys of `key_bytes` bytes fit this depth: at least one byte
    /// must remain after the whole bytes of the prefix.
    pub fn valid_key_size(&self, key_bytes: u8) -> (r: bool)
        ensures
            r == self.valid_key_size_spec(key_bytes as nat),
            self@ <= 24,
    {
        let d = self.as_u8();
        if key_bytes == 0 {
            return false;
        }
        if (d / 8) + 1 > key_bytes {
            return false;
        }
        true
    }

    /// Number of slots in the table: one per bucket and the end offset.
    pub fn table_entries(self) -> (r: usize)
        ensures
            r == pow2(self@) + 1,
    {
        let d = self.as_u8();
        proof {
            lemma2_to64();
            lemma_u64_shl_is_mul(1, d as u64);
            vstd::arithmetic::power2::lemma_pow2_strictly_increases(d as nat, 25);
            if d < 24 {
                vstd::arithmetic::power2::lemma_pow2_strictly_increases(d as nat, 24);
            }
        }
        ((1u64 << (d as u64)) + 1) as usize
    }

    /// Size in bytes of one stored entry.
    pub fn entry_size(self, key_size: u8, payload_size: u8) -> (r: usize)
        requires
            self@ / 8 < key_size,
        ensures
            r == key_size - self@ / 8 + payload_size,
    {
        let strip_key_prefix = self.as_u8() as usize / 8;
        (key_size as usize) - strip_key_prefix + (payload_size as usize)
    }

    /// Bucket of `key` in a table of this depth.
    pub fn index(self, key: &[u8]) -> (r: u32)
        ensures
            r == bucket_of(self@, key@),
            r < pow2(self@),
            r < 0x1000000,
    {
        let h = head32_of(key);
        let d = self.as_u8();
        let s: u64 = 32 - d as u64;
        proof {
            lemma_u64_shr_is_div(h, s);
            lemma2_to64();
            lemma_pow2_adds(d as nat, s as nat);
            lemma_pow2_pos(s as nat);
            assert(pow2(s as nat) * pow2(d as nat) == pow2(d as nat) * pow2(s as nat)) by (nonlinear_arith);
            vstd::arithmetic::div_mod::lemma_multiply_divide_lt(h as int, pow2(s as nat) as int, pow2(d as nat) as int);
            if d < 24 {
                vstd::arithmetic::power2::lemma_pow2_strictly_increases(d as nat, 24);
            }
        }
        (h >> s) as u32
    }

    /// Prefix of `key` with this depth.
    pub fn prefix(self, key: &[u8]) -> (r: LimPrefix)
        ensures
            r.wf(),
            r.depth@ == self@,
            r.bucket == bucket_of(self@, key@),
    {
        let _ = self.as_u8();
        LimPrefix { bucket: self.index(key), depth: self }
    }

    /// Buckets holding the keys whose first `key_bits` bits equal those of
    /// `key`: its own bucket, and all others sharing those bits.
    pub open spec fn prefix_range_spec(self, key: Seq<u8>, key_bits: nat) -> LimPrefixRange {
        if key_bits >= self@ {
            LimPrefixRange { first: bucket_of(self@, key) as u64, end: (bucket_of(self@, key) + 1) as u64, depth: self }
        } else {
            let m = pow2((self@ - key_bits) as nat);
            LimPrefixRange {
                first: (bucket_of(self@, key) / m * m) as u64,
                end: (bucket_of(self@, key) / m * m + m) as u64,
                depth: self,
            }
        }
    }

    /// Range of buckets holding the keys whose first `key_bits` bits equal
    /// those of `key`.
    pub fn prefix_range(self, key: &[u8], key_bits: u32) -> (r: LimPrefixRange)
        ensures
            r.wf(),
            r.depth == self,
            r == self.prefix_range_spec(key@, key_bits as nat),
            key_bits >= self@ ==> r.first == bucket_of(self@, key@) && r.end == r.first + 1,
            key_bits < self@ ==> {
                let m = pow2((self@ - key_bits) as nat);
                &&& r.first == bucket_of(self@, key@) / m * m
                &&& r.end == r.first + m
            },
    {
        let b = self.index(key) as u64;
        let d = self.as_u8() as u32;
        if key_bits >= d {
            return LimPrefixRange { first: b, end: b + 1, depth: self };
        }
        let m: u64 = (d - key_bits) as u64;
        proof {
            lemma2_to64();
            vstd::arithmetic::power2::lemma_pow2_strictly_increases(m as nat, 25);
            vstd::arithmetic::power2::lemma_pow2_strictly_increases(d as nat, 25);
            lemma_u64_shl_is_mul(1, m);
            lemma_pow2_pos(m as nat);
        }
        let step: u64 = 1u64 << m;
        proof {
            let q = b as int / step as int;
            lemma_fundamental_div_mod(b as int, step as int);
            vstd::arithmetic::div_mod::lemma_mod_pos_bound(b as int, step as int);
            lemma_pow2_adds(key_bits as nat, m as nat);
            assert(pow2(key_bits as nat) * step == pow2(d as nat));
            assert(step * pow2(key_bits as nat) == pow2(key_bits as nat) * step) by (nonlinear_arith);
            vstd::arithmetic::div_mod::lemma_multiply_divide_lt(b as int, step as int, pow2(key_bits as nat) as int);
            vstd::arithmetic::mul::lemma_mul_inequality(q + 1, pow2(key_bits as nat) as int, step as int);
            assert(q * step + step == (q + 1) * step) by (nonlinear_arith);
            assert(q * step == step * q) by (nonlinear_arith);
        }
        let first = b / step * step;
        LimPrefixRange { first, end: first + step, depth: self }
    }
}

/// The first four bytes of `key`, big-endian, zero-padded.
fn head32_of(key: &[u8]) -> (r: u64)
    ensures
        r == head32(key@),
        r < 0x1_0000_0000,
{
    let b0: u64 = if key.len() > 0 { key[0] as u64 } else { 0 };
    let b1: u64 = if key.len() > 1 { key[1] as u64 } else { 0 };
    let b2: u64 = if key.len() > 2 { key[2] as u64 } else { 0 };
    let b3: u64 = if key.len() > 3 { key[3] as u64 } else { 0 };
    b0 * 0x1000000 + b1 * 0x10000 + b2 * 0x100 + b3
}

/// The first `depth` bits of a key, identified by the bucket they address.
#[derive(Copy, Clone, PartialEq, Eq, Structural, Hash, Debug)]
pub struct LimPrefix {
    pub bucket: u32,
    pub depth: Depth,
}

impl LimPrefix {
    /// Well-formed: the bucket exists in a table of this depth.
    pub open spec fn wf(self) -> bool {
        self.depth@ <= 24 && self.bucket < pow2(self.depth@)
    }

    /// Length of the prefix.
    pub fn depth(self) -> (r: Depth)
        ensures
            r == self.depth,
    {
        self.depth
    }

    /// Bucket addressed by this prefix.
    pub fn index(self) -> (r: u32)
        ensures
            r == self.bucket,
    {
        self.bucket
    }

    /// The prefix as four bytes: its bits first, then zero bits.
    pub fn raw_bytes(self) -> (r: [u8; 4])
        requires
            self.wf(),
        ensures
            r@ == bucket_bytes(self.depth@, self.bucket as nat),
    {
        let d = self.depth.as_u8();
        let s: u64 = 32 - d as u64;
        proof {
            lemma2_to64();
            lemma_pow2_adds(d as nat, s as nat);
            lemma_pow2_pos(s as nat);
            vstd::arithmetic::mul::lemma_mul_strict_inequality(
                self.bucket as int,
                pow2(d as nat) as int,
                pow2(s as nat) as int,
            );
            lemma_u64_shl_is_mul(self.bucket as u64, s);
        }
        let v: u64 = (self.bucket as u64) << s;
        let r = [(v / 0x1000000 % 0x100) as u8, (v / 0x10000 % 0x100) as u8, (v / 0x100 % 0x100) as u8, (v % 0x100) as u8];
        assert(r@ =~= bucket_bytes(self.depth@, self.bucket as nat));
        r
    }

    /// Write the prefix bits into `key`, keeping its other bits.
    pub fn set_key_prefix(self, key: &mut Vec<u8>)
        requires
            self.wf(),
            self.depth@ / 8 <= old(key)@.len(),
            self.depth@ % 8 != 0 ==> self.depth@ / 8 < old(key)@.len(),
        ensures
            final(key)@ == unsplit_bytes(
                prefix_bytes(bucket_bytes(self.depth@, self.bucket as nat), old(key)@.len(), self.depth@),
                suffix_bytes(old(key)@, self.depth@),
            ),
    {
        let raw = self.raw_bytes();
        let d = self.depth.as_u8();
        let full = (d / 8) as usize;
        let part = d % 8;
        let ghost k0 = key@;
        let ghost pb = prefix_bytes(bucket_bytes(self.depth@, self.bucket as nat), k0.len(), self.depth@);
        let ghost sb = suffix_bytes(k0, self.depth@);
        let mut i: usize = 0;
        while i < full
            invariant
                i <= full,
                full == d / 8,
                d == self.depth@,
                d <= 24,
                raw@ == bucket_bytes(self.depth@, self.bucket as nat),
                full <= k0.len(),
                part != 0 ==> full < k0.len(),
                part == d % 8,
                key@.len() == k0.len(),
                forall|j: int| 0 <= j < i ==> key@[j] == raw@[j],
                forall|j: int| i <= j < k0.len() ==> key@[j] == k0[j],
            decreases full - i,
        {
            key.set(i, raw[i]);
            i = i + 1;
        }
        if part != 0 {
            let m: u8 = 0xffu8 >> part;
            let b = key[full];
            let rb = raw[full];
            let nb = (b & m) | (rb & !m);
            assert(nb == keep_high(rb, part) | keep_low(b, part)) by (bit_vector)
                requires
                    m == 0xffu8 >> part,
                    nb == (b & m) | (rb & !m),
            ;
            key.set(full, nb);
        }
        proof {
            assert forall|j: int| 0 <= j < k0.len() implies #[trigger] key@[j] == (pb[j] | sb[j]) by {
                let x = k0[j];
                let y = raw@[j];
                if j < full {
                    assert(y | 0 == y) by (bit_vector);
                } else if j == full && part != 0 {
                } else if j == full {
                    assert(0 | (x & (0xffu8 >> 0u8)) == x) by (bit_vector);
                } else {
                    assert(0 | x == x) by (bit_vector);
                }
            }
            assert(key@ =~= unsplit_bytes(pb, sb));
        }
    }
}

/// A run of consecutive buckets `[first, end)`, visited in order from both ends.
#[derive(Copy, Clone, Debug)]
pub struct LimPrefixRange {
    pub first: u64,
    pub end: u64,
    pub depth: Depth,
}

impl LimPrefixRange {
    /// Well-formed: the buckets exist in a table of this depth.
    pub open spec fn wf(self) -> bool {
        self.depth@ <= 24 && self.first <= self.end <= pow2(self.depth@)
    }

    /// Number of buckets left.
    pub fn len(&self) -> (r: usize)
        requires
            self.wf(),
        ensures
            r == self.end - self.first,
    {
        proof {
            lemma2_to64();
            if self.depth@ < 24 {
                vstd::arithmetic::power2::lemma_pow2_strictly_increases(self.depth@, 24);
            }
        }
        (self.end - self.first) as usize
    }

    /// Take the lowest bucket left.
    pub fn next(&mut self) -> (r: Option<LimPrefix>)
        requires
            old(self).wf(),
        ensures
            final(self).wf(),
            final(self).depth == old(self).depth,
            final(self).end == old(self).end,
            r matches Some(p) ==> p.wf(),
            old(self).first < old(self).end ==> r == Some(LimPrefix { bucket: old(self).first as u32, depth: old(self).depth })
                && final(self).first == old(self).first + 1,
            old(self).first >= old(self).end ==> r is None && final(self).first == old(self).first,
    {
        proof {
            lemma2_to64();
            if self.depth@ < 24 {
                vstd::arithmetic::power2::lemma_pow2_strictly_increases(self.depth@, 24);
            }
        }
        if self.first < self.end {
            let b = self.first as u32;
            self.first = self.first + 1;
            Some(LimPrefix { bucket: b, depth: self.depth })
        } else {
            None
        }
    }

    /// Take the highest bucket left.
    pub fn next_back(&mut self) -> (r: Option<LimPrefix>)
        requires
            old(self).wf(),
        ensures
            final(self).wf(),
            final(self).depth == old(self).depth,
            final(self).first == old(self).first,
            r matches Some(p) ==> p.wf(),
            old(self).first < old(self).end ==> r == Some(LimPrefix { bucket: (old(self).end - 1) as u32, depth: old(self).depth })
                && final(self).end == old(self).end - 1,
            old(self).first >= old(self).end ==> r is None && final(self).end == old(self).end,
    {
        proof {
            lemma2_to64();
            if self.depth@ < 24 {
                vstd::arithmetic::power2::lemma_pow2_strictly_increases(self.depth@, 24);
            }
        }
        if self.first < self.end {
            self.end = self.end - 1;
            Some(LimPrefix { bucket: self.end as u32, depth: self.depth })
        } else {
            None
        }
    }
}

} // verus!
