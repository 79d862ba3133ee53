//! How the order of keys relates to the order of their stored forms.
use vstd::prelude::*;
use vstd::arithmetic::power2::pow2;
use crate::bits::{keep_high, keep_low};
use crate::bytes::{lex_lt, lt_at};
use crate::depth::{bucket_of, byte_or_zero, head32};
use crate::format::{masked_entry_key, strip_key};

verus! {

/// `a` and `b` agree on their first `d` bits.
pub open spec fn same_top_bits(a: Seq<u8>, b: Seq<u8>, d: nat) -> bool {
    &&& forall|i: int| 0 <= i < d / 8 ==> a[i] == b[i]
    &&& d % 8 != 0 ==> keep_high(a[(d / 8) as int], (d % 8) as u8) == keep_high(b[(d / 8) as int], (d % 8) as u8)
}

proof fn lemma_shift_bytes(a0: u8, a1: u8, a2: u8, a3: u8, b0: u8, b1: u8, b2: u8, b3: u8, s: u32)
    requires
        8 <= s <= 32,
        s < 32 ==> {
            let x = ((a0 as u32) << 24u32) | ((a1 as u32) << 16u32) | ((a2 as u32) << 8u32) | (a3 as u32);
            let y = ((b0 as u32) << 24u32) | ((b1 as u32) << 16u32) | ((b2 as u32) << 8u32) | (b3 as u32);
            x >> s == y >> s
        },
    ensures
        s <= 24 ==> a0 == b0,
        s <= 16 ==> a1 == b1,
        s <= 8 ==> a2 == b2,
        24 < s < 32 ==> a0 & !(0xffu8 >> ((32 - s) as u8)) == b0 & !(0xffu8 >> ((32 - s) as u8)),
        16 < s < 24 ==> a1 & !(0xffu8 >> ((24 - s) as u8)) == b1 & !(0xffu8 >> ((24 - s) as u8)),
        8 < s < 16 ==> a2 & !(0xffu8 >> ((16 - s) as u8)) == b2 & !(0xffu8 >> ((16 - s) as u8)),
{
    if s < 32 {
        let x = ((a0 as u32) << 24u32) | ((a1 as u32) << 16u32) | ((a2 as u32) << 8u32) | (a3 as u32);
        let y = ((b0 as u32) << 24u32) | ((b1 as u32) << 16u32) | ((b2 as u32) << 8u32) | (b3 as u32);
        assert(s <= 24 ==> a0 == b0) by (bit_vector)
            requires
                x == ((a0 as u32) << 24u32) | ((a1 as u32) << 16u32) | ((a2 as u32) << 8u32) | (a3 as u32),
                y == ((b0 as u32) << 24u32) | ((b1 as u32) << 16u32) | ((b2 as u32) << 8u32) | (b3 as u32),
                x >> s == y >> s,
                8 <= s < 32,
        ;
        assert(s <= 16 ==> a1 == b1) by (bit_vector)
            requires
                x == ((a0 as u32) << 24u32) | ((a1 as u32) << 16u32) | ((a2 as u32) << 8u32) | (a3 as u32),
                y == ((b0 as u32) << 24u32) | ((b1 as u32) << 16u32) | ((b2 as u32) << 8u32) | (b3 as u32),
                x >> s == y >> s,
                8 <= s < 32,
        ;
        assert(s <= 8 ==> a2 == b2) by (bit_vector)
            requires
                x == ((a0 as u32) << 24u32) | ((a1 as u32) << 16u32) | ((a2 as u32) << 8u32) | (a3 as u32),
                y == ((b0 as u32) << 24u32) | ((b1 as u32) << 16u32) | ((b2 as u32) << 8u32) | (b3 as u32),
                x >> s == y >> s,
                8 <= s < 32,
        ;
        assert(24 < s < 32 ==> a0 & !(0xffu8 >> ((32 - s) as u8)) == b0 & !(0xffu8 >> ((32 - s) as u8))) by (bit_vector)
            requires
                x == ((a0 as u32) << 24u32) | ((a1 as u32) << 16u32) | ((a2 as u32) << 8u32) | (a3 as u32),
                y == ((b0 as u32) << 24u32) | ((b1 as u32) << 16u32) | ((b2 as u32) << 8u32) | (b3 as u32),
                x >> s == y >> s,
                8 <= s < 32,
        ;
        assert(16 < s < 24 ==> a1 & !(0xffu8 >> ((24 - s) as u8)) == b1 & !(0xffu8 >> ((24 - s) as u8))) by (bit_vector)
            requires
                x == ((a0 as u32) << 24u32) | ((a1 as u32) << 16u32) | ((a2 as u32) << 8u32) | (a3 as u32),
                y == ((b0 as u32) << 24u32) | ((b1 as u32) << 16u32) | ((b2 as u32) << 8u32) | (b3 as u32),
                x >> s == y >> s,
                8 <= s < 32,
        ;
        assert(8 < s < 16 ==> a2 & !(0xffu8 >> ((16 - s) as u8)) == b2 & !(0xffu8 >> ((16 - s) as u8))) by (bit_vector)
            requires
                x == ((a0 as u32) << 24u32) | ((a1 as u32) << 16u32) | ((a2 as u32) << 8u32) | (a3 as u32),
                y == ((b0 as u32) << 24u32) | ((b1 as u32) << 16u32) | ((b2 as u32) << 8u32) | (b3 as u32),
                x >> s == y >> s,
                8 <= s < 32,
        ;
    }
}

pub proof fn lemma_head32_bits(k: Seq<u8>)
    ensures
        head32(k) < 0x1_0000_0000,
        ({
            let a0 = byte_or_zero(k, 0) as u8;
            let a1 = byte_or_zero(k, 1) as u8;
            let a2 = byte_or_zero(k, 2) as u8;
            let a3 = byte_or_zero(k, 3) as u8;
            head32(k) == (((a0 as u32) << 24u32) | ((a1 as u32) << 16u32) | ((a2 as u32) << 8u32) | (a3 as u32))
        }),
{
    let a0 = byte_or_zero(k, 0) as u8;
    let a1 = byte_or_zero(k, 1) as u8;
    let a2 = byte_or_zero(k, 2) as u8;
    let a3 = byte_or_zero(k, 3) as u8;
    assert(byte_or_zero(k, 0) == a0 && byte_or_zero(k, 1) == a1 && byte_or_zero(k, 2) == a2 && byte_or_zero(k, 3) == a3);
    assert((a0 as u32) * 0x1000000 + (a1 as u32) * 0x10000 + (a2 as u32) * 0x100 + (a3 as u32)
        == (((a0 as u32) << 24u32) | ((a1 as u32) << 16u32) | ((a2 as u32) << 8u32) | (a3 as u32))) by (bit_vector);
}

/// Keys in the same bucket share the bits that address it.
pub proof fn lemma_same_bucket(d: nat, a: Seq<u8>, b: Seq<u8>)
    requires
        d <= 24,
        a.len() == b.len(),
        d / 8 < a.len(),
        bucket_of(d, a) == bucket_of(d, b),
    ensures
        same_top_bits(a, b, d),
{
    if d > 0 {
        let s = (32 - d) as u32;
        lemma_head32_bits(a);
        lemma_head32_bits(b);
        let x = head32(a) as u32;
        let y = head32(b) as u32;
        vstd::bits::lemma_u32_shr_is_div(x, s);
        vstd::bits::lemma_u32_shr_is_div(y, s);
        lemma_shift_bytes(
            byte_or_zero(a, 0) as u8,
            byte_or_zero(a, 1) as u8,
            byte_or_zero(a, 2) as u8,
            byte_or_zero(a, 3) as u8,
            byte_or_zero(b, 0) as u8,
            byte_or_zero(b, 1) as u8,
            byte_or_zero(b, 2) as u8,
            byte_or_zero(b, 3) as u8,
            s,
        );
        assert forall|i: int| 0 <= i < d / 8 implies a[i] == b[i] by {
            assert(byte_or_zero(a, i) == a[i]);
            assert(byte_or_zero(b, i) == b[i]);
        }
        if d % 8 != 0 {
            let q = (d / 8) as int;
            assert(byte_or_zero(a, q) == a[q]);
            assert(byte_or_zero(b, q) == b[q]);
        }
    }
}

pub proof fn lemma_byte_parts(x: u8, y: u8, r: u8)
    requires
        r < 8,
    ensures
        keep_high(x, r) == keep_high(y, r) && keep_low(x, r) == keep_low(y, r) ==> x == y,
        keep_high(x, r) == keep_high(y, r) && x < y ==> keep_low(x, r) < keep_low(y, r),
        keep_low(keep_low(x, r), r) == keep_low(x, r),
        r == 0 ==> keep_low(x, r) == x,
        r == 0 ==> keep_high(x, r) == keep_high(y, r),
{
    assert(r == 0 ==> keep_high(x, r) == keep_high(y, r)) by (bit_vector);
    assert(keep_high(x, r) == keep_high(y, r) && keep_low(x, r) == keep_low(y, r) ==> x == y) by (bit_vector)
        requires
            r < 8,
    ;
    assert(keep_high(x, r) == keep_high(y, r) && x < y ==> keep_low(x, r) < keep_low(y, r)) by (bit_vector)
        requires
            r < 8,
    ;
    assert(keep_low(keep_low(x, r), r) == keep_low(x, r)) by (bit_vector);
    assert(r == 0 ==> keep_low(x, r) == x) by (bit_vector);
}

/// Masking a stored key again changes nothing.
pub proof fn lemma_mask_stored(k: Seq<u8>, d: nat)
    requires
        d / 8 < k.len(),
        d % 8 < 8,
    ensures
        masked_entry_key(strip_key(k, d), d) == strip_key(k, d),
{
    let s = strip_key(k, d);
    lemma_byte_parts(k[(d / 8) as int], k[(d / 8) as int], (d % 8) as u8);
    assert(masked_entry_key(s, d) =~= s);
}

/// Between keys that share their first `d` bits, stored forms are equal
/// only for equal keys, and keep the keys' order.
pub proof fn lemma_strip_order(d: nat, a: Seq<u8>, b: Seq<u8>)
    requires
        a.len() == b.len(),
        d / 8 < a.len(),
        same_top_bits(a, b, d),
    ensures
        strip_key(a, d) == strip_key(b, d) ==> a == b,
        lex_lt(a, b) ==> lex_lt(strip_key(a, d), strip_key(b, d)),
{
    let q = (d / 8) as int;
    let r = (d % 8) as u8;
    lemma_byte_parts(a[q], b[q], r);
    let sa = strip_key(a, d);
    let sb = strip_key(b, d);
    if sa == sb {
        assert(sa[0] == sb[0]);
        assert forall|i: int| 0 <= i < a.len() implies a[i] == b[i] by {
            if i > q {
                assert(sa[i - q] == sb[i - q]);
            }
        }
        assert(a =~= b);
    }
    if lex_lt(a, b) {
        let i = choose|i: int| lt_at(a, b, i);
        assert(i >= q) by {
            if i < q {
                assert(a[i] == b[i]);
            }
        }
        if i == q {
            assert(lt_at(sa, sb, 0));
        } else {
            assert(a[q] == b[q]);
            assert(lt_at(sa, sb, i - q));
        }
    }
}

} // verus!
