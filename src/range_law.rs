//! What a prefix walk over a finished index yields.
use vstd::prelude::*;
use vstd::arithmetic::power2::pow2;
use crate::bits::{keep_high, keep_low, prefix_bytes, suffix_bytes, unsplit_bytes, lemma_unsplit_split};
use crate::builder::Builder;
use crate::bytes::{lex_lt, lt_at};
use crate::depth::{bucket_bytes, bucket_of, be32_bytes, byte_or_zero, head32};
use crate::format::strip_key;
use crate::reader::{Index, rebuilt_key, scan_range};
use crate::read_at::{FileLen, ReadAt};
use crate::round_trip::{lemma_bucket_bound, lemma_final_layout, same_as_built};
use crate::order::same_top_bits;
use crate::depth::Depth;

verus! {

proof fn lemma_cleared_bytes(a0: u8, a1: u8, a2: u8, a3: u8, s: u32)
    requires
        8 <= s < 32,
    ensures
        ({
            let x = ((a0 as u32) << 24u32) | ((a1 as u32) << 16u32) | ((a2 as u32) << 8u32) | (a3 as u32);
            let v = (x >> s) << s;
            &&& s <= 24 ==> v / 0x1000000 % 0x100 == a0
            &&& s <= 16 ==> v / 0x10000 % 0x100 == a1
            &&& s <= 8 ==> v / 0x100 % 0x100 == a2
            &&& 24 < s ==> keep_high((v / 0x1000000 % 0x100) as u8, (32 - s) as u8) == keep_high(a0, (32 - s) as u8)
            &&& 16 < s < 24 ==> keep_high((v / 0x10000 % 0x100) as u8, (24 - s) as u8) == keep_high(a1, (24 - s) as u8)
            &&& 8 < s < 16 ==> keep_high((v / 0x100 % 0x100) as u8, (16 - s) as u8) == keep_high(a2, (16 - s) as u8)
        }),
{
    let x = ((a0 as u32) << 24u32) | ((a1 as u32) << 16u32) | ((a2 as u32) << 8u32) | (a3 as u32);
    let v = (x >> s) << s;
    assert(s <= 24 ==> v / 0x1000000 % 0x100 == a0) by (bit_vector)
        requires
            x == ((a0 as u32) << 24u32) | ((a1 as u32) << 16u32) | ((a2 as u32) << 8u32) | (a3 as u32),
            v == (x >> s) << s,
            8 <= s < 32,
    ;
    assert(s <= 16 ==> v / 0x10000 % 0x100 == a1) by (bit_vector)
        requires
            x == ((a0 as u32) << 24u32) | ((a1 as u32) << 16u32) | ((a2 as u32) << 8u32) | (a3 as u32),
            v == (x >> s) << s,
            8 <= s < 32,
    ;
    assert(s <= 8 ==> v / 0x100 % 0x100 == a2) by (bit_vector)
        requires
            x == ((a0 as u32) << 24u32) | ((a1 as u32) << 16u32) | ((a2 as u32) << 8u32) | (a3 as u32),
            v == (x >> s) << s,
            8 <= s < 32,
    ;
    assert(24 < s ==> keep_high((v / 0x1000000 % 0x100) as u8, (32 - s) as u8) == keep_high(a0, (32 - s) as u8)) by (bit_vector)
        requires
            x == ((a0 as u32) << 24u32) | ((a1 as u32) << 16u32) | ((a2 as u32) << 8u32) | (a3 as u32),
            v == (x >> s) << s,
            8 <= s < 32,
    ;
    assert(16 < s < 24 ==> keep_high((v / 0x10000 % 0x100) as u8, (24 - s) as u8) == keep_high(a1, (24 - s) as u8)) by (bit_vector)
        requires
            x == ((a0 as u32) << 24u32) | ((a1 as u32) << 16u32) | ((a2 as u32) << 8u32) | (a3 as u32),
            v == (x >> s) << s,
            8 <= s < 32,
    ;
    assert(8 < s < 16 ==> keep_high((v / 0x100 % 0x100) as u8, (16 - s) as u8) == keep_high(a2, (16 - s) as u8)) by (bit_vector)
        requires
            x == ((a0 as u32) << 24u32) | ((a1 as u32) << 16u32) | ((a2 as u32) << 8u32) | (a3 as u32),
            v == (x >> s) << s,
            8 <= s < 32,
    ;
}

/// A key rebuilt from its bucket and its stored form is the key itself.
pub proof fn lemma_rebuilt(d: nat, k: Seq<u8>)
    requires
        d <= 24,
        d / 8 < k.len(),
    ensures
        rebuilt_key(d, k.len(), bucket_of(d, k), strip_key(k, d)) == k,
{
    let q = (d / 8) as int;
    let r = (d % 8) as u8;
    let len = k.len();
    let b = bucket_of(d, k);
    let bb = bucket_bytes(d, b);
    crate::order::lemma_head32_bits(k);
    vstd::arithmetic::power2::lemma2_to64();
    if d == 0 {
        assert(b == 0) by {
            vstd::arithmetic::div_mod::lemma_basic_div(head32(k) as int, pow2(32) as int);
        }
    } else {
        let s = (32 - d) as u32;
        let x = head32(k) as u32;
        vstd::bits::lemma_u32_shr_is_div(x, s);
        vstd::arithmetic::power2::lemma_pow2_pos(s as nat);
        vstd::arithmetic::div_mod::lemma_fundamental_div_mod(x as int, pow2(s as nat) as int);
        vstd::arithmetic::div_mod::lemma_mod_pos_bound(x as int, pow2(s as nat) as int);
        assert((x >> s) * pow2(s as nat) <= x) by (nonlinear_arith)
            requires
                x as int == pow2(s as nat) * (x as int / pow2(s as nat) as int) + x as int % pow2(s as nat) as int,
                x as int % pow2(s as nat) as int >= 0,
                (x >> s) == x as nat / pow2(s as nat),
        ;
        vstd::bits::lemma_u32_shl_is_mul(x >> s, s);
        lemma_cleared_bytes(
            byte_or_zero(k, 0) as u8,
            byte_or_zero(k, 1) as u8,
            byte_or_zero(k, 2) as u8,
            byte_or_zero(k, 3) as u8,
            s,
        );
    }
    let pb = prefix_bytes(bb, len, d);
    let pk = prefix_bytes(k, len, d);
    assert forall|i: int| 0 <= i < len implies #[trigger] pb[i] == pk[i] by {
        if i < q {
            assert(byte_or_zero(k, i) == k[i]);
        } else if i == q && d % 8 != 0 {
            assert(byte_or_zero(k, i) == k[i]);
        }
    }
    assert(pb =~= pk);
    let z = Seq::new(d / 8, |i: int| 0u8) + strip_key(k, d);
    let sz = suffix_bytes(z, d);
    let sk = suffix_bytes(k, d);
    crate::order::lemma_byte_parts(k[q], k[q], r);
    assert forall|i: int| 0 <= i < len implies #[trigger] sz[i] == sk[i] by {
        if i == q {
            assert(z[i] == keep_low(k[q], r));
        } else if i > q {
            assert(z[i] == k[i]);
        }
    }
    assert(sz =~= sk);
    lemma_unsplit_split(k, d);
}

/// Entries `lo` to `hi` a builder added, keys with payloads.
pub open spec fn built_pairs(bld: Builder, lo: int, hi: int) -> Seq<(Seq<u8>, Seq<u8>)> {
    Seq::new((hi - lo) as nat, |i: int| (bld.keys@[lo + i], bld.payloads@[lo + i]))
}

proof fn lemma_starts_ordered(bld: Builder, b: int)
    requires
        bld.wf(),
        0 <= b < pow2(bld.depth@),
    ensures
        bld.final_start(b) <= bld.final_start(b + 1),
{
    lemma_final_layout(bld, b);
    lemma_final_layout(bld, b + 1);
    let i0 = bld.final_start(b) as int;
    let i1 = bld.final_start(b + 1) as int;
    if i1 < i0 {
        assert(bucket_of(bld.depth@, bld.keys@[i1]) < b);
        assert(bucket_of(bld.depth@, bld.keys@[i1]) >= b + 1);
    }
}

proof fn lemma_bucket_entries<R: ReadAt + FileLen>(bld: Builder, ix: Index<R>, b: int)
    requires
        same_as_built(bld, ix),
        0 <= b < pow2(bld.depth@),
    ensures
        ix.bucket_entries(b) == built_pairs(bld, bld.final_start(b) as int, bld.final_start(b + 1) as int),
{
    let d = bld.depth@;
    lemma_final_layout(bld, b);
    lemma_final_layout(bld, b + 1);
    lemma_starts_ordered(bld, b);
    let i0 = bld.final_start(b) as int;
    let i1 = bld.final_start(b + 1) as int;
    let n = bld.keys@.len() as int;
    let e = bld.spec_entry_size() as int;
    let h = bld.header_len as int;
    let ks = bld.spec_stored_key_size() as int;
    let c = ix.database.content();
    let w = bld.written@;
    let fb = ix.table.file_offsets@[b] as int;
    assert(fb == h + i0 * e);
    assert(ix.table.file_offsets@[b + 1] - fb == (i1 - i0) * e) by (nonlinear_arith)
        requires
            fb == h + i0 * e,
            ix.table.file_offsets@[b + 1] == h + i1 * e,
    ;
    vstd::arithmetic::div_mod::lemma_div_by_multiple(i1 - i0, e);
    assert(ix.entry_size() == e);
    assert(ix.stored_key_size() == ks);
    let be = ix.bucket_entries(b);
    let bp = built_pairs(bld, i0, i1);
    assert(be.len() == bp.len());
    assert forall|i: int| 0 <= i < be.len() implies #[trigger] be[i] == bp[i] by {
        let j = i0 + i;
        assert(fb + i * e == h + j * e) by (nonlinear_arith)
            requires
                fb == h + i0 * e,
                j == i0 + i,
        ;
        assert(fb + (i + 1) * e == h + j * e + e) by (nonlinear_arith)
            requires
                fb + i * e == h + j * e,
        ;
        assert(j * e + e <= n * e) by (nonlinear_arith)
            requires
                j < n,
                e > 0,
        ;
        assert(j * e >= 0) by (nonlinear_arith)
            requires
                j >= 0,
                e > 0,
        ;
        assert(c.subrange(h + j * e, h + j * e + ks) =~= w.subrange(h + j * e, h + j * e + ks));
        assert(c.subrange(h + j * e + ks, h + j * e + e) =~= w.subrange(h + j * e + ks, h + j * e + e));
        assert(w.subrange(h + j * e, h + j * e + ks) == strip_key(bld.keys@[j], d));
        assert(w.subrange(h + j * e + ks, h + j * e + e) == bld.payloads@[j]);
        assert(bucket_of(d, bld.keys@[j]) == b);
        lemma_rebuilt(d, bld.keys@[j]);
    }
    assert(be =~= bp);
}

/// In a finished index, the entries of a run of buckets are the entries
/// added with keys in those buckets, in the order they were added.
pub proof fn lemma_range_entries<R: ReadAt + FileLen>(bld: Builder, ix: Index<R>, first: int, end: int)
    requires
        same_as_built(bld, ix),
        0 <= first <= end <= pow2(bld.depth@),
    ensures
        ix.range_entries(first, end) == built_pairs(bld, bld.final_start(first) as int, bld.final_start(end) as int),
    decreases end - first,
{
    if first == end {
        assert(built_pairs(bld, bld.final_start(first) as int, bld.final_start(end) as int) =~= Seq::empty());
    } else {
        lemma_range_entries(bld, ix, first + 1, end);
        lemma_bucket_entries(bld, ix, first);
        lemma_starts_ordered(bld, first);
        lemma_starts_below(bld, first + 1, end);
        let a = bld.final_start(first) as int;
        let m = bld.final_start(first + 1) as int;
        let z = bld.final_start(end) as int;
        assert(built_pairs(bld, a, m) + built_pairs(bld, m, z) =~= built_pairs(bld, a, z));
    }
}

proof fn lemma_starts_below(bld: Builder, b: int, end: int)
    requires
        bld.wf(),
        0 <= b <= end <= pow2(bld.depth@),
    ensures
        bld.final_start(b) <= bld.final_start(end),
    decreases end - b,
{
    if b < end {
        lemma_starts_ordered(bld, b);
        lemma_starts_below(bld, b + 1, end);
    }
}

/// Entries of `s` whose keys start with the `key_bits` bits of `query`, in order.
pub open spec fn matching(s: Seq<(Seq<u8>, Seq<u8>)>, query: Seq<u8>, key_bits: nat) -> Seq<(Seq<u8>, Seq<u8>)>
    decreases s.len(),
{
    if s.len() == 0 {
        Seq::empty()
    } else {
        (if prefix_bytes(s[0].0, s[0].0.len(), key_bits) == query {
            seq![s[0]]
        } else {
            Seq::empty()
        }) + matching(s.drop_first(), query, key_bits)
    }
}

proof fn lemma_high_le(x: u8, y: u8, r: u8)
    requires
        r < 8,
        x < y,
    ensures
        keep_high(x, r) <= keep_high(y, r),
{
    assert(keep_high(x, r) <= keep_high(y, r)) by (bit_vector)
        requires
            r < 8,
            x < y,
    ;
}

/// Prefixes of keys keep the keys' order, or become equal.
pub proof fn lemma_prefix_monotone(a: Seq<u8>, b: Seq<u8>, kb: nat)
    requires
        a.len() == b.len(),
        kb <= a.len() * 8,
        lex_lt(a, b),
    ensures
        prefix_bytes(a, a.len(), kb) == prefix_bytes(b, b.len(), kb) || lex_lt(
            prefix_bytes(a, a.len(), kb),
            prefix_bytes(b, b.len(), kb),
        ),
{
    let pa = prefix_bytes(a, a.len(), kb);
    let pb = prefix_bytes(b, b.len(), kb);
    let i = choose|i: int| lt_at(a, b, i);
    let q = (kb / 8) as int;
    if i < q {
        assert(lt_at(pa, pb, i));
    } else if i == q && kb % 8 != 0 {
        lemma_high_le(a[i], b[i], (kb % 8) as u8);
        if keep_high(a[i], (kb % 8) as u8) < keep_high(b[i], (kb % 8) as u8) {
            assert(lt_at(pa, pb, i));
        } else {
            assert(pa =~= pb);
        }
    } else {
        assert forall|j: int| 0 <= j < pa.len() implies pa[j] == pb[j] by {
            if j < q {
                assert(a[j] == b[j]);
            } else if j == q && kb % 8 != 0 {
                assert(a[j] == b[j]);
            }
        }
        assert(pa =~= pb);
    }
}

proof fn lemma_matching_none(s: Seq<(Seq<u8>, Seq<u8>)>, query: Seq<u8>, kb: nat)
    requires
        forall|i: int| 0 <= i < s.len() ==> prefix_bytes((#[trigger] s[i]).0, s[i].0.len(), kb) != query,
    ensures
        matching(s, query, kb) == Seq::<(Seq<u8>, Seq<u8>)>::empty(),
    decreases s.len(),
{
    if s.len() > 0 {
        assert(prefix_bytes(s[0].0, s[0].0.len(), kb) != query);
        assert forall|i: int| 0 <= i < s.drop_first().len() implies prefix_bytes((#[trigger] s.drop_first()[i]).0, s.drop_first()[i].0.len(), kb) != query by {
            assert(s.drop_first()[i] == s[i + 1]);
        }
        lemma_matching_none(s.drop_first(), query, kb);
        assert(matching(s, query, kb) =~= Seq::<(Seq<u8>, Seq<u8>)>::empty());
    }
}

/// Over entries in ascending key order, a range scan yields exactly the
/// matching entries.
proof fn lemma_scan_sorted(bld: Builder, lo: int, hi: int, query: Seq<u8>, kb: nat)
    requires
        bld.wf(),
        0 <= lo <= hi <= bld.keys@.len(),
        kb <= bld.key_bytes * 8,
        query.len() == bld.key_bytes,
    ensures
        scan_range(built_pairs(bld, lo, hi), query, kb) == matching(built_pairs(bld, lo, hi), query, kb),
    decreases hi - lo,
{
    let s = built_pairs(bld, lo, hi);
    if lo < hi {
        assert(s.drop_first() =~= built_pairs(bld, lo + 1, hi));
        lemma_scan_sorted(bld, lo + 1, hi, query, kb);
        let k0 = bld.keys@[lo];
        let pk = prefix_bytes(k0, k0.len(), kb);
        assert(s[0] == (k0, bld.payloads@[lo]));
        if pk != query && !lex_lt(pk, query) {
            crate::bytes::lemma_lex_total(pk, query);
            assert forall|i: int| 0 <= i < s.drop_first().len() implies prefix_bytes(
                (#[trigger] s.drop_first()[i]).0,
                s.drop_first()[i].0.len(),
                kb,
            ) != query by {
                let ki = bld.keys@[lo + 1 + i];
                assert(s.drop_first()[i].0 == ki);
                assert(lex_lt(k0, ki));
                lemma_prefix_monotone(k0, ki, kb);
                let pi = prefix_bytes(ki, ki.len(), kb);
                if pi != pk {
                    crate::bytes::lemma_lex_trans(query, pk, pi);
                }
                crate::bytes::lemma_lex_asym(query, pi);
            }
            lemma_matching_none(s.drop_first(), query, kb);
        }
    }
}

proof fn lemma_top_bits_shift(a0: u8, a1: u8, a2: u8, a3: u8, b0: u8, b1: u8, b2: u8, b3: u8, s: u32)
    requires
        8 <= s < 32,
        s <= 24 ==> a0 == b0,
        s <= 16 ==> a1 == b1,
        s <= 8 ==> a2 == b2,
        24 < s ==> keep_high(a0, (32 - s) as u8) == keep_high(b0, (32 - s) as u8),
        16 < s < 24 ==> keep_high(a1, (24 - s) as u8) == keep_high(b1, (24 - s) as u8),
        8 < s < 16 ==> keep_high(a2, (16 - s) as u8) == keep_high(b2, (16 - s) as u8),
    ensures
        ((((a0 as u32) << 24u32) | ((a1 as u32) << 16u32) | ((a2 as u32) << 8u32) | (a3 as u32)) >> s) == ((((b0 as u32)
            << 24u32) | ((b1 as u32) << 16u32) | ((b2 as u32) << 8u32) | (b3 as u32)) >> s),
{
    assert(((((a0 as u32) << 24u32) | ((a1 as u32) << 16u32) | ((a2 as u32) << 8u32) | (a3 as u32)) >> s) == ((((b0 as u32)
        << 24u32) | ((b1 as u32) << 16u32) | ((b2 as u32) << 8u32) | (b3 as u32)) >> s)) by (bit_vector)
        requires
            8 <= s < 32,
            s <= 24 ==> a0 == b0,
            s <= 16 ==> a1 == b1,
            s <= 8 ==> a2 == b2,
            24 < s ==> keep_high(a0, (32 - s) as u8) == keep_high(b0, (32 - s) as u8),
            16 < s < 24 ==> keep_high(a1, (24 - s) as u8) == keep_high(b1, (24 - s) as u8),
            8 < s < 16 ==> keep_high(a2, (16 - s) as u8) == keep_high(b2, (16 - s) as u8),
    ;
}

/// Keys that share their first `m` bits agree on the first `m` bits of
/// their first four bytes.
proof fn lemma_top_bits_head(a: Seq<u8>, b: Seq<u8>, m: nat)
    requires
        1 <= m <= 24,
        a.len() == b.len(),
        m / 8 < a.len(),
        same_top_bits(a, b, m),
    ensures
        head32(a) / pow2((32 - m) as nat) == head32(b) / pow2((32 - m) as nat),
{
    let s = (32 - m) as u32;
    crate::order::lemma_head32_bits(a);
    crate::order::lemma_head32_bits(b);
    let q = (m / 8) as int;
    assert forall|i: int| 0 <= i < q implies byte_or_zero(a, i) == byte_or_zero(b, i) by {}
    if m % 8 != 0 {
        assert(byte_or_zero(a, q) == a[q] && byte_or_zero(b, q) == b[q]);
    }
    lemma_top_bits_shift(
        byte_or_zero(a, 0) as u8,
        byte_or_zero(a, 1) as u8,
        byte_or_zero(a, 2) as u8,
        byte_or_zero(a, 3) as u8,
        byte_or_zero(b, 0) as u8,
        byte_or_zero(b, 1) as u8,
        byte_or_zero(b, 2) as u8,
        byte_or_zero(b, 3) as u8,
        s,
    );
    vstd::bits::lemma_u32_shr_is_div(head32(a) as u32, s);
    vstd::bits::lemma_u32_shr_is_div(head32(b) as u32, s);
}

proof fn lemma_high_narrow(x: u8, y: u8, r1: u8, r2: u8)
    requires
        r2 <= r1 < 8,
        keep_high(x, r1) == keep_high(y, r1),
    ensures
        keep_high(x, r2) == keep_high(y, r2),
{
    assert(keep_high(x, r2) == keep_high(y, r2)) by (bit_vector)
        requires
            r2 <= r1 < 8,
            keep_high(x, r1) == keep_high(y, r1),
    ;
}

/// Keys with equal `kb`-bit prefixes share their first `t` bits, for `t <= kb`.
proof fn lemma_prefix_top_bits(a: Seq<u8>, b: Seq<u8>, kb: nat, t: nat)
    requires
        a.len() == b.len(),
        t <= kb <= a.len() * 8,
        t / 8 < a.len(),
        prefix_bytes(a, a.len(), kb) == prefix_bytes(b, b.len(), kb),
    ensures
        same_top_bits(a, b, t),
{
    let pa = prefix_bytes(a, a.len(), kb);
    let pb = prefix_bytes(b, b.len(), kb);
    assert forall|i: int| 0 <= i < t / 8 implies a[i] == b[i] by {
        assert(pa[i] == pb[i]);
    }
    if t % 8 != 0 {
        let q = (t / 8) as int;
        assert(pa[q] == pb[q]);
        if q < kb / 8 {
            assert(a[q] == b[q]);
        } else {
            lemma_high_narrow(a[q], b[q], (kb % 8) as u8, (t % 8) as u8);
        }
    }
}

/// A key whose `kb`-bit prefix equals that of `key` falls in the run of
/// buckets that a walk for `key` visits.
pub proof fn lemma_prefix_in_range(dep: Depth, k: Seq<u8>, key: Seq<u8>, kb: nat)
    requires
        dep@ <= 24,
        k.len() == key.len(),
        dep@ / 8 < k.len(),
        kb <= k.len() * 8,
        prefix_bytes(k, k.len(), kb) == prefix_bytes(key, key.len(), kb),
    ensures
        dep.prefix_range_spec(key, kb).first <= bucket_of(dep@, k) < dep.prefix_range_spec(key, kb).end,
        dep.prefix_range_spec(key, kb).first <= dep.prefix_range_spec(key, kb).end <= pow2(dep@),
{
    let d = dep@;
    let bk = bucket_of(d, k);
    let bq = bucket_of(d, key);
    lemma_bucket_bound(d, k);
    lemma_bucket_bound(d, key);
    vstd::arithmetic::power2::lemma2_to64();
    if kb >= d {
        if d > 0 {
            lemma_prefix_top_bits(k, key, kb, d);
            lemma_top_bits_head(k, key, d);
        } else {
            crate::order::lemma_head32_bits(k);
            crate::order::lemma_head32_bits(key);
            vstd::arithmetic::div_mod::lemma_basic_div(head32(k) as int, pow2(32) as int);
            vstd::arithmetic::div_mod::lemma_basic_div(head32(key) as int, pow2(32) as int);
        }
        assert(bk == bq);
        if d < 24 {
            vstd::arithmetic::power2::lemma_pow2_strictly_increases(d, 24);
        }
    } else {
        let m = pow2((d - kb) as nat);
        vstd::arithmetic::power2::lemma_pow2_pos((d - kb) as nat);
        vstd::arithmetic::power2::lemma_pow2_adds(kb, (d - kb) as nat);
        assert(pow2(kb) * m == pow2(d));
        if kb == 0 {
            assert(pow2(0) == 1);
            vstd::arithmetic::div_mod::lemma_basic_div(bq as int, m as int);
            vstd::arithmetic::div_mod::lemma_basic_div(bk as int, m as int);
        } else {
            lemma_prefix_top_bits(k, key, kb, kb);
            lemma_top_bits_head(k, key, kb);
            vstd::arithmetic::power2::lemma_pow2_pos((32 - d) as nat);
            vstd::arithmetic::power2::lemma_pow2_adds((32 - d) as nat, (d - kb) as nat);
            vstd::arithmetic::div_mod::lemma_div_denominator(head32(k) as int, pow2((32 - d) as nat) as int, m as int);
            vstd::arithmetic::div_mod::lemma_div_denominator(head32(key) as int, pow2((32 - d) as nat) as int, m as int);
        }
        assert(bk / m == bq / m);
        vstd::arithmetic::div_mod::lemma_fundamental_div_mod(bk as int, m as int);
        vstd::arithmetic::div_mod::lemma_mod_pos_bound(bk as int, m as int);
        assert(m * pow2(kb) == pow2(kb) * m) by (nonlinear_arith);
        vstd::arithmetic::div_mod::lemma_multiply_divide_lt(bq as int, m as int, pow2(kb) as int);
        vstd::arithmetic::mul::lemma_mul_inequality(bq as int / m as int + 1, pow2(kb) as int, m as int);
        assert(bq / m * m + m == (bq / m + 1) * m) by (nonlinear_arith);
        assert(m * (bk / m) == bk / m * m) by (nonlinear_arith);
        assert(m * pow2(kb) == pow2(kb) * m) by (nonlinear_arith);
        if d < 24 {
            vstd::arithmetic::power2::lemma_pow2_strictly_increases(d, 24);
        }
    }
}

proof fn lemma_matching_concat(s1: Seq<(Seq<u8>, Seq<u8>)>, s2: Seq<(Seq<u8>, Seq<u8>)>, query: Seq<u8>, kb: nat)
    ensures
        matching(s1 + s2, query, kb) == matching(s1, query, kb) + matching(s2, query, kb),
    decreases s1.len(),
{
    if s1.len() == 0 {
        assert(s1 + s2 =~= s2);
        assert(matching(s1, query, kb) + matching(s2, query, kb) =~= matching(s2, query, kb));
    } else {
        lemma_matching_concat(s1.drop_first(), s2, query, kb);
        assert((s1 + s2).drop_first() =~= s1.drop_first() + s2);
        assert((s1 + s2)[0] == s1[0]);
        let h1 = if prefix_bytes(s1[0].0, s1[0].0.len(), kb) == query {
            seq![s1[0]]
        } else {
            Seq::<(Seq<u8>, Seq<u8>)>::empty()
        };
        assert(h1 + (matching(s1.drop_first(), query, kb) + matching(s2, query, kb)) =~= (h1 + matching(
            s1.drop_first(),
            query,
            kb,
        )) + matching(s2, query, kb));
    }
}

/// Prefix enumeration: in an index whose table and entries are those a
/// builder wrote, walking the buckets of the first `kb` bits of `key`
/// yields exactly the entries added whose keys start with those bits, in
/// the order they were added, which is ascending key order.
pub proof fn lemma_prefix_enumeration<R: ReadAt + FileLen>(bld: Builder, ix: Index<R>, key: Seq<u8>, kb: nat)
    requires
        same_as_built(bld, ix),
        key.len() == bld.key_bytes,
        kb <= key.len() * 8,
    ensures
        ({
            let r = ix.table.depth.prefix_range_spec(key, kb);
            let query = prefix_bytes(key, key.len(), kb);
            scan_range(ix.range_entries(r.first as int, r.end as int), query, kb) == matching(
                built_pairs(bld, 0, bld.keys@.len() as int),
                query,
                kb,
            )
        }),
{
    let dep = ix.table.depth;
    let d = dep@;
    let r = dep.prefix_range_spec(key, kb);
    let query = prefix_bytes(key, key.len(), kb);
    let n = bld.keys@.len() as int;
    lemma_prefix_in_range(dep, key, key, kb);
    let first = r.first as int;
    let end = r.end as int;
    lemma_range_entries(bld, ix, first, end);
    lemma_final_layout(bld, first);
    lemma_final_layout(bld, end);
    lemma_starts_below(bld, first, end);
    let lo = bld.final_start(first) as int;
    let hi = bld.final_start(end) as int;
    lemma_scan_sorted(bld, lo, hi, query, kb);
    let all = built_pairs(bld, 0, n);
    assert(all =~= built_pairs(bld, 0, lo) + built_pairs(bld, lo, hi) + built_pairs(bld, hi, n));
    lemma_matching_concat(built_pairs(bld, 0, lo) + built_pairs(bld, lo, hi), built_pairs(bld, hi, n), query, kb);
    lemma_matching_concat(built_pairs(bld, 0, lo), built_pairs(bld, lo, hi), query, kb);
    assert forall|i: int| 0 <= i < built_pairs(bld, 0, lo).len() implies prefix_bytes(
        (#[trigger] built_pairs(bld, 0, lo)[i]).0,
        built_pairs(bld, 0, lo)[i].0.len(),
        kb,
    ) != query by {
        let k = bld.keys@[i];
        assert(bucket_of(d, k) < first);
        if prefix_bytes(k, k.len(), kb) == query {
            lemma_prefix_in_range(dep, k, key, kb);
        }
    }
    lemma_matching_none(built_pairs(bld, 0, lo), query, kb);
    assert forall|i: int| 0 <= i < built_pairs(bld, hi, n).len() implies prefix_bytes(
        (#[trigger] built_pairs(bld, hi, n)[i]).0,
        built_pairs(bld, hi, n)[i].0.len(),
        kb,
    ) != query by {
        let k = bld.keys@[hi + i];
        assert(bucket_of(d, k) >= end);
        if prefix_bytes(k, k.len(), kb) == query {
            lemma_prefix_in_range(dep, k, key, kb);
        }
    }
    lemma_matching_none(built_pairs(bld, hi, n), query, kb);
    assert(matching(all, query, kb) =~= matching(built_pairs(bld, lo, hi), query, kb));
}

} // verus!
