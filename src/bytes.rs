//! Byte strings: lexicographic order and big-endian integers.
use vstd::prelude::*;
use std::cmp::Ordering;

verus! {

/// `a` and `b` agree before position `i` and `a` is smaller at `i`.
pub open spec fn lt_at(a: Seq<u8>, b: Seq<u8>, i: int) -> bool {
    &&& 0 <= i < a.len()
    &&& i < b.len()
    &&& forall|j: int| 0 <= j < i ==> a[j] == b[j]
    &&& a[i] < b[i]
}

/// Lexicographic order on byte strings of equal length.
pub open spec fn lex_lt(a: Seq<u8>, b: Seq<u8>) -> bool {
    exists|i: int| #[trigger] lt_at(a, b, i)
}

/// Lexicographic order is asymmetric and irreflexive.
pub proof fn lemma_lex_asym(a: Seq<u8>, b: Seq<u8>)
    ensures
        lex_lt(a, b) ==> !lex_lt(b, a),
        lex_lt(a, b) ==> a != b,
{
    if lex_lt(a, b) {
        let i = choose|i: int| lt_at(a, b, i);
        if lex_lt(b, a) {
            let j = choose|j: int| lt_at(b, a, j);
            if i < j {
                assert(b[i] == a[i]);
            } else if j < i {
                assert(a[j] == b[j]);
            }
        }
    }
}

/// Lexicographic order is transitive.
pub proof fn lemma_lex_trans(a: Seq<u8>, b: Seq<u8>, c: Seq<u8>)
    requires
        lex_lt(a, b),
        lex_lt(b, c),
    ensures
        lex_lt(a, c),
{
    let i = choose|i: int| lt_at(a, b, i);
    let j = choose|j: int| lt_at(b, c, j);
    if i <= j {
        assert(lt_at(a, c, i));
    } else {
        assert(lt_at(a, c, j));
    }
}

/// Two byte strings of equal length compare in exactly one way.
pub proof fn lemma_lex_total(a: Seq<u8>, b: Seq<u8>)
    requires
        a.len() == b.len(),
    ensures
        a == b || lex_lt(a, b) || lex_lt(b, a),
{
    if a != b {
        assert(!(a =~= b));
        let k = choose|k: int| 0 <= k < a.len() && a[k] != b[k];
        lemma_first_diff(a, b, k);
    }
}

proof fn lemma_first_diff(a: Seq<u8>, b: Seq<u8>, k: int)
    requires
        a.len() == b.len(),
        0 <= k < a.len(),
        a[k] != b[k],
    ensures
        lex_lt(a, b) || lex_lt(b, a),
    decreases k,
{
    if exists|j: int| 0 <= j < k && a[j] != b[j] {
        let j = choose|j: int| 0 <= j < k && a[j] != b[j];
        lemma_first_diff(a, b, j);
    } else if a[k] < b[k] {
        assert(lt_at(a, b, k));
    } else {
        assert(lt_at(b, a, k));
    }
}

/// Compare two byte strings of equal length lexicographically.
pub fn compare_bytes(a: &[u8], b: &[u8]) -> (r: Ordering)
    requires
        a@.len() == b@.len(),
    ensures
        (r == Ordering::Equal) == (a@ == b@),
        (r == Ordering::Less) == lex_lt(a@, b@),
        (r == Ordering::Greater) == lex_lt(b@, a@),
{
    let mut i: usize = 0;
    while i < a.len()
        invariant
            i <= a@.len(),
            a@.len() == b@.len(),
            forall|j: int| 0 <= j < i ==> a@[j] == b@[j],
        decreases a@.len() - i,
    {
        if a[i] < b[i] {
            assert(lt_at(a@, b@, i as int));
            proof {
                lemma_lex_asym(a@, b@);
            }
            return Ordering::Less;
        }
        if a[i] > b[i] {
            assert(lt_at(b@, a@, i as int));
            proof {
                lemma_lex_asym(b@, a@);
            }
            return Ordering::Greater;
        }
        i = i + 1;
    }
    assert(a@ =~= b@);
    proof {
        lemma_lex_asym(a@, a@);
    }
    Ordering::Equal
}

/// Big-endian value of `b`.
pub open spec fn be_value(b: Seq<u8>) -> nat
    decreases b.len(),
{
    if b.len() == 0 {
        0
    } else {
        be_value(b.drop_last()) * 256 + b.last() as nat
    }
}

/// Big-endian bytes of `v`, `n` of them.
pub open spec fn be_bytes(v: nat, n: nat) -> Seq<u8>
    decreases n,
{
    if n == 0 {
        Seq::empty()
    } else {
        be_bytes(v / 256, (n - 1) as nat).push((v % 256) as u8)
    }
}

/// Read a big-endian `u64` from eight bytes of `b` at `at`.
pub fn read_be_u64(b: &[u8], at: usize) -> (r: u64)
    requires
        at + 8 <= b@.len(),
    ensures
        r == be_value(b@.subrange(at as int, at + 8)),
{
    read_be(b, at, 8)
}

/// Read a big-endian number from `n` bytes of `b` at `at`.
pub fn read_be(b: &[u8], at: usize, n: usize) -> (r: u64)
    requires
        n <= 8,
        at + n <= b@.len(),
    ensures
        r == be_value(b@.subrange(at as int, at + n)),
        r < vstd::arithmetic::power2::pow2(8 * n as nat),
{
    let mut v: u64 = 0;
    let mut i: usize = 0;
    let len = b.len();
    proof {
        vstd::arithmetic::power2::lemma2_to64();
        assert(b@.subrange(at as int, at as int) =~= Seq::<u8>::empty());
    }
    while i < n
        invariant
            i <= n,
            n <= 8,
            at + n <= b@.len(),
            len == b@.len(),
            v == be_value(b@.subrange(at as int, at + i)),
            v < vstd::arithmetic::power2::pow2(8 * i as nat),
        decreases n - i,
    {
        proof {
            let s = b@.subrange(at as int, at + i + 1);
            assert(s.drop_last() =~= b@.subrange(at as int, at + i));
            vstd::arithmetic::power2::lemma2_to64();
            vstd::arithmetic::power2::lemma_pow2_adds(8 * i as nat, 8);
            assert(v * 256 + 255 < vstd::arithmetic::power2::pow2(8 * (i + 1) as nat)) by (nonlinear_arith)
                requires
                    v < vstd::arithmetic::power2::pow2(8 * i as nat),
                    vstd::arithmetic::power2::pow2(8 * i as nat) * 256 == vstd::arithmetic::power2::pow2(8 * (i + 1) as nat),
            ;
            if i + 1 < 8 {
                vstd::arithmetic::power2::lemma_pow2_strictly_increases(8 * (i + 1) as nat, 64);
            }
            vstd::arithmetic::power2::lemma2_to64_rest();
            assert(v * 256 + 255 < 0x1_0000_0000_0000_0000);
        }
        v = v * 256 + b[at + i] as u64;
        i = i + 1;
    }
    v
}

/// Append the big-endian bytes of `v`, `n` of them, to `out`.
pub fn push_be(out: &mut Vec<u8>, v: u64, n: usize)
    requires
        n <= 8,
    ensures
        final(out)@ == old(out)@ + be_bytes(v as nat, n as nat),
    decreases n,
{
    if n == 0 {
        assert(old(out)@ + be_bytes(v as nat, 0) =~= old(out)@);
        return;
    }
    push_be(out, v / 256, n - 1);
    out.push((v % 256) as u8);
    proof {
        let ghost o = old(out)@;
        assert(be_bytes(v as nat, n as nat) == be_bytes(v as nat / 256, (n - 1) as nat).push((v % 256) as u8));
        assert(o + be_bytes(v as nat / 256, (n - 1) as nat).push((v % 256) as u8)
            =~= (o + be_bytes(v as nat / 256, (n - 1) as nat)).push((v % 256) as u8));
    }
}

} // verus!

verus! {

/// An owned copy of `b`.
pub fn copy_bytes(b: &[u8]) -> (r: Vec<u8>)
    ensures
        r@ == b@,
{
    let mut r: Vec<u8> = Vec::new();
    let mut i: usize = 0;
    while i < b.len()
        invariant
            i <= b@.len(),
            r@ == b@.subrange(0, i as int),
        decreases b@.len() - i,
    {
        r.push(b[i]);
        i = i + 1;
        assert(r@ =~= b@.subrange(0, i as int));
    }
    assert(r@ =~= b@);
    r
}

/// Append all of `b` to `out`.
pub fn append_bytes(out: &mut Vec<u8>, b: &[u8])
    ensures
        final(out)@ == old(out)@ + b@,
{
    let ghost o = out@;
    let mut i: usize = 0;
    while i < b.len()
        invariant
            i <= b@.len(),
            out@ == o + b@.subrange(0, i as int),
        decreases b@.len() - i,
    {
        out.push(b[i]);
        i = i + 1;
        assert(out@ =~= o + b@.subrange(0, i as int));
    }
    assert(b@.subrange(0, b@.len() as int) =~= b@);
}

/// The big-endian bytes of the big-endian value of `b` are `b`.
pub proof fn lemma_be_bytes_of_value(b: Seq<u8>)
    ensures
        be_bytes(be_value(b), b.len()) == b,
    decreases b.len(),
{
    if b.len() > 0 {
        let v = be_value(b);
        lemma_be_bytes_of_value(b.drop_last());
        assert(v / 256 == be_value(b.drop_last()));
        assert(v % 256 == b.last() as nat);
        assert(be_bytes(v, b.len()) =~= b.drop_last().push(b.last()));
        assert(b.drop_last().push(b.last()) =~= b);
    }
}

/// The big-endian value of the `n` big-endian bytes of `v` is `v`, when `v` fits.
pub proof fn lemma_be_roundtrip(v: nat, n: nat)
    requires
        v < vstd::arithmetic::power2::pow2(8 * n),
    ensures
        be_bytes(v, n).len() == n,
        be_value(be_bytes(v, n)) == v,
    decreases n,
{
    vstd::arithmetic::power2::lemma2_to64();
    if n > 0 {
        vstd::arithmetic::power2::lemma_pow2_adds(8 * (n - 1) as nat, 8);
        assert(8 * (n - 1) as nat + 8 == 8 * n);
        vstd::arithmetic::div_mod::lemma_fundamental_div_mod(v as int, 256);
        vstd::arithmetic::div_mod::lemma_multiply_divide_lt(
            v as int,
            256,
            vstd::arithmetic::power2::pow2(8 * (n - 1) as nat) as int,
        );
        lemma_be_roundtrip(v / 256, (n - 1) as nat);
        let s = be_bytes(v, n);
        assert(s.drop_last() =~= be_bytes(v / 256, (n - 1) as nat));
    }
}

} // verus!
