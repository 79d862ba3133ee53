//! Splitting keys on arbitrary bit boundaries.
use vstd::prelude::*;

verus! {

/// `b` with only its `n` most significant bits kept.
pub open spec fn keep_high(b: u8, n: u8) -> u8 {
    b & !(0xffu8 >> n)
}

/// `b` with its `n` most significant bits cleared.
pub open spec fn keep_low(b: u8, n: u8) -> u8 {
    b & (0xffu8 >> n)
}

/// Byte `i` of the `bits`-bit prefix taken from `raw`: whole bytes are kept,
/// the byte holding the boundary keeps its high bits, later bytes are zero.
pub open spec fn prefix_byte(raw: Seq<u8>, bits: nat, i: int) -> u8 {
    if i < bits / 8 {
        raw[i]
    } else if i == bits / 8 && bits % 8 != 0 {
        keep_high(raw[i], (bits % 8) as u8)
    } else {
        0
    }
}

/// The `bits`-bit prefix of `raw` as a key of `len` bytes; unused bits are zero.
pub open spec fn prefix_bytes(raw: Seq<u8>, len: nat, bits: nat) -> Seq<u8> {
    Seq::new(len, |i: int| prefix_byte(raw, bits, i))
}

/// Byte `i` of what remains of `key` after a `bits`-bit prefix.
pub open spec fn suffix_byte(key: Seq<u8>, bits: nat, i: int) -> u8 {
    if i < bits / 8 {
        0
    } else if i == bits / 8 {
        keep_low(key[i], (bits % 8) as u8)
    } else {
        key[i]
    }
}

/// What remains of `key` after a `bits`-bit prefix; prefix bits are zero.
pub open spec fn suffix_bytes(key: Seq<u8>, bits: nat) -> Seq<u8> {
    Seq::new(key.len(), |i: int| suffix_byte(key, bits, i))
}

/// Bytewise union of a prefix and a suffix.
pub open spec fn unsplit_bytes(p: Seq<u8>, s: Seq<u8>) -> Seq<u8> {
    Seq::new(p.len(), |i: int| p[i] | s[i])
}

/// Copy of `key` whose first `start` bytes are zero.
pub open spec fn zero_front(key: Seq<u8>, start: nat) -> Seq<u8> {
    Seq::new(key.len(), |i: int| if i < start { 0u8 } else { key[i] })
}

pub proof fn lemma_byte_split(b: u8, n: u8)
    requires
        n < 8,
    ensures
        (b & !(0xffu8 >> n)) | (b & (0xffu8 >> n)) == b,
        b | 0 == b,
        0 | b == b,
        b & (0xffu8 >> 0u8) == b,
{
    assert(b & (0xffu8 >> 0u8) == b) by (bit_vector);
    assert((b & !(0xffu8 >> n)) | (b & (0xffu8 >> n)) == b) by (bit_vector)
        requires
            n < 8,
    ;
    assert(b | 0 == b) by (bit_vector);
    assert(0 | b == b) by (bit_vector);
}

/// Joining the prefix and the suffix of a key at the same bit boundary gives
/// back the key, byte for byte.
pub proof fn lemma_unsplit_split(key: Seq<u8>, bits: nat)
    requires
        bits <= key.len() * 8,
    ensures
        unsplit_bytes(prefix_bytes(key, key.len(), bits), suffix_bytes(key, bits)) == key,
{
    let p = prefix_bytes(key, key.len(), bits);
    let s = suffix_bytes(key, bits);
    assert forall|i: int| 0 <= i < key.len() implies #[trigger] unsplit_bytes(p, s)[i] == key[i] by {
        lemma_byte_split(key[i], (bits % 8) as u8);
    }
    assert(unsplit_bytes(p, s) =~= key);
}

/// Mask keeping the `n` most significant bits of a byte.
fn high_mask(n: u32) -> (r: u8)
    requires
        n < 8,
    ensures
        forall|b: u8| #[trigger] (b & r) == keep_high(b, n as u8),
{
    let m: u8 = !(0xffu8 >> (n as u8));
    assert(forall|b: u8| #[trigger] (b & m) == b & !(0xffu8 >> (n as u8)));
    m
}

/// Mask keeping all but the `n` most significant bits of a byte.
fn low_mask(n: u32) -> (r: u8)
    requires
        n < 8,
    ensures
        forall|b: u8| #[trigger] (b & r) == keep_low(b, n as u8),
{
    0xffu8 >> (n as u8)
}

/// The `bits`-bit prefix of `raw`, as a key of `len` bytes.
pub fn prefix_of(raw: &[u8], len: usize, bits: u32) -> (r: Vec<u8>)
    requires
        bits as int <= len * 8,
        (bits as int + 7) / 8 <= raw@.len(),
    ensures
        r@ == prefix_bytes(raw@, len as nat, bits as nat),
{
    let whole = (bits / 8) as usize;
    let part = bits % 8;
    let mut r: Vec<u8> = Vec::new();
    let mut i: usize = 0;
    while i < len
        invariant
            i <= len,
            r@.len() == i,
            whole == bits / 8,
            part == bits % 8,
            bits as int <= len * 8,
            (bits as int + 7) / 8 <= raw@.len(),
            forall|j: int| 0 <= j < i ==> r@[j] == prefix_byte(raw@, bits as nat, j),
        decreases len - i,
    {
        let b: u8 = if i < whole {
            raw[i]
        } else if i == whole && part != 0 {
            raw[i] & high_mask(part)
        } else {
            0
        };
        r.push(b);
        i = i + 1;
    }
    assert(r@ =~= prefix_bytes(raw@, len as nat, bits as nat));
    r
}

/// The suffix of `key` after a `bits`-bit prefix; prefix bits are zero.
pub fn suffix_of(key: &[u8], bits: u32) -> (r: Vec<u8>)
    requires
        bits as int <= key@.len() * 8,
    ensures
        r@ == suffix_bytes(key@, bits as nat),
{
    let whole = (bits / 8) as usize;
    let part = bits % 8;
    let mut r: Vec<u8> = Vec::new();
    let mut i: usize = 0;
    while i < key.len()
        invariant
            i <= key@.len(),
            r@.len() == i,
            whole == bits / 8,
            part == bits % 8,
            forall|j: int| 0 <= j < i ==> r@[j] == suffix_byte(key@, bits as nat, j),
        decreases key@.len() - i,
    {
        let b: u8 = if i < whole {
            0
        } else if i == whole {
            key[i] & low_mask(part)
        } else {
            key[i]
        };
        r.push(b);
        i = i + 1;
    }
    assert(r@ =~= suffix_bytes(key@, bits as nat));
    r
}

/// Bytewise union of two keys of equal length.
pub fn unsplit_of(p: &[u8], s: &[u8]) -> (r: Vec<u8>)
    requires
        p@.len() == s@.len(),
    ensures
        r@ == unsplit_bytes(p@, s@),
{
    let mut r: Vec<u8> = Vec::new();
    let mut i: usize = 0;
    while i < p.len()
        invariant
            i <= p@.len(),
            p@.len() == s@.len(),
            r@.len() == i,
            forall|j: int| 0 <= j < i ==> r@[j] == p@[j] | s@[j],
        decreases p@.len() - i,
    {
        r.push(p[i] | s[i]);
        i = i + 1;
    }
    assert(r@ =~= unsplit_bytes(p@, s@));
    r
}

} // verus!
