//! Hexadecimal text of bit ranges of keys, and its parsing.
use vstd::prelude::*;
use vstd::utf8::{encode_utf8, valid_utf8, is_leading_byte_width_1, leading_bits_width_1, pop_first_scalar};
use crate::header::string_from_utf8;

verus! {

/// Lowercase hex digit of nibble `n`.
pub open spec fn hex_char(n: nat) -> u8 {
    if n < 10 {
        (0x30 + n) as u8
    } else {
        (0x61 + n - 10) as u8
    }
}

/// Value of hex digit `c`, upper or lower case.
pub open spec fn hex_value(c: u8) -> Option<nat> {
    if 0x30 <= c <= 0x39 {
        Some((c - 0x30) as nat)
    } else if 0x61 <= c <= 0x66 {
        Some((c - 0x61 + 10) as nat)
    } else if 0x41 <= c <= 0x46 {
        Some((c - 0x41 + 10) as nat)
    } else {
        None
    }
}

/// Nibble `j` of `k`: the high nibble of byte `j / 2` for even `j`, else its low nibble.
pub open spec fn nibble(k: Seq<u8>, j: int) -> nat {
    if j % 2 == 0 {
        (k[j / 2] / 16) as nat
    } else {
        (k[j / 2] % 16) as nat
    }
}

/// Hex text of bits `[s, e)` of `k`: every nibble holding one of those
/// bits; none for an empty range.
pub open spec fn hex_range(k: Seq<u8>, s: nat, e: nat) -> Seq<u8> {
    let first = (s / 4) as int;
    let last = if s < e { ((e + 3) / 4) as int } else { first };
    Seq::new((last - first) as nat, |j: int| hex_char(nibble(k, first + j)))
}

/// Value of the digit of `text` that stands for nibble `j` when the text
/// starts at nibble `first`; zero for nibbles outside the text.
pub open spec fn digit_at(text: Seq<u8>, first: int, j: int) -> nat {
    if first <= j < first + text.len() {
        match hex_value(text[j - first]) {
            Some(v) => v,
            None => 0,
        }
    } else {
        0
    }
}

/// Key of `len` bytes whose nibbles from `first` on are given by `text`,
/// all others zero.
pub open spec fn parsed_hex(text: Seq<u8>, len: nat, first: int) -> Seq<u8> {
    Seq::new(len, |i: int| (digit_at(text, first, 2 * i) * 16 + digit_at(text, first, 2 * i + 1)) as u8)
}

/// Every byte of `text` is a hex digit.
pub open spec fn all_hex(text: Seq<u8>) -> bool {
    forall|i: int| 0 <= i < text.len() ==> #[trigger] hex_value(text[i]) is Some
}

/// Key `k` with only nibbles `[a, b)` kept.
pub open spec fn keep_nibbles(k: Seq<u8>, a: int, b: int) -> Seq<u8> {
    Seq::new(
        k.len(),
        |i: int|
            ((if a <= 2 * i < b { k[i] / 16 } else { 0 }) * 16 + (if a <= 2 * i + 1 < b { k[i] % 16 } else { 0 })) as u8,
    )
}

/// Error of hex parsing.
#[derive(Clone, Copy, PartialEq, Eq, Structural, Debug)]
pub enum HexError {
    /// A byte that is no hex digit, and its position.
    InvalidHexCharacter { c: u8, index: usize },
    /// The text has the wrong number of digits for where it goes.
    InvalidStringLength,
}

/// ASCII bytes are valid UTF-8.
pub proof fn lemma_ascii_valid_utf8(b: Seq<u8>)
    requires
        forall|i: int| 0 <= i < b.len() ==> #[trigger] b[i] < 0x80,
    ensures
        valid_utf8(b),
    decreases b.len(),
{
    if b.len() > 0 {
        let x = b[0];
        assert(is_leading_byte_width_1(x));
        assert(leading_bits_width_1(x) < 0x80) by (bit_vector)
            requires
                x < 0x80,
        ;
        assert(pop_first_scalar(b) =~= b.subrange(1, b.len() as int));
        lemma_ascii_valid_utf8(b.subrange(1, b.len() as int));
    }
}

/// Lowercase hex digit of a nibble.
pub fn hex_digit(n: u8) -> (r: u8)
    requires
        n < 16,
    ensures
        r == hex_char(n as nat),
        hex_value(r) == Some(n as nat),
{
    if n < 10 {
        0x30 + n
    } else {
        0x61 + n - 10
    }
}

/// Value of a hex digit.
pub fn hex_digit_value(c: u8) -> (r: Option<u8>)
    ensures
        hex_value(c) matches Some(v) ==> r == Some(v as u8) && v < 16,
        hex_value(c) is None ==> r is None,
{
    if 0x30 <= c && c <= 0x39 {
        Some(c - 0x30)
    } else if 0x61 <= c && c <= 0x66 {
        Some(c - 0x61 + 10)
    } else if 0x41 <= c && c <= 0x46 {
        Some(c - 0x41 + 10)
    } else {
        None
    }
}

/// Hex text of bits `[start, end)` of a byte array.
#[derive(Clone, Debug)]
pub struct HexRange {
    pub str_data: Vec<u8>,
}

/// Hex text of a whole byte array.
#[derive(Clone, Debug)]
pub struct Hex {
    pub str_data: Vec<u8>,
}

/// Hex digits of bits `[s, e)` of `k`.
pub fn hex_range_digits(k: &[u8], s: u32, e: u32) -> (r: Vec<u8>)
    requires
        s <= e <= k@.len() * 8,
    ensures
        r@ == hex_range(k@, s as nat, e as nat),
        all_hex(r@),
{
    let first: usize = (s / 4) as usize;
    let last: usize = if s < e { ((e as u64 + 3) / 4) as usize } else { first };
    let mut r: Vec<u8> = Vec::new();
    let mut j: usize = first;
    while j < last
        invariant
            first <= j <= last,
            last <= 2 * k@.len(),
            first == s / 4,
            last == (if s < e { (e as int + 3) / 4 } else { (s / 4) as int }),
            r@.len() == j - first,
            forall|x: int| 0 <= x < j - first ==> r@[x] == hex_char(nibble(k@, first + x)),
            forall|x: int| 0 <= x < j - first ==> hex_value(#[trigger] r@[x]) is Some,
        decreases last - j,
    {
        let b = k[j / 2];
        let n: u8 = if j % 2 == 0 { b / 16 } else { b % 16 };
        r.push(hex_digit(n));
        j = j + 1;
    }
    assert(r@ =~= hex_range(k@, s as nat, e as nat));
    r
}

/// String of hex digits.
fn digits_to_string(d: &Vec<u8>) -> (r: String)
    ensures
        all_hex(d@) ==> encode_utf8(r@) == d@,
{
    proof {
        if all_hex(d@) {
            assert forall|i: int| 0 <= i < d@.len() implies #[trigger] d@[i] < 0x80 by {
                assert(hex_value(d@[i]) is Some);
            }
            lemma_ascii_valid_utf8(d@);
        }
    }
    match string_from_utf8(d.as_slice()) {
        Some(s) => s,
        None => String::new(),
    }
}

impl HexRange {
    /// Hex text of bits `[start, end)` of `k`: every nibble holding one of
    /// those bits, lowercase.
    pub fn new(k: &[u8], start: u32, end: u32) -> (r: HexRange)
        requires
            start <= end <= k@.len() * 8,
        ensures
            r.str_data@ == hex_range(k@, start as nat, end as nat),
            all_hex(r.str_data@),
    {
        HexRange { str_data: hex_range_digits(k, start, end) }
    }

    /// The text.
    pub fn as_str(&self) -> (r: String)
        ensures
            all_hex(self.str_data@) ==> encode_utf8(r@) == self.str_data@,
    {
        digits_to_string(&self.str_data)
    }
}

impl Hex {
    /// Hex text of all of `k`, lowercase.
    pub fn new(k: &[u8]) -> (r: Hex)
        requires
            k@.len() * 8 <= u32::MAX,
        ensures
            r.str_data@ == hex_range(k@, 0, k@.len() * 8),
            all_hex(r.str_data@),
    {
        Hex { str_data: hex_range_digits(k, 0, (k.len() * 8) as u32) }
    }

    /// The text.
    pub fn as_str(&self) -> (r: String)
        ensures
            all_hex(self.str_data@) ==> encode_utf8(r@) == self.str_data@,
    {
        digits_to_string(&self.str_data)
    }
}

/// Key of `len` bytes whose nibbles from `first` on come from hex `text`,
/// all others zero.
pub fn parse_hex(text: &[u8], len: usize, first: usize) -> (r: Result<Vec<u8>, HexError>)
    requires
        first <= 2 * len,
        len < usize::MAX / 2,
    ensures
        first + text@.len() > 2 * len ==> r == Err::<Vec<u8>, HexError>(HexError::InvalidStringLength),
        first + text@.len() <= 2 * len && all_hex(text@) ==> (r matches Ok(v) && v@ == parsed_hex(text@, len as nat, first as int)),
        first + text@.len() <= 2 * len && !all_hex(text@) ==> (r matches Err(HexError::InvalidHexCharacter { c, index })
            && index < text@.len() && text@[index as int] == c && hex_value(c) is None),
{
    if text.len() > 2 * len - first {
        return Err(HexError::InvalidStringLength);
    }
    let mut vals: Vec<u8> = Vec::new();
    let mut i: usize = 0;
    while i < text.len()
        invariant
            i <= text@.len(),
            vals@.len() == i,
            first + text@.len() <= 2 * len,
            forall|x: int| 0 <= x < i ==> hex_value(#[trigger] text@[x]) == Some(vals@[x] as nat),
            forall|x: int| 0 <= x < i ==> #[trigger] vals@[x] < 16,
        decreases text@.len() - i,
    {
        match hex_digit_value(text[i]) {
            Some(v) => {
                vals.push(v);
            },
            None => {
                return Err(HexError::InvalidHexCharacter { c: text[i], index: i });
            },
        }
        i = i + 1;
    }
    let mut out: Vec<u8> = Vec::new();
    let mut b: usize = 0;
    while b < len
        invariant
            b <= len,
            len < usize::MAX / 2,
            first + text@.len() <= 2 * len,
            vals@.len() == text@.len(),
            forall|x: int| 0 <= x < text@.len() ==> hex_value(#[trigger] text@[x]) == Some(vals@[x] as nat),
            forall|x: int| 0 <= x < text@.len() ==> #[trigger] vals@[x] < 16,
            out@.len() == b,
            forall|x: int| 0 <= x < b ==> out@[x] == (digit_at(text@, first as int, 2 * x) * 16 + digit_at(text@, first as int, 2 * x + 1)) as u8,
        decreases len - b,
    {
        let hi: u8 = if first <= 2 * b && 2 * b < first + text.len() { vals[2 * b - first] } else { 0 };
        let lo: u8 = if first <= 2 * b + 1 && 2 * b + 1 < first + text.len() { vals[2 * b + 1 - first] } else { 0 };
        proof {
            if first <= 2 * b && 2 * b < first + text@.len() {
                assert(hex_value(text@[2 * b - first]) == Some(vals@[2 * b - first] as nat));
            }
            if first <= 2 * b + 1 && 2 * b + 1 < first + text@.len() {
                assert(hex_value(text@[2 * b + 1 - first]) == Some(vals@[2 * b + 1 - first] as nat));
            }
        }
        out.push(hi * 16 + lo);
        b = b + 1;
    }
    assert(out@ =~= parsed_hex(text@, len as nat, first as int));
    proof {
        assert forall|x: int| 0 <= x < text@.len() implies #[trigger] hex_value(text@[x]) is Some by {}
    }
    Ok(out)
}

proof fn lemma_hex_char_value(n: nat)
    requires
        n < 16,
    ensures
        hex_value(hex_char(n)) == Some(n),
{
}

/// Parsing the hex text of a nibble-aligned bit range of a key, placed where
/// the range starts, gives the key with the range kept and all else zero.
pub proof fn lemma_hex_range_roundtrip(k: Seq<u8>, s: nat, e: nat)
    requires
        s <= e <= k.len() * 8,
        s % 4 == 0,
        e % 4 == 0,
    ensures
        all_hex(hex_range(k, s, e)),
        parsed_hex(hex_range(k, s, e), k.len(), (s / 4) as int) == keep_nibbles(k, (s / 4) as int, (e / 4) as int),
{
    let t = hex_range(k, s, e);
    let first = (s / 4) as int;
    let last = (e / 4) as int;
    assert((e + 3) / 4 == e / 4);
    assert forall|j: int| 0 <= j < t.len() implies #[trigger] hex_value(t[j]) == Some(nibble(k, first + j)) by {
        assert(nibble(k, first + j) < 16);
        lemma_hex_char_value(nibble(k, first + j));
    }
    assert forall|i: int| 0 <= i < k.len() implies #[trigger] parsed_hex(t, k.len(), first)[i] == keep_nibbles(k, first, last)[i] by {
        assert(digit_at(t, first, 2 * i) == if first <= 2 * i < last { (k[i] / 16) as nat } else { 0 });
        assert(digit_at(t, first, 2 * i + 1) == if first <= 2 * i + 1 < last { (k[i] % 16) as nat } else { 0 });
    }
    assert(parsed_hex(t, k.len(), first) =~= keep_nibbles(k, first, last));
}

} // verus!
