//! Text lines of file headers.
use vstd::prelude::*;
use vstd::utf8::{encode_utf8, valid_utf8};

verus! {

/// No byte of `s` is a newline.
pub open spec fn no_newline(s: Seq<u8>) -> bool {
    forall|i: int| 0 <= i < s.len() ==> #[trigger] s[i] != 0x0au8
}

/// `p` is a prefix of `s`.
pub open spec fn is_prefix(p: Seq<u8>, s: Seq<u8>) -> bool {
    p.len() <= s.len() && s.subrange(0, p.len() as int) == p
}

/// `i` is the position of the first newline in `h` at or after `start`.
pub open spec fn first_newline_at(h: Seq<u8>, start: int, i: int) -> bool {
    0 <= start <= i < h.len() && h[i] == 0x0au8 && no_newline(h.subrange(start, i))
}

/// Position of the first newline in `h` at or after `start`, if any.
pub open spec fn next_newline(h: Seq<u8>, start: int) -> Option<int> {
    if exists|i: int| #[trigger] first_newline_at(h, start, i) {
        Some(choose|i: int| #[trigger] first_newline_at(h, start, i))
    } else {
        None
    }
}

/// Ends of the first three lines of `h`, if it holds three newlines.
pub open spec fn header_lines(h: Seq<u8>) -> Option<(int, int, int)> {
    match next_newline(h, 0) {
        Some(n1) => match next_newline(h, n1 + 1) {
            Some(n2) => match next_newline(h, n2 + 1) {
                Some(n3) => Some((n1, n2, n3)),
                None => None,
            },
            None => None,
        },
        None => None,
    }
}

proof fn lemma_newline_unique(h: Seq<u8>, start: int, i: int, j: int)
    requires
        first_newline_at(h, start, i),
        first_newline_at(h, start, j),
    ensures
        i == j,
{
    if i < j {
        assert(h.subrange(start, j)[i - start] == h[i]);
    } else if j < i {
        assert(h.subrange(start, i)[j - start] == h[j]);
    }
}

/// Position of the first newline in `h` at or after `start`.
pub fn find_newline(h: &[u8], start: usize) -> (r: Option<usize>)
    requires
        start <= h@.len(),
    ensures
        r matches Some(i) ==> next_newline(h@, start as int) == Some(i as int),
        r is None ==> next_newline(h@, start as int) is None,
        r matches Some(i) ==> start <= i < h@.len() && h@[i as int] == 0x0au8 && no_newline(
            h@.subrange(start as int, i as int),
        ),
        r is None ==> no_newline(h@.subrange(start as int, h@.len() as int)),
{
    let mut i: usize = start;
    while i < h.len()
        invariant
            start <= i <= h@.len(),
            forall|j: int| start <= j < i ==> h@[j] != 0x0au8,
        decreases h@.len() - i,
    {
        if h[i] == 0x0a {
            proof {
                assert(first_newline_at(h@, start as int, i as int));
                let j = choose|j: int| #[trigger] first_newline_at(h@, start as int, j);
                lemma_newline_unique(h@, start as int, i as int, j);
            }
            return Some(i);
        }
        i = i + 1;
    }
    proof {
        if exists|j: int| #[trigger] first_newline_at(h@, start as int, j) {
            let j = choose|j: int| #[trigger] first_newline_at(h@, start as int, j);
            assert(h@[j] != 0x0au8);
        }
    }
    None
}

/// The bytes of `h` from `start` to `end`.
pub fn slice_bytes(h: &[u8], start: usize, end: usize) -> (r: Vec<u8>)
    requires
        start <= end <= h@.len(),
    ensures
        r@ == h@.subrange(start as int, end as int),
{
    let mut r: Vec<u8> = Vec::new();
    let mut i: usize = start;
    while i < end
        invariant
            start <= i <= end,
            end <= h@.len(),
            r@ == h@.subrange(start as int, i as int),
        decreases end - i,
    {
        r.push(h[i]);
        i = i + 1;
        assert(r@ =~= h@.subrange(start as int, i as int));
    }
    r
}

/// Relies on `String::from_utf8`: valid UTF-8 becomes the string whose bytes
/// they are; anything else is refused.
#[verifier::external_body]
pub(crate) fn string_from_utf8(b: &[u8]) -> (r: Option<String>)
    ensures
        r is Some <==> valid_utf8(b@),
        r matches Some(s) ==> encode_utf8(s@) == b@,
{
    String::from_utf8(b.to_vec()).ok()
}

/// Relies on `String::from_utf8_lossy`: a string made of `b`, with each
/// invalid sequence replaced.
#[verifier::external_body]
pub(crate) fn string_from_utf8_lossy(b: &[u8]) -> String {
    String::from_utf8_lossy(b).into_owned()
}

} // verus!
