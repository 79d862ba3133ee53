//! The part of a key that an index stores: what follows its bucket prefix.
use vstd::prelude::*;
use std::cmp::Ordering;
use crate::bits::keep_low;
use crate::bytes::{compare_bytes, lex_lt};
use crate::depth::Depth;
use crate::format::{masked_entry_key, strip_key};

verus! {

/// A key without the whole bytes of its bucket prefix; the prefix bits of the
/// first remaining byte are cleared.
#[derive(Clone, Debug)]
pub struct KeySuffix {
    pub depth: Depth,
    pub key_first_byte: u8,
    pub key_suffix: Vec<u8>,
}

impl KeySuffix {
    /// The suffix as bytes.
    pub open spec fn view(&self) -> Seq<u8> {
        seq![self.key_first_byte] + self.key_suffix@
    }

    /// Suffix of `key` for `depth`.
    pub fn new(depth: Depth, key: &[u8]) -> (r: KeySuffix)
        requires
            depth@ / 8 < key@.len(),
        ensures
            r@ == strip_key(key@, depth@),
            r.depth == depth,
    {
        let d = depth.as_u8();
        let start = (d / 8) as usize;
        let first = key[start] & (0xffu8 >> (d % 8));
        let mut rest: Vec<u8> = Vec::new();
        let mut i: usize = start + 1;
        while i < key.len()
            invariant
                start == d / 8,
                start < i <= key@.len(),
                rest@ == key@.subrange(start + 1, i as int),
            decreases key@.len() - i,
        {
            rest.push(key[i]);
            i = i + 1;
            assert(rest@ =~= key@.subrange(start + 1, i as int));
        }
        let r = KeySuffix { depth, key_first_byte: first, key_suffix: rest };
        assert(r@ =~= strip_key(key@, depth@));
        r
    }

    /// Suffix read from a stored entry key.
    pub fn new_from_entry(depth: Depth, entry_key: &[u8]) -> (r: KeySuffix)
        requires
            entry_key@.len() > 0,
        ensures
            r@ == masked_entry_key(entry_key@, depth@),
            r.depth == depth,
    {
        let d = depth.as_u8();
        let first = entry_key[0] & (0xffu8 >> (d % 8));
        let mut rest: Vec<u8> = Vec::new();
        let mut i: usize = 1;
        while i < entry_key.len()
            invariant
                1 <= i <= entry_key@.len(),
                rest@ == entry_key@.subrange(1, i as int),
            decreases entry_key@.len() - i,
        {
            rest.push(entry_key[i]);
            i = i + 1;
            assert(rest@ =~= entry_key@.subrange(1, i as int));
        }
        let r = KeySuffix { depth, key_first_byte: first, key_suffix: rest };
        assert(r@ =~= masked_entry_key(entry_key@, depth@));
        r
    }

    /// First byte of the suffix, prefix bits cleared.
    pub fn first_byte(&self) -> (r: u8)
        ensures
            r == self@[0],
    {
        self.key_first_byte
    }

    /// The bytes after the first.
    pub fn remaining_bytes(&self) -> (r: &[u8])
        ensures
            r@ == self@.subrange(1, self@.len() as int),
    {
        assert(self.key_suffix@ =~= self@.subrange(1, self@.len() as int));
        self.key_suffix.as_slice()
    }

    /// Length of the suffix in bytes, first byte included.
    pub fn len(&self) -> (r: usize)
        requires
            self.key_suffix@.len() < usize::MAX,
        ensures
            r == self@.len(),
    {
        self.key_suffix.len() + 1
    }

    /// The suffix in one buffer.
    pub fn to_vec(&self) -> (r: Vec<u8>)
        ensures
            r@ == self@,
    {
        let mut r: Vec<u8> = Vec::new();
        r.push(self.key_first_byte);
        let mut i: usize = 0;
        while i < self.key_suffix.len()
            invariant
                i <= self.key_suffix@.len(),
                r@ == seq![self.key_first_byte] + self.key_suffix@.subrange(0, i as int),
            decreases self.key_suffix@.len() - i,
        {
            r.push(self.key_suffix[i]);
            i = i + 1;
            assert(r@ =~= seq![self.key_first_byte] + self.key_suffix@.subrange(0, i as int));
        }
        assert(r@ =~= self@);
        r
    }

    /// Compare this suffix with a stored entry key of the same length.
    pub fn compare_entry(&self, entry_key: &[u8]) -> (r: Ordering)
        requires
            entry_key@.len() == self@.len(),
        ensures
            (r == Ordering::Equal) == (self@ == masked_entry_key(entry_key@, self.depth@)),
            (r == Ordering::Less) == lex_lt(self@, masked_entry_key(entry_key@, self.depth@)),
            (r == Ordering::Greater) == lex_lt(masked_entry_key(entry_key@, self.depth@), self@),
    {
        let other = KeySuffix::new_from_entry(self.depth, entry_key);
        let a = self.to_vec();
        let b = other.to_vec();
        compare_bytes(a.as_slice(), b.as_slice())
    }
}

} // verus!
