//! Keys split into a bit prefix and the suffix after it.
use vstd::prelude::*;
use crate::bits::{prefix_bytes, prefix_of, suffix_bytes, suffix_of, unsplit_bytes, unsplit_of, zero_front};
use crate::depth::{LimPrefix, bucket_bytes};
use crate::hex::{HexError, HexRange, all_hex, hex_range, parse_hex, parsed_hex};

verus! {

/// The first `bits` bits of a key; the key's other bits are zero.
#[derive(Clone, Debug)]
pub struct Prefix {
    pub key: Vec<u8>,
    pub bits: u32,
}

/// A key without its first `prefix_bits` bits, which are zero.
#[derive(Clone, Debug)]
pub struct Suffix {
    pub key: Vec<u8>,
    pub prefix_bits: u32,
}

/// Suffix of `text`'s parse: the key of `len` bytes read from hex digits that
/// start at the nibble holding bit `bits`, with the first `bits` bits cleared.
pub open spec fn hex_suffix(text: Seq<u8>, len: nat, bits: nat) -> Seq<u8> {
    suffix_bytes(parsed_hex(text, len, (bits / 4) as int), bits)
}

impl Prefix {
    /// Prefix of `bits` bits of `key`.
    pub fn new_from_key(key: &[u8], bits: u32) -> (r: Prefix)
        requires
            bits as int <= key@.len() * 8,
        ensures
            r.key@ == prefix_bytes(key@, key@.len(), bits as nat),
            r.bits == bits,
    {
        Prefix { key: prefix_of(key, key.len(), bits), bits }
    }

    /// Prefix of `bits` bits from `raw`, which holds at least the bytes
    /// those bits fall in, as a key of `key_len` bytes.
    pub fn new_from_raw(raw: &[u8], key_len: usize, bits: u32) -> (r: Prefix)
        requires
            bits as int <= key_len * 8,
            bits as int <= raw@.len() * 8,
        ensures
            r.key@ == prefix_bytes(raw@, key_len as nat, bits as nat),
            r.bits == bits,
    {
        Prefix { key: prefix_of(raw, key_len, bits), bits }
    }

    /// Key holding the prefix; its other bits are zero.
    pub fn key(&self) -> (r: &[u8])
        ensures
            r@ == self.key@,
    {
        self.key.as_slice()
    }

    /// Length of the prefix in bits.
    pub fn bits(&self) -> (r: u32)
        ensures
            r == self.bits,
    {
        self.bits
    }

    /// Hex digits of the prefix.
    pub fn hex(&self) -> (r: HexRange)
        requires
            self.bits as int <= self.key@.len() * 8,
        ensures
            r.str_data@ == hex_range(self.key@, 0, self.bits as nat),
    {
        HexRange::new(self.key.as_slice(), 0, self.bits)
    }

    /// Join the prefix with a suffix at the same bit boundary.
    pub fn unsplit(&self, suffix: &Suffix) -> (r: Vec<u8>)
        requires
            self.bits == suffix.prefix_bits,
            self.key@.len() == suffix.key@.len(),
        ensures
            r@ == unsplit_bytes(self.key@, suffix.key@),
    {
        unsplit_of(self.key.as_slice(), suffix.key.as_slice())
    }

    /// Join the prefix with a suffix given as hex digits, starting at the
    /// nibble that holds the first suffix bit; prefix bits in that nibble are
    /// ignored.
    pub fn unsplit_from_hex_suffix(&self, suffix_str: &str) -> (r: Result<Vec<u8>, HexError>)
        requires
            self.bits as int <= self.key@.len() * 8,
            self.key@.len() < usize::MAX / 4,
        ensures
            ({
                let t = vstd::string::StringSliceAdditionalSpecFns::spec_bytes(suffix_str);
                let want = 2 * self.key@.len() - self.bits / 4;
                &&& t.len() != want ==> r == Err::<Vec<u8>, HexError>(HexError::InvalidStringLength)
                &&& t.len() == want && all_hex(t) ==> (r matches Ok(v) && v@ == unsplit_bytes(
                    self.key@,
                    hex_suffix(t, self.key@.len(), self.bits as nat),
                ))
                &&& t.len() == want && !all_hex(t) ==> (r matches Err(HexError::InvalidHexCharacter { .. }))
            }),
    {
        let text = suffix_str.as_bytes();
        let len = self.key.len();
        let first = (self.bits / 4) as usize;
        if text.len() != 2 * len - first {
            return Err(HexError::InvalidStringLength);
        }
        let parsed = parse_hex(text, len, first)?;
        let s = suffix_of(parsed.as_slice(), self.bits);
        Ok(unsplit_of(self.key.as_slice(), s.as_slice()))
    }
}

impl Suffix {
    /// Suffix of `key` after `prefix_bits` bits.
    pub fn new_from_key(key: &[u8], prefix_bits: u32) -> (r: Suffix)
        requires
            prefix_bits as int <= key@.len() * 8,
        ensures
            r.key@ == suffix_bytes(key@, prefix_bits as nat),
            r.prefix_bits == prefix_bits,
    {
        Suffix { key: suffix_of(key, prefix_bits), prefix_bits }
    }

    /// Suffix from `raw`, the bytes of a key from the one holding bit
    /// `prefix_bits` on.
    pub fn new_from_suffix_raw(raw: &[u8], prefix_bits: u32) -> (r: Suffix)
        requires
            (prefix_bits / 8) as int + raw@.len() < usize::MAX,
            prefix_bits as int <= ((prefix_bits / 8) as int + raw@.len()) * 8,
        ensures
            r.key@ == suffix_bytes(Seq::new((prefix_bits / 8) as nat, |i: int| 0u8) + raw@, prefix_bits as nat),
            r.prefix_bits == prefix_bits,
    {
        let start = (prefix_bits / 8) as usize;
        let mut full: Vec<u8> = Vec::new();
        let mut i: usize = 0;
        while i < start
            invariant
                i <= start,
                full@ == Seq::new(i as nat, |j: int| 0u8),
            decreases start - i,
        {
            full.push(0u8);
            i = i + 1;
            assert(full@ =~= Seq::new(i as nat, |j: int| 0u8));
        }
        crate::bytes::append_bytes(&mut full, raw);
        Suffix { key: suffix_of(full.as_slice(), prefix_bits), prefix_bits }
    }

    /// Key holding the suffix; its prefix bits are zero.
    pub fn key(&self) -> (r: &[u8])
        ensures
            r@ == self.key@,
    {
        self.key.as_slice()
    }

    /// Length of the prefix in bits.
    pub fn prefix_bits(&self) -> (r: u32)
        ensures
            r == self.prefix_bits,
    {
        self.prefix_bits
    }

    /// Hex digits of the suffix.
    pub fn hex(&self) -> (r: HexRange)
        requires
            self.prefix_bits as int <= self.key@.len() * 8,
            self.key@.len() * 8 <= u32::MAX,
        ensures
            r.str_data@ == hex_range(self.key@, self.prefix_bits as nat, self.key@.len() * 8),
    {
        HexRange::new(self.key.as_slice(), self.prefix_bits, (self.key.len() * 8) as u32)
    }
}

impl LimPrefix {
    /// Hex digits of the prefix bits.
    pub fn hex(&self) -> (r: HexRange)
        requires
            self.wf(),
        ensures
            r.str_data@ == hex_range(bucket_bytes(self.depth@, self.bucket as nat), 0, self.depth@),
    {
        let raw = self.raw_bytes();
        HexRange::new(&raw, 0, self.depth.as_u8() as u32)
    }

    /// Key of `key_len` bytes: this prefix, completed from hex digits that
    /// start at the nibble holding the first bit after it.
    pub fn read_key_from_suffix_hex(self, hex_suffix: &[u8], key_len: usize) -> (r: Result<Vec<u8>, HexError>)
        requires
            self.wf(),
            (self.depth@ + 7) / 8 < key_len,
            key_len < usize::MAX / 4,
        ensures
            ({
                let first = self.depth@ / 4;
                &&& first + hex_suffix@.len() != 2 * key_len ==> r == Err::<Vec<u8>, HexError>(HexError::InvalidStringLength)
                &&& first + hex_suffix@.len() == 2 * key_len && all_hex(hex_suffix@) ==> (r matches Ok(v) && v@
                    == unsplit_bytes(
                    prefix_bytes(bucket_bytes(self.depth@, self.bucket as nat), key_len as nat, self.depth@),
                    suffix_bytes(parsed_hex(hex_suffix@, key_len as nat, first as int), self.depth@),
                ))
                &&& first + hex_suffix@.len() == 2 * key_len && !all_hex(hex_suffix@) ==> (r matches Err(
                    HexError::InvalidHexCharacter { .. },
                ))
            }),
    {
        let d = self.depth.as_u8();
        let first = (d / 4) as usize;
        if hex_suffix.len() != 2 * key_len - first {
            return Err(HexError::InvalidStringLength);
        }
        let mut key = parse_hex(hex_suffix, key_len, first)?;
        self.set_key_prefix(&mut key);
        Ok(key)
    }

    /// Complete `key_data` from this prefix and hex digits of the suffix;
    /// `key_data` is left as it was when the digits are refused.
    pub fn read_suffix_from_hex(self, hex_suffix: &[u8], key_data: &mut Vec<u8>) -> (r: Result<(), HexError>)
        requires
            self.wf(),
            (self.depth@ + 7) / 8 < old(key_data)@.len(),
            old(key_data)@.len() < usize::MAX / 4,
        ensures
            r is Err ==> final(key_data)@ == old(key_data)@,
            r is Ok ==> final(key_data)@ == unsplit_bytes(
                prefix_bytes(bucket_bytes(self.depth@, self.bucket as nat), old(key_data)@.len(), self.depth@),
                suffix_bytes(parsed_hex(hex_suffix@, old(key_data)@.len(), (self.depth@ / 4) as int), self.depth@),
            ),
            r is Ok <==> self.depth@ / 4 + hex_suffix@.len() == 2 * old(key_data)@.len() && all_hex(hex_suffix@),
            self.depth@ / 4 + hex_suffix@.len() != 2 * old(key_data)@.len() ==> r == Err::<(), HexError>(HexError::InvalidStringLength),
    {
        let k = self.read_key_from_suffix_hex(hex_suffix, key_data.len())?;
        *key_data = k;
        Ok(())
    }
}

} // verus!
