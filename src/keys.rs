//! Fixed-length key and payload types, and the hashes that produce keys.
use vstd::prelude::*;
use crate::hex::{Hex, HexError, all_hex, hex_range, parse_hex, parsed_hex};
use crate::key_type::KnownKeyType;
use vstd::string::StringSliceAdditionalSpecFns;

verus! {

/// SHA-1 digest of `data`.
pub uninterp spec fn sha1_digest(data: Seq<u8>) -> Seq<u8>;

/// MD4 digest of `data`.
pub uninterp spec fn md4_digest(data: Seq<u8>) -> Seq<u8>;

/// UTF-16 code units of character `c`: itself below 0x10000, else a
/// surrogate pair.
pub open spec fn utf16_char(c: char) -> Seq<u16> {
    let v = c as u32;
    if v < 0x10000 {
        seq![v as u16]
    } else {
        let w = (v - 0x10000) as u32;
        seq![(0xD800 + w / 0x400) as u16, (0xDC00 + w % 0x400) as u16]
    }
}

/// UTF-16 code units of the characters `s`.
pub open spec fn utf16_units(s: Seq<char>) -> Seq<u16>
    decreases s.len(),
{
    if s.len() == 0 {
        Seq::empty()
    } else {
        utf16_units(s.drop_last()) + utf16_char(s.last())
    }
}

/// Little-endian bytes of a sequence of 16-bit units.
pub open spec fn utf16le_bytes(units: Seq<u16>) -> Seq<u8> {
    Seq::new(2 * units.len(), |i: int| if i % 2 == 0 { (units[i / 2] % 256) as u8 } else { (units[i / 2] / 256) as u8 })
}

/// Relies on `sha1::Sha1::digest`: the 20-byte SHA-1 digest of `data`.
#[verifier::external_body]
fn sha1_of(data: &[u8]) -> (r: [u8; 20])
    ensures
        r@ == sha1_digest(data@),
{
    let digest = <sha1::Sha1 as sha1::Digest>::digest(data);
    let mut out = [0u8; 20];
    out.copy_from_slice(&digest);
    out
}

/// Relies on `md4::Md4::digest`: the 16-byte MD4 digest of `data`.
#[verifier::external_body]
fn md4_of(data: &[u8]) -> (r: [u8; 16])
    ensures
        r@ == md4_digest(data@),
{
    let digest = <md4::Md4 as md4::Digest>::digest(data);
    let mut out = [0u8; 16];
    out.copy_from_slice(&digest);
    out
}

/// Relies on `str::encode_utf16`: the UTF-16 code units of `s`, each
/// character in turn.
#[verifier::external_body]
fn encode_utf16(s: &str) -> (r: Vec<u16>)
    ensures
        r@ == utf16_units(s@),
{
    s.encode_utf16().collect()
}

/// UTF-16LE encoding of `s`.
pub fn utf16le(s: &str) -> (r: Vec<u8>)
    ensures
        r@ == utf16le_bytes(utf16_units(s@)),
{
    let units = encode_utf16(s);
    let mut r: Vec<u8> = Vec::new();
    let mut i: usize = 0;
    while i < units.len()
        invariant
            i <= units@.len(),
            r@.len() == 2 * i,
            forall|j: int| 0 <= j < 2 * i ==> r@[j] == (if j % 2 == 0 { (units@[j / 2] % 256) as u8 } else { (units@[j / 2] / 256) as u8 }),
        decreases units@.len() - i,
    {
        let u = units[i];
        r.push((u % 256) as u8);
        r.push((u / 256) as u8);
        i = i + 1;
    }
    assert(r@ =~= utf16le_bytes(units@));
    r
}

/// A byte array of fixed length.
pub trait FixedByteArray: Sized {
    /// The bytes; implementations that model them give them here.
    open spec fn spec_data(&self) -> Seq<u8> {
        Seq::empty()
    }

    /// The fixed length; implementations that model it give it here.
    open spec fn spec_size() -> nat {
        0
    }

    /// The fixed length.
    fn size() -> (r: usize)
        ensures
            r == Self::spec_size(),
    ;

    /// The bytes.
    fn data(&self) -> (r: &[u8])
        ensures
            r@ == self.spec_data(),
            r@.len() == Self::spec_size(),
    ;

    /// The value holding bytes `d`.
    fn from_data(d: &[u8]) -> (r: Self)
        requires
            d@.len() == Self::spec_size(),
        ensures
            r.spec_data() == d@,
    ;
}

/// A byte array used as key, of a known key type.
pub trait KeyData: FixedByteArray {
    /// Key type of the keys.
    spec fn spec_key_type() -> KnownKeyType;

    /// Key type of the keys.
    fn key_type() -> (r: KnownKeyType)
        ensures
            r == Self::spec_key_type(),
            r.spec_len() == Self::spec_size(),
    ;

    /// Parse a key from exactly twice its size in hex digits.
    fn from_hex(text: &[u8]) -> (r: Result<Self, HexError>)
        ensures
            text@.len() != 2 * Self::spec_size() ==> r == Err::<Self, HexError>(HexError::InvalidStringLength),
            text@.len() == 2 * Self::spec_size() && all_hex(text@) ==> (r matches Ok(k) && k.spec_data() == parsed_hex(
                text@,
                Self::spec_size(),
                0,
            )),
            text@.len() == 2 * Self::spec_size() && !all_hex(text@) ==> (r matches Err(HexError::InvalidHexCharacter { .. })),
    ;
}

/// A byte array used as payload.
pub trait PayloadData: FixedByteArray {
}

fn to_array20(v: &[u8]) -> (r: [u8; 20])
    requires
        v@.len() == 20,
    ensures
        r@ == v@,
{
    let mut a = [0u8; 20];
    let mut i: usize = 0;
    while i < 20
        invariant
            i <= 20,
            v@.len() == 20,
            forall|j: int| 0 <= j < i ==> a@[j] == v@[j],
        decreases 20 - i,
    {
        a[i] = v[i];
        i = i + 1;
    }
    assert(a@ =~= v@);
    a
}

fn to_array16(v: &[u8]) -> (r: [u8; 16])
    requires
        v@.len() == 16,
    ensures
        r@ == v@,
{
    let mut a = [0u8; 16];
    let mut i: usize = 0;
    while i < 16
        invariant
            i <= 16,
            v@.len() == 16,
            forall|j: int| 0 <= j < i ==> a@[j] == v@[j],
        decreases 16 - i,
    {
        a[i] = v[i];
        i = i + 1;
    }
    assert(a@ =~= v@);
    a
}

/// SHA-1 hash data.
#[derive(Clone, Copy, PartialEq, Eq, PartialOrd, Ord, Hash, Debug, Default)]
pub struct SHA1(pub [u8; 20]);

/// NT hash data: MD4 of the UTF-16LE password. Often called NTLM hash.
#[derive(Clone, Copy, PartialEq, Eq, PartialOrd, Ord, Hash, Debug, Default)]
pub struct NT(pub [u8; 16]);

/// The NT hash under the name this format stores it with.
pub type NTLM = NT;

/// Payload of no bytes.
#[derive(Clone, Copy, PartialEq, Eq, Structural, PartialOrd, Ord, Debug, Default)]
pub struct NoPayload;

impl SHA1 {
    /// SHA-1 hash of `data`.
    pub fn hash(data: &[u8]) -> (r: SHA1)
        ensures
            r.0@ == sha1_digest(data@),
    {
        SHA1(sha1_of(data))
    }

    /// Lowercase hex digits of the hash.
    pub fn hex(&self) -> (r: Hex)
        ensures
            r.str_data@ == hex_range(self.0@, 0, 160),
    {
        Hex::new(self.0.as_slice())
    }

    /// Parse 40 hex digits.
    pub fn from_str(s: &str) -> (r: Result<SHA1, HexError>)
        ensures
            s.spec_bytes().len() != 40 ==> r == Err::<SHA1, HexError>(HexError::InvalidStringLength),
            s.spec_bytes().len() == 40 && all_hex(s.spec_bytes()) ==> (r matches Ok(k) && k.0@ == parsed_hex(
                s.spec_bytes(),
                20,
                0,
            )),
            s.spec_bytes().len() == 40 && !all_hex(s.spec_bytes()) ==> (r matches Err(HexError::InvalidHexCharacter { .. })),
    {
        <SHA1 as KeyData>::from_hex(s.as_bytes())
    }
}

impl NT {
    /// NT hash of `password`: MD4 of its UTF-16LE encoding.
    pub fn hash(password: &str) -> (r: NT)
        ensures
            r.0@ == md4_digest(utf16le_bytes(utf16_units(password@))),
    {
        let buf = utf16le(password);
        NT(md4_of(buf.as_slice()))
    }

    /// Lowercase hex digits of the hash.
    pub fn hex(&self) -> (r: Hex)
        ensures
            r.str_data@ == hex_range(self.0@, 0, 128),
    {
        Hex::new(self.0.as_slice())
    }

    /// Parse 32 hex digits.
    pub fn from_str(s: &str) -> (r: Result<NT, HexError>)
        ensures
            s.spec_bytes().len() != 32 ==> r == Err::<NT, HexError>(HexError::InvalidStringLength),
            s.spec_bytes().len() == 32 && all_hex(s.spec_bytes()) ==> (r matches Ok(k) && k.0@ == parsed_hex(
                s.spec_bytes(),
                16,
                0,
            )),
            s.spec_bytes().len() == 32 && !all_hex(s.spec_bytes()) ==> (r matches Err(HexError::InvalidHexCharacter { .. })),
    {
        <NT as KeyData>::from_hex(s.as_bytes())
    }
}

impl FixedByteArray for SHA1 {
    open spec fn spec_data(&self) -> Seq<u8> {
        self.0@
    }

    open spec fn spec_size() -> nat {
        20
    }

    fn size() -> (r: usize) {
        20
    }

    fn data(&self) -> (r: &[u8]) {
        self.0.as_slice()
    }

    fn from_data(d: &[u8]) -> (r: SHA1) {
        SHA1(to_array20(d))
    }
}

impl KeyData for SHA1 {
    open spec fn spec_key_type() -> KnownKeyType {
        KnownKeyType::SHA1
    }

    fn key_type() -> (r: KnownKeyType) {
        KnownKeyType::SHA1
    }

    fn from_hex(text: &[u8]) -> (r: Result<SHA1, HexError>) {
        if text.len() != 40 {
            return Err(HexError::InvalidStringLength);
        }
        let v = parse_hex(text, 20, 0)?;
        Ok(SHA1(to_array20(v.as_slice())))
    }
}

impl FixedByteArray for NT {
    open spec fn spec_data(&self) -> Seq<u8> {
        self.0@
    }

    open spec fn spec_size() -> nat {
        16
    }

    fn size() -> (r: usize) {
        16
    }

    fn data(&self) -> (r: &[u8]) {
        self.0.as_slice()
    }

    fn from_data(d: &[u8]) -> (r: NT) {
        NT(to_array16(d))
    }
}

impl KeyData for NT {
    open spec fn spec_key_type() -> KnownKeyType {
        KnownKeyType::NTLM
    }

    fn key_type() -> (r: KnownKeyType) {
        KnownKeyType::NTLM
    }

    fn from_hex(text: &[u8]) -> (r: Result<NT, HexError>) {
        if text.len() != 32 {
            return Err(HexError::InvalidStringLength);
        }
        let v = parse_hex(text, 16, 0)?;
        Ok(NT(to_array16(v.as_slice())))
    }
}

impl FixedByteArray for NoPayload {
    open spec fn spec_data(&self) -> Seq<u8> {
        Seq::empty()
    }

    open spec fn spec_size() -> nat {
        0
    }

    fn size() -> (r: usize) {
        0
    }

    fn data(&self) -> (r: &[u8]) {
        let e: &[u8] = &[];
        assert(e@ =~= Seq::<u8>::empty());
        e
    }

    fn from_data(d: &[u8]) -> (r: NoPayload) {
        NoPayload
    }
}

impl PayloadData for NoPayload {
}

} // verus!
