//! The index file layout, and the compression of its bucket table.
use vstd::prelude::*;
use crate::bits::keep_low;

verus! {

/// Largest size of an index header in bytes.
pub const INDEX_V0_HEADER_LIMIT: u64 = 4096;

/// The first line of an index file: "hash-index-v0".
pub open spec fn index_magic() -> Seq<u8> {
    seq![0x68u8, 0x61, 0x73, 0x68, 0x2d, 0x69, 0x6e, 0x64, 0x65, 0x78, 0x2d, 0x76, 0x30]
}

/// The first line of an index file.
pub fn index_magic_bytes() -> (r: Vec<u8>)
    ensures
        r@ == index_magic(),
{
    let r = vec![0x68u8, 0x61, 0x73, 0x68, 0x2d, 0x69, 0x6e, 0x64, 0x65, 0x78, 0x2d, 0x76, 0x30];
    assert(r@ =~= index_magic());
    r
}

/// Header of an index: magic, key type name and description, each ending in
/// a newline, then key size and payload size.
pub open spec fn index_header(name: Seq<u8>, description: Seq<u8>, key_size: u8, payload_size: u8) -> Seq<u8> {
    index_magic() + seq![0x0au8] + name + seq![0x0au8] + description + seq![0x0au8] + seq![key_size, payload_size]
}

/// Stored form of `key` in a table of depth `d`: the whole bytes of the
/// prefix dropped, the prefix bits of the next byte cleared.
pub open spec fn strip_key(key: Seq<u8>, d: nat) -> Seq<u8> {
    Seq::new((key.len() - d / 8) as nat, |i: int| if i == 0 { keep_low(key[(d / 8) as int], (d % 8) as u8) } else { key[(d / 8) as int + i] })
}

/// Compressed form of a serialized table.
pub uninterp spec fn deflated(data: Seq<u8>) -> Seq<u8>;

/// Decompressed form of a compressed table.
pub uninterp spec fn inflated(data: Seq<u8>) -> Seq<u8>;

/// Relies on `flate2::write::DeflateEncoder` at the default level: the raw
/// DEFLATE stream of `data`; writing into a `Vec` does not fail.
#[verifier::external_body]
pub(crate) fn deflate(data: &[u8]) -> (r: Result<Vec<u8>, std::io::Error>)
    ensures
        r is Ok,
        r matches Ok(v) ==> v@ == deflated(data@),
{
    let mut encoder = flate2::write::DeflateEncoder::new(Vec::new(), flate2::Compression::default());
    std::io::Write::write_all(&mut encoder, data)?;
    encoder.finish()
}

/// Relies on `flate2::read::DeflateDecoder`: the bytes that a raw DEFLATE
/// stream decodes to; an error where the stream is malformed. A stream that
/// `flate2::write::DeflateEncoder` wrote decodes to what it was given.
#[verifier::external_body]
pub(crate) fn inflate(data: &[u8]) -> (r: Result<Vec<u8>, std::io::Error>)
    ensures
        r matches Ok(v) ==> v@ == inflated(data@),
        forall|x: Seq<u8>| r matches Ok(v) ==> (data@ == #[trigger] deflated(x) ==> v@ == x),
        (exists|x: Seq<u8>| data@ == #[trigger] deflated(x)) ==> r is Ok,
{
    let mut decoder = flate2::read::DeflateDecoder::new(data);
    let mut out = Vec::new();
    std::io::Read::read_to_end(&mut decoder, &mut out)?;
    Ok(out)
}

/// Relies on `std::io::Error::from(ErrorKind::InvalidData)`: the error that
/// reports data that cannot be stored or read back.
#[verifier::external_body]
pub(crate) fn invalid_data() -> std::io::Error {
    std::io::Error::from(std::io::ErrorKind::InvalidData)
}

/// Stored form of `key` for depth `d`.
pub fn strip_key_of(key: &[u8], d: u8) -> (r: Vec<u8>)
    requires
        d / 8 < key@.len(),
    ensures
        r@ == strip_key(key@, d as nat),
{
    let start = (d / 8) as usize;
    let mut r: Vec<u8> = Vec::new();
    r.push(key[start] & (0xffu8 >> (d % 8)));
    let mut i: usize = start + 1;
    while i < key.len()
        invariant
            start == d / 8,
            start < i <= key@.len(),
            r@.len() == i - start,
            r@[0] == keep_low(key@[start as int], (d % 8) as u8),
            forall|j: int| 1 <= j < i - start ==> r@[j] == key@[start + j],
        decreases key@.len() - i,
    {
        r.push(key[i]);
        i = i + 1;
    }
    assert(r@ =~= strip_key(key@, d as nat));
    r
}

} // verus!

verus! {

/// Stored key `e` as compared: the prefix bits of its first byte cleared.
pub open spec fn masked_entry_key(e: Seq<u8>, d: nat) -> Seq<u8> {
    Seq::new(e.len(), |i: int| if i == 0 { keep_low(e[0], (d % 8) as u8) } else { e[i] })
}

} // verus!
