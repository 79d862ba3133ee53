//! Key types: a name of ASCII graphic characters and, when known, a length.
use vstd::prelude::*;
use vstd::utf8::encode_utf8;
use vstd::string::StringSliceAdditionalSpecFns;
use crate::errors::KeyTypeParseError;
use crate::header::{string_from_utf8, string_from_utf8_lossy};
use vstd::utf8::valid_utf8;

verus! {

/// Byte `b` is an ASCII graphic character.
pub open spec fn is_graphic(b: u8) -> bool {
    0x21 <= b <= 0x7e
}

/// Every byte of `s` is an ASCII graphic character.
pub open spec fn all_graphic(s: Seq<u8>) -> bool {
    forall|i: int| 0 <= i < s.len() ==> is_graphic(#[trigger] s[i])
}

/// "SHA-1"
pub open spec fn sha1_name() -> Seq<u8> {
    seq![0x53u8, 0x48, 0x41, 0x2d, 0x31]
}

/// "NTLM"
pub open spec fn ntlm_name() -> Seq<u8> {
    seq![0x4eu8, 0x54, 0x4c, 0x4d]
}

/// Key types this library builds indices for.
#[derive(Clone, Copy, PartialEq, Eq, Structural, Hash, Debug)]
pub enum KnownKeyType {
    /// SHA-1 hash, 20 bytes.
    SHA1,
    /// NT hash (MD4 of the UTF-16LE password), 16 bytes; stored under the name "NTLM".
    NTLM,
}

impl KnownKeyType {
    /// Byte length of the type's keys.
    pub open spec fn spec_len(self) -> nat {
        match self {
            KnownKeyType::SHA1 => 20,
            KnownKeyType::NTLM => 16,
        }
    }

    /// Name of the type as bytes.
    pub open spec fn spec_name(self) -> Seq<u8> {
        match self {
            KnownKeyType::SHA1 => sha1_name(),
            KnownKeyType::NTLM => ntlm_name(),
        }
    }

    /// The name holds no newline.
    pub proof fn lemma_name_no_newline(self)
        ensures
            crate::header::no_newline(self.spec_name()),
    {
        let n = self.spec_name();
        assert forall|i: int| 0 <= i < n.len() implies #[trigger] n[i] != 0x0au8 by {
            if i == 0 {
            } else if i == 1 {
            } else if i == 2 {
            } else if i == 3 {
            } else {
            }
        }
    }

    /// Fixed length of keys of this type.
    pub fn key_bytes_length(self) -> (r: u8)
        ensures
            r == self.spec_len(),
    {
        match self {
            KnownKeyType::SHA1 => 20,
            KnownKeyType::NTLM => 16,
        }
    }

    /// Name of the type, as stored in file headers.
    pub fn name(self) -> (r: &'static str)
        ensures
            encode_utf8(r@) == self.spec_name(),
    {
        proof {
            reveal_strlit("SHA-1");
            reveal_strlit("NTLM");
        }
        let r = match self {
            KnownKeyType::SHA1 => "SHA-1",
            KnownKeyType::NTLM => "NTLM",
        };
        proof {
            vstd::string::is_ascii_spec_bytes(r);
            assert(encode_utf8(r@) =~= self.spec_name());
        }
        r
    }

    /// Name of the type as bytes.
    pub fn name_bytes(self) -> (r: Vec<u8>)
        ensures
            r@ == self.spec_name(),
    {
        let r = match self {
            KnownKeyType::SHA1 => vec![0x53u8, 0x48, 0x41, 0x2d, 0x31],
            KnownKeyType::NTLM => vec![0x4eu8, 0x54, 0x4c, 0x4d],
        };
        assert(r@ =~= self.spec_name());
        r
    }

    /// The general key type for this known one.
    pub fn as_key_type(self) -> (r: KeyType)
        ensures
            r == KeyType::Known(self),
    {
        KeyType::Known(self)
    }
}

/// A key type: one of the known ones, or another name of ASCII graphic characters.
#[derive(Clone, Debug)]
pub enum KeyType {
    Known(KnownKeyType),
    Unknown(String),
}

/// The known type named `name`, if any.
pub open spec fn known_by_name(name: Seq<u8>) -> Option<KnownKeyType> {
    if name == sha1_name() {
        Some(KnownKeyType::SHA1)
    } else if name == ntlm_name() {
        Some(KnownKeyType::NTLM)
    } else {
        None
    }
}

fn bytes_eq(a: &[u8], b: &[u8]) -> (r: bool)
    ensures
        r == (a@ == b@),
{
    if a.len() != b.len() {
        return false;
    }
    let mut i: usize = 0;
    while i < a.len()
        invariant
            i <= a@.len(),
            a@.len() == b@.len(),
            forall|j: int| 0 <= j < i ==> a@[j] == b@[j],
        decreases a@.len() - i,
    {
        if a[i] != b[i] {
            return false;
        }
        i = i + 1;
    }
    assert(a@ =~= b@);
    true
}

impl KeyType {
    /// Name of the key type as bytes.
    pub open spec fn spec_name(&self) -> Seq<u8> {
        match self {
            KeyType::Known(k) => k.spec_name(),
            KeyType::Unknown(s) => encode_utf8(s@),
        }
    }

    /// The known type of that name, if the name is known.
    pub fn from_known(name: &str) -> (r: Option<KnownKeyType>)
        ensures
            r == known_by_name(name.spec_bytes()),
    {
        let b = name.as_bytes();
        let sha1 = KnownKeyType::SHA1.name_bytes();
        let ntlm = KnownKeyType::NTLM.name_bytes();
        if bytes_eq(b, sha1.as_slice()) {
            Some(KnownKeyType::SHA1)
        } else if bytes_eq(b, ntlm.as_slice()) {
            Some(KnownKeyType::NTLM)
        } else {
            None
        }
    }

    /// Known key type, if the type is known.
    pub fn as_known(&self) -> (r: Option<KnownKeyType>)
        ensures
            r == (match self {
                KeyType::Known(k) => Some(*k),
                KeyType::Unknown(_) => None::<KnownKeyType>,
            }),
    {
        match self {
            KeyType::Known(k) => Some(*k),
            KeyType::Unknown(_) => None,
        }
    }

    /// Accept a name made of ASCII graphic characters only.
    pub fn check(name: &str) -> (r: Result<(), KeyTypeParseError>)
        ensures
            r is Ok <==> all_graphic(name.spec_bytes()),
            r matches Err(KeyTypeParseError::Invalid(s)) ==> s@ == name@,
    {
        let b = name.as_bytes();
        let mut i: usize = 0;
        while i < b.len()
            invariant
                i <= b@.len(),
                b@ == name.spec_bytes(),
                forall|j: int| 0 <= j < i ==> is_graphic(#[trigger] b@[j]),
            decreases b@.len() - i,
        {
            if b[i] < 0x21 || b[i] > 0x7e {
                return Err(KeyTypeParseError::Invalid(name.to_owned()));
            }
            i = i + 1;
        }
        Ok(())
    }

    /// Parse a key type name: a known name, else any ASCII graphic name.
    pub fn from_str(name: &str) -> (r: Result<KeyType, KeyTypeParseError>)
        ensures
            known_by_name(name.spec_bytes()) matches Some(k) ==> r matches Ok(t) && t == KeyType::Known(k),
            known_by_name(name.spec_bytes()) is None ==> (r is Ok <==> all_graphic(name.spec_bytes())),
            r matches Ok(t) ==> t.spec_name() == name.spec_bytes(),
            r matches Err(KeyTypeParseError::Invalid(s)) ==> s@ == name@,
    {
        if let Some(k) = Self::from_known(name) {
            let _ = k.name_bytes();
            return Ok(KeyType::Known(k));
        }
        match Self::check(name) {
            Ok(()) => {},
            Err(e) => return Err(e),
        }
        let s = name.to_owned();
        Ok(KeyType::Unknown(s))
    }

    /// Parse a key type name that lives for the whole program.
    pub fn from_static(name: &'static str) -> (r: Result<KeyType, KeyTypeParseError>)
        ensures
            known_by_name(name.spec_bytes()) matches Some(k) ==> r matches Ok(t) && t == KeyType::Known(k),
            known_by_name(name.spec_bytes()) is None ==> (r is Ok <==> all_graphic(name.spec_bytes())),
            r matches Ok(t) ==> t.spec_name() == name.spec_bytes(),
            r matches Err(KeyTypeParseError::Invalid(s)) ==> s@ == name@,
    {
        Self::from_str(name)
    }

    /// Name of the key type.
    pub fn name(&self) -> (r: String)
        ensures
            encode_utf8(r@) == self.spec_name(),
    {
        match self {
            KeyType::Known(k) => k.name().to_owned(),
            KeyType::Unknown(s) => s.clone(),
        }
    }

    /// Whether both name the same type.
    pub fn same_as(&self, other: &KeyType) -> (r: bool)
        requires
            self.wf(),
            other.wf(),
        ensures
            r == (self.spec_name() == other.spec_name()),
    {
        let a = self.name();
        let b = other.name();
        bytes_eq(a.as_str().as_bytes(), b.as_str().as_bytes())
    }

    /// Parse a key type name given as bytes: a known name, else any name
    /// of ASCII graphic characters.
    pub fn from_bytes(name: &[u8]) -> (r: Result<KeyType, KeyTypeParseError>)
        ensures
            known_by_name(name@) matches Some(k) ==> r matches Ok(t) && t == KeyType::Known(k),
            known_by_name(name@) is None ==> (!all_graphic(name@) ==> r is Err),
            known_by_name(name@) is None ==> (all_graphic(name@) ==> r is Ok),
            r matches Ok(t) ==> t.spec_name() == name@ && t.wf(),
    {
        proof {
            if all_graphic(name@) {
                assert forall|i: int| 0 <= i < name@.len() implies #[trigger] name@[i] < 0x80 by {
                    assert(is_graphic(name@[i]));
                }
                crate::hex::lemma_ascii_valid_utf8(name@);
            }
        }
        let sha1 = KnownKeyType::SHA1.name_bytes();
        let ntlm = KnownKeyType::NTLM.name_bytes();
        if bytes_eq(name, sha1.as_slice()) {
            return Ok(KeyType::Known(KnownKeyType::SHA1));
        }
        if bytes_eq(name, ntlm.as_slice()) {
            return Ok(KeyType::Known(KnownKeyType::NTLM));
        }
        let mut i: usize = 0;
        while i < name.len()
            invariant
                i <= name@.len(),
                forall|j: int| 0 <= j < i ==> is_graphic(#[trigger] name@[j]),
            decreases name@.len() - i,
        {
            if name[i] < 0x21 || name[i] > 0x7e {
                return Err(KeyTypeParseError::Invalid(string_from_utf8_lossy(name)));
            }
            i = i + 1;
        }
        match string_from_utf8(name) {
            Some(s) => Ok(KeyType::Unknown(s)),
            None => Err(KeyTypeParseError::Invalid(string_from_utf8_lossy(name))),
        }
    }

    /// An unknown type never carries a known name.
    pub open spec fn wf(&self) -> bool {
        match self {
            KeyType::Known(_) => true,
            KeyType::Unknown(s) => known_by_name(encode_utf8(s@)) is None,
        }
    }
}

/// Key types under the name of the content they index.
pub type ContentType = KeyType;

/// Known key types under the name of the content they index.
pub type KnownContentType = KnownKeyType;

/// Error when parsing a content type name.
pub type ContentTypeParseError = KeyTypeParseError;

impl KnownKeyType {
    /// The general content type for this known one.
    pub fn as_content_type(self) -> (r: KeyType)
        ensures
            r == KeyType::Known(self),
    {
        KeyType::Known(self)
    }
}

} // verus!
