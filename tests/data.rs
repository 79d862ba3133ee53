use hibp_index::depth::Depth;
use hibp_index::hex::{parse_hex, HexError, HexRange};
use hibp_index::key_type::{KeyType, KnownKeyType};
use hibp_index::keys::{NT, SHA1};
use hibp_index::prefix::{Prefix, Suffix};
use hibp_index::bits::{prefix_of, suffix_of, unsplit_of};

#[test]
fn prefix_suffix_unsplit_all_boundaries() {
    let key: Vec<u8> = (0u8..20).map(|i| i.wrapping_mul(37).wrapping_add(0x5a)).collect();
    for n in 0..=160u32 {
        let p = Prefix::new_from_key(&key, n);
        let s = Suffix::new_from_key(&key, n);
        assert_eq!(p.unsplit(&s), key, "bits {}", n);
    }
}

#[test]
fn prefix_clears_unused_bits() {
    let key = [0xffu8; 4];
    assert_eq!(prefix_of(&key, 4, 12), vec![0xff, 0xf0, 0, 0]);
    assert_eq!(suffix_of(&key, 12), vec![0, 0x0f, 0xff, 0xff]);
    assert_eq!(unsplit_of(&[0xff, 0xf0, 0, 0], &[0, 0x0f, 0xff, 0xff]), key.to_vec());
    let p = Prefix::new_from_raw(&[0xab, 0xcd], 4, 9);
    assert_eq!(p.key(), &[0xab, 0x80, 0, 0]);
    assert_eq!(p.bits(), 9);
}

#[test]
fn suffix_from_raw() {
    let s = Suffix::new_from_suffix_raw(&[0xff, 0x12], 12);
    assert_eq!(s.key(), &[0, 0x0f, 0x12]);
    assert_eq!(s.prefix_bits(), 12);
}

#[test]
fn hex_ranges() {
    let k = [0x12u8, 0x34, 0x56, 0x78];
    assert_eq!(HexRange::new(&k, 0, 32).as_str(), "12345678");
    assert_eq!(HexRange::new(&k, 4, 32).as_str(), "2345678");
    assert_eq!(HexRange::new(&k, 0, 20).as_str(), "12345");
    assert_eq!(HexRange::new(&k, 5, 19).as_str(), "2345");
    assert_eq!(HexRange::new(&k, 8, 8).as_str(), "");
    let p = Prefix::new_from_key(&k, 12);
    assert_eq!(p.hex().as_str(), "123");
    let s = Suffix::new_from_key(&k, 12);
    assert_eq!(s.hex().as_str(), "45678");
}

#[test]
fn hex_range_parse_inverse() {
    let k = [0xdeu8, 0xad, 0xbe, 0xef];
    for s in (0..=32u32).step_by(4) {
        for e in (s..=32).step_by(4) {
            let text = HexRange::new(&k, s, e).as_str();
            let parsed = parse_hex(text.as_bytes(), 4, (s / 4) as usize).unwrap();
            for j in 0..8u32 {
                let byte = parsed[(j / 2) as usize];
                let got = if j % 2 == 0 { byte >> 4 } else { byte & 0xf };
                let orig = k[(j / 2) as usize];
                let want = if j % 2 == 0 { orig >> 4 } else { orig & 0xf };
                if j >= s / 4 && j < e / 4 {
                    assert_eq!(got, want);
                } else {
                    assert_eq!(got, 0);
                }
            }
        }
    }
}

#[test]
fn hex_parse_errors() {
    assert_eq!(parse_hex(b"12345", 2, 0), Err(HexError::InvalidStringLength));
    assert_eq!(parse_hex(b"1g", 2, 0), Err(HexError::InvalidHexCharacter { c: b'g', index: 1 }));
    assert_eq!(parse_hex(b"AbCd", 2, 0), Ok(vec![0xab, 0xcd]));
}

#[test]
fn unsplit_from_hex_suffix_works() {
    let k = [0x12u8, 0x34, 0x56, 0x78];
    let p = Prefix::new_from_key(&k, 12);
    assert_eq!(p.unsplit_from_hex_suffix("45678").unwrap(), k.to_vec());
    assert_eq!(p.unsplit_from_hex_suffix("f5678").unwrap(), vec![0x12, 0x3f, 0x56, 0x78]);
    let p10 = Prefix::new_from_key(&k, 10);
    assert_eq!(p10.unsplit_from_hex_suffix("f45678").unwrap(), k.to_vec());
    assert_eq!(p.unsplit_from_hex_suffix("4567"), Err(HexError::InvalidStringLength));
    assert!(matches!(p.unsplit_from_hex_suffix("4567x"), Err(HexError::InvalidHexCharacter { .. })));
    let whole_byte = Prefix::new_from_key(&k, 8);
    assert_eq!(whole_byte.unsplit_from_hex_suffix("345678").unwrap(), k.to_vec());
    let full = Prefix::new_from_key(&k, 32);
    assert_eq!(full.unsplit_from_hex_suffix("").unwrap(), k.to_vec());
    assert_eq!(full.unsplit_from_hex_suffix("0"), Err(HexError::InvalidStringLength));
}

#[test]
fn lim_prefix_behaviour() {
    let d = Depth::new(12).unwrap();
    let key = [0xabu8, 0xcd, 0xef, 0x01, 0x23];
    let p = d.prefix(&key);
    assert_eq!(p.index(), 0xabc);
    assert_eq!(p.raw_bytes(), [0xab, 0xc0, 0, 0]);
    assert_eq!(p.hex().as_str(), "abc");
    let mut k = vec![0u8, 0x0d, 0xef, 0x01, 0x23];
    p.set_key_prefix(&mut k);
    assert_eq!(k, key.to_vec());
    let rebuilt = p.read_key_from_suffix_hex(b"def0123", 5).unwrap();
    assert_eq!(rebuilt, key.to_vec());
    let mut buf = vec![0u8; 5];
    p.read_suffix_from_hex(b"def0123", &mut buf).unwrap();
    assert_eq!(buf, key.to_vec());
    let mut range = d.prefix_range(&key, 8);
    assert_eq!(range.len(), 16);
    let first = range.next().unwrap();
    assert_eq!(first.index(), 0xab0);
    let last = range.next_back().unwrap();
    assert_eq!(last.index(), 0xabf);
    assert_eq!(range.len(), 14);
    let single = d.prefix_range(&key, 20);
    assert_eq!(single.len(), 1);
}

#[test]
fn key_types() {
    assert!(matches!(KeyType::from_str("SHA-1"), Ok(KeyType::Known(KnownKeyType::SHA1))));
    assert!(matches!(KeyType::from_str("NTLM"), Ok(KeyType::Known(KnownKeyType::NTLM))));
    let other = KeyType::from_str("BLAKE3-256").unwrap();
    assert!(other.as_known().is_none());
    assert_eq!(other.name(), "BLAKE3-256");
    assert!(KeyType::from_str("has space").is_err());
    assert!(KeyType::from_str("tab\t").is_err());
    assert!(KeyType::from_str("sha-1").unwrap().as_known().is_none());
    assert_eq!(KnownKeyType::SHA1.name(), "SHA-1");
    assert_eq!(KnownKeyType::NTLM.name(), "NTLM");
    assert_eq!(KnownKeyType::SHA1.key_bytes_length(), 20);
    assert_eq!(KnownKeyType::NTLM.key_bytes_length(), 16);
    assert!(matches!(KeyType::from_static("NTLM"), Ok(KeyType::Known(KnownKeyType::NTLM))));
}

#[test]
fn sha1_hash_known_value() {
    let h = SHA1::hash(b"abc");
    assert_eq!(h.hex().as_str(), "a9993e364706816aba3e25717850c26c9cd0d89d");
    assert_eq!(SHA1::from_str("A9993E364706816ABA3E25717850C26C9CD0D89D").unwrap(), h);
}

#[test]
fn nt_hash_known_value() {
    let h = NT::hash("password");
    assert_eq!(h.hex().as_str(), "8846f7eaee8fb117ad06bdd830b7586c");
    assert_eq!(NT::from_str("8846F7EAEE8FB117AD06BDD830B7586C").unwrap(), h);
    assert_eq!(NT::hash("").hex().as_str(), "31d6cfe0d16ae931b73c59d7e0c089c0");
}

#[test]
fn hash_parse_errors() {
    assert_eq!(SHA1::from_str("abc"), Err(HexError::InvalidStringLength));
    assert!(matches!(NT::from_str("zz46f7eaee8fb117ad06bdd830b7586c"), Err(HexError::InvalidHexCharacter { .. })));
}

#[test]
fn empty_bit_range_renders_nothing() {
    let k = [0x12u8, 0x34];
    assert_eq!(HexRange::new(&k, 5, 5).as_str(), "");
    assert_eq!(HexRange::new(&k, 3, 3).as_str(), "");
    assert_eq!(HexRange::new(&k, 5, 6).as_str(), "2");
}

#[test]
fn suffix_hex_must_have_exact_length() {
    let d = Depth::new(20).unwrap();
    let key = [0x11u8; 16];
    let p = d.prefix(&key);
    assert_eq!(p.read_key_from_suffix_hex(b"", 16), Err(HexError::InvalidStringLength));
    assert_eq!(p.read_key_from_suffix_hex(b"1111", 16), Err(HexError::InvalidStringLength));
    let full = p.read_key_from_suffix_hex(b"111111111111111111111111111", 16).unwrap();
    assert_eq!(full, key.to_vec());
}
