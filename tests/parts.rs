use onebrc::hashmap::{KeyHashPair, SimpleHashMap};
use onebrc::partition::split_bytes_aligned;
use onebrc::records::parse_temperature;
use onebrc::scan::{find_byte, find_byte_scalar};
use onebrc::station::StationName;
use onebrc::summary::StationSummary;
use onebrc::xor::{XorHash, HASH_SEED};

#[test]
fn temperatures_parse_to_tenths() {
    let good: [(&[u8], i16); 9] = [
        (b"0.0", 0),
        (b"-0.0", 0),
        (b"9.9", 99),
        (b"12.3", 123),
        (b"-2.1", -21),
        (b"-99.9", -999),
        (b"100.0", 1000),
        (b"999.9", 9999),
        (b"-999.9", -9999),
    ];
    for (s, v) in good {
        assert_eq!(parse_temperature(s), Some(v));
    }
    let bad: [&[u8]; 10] = [b"", b"1", b"1.", b".5", b"1.23", b"1234.5", b"--1.0", b"a.0", b"1.a", b"1,0"];
    for s in bad {
        assert_eq!(parse_temperature(s), None);
    }
}

#[test]
fn scanners_find_the_first_match() {
    let bytes = b"abc;defghijklmnop;qrstuvwxyz;\n";
    for from in 0..=bytes.len() {
        let expected = bytes[from..].iter().position(|&b| b == b';').map_or(bytes.len(), |p| p + from);
        assert_eq!(find_byte(bytes, from, b';'), expected);
        assert_eq!(find_byte_scalar(bytes, from, b';'), expected);
    }
    assert_eq!(find_byte(b"no match here at all", 0, b';'), 20);
}

#[test]
fn split_moves_offsets_to_record_boundaries() {
    let bytes = b"a;1.0\nb;2.0\nc;3.0\n";
    let parts = split_bytes_aligned(bytes, 2);
    assert_eq!(parts, vec![&bytes[..12], &bytes[12..]]);
    let parts = split_bytes_aligned(bytes, 1);
    assert_eq!(parts, vec![&bytes[..]]);
    let parts = split_bytes_aligned(bytes, 5);
    assert_eq!(parts.len(), 5);
    assert_eq!(parts.concat(), bytes.to_vec());
    for p in &parts[..4] {
        assert!(p.is_empty() || *p.last().unwrap() == b'\n');
    }
    let parts = split_bytes_aligned(b"", 3);
    assert!(parts.iter().all(|p| p.is_empty()));
}

#[test]
fn names_compare_by_all_their_bytes() {
    let a = StationName::new(b"AAAAAAAAAAAAAAAAX");
    let b = StationName::new(b"AAAAAAAAAAAAAAAAY");
    let c = StationName::new(b"AAAAAAAAAAAAAAAA");
    let d = StationName::new(b"AAAAAAAAAAAAAAAAX");
    assert!(a != b);
    assert!(a != c);
    assert!(c != a);
    assert!(a == d);
    assert!(StationName::new(b"A") != StationName::new(b"A\0"));
    assert_eq!(a.remainder(), b"X");
    assert!(c.remainder().is_empty());
    assert_eq!(a.to_bytes(), b"AAAAAAAAAAAAAAAAX");
}

#[test]
fn parse_and_hash_reads_one_key() {
    let bytes = b"Hamburg;12.0\nBulawayo;8.9\n";
    let mut pos = 0;
    let pair = StationName::parse_and_hash(bytes, &mut pos, &XorHash).unwrap();
    assert_eq!(pos, 8);
    assert_eq!(pair.name().to_bytes(), b"Hamburg");
    assert_eq!(pair.hash_value(), StationName::new(b"Hamburg").hash_with(&XorHash));
    let mut pos = 13;
    let long = b"A-rather-long-station-name;1.0\n";
    let pair = StationName::parse_and_hash(long, &mut 0, &XorHash).unwrap();
    assert_eq!(pair.hash_value(), StationName::new(&long[..26]).hash_with(&XorHash));
    let pair = StationName::parse_and_hash(bytes, &mut pos, &XorHash).unwrap();
    assert_eq!(pos, 22);
    assert_eq!(pair.name().to_bytes(), b"Bulawayo");
    let mut pos = 0;
    assert!(StationName::parse_and_hash(b"no-semicolon\nx;1.0\n", &mut pos, &XorHash).is_none());
    assert_eq!(pos, 0);
    assert!(StationName::parse_and_hash(b"unterminated", &mut pos, &XorHash).is_none());
}

#[test]
fn xor_hash_values() {
    let h = XorHash.build_hasher();
    let seed = HASH_SEED;
    assert_eq!(h.finish(), seed ^ (seed >> 33) ^ (seed >> 15));
    // One byte: the word is the byte itself.
    let mut h = XorHash.build_hasher();
    h.write(&[1]);
    let s = seed ^ 1;
    assert_eq!(h.finish(), s ^ (s >> 33) ^ (s >> 15));
    // Nine bytes: a full word, then a word of one byte.
    let mut h = XorHash.build_hasher();
    h.write(&[1, 2, 3, 4, 5, 6, 7, 8, 9]);
    let s = seed ^ u64::from_le_bytes([1, 2, 3, 4, 5, 6, 7, 8]) ^ 9;
    assert_eq!(h.finish(), s ^ (s >> 33) ^ (s >> 15));
    // The integer writes fold the value in as one or two words.
    let mut h = XorHash.build_hasher();
    h.write_u8(3);
    h.write_u16(5);
    h.write_u32(6);
    h.write_usize(7);
    h.write_u128((9u128 << 64) | 10);
    let s = seed ^ 3 ^ 5 ^ 6 ^ 7 ^ 9 ^ 10;
    assert_eq!(h.finish(), s ^ (s >> 33) ^ (s >> 15));
    // A name hashes as its bytes do.
    let mut h = XorHash.build_hasher();
    h.write(b"Abha");
    assert_eq!(StationName::new(b"Abha").hash_with(&XorHash), h.finish());
    let mut h2 = XorHash.build_hasher();
    StationName::new(b"Abha").hash(&mut h2);
    assert_eq!(h2.finish(), h.finish());
}

#[test]
fn summaries_update_and_merge() {
    let mut s = StationSummary::default();
    assert_eq!((s.min, s.max, s.sum, s.count), (i16::MAX, i16::MIN, 0, 0));
    s.update(53);
    s.update(-21);
    s.update(99);
    assert_eq!((s.min, s.max, s.sum, s.count), (-21, 99, 131, 3));
    let mut t = StationSummary::default();
    t.update(-100);
    assert!(s.can_merge(&t));
    s.merge(&t);
    assert_eq!((s.min, s.max, s.sum, s.count), (-100, 99, 31, 4));
    let full = StationSummary { min: 0, max: 0, sum: 0, count: u64::MAX };
    assert!(!full.can_merge(&t));
}

#[test]
fn table_sizes_and_lookups() {
    let mut t = SimpleHashMap::new(1000, 128);
    assert_eq!(t.fallback_size(), 0);
    assert_eq!(t.hasher().finish(), XorHash.build_hasher().finish());
    let name = StationName::new(b"Oslo");
    let pair = KeyHashPair::new_unchecked(name, name.hash_with(&XorHash));
    assert!(t.get(pair).is_none());
    t.get_or_default(pair).update(5);
    t.get_or_default(name).update(7);
    let s = t.get(pair).unwrap();
    assert_eq!((s.min, s.max, s.sum, s.count), (5, 7, 12, 2));
    assert_eq!(t.iter().len(), 1);
    let fresh = t.get_or_default(StationName::new(b"Bergen"));
    assert_eq!((fresh.min, fresh.max, fresh.sum, fresh.count), (i16::MAX, i16::MIN, 0, 0));
    assert_eq!(t.iter().len(), 2);
}
