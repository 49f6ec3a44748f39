use onebrc::hashmap::{Key, SimpleHashMap};
use onebrc::parse::{parse_file_bytes, parse_records_scalar};
use onebrc::pipeline::{aggregate, remainder_index};
use onebrc::station::StationName;
use onebrc::summary::StationSummary;
use onebrc::xor::XorHash;
use std::collections::BTreeMap;

fn summary_of(table: &SimpleHashMap, key: &[u8]) -> Option<StationSummary> {
    table.get(StationName::new(key).into_key_and_hash(&XorHash))
}

fn as_sorted(table: &SimpleHashMap) -> BTreeMap<Vec<u8>, (i16, i16, i128, u64)> {
    let mut out = BTreeMap::new();
    for (name, s) in table.iter() {
        let fresh = out.insert(name.to_bytes().to_vec(), (s.min, s.max, s.sum, s.count));
        assert!(fresh.is_none(), "a name listed twice");
    }
    out
}

fn mean_text(s: &StationSummary) -> String {
    format!("{:.1}", s.sum as f64 / 10.0 / s.count as f64)
}

/// A deterministic pseudo-random input of `n` records over `keys` names.
fn synthetic_input(n: usize, keys: usize, seed: u64) -> Vec<u8> {
    let mut state = seed;
    let mut next = || {
        state = state.wrapping_mul(6364136223846793005).wrapping_add(1442695040888963407);
        state >> 33
    };
    let names: Vec<String> = (0..keys)
        .map(|i| {
            let len = 1 + (i * 7) % 30;
            let mut s = format!("K{}", i);
            while s.len() < len {
                s.push((b'a' + (s.len() % 26) as u8) as char);
            }
            s
        })
        .collect();
    let mut out = Vec::new();
    for _ in 0..n {
        let name = &names[(next() as usize) % keys];
        let tenths = (next() % 19999) as i64 - 9999;
        let sign = if tenths < 0 { "-" } else { "" };
        let abs = tenths.abs();
        out.extend_from_slice(format!("{};{}{}.{}\n", name, sign, abs / 10, abs % 10).as_bytes());
    }
    out
}

/// Per-key summaries read the plain way: split lines, parse as floats.
fn naive_reference(input: &[u8]) -> BTreeMap<Vec<u8>, (i16, i16, i128, u64)> {
    let mut out: BTreeMap<Vec<u8>, (i16, i16, i128, u64)> = BTreeMap::new();
    let text = std::str::from_utf8(input).unwrap();
    for line in text.lines() {
        let (name, value) = line.split_once(';').unwrap();
        let v = (value.parse::<f64>().unwrap() * 10.0).round() as i16;
        let e = out.entry(name.as_bytes().to_vec()).or_insert((i16::MAX, i16::MIN, 0, 0));
        e.0 = e.0.min(v);
        e.1 = e.1.max(v);
        e.2 += v as i128;
        e.3 += 1;
    }
    out
}

#[test]
fn round_trip_single_record() {
    let input = b"X;12.3\n";
    let table = aggregate(input, 1).unwrap();
    let s = summary_of(&table, b"X").unwrap();
    assert_eq!((s.min, s.max, s.sum, s.count), (123, 123, 123, 1));
    assert_eq!(mean_text(&s), "12.3");
}

#[test]
fn multi_record_example() {
    let input = b"Oslo;5.3\nOslo;-2.1\nOslo;9.9\n";
    for workers in 1..=4 {
        let table = aggregate(input, workers).unwrap();
        let s = summary_of(&table, b"Oslo").unwrap();
        assert_eq!((s.min, s.max, s.sum, s.count), (-21, 99, 131, 3));
        assert_eq!(mean_text(&s), "4.4");
    }
}

#[test]
fn prefix_collision_keys_stay_apart() {
    let input = b"AAAAAAAAAAAAAAAAX;1.0\nAAAAAAAAAAAAAAAAY;2.0\nAAAAAAAAAAAAAAAA;3.0\nAAAAAAAAAAAAAAAAX;4.0\n";
    let table = aggregate(input, 1).unwrap();
    let x = summary_of(&table, b"AAAAAAAAAAAAAAAAX").unwrap();
    let y = summary_of(&table, b"AAAAAAAAAAAAAAAAY").unwrap();
    let p = summary_of(&table, b"AAAAAAAAAAAAAAAA").unwrap();
    assert_eq!((x.min, x.max, x.sum, x.count), (10, 40, 50, 2));
    assert_eq!((y.min, y.max, y.sum, y.count), (20, 20, 20, 1));
    assert_eq!((p.min, p.max, p.sum, p.count), (30, 30, 30, 1));
    assert_eq!(as_sorted(&table).len(), 3);
}

#[test]
fn overflow_store_keeps_every_key() {
    // One bucket in all, and it is the reserved one: every name overflows.
    let mut table = SimpleHashMap::new(1, 1);
    let names: Vec<String> = (0..50).map(|i| format!("station-{}", i)).collect();
    for round in 0..3i16 {
        for (i, n) in names.iter().enumerate() {
            table.get_or_default(StationName::new(n.as_bytes())).update(i as i16 + round);
        }
    }
    assert_eq!(table.fallback_size(), 50);
    for (i, n) in names.iter().enumerate() {
        let s = summary_of(&table, n.as_bytes()).unwrap();
        assert_eq!((s.min, s.max, s.sum, s.count), (i as i16, i as i16 + 2, 3 * i as i128 + 3, 3));
    }
}

#[test]
fn small_table_against_many_keys() {
    let input = synthetic_input(3000, 200, 7);
    let mut table = SimpleHashMap::new(2, 2);
    let reference = naive_reference(&input);
    let text = std::str::from_utf8(&input).unwrap();
    for line in text.lines() {
        let (name, value) = line.split_once(';').unwrap();
        let v = onebrc::records::parse_temperature(value.as_bytes()).unwrap();
        table.get_or_default(StationName::new(name.as_bytes())).update(v);
    }
    assert!(table.fallback_size() > 0);
    assert_eq!(as_sorted(&table), reference);
}

#[test]
fn cross_check_against_naive_reader() {
    for seed in 1..4 {
        let input = synthetic_input(5000, 150, seed);
        let reference = naive_reference(&input);
        let table = aggregate(&input, 3).unwrap();
        assert_eq!(as_sorted(&table), reference);
    }
}

#[test]
fn worker_count_does_not_change_results() {
    let input = synthetic_input(2000, 60, 11);
    let one = as_sorted(&aggregate(&input, 1).unwrap());
    for workers in 2..=9 {
        assert_eq!(as_sorted(&aggregate(&input, workers).unwrap()), one);
    }
}

#[test]
fn parts_merged_equal_whole() {
    let input = synthetic_input(500, 20, 5);
    let whole = as_sorted(&parse_file_bytes(&input).unwrap());
    // Cut at every tenth record boundary.
    let mut cuts = vec![0];
    let mut seen = 0;
    for (i, b) in input.iter().enumerate() {
        if *b == b'\n' {
            seen += 1;
            if seen % 10 == 0 {
                cuts.push(i + 1);
            }
        }
    }
    if *cuts.last().unwrap() != input.len() {
        cuts.push(input.len());
    }
    let mut acc = SimpleHashMap::new(16, 4);
    for w in cuts.windows(2) {
        let part = parse_records_scalar(&input[w[0]..w[1]]).unwrap();
        assert!(acc.merge_from(&part));
    }
    assert_eq!(as_sorted(&acc), whole);
}

#[test]
fn fast_and_scalar_paths_agree_at_the_end() {
    // Inputs whose last records sit within one window of the end.
    for extra in 0..20 {
        let mut input = synthetic_input(40, 9, 3 + extra as u64);
        for i in 0..extra {
            input.extend_from_slice(format!("e{};{}.{}\n", i, i % 10, i % 7).as_bytes());
        }
        let fast = as_sorted(&parse_file_bytes(&input).unwrap());
        let scalar = as_sorted(&parse_records_scalar(&input).unwrap());
        assert_eq!(fast, scalar);
        assert_eq!(fast, naive_reference(&input));
    }
}

#[test]
fn malformed_inputs_are_refused() {
    let cases: [&[u8]; 7] = [
        b"X;1.0",
        b"X1.0\n",
        b"X;1.00\n",
        b"X;abc\n",
        b"X\n;1.0\n",
        b"X;1.0\nY;\n",
        b"X;1234.5\n",
    ];
    for c in cases {
        assert!(aggregate(c, 2).is_none());
        assert!(parse_file_bytes(c).is_none());
        assert!(parse_records_scalar(c).is_none());
    }
}

#[test]
fn empty_input_has_no_keys() {
    let table = aggregate(b"", 3).unwrap();
    assert!(table.iter().is_empty());
}

#[test]
fn three_integer_digits_and_signs() {
    let input = b"a;999.9\na;-999.9\nb;-0.0\nb;0.1\n";
    let table = aggregate(input, 2).unwrap();
    let a = summary_of(&table, b"a").unwrap();
    let b = summary_of(&table, b"b").unwrap();
    assert_eq!((a.min, a.max, a.sum, a.count), (-9999, 9999, 0, 2));
    assert_eq!((b.min, b.max, b.sum, b.count), (0, 1, 1, 2));
}

#[test]
fn remainder_index_takes_last_boundary_before_guard() {
    assert_eq!(remainder_index(b"a;1.0\nb;2.0\n"), 0);
    let mut input = Vec::new();
    for _ in 0..40 {
        input.extend_from_slice(b"ab;1.0\n");
    }
    // 280 bytes; the guard starts at 152; the last newline before it ends at 147.
    assert_eq!(input.len(), 280);
    assert_eq!(remainder_index(&input), 147);
}

#[test]
fn merge_from_refuses_an_overflowing_count() {
    let mut a = SimpleHashMap::new(8, 2);
    {
        let s = a.get_or_default(StationName::new(b"K"));
        s.min = 1;
        s.max = 1;
        s.sum = 5;
        s.count = u64::MAX - 1;
    }
    let mut b = SimpleHashMap::new(8, 2);
    b.get_or_default(StationName::new(b"K")).update(3);
    b.get_or_default(StationName::new(b"K")).update(4);
    assert!(!a.merge_from(&b));
    let s = summary_of(&a, b"K").unwrap();
    assert_eq!((s.min, s.max, s.sum, s.count), (1, 1, 5, u64::MAX - 1));
    let mut c = SimpleHashMap::new(8, 2);
    c.get_or_default(StationName::new(b"K")).update(-7);
    assert!(a.merge_from(&c));
    let s = summary_of(&a, b"K").unwrap();
    assert_eq!((s.min, s.max, s.sum, s.count), (-7, 1, -2, u64::MAX));
}
