//! Record-by-record aggregation of a buffer into a table.
use vstd::prelude::*;
use crate::hashmap::SimpleHashMap;
use crate::partition::{
    lemma_part_boundary, lemma_split_point_monotone, lemma_split_point_props, split_bytes_aligned,
    split_point,
};
use crate::records::{
    join, lemma_record_at_props, lemma_records_concat, lemma_records_step, parse_temperature,
    record_at, records, records_from,
};
use crate::scan::{find_byte, find_byte_scalar, lemma_first_index_props, NEWLINE};
use crate::station::{lemma_key_end_props, StationName};
use crate::summary::{
    has_room, lemma_key_stats_bounds, lemma_lookup_merge, lemma_lookup_stats_of,
    lemma_merge_with_left, lemma_merge_with_right, lemma_room, lemma_stats_of_concat,
    lemma_stats_of_push, lookup, merge_stats, stats_of, with_value, Record, Stats,
};
use crate::xor::XorHash;

verus! {

/// Distinct keys a table is sized for.
pub const EXPECTED_KEYS: usize = 1000;

/// How many buckets a table keeps per expected key.
pub const SAFETY_FACTOR: usize = 128;

/// A cursor at `pos` in `part` has read the records `done`, and the rest of
/// the part reads from `pos` on.
pub open spec fn cursor_ok(part: Seq<u8>, pos: int, done: Seq<Record>) -> bool {
    &&& 0 <= pos <= part.len()
    &&& done.len() <= pos
    &&& records(part) == join(Some(done), records_from(part, pos))
}

/// Reads the record at `*pos`, moves the cursor past it and takes its value
/// into the table. The newline is found window by window where `windowed`
/// holds, else byte by byte: either way the outcome is the same. Returns
/// `false`, with the table unchanged in content, where the record is
/// malformed.
pub fn parse_record<'a>(
    bytes: &'a [u8],
    pos: &mut usize,
    table: &mut SimpleHashMap<'a>,
    windowed: bool,
) -> (ok: bool)
    requires
        old(table).wf(),
        *old(pos) < bytes@.len(),
        record_at(bytes@, *old(pos) as int) is Some ==> has_room(
            lookup(old(table)@, record_at(bytes@, *old(pos) as int)->Some_0.0.0),
        ),
    ensures
        final(table).wf(),
        ok == record_at(bytes@, *old(pos) as int) is Some,
        ok ==> ({
            let (rec, next) = record_at(bytes@, *old(pos) as int)->Some_0;
            &&& *final(pos) == next
            &&& final(table)@ == with_value(old(table)@, rec.0, rec.1 as int)
        }),
        !ok ==> final(table)@ == old(table)@,
{
    let ghost p = *pos as int;
    proof {
        lemma_key_end_props(bytes@, p);
    }
    let pair = match StationName::parse_and_hash(bytes, pos, &XorHash) {
        Some(pair) => pair,
        None => return false,
    };
    let vstart = *pos;
    let nl = if windowed {
        find_byte(bytes, vstart, NEWLINE)
    } else {
        find_byte_scalar(bytes, vstart, NEWLINE)
    };
    proof {
        lemma_first_index_props(bytes@, vstart as int, NEWLINE);
    }
    if nl >= bytes.len() {
        return false;
    }
    let value = match parse_temperature(&bytes[vstart..nl]) {
        Some(v) => v,
        None => return false,
    };
    *pos = nl + 1;
    let s = table.get_or_default(pair);
    s.update(value);
    true
}

/// Aggregates a whole buffer with one cursor, scanning byte by byte with a
/// bounds check on each: the path for the last bytes of an input. `None`
/// where some record is malformed.
pub fn parse_records_scalar<'a>(bytes: &'a [u8]) -> (r: Option<SimpleHashMap<'a>>)
    ensures
        (r is Some) == (records(bytes@) is Some),
        r is Some ==> r->Some_0.wf() && r->Some_0@ == stats_of(records(bytes@)->Some_0),
{
    let mut table = SimpleHashMap::new(EXPECTED_KEYS, SAFETY_FACTOR);
    let mut pos: usize = 0;
    let ghost mut done: Seq<Record> = Seq::empty();
    proof {
        assert(records_from(bytes@, 0) == records(bytes@));
        lemma_join_empty(records(bytes@));
    }
    while pos < bytes.len()
        invariant
            table.wf(),
            cursor_ok(bytes@, pos as int, done),
            table@ == stats_of(done),
        decreases bytes@.len() - pos,
    {
        let ghost p = pos as int;
        proof {
            if record_at(bytes@, p) is Some {
                lemma_room(done, record_at(bytes@, p)->Some_0.0.0);
            }
        }
        if !parse_record(bytes, &mut pos, &mut table, false) {
            return None;
        }
        proof {
            let (rec, next) = record_at(bytes@, p)->Some_0;
            lemma_cursor_advance(bytes@, p, done);
            lemma_stats_of_push(done, rec);
            done = done.push(rec);
        }
    }
    proof {
        lemma_join_empty_right(done);
    }
    Some(table)
}

/// `Some(empty)` joined before a run leaves it as it is.
pub proof fn lemma_join_empty(a: Option<Seq<Record>>)
    ensures
        join(Some(Seq::empty()), a) == a,
{
    if a is Some {
        assert(Seq::<Record>::empty() + a->Some_0 =~= a->Some_0);
    }
}

/// `Some(empty)` joined after a run leaves it as it is.
pub proof fn lemma_join_empty_right(d: Seq<Record>)
    ensures
        join(Some(d), Some(Seq::empty())) == Some(d),
{
    assert(d + Seq::<Record>::empty() =~= d);
}

/// A cursor that reads one more record stays in step with the part; one
/// that meets a malformed record leaves the part without records.
pub proof fn lemma_cursor_advance(part: Seq<u8>, pos: int, done: Seq<Record>)
    requires
        cursor_ok(part, pos, done),
        pos < part.len(),
    ensures
        record_at(part, pos) is None ==> records(part) is None,
        record_at(part, pos) is Some ==> pos < record_at(part, pos)->Some_0.1 <= part.len(),
        record_at(part, pos) is Some ==> cursor_ok(
            part,
            record_at(part, pos)->Some_0.1,
            done.push(record_at(part, pos)->Some_0.0),
        ),
{
    if record_at(part, pos) is Some {
        let (rec, next) = record_at(part, pos)->Some_0;
        lemma_records_step(part, pos);
        lemma_record_at_props(part, pos);
        match records_from(part, next) {
            Some(rest) => {
                assert(done + (seq![rec] + rest) =~= done.push(rec) + rest);
            },
            None => {},
        }
    }
}


/// How many cursors one worker advances in lockstep.
pub const BATCH: usize = 4;

/// Per-key summaries of four runs of records, merged.
pub open spec fn nest4(
    d0: Seq<Record>,
    d1: Seq<Record>,
    d2: Seq<Record>,
    d3: Seq<Record>,
) -> Map<Seq<u8>, Stats> {
    merge_stats(stats_of(d0), merge_stats(stats_of(d1), merge_stats(stats_of(d2), stats_of(d3))))
}

proof fn lemma_room4(d0: Seq<Record>, d1: Seq<Record>, d2: Seq<Record>, d3: Seq<Record>, k: Seq<u8>)
    requires
        d0.len() + d1.len() + d2.len() + d3.len() < u64::MAX,
    ensures
        has_room(lookup(nest4(d0, d1, d2, d3), k)),
{
    lemma_lookup_merge(stats_of(d2), stats_of(d3), k);
    lemma_lookup_merge(stats_of(d1), merge_stats(stats_of(d2), stats_of(d3)), k);
    lemma_lookup_merge(
        stats_of(d0),
        merge_stats(stats_of(d1), merge_stats(stats_of(d2), stats_of(d3))),
        k,
    );
    lemma_lookup_stats_of(d0, k);
    lemma_lookup_stats_of(d1, k);
    lemma_lookup_stats_of(d2, k);
    lemma_lookup_stats_of(d3, k);
    lemma_key_stats_bounds(d0, k);
    lemma_key_stats_bounds(d1, k);
    lemma_key_stats_bounds(d2, k);
    lemma_key_stats_bounds(d3, k);
}

/// One more record on cursor `i` takes its value into the merged summaries.
proof fn lemma_nest4_push(
    d0: Seq<Record>,
    d1: Seq<Record>,
    d2: Seq<Record>,
    d3: Seq<Record>,
    i: int,
    x: Record,
)
    requires
        0 <= i < 4,
    ensures
        i == 0 ==> nest4(d0.push(x), d1, d2, d3) == with_value(nest4(d0, d1, d2, d3), x.0, x.1 as int),
        i == 1 ==> nest4(d0, d1.push(x), d2, d3) == with_value(nest4(d0, d1, d2, d3), x.0, x.1 as int),
        i == 2 ==> nest4(d0, d1, d2.push(x), d3) == with_value(nest4(d0, d1, d2, d3), x.0, x.1 as int),
        i == 3 ==> nest4(d0, d1, d2, d3.push(x)) == with_value(nest4(d0, d1, d2, d3), x.0, x.1 as int),
{
    let (s0, s1, s2, s3) = (stats_of(d0), stats_of(d1), stats_of(d2), stats_of(d3));
    let (k, v) = (x.0, x.1 as int);
    if i == 0 {
        lemma_stats_of_push(d0, x);
        lemma_merge_with_left(s0, merge_stats(s1, merge_stats(s2, s3)), k, v);
    } else if i == 1 {
        lemma_stats_of_push(d1, x);
        lemma_merge_with_left(s1, merge_stats(s2, s3), k, v);
        lemma_merge_with_right(s0, merge_stats(s1, merge_stats(s2, s3)), k, v);
    } else if i == 2 {
        lemma_stats_of_push(d2, x);
        lemma_merge_with_left(s2, s3, k, v);
        lemma_merge_with_right(s1, merge_stats(s2, s3), k, v);
        lemma_merge_with_right(s0, merge_stats(s1, merge_stats(s2, s3)), k, v);
    } else {
        lemma_stats_of_push(d3, x);
        lemma_merge_with_right(s2, s3, k, v);
        lemma_merge_with_right(s1, merge_stats(s2, s3), k, v);
        lemma_merge_with_right(s0, merge_stats(s1, merge_stats(s2, s3)), k, v);
    }
}

/// The four parts of a buffer read as its records, one part after another.
proof fn lemma_four_parts(s: Seq<u8>)
    ensures
        ({
            let p = |i: int| s.subrange(split_point(s, 4, i), split_point(s, 4, i + 1));
            &&& s == p(0) + (p(1) + (p(2) + p(3)))
            &&& records(s) == join(records(p(0)), join(records(p(1)), join(records(p(2)), records(p(3)))))
        }),
{
    let p = |i: int| s.subrange(split_point(s, 4, i), split_point(s, 4, i + 1));
    lemma_split_point_monotone(s, 4, 0);
    lemma_split_point_monotone(s, 4, 1);
    lemma_split_point_monotone(s, 4, 2);
    lemma_split_point_monotone(s, 4, 3);
    lemma_split_point_props(s, 4, 4);
    lemma_part_boundary(s, 4, 0);
    lemma_part_boundary(s, 4, 1);
    lemma_part_boundary(s, 4, 2);
    assert(s =~= p(0) + (p(1) + (p(2) + p(3))));
    assert(split_point(s, 4, 2) == s.len() ==> (p(2) + p(3)).len() == 0);
    assert(split_point(s, 4, 1) == s.len() ==> (p(1) + (p(2) + p(3))).len() == 0);
    lemma_records_concat(p(2), p(3));
    lemma_records_concat(p(1), p(2) + p(3));
    lemma_records_concat(p(0), p(1) + (p(2) + p(3)));
}

/// Aggregates a whole buffer: it is split into `BATCH` record-aligned
/// parts, and one cursor per part reads a record in turn, all into one
/// table, until one part is done; the others then finish alone. `None`
/// where some record is malformed.
pub fn parse_file_bytes<'a>(file_bytes: &'a [u8]) -> (r: Option<SimpleHashMap<'a>>)
    ensures
        (r is Some) == (records(file_bytes@) is Some),
        r is Some ==> r->Some_0.wf() && r->Some_0@ == stats_of(records(file_bytes@)->Some_0),
{
    let total = file_bytes.len();
    let splits = split_bytes_aligned(file_bytes, BATCH);
    let p0: &'a [u8] = splits[0];
    let p1: &'a [u8] = splits[1];
    let p2: &'a [u8] = splits[2];
    let p3: &'a [u8] = splits[3];
    proof {
        lemma_four_parts(file_bytes@);
        assert(splits@[0]@ == p0@);
    }
    let mut table = SimpleHashMap::new(EXPECTED_KEYS, SAFETY_FACTOR);
    let mut c0: usize = 0;
    let mut c1: usize = 0;
    let mut c2: usize = 0;
    let mut c3: usize = 0;
    let ghost mut d0: Seq<Record> = Seq::empty();
    let ghost mut d1: Seq<Record> = Seq::empty();
    let ghost mut d2: Seq<Record> = Seq::empty();
    let ghost mut d3: Seq<Record> = Seq::empty();
    proof {
        lemma_join_empty(records(p0@));
        lemma_join_empty(records(p1@));
        lemma_join_empty(records(p2@));
        lemma_join_empty(records(p3@));
        assert(nest4(d0, d1, d2, d3) =~= Map::<Seq<u8>, Stats>::empty());
    }
    while c0 < p0.len() && c1 < p1.len() && c2 < p2.len() && c3 < p3.len()
        invariant
            table.wf(),
            cursor_ok(p0@, c0 as int, d0),
            cursor_ok(p1@, c1 as int, d1),
            cursor_ok(p2@, c2 as int, d2),
            cursor_ok(p3@, c3 as int, d3),
            table@ == nest4(d0, d1, d2, d3),
            p0@.len() + p1@.len() + p2@.len() + p3@.len() == file_bytes@.len(),
            total == file_bytes@.len(),
            records(file_bytes@) == join(records(p0@), join(records(p1@), join(records(p2@), records(p3@)))),
            file_bytes@ == p0@ + (p1@ + (p2@ + p3@)),
        decreases (p0@.len() - c0) + (p1@.len() - c1) + (p2@.len() - c2) + (p3@.len() - c3),
    {
        let ghost at = c0 as int;
        proof {
            if record_at(p0@, at) is Some {
                lemma_room4(d0, d1, d2, d3, record_at(p0@, at)->Some_0.0.0);
            }
        }
        if !parse_record(p0, &mut c0, &mut table, true) {
            proof {
                lemma_cursor_advance(p0@, at, d0);
            }
            return None;
        }
        proof {
            let rec = record_at(p0@, at)->Some_0.0;
            lemma_cursor_advance(p0@, at, d0);
            lemma_nest4_push(d0, d1, d2, d3, 0, rec);
            d0 = d0.push(rec);
        }
        let ghost at = c1 as int;
        proof {
            if record_at(p1@, at) is Some {
                lemma_room4(d0, d1, d2, d3, record_at(p1@, at)->Some_0.0.0);
            }
        }
        if !parse_record(p1, &mut c1, &mut table, true) {
            proof {
                lemma_cursor_advance(p1@, at, d1);
            }
            return None;
        }
        proof {
            let rec = record_at(p1@, at)->Some_0.0;
            lemma_cursor_advance(p1@, at, d1);
            lemma_nest4_push(d0, d1, d2, d3, 1, rec);
            d1 = d1.push(rec);
        }
        let ghost at = c2 as int;
        proof {
            if record_at(p2@, at) is Some {
                lemma_room4(d0, d1, d2, d3, record_at(p2@, at)->Some_0.0.0);
            }
        }
        if !parse_record(p2, &mut c2, &mut table, true) {
            proof {
                lemma_cursor_advance(p2@, at, d2);
            }
            return None;
        }
        proof {
            let rec = record_at(p2@, at)->Some_0.0;
            lemma_cursor_advance(p2@, at, d2);
            lemma_nest4_push(d0, d1, d2, d3, 2, rec);
            d2 = d2.push(rec);
        }
        let ghost at = c3 as int;
        proof {
            if record_at(p3@, at) is Some {
                lemma_room4(d0, d1, d2, d3, record_at(p3@, at)->Some_0.0.0);
            }
        }
        if !parse_record(p3, &mut c3, &mut table, true) {
            proof {
                lemma_cursor_advance(p3@, at, d3);
            }
            return None;
        }
        proof {
            let rec = record_at(p3@, at)->Some_0.0;
            lemma_cursor_advance(p3@, at, d3);
            lemma_nest4_push(d0, d1, d2, d3, 3, rec);
            d3 = d3.push(rec);
        }
    }
    while c0 < p0.len()
        invariant
            table.wf(),
            cursor_ok(p0@, c0 as int, d0),
            cursor_ok(p1@, c1 as int, d1),
            cursor_ok(p2@, c2 as int, d2),
            cursor_ok(p3@, c3 as int, d3),
            table@ == nest4(d0, d1, d2, d3),
            p0@.len() + p1@.len() + p2@.len() + p3@.len() == file_bytes@.len(),
            total == file_bytes@.len(),
            records(file_bytes@) == join(records(p0@), join(records(p1@), join(records(p2@), records(p3@)))),
            file_bytes@ == p0@ + (p1@ + (p2@ + p3@)),
        decreases (p0@.len() - c0) + (p1@.len() - c1) + (p2@.len() - c2) + (p3@.len() - c3),
    {
        let ghost at = c0 as int;
        proof {
            if record_at(p0@, at) is Some {
                lemma_room4(d0, d1, d2, d3, record_at(p0@, at)->Some_0.0.0);
            }
        }
        if !parse_record(p0, &mut c0, &mut table, true) {
            proof {
                lemma_cursor_advance(p0@, at, d0);
            }
            return None;
        }
        proof {
            let rec = record_at(p0@, at)->Some_0.0;
            lemma_cursor_advance(p0@, at, d0);
            lemma_nest4_push(d0, d1, d2, d3, 0, rec);
            d0 = d0.push(rec);
        }
    }
    while c1 < p1.len()
        invariant
            table.wf(),
            cursor_ok(p0@, c0 as int, d0),
            cursor_ok(p1@, c1 as int, d1),
            cursor_ok(p2@, c2 as int, d2),
            cursor_ok(p3@, c3 as int, d3),
            table@ == nest4(d0, d1, d2, d3),
            p0@.len() + p1@.len() + p2@.len() + p3@.len() == file_bytes@.len(),
            total == file_bytes@.len(),
            records(file_bytes@) == join(records(p0@), join(records(p1@), join(records(p2@), records(p3@)))),
            file_bytes@ == p0@ + (p1@ + (p2@ + p3@)),
        decreases (p0@.len() - c0) + (p1@.len() - c1) + (p2@.len() - c2) + (p3@.len() - c3),
    {
        let ghost at = c1 as int;
        proof {
            if record_at(p1@, at) is Some {
                lemma_room4(d0, d1, d2, d3, record_at(p1@, at)->Some_0.0.0);
            }
        }
        if !parse_record(p1, &mut c1, &mut table, true) {
            proof {
                lemma_cursor_advance(p1@, at, d1);
            }
            return None;
        }
        proof {
            let rec = record_at(p1@, at)->Some_0.0;
            lemma_cursor_advance(p1@, at, d1);
            lemma_nest4_push(d0, d1, d2, d3, 1, rec);
            d1 = d1.push(rec);
        }
    }
    while c2 < p2.len()
        invariant
            table.wf(),
            cursor_ok(p0@, c0 as int, d0),
            cursor_ok(p1@, c1 as int, d1),
            cursor_ok(p2@, c2 as int, d2),
            cursor_ok(p3@, c3 as int, d3),
            table@ == nest4(d0, d1, d2, d3),
            p0@.len() + p1@.len() + p2@.len() + p3@.len() == file_bytes@.len(),
            total == file_bytes@.len(),
            records(file_bytes@) == join(records(p0@), join(records(p1@), join(records(p2@), records(p3@)))),
            file_bytes@ == p0@ + (p1@ + (p2@ + p3@)),
        decreases (p0@.len() - c0) + (p1@.len() - c1) + (p2@.len() - c2) + (p3@.len() - c3),
    {
        let ghost at = c2 as int;
        proof {
            if record_at(p2@, at) is Some {
                lemma_room4(d0, d1, d2, d3, record_at(p2@, at)->Some_0.0.0);
            }
        }
        if !parse_record(p2, &mut c2, &mut table, true) {
            proof {
                lemma_cursor_advance(p2@, at, d2);
            }
            return None;
        }
        proof {
            let rec = record_at(p2@, at)->Some_0.0;
            lemma_cursor_advance(p2@, at, d2);
            lemma_nest4_push(d0, d1, d2, d3, 2, rec);
            d2 = d2.push(rec);
        }
    }
    while c3 < p3.len()
        invariant
            table.wf(),
            cursor_ok(p0@, c0 as int, d0),
            cursor_ok(p1@, c1 as int, d1),
            cursor_ok(p2@, c2 as int, d2),
            cursor_ok(p3@, c3 as int, d3),
            table@ == nest4(d0, d1, d2, d3),
            p0@.len() + p1@.len() + p2@.len() + p3@.len() == file_bytes@.len(),
            total == file_bytes@.len(),
            records(file_bytes@) == join(records(p0@), join(records(p1@), join(records(p2@), records(p3@)))),
            file_bytes@ == p0@ + (p1@ + (p2@ + p3@)),
        decreases (p0@.len() - c0) + (p1@.len() - c1) + (p2@.len() - c2) + (p3@.len() - c3),
    {
        let ghost at = c3 as int;
        proof {
            if record_at(p3@, at) is Some {
                lemma_room4(d0, d1, d2, d3, record_at(p3@, at)->Some_0.0.0);
            }
        }
        if !parse_record(p3, &mut c3, &mut table, true) {
            proof {
                lemma_cursor_advance(p3@, at, d3);
            }
            return None;
        }
        proof {
            let rec = record_at(p3@, at)->Some_0.0;
            lemma_cursor_advance(p3@, at, d3);
            lemma_nest4_push(d0, d1, d2, d3, 3, rec);
            d3 = d3.push(rec);
        }
    }
    proof {
        lemma_join_empty_right(d0);
        lemma_join_empty_right(d1);
        lemma_join_empty_right(d2);
        lemma_join_empty_right(d3);
        lemma_stats_of_concat(d2, d3);
        lemma_stats_of_concat(d1, d2 + d3);
        lemma_stats_of_concat(d0, d1 + (d2 + d3));
    }
    Some(table)
}

} // verus!
