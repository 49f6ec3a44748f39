//! The whole run: the input split among workers, each part aggregated on its
//! own, the partial tables merged, and the last bytes read by the scalar
//! path.
use vstd::prelude::*;
use crate::hashmap::SimpleHashMap;
use crate::parse::{parse_file_bytes, parse_records_scalar, EXPECTED_KEYS, SAFETY_FACTOR};
use crate::partition::{
    lemma_part_boundary, lemma_split_point_monotone, lemma_split_point_props, split_bytes_aligned,
    split_point,
};
use crate::records::{
    ends_at_boundary, join, lemma_records_concat, lemma_records_len, records,
};
use crate::scan::NEWLINE;
use crate::summary::{
    lemma_key_stats_bounds, lemma_key_stats_concat, lemma_lookup_stats_of, lemma_stats_of_concat,
    lookup, merge_stats, stats_combine, stats_fit, stats_of, Record, Stats,
};

verus! {

/// How far before the end of the input the scalar path takes over.
pub const TAIL_GUARD: usize = 128;

/// The last record boundary at or before `end`: just past the last newline
/// before it, or the start.
pub open spec fn last_boundary(s: Seq<u8>, end: int) -> int
    decreases end,
{
    if end <= 0 {
        0
    } else if s[end - 1] == NEWLINE {
        end
    } else {
        last_boundary(s, end - 1)
    }
}

/// Where the scalar path starts: the last record boundary at least
/// `TAIL_GUARD` bytes before the end, or the start for a short input.
pub open spec fn tail_start(s: Seq<u8>) -> int {
    if s.len() > TAIL_GUARD {
        last_boundary(s, s.len() - TAIL_GUARD)
    } else {
        0
    }
}

proof fn lemma_last_boundary(s: Seq<u8>, end: int)
    requires
        0 <= end <= s.len(),
    ensures
        0 <= last_boundary(s, end) <= end,
        ends_at_boundary(s.take(last_boundary(s, end))),
    decreases end,
{
    if end > 0 && s[end - 1] != NEWLINE {
        lemma_last_boundary(s, end - 1);
    }
    let b = last_boundary(s, end);
    if b > 0 {
        assert(s.take(b)[b - 1] == s[b - 1]);
    }
}

/// The start of the bytes that the scalar path reads.
pub fn remainder_index(bytes: &[u8]) -> (r: usize)
    ensures
        r == tail_start(bytes@),
        r <= bytes@.len(),
        ends_at_boundary(bytes@.take(r as int)),
{
    proof {
        lemma_last_boundary(bytes@, 0);
        if bytes@.len() > TAIL_GUARD {
            lemma_last_boundary(bytes@, bytes@.len() - TAIL_GUARD);
        }
    }
    if bytes.len() <= TAIL_GUARD {
        return 0;
    }
    let mut end = bytes.len() - TAIL_GUARD;
    while end > 0 && bytes[end - 1] != NEWLINE
        invariant
            end <= bytes@.len(),
            last_boundary(bytes@, end as int) == tail_start(bytes@),
        decreases end,
    {
        end = end - 1;
    }
    end
}

/// From part `i` on, the parts read as part `i` and then the rest.
proof fn lemma_rest_of_parts(h: Seq<u8>, n: int, i: int)
    requires
        0 <= i < n,
    ensures
        0 <= split_point(h, n, i) <= split_point(h, n, i + 1) <= h.len(),
        records(h.subrange(split_point(h, n, i), h.len() as int)) == join(
            records(h.subrange(split_point(h, n, i), split_point(h, n, i + 1))),
            records(h.subrange(split_point(h, n, i + 1), h.len() as int)),
        ),
{
    let a = split_point(h, n, i);
    let b = split_point(h, n, i + 1);
    lemma_split_point_monotone(h, n, i);
    lemma_split_point_props(h, n, i);
    lemma_split_point_props(h, n, i + 1);
    lemma_part_boundary(h, n, i);
    let rest = h.subrange(b, h.len() as int);
    assert(h.subrange(a, h.len() as int) =~= h.subrange(a, b) + rest);
    if b == h.len() {
        assert(rest.len() == 0);
    }
    lemma_records_concat(h.subrange(a, b), rest);
}

/// Merges the table of a further run of records into the table of those
/// before it. The merge never overflows: each count stays within the
/// number of records, and so within the input's length.
fn merge_partial<'a>(
    acc: &mut SimpleHashMap<'a>,
    part: &SimpleHashMap<'a>,
    done: Ghost<Seq<Record>>,
    more: Ghost<Seq<Record>>,
)
    requires
        old(acc).wf(),
        part.wf(),
        old(acc)@ == stats_of(done@),
        part@ == stats_of(more@),
        done@.len() + more@.len() <= usize::MAX,
    ensures
        final(acc).wf(),
        final(acc)@ == stats_of(done@ + more@),
{
    proof {
        assert forall|k: Seq<u8>| part@.contains_key(k) implies stats_fit(
            #[trigger] stats_combine(lookup(acc@, k), part@[k]),
        ) by {
            lemma_lookup_stats_of(done@, k);
            lemma_lookup_stats_of(more@, k);
            lemma_key_stats_concat(done@, more@, k);
            lemma_key_stats_bounds(done@ + more@, k);
        }
        lemma_stats_of_concat(done@, more@);
    }
    let ok = acc.merge_from(part);
    assert(ok);
}

/// Aggregates a whole input as the workers would: all but its last bytes
/// split into `workers` record-aligned parts, each aggregated into a table
/// of its own, the tables merged; the last bytes read by the scalar path
/// and merged too. The result is the same for every number of workers.
/// `None` where some record is malformed.
pub fn aggregate<'a>(bytes: &'a [u8], workers: usize) -> (r: Option<SimpleHashMap<'a>>)
    requires
        workers >= 1,
    ensures
        (r is Some) == (records(bytes@) is Some),
        r is Some ==> r->Some_0.wf() && r->Some_0@ == stats_of(records(bytes@)->Some_0),
{
    let total = bytes.len();
    let split = remainder_index(bytes);
    let head = &bytes[0..split];
    let tail = &bytes[split..total];
    proof {
        assert(head@ == bytes@.take(split as int));
        assert(bytes@ =~= head@ + tail@);
        lemma_records_concat(head@, tail@);
    }
    let parts = split_bytes_aligned(head, workers);
    let ghost n = workers as int;
    let ghost h = head@;
    let mut acc = SimpleHashMap::new(EXPECTED_KEYS, SAFETY_FACTOR);
    let ghost mut done: Seq<Record> = Seq::empty();
    proof {
        lemma_split_point_props(h, n, 0);
        assert(h.subrange(split_point(h, n, 0), h.len() as int) =~= h);
        match records(h) {
            Some(x) => {
                assert(Seq::<Record>::empty() + x =~= x);
            },
            None => {},
        }
        assert(stats_of(done) =~= Map::<Seq<u8>, Stats>::empty());
    }
    let mut i: usize = 0;
    while i < workers
        invariant
            i <= workers,
            n == workers,
            h == head@,
            total == bytes@.len(),
            h.len() <= total,
            parts@.len() == workers,
            forall|j: int|
                0 <= j < workers ==> (#[trigger] parts@[j])@ == h.subrange(
                    split_point(h, n, j),
                    split_point(h, n, j + 1),
                ),
            acc.wf(),
            acc@ == stats_of(done),
            done.len() <= split_point(h, n, i as int),
            records(h) == join(
                Some(done),
                records(h.subrange(split_point(h, n, i as int), h.len() as int)),
            ),
            records(bytes@) == join(records(h), records(tail@)),
        decreases workers - i,
    {
        let ghost a = split_point(h, n, i as int);
        let ghost b = split_point(h, n, i + 1);
        proof {
            lemma_rest_of_parts(h, n, i as int);
        }
        let part: &'a [u8] = parts[i];
        match parse_file_bytes(part) {
            None => {
                return None;
            },
            Some(t) => {
                let ghost more = records(part@)->Some_0;
                proof {
                    lemma_records_len(part@, 0);
                }
                merge_partial(&mut acc, &t, Ghost(done), Ghost(more));
                proof {
                    lemma_records_len(h.subrange(a, b), 0);
                    let rest = h.subrange(b, h.len() as int);
                    match records(rest) {
                        Some(y) => {
                            assert(done + (more + y) =~= (done + more) + y);
                        },
                        None => {},
                    }
                    done = done + more;
                }
            },
        }
        i = i + 1;
    }
    proof {
        lemma_split_point_props(h, n, n);
        assert(h.subrange(h.len() as int, h.len() as int).len() == 0);
        assert(done + Seq::<Record>::empty() =~= done);
    }
    match parse_records_scalar(tail) {
        None => None,
        Some(t) => {
            let ghost more = records(tail@)->Some_0;
            proof {
                lemma_records_len(tail@, 0);
                lemma_records_len(h, 0);
            }
            merge_partial(&mut acc, &t, Ghost(done), Ghost(more));
            Some(acc)
        },
    }
}

/// The parts one after another.
pub open spec fn concat_parts(parts: Seq<Seq<u8>>) -> Seq<u8>
    decreases parts.len(),
{
    if parts.len() == 0 {
        Seq::empty()
    } else {
        parts[0] + concat_parts(parts.drop_first())
    }
}

/// Each part aggregated on its own, and the per-key summaries merged;
/// `None` where some part holds a malformed record.
pub open spec fn parts_stats(parts: Seq<Seq<u8>>) -> Option<Map<Seq<u8>, Stats>>
    decreases parts.len(),
{
    if parts.len() == 0 {
        Some(Map::empty())
    } else {
        match (records(parts[0]), parts_stats(parts.drop_first())) {
            (Some(r), Some(m)) => Some(merge_stats(stats_of(r), m)),
            _ => None,
        }
    }
}

/// Partition invariance: however an input is cut into contiguous parts at
/// record boundaries, aggregating each part on its own and merging the
/// results gives exactly the per-key summaries of the whole input, and
/// fails exactly where reading the whole input fails.
pub proof fn lemma_partition_invariance(parts: Seq<Seq<u8>>)
    requires
        forall|i: int| 0 <= i < parts.len() - 1 ==> ends_at_boundary(#[trigger] parts[i]),
    ensures
        (parts_stats(parts) is Some) == (records(concat_parts(parts)) is Some),
        parts_stats(parts) is Some ==> parts_stats(parts)->Some_0 == stats_of(
            records(concat_parts(parts))->Some_0,
        ),
    decreases parts.len(),
{
    if parts.len() == 0 {
        assert(stats_of(Seq::<Record>::empty()) =~= Map::<Seq<u8>, Stats>::empty());
    } else {
        let rest = parts.drop_first();
        assert forall|i: int| 0 <= i < rest.len() - 1 implies ends_at_boundary(#[trigger] rest[i]) by {
            assert(rest[i] == parts[i + 1]);
        }
        lemma_partition_invariance(rest);
        if parts.len() == 1 {
            assert(concat_parts(rest).len() == 0);
        }
        lemma_records_concat(parts[0], concat_parts(rest));
        match (records(parts[0]), records(concat_parts(rest))) {
            (Some(r0), Some(rr)) => {
                lemma_stats_of_concat(r0, rr);
            },
            _ => {},
        }
    }
}

} // verus!
