//! Running statistics of one key, and what they are over a run of records.
//!
//! Values are fixed-point integers scaled by ten (one decimal digit), so the
//! sum accumulates without drift; the mean is taken only when reporting.
use vstd::prelude::*;

verus! {

/// Mathematical value of a summary: minimum, maximum, sum and count.
pub struct Stats {
    pub min: int,
    pub max: int,
    pub sum: int,
    pub count: nat,
}

/// A summary before any value: minimum at the largest and maximum at the
/// smallest representable value, so the first value replaces both.
pub open spec fn empty_stats() -> Stats {
    Stats { min: i16::MAX as int, max: i16::MIN as int, sum: 0, count: 0 }
}

pub open spec fn stats_update(s: Stats, v: int) -> Stats {
    Stats {
        min: if v < s.min { v } else { s.min },
        max: if v > s.max { v } else { s.max },
        sum: s.sum + v,
        count: s.count + 1,
    }
}

/// Pointwise combination of two summaries of disjoint runs of values.
pub open spec fn stats_combine(a: Stats, b: Stats) -> Stats {
    Stats {
        min: if b.min < a.min { b.min } else { a.min },
        max: if b.max > a.max { b.max } else { a.max },
        sum: a.sum + b.sum,
        count: a.count + b.count,
    }
}

/// One record: a key and its value in tenths.
pub type Record = (Seq<u8>, i16);

/// The summary of the values that the records give to key `k`, in order.
pub open spec fn key_stats(r: Seq<Record>, k: Seq<u8>) -> Stats
    decreases r.len(),
{
    if r.len() == 0 {
        empty_stats()
    } else if r.last().0 == k {
        stats_update(key_stats(r.drop_last(), k), r.last().1 as int)
    } else {
        key_stats(r.drop_last(), k)
    }
}

/// Per-key summaries of a run of records: the keys that occur, each with the
/// summary of its values.
pub open spec fn stats_of(r: Seq<Record>) -> Map<Seq<u8>, Stats> {
    Map::new(|k: Seq<u8>| key_stats(r, k).count > 0, |k: Seq<u8>| key_stats(r, k))
}

/// The summary of `k` in `m`, or the empty summary where `m` lacks `k`.
pub open spec fn lookup(m: Map<Seq<u8>, Stats>, k: Seq<u8>) -> Stats {
    if m.contains_key(k) {
        m[k]
    } else {
        empty_stats()
    }
}

/// Key-wise combination of two per-key summaries.
pub open spec fn merge_stats(a: Map<Seq<u8>, Stats>, b: Map<Seq<u8>, Stats>) -> Map<
    Seq<u8>,
    Stats,
> {
    Map::new(
        |k: Seq<u8>| a.contains_key(k) || b.contains_key(k),
        |k: Seq<u8>| stats_combine(lookup(a, k), lookup(b, k)),
    )
}

/// A summary whose fields fit those of `StationSummary`.
pub open spec fn stats_fit(s: Stats) -> bool {
    &&& i16::MIN <= s.min <= i16::MAX
    &&& i16::MIN <= s.max <= i16::MAX
    &&& i128::MIN <= s.sum <= i128::MAX
    &&& s.count <= u64::MAX
}

/// The facts about `key_stats` that bound its fields.
pub proof fn lemma_key_stats_bounds(r: Seq<Record>, k: Seq<u8>)
    ensures
        key_stats(r, k).min <= i16::MAX,
        key_stats(r, k).max >= i16::MIN,
        key_stats(r, k).count <= r.len(),
        i16::MIN * key_stats(r, k).count <= key_stats(r, k).sum <= i16::MAX * key_stats(
            r,
            k,
        ).count,
        key_stats(r, k).count == 0 ==> key_stats(r, k) == empty_stats(),
        key_stats(r, k).count > 0 ==> i16::MIN <= key_stats(r, k).min && key_stats(r, k).max
            <= i16::MAX,
    decreases r.len(),
{
    if r.len() > 0 {
        lemma_key_stats_bounds(r.drop_last(), k);
    }
}

/// Summaries of two consecutive runs combine into the summary of the whole.
pub proof fn lemma_key_stats_concat(a: Seq<Record>, b: Seq<Record>, k: Seq<u8>)
    ensures
        key_stats(a + b, k) == stats_combine(key_stats(a, k), key_stats(b, k)),
    decreases b.len(),
{
    if b.len() == 0 {
        assert(a + b =~= a);
        lemma_key_stats_bounds(a, k);
    } else {
        assert((a + b).drop_last() =~= a + b.drop_last());
        lemma_key_stats_concat(a, b.drop_last(), k);
    }
}

/// Per-key summaries of two consecutive runs merge into those of the whole.
pub proof fn lemma_stats_of_concat(a: Seq<Record>, b: Seq<Record>)
    ensures
        stats_of(a + b) == merge_stats(stats_of(a), stats_of(b)),
{
    assert forall|k: Seq<u8>| #[trigger] key_stats(a + b, k) == stats_combine(
        lookup(stats_of(a), k),
        lookup(stats_of(b), k),
    ) by {
        lemma_key_stats_concat(a, b, k);
        lemma_key_stats_bounds(a, k);
        lemma_key_stats_bounds(b, k);
    }
    assert(stats_of(a + b) =~= merge_stats(stats_of(a), stats_of(b)));
}

/// One more record changes the summary of its key alone.
pub proof fn lemma_stats_of_push(r: Seq<Record>, x: Record)
    ensures
        stats_of(r.push(x)) == stats_of(r).insert(
            x.0,
            stats_update(lookup(stats_of(r), x.0), x.1 as int),
        ),
{
    assert(r.push(x).drop_last() =~= r);
    lemma_key_stats_bounds(r, x.0);
    assert(stats_of(r.push(x)) =~= stats_of(r).insert(
        x.0,
        stats_update(lookup(stats_of(r), x.0), x.1 as int),
    ));
}

/// `m` with one more value taken into the summary of `k`.
pub open spec fn with_value(m: Map<Seq<u8>, Stats>, k: Seq<u8>, v: int) -> Map<Seq<u8>, Stats> {
    m.insert(k, stats_update(lookup(m, k), v))
}

/// Room for one more value of any kind: the count below its limit and the
/// sum within what that many values can add up to.
pub open spec fn has_room(s: Stats) -> bool {
    &&& s.count < u64::MAX
    &&& i16::MIN * s.count <= s.sum <= i16::MAX * s.count
}

pub proof fn lemma_lookup_merge(a: Map<Seq<u8>, Stats>, b: Map<Seq<u8>, Stats>, k: Seq<u8>)
    ensures
        lookup(merge_stats(a, b), k) == stats_combine(lookup(a, k), lookup(b, k)),
{
}

/// Taking a value into the left operand of a merge is taking it into the
/// merge.
pub proof fn lemma_merge_with_left(
    a: Map<Seq<u8>, Stats>,
    b: Map<Seq<u8>, Stats>,
    k: Seq<u8>,
    v: int,
)
    ensures
        merge_stats(with_value(a, k, v), b) == with_value(merge_stats(a, b), k, v),
{
    lemma_lookup_merge(a, b, k);
    assert(merge_stats(with_value(a, k, v), b) =~= with_value(merge_stats(a, b), k, v));
}

/// Taking a value into the right operand of a merge is taking it into the
/// merge.
pub proof fn lemma_merge_with_right(
    a: Map<Seq<u8>, Stats>,
    b: Map<Seq<u8>, Stats>,
    k: Seq<u8>,
    v: int,
)
    ensures
        merge_stats(a, with_value(b, k, v)) == with_value(merge_stats(a, b), k, v),
{
    lemma_lookup_merge(a, b, k);
    assert(merge_stats(a, with_value(b, k, v)) =~= with_value(merge_stats(a, b), k, v));
}

/// The summary of `k` over a run of records, as `stats_of` holds it.
pub proof fn lemma_lookup_stats_of(r: Seq<Record>, k: Seq<u8>)
    ensures
        lookup(stats_of(r), k) == key_stats(r, k),
{
    lemma_key_stats_bounds(r, k);
}

/// Over fewer records than the count's limit, every summary has room.
pub proof fn lemma_room(r: Seq<Record>, k: Seq<u8>)
    requires
        r.len() < u64::MAX,
    ensures
        has_room(lookup(stats_of(r), k)),
{
    lemma_key_stats_bounds(r, k);
}

/// Running statistics of one key.
#[derive(Clone, Copy)]
pub struct StationSummary {
    pub min: i16,
    pub max: i16,
    pub sum: i128,
    pub count: u64,
}

impl View for StationSummary {
    type V = Stats;

    open spec fn view(&self) -> Stats {
        Stats {
            min: self.min as int,
            max: self.max as int,
            sum: self.sum as int,
            count: self.count as nat,
        }
    }
}

impl Default for StationSummary {
    fn default() -> (r: Self)
        ensures
            r@ == empty_stats(),
    {
        StationSummary { min: i16::MAX, max: i16::MIN, sum: 0, count: 0 }
    }
}

impl StationSummary {
    /// Takes one more value into the summary.
    pub fn update(&mut self, measurement: i16)
        requires
            old(self).count < u64::MAX,
            i128::MIN <= old(self).sum + measurement <= i128::MAX,
        ensures
            final(self)@ == stats_update(old(self)@, measurement as int),
    {
        if measurement < self.min {
            self.min = measurement;
        }
        if measurement > self.max {
            self.max = measurement;
        }
        self.sum = self.sum + measurement as i128;
        self.count = self.count + 1;
    }

    /// Whether `other` can be combined into this summary without overflow.
    pub fn can_merge(&self, other: &StationSummary) -> (r: bool)
        ensures
            r == stats_fit(stats_combine(self@, other@)),
    {
        self.count.checked_add(other.count).is_some() && self.sum.checked_add(other.sum).is_some()
    }

    /// Combines the summary of another run of values into this one.
    pub fn merge(&mut self, other: &StationSummary)
        requires
            stats_fit(stats_combine(old(self)@, other@)),
        ensures
            final(self)@ == stats_combine(old(self)@, other@),
    {
        if other.min < self.min {
            self.min = other.min;
        }
        if other.max > self.max {
            self.max = other.max;
        }
        self.sum = self.sum + other.sum;
        self.count = self.count + other.count;
    }
}

} // verus!
