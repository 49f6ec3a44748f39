//! The input format: records `<key>;<decimal>\n`, and how a buffer of them
//! reads as a sequence of (key, value in tenths) pairs.
use vstd::prelude::*;
use crate::scan::{first_index, lemma_first_index_props, NEWLINE, SEMICOLON};
use crate::station::{key_end, lemma_key_end_props};
use crate::summary::Record;

verus! {

pub const MINUS: u8 = 45;

pub const DOT: u8 = 46;

pub const ZERO: u8 = 48;

pub const NINE: u8 = 57;

pub open spec fn is_digit(b: u8) -> bool {
    ZERO <= b <= NINE
}

/// The value of a run of decimal digits.
pub open spec fn digits_value(d: Seq<u8>) -> int
    decreases d.len(),
{
    if d.len() == 0 {
        0
    } else {
        digits_value(d.drop_last()) * 10 + (d.last() - ZERO)
    }
}

pub open spec fn pow10(k: nat) -> int
    decreases k,
{
    if k == 0 {
        1
    } else {
        10 * pow10((k - 1) as nat)
    }
}

/// One to three integer digits, a dot, one fractional digit.
pub open spec fn valid_unsigned(u: Seq<u8>) -> bool {
    &&& 3 <= u.len() <= 5
    &&& u[u.len() - 2] == DOT
    &&& is_digit(u[u.len() - 1])
    &&& forall|i: int| 0 <= i < u.len() - 2 ==> is_digit(#[trigger] u[i])
}

/// Tenths of an unsigned decimal.
pub open spec fn unsigned_tenths(u: Seq<u8>) -> int {
    digits_value(u.take(u.len() - 2)) * 10 + (u[u.len() - 1] - ZERO)
}

/// An optional minus sign and an unsigned decimal.
pub open spec fn valid_decimal(s: Seq<u8>) -> bool {
    if s.len() > 0 && s[0] == MINUS {
        valid_unsigned(s.skip(1))
    } else {
        valid_unsigned(s)
    }
}

/// Tenths of a decimal: `-12.3` is -123.
pub open spec fn decimal_tenths(s: Seq<u8>) -> int {
    if s.len() > 0 && s[0] == MINUS {
        -unsigned_tenths(s.skip(1))
    } else {
        unsigned_tenths(s)
    }
}

/// The record that starts at `p`, and where the next one starts: the key
/// runs to the first `;` (no newline before it), the value from there to
/// the next newline and must be a valid decimal.
pub open spec fn record_at(s: Seq<u8>, p: int) -> Option<(Record, int)> {
    let e = key_end(s, p);
    if e >= s.len() || s[e] != SEMICOLON {
        None
    } else {
        let nl = first_index(s, e + 1, NEWLINE);
        if nl >= s.len() {
            None
        } else {
            let v = s.subrange(e + 1, nl);
            if valid_decimal(v) {
                Some(((s.subrange(p, e), decimal_tenths(v) as i16), nl + 1))
            } else {
                None
            }
        }
    }
}

/// The records from `p` to the end of `s`, or `None` where one of them is
/// malformed or the last lacks its newline.
pub open spec fn records_from(s: Seq<u8>, p: int) -> Option<Seq<Record>>
    decreases s.len() - p,
{
    if p < 0 || p >= s.len() {
        Some(Seq::empty())
    } else {
        match record_at(s, p) {
            None => None,
            Some((r, next)) => if next <= p {
                None
            } else {
                match records_from(s, next) {
                    Some(rest) => Some(seq![r] + rest),
                    None => None,
                }
            },
        }
    }
}

/// The records of a whole buffer.
pub open spec fn records(s: Seq<u8>) -> Option<Seq<Record>> {
    records_from(s, 0)
}

/// Both runs of records one after the other; `None` where either is.
pub open spec fn join(a: Option<Seq<Record>>, b: Option<Seq<Record>>) -> Option<Seq<Record>> {
    match (a, b) {
        (Some(x), Some(y)) => Some(x + y),
        _ => None,
    }
}

/// `s` ends where a record may start: it is empty or ends with a newline.
pub open spec fn ends_at_boundary(s: Seq<u8>) -> bool {
    s.len() == 0 || s[s.len() - 1] == NEWLINE
}

/// A record found at `p` lies within `s` and starts the next one further on.
pub proof fn lemma_record_at_props(s: Seq<u8>, p: int)
    requires
        0 <= p < s.len(),
        record_at(s, p) is Some,
    ensures
        ({
            let (r, next) = record_at(s, p)->Some_0;
            &&& p < next <= s.len()
            &&& s[next - 1] == NEWLINE
            &&& r.0 == s.subrange(p, key_end(s, p))
            &&& p <= key_end(s, p) < next - 1
        }),
{
    lemma_key_end_props(s, p);
    let e = key_end(s, p);
    lemma_first_index_props(s, e + 1, NEWLINE);
}

/// Unfolds `records_from` once at a well-formed record.
pub proof fn lemma_records_step(s: Seq<u8>, p: int)
    requires
        0 <= p < s.len(),
        record_at(s, p) is Some,
    ensures
        records_from(s, p) == join(
            Some(seq![record_at(s, p)->Some_0.0]),
            records_from(s, record_at(s, p)->Some_0.1),
        ),
{
    lemma_record_at_props(s, p);
}

/// Every record takes at least one byte.
pub proof fn lemma_records_len(s: Seq<u8>, p: int)
    requires
        0 <= p,
        records_from(s, p) is Some,
    ensures
        records_from(s, p)->Some_0.len() <= if p <= s.len() {
            s.len() - p
        } else {
            0
        },
    decreases s.len() - p,
{
    if p < s.len() {
        lemma_record_at_props(s, p);
        let next = record_at(s, p)->Some_0.1;
        lemma_records_len(s, next);
    }
}

/// Bytes before `x.len()` do not matter to a search that starts after them.
proof fn lemma_key_end_shift(x: Seq<u8>, y: Seq<u8>, q: int)
    requires
        0 <= q <= y.len(),
    ensures
        key_end(x + y, x.len() + q) == x.len() + key_end(y, q),
    decreases y.len() - q,
{
    if q < y.len() {
        assert((x + y)[x.len() + q] == y[q]);
        lemma_key_end_shift(x, y, q + 1);
    }
}

proof fn lemma_first_index_shift(x: Seq<u8>, y: Seq<u8>, q: int, target: u8)
    requires
        0 <= q <= y.len(),
    ensures
        first_index(x + y, x.len() + q, target) == x.len() + first_index(y, q, target),
    decreases y.len() - q,
{
    if q < y.len() {
        assert((x + y)[x.len() + q] == y[q]);
        lemma_first_index_shift(x, y, q + 1, target);
    }
}

/// The records of `y` read the same after any prefix `x`.
pub proof fn lemma_records_shift(x: Seq<u8>, y: Seq<u8>, q: int)
    requires
        0 <= q <= y.len(),
    ensures
        records_from(x + y, x.len() + q) == records_from(y, q),
    decreases y.len() - q,
{
    if q < y.len() {
        let xy = x + y;
        let p = x.len() + q;
        lemma_key_end_shift(x, y, q);
        lemma_key_end_props(y, q);
        let e = key_end(y, q);
        if e < y.len() && y[e] == SEMICOLON {
            assert(xy[x.len() + e] == y[e]);
            lemma_first_index_shift(x, y, e + 1, NEWLINE);
            lemma_first_index_props(y, e + 1, NEWLINE);
            let nl = first_index(y, e + 1, NEWLINE);
            if nl < y.len() {
                assert(xy.subrange(x.len() + e + 1, x.len() + nl) =~= y.subrange(e + 1, nl));
                assert(xy.subrange(p, x.len() + e) =~= y.subrange(q, e));
                lemma_records_shift(x, y, nl + 1);
            }
        } else if e < y.len() {
            assert(xy[x.len() + e] == y[e]);
        }
    }
}

/// A search that meets its stop byte within `t` ignores what follows `t`.
proof fn lemma_key_end_extend(t: Seq<u8>, u: Seq<u8>, p: int, m: int)
    requires
        0 <= p <= m < t.len(),
        t[m] == SEMICOLON || t[m] == NEWLINE,
    ensures
        key_end(t + u, p) == key_end(t, p),
    decreases m - p,
{
    assert((t + u)[p] == t[p]);
    if p < m {
        lemma_key_end_extend(t, u, p + 1, m);
    }
}

proof fn lemma_first_index_extend(t: Seq<u8>, u: Seq<u8>, p: int, m: int, target: u8)
    requires
        0 <= p <= m < t.len(),
        t[m] == target,
    ensures
        first_index(t + u, p, target) == first_index(t, p, target),
    decreases m - p,
{
    assert((t + u)[p] == t[p]);
    if p < m {
        lemma_first_index_extend(t, u, p + 1, m, target);
    }
}

/// Cut at a record boundary (or with nothing after the cut), a buffer
/// reads as the records of its first part followed by those of the second.
pub proof fn lemma_records_concat(a: Seq<u8>, b: Seq<u8>)
    requires
        ends_at_boundary(a) || b.len() == 0,
    ensures
        records(a + b) == join(records(a), records(b)),
{
    if ends_at_boundary(a) {
        lemma_records_concat_from(a, b, 0);
    } else {
        assert(a + b =~= a);
        match records(a) {
            Some(x) => {
                assert(x + Seq::<Record>::empty() =~= x);
            },
            None => {},
        }
    }
}

proof fn lemma_records_concat_from(a: Seq<u8>, b: Seq<u8>, p: int)
    requires
        ends_at_boundary(a),
        0 <= p <= a.len(),
    ensures
        records_from(a + b, p) == join(records_from(a, p), records_from(b, 0)),
    decreases a.len() - p,
{
    let ab = a + b;
    if p == a.len() {
        lemma_records_shift(a, b, 0);
        match records_from(b, 0) {
            Some(rb) => {
                assert(Seq::<Record>::empty() + rb =~= rb);
            },
            None => {},
        }
    } else {
        let last = a.len() - 1;
        lemma_key_end_extend(a, b, p, last);
        lemma_key_end_props(a, p);
        let e = key_end(a, p);
        assert(ab[e] == a[e]);
        if a[e] == SEMICOLON {
            lemma_first_index_extend(a, b, e + 1, last, NEWLINE);
            lemma_first_index_props(a, e + 1, NEWLINE);
            let nl = first_index(a, e + 1, NEWLINE);
            assert(ab.subrange(e + 1, nl) =~= a.subrange(e + 1, nl));
            assert(ab.subrange(p, e) =~= a.subrange(p, e));
            assert(record_at(ab, p) == record_at(a, p));
            if record_at(a, p) is Some {
                lemma_records_concat_from(a, b, nl + 1);
                match (records_from(a, nl + 1), records_from(b, 0)) {
                    (Some(x), Some(y)) => {
                        let r = record_at(a, p)->Some_0.0;
                        assert(seq![r] + (x + y) =~= (seq![r] + x) + y);
                    },
                    _ => {},
                }
            }
        }
    }
}

/// Parses a decimal with one fractional digit into tenths; `None` where the
/// bytes are not one.
pub fn parse_temperature(s: &[u8]) -> (r: Option<i16>)
    ensures
        r == if valid_decimal(s@) {
            Some(decimal_tenths(s@) as i16)
        } else {
            None::<i16>
        },
{
    let n = s.len();
    let neg = n > 0 && s[0] == MINUS;
    let start: usize = if neg {
        1
    } else {
        0
    };
    let ghost u = s@.skip(start as int);
    assert(start == 0 ==> u =~= s@);
    assert(valid_decimal(s@) == valid_unsigned(u));
    if n - start < 3 || n - start > 5 {
        return None;
    }
    if s[n - 2] != DOT {
        assert(u[u.len() - 2] == s@[n - 2]);
        return None;
    }
    let frac = s[n - 1];
    if frac < ZERO || frac > NINE {
        assert(u[u.len() - 1] == frac);
        return None;
    }
    let mut v: i16 = 0;
    let mut i = start;
    while i < n - 2
        invariant
            start <= i <= n - 2,
            n == s@.len(),
            n - 2 - start <= 3,
            u == s@.skip(start as int),
            valid_decimal(s@) == valid_unsigned(u),
            v == digits_value(s@.subrange(start as int, i as int)),
            0 <= v < pow10((i - start) as nat),
            forall|t: int| start <= t < i ==> is_digit(s@[t]),
        decreases n - 2 - i,
    {
        let c = s[i];
        if c < ZERO || c > NINE {
            assert(u[i - start] == c);
            return None;
        }
        proof {
            let d = s@.subrange(start as int, i + 1);
            assert(d.drop_last() =~= s@.subrange(start as int, i as int));
            reveal_with_fuel(pow10, 4);
        }
        v = v * 10 + (c - ZERO) as i16;
        i = i + 1;
    }
    proof {
        reveal_with_fuel(pow10, 4);
        assert(u.take(u.len() - 2) =~= s@.subrange(start as int, n - 2));
        assert forall|t: int| 0 <= t < u.len() - 2 implies is_digit(#[trigger] u[t]) by {
            assert(u[t] == s@[start + t]);
        }
        assert(u[u.len() - 1] == frac);
        assert(u[u.len() - 2] == s@[n - 2]);
    }
    let tenths = v * 10 + (frac - ZERO) as i16;
    if neg {
        Some(-tenths)
    } else {
        assert(u =~= s@);
        Some(tenths)
    }
}

} // verus!
