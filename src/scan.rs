//! Delimiter search: a window-at-a-time scanner and a byte-at-a-time one.
use vstd::prelude::*;

verus! {

/// The byte that ends a key.
pub const SEMICOLON: u8 = 59;

/// The byte that ends a record.
pub const NEWLINE: u8 = 10;

/// The first position at or after `from` that holds `target`, or the end of
/// `s` where there is none.
pub open spec fn first_index(s: Seq<u8>, from: int, target: u8) -> int
    decreases s.len() - from,
{
    if from < 0 || from >= s.len() {
        s.len() as int
    } else if s[from] == target {
        from
    } else {
        first_index(s, from + 1, target)
    }
}

/// `r` is the first `target` at or after `from`, or the end of `s`.
pub proof fn lemma_first_index_is(s: Seq<u8>, from: int, target: u8, r: int)
    requires
        0 <= from <= r <= s.len(),
        r < s.len() ==> s[r] == target,
        forall|j: int| from <= j < r ==> s[j] != target,
    ensures
        first_index(s, from, target) == r,
    decreases r - from,
{
    if from < r {
        lemma_first_index_is(s, from + 1, target, r);
    }
}

/// What `first_index` is: a position in range, holding `target` unless it is
/// the end, with no `target` before it.
pub proof fn lemma_first_index_props(s: Seq<u8>, from: int, target: u8)
    requires
        0 <= from <= s.len(),
    ensures
        from <= first_index(s, from, target) <= s.len(),
        first_index(s, from, target) < s.len() ==> s[first_index(s, from, target)] == target,
        forall|j: int| from <= j < first_index(s, from, target) ==> s[j] != target,
    decreases s.len() - from,
{
    if from < s.len() && s[from] != target {
        lemma_first_index_props(s, from + 1, target);
    }
}

/// Width of one window of the window-at-a-time scanner.
pub const WINDOW: usize = 8;

/// From `from` on, but never past `to`, `first_index` moves only forward.
pub proof fn lemma_first_index_monotone(s: Seq<u8>, from: int, to: int, target: u8)
    requires
        0 <= from <= to <= s.len(),
    ensures
        first_index(s, from, target) <= first_index(s, to, target),
        first_index(s, from, target) >= to ==> first_index(s, from, target) == first_index(
            s,
            to,
            target,
        ),
{
    lemma_first_index_props(s, from, target);
    lemma_first_index_props(s, to, target);
    let f = first_index(s, from, target);
    if f >= to {
        lemma_first_index_is(s, to, target, f);
    }
}

/// The first `target` at or after `from`, or `bytes.len()`, found one byte
/// at a time with a bounds check on each.
pub fn find_byte_scalar(bytes: &[u8], from: usize, target: u8) -> (r: usize)
    requires
        from <= bytes@.len(),
    ensures
        r == first_index(bytes@, from as int, target),
{
    let mut i = from;
    while i < bytes.len() && bytes[i] != target
        invariant
            from <= i <= bytes@.len(),
            forall|j: int| from <= j < i ==> bytes@[j] != target,
        decreases bytes@.len() - i,
    {
        i = i + 1;
    }
    proof {
        lemma_first_index_is(bytes@, from as int, target, i as int);
    }
    i
}

/// Bit `t` of `m`.
pub open spec fn bit(m: u32, t: u32) -> bool {
    (m >> t) & 1u32 == 1u32
}

/// Setting bit `j` (or not, where `b` is 0) of a mask with nothing at or
/// above `j` changes bit `j` alone and leaves nothing above it.
proof fn lemma_mask_push(m: u32, b: u32, j: u32)
    requires
        b <= 1,
        j < 31,
        m >> j == 0,
    ensures
        forall|t: u32| t < 32 && t != j ==> #[trigger] bit(m | (b << j), t) == bit(m, t),
        bit(m | (b << j), j) == (b == 1),
        (m | (b << j)) >> ((j + 1) as u32) == 0,
{
    assert(forall|t: u32| t < 32 && t != j ==> #[trigger] bit(m | (b << j), t) == bit(m, t))
        by (bit_vector)
        requires
            b <= 1,
            j < 31,
            m >> j == 0,
    ;
    assert(bit(m | (b << j), j) == (b == 1)) by (bit_vector)
        requires
            b <= 1,
            j < 31,
            m >> j == 0,
    ;
    assert((m | (b << j)) >> ((j + 1) as u32) == 0) by (bit_vector)
        requires
            b <= 1,
            j < 31,
            m >> j == 0,
    ;
}

proof fn lemma_zero_has_no_bits()
    ensures
        forall|t: u32| !#[trigger] bit(0u32, t),
{
    assert(forall|t: u32| !#[trigger] bit(0u32, t)) by (bit_vector);
}

proof fn lemma_mask_empty(m: u32)
    requires
        m >> 8u32 == 0,
        forall|t: u32| t < 8 ==> !#[trigger] bit(m, t),
    ensures
        m == 0,
{
    assert(m >> 8u32 == 0 && !bit(m, 0) && !bit(m, 1) && !bit(m, 2) && !bit(m, 3) && !bit(m, 4)
        && !bit(m, 5) && !bit(m, 6) && !bit(m, 7) ==> m == 0) by (bit_vector);
}

/// The positions in `window` that hold `target`, as the bits of a mask.
fn match_mask(window: &[u8], target: u8) -> (m: u32)
    requires
        window@.len() == WINDOW,
    ensures
        m >> 8u32 == 0,
        forall|t: u32| t < 8 ==> #[trigger] bit(m, t) == (window@[t as int] == target),
{
    let mut m: u32 = 0;
    let mut j: usize = 0;
    proof {
        assert(0u32 >> 0u32 == 0) by (bit_vector);
    }
    while j < WINDOW
        invariant
            j <= WINDOW,
            window@.len() == WINDOW,
            m >> (j as u32) == 0,
            forall|t: u32| t < j ==> #[trigger] bit(m, t) == (window@[t as int] == target),
        decreases WINDOW - j,
    {
        let b = (window[j] == target) as u32;
        proof {
            lemma_mask_push(m, b, j as u32);
        }
        m = m | (b << (j as u32));
        j = j + 1;
    }
    m
}

/// The lowest set bit of a non-zero mask of eight bits.
fn lowest_bit(m: u32) -> (t: usize)
    requires
        m != 0,
        m >> 8u32 == 0,
    ensures
        t < 8,
        bit(m, t as u32),
        forall|u: u32| u < t ==> !#[trigger] bit(m, u),
{
    let mut t: usize = 0;
    while t < 8 && (m >> (t as u32)) & 1 == 0
        invariant
            t <= 8,
            m != 0,
            m >> 8u32 == 0,
            forall|u: u32| u < t ==> !#[trigger] bit(m, u),
        decreases 8 - t,
    {
        t = t + 1;
    }
    if t == 8 {
        proof {
            lemma_mask_empty(m);
        }
    }
    proof {
        let x = m >> (t as u32);
        assert(x & 1u32 != 0 ==> x & 1u32 == 1u32) by (bit_vector);
    }
    t
}

/// The first `target` at or after `from`, or `bytes.len()`. While a whole
/// window of `WINDOW` bytes fits before the end, all its bytes are compared
/// with `target` at once into a mask, whose lowest set bit is the first
/// match; the last partial window goes through the byte-at-a-time scanner.
pub fn find_byte(bytes: &[u8], from: usize, target: u8) -> (r: usize)
    requires
        from <= bytes@.len(),
    ensures
        r == first_index(bytes@, from as int, target),
{
    let mut p = from;
    while bytes.len() - p >= WINDOW
        invariant
            from <= p <= bytes@.len(),
            forall|j: int| from <= j < p ==> bytes@[j] != target,
        decreases bytes@.len() - p,
    {
        let window = &bytes[p..p + WINDOW];
        let m = match_mask(window, target);
        if m != 0 {
            let t = lowest_bit(m);
            proof {
                assert forall|j: int| from <= j < p + t implies bytes@[j] != target by {
                    if j >= p {
                        assert(!bit(m, (j - p) as u32));
                        assert(window@[j - p] == bytes@[j]);
                    }
                }
                assert(window@[t as int] == bytes@[p + t]);
                lemma_first_index_is(bytes@, from as int, target, (p + t) as int);
            }
            return p + t;
        }
        proof {
            assert forall|j: int| from <= j < p + WINDOW implies bytes@[j] != target by {
                if j >= p {
                    assert(!bit(m, (j - p) as u32)) by {
                        lemma_zero_has_no_bits();
                    }
                    assert(window@[j - p] == bytes@[j]);
                }
            }
        }
        p = p + WINDOW;
    }
    let r = find_byte_scalar(bytes, p, target);
    proof {
        lemma_first_index_props(bytes@, p as int, target);
        lemma_first_index_is(bytes@, from as int, target, r as int);
    }
    r
}

} // verus!
