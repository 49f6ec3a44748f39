//! Splitting an input into record-aligned parts.
use vstd::prelude::*;
use crate::records::ends_at_boundary;
use crate::scan::{
    find_byte, first_index, lemma_first_index_monotone, lemma_first_index_props, NEWLINE,
};

verus! {

/// Where part `i` of `n` starts (part `n` starting at the end): at the first
/// record boundary after the proportional offset `i * len / n`.
pub open spec fn split_point(s: Seq<u8>, n: int, i: int) -> int {
    if i <= 0 {
        0
    } else if i >= n {
        s.len() as int
    } else {
        let f = first_index(s, i * s.len() / n, NEWLINE);
        if f < s.len() {
            f + 1
        } else {
            s.len() as int
        }
    }
}

proof fn lemma_offset_bounds(i: int, n: int, len: int)
    requires
        0 <= i <= n,
        0 < n,
        0 <= len,
    ensures
        0 <= i * len / n <= len,
        i * len <= n * len,
{
    assert(0 <= i * len) by (nonlinear_arith)
        requires
            0 <= i,
            0 <= len,
    ;
    assert(i * len <= n * len) by (nonlinear_arith)
        requires
            i <= n,
            0 <= len,
    ;
    assert(n * len / n == len) by (nonlinear_arith)
        requires
            0 < n,
    ;
    vstd::arithmetic::div_mod::lemma_div_is_ordered(i * len, n * len, n);
    vstd::arithmetic::div_mod::lemma_div_is_ordered(0, i * len, n);
}

/// Each split point lies in the buffer and, unless it is the end, right
/// after a newline (or at the start).
pub proof fn lemma_split_point_props(s: Seq<u8>, n: int, i: int)
    requires
        0 < n,
    ensures
        0 <= split_point(s, n, i) <= s.len(),
        0 < split_point(s, n, i) < s.len() ==> s[split_point(s, n, i) - 1] == NEWLINE,
        ends_at_boundary(s.take(split_point(s, n, i))) || split_point(s, n, i) == s.len(),
{
    if 0 < i < n {
        lemma_offset_bounds(i, n, s.len() as int);
        lemma_first_index_props(s, i * s.len() / n, NEWLINE);
    }
    let sp = split_point(s, n, i);
    if 0 < sp < s.len() {
        assert(s.take(sp)[sp - 1] == s[sp - 1]);
    }
}

/// Split points never go backwards.
pub proof fn lemma_split_point_monotone(s: Seq<u8>, n: int, i: int)
    requires
        0 < n,
        0 <= i,
    ensures
        split_point(s, n, i) <= split_point(s, n, i + 1),
{
    lemma_split_point_props(s, n, i);
    lemma_split_point_props(s, n, i + 1);
    if 0 < i && i + 1 < n {
        let len = s.len() as int;
        lemma_offset_bounds(i, n, len);
        lemma_offset_bounds(i + 1, n, len);
        assert(i * len <= (i + 1) * len) by (nonlinear_arith)
            requires
                0 <= len,
        ;
        vstd::arithmetic::div_mod::lemma_div_is_ordered(i * len, (i + 1) * len, n);
        lemma_first_index_monotone(s, i * len / n, (i + 1) * len / n, NEWLINE);
    }
}

/// A part ends at a record boundary, or reaches the end of the buffer.
pub proof fn lemma_part_boundary(s: Seq<u8>, n: int, i: int)
    requires
        0 < n,
        0 <= i,
    ensures
        ends_at_boundary(s.subrange(split_point(s, n, i), split_point(s, n, i + 1)))
            || split_point(s, n, i + 1) == s.len(),
{
    lemma_split_point_props(s, n, i + 1);
    lemma_split_point_monotone(s, n, i);
    lemma_split_point_props(s, n, i);
    let a = split_point(s, n, i);
    let b = split_point(s, n, i + 1);
    if a < b && b < s.len() {
        assert(s.subrange(a, b)[b - a - 1] == s[b - 1]);
    }
}

/// Splits `bytes` into `splits_num` contiguous parts whose boundaries sit
/// right after a newline: each proportional offset moves forward to the
/// next record boundary (or to the end). Parts may be empty.
pub fn split_bytes_aligned<'a>(bytes: &'a [u8], splits_num: usize) -> (r: Vec<&'a [u8]>)
    requires
        splits_num >= 1,
    ensures
        r@.len() == splits_num,
        forall|i: int|
            0 <= i < splits_num ==> (#[trigger] r@[i])@ == bytes@.subrange(
                split_point(bytes@, splits_num as int, i),
                split_point(bytes@, splits_num as int, i + 1),
            ),
{
    let len = bytes.len();
    let ghost n = splits_num as int;
    let mut split_indices: Vec<usize> = Vec::new();
    split_indices.push(0);
    let mut i: usize = 1;
    while i < splits_num
        invariant
            1 <= i <= splits_num,
            len == bytes@.len(),
            n == splits_num,
            split_indices@.len() == i,
            forall|j: int| 0 <= j < i ==> split_indices@[j] == split_point(bytes@, n, j),
        decreases splits_num - i,
    {
        proof {
            lemma_offset_bounds(i as int, n, len as int);
            assert(i as int * len as int <= u128::MAX) by (nonlinear_arith)
                requires
                    i <= usize::MAX,
                    len <= usize::MAX,
            ;
        }
        let idx = ((i as u128 * len as u128) / splits_num as u128) as usize;
        let f = find_byte(bytes, idx, NEWLINE);
        let aligned = if f < len {
            f + 1
        } else {
            len
        };
        split_indices.push(aligned);
        i = i + 1;
    }
    split_indices.push(len);
    let mut parts: Vec<&'a [u8]> = Vec::new();
    let mut k: usize = 0;
    while k < splits_num
        invariant
            k <= splits_num,
            len == bytes@.len(),
            n == splits_num,
            split_indices@.len() == splits_num + 1,
            forall|j: int| 0 <= j <= n ==> split_indices@[j] == split_point(bytes@, n, j),
            parts@.len() == k,
            forall|j: int|
                0 <= j < k ==> (#[trigger] parts@[j])@ == bytes@.subrange(
                    split_point(bytes@, n, j),
                    split_point(bytes@, n, j + 1),
                ),
        decreases splits_num - k,
    {
        proof {
            lemma_split_point_monotone(bytes@, n, k as int);
            lemma_split_point_props(bytes@, n, k + 1);
        }
        let start = split_indices[k];
        let end = split_indices[k + 1];
        parts.push(&bytes[start..end]);
        k = k + 1;
    }
    parts
}

} // verus!
