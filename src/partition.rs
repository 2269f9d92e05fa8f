//! Division of a byte view into line-aligned chunks, one per worker.

use vstd::prelude::*;
use crate::scan::{index_of, is_first, lemma_index_of_spec, lemma_lines_append, lines_of, memchr, NEWLINE};

verus! {

/// Where a chunk that would end at `p` ends instead: just after the first
/// terminator at or after `p`, or at the end of `s`.
pub open spec fn next_boundary(s: Seq<u8>, p: int) -> int {
    if p >= s.len() {
        s.len() as int
    } else {
        let k = index_of(s.subrange(p, s.len() as int), NEWLINE);
        if k < 0 {
            s.len() as int
        } else {
            p + k + 1
        }
    }
}

/// `b` holds the `n + 1` chunk boundaries of `s` for `n` workers: chunk `k`
/// is `[b[k], b[k + 1])`, every chunk but the last is `(s.len() as int) / n` bytes
/// pushed forward to the end of a line, and the last ends at `s.len()`.
pub open spec fn chunk_bounds_of(s: Seq<u8>, n: int, b: Seq<usize>) -> bool {
    &&& n >= 1
    &&& b.len() == n + 1
    &&& b[0] == 0
    &&& b[n] == s.len()
    &&& forall|k: int|
        0 <= k < n - 1 ==> #[trigger] b[k + 1] == next_boundary(s, b[k] + (s.len() as int) / n)
}

/// A position where `s` may be cut without splitting a line.
pub open spec fn is_cut(s: Seq<u8>, p: int) -> bool {
    p == 0 || p == s.len() || (0 < p <= s.len() && s[p - 1] == NEWLINE)
}

/// The lines of chunks `0..k`, one chunk after the other.
pub open spec fn chunk_lines(s: Seq<u8>, b: Seq<usize>, k: int) -> Seq<Seq<u8>>
    decreases k,
{
    if k <= 0 {
        Seq::empty()
    } else {
        chunk_lines(s, b, k - 1) + lines_of(s.subrange(b[k - 1] as int, b[k] as int))
    }
}

pub proof fn lemma_next_boundary(s: Seq<u8>, p: int)
    requires
        p >= 0,
    ensures
        p <= next_boundary(s, p) || next_boundary(s, p) == s.len(),
        next_boundary(s, p) <= s.len(),
        is_cut(s, next_boundary(s, p)),
{
    if p < s.len() {
        let t = s.subrange(p, s.len() as int);
        lemma_index_of_spec(t, NEWLINE);
        let k = index_of(t, NEWLINE);
        if k >= 0 {
            assert(t[k] == s[p + k]);
        }
    }
}

/// The chunks cover `s` in order with no gap or overlap, each boundary is a
/// place where a line ends, and the lines of the chunks, taken one chunk after
/// the other, are exactly the lines of `s`.
pub proof fn lemma_partition(s: Seq<u8>, n: int, b: Seq<usize>)
    requires
        chunk_bounds_of(s, n, b),
    ensures
        forall|k: int| 0 <= k < n ==> #[trigger] b[k] <= b[k + 1],
        forall|k: int| 0 <= k <= n ==> is_cut(s, #[trigger] b[k] as int),
        chunk_lines(s, b, n) == lines_of(s),
{
    assert forall|k: int| 0 <= k <= n implies is_cut(s, #[trigger] b[k] as int) && b[k] <= s.len() by {
        if 0 < k < n {
            lemma_next_boundary(s, b[k - 1] + (s.len() as int) / n);
            assert(b[(k - 1) + 1] == next_boundary(s, b[k - 1] + (s.len() as int) / n));
        }
    }
    assert forall|k: int| 0 <= k < n implies #[trigger] b[k] <= b[k + 1] by {
        if k < n - 1 {
            lemma_next_boundary(s, b[k] + (s.len() as int) / n);
        }
    }
    lemma_partition_prefix(s, n, b, n);
    assert(s.subrange(0, b[n] as int) =~= s);
}

pub proof fn lemma_partition_prefix(s: Seq<u8>, n: int, b: Seq<usize>, k: int)
    requires
        0 <= k <= n,
        b.len() == n + 1,
        b[0] == 0,
        forall|j: int| 0 <= j <= n ==> is_cut(s, #[trigger] b[j] as int) && b[j] <= s.len(),
        forall|j: int| 0 <= j < n ==> #[trigger] b[j] <= b[j + 1],
    ensures
        chunk_lines(s, b, k) == lines_of(s.subrange(0, b[k] as int)),
    decreases k,
{
    if k == 0 {
        assert(s.subrange(0, 0) =~= Seq::<u8>::empty());
    } else {
        lemma_partition_prefix(s, n, b, k - 1);
        let j = k - 1;
        let a = s.subrange(0, b[j] as int);
        let c = s.subrange(b[j] as int, b[k] as int);
        assert(b[j] <= b[j + 1]);
        assert(s.subrange(0, b[k] as int) =~= a + c);
        if a.len() == 0 || a.last() == NEWLINE {
            lemma_lines_append(a, c);
        } else {
            assert(is_cut(s, b[j] as int));
            assert(b[j] == s.len());
            assert(c =~= Seq::<u8>::empty());
            assert(a + c =~= a);
            assert(lines_of(c) =~= Seq::<Seq<u8>>::empty());
            assert(lines_of(a) + lines_of(c) =~= lines_of(a));
        }
    }
}

/// Cutting `s` at a line end splits its lines in two.
pub proof fn lemma_lines_split(s: Seq<u8>, p: int)
    requires
        0 <= p <= s.len(),
        is_cut(s, p),
    ensures
        lines_of(s) == lines_of(s.subrange(0, p)) + lines_of(s.subrange(p, s.len() as int)),
{
    let a = s.subrange(0, p);
    let c = s.subrange(p, s.len() as int);
    assert(s =~= a + c);
    if p == 0 || s[p - 1] == NEWLINE {
        lemma_lines_append(a, c);
    } else {
        assert(c =~= Seq::<u8>::empty());
        assert(lines_of(c) =~= Seq::<Seq<u8>>::empty());
        assert(lines_of(a) + lines_of(c) =~= lines_of(a));
    }
}

/// The boundaries of `n` line-aligned chunks of `values` (see
/// [`chunk_bounds_of`]).
pub fn chunk_bounds(values: &[u8], n: usize) -> (r: Vec<usize>)
    requires
        n >= 1,
    ensures
        chunk_bounds_of(values@, n as int, r@),
{
    let len = values.len();
    let width = len / n;
    let mut b: Vec<usize> = Vec::new();
    b.push(0);
    let mut current: usize = 0;
    let mut k: usize = 0;
    while k + 1 < n
        invariant
            n >= 1,
            k < n,
            len == values@.len(),
            width == (values@.len() as int) / (n as int),
            b@.len() == k + 1,
            b@[0] == 0,
            current == b@[k as int],
            current <= len,
            forall|j: int|
                0 <= j < k ==> #[trigger] b@[j + 1] == next_boundary(values@, b@[j] + width),
        decreases n - k,
    {
        let end = if width >= len - current { len } else { current + width };
        let tail = vstd::slice::slice_subrange(values, end, len);
        let next = if end == len {
            len
        } else {
            match memchr(tail, NEWLINE) {
                Some(i) => {
                    assert(is_first(tail@, NEWLINE, i as int));
                    end + i + 1
                },
                None => len,
            }
        };
        assert(next == next_boundary(values@, current + width));
        b.push(next);
        current = next;
        k = k + 1;
        assert(b@[k as int] == next);
    }
    b.push(len);
    assert(b@[n as int] == len);
    b
}

} // verus!
