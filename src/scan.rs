//! Byte search, line splitting and field splitting over borrowed bytes.

use vstd::prelude::*;

verus! {

/// The line terminator.
pub const NEWLINE: u8 = 10;

/// The position of the first `c` in `s`, or `-1` when there is none.
pub open spec fn index_of(s: Seq<u8>, c: u8) -> int
    decreases s.len(),
{
    if s.len() == 0 {
        -1
    } else if s[0] == c {
        0
    } else {
        let k = index_of(s.drop_first(), c);
        if k < 0 {
            -1
        } else {
            k + 1
        }
    }
}

/// `i` is the position of the first `c` in `s`.
pub open spec fn is_first(s: Seq<u8>, c: u8, i: int) -> bool {
    &&& 0 <= i < s.len()
    &&& s[i] == c
    &&& forall|j: int| 0 <= j < i ==> s[j] != c
}

pub proof fn lemma_index_of_first(s: Seq<u8>, c: u8, i: int)
    requires
        is_first(s, c, i),
    ensures
        index_of(s, c) == i,
    decreases s.len(),
{
    if i > 0 {
        assert(s[0] != c);
        assert(is_first(s.drop_first(), c, i - 1)) by {
            assert forall|j: int| 0 <= j < i - 1 implies s.drop_first()[j] != c by {
                assert(s.drop_first()[j] == s[j + 1]);
            }
        }
        lemma_index_of_first(s.drop_first(), c, i - 1);
    }
}

pub proof fn lemma_index_of_absent(s: Seq<u8>, c: u8)
    requires
        forall|j: int| 0 <= j < s.len() ==> s[j] != c,
    ensures
        index_of(s, c) == -1,
    decreases s.len(),
{
    if s.len() > 0 {
        assert forall|j: int| 0 <= j < s.len() - 1 implies s.drop_first()[j] != c by {
            assert(s.drop_first()[j] == s[j + 1]);
        }
        lemma_index_of_absent(s.drop_first(), c);
    }
}

/// The lines of `s`: the runs of bytes between terminators, the terminators
/// left out, and the bytes after the last terminator as a last line when
/// there are any.
pub open spec fn lines_of(s: Seq<u8>) -> Seq<Seq<u8>>
    decreases s.len(),
{
    if s.len() == 0 {
        Seq::empty()
    } else {
        let i = index_of(s, NEWLINE);
        if i < 0 || i >= s.len() {
            seq![s]
        } else {
            seq![s.subrange(0, i)] + lines_of(s.subrange(i + 1, s.len() as int))
        }
    }
}

/// Finds the first `needle` in `haystack`.
pub fn memchr(haystack: &[u8], needle: u8) -> (r: Option<usize>)
    ensures
        r matches Some(i) ==> is_first(haystack@, needle, i as int),
        r is None ==> forall|j: int| 0 <= j < haystack@.len() ==> haystack@[j] != needle,
        r matches Some(i) ==> index_of(haystack@, needle) == i,
        r is None ==> index_of(haystack@, needle) == -1,
{
    let mut i: usize = 0;
    while i < haystack.len()
        invariant
            i <= haystack@.len(),
            forall|j: int| 0 <= j < i ==> haystack@[j] != needle,
        decreases haystack.len() - i,
    {
        if haystack[i] == needle {
            proof {
                lemma_index_of_first(haystack@, needle, i as int);
            }
            return Some(i);
        }
        i = i + 1;
    }
    proof {
        lemma_index_of_absent(haystack@, needle);
    }
    None
}

/// Splits `slice` at its first `c` into what stands before and after it; with
/// no `c`, into the whole slice and an empty one.
pub fn split_by(slice: &[u8], c: u8) -> (r: (&[u8], &[u8]))
    ensures
        index_of(slice@, c) >= 0 ==> r.0@ == slice@.subrange(0, index_of(slice@, c)) && r.1@
            == slice@.subrange(index_of(slice@, c) + 1, slice@.len() as int),
        index_of(slice@, c) < 0 ==> r.0@ == slice@ && r.1@.len() == 0,
{
    match memchr(slice, c) {
        Some(index) => {
            let n = slice.len();
            assert(is_first(slice@, c, index as int));
            assert(index < n);
            (
                vstd::slice::slice_subrange(slice, 0, index),
                vstd::slice::slice_subrange(slice, index + 1, slice.len()),
            )
        },
        None => (slice, vstd::slice::slice_subrange(slice, slice.len(), slice.len())),
    }
}

/// The lines of a byte view that have not been handed out yet.
pub struct Lines<'a> {
    remaining: &'a [u8],
}

impl<'a> Lines<'a> {
    /// The lines still to come.
    pub closed spec fn view(&self) -> Seq<Seq<u8>> {
        lines_of(self.remaining@)
    }

    pub fn new(items: &'a [u8]) -> (r: Lines<'a>)
        ensures
            r@ == lines_of(items@),
    {
        Lines { remaining: items }
    }

    /// Hands out the next line, or `None` when all have been.
    pub fn next(&mut self) -> (r: Option<&'a [u8]>)
        ensures
            old(self)@.len() == 0 ==> r is None && final(self)@ == old(self)@,
            old(self)@.len() > 0 ==> (r matches Some(l) && l@ == old(self)@[0]),
            old(self)@.len() > 0 ==> final(self)@ == old(self)@.drop_first(),
    {
        if self.remaining.len() == 0 {
            return None;
        }
        let ghost rem = self.remaining@;
        match memchr(self.remaining, NEWLINE) {
            Some(index) => {
                let result = vstd::slice::slice_subrange(self.remaining, 0, index);
                self.remaining = vstd::slice::slice_subrange(
                    self.remaining,
                    index + 1,
                    self.remaining.len(),
                );
                assert(lines_of(rem) == seq![result@] + lines_of(self.remaining@));
                assert((seq![result@] + lines_of(self.remaining@)).drop_first() =~= lines_of(
                    self.remaining@,
                ));
                Some(result)
            },
            None => {
                let result = self.remaining;
                self.remaining = vstd::slice::slice_subrange(
                    self.remaining,
                    self.remaining.len(),
                    self.remaining.len(),
                );
                assert(lines_of(self.remaining@) == Seq::<Seq<u8>>::empty());
                Some(result)
            },
        }
    }
}

/// Where `a` ends a line (or is empty), the lines of `a` followed by `b` are
/// the lines of `a` followed by those of `b`: no line spans the seam.
pub proof fn lemma_lines_append(a: Seq<u8>, b: Seq<u8>)
    requires
        a.len() == 0 || a.last() == NEWLINE,
    ensures
        lines_of(a + b) == lines_of(a) + lines_of(b),
    decreases a.len(),
{
    if a.len() == 0 {
        assert(a + b =~= b);
        assert(lines_of(a) + lines_of(b) =~= lines_of(b));
    } else {
        let i = index_of(a, NEWLINE);
        lemma_index_of_found(a, NEWLINE);
        lemma_index_of_prefix(a, b, NEWLINE);
        let rest = a.subrange(i + 1, a.len() as int);
        assert((a + b).subrange(0, i) =~= a.subrange(0, i));
        assert((a + b).subrange(i + 1, (a + b).len() as int) =~= rest + b);
        lemma_lines_append(rest, b);
        assert(lines_of(a + b) =~= lines_of(a) + lines_of(b));
    }
}

/// `index_of` is `-1` or a first position.
pub proof fn lemma_index_of_spec(s: Seq<u8>, c: u8)
    ensures
        index_of(s, c) >= -1,
        index_of(s, c) >= 0 ==> is_first(s, c, index_of(s, c)),
    decreases s.len(),
{
    if s.len() > 0 && s[0] != c {
        lemma_index_of_spec(s.drop_first(), c);
        let k = index_of(s.drop_first(), c);
        if k >= 0 {
            assert forall|j: int| 0 <= j < k + 1 implies s[j] != c by {
                if j > 0 {
                    assert(s[j] == s.drop_first()[j - 1]);
                }
            }
        }
    }
}

/// A byte that occurs in `s` has a first position there.
pub proof fn lemma_index_of_found(s: Seq<u8>, c: u8)
    requires
        s.len() > 0,
        s.last() == c,
    ensures
        is_first(s, c, index_of(s, c)),
    decreases s.len(),
{
    if s[0] != c {
        lemma_index_of_found(s.drop_first(), c);
        let k = index_of(s.drop_first(), c);
        assert forall|j: int| 0 <= j < k + 1 implies s[j] != c by {
            if j > 0 {
                assert(s[j] == s.drop_first()[j - 1]);
            }
        }
    }
}

/// Appending bytes does not move a first occurrence.
pub proof fn lemma_index_of_prefix(a: Seq<u8>, b: Seq<u8>, c: u8)
    requires
        is_first(a, c, index_of(a, c)),
    ensures
        index_of(a + b, c) == index_of(a, c),
{
    let i = index_of(a, c);
    assert(is_first(a + b, c, i)) by {
        assert forall|j: int| 0 <= j < i implies (a + b)[j] != c by {
            assert((a + b)[j] == a[j]);
        }
    }
    lemma_index_of_first(a + b, c, i);
}

} // verus!
