//! An immutable byte string that keeps short contents inline.

use vstd::prelude::*;
use core::cmp::Ordering;
use vstd::std_specs::cmp::{PartialEqSpec, PartialOrdSpec};

verus! {

/// The most bytes held without a heap buffer.
pub const INLINE_CAP: usize = 23;

/// Lexicographic order of byte strings.
pub open spec fn lex_cmp(a: Seq<u8>, b: Seq<u8>) -> Ordering
    decreases a.len(),
{
    if a.len() == 0 {
        if b.len() == 0 {
            Ordering::Equal
        } else {
            Ordering::Less
        }
    } else if b.len() == 0 {
        Ordering::Greater
    } else if a[0] < b[0] {
        Ordering::Less
    } else if a[0] > b[0] {
        Ordering::Greater
    } else {
        lex_cmp(a.drop_first(), b.drop_first())
    }
}

/// `a` comes strictly before `b`.
pub open spec fn lex_lt(a: Seq<u8>, b: Seq<u8>) -> bool {
    lex_cmp(a, b) == Ordering::Less
}

/// Two byte strings compare equal exactly when they are the same, and `a`
/// comes before `b` exactly when `b` comes after `a`.
pub proof fn lemma_lex_cmp(a: Seq<u8>, b: Seq<u8>)
    ensures
        lex_cmp(a, b) == Ordering::Equal <==> a == b,
        lex_cmp(a, b) == Ordering::Less <==> lex_cmp(b, a) == Ordering::Greater,
    decreases a.len(),
{
    if a.len() > 0 && b.len() > 0 && a[0] == b[0] {
        lemma_lex_cmp(a.drop_first(), b.drop_first());
        if a.drop_first() == b.drop_first() {
            assert forall|i: int| 0 <= i < a.len() implies a[i] == b[i] by {
                if i > 0 {
                    assert(a[i] == a.drop_first()[i - 1]);
                    assert(b[i] == b.drop_first()[i - 1]);
                }
            }
            assert(a =~= b);
        }
    }
    if a.len() == 0 && b.len() == 0 {
        assert(a =~= b);
    }
    if a == b {
        lemma_lex_cmp_refl(a);
    }
}

pub proof fn lemma_lex_cmp_refl(a: Seq<u8>)
    ensures
        lex_cmp(a, a) == Ordering::Equal,
    decreases a.len(),
{
    if a.len() > 0 {
        lemma_lex_cmp_refl(a.drop_first());
    }
}

/// `lex_lt` is transitive.
pub proof fn lemma_lex_lt_transitive(a: Seq<u8>, b: Seq<u8>, c: Seq<u8>)
    requires
        lex_lt(a, b),
        lex_lt(b, c),
    ensures
        lex_lt(a, c),
    decreases a.len(),
{
    if a.len() > 0 && b.len() > 0 && c.len() > 0 && a[0] == b[0] && b[0] == c[0] {
        lemma_lex_lt_transitive(a.drop_first(), b.drop_first(), c.drop_first());
    }
}

/// Compares two byte strings lexicographically.
pub fn compare_bytes(a: &[u8], b: &[u8]) -> (r: Ordering)
    ensures
        r == lex_cmp(a@, b@),
{
    let mut i: usize = 0;
    assert(a@.subrange(0, a@.len() as int) =~= a@);
    assert(b@.subrange(0, b@.len() as int) =~= b@);
    while i < a.len() && i < b.len()
        invariant
            i <= a@.len(),
            i <= b@.len(),
            lex_cmp(a@, b@) == lex_cmp(
                a@.subrange(i as int, a@.len() as int),
                b@.subrange(i as int, b@.len() as int),
            ),
        decreases a.len() - i,
    {
        let ghost sa = a@.subrange(i as int, a@.len() as int);
        let ghost sb = b@.subrange(i as int, b@.len() as int);
        assert(sa[0] == a@[i as int] && sb[0] == b@[i as int]);
        if a[i] < b[i] {
            return Ordering::Less;
        }
        if a[i] > b[i] {
            return Ordering::Greater;
        }
        assert(sa.drop_first() =~= a@.subrange(i + 1, a@.len() as int));
        assert(sb.drop_first() =~= b@.subrange(i + 1, b@.len() as int));
        i = i + 1;
    }
    if i < b.len() {
        Ordering::Less
    } else if i < a.len() {
        Ordering::Greater
    } else {
        Ordering::Equal
    }
}

/// `s` followed by zeros up to [`INLINE_CAP`] bytes.
pub open spec fn padded(s: Seq<u8>) -> Seq<u8> {
    s + Seq::new((INLINE_CAP - s.len()) as nat, |i: int| 0u8)
}

/// Relies on `Vec::into_boxed_slice`: the boxed slice holds the vector's
/// elements.
#[verifier::external_body]
fn into_boxed(v: Vec<u8>) -> (r: Box<[u8]>)
    ensures
        r@ == v@,
{
    v.into_boxed_slice()
}

enum ReprArray {
    Inline { len: u8, buf: [u8; 23] },
    Heap(Box<[u8]>),
}

/// An immutable byte string. Contents of at most [`INLINE_CAP`] bytes are kept
/// in place, longer ones in a heap buffer; nothing else tells the two apart.
pub struct Array(ReprArray);

impl Array {
    /// The bytes held.
    pub closed spec fn view(&self) -> Seq<u8> {
        match self.0 {
            ReprArray::Inline { len, buf } => buf@.subrange(0, len as int),
            ReprArray::Heap(v) => v@,
        }
    }

    /// Short contents are inline with zeros after them, long ones on the heap,
    /// so that equal contents have one representation.
    #[verifier::type_invariant]
    closed spec fn inv(&self) -> bool {
        match self.0 {
            ReprArray::Inline { len, buf } => {
                &&& len <= INLINE_CAP
                &&& forall|i: int| len <= i < INLINE_CAP ==> buf@[i] == 0
            },
            ReprArray::Heap(v) => v@.len() > INLINE_CAP,
        }
    }

    /// The key holding `s`, in the one representation that `s` has.
    pub closed spec fn from_bytes(s: Seq<u8>) -> Array {
        if s.len() <= INLINE_CAP {
            Array(
                ReprArray::Inline {
                    len: s.len() as u8,
                    buf: choose|b: [u8; 23]| b@ == padded(s),
                },
            )
        } else {
            Array(ReprArray::Heap(choose|b: Box<[u8]>| b@ == s))
        }
    }

    /// Copies `items`.
    pub fn new(items: &[u8]) -> (r: Array)
        ensures
            r@ == items@,
            r == Array::from_bytes(items@),
    {
        if items.len() <= INLINE_CAP {
            let mut buf: [u8; 23] = vstd::array::array_fill_for_copy_types(0u8);
            let mut i: usize = 0;
            while i < items.len()
                invariant
                    i <= items@.len() <= INLINE_CAP,
                    forall|j: int| 0 <= j < i ==> buf@[j] == items@[j],
                    forall|j: int| items@.len() <= j < INLINE_CAP ==> buf@[j] == 0,
                decreases items.len() - i,
            {
                buf[i] = items[i];
                i = i + 1;
            }
            let r = Array(ReprArray::Inline { len: items.len() as u8, buf });
            assert(r@ =~= items@);
            proof {
                assert(buf@ =~= padded(items@));
                let c = choose|b: [u8; 23]| b@ == padded(items@);
                assert(c@ == buf@);
                assert(c =~= buf);
            }
            r
        } else {
            let boxed = into_boxed(vstd::slice::slice_to_vec(items));
            proof {
                let c = choose|b: Box<[u8]>| b@ == items@;
                assert(c@ == boxed@);
                assert(c =~= boxed);
            }
            Array(ReprArray::Heap(boxed))
        }
    }

    /// The bytes held.
    pub fn as_bytes(&self) -> (r: &[u8])
        ensures
            r@ == self@,
    {
        proof {
            use_type_invariant(self);
        }
        match &self.0 {
            ReprArray::Inline { len, buf } => vstd::slice::slice_subrange(
                vstd::array::array_as_slice(buf),
                0,
                *len as usize,
            ),
            ReprArray::Heap(items) => &**items,
        }
    }

    /// Compares the contents lexicographically.
    pub fn compare(&self, other: &Array) -> (r: Ordering)
        ensures
            r == lex_cmp(self@, other@),
    {
        compare_bytes(self.as_bytes(), other.as_bytes())
    }
}

/// Keys compare by their bytes alone, whether they are held inline or on the
/// heap: equal exactly when the bytes are, and ordered as the bytes are
/// lexicographically.
pub proof fn lemma_key_order(x: Array, y: Array)
    ensures
        x.eq_spec(&y) <==> x@ == y@,
        x.partial_cmp_spec(&y) == Some(Ordering::Less) <==> lex_lt(x@, y@),
        x.partial_cmp_spec(&y) == Some(Ordering::Equal) <==> x@ == y@,
        x.partial_cmp_spec(&y) == Some(Ordering::Greater) <==> lex_lt(y@, x@),
{
    lemma_lex_cmp(x@, y@);
    lemma_lex_cmp(y@, x@);
}

impl PartialEq for Array {
    fn eq(&self, other: &Array) -> (r: bool) {
        let r = compare_bytes(self.as_bytes(), other.as_bytes());
        proof {
            lemma_lex_cmp(self@, other@);
        }
        match r {
            Ordering::Equal => true,
            _ => false,
        }
    }
}

impl vstd::std_specs::cmp::PartialEqSpecImpl for Array {
    open spec fn obeys_eq_spec() -> bool {
        true
    }

    open spec fn eq_spec(&self, other: &Array) -> bool {
        self@ == other@
    }
}

impl Eq for Array {
}

impl PartialOrd for Array {
    fn partial_cmp(&self, other: &Array) -> (r: Option<Ordering>) {
        Some(self.compare(other))
    }
}

impl vstd::std_specs::cmp::PartialOrdSpecImpl for Array {
    open spec fn obeys_partial_cmp_spec() -> bool {
        true
    }

    open spec fn partial_cmp_spec(&self, other: &Array) -> Option<Ordering> {
        Some(lex_cmp(self@, other@))
    }
}

impl AsRef<[u8]> for Array {
    fn as_ref(&self) -> (r: &[u8])
        ensures
            r@ == self@,
    {
        self.as_bytes()
    }
}

impl core::borrow::Borrow<[u8]> for Array {
    fn borrow(&self) -> &[u8] {
        self.as_bytes()
    }
}

/// Relies on `<[u8] as Hash>::hash`: feeds `bytes` to `state` as a byte
/// slice is hashed.
#[verifier::external_body]
fn hash_bytes<H: core::hash::Hasher>(bytes: &[u8], state: &mut H) {
    core::hash::Hash::hash(bytes, state)
}

/// A key hashes as its bytes do, as `Borrow<[u8]>` asks.
impl core::hash::Hash for Array {
    fn hash<H: core::hash::Hasher>(&self, state: &mut H) {
        hash_bytes(self.as_bytes(), state)
    }
}

impl<'a> From<&'a [u8]> for Array {
    fn from(value: &'a [u8]) -> (r: Array)
        ensures
            r@ == value@,
    {
        Array::new(value)
    }
}

impl<'a> vstd::std_specs::convert::FromSpecImpl<&'a [u8]> for Array {
    open spec fn obeys_from_spec() -> bool {
        true
    }

    open spec fn from_spec(v: &'a [u8]) -> Array {
        Array::from_bytes(v@)
    }
}

} // verus!
