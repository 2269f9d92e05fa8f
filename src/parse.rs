//! Decoding of a reading written with exactly one fractional digit.

use vstd::prelude::*;

verus! {

pub const MINUS: u8 = 45;

pub const POINT: u8 = 46;

pub const ZERO: u8 = 48;

pub const NINE: u8 = 57;

pub open spec fn is_digit(b: u8) -> bool {
    48 <= b <= 57
}

/// Whether the text starts with a minus sign.
pub open spec fn has_sign(s: Seq<u8>) -> bool {
    s.len() > 0 && s[0] == 45
}

/// The text without its leading minus sign, if it has one.
pub open spec fn unsigned_part(s: Seq<u8>) -> Seq<u8> {
    if has_sign(s) {
        s.drop_first()
    } else {
        s
    }
}

/// One to three digits, a point and one digit.
pub open spec fn well_formed_unsigned(d: Seq<u8>) -> bool {
    &&& 3 <= d.len() <= 5
    &&& d[d.len() - 2] == 46
    &&& forall|i: int| 0 <= i < d.len() && i != d.len() - 2 ==> is_digit(#[trigger] d[i])
}

/// A reading as the input format writes it: `-?D{1,3}.D`.
pub open spec fn well_formed(s: Seq<u8>) -> bool {
    well_formed_unsigned(unsigned_part(s))
}

/// The number that a run of decimal digits stands for.
pub open spec fn digits_value(d: Seq<u8>) -> int
    decreases d.len(),
{
    if d.len() == 0 {
        0
    } else {
        digits_value(d.drop_last()) * 10 + (d.last() - 48)
    }
}

/// The value of a well-formed reading, in tenths.
pub open spec fn tenths(s: Seq<u8>) -> int {
    let d = unsigned_part(s);
    let m = digits_value(d.subrange(0, d.len() - 2)) * 10 + (d[d.len() - 1] - 48);
    if has_sign(s) {
        -m
    } else {
        m
    }
}

/// Tells whether `temp` is a well-formed reading.
pub fn is_well_formed(temp: &[u8]) -> (r: bool)
    ensures
        r == well_formed(temp@),
{
    let start: usize = if temp.len() > 0 && temp[0] == MINUS { 1 } else { 0 };
    let n = temp.len() - start;
    let ghost d = unsigned_part(temp@);
    assert(d =~= temp@.subrange(start as int, temp@.len() as int));
    if n < 3 || n > 5 {
        return false;
    }
    if temp[temp.len() - 2] != POINT {
        return false;
    }
    let mut i: usize = start;
    while i < temp.len()
        invariant
            start <= i <= temp.len(),
            temp.len() - start == n,
            3 <= n <= 5,
            d == temp@.subrange(start as int, temp@.len() as int),
            d == unsigned_part(temp@),
            temp@[temp.len() - 2] == POINT,
            forall|j: int| start <= j < i && j != temp.len() - 2 ==> is_digit(#[trigger] temp@[j]),
        decreases temp.len() - i,
    {
        if i != temp.len() - 2 && !(ZERO <= temp[i] && temp[i] <= NINE) {
            assert(d[i - start] == temp@[i as int]);
            return false;
        }
        i = i + 1;
    }
    proof {
        assert forall|k: int| 0 <= k < d.len() && k != d.len() - 2 implies is_digit(#[trigger] d[k]) by {
            assert(d[k] == temp@[k + start]);
        }
    }
    true
}

/// The byte in slot `i` of five, when the digits `d` are right-aligned in
/// them and the slots to their left hold the digit zero.
pub open spec fn slot(d: Seq<u8>, i: int) -> u8 {
    let pad = 5 - d.len();
    if i < pad {
        48
    } else {
        d[i - pad]
    }
}

/// Decodes a reading into tenths (`"-7.2"` gives `-72`); empty text gives zero.
///
/// The digits without the sign are right-aligned in five slots, the point
/// included, each slot is weighted by its place value and the point's slot by
/// zero.
pub fn parse_temp(temp: &[u8]) -> (r: i16)
    requires
        temp@.len() == 0 || well_formed(temp@),
    ensures
        temp@.len() == 0 ==> r == 0,
        well_formed(temp@) ==> r == tenths(temp@),
        -9999 <= r <= 9999,
{
    if temp.len() == 0 {
        return 0;
    }
    let negative = temp[0] == MINUS;
    let start: usize = if negative { 1 } else { 0 };
    let digits = vstd::slice::slice_subrange(temp, start, temp.len());
    let ghost d = digits@;
    assert(d == unsigned_part(temp@));
    let n = digits.len();
    let pad = 5 - n;
    let c0: u8 = if 0 < pad { ZERO } else { digits[0 - pad] };
    let c1: u8 = if 1 < pad { ZERO } else { digits[1 - pad] };
    let c2: u8 = if 2 < pad { ZERO } else { digits[2 - pad] };
    let c4: u8 = digits[n - 1];
    assert(c0 == slot(d, 0) && c1 == slot(d, 1) && c2 == slot(d, 2));
    assert(is_digit(c0) && is_digit(c1) && is_digit(c2) && is_digit(c4)) by {
        assert(is_digit(d[n - 1]));
        if n >= 3 {
            assert(is_digit(d[n - 3]));
        }
        if n >= 4 {
            assert(is_digit(d[n - 4]));
        }
        if n >= 5 {
            assert(is_digit(d[0]));
        }
    }
    let m: i16 = (c0 - ZERO) as i16 * 1000 + (c1 - ZERO) as i16 * 100 + (c2 - ZERO) as i16 * 10
        + (c4 - ZERO) as i16;
    proof {
        let int_part = d.subrange(0, n - 2);
        reveal_with_fuel(digits_value, 4);
        assert(int_part.drop_last() == d.subrange(0, n - 3));
        if n >= 4 {
            assert(int_part.drop_last().drop_last() == d.subrange(0, n - 4));
        }
        if n == 5 {
            assert(int_part.drop_last().drop_last().drop_last() =~= Seq::<u8>::empty());
        } else if n == 4 {
            assert(int_part.drop_last().drop_last() =~= Seq::<u8>::empty());
        } else {
            assert(int_part.drop_last() =~= Seq::<u8>::empty());
        }
    }
    if negative {
        -m
    } else {
        m
    }
}

} // verus!
