//! The report text: `{key=min/avg/max, ...}` in key order.

use vstd::prelude::*;
use crate::array::Array;
use crate::record::Record;

verus! {

/// The decimal digits of `n`, most significant first.
pub open spec fn digits_of(n: nat) -> Seq<u8>
    decreases n,
{
    if n < 10 {
        seq![(48 + n) as u8]
    } else {
        digits_of(n / 10) + seq![(48 + n % 10) as u8]
    }
}

/// A value in tenths as a decimal: a minus sign where it is negative, the
/// integer part, and a point and the tenths digit where that digit is not
/// zero (`-70` is `-7`, `123` is `12.3`).
pub open spec fn tenths_text(v: int) -> Seq<u8> {
    let m = if v < 0 { -v } else { v };
    let sign = if v < 0 { seq![45u8] } else { Seq::<u8>::empty() };
    let frac = if m % 10 == 0 { Seq::<u8>::empty() } else { seq![46u8, (48 + m % 10) as u8] };
    sign + digits_of((m / 10) as nat) + frac
}

/// One entry: `key=min/avg/max`.
pub open spec fn entry_text(key: Seq<u8>, r: Record, avg: Seq<u8>) -> Seq<u8> {
    key + seq![61u8] + tenths_text(r.min as int) + seq![47u8] + avg + seq![47u8] + tenths_text(
        r.max as int,
    )
}

/// The first `n` entries, separated by `, `.
pub open spec fn entries_text(e: Seq<(Array, Record)>, avgs: Seq<Seq<u8>>, n: int) -> Seq<u8>
    decreases n,
{
    if n <= 0 {
        Seq::empty()
    } else if n == 1 {
        entry_text(e[0].0@, e[0].1, avgs[0])
    } else {
        entries_text(e, avgs, n - 1) + seq![44u8, 32u8] + entry_text(e[n - 1].0@, e[n - 1].1, avgs[n - 1])
    }
}

/// The whole report: the entries between braces.
pub open spec fn report_text(e: Seq<(Array, Record)>, avgs: Seq<Seq<u8>>) -> Seq<u8> {
    seq![123u8] + entries_text(e, avgs, e.len() as int) + seq![125u8]
}

fn push_all(out: &mut Vec<u8>, bytes: &[u8])
    ensures
        final(out)@ == old(out)@ + bytes@,
{
    let mut i: usize = 0;
    while i < bytes.len()
        invariant
            i <= bytes@.len(),
            out@ == old(out)@ + bytes@.subrange(0, i as int),
        decreases bytes.len() - i,
    {
        out.push(bytes[i]);
        i = i + 1;
        assert(out@ =~= old(out)@ + bytes@.subrange(0, i as int));
    }
    assert(bytes@.subrange(0, bytes@.len() as int) =~= bytes@);
}

fn push_digits(out: &mut Vec<u8>, n: u16)
    ensures
        final(out)@ == old(out)@ + digits_of(n as nat),
    decreases n,
{
    if n >= 10 {
        push_digits(out, n / 10);
    }
    out.push(48 + (n % 10) as u8);
    assert(out@ =~= old(out)@ + digits_of(n as nat));
}

/// Appends `v`, in tenths, as a decimal (see [`tenths_text`]).
pub fn push_tenths(out: &mut Vec<u8>, v: i16)
    ensures
        final(out)@ == old(out)@ + tenths_text(v as int),
{
    let ghost start = out@;
    let m: u16 = if v < 0 { (0 - (v as i32)) as u16 } else { v as u16 };
    if v < 0 {
        out.push(45);
    }
    push_digits(out, m / 10);
    if m % 10 != 0 {
        out.push(46);
        out.push(48 + (m % 10) as u8);
    }
    assert(out@ =~= start + tenths_text(v as int));
}

/// Renders the report of `entries`, where `avgs[i]` is the text of the
/// average of entry `i`.
pub fn render(entries: &Vec<(Array, Record)>, avgs: &Vec<Vec<u8>>) -> (r: Vec<u8>)
    requires
        avgs@.len() == entries@.len(),
    ensures
        r@ == report_text(entries@, avgs@.map_values(|a: Vec<u8>| a@)),
{
    let ghost av = avgs@.map_values(|a: Vec<u8>| a@);
    let mut out: Vec<u8> = Vec::new();
    out.push(123);
    let mut i: usize = 0;
    while i < entries.len()
        invariant
            i <= entries@.len(),
            avgs@.len() == entries@.len(),
            av == avgs@.map_values(|a: Vec<u8>| a@),
            out@ == seq![123u8] + entries_text(entries@, av, i as int),
        decreases entries.len() - i,
    {
        let ghost before = out@;
        if i > 0 {
            out.push(44);
            out.push(32);
        }
        push_all(&mut out, entries[i].0.as_bytes());
        out.push(61);
        push_tenths(&mut out, entries[i].1.min);
        out.push(47);
        push_all(&mut out, avgs[i].as_slice());
        out.push(47);
        push_tenths(&mut out, entries[i].1.max);
        proof {
            let et = entry_text(entries@[i as int].0@, entries@[i as int].1, av[i as int]);
            if i == 0 {
                assert(out@ =~= before + et);
            } else {
                assert(out@ =~= before + seq![44u8, 32u8] + et);
            }
            assert(out@ =~= seq![123u8] + entries_text(entries@, av, i + 1));
        }
        i = i + 1;
    }
    out.push(125);
    out
}

} // verus!
