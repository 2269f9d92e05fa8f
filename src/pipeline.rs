//! The whole aggregation, chunk by chunk, and why chunking does not change it.

use vstd::prelude::*;
use crate::aggregate::{
    add_reading, aggregate, first_error, key_of, lemma_first_error_prefix, lemma_lines_len,
    line_error, process, value_of, LineError,
};
use crate::array::Array;
use crate::merge::{all_wf, entries_map, merge_into, merge_maps, mergeable, sorted_by_key};
use crate::parse::{digits_value, is_digit, tenths, unsigned_part, well_formed};
use crate::partition::{chunk_bounds, chunk_lines, lemma_lines_split, lemma_partition};
use crate::record::{lemma_combine_associative, max_readings, Record};
use crate::scan::lines_of;
use crate::shard::shard_contents;

verus! {

/// A well-formed reading is at most `999.9` in magnitude.
pub proof fn lemma_tenths_bound(s: Seq<u8>)
    requires
        well_formed(s),
    ensures
        -9999 <= tenths(s) <= 9999,
{
    let d = unsigned_part(s);
    let n = d.len();
    let ip = d.subrange(0, n - 2);
    reveal_with_fuel(digits_value, 4);
    assert(is_digit(d[n - 1]));
    assert(is_digit(d[n - 3]) && ip[n - 3] == d[n - 3]);
    assert(ip.drop_last() =~= d.subrange(0, n - 3));
    if n >= 4 {
        assert(is_digit(d[n - 4]));
        assert(ip.drop_last().drop_last() =~= d.subrange(0, n - 4));
    }
    if n == 5 {
        assert(is_digit(d[0]));
        assert(ip.drop_last().drop_last().drop_last() =~= Seq::<u8>::empty());
    } else if n == 4 {
        assert(ip.drop_last().drop_last() =~= Seq::<u8>::empty());
    } else {
        assert(ip.drop_last() =~= Seq::<u8>::empty());
    }
}

/// No line has an error exactly when the first error is absent.
pub proof fn lemma_first_error_none(lines: Seq<Seq<u8>>)
    ensures
        first_error(lines) is None <==> forall|i: int|
            0 <= i < lines.len() ==> line_error(#[trigger] lines[i]) is None,
    decreases lines.len(),
{
    if lines.len() > 0 {
        lemma_first_error_none(lines.drop_last());
        if first_error(lines) is None {
            assert forall|i: int| 0 <= i < lines.len() implies line_error(#[trigger] lines[i]) is None by {
                if i < lines.len() - 1 {
                    assert(lines.drop_last()[i] == lines[i]);
                }
            }
        }
        if forall|i: int| 0 <= i < lines.len() ==> line_error(#[trigger] lines[i]) is None {
            assert forall|i: int| 0 <= i < lines.len() - 1 implies line_error(
                #[trigger] lines.drop_last()[i],
            ) is None by {
                assert(lines.drop_last()[i] == lines[i]);
            }
            assert(line_error(lines[lines.len() - 1]) is None);
        }
    }
}

/// After lines without error, the first error is that of the lines that follow.
pub proof fn lemma_first_error_append(a: Seq<Seq<u8>>, b: Seq<Seq<u8>>)
    requires
        first_error(a) is None,
    ensures
        first_error(a + b) == first_error(b),
    decreases b.len(),
{
    if b.len() == 0 {
        assert(a + b =~= a);
    } else {
        assert((a + b).drop_last() =~= a + b.drop_last());
        lemma_first_error_append(a, b.drop_last());
    }
}

/// The summaries of lines without error are well formed and count at most
/// as many readings as there are lines.
pub proof fn lemma_aggregate_wf(lines: Seq<Seq<u8>>)
    requires
        first_error(lines) is None,
        lines.len() <= max_readings(),
    ensures
        all_wf(aggregate(lines)),
        forall|k: Seq<u8>| #[trigger] aggregate(lines).contains_key(k) ==> aggregate(lines)[k].count <= lines.len(),
    decreases lines.len(),
{
    if lines.len() > 0 {
        let init = lines.drop_last();
        let line = lines.last();
        assert(first_error(init) is None);
        lemma_aggregate_wf(init);
        if line.len() > 0 {
            assert(line_error(line) is None);
            lemma_tenths_bound(value_of(line));
        }
    }
}

/// Aggregating the lines of two pieces one after the other gives the merge of
/// the two pieces' aggregates.
pub proof fn lemma_aggregate_append(l1: Seq<Seq<u8>>, l2: Seq<Seq<u8>>)
    requires
        first_error(l1 + l2) is None,
        l1.len() + l2.len() <= max_readings(),
    ensures
        aggregate(l1 + l2) == merge_maps(aggregate(l1), aggregate(l2)),
    decreases l2.len(),
{
    lemma_first_error_none(l1 + l2);
    lemma_first_error_none(l1);
    lemma_first_error_none(l2);
    assert forall|i: int| 0 <= i < l1.len() implies line_error(#[trigger] l1[i]) is None by {
        assert((l1 + l2)[i] == l1[i]);
    }
    assert forall|i: int| 0 <= i < l2.len() implies line_error(#[trigger] l2[i]) is None by {
        assert((l1 + l2)[l1.len() + i] == l2[i]);
    }
    let a1 = aggregate(l1);
    if l2.len() == 0 {
        assert(l1 + l2 =~= l1);
        assert(merge_maps(a1, aggregate(l2)) =~= a1);
    } else {
        let l2i = l2.drop_last();
        let line = l2.last();
        assert((l1 + l2).drop_last() =~= l1 + l2i);
        assert(first_error(l1 + l2i) is None) by {
            lemma_first_error_none(l1 + l2i);
            assert forall|i: int| 0 <= i < (l1 + l2i).len() implies line_error(#[trigger] (l1 + l2i)[i]) is None by {
                assert((l1 + l2i)[i] == (l1 + l2)[i]);
            }
        }
        lemma_aggregate_append(l1, l2i);
        let a2 = aggregate(l2i);
        if line.len() > 0 {
            assert(line_error((l1 + l2)[(l1 + l2).len() - 1]) is None);
            assert(line_error(line) is None);
            lemma_tenths_bound(value_of(line));
            let k = key_of(line);
            let v = tenths(value_of(line)) as i16;
            assert(first_error(l2i) is None) by {
                lemma_first_error_none(l2i);
                assert forall|i: int| 0 <= i < l2i.len() implies line_error(#[trigger] l2i[i]) is None by {
                    assert(l2i[i] == l2[i]);
                }
            }
            lemma_aggregate_wf(l1);
            lemma_aggregate_wf(l2i);
            let lhs = add_reading(merge_maps(a1, a2), k, v);
            let rhs = merge_maps(a1, add_reading(a2, k, v));
            if a1.contains_key(k) && a2.contains_key(k) {
                let (x, y, z) = (a1[k], a2[k], Record::single(v));
                assert(x.count + y.count + 1 <= max_readings());
                assert(9999 * (x.count + y.count + 1) <= 9999 * 0x1_0000_0000_0000) by (nonlinear_arith)
                    requires
                        x.count + y.count + 1 <= 0x1_0000_0000_0000,
                ;
                lemma_combine_associative(x, y, z);
            }
            assert(lhs =~= rhs);
        } else {
            assert(aggregate(l2) == a2);
        }
    }
}

/// Maps whose counts are bounded by two numbers that sum to at most the
/// readings bound can be merged.
proof fn lemma_mergeable(a: Map<Seq<u8>, Record>, b: Map<Seq<u8>, Record>, na: nat, nb: nat)
    requires
        forall|k: Seq<u8>| #[trigger] a.contains_key(k) ==> a[k].count <= na,
        forall|k: Seq<u8>| #[trigger] b.contains_key(k) ==> b[k].count <= nb,
        na + nb <= max_readings(),
    ensures
        mergeable(a, b),
{
}

/// The lines up to the end of chunk `k` are those of the earlier chunks and
/// then those of chunk `k`, and they begin the lines of `s`.
proof fn lemma_chunk_step(s: Seq<u8>, n: int, b: Seq<usize>, k: int)
    requires
        0 <= k < n,
        b.len() == n + 1,
        forall|j: int| 0 <= j < n ==> #[trigger] b[j] <= b[j + 1],
        forall|j: int| 0 <= j <= n ==> crate::partition::is_cut(s, #[trigger] b[j] as int) && b[j] <= s.len(),
        lines_of(s.subrange(0, b[k] as int)) == chunk_lines(s, b, k),
        first_error(chunk_lines(s, b, k)) is None,
    ensures
        chunk_lines(s, b, k + 1) == chunk_lines(s, b, k) + lines_of(s.subrange(b[k] as int, b[k + 1] as int)),
        lines_of(s.subrange(0, b[k + 1] as int)) == chunk_lines(s, b, k + 1),
        lines_of(s) == chunk_lines(s, b, k + 1) + lines_of(s.subrange(b[k + 1] as int, s.len() as int)),
        chunk_lines(s, b, k + 1).len() <= b[k + 1],
        first_error(chunk_lines(s, b, k + 1)) == first_error(lines_of(s.subrange(b[k] as int, b[k + 1] as int))),
{
    let lo = b[k] as int;
    let hi = b[k + 1] as int;
    assert(lo <= hi);
    assert(crate::partition::is_cut(s, hi) && hi <= s.len());
    assert(crate::partition::is_cut(s, lo));
    let prev = chunk_lines(s, b, k);
    let cl = lines_of(s.subrange(lo, hi));
    let upto = s.subrange(0, hi);
    assert(upto.subrange(0, lo) =~= s.subrange(0, lo));
    assert(upto.subrange(lo, hi) =~= s.subrange(lo, hi));
    if lo > 0 && lo < hi {
        assert(upto[lo - 1] == s[lo - 1]);
    }
    lemma_lines_split(upto, lo);
    lemma_lines_split(s, hi);
    lemma_lines_len(upto);
    lemma_first_error_append(prev, cl);
}

/// Summarizes `values` per key, cutting it into `n` line-aligned chunks,
/// aggregating each and merging the results in chunk order. The result is
/// ordered by key and is the aggregate of all the lines, whatever `n`; it
/// fails with the error of the first faulty line.
#[verifier::rlimit(50)]
pub fn summarize_file(values: &[u8], n: usize) -> (r: Result<Vec<(Array, Record)>, LineError>)
    requires
        n >= 1,
        values@.len() <= max_readings(),
    ensures
        r matches Ok(e) ==> sorted_by_key(e@) && entries_map(e@) == aggregate(lines_of(values@)),
        r matches Err(x) ==> first_error(lines_of(values@)) == Some(x),
        r is Ok <==> first_error(lines_of(values@)) is None,
{
    let b = chunk_bounds(values, n);
    let ghost s = values@;
    proof {
        lemma_partition(s, n as int, b@);
        assert forall|j: int| 0 <= j <= n implies #[trigger] b@[j] <= s.len() by {
            assert(crate::partition::is_cut(s, b@[j] as int));
        }
    }
    let mut acc: Vec<(Array, Record)> = Vec::new();
    proof {
        assert(entries_map(acc@) =~= aggregate(chunk_lines(s, b@, 0)));
    }
    let mut k: usize = 0;
    while k < n
        invariant
            0 <= k <= n,
            s == values@,
            s.len() <= max_readings(),
            b@.len() == n + 1,
            b@[n as int] == s.len(),
            forall|j: int| 0 <= j < n ==> #[trigger] b@[j] <= b@[j + 1],
            forall|j: int| 0 <= j <= n ==> crate::partition::is_cut(s, #[trigger] b@[j] as int) && b@[j] <= s.len(),
            lines_of(s.subrange(0, b@[k as int] as int)) == chunk_lines(s, b@, k as int),
            first_error(chunk_lines(s, b@, k as int)) is None,
            sorted_by_key(acc@),
            all_wf(entries_map(acc@)),
            entries_map(acc@) == aggregate(chunk_lines(s, b@, k as int)),
        decreases n - k,
    {
        let lo = b[k];
        let hi = b[k + 1];
        assert(lo <= hi && hi <= values.len()) by {
            assert(b@[k as int] <= b@[k + 1]);
            assert(crate::partition::is_cut(s, b@[k + 1] as int));
        }
        let chunk = vstd::slice::slice_subrange(values, lo, hi);
        let ghost prev = chunk_lines(s, b@, k as int);
        let ghost cl = lines_of(chunk@);
        let ghost next = chunk_lines(s, b@, k + 1);
        assert(chunk@ == s.subrange(lo as int, hi as int));
        proof {
            lemma_chunk_step(s, n as int, b@, k as int);
        }
        let shard = match process(chunk) {
            Ok(m) => m,
            Err(e) => {
                proof {
                    assert(first_error(next) == Some(e));
                    assert(lines_of(s).subrange(0, next.len() as int) =~= next);
                    lemma_first_error_prefix(lines_of(s), next);
                }
                return Err(e);
            },
        };
        proof {
            lemma_aggregate_wf(prev);
            assert(cl.len() <= chunk@.len()) by {
                lemma_lines_len(chunk@);
            }
            lemma_lines_len(s.subrange(0, lo as int));
            lemma_mergeable(entries_map(acc@), shard_contents(shard), prev.len(), chunk@.len());
            lemma_aggregate_append(prev, cl);
        }
        merge_into(&mut acc, shard);
        k = k + 1;
    }
    proof {
        assert(b@[n as int] == s.len());
        assert(s.subrange(0, s.len() as int) =~= s);
    }
    Ok(acc)
}

} // verus!
