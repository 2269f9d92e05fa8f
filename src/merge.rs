//! Folding shard maps into one aggregate ordered by key.

use vstd::prelude::*;
use core::cmp::Ordering;
use crate::array::{lemma_lex_cmp, lemma_lex_lt_transitive, lex_lt, Array};
use crate::record::{max_readings, Record};
use crate::shard::{entries_are, shard_contents, ShardMap};

verus! {

/// The map that a list of entries with distinct keys stands for.
pub open spec fn entries_map(e: Seq<(Array, Record)>) -> Map<Seq<u8>, Record> {
    Map::new(
        |k: Seq<u8>| exists|i: int| 0 <= i < e.len() && #[trigger] e[i].0@ == k,
        |k: Seq<u8>| e[choose|i: int| 0 <= i < e.len() && #[trigger] e[i].0@ == k].1,
    )
}

/// The keys of `e` ascend strictly.
pub open spec fn sorted_by_key(e: Seq<(Array, Record)>) -> bool {
    forall|i: int, j: int| 0 <= i < j < e.len() ==> lex_lt(#[trigger] e[i].0@, #[trigger] e[j].0@)
}

/// The summaries of two disjoint sets of readings, key by key.
pub open spec fn merge_maps(a: Map<Seq<u8>, Record>, b: Map<Seq<u8>, Record>) -> Map<Seq<u8>, Record> {
    Map::new(
        |k: Seq<u8>| a.contains_key(k) || b.contains_key(k),
        |k: Seq<u8>|
            if a.contains_key(k) && b.contains_key(k) {
                a[k].combine(b[k])
            } else if a.contains_key(k) {
                a[k]
            } else {
                b[k]
            },
    )
}

/// Merging shard maps does not depend on their order: the merge is
/// commutative.
pub proof fn lemma_merge_maps_commutative(a: Map<Seq<u8>, Record>, b: Map<Seq<u8>, Record>)
    ensures
        merge_maps(a, b) == merge_maps(b, a),
{
    assert(merge_maps(a, b) =~= merge_maps(b, a));
}

/// Merging shard maps does not depend on their grouping: the merge is
/// associative where the counts and totals stay within the machine types.
pub proof fn lemma_merge_maps_associative(
    a: Map<Seq<u8>, Record>,
    b: Map<Seq<u8>, Record>,
    c: Map<Seq<u8>, Record>,
)
    requires
        all_wf(a),
        all_wf(b),
        all_wf(c),
        forall|k: Seq<u8>|
            #[trigger] merge_maps(merge_maps(a, b), c).contains_key(k) ==> count_of(a, k) + count_of(b, k)
                + count_of(c, k) <= max_readings(),
    ensures
        merge_maps(merge_maps(a, b), c) == merge_maps(a, merge_maps(b, c)),
{
    let l = merge_maps(merge_maps(a, b), c);
    let r = merge_maps(a, merge_maps(b, c));
    assert forall|k: Seq<u8>| #[trigger] l.contains_key(k) implies l[k] == r[k] by {
        if a.contains_key(k) && b.contains_key(k) && c.contains_key(k) {
            let (x, y, z) = (a[k], b[k], c[k]);
            assert(9999 * (x.count + y.count + z.count) <= 9999 * 0x1_0000_0000_0000) by (nonlinear_arith)
                requires
                    x.count + y.count + z.count <= 0x1_0000_0000_0000,
            ;
            crate::record::lemma_combine_associative(x, y, z);
        }
    }
    assert(l =~= r);
}

/// The number of readings of `k` in `m`; zero where `m` has no `k`.
pub open spec fn count_of(m: Map<Seq<u8>, Record>, k: Seq<u8>) -> int {
    if m.contains_key(k) {
        m[k].count as int
    } else {
        0
    }
}

/// All the summaries of `m` are well formed.
pub open spec fn all_wf(m: Map<Seq<u8>, Record>) -> bool {
    forall|k: Seq<u8>| #[trigger] m.contains_key(k) ==> m[k].wf()
}

/// Two maps can be merged without leaving the machine types.
pub open spec fn mergeable(a: Map<Seq<u8>, Record>, b: Map<Seq<u8>, Record>) -> bool {
    forall|k: Seq<u8>|
        #[trigger] a.contains_key(k) && b.contains_key(k) ==> a[k].count + b[k].count
            <= max_readings()
}

pub proof fn lemma_sorted_distinct(e: Seq<(Array, Record)>)
    requires
        sorted_by_key(e),
    ensures
        forall|i: int, j: int| 0 <= i < j < e.len() ==> e[i].0@ != e[j].0@,
{
    assert forall|i: int, j: int| 0 <= i < j < e.len() implies e[i].0@ != e[j].0@ by {
        lemma_lex_cmp(e[i].0@, e[j].0@);
        assert(lex_lt(e[i].0@, e[j].0@));
    }
}

/// A list with distinct keys lists the entries of the map it stands for, and
/// of no other.
pub proof fn lemma_entries_map(e: Seq<(Array, Record)>, m: Map<Seq<u8>, Record>)
    requires
        forall|i: int, j: int| 0 <= i < j < e.len() ==> e[i].0@ != e[j].0@,
    ensures
        entries_are(e, entries_map(e)),
        entries_are(e, m) ==> m == entries_map(e),
{
    let em = entries_map(e);
    assert forall|i: int| 0 <= i < e.len() implies em.contains_key(#[trigger] e[i].0@) && em[e[i].0@]
        == e[i].1 by {
        let k = e[i].0@;
        assert(em.contains_key(k));
        let c = choose|c: int| 0 <= c < e.len() && #[trigger] e[c].0@ == k;
        if c != i {
            if c < i {
                assert(e[c].0@ != e[i].0@);
            } else {
                assert(e[i].0@ != e[c].0@);
            }
        }
    }
    if entries_are(e, m) {
        assert forall|k: Seq<u8>| m.contains_key(k) <==> em.contains_key(k) by {
            if em.contains_key(k) {
                let i = choose|i: int| 0 <= i < e.len() && #[trigger] e[i].0@ == k;
                assert(m.contains_key(e[i].0@));
            }
        }
        assert forall|k: Seq<u8>| #[trigger] m.contains_key(k) implies m[k] == em[k] by {
            let i = choose|i: int| 0 <= i < e.len() && #[trigger] e[i].0@ == k;
            assert(m[e[i].0@] == e[i].1);
        }
        assert(m =~= em);
    }
}

/// The position in `acc` where `key` stands, or where it would be inserted.
fn find_slot(acc: &Vec<(Array, Record)>, key: &Array) -> (r: (usize, bool))
    requires
        sorted_by_key(acc@),
    ensures
        r.0 <= acc@.len(),
        r.1 ==> r.0 < acc@.len() && acc@[r.0 as int].0@ == key@,
        !r.1 ==> forall|j: int| 0 <= j < r.0 ==> lex_lt(#[trigger] acc@[j].0@, key@),
        !r.1 ==> forall|j: int| r.0 <= j < acc@.len() ==> lex_lt(key@, #[trigger] acc@[j].0@),
{
    let mut lo: usize = 0;
    let mut hi: usize = acc.len();
    while lo < hi
        invariant
            lo <= hi <= acc@.len(),
            sorted_by_key(acc@),
            forall|j: int| 0 <= j < lo ==> lex_lt(#[trigger] acc@[j].0@, key@),
            forall|j: int| hi <= j < acc@.len() ==> lex_lt(key@, #[trigger] acc@[j].0@),
        decreases hi - lo,
    {
        let mid = lo + (hi - lo) / 2;
        let c = acc[mid].0.compare(key);
        proof {
            lemma_lex_cmp(acc@[mid as int].0@, key@);
            lemma_lex_cmp(key@, acc@[mid as int].0@);
        }
        match c {
            Ordering::Equal => {
                return (mid, true);
            },
            Ordering::Less => {
                assert forall|j: int| 0 <= j < mid + 1 implies lex_lt(#[trigger] acc@[j].0@, key@) by {
                    if j < mid {
                        lemma_lex_lt_transitive(acc@[j].0@, acc@[mid as int].0@, key@);
                    }
                }
                lo = mid + 1;
            },
            Ordering::Greater => {
                assert forall|j: int| mid <= j < acc@.len() implies lex_lt(key@, #[trigger] acc@[j].0@) by {
                    if j > mid {
                        lemma_lex_lt_transitive(key@, acc@[mid as int].0@, acc@[j].0@);
                    }
                }
                hi = mid;
            },
        }
    }
    (lo, false)
}

/// Some entry of `e` has the key `k`.
pub open spec fn has_key(e: Seq<(Array, Record)>, k: Seq<u8>) -> bool {
    exists|i: int| 0 <= i < e.len() && #[trigger] e[i].0@ == k
}

/// Merges the summaries of a shard into `acc`, which stays ordered by key.
pub fn merge_into(acc: &mut Vec<(Array, Record)>, shard: ShardMap)
    requires
        sorted_by_key(old(acc)@),
        all_wf(entries_map(old(acc)@)),
        all_wf(shard_contents(shard)),
        mergeable(entries_map(old(acc)@), shard_contents(shard)),
    ensures
        sorted_by_key(final(acc)@),
        entries_map(final(acc)@) == merge_maps(entries_map(old(acc)@), shard_contents(shard)),
        all_wf(entries_map(final(acc)@)),
{
    let ghost m0 = entries_map(acc@);
    let ghost s = shard_contents(shard);
    let ghost mm = merge_maps(m0, s);
    proof {
        lemma_sorted_distinct(acc@);
        lemma_entries_map(acc@, m0);
    }
    let mut entries = shard.into_entries();
    let ghost mut cur = m0;
    proof {
        assert forall|k: Seq<u8>| has_key(entries@, k) <==> s.contains_key(k) by {
            if s.contains_key(k) {
                let i = choose|i: int| 0 <= i < entries@.len() && #[trigger] entries@[i].0@ == k;
            }
        }
    }
    loop
        invariant
            sorted_by_key(acc@),
            entries_are(acc@, cur),
            forall|i: int, j: int| 0 <= i < j < entries@.len() ==> entries@[i].0@ != entries@[j].0@,
            forall|i: int|
                0 <= i < entries@.len() ==> s.contains_key(#[trigger] entries@[i].0@) && s[entries@[i].0@]
                    == entries@[i].1,
            all_wf(s),
            all_wf(m0),
            mergeable(m0, s),
            mm == merge_maps(m0, s),
            forall|k: Seq<u8>|
                #[trigger] cur.contains_key(k) <==> (m0.contains_key(k) || (s.contains_key(k)
                    && !has_key(entries@, k))),
            forall|k: Seq<u8>|
                #[trigger] cur.contains_key(k) ==> cur[k] == (if has_key(entries@, k) {
                    m0[k]
                } else {
                    mm[k]
                }),
        ensures
            entries@.len() == 0,
        decreases entries@.len(),
    {
        let ghost before = entries@;
        let (key, rec) = match entries.pop() {
            Some(e) => e,
            None => {
                proof {
                    assert(entries@.len() == 0);
                    assert forall|k: Seq<u8>| !has_key(entries@, k) by {}
                }
                break;
            },
        };
        proof {
            assert(entries@ == before.drop_last());
            assert(before[before.len() - 1].0@ == key@);
            assert(has_key(before, key@));
            assert forall|k: Seq<u8>| has_key(entries@, k) <==> (has_key(before, k) && k != key@) by {
                if has_key(entries@, k) {
                    let i = choose|i: int| 0 <= i < entries@.len() && #[trigger] entries@[i].0@ == k;
                    assert(before[i].0@ == k);
                    assert(before[i].0@ != before[before.len() - 1].0@);
                }
                if has_key(before, k) && k != key@ {
                    let i = choose|i: int| 0 <= i < before.len() && #[trigger] before[i].0@ == k;
                    assert(entries@[i].0@ == k);
                }
            }
        }
        let (slot, found) = find_slot(acc, &key);
        if found {
            let mut merged = acc[slot].1;
            proof {
                assert(cur.contains_key(key@));
                assert(m0.contains_key(key@));
                assert(cur[key@] == m0[key@]);
                assert(s.contains_key(key@) && s[key@] == rec);
                let a = m0[key@];
                assert(a.wf() && rec.wf());
                assert(a.count + rec.count <= max_readings());
                assert(9999 * (a.count + rec.count) <= 9999 * 0x1_0000_0000_0000) by (nonlinear_arith)
                    requires
                        a.count + rec.count <= 0x1_0000_0000_0000,
                ;
            }
            merged.merge(rec);
            let ghost old_acc = acc@;
            acc.set(slot, (key, merged));
            proof {
                cur = cur.insert(old_acc[slot as int].0@, merged);
                assert forall|i: int| 0 <= i < acc@.len() implies #[trigger] acc@[i].0@ == old_acc[i].0@ by {
                }
                assert(sorted_by_key(acc@));
                assert forall|i: int| 0 <= i < acc@.len() implies cur.contains_key(#[trigger] acc@[i].0@)
                    && cur[acc@[i].0@] == acc@[i].1 by {
                    assert(old_acc[i].0@ == acc@[i].0@);
                    if i != slot {
                        lemma_sorted_distinct(old_acc);
                        assert(old_acc[i].0@ != old_acc[slot as int].0@);
                    }
                }
                assert forall|k: Seq<u8>| cur.contains_key(k) implies exists|i: int|
                    0 <= i < acc@.len() && #[trigger] acc@[i].0@ == k by {
                    if k != key@ {
                        let i = choose|i: int| 0 <= i < old_acc.len() && #[trigger] old_acc[i].0@ == k;
                        assert(acc@[i].0@ == k);
                    } else {
                        assert(acc@[slot as int].0@ == k);
                    }
                }
                lemma_sorted_distinct(acc@);
                assert(entries_are(acc@, cur));
            }
        } else {
            proof {
                assert(!cur.contains_key(key@)) by {
                    if cur.contains_key(key@) {
                        let i = choose|i: int| 0 <= i < acc@.len() && #[trigger] acc@[i].0@ == key@;
                        lemma_lex_cmp(key@, key@);
                    }
                }
                assert(!m0.contains_key(key@));
                assert(s.contains_key(key@) && s[key@] == rec);
            }
            let ghost old_acc = acc@;
            acc.insert(slot, (key, rec));
            proof {
                cur = cur.insert(key@, rec);
                assert forall|i: int, j: int| 0 <= i < j < acc@.len() implies lex_lt(
                    #[trigger] acc@[i].0@,
                    #[trigger] acc@[j].0@,
                ) by {
                    if i < slot && j == slot {
                    } else if i < slot && j > slot {
                        assert(acc@[j] == old_acc[j - 1]);
                    } else if i == slot {
                        assert(acc@[j] == old_acc[j - 1]);
                    } else if i > slot {
                        assert(acc@[i] == old_acc[i - 1]);
                        assert(acc@[j] == old_acc[j - 1]);
                    }
                }
                assert forall|k: Seq<u8>| cur.contains_key(k) implies exists|i: int|
                    0 <= i < acc@.len() && #[trigger] acc@[i].0@ == k by {
                    if k == key@ {
                        assert(acc@[slot as int].0@ == k);
                    } else {
                        let i = choose|i: int| 0 <= i < old_acc.len() && #[trigger] old_acc[i].0@ == k;
                        if i < slot {
                            assert(acc@[i].0@ == k);
                        } else {
                            assert(acc@[i + 1].0@ == k);
                        }
                    }
                }
                assert forall|i: int| 0 <= i < acc@.len() implies cur.contains_key(#[trigger] acc@[i].0@)
                    && cur[acc@[i].0@] == acc@[i].1 by {
                    if i < slot {
                        assert(acc@[i] == old_acc[i]);
                        assert(old_acc[i].0@ != key@) by {
                            lemma_lex_cmp(old_acc[i].0@, key@);
                        }
                    } else if i > slot {
                        assert(acc@[i] == old_acc[i - 1]);
                        assert(old_acc[i - 1].0@ != key@) by {
                            lemma_lex_cmp(key@, old_acc[i - 1].0@);
                        }
                    }
                }
                lemma_sorted_distinct(acc@);
                assert(entries_are(acc@, cur));
            }
        }
    }
    proof {
        assert forall|k: Seq<u8>| !has_key(entries@, k) by {}
        assert forall|k: Seq<u8>| #[trigger] cur.contains_key(k) <==> mm.contains_key(k) by {}
        assert forall|k: Seq<u8>| #[trigger] cur.contains_key(k) implies cur[k] == mm[k] by {}
        assert(cur =~= mm);
        lemma_entries_map(acc@, cur);
    }
}

/// Two lists ordered by key that stand for the same map are the same list,
/// entry by entry: the ordered aggregate, and so the report, depends only on
/// the map.
pub proof fn lemma_sorted_entries_unique(e1: Seq<(Array, Record)>, e2: Seq<(Array, Record)>)
    requires
        sorted_by_key(e1),
        sorted_by_key(e2),
        entries_map(e1) == entries_map(e2),
    ensures
        e1.len() == e2.len(),
        forall|i: int| 0 <= i < e1.len() ==> #[trigger] e1[i].0@ == e2[i].0@ && e1[i].1 == e2[i].1,
    decreases e1.len() + e2.len(),
{
    let m = entries_map(e1);
    lemma_sorted_distinct(e1);
    lemma_sorted_distinct(e2);
    lemma_entries_map(e1, m);
    lemma_entries_map(e2, m);
    if e1.len() == 0 || e2.len() == 0 {
        if e1.len() > 0 {
            assert(m.contains_key(e1[0].0@));
            let j = choose|j: int| 0 <= j < e2.len() && #[trigger] e2[j].0@ == e1[0].0@;
        }
        if e2.len() > 0 {
            assert(m.contains_key(e2[0].0@));
            let j = choose|j: int| 0 <= j < e1.len() && #[trigger] e1[j].0@ == e2[0].0@;
        }
    } else {
        let k1 = e1[0].0@;
        let k2 = e2[0].0@;
        if k1 != k2 {
            assert(m.contains_key(k1) && m.contains_key(k2));
            let j2 = choose|j: int| 0 <= j < e2.len() && #[trigger] e2[j].0@ == k1;
            let j1 = choose|j: int| 0 <= j < e1.len() && #[trigger] e1[j].0@ == k2;
            assert(lex_lt(k2, k1));
            assert(lex_lt(k1, k2));
            lemma_lex_cmp(k1, k2);
        }
        let t1 = e1.drop_first();
        let t2 = e2.drop_first();
        assert(sorted_by_key(t1)) by {
            assert forall|i: int, j: int| 0 <= i < j < t1.len() implies lex_lt(#[trigger] t1[i].0@, #[trigger] t1[j].0@) by {
                assert(t1[i] == e1[i + 1] && t1[j] == e1[j + 1]);
            }
        }
        assert(sorted_by_key(t2)) by {
            assert forall|i: int, j: int| 0 <= i < j < t2.len() implies lex_lt(#[trigger] t2[i].0@, #[trigger] t2[j].0@) by {
                assert(t2[i] == e2[i + 1] && t2[j] == e2[j + 1]);
            }
        }
        let rm = m.remove(k1);
        lemma_sorted_distinct(t1);
        lemma_sorted_distinct(t2);
        assert(entries_are(t1, rm)) by {
            assert forall|i: int| 0 <= i < t1.len() implies rm.contains_key(#[trigger] t1[i].0@) && rm[t1[i].0@] == t1[i].1 by {
                assert(t1[i] == e1[i + 1]);
                assert(e1[0].0@ != e1[i + 1].0@);
            }
            assert forall|k: Seq<u8>| rm.contains_key(k) implies exists|i: int| 0 <= i < t1.len() && #[trigger] t1[i].0@ == k by {
                let j = choose|j: int| 0 <= j < e1.len() && #[trigger] e1[j].0@ == k;
                assert(t1[j - 1] == e1[j]);
            }
        }
        assert(entries_are(t2, rm)) by {
            assert forall|i: int| 0 <= i < t2.len() implies rm.contains_key(#[trigger] t2[i].0@) && rm[t2[i].0@] == t2[i].1 by {
                assert(t2[i] == e2[i + 1]);
                assert(e2[0].0@ != e2[i + 1].0@);
            }
            assert forall|k: Seq<u8>| rm.contains_key(k) implies exists|i: int| 0 <= i < t2.len() && #[trigger] t2[i].0@ == k by {
                let j = choose|j: int| 0 <= j < e2.len() && #[trigger] e2[j].0@ == k;
                assert(t2[j - 1] == e2[j]);
            }
        }
        lemma_entries_map(t1, rm);
        lemma_entries_map(t2, rm);
        lemma_sorted_entries_unique(t1, t2);
        assert forall|i: int| 0 <= i < e1.len() implies #[trigger] e1[i].0@ == e2[i].0@ && e1[i].1 == e2[i].1 by {
            if i > 0 {
                assert(e1[i] == t1[i - 1] && e2[i] == t2[i - 1]);
            } else {
                assert(m[k1] == e1[0].1 && m[k1] == e2[0].1);
            }
        }
    }
}

} // verus!
