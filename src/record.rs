//! The per-key accumulator of readings.

use vstd::prelude::*;

verus! {

/// The most readings that one run can hold: one per line of a file that fits
/// both in a 48-bit address space and in a `usize` count.
pub open spec fn max_readings() -> int {
    if usize::MAX < 0x1_0000_0000_0000 {
        usize::MAX as int
    } else {
        0x1_0000_0000_0000
    }
}

/// A reading in tenths that the decoder can produce (`9999` stands for
/// `999.9`).
pub open spec fn valid_reading(v: i16) -> bool {
    -9999 <= v <= 9999
}

/// Summary of a non-empty set of readings of one key.
#[derive(Clone, Copy, Debug, PartialEq, Eq, Structural)]
pub struct Record {
    pub count: usize,
    pub total: i64,
    pub min: i16,
    pub max: i16,
}

impl Record {
    /// A summary built from at least one valid reading.
    pub open spec fn wf(&self) -> bool {
        &&& self.count >= 1
        &&& valid_reading(self.min)
        &&& valid_reading(self.max)
        &&& self.min <= self.max
        &&& -9999 * self.count <= self.total <= 9999 * self.count
    }

    /// The summary of a single reading.
    pub open spec fn single(v: i16) -> Record {
        Record { count: 1, total: v as i64, min: v, max: v }
    }

    /// The summary of the readings of `self` and `other` together.
    pub open spec fn combine(self, other: Record) -> Record {
        Record {
            count: (self.count + other.count) as usize,
            total: (self.total + other.total) as i64,
            min: if other.min < self.min { other.min } else { self.min },
            max: if other.max > self.max { other.max } else { self.max },
        }
    }

    /// Whether two summaries can be combined without leaving the machine types.
    pub open spec fn fits_with(self, other: Record) -> bool {
        &&& self.count + other.count <= usize::MAX
        &&& i64::MIN <= self.total + other.total <= i64::MAX
    }

    pub fn new(value: i16) -> (r: Record)
        ensures
            r == Record::single(value),
            valid_reading(value) ==> r.wf(),
    {
        Record { count: 1, total: value as i64, min: value, max: value }
    }

    /// Extends the summary with one more reading.
    pub fn update(&mut self, value: i16)
        requires
            old(self).fits_with(Record::single(value)),
        ensures
            *final(self) == old(self).combine(Record::single(value)),
            old(self).wf() && valid_reading(value) ==> final(self).wf(),
    {
        self.count = self.count + 1;
        if value > self.max {
            self.max = value;
        }
        if value < self.min {
            self.min = value;
        }
        self.total = self.total + value as i64;
    }

    /// Absorbs the summary of a disjoint set of readings.
    pub fn merge(&mut self, other: Record)
        requires
            old(self).fits_with(other),
        ensures
            *final(self) == old(self).combine(other),
            old(self).wf() && other.wf() ==> final(self).wf(),
    {
        self.count = self.count + other.count;
        if other.max > self.max {
            self.max = other.max;
        }
        if other.min < self.min {
            self.min = other.min;
        }
        self.total = self.total + other.total;
    }
}

/// The summary of a non-empty sequence of readings, taken one by one.
pub open spec fn summarize(vs: Seq<i16>) -> Record
    recommends
        vs.len() >= 1,
    decreases vs.len(),
{
    if vs.len() <= 1 {
        Record::single(vs[0])
    } else {
        summarize(vs.drop_last()).combine(Record::single(vs.last()))
    }
}

/// Combining summaries is commutative.
pub proof fn lemma_combine_commutative(a: Record, b: Record)
    ensures
        a.combine(b) == b.combine(a),
{
}

/// Combining summaries is associative.
pub proof fn lemma_combine_associative(a: Record, b: Record, c: Record)
    requires
        a.count + b.count + c.count <= usize::MAX,
        i64::MIN <= a.total + b.total + c.total <= i64::MAX,
        i64::MIN <= a.total + b.total <= i64::MAX,
        i64::MIN <= b.total + c.total <= i64::MAX,
    ensures
        a.combine(b).combine(c) == a.combine(b.combine(c)),
{
}

/// Whether every reading of a sequence is one the decoder can produce.
pub open spec fn all_valid(vs: Seq<i16>) -> bool {
    forall|i: int| 0 <= i < vs.len() ==> valid_reading(#[trigger] vs[i])
}

/// The summary of valid readings is well formed and counts them.
pub proof fn lemma_summarize_wf(vs: Seq<i16>)
    requires
        1 <= vs.len() <= max_readings(),
        all_valid(vs),
    ensures
        summarize(vs).wf(),
        summarize(vs).count == vs.len(),
    decreases vs.len(),
{
    if vs.len() > 1 {
        let init = vs.drop_last();
        assert(all_valid(init)) by {
            assert forall|i: int| 0 <= i < init.len() implies valid_reading(#[trigger] init[i]) by {
                assert(init[i] == vs[i]);
            }
        }
        lemma_summarize_wf(init);
        assert(valid_reading(vs[vs.len() - 1]));
    }
}

/// Splitting the readings of a key into two groups and combining the groups'
/// summaries gives the summary of all the readings.
pub proof fn lemma_summarize_split(xs: Seq<i16>, ys: Seq<i16>)
    requires
        xs.len() >= 1,
        ys.len() >= 1,
        xs.len() + ys.len() <= max_readings(),
        all_valid(xs),
        all_valid(ys),
    ensures
        summarize(xs + ys) == summarize(xs).combine(summarize(ys)),
    decreases ys.len(),
{
    if ys.len() == 1 {
        assert((xs + ys).drop_last() == xs);
    } else {
        let ys0 = ys.drop_last();
        assert((xs + ys).drop_last() == xs + ys0);
        assert(all_valid(ys0)) by {
            assert forall|i: int| 0 <= i < ys0.len() implies valid_reading(#[trigger] ys0[i]) by {
                assert(ys0[i] == ys[i]);
            }
        }
        assert(valid_reading(ys[ys.len() - 1]));
        lemma_summarize_split(xs, ys0);
        lemma_summarize_wf(xs);
        lemma_summarize_wf(ys0);
        lemma_combine_associative(summarize(xs), summarize(ys0), Record::single(ys.last()));
    }
}

} // verus!
