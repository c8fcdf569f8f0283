//! Streaming weighted statistics: a small record of running weighted moment
//! sums, mergeable across chunks, with derived measures computed on demand.
//!
//! A sample is a pair (value, weight) of fixed-point micro-units; a weight of
//! one whole unit is `SCALE`. Each ingested sample contributes exact integer
//! terms, so accumulating a sequence in chunks and merging gives exactly the
//! sums of accumulating it at once.

use vstd::prelude::*;
use crate::fixed::{SCALE, VAL_MAX, divt, fits_val, lemma_divt_shrinks, muldiv_wide};

verus! {

/// Largest number of samples an accumulator may ingest.
pub const COUNT_MAX: u64 = 10_000_000_000;

/// First moment term of one sample: weight times value, descaled.
pub open spec fn term1(x: int, w: int) -> int {
    divt(w * x, SCALE as int)
}

/// Second moment term: the first term times the value, descaled.
pub open spec fn term2(x: int, w: int) -> int {
    divt(term1(x, w) * x, SCALE as int)
}

/// Third moment term.
pub open spec fn term3(x: int, w: int) -> int {
    divt(term2(x, w) * x, SCALE as int)
}

/// Fourth moment term.
pub open spec fn term4(x: int, w: int) -> int {
    divt(term3(x, w) * x, SCALE as int)
}

/// The k-th moment contribution of one sample; the zeroth is the weight.
pub open spec fn sample_term(x: int, w: int, k: int) -> int {
    if k == 0 {
        w
    } else if k == 1 {
        term1(x, w)
    } else if k == 2 {
        term2(x, w)
    } else if k == 3 {
        term3(x, w)
    } else {
        term4(x, w)
    }
}

/// Sum of the k-th moment terms over a sequence of samples.
pub open spec fn moment_sum(s: Seq<(i64, i64)>, k: int) -> int
    decreases s.len(),
{
    if s.len() == 0 {
        0
    } else {
        moment_sum(s.drop_last(), k) + sample_term(s.last().0 as int, s.last().1 as int, k)
    }
}

/// Combine two optional extrema, preferring the defined one.
pub open spec fn omin(a: Option<i64>, b: Option<i64>) -> Option<i64> {
    match (a, b) {
        (Some(x), Some(y)) => Some(if x <= y { x } else { y }),
        (Some(x), None) => Some(x),
        (None, y) => y,
    }
}

/// Combine two optional extrema, preferring the defined one.
pub open spec fn omax(a: Option<i64>, b: Option<i64>) -> Option<i64> {
    match (a, b) {
        (Some(x), Some(y)) => Some(if x >= y { x } else { y }),
        (Some(x), None) => Some(x),
        (None, y) => y,
    }
}

/// Least sample value of a sequence, if any.
pub open spec fn samples_min(s: Seq<(i64, i64)>) -> Option<i64>
    decreases s.len(),
{
    if s.len() == 0 {
        None
    } else {
        omin(samples_min(s.drop_last()), Some(s.last().0))
    }
}

/// Greatest sample value of a sequence, if any.
pub open spec fn samples_max(s: Seq<(i64, i64)>) -> Option<i64>
    decreases s.len(),
{
    if s.len() == 0 {
        None
    } else {
        omax(samples_max(s.drop_last()), Some(s.last().0))
    }
}

/// Bounds every admitted sample satisfies.
pub open spec fn sample_ok(x: i64, w: i64) -> bool {
    fits_val(x) && 0 <= w <= VAL_MAX
}

/// Streaming weighted moment accumulator.
pub struct NumericStatistics {
    pub sum_of_values: i128,
    pub sum_of_values2: i128,
    pub sum_of_values3: i128,
    pub sum_of_values4: i128,
    pub sum_of_weights: i128,
    pub count: u64,
    pub minimum: Option<i64>,
    pub maximum: Option<i64>,
}

/// Each moment term of an admitted sample is bounded by the weight scaled by
/// a power of the value range; summed, the moments stay far inside the wide
/// machine range.
pub proof fn lemma_term_bounds(x: int, w: int)
    requires
        -VAL_MAX <= x <= VAL_MAX,
        0 <= w <= VAL_MAX,
    ensures
        -w * 10_000 <= term1(x, w) <= w * 10_000,
        -w * 100_000_000 <= term2(x, w) <= w * 100_000_000,
        -w * 1_000_000_000_000 <= term3(x, w) <= w * 1_000_000_000_000,
        -w * 10_000_000_000_000_000 <= term4(x, w) <= w * 10_000_000_000_000_000,
{
    let s = SCALE as int;
    assert(-(w * VAL_MAX) <= w * x <= w * VAL_MAX) by (nonlinear_arith)
        requires
            -VAL_MAX <= x <= VAL_MAX,
            0 <= w,
    ;
    lemma_divt_magnitude(w * x, w * VAL_MAX, s, w * 10_000);
    let t1 = term1(x, w);
    assert(-(w * 10_000 * VAL_MAX) <= t1 * x <= w * 10_000 * VAL_MAX) by (nonlinear_arith)
        requires
            -VAL_MAX <= x <= VAL_MAX,
            -w * 10_000 <= t1 <= w * 10_000,
            0 <= w,
    ;
    lemma_divt_magnitude(t1 * x, w * 10_000 * VAL_MAX, s, w * 100_000_000);
    let t2 = term2(x, w);
    assert(-(w * 100_000_000 * VAL_MAX) <= t2 * x <= w * 100_000_000 * VAL_MAX)
        by (nonlinear_arith)
        requires
            -VAL_MAX <= x <= VAL_MAX,
            -w * 100_000_000 <= t2 <= w * 100_000_000,
            0 <= w,
    ;
    lemma_divt_magnitude(t2 * x, w * 100_000_000 * VAL_MAX, s, w * 1_000_000_000_000);
    let t3 = term3(x, w);
    assert(-(w * 1_000_000_000_000 * VAL_MAX) <= t3 * x <= w * 1_000_000_000_000 * VAL_MAX)
        by (nonlinear_arith)
        requires
            -VAL_MAX <= x <= VAL_MAX,
            -w * 1_000_000_000_000 <= t3 <= w * 1_000_000_000_000,
            0 <= w,
    ;
    lemma_divt_magnitude(t3 * x, w * 1_000_000_000_000 * VAL_MAX, s, w * 10_000_000_000_000_000);
}

/// Truncating division by SCALE of a quantity below `m` in magnitude is below
/// `q` in magnitude whenever `m == q * SCALE`.
proof fn lemma_divt_magnitude(a: int, m: int, s: int, q: int)
    requires
        s == SCALE as int,
        0 <= q,
        m == q * s,
        -m <= a <= m,
    ensures
        -q <= divt(a, s) <= q,
{
    if a >= 0 {
        vstd::arithmetic::div_mod::lemma_div_is_ordered(a, m, s);
        vstd::arithmetic::div_mod::lemma_div_multiples_vanish(q, s);
        vstd::arithmetic::div_mod::lemma_div_pos_is_pos(a, s);
    } else {
        vstd::arithmetic::div_mod::lemma_div_is_ordered(-a, m, s);
        vstd::arithmetic::div_mod::lemma_div_multiples_vanish(q, s);
        vstd::arithmetic::div_mod::lemma_div_pos_is_pos(-a, s);
    }
}

impl NumericStatistics {
    /// Bounds the running sums always satisfy; they keep every operation
    /// inside the wide machine range.
    pub open spec fn wf(self) -> bool {
        &&& 0 <= self.sum_of_weights <= (self.count as int) * VAL_MAX
        &&& -(self.sum_of_weights as int) * 10_000 <= self.sum_of_values
            <= (self.sum_of_weights as int) * 10_000
        &&& -(self.sum_of_weights as int) * 100_000_000 <= self.sum_of_values2
            <= (self.sum_of_weights as int) * 100_000_000
        &&& -(self.sum_of_weights as int) * 1_000_000_000_000 <= self.sum_of_values3
            <= (self.sum_of_weights as int) * 1_000_000_000_000
        &&& -(self.sum_of_weights as int) * 10_000_000_000_000_000 <= self.sum_of_values4
            <= (self.sum_of_weights as int) * 10_000_000_000_000_000
        &&& self.count <= COUNT_MAX
    }

    /// The accumulator that has ingested nothing.
    pub open spec fn is_empty_acc(self) -> bool {
        self.sum_of_values == 0 && self.sum_of_values2 == 0 && self.sum_of_values3 == 0
            && self.sum_of_values4 == 0 && self.sum_of_weights == 0 && self.count == 0
            && self.minimum is None && self.maximum is None
    }

    /// The accumulator holds exactly the samples `s`, ingested from fresh.
    pub open spec fn holds_samples(self, s: Seq<(i64, i64)>) -> bool {
        &&& self.sum_of_values == moment_sum(s, 1)
        &&& self.sum_of_values2 == moment_sum(s, 2)
        &&& self.sum_of_values3 == moment_sum(s, 3)
        &&& self.sum_of_values4 == moment_sum(s, 4)
        &&& self.sum_of_weights == moment_sum(s, 0)
        &&& self.count == s.len()
        &&& self.minimum == samples_min(s)
        &&& self.maximum == samples_max(s)
    }

    /// The state after `self` has further ingested the samples `s`.
    pub open spec fn accumulated(self, before: NumericStatistics, s: Seq<(i64, i64)>) -> bool {
        &&& self.sum_of_values == before.sum_of_values + moment_sum(s, 1)
        &&& self.sum_of_values2 == before.sum_of_values2 + moment_sum(s, 2)
        &&& self.sum_of_values3 == before.sum_of_values3 + moment_sum(s, 3)
        &&& self.sum_of_values4 == before.sum_of_values4 + moment_sum(s, 4)
        &&& self.sum_of_weights == before.sum_of_weights + moment_sum(s, 0)
        &&& self.count == before.count + s.len()
        &&& self.minimum == omin(before.minimum, samples_min(s))
        &&& self.maximum == omax(before.maximum, samples_max(s))
    }

    pub fn new() -> (r: NumericStatistics)
        ensures
            r.is_empty_acc(),
            r.wf(),
    {
        NumericStatistics {
            sum_of_values: 0,
            sum_of_values2: 0,
            sum_of_values3: 0,
            sum_of_values4: 0,
            sum_of_weights: 0,
            count: 0,
            minimum: None,
            maximum: None,
        }
    }

    pub fn create_empty(&self) -> (r: NumericStatistics)
        ensures
            r.is_empty_acc(),
            r.wf(),
    {
        NumericStatistics::new()
    }

    /// Ingest one sample.
    fn add_sample(&mut self, x: i64, w: i64)
        requires
            old(self).wf(),
            sample_ok(x, w),
            old(self).count < COUNT_MAX,
        ensures
            final(self).wf(),
            final(self).accumulated(*old(self), seq![(x, w)]),
    {
        proof {
            lemma_term_bounds(x as int, w as int);
            reveal_with_fuel(moment_sum, 2);
            reveal_with_fuel(samples_min, 2);
            reveal_with_fuel(samples_max, 2);
            let single = seq![(x, w)];
            assert(single.drop_last() =~= Seq::<(i64, i64)>::empty());
            assert(single.last() == (x, w));
            assert(moment_sum(single, 0) == w as int);
            assert(moment_sum(single, 1) == term1(x as int, w as int));
            assert(moment_sum(single, 2) == term2(x as int, w as int));
            assert(moment_sum(single, 3) == term3(x as int, w as int));
            assert(moment_sum(single, 4) == term4(x as int, w as int));
            assert(samples_min(single) == Some(x));
            assert(samples_max(single) == Some(x));
        }
        let t1: i128 = muldiv_wide(w, x, SCALE);
        let t2: i128 = descale_mul(t1, x as i128);
        let t3: i128 = descale_mul(t2, x as i128);
        let t4: i128 = descale_mul(t3, x as i128);
        self.sum_of_values = self.sum_of_values + t1;
        self.sum_of_values2 = self.sum_of_values2 + t2;
        self.sum_of_values3 = self.sum_of_values3 + t3;
        self.sum_of_values4 = self.sum_of_values4 + t4;
        self.sum_of_weights = self.sum_of_weights + (w as i128);
        self.count = self.count + 1;
        self.minimum = match self.minimum {
            Some(mx) => Some(if mx <= x { mx } else { x }),
            None => Some(x),
        };
        self.maximum = match self.maximum {
            Some(mx) => Some(if mx >= x { mx } else { x }),
            None => Some(x),
        };
    }

    /// Ingest values paired with weights; surplus entries of the longer slice
    /// are ignored.
    pub fn add_weighted(&mut self, x: &Vec<i64>, weight: &Vec<i64>)
        requires
            old(self).wf(),
            forall|k: int| 0 <= k < x@.len() ==> fits_val(#[trigger] x@[k]),
            forall|k: int| 0 <= k < weight@.len() ==> 0 <= #[trigger] weight@[k] <= VAL_MAX,
            old(self).count + vstd::math::min(x@.len() as int, weight@.len() as int) <= COUNT_MAX,
        ensures
            final(self).wf(),
            final(self).accumulated(*old(self), zipped(x@, weight@)),
    {
        let n = if x.len() <= weight.len() {
            x.len()
        } else {
            weight.len()
        };
        proof {
            assert(zipped(x@, weight@).take(0) =~= Seq::<(i64, i64)>::empty());
        }
        let mut i: usize = 0;
        while i < n
            invariant
                i <= n,
                n == vstd::math::min(x@.len() as int, weight@.len() as int),
                forall|k: int| 0 <= k < x@.len() ==> fits_val(#[trigger] x@[k]),
                forall|k: int| 0 <= k < weight@.len() ==> 0 <= #[trigger] weight@[k] <= VAL_MAX,
                old(self).count + n <= COUNT_MAX,
                self.wf(),
                self.count == old(self).count + i,
                self.accumulated(*old(self), zipped(x@, weight@).take(i as int)),
            decreases n - i,
        {
            proof {
                assert(zipped(x@, weight@).take(i + 1) =~= zipped(x@, weight@).take(
                    i as int,
                ).push((x@[i as int], weight@[i as int])));
                lemma_accumulated_step(
                    *old(self),
                    *self,
                    zipped(x@, weight@).take(i as int),
                    (x@[i as int], weight@[i as int]),
                );
            }
            self.add_sample(x[i], weight[i]);
            i = i + 1;
        }
        proof {
            assert(zipped(x@, weight@).take(n as int) =~= zipped(x@, weight@));
        }
    }

    /// Ingest values with the default weight of one whole unit each.
    pub fn add(&mut self, x: &Vec<i64>)
        requires
            old(self).wf(),
            forall|k: int| 0 <= k < x@.len() ==> fits_val(#[trigger] x@[k]),
            old(self).count + x@.len() <= COUNT_MAX,
        ensures
            final(self).wf(),
            final(self).accumulated(*old(self), unit_weighted(x@)),
    {
        proof {
            assert(unit_weighted(x@).take(0) =~= Seq::<(i64, i64)>::empty());
        }
        let mut i: usize = 0;
        while i < x.len()
            invariant
                i <= x@.len(),
                forall|k: int| 0 <= k < x@.len() ==> fits_val(#[trigger] x@[k]),
                old(self).count + x@.len() <= COUNT_MAX,
                self.wf(),
                self.count == old(self).count + i,
                self.accumulated(*old(self), unit_weighted(x@).take(i as int)),
            decreases x@.len() - i,
        {
            proof {
                assert(unit_weighted(x@).take(i + 1) =~= unit_weighted(x@).take(i as int).push(
                    (x@[i as int], SCALE),
                ));
                lemma_accumulated_step(
                    *old(self),
                    *self,
                    unit_weighted(x@).take(i as int),
                    (x@[i as int], SCALE),
                );
            }
            self.add_sample(x[i], SCALE);
            i = i + 1;
        }
        proof {
            assert(unit_weighted(x@).take(x@.len() as int) =~= unit_weighted(x@));
        }
    }

    /// Ingest only the rows named by `selection`, skipping indices that fall
    /// outside either source.
    pub fn add_weighted_selection(&mut self, x: &Vec<i64>, weight: &Vec<i64>, selection: &Vec<
        usize,
    >)
        requires
            old(self).wf(),
            forall|k: int| 0 <= k < x@.len() ==> fits_val(#[trigger] x@[k]),
            forall|k: int| 0 <= k < weight@.len() ==> 0 <= #[trigger] weight@[k] <= VAL_MAX,
            old(self).count + selection@.len() <= COUNT_MAX,
        ensures
            final(self).wf(),
            final(self).accumulated(*old(self), selected(x@, weight@, selection@)),
    {
        proof {
            assert(selection@.take(0) =~= Seq::<usize>::empty());
        }
        let mut i: usize = 0;
        while i < selection.len()
            invariant
                i <= selection@.len(),
                forall|k: int| 0 <= k < x@.len() ==> fits_val(#[trigger] x@[k]),
                forall|k: int| 0 <= k < weight@.len() ==> 0 <= #[trigger] weight@[k] <= VAL_MAX,
                old(self).count + selection@.len() <= COUNT_MAX,
                self.wf(),
                self.count <= old(self).count + i,
                self.accumulated(*old(self), selected(x@, weight@, selection@.take(i as int))),
            decreases selection@.len() - i,
        {
            proof {
                assert(selection@.take(i + 1).drop_last() =~= selection@.take(i as int));
                assert(selection@.take(i + 1).last() == selection@[i as int]);
            }
            let row = selection[i];
            if row < x.len() && row < weight.len() {
                proof {
                    lemma_accumulated_step(
                        *old(self),
                        *self,
                        selected(x@, weight@, selection@.take(i as int)),
                        (x@[row as int], weight@[row as int]),
                    );
                }
                self.add_sample(x[row], weight[row]);
            }
            i = i + 1;
        }
        proof {
            assert(selection@.take(selection@.len() as int) =~= selection@);
        }
    }

    /// Merge another accumulator into this one by summing the running sums
    /// and combining the extrema.
    pub fn add_analyzer(&mut self, analyzer: &NumericStatistics)
        requires
            old(self).wf(),
            analyzer.wf(),
            old(self).count + analyzer.count <= COUNT_MAX,
        ensures
            final(self).wf(),
            final(self).sum_of_values == old(self).sum_of_values + analyzer.sum_of_values,
            final(self).sum_of_values2 == old(self).sum_of_values2 + analyzer.sum_of_values2,
            final(self).sum_of_values3 == old(self).sum_of_values3 + analyzer.sum_of_values3,
            final(self).sum_of_values4 == old(self).sum_of_values4 + analyzer.sum_of_values4,
            final(self).sum_of_weights == old(self).sum_of_weights + analyzer.sum_of_weights,
            final(self).count == old(self).count + analyzer.count,
            final(self).minimum == omin(old(self).minimum, analyzer.minimum),
            final(self).maximum == omax(old(self).maximum, analyzer.maximum),
    {
        self.sum_of_values = self.sum_of_values + analyzer.sum_of_values;
        self.sum_of_values2 = self.sum_of_values2 + analyzer.sum_of_values2;
        self.sum_of_values3 = self.sum_of_values3 + analyzer.sum_of_values3;
        self.sum_of_values4 = self.sum_of_values4 + analyzer.sum_of_values4;
        self.sum_of_weights = self.sum_of_weights + analyzer.sum_of_weights;
        self.count = self.count + analyzer.count;
        self.minimum = match self.minimum {
            Some(mn) => match analyzer.minimum {
                Some(other) => Some(if mn <= other { mn } else { other }),
                None => Some(mn),
            },
            None => analyzer.minimum,
        };
        self.maximum = match self.maximum {
            Some(mx) => match analyzer.maximum {
                Some(other) => Some(if mx >= other { mx } else { other }),
                None => Some(mx),
            },
            None => analyzer.maximum,
        };
    }

    /// Weighted mean in micro-units: sum of weighted values over the weight
    /// sum; undefined on an empty accumulator.
    pub open spec fn spec_mean(self) -> int {
        divt(self.sum_of_values * SCALE, self.sum_of_weights as int)
    }

    pub fn mean(&self) -> (r: Option<i64>)
        requires
            self.wf(),
        ensures
            r == (if self.sum_of_weights == 0 {
                None::<i64>
            } else {
                Some(self.spec_mean() as i64)
            }),
            self.sum_of_weights != 0 ==> -VAL_MAX <= self.spec_mean() <= VAL_MAX,
    {
        if self.sum_of_weights == 0 {
            return None;
        }
        proof {
            self.lemma_mean_bound();
        }
        let m: i128 = ratio_scaled(self.sum_of_values, self.sum_of_weights, Ghost(10_000int));
        Some(m as i64)
    }

    /// The mean of admitted samples stays within the admitted value range.
    proof fn lemma_mean_bound(self)
        requires
            self.wf(),
            self.sum_of_weights > 0,
        ensures
            -VAL_MAX <= self.spec_mean() <= VAL_MAX,
    {
        let sw = self.sum_of_weights as int;
        let s1 = self.sum_of_values as int;
        assert(-(sw * VAL_MAX) <= s1 * SCALE <= sw * VAL_MAX) by (nonlinear_arith)
            requires
                -sw * 10_000 <= s1 <= sw * 10_000,
                sw >= 0,
                SCALE == 1_000_000,
                VAL_MAX == 10_000_000_000,
        ;
        if s1 * SCALE >= 0 {
            vstd::arithmetic::div_mod::lemma_div_is_ordered(s1 * SCALE, sw * VAL_MAX, sw);
            vstd::arithmetic::div_mod::lemma_div_multiples_vanish(VAL_MAX as int, sw);
            vstd::arithmetic::div_mod::lemma_div_pos_is_pos(s1 * SCALE, sw);
        } else {
            vstd::arithmetic::div_mod::lemma_div_is_ordered(-(s1 * SCALE), sw * VAL_MAX, sw);
            vstd::arithmetic::div_mod::lemma_div_multiples_vanish(VAL_MAX as int, sw);
            vstd::arithmetic::div_mod::lemma_div_pos_is_pos(-(s1 * SCALE), sw);
        }
    }
}

/// Pair values with weights, up to the shorter length.
pub open spec fn zipped(x: Seq<i64>, w: Seq<i64>) -> Seq<(i64, i64)> {
    Seq::new(vstd::math::min(x.len() as int, w.len() as int) as nat, |i: int| (x[i], w[i]))
}

/// Pair values with the default weight of one whole unit.
pub open spec fn unit_weighted(x: Seq<i64>) -> Seq<(i64, i64)> {
    Seq::new(x.len(), |i: int| (x[i], SCALE))
}

/// The samples a selection of row indices picks out, skipping indices that
/// fall outside either source.
pub open spec fn selected(x: Seq<i64>, w: Seq<i64>, sel: Seq<usize>) -> Seq<(i64, i64)>
    decreases sel.len(),
{
    if sel.len() == 0 {
        Seq::empty()
    } else {
        let rest = selected(x, w, sel.drop_last());
        let row = sel.last() as int;
        if row < x.len() && row < w.len() {
            rest.push((x[row], w[row]))
        } else {
            rest
        }
    }
}

/// Accumulation composes one sample at a time.
proof fn lemma_accumulated_step(
    base: NumericStatistics,
    cur: NumericStatistics,
    s: Seq<(i64, i64)>,
    sample: (i64, i64),
)
    requires
        cur.accumulated(base, s),
    ensures
        forall|next: NumericStatistics|
            #[trigger] next.accumulated(cur, seq![sample]) ==> next.accumulated(
                base,
                s.push(sample),
            ),
{
    assert(s.push(sample).drop_last() =~= s);
    assert forall|next: NumericStatistics|
        #[trigger] next.accumulated(cur, seq![sample]) implies next.accumulated(
        base,
        s.push(sample),
    ) by {
        reveal_with_fuel(moment_sum, 2);
        reveal_with_fuel(samples_min, 2);
        reveal_with_fuel(samples_max, 2);
        assert(seq![sample].drop_last() =~= Seq::<(i64, i64)>::empty());
        assert(seq![sample].last() == sample);
        assert(s.push(sample).last() == sample);
        lemma_extrema_merge(base.minimum, samples_min(s), Some(sample.0));
        lemma_extrema_merge(base.maximum, samples_max(s), Some(sample.0));
    };
}

/// Accumulating a concatenation gives exactly the sums of accumulating the
/// chunks separately and adding them; the extrema combine likewise. This is
/// what makes chunked accumulation and merging safe.
pub proof fn lemma_stats_concat(s1: Seq<(i64, i64)>, s2: Seq<(i64, i64)>, k: int)
    ensures
        moment_sum(s1 + s2, k) == moment_sum(s1, k) + moment_sum(s2, k),
        samples_min(s1 + s2) == omin(samples_min(s1), samples_min(s2)),
        samples_max(s1 + s2) == omax(samples_max(s1), samples_max(s2)),
    decreases s2.len(),
{
    if s2.len() == 0 {
        assert(s1 + s2 =~= s1);
    } else {
        lemma_stats_concat(s1, s2.drop_last(), k);
        assert((s1 + s2).drop_last() =~= s1 + s2.drop_last());
        assert((s1 + s2).last() == s2.last());
    }
}

/// Combining extrema is associative and commutative.
pub proof fn lemma_extrema_merge(a: Option<i64>, b: Option<i64>, c: Option<i64>)
    ensures
        omin(omin(a, b), c) == omin(a, omin(b, c)),
        omin(a, b) == omin(b, a),
        omax(omax(a, b), c) == omax(a, omax(b, c)),
        omax(a, b) == omax(b, a),
{
}

/// Multiply a wide running quantity by a bounded factor and descale,
/// truncating.
fn descale_mul(a: i128, x: i128) -> (r: i128)
    requires
        -10_000_000_000_000_000_000_000 <= a <= 10_000_000_000_000_000_000_000,
        -100_000_000_000_000 <= x <= 100_000_000_000_000,
    ensures
        r as int == divt(a as int * x as int, SCALE as int),
{
    proof {
        assert(-1_000_000_000_000_000_000_000_000_000_000_000_000 <= (a as int) * (x as int)
            <= 1_000_000_000_000_000_000_000_000_000_000_000_000) by (nonlinear_arith)
            requires
                -10_000_000_000_000_000_000_000 <= a as int <= 10_000_000_000_000_000_000_000,
                -100_000_000_000_000 <= x as int <= 100_000_000_000_000,
        ;
        lemma_divt_shrinks((a as int) * (x as int), SCALE as int);
    }
    let prod: i128 = a * x;
    if prod >= 0 {
        let q: u128 = (prod as u128) / (SCALE as u128);
        q as i128
    } else {
        let q: u128 = ((-prod) as u128) / (SCALE as u128);
        -(q as i128)
    }
}

/// Rescale a running sum by SCALE and divide by the weight sum, truncating:
/// exactly `divt(a * SCALE, d)`, computed without forming the wide product.
fn ratio_scaled(a: i128, d: i128, Ghost(mult): Ghost<int>) -> (r: i128)
    requires
        0 < d <= 100_000_000_000_000_000_000,
        0 <= mult <= 10_000_000_000_000_000,
        -(d * mult) <= a <= d * mult,
    ensures
        r as int == divt(a as int * SCALE, d as int),
        -(mult * SCALE) <= r as int <= mult * SCALE,
{
    let ghost av: int = if a >= 0 { a as int } else { -(a as int) };
    proof {
        assert(-1_000_000_000_000_000_000_000_000_000_000_000_000 <= a as int
            <= 1_000_000_000_000_000_000_000_000_000_000_000_000) by (nonlinear_arith)
            requires
                0 < d <= 100_000_000_000_000_000_000,
                0 <= mult <= 10_000_000_000_000_000,
                -(d * mult) <= a as int <= d * mult,
        ;
        assert(av <= d * mult);
        vstd::arithmetic::div_mod::lemma_div_is_ordered(av, d * mult, d as int);
        vstd::arithmetic::div_mod::lemma_div_multiples_vanish(mult, d as int);
        vstd::arithmetic::div_mod::lemma_div_pos_is_pos(av, d as int);
        vstd::arithmetic::div_mod::lemma_fundamental_div_mod(av, d as int);
        vstd::arithmetic::div_mod::lemma_mod_bound(av, d as int);
    }
    let mag: u128 = if a >= 0 {
        a as u128
    } else {
        (-a) as u128
    };
    let du = d as u128;
    let q: u128 = mag / du;
    let rem: u128 = mag % du;
    proof {
        assert((rem as int) * (SCALE as int) < (d as int) * (SCALE as int)) by (nonlinear_arith)
            requires
                0 <= rem < d,
                SCALE > 0,
        ;
        assert((rem as int) * (SCALE as int) >= 0) by (nonlinear_arith)
            requires
                rem >= 0,
                SCALE > 0,
        ;
        vstd::arithmetic::div_mod::lemma_multiply_divide_lt(
            (rem as int) * (SCALE as int),
            d as int,
            SCALE as int,
        );
        vstd::arithmetic::div_mod::lemma_div_pos_is_pos((rem as int) * (SCALE as int), d as int);
        assert(q * (SCALE as int) <= mult * SCALE) by (nonlinear_arith)
            requires
                0 <= q <= mult,
                SCALE > 0,
        ;
        // av * SCALE == d * (q * SCALE) + rem * SCALE, so dividing by d hoists
        // the exact multiple out.
        assert(av * SCALE == (rem as int) * (SCALE as int) + (q * (SCALE as int)) * d)
            by (nonlinear_arith)
            requires
                av == d * q + rem,
                SCALE > 0,
        ;
        vstd::arithmetic::div_mod::lemma_hoist_over_denominator(
            (rem as int) * (SCALE as int),
            q * (SCALE as int),
            d as nat,
        );
    }
    let part: u128 = q * (SCALE as u128) + (rem * (SCALE as u128)) / du;
    if a >= 0 {
        part as i128
    } else {
        -(part as i128)
    }
}

/// Floor of the square root.
pub open spec fn sqrt_floor(n: nat) -> nat
    decreases n,
{
    if n == 0 {
        0
    } else {
        let r = sqrt_floor((n - 1) as nat);
        if (r + 1) * (r + 1) <= n {
            r + 1
        } else {
            r
        }
    }
}

/// The floor square root brackets its argument between consecutive squares.
pub proof fn lemma_sqrt_floor_bounds(n: nat)
    ensures
        sqrt_floor(n) * sqrt_floor(n) <= n,
        n < (sqrt_floor(n) + 1) * (sqrt_floor(n) + 1),
        sqrt_floor(n) <= n,
    decreases n,
{
    if n > 0 {
        lemma_sqrt_floor_bounds((n - 1) as nat);
        let r = sqrt_floor((n - 1) as nat);
        if (r + 1) * (r + 1) <= n {
            assert(sqrt_floor(n) == r + 1);
            assert(n < ((r + 1) + 1) * ((r + 1) + 1)) by (nonlinear_arith)
                requires
                    n - 1 < (r + 1) * (r + 1),
                    r >= 0,
                    n >= 1,
            ;
            assert(r + 1 <= n) by (nonlinear_arith)
                requires
                    (r + 1) * (r + 1) <= n,
                    r >= 0,
            ;
            assert(n < (sqrt_floor(n) + 1) * (sqrt_floor(n) + 1));
        } else {
            assert(sqrt_floor(n) == r);
            assert(r * r <= n);
            assert(n < (r + 1) * (r + 1));
        }
    } else {
        assert(sqrt_floor(n) == 0);
        assert(n < (sqrt_floor(n) + 1) * (sqrt_floor(n) + 1)) by (nonlinear_arith)
            requires
                n == 0,
                sqrt_floor(n) == 0,
        ;
    }
}

/// Floor square root, by bisection.
fn isqrt(x: u128) -> (r: u64)
    requires
        x <= 200_000_000_000_000_000_000,
    ensures
        r as nat == sqrt_floor(x as nat),
{
    proof {
        lemma_sqrt_floor_bounds(x as nat);
    }
    let mut lo: u64 = 0;
    let mut hi: u64 = 20_000_000_000;
    proof {
        assert((20_000_000_000 + 1) * (20_000_000_000 + 1) > 200_000_000_000_000_000_000)
            by (nonlinear_arith);
    }
    while lo < hi
        invariant
            lo <= hi <= 20_000_000_000,
            (lo as int) * (lo as int) <= x as int,
            (x as int) < ((hi as int) + 1) * ((hi as int) + 1),
        decreases hi - lo,
    {
        let mid: u64 = lo + (hi - lo + 1) / 2;
        proof {
            assert((mid as int) * (mid as int) <= 400_000_000_000_000_000_000_000)
                by (nonlinear_arith)
                requires
                    0 <= mid <= 20_000_000_001,
            ;
        }
        let sq: u128 = (mid as u128) * (mid as u128);
        if sq <= x {
            lo = mid;
        } else {
            hi = mid - 1;
        }
    }
    proof {
        let s = sqrt_floor(x as nat) as int;
        assert(lo as int == s) by (nonlinear_arith)
            requires
                (lo as int) * (lo as int) <= x as int,
                (x as int) < ((lo as int) + 1) * ((lo as int) + 1),
                s * s <= x as int,
                (x as int) < (s + 1) * (s + 1),
                lo >= 0,
                s >= 0,
        ;
    }
    lo
}


impl NumericStatistics {
    /// Weighted variance in micro-units: the weighted mean square minus the
    /// squared mean, each truncated; undefined on an empty accumulator.
    pub open spec fn spec_variance(self) -> int {
        divt(self.sum_of_values2 * SCALE, self.sum_of_weights as int) - divt(
            self.spec_mean() * self.spec_mean(),
            SCALE as int,
        )
    }

    pub fn variance(&self) -> (r: Option<i64>)
        requires
            self.wf(),
        ensures
            r == (if self.sum_of_weights == 0 {
                None::<i64>
            } else {
                Some(self.spec_variance() as i64)
            }),
            self.sum_of_weights != 0 ==> -200_000_000_000_000 <= self.spec_variance()
                <= 200_000_000_000_000,
    {
        if self.sum_of_weights == 0 {
            return None;
        }
        proof {
            self.lemma_mean_bound();
            lemma_divt_shrinks(self.spec_mean() * self.spec_mean(), SCALE as int);
            assert(0 <= self.spec_mean() * self.spec_mean() <= 100_000_000_000_000_000_000)
                by (nonlinear_arith)
                requires
                    -VAL_MAX <= self.spec_mean() <= VAL_MAX,
                    VAL_MAX == 10_000_000_000,
            ;
            vstd::arithmetic::div_mod::lemma_div_is_ordered(
                self.spec_mean() * self.spec_mean(),
                100_000_000_000_000_000_000,
                SCALE as int,
            );
        }
        let mean: i128 = ratio_scaled(
            self.sum_of_values,
            self.sum_of_weights,
            Ghost(10_000int),
        );
        let msq: i128 = descale_mul(mean, mean);
        let m2: i128 = ratio_scaled(
            self.sum_of_values2,
            self.sum_of_weights,
            Ghost(100_000_000int),
        );
        Some((m2 - msq) as i64)
    }

    /// Standard deviation in micro-units: the floor square root of the
    /// variance rescaled to micro-units; negative rounding residue counts as
    /// zero spread. Undefined on an empty accumulator.
    pub open spec fn spec_stddev(self) -> int {
        let v = self.spec_variance();
        sqrt_floor(((if v >= 0 {
            v
        } else {
            0
        }) * SCALE) as nat) as int
    }

    pub fn stddev(&self) -> (r: Option<i64>)
        requires
            self.wf(),
        ensures
            r == (if self.sum_of_weights == 0 {
                None::<i64>
            } else {
                Some(self.spec_stddev() as i64)
            }),
            self.sum_of_weights != 0 ==> 0 <= self.spec_stddev() <= 20_000_000_000,
    {
        let v = match self.variance() {
            Some(v) => v,
            None => {
                return None;
            },
        };
        let nonneg: i64 = if v >= 0 {
            v
        } else {
            0
        };
        proof {
            lemma_sqrt_floor_bounds((nonneg * SCALE) as nat);
            let s = sqrt_floor((nonneg * SCALE) as nat);
            assert(s <= 20_000_000_000) by (nonlinear_arith)
                requires
                    s * s <= nonneg * SCALE,
                    nonneg * SCALE <= 200_000_000_000_000_000_000,
                    s >= 0,
            ;
            assert(nonneg * SCALE <= 200_000_000_000_000_000_000) by (nonlinear_arith)
                requires
                    0 <= nonneg <= 200_000_000_000_000,
                    SCALE == 1_000_000,
            ;
        }
        let sd = isqrt((nonneg as u128) * (SCALE as u128));
        Some(sd as i64)
    }

    /// Skewness in micro-units: the third standardized moment, computed from
    /// the truncated fixed-point moments. Undefined on an empty accumulator
    /// or when the spread is zero.
    pub open spec fn spec_skewness(self) -> int {
        let mean = self.spec_mean();
        let m3 = divt(self.sum_of_values3 * SCALE, self.sum_of_weights as int);
        let msq = divt(mean * mean, SCALE as int);
        let var = self.spec_variance();
        let sd = self.spec_stddev();
        let num = m3 - 3 * divt(var * mean, SCALE as int) - divt(msq * mean, SCALE as int);
        divt(num * SCALE * SCALE * SCALE, sd * sd * sd)
    }

    pub fn skewness(&self) -> (r: Option<i128>)
        requires
            self.wf(),
        ensures
            r == (if self.sum_of_weights == 0 || self.spec_stddev() == 0 {
                None::<i128>
            } else {
                Some(self.spec_skewness() as i128)
            }),
    {
        if self.sum_of_weights == 0 {
            return None;
        }
        let sd = match self.stddev() {
            Some(sd) => sd,
            None => {
                return None;
            },
        };
        if sd == 0 {
            return None;
        }
        let var = match self.variance() {
            Some(v) => v,
            None => {
                return None;
            },
        };
        proof {
            self.lemma_mean_bound();
        }
        let mean: i128 = ratio_scaled(
            self.sum_of_values,
            self.sum_of_weights,
            Ghost(10_000int),
        );
        proof {
            assert(0 <= (mean as int) * (mean as int) <= 100_000_000_000_000_000_000)
                by (nonlinear_arith)
                requires
                    -10_000_000_000 <= mean as int <= 10_000_000_000,
            ;
            lemma_divt_magnitude(
                (mean as int) * (mean as int),
                100_000_000_000_000_000_000,
                SCALE as int,
                100_000_000_000_000,
            );
            vstd::arithmetic::div_mod::lemma_div_pos_is_pos(
                (mean as int) * (mean as int),
                SCALE as int,
            );
        }
        let msq: i128 = descale_mul(mean, mean);
        let m3: i128 = ratio_scaled(
            self.sum_of_values3,
            self.sum_of_weights,
            Ghost(1_000_000_000_000int),
        );
        proof {
            assert(-2_000_000_000_000_000_000_000_000 <= (var as int) * (mean as int)
                <= 2_000_000_000_000_000_000_000_000 && -1_000_000_000_000_000_000_000_000 <= (
            msq as int) * (mean as int) <= 1_000_000_000_000_000_000_000_000) by (nonlinear_arith)
                requires
                    -200_000_000_000_000 <= var as int <= 200_000_000_000_000,
                    -10_000_000_000 <= mean as int <= 10_000_000_000,
                    0 <= msq as int <= 100_000_000_000_000,
            ;
            lemma_divt_magnitude(
                (var as int) * (mean as int),
                2_000_000_000_000_000_000_000_000,
                SCALE as int,
                2_000_000_000_000_000_000,
            );
            lemma_divt_magnitude(
                (msq as int) * (mean as int),
                1_000_000_000_000_000_000_000_000,
                SCALE as int,
                1_000_000_000_000_000_000,
            );
        }
        let vm: i128 = descale_mul(var as i128, mean);
        let m3c: i128 = descale_mul(msq, mean);
        let num: i128 = m3 - 3 * vm - m3c;
        proof {
            assert(1 <= (sd as int) * (sd as int) <= 400_000_000_000_000_000_000 && 1 <= (
            sd as int) * (sd as int) * (sd as int)
                <= 8_000_000_000_000_000_000_000_000_000_000) by (nonlinear_arith)
                requires
                    1 <= sd as int <= 20_000_000_000,
            ;
            assert(-10_000_000_000_000_000_000_000_000 <= (num as int) * (SCALE as int)
                <= 10_000_000_000_000_000_000_000_000 && -10_000_000_000_000_000_000_000_000_000_000
                <= (num as int) * (SCALE as int) * (SCALE as int)
                <= 10_000_000_000_000_000_000_000_000_000_000
                && -10_000_000_000_000_000_000_000_000_000_000_000_000 <= (num as int) * (
            SCALE as int) * (SCALE as int) * (SCALE as int)
                <= 10_000_000_000_000_000_000_000_000_000_000_000_000) by (nonlinear_arith)
                requires
                    -10_000_000_000_000_000_000 <= num as int <= 10_000_000_000_000_000_000,
                    SCALE == 1_000_000,
            ;
            lemma_divt_shrinks(
                (num as int) * (SCALE as int) * (SCALE as int) * (SCALE as int),
                (sd as int) * (sd as int) * (sd as int),
            );
        }
        let scaled: i128 = num * (SCALE as i128) * (SCALE as i128) * (SCALE as i128);
        let den: i128 = (sd as i128) * (sd as i128) * (sd as i128);
        if scaled >= 0 {
            Some(((scaled as u128) / (den as u128)) as i128)
        } else {
            Some(-((((-scaled) as u128) / (den as u128)) as i128))
        }
    }

    /// Excess kurtosis in micro-units: the fourth standardized moment less
    /// three, computed from the truncated fixed-point moments. Undefined on
    /// an empty accumulator or when the variance is zero.
    pub open spec fn spec_kurtosis(self) -> int {
        let mean = self.spec_mean();
        let sw = self.sum_of_weights as int;
        let m2 = divt(self.sum_of_values2 * SCALE, sw);
        let m3 = divt(self.sum_of_values3 * SCALE, sw);
        let m4 = divt(self.sum_of_values4 * SCALE, sw);
        let msq = divt(mean * mean, SCALE as int);
        let var = self.spec_variance();
        let num = m4 - 3 * divt(msq * msq, SCALE as int) - 4 * divt(m3 * mean, SCALE as int) + 6
            * divt(msq * m2, SCALE as int);
        divt(num * SCALE * SCALE, var * var) - 3 * SCALE
    }

    pub fn kurtosis(&self) -> (r: Option<i128>)
        requires
            self.wf(),
        ensures
            r == (if self.sum_of_weights == 0 || self.spec_variance() == 0 {
                None::<i128>
            } else {
                Some(self.spec_kurtosis() as i128)
            }),
    {
        if self.sum_of_weights == 0 {
            return None;
        }
        let var = match self.variance() {
            Some(v) => v,
            None => {
                return None;
            },
        };
        if var == 0 {
            return None;
        }
        proof {
            self.lemma_mean_bound();
        }
        let mean: i128 = ratio_scaled(
            self.sum_of_values,
            self.sum_of_weights,
            Ghost(10_000int),
        );
        let m2: i128 = ratio_scaled(
            self.sum_of_values2,
            self.sum_of_weights,
            Ghost(100_000_000int),
        );
        let m3: i128 = ratio_scaled(
            self.sum_of_values3,
            self.sum_of_weights,
            Ghost(1_000_000_000_000int),
        );
        let m4: i128 = ratio_scaled(
            self.sum_of_values4,
            self.sum_of_weights,
            Ghost(10_000_000_000_000_000int),
        );
        proof {
            assert(0 <= (mean as int) * (mean as int) <= 100_000_000_000_000_000_000)
                by (nonlinear_arith)
                requires
                    -10_000_000_000 <= mean as int <= 10_000_000_000,
            ;
            lemma_divt_magnitude(
                (mean as int) * (mean as int),
                100_000_000_000_000_000_000,
                SCALE as int,
                100_000_000_000_000,
            );
            vstd::arithmetic::div_mod::lemma_div_pos_is_pos(
                (mean as int) * (mean as int),
                SCALE as int,
            );
        }
        let msq: i128 = descale_mul(mean, mean);
        proof {
            assert(0 <= (msq as int) * (msq as int) <= 10_000_000_000_000_000_000_000_000_000
                && -10_000_000_000_000_000_000_000_000_000 <= (m3 as int) * (mean as int)
                <= 10_000_000_000_000_000_000_000_000_000
                && -10_000_000_000_000_000_000_000_000_000 <= (msq as int) * (m2 as int)
                <= 10_000_000_000_000_000_000_000_000_000) by (nonlinear_arith)
                requires
                    0 <= msq as int <= 100_000_000_000_000,
                    -10_000_000_000 <= mean as int <= 10_000_000_000,
                    -1_000_000_000_000_000_000 <= m3 as int <= 1_000_000_000_000_000_000,
                    -100_000_000_000_000 <= m2 as int <= 100_000_000_000_000,
            ;
            lemma_divt_magnitude(
                (msq as int) * (msq as int),
                10_000_000_000_000_000_000_000_000_000,
                SCALE as int,
                10_000_000_000_000_000_000_000,
            );
            lemma_divt_magnitude(
                (m3 as int) * (mean as int),
                10_000_000_000_000_000_000_000_000_000,
                SCALE as int,
                10_000_000_000_000_000_000_000,
            );
            lemma_divt_magnitude(
                (msq as int) * (m2 as int),
                10_000_000_000_000_000_000_000_000_000,
                SCALE as int,
                10_000_000_000_000_000_000_000,
            );
        }
        let mq: i128 = descale_mul(msq, msq);
        let m3m: i128 = descale_mul(m3, mean);
        let m2m: i128 = descale_mul(msq, m2);
        let num: i128 = m4 - 3 * mq - 4 * m3m + 6 * m2m;
        proof {
            assert(1 <= (var as int) * (var as int)
                <= 40_000_000_000_000_000_000_000_000_000) by (nonlinear_arith)
                requires
                    var != 0,
                    -200_000_000_000_000 <= var as int <= 200_000_000_000_000,
            ;
            assert(-200_000_000_000_000_000_000_000_000_000 <= (num as int) * (SCALE as int)
                <= 200_000_000_000_000_000_000_000_000_000
                && -200_000_000_000_000_000_000_000_000_000_000_000 <= (num as int) * (
            SCALE as int) * (SCALE as int) <= 200_000_000_000_000_000_000_000_000_000_000_000)
                by (nonlinear_arith)
                requires
                    -200_000_000_000_000_000_000_000 <= num as int
                        <= 200_000_000_000_000_000_000_000,
                    SCALE == 1_000_000,
            ;
            lemma_divt_shrinks(
                (num as int) * (SCALE as int) * (SCALE as int),
                (var as int) * (var as int),
            );
        }
        let scaled: i128 = num * (SCALE as i128) * (SCALE as i128);
        let den: i128 = (var as i128) * (var as i128);
        let ratio: i128 = if scaled >= 0 {
            ((scaled as u128) / (den as u128)) as i128
        } else {
            -((((-scaled) as u128) / (den as u128)) as i128)
        };
        Some(ratio - 3 * (SCALE as i128))
    }

    /// The names of the derived measures, in table order.
    pub fn all_measure_names() -> (r: Vec<&'static str>)
        ensures
            r@.len() == 8,
            r@[0]@ == "Count"@,
            r@[1]@ == "Minimum"@,
            r@[2]@ == "Maximum"@,
            r@[3]@ == "Mean"@,
            r@[4]@ == "Variance"@,
            r@[5]@ == "StdDev"@,
            r@[6]@ == "Skewness"@,
            r@[7]@ == "Kurtosis"@,
    {
        let mut v: Vec<&'static str> = Vec::new();
        v.push("Count");
        v.push("Minimum");
        v.push("Maximum");
        v.push("Mean");
        v.push("Variance");
        v.push("StdDev");
        v.push("Skewness");
        v.push("Kurtosis");
        v
    }
}

} // verus!
