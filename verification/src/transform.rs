//! Column transforms: calibrated numeric remappings from raw column values
//! into canonical coordinates, together with best-effort inverses.
//!
//! Values are fixed-point micro-units (see `fixed`). A transform never
//! panics: where a value has no image (logarithm of a non-positive value, a
//! result outside the machine range) the mapping returns `None` and the row
//! is excluded from rendering.

use vstd::prelude::*;
use crate::fixed::{SCALE, VAL_MAX, divt, fits_val, lemma_divt_shrinks, muldiv, muldiv_wide};
use vstd::arithmetic::power2::pow2;

verus! {

/// Least element of a sequence (0 when empty).
pub open spec fn seq_min(s: Seq<i64>) -> int
    decreases s.len(),
{
    if s.len() == 0 {
        0
    } else if s.len() == 1 {
        s[0] as int
    } else {
        let m = seq_min(s.drop_last());
        if s.last() < m {
            s.last() as int
        } else {
            m
        }
    }
}

/// Greatest element of a sequence (0 when empty).
pub open spec fn seq_max(s: Seq<i64>) -> int
    decreases s.len(),
{
    if s.len() == 0 {
        0
    } else if s.len() == 1 {
        s[0] as int
    } else {
        let m = seq_max(s.drop_last());
        if s.last() > m {
            s.last() as int
        } else {
            m
        }
    }
}

/// The minimum and maximum of a nonempty sequence are elements of it and
/// bound every element.
pub proof fn lemma_min_max(s: Seq<i64>)
    requires
        s.len() > 0,
    ensures
        forall|k: int| 0 <= k < s.len() ==> seq_min(s) <= #[trigger] s[k] <= seq_max(s),
        exists|k: int| 0 <= k < s.len() && s[k] == seq_min(s),
        exists|k: int| 0 <= k < s.len() && s[k] == seq_max(s),
    decreases s.len(),
{
    if s.len() == 1 {
        assert(s[0] == seq_min(s));
        assert(s[0] == seq_max(s));
    } else {
        let t = s.drop_last();
        lemma_min_max(t);
        assert(s[s.len() - 1] == s.last());
        assert(forall|k: int| 0 <= k < t.len() ==> t[k] == #[trigger] s[k]);
        if s.last() < seq_min(t) {
            assert(s[s.len() - 1] == seq_min(s));
        } else {
            let k = choose|k: int| 0 <= k < t.len() && t[k] == seq_min(t);
            assert(s[k] == seq_min(s));
        }
        if s.last() > seq_max(t) {
            assert(s[s.len() - 1] == seq_max(s));
        } else {
            let k = choose|k: int| 0 <= k < t.len() && t[k] == seq_max(t);
            assert(s[k] == seq_max(s));
        }
    }
}

/// Construction of fresh default transform state.
pub trait NewTransform: Sized {
    /// Recognizes the default state the constructor returns.
    spec fn is_default(self) -> bool;

    fn new() -> (r: Self)
        ensures
            r.is_default(),
    ;
}

/// The identity transform.
pub struct Trivial;

impl NewTransform for Trivial {
    open spec fn is_default(self) -> bool {
        true
    }

    fn new() -> (r: Trivial) {
        Trivial
    }
}

impl Trivial {
    /// Calibration is a no-op.
    pub fn calibrate(&mut self, values: &Vec<i64>)
        ensures
            *final(self) == *old(self),
    {
    }

    pub fn transform(&self, value: i64) -> (r: Option<i64>)
        ensures
            r == Some(value),
    {
        Some(value)
    }

    pub fn inverse(&self, value: i64) -> (r: Option<i64>)
        ensures
            r == Some(value),
    {
        Some(value)
    }
}

/// Affine remapping of the calibrated range [minimum, minimum + delta] onto
/// the canonical interval [0, SCALE].
pub struct Normalize {
    pub minimum: i64,
    pub delta: i64,
}

impl NewTransform for Normalize {
    open spec fn is_default(self) -> bool {
        self == Normalize { minimum: 0, delta: SCALE }
    }

    fn new() -> (r: Normalize) {
        Normalize { minimum: 0, delta: SCALE }
    }
}

/// Calibration state that `Normalize::calibrate` derives from a column:
/// minimum and extent of the values, with a unit extent substituted when the
/// column is empty or constant.
pub open spec fn norm_calibrated(vals: Seq<i64>) -> Normalize {
    if vals.len() == 0 {
        Normalize { minimum: 0, delta: SCALE }
    } else {
        Normalize {
            minimum: seq_min(vals) as i64,
            delta: if seq_max(vals) == seq_min(vals) {
                SCALE
            } else {
                (seq_max(vals) - seq_min(vals)) as i64
            },
        }
    }
}

impl Normalize {
    /// Calibration bounds that the rest of the crate relies on.
    pub open spec fn wf(self) -> bool {
        &&& -VAL_MAX <= self.minimum <= VAL_MAX
        &&& 1 <= self.delta <= 2 * VAL_MAX
    }

    /// canonical = (value - minimum) * SCALE / delta, truncating.
    pub open spec fn fwd(self, v: int) -> int {
        divt((v - self.minimum) * SCALE, self.delta as int)
    }

    /// raw = minimum + canonical * delta / SCALE, truncating.
    pub open spec fn inv_val(self, c: int) -> int {
        self.minimum + divt(c * self.delta, SCALE as int)
    }

    pub fn calibrate(&mut self, values: &Vec<i64>)
        requires
            forall|k: int| 0 <= k < values@.len() ==> fits_val(#[trigger] values@[k]),
        ensures
            *final(self) == norm_calibrated(values@),
            final(self).wf(),
    {
        proof {
            if values@.len() > 0 {
                lemma_min_max(values@);
            }
        }
        if values.len() > 0 {
            let mut minimum: i64 = values[0];
            let mut maximum: i64 = values[0];
            let mut k: usize = 1;
            proof {
                assert(values@.take(1) =~= seq![values@[0]]);
            }
            while k < values.len()
                invariant
                    1 <= k <= values@.len(),
                    forall|j: int| 0 <= j < values@.len() ==> fits_val(#[trigger] values@[j]),
                    minimum == seq_min(values@.take(k as int)),
                    maximum == seq_max(values@.take(k as int)),
                    fits_val(minimum),
                    fits_val(maximum),
                decreases values@.len() - k,
            {
                proof {
                    assert(values@.take(k + 1).drop_last() =~= values@.take(k as int));
                    assert(values@.take(k + 1).last() == values@[k as int]);
                }
                let x = values[k];
                if x < minimum {
                    minimum = x;
                }
                if x > maximum {
                    maximum = x;
                }
                k = k + 1;
            }
            proof {
                assert(values@.take(values@.len() as int) =~= values@);
            }
            self.minimum = minimum;
            self.delta = if maximum == minimum {
                SCALE
            } else {
                maximum - minimum
            };
        } else {
            self.minimum = 0;
            self.delta = SCALE;
        }
    }

    pub fn transform(&self, value: i64) -> (r: Option<i64>)
        requires
            self.wf(),
            fits_val(value),
        ensures
            r == Some(self.fwd(value as int) as i64),
            i64::MIN <= self.fwd(value as int) <= i64::MAX,
    {
        proof {
            lemma_divt_shrinks((value - self.minimum) * SCALE, self.delta as int);
            assert(-(2 * VAL_MAX * SCALE) <= (value - self.minimum) * (SCALE as int) <= 2 * VAL_MAX
                * SCALE) by (nonlinear_arith)
                requires
                    -2 * VAL_MAX <= value - self.minimum <= 2 * VAL_MAX,
            ;
        }
        let diff = value - self.minimum;
        Some(muldiv(diff, SCALE, self.delta))
    }

    pub fn inverse(&self, value: i64) -> (r: Option<i64>)
        requires
            self.wf(),
        ensures
            r == (if i64::MIN <= self.inv_val(value as int) <= i64::MAX {
                Some(self.inv_val(value as int) as i64)
            } else {
                None::<i64>
            }),
    {
        proof {
            assert(-0x40000000000000000000000000000000 <= (value as int) * (self.delta as int)
                <= 0x40000000000000000000000000000000) by (nonlinear_arith)
                requires
                    -0x8000000000000000 <= value as int <= 0x7fffffffffffffff,
                    0 <= self.delta as int <= 0x7fffffffffffffff,
            ;
            lemma_divt_shrinks((value as int) * (self.delta as int), SCALE as int);
        }
        let q: i128 = muldiv_wide(value, self.delta, SCALE);
        let w: i128 = (self.minimum as i128) + q;
        if -0x8000_0000_0000_0000i128 <= w && w <= 0x7fff_ffff_ffff_ffffi128 {
            Some(w as i64)
        } else {
            None
        }
    }
}

/// Floor of the base-2 logarithm of a positive value.
pub open spec fn log2_floor(v: int) -> nat
    recommends
        v >= 1,
    decreases v,
{
    if v < 2 {
        0
    } else {
        1 + log2_floor(v / 2)
    }
}

/// The floor logarithm is characterized by the enclosing powers of two.
pub proof fn lemma_log2_unique(v: int, k: nat)
    requires
        pow2(k) <= v < pow2(k + 1),
    ensures
        log2_floor(v) == k,
    decreases k,
{
    vstd::arithmetic::power2::lemma_pow2_pos(k);
    if k == 0 {
        assert(pow2(1) == 2) by {
            vstd::arithmetic::power2::lemma2_to64();
        };
    } else {
        assert(pow2(k) == 2 * pow2((k - 1) as nat)) by {
            vstd::arithmetic::power2::lemma_pow2_unfold(k);
        };
        assert(pow2(k + 1) == 2 * pow2(k)) by {
            vstd::arithmetic::power2::lemma_pow2_unfold(k + 1);
        };
        vstd::arithmetic::power2::lemma_pow2_pos((k - 1) as nat);
        let half_pow = pow2((k - 1) as nat) as int;
        assert(2 * half_pow <= v < 4 * half_pow);
        assert(v >= 2);
        assert(half_pow <= v / 2 < 2 * half_pow);
        lemma_log2_unique(v / 2, (k - 1) as nat);
    }
}

/// Every positive value lies between consecutive powers of two at its floor
/// logarithm.
pub proof fn lemma_log2_bounds(v: int)
    requires
        v >= 1,
    ensures
        pow2(log2_floor(v)) <= v < pow2(log2_floor(v) + 1),
    decreases v,
{
    if v < 2 {
        assert(pow2(0) == 1 && pow2(1) == 2) by {
            vstd::arithmetic::power2::lemma2_to64();
        };
    } else {
        lemma_log2_bounds(v / 2);
        let k = log2_floor(v / 2);
        assert(pow2(k + 1) == 2 * pow2(k)) by {
            vstd::arithmetic::power2::lemma_pow2_unfold(k + 1);
        };
        assert(pow2(k + 2) == 2 * pow2(k + 1)) by {
            vstd::arithmetic::power2::lemma_pow2_unfold(k + 2);
        };
        assert(2 * (v / 2) <= v < 2 * (v / 2) + 2);
    }
}

/// canonical = k * SCALE + (v - 2^k) * SCALE / 2^k, with k the floor base-2
/// logarithm of v: a piecewise-linear logarithm, exact at powers of two.
pub open spec fn log_fwd(v: int) -> int
    recommends
        v >= 1,
{
    let k = log2_floor(v);
    k * SCALE + ((v - pow2(k)) * SCALE) / (pow2(k) as int)
}

/// raw = 2^k + (c % SCALE) * 2^k / SCALE, with k = c / SCALE: the inverse of
/// the piecewise-linear logarithm.
pub open spec fn log_inv(c: int) -> int
    recommends
        c >= 0,
{
    let k = (c / (SCALE as int)) as nat;
    let r = c % (SCALE as int);
    pow2(k) + (r * pow2(k)) / (SCALE as int)
}

/// Exact power of two within the machine range.
fn pow2_i64(k: usize) -> (r: i64)
    requires
        k <= 62,
    ensures
        r as int == pow2(k as nat),
        1 <= r <= 0x4000000000000000,
{
    let mut i: usize = 0;
    let mut p: i64 = 1;
    proof {
        vstd::arithmetic::power2::lemma2_to64();
    }
    while i < k
        invariant
            i <= k <= 62,
            p as int == pow2(i as nat),
            1 <= p <= 0x4000000000000000,
        decreases k - i,
    {
        proof {
            vstd::arithmetic::power2::lemma2_to64();
            vstd::arithmetic::power2::lemma2_to64_rest();
            vstd::arithmetic::power2::lemma_pow2_adds(i as nat, 1);
            assert(pow2(1) == 2);
            assert(pow2((i + 1) as nat) == pow2(i as nat) * 2);
            if ((i + 1) as nat) < 62 {
                vstd::arithmetic::power2::lemma_pow2_strictly_increases((i + 1) as nat, 62);
            }
        }
        p = 2 * p;
        i = i + 1;
    }
    p
}

/// Piecewise-linear base-2 logarithm: defined for positive values, undefined
/// (`None`) otherwise.
pub struct Logarithmic;

impl NewTransform for Logarithmic {
    open spec fn is_default(self) -> bool {
        true
    }

    fn new() -> (r: Logarithmic) {
        Logarithmic
    }
}

impl Logarithmic {
    /// Calibration is a no-op: the logarithm has no data-dependent state.
    pub fn calibrate(&mut self, values: &Vec<i64>)
        ensures
            *final(self) == *old(self),
    {
    }

    pub fn transform(&self, value: i64) -> (r: Option<i64>)
        requires
            fits_val(value),
        ensures
            r == (if value >= 1 {
                Some(log_fwd(value as int) as i64)
            } else {
                None::<i64>
            }),
            value >= 1 ==> 0 <= log_fwd(value as int) < 63 * SCALE,
    {
        if value < 1 {
            return None;
        }
        let mut k: usize = 0;
        let mut p: i64 = 1;
        proof {
            vstd::arithmetic::power2::lemma2_to64();
        }
        while value >= 2 * p
            invariant
                1 <= p <= value,
                fits_val(value),
                value >= 1,
                p as int == pow2(k as nat),
                k <= 40,
            decreases value - p,
        {
            proof {
                vstd::arithmetic::power2::lemma2_to64();
                vstd::arithmetic::power2::lemma2_to64_rest();
                if k as nat >= 34 {
                    if k as nat > 34 {
                        vstd::arithmetic::power2::lemma_pow2_strictly_increases(34, k as nat);
                    }
                    assert(pow2(34) == 0x400000000);
                    assert(false);
                }
                vstd::arithmetic::power2::lemma_pow2_adds(k as nat, 1);
                assert(pow2(1) == 2);
            }
            p = 2 * p;
            k = k + 1;
        }
        proof {
            vstd::arithmetic::power2::lemma_pow2_adds(k as nat, 1);
            vstd::arithmetic::power2::lemma2_to64();
            assert(pow2(1) == 2);
            assert(pow2(k as nat + 1) == pow2(k as nat) * 2);
            lemma_log2_unique(value as int, k as nat);
            assert(((value - p) * SCALE) >= 0 && ((value - p) * (SCALE as int)) < (p as int) * (
            SCALE as int)) by (nonlinear_arith)
                requires
                    0 <= value - p < p,
                    SCALE > 0,
            ;
            lemma_divt_shrinks((value - p) * SCALE, p as int);
        }
        let frac = muldiv(value - p, SCALE, p);
        proof {
            assert(divt((value - p) * SCALE, p as int) == ((value as int - p) * SCALE) / (
            p as int));
            assert(((value as int - p) * SCALE) / (p as int) < SCALE) by {
                vstd::arithmetic::div_mod::lemma_multiply_divide_lt(
                    (value - p) * SCALE,
                    p as int,
                    SCALE as int,
                );
            };
        }
        Some((k as i64) * SCALE + frac)
    }

    pub fn inverse(&self, value: i64) -> (r: Option<i64>)
        ensures
            r == (if 0 <= value && (value as int) / (SCALE as int) <= 62 {
                Some(log_inv(value as int) as i64)
            } else {
                None::<i64>
            }),
            (0 <= value && (value as int) / (SCALE as int) <= 62) ==> 1 <= log_inv(value as int)
                < 0x8000000000000000,
    {
        proof {
            if value >= 0 {
                vstd::arithmetic::power2::lemma_pow2_pos(((value as int) / (SCALE as int)) as nat);
            }
        }
        if value < 0 {
            return None;
        }
        let uc = value as u64;
        let k = uc / (SCALE as u64);
        let rem = uc % (SCALE as u64);
        if k > 62 {
            return None;
        }
        let p = pow2_i64(k as usize);
        proof {
            assert((rem as int) * (p as int) >= 0 && (rem as int) * (p as int) < (SCALE as int) * (
            p as int)) by (nonlinear_arith)
                requires
                    0 <= rem < SCALE,
                    p >= 1,
            ;
            lemma_divt_shrinks((rem as int) * (p as int), SCALE as int);
            assert(((rem as int) * (p as int)) / (SCALE as int) < p) by {
                vstd::arithmetic::div_mod::lemma_multiply_divide_lt(
                    (rem as int) * (p as int),
                    SCALE as int,
                    p as int,
                );
            };
        }
        let q = muldiv(rem as i64, p, SCALE);
        Some(p + q)
    }
}

/// Nondecreasing sequence.
pub open spec fn sorted(s: Seq<i64>) -> bool {
    forall|a: int, b: int| 0 <= a <= b < s.len() ==> s[a] <= s[b]
}

/// Strictly increasing sequence.
pub open spec fn strict_sorted(s: Seq<i64>) -> bool {
    forall|a: int, b: int| 0 <= a < b < s.len() ==> s[a] < s[b]
}


/// A value placed at its position in a sorted sequence.
pub open spec fn insert_ordered(s: Seq<i64>, x: i64) -> Seq<i64>
    decreases s.len(),
{
    if s.len() == 0 {
        seq![x]
    } else if x <= s[0] {
        seq![x] + s
    } else {
        seq![s[0]] + insert_ordered(s.drop_first(), x)
    }
}

/// The sorted arrangement of a sequence.
pub open spec fn sort_spec(s: Seq<i64>) -> Seq<i64>
    decreases s.len(),
{
    if s.len() == 0 {
        Seq::empty()
    } else {
        insert_ordered(sort_spec(s.drop_last()), s.last())
    }
}

/// Ordered insertion keeps a sequence sorted and adds the value once.
pub proof fn lemma_insert_ordered(s: Seq<i64>, x: i64)
    requires
        sorted(s),
    ensures
        sorted(insert_ordered(s, x)),
        insert_ordered(s, x).to_multiset() =~= s.to_multiset().insert(x),
        insert_ordered(s, x).len() == s.len() + 1,
        insert_ordered(s, x)[0] == (if s.len() == 0 || x <= s[0] {
            x
        } else {
            s[0]
        }),
    decreases s.len(),
{
    s.to_multiset_ensures();
    if s.len() == 0 {
        assert(seq![x] =~= Seq::<i64>::empty().push(x));
        Seq::<i64>::empty().to_multiset_ensures();
    } else if x <= s[0] {
        let r = seq![x] + s;
        assert(r =~= s.insert(0, x));
        lemma_seq_insert_to_multiset(s, 0, x);
        assert forall|a: int, b: int| 0 <= a <= b < r.len() implies r[a] <= r[b] by {
            if a > 0 {
                assert(r[a] == s[a - 1] && r[b] == s[b - 1]);
            } else if b > 0 {
                assert(r[b] == s[b - 1]);
                assert(s[0] <= s[b - 1]);
            }
        };
    } else {
        let t = s.drop_first();
        assert(forall|k: int| 0 <= k < t.len() ==> t[k] == #[trigger] s[k + 1]);
        assert(sorted(t));
        lemma_insert_ordered(t, x);
        let r0 = insert_ordered(t, x);
        let r = seq![s[0]] + r0;
        assert forall|a: int, b: int| 0 <= a <= b < r.len() implies r[a] <= r[b] by {
            if a > 0 {
                assert(r[a] == r0[a - 1] && r[b] == r0[b - 1]);
            } else if b > 0 {
                assert(r[b] == r0[b - 1]);
                assert(r0[0] <= r0[b - 1]);
                if t.len() == 0 || x <= t[0] {
                    assert(r0[0] == x);
                } else {
                    assert(r0[0] == t[0]);
                    assert(s[0] <= s[1]);
                }
            }
        };
        assert(r =~= r0.insert(0, s[0]));
        lemma_seq_insert_to_multiset(r0, 0, s[0]);
        assert(s =~= t.insert(0, s[0]));
        lemma_seq_insert_to_multiset(t, 0, s[0]);
        t.to_multiset_ensures();
    }
}

/// The sorted arrangement is sorted and holds the same elements with the
/// same multiplicities.
pub proof fn lemma_sort_spec(s: Seq<i64>)
    ensures
        sorted(sort_spec(s)),
        sort_spec(s).to_multiset() =~= s.to_multiset(),
        sort_spec(s).len() == s.len(),
    decreases s.len(),
{
    s.to_multiset_ensures();
    if s.len() > 0 {
        let t = s.drop_last();
        lemma_sort_spec(t);
        lemma_insert_ordered(sort_spec(t), s.last());
        t.to_multiset_ensures();
        assert(s =~= t.push(s.last()));
        assert(sort_spec(s).to_multiset() =~= sort_spec(t).to_multiset().insert(s.last()));
        assert(s.to_multiset() =~= t.to_multiset().insert(s.last()));
        assert(sort_spec(t).to_multiset().insert(s.last()) =~= t.to_multiset().insert(s.last()))
            by {
            assert(sort_spec(t).to_multiset() == t.to_multiset());
        };
        assert(sort_spec(s).to_multiset() =~= s.to_multiset()) by {
            assert(sort_spec(s).to_multiset() == sort_spec(t).to_multiset().insert(s.last()));
            assert(sort_spec(t).to_multiset().insert(s.last()) == t.to_multiset().insert(
                s.last(),
            ));
            assert(t.to_multiset().insert(s.last()) == s.to_multiset());
        };
    } else {
        assert(s =~= Seq::<i64>::empty());
        assert(sort_spec(s) == Seq::<i64>::empty());
    }
}

/// Two sorted sequences with the same multiset are the same sequence.
pub proof fn lemma_sorted_unique(a: Seq<i64>, b: Seq<i64>)
    requires
        sorted(a),
        sorted(b),
        a.to_multiset() =~= b.to_multiset(),
    ensures
        a =~= b,
    decreases a.len(),
{
    a.to_multiset_ensures();
    b.to_multiset_ensures();
    if a.len() == 0 {
        assert(b.len() == 0);
    } else {
        assert(b.len() == a.len());
        assert(a[0] == b[0]) by {
            assert(a.contains(a[0]));
            assert(a.to_multiset().count(a[0]) > 0);
            assert(b.contains(a[0]));
            let j = choose|j: int| 0 <= j < b.len() && b[j] == a[0];
            assert(b[0] <= a[0]);
            assert(b.contains(b[0]));
            assert(b.to_multiset().count(b[0]) > 0);
            assert(a.contains(b[0]));
            let i = choose|i: int| 0 <= i < a.len() && a[i] == b[0];
            assert(a[0] <= b[0]);
        };
        let ta = a.drop_first();
        let tb = b.drop_first();
        assert(ta =~= a.remove(0));
        assert(tb =~= b.remove(0));
        assert(ta.to_multiset() =~= a.to_multiset().remove(a[0]));
        assert(tb.to_multiset() =~= b.to_multiset().remove(b[0]));
        assert(forall|k: int| 0 <= k < ta.len() ==> ta[k] == #[trigger] a[k + 1]);
        assert(forall|k: int| 0 <= k < tb.len() ==> tb[k] == #[trigger] b[k + 1]);
        assert(sorted(ta) && sorted(tb));
        lemma_sorted_unique(ta, tb);
        assert(a =~= b) by {
            assert(forall|k: int| 1 <= k < a.len() ==> #[trigger] a[k] == ta[k - 1]);
            assert(forall|k: int| 1 <= k < b.len() ==> #[trigger] b[k] == tb[k - 1]);
        };
    }
}

/// Insertion sort: afterwards the vector is nondecreasing and holds the same
/// elements with the same multiplicities.
pub(crate) fn sort_values(v: &mut Vec<i64>)
    ensures
        final(v)@ == sort_spec(old(v)@),
        sorted(final(v)@),
        final(v)@.to_multiset() =~= old(v)@.to_multiset(),
        final(v)@.len() == old(v)@.len(),
{
    proof {
        lemma_sort_spec(old(v)@);
    }
    let n = v.len();
    if n <= 1 {
        proof {
            if v@.len() == 1 {
                assert(v@.drop_last() =~= Seq::<i64>::empty());
                assert(sort_spec(Seq::<i64>::empty()) =~= Seq::<i64>::empty());
                assert(insert_ordered(Seq::<i64>::empty(), v@.last()) =~= seq![v@.last()]);
                assert(sort_spec(v@) =~= v@);
            } else {
                assert(sort_spec(v@) =~= v@);
            }
        }
        return;
    }
    let mut i: usize = 1;
    while i < n
        invariant
            1 <= i,
            i <= n,
            v@.len() == n,
            sorted(v@.take(i as int)),
            v@.to_multiset() =~= old(v)@.to_multiset(),
        decreases n - i,
    {
        let x = v[i];
        let mut p: usize = i;
        while p > 0 && v[p - 1] > x
            invariant
                p <= i < n,
                v@.len() == n,
                sorted(v@.take(i as int)),
                x == v@[i as int],
                forall|k: int| p <= k < i ==> v@[k] > x,
            decreases p,
        {
            p = p - 1;
        }
        let ghost s = v@;
        let y = v.remove(i);
        v.insert(p, y);
        proof {
            let t = s.take(i as int);
            assert(v@.take(i + 1) =~= t.insert(p as int, x));
            assert(s.remove(i as int).to_multiset() =~= s.to_multiset().remove(x)) by {
                s.to_multiset_ensures();
            };
            assert(v@.to_multiset() =~= s.remove(i as int).to_multiset().insert(x)) by {
                lemma_seq_insert_to_multiset(s.remove(i as int), p as int, x);
            };
            assert(s.to_multiset().contains(x)) by {
                s.to_multiset_ensures();
                assert(s.contains(x));
            };
            assert(v@.to_multiset() =~= s.to_multiset());
            let u = t.insert(p as int, x);
            assert(sorted(u)) by {
                assert(forall|k: int| 0 <= k < p ==> u[k] == t[k]);
                assert(u[p as int] == x);
                assert(forall|k: int| p < k <= i ==> u[k] == t[k - 1]);
                assert(forall|a: int, b: int| 0 <= a <= b <= i ==> u[a] <= u[b]) by {
                    assert forall|a: int, b: int| 0 <= a <= b <= i implies u[a] <= u[b] by {
                        if b < p {
                            assert(u[a] == t[a] && u[b] == t[b]);
                        } else if a > p {
                            assert(u[a] == t[a - 1] && u[b] == t[b - 1]);
                        } else if a == p && b == p {
                        } else if a < p && b == p {
                            assert(u[a] == t[a]);
                            assert(t[a] <= t[p - 1]);
                            assert(t[p - 1] <= x);
                        } else if a == p && b > p {
                            assert(u[b] == t[b - 1]);
                            assert(t[b - 1] > x || t[b - 1] >= x);
                        } else {
                            assert(u[a] == t[a] && u[b] == t[b - 1]);
                            assert(t[a] <= x || t[a] <= t[b - 1]);
                            if a <= b - 1 {
                                assert(t[a] <= t[b - 1]);
                            }
                        }
                    };
                };
            };
        }
        i = i + 1;
    }
    proof {
        assert(v@.take(v@.len() as int) =~= v@);
        lemma_sorted_unique(v@, sort_spec(old(v)@));
    }
}

/// Inserting an element anywhere in a sequence adds it once to the multiset.
pub proof fn lemma_seq_insert_to_multiset(s: Seq<i64>, p: int, x: i64)
    requires
        0 <= p <= s.len(),
    ensures
        s.insert(p, x).to_multiset() =~= s.to_multiset().insert(x),
    decreases s.len(),
{
    s.to_multiset_ensures();
    s.insert(p, x).to_multiset_ensures();
    if p == s.len() {
        assert(s.insert(p, x) =~= s.push(x));
    } else if s.len() == 0 {
        assert(s.insert(p, x) =~= seq![x]);
        assert(seq![x] =~= Seq::<i64>::empty().push(x));
        Seq::<i64>::empty().to_multiset_ensures();
    } else {
        let t = s.drop_last();
        t.to_multiset_ensures();
        lemma_seq_insert_to_multiset(t, p, x);
        assert(s.insert(p, x) =~= t.insert(p, x).push(s.last()));
        t.insert(p, x).to_multiset_ensures();
        assert(s =~= t.push(s.last()));
    }
}

/// One step of the interpolation search over control points `v` with outputs
/// `w`: clamp to the nearest endpoint outside the range, interpolate linearly
/// on an adjacent pair, otherwise bisect.
pub open spec fn interp_search(x: int, v: Seq<i64>, w: Seq<i64>, low: int, high: int) -> int
    recommends
        v.len() == w.len(),
        0 <= low <= high < v.len(),
    decreases high - low,
{
    if x <= v[low] {
        w[low] as int
    } else if x >= v[high] {
        w[high] as int
    } else if high - low <= 1 {
        if v[high] - v[low] == 0 {
            w[low] as int
        } else {
            w[low] + divt((x - v[low]) * (w[high] - w[low]), v[high] - v[low])
        }
    } else {
        let next = (low + high) / 2;
        if v[next] >= x {
            interp_search(x, v, w, low, next)
        } else {
            interp_search(x, v, w, next, high)
        }
    }
}

/// Monotone piecewise-linear interpolation through the control points
/// `(v[k], w[k])`, clamped to the nearest endpoint outside the range.
pub open spec fn spec_interp(x: int, v: Seq<i64>, w: Seq<i64>) -> int
    recommends
        v.len() == w.len(),
        v.len() >= 1,
{
    interp_search(x, v, w, 0, v.len() - 1)
}

/// Binary search over sorted control points, then linear interpolation on the
/// bracketing pair; outside the range the nearest endpoint output is
/// returned.
pub(crate) fn general_transform(value: i64, v: &Vec<i64>, w: &Vec<i64>) -> (r: i64)
    requires
        v@.len() == w@.len(),
        v@.len() >= 1,
        sorted(v@),
        sorted(w@),
        forall|k: int| 0 <= k < v@.len() ==> fits_val(#[trigger] v@[k]),
        forall|k: int| 0 <= k < w@.len() ==> fits_val(#[trigger] w@[k]),
    ensures
        r as int == spec_interp(value as int, v@, w@),
{
    let mut low: usize = 0;
    let mut high: usize = v.len() - 1;
    loop
        invariant
            v@.len() == w@.len(),
            v@.len() >= 1,
            sorted(v@),
            sorted(w@),
            forall|k: int| 0 <= k < v@.len() ==> fits_val(#[trigger] v@[k]),
            forall|k: int| 0 <= k < w@.len() ==> fits_val(#[trigger] w@[k]),
            0 <= low <= high < v@.len(),
            interp_search(value as int, v@, w@, low as int, high as int) == spec_interp(
                value as int,
                v@,
                w@,
            ),
        decreases high - low,
    {
        if value <= v[low] {
            return w[low];
        }
        if value >= v[high] {
            return w[high];
        }
        if low == high {
            return w[low];
        }
        if low + 1 == high {
            let d = v[high] - v[low];
            if d == 0 {
                return w[low];
            }
            let diff = value - v[low];
            let wd = w[high] - w[low];
            proof {
                assert(0 <= (diff as int) * (wd as int) && (diff as int) * (wd as int) <= (
                d as int) * (wd as int)) by (nonlinear_arith)
                    requires
                        0 < diff <= d,
                        0 <= wd,
                ;
                vstd::arithmetic::div_mod::lemma_div_is_ordered(
                    (diff as int) * (wd as int),
                    (d as int) * (wd as int),
                    d as int,
                );
                vstd::arithmetic::div_mod::lemma_div_multiples_vanish(wd as int, d as int);
                vstd::arithmetic::div_mod::lemma_div_pos_is_pos((diff as int) * (wd as int), d as int);
                assert(0 <= divt((diff as int) * (wd as int), d as int) <= wd as int);
            }
            let q = muldiv(diff, wd, d);
            return w[low] + q;
        }
        let next = low + (high - low) / 2;
        proof {
            assert(next as int == (low as int + high as int) / 2);
        }
        if v[next] >= value {
            high = next;
        } else {
            low = next;
        }
    }
}

/// Round trip of the piecewise-linear logarithm: for any positive value, the
/// inverse of the forward image is defined and falls short of the value by at
/// most one canonical step of the value's octave:
/// `0 <= v - inverse(transform(v)) <= 2^k / SCALE + 1` where `2^k <= v`.
pub proof fn lemma_logarithmic_round_trip(v: i64)
    requires
        1 <= v,
        fits_val(v),
    ensures
        ({
            let c = log_fwd(v as int);
            let k = log2_floor(v as int);
            &&& 0 <= c
            &&& c / (SCALE as int) <= 62
            &&& 0 <= v - log_inv(c) <= pow2(k) / (SCALE as nat) + 1
        }),
{
    let k = log2_floor(v as int);
    let p = pow2(k) as int;
    lemma_log2_bounds(v as int);
    vstd::arithmetic::power2::lemma_pow2_pos(k);
    assert(pow2(k + 1) == 2 * pow2(k)) by {
        vstd::arithmetic::power2::lemma_pow2_unfold(k + 1);
    };
    let s = SCALE as int;
    let a = v - p;
    let c = log_fwd(v as int);
    assert(a * s >= 0 && a * s < p * s) by (nonlinear_arith)
        requires
            0 <= a < p,
            s > 0,
    ;
    let r = (a * s) / p;
    vstd::arithmetic::div_mod::lemma_fundamental_div_mod(a * s, p);
    vstd::arithmetic::div_mod::lemma_mod_bound(a * s, p);
    vstd::arithmetic::div_mod::lemma_div_pos_is_pos(a * s, p);
    assert(r < s) by {
        vstd::arithmetic::div_mod::lemma_multiply_divide_lt(a * s, p, s);
    };
    assert(c == k * s + r);
    assert(k <= 34) by {
        vstd::arithmetic::power2::lemma2_to64();
        vstd::arithmetic::power2::lemma2_to64_rest();
        if k >= 35 {
            vstd::arithmetic::power2::lemma_pow2_strictly_increases(34, k);
            assert(false);
        }
    };
    vstd::arithmetic::div_mod::lemma_fundamental_div_mod_converse(c, s, k as int, r);
    assert(c / s == k as int && c % s == r);
    let w = log_inv(c);
    let wq = (r * p) / s;
    assert(w == p + wq);
    let r1 = (a * s) % p;
    vstd::arithmetic::div_mod::lemma_fundamental_div_mod(r * p, s);
    vstd::arithmetic::div_mod::lemma_mod_bound(r * p, s);
    let r2 = (r * p) % s;
    assert(s * (a - wq) == r1 + r2) by (nonlinear_arith)
        requires
            a * s == p * r + r1,
            r * p == s * wq + r2,
    ;
    assert(a - wq >= 0) by (nonlinear_arith)
        requires
            s * (a - wq) == r1 + r2,
            r1 >= 0,
            r2 >= 0,
            s > 0,
    ;
    vstd::arithmetic::div_mod::lemma_fundamental_div_mod(p, s);
    vstd::arithmetic::div_mod::lemma_mod_bound(p, s);
    let q = p / s;
    assert(a - wq <= q + 1) by (nonlinear_arith)
        requires
            s * (a - wq) == r1 + r2,
            r1 < p,
            r2 < s,
            p == s * q + p % s,
            0 <= p % s < s,
            s > 0,
    ;
    assert(pow2(k) / (SCALE as nat) == q);
}

/// Round trip of the affine transform: for a value inside the calibrated
/// range, mapping forward and back loses at most one canonical step, i.e.
/// `0 <= v - inverse(transform(v)) <= delta / SCALE + 1` micro-units, and the
/// inverse is defined.
pub proof fn lemma_normalize_round_trip(t: Normalize, v: i64)
    requires
        t.wf(),
        fits_val(v),
        t.minimum <= v <= t.minimum + t.delta,
    ensures
        i64::MIN <= t.inv_val(t.fwd(v as int)) <= i64::MAX,
        0 <= v - t.inv_val(t.fwd(v as int)) <= (t.delta as int) / (SCALE as int) + 1,
{
    let a = v - t.minimum;
    let s = SCALE as int;
    let d = t.delta as int;
    let c = t.fwd(v as int);
    assert(a * s >= 0) by (nonlinear_arith)
        requires
            a >= 0,
            s > 0,
    ;
    assert(c == (a * s) / d);
    vstd::arithmetic::div_mod::lemma_fundamental_div_mod(a * s, d);
    let r1 = (a * s) % d;
    vstd::arithmetic::div_mod::lemma_mod_bound(a * s, d);
    assert(c * d == a * s - r1) by (nonlinear_arith)
        requires
            a * s == d * c + r1,
    ;
    assert(c >= 0) by {
        vstd::arithmetic::div_mod::lemma_div_pos_is_pos(a * s, d);
    };
    let w = t.inv_val(c);
    assert(c * d >= 0) by (nonlinear_arith)
        requires
            c >= 0,
            d > 0,
    ;
    let wq = (c * d) / s;
    assert(w == t.minimum + wq);
    vstd::arithmetic::div_mod::lemma_fundamental_div_mod(c * d, s);
    let r2 = (c * d) % s;
    vstd::arithmetic::div_mod::lemma_mod_bound(c * d, s);
    // a*s == s*wq + r1 + r2, so s*(a - wq) == r1 + r2 with 0 <= r1 + r2 < d + s.
    assert(s * (a - wq) == r1 + r2) by (nonlinear_arith)
        requires
            a * s == d * c + r1,
            c * d == s * wq + r2,
    ;
    assert(a - wq >= 0) by (nonlinear_arith)
        requires
            s * (a - wq) == r1 + r2,
            r1 >= 0,
            r2 >= 0,
            s > 0,
    ;
    vstd::arithmetic::div_mod::lemma_fundamental_div_mod(d, s);
    let q = d / s;
    vstd::arithmetic::div_mod::lemma_mod_bound(d, s);
    assert(a - wq <= q + 1) by (nonlinear_arith)
        requires
            s * (a - wq) == r1 + r2,
            r1 < d,
            r2 < s,
            d == s * q + d % s,
            0 <= d % s < s,
            s > 0,
    ;
    assert(0 <= a - wq <= d / s + 1);
    assert(w <= v);
    assert(w >= t.minimum + a - (q + 1));
}


/// A sorted sequence stays sorted when an element at least as large as its
/// last is appended.
pub proof fn lemma_sorted_push(s: Seq<i64>, x: i64)
    requires
        sorted(s),
        s.len() > 0 ==> s.last() <= x,
    ensures
        sorted(s.push(x)),
{
    let u = s.push(x);
    assert forall|a: int, b: int| 0 <= a <= b < u.len() implies u[a] <= u[b] by {
        if b < s.len() {
            assert(u[a] == s[a] && u[b] == s[b]);
        } else if a < s.len() {
            assert(u[a] == s[a] && u[b] == x);
            assert(s[a] <= s[s.len() - 1]);
        }
    };
}

/// Any interpolated output lies between the outputs at the search bounds.
pub proof fn lemma_interp_in_range(x: int, v: Seq<i64>, w: Seq<i64>, low: int, high: int)
    requires
        v.len() == w.len(),
        sorted(v),
        sorted(w),
        0 <= low <= high < v.len(),
    ensures
        w[low] <= interp_search(x, v, w, low, high) <= w[high],
    decreases high - low,
{
    if x <= v[low] {
    } else if x >= v[high] {
    } else if high - low <= 1 {
        let d = v[high] - v[low];
        if d != 0 {
            let wd = w[high] - w[low];
            let diff = x - v[low];
            assert(0 <= diff * wd <= d * wd) by (nonlinear_arith)
                requires
                    0 < diff <= d,
                    0 <= wd,
            ;
            vstd::arithmetic::div_mod::lemma_div_is_ordered(diff * wd, d * wd, d);
            vstd::arithmetic::div_mod::lemma_div_multiples_vanish(wd, d);
            vstd::arithmetic::div_mod::lemma_div_pos_is_pos(diff * wd, d);
        }
    } else {
        let next = (low + high) / 2;
        if v[next] >= x {
            lemma_interp_in_range(x, v, w, low, next);
        } else {
            lemma_interp_in_range(x, v, w, next, high);
        }
    }
}

/// The interpolation is monotone: over sorted control points and sorted
/// outputs, a larger input never yields a smaller output.
pub proof fn lemma_interp_monotone(x1: int, x2: int, v: Seq<i64>, w: Seq<i64>, low: int, high: int)
    requires
        v.len() == w.len(),
        sorted(v),
        sorted(w),
        0 <= low <= high < v.len(),
        x1 <= x2,
    ensures
        interp_search(x1, v, w, low, high) <= interp_search(x2, v, w, low, high),
    decreases high - low,
{
    if x1 <= v[low] {
        lemma_interp_in_range(x2, v, w, low, high);
    } else if x2 >= v[high] {
        lemma_interp_in_range(x1, v, w, low, high);
    } else if high - low <= 1 {
        let d = v[high] - v[low];
        if d != 0 {
            let wd = w[high] - w[low];
            assert((x1 - v[low]) * wd <= (x2 - v[low]) * wd) by (nonlinear_arith)
                requires
                    x1 <= x2,
                    0 <= wd,
            ;
            vstd::arithmetic::div_mod::lemma_div_is_ordered(
                (x1 - v[low]) * wd,
                (x2 - v[low]) * wd,
                d,
            );
        }
    } else {
        let next = (low + high) / 2;
        if v[next] >= x2 {
            lemma_interp_monotone(x1, x2, v, w, low, next);
        } else if v[next] < x1 {
            lemma_interp_monotone(x1, x2, v, w, next, high);
        } else {
            lemma_interp_in_range(x1, v, w, low, next);
            lemma_interp_in_range(x2, v, w, next, high);
        }
    }
}

/// Over strictly increasing control points the interpolation is exact: the
/// input `v[i]` maps to the output `w[i]`.
pub proof fn lemma_interp_exact(v: Seq<i64>, w: Seq<i64>, low: int, high: int, i: int)
    requires
        v.len() == w.len(),
        strict_sorted(v),
        0 <= low <= i <= high < v.len(),
    ensures
        interp_search(v[i] as int, v, w, low, high) == w[i],
    decreases high - low,
{
    let x = v[i] as int;
    if x <= v[low] {
        assert(i == low);
    } else if x >= v[high] {
        assert(i == high);
    } else {
        assert(low < i < high);
        assert(high - low > 1);
        let next = (low + high) / 2;
        if v[next] >= x {
            assert(i <= next);
            lemma_interp_exact(v, w, low, next, i);
        } else {
            assert(next < i);
            lemma_interp_exact(v, w, next, high, i);
        }
    }
}

/// Quantile remapping: calibration samples the sorted column into control
/// points paired with their quantile ranks in [0, SCALE]; mapping
/// interpolates linearly between control points and clamps to the nearest
/// endpoint outside the calibrated range.
pub struct Quantile {
    pub size: usize,
    pub values: Vec<i64>,
    pub quantiles: Vec<i64>,
}

impl NewTransform for Quantile {
    open spec fn is_default(self) -> bool {
        self.size == 100 && self.values@.len() == 0 && self.quantiles@.len() == 0
    }

    fn new() -> (r: Quantile)
        ensures
            r.wf(),
    {
        Quantile::with_size(100)
    }
}

impl Quantile {
    /// Control-point state the rest of the crate relies on: equally many
    /// sorted values and sorted quantile ranks within range.
    pub open spec fn wf(self) -> bool {
        &&& self.values@.len() == self.quantiles@.len()
        &&& sorted(self.values@)
        &&& sorted(self.quantiles@)
        &&& forall|k: int| 0 <= k < self.values@.len() ==> fits_val(#[trigger] self.values@[k])
        &&& forall|k: int|
            0 <= k < self.quantiles@.len() ==> 0 <= #[trigger] self.quantiles@[k] <= SCALE
    }

    /// The forward mapping over the calibrated control points.
    pub open spec fn fwd(self, x: int) -> int {
        spec_interp(x, self.values@, self.quantiles@)
    }

    /// The inverse mapping: the same interpolation with the roles of values
    /// and quantile ranks exchanged.
    pub open spec fn inv(self, c: int) -> int {
        spec_interp(c, self.quantiles@, self.values@)
    }

    pub fn with_size(n: usize) -> (r: Quantile)
        ensures
            r.size == n,
            r.values@.len() == 0,
            r.quantiles@.len() == 0,
            r.wf(),
    {
        Quantile { size: n, values: Vec::new(), quantiles: Vec::new() }
    }

    /// Sample the sorted input into control points: every `step`-th sorted
    /// value paired with its rank, closing with the exact maximum at rank
    /// SCALE. The minimum is always the first control point.
    #[verifier::rlimit(100)]
    #[verifier::spinoff_prover]
    pub fn calibrate(&mut self, values: &Vec<i64>)
        requires
            old(self).size >= 1,
            forall|k: int| 0 <= k < values@.len() ==> fits_val(#[trigger] values@[k]),
            values@.len() <= 100_000_000,
        ensures
            final(self).size == old(self).size,
            final(self).wf(),
            (final(self).values@.len() == 0 <==> values@.len() == 0),
            values@.len() > 0 ==> final(self).values@.len() >= 1,
            values@.len() > 0 ==> final(self).values@[0] == seq_min(values@),
            values@.len() > 0 ==> final(self).values@.last() == seq_max(values@),
            values@.len() > 0 ==> final(self).quantiles@.last() == SCALE,
            forall|k: int|
                0 <= k < final(self).values@.len() ==> values@.contains(
                    #[trigger] final(self).values@[k],
                ),
            values@.len() > 0 ==> quantile_sampled(*final(self), values@, old(self).size as int),
    {
        let mut buffer: Vec<i64> = Vec::new();
        let mut j: usize = 0;
        while j < values.len()
            invariant
                j <= values@.len(),
                buffer@ =~= values@.take(j as int),
            decreases values@.len() - j,
        {
            let x = values[j];
            buffer.push(x);
            proof {
                assert(buffer@ =~= values@.take(j + 1));
            }
            j = j + 1;
        }
        proof {
            assert(buffer@ =~= values@);
        }
        sort_values(&mut buffer);
        proof {
            assert(buffer@ == sort_spec(values@));
            buffer@.to_multiset_ensures();
            values@.to_multiset_ensures();
            assert forall|k: int| 0 <= k < buffer@.len() implies values@.contains(
                #[trigger] buffer@[k],
            ) by {
                assert(buffer@.contains(buffer@[k]));
                assert(buffer@.to_multiset().count(buffer@[k]) > 0);
            };
            if values@.len() > 0 {
                lemma_min_max(values@);
                lemma_min_max(buffer@);
                let mn = seq_min(values@) as i64;
                let mx = seq_max(values@) as i64;
                assert(values@.contains(mn));
                assert(values@.to_multiset().count(mn) > 0);
                assert(buffer@.contains(mn));
                assert(values@.contains(mx));
                assert(values@.to_multiset().count(mx) > 0);
                assert(buffer@.contains(mx));
                let km = choose|k: int| 0 <= k < buffer@.len() && buffer@[k] == mn;
                assert(buffer@[0] <= mn);
                assert(values@.contains(buffer@[0]));
                assert(buffer@[0] == mn);
                let kx = choose|k: int| 0 <= k < buffer@.len() && buffer@[k] == mx;
                assert(buffer@[buffer@.len() - 1] >= mx);
                assert(values@.contains(buffer@[buffer@.len() - 1]));
                assert(buffer@.last() == mx);
            }
        }
        self.values = Vec::new();
        self.quantiles = Vec::new();
        let n = buffer.len();
        if n == 0 {
            return;
        }
        let step = if n / self.size >= 1 {
            n / self.size
        } else {
            1
        };
        let ghost bufseq = buffer@;
        let ghost inputs = values@;
        let mut index: usize = 0;
        let ghost mut prev: int = -1;
        while index < n - 1
            invariant
                step >= 1,
                1 <= n <= 100_000_000,
                n == bufseq.len(),
                buffer@ == bufseq,
                sorted(bufseq),
                forall|k: int| 0 <= k < bufseq.len() ==> fits_val(#[trigger] bufseq[k]),
                forall|k: int| 0 <= k < bufseq.len() ==> inputs.contains(#[trigger] bufseq[k]),
                self.values@.len() == self.quantiles@.len(),
                sorted(self.values@),
                sorted(self.quantiles@),
                forall|k: int|
                    0 <= k < self.values@.len() ==> fits_val(#[trigger] self.values@[k]),
                forall|k: int|
                    0 <= k < self.values@.len() ==> inputs.contains(#[trigger] self.values@[k]),
                forall|k: int|
                    0 <= k < self.quantiles@.len() ==> 0 <= #[trigger] self.quantiles@[k] < SCALE,
                step <= n,
                step == (if (n as int) / (old(self).size as int) >= 1 {
                    (n as int) / (old(self).size as int)
                } else {
                    1int
                }),
                bufseq == sort_spec(inputs),
                index as int == (self.values@.len() as int) * (step as int),
                forall|k: int| #![trigger self.values@[k]]
                    0 <= k < self.values@.len() ==> self.values@[k] == bufseq[k * (step as int)]
                        && self.quantiles@[k] as int == ((k * (step as int)) * (SCALE as int)) / (
                        n - 1) && k * (step as int) < n - 1,
                prev < index as int,
                (prev >= 0 || index == 0),
                (self.values@.len() > 0 <==> prev >= 0),
                prev >= 0 ==> 0 <= prev < n && self.values@.last() == bufseq[prev]
                    && self.quantiles@.last() == (prev * (SCALE as int)) / (n - 1),
                self.values@.len() > 0 ==> self.values@[0] == bufseq[0],
                self.size == old(self).size,
            decreases n + step - index,
        {
            proof {
                assert((index as int) * (SCALE as int) < (n - 1) * (SCALE as int))
                    by (nonlinear_arith)
                    requires
                        0 <= index < n - 1,
                        SCALE > 0,
                ;
                assert((index as int) * (SCALE as int) <= 100_000_000 * (SCALE as int))
                    by (nonlinear_arith)
                    requires
                        0 <= index <= 100_000_000,
                        SCALE > 0,
                ;
                vstd::arithmetic::div_mod::lemma_multiply_divide_lt(
                    (index as int) * (SCALE as int),
                    (n - 1) as int,
                    SCALE as int,
                );
                vstd::arithmetic::div_mod::lemma_div_pos_is_pos(
                    (index as int) * (SCALE as int),
                    (n - 1) as int,
                );
                if prev >= 0 {
                    assert(prev * (SCALE as int) <= (index as int) * (SCALE as int))
                        by (nonlinear_arith)
                        requires
                            0 <= prev <= index as int,
                            SCALE > 0,
                    ;
                    vstd::arithmetic::div_mod::lemma_div_is_ordered(
                        prev * (SCALE as int),
                        (index as int) * (SCALE as int),
                        (n - 1) as int,
                    );
                }
                lemma_sorted_push(self.values@, bufseq[index as int]);
                lemma_sorted_push(
                    self.quantiles@,
                    (((index as int) * (SCALE as int)) / ((n - 1) as int)) as i64,
                );
            }
            let q64 = ((index as u64) * (SCALE as u64)) / ((n - 1) as u64);
            let cv = buffer[index];
            let ghost len_before = self.values@.len() as int;
            let ghost vals_before = self.values@;
            let ghost quants_before = self.quantiles@;
            self.values.push(cv);
            self.quantiles.push(q64 as i64);
            proof {
                prev = index as int;
                assert((len_before + 1) * (step as int) == len_before * (step as int) + step)
                    by (nonlinear_arith);
                assert forall|k: int| 0 <= k < self.values@.len() implies
                    #[trigger] self.values@[k] == bufseq[k * (step as int)]
                        && self.quantiles@[k] as int == ((k * (step as int)) * (SCALE as int)) / (n
                        - 1) && k * (step as int) < n - 1 by {
                    if k < len_before {
                        assert(self.values@[k] == vals_before[k]);
                        assert(self.quantiles@[k] == quants_before[k]);
                    } else {
                        assert(self.values@[k] == cv && self.quantiles@[k] == q64 as i64);
                        assert(k * (step as int) == index as int);
                    }
                };
            }
            index = index + step;
        }
        proof {
            lemma_sorted_push(self.values@, bufseq[n - 1]);
            lemma_sorted_push(self.quantiles@, SCALE);
        }
        let last = buffer[n - 1];
        let ghost loop_len = self.values@.len() as int;
        let ghost vals_loop = self.values@;
        let ghost quants_loop = self.quantiles@;
        self.values.push(last);
        self.quantiles.push(SCALE);
        proof {
            assert(loop_len * (step as int) >= n - 1);
            assert(self.values@.last() == bufseq[n - 1]);
            assert(quantile_sampled(*self, inputs, old(self).size as int)) by {
                assert forall|k: int| 0 <= k < self.values@.len() - 1 implies
                    #[trigger] self.values@[k] == bufseq[k * (step as int)]
                        && self.quantiles@[k] as int == ((k * (step as int)) * (SCALE as int)) / (
                        n - 1) && k * (step as int) < n - 1 by {
                    assert(self.values@[k] == vals_loop[k]);
                    assert(self.quantiles@[k] == quants_loop[k]);
                };
            };
        }
    }

    pub fn transform(&self, value: i64) -> (r: Option<i64>)
        requires
            self.wf(),
            fits_val(value),
        ensures
            r == (if self.values@.len() >= 1 {
                Some(self.fwd(value as int) as i64)
            } else {
                None::<i64>
            }),
            self.values@.len() >= 1 ==> 0 <= self.fwd(value as int) <= SCALE,
    {
        if self.values.len() == 0 {
            return None;
        }
        proof {
            lemma_interp_in_range(
                value as int,
                self.values@,
                self.quantiles@,
                0,
                self.values@.len() - 1,
            );
        }
        Some(general_transform(value, &self.values, &self.quantiles))
    }

    pub fn inverse(&self, value: i64) -> (r: Option<i64>)
        requires
            self.wf(),
        ensures
            r == (if self.values@.len() >= 1 {
                Some(self.inv(value as int) as i64)
            } else {
                None::<i64>
            }),
            self.values@.len() >= 1 ==> -VAL_MAX <= self.inv(value as int) <= VAL_MAX,
    {
        if self.values.len() == 0 {
            return None;
        }
        proof {
            lemma_interp_in_range(
                value as int,
                self.quantiles@,
                self.values@,
                0,
                self.values@.len() - 1,
            );
        }
        Some(general_transform(value, &self.quantiles, &self.values))
    }
}

/// The quantile transform is monotone non-decreasing in its input.
pub proof fn lemma_quantile_monotone(q: Quantile, x1: int, x2: int)
    requires
        q.wf(),
        q.values@.len() >= 1,
        x1 <= x2,
    ensures
        q.fwd(x1) <= q.fwd(x2),
{
    lemma_interp_monotone(x1, x2, q.values@, q.quantiles@, 0, q.values@.len() - 1);
}

/// Round trip of the quantile transform over strictly increasing control
/// points: a value between two adjacent control values maps forward and back
/// into that same bracket, and control values themselves map back exactly.
pub proof fn lemma_quantile_round_trip(q: Quantile, x: int, i: int)
    requires
        q.wf(),
        strict_sorted(q.values@),
        strict_sorted(q.quantiles@),
        q.values@.len() >= 2,
        0 <= i < q.values@.len() - 1,
        q.values@[i] <= x <= q.values@[i + 1],
    ensures
        q.values@[i] <= q.inv(q.fwd(x)) <= q.values@[i + 1],
        q.inv(q.fwd(q.values@[i] as int)) == q.values@[i],
{
    let n = q.values@.len() as int;
    lemma_interp_exact(q.values@, q.quantiles@, 0, n - 1, i);
    lemma_interp_exact(q.values@, q.quantiles@, 0, n - 1, i + 1);
    lemma_interp_monotone(q.values@[i] as int, x, q.values@, q.quantiles@, 0, n - 1);
    lemma_interp_monotone(x, q.values@[i + 1] as int, q.values@, q.quantiles@, 0, n - 1);
    lemma_interp_exact(q.quantiles@, q.values@, 0, n - 1, i);
    lemma_interp_exact(q.quantiles@, q.values@, 0, n - 1, i + 1);
    lemma_interp_monotone(q.quantiles@[i] as int, q.fwd(x), q.quantiles@, q.values@, 0, n - 1);
    lemma_interp_monotone(q.fwd(x), q.quantiles@[i + 1] as int, q.quantiles@, q.values@, 0, n - 1);
}


/// A value within the admitted range, stated over unbounded integers.
pub open spec fn fits_int(v: int) -> bool {
    -VAL_MAX <= v <= VAL_MAX
}

/// A column transform: one of the closed family of remappings, or a
/// composition that calibrates its first stage on the raw values and its
/// second stage on the first stage's images.
pub enum ColumnTransform {
    Trivial(Trivial),
    Normalize(Normalize),
    Logarithmic(Logarithmic),
    Quantile(Quantile),
    Composed(Box<ColumnTransform>, Box<ColumnTransform>),
}

impl ColumnTransform {
    /// Calibration bounds that mapping relies on.
    pub open spec fn wf(self) -> bool
        decreases self,
    {
        match self {
            ColumnTransform::Trivial(_) => true,
            ColumnTransform::Normalize(n) => n.wf(),
            ColumnTransform::Logarithmic(_) => true,
            ColumnTransform::Quantile(q) => q.wf(),
            ColumnTransform::Composed(a, b) => a.wf() && b.wf(),
        }
    }

    /// Where each raw value goes: `None` when some stage has no image or an
    /// intermediate value leaves the admitted range.
    pub open spec fn spec_transform(self, v: int) -> Option<int>
        decreases self,
    {
        match self {
            ColumnTransform::Trivial(_) => Some(v),
            ColumnTransform::Normalize(n) => Some(n.fwd(v)),
            ColumnTransform::Logarithmic(_) => if v >= 1 {
                Some(log_fwd(v))
            } else {
                None
            },
            ColumnTransform::Quantile(q) => if q.values@.len() >= 1 {
                Some(q.fwd(v))
            } else {
                None
            },
            ColumnTransform::Composed(a, b) => match a.spec_transform(v) {
                Some(m) => if fits_int(m) {
                    b.spec_transform(m)
                } else {
                    None
                },
                None => None,
            },
        }
    }

    /// Where each canonical value comes back from: `None` when some stage has
    /// no preimage or a value leaves the machine range.
    pub open spec fn spec_inverse(self, c: int) -> Option<int>
        decreases self,
    {
        match self {
            ColumnTransform::Trivial(_) => Some(c),
            ColumnTransform::Normalize(n) => if i64::MIN <= n.inv_val(c) <= i64::MAX {
                Some(n.inv_val(c))
            } else {
                None
            },
            ColumnTransform::Logarithmic(_) => if 0 <= c && c / (SCALE as int) <= 62 {
                Some(log_inv(c))
            } else {
                None
            },
            ColumnTransform::Quantile(q) => if q.values@.len() >= 1 {
                Some(q.inv(c))
            } else {
                None
            },
            ColumnTransform::Composed(a, b) => match b.spec_inverse(c) {
                Some(m) => if i64::MIN <= m <= i64::MAX {
                    a.spec_inverse(m)
                } else {
                    None
                },
                None => None,
            },
        }
    }

    pub fn transform(&self, value: i64) -> (r: Option<i64>)
        requires
            self.wf(),
            fits_val(value),
        ensures
            ({
                let t = self.spec_transform(value as int);
                match r {
                    Some(x) => t == Some(x as int),
                    None => t is None,
                }
            }),
        decreases self,
    {
        match self {
            ColumnTransform::Trivial(t) => t.transform(value),
            ColumnTransform::Normalize(n) => n.transform(value),
            ColumnTransform::Logarithmic(l) => l.transform(value),
            ColumnTransform::Quantile(q) => q.transform(value),
            ColumnTransform::Composed(a, b) => {
                match a.transform(value) {
                    Some(m) => {
                        if -VAL_MAX <= m && m <= VAL_MAX {
                            b.transform(m)
                        } else {
                            None
                        }
                    },
                    None => None,
                }
            },
        }
    }

    pub fn inverse(&self, value: i64) -> (r: Option<i64>)
        requires
            self.wf(),
        ensures
            ({
                let t = self.spec_inverse(value as int);
                match r {
                    Some(x) => t == Some(x as int),
                    None => t is None,
                }
            }),
        decreases self,
    {
        match self {
            ColumnTransform::Trivial(t) => t.inverse(value),
            ColumnTransform::Normalize(n) => n.inverse(value),
            ColumnTransform::Logarithmic(l) => l.inverse(value),
            ColumnTransform::Quantile(q) => q.inverse(value),
            ColumnTransform::Composed(a, b) => {
                match b.inverse(value) {
                    Some(m) => a.inverse(m),
                    None => None,
                }
            },
        }
    }

    pub fn calibrate(&mut self, values: &Vec<i64>)
        requires
            old(self).wf(),
            forall|k: int| 0 <= k < values@.len() ==> fits_val(#[trigger] values@[k]),
            values@.len() <= 100_000_000,
        ensures
            final(self).wf(),
            calibrated_from(*old(self), *final(self), values@),
        decreases *old(self),
    {
        match self {
            ColumnTransform::Trivial(t) => {
                t.calibrate(values);
            },
            ColumnTransform::Normalize(n) => {
                n.calibrate(values);
            },
            ColumnTransform::Logarithmic(l) => {
                l.calibrate(values);
            },
            ColumnTransform::Quantile(q) => {
                if q.size == 0 {
                    q.size = 1;
                }
                q.calibrate(values);
            },
            ColumnTransform::Composed(a, b) => {
                a.calibrate(values);
                let mut inter: Vec<i64> = Vec::new();
                let mut j: usize = 0;
                while j < values.len()
                    invariant
                        j <= values@.len(),
                        a.wf(),
                        forall|k: int| 0 <= k < values@.len() ==> fits_val(#[trigger] values@[k]),
                        inter@ =~= mapped_through(**a, values@.take(j as int)),
                        forall|k: int| 0 <= k < inter@.len() ==> fits_val(#[trigger] inter@[k]),
                        inter@.len() <= j,
                    decreases values@.len() - j,
                {
                    proof {
                        assert(values@.take(j + 1).drop_last() =~= values@.take(j as int));
                        assert(values@.take(j + 1).last() == values@[j as int]);
                    }
                    let x = values[j];
                    match a.transform(x) {
                        Some(m) => {
                            if -VAL_MAX <= m && m <= VAL_MAX {
                                inter.push(m);
                            }
                        },
                        None => {},
                    }
                    j = j + 1;
                }
                proof {
                    assert(values@.take(values@.len() as int) =~= values@);
                }
                b.calibrate(&inter);
            },
        }
    }
}

/// The images of a value sequence under a transform, keeping only values that
/// map successfully into the admitted range; the first stage of a composed
/// calibration hands this sequence to the second stage.
pub open spec fn mapped_through(t: ColumnTransform, vals: Seq<i64>) -> Seq<i64>
    decreases vals.len(),
{
    if vals.len() == 0 {
        Seq::empty()
    } else {
        let rest = mapped_through(t, vals.drop_last());
        match t.spec_transform(vals.last() as int) {
            Some(m) => if fits_int(m) {
                rest.push(m as i64)
            } else {
                rest
            },
            None => rest,
        }
    }
}

/// What calibration does, stage by stage: an affine stage takes the exact
/// minimum and extent of its inputs, a quantile stage samples sorted control
/// points from them, a composed stage calibrates its first stage on the raw
/// inputs and its second on their images.
pub open spec fn calibrated_from(
    before: ColumnTransform,
    after: ColumnTransform,
    vals: Seq<i64>,
) -> bool
    decreases before,
{
    match before {
        ColumnTransform::Trivial(_) => after is Trivial,
        ColumnTransform::Normalize(_) => after matches ColumnTransform::Normalize(n) && n
            == norm_calibrated(vals),
        ColumnTransform::Logarithmic(_) => after is Logarithmic,
        ColumnTransform::Quantile(_) => after matches ColumnTransform::Quantile(q)
            && quantile_calibrated(q, vals),
        ColumnTransform::Composed(a0, b0) => after matches ColumnTransform::Composed(a1, b1)
            && calibrated_from(*a0, *a1, vals) && calibrated_from(
            *b0,
            *b1,
            mapped_through(*a1, vals),
        ),
    }
}

/// The exact control points quantile calibration samples: every `step`-th
/// sorted input value paired with its rank, while the index stays short of
/// the top, closed by the exact maximum; `step` is the input length over the
/// configured bucket count, at least one.
pub open spec fn quantile_sampled(q: Quantile, inputs: Seq<i64>, size0: int) -> bool {
    let n = inputs.len() as int;
    let step: int = if n / size0 >= 1 {
        n / size0
    } else {
        1
    };
    let len = q.values@.len() as int;
    &&& forall|k: int| #![trigger q.values@[k]]
        0 <= k < len - 1 ==> q.values@[k] == sort_spec(inputs)[k * step] && q.quantiles@[k] as int
            == ((k * step) * (SCALE as int)) / (n - 1) && k * step < n - 1
    &&& (len - 1) * step >= n - 1
    &&& q.values@.last() == sort_spec(inputs)[n - 1]
}

/// The control-point properties quantile calibration establishes: sorted
/// control points drawn from the inputs, bracketed by their exact minimum and
/// maximum, with the top rank at SCALE.
pub open spec fn quantile_calibrated(q: Quantile, vals: Seq<i64>) -> bool {
    &&& q.wf()
    &&& (q.values@.len() == 0 <==> vals.len() == 0)
    &&& (vals.len() > 0 ==> q.values@.len() >= 1 && q.values@[0] == seq_min(vals)
        && q.values@.last() == seq_max(vals) && q.quantiles@.last() == SCALE)
    &&& forall|k: int| 0 <= k < q.values@.len() ==> vals.contains(#[trigger] q.values@[k])
}

/// The uncalibrated transform state a kind constructs: the shape
/// `to_transform` returns.
pub open spec fn fresh_of(t: TransformationType, ct: ColumnTransform) -> bool {
    match t {
        TransformationType::Linear => ct == ColumnTransform::Normalize(
            Normalize { minimum: 0, delta: SCALE },
        ),
        TransformationType::Logarithmic => ct matches ColumnTransform::Composed(a, b) && *a
            == ColumnTransform::Logarithmic(Logarithmic) && *b == ColumnTransform::Normalize(
            Normalize { minimum: 0, delta: SCALE },
        ),
        TransformationType::Quantile => ct matches ColumnTransform::Quantile(q) && q.size == 100
            && q.values@.len() == 0 && q.quantiles@.len() == 0,
    }
}

/// A transform freshly built for the kind and then calibrated on the values.
pub open spec fn freshly_calibrated(
    t: TransformationType,
    ct: ColumnTransform,
    vals: Seq<i64>,
) -> bool {
    exists|base: ColumnTransform| fresh_of(t, base) && calibrated_from(base, ct, vals)
}

/// The transform kinds offered to the interface: a plain affine remap, a
/// normalized logarithm, or a quantile remap.
#[derive(Clone, Copy, Debug, PartialEq, Eq, Structural)]
pub enum TransformationType {
    Linear,
    Logarithmic,
    Quantile,
}

impl TransformationType {
    /// Fresh uncalibrated transform state for this kind; the logarithmic kind
    /// is the standard normalized logarithm, a composition.
    pub fn to_transform(&self) -> (r: ColumnTransform)
        ensures
            r.wf(),
            fresh_of(*self, r),
            *self == TransformationType::Linear ==> r == ColumnTransform::Normalize(
                Normalize { minimum: 0, delta: SCALE },
            ),
            *self == TransformationType::Logarithmic ==> (r matches ColumnTransform::Composed(
                a,
                b,
            ) && *a == ColumnTransform::Logarithmic(Logarithmic) && *b
                == ColumnTransform::Normalize(Normalize { minimum: 0, delta: SCALE })),
            *self == TransformationType::Quantile ==> (r matches ColumnTransform::Quantile(q)
                && q.size == 100 && q.values@.len() == 0),
    {
        match self {
            TransformationType::Linear => ColumnTransform::Normalize(Normalize::new()),
            TransformationType::Logarithmic => {
                let inner = ColumnTransform::Logarithmic(Logarithmic::new());
                let outer = ColumnTransform::Normalize(Normalize::new());
                proof {
                    assert(inner.wf());
                    assert(outer.wf());
                }
                ColumnTransform::Composed(Box::new(inner), Box::new(outer))
            },
            TransformationType::Quantile => ColumnTransform::Quantile(Quantile::with_size(100)),
        }
    }

    pub fn text(&self) -> (r: &'static str)
        ensures
            *self == TransformationType::Linear ==> r@ == "Linear"@,
            *self == TransformationType::Logarithmic ==> r@ == "Logarithmic"@,
            *self == TransformationType::Quantile ==> r@ == "Quantile"@,
    {
        match self {
            TransformationType::Linear => "Linear",
            TransformationType::Logarithmic => "Logarithmic",
            TransformationType::Quantile => "Quantile",
        }
    }

    /// The textual name, owned; stands in for display.
    pub fn to_text(&self) -> (r: String)
        ensures
            *self == TransformationType::Linear ==> r@ == "Linear"@,
            *self == TransformationType::Logarithmic ==> r@ == "Logarithmic"@,
            *self == TransformationType::Quantile ==> r@ == "Quantile"@,
    {
        self.text().to_owned()
    }

    /// Resolve a textual name; unknown names resolve to nothing.
    pub fn from_text(s: &str) -> (r: Option<TransformationType>)
        ensures
            r == (if s@ == "Linear"@ {
                Some(TransformationType::Linear)
            } else if s@ == "Logarithmic"@ {
                Some(TransformationType::Logarithmic)
            } else if s@ == "Quantile"@ {
                Some(TransformationType::Quantile)
            } else {
                None::<TransformationType>
            }),
    {
        let owned = s.to_owned();
        if owned == "Linear".to_owned() {
            Some(TransformationType::Linear)
        } else if owned == "Logarithmic".to_owned() {
            Some(TransformationType::Logarithmic)
        } else if owned == "Quantile".to_owned() {
            Some(TransformationType::Quantile)
        } else {
            None
        }
    }
}

} // verus!
