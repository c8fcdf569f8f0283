//! Row highlighting: leaf predicates over columns compiled into per-row
//! selections, combined conjunctively or disjunctively into one selection.

use vstd::prelude::*;
use bitvector::BitVector;
use crate::bitset::{
    all_rows, bv_all_rows, bv_intersection_inplace, bv_new, bv_set, bv_cap, bv_insert,
    bv_union_inplace, word_rounded,
};
use crate::column_filter::Operator;
use crate::pointdata::{PointData, parse_cell};
use crate::fixed::fits_val;
use crate::text::parse_fixed;

verus! {

/// A leaf highlight predicate over one column.
pub enum HighlightFilterVariants {
    /// Equality with a target written as text: numeric equality on a numeric
    /// column when the target parses, exact text equality on a text column.
    Selection(String, String),
    /// Strictly above a threshold; text cells are parsed row by row and fail
    /// silently.
    GreaterThan(String, i64),
    /// Strictly below a threshold; text cells are parsed row by row and fail
    /// silently.
    LessThan(String, i64),
    /// Within the symmetric band around a center: the second operand is the
    /// full band width.
    Band(String, i64, i64),
    /// A deleted filter: selects nothing.
    Empty,
}

impl HighlightFilterVariants {
    /// Whether row `i` of the table passes this leaf. An unresolvable column
    /// selects nothing.
    pub open spec fn row_passes(self, data: PointData, i: int) -> bool {
        match self {
            HighlightFilterVariants::Selection(col, val) => {
                if data.has_data(col@) {
                    match parse_cell(val@) {
                        Some(v) => data.data_at(col@)[i] == v,
                        None => false,
                    }
                } else if data.has_aux(col@) {
                    data.aux_at(col@)[i]@ == val@
                } else {
                    false
                }
            },
            HighlightFilterVariants::GreaterThan(col, val) => {
                if data.has_data(col@) {
                    data.data_at(col@)[i] > val
                } else if data.has_aux(col@) {
                    match parse_cell(data.aux_at(col@)[i]@) {
                        Some(x) => x > val,
                        None => false,
                    }
                } else {
                    false
                }
            },
            HighlightFilterVariants::LessThan(col, val) => {
                if data.has_data(col@) {
                    data.data_at(col@)[i] < val
                } else if data.has_aux(col@) {
                    match parse_cell(data.aux_at(col@)[i]@) {
                        Some(x) => x < val,
                        None => false,
                    }
                } else {
                    false
                }
            },
            HighlightFilterVariants::Band(col, center, width) => {
                if data.has_data(col@) {
                    2 * data.data_at(col@)[i] >= 2 * center - width && 2 * data.data_at(col@)[i]
                        <= 2 * center + width
                } else if data.has_aux(col@) {
                    match parse_cell(data.aux_at(col@)[i]@) {
                        Some(x) => 2 * x >= 2 * center - width && 2 * x <= 2 * center + width,
                        None => false,
                    }
                } else {
                    false
                }
            },
            HighlightFilterVariants::Empty => false,
        }
    }

    /// The rows this leaf selects.
    pub open spec fn selection(self, data: PointData) -> Set<usize> {
        Set::new(|i: usize| (i as int) < data.length && self.row_passes(data, i as int))
    }

    /// Decide whether one row passes.
    fn passes(&self, data: &PointData, values: Option<&Vec<i64>>, texts: Option<&Vec<String>>,
        target: Ghost<Seq<char>>, i: usize) -> (r: bool)
        requires
            data.wf(),
            i < data.length,
            !(self is Empty) ==> (match values {
                Some(v) => data.has_data(target@) && v@ == data.data_at(target@),
                None => !data.has_data(target@),
            }),
            !(self is Empty) ==> (match texts {
                Some(t) => !data.has_data(target@) && data.has_aux(target@) && t@ == data.aux_at(
                    target@,
                ),
                None => data.has_data(target@) || !data.has_aux(target@),
            }),
            match self {
                HighlightFilterVariants::Selection(col, _) => col@ == target@,
                HighlightFilterVariants::GreaterThan(col, _) => col@ == target@,
                HighlightFilterVariants::LessThan(col, _) => col@ == target@,
                HighlightFilterVariants::Band(col, _, _) => col@ == target@,
                HighlightFilterVariants::Empty => true,
            },
            match self {
                HighlightFilterVariants::GreaterThan(_, v) => fits_val(*v),
                HighlightFilterVariants::LessThan(_, v) => fits_val(*v),
                HighlightFilterVariants::Band(_, c, w) => fits_val(*c) && fits_val(*w),
                _ => true,
            },
        ensures
            r == self.row_passes(*data, i as int),
    {
        proof {
            if !(self is Empty) {
                match values {
                    Some(v) => {
                        let idx = crate::pointdata::name_idx(data.data_names@, target@);
                        assert(0 <= idx < data.data_columns@.len());
                        assert(forall|k: int|
                            0 <= k < data.length ==> fits_val(
                                #[trigger] data.data_columns@[idx]@[k],
                            ));
                        assert(fits_val(v@[i as int]));
                    },
                    None => {},
                }
            }
        }
        match self {
            HighlightFilterVariants::Selection(_, val) => {
                match values {
                    Some(v) => {
                        match parse_fixed(val.as_str()) {
                            Some(t) => v[i] == t,
                            None => false,
                        }
                    },
                    None => {
                        match texts {
                            Some(t) => t[i] == *val,
                            None => false,
                        }
                    },
                }
            },
            HighlightFilterVariants::GreaterThan(_, val) => {
                match values {
                    Some(v) => v[i] > *val,
                    None => {
                        match texts {
                            Some(t) => {
                                match parse_fixed(t[i].as_str()) {
                                    Some(x) => x > *val,
                                    None => false,
                                }
                            },
                            None => false,
                        }
                    },
                }
            },
            HighlightFilterVariants::LessThan(_, val) => {
                match values {
                    Some(v) => v[i] < *val,
                    None => {
                        match texts {
                            Some(t) => {
                                match parse_fixed(t[i].as_str()) {
                                    Some(x) => x < *val,
                                    None => false,
                                }
                            },
                            None => false,
                        }
                    },
                }
            },
            HighlightFilterVariants::Band(_, center, width) => {
                match values {
                    Some(v) => {
                        let x = v[i];
                        2 * x >= 2 * *center - *width && 2 * x <= 2 * *center + *width
                    },
                    None => {
                        match texts {
                            Some(t) => {
                                match parse_fixed(t[i].as_str()) {
                                    Some(x) => 2 * x >= 2 * *center - *width && 2 * x <= 2 * *center
                                        + *width,
                                    None => false,
                                }
                            },
                            None => false,
                        }
                    },
                }
            },
            HighlightFilterVariants::Empty => false,
        }
    }

    /// Compile this leaf into a per-row selection over the whole table.
    pub fn filter(&self, data: &PointData) -> (r: BitVector)
        requires
            data.wf(),
            match self {
                HighlightFilterVariants::GreaterThan(_, v) => fits_val(*v),
                HighlightFilterVariants::LessThan(_, v) => fits_val(*v),
                HighlightFilterVariants::Band(_, c, w) => fits_val(*c) && fits_val(*w),
                _ => true,
            },
        ensures
            bv_set(r) =~= self.selection(*data),
            bv_cap(r) == word_rounded(data.length as nat),
    {
        let mut bv = bv_new(data.length);
        let (values, texts, target) = self.resolve(data);
        let mut i: usize = 0;
        while i < data.length
            invariant
                i <= data.length,
                data.wf(),
                bv_cap(bv) == word_rounded(data.length as nat),
                bv_set(bv) =~= Set::new(
                    |k: usize| (k as int) < i && self.row_passes(*data, k as int),
                ),
                !(self is Empty) ==> (match values {
                    Some(v) => data.has_data(target@) && v@ == data.data_at(target@),
                    None => !data.has_data(target@),
                }),
                !(self is Empty) ==> (match texts {
                    Some(t) => !data.has_data(target@) && data.has_aux(target@) && t@
                        == data.aux_at(target@),
                    None => data.has_data(target@) || !data.has_aux(target@),
                }),
                match self {
                    HighlightFilterVariants::Selection(col, _) => col@ == target@,
                    HighlightFilterVariants::GreaterThan(col, _) => col@ == target@,
                    HighlightFilterVariants::LessThan(col, _) => col@ == target@,
                    HighlightFilterVariants::Band(col, _, _) => col@ == target@,
                    HighlightFilterVariants::Empty => true,
                },
                match self {
                    HighlightFilterVariants::GreaterThan(_, v) => fits_val(*v),
                    HighlightFilterVariants::LessThan(_, v) => fits_val(*v),
                    HighlightFilterVariants::Band(_, c, w) => fits_val(*c) && fits_val(*w),
                    _ => true,
                },
            decreases data.length - i,
        {
            if self.passes(data, values, texts, target, i) {
                proof {
                    assert((i as nat) < word_rounded(data.length as nat)) by {
                        assert(data.length <= ((data.length + 63) / 64) * 64) by (nonlinear_arith);
                    };
                }
                bv_insert(&mut bv, i);
            }
            proof {
                assert(bv_set(bv) =~= Set::new(
                    |k: usize| (k as int) < i + 1 && self.row_passes(*data, k as int),
                ));
            }
            i = i + 1;
        }
        proof {
            assert(bv_set(bv) =~= self.selection(*data));
        }
        bv
    }

    /// Resolve this leaf's column name against the table.
    fn resolve<'a>(&self, data: &'a PointData) -> (r: (
        Option<&'a Vec<i64>>,
        Option<&'a Vec<String>>,
        Ghost<Seq<char>>,
    ))
        requires
            data.wf(),
        ensures
            self is Empty ==> r.0 is None && r.1 is None,
            !(self is Empty) ==> (match r.0 {
                Some(v) => data.has_data(r.2@) && v@ == data.data_at(r.2@),
                None => !data.has_data(r.2@),
            }),
            !(self is Empty) ==> (match r.1 {
                Some(t) => !data.has_data(r.2@) && data.has_aux(r.2@) && t@ == data.aux_at(r.2@),
                None => data.has_data(r.2@) || !data.has_aux(r.2@),
            }),
            match self {
                HighlightFilterVariants::Selection(col, _) => col@ == r.2@,
                HighlightFilterVariants::GreaterThan(col, _) => col@ == r.2@,
                HighlightFilterVariants::LessThan(col, _) => col@ == r.2@,
                HighlightFilterVariants::Band(col, _, _) => col@ == r.2@,
                HighlightFilterVariants::Empty => true,
            },
    {
        let name: &String = match self {
            HighlightFilterVariants::Selection(col, _) => col,
            HighlightFilterVariants::GreaterThan(col, _) => col,
            HighlightFilterVariants::LessThan(col, _) => col,
            HighlightFilterVariants::Band(col, _, _) => col,
            HighlightFilterVariants::Empty => {
                return (None, None, Ghost(Seq::empty()));
            },
        };
        let values = data.data_column(name.as_str());
        if values.is_some() {
            (values, None, Ghost(name@))
        } else {
            (None, data.aux_column(name.as_str()), Ghost(name@))
        }
    }
}

/// The selection a filter list combines to: intersection of the leaf
/// selections starting from all rows under AND, union starting from no rows
/// under OR.
pub open spec fn combined_selection(
    op: Operator,
    filters: Seq<HighlightFilterVariants>,
    data: PointData,
) -> Set<usize>
    decreases filters.len(),
{
    if filters.len() == 0 {
        match op {
            Operator::And => all_rows(data.length as nat),
            Operator::Or => Set::empty(),
        }
    } else {
        let rest = combined_selection(op, filters.drop_last(), data);
        match op {
            Operator::And => rest.intersect(filters.last().selection(data)),
            Operator::Or => rest.union(filters.last().selection(data)),
        }
    }
}

/// A list of leaf filters under one combinator.
pub struct CombinedHighlightFilter {
    pub operator: Operator,
    pub filters: Vec<HighlightFilterVariants>,
}

/// The admitted threshold operands of a leaf.
pub open spec fn leaf_ok(f: HighlightFilterVariants) -> bool {
    match f {
        HighlightFilterVariants::GreaterThan(_, v) => fits_val(v),
        HighlightFilterVariants::LessThan(_, v) => fits_val(v),
        HighlightFilterVariants::Band(_, c, w) => fits_val(c) && fits_val(w),
        _ => true,
    }
}

/// The leaf list with the deleted filters pruned, order kept.
pub open spec fn pruned(s: Seq<HighlightFilterVariants>, i: int) -> Seq<HighlightFilterVariants>
    decreases s.len() - i,
{
    if i < 0 || i >= s.len() {
        Seq::empty()
    } else if s[i] is Empty {
        pruned(s, i + 1)
    } else {
        seq![s[i]] + pruned(s, i + 1)
    }
}

impl CombinedHighlightFilter {
    pub fn new() -> (r: CombinedHighlightFilter)
        ensures
            r.operator == Operator::And,
            r.filters@.len() == 0,
    {
        CombinedHighlightFilter { operator: Operator::And, filters: Vec::new() }
    }

    /// Remove the deleted filters, keeping the rest in order.
    #[verifier::loop_isolation(false)]
    pub fn tidy(&mut self)
        ensures
            final(self).operator == old(self).operator,
            final(self).filters@ == pruned(old(self).filters@, 0),
    {
        let mut kept: Vec<HighlightFilterVariants> = Vec::new();
        let n = self.filters.len();
        let mut i: usize = 0;
        while i < n
            invariant
                i <= n,
                pruned(self.filters@, 0) == kept@ + pruned(self.filters@, i as int),
            decreases n - i,
        {
            let is_empty = match &self.filters[i] {
                HighlightFilterVariants::Empty => true,
                _ => false,
            };
            if !is_empty {
                let f = self.filters[i].clone_leaf();
                proof {
                    assert(seq![self.filters@[i as int]] + pruned(self.filters@, i + 1) == pruned(
                        self.filters@,
                        i as int,
                    ));
                    assert(kept@.push(self.filters@[i as int]) + pruned(self.filters@, i + 1)
                        =~= kept@ + pruned(self.filters@, i as int));
                }
                kept.push(f);
            }
            i = i + 1;
        }
        proof {
            assert(kept@ + pruned(self.filters@, n as int) =~= kept@);
        }
        self.filters = kept;
    }

    /// Compile the whole combinator into one selection: with no filters, AND
    /// selects every row and OR selects none.
    pub fn filter(&self, data: &PointData) -> (r: BitVector)
        requires
            data.wf(),
            forall|k: int| 0 <= k < self.filters@.len() ==> leaf_ok(#[trigger] self.filters@[k]),
        ensures
            bv_set(r) =~= combined_selection(self.operator, self.filters@, *data),
            bv_cap(r) == word_rounded(data.length as nat),
    {
        let mut bv = match self.operator {
            Operator::And => bv_all_rows(data.length),
            Operator::Or => bv_new(data.length),
        };
        let mut k: usize = 0;
        while k < self.filters.len()
            invariant
                k <= self.filters@.len(),
                data.wf(),
                forall|j: int| 0 <= j < self.filters@.len() ==> leaf_ok(#[trigger] self.filters@[j]),
                bv_cap(bv) == word_rounded(data.length as nat),
                bv_set(bv) =~= combined_selection(
                    self.operator,
                    self.filters@.take(k as int),
                    *data,
                ),
            decreases self.filters@.len() - k,
        {
            let leaf_bv = self.filters[k].filter(data);
            match self.operator {
                Operator::And => bv_intersection_inplace(&mut bv, &leaf_bv),
                Operator::Or => bv_union_inplace(&mut bv, &leaf_bv),
            }
            proof {
                assert(self.filters@.take(k + 1).drop_last() =~= self.filters@.take(k as int));
                assert(self.filters@.take(k + 1).last() == self.filters@[k as int]);
                assert(bv_set(bv) =~= combined_selection(
                    self.operator,
                    self.filters@.take(k + 1),
                    *data,
                ));
            }
            k = k + 1;
        }
        proof {
            assert(self.filters@.take(self.filters@.len() as int) =~= self.filters@);
        }
        bv
    }
}

impl HighlightFilterVariants {
    /// An identical copy of the leaf.
    pub fn clone_leaf(&self) -> (r: HighlightFilterVariants)
        ensures
            r == *self,
    {
        match self {
            HighlightFilterVariants::Selection(c, v) => HighlightFilterVariants::Selection(
                c.clone(),
                v.clone(),
            ),
            HighlightFilterVariants::GreaterThan(c, v) => HighlightFilterVariants::GreaterThan(
                c.clone(),
                *v,
            ),
            HighlightFilterVariants::LessThan(c, v) => HighlightFilterVariants::LessThan(
                c.clone(),
                *v,
            ),
            HighlightFilterVariants::Band(c, v, w) => HighlightFilterVariants::Band(
                c.clone(),
                *v,
                *w,
            ),
            HighlightFilterVariants::Empty => HighlightFilterVariants::Empty,
        }
    }
}

/// Two filters under AND select exactly the rows in both selections; under OR
/// exactly the rows in either.
pub proof fn lemma_pair_combination(
    a: HighlightFilterVariants,
    b: HighlightFilterVariants,
    data: PointData,
)
    ensures
        combined_selection(Operator::And, seq![a, b], data) =~= a.selection(data).intersect(
            b.selection(data),
        ),
        combined_selection(Operator::Or, seq![a, b], data) =~= a.selection(data).union(
            b.selection(data),
        ),
{
    reveal_with_fuel(combined_selection, 4);
    let s = seq![a, b];
    assert(s.drop_last() =~= seq![a]);
    assert(seq![a].drop_last() =~= Seq::<HighlightFilterVariants>::empty());
    assert(s.last() == b);
    assert(seq![a].last() == a);
    assert(forall|i: usize| a.selection(data).contains(i) ==> (i as int) < data.length);
}

/// With no filters, AND selects every row and OR selects none.
pub proof fn lemma_empty_combination(op: Operator, data: PointData)
    ensures
        op == Operator::And ==> combined_selection(op, Seq::empty(), data) =~= all_rows(
            data.length as nat,
        ),
        op == Operator::Or ==> combined_selection(op, Seq::empty(), data) =~= Set::<usize>::empty(),
{
}

} // verus!
