//! The tabular dataset: an ordered header list over named columns, each
//! either a dense numeric column of micro-unit values or a dense text
//! column, all of one fixed row count.

use vstd::prelude::*;
use vstd::string::StringExecFns;
use vstd::string::StringSliceAdditionalSpecFns;
use crate::fixed::fits_val;
use crate::text::{fx_chars, fx_to_text, parse_fixed, spec_parse_fixed};
use crate::column_filter::ColumnFilter;

verus! {

/// Largest admitted row count.
pub const ROWS_MAX: usize = 100_000_000;

/// Some name in the list reads `t`.
pub open spec fn has_name(names: Seq<String>, t: Seq<char>) -> bool {
    exists|i: int| 0 <= i < names.len() && names[i]@ == t
}

/// The position of the name reading `t`; meaningful when names are unique.
pub open spec fn name_idx(names: Seq<String>, t: Seq<char>) -> int {
    choose|i: int| 0 <= i < names.len() && names[i]@ == t
}

/// The name `h` is one of `names` and the filter accepts it.
pub open spec fn header_selected(names: Seq<String>, f: ColumnFilter, h: Seq<char>) -> bool {
    exists|j: int|
        0 <= j < names.len() && h == names[j]@ && f.accepts(
            vstd::utf8::encode_utf8(names[j]@),
        )
}

/// The rendered views of a list of names.
pub open spec fn views_of(names: Seq<String>) -> Seq<Seq<char>> {
    names.map_values(|s: String| s@)
}

/// The views of the names among the first `i` that the filter accepts, kept
/// in their order of first appearance.
pub open spec fn accepted_prefix(names: Seq<String>, f: ColumnFilter, i: int) -> Seq<Seq<char>>
    decreases i,
{
    if i <= 0 || i > names.len() {
        Seq::empty()
    } else if f.accepts(vstd::utf8::encode_utf8(names[i - 1]@)) {
        accepted_prefix(names, f, i - 1).push(names[i - 1]@)
    } else {
        accepted_prefix(names, f, i - 1)
    }
}

/// The distinct name views among the first `i`, each kept at its first
/// occurrence, in order.
pub open spec fn distinct_prefix(names: Seq<String>, i: int) -> Seq<Seq<char>>
    decreases i,
{
    if i <= 0 || i > names.len() {
        Seq::empty()
    } else if distinct_prefix(names, i - 1).contains(names[i - 1]@) {
        distinct_prefix(names, i - 1)
    } else {
        distinct_prefix(names, i - 1).push(names[i - 1]@)
    }
}

/// Position `j` is the first occurrence of the name reading `h`.
pub open spec fn first_header(names: Seq<String>, h: Seq<char>, j: int) -> bool {
    &&& 0 <= j < names.len()
    &&& names[j]@ == h
    &&& forall|k: int| 0 <= k < j ==> names[k]@ != h
}

/// Every name among the first `i` appears in the distinct prefix.
pub proof fn lemma_distinct_prefix_contains(names: Seq<String>, i: int, k: int)
    requires
        0 <= k < i <= names.len(),
    ensures
        distinct_prefix(names, i).contains(names[k]@),
    decreases i,
{
    let pre = distinct_prefix(names, i - 1);
    if k == i - 1 {
        if !pre.contains(names[i - 1]@) {
            assert(pre.push(names[i - 1]@)[pre.len() as int] == names[k]@);
        }
    } else {
        lemma_distinct_prefix_contains(names, i - 1, k);
        if !pre.contains(names[i - 1]@) {
            let w = choose|w: int| 0 <= w < pre.len() && pre[w] == names[k]@;
            assert(pre.push(names[i - 1]@)[w] == names[k]@);
        }
    }
}

/// Each kept header's column kind and contents are settled by its first
/// occurrence: numeric when every cell there parses, text otherwise.
pub open spec fn header_kinds_ok(
    t: PointData,
    headers: Seq<String>,
    records: Seq<Vec<String>>,
) -> bool {
    forall|c: int, j: int| #![trigger t.headers@[c], headers[j]]
        0 <= c < t.headers@.len() && first_header(headers, t.headers@[c]@, j) ==> ({
            &&& (column_is_numeric(records, j) ==> t.has_data(t.headers@[c]@)
                && numeric_column_matches(records, j, t.data_at(t.headers@[c]@)))
            &&& (!column_is_numeric(records, j) ==> t.has_aux(t.headers@[c]@)
                && text_column_matches(records, j, t.aux_at(t.headers@[c]@)))
        })
}

/// No two names read the same.
pub open spec fn names_unique(names: Seq<String>) -> bool {
    forall|i: int, j: int| 0 <= i < j < names.len() ==> names[i]@ != names[j]@
}

/// Find the first name reading `column`.
fn find_name(names: &Vec<String>, column: &str) -> (r: Option<usize>)
    ensures
        match r {
            Some(i) => i < names@.len() && names@[i as int]@ == column@,
            None => !has_name(names@, column@),
        },
{
    let target: String = column.to_owned();
    let mut i: usize = 0;
    while i < names.len()
        invariant
            i <= names@.len(),
            target@ == column@,
            forall|j: int| 0 <= j < i ==> names@[j]@ != column@,
        decreases names@.len() - i,
    {
        if names[i] == target {
            return Some(i);
        }
        i = i + 1;
    }
    None
}

/// What a decimal cell of a text column denotes, if anything.
pub open spec fn parse_cell(s: Seq<char>) -> Option<i64> {
    spec_parse_fixed(vstd::utf8::encode_utf8(s))
}

/// The tabular dataset.
pub struct PointData {
    pub length: usize,
    pub headers: Vec<String>,
    pub all_headers: Vec<String>,
    pub data_names: Vec<String>,
    pub data_columns: Vec<Vec<i64>>,
    pub aux_names: Vec<String>,
    pub aux_columns: Vec<Vec<String>>,
}

impl PointData {
    /// Structural bounds every table satisfies: columns dense at the row
    /// count, numeric values within range, names unique per family.
    pub open spec fn wf(self) -> bool {
        &&& self.data_names@.len() == self.data_columns@.len()
        &&& self.aux_names@.len() == self.aux_columns@.len()
        &&& forall|c: int|
            0 <= c < self.data_columns@.len() ==> (#[trigger] self.data_columns@[c])@.len()
                == self.length
        &&& forall|c: int|
            0 <= c < self.aux_columns@.len() ==> (#[trigger] self.aux_columns@[c])@.len()
                == self.length
        &&& forall|c: int, r: int|
            0 <= c < self.data_columns@.len() && 0 <= r < self.length ==> fits_val(
                #[trigger] self.data_columns@[c]@[r],
            )
        &&& names_unique(self.data_names@)
        &&& names_unique(self.aux_names@)
        &&& self.length <= ROWS_MAX
    }

    /// The table holds a numeric column of this name.
    pub open spec fn has_data(self, t: Seq<char>) -> bool {
        has_name(self.data_names@, t)
    }

    /// The table holds a text column of this name.
    pub open spec fn has_aux(self, t: Seq<char>) -> bool {
        has_name(self.aux_names@, t)
    }

    /// The numeric column of this name.
    pub open spec fn data_at(self, t: Seq<char>) -> Seq<i64> {
        self.data_columns@[name_idx(self.data_names@, t)]@
    }

    /// The text column of this name.
    pub open spec fn aux_at(self, t: Seq<char>) -> Seq<String> {
        self.aux_columns@[name_idx(self.aux_names@, t)]@
    }

    pub fn new() -> (r: PointData)
        ensures
            r.wf(),
            r.length == 0,
            r.headers@.len() == 0,
            r.all_headers@.len() == 0,
            r.data_names@.len() == 0,
            r.aux_names@.len() == 0,
    {
        PointData {
            length: 0,
            headers: Vec::new(),
            all_headers: Vec::new(),
            data_names: Vec::new(),
            data_columns: Vec::new(),
            aux_names: Vec::new(),
            aux_columns: Vec::new(),
        }
    }

    pub fn len(&self) -> (r: usize)
        ensures
            r == self.length,
    {
        self.length
    }

    /// Show every column again.
    pub fn reset_headers(&mut self)
        ensures
            final(self).headers@ == old(self).all_headers@,
            *final(self) == (PointData { headers: final(self).headers, ..*old(self) }),
    {
        self.headers = clone_names(&self.all_headers);
    }

    /// Show only the columns whose names the filter accepts.
    pub fn filter_headers(&mut self, filter: &ColumnFilter)
        ensures
            *final(self) == (PointData { headers: final(self).headers, ..*old(self) }),
            final(self).headers@.len() <= old(self).all_headers@.len(),
            views_of(final(self).headers@) == accepted_prefix(
                old(self).all_headers@,
                *filter,
                old(self).all_headers@.len() as int,
            ),
            forall|i: int| #![trigger final(self).headers@[i]]
                0 <= i < final(self).headers@.len() ==> header_selected(
                    old(self).all_headers@,
                    *filter,
                    final(self).headers@[i]@,
                ),
    {
        let mut kept: Vec<String> = Vec::new();
        let ghost mut srcs: Seq<int> = Seq::empty();
        let mut i: usize = 0;
        while i < self.all_headers.len()
            invariant
                i <= self.all_headers@.len(),
                kept@.len() <= i,
                srcs.len() == kept@.len(),
                forall|k: int| #![trigger srcs[k]]
                    0 <= k < srcs.len() ==> 0 <= srcs[k] < self.all_headers@.len() && kept@[k]@
                        == self.all_headers@[srcs[k]]@ && filter.accepts(
                        vstd::utf8::encode_utf8(self.all_headers@[srcs[k]]@),
                    ),
                views_of(kept@) == accepted_prefix(self.all_headers@, *filter, i as int),
            decreases self.all_headers@.len() - i,
        {
            let ghost prev = views_of(kept@);
            let name = &self.all_headers[i];
            let nm = name.as_str();
            if filter.filter(nm) {
                proof {
                    assert(nm.spec_bytes() == vstd::utf8::encode_utf8(
                        self.all_headers@[i as int]@,
                    ));
                }
                kept.push(name.clone());
                proof {
                    srcs = srcs.push(i as int);
                    assert(views_of(kept@) =~= prev.push(self.all_headers@[i as int]@));
                }
            }
            i = i + 1;
        }
        proof {
            assert forall|i2: int| 0 <= i2 < kept@.len() implies header_selected(
                self.all_headers@,
                *filter,
                (#[trigger] kept@[i2])@,
            ) by {
                let j = srcs[i2];
                assert(0 <= j < self.all_headers@.len());
                assert(kept@[i2]@ == self.all_headers@[j]@);
                assert(filter.accepts(vstd::utf8::encode_utf8(self.all_headers@[j]@)));
            };
        }
        self.headers = kept;
    }

    /// Append an empty numeric column of this name.
    pub fn with_data_column(&mut self, column: &str)
        requires
            old(self).wf(),
            old(self).length == 0,
            !old(self).has_data(column@),
        ensures
            final(self).wf(),
            final(self).length == 0,
            final(self).data_names@ == old(self).data_names@.push(final(self).data_names@.last()),
            final(self).data_names@.last()@ == column@,
            final(self).aux_names@ == old(self).aux_names@,
            final(self).headers@.len() == old(self).headers@.len() + 1,
            final(self).all_headers@.len() == old(self).all_headers@.len() + 1,
    {
        self.headers.push(column.to_owned());
        self.all_headers.push(column.to_owned());
        self.data_names.push(column.to_owned());
        self.data_columns.push(Vec::new());
    }

    /// Append an empty text column of this name.
    pub fn with_aux_column(&mut self, column: &str)
        requires
            old(self).wf(),
            old(self).length == 0,
            !old(self).has_aux(column@),
        ensures
            final(self).wf(),
            final(self).length == 0,
            final(self).aux_names@ == old(self).aux_names@.push(final(self).aux_names@.last()),
            final(self).aux_names@.last()@ == column@,
            final(self).data_names@ == old(self).data_names@,
            final(self).headers@.len() == old(self).headers@.len() + 1,
            final(self).all_headers@.len() == old(self).all_headers@.len() + 1,
    {
        self.headers.push(column.to_owned());
        self.all_headers.push(column.to_owned());
        self.aux_names.push(column.to_owned());
        self.aux_columns.push(Vec::new());
    }

    /// Grow or shrink every column to `n` rows, filling numeric cells with
    /// zero and text cells with the empty string.
    pub fn allocate(&mut self, n: usize)
        requires
            old(self).wf(),
            n <= ROWS_MAX,
        ensures
            final(self).wf(),
            final(self).length == n,
            final(self).data_names@ == old(self).data_names@,
            final(self).aux_names@ == old(self).aux_names@,
            final(self).headers@ == old(self).headers@,
            final(self).all_headers@ == old(self).all_headers@,
            final(self).data_columns@.len() == old(self).data_columns@.len(),
            final(self).aux_columns@.len() == old(self).aux_columns@.len(),
            forall|c: int, r: int| #![trigger final(self).data_columns@[c]@[r]]
                0 <= c < final(self).data_columns@.len() && 0 <= r < n ==> final(self).data_columns@[c]@[r] == (if r < old(self).length {
                    old(self).data_columns@[c]@[r]
                } else {
                    0i64
                }),
            forall|c: int, r: int| #![trigger final(self).aux_columns@[c]@[r]]
                0 <= c < final(self).aux_columns@.len() && 0 <= r < n && r < old(self).length
                    ==> final(self).aux_columns@[c]@[r] == old(self).aux_columns@[c]@[r],
    {
        self.length = n;
        let mut c: usize = 0;
        while c < self.data_columns.len()
            invariant
                c <= self.data_columns@.len(),
                self.data_columns@.len() == old(self).data_columns@.len(),
                self.aux_columns@ == old(self).aux_columns@,
                self.data_names@ == old(self).data_names@,
                self.aux_names@ == old(self).aux_names@,
                self.headers@ == old(self).headers@,
                self.all_headers@ == old(self).all_headers@,
                self.length == n,
                old(self).wf(),
                n <= ROWS_MAX,
                forall|k: int| #![trigger self.data_columns@[k]]
                    c <= k < self.data_columns@.len() ==> self.data_columns@[k]@ == old(self).data_columns@[k]@,
                forall|k: int| 0 <= k < c ==> (#[trigger] self.data_columns@[k])@.len() == n,
                forall|k: int, r: int| #![trigger self.data_columns@[k]@[r]]
                    0 <= k < c && 0 <= r < n ==> self.data_columns@[k]@[r] == (if r < old(self).length {
                        old(self).data_columns@[k]@[r]
                    } else {
                        0i64
                    }),
            decreases self.data_columns@.len() - c,
        {
            let fresh = resize_numeric(&self.data_columns[c], n);
            self.data_columns[c] = fresh;
            c = c + 1;
        }
        let mut c2: usize = 0;
        while c2 < self.aux_columns.len()
            invariant
                c2 <= self.aux_columns@.len(),
                self.aux_columns@.len() == old(self).aux_columns@.len(),
                self.data_columns@.len() == old(self).data_columns@.len(),
                self.data_names@ == old(self).data_names@,
                self.aux_names@ == old(self).aux_names@,
                self.headers@ == old(self).headers@,
                self.all_headers@ == old(self).all_headers@,
                self.length == n,
                old(self).wf(),
                n <= ROWS_MAX,
                forall|k: int| 0 <= k < self.data_columns@.len() ==> (
                #[trigger] self.data_columns@[k])@.len() == n,
                forall|k: int, r: int| #![trigger self.data_columns@[k]@[r]]
                    0 <= k < self.data_columns@.len() && 0 <= r < n ==> self.data_columns@[k]@[r]
                        == (if r < old(self).length {
                        old(self).data_columns@[k]@[r]
                    } else {
                        0i64
                    }),
                forall|k: int| #![trigger self.aux_columns@[k]]
                    c2 <= k < self.aux_columns@.len() ==> self.aux_columns@[k]@ == old(self).aux_columns@[k]@,
                forall|k: int| 0 <= k < c2 ==> (#[trigger] self.aux_columns@[k])@.len() == n,
                forall|k: int, r: int| #![trigger self.aux_columns@[k]@[r]]
                    0 <= k < c2 && 0 <= r < n && r < old(self).length ==> self.aux_columns@[k]@[r]
                        == old(self).aux_columns@[k]@[r],
            decreases self.aux_columns@.len() - c2,
        {
            let fresh = resize_text(&self.aux_columns[c2], n);
            self.aux_columns[c2] = fresh;
            c2 = c2 + 1;
        }
    }

    /// Borrow the numeric column of this name, if the table has one.
    pub fn data_column<'a>(&'a self, column: &str) -> (r: Option<&'a Vec<i64>>)
        requires
            self.wf(),
        ensures
            match r {
                Some(v) => self.has_data(column@) && v@ == self.data_at(column@),
                None => !self.has_data(column@),
            },
    {
        match find_name(&self.data_names, column) {
            Some(c) => {
                proof {
                    lemma_name_idx(self.data_names@, column@, c as int);
                }
                Some(&self.data_columns[c])
            },
            None => None,
        }
    }

    /// Borrow the text column of this name, if the table has one.
    pub fn aux_column<'a>(&'a self, column: &str) -> (r: Option<&'a Vec<String>>)
        requires
            self.wf(),
        ensures
            match r {
                Some(v) => self.has_aux(column@) && v@ == self.aux_at(column@),
                None => !self.has_aux(column@),
            },
    {
        match find_name(&self.aux_names, column) {
            Some(c) => {
                proof {
                    lemma_name_idx(self.aux_names@, column@, c as int);
                }
                Some(&self.aux_columns[c])
            },
            None => None,
        }
    }

    /// Render one cell: a numeric cell as decimal text, a text cell as
    /// itself, anything unresolvable as the empty string.
    pub fn get(&self, column: &str, index: usize) -> (r: String)
        requires
            self.wf(),
        ensures
            r@ == self.spec_get(column@, index as int),
    {
        if index >= self.length {
            return String::new();
        }
        match find_name(&self.data_names, column) {
            Some(c) => {
                proof {
                    lemma_name_idx(self.data_names@, column@, c as int);
                }
                fx_to_text(self.data_columns[c][index])
            },
            None => {
                match find_name(&self.aux_names, column) {
                    Some(c) => {
                        proof {
                            lemma_name_idx(self.aux_names@, column@, c as int);
                        }
                        self.aux_columns[c][index].clone()
                    },
                    None => String::new(),
                }
            },
        }
    }

    /// What `get` renders.
    pub open spec fn spec_get(self, column: Seq<char>, index: int) -> Seq<char> {
        if index >= self.length || index < 0 {
            Seq::empty()
        } else if self.has_data(column) {
            fx_chars(self.data_at(column)[index] as int)
        } else if self.has_aux(column) {
            self.aux_at(column)[index]@
        } else {
            Seq::empty()
        }
    }
}

/// With unique names, any match position is the chosen one.
pub proof fn lemma_name_idx(names: Seq<String>, t: Seq<char>, i: int)
    requires
        names_unique(names),
        0 <= i < names.len(),
        names[i]@ == t,
    ensures
        has_name(names, t),
        name_idx(names, t) == i,
{
    assert(has_name(names, t));
    let j = name_idx(names, t);
    if i < j {
        assert(names[i]@ != names[j]@);
    } else if j < i {
        assert(names[j]@ != names[i]@);
    }
}

/// Copy a name list.
fn clone_names(names: &Vec<String>) -> (r: Vec<String>)
    ensures
        r@ == names@,
{
    let mut out: Vec<String> = Vec::new();
    let mut i: usize = 0;
    while i < names.len()
        invariant
            i <= names@.len(),
            out@ =~= names@.take(i as int),
        decreases names@.len() - i,
    {
        out.push(names[i].clone());
        proof {
            assert(out@ =~= names@.take(i + 1));
        }
        i = i + 1;
    }
    proof {
        assert(out@ =~= names@);
    }
    out
}


/// A numeric column resized to `n` rows, keeping what fits and padding with
/// zeros.
fn resize_numeric(col: &Vec<i64>, n: usize) -> (r: Vec<i64>)
    ensures
        r@.len() == n,
        forall|k: int| #![trigger r@[k]]
            0 <= k < n ==> r@[k] == (if k < col@.len() {
                col@[k]
            } else {
                0i64
            }),
{
    let mut out: Vec<i64> = Vec::new();
    let mut i: usize = 0;
    while i < n
        invariant
            i <= n,
            out@.len() == i,
            forall|k: int| #![trigger out@[k]]
                0 <= k < i ==> out@[k] == (if k < col@.len() {
                    col@[k]
                } else {
                    0i64
                }),
        decreases n - i,
    {
        if i < col.len() {
            out.push(col[i]);
        } else {
            out.push(0);
        }
        i = i + 1;
    }
    out
}

/// A text column resized to `n` rows, keeping what fits and padding with
/// empty strings.
fn resize_text(col: &Vec<String>, n: usize) -> (r: Vec<String>)
    ensures
        r@.len() == n,
        forall|k: int| #![trigger r@[k]]
            0 <= k < n && k < col@.len() ==> r@[k] == col@[k],
{
    let mut out: Vec<String> = Vec::new();
    let mut i: usize = 0;
    while i < n
        invariant
            i <= n,
            out@.len() == i,
            forall|k: int| #![trigger out@[k]]
                0 <= k < i && k < col@.len() ==> out@[k] == col@[k],
        decreases n - i,
    {
        if i < col.len() {
            out.push(col[i].clone());
        } else {
            out.push(String::new());
        }
        i = i + 1;
    }
    out
}


/// The text of cell (i, j) of a record list; a missing cell reads empty.
pub open spec fn cell_view(records: Seq<Vec<String>>, i: int, j: int) -> Seq<char> {
    if j < records[i]@.len() {
        records[i]@[j]@
    } else {
        Seq::empty()
    }
}

/// Every cell of column `j` parses as a number.
pub open spec fn column_is_numeric(records: Seq<Vec<String>>, j: int) -> bool {
    forall|i: int| 0 <= i < records.len() ==> parse_cell(cell_view(records, i, j)) is Some
}

/// `col` holds exactly the parsed cells of column `j`.
pub open spec fn numeric_column_matches(records: Seq<Vec<String>>, j: int, col: Seq<i64>) -> bool {
    col.len() == records.len() && forall|i: int|
        0 <= i < records.len() ==> parse_cell(cell_view(records, i, j)) == Some(#[trigger] col[i])
}

/// `col` holds exactly the cells of column `j`, as text.
pub open spec fn text_column_matches(records: Seq<Vec<String>>, j: int, col: Seq<String>) -> bool {
    col.len() == records.len() && forall|i: int|
        0 <= i < records.len() ==> (#[trigger] col[i])@ == cell_view(records, i, j)
}

/// `col` is the parsed form of some all-numeric input column named `name`.
pub open spec fn numeric_from(
    headers: Seq<String>,
    records: Seq<Vec<String>>,
    name: Seq<char>,
    col: Seq<i64>,
) -> bool {
    exists|j: int|
        0 <= j < headers.len() && name == headers[j]@ && column_is_numeric(records, j)
            && numeric_column_matches(records, j, col)
}

/// `col` carries, as text, some input column named `name` that is not
/// all-numeric.
pub open spec fn text_from(
    headers: Seq<String>,
    records: Seq<Vec<String>>,
    name: Seq<char>,
    col: Seq<String>,
) -> bool {
    exists|j: int|
        0 <= j < headers.len() && name == headers[j]@ && !column_is_numeric(records, j)
            && text_column_matches(records, j, col)
}

/// One column of a record list: its cells as text, and their parsed values
/// when every cell parses.
#[verifier::loop_isolation(false)]
fn read_column(records: &Vec<Vec<String>>, j: usize) -> (r: (Vec<String>, Option<Vec<i64>>))
    ensures
        text_column_matches(records@, j as int, r.0@),
        match r.1 {
            Some(v) => column_is_numeric(records@, j as int) && numeric_column_matches(
                records@,
                j as int,
                v@,
            ),
            None => !column_is_numeric(records@, j as int),
        },
{
    let n = records.len();
    let mut texts: Vec<String> = Vec::new();
    let mut nums: Vec<i64> = Vec::new();
    let mut all_ok = true;
    let mut i: usize = 0;
    while i < n
        invariant
            i <= n,
            texts@.len() == i,
            forall|k: int|
                0 <= k < i ==> (#[trigger] texts@[k])@ == cell_view(records@, k, j as int),
            all_ok ==> nums@.len() == i,
            all_ok ==> forall|k: int|
                0 <= k < i ==> parse_cell(cell_view(records@, k, j as int)) == Some(
                    #[trigger] nums@[k],
                ),
            !all_ok ==> exists|k: int|
                0 <= k < i && parse_cell(cell_view(records@, k, j as int)) is None,
        decreases n - i,
    {
        let rec = &records[i];
        let cell: String = if j < rec.len() {
            rec[j].clone()
        } else {
            String::new()
        };
        proof {
            assert(cell@ == cell_view(records@, i as int, j as int));
        }
        if all_ok {
            match parse_fixed(cell.as_str()) {
                Some(v) => {
                    nums.push(v);
                },
                None => {
                    all_ok = false;
                },
            }
        }
        texts.push(cell);
        i = i + 1;
    }
    if all_ok {
        proof {
            assert(column_is_numeric(records@, j as int)) by {
                assert forall|i2: int| 0 <= i2 < records@.len() implies parse_cell(
                    cell_view(records@, i2, j as int),
                ) is Some by {
                    assert(parse_cell(cell_view(records@, i2, j as int)) == Some(nums@[i2]));
                };
            };
        }
        (texts, Some(nums))
    } else {
        proof {
            let k = choose|k: int|
                0 <= k < n && parse_cell(cell_view(records@, k, j as int)) is None;
            assert(!column_is_numeric(records@, j as int));
        }
        (texts, None)
    }
}

impl PointData {
    /// Build a table from parsed records under ordered headers: a column
    /// whose every cell parses as a number becomes a numeric column of the
    /// parsed values, any other becomes a text column; a header repeating an
    /// earlier name is dropped. Ragged rows read missing cells as empty.
    pub fn from_records(headers: &Vec<String>, records: Vec<Vec<String>>) -> (r: PointData)
        requires
            records@.len() <= ROWS_MAX,
        ensures
            r.wf(),
            r.headers@ == r.all_headers@,
            r.headers@.len() <= headers@.len(),
            headers@.len() > 0 ==> r.length == records@.len(),
            forall|c: int| #![trigger r.data_names@[c]]
                0 <= c < r.data_names@.len() ==> numeric_from(
                    headers@,
                    records@,
                    r.data_names@[c]@,
                    r.data_columns@[c]@,
                ),
            forall|c: int| #![trigger r.aux_names@[c]]
                0 <= c < r.aux_names@.len() ==> text_from(
                    headers@,
                    records@,
                    r.aux_names@[c]@,
                    r.aux_columns@[c]@,
                ),
            views_of(r.headers@) == distinct_prefix(headers@, headers@.len() as int),
            header_kinds_ok(r, headers@, records@),
    {
        let mut out = PointData::new();
        if headers.len() == 0 {
            proof {
                assert(views_of(out.headers@) =~= distinct_prefix(headers@, 0));
            }
            return out;
        }
        proof {
            assert(views_of(out.headers@) =~= distinct_prefix(headers@, 0));
        }
        let n = records.len();
        out.length = n;
        let mut j: usize = 0;
        while j < headers.len()
            invariant
                j <= headers@.len(),
                records@.len() <= ROWS_MAX,
                n == records@.len(),
                out.length == n,
                out.wf(),
                out.headers@ == out.all_headers@,
                out.headers@.len() <= j,
                forall|c: int| #![trigger out.data_names@[c]]
                    0 <= c < out.data_names@.len() ==> numeric_from(
                        headers@,
                        records@,
                        out.data_names@[c]@,
                        out.data_columns@[c]@,
                    ),
                forall|c: int| #![trigger out.aux_names@[c]]
                    0 <= c < out.aux_names@.len() ==> text_from(
                        headers@,
                        records@,
                        out.aux_names@[c]@,
                        out.aux_columns@[c]@,
                    ),
                views_of(out.headers@) == distinct_prefix(headers@, j as int),
                forall|c: int| #![trigger out.headers@[c]]
                    0 <= c < out.headers@.len() ==> has_name(out.data_names@, out.headers@[c]@)
                        || has_name(out.aux_names@, out.headers@[c]@),
                forall|c: int| #![trigger out.data_names@[c]]
                    0 <= c < out.data_names@.len() ==> views_of(out.headers@).contains(
                        out.data_names@[c]@,
                    ),
                forall|c: int| #![trigger out.aux_names@[c]]
                    0 <= c < out.aux_names@.len() ==> views_of(out.headers@).contains(
                        out.aux_names@[c]@,
                    ),
                header_kinds_ok(out, headers@, records@),
            decreases headers@.len() - j,
        {
            let name = &headers[j];
            let dup_data = find_name(&out.data_names, name.as_str());
            let dup_aux = find_name(&out.aux_names, name.as_str());
            if dup_data.is_none() && dup_aux.is_none() {
                let (texts, nums) = read_column(&records, j);
                let ghost old_out = out;
                let ghost numeric_here = column_is_numeric(records@, j as int);
                proof {
                    assert(!views_of(out.headers@).contains(name@)) by {
                        if views_of(out.headers@).contains(name@) {
                            let m = choose|m: int|
                                0 <= m < views_of(out.headers@).len() && views_of(out.headers@)[m]
                                    == name@;
                            assert(out.headers@[m]@ == name@);
                            assert(has_name(out.data_names@, out.headers@[m]@) || has_name(
                                out.aux_names@,
                                out.headers@[m]@,
                            ));
                        }
                    };
                    assert(first_header(headers@, name@, j as int)) by {
                        assert forall|k: int| 0 <= k < j implies headers@[k]@ != name@ by {
                            if headers@[k]@ == name@ {
                                lemma_distinct_prefix_contains(headers@, j as int, k);
                            }
                        };
                    };
                    assert(distinct_prefix(headers@, j + 1) == distinct_prefix(
                        headers@,
                        j as int,
                    ).push(name@));
                }
                match nums {
                    Some(vals) => {
                        proof {
                            assert(forall|k: int|
                                0 <= k < vals@.len() ==> fits_val(#[trigger] vals@[k])) by {
                                assert forall|k: int| 0 <= k < vals@.len() implies fits_val(
                                    #[trigger] vals@[k],
                                ) by {
                                    assert(parse_cell(cell_view(records@, k, j as int)) == Some(
                                        vals@[k],
                                    ));
                                    lemma_parse_range(
                                        vstd::utf8::encode_utf8(cell_view(records@, k, j as int)),
                                    );
                                };
                            };
                        }
                        out.data_names.push(name.clone());
                        out.data_columns.push(vals);
                        proof {
                            let last = out.data_names@.len() - 1;
                            assert(out.data_names@[last]@ == headers@[j as int]@);
                            assert(numeric_from(
                                headers@,
                                records@,
                                out.data_names@[last]@,
                                out.data_columns@[last]@,
                            ));
                            assert(forall|c: int|
                                0 <= c < last ==> #[trigger] out.data_names@[c]
                                    == old_out.data_names@[c] && out.data_columns@[c]
                                    == old_out.data_columns@[c]);
                            assert(names_unique(out.data_names@)) by {
                                assert forall|a: int, b: int|
                                    0 <= a < b < out.data_names@.len() implies out.data_names@[a]@
                                    != out.data_names@[b]@ by {
                                    if b < out.data_names@.len() - 1 {
                                        assert(out.data_names@[a] == old_out.data_names@[a]);
                                        assert(out.data_names@[b] == old_out.data_names@[b]);
                                    } else {
                                        assert(out.data_names@[a] == old_out.data_names@[a]);
                                        assert(!has_name(old_out.data_names@, name@));
                                    }
                                };
                            };
                            lemma_name_idx(out.data_names@, name@, last);
                            assert(out.has_data(name@));
                            assert(numeric_here);
                            assert(numeric_column_matches(records@, j as int, out.data_at(name@)));
                            assert(out.aux_names@ == old_out.aux_names@);
                            assert(out.aux_columns@ == old_out.aux_columns@);
                        }
                    },
                    None => {
                        out.aux_names.push(name.clone());
                        out.aux_columns.push(texts);
                        proof {
                            let last = out.aux_names@.len() - 1;
                            assert(out.aux_names@[last]@ == headers@[j as int]@);
                            assert(text_from(
                                headers@,
                                records@,
                                out.aux_names@[last]@,
                                out.aux_columns@[last]@,
                            ));
                            assert(forall|c: int|
                                0 <= c < last ==> #[trigger] out.aux_names@[c]
                                    == old_out.aux_names@[c] && out.aux_columns@[c]
                                    == old_out.aux_columns@[c]);
                            assert(names_unique(out.aux_names@)) by {
                                assert forall|a: int, b: int|
                                    0 <= a < b < out.aux_names@.len() implies out.aux_names@[a]@
                                    != out.aux_names@[b]@ by {
                                    if b < out.aux_names@.len() - 1 {
                                        assert(out.aux_names@[a] == old_out.aux_names@[a]);
                                        assert(out.aux_names@[b] == old_out.aux_names@[b]);
                                    } else {
                                        assert(out.aux_names@[a] == old_out.aux_names@[a]);
                                        assert(!has_name(old_out.aux_names@, name@));
                                    }
                                };
                            };
                            lemma_name_idx(out.aux_names@, name@, last);
                            assert(out.has_aux(name@));
                            assert(!numeric_here);
                            assert(text_column_matches(records@, j as int, out.aux_at(name@)));
                            assert(out.data_names@ == old_out.data_names@);
                            assert(out.data_columns@ == old_out.data_columns@);
                        }
                    },
                }
                out.headers.push(name.clone());
                out.all_headers.push(name.clone());
                proof {
                    let h = name@;
                    let lh = out.headers@.len() - 1;
                    assert(out.headers@[lh]@ == h);
                    assert(names_unique(out.data_names@) && names_unique(out.aux_names@));
                    assert(forall|c: int|
                        0 <= c < lh ==> #[trigger] out.headers@[c] == old_out.headers@[c]);
                    assert(views_of(out.headers@) =~= views_of(old_out.headers@).push(h));
                    assert forall|c: int|
                        0 <= c < out.headers@.len() implies has_name(
                        out.data_names@,
                        (#[trigger] out.headers@[c])@,
                    ) || has_name(out.aux_names@, out.headers@[c]@) by {
                        if c < lh {
                            let hc = old_out.headers@[c]@;
                            if has_name(old_out.data_names@, hc) {
                                let i0 = choose|i0: int|
                                    0 <= i0 < old_out.data_names@.len()
                                        && old_out.data_names@[i0]@ == hc;
                                assert(out.data_names@[i0]@ == hc);
                            } else {
                                let i0 = choose|i0: int|
                                    0 <= i0 < old_out.aux_names@.len() && old_out.aux_names@[i0]@
                                        == hc;
                                assert(out.aux_names@[i0]@ == hc);
                            }
                        } else {
                            if numeric_here {
                                assert(has_name(out.data_names@, h));
                            } else {
                                assert(has_name(out.aux_names@, h));
                            }
                        }
                    };
                    assert forall|c: int|
                        0 <= c < out.data_names@.len() implies views_of(out.headers@).contains(
                        (#[trigger] out.data_names@[c])@,
                    ) by {
                        if c < old_out.data_names@.len() {
                            assert(out.data_names@[c] == old_out.data_names@[c]);
                            let w = choose|w: int|
                                0 <= w < views_of(old_out.headers@).len() && views_of(
                                    old_out.headers@,
                                )[w] == old_out.data_names@[c]@;
                            assert(views_of(out.headers@)[w] == out.data_names@[c]@);
                        } else {
                            assert(out.data_names@[c]@ == h);
                            assert(views_of(out.headers@)[lh] == h);
                        }
                    };
                    assert forall|c: int|
                        0 <= c < out.aux_names@.len() implies views_of(out.headers@).contains(
                        (#[trigger] out.aux_names@[c])@,
                    ) by {
                        if c < old_out.aux_names@.len() {
                            assert(out.aux_names@[c] == old_out.aux_names@[c]);
                            let w = choose|w: int|
                                0 <= w < views_of(old_out.headers@).len() && views_of(
                                    old_out.headers@,
                                )[w] == old_out.aux_names@[c]@;
                            assert(views_of(out.headers@)[w] == out.aux_names@[c]@);
                        } else {
                            assert(out.aux_names@[c]@ == h);
                            assert(views_of(out.headers@)[lh] == h);
                        }
                    };
                    assert forall|c: int, j2: int|
                        #![trigger out.headers@[c], headers@[j2]]
                        0 <= c < out.headers@.len() && first_header(
                            headers@,
                            out.headers@[c]@,
                            j2,
                        ) implies ({
                        &&& (column_is_numeric(records@, j2) ==> out.has_data(out.headers@[c]@)
                            && numeric_column_matches(
                            records@,
                            j2,
                            out.data_at(out.headers@[c]@),
                        ))
                        &&& (!column_is_numeric(records@, j2) ==> out.has_aux(out.headers@[c]@)
                            && text_column_matches(records@, j2, out.aux_at(out.headers@[c]@)))
                    }) by {
                        let hc = out.headers@[c]@;
                        assert(headers@[j2]@ == hc);
                        if c == lh {
                            assert(headers@[j as int]@ == h);
                            if j2 < j {
                                assert(headers@[j2]@ != h);
                            }
                            if j2 > j {
                                assert(headers@[j as int]@ != hc);
                            }
                            assert(j2 == j);
                        } else {
                            assert(out.headers@[c] == old_out.headers@[c]);
                            assert(hc != h) by {
                                if hc == h {
                                    assert(has_name(old_out.data_names@, old_out.headers@[c]@)
                                        || has_name(old_out.aux_names@, old_out.headers@[c]@));
                                }
                            };
                            assert(first_header(headers@, old_out.headers@[c]@, j2));
                            if column_is_numeric(records@, j2) {
                                assert(old_out.has_data(hc) && numeric_column_matches(
                                    records@,
                                    j2,
                                    old_out.data_at(hc),
                                ));
                                let i0 = choose|i0: int|
                                    0 <= i0 < old_out.data_names@.len()
                                        && old_out.data_names@[i0]@ == hc;
                                lemma_name_idx(old_out.data_names@, hc, i0);
                                assert(out.data_names@[i0]@ == hc);
                                lemma_name_idx(out.data_names@, hc, i0);
                                assert(out.data_at(hc) == old_out.data_at(hc));
                            } else {
                                assert(old_out.has_aux(hc) && text_column_matches(
                                    records@,
                                    j2,
                                    old_out.aux_at(hc),
                                ));
                                let i0 = choose|i0: int|
                                    0 <= i0 < old_out.aux_names@.len() && old_out.aux_names@[i0]@
                                        == hc;
                                lemma_name_idx(old_out.aux_names@, hc, i0);
                                assert(out.aux_names@[i0]@ == hc);
                                lemma_name_idx(out.aux_names@, hc, i0);
                                assert(out.aux_at(hc) == old_out.aux_at(hc));
                            }
                        }
                    };
                }
            } else {
                proof {
                    assert(has_name(out.data_names@, name@) || has_name(out.aux_names@, name@))
                        by {
                        match dup_data {
                            Some(i) => {
                                assert(out.data_names@[i as int]@ == name@);
                            },
                            None => {
                                match dup_aux {
                                    Some(i) => {
                                        assert(out.aux_names@[i as int]@ == name@);
                                    },
                                    None => {
                                        assert(false);
                                    },
                                }
                            },
                        }
                    };
                    assert(views_of(out.headers@).contains(name@)) by {
                        if has_name(out.data_names@, name@) {
                            let i0 = choose|i0: int|
                                0 <= i0 < out.data_names@.len() && out.data_names@[i0]@ == name@;
                            assert(views_of(out.headers@).contains(out.data_names@[i0]@));
                        } else {
                            let i0 = choose|i0: int|
                                0 <= i0 < out.aux_names@.len() && out.aux_names@[i0]@ == name@;
                            assert(views_of(out.headers@).contains(out.aux_names@[i0]@));
                        }
                    };
                    assert(distinct_prefix(headers@, j + 1) == distinct_prefix(
                        headers@,
                        j as int,
                    ));
                }
            }
            j = j + 1;
        }
        out
    }
}

/// Whatever the decimal parser accepts lies within the admitted range.
proof fn lemma_parse_range(b: Seq<u8>)
    ensures
        spec_parse_fixed(b) matches Some(v) ==> -crate::fixed::VAL_MAX <= v
            <= crate::fixed::VAL_MAX,
{
    crate::text::lemma_parse_fixed_range(b);
}


impl PointData {
    /// Overwrite one numeric cell; a fresh column of zeros is created when
    /// the table has no numeric column of this name.
    pub fn set_data(&mut self, column: &str, index: usize, value: i64)
        requires
            old(self).wf(),
            index < old(self).length,
            fits_val(value),
        ensures
            final(self).wf(),
            final(self).length == old(self).length,
            old(self).has_data(column@) ==> final(self).data_names@ == old(self).data_names@
                && final(self).data_at(column@) == old(self).data_at(column@).update(
                index as int,
                value,
            ),
            !old(self).has_data(column@) ==> final(self).has_data(column@) && final(self).data_at(
                column@,
            ) == Seq::new(old(self).length as nat, |i: int| 0i64).update(index as int, value),
            final(self).aux_names@ == old(self).aux_names@,
            final(self).aux_columns@ == old(self).aux_columns@,
    {
        match find_name(&self.data_names, column) {
            Some(c) => {
                proof {
                    lemma_name_idx(self.data_names@, column@, c as int);
                }
                let mut fresh = resize_numeric(&self.data_columns[c], self.length);
                fresh[index] = value;
                proof {
                    assert(fresh@ =~= old(self).data_columns@[c as int]@.update(
                        index as int,
                        value,
                    ));
                }
                self.data_columns[c] = fresh;
            },
            None => {
                let ghost before = *self;
                let mut fresh = zero_numeric(self.length);
                fresh[index] = value;
                proof {
                    assert(fresh@ =~= Seq::new(self.length as nat, |i: int| 0i64).update(
                        index as int,
                        value,
                    ));
                }
                self.data_names.push(column.to_owned());
                self.data_columns.push(fresh);
                if find_name(&self.all_headers, column).is_none() {
                    self.headers.push(column.to_owned());
                    self.all_headers.push(column.to_owned());
                }
                proof {
                    assert(names_unique(self.data_names@)) by {
                        assert forall|a: int, b: int|
                            0 <= a < b < self.data_names@.len() implies self.data_names@[a]@
                            != self.data_names@[b]@ by {
                            if b < self.data_names@.len() - 1 {
                                assert(self.data_names@[a] == before.data_names@[a]);
                                assert(self.data_names@[b] == before.data_names@[b]);
                            } else {
                                assert(self.data_names@[a] == before.data_names@[a]);
                                assert(!has_name(before.data_names@, column@));
                            }
                        };
                    };
                    lemma_name_idx(self.data_names@, column@, self.data_names@.len() - 1);
                }
            },
        }
    }

    /// Overwrite one text cell; a fresh column of empty cells is created when
    /// the table has no text column of this name.
    pub fn set_aux(&mut self, column: &str, index: usize, value: String)
        requires
            old(self).wf(),
            index < old(self).length,
        ensures
            final(self).wf(),
            final(self).length == old(self).length,
            old(self).has_aux(column@) ==> final(self).aux_names@ == old(self).aux_names@
                && final(self).aux_at(column@) == old(self).aux_at(column@).update(
                index as int,
                value,
            ),
            !old(self).has_aux(column@) ==> final(self).has_aux(column@),
            final(self).data_names@ == old(self).data_names@,
            final(self).data_columns@ == old(self).data_columns@,
    {
        match find_name(&self.aux_names, column) {
            Some(c) => {
                proof {
                    lemma_name_idx(self.aux_names@, column@, c as int);
                }
                let mut fresh = resize_text(&self.aux_columns[c], self.length);
                let ghost base = self.aux_columns@[c as int]@;
                fresh[index] = value;
                proof {
                    assert(fresh@ =~= base.update(index as int, fresh@[index as int]));
                }
                self.aux_columns[c] = fresh;
            },
            None => {
                let ghost before = *self;
                let empty: Vec<String> = Vec::new();
                let mut fresh = resize_text(&empty, self.length);
                fresh[index] = value;
                self.aux_names.push(column.to_owned());
                self.aux_columns.push(fresh);
                if find_name(&self.all_headers, column).is_none() {
                    self.headers.push(column.to_owned());
                    self.all_headers.push(column.to_owned());
                }
                proof {
                    assert(names_unique(self.aux_names@)) by {
                        assert forall|a: int, b: int|
                            0 <= a < b < self.aux_names@.len() implies self.aux_names@[a]@
                            != self.aux_names@[b]@ by {
                            if b < self.aux_names@.len() - 1 {
                                assert(self.aux_names@[a] == before.aux_names@[a]);
                                assert(self.aux_names@[b] == before.aux_names@[b]);
                            } else {
                                assert(self.aux_names@[a] == before.aux_names@[a]);
                                assert(!has_name(before.aux_names@, column@));
                            }
                        };
                    };
                    lemma_name_idx(self.aux_names@, column@, self.aux_names@.len() - 1);
                }
            },
        }
    }

    /// The coordinate rows of two numeric columns, paired with their zero-
    /// based row indices; nothing when either column is not numeric.
    pub fn points(&self, x_column: &str, y_column: &str) -> (r: Option<Vec<(i64, i64, usize)>>)
        requires
            self.wf(),
        ensures
            match r {
                Some(v) => self.has_data(x_column@) && self.has_data(y_column@) && v@ == Seq::new(
                    self.length as nat,
                    |i: int|
                        (
                            self.data_at(x_column@)[i],
                            self.data_at(y_column@)[i],
                            i as usize,
                        ),
                ),
                None => !(self.has_data(x_column@) && self.has_data(y_column@)),
            },
    {
        let xs = match self.data_column(x_column) {
            Some(xs) => xs,
            None => {
                return None;
            },
        };
        let ys = match self.data_column(y_column) {
            Some(ys) => ys,
            None => {
                return None;
            },
        };
        let n = self.length;
        let mut out: Vec<(i64, i64, usize)> = Vec::new();
        let mut i: usize = 0;
        while i < n
            invariant
                i <= n,
                n == self.length,
                xs@.len() == n && ys@.len() == n,
                xs@ == self.data_at(x_column@),
                ys@ == self.data_at(y_column@),
                out@.len() == i,
                forall|k: int| #![trigger out@[k]]
                    0 <= k < i ==> out@[k] == (xs@[k], ys@[k], k as usize),
            decreases n - i,
        {
            out.push((xs[i], ys[i], i));
            i = i + 1;
        }
        proof {
            assert(out@ =~= Seq::new(
                self.length as nat,
                |i: int| (self.data_at(x_column@)[i], self.data_at(y_column@)[i], i as usize),
            ));
        }
        Some(out)
    }

    /// The weighted coordinate rows of three numeric columns, paired with
    /// their zero-based row indices; nothing when any column is not numeric.
    pub fn weighted_points(&self, x_column: &str, y_column: &str, weight_column: &str) -> (r:
        Option<Vec<(i64, i64, i64, usize)>>)
        requires
            self.wf(),
        ensures
            match r {
                Some(v) => self.has_data(x_column@) && self.has_data(y_column@) && self.has_data(
                    weight_column@,
                ) && v@ == Seq::new(
                    self.length as nat,
                    |i: int|
                        (
                            self.data_at(x_column@)[i],
                            self.data_at(y_column@)[i],
                            self.data_at(weight_column@)[i],
                            i as usize,
                        ),
                ),
                None => !(self.has_data(x_column@) && self.has_data(y_column@) && self.has_data(
                    weight_column@,
                )),
            },
    {
        let xs = match self.data_column(x_column) {
            Some(xs) => xs,
            None => {
                return None;
            },
        };
        let ys = match self.data_column(y_column) {
            Some(ys) => ys,
            None => {
                return None;
            },
        };
        let ws = match self.data_column(weight_column) {
            Some(ws) => ws,
            None => {
                return None;
            },
        };
        let n = self.length;
        let mut out: Vec<(i64, i64, i64, usize)> = Vec::new();
        let mut i: usize = 0;
        while i < n
            invariant
                i <= n,
                n == self.length,
                xs@.len() == n && ys@.len() == n && ws@.len() == n,
                xs@ == self.data_at(x_column@),
                ys@ == self.data_at(y_column@),
                ws@ == self.data_at(weight_column@),
                out@.len() == i,
                forall|k: int| #![trigger out@[k]]
                    0 <= k < i ==> out@[k] == (xs@[k], ys@[k], ws@[k], k as usize),
            decreases n - i,
        {
            out.push((xs[i], ys[i], ws[i], i));
            i = i + 1;
        }
        proof {
            assert(out@ =~= Seq::new(
                self.length as nat,
                |i: int|
                    (
                        self.data_at(x_column@)[i],
                        self.data_at(y_column@)[i],
                        self.data_at(weight_column@)[i],
                        i as usize,
                    ),
            ));
        }
        Some(out)
    }

    /// Render one row under the displayed headers: numeric cells as decimal
    /// text, text cells quoted, unresolvable columns skipped; an index beyond
    /// the row count renders nothing.
    pub fn row(&self, index: usize) -> (r: Vec<String>)
        requires
            self.wf(),
        ensures
            r@.len() <= self.headers@.len(),
            index < self.length ==> forall|k: int| #![trigger r@[k]]
                0 <= k < r@.len() ==> row_text_of(*self, index as int, r@[k]@),
            index < self.length ==> views_of(r@) == row_prefix(
                *self,
                index as int,
                self.headers@.len() as int,
            ),
            index >= self.length ==> r@.len() == 0,
    {
        let mut out: Vec<String> = Vec::new();
        if index >= self.length {
            return out;
        }
        proof {
            assert(views_of(out@) =~= row_prefix(*self, index as int, 0));
        }
        proof {
            reveal_strlit("\"");
        }
        let mut j: usize = 0;
        while j < self.headers.len()
            invariant
                j <= self.headers@.len(),
                self.wf(),
                index < self.length,
                out@.len() <= j,
                forall|k: int| #![trigger out@[k]]
                    0 <= k < out@.len() ==> row_text_of(*self, index as int, out@[k]@),
                views_of(out@) == row_prefix(*self, index as int, j as int),
            decreases self.headers@.len() - j,
        {
            let name = &self.headers[j];
            match self.data_column(name.as_str()) {
                Some(vals) => {
                    let ghost before = out@;
                    out.push(fx_to_text(vals[index]));
                    proof {
                        assert(row_cell(*self, self.headers@[j as int]@, index as int) == Some(
                            out@[before.len() as int]@,
                        ));
                        assert(row_text_of(*self, index as int, out@[before.len() as int]@));
                        assert(views_of(out@) =~= views_of(before).push(
                            out@[before.len() as int]@,
                        ));
                    }
                },
                None => {
                    match self.aux_column(name.as_str()) {
                        Some(cells) => {
                            let ghost before = out@;
                            let mut quoted = String::new();
                            proof {
                                reveal_strlit("\"");
                            }
                            quoted.append("\"");
                            quoted.append(cells[index].as_str());
                            quoted.append("\"");
                            proof {
                                assert(quoted@ =~= seq!['"'] + self.aux_at(name@)[index as int]@
                                    + seq!['"']);
                            }
                            out.push(quoted);
                            proof {
                                assert(row_cell(*self, self.headers@[j as int]@, index as int)
                                    == Some(out@[before.len() as int]@));
                                assert(row_text_of(
                                    *self,
                                    index as int,
                                    out@[before.len() as int]@,
                                ));
                                assert(views_of(out@) =~= views_of(before).push(
                                    out@[before.len() as int]@,
                                ));
                            }
                        },
                        None => {
                            proof {
                                assert(row_cell(
                                    *self,
                                    self.headers@[j as int]@,
                                    index as int,
                                ) is None);
                            }
                        },
                    }
                },
            }
            j = j + 1;
        }
        out
    }

    /// Render the whole table as comma-separated text: the displayed header
    /// row, then one line per row.
    pub fn to_csv_simple(&self) -> (r: String)
        requires
            self.wf(),
        ensures
            r@ == csv_text(*self),
    {
        let mut s = join_texts(&self.headers, ",");
        s.append("\n");
        let ghost rows = Seq::new(
            self.length as nat,
            |i: int| join_sep(row_prefix(*self, i, self.headers@.len() as int), ","@),
        );
        let ghost head_part = join_sep(views_of(self.headers@), ","@) + "\n"@;
        let mut i: usize = 0;
        proof {
            assert(rows.take(0) =~= Seq::<Seq<char>>::empty());
            assert(s@ =~= head_part + join_sep(rows.take(0), "\n"@));
        }
        while i < self.length
            invariant
                i <= self.length,
                self.wf(),
                rows == Seq::new(
                    self.length as nat,
                    |k: int| join_sep(row_prefix(*self, k, self.headers@.len() as int), ","@),
                ),
                head_part == join_sep(views_of(self.headers@), ","@) + "\n"@,
                s@ == head_part + join_sep(rows.take(i as int), "\n"@),
            decreases self.length - i,
        {
            if i > 0 {
                s.append("\n");
            }
            let cells = self.row(i);
            let line = join_texts(&cells, ",");
            s.append(line.as_str());
            proof {
                assert(views_of(cells@) == row_prefix(
                    *self,
                    i as int,
                    self.headers@.len() as int,
                ));
                assert(line@ == rows[i as int]);
                if i == 0 {
                    assert(rows.take(1) =~= seq![rows[0]]);
                    assert(s@ =~= head_part + join_sep(rows.take(1), "\n"@));
                } else {
                    assert(rows.take(i + 1).drop_last() =~= rows.take(i as int));
                    assert(rows.take(i + 1).last() == rows[i as int]);
                    assert(s@ =~= head_part + (join_sep(rows.take(i as int), "\n"@) + "\n"@
                        + rows[i as int]));
                }
            }
            i = i + 1;
        }
        proof {
            assert(rows.take(self.length as int) =~= rows);
            assert(s@ =~= csv_text(*self));
        }
        s
    }

    /// Up to one hundred distinct cell texts of the named column, in first-
    /// appearance order: the text cells first, then the rendered numeric
    /// cells.
    pub fn unique_values(&self, column: &str) -> (r: Vec<String>)
        requires
            self.wf(),
        ensures
            r@.len() <= 100,
            forall|a: int, b: int| 0 <= a < b < r@.len() ==> (#[trigger] r@[a])@ != (
            #[trigger] r@[b])@,
            forall|k: int| #![trigger r@[k]]
                0 <= k < r@.len() ==> cell_text_of(*self, column@, r@[k]@),
            ({
                let full = dedup_prefix(
                    cell_stream(*self, column@),
                    cell_stream(*self, column@).len() as int,
                );
                views_of(r@) == (if full.len() <= 100 {
                    full
                } else {
                    full.take(100)
                })
            }),
    {
        let ghost stream = cell_stream(*self, column@);
        let ghost aux_len: int = if self.has_aux(column@) {
            self.aux_at(column@).len() as int
        } else {
            0
        };
        let mut out: Vec<String> = Vec::new();
        let ghost mut pos: int = 0;
        proof {
            assert(views_of(out@) =~= dedup_prefix(stream, 0));
        }
        match self.aux_column(column) {
            Some(cells) => {
                proof {
                    assert(forall|k: int|
                        0 <= k < aux_len ==> #[trigger] stream[k] == self.aux_at(column@)[k]@);
                }
                let mut i: usize = 0;
                while i < cells.len() && out.len() < 100
                    invariant
                        i <= cells@.len(),
                        self.wf(),
                        self.has_aux(column@),
                        cells@ == self.aux_at(column@),
                        cells@.len() == self.length,
                        stream == cell_stream(*self, column@),
                        aux_len == cells@.len(),
                        forall|k: int|
                            0 <= k < aux_len ==> #[trigger] stream[k] == self.aux_at(
                                column@,
                            )[k]@,
                        pos == i,
                        views_of(out@) == dedup_prefix(stream, pos),
                        out@.len() <= 100,
                        forall|a: int, b: int|
                            0 <= a < b < out@.len() ==> (#[trigger] out@[a])@ != (
                            #[trigger] out@[b])@,
                        forall|k: int| #![trigger out@[k]]
                            0 <= k < out@.len() ==> cell_text_of(*self, column@, out@[k]@),
                    decreases cells@.len() - i,
                {
                    let cell = &cells[i];
                    if !contains_text(&out, cell.as_str()) {
                        let ghost before = out@;
                        out.push(cell.clone());
                        proof {
                            assert(out@[before.len() as int]@ == self.aux_at(column@)[i as int]@);
                            assert(cell_text_of(*self, column@, out@[before.len() as int]@));
                            assert(!dedup_prefix(stream, pos).contains(stream[pos])) by {
                                if dedup_prefix(stream, pos).contains(stream[pos]) {
                                    let w = choose|w: int|
                                        0 <= w < views_of(before).len() && views_of(before)[w]
                                            == stream[pos];
                                    assert(before[w]@ == cell@);
                                }
                            };
                            assert(views_of(out@) =~= dedup_prefix(stream, pos).push(cell@));
                        }
                    } else {
                        proof {
                            let k = choose|k: int|
                                0 <= k < out@.len() && (#[trigger] out@[k])@ == cell@;
                            assert(views_of(out@)[k] == stream[pos]);
                            assert(dedup_prefix(stream, pos).contains(stream[pos]));
                        }
                    }
                    proof {
                        pos = pos + 1;
                    }
                    i = i + 1;
                }
                proof {
                    assert(pos == aux_len || out@.len() == 100);
                }
            },
            None => {
                proof {
                    assert(pos == aux_len);
                }
            },
        }
        match self.data_column(column) {
            Some(vals) => {
                proof {
                    assert(forall|k: int|
                        0 <= k < vals@.len() ==> #[trigger] stream[aux_len + k] == fx_chars(
                            self.data_at(column@)[k] as int,
                        ));
                }
                let mut i: usize = 0;
                while i < vals.len() && out.len() < 100
                    invariant
                        i <= vals@.len(),
                        self.wf(),
                        self.has_data(column@),
                        vals@ == self.data_at(column@),
                        vals@.len() == self.length,
                        stream == cell_stream(*self, column@),
                        stream.len() == aux_len + vals@.len(),
                        forall|k: int|
                            0 <= k < vals@.len() ==> #[trigger] stream[aux_len + k] == fx_chars(
                                self.data_at(column@)[k] as int,
                            ),
                        pos == aux_len + i || out@.len() == 100,
                        0 <= pos <= stream.len(),
                        views_of(out@) == dedup_prefix(stream, pos),
                        out@.len() <= 100,
                        forall|a: int, b: int|
                            0 <= a < b < out@.len() ==> (#[trigger] out@[a])@ != (
                            #[trigger] out@[b])@,
                        forall|k: int| #![trigger out@[k]]
                            0 <= k < out@.len() ==> cell_text_of(*self, column@, out@[k]@),
                    decreases vals@.len() - i,
                {
                    let text = fx_to_text(vals[i]);
                    if !contains_text(&out, text.as_str()) {
                        let ghost before = out@;
                        out.push(text);
                        proof {
                            assert(out@[before.len() as int]@ == fx_chars(
                                self.data_at(column@)[i as int] as int,
                            ));
                            assert(cell_text_of(*self, column@, out@[before.len() as int]@));
                            assert(!dedup_prefix(stream, pos).contains(stream[pos])) by {
                                if dedup_prefix(stream, pos).contains(stream[pos]) {
                                    let w = choose|w: int|
                                        0 <= w < views_of(before).len() && views_of(before)[w]
                                            == stream[pos];
                                    assert(before[w]@ == out@[before.len() as int]@);
                                }
                            };
                            assert(views_of(out@) =~= dedup_prefix(stream, pos).push(
                                stream[pos],
                            ));
                        }
                    } else {
                        proof {
                            let k = choose|k: int|
                                0 <= k < out@.len() && (#[trigger] out@[k])@ == fx_chars(
                                    self.data_at(column@)[i as int] as int,
                                );
                            assert(views_of(out@)[k] == stream[pos]);
                            assert(dedup_prefix(stream, pos).contains(stream[pos]));
                        }
                    }
                    proof {
                        pos = pos + 1;
                    }
                    i = i + 1;
                }
                proof {
                    assert(pos == stream.len() || out@.len() == 100);
                }
            },
            None => {
                proof {
                    assert(stream.len() == aux_len);
                    assert(pos == stream.len() || out@.len() == 100);
                }
            },
        }
        proof {
            let full = dedup_prefix(stream, stream.len() as int);
            lemma_dedup_prefix_extends(stream, pos, stream.len() as int);
            if out@.len() == 100 {
                assert(views_of(out@) =~= full.take(100));
                if full.len() <= 100 {
                    assert(views_of(out@) =~= full);
                }
            } else {
                assert(pos == stream.len());
            }
        }
        out
    }
}

/// A small fixture table: five rows of unit-square corner and center
/// coordinates with a text label, for trying the pipeline without a file.
pub fn test_point_data() -> (r: PointData)
    ensures
        r.wf(),
        r.length == 5,
        r.headers@.len() <= 3,
{
    let headers: Vec<String> = vec![
        "x".to_owned(),
        "y".to_owned(),
        "label".to_owned(),
    ];
    let records: Vec<Vec<String>> = vec![
        vec!["0".to_owned(), "0".to_owned(), "A".to_owned()],
        vec!["0".to_owned(), "1".to_owned(), "B".to_owned()],
        vec!["1".to_owned(), "0".to_owned(), "C".to_owned()],
        vec!["1".to_owned(), "1".to_owned(), "D".to_owned()],
        vec!["0.5".to_owned(), "0.5".to_owned(), "E".to_owned()],
    ];
    let data = PointData::from_records(&headers, records);
    data
}

/// The named column's cells as rendered text: the text cells as they stand,
/// then the numeric cells as decimal text.
pub open spec fn cell_stream(data: PointData, column: Seq<char>) -> Seq<Seq<char>> {
    (if data.has_aux(column) {
        data.aux_at(column).map_values(|s: String| s@)
    } else {
        Seq::empty()
    }) + (if data.has_data(column) {
        data.data_at(column).map_values(|v: i64| fx_chars(v as int))
    } else {
        Seq::empty()
    })
}

/// The distinct entries among the first `i` of `cells`, each kept at its
/// first occurrence, in order.
pub open spec fn dedup_prefix(cells: Seq<Seq<char>>, i: int) -> Seq<Seq<char>>
    decreases i,
{
    if i <= 0 || i > cells.len() {
        Seq::empty()
    } else if dedup_prefix(cells, i - 1).contains(cells[i - 1]) {
        dedup_prefix(cells, i - 1)
    } else {
        dedup_prefix(cells, i - 1).push(cells[i - 1])
    }
}

/// A longer dedup prefix extends a shorter one.
pub proof fn lemma_dedup_prefix_extends(cells: Seq<Seq<char>>, i: int, j: int)
    requires
        0 <= i <= j <= cells.len(),
    ensures
        dedup_prefix(cells, i).len() <= dedup_prefix(cells, j).len(),
        dedup_prefix(cells, i) == dedup_prefix(cells, j).take(
            dedup_prefix(cells, i).len() as int,
        ),
    decreases j - i,
{
    let a = dedup_prefix(cells, i);
    if i == j {
        assert(a =~= a.take(a.len() as int));
    } else {
        lemma_dedup_prefix_extends(cells, i, j - 1);
        let b = dedup_prefix(cells, j - 1);
        let c = dedup_prefix(cells, j);
        assert(a =~= c.take(a.len() as int)) by {
            if !b.contains(cells[j - 1]) {
                assert(c == b.push(cells[j - 1]));
                assert(c.take(a.len() as int) =~= b.take(a.len() as int));
            }
        };
    }
}

/// The text `v` reads one of the named column's cells: a text cell as is, a
/// numeric cell rendered as decimal text.
pub open spec fn cell_text_of(data: PointData, column: Seq<char>, v: Seq<char>) -> bool {
    exists|j: int|
        0 <= j < data.length && (data.has_aux(column) && v == data.aux_at(column)[j]@
            || data.has_data(column) && v == fx_chars(data.data_at(column)[j] as int))
}

/// What one cell of a row renders to: a numeric cell as decimal text, a text
/// cell quoted; an unresolvable column renders nothing.
pub open spec fn row_cell(data: PointData, col: Seq<char>, index: int) -> Option<Seq<char>> {
    if data.has_data(col) {
        Some(fx_chars(data.data_at(col)[index] as int))
    } else if data.has_aux(col) {
        Some(seq!['"'] + data.aux_at(col)[index]@ + seq!['"'])
    } else {
        None
    }
}

/// The text `v` renders some displayed column's cell of this row.
pub open spec fn row_text_of(data: PointData, index: int, v: Seq<char>) -> bool {
    exists|j: int|
        0 <= j < data.headers@.len() && row_cell(data, data.headers@[j]@, index) == Some(v)
}

/// The rendered cells of one row under the first `j` displayed headers, in
/// header order, unresolvable columns skipped.
pub open spec fn row_prefix(data: PointData, index: int, j: int) -> Seq<Seq<char>>
    decreases j,
{
    if j <= 0 || j > data.headers@.len() {
        Seq::empty()
    } else {
        match row_cell(data, data.headers@[j - 1]@, index) {
            Some(v) => row_prefix(data, index, j - 1).push(v),
            None => row_prefix(data, index, j - 1),
        }
    }
}

/// Parts joined with a separator between them.
pub open spec fn join_sep(parts: Seq<Seq<char>>, sep: Seq<char>) -> Seq<char>
    decreases parts.len(),
{
    if parts.len() == 0 {
        Seq::empty()
    } else if parts.len() == 1 {
        parts[0]
    } else {
        join_sep(parts.drop_last(), sep) + sep + parts.last()
    }
}

/// The whole table as comma-separated text: the displayed header row, then
/// one rendered line per row.
pub open spec fn csv_text(data: PointData) -> Seq<char> {
    join_sep(views_of(data.headers@), ","@) + "\n"@ + join_sep(
        Seq::new(
            data.length as nat,
            |i: int| join_sep(row_prefix(data, i, data.headers@.len() as int), ","@),
        ),
        "\n"@,
    )
}

/// Join rendered parts with a separator.
fn join_texts(parts: &Vec<String>, sep: &str) -> (r: String)
    ensures
        r@ == join_sep(views_of(parts@), sep@),
{
    let mut s = String::new();
    let mut j: usize = 0;
    proof {
        assert(views_of(parts@).take(0) =~= Seq::<Seq<char>>::empty());
    }
    while j < parts.len()
        invariant
            j <= parts@.len(),
            s@ == join_sep(views_of(parts@).take(j as int), sep@),
        decreases parts@.len() - j,
    {
        if j > 0 {
            s.append(sep);
        }
        s.append(parts[j].as_str());
        proof {
            let vs = views_of(parts@);
            assert(vs[j as int] == parts@[j as int]@);
            if j == 0 {
                assert(vs.take(1) =~= seq![vs[0]]);
            } else {
                assert(vs.take(j + 1).drop_last() =~= vs.take(j as int));
                assert(vs.take(j + 1).last() == vs[j as int]);
            }
        }
        j = j + 1;
    }
    proof {
        assert(views_of(parts@).take(parts@.len() as int) =~= views_of(parts@));
    }
    s
}

/// Whether some held text reads the same as `probe`.
fn contains_text(xs: &Vec<String>, probe: &str) -> (r: bool)
    ensures
        r == exists|k: int| 0 <= k < xs@.len() && (#[trigger] xs@[k])@ == probe@,
{
    let target = probe.to_owned();
    let mut k: usize = 0;
    while k < xs.len()
        invariant
            k <= xs@.len(),
            target@ == probe@,
            forall|j: int| 0 <= j < k ==> (#[trigger] xs@[j])@ != probe@,
        decreases xs@.len() - k,
    {
        if xs[k] == target {
            return true;
        }
        k = k + 1;
    }
    false
}

/// A fresh numeric column of zeros.
fn zero_numeric(n: usize) -> (r: Vec<i64>)
    ensures
        r@.len() == n,
        forall|k: int| 0 <= k < n ==> #[trigger] r@[k] == 0,
{
    let mut out: Vec<i64> = Vec::new();
    let mut i: usize = 0;
    while i < n
        invariant
            i <= n,
            out@.len() == i,
            forall|k: int| 0 <= k < i ==> #[trigger] out@[k] == 0,
        decreases n - i,
    {
        out.push(0);
        i = i + 1;
    }
    out
}

} // verus!
