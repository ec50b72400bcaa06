//! p-value ranges of a t statistic, read from a table of Student's t
//! critical values.
//!
//! Row `r` of the table belongs to a number of degrees of freedom (`DOF`);
//! `X1..X12` are the upper-tail critical values for the tail probabilities
//! 0.25, 0.1, 0.05, 0.025, 0.01, 0.005, 0.002, 0.001, 0.0005, 0.0002, 0.0001
//! and 0.00005, in increasing order.
use vstd::prelude::*;
use crate::binary64::Real;

verus! {

/// One row of the t table.
#[derive(Clone, Copy, Debug)]
pub struct Student {
    pub DOF: Real,
    pub X1: Real,
    pub X2: Real,
    pub X3: Real,
    pub X4: Real,
    pub X5: Real,
    pub X6: Real,
    pub X7: Real,
    pub X8: Real,
    pub X9: Real,
    pub X10: Real,
    pub X11: Real,
    pub X12: Real,
}

impl Student {
    pub open spec fn wf(self) -> bool {
        &&& self.DOF.wf()
        &&& self.X1.wf()
        &&& self.X2.wf()
        &&& self.X3.wf()
        &&& self.X4.wf()
        &&& self.X5.wf()
        &&& self.X6.wf()
        &&& self.X7.wf()
        &&& self.X8.wf()
        &&& self.X9.wf()
        &&& self.X10.wf()
        &&& self.X11.wf()
        &&& self.X12.wf()
    }

    /// Column `k` of the row: `DOF` for 0, `Xk` for `1 <= k <= 12`.
    pub open spec fn column(self, k: int) -> Real {
        if k == 0 {
            self.DOF
        } else if k == 1 {
            self.X1
        } else if k == 2 {
            self.X2
        } else if k == 3 {
            self.X3
        } else if k == 4 {
            self.X4
        } else if k == 5 {
            self.X5
        } else if k == 6 {
            self.X6
        } else if k == 7 {
            self.X7
        } else if k == 8 {
            self.X8
        } else if k == 9 {
            self.X9
        } else if k == 10 {
            self.X10
        } else if k == 11 {
            self.X11
        } else {
            self.X12
        }
    }

    /// Column `k` of the row.
    pub fn get_column(&self, k: usize) -> (r: Real)
        requires
            k <= 12,
        ensures
            r == self.column(k as int),
    {
        match k {
            0 => self.DOF,
            1 => self.X1,
            2 => self.X2,
            3 => self.X3,
            4 => self.X4,
            5 => self.X5,
            6 => self.X6,
            7 => self.X7,
            8 => self.X8,
            9 => self.X9,
            10 => self.X10,
            11 => self.X11,
            _ => self.X12,
        }
    }

    /// The critical values `X1 < X2 < ... < X12` increase strictly.
    pub open spec fn increasing(self) -> bool {
        forall|k: int| 1 <= k < 12 ==> (#[trigger] self.column(k)).below(self.column(k + 1))
    }
}

pub open spec fn table_wf(table: Seq<Student>) -> bool {
    forall|i: int| 0 <= i < table.len() ==> (#[trigger] table[i]).wf()
}

/// The row of the t table used for a regression on `nrow` observations: one
/// row per degree of freedom up to 99, then rows for 500, 1000, 5000, 10000,
/// 30000, 50000, 100000 and more observations.
pub open spec fn t_table_row_spec(nrow: int) -> int {
    if nrow <= 102 {
        nrow - 3
    } else if nrow <= 502 {
        100
    } else if nrow <= 1002 {
        101
    } else if nrow <= 5002 {
        102
    } else if nrow <= 10002 {
        103
    } else if nrow <= 30002 {
        104
    } else if nrow <= 50002 {
        105
    } else if nrow <= 100002 {
        106
    } else {
        107
    }
}

/// Number of the sample-size thresholds 502, 1002, 5002, 10002, 30002, 50002
/// and 100002 that lie below `nrow`.
pub open spec fn thresholds_below(nrow: int) -> int {
    (if nrow > 502 { 1int } else { 0int }) + (if nrow > 1002 { 1int } else { 0int }) + (if nrow
        > 5002 { 1int } else { 0int }) + (if nrow > 10002 { 1int } else { 0int }) + (if nrow
        > 30002 { 1int } else { 0int }) + (if nrow > 50002 { 1int } else { 0int }) + (if nrow
        > 100002 { 1int } else { 0int })
}

/// The row for `nrow` observations is the row of `nrow - 3` degrees of
/// freedom up to 102 observations; above that it is row 100 plus the number
/// of thresholds (502, 1002, 5002, 10002, 30002, 50002, 100002) that `nrow`
/// exceeds.
pub proof fn lemma_t_table_row_rule(nrow: int)
    requires
        nrow >= 3,
    ensures
        nrow <= 102 ==> t_table_row_spec(nrow) == nrow - 3,
        nrow > 102 ==> t_table_row_spec(nrow) == 100 + thresholds_below(nrow),
        0 <= t_table_row_spec(nrow) <= 107,
{
}

/// More observations never select an earlier row.
pub proof fn lemma_t_table_row_monotonic(n1: int, n2: int)
    requires
        3 <= n1 <= n2,
    ensures
        t_table_row_spec(n1) <= t_table_row_spec(n2),
{
    lemma_t_table_row_rule(n1);
    lemma_t_table_row_rule(n2);
}

/// The row of the t table for `nrow` observations.
pub fn t_table_row(nrow: usize) -> (r: usize)
    requires
        nrow >= 3,
    ensures
        r == t_table_row_spec(nrow as int),
        r <= 107,
        nrow <= 102 ==> r == nrow - 3,
        nrow > 102 ==> r == 100 + thresholds_below(nrow as int),
{
    if nrow <= 102 {
        nrow - 3
    } else if nrow <= 502 {
        100
    } else if nrow <= 1002 {
        101
    } else if nrow <= 5002 {
        102
    } else if nrow <= 10002 {
        103
    } else if nrow <= 30002 {
        104
    } else if nrow <= 50002 {
        105
    } else if nrow <= 100002 {
        106
    } else {
        107
    }
}

/// Where `|t|` falls among the critical values of its row.
#[derive(Clone, Copy, Debug)]
pub enum PValueRange {
    /// `|t| < X1`
    AboveHalf,
    /// `Xi <= |t| < X(i+1)`, for the least such `i` in `1..=11`
    Between(usize),
    /// `|t| >= X12`
    BelowTenThousandth,
    /// `|t|` is `NaN` (or the row is out of order and holds it nowhere)
    Undetermined,
}

/// `Xi <= a < X(i+1)`: a statistic on a critical value takes the range above it.
pub open spec fn in_band(a: Real, row: Student, i: int) -> bool {
    row.column(i).at_most(a) && a.below(row.column(i + 1))
}

/// The least `i` in `from..=11` with `Xi <= a < X(i+1)`.
pub open spec fn first_between(a: Real, row: Student, from: int) -> PValueRange
    decreases 12 - from,
{
    if from > 11 || from < 1 {
        PValueRange::Undetermined
    } else if in_band(a, row, from) {
        PValueRange::Between(from as usize)
    } else {
        first_between(a, row, from + 1)
    }
}

/// The range of `a = |t|` in `row`: below `X1`; else from `X1` up to `X2`;
/// else from `X12` up; else from the least `Xi` up to the `X(i+1)` that hold it.
pub open spec fn p_value_range(a: Real, row: Student) -> PValueRange {
    if a.below(row.X1) {
        PValueRange::AboveHalf
    } else if in_band(a, row, 1) {
        PValueRange::Between(1)
    } else if row.X12.at_most(a) {
        PValueRange::BelowTenThousandth
    } else {
        first_between(a, row, 2)
    }
}

/// The text reported for a range of p.
pub open spec fn range_text(r: PValueRange) -> Seq<char> {
    match r {
        PValueRange::AboveHalf => "p > 0.5"@,
        PValueRange::Between(i) => if i == 1 {
            "0.2 < p < 0.5"@
        } else if i == 2 {
            "0.1 < p < 0.2"@
        } else if i == 3 {
            "0.05 < p < 0.1"@
        } else if i == 4 {
            "0.02 < p < 0.05  [Significant]"@
        } else if i == 5 {
            "0.01 < p < 0.02  [Significant]"@
        } else if i == 6 {
            "0.004 < p < 0.01  [Significant]"@
        } else if i == 7 {
            "0.002 < p < 0.004  [Significant]"@
        } else if i == 8 {
            "0.001 < p < 0.002  [Significant]"@
        } else if i == 9 {
            "0.0004 < p < 0.001  [Significant]"@
        } else if i == 10 {
            "0.0002 < p < 0.0004  [Significant]"@
        } else if i == 11 {
            "0.0001 < p < 0.0002  [Significant]"@
        } else {
            "placeholder"@
        },
        PValueRange::BelowTenThousandth => "p < 0.0001  [Significant]"@,
        PValueRange::Undetermined => "placeholder"@,
    }
}

/// The two-sided p of the `i`-th critical value (twice its upper-tail
/// probability 0.25, 0.1, 0.05, 0.025, 0.01, 0.005, 0.002, 0.001, 0.0005,
/// 0.0002, 0.0001, 0.00005), as it is written in the reports.
pub open spec fn two_sided_p(i: int) -> Seq<char> {
    if i == 1 {
        "0.5"@
    } else if i == 2 {
        "0.2"@
    } else if i == 3 {
        "0.1"@
    } else if i == 4 {
        "0.05"@
    } else if i == 5 {
        "0.02"@
    } else if i == 6 {
        "0.01"@
    } else if i == 7 {
        "0.004"@
    } else if i == 8 {
        "0.002"@
    } else if i == 9 {
        "0.001"@
    } else if i == 10 {
        "0.0004"@
    } else if i == 11 {
        "0.0002"@
    } else {
        "0.0001"@
    }
}

/// The mark of a significant result, p < 0.05.
pub open spec fn significance_mark(significant: bool) -> Seq<char> {
    if significant {
        "  [Significant]"@
    } else {
        Seq::empty()
    }
}

/// Each text states the range of p between the two-sided p of the critical
/// values that bound it, and carries the significance mark exactly when the
/// whole range lies below 0.05 (rank 4 and up).
pub proof fn lemma_range_texts(k: int)
    requires
        1 <= k <= 11,
    ensures
        range_text(PValueRange::Between(k as usize)) == two_sided_p(k + 1) + " < p < "@
            + two_sided_p(k) + significance_mark(k >= 4),
        range_text(PValueRange::AboveHalf) == "p > "@ + two_sided_p(1),
        range_text(PValueRange::BelowTenThousandth) == "p < "@ + two_sided_p(12)
            + significance_mark(true),
        range_text(PValueRange::Undetermined) == "placeholder"@,
{
    reveal_strlit("0.5");
    reveal_strlit("0.2");
    reveal_strlit("0.1");
    reveal_strlit("0.05");
    reveal_strlit("0.02");
    reveal_strlit("0.01");
    reveal_strlit("0.004");
    reveal_strlit("0.002");
    reveal_strlit("0.001");
    reveal_strlit("0.0004");
    reveal_strlit("0.0002");
    reveal_strlit("0.0001");
    reveal_strlit(" < p < ");
    reveal_strlit("  [Significant]");
    reveal_strlit("p > ");
    reveal_strlit("p < ");
    reveal_strlit("p > 0.5");
    reveal_strlit("0.2 < p < 0.5");
    reveal_strlit("0.1 < p < 0.2");
    reveal_strlit("0.05 < p < 0.1");
    reveal_strlit("0.02 < p < 0.05  [Significant]");
    reveal_strlit("0.01 < p < 0.02  [Significant]");
    reveal_strlit("0.004 < p < 0.01  [Significant]");
    reveal_strlit("0.002 < p < 0.004  [Significant]");
    reveal_strlit("0.001 < p < 0.002  [Significant]");
    reveal_strlit("0.0004 < p < 0.001  [Significant]");
    reveal_strlit("0.0002 < p < 0.0004  [Significant]");
    reveal_strlit("0.0001 < p < 0.0002  [Significant]");
    reveal_strlit("p < 0.0001  [Significant]");
    assert(range_text(PValueRange::AboveHalf) =~= "p > "@ + two_sided_p(1));
    assert(range_text(PValueRange::BelowTenThousandth) =~= "p < "@ + two_sided_p(12)
        + significance_mark(true));
    assert(range_text(PValueRange::Between(k as usize)) =~= two_sided_p(k + 1) + " < p < "@
        + two_sided_p(k) + significance_mark(k >= 4));
}

/// The range of `a` among the critical values of `row`.
pub fn find_range(a: &Real, row: &Student) -> (r: PValueRange)
    requires
        a.wf(),
        row.wf(),
    ensures
        r == p_value_range(*a, *row),
{
    if a.lt(&row.X1) {
        return PValueRange::AboveHalf;
    }
    if row.X1.le(a) && a.lt(&row.X2) {
        return PValueRange::Between(1);
    }
    if row.X12.le(a) {
        return PValueRange::BelowTenThousandth;
    }
    let mut i: usize = 2;
    while i <= 11
        invariant
            2 <= i <= 12,
            a.wf(),
            row.wf(),
            p_value_range(*a, *row) == first_between(*a, *row, i as int),
        decreases 12 - i,
    {
        let low = row.get_column(i);
        let high = row.get_column(i + 1);
        if low.le(a) && a.lt(&high) {
            assert(in_band(*a, *row, i as int));
            assert(first_between(*a, *row, i as int) == PValueRange::Between(i));
            return PValueRange::Between(i);
        }
        i = i + 1;
    }
    PValueRange::Undetermined
}

/// The text for a range of p.
pub fn describe_range(r: PValueRange) -> (s: String)
    ensures
        s@ == range_text(r),
{
    match r {
        PValueRange::AboveHalf => "p > 0.5".to_owned(),
        PValueRange::Between(i) => if i == 1 {
            "0.2 < p < 0.5".to_owned()
        } else if i == 2 {
            "0.1 < p < 0.2".to_owned()
        } else if i == 3 {
            "0.05 < p < 0.1".to_owned()
        } else if i == 4 {
            "0.02 < p < 0.05  [Significant]".to_owned()
        } else if i == 5 {
            "0.01 < p < 0.02  [Significant]".to_owned()
        } else if i == 6 {
            "0.004 < p < 0.01  [Significant]".to_owned()
        } else if i == 7 {
            "0.002 < p < 0.004  [Significant]".to_owned()
        } else if i == 8 {
            "0.001 < p < 0.002  [Significant]".to_owned()
        } else if i == 9 {
            "0.0004 < p < 0.001  [Significant]".to_owned()
        } else if i == 10 {
            "0.0002 < p < 0.0004  [Significant]".to_owned()
        } else if i == 11 {
            "0.0001 < p < 0.0002  [Significant]".to_owned()
        } else {
            "placeholder".to_owned()
        },
        PValueRange::BelowTenThousandth => "p < 0.0001  [Significant]".to_owned(),
        PValueRange::Undetermined => "placeholder".to_owned(),
    }
}

/// The range of p for the t statistic `t_value` of a regression on `nrow`
/// observations: `|t|` is placed among the critical values of the row that
/// `nrow` selects in `t_table`.
pub fn p_value(t_value: &Real, nrow: usize, t_table: &Vec<Student>) -> (s: String)
    requires
        t_value.wf(),
        nrow >= 3,
        t_table_row_spec(nrow as int) < t_table.len(),
        table_wf(t_table@),
    ensures
        s@ == range_text(
            p_value_range(t_value.abs_spec(), t_table@[t_table_row_spec(nrow as int)]),
        ),
{
    let row_index = t_table_row(nrow);
    let row = &t_table[row_index];
    let a = t_value.abs();
    describe_range(find_range(&a, row))
}

/// The range depends on `t` only through `|t|`: `t` and `-t` get the same one.
pub proof fn lemma_p_value_symmetric(t: Real, row: Student)
    ensures
        p_value_range(t.negate_spec().abs_spec(), row) == p_value_range(t.abs_spec(), row),
{
}

proof fn lemma_first_between_determined(a: Real, row: Student, i: int)
    requires
        1 <= i <= 11,
        !a.is_nan(),
        row.increasing(),
        row.column(i).at_most(a),
        a.below(row.X12),
    ensures
        first_between(a, row, i) matches PValueRange::Between(k) && 1 <= k <= 11,
    decreases 12 - i,
{
    if !in_band(a, row, i) {
        let next = row.column(i + 1);
        assert(!next.is_nan()) by {
            if i + 1 < 12 {
                assert(next.below(row.column(i + 2)));
            } else {
                assert(row.column(i).below(next));
            }
        }
        assert(next.at_most(a));
        if i + 1 == 12 {
            assert(row.column(12) == row.X12);
        } else {
            lemma_first_between_determined(a, row, i + 1);
        }
    }
}

/// With strictly increasing critical values, every statistic that is not
/// `NaN` gets a range: the text is never the placeholder.
pub proof fn lemma_p_value_determined(a: Real, row: Student)
    requires
        !a.is_nan(),
        row.increasing(),
    ensures
        !(p_value_range(a, row) is Undetermined),
        p_value_range(a, row) matches PValueRange::Between(k) ==> 1 <= k <= 11,
{
    assert(row.column(1) == row.X1);
    assert(row.column(2) == row.X2);
    assert(row.column(12) == row.X12);
    assert(row.X1.below(row.X2));
    assert(row.column(11).below(row.column(12)));
    if !a.below(row.X1) && !in_band(a, row, 1) && !row.X12.at_most(a) {
        assert(row.X1.at_most(a));
        assert(row.X2.at_most(a));
        assert(a.below(row.X12));
        lemma_first_between_determined(a, row, 2);
    }
}

/// A `NaN` statistic gets no range.
pub proof fn lemma_p_value_nan(a: Real, row: Student)
    requires
        a.is_nan(),
    ensures
        p_value_range(a, row) is Undetermined,
{
    lemma_first_between_nan(a, row, 2);
}

proof fn lemma_first_between_nan(a: Real, row: Student, from: int)
    requires
        a.is_nan(),
    ensures
        first_between(a, row, from) is Undetermined,
    decreases 12 - from,
{
    if 1 <= from <= 11 {
        lemma_first_between_nan(a, row, from + 1);
    }
}

/// Order of the ranges from the largest p to the smallest: `p > 0.5` is 0,
/// the range from `Xi` up to `X(i+1)` is `i`, `p < 0.0001` is 12.
pub open spec fn range_rank(r: PValueRange) -> int {
    match r {
        PValueRange::AboveHalf => 0,
        PValueRange::Between(i) => i as int,
        PValueRange::BelowTenThousandth => 12,
        PValueRange::Undetermined => 13,
    }
}

proof fn lemma_below_transitive(a: Real, b: Real, c: Real)
    requires
        a.below(b),
        b.at_most(c),
    ensures
        a.below(c),
{
}

/// In an increasing row every critical value is below every later one.
proof fn lemma_increasing_chain(row: Student, j: int, k: int)
    requires
        row.increasing(),
        1 <= j < k <= 12,
    ensures
        row.column(j).below(row.column(k)),
    decreases k - j,
{
    if k - j > 1 {
        lemma_increasing_chain(row, j, k - 1);
        assert(row.column(k - 1).below(row.column(k)));
        lemma_below_transitive(row.column(j), row.column(k - 1), row.column(k));
    }
}

proof fn lemma_first_between_found(a: Real, row: Student, from: int)
    ensures
        first_between(a, row, from) matches PValueRange::Between(k) ==> {
            &&& from <= k <= 11
            &&& in_band(a, row, k as int)
        },
        !(first_between(a, row, from) is AboveHalf),
        !(first_between(a, row, from) is BelowTenThousandth),
    decreases 12 - from,
{
    if 1 <= from <= 11 && !in_band(a, row, from) {
        lemma_first_between_found(a, row, from + 1);
    }
}

/// For a statistic that is not `NaN`, with an increasing row, the range's rank
/// `r` brackets it: `Xr <= a` when `r >= 1`, and `a < X(r+1)` when `r <= 11`.
pub proof fn lemma_range_brackets(a: Real, row: Student)
    requires
        !a.is_nan(),
        row.increasing(),
    ensures
        0 <= range_rank(p_value_range(a, row)) <= 12,
        range_rank(p_value_range(a, row)) >= 1 ==> row.column(
            range_rank(p_value_range(a, row)),
        ).at_most(a),
        range_rank(p_value_range(a, row)) <= 11 ==> a.below(
            row.column(range_rank(p_value_range(a, row)) + 1),
        ),
{
    lemma_p_value_determined(a, row);
    lemma_first_between_found(a, row, 2);
    assert(row.column(1) == row.X1);
    assert(row.column(2) == row.X2);
    assert(row.column(12) == row.X12);
}

/// A larger statistic never gets a larger p: with an increasing row, `a1 <= a2`
/// gives `a1` a range of rank at most that of `a2`.
pub proof fn lemma_p_value_monotonic(a1: Real, a2: Real, row: Student)
    requires
        !a1.is_nan(),
        !a2.is_nan(),
        row.increasing(),
        a1.at_most(a2),
    ensures
        range_rank(p_value_range(a1, row)) <= range_rank(p_value_range(a2, row)),
{
    lemma_range_brackets(a1, row);
    lemma_range_brackets(a2, row);
    let r1 = range_rank(p_value_range(a1, row));
    let r2 = range_rank(p_value_range(a2, row));
    if r1 > r2 {
        // X(r2+1) <= Xr1 <= a1 <= a2 < X(r2+1)
        let upper = row.column(r2 + 1);
        let lower = row.column(r1);
        if r2 + 1 < r1 {
            lemma_increasing_chain(row, r2 + 1, r1);
        }
        assert(upper.at_most(lower));
        lemma_below_transitive(a2, upper, lower);
    }
}

} // verus!
