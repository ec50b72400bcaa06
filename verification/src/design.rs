//! Layout of regression inputs and naming of the estimated coefficients.
use vstd::prelude::*;
use crate::binary64::Real;

verus! {

/// All columns have the length of the first.
pub open spec fn same_lengths(columns: Seq<Vec<Real>>) -> bool {
    forall|j: int| 0 <= j < columns.len() ==> (#[trigger] columns[j]).len() == columns[0].len()
}

/// The observations of a design matrix given by its columns: row `i` holds
/// the `i`-th value of every column, in column order.
pub fn rows_from_columns(columns: &Vec<Vec<Real>>) -> (rows: Vec<Vec<Real>>)
    requires
        columns.len() >= 1,
        same_lengths(columns@),
    ensures
        rows.len() == columns@[0].len(),
        forall|i: int| 0 <= i < rows.len() ==> (#[trigger] rows@[i]).len() == columns.len(),
        forall|i: int, j: int|
            0 <= i < rows.len() && 0 <= j < columns.len() ==> #[trigger] rows@[i]@[j]
                == columns@[j]@[i],
{
    let k = columns.len();
    let n = columns[0].len();
    let mut rows: Vec<Vec<Real>> = Vec::new();
    let mut i: usize = 0;
    while i < n
        invariant
            k == columns.len(),
            n == columns@[0].len(),
            same_lengths(columns@),
            0 <= i <= n,
            rows.len() == i,
            forall|r: int| 0 <= r < i ==> (#[trigger] rows@[r]).len() == k,
            forall|r: int, j: int|
                0 <= r < i && 0 <= j < k ==> #[trigger] rows@[r]@[j] == columns@[j]@[r],
        decreases n - i,
    {
        let mut row: Vec<Real> = Vec::new();
        let mut j: usize = 0;
        while j < k
            invariant
                k == columns.len(),
                n == columns@[0].len(),
                same_lengths(columns@),
                0 <= i < n,
                0 <= j <= k,
                row.len() == j,
                forall|c: int| 0 <= c < j ==> #[trigger] row@[c] == columns@[c]@[i as int],
            decreases k - j,
        {
            assert(columns@[j as int].len() == n);
            row.push(columns[j][i]);
            j = j + 1;
        }
        rows.push(row);
        i = i + 1;
    }
    rows
}

/// How a regression report names the coefficient at a position.
#[derive(Clone, Copy, Debug, PartialEq, Eq)]
pub enum CoefficientName {
    /// position 0
    Intercept,
    /// position 1: "1st"
    First,
    /// position 2: "2nd"
    Second,
    /// position 3: "3rd"
    Third,
    /// position `k >= 4`: "`k`th"
    Nth(usize),
}

/// The name of the coefficient at `position` (0 is the intercept).
pub fn coefficient_name(position: usize) -> (r: CoefficientName)
    ensures
        position == 0 ==> r == CoefficientName::Intercept,
        position == 1 ==> r == CoefficientName::First,
        position == 2 ==> r == CoefficientName::Second,
        position == 3 ==> r == CoefficientName::Third,
        position >= 4 ==> r == CoefficientName::Nth(position),
{
    if position == 0 {
        CoefficientName::Intercept
    } else if position == 1 {
        CoefficientName::First
    } else if position == 2 {
        CoefficientName::Second
    } else if position == 3 {
        CoefficientName::Third
    } else {
        CoefficientName::Nth(position)
    }
}

} // verus!
