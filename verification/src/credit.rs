//! Records of the credit register and the selections that the use cases make
//! of them: lending profiles for a postal code and a minimum term, and the
//! credit-health breakdown by income band, sex and education.
use vstd::prelude::*;
use crate::binary64::{Real, int_units};

verus! {

broadcast use vstd::seq_lib::group_to_multiset_ensures;

/// One record of the credit register.
#[derive(Debug)]
pub struct Entry {
    pub ID: String,
    pub Name: String,
    pub Surname: String,
    pub SEX: Real,
    pub EDUCATION: Real,
    pub MARRIAGE: Real,
    pub AGE: Real,
    pub Phone: String,
    pub Email: String,
    pub Street: String,
    pub City: String,
    pub Postal: Real,
    pub Loan: Real,
    pub Interest: Real,
    pub Term: Real,
    pub Income: Real,
}

impl Entry {
    pub open spec fn wf(self) -> bool {
        &&& self.SEX.wf()
        &&& self.EDUCATION.wf()
        &&& self.MARRIAGE.wf()
        &&& self.AGE.wf()
        &&& self.Postal.wf()
        &&& self.Loan.wf()
        &&& self.Interest.wf()
        &&& self.Term.wf()
        &&& self.Income.wf()
    }
}

pub open spec fn entries_wf(s: Seq<Entry>) -> bool {
    forall|i: int| 0 <= i < s.len() ==> (#[trigger] s[i]).wf()
}

/// The records of `s` that satisfy `keep`, in their order.
pub open spec fn select(s: Seq<Entry>, keep: spec_fn(Entry) -> bool) -> Seq<Entry>
    decreases s.len(),
{
    if s.len() == 0 {
        Seq::empty()
    } else if keep(s.last()) {
        select(s.drop_last(), keep).push(s.last())
    } else {
        select(s.drop_last(), keep)
    }
}

pub open spec fn loans(s: Seq<Entry>) -> Seq<Real> {
    s.map_values(|e: Entry| e.Loan)
}

pub open spec fn interests(s: Seq<Entry>) -> Seq<Real> {
    s.map_values(|e: Entry| e.Interest)
}

pub open spec fn terms(s: Seq<Entry>) -> Seq<Real> {
    s.map_values(|e: Entry| e.Term)
}

pub open spec fn incomes(s: Seq<Entry>) -> Seq<Real> {
    s.map_values(|e: Entry| e.Income)
}

pub open spec fn sexes(s: Seq<Entry>) -> Seq<Real> {
    s.map_values(|e: Entry| e.SEX)
}

pub open spec fn educations(s: Seq<Entry>) -> Seq<Real> {
    s.map_values(|e: Entry| e.EDUCATION)
}

proof fn lemma_select_step(s: Seq<Entry>, keep: spec_fn(Entry) -> bool, i: int)
    requires
        0 <= i < s.len(),
    ensures
        select(s.take(i + 1), keep) == if keep(s[i]) {
            select(s.take(i), keep).push(s[i])
        } else {
            select(s.take(i), keep)
        },
{
    assert(s.take(i + 1).drop_last() =~= s.take(i));
    assert(s.take(i + 1).last() == s[i]);
}

/// Every record that the selection keeps satisfies the criterion.
pub proof fn lemma_select_keeps_only_matches(s: Seq<Entry>, keep: spec_fn(Entry) -> bool)
    ensures
        forall|k: int| 0 <= k < select(s, keep).len() ==> keep(#[trigger] select(s, keep)[k]),
    decreases s.len(),
{
    if s.len() > 0 {
        let d = s.drop_last();
        lemma_select_keeps_only_matches(d, keep);
        let t = select(s, keep);
        assert forall|k: int| 0 <= k < t.len() implies keep(#[trigger] t[k]) by {
            if keep(s.last()) {
                if k < t.len() - 1 {
                    assert(t[k] == select(d, keep)[k]);
                }
            } else {
                assert(t[k] == select(d, keep)[k]);
            }
        }
    }
}

proof fn lemma_select_remove(b: Seq<Entry>, keep: spec_fn(Entry) -> bool, j: int)
    requires
        0 <= j < b.len(),
    ensures
        select(b, keep).to_multiset() == if keep(b[j]) {
            select(b.remove(j), keep).to_multiset().insert(b[j])
        } else {
            select(b.remove(j), keep).to_multiset()
        },
    decreases b.len(),
{
    let d = b.drop_last();
    let l = b.last();
    if j == b.len() - 1 {
        assert(b.remove(j) =~= d);
    } else {
        assert(b.remove(j) =~= d.remove(j).push(l));
        assert(b.remove(j).drop_last() =~= d.remove(j));
        lemma_select_remove(d, keep, j);
        assert(d[j] == b[j]);
        if keep(l) {
            if keep(b[j]) {
                assert(select(b, keep).to_multiset() =~= select(b.remove(j), keep).to_multiset().insert(
                    b[j],
                ));
            }
        }
    }
}

/// Selection commutes with rearrangement: two arrangements of the same records
/// select the same records (as a multiset), whatever the criterion.
pub proof fn lemma_select_permutation(a: Seq<Entry>, b: Seq<Entry>, keep: spec_fn(Entry) -> bool)
    requires
        a.to_multiset() == b.to_multiset(),
    ensures
        select(a, keep).to_multiset() == select(b, keep).to_multiset(),
    decreases a.len(),
{
    assert(a.len() == a.to_multiset().len());
    assert(b.len() == b.to_multiset().len());
    if a.len() > 0 {
        let x = a.last();
        let a1 = a.drop_last();
        assert(a.contains(x)) by {
            assert(a[a.len() - 1] == x);
        }
        assert(a.to_multiset().count(x) > 0);
        assert(b.to_multiset().count(x) > 0);
        let j = choose|j: int| 0 <= j < b.len() && b[j] == x;
        let b1 = b.remove(j);
        assert(a1.push(x) =~= a);
        assert(a1.to_multiset() =~= a.to_multiset().remove(x)) by {
            assert(a1.push(x).to_multiset() =~= a1.to_multiset().insert(x));
        }
        assert(b1.to_multiset() =~= b.to_multiset().remove(x));
        lemma_select_permutation(a1, b1, keep);
        lemma_select_remove(b, keep, j);
    }
}

/// A column taken from two arrangements of the same records holds the same
/// values (as a multiset).
pub proof fn lemma_column_permutation<V>(a: Seq<Entry>, b: Seq<Entry>, f: spec_fn(Entry) -> V)
    requires
        a.to_multiset() == b.to_multiset(),
    ensures
        a.map_values(f).to_multiset() == b.map_values(f).to_multiset(),
    decreases a.len(),
{
    assert(a.len() == a.to_multiset().len());
    assert(b.len() == b.to_multiset().len());
    if a.len() > 0 {
        let x = a.last();
        let a1 = a.drop_last();
        assert(a.contains(x)) by {
            assert(a[a.len() - 1] == x);
        }
        assert(a.to_multiset().count(x) > 0);
        assert(b.to_multiset().count(x) > 0);
        let j = choose|j: int| 0 <= j < b.len() && b[j] == x;
        let b1 = b.remove(j);
        assert(a1.push(x) =~= a);
        assert(a1.to_multiset() =~= a.to_multiset().remove(x)) by {
            assert(a1.push(x).to_multiset() =~= a1.to_multiset().insert(x));
        }
        assert(b1.to_multiset() =~= b.to_multiset().remove(x));
        lemma_column_permutation(a1, b1, f);
        let ma = a.map_values(f);
        let mb = b.map_values(f);
        assert(ma =~= a1.map_values(f).push(f(x)));
        assert(b1.map_values(f) =~= mb.remove(j));
        assert(mb[j] == f(x));
        assert(mb.remove(j).to_multiset() =~= mb.to_multiset().remove(f(x)));
        assert(mb.contains(f(x)));
        assert(mb.to_multiset().count(f(x)) > 0);
        assert(ma.to_multiset() =~= a1.map_values(f).to_multiset().insert(f(x)));
        assert(ma.to_multiset() =~= mb.to_multiset());
    }
}

// ----------------------------------------------------------------------------
// Use case 1: lending profiles
// ----------------------------------------------------------------------------

/// A record matches a lending query when its postal code equals the query's
/// and its term is at least the query's minimum term.
pub open spec fn lending_match(e: Entry, postal: Real, min_term: Real) -> bool {
    e.Postal.same_value(postal) && min_term.at_most(e.Term)
}

pub open spec fn lending_criterion(postal: Real, min_term: Real) -> spec_fn(Entry) -> bool {
    |e: Entry| lending_match(e, postal, min_term)
}

/// A selection holds each record as often as the register does when the
/// record meets the criterion, and not at all otherwise.
pub proof fn lemma_select_counts(s: Seq<Entry>, keep: spec_fn(Entry) -> bool, e: Entry)
    ensures
        select(s, keep).to_multiset().count(e) == if keep(e) {
            s.to_multiset().count(e)
        } else {
            0
        },
    decreases s.len(),
{
    if s.len() > 0 {
        let d = s.drop_last();
        lemma_select_counts(d, keep, e);
        assert(d.push(s.last()) =~= s);
    } else {
        assert(s.to_multiset() =~= vstd::multiset::Multiset::empty());
    }
}

/// A lending query selects exactly the records whose postal code equals the
/// query's (IEEE `==`) and whose term is at least the minimum term (IEEE
/// `>=`): each such record as often as the register holds it, and no other.
pub proof fn lemma_lending_selection(entries: Seq<Entry>, postal: Real, min_term: Real)
    ensures
        forall|e: Entry|
            #[trigger] select(entries, lending_criterion(postal, min_term)).to_multiset().count(e)
                == if e.Postal.same_value(postal) && min_term.at_most(e.Term) {
                entries.to_multiset().count(e)
            } else {
                0
            },
        forall|k: int|
            0 <= k < select(entries, lending_criterion(postal, min_term)).len() ==> {
                let e = #[trigger] select(entries, lending_criterion(postal, min_term))[k];
                min_term.at_most(e.Term) && e.Postal.same_value(postal)
            },
{
    let keep = lending_criterion(postal, min_term);
    assert forall|e: Entry| #[trigger] select(entries, keep).to_multiset().count(e) == if e.Postal.same_value(
        postal,
    ) && min_term.at_most(e.Term) {
        entries.to_multiset().count(e)
    } else {
        0
    } by {
        lemma_select_counts(entries, keep, e);
    }
    lemma_select_keeps_only_matches(entries, keep);
}

/// The loan, interest and term columns of the records a lending query selects.
#[derive(Debug)]
pub struct LendingProfile {
    pub loan: Vec<Real>,
    pub interest: Vec<Real>,
    pub term: Vec<Real>,
}

/// The loans, interests and terms of the records whose postal code is
/// `postal` and whose term is at least `min_term`, in register order.
pub fn lending_profile(entries: &Vec<Entry>, postal: &Real, min_term: &Real) -> (r:
    LendingProfile)
    requires
        entries_wf(entries@),
        postal.wf(),
        min_term.wf(),
    ensures
        r.loan.len() == r.interest.len() == r.term.len(),
        r.loan@ == loans(select(entries@, lending_criterion(*postal, *min_term))),
        r.interest@ == interests(select(entries@, lending_criterion(*postal, *min_term))),
        r.term@ == terms(select(entries@, lending_criterion(*postal, *min_term))),
{
    let ghost keep = lending_criterion(*postal, *min_term);
    let mut loan: Vec<Real> = Vec::new();
    let mut interest: Vec<Real> = Vec::new();
    let mut term: Vec<Real> = Vec::new();
    let n = entries.len();
    let mut i: usize = 0;
    while i < n
        invariant
            n == entries.len(),
            0 <= i <= n,
            entries_wf(entries@),
            postal.wf(),
            min_term.wf(),
            keep == lending_criterion(*postal, *min_term),
            loan@ == loans(select(entries@.take(i as int), keep)),
            interest@ == interests(select(entries@.take(i as int), keep)),
            term@ == terms(select(entries@.take(i as int), keep)),
        decreases n - i,
    {
        let e = &entries[i];
        let hit = e.Postal.value_eq(postal) && min_term.le(&e.Term);
        proof {
            lemma_select_step(entries@, keep, i as int);
            assert(hit == keep(entries@[i as int]));
        }
        if hit {
            loan.push(e.Loan);
            interest.push(e.Interest);
            term.push(e.Term);
        }
        proof {
            let sel = select(entries@.take(i as int), keep);
            if hit {
                assert(loans(sel.push(entries@[i as int])) =~= loans(sel).push(e.Loan));
                assert(interests(sel.push(entries@[i as int])) =~= interests(sel).push(
                    e.Interest,
                ));
                assert(terms(sel.push(entries@[i as int])) =~= terms(sel).push(e.Term));
            }
        }
        i = i + 1;
    }
    proof {
        assert(entries@.take(n as int) =~= entries@);
    }
    LendingProfile { loan, interest, term }
}

// ----------------------------------------------------------------------------
// Use case 2: credit health
// ----------------------------------------------------------------------------

/// Number of income bands.
pub const INCOME_BANDS: usize = 7;

/// Band of an income: `[0, 50000)` is band 0, `[50000, 100000)` band 1, and so
/// on in steps of 50000 up to `[250000, 300000)`, band 5. Every other income
/// (300000 and above, negative, or `NaN`) is band 6.
pub open spec fn income_band(income: Real) -> int {
    if income.at_least_int(0) && income.below_int(50000) {
        0
    } else if income.at_least_int(50000) && income.below_int(100000) {
        1
    } else if income.at_least_int(100000) && income.below_int(150000) {
        2
    } else if income.at_least_int(150000) && income.below_int(200000) {
        3
    } else if income.at_least_int(200000) && income.below_int(250000) {
        4
    } else if income.at_least_int(250000) && income.below_int(300000) {
        5
    } else {
        6
    }
}

pub open spec fn band_criterion(band: int) -> spec_fn(Entry) -> bool {
    |e: Entry| income_band(e.Income) == band
}

/// `low <= x < high` for the integer bounds `low`, `high`.
fn in_range(x: &Real, low: u64, high: u64) -> (r: bool)
    requires
        x.wf(),
        low < high < 0x20_0000_0000_0000,
    ensures
        r == (x.at_least_int(low as int) && x.below_int(high as int)),
{
    let lo = Real::from_nat(low);
    let hi = Real::from_nat(high);
    lo.le(x) && x.lt(&hi)
}

/// The band of an income.
pub fn income_band_of(income: &Real) -> (r: usize)
    requires
        income.wf(),
    ensures
        r == income_band(*income),
        r < INCOME_BANDS,
        forall|k: int| 0 <= k <= 5 && #[trigger] in_income_step(*income, k) ==> r == k,
        !(income.at_least_int(0) && income.below_int(300000)) ==> r == 6,
{
    proof {
        if !(income.at_least_int(0) && income.below_int(300000)) {
            lemma_income_band_outside(*income);
        }
        assert forall|k: int| 0 <= k <= 5 && #[trigger] in_income_step(*income, k) implies income_band(
            *income,
        ) == k by {
            lemma_income_band_bounds(*income, k);
        }
    }
    if in_range(income, 0, 50000) {
        0
    } else if in_range(income, 50000, 100000) {
        1
    } else if in_range(income, 100000, 150000) {
        2
    } else if in_range(income, 150000, 200000) {
        3
    } else if in_range(income, 200000, 250000) {
        4
    } else if in_range(income, 250000, 300000) {
        5
    } else {
        6
    }
}

/// Counting in units of `2^-1074` keeps the order of the integers.
proof fn lemma_int_units_order()
    ensures
        forall|a: int, b: int| (#[trigger] int_units(a) <= #[trigger] int_units(b)) == (a <= b),
{
    vstd::arithmetic::power2::lemma_pow2_pos(1074);
    assert forall|a: int, b: int| (#[trigger] int_units(a) <= #[trigger] int_units(b)) == (a <= b) by {
        let p = vstd::arithmetic::power2::pow2(1074) as int;
        assert((a * p <= b * p) == (a <= b)) by (nonlinear_arith)
            requires
                p > 0,
        ;
    }
}

/// `50000 k <= x < 50000 (k + 1)`
pub open spec fn in_income_step(x: Real, k: int) -> bool {
    x.at_least_int(50000 * k) && x.below_int(50000 * (k + 1))
}

/// An income from `50000 k` (included) to `50000 (k + 1)` (excluded), for
/// `k` from 0 to 5, lies in band `k`.
pub proof fn lemma_income_band_bounds(x: Real, k: int)
    requires
        0 <= k <= 5,
        in_income_step(x, k),
    ensures
        income_band(x) == k,
{
    lemma_int_units_order();
    if k == 0 {
        assert(x.at_least_int(0) && x.below_int(50000));
    } else if k == 1 {
        assert(x.at_least_int(50000) && x.below_int(100000));
    } else if k == 2 {
        assert(x.at_least_int(100000) && x.below_int(150000));
    } else if k == 3 {
        assert(x.at_least_int(150000) && x.below_int(200000));
    } else if k == 4 {
        assert(x.at_least_int(200000) && x.below_int(250000));
    } else {
        assert(x.at_least_int(250000) && x.below_int(300000));
    }
}

/// An income below 0, from 300000 up, or `NaN` lies in the last band, 6.
pub proof fn lemma_income_band_outside(x: Real)
    requires
        !(x.at_least_int(0) && x.below_int(300000)),
    ensures
        income_band(x) == 6,
{
    lemma_int_units_order();
}

/// The loan and income columns of the records of one income band.
#[derive(Debug)]
pub struct BandColumns {
    pub loan: Vec<Real>,
    pub income: Vec<Real>,
}

/// Loans and incomes of the records whose income lies in `band`, in order.
pub fn band_columns(entries: &Vec<Entry>, band: usize) -> (r: BandColumns)
    requires
        entries_wf(entries@),
    ensures
        r.loan@ == loans(select(entries@, band_criterion(band as int))),
        r.income@ == incomes(select(entries@, band_criterion(band as int))),
{
    let ghost keep = band_criterion(band as int);
    let mut loan: Vec<Real> = Vec::new();
    let mut income: Vec<Real> = Vec::new();
    let n = entries.len();
    let mut i: usize = 0;
    while i < n
        invariant
            n == entries.len(),
            0 <= i <= n,
            entries_wf(entries@),
            keep == band_criterion(band as int),
            loan@ == loans(select(entries@.take(i as int), keep)),
            income@ == incomes(select(entries@.take(i as int), keep)),
        decreases n - i,
    {
        let e = &entries[i];
        let hit = income_band_of(&e.Income) == band;
        proof {
            lemma_select_step(entries@, keep, i as int);
            assert(hit == keep(entries@[i as int]));
        }
        if hit {
            loan.push(e.Loan);
            income.push(e.Income);
        }
        proof {
            let sel = select(entries@.take(i as int), keep);
            if hit {
                assert(loans(sel.push(entries@[i as int])) =~= loans(sel).push(e.Loan));
                assert(incomes(sel.push(entries@[i as int])) =~= incomes(sel).push(e.Income));
            }
        }
        i = i + 1;
    }
    proof {
        assert(entries@.take(n as int) =~= entries@);
    }
    BandColumns { loan, income }
}

/// Whether each value equals the integer `level`.
pub fn indicator_column(values: &Vec<Real>, level: u64) -> (r: Vec<bool>)
    requires
        forall|i: int| 0 <= i < values.len() ==> (#[trigger] values@[i]).wf(),
        level < 0x20_0000_0000_0000,
    ensures
        r.len() == values.len(),
        forall|i: int| 0 <= i < values.len() ==> #[trigger] r@[i] == values@[i].equals_int(
            level as int,
        ),
{
    let target = Real::from_nat(level);
    let mut r: Vec<bool> = Vec::new();
    let n = values.len();
    let mut i: usize = 0;
    while i < n
        invariant
            n == values.len(),
            0 <= i <= n,
            r.len() == i,
            target.wf(),
            target.units() == crate::binary64::int_units(level as int),
            target is Finite,
            forall|k: int| 0 <= k < values.len() ==> (#[trigger] values@[k]).wf(),
            forall|k: int| 0 <= k < i ==> #[trigger] r@[k] == values@[k].equals_int(level as int),
        decreases n - i,
    {
        r.push(values[i].value_eq(&target));
        i = i + 1;
    }
    r
}

/// The columns that the credit-health use case analyses.
#[derive(Debug)]
pub struct CreditHealth {
    /// loans of all records, in order
    pub loan: Vec<Real>,
    /// incomes of all records, in order
    pub income: Vec<Real>,
    /// sexes of all records, in order
    pub sex: Vec<Real>,
    /// education codes of all records, in order
    pub education: Vec<Real>,
    /// whether each record's sex code is 1
    pub male: Vec<bool>,
    /// `education_levels[k][i]`: whether record `i`'s education code is `k + 2`
    /// (codes 2 to 6; any other code has no indicator)
    pub education_levels: Vec<Vec<bool>>,
    /// `bands[b]`: the loans and incomes of the records in income band `b`
    pub bands: Vec<BandColumns>,
}

/// Number of education codes with an indicator column (codes 2 to 6).
pub const EDUCATION_LEVELS: usize = 5;

/// The columns of the credit-health breakdown of `entries`.
pub fn credit_health(entries: &Vec<Entry>) -> (r: CreditHealth)
    requires
        entries_wf(entries@),
    ensures
        r.loan@ == loans(entries@),
        r.income@ == incomes(entries@),
        r.sex@ == sexes(entries@),
        r.education@ == educations(entries@),
        r.male.len() == entries.len(),
        forall|i: int| 0 <= i < entries.len() ==> #[trigger] r.male@[i] == entries@[i].SEX.equals_int(1),
        r.education_levels.len() == EDUCATION_LEVELS,
        forall|k: int|
            0 <= k < EDUCATION_LEVELS ==> (#[trigger] r.education_levels@[k]).len() == entries.len(),
        forall|k: int, i: int|
            0 <= k < EDUCATION_LEVELS && 0 <= i < entries.len() ==> #[trigger] r.education_levels@[k]@[i]
                == entries@[i].EDUCATION.equals_int(k + 2),
        r.bands.len() == INCOME_BANDS,
        forall|b: int|
            0 <= b < INCOME_BANDS ==> (#[trigger] r.bands@[b]).loan@ == loans(
                select(entries@, band_criterion(b)),
            ) && r.bands@[b].income@ == incomes(select(entries@, band_criterion(b))),
{
    let mut loan: Vec<Real> = Vec::new();
    let mut income: Vec<Real> = Vec::new();
    let mut sex: Vec<Real> = Vec::new();
    let mut education: Vec<Real> = Vec::new();
    let n = entries.len();
    let mut i: usize = 0;
    while i < n
        invariant
            n == entries.len(),
            0 <= i <= n,
            entries_wf(entries@),
            loan@ == loans(entries@.take(i as int)),
            income@ == incomes(entries@.take(i as int)),
            sex@ == sexes(entries@.take(i as int)),
            education@ == educations(entries@.take(i as int)),
        decreases n - i,
    {
        let e = &entries[i];
        proof {
            let t = entries@.take(i as int);
            assert(entries@.take(i + 1) =~= t.push(entries@[i as int]));
            assert(loans(t.push(entries@[i as int])) =~= loans(t).push(e.Loan));
            assert(incomes(t.push(entries@[i as int])) =~= incomes(t).push(e.Income));
            assert(sexes(t.push(entries@[i as int])) =~= sexes(t).push(e.SEX));
            assert(educations(t.push(entries@[i as int])) =~= educations(t).push(e.EDUCATION));
        }
        loan.push(e.Loan);
        income.push(e.Income);
        sex.push(e.SEX);
        education.push(e.EDUCATION);
        i = i + 1;
    }
    proof {
        assert(entries@.take(n as int) =~= entries@);
    }
    let male = indicator_column(&sex, 1);
    let mut education_levels: Vec<Vec<bool>> = Vec::new();
    let mut k: usize = 0;
    while k < EDUCATION_LEVELS
        invariant
            0 <= k <= EDUCATION_LEVELS,
            education@ == educations(entries@),
            entries_wf(entries@),
            education_levels.len() == k,
            forall|j: int| 0 <= j < k ==> (#[trigger] education_levels@[j]).len() == entries.len(),
            forall|j: int, m: int|
                0 <= j < k && 0 <= m < entries.len() ==> #[trigger] education_levels@[j]@[m]
                    == entries@[m].EDUCATION.equals_int(j + 2),
        decreases EDUCATION_LEVELS - k,
    {
        let column = indicator_column(&education, (k + 2) as u64);
        education_levels.push(column);
        k = k + 1;
    }
    let mut bands: Vec<BandColumns> = Vec::new();
    let mut b: usize = 0;
    while b < INCOME_BANDS
        invariant
            0 <= b <= INCOME_BANDS,
            entries_wf(entries@),
            bands.len() == b,
            forall|j: int|
                0 <= j < b ==> (#[trigger] bands@[j]).loan@ == loans(
                    select(entries@, band_criterion(j)),
                ) && bands@[j].income@ == incomes(select(entries@, band_criterion(j))),
        decreases INCOME_BANDS - b,
    {
        let columns = band_columns(entries, b);
        bands.push(columns);
        b = b + 1;
    }
    CreditHealth { loan, income, sex, education, male, education_levels, bands }
}

/// Records in band `band` of `s`.
pub open spec fn band_size(s: Seq<Entry>, band: int) -> int {
    select(s, band_criterion(band)).len() as int
}

/// The income bands partition the records: their sizes add up to the number
/// of records.
pub proof fn lemma_bands_partition(s: Seq<Entry>)
    ensures
        band_size(s, 0) + band_size(s, 1) + band_size(s, 2) + band_size(s, 3) + band_size(s, 4)
            + band_size(s, 5) + band_size(s, 6) == s.len(),
    decreases s.len(),
{
    if s.len() > 0 {
        lemma_bands_partition(s.drop_last());
        let b = income_band(s.last().Income);
        assert(0 <= b <= 6);
    }
}

/// A value equals at most one integer: at most one education indicator of a
/// record is set.
pub proof fn lemma_one_level_at_most(x: Real, k1: int, k2: int)
    requires
        x.equals_int(k1),
        x.equals_int(k2),
    ensures
        k1 == k2,
{
    vstd::arithmetic::power2::lemma_pow2_pos(1074);
    assert(k1 == k2) by (nonlinear_arith)
        requires
            k1 * vstd::arithmetic::power2::pow2(1074) == k2 * vstd::arithmetic::power2::pow2(
                1074,
            ),
            vstd::arithmetic::power2::pow2(1074) > 0,
    ;
}

/// The income bands do not depend on the order of the register: for two
/// arrangements of the same records, each band holds the same records, and so
/// the same loans and the same incomes (as multisets).
pub proof fn lemma_bands_depend_on_records(s1: Seq<Entry>, s2: Seq<Entry>, band: int)
    requires
        s1.to_multiset() == s2.to_multiset(),
    ensures
        select(s1, band_criterion(band)).to_multiset() == select(
            s2,
            band_criterion(band),
        ).to_multiset(),
        loans(select(s1, band_criterion(band))).to_multiset() == loans(
            select(s2, band_criterion(band)),
        ).to_multiset(),
        incomes(select(s1, band_criterion(band))).to_multiset() == incomes(
            select(s2, band_criterion(band)),
        ).to_multiset(),
{
    let t1 = select(s1, band_criterion(band));
    let t2 = select(s2, band_criterion(band));
    lemma_select_permutation(s1, s2, band_criterion(band));
    lemma_column_permutation(t1, t2, |e: Entry| e.Loan);
    lemma_column_permutation(t1, t2, |e: Entry| e.Income);
}

} // verus!
