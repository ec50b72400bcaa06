//! Stable sorting of binary64 values by their IEEE-754 order.
use vstd::prelude::*;
use crate::binary64::{Real, lemma_at_most_total};

verus! {

broadcast use vstd::seq_lib::group_to_multiset_ensures;

/// `x` placed into `s` after the last element that is not greater than `x`.
pub open spec fn insert_stable(s: Seq<Real>, x: Real) -> Seq<Real>
    decreases s.len(),
{
    if s.len() == 0 {
        seq![x]
    } else if x.below(s.last()) {
        insert_stable(s.drop_last(), x).push(s.last())
    } else {
        s.push(x)
    }
}

/// The stable ascending sort of `s`: the elements taken in their order,
/// each inserted after the elements already placed that are not greater.
/// Equal values keep the order they had in `s`.
pub open spec fn sort_by_value(s: Seq<Real>) -> Seq<Real>
    decreases s.len(),
{
    if s.len() == 0 {
        s
    } else {
        insert_stable(sort_by_value(s.drop_last()), s.last())
    }
}

pub open spec fn all_wf(s: Seq<Real>) -> bool {
    forall|i: int| 0 <= i < s.len() ==> (#[trigger] s[i]).wf()
}

pub open spec fn no_nan(s: Seq<Real>) -> bool {
    forall|i: int| 0 <= i < s.len() ==> !(#[trigger] s[i]).is_nan()
}

/// Ascending order: every element is at most every later one.
pub open spec fn ascending(s: Seq<Real>) -> bool {
    forall|i: int, j: int| 0 <= i < j < s.len() ==> (#[trigger] s[i]).at_most(#[trigger] s[j])
}

proof fn lemma_insert_stable_shape(s: Seq<Real>, x: Real, j: int)
    requires
        0 <= j <= s.len(),
        forall|k: int| j <= k < s.len() ==> x.below(#[trigger] s[k]),
        j == 0 || !x.below(s[j - 1]),
    ensures
        insert_stable(s, x) == s.insert(j, x),
    decreases s.len(),
{
    if s.len() == 0 {
        assert(s.insert(j, x) =~= seq![x]);
    } else if x.below(s.last()) {
        let d = s.drop_last();
        lemma_insert_stable_shape(d, x, j);
        assert(d.insert(j, x).push(s.last()) =~= s.insert(j, x));
    } else {
        assert(j == s.len());
        assert(s.push(x) =~= s.insert(j, x));
    }
}

proof fn lemma_insert_stable_multiset(s: Seq<Real>, x: Real)
    ensures
        insert_stable(s, x).to_multiset() =~= s.to_multiset().insert(x),
        insert_stable(s, x).len() == s.len() + 1,
    decreases s.len(),
{
    if s.len() == 0 {
        assert(seq![x] =~= Seq::<Real>::empty().push(x));
    } else if x.below(s.last()) {
        let d = s.drop_last();
        lemma_insert_stable_multiset(d, x);
        assert(d.push(s.last()) =~= s);
    }
}

proof fn lemma_insert_stable_ascending(s: Seq<Real>, x: Real)
    requires
        ascending(s),
        no_nan(s),
        !x.is_nan(),
    ensures
        ascending(insert_stable(s, x)),
        no_nan(insert_stable(s, x)),
        forall|k: int|
            0 <= k < insert_stable(s, x).len() ==> {
                ||| #[trigger] insert_stable(s, x)[k] == x
                ||| s.contains(insert_stable(s, x)[k])
            },
    decreases s.len(),
{
    if s.len() == 0 {
    } else if x.below(s.last()) {
        let d = s.drop_last();
        assert(ascending(d));
        assert(no_nan(d));
        lemma_insert_stable_ascending(d, x);
        lemma_insert_stable_multiset(d, x);
        let t = insert_stable(d, x);
        let last = s.last();
        assert forall|k: int| 0 <= k < t.len() implies (#[trigger] t[k]).at_most(last) by {
            if t[k] == x {
            } else {
                assert(d.contains(t[k]));
                let m = choose|m: int| 0 <= m < d.len() && d[m] == t[k];
                assert(s[m] == d[m]);
            }
        }
        assert forall|k: int| 0 <= k < t.len() implies s.contains(#[trigger] t[k]) || t[k] == x by {
            if t[k] != x {
                let m = choose|m: int| 0 <= m < d.len() && d[m] == t[k];
                assert(s[m] == t[k]);
            }
        }
        assert(s.contains(last)) by {
            assert(s[s.len() - 1] == last);
        }
    } else {
        let last = s.last();
        assert forall|k: int| 0 <= k < s.len() implies (#[trigger] s[k]).at_most(x) by {
            lemma_at_most_total(last, x);
            if k < s.len() - 1 {
                assert(s[k].at_most(last));
            }
        }
        assert forall|k: int| 0 <= k < s.len() implies s.contains(#[trigger] s.push(x)[k]) by {
            assert(s.push(x)[k] == s[k]);
        }
    }
}

/// The sort is a permutation of its input.
pub proof fn lemma_sort_is_permutation(s: Seq<Real>)
    ensures
        sort_by_value(s).to_multiset() =~= s.to_multiset(),
        sort_by_value(s).len() == s.len(),
    decreases s.len(),
{
    if s.len() > 0 {
        let d = s.drop_last();
        lemma_sort_is_permutation(d);
        lemma_insert_stable_multiset(sort_by_value(d), s.last());
        assert(d.push(s.last()) =~= s);
    }
}

/// Without `NaN`, the sort is in ascending order.
pub proof fn lemma_sort_is_ascending(s: Seq<Real>)
    requires
        no_nan(s),
    ensures
        ascending(sort_by_value(s)),
        no_nan(sort_by_value(s)),
    decreases s.len(),
{
    if s.len() > 0 {
        let d = s.drop_last();
        assert(no_nan(d));
        lemma_sort_is_ascending(d);
        assert(!s.last().is_nan());
        lemma_insert_stable_ascending(sort_by_value(d), s.last());
    }
}

proof fn lemma_contains_transfer(s1: Seq<Real>, s2: Seq<Real>, v: Real)
    requires
        s1.to_multiset() == s2.to_multiset(),
        s2.contains(v),
    ensures
        s1.contains(v),
{
    assert(s2.to_multiset().count(v) > 0);
    assert(s1.to_multiset().count(v) > 0);
}

/// A rearrangement of values without `NaN` has no `NaN` either.
pub proof fn lemma_no_nan_permutation(s1: Seq<Real>, s2: Seq<Real>)
    requires
        s1.to_multiset() == s2.to_multiset(),
        no_nan(s1),
    ensures
        no_nan(s2),
{
    assert forall|k: int| 0 <= k < s2.len() implies !(#[trigger] s2[k]).is_nan() by {
        assert(s2.contains(s2[k]));
        lemma_contains_transfer(s1, s2, s2[k]);
    }
}

/// Two ascending arrangements of the same values agree position by position:
/// the values at each position compare equal.
pub proof fn lemma_ascending_arrangements_agree(s1: Seq<Real>, s2: Seq<Real>)
    requires
        ascending(s1),
        ascending(s2),
        no_nan(s1),
        s1.to_multiset() == s2.to_multiset(),
    ensures
        s1.len() == s2.len(),
        forall|k: int| 0 <= k < s1.len() ==> (#[trigger] s1[k]).same_value(s2[k]),
    decreases s1.len(),
{
    lemma_no_nan_permutation(s1, s2);
    assert(s1.len() == s1.to_multiset().len());
    assert(s2.len() == s2.to_multiset().len());
    if s1.len() > 0 {
        let n = s1.len() as int;
        let x = s1.last();
        assert(s1.contains(x)) by {
            assert(s1[n - 1] == x);
        }
        lemma_contains_transfer(s2, s1, x);
        let j = choose|j: int| 0 <= j < s2.len() && s2[j] == x;
        let a = s1.drop_last();
        let b = s2.remove(j);
        assert(a.push(x) =~= s1);
        assert(a.to_multiset() =~= s1.to_multiset().remove(x)) by {
            assert(a.push(x).to_multiset() =~= a.to_multiset().insert(x));
        }
        assert(b.to_multiset() =~= s2.to_multiset().remove(x));
        assert(ascending(a));
        assert(ascending(b)) by {
            assert forall|p: int, q: int| 0 <= p < q < b.len() implies (#[trigger] b[p]).at_most(
                #[trigger] b[q],
            ) by {
                let pp = if p < j {
                    p
                } else {
                    p + 1
                };
                let qq = if q < j {
                    q
                } else {
                    q + 1
                };
                assert(b[p] == s2[pp]);
                assert(b[q] == s2[qq]);
            }
        }
        assert(no_nan(a));
        lemma_ascending_arrangements_agree(a, b);
        // every value is at most x, the last of s1
        assert forall|k: int| 0 <= k < s2.len() implies (#[trigger] s2[k]).at_most(x) by {
            assert(s2.contains(s2[k]));
            lemma_contains_transfer(s1, s2, s2[k]);
            let m = choose|m: int| 0 <= m < s1.len() && s1[m] == s2[k];
            if m < n - 1 {
                assert(s1[m].at_most(s1[n - 1]));
            } else {
                lemma_at_most_total(x, x);
            }
        }
        // from position j on, s2 holds values equal to x
        assert forall|k: int| j <= k < s2.len() implies (#[trigger] s2[k]).same_value(x) by {
            if k > j {
                assert(s2[j].at_most(s2[k]));
            } else {
                lemma_at_most_total(x, x);
            }
        }
        assert forall|k: int| 0 <= k < s1.len() implies (#[trigger] s1[k]).same_value(s2[k]) by {
            if k < n - 1 {
                assert(s1[k] == a[k]);
                assert(a[k].same_value(b[k]));
                if k >= j {
                    assert(b[k] == s2[k + 1]);
                    assert(s2[k + 1].same_value(x));
                    assert(s2[k].same_value(x));
                }
            } else {
                assert(s2[n - 1].same_value(x));
            }
        }
    }
}

/// The sort depends only on the values up to order: sorting two arrangements
/// of the same values gives, position by position, values that compare equal.
/// (Equal values can still differ in sign, as `-0` and `+0` do.)
pub proof fn lemma_sort_depends_on_values(s1: Seq<Real>, s2: Seq<Real>)
    requires
        s1.to_multiset() == s2.to_multiset(),
        no_nan(s1),
    ensures
        sort_by_value(s1).len() == sort_by_value(s2).len() == s1.len(),
        forall|k: int|
            0 <= k < s1.len() ==> (#[trigger] sort_by_value(s1)[k]).same_value(
                sort_by_value(s2)[k],
            ),
{
    lemma_no_nan_permutation(s1, s2);
    lemma_sort_is_permutation(s1);
    lemma_sort_is_permutation(s2);
    lemma_sort_is_ascending(s1);
    lemma_sort_is_ascending(s2);
    lemma_ascending_arrangements_agree(sort_by_value(s1), sort_by_value(s2));
}

/// The sort is stable: a value appended after values that are all at most
/// it stays last, behind every value equal to it.
pub proof fn lemma_sort_append_largest(s: Seq<Real>, x: Real)
    requires
        no_nan(s),
        !x.is_nan(),
        forall|i: int| 0 <= i < s.len() ==> (#[trigger] s[i]).at_most(x),
    ensures
        sort_by_value(s.push(x)) == sort_by_value(s).push(x),
{
    assert(s.push(x).drop_last() =~= s);
    let t = sort_by_value(s);
    lemma_sort_is_permutation(s);
    if t.len() > 0 {
        let l = t.last();
        assert(t.contains(l)) by {
            assert(t[t.len() - 1] == l);
        }
        assert(t.to_multiset().count(l) > 0);
        assert(s.to_multiset().count(l) > 0);
        assert(s.contains(l));
        assert(l.at_most(x));
        assert(!x.below(l));
    }
}

proof fn lemma_insert_stable_wf(s: Seq<Real>, x: Real)
    requires
        all_wf(s),
        x.wf(),
    ensures
        all_wf(insert_stable(s, x)),
    decreases s.len(),
{
    if s.len() > 0 && x.below(s.last()) {
        lemma_insert_stable_wf(s.drop_last(), x);
    }
}

/// Position at which the stable insertion places `x` in the ascending `s`:
/// the first element greater than `x`, found by bisection.
fn insertion_point(s: &Vec<Real>, x: &Real) -> (j: usize)
    requires
        all_wf(s@),
        no_nan(s@),
        ascending(s@),
        x.wf(),
        !x.is_nan(),
    ensures
        j <= s.len(),
        forall|k: int| j <= k < s.len() ==> x.below(#[trigger] s@[k]),
        j == 0 || !x.below(s@[j - 1]),
{
    let mut lo: usize = 0;
    let mut hi: usize = s.len();
    while lo < hi
        invariant
            0 <= lo <= hi <= s.len(),
            all_wf(s@),
            no_nan(s@),
            ascending(s@),
            x.wf(),
            forall|k: int| hi <= k < s.len() ==> x.below(#[trigger] s@[k]),
            forall|k: int| 0 <= k < lo ==> !x.below(#[trigger] s@[k]),
        decreases hi - lo,
    {
        let mid = lo + (hi - lo) / 2;
        if x.lt(&s[mid]) {
            proof {
                assert forall|k: int| mid <= k < s.len() implies x.below(#[trigger] s@[k]) by {
                    if k > mid {
                        assert(s@[mid as int].at_most(s@[k]));
                    }
                }
            }
            hi = mid;
        } else {
            proof {
                assert forall|k: int| 0 <= k < mid + 1 implies !x.below(#[trigger] s@[k]) by {
                    if k < mid {
                        assert(s@[k].at_most(s@[mid as int]));
                    }
                }
            }
            lo = mid + 1;
        }
    }
    lo
}

/// The values of `v` in ascending order; values that compare equal keep their
/// order (a stable sort). `NaN` has no place in the order and is not accepted.
pub fn sort_values(v: &Vec<Real>) -> (r: Vec<Real>)
    requires
        all_wf(v@),
        no_nan(v@),
    ensures
        r@ == sort_by_value(v@),
        all_wf(r@),
{
    let mut r: Vec<Real> = Vec::new();
    let n = v.len();
    let mut i: usize = 0;
    while i < n
        invariant
            n == v.len(),
            0 <= i <= n,
            all_wf(v@),
            no_nan(v@),
            r@ == sort_by_value(v@.take(i as int)),
            all_wf(r@),
            no_nan(r@),
            ascending(r@),
        decreases n - i,
    {
        let x = v[i];
        let j = insertion_point(&r, &x);
        proof {
            lemma_insert_stable_shape(r@, x, j as int);
            assert(v@.take(i + 1).drop_last() =~= v@.take(i as int));
            assert(v@.take(i + 1).last() == x);
            lemma_insert_stable_wf(r@, x);
            lemma_insert_stable_ascending(r@, x);
        }
        r.insert(j, x);
        i = i + 1;
    }
    proof {
        assert(v@.take(n as int) =~= v@);
    }
    r
}

} // verus!
