//! Sums, least and greatest entries of sequences of times, and a few facts
//! about them.

use vstd::prelude::*;

verus! {

/// The sum of the entries of `s`.
pub open spec fn total(s: Seq<u128>) -> nat
    decreases s.len(),
{
    if s.len() == 0 {
        0
    } else {
        total(s.drop_last()) + s.last() as nat
    }
}

/// The sum of the entries of `s` whose place is marked in `marks`.
pub open spec fn marked_total(s: Seq<u128>, marks: Seq<bool>) -> nat
    decreases s.len(),
{
    if s.len() == 0 || marks.len() != s.len() {
        0
    } else {
        marked_total(s.drop_last(), marks.drop_last()) + if marks.last() {
            s.last() as nat
        } else {
            0nat
        }
    }
}

/// How many places of `marks` are marked.
pub open spec fn count_marked(marks: Seq<bool>) -> nat
    decreases marks.len(),
{
    if marks.len() == 0 {
        0
    } else {
        count_marked(marks.drop_last()) + if marks.last() {
            1nat
        } else {
            0nat
        }
    }
}

/// `m` is the least entry of `s`.
pub open spec fn is_least(s: Seq<u128>, m: u128) -> bool {
    &&& forall|i: int| 0 <= i < s.len() ==> m <= #[trigger] s[i]
    &&& exists|i: int| 0 <= i < s.len() && #[trigger] s[i] == m
}

/// `m` is the greatest entry of `s`.
pub open spec fn is_greatest(s: Seq<u128>, m: u128) -> bool {
    &&& forall|i: int| 0 <= i < s.len() ==> #[trigger] s[i] <= m
    &&& exists|i: int| 0 <= i < s.len() && #[trigger] s[i] == m
}

/// Some entry of `s` is at least `x`.
pub open spec fn reaches(s: Seq<u128>, x: u128) -> bool {
    exists|i: int| 0 <= i < s.len() && x <= #[trigger] s[i]
}

/// Replacing one entry changes the sum by the difference of the entries.
pub proof fn lemma_total_update(s: Seq<u128>, i: int, x: u128)
    requires
        0 <= i < s.len(),
    ensures
        total(s.update(i, x)) + s[i] == total(s) + x,
    decreases s.len(),
{
    let after = s.update(i, x);
    if i == s.len() - 1 {
        assert(after.drop_last() =~= s.drop_last());
    } else {
        assert(after.drop_last() =~= s.drop_last().update(i, x));
        lemma_total_update(s.drop_last(), i, x);
    }
}

/// The sum of a sequence of zeros is zero.
pub proof fn lemma_total_of_zeros(s: Seq<u128>)
    requires
        forall|i: int| 0 <= i < s.len() ==> s[i] == 0,
    ensures
        total(s) == 0,
    decreases s.len(),
{
    if s.len() > 0 {
        lemma_total_of_zeros(s.drop_last());
    }
}

/// A sum is at most the number of entries times a bound on each entry.
pub proof fn lemma_total_at_most(s: Seq<u128>, bound: nat)
    requires
        forall|i: int| 0 <= i < s.len() ==> #[trigger] s[i] <= bound,
    ensures
        total(s) <= s.len() * bound,
    decreases s.len(),
{
    if s.len() > 0 {
        let front = s.drop_last();
        assert forall|i: int| 0 <= i < front.len() implies #[trigger] front[i] <= bound by {
            assert(front[i] == s[i]);
        }
        lemma_total_at_most(front, bound);
        assert(front.len() * bound + bound == s.len() * bound) by (nonlinear_arith)
            requires
                front.len() + 1 == s.len(),
        ;
    }
}

/// A sum lies between the sums of bounds on its entries.
pub proof fn lemma_total_between(low: Seq<u128>, s: Seq<u128>, high: Seq<u128>)
    requires
        low.len() == s.len(),
        high.len() == s.len(),
        forall|i: int| 0 <= i < s.len() ==> low[i] <= #[trigger] s[i] <= high[i],
    ensures
        total(low) <= total(s) <= total(high),
    decreases s.len(),
{
    if s.len() > 0 {
        assert(s.drop_last().len() == low.drop_last().len());
        assert forall|i: int| 0 <= i < s.drop_last().len() implies low.drop_last()[i]
            <= #[trigger] s.drop_last()[i] <= high.drop_last()[i] by {
            assert(low[i] <= s[i] <= high[i]);
        }
        lemma_total_between(low.drop_last(), s.drop_last(), high.drop_last());
        assert(low[s.len() - 1] <= s[s.len() - 1] <= high[s.len() - 1]);
    }
}

/// With nothing marked the marked sum is zero; with everything marked it is
/// the sum; it is never more than the sum.
pub proof fn lemma_marked_total_bounds(s: Seq<u128>, marks: Seq<bool>)
    requires
        marks.len() == s.len(),
    ensures
        marked_total(s, marks) <= total(s),
        (forall|i: int| 0 <= i < marks.len() ==> !marks[i]) ==> marked_total(s, marks) == 0,
        (forall|i: int| 0 <= i < marks.len() ==> marks[i]) ==> marked_total(s, marks) == total(s),
    decreases s.len(),
{
    if s.len() > 0 {
        lemma_marked_total_bounds(s.drop_last(), marks.drop_last());
        if forall|i: int| 0 <= i < marks.len() ==> !marks[i] {
            assert forall|i: int| 0 <= i < marks.drop_last().len() implies !marks.drop_last()[i] by {
                assert(!marks[i]);
            }
            assert(!marks[marks.len() - 1]);
        }
        if forall|i: int| 0 <= i < marks.len() ==> marks[i] {
            assert forall|i: int| 0 <= i < marks.drop_last().len() implies marks.drop_last()[i] by {
                assert(marks[i]);
            }
            assert(marks[marks.len() - 1]);
        }
    }
}

/// Marking one more place adds its entry to the marked sum.
pub proof fn lemma_marked_total_mark(s: Seq<u128>, marks: Seq<bool>, i: int)
    requires
        marks.len() == s.len(),
        0 <= i < s.len(),
        !marks[i],
    ensures
        marked_total(s, marks.update(i, true)) == marked_total(s, marks) + s[i],
    decreases s.len(),
{
    let after = marks.update(i, true);
    if i == s.len() - 1 {
        assert(after.drop_last() =~= marks.drop_last());
    } else {
        assert(after.drop_last() =~= marks.drop_last().update(i, true));
        lemma_marked_total_mark(s.drop_last(), marks.drop_last(), i);
    }
}

/// The number of marked places is at most the length; it is the length
/// exactly when every place is marked.
pub proof fn lemma_count_marked_bounds(marks: Seq<bool>)
    ensures
        count_marked(marks) <= marks.len(),
        count_marked(marks) == marks.len() <==> (forall|i: int|
            0 <= i < marks.len() ==> #[trigger] marks[i]),
        (forall|i: int| 0 <= i < marks.len() ==> !#[trigger] marks[i]) ==> count_marked(marks) == 0,
    decreases marks.len(),
{
    if marks.len() > 0 {
        let front = marks.drop_last();
        lemma_count_marked_bounds(front);
        if count_marked(marks) == marks.len() {
            assert forall|i: int| 0 <= i < marks.len() implies #[trigger] marks[i] by {
                if i < front.len() {
                    assert(front[i]);
                }
            }
        }
        if forall|i: int| 0 <= i < marks.len() ==> #[trigger] marks[i] {
            assert forall|i: int| 0 <= i < front.len() implies #[trigger] front[i] by {
                assert(marks[i]);
            }
            assert(marks[marks.len() - 1]);
        }
        if forall|i: int| 0 <= i < marks.len() ==> !#[trigger] marks[i] {
            assert forall|i: int| 0 <= i < front.len() implies !#[trigger] front[i] by {
                assert(!marks[i]);
            }
            assert(!marks[marks.len() - 1]);
        }
    }
}

/// Marking one more place raises the number of marked places by one.
pub proof fn lemma_count_marked_mark(marks: Seq<bool>, i: int)
    requires
        0 <= i < marks.len(),
        !marks[i],
    ensures
        count_marked(marks.update(i, true)) == count_marked(marks) + 1,
    decreases marks.len(),
{
    let after = marks.update(i, true);
    if i == marks.len() - 1 {
        assert(after.drop_last() =~= marks.drop_last());
    } else {
        assert(after.drop_last() =~= marks.drop_last().update(i, true));
        lemma_count_marked_mark(marks.drop_last(), i);
    }
}

/// Adds up the entries of `v`.
pub fn sum_of(v: &Vec<u128>) -> (sum: u128)
    requires
        total(v@) <= u128::MAX,
    ensures
        sum == total(v@),
{
    let mut sum: u128 = 0;
    let mut i: usize = 0;
    while i < v.len()
        invariant
            i <= v.len(),
            sum == total(v@.take(i as int)),
            total(v@) <= u128::MAX,
        decreases v.len() - i,
    {
        proof {
            assert(v@.take(i as int + 1).drop_last() =~= v@.take(i as int));
            lemma_total_take(v@, i as int + 1);
        }
        sum = sum + v[i];
        i += 1;
    }
    assert(v@.take(v.len() as int) =~= v@);
    sum
}

/// The sum of a front part is at most the sum of the whole.
pub proof fn lemma_total_take(s: Seq<u128>, k: int)
    requires
        0 <= k <= s.len(),
    ensures
        total(s.take(k)) <= total(s),
    decreases s.len() - k,
{
    if k < s.len() {
        assert(s.take(k + 1).drop_last() =~= s.take(k));
        lemma_total_take(s, k + 1);
    } else {
        assert(s.take(k) =~= s);
    }
}

/// The least entry of `v`.
pub fn least_of(v: &Vec<u128>) -> (m: u128)
    requires
        v.len() > 0,
    ensures
        is_least(v@, m),
{
    let mut m: u128 = v[0];
    let mut i: usize = 1;
    assert(v@.take(1)[0] == m);
    while i < v.len()
        invariant
            1 <= i <= v.len(),
            is_least(v@.take(i as int), m),
        decreases v.len() - i,
    {
        let ghost front = v@.take(i as int);
        let ghost next = v@.take(i as int + 1);
        let ghost w = choose|w: int| 0 <= w < front.len() && #[trigger] front[w] == m;
        if v[i] < m {
            m = v[i];
            assert(next[i as int] == m);
        } else {
            assert(next[w] == m);
        }
        assert forall|j: int| 0 <= j < next.len() implies m <= #[trigger] next[j] by {
            if j < i {
                assert(front[j] == next[j]);
            }
        }
        i += 1;
    }
    assert(v@.take(v.len() as int) =~= v@);
    m
}

/// The greatest entry of `v`.
pub fn greatest_of(v: &Vec<u128>) -> (m: u128)
    requires
        v.len() > 0,
    ensures
        is_greatest(v@, m),
{
    let mut m: u128 = v[0];
    let mut i: usize = 1;
    assert(v@.take(1)[0] == m);
    while i < v.len()
        invariant
            1 <= i <= v.len(),
            is_greatest(v@.take(i as int), m),
        decreases v.len() - i,
    {
        let ghost front = v@.take(i as int);
        let ghost next = v@.take(i as int + 1);
        let ghost w = choose|w: int| 0 <= w < front.len() && #[trigger] front[w] == m;
        if v[i] > m {
            m = v[i];
            assert(next[i as int] == m);
        } else {
            assert(next[w] == m);
        }
        assert forall|j: int| 0 <= j < next.len() implies #[trigger] next[j] <= m by {
            if j < i {
                assert(front[j] == next[j]);
            }
        }
        i += 1;
    }
    assert(v@.take(v.len() as int) =~= v@);
    m
}

} // verus!
