//! Per-path byte totals, held in a persistent vector so that a snapshot of
//! them costs no copy of the elements.

use vstd::prelude::*;

verus! {

/// `im::Vector`: a persistent vector. Nothing is known of a value of it but
/// what the functions below say.
#[verifier::external_type_specification]
#[verifier::external_body]
#[verifier::reject_recursive_types(A)]
pub struct ExVector<A>(im::Vector<A>);

/// The elements that a vector of totals holds, first to last.
pub uninterp spec fn counts(v: im::Vector<usize>) -> Seq<usize>;

/// `im::Vector::new`: a vector without elements.
#[verifier::external_body]
pub(crate) fn totals_new() -> (v: im::Vector<usize>)
    ensures
        counts(v) == Seq::<usize>::empty(),
{
    im::Vector::new()
}

/// `im::Vector::len`: the number of elements.
#[verifier::external_body]
pub(crate) fn totals_len(v: &im::Vector<usize>) -> (n: usize)
    ensures
        n == counts(*v).len(),
{
    v.len()
}

/// `im::Vector::push_back`: the same elements, then `value`.
#[verifier::external_body]
pub(crate) fn totals_push_back(v: &mut im::Vector<usize>, value: usize)
    ensures
        counts(*final(v)) == counts(*old(v)).push(value),
{
    v.push_back(value)
}

/// `Index::index` of `im::Vector`: the element at `index`. It panics past
/// the end, which `requires` excludes.
#[verifier::external_body]
pub(crate) fn totals_get(v: &im::Vector<usize>, index: usize) -> (value: usize)
    requires
        index < counts(*v).len(),
    ensures
        value == counts(*v)[index as int],
{
    v[index]
}

/// `im::Vector::set`: the element at `index` becomes `value`, the others
/// stay. It panics past the end, which `requires` excludes.
#[verifier::external_body]
pub(crate) fn totals_set(v: &mut im::Vector<usize>, index: usize, value: usize)
    requires
        index < counts(*old(v)).len(),
    ensures
        counts(*final(v)) == counts(*old(v)).update(index as int, value),
{
    v.set(index, value);
}

/// `Clone::clone` of `im::Vector`: a vector with the same elements.
#[verifier::external_body]
pub(crate) fn totals_clone(v: &im::Vector<usize>) -> (copy: im::Vector<usize>)
    ensures
        counts(copy) == counts(*v),
{
    v.clone()
}

/// `im::Vector::clear`: no element is left.
#[verifier::external_body]
pub(crate) fn totals_clear(v: &mut im::Vector<usize>)
    ensures
        counts(*final(v)) == Seq::<usize>::empty(),
{
    v.clear()
}

/// Sum of the elements.
pub open spec fn sum(s: Seq<usize>) -> int
    decreases s.len(),
{
    if s.len() == 0 {
        0
    } else {
        sum(s.drop_last()) + s.last()
    }
}

/// No element exceeds the sum.
pub proof fn lemma_sum_bounds_each(s: Seq<usize>, i: int)
    requires
        0 <= i < s.len(),
    ensures
        s[i] <= sum(s),
        sum(s) >= 0,
    decreases s.len(),
{
    lemma_sum_nonnegative(s.drop_last());
    if i < s.len() - 1 {
        lemma_sum_bounds_each(s.drop_last(), i);
    }
}

/// A sum of sizes is not negative.
pub proof fn lemma_sum_nonnegative(s: Seq<usize>)
    ensures
        sum(s) >= 0,
    decreases s.len(),
{
    if s.len() > 0 {
        lemma_sum_nonnegative(s.drop_last());
    }
}

/// Changing one element changes the sum by the difference.
pub proof fn lemma_sum_update(s: Seq<usize>, i: int, value: usize)
    requires
        0 <= i < s.len(),
    ensures
        sum(s.update(i, value)) == sum(s) - s[i] + value,
    decreases s.len(),
{
    if i < s.len() - 1 {
        lemma_sum_update(s.drop_last(), i, value);
        assert(s.update(i, value).drop_last() =~= s.drop_last().update(i, value));
    } else {
        assert(s.update(i, value).drop_last() =~= s.drop_last());
    }
}

/// A further element adds itself to the sum.
pub proof fn lemma_sum_push(s: Seq<usize>, value: usize)
    ensures
        sum(s.push(value)) == sum(s) + value,
{
    assert(s.push(value).drop_last() =~= s);
}

/// The sum of the totals, computed.
pub(crate) fn totals_sum(v: &im::Vector<usize>) -> (total: usize)
    requires
        sum(counts(*v)) <= usize::MAX,
    ensures
        total == sum(counts(*v)),
{
    let n = totals_len(v);
    let mut total: usize = 0;
    let mut idx: usize = 0;
    while idx < n
        invariant
            idx <= n,
            n == counts(*v).len(),
            total == sum(counts(*v).take(idx as int)),
            sum(counts(*v)) <= usize::MAX,
        decreases n - idx,
    {
        proof {
            assert(counts(*v).take(idx + 1).drop_last() =~= counts(*v).take(idx as int));
            lemma_sum_prefix(counts(*v), idx + 1);
        }
        total = total + totals_get(v, idx);
        idx += 1;
    }
    proof {
        assert(counts(*v).take(idx as int) =~= counts(*v));
    }
    total
}

/// A prefix sums to no more than the whole.
pub proof fn lemma_sum_prefix(s: Seq<usize>, n: int)
    requires
        0 <= n <= s.len(),
    ensures
        0 <= sum(s.take(n)) <= sum(s),
    decreases s.len() - n,
{
    if n == s.len() {
        assert(s.take(n) =~= s);
        lemma_sum_nonnegative(s);
    } else {
        lemma_sum_prefix(s, n + 1);
        assert(s.take(n + 1).drop_last() =~= s.take(n));
        lemma_sum_nonnegative(s.take(n));
    }
}

} // verus!
