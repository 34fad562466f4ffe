//! Samples in descending order of their counts.

use core::cmp::Ordering;
use itertools::Itertools;
use vstd::prelude::*;

verus! {

/// A key and its count of samples (bytes, or ticks of a clock).
pub type Sample<K> = (K, usize);

/// The order that puts the larger count first.
pub fn larger_first(a: usize, b: usize) -> (order: Ordering)
    ensures
        order == (if b < a {
            Ordering::Less
        } else if b == a {
            Ordering::Equal
        } else {
            Ordering::Greater
        }),
{
    if b < a {
        Ordering::Less
    } else if b == a {
        Ordering::Equal
    } else {
        Ordering::Greater
    }
}

/// `output` holds the samples of `input` in descending order of their
/// counts, samples with equal counts in the order they have in `input`:
/// `origin` says where in `input` each sample of `output` stood, and `place`
/// where in `output` each sample of `input` stands.
pub open spec fn sorts_by<K>(
    input: Seq<Sample<K>>,
    output: Seq<Sample<K>>,
    origin: Seq<int>,
    place: Seq<int>,
) -> bool {
    &&& output.len() == input.len()
    &&& origin.len() == input.len()
    &&& place.len() == input.len()
    &&& forall|i: int|
        0 <= i < output.len() ==> 0 <= (#[trigger] origin[i]) < input.len() && output[i]
            == input[origin[i]]
    &&& forall|j: int|
        0 <= j < input.len() ==> 0 <= (#[trigger] place[j]) < output.len() && origin[place[j]] == j
    &&& forall|i: int, j: int|
        0 <= i < j < output.len() ==> (#[trigger] output[i]).1 >= (#[trigger] output[j]).1
    &&& forall|i: int, j: int|
        0 <= i < j < output.len() && output[i].1 == output[j].1 ==> (#[trigger] origin[i]) < (
        #[trigger] origin[j])
}

/// `output` is `input` sorted by descending count, and the sort is stable.
pub open spec fn is_stable_descending_sort<K>(
    input: Seq<Sample<K>>,
    output: Seq<Sample<K>>,
) -> bool {
    exists|origin: Seq<int>, place: Seq<int>| sorts_by(input, output, origin, place)
}

/// `Itertools::sorted_by` with the order `larger_first` on the counts: the
/// samples sorted by descending count. The sort is stable, as itertools
/// documents of `sorted_by`: samples with equal counts keep the order they
/// came in.
#[verifier::external_body]
fn sorted_by_count<K>(samples: Vec<Sample<K>>) -> (sorted: Vec<Sample<K>>)
    ensures
        is_stable_descending_sort(samples@, sorted@),
{
    samples.into_iter().sorted_by(|a, b| larger_first(a.1, b.1)).collect()
}

/// The sorted samples with one more sample, which came after all of them:
/// it stands behind every sample whose count is no less than its own.
pub open spec fn insert_sorted<K>(sorted: Seq<Sample<K>>, sample: Sample<K>) -> Seq<Sample<K>>
    decreases sorted.len(),
{
    if sorted.len() == 0 || sorted.last().1 >= sample.1 {
        sorted.push(sample)
    } else {
        insert_sorted(sorted.drop_last(), sample).push(sorted.last())
    }
}

/// The samples in descending order of their counts, samples with equal
/// counts in the order they came in.
pub open spec fn sorted_descending<K>(samples: Seq<Sample<K>>) -> Seq<Sample<K>>
    decreases samples.len(),
{
    if samples.len() == 0 {
        Seq::<Sample<K>>::empty()
    } else {
        insert_sorted(sorted_descending(samples.drop_last()), samples.last())
    }
}

/// Whether the counts never rise.
pub open spec fn is_descending<K>(samples: Seq<Sample<K>>) -> bool {
    forall|i: int, j: int|
        0 <= i < j < samples.len() ==> (#[trigger] samples[i]).1 >= (#[trigger] samples[j]).1
}

/// Sum of the counts.
pub open spec fn sum_counts<K>(samples: Seq<Sample<K>>) -> int
    decreases samples.len(),
{
    if samples.len() == 0 {
        0
    } else {
        sum_counts(samples.drop_last()) + samples.last().1
    }
}

/// Where a sample goes among sorted ones is where the counts fall below its
/// own.
pub proof fn lemma_insert_position<K>(sorted: Seq<Sample<K>>, sample: Sample<K>, k: int)
    requires
        0 <= k <= sorted.len(),
        forall|i: int| 0 <= i < k ==> (#[trigger] sorted[i]).1 >= sample.1,
        forall|i: int| k <= i < sorted.len() ==> (#[trigger] sorted[i]).1 < sample.1,
    ensures
        insert_sorted(sorted, sample) == sorted.insert(k, sample),
    decreases sorted.len(),
{
    if k == sorted.len() {
        if sorted.len() > 0 {
            assert(sorted[sorted.len() - 1].1 >= sample.1);
        }
        assert(sorted.push(sample) =~= sorted.insert(k, sample));
    } else {
        assert(sorted[sorted.len() - 1].1 < sample.1);
        let front = sorted.drop_last();
        assert forall|i: int| 0 <= i < k implies (#[trigger] front[i]).1 >= sample.1 by {
            assert(front[i] == sorted[i]);
        }
        assert forall|i: int| k <= i < front.len() implies (#[trigger] front[i]).1 < sample.1 by {
            assert(front[i] == sorted[i]);
        }
        lemma_insert_position(front, sample, k);
        assert(front.insert(k, sample).push(sorted.last()) =~= sorted.insert(k, sample));
    }
}

/// A sample that is inserted stands somewhere among the others, which keep
/// their order.
pub proof fn lemma_insert_sorted_shape<K>(sorted: Seq<Sample<K>>, sample: Sample<K>) -> (k: int)
    ensures
        0 <= k <= sorted.len(),
        insert_sorted(sorted, sample) == sorted.insert(k, sample),
        forall|i: int| k <= i < sorted.len() ==> (#[trigger] sorted[i]).1 < sample.1,
        k > 0 ==> sorted[k - 1].1 >= sample.1,
    decreases sorted.len(),
{
    if sorted.len() == 0 || sorted.last().1 >= sample.1 {
        assert(sorted.push(sample) =~= sorted.insert(sorted.len() as int, sample));
        sorted.len() as int
    } else {
        let front = sorted.drop_last();
        let k = lemma_insert_sorted_shape(front, sample);
        assert(front.insert(k, sample).push(sorted.last()) =~= sorted.insert(k, sample));
        assert forall|i: int| k <= i < sorted.len() implies (#[trigger] sorted[i]).1
            < sample.1 by {
            if i < front.len() {
                assert(front[i] == sorted[i]);
            }
        }
        if k > 0 {
            assert(front[k - 1] == sorted[k - 1]);
        }
        k
    }
}

/// The sum of the counts with one more sample anywhere among them.
pub proof fn lemma_sum_counts_insert<K>(samples: Seq<Sample<K>>, k: int, sample: Sample<K>)
    requires
        0 <= k <= samples.len(),
    ensures
        sum_counts(samples.insert(k, sample)) == sum_counts(samples) + sample.1,
    decreases samples.len() - k,
{
    if k == samples.len() {
        assert(samples.insert(k, sample).drop_last() =~= samples);
        assert(samples.insert(k, sample).last() == sample);
    } else {
        lemma_sum_counts_insert(samples.drop_last(), k, sample);
        assert(samples.insert(k, sample).drop_last() =~= samples.drop_last().insert(k, sample));
        assert(samples.insert(k, sample).last() == samples.last());
    }
}

/// Sorting changes the order and nothing else: the counts never rise, they
/// add up to what they did, and what holds of every sample still does.
pub proof fn lemma_sorted_descending<K>(samples: Seq<Sample<K>>, holds: spec_fn(Sample<K>) -> bool)
    ensures
        sorted_descending(samples).len() == samples.len(),
        is_descending(sorted_descending(samples)),
        sum_counts(sorted_descending(samples)) == sum_counts(samples),
        (forall|i: int| 0 <= i < samples.len() ==> holds(#[trigger] samples[i])) ==> (forall|i: int|
            0 <= i < sorted_descending(samples).len() ==> holds(
                #[trigger] sorted_descending(samples)[i],
            )),
    decreases samples.len(),
{
    if samples.len() > 0 {
        let front = samples.drop_last();
        let sample = samples.last();
        lemma_sorted_descending(front, holds);
        let sorted = sorted_descending(front);
        let k = lemma_insert_sorted_shape(sorted, sample);
        let whole = sorted.insert(k, sample);
        lemma_sum_counts_insert(sorted, k, sample);
        assert forall|i: int, j: int| 0 <= i < j < whole.len() implies (#[trigger] whole[i]).1 >= (
        #[trigger] whole[j]).1 by {
            let i0 = if i < k { i } else { i - 1 };
            let j0 = if j < k { j } else { j - 1 };
            if i == k {
                assert(whole[j] == sorted[j0]);
            } else if j == k {
                assert(whole[i] == sorted[i0]);
                if i0 < k - 1 {
                    assert(sorted[i0].1 >= sorted[k - 1].1);
                }
            } else {
                assert(whole[i] == sorted[i0]);
                assert(whole[j] == sorted[j0]);
            }
        }
        if forall|i: int| 0 <= i < samples.len() ==> holds(#[trigger] samples[i]) {
            assert forall|i: int| 0 <= i < front.len() implies holds(#[trigger] front[i]) by {
                assert(front[i] == samples[i]);
            }
            assert(holds(samples[samples.len() - 1]));
            assert forall|i: int| 0 <= i < whole.len() implies holds(#[trigger] whole[i]) by {
                if i < k {
                    assert(whole[i] == sorted[i]);
                } else if i > k {
                    assert(whole[i] == sorted[i - 1]);
                }
            }
        }
    }
}

/// In a stable sort no two samples of the output come from one place, and
/// of two samples of the output the earlier has the larger count, or the
/// same count and came from an earlier place.
pub proof fn lemma_sorts_by_order<K>(
    input: Seq<Sample<K>>,
    output: Seq<Sample<K>>,
    origin: Seq<int>,
    place: Seq<int>,
    i: int,
    j: int,
)
    requires
        sorts_by(input, output, origin, place),
        0 <= i < output.len(),
        0 <= j < output.len(),
        i != j,
    ensures
        origin[i] != origin[j],
        i < j ==> output[i].1 >= output[j].1,
        i < j && origin[i] > origin[j] ==> output[i].1 > output[j].1,
{
    if i < j {
        assert(output[i].1 >= output[j].1);
        if output[i].1 == output[j].1 {
            assert(origin[i] < origin[j]);
        }
    } else {
        assert(output[j].1 >= output[i].1);
        if output[i].1 == output[j].1 {
            assert(origin[j] < origin[i]);
        }
    }
    if origin[i] == origin[j] {
        assert(output[i] == input[origin[i]]);
        assert(output[j] == input[origin[j]]);
    }
}

/// A stable sort without the sample that came last is a stable sort of the
/// samples that came before it.
pub proof fn lemma_sorts_by_without_last<K>(
    input: Seq<Sample<K>>,
    output: Seq<Sample<K>>,
    origin: Seq<int>,
    place: Seq<int>,
) -> (reduced: (Seq<int>, Seq<int>))
    requires
        sorts_by(input, output, origin, place),
        input.len() > 0,
    ensures
        0 <= place[input.len() - 1] < output.len(),
        sorts_by(
            input.drop_last(),
            output.remove(place[input.len() - 1]),
            reduced.0,
            reduced.1,
        ),
{
    let m = input.len() - 1;
    let k = place[m];
    assert(0 <= k < output.len() && origin[k] == m);
    let input1 = input.drop_last();
    let output1 = output.remove(k);
    let origin1 = origin.remove(k);
    let place1 = Seq::new(m as nat, |j: int| if place[j] < k { place[j] } else { place[j] - 1 });
    assert forall|i: int| 0 <= i < output1.len() implies 0 <= (#[trigger] origin1[i])
        < input1.len() && output1[i] == input1[origin1[i]] by {
        let i0 = if i < k { i } else { i + 1 };
        assert(origin1[i] == origin[i0]);
        assert(output1[i] == output[i0]);
        lemma_sorts_by_order(input, output, origin, place, i0, k);
    }
    assert forall|j: int| 0 <= j < input1.len() implies 0 <= (#[trigger] place1[j])
        < output1.len() && origin1[place1[j]] == j by {
        assert(origin[place[j]] == j);
        assert(place[j] != k);
    }
    assert forall|i: int, j: int| 0 <= i < j < output1.len() implies (#[trigger] output1[i]).1 >= (
    #[trigger] output1[j]).1 by {
        let i0 = if i < k { i } else { i + 1 };
        let j0 = if j < k { j } else { j + 1 };
        assert(output1[i] == output[i0]);
        assert(output1[j] == output[j0]);
        lemma_sorts_by_order(input, output, origin, place, i0, j0);
    }
    assert forall|i: int, j: int|
        0 <= i < j < output1.len() && output1[i].1 == output1[j].1 implies (#[trigger] origin1[i])
        < (#[trigger] origin1[j]) by {
        let i0 = if i < k { i } else { i + 1 };
        let j0 = if j < k { j } else { j + 1 };
        assert(origin1[i] == origin[i0]);
        assert(origin1[j] == origin[j0]);
        assert(output1[i] == output[i0]);
        assert(output1[j] == output[j0]);
        lemma_sorts_by_order(input, output, origin, place, i0, j0);
    }
    (origin1, place1)
}

/// There is one stable sort by descending count.
pub proof fn lemma_stable_sort_is_unique<K>(
    input: Seq<Sample<K>>,
    output: Seq<Sample<K>>,
    origin: Seq<int>,
    place: Seq<int>,
)
    requires
        sorts_by(input, output, origin, place),
    ensures
        output == sorted_descending(input),
    decreases input.len(),
{
    if input.len() == 0 {
        assert(output =~= Seq::<Sample<K>>::empty());
    } else {
        let m = input.len() - 1;
        let k = place[m];
        let sample = input.last();
        let output1 = output.remove(k);
        let (origin1, place1) = lemma_sorts_by_without_last(input, output, origin, place);
        assert(origin[k] == m);
        assert(output[k] == sample);
        assert forall|i: int| 0 <= i < k implies (#[trigger] output1[i]).1 >= sample.1 by {
            assert(output1[i] == output[i]);
            lemma_sorts_by_order(input, output, origin, place, i, k);
        }
        assert forall|i: int| k <= i < output1.len() implies (#[trigger] output1[i]).1
            < sample.1 by {
            assert(output1[i] == output[i + 1]);
            lemma_sorts_by_order(input, output, origin, place, k, i + 1);
            assert(0 <= origin[i + 1] < input.len());
        }
        lemma_stable_sort_is_unique(input.drop_last(), output1, origin1, place1);
        lemma_insert_position(output1, sample, k);
        assert(output1.insert(k, sample) =~= output);
    }
}

/// Every run of samples has a stable sort by descending count.
pub proof fn lemma_stable_sort_exists<K>(input: Seq<Sample<K>>) -> (witness: (Seq<int>, Seq<int>))
    ensures
        sorts_by(input, sorted_descending(input), witness.0, witness.1),
        is_stable_descending_sort(input, sorted_descending(input)),
    decreases input.len(),
{
    let none = Seq::<int>::empty();
    if input.len() == 0 {
        assert(sorts_by(input, sorted_descending(input), none, none));
        (none, none)
    } else {
        let m = input.len() - 1;
        let front = input.drop_last();
        let sample = input.last();
        let (origin1, place1) = lemma_stable_sort_exists(front);
        let output1 = sorted_descending(front);
        lemma_sorted_descending(front, |sample: Sample<K>| true);
        let k = lemma_insert_sorted_shape(output1, sample);
        let output = output1.insert(k, sample);
        let origin = origin1.insert(k, m);
        let place = Seq::new(
            input.len(),
            |j: int|
                if j == m {
                    k
                } else if place1[j] < k {
                    place1[j]
                } else {
                    place1[j] + 1
                },
        );
        assert forall|i: int| 0 <= i < output.len() implies 0 <= (#[trigger] origin[i])
            < input.len() && output[i] == input[origin[i]] by {
            if i < k {
                assert(origin[i] == origin1[i]);
                assert(output[i] == output1[i]);
                assert(front[origin1[i]] == input[origin1[i]]);
            } else if i > k {
                assert(origin[i] == origin1[i - 1]);
                assert(output[i] == output1[i - 1]);
                assert(front[origin1[i - 1]] == input[origin1[i - 1]]);
            }
        }
        assert forall|j: int| 0 <= j < input.len() implies 0 <= (#[trigger] place[j]) < output.len()
            && origin[place[j]] == j by {
            if j < m {
                assert(origin1[place1[j]] == j);
            }
        }
        assert forall|i: int, j: int| 0 <= i < j < output.len() implies (
        #[trigger] output[i]).1 >= (#[trigger] output[j]).1 by {
            let i0 = if i < k { i } else { i - 1 };
            let j0 = if j < k { j } else { j - 1 };
            if i == k {
                assert(output[j] == output1[j0]);
            } else if j == k {
                assert(output[i] == output1[i0]);
                if i0 < k - 1 {
                    assert(output1[i0].1 >= output1[k - 1].1);
                }
            } else {
                assert(output[i] == output1[i0]);
                assert(output[j] == output1[j0]);
            }
        }
        assert forall|i: int, j: int|
            0 <= i < j < output.len() && output[i].1 == output[j].1 implies (#[trigger] origin[i])
            < (#[trigger] origin[j]) by {
            let i0 = if i < k { i } else { i - 1 };
            let j0 = if j < k { j } else { j - 1 };
            if i == k {
                // Behind the new sample stand smaller ones only.
                assert(output[j] == output1[j0]);
                assert(output1[j0].1 < sample.1);
            } else if j == k {
                assert(origin[i] == origin1[i0]);
            } else {
                assert(output[i] == output1[i0]);
                assert(output[j] == output1[j0]);
                assert(origin[i] == origin1[i0]);
                assert(origin[j] == origin1[j0]);
            }
        }
        assert(sorts_by(input, sorted_descending(input), origin, place));
        (origin, place)
    }
}

/// The samples in descending order of their counts, samples with equal
/// counts in the order they came in.
pub fn sort_descending<K>(samples: Vec<Sample<K>>) -> (sorted: Vec<Sample<K>>)
    ensures
        sorted@ == sorted_descending(samples@),
{
    let sorted = sorted_by_count(samples);
    proof {
        let (origin, place) = choose|origin: Seq<int>, place: Seq<int>|
            sorts_by(samples@, sorted@, origin, place);
        lemma_stable_sort_is_unique(samples@, sorted@, origin, place);
    }
    sorted
}

} // verus!
