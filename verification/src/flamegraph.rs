//! The input of a flame graph: which call paths to show, and each as a
//! line of text.

use crate::callsite::{CallSiteId, FunctionLocations};
use crate::linecache::LineCacher;
use crate::memorytracking::{all_known, callstack_text, Callstack};
use crate::sorting::{
    is_descending, lemma_sorted_descending, sort_descending, sorted_descending, sum_counts, Sample,
};
use crate::text::{decimal, push_decimal};
use std::borrow::Cow;
use vstd::prelude::*;
use vstd::string::StringExecFns;

verus! {

/// No more call paths than this are shown: more overburdens whatever draws
/// and displays the picture.
pub const MAX_CALLSTACKS: usize = 10_000;

/// Once the samples shown are more than 99% of all, at most this many call
/// paths are shown, so that there is some context.
pub const MIN_CALLSTACKS: usize = 100;

/// The samples with a count above zero, in their order.
pub open spec fn nonzero<K>(samples: Seq<Sample<K>>) -> Seq<Sample<K>>
    decreases samples.len(),
{
    if samples.len() == 0 {
        Seq::<Sample<K>>::empty()
    } else if samples.last().1 > 0 {
        nonzero(samples.drop_last()).push(samples.last())
    } else {
        nonzero(samples.drop_last())
    }
}

/// The count above which the samples shown are more than 99% of
/// `total_samples`.
pub open spec fn threshold(total_samples: int) -> int {
    (total_samples * 99) / 100
}

/// Whether the sample at `j` of the sorted samples is shown, given that
/// those before it are: it is among the first 10,000, and it is among the
/// first 100 or those before it are no more than 99% of all.
pub open spec fn shows<K>(sorted: Seq<Sample<K>>, total_samples: int, j: int) -> bool {
    j < MAX_CALLSTACKS && (j < MIN_CALLSTACKS || sum_counts(sorted.take(j)) <= threshold(
        total_samples,
    ))
}

/// Index, from `j` on, of the first sample that is not shown; the number of
/// samples where all are shown.
pub open spec fn shown_from<K>(sorted: Seq<Sample<K>>, total_samples: int, j: int) -> int
    decreases sorted.len() - j,
{
    if j < 0 || j >= sorted.len() || !shows(sorted, total_samples, j) {
        j
    } else {
        shown_from(sorted, total_samples, j + 1)
    }
}

/// The call paths that are worth showing: those with samples, largest
/// first, up to the first that is not shown.
pub open spec fn useful_callstacks<K>(samples: Seq<Sample<K>>, total_samples: int) -> Seq<
    Sample<K>,
> {
    let sorted = sorted_descending(nonzero(samples));
    sorted.take(shown_from(sorted, total_samples, 0))
}

/// The samples with a count above zero, in their order.
pub fn drop_empty<K>(samples: Vec<Sample<K>>) -> (present: Vec<Sample<K>>)
    ensures
        present@ == nonzero(samples@),
{
    let mut present: Vec<Sample<K>> = Vec::new();
    let ghost all = samples@;
    for sample in it: samples
        invariant
            it.seq() == all,
            present@ == nonzero(all.take(it.index() as int)),
    {
        proof {
            assert(all.take(it.index() + 1).drop_last() =~= all.take(it.index() as int));
            assert(all.take(it.index() + 1).last() == sample);
        }
        // Filter out callstacks with no samples:
        if sample.1 > 0 {
            present.push(sample);
        }
    }
    proof {
        assert(all.take(all.len() as int) =~= all);
    }
    present
}

/// The counts of a few samples add up to little.
pub proof fn lemma_sum_counts_bound<K>(samples: Seq<Sample<K>>)
    ensures
        0 <= sum_counts(samples) <= samples.len() * 0xffff_ffff_ffff_ffff,
    decreases samples.len(),
{
    if samples.len() > 0 {
        lemma_sum_counts_bound(samples.drop_last());
    }
}

/// Filter down to top 99% of samples.
///
/// 1. Empty samples are dropped.
/// 2. The samples are taken largest first, at most 10,000 of them.
/// 3. Taking stops once the samples taken are more than 99% of
///    `total_samples`, but not before 100 are taken: the goal is just to not
///    have a vast number of useless tiny allocations.
pub fn filter_to_useful_callstacks<K>(samples: Vec<Sample<K>>, total_samples: usize) -> (kept:
    Vec<Sample<K>>)
    ensures
        kept@ == useful_callstacks(samples@, total_samples as int),
{
    let present = drop_empty(samples);
    // Sort in descending size of sample:
    let mut sorted = sort_descending(present);
    let ghost all = sorted@;
    let limit: u128 = (total_samples as u128 * 99) / 100;
    // Keep track of how much total samples we've accumulated so far:
    let mut stored: u128 = 0;
    let mut taken: usize = 0;
    proof {
        assert(all.take(0) =~= Seq::<Sample<K>>::empty());
    }
    while taken < sorted.len() && taken < MAX_CALLSTACKS && !(stored > limit && taken
        >= MIN_CALLSTACKS)
        invariant
            sorted@ == all,
            taken <= sorted.len(),
            taken <= MAX_CALLSTACKS,
            limit == threshold(total_samples as int),
            stored == sum_counts(all.take(taken as int)),
            shown_from(all, total_samples as int, 0) == shown_from(
                all,
                total_samples as int,
                taken as int,
            ),
        decreases sorted.len() - taken,
    {
        proof {
            assert(all.take(taken + 1).drop_last() =~= all.take(taken as int));
            assert(all.take(taken + 1).last() == all[taken as int]);
            lemma_sum_counts_bound(all.take(taken + 1));
        }
        stored = stored + sorted[taken].1 as u128;
        taken = taken + 1;
    }
    sorted.truncate(taken);
    sorted
}

/// Dropping the empty samples leaves samples that all count, in number no
/// more than before, with the same sum.
pub proof fn lemma_nonzero<K>(samples: Seq<Sample<K>>)
    ensures
        nonzero(samples).len() <= samples.len(),
        forall|i: int| 0 <= i < nonzero(samples).len() ==> (#[trigger] nonzero(samples)[i]).1 > 0,
        sum_counts(nonzero(samples)) == sum_counts(samples),
    decreases samples.len(),
{
    if samples.len() > 0 {
        lemma_nonzero(samples.drop_last());
        if samples.last().1 > 0 {
            assert(nonzero(samples).drop_last() =~= nonzero(samples.drop_last()));
        }
    }
}

/// Where the showing stops: every sample before is shown, and the sample
/// there, if there is one, is not.
pub proof fn lemma_shown_from<K>(sorted: Seq<Sample<K>>, total_samples: int, j: int)
    requires
        0 <= j <= sorted.len(),
    ensures
        j <= shown_from(sorted, total_samples, j) <= sorted.len(),
        forall|x: int|
            j <= x < shown_from(sorted, total_samples, j) ==> #[trigger] shows(
                sorted,
                total_samples,
                x,
            ),
        shown_from(sorted, total_samples, j) < sorted.len() ==> !shows(
            sorted,
            total_samples,
            shown_from(sorted, total_samples, j),
        ),
    decreases sorted.len() - j,
{
    if j < sorted.len() && shows(sorted, total_samples, j) {
        lemma_shown_from(sorted, total_samples, j + 1);
    }
}

/// The sum of descending counts without any one of them is no more than the
/// sum without the last.
pub proof fn lemma_sum_without_one<K>(samples: Seq<Sample<K>>, i: int)
    requires
        is_descending(samples),
        0 <= i < samples.len(),
    ensures
        sum_counts(samples) - samples[i].1 <= sum_counts(samples.drop_last()),
{
    if i < samples.len() - 1 {
        assert(samples[i].1 >= samples[samples.len() - 1].1);
    }
}

/// What holds of every sample holds of every call path that is shown.
pub proof fn lemma_useful_callstacks_keep<K>(
    samples: Seq<Sample<K>>,
    total_samples: int,
    holds: spec_fn(Sample<K>) -> bool,
)
    requires
        forall|i: int| 0 <= i < samples.len() ==> holds(#[trigger] samples[i]),
    ensures
        forall|i: int|
            0 <= i < useful_callstacks(samples, total_samples).len() ==> holds(
                #[trigger] useful_callstacks(samples, total_samples)[i],
            ),
{
    let present = nonzero(samples);
    let sorted = sorted_descending(present);
    lemma_nonzero_keeps(samples, holds);
    lemma_sorted_descending(present, holds);
    lemma_shown_from(sorted, total_samples, 0);
}

/// What holds of every sample holds of every sample that counts.
pub proof fn lemma_nonzero_keeps<K>(samples: Seq<Sample<K>>, holds: spec_fn(Sample<K>) -> bool)
    requires
        forall|i: int| 0 <= i < samples.len() ==> holds(#[trigger] samples[i]),
    ensures
        forall|i: int| 0 <= i < nonzero(samples).len() ==> holds(#[trigger] nonzero(samples)[i]),
    decreases samples.len(),
{
    if samples.len() > 0 {
        let front = samples.drop_last();
        assert forall|i: int| 0 <= i < front.len() implies holds(#[trigger] front[i]) by {
            assert(front[i] == samples[i]);
        }
        lemma_nonzero_keeps(front, holds);
        assert(holds(samples[samples.len() - 1]));
        let kept = nonzero(samples);
        assert forall|i: int| 0 <= i < kept.len() implies holds(#[trigger] kept[i]) by {
            if i < nonzero(front).len() {
                assert(kept[i] == nonzero(front)[i]);
            } else {
                assert(kept[i] == samples.last());
            }
        }
    }
}

/// No call path without samples is shown.
pub proof fn lemma_useful_callstacks_have_samples<K>(samples: Seq<Sample<K>>, total_samples: int)
    ensures
        forall|i: int|
            0 <= i < useful_callstacks(samples, total_samples).len() ==> (
            #[trigger] useful_callstacks(samples, total_samples)[i]).1 > 0,
{
    let present = nonzero(samples);
    let sorted = sorted_descending(present);
    lemma_nonzero(samples);
    lemma_sorted_descending(present, |sample: Sample<K>| sample.1 > 0);
    lemma_shown_from(sorted, total_samples, 0);
}

/// No more than 10,000 call paths are shown.
pub proof fn lemma_useful_callstacks_are_few<K>(samples: Seq<Sample<K>>, total_samples: int)
    ensures
        useful_callstacks(samples, total_samples).len() <= MAX_CALLSTACKS,
        useful_callstacks(samples, total_samples).len() <= samples.len(),
{
    let present = nonzero(samples);
    let sorted = sorted_descending(present);
    lemma_nonzero(samples);
    lemma_sorted_descending(present, |sample: Sample<K>| true);
    lemma_shown_from(sorted, total_samples, 0);
    let n = shown_from(sorted, total_samples, 0);
    if n > 0 {
        assert(shows(sorted, total_samples, n - 1));
    }
}

/// Where `total_samples` is the sum of all the counts and the call paths
/// shown have less than 99% of it, exactly 10,000 call paths are shown.
pub proof fn lemma_useful_callstacks_cover_total<K>(samples: Seq<Sample<K>>, total_samples: int)
    requires
        total_samples == sum_counts(samples),
        100 * sum_counts(useful_callstacks(samples, total_samples)) < 99 * total_samples,
    ensures
        useful_callstacks(samples, total_samples).len() == MAX_CALLSTACKS,
{
    let present = nonzero(samples);
    let sorted = sorted_descending(present);
    lemma_nonzero(samples);
    lemma_sorted_descending(present, |sample: Sample<K>| true);
    lemma_shown_from(sorted, total_samples, 0);
    lemma_useful_callstacks_are_few(samples, total_samples);
    let n = shown_from(sorted, total_samples, 0);
    crate::flamegraph::lemma_sum_counts_bound(samples);
    if n == sorted.len() {
        assert(sorted.take(n) =~= sorted);
    }
}

/// Where more than 100 call paths are shown, those shown without any one
/// of them have no more than 99% of `total_samples`.
pub proof fn lemma_useful_callstacks_are_needed<K>(
    samples: Seq<Sample<K>>,
    total_samples: int,
    i: int,
)
    requires
        useful_callstacks(samples, total_samples).len() > MIN_CALLSTACKS,
        0 <= i < useful_callstacks(samples, total_samples).len(),
    ensures
        100 * (sum_counts(useful_callstacks(samples, total_samples)) - useful_callstacks(
            samples,
            total_samples,
        )[i].1) <= 99 * total_samples,
{
    let present = nonzero(samples);
    let sorted = sorted_descending(present);
    lemma_sorted_descending(present, |sample: Sample<K>| true);
    lemma_shown_from(sorted, total_samples, 0);
    let n = shown_from(sorted, total_samples, 0);
    let shown = sorted.take(n);
    assert(shows(sorted, total_samples, n - 1));
    assert(is_descending(shown)) by {
        assert forall|a: int, b: int| 0 <= a < b < shown.len() implies (#[trigger] shown[a]).1 >= (
        #[trigger] shown[b]).1 by {
            assert(shown[a] == sorted[a]);
            assert(shown[b] == sorted[b]);
        }
    }
    lemma_sum_without_one(shown, i);
    assert(shown.drop_last() =~= sorted.take(n - 1));
}

/// A strategy for cleaning up callstacks before rendering them to text.
pub trait CallstackCleaner {
    /// The frames that are shown for a call path with the frames `calls`:
    /// all of them, unless the strategy says otherwise.
    open spec fn cleaned(&self, calls: Seq<CallSiteId>) -> Seq<CallSiteId> {
        calls
    }

    /// The call path that is shown for `callstack`.
    fn cleanup<'a>(&self, callstack: &'a Callstack) -> (shown: Cow<'a, Callstack>)
        ensures
            shown@ == self.cleaned(callstack@),
    ;
}

/// Shows every call path as it is.
pub struct IdentityCleaner;

impl CallstackCleaner for IdentityCleaner {
    open spec fn cleaned(&self, calls: Seq<CallSiteId>) -> Seq<CallSiteId> {
        calls
    }

    fn cleanup<'a>(&self, callstack: &'a Callstack) -> (shown: Cow<'a, Callstack>) {
        Cow::Borrowed(callstack)
    }
}

/// The call path itself, to be shown as it is.
pub fn same_callstack(callstack: &Callstack) -> (shown: Cow<Callstack>)
    ensures
        shown@ == callstack@,
{
    Cow::Borrowed(callstack)
}

/// One line of a profile: the call path as text with `;` between its
/// frames, a space, and the count in decimal.
pub open spec fn profile_line<FL: FunctionLocations>(
    calls: Seq<CallSiteId>,
    count: usize,
    to_be_post_processed: bool,
    functions: &FL,
    runpy_path: Seq<char>,
    linecache: &LineCacher,
) -> Seq<char> {
    callstack_text(calls, to_be_post_processed, functions, ";"@, runpy_path, linecache) + " "@
        + decimal(count as nat)
}

/// One line of a profile.
pub fn to_line<FL: FunctionLocations>(
    callstack: &Callstack,
    count: usize,
    to_be_post_processed: bool,
    functions: &FL,
    runpy_path: &str,
    linecache: &LineCacher,
) -> (line: String)
    requires
        all_known(callstack@, functions),
    ensures
        line@ == profile_line(
            callstack@,
            count,
            to_be_post_processed,
            functions,
            runpy_path@,
            linecache,
        ),
{
    let mut line = callstack.as_string(to_be_post_processed, functions, ";", runpy_path, linecache);
    line.append(" ");
    push_decimal(&mut line, count);
    line
}

/// A source line: the name of its file, and its number.
pub type LineOfFile = (Seq<char>, usize);

/// The source lines that the text of a call path shows: for each of the
/// frames from `from` up to `to` that has a line, in the order of the
/// frames, its file and line.
pub open spec fn lines_shown<FL: FunctionLocations>(
    calls: Seq<CallSiteId>,
    functions: &FL,
    from: int,
    to: int,
) -> Seq<LineOfFile>
    decreases to - from,
{
    if to <= from || to > calls.len() || from < 0 {
        Seq::<LineOfFile>::empty()
    } else {
        let front = lines_shown(calls, functions, from, to - 1);
        let line = calls[to - 1].line_number.line();
        if line != 0 {
            front.push((functions.location(calls[to - 1].function).1, line as usize))
        } else {
            front
        }
    }
}

/// The data needed to create a flamegraph.
pub struct FlamegraphCallstacks<FL: FunctionLocations, UC: CallstackCleaner> {
    pub data: Vec<(Callstack, usize)>,
    pub functions: FL,
    pub callstack_cleaner: UC,
}

impl<FL: FunctionLocations, UC: CallstackCleaner> FlamegraphCallstacks<FL, UC> {
    /// Every frame that is shown names a function of the catalog.
    pub open spec fn wf(&self) -> bool {
        forall|i: int|
            0 <= i < self.data@.len() ==> all_known(
                self.callstack_cleaner.cleaned((#[trigger] self.data@[i]).0@),
                &self.functions,
            )
    }

    /// The lines of the profile, one for each call path of the data.
    pub open spec fn lines(
        &self,
        to_be_post_processed: bool,
        runpy_path: Seq<char>,
        linecache: &LineCacher,
    ) -> Seq<Seq<char>> {
        Seq::new(
            self.data@.len(),
            |i: int|
                profile_line(
                    self.callstack_cleaner.cleaned(self.data@[i].0@),
                    self.data@[i].1,
                    to_be_post_processed,
                    &self.functions,
                    runpy_path,
                    linecache,
                ),
        )
    }

    /// The source lines that the lines of the profile show where they are
    /// meant for a picture, for the first `n` call paths of the data.
    pub open spec fn source_lines_of(&self, runpy_path: Seq<char>, n: int) -> Seq<LineOfFile>
        decreases n,
    {
        if n <= 0 || n > self.data@.len() {
            Seq::<LineOfFile>::empty()
        } else {
            let calls = self.callstack_cleaner.cleaned(self.data@[n - 1].0@);
            self.source_lines_of(runpy_path, n - 1) + lines_shown(
                calls,
                &self.functions,
                crate::memorytracking::runpy_prefix(calls, &self.functions, runpy_path),
                calls.len() as int,
            )
        }
    }

    /// The source lines that the lines of the profile show where they are
    /// meant for a picture: for each call path of the data, in their order,
    /// the file and line of each frame that is shown and has a line. They
    /// are what the line cache is asked for.
    pub fn source_lines(&self, runpy_path: &str) -> (wanted: Vec<(String, usize)>)
        requires
            self.wf(),
        ensures
            wanted.deep_view() == self.source_lines_of(runpy_path@, self.data@.len() as int),
    {
        let mut wanted: Vec<(String, usize)> = Vec::new();
        let mut idx: usize = 0;
        proof {
            assert(wanted.deep_view() =~= Seq::<LineOfFile>::empty());
        }
        while idx < self.data.len()
            invariant
                idx <= self.data.len(),
                self.wf(),
                wanted.deep_view() == self.source_lines_of(runpy_path@, idx as int),
            decreases self.data.len() - idx,
        {
            let ghost before = wanted.deep_view();
            assert(all_known(
                self.callstack_cleaner.cleaned(self.data@[idx as int].0@),
                &self.functions,
            ));
            let shown = self.callstack_cleaner.cleanup(&self.data[idx].0);
            let calls = match shown {
                Cow::Borrowed(callstack) => callstack.to_vec(),
                Cow::Owned(callstack) => callstack.to_vec(),
            };
            let skip_prefix = crate::memorytracking::runpy_prefix_length(
                &calls,
                &self.functions,
                runpy_path,
            );
            let mut k: usize = skip_prefix;
            proof {
                assert(before + Seq::<LineOfFile>::empty() =~= before);
            }
            while k < calls.len()
                invariant
                    skip_prefix <= k <= calls.len(),
                    all_known(calls@, &self.functions),
                    wanted.deep_view() == before + lines_shown(
                        calls@,
                        &self.functions,
                        skip_prefix as int,
                        k as int,
                    ),
                decreases calls.len() - k,
            {
                let ghost front = lines_shown(
                    calls@,
                    &self.functions,
                    skip_prefix as int,
                    k as int,
                );
                let id = calls[k];
                let line = id.line_number.get_line_number();
                if line != 0 {
                    assert(self.functions.knows(calls@[k as int].function));
                    let (_, filename) = self.functions.get_function_and_filename(id.function);
                    let ghost so_far = wanted.deep_view();
                    wanted.push((filename.to_owned(), line as usize));
                    proof {
                        assert(wanted.deep_view() =~= so_far.push((filename@, line as usize)));
                        assert(before + front.push((filename@, line as usize)) =~= (before
                            + front).push((filename@, line as usize)));
                    }
                }
                k += 1;
            }
            idx += 1;
        }
        wanted
    }

    /// The data of a flame graph: call paths with their counts, the catalog
    /// that names their functions, and what cleans them up.
    pub fn new(data: Vec<(Callstack, usize)>, functions: FL, callstack_cleaner: UC) -> (graph: Self)
        ensures
            graph.data == data,
            graph.functions == functions,
            graph.callstack_cleaner == callstack_cleaner,
    {
        Self { data, functions, callstack_cleaner }
    }

    /// The lines of the profile, in the line-based format that flame graph
    /// tools parse: one line for each call path of the data, in their order.
    pub fn to_lines(
        &self,
        to_be_post_processed: bool,
        runpy_path: &str,
        linecache: &LineCacher,
    ) -> (lines: Vec<String>)
        requires
            self.wf(),
        ensures
            lines.deep_view() == self.lines(to_be_post_processed, runpy_path@, linecache),
    {
        let mut lines: Vec<String> = Vec::new();
        let mut idx: usize = 0;
        while idx < self.data.len()
            invariant
                idx <= self.data.len(),
                self.wf(),
                lines.deep_view() == self.lines(
                    to_be_post_processed,
                    runpy_path@,
                    linecache,
                ).take(idx as int),
            decreases self.data.len() - idx,
        {
            let ghost so_far = lines.deep_view();
            assert(all_known(
                self.callstack_cleaner.cleaned(self.data@[idx as int].0@),
                &self.functions,
            ));
            let shown = self.callstack_cleaner.cleanup(&self.data[idx].0);
            let count = self.data[idx].1;
            let line = match shown {
                Cow::Borrowed(callstack) => to_line(
                    callstack,
                    count,
                    to_be_post_processed,
                    &self.functions,
                    runpy_path,
                    linecache,
                ),
                Cow::Owned(callstack) => to_line(
                    &callstack,
                    count,
                    to_be_post_processed,
                    &self.functions,
                    runpy_path,
                    linecache,
                ),
            };
            lines.push(line);
            idx += 1;
            proof {
                assert(lines.deep_view() =~= so_far.push(line@));
                assert(lines.deep_view() =~= self.lines(
                    to_be_post_processed,
                    runpy_path@,
                    linecache,
                ).take(idx as int));
            }
        }
        proof {
            assert(self.lines(to_be_post_processed, runpy_path@, linecache).take(idx as int)
                =~= self.lines(to_be_post_processed, runpy_path@, linecache));
        }
        lines
    }
}

} // verus!
