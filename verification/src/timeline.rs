//! Reduction of a commit history to one sampled commit per calendar month.
//!
//! The commits of a repository are visited from the newest to the oldest. Every
//! month bucket of the requested range, from the last one down, is represented by
//! the first visited commit that was made in that month or before it: a commit
//! stands for its own month and for every later month without commits of its own.
//! Buckets older than every commit get no sample.

use crate::calendar::{bucket_at, bucket_of, commit_bucket, month_bucket};
use vstd::prelude::*;

verus! {

/// One sampled month: the bucket, and the position in visiting order of the
/// commit that represents it.
#[derive(Clone, Copy, Debug, PartialEq, Eq, Structural)]
pub struct Sample {
    pub bucket: u64,
    pub commit: usize,
}

/// Whether some commit was made in `bucket` or before it.
pub open spec fn eligible(commits: Seq<u64>, bucket: int) -> bool {
    exists|i: int| 0 <= i < commits.len() && commits[i] <= bucket
}

/// The position of the first visited commit made in `bucket` or before it;
/// `commits.len()` if there is none.
pub open spec fn representative(commits: Seq<u64>, bucket: int) -> int
    decreases commits.len(),
{
    if commits.len() == 0 {
        0
    } else if commits[0] <= bucket {
        0
    } else {
        1 + representative(commits.skip(1), bucket)
    }
}

/// The bucket of the oldest month that holds a commit (`0` for an empty history).
pub open spec fn oldest(commits: Seq<u64>) -> int
    decreases commits.len(),
{
    if commits.len() == 0 {
        0
    } else if commits.len() == 1 {
        commits[0] as int
    } else {
        let rest = oldest(commits.drop_last());
        if commits.last() < rest {
            commits.last() as int
        } else {
            rest
        }
    }
}

/// How many buckets of `start ..= end` get a sample: those from `end` down to the
/// oldest commit's month, or down to `start` if the history reaches further back.
pub open spec fn sample_count(commits: Seq<u64>, start: int, end: int) -> nat {
    if commits.len() == 0 || end < start || oldest(commits) > end {
        0
    } else if oldest(commits) > start {
        (end - oldest(commits) + 1) as nat
    } else {
        (end - start + 1) as nat
    }
}

/// The sample of the bucket `k` months before `end`.
pub open spec fn sample_at(commits: Seq<u64>, end: int, k: int) -> Sample {
    Sample { bucket: (end - k) as u64, commit: representative(commits, end - k) as usize }
}

/// The samples of a history for the range `start ..= end`, highest bucket first.
pub open spec fn samples(commits: Seq<u64>, start: int, end: int) -> Seq<Sample> {
    Seq::new(sample_count(commits, start, end), |k: int| sample_at(commits, end, k))
}

/// The first commit at or before a bucket is the one that no earlier commit
/// at or before that bucket precedes.
pub proof fn lemma_representative_is(commits: Seq<u64>, bucket: int, i: int)
    requires
        0 <= i < commits.len(),
        commits[i] <= bucket,
        forall|j: int| 0 <= j < i ==> commits[j] > bucket,
    ensures
        representative(commits, bucket) == i,
    decreases commits.len(),
{
    if i > 0 {
        let rest = commits.skip(1);
        assert forall|j: int| 0 <= j < i - 1 implies rest[j] > bucket by {
            assert(rest[j] == commits[j + 1]);
        }
        lemma_representative_is(rest, bucket, i - 1);
    }
}

/// The representative of a bucket is a commit at or before it, the first such,
/// exactly when the bucket is eligible; otherwise it is `commits.len()`.
pub proof fn lemma_representative(commits: Seq<u64>, bucket: int)
    ensures
        0 <= representative(commits, bucket) <= commits.len(),
        eligible(commits, bucket) <==> representative(commits, bucket) < commits.len(),
        representative(commits, bucket) < commits.len() ==> commits[representative(
            commits,
            bucket,
        )] <= bucket,
        forall|j: int| 0 <= j < representative(commits, bucket) ==> commits[j] > bucket,
    decreases commits.len(),
{
    if commits.len() > 0 && commits[0] > bucket {
        let rest = commits.skip(1);
        lemma_representative(rest, bucket);
        let r = representative(rest, bucket);
        assert forall|j: int| 0 <= j < r + 1 implies commits[j] > bucket by {
            if j > 0 {
                assert(rest[j - 1] == commits[j]);
            }
        }
        if r < rest.len() {
            assert(rest[r] == commits[r + 1]);
        }
        if eligible(commits, bucket) {
            let i = choose|i: int| 0 <= i < commits.len() && commits[i] <= bucket;
            assert(rest[i - 1] == commits[i]);
        }
    }
}

/// No commit is older than the oldest, and in a history that is not empty some
/// commit was made in the oldest month.
pub proof fn lemma_oldest(commits: Seq<u64>)
    ensures
        forall|i: int| 0 <= i < commits.len() ==> oldest(commits) <= commits[i],
        commits.len() > 0 ==> exists|i: int| 0 <= i < commits.len() && commits[i] == oldest(commits),
    decreases commits.len(),
{
    if commits.len() > 1 {
        let front = commits.drop_last();
        lemma_oldest(front);
        assert forall|i: int| 0 <= i < commits.len() implies oldest(commits) <= commits[i] by {
            if i < front.len() {
                assert(front[i] == commits[i]);
            }
        }
        let w = choose|i: int| 0 <= i < front.len() && front[i] == oldest(front);
        assert(front[w] == commits[w]);
        if commits.last() < oldest(front) {
            assert(commits[commits.len() - 1] == oldest(commits));
        } else {
            assert(commits[w] == oldest(commits));
        }
    } else if commits.len() == 1 {
        assert(commits[0] == oldest(commits));
    }
}

/// A bucket is eligible exactly when it is not older than the oldest commit.
pub proof fn lemma_eligible_from_oldest(commits: Seq<u64>, bucket: int)
    ensures
        eligible(commits, bucket) <==> commits.len() > 0 && oldest(commits) <= bucket,
{
    lemma_oldest(commits);
}

/// Whether the commits are in visiting order by month: no commit is followed by
/// one of a later month.
pub open spec fn newest_first(commits: Seq<u64>) -> bool {
    forall|i: int, j: int| 0 <= i <= j < commits.len() ==> commits[i] >= commits[j]
}

/// Determinism: histories that hold the same months in the same order have the
/// same samples for the same range.
pub proof fn lemma_same_history_same_samples(
    first: Seq<u64>,
    second: Seq<u64>,
    start: u64,
    end: u64,
)
    requires
        first.len() == second.len(),
        forall|i: int| 0 <= i < first.len() ==> first[i] == second[i],
    ensures
        samples(first, start as int, end as int) == samples(second, start as int, end as int),
{
    assert(first =~= second);
}

/// Completeness: a bucket has a sample exactly when it lies in the range and some
/// commit was made in it or before it; no two samples share a bucket; and the
/// commit of a sample is the first visited commit at or before the sample's bucket.
pub proof fn lemma_one_sample_per_eligible_bucket(commits: Seq<u64>, start: u64, end: u64)
    requires
        commits.len() <= usize::MAX,
    ensures
        forall|b: int|
            (start <= b <= end && eligible(commits, b)) <==> (exists|k: int|
                0 <= k < samples(commits, start as int, end as int).len() && #[trigger] samples(
                    commits,
                    start as int,
                    end as int,
                )[k].bucket == b),
        forall|k: int, l: int|
            0 <= k < l < samples(commits, start as int, end as int).len() ==> samples(
                commits,
                start as int,
                end as int,
            )[k].bucket > samples(commits, start as int, end as int)[l].bucket,
        forall|k: int|
            0 <= k < samples(commits, start as int, end as int).len() ==> {
                let s = #[trigger] samples(commits, start as int, end as int)[k];
                &&& s.commit == representative(commits, s.bucket as int)
                &&& s.commit < commits.len()
                &&& commits[s.commit as int] <= s.bucket
            },
{
    let out = samples(commits, start as int, end as int);
    lemma_oldest(commits);
    assert forall|k: int| 0 <= k < out.len() implies {
        let s = #[trigger] out[k];
        &&& s.bucket == end - k
        &&& eligible(commits, end - k)
        &&& s.commit == representative(commits, s.bucket as int)
        &&& s.commit < commits.len()
        &&& commits[s.commit as int] <= s.bucket
    } by {
        lemma_eligible_from_oldest(commits, end - k);
        lemma_representative(commits, end - k);
    }
    assert forall|b: int| (start <= b <= end && eligible(commits, b)) <==> (exists|k: int|
        0 <= k < out.len() && #[trigger] out[k].bucket == b) by {
        lemma_eligible_from_oldest(commits, b);
        if start <= b <= end && eligible(commits, b) {
            assert(out[end - b].bucket == b);
        }
    }
}

/// Carry-forward: when no commit was made in `month` but one was made in the
/// month before, and both months lie in the range, the two months are sampled
/// with one and the same commit, made before `month`; in a history that is
/// visited newest first it is a commit of the month before.
pub proof fn lemma_carry_forward(commits: Seq<u64>, start: u64, end: u64, month: u64)
    requires
        commits.len() <= usize::MAX,
        start < month <= end,
        forall|i: int| 0 <= i < commits.len() ==> commits[i] != month,
        exists|i: int| 0 <= i < commits.len() && commits[i] == month - 1,
    ensures
        end - month + 1 < samples(commits, start as int, end as int).len(),
        samples(commits, start as int, end as int)[end - month].bucket == month,
        samples(commits, start as int, end as int)[end - month + 1].bucket == month - 1,
        samples(commits, start as int, end as int)[end - month].commit == samples(
            commits,
            start as int,
            end as int,
        )[end - month + 1].commit,
        samples(commits, start as int, end as int)[end - month].commit < commits.len(),
        commits[samples(commits, start as int, end as int)[end - month].commit as int] < month,
        newest_first(commits) ==> commits[samples(
            commits,
            start as int,
            end as int,
        )[end - month].commit as int] == month - 1,
{
    let w = choose|i: int| 0 <= i < commits.len() && commits[i] == month - 1;
    lemma_oldest(commits);
    lemma_representative(commits, month as int);
    lemma_representative(commits, month - 1);
    let r = representative(commits, month - 1);
    assert(eligible(commits, month - 1));
    lemma_representative_is(commits, month as int, r);
    if newest_first(commits) {
        assert(r <= w);
    }
}

/// What is left to do while a history is walked: the first bucket of the range
/// and the highest bucket that has no sample yet.
pub struct Timeline {
    start: u64,
    target: u64,
    exhausted: bool,
}

/// What the walk does with the commit it was offered.
#[derive(Clone, Copy, Debug, PartialEq, Eq, Structural)]
pub enum Step {
    /// The commit represents this bucket: check it out, sample it, and offer the
    /// same commit again.
    Sample(u64),
    /// The commit is newer than the highest bucket that is still open: go on to
    /// the next commit.
    Skip,
    /// Every bucket of the range has its sample: the walk is over.
    Finished,
}

impl Timeline {
    #[verifier::type_invariant]
    spec fn valid(self) -> bool {
        !self.exhausted ==> self.start <= self.target
    }

    /// The first bucket of the range.
    pub closed spec fn start(self) -> int {
        self.start as int
    }

    /// The highest bucket without a sample; `start() - 1` when none is left.
    pub closed spec fn target(self) -> int {
        if self.exhausted {
            self.start - 1
        } else {
            self.target as int
        }
    }

    /// A walk over the range `start ..= end`, which is empty when `end < start`.
    pub fn new(start: u64, end: u64) -> (t: Timeline)
        ensures
            t.start() == start,
            t.target() == if end < start { start - 1 } else { end as int },
    {
        Timeline { start, target: end, exhausted: end < start }
    }

    /// Whether every bucket of the range has its sample.
    pub fn is_finished(&self) -> (b: bool)
        ensures
            b == (self.target() < self.start()),
    {
        proof {
            use_type_invariant(self);
        }
        self.exhausted
    }

    /// Decides what the next visited commit, made in month `commit`, is for.
    ///
    /// While the commit is not newer than the highest open bucket it represents
    /// that bucket, which is then closed; a newer commit is passed over.
    pub fn offer(&mut self, commit: u64) -> (step: Step)
        ensures
            final(self).start() == old(self).start(),
            old(self).target() < old(self).start() ==> step == Step::Finished
                && final(self).target() == old(self).target(),
            old(self).start() <= old(self).target() < commit ==> step == Step::Skip
                && final(self).target() == old(self).target(),
            old(self).start() <= old(self).target() && commit <= old(self).target() ==> step
                == Step::Sample(old(self).target() as u64)
                && final(self).target() == old(self).target() - 1,
    {
        proof {
            use_type_invariant(&*self);
        }
        if self.exhausted {
            Step::Finished
        } else if commit <= self.target {
            let bucket = self.target;
            if self.target == self.start {
                self.exhausted = true;
            } else {
                self.target = self.target - 1;
            }
            Step::Sample(bucket)
        } else {
            Step::Skip
        }
    }
}

/// Walks a whole history: `commits` holds the month bucket of every commit in
/// visiting order, newest first. Returns the samples for the range
/// `start ..= end`, highest bucket first.
pub fn sample_months(commits: &Vec<u64>, start: u64, end: u64) -> (out: Vec<Sample>)
    ensures
        out@ == samples(commits@, start as int, end as int),
{
    let mut walk = Timeline::new(start, end);
    let mut out: Vec<Sample> = Vec::new();
    let mut i: usize = 0;
    let ghost top: int = if end < start { start - 1 } else { end as int };
    while i < commits.len()
        invariant
            0 <= i <= commits.len(),
            walk.start() == start,
            start - 1 <= walk.target() <= top,
            top == if end < start { start - 1 } else { end as int },
            out@.len() == top - walk.target(),
            forall|k: int| 0 <= k < out@.len() ==> out@[k] == sample_at(commits@, end as int, k),
            start <= walk.target() ==> forall|j: int| 0 <= j < i ==> commits@[j] > walk.target(),
            walk.target() < top ==> eligible(commits@, walk.target() + 1),
        decreases commits.len() - i,
    {
        let commit = commits[i];
        loop
            invariant
                0 <= i < commits.len(),
                commit == commits@[i as int],
                walk.start() == start,
                start - 1 <= walk.target() <= top,
                top == if end < start { start - 1 } else { end as int },
                out@.len() == top - walk.target(),
                forall|k: int| 0 <= k < out@.len() ==> out@[k] == sample_at(commits@, end as int, k),
                start <= walk.target() ==> forall|j: int| 0 <= j < i ==> commits@[j] > walk.target(),
                walk.target() < top ==> eligible(commits@, walk.target() + 1),
            ensures
                walk.target() < start || commit > walk.target(),
            decreases walk.target() - start + 1,
        {
            match walk.offer(commit) {
                Step::Sample(bucket) => {
                    proof {
                        lemma_representative_is(commits@, bucket as int, i as int);
                    }
                    out.push(Sample { bucket, commit: i });
                },
                _ => {
                    break ;
                },
            }
        }
        i = i + 1;
    }
    proof {
        let t = walk.target();
        lemma_oldest(commits@);
        if t < top {
            lemma_eligible_from_oldest(commits@, t + 1);
        }
        if start <= t {
            assert(commits@.len() > 0 ==> oldest(commits@) > t);
        }
        assert(out@.len() == sample_count(commits@, start as int, end as int));
        assert(out@ =~= samples(commits@, start as int, end as int));
    }
    out
}

/// Whether the calendar covers the times of all commits.
pub open spec fn all_dated(times: Seq<i64>) -> bool {
    forall|i: int| 0 <= i < times.len() ==> bucket_at(#[trigger] times[i] as int) is Some
}

/// The month buckets of commits made at the given times.
pub open spec fn buckets_at(times: Seq<i64>) -> Seq<u64> {
    Seq::new(times.len(), |i: int| bucket_at(times[i] as int).unwrap())
}

/// The month buckets of commits made at the given times, in seconds since the
/// Unix epoch; `None` if the calendar does not cover one of the times.
pub fn commit_buckets(times: &Vec<i64>) -> (buckets: Option<Vec<u64>>)
    ensures
        buckets is Some <==> all_dated(times@),
        buckets matches Some(b) ==> b@ == buckets_at(times@),
{
    let mut buckets: Vec<u64> = Vec::new();
    let mut i: usize = 0;
    while i < times.len()
        invariant
            0 <= i <= times.len(),
            buckets@.len() == i,
            forall|j: int| 0 <= j < i ==> bucket_at(#[trigger] times@[j] as int) == Some(buckets@[j]),
        decreases times.len() - i,
    {
        match commit_bucket(times[i]) {
            Some(b) => {
                buckets.push(b);
            },
            None => {
                return None;
            },
        }
        i = i + 1;
    }
    proof {
        assert(buckets@ =~= buckets_at(times@));
    }
    Some(buckets)
}

/// Samples the history of a repository: `times` holds the time of every commit
/// in visiting order, newest first, and the range runs from the month `start`
/// to the month `end`, each given as a month counted from 0 and a year. Returns
/// the samples, highest bucket first; `None` if the calendar does not cover the
/// time of one of the commits.
pub fn run_versions(times: &Vec<i64>, start: (u32, u32), end: (u32, u32)) -> (out: Option<
    Vec<Sample>,
>)
    ensures
        out is Some <==> all_dated(times@),
        out matches Some(s) ==> s@ == samples(
            buckets_at(times@),
            month_bucket(start.1, start.0) as int,
            month_bucket(end.1, end.0) as int,
        ),
{
    let starting_idx = bucket_of(start.1, start.0);
    let ending_idx = bucket_of(end.1, end.0);
    match commit_buckets(times) {
        Some(buckets) => Some(sample_months(&buckets, starting_idx, ending_idx)),
        None => None,
    }
}

} // verus!
