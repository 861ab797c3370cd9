//! The run over the samples of one repository: what is done next, and what a
//! failure ends.
//!
//! Every sample is checked out and then analysed and stored. A checkout that
//! fails ends the run of the repository, since its working tree cannot be
//! relied on any more. A snapshot that cannot be stored is given up, and the run
//! goes on with the next sample.

use crate::timeline::Sample;
use vstd::prelude::*;

verus! {

/// What is done next for a repository.
#[derive(Clone, Copy, Debug, PartialEq, Eq, Structural)]
pub enum Task {
    /// Check out the commit of this sample.
    Checkout(Sample),
    /// Analyse the working tree for this sample and store the snapshot.
    Store(Sample),
    /// Nothing: the run is over.
    Finished,
}

/// Where a run stands: the sample it is at, and whether that sample is checked
/// out.
pub struct Progress {
    /// The position of the sample that is worked on; the number of samples when
    /// the run is over.
    pub at: nat,
    /// Whether the commit of that sample is checked out.
    pub checked_out: bool,
    /// How many snapshots are stored.
    pub stored: nat,
}

/// What is done next at a point of a run over `samples`.
pub open spec fn task_at(samples: Seq<Sample>, progress: Progress) -> Task {
    if progress.at >= samples.len() {
        Task::Finished
    } else if progress.checked_out {
        Task::Store(samples[progress.at as int])
    } else {
        Task::Checkout(samples[progress.at as int])
    }
}

/// Where a run over `samples` stands after the task at hand went well (`ok`) or
/// failed.
pub open spec fn progress_after(samples: Seq<Sample>, progress: Progress, ok: bool) -> Progress {
    if progress.at >= samples.len() {
        progress
    } else if progress.checked_out {
        Progress {
            at: progress.at + 1,
            checked_out: false,
            stored: if ok {
                progress.stored + 1
            } else {
                progress.stored
            },
        }
    } else if ok {
        Progress { at: progress.at, checked_out: true, stored: progress.stored }
    } else {
        Progress { at: samples.len(), checked_out: false, stored: progress.stored }
    }
}

/// The run over the samples of one repository.
#[derive(Debug)]
pub struct RepositoryRun {
    samples: Vec<Sample>,
    at: usize,
    checked_out: bool,
    stored: usize,
}

impl RepositoryRun {
    #[verifier::type_invariant]
    spec fn valid(self) -> bool {
        &&& self.at <= self.samples@.len()
        &&& self.stored <= self.at
        &&& self.checked_out ==> self.at < self.samples@.len()
    }

    /// The samples of the repository.
    pub closed spec fn samples(self) -> Seq<Sample> {
        self.samples@
    }

    /// Where the run stands.
    pub closed spec fn progress(self) -> Progress {
        Progress {
            at: self.at as nat,
            checked_out: self.checked_out,
            stored: self.stored as nat,
        }
    }

    /// A run that has all of the samples before it.
    pub fn new(samples: Vec<Sample>) -> (run: RepositoryRun)
        ensures
            run.samples() == samples@,
            run.progress() == (Progress { at: 0, checked_out: false, stored: 0 }),
    {
        RepositoryRun { samples, at: 0, checked_out: false, stored: 0 }
    }

    /// What is done next.
    pub fn task(&self) -> (task: Task)
        ensures
            task == task_at(self.samples(), self.progress()),
    {
        proof {
            use_type_invariant(self);
        }
        if self.at >= self.samples.len() {
            Task::Finished
        } else if self.checked_out {
            Task::Store(self.samples[self.at])
        } else {
            Task::Checkout(self.samples[self.at])
        }
    }

    /// Takes note of how the task at hand ended.
    pub fn advance(&mut self, ok: bool)
        ensures
            final(self).samples() == old(self).samples(),
            final(self).progress() == progress_after(old(self).samples(), old(self).progress(), ok),
    {
        proof {
            use_type_invariant(&*self);
        }
        if self.at >= self.samples.len() {
        } else if self.checked_out {
            self.checked_out = false;
            self.at = self.at + 1;
            if ok {
                self.stored = self.stored + 1;
            }
        } else if ok {
            self.checked_out = true;
        } else {
            self.at = self.samples.len();
        }
    }

    /// How many snapshots are stored.
    pub fn stored(&self) -> (n: usize)
        ensures
            n == self.progress().stored,
    {
        self.stored
    }
}

/// Where a run stands after the tasks that follow end as `results` say, one
/// after the other.
pub open spec fn progress_reached(samples: Seq<Sample>, progress: Progress, results: Seq<bool>) -> Progress
    decreases results.len(),
{
    if results.len() == 0 {
        progress
    } else {
        progress_reached(samples, progress_after(samples, progress, results[0]), results.skip(1))
    }
}

/// A run that is over stays over, with what it has stored.
pub proof fn lemma_finished_is_final(samples: Seq<Sample>, progress: Progress, results: Seq<bool>)
    requires
        progress.at >= samples.len(),
    ensures
        progress_reached(samples, progress, results) == progress,
    decreases results.len(),
{
    if results.len() > 0 {
        lemma_finished_is_final(samples, progress, results.skip(1));
    }
}

/// A checkout that fails ends the run of the repository: nothing is checked out
/// or stored after it.
pub proof fn lemma_failed_checkout_ends_run(
    samples: Seq<Sample>,
    progress: Progress,
    results: Seq<bool>,
)
    requires
        progress.at < samples.len(),
        !progress.checked_out,
        results.len() > 0,
        !results[0],
    ensures
        task_at(samples, progress_reached(samples, progress, results)) == Task::Finished,
        progress_reached(samples, progress, results).stored == progress.stored,
{
    lemma_finished_is_final(samples, progress_after(samples, progress, false), results.skip(1));
}

/// A snapshot that cannot be stored does not end the run: the next sample is
/// checked out, if there is one.
pub proof fn lemma_failed_store_goes_on(samples: Seq<Sample>, progress: Progress)
    requires
        progress.at < samples.len(),
        progress.checked_out,
    ensures
        task_at(samples, progress_after(samples, progress, false)) == if progress.at + 1
            < samples.len() {
            Task::Checkout(samples[progress.at as int + 1])
        } else {
            Task::Finished
        },
        progress_after(samples, progress, false).stored == progress.stored,
{
}

} // verus!
