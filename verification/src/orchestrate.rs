//! The retrieval orchestrator's state: one fetch per located archive, each
//! attempted exactly once, each failure recorded and isolated from its
//! siblings. Per archive: `Pending → Fetching → {Stored | FetchFailed}`,
//! and no archive re-enters `Fetching` within one run.

use vstd::prelude::*;
use crate::fetch::RetrievalError;
use crate::locate::{locate, ArchiveIdentifier, Date, HourRange};

verus! {

/// One archive's progress through a run.
#[derive(Clone, Copy, PartialEq, Eq, Structural, Debug)]
pub enum ArchiveStatus {
    Pending,
    Fetching,
    Stored,
    FetchFailed(RetrievalError),
}

/// The archive was attempted and will not be retried.
pub open spec fn terminal(s: ArchiveStatus) -> bool {
    s is Stored || s is FetchFailed
}

/// The hours whose fetch failed, in hour order, meaningful when the two
/// sequences pair up.
pub open spec fn failed_of(ids: Seq<ArchiveIdentifier>, sts: Seq<ArchiveStatus>) -> Seq<u8>
    decreases sts.len(),
{
    if sts.len() == 0 || ids.len() != sts.len() {
        Seq::empty()
    } else {
        failed_of(ids.drop_last(), sts.drop_last()) + if sts.last() is FetchFailed {
            seq![ids.last().hour]
        } else {
            Seq::empty()
        }
    }
}

/// The state of one retrieval run.
pub struct RetrievalRun {
    pub idents: Vec<ArchiveIdentifier>,
    pub status: Vec<ArchiveStatus>,
}

fn set_status(v: &mut Vec<ArchiveStatus>, i: usize, s: ArchiveStatus)
    requires
        i < old(v)@.len(),
    ensures
        final(v)@ == old(v)@.update(i as int, s),
{
    v.remove(i);
    v.insert(i, s);
    proof {
        assert(v@ =~= old(v)@.update(i as int, s));
    }
}

impl RetrievalRun {
    pub open spec fn wf(self) -> bool {
        &&& self.status@.len() == self.idents@.len()
        &&& forall|i: int| 0 <= i < self.idents@.len() ==> (#[trigger] self.idents@[i]).wf()
    }

    /// Plan one run: exactly one pending fetch per hour of the requested
    /// range, no duplicates and no gaps.
    pub fn new(date: Date, range: HourRange) -> (r: RetrievalRun)
        requires
            date.wf(),
            range.wf(),
        ensures
            r.wf(),
            r.idents@.len() == range.end as int - range.start as int,
            forall|i: int|
                0 <= i < r.idents@.len() ==> #[trigger] r.idents@[i] == (ArchiveIdentifier {
                    date,
                    hour: (range.start as int + i) as u8,
                }),
            forall|i: int| 0 <= i < r.status@.len() ==> r.status@[i] is Pending,
    {
        let idents = locate(date, range);
        let total = idents.len();
        let mut status: Vec<ArchiveStatus> = Vec::new();
        while status.len() < total
            invariant
                status@.len() <= total,
                forall|i: int| 0 <= i < status@.len() ==> status@[i] is Pending,
            decreases total - status@.len(),
        {
            status.push(ArchiveStatus::Pending);
        }
        RetrievalRun { idents, status }
    }

    /// Take one archive into flight. Only a pending archive may start, so
    /// none is attempted twice.
    pub fn begin_fetch(&mut self, i: usize)
        requires
            old(self).wf(),
            i < old(self).status@.len(),
            old(self).status@[i as int] is Pending,
        ensures
            final(self).wf(),
            final(self).idents == old(self).idents,
            final(self).status@ == old(self).status@.update(i as int, ArchiveStatus::Fetching),
    {
        set_status(&mut self.status, i, ArchiveStatus::Fetching);
    }

    /// Record one archive's outcome: stored, or failed with its error. Every
    /// other archive's status is untouched.
    pub fn finish_fetch(&mut self, i: usize, outcome: Result<(), RetrievalError>)
        requires
            old(self).wf(),
            i < old(self).status@.len(),
            old(self).status@[i as int] is Fetching,
        ensures
            final(self).wf(),
            final(self).idents == old(self).idents,
            final(self).status@ == old(self).status@.update(
                i as int,
                match outcome {
                    Ok(_) => ArchiveStatus::Stored,
                    Err(e) => ArchiveStatus::FetchFailed(e),
                },
            ),
    {
        match outcome {
            Ok(_) => set_status(&mut self.status, i, ArchiveStatus::Stored),
            Err(e) => set_status(&mut self.status, i, ArchiveStatus::FetchFailed(e)),
        }
    }

    /// The terminal condition: every archive was attempted exactly once.
    pub fn all_attempted(&self) -> (r: bool)
        ensures
            r == forall|i: int| 0 <= i < self.status@.len() ==> terminal(#[trigger] self.status@[i]),
    {
        let mut i: usize = 0;
        while i < self.status.len()
            invariant
                i <= self.status@.len(),
                forall|j: int| 0 <= j < i ==> terminal(#[trigger] self.status@[j]),
            decreases self.status@.len() - i,
        {
            match self.status[i] {
                ArchiveStatus::Stored => {},
                ArchiveStatus::FetchFailed(_) => {},
                _ => {
                    proof {
                        assert(!terminal(self.status@[i as int]));
                    }
                    return false;
                },
            }
            i = i + 1;
        }
        true
    }

    /// The report owed at the end of a run: which hours failed, in order.
    pub fn failed_hours(&self) -> (r: Vec<u8>)
        requires
            self.wf(),
        ensures
            r@ == failed_of(self.idents@, self.status@),
    {
        let mut out: Vec<u8> = Vec::new();
        let mut i: usize = 0;
        proof {
            assert(out@ =~= failed_of(self.idents@.take(0), self.status@.take(0)));
        }
        while i < self.status.len()
            invariant
                self.wf(),
                i <= self.status@.len(),
                out@ == failed_of(self.idents@.take(i as int), self.status@.take(i as int)),
            decreases self.status@.len() - i,
        {
            proof {
                assert(self.idents@.take(i as int + 1).drop_last() =~= self.idents@.take(i as int));
                assert(self.status@.take(i as int + 1).drop_last() =~= self.status@.take(i as int));
                assert(self.status@.take(i as int + 1).last() == self.status@[i as int]);
                assert(self.idents@.take(i as int + 1).last() == self.idents@[i as int]);
            }
            match self.status[i] {
                ArchiveStatus::FetchFailed(_) => {
                    out.push(self.idents[i].hour);
                    proof {
                        assert(out@ =~= failed_of(
                            self.idents@.take(i as int + 1),
                            self.status@.take(i as int + 1),
                        ));
                    }
                },
                _ => {
                    proof {
                        assert(out@ =~= failed_of(
                            self.idents@.take(i as int + 1),
                            self.status@.take(i as int + 1),
                        ));
                    }
                },
            }
            i = i + 1;
        }
        proof {
            assert(self.idents@.take(self.idents@.len() as int) =~= self.idents@);
            assert(self.status@.take(self.status@.len() as int) =~= self.status@);
        }
        out
    }
}

/// Law: one archive's failure is isolated. Recording a failed fetch leaves
/// every sibling archive's status exactly as it was, so the rest of the
/// range is still retrieved and the run still reaches its terminal
/// condition.
pub proof fn lemma_failure_isolated(
    before: RetrievalRun,
    after: RetrievalRun,
    i: int,
    e: RetrievalError,
)
    requires
        before.wf(),
        0 <= i < before.status@.len(),
        after.idents == before.idents,
        after.status@ == before.status@.update(i, ArchiveStatus::FetchFailed(e)),
    ensures
        after.wf(),
        after.status@.len() == before.status@.len(),
        forall|j: int|
            0 <= j < before.status@.len() && j != i ==> after.status@[j] == before.status@[j],
        terminal(after.status@[i]),
{
}

} // verus!
