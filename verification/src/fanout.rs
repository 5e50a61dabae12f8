//! The fan-out executor: one operation, run once per checkout, failures
//! isolated.
//!
//! The library decides the sequencing — which checkout is next, when a
//! divider line is due, what the aggregate outcome is — while the caller
//! spawns the processes and reports each result back. One checkout's failure
//! never stops the batch: every checkout is visited, and the invocation as a
//! whole fails exactly when at least one checkout failed.

use vstd::prelude::*;

use crate::paths::RepoPath;
use crate::registry::RepositoryEntry;

verus! {

/// Why a command failed in one checkout.
#[derive(Debug, Clone)]
pub struct CommandFailure {
    /// The command that was run.
    pub command: String,
    /// Its exit code, or `None` where it could not be spawned or was ended
    /// by a signal.
    pub exit_code: Option<i32>,
}

/// What running the operation in one checkout came to.
#[derive(Debug, Clone)]
pub struct ExecutionOutcome {
    /// The checkout the operation ran in.
    pub path: RepoPath,
    /// The failure, or `None` where the operation succeeded.
    pub failure: Option<CommandFailure>,
}

/// The collected outcomes of one fan-out run, one per visited checkout.
#[derive(Debug)]
pub struct InvocationReport {
    /// Per-checkout outcomes, in visiting order.
    pub outcomes: Vec<ExecutionOutcome>,
}

/// How many of the outcomes are failures.
pub open spec fn count_failures(s: Seq<ExecutionOutcome>) -> int
    decreases s.len(),
{
    if s.len() == 0 {
        0
    } else {
        count_failures(s.drop_last()) + if s.last().failure is Some {
            1int
        } else {
            0int
        }
    }
}

impl InvocationReport {
    /// The number of checkouts whose operation failed.
    pub fn failure_count(&self) -> (n: usize)
        ensures
            n == count_failures(self.outcomes@),
    {
        let mut n: usize = 0;
        let mut i: usize = 0;
        proof {
            assert(self.outcomes@.take(0) =~= Seq::<ExecutionOutcome>::empty());
        }
        while i < self.outcomes.len()
            invariant
                i <= self.outcomes.len(),
                n as int == count_failures(self.outcomes@.take(i as int)),
                n <= i,
            decreases self.outcomes.len() - i,
        {
            proof {
                assert(self.outcomes@.take(i as int + 1).drop_last() =~= self.outcomes@.take(
                    i as int,
                ));
                assert(self.outcomes@.take(i as int + 1).last() == self.outcomes@[i as int]);
            }
            if self.outcomes[i].failure.is_some() {
                n = n + 1;
            }
            i = i + 1;
        }
        proof {
            assert(self.outcomes@.take(self.outcomes.len() as int) =~= self.outcomes@);
        }
        n
    }

    /// The invocation failed as a whole: at least one checkout failed.
    pub fn failed(&self) -> (b: bool)
        ensures
            b == exists|i: int|
                0 <= i < self.outcomes@.len() && (#[trigger] self.outcomes@[i].failure) is Some,
    {
        let mut i: usize = 0;
        while i < self.outcomes.len()
            invariant
                i <= self.outcomes.len(),
                forall|j: int| 0 <= j < i ==> (#[trigger] self.outcomes@[j].failure) is None,
            decreases self.outcomes.len() - i,
        {
            if self.outcomes[i].failure.is_some() {
                return true;
            }
            i = i + 1;
        }
        false
    }
}

/// One fan-out run in progress: the checkouts to visit, in working-set
/// order, and the outcomes recorded so far. The caller repeatedly asks for
/// the current checkout, runs the operation there, and records what
/// happened; recording moves on to the next checkout, whatever the outcome
/// was.
#[derive(Debug)]
pub struct FanOut {
    /// The checkouts to visit, in order.
    pub targets: Vec<RepositoryEntry>,
    /// One outcome per checkout already visited.
    pub outcomes: Vec<ExecutionOutcome>,
}

impl FanOut {
    /// Visits happen in order: the outcomes recorded so far belong to the
    /// first targets, one each.
    pub open spec fn wf(self) -> bool {
        &&& self.outcomes@.len() <= self.targets@.len()
        &&& forall|i: int|
            0 <= i < self.outcomes@.len() ==> (#[trigger] self.outcomes@[i].path)@
                == self.targets.deep_view()[i]
    }

    /// How many checkouts have been visited.
    pub open spec fn visited(self) -> int {
        self.outcomes@.len() as int
    }

    /// A run over the given working set, nothing visited yet.
    pub fn new(targets: Vec<RepositoryEntry>) -> (r: FanOut)
        ensures
            r.wf(),
            r.targets == targets,
            r.visited() == 0,
    {
        FanOut { targets, outcomes: Vec::new() }
    }

    /// The checkout to run in next, or `None` when every one was visited.
    pub fn current(&self) -> (r: Option<&RepoPath>)
        requires
            self.wf(),
        ensures
            match r {
                Some(p) => self.visited() < self.targets@.len() && p@ == self.targets.deep_view()[
                    self.visited()],
                None => self.visited() == self.targets@.len(),
            },
    {
        let i = self.outcomes.len();
        if i < self.targets.len() {
            proof {
                assert(self.targets.deep_view()[i as int] == self.targets@[i as int].deep_view());
            }
            Some(&self.targets[i].path)
        } else {
            None
        }
    }

    /// Whether a divider line is due before running in the current checkout:
    /// exactly before every checkout after the first, never before the
    /// first, never after the last.
    pub fn needs_divider(&self) -> (r: bool)
        ensures
            r == (0 < self.visited() < self.targets@.len()),
    {
        self.outcomes.len() > 0 && self.outcomes.len() < self.targets.len()
    }

    /// Record what running the operation in the current checkout came to —
    /// `None` for success, the failure otherwise — and move on to the next
    /// checkout. The batch goes on whatever the outcome was.
    pub fn record(&mut self, failure: Option<CommandFailure>)
        requires
            old(self).wf(),
            old(self).visited() < old(self).targets@.len(),
        ensures
            final(self).wf(),
            final(self).targets == old(self).targets,
            final(self).outcomes@.len() == old(self).outcomes@.len() + 1,
            forall|i: int|
                0 <= i < old(self).outcomes@.len() ==> final(self).outcomes@[i] == old(
                    self,
                ).outcomes@[i],
            final(self).outcomes@.last().path@ == old(self).targets.deep_view()[old(self).visited()],
            final(self).outcomes@.last().failure == failure,
    {
        let i = self.outcomes.len();
        let path = self.targets[i].path.duplicate();
        self.outcomes.push(ExecutionOutcome { path, failure });
        proof {
            assert(self.targets.deep_view()[i as int] == self.targets@[i as int].deep_view());
        }
    }

    /// Whether every checkout was visited.
    pub fn is_done(&self) -> (r: bool)
        requires
            self.wf(),
        ensures
            r == (self.visited() == self.targets@.len()),
    {
        self.outcomes.len() == self.targets.len()
    }

    /// The collected report, once every checkout was visited: one outcome
    /// per checkout of the working set, in working-set order.
    pub fn into_report(self) -> (r: InvocationReport)
        requires
            self.wf(),
            self.visited() == self.targets@.len(),
        ensures
            r.outcomes == self.outcomes,
            r.outcomes@.len() == self.targets@.len(),
            forall|i: int|
                0 <= i < r.outcomes@.len() ==> (#[trigger] r.outcomes@[i].path)@
                    == self.targets.deep_view()[i],
    {
        InvocationReport { outcomes: self.outcomes }
    }
}

/// The checkouts a pull visits: exactly those whose current branch is known
/// to have a tracking branch. The others are skipped silently — a checkout
/// without an upstream, or one whose inspection failed, produces no outcome.
pub open spec fn pull_spec(
    paths: Seq<Seq<Seq<char>>>,
    tracking: Seq<Option<bool>>,
) -> Seq<Seq<Seq<char>>>
    decreases paths.len(),
{
    if paths.len() == 0 || tracking.len() == 0 {
        Seq::empty()
    } else {
        pull_spec(paths.drop_last(), tracking.drop_last()) + if tracking.last() == Some(true) {
            seq![paths.last()]
        } else {
            Seq::empty()
        }
    }
}

/// Keep the checkouts whose current branch has a tracking branch.
/// `tracking[i]` answers the tracking-branch query for `ws[i]`, `None` where
/// the query failed.
pub fn pull_targets(ws: &Vec<RepositoryEntry>, tracking: &Vec<Option<bool>>) -> (r: Vec<
    RepositoryEntry,
>)
    requires
        tracking@.len() == ws@.len(),
    ensures
        r.deep_view() == pull_spec(ws.deep_view(), tracking@),
{
    let mut out: Vec<RepositoryEntry> = Vec::new();
    let mut i: usize = 0;
    proof {
        assert(ws.deep_view().take(0) =~= Seq::<Seq<Seq<char>>>::empty());
        assert(tracking@.take(0) =~= Seq::<Option<bool>>::empty());
    }
    while i < ws.len()
        invariant
            i <= ws.len(),
            ws.deep_view().len() == ws@.len(),
            tracking@.len() == ws@.len(),
            out.deep_view() == pull_spec(ws.deep_view().take(i as int), tracking@.take(i as int)),
        decreases ws.len() - i,
    {
        let ghost wdv = ws.deep_view();
        let ghost tv = tracking@;
        proof {
            assert(wdv.take(i as int + 1).drop_last() =~= wdv.take(i as int));
            assert(tv.take(i as int + 1).drop_last() =~= tv.take(i as int));
            assert(wdv.take(i as int + 1).last() == wdv[i as int]);
            assert(tv.take(i as int + 1).last() == tv[i as int]);
        }
        let keep = match tracking[i] {
            Some(t) => t,
            None => false,
        };
        if keep {
            let ghost prev = out@;
            out.push(RepositoryEntry { path: ws[i].path.duplicate() });
            proof {
                crate::paths::lemma_deep_view_after_push(prev, out@);
                assert(ws.deep_view()[i as int] == ws@[i as int].path@);
                assert(out.deep_view() =~= pull_spec(
                    wdv.take(i as int + 1),
                    tv.take(i as int + 1),
                ));
            }
        } else {
            proof {
                assert(out.deep_view() =~= pull_spec(
                    wdv.take(i as int + 1),
                    tv.take(i as int + 1),
                ));
            }
        }
        i = i + 1;
    }
    proof {
        assert(ws.deep_view().take(ws@.len() as int) =~= ws.deep_view());
        assert(tracking@.take(ws@.len() as int) =~= tracking@);
    }
    out
}

/// Whether a command line may be run at all: a missing or empty command
/// name is rejected before any checkout is touched.
pub fn exec_command_valid(command: &Vec<String>) -> (r: bool)
    ensures
        r == (command@.len() > 0 && command@[0]@.len() > 0),
{
    if command.len() == 0 {
        false
    } else {
        !command[0].as_str().is_empty()
    }
}

/// The divider line printed between the output of one checkout and the
/// next: a full line of marks, as wide as asked.
pub fn make_divider(width: usize) -> (r: String)
    ensures
        r@.len() == width as int,
        forall|i: int| 0 <= i < width ==> r@[i] == '#',
{
    let mut s = String::new();
    let mut i: usize = 0;
    while i < width
        invariant
            i <= width,
            s@.len() == i as int,
            forall|j: int| 0 <= j < i ==> s@[j] == '#',
        decreases width - i,
    {
        proof {
            reveal_strlit("#");
        }
        s.append("#");
        i = i + 1;
    }
    s
}

} // verus!
