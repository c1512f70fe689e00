//! The one-shot run pipeline: stage a copy of the system file, merge the
//! managed line into the staged content, then commit the staged file over
//! the privileged target. Each step either succeeds and moves the run
//! forward or fails and ends it; only a successful commit touches the
//! target. The steps' actual I/O lives outside this library; callers drive
//! the pipeline by reporting each step's outcome.

use vstd::prelude::*;

verus! {

/// Where a run stands. `Committed` and `Failed` are terminal.
#[derive(Debug, Clone, Copy, PartialEq, Eq, Structural)]
pub enum RunState {
    Idle,
    Staged,
    Merged,
    Committed,
    Failed,
}

/// One step of the pipeline: a success moves Idle to Staged to Merged to
/// Committed; any failure ends the run; terminal states stay put.
pub open spec fn advance_spec(s: RunState, ok: bool) -> RunState {
    match s {
        RunState::Idle => if ok {
            RunState::Staged
        } else {
            RunState::Failed
        },
        RunState::Staged => if ok {
            RunState::Merged
        } else {
            RunState::Failed
        },
        RunState::Merged => if ok {
            RunState::Committed
        } else {
            RunState::Failed
        },
        RunState::Committed => RunState::Committed,
        RunState::Failed => RunState::Failed,
    }
}

/// Advances the run by one step's outcome.
pub fn advance(s: RunState, ok: bool) -> (t: RunState)
    ensures
        t == advance_spec(s, ok),
{
    match s {
        RunState::Idle => if ok {
            RunState::Staged
        } else {
            RunState::Failed
        },
        RunState::Staged => if ok {
            RunState::Merged
        } else {
            RunState::Failed
        },
        RunState::Merged => if ok {
            RunState::Committed
        } else {
            RunState::Failed
        },
        RunState::Committed => RunState::Committed,
        RunState::Failed => RunState::Failed,
    }
}

/// The state a run reaches from `s` after the given step outcomes.
pub open spec fn run_from(s: RunState, outcomes: Seq<bool>) -> RunState
    decreases outcomes.len(),
{
    if outcomes.len() == 0 {
        s
    } else {
        run_from(advance_spec(s, outcomes[0]), outcomes.drop_first())
    }
}

/// The privileged target file is written only by this transition: a commit
/// that succeeds, taken from the `Merged` state.
pub open spec fn commits_target(s: RunState, ok: bool) -> bool {
    s is Merged && ok
}

proof fn lemma_run_from_snoc(s: RunState, outcomes: Seq<bool>, b: bool)
    ensures
        run_from(s, outcomes.push(b)) == advance_spec(run_from(s, outcomes), b),
    decreases outcomes.len(),
{
    if outcomes.len() == 0 {
        assert(outcomes.push(b).drop_first() =~= Seq::<bool>::empty());
        assert(outcomes.push(b)[0] == b);
        assert(run_from(advance_spec(s, b), Seq::<bool>::empty()) == advance_spec(s, b));
        assert(run_from(s, outcomes) == s);
    } else {
        assert(outcomes.push(b).drop_first() =~= outcomes.drop_first().push(b));
        assert(outcomes.push(b)[0] == outcomes[0]);
        lemma_run_from_snoc(advance_spec(s, outcomes[0]), outcomes.drop_first(), b);
    }
}

proof fn lemma_committed_absorbs(outcomes: Seq<bool>)
    ensures
        run_from(RunState::Committed, outcomes) == RunState::Committed,
    decreases outcomes.len(),
{
    if outcomes.len() == 0 {
    } else {
        lemma_committed_absorbs(outcomes.drop_first());
    }
}

proof fn lemma_run_from_concat(s: RunState, a: Seq<bool>, b: Seq<bool>)
    ensures
        run_from(s, a + b) == run_from(run_from(s, a), b),
    decreases a.len(),
{
    if a.len() == 0 {
        assert(a + b =~= b);
    } else {
        assert((a + b).drop_first() =~= a.drop_first() + b);
        lemma_run_from_concat(advance_spec(s, a[0]), a.drop_first(), b);
    }
}

/// A run that ends in failure never performed the one transition that
/// writes the privileged target, so a failed run leaves the target in its
/// pre-run state.
pub proof fn lemma_failed_run_never_commits(outcomes: Seq<bool>)
    requires
        run_from(RunState::Idle, outcomes) is Failed,
    ensures
        forall|i: int|
            0 <= i < outcomes.len() ==> !commits_target(
                #[trigger] run_from(RunState::Idle, outcomes.take(i)),
                outcomes[i],
            ),
{
    assert forall|i: int|
        0 <= i < outcomes.len() implies !commits_target(
        #[trigger] run_from(RunState::Idle, outcomes.take(i)),
        outcomes[i],
    ) by {
        if commits_target(run_from(RunState::Idle, outcomes.take(i)), outcomes[i]) {
            assert(outcomes.take(i + 1) =~= outcomes.take(i).push(outcomes[i]));
            lemma_run_from_snoc(RunState::Idle, outcomes.take(i), outcomes[i]);
            assert(run_from(RunState::Idle, outcomes.take(i + 1)) == RunState::Committed);
            assert(outcomes =~= outcomes.take(i + 1) + outcomes.skip(i + 1));
            lemma_run_from_concat(RunState::Idle, outcomes.take(i + 1), outcomes.skip(i + 1));
            lemma_committed_absorbs(outcomes.skip(i + 1));
            assert(run_from(RunState::Idle, outcomes) == RunState::Committed);
        }
    }
}

} // verus!
