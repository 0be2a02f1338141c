//! No replica holds back what it can finalize.
use super::message::{Message, Vote};
use super::progress::{
    all_fit, below, fits, lemma_absorb_commits_advances, lemma_commit_advances,
    lemma_perform_all_keeps_fit, lemma_perform_keeps_fit, lemma_pre_prepare_sound,
    lemma_prepare_advances, lemma_propose_advances, lemma_step_can_settle, level,
};
use super::replica::{absorb_commits, absorb_prepares, filed, ReplicaState};
use super::replica_core::{CoreAction, CoreState, ReplicaCoreAction, ReplicaCoreConfig};
use super::run_laws::{admits_all, after_calls, calls_lead, Call};
use super::vote_laws::{filed_prepares_count, finalized_all, lemma_finalize_ready, pending};
use super::OpNum;
use crate::command::Command;
use crate::crypto::Digest;
use vstd::prelude::*;

verus! {

/// Whether what can be finalized next is, or will be once what is pending is done.
spec fn holds_nothing_back(state: ReplicaState, queue: Seq<CoreAction>) -> bool {
    let core = state.core;
    &&& state.wf()
    &&& all_fit(core, queue)
    &&& !core.is_primary() || core.config.quorum() > 1
    &&& finalized_all(core) || pending(queue, (core.finalized + 1) as OpNum)
}

proof fn lemma_waits(
    action: CoreAction,
    waiting: Seq<CoreAction>,
    queued: Seq<CoreAction>,
    op_num: OpNum,
)
    ensures
        pending(seq![action] + waiting, op_num) ==> {
            ||| action == ReplicaCoreAction::<Seq<Command>>::Commit(op_num)
            ||| action == ReplicaCoreAction::<Seq<Command>>::Prepare(op_num)
            ||| pending(waiting + queued, op_num)
        },
        queued.contains(ReplicaCoreAction::Commit(op_num)) ==> pending(waiting + queued, op_num),
{
    let all = seq![action] + waiting;
    let left = waiting + queued;
    let commit: CoreAction = ReplicaCoreAction::Commit(op_num);
    let prepare: CoreAction = ReplicaCoreAction::Prepare(op_num);
    if all.contains(commit) {
        let i = all.index_of(commit);
        if i > 0 {
            assert(left[i - 1] == commit);
        }
    }
    if all.contains(prepare) {
        let i = all.index_of(prepare);
        if i > 0 {
            assert(left[i - 1] == prepare);
        }
    }
    if queued.contains(commit) {
        let i = queued.index_of(commit);
        assert(left[waiting.len() + i] == commit);
    }
}

proof fn lemma_commit_finalizes(core: CoreState, vote: Vote)
    requires
        core.supports(vote),
    ensures
        finalized_all(core.handle_commit(vote).0),
{
    let voted = core.with_commit(vote);
    lemma_finalize_ready(voted);
    let ready = voted.finalize_ready().0;
    lemma_propose_advances(ready);
    let after = core.handle_commit(vote).0;
    assert(after.ops == ready.ops && after.finalized == ready.finalized && after.config
        == ready.config);
}

proof fn lemma_absorb_finalizes(core: CoreState, op_num: OpNum, digest: Digest, votes: Seq<Vote>)
    requires
        finalized_all(core),
        core.ops.contains_key(op_num),
        digest == core.ops[op_num].pre_prepare.digest,
        forall|i: int|
            0 <= i < votes.len() ==> (#[trigger] votes[i]).op_num == op_num && votes[i].view_num
                == core.view_num,
    ensures
        finalized_all(absorb_commits(core, op_num, digest, votes).0),
    decreases votes.len(),
{
    if votes.len() == 0 || core.can_finalize(op_num) {
    } else if votes[0].digest != digest {
        lemma_absorb_finalizes(core, op_num, digest, votes.drop_first());
    } else {
        let step = core.handle_commit(votes[0]);
        lemma_commit_advances(core, votes[0]);
        lemma_commit_finalizes(core, votes[0]);
        assert(step.0.ops.dom().contains(op_num));
        lemma_absorb_finalizes(step.0, op_num, digest, votes.drop_first());
    }
}

proof fn lemma_perform_holds(state: ReplicaState, action: CoreAction, waiting: Seq<CoreAction>)
    requires
        holds_nothing_back(state, seq![action] + waiting),
    ensures
        holds_nothing_back(
            state.perform(action).state,
            waiting + state.perform(action).queued,
        ),
{
    let queue = seq![action] + waiting;
    let core = state.core;
    let step = state.perform(action);
    let after = step.state.core;
    let next = (core.finalized + 1) as OpNum;
    lemma_perform_keeps_fit(state, action, waiting);
    assert(queue[0] == action);
    assert(fits(core, queue[0]));
    lemma_waits(action, waiting, step.queued, next);
    match action {
        ReplicaCoreAction::Propose(op_num, commands) => {
            assert(after.ops[op_num].prepares.dom() =~= Set::empty());
            if core.finalized < u64::MAX && op_num != next {
                assert(after.can_finalize(next) == core.can_finalize(next));
            }
        },
        ReplicaCoreAction::Prepare(op_num) => {
            let own = state.own_vote(op_num);
            let votes = filed(state.early_prepares, op_num);
            let first = core.handle_prepare(own);
            lemma_prepare_advances(core, own);
            assert(first.0.ops.dom() =~= core.ops.dom());
            filed_prepares_count(first.0, op_num, own.digest, votes, 0);
            let rest = absorb_prepares(first.0, op_num, own.digest, votes);
            assert(after.finalized == core.finalized);
            if core.finalized < u64::MAX && after.can_finalize(next) {
                if op_num == next {
                    let wanted: CoreAction = ReplicaCoreAction::Commit(op_num);
                    assert(after.can_commit(op_num));
                    if first.0.can_commit(op_num) {
                        assert(first.1[0] == wanted);
                        assert(step.queued[0] == wanted);
                    } else {
                        let k = rest.1.index_of(wanted);
                        assert(step.queued[first.1.len() + k] == wanted);
                    }
                    assert(step.queued.contains(wanted));
                } else {
                    assert(after.ops.dom().contains(next) == core.ops.dom().contains(next));
                    assert(first.0.ops.contains_key(next));
                    assert(core.can_finalize(next));
                }
            }
        },
        ReplicaCoreAction::Commit(op_num) => {
            let own = state.own_vote(op_num);
            let votes = filed(state.early_commits, op_num);
            let first = core.handle_commit(own);
            lemma_commit_advances(core, own);
            lemma_commit_finalizes(core, own);
            assert(first.0.ops.dom().contains(op_num));
            lemma_absorb_finalizes(first.0, op_num, own.digest, votes);
            lemma_absorb_commits_advances(first.0, op_num, own.digest, votes);
        },
        ReplicaCoreAction::Finalize(_) => {},
    }
}

proof fn lemma_perform_all_holds(state: ReplicaState, actions: Seq<CoreAction>, done: int)
    requires
        holds_nothing_back(state, actions),
        0 <= done <= actions.len(),
    ensures
        ({
            let step = state.perform_all(actions.subrange(0, done));
            holds_nothing_back(
                step.state,
                actions.subrange(done, actions.len() as int) + step.queued,
            )
        }),
    decreases done,
{
    if done == 0 {
        assert(actions.subrange(0, actions.len() as int) + Seq::<CoreAction>::empty() =~= actions);
    } else {
        lemma_perform_all_holds(state, actions, done - 1);
        assert(actions.subrange(0, done).drop_last() =~= actions.subrange(0, done - 1));
        let before = state.perform_all(actions.subrange(0, done - 1));
        let action = actions[done - 1];
        let rest = actions.subrange(done, actions.len() as int);
        assert(actions.subrange(done - 1, actions.len() as int) + before.queued =~= seq![action]
            + (rest + before.queued));
        lemma_perform_holds(before.state, action, rest + before.queued);
        let last = before.state.perform(action);
        assert(rest + before.queued + last.queued =~= rest + (before.queued + last.queued));
    }
}

proof fn lemma_settle_holds(state: ReplicaState, queue: Seq<CoreAction>, rounds: nat)
    requires
        holds_nothing_back(state, queue),
        below(queue, rounds),
    ensures
        holds_nothing_back(state.settle(queue, rounds).0, Seq::empty()),
    decreases rounds,
{
    if queue.len() == 0 {
        assert(queue =~= Seq::empty());
    } else {
        assert(level(queue[0]) < rounds);
        let step = state.perform_all(queue);
        assert(queue.subrange(0, queue.len() as int) =~= queue);
        lemma_perform_all_holds(state, queue, queue.len() as int);
        lemma_perform_all_keeps_fit(state, queue, queue.len() as int);
        assert(queue.subrange(queue.len() as int, queue.len() as int) + step.queued
            =~= step.queued);
        assert(below(queue, (rounds - 1) as nat + 1));
        lemma_settle_holds(step.state, step.queued, (rounds - 1) as nat);
    }
}

proof fn lemma_call_holds(state: ReplicaState, call: Call)
    requires
        holds_nothing_back(state, Seq::empty()),
        call matches Call::Receive(message, valid) ==> state.admits(message, valid),
    ensures
        holds_nothing_back(
            match call {
                Call::Submit(command) => state.submit(command).0,
                Call::Receive(message, valid) => state.receive(message, valid).0,
            },
            Seq::empty(),
        ),
{
    let core = state.core;
    let next = (core.finalized + 1) as OpNum;
    let none = Seq::<CoreAction>::empty();
    assert(!pending(none, next));
    match call {
        Call::Submit(command) => {
            if core.is_primary() {
                let step = core.submit(command);
                lemma_propose_advances(CoreState { pool: core.pool.push(command), ..core });
                lemma_step_can_settle(state, step);
                lemma_settle_holds(ReplicaState { core: step.0, ..state }, step.1, 3);
            }
        },
        Call::Receive(message, valid) => {
            match message {
                Message::PrePrepare(pre_prepare, commands) => {
                    if pre_prepare.view_num != core.view_num || core.ops.contains_key(
                        pre_prepare.op_num,
                    ) || !valid {
                    } else {
                        let step = core.handle_pre_prepare(pre_prepare, commands);
                        lemma_pre_prepare_sound(core, pre_prepare, commands);
                        let op_num = pre_prepare.op_num;
                        assert(step.0.ops[op_num].prepares.dom() =~= Set::empty());
                        if !core.is_primary() {
                            assert(step.1[0] == ReplicaCoreAction::<Seq<Command>>::Prepare(op_num));
                            assert(step.1.contains(ReplicaCoreAction::Prepare(op_num)));
                        }
                        if core.finalized < u64::MAX && op_num != next {
                            assert(step.0.can_finalize(next) == core.can_finalize(next));
                        }
                        lemma_settle_holds(ReplicaState { core: step.0, ..state }, step.1, 3);
                    }
                },
                Message::Prepare(vote) => {
                    if core.can_commit(vote.op_num) || vote.view_num != core.view_num
                        || !core.ops.contains_key(vote.op_num) || vote.digest
                        != core.ops[vote.op_num].pre_prepare.digest || !valid {
                    } else {
                        let step = core.handle_prepare(vote);
                        lemma_prepare_advances(core, vote);
                        lemma_step_can_settle(state, step);
                        let op_num = vote.op_num;
                        if core.finalized < u64::MAX && step.0.can_finalize(next) {
                            if op_num == next {
                                assert(step.1[0] == ReplicaCoreAction::<Seq<Command>>::Commit(
                                    op_num,
                                ));
                                assert(step.1.contains(ReplicaCoreAction::Commit(op_num)));
                            } else {
                                assert(core.can_finalize(next));
                            }
                        }
                        lemma_settle_holds(ReplicaState { core: step.0, ..state }, step.1, 3);
                    }
                },
                Message::Commit(vote) => {
                    if core.can_finalize(vote.op_num) || vote.view_num != core.view_num
                        || !core.ops.contains_key(vote.op_num) || vote.digest
                        != core.ops[vote.op_num].pre_prepare.digest || !valid {
                    } else {
                        let step = core.handle_commit(vote);
                        lemma_commit_advances(core, vote);
                        lemma_step_can_settle(state, step);
                        lemma_commit_finalizes(core, vote);
                        lemma_settle_holds(ReplicaState { core: step.0, ..state }, step.1, 3);
                    }
                },
            }
        },
    }
}

/// A replica, the primary too, holds nothing back: over any calls from its start,
/// the operation that follows the finalized ones does not have both its quorums
/// yet. Only a primary that is a quorum by itself may wait for a commit.
pub proof fn finalizes_all_it_can(config: ReplicaCoreConfig, calls: Seq<Call>)
    requires
        ReplicaState::initial(config).wf(),
        admits_all(ReplicaState::initial(config), calls),
        !config.is_primary(0) || config.quorum() > 1,
    ensures
        ({
            let core = after_calls(ReplicaState::initial(config), calls).0.core;
            let next = (core.finalized + 1) as OpNum;
            core.finalized == u64::MAX || !(core.ops.contains_key(next) && core.ops[next].committed(
                config,
            ))
        }),
{
    lemma_calls_hold(config, calls);
    calls_lead(ReplicaState::initial(config), calls);
    let core = after_calls(ReplicaState::initial(config), calls).0.core;
    assert(!pending(Seq::<CoreAction>::empty(), (core.finalized + 1) as OpNum));
}

proof fn lemma_calls_hold(config: ReplicaCoreConfig, calls: Seq<Call>)
    requires
        ReplicaState::initial(config).wf(),
        admits_all(ReplicaState::initial(config), calls),
        !config.is_primary(0) || config.quorum() > 1,
    ensures
        holds_nothing_back(
            after_calls(ReplicaState::initial(config), calls).0,
            Seq::empty(),
        ),
    decreases calls.len(),
{
    let start = ReplicaState::initial(config);
    if calls.len() > 0 {
        lemma_calls_hold(config, calls.drop_last());
        lemma_call_holds(after_calls(start, calls.drop_last()).0, calls.last());
    }
}

} // verus!
