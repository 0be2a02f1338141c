//! What a replica says: it leaves nothing out.
use super::message::{Message, Vote};
use super::primary_laws::proposes_what_is_submitted;
use super::progress::{
    advances, all_fit, below, fits, lemma_absorb_commits_advances, lemma_advances_compose,
    lemma_commit_advances, lemma_finalize_advances, lemma_perform_all_keeps_fit,
    lemma_perform_keeps_fit, lemma_pre_prepare_sound, lemma_prepare_advances,
    lemma_propose_advances, lemma_step_can_settle, level, ops_kept,
};
use super::replica::{absorb_commits, absorb_prepares, filed, Action, ReplicaAction, ReplicaState};
use super::replica_core::{CoreAction, CoreState, ReplicaCoreAction, ReplicaCoreConfig};
use super::run_laws::{admits_all, after_calls, calls_lead, Call};
use super::vote_laws::{filed_prepares_count, pending};
use super::OpNum;
use crate::command::Command;
use crate::crypto::Digest;
use vstd::prelude::*;

verus! {

/// Whether the replica's prepare for an operation was sent.
pub open spec fn prepare_sent(state: ReplicaState, sent: Seq<Action>, op_num: OpNum) -> bool {
    sent.contains(ReplicaAction::Send(Message::Prepare(state.own_vote(op_num))))
}

/// Whether the replica's commit for an operation was sent.
pub open spec fn commit_sent(state: ReplicaState, sent: Seq<Action>, op_num: OpNum) -> bool {
    sent.contains(ReplicaAction::Send(Message::Commit(state.own_vote(op_num))))
}

/// Whether an operation was proposed to the others, with its commands.
pub open spec fn proposal_sent(state: ReplicaState, sent: Seq<Action>, op_num: OpNum) -> bool {
    let op = state.core.ops[op_num];
    sent.contains(ReplicaAction::Send(Message::PrePrepare(op.pre_prepare, op.commands)))
}

/// Whether everything was sent that is to be sent, or will be: of every known
/// operation the primary's proposal, or the other replicas' prepares; and of every
/// one with enough prepares the commit. A primary that needs no prepares but its
/// own proposal never hears one, and so has no occasion to commit.
pub open spec fn all_sent(
    state: ReplicaState,
    queue: Seq<CoreAction>,
    sent: Seq<Action>,
) -> bool {
    let core = state.core;
    &&& forall|op_num: OpNum| #[trigger]
        core.ops.contains_key(op_num) && !core.is_primary() ==> prepare_sent(state, sent, op_num)
            || queue.contains(ReplicaCoreAction::Prepare(op_num))
    &&& forall|op_num: OpNum| #[trigger]
        core.ops.contains_key(op_num) && op_num >= 1 && core.ops[op_num].prepared(core.config) ==> {
            ||| core.is_primary() && core.config.quorum() <= 1
            ||| commit_sent(state, sent, op_num)
            ||| pending(queue, op_num)
        }
    &&& forall|op_num: OpNum| #[trigger]
        core.ops.contains_key(op_num) && op_num >= 1 && core.is_primary() ==> proposal_sent(
            state,
            sent,
            op_num,
        )
}

/// What is kept of an operation by what follows.
spec fn says_same(before: ReplicaState, after: ReplicaState) -> bool {
    &&& after.core.config == before.core.config
    &&& after.core.view_num == before.core.view_num
    &&& forall|op_num: OpNum| #[trigger]
        before.core.ops.contains_key(op_num) ==> after.core.ops.contains_key(op_num)
            && after.core.ops[op_num].pre_prepare == before.core.ops[op_num].pre_prepare
            && after.core.ops[op_num].commands == before.core.ops[op_num].commands
}

proof fn lemma_sent_stays(
    before: ReplicaState,
    after: ReplicaState,
    sent: Seq<Action>,
    more: Seq<Action>,
    op_num: OpNum,
)
    requires
        says_same(before, after),
        before.core.ops.contains_key(op_num),
    ensures
        prepare_sent(before, sent, op_num) ==> prepare_sent(after, sent + more, op_num),
        commit_sent(before, sent, op_num) ==> commit_sent(after, sent + more, op_num),
        proposal_sent(before, sent, op_num) ==> proposal_sent(after, sent + more, op_num),
{
    assert(before.own_vote(op_num) == after.own_vote(op_num));
    assert forall|action: Action| #[trigger] sent.contains(action) implies (sent + more).contains(
        action,
    ) by {
        let i = sent.index_of(action);
        assert((sent + more)[i] == action);
    }
}

proof fn lemma_queue(
    action: CoreAction,
    waiting: Seq<CoreAction>,
    queued: Seq<CoreAction>,
    wanted: CoreAction,
)
    ensures
        (seq![action] + waiting).contains(wanted) ==> action == wanted || (waiting
            + queued).contains(wanted),
        queued.contains(wanted) ==> (waiting + queued).contains(wanted),
{
    let all = seq![action] + waiting;
    if all.contains(wanted) {
        let i = all.index_of(wanted);
        if i > 0 {
            assert((waiting + queued)[i - 1] == wanted);
        }
    }
    if queued.contains(wanted) {
        let i = queued.index_of(wanted);
        assert((waiting + queued)[waiting.len() + i] == wanted);
    }
}

/// Whether a step leaves all prepares as they are.
spec fn same_prepares(before: CoreState, after: CoreState) -> bool {
    forall|op_num: OpNum| #[trigger]
        before.ops.contains_key(op_num) ==> after.ops[op_num].prepares
            == before.ops[op_num].prepares
}

proof fn lemma_commit_same_prepares(core: CoreState, vote: Vote)
    requires
        core.supports(vote),
    ensures
        same_prepares(core, core.handle_commit(vote).0),
{
    let voted = core.with_commit(vote);
    lemma_finalize_advances(voted);
    lemma_propose_advances(voted.finalize_ready().0);
}

proof fn lemma_absorb_same_prepares(
    core: CoreState,
    op_num: OpNum,
    digest: Digest,
    votes: Seq<Vote>,
)
    requires
        core.ops.contains_key(op_num),
        digest == core.ops[op_num].pre_prepare.digest,
        forall|i: int|
            0 <= i < votes.len() ==> (#[trigger] votes[i]).op_num == op_num && votes[i].view_num
                == core.view_num,
    ensures
        same_prepares(core, absorb_commits(core, op_num, digest, votes).0),
    decreases votes.len(),
{
    if votes.len() == 0 || core.can_finalize(op_num) {
    } else if votes[0].digest != digest {
        lemma_absorb_same_prepares(core, op_num, digest, votes.drop_first());
    } else {
        let step = core.handle_commit(votes[0]);
        lemma_commit_advances(core, votes[0]);
        lemma_commit_same_prepares(core, votes[0]);
        assert(step.0.ops.dom().contains(op_num));
        lemma_absorb_same_prepares(step.0, op_num, digest, votes.drop_first());
        let after = absorb_commits(core, op_num, digest, votes).0;
        assert forall|other: OpNum| #[trigger] core.ops.contains_key(other) implies
            after.ops[other].prepares == core.ops[other].prepares by {
            assert(step.0.ops.dom().contains(other));
        }
    }
}

proof fn lemma_prepare_sent(
    state: ReplicaState,
    op_num: OpNum,
    waiting: Seq<CoreAction>,
    sent: Seq<Action>,
)
    requires
        state.wf(),
        all_fit(state.core, seq![ReplicaCoreAction::Prepare(op_num)] + waiting),
        all_sent(state, seq![ReplicaCoreAction::Prepare(op_num)] + waiting, sent),
    ensures
        ({
            let step = state.perform(ReplicaCoreAction::Prepare(op_num));
            all_sent(step.state, waiting + step.queued, sent + step.actions)
        }),
{
    let action: CoreAction = ReplicaCoreAction::Prepare(op_num);
    let queue = seq![action] + waiting;
    let core = state.core;
    assert(queue[0] == action);
    assert(fits(core, queue[0]));
    lemma_perform_keeps_fit(state, action, waiting);
    let own = state.own_vote(op_num);
    let votes = filed(state.early_prepares, op_num);
    let first = core.handle_prepare(own);
    lemma_prepare_advances(core, own);
    filed_prepares_count(first.0, op_num, own.digest, votes, 0);
    let rest = absorb_prepares(first.0, op_num, own.digest, votes);
    let step = state.perform(action);
    let after = step.state.core;
    let next = waiting + step.queued;
    let all = sent + step.actions;
    assert(first.0.ops.dom() =~= core.ops.dom());
    assert(says_same(state, step.state)) by {
        assert forall|other: OpNum| #[trigger] core.ops.contains_key(other) implies
            after.ops.contains_key(other) && after.ops[other].pre_prepare
            == core.ops[other].pre_prepare && after.ops[other].commands
            == core.ops[other].commands by {
            assert(first.0.ops.contains_key(other));
            assert(after.ops.dom().contains(other));
        }
    }
    assert(state.own_vote(op_num) == step.state.own_vote(op_num));
    assert(all[sent.len() as int] == ReplicaAction::<Seq<Command>>::Send(Message::Prepare(own)));
    assert(prepare_sent(step.state, all, op_num));
    if op_num >= 1 && after.ops[op_num].prepared(after.config) {
        assert(after.can_commit(op_num));
        let wanted: CoreAction = ReplicaCoreAction::Commit(op_num);
        if first.0.can_commit(op_num) {
            assert(first.1[0] == wanted);
            assert(step.queued[0] == wanted);
        } else {
            let k = rest.1.index_of(wanted);
            assert(step.queued[first.1.len() + k] == wanted);
        }
        assert(step.queued.contains(wanted));
        lemma_queue(action, waiting, step.queued, wanted);
    }
    assert forall|other: OpNum| #[trigger] after.ops.contains_key(other) implies
        core.ops.contains_key(other) && (other != op_num ==> after.ops[other]
        == core.ops[other]) by {
        assert(after.ops.dom().contains(other));
        assert(first.0.ops.dom().contains(other));
        assert(first.0.ops.contains_key(other));
    }
    assert(core.ops.contains_key(op_num));
    lemma_sent_stays(state, step.state, sent, step.actions, op_num);
    lemma_all_sent(state, step.state, action, waiting, step.queued, sent, step.actions, op_num);
}

/// What was sent stays sent, and what was to be done still is, but for what was
/// done now.
proof fn lemma_all_sent(
    state: ReplicaState,
    next: ReplicaState,
    action: CoreAction,
    waiting: Seq<CoreAction>,
    queued: Seq<CoreAction>,
    sent: Seq<Action>,
    more: Seq<Action>,
    op_num: OpNum,
)
    requires
        all_sent(state, seq![action] + waiting, sent),
        says_same(state, next),
        forall|other: OpNum| #[trigger]
            next.core.ops.contains_key(other) && other != op_num ==> state.core.ops.contains_key(
                other,
            ),
        forall|other: OpNum| #[trigger]
            next.core.ops.contains_key(other) && other != op_num ==> next.core.ops[other].prepares
                == state.core.ops[other].prepares,
        next.core.ops.contains_key(op_num) ==> {
            &&& !next.core.is_primary() ==> prepare_sent(next, sent + more, op_num) || (waiting
                + queued).contains(ReplicaCoreAction::Prepare(op_num))
            &&& op_num >= 1 && next.core.ops[op_num].prepared(next.core.config) ==> {
                ||| next.core.is_primary() && next.core.config.quorum() <= 1
                ||| commit_sent(next, sent + more, op_num)
                ||| pending(waiting + queued, op_num)
            }
            &&& op_num >= 1 && next.core.is_primary() ==> proposal_sent(next, sent + more, op_num)
        },
        action matches ReplicaCoreAction::Prepare(other) ==> other == op_num,
        action matches ReplicaCoreAction::Commit(other) ==> other == op_num,
    ensures
        all_sent(next, waiting + queued, sent + more),
{
    let queue = seq![action] + waiting;
    let after = next.core;
    let all = sent + more;
    let left = waiting + queued;
    assert forall|other: OpNum| #[trigger]
        after.ops.contains_key(other) && !after.is_primary() implies prepare_sent(next, all, other)
        || left.contains(ReplicaCoreAction::Prepare(other)) by {
        if other != op_num {
            assert(state.core.ops.contains_key(other));
            lemma_sent_stays(state, next, sent, more, other);
            lemma_queue(action, waiting, queued, ReplicaCoreAction::Prepare(other));
        }
    }
    assert forall|other: OpNum| #[trigger]
        after.ops.contains_key(other) && other >= 1 && after.ops[other].prepared(
            after.config,
        ) implies {
        ||| after.is_primary() && after.config.quorum() <= 1
        ||| commit_sent(next, all, other)
        ||| pending(left, other)
    } by {
        if other != op_num {
            assert(state.core.ops.contains_key(other));
            lemma_sent_stays(state, next, sent, more, other);
            lemma_queue(action, waiting, queued, ReplicaCoreAction::Prepare(other));
            lemma_queue(action, waiting, queued, ReplicaCoreAction::Commit(other));
        }
    }
    assert forall|other: OpNum| #[trigger]
        after.ops.contains_key(other) && other >= 1 && after.is_primary() implies proposal_sent(
        next,
        all,
        other,
    ) by {
        if other != op_num {
            assert(state.core.ops.contains_key(other));
            lemma_sent_stays(state, next, sent, more, other);
        }
    }
}

proof fn lemma_perform_sent(
    state: ReplicaState,
    action: CoreAction,
    waiting: Seq<CoreAction>,
    sent: Seq<Action>,
)
    requires
        state.wf(),
        all_fit(state.core, seq![action] + waiting),
        all_sent(state, seq![action] + waiting, sent),
    ensures
        all_sent(
            state.perform(action).state,
            waiting + state.perform(action).queued,
            sent + state.perform(action).actions,
        ),
{
    let queue = seq![action] + waiting;
    let core = state.core;
    let step = state.perform(action);
    let after = step.state.core;
    let all = sent + step.actions;
    assert(queue[0] == action);
    assert(fits(core, queue[0]));
    lemma_perform_keeps_fit(state, action, waiting);
    match action {
        ReplicaCoreAction::Propose(op_num, commands) => {
            let pre_prepare = state.proposal(op_num, commands);
            lemma_pre_prepare_sound(core, pre_prepare, commands);
            assert(all[sent.len() as int] == ReplicaAction::Send(
                Message::PrePrepare(pre_prepare, commands),
            ));
            assert(proposal_sent(step.state, all, op_num));
            if after.ops[op_num].prepared(after.config) {
                assert(after.ops[op_num].prepares.dom() =~= Set::empty());
            }
            lemma_all_sent(
                state,
                step.state,
                action,
                waiting,
                step.queued,
                sent,
                step.actions,
                op_num,
            );
        },
        ReplicaCoreAction::Prepare(op_num) => {
            lemma_prepare_sent(state, op_num, waiting, sent);
        },
        ReplicaCoreAction::Commit(op_num) => {
            let own = state.own_vote(op_num);
            let votes = filed(state.early_commits, op_num);
            let first = core.handle_commit(own);
            lemma_commit_advances(core, own);
            lemma_commit_same_prepares(core, own);
            assert(first.0.ops.dom().contains(op_num));
            lemma_absorb_commits_advances(first.0, op_num, own.digest, votes);
            lemma_absorb_same_prepares(first.0, op_num, own.digest, votes);
            let rest = absorb_commits(first.0, op_num, own.digest, votes);
            lemma_advances_compose(core, first, rest);
            assert(says_same(state, step.state));
            assert(all[sent.len() as int] == ReplicaAction::<Seq<Command>>::Send(
                Message::Commit(own),
            ));
            assert(step.state.own_vote(op_num) == own);
            assert(commit_sent(step.state, all, op_num));
            assert forall|other: OpNum| #[trigger] after.ops.contains_key(other) implies
                core.ops.contains_key(other) && after.ops[other].prepares
                == core.ops[other].prepares by {
                assert(after.ops.dom().contains(other));
                assert(core.ops.dom().contains(other));
                assert(first.0.ops.dom().contains(other));
            }
            assert(core.ops.contains_key(op_num));
            lemma_sent_stays(state, step.state, sent, step.actions, op_num);
            lemma_queue(
                action,
                waiting,
                step.queued,
                ReplicaCoreAction::Prepare(op_num),
            );
            lemma_all_sent(
                state,
                step.state,
                action,
                waiting,
                step.queued,
                sent,
                step.actions,
                op_num,
            );
        },
        ReplicaCoreAction::Finalize(op_num) => {
            assert(core.ops.contains_key(op_num));
            lemma_sent_stays(state, step.state, sent, step.actions, op_num);
            lemma_queue(action, waiting, step.queued, ReplicaCoreAction::Prepare(op_num));
            lemma_queue(action, waiting, step.queued, ReplicaCoreAction::Commit(op_num));
            lemma_all_sent(
                state,
                step.state,
                action,
                waiting,
                step.queued,
                sent,
                step.actions,
                op_num,
            );
        },
    }
}

proof fn lemma_perform_all_sent(
    state: ReplicaState,
    actions: Seq<CoreAction>,
    done: int,
    sent: Seq<Action>,
)
    requires
        state.wf(),
        all_fit(state.core, actions),
        all_sent(state, actions, sent),
        0 <= done <= actions.len(),
    ensures
        ({
            let step = state.perform_all(actions.subrange(0, done));
            all_sent(
                step.state,
                actions.subrange(done, actions.len() as int) + step.queued,
                sent + step.actions,
            )
        }),
    decreases done,
{
    if done == 0 {
        assert(actions.subrange(0, actions.len() as int) + Seq::<CoreAction>::empty() =~= actions);
        assert(sent + Seq::<Action>::empty() =~= sent);
    } else {
        lemma_perform_all_sent(state, actions, done - 1, sent);
        lemma_perform_all_keeps_fit(state, actions, done - 1);
        assert(actions.subrange(0, done).drop_last() =~= actions.subrange(0, done - 1));
        let before = state.perform_all(actions.subrange(0, done - 1));
        let action = actions[done - 1];
        let rest = actions.subrange(done, actions.len() as int);
        assert(actions.subrange(done - 1, actions.len() as int) + before.queued =~= seq![action]
            + (rest + before.queued));
        lemma_perform_sent(before.state, action, rest + before.queued, sent + before.actions);
        let last = before.state.perform(action);
        assert(rest + before.queued + last.queued =~= rest + (before.queued + last.queued));
        assert(sent + before.actions + last.actions =~= sent + (before.actions + last.actions));
    }
}

proof fn lemma_settle_sent(
    state: ReplicaState,
    queue: Seq<CoreAction>,
    rounds: nat,
    sent: Seq<Action>,
)
    requires
        state.wf(),
        all_fit(state.core, queue),
        all_sent(state, queue, sent),
        below(queue, rounds),
    ensures
        all_sent(
            state.settle(queue, rounds).0,
            Seq::empty(),
            sent + state.settle(queue, rounds).1,
        ),
    decreases rounds,
{
    if queue.len() == 0 {
        assert(queue =~= Seq::empty());
        assert(sent + Seq::<Action>::empty() =~= sent);
    } else {
        assert(level(queue[0]) < rounds);
        let step = state.perform_all(queue);
        assert(queue.subrange(0, queue.len() as int) =~= queue);
        lemma_perform_all_sent(state, queue, queue.len() as int, sent);
        lemma_perform_all_keeps_fit(state, queue, queue.len() as int);
        assert(queue.subrange(queue.len() as int, queue.len() as int) + step.queued
            =~= step.queued);
        assert(below(queue, (rounds - 1) as nat + 1));
        lemma_settle_sent(step.state, step.queued, (rounds - 1) as nat, sent + step.actions);
        let rest = step.state.settle(step.queued, (rounds - 1) as nat);
        assert(sent + step.actions + rest.1 =~= sent + (step.actions + rest.1));
    }
}

/// A step of the core that adds no prepares keeps what is to be sent.
proof fn lemma_follow_sent(
    state: ReplicaState,
    step: (CoreState, Seq<CoreAction>),
    sent: Seq<Action>,
)
    requires
        state.wf(),
        advances(state.core, step),
        all_sent((ReplicaState { core: step.0, ..state }), step.1, sent),
    ensures
        all_sent(state.follow(step).0, Seq::empty(), sent + state.follow(step).1),
{
    lemma_step_can_settle(state, step);
    lemma_settle_sent(ReplicaState { core: step.0, ..state }, step.1, 3, sent);
}

proof fn lemma_call_sent(state: ReplicaState, call: Call, sent: Seq<Action>)
    requires
        state.wf(),
        all_sent(state, Seq::empty(), sent),
        call matches Call::Receive(message, valid) ==> state.admits(message, valid),
        state.core.is_primary() ==> forall|op_num: OpNum|
            1 <= op_num <= state.core.proposed ==> #[trigger] state.core.ops.contains_key(op_num),
    ensures
        match call {
            Call::Submit(command) => all_sent(
                state.submit(command).0,
                Seq::empty(),
                sent + state.submit(command).1,
            ),
            Call::Receive(message, valid) => all_sent(
                state.receive(message, valid).0,
                Seq::empty(),
                sent + state.receive(message, valid).1,
            ),
        },
{
    let core = state.core;
    let none = Seq::<CoreAction>::empty();
    assert(sent + Seq::<Action>::empty() =~= sent);
    assert forall|op_num: OpNum| !#[trigger] pending(none, op_num) by {}
    match call {
        Call::Submit(command) => {
            let step = core.submit(command);
            if core.is_primary() {
                let taken = CoreState { pool: core.pool.push(command), ..core };
                lemma_propose_advances(taken);
                let next = ReplicaState { core: step.0, ..state };
                lemma_step_sent(state, next, step.1, sent);
                lemma_follow_sent(state, step, sent);
            } else {
                assert(state.follow(step) == (state, Seq::<Action>::empty()));
            }
        },
        Call::Receive(message, valid) => {
            let after = state.receive(message, valid).0;
            match message {
                Message::PrePrepare(pre_prepare, commands) => {
                    if pre_prepare.view_num != core.view_num || core.ops.contains_key(
                        pre_prepare.op_num,
                    ) || !valid {
                    } else {
                        let op_num = pre_prepare.op_num;
                        let step = core.handle_pre_prepare(pre_prepare, commands);
                        let next = ReplicaState { core: step.0, ..state };
                        lemma_pre_prepare_sound(core, pre_prepare, commands);
                        assert(step.0.ops[op_num].prepares.dom() =~= Set::empty());
                        if !core.is_primary() {
                            assert(step.1[0] == ReplicaCoreAction::<Seq<Command>>::Prepare(op_num));
                            assert(step.1.contains(ReplicaCoreAction::Prepare(op_num)));
                            assert(pending(step.1, op_num));
                        } else {
                            assert(op_num == 0);
                        }
                        assert(all_sent(next, step.1, sent)) by {
                            assert forall|other: OpNum| other != op_num && #[trigger]
                                core.ops.contains_key(other) implies state.own_vote(other)
                                == next.own_vote(other) by {}
                            assert forall|other: OpNum| #[trigger]
                                next.core.ops.contains_key(other) implies other == op_num
                                || core.ops.contains_key(other) && next.core.ops[other]
                                == core.ops[other] by {}
                            assert forall|other: OpNum| #[trigger]
                                next.core.ops.contains_key(other)
                                    && !next.core.is_primary() implies prepare_sent(
                                next,
                                sent,
                                other,
                            ) || step.1.contains(ReplicaCoreAction::Prepare(other)) by {
                                if other != op_num {
                                    assert(core.ops.contains_key(other));
                                    assert(prepare_sent(state, sent, other));
                                }
                            }
                            assert forall|other: OpNum| #[trigger]
                                next.core.ops.contains_key(other) && other >= 1
                                    && next.core.ops[other].prepared(next.core.config) implies {
                                ||| next.core.is_primary() && next.core.config.quorum() <= 1
                                ||| commit_sent(next, sent, other)
                                ||| pending(step.1, other)
                            } by {
                                if other != op_num {
                                    assert(core.ops.contains_key(other));
                                    assert(!pending(none, other));
                                }
                            }
                            assert forall|other: OpNum| #[trigger]
                                next.core.ops.contains_key(other) && other >= 1
                                    && next.core.is_primary() implies proposal_sent(
                                next,
                                sent,
                                other,
                            ) by {
                                assert(core.ops.contains_key(other));
                                assert(proposal_sent(state, sent, other));
                            }
                        }
                        lemma_settle_sent(next, step.1, 3, sent);
                    }
                },
                Message::Prepare(vote) => {
                    if core.can_commit(vote.op_num) || vote.view_num != core.view_num
                        || !core.ops.contains_key(vote.op_num) || vote.digest
                        != core.ops[vote.op_num].pre_prepare.digest || !valid {
                        assert(after.core == core);
                        lemma_same_core_sent(state, after, sent);
                    } else {
                        let op_num = vote.op_num;
                        let step = core.handle_prepare(vote);
                        lemma_prepare_advances(core, vote);
                        let next = ReplicaState { core: step.0, ..state };
                        assert(step.0.ops.dom() =~= core.ops.dom());
                        if step.0.can_commit(op_num) {
                            assert(step.1[0] == ReplicaCoreAction::<Seq<Command>>::Commit(op_num));
                            assert(step.1.contains(ReplicaCoreAction::Commit(op_num)));
                            assert(pending(step.1, op_num));
                        }
                        assert(all_sent(next, step.1, sent)) by {
                            assert forall|other: OpNum| #[trigger]
                                next.core.ops.contains_key(other) implies core.ops.contains_key(
                                other,
                            ) && state.own_vote(other) == next.own_vote(other) && (other != op_num
                                ==> next.core.ops[other] == core.ops[other]) by {
                                assert(core.ops.dom().contains(other));
                            }
                            assert forall|other: OpNum| #[trigger]
                                next.core.ops.contains_key(other)
                                    && !next.core.is_primary() implies prepare_sent(
                                next,
                                sent,
                                other,
                            ) || step.1.contains(ReplicaCoreAction::Prepare(other)) by {
                                assert(core.ops.contains_key(other));
                                assert(prepare_sent(state, sent, other));
                            }
                            assert forall|other: OpNum| #[trigger]
                                next.core.ops.contains_key(other) && other >= 1
                                    && next.core.ops[other].prepared(next.core.config) implies {
                                ||| next.core.is_primary() && next.core.config.quorum() <= 1
                                ||| commit_sent(next, sent, other)
                                ||| pending(step.1, other)
                            } by {
                                assert(core.ops.contains_key(other));
                                assert(!pending(none, other));
                            }
                            assert forall|other: OpNum| #[trigger]
                                next.core.ops.contains_key(other) && other >= 1
                                    && next.core.is_primary() implies proposal_sent(
                                next,
                                sent,
                                other,
                            ) by {
                                assert(core.ops.contains_key(other));
                                assert(proposal_sent(state, sent, other));
                            }
                        }
                        lemma_follow_sent(state, step, sent);
                    }
                },
                Message::Commit(vote) => {
                    if core.can_finalize(vote.op_num) || vote.view_num != core.view_num
                        || !core.ops.contains_key(vote.op_num) || vote.digest
                        != core.ops[vote.op_num].pre_prepare.digest || !valid {
                        assert(after.core == core);
                        lemma_same_core_sent(state, after, sent);
                    } else {
                        let step = core.handle_commit(vote);
                        lemma_commit_advances(core, vote);
                        lemma_commit_same_prepares(core, vote);
                        let next = ReplicaState { core: step.0, ..state };
                        assert(next.core.ops.dom() == core.ops.dom());
                        assert forall|other: OpNum| #[trigger]
                            next.core.ops.contains_key(other) implies core.ops.contains_key(
                            other,
                        ) && next.core.ops[other].prepares == core.ops[other].prepares by {
                            assert(core.ops.dom().contains(other));
                        }
                        lemma_step_sent(state, next, step.1, sent);
                        lemma_follow_sent(state, step, sent);
                    }
                },
            }
        },
    }
}

proof fn lemma_same_core_sent(state: ReplicaState, next: ReplicaState, sent: Seq<Action>)
    requires
        all_sent(state, Seq::empty(), sent),
        next.core == state.core,
    ensures
        all_sent(next, Seq::empty(), sent),
{
    assert forall|op_num: OpNum| #[trigger] state.core.ops.contains_key(op_num) implies
        state.own_vote(op_num) == next.own_vote(op_num) by {}
}

proof fn lemma_step_sent(
    state: ReplicaState,
    next: ReplicaState,
    queue: Seq<CoreAction>,
    sent: Seq<Action>,
)
    requires
        all_sent(state, Seq::empty(), sent),
        ops_kept(state.core, next.core),
        next.core.config == state.core.config,
        next.core.view_num == state.core.view_num,
        forall|op_num: OpNum| #[trigger]
            next.core.ops.contains_key(op_num) ==> state.core.ops.contains_key(op_num)
                && next.core.ops[op_num].prepares == state.core.ops[op_num].prepares,
    ensures
        all_sent(next, queue, sent),
{
    let none = Seq::<CoreAction>::empty();
    assert(sent + Seq::<Action>::empty() =~= sent);
    assert(says_same(state, next));
    let core = next.core;
    assert forall|op_num: OpNum| #[trigger]
        core.ops.contains_key(op_num) && !core.is_primary() implies prepare_sent(
        next,
        sent,
        op_num,
    ) || queue.contains(ReplicaCoreAction::Prepare(op_num)) by {
        assert(state.core.ops.contains_key(op_num));
        lemma_sent_stays(state, next, sent, Seq::empty(), op_num);
    }
    assert forall|op_num: OpNum| #[trigger]
        core.ops.contains_key(op_num) && op_num >= 1 && core.ops[op_num].prepared(
            core.config,
        ) implies {
        ||| core.is_primary() && core.config.quorum() <= 1
        ||| commit_sent(next, sent, op_num)
        ||| pending(queue, op_num)
    } by {
        assert(state.core.ops.contains_key(op_num));
        assert(!pending(none, op_num));
        lemma_sent_stays(state, next, sent, Seq::empty(), op_num);
    }
    assert forall|op_num: OpNum| #[trigger]
        core.ops.contains_key(op_num) && op_num >= 1 && core.is_primary() implies proposal_sent(
        next,
        sent,
        op_num,
    ) by {
        assert(state.core.ops.contains_key(op_num));
        lemma_sent_stays(state, next, sent, Seq::empty(), op_num);
    }
}

/// A replica says what it is to say: over any calls from its start, it has sent
/// its prepare for every operation that it knows, unless it is the primary, which
/// has sent its proposal; and its commit for every operation that has enough
/// prepares.
pub proof fn everything_is_sent(config: ReplicaCoreConfig, calls: Seq<Call>)
    requires
        ReplicaState::initial(config).wf(),
        admits_all(ReplicaState::initial(config), calls),
    ensures
        ({
            let (after, actions) = after_calls(ReplicaState::initial(config), calls);
            all_sent(after, Seq::empty(), actions)
        }),
    decreases calls.len(),
{
    let start = ReplicaState::initial(config);
    if calls.len() > 0 {
        let shorter = calls.drop_last();
        everything_is_sent(config, shorter);
        let (before, sent) = after_calls(start, shorter);
        calls_lead(start, shorter);
        if config.is_primary(0) {
            proposes_what_is_submitted(config, shorter);
        }
        lemma_call_sent(before, calls.last(), sent);
    }
}

} // verus!
