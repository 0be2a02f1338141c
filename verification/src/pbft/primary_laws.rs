//! What the primary proposes over any sequence of calls.
use super::laws::{batches, delivered};
use super::message::{Message, Vote};
use super::progress::{
    advances, all_fit, below, clash, fits, lemma_absorb_commits_advances, lemma_advances_compose,
    lemma_commit_advances, lemma_perform_all_keeps_fit, lemma_perform_keeps_fit,
    lemma_pre_prepare_sound, lemma_prepare_advances, lemma_propose_advances, lemma_step_can_settle,
    level, run,
};
use super::replica::{absorb_commits, filed, ReplicaState};
use super::replica_core::{CoreAction, CoreState, ReplicaCoreAction, ReplicaCoreConfig};
use super::run_laws::{admits_all, after_calls, calls_lead, Call};
use super::OpNum;
use crate::command::{batch_len, Command};
use crate::crypto::Digest;
use vstd::prelude::*;

verus! {

/// The commands of batches, one after the other.
pub open spec fn concat(list: Seq<Seq<Command>>) -> Seq<Command>
    decreases list.len(),
{
    if list.len() == 0 {
        Seq::empty()
    } else {
        concat(list.drop_last()) + list.last()
    }
}

proof fn lemma_concat(a: Seq<Seq<Command>>, b: Seq<Seq<Command>>)
    ensures
        concat(a + b) == concat(a) + concat(b),
    decreases b.len(),
{
    if b.len() == 0 {
        assert(a + b =~= a);
        assert(concat(a) + concat(b) =~= concat(a));
    } else {
        lemma_concat(a, b.drop_last());
        assert((a + b).drop_last() =~= a + b.drop_last());
        assert(concat(a + b) =~= concat(a) + concat(b));
    }
}

/// Whether the primary proposes as much as it may.
pub open spec fn proposed_all(core: CoreState) -> bool {
    core.proposed == u64::MAX || !core.can_propose() || core.pool.len() == 0
}

/// Whether a step of the core takes more batches from what waits: it asks to
/// propose each of them under the next number, and no command is lost.
spec fn extends(
    step: (CoreState, Seq<CoreAction>),
    planned: Seq<Seq<Command>>,
    more: Seq<Seq<Command>>,
    submitted: Seq<Command>,
) -> bool {
    let all = planned + more;
    &&& step.0.proposed == all.len()
    &&& concat(all) + step.0.pool == submitted
    &&& proposed_all(step.0)
    &&& forall|op_num: OpNum|
        planned.len() < op_num <= all.len() ==> #[trigger] step.1.contains(
            ReplicaCoreAction::Propose(op_num, all[op_num - 1]),
        )
}

proof fn lemma_extends_compose(
    first: (CoreState, Seq<CoreAction>),
    second: (CoreState, Seq<CoreAction>),
    planned: Seq<Seq<Command>>,
    a: Seq<Seq<Command>>,
    b: Seq<Seq<Command>>,
    submitted: Seq<Command>,
)
    requires
        extends(first, planned, a, submitted),
        extends(second, planned + a, b, submitted),
    ensures
        extends((second.0, first.1 + second.1), planned, a + b, submitted),
{
    let all = planned + (a + b);
    assert(all =~= planned + a + b);
    let actions = first.1 + second.1;
    assert forall|op_num: OpNum| planned.len() < op_num <= all.len() implies
        #[trigger] actions.contains(ReplicaCoreAction::Propose(op_num, all[op_num - 1])) by {
        let wanted: CoreAction = ReplicaCoreAction::Propose(op_num, all[op_num - 1]);
        if op_num <= (planned + a).len() {
            assert(all[op_num - 1] == (planned + a)[op_num - 1]);
            assert(first.1.contains(wanted));
            let i = first.1.index_of(wanted);
            assert(actions[i] == wanted);
        } else {
            assert(second.1.contains(wanted));
            let i = second.1.index_of(wanted);
            assert(actions[first.1.len() + i] == wanted);
        }
    }
}

proof fn lemma_propose(
    core: CoreState,
    planned: Seq<Seq<Command>>,
    submitted: Seq<Command>,
) -> (more: Seq<Seq<Command>>)
    requires
        core.proposed == planned.len(),
        concat(planned) + core.pool == submitted,
    ensures
        extends(core.propose(), planned, more, submitted),
    decreases u64::MAX - core.proposed,
{
    if core.proposed == u64::MAX || !core.can_propose() || core.pool.len() == 0 {
        assert(planned + Seq::empty() =~= planned);
        Seq::empty()
    } else {
        let n = batch_len(core.pool.len(), core.config.max_batch_size);
        let op_num = (core.proposed + 1) as OpNum;
        let batch = core.pool.subrange(0, n);
        let next = CoreState {
            proposed: op_num,
            pool: core.pool.subrange(n, core.pool.len() as int),
            ..core
        };
        let one = seq![batch];
        let longer = planned + one;
        assert(longer.drop_last() =~= planned);
        assert(concat(longer) + next.pool =~= submitted) by {
            assert(batch + next.pool =~= core.pool);
            assert(concat(planned) + batch + next.pool =~= concat(planned) + (batch + next.pool));
        }
        let rest = lemma_propose(next, longer, submitted);
        let all = planned + (one + rest);
        assert(all =~= longer + rest);
        let action: CoreAction = ReplicaCoreAction::Propose(op_num, batch);
        let then = next.propose();
        let actions = seq![action] + then.1;
        assert forall|other: OpNum| planned.len() < other <= all.len() implies
            #[trigger] actions.contains(ReplicaCoreAction::Propose(other, all[other - 1])) by {
            let wanted: CoreAction = ReplicaCoreAction::Propose(other, all[other - 1]);
            if other == op_num {
                assert(all[other - 1] == batch);
                assert(actions[0] == wanted);
            } else {
                assert(then.1.contains(wanted));
                let i = then.1.index_of(wanted);
                assert(actions[1 + i] == wanted);
            }
        }
        one + rest
    }
}

proof fn lemma_commit_step(
    core: CoreState,
    vote: Vote,
    planned: Seq<Seq<Command>>,
    submitted: Seq<Command>,
) -> (more: Seq<Seq<Command>>)
    requires
        core.proposed == planned.len(),
        concat(planned) + core.pool == submitted,
        core.supports(vote),
    ensures
        extends(core.handle_commit(vote), planned, more, submitted),
{
    let voted = core.with_commit(vote);
    lemma_finalize_pool(voted);
    let finalized = voted.finalize_ready();
    let more = lemma_propose(finalized.0, planned, submitted);
    let proposed = finalized.0.propose();
    let actions = finalized.1 + proposed.1;
    let all = planned + more;
    assert forall|op_num: OpNum| planned.len() < op_num <= all.len() implies
        #[trigger] actions.contains(ReplicaCoreAction::Propose(op_num, all[op_num - 1])) by {
        let wanted: CoreAction = ReplicaCoreAction::Propose(op_num, all[op_num - 1]);
        assert(proposed.1.contains(wanted));
        let i = proposed.1.index_of(wanted);
        assert(actions[finalized.1.len() + i] == wanted);
    }
    more
}

proof fn lemma_finalize_pool(core: CoreState)
    ensures
        core.finalize_ready().0.pool == core.pool,
        core.finalize_ready().0.proposed == core.proposed,
    decreases u64::MAX - core.finalized,
{
    if core.finalized == u64::MAX || !core.can_finalize((core.finalized + 1) as OpNum) {
    } else {
        lemma_finalize_pool(CoreState { finalized: (core.finalized + 1) as OpNum, ..core });
    }
}

proof fn lemma_absorb_step(
    core: CoreState,
    op_num: OpNum,
    digest: Digest,
    votes: Seq<Vote>,
    planned: Seq<Seq<Command>>,
    submitted: Seq<Command>,
) -> (more: Seq<Seq<Command>>)
    requires
        core.proposed == planned.len(),
        concat(planned) + core.pool == submitted,
        proposed_all(core),
        core.ops.contains_key(op_num),
        digest == core.ops[op_num].pre_prepare.digest,
        forall|i: int|
            0 <= i < votes.len() ==> (#[trigger] votes[i]).op_num == op_num && votes[i].view_num
                == core.view_num,
    ensures
        extends(absorb_commits(core, op_num, digest, votes), planned, more, submitted),
    decreases votes.len(),
{
    if votes.len() == 0 || core.can_finalize(op_num) {
        assert(planned + Seq::empty() =~= planned);
        Seq::empty()
    } else if votes[0].digest != digest {
        lemma_absorb_step(core, op_num, digest, votes.drop_first(), planned, submitted)
    } else {
        let step = core.handle_commit(votes[0]);
        lemma_commit_advances(core, votes[0]);
        assert(step.0.ops.dom().contains(op_num));
        let a = lemma_commit_step(core, votes[0], planned, submitted);
        let b = lemma_absorb_step(
            step.0,
            op_num,
            digest,
            votes.drop_first(),
            planned + a,
            submitted,
        );
        lemma_extends_compose(
            step,
            absorb_commits(step.0, op_num, digest, votes.drop_first()),
            planned,
            a,
            b,
            submitted,
        );
        a + b
    }
}

/// What the primary keeps to: every number up to the last has its batch, known or
/// about to be proposed, and the batches and what still waits are the commands
/// that were submitted, in their order.
spec fn on_plan(
    state: ReplicaState,
    queue: Seq<CoreAction>,
    planned: Seq<Seq<Command>>,
    submitted: Seq<Command>,
) -> bool {
    let core = state.core;
    &&& state.wf()
    &&& core.is_primary()
    &&& all_fit(core, queue)
    &&& forall|i: int| 0 <= i < queue.len() ==> !(#[trigger] queue[i] is Prepare)
    &&& core.proposed == planned.len()
    &&& concat(planned) + core.pool == submitted
    &&& proposed_all(core)
    &&& forall|op_num: OpNum| 1 <= op_num <= planned.len() ==> #[trigger] has_batch(
        core,
        queue,
        op_num,
        planned[op_num - 1],
    )
}

/// Whether a number has a batch, known or about to be proposed.
spec fn has_batch(
    core: CoreState,
    queue: Seq<CoreAction>,
    op_num: OpNum,
    batch: Seq<Command>,
) -> bool {
    ||| core.ops.contains_key(op_num) && core.ops[op_num].commands == batch
    ||| queue.contains(ReplicaCoreAction::Propose(op_num, batch))
}

/// A step of the core keeps the primary on plan.
proof fn lemma_step_on_plan(
    state: ReplicaState,
    next: ReplicaState,
    step: (CoreState, Seq<CoreAction>),
    before: Seq<CoreAction>,
    waiting: Seq<CoreAction>,
    planned: Seq<Seq<Command>>,
    more: Seq<Seq<Command>>,
    submitted: Seq<Command>,
    later: Seq<Command>,
)
    requires
        on_plan(state, before, planned, submitted),
        next.wf(),
        next.core == step.0,
        all_fit(next.core, waiting + step.1),
        advances(state.core, step),
        extends(step, planned, more, later),
        forall|i: int| 0 <= i < waiting.len() ==> !(#[trigger] waiting[i] is Prepare),
        forall|op_num: OpNum, batch: Seq<Command>| #[trigger]
            before.contains(ReplicaCoreAction::Propose(op_num, batch)) ==> waiting.contains(
                ReplicaCoreAction::Propose(op_num, batch),
            ),
    ensures
        on_plan(next, waiting + step.1, planned + more, later),
{
    let queue = waiting + step.1;
    let all = planned + more;
    assert forall|i: int| 0 <= i < queue.len() implies !(#[trigger] queue[i] is Prepare) by {
        if i < waiting.len() {
            assert(queue[i] == waiting[i]);
        } else {
            assert(queue[i] == step.1[i - waiting.len()]);
        }
    }
    assert forall|op_num: OpNum| 1 <= op_num <= all.len() implies #[trigger] has_batch(
        next.core,
        queue,
        op_num,
        all[op_num - 1],
    ) by {
        if op_num <= planned.len() {
            assert(all[op_num - 1] == planned[op_num - 1]);
            assert(has_batch(state.core, before, op_num, planned[op_num - 1]));
            if state.core.ops.contains_key(op_num) {
                assert(next.core.ops.contains_key(op_num));
            }
            let wanted: CoreAction = ReplicaCoreAction::Propose(op_num, planned[op_num - 1]);
            if before.contains(wanted) {
                assert(waiting.contains(wanted));
                let i = waiting.index_of(wanted);
                assert(queue[i] == wanted);
            }
        } else {
            let wanted: CoreAction = ReplicaCoreAction::Propose(op_num, all[op_num - 1]);
            assert(step.1.contains(wanted));
            let i = step.1.index_of(wanted);
            assert(queue[waiting.len() + i] == wanted);
        }
    }
}

proof fn lemma_perform_on_plan(
    state: ReplicaState,
    action: CoreAction,
    waiting: Seq<CoreAction>,
    planned: Seq<Seq<Command>>,
    submitted: Seq<Command>,
) -> (more: Seq<Seq<Command>>)
    requires
        on_plan(state, seq![action] + waiting, planned, submitted),
    ensures
        on_plan(
            state.perform(action).state,
            waiting + state.perform(action).queued,
            planned + more,
            submitted,
        ),
{
    let queue = seq![action] + waiting;
    let core = state.core;
    let step = state.perform(action);
    lemma_perform_keeps_fit(state, action, waiting);
    assert(queue[0] == action);
    assert(fits(core, queue[0]));
    assert forall|i: int| 0 <= i < waiting.len() implies !(#[trigger] waiting[i] is Prepare) by {
        assert(queue[i + 1] == waiting[i]);
    }
    assert forall|other: CoreAction| #[trigger] queue.contains(other) implies other == action
        || waiting.contains(other) by {
        let i = queue.index_of(other);
        if i > 0 {
            assert(waiting[i - 1] == other);
        }
    }
    match action {
        ReplicaCoreAction::Propose(op_num, commands) => {
            let after = step.state.core;
            let next = waiting + step.queued;
            assert(next =~= waiting);
            assert(planned + Seq::empty() =~= planned);
            assert forall|other: OpNum| 1 <= other <= planned.len() implies #[trigger] has_batch(
                after,
                next,
                other,
                planned[other - 1],
            ) by {
                assert(has_batch(core, queue, other, planned[other - 1]));
                let wanted: CoreAction = ReplicaCoreAction::Propose(other, planned[other - 1]);
                if other == op_num {
                    assert(queue.contains(wanted));
                    let i = queue.index_of(wanted);
                    if i > 0 {
                        assert(clash(queue[0], queue[i]));
                    }
                    assert(wanted == action);
                } else if queue.contains(wanted) {
                    assert(waiting.contains(wanted));
                }
            }
            Seq::empty()
        },
        ReplicaCoreAction::Prepare(_) => Seq::empty(),
        ReplicaCoreAction::Commit(op_num) => {
            let own = state.own_vote(op_num);
            let votes = filed(state.early_commits, op_num);
            let first = core.handle_commit(own);
            lemma_commit_advances(core, own);
            assert(first.0.ops.dom().contains(op_num));
            let a = lemma_commit_step(core, own, planned, submitted);
            lemma_absorb_commits_advances(first.0, op_num, own.digest, votes);
            let rest = absorb_commits(first.0, op_num, own.digest, votes);
            let b = lemma_absorb_step(
                first.0,
                op_num,
                own.digest,
                votes,
                planned + a,
                submitted,
            );
            lemma_advances_compose(core, first, rest);
            lemma_extends_compose(first, rest, planned, a, b, submitted);
            assert forall|other: OpNum, batch: Seq<Command>| #[trigger]
                queue.contains(ReplicaCoreAction::Propose(other, batch)) implies waiting.contains(
                ReplicaCoreAction::Propose(other, batch),
            ) by {}
            lemma_step_on_plan(
                state,
                step.state,
                (rest.0, first.1 + rest.1),
                queue,
                waiting,
                planned,
                a + b,
                submitted,
                submitted,
            );
            a + b
        },
        ReplicaCoreAction::Finalize(_) => {
            let next = waiting + step.queued;
            assert(next =~= waiting);
            assert(planned + Seq::empty() =~= planned);
            assert forall|other: OpNum| 1 <= other <= planned.len() implies #[trigger] has_batch(
                core,
                next,
                other,
                planned[other - 1],
            ) by {
                assert(has_batch(core, queue, other, planned[other - 1]));
            }
            Seq::empty()
        },
    }
}

proof fn lemma_perform_all_on_plan(
    state: ReplicaState,
    actions: Seq<CoreAction>,
    done: int,
    planned: Seq<Seq<Command>>,
    submitted: Seq<Command>,
) -> (more: Seq<Seq<Command>>)
    requires
        on_plan(state, actions, planned, submitted),
        0 <= done <= actions.len(),
    ensures
        ({
            let step = state.perform_all(actions.subrange(0, done));
            on_plan(
                step.state,
                actions.subrange(done, actions.len() as int) + step.queued,
                planned + more,
                submitted,
            )
        }),
    decreases done,
{
    if done == 0 {
        assert(actions.subrange(0, actions.len() as int) + Seq::<CoreAction>::empty() =~= actions);
        assert(planned + Seq::empty() =~= planned);
        Seq::empty()
    } else {
        let a = lemma_perform_all_on_plan(state, actions, done - 1, planned, submitted);
        assert(actions.subrange(0, done).drop_last() =~= actions.subrange(0, done - 1));
        let before = state.perform_all(actions.subrange(0, done - 1));
        let action = actions[done - 1];
        let rest = actions.subrange(done, actions.len() as int);
        assert(actions.subrange(done - 1, actions.len() as int) + before.queued =~= seq![action]
            + (rest + before.queued));
        let b = lemma_perform_on_plan(
            before.state,
            action,
            rest + before.queued,
            planned + a,
            submitted,
        );
        let last = before.state.perform(action);
        assert(rest + before.queued + last.queued =~= rest + (before.queued + last.queued));
        assert(planned + a + b =~= planned + (a + b));
        a + b
    }
}

proof fn lemma_settle_on_plan(
    state: ReplicaState,
    queue: Seq<CoreAction>,
    rounds: nat,
    planned: Seq<Seq<Command>>,
    submitted: Seq<Command>,
) -> (more: Seq<Seq<Command>>)
    requires
        on_plan(state, queue, planned, submitted),
        below(queue, rounds),
    ensures
        on_plan(state.settle(queue, rounds).0, Seq::empty(), planned + more, submitted),
    decreases rounds,
{
    if queue.len() == 0 {
        assert(queue =~= Seq::empty());
        assert(planned + Seq::empty() =~= planned);
        Seq::empty()
    } else {
        assert(level(queue[0]) < rounds);
        let step = state.perform_all(queue);
        assert(queue.subrange(0, queue.len() as int) =~= queue);
        let a = lemma_perform_all_on_plan(state, queue, queue.len() as int, planned, submitted);
        lemma_perform_all_keeps_fit(state, queue, queue.len() as int);
        assert(queue.subrange(queue.len() as int, queue.len() as int) + step.queued
            =~= step.queued);
        assert(below(queue, (rounds - 1) as nat + 1));
        let b = lemma_settle_on_plan(
            step.state,
            step.queued,
            (rounds - 1) as nat,
            planned + a,
            submitted,
        );
        assert(planned + a + b =~= planned + (a + b));
        a + b
    }
}

/// The commands that some calls submit, in order.
pub open spec fn submits(calls: Seq<Call>) -> Seq<Command>
    decreases calls.len(),
{
    if calls.len() == 0 {
        Seq::empty()
    } else {
        match calls.last() {
            Call::Submit(command) => submits(calls.drop_last()).push(command),
            Call::Receive(_, _) => submits(calls.drop_last()),
        }
    }
}

proof fn lemma_call_on_plan(
    state: ReplicaState,
    call: Call,
    planned: Seq<Seq<Command>>,
    submitted: Seq<Command>,
) -> (more: Seq<Seq<Command>>)
    requires
        on_plan(state, Seq::empty(), planned, submitted),
        call matches Call::Receive(message, valid) ==> state.admits(message, valid),
    ensures
        match call {
            Call::Submit(command) => on_plan(
                state.submit(command).0,
                Seq::empty(),
                planned + more,
                submitted.push(command),
            ),
            Call::Receive(message, valid) => on_plan(
                state.receive(message, valid).0,
                Seq::empty(),
                planned + more,
                submitted,
            ),
        },
{
    let core = state.core;
    let none = Seq::<CoreAction>::empty();
    assert(planned + Seq::empty() =~= planned);
    match call {
        Call::Submit(command) => {
            let taken = CoreState { pool: core.pool.push(command), ..core };
            let later = submitted.push(command);
            assert(concat(planned) + taken.pool =~= later);
            let a = lemma_propose(taken, planned, later);
            lemma_propose_advances(taken);
            let step = core.submit(command);
            lemma_step_can_settle(state, step);
            let next = ReplicaState { core: step.0, ..state };
            assert(none + step.1 =~= step.1);
            lemma_step_on_plan(state, next, step, none, none, planned, a, submitted, later);
            let b = lemma_settle_on_plan(next, step.1, 3, planned + a, later);
            assert(planned + a + b =~= planned + (a + b));
            a + b
        },
        Call::Receive(message, valid) => {
            let after = state.receive(message, valid).0;
            match message {
                Message::PrePrepare(pre_prepare, commands) => {
                    if pre_prepare.view_num != core.view_num || core.ops.contains_key(
                        pre_prepare.op_num,
                    ) || !valid {
                    } else {
                        let op_num = pre_prepare.op_num;
                        if op_num >= 1 {
                            assert(has_batch(core, none, op_num, planned[op_num - 1]));
                        }
                        lemma_pre_prepare_sound(core, pre_prepare, commands);
                        let step = core.handle_pre_prepare(pre_prepare, commands);
                        assert(after == ReplicaState { core: step.0, ..state });
                        assert forall|other: OpNum| 1 <= other <= planned.len() implies
                            #[trigger] has_batch(step.0, none, other, planned[other - 1]) by {
                            assert(has_batch(core, none, other, planned[other - 1]));
                        }
                    }
                    Seq::empty()
                },
                Message::Prepare(vote) => {
                    if core.can_commit(vote.op_num) || vote.view_num != core.view_num
                        || !core.ops.contains_key(vote.op_num) || vote.digest
                        != core.ops[vote.op_num].pre_prepare.digest || !valid {
                        lemma_filed_on_plan(state, after, planned, submitted);
                        Seq::empty()
                    } else {
                        let step = core.handle_prepare(vote);
                        lemma_prepare_advances(core, vote);
                        lemma_step_can_settle(state, step);
                        let next = ReplicaState { core: step.0, ..state };
                        assert(none + step.1 =~= step.1);
                        assert(extends(step, planned, Seq::empty(), submitted));
                        lemma_step_on_plan(
                            state,
                            next,
                            step,
                            none,
                            none,
                            planned,
                            Seq::empty(),
                            submitted,
                            submitted,
                        );
                        lemma_settle_on_plan(next, step.1, 3, planned, submitted)
                    }
                },
                Message::Commit(vote) => {
                    if core.can_finalize(vote.op_num) || vote.view_num != core.view_num
                        || !core.ops.contains_key(vote.op_num) || vote.digest
                        != core.ops[vote.op_num].pre_prepare.digest || !valid {
                        lemma_filed_on_plan(state, after, planned, submitted);
                        Seq::empty()
                    } else {
                        let step = core.handle_commit(vote);
                        lemma_commit_advances(core, vote);
                        lemma_step_can_settle(state, step);
                        let a = lemma_commit_step(core, vote, planned, submitted);
                        let next = ReplicaState { core: step.0, ..state };
                        assert(none + step.1 =~= step.1);
                        lemma_step_on_plan(
                            state,
                            next,
                            step,
                            none,
                            none,
                            planned,
                            a,
                            submitted,
                            submitted,
                        );
                        let b = lemma_settle_on_plan(next, step.1, 3, planned + a, submitted);
                        assert(planned + a + b =~= planned + (a + b));
                        a + b
                    }
                },
            }
        },
    }
}

/// Filing a vote changes nothing of the plan.
proof fn lemma_filed_on_plan(
    state: ReplicaState,
    next: ReplicaState,
    planned: Seq<Seq<Command>>,
    submitted: Seq<Command>,
)
    requires
        on_plan(state, Seq::empty(), planned, submitted),
        next.core == state.core,
        next.wf(),
    ensures
        on_plan(next, Seq::empty(), planned, submitted),
{
}

proof fn lemma_calls_on_plan(config: ReplicaCoreConfig, calls: Seq<Call>) -> (planned: Seq<
    Seq<Command>,
>)
    requires
        ReplicaState::initial(config).wf(),
        config.is_primary(0),
        admits_all(ReplicaState::initial(config), calls),
    ensures
        on_plan(
            after_calls(ReplicaState::initial(config), calls).0,
            Seq::empty(),
            planned,
            submits(calls),
        ),
    decreases calls.len(),
{
    let start = ReplicaState::initial(config);
    if calls.len() == 0 {
        assert(concat(Seq::empty()) + start.core.pool =~= Seq::<Command>::empty());
        assert(on_plan(start, Seq::empty(), Seq::empty(), submits(calls)));
        Seq::empty()
    } else {
        let planned = lemma_calls_on_plan(config, calls.drop_last());
        let before = after_calls(start, calls.drop_last()).0;
        let more = lemma_call_on_plan(
            before,
            calls.last(),
            planned,
            submits(calls.drop_last()),
        );
        planned + more
    }
}

/// The primary proposes every command that is submitted, once and in the order of
/// submission: over any calls, the batches that it has proposed, in the order of
/// their numbers, and what still waits are together what was submitted. And it
/// does not hold back: something waits only while no more may be in flight.
pub proof fn proposes_what_is_submitted(config: ReplicaCoreConfig, calls: Seq<Call>)
    requires
        ReplicaState::initial(config).wf(),
        config.is_primary(0),
        admits_all(ReplicaState::initial(config), calls),
    ensures
        ({
            let core = after_calls(ReplicaState::initial(config), calls).0.core;
            &&& forall|op_num: OpNum|
                1 <= op_num <= core.proposed ==> #[trigger] core.ops.contains_key(op_num)
            &&& concat(batches(core, run(0, core.proposed))) + core.pool == submits(calls)
            &&& core.pool.len() == 0 || core.proposed == u64::MAX || core.proposed
                >= core.finalized + config.num_inflight_block
        }),
{
    let planned = lemma_calls_on_plan(config, calls);
    let state = after_calls(ReplicaState::initial(config), calls).0;
    let core = state.core;
    let numbers = run(0, core.proposed);
    calls_lead(ReplicaState::initial(config), calls);
    assert forall|op_num: OpNum| 1 <= op_num <= core.proposed implies
        #[trigger] core.ops.contains_key(op_num) && core.ops[op_num].commands == planned[op_num
        - 1] by {
        assert(has_batch(core, Seq::empty(), op_num, planned[op_num - 1]));
    }
    assert(batches(core, numbers) =~= planned) by {
        assert forall|i: int| 0 <= i < planned.len() implies #[trigger] batches(core, numbers)[i]
            == planned[i] by {
            let op_num = numbers[i];
            assert(core.ops.contains_key(op_num));
            assert(core.ops[op_num].commands == planned[op_num - 1]);
        }
    }
}

/// What the primary delivers is what was submitted, in the order of submission,
/// up to some command, and each once.
pub proof fn delivers_what_is_submitted(config: ReplicaCoreConfig, calls: Seq<Call>)
    requires
        ReplicaState::initial(config).wf(),
        config.is_primary(0),
        admits_all(ReplicaState::initial(config), calls),
    ensures
        ({
            let (after, actions) = after_calls(ReplicaState::initial(config), calls);
            let commands = concat(delivered(actions));
            &&& after.core.finalized <= after.core.proposed
            &&& commands.len() <= submits(calls).len()
            &&& commands == submits(calls).subrange(0, commands.len() as int)
        }),
{
    let start = ReplicaState::initial(config);
    let (after, actions) = after_calls(start, calls);
    let core = after.core;
    proposes_what_is_submitted(config, calls);
    calls_lead(start, calls);
    if core.finalized >= 1 {
        assert(core.ops.contains_key(core.finalized));
    }
    let low = run(0, core.finalized);
    let high = run(core.finalized, core.proposed);
    assert(low + high =~= run(0, core.proposed));
    assert(batches(core, low) + batches(core, high) =~= batches(core, run(0, core.proposed)));
    lemma_concat(batches(core, low), batches(core, high));
    let commands = concat(batches(core, low));
    assert(submits(calls).subrange(0, commands.len() as int) =~= commands);
}

/// A batch takes as many commands as it may: all that wait, or as many as are
/// allowed.
pub proof fn batches_are_full(core: CoreState)
    requires
        core.can_propose(),
        core.proposed < u64::MAX,
        core.pool.len() > 0,
    ensures
        core.propose().1.len() > 0,
        core.propose().1[0] matches ReplicaCoreAction::Propose(op_num, commands) && op_num
            == core.proposed + 1 && (commands == core.pool || commands.len()
            == core.config.max_batch_size) && commands.len() <= core.config.max_batch_size,
{
    let n = batch_len(core.pool.len(), core.config.max_batch_size);
    if core.pool.len() <= core.config.max_batch_size {
        assert(core.pool.subrange(0, n) =~= core.pool);
    }
}

} // verus!
