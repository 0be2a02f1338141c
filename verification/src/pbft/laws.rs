//! What holds of a replica over whole calls, and across replicas.
use super::message::{Message, Vote};
use super::progress::{
    advances, all_fit, below, finalizes, fits, lemma_absorb_commits_advances,
    lemma_absorb_prepares_advances, lemma_advances_compose, lemma_commit_advances,
    lemma_finalize_advances, lemma_finalizes_compose, lemma_finalizes_one, lemma_ops_kept_compose,
    lemma_perform_all_keeps_fit, lemma_pre_prepare_sound, lemma_prepare_advances,
    lemma_propose_advances, lemma_step_can_settle, level, ops_kept, run,
};
use super::replica::{
    absorb_commits, absorb_prepares, filed, Action, ReplicaAction, ReplicaState,
};
use super::replica_core::{CoreAction, CoreState, ReplicaCoreAction};
use super::{OpNum, ReplicaId};
use crate::command::{batch_len, Command};
use vstd::prelude::*;

verus! {

/// The batches that actions deliver, in order.
pub open spec fn delivered(actions: Seq<Action>) -> Seq<Seq<Command>>
    decreases actions.len(),
{
    if actions.len() == 0 {
        Seq::empty()
    } else {
        let before = delivered(actions.drop_last());
        match actions.last() {
            ReplicaAction::Finalize(commands, _) => before.push(commands),
            _ => before,
        }
    }
}

/// The batches of operations.
pub open spec fn batches(core: CoreState, op_nums: Seq<OpNum>) -> Seq<Seq<Command>> {
    op_nums.map_values(|op_num: OpNum| core.ops[op_num].commands)
}

/// Whether an action says what the replica stands by: it votes for the one
/// batch that it knows under a number, it proposes a batch under that batch's
/// digest, and only as the primary, and it delivers in its own view.
pub open spec fn stands_by(state: ReplicaState, action: Action) -> bool {
    match action {
        ReplicaAction::Send(Message::PrePrepare(pre_prepare, commands)) => {
            &&& state.core.is_primary()
            &&& state.core.ops.contains_key(pre_prepare.op_num)
            &&& pre_prepare == state.core.ops[pre_prepare.op_num].pre_prepare
            &&& commands == state.core.ops[pre_prepare.op_num].commands
            &&& pre_prepare == state.proposal(pre_prepare.op_num, commands)
        },
        ReplicaAction::Send(Message::Prepare(vote)) => {
            &&& state.core.ops.contains_key(vote.op_num)
            &&& vote == state.own_vote(vote.op_num)
        },
        ReplicaAction::Send(Message::Commit(vote)) => {
            &&& state.core.ops.contains_key(vote.op_num)
            &&& vote == state.own_vote(vote.op_num)
        },
        ReplicaAction::Finalize(_, view_num) => view_num == state.core.view_num,
    }
}

/// Whether a state leads to another without losing anything, and the actions
/// are ones that the later state stands by.
pub open spec fn leads_to(before: ReplicaState, after: ReplicaState, actions: Seq<Action>) -> bool {
    &&& after.wf()
    &&& after.core.config == before.core.config
    &&& after.core.view_num == before.core.view_num
    &&& before.core.proposed <= after.core.proposed
    &&& before.core.finalized <= after.core.finalized
    &&& ops_kept(before.core, after.core)
    &&& forall|i: int| 0 <= i < actions.len() ==> stands_by(after, #[trigger] actions[i])
}

pub(crate) proof fn lemma_leads_to_compose(
    a: ReplicaState,
    b: ReplicaState,
    c: ReplicaState,
    first: Seq<Action>,
    second: Seq<Action>,
)
    requires
        leads_to(a, b, first),
        leads_to(b, c, second),
    ensures
        leads_to(a, c, first + second),
{
    lemma_ops_kept_compose(a.core, b.core, c.core);
    let actions = first + second;
    assert forall|i: int| 0 <= i < actions.len() implies stands_by(c, #[trigger] actions[i]) by {
        if i < first.len() {
            assert(actions[i] == first[i]);
            assert(stands_by(b, first[i]));
        } else {
            assert(actions[i] == second[i - first.len()]);
        }
    }
}

pub(crate) proof fn lemma_delivered_compose(a: Seq<Action>, b: Seq<Action>)
    ensures
        delivered(a + b) == delivered(a) + delivered(b),
    decreases b.len(),
{
    if b.len() == 0 {
        assert(a + b =~= a);
        assert(delivered(a) + delivered(b) =~= delivered(a));
    } else {
        lemma_delivered_compose(a, b.drop_last());
        assert((a + b).drop_last() =~= a + b.drop_last());
        assert((a + b).last() == b.last());
        assert(delivered(a + b) =~= delivered(a) + delivered(b));
    }
}

proof fn lemma_delivered_one(action: Action)
    ensures
        delivered(seq![action]) == match action {
            ReplicaAction::Finalize(commands, _) => seq![commands],
            _ => Seq::empty(),
        },
{
    assert(seq![action].drop_last() =~= Seq::empty());
    assert(delivered(Seq::empty()) == Seq::<Seq<Command>>::empty());
    assert(seq![action].last() == action);
    match action {
        ReplicaAction::Finalize(commands, _) => {
            assert(Seq::<Seq<Command>>::empty().push(commands) =~= seq![commands]);
        },
        _ => {},
    }
}

/// What actions that fit finalize is known.
proof fn lemma_finalizes_known(core: CoreState, actions: Seq<CoreAction>)
    requires
        forall|i: int| 0 <= i < actions.len() ==> fits(core, #[trigger] actions[i]),
    ensures
        forall|i: int|
            0 <= i < finalizes(actions).len() ==> core.ops.contains_key(
                #[trigger] finalizes(actions)[i],
            ),
    decreases actions.len(),
{
    if actions.len() > 0 {
        assert forall|i: int| 0 <= i < actions.drop_last().len() implies fits(
            core,
            #[trigger] actions.drop_last()[i],
        ) by {
            assert(actions.drop_last()[i] == actions[i]);
        }
        lemma_finalizes_known(core, actions.drop_last());
        assert(fits(core, actions[actions.len() - 1]));
        let before = finalizes(actions.drop_last());
        assert forall|i: int| 0 <= i < finalizes(actions).len() implies core.ops.contains_key(
            #[trigger] finalizes(actions)[i],
        ) by {
            if i < before.len() {
                assert(finalizes(actions)[i] == before[i]);
            }
        }
    }
}

/// Batches of known operations stay as they are.
proof fn lemma_batches_kept(before: CoreState, after: CoreState, op_nums: Seq<OpNum>)
    requires
        ops_kept(before, after),
        forall|i: int|
            0 <= i < op_nums.len() ==> before.ops.contains_key(#[trigger] op_nums[i]),
    ensures
        batches(after, op_nums) == batches(before, op_nums),
{
    assert forall|i: int| 0 <= i < op_nums.len() implies batches(after, op_nums)[i] == batches(
        before,
        op_nums,
    )[i] by {
        assert(before.ops.contains_key(op_nums[i]));
    }
    assert(batches(after, op_nums) =~= batches(before, op_nums));
}

/// One action: what it delivers, what it leads to.
proof fn lemma_perform_leads(state: ReplicaState, action: CoreAction)
    requires
        state.wf(),
        fits(state.core, action),
        state.perform(action).state.wf(),
    ensures
        ({
            let step = state.perform(action);
            &&& leads_to(state, step.state, step.actions)
            &&& delivered(step.actions) == batches(state.core, finalizes(seq![action]))
            &&& finalizes(step.queued) == run(state.core.finalized, step.state.core.finalized)
        }),
{
    let step = state.perform(action);
    lemma_finalizes_one(action);
    lemma_delivered_one(step.actions[0]);
    assert(step.actions =~= seq![step.actions[0]]);
    assert(run(state.core.finalized, state.core.finalized) =~= Seq::empty());
    match action {
        ReplicaCoreAction::Propose(op_num, commands) => {
            lemma_pre_prepare_sound(state.core, state.proposal(op_num, commands), commands);
            assert(finalizes(step.queued) =~= Seq::empty());
            assert(batches(state.core, Seq::empty()) =~= Seq::empty());
        },
        ReplicaCoreAction::Prepare(op_num) => {
            let vote = state.own_vote(op_num);
            let first = state.core.handle_prepare(vote);
            let votes = filed(state.early_prepares, op_num);
            lemma_prepare_advances(state.core, vote);
            assert(first.0.ops.dom().contains(op_num));
            lemma_absorb_prepares_advances(first.0, op_num, vote.digest, votes);
            let rest = absorb_prepares(first.0, op_num, vote.digest, votes);
            lemma_advances_compose(state.core, first, rest);
            assert(batches(state.core, Seq::empty()) =~= Seq::empty());
        },
        ReplicaCoreAction::Commit(op_num) => {
            let vote = state.own_vote(op_num);
            let first = state.core.handle_commit(vote);
            let votes = filed(state.early_commits, op_num);
            lemma_commit_advances(state.core, vote);
            assert(first.0.ops.dom().contains(op_num));
            lemma_absorb_commits_advances(first.0, op_num, vote.digest, votes);
            let rest = absorb_commits(first.0, op_num, vote.digest, votes);
            lemma_advances_compose(state.core, first, rest);
            assert(batches(state.core, Seq::empty()) =~= Seq::empty());
        },
        ReplicaCoreAction::Finalize(op_num) => {
            assert(batches(state.core, seq![op_num]) =~= seq![state.core.ops[op_num].commands]);
        },
    }
}

proof fn lemma_perform_all_leads(state: ReplicaState, actions: Seq<CoreAction>, done: int)
    requires
        state.wf(),
        all_fit(state.core, actions),
        0 <= done <= actions.len(),
    ensures
        ({
            let step = state.perform_all(actions.subrange(0, done));
            &&& leads_to(state, step.state, step.actions)
            &&& delivered(step.actions) == batches(
                step.state.core,
                finalizes(actions.subrange(0, done)),
            )
            &&& finalizes(step.queued) == run(state.core.finalized, step.state.core.finalized)
        }),
    decreases done,
{
    let taken = actions.subrange(0, done);
    if done == 0 {
        assert(run(state.core.finalized, state.core.finalized) =~= Seq::empty());
        assert(batches(state.core, Seq::empty()) =~= Seq::empty());
    } else {
        lemma_perform_all_leads(state, actions, done - 1);
        lemma_perform_all_keeps_fit(state, actions, done - 1);
        lemma_perform_all_keeps_fit(state, actions, done);
        let earlier = actions.subrange(0, done - 1);
        assert(taken.drop_last() =~= earlier);
        let before = state.perform_all(earlier);
        let action = actions[done - 1];
        let ahead = actions.subrange(done - 1, actions.len() as int) + before.queued;
        assert(ahead[0] == action);
        assert(fits(before.state.core, ahead[0]));
        let last = before.state.perform(action);
        lemma_perform_leads(before.state, action);
        lemma_leads_to_compose(state, before.state, last.state, before.actions, last.actions);
        lemma_delivered_compose(before.actions, last.actions);
        lemma_finalizes_compose(before.queued, last.queued);
        assert(run(state.core.finalized, before.state.core.finalized) + run(
            before.state.core.finalized,
            last.state.core.finalized,
        ) =~= run(state.core.finalized, last.state.core.finalized));
        assert(taken =~= earlier + seq![action]);
        lemma_finalizes_compose(earlier, seq![action]);
        // what was finalized before was known at the start
        assert forall|i: int| 0 <= i < earlier.len() implies fits(
            state.core,
            #[trigger] earlier[i],
        ) by {
            assert(earlier[i] == actions[i]);
        }
        lemma_finalizes_known(state.core, earlier);
        assert forall|i: int| 0 <= i < finalizes(earlier).len() implies
            before.state.core.ops.contains_key(#[trigger] finalizes(earlier)[i]) by {
            assert(state.core.ops.contains_key(finalizes(earlier)[i]));
        }
        lemma_batches_kept(before.state.core, last.state.core, finalizes(earlier));
        lemma_finalizes_one(action);
        lemma_batches_kept(before.state.core, last.state.core, finalizes(seq![action]));
        assert(batches(last.state.core, finalizes(earlier)) + batches(
            last.state.core,
            finalizes(seq![action]),
        ) =~= batches(last.state.core, finalizes(taken)));
    }
}

proof fn lemma_settle_leads(state: ReplicaState, queue: Seq<CoreAction>, rounds: nat)
    requires
        state.wf(),
        all_fit(state.core, queue),
        below(queue, rounds),
    ensures
        ({
            let (after, actions) = state.settle(queue, rounds);
            &&& leads_to(state, after, actions)
            &&& delivered(actions) == batches(
                after.core,
                finalizes(queue) + run(state.core.finalized, after.core.finalized),
            )
        }),
    decreases rounds,
{
    if queue.len() == 0 {
        assert(finalizes(queue) + run(state.core.finalized, state.core.finalized) =~= Seq::empty());
        assert(batches(state.core, Seq::empty()) =~= Seq::empty());
    } else {
        assert(level(queue[0]) < rounds);
        let step = state.perform_all(queue);
        assert(queue.subrange(0, queue.len() as int) =~= queue);
        lemma_perform_all_leads(state, queue, queue.len() as int);
        lemma_perform_all_keeps_fit(state, queue, queue.len() as int);
        assert(queue.subrange(queue.len() as int, queue.len() as int) + step.queued
            =~= step.queued);
        assert(below(queue, (rounds - 1) as nat + 1));
        lemma_settle_leads(step.state, step.queued, (rounds - 1) as nat);
        let (after, actions) = step.state.settle(step.queued, (rounds - 1) as nat);
        lemma_leads_to_compose(state, step.state, after, step.actions, actions);
        lemma_delivered_compose(step.actions, actions);
        lemma_finalizes_known(state.core, queue);
        assert forall|i: int| 0 <= i < finalizes(queue).len() implies
            step.state.core.ops.contains_key(#[trigger] finalizes(queue)[i]) by {
            assert(state.core.ops.contains_key(finalizes(queue)[i]));
        }
        lemma_batches_kept(step.state.core, after.core, finalizes(queue));
        let first = run(state.core.finalized, step.state.core.finalized);
        let second = run(step.state.core.finalized, after.core.finalized);
        assert(first + second =~= run(state.core.finalized, after.core.finalized));
        assert(batches(after.core, finalizes(queue)) + batches(after.core, first + second)
            =~= batches(after.core, finalizes(queue) + (first + second)));
    }
}

proof fn lemma_follow_leads(state: ReplicaState, step: (CoreState, Seq<CoreAction>))
    requires
        state.wf(),
        advances(state.core, step),
    ensures
        ({
            let (after, actions) = state.follow(step);
            &&& leads_to(state, after, actions)
            &&& delivered(actions) == batches(
                after.core,
                run(state.core.finalized, after.core.finalized),
            )
        }),
{
    lemma_step_can_settle(state, step);
    let next = ReplicaState { core: step.0, ..state };
    lemma_settle_leads(next, step.1, 3);
    let (after, actions) = next.settle(step.1, 3);
    assert(leads_to(state, next, Seq::empty()));
    lemma_leads_to_compose(state, next, after, Seq::empty(), actions);
    assert(Seq::<Action>::empty() + actions =~= actions);
    assert(run(state.core.finalized, next.core.finalized) + run(
        next.core.finalized,
        after.core.finalized,
    ) =~= run(state.core.finalized, after.core.finalized));
}

/// A command from a client changes no known operation and takes nothing back.
/// What is delivered are the batches that directly follow those delivered
/// before, in the order of their numbers, each once. The replica stands by
/// everything it says.
pub proof fn submit_leads(state: ReplicaState, command: Command)
    requires
        state.wf(),
    ensures
        ({
            let (after, actions) = state.submit(command);
            &&& leads_to(state, after, actions)
            &&& delivered(actions) == batches(
                after.core,
                run(state.core.finalized, after.core.finalized),
            )
        }),
{
    let step = state.core.submit(command);
    assert(run(state.core.finalized, state.core.finalized) =~= Seq::empty());
    if state.core.is_primary() {
        lemma_propose_advances(
            CoreState { pool: state.core.pool.push(command), ..state.core },
        );
    }
    lemma_follow_leads(state, step);
}

/// The same holds of a message from another replica.
pub proof fn receive_leads(state: ReplicaState, message: Message<Seq<Command>>, valid: bool)
    requires
        state.wf(),
        state.admits(message, valid),
    ensures
        ({
            let (after, actions) = state.receive(message, valid);
            &&& leads_to(state, after, actions)
            &&& delivered(actions) == batches(
                after.core,
                run(state.core.finalized, after.core.finalized),
            )
        }),
{
    let core = state.core;
    let (after, actions) = state.receive(message, valid);
    assert(run(core.finalized, core.finalized) =~= Seq::empty());
    assert(batches(core, Seq::empty()) =~= Seq::empty());
    match message {
        Message::PrePrepare(pre_prepare, commands) => {
            if pre_prepare.view_num != core.view_num || core.ops.contains_key(pre_prepare.op_num)
                || !valid {
            } else {
                let step = core.handle_pre_prepare(pre_prepare, commands);
                lemma_pre_prepare_sound(core, pre_prepare, commands);
                let next = ReplicaState { core: step.0, ..state };
                assert(leads_to(state, next, Seq::empty()));
                lemma_settle_leads(next, step.1, 3);
                lemma_finalizes_one(ReplicaCoreAction::Prepare(pre_prepare.op_num));
                lemma_leads_to_compose(state, next, after, Seq::empty(), actions);
                assert(Seq::<Action>::empty() + actions =~= actions);
                assert(finalizes(step.1) =~= Seq::empty());
                assert(finalizes(step.1) + run(core.finalized, after.core.finalized) =~= run(
                    core.finalized,
                    after.core.finalized,
                ));
            }
        },
        Message::Prepare(vote) => {
            if core.can_commit(vote.op_num) || vote.view_num != core.view_num
                || !core.ops.contains_key(vote.op_num) || vote.digest
                != core.ops[vote.op_num].pre_prepare.digest || !valid {
            } else {
                lemma_prepare_advances(core, vote);
                lemma_follow_leads(state, core.handle_prepare(vote));
            }
        },
        Message::Commit(vote) => {
            if core.can_finalize(vote.op_num) || vote.view_num != core.view_num
                || !core.ops.contains_key(vote.op_num) || vote.digest
                != core.ops[vote.op_num].pre_prepare.digest || !valid {
            } else {
                lemma_commit_advances(core, vote);
                lemma_follow_leads(state, core.handle_commit(vote));
            }
        },
    }
}

/// A finalized operation has a quorum of commits, each under the name of its
/// voter and for the batch that was finalized.
pub proof fn finalized_has_quorum(state: ReplicaState, op_num: OpNum)
    requires
        state.wf(),
        1 <= op_num <= state.core.finalized,
    ensures
        state.core.ops.contains_key(op_num),
        state.core.ops[op_num].prepares.dom().len() + 1 >= state.core.config.quorum(),
        state.core.ops[op_num].commits.dom().len() >= state.core.config.quorum(),
        forall|id: ReplicaId| #[trigger]
            state.core.ops[op_num].commits.contains_key(id) ==> {
                let vote = state.core.ops[op_num].commits[id];
                &&& vote.replica_id == id
                &&& vote.op_num == op_num
                &&& vote.view_num == state.core.view_num
                &&& vote.digest == state.core.ops[op_num].pre_prepare.digest
            },
{
    assert(state.core.ops.contains_key(op_num));
}

/// The identifiers of all replicas.
pub open spec fn all_replicas(num_replica: ReplicaId) -> Set<ReplicaId> {
    Set::new(|id: ReplicaId| id < num_replica)
}

proof fn lemma_all_replicas(num_replica: ReplicaId)
    ensures
        all_replicas(num_replica).finite(),
        all_replicas(num_replica).len() == num_replica,
    decreases num_replica,
{
    if num_replica == 0 {
        assert(all_replicas(0) =~= Set::empty());
    } else {
        let fewer = (num_replica - 1) as ReplicaId;
        lemma_all_replicas(fewer);
        assert(all_replicas(num_replica) =~= all_replicas(fewer).insert(fewer));
    }
}

/// Whether the commits that a replica has counted under the names of correct
/// replicas are theirs: a correct replica commits only to what it knows under
/// that number itself. A replica does not see to this by itself: votes that come
/// before their proposal are filed and counted later, whatever the outcome of
/// checking them was.
pub open spec fn commits_authentic(
    state: ReplicaState,
    replicas: Map<ReplicaId, ReplicaState>,
    op_num: OpNum,
) -> bool {
    forall|id: ReplicaId| #[trigger]
        state.core.ops[op_num].commits.contains_key(id) ==> {
            &&& id < state.core.config.num_replica
            &&& replicas.contains_key(id) ==> replicas[id].core.ops.contains_key(op_num)
                && replicas[id].core.ops[op_num].pre_prepare.digest
                == state.core.ops[op_num].commits[id].digest
        }
}

/// Correct replicas agree. Of `n` replicas let all but at most `f` be correct,
/// with `n > 3f`, and let `replicas` hold the correct ones. If the commits
/// counted under the names of correct replicas are authentic, then two replicas
/// that have finalized an operation have finalized the same batch, by its
/// digest. That they are authentic is up to the environment: receiving a vote
/// does not establish it, as one that comes early is counted even if it did not
/// check out.
pub proof fn agreement(
    replicas: Map<ReplicaId, ReplicaState>,
    num_replica: ReplicaId,
    num_faulty: ReplicaId,
    a: ReplicaId,
    b: ReplicaId,
    op_num: OpNum,
)
    requires
        num_replica > 3 * num_faulty,
        replicas.dom().subset_of(all_replicas(num_replica)),
        replicas.dom().len() >= num_replica - num_faulty,
        replicas.contains_key(a),
        replicas.contains_key(b),
        forall|id: ReplicaId| #[trigger]
            replicas.contains_key(id) ==> {
                &&& replicas[id].wf()
                &&& replicas[id].core.config.num_replica == num_replica
                &&& replicas[id].core.config.num_faulty_replica == num_faulty
            },
        commits_authentic(replicas[a], replicas, op_num),
        commits_authentic(replicas[b], replicas, op_num),
        1 <= op_num <= replicas[a].core.finalized,
        1 <= op_num <= replicas[b].core.finalized,
    ensures
        replicas[a].core.ops[op_num].pre_prepare.digest
            == replicas[b].core.ops[op_num].pre_prepare.digest,
{
    finalized_has_quorum(replicas[a], op_num);
    finalized_has_quorum(replicas[b], op_num);
    let all = all_replicas(num_replica);
    lemma_all_replicas(num_replica);
    let correct = replicas.dom();
    let commits_a = replicas[a].core.ops[op_num].commits.dom();
    let commits_b = replicas[b].core.ops[op_num].commits.dom();
    assert(commits_a.subset_of(all)) by {
        assert forall|id: ReplicaId| commits_a.contains(id) implies all.contains(id) by {
            assert(replicas[a].core.ops[op_num].commits.contains_key(id));
        }
    }
    assert(commits_b.subset_of(all)) by {
        assert forall|id: ReplicaId| commits_b.contains(id) implies all.contains(id) by {
            assert(replicas[b].core.ops[op_num].commits.contains_key(id));
        }
    }
    vstd::set_lib::lemma_len_subset(correct, all);
    vstd::set_lib::lemma_len_subset(commits_a, all);
    vstd::set_lib::lemma_len_subset(commits_b, all);
    lemma_overlap(all, commits_a, commits_b);
    let both = commits_a.intersect(commits_b);
    assert(both.subset_of(all));
    vstd::set_lib::lemma_len_subset(both, all);
    lemma_overlap(all, both, correct);
    let witnesses = both.intersect(correct);
    assert(witnesses.len() > 0);
    let id = witnesses.choose();
    assert(witnesses.contains(id)) by {
        if witnesses =~= Set::empty() {
        }
    }
    assert(replicas[a].core.ops[op_num].commits.contains_key(id));
    assert(replicas[b].core.ops[op_num].commits.contains_key(id));
    assert(replicas.contains_key(id));
}

/// Two subsets overlap by at least as much as they exceed the whole.
proof fn lemma_overlap(all: Set<ReplicaId>, a: Set<ReplicaId>, b: Set<ReplicaId>)
    requires
        all.finite(),
        a.subset_of(all),
        b.subset_of(all),
    ensures
        a.intersect(b).len() >= a.len() + b.len() - all.len(),
        a.intersect(b).finite(),
{
    vstd::set_lib::lemma_len_subset(a, all);
    vstd::set_lib::lemma_len_subset(b, all);
    vstd::set_lib::lemma_set_intersect_union_lens(a, b);
    assert((a + b).subset_of(all));
    vstd::set_lib::lemma_len_subset(a + b, all);
}

/// The batches that actions propose, one after the other.
pub open spec fn proposals(actions: Seq<CoreAction>) -> Seq<Command>
    decreases actions.len(),
{
    if actions.len() == 0 {
        Seq::empty()
    } else {
        let rest = proposals(actions.drop_first());
        match actions[0] {
            ReplicaCoreAction::Propose(_, commands) => commands + rest,
            _ => rest,
        }
    }
}

/// The primary proposes commands in the order in which they were submitted: the
/// proposed batches, followed by what still waits, are what was waiting before.
/// No batch is larger than allowed.
pub proof fn proposes_in_order(core: CoreState)
    ensures
        proposals(core.propose().1) + core.propose().0.pool == core.pool,
        forall|i: int|
            0 <= i < core.propose().1.len() ==> (#[trigger] core.propose().1[i] matches
                ReplicaCoreAction::Propose(op_num, commands) && op_num == core.proposed + 1 + i
                && commands.len() <= core.config.max_batch_size),
    decreases u64::MAX - core.proposed,
{
    if core.proposed == u64::MAX || !core.can_propose() || core.pool.len() == 0 {
        assert(Seq::<Command>::empty() + core.pool =~= core.pool);
    } else {
        let n = batch_len(core.pool.len(), core.config.max_batch_size);
        let op_num = (core.proposed + 1) as OpNum;
        let batch = core.pool.subrange(0, n);
        let next = CoreState {
            proposed: op_num,
            pool: core.pool.subrange(n, core.pool.len() as int),
            ..core
        };
        proposes_in_order(next);
        let action: CoreAction = ReplicaCoreAction::Propose(op_num, batch);
        let rest = next.propose();
        let actions = seq![action] + rest.1;
        assert(actions.drop_first() =~= rest.1);
        assert(core.propose() == (rest.0, actions));
        assert(batch + proposals(rest.1) + rest.0.pool =~= batch + (proposals(rest.1)
            + rest.0.pool));
        assert(batch + next.pool =~= core.pool);
        assert forall|i: int| 0 <= i < actions.len() implies (#[trigger] actions[i] matches
            ReplicaCoreAction::Propose(op_num, commands) && op_num == core.proposed + 1 + i
            && commands.len() <= core.config.max_batch_size) by {
            if i > 0 {
                assert(actions[i] == rest.1[i - 1]);
            }
        }
    }
}

/// The primary has at most the allowed number of operations in flight.
pub proof fn inflight_bounded(state: ReplicaState)
    requires
        state.wf(),
    ensures
        state.core.proposed <= state.core.finalized + state.core.config.num_inflight_block,
{
}

/// A proposal that was received before is ignored.
pub proof fn repeated_pre_prepare_ignored(
    state: ReplicaState,
    message: Message<Seq<Command>>,
    valid: bool,
)
    requires
        state.wf(),
        state.admits(message, valid),
        message is PrePrepare,
    ensures
        ({
            let after = state.receive(message, valid).0;
            after.receive(message, valid) == after.ignored()
        }),
{
    receive_leads(state, message, valid);
    if let Message::PrePrepare(pre_prepare, commands) = message {
        if pre_prepare.view_num != state.core.view_num || state.core.ops.contains_key(
            pre_prepare.op_num,
        ) || !valid {
        } else {
            let step = state.core.handle_pre_prepare(pre_prepare, commands);
            lemma_pre_prepare_sound(state.core, pre_prepare, commands);
            let next = ReplicaState { core: step.0, ..state };
            lemma_settle_leads(next, step.1, 3);
            assert(next.core.ops.contains_key(pre_prepare.op_num));
        }
    }
}

/// A prepare for a known operation that was received before changes nothing.
pub proof fn repeated_prepare_ignored(state: ReplicaState, vote: Vote, valid: bool)
    requires
        state.wf(),
        state.core.ops.contains_key(vote.op_num),
    ensures
        ({
            let message = Message::Prepare(vote);
            let after = state.receive(message, valid).0;
            after.receive(message, valid) == after.ignored()
        }),
{
    let message: Message<Seq<Command>> = Message::Prepare(vote);
    receive_leads(state, message, valid);
    let core = state.core;
    if core.can_commit(vote.op_num) || vote.view_num != core.view_num || vote.digest
        != core.ops[vote.op_num].pre_prepare.digest || !valid {
    } else {
        let step = core.handle_prepare(vote);
        let next = ReplicaState { core: step.0, ..state };
        lemma_prepare_advances(core, vote);
        lemma_step_can_settle(state, step);
        lemma_settle_leads(next, step.1, 3);
        let after = state.receive(message, valid).0;
        if step.0.can_commit(vote.op_num) {
            assert(next.core.ops.contains_key(vote.op_num));
            assert(after.core.ops.contains_key(vote.op_num));
            vstd::set_lib::lemma_len_subset(
                next.core.ops[vote.op_num].prepares.dom(),
                after.core.ops[vote.op_num].prepares.dom(),
            );
            assert(after.core.can_commit(vote.op_num));
        } else {
            assert(after == next);
            let op = next.core.ops[vote.op_num];
            assert(op.prepares.insert(vote.replica_id, vote) =~= op.prepares);
            assert(next.core.with_prepare(vote).ops =~= next.core.ops);
            assert(next.core.handle_prepare(vote) == (next.core, Seq::<CoreAction>::empty()));
        }
    }
}

/// Once everything ready is finalized, nothing is ready any more.
proof fn lemma_finalize_settled(core: CoreState)
    ensures
        ({
            let after = core.finalize_ready().0;
            after.finalized == u64::MAX || !after.can_finalize((after.finalized + 1) as OpNum)
        }),
    decreases u64::MAX - core.finalized,
{
    if core.finalized == u64::MAX || !core.can_finalize((core.finalized + 1) as OpNum) {
    } else {
        lemma_finalize_settled(
            CoreState { finalized: (core.finalized + 1) as OpNum, ..core },
        );
    }
}

/// Once everything allowed is proposed, nothing is to be proposed any more.
proof fn lemma_propose_settled(core: CoreState)
    ensures
        ({
            let after = core.propose().0;
            after.proposed == u64::MAX || !after.can_propose() || after.pool.len() == 0
        }),
    decreases u64::MAX - core.proposed,
{
    if core.proposed == u64::MAX || !core.can_propose() || core.pool.len() == 0 {
    } else {
        let n = batch_len(core.pool.len(), core.config.max_batch_size);
        lemma_propose_settled(
            CoreState {
                proposed: (core.proposed + 1) as OpNum,
                pool: core.pool.subrange(n, core.pool.len() as int),
                ..core
            },
        );
    }
}

/// Whether a state has only gained operations without votes.
pub open spec fn only_new_ops(before: CoreState, after: CoreState) -> bool {
    &&& after.config == before.config
    &&& after.view_num == before.view_num
    &&& after.proposed == before.proposed
    &&& after.finalized == before.finalized
    &&& after.pool == before.pool
    &&& forall|op_num: OpNum| #[trigger]
        before.ops.contains_key(op_num) ==> after.ops.contains_key(op_num) && after.ops[op_num]
            == before.ops[op_num]
    &&& forall|op_num: OpNum| #[trigger]
        after.ops.contains_key(op_num) && !before.ops.contains_key(op_num)
            ==> after.ops[op_num].commits.dom().len() == 0
}

/// Finalizing and proposing only adds operations, and leads to nothing more.
proof fn lemma_last_round(state: ReplicaState, actions: Seq<CoreAction>, done: int)
    requires
        state.wf(),
        all_fit(state.core, actions),
        below(actions, 1),
        0 <= done <= actions.len(),
    ensures
        ({
            let step = state.perform_all(actions.subrange(0, done));
            &&& only_new_ops(state.core, step.state.core)
            &&& step.queued.len() == 0
            &&& step.state.early_prepares == state.early_prepares
            &&& step.state.early_commits == state.early_commits
        }),
    decreases done,
{
    if done > 0 {
        lemma_last_round(state, actions, done - 1);
        lemma_perform_all_keeps_fit(state, actions, done - 1);
        let earlier = actions.subrange(0, done - 1);
        assert(actions.subrange(0, done).drop_last() =~= earlier);
        let before = state.perform_all(earlier);
        let action = actions[done - 1];
        assert(level(action) < 1);
        let ahead = actions.subrange(done - 1, actions.len() as int) + before.queued;
        assert(ahead[0] == action);
        assert(fits(before.state.core, ahead[0]));
        let last = before.state.perform(action);
        match action {
            ReplicaCoreAction::Propose(op_num, commands) => {
                let core = last.state.core;
                assert(!before.state.core.ops.contains_key(op_num));
                assert forall|other: OpNum| #[trigger]
                    state.core.ops.contains_key(other) implies core.ops.contains_key(other)
                    && core.ops[other] == state.core.ops[other] by {
                    assert(before.state.core.ops.contains_key(other));
                }
                assert forall|other: OpNum| #[trigger]
                    core.ops.contains_key(other) && !state.core.ops.contains_key(
                        other,
                    ) implies core.ops[other].commits.dom().len() == 0 by {
                    if other != op_num {
                        assert(before.state.core.ops.contains_key(other));
                    } else {
                        assert(core.ops[other].commits.dom() =~= Set::empty());
                    }
                }
            },
            _ => {},
        }
    }
}

/// A commit for a known operation that was received before changes nothing, as
/// long as a quorum is not empty.
pub proof fn repeated_commit_ignored(state: ReplicaState, vote: Vote, valid: bool)
    requires
        state.wf(),
        state.core.ops.contains_key(vote.op_num),
        state.core.config.num_faulty_replica < state.core.config.num_replica,
    ensures
        ({
            let message = Message::Commit(vote);
            let after = state.receive(message, valid).0;
            after.receive(message, valid) == after.ignored()
        }),
{
    let message: Message<Seq<Command>> = Message::Commit(vote);
    let core = state.core;
    if core.can_finalize(vote.op_num) || vote.view_num != core.view_num || vote.digest
        != core.ops[vote.op_num].pre_prepare.digest || !valid {
    } else {
        let voted = core.with_commit(vote);
        let finalized = voted.finalize_ready();
        let step = core.handle_commit(vote);
        let next = ReplicaState { core: step.0, ..state };
        lemma_commit_advances(core, vote);
        lemma_step_can_settle(state, step);
        lemma_finalize_settled(voted);
        lemma_finalize_advances(voted);
        lemma_propose_settled(finalized.0);
        lemma_propose_advances(finalized.0);
        assert(step.0.ops == voted.ops);
        // one round settles everything
        let round = next.perform_all(step.1);
        assert(step.1.subrange(0, step.1.len() as int) =~= step.1);
        lemma_last_round(next, step.1, step.1.len() as int);
        assert(round.queued =~= Seq::empty());
        let after = state.receive(message, valid).0;
        if step.1.len() == 0 {
            assert(after == next);
            assert(only_new_ops(next.core, after.core));
        } else {
            assert(next.settle(step.1, 3).0 == round.state.settle(round.queued, 2).0);
            assert(after == round.state);
        }
        let known = after.core;
        if known.can_finalize(vote.op_num) {
        } else {
            assert(next.core.ops.contains_key(vote.op_num));
            assert(known.ops[vote.op_num] == voted.ops[vote.op_num]);
            let op = known.ops[vote.op_num];
            assert(op.commits.insert(vote.replica_id, vote) =~= op.commits);
            assert(known.with_commit(vote).ops =~= known.ops);
            assert(known.with_commit(vote) == known);
            if known.finalized < u64::MAX {
                let following = (known.finalized + 1) as OpNum;
                if known.ops.contains_key(following) {
                    if next.core.ops.contains_key(following) {
                        assert(known.ops[following] == next.core.ops[following]);
                    } else {
                        assert(known.ops[following].commits.dom().len() == 0);
                    }
                }
                assert(!known.can_finalize(following));
            }
            assert(known.finalize_ready() == (known, Seq::<CoreAction>::empty()));
            assert(known.propose() == (known, Seq::<CoreAction>::empty()));
            assert(known.handle_commit(vote).1 =~= Seq::<CoreAction>::empty());
            assert(known.handle_commit(vote) == (known, Seq::<CoreAction>::empty()));
        }
    }
}

} // verus!
