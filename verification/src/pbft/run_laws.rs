//! What holds of the core and of a replica over any sequence of calls.
use super::laws::{batches, delivered, leads_to, receive_leads, submit_leads};
use super::message::{Message, PrePrepare, Vote};
use super::progress::{ops_kept, run};
use super::replica::{Action, ReplicaState};
use super::replica_core::{CoreState, ReplicaCoreConfig};
use super::OpNum;
use crate::command::Command;
use vstd::prelude::*;

verus! {

proof fn lemma_propose_keeps(core: CoreState)
    ensures
        core.propose().0.ops == core.ops,
        core.propose().0.config == core.config,
        core.propose().0.finalized == core.finalized,
    decreases u64::MAX - core.proposed,
{
    if core.proposed == u64::MAX || !core.can_propose() || core.pool.len() == 0 {
    } else {
        let n = crate::command::batch_len(core.pool.len(), core.config.max_batch_size);
        lemma_propose_keeps(
            CoreState {
                proposed: (core.proposed + 1) as OpNum,
                pool: core.pool.subrange(n, core.pool.len() as int),
                ..core
            },
        );
    }
}

proof fn lemma_finalize_keeps(core: CoreState)
    ensures
        core.finalize_ready().0.ops == core.ops,
        core.finalize_ready().0.config == core.config,
        core.finalize_ready().0.finalized >= core.finalized,
    decreases u64::MAX - core.finalized,
{
    if core.finalized == u64::MAX || !core.can_finalize((core.finalized + 1) as OpNum) {
    } else {
        lemma_finalize_keeps(CoreState { finalized: (core.finalized + 1) as OpNum, ..core });
    }
}

/// What can be finalized can be committed, and of what is not finalized yet,
/// exactly what can be committed and has a quorum of commits. It stays so,
/// whatever command is submitted, whatever new proposal is known, and whatever
/// vote is counted.
pub proof fn finalizable_stays(
    core: CoreState,
    op_num: OpNum,
    command: Command,
    pre_prepare: PrePrepare,
    commands: Seq<Command>,
    vote: Vote,
)
    requires
        core.votes_finite(),
    ensures
        core.can_finalize(op_num) ==> core.can_commit(op_num),
        op_num > core.finalized ==> (core.can_finalize(op_num) <==> core.can_commit(op_num)
            && core.ops[op_num].commits.dom().len() >= core.config.quorum()),
        core.can_finalize(op_num) ==> {
            &&& core.submit(command).0.can_finalize(op_num)
            &&& !core.ops.contains_key(pre_prepare.op_num) ==> core.handle_pre_prepare(
                pre_prepare,
                commands,
            ).0.can_finalize(op_num)
            &&& core.ops.contains_key(vote.op_num) ==> core.handle_prepare(vote).0.can_finalize(
                op_num,
            )
            &&& core.ops.contains_key(vote.op_num) ==> core.handle_commit(vote).0.can_finalize(
                op_num,
            )
        },
{
    lemma_propose_keeps(CoreState { pool: core.pool.push(command), ..core });
    let voted = core.with_commit(vote);
    lemma_finalize_keeps(voted);
    lemma_propose_keeps(voted.finalize_ready().0);
}

/// A call of a replica.
pub enum Call {
    Submit(Command),
    Receive(Message<Seq<Command>>, bool),
}

/// The state after some calls, and the actions that they asked for.
pub open spec fn after_calls(state: ReplicaState, calls: Seq<Call>) -> (ReplicaState, Seq<Action>)
    decreases calls.len(),
{
    if calls.len() == 0 {
        (state, Seq::empty())
    } else {
        let (before, actions) = after_calls(state, calls.drop_last());
        let (after, more) = match calls.last() {
            Call::Submit(command) => before.submit(command),
            Call::Receive(message, valid) => before.receive(message, valid),
        };
        (after, actions + more)
    }
}

/// Whether every message is one that the replica admits when it comes.
pub open spec fn admits_all(state: ReplicaState, calls: Seq<Call>) -> bool
    decreases calls.len(),
{
    calls.len() > 0 ==> {
        &&& admits_all(state, calls.drop_last())
        &&& calls.last() matches Call::Receive(message, valid) ==> after_calls(
            state,
            calls.drop_last(),
        ).0.admits(message, valid)
    }
}

/// Over any sequence of calls nothing is lost and nothing is taken back, and
/// what is delivered are the batches that follow those delivered before, in the
/// order of their numbers, without a gap and each once.
pub proof fn calls_lead(state: ReplicaState, calls: Seq<Call>)
    requires
        state.wf(),
        admits_all(state, calls),
    ensures
        ({
            let (after, actions) = after_calls(state, calls);
            &&& leads_to(state, after, actions)
            &&& delivered(actions) == batches(
                after.core,
                run(state.core.finalized, after.core.finalized),
            )
        }),
    decreases calls.len(),
{
    let (after, actions) = after_calls(state, calls);
    if calls.len() == 0 {
        assert(ops_kept(state.core, state.core));
        assert(delivered(actions) =~= batches(after.core, run(state.core.finalized, after.core.finalized)));
    } else {
        calls_lead(state, calls.drop_last());
        let (before, first) = after_calls(state, calls.drop_last());
        let second = match calls.last() {
            Call::Submit(command) => {
                submit_leads(before, command);
                before.submit(command).1
            },
            Call::Receive(message, valid) => {
                receive_leads(before, message, valid);
                before.receive(message, valid).1
            },
        };
        super::laws::lemma_leads_to_compose(state, before, after, first, second);
        super::laws::lemma_delivered_compose(first, second);
        let low = run(state.core.finalized, before.core.finalized);
        let high = run(before.core.finalized, after.core.finalized);
        let all = run(state.core.finalized, after.core.finalized);
        assert(low + high =~= all);
        assert(batches(after.core, low) =~= batches(before.core, low)) by {
            assert forall|i: int| 0 <= i < low.len() implies #[trigger] batches(after.core, low)[i]
                == batches(before.core, low)[i] by {
                assert(before.core.ops.contains_key(low[i]));
            }
        }
        assert(batches(after.core, all) =~= batches(after.core, low) + batches(after.core, high));
    }
}

/// Of a replica that has just started, the first batch that is delivered is the
/// one proposed under number one, the second that under number two, and so on,
/// each after a quorum of commits under the names of different replicas.
pub proof fn delivers_in_order(config: ReplicaCoreConfig, calls: Seq<Call>, k: int)
    requires
        ReplicaState::initial(config).wf(),
        admits_all(ReplicaState::initial(config), calls),
        0 <= k < delivered(after_calls(ReplicaState::initial(config), calls).1).len(),
    ensures
        ({
            let (after, actions) = after_calls(ReplicaState::initial(config), calls);
            let op_num = (k + 1) as OpNum;
            &&& k + 1 <= after.core.finalized
            &&& after.core.ops.contains_key(op_num)
            &&& delivered(actions)[k] == after.core.ops[op_num].commands
            &&& after.core.ops[op_num].commits.dom().len() >= config.quorum()
        }),
{
    let start = ReplicaState::initial(config);
    calls_lead(start, calls);
    let after = after_calls(start, calls).0;
    super::laws::finalized_has_quorum(after, (k + 1) as OpNum);
}

} // verus!
