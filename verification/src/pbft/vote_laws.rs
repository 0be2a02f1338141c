//! Every vote counts, whenever it comes.
use super::message::{Message, PrePrepare, Vote};
use super::progress::{
    all_fit, below, fits, lemma_absorb_commits_advances, lemma_absorb_prepares_advances,
    lemma_commit_advances, lemma_finalize_advances, lemma_ops_kept_compose,
    lemma_perform_all_keeps_fit, lemma_perform_keeps_fit, lemma_pre_prepare_sound,
    lemma_prepare_advances, lemma_propose_advances, lemma_step_can_settle, level, ops_kept,
};
use super::replica::{absorb_commits, absorb_prepares, file_vote, filed, ReplicaState};
use super::replica_core::{CoreAction, CoreState, OpState, ReplicaCoreAction, ReplicaCoreConfig};
use super::laws::{batches, delivered};
use super::progress::run;
use super::run_laws::{admits_all, after_calls, calls_lead, Call};
use super::{OpNum, ReplicaId, ViewNum};
use crate::command::Command;
use crate::crypto::Digest;
use vstd::prelude::*;

verus! {

/// Whether a message was received, and its signature checked out.
pub open spec fn heard(calls: Seq<Call>, message: Message<Seq<Command>>) -> bool {
    calls.contains(Call::Receive(message, true))
}

/// Whether a message was received at all.
pub open spec fn received(calls: Seq<Call>, message: Message<Seq<Command>>) -> bool {
    heard(calls, message) || calls.contains(Call::Receive(message, false))
}

/// Whether something on an operation is still to be done.
pub open spec fn pending(queue: Seq<CoreAction>, op_num: OpNum) -> bool {
    queue.contains(ReplicaCoreAction::Commit(op_num)) || queue.contains(
        ReplicaCoreAction::Prepare(op_num),
    )
}

/// Whether a prepare is not lost: it is not needed any more, it waits for the
/// proposal, it is not for the known proposal, it is counted, or it will be.
pub open spec fn prepare_kept(state: ReplicaState, queue: Seq<CoreAction>, vote: Vote) -> bool {
    let core = state.core;
    let op_num = vote.op_num;
    let waits = filed(state.early_prepares, op_num).contains(vote);
    ||| core.can_commit(op_num)
    ||| !core.ops.contains_key(op_num) && waits
    ||| core.ops.contains_key(op_num) && {
        ||| core.ops[op_num].pre_prepare.digest != vote.digest
        ||| core.ops[op_num].prepares.contains_key(vote.replica_id)
        ||| waits && queue.contains(ReplicaCoreAction::Prepare(op_num))
    }
}

/// Whether a commit is not lost: it is not needed any more, it waits for the
/// proposal, it is not for the known proposal, it is counted, or it will be as
/// soon as there are enough prepares.
pub open spec fn commit_kept(state: ReplicaState, queue: Seq<CoreAction>, vote: Vote) -> bool {
    let core = state.core;
    let op_num = vote.op_num;
    let waits = filed(state.early_commits, op_num).contains(vote);
    ||| core.can_finalize(op_num)
    ||| !core.ops.contains_key(op_num) && waits
    ||| core.ops.contains_key(op_num) && {
        ||| core.ops[op_num].pre_prepare.digest != vote.digest
        ||| core.ops[op_num].commits.contains_key(vote.replica_id)
        ||| waits && (!core.can_commit(op_num) || pending(queue, op_num))
    }
}

/// Whether nothing that was received is lost.
pub open spec fn nothing_lost(
    state: ReplicaState,
    queue: Seq<CoreAction>,
    calls: Seq<Call>,
) -> bool {
    &&& forall|vote: Vote|
        heard(calls, Message::Prepare(vote)) && vote.view_num == state.core.view_num
            ==> #[trigger] prepare_kept(state, queue, vote)
    &&& forall|vote: Vote|
        heard(calls, Message::Commit(vote)) && vote.view_num == state.core.view_num
            ==> #[trigger] commit_kept(state, queue, vote)
    &&& forall|pre_prepare: PrePrepare, commands: Seq<Command>| #[trigger]
        heard(calls, Message::PrePrepare(pre_prepare, commands)) && pre_prepare.view_num
            == state.core.view_num ==> state.core.ops.contains_key(pre_prepare.op_num)
}

/// Whether the replica has voted itself where it should, and finalizes what it
/// can.
pub open spec fn keeps_up(state: ReplicaState, queue: Seq<CoreAction>) -> bool {
    let core = state.core;
    &&& forall|op_num: OpNum| #[trigger]
        core.ops.contains_key(op_num) ==> core.ops[op_num].prepares.contains_key(core.config.id)
            || queue.contains(ReplicaCoreAction::Prepare(op_num))
    &&& forall|op_num: OpNum| #[trigger]
        core.ops.contains_key(op_num) && core.can_commit(op_num)
            ==> core.ops[op_num].commits.contains_key(core.config.id) || pending(queue, op_num)
    &&& finalized_all(core) || pending(queue, (core.finalized + 1) as OpNum)
    &&& forall|i: int|
        0 <= i < queue.len() ==> (#[trigger] queue[i] matches ReplicaCoreAction::Commit(op_num)
            ==> core.can_commit(op_num))
}

/// Whether what directly follows the finalized operations cannot be finalized.
pub open spec fn finalized_all(core: CoreState) -> bool {
    core.finalized == u64::MAX || !core.can_finalize((core.finalized + 1) as OpNum)
}

/// Whether a counted prepare is the replica's own or was received.
pub open spec fn prepare_stems(core: CoreState, calls: Seq<Call>, op_num: OpNum, id: ReplicaId) -> bool {
    id == core.config.id || received(calls, Message::Prepare(core.ops[op_num].prepares[id]))
}

/// Whether a counted commit was received or is the replica's own, which it gives
/// only where there are enough prepares.
pub open spec fn commit_stems(core: CoreState, calls: Seq<Call>, op_num: OpNum, id: ReplicaId) -> bool {
    id == core.config.id && core.can_commit(op_num) || received(
        calls,
        Message::Commit(core.ops[op_num].commits[id]),
    )
}

/// Whether everything that is known was received.
pub open spec fn nothing_made_up(state: ReplicaState, calls: Seq<Call>) -> bool {
    let core = state.core;
    &&& forall|op_num: OpNum, id: ReplicaId|
        core.ops.contains_key(op_num) && core.ops[op_num].prepares.contains_key(id)
            ==> #[trigger] prepare_stems(core, calls, op_num, id)
    &&& forall|op_num: OpNum, id: ReplicaId|
        core.ops.contains_key(op_num) && core.ops[op_num].commits.contains_key(id)
            ==> #[trigger] commit_stems(core, calls, op_num, id)
    &&& forall|op_num: OpNum, i: int|
        0 <= i < filed(state.early_prepares, op_num).len() ==> received(
            calls,
            Message::Prepare(#[trigger] filed(state.early_prepares, op_num)[i]),
        )
    &&& forall|op_num: OpNum, i: int|
        0 <= i < filed(state.early_commits, op_num).len() ==> received(
            calls,
            Message::Commit(#[trigger] filed(state.early_commits, op_num)[i]),
        )
    &&& forall|op_num: OpNum| #[trigger]
        core.ops.contains_key(op_num) ==> heard(
            calls,
            Message::PrePrepare(core.ops[op_num].pre_prepare, core.ops[op_num].commands),
        ) && core.ops[op_num].pre_prepare.op_num == op_num
            && core.ops[op_num].pre_prepare.view_num == core.view_num
}

/// What every replica that is not the primary keeps to.
pub open spec fn on_course(
    state: ReplicaState,
    queue: Seq<CoreAction>,
    calls: Seq<Call>,
) -> bool {
    &&& state.wf()
    &&& !state.core.is_primary()
    &&& all_fit(state.core, queue)
    &&& nothing_lost(state, queue, calls)
    &&& keeps_up(state, queue)
    &&& nothing_made_up(state, calls)
}

/// With more votes, what could be committed or finalized still can.
pub(crate) proof fn lemma_still(before: CoreState, after: CoreState)
    requires
        ops_kept(before, after),
        before.finalized <= after.finalized,
        before.config == after.config,
        after.votes_finite(),
    ensures
        forall|op_num: OpNum| #[trigger] before.can_commit(op_num) ==> after.can_commit(op_num),
        forall|op_num: OpNum| #[trigger] before.can_finalize(op_num) ==> after.can_finalize(op_num),
{
    assert forall|op_num: OpNum| before.ops.contains_key(op_num) implies (
    before.ops[op_num].prepared(before.config) ==> #[trigger] after.ops[op_num].prepared(
        after.config,
    )) && (before.ops[op_num].committed(before.config) ==> after.ops[op_num].committed(
        after.config,
    )) by {
        assert(after.ops.contains_key(op_num));
        vstd::set_lib::lemma_len_subset(
            before.ops[op_num].prepares.dom(),
            after.ops[op_num].prepares.dom(),
        );
        vstd::set_lib::lemma_len_subset(
            before.ops[op_num].commits.dom(),
            after.ops[op_num].commits.dom(),
        );
    }
    assert forall|op_num: OpNum| #[trigger] before.can_commit(op_num) implies after.can_commit(
        op_num,
    ) by {
        if op_num > before.finalized {
            assert(after.ops.contains_key(op_num));
            assert(after.ops[op_num].prepared(after.config));
        }
    }
    assert forall|op_num: OpNum| #[trigger] before.can_finalize(op_num) implies after.can_finalize(
        op_num,
    ) by {
        if op_num > before.finalized {
            assert(after.ops.contains_key(op_num));
            assert(after.ops[op_num].prepared(after.config));
        }
    }
}

/// Whether only prepares of one operation are added, some of them among `votes`.
pub open spec fn adds_prepares(
    before: CoreState,
    after: CoreState,
    op_num: OpNum,
    votes: Seq<Vote>,
) -> bool {
    &&& after == CoreState { ops: after.ops, ..before }
    &&& after.ops.dom() == before.ops.dom()
    &&& forall|other: OpNum|
        other != op_num && #[trigger] before.ops.contains_key(other) ==> after.ops[other]
            == before.ops[other]
    &&& before.ops.contains_key(op_num)
    &&& after.ops[op_num] == OpState {
        prepares: after.ops[op_num].prepares,
        ..before.ops[op_num]
    }
    &&& forall|id: ReplicaId| #[trigger]
        before.ops[op_num].prepares.contains_key(id) ==> after.ops[op_num].prepares.contains_key(id)
    &&& forall|id: ReplicaId| #[trigger]
        after.ops[op_num].prepares.contains_key(id) ==> {
            ||| before.ops[op_num].prepares.contains_key(id) && after.ops[op_num].prepares[id]
                == before.ops[op_num].prepares[id]
            ||| votes.contains(after.ops[op_num].prepares[id])
        }
}

/// Whether commits of one operation are added, some of them among `votes`, and
/// operations are finalized.
pub open spec fn adds_commits(
    before: CoreState,
    after: CoreState,
    op_num: OpNum,
    votes: Seq<Vote>,
) -> bool {
    &&& after == CoreState { ops: after.ops, finalized: after.finalized, ..before }
    &&& before.finalized <= after.finalized
    &&& after.ops.dom() == before.ops.dom()
    &&& forall|other: OpNum|
        other != op_num && #[trigger] before.ops.contains_key(other) ==> after.ops[other]
            == before.ops[other]
    &&& before.ops.contains_key(op_num)
    &&& after.ops[op_num] == OpState {
        commits: after.ops[op_num].commits,
        ..before.ops[op_num]
    }
    &&& forall|id: ReplicaId| #[trigger]
        before.ops[op_num].commits.contains_key(id) ==> after.ops[op_num].commits.contains_key(id)
    &&& forall|id: ReplicaId| #[trigger]
        after.ops[op_num].commits.contains_key(id) ==> {
            ||| before.ops[op_num].commits.contains_key(id) && after.ops[op_num].commits[id]
                == before.ops[op_num].commits[id]
            ||| votes.contains(after.ops[op_num].commits[id])
        }
}

/// All prepares that were filed for an operation count once it is known: each
/// one with its digest is among its prepares, or there are enough of them; and
/// once there are, the replica goes on to commit.
pub proof fn filed_prepares_count(
    core: CoreState,
    op_num: OpNum,
    digest: Digest,
    votes: Seq<Vote>,
    i: int,
)
    requires
        core.sound(),
        core.ops.contains_key(op_num),
        digest == core.ops[op_num].pre_prepare.digest,
        forall|j: int|
            0 <= j < votes.len() ==> (#[trigger] votes[j]).op_num == op_num && votes[j].view_num
                == core.view_num,
    ensures
        ({
            let (after, actions) = absorb_prepares(core, op_num, digest, votes);
            &&& after.can_commit(op_num) || (0 <= i < votes.len() && votes[i].digest == digest
                ==> after.ops[op_num].prepares.contains_key(votes[i].replica_id))
            &&& after.can_commit(op_num) && !core.can_commit(op_num) ==> actions.contains(
                ReplicaCoreAction::Commit(op_num),
            )
            &&& adds_prepares(core, after, op_num, votes)
            &&& forall|k: int|
                0 <= k < actions.len() ==> after.can_commit(op_num) && #[trigger] actions[k]
                    == ReplicaCoreAction::<Seq<Command>>::Commit(op_num)
        }),
    decreases votes.len(),
{
    let (after, actions) = absorb_prepares(core, op_num, digest, votes);
    lemma_absorb_prepares_advances(core, op_num, digest, votes);
    if votes.len() == 0 || core.can_commit(op_num) {
    } else {
        let rest = votes.drop_first();
        assert forall|j: int| 0 <= j < rest.len() implies (#[trigger] rest[j]).op_num == op_num
            && rest[j].view_num == core.view_num by {
            assert(rest[j] == votes[j + 1]);
        }
        if votes[0].digest != digest {
            filed_prepares_count(core, op_num, digest, rest, i - 1);
            lemma_more_prepares(core, after, op_num, rest, votes);
            if 0 < i < votes.len() {
                assert(rest[i - 1] == votes[i]);
            }
        } else {
            let step = core.handle_prepare(votes[0]);
            lemma_prepare_advances(core, votes[0]);
            filed_prepares_count(step.0, op_num, digest, rest, i - 1);
            let then = absorb_prepares(step.0, op_num, digest, rest);
            if 0 < i < votes.len() {
                assert(rest[i - 1] == votes[i]);
            }
            assert(step.0.ops[op_num].prepares.contains_key(votes[0].replica_id));
            assert(votes.contains(votes[0]));
            assert(step.0.ops.dom() =~= core.ops.dom());
            assert(adds_prepares(core, step.0, op_num, votes));
            lemma_more_prepares(step.0, after, op_num, rest, votes);
            if step.0.can_commit(op_num) {
                assert(step.1[0] == ReplicaCoreAction::<Seq<Command>>::Commit(op_num));
                assert(actions[0] == ReplicaCoreAction::<Seq<Command>>::Commit(op_num));
                assert(actions =~= step.1);
            } else {
                assert(actions =~= then.1);
            }
        }
    }
}

proof fn lemma_more_prepares(
    before: CoreState,
    after: CoreState,
    op_num: OpNum,
    rest: Seq<Vote>,
    votes: Seq<Vote>,
)
    requires
        adds_prepares(before, after, op_num, rest),
        votes.len() > 0,
        rest == votes.drop_first(),
    ensures
        adds_prepares(before, after, op_num, votes),
{
    assert forall|id: ReplicaId| #[trigger]
        after.ops[op_num].prepares.contains_key(id) implies {
        ||| before.ops[op_num].prepares.contains_key(id) && after.ops[op_num].prepares[id]
            == before.ops[op_num].prepares[id]
        ||| votes.contains(after.ops[op_num].prepares[id])
    } by {
        let vote = after.ops[op_num].prepares[id];
        if rest.contains(vote) {
            let k = rest.index_of(vote);
            assert(votes[k + 1] == vote);
        }
    }
}

proof fn lemma_more_commits(
    before: CoreState,
    after: CoreState,
    op_num: OpNum,
    rest: Seq<Vote>,
    votes: Seq<Vote>,
)
    requires
        adds_commits(before, after, op_num, rest),
        votes.len() > 0,
        rest == votes.drop_first(),
    ensures
        adds_commits(before, after, op_num, votes),
{
    assert forall|id: ReplicaId| #[trigger]
        after.ops[op_num].commits.contains_key(id) implies {
        ||| before.ops[op_num].commits.contains_key(id) && after.ops[op_num].commits[id]
            == before.ops[op_num].commits[id]
        ||| votes.contains(after.ops[op_num].commits[id])
    } by {
        let vote = after.ops[op_num].commits[id];
        if rest.contains(vote) {
            let k = rest.index_of(vote);
            assert(votes[k + 1] == vote);
        }
    }
}

pub(crate) proof fn lemma_finalize_ready(core: CoreState)
    ensures
        ({
            let after = core.finalize_ready().0;
            &&& after == CoreState { finalized: after.finalized, ..core }
            &&& core.finalized <= after.finalized
            &&& finalized_all(after)
        }),
    decreases u64::MAX - core.finalized,
{
    if core.finalized == u64::MAX || !core.can_finalize((core.finalized + 1) as OpNum) {
    } else {
        lemma_finalize_ready(CoreState { finalized: (core.finalized + 1) as OpNum, ..core });
    }
}

/// Counting one commit counts it, and finalizes what can be.
proof fn lemma_one_commit(core: CoreState, vote: Vote, votes: Seq<Vote>)
    requires
        core.sound(),
        core.supports(vote),
        !core.is_primary(),
        votes.contains(vote),
    ensures
        ({
            let after = core.handle_commit(vote).0;
            &&& adds_commits(core, after, vote.op_num, votes)
            &&& after.ops[vote.op_num].commits.contains_key(vote.replica_id)
            &&& finalized_all(after)
            &&& after.sound()
        }),
{
    let voted = core.with_commit(vote);
    lemma_commit_advances(core, vote);
    lemma_finalize_ready(voted);
    let after = core.handle_commit(vote).0;
    assert(after == voted.finalize_ready().0);
    assert(voted.ops.dom() =~= core.ops.dom());
}

/// All commits that were filed for an operation count once it is known and has
/// enough prepares: each one with its digest is among its commits, or the
/// operation can be finalized.
pub proof fn filed_commits_count(
    core: CoreState,
    op_num: OpNum,
    digest: Digest,
    votes: Seq<Vote>,
    i: int,
)
    requires
        core.sound(),
        !core.is_primary(),
        core.ops.contains_key(op_num),
        digest == core.ops[op_num].pre_prepare.digest,
        forall|j: int|
            0 <= j < votes.len() ==> (#[trigger] votes[j]).op_num == op_num && votes[j].view_num
                == core.view_num,
        finalized_all(core),
    ensures
        ({
            let after = absorb_commits(core, op_num, digest, votes).0;
            &&& after.can_finalize(op_num) || (0 <= i < votes.len() && votes[i].digest == digest
                ==> after.ops[op_num].commits.contains_key(votes[i].replica_id))
            &&& adds_commits(core, after, op_num, votes)
            &&& finalized_all(after)
            &&& after.sound()
        }),
    decreases votes.len(),
{
    let after = absorb_commits(core, op_num, digest, votes).0;
    if votes.len() == 0 || core.can_finalize(op_num) {
    } else {
        let rest = votes.drop_first();
        assert forall|j: int| 0 <= j < rest.len() implies (#[trigger] rest[j]).op_num == op_num
            && rest[j].view_num == core.view_num by {
            assert(rest[j] == votes[j + 1]);
        }
        if 0 < i < votes.len() {
            assert(rest[i - 1] == votes[i]);
        }
        if votes[0].digest != digest {
            filed_commits_count(core, op_num, digest, rest, i - 1);
            lemma_more_commits(core, after, op_num, rest, votes);
        } else {
            let step = core.handle_commit(votes[0]);
            assert(votes.contains(votes[0]));
            lemma_one_commit(core, votes[0], votes);
            filed_commits_count(step.0, op_num, digest, rest, i - 1);
            lemma_more_commits(step.0, after, op_num, rest, votes);
        }
    }
}

proof fn lemma_queue(
    action: CoreAction,
    waiting: Seq<CoreAction>,
    queued: Seq<CoreAction>,
    wanted: CoreAction,
)
    ensures
        (seq![action] + waiting).contains(wanted) ==> action == wanted || waiting.contains(wanted),
        waiting.contains(wanted) ==> (waiting + queued).contains(wanted),
        queued.contains(wanted) ==> (waiting + queued).contains(wanted),
{
    let all = seq![action] + waiting;
    if all.contains(wanted) {
        let i = all.index_of(wanted);
        if i > 0 {
            assert(waiting[i - 1] == wanted);
        }
    }
    if waiting.contains(wanted) {
        let i = waiting.index_of(wanted);
        assert((waiting + queued)[i] == wanted);
    }
    if queued.contains(wanted) {
        let i = queued.index_of(wanted);
        assert((waiting + queued)[waiting.len() + i] == wanted);
    }
}

/// What is pending stays so, but for what is done.
proof fn lemma_pending(
    action: CoreAction,
    waiting: Seq<CoreAction>,
    queued: Seq<CoreAction>,
    op_num: OpNum,
)
    ensures
        pending(seq![action] + waiting, op_num) ==> {
            ||| action == ReplicaCoreAction::<Seq<Command>>::Commit(op_num)
            ||| action == ReplicaCoreAction::<Seq<Command>>::Prepare(op_num)
            ||| pending(waiting + queued, op_num)
        },
        queued.contains(ReplicaCoreAction::Commit(op_num)) ==> pending(waiting + queued, op_num),
        (seq![action] + waiting).contains(ReplicaCoreAction::Prepare(op_num)) ==> {
            ||| action == ReplicaCoreAction::<Seq<Command>>::Prepare(op_num)
            ||| (waiting + queued).contains(ReplicaCoreAction::Prepare(op_num))
        },
{
    lemma_queue(action, waiting, queued, ReplicaCoreAction::Commit(op_num));
    lemma_queue(action, waiting, queued, ReplicaCoreAction::Prepare(op_num));
}

proof fn lemma_still_after_prepares(before: CoreState, after: CoreState, op_num: OpNum)
    requires
        before.ops.contains_key(op_num),
        after.ops.contains_key(op_num),
        before.ops[op_num].prepares.dom().subset_of(after.ops[op_num].prepares.dom()),
        after.ops[op_num].prepares.dom().finite(),
        before.finalized <= after.finalized,
        before.config == after.config,
    ensures
        before.can_commit(op_num) ==> after.can_commit(op_num),
{
    vstd::set_lib::lemma_len_subset(
        before.ops[op_num].prepares.dom(),
        after.ops[op_num].prepares.dom(),
    );
}

/// Casting the replica's own prepare and counting those that were filed keeps it
/// on course.
proof fn lemma_prepare_on_course(
    state: ReplicaState,
    op_num: OpNum,
    waiting: Seq<CoreAction>,
    calls: Seq<Call>,
)
    requires
        on_course(state, seq![ReplicaCoreAction::Prepare(op_num)] + waiting, calls),
    ensures
        ({
            let step = state.perform(ReplicaCoreAction::Prepare(op_num));
            on_course(step.state, waiting + step.queued, calls)
        }),
{
    let action: CoreAction = ReplicaCoreAction::Prepare(op_num);
    let queue = seq![action] + waiting;
    let core = state.core;
    lemma_perform_keeps_fit(state, action, waiting);
    assert(queue[0] == action);
    assert(fits(core, queue[0]));
    let own = state.own_vote(op_num);
    let votes = filed(state.early_prepares, op_num);
    let all = seq![own] + votes;
    assert(all.drop_first() =~= votes);
    assert(all[0] == own);
    let first = core.handle_prepare(own);
    lemma_prepare_advances(core, own);
    let rest = absorb_prepares(first.0, op_num, own.digest, votes);
    let step = state.perform(action);
    let after = step.state.core;
    let next = waiting + step.queued;
    filed_prepares_count(first.0, op_num, own.digest, votes, 0);
    assert(first.0.ops.dom() =~= core.ops.dom());
    assert(adds_prepares(core, first.0, op_num, all)) by {
        assert(all.contains(own));
    }
    lemma_more_prepares(first.0, after, op_num, votes, all);
    assert(adds_prepares(core, after, op_num, all));
    assert(ops_kept(core, after)) by {
        assert forall|other: OpNum| #[trigger] core.ops.contains_key(other) implies {
            &&& after.ops.contains_key(other)
            &&& after.ops[other].commands == core.ops[other].commands
            &&& after.ops[other].pre_prepare == core.ops[other].pre_prepare
            &&& core.ops[other].prepares.dom().subset_of(after.ops[other].prepares.dom())
            &&& core.ops[other].commits.dom().subset_of(after.ops[other].commits.dom())
        } by {
            assert(after.ops.dom().contains(other));
        }
    }
    lemma_still(core, after);
    // once there are enough prepares, the commit is asked for
    if after.can_commit(op_num) {
        if first.0.can_commit(op_num) {
            assert(first.1[0] == ReplicaCoreAction::<Seq<Command>>::Commit(op_num));
            assert(step.queued[0] == ReplicaCoreAction::<Seq<Command>>::Commit(op_num));
        } else {
            let k = rest.1.index_of(ReplicaCoreAction::Commit(op_num));
            assert(step.queued[first.1.len() + k] == rest.1[k]);
        }
        assert(step.queued.contains(ReplicaCoreAction::Commit(op_num)));
    }
    lemma_pending(action, waiting, step.queued, op_num);
    assert forall|other: OpNum| other != op_num implies after.can_commit(other)
        == #[trigger] core.can_commit(other) && after.can_finalize(other) == core.can_finalize(
        other,
    ) by {
        assert(after.ops.dom().contains(other) == core.ops.dom().contains(other));
    }
    assert(nothing_lost(step.state, next, calls)) by {
        assert forall|vote: Vote|
            heard(calls, Message::Prepare(vote)) && vote.view_num
                == step.state.core.view_num implies #[trigger] prepare_kept(
            step.state,
            next,
            vote,
        ) by {
            assert(prepare_kept(state, queue, vote));
            assert(after.ops.dom().contains(vote.op_num) == core.ops.dom().contains(vote.op_num));
            lemma_pending(action, waiting, step.queued, vote.op_num);
            if vote.op_num == op_num {
                if votes.contains(vote) {
                    let i = votes.index_of(vote);
                    filed_prepares_count(first.0, op_num, own.digest, votes, i);
                }
            } else {
                assert(core.can_commit(vote.op_num) == after.can_commit(vote.op_num));
            }
        }
        assert forall|vote: Vote|
            heard(calls, Message::Commit(vote)) && vote.view_num
                == step.state.core.view_num implies #[trigger] commit_kept(
            step.state,
            next,
            vote,
        ) by {
            assert(commit_kept(state, queue, vote));
            assert(after.ops.dom().contains(vote.op_num) == core.ops.dom().contains(vote.op_num));
            lemma_pending(action, waiting, step.queued, vote.op_num);
            if vote.op_num != op_num {
                assert(core.can_commit(vote.op_num) == after.can_commit(vote.op_num));
            }
        }
        assert forall|pre_prepare: PrePrepare, commands: Seq<Command>| #[trigger]
            heard(calls, Message::PrePrepare(pre_prepare, commands)) && pre_prepare.view_num
                == after.view_num implies after.ops.contains_key(pre_prepare.op_num) by {
            assert(core.ops.contains_key(pre_prepare.op_num));
        }
    }
    assert(keeps_up(step.state, next)) by {
        assert forall|other: OpNum| #[trigger]
            after.ops.contains_key(other) implies after.ops[other].prepares.contains_key(
            after.config.id,
        ) || next.contains(ReplicaCoreAction::Prepare(other)) by {
            assert(after.ops.dom().contains(other));
            assert(core.ops.contains_key(other));
            lemma_pending(action, waiting, step.queued, other);
            assert(first.0.ops[op_num].prepares.contains_key(core.config.id));
        }
        assert forall|other: OpNum| #[trigger]
            after.ops.contains_key(other) && after.can_commit(
                other,
            ) implies after.ops[other].commits.contains_key(after.config.id) || pending(
            next,
            other,
        ) by {
            assert(after.ops.dom().contains(other));
            assert(core.ops.contains_key(other));
            lemma_pending(action, waiting, step.queued, other);
            if other != op_num {
                assert(core.can_commit(other) == after.can_commit(other));
            }
        }
        assert forall|i: int| 0 <= i < next.len() implies (
        #[trigger] next[i] matches ReplicaCoreAction::Commit(other) ==> after.can_commit(
            other,
        )) by {
            if i < waiting.len() {
                assert(next[i] == queue[i + 1]);
            } else {
                let k = i - waiting.len();
                assert(next[i] == step.queued[k]);
                if k < first.1.len() {
                    assert(step.queued[k] == first.1[k]);
                    lemma_still_after_prepares(first.0, after, op_num);
                } else {
                    assert(step.queued[k] == rest.1[k - first.1.len()]);
                }
            }
        }
        let following = (core.finalized + 1) as OpNum;
        lemma_pending(action, waiting, step.queued, following);
        if core.finalized < u64::MAX && after.can_finalize(following) {
            if following == op_num {
                assert(after.can_commit(op_num));
            } else {
                assert(core.can_commit(following) == after.can_commit(following));
            }
        }
    }
    assert(nothing_made_up(step.state, calls)) by {
        assert forall|other: OpNum, id: ReplicaId|
            after.ops.contains_key(other) && after.ops[other].prepares.contains_key(
                id,
            ) implies #[trigger] prepare_stems(after, calls, other, id) by {
            assert(after.ops.dom().contains(other));
            assert(core.ops.contains_key(other));
            if core.ops[other].prepares.contains_key(id) {
                assert(prepare_stems(core, calls, other, id));
            }
            if other == op_num {
                let vote = after.ops[other].prepares[id];
                if all.contains(vote) {
                    let k = all.index_of(vote);
                    if k > 0 {
                        assert(vote == filed(state.early_prepares, op_num)[k - 1]);
                    } else {
                        assert(after.ops[other].prepares.contains_key(id));
                        assert(vote.replica_id == id);
                    }
                }
            }
        }
        assert forall|other: OpNum, id: ReplicaId|
            after.ops.contains_key(other) && after.ops[other].commits.contains_key(
                id,
            ) implies #[trigger] commit_stems(after, calls, other, id) by {
            assert(after.ops.dom().contains(other));
            assert(core.ops.contains_key(other));
            assert(commit_stems(core, calls, other, id));
            if core.can_commit(other) {
                assert(after.can_commit(other));
            }
        }
        assert forall|other: OpNum, i: int|
            0 <= i < filed(step.state.early_prepares, other).len() implies received(
            calls,
            Message::Prepare(#[trigger] filed(step.state.early_prepares, other)[i]),
        ) by {
            assert(filed(step.state.early_prepares, other)[i] == filed(
                state.early_prepares,
                other,
            )[i]);
        }
        assert forall|other: OpNum| #[trigger]
            after.ops.contains_key(other) implies heard(
            calls,
            Message::PrePrepare(after.ops[other].pre_prepare, after.ops[other].commands),
        ) && after.ops[other].pre_prepare.op_num == other && after.ops[other].pre_prepare.view_num
            == after.view_num by {
            assert(after.ops.dom().contains(other));
            assert(core.ops.contains_key(other));
        }
    }
}

/// Whether the replica's own commit is counted, and all that were filed are
/// counted or not needed.
spec fn absorbs(state: ReplicaState, next: ReplicaState, op_num: OpNum) -> bool {
    let votes = filed(state.early_commits, op_num);
    &&& next.early_commits == state.early_commits.remove(op_num)
    &&& next.core.ops[op_num].commits.contains_key(next.core.config.id)
    &&& forall|i: int|
        0 <= i < votes.len() && #[trigger] votes[i].digest
            == next.core.ops[op_num].pre_prepare.digest ==> next.core.can_finalize(op_num)
            || next.core.ops[op_num].commits.contains_key(votes[i].replica_id)
}

/// Counting commits of one operation keeps a replica on course, where those that
/// waited for it are all counted or not needed, and what can be finalized is.
proof fn lemma_commits_on_course(
    state: ReplicaState,
    next: ReplicaState,
    op_num: OpNum,
    votes: Seq<Vote>,
    before: Seq<CoreAction>,
    queue: Seq<CoreAction>,
    calls: Seq<Call>,
    later: Seq<Call>,
)
    requires
        on_course(state, before, calls),
        next.wf(),
        all_fit(next.core, queue),
        adds_commits(state.core, next.core, op_num, votes),
        finalized_all(next.core),
        next.early_prepares == state.early_prepares,
        next.early_commits == state.early_commits || absorbs(state, next, op_num),
        forall|other: OpNum| #[trigger]
            pending(before, other) ==> pending(queue, other) || other == op_num && absorbs(
                state,
                next,
                op_num,
            ),
        forall|other: OpNum| #[trigger]
            before.contains(ReplicaCoreAction::Prepare(other)) ==> queue.contains(
                ReplicaCoreAction::Prepare(other),
            ),
        forall|i: int|
            0 <= i < queue.len() ==> level(#[trigger] queue[i]) == 0 || before.contains(queue[i]),
        forall|message: Message<Seq<Command>>| #[trigger]
            heard(calls, message) ==> heard(later, message),
        forall|message: Message<Seq<Command>>| #[trigger]
            received(calls, message) ==> received(later, message),
        forall|message: Message<Seq<Command>>| #[trigger]
            heard(later, message) ==> heard(calls, message) || {
                &&& message matches Message::Commit(vote) && vote.op_num == op_num
                    && next.core.ops[op_num].commits.contains_key(vote.replica_id)
            },
        forall|i: int|
            0 <= i < votes.len() ==> received(later, Message::Commit(#[trigger] votes[i])) || (
            votes[i].replica_id == state.core.config.id && next.core.can_commit(op_num)),
    ensures
        on_course(next, queue, later),
{
    let core = state.core;
    let after = next.core;
    assert(ops_kept(core, after)) by {
        assert forall|other: OpNum| #[trigger] core.ops.contains_key(other) implies {
            &&& after.ops.contains_key(other)
            &&& after.ops[other].commands == core.ops[other].commands
            &&& after.ops[other].pre_prepare == core.ops[other].pre_prepare
            &&& core.ops[other].prepares.dom().subset_of(after.ops[other].prepares.dom())
            &&& core.ops[other].commits.dom().subset_of(after.ops[other].commits.dom())
        } by {
            assert(after.ops.dom().contains(other));
        }
    }
    lemma_still(core, after);
    assert forall|other: OpNum| other > after.finalized implies #[trigger] after.can_commit(other)
        == core.can_commit(other) by {
        assert(after.ops.dom().contains(other) == core.ops.dom().contains(other));
    }
    assert(nothing_lost(next, queue, later)) by {
        assert forall|vote: Vote|
            heard(later, Message::Prepare(vote)) && vote.view_num
                == after.view_num implies #[trigger] prepare_kept(next, queue, vote) by {
            assert(heard(calls, Message::Prepare(vote)));
            assert(prepare_kept(state, before, vote));
            assert(after.ops.dom().contains(vote.op_num) == core.ops.dom().contains(vote.op_num));
        }
        assert forall|vote: Vote|
            heard(later, Message::Commit(vote)) && vote.view_num
                == after.view_num implies #[trigger] commit_kept(next, queue, vote) by {
            assert(after.ops.dom().contains(vote.op_num) == core.ops.dom().contains(vote.op_num));
            if heard(calls, Message::Commit(vote)) {
                assert(commit_kept(state, before, vote));
                let waits = filed(state.early_commits, vote.op_num);
                if vote.op_num == op_num && waits.contains(vote) {
                    let i = waits.index_of(vote);
                    assert(filed(state.early_commits, op_num)[i] == vote);
                }
                if vote.op_num <= after.finalized {
                    assert(after.can_finalize(vote.op_num));
                } else {
                    assert(after.can_commit(vote.op_num) == core.can_commit(vote.op_num));
                }
            }
        }
        assert forall|pre_prepare: PrePrepare, commands: Seq<Command>| #[trigger]
            heard(later, Message::PrePrepare(pre_prepare, commands)) && pre_prepare.view_num
                == after.view_num implies after.ops.contains_key(pre_prepare.op_num) by {
            assert(heard(calls, Message::PrePrepare(pre_prepare, commands)));
            assert(core.ops.contains_key(pre_prepare.op_num));
        }
    }
    assert(keeps_up(next, queue)) by {
        assert forall|i: int| 0 <= i < queue.len() implies (
        #[trigger] queue[i] matches ReplicaCoreAction::Commit(other) ==> after.can_commit(
            other,
        )) by {
            if before.contains(queue[i]) {
                let k = before.index_of(queue[i]);
                assert(before[k] == queue[i]);
                if queue[i] is Commit {
                    assert(core.can_commit(queue[i]->Commit_0));
                }
            }
        }
        assert forall|other: OpNum| #[trigger]
            after.ops.contains_key(other) implies after.ops[other].prepares.contains_key(
            after.config.id,
        ) || queue.contains(ReplicaCoreAction::Prepare(other)) by {
            assert(after.ops.dom().contains(other));
            assert(core.ops.contains_key(other));
            if before.contains(ReplicaCoreAction::Prepare(other)) {
                assert(queue.contains(ReplicaCoreAction::Prepare(other)));
            }
        }
        assert forall|other: OpNum| #[trigger]
            after.ops.contains_key(other) && after.can_commit(
                other,
            ) implies after.ops[other].commits.contains_key(after.config.id) || pending(
            queue,
            other,
        ) by {
            assert(after.ops.dom().contains(other));
            assert(core.ops.contains_key(other));
            if core.can_commit(other) {
                if core.ops[other].commits.contains_key(core.config.id) {
                    assert(after.ops[other].commits.dom().contains(core.config.id));
                } else {
                    assert(pending(before, other));
                }
            }
        }
    }
    assert(nothing_made_up(next, later)) by {
        assert forall|other: OpNum, id: ReplicaId|
            after.ops.contains_key(other) && after.ops[other].prepares.contains_key(
                id,
            ) implies #[trigger] prepare_stems(after, later, other, id) by {
            assert(after.ops.dom().contains(other));
            assert(core.ops.contains_key(other));
            assert(prepare_stems(core, calls, other, id));
        }
        assert forall|other: OpNum, id: ReplicaId|
            after.ops.contains_key(other) && after.ops[other].commits.contains_key(
                id,
            ) implies #[trigger] commit_stems(after, later, other, id) by {
            assert(after.ops.dom().contains(other));
            assert(core.ops.contains_key(other));
            let vote = after.ops[other].commits[id];
            if core.ops[other].commits.contains_key(id) && core.ops[other].commits[id] == vote {
                assert(commit_stems(core, calls, other, id));
                if core.can_commit(other) {
                    assert(after.can_commit(other));
                }
            } else {
                assert(other == op_num);
                let k = votes.index_of(vote);
                assert(votes[k] == vote);
                assert(vote.replica_id == id);
            }
        }
        assert forall|other: OpNum, i: int|
            0 <= i < filed(next.early_prepares, other).len() implies received(
            later,
            Message::Prepare(#[trigger] filed(next.early_prepares, other)[i]),
        ) by {
            assert(received(calls, Message::Prepare(filed(state.early_prepares, other)[i])));
        }
        assert forall|other: OpNum, i: int|
            0 <= i < filed(next.early_commits, other).len() implies received(
            later,
            Message::Commit(#[trigger] filed(next.early_commits, other)[i]),
        ) by {
            assert(filed(next.early_commits, other)[i] == filed(state.early_commits, other)[i]);
            assert(received(calls, Message::Commit(filed(state.early_commits, other)[i])));
        }
        assert forall|other: OpNum| #[trigger]
            after.ops.contains_key(other) implies heard(
            later,
            Message::PrePrepare(after.ops[other].pre_prepare, after.ops[other].commands),
        ) && after.ops[other].pre_prepare.op_num == other && after.ops[other].pre_prepare.view_num
            == after.view_num by {
            assert(after.ops.dom().contains(other));
            assert(core.ops.contains_key(other));
            assert(heard(
                calls,
                Message::PrePrepare(core.ops[other].pre_prepare, core.ops[other].commands),
            ));
        }
    }
}

/// Casting the replica's own commit and counting those that were filed keeps it
/// on course.
proof fn lemma_commit_on_course(
    state: ReplicaState,
    op_num: OpNum,
    waiting: Seq<CoreAction>,
    calls: Seq<Call>,
)
    requires
        on_course(state, seq![ReplicaCoreAction::Commit(op_num)] + waiting, calls),
    ensures
        ({
            let step = state.perform(ReplicaCoreAction::Commit(op_num));
            on_course(step.state, waiting + step.queued, calls)
        }),
{
    let action: CoreAction = ReplicaCoreAction::Commit(op_num);
    let queue = seq![action] + waiting;
    let core = state.core;
    lemma_perform_keeps_fit(state, action, waiting);
    assert(queue[0] == action);
    assert(fits(core, queue[0]));
    let own = state.own_vote(op_num);
    let votes = filed(state.early_commits, op_num);
    let all = seq![own] + votes;
    assert(all.drop_first() =~= votes);
    assert(all[0] == own);
    let first = core.handle_commit(own);
    assert(all.contains(own));
    lemma_one_commit(core, own, all);
    let step = state.perform(action);
    let after = step.state.core;
    filed_commits_count(first.0, op_num, own.digest, votes, 0);
    lemma_more_commits(first.0, after, op_num, votes, all);
    assert(adds_commits(core, after, op_num, all));
    assert forall|i: int|
        0 <= i < votes.len() && #[trigger] votes[i].digest
            == after.ops[op_num].pre_prepare.digest implies after.can_finalize(op_num)
        || after.ops[op_num].commits.contains_key(votes[i].replica_id) by {
        filed_commits_count(first.0, op_num, own.digest, votes, i);
    }
    assert(after.ops[op_num].commits.contains_key(core.config.id)) by {
        assert(first.0.ops[op_num].commits.contains_key(core.config.id));
    }
    assert forall|other: OpNum| #[trigger] pending(queue, other) implies pending(
        waiting + step.queued,
        other,
    ) || other == op_num by {
        lemma_pending(action, waiting, step.queued, other);
    }
    assert forall|other: OpNum| #[trigger]
        queue.contains(ReplicaCoreAction::Prepare(other)) implies (waiting
        + step.queued).contains(ReplicaCoreAction::Prepare(other)) by {
        lemma_pending(action, waiting, step.queued, other);
    }
    assert(after.can_commit(op_num)) by {
        if op_num > after.finalized {
            assert(after.ops[op_num].prepares == core.ops[op_num].prepares);
        }
    }
    assert forall|i: int| 0 <= i < all.len() implies received(
        calls,
        Message::Commit(#[trigger] all[i]),
    ) || (all[i].replica_id == core.config.id && after.can_commit(op_num)) by {
        if i > 0 {
            assert(all[i] == filed(state.early_commits, op_num)[i - 1]);
        }
    }
    let next = waiting + step.queued;
    assert forall|i: int| 0 <= i < next.len() implies level(#[trigger] next[i]) == 0
        || queue.contains(next[i]) by {
        if i < waiting.len() {
            assert(next[i] == queue[i + 1]);
        } else {
            assert(next[i] == step.queued[i - waiting.len()]);
        }
    }
    lemma_commits_on_course(
        state,
        step.state,
        op_num,
        all,
        queue,
        waiting + step.queued,
        calls,
        calls,
    );
}

/// Carrying out one action keeps a replica on course.
proof fn lemma_perform_on_course(
    state: ReplicaState,
    action: CoreAction,
    waiting: Seq<CoreAction>,
    calls: Seq<Call>,
)
    requires
        on_course(state, seq![action] + waiting, calls),
    ensures
        on_course(state.perform(action).state, waiting + state.perform(action).queued, calls),
{
    let queue = seq![action] + waiting;
    assert(queue[0] == action);
    assert(fits(state.core, queue[0]));
    match action {
        ReplicaCoreAction::Propose(_, _) => {},
        ReplicaCoreAction::Prepare(op_num) => lemma_prepare_on_course(
            state,
            op_num,
            waiting,
            calls,
        ),
        ReplicaCoreAction::Commit(op_num) => lemma_commit_on_course(state, op_num, waiting, calls),
        ReplicaCoreAction::Finalize(_) => {
            let step = state.perform(action);
            let next = waiting + step.queued;
            assert(next =~= waiting);
            lemma_perform_keeps_fit(state, action, waiting);
            assert forall|other: OpNum| #[trigger] pending(queue, other) implies pending(
                next,
                other,
            ) by {
                lemma_pending(action, waiting, step.queued, other);
            }
            assert forall|other: OpNum| #[trigger]
                queue.contains(ReplicaCoreAction::Prepare(other)) implies next.contains(
                ReplicaCoreAction::Prepare(other),
            ) by {
                lemma_pending(action, waiting, step.queued, other);
            }
            assert forall|vote: Vote| #[trigger] prepare_kept(state, queue, vote) implies
                prepare_kept(state, next, vote) by {
                if queue.contains(ReplicaCoreAction::Prepare(vote.op_num)) {
                    assert(next.contains(ReplicaCoreAction::Prepare(vote.op_num)));
                }
            }
            assert forall|vote: Vote| #[trigger] commit_kept(state, queue, vote) implies
                commit_kept(state, next, vote) by {
                if pending(queue, vote.op_num) {
                    assert(pending(next, vote.op_num));
                }
            }
            assert(nothing_lost(state, next, calls)) by {
                assert forall|vote: Vote|
                    heard(calls, Message::Prepare(vote)) && vote.view_num
                        == state.core.view_num implies #[trigger] prepare_kept(
                    state,
                    next,
                    vote,
                ) by {
                    assert(prepare_kept(state, queue, vote));
                }
                assert forall|vote: Vote|
                    heard(calls, Message::Commit(vote)) && vote.view_num
                        == state.core.view_num implies #[trigger] commit_kept(
                    state,
                    next,
                    vote,
                ) by {
                    assert(commit_kept(state, queue, vote));
                }
            }
            assert(keeps_up(state, next)) by {
                assert forall|other: OpNum| #[trigger]
                    state.core.ops.contains_key(
                        other,
                    ) implies state.core.ops[other].prepares.contains_key(state.core.config.id)
                    || next.contains(ReplicaCoreAction::Prepare(other)) by {
                    if queue.contains(ReplicaCoreAction::Prepare(other)) {
                        assert(next.contains(ReplicaCoreAction::Prepare(other)));
                    }
                }
                assert forall|i: int| 0 <= i < next.len() implies (
                #[trigger] next[i] matches ReplicaCoreAction::Commit(other)
                    ==> state.core.can_commit(other)) by {
                    assert(next[i] == queue[i + 1]);
                }
            }
        },
    }
}

proof fn lemma_perform_all_on_course(
    state: ReplicaState,
    actions: Seq<CoreAction>,
    done: int,
    calls: Seq<Call>,
)
    requires
        on_course(state, actions, calls),
        0 <= done <= actions.len(),
    ensures
        ({
            let step = state.perform_all(actions.subrange(0, done));
            on_course(
                step.state,
                actions.subrange(done, actions.len() as int) + step.queued,
                calls,
            )
        }),
    decreases done,
{
    if done == 0 {
        assert(actions.subrange(0, actions.len() as int) + Seq::<CoreAction>::empty() =~= actions);
    } else {
        lemma_perform_all_on_course(state, actions, done - 1, calls);
        assert(actions.subrange(0, done).drop_last() =~= actions.subrange(0, done - 1));
        let before = state.perform_all(actions.subrange(0, done - 1));
        let action = actions[done - 1];
        let rest = actions.subrange(done, actions.len() as int);
        assert(actions.subrange(done - 1, actions.len() as int) + before.queued =~= seq![action]
            + (rest + before.queued));
        lemma_perform_on_course(before.state, action, rest + before.queued, calls);
        let last = before.state.perform(action);
        assert(rest + before.queued + last.queued =~= rest + (before.queued + last.queued));
    }
}

proof fn lemma_settle_on_course(
    state: ReplicaState,
    queue: Seq<CoreAction>,
    rounds: nat,
    calls: Seq<Call>,
)
    requires
        on_course(state, queue, calls),
        below(queue, rounds),
    ensures
        on_course(state.settle(queue, rounds).0, Seq::empty(), calls),
    decreases rounds,
{
    if queue.len() == 0 {
        assert(queue =~= Seq::empty());
    } else {
        assert(level(queue[0]) < rounds);
        let step = state.perform_all(queue);
        assert(queue.subrange(0, queue.len() as int) =~= queue);
        lemma_perform_all_on_course(state, queue, queue.len() as int, calls);
        lemma_perform_all_keeps_fit(state, queue, queue.len() as int);
        assert(queue.subrange(queue.len() as int, queue.len() as int) + step.queued
            =~= step.queued);
        assert(below(queue, (rounds - 1) as nat + 1));
        lemma_settle_on_course(step.state, step.queued, (rounds - 1) as nat, calls);
    }
}

proof fn lemma_heard(calls: Seq<Call>, call: Call, message: Message<Seq<Command>>)
    ensures
        heard(calls.push(call), message) <==> heard(calls, message) || call == Call::Receive(
            message,
            true,
        ),
        received(calls, message) ==> received(calls.push(call), message),
        call == Call::Receive(message, true) || call == Call::Receive(message, false) ==> received(
            calls.push(call),
            message,
        ),
{
    let later = calls.push(call);
    assert forall|valid: bool| #[trigger]
        calls.contains(Call::Receive(message, valid)) implies later.contains(
        Call::Receive(message, valid),
    ) by {
        let i = calls.index_of(Call::Receive(message, valid));
        assert(later[i] == Call::Receive(message, valid));
    }
    assert(later[calls.len() as int] == call);
    if heard(later, message) {
        let i = later.index_of(Call::Receive(message, true));
        if i < calls.len() {
            assert(calls[i] == Call::Receive(message, true));
        }
    }
    assert(later.contains(call));
}

/// A call that changes nothing, or only files a vote, keeps a replica on course,
/// where what was received is not lost.
proof fn lemma_filed_on_course(
    state: ReplicaState,
    next: ReplicaState,
    calls: Seq<Call>,
    call: Call,
)
    requires
        on_course(state, Seq::empty(), calls),
        next.wf(),
        next.core == state.core,
        next.early_prepares == state.early_prepares || {
            &&& call matches Call::Receive(Message::Prepare(vote), _)
                && !state.core.ops.contains_key(vote.op_num) && next.early_prepares == file_vote(
                state.early_prepares,
                vote,
            )
        },
        next.early_commits == state.early_commits || {
            &&& call matches Call::Receive(Message::Commit(vote), _)
                && !state.core.ops.contains_key(vote.op_num) && next.early_commits == file_vote(
                state.early_commits,
                vote,
            )
        },
        match call {
            Call::Receive(Message::Prepare(vote), true) => vote.view_num != state.core.view_num
                || prepare_kept(next, Seq::empty(), vote),
            Call::Receive(Message::Commit(vote), true) => vote.view_num != state.core.view_num
                || commit_kept(next, Seq::empty(), vote),
            Call::Receive(Message::PrePrepare(pre_prepare, _), true) => pre_prepare.view_num
                != state.core.view_num || state.core.ops.contains_key(pre_prepare.op_num),
            _ => true,
        },
    ensures
        on_course(next, Seq::empty(), calls.push(call)),
{
    let later = calls.push(call);
    let none = Seq::<CoreAction>::empty();
    let core = state.core;
    assert(nothing_lost(next, none, later)) by {
        assert forall|vote: Vote|
            heard(later, Message::Prepare(vote)) && vote.view_num
                == core.view_num implies #[trigger] prepare_kept(next, none, vote) by {
            lemma_heard(calls, call, Message::Prepare(vote));
            if heard(calls, Message::Prepare(vote)) {
                assert(prepare_kept(state, none, vote));
                lemma_filed_stays(state.early_prepares, next.early_prepares, vote);
            }
        }
        assert forall|vote: Vote|
            heard(later, Message::Commit(vote)) && vote.view_num
                == core.view_num implies #[trigger] commit_kept(next, none, vote) by {
            lemma_heard(calls, call, Message::Commit(vote));
            if heard(calls, Message::Commit(vote)) {
                assert(commit_kept(state, none, vote));
                lemma_filed_stays(state.early_commits, next.early_commits, vote);
            }
        }
        assert forall|pre_prepare: PrePrepare, commands: Seq<Command>| #[trigger]
            heard(later, Message::PrePrepare(pre_prepare, commands)) && pre_prepare.view_num
                == core.view_num implies core.ops.contains_key(pre_prepare.op_num) by {
            lemma_heard(calls, call, Message::PrePrepare(pre_prepare, commands));
            if heard(calls, Message::PrePrepare(pre_prepare, commands)) {
                assert(core.ops.contains_key(pre_prepare.op_num));
            }
        }
    }
    assert(keeps_up(next, none));
    assert(nothing_made_up(next, later)) by {
        assert forall|op_num: OpNum, id: ReplicaId|
            core.ops.contains_key(op_num) && core.ops[op_num].prepares.contains_key(
                id,
            ) implies #[trigger] prepare_stems(core, later, op_num, id) by {
            assert(prepare_stems(core, calls, op_num, id));
            lemma_heard(calls, call, Message::Prepare(core.ops[op_num].prepares[id]));
        }
        assert forall|op_num: OpNum, id: ReplicaId|
            core.ops.contains_key(op_num) && core.ops[op_num].commits.contains_key(
                id,
            ) implies #[trigger] commit_stems(core, later, op_num, id) by {
            assert(commit_stems(core, calls, op_num, id));
            lemma_heard(calls, call, Message::Commit(core.ops[op_num].commits[id]));
        }
        assert forall|op_num: OpNum, i: int|
            0 <= i < filed(next.early_prepares, op_num).len() implies received(
            later,
            Message::Prepare(#[trigger] filed(next.early_prepares, op_num)[i]),
        ) by {
            let before = filed(state.early_prepares, op_num);
            let vote = filed(next.early_prepares, op_num)[i];
            lemma_heard(calls, call, Message::Prepare(vote));
            if i < before.len() {
                assert(before[i] == vote);
                assert(received(calls, Message::Prepare(filed(state.early_prepares, op_num)[i])));
            }
        }
        assert forall|op_num: OpNum, i: int|
            0 <= i < filed(next.early_commits, op_num).len() implies received(
            later,
            Message::Commit(#[trigger] filed(next.early_commits, op_num)[i]),
        ) by {
            let before = filed(state.early_commits, op_num);
            let vote = filed(next.early_commits, op_num)[i];
            lemma_heard(calls, call, Message::Commit(vote));
            if i < before.len() {
                assert(before[i] == vote);
                assert(received(calls, Message::Commit(filed(state.early_commits, op_num)[i])));
            }
        }
        assert forall|op_num: OpNum| #[trigger] core.ops.contains_key(op_num) implies heard(
            later,
            Message::PrePrepare(core.ops[op_num].pre_prepare, core.ops[op_num].commands),
        ) by {
            lemma_heard(
                calls,
                call,
                Message::PrePrepare(core.ops[op_num].pre_prepare, core.ops[op_num].commands),
            );
        }
    }
}

proof fn lemma_filed_stays(
    before: Map<OpNum, Seq<Vote>>,
    after: Map<OpNum, Seq<Vote>>,
    vote: Vote,
)
    requires
        after == before || exists|new: Vote| after == #[trigger] file_vote(before, new),
    ensures
        filed(before, vote.op_num).contains(vote) ==> filed(after, vote.op_num).contains(vote),
{
    if after != before {
        let new = choose|new: Vote| after == #[trigger] file_vote(before, new);
        if filed(before, vote.op_num).contains(vote) {
            let i = filed(before, vote.op_num).index_of(vote);
            assert(filed(after, vote.op_num)[i] == vote);
        }
    }
}

/// A new proposal keeps a replica on course.
proof fn lemma_proposal_on_course(
    state: ReplicaState,
    pre_prepare: PrePrepare,
    commands: Seq<Command>,
    calls: Seq<Call>,
)
    requires
        on_course(state, Seq::empty(), calls),
        pre_prepare.view_num == state.core.view_num,
        !state.core.ops.contains_key(pre_prepare.op_num),
    ensures
        ({
            let step = state.core.handle_pre_prepare(pre_prepare, commands);
            on_course(
                (ReplicaState { core: step.0, ..state }),
                step.1,
                calls.push(Call::Receive(Message::PrePrepare(pre_prepare, commands), true)),
            )
        }),
{
    let core = state.core;
    let none = Seq::<CoreAction>::empty();
    let step = core.handle_pre_prepare(pre_prepare, commands);
    let after = step.0;
    let queue = step.1;
    let next = ReplicaState { core: after, ..state };
    let new = pre_prepare.op_num;
    let call = Call::Receive(Message::PrePrepare(pre_prepare, commands), true);
    let later = calls.push(call);
    lemma_pre_prepare_sound(core, pre_prepare, commands);
    lemma_still(core, after);
    assert(queue[0] == ReplicaCoreAction::<Seq<Command>>::Prepare(new));
    assert(queue.contains(ReplicaCoreAction::Prepare(new)));
    assert(pending(queue, new));
    assert forall|other: OpNum| other != new implies #[trigger] after.can_commit(other)
        == core.can_commit(other) && after.can_finalize(other) == core.can_finalize(other) by {}
    assert(nothing_lost(next, queue, later)) by {
        assert forall|vote: Vote|
            heard(later, Message::Prepare(vote)) && vote.view_num
                == core.view_num implies #[trigger] prepare_kept(next, queue, vote) by {
            lemma_heard(calls, call, Message::Prepare(vote));
            assert(prepare_kept(state, none, vote));
            assert(after.can_commit(vote.op_num) || vote.op_num == new || !core.can_commit(
                vote.op_num,
            ));
        }
        assert forall|vote: Vote|
            heard(later, Message::Commit(vote)) && vote.view_num
                == core.view_num implies #[trigger] commit_kept(next, queue, vote) by {
            lemma_heard(calls, call, Message::Commit(vote));
            assert(commit_kept(state, none, vote));
            if vote.op_num != new {
                assert(after.can_commit(vote.op_num) == core.can_commit(vote.op_num));
            }
        }
        assert forall|other: PrePrepare, batch: Seq<Command>| #[trigger]
            heard(later, Message::PrePrepare(other, batch)) && other.view_num
                == core.view_num implies after.ops.contains_key(other.op_num) by {
            lemma_heard(calls, call, Message::PrePrepare(other, batch));
            if heard(calls, Message::PrePrepare(other, batch)) {
                assert(core.ops.contains_key(other.op_num));
            }
        }
    }
    assert(keeps_up(next, queue)) by {
        assert forall|op_num: OpNum| #[trigger]
            after.ops.contains_key(op_num) && after.can_commit(
                op_num,
            ) implies after.ops[op_num].commits.contains_key(after.config.id) || pending(
            queue,
            op_num,
        ) by {
            if op_num != new {
                assert(core.ops.contains_key(op_num) && core.can_commit(op_num));
            }
        }
        assert forall|op_num: OpNum| #[trigger]
            after.ops.contains_key(op_num) implies after.ops[op_num].prepares.contains_key(
            after.config.id,
        ) || queue.contains(ReplicaCoreAction::Prepare(op_num)) by {
            if op_num != new {
                assert(core.ops.contains_key(op_num));
            }
        }
        let following = (core.finalized + 1) as OpNum;
        if core.finalized < u64::MAX && following != new {
            assert(after.can_commit(following) == core.can_commit(following));
        }
    }
    assert(nothing_made_up(next, later)) by {
        assert forall|op_num: OpNum, id: ReplicaId|
            after.ops.contains_key(op_num) && after.ops[op_num].prepares.contains_key(
                id,
            ) implies #[trigger] prepare_stems(after, later, op_num, id) by {
            assert(op_num != new);
            assert(core.ops.contains_key(op_num));
            assert(prepare_stems(core, calls, op_num, id));
            lemma_heard(calls, call, Message::Prepare(core.ops[op_num].prepares[id]));
        }
        assert forall|op_num: OpNum, id: ReplicaId|
            after.ops.contains_key(op_num) && after.ops[op_num].commits.contains_key(
                id,
            ) implies #[trigger] commit_stems(after, later, op_num, id) by {
            assert(op_num != new);
            assert(core.ops.contains_key(op_num));
            assert(commit_stems(core, calls, op_num, id));
            assert(after.can_commit(op_num) == core.can_commit(op_num));
            lemma_heard(calls, call, Message::Commit(core.ops[op_num].commits[id]));
        }
        assert forall|op_num: OpNum, i: int|
            0 <= i < filed(next.early_prepares, op_num).len() implies received(
            later,
            Message::Prepare(#[trigger] filed(next.early_prepares, op_num)[i]),
        ) by {
            lemma_heard(calls, call, Message::Prepare(filed(state.early_prepares, op_num)[i]));
        }
        assert forall|op_num: OpNum, i: int|
            0 <= i < filed(next.early_commits, op_num).len() implies received(
            later,
            Message::Commit(#[trigger] filed(next.early_commits, op_num)[i]),
        ) by {
            lemma_heard(calls, call, Message::Commit(filed(state.early_commits, op_num)[i]));
        }
        assert forall|op_num: OpNum| #[trigger] after.ops.contains_key(op_num) implies heard(
            later,
            Message::PrePrepare(after.ops[op_num].pre_prepare, after.ops[op_num].commands),
        ) && after.ops[op_num].pre_prepare.op_num == op_num
            && after.ops[op_num].pre_prepare.view_num == after.view_num by {
            lemma_heard(
                calls,
                call,
                Message::PrePrepare(after.ops[op_num].pre_prepare, after.ops[op_num].commands),
            );
            if op_num != new {
                assert(core.ops.contains_key(op_num));
            }
        }
    }
}

/// A prepare that is counted at once keeps a replica on course.
proof fn lemma_counted_prepare_on_course(
    state: ReplicaState,
    vote: Vote,
    calls: Seq<Call>,
)
    requires
        on_course(state, Seq::empty(), calls),
        state.core.supports(vote),
        !state.core.can_commit(vote.op_num),
    ensures
        ({
            let step = state.core.handle_prepare(vote);
            on_course(
                (ReplicaState { core: step.0, ..state }),
                step.1,
                calls.push(Call::Receive(Message::Prepare(vote), true)),
            )
        }),
{
    let core = state.core;
    let none = Seq::<CoreAction>::empty();
    let step = core.handle_prepare(vote);
    let after = step.0;
    let queue = step.1;
    let next = ReplicaState { core: after, ..state };
    let own = vote.op_num;
    let call = Call::Receive(Message::Prepare(vote), true);
    let later = calls.push(call);
    lemma_prepare_advances(core, vote);
    lemma_step_can_settle(state, step);
    lemma_still(core, after);
    assert(after.ops.dom() =~= core.ops.dom());
    if after.can_commit(own) {
        assert(queue[0] == ReplicaCoreAction::<Seq<Command>>::Commit(own));
        assert(queue.contains(ReplicaCoreAction::Commit(own)));
        assert(pending(queue, own));
    }
    assert forall|other: OpNum| other != own implies #[trigger] after.can_commit(other)
        == core.can_commit(other) && after.can_finalize(other) == core.can_finalize(other) by {}
    assert(nothing_lost(next, queue, later)) by {
        assert forall|any: Vote|
            heard(later, Message::Prepare(any)) && any.view_num
                == core.view_num implies #[trigger] prepare_kept(next, queue, any) by {
            lemma_heard(calls, call, Message::Prepare(any));
            if heard(calls, Message::Prepare(any)) {
                assert(prepare_kept(state, none, any));
                if any.op_num != own {
                    assert(after.can_commit(any.op_num) == core.can_commit(any.op_num));
                }
            }
        }
        assert forall|any: Vote|
            heard(later, Message::Commit(any)) && any.view_num
                == core.view_num implies #[trigger] commit_kept(next, queue, any) by {
            lemma_heard(calls, call, Message::Commit(any));
            assert(commit_kept(state, none, any));
            if any.op_num != own {
                assert(after.can_commit(any.op_num) == core.can_commit(any.op_num));
            }
        }
        assert forall|other: PrePrepare, batch: Seq<Command>| #[trigger]
            heard(later, Message::PrePrepare(other, batch)) && other.view_num
                == core.view_num implies after.ops.contains_key(other.op_num) by {
            lemma_heard(calls, call, Message::PrePrepare(other, batch));
            assert(core.ops.contains_key(other.op_num));
        }
    }
    assert(keeps_up(next, queue)) by {
        assert forall|op_num: OpNum| #[trigger]
            after.ops.contains_key(op_num) && after.can_commit(
                op_num,
            ) implies after.ops[op_num].commits.contains_key(after.config.id) || pending(
            queue,
            op_num,
        ) by {
            if op_num != own {
                assert(core.ops.contains_key(op_num) && core.can_commit(op_num));
            }
        }
        assert forall|op_num: OpNum| #[trigger]
            after.ops.contains_key(op_num) implies after.ops[op_num].prepares.contains_key(
            after.config.id,
        ) || queue.contains(ReplicaCoreAction::Prepare(op_num)) by {
            assert(core.ops.contains_key(op_num));
        }
        let following = (core.finalized + 1) as OpNum;
        if core.finalized < u64::MAX && following != own {
            assert(after.can_commit(following) == core.can_commit(following));
        }
    }
    assert(nothing_made_up(next, later)) by {
        assert forall|op_num: OpNum, id: ReplicaId|
            after.ops.contains_key(op_num) && after.ops[op_num].prepares.contains_key(
                id,
            ) implies #[trigger] prepare_stems(after, later, op_num, id) by {
            assert(core.ops.contains_key(op_num));
            lemma_heard(calls, call, Message::Prepare(after.ops[op_num].prepares[id]));
            if op_num != own || id != vote.replica_id {
                assert(prepare_stems(core, calls, op_num, id));
            }
        }
        assert forall|op_num: OpNum, id: ReplicaId|
            after.ops.contains_key(op_num) && after.ops[op_num].commits.contains_key(
                id,
            ) implies #[trigger] commit_stems(after, later, op_num, id) by {
            assert(core.ops.contains_key(op_num));
            assert(commit_stems(core, calls, op_num, id));
            if core.can_commit(op_num) {
                assert(after.can_commit(op_num));
            }
            lemma_heard(calls, call, Message::Commit(core.ops[op_num].commits[id]));
        }
        assert forall|op_num: OpNum, i: int|
            0 <= i < filed(next.early_prepares, op_num).len() implies received(
            later,
            Message::Prepare(#[trigger] filed(next.early_prepares, op_num)[i]),
        ) by {
            lemma_heard(calls, call, Message::Prepare(filed(state.early_prepares, op_num)[i]));
        }
        assert forall|op_num: OpNum, i: int|
            0 <= i < filed(next.early_commits, op_num).len() implies received(
            later,
            Message::Commit(#[trigger] filed(next.early_commits, op_num)[i]),
        ) by {
            lemma_heard(calls, call, Message::Commit(filed(state.early_commits, op_num)[i]));
        }
        assert forall|op_num: OpNum| #[trigger] after.ops.contains_key(op_num) implies heard(
            later,
            Message::PrePrepare(after.ops[op_num].pre_prepare, after.ops[op_num].commands),
        ) && after.ops[op_num].pre_prepare.op_num == op_num
            && after.ops[op_num].pre_prepare.view_num == after.view_num by {
            assert(core.ops.contains_key(op_num));
            lemma_heard(
                calls,
                call,
                Message::PrePrepare(after.ops[op_num].pre_prepare, after.ops[op_num].commands),
            );
        }
    }
}

/// A commit that is counted at once keeps a replica on course.
proof fn lemma_counted_commit_on_course(
    state: ReplicaState,
    vote: Vote,
    calls: Seq<Call>,
)
    requires
        on_course(state, Seq::empty(), calls),
        state.core.supports(vote),
    ensures
        ({
            let step = state.core.handle_commit(vote);
            on_course(
                (ReplicaState { core: step.0, ..state }),
                step.1,
                calls.push(Call::Receive(Message::Commit(vote), true)),
            )
        }),
{
    let core = state.core;
    let none = Seq::<CoreAction>::empty();
    let step = core.handle_commit(vote);
    let next = ReplicaState { core: step.0, ..state };
    let call = Call::Receive(Message::Commit(vote), true);
    let later = calls.push(call);
    let votes = seq![vote];
    assert(votes[0] == vote);
    lemma_one_commit(core, vote, votes);
    lemma_commit_advances(core, vote);
    lemma_step_can_settle(state, step);
    assert forall|message: Message<Seq<Command>>| #[trigger] heard(calls, message) implies heard(
        later,
        message,
    ) by {
        lemma_heard(calls, call, message);
    }
    assert forall|message: Message<Seq<Command>>| #[trigger] received(calls, message) implies
        received(later, message) by {
        lemma_heard(calls, call, message);
    }
    assert forall|message: Message<Seq<Command>>| #[trigger] heard(later, message) implies heard(
        calls,
        message,
    ) || {
        &&& message matches Message::Commit(any) && any.op_num == vote.op_num
            && next.core.ops[vote.op_num].commits.contains_key(any.replica_id)
    } by {
        lemma_heard(calls, call, message);
    }
    lemma_heard(calls, call, Message::Commit(vote));
    assert forall|other: OpNum| !#[trigger] pending(none, other) by {}
    lemma_commits_on_course(state, next, vote.op_num, votes, none, step.1, calls, later);
}

/// Whatever is received or submitted, a replica stays on course.
pub proof fn call_stays_on_course(state: ReplicaState, calls: Seq<Call>, call: Call)
    requires
        on_course(state, Seq::empty(), calls),
    ensures
        on_course(
            match call {
                Call::Submit(command) => state.submit(command).0,
                Call::Receive(message, valid) => state.receive(message, valid).0,
            },
            Seq::empty(),
            calls.push(call),
        ),
{
    let core = state.core;
    let later = calls.push(call);
    match call {
        Call::Submit(command) => {
            lemma_filed_on_course(state, state, calls, call);
        },
        Call::Receive(message, valid) => {
            match message {
                Message::PrePrepare(pre_prepare, commands) => {
                    if pre_prepare.view_num != core.view_num || core.ops.contains_key(
                        pre_prepare.op_num,
                    ) || !valid {
                        lemma_filed_on_course(state, state, calls, call);
                    } else {
                        lemma_proposal_on_course(state, pre_prepare, commands, calls);
                        let step = core.handle_pre_prepare(pre_prepare, commands);
                        lemma_settle_on_course(
                            ReplicaState { core: step.0, ..state },
                            step.1,
                            3,
                            later,
                        );
                    }
                },
                Message::Prepare(vote) => {
                    if core.can_commit(vote.op_num) || vote.view_num != core.view_num {
                        lemma_filed_on_course(state, state, calls, call);
                    } else if !core.ops.contains_key(vote.op_num) {
                        let next = state.receive(message, valid).0;
                        lemma_new_vote_filed(state.early_prepares, vote);
                        lemma_filed_on_course(state, next, calls, call);
                    } else if vote.digest != core.ops[vote.op_num].pre_prepare.digest || !valid {
                        lemma_filed_on_course(state, state, calls, call);
                    } else {
                        lemma_counted_prepare_on_course(state, vote, calls);
                        lemma_prepare_advances(core, vote);
                        let step = core.handle_prepare(vote);
                        lemma_settle_on_course(
                            ReplicaState { core: step.0, ..state },
                            step.1,
                            3,
                            later,
                        );
                    }
                },
                Message::Commit(vote) => {
                    if core.can_finalize(vote.op_num) || vote.view_num != core.view_num {
                        lemma_filed_on_course(state, state, calls, call);
                    } else if !core.ops.contains_key(vote.op_num) {
                        let next = state.receive(message, valid).0;
                        lemma_new_vote_filed(state.early_commits, vote);
                        lemma_filed_on_course(state, next, calls, call);
                    } else if vote.digest != core.ops[vote.op_num].pre_prepare.digest || !valid {
                        lemma_filed_on_course(state, state, calls, call);
                    } else {
                        lemma_counted_commit_on_course(state, vote, calls);
                        lemma_commit_advances(core, vote);
                        let step = core.handle_commit(vote);
                        lemma_settle_on_course(
                            ReplicaState { core: step.0, ..state },
                            step.1,
                            3,
                            later,
                        );
                    }
                },
            }
        },
    }
}

proof fn lemma_new_vote_filed(votes: Map<OpNum, Seq<Vote>>, vote: Vote)
    ensures
        filed(file_vote(votes, vote), vote.op_num).contains(vote),
{
    let after = filed(file_vote(votes, vote), vote.op_num);
    assert(after[filed(votes, vote.op_num).len() as int] == vote);
}

/// A replica that has just started, and is not the primary, is on course after
/// any calls.
pub proof fn stays_on_course(config: ReplicaCoreConfig, calls: Seq<Call>)
    requires
        config.wf(),
        !config.is_primary(0),
    ensures
        on_course(
            after_calls(ReplicaState::initial(config), calls).0,
            Seq::empty(),
            calls,
        ),
    decreases calls.len(),
{
    let start = ReplicaState::initial(config);
    if calls.len() == 0 {
        assert(on_course(start, Seq::empty(), calls));
    } else {
        stays_on_course(config, calls.drop_last());
        call_stays_on_course(
            after_calls(start, calls.drop_last()).0,
            calls.drop_last(),
            calls.last(),
        );
        assert(calls.drop_last().push(calls.last()) =~= calls);
    }
}

/// The vote that a call brings, if it is a prepare that checks out.
pub open spec fn prepare_of(call: Call) -> Option<Vote> {
    match call {
        Call::Receive(Message::Prepare(vote), true) => Some(vote),
        _ => None,
    }
}

/// The vote that a call brings, if it is a commit that checks out.
pub open spec fn commit_of(call: Call) -> Option<Vote> {
    match call {
        Call::Receive(Message::Commit(vote), true) => Some(vote),
        _ => None,
    }
}

/// The replicas from which votes came that support an operation.
pub open spec fn voters(
    calls: Seq<Call>,
    vote_of: spec_fn(Call) -> Option<Vote>,
    op_num: OpNum,
    digest: Digest,
    view_num: ViewNum,
) -> Set<ReplicaId>
    decreases calls.len(),
{
    if calls.len() == 0 {
        Set::empty()
    } else {
        let before = voters(calls.drop_last(), vote_of, op_num, digest, view_num);
        match vote_of(calls.last()) {
            Some(vote) => if vote.op_num == op_num && vote.digest == digest && vote.view_num
                == view_num {
                before.insert(vote.replica_id)
            } else {
                before
            },
            None => before,
        }
    }
}

proof fn lemma_voters(
    calls: Seq<Call>,
    vote_of: spec_fn(Call) -> Option<Vote>,
    op_num: OpNum,
    digest: Digest,
    view_num: ViewNum,
)
    ensures
        voters(calls, vote_of, op_num, digest, view_num).finite(),
        forall|i: int|
            0 <= i < calls.len() && vote_of(#[trigger] calls[i]) is Some && ({
                let vote = vote_of(calls[i])->Some_0;
                vote.op_num == op_num && vote.digest == digest && vote.view_num == view_num
            }) ==> voters(calls, vote_of, op_num, digest, view_num).contains(
                vote_of(calls[i])->Some_0.replica_id,
            ),
        forall|id: ReplicaId| #[trigger]
            voters(calls, vote_of, op_num, digest, view_num).contains(id) ==> exists|i: int|
                0 <= i < calls.len() && vote_of(#[trigger] calls[i]) is Some && ({
                    let vote = vote_of(calls[i])->Some_0;
                    vote.op_num == op_num && vote.digest == digest && vote.view_num == view_num
                        && vote.replica_id == id
                }),
    decreases calls.len(),
{
    if calls.len() > 0 {
        let shorter = calls.drop_last();
        lemma_voters(shorter, vote_of, op_num, digest, view_num);
        let all = voters(calls, vote_of, op_num, digest, view_num);
        let before = voters(shorter, vote_of, op_num, digest, view_num);
        assert forall|i: int|
            0 <= i < calls.len() && vote_of(#[trigger] calls[i]) is Some && ({
                let vote = vote_of(calls[i])->Some_0;
                vote.op_num == op_num && vote.digest == digest && vote.view_num == view_num
            }) implies all.contains(vote_of(calls[i])->Some_0.replica_id) by {
            if i < shorter.len() {
                assert(shorter[i] == calls[i]);
            }
        }
        assert forall|id: ReplicaId| #[trigger] all.contains(id) implies exists|i: int|
            0 <= i < calls.len() && vote_of(#[trigger] calls[i]) is Some && ({
                let vote = vote_of(calls[i])->Some_0;
                vote.op_num == op_num && vote.digest == digest && vote.view_num == view_num
                    && vote.replica_id == id
            }) by {
            if before.contains(id) {
                let i = choose|i: int|
                    0 <= i < shorter.len() && vote_of(#[trigger] shorter[i]) is Some && ({
                        let vote = vote_of(shorter[i])->Some_0;
                        vote.op_num == op_num && vote.digest == digest && vote.view_num
                            == view_num && vote.replica_id == id
                    });
                assert(calls[i] == shorter[i]);
            } else {
                let last = calls.len() - 1;
                assert(vote_of(calls[last]) is Some);
            }
        }
    }
}

/// Whether enough replicas have sent prepares for an operation: together with the
/// replica's own and the proposal itself they make a quorum.
pub open spec fn enough_prepares(
    config: ReplicaCoreConfig,
    calls: Seq<Call>,
    op_num: OpNum,
    digest: Digest,
) -> bool {
    voters(calls, |call: Call| prepare_of(call), op_num, digest, 0).insert(config.id).len() + 1
        >= config.quorum()
}

/// Whether enough replicas have sent commits for an operation: together with the
/// replica's own they make a quorum.
pub open spec fn enough_commits(
    config: ReplicaCoreConfig,
    calls: Seq<Call>,
    op_num: OpNum,
    digest: Digest,
) -> bool {
    voters(calls, |call: Call| commit_of(call), op_num, digest, 0).insert(config.id).len()
        >= config.quorum()
}

/// Whether every message that came has a signature that checks out.
pub open spec fn all_valid(calls: Seq<Call>) -> bool {
    forall|i: int|
        0 <= i < calls.len() ==> (#[trigger] calls[i] matches Call::Receive(_, valid) ==> valid)
}

/// Votes count whenever they come, before or after the proposal: a replica that
/// knows a proposal can commit it as soon as enough replicas have sent prepares
/// for it, and has committed it as soon as enough have sent commits, too.
pub proof fn enough_votes_count(config: ReplicaCoreConfig, calls: Seq<Call>, op_num: OpNum)
    requires
        config.wf(),
        !config.is_primary(0),
        after_calls(ReplicaState::initial(config), calls).0.core.ops.contains_key(op_num),
    ensures
        ({
            let core = after_calls(ReplicaState::initial(config), calls).0.core;
            let digest = core.ops[op_num].pre_prepare.digest;
            &&& enough_prepares(config, calls, op_num, digest) ==> core.can_commit(op_num)
            &&& enough_prepares(config, calls, op_num, digest) && enough_commits(
                config,
                calls,
                op_num,
                digest,
            ) ==> core.can_finalize(op_num)
        }),
{
    stays_on_course(config, calls);
    lemma_config_kept(config, calls);
    let state = after_calls(ReplicaState::initial(config), calls).0;
    let core = state.core;
    let op = core.ops[op_num];
    let digest = op.pre_prepare.digest;
    let none = Seq::<CoreAction>::empty();
    let prepares = voters(calls, |call: Call| prepare_of(call), op_num, digest, 0);
    let commits = voters(calls, |call: Call| commit_of(call), op_num, digest, 0);
    lemma_voters(calls, |call: Call| prepare_of(call), op_num, digest, 0);
    lemma_voters(calls, |call: Call| commit_of(call), op_num, digest, 0);
    if !core.can_commit(op_num) {
        assert forall|id: ReplicaId| #[trigger] prepares.insert(config.id).contains(id) implies
            op.prepares.dom().contains(id) by {
            if prepares.contains(id) {
                let i = choose|i: int|
                    0 <= i < calls.len() && prepare_of(#[trigger] calls[i]) is Some && ({
                        let vote = prepare_of(calls[i])->Some_0;
                        vote.op_num == op_num && vote.digest == digest && vote.view_num == 0
                            && vote.replica_id == id
                    });
                let vote = prepare_of(calls[i])->Some_0;
                assert(heard(calls, Message::Prepare(vote)));
                assert(prepare_kept(state, none, vote));
            }
        }
        vstd::set_lib::lemma_len_subset(prepares.insert(config.id), op.prepares.dom());
    } else if !core.can_finalize(op_num) {
        assert forall|id: ReplicaId| #[trigger] commits.insert(config.id).contains(id) implies
            op.commits.dom().contains(id) by {
            if commits.contains(id) {
                let i = choose|i: int|
                    0 <= i < calls.len() && commit_of(#[trigger] calls[i]) is Some && ({
                        let vote = commit_of(calls[i])->Some_0;
                        vote.op_num == op_num && vote.digest == digest && vote.view_num == 0
                            && vote.replica_id == id
                    });
                let vote = commit_of(calls[i])->Some_0;
                assert(heard(calls, Message::Commit(vote)));
                assert(commit_kept(state, none, vote));
            } else {
                assert(!pending(none, op_num));
            }
        }
        vstd::set_lib::lemma_len_subset(commits.insert(config.id), op.commits.dom());
    }
}

proof fn lemma_config_kept(config: ReplicaCoreConfig, calls: Seq<Call>)
    requires
        config.wf(),
        !config.is_primary(0),
    ensures
        ({
            let (after, actions) = after_calls(ReplicaState::initial(config), calls);
            &&& after.core.config == config
            &&& after.core.view_num == 0
            &&& after.wf()
            &&& delivered(actions) == batches(after.core, run(0, after.core.finalized))
        }),
{
    let start = ReplicaState::initial(config);
    lemma_admits_all(config, calls);
    assert(start.wf());
    calls_lead(start, calls);
}

proof fn lemma_admits_all(config: ReplicaCoreConfig, calls: Seq<Call>)
    requires
        config.wf(),
        !config.is_primary(0),
    ensures
        admits_all(ReplicaState::initial(config), calls),
    decreases calls.len(),
{
    if calls.len() > 0 {
        lemma_admits_all(config, calls.drop_last());
        stays_on_course(config, calls.drop_last());
    }
}

/// Nothing else counts: where all messages check out, a replica can commit or
/// finalize an operation only where enough replicas have sent their votes.
pub proof fn only_votes_count(config: ReplicaCoreConfig, calls: Seq<Call>, op_num: OpNum)
    requires
        config.wf(),
        !config.is_primary(0),
        all_valid(calls),
        op_num >= 1,
    ensures
        ({
            let core = after_calls(ReplicaState::initial(config), calls).0.core;
            let digest = core.ops[op_num].pre_prepare.digest;
            &&& core.can_commit(op_num) ==> core.ops.contains_key(op_num) && enough_prepares(
                config,
                calls,
                op_num,
                digest,
            )
            &&& core.can_finalize(op_num) ==> core.ops.contains_key(op_num) && enough_commits(
                config,
                calls,
                op_num,
                digest,
            )
        }),
{
    stays_on_course(config, calls);
    lemma_config_kept(config, calls);
    let state = after_calls(ReplicaState::initial(config), calls).0;
    let core = state.core;
    if core.can_commit(op_num) {
        assert(core.ops.contains_key(op_num));
        let op = core.ops[op_num];
        let digest = op.pre_prepare.digest;
        let prepares = voters(calls, |call: Call| prepare_of(call), op_num, digest, 0);
        let commits = voters(calls, |call: Call| commit_of(call), op_num, digest, 0);
        lemma_voters(calls, |call: Call| prepare_of(call), op_num, digest, 0);
        lemma_voters(calls, |call: Call| commit_of(call), op_num, digest, 0);
        assert forall|id: ReplicaId| #[trigger] op.prepares.dom().contains(id) implies
            prepares.insert(config.id).contains(id) by {
            assert(core.ops[op_num].prepares.contains_key(id));
            assert(prepare_stems(core, calls, op_num, id));
            let vote = op.prepares[id];
            if id != config.id {
                lemma_received_is_heard(calls, Message::Prepare(vote));
                let i = calls.index_of(Call::Receive(Message::Prepare(vote), true));
                assert(prepare_of(calls[i]) == Some(vote));
            }
        }
        vstd::set_lib::lemma_len_subset(op.prepares.dom(), prepares.insert(config.id));
        assert forall|id: ReplicaId| #[trigger] op.commits.dom().contains(id) implies
            commits.insert(config.id).contains(id) by {
            assert(core.ops[op_num].commits.contains_key(id));
            assert(commit_stems(core, calls, op_num, id));
            let vote = op.commits[id];
            if id != config.id {
                lemma_received_is_heard(calls, Message::Commit(vote));
                let i = calls.index_of(Call::Receive(Message::Commit(vote), true));
                assert(commit_of(calls[i]) == Some(vote));
            }
        }
        vstd::set_lib::lemma_len_subset(op.commits.dom(), commits.insert(config.id));
    }
}

proof fn lemma_received_is_heard(calls: Seq<Call>, message: Message<Seq<Command>>)
    requires
        all_valid(calls),
        received(calls, message),
    ensures
        heard(calls, message),
{
    if calls.contains(Call::Receive(message, false)) {
        let i = calls.index_of(Call::Receive(message, false));
        assert(calls[i] == Call::Receive(message, false));
    }
}

/// Whether an operation was proposed, and enough replicas have sent their votes
/// on the proposal.
pub open spec fn agreed(config: ReplicaCoreConfig, calls: Seq<Call>, op_num: OpNum) -> bool {
    exists|pre_prepare: PrePrepare, commands: Seq<Command>| #[trigger]
        heard(calls, Message::PrePrepare(pre_prepare, commands)) && pre_prepare.view_num == 0
            && pre_prepare.op_num == op_num && enough_prepares(
            config,
            calls,
            op_num,
            pre_prepare.digest,
        ) && enough_commits(config, calls, op_num, pre_prepare.digest)
}

/// Whether no number is proposed twice.
pub open spec fn one_proposal_each(calls: Seq<Call>) -> bool {
    forall|
        a: PrePrepare,
        b: PrePrepare,
        a_commands: Seq<Command>,
        b_commands: Seq<Command>,
    |
        #[trigger] heard(calls, Message::PrePrepare(a, a_commands)) && #[trigger] heard(
            calls,
            Message::PrePrepare(b, b_commands),
        ) && a.view_num == b.view_num && a.op_num == b.op_num ==> a == b && a_commands
            == b_commands
}

/// A replica finalizes what was agreed on, in whatever order the messages came:
/// where all operations up to a number are agreed on, they are finalized.
pub proof fn agreed_is_finalized(config: ReplicaCoreConfig, calls: Seq<Call>, last: OpNum)
    requires
        config.wf(),
        !config.is_primary(0),
        one_proposal_each(calls),
        forall|op_num: OpNum| 1 <= op_num <= last ==> #[trigger] agreed(config, calls, op_num),
    ensures
        after_calls(ReplicaState::initial(config), calls).0.core.finalized >= last,
{
    stays_on_course(config, calls);
    lemma_config_kept(config, calls);
    let state = after_calls(ReplicaState::initial(config), calls).0;
    let core = state.core;
    if core.finalized < last {
        let op_num = (core.finalized + 1) as OpNum;
        assert(agreed(config, calls, op_num));
        lemma_agreed_can_finalize(config, calls, op_num);
        assert(!pending(Seq::<CoreAction>::empty(), op_num));
    }
}

proof fn lemma_agreed_can_finalize(config: ReplicaCoreConfig, calls: Seq<Call>, op_num: OpNum)
    requires
        config.wf(),
        !config.is_primary(0),
        one_proposal_each(calls),
        agreed(config, calls, op_num),
    ensures
        after_calls(ReplicaState::initial(config), calls).0.core.can_finalize(op_num),
{
    stays_on_course(config, calls);
    lemma_config_kept(config, calls);
    let state = after_calls(ReplicaState::initial(config), calls).0;
    let core = state.core;
    let (pre_prepare, commands) = choose|pre_prepare: PrePrepare, commands: Seq<Command>|
        #[trigger]
        heard(calls, Message::PrePrepare(pre_prepare, commands)) && pre_prepare.view_num == 0
            && pre_prepare.op_num == op_num && enough_prepares(
            config,
            calls,
            op_num,
            pre_prepare.digest,
        ) && enough_commits(config, calls, op_num, pre_prepare.digest);
    assert(core.ops.contains_key(op_num));
    assert(heard(
        calls,
        Message::PrePrepare(core.ops[op_num].pre_prepare, core.ops[op_num].commands),
    ));
    assert(core.ops[op_num].pre_prepare == pre_prepare);
    enough_votes_count(config, calls, op_num);
}

/// Where all messages check out, exactly what was agreed on is finalized, up to
/// the first number that is not.
pub proof fn exactly_agreed_is_finalized(config: ReplicaCoreConfig, calls: Seq<Call>)
    requires
        config.wf(),
        !config.is_primary(0),
        one_proposal_each(calls),
        all_valid(calls),
    ensures
        ({
            let finalized = after_calls(ReplicaState::initial(config), calls).0.core.finalized;
            &&& forall|op_num: OpNum|
                1 <= op_num <= finalized ==> #[trigger] agreed(config, calls, op_num)
            &&& finalized < u64::MAX ==> !agreed(config, calls, (finalized + 1) as OpNum)
        }),
{
    stays_on_course(config, calls);
    lemma_config_kept(config, calls);
    let core = after_calls(ReplicaState::initial(config), calls).0.core;
    assert forall|op_num: OpNum| 1 <= op_num <= core.finalized implies #[trigger] agreed(
        config,
        calls,
        op_num,
    ) by {
        only_votes_count(config, calls, op_num);
        assert(core.ops.contains_key(op_num));
        assert(heard(
            calls,
            Message::PrePrepare(core.ops[op_num].pre_prepare, core.ops[op_num].commands),
        ));
    }
    if core.finalized < u64::MAX {
        let op_num = (core.finalized + 1) as OpNum;
        if agreed(config, calls, op_num) {
            lemma_agreed_can_finalize(config, calls, op_num);
            assert(!pending(Seq::<CoreAction>::empty(), op_num));
        }
    }
}

proof fn lemma_same_voters(
    a: Seq<Call>,
    b: Seq<Call>,
    vote_of: spec_fn(Call) -> Option<Vote>,
    op_num: OpNum,
    digest: Digest,
)
    requires
        forall|call: Call| #[trigger] a.contains(call) <==> b.contains(call),
    ensures
        voters(a, vote_of, op_num, digest, 0) == voters(b, vote_of, op_num, digest, 0),
{
    let x = voters(a, vote_of, op_num, digest, 0);
    let y = voters(b, vote_of, op_num, digest, 0);
    lemma_voters(a, vote_of, op_num, digest, 0);
    lemma_voters(b, vote_of, op_num, digest, 0);
    assert forall|id: ReplicaId| x.contains(id) <==> y.contains(id) by {
        if x.contains(id) {
            let i = choose|i: int|
                0 <= i < a.len() && vote_of(#[trigger] a[i]) is Some && ({
                    let vote = vote_of(a[i])->Some_0;
                    vote.op_num == op_num && vote.digest == digest && vote.view_num == 0
                        && vote.replica_id == id
                });
            assert(a.contains(a[i]));
            let j = b.index_of(a[i]);
            assert(b[j] == a[i]);
        }
        if y.contains(id) {
            let i = choose|i: int|
                0 <= i < b.len() && vote_of(#[trigger] b[i]) is Some && ({
                    let vote = vote_of(b[i])->Some_0;
                    vote.op_num == op_num && vote.digest == digest && vote.view_num == 0
                        && vote.replica_id == id
                });
            assert(b.contains(b[i]));
            assert(a.contains(b[i]));
            let j = a.index_of(b[i]);
            assert(a[j] == b[i]);
        }
    }
    assert(x =~= y);
}

proof fn lemma_same_agreed(config: ReplicaCoreConfig, a: Seq<Call>, b: Seq<Call>, op_num: OpNum)
    requires
        forall|call: Call| #[trigger] a.contains(call) <==> b.contains(call),
        agreed(config, a, op_num),
    ensures
        agreed(config, b, op_num),
{
    let (pre_prepare, commands) = choose|pre_prepare: PrePrepare, commands: Seq<Command>|
        #[trigger]
        heard(a, Message::PrePrepare(pre_prepare, commands)) && pre_prepare.view_num == 0
            && pre_prepare.op_num == op_num && enough_prepares(
            config,
            a,
            op_num,
            pre_prepare.digest,
        ) && enough_commits(config, a, op_num, pre_prepare.digest);
    lemma_same_voters(a, b, |call: Call| prepare_of(call), op_num, pre_prepare.digest);
    lemma_same_voters(a, b, |call: Call| commit_of(call), op_num, pre_prepare.digest);
    assert(heard(b, Message::PrePrepare(pre_prepare, commands)));
}

/// The order in which messages come does not matter, nor whether one comes
/// again: two replicas of one configuration that have received the same messages
/// have finalized the same operations and delivered the same batches. So votes
/// that come before their proposal count as if they had come after it.
pub proof fn order_does_not_matter(config: ReplicaCoreConfig, a: Seq<Call>, b: Seq<Call>)
    requires
        config.wf(),
        !config.is_primary(0),
        forall|call: Call| #[trigger] a.contains(call) <==> b.contains(call),
        one_proposal_each(a),
        all_valid(a),
    ensures
        ({
            let (x, x_actions) = after_calls(ReplicaState::initial(config), a);
            let (y, y_actions) = after_calls(ReplicaState::initial(config), b);
            &&& x.core.finalized == y.core.finalized
            &&& delivered(x_actions) == delivered(y_actions)
        }),
{
    let (x, x_actions) = after_calls(ReplicaState::initial(config), a);
    let (y, y_actions) = after_calls(ReplicaState::initial(config), b);
    assert(all_valid(b)) by {
        assert forall|i: int| 0 <= i < b.len() implies (
        #[trigger] b[i] matches Call::Receive(_, valid) ==> valid) by {
            assert(b.contains(b[i]));
            assert(a.contains(b[i]));
            let j = a.index_of(b[i]);
            assert(a[j] == b[i]);
        }
    }
    assert forall|message: Message<Seq<Command>>| #[trigger] heard(b, message) == heard(
        a,
        message,
    ) by {
        assert(a.contains(Call::Receive(message, true)) <==> b.contains(
            Call::Receive(message, true),
        ));
    }
    assert(one_proposal_each(b));
    exactly_agreed_is_finalized(config, a);
    exactly_agreed_is_finalized(config, b);
    if x.core.finalized < y.core.finalized {
        let op_num = (x.core.finalized + 1) as OpNum;
        assert(agreed(config, b, op_num));
        lemma_same_agreed(config, b, a, op_num);
    }
    if y.core.finalized < x.core.finalized {
        let op_num = (y.core.finalized + 1) as OpNum;
        assert(agreed(config, a, op_num));
        lemma_same_agreed(config, a, b, op_num);
    }
    lemma_config_kept(config, a);
    lemma_config_kept(config, b);
    stays_on_course(config, a);
    stays_on_course(config, b);
    let numbers = run(0, x.core.finalized);
    assert forall|i: int| 0 <= i < numbers.len() implies #[trigger] batches(x.core, numbers)[i]
        == batches(y.core, numbers)[i] by {
        let op_num = numbers[i];
        assert(x.core.ops.contains_key(op_num));
        assert(y.core.ops.contains_key(op_num));
        assert(heard(
            a,
            Message::PrePrepare(x.core.ops[op_num].pre_prepare, x.core.ops[op_num].commands),
        ));
        assert(heard(
            b,
            Message::PrePrepare(y.core.ops[op_num].pre_prepare, y.core.ops[op_num].commands),
        ));
    }
    assert(batches(x.core, numbers) =~= batches(y.core, numbers));
}

/// What does not fit changes nothing: a proposal that does not check out, is for
/// another view or comes again; a vote for another view; and, once the proposal is
/// known, a vote that does not check out or is for another digest. Commands are
/// for the primary alone.
pub proof fn unfit_messages_are_ignored(
    state: ReplicaState,
    message: Message<Seq<Command>>,
    valid: bool,
    command: Command,
)
    ensures
        ({
            let core = state.core;
            let unfit = match message {
                Message::PrePrepare(pre_prepare, _) => !valid || pre_prepare.view_num
                    != core.view_num || core.ops.contains_key(pre_prepare.op_num),
                Message::Prepare(vote) => vote.view_num != core.view_num || core.ops.contains_key(
                    vote.op_num,
                ) && (!valid || vote.digest != core.ops[vote.op_num].pre_prepare.digest),
                Message::Commit(vote) => vote.view_num != core.view_num || core.ops.contains_key(
                    vote.op_num,
                ) && (!valid || vote.digest != core.ops[vote.op_num].pre_prepare.digest),
            };
            &&& unfit ==> state.receive(message, valid) == (
                state,
                Seq::<super::replica::Action>::empty(),
            )
            &&& !core.is_primary() ==> state.submit(command) == (
                state,
                Seq::<super::replica::Action>::empty(),
            )
        }),
{
}

/// A vote that fits is counted at once, by any replica: afterwards it is among the
/// votes on its operation, unless there were enough already.
pub proof fn fitting_vote_is_counted(state: ReplicaState, vote: Vote)
    requires
        state.wf(),
        state.core.supports(vote),
    ensures
        ({
            let prepared = state.receive(Message::Prepare(vote), true).0.core;
            let committed = state.receive(Message::Commit(vote), true).0.core;
            let op_num = vote.op_num;
            &&& state.core.can_commit(op_num) || prepared.ops[op_num].prepares.contains_key(
                vote.replica_id,
            )
            &&& state.core.can_finalize(op_num) || committed.ops[op_num].commits.contains_key(
                vote.replica_id,
            )
        }),
{
    let core = state.core;
    let op_num = vote.op_num;
    if !core.can_commit(op_num) {
        let step = core.handle_prepare(vote);
        lemma_prepare_advances(core, vote);
        lemma_step_can_settle(state, step);
        let next = ReplicaState { core: step.0, ..state };
        lemma_settle_keeps(next, step.1, 3);
        assert(step.0.ops[op_num].prepares.dom().contains(vote.replica_id));
        assert(step.0.ops.contains_key(op_num));
    }
    if !core.can_finalize(op_num) {
        let step = core.handle_commit(vote);
        lemma_commit_advances(core, vote);
        lemma_step_can_settle(state, step);
        let next = ReplicaState { core: step.0, ..state };
        lemma_settle_keeps(next, step.1, 3);
        lemma_counted_commit(core, vote);
        assert(step.0.ops[op_num].commits.dom().contains(vote.replica_id));
        assert(step.0.ops.contains_key(op_num));
    }
}

pub(crate) proof fn lemma_counted_commit(core: CoreState, vote: Vote)
    requires
        core.supports(vote),
    ensures
        core.handle_commit(vote).0.ops.contains_key(vote.op_num),
        core.handle_commit(vote).0.ops[vote.op_num].commits.contains_key(vote.replica_id),
{
    let voted = core.with_commit(vote);
    lemma_finalize_advances(voted);
    lemma_propose_advances(voted.finalize_ready().0);
}

proof fn lemma_settle_keeps(state: ReplicaState, queue: Seq<CoreAction>, rounds: nat)
    requires
        state.wf(),
        all_fit(state.core, queue),
        below(queue, rounds),
    ensures
        ops_kept(state.core, state.settle(queue, rounds).0.core),
    decreases rounds,
{
    if queue.len() > 0 {
        assert(level(queue[0]) < rounds);
        let step = state.perform_all(queue);
        assert(queue.subrange(0, queue.len() as int) =~= queue);
        lemma_perform_all_keeps(state, queue, queue.len() as int);
        lemma_perform_all_keeps_fit(state, queue, queue.len() as int);
        assert(queue.subrange(queue.len() as int, queue.len() as int) + step.queued
            =~= step.queued);
        assert(below(queue, (rounds - 1) as nat + 1));
        lemma_settle_keeps(step.state, step.queued, (rounds - 1) as nat);
        lemma_ops_kept_compose(
            state.core,
            step.state.core,
            step.state.settle(step.queued, (rounds - 1) as nat).0.core,
        );
    }
}

proof fn lemma_perform_all_keeps(state: ReplicaState, actions: Seq<CoreAction>, done: int)
    requires
        state.wf(),
        all_fit(state.core, actions),
        0 <= done <= actions.len(),
    ensures
        ops_kept(state.core, state.perform_all(actions.subrange(0, done)).state.core),
    decreases done,
{
    if done > 0 {
        lemma_perform_all_keeps(state, actions, done - 1);
        lemma_perform_all_keeps_fit(state, actions, done - 1);
        assert(actions.subrange(0, done).drop_last() =~= actions.subrange(0, done - 1));
        let before = state.perform_all(actions.subrange(0, done - 1));
        let action = actions[done - 1];
        let ahead = actions.subrange(done - 1, actions.len() as int) + before.queued;
        assert(ahead[0] == action);
        assert(fits(before.state.core, ahead[0]));
        lemma_perform_keeps(before.state, action);
        lemma_ops_kept_compose(
            state.core,
            before.state.core,
            before.state.perform(action).state.core,
        );
    }
}

proof fn lemma_perform_keeps(state: ReplicaState, action: CoreAction)
    requires
        state.wf(),
        fits(state.core, action),
    ensures
        ops_kept(state.core, state.perform(action).state.core),
{
    let core = state.core;
    match action {
        ReplicaCoreAction::Propose(op_num, commands) => {
            lemma_pre_prepare_sound(core, state.proposal(op_num, commands), commands);
        },
        ReplicaCoreAction::Prepare(op_num) => {
            let own = state.own_vote(op_num);
            let first = core.handle_prepare(own);
            lemma_prepare_advances(core, own);
            assert(first.0.ops.dom().contains(op_num));
            let votes = filed(state.early_prepares, op_num);
            lemma_absorb_prepares_advances(first.0, op_num, own.digest, votes);
            lemma_ops_kept_compose(
                core,
                first.0,
                absorb_prepares(first.0, op_num, own.digest, votes).0,
            );
        },
        ReplicaCoreAction::Commit(op_num) => {
            let own = state.own_vote(op_num);
            let first = core.handle_commit(own);
            lemma_commit_advances(core, own);
            assert(first.0.ops.dom().contains(op_num));
            let votes = filed(state.early_commits, op_num);
            lemma_absorb_commits_advances(first.0, op_num, own.digest, votes);
            lemma_ops_kept_compose(
                core,
                first.0,
                absorb_commits(first.0, op_num, own.digest, votes).0,
            );
        },
        ReplicaCoreAction::Finalize(_) => {},
    }
}

} // verus!
