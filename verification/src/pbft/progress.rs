//! How the actions of the core settle: each one leads only to actions that are
//! closer to leading nowhere, and every step keeps what is known.
use super::message::{PrePrepare, Vote};
use super::replica::{absorb_commits, absorb_prepares, filed, ReplicaState};
use super::replica_core::{CoreAction, CoreState, ReplicaCoreAction};
use super::{OpNum, ReplicaId, ViewNum};
use crate::command::Command;
use crate::crypto::Digest;
use vstd::prelude::*;

verus! {

/// How far an action is from one that leads to nothing more.
pub open spec fn level(action: CoreAction) -> nat {
    match action {
        ReplicaCoreAction::Prepare(_) => 2,
        ReplicaCoreAction::Commit(_) => 1,
        _ => 0,
    }
}

/// Whether all actions are below a level.
pub open spec fn below(actions: Seq<CoreAction>, bound: nat) -> bool {
    forall|i: int| 0 <= i < actions.len() ==> level(#[trigger] actions[i]) < bound
}

/// Whether an action fits a state: what it refers to is known, and what it
/// proposes was numbered but is not known yet.
pub open spec fn fits(core: CoreState, action: CoreAction) -> bool {
    match action {
        ReplicaCoreAction::Propose(op_num, _) => {
            &&& core.is_primary()
            &&& op_num <= core.proposed
            &&& !core.ops.contains_key(op_num)
        },
        ReplicaCoreAction::Prepare(op_num) => core.ops.contains_key(op_num),
        ReplicaCoreAction::Commit(op_num) => core.ops.contains_key(op_num),
        ReplicaCoreAction::Finalize(op_num) => core.ops.contains_key(op_num),
    }
}

/// Whether two actions propose the same operation.
pub open spec fn clash(a: CoreAction, b: CoreAction) -> bool {
    a matches ReplicaCoreAction::Propose(m, _) && b matches ReplicaCoreAction::Propose(n, _) && m
        == n
}

/// Whether all actions fit a state, and no operation is proposed twice.
pub open spec fn all_fit(core: CoreState, actions: Seq<CoreAction>) -> bool {
    &&& forall|i: int| 0 <= i < actions.len() ==> fits(core, #[trigger] actions[i])
    &&& forall|i: int, j: int|
        0 <= i < j < actions.len() ==> !clash(#[trigger] actions[i], #[trigger] actions[j])
}

/// The operations that actions finalize, in order.
pub open spec fn finalizes(actions: Seq<CoreAction>) -> Seq<OpNum>
    decreases actions.len(),
{
    if actions.len() == 0 {
        Seq::empty()
    } else {
        let before = finalizes(actions.drop_last());
        match actions.last() {
            ReplicaCoreAction::Finalize(op_num) => before.push(op_num),
            _ => before,
        }
    }
}

/// The numbers after `from`, up to `to`.
pub open spec fn run(from: OpNum, to: OpNum) -> Seq<OpNum> {
    Seq::new((to - from) as nat, |i: int| (from + 1 + i) as OpNum)
}

/// Whether every known operation stays as it was proposed, and no vote on it is
/// lost.
pub open spec fn ops_kept(before: CoreState, after: CoreState) -> bool {
    forall|op_num: OpNum| #[trigger]
        before.ops.contains_key(op_num) ==> {
            &&& after.ops.contains_key(op_num)
            &&& after.ops[op_num].commands == before.ops[op_num].commands
            &&& after.ops[op_num].pre_prepare == before.ops[op_num].pre_prepare
            &&& before.ops[op_num].prepares.dom().subset_of(after.ops[op_num].prepares.dom())
            &&& before.ops[op_num].commits.dom().subset_of(after.ops[op_num].commits.dom())
        }
}

/// Whether a step of the core only adds votes, finalizes, and numbers new
/// proposals above the old ones.
pub open spec fn advances(before: CoreState, step: (CoreState, Seq<CoreAction>)) -> bool {
    let after = step.0;
    let actions = step.1;
    &&& after.config == before.config
    &&& after.view_num == before.view_num
    &&& before.proposed <= after.proposed
    &&& before.finalized <= after.finalized
    &&& after.ops.dom() == before.ops.dom()
    &&& ops_kept(before, after)
    &&& before.sound() ==> after.sound()
    &&& finalizes(actions) == run(before.finalized, after.finalized)
    &&& forall|i: int|
        0 <= i < actions.len() ==> match #[trigger] actions[i] {
            ReplicaCoreAction::Propose(op_num, _) => before.is_primary() && before.proposed < op_num
                <= after.proposed,
            ReplicaCoreAction::Prepare(op_num) => false,
            ReplicaCoreAction::Commit(op_num) => before.ops.contains_key(op_num),
            ReplicaCoreAction::Finalize(op_num) => before.ops.contains_key(op_num),
        }
    &&& forall|i: int, j: int|
        0 <= i < j < actions.len() ==> !clash(#[trigger] actions[i], #[trigger] actions[j])
}

pub(crate) proof fn lemma_ops_kept_compose(a: CoreState, b: CoreState, c: CoreState)
    requires
        ops_kept(a, b),
        ops_kept(b, c),
    ensures
        ops_kept(a, c),
{
    assert forall|op_num: OpNum| #[trigger] a.ops.contains_key(op_num) implies {
        &&& c.ops.contains_key(op_num)
        &&& c.ops[op_num].commands == a.ops[op_num].commands
        &&& c.ops[op_num].pre_prepare == a.ops[op_num].pre_prepare
        &&& a.ops[op_num].prepares.dom().subset_of(c.ops[op_num].prepares.dom())
        &&& a.ops[op_num].commits.dom().subset_of(c.ops[op_num].commits.dom())
    } by {
        assert(b.ops.contains_key(op_num));
    }
}

pub(crate) proof fn lemma_finalizes_one(action: CoreAction)
    ensures
        finalizes(seq![action]) == match action {
            ReplicaCoreAction::Finalize(op_num) => seq![op_num],
            _ => Seq::empty(),
        },
{
    assert(seq![action].drop_last() =~= Seq::empty());
    assert(finalizes(Seq::empty()) == Seq::<OpNum>::empty());
    assert(seq![action].last() == action);
    match action {
        ReplicaCoreAction::Finalize(op_num) => {
            assert(Seq::<OpNum>::empty().push(op_num) =~= seq![op_num]);
        },
        _ => {},
    }
}

pub(crate) proof fn lemma_finalizes_compose(a: Seq<CoreAction>, b: Seq<CoreAction>)
    ensures
        finalizes(a + b) == finalizes(a) + finalizes(b),
    decreases b.len(),
{
    if b.len() == 0 {
        assert(a + b =~= a);
        assert(finalizes(a) + finalizes(b) =~= finalizes(a));
    } else {
        lemma_finalizes_compose(a, b.drop_last());
        assert((a + b).drop_last() =~= a + b.drop_last());
        assert((a + b).last() == b.last());
        assert(finalizes(a + b) =~= finalizes(a) + finalizes(b));
    }
}

pub(crate) proof fn lemma_advances_compose(
    before: CoreState,
    first: (CoreState, Seq<CoreAction>),
    second: (CoreState, Seq<CoreAction>),
)
    requires
        advances(before, first),
        advances(first.0, second),
    ensures
        advances(before, (second.0, first.1 + second.1)),
{
    let actions = first.1 + second.1;
    lemma_ops_kept_compose(before, first.0, second.0);
    lemma_finalizes_compose(first.1, second.1);
    assert(run(before.finalized, first.0.finalized) + run(first.0.finalized, second.0.finalized)
        =~= run(before.finalized, second.0.finalized));
    assert forall|i: int| 0 <= i < actions.len() implies match #[trigger] actions[i] {
        ReplicaCoreAction::Propose(op_num, _) => before.is_primary() && before.proposed < op_num
            <= second.0.proposed,
        ReplicaCoreAction::Prepare(op_num) => false,
        ReplicaCoreAction::Commit(op_num) => before.ops.contains_key(op_num),
        ReplicaCoreAction::Finalize(op_num) => before.ops.contains_key(op_num),
    } by {
        if i < first.1.len() {
            assert(actions[i] == first.1[i]);
        } else {
            assert(actions[i] == second.1[i - first.1.len()]);
            assert(first.0.ops.dom() == before.ops.dom());
        }
    }
    assert forall|i: int, j: int| 0 <= i < j < actions.len() implies !clash(
        #[trigger] actions[i],
        #[trigger] actions[j],
    ) by {
        if j < first.1.len() {
            assert(actions[i] == first.1[i] && actions[j] == first.1[j]);
        } else if i >= first.1.len() {
            assert(actions[i] == second.1[i - first.1.len()]);
            assert(actions[j] == second.1[j - first.1.len()]);
        } else {
            assert(actions[i] == first.1[i]);
            assert(actions[j] == second.1[j - first.1.len()]);
        }
    }
}

pub(crate) proof fn lemma_below_compose(a: Seq<CoreAction>, b: Seq<CoreAction>, bound: nat)
    requires
        below(a, bound),
        below(b, bound),
    ensures
        below(a + b, bound),
{
}

pub(crate) proof fn lemma_propose_advances(core: CoreState)
    ensures
        advances(core, core.propose()),
        below(core.propose().1, 1),
        core.propose().0.ops == core.ops,
        core.propose().0.finalized == core.finalized,
    decreases u64::MAX - core.proposed,
{
    if core.proposed == u64::MAX || !core.can_propose() || core.pool.len() == 0 {
        assert(run(core.finalized, core.finalized) =~= Seq::empty());
    } else {
        let n = crate::command::batch_len(core.pool.len(), core.config.max_batch_size);
        let op_num = (core.proposed + 1) as OpNum;
        let next = CoreState {
            proposed: op_num,
            pool: core.pool.subrange(n, core.pool.len() as int),
            ..core
        };
        lemma_propose_advances(next);
        let action: CoreAction = ReplicaCoreAction::Propose(op_num, core.pool.subrange(0, n));
        let first = (next, seq![action]);
        lemma_finalizes_one(action);
        assert(finalizes(seq![action]) =~= run(core.finalized, next.finalized));
        assert(advances(core, first));
        lemma_advances_compose(core, first, next.propose());
        lemma_below_compose(seq![action], next.propose().1, 1);
    }
}

pub(crate) proof fn lemma_finalize_advances(core: CoreState)
    ensures
        advances(core, core.finalize_ready()),
        below(core.finalize_ready().1, 1),
        core.finalize_ready().0.ops == core.ops,
        core.finalize_ready().0.proposed == core.proposed,
    decreases u64::MAX - core.finalized,
{
    if core.finalized == u64::MAX || !core.can_finalize((core.finalized + 1) as OpNum) {
        assert(run(core.finalized, core.finalized) =~= Seq::empty());
    } else {
        let op_num = (core.finalized + 1) as OpNum;
        let next = CoreState { finalized: op_num, ..core };
        lemma_finalize_advances(next);
        let action: CoreAction = ReplicaCoreAction::Finalize(op_num);
        let first = (next, seq![action]);
        lemma_finalizes_one(action);
        assert(finalizes(seq![action]) =~= run(core.finalized, next.finalized));
        assert(advances(core, first));
        lemma_advances_compose(core, first, next.finalize_ready());
        lemma_below_compose(seq![action], next.finalize_ready().1, 1);
    }
}

pub(crate) proof fn lemma_prepare_advances(core: CoreState, vote: Vote)
    requires
        core.supports(vote),
    ensures
        advances(core, core.handle_prepare(vote)),
        below(core.handle_prepare(vote).1, 2),
{
    let voted = core.with_prepare(vote);
    assert(voted.ops.dom() =~= core.ops.dom());
    let actions = core.handle_prepare(vote).1;
    lemma_finalizes_one(ReplicaCoreAction::Commit(vote.op_num));
    assert(finalizes(actions) =~= run(core.finalized, core.finalized));
    if core.sound() {
        lemma_vote_keeps_quorums(core, voted);
    }
}

/// More votes keep the quorums.
pub(crate) proof fn lemma_vote_keeps_quorums(before: CoreState, after: CoreState)
    requires
        ops_kept(before, after),
        before.quorums_hold(),
        after.config == before.config,
        after.finalized == before.finalized,
        after.votes_finite(),
    ensures
        after.quorums_hold(),
{
    assert forall|op_num: OpNum| 1 <= op_num <= after.finalized implies #[trigger]
        after.ops.contains_key(op_num) && after.ops[op_num].committed(after.config) by {
        assert(before.ops.contains_key(op_num));
        assert(after.ops.contains_key(op_num));
        vstd::set_lib::lemma_len_subset(
            before.ops[op_num].prepares.dom(),
            after.ops[op_num].prepares.dom(),
        );
        vstd::set_lib::lemma_len_subset(
            before.ops[op_num].commits.dom(),
            after.ops[op_num].commits.dom(),
        );
    }
}

pub(crate) proof fn lemma_commit_advances(core: CoreState, vote: Vote)
    requires
        core.supports(vote),
    ensures
        advances(core, core.handle_commit(vote)),
        below(core.handle_commit(vote).1, 1),
{
    let voted = core.with_commit(vote);
    assert(voted.ops.dom() =~= core.ops.dom());
    let first = (voted, Seq::<CoreAction>::empty());
    assert(finalizes(first.1) =~= run(core.finalized, core.finalized));
    if core.sound() {
        lemma_vote_keeps_quorums(core, voted);
    }
    assert(advances(core, first));
    lemma_finalize_advances(voted);
    lemma_advances_compose(core, first, voted.finalize_ready());
    assert(first.1 + voted.finalize_ready().1 =~= voted.finalize_ready().1);
    let finalized = voted.finalize_ready();
    assert((finalized.0, finalized.1) == finalized);
    lemma_propose_advances(finalized.0);
    lemma_advances_compose(core, finalized, finalized.0.propose());
    lemma_below_compose(finalized.1, finalized.0.propose().1, 1);
}

pub(crate) proof fn lemma_absorb_prepares_advances(
    core: CoreState,
    op_num: OpNum,
    digest: Digest,
    votes: Seq<Vote>,
)
    requires
        core.ops.contains_key(op_num),
        digest == core.ops[op_num].pre_prepare.digest,
        forall|i: int|
            0 <= i < votes.len() ==> (#[trigger] votes[i]).op_num == op_num && votes[i].view_num
                == core.view_num,
    ensures
        advances(core, absorb_prepares(core, op_num, digest, votes)),
        below(absorb_prepares(core, op_num, digest, votes).1, 2),
    decreases votes.len(),
{
    if votes.len() == 0 || core.can_commit(op_num) {
        assert(run(core.finalized, core.finalized) =~= Seq::empty());
    } else if votes[0].digest != digest {
        lemma_absorb_prepares_advances(core, op_num, digest, votes.drop_first());
    } else {
        let step = core.handle_prepare(votes[0]);
        lemma_prepare_advances(core, votes[0]);
        assert(step.0.ops.dom().contains(op_num));
        lemma_absorb_prepares_advances(step.0, op_num, digest, votes.drop_first());
        let rest = absorb_prepares(step.0, op_num, digest, votes.drop_first());
        lemma_advances_compose(core, step, rest);
        lemma_below_compose(step.1, rest.1, 2);
    }
}

pub(crate) proof fn lemma_absorb_commits_advances(
    core: CoreState,
    op_num: OpNum,
    digest: Digest,
    votes: Seq<Vote>,
)
    requires
        core.ops.contains_key(op_num),
        digest == core.ops[op_num].pre_prepare.digest,
        forall|i: int|
            0 <= i < votes.len() ==> (#[trigger] votes[i]).op_num == op_num && votes[i].view_num
                == core.view_num,
    ensures
        advances(core, absorb_commits(core, op_num, digest, votes)),
        below(absorb_commits(core, op_num, digest, votes).1, 1),
    decreases votes.len(),
{
    if votes.len() == 0 || core.can_finalize(op_num) {
        assert(run(core.finalized, core.finalized) =~= Seq::empty());
    } else if votes[0].digest != digest {
        lemma_absorb_commits_advances(core, op_num, digest, votes.drop_first());
    } else {
        let step = core.handle_commit(votes[0]);
        lemma_commit_advances(core, votes[0]);
        assert(step.0.ops.dom().contains(op_num));
        lemma_absorb_commits_advances(step.0, op_num, digest, votes.drop_first());
        let rest = absorb_commits(step.0, op_num, digest, votes.drop_first());
        lemma_advances_compose(core, step, rest);
        lemma_below_compose(step.1, rest.1, 1);
    }
}

/// Early votes are votes of the current view, filed under their own operation.
pub open spec fn well_filed(votes: Map<OpNum, Seq<Vote>>, view_num: ViewNum) -> bool {
    forall|op_num: OpNum, i: int|
        votes.contains_key(op_num) && 0 <= i < votes[op_num].len() ==> (
        #[trigger] votes[op_num][i]).op_num == op_num && votes[op_num][i].view_num == view_num
}

impl ReplicaState {
    /// What every replica keeps to.
    pub open spec fn wf(self) -> bool {
        &&& self.inv()
        &&& well_filed(self.early_prepares, self.core.view_num)
        &&& well_filed(self.early_commits, self.core.view_num)
    }
}

/// Recording a new proposal keeps everything known.
pub(crate) proof fn lemma_pre_prepare_sound(core: CoreState, pre_prepare: PrePrepare, commands: Seq<Command>)
    requires
        core.sound(),
        !core.ops.contains_key(pre_prepare.op_num),
    ensures
        core.handle_pre_prepare(pre_prepare, commands).0.sound(),
        ops_kept(core, core.handle_pre_prepare(pre_prepare, commands).0),
{
    let after = core.handle_pre_prepare(pre_prepare, commands).0;
    assert forall|op_num: OpNum| 1 <= op_num <= after.finalized implies #[trigger]
        after.ops.contains_key(op_num) && after.ops[op_num].committed(after.config) by {
        assert(core.ops.contains_key(op_num));
    }
    assert forall|op_num: OpNum, id: ReplicaId|
        after.ops.contains_key(op_num) && #[trigger] after.ops[op_num].prepares.contains_key(
            id,
        ) implies {
        let vote = after.ops[op_num].prepares[id];
        vote.replica_id == id && vote.op_num == op_num && after.supports(vote)
    } by {
        assert(op_num != pre_prepare.op_num);
        assert(core.ops[op_num].prepares.contains_key(id));
    }
    assert forall|op_num: OpNum, id: ReplicaId|
        after.ops.contains_key(op_num) && #[trigger] after.ops[op_num].commits.contains_key(
            id,
        ) implies {
        let vote = after.ops[op_num].commits[id];
        vote.replica_id == id && vote.op_num == op_num && after.supports(vote)
    } by {
        assert(op_num != pre_prepare.op_num);
        assert(core.ops[op_num].commits.contains_key(id));
    }
}

/// A step of the core that advances keeps the invariant, and the actions that
/// were waiting still fit, together with the new ones.
pub(crate) proof fn lemma_advance_keeps_fit(
    state: ReplicaState,
    step: (CoreState, Seq<CoreAction>),
    waiting: Seq<CoreAction>,
)
    requires
        state.inv(),
        advances(state.core, step),
        all_fit(state.core, waiting),
    ensures
        (ReplicaState { core: step.0, ..state }).inv(),
        all_fit(step.0, waiting + step.1),
{
    let core = step.0;
    let all = waiting + step.1;
    assert forall|op_num: OpNum|
        core.is_primary() && #[trigger] core.ops.contains_key(op_num) implies op_num
        <= core.proposed by {
        assert(core.ops.dom().contains(op_num));
        assert(state.core.ops.contains_key(op_num));
    }
    assert forall|i: int| 0 <= i < all.len() implies fits(core, #[trigger] all[i]) by {
        if i < waiting.len() {
            assert(all[i] == waiting[i]);
            assert(fits(state.core, waiting[i]));
        } else {
            assert(all[i] == step.1[i - waiting.len()]);
        }
        let action = all[i];
        match action {
            ReplicaCoreAction::Propose(op_num, _) => {
                assert(core.ops.dom().contains(op_num) == state.core.ops.dom().contains(op_num));
                if state.core.ops.contains_key(op_num) {
                    assert(op_num <= state.core.proposed);
                }
            },
            ReplicaCoreAction::Prepare(op_num) => {
                assert(core.ops.dom().contains(op_num));
            },
            ReplicaCoreAction::Commit(op_num) => {
                assert(core.ops.dom().contains(op_num));
            },
            ReplicaCoreAction::Finalize(op_num) => {
                assert(core.ops.dom().contains(op_num));
            },
        }
    }
    assert forall|i: int, j: int| 0 <= i < j < all.len() implies !clash(
        #[trigger] all[i],
        #[trigger] all[j],
    ) by {
        if j < waiting.len() {
            assert(all[i] == waiting[i] && all[j] == waiting[j]);
        } else if i >= waiting.len() {
            assert(all[i] == step.1[i - waiting.len()]);
            assert(all[j] == step.1[j - waiting.len()]);
        } else {
            assert(all[i] == waiting[i]);
            assert(fits(state.core, waiting[i]));
            assert(all[j] == step.1[j - waiting.len()]);
        }
    }
}

/// Performing an action that fits keeps the invariant and the fit of what is
/// waiting, and leads only to actions of a lower level.
pub(crate) proof fn lemma_perform_keeps_fit(
    state: ReplicaState,
    action: CoreAction,
    waiting: Seq<CoreAction>,
)
    requires
        state.wf(),
        all_fit(state.core, seq![action] + waiting),
    ensures
        state.perform(action).state.wf(),
        all_fit(state.perform(action).state.core, waiting + state.perform(action).queued),
        below(state.perform(action).queued, level(action)),
{
    let all = seq![action] + waiting;
    assert(all[0] == action);
    assert(fits(state.core, action));
    assert forall|i: int| 0 <= i < waiting.len() implies all[i + 1] == #[trigger] waiting[i] by {}
    assert(all_fit(state.core, waiting)) by {
        assert forall|i: int| 0 <= i < waiting.len() implies fits(
            state.core,
            #[trigger] waiting[i],
        ) by {
            assert(all[i + 1] == waiting[i]);
        }
        assert forall|i: int, j: int| 0 <= i < j < waiting.len() implies !clash(
            #[trigger] waiting[i],
            #[trigger] waiting[j],
        ) by {
            assert(all[i + 1] == waiting[i]);
            assert(all[j + 1] == waiting[j]);
        }
    }
    let step = state.perform(action);
    match action {
        ReplicaCoreAction::Propose(op_num, commands) => {
            assert(step.queued.len() == 0);
            let core = step.state.core;
            lemma_pre_prepare_sound(state.core, state.proposal(op_num, commands), commands);
            assert(waiting + step.queued =~= waiting);
            assert forall|i: int| 0 <= i < waiting.len() implies fits(
                core,
                #[trigger] waiting[i],
            ) by {
                assert(fits(state.core, waiting[i]));
                assert(!clash(all[0], all[i + 1]));
            }
        },
        ReplicaCoreAction::Prepare(op_num) => {
            let vote = state.own_vote(op_num);
            let first = state.core.handle_prepare(vote);
            let votes = filed(state.early_prepares, op_num);
            lemma_prepare_advances(state.core, vote);
            assert(first.0.ops.dom().contains(op_num));
            lemma_absorb_prepares_advances(first.0, op_num, vote.digest, votes);
            let rest = absorb_prepares(first.0, op_num, vote.digest, votes);
            lemma_advances_compose(state.core, first, rest);
            lemma_advance_keeps_fit(state, (rest.0, first.1 + rest.1), waiting);
            lemma_below_compose(first.1, rest.1, 2);
        },
        ReplicaCoreAction::Commit(op_num) => {
            let vote = state.own_vote(op_num);
            let first = state.core.handle_commit(vote);
            let votes = filed(state.early_commits, op_num);
            lemma_commit_advances(state.core, vote);
            assert(first.0.ops.dom().contains(op_num));
            lemma_absorb_commits_advances(first.0, op_num, vote.digest, votes);
            let rest = absorb_commits(first.0, op_num, vote.digest, votes);
            lemma_advances_compose(state.core, first, rest);
            lemma_advance_keeps_fit(state, (rest.0, first.1 + rest.1), waiting);
            lemma_below_compose(first.1, rest.1, 1);
        },
        ReplicaCoreAction::Finalize(op_num) => {
            assert(waiting + step.queued =~= waiting);
        },
    }
}

pub(crate) proof fn lemma_perform_all_keeps_fit(state: ReplicaState, actions: Seq<CoreAction>, done: int)
    requires
        state.wf(),
        all_fit(state.core, actions),
        0 <= done <= actions.len(),
    ensures
        ({
            let step = state.perform_all(actions.subrange(0, done));
            &&& step.state.wf()
            &&& all_fit(
                step.state.core,
                actions.subrange(done, actions.len() as int) + step.queued,
            )
            &&& forall|bound: nat| #[trigger]
                below(actions, bound + 1) ==> below(step.queued, bound)
        }),
    decreases done,
{
    if done == 0 {
        assert(actions.subrange(0, actions.len() as int) + Seq::<CoreAction>::empty() =~= actions);
    } else {
        lemma_perform_all_keeps_fit(state, actions, done - 1);
        assert(actions.subrange(0, done).drop_last() =~= actions.subrange(0, done - 1));
        let before = state.perform_all(actions.subrange(0, done - 1));
        let action = actions[done - 1];
        let rest = actions.subrange(done, actions.len() as int);
        assert(actions.subrange(done - 1, actions.len() as int) + before.queued =~= seq![action]
            + (rest + before.queued));
        lemma_perform_keeps_fit(before.state, action, rest + before.queued);
        let last = before.state.perform(action);
        assert(rest + before.queued + last.queued =~= rest + (before.queued + last.queued));
        assert forall|bound: nat| #[trigger] below(actions, bound + 1) implies below(
            before.queued + last.queued,
            bound,
        ) by {
            assert(level(actions[done - 1]) < bound + 1);
            lemma_below_compose(before.queued, last.queued, bound);
        }
    }
}

/// Whether actions of the core can be settled: they fit, and three rounds
/// suffice.
pub open spec fn can_settle(core: CoreState, actions: Seq<CoreAction>) -> bool {
    all_fit(core, actions) && below(actions, 3)
}

pub(crate) proof fn lemma_step_can_settle(state: ReplicaState, step: (CoreState, Seq<CoreAction>))
    requires
        state.wf(),
        advances(state.core, step),
    ensures
        (ReplicaState { core: step.0, ..state }).wf(),
        can_settle(step.0, step.1),
{
    lemma_advance_keeps_fit(state, step, Seq::empty());
    assert(Seq::<CoreAction>::empty() + step.1 =~= step.1);
}

} // verus!
