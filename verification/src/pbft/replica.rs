//! A replica: the core, the votes that arrived too early, and the messages.
use super::message::{Message, PrePrepare, Vote};
use super::replica_core::{
    CoreAction, CoreState, ReplicaCore, ReplicaCoreAction, ReplicaCoreConfig, ReplicaCoreContext,
};
use super::progress::{
    all_fit, below, fits, lemma_commit_advances, lemma_perform_all_keeps_fit,
    lemma_pre_prepare_sound, lemma_prepare_advances, lemma_propose_advances, lemma_step_can_settle,
    level, run, well_filed,
};
use super::{OpNum, ViewNum};
use crate::command::{batch_bytes, collect_batch_bytes, Command, Commands};
use crate::crypto::{Digest, PeerConfig, PublicKey, Sig};
use crate::shared::share;
use std::collections::HashMap;
use vstd::prelude::*;

verus! {

broadcast use vstd::std_specs::hash::group_hash_axioms;

/// What a replica asks of its environment. `C` stands for a batch of commands.
pub enum ReplicaAction<C = Commands> {
    /// Sign the message and send it to all other replicas.
    Send(Message<C>),
    /// Deliver a finalized batch.
    Finalize(C, ViewNum),
}

/// An action over the commands themselves.
pub type Action = ReplicaAction<Seq<Command>>;

impl View for ReplicaAction<Commands> {
    type V = Action;

    open spec fn view(&self) -> Action {
        match *self {
            ReplicaAction::Send(message) => ReplicaAction::Send(message@),
            ReplicaAction::Finalize(commands, view_num) => ReplicaAction::Finalize(
                (*commands)@,
                view_num,
            ),
        }
    }
}

/// The environment of a replica.
pub trait Context {
    /// Everything that was asked of the environment so far, in order.
    spec fn actions(&self) -> Seq<Action>;

    /// Signs a message and sends it to all other replicas.
    fn send_message(&mut self, message: Message)
        ensures
            final(self).actions() == old(self).actions().push(ReplicaAction::Send(message@)),
    ;

    /// Delivers a finalized batch.
    fn finalize(&mut self, commands: Commands, view_num: ViewNum)
        ensures
            final(self).actions() == old(self).actions().push(
                ReplicaAction::Finalize((*commands)@, view_num),
            ),
    ;
}

/// An environment that keeps the actions for later.
pub struct ActionBuffer(pub Vec<ReplicaAction>);

impl ActionBuffer {
    /// A buffer without actions.
    pub fn new() -> (buffer: Self)
        ensures
            buffer.actions() == Seq::<Action>::empty(),
    {
        let buffer = ActionBuffer(Vec::new());
        assert(buffer.actions() =~= Seq::<Action>::empty());
        buffer
    }
}

impl Context for ActionBuffer {
    open spec fn actions(&self) -> Seq<Action> {
        self.0@.map_values(|action: ReplicaAction| action@)
    }

    fn send_message(&mut self, message: Message) {
        self.0.push(ReplicaAction::Send(message));
        assert(self.actions() =~= old(self).actions().push(ReplicaAction::Send(message@)));
    }

    fn finalize(&mut self, commands: Commands, view_num: ViewNum) {
        self.0.push(ReplicaAction::Finalize(commands, view_num));
        assert(self.actions() =~= old(self).actions().push(
            ReplicaAction::Finalize((*commands)@, view_num),
        ));
    }
}

/// The keys of a replica's peers.
pub struct ReplicaConfig {
    pub crypto: PeerConfig,
}

/// A replica.
pub struct Replica {
    config: ReplicaConfig,
    core: ReplicaCore,
    core_context: ReplicaCoreContext,
    reordered_prepares: HashMap<OpNum, Vec<Vote>>,
    reordered_commits: HashMap<OpNum, Vec<Vote>>,
}

/// The mathematical content of a [`Replica`] between two calls.
#[verifier::ext_equal]
pub struct ReplicaState {
    pub core: CoreState,
    /// Prepares for operations that were not proposed yet.
    pub early_prepares: Map<OpNum, Seq<Vote>>,
    /// Commits for operations that were not proposed yet.
    pub early_commits: Map<OpNum, Seq<Vote>>,
}

impl View for Replica {
    type V = ReplicaState;

    closed spec fn view(&self) -> ReplicaState {
        ReplicaState {
            core: self.core@,
            early_prepares: self.reordered_prepares@.map_values(|votes: Vec<Vote>| votes@),
            early_commits: self.reordered_commits@.map_values(|votes: Vec<Vote>| votes@),
        }
    }
}

/// A replica state, the core actions it has queued, and what it asks of its
/// environment.
pub struct ReplicaStep {
    pub state: ReplicaState,
    pub queued: Seq<CoreAction>,
    pub actions: Seq<Action>,
}

/// The votes filed under an operation.
pub open spec fn filed(votes: Map<OpNum, Seq<Vote>>, op_num: OpNum) -> Seq<Vote> {
    if votes.contains_key(op_num) {
        votes[op_num]
    } else {
        Seq::empty()
    }
}

/// Files a vote under its operation.
pub open spec fn file_vote(votes: Map<OpNum, Seq<Vote>>, vote: Vote) -> Map<OpNum, Seq<Vote>> {
    votes.insert(vote.op_num, filed(votes, vote.op_num).push(vote))
}

/// Counts early prepares until there are enough; those for another digest are
/// dropped.
pub open spec fn absorb_prepares(
    core: CoreState,
    op_num: OpNum,
    digest: Digest,
    votes: Seq<Vote>,
) -> (CoreState, Seq<CoreAction>)
    decreases votes.len(),
{
    if votes.len() == 0 || core.can_commit(op_num) {
        (core, Seq::empty())
    } else if votes[0].digest != digest {
        absorb_prepares(core, op_num, digest, votes.drop_first())
    } else {
        let step = core.handle_prepare(votes[0]);
        let rest = absorb_prepares(step.0, op_num, digest, votes.drop_first());
        (rest.0, step.1 + rest.1)
    }
}

/// Counts early commits until there are enough; those for another digest are
/// dropped.
pub open spec fn absorb_commits(
    core: CoreState,
    op_num: OpNum,
    digest: Digest,
    votes: Seq<Vote>,
) -> (CoreState, Seq<CoreAction>)
    decreases votes.len(),
{
    if votes.len() == 0 || core.can_finalize(op_num) {
        (core, Seq::empty())
    } else if votes[0].digest != digest {
        absorb_commits(core, op_num, digest, votes.drop_first())
    } else {
        let step = core.handle_commit(votes[0]);
        let rest = absorb_commits(step.0, op_num, digest, votes.drop_first());
        (rest.0, step.1 + rest.1)
    }
}

impl ReplicaState {
    /// The state of a replica that has just started.
    pub open spec fn initial(config: ReplicaCoreConfig) -> ReplicaState {
        ReplicaState {
            core: CoreState::initial(config),
            early_prepares: Map::empty(),
            early_commits: Map::empty(),
        }
    }

    /// The core is sound, and the primary knows only operations that it has
    /// proposed.
    pub open spec fn inv(self) -> bool {
        &&& self.core.sound()
        &&& self.core.is_primary() ==> forall|op_num: OpNum| #[trigger]
            self.core.ops.contains_key(op_num) ==> op_num <= self.core.proposed
    }

    /// The unsigned proposal of a batch.
    pub open spec fn proposal(self, op_num: OpNum, commands: Seq<Command>) -> PrePrepare {
        PrePrepare {
            view_num: self.core.view_num,
            op_num,
            digest: Digest::of_spec(batch_bytes(commands)),
            sig: Sig::unsigned_spec(),
        }
    }

    /// The replica's own unsigned vote on an operation.
    pub open spec fn own_vote(self, op_num: OpNum) -> Vote {
        Vote {
            view_num: self.core.view_num,
            op_num,
            digest: self.core.ops[op_num].pre_prepare.digest,
            replica_id: self.core.config.id,
            sig: Sig::unsigned_spec(),
        }
    }

    /// Carries out one action of the core.
    pub open spec fn perform(self, action: CoreAction) -> ReplicaStep {
        match action {
            ReplicaCoreAction::Propose(op_num, commands) => {
                let pre_prepare = self.proposal(op_num, commands);
                let step = self.core.handle_pre_prepare(pre_prepare, commands);
                ReplicaStep {
                    state: ReplicaState { core: step.0, ..self },
                    queued: step.1,
                    actions: seq![ReplicaAction::Send(Message::PrePrepare(pre_prepare, commands))],
                }
            },
            ReplicaCoreAction::Prepare(op_num) => {
                let vote = self.own_vote(op_num);
                let step = self.core.handle_prepare(vote);
                let rest = absorb_prepares(
                    step.0,
                    op_num,
                    vote.digest,
                    filed(self.early_prepares, op_num),
                );
                ReplicaStep {
                    state: ReplicaState {
                        core: rest.0,
                        early_prepares: self.early_prepares.remove(op_num),
                        ..self
                    },
                    queued: step.1 + rest.1,
                    actions: seq![ReplicaAction::Send(Message::Prepare(vote))],
                }
            },
            ReplicaCoreAction::Commit(op_num) => {
                let vote = self.own_vote(op_num);
                let step = self.core.handle_commit(vote);
                let rest = absorb_commits(
                    step.0,
                    op_num,
                    vote.digest,
                    filed(self.early_commits, op_num),
                );
                ReplicaStep {
                    state: ReplicaState {
                        core: rest.0,
                        early_commits: self.early_commits.remove(op_num),
                        ..self
                    },
                    queued: step.1 + rest.1,
                    actions: seq![ReplicaAction::Send(Message::Commit(vote))],
                }
            },
            ReplicaCoreAction::Finalize(op_num) => ReplicaStep {
                state: self,
                queued: Seq::empty(),
                actions: seq![
                    ReplicaAction::Finalize(self.core.ops[op_num].commands, self.core.view_num),
                ],
            },
        }
    }

    /// Carries out actions of the core in order.
    pub open spec fn perform_all(self, actions: Seq<CoreAction>) -> ReplicaStep
        decreases actions.len(),
    {
        if actions.len() == 0 {
            ReplicaStep { state: self, queued: Seq::empty(), actions: Seq::empty() }
        } else {
            let before = self.perform_all(actions.drop_last());
            let last = before.state.perform(actions.last());
            ReplicaStep {
                state: last.state,
                queued: before.queued + last.queued,
                actions: before.actions + last.actions,
            }
        }
    }

    /// Carries out actions of the core and what they lead to. Voting leads to
    /// committing, which leads to finalizing and proposing, which leads to
    /// nothing more: three rounds settle everything.
    pub open spec fn settle(self, actions: Seq<CoreAction>, rounds: nat) -> (ReplicaState, Seq<
        Action,
    >)
        decreases rounds,
    {
        if rounds == 0 || actions.len() == 0 {
            (self, Seq::empty())
        } else {
            let step = self.perform_all(actions);
            let rest = step.state.settle(step.queued, (rounds - 1) as nat);
            (rest.0, step.actions + rest.1)
        }
    }

    /// Continues with a step of the core.
    pub open spec fn follow(self, step: (CoreState, Seq<CoreAction>)) -> (ReplicaState, Seq<
        Action,
    >) {
        ReplicaState { core: step.0, ..self }.settle(step.1, 3)
    }

    pub open spec fn submit(self, command: Command) -> (ReplicaState, Seq<Action>) {
        self.follow(self.core.submit(command))
    }

    /// A message changes nothing.
    pub open spec fn ignored(self) -> (ReplicaState, Seq<Action>) {
        (self, Seq::empty())
    }

    pub open spec fn receive(self, message: Message<Seq<Command>>, valid: bool) -> (
        ReplicaState,
        Seq<Action>,
    ) {
        match message {
            Message::PrePrepare(pre_prepare, commands) => {
                if pre_prepare.view_num != self.core.view_num || self.core.ops.contains_key(
                    pre_prepare.op_num,
                ) || !valid {
                    self.ignored()
                } else {
                    self.follow(self.core.handle_pre_prepare(pre_prepare, commands))
                }
            },
            Message::Prepare(vote) => {
                if self.core.can_commit(vote.op_num) || vote.view_num != self.core.view_num {
                    self.ignored()
                } else if !self.core.ops.contains_key(vote.op_num) {
                    (
                        ReplicaState {
                            early_prepares: file_vote(self.early_prepares, vote),
                            ..self
                        },
                        Seq::empty(),
                    )
                } else if vote.digest != self.core.ops[vote.op_num].pre_prepare.digest || !valid {
                    self.ignored()
                } else {
                    self.follow(self.core.handle_prepare(vote))
                }
            },
            Message::Commit(vote) => {
                if self.core.can_finalize(vote.op_num) || vote.view_num != self.core.view_num {
                    self.ignored()
                } else if !self.core.ops.contains_key(vote.op_num) {
                    (
                        ReplicaState { early_commits: file_vote(self.early_commits, vote), ..self },
                        Seq::empty(),
                    )
                } else if vote.digest != self.core.ops[vote.op_num].pre_prepare.digest || !valid {
                    self.ignored()
                } else {
                    self.follow(self.core.handle_commit(vote))
                }
            },
        }
    }

    /// The key against which a message's signature is to be checked.
    pub open spec fn verification_key(
        self,
        message: Message<Seq<Command>>,
        keys: Seq<PublicKey>,
    ) -> Option<PublicKey> {
        let index: int = match message {
            Message::PrePrepare(_, _) => self.core.config.primary_of_spec(
                self.core.view_num,
            ) as int,
            Message::Prepare(vote) => vote.replica_id as int,
            Message::Commit(vote) => vote.replica_id as int,
        };
        if index < keys.len() {
            Some(keys[index])
        } else {
            None
        }
    }

    /// Whether a message may be handed over: the primary signs no proposals but
    /// its own, so none that checks out runs ahead of its numbering.
    pub open spec fn admits(self, message: Message<Seq<Command>>, valid: bool) -> bool {
        message matches Message::PrePrepare(pre_prepare, _) ==> {
            ||| !valid
            ||| !self.core.is_primary()
            ||| pre_prepare.view_num != self.core.view_num
            ||| pre_prepare.op_num <= self.core.proposed
        }
    }
}

impl Replica {
    /// No action of the core is waiting, and the state is well-formed.
    pub closed spec fn wf(&self) -> bool {
        &&& self.core_context@.len() == 0
        &&& self@.wf()
    }

    /// What well-formedness says of the replica's state.
    pub proof fn wf_state(&self)
        requires
            self.wf(),
        ensures
            self@.wf(),
    {
    }

    /// The keys of the replica's peers.
    pub closed spec fn public_keys(&self) -> Seq<PublicKey> {
        self.config.crypto.public_keys@
    }

    /// A replica that has just started.
    pub fn new(core_config: ReplicaCoreConfig, config: ReplicaConfig) -> (replica: Self)
        requires
            core_config.wf(),
        ensures
            replica.wf(),
            replica@ == ReplicaState::initial(core_config),
            replica.public_keys() == config.crypto.public_keys@,
    {
        let replica = Replica {
            config,
            core: ReplicaCore::new(core_config),
            core_context: ReplicaCoreContext(Vec::new()),
            reordered_prepares: HashMap::new(),
            reordered_commits: HashMap::new(),
        };
        proof {
            assert(replica@.early_prepares =~= Map::empty());
            assert(replica@.early_commits =~= Map::empty());
        }
        replica
    }

    /// How many operations are known.
    pub fn num_op(&self) -> (num_op: usize)
        ensures
            num_op == self@.core.ops.dom().len(),
    {
        assert(self@.core.ops.dom() =~= self.core.ops@.dom());
        self.core.ops.len()
    }

    /// Whether enough replicas have committed an operation.
    pub fn is_committed(&self, op_num: OpNum) -> (committed: bool)
        requires
            self.wf(),
        ensures
            committed == self@.core.can_finalize(op_num),
    {
        self.core.can_finalize(op_num)
    }

    /// Takes a command from a client.
    pub fn submit<C: Context>(&mut self, command: Command, context: &mut C)
        requires
            old(self).wf(),
        ensures
            final(self).wf(),
            final(self)@ == old(self)@.submit(command).0,
            final(context).actions() == old(context).actions() + old(self)@.submit(command).1,
            final(self).public_keys() == old(self).public_keys(),
    {
        let ghost before = self@;
        proof {
            if before.core.is_primary() {
                let pooled = CoreState { pool: before.core.pool.push(command), ..before.core };
                lemma_propose_advances(pooled);
            }
            assert(run(before.core.finalized, before.core.finalized) =~= Seq::empty());
            lemma_step_can_settle(before, before.core.submit(command));
        }
        self.core.submit(command, &mut self.core_context);
        assert(self.core_context@ =~= before.core.submit(command).1);
        self.perform_core_actions(context, Ghost(3))
    }

    /// Whether a message may be handed over.
    pub fn admits(&self, message: &Message, valid: bool) -> (admitted: bool)
        requires
            self.wf(),
        ensures
            admitted == self@.admits(message@, valid),
    {
        match message {
            Message::PrePrepare(pre_prepare, _) => !valid || !self.core.config.is_primary_of(
                self.core.view_num,
            ) || pre_prepare.view_num != self.core.view_num || pre_prepare.op_num
                <= self.core.proposed_op_num,
            _ => true,
        }
    }

    /// The key against which a message's signature is to be checked, `None`
    /// when the sender has no key.
    pub fn verification_key(&self, message: &Message) -> (key: Option<PublicKey>)
        requires
            self.wf(),
        ensures
            key == self@.verification_key(message@, self.public_keys()),
    {
        let index: u64 = match message {
            Message::PrePrepare(_, _) => self.core.config.primary_of(self.core.view_num),
            Message::Prepare(vote) => vote.replica_id as u64,
            Message::Commit(vote) => vote.replica_id as u64,
        };
        if index < self.config.crypto.public_keys.len() as u64 {
            Some(self.config.crypto.public_keys[index as usize])
        } else {
            None
        }
    }

    /// Takes a message from another replica. `valid` tells whether its
    /// signature checks out. A vote that comes before its proposal is filed, and
    /// counted once the proposal is there, whatever `valid` says; so the votes
    /// that are counted are not all known to be from their voters.
    pub fn receive<C: Context>(&mut self, message: Message, valid: bool, context: &mut C)
        requires
            old(self).wf(),
            old(self)@.admits(message@, valid),
        ensures
            final(self).wf(),
            final(self)@ == old(self)@.receive(message@, valid).0,
            final(context).actions() == old(context).actions() + old(self)@.receive(
                message@,
                valid,
            ).1,
            final(self).public_keys() == old(self).public_keys(),
    {
        let ghost before = self@;
        assert(context.actions() + Seq::<Action>::empty() =~= context.actions());
        match message {
            Message::PrePrepare(pre_prepare, commands) => {
                if pre_prepare.view_num != self.core.view_num {
                    return;
                }
                if self.core.ops.contains_key(&pre_prepare.op_num) {
                    return;
                }
                if !valid {
                    return;
                }
                self.core.handle_pre_prepare(pre_prepare, commands, &mut self.core_context);
                proof {
                    let step = before.core.handle_pre_prepare(pre_prepare, (*commands)@);
                    assert(self.core_context@ =~= step.1);
                    lemma_pre_prepare_sound(before.core, pre_prepare, (*commands)@);
                }
            },
            Message::Prepare(vote) => {
                // checked here as well to avoid needless signature checks
                if self.core.can_commit(vote.op_num) {
                    return;
                }
                if vote.view_num != self.core.view_num {
                    return;
                }
                match self.core.ops.get(&vote.op_num) {
                    None => {
                        file_early(&mut self.reordered_prepares, vote);
                        assert(self@.early_prepares =~= file_vote(before.early_prepares, vote));
                        return;
                    },
                    Some(op) => {
                        assert(before.core.ops[vote.op_num] == op@);
                        if !vote.digest.same(&op.pre_prepare.digest) {
                            return;
                        }
                    },
                }
                if !valid {
                    return;
                }
                self.core.handle_prepare(vote, &mut self.core_context);
                proof {
                    assert(self.core_context@ =~= before.core.handle_prepare(vote).1);
                    lemma_prepare_advances(before.core, vote);
                    lemma_step_can_settle(before, before.core.handle_prepare(vote));
                }
            },
            Message::Commit(vote) => {
                if self.core.can_finalize(vote.op_num) {
                    return;
                }
                if vote.view_num != self.core.view_num {
                    return;
                }
                match self.core.ops.get(&vote.op_num) {
                    None => {
                        file_early(&mut self.reordered_commits, vote);
                        assert(self@.early_commits =~= file_vote(before.early_commits, vote));
                        return;
                    },
                    Some(op) => {
                        assert(before.core.ops[vote.op_num] == op@);
                        if !vote.digest.same(&op.pre_prepare.digest) {
                            return;
                        }
                    },
                }
                if !valid {
                    return;
                }
                self.core.handle_commit(vote, &mut self.core_context);
                proof {
                    assert(self.core_context@ =~= before.core.handle_commit(vote).1);
                    lemma_commit_advances(before.core, vote);
                    lemma_step_can_settle(before, before.core.handle_commit(vote));
                }
            },
        }
        self.perform_core_actions(context, Ghost(3))
    }

    /// Carries out what the core has asked for, and what follows from it.
    fn perform_core_actions<C: Context>(&mut self, context: &mut C, Ghost(rounds): Ghost<nat>)
        requires
            old(self)@.wf(),
            all_fit(old(self)@.core, old(self).core_context@),
            below(old(self).core_context@, rounds),
        ensures
            final(self).wf(),
            final(self)@ == old(self)@.settle(old(self).core_context@, rounds).0,
            final(context).actions() == old(context).actions() + old(self)@.settle(
                old(self).core_context@,
                rounds,
            ).1,
            final(self).public_keys() == old(self).public_keys(),
        decreases rounds,
    {
        if self.core_context.0.len() == 0 {
            assert(context.actions() + Seq::<Action>::empty() =~= context.actions());
            return;
        }
        let ghost before = self@;
        let ghost queue = self.core_context@;
        proof {
            assert(level(queue[0]) < rounds);
        }
        let mut core_actions: Vec<ReplicaCoreAction> = Vec::new();
        std::mem::swap(&mut self.core_context.0, &mut core_actions);
        let ghost core_view = core_actions@.map_values(|action: ReplicaCoreAction| action@);
        assert(core_view == queue);
        let mut i: usize = 0;
        assert(self@ == before);
        assert(queue.subrange(0, 0) =~= Seq::empty());
        assert(self.core_context@ =~= Seq::empty());
        assert(context.actions() =~= old(context).actions() + Seq::<Action>::empty());
        while i < core_actions.len()
            invariant
                0 <= i <= core_actions.len(),
                core_actions@.map_values(|action: ReplicaCoreAction| action@) == queue,
                before.wf(),
                all_fit(before.core, queue),
                self.public_keys() == old(self).public_keys(),
                ({
                    let step = before.perform_all(queue.subrange(0, i as int));
                    &&& self@ == step.state
                    &&& self.core_context@ == step.queued
                    &&& context.actions() == old(context).actions() + step.actions
                }),
            decreases core_actions.len() - i,
        {
            let ghost step = before.perform_all(queue.subrange(0, i as int));
            proof {
                lemma_perform_all_keeps_fit(before, queue, i as int);
                let rest = queue.subrange(i as int, queue.len() as int) + step.queued;
                assert(rest[0] == queue[i as int]);
                assert(queue[i as int] == core_actions@[i as int]@);
                assert(fits(self@.core, rest[0]));
            }
            self.perform_core_action(&core_actions[i], context);
            proof {
                let next = queue.subrange(0, i + 1);
                assert(next.drop_last() =~= queue.subrange(0, i as int));
                assert(next.last() == queue[i as int]);
                let last = step.state.perform(queue[i as int]);
                assert(old(context).actions() + step.actions + last.actions =~= old(
                    context,
                ).actions() + (step.actions + last.actions));
            }
            i += 1;
        }
        let ghost step = before.perform_all(queue);
        proof {
            assert(queue.subrange(0, queue.len() as int) =~= queue);
            lemma_perform_all_keeps_fit(before, queue, queue.len() as int);
            assert(queue.subrange(queue.len() as int, queue.len() as int) + step.queued
                =~= step.queued);
            assert(below(queue, (rounds - 1) as nat + 1));
        }
        self.perform_core_actions(context, Ghost((rounds - 1) as nat));
        proof {
            let rest = step.state.settle(step.queued, (rounds - 1) as nat);
            assert(old(context).actions() + step.actions + rest.1 =~= old(context).actions() + (
            step.actions + rest.1));
        }
    }

    /// Carries out one action of the core.
    fn perform_core_action<C: Context>(&mut self, action: &ReplicaCoreAction, context: &mut C)
        requires
            old(self)@.wf(),
            fits(old(self)@.core, action@),
        ensures
            final(self)@ == old(self)@.perform(action@).state,
            final(self).core_context@ == old(self).core_context@ + old(self)@.perform(
                action@,
            ).queued,
            final(context).actions() == old(context).actions() + old(self)@.perform(
                action@,
            ).actions,
            final(self).public_keys() == old(self).public_keys(),
    {
        let ghost before = self@;
        match action {
            ReplicaCoreAction::Propose(op_num, commands) => {
                let bytes = collect_batch_bytes(commands);
                let pre_prepare = PrePrepare {
                    view_num: self.core.view_num,
                    op_num: *op_num,
                    digest: Digest::of(&bytes),
                    sig: Sig::unsigned(),
                };
                assert(pre_prepare == before.proposal(*op_num, (**commands)@));
                context.send_message(Message::PrePrepare(pre_prepare, share(commands)));
                self.core.handle_pre_prepare(
                    pre_prepare,
                    share(commands),
                    &mut self.core_context,
                );
            },
            ReplicaCoreAction::Prepare(op_num) => {
                let op = self.core.ops.get(op_num).unwrap();
                assert(before.core.ops[*op_num] == op@);
                let digest = op.pre_prepare.digest;
                let vote = Vote {
                    view_num: self.core.view_num,
                    op_num: *op_num,
                    digest,
                    replica_id: self.core.config.id,
                    sig: Sig::unsigned(),
                };
                assert(vote == before.own_vote(*op_num));
                context.send_message(Message::Prepare(vote));
                self.core.handle_prepare(vote, &mut self.core_context);
                self.absorb_early_prepares(*op_num, digest);
                assert(self.core_context@ =~= old(self).core_context@ + before.perform(
                    action@,
                ).queued);
            },
            ReplicaCoreAction::Commit(op_num) => {
                let op = self.core.ops.get(op_num).unwrap();
                assert(before.core.ops[*op_num] == op@);
                let digest = op.pre_prepare.digest;
                let vote = Vote {
                    view_num: self.core.view_num,
                    op_num: *op_num,
                    digest,
                    replica_id: self.core.config.id,
                    sig: Sig::unsigned(),
                };
                assert(vote == before.own_vote(*op_num));
                context.send_message(Message::Commit(vote));
                self.core.handle_commit(vote, &mut self.core_context);
                proof {
                    lemma_commit_advances(before.core, vote);
                    assert(self@.core.ops.dom().contains(*op_num));
                }
                self.absorb_early_commits(*op_num, digest);
                assert(self.core_context@ =~= old(self).core_context@ + before.perform(
                    action@,
                ).queued);
            },
            ReplicaCoreAction::Finalize(op_num) => {
                let op = self.core.ops.get(op_num).unwrap();
                assert(before.core.ops[*op_num] == op@);
                context.finalize(share(&op.commands), self.core.view_num);
                assert(self.core_context@ =~= old(self).core_context@ + Seq::empty());
            },
        }
        assert(context.actions() =~= old(context).actions() + before.perform(action@).actions);
    }

    /// Counts the prepares that arrived before their operation.
    fn absorb_early_prepares(&mut self, op_num: OpNum, digest: Digest)
        requires
            old(self)@.wf(),
            old(self)@.core.ops.contains_key(op_num),
            digest == old(self)@.core.ops[op_num].pre_prepare.digest,
        ensures
            ({
                let votes = filed(old(self)@.early_prepares, op_num);
                let step = absorb_prepares(old(self)@.core, op_num, digest, votes);
                &&& final(self)@ == ReplicaState {
                    core: step.0,
                    early_prepares: old(self)@.early_prepares.remove(op_num),
                    ..old(self)@
                }
                &&& final(self).core_context@ == old(self).core_context@ + step.1
            }),
            final(self).public_keys() == old(self).public_keys(),
    {
        let ghost before = self@;
        let votes = match self.reordered_prepares.remove(&op_num) {
            Some(votes) => votes,
            None => Vec::new(),
        };
        assert(votes@ =~= filed(before.early_prepares, op_num));
        assert(self@.early_prepares =~= before.early_prepares.remove(op_num));
        let ghost early = self@;
        let ghost whole = absorb_prepares(before.core, op_num, digest, votes@);
        let mut i: usize = 0;
        assert(votes@.subrange(0, votes@.len() as int) =~= votes@);
        assert(self.core_context@ + whole.1 =~= old(self).core_context@ + whole.1);
        while i < votes.len() && !self.core.can_commit(op_num)
            invariant
                0 <= i <= votes.len(),
                self.core.config.wf(),
                self@ == (ReplicaState { core: self@.core, ..early }),
                self@.core.view_num == before.core.view_num,
                self@.core.ops.contains_key(op_num),
                self@.core.ops[op_num].pre_prepare.digest == digest,
                well_filed(before.early_prepares, before.core.view_num),
                votes@ == filed(before.early_prepares, op_num),
                self.public_keys() == old(self).public_keys(),
                ({
                    let rest = absorb_prepares(
                        self@.core,
                        op_num,
                        digest,
                        votes@.subrange(i as int, votes@.len() as int),
                    );
                    &&& rest.0 == whole.0
                    &&& self.core_context@ + rest.1 == old(self).core_context@ + whole.1
                }),
            decreases votes.len() - i,
        {
            let ghost ahead = votes@.subrange(i as int, votes@.len() as int);
            let ghost core = self@.core;
            let ghost context = self.core_context@;
            let prepare = votes[i];
            assert(ahead[0] == prepare);
            assert(ahead.drop_first() =~= votes@.subrange(i + 1, votes@.len() as int));
            assert(before.early_prepares.contains_key(op_num));
            assert(prepare.op_num == op_num) by {
                assert(before.early_prepares[op_num][i as int] == prepare);
            }
            if prepare.digest.same(&digest) {
                self.core.handle_prepare(prepare, &mut self.core_context);
                proof {
                    let step = core.handle_prepare(prepare);
                    let rest = absorb_prepares(step.0, op_num, digest, ahead.drop_first());
                    assert(self.core_context@ + rest.1 =~= context + (step.1 + rest.1));
                }
            }
            i += 1;
        }
        assert(self.core_context@ + Seq::<CoreAction>::empty() =~= self.core_context@);
    }

    /// Counts the commits that arrived before their operation.
    fn absorb_early_commits(&mut self, op_num: OpNum, digest: Digest)
        requires
            old(self)@.wf(),
            old(self)@.core.ops.contains_key(op_num),
            digest == old(self)@.core.ops[op_num].pre_prepare.digest,
        ensures
            ({
                let votes = filed(old(self)@.early_commits, op_num);
                let step = absorb_commits(old(self)@.core, op_num, digest, votes);
                &&& final(self)@ == ReplicaState {
                    core: step.0,
                    early_commits: old(self)@.early_commits.remove(op_num),
                    ..old(self)@
                }
                &&& final(self).core_context@ == old(self).core_context@ + step.1
            }),
            final(self).public_keys() == old(self).public_keys(),
    {
        let ghost before = self@;
        let votes = match self.reordered_commits.remove(&op_num) {
            Some(votes) => votes,
            None => Vec::new(),
        };
        assert(votes@ =~= filed(before.early_commits, op_num));
        assert(self@.early_commits =~= before.early_commits.remove(op_num));
        let ghost early = self@;
        let ghost whole = absorb_commits(before.core, op_num, digest, votes@);
        let mut i: usize = 0;
        assert(votes@.subrange(0, votes@.len() as int) =~= votes@);
        assert(self.core_context@ + whole.1 =~= old(self).core_context@ + whole.1);
        while i < votes.len() && !self.core.can_finalize(op_num)
            invariant
                0 <= i <= votes.len(),
                self.core.config.wf(),
                self@ == (ReplicaState { core: self@.core, ..early }),
                self@.core.view_num == before.core.view_num,
                self@.core.ops.contains_key(op_num),
                self@.core.ops[op_num].pre_prepare.digest == digest,
                well_filed(before.early_commits, before.core.view_num),
                votes@ == filed(before.early_commits, op_num),
                self.public_keys() == old(self).public_keys(),
                ({
                    let rest = absorb_commits(
                        self@.core,
                        op_num,
                        digest,
                        votes@.subrange(i as int, votes@.len() as int),
                    );
                    &&& rest.0 == whole.0
                    &&& self.core_context@ + rest.1 == old(self).core_context@ + whole.1
                }),
            decreases votes.len() - i,
        {
            let ghost ahead = votes@.subrange(i as int, votes@.len() as int);
            let ghost core = self@.core;
            let ghost context = self.core_context@;
            let commit = votes[i];
            assert(ahead[0] == commit);
            assert(ahead.drop_first() =~= votes@.subrange(i + 1, votes@.len() as int));
            assert(before.early_commits.contains_key(op_num));
            assert(commit.op_num == op_num) by {
                assert(before.early_commits[op_num][i as int] == commit);
            }
            if commit.digest.same(&digest) {
                proof {
                    lemma_commit_advances(core, commit);
                    assert(core.handle_commit(commit).0.ops.dom().contains(op_num));
                }
                self.core.handle_commit(commit, &mut self.core_context);
                proof {
                    let step = core.handle_commit(commit);
                    let rest = absorb_commits(step.0, op_num, digest, ahead.drop_first());
                    assert(self.core_context@ + rest.1 =~= context + (step.1 + rest.1));
                }
            }
            i += 1;
        }
        assert(self.core_context@ + Seq::<CoreAction>::empty() =~= self.core_context@);
    }
}

/// Files a vote under its operation.
fn file_early(votes: &mut HashMap<OpNum, Vec<Vote>>, vote: Vote)
    ensures
        final(votes)@.map_values(|votes: Vec<Vote>| votes@) == file_vote(
            old(votes)@.map_values(|votes: Vec<Vote>| votes@),
            vote,
        ),
{
    let mut list = match votes.remove(&vote.op_num) {
        Some(list) => list,
        None => Vec::new(),
    };
    list.push(vote);
    votes.insert(vote.op_num, list);
    assert(votes@.map_values(|votes: Vec<Vote>| votes@) =~= file_vote(
        old(votes)@.map_values(|votes: Vec<Vote>| votes@),
        vote,
    ));
}

} // verus!
