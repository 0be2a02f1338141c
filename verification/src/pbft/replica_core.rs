//! The protocol core: which operations are known, what was voted on them, and
//! what follows from it.
use super::message::{PrePrepare, Vote};
use super::{OpNum, ReplicaId, ViewNum};
use crate::command::{batch_len, Command, CommandPool, Commands};
use std::collections::HashMap;
use vstd::prelude::*;

verus! {

broadcast use vstd::std_specs::hash::group_hash_axioms;

/// The parameters of one replica.
#[derive(Debug, Clone, Copy)]
pub struct ReplicaCoreConfig {
    pub id: ReplicaId,
    pub num_replica: ReplicaId,
    pub num_faulty_replica: ReplicaId,
    pub num_inflight_block: OpNum,
    pub max_batch_size: usize,
}

impl ReplicaCoreConfig {
    /// There is a replica, and no more faulty ones than there are.
    pub open spec fn wf(self) -> bool {
        &&& self.num_replica > 0
        &&& self.num_faulty_replica <= self.num_replica
    }

    /// How many replicas make a quorum.
    pub open spec fn quorum(self) -> int {
        self.num_replica - self.num_faulty_replica
    }

    pub open spec fn primary_of_spec(self, view_num: ViewNum) -> ViewNum {
        (view_num as int % self.num_replica as int) as ViewNum
    }

    pub open spec fn is_primary(self, view_num: ViewNum) -> bool {
        self.primary_of_spec(view_num) == self.id
    }

    /// The primary of a view: views rotate over the replicas.
    pub fn primary_of(&self, view_num: ViewNum) -> (primary: ViewNum)
        requires
            self.wf(),
        ensures
            primary == self.primary_of_spec(view_num),
            primary < self.num_replica,
    {
        view_num % self.num_replica as u64
    }

    /// Whether this replica is the primary of a view.
    pub fn is_primary_of(&self, view_num: ViewNum) -> (is_primary: bool)
        requires
            self.wf(),
        ensures
            is_primary == self.is_primary(view_num),
    {
        self.primary_of(view_num) == self.id as u64
    }
}

/// A known operation: a batch of commands and the votes on it.
pub struct Op {
    pub commands: Commands,
    pub pre_prepare: PrePrepare,
    pub prepare_quorum: HashMap<ReplicaId, Vote>,
    pub commit_quorum: HashMap<ReplicaId, Vote>,
}

/// The mathematical content of an [`Op`].
#[verifier::ext_equal]
pub struct OpState {
    pub commands: Seq<Command>,
    pub pre_prepare: PrePrepare,
    pub prepares: Map<ReplicaId, Vote>,
    pub commits: Map<ReplicaId, Vote>,
}

impl View for Op {
    type V = OpState;

    open spec fn view(&self) -> OpState {
        OpState {
            commands: (*self.commands)@,
            pre_prepare: self.pre_prepare,
            prepares: self.prepare_quorum@,
            commits: self.commit_quorum@,
        }
    }
}

impl OpState {
    /// A newly proposed operation, without votes.
    pub open spec fn proposed(pre_prepare: PrePrepare, commands: Seq<Command>) -> OpState {
        OpState { commands, pre_prepare, prepares: Map::empty(), commits: Map::empty() }
    }

    /// Enough prepares: the proposal itself counts as the primary's.
    pub open spec fn prepared(self, config: ReplicaCoreConfig) -> bool {
        self.prepares.dom().len() + 1 >= config.quorum()
    }

    /// Prepared, and enough commits.
    pub open spec fn committed(self, config: ReplicaCoreConfig) -> bool {
        &&& self.prepared(config)
        &&& self.commits.dom().len() >= config.quorum()
    }
}

/// What the core asks its replica to do. `C` stands for a batch of commands.
pub enum ReplicaCoreAction<C = Commands> {
    Propose(OpNum, C),
    Prepare(OpNum),
    Commit(OpNum),
    Finalize(OpNum),
}

/// An action over the commands themselves.
pub type CoreAction = ReplicaCoreAction<Seq<Command>>;

impl View for ReplicaCoreAction<Commands> {
    type V = CoreAction;

    open spec fn view(&self) -> CoreAction {
        match *self {
            ReplicaCoreAction::Propose(op_num, commands) => ReplicaCoreAction::Propose(
                op_num,
                (*commands)@,
            ),
            ReplicaCoreAction::Prepare(op_num) => ReplicaCoreAction::Prepare(op_num),
            ReplicaCoreAction::Commit(op_num) => ReplicaCoreAction::Commit(op_num),
            ReplicaCoreAction::Finalize(op_num) => ReplicaCoreAction::Finalize(op_num),
        }
    }
}

/// The actions that the core has asked for, in order.
pub struct ReplicaCoreContext(pub Vec<ReplicaCoreAction>);

impl View for ReplicaCoreContext {
    type V = Seq<CoreAction>;

    open spec fn view(&self) -> Seq<CoreAction> {
        self.0@.map_values(|action: ReplicaCoreAction| action@)
    }
}

impl ReplicaCoreContext {
    /// Asks to propose a batch.
    pub fn propose(&mut self, op_num: OpNum, commands: Commands)
        ensures
            final(self)@ == old(self)@.push(ReplicaCoreAction::Propose(op_num, (*commands)@)),
    {
        self.0.push(ReplicaCoreAction::Propose(op_num, commands));
    }

    /// Asks to vote for the proposal.
    pub fn prepare(&mut self, op_num: OpNum)
        ensures
            final(self)@ == old(self)@.push(ReplicaCoreAction::Prepare(op_num)),
    {
        self.0.push(ReplicaCoreAction::Prepare(op_num));
    }

    /// Asks to vote for committing.
    pub fn commit(&mut self, op_num: OpNum)
        ensures
            final(self)@ == old(self)@.push(ReplicaCoreAction::Commit(op_num)),
    {
        self.0.push(ReplicaCoreAction::Commit(op_num));
    }

    /// Asks to deliver the operation's commands.
    pub fn finalize(&mut self, op_num: OpNum)
        ensures
            final(self)@ == old(self)@.push(ReplicaCoreAction::Finalize(op_num)),
    {
        self.0.push(ReplicaCoreAction::Finalize(op_num));
    }
}

/// The core of a replica.
pub struct ReplicaCore {
    pub config: ReplicaCoreConfig,
    pub view_num: ViewNum,
    // following the protocol's terms, "op" refers to a batch of commands, which
    // other works usually call a block
    pub proposed_op_num: OpNum,  // maintained only by the primary
    pub finalized_op_num: OpNum,  // maintained by all
    pub ops: HashMap<OpNum, Op>,
    pub command_pool: CommandPool,
}

/// The mathematical content of a [`ReplicaCore`].
#[verifier::ext_equal]
pub struct CoreState {
    pub config: ReplicaCoreConfig,
    pub view_num: ViewNum,
    pub proposed: OpNum,
    pub finalized: OpNum,
    pub ops: Map<OpNum, OpState>,
    pub pool: Seq<Command>,
}

impl View for ReplicaCore {
    type V = CoreState;

    open spec fn view(&self) -> CoreState {
        CoreState {
            config: self.config,
            view_num: self.view_num,
            proposed: self.proposed_op_num,
            finalized: self.finalized_op_num,
            ops: self.ops@.map_values(|op: Op| op@),
            pool: self.command_pool@,
        }
    }
}

/// A core state and the actions it asks for.
pub type CoreStep = (CoreState, Seq<CoreAction>);

impl CoreState {
    /// The state of a replica that has just started.
    pub open spec fn initial(config: ReplicaCoreConfig) -> CoreState {
        CoreState {
            config,
            view_num: 0,
            proposed: 0,
            finalized: 0,
            ops: Map::empty(),
            pool: Seq::empty(),
        }
    }

    pub open spec fn is_primary(self) -> bool {
        self.config.is_primary(self.view_num)
    }

    /// Whether a vote is one for an operation as this replica knows it.
    pub open spec fn supports(self, vote: Vote) -> bool {
        &&& self.ops.contains_key(vote.op_num)
        &&& vote.view_num == self.view_num
        &&& vote.digest == self.ops[vote.op_num].pre_prepare.digest
    }

    /// Counted votes are filed under their voter, and support the operation
    /// that they are counted for.
    pub open spec fn votes_support(self) -> bool {
        &&& forall|op_num: OpNum, id: ReplicaId|
            self.ops.contains_key(op_num) && #[trigger] self.ops[op_num].prepares.contains_key(id)
                ==> {
                let vote = self.ops[op_num].prepares[id];
                vote.replica_id == id && vote.op_num == op_num && self.supports(vote)
            }
        &&& forall|op_num: OpNum, id: ReplicaId|
            self.ops.contains_key(op_num) && #[trigger] self.ops[op_num].commits.contains_key(id)
                ==> {
                let vote = self.ops[op_num].commits[id];
                vote.replica_id == id && vote.op_num == op_num && self.supports(vote)
            }
    }

    /// Everything finalized is known and has both its quorums.
    pub open spec fn quorums_hold(self) -> bool {
        forall|op_num: OpNum|
            1 <= op_num <= self.finalized ==> #[trigger] self.ops.contains_key(op_num)
                && self.ops[op_num].committed(self.config)
    }

    /// Every operation has finitely many votes.
    pub open spec fn votes_finite(self) -> bool {
        forall|op_num: OpNum| #[trigger]
            self.ops.contains_key(op_num) ==> self.ops[op_num].prepares.dom().finite()
                && self.ops[op_num].commits.dom().finite()
    }

    /// What every core keeps to while it handles votes.
    pub open spec fn sound(self) -> bool {
        &&& self.config.wf()
        &&& self.votes_finite()
        &&& self.votes_support()
        &&& self.quorums_hold()
        &&& self.proposed <= self.finalized + self.config.num_inflight_block
    }

    /// Whether the primary may have another operation in flight.
    pub open spec fn can_propose(self) -> bool {
        &&& self.is_primary()
        &&& self.proposed < self.finalized + self.config.num_inflight_block
    }

    pub open spec fn can_commit(self, op_num: OpNum) -> bool {
        ||| op_num <= self.finalized
        ||| self.ops.contains_key(op_num) && self.ops[op_num].prepared(self.config)
    }

    pub open spec fn can_finalize(self, op_num: OpNum) -> bool {
        ||| op_num <= self.finalized
        ||| self.ops.contains_key(op_num) && self.ops[op_num].committed(self.config)
    }

    /// Proposes batches from the pool as long as another may be in flight.
    pub open spec fn propose(self) -> CoreStep
        decreases u64::MAX - self.proposed,
    {
        if self.proposed == u64::MAX || !self.can_propose() || self.pool.len() == 0 {
            (self, Seq::empty())
        } else {
            let n = batch_len(self.pool.len(), self.config.max_batch_size);
            let op_num = (self.proposed + 1) as OpNum;
            let next = CoreState {
                proposed: op_num,
                pool: self.pool.subrange(n, self.pool.len() as int),
                ..self
            };
            let batch = self.pool.subrange(0, n);
            let rest = next.propose();
            (rest.0, seq![ReplicaCoreAction::Propose(op_num, batch)] + rest.1)
        }
    }

    pub open spec fn submit(self, command: Command) -> CoreStep {
        if self.is_primary() {
            CoreState { pool: self.pool.push(command), ..self }.propose()
        } else {
            (self, Seq::empty())
        }
    }

    pub open spec fn handle_pre_prepare(
        self,
        pre_prepare: PrePrepare,
        commands: Seq<Command>,
    ) -> CoreStep {
        let op_num = pre_prepare.op_num;
        (
            CoreState {
                ops: self.ops.insert(op_num, OpState::proposed(pre_prepare, commands)),
                ..self
            },
            if self.is_primary() {
                Seq::empty()
            } else {
                seq![ReplicaCoreAction::Prepare(op_num)]
            },
        )
    }

    /// The state with one more prepare.
    pub open spec fn with_prepare(self, vote: Vote) -> CoreState {
        let op = self.ops[vote.op_num];
        CoreState {
            ops: self.ops.insert(
                vote.op_num,
                OpState { prepares: op.prepares.insert(vote.replica_id, vote), ..op },
            ),
            ..self
        }
    }

    /// The state with one more commit.
    pub open spec fn with_commit(self, vote: Vote) -> CoreState {
        let op = self.ops[vote.op_num];
        CoreState {
            ops: self.ops.insert(
                vote.op_num,
                OpState { commits: op.commits.insert(vote.replica_id, vote), ..op },
            ),
            ..self
        }
    }

    pub open spec fn handle_prepare(self, vote: Vote) -> CoreStep {
        let next = self.with_prepare(vote);
        (
            next,
            if next.can_commit(vote.op_num) {
                seq![ReplicaCoreAction::Commit(vote.op_num)]
            } else {
                Seq::empty()
            },
        )
    }

    /// Finalizes, in order, every operation that directly follows the finalized
    /// ones and is committed.
    pub open spec fn finalize_ready(self) -> CoreStep
        decreases u64::MAX - self.finalized,
    {
        if self.finalized == u64::MAX || !self.can_finalize((self.finalized + 1) as OpNum) {
            (self, Seq::empty())
        } else {
            let op_num = (self.finalized + 1) as OpNum;
            let rest = CoreState { finalized: op_num, ..self }.finalize_ready();
            (rest.0, seq![ReplicaCoreAction::Finalize(op_num)] + rest.1)
        }
    }

    pub open spec fn handle_commit(self, vote: Vote) -> CoreStep {
        let finalized = self.with_commit(vote).finalize_ready();
        let proposed = finalized.0.propose();
        (proposed.0, finalized.1 + proposed.1)
    }
}

impl ReplicaCore {
    /// What every core keeps to.
    pub open spec fn wf(self) -> bool {
        self.config.wf()
    }

    /// The core of a replica that has just started.
    pub fn new(config: ReplicaCoreConfig) -> (core: Self)
        ensures
            core@ == CoreState::initial(config),
    {
        let core = ReplicaCore {
            config,
            view_num: 0,
            proposed_op_num: 0,
            finalized_op_num: 0,
            ops: HashMap::new(),
            command_pool: CommandPool::close_loop(),
        };
        assert(core@.ops =~= Map::empty());
        core
    }

    // actions
    /// The primary takes a client's command; other replicas ignore it.
    pub fn submit(&mut self, command: Command, context: &mut ReplicaCoreContext)
        requires
            old(self).wf(),
        ensures
            final(self)@ == old(self)@.submit(command).0,
            final(context)@ == old(context)@ + old(self)@.submit(command).1,
    {
        if !self.config.is_primary_of(self.view_num) {
            assert(context@ =~= old(context)@ + Seq::empty());
            return;
        }
        self.command_pool.push(command);
        self.propose(context)
    }

    // event handlers
    /// Records a proposal; other replicas than the primary vote for it.
    pub fn handle_pre_prepare(
        &mut self,
        pre_prepare: PrePrepare,
        commands: Commands,
        context: &mut ReplicaCoreContext,
    )
        requires
            old(self).wf(),
            !old(self)@.ops.contains_key(pre_prepare.op_num),
        ensures
            final(self)@ == old(self)@.handle_pre_prepare(pre_prepare, (*commands)@).0,
            final(context)@ == old(context)@ + old(self)@.handle_pre_prepare(
                pre_prepare,
                (*commands)@,
            ).1,
    {
        let op_num = pre_prepare.op_num;
        let op = Op {
            commands,
            pre_prepare,
            prepare_quorum: HashMap::new(),
            commit_quorum: HashMap::new(),
        };
        self.ops.insert(op_num, op);
        proof {
            assert(op@ =~= OpState::proposed(pre_prepare, (*commands)@));
            assert(self@.ops =~= old(self)@.ops.insert(op_num, op@));
        }
        if !self.config.is_primary_of(self.view_num) {
            context.prepare(op_num);
        }
        assert(context@ =~= old(context)@ + old(self)@.handle_pre_prepare(
            pre_prepare,
            (*commands)@,
        ).1);
    }

    /// Counts a prepare; asks to commit once there are enough.
    pub fn handle_prepare(&mut self, vote: Vote, context: &mut ReplicaCoreContext)
        requires
            old(self).wf(),
            old(self)@.ops.contains_key(vote.op_num),
        ensures
            final(self)@ == old(self)@.handle_prepare(vote).0,
            final(context)@ == old(context)@ + old(self)@.handle_prepare(vote).1,
    {
        let op_num = vote.op_num;
        let mut op = self.ops.remove(&op_num).unwrap();
        op.prepare_quorum.insert(vote.replica_id, vote);
        self.ops.insert(op_num, op);
        assert(self@.ops =~= old(self)@.with_prepare(vote).ops);
        if self.can_commit(op_num) {
            context.commit(op_num);
        }
        assert(context@ =~= old(context)@ + old(self)@.handle_prepare(vote).1);
    }

    /// Counts a commit; finalizes what follows in order, which may make room
    /// for more proposals.
    pub fn handle_commit(&mut self, vote: Vote, context: &mut ReplicaCoreContext)
        requires
            old(self).wf(),
            old(self)@.ops.contains_key(vote.op_num),
        ensures
            final(self)@ == old(self)@.handle_commit(vote).0,
            final(context)@ == old(context)@ + old(self)@.handle_commit(vote).1,
    {
        let op_num = vote.op_num;
        let mut op = self.ops.remove(&op_num).unwrap();
        op.commit_quorum.insert(vote.replica_id, vote);
        self.ops.insert(op_num, op);
        let ghost voted = old(self)@.with_commit(vote);
        assert(self@.ops =~= voted.ops);
        assert(context@ =~= old(context)@ + Seq::empty());
        while self.finalized_op_num < u64::MAX && self.can_finalize(self.finalized_op_num + 1)
            invariant
                self.wf(),
                exists|done: Seq<CoreAction>| #[trigger]
                    (old(context)@ + done) == context@ && voted.finalize_ready() == (
                        self@.finalize_ready().0,
                        done + self@.finalize_ready().1,
                    ),
            decreases u64::MAX - self.finalized_op_num,
        {
            let ghost before = self@;
            let ghost done = choose|done: Seq<CoreAction>| #[trigger]
                (old(context)@ + done) == context@ && voted.finalize_ready() == (
                    self@.finalize_ready().0,
                    done + self@.finalize_ready().1,
                );
            self.finalized_op_num = self.finalized_op_num + 1;
            context.finalize(self.finalized_op_num);
            proof {
                let action: CoreAction = ReplicaCoreAction::Finalize(self.finalized_op_num);
                assert(self@ =~= CoreState { finalized: self.finalized_op_num, ..before });
                assert(before.finalize_ready().1 == seq![action] + self@.finalize_ready().1);
                assert(old(context)@ + done.push(action) =~= context@);
                assert(done + before.finalize_ready().1 =~= done.push(action)
                    + self@.finalize_ready().1);
            }
        }
        let ghost between = context@;
        let ghost finalized = self@;
        self.propose(context);
        proof {
            let done = choose|done: Seq<CoreAction>| #[trigger]
                (old(context)@ + done) == between && voted.finalize_ready() == (
                    finalized.finalize_ready().0,
                    done + finalized.finalize_ready().1,
                );
            assert(finalized.finalize_ready() == (finalized, Seq::<CoreAction>::empty()));
            assert(done + Seq::<CoreAction>::empty() =~= done);
            assert(voted == old(self)@.with_commit(vote));
            assert(context@ =~= old(context)@ + (done + finalized.propose().1));
        }
    }

    // internal helpers
    /// Whether another operation may be proposed in a view.
    pub fn can_propose(&self, view_num: ViewNum) -> (can_propose: bool)
        requires
            self.wf(),
        ensures
            can_propose == (self.config.is_primary(view_num) && self.proposed_op_num
                < self.finalized_op_num + self.config.num_inflight_block),
    {
        self.config.is_primary_of(view_num) && (self.proposed_op_num < self.finalized_op_num
            || self.proposed_op_num - self.finalized_op_num < self.config.num_inflight_block)
    }

    /// Whether enough replicas have prepared an operation.
    pub fn can_commit(&self, op_num: OpNum) -> (can_commit: bool)
        requires
            self.wf(),
        ensures
            can_commit == self@.can_commit(op_num),
    {
        if op_num <= self.finalized_op_num {
            return true;
        }
        match self.ops.get(&op_num) {
            Some(op) => {
                let count: usize = op.prepare_quorum.len();
                let quorum: usize = (self.config.num_replica - self.config.num_faulty_replica) as usize;
                assert(self@.ops[op_num] == op@);
                quorum == 0 || count >= quorum - 1
            },
            None => false,
        }
    }

    /// Whether enough replicas have committed an operation.
    pub fn can_finalize(&self, op_num: OpNum) -> (can_finalize: bool)
        requires
            self.wf(),
        ensures
            can_finalize == self@.can_finalize(op_num),
    {
        if op_num <= self.finalized_op_num {
            return true;
        }
        if !self.can_commit(op_num) {
            return false;
        }
        let op = self.ops.get(&op_num).unwrap();
        assert(self@.ops[op_num] == op@);
        op.commit_quorum.len() >= (self.config.num_replica - self.config.num_faulty_replica) as usize
    }

    /// Proposes batches of the waiting commands as far as is allowed.
    pub fn propose(&mut self, context: &mut ReplicaCoreContext)
        requires
            old(self).wf(),
        ensures
            final(self)@ == old(self)@.propose().0,
            final(context)@ == old(context)@ + old(self)@.propose().1,
        decreases u64::MAX - old(self).proposed_op_num,
    {
        if self.proposed_op_num == u64::MAX || !self.can_propose(self.view_num) {
            assert(context@ =~= old(context)@ + old(self)@.propose().1);
            return;
        }
        match self.command_pool.close_batch(self.config.max_batch_size) {
            None => {
                assert(context@ =~= old(context)@ + old(self)@.propose().1);
            },
            Some(commands) => {
                self.proposed_op_num = self.proposed_op_num + 1;
                context.propose(self.proposed_op_num, commands);
                let ghost next = self@;
                let ghost between = context@;
                self.propose(context);
                assert(between + next.propose().1 =~= old(context)@ + old(self)@.propose().1);
            },
        }
    }
}

} // verus!
