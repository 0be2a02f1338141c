//! A client that waits for enough replicas to agree on a result.
use super::message::Reply;
use super::{ReplicaId, ViewNum};
use crate::command::{ClientId, ClientSeq, Command};
use crate::seq_map::{
    has_seq, other_numbers_stay, rank, rank_splits, with_seq, without_seq, SeqMap,
};
use crate::shared::{copy_bytes, same_bytes};
use crate::state::Duration;
use vstd::prelude::*;

verus! {

/// The parameters of a client.
#[derive(Debug, Clone, Copy)]
pub struct ClientConfig {
    pub num_replica: ReplicaId,
    pub num_faulty_replica: ReplicaId,
    /// Whether a command is sent only after the result of the one before.
    pub close_loop: bool,
}

/// Commands that are sent one after the other, by several clients at once.
#[derive(Debug, Clone, Copy)]
pub struct CloseLoopWorkloadConfig {
    pub concurrency: usize,
}

/// Commands that are sent at fixed intervals.
#[derive(Debug, Clone, Copy)]
pub struct OpenLoopWorkloadConfig {
    pub interval: Duration,
}

/// How commands are sent.
#[derive(Debug, Clone, Copy)]
pub enum WorkloadConfig {
    CloseLoop(CloseLoopWorkloadConfig),
    OpenLoop(OpenLoopWorkloadConfig),
}

/// The parameters of a workload and its clients.
#[derive(Debug, Clone, Copy)]
pub struct ClientWorkloadConfig {
    pub duration: Duration,
    pub workload: WorkloadConfig,
    pub num_replica: ReplicaId,
    pub num_faulty_replica: ReplicaId,
    pub request_timeout: Duration,
}

impl ClientWorkloadConfig {
    /// The parameters of a client.
    pub fn client(&self) -> (config: ClientConfig)
        ensures
            config.num_replica == self.num_replica,
            config.num_faulty_replica == self.num_faulty_replica,
            config.close_loop == (self.workload is CloseLoop),
    {
        ClientConfig {
            num_replica: self.num_replica,
            num_faulty_replica: self.num_faulty_replica,
            close_loop: matches!(self.workload, WorkloadConfig::CloseLoop(_)),
        }
    }
}

/// Why a client cannot go on.
#[derive(Debug, Clone, Copy, PartialEq, Eq)]
pub enum ClientError {
    /// The command before has no result yet.
    Busy,
    /// There are no numbers left.
    Exhausted,
    /// There was no result in time.
    Timeout,
}

/// The results that replicas have reported for one command.
pub struct RequestState {
    pub results: Vec<(ReplicaId, Vec<u8>)>,
}

/// Results by the replicas that have reported them, in the order of their first
/// reports.
pub type Results = Seq<(ReplicaId, Seq<u8>)>;

impl View for RequestState {
    type V = Results;

    open spec fn view(&self) -> Results {
        self.results@.map_values(|result: (ReplicaId, Vec<u8>)| (result.0, result.1@))
    }
}

/// The position of a replica, or the number of results if it has reported none.
pub open spec fn reporter(results: Results, id: ReplicaId) -> int
    decreases results.len(),
{
    if results.len() == 0 || results[0].0 == id {
        0
    } else {
        1 + reporter(results.drop_first(), id)
    }
}

/// The results with one more report; a replica's later report takes the place
/// of its earlier one.
pub open spec fn with_report(results: Results, id: ReplicaId, result: Seq<u8>) -> Results {
    let i = reporter(results, id);
    if i < results.len() {
        results.update(i, (id, result))
    } else {
        results.push((id, result))
    }
}

/// How many replicas have reported a result.
pub open spec fn support(results: Results, result: Seq<u8>) -> nat
    decreases results.len(),
{
    if results.len() == 0 {
        0
    } else {
        support(results.drop_last(), result) + if results.last().1 == result {
            1nat
        } else {
            0
        }
    }
}

/// A client.
pub struct Client {
    id: ClientId,
    config: ClientConfig,
    seq: ClientSeq,
    view_num: ViewNum,
    request_states: SeqMap<RequestState>,
}

/// The mathematical content of a [`Client`].
#[verifier::ext_equal]
pub struct ClientState {
    pub id: ClientId,
    pub config: ClientConfig,
    /// The number of the last command.
    pub seq: ClientSeq,
    /// The view that the last result came from.
    pub view_num: ViewNum,
    /// The results reported for the commands under way, by their numbers.
    pub requests: Seq<(u64, Results)>,
}

/// The content of the commands under way.
pub open spec fn requests_view(requests: Seq<(u64, RequestState)>) -> Seq<(u64, Results)> {
    requests.map_values(|entry: (u64, RequestState)| (entry.0, entry.1@))
}

impl View for Client {
    type V = ClientState;

    closed spec fn view(&self) -> ClientState {
        ClientState {
            id: self.id,
            config: self.config,
            seq: self.seq,
            view_num: self.view_num,
            requests: requests_view(self.request_states@),
        }
    }
}

impl ClientState {
    pub open spec fn initial(id: ClientId, config: ClientConfig) -> ClientState {
        ClientState { id, config, seq: 0, view_num: 0, requests: Seq::empty() }
    }

    /// Why no command can be sent, if that is so.
    pub open spec fn refusal(self) -> Option<ClientError> {
        if self.config.close_loop && self.requests.len() > 0 {
            Some(ClientError::Busy)
        } else if self.seq == u64::MAX {
            Some(ClientError::Exhausted)
        } else {
            None
        }
    }

    /// The replica that commands are sent to.
    pub open spec fn primary(self) -> int {
        self.view_num as int % self.config.num_replica as int
    }

    /// Takes a command.
    pub open spec fn invoke(self) -> ClientState {
        let seq = (self.seq + 1) as ClientSeq;
        ClientState { seq, requests: with_seq(self.requests, seq, Seq::empty()), ..self }
    }

    /// The reports for a command, with one more.
    pub open spec fn reported(self, reply: Reply) -> Results {
        with_report(
            self.requests[rank(self.requests, reply.seq)].1,
            reply.replica_id,
            reply.result@,
        )
    }

    /// Whether a reply settles its command: more replicas than can be faulty
    /// have reported the same result.
    pub open spec fn settles(self, reply: Reply) -> bool {
        has_seq(self.requests, reply.seq) && support(self.reported(reply), reply.result@)
            > self.config.num_faulty_replica
    }

    /// Does not wait for a command any more.
    pub open spec fn give_up(self, seq: ClientSeq) -> ClientState {
        ClientState { requests: without_seq(self.requests, seq), ..self }
    }

    /// Takes a reply. One that nothing waits for is ignored.
    pub open spec fn receive(self, reply: Reply) -> ClientState {
        if !has_seq(self.requests, reply.seq) {
            self
        } else if self.settles(reply) {
            ClientState {
                view_num: reply.view_num,
                requests: without_seq(self.requests, reply.seq),
                ..self
            }
        } else {
            ClientState {
                requests: with_seq(self.requests, reply.seq, self.reported(reply)),
                ..self
            }
        }
    }
}

proof fn lemma_view_rank(requests: Seq<(u64, RequestState)>, seq: u64)
    ensures
        rank(requests_view(requests), seq) == rank(requests, seq),
    decreases requests.len(),
{
    if requests.len() == 0 || seq <= requests[0].0 {
    } else {
        lemma_view_rank(requests.drop_first(), seq);
        assert(requests_view(requests).drop_first() =~= requests_view(requests.drop_first()));
    }
}

impl RequestState {
    /// Adds a report.
    fn report(&mut self, id: ReplicaId, result: &[u8])
        ensures
            final(self)@ == with_report(old(self)@, id, result@),
    {
        let ghost before = self@;
        let mut i: usize = 0;
        assert(before.subrange(0, before.len() as int) =~= before);
        while i < self.results.len() && self.results[i].0 != id
            invariant
                i <= self.results@.len(),
                before == self@,
                reporter(before, id) == i + reporter(
                    before.subrange(i as int, before.len() as int),
                    id,
                ),
            decreases self.results@.len() - i,
        {
            let ghost rest = before.subrange(i as int, before.len() as int);
            assert(rest[0] == before[i as int]);
            assert(rest.drop_first() =~= before.subrange(i + 1, before.len() as int));
            i += 1;
        }
        if i < self.results.len() {
            assert(before.subrange(i as int, before.len() as int)[0] == before[i as int]);
            self.results[i] = (id, copy_bytes(result));
        } else {
            self.results.push((id, copy_bytes(result)));
        }
        assert(self@ =~= with_report(before, id, result@));
    }

    /// How many replicas have reported a result.
    fn count(&self, result: &[u8]) -> (count: usize)
        ensures
            count == support(self@, result@),
    {
        let mut count: usize = 0;
        let mut i: usize = 0;
        while i < self.results.len()
            invariant
                i <= self.results@.len(),
                count <= i,
                count == support(self@.subrange(0, i as int), result@),
            decreases self.results@.len() - i,
        {
            proof {
                assert(self@.subrange(0, i + 1).drop_last() =~= self@.subrange(0, i as int));
                assert(self@.subrange(0, i + 1).last() == self@[i as int]);
            }
            if same_bytes(self.results[i].1.as_slice(), result) {
                count += 1;
            }
            i += 1;
        }
        assert(self@.subrange(0, i as int) =~= self@);
        count
    }
}

impl Client {
    /// What every client keeps to.
    pub closed spec fn wf(&self) -> bool {
        self.request_states.wf() && self.config.num_replica > 0 && in_order(self@)
    }

    /// A client is in order.
    pub proof fn wf_in_order(&self)
        requires
            self.wf(),
        ensures
            in_order(self@),
    {
    }

    /// A client that has sent nothing yet.
    pub fn new(id: ClientId, config: ClientConfig) -> (client: Self)
        requires
            config.num_replica > 0,
        ensures
            client.wf(),
            client@ == ClientState::initial(id, config),
    {
        let client = Client { id, config, seq: 0, view_num: 0, request_states: SeqMap::new() };
        assert(client@.requests =~= Seq::empty());
        client
    }

    /// Takes an operation, and gives the command to be sent and the replica to
    /// send it to.
    pub fn invoke(&mut self, op: Vec<u8>) -> (sent: Result<(ReplicaId, Command), ClientError>)
        requires
            old(self).wf(),
        ensures
            final(self).wf(),
            match sent {
                Ok((primary, command)) => {
                    &&& old(self)@.refusal() is None
                    &&& primary == old(self)@.primary()
                    &&& command == Command {
                        client_id: old(self)@.id,
                        seq: (old(self)@.seq + 1) as ClientSeq,
                        op,
                    }
                    &&& final(self)@ == old(self)@.invoke()
                },
                Err(err) => {
                    &&& old(self)@.refusal() == Some(err)
                    &&& final(self)@ == old(self)@
                },
            },
    {
        let ghost before = self@;
        assert(before.requests.len() == self.request_states@.len());
        if self.config.close_loop && self.request_states.len() > 0 {
            return Err(ClientError::Busy);
        }
        if self.seq == u64::MAX {
            return Err(ClientError::Exhausted);
        }
        self.seq = self.seq + 1;
        let command = Command { client_id: self.id, seq: self.seq, op };
        let primary: u64 = self.view_num % self.config.num_replica as u64;
        let ghost requests = self.request_states@;
        proof {
            self.request_states.in_order();
            rank_splits(requests, self.seq);
            lemma_view_rank(requests, self.seq);
        }
        let state = RequestState { results: Vec::new() };
        assert(state@ =~= Seq::empty());
        self.request_states.insert(self.seq, state);
        proof {
            assert(self@.requests =~= with_seq(before.requests, self.seq, Seq::empty()));
            assert(self@ =~= before.invoke());
            lemma_stays_in_order(before, 0, Seq::empty());
        }
        Ok((primary as ReplicaId, command))
    }

    /// Takes a reply, and gives the result once it is settled.
    pub fn receive(&mut self, reply: Reply) -> (result: Option<Vec<u8>>)
        requires
            old(self).wf(),
        ensures
            final(self).wf(),
            final(self)@ == old(self)@.receive(reply),
            result is Some == old(self)@.settles(reply),
            result matches Some(result) ==> result@ == reply.result@,
    {
        let ghost before = self@;
        let ghost requests = self.request_states@;
        proof {
            self.request_states.in_order();
            rank_splits(requests, reply.seq);
            lemma_view_rank(requests, reply.seq);
            answered_once(before, reply, 0, 0);
        }
        match self.request_states.remove(reply.seq) {
            None => {
                assert(self@ =~= before);
                None
            },
            Some(state) => {
                let mut state = state;
                let ghost at = rank(requests, reply.seq);
                assert(before.requests[at].1 == state@);
                let ghost removed = self.request_states@;
                assert(requests_view(removed) =~= without_seq(before.requests, reply.seq));
                state.report(reply.replica_id, reply.result.as_slice());
                if state.count(reply.result.as_slice()) > self.config.num_faulty_replica as usize {
                    self.view_num = reply.view_num;
                    assert(self@ =~= before.receive(reply));
                    return Some(reply.result);
                }
                proof {
                    self.request_states.in_order();
                    rank_splits(removed, reply.seq);
                    lemma_same_rank(requests, at);
                }
                self.request_states.insert(reply.seq, state);
                proof {
                    assert(self@.requests =~= with_seq(
                        before.requests,
                        reply.seq,
                        before.reported(reply),
                    ));
                    assert(self@ =~= before.receive(reply));
                }
                None
            },
        }
    }

    /// Gives up a command after its time, unless results are waited for one
    /// after the other.
    pub fn timeout(&mut self, seq: ClientSeq) -> (result: Result<(), ClientError>)
        requires
            old(self).wf(),
        ensures
            final(self).wf(),
            if old(self)@.config.close_loop {
                result == Err::<(), ClientError>(ClientError::Timeout) && final(self)@ == old(self)@
            } else {
                result is Ok && final(self)@ == old(self)@.give_up(seq)
            },
    {
        let ghost before = self@;
        if self.config.close_loop {
            return Err(ClientError::Timeout);
        }
        let ghost requests = self.request_states@;
        proof {
            self.request_states.in_order();
            rank_splits(requests, seq);
            lemma_view_rank(requests, seq);
        }
        let _ = self.request_states.remove(seq);
        proof {
            assert(self@.requests =~= without_seq(before.requests, seq));
            assert(self@ =~= before.give_up(seq));
            lemma_stays_in_order(before, seq, Seq::empty());
        }
        Ok(())
    }
}

/// An entry that was taken out goes back to its place.
proof fn lemma_same_rank(requests: Seq<(u64, RequestState)>, at: int)
    requires
        crate::seq_map::ascending(requests),
        0 <= at < requests.len(),
    ensures
        rank(requests.remove(at), requests[at].0) == at,
        !has_seq(requests.remove(at), requests[at].0),
{
    let seq = requests[at].0;
    let removed = requests.remove(at);
    assert(crate::seq_map::ascending(removed));
    rank_splits(removed, seq);
    let i = rank(removed, seq);
    if i < at {
        assert(removed[i] == requests[i]);
    }
    if i > at {
        assert(removed[at] == requests[at + 1]);
    }
    if i < removed.len() {
        assert(removed[i] == requests[i + 1]);
    }
}

/// Whether a client is in order: the commands under way are in the order of
/// their numbers, and have numbers that were given out.
pub open spec fn in_order(state: ClientState) -> bool {
    &&& crate::seq_map::ascending(state.requests)
    &&& forall|seq: ClientSeq| #[trigger] has_seq(state.requests, seq) ==> seq <= state.seq
}

/// A client that has sent nothing yet is in order.
pub proof fn initially_in_order(id: ClientId, config: ClientConfig)
    ensures
        in_order(ClientState::initial(id, config)),
{
}

/// Reports for a command under way, and its end, leave a client in order.
proof fn lemma_stays_in_order(state: ClientState, seq: ClientSeq, results: Results)
    requires
        in_order(state),
    ensures
        in_order(state.give_up(seq)),
        seq <= state.seq ==> in_order(
            ClientState { requests: with_seq(state.requests, seq, results), ..state },
        ),
        state.seq < u64::MAX ==> in_order(state.invoke()),
        forall|other: ClientSeq| #[trigger]
            has_seq(without_seq(state.requests, seq), other) ==> has_seq(state.requests, other)
                && other != seq,
        forall|other: ClientSeq| #[trigger]
            has_seq(with_seq(state.requests, seq, results), other) ==> has_seq(
                state.requests,
                other,
            ) || other == seq,
        forall|other: ClientSeq| #[trigger]
            has_seq(state.invoke().requests, other) ==> has_seq(state.requests, other) || other
                == (state.seq + 1) as ClientSeq,
{
    let next = (state.seq + 1) as ClientSeq;
    let none: Results = Seq::empty();
    other_numbers_stay(state.requests, seq, results, seq);
    other_numbers_stay(state.requests, next, none, next);
    assert forall|other: ClientSeq| #[trigger]
        has_seq(without_seq(state.requests, seq), other) implies has_seq(state.requests, other)
        && other != seq by {
        other_numbers_stay(state.requests, seq, results, other);
    }
    assert forall|other: ClientSeq| #[trigger]
        has_seq(with_seq(state.requests, seq, results), other) implies has_seq(
        state.requests,
        other,
    ) || other == seq by {
        other_numbers_stay(state.requests, seq, results, other);
    }
    assert forall|other: ClientSeq| #[trigger]
        has_seq(state.invoke().requests, other) implies has_seq(state.requests, other) || other
        == next by {
        other_numbers_stay(state.requests, next, none, other);
    }
}

/// A command is answered once: a reply gives a result only for a command under
/// way, which is then not under way any more; and a number that was given out
/// and is not under way never is again, whatever is sent, received or given up.
/// And a client stays in order.
pub proof fn answered_once(state: ClientState, reply: Reply, given_up: ClientSeq, seq: ClientSeq)
    requires
        in_order(state),
    ensures
        in_order(state.receive(reply)),
        state.seq < u64::MAX ==> in_order(state.invoke()),
        in_order(state.give_up(given_up)),
        state.settles(reply) ==> has_seq(state.requests, reply.seq) && !has_seq(
            state.receive(reply).requests,
            reply.seq,
        ),
        seq <= state.seq && !has_seq(state.requests, seq) ==> {
            &&& !has_seq(state.receive(reply).requests, seq)
            &&& state.seq < u64::MAX ==> !has_seq(state.invoke().requests, seq)
            &&& !has_seq(state.give_up(given_up).requests, seq)
            &&& reply.seq == seq ==> !state.settles(reply)
        },
{
    lemma_stays_in_order(state, given_up, Seq::empty());
    lemma_stays_in_order(state, reply.seq, state.reported(reply));
    let settled = state.give_up(reply.seq);
    let moved = ClientState { view_num: reply.view_num, ..settled };
    assert(in_order(settled));
    assert(moved.requests == settled.requests);
}

/// Whether no replica is counted twice.
pub open spec fn reporters_differ(results: Results) -> bool {
    forall|i: int, j: int|
        0 <= i < j < results.len() ==> (#[trigger] results[i]).0 != (#[trigger] results[j]).0
}

/// However often a replica reports, it is counted once.
pub proof fn reports_count_once(results: Results, id: ReplicaId, result: Seq<u8>)
    requires
        reporters_differ(results),
    ensures
        reporters_differ(with_report(results, id, result)),
{
    lemma_reporter(results, id);
}

proof fn lemma_reporter(results: Results, id: ReplicaId)
    ensures
        0 <= reporter(results, id) <= results.len(),
        forall|i: int| 0 <= i < reporter(results, id) ==> (#[trigger] results[i]).0 != id,
        reporter(results, id) < results.len() ==> results[reporter(results, id)].0 == id,
    decreases results.len(),
{
    if results.len() == 0 || results[0].0 == id {
    } else {
        let rest = results.drop_first();
        lemma_reporter(rest, id);
        assert forall|i: int| 0 <= i < reporter(results, id) implies (#[trigger] results[i]).0
            != id by {
            if i > 0 {
                assert(results[i] == rest[i - 1]);
            }
        }
    }
}

/// A settled result comes from a correct replica: if at most `f` replicas are
/// faulty and more than `f` different ones have reported a result, one of them
/// is correct.
pub proof fn settled_by_correct_replica(
    results: Results,
    result: Seq<u8>,
    faulty: Set<ReplicaId>,
    num_faulty: nat,
)
    requires
        reporters_differ(results),
        faulty.finite(),
        faulty.len() <= num_faulty,
        support(results, result) > num_faulty,
    ensures
        exists|i: int|
            0 <= i < results.len() && (#[trigger] results[i]).1 == result && !faulty.contains(
                results[i].0,
            ),
{
    if forall|i: int|
        0 <= i < results.len() && (#[trigger] results[i]).1 == result ==> faulty.contains(
            results[i].0,
        ) {
        lemma_support_bounded(results, result, faulty);
    }
}

proof fn lemma_support_bounded(results: Results, result: Seq<u8>, faulty: Set<ReplicaId>)
    requires
        reporters_differ(results),
        faulty.finite(),
        forall|i: int|
            0 <= i < results.len() && (#[trigger] results[i]).1 == result ==> faulty.contains(
                results[i].0,
            ),
    ensures
        support(results, result) <= faulty.len(),
    decreases results.len(),
{
    if results.len() > 0 {
        let shorter = results.drop_last();
        let last = results.last();
        assert(results[results.len() - 1] == last);
        if last.1 == result {
            let fewer = faulty.remove(last.0);
            assert(faulty.contains(last.0));
            assert forall|i: int|
                0 <= i < shorter.len() && (#[trigger] shorter[i]).1 == result implies fewer.contains(
                shorter[i].0,
            ) by {
                assert(results[i] == shorter[i]);
                assert(results[i].0 != results[results.len() - 1].0);
            }
            lemma_support_bounded(shorter, result, fewer);
        } else {
            assert forall|i: int|
                0 <= i < shorter.len() && (#[trigger] shorter[i]).1
                    == result implies faulty.contains(shorter[i].0) by {
                assert(results[i] == shorter[i]);
            }
            lemma_support_bounded(shorter, result, faulty);
        }
    }
}

} // verus!
