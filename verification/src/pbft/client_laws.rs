//! When a client takes a result.
use super::client::{
    in_order, reporter, reporters_differ, reports_count_once, support, with_report, ClientState,
    Results,
};
use super::message::Reply;
use super::ReplicaId;
use crate::command::ClientSeq;
use crate::seq_map::{entries_are_a_map, has_seq, value_at};
use vstd::prelude::*;

verus! {

/// What each replica has reported last.
pub open spec fn reports(results: Results) -> Map<ReplicaId, Seq<u8>>
    decreases results.len(),
{
    if results.len() == 0 {
        Map::empty()
    } else {
        reports(results.drop_last()).insert(results.last().0, results.last().1)
    }
}

/// The replicas that have reported a result.
pub open spec fn supporters(reports: Map<ReplicaId, Seq<u8>>, result: Seq<u8>) -> Set<ReplicaId> {
    reports.dom().filter(|id: ReplicaId| reports[id] == result)
}

proof fn lemma_reports(results: Results)
    requires
        reporters_differ(results),
    ensures
        reports(results).dom().finite(),
        forall|i: int|
            0 <= i < results.len() ==> reports(results).contains_key((#[trigger] results[i]).0)
                && reports(results)[results[i].0] == results[i].1,
        forall|id: ReplicaId| #[trigger]
            reports(results).contains_key(id) ==> exists|i: int|
                0 <= i < results.len() && (#[trigger] results[i]).0 == id,
    decreases results.len(),
{
    if results.len() > 0 {
        let shorter = results.drop_last();
        assert(reporters_differ(shorter));
        lemma_reports(shorter);
        let all = reports(results);
        let last = results.len() - 1;
        assert forall|i: int| 0 <= i < results.len() implies all.contains_key(
            (#[trigger] results[i]).0,
        ) && all[results[i].0] == results[i].1 by {
            if i < last {
                assert(shorter[i] == results[i]);
                assert(results[i].0 != results[last].0);
            }
        }
        assert forall|id: ReplicaId| #[trigger] all.contains_key(id) implies exists|i: int|
            0 <= i < results.len() && (#[trigger] results[i]).0 == id by {
            if id == results.last().0 {
                assert(results[last].0 == id);
            } else {
                let i = choose|i: int| 0 <= i < shorter.len() && (#[trigger] shorter[i]).0 == id;
                assert(results[i].0 == id);
            }
        }
    }
}

/// The count of a result is the number of replicas that have reported it.
proof fn lemma_support(results: Results, result: Seq<u8>)
    requires
        reporters_differ(results),
    ensures
        support(results, result) == supporters(reports(results), result).len(),
        supporters(reports(results), result).finite(),
    decreases results.len(),
{
    lemma_reports(results);
    let all = supporters(reports(results), result);
    if results.len() == 0 {
        assert(all =~= Set::empty());
    } else {
        let shorter = results.drop_last();
        assert(reporters_differ(shorter));
        lemma_reports(shorter);
        lemma_support(shorter, result);
        let before = supporters(reports(shorter), result);
        let last = results.last();
        assert(!reports(shorter).contains_key(last.0)) by {
            if reports(shorter).contains_key(last.0) {
                let i = choose|i: int|
                    0 <= i < shorter.len() && (#[trigger] shorter[i]).0 == last.0;
                assert(results[i].0 == results[results.len() - 1].0);
            }
        }
        if last.1 == result {
            assert(all =~= before.insert(last.0));
        } else {
            assert(all =~= before);
        }
    }
}

proof fn lemma_reporter(results: Results, id: ReplicaId)
    ensures
        0 <= reporter(results, id) <= results.len(),
        reporter(results, id) < results.len() ==> results[reporter(results, id)].0 == id,
        reporter(results, id) == results.len() ==> forall|i: int|
            0 <= i < results.len() ==> (#[trigger] results[i]).0 != id,
    decreases results.len(),
{
    if results.len() == 0 || results[0].0 == id {
    } else {
        let rest = results.drop_first();
        lemma_reporter(rest, id);
        if reporter(results, id) == results.len() {
            assert forall|i: int| 0 <= i < results.len() implies (#[trigger] results[i]).0
                != id by {
                if i > 0 {
                    assert(results[i] == rest[i - 1]);
                }
            }
        }
    }
}

/// A report takes the place of what its replica has reported before, and changes
/// no other's.
proof fn lemma_with_report(results: Results, id: ReplicaId, result: Seq<u8>)
    requires
        reporters_differ(results),
    ensures
        reports(with_report(results, id, result)) == reports(results).insert(id, result),
{
    let after = with_report(results, id, result);
    reports_count_once(results, id, result);
    lemma_reports(results);
    lemma_reports(after);
    lemma_reporter(results, id);
    let at = reporter(results, id);
    let x = reports(after);
    let y = reports(results).insert(id, result);
    assert forall|other: ReplicaId| x.contains_key(other) <==> y.contains_key(other) by {
        if x.contains_key(other) {
            let i = choose|i: int| 0 <= i < after.len() && (#[trigger] after[i]).0 == other;
            if i != at {
                assert(results[i] == after[i]);
            }
        }
        if reports(results).contains_key(other) {
            let i = choose|i: int| 0 <= i < results.len() && (#[trigger] results[i]).0 == other;
            assert(after[i].0 == other);
        }
        assert(after[at] == (id, result));
    }
    assert forall|other: ReplicaId| x.contains_key(other) implies x[other] == y[other] by {
        let i = choose|i: int| 0 <= i < after.len() && (#[trigger] after[i]).0 == other;
        assert(after[at] == (id, result));
        if i != at {
            assert(results[i] == after[i]);
            assert(after[i].0 != after[at].0) by {
                if i < at {
                    assert(after[i].0 != after[at].0);
                } else {
                    assert(after[at].0 != after[i].0);
                }
            }
        }
    }
    assert(x =~= y);
}

/// Whether the reports for a number are those of `heard`, each replica's last.
pub open spec fn knows_reports(
    state: ClientState,
    seq: ClientSeq,
    heard: Map<ReplicaId, Seq<u8>>,
) -> bool {
    &&& value_at(state.requests, seq) is Some
    &&& reporters_differ(value_at(state.requests, seq)->Some_0)
    &&& reports(value_at(state.requests, seq)->Some_0) == heard
}

/// A command is settled exactly when more replicas than can be faulty have
/// reported one result, each counted by what it reported last. A reply that does
/// not settle its command is kept with those before it, and reports for other
/// commands change nothing.
pub proof fn settled_by_enough_reports(
    state: ClientState,
    seq: ClientSeq,
    heard: Map<ReplicaId, Seq<u8>>,
    reply: Reply,
)
    requires
        in_order(state),
        knows_reports(state, seq, heard),
    ensures
        reply.seq == seq ==> {
            let next = heard.insert(reply.replica_id, reply.result@);
            let enough = supporters(next, reply.result@).len() > state.config.num_faulty_replica;
            &&& state.settles(reply) <==> enough
            &&& enough ==> value_at(state.receive(reply).requests, seq) is None
                && state.receive(reply).view_num == reply.view_num
            &&& !enough ==> knows_reports(state.receive(reply), seq, next)
        },
        reply.seq != seq ==> knows_reports(state.receive(reply), seq, heard),
{
    entries_are_a_map(state.requests, reply.seq, state.reported(reply), seq);
    if reply.seq == seq {
        let results = value_at(state.requests, seq)->Some_0;
        assert(state.reported(reply) == with_report(results, reply.replica_id, reply.result@));
        reports_count_once(results, reply.replica_id, reply.result@);
        lemma_with_report(results, reply.replica_id, reply.result@);
        lemma_support(state.reported(reply), reply.result@);
    }
}

/// A new command is under way, with no reports yet and a number of its own; the
/// reports for other commands stay.
pub proof fn new_command_is_under_way(
    state: ClientState,
    seq: ClientSeq,
    heard: Map<ReplicaId, Seq<u8>>,
    given_up: ClientSeq,
)
    requires
        in_order(state),
        state.seq < u64::MAX,
    ensures
        state.invoke().seq > state.seq,
        knows_reports(state.invoke(), state.invoke().seq, Map::empty()),
        knows_reports(state, seq, heard) ==> {
            &&& seq != state.invoke().seq
            &&& knows_reports(state.invoke(), seq, heard)
            &&& given_up != seq ==> knows_reports(state.give_up(given_up), seq, heard)
        },
        value_at(state.give_up(given_up).requests, given_up) is None,
{
    let next = (state.seq + 1) as ClientSeq;
    entries_are_a_map(state.requests, next, Results::empty(), next);
    entries_are_a_map(state.requests, next, Results::empty(), seq);
    entries_are_a_map(state.requests, given_up, Results::empty(), seq);
    entries_are_a_map(state.requests, given_up, Results::empty(), given_up);
    if knows_reports(state, seq, heard) {
        assert(has_seq(state.requests, seq));
    }
}

/// A client sends its commands to the replica that the replicas, too, take for the
/// primary of the view.
pub proof fn commands_go_to_primary(
    state: ClientState,
    config: super::replica_core::ReplicaCoreConfig,
)
    requires
        config.num_replica == state.config.num_replica,
        config.num_replica > 0,
    ensures
        state.primary() == config.primary_of_spec(state.view_num),
        0 <= state.primary() < config.num_replica,
{
    vstd::arithmetic::div_mod::lemma_mod_bound(
        state.view_num as int,
        config.num_replica as int,
    );
}

} // verus!
