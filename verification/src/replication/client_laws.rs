//! What holds of a client over any sequence of calls.
use super::unreplicated::{ClientSession, UnreplicatedClientConfig};
use super::Dest;
use crate::seq_map::{
    ascending, entries_are_a_map, has_seq, has_seq_of_entry, other_numbers_stay, value_at,
    without_seq,
};
use crate::service::{ClientId, ClientSeq, Reply, Request};
use crate::state::{Action, Duration};
use vstd::prelude::*;

verus! {

/// How far a request has come.
pub enum Stage {
    /// Its number is not given out yet.
    Unused,
    /// It is not sent yet.
    Waiting,
    /// It is sent, and its result is waited for.
    UnderWay,
    /// It has its result, or was given up.
    Done,
}

/// Whether a request is not sent yet.
pub open spec fn is_waiting<Op>(to_send: Seq<(ClientSeq, Op)>, seq: ClientSeq) -> bool {
    exists|i: int| 0 <= i < to_send.len() && (#[trigger] to_send[i]).0 == seq
}

/// How far a request has come in a session.
pub open spec fn stage<Op, Res>(session: ClientSession<Op, Res>, seq: ClientSeq) -> Stage {
    if seq > session.seq || seq == 0 {
        Stage::Unused
    } else if is_waiting(session.to_send, seq) {
        Stage::Waiting
    } else if has_seq(session.submits, seq) {
        Stage::UnderWay
    } else {
        Stage::Done
    }
}

/// Whether every request has one stage: the numbers that are given out are
/// waiting, under way, or neither, and none is twice in a list.
pub open spec fn in_stages<Op, Res>(session: ClientSession<Op, Res>) -> bool {
    &&& ascending(session.submits)
    &&& forall|i: int|
        0 <= i < session.to_send.len() ==> 0 < (#[trigger] session.to_send[i]).0 <= session.seq
            && !has_seq(session.submits, session.to_send[i].0)
    &&& forall|i: int, j: int|
        0 <= i < j < session.to_send.len() ==> (#[trigger] session.to_send[i]).0 != (
        #[trigger] session.to_send[j]).0
    &&& forall|seq: ClientSeq| #[trigger]
        has_seq(session.submits, seq) ==> 0 < seq <= session.seq
}

/// Whether stages only move on: from unused to waiting, from there to under
/// way, and from there to done.
pub open spec fn stage_moves(before: Stage, after: Stage) -> bool {
    match before {
        Stage::Unused => after is Unused || after is Waiting,
        Stage::Waiting => after is Waiting || after is UnderWay,
        Stage::UnderWay => after is UnderWay || after is Done,
        Stage::Done => after is Done,
    }
}

proof fn lemma_strays<Op, Res>(session: ClientSession<Op, Res>)
    ensures
        ({
            let looked = session.without_strays();
            &&& looked == ClientSession { received: looked.received, ..session }
            &&& looked.received.len() <= session.received.len()
            &&& looked.received == session.received.subrange(0, looked.received.len() as int)
            &&& looked.received.len() > 0 ==> has_seq(
                session.submits,
                looked.received.last().client_seq,
            )
        }),
    decreases session.received.len(),
{
    if session.received.len() == 0 || has_seq(
        session.submits,
        session.received.last().client_seq,
    ) {
        assert(session.received.subrange(0, session.received.len() as int) =~= session.received);
    } else {
        let shorter = ClientSession { received: session.received.drop_last(), ..session };
        lemma_strays(shorter);
        let looked = session.without_strays();
        assert(shorter.received.subrange(0, looked.received.len() as int)
            =~= session.received.subrange(0, looked.received.len() as int));
    }
}

/// Giving up requests takes them out.
proof fn lemma_expired<Op, Res>(session: ClientSession<Op, Res>, now: Duration, seq: ClientSeq)
    requires
        ascending(session.submits),
    ensures
        ({
            let after = session.expired(now);
            &&& after == ClientSession { submits: after.submits, ..session }
            &&& ascending(after.submits)
            &&& has_seq(after.submits, seq) ==> has_seq(session.submits, seq)
        }),
    decreases session.submits.len(),
{
    if session.submits.len() > 0 && session.submits[0].1.nanos <= now.nanos {
        let rest = session.submits.drop_first();
        assert forall|i: int, j: int| 0 <= i < j < rest.len() implies (#[trigger] rest[i]).0 < (
        #[trigger] rest[j]).0 by {
            assert(rest[i] == session.submits[i + 1] && rest[j] == session.submits[j + 1]);
        }
        lemma_expired(ClientSession { submits: rest, ..session }, now, seq);
        has_seq_of_entry(rest, seq);
        has_seq_of_entry(session.submits, seq);
        if has_seq(rest, seq) {
            let i = choose|i: int| 0 <= i < rest.len() && (#[trigger] rest[i]).0 == seq;
            assert(session.submits[i + 1].0 == seq);
        }
    }
}

/// A call of a client.
pub enum Call<Op, Res> {
    Submit(Op),
    Receive(Reply<Res, ()>),
    Proceed(Duration),
}

/// What a call makes of a session.
pub open spec fn after_call<Op, Res>(
    session: ClientSession<Op, Res>,
    call: Call<Op, Res>,
) -> ClientSession<Op, Res> {
    match call {
        Call::Submit(op) => session.submit(op).0,
        Call::Receive(reply) => ClientSession { received: session.received.push(reply), ..session },
        Call::Proceed(now) => session.proceed(now).0,
    }
}

/// The number that a call sends a request under.
pub open spec fn sends<Op, Res>(session: ClientSession<Op, Res>, call: Call<Op, Res>) -> Option<
    ClientSeq,
> {
    match call {
        Call::Proceed(now) => match session.proceed(now).1 {
            Action::Perform((_, request)) => Some(request.client_seq),
            _ => None,
        },
        _ => None,
    }
}

/// The number that a call hands out a result for, and the result.
pub open spec fn answers<Op, Res>(session: ClientSession<Op, Res>, call: Call<Op, Res>) -> Option<
    (ClientSeq, Res),
> {
    match call {
        Call::Proceed(now) => match session.proceed(now).1 {
            Action::Output(output) => Some(output),
            _ => None,
        },
        _ => None,
    }
}

/// A request moves on through its stages: whatever is called, it is sent exactly
/// when it goes under way, and gets a result only when it is under way, which
/// is then done. Numbers are given out one after the other, and there is nothing
/// to do only if nothing waits to be sent.
pub proof fn requests_move_on<Op, Res>(
    session: ClientSession<Op, Res>,
    call: Call<Op, Res>,
    seq: ClientSeq,
)
    requires
        in_stages(session),
    ensures
        ({
            let after = after_call(session, call);
            &&& in_stages(after)
            &&& stage_moves(stage(session, seq), stage(after, seq))
            &&& sends(session, call) == Some(seq) <==> stage(session, seq) is Waiting && stage(
                after,
                seq,
            ) is UnderWay
            &&& (exists|res: Res| answers(session, call) == Some((seq, res))) ==> stage(
                session,
                seq,
            ) is UnderWay && stage(after, seq) is Done
            &&& call matches Call::Submit(op) ==> session.seq < u64::MAX ==> session.submit(op).1
                == session.seq + 1 && after.seq == session.seq + 1
            &&& call matches Call::Proceed(now) ==> (session.proceed(now).1 is Pending
                ==> session.to_send.len() == 0)
        }),
{
    let after = after_call(session, call);
    match call {
        Call::Submit(op) => {
            if session.seq < u64::MAX {
                let new = (session.seq + 1) as ClientSeq;
                assert(after.to_send == session.to_send.push((new, op)));
                assert(has_seq(session.submits, new) ==> new <= session.seq);
                assert(after.to_send[session.to_send.len() as int].0 == new);
                assert(is_waiting(after.to_send, seq) == (is_waiting(session.to_send, seq) || seq
                    == new)) by {
                    if is_waiting(session.to_send, seq) {
                        let i = choose|i: int|
                            0 <= i < session.to_send.len() && (#[trigger] session.to_send[i]).0
                                == seq;
                        assert(after.to_send[i].0 == seq);
                    }
                    if is_waiting(after.to_send, seq) && seq != new {
                        let i = choose|i: int|
                            0 <= i < after.to_send.len() && (#[trigger] after.to_send[i]).0 == seq;
                        assert(session.to_send[i].0 == seq);
                    }
                }
            }
        },
        Call::Receive(_) => {},
        Call::Proceed(now) => {
            lemma_strays(session);
            let looked = session.without_strays();
            if looked.received.len() > 0 {
                let reply = looked.received.last();
                assert forall|other: ClientSeq| #[trigger] has_seq(after.submits, other) == (has_seq(
                    session.submits,
                    other,
                ) && other != reply.client_seq) by {
                    other_numbers_stay(session.submits, reply.client_seq, now, other);
                }
                other_numbers_stay(session.submits, reply.client_seq, now, seq);
                if is_waiting(session.to_send, reply.client_seq) {
                    let i = choose|i: int|
                        0 <= i < session.to_send.len() && (#[trigger] session.to_send[i]).0
                            == reply.client_seq;
                    assert(!has_seq(session.submits, session.to_send[i].0));
                }
            } else if session.to_send.len() > 0 {
                let (sent, op) = session.to_send.last();
                let last = session.to_send.len() - 1;
                assert(session.to_send[last].0 == sent);
                let at = now.plus_spec(session.timeout);
                assert forall|other: ClientSeq| #[trigger] has_seq(after.submits, other) == (has_seq(
                    session.submits,
                    other,
                ) || other == sent) by {
                    other_numbers_stay(session.submits, sent, at, other);
                }
                other_numbers_stay(session.submits, sent, at, seq);
                assert(is_waiting(after.to_send, seq) == (is_waiting(session.to_send, seq) && seq
                    != sent)) by {
                    if is_waiting(session.to_send, seq) && seq != sent {
                        let i = choose|i: int|
                            0 <= i < session.to_send.len() && (#[trigger] session.to_send[i]).0
                                == seq;
                        assert(after.to_send[i].0 == seq);
                    }
                    if is_waiting(after.to_send, seq) {
                        let i = choose|i: int|
                            0 <= i < after.to_send.len() && (#[trigger] after.to_send[i]).0 == seq;
                        assert(session.to_send[i].0 == seq);
                        assert(session.to_send[i].0 != session.to_send[last].0);
                    }
                }
                assert forall|i: int| 0 <= i < after.to_send.len() implies 0 < (
                #[trigger] after.to_send[i]).0 <= after.seq && !has_seq(
                    after.submits,
                    after.to_send[i].0,
                ) by {
                    assert(session.to_send[i].0 != session.to_send[last].0);
                }
            } else {
                lemma_expired(looked, now, seq);
                assert forall|other: ClientSeq| #[trigger]
                    has_seq(after.submits, other) implies 0 < other <= after.seq by {
                    lemma_expired(looked, now, other);
                    assert(has_seq(session.submits, other));
                }
            }
        },
    }
}

/// What becomes of a session over some calls.
pub open spec fn after_calls<Op, Res>(
    session: ClientSession<Op, Res>,
    calls: Seq<Call<Op, Res>>,
) -> ClientSession<Op, Res>
    decreases calls.len(),
{
    if calls.len() == 0 {
        session
    } else {
        after_call(after_calls(session, calls.drop_last()), calls.last())
    }
}

/// The session before a call.
pub open spec fn before_call<Op, Res>(
    session: ClientSession<Op, Res>,
    calls: Seq<Call<Op, Res>>,
    i: int,
) -> ClientSession<Op, Res> {
    after_calls(session, calls.subrange(0, i))
}

proof fn lemma_next<Op, Res>(session: ClientSession<Op, Res>, calls: Seq<Call<Op, Res>>, i: int)
    requires
        0 <= i < calls.len(),
    ensures
        before_call(session, calls, i + 1) == after_call(before_call(session, calls, i), calls[i]),
{
    assert(calls.subrange(0, i + 1).drop_last() =~= calls.subrange(0, i));
    assert(calls.subrange(0, i + 1).last() == calls[i]);
}

proof fn lemma_in_stages<Op, Res>(session: ClientSession<Op, Res>, calls: Seq<Call<Op, Res>>, i: int)
    requires
        in_stages(session),
        0 <= i <= calls.len(),
    ensures
        in_stages(before_call(session, calls, i)),
    decreases i,
{
    if i > 0 {
        lemma_in_stages(session, calls, i - 1);
        lemma_next(session, calls, i - 1);
        requests_move_on(before_call(session, calls, i - 1), calls[i - 1], 0);
    } else {
        assert(calls.subrange(0, 0) =~= Seq::empty());
    }
}

proof fn lemma_stage_later<Op, Res>(
    session: ClientSession<Op, Res>,
    calls: Seq<Call<Op, Res>>,
    i: int,
    j: int,
    seq: ClientSeq,
)
    requires
        in_stages(session),
        0 <= i <= j <= calls.len(),
    ensures
        ({
            let before = stage(before_call(session, calls, i), seq);
            let after = stage(before_call(session, calls, j), seq);
            &&& before is Done ==> after is Done
            &&& before is UnderWay ==> after is UnderWay || after is Done
        }),
    decreases j - i,
{
    if i < j {
        lemma_stage_later(session, calls, i, j - 1, seq);
        lemma_in_stages(session, calls, j - 1);
        lemma_next(session, calls, j - 1);
        requests_move_on(before_call(session, calls, j - 1), calls[j - 1], seq);
    }
}

/// Over any sequence of calls, each number is sent at most once, and gets at most
/// one result, after it was sent.
pub proof fn sent_and_answered_once<Op, Res>(
    session: ClientSession<Op, Res>,
    calls: Seq<Call<Op, Res>>,
    i: int,
    j: int,
    seq: ClientSeq,
    first: Res,
    second: Res,
)
    requires
        in_stages(session),
        0 <= i < j < calls.len(),
    ensures
        ({
            let before_i = before_call(session, calls, i);
            let before_j = before_call(session, calls, j);
            &&& !(sends(before_i, calls[i]) == Some(seq) && sends(before_j, calls[j]) == Some(seq))
            &&& !(answers(before_i, calls[i]) == Some((seq, first)) && answers(
                before_j,
                calls[j],
            ) == Some((seq, second)))
            &&& !(answers(before_i, calls[i]) == Some((seq, first)) && sends(before_j, calls[j])
                == Some(seq))
        }),
{
    lemma_in_stages(session, calls, i);
    lemma_in_stages(session, calls, j);
    lemma_next(session, calls, i);
    requests_move_on(before_call(session, calls, i), calls[i], seq);
    requests_move_on(before_call(session, calls, j), calls[j], seq);
    lemma_stage_later(session, calls, i + 1, j, seq);
}

/// A result comes from a reply that was received for its number, and a reply for
/// a number that is not under way gives none.
pub proof fn results_are_received<Op, Res>(session: ClientSession<Op, Res>, now: Duration)
    ensures
        session.proceed(now).1 matches Action::Output((seq, res)) ==> has_seq(
            session.submits,
            seq,
        ) && exists|i: int|
            0 <= i < session.received.len() && (#[trigger] session.received[i]).client_seq == seq
                && session.received[i].res == res,
        (forall|i: int|
            0 <= i < session.received.len() ==> !has_seq(
                session.submits,
                (#[trigger] session.received[i]).client_seq,
            )) ==> !(session.proceed(now).1 is Output),
{
    lemma_strays(session);
    let looked = session.without_strays();
    if looked.received.len() > 0 {
        let last = looked.received.len() - 1;
        let reply = looked.received.last();
        assert(session.received[last] == reply);
    }
}

/// A client that has sent nothing yet is in order.
pub proof fn initially_in_stages<Op, Res>(id: ClientId, config: UnreplicatedClientConfig)
    ensures
        in_stages(ClientSession::<Op, Res>::initial(id, config)),
{
}

/// A reply is not lost: as long as one that was received is for a request under
/// way, a result is handed out next.
pub proof fn replies_are_not_lost<Op, Res>(
    session: ClientSession<Op, Res>,
    now: Duration,
    i: int,
)
    requires
        0 <= i < session.received.len(),
        has_seq(session.submits, session.received[i].client_seq),
    ensures
        session.proceed(now).1 is Output,
    decreases session.received.len(),
{
    if !has_seq(session.submits, session.received.last().client_seq) {
        let next = ClientSession { received: session.received.drop_last(), ..session };
        assert(i < next.received.len());
        replies_are_not_lost(next, now, i);
        assert(session.without_strays() == next.without_strays());
    }
}

/// A request is sent as it was submitted, in the client's name and to the server,
/// and is under way from then on, for the time that is set.
pub proof fn sent_as_submitted<Op, Res>(session: ClientSession<Op, Res>, now: Duration, op: Op)
    requires
        ascending(session.submits),
    ensures
        session.seq < u64::MAX ==> session.submit(op).0.to_send == session.to_send.push(
            (session.submit(op).1, op),
        ),
        session.proceed(now).1 matches Action::Perform((dest, request)) ==> {
            let after = session.proceed(now).0;
            &&& dest == Dest::One(0)
            &&& request.client_id == session.id
            &&& session.to_send == after.to_send.push((request.client_seq, request.op))
            &&& value_at(after.submits, request.client_seq) == Some(now.plus_spec(session.timeout))
        },
{
    lemma_strays(session);
    let looked = session.without_strays();
    if looked.received.len() == 0 && looked.to_send.len() > 0 {
        let after = session.proceed(now).0;
        let (seq, sent) = looked.to_send.last();
        assert(session.to_send =~= after.to_send.push((seq, sent)));
        entries_are_a_map(looked.submits, seq, now.plus_spec(session.timeout), seq);
    }
}

/// A request is given up only when its time is over, and then only while the
/// client waits. It waits until the first request under way is to be given up.
pub proof fn given_up_only_late<Op, Res>(
    session: ClientSession<Op, Res>,
    now: Duration,
    seq: ClientSeq,
)
    requires
        ascending(session.submits),
        session.proceed(now).1 is Pending,
    ensures
        ({
            let (after, action) = session.proceed(now);
            &&& match value_at(session.submits, seq) {
                Some(until) => value_at(after.submits, seq) == Some(until) || value_at(
                    after.submits,
                    seq,
                ) is None && until.nanos <= now.nanos,
                None => value_at(after.submits, seq) is None,
            }
            &&& after.submits.len() > 0 ==> after.submits[0].1.nanos > now.nanos && action
                == Action::<(Dest, Request<Op>), (ClientSeq, Res)>::Pending(
                Some(Duration { nanos: (after.submits[0].1.nanos - now.nanos) as u128 }),
            )
        }),
{
    lemma_strays(session);
    lemma_given_up(session.without_strays(), now, seq);
}

proof fn lemma_given_up<Op, Res>(session: ClientSession<Op, Res>, now: Duration, seq: ClientSeq)
    requires
        ascending(session.submits),
    ensures
        ({
            let after = session.expired(now);
            &&& match value_at(session.submits, seq) {
                Some(until) => value_at(after.submits, seq) == Some(until) || value_at(
                    after.submits,
                    seq,
                ) is None && until.nanos <= now.nanos,
                None => value_at(after.submits, seq) is None,
            }
            &&& after.submits.len() > 0 ==> after.submits[0].1.nanos > now.nanos
        }),
    decreases session.submits.len(),
{
    if session.submits.len() > 0 && session.submits[0].1.nanos <= now.nanos {
        let first = session.submits[0].0;
        let next = ClientSession { submits: session.submits.drop_first(), ..session };
        assert(without_seq(session.submits, first) =~= next.submits);
        entries_are_a_map(session.submits, first, now, seq);
        other_numbers_stay(session.submits, first, now, seq);
        lemma_given_up(next, now, seq);
    }
}

} // verus!
