//! How long a client waits for its requests.
use crate::seq_map::{
    ascending, entries_are_a_map, has_seq, other_numbers_stay, rank, rank_splits, value_at,
    without_seq,
};
use crate::service::{ClientSeq, Reply, Request};
use crate::state::{Action, Duration};
use crate::unreplicated::{Pace, Settled, TickingSession, WindowState};
use vstd::prelude::*;

verus! {

/// Whether a client's requests under way are in order: of their numbers, which
/// were given out, and of the times at which they are given up.
pub open spec fn in_time<Op, Res>(session: TickingSession<Op, Res>) -> bool {
    &&& ascending(session.submits)
    &&& forall|i: int|
        0 <= i < session.submits.len() ==> (#[trigger] session.submits[i]).0 <= session.seq
    &&& forall|i: int, j: int|
        0 <= i < j < session.submits.len() ==> (#[trigger] session.submits[i]).1.nanos <= (
        #[trigger] session.submits[j]).1.nanos
    &&& forall|i: int|
        0 <= i < session.submits.len() ==> (#[trigger] session.submits[i]).1.nanos
            <= session.now.plus_spec(session.config.timeout).plus_spec(
            session.config.tick_resolution,
        ).nanos
}

/// A new request has a number of its own, is sent to the server with its
/// operation, and is under way for the time that is set; other requests stay.
pub proof fn request_is_under_way<Op, Res>(
    session: TickingSession<Op, Res>,
    op: Op,
    other: ClientSeq,
)
    requires
        in_time(session),
        session.seq < u64::MAX,
    ensures
        ({
            let (after, seq) = session.submit(op);
            let until = session.now.plus_spec(session.config.timeout).plus_spec(
                session.config.tick_resolution,
            );
            &&& in_time(after)
            &&& seq > session.seq
            &&& after.seq == seq
            &&& !has_seq(session.submits, seq)
            &&& value_at(after.submits, seq) == Some(until)
            &&& other != seq ==> value_at(after.submits, other) == value_at(session.submits, other)
            &&& after.to_send == session.to_send.push(
                Request { client_id: session.id, client_seq: seq, op },
            )
            &&& after.outputs == session.outputs
        }),
{
    let (after, seq) = session.submit(op);
    let until = session.now.plus_spec(session.config.timeout).plus_spec(
        session.config.tick_resolution,
    );
    entries_are_a_map(session.submits, seq, until, seq);
    entries_are_a_map(session.submits, seq, until, other);
    other_numbers_stay(session.submits, seq, until, seq);
    rank_splits(session.submits, seq);
    let at = rank(session.submits, seq);
    if at < session.submits.len() {
        assert(session.submits[at].0 <= session.seq);
    }
    assert(at == session.submits.len());
    assert(after.submits =~= session.submits.push((seq, until)));
}

/// A reply gives a result exactly for a request under way, which then is not
/// under way any more; other requests stay.
pub proof fn reply_ends_request<Op, Res>(
    session: TickingSession<Op, Res>,
    reply: Reply<Res, ()>,
    other: ClientSeq,
)
    requires
        in_time(session),
    ensures
        ({
            let after = session.receive(reply);
            &&& in_time(after)
            &&& after.outputs == if value_at(session.submits, reply.client_seq) is Some {
                session.outputs.push((reply.client_seq, reply.res))
            } else {
                session.outputs
            }
            &&& value_at(after.submits, reply.client_seq) is None
            &&& other != reply.client_seq ==> value_at(after.submits, other) == value_at(
                session.submits,
                other,
            )
            &&& after.to_send == session.to_send
        }),
{
    let seq = reply.client_seq;
    let after = session.receive(reply);
    let zero = Duration { nanos: 0 };
    entries_are_a_map(session.submits, seq, zero, seq);
    entries_are_a_map(session.submits, seq, zero, other);
    other_numbers_stay(session.submits, seq, zero, seq);
    if has_seq(session.submits, seq) {
        rank_splits(session.submits, seq);
        let at = rank(session.submits, seq);
        assert forall|i: int| 0 <= i < after.submits.len() implies #[trigger] after.submits[i]
            == session.submits[if i < at {
            i
        } else {
            i + 1
        }] by {}
    }
}

proof fn lemma_expired<Op, Res>(session: TickingSession<Op, Res>)
    requires
        in_time(session),
    ensures
        ({
            let after = session.expired();
            let gone = session.submits.len() - after.submits.len();
            &&& after == TickingSession { submits: after.submits, ..session }
            &&& 0 <= gone <= session.submits.len()
            &&& after.submits == session.submits.subrange(gone, session.submits.len() as int)
            &&& forall|i: int|
                0 <= i < gone ==> (#[trigger] session.submits[i]).1.nanos <= session.now.nanos
            &&& after.submits.len() > 0 ==> after.submits[0].1.nanos > session.now.nanos
        }),
    decreases session.submits.len(),
{
    let after = session.expired();
    if session.submits.len() > 0 && session.submits[0].1.nanos <= session.now.nanos {
        let next = TickingSession { submits: session.submits.drop_first(), ..session };
        assert forall|i: int| 0 <= i < next.submits.len() implies #[trigger] next.submits[i]
            == session.submits[i + 1] by {}
        assert(in_time(next));
        lemma_expired(next);
        let gone = session.submits.len() - after.submits.len();
        assert(after.submits =~= session.submits.subrange(gone, session.submits.len() as int));
        assert forall|i: int| 0 <= i < gone implies (#[trigger] session.submits[i]).1.nanos
            <= session.now.nanos by {
            if i > 0 {
                assert(next.submits[i - 1] == session.submits[i]);
            }
        }
    } else {
        assert(session.submits.subrange(0, session.submits.len() as int) =~= session.submits);
    }
}

/// As time passes, exactly the requests whose time is over are given up.
pub proof fn late_requests_are_given_up<Op, Res>(
    session: TickingSession<Op, Res>,
    elapsed: Duration,
    seq: ClientSeq,
)
    requires
        in_time(session),
    ensures
        ({
            let after = session.tick(elapsed);
            &&& in_time(after)
            &&& after.now == session.now.plus_spec(elapsed)
            &&& value_at(after.submits, seq) == match value_at(session.submits, seq) {
                Some(until) => if until.nanos <= after.now.nanos {
                    None
                } else {
                    Some(until)
                },
                None => None,
            }
            &&& after.to_send == session.to_send
            &&& after.outputs == session.outputs
        }),
{
    let next = TickingSession { now: session.now.plus_spec(elapsed), ..session };
    let before = session.now.plus_spec(session.config.timeout).plus_spec(
        session.config.tick_resolution,
    );
    let later = next.now.plus_spec(session.config.timeout).plus_spec(
        session.config.tick_resolution,
    );
    assert(before.nanos <= later.nanos);
    assert(in_time(next));
    lemma_expired(next);
    let after = session.tick(elapsed);
    let gone = session.submits.len() - after.submits.len();
    assert forall|i: int| 0 <= i < after.submits.len() implies #[trigger] after.submits[i]
        == session.submits[gone + i] && after.submits[i].1.nanos > after.now.nanos by {
        if i > 0 {
            assert(session.submits[gone].1.nanos <= session.submits[gone + i].1.nanos);
            assert(after.submits[0] == session.submits[gone]);
        }
    }
    assert(in_time(after));
    rank_splits(session.submits, seq);
    rank_splits(after.submits, seq);
    let i = rank(session.submits, seq);
    let j = rank(after.submits, seq);
    crate::seq_map::has_seq_of_entry(session.submits, seq);
    crate::seq_map::has_seq_of_entry(after.submits, seq);
    if has_seq(session.submits, seq) {
        if i >= gone {
            assert(after.submits[i - gone] == session.submits[i]);
            assert(has_seq(after.submits, seq));
            let k = gone + j;
            assert(session.submits[k] == after.submits[j]);
            if k < i {
                assert(session.submits[k].0 < seq);
            }
            if i < k {
                assert(session.submits[i].0 < session.submits[k].0);
            }
        } else {
            if has_seq(after.submits, seq) {
                assert(session.submits[gone + j] == after.submits[j]);
                assert(session.submits[i].0 < session.submits[gone + j].0);
            }
        }
    } else if has_seq(after.submits, seq) {
        assert(session.submits[gone + j].0 == seq);
    }
}

/// The client wants to be told the time before the first request is to be given
/// up, and as often as is set.
pub proof fn tells_time_soon_enough<Op, Res>(session: TickingSession<Op, Res>, i: int)
    requires
        in_time(session),
    ensures
        session.tick_at().nanos <= session.config.tick_resolution.nanos,
        0 <= i < session.submits.len() && session.now.nanos <= session.submits[0].1.nanos
            ==> session.now.nanos + session.tick_at().nanos <= session.submits[i].1.nanos,
{
    if 0 < i < session.submits.len() {
        assert(session.submits[0].1.nanos <= session.submits[i].1.nanos);
    }
}

/// Everything is handed out: results first, then requests, each once, and only
/// then the client waits.
pub proof fn all_is_handed_out<Op, Res>(session: TickingSession<Op, Res>)
    ensures
        match session.proceed().1 {
            Action::Output(output) => session.outputs == session.proceed().0.outputs.push(output)
                && session.proceed().0.to_send == session.to_send,
            Action::Perform(request) => session.to_send == session.proceed().0.to_send.push(request)
                && session.proceed().0.outputs == session.outputs,
            Action::Pending(_) => session.outputs.len() == 0 && session.to_send.len() == 0
                && session.proceed().0 == session,
        },
        session.proceed().0.submits == session.submits,
{
    let after = session.proceed().0;
    if session.outputs.len() > 0 {
        assert(session.outputs =~= after.outputs.push(session.outputs.last()));
    } else if session.to_send.len() > 0 {
        assert(session.to_send =~= after.to_send.push(session.to_send.last()));
    }
}

/// A command is under way with the result that is expected of it, under a number
/// of its own. Only the oldest one is given up, and only for one too many.
pub proof fn command_is_under_way(
    window: WindowState,
    expected: Option<Vec<u8>>,
    other: ClientSeq,
)
    requires
        window.admits(),
        ascending(window.expected),
        forall|i: int|
            0 <= i < window.expected.len() ==> (#[trigger] window.expected[i]).0 <= window.seq,
    ensures
        ({
            let after = window.send(expected);
            let full = window.pace matches Pace::OpenLoop(num_max) && num_max > 0
                && window.expected.len() == num_max;
            &&& after.seq > window.seq
            &&& after.pace == window.pace
            &&& value_at(after.expected, after.seq) == Some(expected)
            &&& ascending(after.expected)
            &&& other != after.seq && !(full && other == window.expected[0].0) ==> value_at(
                after.expected,
                other,
            ) == value_at(window.expected, other)
            &&& full ==> value_at(after.expected, window.expected[0].0) is None
        }),
{
    let seq = (window.seq + 1) as ClientSeq;
    let room = window.with_room();
    let after = window.send(expected);
    if room.expected != window.expected {
        let first = window.expected[0].0;
        assert(rank(window.expected, first) == 0);
        assert(without_seq(window.expected, first) =~= room.expected);
        entries_are_a_map(window.expected, first, expected, other);
        entries_are_a_map(window.expected, first, expected, first);
        other_numbers_stay(window.expected, first, expected, other);
        assert(first <= window.seq);
        entries_are_a_map(room.expected, seq, expected, first);
    } else {
        match window.pace {
            Pace::OpenLoop(num_max) => {
                if window.expected.len() == num_max && num_max > 0 {
                    assert(room.expected.len() == window.expected.len() - 1);
                }
            },
            Pace::CloseLoop => {},
        }
    }
    entries_are_a_map(room.expected, seq, expected, seq);
    entries_are_a_map(room.expected, seq, expected, other);
    other_numbers_stay(room.expected, seq, expected, seq);
}

/// A reply is judged by the result that was expected of its command.
pub proof fn reply_is_judged(window: WindowState, seq: ClientSeq, result: Seq<u8>)
    ensures
        window.settled(seq, result) == match value_at(window.expected, seq) {
            None => Settled::Ignored,
            Some(Some(expected)) => if expected@ == result {
                Settled::Committed
            } else {
                Settled::Unexpected
            },
            Some(None) => Settled::Committed,
        },
{
}

} // verus!
