use bigserve::app::kv::{Kv, KvOp, KvRes};
use bigserve::app::null::Null;
use bigserve::app::{AppProtocol, AppState};
use bigserve::command::{ClientId, Command};
use bigserve::frame::{Decoded, FrameBuffer, FrameStep, FRAME_CAPACITY};
use bigserve::replication::in_memory::Replica as InMemoryReplica;
use bigserve::replication::replay::ReplayReplica;
use bigserve::replication::unreplicated::{
    UnreplicatedClient, UnreplicatedClientConfig, UnreplicatedReplica,
};
use bigserve::replication::{Dest, ReplicationState};
use bigserve::service::unsharded::Service;
use bigserve::service::{
    admission, Admission, Dest as ServiceDest, Effect, Message, Reply, Request,
};
use bigserve::state::{earliest, Action, Duration, State};
use bigserve::unreplicated;
use bigserve::unreplicated::{CommandWindow, Pace, Settled};
use bigserve::workload::{
    ClientState, CloseLoopWorker, OpLatency, OpenLoopWorker, Outcome, Script, Take,
    WorkloadState,
};

// operations without content or result
struct Count;

impl AppProtocol for Count {
    type Op = ();
    type Res = ();
}

fn millis(millis: u128) -> Duration {
    Duration { nanos: millis * 1_000_000 }
}

#[test]
fn earliest_of_several() {
    assert_eq!(earliest(&[]), None);
    assert_eq!(earliest(&[None, None]), None);
    assert_eq!(earliest(&[None, Some(millis(3)), Some(millis(2)), None]), Some(millis(2)));
    assert_eq!(millis(1).plus(millis(2)), millis(3));
    assert_eq!(Duration { nanos: u128::MAX }.plus(millis(2)), Duration { nanos: u128::MAX });
}

#[test]
fn requests_are_classified() {
    assert_eq!(admission(None, 1), Admission::Submit);
    assert_eq!(admission(Some(1), 2), Admission::Submit);
    assert_eq!(admission(Some(2), 2), Admission::Resend);
    assert_eq!(admission(Some(3), 2), Admission::Ignore);
}

#[test]
fn destinations() {
    assert_eq!(ServiceDest::One(3).indices(3, 4), vec![3]);
    assert_eq!(ServiceDest::Multi(vec![2, 3, 2, 0]).indices(3, 4), vec![2, 2, 0]);
    assert_eq!(ServiceDest::All::<Vec<u16>>.indices(2, 4), vec![0, 1, 3]);
}

fn request(client_id: u32, client_seq: u64) -> Request<()> {
    Request { client_id, client_seq, op: () }
}

fn replies(service: &mut Service<Null, UnreplicatedReplica<Request<()>>>) -> Vec<(u32, u64)> {
    let mut replies = Vec::new();
    loop {
        match service.proceed(Duration::zero()) {
            Action::Pending(tick_after) => {
                assert_eq!(tick_after, None);
                return replies;
            }
            Action::Perform(Effect::Reply(client_id, reply)) => {
                replies.push((client_id, reply.client_seq))
            }
            _ => unreachable!(),
        }
    }
}

#[test]
fn unsharded_service() {
    let mut service = Service::new(Null, UnreplicatedReplica::new());
    assert!(replies(&mut service).is_empty());
    service.receive(Message::Request(request(1, 1)));
    service.receive(Message::Request(request(2, 5)));
    // the last one is submitted first
    assert_eq!(replies(&mut service), vec![(2, 5), (1, 1)]);
    // again, and an earlier one
    service.receive(Message::Request(request(2, 5)));
    service.receive(Message::Request(request(2, 4)));
    assert_eq!(replies(&mut service), vec![(2, 5)]);
    // of two requests that were ordered, the earlier one comes too late
    service.receive(Message::Request(request(1, 2)));
    service.receive(Message::Request(request(1, 3)));
    assert_eq!(replies(&mut service), vec![(1, 3)]);
}

#[test]
fn null_does_nothing() {
    let mut app = Null;
    app.execute(());
}

#[test]
fn unreplicated_client() {
    let config = UnreplicatedClientConfig { timeout: millis(10) };
    let mut client = UnreplicatedClient::<Count>::new(7, config);
    assert!(matches!(client.proceed(millis(0)), Action::Pending(None)));
    assert_eq!(client.submit(()), 1);
    assert_eq!(client.submit(()), 2);
    for seq in [2, 1] {
        let Action::Perform((dest, request)) = client.proceed(millis(5)) else { panic!() };
        assert_eq!(dest, Dest::One(0));
        assert_eq!((request.client_id, request.client_seq), (7, seq));
    }
    let Action::Pending(Some(tick_after)) = client.proceed(millis(6)) else { panic!() };
    assert_eq!(tick_after, millis(9));
    // a reply to nothing is dropped
    client.receive(Reply { client_seq: 1, res: (), metadata: () });
    client.receive(Reply { client_seq: 3, res: (), metadata: () });
    let Action::Output((seq, ())) = client.proceed(millis(7)) else { panic!() };
    assert_eq!(seq, 1);
    // a result is handed out once
    client.receive(Reply { client_seq: 1, res: (), metadata: () });
    assert!(matches!(client.proceed(millis(8)), Action::Pending(Some(_))));
    // and after its time not at all
    assert!(matches!(client.proceed(millis(15)), Action::Pending(None)));
    client.receive(Reply { client_seq: 2, res: (), metadata: () });
    assert!(matches!(client.proceed(millis(15)), Action::Pending(None)));
}

#[test]
fn ticking_client() {
    let config =
        unreplicated::ClientConfig { timeout: millis(10), tick_resolution: millis(4) };
    let mut client = unreplicated::Client::<Count>::new(7, config);
    assert!(matches!(client.proceed(), Action::Pending(Some(tick)) if tick == millis(4)));
    assert_eq!(client.submit(()), 1);
    let Action::Perform(request) = client.proceed() else { panic!() };
    assert_eq!((request.client_id, request.client_seq), (7, 1));
    client.tick(millis(12));
    assert!(matches!(client.proceed(), Action::Pending(Some(tick)) if tick == millis(2)));
    client.receive(Reply { client_seq: 1, res: (), metadata: () });
    client.receive(Reply { client_seq: 1, res: (), metadata: () });
    assert!(matches!(client.proceed(), Action::Output((1, ()))));
    assert!(matches!(client.proceed(), Action::Pending(_)));
    // given up after its time
    assert_eq!(client.submit(()), 2);
    client.tick(millis(14));
    client.receive(Reply { client_seq: 2, res: (), metadata: () });
    assert!(matches!(client.proceed(), Action::Perform(_)));
    assert!(matches!(client.proceed(), Action::Pending(_)));
}

#[test]
fn ticking_replica() {
    let mut replica = unreplicated::Replica::<Count>::new();
    assert!(replica.proceed().is_none());
    replica.submit(request(1, 1));
    replica.submit(request(1, 2));
    assert_eq!(replica.proceed().unwrap().client_seq, 2);
    assert_eq!(replica.proceed().unwrap().client_seq, 1);
    assert!(replica.proceed().is_none());
}

#[test]
fn commands_are_answered_once() {
    let mut kit = unreplicated::ServiceKit::new();
    let command = |seq| Command { client_id: ClientId(3), seq, op: vec![1] };
    assert_eq!(kit.last_seq(3), None);
    let (client_id, reply) = kit.on_finalized(&command(2)).unwrap();
    assert_eq!((client_id, reply.seq, reply.result), (3, 2, vec![]));
    assert!(kit.on_finalized(&command(2)).is_none());
    assert!(kit.on_finalized(&command(1)).is_none());
    assert!(kit.on_finalized(&command(3)).is_some());
    assert_eq!(kit.last_seq(3), Some(3));
    assert_eq!(kit.last_reply(3).unwrap().seq, 3);
    assert!(kit.last_reply(4).is_none());
}

#[test]
fn command_windows() {
    let mut window = CommandWindow::new(Pace::CloseLoop);
    assert_eq!(window.send(Some(vec![1])), Some(1));
    assert_eq!(window.send(None), None);
    assert_eq!(window.receive(2, &[1]), Settled::Ignored);
    assert_eq!(window.receive(1, &[1]), Settled::Committed);
    assert_eq!(window.receive(1, &[1]), Settled::Ignored);
    let mut window = CommandWindow::new(Pace::OpenLoop(2));
    assert_eq!(window.send(Some(vec![1])), Some(1));
    assert_eq!(window.send(Some(vec![2])), Some(2));
    assert_eq!(window.send(None), Some(3));
    // the oldest was given up
    assert_eq!(window.receive(1, &[1]), Settled::Ignored);
    assert_eq!(window.receive(2, &[1]), Settled::Unexpected);
    assert_eq!(window.receive(3, &[1]), Settled::Committed);
}

#[test]
fn replayed_in_batches() {
    let mut replica = ReplayReplica::new(vec![(), (), ()].into(), 2);
    replica.submit(());
    for len in [2, 1] {
        let Action::Output(replicated) = replica.proceed(Duration::zero()) else { panic!() };
        assert_eq!(replicated.logs.len(), len);
    }
    assert!(matches!(replica.proceed(Duration::zero()), Action::Pending(None)));
}

#[test]
fn numbered_for_replay() {
    let mut replay = bigserve::replica::Replay::new();
    for seq in 1..4 {
        let request = replay.next_request(vec![seq as u8]).unwrap();
        assert_eq!((request.client_id, request.client_seq, request.op), (0, seq, vec![seq as u8]));
    }
}

#[test]
fn frames() {
    let mut buffer = FrameBuffer::new();
    assert_eq!(buffer.spare(), FRAME_CAPACITY);
    assert_eq!(buffer.read(&[1, 2, 3, 4, 5]), FrameStep::Decode);
    assert_eq!(buffer.decoded(Decoded::Message(2)), FrameStep::Decode);
    assert_eq!(buffer.waiting(), &[3, 4, 5]);
    assert_eq!(buffer.decoded(Decoded::Partial), FrameStep::Read);
    assert_eq!(buffer.read(&[6]), FrameStep::Decode);
    assert_eq!(buffer.waiting(), &[3, 4, 5, 6]);
    assert_eq!(buffer.spare(), FRAME_CAPACITY - 4);
    assert_eq!(buffer.decoded(Decoded::Message(5)), FrameStep::Failed);
    assert_eq!(buffer.decoded(Decoded::Message(4)), FrameStep::Read);
    assert_eq!(buffer.decoded(Decoded::Invalid), FrameStep::Failed);
    assert_eq!(buffer.read(&[]), FrameStep::Closed);
}

fn script(num_op: usize) -> Script<Count> {
    Script::new(vec![(); num_op].into())
}

fn client() -> UnreplicatedClient<Take<Script<Count>>> {
    UnreplicatedClient::new(7, UnreplicatedClientConfig { timeout: millis(10) })
}

#[test]
fn close_loop_worker_waits() {
    let mut worker = CloseLoopWorker::new(Take::new(script(5), 3), client());
    for seq in 1..=3 {
        let Action::Perform((_, request)) = worker.proceed(millis(0)) else { panic!() };
        assert_eq!(request.client_seq, seq);
        // nothing more until the result
        assert!(matches!(worker.proceed(millis(0)), Action::Pending(Some(_))));
        worker.receive(Reply { client_seq: seq, res: (), metadata: () });
    }
    assert!(matches!(worker.proceed(millis(0)), Action::Output(Outcome::Finished)));
    let results = worker.into_workload().into_inner().into_results();
    assert_eq!(results.len(), 3);
}

#[test]
fn open_loop_worker_does_not_wait() {
    let mut worker = OpenLoopWorker::new(Take::new(script(5), 3), client(), millis(4));
    let Action::Perform((_, request)) = worker.proceed(millis(0)) else { panic!() };
    assert_eq!(request.client_seq, 1);
    let Action::Pending(Some(tick_after)) = worker.proceed(millis(1)) else { panic!() };
    assert_eq!(tick_after, millis(3));
    // two are due at once
    for seq in [3, 2] {
        let Action::Perform((_, request)) = worker.proceed(millis(9)) else { panic!() };
        assert_eq!(request.client_seq, seq);
    }
    worker.receive(Reply { client_seq: 2, res: (), metadata: () });
    assert!(matches!(worker.proceed(millis(9)), Action::Pending(Some(_))));
    // no operations are left, and requests are given up after their time
    let Action::Pending(tick_after) = worker.proceed(millis(30)) else { panic!() };
    assert_eq!(tick_after, None);
    assert_eq!(worker.into_workload().into_inner().into_results().len(), 1);
}

#[test]
fn latencies_are_noted() {
    let client = UnreplicatedClient::new(7, UnreplicatedClientConfig { timeout: millis(10) });
    let mut worker = CloseLoopWorker::new(OpLatency::new(script(2)), client);
    for (seq, at) in [(1, 3), (2, 8)] {
        worker.set_now(millis(at));
        assert!(matches!(worker.proceed(millis(at)), Action::Perform(_)));
        worker.set_now(millis(at + seq as u128));
        worker.receive(Reply { client_seq: seq, res: (), metadata: () });
        if seq == 2 {
            let finished = worker.proceed(millis(10));
            assert!(matches!(finished, Action::Output(Outcome::Finished)));
        } else {
            // the result is taken along with the next operation
            worker.set_now(millis(8));
        }
    }
    let (script, latencies) = worker.into_workload().into_parts();
    assert_eq!(script.into_results().len(), 2);
    assert_eq!(latencies, vec![5_000_000, 2_000_000]);
}

#[test]
fn spans_of_time() {
    assert_eq!(millis(5).since(millis(3)), 2_000_000);
    assert_eq!(millis(3).since(millis(5)), 0);
    assert_eq!(Duration { nanos: (1 << 64) + 7 }.since(Duration::zero()), 7);
}

#[test]
fn workload_in_place_of_clients() {
    let mut replica = InMemoryReplica::new(script(3), 2);
    let Action::Output(replicated) = replica.proceed(Duration::zero()) else { panic!() };
    let seqs: Vec<_> =
        replicated.logs.iter().map(|request| (request.client_id, request.client_seq)).collect();
    assert_eq!(seqs, vec![(0, 1), (0, 2)]);
    let Action::Output(replicated) = replica.proceed(Duration::zero()) else { panic!() };
    assert_eq!(replicated.logs[0].client_seq, 3);
    assert_eq!(replicated.logs.len(), 1);
    assert!(matches!(replica.proceed(Duration::zero()), Action::Pending(None)));
}

#[test]
fn taken_workload_ends() {
    let mut take = Take::new(script(5), 1);
    assert!(take.next_op().is_some());
    assert!(take.next_op().is_none());
    assert!(take.complete((), ()).is_ok());
    let mut short = Take::new(Script::<Kv>::new(vec![KvOp::Get("k".into())].into()), 5);
    assert!(short.next_op().is_some());
    assert!(short.next_op().is_none());
    assert!(short.complete((), KvRes::Get(None)).is_ok());
    assert_eq!(short.into_inner().into_results(), vec![KvRes::Get(None)]);
}
