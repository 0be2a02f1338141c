use bigserve::app::null::Null;
use bigserve::command::{ClientId, Command};
use bigserve::replication::Replicated;
use bigserve::server::{
    CommandServer, CommandStep, Dispatch, Dispatcher, FinalizedStep, ServiceTask, Session,
    SessionStep, UnshardedServer,
};
use bigserve::service::big::config::{Key, ShardedStorageConfig};
use bigserve::service::big::ServiceConfig;
use bigserve::service::big2::storage::Invoke;
use bigserve::service::big2::BigServiceLog;
use bigserve::service::{Reply, Request};
use bigserve::session::OpenRequests;
use std::sync::Arc;

#[test]
fn sessions_resend_the_last_reply() {
    let mut session = Session::<(), ()>::new();
    assert!(matches!(session.request(1), SessionStep::Submit));
    session.reply(&Reply { client_seq: 2, res: (), metadata: () });
    assert!(matches!(session.request(1), SessionStep::Ignore));
    let SessionStep::Resend(reply) = session.request(2) else { panic!() };
    assert_eq!(reply.client_seq, 2);
    assert!(matches!(session.request(3), SessionStep::Submit));
}

#[test]
fn connected_clients_are_answered() {
    let mut server = UnshardedServer::new(Null);
    let request = |client_id, client_seq| Request { client_id, client_seq, op: () };
    let run = |server: &mut UnshardedServer<Null>, logs| {
        let replies = server.replicated(Replicated { logs, metadata: () });
        replies.iter().map(|(id, reply)| (*id, reply.client_seq)).collect::<Vec<_>>()
    };
    server.accept(1);
    assert_eq!(run(&mut server, vec![request(1, 1), request(2, 1), request(1, 1)]), [(1, 1)]);
    // executed before the client was connected
    server.accept(2);
    assert_eq!(run(&mut server, vec![request(2, 1)]), []);
    assert_eq!(run(&mut server, vec![request(2, 3), request(1, 2), request(2, 2)]), [(2, 3), (1, 2)]);
    server.close(1);
    assert_eq!(run(&mut server, vec![request(1, 3), request(2, 4)]), [(2, 4)]);
}

#[test]
fn dispatched_by_kind() {
    let mut dispatcher = Dispatcher::new();
    let request = |client_seq| {
        BigServiceLog::<_, char>::Request(Request { client_id: 7, client_seq, op: "op" })
    };
    let Dispatch::Order(message) = dispatcher.dispatch(BigServiceLog::<&str, _>::StorageOrder('m'))
    else {
        panic!()
    };
    assert_eq!(message, 'm');
    let Dispatch::Execute(executed, answer) = dispatcher.dispatch(request(2)) else { panic!() };
    assert_eq!((executed.client_id, executed.client_seq, executed.op), (7, 2, "op"));
    assert!(!answer);
    assert!(matches!(dispatcher.dispatch(request(2)), Dispatch::Ignore));
    assert!(matches!(dispatcher.dispatch(request(1)), Dispatch::Ignore));
    dispatcher.accept(7);
    assert!(matches!(dispatcher.dispatch(request(3)), Dispatch::Execute(_, true)));
    dispatcher.close(7);
    assert!(matches!(dispatcher.dispatch(request(4)), Dispatch::Execute(_, false)));
}

#[test]
fn command_servers_answer_every_command() {
    let mut server = CommandServer::new(2);
    let command = |id, seq| Command { client_id: ClientId(id), seq, op: vec![1] };
    assert!(server.accept(3));
    assert!(!server.accept(3));
    let commands = vec![command(3, 2), command(3, 1), command(3, 2), command(4, 1), command(3, 3)];
    let finalized = server.finalized(&commands, 5);
    let seqs = finalized.replies.iter().map(|(id, reply)| (*id, reply.seq)).collect::<Vec<_>>();
    assert_eq!(seqs, [(3, 2), (3, 1), (3, 2)]);
    assert_eq!(finalized.unreachable, Some(4));
    let reply = &finalized.replies[0].1;
    assert_eq!((reply.view_num, reply.replica_id), (5, 2));
    assert!(reply.result.is_empty());
    server.accept(4);
    let finalized = server.finalized(&commands, 6);
    assert_eq!(finalized.replies.len(), 5);
    assert_eq!(finalized.unreachable, None);
}

#[test]
fn service_tasks_answer_once() {
    let mut task = ServiceTask::new();
    let command = |id, seq| Command { client_id: ClientId(id), seq, op: vec![1] };
    assert!(task.accept(3));
    assert!(!task.accept(3));
    assert!(matches!(task.command(&command(3, 2)), CommandStep::Submit));
    let FinalizedStep::Answer(reply) = task.finalized(&command(3, 2)) else { panic!() };
    assert_eq!((reply.seq, reply.result), (2, vec![]));
    assert!(matches!(task.finalized(&command(3, 2)), FinalizedStep::Ignore));
    assert!(matches!(task.finalized(&command(3, 1)), FinalizedStep::Ignore));
    assert!(matches!(task.command(&command(3, 1)), CommandStep::Ignore));
    let CommandStep::Resend(reply) = task.command(&command(3, 2)) else { panic!() };
    assert_eq!(reply.seq, 2);
    assert!(matches!(task.command(&command(3, 3)), CommandStep::Submit));
    // not connected
    assert!(matches!(task.finalized(&command(4, 1)), FinalizedStep::Unreachable));
    assert!(matches!(task.command(&command(4, 1)), CommandStep::Unreachable));
}

#[test]
fn requests_are_numbered_and_settled() {
    let mut requests = OpenRequests::new(9);
    let first = requests.invoke('a').unwrap();
    assert_eq!((first.client_id, first.client_seq, first.op), (9, 1, 'a'));
    assert_eq!(requests.invoke('b').unwrap().client_seq, 2);
    assert!(!requests.reply(3));
    assert!(requests.reply(1));
    assert!(!requests.reply(1));
    assert_eq!(requests.invoke('c').unwrap().client_seq, 3);
    assert!(!requests.reply(1));
    assert!(requests.reply(2));
}

#[test]
fn keys_of_invocations() {
    let key = |byte| Key([byte; 32]);
    assert_eq!(Invoke::Fetch(vec![key(2), key(1)]).keys(), vec![key(2), key(1)]);
    let value = Arc::new(vec![0]);
    let bump = Invoke::Bump(vec![(key(4), value.clone()), (key(3), value)], vec![key(5)]);
    assert_eq!(bump.keys(), vec![key(4), key(3), key(5)]);
}

#[test]
fn configurations_out_of_range() {
    let config = |num_node, num_faulty_node, num_stripe, num_active_copy| ShardedStorageConfig {
        num_node,
        num_faulty_node,
        num_stripe,
        num_active_copy,
        bypass_vote: false,
    };
    assert!(config(4, 1, 300, 2).is_wf());
    assert!(!config(1, 1, 300, 2).is_wf());
    assert!(!config(4, 1, 0, 2).is_wf());
    assert!(!config(4, 1, 300, 0).is_wf());
    assert!(config(4, 1, 65532, 2).is_wf());
    assert!(!config(4, 1, 65533, 2).is_wf());
    assert!(config(4, 1, 300, 65537).is_wf());
    assert!(!config(4, 1, 300, usize::MAX).is_wf());
    assert!(!config(65535, 16385, 1, 2).is_wf());
    let config = |num_cached_value| ServiceConfig { num_cached_value, executing_buffer_size: 0 };
    assert!(config(0).is_wf());
    assert!(config(1 << 20).is_wf());
    assert!(!config(usize::MAX).is_wf());
}
