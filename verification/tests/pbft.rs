use bigserve::command::{ClientId, Command, Commands};
use bigserve::crypto::{Digest, PeerConfig, PublicKey, Sig};
use bigserve::pbft::block;
use bigserve::pbft::client::{
    Client, ClientConfig, ClientError, ClientWorkloadConfig, CloseLoopWorkloadConfig,
    OpenLoopWorkloadConfig, WorkloadConfig,
};
use bigserve::pbft::message::Reply;
use bigserve::session::ClientSeqs;
use bigserve::state::Duration;
use bigserve::pbft::{
    ActionBuffer, Message, Replica, ReplicaAction, ReplicaConfig, ReplicaCoreConfig,
};
use std::collections::{HashMap, VecDeque};

struct System {
    replicas: Vec<Replica>,
    messages: VecDeque<(u16, Message)>,
    log: Vec<Event>,
}

#[derive(Debug, PartialEq, Eq)]
enum Event {
    Finalize(u16, Commands, u64),
}

fn core_config(id: u16, num_replica: u16, num_faulty_replica: u16) -> ReplicaCoreConfig {
    ReplicaCoreConfig {
        id,
        num_replica,
        num_faulty_replica,
        num_inflight_block: 1,
        max_batch_size: 1,
    }
}

fn peers(num_replica: u16) -> ReplicaConfig {
    ReplicaConfig {
        crypto: PeerConfig {
            public_keys: (0..num_replica).map(|id| PublicKey([id as u8; 32])).collect(),
        },
    }
}

impl System {
    fn new(num_replica: u16, num_faulty_replica: u16) -> Self {
        Self::with_batch_size(num_replica, num_faulty_replica, 1)
    }

    fn with_batch_size(num_replica: u16, num_faulty_replica: u16, batch_size: usize) -> Self {
        let replicas = (0..num_replica)
            .map(|id| {
                let core_config = ReplicaCoreConfig {
                    max_batch_size: batch_size,
                    ..core_config(id, num_replica, num_faulty_replica)
                };
                Replica::new(core_config, peers(num_replica))
            })
            .collect();
        Self { replicas, messages: Default::default(), log: Default::default() }
    }

    fn submit(&mut self, replica_id: u16, command: Command) {
        let mut context = ActionBuffer::new();
        self.replicas[replica_id as usize].submit(command, &mut context);
        self.perform(replica_id, context);
    }

    fn deliver(&mut self) -> bool {
        let Some((replica_id, message)) = self.messages.pop_front() else {
            return false;
        };
        let mut context = ActionBuffer::new();
        let replica = &mut self.replicas[replica_id as usize];
        assert!(replica.verification_key(&message).is_some());
        assert!(replica.admits(&message, true));
        replica.receive(message, true, &mut context);
        self.perform(replica_id, context);
        true
    }

    fn perform(&mut self, replica_id: u16, context: ActionBuffer) {
        for action in context.0 {
            match action {
                ReplicaAction::Send(message) => {
                    for other_replica_id in 0..self.replicas.len() as u16 {
                        if other_replica_id != replica_id {
                            self.messages.push_back((other_replica_id, message.clone()));
                        }
                    }
                }
                ReplicaAction::Finalize(commands, view_num) => {
                    self.log.push(Event::Finalize(replica_id, commands, view_num));
                }
            }
        }
    }

    // helpers
    fn deliver_all(&mut self, max_num_message: usize) {
        for _ in 0..max_num_message {
            if !self.deliver() {
                return;
            }
        }
        unreachable!()
    }

    fn finalized_of(&self, replica_id: u16, view_num: u64) -> Vec<Commands> {
        self.log
            .iter()
            .filter_map(|event| match event {
                Event::Finalize(other_replica_id, commands, other_view_num)
                    if *other_replica_id == replica_id && *other_view_num == view_num =>
                {
                    Some(commands.clone())
                }
                _ => None,
            })
            .collect()
    }

    fn has_finalized_all(&self, view_num: u64, expected: &[Command]) -> bool {
        let replica0_log = self.finalized_of(0, view_num);
        let other_replica_logs = (1..self.replicas.len())
            .map(|replica_id| self.finalized_of(replica_id as u16, view_num))
            .collect::<Vec<_>>();
        other_replica_logs.iter().all(|log| log == &replica0_log)
            && expected.iter().all(|command| {
                replica0_log.iter().any(|commands| commands.contains(command))
            })
    }
}

fn command(client_id: u32, seq: u64) -> Command {
    Command {
        client_id: ClientId(client_id),
        seq,
        op: format!("command@{client_id}#{seq}").into_bytes(),
    }
}

#[test]
fn basic() {
    let mut system = System::new(4, 1);
    system.submit(0, command(0, 1));
    system.deliver_all(100);
    assert!(system.has_finalized_all(0, &[command(0, 1)]))
}

#[test]
fn concurrent_submit() {
    let mut system = System::new(4, 1);
    for client_id in 0..4 {
        system.submit(0, command(client_id, 1));
    }
    system.deliver_all(100);
    assert!(system.has_finalized_all(
        0,
        &(0..4).map(|client_id| command(client_id, 1)).collect::<Vec<_>>(),
    ))
}

#[test]
fn concurrent_submit_batched() {
    let mut system = System::with_batch_size(4, 1, 10);
    for client_id in 0..4 {
        system.submit(0, command(client_id, 1));
    }
    system.deliver_all(100);
    assert!(system.has_finalized_all(
        0,
        &(0..4).map(|client_id| command(client_id, 1)).collect::<Vec<_>>(),
    ));
    assert!(system.replicas[0].num_op() < 4)
}

#[test]
fn submission_order_is_delivery_order() {
    let mut system = System::new(4, 1);
    for client_id in 0..4 {
        system.submit(0, command(client_id, 1));
    }
    system.deliver_all(100);
    for replica_id in 0..4 {
        let log = system.finalized_of(replica_id, 0);
        assert_eq!(log.len(), 4);
        for client_id in 0..4 {
            assert_eq!(*log[client_id as usize], vec![command(client_id, 1)]);
        }
    }
}

#[test]
fn only_the_primary_proposes() {
    let mut system = System::new(4, 1);
    system.submit(1, command(0, 1));
    assert!(system.messages.is_empty());
    assert_eq!(system.replicas[1].num_op(), 0);
}

fn proposal() -> (Message, Message) {
    let mut primary = Replica::new(core_config(0, 4, 1), peers(4));
    let mut context = ActionBuffer::new();
    primary.submit(command(0, 1), &mut context);
    assert_eq!(context.0.len(), 1);
    let ReplicaAction::Send(pre_prepare) = context.0.remove(0) else { panic!("no proposal") };
    let mut backup = Replica::new(core_config(1, 4, 1), peers(4));
    backup.receive(pre_prepare.clone(), true, &mut context);
    assert_eq!(context.0.len(), 1);
    let ReplicaAction::Send(prepare) = context.0.remove(0) else { panic!("no vote") };
    (pre_prepare, prepare)
}

#[test]
fn proposal_digest_is_sha256() {
    let (pre_prepare, _) = proposal();
    let Message::PrePrepare(pre_prepare, _) = pre_prepare else { panic!("no proposal") };
    let mut bytes = Vec::new();
    bytes.extend(0u32.to_le_bytes());
    bytes.extend(1u64.to_le_bytes());
    bytes.extend(b"command@0#1");
    let digest: [u8; 32] = <sha2::Sha256 as sha2::Digest>::digest(&bytes).into();
    assert_eq!(pre_prepare.digest.0, digest);
    let mut signed = Vec::new();
    signed.extend(0u64.to_le_bytes());
    signed.extend(1u64.to_le_bytes());
    signed.extend(digest);
    assert_eq!(pre_prepare.signed_bytes(), signed);
}

#[test]
fn wrong_messages_are_ignored() {
    let (pre_prepare, prepare) = proposal();
    let mut backup = Replica::new(core_config(2, 4, 1), peers(4));
    let mut context = ActionBuffer::new();
    // a proposal whose signature does not check out
    backup.receive(pre_prepare.clone(), false, &mut context);
    assert_eq!(backup.num_op(), 0);
    // a proposal for another view
    let Message::PrePrepare(mut later, commands) = pre_prepare.clone() else { panic!() };
    later.view_num = 1;
    backup.receive(Message::PrePrepare(later, commands), true, &mut context);
    assert_eq!(backup.num_op(), 0);
    assert!(context.0.is_empty());
    // the proposal, then the same again
    backup.receive(pre_prepare.clone(), true, &mut context);
    assert_eq!(backup.num_op(), 1);
    assert_eq!(context.0.len(), 1);
    backup.receive(pre_prepare, true, &mut context);
    assert_eq!(context.0.len(), 1);
    // a vote with another digest, and one whose signature does not check out
    let Message::Prepare(mut other) = prepare.clone() else { panic!() };
    other.digest.0[0] ^= 1;
    backup.receive(Message::Prepare(other), true, &mut context);
    backup.receive(prepare.clone(), false, &mut context);
    assert_eq!(context.0.len(), 1);
    // the quorum is the proposal, the replica's own vote and one more
    backup.receive(prepare.clone(), true, &mut context);
    assert_eq!(context.0.len(), 2);
    assert!(matches!(context.0[1], ReplicaAction::Send(Message::Commit(_))));
    backup.receive(prepare, true, &mut context);
    assert_eq!(context.0.len(), 2);
}

#[test]
fn early_votes_are_counted_later() {
    let (pre_prepare, prepare) = proposal();
    let mut backup = Replica::new(core_config(2, 4, 1), peers(4));
    let mut context = ActionBuffer::new();
    backup.receive(prepare, true, &mut context);
    assert!(context.0.is_empty());
    backup.receive(pre_prepare, true, &mut context);
    assert_eq!(context.0.len(), 2);
    assert!(matches!(context.0[0], ReplicaAction::Send(Message::Prepare(_))));
    assert!(matches!(context.0[1], ReplicaAction::Send(Message::Commit(_))));
}

#[test]
fn keys_of_senders() {
    let (pre_prepare, prepare) = proposal();
    let replica = Replica::new(core_config(2, 4, 1), peers(4));
    assert_eq!(replica.verification_key(&pre_prepare).unwrap().0, [0; 32]);
    assert_eq!(replica.verification_key(&prepare).unwrap().0, [1; 32]);
    let Message::Prepare(mut stranger) = prepare else { panic!() };
    stranger.replica_id = 4;
    assert!(replica.verification_key(&Message::Commit(stranger)).is_none());
}

#[test]
fn own_numbering_cannot_be_overtaken() {
    let (pre_prepare, _) = proposal();
    let primary = Replica::new(core_config(0, 4, 1), peers(4));
    assert!(!primary.admits(&pre_prepare, true));
    assert!(primary.admits(&pre_prepare, false));
}

// an echo service on top of the replicas, with replies kept for each client
#[test]
fn normal_1() {
    let mut system = System::new(4, 1);
    let mut client = Client::new(
        ClientId(0),
        ClientConfig { num_replica: 4, num_faulty_replica: 1, close_loop: true },
    );
    let mut served = (0..4).map(|_| ClientSeqs::new()).collect::<Vec<_>>();
    let (primary, command) = client.invoke(b"hello".to_vec()).unwrap();
    system.submit(primary, command);
    let mut next_event = 0;
    // replies on their way, each behind a number of messages
    let mut replies = VecDeque::<(usize, Reply)>::new();
    for i in 0.. {
        assert!(i < 100);
        while next_event < system.log.len() {
            let Event::Finalize(replica_id, commands, view_num) = &system.log[next_event];
            next_event += 1;
            for command in commands.iter() {
                if !served[*replica_id as usize].take_in(command.client_id.0, command.seq) {
                    continue;
                }
                let reply = Reply {
                    seq: command.seq,
                    view_num: *view_num,
                    result: command.op.clone(), // echo back
                    replica_id: *replica_id,
                };
                replies.push_back((system.messages.len(), reply))
            }
        }
        if matches!(replies.front(), Some((0, _))) {
            let (_, reply) = replies.pop_front().unwrap();
            if let Some(result) = client.receive(reply) {
                assert_eq!(&result, b"hello");
                break;
            }
        } else {
            assert!(system.deliver());
            for (num_ahead, _) in &mut replies {
                *num_ahead -= 1
            }
        }
    }
    let num_committed = system.replicas.iter().filter(|replica| replica.is_committed(1)).count();
    assert!(num_committed >= 3)
}

fn reply(seq: u64, replica_id: u16, result: &[u8]) -> Reply {
    Reply { seq, view_num: 5, result: result.to_vec(), replica_id }
}

#[test]
fn client_waits_for_matching_results() {
    let config = ClientConfig { num_replica: 4, num_faulty_replica: 1, close_loop: false };
    let mut client = Client::new(ClientId(7), config);
    let (primary, command) = client.invoke(b"op".to_vec()).unwrap();
    assert_eq!(primary, 0);
    assert_eq!(command, Command { client_id: ClientId(7), seq: 1, op: b"op".to_vec() });
    // one replica counts once, and another result does not help
    assert_eq!(client.receive(reply(1, 2, b"a")), None);
    assert_eq!(client.receive(reply(1, 2, b"a")), None);
    assert_eq!(client.receive(reply(1, 3, b"b")), None);
    assert_eq!(client.receive(reply(2, 1, b"a")), None);
    // a replica may change its mind
    assert_eq!(client.receive(reply(1, 3, b"a")), Some(b"a".to_vec()));
    assert_eq!(client.receive(reply(1, 1, b"a")), None);
    // the view of the last result picks the primary
    assert_eq!(client.invoke(b"op".to_vec()).unwrap().0, 1);
    assert_eq!(client.timeout(2), Ok(()));
    assert_eq!(client.receive(reply(2, 0, b"a")), None);
    assert_eq!(client.receive(reply(2, 1, b"a")), None);
}

#[test]
fn close_loop_client_waits() {
    let config = ClientConfig { num_replica: 1, num_faulty_replica: 0, close_loop: true };
    let mut client = Client::new(ClientId(7), config);
    assert!(client.invoke(b"op".to_vec()).is_ok());
    assert_eq!(client.invoke(b"op".to_vec()), Err(ClientError::Busy));
    assert_eq!(client.timeout(1), Err(ClientError::Timeout));
    assert_eq!(client.receive(reply(1, 0, b"")), Some(Vec::new()));
    assert_eq!(client.invoke(b"op".to_vec()).unwrap().1.seq, 2);
}

#[test]
fn workload_decides_the_loop() {
    let mut config = ClientWorkloadConfig {
        duration: Duration { nanos: 1 },
        workload: WorkloadConfig::CloseLoop(CloseLoopWorkloadConfig { concurrency: 3 }),
        num_replica: 4,
        num_faulty_replica: 1,
        request_timeout: Duration { nanos: 1 },
    };
    assert!(config.client().close_loop);
    config.workload =
        WorkloadConfig::OpenLoop(OpenLoopWorkloadConfig { interval: Duration { nanos: 1 } });
    assert!(!config.client().close_loop);
    assert_eq!(config.client().num_replica, 4);
}

#[test]
fn block_votes_name_their_voter() {
    let vote = block::Vote {
        view_num: 1,
        block_num: 2,
        digest: Digest([9; 32]),
        replica_id: 0x0304,
        sig: Sig::unsigned(),
    };
    let mut bytes = vec![0xff];
    vote.update(&mut bytes);
    let mut expected = vec![0xff];
    expected.extend(1u64.to_le_bytes());
    expected.extend(2u64.to_le_bytes());
    expected.extend([9; 32]);
    expected.extend([4, 3]);
    assert_eq!(bytes, expected);
    let proposal = block::PrePrepare {
        view_num: 1,
        block_num: 2,
        digest: Digest([9; 32]),
        sig: Sig::unsigned(),
    };
    let mut bytes = vec![0xff];
    proposal.update(&mut bytes);
    assert_eq!(bytes, expected[..expected.len() - 2]);
}

#[test]
fn requests_are_taken_in_once() {
    let mut seqs = ClientSeqs::new();
    let mut taken = HashMap::new();
    for (client_id, seq) in [(1, 5), (2, 1), (1, 5), (1, 4), (1, 6), (2, 1)] {
        if seqs.take_in(client_id, seq) {
            taken.entry(client_id).or_insert_with(Vec::new).push(seq)
        }
    }
    assert_eq!(taken[&1], vec![5, 6]);
    assert_eq!(taken[&2], vec![1]);
}
