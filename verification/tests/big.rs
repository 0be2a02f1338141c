use bigserve::app::kv::{Kv, KvOp, KvRes};
use bigserve::replication::unreplicated::UnreplicatedReplica;
use bigserve::service::big::config::Key;
use bigserve::service::big::message::Archived;
use bigserve::service::big::{
    BigService, BigServiceLog, FullReplicationStorage, ServiceConfig, ServiceEffect,
    ServiceMessage, ShardedStorage, ShardedStorageConfig, ShardedStorageMessage,
    StorageState, StorageStateEffect, StorageStateOutput,
};
use bigserve::service::{ClientId, Dest, Effect, Message, Reply, Request, ServiceState, Store};
use bigserve::shared::Bytes;
use bigserve::state::{earliest, Action, Duration, Never, State};
use std::collections::{HashMap, HashSet, VecDeque};
use std::iter::repeat_n;

type A = Kv;
type S = ShardedStorage;
type R = UnreplicatedReplica<BigServiceLog<A, S>>;
type NetworkMessage = ServiceMessage<Never, ShardedStorageMessage>;

struct SystemState {
    hosts: Vec<SystemHost>,
    service_network: VecDeque<(u16, NetworkMessage)>,
    replies: Vec<(ClientId, Reply<KvRes, ()>)>,
}

type SystemHost = (BigService<A, R, S>, HashMap<String, Bytes>);

fn service(config: ShardedStorageConfig, index: u16, num_cached_value: usize) -> BigService<A, R, S> {
    BigService::new(
        Kv,
        UnreplicatedReplica::new(),
        ShardedStorage::new(config, [index].into()),
        ServiceConfig { num_cached_value, executing_buffer_size: 0 },
    )
}

#[test]
fn idle_pending() {
    let storage_config = ShardedStorageConfig {
        num_node: 1,
        num_faulty_node: 0,
        num_active_copy: 1,
        num_stripe: 1,
        bypass_vote: false,
    };
    let mut state = SystemState {
        hosts: vec![(service(storage_config, 0, 0), Default::default())],
        service_network: Default::default(),
        replies: Default::default(),
    };
    let (service, _) = &mut state.hosts[0];
    let proceed = service.proceed(Duration::zero());
    assert!(matches!(proceed, Action::Pending(None)));
}

impl SystemState {
    fn proceed_service(&mut self, index: u16, since_start: Duration) -> Option<Duration> {
        loop {
            let (service, storage) = &mut self.hosts[index as usize];
            match service.proceed(since_start) {
                Action::Pending(tick_after) => break tick_after,
                Action::Perform(Effect::Reply(client_id, reply)) => {
                    self.replies.push((client_id, reply))
                }

                Action::Perform(Effect::Intermediate(ServiceEffect::Storage(
                    StorageStateEffect::Send((Dest::One(index), message)),
                ))) => {
                    self.service_network.push_back((index, ServiceMessage::Storage(message)))
                }
                Action::Perform(Effect::Intermediate(ServiceEffect::Storage(
                    StorageStateEffect::Send((Dest::Multi(indices), message)),
                ))) => {
                    for node_index in indices {
                        if node_index == index {
                            continue;
                        }
                        self.service_network
                            .push_back((node_index, ServiceMessage::Storage(message.clone())))
                    }
                }
                Action::Perform(Effect::Intermediate(ServiceEffect::Storage(
                    StorageStateEffect::Send((Dest::All, message)),
                ))) => {
                    for node_index in 0..self.hosts.len() {
                        if node_index as u16 == index {
                            continue;
                        }
                        self.service_network.push_back((
                            node_index as u16,
                            ServiceMessage::Storage(message.clone()),
                        ))
                    }
                }

                Action::Perform(Effect::Intermediate(ServiceEffect::Storage(
                    StorageStateEffect::Store(Store::Get(key)),
                ))) => {
                    let value = storage[&key].clone();
                    service.get_complete(key, value)
                }
                Action::Perform(Effect::Intermediate(ServiceEffect::Storage(
                    StorageStateEffect::Store(Store::Put(key, value)),
                ))) => {
                    storage.insert(key.clone(), value);
                    service.put_complete(key)
                }
                Action::Perform(Effect::Intermediate(ServiceEffect::Storage(
                    StorageStateEffect::Store(Store::Delete(key)),
                ))) => {
                    storage.remove(&key);
                }
                Action::Perform(Effect::Intermediate(ServiceEffect::Storage(
                    StorageStateEffect::Order(_),
                ))) => panic!("votes are ordered by the service itself"),
                Action::Perform(Effect::Intermediate(ServiceEffect::Replication(_)))
                | Action::Output(_) => unreachable!(),
            }
        }
    }

    fn run(&mut self, since_start: Duration) -> Option<Duration> {
        let mut earliest_tick_after = None;
        while let Some((index, message)) = self.service_network.pop_front() {
            self.hosts[index as usize].0.receive(Message::Intermediate(message));
            let tick_after = self.proceed_service(index, since_start);
            earliest_tick_after = earliest(&[tick_after, earliest_tick_after])
        }
        earliest_tick_after
    }
}

fn request(seq: u64, op: KvOp) -> Request<KvOp> {
    Request { client_id: 0, client_seq: seq, op }
}

#[test]
fn one_service() {
    let storage_config = ShardedStorageConfig {
        num_node: 1,
        num_faulty_node: 0,
        num_active_copy: 1,
        num_stripe: 1,
        bypass_vote: false,
    };
    let mut state = SystemState {
        hosts: vec![(service(storage_config, 0, 0), Default::default())],
        service_network: Default::default(),
        replies: Default::default(),
    };

    state.hosts[0]
        .0
        .receive(Message::Request(request(1, KvOp::Put("k".into(), "v".into()))));
    state.proceed_service(0, Duration::zero());
    let (_, reply) = state.replies.remove(0);
    assert_eq!(reply.res, KvRes::Put);
    state.hosts[0].0.receive(Message::Request(request(2, KvOp::Get("k".into()))));
    state.proceed_service(0, Duration::zero());
    let (_, reply) = state.replies.remove(0);
    assert_eq!(reply.res, KvRes::Get(Some("v".into())));
}

impl SystemState {
    fn with_config(config: ShardedStorageConfig) -> Self {
        Self::with_cache(config, 0)
    }

    fn with_cache(config: ShardedStorageConfig, num_cached_value: usize) -> Self {
        Self {
            hosts: (0..config.num_node)
                .map(|index| (service(config.clone(), index, num_cached_value), Default::default()))
                .collect(),
            service_network: Default::default(),
            replies: Default::default(),
        }
    }

    fn receive(&mut self, request: Request<KvOp>, since_start: Duration) -> Option<Duration> {
        let mut tick_afters = Vec::new();
        for index in 0..self.hosts.len() {
            self.hosts[index].0.receive(Message::Request(request.clone()));
            tick_afters.push(self.proceed_service(index as u16, since_start));
        }
        earliest(&tick_afters)
    }
}

#[test]
fn multiple_services() {
    let mut state = SystemState::with_config(ShardedStorageConfig {
        num_node: 2,
        num_faulty_node: 0,
        num_stripe: 2,
        num_active_copy: 1,
        bypass_vote: true,
    });
    state.receive(request(1, KvOp::Put("k".into(), "v".into())), Duration::zero());
    state.run(Duration::zero());
    assert_eq!(state.replies.len(), 2);
}

fn garbage_collect(config: ShardedStorageConfig, keys: impl IntoIterator<Item = String> + Clone) {
    let mut state = SystemState::with_config(config.clone());
    let mut seq = 0;
    for (i, key) in keys.clone().into_iter().enumerate() {
        seq += 1;
        state.receive(
            request(seq, KvOp::Put(key.clone(), format!("v{i}"))),
            Duration::zero(),
        );
        seq += 1;
        state.receive(request(seq, KvOp::Get(key)), Duration::zero());
    }
    state.run(Duration::zero());
    assert_eq!(state.replies.len(), 6 * config.num_node as usize);
    for i in 0..keys.clone().into_iter().count() {
        let count = state
            .replies
            .iter()
            .filter(|(_, reply)| match &reply.res {
                KvRes::Put | KvRes::Get(None) => false,
                KvRes::Get(Some(v)) => v == &format!("v{i}"),
            })
            .count();
        assert_eq!(count, config.num_node as usize, "v{i}")
    }
    let mut active_count = 0;
    for (_, storage) in &state.hosts {
        active_count += storage.iter().filter(|(k, _)| k.contains('.')).count();
        let archive_count = storage.iter().filter(|(k, _)| k.contains('-')).count();
        assert_eq!(archive_count, config.num_stripe as usize)
    }
    assert_eq!(
        active_count,
        HashSet::<String>::from_iter(keys.into_iter()).len()
    )
}

#[test]
fn garbage_collect1() {
    garbage_collect(
        ShardedStorageConfig {
            num_node: 1,
            num_faulty_node: 0,
            num_stripe: 1,
            num_active_copy: 1,
            bypass_vote: true,
        },
        repeat_n("k".into(), 3),
    )
}

#[test]
fn garbage_collect4() {
    garbage_collect(
        ShardedStorageConfig {
            num_node: 4,
            num_faulty_node: 1,
            num_stripe: 1,
            num_active_copy: 1,
            bypass_vote: true,
        },
        repeat_n("k".into(), 3),
    )
}

#[test]
fn garbage_collect4_stripe2() {
    garbage_collect(
        ShardedStorageConfig {
            num_node: 4,
            num_faulty_node: 1,
            num_stripe: 2,
            num_active_copy: 1,
            bypass_vote: true,
        },
        repeat_n("k".into(), 3),
    )
}

#[test]
fn garbage_collect4_key3() {
    garbage_collect(
        ShardedStorageConfig {
            num_node: 4,
            num_faulty_node: 1,
            num_stripe: 1,
            num_active_copy: 1,
            bypass_vote: true,
        },
        (0..3).map(|i| format!("k{i}")),
    )
}

// every server orders on its own, and sees only its own vote
#[test]
fn one_vote_of_four_archives_nothing() {
    let config = ShardedStorageConfig {
        num_node: 4,
        num_faulty_node: 1,
        num_stripe: 3,
        num_active_copy: 2,
        bypass_vote: false,
    };
    let mut state = SystemState::with_config(config);
    for seq in 1..=6 {
        state.receive(
            request(seq, KvOp::Put(format!("k{}", seq % 2), format!("v{seq}"))),
            Duration::zero(),
        );
    }
    state.run(Duration::zero());
    assert_eq!(state.replies.len(), 24);
    for (_, storage) in &state.hosts {
        assert_eq!(storage.keys().filter(|k| k.contains('-')).count(), 0);
    }
}

#[test]
fn single_vote_is_a_quorum_of_one() {
    let config = ShardedStorageConfig {
        num_node: 1,
        num_faulty_node: 0,
        num_stripe: 2,
        num_active_copy: 1,
        bypass_vote: false,
    };
    let mut state = SystemState::with_config(config);
    for seq in 1..=4 {
        state.receive(request(seq, KvOp::Put("k".into(), format!("v{seq}"))), Duration::zero());
    }
    let (_, storage) = &state.hosts[0];
    assert_eq!(storage.keys().filter(|k| k.contains('-')).count(), 2);
    assert_eq!(storage.keys().filter(|k| k.contains('.')).count(), 1);
}

#[test]
fn names_of_values_and_shards() {
    let config = ShardedStorageConfig {
        num_node: 1,
        num_faulty_node: 0,
        num_stripe: 1,
        num_active_copy: 1,
        bypass_vote: true,
    };
    let mut state = SystemState::with_config(config);
    state.receive(request(1, KvOp::Put("k".into(), "v".into())), Duration::zero());
    let (_, storage) = &state.hosts[0];
    let digest = <sha2::Sha256 as sha2::Digest>::digest(b"k");
    let hex: String = digest.iter().map(|byte| format!("{byte:02x}")).collect();
    // the encoded text is its length and its bytes
    assert_eq!(*storage[&format!("1.{hex}")], vec![1, b'v']);
    // one group (number 0) with one value
    let mut stripe = vec![1, 0, 1];
    stripe.extend(digest);
    stripe.extend([2, 1, b'v']);
    assert_eq!(*storage["0-0"], stripe);
    assert_eq!(storage.len(), 2);
}

#[test]
fn parity_restores_a_stripe() {
    let config = ShardedStorageConfig {
        num_node: 4,
        num_faulty_node: 1,
        num_stripe: 1,
        num_active_copy: 1,
        bypass_vote: true,
    };
    let mut state = SystemState::with_config(config);
    state.receive(request(1, KvOp::Put("k".into(), "v".into())), Duration::zero());
    state.run(Duration::zero());
    let shard = |i: usize| state.hosts[i].1[&format!("0-{i}")].clone();
    // shards 0 and 1 are the stripe, shards 2 and 3 are parity
    let restored = reed_solomon_simd::decode(
        2,
        2,
        [(0usize, &[0u8; 0][..]); 0],
        [(0, &shard(2)[..]), (1, &shard(3)[..])],
    )
    .unwrap();
    assert_eq!(restored[&0], *shard(0));
    assert_eq!(restored[&1], *shard(1));
    assert_ne!(*shard(2), *shard(0));
}

#[test]
fn cached_values_are_not_fetched() {
    let config = ShardedStorageConfig {
        num_node: 4,
        num_faulty_node: 1,
        num_stripe: 1,
        num_active_copy: 1,
        bypass_vote: false,
    };
    let mut state = SystemState::with_cache(config, 1);
    state.receive(request(1, KvOp::Put("k".into(), "v".into())), Duration::zero());
    state.receive(request(2, KvOp::Get("k".into())), Duration::zero());
    // all hosts answer without talking to each other
    assert_eq!(state.replies.len(), 8);
    assert!(state.service_network.is_empty());
    for (_, reply) in &state.replies[4..] {
        assert_eq!(reply.res, KvRes::Get(Some("v".into())));
    }
    // another value takes the place of the cached one
    state.receive(request(3, KvOp::Put("l".into(), "w".into())), Duration::zero());
    state.receive(request(4, KvOp::Get("k".into())), Duration::zero());
    assert!(!state.service_network.is_empty());
    state.run(Duration::zero());
    assert_eq!(state.replies.len(), 16);
    for (_, reply) in &state.replies[12..] {
        assert_eq!(reply.res, KvRes::Get(Some("v".into())));
    }
}

#[test]
fn requests_are_answered_once() {
    let config = ShardedStorageConfig {
        num_node: 1,
        num_faulty_node: 0,
        num_stripe: 1,
        num_active_copy: 1,
        bypass_vote: false,
    };
    let mut state = SystemState::with_config(config);
    state.receive(request(2, KvOp::Get("k".into())), Duration::zero());
    assert_eq!(state.replies.len(), 1);
    assert_eq!(state.replies[0].1.res, KvRes::Get(None));
    // the last reply again, nothing for an earlier request
    state.receive(request(2, KvOp::Put("k".into(), "v".into())), Duration::zero());
    assert_eq!(state.replies.len(), 2);
    assert_eq!(state.replies[1].1.res, KvRes::Get(None));
    state.receive(request(1, KvOp::Put("k".into(), "v".into())), Duration::zero());
    assert_eq!(state.replies.len(), 2);
}

#[test]
fn full_replication_keeps_the_last_version() {
    let mut service: BigService<Kv, UnreplicatedReplica<BigServiceLog<Kv, _>>, _> =
        BigService::new(
            Kv,
            UnreplicatedReplica::new(),
            FullReplicationStorage::new(),
            ServiceConfig { num_cached_value: 0, executing_buffer_size: 10 },
        );
    let mut store = HashMap::<String, Bytes>::new();
    let mut results = Vec::new();
    service.receive(Message::Request(request(1, KvOp::Get("k".into()))));
    service.receive(Message::Request(request(2, KvOp::Put("k".into(), "v".into()))));
    service.receive(Message::Request(request(3, KvOp::Put("k".into(), "w".into()))));
    service.receive(Message::Request(request(4, KvOp::Get("k".into()))));
    loop {
        match service.proceed(Duration::zero()) {
            Action::Pending(tick_after) => {
                assert_eq!(tick_after, None);
                break;
            }
            Action::Perform(Effect::Reply(client_id, reply)) => {
                assert_eq!(client_id, 0);
                results.push(reply.res)
            }
            Action::Perform(Effect::Intermediate(ServiceEffect::Storage(
                StorageStateEffect::Store(Store::Get(key)),
            ))) => {
                let value = store[&key].clone();
                service.get_complete(key, value)
            }
            Action::Perform(Effect::Intermediate(ServiceEffect::Storage(
                StorageStateEffect::Store(Store::Put(key, value)),
            ))) => {
                store.insert(key.clone(), value);
                service.put_complete(key)
            }
            _ => unreachable!(),
        }
    }
    assert_eq!(
        results,
        vec![KvRes::Get(None), KvRes::Put, KvRes::Put, KvRes::Get(Some("w".into()))]
    );
    assert_eq!(store.len(), 1);
    assert!(store.keys().all(|key| key.len() == 64));
}

#[test]
fn skipped_requests_are_not_answered() {
    let config = ShardedStorageConfig {
        num_node: 4,
        num_faulty_node: 1,
        num_stripe: 1,
        num_active_copy: 4,
        bypass_vote: false,
    };
    let mut state = SystemState {
        hosts: vec![(service(config, 0, 0), Default::default())],
        service_network: Default::default(),
        replies: Default::default(),
    };
    // the others are two versions ahead
    let archived = Archived { version: 2, node_indices: vec![1, 2, 3] };
    let message = ServiceMessage::Storage(ShardedStorageMessage::Archived(archived));
    state.hosts[0].0.receive(Message::Intermediate(message));
    for seq in 1..=4 {
        state.receive(request(seq, KvOp::Get("k".into())), Duration::zero());
    }
    let seqs: Vec<_> = state.replies.iter().map(|(_, reply)| reply.client_seq).collect();
    assert_eq!(seqs, [3, 4]);
}

#[test]
fn values_are_read_from_other_nodes() {
    let config = ShardedStorageConfig {
        num_node: 2,
        num_faulty_node: 0,
        num_stripe: 1,
        num_active_copy: 1,
        bypass_vote: false,
    };
    let key = (0..).map(|i| Key([i; 32])).find(|key| config.group_of(key) == 1).unwrap();
    let now = Duration::zero();
    let mut asker = ShardedStorage::new(config, vec![0]);
    let mut owner = ShardedStorage::new(config, vec![1]);
    let value: Bytes = b"value".to_vec().into();
    for storage in [&mut asker, &mut owner] {
        storage.bump(vec![(key, value.clone())]);
    }
    while !matches!(asker.proceed(now), Action::Pending(_)) {}
    while !matches!(owner.proceed(now), Action::Pending(_)) {}
    asker.fetch(key);
    let Action::Perform(StorageStateEffect::Send((Dest::Multi(nodes), query))) =
        asker.proceed(now)
    else {
        panic!("no question")
    };
    assert_eq!(nodes, [1]);
    owner.receive(query.clone());
    let Action::Perform(StorageStateEffect::Store(Store::Get(name))) = owner.proceed(now) else {
        panic!("no read")
    };
    // a value that is being read is not read again
    owner.receive(query);
    owner.fetch(key);
    assert!(matches!(owner.proceed(now), Action::Pending(_)));
    owner.get_complete(name, value.clone());
    let Action::Perform(StorageStateEffect::Send((Dest::One(0), answer))) = owner.proceed(now)
    else {
        panic!("no answer")
    };
    let Action::Output(StorageStateOutput::Fetched(fetched, Some(bytes))) = owner.proceed(now)
    else {
        panic!("no value here")
    };
    assert_eq!((fetched, bytes), (key, value.clone()));
    asker.receive(answer.clone());
    let Action::Output(StorageStateOutput::Fetched(fetched, Some(bytes))) = asker.proceed(now)
    else {
        panic!("no value there")
    };
    assert_eq!((fetched, bytes), (key, value));
    // once
    asker.receive(answer);
    assert!(matches!(asker.proceed(now), Action::Pending(_)));
}
