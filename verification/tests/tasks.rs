use bigserve::app::kv::{Kv, KvOp, KvRes};
use bigserve::app::{DataShardingApp, DataShardingExecuteOutput, DataShardingExecuteState};
use bigserve::crypto::Digest;
use bigserve::service::big::config::{Key, ShardedStorageConfig};
use bigserve::service::big2::names::{
    collect_step, gather_start, gather_step, lookup, stripe_prefix, version_name, GatherStep,
    ScanStep,
};
use bigserve::service::big2::storage::{InvokeManager, QueryOk};
use bigserve::service::big2::{ExecuteRequest, ExecuteStep, Executor};
use bigserve::service::Store;
use bigserve::storage::{
    as_primary_in_groups, db_name, preload_name, record_key, stripe_of, Bump, Storage,
};
use std::collections::{BTreeMap, HashSet};
use std::sync::Arc;

fn config() -> ShardedStorageConfig {
    ShardedStorageConfig {
        num_node: 4,
        num_faulty_node: 1,
        num_stripe: 300,
        num_active_copy: 2,
        bypass_vote: false,
    }
}

fn hex(bytes: &[u8]) -> String {
    bytes.iter().map(|byte| format!("{byte:02x}")).collect()
}

#[test]
fn names_of_versions() {
    let config = config();
    let key = Key([0xa7; 32]);
    let stripe = config.stripe_of(&key);
    let name = version_name(&config, &key, 0x1f);
    assert_eq!(name, format!("+{stripe:04x}.{}.0000001f", hex(&key.0)));
    let name = version_name(&config, &key, 0x1_2345_6789);
    assert_eq!(name, format!("+{stripe:04x}.{}.123456789", hex(&key.0)));
    assert_eq!(stripe_prefix(0x12c), "+012c.");
}

// the last entry that is not after the name, if it belongs to the key
fn find(db: &BTreeMap<Vec<u8>, &'static str>, key: &Key, version: u64) -> Option<&'static str> {
    let lookup = lookup(&config(), key, version);
    let (name, value) = db.range(..=lookup.seek.into_bytes()).next_back()?;
    let prefix = lookup.prefix.clone();
    assert_eq!(
        bigserve::service::big2::names::Lookup { seek: String::new(), prefix }.accepts(name),
        name.starts_with(lookup.prefix.as_bytes())
    );
    if name.starts_with(lookup.prefix.as_bytes()) {
        Some(*value)
    } else {
        None
    }
}

#[test]
fn lookups_and_scans() {
    let config = config();
    let keys = [Key([1; 32]), Key([2; 32])];
    let mut db = BTreeMap::new();
    for (key, version, value) in
        [(0, 1, "a1"), (0, 9, "a9"), (0, 10, "a10"), (1, 300, "b300")]
    {
        db.insert(version_name(&config, &keys[key], version).into_bytes(), value);
    }
    assert_eq!(find(&db, &keys[0], 0), None);
    assert_eq!(find(&db, &keys[0], 8), Some("a1"));
    assert_eq!(find(&db, &keys[0], 9), Some("a9"));
    assert_eq!(find(&db, &keys[0], 1000), Some("a10"));
    assert_eq!(find(&db, &keys[1], 299), None);
    // the values of a stripe
    let stripe = config.stripe_of(&keys[0]);
    let mut seek = stripe_prefix(stripe).into_bytes();
    let mut gathered = Vec::new();
    while let Some((name, value)) = db.range(seek.clone()..).next() {
        match gather_step(&config, stripe, name) {
            GatherStep::Done => break,
            GatherStep::Take(group, key, next) => {
                assert_eq!(group, config.group_of(&key));
                gathered.push((key, *value));
                seek = next;
            }
            GatherStep::Malformed => panic!("malformed"),
        }
    }
    assert!(gathered.contains(&(keys[0], "a1")));
    assert!(gathered.iter().all(|(key, _)| config.stripe_of(key) == stripe));
    // collecting
    let mut deleted = HashSet::new();
    let mut seek = Vec::new();
    while let Some((name, value)) = db.range(seek.clone()..).next() {
        match collect_step(name, 10) {
            ScanStep::Delete => {
                deleted.insert(*value);
                seek = name.clone();
                seek.push(0);
            }
            ScanStep::Seek(next) => seek = next,
            ScanStep::Malformed => panic!("malformed"),
        }
    }
    assert_eq!(deleted, HashSet::from(["a1", "a9"]));
}

#[test]
fn malformed_names() {
    assert!(matches!(collect_step(b"+0000.ab", 1), ScanStep::Malformed));
    assert!(matches!(collect_step(b"+0000.a.b.c", 1), ScanStep::Malformed));
    assert!(matches!(collect_step(b"+0000.ab.xyz", 1), ScanStep::Malformed));
    assert!(matches!(collect_step(b"+0000.ab.10000000000000000", 1), ScanStep::Malformed));
    assert!(matches!(collect_step(b"+0000.ab.", 1), ScanStep::Malformed));
    assert!(matches!(collect_step(b"+0000.ab.+", 1), ScanStep::Malformed));
    assert!(matches!(collect_step(b"+0000.\xff.0", 1), ScanStep::Malformed));
    assert!(matches!(collect_step(b"+0000.ab.0a", 0xb), ScanStep::Delete));
    assert!(matches!(collect_step(b"+0000.ab.0A", 0xb), ScanStep::Delete));
    assert!(matches!(collect_step(b"+0000.ab.+0a", 0xb), ScanStep::Delete));
    let config = config();
    assert!(matches!(gather_step(&config, 0, b"+0000.ab.00"), GatherStep::Malformed));
    assert!(matches!(gather_step(&config, 1, b"+0000.ab.00"), GatherStep::Done));
    // keys in either case, with or without a prefix
    for digits in ["ab".repeat(32), "AB".repeat(32), format!("0x{}", "aB".repeat(32))] {
        let name = format!("+0000.{digits}.00");
        let GatherStep::Take(group, key, seek) = gather_step(&config, 0, name.as_bytes()) else {
            panic!("malformed")
        };
        assert_eq!(key, Key([0xab; 32]));
        assert_eq!(group, config.group_of(&key));
        assert_eq!(seek, format!("+0000.{digits}.ffffffffffffffff").into_bytes());
    }
    let mut name = b"+0000.".to_vec();
    name.extend("ab".repeat(32).bytes());
    name.extend(b".\xff");
    assert!(matches!(gather_step(&config, 0, &name), GatherStep::Malformed));
    assert_eq!(gather_start(0x12c, 9), format!("+012c.{}.00000009", "0".repeat(64)));
}

fn begin(executor: &mut Executor<Kv, ()>, seq: u64, op: KvOp) -> ExecuteStep<bigserve::service::Reply<KvRes, ()>> {
    executor.begin(ExecuteRequest { state: Kv.new_execute(op), client_seq: seq, metadata: () })
}

#[test]
fn executor_fetches_and_bumps() {
    let mut executor = Executor::<Kv, ()>::new();
    let key = Key(Digest::of(b"k").0);
    let ExecuteStep::Complete(reply, updates) =
        begin(&mut executor, 1, KvOp::Put("k".into(), "v".into()))
    else {
        panic!("not complete")
    };
    assert_eq!((reply.client_seq, reply.res), (1, KvRes::Put));
    assert_eq!(updates.len(), 1);
    assert_eq!(updates[0].0, key);
    let ExecuteStep::Fetch(keys) = begin(&mut executor, 2, KvOp::Get("k".into())) else {
        panic!("nothing to fetch")
    };
    assert_eq!(keys, vec![key]);
    let ExecuteStep::Complete(reply, updates) =
        executor.fetched(vec![Some(updates[0].1.clone())])
    else {
        panic!("not complete")
    };
    assert_eq!(reply.res, KvRes::Get(Some("v".into())));
    assert!(updates.is_empty());
    // skip the current request and two more
    begin(&mut executor, 3, KvOp::Get("k".into()));
    executor.skip(3);
    assert!(matches!(begin(&mut executor, 4, KvOp::Get("k".into())), ExecuteStep::Next));
    assert!(matches!(begin(&mut executor, 5, KvOp::Get("k".into())), ExecuteStep::Next));
    assert!(matches!(begin(&mut executor, 6, KvOp::Get("k".into())), ExecuteStep::Fetch(_)));
    let ExecuteStep::Complete(reply, _) = executor.fetched(vec![None]) else {
        panic!("not complete")
    };
    assert_eq!((reply.client_seq, reply.res), (6, KvRes::Get(None)));
}

#[test]
fn invocations_load_keys() {
    let config = config();
    let groups = config.groups_of_nodes(&vec![0]);
    let mut manager = InvokeManager::new(config, groups.clone(), vec![10, 11, 11, 13]);
    let keys: Vec<Key> = (0..20).map(|i| Key([i; 32])).collect();
    let plan = manager.invoke(&keys, false, 3);
    let is_local = |key: &&Key| groups.contains(&config.group_of(key));
    assert_eq!(plan.local, keys.iter().filter(is_local).copied().collect::<Vec<_>>());
    assert_eq!(plan.local.len() + plan.remote.len(), keys.len());
    for (key, servers) in &plan.remote {
        let expected: HashSet<u16> = config
            .nodes_of(key)
            .into_iter()
            .map(|node| [10, 11, 11, 13][node as usize])
            .collect();
        assert_eq!(servers.len(), expected.len());
        assert_eq!(servers.iter().copied().collect::<HashSet<_>>(), expected);
    }
    let key = plan.remote[0].0;
    manager.query_ok(QueryOk { version: 2, key: key.0, value: None });
    manager.query_ok(QueryOk { version: 3, key: key.0, value: Some(Arc::new(vec![1])) });
    manager.load(plan.local[0], None);
}

#[test]
fn database_names() {
    let config = config();
    let mut bytes = [3; 32];
    bytes[0] = 200;
    let key = Digest(bytes);
    let stripe = u64::from_le_bytes([200, 3, 3, 3, 3, 3, 3, 3]) % 300;
    assert_eq!(stripe_of(&config, &key) as u64, stripe);
    let group = config.group_of(&Key(bytes));
    let name = format!("/{group:04x}/{stripe:04x}/{}", hex(&bytes));
    assert_eq!(db_name(&config, &key), name);
    assert_eq!(preload_name(&config, &key), format!("{stripe:04x}/0000/{}", hex(&bytes)));
    assert_eq!(as_primary_in_groups(&config, &vec![2, 3]), vec![2, 3]);
    let mut storage = Storage::new(config);
    assert!(matches!(storage.fetch(&key), Store::Get(found) if found == name));
    let bump = Bump { inserts: vec![(key, Arc::new(vec![1]))], deletes: vec![key] };
    let accesses = storage.bump(&bump);
    assert_eq!(storage.version(), 1);
    assert_eq!(accesses.len(), 2);
    assert!(matches!(&accesses[0], Store::Put(found, value) if *found == name && **value == [1]));
    assert!(matches!(&accesses[1], Store::Delete(found) if *found == name));
}

#[test]
fn records_have_numbered_keys() {
    assert_eq!(record_key(42), Digest::of(b"key00000042"));
    assert_eq!(record_key(123456789), Digest::of(b"key123456789"));
}

#[test]
fn values_that_encode_no_text() {
    for (bytes, text) in [
        (vec![2, b'h', b'i'], Some("hi".into())),
        // too short for its length
        (vec![2, b'h'], None),
        (vec![253, 255, 255, 255, 255, 255, 255, 255, 255], None),
        (vec![1, 0xff], None),
        (vec![], None),
    ] {
        let mut execute = Kv.new_execute(KvOp::Get("k".into()));
        execute.install(Arc::new(b"k".to_vec()), Some(Arc::new(bytes)));
        let DataShardingExecuteOutput::Complete(res, _) = execute.proceed() else { panic!() };
        assert_eq!(res, KvRes::Get(text));
    }
}
