use bigserve::app::kv::{KvOp, KvRes};
use bigserve::app::utxo::{Utxo as Ledger, UtxoData, UtxoError, UtxoId, UtxoOp, UtxoOpInput};
use bigserve::app::ycsb::{YcsbOp, YcsbRes};
use bigserve::app::AppProtocol;
use bigserve::crypto::Digest;
use bigserve::service::big::app::{
    AdaptError, AdaptKv, DataShardingExecuteOutput, DataShardingSchema, DefaultShard,
    InitDataShard, Kv, KvOps, KvResults, TextShard, Utxo, UtxoExecute,
};
use bigserve::workload::{Script, WorkloadState};
use std::collections::{HashMap, HashSet};
use std::hash::{BuildHasher, BuildHasherDefault, DefaultHasher};

fn put(key: &str, value: &str) -> KvOp {
    KvOp::Put(key.into(), value.into())
}

fn get(key: &str) -> KvOp {
    KvOp::Get(key.into())
}

fn shard_of(key: &str, num_shard: u32) -> u32 {
    let hash =
        BuildHasherDefault::<DefaultHasher>::default().hash_one(String::from(key));
    (hash % num_shard as u64) as u32
}

#[test]
fn sharded_kv() {
    let kv = Kv(DataShardingSchema::new(16));
    assert_eq!(kv.shard_of(&get("a")), shard_of("a", 16));
    assert_eq!(kv.shard_of(&put("b", "1")), shard_of("b", 16));
    let mut execute = kv.new_execute(KvOps(vec![
        put("a", "1"),
        get("a"),
        put("a", "2"),
        put("b", "3"),
        get("a"),
        get("c"),
    ]));
    let mut shards = HashMap::new();
    let required: HashSet<u32> = ["a", "b", "c"].map(|key| shard_of(key, 16)).into();
    match execute.proceed(&mut shards) {
        DataShardingExecuteOutput::RequireAccess(indices) => assert_eq!(indices, required),
        DataShardingExecuteOutput::Complete(_) => panic!("shards are missing"),
    }
    for index in required {
        shards.insert(index, TextShard::new());
    }
    let text = |text: &str| Some(String::from(text));
    match execute.proceed(&mut shards) {
        DataShardingExecuteOutput::Complete(results) => assert_eq!(
            results.0,
            vec![
                KvRes::Put,
                KvRes::Get(text("1")),
                KvRes::Put,
                KvRes::Put,
                KvRes::Get(text("2")),
                KvRes::Get(None),
            ]
        ),
        DataShardingExecuteOutput::RequireAccess(_) => panic!("shards are at hand"),
    }
    assert_eq!(shards[&shard_of("b", 16)].get(&"b".into()), text("3"));
    // nothing is left to execute
    match execute.proceed(&mut HashMap::new()) {
        DataShardingExecuteOutput::Complete(results) => assert!(results.0.is_empty()),
        DataShardingExecuteOutput::RequireAccess(_) => panic!("nothing is needed"),
    }
}

#[test]
fn default_shards() {
    let shards = DefaultShard(3);
    assert_eq!(InitDataShard::<u32>::num_shard(&shards), 3);
    assert_eq!(InitDataShard::<u32>::init(&shards, 1), 0);
}

struct Ycsb;

impl AppProtocol for Ycsb {
    type Op = YcsbOp;
    type Res = YcsbRes;
}

#[test]
fn adapted_workload() {
    let ops = vec![
        YcsbOp::Insert("k".into(), "1".into()),
        YcsbOp::Update("k".into(), "2".into()),
        YcsbOp::Get("k".into()),
    ];
    let mut workload = AdaptKv(Script::<Ycsb>::new(ops.into()));
    for expected in [put("k", "1"), put("k", "2"), get("k")] {
        let (ops, ()) = workload.next_op().unwrap();
        assert_eq!(ops.0, vec![expected]);
    }
    assert!(workload.next_op().is_none());
    for res in [KvRes::Put, KvRes::Get(None), KvRes::Get(Some("2".into()))] {
        assert!(workload.complete((), KvResults(vec![res])).is_ok());
    }
    assert!(matches!(
        workload.complete((), KvResults(vec![])),
        Err(AdaptError::NotOne)
    ));
    assert_eq!(
        workload.0.into_results(),
        vec![YcsbRes::Done, YcsbRes::NotFound, YcsbRes::Get("2".into())]
    );
}

fn mint(values: &[u64]) -> UtxoOp {
    UtxoOp {
        input: UtxoOpInput::Mint,
        outputs: values.iter().map(|&value| UtxoData { value }).collect(),
    }
}

fn run(
    execute: &mut UtxoExecute,
    shards: &mut HashMap<u32, Ledger>,
) -> Result<(), UtxoError> {
    if let DataShardingExecuteOutput::RequireAccess(indices) = execute.proceed(shards) {
        for index in indices {
            shards.insert(index, Ledger::new());
        }
    } else {
        panic!("shards are missing")
    }
    match execute.proceed(shards) {
        DataShardingExecuteOutput::Complete(result) => result.0,
        DataShardingExecuteOutput::RequireAccess(_) => panic!("shards are at hand"),
    }
}

#[test]
fn ledger_keeps_value() {
    let op = mint(&[5, 7]);
    let tx = op.tx_id();
    let mut bytes = Vec::new();
    bytes.extend(5u64.to_le_bytes());
    bytes.extend(7u64.to_le_bytes());
    let digest: [u8; 32] = <sha2::Sha256 as sha2::Digest>::digest(&bytes).into();
    assert_eq!(tx, Digest(digest));
    let mut shards = HashMap::new();
    assert_eq!(run(&mut UtxoExecute::with_shards(op, vec![], vec![0, 1]), &mut shards), Ok(()));
    let data = |value| UtxoData { value };
    assert_eq!(shards[&0].get(&UtxoId(tx, 0)), Some(data(5)));
    assert_eq!(shards[&1].get(&UtxoId(tx, 1)), Some(data(7)));
    let spend = |ids: &[u32], values: &[u64]| UtxoOp {
        input: UtxoOpInput::Spend(ids.iter().map(|&id| (UtxoId(tx, id), data(0))).collect()),
        outputs: values.iter().map(|&value| data(value)).collect(),
    };
    // more than there is
    let mut execute = UtxoExecute::with_shards(spend(&[0, 1], &[13]), vec![0, 1], vec![2]);
    assert_eq!(run(&mut execute, &mut shards), Err(UtxoError::InsufficientFunds));
    assert_eq!(shards[&0].get(&UtxoId(tx, 0)), Some(data(5)));
    // all there is
    let op = spend(&[0, 1], &[12]);
    let next = op.tx_id();
    let mut execute = UtxoExecute::with_shards(op, vec![1, 0, 1], vec![3]);
    assert_eq!(run(&mut execute, &mut shards), Ok(()));
    assert_eq!(shards[&0].get(&UtxoId(tx, 0)), None);
    assert_eq!(shards[&1].get(&UtxoId(tx, 1)), None);
    assert_eq!(shards[&3].get(&UtxoId(next, 0)), Some(data(12)));
    // what is spent is gone
    let mut execute = UtxoExecute::with_shards(spend(&[0], &[1]), vec![0], vec![4]);
    assert_eq!(run(&mut execute, &mut shards), Err(UtxoError::InsufficientFunds));
}

#[test]
fn ledger_in_hashed_shards() {
    let utxo = Utxo(DataShardingSchema::new(4));
    let op = mint(&[1; 20]);
    let tx = op.tx_id();
    let mut shards = HashMap::new();
    assert_eq!(run(&mut utxo.new_execute(op), &mut shards), Ok(()));
    for index in 0..20 {
        let holders = shards
            .iter()
            .filter(|(_, shard)| shard.get(&UtxoId(tx, index)).is_some())
            .map(|(shard, _)| *shard)
            .collect::<Vec<_>>();
        let hash = BuildHasherDefault::<DefaultHasher>::default().hash_one((tx.0, index));
        assert_eq!(holders, vec![(hash % 4) as u32]);
    }
}
