use bigserve::service::big::config::{Key, ShardedStorageConfig};
use bigserve::service::big::text::{active_name, parse_key, shard_name};
use bigserve::service::big::version_table::VersionTable;
use rand::rngs::StdRng;
use rand::seq::IteratorRandom;
use rand::{Rng, SeedableRng};

#[test]
fn print_active_placement() {
    let config = ShardedStorageConfig {
        num_node: 1000,
        num_faulty_node: 3,
        num_active_copy: 7,
        num_stripe: 1000,
        bypass_vote: true,
    };
    println!("{:?}", config.nodes_of_group(0));
    println!("{:?}", config.nodes_of_group(1));
    println!("{:?}", config.nodes_of_group(2));
    println!("{:?}", config.nodes_of_group(3));

    let mut node_overheads = [0; 10];
    for index in 0..config.num_active_group() {
        for node_index in config.nodes_of_group(index) {
            if let Some(count) = node_overheads.get_mut(node_index as usize) {
                *count += 1
            }
        }
    }
    for (node_index, num_key) in node_overheads.into_iter().enumerate() {
        println!("Node {node_index} has {num_key} shards")
    }
}

fn config() -> ShardedStorageConfig {
    ShardedStorageConfig {
        num_node: 10,
        num_faulty_node: 2,
        num_active_copy: 3,
        num_stripe: 25,
        bypass_vote: false,
    }
}

#[test]
fn groups_are_sampled() {
    let config = config();
    for group in 0..10 {
        let nodes = config.nodes_of_group(group);
        let sampled =
            (0..9u16).choose_multiple(&mut StdRng::seed_from_u64(group as u64), 2);
        assert_eq!(nodes.len(), 3);
        assert_eq!(nodes[0], group);
        for (i, sample) in sampled.into_iter().enumerate() {
            assert_eq!(nodes[i + 1], if sample >= group { sample + 1 } else { sample });
        }
    }
    let all = config.groups_of_nodes(&vec![4]);
    for group in 0..10 {
        assert_eq!(all.contains(&group), config.nodes_of_group(group).contains(&4));
    }
}

#[test]
fn more_copies_than_nodes() {
    let config = ShardedStorageConfig { num_active_copy: 100, ..config() };
    let mut nodes = config.nodes_of_group(3);
    nodes.sort();
    assert_eq!(nodes, (0..10).collect::<Vec<_>>());
}

#[test]
fn keys_have_groups_and_stripes() {
    let config = config();
    for i in 0..100u8 {
        let mut bytes = [i; 32];
        bytes[24] = 200;
        let key = Key(bytes);
        let group: u16 = StdRng::from_seed(bytes).random_range(0..10);
        assert_eq!(config.group_of(&key), group);
        assert_eq!(config.nodes_of(&key), config.nodes_of_group(group));
        let low = u64::from_le_bytes([200, i, i, i, i, i, i, i]);
        assert_eq!(config.stripe_of(&key) as u64, low % 25);
    }
}

#[test]
fn archives_are_spread() {
    let config = config();
    assert_eq!(config.repair_threshold(), 3);
    assert_eq!(config.stripe_width(), 7);
    assert_eq!(config.archive_nodes_of_stripe(24), vec![4, 5, 6, 7, 8, 9, 0]);
    // stripe 24 has shard 6 on node 0, stripes 1, 2 and 3 have none there
    let placements = config.archive_placements(0);
    assert_eq!(placements.len(), 7 + 7 + 2);
    assert!(placements.contains(&(24, 6)));
    assert!(placements.contains(&(0, 0)));
    assert!(placements.contains(&(10, 0)));
    assert!(placements.iter().all(|(stripe, _)| ![1, 2, 3].contains(stripe)));
    for node in 0..10 {
        for (stripe, shard) in config.archive_placements(node) {
            assert_eq!(config.archive_nodes_of_stripe(stripe)[shard], node);
        }
    }
}

#[test]
fn names() {
    let mut bytes = [0; 32];
    bytes[0] = 0xab;
    bytes[31] = 0x0f;
    let hex = format!("ab{}0f", "00".repeat(30));
    assert_eq!(active_name(&Key(bytes), 120), format!("120.{hex}"));
    assert_eq!(shard_name(7, 65), "7-65");
    assert_eq!(parse_key(&hex), Some(Key(bytes)));
    assert_eq!(parse_key(&format!("0x{}", hex.to_uppercase())), Some(Key(bytes)));
    assert_eq!(parse_key(&format!("0x{} {}\n", &hex[..3], &hex[3..])), Some(Key(bytes)));
    assert_eq!(parse_key(&format!(" 0x{hex}")), None);
    assert_eq!(parse_key(&hex[1..]), None);
    assert_eq!(parse_key(&format!("{hex}0")), None);
    assert_eq!(parse_key(&hex.replace('f', "g")), None);
}

#[test]
fn versions_in_effect() {
    let config = config();
    let mut table = VersionTable::new(config.num_stripe);
    let key = Key([1; 32]);
    let other = Key([2; 32]);
    for version in [2, 5, 9] {
        table.add(key, version, &config);
    }
    table.add(other, 7, &config);
    assert_eq!(table.find(&key, 1, &config), None);
    assert_eq!(table.find(&key, 2, &config), Some(2));
    assert_eq!(table.find(&key, 8, &config), Some(5));
    assert_eq!(table.find(&key, 100, &config), Some(9));
    assert_eq!(table.find(&Key([3; 32]), 100, &config), None);
    let snapshot = table.snapshot(config.stripe_of(&key), 8);
    assert!(snapshot.contains(&(key, 5)));
    // what is in effect stays, though it is older
    assert_eq!(table.collect(8), vec![(key, 2)]);
    assert_eq!(table.find(&key, 8, &config), Some(5));
    assert_eq!(table.find(&key, 4, &config), None);
    assert_eq!(table.find(&other, 8, &config), Some(7));
    assert_eq!(table.collect(20), vec![(key, 5)]);
    assert_eq!(table.collect(20), vec![]);
}
