use hydra::clients::{live_sorted, ClientRecord, ClientRecords};
use hydra::shards::{Config, Sharder};

fn records(ids: &[&str]) -> ClientRecords {
    let mut v: Vec<ClientRecord> = Vec::new();
    for id in ids {
        v.push(ClientRecord { id: id.to_string(), last_update: 0 });
    }
    ClientRecords(v)
}

fn shard_list(names: &[&str]) -> Vec<String> {
    names.iter().map(|s| s.to_string()).collect()
}

fn owned_for(client_id: &str, ids: &[&str], shards: &[&str]) -> Vec<String> {
    let mut sharder = Sharder::new(Config { client_id: client_id.to_string() }).unwrap();
    sharder.calculate_owned_shards(records(ids), shard_list(shards))
}

#[test]
fn identity_hash_matches_the_reference_values() {
    // FNV-1a test vectors: the empty string hashes to the offset basis.
    assert_eq!(hydra::shards::fnv1a_hash(""), 0xcbf29ce484222325);
    assert_eq!(hydra::shards::fnv1a_hash("a"), 0xaf63dc4c8601ec8c);
    assert_eq!(hydra::shards::fnv1a_hash("foobar"), 0x85944171f73967e8);
}

#[test]
fn single_worker_owns_everything() {
    let mut owned = owned_for("a", &["a"], &["s0", "s1", "s2", "s3"]);
    owned.sort();
    assert_eq!(owned, vec!["s0", "s1", "s2", "s3"]);
}

#[test]
fn two_workers_split_evenly() {
    let shards = ["s0", "s1", "s2", "s3"];
    let ids = ["a", "b"];
    let owned_a = owned_for("a", &ids, &shards);
    let owned_b = owned_for("b", &ids, &shards);
    assert_eq!(owned_a.len(), 2);
    assert_eq!(owned_b.len(), 2);
    let mut all: Vec<String> = owned_a.clone();
    all.extend(owned_b.clone());
    all.sort();
    assert_eq!(all, vec!["s0", "s1", "s2", "s3"]);
    for s in &owned_a {
        assert!(!owned_b.contains(s));
    }
}

#[test]
fn adding_a_worker_moves_some_shards_and_keeps_the_partition() {
    let shards = ["s0", "s1", "s2", "s3", "s4", "s5", "s6", "s7", "s8"];
    let three = ["a", "b", "c"];
    let four = ["a", "b", "c", "d"];

    let owner_of = |ids: &[&str]| -> std::collections::BTreeMap<String, String> {
        let mut map = std::collections::BTreeMap::new();
        for id in ids {
            for s in owned_for(id, ids, &shards) {
                let previous = map.insert(s, id.to_string());
                // no shard may belong to two owners
                assert!(previous.is_none());
            }
        }
        // every shard must have an owner
        assert_eq!(map.len(), shards.len());
        map
    };

    let before = owner_of(&three);
    let after = owner_of(&four);

    let moved = shards
        .iter()
        .filter(|s| before[**s] != after[**s])
        .count();
    assert!(moved >= 2, "only {moved} shards moved");
}

#[test]
fn nine_shards_over_four_workers_stay_balanced() {
    let shards = ["s0", "s1", "s2", "s3", "s4", "s5", "s6", "s7", "s8"];
    let ids = ["a", "b", "c", "d"];
    let mut total = 0;
    for id in &ids {
        let owned = owned_for(id, &ids, &shards);
        assert!(owned.len() == 2 || owned.len() == 3, "unbalanced: {}", owned.len());
        total += owned.len();
    }
    assert_eq!(total, shards.len());
}

#[test]
fn identical_inputs_give_identical_owned_sets() {
    let shards = ["s0", "s1", "s2", "s3", "s4"];
    let ids = ["w1", "w2", "w3"];
    for id in &ids {
        let first = owned_for(id, &ids, &shards);
        let second = owned_for(id, &ids, &shards);
        assert_eq!(first, second);
    }
}

#[test]
fn empty_inputs_give_empty_owned_sets() {
    assert!(owned_for("a", &[], &["s0", "s1"]).is_empty());
    assert!(owned_for("a", &["a", "b"], &[]).is_empty());
}

#[test]
fn unknown_worker_owns_nothing() {
    let owned = owned_for("ghost", &["a", "b"], &["s0", "s1", "s2"]);
    assert!(owned.is_empty());
}

#[test]
fn preference_orders_are_shuffled_not_sequential() {
    // With unshuffled preference orders every worker would scan the slots in
    // index order and the claims would stripe the shards round-robin over the
    // sorted workers. Check that the seeded shuffle breaks that pattern.
    let shards: Vec<String> = (0..30).map(|i| format!("s{i:02}")).collect();
    let shard_refs: Vec<&str> = shards.iter().map(|s| s.as_str()).collect();
    let ids = ["a", "b", "c"];
    let mut striped: Vec<Vec<String>> = vec![Vec::new(), Vec::new(), Vec::new()];
    for (i, s) in shards.iter().enumerate() {
        striped[i % 3].push(s.clone());
    }
    let all_striped = ids
        .iter()
        .enumerate()
        .all(|(k, id)| owned_for(id, &ids, &shard_refs) == striped[k]);
    assert!(!all_striped);
}

#[test]
fn a_crashed_worker_is_excluded_from_the_next_assignment() {
    let now: i64 = 10_000;
    let records = vec![
        ClientRecord { id: "alive-1".to_string(), last_update: now - 3 },
        ClientRecord { id: "crashed".to_string(), last_update: now - 16 },
        ClientRecord { id: "alive-2".to_string(), last_update: now },
    ];
    let live = live_sorted(records, now);
    let shards = shard_list(&["s0", "s1", "s2", "s3"]);

    let mut crashed = Sharder::new(Config { client_id: "crashed".to_string() }).unwrap();
    let owned = crashed.calculate_owned_shards(live, shards);
    assert!(owned.is_empty());
}

#[test]
fn duplicate_client_records_change_nothing() {
    let shards = ["s0", "s1", "s2", "s3"];
    let deduped = owned_for("a", &["a", "b"], &shards);
    let duplicated = owned_for("a", &["a", "a", "b", "b"], &shards);
    assert_eq!(deduped, duplicated);
}
