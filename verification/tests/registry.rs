use hydra::clients::{
    live_sorted, registration_values, ClientRecord, ClientRecords, LIVENESS_WINDOW_SEC,
};

#[test]
fn from_fields_parses_a_valid_timestamp() {
    let rec = ClientRecord::from_fields("w1".to_string(), "2020-01-01T00:00:00+00:00").unwrap();
    assert_eq!(rec.id, "w1");
    assert_eq!(rec.last_update, 1577836800);
}

#[test]
fn from_fields_rejects_garbage_and_empty_identities() {
    assert!(ClientRecord::from_fields("w1".to_string(), "not a timestamp").is_none());
    assert!(ClientRecord::from_fields(String::new(), "2020-01-01T00:00:00+00:00").is_none());
}

#[test]
fn last_update_field_renders_the_epoch() {
    let rec = ClientRecord { id: "w1".to_string(), last_update: 0 };
    assert_eq!(rec.last_update_field().unwrap(), "1970-01-01T00:00:00+00:00");
}

#[test]
fn registration_values_round_trip() {
    let (last_update, ttl) = registration_values(1_700_000_000).unwrap();
    assert_eq!(ttl, 1_700_000_000 + LIVENESS_WINDOW_SEC);
    let back = ClientRecord::from_fields("w1".to_string(), &last_update).unwrap();
    assert_eq!(back.last_update, 1_700_000_000);
}

#[test]
fn stale_records_never_survive_list_live() {
    let now: i64 = 1_000_000;
    let records = vec![
        ClientRecord { id: "crashed".to_string(), last_update: now - 16 },
        ClientRecord { id: "fresh".to_string(), last_update: now },
        ClientRecord { id: "boundary".to_string(), last_update: now - 15 },
    ];
    let live = live_sorted(records, now);
    let ids: Vec<&str> = live.0.iter().map(|r| r.id.as_str()).collect();
    assert_eq!(ids, vec!["boundary", "fresh"]);
}

#[test]
fn live_records_come_back_sorted_by_id() {
    let now: i64 = 500;
    let records = vec![
        ClientRecord { id: "zeta".to_string(), last_update: now },
        ClientRecord { id: "alpha".to_string(), last_update: now - 1 },
        ClientRecord { id: "mid".to_string(), last_update: now - 2 },
    ];
    let live = live_sorted(records, now);
    let ids: Vec<&str> = live.0.iter().map(|r| r.id.as_str()).collect();
    assert_eq!(ids, vec!["alpha", "mid", "zeta"]);
}

#[test]
fn ids_lists_identities_in_order() {
    let mut records = ClientRecords(vec![
        ClientRecord { id: "a".to_string(), last_update: 0 },
        ClientRecord { id: "b".to_string(), last_update: 0 },
    ]);
    assert_eq!(records.ids(), vec!["a", "b"]);
}
