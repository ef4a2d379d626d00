use hyperpipe::engine::{DataEntry, HyperPipe};
use hyperpipe::manifest::Manifest;

#[test]
fn ping_pong() {
    let mut p1 = HyperPipe::new(0);
    let v1 = vec![1u8, 2, 3, 4, 5, 6];
    let plan = p1.push(v1.clone(), 100);
    assert_eq!(plan.payload, v1);

    // The directory now holds the one data file; the manifest bytes were
    // renamed into place and read back by the consumer.
    let entries = vec![DataEntry { name: plan.data_name.clone(), created: 100 }];
    let (disk, healed) = Manifest::load(&plan.manifest_bytes);
    assert!(!healed);
    assert_eq!(disk.latest, Some(100));

    let mut p2 = HyperPipe::new(0);
    let idx = p2.pull(&disk, &entries);
    assert_eq!(idx, Some(0));
    let v2 = p2.finish_pull(&entries[0], plan.payload);
    assert_eq!(v1, v2);
    assert_eq!(p2.manifest.latest, Some(100));

    // The record was removed on delivery: nothing is pending afterward.
    let empty: Vec<DataEntry> = vec![];
    assert_eq!(p2.pull(&disk, &empty), None);
}

#[test]
fn empty_payload_round_trips() {
    let mut producer = HyperPipe::new(0);
    let plan = producer.push(Vec::new(), 3);
    let entries = vec![DataEntry { name: plan.data_name.clone(), created: 3 }];
    let (disk, _) = Manifest::load(&plan.manifest_bytes);
    let mut consumer = HyperPipe::new(0);
    let idx = consumer.pull(&disk, &entries).expect("the empty record is pending");
    let got = consumer.finish_pull(&entries[idx], plan.payload);
    assert!(got.is_empty());
}

#[test]
fn empty_pipe_returns_no_data() {
    let p = HyperPipe::new(0);
    let disk = Manifest { latest: None };
    let entries: Vec<DataEntry> = vec![];
    assert_eq!(p.pull(&disk, &entries), None);
}

#[test]
fn ordering_by_creation_time() {
    let mut consumer = HyperPipe::new(0);
    let disk = Manifest { latest: Some(30) };
    let mut entries = vec![
        DataEntry { name: b"c.bin".to_vec(), created: 30 },
        DataEntry { name: b"a.bin".to_vec(), created: 10 },
        DataEntry { name: b"b.bin".to_vec(), created: 20 },
    ];
    let mut delivered: Vec<u64> = vec![];
    for _ in 0..3 {
        let idx = consumer.pull(&disk, &entries).expect("a record is pending");
        let e = entries.remove(idx);
        delivered.push(e.created);
        consumer.advance(e.created);
    }
    assert_eq!(delivered, vec![10, 20, 30]);
    assert_eq!(consumer.pull(&disk, &entries), None);
}

#[test]
fn equal_timestamps_tie_break_by_name() {
    let p = HyperPipe::new(0);
    let disk = Manifest { latest: Some(5) };
    let entries = vec![
        DataEntry { name: b"beta.bin".to_vec(), created: 5 },
        DataEntry { name: b"alpha.bin".to_vec(), created: 5 },
    ];
    assert_eq!(p.pull(&disk, &entries), Some(1));
}

#[test]
fn backlog_redelivered_to_fresh_handle() {
    // Another process consumed up to timestamp 999 and recorded that in
    // the on-disk manifest; a brand-new handle still sees the backlog.
    let p = HyperPipe::new(0);
    let disk = Manifest { latest: Some(999) };
    let entries = vec![
        DataEntry { name: b"x.bin".to_vec(), created: 5 },
        DataEntry { name: b"y.bin".to_vec(), created: 6 },
    ];
    assert_eq!(p.pull(&disk, &entries), Some(0));
}

#[test]
fn unchanged_manifest_skips_the_scan() {
    let mut p = HyperPipe::new(0);
    p.advance(10);
    let disk = Manifest { latest: Some(10) };
    let entries = vec![DataEntry { name: b"old.bin".to_vec(), created: 4 }];
    assert_eq!(p.pull(&disk, &entries), None);
}

#[test]
fn pull_skips_records_at_or_before_cursor() {
    let mut p = HyperPipe::new(0);
    p.advance(20);
    let disk = Manifest { latest: Some(25) };
    let entries = vec![
        DataEntry { name: b"stale.bin".to_vec(), created: 20 },
        DataEntry { name: b"new.bin".to_vec(), created: 25 },
    ];
    assert_eq!(p.pull(&disk, &entries), Some(1));
}

#[test]
fn generated_ids_are_hex_dot_bin() {
    let id = hyperpipe::engine::generate_data_id();
    assert!(id.len() >= 5);
    let (stem, suffix) = id.split_at(id.len() - 4);
    assert_eq!(suffix, b".bin");
    for b in stem {
        assert!(b.is_ascii_hexdigit() && !b.is_ascii_uppercase());
    }
    assert_ne!(id, b"manifest".to_vec());
}

#[test]
fn push_records_timestamp_in_manifest_bytes() {
    let mut p = HyperPipe::new(7);
    let plan = p.push(vec![9, 9], 424242);
    assert_eq!(p.manifest.latest, Some(424242));
    assert_eq!(p.lag_ms, 7);
    let (m, healed) = Manifest::load(&plan.manifest_bytes);
    assert!(!healed);
    assert_eq!(m.latest, Some(424242));
}
