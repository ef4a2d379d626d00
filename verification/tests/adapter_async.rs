use hyperpipe::adapter::{AsyncHyperPipe, PollOutcome, WakeCell};
use hyperpipe::engine::DataEntry;
use hyperpipe::manifest::Manifest;

#[test]
fn in_out() {
    let mut p1 = AsyncHyperPipe::new(0);
    let v1 = vec![1u8, 2, 3, 4, 5, 6];
    let plan = p1.push(v1.clone(), 50);

    let entries = vec![DataEntry { name: plan.data_name.clone(), created: 50 }];
    let (disk, _) = Manifest::load(&plan.manifest_bytes);

    let mut p2 = AsyncHyperPipe::new(0);
    let idx = p2.inner.pull(&disk, &entries).expect("the pushed record is pending");
    let payload = p2.inner.finish_pull(&entries[idx], plan.payload);
    let v2 = match p2.poll_step(Some(payload)) {
        PollOutcome::Ready(data) => data,
        _ => panic!("a pull with data resolves the poll"),
    };
    assert_eq!(v1, v2);
}

#[test]
fn async_wake_after_suspension() {
    // No data yet: the adapter registers and suspends.
    let mut consumer = AsyncHyperPipe::new(0);
    let mut cell = WakeCell::new();
    let disk = Manifest { latest: None };
    let mut entries: Vec<DataEntry> = vec![];

    assert_eq!(consumer.inner.pull(&disk, &entries), None);
    assert!(matches!(consumer.poll_step(None), PollOutcome::Register));
    assert!(!cell.register());

    // A producer pushes from elsewhere; the manifest rename fires a
    // directory event, which finds the continuation installed.
    let mut producer = AsyncHyperPipe::new(0);
    let plan = producer.push(vec![8, 8, 8], 60);
    entries.push(DataEntry { name: plan.data_name.clone(), created: 60 });
    let (disk, _) = Manifest::load(&plan.manifest_bytes);
    assert!(cell.on_event());

    // The wake re-drives the poll, which now resolves to the payload.
    consumer.on_wake();
    let idx = consumer.inner.pull(&disk, &entries).expect("woken with data pending");
    let payload = consumer.inner.finish_pull(&entries[idx], plan.payload);
    match consumer.poll_step(Some(payload)) {
        PollOutcome::Ready(data) => assert_eq!(data, vec![8, 8, 8]),
        _ => panic!("the wake delivers the pushed payload"),
    }
}

#[test]
fn event_before_registration_is_not_lost() {
    let mut cell = WakeCell::new();
    // The producer's rename fires before the consumer has registered:
    // the event is remembered, not dropped.
    assert!(!cell.on_event());
    // Registering afterward consumes it and wakes at once.
    assert!(cell.register());
    // Nothing is left pending: a further registration arms the cell.
    assert!(!cell.register());
    assert!(cell.on_event());
}

#[test]
fn repolling_while_suspended_does_not_rearm() {
    let mut consumer = AsyncHyperPipe::new(0);
    assert!(matches!(consumer.poll_step(None), PollOutcome::Register));
    // A spurious re-poll while awaiting registers nothing further.
    assert!(matches!(consumer.poll_step(None), PollOutcome::Suspend));
    assert!(matches!(consumer.poll_step(None), PollOutcome::Suspend));
}

#[test]
fn staggered_delivery() {
    let payload = vec![42u8, 42, 42];
    let mut producer = AsyncHyperPipe::new(0);
    let mut consumer = AsyncHyperPipe::new(0);
    let mut entries: Vec<DataEntry> = vec![];
    let mut disk = Manifest { latest: None };

    // Four pushes of the same payload, separated in time; the consumer
    // awaits each in turn, and none is skipped or duplicated.
    for round in 0..4u64 {
        let ts = 100 + round * 10;
        let plan = producer.push(payload.clone(), ts);
        entries.push(DataEntry { name: plan.data_name.clone(), created: ts });
        let (loaded, healed) = Manifest::load(&plan.manifest_bytes);
        assert!(!healed);
        disk = loaded;

        let idx = consumer.inner.pull(&disk, &entries).expect("one record is pending");
        let e = entries.remove(idx);
        assert_eq!(e.created, ts);
        let got = consumer.inner.finish_pull(&e, plan.payload);
        match consumer.poll_step(Some(got)) {
            PollOutcome::Ready(data) => assert_eq!(data, payload),
            _ => panic!("each round delivers the payload"),
        }
    }
    assert!(entries.is_empty());
    assert_eq!(consumer.inner.pull(&disk, &entries), None);
}
