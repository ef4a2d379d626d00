use hyperpipe::manifest::{encode_manifest, manifest_path, parse_manifest, Manifest};

#[test]
fn encode_empty_manifest() {
    let m = Manifest { latest: None };
    assert_eq!(encode_manifest(&m), b"{\"latest\":null}".to_vec());
}

#[test]
fn encode_cursor_manifest() {
    let m = Manifest { latest: Some(1234567890) };
    assert_eq!(encode_manifest(&m), b"{\"latest\":1234567890}".to_vec());
}

#[test]
fn encode_zero_and_max() {
    assert_eq!(encode_manifest(&Manifest { latest: Some(0) }), b"{\"latest\":0}".to_vec());
    assert_eq!(
        encode_manifest(&Manifest { latest: Some(u64::MAX) }),
        b"{\"latest\":18446744073709551615}".to_vec()
    );
}

#[test]
fn parse_round_trips() {
    for latest in [None, Some(0u64), Some(1), Some(42), Some(u64::MAX)] {
        let bytes = encode_manifest(&Manifest { latest });
        let parsed = parse_manifest(&bytes).expect("an encoded manifest parses");
        assert_eq!(parsed.latest, latest);
    }
}

#[test]
fn parse_rejects_corruption() {
    let corrupt: [&[u8]; 8] = [
        b"",
        b"hello",
        b"{\"latest\":}",
        b"{\"latest\":01}",
        b"{\"latest\": 1}",
        b"{\"latest\":null} ",
        b"{\"latest\":18446744073709551616}",
        b"{\"newest\":null}",
    ];
    for bytes in corrupt {
        assert!(parse_manifest(&bytes.to_vec()).is_none());
    }
}

#[test]
fn load_heals_corruption_to_empty() {
    let (m, healed) = Manifest::load(&b"not a manifest".to_vec());
    assert!(healed);
    assert_eq!(m.latest, None);
}

#[test]
fn manifest_durability() {
    // What `update` hands out for the atomic rename is read back intact
    // by a later load, however often it is re-read.
    let mut m = Manifest { latest: None };
    let bytes = m.update(7_000_000_123);
    assert_eq!(m.latest, Some(7_000_000_123));
    for _ in 0..2 {
        let (reloaded, healed) = Manifest::load(&bytes);
        assert!(!healed);
        assert_eq!(reloaded.latest, Some(7_000_000_123));
    }
}

#[test]
fn manifest_path_joins_root() {
    let root = b"/tmp/pipe-dir".to_vec();
    assert_eq!(manifest_path(&root), b"/tmp/pipe-dir/manifest".to_vec());
}
