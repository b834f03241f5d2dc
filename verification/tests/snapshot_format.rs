use pazi::frecent_paths::PathFrecency;

#[test]
fn snapshot_round_trip_is_bit_identical() {
    let mut st = PathFrecency::load_from_bytes("/d/pazi.db".to_string(), &Vec::new()).unwrap();
    st.visit("/home/user/dev".to_string(), 1_600_000_000);
    st.visit("/tmp/ünïcødé dir".to_string(), 1_600_100_000);
    st.visit("/home/user/dev".to_string(), 1_600_200_000);

    let bytes = st.snapshot_bytes();
    let st2 = PathFrecency::load_from_bytes("/d/pazi.db".to_string(), &bytes).unwrap();

    // the reloaded store re-encodes to the very same bytes: with the
    // image's injectivity, its entries are bit-identical to the saved ones
    assert_eq!(st2.snapshot_bytes(), bytes);
}

#[test]
fn snapshot_round_trip_keeps_negative_scores() {
    let a = tempfile::TempDir::new().unwrap();
    let b = tempfile::TempDir::new().unwrap();
    let a_path = a.path().to_str().unwrap().to_string();
    let b_path = b.path().to_str().unwrap().to_string();
    let mut st = PathFrecency::load_from_bytes("/d/pazi.db".to_string(), &Vec::new()).unwrap();
    let diff = pazi::frecent_paths::PathFrecencyDiff::new(
        vec![(a_path.clone(), -123456789), (b_path.clone(), 42)],
        vec![],
    );
    st.apply_diff(diff).unwrap();
    let bytes = st.snapshot_bytes();
    let mut st2 = PathFrecency::load_from_bytes("/d/pazi.db".to_string(), &bytes).unwrap();
    assert_eq!(st2.snapshot_bytes(), bytes);
    let mut raw = st2.items_with_frecency_raw();
    raw.sort_by(|x, y| x.0.cmp(&y.0));
    let mut expected = vec![(a_path, -123456789), (b_path, 42)];
    expected.sort_by(|x, y| x.0.cmp(&y.0));
    assert_eq!(raw, expected);
}

#[test]
fn empty_file_starts_fresh() {
    let mut st = PathFrecency::load_from_bytes("/d/pazi.db".to_string(), &Vec::new()).unwrap();
    assert!(st.items_with_frecency_raw().is_empty());
    assert!(st.save_plan(1).unwrap().is_none());
}

#[test]
fn corrupt_snapshot_is_fatal() {
    assert!(PathFrecency::load_from_bytes("/d/pazi.db".to_string(), &vec![1, 2, 3]).is_err());
}

#[test]
fn truncated_snapshot_is_fatal() {
    let mut st = PathFrecency::load_from_bytes("/d/pazi.db".to_string(), &Vec::new()).unwrap();
    st.visit("/x".to_string(), 1000);
    let mut bytes = st.snapshot_bytes();
    bytes.pop();
    assert!(PathFrecency::load_from_bytes("/d/pazi.db".to_string(), &bytes).is_err());
}
