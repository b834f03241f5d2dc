use pazi::frecent_paths::{PathFrecency, PathFrecencyDiff};

fn empty_store(path: &str) -> PathFrecency {
    PathFrecency::load_from_bytes(path.to_string(), &Vec::new()).unwrap()
}

#[test]
fn ranking_cutoff_excludes_quarter_score() {
    let mut st = empty_store("/d/pazi.db");
    // candidate covers 5/16 of the path as a prefix: confidence 312500,
    // combined with zero frecency that is exactly the 250000 cutoff
    let cand = "abcdefghijklmnop".to_string();
    let diff = PathFrecencyDiff::new(
        vec![(cand.clone(), 100), ("zzz".to_string(), 200)],
        vec![],
    );
    st.apply_diff(diff).unwrap();
    let ranked = st.ranked_candidates("abcde");
    assert!(ranked.is_empty());
}

#[test]
fn ranking_cutoff_keeps_just_above_quarter() {
    let mut st = empty_store("/d/pazi.db");
    // 13/40 of the path as a prefix: confidence 325000, combined 260000
    let cand = "abcdefghijklmnopqrstuvwxyz0123456789!@$%".to_string();
    assert_eq!(cand.chars().count(), 40);
    let diff = PathFrecencyDiff::new(
        vec![(cand.clone(), 100), ("zzz".to_string(), 200)],
        vec![],
    );
    st.apply_diff(diff).unwrap();
    let ranked = st.ranked_candidates("abcdefghijklm");
    assert_eq!(ranked.len(), 1);
    assert_eq!(ranked[0].0, cand);
    assert_eq!(ranked[0].1, 260_000);
}

#[test]
fn self_healing_prunes_dead_dirs() {
    let live = tempfile::TempDir::new().unwrap();
    let dead = tempfile::TempDir::new().unwrap();
    let live_path = live.path().to_str().unwrap().to_string();
    let dead_path = dead.path().to_str().unwrap().to_string();
    dead.close().unwrap();

    let mut st = empty_store("/d/pazi.db");
    st.visit(live_path.clone(), 1000);
    st.visit(dead_path.clone(), 2000);

    let first: Vec<String> = st.items_with_frecency().into_iter().map(|(p, _)| p).collect();
    assert_eq!(first, vec![live_path.clone()]);

    // the dead path is gone from the store itself, without an explicit
    // remove: a subsequent enumeration no longer references it
    let raw: Vec<String> = st.items_with_frecency_raw().into_iter().map(|(p, _)| p).collect();
    assert_eq!(raw, vec![live_path.clone()]);

    let second: Vec<String> = st.items_with_frecency().into_iter().map(|(p, _)| p).collect();
    assert_eq!(second, vec![live_path]);
}

#[test]
fn raw_enumeration_prunes_dead_dirs_too() {
    let live = tempfile::TempDir::new().unwrap();
    let dead = tempfile::TempDir::new().unwrap();
    let live_path = live.path().to_str().unwrap().to_string();
    let dead_path = dead.path().to_str().unwrap().to_string();
    dead.close().unwrap();

    let mut st = empty_store("/d/pazi.db");
    st.visit(live_path.clone(), 1000);
    st.visit(dead_path.clone(), 2000);
    let before = st.snapshot_bytes();

    let raw: Vec<String> = st.items_with_frecency_raw().into_iter().map(|(p, _)| p).collect();
    assert_eq!(raw, vec![live_path.clone()]);

    // the pruning is a real store mutation, visible in the snapshot
    assert_ne!(st.snapshot_bytes(), before);
    let again: Vec<String> = st.directory_matches_raw("").into_iter().map(|(p, _)| p).collect();
    assert_eq!(again, vec![live_path]);
}

#[test]
fn matches_break_ties_by_recency() {
    let parent_a = tempfile::TempDir::new().unwrap();
    let parent_b = tempfile::TempDir::new().unwrap();
    let dir_a = tempfile::Builder::new()
        .prefix("tmp")
        .rand_bytes(0)
        .tempdir_in(parent_a.path())
        .unwrap();
    let dir_b = tempfile::Builder::new()
        .prefix("tmp")
        .rand_bytes(0)
        .tempdir_in(parent_b.path())
        .unwrap();
    let a_path = dir_a.path().to_str().unwrap().to_string();
    let b_path = dir_b.path().to_str().unwrap().to_string();

    let mut st = empty_store("/d/pazi.db");
    st.visit(a_path.clone(), 1000);
    st.visit(b_path.clone(), 2000);

    let matches: Vec<String> = st.directory_matches("tmp").into_iter().map(|(p, _)| p).collect();
    assert_eq!(matches, vec![b_path, a_path]);
}

#[test]
fn apply_diff_rejects_missing_removal() {
    let mut st = empty_store("/d/pazi.db");
    st.visit("/x".to_string(), 10);
    let before = st.snapshot_bytes();
    let diff = PathFrecencyDiff::new(vec![], vec!["/y".to_string()]);
    let err = st.apply_diff(diff).unwrap_err();
    assert_eq!(err, "no such item to remove: /y");
    assert_eq!(st.snapshot_bytes(), before);
}

#[test]
fn apply_diff_is_atomic_before_any_removal() {
    let mut st = empty_store("/d/pazi.db");
    st.visit("/x".to_string(), 10);
    let before = st.snapshot_bytes();
    // the first removal exists, the second does not: nothing may commit
    let diff = PathFrecencyDiff::new(
        vec![("/new".to_string(), 1)],
        vec!["/x".to_string(), "/y".to_string()],
    );
    assert!(st.apply_diff(diff).is_err());
    assert_eq!(st.snapshot_bytes(), before);
}

#[test]
fn apply_diff_overwrites_verbatim() {
    let a = tempfile::TempDir::new().unwrap();
    let b = tempfile::TempDir::new().unwrap();
    let a_path = a.path().to_str().unwrap().to_string();
    let b_path = b.path().to_str().unwrap().to_string();
    let mut st = empty_store("/d/pazi.db");
    st.visit(a_path.clone(), 10);
    let diff = PathFrecencyDiff::new(
        vec![(a_path.clone(), 777), (b_path.clone(), -5)],
        vec![],
    );
    st.apply_diff(diff).unwrap();
    let mut raw = st.items_with_frecency_raw();
    raw.sort_by(|x, y| x.0.cmp(&y.0));
    let mut expected = vec![(a_path, 777), (b_path, -5)];
    expected.sort_by(|x, y| x.0.cmp(&y.0));
    assert_eq!(raw, expected);
}

#[test]
fn save_plan_is_noop_when_clean() {
    let st = empty_store("/d/pazi.db");
    assert!(st.save_plan(1234).unwrap().is_none());
}

#[test]
fn save_plan_names_pid_suffixed_sibling() {
    let mut st = empty_store("/some/dir/pazi.db");
    st.visit("/x".to_string(), 10);
    let plan = st.save_plan(4242).unwrap().unwrap();
    assert_eq!(plan.target_path, "/some/dir/pazi.db");
    assert_eq!(plan.tmp_path, "/some/dir/.pazi.db.4242");
    assert_eq!(plan.bytes, st.snapshot_bytes());
}
