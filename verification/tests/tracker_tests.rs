use executor::tracker::{diff, FileChange, Snapshot};

fn snap(entries: &[(&str, &str)]) -> Snapshot {
    let mut s = Snapshot::new();
    for (path, fp) in entries {
        s.record(path.to_string(), fp.to_string());
    }
    s
}

#[test]
fn created_file_has_no_prior_fingerprint() {
    let before = snap(&[]);
    let after = snap(&[("out.txt", "h1")]);
    let changes = diff(&before, &after);
    assert_eq!(
        changes,
        vec![FileChange {
            path: "out.txt".to_string(),
            prior: None,
            updated: Some("h1".to_string()),
        }]
    );
}

#[test]
fn deleted_file_has_no_new_fingerprint() {
    let before = snap(&[("old.txt", "h1")]);
    let after = snap(&[]);
    let changes = diff(&before, &after);
    assert_eq!(
        changes,
        vec![FileChange {
            path: "old.txt".to_string(),
            prior: Some("h1".to_string()),
            updated: None,
        }]
    );
}

#[test]
fn modified_file_carries_both_fingerprints() {
    let before = snap(&[("data.bin", "h1")]);
    let after = snap(&[("data.bin", "h2")]);
    let changes = diff(&before, &after);
    assert_eq!(
        changes,
        vec![FileChange {
            path: "data.bin".to_string(),
            prior: Some("h1".to_string()),
            updated: Some("h2".to_string()),
        }]
    );
}

#[test]
fn unchanged_file_is_omitted() {
    let before = snap(&[("same.txt", "h1"), ("gone.txt", "h2")]);
    let after = snap(&[("same.txt", "h1"), ("new.txt", "h3")]);
    let changes = diff(&before, &after);
    assert_eq!(changes.len(), 2);
    assert!(changes.iter().all(|c| c.path != "same.txt"));
    assert!(changes.iter().any(|c| c.path == "gone.txt"
        && c.prior == Some("h2".to_string())
        && c.updated.is_none()));
    assert!(changes.iter().any(|c| c.path == "new.txt"
        && c.prior.is_none()
        && c.updated == Some("h3".to_string())));
}

#[test]
fn identical_snapshots_give_empty_change_list() {
    let before = snap(&[("a", "h1"), ("b", "h2")]);
    let after = snap(&[("a", "h1"), ("b", "h2")]);
    assert!(diff(&before, &after).is_empty());
}

#[test]
fn record_replaces_earlier_fingerprint() {
    let mut s = Snapshot::new();
    s.record("f".to_string(), "h1".to_string());
    s.record("f".to_string(), "h2".to_string());
    assert_eq!(s.lookup("f"), Some("h2".to_string()));
}

#[test]
fn lookup_of_unrecorded_path_is_none() {
    let s = snap(&[("known", "h1")]);
    assert_eq!(s.lookup("unknown"), None);
    assert_eq!(s.lookup("known"), Some("h1".to_string()));
}
