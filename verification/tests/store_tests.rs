use executor::store::Workspace;

#[test]
fn upload_then_download_returns_same_bytes() {
    let mut w = Workspace::new();
    let content: Vec<u8> = vec![0, 1, 2, 255, 254, 10, 0, 7];
    w.upload("dir/report.bin".to_string(), content.clone());
    assert_eq!(w.download("dir/report.bin"), Some(content));
}

#[test]
fn upload_replaces_prior_content_in_full() {
    let mut w = Workspace::new();
    w.upload("f.txt".to_string(), b"a much longer first version".to_vec());
    w.upload("f.txt".to_string(), b"v2".to_vec());
    assert_eq!(w.download("f.txt"), Some(b"v2".to_vec()));
}

#[test]
fn download_of_missing_path_is_not_found() {
    let mut w = Workspace::new();
    w.upload("present".to_string(), b"x".to_vec());
    assert_eq!(w.download("absent"), None);
}

#[test]
fn uploads_to_distinct_paths_are_independent() {
    let mut w = Workspace::new();
    w.upload("a".to_string(), b"first".to_vec());
    w.upload("b".to_string(), b"second".to_vec());
    assert_eq!(w.download("a"), Some(b"first".to_vec()));
    assert_eq!(w.download("b"), Some(b"second".to_vec()));
}

#[test]
fn empty_file_round_trips() {
    let mut w = Workspace::new();
    w.upload("empty".to_string(), Vec::new());
    assert_eq!(w.download("empty"), Some(Vec::new()));
}
