use executor::baseline::{clean_line, list_requirements, BaselineSet};

#[test]
fn clean_line_strips_comments() {
    assert_eq!(clean_line("requests # pinned for prod"), "requests");
    assert_eq!(clean_line("# a whole comment line"), "");
}

#[test]
fn clean_line_strips_extras_marker() {
    assert_eq!(clean_line("uvicorn[standard]"), "uvicorn");
}

#[test]
fn clean_line_trims_whitespace() {
    assert_eq!(clean_line("  numpy\t"), "numpy");
    assert_eq!(clean_line("\tscipy\r"), "scipy");
    assert_eq!(clean_line("   "), "");
    assert_eq!(clean_line(""), "");
}

#[test]
fn list_requirements_skips_blank_lines() {
    let out = list_requirements("a\n\n  \nb # c\n[section]\n");
    assert_eq!(out, vec!["a".to_string(), "b".to_string()]);
}

#[test]
fn list_requirements_reads_last_unterminated_line() {
    let out = list_requirements("a\nb");
    assert_eq!(out, vec!["a".to_string(), "b".to_string()]);
}

#[test]
fn baseline_unions_both_lists() {
    let baseline = BaselineSet::new("alpha\nbeta # note\n", "\ngamma\n");
    assert!(baseline.contains("alpha"));
    assert!(baseline.contains("beta"));
    assert!(baseline.contains("gamma"));
    assert!(!baseline.contains("delta"));
    assert!(!baseline.contains(""));
}

#[test]
fn baseline_of_empty_lists_is_empty() {
    let baseline = BaselineSet::new("", "");
    assert!(!baseline.contains("anything"));
}
