use executor::baseline::BaselineSet;
use executor::resolver::{dedup, filter_against, plan_install, tokenize};

fn names(v: &[&str]) -> Vec<String> {
    v.iter().map(|s| s.to_string()).collect()
}

#[test]
fn tokenize_splits_on_whitespace() {
    let tokens = tokenize("requests numpy\n\tpandas");
    assert_eq!(tokens, names(&["requests", "numpy", "pandas"]));
}

#[test]
fn tokenize_ignores_surrounding_whitespace() {
    let tokens = tokenize("  flask \r\n ");
    assert_eq!(tokens, names(&["flask"]));
}

#[test]
fn tokenize_empty_output_means_no_dependencies() {
    assert!(tokenize("").is_empty());
    assert!(tokenize(" \n\t ").is_empty());
}

#[test]
fn dedup_keeps_first_occurrences_in_order() {
    let out = dedup(names(&["b", "a", "b", "c", "a"]));
    assert_eq!(out, names(&["b", "a", "c"]));
}

#[test]
fn filter_removes_what_the_baseline_satisfies() {
    let baseline = BaselineSet::new("numpy\nscipy\n", "");
    let out = filter_against(names(&["requests", "numpy", "flask"]), &baseline);
    assert_eq!(out, names(&["requests", "flask"]));
}

#[test]
fn filter_with_empty_baseline_keeps_everything() {
    let baseline = BaselineSet::new("", "");
    let out = filter_against(names(&["a", "b"]), &baseline);
    assert_eq!(out, names(&["a", "b"]));
}

#[test]
fn filter_can_empty_the_install_set() {
    let baseline = BaselineSet::new("a\n", "b\n");
    let out = filter_against(names(&["a", "b", "a"]), &baseline);
    assert!(out.is_empty());
}

#[test]
fn absent_package_is_planned_for_install() {
    // A script imports a package the baseline does not hold: the guesser
    // names it and it is selected for installation before the run.
    let baseline = BaselineSet::new("numpy\n", "setuptools\n");
    let plan = plan_install("cowsay", &baseline);
    assert_eq!(plan, names(&["cowsay"]));
}

#[test]
fn plan_install_dedups_and_filters() {
    let baseline = BaselineSet::new("numpy # pinned\n", "pip\n");
    let plan = plan_install("requests numpy requests flask", &baseline);
    assert_eq!(plan, names(&["requests", "flask"]));
}
