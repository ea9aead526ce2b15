use filetest::assign::FinalAssignment;
use filetest::disambiguate::disambiguate;
use filetest::pairs::PairSet;
use filetest::sanitize::safeify;

fn pair_set(inputs: &[&str]) -> PairSet {
    let mut ps = PairSet::new();
    for p in inputs {
        let gold = format!("{}.gold", p);
        ps.insert_pair(p.to_string(), gold);
    }
    ps
}

fn keys_sorted(fa: &FinalAssignment) -> Vec<(String, String)> {
    let mut v: Vec<(String, String)> = fa
        .entries
        .iter()
        .map(|e| (e.key.clone(), e.input_path.clone()))
        .collect();
    v.sort();
    v
}

fn is_identifier(s: &str) -> bool {
    !s.is_empty()
        && !s.chars().next().unwrap().is_ascii_digit()
        && s.chars().all(|c| c.is_ascii_alphanumeric() || c == '_')
}

#[test]
fn sanitize_replaces_runs_with_one_underscore() {
    assert_eq!(safeify("a.b c"), "a_b_c");
    assert_eq!(safeify("a..b"), "a_b");
    assert_eq!(safeify("a-+/b"), "a_b");
}

#[test]
fn sanitize_keeps_safe_text_unchanged() {
    assert_eq!(safeify("already_safe_0"), "already_safe_0");
    assert_eq!(safeify("X9_z"), "X9_z");
    assert_eq!(safeify(""), "");
}

#[test]
fn sanitize_is_idempotent_on_examples() {
    for raw in ["a.b c", "..x..", "héllo", "mixed-1_2.3"] {
        let once = safeify(raw);
        let twice = safeify(&once);
        assert_eq!(once, twice);
    }
}

#[test]
fn sanitize_maps_non_ascii_to_underscore() {
    assert_eq!(safeify("héllo"), "h_llo");
}

#[test]
fn no_collisions_get_plain_names() {
    let ps = pair_set(&["dirA/foo.txt", "dirB/bar.txt"]);
    let fa = disambiguate(&ps, "test");
    assert_eq!(fa.entries.len(), 2);
    assert_eq!(fa.lookup("test_foo").map(String::as_str), Some("dirA/foo.txt"));
    assert_eq!(fa.lookup("test_bar").map(String::as_str), Some("dirB/bar.txt"));
}

#[test]
fn same_name_different_directories_use_the_tail() {
    let ps = pair_set(&["dirA/foo.txt", "dirB/foo.txt"]);
    let fa = disambiguate(&ps, "test");
    assert_eq!(fa.entries.len(), 2);
    assert_eq!(fa.lookup("test_dirA_foo").map(String::as_str), Some("dirA/foo.txt"));
    assert_eq!(fa.lookup("test_dirB_foo").map(String::as_str), Some("dirB/foo.txt"));
}

#[test]
fn shared_directory_prefix_is_dropped_from_the_tail() {
    let ps = pair_set(&["/r/a/foo.txt", "/r/b/foo.txt"]);
    let fa = disambiguate(&ps, "test");
    assert_eq!(fa.lookup("test_a_foo").map(String::as_str), Some("/r/a/foo.txt"));
    assert_eq!(fa.lookup("test_b_foo").map(String::as_str), Some("/r/b/foo.txt"));
}

#[test]
fn identical_parents_fall_back_to_numeric_suffixes() {
    // both files sit in `d` and share the base name `foo`
    let ps = pair_set(&["d/foo.txt", "d/foo.x.txt"]);
    let fa = disambiguate(&ps, "test");
    assert_eq!(fa.entries.len(), 2);
    assert_eq!(fa.lookup("test_foo1").map(String::as_str), Some("d/foo.txt"));
    assert_eq!(fa.lookup("test_foo2").map(String::as_str), Some("d/foo.x.txt"));
}

#[test]
fn numeric_suffixes_skip_taken_names() {
    let ps = pair_set(&["d/foo.txt", "d/foo.x.txt", "d/foo.y.txt"]);
    let fa = disambiguate(&ps, "test");
    assert_eq!(fa.lookup("test_foo1").map(String::as_str), Some("d/foo.txt"));
    assert_eq!(fa.lookup("test_foo2").map(String::as_str), Some("d/foo.x.txt"));
    assert_eq!(fa.lookup("test_foo3").map(String::as_str), Some("d/foo.y.txt"));
}

#[test]
fn later_singleton_overwrites_a_colliding_numeric_name() {
    // the singleton base `foo1` produces the same key as the first
    // numeric fallback of the `foo` group; the later insert wins
    let ps = pair_set(&["d/foo.txt", "d/foo.x.txt", "e/foo1.txt"]);
    let fa = disambiguate(&ps, "test");
    assert_eq!(fa.entries.len(), 2);
    assert_eq!(fa.lookup("test_foo1").map(String::as_str), Some("e/foo1.txt"));
    assert_eq!(fa.lookup("test_foo2").map(String::as_str), Some("d/foo.x.txt"));
}

#[test]
fn empty_base_name_still_gets_a_valid_identifier() {
    let ps = pair_set(&["d/..txt"]);
    let fa = disambiguate(&ps, "test");
    assert_eq!(fa.entries.len(), 1);
    assert_eq!(fa.lookup("test_").map(String::as_str), Some("d/..txt"));
}

#[test]
fn keys_are_unique_and_valid_identifiers() {
    let ps = pair_set(&[
        "dirA/foo.txt",
        "dirB/foo.txt",
        "d/x.txt",
        "d/x.y.txt",
        "weird/sp ace.txt",
        "weird/sp-ace.txt",
    ]);
    let fa = disambiguate(&ps, "test");
    let entries = keys_sorted(&fa);
    for (k, _) in &entries {
        assert!(is_identifier(k), "bad key: {k:?}");
    }
    for w in entries.windows(2) {
        assert_ne!(w[0].0, w[1].0);
    }
}

#[test]
fn disambiguation_is_deterministic() {
    let inputs = ["dirA/foo.txt", "dirB/foo.txt", "d/x.txt", "d/x.y.txt"];
    let a = keys_sorted(&disambiguate(&pair_set(&inputs), "test"));
    let b = keys_sorted(&disambiguate(&pair_set(&inputs), "test"));
    assert_eq!(a, b);
}

#[test]
fn every_assigned_path_is_an_input() {
    let inputs = ["dirA/foo.txt", "dirB/foo.txt", "d/x.txt"];
    let fa = disambiguate(&pair_set(&inputs), "test");
    for e in &fa.entries {
        assert!(inputs.contains(&e.input_path.as_str()));
    }
}
