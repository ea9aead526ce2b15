use filetest::pairs::PairSet;
use filetest::walker::{DiscoveryError, FsEvent, WalkStep, Walker};

fn s(t: &str) -> String {
    t.to_string()
}

fn dir(children: &[&str]) -> FsEvent {
    FsEvent::Directory { children: children.iter().map(|c| s(c)).collect() }
}

fn file(canonical: &str) -> FsEvent {
    FsEvent::File { canonical_path: s(canonical) }
}

/// Drives a walk over a scripted tree description and returns the pairs.
fn expect_classify(step: WalkStep) -> String {
    match step {
        WalkStep::Classify { path } => path,
        other => panic!("expected a classify request, got {}", step_name(&other)),
    }
}

fn step_name(step: &WalkStep) -> &'static str {
    match step {
        WalkStep::Classify { .. } => "Classify",
        WalkStep::CheckGold { .. } => "CheckGold",
        WalkStep::Done => "Done",
        WalkStep::Failed { .. } => "Failed",
    }
}

#[test]
fn non_file_non_directory_root_fails_with_invalid_path() {
    let mut w = Walker::new(s("strange"), s(".txt"), s(".gold.txt"));
    match w.step(FsEvent::NotFileNorDirectory) {
        WalkStep::Failed { error: DiscoveryError::InvalidPathError { path } } => {
            assert_eq!(path, "strange");
        },
        other => panic!("expected InvalidPathError, got {}", step_name(&other)),
    }
}

#[test]
fn unreadable_directory_fails_with_directory_read_error() {
    let mut w = Walker::new(s("root"), s(".txt"), s(".gold.txt"));
    match w.step(FsEvent::DirectoryUnreadable) {
        WalkStep::Failed { error: DiscoveryError::DirectoryReadError { path } } => {
            assert_eq!(path, "root");
        },
        other => panic!("expected DirectoryReadError, got {}", step_name(&other)),
    }
}

#[test]
fn missing_gold_file_names_both_paths() {
    let mut w = Walker::new(s("root"), s(".txt"), s(".gold.txt"));
    let next = match w.step(dir(&["root/foo.txt"])) {
        WalkStep::Classify { path } => path,
        other => panic!("expected Classify, got {}", step_name(&other)),
    };
    assert_eq!(next, "root/foo.txt");
    match w.step(file("/abs/root/foo.txt")) {
        WalkStep::CheckGold { path } => assert_eq!(path, "/abs/root/foo.gold.txt"),
        other => panic!("expected CheckGold, got {}", step_name(&other)),
    }
    match w.step(FsEvent::GoldAbsent) {
        WalkStep::Failed {
            error: DiscoveryError::MissingGoldFile { input_path, expected_gold_path },
        } => {
            assert_eq!(input_path, "/abs/root/foo.txt");
            assert_eq!(expected_gold_path, "/abs/root/foo.gold.txt");
        },
        other => panic!("expected MissingGoldFile, got {}", step_name(&other)),
    }
}

#[test]
fn walk_collects_pairs_and_skips_non_candidates() {
    let mut w = Walker::new(s("root"), s(".txt"), s(".gold.txt"));
    // root lists a nested directory and three files (one of them gold)
    let mut step = w.step(dir(&["root/sub", "root/a.txt", "root/a.gold.txt"]));

    // depth-first: entries are taken from the end of the work list
    let p = expect_classify(step);
    assert_eq!(p, "root/a.gold.txt");
    // the gold file's suffix (from the first dot) is `.gold.txt`, so it
    // is silently discarded
    step = w.step(file("/abs/root/a.gold.txt"));

    let p = expect_classify(step);
    assert_eq!(p, "root/a.txt");
    step = w.step(file("/abs/root/a.txt"));
    match step {
        WalkStep::CheckGold { ref path } => assert_eq!(path, "/abs/root/a.gold.txt"),
        ref other => panic!("expected CheckGold, got {}", step_name(other)),
    }
    step = w.step(FsEvent::GoldPresent);

    let p = expect_classify(step);
    assert_eq!(p, "root/sub");
    step = w.step(dir(&["root/sub/b.txt"]));

    let p = expect_classify(step);
    assert_eq!(p, "root/sub/b.txt");
    step = w.step(file("/abs/root/sub/b.txt"));
    match step {
        WalkStep::CheckGold { ref path } => assert_eq!(path, "/abs/root/sub/b.gold.txt"),
        ref other => panic!("expected CheckGold, got {}", step_name(other)),
    }
    step = w.step(FsEvent::GoldPresent);
    assert!(matches!(step, WalkStep::Done));

    let pairs: PairSet = w.into_pairs();
    assert_eq!(pairs.len(), 2);
    assert_eq!(
        pairs.lookup(&s("/abs/root/a.txt")).map(String::as_str),
        Some("/abs/root/a.gold.txt")
    );
    assert_eq!(
        pairs.lookup(&s("/abs/root/sub/b.txt")).map(String::as_str),
        Some("/abs/root/sub/b.gold.txt")
    );
    assert_eq!(pairs.lookup(&s("/abs/root/a.gold.txt")), None);
}

#[test]
fn suffix_matching_uses_the_first_dot() {
    let mut w = Walker::new(s("root"), s(".txt"), s(".gold.txt"));
    let step = w.step(dir(&["root/name.part.txt"]));
    expect_classify(step);
    // the extension from the first dot is `.part.txt`, not `.txt`,
    // so the file is not a candidate and the walk just finishes
    let step = w.step(file("/abs/root/name.part.txt"));
    assert!(matches!(step, WalkStep::Done));
    assert_eq!(w.into_pairs().len(), 0);
}

#[test]
fn duplicate_canonical_paths_are_stored_once() {
    let mut w = Walker::new(s("root"), s(".txt"), s(".gold.txt"));
    let step = w.step(dir(&["root/a.txt", "link/a.txt"]));
    expect_classify(step);
    let step = w.step(file("/abs/a.txt"));
    assert!(matches!(step, WalkStep::CheckGold { .. }));
    let step = w.step(FsEvent::GoldPresent);
    expect_classify(step);
    let step = w.step(file("/abs/a.txt"));
    assert!(matches!(step, WalkStep::CheckGold { .. }));
    let step = w.step(FsEvent::GoldPresent);
    assert!(matches!(step, WalkStep::Done));
    assert_eq!(w.into_pairs().len(), 1);
}

#[test]
fn single_file_root_works_without_a_directory() {
    let mut w = Walker::new(s("root/only.txt"), s(".txt"), s(".gold.txt"));
    let step = w.step(file("/abs/root/only.txt"));
    match step {
        WalkStep::CheckGold { ref path } => assert_eq!(path, "/abs/root/only.gold.txt"),
        ref other => panic!("expected CheckGold, got {}", step_name(other)),
    }
    let step = w.step(FsEvent::GoldPresent);
    assert!(matches!(step, WalkStep::Done));
    let pairs = w.into_pairs();
    assert_eq!(pairs.len(), 1);
}

#[test]
fn walk_then_disambiguate_names_every_pair() {
    let mut w = Walker::new(s("root"), s(".txt"), s(".gold.txt"));
    let mut step = w.step(dir(&["root/b/foo.txt", "root/a/foo.txt"]));
    for canonical in ["/abs/root/a/foo.txt", "/abs/root/b/foo.txt"] {
        expect_classify(step);
        step = w.step(file(canonical));
        assert!(matches!(step, WalkStep::CheckGold { .. }));
        step = w.step(FsEvent::GoldPresent);
    }
    assert!(matches!(step, WalkStep::Done));
    let pairs = w.into_pairs();
    let fa = filetest::disambiguate::disambiguate(&pairs, "test_lowercase");
    assert_eq!(fa.entries.len(), 2);
    assert_eq!(
        fa.lookup("test_lowercase_a_foo").map(String::as_str),
        Some("/abs/root/a/foo.txt")
    );
    assert_eq!(
        fa.lookup("test_lowercase_b_foo").map(String::as_str),
        Some("/abs/root/b/foo.txt")
    );
}
