use std::collections::HashMap;
use trace_cache::classify::{checked_by_rules, project_subdirectories, Classifier};
use trace_cache::trace::{Kind, Step, Trace};

fn record(kind: u8, path: &str, value: &str) -> Vec<u8> {
    let mut out = vec![0u8, kind];
    out.extend_from_slice(path.as_bytes());
    out.push(0);
    out.extend_from_slice(value.as_bytes());
    out
}

fn trace_of(records: &[(u8, &str, &str)]) -> Trace {
    let mut bytes = Vec::new();
    for (k, p, v) in records {
        bytes.extend(record(*k, p, v));
    }
    bytes.push(0);
    Trace::load(bytes).ok().unwrap()
}

/// Runs the scan against fixed current fingerprints; paths not in `now`
/// panic, so a test fails if the scan asks for one of them.
fn scan(t: &Trace, rules: &Classifier, now: &HashMap<&str, &str>) -> (bool, Vec<String>) {
    let mut asked = Vec::new();
    let mut last = None;
    loop {
        match t.check_for_changes(rules, last.take()) {
            Step::Fingerprint { index, kind: _, path } => {
                let p = String::from_utf8(path).unwrap();
                let fp = now.get(p.as_str()).expect("path must not be fetched");
                asked.push(p);
                last = Some((index, fp.as_bytes().to_vec()));
            }
            Step::Changed { index: _ } => return (true, asked),
            Step::Unchanged => return (false, asked),
        }
    }
}

fn rules() -> Classifier {
    Classifier::standard().ok().unwrap()
}

#[test]
fn standard_rules_compile() {
    assert!(Classifier::standard().is_ok());
    assert_eq!(project_subdirectories().len(), 26);
}

#[test]
fn invalid_rule_is_reported() {
    let dirs = vec![String::from("(")];
    assert!(Classifier::new("root", &dirs).is_err());
}

#[test]
fn skip_rule_paths() {
    let r = rules();
    assert!(!r.must_check(b"f/home/u/excelsior/dist-newstyle/x"));
    assert!(!r.must_check(b"d/home/u/excelsior-2/.git"));
    assert!(!r.must_check(b"s/tmp/foo"));
    assert!(!r.must_check(b"f/home/u/.cache/nix/tarballs/abc"));
    assert!(!r.must_check(b"d/home/u/excelsior"));
    assert!(r.must_check(b"f/home/u/excelsior/default.nix"));
    assert!(r.must_check(b"f/home/u/excelsior/libx/a"));
    assert!(r.must_check(b"f/etc/passwd"));
}

#[test]
fn manifest_under_skipped_tree_is_checked() {
    let r = rules();
    assert!(r.must_check(b"f/home/u/excelsior/lib/pkg/package.yaml"));
    assert!(!r.must_check(b"f/home/u/excelsior/lib/pkg/other.yaml"));
}

#[test]
fn custom_rules_use_given_directories() {
    let dirs = vec![String::from("build"), String::from("out")];
    let r = Classifier::new("proj", &dirs).ok().unwrap();
    assert!(!r.must_check(b"f/w/proj/build/a"));
    assert!(!r.must_check(b"f/w/proj/out"));
    assert!(r.must_check(b"f/w/proj/src/a"));
}

#[test]
fn skipped_path_is_never_fetched() {
    let t = trace_of(&[
        (b'f', "/home/u/excelsior/dist-newstyle/x", "wrong"),
        (b's', "/etc/a", "-"),
    ]);
    let now = HashMap::from([("/etc/a", "-")]);
    let (changed, asked) = scan(&t, &rules(), &now);
    assert!(!changed);
    assert_eq!(asked, vec!["/etc/a".to_string()]);
}

#[test]
fn manifest_in_skipped_tree_is_fetched() {
    let t = trace_of(&[(b'f', "/home/u/excelsior/lib/pkg/package.yaml", "old")]);
    let now = HashMap::from([("/home/u/excelsior/lib/pkg/package.yaml", "new")]);
    let (changed, asked) = scan(&t, &rules(), &now);
    assert!(changed);
    assert_eq!(asked.len(), 1);
}

#[test]
fn first_mismatch_ends_scan() {
    let t = trace_of(&[(b's', "/a", "-"), (b's', "/b", "d"), (b's', "/c", "+")]);
    let now = HashMap::from([("/a", "-"), ("/b", "+")]);
    let (changed, asked) = scan(&t, &rules(), &now);
    assert!(changed);
    assert_eq!(asked, vec!["/a".to_string(), "/b".to_string()]);
}

#[test]
fn changed_step_names_the_entry() {
    let t = trace_of(&[(b's', "/a", "-"), (b's', "/b", "d")]);
    let step = t.check_for_changes(&rules(), Some((1, b"+".to_vec())));
    assert!(matches!(step, Step::Changed { index: 1 }));
    assert_eq!(t.stored_fingerprint(1), &b"d".to_vec());
}

#[test]
fn first_step_asks_for_first_checked_entry() {
    let t = trace_of(&[(b'd', "/tmp/x", "-"), (b'f', "/w/a", "-"), (b's', "/w/b", "-")]);
    match t.check_for_changes(&rules(), None) {
        Step::Fingerprint { index, kind, path } => {
            assert_eq!(index, 1);
            assert_eq!(kind, Kind::File);
            assert_eq!(path, b"/w/a".to_vec());
        }
        _ => panic!("expected a fingerprint request"),
    }
}

#[test]
fn all_matching_is_unchanged() {
    let t = trace_of(&[(b'f', "/a", "-"), (b'd', "/b", "-")]);
    let now = HashMap::from([("/a", "-"), ("/b", "-")]);
    let (changed, asked) = scan(&t, &rules(), &now);
    assert!(!changed);
    assert_eq!(asked.len(), 2);
}

#[test]
fn empty_trace_is_unchanged() {
    let t = Trace::load(Vec::new()).ok().unwrap();
    assert!(matches!(t.check_for_changes(&rules(), None), Step::Unchanged));
}

#[test]
fn missing_path_still_missing_is_no_change() {
    let t = trace_of(&[(b'f', "/gone", "-")]);
    let now = HashMap::from([("/gone", "-")]);
    assert!(!scan(&t, &rules(), &now).0);
}

#[test]
fn manifest_rule_wins_over_skip_rule() {
    assert!(checked_by_rules(true, true));
    assert!(checked_by_rules(true, false));
    assert!(checked_by_rules(false, false));
    assert!(!checked_by_rules(false, true));
}

#[test]
fn non_utf8_path_under_skipped_prefix_is_skipped() {
    let r = rules();
    assert!(!r.must_check(b"f/tmp/\xff"));
    assert!(!r.must_check(b"f/home/u/excelsior/dist-newstyle/\xfe\xff/x"));
    assert!(!r.must_check(b"f/tmp/a\nb"));
    assert!(r.must_check(b"f/home/u/\xff"));
}

#[test]
fn non_utf8_skipped_entry_is_never_fetched() {
    let mut bytes = record(b'f', "/w/a", "-");
    bytes.extend_from_slice(b"\0f/tmp/\xff\0wrong");
    bytes.push(0);
    let t = Trace::load(bytes).ok().unwrap();
    let now = HashMap::from([("/w/a", "-")]);
    let (changed, asked) = scan(&t, &rules(), &now);
    assert!(!changed);
    assert_eq!(asked, vec!["/w/a".to_string()]);
}
