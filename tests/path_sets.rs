use fullsystemimage::expression::apply_term;
use fullsystemimage::query::resolve_query;
use fullsystemimage::{
    QueryModule, query_filenames, ErrorKind, EvaluateOptions, Filename, FilenameSet, FilenamesProducer,
    LeafKind, PathClassifier, QueryArgs, QueryModuleOutput, Sign, SubtractPolicy, Term,
};

/// Classifies the listed paths as directories and every other path as a file;
/// paths under "/missing" cannot be queried.
struct FakeFs {
    dirs: Vec<&'static str>,
}

impl PathClassifier for FakeFs {
    fn classify(&self, path: &Filename) -> Result<LeafKind, ()> {
        let text = path.to_string();
        if text.starts_with("/missing") {
            return Err(());
        }
        if self.dirs.iter().any(|d| *d == text) {
            Ok(LeafKind::Directory)
        } else {
            Ok(LeafKind::File)
        }
    }
}

fn path(s: &str) -> Filename {
    Filename::from_str(s.to_string()).unwrap()
}

fn build(dirs: &[&'static str], paths: &[&str]) -> FilenameSet {
    let fs = FakeFs { dirs: dirs.to_vec() };
    let v: Vec<Filename> = paths.iter().map(|p| path(p)).collect();
    FilenameSet::from_iter(&v, &fs).unwrap()
}

fn listing(s: &FilenameSet) -> Vec<String> {
    s.iterate().iter().map(|f| f.to_string()).collect()
}

struct Fixed {
    dirs: Vec<&'static str>,
    paths: Vec<&'static str>,
}

impl FilenamesProducer for Fixed {
    fn produce(&self) -> FilenameSet {
        build(&self.dirs, &self.paths)
    }
}

const STRICT: EvaluateOptions = EvaluateOptions {
    allow_duplicate_addition: false,
    allow_nonpresent_subtraction: false,
};

#[test]
fn parse_collapses_separators() {
    let f = path("//a///b/");
    assert_eq!(f.len(), 2);
    assert_eq!(f.to_string(), "/a/b");
    assert_eq!(path("/usr/lib").to_string(), "/usr/lib");
}

#[test]
fn parse_rejects_relative_and_empty() {
    assert!(matches!(Filename::from_str("a/b".to_string()), Err(ErrorKind::InvalidPath)));
    assert!(matches!(Filename::from_str(String::new()), Err(ErrorKind::InvalidPath)));
}

#[test]
fn parse_root() {
    let root = path("/");
    assert_eq!(root.len(), 0);
    assert_eq!(root.to_string(), "");
}

#[test]
fn directory_absorbs_descendants() {
    let with_child = build(&["/a"], &["/a", "/a/b"]);
    let alone = build(&["/a"], &["/a"]);
    assert_eq!(listing(&with_child), vec!["/a"]);
    assert_eq!(listing(&with_child), listing(&alone));
}

#[test]
fn directory_replaces_stored_descendants() {
    let s = build(&["/a"], &["/a/b", "/a/c", "/a", "/z"]);
    assert_eq!(listing(&s), vec!["/a", "/z"]);
}

#[test]
fn round_trip_independent_of_order() {
    let s1 = build(&[], &["/a/b", "/a/c"]);
    let s2 = build(&[], &["/a/c", "/a/b"]);
    assert_eq!(listing(&s1), vec!["/a/b", "/a/c"]);
    assert_eq!(listing(&s2), vec!["/a/b", "/a/c"]);
    assert_eq!(s1.len(), 2);
}

#[test]
fn iteration_is_sorted_and_restartable() {
    let s = build(&["/etc"], &["/var/log/b", "/etc", "/boot", "/var/log/a", "/a/b"]);
    assert_eq!(listing(&s), vec!["/a/b", "/boot", "/etc", "/var/log/a", "/var/log/b"]);
    let mut it = s.iter();
    assert_eq!(it.next().unwrap().to_string(), "/a/b");
    assert_eq!(it.next().unwrap().to_string(), "/boot");
    let mut again = s.iter();
    assert_eq!(again.next().unwrap().to_string(), "/a/b");
    assert_eq!(it.next().unwrap().to_string(), "/etc");
    assert_eq!(it.next().unwrap().to_string(), "/var/log/a");
    assert_eq!(it.next().unwrap().to_string(), "/var/log/b");
    assert!(it.next().is_none());
}

#[test]
fn root_path_is_whole_namespace() {
    let s = build(&[], &["/x/y", "/", "/z"]);
    assert_eq!(listing(&s), vec![""]);
}

#[test]
fn strict_subtraction_of_absent_path_fails() {
    let whole = build(&[], &["/x"]);
    let remove = build(&[], &["/y"]);
    let e = whole.subtract(&remove, SubtractPolicy::Strict).unwrap_err();
    assert_eq!(e.kind, ErrorKind::NotPresentInWhole);
    assert_eq!(e.path.to_string(), "/y");
    let e2 = whole.difference(&remove).unwrap_err();
    assert_eq!(e2.kind, ErrorKind::NotPresentInWhole);
    let e3 = whole.difference_strict(&remove).unwrap_err();
    assert_eq!(e3.path.to_string(), "/y");
}

#[test]
fn relaxed_subtraction_ignores_absent_path() {
    let whole = build(&[], &["/x"]);
    let remove = build(&[], &["/y"]);
    let r = whole.subtract(&remove, SubtractPolicy::Relaxed).unwrap();
    assert_eq!(listing(&r), vec!["/x"]);
    let r2 = whole.difference_relaxed(&remove).unwrap();
    assert_eq!(listing(&r2), vec!["/x"]);
}

#[test]
fn insert_beneath_file_conflicts() {
    let fs = FakeFs { dirs: vec![] };
    let v = vec![path("/a"), path("/a/b")];
    let e = FilenameSet::from_iter(&v, &fs).err().unwrap();
    assert_eq!(e.kind, ErrorKind::PathConflict);
    assert_eq!(e.path.to_string(), "/a/b");
}

#[test]
fn file_over_branch_conflicts() {
    let fs = FakeFs { dirs: vec![] };
    let v = vec![path("/a/b"), path("/a")];
    let e = FilenameSet::from_iter(&v, &fs).err().unwrap();
    assert_eq!(e.kind, ErrorKind::PathConflict);
    assert_eq!(e.path.to_string(), "/a");
}

#[test]
fn merging_file_with_branch_conflicts() {
    let file = build(&[], &["/p"]);
    let branch = build(&[], &["/p/q"]);
    let e = FilenameSet::sum(&file, &branch).err().unwrap();
    assert_eq!(e.kind, ErrorKind::PathConflict);
    assert_eq!(e.path.to_string(), "/p");
    let e2 = FilenameSet::sum(&branch, &file).err().unwrap();
    assert_eq!(e2.kind, ErrorKind::PathConflict);
}

#[test]
fn metadata_failure_is_reported() {
    let fs = FakeFs { dirs: vec![] };
    let v = vec![path("/ok"), path("/missing/file")];
    let e = FilenameSet::from_iter(&v, &fs).err().unwrap();
    assert_eq!(e.kind, ErrorKind::MetadataQueryFailed);
    assert_eq!(e.path.to_string(), "/missing/file");
}

#[test]
fn absorbed_paths_are_not_classified() {
    // "/missing" is a directory here, so the path beneath it is never queried.
    let fs = FakeFs { dirs: vec!["/m"] };
    let v = vec![path("/m"), path("/m/missing")];
    assert!(FilenameSet::from_iter(&v, &fs).is_ok());
}

#[test]
fn same_path_as_file_then_directory_conflicts() {
    let s = build(&[], &["/a"]);
    let e = s.insert_classified(&path("/a"), LeafKind::Directory).err().unwrap();
    assert_eq!(e.kind, ErrorKind::PathConflict);
}

#[test]
fn merge_with_itself_and_subtract_from_itself() {
    let s = build(&["/etc"], &["/etc", "/var/a", "/var/b"]);
    let m = FilenameSet::sum(&s, &s).unwrap();
    assert_eq!(listing(&m), listing(&s));
    let d = s.subtract(&s, SubtractPolicy::Strict).unwrap();
    assert_eq!(d.len(), 0);
    assert!(listing(&d).is_empty());
}

#[test]
fn merge_is_commutative_and_associative() {
    let a = build(&["/a"], &["/a", "/f"]);
    let b = build(&[], &["/a/x", "/g/h"]);
    let c = build(&["/g"], &["/g", "/z"]);
    let ab = FilenameSet::sum(&a, &b).unwrap();
    let ba = FilenameSet::sum(&b, &a).unwrap();
    assert_eq!(listing(&ab), listing(&ba));
    assert_eq!(listing(&ab), vec!["/a", "/f", "/g/h"]);
    let ab_c = FilenameSet::sum(&ab, &c).unwrap();
    let bc = FilenameSet::sum(&b, &c).unwrap();
    let a_bc = FilenameSet::sum(&a, &bc).unwrap();
    assert_eq!(listing(&ab_c), listing(&a_bc));
    assert_eq!(listing(&ab_c), vec!["/a", "/f", "/g", "/z"]);
}

#[test]
fn directory_subtraction_removes_subtree() {
    let whole = build(&[], &["/a/b", "/a/c", "/d"]);
    let remove = build(&["/a"], &["/a"]);
    let r = whole.subtract(&remove, SubtractPolicy::Strict).unwrap();
    assert_eq!(listing(&r), vec!["/d"]);
}

#[test]
fn carving_out_of_directory_is_unrepresentable() {
    let whole = build(&["/a"], &["/a"]);
    let remove = build(&[], &["/a/b"]);
    let e = whole.subtract(&remove, SubtractPolicy::Relaxed).err().unwrap();
    assert_eq!(e.kind, ErrorKind::UnrepresentableDifference);
    assert_eq!(e.path.to_string(), "/a/b");
}

#[test]
fn subtracting_kind_mismatch_conflicts() {
    let whole = build(&["/a"], &["/a"]);
    let remove = build(&[], &["/a"]);
    let e = whole.subtract(&remove, SubtractPolicy::Strict).err().unwrap();
    assert_eq!(e.kind, ErrorKind::PathConflict);
    let whole2 = build(&[], &["/a/b", "/a/c"]);
    let remove2 = build(&[], &["/a"]);
    let e2 = whole2.subtract(&remove2, SubtractPolicy::Relaxed).err().unwrap();
    assert_eq!(e2.kind, ErrorKind::PathConflict);
    assert_eq!(e2.path.to_string(), "/a");
}

#[test]
fn evaluate_two_modules() {
    let a = Fixed { dirs: vec!["/etc"], paths: vec!["/etc"] };
    let b = Fixed { dirs: vec![], paths: vec!["/var/log/app.log"] };
    let terms = vec![
        Term { sign: Sign::Positive, filenames: &a },
        Term { sign: Sign::Positive, filenames: &b },
    ];
    let s = FilenameSet::evaluate_expression(STRICT, &terms).unwrap();
    assert_eq!(listing(&s), vec!["/etc", "/var/log/app.log"]);
}

#[test]
fn evaluate_duplicate_addition_fails() {
    let a = Fixed { dirs: vec!["/etc"], paths: vec!["/etc"] };
    let terms = vec![
        Term { sign: Sign::Positive, filenames: &a },
        Term { sign: Sign::Positive, filenames: &a },
    ];
    let e = FilenameSet::evaluate_expression(STRICT, &terms).err().unwrap();
    assert_eq!(e.kind, ErrorKind::DuplicateAddition);
    assert_eq!(e.path.to_string(), "/etc");
    let relaxed = EvaluateOptions { allow_duplicate_addition: true, allow_nonpresent_subtraction: false };
    let s = FilenameSet::evaluate_expression(relaxed, &terms).unwrap();
    assert_eq!(listing(&s), vec!["/etc"]);
}

#[test]
fn evaluate_subtraction_policies() {
    let all = Fixed { dirs: vec![], paths: vec!["/a", "/b", "/c"] };
    let some = Fixed { dirs: vec![], paths: vec!["/b", "/x"] };
    let terms = vec![
        Term { sign: Sign::Positive, filenames: &all },
        Term { sign: Sign::Negative, filenames: &some },
    ];
    let e = FilenameSet::evaluate_expression(STRICT, &terms).err().unwrap();
    assert_eq!(e.kind, ErrorKind::NotPresentInWhole);
    assert_eq!(e.path.to_string(), "/x");
    let relaxed = EvaluateOptions { allow_duplicate_addition: false, allow_nonpresent_subtraction: true };
    let s = FilenameSet::evaluate_expression(relaxed, &terms).unwrap();
    assert_eq!(listing(&s), vec!["/a", "/c"]);
}

#[test]
fn evaluate_empty_expression() {
    let terms: Vec<Term<Fixed>> = Vec::new();
    let s = FilenameSet::evaluate_expression(STRICT, &terms).unwrap();
    assert_eq!(s.len(), 0);
}

#[test]
fn apply_term_overlap_under_directory() {
    let acc = build(&["/etc"], &["/etc"]);
    let added = build(&[], &["/etc/passwd"]);
    let e = apply_term(STRICT, &acc, Sign::Positive, &added).err().unwrap();
    assert_eq!(e.kind, ErrorKind::DuplicateAddition);
    assert_eq!(e.path.to_string(), "/etc/passwd");
    assert_eq!(acc.overlapping_path(&added).unwrap().to_string(), "/etc/passwd");
    assert!(added.overlapping_path(&build(&[], &["/usr"])).is_none());
}

#[test]
fn query_lists_result() {
    let a = Fixed { dirs: vec!["/home"], paths: vec!["/home", "/boot/vmlinuz"] };
    let b = Fixed { dirs: vec![], paths: vec!["/boot/vmlinuz"] };
    let args = QueryArgs {
        options: STRICT,
        expression: vec![
            Term { sign: Sign::Positive, filenames: &a },
            Term { sign: Sign::Negative, filenames: &b },
        ],
    };
    let v = query_filenames(&args).unwrap();
    let texts: Vec<String> = v.iter().map(|f| f.to_string()).collect();
    assert_eq!(texts, vec!["/home"]);
}

#[test]
fn resolve_named_query() {
    let a = Fixed { dirs: vec![], paths: vec!["/q"] };
    let out = QueryModuleOutput::Filenames(&a);
    let s = resolve_query(STRICT, &out).unwrap();
    assert_eq!(listing(&s), vec!["/q"]);
    let out2 = QueryModuleOutput::Expression(vec![Term { sign: Sign::Positive, filenames: &a }]);
    let s2 = resolve_query(STRICT, &out2).unwrap();
    assert_eq!(listing(&s2), vec!["/q"]);
}

#[test]
fn producer_is_a_named_query() {
    let a = Fixed { dirs: vec!["/srv"], paths: vec!["/srv"] };
    let out = a.value();
    assert!(matches!(out, QueryModuleOutput::Filenames(_)));
    let s = resolve_query(STRICT, &out).unwrap();
    assert_eq!(listing(&s), vec!["/srv"]);
}

#[test]
fn render_then_parse_round_trips() {
    for text in ["/a", "/usr/lib/x", "/var/log/app.log"] {
        let f = path(text);
        assert_eq!(f.to_string(), text);
        assert_eq!(path(&f.to_string()).to_string(), text);
    }
}

#[test]
fn duplicate_keeps_the_set() {
    let s = build(&["/etc"], &["/etc", "/b"]);
    let d = s.duplicate();
    assert_eq!(listing(&d), listing(&s));
}
