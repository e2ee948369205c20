//! The behavior matrix and edge cases, run against a file system described as
//! data. The tree is the one the search was specified against:
//!
//! ```text
//! /fx/
//!   index.js         empty file
//!   test.js          empty file
//!   fixture/         directory
//!     unicorn        empty file
//!     file-link      -> unicorn
//!     directory-link -> .
//! ```

use std::collections::BTreeSet;

use locate_path::{Action, Cwd, EntryKind, Options, PathType, Platform, Search};

const ROOT: &str = "/fx";
const FIXTURE: &str = "/fx/fixture";

/// What a look-up of `path` finds in the tree, following links when `follow`.
fn lookup(path: &str, follow: bool, extra: &[(&str, EntryKind, EntryKind)]) -> Option<EntryKind> {
    let table: [(&str, EntryKind, EntryKind); 6] = [
        ("/fx/index.js", EntryKind::File, EntryKind::File),
        ("/fx/test.js", EntryKind::File, EntryKind::File),
        ("/fx/fixture", EntryKind::Directory, EntryKind::Directory),
        ("/fx/fixture/unicorn", EntryKind::File, EntryKind::File),
        ("/fx/fixture/file-link", EntryKind::File, EntryKind::Other),
        ("/fx/fixture/directory-link", EntryKind::Directory, EntryKind::Other),
    ];
    table
        .iter()
        .chain(extra.iter())
        .find(|(p, _, _)| *p == path)
        .map(|(_, followed, not_followed)| if follow { *followed } else { *not_followed })
}

/// Run a search to its end, answering each probe from the tree.
fn locate(
    candidates: Vec<String>,
    options: &Options,
    extra: &[(&str, EntryKind, EntryKind)],
    dangling: &[&str],
) -> Option<String> {
    let mut source = candidates.into_iter();
    let mut search = Search::new(options, Some(ROOT), Platform::Unix);
    loop {
        match search.action() {
            Action::Next => {
                search = search.offer(source.next());
            }
            Action::Probe { path, follow_symlinks } => {
                let outcome = if dangling.contains(&path.as_str()) {
                    if follow_symlinks { None } else { Some(EntryKind::Other) }
                } else {
                    lookup(&path, follow_symlinks, extra)
                };
                search = search.record(outcome);
            }
            Action::Found { candidate, .. } => return Some(candidate),
            Action::NotFound => return None,
        }
    }
}

fn strings(paths: &[&str]) -> Vec<String> {
    paths.iter().map(|p| p.to_string()).collect()
}

fn locate_strs(paths: &[&str], options: &Options) -> Option<String> {
    locate(strings(paths), options, &[], &[])
}

#[derive(Clone, Copy)]
enum Base {
    Root,
    Fixture,
    FixtureUrl,
}

struct Case {
    paths: &'static [&'static str],
    base: Base,
    kind: PathType,
    allow_symlinks: bool,
    expected: Option<&'static str>,
}

const CASES: &[Case] = &[
    Case { paths: &["noop.foo", "unicorn.png", "index.js", "test.js"], base: Base::Root, kind: PathType::File, allow_symlinks: true, expected: Some("index.js") },
    Case { paths: &["nonexistent"], base: Base::Root, kind: PathType::File, allow_symlinks: true, expected: None },
    Case { paths: &["noop", "unicorn"], base: Base::Fixture, kind: PathType::File, allow_symlinks: true, expected: Some("unicorn") },
    Case { paths: &["noop", "unicorn"], base: Base::FixtureUrl, kind: PathType::File, allow_symlinks: true, expected: Some("unicorn") },
    Case { paths: &["index.js"], base: Base::Root, kind: PathType::Directory, allow_symlinks: true, expected: None },
    Case { paths: &["fixture"], base: Base::Root, kind: PathType::File, allow_symlinks: true, expected: None },
    Case { paths: &["fixture"], base: Base::Root, kind: PathType::File, allow_symlinks: true, expected: None },
    Case { paths: &["fixture"], base: Base::Root, kind: PathType::Directory, allow_symlinks: true, expected: Some("fixture") },
    Case { paths: &["index.js"], base: Base::Root, kind: PathType::Both, allow_symlinks: true, expected: Some("index.js") },
    Case { paths: &["fixture"], base: Base::Root, kind: PathType::Both, allow_symlinks: true, expected: Some("fixture") },
    Case { paths: &["fixture", "index.js"], base: Base::Root, kind: PathType::Both, allow_symlinks: true, expected: Some("fixture") },
    Case { paths: &["index.js", "fixture"], base: Base::Root, kind: PathType::Both, allow_symlinks: true, expected: Some("index.js") },
    Case { paths: &["file-link", "unicorn"], base: Base::Fixture, kind: PathType::File, allow_symlinks: true, expected: Some("file-link") },
    Case { paths: &["directory-link", "unicorn"], base: Base::Fixture, kind: PathType::File, allow_symlinks: true, expected: Some("unicorn") },
    Case { paths: &["directory-link", "unicorn"], base: Base::Fixture, kind: PathType::Directory, allow_symlinks: true, expected: Some("directory-link") },
    Case { paths: &["file-link", "directory-link"], base: Base::Fixture, kind: PathType::Both, allow_symlinks: true, expected: Some("file-link") },
    Case { paths: &["directory-link", "file-link"], base: Base::Fixture, kind: PathType::Both, allow_symlinks: true, expected: Some("directory-link") },
    Case { paths: &["file-link", "unicorn"], base: Base::Fixture, kind: PathType::File, allow_symlinks: false, expected: Some("unicorn") },
    Case { paths: &["directory-link", "unicorn"], base: Base::Fixture, kind: PathType::Directory, allow_symlinks: false, expected: None },
];

fn options_for(case: &Case) -> Options {
    let cwd = match case.base {
        Base::Root => Cwd::from(ROOT),
        Base::Fixture => Cwd::from(FIXTURE),
        Base::FixtureUrl => {
            let url = format!("file://{}", FIXTURE);
            Cwd::from_file_url(&url).expect("build file URL cwd")
        }
    };
    Options::default()
        .cwd(cwd)
        .kind(case.kind)
        .allow_symlinks(case.allow_symlinks)
}

#[test]
fn matrix_through_both_entry_points() {
    for (index, case) in CASES.iter().enumerate() {
        let options = options_for(case);
        let expected = case.expected.map(String::from);
        let first = locate_strs(case.paths, &options);
        assert_eq!(first, expected, "mismatch at case index {index}: {:?}", case.paths);
        let again = locate_strs(case.paths, &options.clone());
        assert_eq!(again, expected, "repeat mismatch at case index {index}: {:?}", case.paths);
    }
}

#[test]
fn returns_input_string_not_resolved_path() {
    let options = Options::default().cwd(FIXTURE);
    let found = locate_strs(&["noop", "unicorn"], &options);
    assert_eq!(found.as_deref(), Some("unicorn"));
    assert!(!found.unwrap().starts_with('/'));
}

#[test]
fn all_missing_is_none() {
    let opts = Options::default().cwd(ROOT);
    assert_eq!(locate_strs(&["a", "b", "c"], &opts), None);
}

#[test]
fn match_after_several_misses() {
    let opts = Options::default().cwd(FIXTURE);
    assert_eq!(locate_strs(&["m1", "m2", "m3", "unicorn"], &opts).as_deref(), Some("unicorn"));
}

#[test]
fn absolute_candidate_ignores_cwd() {
    let absolute = "/fx/index.js";
    let opts = Options::default().cwd(FIXTURE);
    assert_eq!(locate_strs(&[absolute], &opts).as_deref(), Some(absolute));
}

#[test]
fn lazy_iterable_sources_preserve_order() {
    let opts = Options::default().cwd(ROOT);
    let from_vec = locate(vec![String::from("noop.foo"), String::from("index.js")], &opts, &[], &[]);
    assert_eq!(from_vec.as_deref(), Some("index.js"));
    let mapped: Vec<String> = ["noop.foo", "index.js"].iter().map(|s| s.to_string()).collect();
    assert_eq!(locate(mapped, &opts, &[], &[]).as_deref(), Some("index.js"));
}

#[test]
fn ordered_source_with_single_match_is_deterministic() {
    let opts = Options::default().cwd(ROOT);
    let set: BTreeSet<&str> = ["index.js", "missing-1", "missing-2"].into_iter().collect();
    let candidates: Vec<String> = set.into_iter().map(String::from).collect();
    assert_eq!(locate(candidates, &opts, &[], &[]).as_deref(), Some("index.js"));
}

#[test]
fn explicit_cwd_selects_search_directory() {
    let explicit = Options::default().cwd(Cwd::Path(String::from(ROOT)));
    assert_eq!(locate_strs(&["index.js"], &explicit).as_deref(), Some("index.js"));
    let elsewhere = Options::default().cwd(Cwd::Path(String::from("/")));
    assert_eq!(locate_strs(&["index.js"], &elsewhere), None);
}

#[test]
fn broken_symlink_never_matches() {
    for ty in [PathType::File, PathType::Directory, PathType::Both] {
        let opts = Options::default().cwd(FIXTURE).kind(ty);
        assert_eq!(locate(strings(&["dangling"]), &opts, &[], &["/fx/fixture/dangling"]), None, "follow {ty:?}");
    }
    for ty in [PathType::File, PathType::Directory, PathType::Both] {
        let opts = Options::default().cwd(FIXTURE).allow_symlinks(false).kind(ty);
        assert_eq!(locate(strings(&["dangling"]), &opts, &[], &["/fx/fixture/dangling"]), None, "no follow {ty:?}");
    }
}

#[test]
fn special_file_never_matches_any_type() {
    let pipe = [("/fx/fixture/pipe", EntryKind::Other, EntryKind::Other)];
    for ty in [PathType::File, PathType::Directory, PathType::Both] {
        let follow = Options::default().cwd(FIXTURE).kind(ty);
        assert_eq!(locate(strings(&["pipe"]), &follow, &pipe, &[]), None, "follow links, type {ty:?}");
        let no_follow = Options::default().cwd(FIXTURE).allow_symlinks(false).kind(ty);
        assert_eq!(locate(strings(&["pipe"]), &no_follow, &pipe, &[]), None, "no follow, type {ty:?}");
    }
    let opts = Options::default().cwd(FIXTURE).kind(PathType::Both);
    assert_eq!(locate(strings(&["pipe", "unicorn"]), &opts, &pipe, &[]).as_deref(), Some("unicorn"));
}

#[test]
fn unicode_candidate_returned_verbatim() {
    let name = "café-☃.txt";
    let file = [("/fx/café-☃.txt", EntryKind::File, EntryKind::File)];
    let opts = Options::default().cwd(ROOT);
    assert_eq!(locate(strings(&["missing", name]), &opts, &file, &[]).as_deref(), Some(name));
    assert_eq!(locate(strings(&[name]), &opts, &file, &[]).as_deref(), Some(name));
}

#[test]
fn file_url_cwd_with_percent_encoding() {
    let spaced = [("/fx/with space/unicorn", EntryKind::File, EntryKind::File)];
    let url = format!("file://{}/with space", ROOT).replace(' ', "%20");
    let cwd = Cwd::from_file_url(&url).expect("decode url");
    let opts = Options::default().cwd(cwd);
    assert_eq!(locate(strings(&["unicorn"]), &opts, &spaced, &[]).as_deref(), Some("unicorn"));
}
