use locate_path::{Action, Cwd, EntryKind, Options, PathType, Platform, Search};

/// Drive a search against a table of entries keyed by resolved path.
fn run(candidates: &[&str], options: &Options, process_dir: Option<&str>, table: &[(&str, EntryKind)]) -> Option<(usize, String)> {
    let mut source = candidates.iter().map(|c| c.to_string());
    let mut search = Search::new(options, process_dir, Platform::Unix);
    loop {
        match search.action() {
            Action::Next => {
                search = search.offer(source.next());
            }
            Action::Probe { path, .. } => {
                let found = table.iter().find(|(p, _)| *p == path).map(|(_, k)| *k);
                search = search.record(found);
            }
            Action::Found { index, candidate } => return Some((index, candidate)),
            Action::NotFound => return None,
        }
    }
}

#[test]
fn empty_iterable_is_none() {
    let opts = Options::default();
    for dir in [None, Some("/")] {
        let search = Search::new(&opts, dir, Platform::Unix);
        assert_eq!(search.action(), Action::Next);
        assert_eq!(search.offer(None).action(), Action::NotFound);
    }
}

#[test]
fn first_match_in_order_is_returned_verbatim() {
    let opts = Options::default().cwd("/root");
    let table = [("/root/index.js", EntryKind::File), ("/root/test.js", EntryKind::File)];
    assert_eq!(
        run(&["noop.foo", "unicorn.png", "./index.js", "test.js"], &opts, None, &table),
        Some((2, String::from("./index.js")))
    );
}

#[test]
fn type_filter_skips_wrong_kinds() {
    let table = [("/r/fixture", EntryKind::Directory), ("/r/index.js", EntryKind::File), ("/r/pipe", EntryKind::Other)];
    let files = Options::default().cwd("/r");
    assert_eq!(run(&["fixture", "pipe", "index.js"], &files, None, &table), Some((2, String::from("index.js"))));
    let dirs = Options::default().cwd("/r").kind(PathType::Directory);
    assert_eq!(run(&["index.js", "pipe", "fixture"], &dirs, None, &table), Some((2, String::from("fixture"))));
    let both = Options::default().cwd("/r").kind(PathType::Both);
    assert_eq!(run(&["pipe", "fixture", "index.js"], &both, None, &table), Some((1, String::from("fixture"))));
    assert_eq!(run(&["pipe"], &both, None, &table), None);
}

#[test]
fn relative_candidates_need_a_base() {
    let table = [("/abs/x", EntryKind::File), ("/p/x", EntryKind::File)];
    let opts = Options::default();
    assert_eq!(run(&["x", "/abs/x"], &opts, None, &table), Some((1, String::from("/abs/x"))));
    assert_eq!(run(&["x", "/abs/x"], &opts, Some("/p"), &table), Some((0, String::from("x"))));
    let relative = Options::default().cwd(Cwd::Path(String::from("q/..")));
    assert_eq!(run(&["x"], &relative, Some("/p"), &table), Some((0, String::from("x"))));
}

#[test]
fn probes_carry_the_symlink_setting() {
    let opts = Options::default().cwd("/d").allow_symlinks(false);
    let search = Search::new(&opts, None, Platform::Unix).offer(Some(String::from("link")));
    assert_eq!(
        search.action(),
        Action::Probe { path: String::from("/d/link"), follow_symlinks: false }
    );
    let after = search.record(Some(EntryKind::Other));
    assert_eq!(after.action(), Action::Next);
    let finished = after.offer(None);
    assert_eq!(finished.action(), Action::NotFound);
    let unchanged = finished.record(Some(EntryKind::File)).offer(Some(String::from("x")));
    assert_eq!(unchanged.action(), Action::NotFound);
}

#[test]
fn missing_entries_rule_candidates_out() {
    let opts = Options::default().cwd("/m");
    assert_eq!(run(&["a", "b", "c"], &opts, None, &[]), None);
    assert_eq!(run(&["m1", "m2", "m3", "unicorn"], &opts, None, &[("/m/unicorn", EntryKind::File)]), Some((3, String::from("unicorn"))));
}

#[test]
fn candidates_after_the_match_are_not_taken() {
    let opts = Options::default().cwd("/r");
    let mut pulled = 0usize;
    let mut source = ["a", "b", "c", "d"].iter().map(|c| c.to_string()).inspect(|_| pulled += 1);
    let mut search = Search::new(&opts, None, Platform::Unix);
    let result = loop {
        match search.action() {
            Action::Next => search = search.offer(source.next()),
            Action::Probe { path, .. } => {
                let found = if path == "/r/b" { Some(EntryKind::File) } else { None };
                search = search.record(found);
            }
            Action::Found { index, candidate } => break Some((index, candidate)),
            Action::NotFound => break None,
        }
    };
    drop(source);
    assert_eq!(result, Some((1, String::from("b"))));
    assert_eq!(pulled, 2);
}

#[test]
fn endless_source_stops_at_the_match() {
    let opts = Options::default().cwd("/r");
    let mut source = (0u64..).map(|n| format!("f{n}"));
    let mut search = Search::new(&opts, None, Platform::Unix);
    let result = loop {
        match search.action() {
            Action::Next => search = search.offer(source.next()),
            Action::Probe { path, .. } => {
                let found = if path == "/r/f7" { Some(EntryKind::File) } else { None };
                search = search.record(found);
            }
            Action::Found { candidate, .. } => break Some(candidate),
            Action::NotFound => break None,
        }
    };
    assert_eq!(result, Some(String::from("f7")));
}

#[test]
fn unresolvable_candidates_are_skipped_without_a_probe() {
    let opts = Options::default();
    let search = Search::new(&opts, None, Platform::Unix).offer(Some(String::from("relative")));
    assert_eq!(search.action(), Action::Next);
    let search = search.offer(Some(String::from("/abs")));
    assert_eq!(
        search.action(),
        Action::Probe { path: String::from("/abs"), follow_symlinks: true }
    );
    let search = search.record(Some(EntryKind::File));
    assert_eq!(
        search.action(),
        Action::Found { index: 1, candidate: String::from("/abs") }
    );
}
