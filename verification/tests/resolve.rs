use locate_path::{base_dir, normalize, resolve, Cwd, Platform};

#[test]
fn absolute_candidate_ignores_base() {
    let base = "/home/user";
    let candidate = "/etc/hosts";
    assert_eq!(
        resolve(Platform::Unix, Some(base), candidate),
        Some(String::from("/etc/hosts"))
    );
}

#[test]
fn absolute_candidate_resolves_without_a_base() {
    let candidate = "/etc/hosts";
    assert_eq!(resolve(Platform::Unix, None, candidate), Some(String::from("/etc/hosts")));
}

#[test]
fn relative_candidate_joins_base() {
    let base = "/home/user";
    let candidate = "file";
    assert_eq!(
        resolve(Platform::Unix, Some(base), candidate),
        Some(String::from("/home/user/file"))
    );
}

#[test]
fn relative_candidate_without_a_base_is_none() {
    let candidate = "file";
    assert_eq!(resolve(Platform::Unix, None, candidate), None);
}

#[test]
fn normalize_collapses_dot_and_dotdot() {
    assert_eq!(normalize(Platform::Unix, "/a/b/../c"), String::from("/a/c"));
    assert_eq!(normalize(Platform::Unix, "/a/./b"), String::from("/a/b"));
}

#[test]
fn normalize_collapses_repeated_parent_segments() {
    assert_eq!(normalize(Platform::Unix, "/a/b/c/../../d"), String::from("/a/d"));
    assert_eq!(normalize(Platform::Unix, "a/b/../../c"), String::from("c"));
    assert_eq!(normalize(Platform::Unix, "a/../../b"), String::from("../b"));
}

#[test]
fn dotdot_at_root_stays_at_root() {
    assert_eq!(normalize(Platform::Unix, "/../a"), String::from("/a"));
}

#[test]
fn directory_link_to_self_resolves_to_dir() {
    let base = "/tmp/fixture";
    let candidate = ".";
    assert_eq!(
        resolve(Platform::Unix, Some(base), candidate),
        Some(String::from("/tmp/fixture"))
    );
}

#[test]
fn normalize_edge_cases() {
    assert_eq!(normalize(Platform::Unix, ""), "");
    assert_eq!(normalize(Platform::Unix, "/"), "/");
    assert_eq!(normalize(Platform::Unix, "//a//b/"), "/a/b");
    assert_eq!(normalize(Platform::Unix, "a/.."), "");
    assert_eq!(normalize(Platform::Unix, "../../x/.."), "../..");
    assert_eq!(normalize(Platform::Unix, "./a"), "a");
    assert_eq!(normalize(Platform::Unix, "/é/./ü/../ö"), "/é/ö");
}

#[test]
fn normalize_is_idempotent_on_examples() {
    for p in ["/a/b/../c", "a/../../b", "//x/./y/", "", "/", "../a/..", "a/b/c/../.."] {
        let once = normalize(Platform::Unix, p);
        assert_eq!(normalize(Platform::Unix, &once), once);
    }
}

#[test]
fn relative_base_joins_without_double_separator() {
    assert_eq!(resolve(Platform::Unix, Some("/"), "a"), Some(String::from("/a")));
    assert_eq!(resolve(Platform::Unix, Some("/x/"), "a/../b"), Some(String::from("/x/b")));
    assert_eq!(resolve(Platform::Unix, Some(""), "a/b"), Some(String::from("a/b")));
}

#[test]
fn base_dir_cases() {
    assert_eq!(base_dir(Platform::Unix, &Cwd::Process, Some("/proc/dir")), Some(String::from("/proc/dir")));
    assert_eq!(base_dir(Platform::Unix, &Cwd::Process, None), None);
    assert_eq!(
        base_dir(Platform::Unix, &Cwd::Path(String::from("/a/./b/..")), None),
        Some(String::from("/a"))
    );
    assert_eq!(
        base_dir(Platform::Unix, &Cwd::Path(String::from("sub/dir")), Some("/home/u")),
        Some(String::from("/home/u/sub/dir"))
    );
    assert_eq!(base_dir(Platform::Unix, &Cwd::Path(String::from("sub")), None), None);
}

#[test]
fn resolution_against_absolute_base_is_absolute() {
    for c in ["x", "../../..", ".", "/abs", "a/b/../c"] {
        let r = resolve(Platform::Unix, Some("/base/dir"), c).unwrap();
        assert!(r.starts_with('/'));
    }
}

#[test]
fn name_then_parent_cancels() {
    for base in ["/b", "/b/", "", "rel"] {
        assert_eq!(resolve(Platform::Unix, Some(base), "x/../name"), resolve(Platform::Unix, Some(base), "name"));
    }
}

#[test]
fn normalize_keeps_drive_prefix() {
    assert_eq!(normalize(Platform::Windows, r"C:\foo\..\bar"), String::from(r"C:\bar"));
}

#[test]
fn windows_rules_for_prefix_root_and_separators() {
    assert_eq!(normalize(Platform::Windows, "C:/a/./b/../c"), r"C:\a\c");
    assert_eq!(normalize(Platform::Windows, r"C:foo\..\..\bar"), "C:bar");
    assert_eq!(normalize(Platform::Windows, r"\a\..\..\b"), r"\b");
    assert_eq!(normalize(Platform::Windows, r"a\..\..\b"), r"..\b");
    assert_eq!(normalize(Platform::Windows, "C:"), "C:");
    assert_eq!(normalize(Platform::Unix, r"C:\foo\..\bar"), r"C:\foo\..\bar");
    assert_eq!(resolve(Platform::Windows, Some(r"C:\base"), r"D:\x"), Some(String::from(r"D:\x")));
    assert_eq!(resolve(Platform::Windows, Some(r"C:\base"), r"\x"), Some(String::from(r"C:\x")));
    assert_eq!(resolve(Platform::Windows, Some(r"C:\base"), "x/y"), Some(String::from(r"C:\base\x\y")));
    assert_eq!(resolve(Platform::Windows, Some(r"C:\base"), "D:x"), Some(String::from("D:x")));
    assert_eq!(resolve(Platform::Windows, Some("C:"), "x"), Some(String::from("C:x")));
    assert_eq!(resolve(Platform::Windows, None, r"C:\a\..\b"), Some(String::from(r"C:\b")));
    assert_eq!(resolve(Platform::Windows, None, r"\a"), None);
    assert_eq!(resolve(Platform::Unix, Some("/b"), r"C:\x"), Some(String::from(r"/b/C:\x")));
}

#[test]
fn windows_loose_drive_dot_is_the_one_non_idempotent_form() {
    let once = normalize(Platform::Windows, r"a\..\C:.\x");
    assert_eq!(once, r"C:.\x");
    assert_eq!(normalize(Platform::Windows, &once), "C:x");
    for p in [r"C:\a\..\b", r"a\..\C:x\y", r"a\..\C:\y", r"\\x\.\y", r"..\a", "C:"] {
        let once = normalize(Platform::Windows, p);
        assert_eq!(normalize(Platform::Windows, &once), once);
    }
}
