use locate_path::{ConcurrencyError, EntryKind, Options, AsyncOptions, PathType, Cwd};

#[test]
fn rejects_unknown_type_string() {
    let err = PathType::try_from("rainbows").unwrap_err();
    assert_eq!(err.to_string(), "Invalid type specified: rainbows");
}

#[test]
fn rejects_prototype_key_to_string() {
    let err = PathType::try_from("toString").unwrap_err();
    assert_eq!(err.to_string(), "Invalid type specified: toString");
}

#[test]
fn rejects_numeric_like_string() {
    let err = PathType::try_from("1").unwrap_err();
    assert_eq!(err.to_string(), "Invalid type specified: 1");
}

#[test]
fn accepts_valid_type_strings() {
    assert_eq!("file".parse::<PathType>().unwrap(), PathType::File);
    assert_eq!(
        "directory".parse::<PathType>().unwrap(),
        PathType::Directory
    );
    assert_eq!("both".parse::<PathType>().unwrap(), PathType::Both);
}

#[test]
fn invalid_type_keeps_value() {
    let err = PathType::try_from("rainbows").unwrap_err();
    assert_eq!(err.value(), "rainbows");
}

#[test]
fn concurrency_zero_is_rejected() {
    let options = Options::default().concurrency(Some(0));
    assert_eq!(options.concurrency_or_error(), Err(ConcurrencyError));
    assert_eq!(
        ConcurrencyError.to_string(),
        "Expected `concurrency` to be a number from 1 and up"
    );
}

#[test]
fn concurrency_positive_and_none_accepted() {
    let bounded: AsyncOptions = Options::default().concurrency(Some(4));
    assert_eq!(bounded.concurrency_or_error(), Ok(Some(4)));

    let unbounded = Options::default().concurrency(None);
    assert_eq!(unbounded.concurrency_or_error(), Ok(None));
}

#[test]
fn type_names_are_case_sensitive() {
    assert!("File".parse::<PathType>().is_err());
    assert!(" file".parse::<PathType>().is_err());
    assert_eq!(PathType::try_from("").unwrap_err().value(), "");
    assert_eq!(PathType::default(), PathType::File);
}

#[test]
fn matches_follows_the_filter() {
    assert!(PathType::File.matches(EntryKind::File));
    assert!(!PathType::File.matches(EntryKind::Directory));
    assert!(PathType::Directory.matches(EntryKind::Directory));
    assert!(!PathType::Directory.matches(EntryKind::File));
    assert!(PathType::Both.matches(EntryKind::File));
    assert!(PathType::Both.matches(EntryKind::Directory));
    for t in [PathType::File, PathType::Directory, PathType::Both] {
        assert!(!t.matches(EntryKind::Other));
    }
}

#[test]
fn setters_change_one_setting_each() {
    let base = Options::default();
    let d = Options::default();
    assert_eq!(base, d);
    let changed = Options::default()
        .cwd("src")
        .kind(PathType::Directory)
        .allow_symlinks(false)
        .preserve_order(false);
    assert_ne!(changed, base);
    let back = changed
        .cwd(Cwd::Process)
        .kind(PathType::File)
        .allow_symlinks(true)
        .preserve_order(true);
    assert_eq!(back, Options::default());
    let from_string = Options::default().cwd(String::from("x"));
    assert_eq!(from_string, Options::default().cwd("x"));
}

#[test]
fn cwd_keeps_a_given_cwd() {
    let opts = Options::default().kind(PathType::Both).cwd(Cwd::Path(String::from("/w")));
    assert_eq!(opts, Options::default().kind(PathType::Both).cwd("/w"));
    let back = opts.cwd(Cwd::Process);
    assert_eq!(back, Options::default().kind(PathType::Both));
}

#[test]
fn cwd_equality_compares_components() {
    assert_eq!(Cwd::Path(String::from("/tmp/x/")), Cwd::Path(String::from("/tmp/x")));
    assert_eq!(Cwd::Path(String::from("/tmp//x")), Cwd::Path(String::from("/tmp/x")));
    assert_eq!(Cwd::Path(String::from("/tmp/./x")), Cwd::Path(String::from("/tmp/x")));
    assert_ne!(Cwd::Path(String::from("./x")), Cwd::Path(String::from("x")));
    assert_ne!(Cwd::Path(String::from("/x")), Cwd::Path(String::from("x")));
    assert_ne!(Cwd::Path(String::from("/a/../b")), Cwd::Path(String::from("/b")));
    assert_ne!(Cwd::Process, Cwd::Path(String::from(".")));
    assert_eq!(Cwd::Process, Cwd::Process);
    assert_eq!(Options::default().cwd("/tmp/x/"), Options::default().cwd("/tmp/x"));
}
