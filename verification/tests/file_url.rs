use locate_path::file_url::{hex_value, percent_decode};
use locate_path::{Cwd, FileUrlError};

#[test]
fn from_file_url_accepts_case_insensitive_scheme() {
    assert_eq!(
        Cwd::from_file_url("FILE:///tmp/x").unwrap(),
        Cwd::Path(String::from("/tmp/x"))
    );
    assert_eq!(
        Cwd::from_file_url("File:///tmp/x").unwrap(),
        Cwd::Path(String::from("/tmp/x"))
    );
}

#[test]
fn from_file_url_ignores_query_and_fragment() {
    assert_eq!(
        Cwd::from_file_url("file:///tmp/a?b").unwrap(),
        Cwd::Path(String::from("/tmp/a"))
    );
    assert_eq!(
        Cwd::from_file_url("file:///tmp/a#b").unwrap(),
        Cwd::Path(String::from("/tmp/a"))
    );
    assert_eq!(
        Cwd::from_file_url("file:///tmp/a%3Fb%23c").unwrap(),
        Cwd::Path(String::from("/tmp/a?b#c"))
    );
}

#[test]
fn file_url_rejects_non_file_scheme() {
    let err = Cwd::from_file_url("http://example.com/path").unwrap_err();
    assert_eq!(err, FileUrlError::Scheme);
}

#[test]
fn file_url_rejects_foreign_host() {
    let err = Cwd::from_file_url("file://otherhost/share").unwrap_err();
    assert_eq!(err, FileUrlError::Authority);
}

#[test]
fn file_url_accepts_localhost_and_empty_host() {
    let empty = Cwd::from_file_url("file:///tmp/x").unwrap();
    assert_eq!(empty, Cwd::Path(String::from("/tmp/x")));
    let localhost = Cwd::from_file_url("file://localhost/tmp/x").unwrap();
    assert_eq!(localhost, Cwd::Path(String::from("/tmp/x")));
}

#[test]
fn file_url_rejects_bad_percent_escape() {
    let err = Cwd::from_file_url("file:///tmp/%2").unwrap_err();
    assert_eq!(err, FileUrlError::Encoding);
}

#[test]
fn file_url_bare_host_is_root() {
    assert_eq!(Cwd::from_file_url("file://").unwrap(), Cwd::Path(String::from("/")));
    assert_eq!(Cwd::from_file_url("file:///").unwrap(), Cwd::Path(String::from("/")));
    assert_eq!(
        Cwd::from_file_url("file://LocalHost").unwrap(),
        Cwd::Path(String::from("/"))
    );
}

#[test]
fn file_url_short_input_is_scheme_error() {
    assert_eq!(Cwd::from_file_url("file:/").unwrap_err(), FileUrlError::Scheme);
    assert_eq!(Cwd::from_file_url("").unwrap_err(), FileUrlError::Scheme);
}

#[test]
fn file_url_host_with_query_is_authority_error() {
    assert_eq!(
        Cwd::from_file_url("file://localhost?x").unwrap_err(),
        FileUrlError::Authority
    );
}

#[test]
fn file_url_rejects_encoded_separators() {
    assert_eq!(
        Cwd::from_file_url("file:///a%2Fb").unwrap_err(),
        FileUrlError::Encoding
    );
    assert_eq!(
        Cwd::from_file_url("file:///a%5cb").unwrap_err(),
        FileUrlError::Encoding
    );
}

#[test]
fn file_url_rejects_non_hex_escape() {
    assert_eq!(
        Cwd::from_file_url("file:///a%zz").unwrap_err(),
        FileUrlError::Encoding
    );
}

#[test]
fn file_url_rejects_invalid_utf8() {
    assert_eq!(
        Cwd::from_file_url("file:///a%ff").unwrap_err(),
        FileUrlError::Encoding
    );
}

#[test]
fn file_url_decodes_utf8_and_spaces() {
    assert_eq!(
        Cwd::from_file_url("file:///tmp/my%20dir").unwrap(),
        Cwd::Path(String::from("/tmp/my dir"))
    );
    assert_eq!(
        Cwd::from_file_url("file:///caf%C3%A9").unwrap(),
        Cwd::Path(String::from("/café"))
    );
    assert_eq!(
        Cwd::from_file_url("file:///café").unwrap(),
        Cwd::Path(String::from("/café"))
    );
}

#[test]
fn file_url_error_messages() {
    assert_eq!(FileUrlError::Scheme.to_string(), "URL scheme must be \"file\"");
    assert_eq!(
        FileUrlError::Authority.to_string(),
        "file URL host must be empty or \"localhost\""
    );
    assert_eq!(
        FileUrlError::Encoding.to_string(),
        "invalid percent encoding in file URL"
    );
}

#[test]
fn hex_value_reads_both_cases() {
    assert_eq!(hex_value(b'0'), Ok(0));
    assert_eq!(hex_value(b'9'), Ok(9));
    assert_eq!(hex_value(b'a'), Ok(10));
    assert_eq!(hex_value(b'F'), Ok(15));
    assert_eq!(hex_value(b'g'), Err(FileUrlError::Encoding));
}

#[test]
fn percent_decode_plain_and_escaped() {
    assert_eq!(percent_decode(b"/a%20b").unwrap(), "/a b");
    assert_eq!(percent_decode(b"abc").unwrap(), "abc");
    assert_eq!(percent_decode(b"%4").unwrap_err(), FileUrlError::Encoding);
}

#[test]
fn file_url_keeps_drive_letters_as_posix_paths() {
    assert_eq!(
        Cwd::from_file_url("file:///C:/x").unwrap(),
        Cwd::Path(String::from("/C:/x"))
    );
}

#[test]
fn file_url_round_trips_escaped_paths() {
    let path = "/a%b?c#d/é e";
    let escaped = "/a%25b%3fc%23D/%C3%A9%20e".replace('D', "d");
    assert_eq!(
        Cwd::from_file_url(&format!("file://{}", escaped)).unwrap(),
        Cwd::Path(String::from(path))
    );
    let plain = "/plain/dir with space";
    assert_eq!(
        Cwd::from_file_url(&format!("file://{}", plain)).unwrap(),
        Cwd::Path(String::from(plain))
    );
}
