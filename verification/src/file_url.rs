//! `file://` URLs as working directories: the scheme and host checks, and the
//! percent-decoding of the path.
use vstd::prelude::*;
use vstd::utf8::*;

use crate::options::Cwd;
use crate::text::string_from_utf8;

verus! {

broadcast use vstd::string::group_string_axioms;

/// Error returned when a `file://` URL cannot become a path.
#[derive(Debug, Clone, Copy, PartialEq, Eq, Structural)]
pub enum FileUrlError {
    /// The URL does not start with `file://`.
    Scheme,
    /// The URL carries a host other than an empty host or `localhost`.
    Authority,
    /// The URL contains an invalid percent escape, an encoded path separator,
    /// or non-UTF-8 content.
    Encoding,
}

impl FileUrlError {
    /// The message of the error `e`.
    pub open spec fn message(e: FileUrlError) -> Seq<char> {
        match e {
            FileUrlError::Scheme => "URL scheme must be \"file\""@,
            FileUrlError::Authority => "file URL host must be empty or \"localhost\""@,
            FileUrlError::Encoding => "invalid percent encoding in file URL"@,
        }
    }

    /// The error message.
    pub fn to_string(&self) -> (r: String)
        ensures
            r@ == Self::message(*self),
    {
        match self {
            FileUrlError::Scheme => "URL scheme must be \"file\"".to_owned(),
            FileUrlError::Authority => "file URL host must be empty or \"localhost\"".to_owned(),
            FileUrlError::Encoding => "invalid percent encoding in file URL".to_owned(),
        }
    }
}

/// The value of a hexadecimal digit, in either case.
pub open spec fn hex_digit(b: u8) -> Option<u8> {
    if 0x30 <= b <= 0x39 {
        Some((b - 0x30) as u8)
    } else if 0x61 <= b <= 0x66 {
        Some((b - 0x61 + 10) as u8)
    } else if 0x41 <= b <= 0x46 {
        Some((b - 0x41 + 10) as u8)
    } else {
        None
    }
}

/// The bytes `b` with each escape `%XY` replaced by the byte of value `XY`;
/// `None` when an escape is cut short, is not hexadecimal, or encodes a path
/// separator (`/` or `\`).
pub open spec fn unescaped(b: Seq<u8>) -> Option<Seq<u8>>
    decreases b.len(),
{
    if b.len() == 0 {
        Some(Seq::empty())
    } else if b[0] == 0x25 {
        if b.len() < 3 {
            None
        } else {
            match (hex_digit(b[1]), hex_digit(b[2])) {
                (Some(hi), Some(lo)) => {
                    let v = (hi * 16 + lo) as u8;
                    if v == 0x2f || v == 0x5c {
                        None
                    } else {
                        match unescaped(b.skip(3)) {
                            Some(rest) => Some(seq![v] + rest),
                            None => None,
                        }
                    }
                },
                _ => None,
            }
        }
    } else {
        match unescaped(b.skip(1)) {
            Some(rest) => Some(seq![b[0]] + rest),
            None => None,
        }
    }
}

/// How many bytes of `b` equal `x`.
pub open spec fn occurrences(b: Seq<u8>, x: u8) -> nat
    decreases b.len(),
{
    if b.len() == 0 {
        0
    } else {
        (if b[0] == x { 1nat } else { 0nat }) + occurrences(b.drop_first(), x)
    }
}

proof fn lemma_unescaped_step(b: Seq<u8>, k: int)
    requires
        1 <= k <= b.len(),
    ensures
        b.skip(k) == b.drop_first().skip(k - 1),
{
    assert(b.skip(k) =~= b.drop_first().skip(k - 1));
}

/// Percent-decoding never makes a path separator: the decoded bytes hold as many
/// `/` and as many `\` as the input does, so an encoded separator can never
/// split one path segment into two.
pub proof fn law_unescaping_keeps_separators(b: Seq<u8>)
    ensures
        unescaped(b) matches Some(d) ==> occurrences(d, 0x2f) == occurrences(b, 0x2f)
            && occurrences(d, 0x5c) == occurrences(b, 0x5c),
    decreases b.len(),
{
    if b.len() > 0 {
        if b[0] == 0x25 {
            if b.len() >= 3 {
                lemma_unescaped_step(b, 3);
                law_unescaping_keeps_separators(b.skip(3));
                if let (Some(hi), Some(lo)) = (hex_digit(b[1]), hex_digit(b[2])) {
                    let v = (hi * 16 + lo) as u8;
                    if let Some(rest) = unescaped(b.skip(3)) {
                        if v != 0x2f && v != 0x5c {
                            let d = seq![v] + rest;
                            assert(d.drop_first() =~= rest);
                            let t1 = b.drop_first();
                            let t2 = t1.drop_first();
                            assert(t2.drop_first() =~= b.skip(3));
                            assert(t1[0] == b[1] && t2[0] == b[2]);
                            assert(occurrences(b, 0x2f) == occurrences(t1, 0x2f));
                            assert(occurrences(t1, 0x2f) == occurrences(t2, 0x2f));
                            assert(occurrences(t2, 0x2f) == occurrences(b.skip(3), 0x2f));
                            assert(occurrences(b, 0x5c) == occurrences(t1, 0x5c));
                            assert(occurrences(t1, 0x5c) == occurrences(t2, 0x5c));
                            assert(occurrences(t2, 0x5c) == occurrences(b.skip(3), 0x5c));
                            assert(occurrences(d, 0x2f) == occurrences(rest, 0x2f));
                            assert(occurrences(d, 0x5c) == occurrences(rest, 0x5c));
                        }
                    }
                }
            }
        } else {
            assert(b.skip(1) =~= b.drop_first());
            law_unescaping_keeps_separators(b.drop_first());
            if let Some(rest) = unescaped(b.drop_first()) {
                let d = seq![b[0]] + rest;
                assert(d.drop_first() =~= rest);
                assert(d[0] == b[0]);
                assert(occurrences(d, 0x2f) == occurrences(b, 0x2f));
                assert(occurrences(d, 0x5c) == occurrences(b, 0x5c));
            }
        }
    }
}

/// Convert one hex digit to its value.
pub fn hex_value(byte: u8) -> (r: Result<u8, FileUrlError>)
    ensures
        match hex_digit(byte) {
            Some(v) => r == Ok::<u8, FileUrlError>(v),
            None => r == Err::<u8, FileUrlError>(FileUrlError::Encoding),
        },
{
    if 0x30 <= byte && byte <= 0x39 {
        Ok(byte - 0x30)
    } else if 0x61 <= byte && byte <= 0x66 {
        Ok(byte - 0x61 + 10)
    } else if 0x41 <= byte && byte <= 0x46 {
        Ok(byte - 0x41 + 10)
    } else {
        Err(FileUrlError::Encoding)
    }
}

/// Percent-decode the bytes of a URL path into a UTF-8 string.
///
/// An encoded path separator (`%2F` for `/`, `%5C` for `\`) is rejected: it is
/// not turned into a real one, since that would split one path segment into
/// two and locate a different path.
pub fn percent_decode(input: &[u8]) -> (r: Result<String, FileUrlError>)
    ensures
        match unescaped(input@) {
            Some(d) => if valid_utf8(d) {
                r matches Ok(s) && s@ == decode_utf8(d)
            } else {
                r == Err::<String, FileUrlError>(FileUrlError::Encoding)
            },
            None => r == Err::<String, FileUrlError>(FileUrlError::Encoding),
        },
{
    let n = input.len();
    let mut out: Vec<u8> = Vec::new();
    let mut i: usize = 0;
    assert(input@.skip(0) =~= input@);
    while i < n
        invariant
            n == input@.len(),
            i <= n,
            unescaped(input@) == match unescaped(input@.skip(i as int)) {
                Some(rest) => Some(out@ + rest),
                None => None::<Seq<u8>>,
            },
        decreases n - i,
    {
        let ghost tail = input@.skip(i as int);
        assert(tail[0] == input@[i as int]);
        if input[i] == 0x25 {
            if n - i < 3 {
                return Err(FileUrlError::Encoding);
            }
            assert(tail[1] == input@[i + 1]);
            assert(tail[2] == input@[i + 2]);
            let hi = match hex_value(input[i + 1]) {
                Ok(v) => v,
                Err(e) => return Err(e),
            };
            let lo = match hex_value(input[i + 2]) {
                Ok(v) => v,
                Err(e) => return Err(e),
            };
            let byte = hi * 16 + lo;
            if byte == 0x2f || byte == 0x5c {
                return Err(FileUrlError::Encoding);
            }
            assert(tail.skip(3) =~= input@.skip(i + 3));
            proof {
                match unescaped(input@.skip(i + 3)) {
                    Some(rest) => {
                        assert(out@.push(byte) + rest =~= out@ + (seq![byte] + rest));
                    },
                    None => {},
                }
            }
            out.push(byte);
            i = i + 3;
        } else {
            let byte = input[i];
            assert(tail.skip(1) =~= input@.skip(i + 1));
            proof {
                match unescaped(input@.skip(i + 1)) {
                    Some(rest) => {
                        assert(out@.push(byte) + rest =~= out@ + (seq![byte] + rest));
                    },
                    None => {},
                }
            }
            out.push(byte);
            i = i + 1;
        }
    }
    assert(out@ + Seq::<u8>::empty() =~= out@);
    match string_from_utf8(out) {
        Some(s) => Ok(s),
        None => Err(FileUrlError::Encoding),
    }
}

/// A byte folded to lower case when it is an ASCII capital letter.
pub open spec fn ascii_lower(b: u8) -> u8 {
    if 0x41 <= b <= 0x5a {
        (b + 32) as u8
    } else {
        b
    }
}

/// Whether `a` and `b` are equal when ASCII letters are compared without
/// regard to case.
pub open spec fn same_ignoring_case(a: Seq<u8>, b: Seq<u8>) -> bool {
    a.len() == b.len() && forall|i: int| 0 <= i < a.len() ==> #[trigger] ascii_lower(a[i]) == ascii_lower(b[i])
}

/// The bytes of `file://`.
pub open spec fn scheme_prefix() -> Seq<u8> {
    seq![0x66u8, 0x69, 0x6c, 0x65, 0x3a, 0x2f, 0x2f]
}

/// The bytes of `localhost`.
pub open spec fn local_host() -> Seq<u8> {
    seq![0x6cu8, 0x6f, 0x63, 0x61, 0x6c, 0x68, 0x6f, 0x73, 0x74]
}

/// The position of the first byte of `s` for which `stop` holds, or the length
/// of `s` when there is none.
pub open spec fn first_position(s: Seq<u8>, stop: spec_fn(u8) -> bool) -> int
    decreases s.len(),
{
    if s.len() == 0 {
        0
    } else if stop(s[0]) {
        0
    } else {
        1 + first_position(s.drop_first(), stop)
    }
}

/// A path separator byte.
pub open spec fn is_slash(b: u8) -> bool {
    b == 0x2f
}

/// The start of a query (`?`) or of a fragment (`#`).
pub open spec fn ends_path(b: u8) -> bool {
    b == 0x3f || b == 0x23
}

/// The decoded path bytes of the URL whose bytes are `url`, or the error that
/// rejects it: the first seven bytes must read `file://` in any case; the host,
/// up to the first `/` after them, must be empty or `localhost` in any case; the
/// path runs from that `/` (or is `/` when there is none) up to the first `?` or
/// `#`, and is percent-decoded.
pub open spec fn url_path_bytes(url: Seq<u8>) -> Result<Seq<u8>, FileUrlError> {
    if url.len() < 7 || !same_ignoring_case(url.take(7), scheme_prefix()) {
        Err(FileUrlError::Scheme)
    } else {
        let rest = url.skip(7);
        let slash = first_position(rest, |b: u8| is_slash(b));
        let host = rest.take(slash);
        let path = if slash < rest.len() { rest.skip(slash) } else { seq![0x2fu8] };
        if !(host.len() == 0 || same_ignoring_case(host, local_host())) {
            Err(FileUrlError::Authority)
        } else {
            match unescaped(path.take(first_position(path, |b: u8| ends_path(b)))) {
                Some(d) => Ok(d),
                None => Err(FileUrlError::Encoding),
            }
        }
    }
}

/// The path that the `file://` URL `url` names, or the error that rejects it;
/// decoded bytes that are not valid UTF-8 are an encoding error.
pub open spec fn file_url_path(url: Seq<char>) -> Result<Seq<char>, FileUrlError> {
    match url_path_bytes(encode_utf8(url)) {
        Ok(d) => if valid_utf8(d) {
            Ok(decode_utf8(d))
        } else {
            Err(FileUrlError::Encoding)
        },
        Err(e) => Err(e),
    }
}

proof fn lemma_first_position(s: Seq<u8>, stop: spec_fn(u8) -> bool, i: int)
    requires
        0 <= i <= s.len(),
        forall|j: int| 0 <= j < i ==> !stop(#[trigger] s[j]),
        i < s.len() ==> stop(s[i]),
    ensures
        first_position(s, stop) == i,
    decreases s.len(),
{
    if s.len() > 0 && i > 0 {
        assert(!stop(s[0]));
        assert forall|j: int| 0 <= j < i - 1 implies !stop(#[trigger] s.drop_first()[j]) by {
            assert(s.drop_first()[j] == s[j + 1]);
        }
        lemma_first_position(s.drop_first(), stop, i - 1);
    }
}

/// Fold an ASCII capital letter to lower case.
fn to_ascii_lower(b: u8) -> (r: u8)
    ensures
        r == ascii_lower(b),
{
    if 0x41 <= b && b <= 0x5a {
        b + 32
    } else {
        b
    }
}

/// Compare `a[start..start + b.len()]` with `b`, ignoring the case of ASCII letters.
fn eq_ignore_ascii_case(a: &[u8], start: usize, b: &[u8]) -> (r: bool)
    requires
        start + b@.len() <= a@.len(),
    ensures
        r == same_ignoring_case(a@.subrange(start as int, start + b@.len()), b@),
{
    let ghost sub = a@.subrange(start as int, start + b@.len());
    let alen = a.len();
    let mut i: usize = 0;
    while i < b.len()
        invariant
            alen == a@.len(),
            i <= b@.len(),
            start + b@.len() <= a@.len(),
            sub == a@.subrange(start as int, start + b@.len()),
            forall|j: int| 0 <= j < i ==> #[trigger] ascii_lower(sub[j]) == ascii_lower(b@[j]),
        decreases b@.len() - i,
    {
        if to_ascii_lower(a[start + i]) != to_ascii_lower(b[i]) {
            assert(sub[i as int] == a@[start + i]);
            return false;
        }
        assert(sub[i as int] == a@[start + i]);
        i += 1;
    }
    true
}

/// The position of the first `/` in `bytes[from..]`, counted from `from`, or
/// the length of that tail when there is none.
fn find_slash(bytes: &[u8], from: usize) -> (r: usize)
    requires
        from <= bytes@.len(),
    ensures
        r == first_position(bytes@.skip(from as int), |b: u8| is_slash(b)),
        from + r <= bytes@.len(),
{
    let ghost tail = bytes@.skip(from as int);
    let len = bytes.len();
    let mut i: usize = 0;
    while from + i < len && bytes[from + i] != 0x2f
        invariant
            len == bytes@.len(),
            from + i <= bytes@.len(),
            tail == bytes@.skip(from as int),
            forall|j: int| 0 <= j < i ==> !is_slash(#[trigger] tail[j]),
        decreases bytes@.len() - from - i,
    {
        assert(tail[i as int] == bytes@[from + i]);
        i += 1;
    }
    if from + i < bytes.len() {
        assert(tail[i as int] == bytes@[from + i]);
    }
    proof {
        lemma_first_position(tail, |b: u8| is_slash(b), i as int);
    }
    i
}

/// The position of the first `?` or `#` in `bytes`, or its length when there
/// is none.
fn find_path_end(bytes: &[u8]) -> (r: usize)
    ensures
        r == first_position(bytes@, |b: u8| ends_path(b)),
        r <= bytes@.len(),
{
    let mut i: usize = 0;
    while i < bytes.len() && bytes[i] != 0x3f && bytes[i] != 0x23
        invariant
            i <= bytes@.len(),
            forall|j: int| 0 <= j < i ==> !ends_path(#[trigger] bytes@[j]),
        decreases bytes@.len() - i,
    {
        i += 1;
    }
    proof {
        lemma_first_position(bytes@, |b: u8| ends_path(b), i as int);
    }
    i
}

impl Cwd {
    /// Build a working directory from a `file://` URL.
    ///
    /// Supported: an empty host (`file:///path`) or a `localhost` host, both
    /// yielding the path after the host (a bare `file://` or `file:///` yields
    /// the root `/`); a POSIX absolute path, percent-decoded; UTF-8 content.
    ///
    /// Not supported: Windows drive letters (`file:///C:/x` decodes to the path
    /// `/C:/x`), and non-UTF-8 paths, which are rejected with
    /// [`FileUrlError::Encoding`].
    ///
    /// Errors: a scheme other than `file` is [`FileUrlError::Scheme`]; a host
    /// other than empty or `localhost` is [`FileUrlError::Authority`]; a bad
    /// percent escape, or an encoded path separator (`%2F` or `%5C`), is
    /// [`FileUrlError::Encoding`].
    pub fn from_file_url(url: &str) -> (r: Result<Cwd, FileUrlError>)
        ensures
            match file_url_path(url@) {
                Ok(p) => r matches Ok(Cwd::Path(s)) && s@ == p,
                Err(e) => r == Err::<Cwd, FileUrlError>(e),
            },
    {
        let bytes = url.as_bytes();
        let ghost b = bytes@;
        assert(b == encode_utf8(url@));
        let scheme: [u8; 7] = [0x66, 0x69, 0x6c, 0x65, 0x3a, 0x2f, 0x2f];
        assert(scheme@ =~= scheme_prefix());
        if bytes.len() < 7 {
            return Err(FileUrlError::Scheme);
        }
        assert(b.subrange(0, 7) =~= b.take(7));
        if !eq_ignore_ascii_case(bytes, 0, scheme.as_slice()) {
            return Err(FileUrlError::Scheme);
        }
        let ghost rest = b.skip(7);
        let slash = find_slash(bytes, 7);
        let host_end = 7 + slash;
        assert(b.subrange(7, host_end as int) =~= rest.take(slash as int));
        if host_end > 7 {
            let localhost: [u8; 9] = [0x6c, 0x6f, 0x63, 0x61, 0x6c, 0x68, 0x6f, 0x73, 0x74];
            assert(localhost@ =~= local_host());
            if slash != 9 || !eq_ignore_ascii_case(bytes, 7, localhost.as_slice()) {
                return Err(FileUrlError::Authority);
            }
        }
        if host_end == bytes.len() {
            let root: [u8; 1] = [0x2f];
            let path = root.as_slice();
            assert(path@ =~= seq![0x2fu8]);
            let end = find_path_end(path);
            let part = &path[0..end];
            assert(part@ =~= path@.take(end as int));
            return match percent_decode(part) {
                Ok(s) => Ok(Cwd::Path(s)),
                Err(e) => Err(e),
            };
        }
        let path = &bytes[host_end..bytes.len()];
        assert(path@ =~= rest.skip(slash as int));
        let end = find_path_end(path);
        let part = &path[0..end];
        assert(part@ =~= path@.take(end as int));
        match percent_decode(part) {
            Ok(s) => Ok(Cwd::Path(s)),
            Err(e) => Err(e),
        }
    }
}

/// The hexadecimal digit for `d` (below 16), in lower or upper case.
pub open spec fn hex_char(d: u8, lower: bool) -> u8 {
    if d < 10 {
        (0x30 + d) as u8
    } else if lower {
        (0x61 + d - 10) as u8
    } else {
        (0x41 + d - 10) as u8
    }
}

/// The bytes that a path must escape in a URL: `%`, `?` and `#`.
pub open spec fn must_escape(b: u8) -> bool {
    b == 0x25 || b == 0x3f || b == 0x23
}

/// The escape `%XY` of the byte `v`, in lower or upper case.
pub open spec fn escape_of(v: u8, lower: bool) -> Seq<u8> {
    seq![0x25u8, hex_char(v / 16, lower), hex_char(v % 16, lower)]
}

/// The bytes `b` written for a URL: each `%`, `?` and `#` is escaped, and so is
/// any other byte that is not a separator and whose mark asks for it; the mark's
/// second part picks lower-case digits.
pub open spec fn escaped(b: Seq<u8>, marks: Seq<(bool, bool)>) -> Seq<u8>
    decreases b.len(),
{
    if b.len() == 0 {
        Seq::empty()
    } else {
        let head = if must_escape(b[0]) || (marks[0].0 && b[0] != 0x2f && b[0] != 0x5c) {
            escape_of(b[0], marks[0].1)
        } else {
            seq![b[0]]
        };
        head + escaped(b.drop_first(), marks.drop_first())
    }
}

proof fn lemma_hex_char(d: u8, lower: bool)
    requires
        d < 16,
    ensures
        hex_digit(hex_char(d, lower)) == Some(d),
        !ends_path(hex_char(d, lower)),
{
}

proof fn lemma_escaped_decodes(b: Seq<u8>, marks: Seq<(bool, bool)>)
    ensures
        unescaped(escaped(b, marks)) == Some(b),
        forall|i: int| 0 <= i < escaped(b, marks).len() ==> !ends_path(#[trigger] escaped(b, marks)[i]),
    decreases b.len(),
{
    if b.len() > 0 {
        let rest = escaped(b.drop_first(), marks.drop_first());
        lemma_escaped_decodes(b.drop_first(), marks.drop_first());
        let e = escaped(b, marks);
        if must_escape(b[0]) || (marks[0].0 && b[0] != 0x2f && b[0] != 0x5c) {
            let v = b[0];
            let lower = marks[0].1;
            lemma_hex_char(v / 16, lower);
            lemma_hex_char(v % 16, lower);
            assert(e == escape_of(v, lower) + rest);
            assert(e[0] == 0x25);
            assert(e[1] == hex_char(v / 16, lower));
            assert(e[2] == hex_char(v % 16, lower));
            assert(e.skip(3) =~= rest);
            assert(((v / 16) * 16 + v % 16) as u8 == v);
            assert(seq![v] + b.drop_first() =~= b);
            assert forall|i: int| 0 <= i < e.len() implies !ends_path(#[trigger] e[i]) by {
                if i >= 3 {
                    assert(e[i] == rest[i - 3]);
                }
            }
        } else {
            assert(e == seq![b[0]] + rest);
            assert(e[0] == b[0]);
            assert(e.skip(1) =~= rest);
            assert(seq![b[0]] + b.drop_first() =~= b);
            assert forall|i: int| 0 <= i < e.len() implies !ends_path(#[trigger] e[i]) by {
                if i >= 1 {
                    assert(e[i] == rest[i - 1]);
                }
            }
        }
    }
}

/// A path read back through a `file://` URL: for an absolute path `s`, a URL
/// that is `file://` followed by the bytes of `s` with every `%`, `?` and `#`
/// escaped (and any other non-separator bytes escaped as chosen, in either case)
/// names `s`. In particular `file://` followed by a path without `%`, `?` or `#`
/// names that path.
pub proof fn law_file_url_round_trip(s: Seq<char>, marks: Seq<(bool, bool)>, url: Seq<char>)
    requires
        s.len() > 0,
        s[0] == '/',
        encode_utf8(url) == scheme_prefix() + escaped(encode_utf8(s), marks),
    ensures
        file_url_path(url) == Ok::<Seq<char>, FileUrlError>(s),
{
    let b = encode_utf8(s);
    let e = escaped(b, marks);
    let u = encode_utf8(url);
    lemma_escaped_decodes(b, marks);
    assert((0x2fu32 & 0x7fu32) as u8 == 0x2fu8) by (bit_vector);
    assert(s[0] as u32 == 0x2fu32);
    assert(encode_scalar(s[0] as u32) == seq![0x2fu8]);
    assert(b[0] == 0x2f);
    assert(e[0] == 0x2f);
    assert(u.take(7) =~= scheme_prefix());
    assert(same_ignoring_case(u.take(7), scheme_prefix()));
    assert(u.skip(7) =~= e);
    lemma_first_position(e, |x: u8| is_slash(x), 0);
    assert(e.take(0).len() == 0);
    assert(e.skip(0) =~= e);
    assert forall|j: int| 0 <= j < e.len() implies !(|x: u8| ends_path(x))(#[trigger] e[j]) by {}
    lemma_first_position(e, |x: u8| ends_path(x), e.len() as int);
    assert(e.take(e.len() as int) =~= e);
    assert(url_path_bytes(u) == Ok::<Seq<u8>, FileUrlError>(b));
    encode_utf8_valid_utf8(s);
    encode_utf8_decode_utf8(s);
}

proof fn lemma_host_has_no_slash(host: Seq<u8>)
    requires
        host.len() == 0 || same_ignoring_case(host, local_host()),
    ensures
        forall|j: int| 0 <= j < host.len() ==> !is_slash(#[trigger] host[j]),
{
    assert forall|j: int| 0 <= j < host.len() implies !is_slash(#[trigger] host[j]) by {
        assert(ascii_lower(host[j]) == ascii_lower(local_host()[j]));
        assert(ascii_lower(0x2f) == 0x2f);
    }
}

/// The host does not change the path: a URL with an accepted host (empty, or
/// `localhost` in any case) names the same path as the URL without it, with a
/// path part after the host or without one, so a `localhost` URL is
/// percent-decoded like any other.
pub proof fn law_host_does_not_change_path(host: Seq<u8>, path: Seq<u8>)
    requires
        host.len() == 0 || same_ignoring_case(host, local_host()),
        path.len() == 0 || path[0] == 0x2f,
    ensures
        url_path_bytes(scheme_prefix() + host + path) == url_path_bytes(scheme_prefix() + path),
        url_path_bytes(scheme_prefix() + host) == url_path_bytes(scheme_prefix() + seq![0x2fu8]),
{
    lemma_host_has_no_slash(host);
    let u1 = scheme_prefix() + host + path;
    let u2 = scheme_prefix() + path;
    assert(u1.take(7) =~= scheme_prefix());
    assert(u2.take(7) =~= scheme_prefix());
    let r1 = u1.skip(7);
    let r2 = u2.skip(7);
    assert(r1 =~= host + path);
    assert(r2 =~= path);
    if path.len() > 0 {
        assert forall|j: int| 0 <= j < host.len() implies !(|b: u8| is_slash(b))(#[trigger] r1[j]) by {
            assert(r1[j] == host[j]);
        }
        assert(r1[host.len() as int] == path[0]);
        lemma_first_position(r1, |b: u8| is_slash(b), host.len() as int);
        lemma_first_position(r2, |b: u8| is_slash(b), 0);
        assert(r1.take(host.len() as int) =~= host);
        assert(r1.skip(host.len() as int) =~= path);
        assert(r2.take(0).len() == 0);
        assert(r2.skip(0) =~= path);
    } else {
        assert(u1 =~= scheme_prefix() + host);
        assert(u2 =~= scheme_prefix());
        assert forall|j: int| 0 <= j < host.len() implies !(|b: u8| is_slash(b))(#[trigger] r1[j]) by {
            assert(r1[j] == host[j]);
        }
        lemma_first_position(r1, |b: u8| is_slash(b), host.len() as int);
        lemma_first_position(r2, |b: u8| is_slash(b), 0);
        assert(r1.take(host.len() as int) =~= host);
        assert(r2.take(0).len() == 0);
    }
    let u3 = scheme_prefix() + host;
    let u4 = scheme_prefix() + seq![0x2fu8];
    let r3 = u3.skip(7);
    let r4 = u4.skip(7);
    assert(u3.take(7) =~= scheme_prefix());
    assert(u4.take(7) =~= scheme_prefix());
    assert(r3 =~= host);
    assert(r4 =~= seq![0x2fu8]);
    assert forall|j: int| 0 <= j < host.len() implies !(|b: u8| is_slash(b))(#[trigger] r3[j]) by {
        assert(r3[j] == host[j]);
    }
    lemma_first_position(r3, |b: u8| is_slash(b), host.len() as int);
    lemma_first_position(r4, |b: u8| is_slash(b), 0);
    assert(r3.take(host.len() as int) =~= host);
    assert(r4.take(0).len() == 0);
    assert(r4.skip(0) =~= seq![0x2fu8]);
}

/// The same at the level of text: a `file://` URL with an accepted host names
/// the same path, or is refused with the same error, as the URL without it.
pub proof fn law_host_does_not_change_url_path(url1: Seq<char>, url2: Seq<char>, host: Seq<u8>, path: Seq<u8>)
    requires
        host.len() == 0 || same_ignoring_case(host, local_host()),
        path.len() == 0 || path[0] == 0x2f,
        encode_utf8(url1) == scheme_prefix() + host + path,
        encode_utf8(url2) == scheme_prefix() + path,
    ensures
        file_url_path(url1) == file_url_path(url2),
{
    law_host_does_not_change_path(host, path);
}

} // verus!
