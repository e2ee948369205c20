//! Lexical path resolution: joining a candidate onto a base directory and
//! collapsing `.` and `..` segments, without touching the file system.
//!
//! Paths are held as text and read by the rules of a [`Platform`]. On Unix `/`
//! is the only separator and a path is absolute when it starts with one. On
//! Windows both `/` and `\` separate, a path may start with a drive prefix such
//! as `C:`, and a path is absolute when a drive prefix is followed by a root
//! separator.
use vstd::prelude::*;

use crate::options::Cwd;
use crate::text::{chars_of, string_from_chars};

verus! {

broadcast use vstd::string::group_string_axioms;

/// The path rules that text is read by.
#[derive(Debug, Clone, Copy, PartialEq, Eq, Structural)]
pub enum Platform {
    /// `/` separates; a path is absolute when it starts at the root.
    Unix,
    /// `/` and `\` separate; a drive prefix such as `C:` may come first; a path
    /// is absolute when a drive prefix is followed by a root separator.
    Windows,
}

/// Whether `c` separates path segments.
pub open spec fn is_separator(plat: Platform, c: char) -> bool {
    c == '/' || (plat == Platform::Windows && c == '\\')
}

/// The separator that joined paths are written with.
pub open spec fn main_separator(plat: Platform) -> char {
    if plat == Platform::Windows {
        '\\'
    } else {
        '/'
    }
}

/// An ASCII letter.
pub open spec fn is_ascii_letter(c: char) -> bool {
    ('a' <= c && c <= 'z') || ('A' <= c && c <= 'Z')
}

/// The length of the drive prefix that `p` starts with: a letter and a colon
/// on Windows, and none on Unix.
pub open spec fn prefix_len(plat: Platform, p: Seq<char>) -> int {
    if plat == Platform::Windows && p.len() >= 2 && p[1] == ':' && is_ascii_letter(p[0]) {
        2
    } else {
        0
    }
}

/// A root separator follows the prefix.
pub open spec fn has_root(plat: Platform, p: Seq<char>) -> bool {
    p.len() > prefix_len(plat, p) && is_separator(plat, p[prefix_len(plat, p)])
}

/// `p` is absolute: it starts at the root on Unix; on Windows it has a drive
/// prefix and a root.
pub open spec fn is_absolute(plat: Platform, p: Seq<char>) -> bool {
    if plat == Platform::Windows {
        prefix_len(plat, p) > 0 && has_root(plat, p)
    } else {
        has_root(plat, p)
    }
}

/// `..` cannot climb above the start of `p`: it has a prefix or a root.
pub open spec fn is_anchored(plat: Platform, p: Seq<char>) -> bool {
    prefix_len(plat, p) > 0 || has_root(plat, p)
}

/// The text after the prefix.
pub open spec fn after_prefix(plat: Platform, p: Seq<char>) -> Seq<char> {
    p.skip(prefix_len(plat, p))
}

/// The pieces of `p` between separators, in order, empty pieces included.
/// There is always at least one piece.
pub open spec fn pieces(plat: Platform, p: Seq<char>) -> Seq<Seq<char>>
    decreases p.len(),
{
    if p.len() == 0 {
        seq![Seq::<char>::empty()]
    } else {
        let q = pieces(plat, p.drop_last());
        if is_separator(plat, p.last()) {
            q.push(Seq::<char>::empty())
        } else {
            q.update(q.len() - 1, q.last().push(p.last()))
        }
    }
}

/// The segment `..`.
pub open spec fn parent_segment() -> Seq<char> {
    seq!['.', '.']
}

/// The segment `.`.
pub open spec fn current_segment() -> Seq<char> {
    seq!['.']
}

/// Fold one piece into the stack of kept segments. Empty pieces and `.` are
/// dropped; `..` removes the last kept name, stays put in an anchored path, and
/// is kept when a path without prefix or root has no name left to remove.
pub open spec fn fold_piece(stack: Seq<Seq<char>>, piece: Seq<char>, rooted: bool) -> Seq<Seq<char>> {
    if piece.len() == 0 || piece == current_segment() {
        stack
    } else if piece == parent_segment() {
        if stack.len() > 0 && stack.last() != parent_segment() {
            stack.drop_last()
        } else if rooted {
            stack
        } else {
            stack.push(piece)
        }
    } else {
        stack.push(piece)
    }
}

/// The segments kept after folding every piece of `parts`, left to right.
pub open spec fn collapse(parts: Seq<Seq<char>>, rooted: bool) -> Seq<Seq<char>>
    decreases parts.len(),
{
    if parts.len() == 0 {
        Seq::empty()
    } else {
        fold_piece(collapse(parts.drop_last(), rooted), parts.last(), rooted)
    }
}

/// The segments joined by the platform's separator.
pub open spec fn join_segments(plat: Platform, segs: Seq<Seq<char>>) -> Seq<char>
    decreases segs.len(),
{
    if segs.len() == 0 {
        Seq::empty()
    } else if segs.len() == 1 {
        segs[0]
    } else {
        join_segments(plat, segs.drop_last()) + seq![main_separator(plat)] + segs.last()
    }
}

/// The kept segments of `p`.
pub open spec fn kept_segments(plat: Platform, p: Seq<char>) -> Seq<Seq<char>> {
    collapse(pieces(plat, after_prefix(plat, p)), is_anchored(plat, p))
}

/// The lexically normalized form of `p`: its prefix, the platform's separator
/// if `p` has a root, then the kept segments joined by that separator.
pub open spec fn normalized(plat: Platform, p: Seq<char>) -> Seq<char> {
    p.take(prefix_len(plat, p)) + (if has_root(plat, p) {
        seq![main_separator(plat)]
    } else {
        Seq::<char>::empty()
    }) + join_segments(plat, kept_segments(plat, p))
}

proof fn lemma_pieces_nonempty(plat: Platform, p: Seq<char>)
    ensures
        pieces(plat, p).len() >= 1,
    decreases p.len(),
{
    if p.len() > 0 {
        lemma_pieces_nonempty(plat, p.drop_last());
    }
}

/// The characters of `cs` in the ranges of `ranges`.
pub open spec fn range_segments(cs: Seq<char>, ranges: Seq<(usize, usize)>) -> Seq<Seq<char>> {
    ranges.map_values(|r: (usize, usize)| cs.subrange(r.0 as int, r.1 as int))
}

pub open spec fn ranges_within(ranges: Seq<(usize, usize)>, n: int) -> bool {
    forall|k: int| 0 <= k < ranges.len() ==> (#[trigger] ranges[k]).0 <= ranges[k].1 <= n
}

fn is_parent_range(cs: &Vec<char>, start: usize, end: usize) -> (r: bool)
    requires
        start <= end <= cs@.len(),
    ensures
        r == (cs@.subrange(start as int, end as int) == parent_segment()),
{
    if end - start == 2 && cs[start] == '.' && cs[start + 1] == '.' {
        assert(cs@.subrange(start as int, end as int) =~= parent_segment());
        true
    } else {
        let ghost seg = cs@.subrange(start as int, end as int);
        assert(seg != parent_segment()) by {
            if seg == parent_segment() {
                assert(seg.len() == parent_segment().len());
                assert(seg[0] == parent_segment()[0]);
                assert(seg[1] == parent_segment()[1]);
            }
        }
        false
    }
}

/// Fold the piece `cs[start..end]` into the stack of segment ranges.
fn fold_range(cs: &Vec<char>, stack: &mut Vec<(usize, usize)>, start: usize, end: usize, rooted: bool)
    requires
        start <= end <= cs@.len(),
        ranges_within(old(stack)@, cs@.len() as int),
    ensures
        ranges_within(final(stack)@, cs@.len() as int),
        range_segments(cs@, final(stack)@) == fold_piece(
            range_segments(cs@, old(stack)@),
            cs@.subrange(start as int, end as int),
            rooted,
        ),
{
    let ghost piece = cs@.subrange(start as int, end as int);
    let ghost before = range_segments(cs@, stack@);
    if end == start {
        assert(piece.len() == 0);
        return;
    }
    if end - start == 1 && cs[start] == '.' {
        assert(piece =~= current_segment());
        return;
    }
    assert(piece != current_segment()) by {
        if piece == current_segment() {
            assert(piece.len() == current_segment().len());
            assert(piece[0] == current_segment()[0]);
        }
    }
    if is_parent_range(cs, start, end) {
        let len = stack.len();
        if len > 0 && !is_parent_range(cs, stack[len - 1].0, stack[len - 1].1) {
            stack.pop();
            assert(range_segments(cs@, stack@) =~= before.drop_last());
        } else if rooted {
        } else {
            stack.push((start, end));
            assert(range_segments(cs@, stack@) =~= before.push(piece));
        }
    } else {
        stack.push((start, end));
        assert(range_segments(cs@, stack@) =~= before.push(piece));
    }
}

/// Step lemma for `pieces`: one more character either opens a new piece or
/// extends the last one.
proof fn lemma_pieces_push(plat: Platform, p: Seq<char>, c: char)
    ensures
        pieces(plat, p.push(c)) == (if is_separator(plat, c) {
            pieces(plat, p).push(Seq::<char>::empty())
        } else {
            pieces(plat, p).update(pieces(plat, p).len() - 1, pieces(plat, p).last().push(c))
        }),
{
    assert(p.push(c).drop_last() =~= p);
}

/// Whether `c` separates path segments.
pub fn separates(plat: Platform, c: char) -> (r: bool)
    ensures
        r == is_separator(plat, c),
{
    c == '/' || (plat == Platform::Windows && c == '\\')
}

/// The separator that joined paths are written with.
pub fn separator_of(plat: Platform) -> (r: char)
    ensures
        r == main_separator(plat),
{
    if plat == Platform::Windows {
        '\\'
    } else {
        '/'
    }
}

/// The length of the drive prefix of the characters `cs`.
fn prefix_length(plat: Platform, cs: &Vec<char>) -> (r: usize)
    ensures
        r as int == prefix_len(plat, cs@),
{
    if plat == Platform::Windows && cs.len() >= 2 && cs[1] == ':' && (('a' <= cs[0] && cs[0] <= 'z') || ('A'
        <= cs[0] && cs[0] <= 'Z')) {
        2
    } else {
        0
    }
}

/// The ranges of the segments kept from the pieces of `cs`.
fn collapse_ranges(plat: Platform, cs: &Vec<char>, rooted: bool) -> (stack: Vec<(usize, usize)>)
    ensures
        ranges_within(stack@, cs@.len() as int),
        range_segments(cs@, stack@) == collapse(pieces(plat, cs@), rooted),
{
    let n = cs.len();
    let ghost p = cs@;
    let mut stack: Vec<(usize, usize)> = Vec::new();
    let mut start: usize = 0;
    let mut i: usize = 0;
    assert(p.take(0) =~= Seq::<char>::empty());
    assert(p.subrange(0, 0) =~= Seq::<char>::empty());
    assert(range_segments(p, stack@) =~= Seq::<Seq<char>>::empty());
    while i < n
        invariant
            n == cs@.len(),
            p == cs@,
            start <= i <= n,
            ranges_within(stack@, n as int),
            pieces(plat, p.take(i as int)).len() >= 1,
            pieces(plat, p.take(i as int)).last() == p.subrange(start as int, i as int),
            range_segments(p, stack@) == collapse(pieces(plat, p.take(i as int)).drop_last(), rooted),
        decreases n - i,
    {
        let ghost q = pieces(plat, p.take(i as int));
        proof {
            assert(p.take(i + 1) =~= p.take(i as int).push(p[i as int]));
            lemma_pieces_push(plat, p.take(i as int), p[i as int]);
        }
        if separates(plat, cs[i]) {
            fold_range(cs, &mut stack, start, i, rooted);
            proof {
                let q2 = pieces(plat, p.take(i + 1));
                assert(q2 == q.push(Seq::<char>::empty()));
                assert(q2.drop_last() =~= q);
                assert(q.drop_last().push(q.last()) =~= q);
                assert(p.subrange(i + 1, i + 1) =~= Seq::<char>::empty());
            }
            start = i + 1;
        } else {
            proof {
                let q2 = pieces(plat, p.take(i + 1));
                assert(q2.drop_last() =~= q.drop_last());
                assert(p.subrange(start as int, i + 1) =~= p.subrange(start as int, i as int).push(p[i as int]));
            }
        }
        i = i + 1;
    }
    fold_range(cs, &mut stack, start, n, rooted);
    proof {
        let q = pieces(plat, p.take(n as int));
        assert(p.take(n as int) =~= p);
        assert(q.drop_last().push(q.last()) =~= q);
    }
    stack
}

/// Append the segments in the ranges of `stack`, joined by the platform's
/// separator, to `out`.
fn append_joined(plat: Platform, cs: &Vec<char>, stack: &Vec<(usize, usize)>, out: &mut Vec<char>)
    requires
        ranges_within(stack@, cs@.len() as int),
    ensures
        final(out)@ == old(out)@ + join_segments(plat, range_segments(cs@, stack@)),
{
    let n = cs.len();
    let ghost p = cs@;
    let ghost prefix = out@;
    let ghost segs = range_segments(p, stack@);
    let sep = separator_of(plat);
    let mut k: usize = 0;
    assert(segs.take(0) =~= Seq::<Seq<char>>::empty());
    assert(prefix + join_segments(plat, segs.take(0)) =~= prefix);
    while k < stack.len()
        invariant
            n == cs@.len(),
            p == cs@,
            sep == main_separator(plat),
            ranges_within(stack@, n as int),
            segs == range_segments(p, stack@),
            k <= stack@.len(),
            out@ == prefix + join_segments(plat, segs.take(k as int)),
        decreases stack@.len() - k,
    {
        let ghost before = out@;
        if k > 0 {
            out.push(sep);
        }
        let (a, b) = stack[k];
        assert(stack@[k as int].0 <= stack@[k as int].1 <= n);
        let mut j: usize = a;
        while j < b
            invariant
                a <= j <= b <= n,
                n == cs@.len(),
                p == cs@,
                out@ == before + (if k > 0 { seq![sep] } else { Seq::<char>::empty() }) + p.subrange(a as int, j as int),
            decreases b - j,
        {
            out.push(cs[j]);
            assert(p.subrange(a as int, j + 1) =~= p.subrange(a as int, j as int).push(p[j as int]));
            j = j + 1;
        }
        proof {
            let t = segs.take(k + 1);
            assert(t.drop_last() =~= segs.take(k as int));
            assert(t.last() == p.subrange(a as int, b as int));
            if k == 0 {
                assert(join_segments(plat, segs.take(0)) =~= Seq::<char>::empty());
                assert(t.len() == 1);
                assert(out@ =~= prefix + join_segments(plat, t));
            } else {
                assert(out@ =~= prefix + join_segments(plat, t));
            }
        }
        k = k + 1;
    }
    assert(segs.take(stack@.len() as int) =~= segs);
}

/// Collapse `.` and `..` segments of `path` lexically, by the rules of
/// `plat`, without touching the file system. The prefix and the root are kept,
/// and a `..` at the root or right after a prefix stays there.
pub fn normalize(plat: Platform, path: &str) -> (r: String)
    ensures
        r@ == normalized(plat, path@),
{
    let cs = chars_of(path);
    let n = cs.len();
    let ghost p = cs@;
    let k = prefix_length(plat, &cs);
    let root = n > k && separates(plat, cs[k]);
    let rooted = k > 0 || root;
    let mut body: Vec<char> = Vec::new();
    let mut j: usize = k;
    assert(p.subrange(k as int, k as int) =~= Seq::<char>::empty());
    while j < n
        invariant
            k <= j <= n,
            n == cs@.len(),
            p == cs@,
            body@ == p.subrange(k as int, j as int),
        decreases n - j,
    {
        body.push(cs[j]);
        assert(p.subrange(k as int, j + 1) =~= p.subrange(k as int, j as int).push(p[j as int]));
        j = j + 1;
    }
    assert(body@ =~= after_prefix(plat, p));
    let stack = collapse_ranges(plat, &body, rooted);
    let mut out: Vec<char> = Vec::new();
    let mut m: usize = 0;
    while m < k
        invariant
            m <= k <= n,
            n == cs@.len(),
            p == cs@,
            out@ == p.take(m as int),
        decreases k - m,
    {
        out.push(cs[m]);
        assert(p.take(m + 1) =~= p.take(m as int).push(p[m as int]));
        m = m + 1;
    }
    if root {
        out.push(separator_of(plat));
    }
    assert(out@ =~= p.take(prefix_len(plat, p)) + (if has_root(plat, p) {
        seq![main_separator(plat)]
    } else {
        Seq::<char>::empty()
    }));
    append_joined(plat, &body, &stack, &mut out);
    assert(out@ =~= normalized(plat, p));
    string_from_chars(&out)
}

/// The pieces of `parts` that name something: empty pieces and `.` are left
/// out, in order.
pub open spec fn named_pieces(parts: Seq<Seq<char>>) -> Seq<Seq<char>>
    decreases parts.len(),
{
    if parts.len() == 0 {
        Seq::empty()
    } else {
        let init = named_pieces(parts.drop_last());
        let last = parts.last();
        if last.len() == 0 || last == current_segment() {
            init
        } else {
            init.push(last)
        }
    }
}

/// A Unix path that starts with a `.` segment and has no root.
pub open spec fn starts_with_current(p: Seq<char>) -> bool {
    p.len() > 0 && p[0] == '.' && (p.len() == 1 || p[1] == '/')
}

/// The components of a Unix path, as a path compares them: whether it has a
/// root, whether it starts with a `.` segment, and its other segments in order,
/// with empty and `.` segments left out.
pub open spec fn components(p: Seq<char>) -> (bool, bool, Seq<Seq<char>>) {
    (has_root(Platform::Unix, p), starts_with_current(p), named_pieces(pieces(Platform::Unix, p)))
}

/// Push the range `cs[start..end]` when it names something.
fn push_if_named(cs: &Vec<char>, ranges: &mut Vec<(usize, usize)>, start: usize, end: usize)
    requires
        start <= end <= cs@.len(),
        ranges_within(old(ranges)@, cs@.len() as int),
    ensures
        ranges_within(final(ranges)@, cs@.len() as int),
        range_segments(cs@, final(ranges)@) == {
            let piece = cs@.subrange(start as int, end as int);
            if piece.len() == 0 || piece == current_segment() {
                range_segments(cs@, old(ranges)@)
            } else {
                range_segments(cs@, old(ranges)@).push(piece)
            }
        },
{
    let ghost piece = cs@.subrange(start as int, end as int);
    let ghost before = range_segments(cs@, ranges@);
    if end == start {
        return;
    }
    if end - start == 1 && cs[start] == '.' {
        assert(piece =~= current_segment());
        return;
    }
    assert(piece != current_segment()) by {
        if piece == current_segment() {
            assert(piece.len() == current_segment().len());
            assert(piece[0] == current_segment()[0]);
        }
    }
    ranges.push((start, end));
    assert(range_segments(cs@, ranges@) =~= before.push(piece));
}

/// The ranges of the named pieces of `cs`, read as a Unix path.
fn named_ranges(cs: &Vec<char>) -> (ranges: Vec<(usize, usize)>)
    ensures
        ranges_within(ranges@, cs@.len() as int),
        range_segments(cs@, ranges@) == named_pieces(pieces(Platform::Unix, cs@)),
{
    let plat = Platform::Unix;
    let n = cs.len();
    let ghost p = cs@;
    let mut ranges: Vec<(usize, usize)> = Vec::new();
    let mut start: usize = 0;
    let mut i: usize = 0;
    assert(p.take(0) =~= Seq::<char>::empty());
    assert(p.subrange(0, 0) =~= Seq::<char>::empty());
    assert(range_segments(p, ranges@) =~= Seq::<Seq<char>>::empty());
    while i < n
        invariant
            plat == Platform::Unix,
            n == cs@.len(),
            p == cs@,
            start <= i <= n,
            ranges_within(ranges@, n as int),
            pieces(plat, p.take(i as int)).len() >= 1,
            pieces(plat, p.take(i as int)).last() == p.subrange(start as int, i as int),
            range_segments(p, ranges@) == named_pieces(pieces(plat, p.take(i as int)).drop_last()),
        decreases n - i,
    {
        let ghost q = pieces(plat, p.take(i as int));
        proof {
            assert(p.take(i + 1) =~= p.take(i as int).push(p[i as int]));
            lemma_pieces_push(plat, p.take(i as int), p[i as int]);
        }
        if cs[i] == '/' {
            push_if_named(cs, &mut ranges, start, i);
            proof {
                let q2 = pieces(plat, p.take(i + 1));
                assert(q2 == q.push(Seq::<char>::empty()));
                assert(q2.drop_last() =~= q);
                assert(q.drop_last().push(q.last()) =~= q);
                assert(p.subrange(i + 1, i + 1) =~= Seq::<char>::empty());
            }
            start = i + 1;
        } else {
            proof {
                assert(!is_separator(plat, p[i as int]));
                let q2 = pieces(plat, p.take(i + 1));
                assert(q2.drop_last() =~= q.drop_last());
                assert(p.subrange(start as int, i + 1) =~= p.subrange(start as int, i as int).push(p[i as int]));
            }
        }
        i = i + 1;
    }
    push_if_named(cs, &mut ranges, start, n);
    proof {
        let q = pieces(plat, p.take(n as int));
        assert(p.take(n as int) =~= p);
        assert(q.drop_last().push(q.last()) =~= q);
    }
    ranges
}

/// Whether `a[ra]` and `b[rb]` hold the same characters.
#[verifier::loop_isolation(false)]
fn same_range(a: &Vec<char>, ra: (usize, usize), b: &Vec<char>, rb: (usize, usize)) -> (r: bool)
    requires
        ra.0 <= ra.1 <= a@.len(),
        rb.0 <= rb.1 <= b@.len(),
    ensures
        r == (a@.subrange(ra.0 as int, ra.1 as int) == b@.subrange(rb.0 as int, rb.1 as int)),
{
    let (a0, a1) = ra;
    let (b0, b1) = rb;
    let ghost sa = a@.subrange(a0 as int, a1 as int);
    let ghost sb = b@.subrange(b0 as int, b1 as int);
    if a1 - a0 != b1 - b0 {
        assert(sa.len() != sb.len());
        return false;
    }
    let len = a1 - a0;
    let alen = a.len();
    let blen = b.len();
    let mut i: usize = 0;
    while i < len
        invariant
            alen == a@.len(),
            blen == b@.len(),
            b1 == b0 + len,
            i <= len,
            len == sa.len(),
            len == sb.len(),
            a0 + len <= a@.len(),
            b0 + len <= b@.len(),
            sa == a@.subrange(a0 as int, a1 as int),
            sb == b@.subrange(b0 as int, b1 as int),
            a1 == a0 + len,
            forall|j: int| 0 <= j < i ==> sa[j] == sb[j],
        decreases len - i,
    {
        assert(sa[i as int] == a@[a0 + i]);
        assert(sb[i as int] == b@[b0 + i]);
        if a[a0 + i] != b[b0 + i] {
            assert(sa[i as int] != sb[i as int]);
            return false;
        }
        i += 1;
    }
    assert(sa =~= sb);
    true
}

/// Whether two Unix paths have the same components: a path buffer compares
/// paths this way, so `/tmp/x/`, `/tmp//x` and `/tmp/./x` are all the same
/// path, while `./x` and `x` are not.
#[verifier::loop_isolation(false)]
pub fn same_components(a: &str, b: &str) -> (r: bool)
    ensures
        r == (components(a@) == components(b@)),
{
    let ca = chars_of(a);
    let cb = chars_of(b);
    let (ka, root_a) = path_start(Platform::Unix, a);
    let (kb, root_b) = path_start(Platform::Unix, b);
    let cur_a = ca.len() > 0 && ca[0] == '.' && (ca.len() == 1 || ca[1] == '/');
    let cur_b = cb.len() > 0 && cb[0] == '.' && (cb.len() == 1 || cb[1] == '/');
    let ra = named_ranges(&ca);
    let rb = named_ranges(&cb);
    let ghost sa = range_segments(ca@, ra@);
    let ghost sb = range_segments(cb@, rb@);
    if root_a != root_b || cur_a != cur_b {
        return false;
    }
    if ra.len() != rb.len() {
        assert(sa.len() != sb.len());
        return false;
    }
    let mut k: usize = 0;
    while k < ra.len()
        invariant
            k <= ra@.len(),
            ra@.len() == rb@.len(),
            ranges_within(ra@, ca@.len() as int),
            ranges_within(rb@, cb@.len() as int),
            sa == range_segments(ca@, ra@),
            sb == range_segments(cb@, rb@),
            forall|j: int| 0 <= j < k ==> sa[j] == sb[j],
        decreases ra@.len() - k,
    {
        assert(ra@[k as int].0 <= ra@[k as int].1 <= ca@.len());
        assert(rb@[k as int].0 <= rb@[k as int].1 <= cb@.len());
        if !same_range(&ca, ra[k], &cb, rb[k]) {
            assert(sa[k as int] != sb[k as int]);
            return false;
        }
        k += 1;
    }
    assert(sa =~= sb);
    true
}

/// `base` with `candidate` appended, as a path buffer appends a path: a
/// candidate that is absolute or has a drive prefix replaces the base; one with
/// a root but no prefix keeps only the base's prefix; otherwise a separator is
/// put between the two unless the base is empty, already ends with one, or is a
/// bare drive prefix.
pub open spec fn joined(plat: Platform, base: Seq<char>, candidate: Seq<char>) -> Seq<char> {
    if is_absolute(plat, candidate) || prefix_len(plat, candidate) > 0 {
        candidate
    } else if has_root(plat, candidate) {
        base.take(prefix_len(plat, base)) + candidate
    } else if needs_separator(plat, base) {
        base + seq![main_separator(plat)] + candidate
    } else {
        base + candidate
    }
}

/// A separator goes between `base` and a relative path appended to it.
pub open spec fn needs_separator(plat: Platform, base: Seq<char>) -> bool {
    base.len() > 0 && !is_separator(plat, base.last()) && !(prefix_len(plat, base) > 0 && prefix_len(plat, base)
        == base.len())
}

/// Where `candidate` resolves against `base`: an absolute candidate resolves to
/// itself, normalized, with or without a base; any other is joined onto the
/// base and normalized, and has nothing to resolve against without one.
pub open spec fn resolved(plat: Platform, base: Option<Seq<char>>, candidate: Seq<char>) -> Option<Seq<char>> {
    if is_absolute(plat, candidate) {
        Some(normalized(plat, candidate))
    } else {
        match base {
            Some(b) => Some(normalized(plat, joined(plat, b, candidate))),
            None => None,
        }
    }
}

/// The text of an optional string slice.
pub open spec fn opt_str_view(o: Option<&str>) -> Option<Seq<char>> {
    match o {
        Some(s) => Some(s@),
        None => None,
    }
}

/// The text of an optional string.
pub open spec fn opt_string_view(o: Option<String>) -> Option<Seq<char>> {
    match o {
        Some(s) => Some(s@),
        None => None,
    }
}

/// How `p` begins: the length of its drive prefix and whether a root follows.
fn path_start(plat: Platform, p: &str) -> (r: (usize, bool))
    ensures
        r.0 as int == prefix_len(plat, p@),
        r.1 == has_root(plat, p@),
{
    let cs = chars_of(p);
    let k = prefix_length(plat, &cs);
    let root = cs.len() > k && separates(plat, cs[k]);
    (k, root)
}

/// Whether `p` is absolute by the rules of `plat`.
pub fn is_absolute_path(plat: Platform, p: &str) -> (r: bool)
    ensures
        r == is_absolute(plat, p@),
{
    let (k, root) = path_start(plat, p);
    if plat == Platform::Windows {
        k > 0 && root
    } else {
        root
    }
}

/// Append `candidate` to `base` as a path buffer does.
pub fn join_path(plat: Platform, base: &str, candidate: &str) -> (r: String)
    ensures
        r@ == joined(plat, base@, candidate@),
{
    let (ck, croot) = path_start(plat, candidate);
    if is_absolute_path(plat, candidate) || ck > 0 {
        return candidate.to_owned();
    }
    let bs = chars_of(base);
    let bk = prefix_length(plat, &bs);
    if croot {
        let mut out: Vec<char> = Vec::new();
        let mut m: usize = 0;
        while m < bk
            invariant
                m <= bk,
                bk as int == prefix_len(plat, bs@),
                bs@ == base@,
                out@ == bs@.take(m as int),
            decreases bk - m,
        {
            out.push(bs[m]);
            assert(bs@.take(m + 1) =~= bs@.take(m as int).push(bs@[m as int]));
            m = m + 1;
        }
        let mut r = string_from_chars(&out);
        r.append(candidate);
        return r;
    }
    let mut out = base.to_owned();
    let n = bs.len();
    if n > 0 && !separates(plat, bs[n - 1]) && !(bk > 0 && bk == n) {
        let sep: Vec<char> = vec![separator_of(plat)];
        let sep_text = string_from_chars(&sep);
        out.append(sep_text.as_str());
        assert(sep@ =~= seq![main_separator(plat)]);
    }
    out.append(candidate);
    out
}

/// Resolve `candidate` against `base` by the rules of `plat`.
///
/// An absolute candidate is returned normalized and `base` is ignored, so it
/// resolves even when `base` is `None`. Any other candidate is joined onto
/// `base` and normalized; with no `base` it returns `None`, because it has
/// nothing to resolve against.
pub fn resolve(plat: Platform, base: Option<&str>, candidate: &str) -> (r: Option<String>)
    ensures
        opt_string_view(r) == resolved(plat, opt_str_view(base), candidate@),
{
    if is_absolute_path(plat, candidate) {
        Some(normalize(plat, candidate))
    } else {
        match base {
            Some(b) => {
                let j = join_path(plat, b, candidate);
                Some(normalize(plat, j.as_str()))
            },
            None => None,
        }
    }
}

/// The base directory that `cwd` stands for, given the process working
/// directory (`None` when it could not be read). The process directory is taken
/// as it is; an absolute path is normalized; any other path is joined onto the
/// process directory and normalized, and has no base without it.
pub open spec fn base_of(plat: Platform, cwd: Cwd, process_dir: Option<Seq<char>>) -> Option<Seq<char>> {
    match cwd {
        Cwd::Process => process_dir,
        Cwd::Path(p) => resolved(plat, process_dir, p@),
    }
}

/// Turn a [`Cwd`] into a base directory, given the process working directory.
///
/// [`Cwd::Process`] uses `process_dir` as it is. An absolute [`Cwd::Path`] is
/// normalized and never needs `process_dir`. Any other [`Cwd::Path`] is joined
/// onto `process_dir` and normalized; without a process directory there is no
/// base.
pub fn base_dir(plat: Platform, cwd: &Cwd, process_dir: Option<&str>) -> (r: Option<String>)
    ensures
        opt_string_view(r) == base_of(plat, *cwd, opt_str_view(process_dir)),
{
    match cwd {
        Cwd::Process => match process_dir {
            Some(d) => Some(d.to_owned()),
            None => None,
        },
        Cwd::Path(p) => resolve(plat, process_dir, p.as_str()),
    }
}

/// `s` holds no separator.
pub open spec fn has_no_separator(plat: Platform, s: Seq<char>) -> bool {
    forall|i: int| 0 <= i < s.len() ==> !is_separator(plat, #[trigger] s[i])
}

/// A kept segment: a name that is not empty, not `.`, and holds no separator.
pub open spec fn is_name(plat: Platform, seg: Seq<char>) -> bool {
    seg.len() > 0 && seg != current_segment() && has_no_separator(plat, seg)
}

/// The shape of the kept segments: every one is a name, and `..` occurs only
/// in a relative path and only before every other name.
pub open spec fn well_kept(plat: Platform, segs: Seq<Seq<char>>, rooted: bool) -> bool {
    forall|i: int|
        0 <= i < segs.len() ==> is_name(plat, #[trigger] segs[i]) && (segs[i] == parent_segment() ==> !rooted
            && forall|j: int| 0 <= j < i ==> #[trigger] segs[j] == parent_segment())
}

proof fn lemma_pieces_have_no_separator(plat: Platform, p: Seq<char>)
    ensures
        forall|k: int| 0 <= k < pieces(plat, p).len() ==> has_no_separator(plat, #[trigger] pieces(plat, p)[k]),
    decreases p.len(),
{
    lemma_pieces_nonempty(plat, p);
    if p.len() > 0 {
        lemma_pieces_have_no_separator(plat, p.drop_last());
        lemma_pieces_nonempty(plat, p.drop_last());
        let q = pieces(plat, p.drop_last());
        if !is_separator(plat, p.last()) {
            let last = q.last().push(p.last());
            assert(has_no_separator(plat, q[q.len() - 1]));
            assert forall|i: int| 0 <= i < last.len() implies !is_separator(plat, #[trigger] last[i]) by {
                if i < q.last().len() {
                    assert(last[i] == q[q.len() - 1][i]);
                }
            }
            assert forall|k: int| 0 <= k < pieces(plat, p).len() implies has_no_separator(plat, #[trigger] pieces(plat, p)[k]) by {
                if k < q.len() - 1 {
                    assert(pieces(plat, p)[k] == q[k]);
                }
            }
        } else {
            assert forall|k: int| 0 <= k < pieces(plat, p).len() implies has_no_separator(plat, #[trigger] pieces(plat, p)[k]) by {
                if k < q.len() {
                    assert(pieces(plat, p)[k] == q[k]);
                } else {
                    assert(pieces(plat, p)[k] =~= Seq::<char>::empty());
                }
            }
        }
    }
}

proof fn lemma_fold_keeps_shape(plat: Platform, stack: Seq<Seq<char>>, piece: Seq<char>, rooted: bool)
    requires
        well_kept(plat, stack, rooted),
        has_no_separator(plat, piece),
    ensures
        well_kept(plat, fold_piece(stack, piece, rooted), rooted),
{
    let next = fold_piece(stack, piece, rooted);
    if piece.len() == 0 || piece == current_segment() {
    } else if piece == parent_segment() {
        if stack.len() > 0 && stack.last() != parent_segment() {
            assert forall|i: int| 0 <= i < next.len() implies is_name(plat, #[trigger] next[i]) && (next[i]
                == parent_segment() ==> !rooted && forall|j: int| 0 <= j < i ==> #[trigger] next[j]
                == parent_segment()) by {
                assert(next[i] == stack[i]);
                assert forall|j: int| 0 <= j < i implies #[trigger] next[j] == stack[j] by {}
            }
        } else if rooted {
        } else {
            assert forall|i: int| 0 <= i < next.len() implies is_name(plat, #[trigger] next[i]) && (next[i]
                == parent_segment() ==> !rooted && forall|j: int| 0 <= j < i ==> #[trigger] next[j]
                == parent_segment()) by {
                if i < stack.len() {
                    assert(next[i] == stack[i]);
                    assert forall|j: int| 0 <= j < i implies #[trigger] next[j] == stack[j] by {}
                } else {
                    assert forall|j: int| 0 <= j < i implies #[trigger] next[j] == parent_segment() by {
                        assert(next[j] == stack[j]);
                        assert(stack[stack.len() - 1] == parent_segment());
                    }
                }
            }
        }
    } else {
        assert forall|i: int| 0 <= i < next.len() implies is_name(plat, #[trigger] next[i]) && (next[i]
            == parent_segment() ==> !rooted && forall|j: int| 0 <= j < i ==> #[trigger] next[j]
            == parent_segment()) by {
            if i < stack.len() {
                assert(next[i] == stack[i]);
                assert forall|j: int| 0 <= j < i implies #[trigger] next[j] == stack[j] by {}
            }
        }
    }
}

proof fn lemma_collapse_keeps_shape(plat: Platform, parts: Seq<Seq<char>>, rooted: bool)
    requires
        forall|k: int| 0 <= k < parts.len() ==> has_no_separator(plat, #[trigger] parts[k]),
    ensures
        well_kept(plat, collapse(parts, rooted), rooted),
    decreases parts.len(),
{
    if parts.len() > 0 {
        let init = parts.drop_last();
        assert forall|k: int| 0 <= k < init.len() implies has_no_separator(plat, #[trigger] init[k]) by {
            assert(init[k] == parts[k]);
        }
        lemma_collapse_keeps_shape(plat, init, rooted);
        assert(has_no_separator(plat, parts[parts.len() - 1]));
        lemma_fold_keeps_shape(plat, collapse(init, rooted), parts.last(), rooted);
    }
}

proof fn lemma_collapse_of_kept(plat: Platform, segs: Seq<Seq<char>>, rooted: bool)
    requires
        well_kept(plat, segs, rooted),
    ensures
        collapse(segs, rooted) == segs,
    decreases segs.len(),
{
    if segs.len() > 0 {
        let init = segs.drop_last();
        assert forall|i: int| 0 <= i < init.len() implies is_name(plat, #[trigger] init[i]) && (init[i]
            == parent_segment() ==> !rooted && forall|j: int| 0 <= j < i ==> #[trigger] init[j]
            == parent_segment()) by {
            assert(init[i] == segs[i]);
            assert forall|j: int| 0 <= j < i implies #[trigger] init[j] == segs[j] by {}
        }
        lemma_collapse_of_kept(plat, init, rooted);
        let last = segs.last();
        assert(is_name(plat, segs[segs.len() - 1]));
        if last == parent_segment() {
            if init.len() > 0 {
                assert(segs[init.len() - 1] == parent_segment());
            }
        }
        assert(init.push(last) =~= segs);
    }
}

proof fn lemma_collapse_skips_leading_empty(segs: Seq<Seq<char>>, rooted: bool)
    ensures
        collapse(seq![Seq::<char>::empty()] + segs, rooted) == collapse(segs, rooted),
    decreases segs.len(),
{
    let all = seq![Seq::<char>::empty()] + segs;
    if segs.len() == 0 {
        assert(all.drop_last() =~= Seq::<Seq<char>>::empty());
        assert(all.last() =~= Seq::<char>::empty());
        assert(collapse(all.drop_last(), rooted) =~= Seq::<Seq<char>>::empty());
        assert(collapse(all, rooted) =~= Seq::<Seq<char>>::empty());
    } else {
        assert(all.drop_last() =~= seq![Seq::<char>::empty()] + segs.drop_last());
        assert(all.last() == segs.last());
        lemma_collapse_skips_leading_empty(segs.drop_last(), rooted);
    }
}

proof fn lemma_pieces_append_plain(plat: Platform, z: Seq<char>, y: Seq<char>)
    requires
        has_no_separator(plat, y),
    ensures
        pieces(plat, z + y) == pieces(plat, z).update(pieces(plat, z).len() - 1, pieces(plat, z).last() + y),
    decreases y.len(),
{
    lemma_pieces_nonempty(plat, z);
    if y.len() == 0 {
        assert(z + y =~= z);
        assert(pieces(plat, z).last() + y =~= pieces(plat, z).last());
        assert(pieces(plat, z).update(pieces(plat, z).len() - 1, pieces(plat, z).last()) =~= pieces(plat, z));
    } else {
        let w = z + y.drop_last();
        assert(y.drop_last().len() < y.len());
        assert forall|i: int| 0 <= i < y.drop_last().len() implies !is_separator(plat, #[trigger] y.drop_last()[i]) by {
            assert(y.drop_last()[i] == y[i]);
        }
        lemma_pieces_append_plain(plat, z, y.drop_last());
        assert(!is_separator(plat, y[y.len() - 1]));
        assert(z + y =~= w.push(y.last()));
        lemma_pieces_push(plat, w, y.last());
        lemma_pieces_nonempty(plat, w);
        assert((pieces(plat, z).last() + y.drop_last()).push(y.last()) =~= pieces(plat, z).last() + y);
        assert(pieces(plat, z + y) =~= pieces(plat, z).update(pieces(plat, z).len() - 1, pieces(plat, z).last() + y));
    }
}

proof fn lemma_pieces_of_join(plat: Platform, z: Seq<char>, segs: Seq<Seq<char>>)
    requires
        segs.len() >= 1,
        forall|k: int| 0 <= k < segs.len() ==> has_no_separator(plat, #[trigger] segs[k]),
    ensures
        pieces(plat, z + join_segments(plat, segs)) == pieces(plat, z).update(pieces(plat, z).len() - 1, pieces(plat, z).last() + segs[0])
            + segs.skip(1),
    decreases segs.len(),
{
    lemma_pieces_nonempty(plat, z);
    let pz = pieces(plat, z);
    if segs.len() == 1 {
        assert(has_no_separator(plat, segs[0]));
        lemma_pieces_append_plain(plat, z, segs[0]);
        assert(segs.skip(1) =~= Seq::<Seq<char>>::empty());
        assert(pz.update(pz.len() - 1, pz.last() + segs[0]) + segs.skip(1) =~= pz.update(
            pz.len() - 1,
            pz.last() + segs[0],
        ));
    } else {
        let init = segs.drop_last();
        assert forall|k: int| 0 <= k < init.len() implies has_no_separator(plat, #[trigger] init[k]) by {
            assert(init[k] == segs[k]);
        }
        lemma_pieces_of_join(plat, z, init);
        let w = z + join_segments(plat, init);
        assert(z + join_segments(plat, segs) =~= (w + seq![main_separator(plat)]) + segs.last());
        assert(w + seq![main_separator(plat)] =~= w.push(main_separator(plat)));
        lemma_pieces_push(plat, w, main_separator(plat));
        assert(has_no_separator(plat, segs[segs.len() - 1]));
        lemma_pieces_append_plain(plat, w + seq![main_separator(plat)], segs.last());
        let pw = pieces(plat, w).push(Seq::<char>::empty());
        assert(pw.last() + segs.last() =~= segs.last());
        assert(pw.update(pw.len() - 1, segs.last()) =~= pieces(plat, w).push(segs.last()));
        assert(init.skip(1).push(segs.last()) =~= segs.skip(1));
        assert(init[0] == segs[0]);
        assert(pieces(plat, z + join_segments(plat, segs)) =~= pz.update(pz.len() - 1, pz.last() + segs[0]) + segs.skip(1));
    }
}

proof fn lemma_join_starts_with_first(plat: Platform, segs: Seq<Seq<char>>)
    requires
        segs.len() >= 1,
    ensures
        join_segments(plat, segs).len() >= segs[0].len(),
        forall|k: int| 0 <= k < segs[0].len() ==> #[trigger] join_segments(plat, segs)[k] == segs[0][k],
    decreases segs.len(),
{
    if segs.len() > 1 {
        let init = segs.drop_last();
        lemma_join_starts_with_first(plat, init);
        assert(init[0] == segs[0]);
        assert forall|k: int| 0 <= k < segs[0].len() implies #[trigger] join_segments(plat, segs)[k] == segs[0][k] by {
            assert(join_segments(plat, segs)[k] == join_segments(plat, init)[k]);
        }
    }
}

proof fn lemma_join_split_first(plat: Platform, segs: Seq<Seq<char>>)
    requires
        segs.len() >= 2,
    ensures
        join_segments(plat, segs) == segs[0] + seq![main_separator(plat)] + join_segments(plat, segs.skip(1)),
    decreases segs.len(),
{
    let ms = main_separator(plat);
    let init = segs.drop_last();
    if segs.len() == 2 {
        assert(init =~= seq![segs[0]]);
        assert(segs.skip(1) =~= seq![segs[1]]);
        assert(join_segments(plat, init) == init[0]);
        assert(init[0] == segs[0]);
        assert(join_segments(plat, segs.skip(1)) == segs.skip(1)[0]);
        assert(segs.skip(1)[0] == segs[1]);
        assert(segs.last() == segs[1]);
        assert(join_segments(plat, segs) =~= segs[0] + seq![ms] + join_segments(plat, segs.skip(1)));
    } else {
        lemma_join_split_first(plat, init);
        assert(init.skip(1) =~= segs.skip(1).drop_last());
        assert(init[0] == segs[0]);
        assert(segs.skip(1).last() == segs.last());
        assert(join_segments(plat, segs) =~= segs[0] + seq![ms] + join_segments(plat, segs.skip(1)));
    }
}

/// Kept segments read back after an optional root: their pieces collapse to
/// themselves.
proof fn lemma_collapse_of_written(plat: Platform, root: Seq<char>, segs: Seq<Seq<char>>, rooted: bool)
    requires
        root == Seq::<char>::empty() || root == seq![main_separator(plat)],
        well_kept(plat, segs, rooted),
    ensures
        collapse(pieces(plat, root + join_segments(plat, segs)), rooted) == segs,
{
    let ms = main_separator(plat);
    let empty = Seq::<char>::empty();
    let one = seq![empty];
    assert(pieces(plat, empty) == one);
    assert(one.drop_last() =~= Seq::<Seq<char>>::empty());
    assert(collapse(one, rooted) =~= Seq::<Seq<char>>::empty()) by {
        assert(one.last().len() == 0);
        assert(collapse(one.drop_last(), rooted) =~= Seq::<Seq<char>>::empty());
    }
    let sep_only = seq![ms];
    assert(sep_only.drop_last() =~= empty);
    assert(pieces(plat, sep_only) =~= seq![empty, empty]) by {
        assert(sep_only.last() == ms);
    }
    assert(root.len() == 0 ==> pieces(plat, root) =~= one);
    if segs.len() == 0 {
        assert(join_segments(plat, segs) =~= empty);
        assert(root + join_segments(plat, segs) =~= root);
        if root.len() > 0 {
            lemma_collapse_skips_leading_empty(Seq::<Seq<char>>::empty(), rooted);
            assert(one + Seq::<Seq<char>>::empty() =~= one);
            assert(seq![empty, empty] =~= one + one);
            lemma_collapse_skips_leading_empty(one, rooted);
        }
    } else {
        assert forall|k: int| 0 <= k < segs.len() implies has_no_separator(plat, #[trigger] segs[k]) by {
            assert(is_name(plat, segs[k]));
        }
        lemma_pieces_of_join(plat, root, segs);
        lemma_collapse_of_kept(plat, segs, rooted);
        let pr = pieces(plat, root);
        if root.len() == 0 {
            assert(pr.update(pr.len() - 1, pr.last() + segs[0]) =~= seq![segs[0]]);
            assert(seq![segs[0]] + segs.skip(1) =~= segs);
        } else {
            assert(pr =~= seq![empty, empty]);
            assert(pr.update(pr.len() - 1, pr.last() + segs[0]) =~= seq![empty, segs[0]]);
            assert(seq![empty, segs[0]] + segs.skip(1) =~= seq![empty] + segs);
            lemma_collapse_skips_leading_empty(segs, rooted);
        }
    }
}

/// Where `normalized` puts a root separator: right after the prefix, when the
/// path has a root.
pub open spec fn written_root(plat: Platform, p: Seq<char>) -> Seq<char> {
    if has_root(plat, p) {
        seq![main_separator(plat)]
    } else {
        Seq::<char>::empty()
    }
}

proof fn lemma_idempotent_anchored(plat: Platform, p: Seq<char>)
    requires
        is_anchored(plat, p),
    ensures
        normalized(plat, normalized(plat, p)) == normalized(plat, p),
{
    let k = prefix_len(plat, p);
    let r = written_root(plat, p);
    let segs = kept_segments(plat, p);
    let j = join_segments(plat, segs);
    let out = normalized(plat, p);
    let ms = main_separator(plat);
    assert(out == p.take(k) + r + j);
    law_normalized_keeps_names(plat, p);
    if segs.len() > 0 {
        lemma_join_starts_with_first(plat, segs);
        assert(is_name(plat, segs[0]));
        assert(j[0] == segs[0][0]);
        assert(!is_separator(plat, j[0]));
    } else {
        assert(j =~= Seq::<char>::empty());
    }
    if k == 2 {
        assert(out[0] == p[0] && out[1] == p[1]);
        assert(prefix_len(plat, out) == 2);
    } else {
        assert(has_root(plat, p));
        assert(out[0] == ms);
        assert(prefix_len(plat, out) == 0);
    }
    if has_root(plat, p) {
        assert(out[k] == ms);
    } else if j.len() > 0 {
        assert(out[k] == j[0]);
    } else {
        assert(out.len() == k);
    }
    assert(has_root(plat, out) == has_root(plat, p));
    assert(is_anchored(plat, out));
    assert(out.take(k) =~= p.take(k));
    assert(after_prefix(plat, out) =~= r + j);
    lemma_collapse_of_written(plat, r, segs, true);
    assert(kept_segments(plat, out) == segs);
}

/// A path without prefix or root whose first kept segment, on Windows, reads
/// as a drive prefix followed by `.` or `..`: normalizing it again drops that
/// `.` or `..`.
pub open spec fn loose_drive_dot(plat: Platform, p: Seq<char>) -> bool {
    let segs = kept_segments(plat, p);
    &&& plat == Platform::Windows
    &&& !is_anchored(plat, p)
    &&& segs.len() > 0
    &&& prefix_len(plat, segs[0]) == 2
    &&& (segs[0].skip(2) == current_segment() || segs[0].skip(2) == parent_segment())
}

proof fn lemma_idempotent_loose(plat: Platform, p: Seq<char>)
    requires
        !is_anchored(plat, p),
        !loose_drive_dot(plat, p),
    ensures
        normalized(plat, normalized(plat, p)) == normalized(plat, p),
{
    let segs = kept_segments(plat, p);
    let j = join_segments(plat, segs);
    let out = normalized(plat, p);
    let ms = main_separator(plat);
    let empty = Seq::<char>::empty();
    assert(p.take(0) =~= empty);
    assert(out =~= j);
    law_normalized_keeps_names(plat, p);
    if segs.len() > 0 {
        lemma_join_starts_with_first(plat, segs);
        assert(is_name(plat, segs[0]));
        assert(j[0] == segs[0][0]);
    } else {
        assert(j =~= empty);
    }
    if prefix_len(plat, out) == 0 {
        if j.len() > 0 {
            assert(!is_separator(plat, j[0]));
        }
        assert(!has_root(plat, out));
        assert(out.take(0) =~= empty);
        assert(out.skip(0) =~= empty + j);
        lemma_collapse_of_written(plat, empty, segs, false);
    } else {
        // `out` reads as a drive prefix: it came from the first segment.
        assert(plat == Platform::Windows);
        assert(segs.len() > 0);
        let s0 = segs[0];
        let t = segs.skip(1);
        if segs.len() >= 2 {
            lemma_join_split_first(plat, segs);
        } else {
            assert(j == s0);
        }
        assert(s0.len() >= 2) by {
            if s0.len() < 2 {
                assert(segs.len() >= 2);
                assert(j[1] == ms);
            }
        }
        assert(j[1] == s0[1]);
        assert(prefix_len(plat, s0) == 2);
        assert(s0 != parent_segment()) by {
            if s0 == parent_segment() {
                assert(s0[1] == '.');
            }
        }
        // No `..` is kept after a name.
        assert forall|i: int| 0 <= i < t.len() implies is_name(plat, #[trigger] t[i]) && t[i] != parent_segment() by {
            assert(t[i] == segs[i + 1]);
            assert(is_name(plat, segs[i + 1]));
            if segs[i + 1] == parent_segment() {
                assert(segs[0] == parent_segment());
            }
        }
        assert(well_kept(plat, t, true));
        let h = s0.skip(2);
        assert(has_no_separator(plat, h)) by {
            assert forall|i: int| 0 <= i < h.len() implies !is_separator(plat, #[trigger] h[i]) by {
                assert(h[i] == s0[i + 2]);
            }
        }
        assert(s0 =~= s0.take(2) + h);
        assert(out.take(2) =~= s0.take(2));
        if h.len() == 0 {
            if t.len() == 0 {
                assert(out =~= s0);
                assert(after_prefix(plat, out) =~= empty);
                assert(!has_root(plat, out));
                lemma_collapse_of_written(plat, empty, t, true);
                assert(empty + join_segments(plat, t) =~= empty);
            } else {
                assert(after_prefix(plat, out) =~= seq![ms] + join_segments(plat, t));
                assert(out[2] == ms);
                assert(has_root(plat, out));
                lemma_collapse_of_written(plat, seq![ms], t, true);
            }
        } else {
            let u = seq![h] + t;
            assert(u[0] == h);
            assert(u.skip(1) =~= t);
            assert(h != current_segment() && h != parent_segment());
            assert(is_name(plat, h));
            assert(well_kept(plat, u, true)) by {
                assert forall|i: int| 0 <= i < u.len() implies is_name(plat, #[trigger] u[i]) && u[i]
                    != parent_segment() by {
                    if i > 0 {
                        assert(u[i] == t[i - 1]);
                    }
                }
            }
            if t.len() == 0 {
                assert(u =~= seq![h]);
                assert(join_segments(plat, u) == h);
                assert(after_prefix(plat, out) =~= h);
            } else {
                lemma_join_split_first(plat, u);
                assert(after_prefix(plat, out) =~= join_segments(plat, u));
            }
            assert(out[2] == h[0]);
            assert(!has_root(plat, out));
            lemma_collapse_of_written(plat, empty, u, true);
            assert(empty + join_segments(plat, u) =~= join_segments(plat, u));
        }
    }
}

/// Normalizing is idempotent: a normalized path is its own normal form. The
/// one exception is a Windows path without prefix or root whose first kept
/// segment reads as a drive prefix followed by `.` or `..` (such as `C:.`
/// after `a\..\`): read again, that text starts with a prefix, and the `.` or
/// `..` after it collapses.
pub proof fn law_normalize_idempotent(plat: Platform, p: Seq<char>)
    requires
        !loose_drive_dot(plat, p),
    ensures
        normalized(plat, normalized(plat, p)) == normalized(plat, p),
{
    if is_anchored(plat, p) {
        lemma_idempotent_anchored(plat, p);
    } else {
        lemma_idempotent_loose(plat, p);
    }
}

/// On Windows a drive letter of either case makes a drive prefix: a path
/// `X:` + rest keeps `X:` at the front when normalized, and `X:\` + rest is
/// absolute, so it resolves to its own normal form, which starts with `X:\`,
/// whatever the base.
pub proof fn law_drive_letter_of_either_case(c: char, rest: Seq<char>, base: Option<Seq<char>>)
    requires
        ('a' <= c && c <= 'z') || ('A' <= c && c <= 'Z'),
    ensures
        normalized(Platform::Windows, seq![c, ':'] + rest).take(2) == seq![c, ':'],
        is_absolute(Platform::Windows, seq![c, ':', '\\'] + rest),
        resolved(Platform::Windows, base, seq![c, ':', '\\'] + rest) == Some(
            normalized(Platform::Windows, seq![c, ':', '\\'] + rest),
        ),
        resolved(Platform::Windows, base, seq![c, ':', '\\'] + rest) matches Some(r) && r.take(3) == seq![
            c,
            ':',
            '\\',
        ],
{
    let plat = Platform::Windows;
    let p = seq![c, ':'] + rest;
    assert(p[0] == c && p[1] == ':');
    assert(prefix_len(plat, p) == 2);
    assert(normalized(plat, p).take(2) =~= p.take(2));
    assert(p.take(2) =~= seq![c, ':']);
    let q = seq![c, ':', '\\'] + rest;
    assert(q[0] == c && q[1] == ':' && q[2] == '\\');
    assert(prefix_len(plat, q) == 2);
    assert(has_root(plat, q));
    let n = normalized(plat, q);
    assert(n[0] == c && n[1] == ':' && n[2] == '\\');
    assert(n.take(3) =~= seq![c, ':', '\\']);
}

/// A drive letter of either case, a colon, a backslash and one name is already
/// an absolute path in normal form on Windows: it resolves to itself, whatever
/// the base is and when there is none.
pub proof fn law_drive_rooted_name_resolves_to_itself(c: char, name: Seq<char>, base: Option<Seq<char>>)
    requires
        ('a' <= c && c <= 'z') || ('A' <= c && c <= 'Z'),
        is_name(Platform::Windows, name),
        name != parent_segment(),
    ensures
        resolved(Platform::Windows, base, seq![c, ':', '\\'] + name) == Some(seq![c, ':', '\\'] + name),
{
    let plat = Platform::Windows;
    let q = seq![c, ':', '\\'] + name;
    law_drive_letter_of_either_case(c, name, base);
    assert(prefix_len(plat, q) == 2);
    assert(after_prefix(plat, q) =~= Seq::<char>::empty().push('\\') + name);
    lemma_pieces_sep_then_plain(plat, Seq::<char>::empty(), '\\', name);
    let ps = pieces(plat, after_prefix(plat, q));
    assert(ps =~= seq![Seq::<char>::empty(), name]);
    assert(ps.drop_last() =~= seq![Seq::<char>::empty()]);
    assert(ps.drop_last().drop_last() =~= Seq::<Seq<char>>::empty());
    assert(collapse(Seq::<Seq<char>>::empty(), true) =~= Seq::<Seq<char>>::empty());
    assert(collapse(ps.drop_last(), true) =~= Seq::<Seq<char>>::empty());
    assert(is_anchored(plat, q));
    assert(kept_segments(plat, q) =~= seq![name]);
    assert(join_segments(plat, seq![name]) == name);
    assert(q.take(2) =~= seq![c, ':']);
    assert(normalized(plat, q) =~= q);
}

/// The normal form keeps only names: no empty segment and no `.`; `..` is
/// never kept in a path with a prefix or a root, and otherwise only before every
/// other name.
pub proof fn law_normalized_keeps_names(plat: Platform, p: Seq<char>)
    ensures
        well_kept(plat, kept_segments(plat, p), is_anchored(plat, p)),
{
    lemma_pieces_have_no_separator(plat, after_prefix(plat, p));
    lemma_collapse_keeps_shape(plat, pieces(plat, after_prefix(plat, p)), is_anchored(plat, p));
}

/// Normalizing keeps a path absolute.
pub proof fn law_normalize_keeps_root(plat: Platform, p: Seq<char>)
    requires
        is_absolute(plat, p),
    ensures
        is_absolute(plat, normalized(plat, p)),
{
    let k = prefix_len(plat, p);
    let out = normalized(plat, p);
    assert(out[k] == main_separator(plat));
    if k == 2 {
        assert(out[0] == p[0] && out[1] == p[1]);
    } else if plat == Platform::Windows {
        assert(false);
    }
}

/// An absolute candidate ignores the base: it resolves to its own normal form
/// whatever the base is, or when there is none.
pub proof fn law_absolute_candidate_ignores_base(
    plat: Platform,
    base1: Option<Seq<char>>,
    base2: Option<Seq<char>>,
    candidate: Seq<char>,
)
    requires
        is_absolute(plat, candidate),
    ensures
        resolved(plat, base1, candidate) == resolved(plat, base2, candidate),
        resolved(plat, base1, candidate) == Some(normalized(plat, candidate)),
{
}

/// Resolution against an absolute base yields an absolute path, for every
/// candidate but one with a drive prefix and no root (such as `C:x`), which
/// replaces the base and stays relative to its drive.
pub proof fn law_resolution_is_absolute(plat: Platform, base: Seq<char>, candidate: Seq<char>)
    requires
        is_absolute(plat, base),
        is_absolute(plat, candidate) || prefix_len(plat, candidate) == 0,
    ensures
        resolved(plat, Some(base), candidate) matches Some(r) && is_absolute(plat, r),
{
    if is_absolute(plat, candidate) {
        law_normalize_keeps_root(plat, candidate);
    } else {
        let j = joined(plat, base, candidate);
        let k = prefix_len(plat, base);
        if has_root(plat, candidate) {
            assert(plat == Platform::Windows);
            assert(j == base.take(k) + candidate);
            assert(j[0] == base[0] && j[1] == base[1] && j[2] == candidate[0]);
        } else {
            assert(j.len() > k);
            assert forall|i: int| 0 <= i <= k implies j[i] == base[i] by {}
        }
        assert(is_absolute(plat, j));
        law_normalize_keeps_root(plat, j);
    }
}

/// With an absolute process directory every working directory has a base, and
/// the base is absolute, unless it is a drive prefix without a root (such as
/// `C:x`), which stays relative to its drive.
pub proof fn law_base_is_absolute(plat: Platform, cwd: Cwd, process_dir: Seq<char>)
    requires
        is_absolute(plat, process_dir),
        cwd matches Cwd::Path(p) ==> is_absolute(plat, p@) || prefix_len(plat, p@) == 0,
    ensures
        base_of(plat, cwd, Some(process_dir)) matches Some(b) && is_absolute(plat, b),
{
    match cwd {
        Cwd::Process => {},
        Cwd::Path(p) => {
            law_resolution_is_absolute(plat, process_dir, p@);
        },
    }
}

proof fn lemma_separator_ended_last_piece(plat: Platform, z: Seq<char>)
    requires
        z.len() == 0 || is_separator(plat, z.last()),
    ensures
        pieces(plat, z).len() >= 1,
        pieces(plat, z).last() == Seq::<char>::empty(),
{
    lemma_pieces_nonempty(plat, z);
    if z.len() > 0 {
        assert(z.drop_last().push(z.last()) =~= z);
        lemma_pieces_push(plat, z.drop_last(), z.last());
    }
}

/// The text that `base` contributes after its prefix when a relative path
/// without prefix or root is appended to it.
pub open spec fn joint(plat: Platform, base: Seq<char>) -> Seq<char> {
    if needs_separator(plat, base) {
        base.skip(prefix_len(plat, base)) + seq![main_separator(plat)]
    } else {
        base.skip(prefix_len(plat, base))
    }
}

proof fn lemma_join_relative(plat: Platform, base: Seq<char>, c: Seq<char>)
    requires
        c.len() > 0,
        prefix_len(plat, c) == 0,
        !is_separator(plat, c[0]),
    ensures
        prefix_len(plat, joined(plat, base, c)) == prefix_len(plat, base),
        joined(plat, base, c).take(prefix_len(plat, base)) == base.take(prefix_len(plat, base)),
        after_prefix(plat, joined(plat, base, c)) == joint(plat, base) + c,
        joint(plat, base).len() == 0 || is_separator(plat, joint(plat, base).last()),
        has_root(plat, joined(plat, base, c)) == if joint(plat, base).len() > 0 {
            is_separator(plat, joint(plat, base)[0])
        } else {
            false
        },
{
    let k = prefix_len(plat, base);
    let j = joined(plat, base, c);
    assert(!has_root(plat, c));
    assert(!is_absolute(plat, c));
    let z = joint(plat, base);
    if needs_separator(plat, base) {
        assert(j == base + seq![main_separator(plat)] + c);
        if base.len() >= 2 {
            assert(j[0] == base[0] && j[1] == base[1]);
        } else {
            assert(base.len() == 1);
            assert(j[1] == main_separator(plat));
        }
    } else {
        assert(j == base + c);
        if base.len() >= 2 {
            assert(j[0] == base[0] && j[1] == base[1]);
        } else if base.len() == 1 {
            assert(is_separator(plat, base[0]));
            assert(j[0] == base[0]);
        } else {
            assert(j =~= c);
        }
    }
    assert(prefix_len(plat, j) == k);
    assert(j.take(k) =~= base.take(k));
    assert(after_prefix(plat, j) =~= z + c);
    if z.len() > 0 {
        assert(j[k] == z[0]);
        if needs_separator(plat, base) {
            assert(z.last() == main_separator(plat));
        } else {
            assert(z.last() == base.last());
        }
    } else {
        assert(j[k] == c[0]);
    }
}

/// `name/..` cancels: a candidate `x/../name`, for a name `x` other than `..`,
/// resolves where `name` does. The `..` is collapsed in the text, before any
/// look-up, so whether `x` exists or is a link makes no difference. On Windows
/// neither `x` nor `name` may start with a drive prefix, which would make the
/// candidate replace the base.
pub proof fn law_name_then_parent_cancels(plat: Platform, base: Seq<char>, x: Seq<char>, name: Seq<char>)
    requires
        is_name(plat, x),
        x != parent_segment(),
        prefix_len(plat, x) == 0,
        name.len() > 0,
        has_no_separator(plat, name),
        prefix_len(plat, name) == 0,
    ensures
        resolved(plat, Some(base), x + seq!['/', '.', '.', '/'] + name) == resolved(plat, Some(base), name),
{
    let c1 = x + seq!['/', '.', '.', '/'] + name;
    assert(c1[0] == x[0]);
    assert(prefix_len(plat, c1) == 0) by {
        if x.len() >= 2 {
            assert(c1[1] == x[1]);
        } else {
            assert(c1[1] == '/');
        }
    }
    assert(!is_separator(plat, x[0]));
    assert(!is_separator(plat, name[0]));
    lemma_join_relative(plat, base, c1);
    lemma_join_relative(plat, base, name);
    let j1 = joined(plat, base, c1);
    let j2 = joined(plat, base, name);
    assert(is_anchored(plat, j1) == is_anchored(plat, j2));
    lemma_cancel_pieces(plat, joint(plat, base), x, name, is_anchored(plat, j1));
    assert(kept_segments(plat, j1) == kept_segments(plat, j2));
}

proof fn lemma_cancel_pieces(plat: Platform, z: Seq<char>, x: Seq<char>, name: Seq<char>, rooted: bool)
    requires
        z.len() == 0 || is_separator(plat, z.last()),
        is_name(plat, x),
        x != parent_segment(),
        has_no_separator(plat, name),
    ensures
        collapse(pieces(plat, z + (x + seq!['/', '.', '.', '/'] + name)), rooted) == collapse(
            pieces(plat, z + name),
            rooted,
        ),
{
    let c1 = x + seq!['/', '.', '.', '/'] + name;
    lemma_separator_ended_last_piece(plat, z);
    let pz = pieces(plat, z);
    let q = pz.drop_last();
    assert(pz =~= q.push(Seq::<char>::empty()));
    lemma_pieces_append_plain(plat, z, x);
    assert(pz.last() + x =~= x);
    assert(pieces(plat, z + x) =~= q.push(x));
    let dots = parent_segment();
    assert(has_no_separator(plat, dots));
    lemma_pieces_sep_then_plain(plat, z + x, '/', dots);
    lemma_pieces_sep_then_plain(plat, (z + x).push('/') + dots, '/', name);
    assert(z + c1 =~= ((z + x).push('/') + dots).push('/') + name);
    let p1 = q.push(x).push(dots).push(name);
    assert(pieces(plat, z + c1) =~= p1);
    lemma_pieces_append_plain(plat, z, name);
    assert(pz.last() + name =~= name);
    let p2 = q.push(name);
    assert(pieces(plat, z + name) =~= p2);
    let cq = collapse(q, rooted);
    assert(q.push(x).drop_last() =~= q);
    assert(x != current_segment());
    assert(collapse(q.push(x), rooted) == cq.push(x));
    assert(q.push(x).push(dots).drop_last() =~= q.push(x));
    assert(cq.push(x).drop_last() =~= cq);
    assert(collapse(q.push(x).push(dots), rooted) == cq);
    assert(p1.drop_last() =~= q.push(x).push(dots));
    assert(p2.drop_last() =~= q);
}

/// A separator and then a run without separators opens one new piece.
proof fn lemma_pieces_sep_then_plain(plat: Platform, w: Seq<char>, c: char, y: Seq<char>)
    requires
        is_separator(plat, c),
        has_no_separator(plat, y),
    ensures
        pieces(plat, w.push(c) + y) == pieces(plat, w).push(y),
{
    lemma_pieces_push(plat, w, c);
    lemma_pieces_append_plain(plat, w.push(c), y);
    let pw = pieces(plat, w).push(Seq::<char>::empty());
    assert(pw.last() + y =~= y);
    assert(pw.update(pw.len() - 1, y) =~= pieces(plat, w).push(y));
}

} // verus!
