//! Paths as the platform reads them: the Windows prefixes (`C:`,
//! `//server/share`, the verbatim `//?/...` forms), and the parent, file
//! name and join of a path kept as text, the way `Path::parent`,
//! `Path::file_name` and `Path::join` work on it.
//!
//! Windows paths are taken in the form with `/` for `\`; with `windows`
//! false every function here is the Unix one.
use vstd::prelude::*;
use crate::path::{
    components, has_drive_prefix, has_root, is_name, join, keep_names, law_join_name_starts_with,
    leading_cur_dir, lemma_keep_names_concat, lemma_split_slash_concat, lemma_split_slash_no_sep,
    lemma_split_slash_pieces, path_join, path_starts_with, split_slash,
};
use crate::text::{
    chars_eq, chars_of, copy_chars, extend_chars, find_char, join_chars, join_with, lemma_find_char_at,
    lemma_find_char_bounds, string_from, sub_chars, views,
};

verus! {

// ---------------------------------------------------------------------------
// Prefixes
// ---------------------------------------------------------------------------

/// The index of the first `/` in `p` at or after `i`, or `p.len()`.
pub open spec fn next_sep(p: Seq<char>, i: int) -> int {
    i + find_char(p.skip(i), '/')
}

/// The end of a prefix made of a server piece starting at `i` and, when it
/// is followed by a non-empty one, a share piece.
pub open spec fn server_share_end(p: Seq<char>, i: int) -> int {
    let s = next_sep(p, i);
    if s + 1 < p.len() && p[s + 1] != '/' {
        next_sep(p, s + 1)
    } else {
        s
    }
}

/// Whether `p` starts with the verbatim marker `//?/`.
pub open spec fn starts_verbatim(p: Seq<char>) -> bool {
    p.len() >= 4 && p[0] == '/' && p[1] == '/' && p[2] == '?' && p[3] == '/'
}

/// Whether `p` starts with the device marker `//./`.
pub open spec fn starts_device(p: Seq<char>) -> bool {
    p.len() >= 4 && p[0] == '/' && p[1] == '/' && p[2] == '.' && p[3] == '/'
}

/// Whether `p` starts like a UNC path `//server`, with a non-empty server.
pub open spec fn starts_unc(p: Seq<char>) -> bool {
    p.len() >= 3 && p[0] == '/' && p[1] == '/' && p[2] != '/' && !starts_verbatim(p)
        && !starts_device(p)
}

/// Whether the verbatim path `p` names a disk: `//?/C:`, then `/` or the end.
pub open spec fn verbatim_disk(p: Seq<char>) -> bool {
    p.len() >= 6 && ('a' <= p[4] <= 'z' || 'A' <= p[4] <= 'Z') && p[5] == ':' && (p.len() == 6
        || p[6] == '/')
}

/// Whether the verbatim path `p` is a verbatim UNC path `//?/UNC/...`.
pub open spec fn verbatim_unc(p: Seq<char>) -> bool {
    p.len() >= 8 && p[4] == 'U' && p[5] == 'N' && p[6] == 'C' && p[7] == '/'
}

/// The length of the Windows prefix that `p` starts with; 0 when it has
/// none, and always 0 when `windows` does not hold. The prefixes are
/// `//?/UNC/server/share`, `//?/C:`, `//?/name`, `//./name`,
/// `//server/share` (a share only when it is not empty) and `C:`.
pub open spec fn prefix_len(p: Seq<char>, windows: bool) -> int {
    if !windows {
        0
    } else if starts_verbatim(p) {
        if verbatim_unc(p) {
            server_share_end(p, 8)
        } else if verbatim_disk(p) {
            6
        } else {
            next_sep(p, 4)
        }
    } else if starts_device(p) {
        next_sep(p, 4)
    } else if starts_unc(p) {
        server_share_end(p, 2)
    } else if has_drive_prefix(p) {
        2
    } else {
        0
    }
}

/// Whether `p` is a verbatim path on Windows.
pub open spec fn is_verbatim(p: Seq<char>, windows: bool) -> bool {
    windows && starts_verbatim(p)
}

/// Whether `p` is a drive prefix alone, such as `C:`.
pub open spec fn is_bare_drive(p: Seq<char>) -> bool {
    p.len() == 2 && has_drive_prefix(p)
}

/// Whether a `/` follows the prefix.
pub open spec fn physical_root(p: Seq<char>, windows: bool) -> bool {
    let n = prefix_len(p, windows);
    n < p.len() && p[n] == '/'
}

/// Whether the prefix implies a root: every prefix but a drive's.
pub open spec fn implicit_root(p: Seq<char>, windows: bool) -> bool {
    prefix_len(p, windows) > 0 && !has_drive_prefix(p)
}

/// Whether a rootless path goes on after its prefix with `.` or `./`.
pub open spec fn leading_dot(p: Seq<char>, windows: bool) -> bool {
    let n = prefix_len(p, windows);
    &&& !physical_root(p, windows)
    &&& !implicit_root(p, windows)
    &&& n < p.len()
    &&& p[n] == '.'
    &&& (p.len() == n + 1 || p[n + 1] == '/')
}

/// Where the pieces that name components start: after the prefix, its
/// root and a leading `.`.
pub open spec fn body_start(p: Seq<char>, windows: bool) -> int {
    prefix_len(p, windows) + (if physical_root(p, windows) {
        1int
    } else {
        0int
    }) + (if leading_dot(p, windows) {
        1int
    } else {
        0int
    })
}

// ---------------------------------------------------------------------------
// Pieces from the back
// ---------------------------------------------------------------------------

/// The index of the last `/` in `s`, or -1.
pub open spec fn last_sep(s: Seq<char>) -> int
    decreases s.len(),
{
    if s.len() == 0 {
        -1
    } else if s.last() == '/' {
        s.len() - 1
    } else {
        last_sep(s.drop_last())
    }
}

/// The text after the last `/`.
pub open spec fn last_piece(s: Seq<char>) -> Seq<char> {
    s.skip(last_sep(s) + 1)
}

/// `s` without its last piece and the `/` before it.
pub open spec fn drop_last_piece(s: Seq<char>) -> Seq<char> {
    if last_sep(s) < 0 {
        Seq::empty()
    } else {
        s.take(last_sep(s))
    }
}

/// Whether a piece of a body names a component: empty pieces never do,
/// and `.` does only in a verbatim path.
pub open spec fn names_component(q: Seq<char>, verbatim: bool) -> bool {
    q.len() > 0 && (verbatim || q != seq!['.'])
}

/// `s` without the trailing pieces that name no component.
pub open spec fn trim_back(s: Seq<char>, verbatim: bool) -> Seq<char>
    decreases s.len(),
{
    if s.len() == 0 {
        s
    } else if names_component(last_piece(s), verbatim) {
        s
    } else {
        proof {
            lemma_last_sep(s);
        }
        trim_back(drop_last_piece(s), verbatim)
    }
}

/// The parent of `p` as `Path::parent` gives it: the text of `p` up to the
/// end of the component before the last one (or up to where the
/// components start, when there is none); `None` when the last component
/// is the root or the prefix, and for the empty path.
pub open spec fn path_parent_on(p: Seq<char>, windows: bool) -> Option<Seq<char>> {
    let b0 = body_start(p, windows);
    let verbatim = is_verbatim(p, windows);
    let t = trim_back(p.skip(b0), verbatim);
    if t.len() > 0 {
        Some(p.take(b0) + trim_back(drop_last_piece(t), verbatim))
    } else if physical_root(p, windows) || prefix_len(p, windows) > 0 {
        None
    } else if leading_dot(p, windows) {
        Some(Seq::empty())
    } else {
        None
    }
}

/// The file name of `p` as `Path::file_name` gives it: its last
/// component, when that is a name.
pub open spec fn path_file_name_on(p: Seq<char>, windows: bool) -> Option<Seq<char>> {
    let t = trim_back(p.skip(body_start(p, windows)), is_verbatim(p, windows));
    if t.len() == 0 {
        None
    } else {
        let q = last_piece(t);
        if q == seq!['.'] || q == seq!['.', '.'] {
            None
        } else {
            Some(q)
        }
    }
}

// ---------------------------------------------------------------------------
// Joining
// ---------------------------------------------------------------------------

/// The non-empty pieces.
pub open spec fn nonempty_pieces(ps: Seq<Seq<char>>) -> Seq<Seq<char>>
    decreases ps.len(),
{
    if ps.len() == 0 {
        Seq::empty()
    } else {
        let rest = nonempty_pieces(ps.drop_first());
        if ps[0].len() == 0 {
            rest
        } else {
            seq![ps[0]] + rest
        }
    }
}

/// Whether the last component of a stack is a name (not `.` or `..`).
pub open spec fn ends_with_name(stack: Seq<Seq<char>>) -> bool {
    stack.len() > 0 && stack.last() != seq!['.'] && stack.last() != seq!['.', '.']
}

/// The components of a verbatim path after the names of a relative path
/// are pushed on it: `..` removes a last name, and is dropped otherwise.
pub open spec fn push_names(stack: Seq<Seq<char>>, names: Seq<Seq<char>>) -> Seq<Seq<char>>
    decreases names.len(),
{
    if names.len() == 0 {
        stack
    } else {
        let n = names[0];
        let next = if n == seq!['.', '.'] {
            if ends_with_name(stack) {
                stack.drop_last()
            } else {
                stack
            }
        } else {
            stack.push(n)
        };
        push_names(next, names.drop_first())
    }
}

/// The verbatim path `base` joined with the non-empty relative path `rel`:
/// the components are pushed one by one and the path is written anew,
/// with `/` between components.
pub open spec fn verbatim_join(base: Seq<char>, rel: Seq<char>) -> Seq<char> {
    let n = prefix_len(base, true);
    let body = base.skip(n);
    let base_root = body.len() > 0 && body[0] == '/';
    let start = if has_root(rel) {
        Seq::empty()
    } else {
        nonempty_pieces(split_slash(body))
    };
    let stack = push_names(start, keep_names(split_slash(rel)));
    base.take(n) + (if has_root(rel) || base_root || stack.len() > 0 {
        seq!['/']
    } else {
        Seq::empty()
    }) + join_with(stack, '/')
}

/// `base` joined with `rel` as `Path::join` does it: on Windows a `rel`
/// with a prefix replaces `base`; a verbatim `base` has the components of
/// `rel` pushed on it (`.` dropped, `..` removing a name); a `rel` that
/// starts at the root keeps only the prefix of `base`; a drive alone takes
/// `rel` with no `/` between. Otherwise, and on Unix, it is [`path_join`].
pub open spec fn path_join_on(base: Seq<char>, rel: Seq<char>, windows: bool) -> Seq<char> {
    if !windows {
        path_join(base, rel)
    } else if prefix_len(rel, true) > 0 {
        rel
    } else if starts_verbatim(base) && rel.len() > 0 {
        verbatim_join(base, rel)
    } else if has_root(rel) {
        base.take(prefix_len(base, true)) + rel
    } else if is_bare_drive(base) {
        base + rel
    } else {
        path_join(base, rel)
    }
}

// ---------------------------------------------------------------------------
// Lemmas
// ---------------------------------------------------------------------------

/// Where the last `/` lies.
pub proof fn lemma_last_sep(s: Seq<char>)
    ensures
        -1 <= last_sep(s) < s.len(),
        last_sep(s) >= 0 ==> s[last_sep(s)] == '/',
        forall|j: int| last_sep(s) < j < s.len() ==> s[j] != '/',
    decreases s.len(),
{
    if s.len() > 0 && s.last() != '/' {
        lemma_last_sep(s.drop_last());
        assert forall|j: int| last_sep(s) < j < s.len() implies s[j] != '/' by {
            if j < s.len() - 1 {
                assert(s[j] == s.drop_last()[j]);
            }
        }
    }
}

/// `next_sep` finds the first `/` at or after `i`.
proof fn lemma_next_sep(p: Seq<char>, i: int)
    requires
        0 <= i <= p.len(),
    ensures
        i <= next_sep(p, i) <= p.len(),
        next_sep(p, i) < p.len() ==> p[next_sep(p, i)] == '/',
{
    lemma_find_char_bounds(p.skip(i), '/');
    let k = find_char(p.skip(i), '/') as int;
    if k < p.len() - i {
        assert(p.skip(i)[k] == p[i + k]);
    }
}

/// A prefix lies within the path, and a verbatim one is followed by `/`
/// or by nothing.
pub proof fn lemma_prefix_len(p: Seq<char>, windows: bool)
    ensures
        0 <= prefix_len(p, windows) <= p.len(),
        is_verbatim(p, windows) ==> 4 <= prefix_len(p, windows) && (prefix_len(p, windows)
            < p.len() ==> p[prefix_len(p, windows)] == '/'),
        0 <= body_start(p, windows) <= p.len(),
{
    if windows {
        if starts_verbatim(p) {
            lemma_next_sep(p, 4);
            if verbatim_unc(p) {
                lemma_next_sep(p, 8);
                let s = next_sep(p, 8);
                if s + 1 < p.len() && p[s + 1] != '/' {
                    lemma_next_sep(p, s + 1);
                }
            }
        } else if starts_device(p) {
            lemma_next_sep(p, 4);
        } else if starts_unc(p) {
            lemma_next_sep(p, 2);
            let s = next_sep(p, 2);
            if s + 1 < p.len() && p[s + 1] != '/' {
                lemma_next_sep(p, s + 1);
            }
        }
    }
}

/// Whether the file name of `p`, read as on Windows, starts like a drive.
pub open spec fn has_drive_prefix_name(p: Seq<char>) -> bool {
    path_file_name_on(p, true) matches Some(n) && has_drive_prefix(n)
}

// ---------------------------------------------------------------------------
// Executable functions
// ---------------------------------------------------------------------------

/// The index of the first `/` in `v` at or after `i`, or `v.len()`.
fn next_sep_from(v: &[char], i: usize) -> (k: usize)
    requires
        i <= v.len(),
    ensures
        k == next_sep(v@, i as int),
{
    let mut k = i;
    while k < v.len() && v[k] != '/'
        invariant
            i <= k <= v.len(),
            forall|j: int| i <= j < k ==> v@[j] != '/',
        decreases v.len() - k,
    {
        k += 1;
    }
    proof {
        let s = v@.skip(i as int);
        assert forall|j: int| 0 <= j < k - i implies s[j] != '/' by {
            assert(s[j] == v@[i + j]);
        }
        if k < v.len() {
            assert(s[k - i] == v@[k as int]);
        }
        lemma_find_char_at(s, '/', k - i);
    }
    k
}

fn is_letter(c: char) -> (b: bool)
    ensures
        b == ('a' <= c <= 'z' || 'A' <= c <= 'Z'),
{
    ('a' <= c && c <= 'z') || ('A' <= c && c <= 'Z')
}

fn server_share_end_from(v: &[char], i: usize) -> (k: usize)
    requires
        i <= v.len(),
    ensures
        k == server_share_end(v@, i as int),
{
    let s = next_sep_from(v, i);
    proof {
        lemma_next_sep(v@, i as int);
    }
    if s < v.len() && s + 1 < v.len() && v[s + 1] != '/' {
        next_sep_from(v, s + 1)
    } else {
        s
    }
}

fn verbatim_start(v: &[char]) -> (b: bool)
    ensures
        b == starts_verbatim(v@),
{
    v.len() >= 4 && v[0] == '/' && v[1] == '/' && v[2] == '?' && v[3] == '/'
}

/// The length of the Windows prefix of `v` (0 when `windows` is false).
pub fn prefix_length(v: &[char], windows: bool) -> (n: usize)
    ensures
        n == prefix_len(v@, windows),
{
    if !windows {
        return 0;
    }
    if verbatim_start(v) {
        if v.len() >= 8 && v[4] == 'U' && v[5] == 'N' && v[6] == 'C' && v[7] == '/' {
            server_share_end_from(v, 8)
        } else if v.len() >= 6 && is_letter(v[4]) && v[5] == ':' && (v.len() == 6 || v[6] == '/') {
            6
        } else {
            next_sep_from(v, 4)
        }
    } else if v.len() >= 4 && v[0] == '/' && v[1] == '/' && v[2] == '.' && v[3] == '/' {
        next_sep_from(v, 4)
    } else if v.len() >= 3 && v[0] == '/' && v[1] == '/' && v[2] != '/' {
        server_share_end_from(v, 2)
    } else if v.len() >= 2 && is_letter(v[0]) && v[1] == ':' {
        2
    } else {
        0
    }
}

/// The prefix length, whether a root follows it, whether a `.` leads the
/// rest, and where the body starts.
fn body_bounds(v: &[char], windows: bool) -> (r: (usize, bool, bool, usize))
    ensures
        r.0 == prefix_len(v@, windows),
        r.1 == physical_root(v@, windows),
        r.2 == leading_dot(v@, windows),
        r.3 == body_start(v@, windows),
        r.3 <= v.len(),
{
    let n = prefix_length(v, windows);
    proof {
        lemma_prefix_len(v@, windows);
    }
    let root = n < v.len() && v[n] == '/';
    let drive = v.len() >= 2 && is_letter(v[0]) && v[1] == ':';
    let implicit = n > 0 && !drive;
    let dot = !root && !implicit && n < v.len() && v[n] == '.' && (v.len() == n + 1 || v[n + 1]
        == '/');
    let mut b0 = n;
    if root {
        b0 = b0 + 1;
    }
    if dot {
        b0 = b0 + 1;
    }
    (n, root, dot, b0)
}

/// The index of the last `/` in `v[start..end]`.
fn last_sep_in(v: &[char], start: usize, end: usize) -> (k: Option<usize>)
    requires
        start <= end <= v.len(),
    ensures
        match k {
            Some(i) => start <= i < end && last_sep(v@.subrange(start as int, end as int)) == i
                - start,
            None => last_sep(v@.subrange(start as int, end as int)) == -1,
        },
{
    let mut i = end;
    while i > start
        invariant
            start <= i <= end <= v.len(),
            last_sep(v@.subrange(start as int, end as int)) == last_sep(
                v@.subrange(start as int, i as int),
            ),
        decreases i - start,
    {
        let ghost s = v@.subrange(start as int, i as int);
        assert(s.last() == v@[i - 1]);
        if v[i - 1] == '/' {
            return Some(i - 1);
        }
        assert(s.drop_last() =~= v@.subrange(start as int, i - 1));
        i -= 1;
    }
    None
}

/// The end of `trim_back(v[start..end])`.
fn trim_back_end(v: &[char], start: usize, end: usize, verbatim: bool) -> (e: usize)
    requires
        start <= end <= v.len(),
    ensures
        start <= e <= end,
        v@.subrange(start as int, e as int) == trim_back(
            v@.subrange(start as int, end as int),
            verbatim,
        ),
{
    let mut e = end;
    loop
        invariant
            start <= e <= end <= v.len(),
            trim_back(v@.subrange(start as int, end as int), verbatim) == trim_back(
                v@.subrange(start as int, e as int),
                verbatim,
            ),
        decreases e - start,
    {
        let ghost s = v@.subrange(start as int, e as int);
        if e == start {
            return e;
        }
        let k = last_sep_in(v, start, e);
        let ps = match k {
            Some(i) => i + 1,
            None => start,
        };
        proof {
            lemma_last_sep(s);
            assert(last_piece(s) =~= v@.subrange(ps as int, e as int));
        }
        let len = e - ps;
        let names = len > 0 && (verbatim || !(len == 1 && v[ps] == '.'));
        proof {
            let q = v@.subrange(ps as int, e as int);
            if len == 1 {
                if v[ps as int] == '.' {
                    assert(q =~= seq!['.']);
                } else {
                    assert(q[0] != seq!['.'][0]);
                }
            } else if len > 1 {
                assert(q.len() != seq!['.'].len());
            }
            assert(names == names_component(last_piece(s), verbatim));
        }
        if names {
            return e;
        }
        let ne = match k {
            Some(i) => i,
            None => start,
        };
        proof {
            assert(drop_last_piece(s) =~= v@.subrange(start as int, ne as int));
        }
        e = ne;
    }
}

/// The parent of the path `p` (as on Windows when `windows` holds).
pub fn parent(p: &str, windows: bool) -> (r: Option<String>)
    ensures
        r matches Some(x) ==> path_parent_on(p@, windows) == Some(x@),
        r is None ==> path_parent_on(p@, windows) is None,
{
    let v = chars_of(p);
    let (n, root, dot, b0) = body_bounds(&v, windows);
    let verbatim = windows && verbatim_start(&v);
    let t = trim_back_end(&v, b0, v.len(), verbatim);
    assert(v@.subrange(b0 as int, v.len() as int) =~= v@.skip(b0 as int));
    if t > b0 {
        let k = last_sep_in(&v, b0, t);
        let d = match k {
            Some(i) => i,
            None => b0,
        };
        proof {
            let ts = v@.subrange(b0 as int, t as int);
            assert(drop_last_piece(ts) =~= v@.subrange(b0 as int, d as int));
        }
        let e = trim_back_end(&v, b0, d, verbatim);
        let out = sub_chars(&v, 0, e);
        assert(v@.take(b0 as int) + v@.subrange(b0 as int, e as int) =~= out@);
        return Some(string_from(&out));
    }
    if root || n > 0 {
        return None;
    }
    if dot {
        let none: Vec<char> = Vec::new();
        return Some(string_from(&none));
    }
    None
}

/// The file name of the path `p` (as on Windows when `windows` holds).
pub fn file_name(p: &str, windows: bool) -> (r: Option<String>)
    ensures
        r matches Some(x) ==> path_file_name_on(p@, windows) == Some(x@),
        r is None ==> path_file_name_on(p@, windows) is None,
{
    let v = chars_of(p);
    let (_, _, _, b0) = body_bounds(&v, windows);
    let verbatim = windows && verbatim_start(&v);
    let t = trim_back_end(&v, b0, v.len(), verbatim);
    assert(v@.subrange(b0 as int, v.len() as int) =~= v@.skip(b0 as int));
    if t == b0 {
        return None;
    }
    let k = last_sep_in(&v, b0, t);
    let ps = match k {
        Some(i) => i + 1,
        None => b0,
    };
    let q = sub_chars(&v, ps, t);
    proof {
        let ts = v@.subrange(b0 as int, t as int);
        lemma_last_sep(ts);
        assert(last_piece(ts) =~= q@);
    }
    let dot: [char; 1] = ['.'];
    let dot_dot: [char; 2] = ['.', '.'];
    assert(dot@ =~= seq!['.']);
    assert(dot_dot@ =~= seq!['.', '.']);
    if chars_eq(q.as_slice(), dot.as_slice()) || chars_eq(q.as_slice(), dot_dot.as_slice()) {
        return None;
    }
    Some(string_from(&q))
}

/// The pieces of `v` between `/` separators.
fn pieces_of(v: &[char]) -> (out: Vec<Vec<char>>)
    ensures
        views(out@) == split_slash(v@),
{
    let ghost s = v@;
    let mut out: Vec<Vec<char>> = Vec::new();
    let mut i: usize = 0;
    assert(s.skip(0) =~= s);
    loop
        invariant_except_break
            s == v@,
            i <= v.len(),
            split_slash(s) == views(out@) + split_slash(s.skip(i as int)),
        ensures
            split_slash(s) == views(out@),
        decreases v.len() - i,
    {
        let ghost rest = s.skip(i as int);
        let k = next_sep_from(v, i);
        proof {
            lemma_next_sep(s, i as int);
            assert(find_char(rest, '/') == k - i);
        }
        let piece = sub_chars(v, i, k);
        assert(piece@ =~= rest.take(k - i));
        let ghost before = out@;
        out.push(piece);
        assert(views(out@) =~= views(before).push(piece@));
        if k < v.len() {
            proof {
                assert(rest.skip(k - i + 1) =~= s.skip(k + 1));
                assert(split_slash(rest) == seq![piece@] + split_slash(s.skip(k + 1)));
                assert(views(out@) + split_slash(s.skip(k + 1)) =~= views(before) + split_slash(
                    rest,
                ));
            }
            i = k + 1;
        } else {
            proof {
                assert(rest =~= piece@);
                assert(split_slash(rest) == seq![rest]);
                assert(views(out@) =~= views(before) + split_slash(rest));
            }
            break;
        }
    }
    out
}

/// The non-empty pieces of `ps`.
fn nonempty_of(ps: &[Vec<char>]) -> (out: Vec<Vec<char>>)
    ensures
        views(out@) == nonempty_pieces(views(ps@)),
{
    let mut out: Vec<Vec<char>> = Vec::new();
    let mut i = ps.len();
    while i > 0
        invariant
            i <= ps.len(),
            views(out@) == nonempty_pieces(views(ps@).skip(i as int)),
        decreases i,
    {
        i -= 1;
        let ghost rest = views(ps@).skip(i as int);
        assert(rest.drop_first() =~= views(ps@).skip(i + 1));
        assert(rest[0] == ps@[i as int]@);
        if ps[i].len() > 0 {
            let ghost before = out@;
            out.insert(0, copy_chars(ps[i].as_slice()));
            assert(views(out@) =~= seq![ps@[i as int]@] + views(before));
        }
    }
    assert(views(ps@).skip(0) =~= views(ps@));
    out
}

/// The pieces of `ps` that name components.
fn names_of(ps: &[Vec<char>]) -> (out: Vec<Vec<char>>)
    ensures
        views(out@) == keep_names(views(ps@)),
{
    let mut out: Vec<Vec<char>> = Vec::new();
    let mut i = ps.len();
    let dot: [char; 1] = ['.'];
    assert(dot@ =~= seq!['.']);
    while i > 0
        invariant
            i <= ps.len(),
            dot@ == seq!['.'],
            views(out@) == keep_names(views(ps@).skip(i as int)),
        decreases i,
    {
        i -= 1;
        let ghost rest = views(ps@).skip(i as int);
        assert(rest.drop_first() =~= views(ps@).skip(i + 1));
        assert(rest[0] == ps@[i as int]@);
        if ps[i].len() > 0 && !chars_eq(ps[i].as_slice(), dot.as_slice()) {
            let ghost before = out@;
            out.insert(0, copy_chars(ps[i].as_slice()));
            assert(views(out@) =~= seq![ps@[i as int]@] + views(before));
        }
    }
    assert(views(ps@).skip(0) =~= views(ps@));
    out
}

/// The verbatim path `b` joined with the non-empty relative path `r`.
fn verbatim_join_chars(b: &[char], r: &[char]) -> (out: Vec<char>)
    requires
        starts_verbatim(b@),
        r@.len() > 0,
    ensures
        out@ == verbatim_join(b@, r@),
{
    let n = prefix_length(b, true);
    proof {
        lemma_prefix_len(b@, true);
    }
    let body = sub_chars(b, n, b.len());
    assert(body@ =~= b@.skip(n as int));
    let base_root = body.len() > 0 && body[0] == '/';
    let rel_root = r[0] == '/';
    let mut stack: Vec<Vec<char>> = if rel_root {
        Vec::new()
    } else {
        nonempty_of(&pieces_of(&body))
    };
    let ghost start = views(stack@);
    assert(start == (if rel_root {
        Seq::<Seq<char>>::empty()
    } else {
        nonempty_pieces(split_slash(body@))
    }));
    let names = names_of(&pieces_of(r));
    let ghost ns = views(names@);
    let dot: [char; 1] = ['.'];
    let dot_dot: [char; 2] = ['.', '.'];
    assert(dot@ =~= seq!['.']);
    assert(dot_dot@ =~= seq!['.', '.']);
    let mut i: usize = 0;
    assert(ns.skip(0) =~= ns);
    while i < names.len()
        invariant
            i <= names.len(),
            ns == views(names@),
            dot@ == seq!['.'],
            dot_dot@ == seq!['.', '.'],
            push_names(start, ns) == push_names(views(stack@), ns.skip(i as int)),
        decreases names.len() - i,
    {
        let ghost before = views(stack@);
        let ghost rest = ns.skip(i as int);
        assert(rest[0] == names@[i as int]@);
        assert(rest.drop_first() =~= ns.skip(i + 1));
        if chars_eq(names[i].as_slice(), dot_dot.as_slice()) {
            let m = stack.len();
            if m > 0 {
                assert(views(stack@).last() == stack@[m - 1]@);
            }
            if m > 0 && !chars_eq(stack[m - 1].as_slice(), dot.as_slice()) && !chars_eq(
                stack[m - 1].as_slice(),
                dot_dot.as_slice(),
            ) {
                stack.pop();
                assert(views(stack@) =~= before.drop_last());
            }
        } else {
            stack.push(copy_chars(names[i].as_slice()));
            assert(views(stack@) =~= before.push(names@[i as int]@));
        }
        i += 1;
    }
    assert(ns.skip(names.len() as int) =~= Seq::<Seq<char>>::empty());
    let mut out = sub_chars(b, 0, n);
    assert(out@ =~= b@.take(n as int));
    if rel_root || base_root || stack.len() > 0 {
        out.push('/');
    }
    let ghost head = out@;
    let joined = join_chars(&stack, '/');
    extend_chars(&mut out, &joined);
    assert(out@ =~= head + joined@);
    out
}

/// `base` joined with `rel` (as on Windows when `windows` holds).
pub fn join_on(base: &str, rel: &str, windows: bool) -> (p: String)
    ensures
        p@ == path_join_on(base@, rel@, windows),
{
    if !windows {
        return join(base, rel);
    }
    let b = chars_of(base);
    let r = chars_of(rel);
    if prefix_length(&r, true) > 0 {
        return string_from(&r);
    }
    if verbatim_start(&b) && r.len() > 0 {
        return string_from(&verbatim_join_chars(&b, &r));
    }
    if r.len() > 0 && r[0] == '/' {
        let n = prefix_length(&b, true);
        proof {
            lemma_prefix_len(b@, true);
        }
        let mut out = sub_chars(&b, 0, n);
        assert(out@ =~= b@.take(n as int));
        extend_chars(&mut out, &r);
        return string_from(&out);
    }
    if b.len() == 2 && is_letter(b[0]) && b[1] == ':' {
        let mut out = b;
        extend_chars(&mut out, &r);
        return string_from(&out);
    }
    join(base, rel)
}

// ---------------------------------------------------------------------------
// Laws
// ---------------------------------------------------------------------------

/// What `trim_back` leaves, when anything, ends with a piece that names a
/// component.
proof fn lemma_trim_back(s: Seq<char>, verbatim: bool)
    ensures
        trim_back(s, verbatim).len() > 0 ==> names_component(
            last_piece(trim_back(s, verbatim)),
            verbatim,
        ),
    decreases s.len(),
{
    if s.len() > 0 && !names_component(last_piece(s), verbatim) {
        lemma_last_sep(s);
        lemma_trim_back(drop_last_piece(s), verbatim);
    }
}

/// The file name of a path is a component name.
pub proof fn law_file_name_is_name(p: Seq<char>, windows: bool)
    ensures
        path_file_name_on(p, windows) matches Some(n) ==> is_name(n),
{
    lemma_prefix_len(p, windows);
    let t = trim_back(p.skip(body_start(p, windows)), is_verbatim(p, windows));
    if t.len() > 0 {
        lemma_trim_back(p.skip(body_start(p, windows)), is_verbatim(p, windows));
        lemma_last_sep(t);
        let q = last_piece(t);
        if q.contains('/') {
            let j = choose|j: int| 0 <= j < q.len() && q[j] == '/';
            assert(q[j] == t[last_sep(t) + 1 + j]);
        }
    }
}

/// Dropping empty pieces keeps the same names, and keeps pieces free of
/// `/`.
proof fn lemma_nonempty_pieces(ps: Seq<Seq<char>>)
    ensures
        keep_names(nonempty_pieces(ps)) == keep_names(ps),
        (forall|i: int| 0 <= i < ps.len() ==> !(#[trigger] ps[i]).contains('/')) ==> forall|i: int|
            0 <= i < nonempty_pieces(ps).len() ==> !(#[trigger] nonempty_pieces(ps)[i]).contains(
                '/',
            ),
    decreases ps.len(),
{
    if ps.len() > 0 {
        let rest = ps.drop_first();
        lemma_nonempty_pieces(rest);
        if forall|i: int| 0 <= i < ps.len() ==> !(#[trigger] ps[i]).contains('/') {
            assert forall|i: int| 0 <= i < rest.len() implies !(#[trigger] rest[i]).contains('/') by {
                assert(rest[i] == ps[i + 1]);
            }
            let np = nonempty_pieces(ps);
            assert forall|i: int| 0 <= i < np.len() implies !(#[trigger] np[i]).contains('/') by {
                if ps[0].len() > 0 {
                    if i == 0 {
                        assert(np[0] == ps[0]);
                    } else {
                        assert(np[i] == nonempty_pieces(rest)[i - 1]);
                    }
                }
            }
        }
        if ps[0].len() > 0 {
            let np = nonempty_pieces(ps);
            assert(np.drop_first() =~= nonempty_pieces(rest));
            assert(np[0] == ps[0]);
        }
    }
}

/// Splitting pieces joined with `/` gives the pieces back.
proof fn lemma_split_join(stack: Seq<Seq<char>>)
    requires
        stack.len() > 0,
        forall|i: int| 0 <= i < stack.len() ==> !(#[trigger] stack[i]).contains('/'),
    ensures
        split_slash(join_with(stack, '/')) == stack,
    decreases stack.len(),
{
    let last = stack.last();
    lemma_split_slash_no_sep(last);
    if stack.len() == 1 {
        assert(seq![stack[0]] =~= stack);
    } else {
        let init = stack.drop_last();
        assert forall|i: int| 0 <= i < init.len() implies !(#[trigger] init[i]).contains('/') by {
            assert(init[i] == stack[i]);
        }
        lemma_split_join(init);
        assert(join_with(stack, '/') =~= join_with(init, '/') + seq!['/'] + last);
        lemma_split_slash_concat(join_with(init, '/'), last);
        assert(init + seq![last] =~= stack);
    }
}

/// Joining a name onto a verbatim path adds exactly that name as a last
/// component.
proof fn lemma_verbatim_join_name(base: Seq<char>, name: Seq<char>)
    requires
        starts_verbatim(base),
        is_name(name),
    ensures
        components(verbatim_join(base, name)) == components(base).push(name),
{
    let n = prefix_len(base, true);
    lemma_prefix_len(base, true);
    let pre = base.take(n);
    let body = base.skip(n);
    lemma_split_slash_no_sep(name);
    assert(!has_root(name)) by {
        if has_root(name) {
            assert(name[0] == '/');
        }
    }
    assert(keep_names(seq![name]) =~= seq![name]) by {
        assert(seq![name].drop_first() =~= Seq::<Seq<char>>::empty());
        assert(keep_names(Seq::<Seq<char>>::empty()) =~= Seq::<Seq<char>>::empty());
        assert(seq![name][0] == name);
    }
    let start = nonempty_pieces(split_slash(body));
    assert(push_names(start, seq![name]) == start.push(name)) by {
        reveal_with_fuel(push_names, 2);
        assert(seq![name][0] == name);
        assert(seq![name].drop_first() =~= Seq::<Seq<char>>::empty());
    }
    let stack = start.push(name);
    lemma_split_slash_pieces(body);
    lemma_nonempty_pieces(split_slash(body));
    assert forall|i: int| 0 <= i < stack.len() implies !(#[trigger] stack[i]).contains('/') by {
        if i < start.len() {
            assert(stack[i] == start[i]);
        }
    }
    lemma_split_join(stack);
    let j = join_with(stack, '/');
    let r = verbatim_join(base, name);
    assert(r == pre + seq!['/'] + j);
    lemma_split_slash_concat(pre, j);
    lemma_keep_names_concat(split_slash(pre), stack);
    lemma_keep_names_concat(start, seq![name]);
    let empty_piece: Seq<Seq<char>> = seq![Seq::<char>::empty()];
    assert(keep_names(empty_piece) =~= Seq::<Seq<char>>::empty()) by {
        assert(empty_piece.drop_first() =~= Seq::<Seq<char>>::empty());
        assert(keep_names(Seq::<Seq<char>>::empty()) =~= Seq::<Seq<char>>::empty());
        assert(empty_piece[0] =~= Seq::<char>::empty());
    }
    lemma_split_slash_no_sep(Seq::<char>::empty());
    if body.len() == 0 {
        assert(base =~= pre);
        assert(body =~= Seq::<char>::empty());
        assert(split_slash(body) == empty_piece);
        assert(keep_names(split_slash(base)) =~= keep_names(split_slash(pre)) + keep_names(
            split_slash(body),
        ));
    } else {
        let rest = body.skip(1);
        assert(body =~= Seq::<char>::empty() + seq!['/'] + rest);
        assert(base =~= pre + seq!['/'] + rest);
        lemma_split_slash_concat(pre, rest);
        lemma_split_slash_concat(Seq::<char>::empty(), rest);
        lemma_keep_names_concat(empty_piece, split_slash(rest));
        lemma_keep_names_concat(split_slash(pre), split_slash(rest));
        assert(keep_names(split_slash(body)) =~= keep_names(split_slash(rest)));
    }
    assert(stack =~= start + seq![name]);
    assert(split_slash(r) == split_slash(pre) + stack);
    assert(keep_names(stack) == keep_names(split_slash(body)) + seq![name]);
    assert(keep_names(split_slash(r)) =~= keep_names(split_slash(base)).push(name));
    assert(r[0] == '/' && base[0] == '/');
    assert(!leading_cur_dir(r) && !leading_cur_dir(base));
    assert(components(r) =~= components(base).push(name));
}

/// Joining a file name onto a path gives a path that starts with it. On
/// Windows two joins are left out: a drive alone (`C:` and `x` give
/// `C:x`) and a name that starts like a drive (`c:x`), which replaces the
/// path.
pub proof fn law_join_file_name_starts_with(base: Seq<char>, name: Seq<char>, windows: bool)
    requires
        is_name(name),
        windows ==> !is_bare_drive(base) && !has_drive_prefix(name),
    ensures
        path_starts_with(path_join_on(base, name, windows), base),
{
    assert(name[0] != '/') by {
        if name[0] == '/' {
            assert(name.contains('/'));
        }
    }
    if windows && starts_verbatim(base) {
        lemma_verbatim_join_name(base, name);
        assert(components(base).push(name).take(components(base).len() as int) =~= components(
            base,
        ));
    } else {
        law_join_name_starts_with(base, name);
    }
}

} // verus!
