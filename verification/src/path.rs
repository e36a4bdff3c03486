//! POSIX paths as strings: their components, prefix tests by whole
//! components, and joining. The submodule [`platform`] reads paths as the
//! platform does, Windows prefixes included, for their parent, file name
//! and join.
//!
//! A component is modelled by its text: `"/"` for the root, `"."` for a
//! leading current-directory marker, `".."` for a parent reference, and
//! the name itself otherwise. Names never hold `/` and are never `.` or
//! `..`, so two components are equal exactly when their texts are.
pub mod platform;

use vstd::prelude::*;
use crate::text::{
    chars_eq, chars_of, copy_chars, extend_chars, find_char, lemma_find_char_at,
    lemma_find_char_bounds, string_from, sub_chars, views,
};

verus! {

/// The pieces of `s` between `/` separators (`str::split('/')`).
pub open spec fn split_slash(s: Seq<char>) -> Seq<Seq<char>>
    decreases s.len(),
{
    let k = find_char(s, '/');
    if k < s.len() {
        seq![s.take(k as int)] + split_slash(s.skip(k + 1 as int))
    } else {
        seq![s]
    }
}

/// The pieces that name a component: empty pieces and `.` are dropped.
pub open spec fn keep_names(pieces: Seq<Seq<char>>) -> Seq<Seq<char>>
    decreases pieces.len(),
{
    if pieces.len() == 0 {
        Seq::empty()
    } else {
        let rest = keep_names(pieces.drop_first());
        let p = pieces[0];
        if p.len() == 0 || p == seq!['.'] {
            rest
        } else {
            seq![p] + rest
        }
    }
}

pub open spec fn has_root(p: Seq<char>) -> bool {
    p.len() > 0 && p[0] == '/'
}

/// A relative path that starts with the current directory: `.` or `./...`.
pub open spec fn leading_cur_dir(p: Seq<char>) -> bool {
    !has_root(p) && p.len() > 0 && p[0] == '.' && (p.len() == 1 || p[1] == '/')
}

/// The components of `p`, as `Path::components` yields them on Unix.
pub open spec fn components(p: Seq<char>) -> Seq<Seq<char>> {
    let root: Seq<Seq<char>> = if has_root(p) {
        seq![seq!['/']]
    } else {
        Seq::empty()
    };
    let cur: Seq<Seq<char>> = if leading_cur_dir(p) {
        seq![seq!['.']]
    } else {
        Seq::empty()
    };
    root + cur + keep_names(split_slash(p))
}

/// Whether the components of `base` are the first components of `path`
/// (`Path::starts_with` on Unix: only whole components match).
pub open spec fn path_starts_with(path: Seq<char>, base: Seq<char>) -> bool {
    let pc = components(path);
    let bc = components(base);
    bc.len() <= pc.len() && pc.take(bc.len() as int) == bc
}

/// `base` joined with `rel` (`Path::join` on Unix): an absolute `rel`
/// replaces `base`; otherwise a `/` goes between them unless `base` is
/// empty or already ends with one.
pub open spec fn path_join(base: Seq<char>, rel: Seq<char>) -> Seq<char> {
    if has_root(rel) {
        rel
    } else if base.len() > 0 && base.last() != '/' {
        base.push('/') + rel
    } else {
        base + rel
    }
}

/// Whether `p` starts with a Windows drive prefix such as `C:`.
pub open spec fn has_drive_prefix(p: Seq<char>) -> bool {
    &&& p.len() >= 2
    &&& ('a' <= p[0] <= 'z' || 'A' <= p[0] <= 'Z')
    &&& p[1] == ':'
}

/// Whether a piece names a component.
fn is_name_piece(p: &[char]) -> (b: bool)
    ensures
        b == !(p@.len() == 0 || p@ == seq!['.']),
{
    if p.len() == 0 {
        return false;
    }
    if p.len() == 1 && p[0] == '.' {
        assert(p@ =~= seq!['.']);
        return false;
    }
    if p.len() == 1 {
        assert(p@ != seq!['.']) by {
            assert(p@[0] != seq!['.'][0]);
        }
    }
    true
}

/// The components of the path `v`.
pub fn path_components(v: &[char]) -> (out: Vec<Vec<char>>)
    ensures
        views(out@) == components(v@),
{
    let ghost s = v@;
    let mut out: Vec<Vec<char>> = Vec::new();
    let rooted = v.len() > 0 && v[0] == '/';
    if rooted {
        let mut r: Vec<char> = Vec::new();
        r.push('/');
        out.push(r);
    } else if v.len() > 0 && v[0] == '.' && (v.len() == 1 || v[1] == '/') {
        let mut c: Vec<char> = Vec::new();
        c.push('.');
        out.push(c);
    }
    let ghost head = views(out@);
    assert(head =~= (if has_root(s) {
        seq![seq!['/']]
    } else {
        Seq::<Seq<char>>::empty()
    }) + (if leading_cur_dir(s) {
        seq![seq!['.']]
    } else {
        Seq::<Seq<char>>::empty()
    }));
    // Pieces from position `i` on; `names` collects those kept so far.
    let mut names: Vec<Vec<char>> = Vec::new();
    let mut i: usize = 0;
    assert(s.skip(0) =~= s);
    loop
        invariant_except_break
            s == v@,
            i <= v.len(),
            keep_names(split_slash(s)) == views(names@) + keep_names(split_slash(s.skip(i as int))),
        ensures
            keep_names(split_slash(s)) == views(names@),
        decreases v.len() - i,
    {
        let ghost rest = s.skip(i as int);
        let mut k = i;
        while k < v.len() && v[k] != '/'
            invariant
                s == v@,
                i <= k <= v.len(),
                rest == s.skip(i as int),
                forall|j: int| 0 <= j < k - i ==> rest[j] != '/',
            decreases v.len() - k,
        {
            assert(rest[k - i] == v@[k as int]);
            k += 1;
        }
        proof {
            if k < v.len() {
                assert(rest[k - i] == v@[k as int]);
            }
            lemma_find_char_at(rest, '/', k - i);
        }
        let piece = sub_chars(v, i, k);
        assert(piece@ =~= rest.take(k - i));
        let keep = is_name_piece(&piece);
        let ghost before = names@;
        if keep {
            names.push(piece);
        }
        if k < v.len() {
            proof {
                assert(rest.skip(k - i + 1) =~= s.skip(k + 1));
                let pieces = split_slash(rest);
                assert(pieces == seq![piece@] + split_slash(s.skip(k + 1)));
                assert(pieces.drop_first() =~= split_slash(s.skip(k + 1)));
                assert(pieces[0] == piece@);
                if keep {
                    assert(views(names@) =~= views(before).push(piece@));
                    assert(views(names@) + keep_names(split_slash(s.skip(k + 1))) =~= views(
                        before,
                    ) + (seq![piece@] + keep_names(split_slash(s.skip(k + 1)))));
                } else {
                    assert(views(names@) == views(before));
                }
            }
            i = k + 1;
        } else {
            proof {
                let pieces = split_slash(rest);
                assert(pieces == seq![rest]);
                assert(rest =~= piece@);
                assert(pieces.drop_first() =~= Seq::<Seq<char>>::empty());
                assert(keep_names(Seq::<Seq<char>>::empty()) =~= Seq::<Seq<char>>::empty());
                if keep {
                    assert(views(names@) =~= views(before).push(piece@));
                    assert(keep_names(pieces) =~= seq![piece@]);
                } else {
                    assert(keep_names(pieces) =~= Seq::<Seq<char>>::empty());
                }
                assert(views(names@) =~= views(before) + keep_names(pieces));
                assert(views(before) + keep_names(pieces) == keep_names(split_slash(s)));
            }
            break;
        }
    }
    let mut j: usize = 0;
    let ghost mid = views(out@);
    while j < names.len()
        invariant
            j <= names.len(),
            views(out@) == mid + views(names@).take(j as int),
        decreases names.len() - j,
    {
        let ghost before = out@;
        out.push(copy_chars(names[j].as_slice()));
        assert(views(out@) =~= views(before).push(names@[j as int]@));
        assert(views(names@).take(j + 1) =~= views(names@).take(j as int).push(
            names@[j as int]@,
        ));
        j += 1;
    }
    assert(views(names@).take(names.len() as int) =~= views(names@));
    out
}

/// Whether the path `path` starts with the path `base`, by whole components.
pub fn starts_with(path: &str, base: &str) -> (b: bool)
    ensures
        b == path_starts_with(path@, base@),
{
    let pc = path_components(&chars_of(path));
    let bc = path_components(&chars_of(base));
    if bc.len() > pc.len() {
        return false;
    }
    let mut i: usize = 0;
    while i < bc.len()
        invariant
            views(pc@) == components(path@),
            views(bc@) == components(base@),
            i <= bc.len() <= pc.len(),
            forall|j: int| 0 <= j < i ==> views(pc@)[j] == views(bc@)[j],
        decreases bc.len() - i,
    {
        assert(views(pc@)[i as int] == pc@[i as int]@);
        assert(views(bc@)[i as int] == bc@[i as int]@);
        if !chars_eq(pc[i].as_slice(), bc[i].as_slice()) {
            assert(views(pc@).take(bc.len() as int)[i as int] == views(pc@)[i as int]);
            assert(views(pc@).take(bc.len() as int) != views(bc@));
            return false;
        }
        i += 1;
    }
    assert(views(pc@).take(bc.len() as int) =~= views(bc@));
    true
}

/// `base` joined with `rel`.
pub fn join(base: &str, rel: &str) -> (p: String)
    ensures
        p@ == path_join(base@, rel@),
{
    let b = chars_of(base);
    let r = chars_of(rel);
    if r.len() > 0 && r[0] == '/' {
        return string_from(&r);
    }
    let mut out = b;
    if out.len() > 0 && out[out.len() - 1] != '/' {
        out.push('/');
    }
    extend_chars(&mut out, &r);
    string_from(&out)
}

// ---------------------------------------------------------------------------
// Laws
// ---------------------------------------------------------------------------

/// Every path starts with itself.
pub proof fn law_starts_with_reflexive(p: Seq<char>)
    ensures
        path_starts_with(p, p),
{
    assert(components(p).take(components(p).len() as int) =~= components(p));
}

/// Starting with, by whole components, is transitive.
pub proof fn law_starts_with_transitive(a: Seq<char>, b: Seq<char>, c: Seq<char>)
    requires
        path_starts_with(a, b),
        path_starts_with(b, c),
    ensures
        path_starts_with(a, c),
{
    let ca = components(a);
    let cb = components(b);
    let cc = components(c);
    assert(ca.take(cc.len() as int) =~= cb.take(cc.len() as int)) by {
        assert forall|i: int| 0 <= i < cc.len() implies ca.take(cc.len() as int)[i] == cb.take(
            cc.len() as int,
        )[i] by {
            assert(ca.take(cb.len() as int)[i] == cb[i]);
        }
    }
}

/// Splitting at a `/` between two texts splits them apart.
pub proof fn lemma_split_slash_concat(x: Seq<char>, y: Seq<char>)
    ensures
        split_slash(x + seq!['/'] + y) == split_slash(x) + split_slash(y),
    decreases x.len(),
{
    let s = x + seq!['/'] + y;
    let k: int = find_char(x, '/') as int;
    lemma_find_char_bounds(x, '/');
    if k < x.len() {
        lemma_find_char_prefix(x, seq!['/'] + y, '/');
        assert(s =~= x + (seq!['/'] + y));
        assert(find_char(s, '/') == k);
        assert(s.take(k) =~= x.take(k));
        assert(s.skip(k + 1) =~= x.skip(k + 1) + seq!['/'] + y);
        lemma_split_slash_concat(x.skip(k + 1), y);
        assert(split_slash(s) == seq![x.take(k)] + split_slash(x.skip(k + 1) + seq!['/'] + y));
        assert(split_slash(x) == seq![x.take(k)] + split_slash(x.skip(k + 1)));
        assert(split_slash(s) =~= split_slash(x) + split_slash(y));
    } else {
        lemma_find_char_prefix(x, seq!['/'] + y, '/');
        assert(s =~= x + (seq!['/'] + y));
        assert(find_char(s, '/') == x.len());
        assert(s.take(x.len() as int) =~= x);
        assert(s.skip(x.len() + 1 as int) =~= y);
        assert(split_slash(x) == seq![x]);
        assert(split_slash(s) =~= split_slash(x) + split_slash(y));
    }
}

/// The first `c` of `x + y` is that of `x` when `x` has one; otherwise it
/// lies in `y`.
proof fn lemma_find_char_prefix(x: Seq<char>, y: Seq<char>, c: char)
    ensures
        find_char(x, c) < x.len() ==> find_char(x + y, c) == find_char(x, c),
        find_char(x, c) == x.len() ==> find_char(x + y, c) == x.len() + find_char(y, c),
    decreases x.len(),
{
    if x.len() > 0 {
        assert((x + y).drop_first() =~= x.drop_first() + y);
        assert((x + y)[0] == x[0]);
        lemma_find_char_prefix(x.drop_first(), y, c);
    } else {
        assert(x + y =~= y);
    }
}

/// Keeping the names of two runs of pieces keeps them run by run.
pub proof fn lemma_keep_names_concat(a: Seq<Seq<char>>, b: Seq<Seq<char>>)
    ensures
        keep_names(a + b) == keep_names(a) + keep_names(b),
    decreases a.len(),
{
    if a.len() == 0 {
        assert(a + b =~= b);
        assert(keep_names(a) + keep_names(b) =~= keep_names(b));
    } else {
        assert((a + b).drop_first() =~= a.drop_first() + b);
        assert((a + b)[0] == a[0]);
        lemma_keep_names_concat(a.drop_first(), b);
        if a[0].len() == 0 || a[0] == seq!['.'] {
        } else {
            assert(seq![a[0]] + (keep_names(a.drop_first()) + keep_names(b)) =~= (seq![a[0]]
                + keep_names(a.drop_first())) + keep_names(b));
        }
    }
}

/// A component name: non-empty, without `/`, and neither `.` nor `..`.
pub open spec fn is_name(n: Seq<char>) -> bool {
    &&& n.len() > 0
    &&& !n.contains('/')
    &&& n != seq!['.']
    &&& n != seq!['.', '.']
}

pub proof fn lemma_split_slash_no_sep(n: Seq<char>)
    requires
        !n.contains('/'),
    ensures
        split_slash(n) == seq![n],
{
    lemma_find_char_bounds(n, '/');
    if find_char(n, '/') < n.len() {
        assert(n.contains('/'));
    }
}

/// Joining a name onto a path adds exactly that name as a last component.
pub proof fn law_join_name(base: Seq<char>, name: Seq<char>)
    requires
        is_name(name),
    ensures
        components(path_join(base, name)) == components(base).push(name),
{
    let j = path_join(base, name);
    lemma_split_slash_no_sep(name);
    assert(!has_root(name)) by {
        if has_root(name) {
            assert(name.contains('/'));
        }
    }
    assert(keep_names(seq![name]) =~= seq![name]) by {
        assert(seq![name].drop_first() =~= Seq::<Seq<char>>::empty());
        assert(keep_names(Seq::<Seq<char>>::empty()) =~= Seq::<Seq<char>>::empty());
        assert(seq![name][0] == name);
    }
    if base.len() > 0 && base.last() != '/' {
        assert(j =~= base + seq!['/'] + name);
        lemma_split_slash_concat(base, name);
        lemma_keep_names_concat(split_slash(base), seq![name]);
        assert(has_root(j) == has_root(base));
        assert(leading_cur_dir(j) == leading_cur_dir(base)) by {
            if base.len() == 1 {
                assert(j[1] == '/');
            } else {
                assert(j[1] == base[1]);
            }
            assert(j[0] == base[0]);
        }
    } else if base.len() == 0 {
        assert(j =~= name);
        assert(!leading_cur_dir(name)) by {
            if leading_cur_dir(name) {
                if name.len() == 1 {
                    assert(name =~= seq!['.']);
                } else {
                    assert(name.contains('/'));
                }
            }
        }
        assert(components(base) =~= Seq::<Seq<char>>::empty()) by {
            assert(split_slash(base) == seq![base]);
            assert(keep_names(seq![base]) =~= Seq::<Seq<char>>::empty()) by {
                assert(seq![base].drop_first() =~= Seq::<Seq<char>>::empty());
                assert(keep_names(Seq::<Seq<char>>::empty()) =~= Seq::<Seq<char>>::empty());
                assert(seq![base][0] == base);
            }
        }
        assert(components(j) =~= seq![name]);
    } else {
        // `base` ends with `/`.
        let b0 = base.drop_last();
        assert(base =~= b0 + seq!['/'] + Seq::<char>::empty());
        assert(j =~= b0 + seq!['/'] + name);
        lemma_split_slash_concat(b0, Seq::<char>::empty());
        lemma_split_slash_concat(b0, name);
        lemma_split_slash_no_sep(Seq::<char>::empty());
        lemma_keep_names_concat(split_slash(b0), seq![Seq::<char>::empty()]);
        lemma_keep_names_concat(split_slash(b0), seq![name]);
        assert(keep_names(seq![Seq::<char>::empty()]) =~= Seq::<Seq<char>>::empty()) by {
            assert(seq![Seq::<char>::empty()].drop_first() =~= Seq::<Seq<char>>::empty());
            assert(keep_names(Seq::<Seq<char>>::empty()) =~= Seq::<Seq<char>>::empty());
        }
        assert(has_root(j) == has_root(base)) by {
            assert(j[0] == base[0]);
        }
        assert(leading_cur_dir(j) == leading_cur_dir(base)) by {
            assert(j[0] == base[0]);
            if base.len() > 1 {
                assert(j[1] == base[1]);
            }
        }
    }
    assert(components(j) =~= components(base).push(name));
}

/// A path starts with any path whose components lead up to it.
pub proof fn law_join_name_starts_with(base: Seq<char>, name: Seq<char>)
    requires
        is_name(name),
    ensures
        path_starts_with(path_join(base, name), base),
{
    law_join_name(base, name);
    assert(components(base).push(name).take(components(base).len() as int) =~= components(base));
}

/// The names kept from the pieces of a path are component names, `..` aside.
proof fn lemma_keep_names_are_names(pieces: Seq<Seq<char>>)
    requires
        forall|i: int| 0 <= i < pieces.len() ==> !(#[trigger] pieces[i]).contains('/'),
    ensures
        forall|i: int|
            0 <= i < keep_names(pieces).len() ==> #[trigger] keep_names(pieces)[i] == seq!['.', '.']
                || is_name(keep_names(pieces)[i]),
    decreases pieces.len(),
{
    if pieces.len() > 0 {
        assert forall|i: int| 0 <= i < pieces.drop_first().len() implies !(
        #[trigger] pieces.drop_first()[i]).contains('/') by {
            assert(pieces.drop_first()[i] == pieces[i + 1]);
        }
        lemma_keep_names_are_names(pieces.drop_first());
        let p = pieces[0];
        let rest = keep_names(pieces.drop_first());
        assert(!p.contains('/'));
        if !(p.len() == 0 || p == seq!['.']) {
            let ks = keep_names(pieces);
            assert(ks == seq![p] + rest);
            assert forall|i: int| 0 <= i < ks.len() implies #[trigger] ks[i] == seq!['.', '.']
                || is_name(ks[i]) by {
                if i == 0 {
                    assert(ks[0] == p);
                } else {
                    assert(ks[i] == rest[i - 1]);
                }
            }
        }
    }
}

pub proof fn lemma_split_slash_pieces(s: Seq<char>)
    ensures
        forall|i: int| 0 <= i < split_slash(s).len() ==> !(#[trigger] split_slash(s)[i]).contains(
            '/',
        ),
    decreases s.len(),
{
    lemma_find_char_bounds(s, '/');
    let k: int = find_char(s, '/') as int;
    if k < s.len() {
        lemma_split_slash_pieces(s.skip(k + 1));
        let rest = split_slash(s.skip(k + 1));
        assert forall|i: int| 0 <= i < split_slash(s).len() implies !(
        #[trigger] split_slash(s)[i]).contains('/') by {
            if i == 0 {
                assert(split_slash(s)[0] == s.take(k));
                if s.take(k).contains('/') {
                    let j = choose|j: int| 0 <= j < s.take(k).len() && s.take(k)[j] == '/';
                    assert(s[j] == '/');
                }
            } else {
                assert(split_slash(s)[i] == rest[i - 1]);
            }
        }
    } else {
        assert forall|i: int| 0 <= i < split_slash(s).len() implies !(
        #[trigger] split_slash(s)[i]).contains('/') by {
            assert(split_slash(s)[i] == s);
            if s.contains('/') {
                let j = choose|j: int| 0 <= j < s.len() && s[j] == '/';
                assert(s[j] == '/');
            }
        }
    }
}

} // verus!
