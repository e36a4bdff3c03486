//! Helpers for the source-control views: upstream names, displayed paths,
//! and the checks that keep repository paths inside authorized workspaces.
//!
//! The file-system work (whether a path is a directory, its canonical
//! form) is done by the caller; these functions take its outcome and
//! decide.
use vstd::prelude::*;
use crate::git::errors::{canon_view, outcome, GitError, GitFailure, IoFailure};
use crate::path::platform::{
    file_name, has_drive_prefix_name, is_bare_drive, join_on, law_file_name_is_name,
    law_join_file_name_starts_with, parent, path_file_name_on, path_join_on, path_parent_on,
};
use crate::path::{has_root, law_starts_with_transitive, path_starts_with, starts_with};
use crate::text::{
    chars_of, find_char, lemma_find_char_at, lemma_find_char_bounds, owned, replace_char,
    replace_chars, string_from, sub_chars,
};
use crate::workspace::{covers, WorkspaceEnv, WorkspaceRegistry};

verus! {

/// The remote and branch of an upstream name `remote/branch`: split at
/// the first `/`; without one, the whole name is the branch.
pub open spec fn upstream_parts(u: Seq<char>) -> (Option<Seq<char>>, Option<Seq<char>>) {
    let k = find_char(u, '/');
    if k < u.len() {
        (Some(u.take(k as int)), Some(u.skip(k + 1 as int)))
    } else {
        (None, Some(u))
    }
}

/// Splits an upstream name into remote and branch.
pub fn split_upstream(upstream: &str) -> (r: (Option<String>, Option<String>))
    ensures
        (match r.0 {
            Some(s) => Some(s@),
            None => None,
        }, match r.1 {
            Some(s) => Some(s@),
            None => None,
        }) == upstream_parts(upstream@),
{
    let v = chars_of(upstream);
    let mut k: usize = 0;
    while k < v.len() && v[k] != '/'
        invariant
            k <= v.len(),
            forall|j: int| 0 <= j < k ==> v@[j] != '/',
        decreases v.len() - k,
    {
        k += 1;
    }
    proof {
        lemma_find_char_at(v@, '/', k as int);
    }
    if k < v.len() {
        let remote = sub_chars(&v, 0, k);
        let branch = sub_chars(&v, k + 1, v.len());
        assert(remote@ =~= v@.take(k as int));
        assert(branch@ =~= v@.skip(k + 1));
        (Some(string_from(&remote)), Some(string_from(&branch)))
    } else {
        (None, Some(owned(upstream)))
    }
}

/// A path as the front end shows it: every `\` turned into `/`.
pub fn display_path(path: &str) -> (s: String)
    ensures
        s@ == replace_char(path@, '\\', '/'),
{
    string_from(&replace_chars(&chars_of(path), '\\', '/'))
}

/// A path that looks like a WSL POSIX absolute path: it starts with `/`
/// and holds no `\`.
pub open spec fn posix_path(p: Seq<char>) -> bool {
    has_root(p) && !p.contains('\\')
}

/// Whether `path` looks like a WSL POSIX absolute path
/// (`/home/user/...`, `/mnt/c/...`, `/tmp/foo`).
pub fn is_wsl_posix_path(path: &str) -> (b: bool)
    ensures
        b == posix_path(path@),
{
    let v = chars_of(path);
    if v.len() == 0 || v[0] != '/' {
        return false;
    }
    let mut i: usize = 0;
    while i < v.len()
        invariant
            v@ == path@,
            i <= v.len(),
            forall|j: int| 0 <= j < i ==> v@[j] != '\\',
        decreases v.len() - i,
    {
        if v[i] == '\\' {
            assert(v@.contains('\\')) by {
                assert(v@[i as int] == '\\');
            }
            return false;
        }
        i += 1;
    }
    true
}

/// A POSIX path while a WSL workspace is active: Windows cannot check it,
/// so it is taken as given and git inside the distro validates it.
pub open spec fn wsl_passthrough(path: Seq<char>, env: WorkspaceEnv) -> bool {
    posix_path(path) && env is Wsl
}

/// What the file system says of a directory path: it names no directory,
/// or it does and canonicalizing it gave this outcome.
pub enum DirProbe {
    NotADirectory,
    Directory(Result<String, IoFailure>),
}

/// The canonical form of the directory `path`.
pub open spec fn canonical_dir_outcome(path: Seq<char>, env: WorkspaceEnv, probe: DirProbe) -> Result<
    Seq<char>,
    GitFailure,
> {
    if wsl_passthrough(path, env) {
        Ok(path)
    } else {
        match probe {
            DirProbe::NotADirectory => Err(GitFailure::NotADirectory(path)),
            DirProbe::Directory(c) => match canon_view(c) {
                Ok(p) => Ok(p),
                Err(f) => Err(GitFailure::Io(f.1)),
            },
        }
    }
}

/// The canonical form of the directory `path`, given the active
/// environment `env` and what the file system says of `path`.
pub fn canonical_dir(path: &str, env: &WorkspaceEnv, probe: DirProbe) -> (r: Result<
    String,
    GitError,
>)
    ensures
        outcome(r) == canonical_dir_outcome(path@, *env, probe),
{
    if is_wsl_posix_path(path) && env.is_wsl() {
        return Ok(owned(path));
    }
    match probe {
        DirProbe::NotADirectory => Err(GitError::NotADirectory(owned(path))),
        DirProbe::Directory(Ok(p)) => Ok(p),
        DirProbe::Directory(Err(f)) => Err(GitError::Io(f.message)),
    }
}

/// The repository root `path`, once it is known to lie in an authorized
/// workspace.
pub open spec fn authorized_root_outcome(
    roots: Set<Seq<char>>,
    path: Seq<char>,
    env: WorkspaceEnv,
    probe: DirProbe,
) -> Result<Seq<char>, GitFailure> {
    if wsl_passthrough(path, env) {
        Ok(path)
    } else {
        match canonical_dir_outcome(path, env, probe) {
            Err(e) => Err(e),
            Ok(c) => if covers(roots, c) {
                Ok(c)
            } else {
                Err(GitFailure::PathOutsideWorkspace(c))
            },
        }
    }
}

/// The canonical repository root `path`, refused unless it lies in a
/// workspace of `registry`.
pub fn authorized_repo_root(
    registry: &WorkspaceRegistry,
    path: &str,
    env: &WorkspaceEnv,
    probe: DirProbe,
) -> (r: Result<String, GitError>)
    ensures
        outcome(r) == authorized_root_outcome(registry@, path@, *env, probe),
{
    if is_wsl_posix_path(path) && env.is_wsl() {
        return Ok(owned(path));
    }
    let canonical = match canonical_dir(path, env, probe) {
        Ok(c) => c,
        Err(e) => return Err(e),
    };
    if !registry.is_authorized(canonical.as_str()) {
        return Err(GitError::PathOutsideWorkspace(canonical));
    }
    Ok(canonical)
}

/// The file `rel` of the repository `repo_root` once its parent directory
/// is canonical: `joined` is `repo_root` joined with `rel`, and `parent`
/// the outcome of canonicalizing the parent of `joined` (paths read as on
/// Windows when `windows` holds).
pub open spec fn parent_outcome(
    repo_root: Seq<char>,
    joined: Seq<char>,
    rel: Seq<char>,
    windows: bool,
    parent: Result<Seq<char>, (bool, Seq<char>)>,
) -> Result<Seq<char>, GitFailure> {
    match path_parent_on(joined, windows) {
        None => Err(GitFailure::InvalidPath(rel)),
        Some(_) => match parent {
            Err(f) => Err(GitFailure::Io(f.1)),
            Ok(cp) => if !path_starts_with(cp, repo_root) {
                Err(GitFailure::PathOutsideWorkspace(cp))
            } else {
                match path_file_name_on(joined, windows) {
                    None => Err(GitFailure::InvalidPath(rel)),
                    Some(name) => Ok(path_join_on(cp, name, windows)),
                }
            },
        },
    }
}

/// The canonical path of `rel` inside the repository `repo_root`, refused
/// when it leaves the repository. `joined` is the outcome of
/// canonicalizing `repo_root` joined with `rel` (as on Windows when
/// `windows` holds); when that path does not exist, the file is placed in
/// its canonical parent directory, whose canonicalization gave `parent`.
pub open spec fn within_repo_outcome(
    repo_root: Seq<char>,
    rel: Seq<char>,
    windows: bool,
    joined: Result<Seq<char>, (bool, Seq<char>)>,
    parent: Result<Seq<char>, (bool, Seq<char>)>,
) -> Result<Seq<char>, GitFailure> {
    if rel.len() == 0 {
        Err(GitFailure::InvalidPath(rel))
    } else {
        match joined {
            Ok(c) => if path_starts_with(c, repo_root) {
                Ok(c)
            } else {
                Err(GitFailure::PathOutsideWorkspace(c))
            },
            Err(f) => if f.0 {
                parent_outcome(repo_root, path_join_on(repo_root, rel, windows), rel, windows, parent)
            } else {
                Err(GitFailure::Io(f.1))
            },
        }
    }
}

/// Places a missing file in the canonical parent directory.
fn canonicalize_parent(
    repo_root: &str,
    joined: &str,
    rel: &str,
    windows: bool,
    canonical_parent: Result<String, IoFailure>,
) -> (r: Result<String, GitError>)
    ensures
        outcome(r) == parent_outcome(
            repo_root@,
            joined@,
            rel@,
            windows,
            canon_view(canonical_parent),
        ),
{
    match parent(joined, windows) {
        None => return Err(GitError::InvalidPath(owned(rel))),
        Some(_) => {},
    }
    let cp = match canonical_parent {
        Ok(p) => p,
        Err(f) => return Err(GitError::Io(f.message)),
    };
    if !starts_with(cp.as_str(), repo_root) {
        return Err(GitError::PathOutsideWorkspace(cp));
    }
    match file_name(joined, windows) {
        None => Err(GitError::InvalidPath(owned(rel))),
        Some(name) => Ok(join_on(cp.as_str(), name.as_str(), windows)),
    }
}

/// The canonical path of `rel` inside the repository `repo_root`, given
/// the outcomes of canonicalizing `repo_root` joined with `rel` (as on
/// Windows when `windows` holds), and the parent of that path (the latter
/// is read only when the former does not exist).
pub fn resolve_within_repo(
    repo_root: &str,
    rel: &str,
    windows: bool,
    joined: Result<String, IoFailure>,
    parent: Result<String, IoFailure>,
) -> (r: Result<String, GitError>)
    ensures
        outcome(r) == within_repo_outcome(
            repo_root@,
            rel@,
            windows,
            canon_view(joined),
            canon_view(parent),
        ),
{
    if rel.is_empty() {
        return Err(GitError::InvalidPath(owned(rel)));
    }
    let canonical = match joined {
        Ok(c) => c,
        Err(f) => {
            if f.not_found {
                let joined_path = join_on(repo_root, rel, windows);
                return canonicalize_parent(repo_root, joined_path.as_str(), rel, windows, parent);
            }
            return Err(GitError::Io(f.message));
        },
    };
    if !starts_with(canonical.as_str(), repo_root) {
        return Err(GitError::PathOutsideWorkspace(canonical));
    }
    Ok(canonical)
}

// ---------------------------------------------------------------------------
// Laws
// ---------------------------------------------------------------------------

/// A path `resolve_within_repo` accepts lies inside the repository,
/// whichever way it was found. On Windows two inputs are left out: a
/// missing file whose name starts like a drive (`c:x`), which the join
/// takes for a path of its own, and a canonical parent that is a drive
/// alone (`C:`), which the file name extends without a separator.
pub proof fn law_resolved_path_within_repo(
    repo_root: Seq<char>,
    rel: Seq<char>,
    windows: bool,
    joined: Result<Seq<char>, (bool, Seq<char>)>,
    parent: Result<Seq<char>, (bool, Seq<char>)>,
)
    requires
        windows ==> !has_drive_prefix_name(path_join_on(repo_root, rel, true)),
        windows ==> !(parent matches Ok(cp) && is_bare_drive(cp)),
    ensures
        within_repo_outcome(repo_root, rel, windows, joined, parent) matches Ok(p)
            ==> path_starts_with(p, repo_root),
{
    if rel.len() > 0 {
        if let Err(f) = joined {
            if f.0 {
                let j = path_join_on(repo_root, rel, windows);
                if let (Some(_), Ok(cp)) = (path_parent_on(j, windows), parent) {
                    if path_starts_with(cp, repo_root) {
                        law_file_name_is_name(j, windows);
                        if let Some(name) = path_file_name_on(j, windows) {
                            law_join_file_name_starts_with(cp, name, windows);
                            law_starts_with_transitive(
                                path_join_on(cp, name, windows),
                                cp,
                                repo_root,
                            );
                        }
                    }
                }
            }
        }
    }
}

/// A repository root that `authorized_repo_root` accepts lies in an
/// authorized workspace, unless it is a POSIX path taken as given while a
/// WSL workspace is active.
pub proof fn law_accepted_root_is_authorized(
    roots: Set<Seq<char>>,
    path: Seq<char>,
    env: WorkspaceEnv,
    probe: DirProbe,
)
    ensures
        authorized_root_outcome(roots, path, env, probe) matches Ok(p) ==> (wsl_passthrough(
            path,
            env,
        ) && p == path) || covers(roots, p),
{
}

/// An upstream name split into remote and branch is the two joined by `/`,
/// and the remote holds no `/`.
pub proof fn law_split_upstream_rejoins(u: Seq<char>)
    ensures
        upstream_parts(u) matches (Some(remote), Some(branch)) ==> remote.push('/') + branch == u
            && !remote.contains('/'),
        upstream_parts(u) matches (None, Some(branch)) ==> branch == u && !u.contains('/'),
{
    lemma_find_char_bounds(u, '/');
    let k = find_char(u, '/') as int;
    if k < u.len() {
        assert(u.take(k).push('/') + u.skip(k + 1) =~= u);
        if u.take(k).contains('/') {
            let j = choose|j: int| 0 <= j < u.take(k).len() && u.take(k)[j] == '/';
            assert(u[j] == '/');
        }
    } else if u.contains('/') {
        let j = choose|j: int| 0 <= j < u.len() && u[j] == '/';
        assert(u[j] == '/');
    }
}

/// A displayed path holds no `\`, and displaying it again changes nothing.
pub proof fn law_display_path_normal(p: Seq<char>)
    ensures
        !replace_char(p, '\\', '/').contains('\\'),
        replace_char(replace_char(p, '\\', '/'), '\\', '/') == replace_char(p, '\\', '/'),
{
    let d = replace_char(p, '\\', '/');
    assert(replace_char(d, '\\', '/') =~= d);
    if d.contains('\\') {
        let j = choose|j: int| 0 <= j < d.len() && d[j] == '\\';
        assert(d[j] == '\\');
    }
}

/// In a WSL workspace every path that starts with `/` and holds no `\`
/// (`/home/me/repo`, `/mnt/c/Users/me/repo`, `/tmp/foo`) is taken as given,
/// both as a canonical directory and as an authorized repository root,
/// whatever the file system and the registry say.
pub proof fn law_wsl_posix_paths_pass(
    roots: Set<Seq<char>>,
    path: Seq<char>,
    env: WorkspaceEnv,
    probe: DirProbe,
)
    requires
        env is Wsl,
        path.len() > 0,
        path[0] == '/',
        forall|i: int| 0 <= i < path.len() ==> path[i] != '\\',
    ensures
        canonical_dir_outcome(path, env, probe) == Ok::<
            Seq<char>,
            GitFailure,
        >(path),
        authorized_root_outcome(roots, path, env, probe) == Ok::<
            Seq<char>,
            GitFailure,
        >(path),
{
    assert(!path.contains('\\'));
}

/// What `resolve_within_repo` accepts: a non-empty `rel` whose joined path
/// canonicalizes to a path inside the repository gives that path, and one
/// outside is refused with it; a missing file whose canonical parent lies
/// inside the repository is that parent joined with its file name.
pub proof fn law_resolve_accepts_inside(
    repo_root: Seq<char>,
    rel: Seq<char>,
    windows: bool,
    joined: Result<Seq<char>, (bool, Seq<char>)>,
    parent: Result<Seq<char>, (bool, Seq<char>)>,
)
    requires
        rel.len() > 0,
    ensures
        joined matches Ok(c) ==> (path_starts_with(c, repo_root) ==> within_repo_outcome(
            repo_root,
            rel,
            windows,
            joined,
            parent,
        ) == Ok::<Seq<char>, GitFailure>(c)),
        joined matches Ok(c) ==> (!path_starts_with(c, repo_root) ==> within_repo_outcome(
            repo_root,
            rel,
            windows,
            joined,
            parent,
        ) == Err::<Seq<char>, GitFailure>(GitFailure::PathOutsideWorkspace(c))),
        joined matches Err(f) ==> (parent matches Ok(cp) ==> (path_file_name_on(
            path_join_on(repo_root, rel, windows),
            windows,
        ) matches Some(n) ==> (f.0 && path_parent_on(path_join_on(repo_root, rel, windows), windows)
            is Some && path_starts_with(cp, repo_root) ==> within_repo_outcome(
            repo_root,
            rel,
            windows,
            joined,
            parent,
        ) == Ok::<Seq<char>, GitFailure>(path_join_on(cp, n, windows))))),
{
}

/// Displaying a path turns each `\` into `/` and keeps every other
/// character where it is.
pub proof fn law_display_path_chars(p: Seq<char>)
    ensures
        replace_char(p, '\\', '/').len() == p.len(),
        forall|i: int|
            0 <= i < p.len() ==> #[trigger] replace_char(p, '\\', '/')[i] == if p[i] == '\\' {
                '/'
            } else {
                p[i]
            },
{
}

} // verus!
