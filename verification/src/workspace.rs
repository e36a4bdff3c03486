//! Workspace state: the roots the user authorized, the active workspace
//! environment (local or a WSL distro), the custom home directory, and the
//! resolution of paths in the active environment.
use vstd::prelude::*;
use crate::path::{law_starts_with_reflexive, law_starts_with_transitive, path_starts_with, starts_with};
use crate::text::owned;
use crate::wsl::{wsl_path_to_unc, wsl_unc_plan, WslPathPlan};

verus! {

// ---------------------------------------------------------------------------
// Authorized roots
// ---------------------------------------------------------------------------

/// The roots (canonical directory paths) the user opened as workspaces.
/// File operations are allowed below them only.
pub struct WorkspaceRegistry {
    roots: Vec<String>,
}

/// Whether some root of `roots` is `target` or one of its ancestors.
pub open spec fn covers(roots: Set<Seq<char>>, target: Seq<char>) -> bool {
    exists|root: Seq<char>| #[trigger] roots.contains(root) && path_starts_with(target, root)
}

impl View for WorkspaceRegistry {
    type V = Set<Seq<char>>;

    closed spec fn view(&self) -> Set<Seq<char>> {
        Set::new(|r: Seq<char>| exists|i: int| 0 <= i < self.roots@.len() && self.roots@[i]@ == r)
    }
}

impl WorkspaceRegistry {
    /// Each root is recorded once.
    pub closed spec fn wf(&self) -> bool {
        forall|i: int, j: int|
            0 <= i < j < self.roots@.len() ==> #[trigger] self.roots@[i]@ != #[trigger] self.roots@[j]@
    }

    /// The number of distinct roots recorded.
    pub closed spec fn len(&self) -> nat {
        self.roots@.len()
    }

    /// A registry with no root.
    pub fn new() -> (r: Self)
        ensures
            r.wf(),
            r@ == Set::<Seq<char>>::empty(),
            r.len() == 0,
    {
        let r = WorkspaceRegistry { roots: Vec::new() };
        assert(r@ =~= Set::<Seq<char>>::empty());
        r
    }

    /// Records the canonical directory `canonical` as a root.
    pub fn authorize(&mut self, canonical: String)
        requires
            old(self).wf(),
        ensures
            final(self).wf(),
            final(self)@ == old(self)@.insert(canonical@),
            final(self).len() == if old(self)@.contains(canonical@) {
                old(self).len()
            } else {
                old(self).len() + 1
            },
    {
        let ghost before = self.roots@;
        let mut i: usize = 0;
        while i < self.roots.len()
            invariant
                self.roots@ == before,
                self.wf(),
                i <= self.roots.len(),
                forall|j: int| 0 <= j < i ==> self.roots@[j]@ != canonical@,
            decreases self.roots.len() - i,
        {
            if self.roots[i] == canonical {
                assert(old(self)@.contains(canonical@));
                assert(old(self)@.insert(canonical@) =~= old(self)@);
                return;
            }
            i += 1;
        }
        assert(!old(self)@.contains(canonical@));
        self.roots.push(canonical);
        assert(self.roots@[before.len() as int] == canonical);
        assert forall|r: Seq<char>| self@.contains(r) <==> old(self)@.insert(canonical@).contains(
            r,
        ) by {
            if self@.contains(r) {
                let k = choose|k: int| 0 <= k < self.roots@.len() && self.roots@[k]@ == r;
                if k < before.len() {
                    assert(before[k]@ == r);
                }
            }
            if old(self)@.contains(r) {
                let k = choose|k: int| 0 <= k < before.len() && before[k]@ == r;
                assert(self.roots@[k]@ == r);
            }
        }
        assert(self@ =~= old(self)@.insert(canonical@));
    }

    /// Whether `target` lies at or below an authorized root.
    pub fn is_authorized(&self, target: &str) -> (b: bool)
        ensures
            b == covers(self@, target@),
    {
        let mut i: usize = 0;
        while i < self.roots.len()
            invariant
                i <= self.roots.len(),
                forall|j: int|
                    0 <= j < i ==> !path_starts_with(target@, #[trigger] self.roots@[j]@),
            decreases self.roots.len() - i,
        {
            if starts_with(target, self.roots[i].as_str()) {
                assert(self@.contains(self.roots@[i as int]@));
                return true;
            }
            i += 1;
        }
        assert forall|root: Seq<char>| #[trigger] self@.contains(root) implies !path_starts_with(
            target@,
            root,
        ) by {
            let k = choose|k: int| 0 <= k < self.roots@.len() && self.roots@[k]@ == root;
            assert(!path_starts_with(target@, self.roots@[k]@));
        }
        false
    }
}

impl Default for WorkspaceRegistry {
    fn default() -> (r: Self)
        ensures
            r.wf(),
            r@ == Set::<Seq<char>>::empty(),
    {
        WorkspaceRegistry::new()
    }
}

// ---------------------------------------------------------------------------
// Workspace environment
// ---------------------------------------------------------------------------

/// Where the workspace lives: on the local file system, or inside a WSL
/// distro whose POSIX paths are reached through `wsl.exe`.
#[derive(Debug, PartialEq, Eq)]
pub enum WorkspaceEnv {
    Local,
    Wsl { distro: String },
}

impl WorkspaceEnv {
    /// The given environment, or `Local` when there is none.
    pub fn from_option(workspace: Option<Self>) -> (e: Self)
        ensures
            e == match workspace {
                Some(w) => w,
                None => WorkspaceEnv::Local,
            },
    {
        match workspace {
            Some(w) => w,
            None => WorkspaceEnv::Local,
        }
    }

    /// Whether the environment is a WSL distro.
    pub fn is_wsl(&self) -> (b: bool)
        ensures
            b == (self is Wsl),
    {
        match self {
            WorkspaceEnv::Wsl { .. } => true,
            WorkspaceEnv::Local => false,
        }
    }

    /// An equal environment.
    pub fn duplicate(&self) -> (e: Self)
        ensures
            e == *self,
    {
        match self {
            WorkspaceEnv::Local => WorkspaceEnv::Local,
            WorkspaceEnv::Wsl { distro } => WorkspaceEnv::Wsl { distro: distro.clone() },
        }
    }
}

impl Default for WorkspaceEnv {
    fn default() -> (e: Self)
        ensures
            e == WorkspaceEnv::Local,
    {
        WorkspaceEnv::Local
    }
}

/// How `path`, given in the environment `workspace`, is reached from
/// Windows: as is for a local workspace, through the distro's share for WSL.
pub open spec fn resolve_path_plan(path: Seq<char>, workspace: WorkspaceEnv) -> (
    Seq<char>,
    Option<Seq<char>>,
) {
    match workspace {
        WorkspaceEnv::Local => (path, None),
        WorkspaceEnv::Wsl { distro } => wsl_unc_plan(distro@, path),
    }
}

/// Resolves `path` in the environment `workspace`.
pub fn resolve_path(path: &str, workspace: &WorkspaceEnv) -> (plan: WslPathPlan)
    ensures
        plan@ == resolve_path_plan(path@, *workspace),
{
    match workspace {
        WorkspaceEnv::Local => WslPathPlan { primary: owned(path), fallback: None },
        WorkspaceEnv::Wsl { distro } => wsl_path_to_unc(distro.as_str(), path),
    }
}

// ---------------------------------------------------------------------------
// Active environment and custom home
// ---------------------------------------------------------------------------

/// The settings the front end mirrors into the back end: the active
/// workspace environment and the user's home-directory override.
pub struct WorkspaceState {
    env: WorkspaceEnv,
    custom_home: Option<String>,
}

/// The models of an optional string.
pub open spec fn opt_view(o: Option<String>) -> Option<Seq<char>> {
    match o {
        Some(s) => Some(s@),
        None => None,
    }
}

/// The outcome of setting the home override to `path`: the new override,
/// or the error when a non-empty `path` names no directory.
pub open spec fn custom_home_update(path: Option<Seq<char>>, is_dir: bool) -> Result<
    Option<Seq<char>>,
    Seq<char>,
> {
    match path {
        Some(s) => if s.len() == 0 {
            Ok(None)
        } else if !is_dir {
            Err("not a directory: "@ + s)
        } else {
            Ok(Some(s))
        },
        None => Ok(None),
    }
}

impl WorkspaceState {
    /// The active environment.
    pub closed spec fn env(&self) -> WorkspaceEnv {
        self.env
    }

    /// The home-directory override, if any.
    pub closed spec fn custom_home(&self) -> Option<Seq<char>> {
        opt_view(self.custom_home)
    }

    /// The state at start-up: a local workspace and no home override.
    pub fn new() -> (s: Self)
        ensures
            s.env() == WorkspaceEnv::Local,
            s.custom_home() == None::<Seq<char>>,
    {
        WorkspaceState { env: WorkspaceEnv::Local, custom_home: None }
    }

    /// The active environment.
    pub fn active_env(&self) -> (e: WorkspaceEnv)
        ensures
            e == self.env(),
    {
        self.env.duplicate()
    }

    /// Makes `env` the active environment.
    pub fn set_active_env(&mut self, env: WorkspaceEnv)
        ensures
            final(self).env() == env,
            final(self).custom_home() == old(self).custom_home(),
    {
        self.env = env;
    }

    /// The home-directory override, if any.
    pub fn custom_home_path(&self) -> (h: Option<String>)
        ensures
            opt_view(h) == self.custom_home(),
    {
        match &self.custom_home {
            Some(p) => Some(p.clone()),
            None => None,
        }
    }

    /// Sets the home-directory override to `path`; an empty or absent
    /// `path` clears it. `is_dir` tells whether `path` names a directory.
    /// A non-empty `path` that is no directory is refused and nothing changes.
    pub fn set_custom_home(&mut self, path: Option<String>, is_dir: bool) -> (r: Result<(), String>)
        ensures
            final(self).env() == old(self).env(),
            match custom_home_update(opt_view(path), is_dir) {
                Ok(h) => r is Ok && final(self).custom_home() == h,
                Err(msg) => r matches Err(e) && e@ == msg && final(self).custom_home()
                    == old(self).custom_home(),
            },
    {
        let next = match path {
            Some(s) => {
                if s.as_str().is_empty() {
                    None
                } else if !is_dir {
                    let mut msg = owned("not a directory: ");
                    msg.append(s.as_str());
                    return Err(msg);
                } else {
                    Some(s)
                }
            },
            None => None,
        };
        self.custom_home = next;
        Ok(())
    }
}

impl Default for WorkspaceState {
    fn default() -> (s: Self)
        ensures
            s.env() == WorkspaceEnv::Local,
            s.custom_home() == None::<Seq<char>>,
    {
        WorkspaceState::new()
    }
}

// ---------------------------------------------------------------------------
// Laws
// ---------------------------------------------------------------------------

/// No path is authorized before any root is.
pub proof fn law_nothing_authorized_at_first(target: Seq<char>)
    ensures
        !covers(Set::<Seq<char>>::empty(), target),
{
}

/// Once a root is authorized, it and every path below it are authorized.
pub proof fn law_authorize_covers_root(roots: Set<Seq<char>>, root: Seq<char>, target: Seq<char>)
    requires
        path_starts_with(target, root),
    ensures
        covers(roots.insert(root), target),
{
    assert(roots.insert(root).contains(root));
}

/// The authorized root itself is authorized.
pub proof fn law_root_is_authorized(roots: Set<Seq<char>>, root: Seq<char>)
    ensures
        covers(roots.insert(root), root),
{
    law_starts_with_reflexive(root);
    law_authorize_covers_root(roots, root, root);
}

/// Authorizing a root revokes nothing.
pub proof fn law_authorize_monotone(roots: Set<Seq<char>>, root: Seq<char>, target: Seq<char>)
    requires
        covers(roots, target),
    ensures
        covers(roots.insert(root), target),
{
    let r = choose|r: Seq<char>| #[trigger] roots.contains(r) && path_starts_with(target, r);
    assert(roots.insert(root).contains(r));
}

/// A path below an authorized path is authorized.
pub proof fn law_below_authorized(roots: Set<Seq<char>>, dir: Seq<char>, target: Seq<char>)
    requires
        covers(roots, dir),
        path_starts_with(target, dir),
    ensures
        covers(roots, target),
{
    let r = choose|r: Seq<char>| #[trigger] roots.contains(r) && path_starts_with(dir, r);
    law_starts_with_transitive(target, dir, r);
}

/// Setting the home override: a non-empty path that names a directory
/// becomes the override, one that names none is refused, and an empty or
/// absent path clears it.
pub proof fn law_custom_home(path: Option<Seq<char>>, is_dir: bool)
    ensures
        path matches Some(s) ==> (s.len() > 0 && is_dir ==> custom_home_update(path, is_dir)
            == Ok::<Option<Seq<char>>, Seq<char>>(Some(s))),
        path matches Some(s) ==> (s.len() > 0 && !is_dir ==> custom_home_update(
            path,
            is_dir,
        ) is Err),
        path matches Some(s) ==> (s.len() == 0 ==> custom_home_update(path, is_dir) == Ok::<
            Option<Seq<char>>,
            Seq<char>,
        >(None)),
        path is None ==> custom_home_update(path, is_dir) == Ok::<Option<Seq<char>>, Seq<char>>(
            None,
        ),
{
}

/// A local workspace reaches a path as it is, with nothing to fall back to.
pub proof fn law_local_path_as_is(path: Seq<char>)
    ensures
        resolve_path_plan(path, WorkspaceEnv::Local) == (path, None::<Seq<char>>),
{
}

} // verus!
