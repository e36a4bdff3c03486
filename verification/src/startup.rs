//! The initial workspace path given on the command line, in one of the
//! forms `-path DIR`, `--path DIR`, `--path=DIR`, `-path=DIR` or a bare
//! `DIR`. Only an existing directory is accepted; anything else leaves the
//! start-up path unset.
//!
//! Whether a value names a directory is asked of the file system by the
//! caller: `scan_args` finds the next value to check, and
//! `ArgScan::settle` decides from the answer whether parsing is over or
//! resumes further on.
use vstd::prelude::*;
use crate::text::{chars_eq, chars_of, owned, string_from, sub_chars};

verus! {

/// `--`, the separator that is skipped.
pub open spec fn dash_dash() -> Seq<char> {
    seq!['-', '-']
}

/// `-path`.
pub open spec fn short_flag() -> Seq<char> {
    seq!['-', 'p', 'a', 't', 'h']
}

/// `--path`.
pub open spec fn long_flag() -> Seq<char> {
    seq!['-', '-', 'p', 'a', 't', 'h']
}

/// `--path=`.
pub open spec fn long_flag_eq() -> Seq<char> {
    seq!['-', '-', 'p', 'a', 't', 'h', '=']
}

/// `-path=`.
pub open spec fn short_flag_eq() -> Seq<char> {
    seq!['-', 'p', 'a', 't', 'h', '=']
}

pub open spec fn has_prefix(s: Seq<char>, p: Seq<char>) -> bool {
    p.len() <= s.len() && s.take(p.len() as int) == p
}

/// The model of an `ArgScan`; a candidate comes with the index at which
/// scanning resumes when it is no directory.
pub enum ScanModel {
    FlagValue(Seq<char>),
    MissingValue,
    Candidate(nat, Seq<char>),
    Exhausted,
}

/// What the arguments from index `start` on offer next: the value of a
/// path flag (which settles the outcome), a path flag with no value, a
/// positional argument to try, or nothing. `--` and other flags are
/// skipped.
pub open spec fn scan_model(args: Seq<Seq<char>>, start: nat) -> ScanModel
    decreases args.len() - start,
{
    if start >= args.len() {
        ScanModel::Exhausted
    } else {
        let a = args[start as int];
        if a == dash_dash() {
            scan_model(args, start + 1)
        } else if a == short_flag() || a == long_flag() {
            if start + 1 < args.len() {
                ScanModel::FlagValue(args[start + 1 as int])
            } else {
                ScanModel::MissingValue
            }
        } else if has_prefix(a, long_flag_eq()) {
            ScanModel::FlagValue(a.skip(7))
        } else if has_prefix(a, short_flag_eq()) {
            ScanModel::FlagValue(a.skip(6))
        } else if a.len() == 0 || a[0] != '-' {
            ScanModel::Candidate(start + 1, a)
        } else {
            scan_model(args, start + 1)
        }
    }
}

/// The start-up path the arguments give when `is_dir` tells which paths
/// name directories: a flag value if it is a directory (else nothing),
/// or the first positional argument that is a directory.
pub open spec fn startup_outcome(
    args: Seq<Seq<char>>,
    is_dir: spec_fn(Seq<char>) -> bool,
    start: nat,
) -> Option<Seq<char>>
    decreases args.len() - start,
{
    match scan_model(args, start) {
        ScanModel::FlagValue(v) => if is_dir(v) {
            Some(v)
        } else {
            None
        },
        ScanModel::MissingValue => None,
        ScanModel::Candidate(i, v) => if is_dir(v) {
            Some(v)
        } else if start < i <= args.len() {
            startup_outcome(args, is_dir, i)
        } else {
            None
        },
        ScanModel::Exhausted => None,
    }
}

/// The next value to check among the command-line arguments.
pub enum ArgScan {
    /// The value of a path flag: the outcome is this value if it is a
    /// directory, and nothing otherwise.
    FlagValue(String),
    /// A path flag was last and has no value: the outcome is nothing.
    MissingValue,
    /// A positional argument, and the index of the argument after it:
    /// the outcome if it is a directory; otherwise scanning resumes at
    /// that index.
    Candidate(usize, String),
    /// No argument is left: the outcome is nothing.
    Exhausted,
}

impl View for ArgScan {
    type V = ScanModel;

    open spec fn view(&self) -> ScanModel {
        match self {
            ArgScan::FlagValue(v) => ScanModel::FlagValue(v@),
            ArgScan::MissingValue => ScanModel::MissingValue,
            ArgScan::Candidate(i, v) => ScanModel::Candidate(*i as nat, v@),
            ArgScan::Exhausted => ScanModel::Exhausted,
        }
    }
}

/// The models of a sequence of strings.
pub open spec fn string_views(v: Seq<String>) -> Seq<Seq<char>> {
    v.map_values(|s: String| s@)
}

fn matches_chars(a: &[char], lit: &[char]) -> (b: bool)
    ensures
        b == (a@ == lit@),
{
    chars_eq(a, lit)
}

fn starts_with_chars(a: &[char], p: &[char]) -> (b: bool)
    ensures
        b == has_prefix(a@, p@),
{
    if p.len() > a.len() {
        return false;
    }
    let head = sub_chars(a, 0, p.len());
    assert(head@ =~= a@.take(p.len() as int));
    chars_eq(&head, p)
}

/// The next value to check among `args`, from index `start` on.
pub fn scan_args(args: &Vec<String>, start: usize) -> (s: ArgScan)
    ensures
        s@ == scan_model(string_views(args@), start as nat),
{
    let ghost views = string_views(args@);
    let dd: [char; 2] = ['-', '-'];
    let sf: [char; 5] = ['-', 'p', 'a', 't', 'h'];
    let lf: [char; 6] = ['-', '-', 'p', 'a', 't', 'h'];
    let lfe: [char; 7] = ['-', '-', 'p', 'a', 't', 'h', '='];
    let sfe: [char; 6] = ['-', 'p', 'a', 't', 'h', '='];
    assert(dd@ =~= dash_dash());
    assert(sf@ =~= short_flag());
    assert(lf@ =~= long_flag());
    assert(lfe@ =~= long_flag_eq());
    assert(sfe@ =~= short_flag_eq());
    let mut i = start;
    while i < args.len()
        invariant
            views == string_views(args@),
            start <= i,
            scan_model(views, start as nat) == scan_model(views, i as nat),
            dd@ == dash_dash(),
            sf@ == short_flag(),
            lf@ == long_flag(),
            lfe@ == long_flag_eq(),
            sfe@ == short_flag_eq(),
        decreases args.len() - i,
    {
        let a = chars_of(args[i].as_str());
        assert(views[i as int] == a@);
        if matches_chars(&a, &dd) {
            i += 1;
        } else if matches_chars(&a, &sf) || matches_chars(&a, &lf) {
            if i + 1 < args.len() {
                assert(views[i + 1] == args@[i + 1]@);
                return ArgScan::FlagValue(owned(args[i + 1].as_str()));
            } else {
                return ArgScan::MissingValue;
            }
        } else if starts_with_chars(&a, &lfe) {
            let v = sub_chars(&a, 7, a.len());
            assert(v@ =~= a@.skip(7));
            return ArgScan::FlagValue(string_from(&v));
        } else if starts_with_chars(&a, &sfe) {
            let v = sub_chars(&a, 6, a.len());
            assert(v@ =~= a@.skip(6));
            return ArgScan::FlagValue(string_from(&v));
        } else if a.len() == 0 || a[0] != '-' {
            return ArgScan::Candidate(i + 1, owned(args[i].as_str()));
        } else {
            i += 1;
        }
    }
    ArgScan::Exhausted
}

/// Where parsing stands after a checked value.
pub enum StartupStep {
    /// Parsing is over with this outcome.
    Done(Option<String>),
    /// Parsing resumes at this argument index.
    ResumeAt(usize),
}

impl ArgScan {
    /// The value to check, if any.
    pub fn value(&self) -> (v: Option<&String>)
        ensures
            v matches Some(x) ==> (self@ matches ScanModel::FlagValue(y) && y == x@) || (
            self@ matches ScanModel::Candidate(_, y) && y == x@),
            v is None ==> self@ is MissingValue || self@ is Exhausted,
    {
        match self {
            ArgScan::FlagValue(v) => Some(v),
            ArgScan::Candidate(_, v) => Some(v),
            _ => None,
        }
    }

    /// The step that follows once `is_dir` tells whether the value names a
    /// directory.
    pub fn settle(self, is_dir: bool) -> (step: StartupStep)
        ensures
            match self@ {
                ScanModel::FlagValue(v) => step matches StartupStep::Done(r) && (if is_dir {
                    r matches Some(p) && p@ == v
                } else {
                    r is None
                }),
                ScanModel::MissingValue => step matches StartupStep::Done(r) && r is None,
                ScanModel::Candidate(i, v) => if is_dir {
                    step matches StartupStep::Done(r) && r matches Some(p) && p@ == v
                } else {
                    step matches StartupStep::ResumeAt(j) && j == i
                },
                ScanModel::Exhausted => step matches StartupStep::Done(r) && r is None,
            },
    {
        match self {
            ArgScan::FlagValue(v) => StartupStep::Done(
                if is_dir {
                    Some(v)
                } else {
                    None
                },
            ),
            ArgScan::MissingValue => StartupStep::Done(None),
            ArgScan::Candidate(next, v) => if is_dir {
                StartupStep::Done(Some(v))
            } else {
                StartupStep::ResumeAt(next)
            },
            ArgScan::Exhausted => StartupStep::Done(None),
        }
    }
}

// ---------------------------------------------------------------------------
// The start-up path, captured once
// ---------------------------------------------------------------------------

/// The start-up path, set once when the arguments are parsed.
pub struct StartupPath {
    parsed: Option<Option<String>>,
}

impl StartupPath {
    /// Whether the arguments have been parsed, and what they gave.
    pub closed spec fn state(&self) -> Option<Option<Seq<char>>> {
        match self.parsed {
            Some(Some(p)) => Some(Some(p@)),
            Some(None) => Some(None),
            None => None,
        }
    }

    /// Nothing parsed yet.
    pub fn new() -> (s: Self)
        ensures
            s.state() is None,
    {
        StartupPath { parsed: None }
    }

    /// Records the parsed path, unless one was recorded before; returns
    /// whether it was recorded.
    pub fn init(&mut self, parsed: Option<String>) -> (recorded: bool)
        ensures
            recorded == old(self).state() is None,
            final(self).state() == if recorded {
                Some(
                    match parsed {
                        Some(p) => Some(p@),
                        None => None,
                    },
                )
            } else {
                old(self).state()
            },
    {
        if self.parsed.is_some() {
            return false;
        }
        self.parsed = Some(parsed);
        true
    }

    /// The captured start-up path, if one was given and valid.
    pub fn startup_path(&self) -> (p: Option<String>)
        ensures
            match self.state() {
                Some(Some(x)) => p matches Some(y) && y@ == x,
                _ => p is None,
            },
    {
        match &self.parsed {
            Some(Some(p)) => Some(p.clone()),
            _ => None,
        }
    }
}

// ---------------------------------------------------------------------------
// Laws
// ---------------------------------------------------------------------------

/// A candidate is an argument at or after `start`, and scanning resumes
/// after it, within the arguments.
pub proof fn law_scan_moves_forward(args: Seq<Seq<char>>, start: nat)
    ensures
        scan_model(args, start) matches ScanModel::Candidate(next, v) ==> start < next <= args.len()
            && args[next - 1] == v,
    decreases args.len() - start,
{
    if start < args.len() {
        law_scan_moves_forward(args, start + 1);
    }
}

/// Whatever the arguments, a start-up path is only ever a directory.
pub proof fn law_outcome_is_directory(
    args: Seq<Seq<char>>,
    is_dir: spec_fn(Seq<char>) -> bool,
    start: nat,
)
    ensures
        startup_outcome(args, is_dir, start) matches Some(p) ==> is_dir(p),
    decreases args.len() - start,
{
    law_scan_moves_forward(args, start);
    if let ScanModel::Candidate(i, v) = scan_model(args, start) {
        if !is_dir(v) && start < i <= args.len() {
            law_outcome_is_directory(args, is_dir, i);
        }
    }
}

/// Driving `scan_args` and `ArgScan::settle` yields the outcome: a step
/// that is done gives it, and a step that resumes keeps it.
pub proof fn law_step_keeps_outcome(
    args: Seq<Seq<char>>,
    is_dir: spec_fn(Seq<char>) -> bool,
    start: nat,
)
    ensures
        match scan_model(args, start) {
            ScanModel::FlagValue(v) => startup_outcome(args, is_dir, start) == if is_dir(v) {
                Some(v)
            } else {
                None
            },
            ScanModel::MissingValue => startup_outcome(args, is_dir, start) is None,
            ScanModel::Candidate(next, v) => if is_dir(v) {
                startup_outcome(args, is_dir, start) == Some(v)
            } else {
                startup_outcome(args, is_dir, start) == startup_outcome(args, is_dir, next)
            },
            ScanModel::Exhausted => startup_outcome(args, is_dir, start) is None,
        },
{
    law_scan_moves_forward(args, start);
}

/// No arguments give no start-up path.
pub proof fn law_no_args(is_dir: spec_fn(Seq<char>) -> bool)
    ensures
        startup_outcome(Seq::empty(), is_dir, 0) is None,
{
}

/// The first argument from `start` on that does not start with `-` is
/// the candidate offered, whatever flags come before it: an argument that
/// starts with `-` and is none of the path forms (`-path`, `--path`,
/// `-path=...`, `--path=...`) is skipped on its own, never with the
/// argument after it.
pub proof fn law_first_positional_is_offered(args: Seq<Seq<char>>, start: nat, j: nat)
    requires
        start <= j < args.len(),
        args[j as int].len() == 0 || args[j as int][0] != '-',
        forall|k: int|
            start <= k < j ==> {
                let a = #[trigger] args[k];
                &&& a.len() > 0
                &&& a[0] == '-'
                &&& a != seq!['-', 'p', 'a', 't', 'h']
                &&& a != seq!['-', '-', 'p', 'a', 't', 'h']
                &&& !(a.len() >= 6 && a.take(6) == seq!['-', 'p', 'a', 't', 'h', '='])
                &&& !(a.len() >= 7 && a.take(7) == seq!['-', '-', 'p', 'a', 't', 'h', '='])
            },
    ensures
        scan_model(args, start) == ScanModel::Candidate(j + 1, args[j as int]),
    decreases j - start,
{
    let a = args[start as int];
    if start < j {
        law_first_positional_is_offered(args, start + 1, j);
        assert(a != dash_dash() ==> scan_model(args, start) == scan_model(args, start + 1));
    } else {
        assert(a != dash_dash() && a != short_flag() && a != long_flag()) by {
            if a.len() > 0 {
                assert(dash_dash()[0] == '-');
                assert(short_flag()[0] == '-');
                assert(long_flag()[0] == '-');
            }
        }
        assert(!has_prefix(a, long_flag_eq()) && !has_prefix(a, short_flag_eq())) by {
            if has_prefix(a, long_flag_eq()) {
                assert(a[0] == a.take(7)[0]);
            }
            if has_prefix(a, short_flag_eq()) {
                assert(a[0] == a.take(6)[0]);
            }
        }
    }
}

/// The path flags settle the outcome with their value: `-path` and
/// `--path` take the next argument (and, last of all, have none), and
/// `--path=V` and `-path=V` take `V`; `--` is skipped on its own.
pub proof fn law_path_flags(args: Seq<Seq<char>>, start: nat, v: Seq<char>)
    requires
        start < args.len(),
    ensures
        (args[start as int] == seq!['-', 'p', 'a', 't', 'h'] || args[start as int] == seq![
            '-',
            '-',
            'p',
            'a',
            't',
            'h',
        ]) ==> scan_model(args, start) == if start + 1 < args.len() {
            ScanModel::FlagValue(args[start + 1 as int])
        } else {
            ScanModel::MissingValue
        },
        args[start as int] == seq!['-', '-', 'p', 'a', 't', 'h', '='] + v ==> scan_model(
            args,
            start,
        ) == ScanModel::FlagValue(v),
        args[start as int] == seq!['-', 'p', 'a', 't', 'h', '='] + v ==> scan_model(args, start)
            == ScanModel::FlagValue(v),
        args[start as int] == seq!['-', '-'] ==> scan_model(args, start) == scan_model(
            args,
            start + 1,
        ),
{
    let a = args[start as int];
    if a == seq!['-', '-', 'p', 'a', 't', 'h', '='] + v {
        assert(a.take(7) =~= long_flag_eq());
        assert(a.skip(7) =~= v);
        assert(a != dash_dash() && a != short_flag() && a != long_flag()) by {
            assert(a.len() != dash_dash().len() && a.len() != short_flag().len() && a.len()
                != long_flag().len());
        }
    }
    if a == seq!['-', 'p', 'a', 't', 'h', '='] + v {
        assert(a.take(6) =~= short_flag_eq());
        assert(a.skip(6) =~= v);
        assert(a != dash_dash() && a != short_flag() && a != long_flag()) by {
            assert(a.len() != dash_dash().len() && a.len() != short_flag().len());
            if a.len() == long_flag().len() {
                assert(a[1] != long_flag()[1]);
            }
        }
        assert(!has_prefix(a, long_flag_eq())) by {
            if has_prefix(a, long_flag_eq()) {
                assert(a.take(7)[1] == a[1]);
            }
        }
    }
    if a == seq!['-', 'p', 'a', 't', 'h'] {
        assert(a.len() != dash_dash().len());
        assert(a =~= short_flag());
    }
    if a == seq!['-', '-', 'p', 'a', 't', 'h'] {
        assert(a.len() != dash_dash().len());
        assert(a =~= long_flag());
    }
}

} // verus!
