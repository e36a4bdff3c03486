//! WSL support: distro-name validation, translation of WSL paths to the
//! Windows paths that reach them, decoding of `wsl.exe` output and parsing
//! of its distro listing.
use vstd::prelude::*;
use crate::text::{
    chars_of, eq_ignore_ascii_case, eq_ignore_ascii_case_chars, extend_chars, find_char,
    is_ws, join_chars, join_with, law_trim, lemma_find_char_at, lemma_join_ends, lemma_words_clean, lines, owned, replace_char, replace_chars, split_lines, split_words,
    string_from, sub_chars, trim, trim_chars, trim_start_char, trim_start_char_chars, views, words,
};
use vstd::slice::slice_subrange;
use vstd::utf8::{
    char_is_scalar, char_u32_cast, decode_utf8, encode_scalar, encode_utf8,
    encode_utf8_decode_utf8, encode_utf8_valid_utf8, has_width_1_encoding, has_width_2_encoding,
    has_width_3_encoding, last_continuation_byte, leading_byte_width_1, leading_byte_width_2,
    leading_byte_width_3, leading_byte_width_4, second_last_continuation_byte,
    third_last_continuation_byte, valid_utf8,
};

verus! {

// ---------------------------------------------------------------------------
// Distro names
// ---------------------------------------------------------------------------

pub open spec fn is_ascii_alpha(c: char) -> bool {
    ('a' <= c <= 'z') || ('A' <= c <= 'Z')
}

pub open spec fn is_ascii_alnum(c: char) -> bool {
    is_ascii_alpha(c) || ('0' <= c <= '9')
}

/// Characters a WSL distro name may hold.
pub open spec fn distro_char_ok(c: char) -> bool {
    is_ascii_alnum(c) || c == '.' || c == '_' || c == '-' || c == ' '
}

/// Whether `s` holds `".."` somewhere.
pub open spec fn has_dot_dot(s: Seq<char>) -> bool {
    exists|i: int| 0 <= i < s.len() - 1 && #[trigger] s[i] == '.' && s[i + 1] == '.'
}

/// A distro name that can be spliced into a UNC path without leaving the
/// WSL share: non-empty, at most 255 characters, not starting with `.`,
/// made of ASCII letters, digits, `.`, `_`, `-` and space only, and
/// without `..`.
pub open spec fn safe_distro_name(s: Seq<char>) -> bool {
    &&& 0 < s.len() <= 255
    &&& s[0] != '.'
    &&& forall|i: int| 0 <= i < s.len() ==> distro_char_ok(#[trigger] s[i])
    &&& !has_dot_dot(s)
}

/// Whether `name` is safe to splice into a `\\wsl.localhost\<distro>\` path.
pub fn is_safe_distro_name(name: &str) -> (b: bool)
    ensures
        b == safe_distro_name(name@),
{
    let v = chars_of(name);
    if v.len() == 0 || v.len() > 255 {
        return false;
    }
    if v[0] == '.' {
        return false;
    }
    let mut i: usize = 0;
    while i < v.len()
        invariant
            v@ == name@,
            0 < v.len() <= 255,
            i <= v.len(),
            forall|j: int| 0 <= j < i ==> distro_char_ok(#[trigger] v@[j]),
            forall|j: int| 0 <= j < i - 1 ==> !(#[trigger] v@[j] == '.' && v@[j + 1] == '.'),
        decreases v.len() - i,
    {
        let c = v[i];
        let ok = ('a' <= c && c <= 'z') || ('A' <= c && c <= 'Z') || ('0' <= c && c <= '9') || c
            == '.' || c == '_' || c == '-' || c == ' ';
        if !ok {
            assert(!distro_char_ok(v@[i as int]));
            return false;
        }
        if i > 0 && c == '.' && v[i - 1] == '.' {
            let ghost j: int = i - 1;
            assert(v@[j] == '.' && v@[j + 1] == '.');
            assert(has_dot_dot(v@));
            return false;
        }
        i += 1;
    }
    true
}

// ---------------------------------------------------------------------------
// drvfs mounts and UNC paths
// ---------------------------------------------------------------------------

/// ASCII upper-casing of one character (`char::to_ascii_uppercase`).
pub open spec fn ascii_upper(c: char) -> char {
    if 'a' <= c <= 'z' {
        ((c as u32) - 32) as char
    } else {
        c
    }
}

/// The prefix of a drvfs mount of a Windows drive.
pub open spec fn mnt_prefix() -> Seq<char> {
    seq!['/', 'm', 'n', 't', '/']
}

/// `/mnt/<letter>[/rest]` translated to the Windows path `<LETTER>:\rest`
/// (with `/` turned into `\`); `None` for every other path.
pub open spec fn drvfs_windows_path(p: Seq<char>) -> Option<Seq<char>> {
    if p.len() >= 5 && p.take(5) == mnt_prefix() {
        let after = p.skip(5);
        let k = find_char(after, '/');
        if k == 1 && is_ascii_alpha(after[0]) {
            let rest = if k < after.len() {
                after.skip(k + 1 as int)
            } else {
                Seq::empty()
            };
            Some(seq![ascii_upper(after[0]), ':', '\\'] + replace_char(rest, '/', '\\'))
        } else {
            None
        }
    } else {
        None
    }
}

/// Translates `/mnt/<drive>[/rest]` to a native Windows path like `C:\rest`;
/// `None` for anything that is not a single-letter drvfs mount.
pub fn drvfs_mount_to_windows(unix_path: &str) -> (r: Option<String>)
    ensures
        r matches Some(w) ==> drvfs_windows_path(unix_path@) == Some(w@),
        r is None ==> drvfs_windows_path(unix_path@) is None,
{
    let v = chars_of(unix_path);
    let ghost p = v@;
    if v.len() < 5 || v[0] != '/' || v[1] != 'm' || v[2] != 'n' || v[3] != 't' || v[4] != '/' {
        proof {
            if p.len() >= 5 && p.take(5) == mnt_prefix() {
                assert(p[0] == p.take(5)[0] && p[1] == p.take(5)[1] && p[2] == p.take(5)[2]
                    && p[3] == p.take(5)[3] && p[4] == p.take(5)[4]);
            }
        }
        return None;
    }
    assert(p.take(5) =~= mnt_prefix());
    let after = sub_chars(&v, 5, v.len());
    assert(after@ =~= p.skip(5));
    let mut k: usize = 0;
    while k < after.len() && after[k] != '/'
        invariant
            k <= after.len(),
            forall|j: int| 0 <= j < k ==> after@[j] != '/',
        decreases after.len() - k,
    {
        k += 1;
    }
    proof {
        lemma_find_char_at(after@, '/', k as int);
    }
    if k != 1 {
        return None;
    }
    let letter = after[0];
    if !(('a' <= letter && letter <= 'z') || ('A' <= letter && letter <= 'Z')) {
        return None;
    }
    let upper = if 'a' <= letter && letter <= 'z' {
        (((letter as u32) - 32) as u8) as char
    } else {
        letter
    };
    assert(upper == ascii_upper(letter));
    let rest = if k < after.len() {
        sub_chars(&after, k + 1, after.len())
    } else {
        Vec::new()
    };
    let mut out: Vec<char> = Vec::new();
    out.push(upper);
    out.push(':');
    out.push('\\');
    let tail = replace_chars(&rest, '/', '\\');
    let mut i: usize = 0;
    let ghost head = out@;
    while i < tail.len()
        invariant
            i <= tail.len(),
            out@ == head + tail@.take(i as int),
        decreases tail.len() - i,
    {
        out.push(tail[i]);
        assert(tail@.take(i + 1) =~= tail@.take(i as int).push(tail@[i as int]));
        i += 1;
    }
    proof {
        assert(tail@.take(tail.len() as int) =~= tail@);
        if k < after.len() {
            assert(rest@ =~= after@.skip(k + 1));
        } else {
            assert(rest@ =~= Seq::<char>::empty());
        }
        assert(head =~= seq![ascii_upper(after@[0]), ':', '\\']);
    }
    Some(string_from(&out))
}

/// The path handed out for a distro name that fails `safe_distro_name`:
/// it names no directory, so later existence checks reject it.
pub open spec fn invalid_distro_path() -> Seq<char> {
    "\\\\wsl.localhost\\__terax_invalid_distro__"@
}

/// Prefix of the UNC share through which Windows reaches a WSL distro.
pub open spec fn localhost_share() -> Seq<char> {
    "\\\\wsl.localhost\\"@
}

/// Prefix of the older UNC share for WSL distros.
pub open spec fn legacy_share() -> Seq<char> {
    "\\\\wsl$\\"@
}

/// Where a WSL path is reached from Windows: `primary`, unless a
/// `fallback` is given and `primary` does not exist.
pub struct WslPathPlan {
    pub primary: String,
    pub fallback: Option<String>,
}

impl View for WslPathPlan {
    type V = (Seq<char>, Option<Seq<char>>);

    open spec fn view(&self) -> (Seq<char>, Option<Seq<char>>) {
        (
            self.primary@,
            match self.fallback {
                Some(f) => Some(f@),
                None => None,
            },
        )
    }
}

/// The UNC candidates for `path` inside `distro`: the
/// `\\wsl.localhost\<distro>\...` path, then the `\\wsl$\<distro>\...` one.
pub open spec fn unc_candidates(distro: Seq<char>, normalized: Seq<char>) -> (
    Seq<char>,
    Seq<char>,
) {
    let tail = seq!['\\'] + replace_char(trim_start_char(normalized, '/'), '/', '\\');
    (localhost_share() + distro + tail, legacy_share() + distro + tail)
}

/// How the WSL path `path` of `distro` is reached from Windows.
pub open spec fn wsl_unc_plan(distro: Seq<char>, path: Seq<char>) -> (
    Seq<char>,
    Option<Seq<char>>,
) {
    if !safe_distro_name(distro) {
        (invalid_distro_path(), None)
    } else {
        let normalized = replace_char(path, '\\', '/');
        match drvfs_windows_path(normalized) {
            Some(w) => (w, None),
            None => {
                let (primary, fallback) = unc_candidates(distro, normalized);
                (primary, Some(fallback))
            },
        }
    }
}

/// Translates a path inside the WSL distro `distro` to a Windows path:
/// drvfs mounts go to the native drive, other paths to the WSL UNC shares,
/// and an unsafe distro name to a path that names nothing.
pub fn wsl_path_to_unc(distro: &str, path: &str) -> (plan: WslPathPlan)
    ensures
        plan@ == wsl_unc_plan(distro@, path@),
{
    if !is_safe_distro_name(distro) {
        return WslPathPlan {
            primary: owned("\\\\wsl.localhost\\__terax_invalid_distro__"),
            fallback: None,
        };
    }
    let pv = chars_of(path);
    let normalized = replace_chars(&pv, '\\', '/');
    let normalized_str = string_from(&normalized);
    match drvfs_mount_to_windows(&normalized_str) {
        Some(w) => {
            return WslPathPlan { primary: w, fallback: None };
        },
        None => {},
    }
    let trimmed = trim_start_char_chars(&normalized, '/');
    let converted = replace_chars(&trimmed, '/', '\\');
    let mut tail: Vec<char> = Vec::new();
    tail.push('\\');
    extend_chars(&mut tail, &converted);
    let dv = chars_of(distro);
    let mut primary = chars_of("\\\\wsl.localhost\\");
    extend_chars(&mut primary, &dv);
    extend_chars(&mut primary, &tail);
    let mut fallback = chars_of("\\\\wsl$\\");
    extend_chars(&mut fallback, &dv);
    extend_chars(&mut fallback, &tail);
    assert(tail@ =~= seq!['\\'] + converted@);
    WslPathPlan { primary: string_from(&primary), fallback: Some(string_from(&fallback)) }
}

impl WslPathPlan {
    /// The path to use, given whether `primary` exists on disk.
    pub fn resolve(self, primary_exists: bool) -> (p: String)
        ensures
            p@ == (match self@.1 {
                Some(f) => if primary_exists {
                    self@.0
                } else {
                    f
                },
                None => self@.0,
            }),
    {
        match self.fallback {
            Some(f) => if primary_exists {
                self.primary
            } else {
                f
            },
            None => self.primary,
        }
    }
}

// ---------------------------------------------------------------------------
// wsl.exe output
// ---------------------------------------------------------------------------

/// Whether the UTF-16 unit `u` is a surrogate.
pub open spec fn is_surrogate(u: u16) -> bool {
    0xD800 <= u <= 0xDFFF
}

/// Whether `u` is a high (leading) surrogate.
pub open spec fn is_high_surrogate(u: u16) -> bool {
    0xD800 <= u <= 0xDBFF
}

/// Whether `u` is a low (trailing) surrogate.
pub open spec fn is_low_surrogate(u: u16) -> bool {
    0xDC00 <= u <= 0xDFFF
}

/// The character that the surrogate pair `hi`, `lo` stands for.
pub open spec fn pair_char(hi: u16, lo: u16) -> char {
    (0x10000 + (hi - 0xD800) * 0x400 + (lo - 0xDC00)) as char
}

/// What `String::from_utf16_lossy` makes of UTF-16 units: a unit that is
/// no surrogate is the character it numbers, a high surrogate followed by
/// a low one is the character of the pair, and any other surrogate is
/// U+FFFD, after which decoding goes on with the next unit.
pub open spec fn utf16_lossy(units: Seq<u16>) -> Seq<char>
    decreases units.len(),
{
    if units.len() == 0 {
        Seq::empty()
    } else if units.len() >= 2 && is_high_surrogate(units[0]) && is_low_surrogate(units[1]) {
        seq![pair_char(units[0], units[1])] + utf16_lossy(units.skip(2))
    } else if is_surrogate(units[0]) {
        seq!['\u{fffd}'] + utf16_lossy(units.skip(1))
    } else {
        seq![units[0] as char] + utf16_lossy(units.skip(1))
    }
}

/// What `String::from_utf8_lossy` makes of bytes that are not valid UTF-8.
pub uninterp spec fn utf8_lossy(bytes: Seq<u8>) -> Seq<char>;

/// Decodes UTF-16 units with `String::from_utf16_lossy`. Trusted: the
/// characters of the result are those that [`utf16_lossy`] gives, as the
/// standard library documents the decoding (surrogate pairs combined,
/// unpaired surrogates replaced by U+FFFD).
#[verifier::external_body]
fn from_utf16_lossy(units: &[u16]) -> (s: String)
    ensures
        s@ == utf16_lossy(units@),
{
    String::from_utf16_lossy(units)
}

/// Decodes bytes with `String::from_utf8_lossy` (made owned), which puts
/// U+FFFD in place of invalid UTF-8 sequences. Trusted: the characters of
/// the result are `utf8_lossy` of the bytes, a function of the bytes
/// alone, and valid UTF-8 decodes to the text it encodes; what invalid
/// input gives is left to the standard library.
#[verifier::external_body]
fn from_utf8_lossy(bytes: &[u8]) -> (s: String)
    ensures
        s@ == utf8_lossy(bytes@),
        valid_utf8(bytes@) ==> s@ == decode_utf8(bytes@),
{
    String::from_utf8_lossy(bytes).into_owned()
}

/// The UTF-16 units of the character `c`: one unit below U+10000, a
/// surrogate pair above.
pub open spec fn char_utf16(c: char) -> Seq<u16> {
    let v = c as int;
    if v < 0x10000 {
        seq![v as u16]
    } else {
        seq![(0xD800 + (v - 0x10000) / 0x400) as u16, (0xDC00 + (v - 0x10000) % 0x400) as u16]
    }
}

/// The UTF-16 units of the text `t` (`str::encode_utf16`).
pub open spec fn encode_utf16(t: Seq<char>) -> Seq<u16>
    decreases t.len(),
{
    if t.len() == 0 {
        Seq::empty()
    } else {
        char_utf16(t[0]) + encode_utf16(t.drop_first())
    }
}

/// The units written as little-endian bytes (`u16::to_le_bytes` of each).
pub open spec fn le_bytes(units: Seq<u16>) -> Seq<u8> {
    Seq::new(
        2 * units.len(),
        |i: int|
            if i % 2 == 0 {
                (units[i / 2] % 256) as u8
            } else {
                (units[i / 2] / 256) as u8
            },
    )
}

/// Number of zero bytes of `b` at odd positions.
pub open spec fn odd_zero_count(b: Seq<u8>) -> nat
    decreases b.len(),
{
    if b.len() == 0 {
        0
    } else {
        odd_zero_count(b.drop_last()) + if (b.len() - 1) % 2 == 1 && b.last() == 0 {
            1nat
        } else {
            0nat
        }
    }
}

/// Output that looks like UTF-16LE without a byte-order mark: at least four
/// bytes, an even count, and zero high bytes in at least half of the units.
pub open spec fn looks_utf16le_spec(b: Seq<u8>) -> bool {
    &&& b.len() >= 4
    &&& b.len() % 2 == 0
    &&& odd_zero_count(b) * 2 >= b.len() / 2
}

/// Whether `b` starts with the UTF-16LE byte-order mark `FF FE`.
pub open spec fn has_utf16le_bom(b: Seq<u8>) -> bool {
    b.len() >= 2 && b[0] == 0xff && b[1] == 0xfe
}

/// The little-endian 16-bit units of `b`; a last odd byte is dropped.
pub open spec fn le_units(b: Seq<u8>) -> Seq<u16> {
    Seq::new(b.len() / 2, |k: int| (b[2 * k] + 256 * b[2 * k + 1]) as u16)
}

/// Whether `wsl.exe` output is read as UTF-16LE: it has the mark or
/// looks like it.
pub open spec fn reads_as_utf16(b: Seq<u8>) -> bool {
    has_utf16le_bom(b) || looks_utf16le_spec(b)
}

/// The UTF-16 units of output read as UTF-16LE; the mark is no unit.
pub open spec fn output_units(b: Seq<u8>) -> Seq<u16> {
    le_units(
        if has_utf16le_bom(b) {
            b.skip(2)
        } else {
            b
        },
    )
}

/// The text of `wsl.exe` output: UTF-16LE when it has the mark or looks
/// like it, UTF-8 otherwise.
pub open spec fn decoded_output(b: Seq<u8>) -> Seq<char> {
    if reads_as_utf16(b) {
        utf16_lossy(output_units(b))
    } else if valid_utf8(b) {
        decode_utf8(b)
    } else {
        utf8_lossy(b)
    }
}

/// Whether `bytes` looks like UTF-16LE text without a byte-order mark.
pub fn looks_utf16le(bytes: &[u8]) -> (r: bool)
    ensures
        r == looks_utf16le_spec(bytes@),
{
    if bytes.len() < 4 || bytes.len() % 2 != 0 {
        return false;
    }
    let mut count: usize = 0;
    let mut i: usize = 0;
    while i < bytes.len()
        invariant
            i <= bytes.len(),
            count == odd_zero_count(bytes@.take(i as int)),
            count <= i / 2,
        decreases bytes.len() - i,
    {
        assert(bytes@.take(i + 1).drop_last() =~= bytes@.take(i as int));
        if i % 2 == 1 && bytes[i] == 0 {
            count += 1;
        }
        i += 1;
    }
    assert(bytes@.take(bytes.len() as int) =~= bytes@);
    count * 2 >= bytes.len() / 2
}

/// The little-endian 16-bit units of `bytes[start..]`.
fn units_le(bytes: &[u8], start: usize) -> (units: Vec<u16>)
    requires
        start <= bytes.len(),
    ensures
        units@ == le_units(bytes@.skip(start as int)),
{
    let n = (bytes.len() - start) / 2;
    let mut units: Vec<u16> = Vec::new();
    let mut k: usize = 0;
    while k < n
        invariant
            start <= bytes.len(),
            n == (bytes.len() - start) / 2,
            k <= n,
            units@ =~= le_units(bytes@.skip(start as int)).take(k as int),
        decreases n - k,
    {
        let lo = bytes[start + 2 * k] as u16;
        let hi = bytes[start + 2 * k + 1] as u16;
        units.push(lo + hi * 256);
        k += 1;
    }
    units
}

/// Decodes `wsl.exe` output, which is UTF-16LE on most systems and UTF-8
/// on some.
pub fn decode_command_output(bytes: &[u8]) -> (s: String)
    ensures
        s@ == decoded_output(bytes@),
        !reads_as_utf16(bytes@) && valid_utf8(bytes@) ==> s@ == decode_utf8(bytes@),
        reads_as_utf16(bytes@) && (forall|k: int|
            0 <= k < output_units(bytes@).len() ==> !is_surrogate(
                #[trigger] output_units(bytes@)[k],
            )) ==> s@ == Seq::new(
            output_units(bytes@).len(),
            |k: int| output_units(bytes@)[k] as char,
        ),
        forall|t: Seq<char>|
            bytes@ == #[trigger] encode_utf8(t) && !t.contains('\0') ==> s@ == t,
        forall|t: Seq<char>|
            bytes@ == seq![0xffu8, 0xfeu8] + le_bytes(#[trigger] encode_utf16(t)) ==> s@ == t,
{
    let bom = bytes.len() >= 2 && bytes[0] == 0xff && bytes[1] == 0xfe;
    let s = if bom || looks_utf16le(bytes) {
        let start: usize = if bom {
            2
        } else {
            0
        };
        assert(bytes@.skip(0) =~= bytes@);
        let units = units_le(bytes, start);
        from_utf16_lossy(&units)
    } else {
        from_utf8_lossy(bytes)
    };
    proof {
        if reads_as_utf16(bytes@) && (forall|k: int|
            0 <= k < output_units(bytes@).len() ==> !is_surrogate(
                #[trigger] output_units(bytes@)[k],
            )) {
            lemma_utf16_plain(output_units(bytes@));
        }
        assert forall|t: Seq<char>|
            bytes@ == #[trigger] encode_utf8(t) && !t.contains('\0') implies s@ == t by {
            law_utf8_text_decodes(t);
        }
        assert forall|t: Seq<char>|
            bytes@ == seq![0xffu8, 0xfeu8] + le_bytes(#[trigger] encode_utf16(t)) implies s@
            == t by {
            law_utf16le_with_bom_decodes(t);
        }
    }
    s
}

/// What a finished `wsl.exe` run gives: its trimmed error output when it
/// failed, its output otherwise.
pub open spec fn wsl_result_spec(success: bool, stdout: Seq<u8>, stderr: Seq<u8>) -> Result<
    Seq<char>,
    Seq<char>,
> {
    if success {
        Ok(decoded_output(stdout))
    } else {
        Err(trim(decoded_output(stderr)))
    }
}

/// The result of a finished `wsl.exe` run from its exit status and output.
pub fn wsl_command_result(success: bool, stdout: &[u8], stderr: &[u8]) -> (r: Result<
    String,
    String,
>)
    ensures
        r matches Ok(o) ==> wsl_result_spec(success, stdout@, stderr@) == Ok::<
            Seq<char>,
            Seq<char>,
        >(o@),
        r matches Err(e) ==> wsl_result_spec(success, stdout@, stderr@) == Err::<
            Seq<char>,
            Seq<char>,
        >(e@),
{
    if !success {
        let text = decode_command_output(stderr);
        let cs = chars_of(&text);
        let t = trim_chars(&cs);
        return Err(string_from(&t));
    }
    Ok(decode_command_output(stdout))
}

// ---------------------------------------------------------------------------
// Distro listing
// ---------------------------------------------------------------------------

/// One installed WSL distro as `wsl.exe --list --verbose` reports it.
pub struct WslDistro {
    pub name: String,
    pub default: bool,
    pub running: bool,
}

impl View for WslDistro {
    type V = (Seq<char>, bool, bool);

    open spec fn view(&self) -> (Seq<char>, bool, bool) {
        (self.name@, self.default, self.running)
    }
}

/// The models of a sequence of distros.
pub open spec fn distro_views(ds: Seq<WslDistro>) -> Seq<(Seq<char>, bool, bool)> {
    ds.map_values(|d: WslDistro| d@)
}

/// The state column value of a running distro.
pub open spec fn running_word() -> Seq<char> {
    seq!['R', 'u', 'n', 'n', 'i', 'n', 'g']
}

/// One row of the listing: `[*] NAME... STATE VERSION`. A leading `*`
/// marks the default distro; the name is every word but the last two,
/// joined by single spaces; the distro runs when its state reads
/// `Running` in any ASCII case. Blank rows and rows of fewer than three
/// words give nothing.
pub open spec fn parse_distro_line(raw: Seq<char>) -> Option<(Seq<char>, bool, bool)> {
    let line = trim(raw);
    if line.len() == 0 {
        None
    } else {
        let parts = words(trim(trim_start_char(line, '*')));
        if parts.len() < 3 {
            None
        } else {
            let k = parts.len() - 2;
            Some(
                (
                    join_with(parts.take(k), ' '),
                    line[0] == '*',
                    eq_ignore_ascii_case(parts[k], running_word()),
                ),
            )
        }
    }
}

/// The distros of the rows `rows`, in order.
pub open spec fn distro_rows(rows: Seq<Seq<char>>) -> Seq<(Seq<char>, bool, bool)>
    decreases rows.len(),
{
    if rows.len() == 0 {
        Seq::empty()
    } else {
        let before = distro_rows(rows.drop_last());
        match parse_distro_line(rows.last()) {
            Some(d) => before.push(d),
            None => before,
        }
    }
}

/// The distros of a whole `wsl.exe --list --verbose` output: its first
/// line is the column header.
pub open spec fn distro_listing(out: Seq<char>) -> Seq<(Seq<char>, bool, bool)> {
    let ls = lines(out);
    if ls.len() == 0 {
        Seq::empty()
    } else {
        distro_rows(ls.drop_first())
    }
}

/// Parses one row of the listing.
fn parse_distro_row(raw: &[char]) -> (d: Option<WslDistro>)
    ensures
        d matches Some(x) ==> parse_distro_line(raw@) == Some(x@),
        d is None ==> parse_distro_line(raw@) is None,
{
    let line = trim_chars(raw);
    if line.len() == 0 {
        return None;
    }
    let default = line[0] == '*';
    let unstarred = trim_start_char_chars(&line, '*');
    let body = trim_chars(&unstarred);
    let parts = split_words(&body);
    if parts.len() < 3 {
        return None;
    }
    let k = parts.len() - 2;
    let name_parts = slice_subrange(parts.as_slice(), 0, k);
    let name = join_chars(name_parts, ' ');
    let state: [char; 7] = ['R', 'u', 'n', 'n', 'i', 'n', 'g'];
    assert(state@ =~= running_word());
    let running = eq_ignore_ascii_case_chars(parts[k].as_slice(), state.as_slice());
    proof {
        assert(views(parts@).take(k as int) =~= views(parts@.subrange(0, k as int)));
        assert(views(parts@)[k as int] == parts@[k as int]@);
    }
    Some(WslDistro { name: string_from(&name), default, running })
}

/// The distros listed in the output of `wsl.exe --list --verbose`.
pub fn parse_distro_list(out: &str) -> (ds: Vec<WslDistro>)
    ensures
        distro_views(ds@) == distro_listing(out@),
{
    let cs = chars_of(out);
    let ls = split_lines(&cs);
    let mut ds: Vec<WslDistro> = Vec::new();
    if ls.len() == 0 {
        assert(distro_views(ds@) =~= Seq::<(Seq<char>, bool, bool)>::empty());
        return ds;
    }
    let ghost rows = views(ls@).drop_first();
    let mut i: usize = 1;
    while i < ls.len()
        invariant
            1 <= i <= ls.len(),
            rows == views(ls@).drop_first(),
            distro_views(ds@) == distro_rows(rows.take(i - 1)),
        decreases ls.len() - i,
    {
        assert(rows.take(i as int).drop_last() =~= rows.take(i - 1));
        assert(rows.take(i as int).last() == ls@[i as int]@);
        let ghost before = ds@;
        match parse_distro_row(ls[i].as_slice()) {
            Some(d) => {
                ds.push(d);
                assert(distro_views(ds@) =~= distro_views(before).push(d@));
            },
            None => {},
        }
        i += 1;
    }
    assert(rows.take(ls.len() - 1) =~= rows);
    ds
}

/// The name of the first distro marked default.
pub open spec fn first_default(ds: Seq<(Seq<char>, bool, bool)>) -> Option<Seq<char>>
    decreases ds.len(),
{
    if ds.len() == 0 {
        None
    } else if ds[0].1 {
        Some(ds[0].0)
    } else {
        first_default(ds.drop_first())
    }
}

/// The distro that WSL runs by default: the first one marked default,
/// else the first one listed.
pub open spec fn default_distro_name(ds: Seq<(Seq<char>, bool, bool)>) -> Option<Seq<char>> {
    match first_default(ds) {
        Some(n) => Some(n),
        None => if ds.len() > 0 {
            Some(ds[0].0)
        } else {
            None
        },
    }
}

/// The name of the default distro among `distros`.
pub fn default_distro(distros: &[WslDistro]) -> (r: Option<String>)
    ensures
        r matches Some(n) ==> default_distro_name(distro_views(distros@)) == Some(n@),
        r is None ==> default_distro_name(distro_views(distros@)) is None,
{
    let ghost ds = distro_views(distros@);
    let mut i: usize = 0;
    assert(ds.skip(0) =~= ds);
    while i < distros.len()
        invariant
            ds == distro_views(distros@),
            i <= distros.len(),
            first_default(ds) == first_default(ds.skip(i as int)),
        decreases distros.len() - i,
    {
        assert(ds.skip(i as int).drop_first() =~= ds.skip(i + 1));
        assert(ds.skip(i as int)[0] == distros@[i as int]@);
        if distros[i].default {
            return Some(distros[i].name.clone());
        }
        i += 1;
    }
    assert(ds.skip(distros.len() as int).len() == 0);
    if distros.len() > 0 {
        assert(ds[0] == distros@[0]@);
        Some(distros[0].name.clone())
    } else {
        None
    }
}

/// The home directory reported by `wsl.exe` for `distro`, from the
/// result of running it: the trimmed output, or an error when that is
/// empty.
pub open spec fn wsl_home_spec(distro: Seq<char>, out: Result<Seq<char>, Seq<char>>) -> Result<
    Seq<char>,
    Seq<char>,
> {
    match out {
        Err(e) => Err(e),
        Ok(o) => if trim(o).len() == 0 {
            Err("could not resolve WSL home for "@ + distro)
        } else {
            Ok(trim(o))
        },
    }
}

/// The WSL home directory of `distro`, given the result of asking
/// `wsl.exe` to print `$HOME` there.
pub fn wsl_home_from(distro: &str, out: Result<String, String>) -> (r: Result<String, String>)
    ensures
        wsl_home_spec(
            distro@,
            match out {
                Ok(o) => Ok(o@),
                Err(e) => Err(e@),
            },
        ) == match r {
            Ok(h) => Ok::<Seq<char>, Seq<char>>(h@),
            Err(e) => Err::<Seq<char>, Seq<char>>(e@),
        },
{
    match out {
        Err(e) => Err(e),
        Ok(o) => {
            let cs = chars_of(&o);
            let home = trim_chars(&cs);
            if home.len() == 0 {
                let mut msg = owned("could not resolve WSL home for ");
                msg.append(distro);
                Err(msg)
            } else {
                Ok(string_from(&home))
            }
        },
    }
}

// ---------------------------------------------------------------------------
// Laws
// ---------------------------------------------------------------------------

/// Whether `s` starts with `p`.
pub open spec fn is_prefix(p: Seq<char>, s: Seq<char>) -> bool {
    p.len() <= s.len() && s.take(p.len() as int) == p
}

/// A distro name that fails the check never reaches a path: the result is
/// the fixed invalid path, with nothing to fall back to.
pub proof fn law_unsafe_distro_contained(distro: Seq<char>, path: Seq<char>)
    requires
        !safe_distro_name(distro),
    ensures
        wsl_unc_plan(distro, path) == (invalid_distro_path(), None::<Seq<char>>),
{
}

/// A distro name that passes the check holds no separator and no `..`,
/// and every UNC path built for it names that distro's share: it starts
/// with the share prefix, the distro name and a `\`.
pub proof fn law_unc_stays_in_share(distro: Seq<char>, path: Seq<char>)
    requires
        safe_distro_name(distro),
        drvfs_windows_path(replace_char(path, '\\', '/')) is None,
    ensures
        !distro.contains('\\'),
        !distro.contains('/'),
        !has_dot_dot(distro),
        wsl_unc_plan(distro, path) matches (primary, Some(fallback)) && is_prefix(
            localhost_share() + distro.push('\\'),
            primary,
        ) && is_prefix(legacy_share() + distro.push('\\'), fallback),
{
    if distro.contains('\\') {
        let j = choose|j: int| 0 <= j < distro.len() && distro[j] == '\\';
        assert(distro_char_ok(distro[j]));
    }
    if distro.contains('/') {
        let j = choose|j: int| 0 <= j < distro.len() && distro[j] == '/';
        assert(distro_char_ok(distro[j]));
    }
    let normalized = replace_char(path, '\\', '/');
    let tail = seq!['\\'] + replace_char(trim_start_char(normalized, '/'), '/', '\\');
    let primary = localhost_share() + distro + tail;
    let fallback = legacy_share() + distro + tail;
    let lp = localhost_share() + distro.push('\\');
    let fp = legacy_share() + distro.push('\\');
    assert(primary.take(lp.len() as int) =~= lp);
    assert(fallback.take(fp.len() as int) =~= fp);
}

/// A drvfs mount becomes a path on a drive: an upper-case letter, `:`
/// and `\`, with no `/` left.
pub proof fn law_drvfs_native(p: Seq<char>)
    ensures
        drvfs_windows_path(p) matches Some(w) ==> w.len() >= 3 && 'A' <= w[0] <= 'Z' && w[1]
            == ':' && w[2] == '\\' && !w.contains('/'),
{
    if let Some(w) = drvfs_windows_path(p) {
        let after = p.skip(5);
        let k = find_char(after, '/');
        let rest = if k < after.len() {
            after.skip(k + 1 as int)
        } else {
            Seq::empty()
        };
        let r = replace_char(rest, '/', '\\');
        assert(w == seq![ascii_upper(after[0]), ':', '\\'] + r);
        assert(w[0] == ascii_upper(after[0]));
        if w.contains('/') {
            let j = choose|j: int| 0 <= j < w.len() && w[j] == '/';
            if j >= 3 {
                assert(w[j] == r[j - 3]);
            }
        }
    }
}

/// The default distro is known exactly when some distro is listed, and
/// when one is marked default, the answer is a distro marked default.
pub proof fn law_default_distro(ds: Seq<(Seq<char>, bool, bool)>)
    ensures
        default_distro_name(ds) is Some <==> ds.len() > 0,
        (exists|i: int| 0 <= i < ds.len() && (#[trigger] ds[i]).1) ==> exists|j: int|
            0 <= j < ds.len() && (#[trigger] ds[j]).1 && default_distro_name(ds) == Some(ds[j].0),
    decreases ds.len(),
{
    lemma_first_default(ds);
}

proof fn lemma_first_default(ds: Seq<(Seq<char>, bool, bool)>)
    ensures
        first_default(ds) is None <==> !(exists|i: int| 0 <= i < ds.len() && (#[trigger] ds[i]).1),
        first_default(ds) matches Some(n) ==> exists|j: int|
            0 <= j < ds.len() && (#[trigger] ds[j]).1 && ds[j].0 == n,
    decreases ds.len(),
{
    if ds.len() > 0 {
        lemma_first_default(ds.drop_first());
        if !ds[0].1 {
            if exists|i: int| 0 <= i < ds.len() && (#[trigger] ds[i]).1 {
                let i = choose|i: int| 0 <= i < ds.len() && (#[trigger] ds[i]).1;
                assert(ds.drop_first()[i - 1] == ds[i]);
            }
            if let Some(n) = first_default(ds) {
                let j = choose|j: int|
                    0 <= j < ds.drop_first().len() && (#[trigger] ds.drop_first()[j]).1
                        && ds.drop_first()[j].0 == n;
                assert(ds[j + 1] == ds.drop_first()[j]);
            }
            if exists|i: int| 0 <= i < ds.drop_first().len() && (#[trigger] ds.drop_first()[i]).1 {
                let i = choose|i: int| 0 <= i < ds.drop_first().len() && (#[trigger] ds.drop_first()[i]).1;
                assert(ds[i + 1] == ds.drop_first()[i]);
            }
        }
    }
}

/// The name of a listed distro is non-empty and neither starts nor ends
/// with whitespace.
pub proof fn law_distro_name_trimmed(raw: Seq<char>)
    ensures
        parse_distro_line(raw) matches Some(d) ==> d.0.len() > 0 && !is_ws(d.0[0]) && !is_ws(
            d.0.last(),
        ),
{
    let line = trim(raw);
    if line.len() > 0 {
        let body = trim(trim_start_char(line, '*'));
        let parts = words(body);
        if parts.len() >= 3 {
            lemma_words_clean(body);
            let k = parts.len() - 2;
            let names = parts.take(k);
            assert forall|i: int| 0 <= i < names.len() implies (#[trigger] names[i]).len() > 0 by {
                assert(names[i] == parts[i]);
            }
            lemma_join_ends(names, ' ');
            assert(names[0] == parts[0]);
            assert(names.last() == parts[k - 1]);
            assert(!is_ws(parts[0][0]));
            assert(!is_ws(parts[k - 1][parts[k - 1].len() - 1]));
        }
    }
}

/// Every distro of a listing has a non-empty name that neither starts nor
/// ends with whitespace.
pub proof fn law_listed_names_trimmed(rows: Seq<Seq<char>>)
    ensures
        forall|i: int|
            0 <= i < distro_rows(rows).len() ==> (#[trigger] distro_rows(rows)[i]).0.len() > 0
                && !is_ws(distro_rows(rows)[i].0[0]) && !is_ws(distro_rows(rows)[i].0.last()),
    decreases rows.len(),
{
    if rows.len() > 0 {
        law_listed_names_trimmed(rows.drop_last());
        law_distro_name_trimmed(rows.last());
        let before = distro_rows(rows.drop_last());
        let ds = distro_rows(rows);
        assert forall|i: int| 0 <= i < ds.len() implies (#[trigger] ds[i]).0.len() > 0 && !is_ws(
            ds[i].0[0],
        ) && !is_ws(ds[i].0.last()) by {
            if i < before.len() {
                assert(ds[i] == before[i]);
            }
        }
    }
}

// ---------------------------------------------------------------------------
// Decoding of wsl.exe output
// ---------------------------------------------------------------------------

/// Units that are no surrogates decode one to one into the characters
/// they number.
pub proof fn lemma_utf16_plain(units: Seq<u16>)
    requires
        forall|k: int| 0 <= k < units.len() ==> !is_surrogate(#[trigger] units[k]),
    ensures
        utf16_lossy(units) == Seq::new(units.len(), |k: int| units[k] as char),
    decreases units.len(),
{
    if units.len() > 0 {
        let rest = units.skip(1);
        assert forall|k: int| 0 <= k < rest.len() implies !is_surrogate(#[trigger] rest[k]) by {
            assert(rest[k] == units[k + 1]);
        }
        lemma_utf16_plain(rest);
        assert(utf16_lossy(units) =~= Seq::new(units.len(), |k: int| units[k] as char));
    }
}

/// Little-endian bytes read back as units give the units.
proof fn lemma_le_units_of_bytes(units: Seq<u16>)
    ensures
        le_units(le_bytes(units)) == units,
{
    let b = le_bytes(units);
    assert forall|k: int| 0 <= k < units.len() implies #[trigger] le_units(b)[k] == units[k] by {
        let u = units[k];
        assert((2 * k) % 2 == 0 && (2 * k) / 2 == k);
        assert((2 * k + 1) % 2 == 1 && (2 * k + 1) / 2 == k);
        assert(b[2 * k] == (u % 256) as u8);
        assert(b[2 * k + 1] == (u / 256) as u8);
        assert((u % 256) + 256 * (u / 256) == u);
    }
    assert(le_units(b) =~= units);
}

/// Decoding the UTF-16 units of a text gives the text back.
proof fn lemma_utf16_round_trip(t: Seq<char>)
    ensures
        utf16_lossy(encode_utf16(t)) == t,
    decreases t.len(),
{
    if t.len() > 0 {
        let c = t[0];
        let rest = encode_utf16(t.drop_first());
        let u = encode_utf16(t);
        lemma_utf16_round_trip(t.drop_first());
        char_is_scalar(c);
        let v = c as u32;
        char_u32_cast(c, v);
        assert(u == char_utf16(c) + rest);
        if v < 0x10000 {
            assert(!is_surrogate(u[0]));
            assert(u.skip(1) =~= rest);
            assert(utf16_lossy(u) == seq![u[0] as char] + utf16_lossy(rest));
        } else {
            let w = v - 0x10000;
            assert(0 <= w < 0x100000);
            assert(w / 0x400 < 0x400);
            assert(0x400 * (w / 0x400) + w % 0x400 == w);
            assert(is_high_surrogate(u[0]) && is_low_surrogate(u[1]));
            assert(pair_char(u[0], u[1]) == v as char);
            assert(u.skip(2) =~= rest);
            assert(utf16_lossy(u) == seq![pair_char(u[0], u[1])] + utf16_lossy(rest));
        }
        assert(utf16_lossy(u) =~= t);
    }
}

/// The UTF-8 bytes of a character: at least one, the first below `F8`,
/// and none zero unless the character is NUL.
proof fn lemma_scalar_bytes(c: char)
    ensures
        encode_scalar(c as u32).len() >= 1,
        encode_scalar(c as u32)[0] < 0xf8,
        c != '\0' ==> forall|i: int|
            0 <= i < encode_scalar(c as u32).len() ==> #[trigger] encode_scalar(c as u32)[i] != 0,
{
    char_is_scalar(c);
    let v = c as u32;
    if has_width_1_encoding(v) {
        assert(v <= 0x7f ==> leading_byte_width_1(v) < 0xf8 && (v != 0 ==> leading_byte_width_1(v)
            != 0)) by (bit_vector);
    } else if has_width_2_encoding(v) {
        assert(0xc0 <= leading_byte_width_2(v) < 0xf8 && last_continuation_byte(v) >= 0x80)
            by (bit_vector);
    } else if has_width_3_encoding(v) {
        assert(0xe0 <= leading_byte_width_3(v) < 0xf8 && second_last_continuation_byte(v) >= 0x80
            && last_continuation_byte(v) >= 0x80) by (bit_vector);
    } else {
        assert(0xf0 <= leading_byte_width_4(v) < 0xf8 && third_last_continuation_byte(v) >= 0x80
            && second_last_continuation_byte(v) >= 0x80 && last_continuation_byte(v) >= 0x80)
            by (bit_vector);
    }
}

/// The UTF-8 bytes of a text never start with `FF`, and hold no zero
/// byte unless the text holds NUL.
proof fn lemma_utf8_bytes(t: Seq<char>)
    ensures
        encode_utf8(t).len() > 0 ==> encode_utf8(t)[0] < 0xf8,
        !t.contains('\0') ==> forall|i: int|
            0 <= i < encode_utf8(t).len() ==> #[trigger] encode_utf8(t)[i] != 0,
    decreases t.len(),
{
    if t.len() > 0 {
        let e = encode_scalar(t[0] as u32);
        let r = encode_utf8(t.drop_first());
        lemma_scalar_bytes(t[0]);
        lemma_utf8_bytes(t.drop_first());
        assert(encode_utf8(t) == e + r);
        if !t.contains('\0') {
            assert(t[0] != '\0') by {
                assert(t.contains(t[0]));
            }
            assert(!t.drop_first().contains('\0')) by {
                if t.drop_first().contains('\0') {
                    let j = choose|j: int| 0 <= j < t.len() - 1 && t.drop_first()[j] == '\0';
                    assert(t[j + 1] == '\0');
                }
            }
            assert forall|i: int| 0 <= i < (e + r).len() implies #[trigger] (e + r)[i] != 0 by {
                if i >= e.len() {
                    assert((e + r)[i] == r[i - e.len()]);
                }
            }
        }
    }
}

/// Bytes none of which is zero have no zero byte at an odd position.
proof fn lemma_no_zero_bytes(b: Seq<u8>)
    requires
        forall|i: int| 0 <= i < b.len() ==> #[trigger] b[i] != 0,
    ensures
        odd_zero_count(b) == 0,
    decreases b.len(),
{
    if b.len() > 0 {
        let d = b.drop_last();
        assert forall|i: int| 0 <= i < d.len() implies #[trigger] d[i] != 0 by {
            assert(d[i] == b[i]);
        }
        lemma_no_zero_bytes(d);
        assert(b.last() == b[b.len() - 1]);
    }
}

/// UTF-8 text without NUL is never taken for UTF-16: it decodes to
/// itself.
pub proof fn law_utf8_text_decodes(t: Seq<char>)
    requires
        !t.contains('\0'),
    ensures
        decoded_output(encode_utf8(t)) == t,
{
    let b = encode_utf8(t);
    lemma_utf8_bytes(t);
    lemma_no_zero_bytes(b);
    encode_utf8_valid_utf8(t);
    encode_utf8_decode_utf8(t);
    assert(!reads_as_utf16(b));
}

/// Output made of the UTF-16LE byte-order mark and the UTF-16LE units of
/// a text decodes to that text.
pub proof fn law_utf16le_with_bom_decodes(t: Seq<char>)
    ensures
        decoded_output(seq![0xffu8, 0xfeu8] + le_bytes(encode_utf16(t))) == t,
{
    let body = le_bytes(encode_utf16(t));
    let b = seq![0xffu8, 0xfeu8] + body;
    assert(has_utf16le_bom(b));
    assert(b.skip(2) =~= body);
    lemma_le_units_of_bytes(encode_utf16(t));
    lemma_utf16_round_trip(t);
}

/// Bytes none of whose odd positions holds anything but zero have a
/// zero at every odd position.
proof fn lemma_zero_high_bytes(b: Seq<u8>)
    requires
        forall|i: int| 0 <= i < b.len() && i % 2 == 1 ==> #[trigger] b[i] == 0,
    ensures
        odd_zero_count(b) == b.len() / 2,
    decreases b.len(),
{
    if b.len() > 0 {
        let d = b.drop_last();
        assert forall|i: int| 0 <= i < d.len() && i % 2 == 1 implies #[trigger] d[i] == 0 by {
            assert(d[i] == b[i]);
        }
        lemma_zero_high_bytes(d);
        assert(b.last() == b[b.len() - 1]);
    }
}

/// A character numbers a value of at least zero.
proof fn lemma_char_nonnegative(c: char)
    ensures
        c as int >= 0,
{
}

/// The UTF-16 units of text whose characters all lie below U+0100 are the
/// characters' numbers, one unit each.
proof fn lemma_latin1_units(t: Seq<char>)
    requires
        forall|i: int| #![trigger t[i]] 0 <= i < t.len() ==> (t[i] as int) < 0x100,
    ensures
        encode_utf16(t).len() == t.len(),
        forall|i: int| #![trigger t[i]] 0 <= i < t.len() ==> encode_utf16(t)[i] as int == t[i] as int,
    decreases t.len(),
{
    if t.len() > 0 {
        let rest = t.drop_first();
        assert forall|i: int| #![trigger rest[i]] 0 <= i < rest.len() implies (rest[i] as int) < 0x100 by {
            assert(rest[i] == t[i + 1]);
        }
        lemma_latin1_units(rest);
        assert((t[0] as int) < 0x100);
        let u = encode_utf16(t);
        assert(char_utf16(t[0]) == seq![(t[0] as int) as u16]);
        assert(u == char_utf16(t[0]) + encode_utf16(rest));
        assert forall|i: int| #![trigger t[i]] 0 <= i < t.len() implies u[i] as int == t[i] as int by {
            if i > 0 {
                assert(u[i] == encode_utf16(rest)[i - 1]);
                assert(rest[i - 1] == t[i]);
            } else {
                let c = t[0];
                let v = c as int;
                lemma_char_nonnegative(c);
                assert(0 <= v < 0x100);
                assert(u[0] == v as u16);
                assert((v as u16) as int == v);
            }
        }
    }
}

/// UTF-16LE output without a byte-order mark, as `wsl.exe` writes it, is
/// read as UTF-16: text of at least two characters, each below U+0100 and
/// none NUL, decodes to itself, whatever the number of units.
pub proof fn law_utf16le_without_bom_decodes(t: Seq<char>)
    requires
        t.len() >= 2,
        forall|i: int| #![trigger t[i]] 0 <= i < t.len() ==> (t[i] as int) < 0x100 && t[i] != '\0',
    ensures
        decoded_output(le_bytes(encode_utf16(t))) == t,
{
    lemma_latin1_units(t);
    let u = encode_utf16(t);
    let b = le_bytes(u);
    assert forall|i: int| 0 <= i < b.len() && i % 2 == 1 implies #[trigger] b[i] == 0 by {
        let k = i / 2;
        assert(0 <= k < t.len());
        assert(t[k] as int == u[k] as int);
        assert((u[k] as int) < 0x100);
        assert((u[k] / 256) == 0);
    }
    lemma_zero_high_bytes(b);
    assert(!has_utf16le_bom(b)) by {
        assert(b[1] == 0);
    }
    assert(looks_utf16le_spec(b));
    lemma_le_units_of_bytes(u);
    lemma_utf16_round_trip(t);
}

/// A `wsl.exe` run that failed is an error whatever it wrote, and one
/// that succeeded is its output.
pub proof fn law_failed_run_is_error(success: bool, stdout: Seq<u8>, stderr: Seq<u8>)
    ensures
        !success ==> wsl_result_spec(success, stdout, stderr) is Err,
        success ==> wsl_result_spec(success, stdout, stderr) is Ok,
{
}

/// Names made of ASCII letters, digits, `-` and `_` (1 to 255 of them)
/// are safe distro names; a name holding `/`, `\` or `:`, or starting
/// with `.`, never is.
pub proof fn law_distro_names(name: Seq<char>)
    ensures
        0 < name.len() <= 255 && (forall|i: int|
            0 <= i < name.len() ==> is_ascii_alnum(#[trigger] name[i]) || name[i] == '-'
                || name[i] == '_') ==> safe_distro_name(name),
        name.contains('/') || name.contains('\\') || name.contains(':') ==> !safe_distro_name(
            name,
        ),
        name.len() > 0 && name[0] == '.' ==> !safe_distro_name(name),
{
    if 0 < name.len() <= 255 && (forall|i: int|
        0 <= i < name.len() ==> is_ascii_alnum(#[trigger] name[i]) || name[i] == '-' || name[i]
            == '_') {
        assert(name[0] != '.');
        if has_dot_dot(name) {
            let i = choose|i: int| 0 <= i < name.len() - 1 && #[trigger] name[i] == '.' && name[i
                + 1] == '.';
            assert(name[i] == '.');
        }
    }
    if name.contains('/') {
        let i = choose|i: int| 0 <= i < name.len() && name[i] == '/';
        assert(!distro_char_ok(name[i]));
    }
    if name.contains('\\') {
        let i = choose|i: int| 0 <= i < name.len() && name[i] == '\\';
        assert(!distro_char_ok(name[i]));
    }
    if name.contains(':') {
        let i = choose|i: int| 0 <= i < name.len() && name[i] == ':';
        assert(!distro_char_ok(name[i]));
    }
}

/// `/mnt/<letter>/rest` is the drive `<LETTER>:\` followed by `rest` with
/// `\` for `/`, and `/mnt/<letter>` alone is the drive's root; a path that
/// does not start with `/mnt/` is no drvfs mount.
pub proof fn law_drvfs_translation(l: char, rest: Seq<char>, p: Seq<char>)
    requires
        is_ascii_alpha(l),
    ensures
        drvfs_windows_path(mnt_prefix() + seq![l, '/'] + rest) == Some(
            seq![ascii_upper(l), ':', '\\'] + replace_char(rest, '/', '\\'),
        ),
        drvfs_windows_path(mnt_prefix() + seq![l]) == Some(seq![ascii_upper(l), ':', '\\']),
        !(p.len() >= 5 && p.take(5) == mnt_prefix()) ==> drvfs_windows_path(p) is None,
{
    let p1 = mnt_prefix() + seq![l, '/'] + rest;
    assert(p1.take(5) =~= mnt_prefix());
    let after = p1.skip(5);
    assert(after =~= seq![l, '/'] + rest);
    lemma_find_char_at(after, '/', 1);
    assert(after.skip(2) =~= rest);
    let p2 = mnt_prefix() + seq![l];
    assert(p2.take(5) =~= mnt_prefix());
    let after2 = p2.skip(5);
    assert(after2 =~= seq![l]);
    lemma_find_char_at(after2, '/', 1);
    assert(replace_char(Seq::<char>::empty(), '/', '\\') =~= Seq::<char>::empty());
    assert(seq![ascii_upper(l), ':', '\\'] + Seq::<char>::empty() =~= seq![
        ascii_upper(l),
        ':',
        '\\',
    ]);
}

/// The WSL home is the output with its surrounding whitespace removed: an
/// output with any other character gives it, an output of whitespace
/// alone is an error, and a failed run passes its error on.
pub proof fn law_wsl_home(distro: Seq<char>, out: Result<Seq<char>, Seq<char>>)
    ensures
        out matches Err(e) ==> wsl_home_spec(distro, out) == Err::<Seq<char>, Seq<char>>(e),
        out matches Ok(o) ==> ((wsl_home_spec(distro, out) is Ok) <==> exists|k: int|
            0 <= k < o.len() && !is_ws(#[trigger] o[k])),
        out matches Ok(o) ==> (wsl_home_spec(distro, out) matches Ok(h) ==> h == trim(o) && h.len()
            > 0),
{
    if let Ok(o) = out {
        law_trim(o);
        if trim(o).len() == 0 {
            assert(forall|k: int| 0 <= k < o.len() ==> is_ws(#[trigger] o[k]));
        } else {
            if forall|k: int| 0 <= k < o.len() ==> is_ws(#[trigger] o[k]) {
                assert(false);
            }
        }
    }
}

/// For a safe distro name, a drvfs mount is reached on its native drive
/// with nothing to fall back to, and any other path through
/// `\\wsl.localhost\<distro>\` first and `\\wsl$\<distro>\` second, with
/// the path's leading `/` dropped and `\` for every other separator.
pub proof fn law_wsl_plan_targets(distro: Seq<char>, path: Seq<char>)
    requires
        safe_distro_name(distro),
    ensures
        drvfs_windows_path(replace_char(path, '\\', '/')) matches Some(w) ==> wsl_unc_plan(
            distro,
            path,
        ) == (w, None::<Seq<char>>),
        drvfs_windows_path(replace_char(path, '\\', '/')) is None ==> ({
            let tail = seq!['\\'] + replace_char(
                trim_start_char(replace_char(path, '\\', '/'), '/'),
                '/',
                '\\',
            );
            wsl_unc_plan(distro, path) == ("\\\\wsl.localhost\\"@ + distro + tail, Some(
                "\\\\wsl$\\"@ + distro + tail,
            ))
        }),
{
}

} // verus!
