//! The working/waiting state hook's decisions, and claimed-issue detection.
//!
//! The hook fires on every PostToolUse. What it does with the files under
//! `session-tasks/` is decided here; reading and writing them is the caller's.
use vstd::prelude::*;
use crate::json::{field, Json, Value};
use crate::paths::trimmed_text;
use crate::render::{issue_chip, text_or_empty, waiting_lit, working_lit};
use crate::text::{
    chars_of, copy_range, decimal, digit_end, is_ascii_digit, lemma_decimal_prefix, lemma_digit_end, is_space, is_whitespace, lemma_next_space, lemma_skip_space,
    next_space, next_space_at, skip_space, skip_space_at, string_of, chars_equal, extend_chars,
    push_decimal, dec, lemma_dec_digits, lemma_digit_end_at, lemma_trim_back, trim, trim_back,
};

verus! {

// ---------------------------------------------------------------------------
// Statement splitting
// ---------------------------------------------------------------------------

/// Width of the statement boundary starting at `i`: 1 for `;`, `\r`, `\n`,
/// 2 for `&&` and `||`, 0 if none starts there. A single `&` is PowerShell's
/// call operator and no boundary.
pub open spec fn sep_width(s: Seq<char>, i: int) -> int {
    if s[i] == ';' || s[i] == '\r' || s[i] == '\n' {
        1
    } else if s[i] == '&' && i + 1 < s.len() && s[i + 1] == '&' {
        2
    } else if s[i] == '|' && i + 1 < s.len() && s[i + 1] == '|' {
        2
    } else {
        0
    }
}

/// The statements of `s[start..]`, scanning for boundaries from `i`.
pub open spec fn split_from(s: Seq<char>, start: int, i: int) -> Seq<Seq<char>>
    decreases s.len() - i,
{
    if i < 0 || i >= s.len() {
        seq![s.subrange(start, s.len() as int)]
    } else if sep_width(s, i) > 0 {
        seq![s.subrange(start, i)] + split_from(s, i + sep_width(s, i), i + sep_width(s, i))
    } else {
        split_from(s, start, i + 1)
    }
}

/// The statements of a command line, in order: the text between boundaries,
/// empty ones included.
pub open spec fn statements(s: Seq<char>) -> Seq<Seq<char>> {
    split_from(s, 0, 0)
}

/// Start and end of each statement of `s`.
fn statement_bounds(s: &[char]) -> (v: Vec<(usize, usize)>)
    ensures
        v@.len() == statements(s@).len(),
        forall|k: int| 0 <= k < v@.len() ==> #[trigger] bounds_of(s@, v@[k], statements(s@)[k]),
{
    let mut v: Vec<(usize, usize)> = Vec::new();
    let ghost mut done: Seq<Seq<char>> = Seq::empty();
    let mut start: usize = 0;
    let mut i: usize = 0;
    while i < s.len()
        invariant
            start <= i <= s@.len(),
            v@.len() == done.len(),
            forall|k: int| 0 <= k < v@.len() ==> #[trigger] bounds_of(s@, v@[k], done[k]),
            done + split_from(s@, start as int, i as int) == statements(s@),
        decreases s.len() - i,
    {
        let c = s[i];
        let width: usize = if c == ';' || c == '\r' || c == '\n' {
            1
        } else if c == '&' && i + 1 < s.len() && s[i + 1] == '&' {
            2
        } else if c == '|' && i + 1 < s.len() && s[i + 1] == '|' {
            2
        } else {
            0
        };
        assert(width == sep_width(s@, i as int));
        if width > 0 {
            let ghost piece = s@.subrange(start as int, i as int);
            let ghost rest = split_from(s@, (i + width) as int, (i + width) as int);
            assert(split_from(s@, start as int, i as int) == seq![piece] + rest);
            assert(done + (seq![piece] + rest) =~= done.push(piece) + rest);
            let ghost old_done = done;
            let ghost old_v = v@;
            v.push((start, i));
            proof {
                done = done.push(piece);
                assert forall|k: int| 0 <= k < v@.len() implies #[trigger] bounds_of(
                    s@,
                    v@[k],
                    done[k],
                ) by {
                    if k < v@.len() - 1 {
                        assert(done[k] == old_done[k]);
                        assert(v@[k] == old_v[k]);
                        assert(bounds_of(s@, old_v[k], old_done[k]));
                    }
                }
            }
            i = i + width;
            start = i;
        } else {
            i = i + 1;
        }
    }
    let ghost last = s@.subrange(start as int, s@.len() as int);
    assert(split_from(s@, start as int, i as int) == seq![last]);
    assert(done + seq![last] =~= done.push(last));
    let ghost old_done = done;
    let ghost old_v = v@;
    v.push((start, s.len()));
    proof {
        done = done.push(last);
        assert(done == statements(s@));
        assert forall|k: int| 0 <= k < v@.len() implies #[trigger] bounds_of(
            s@,
            v@[k],
            statements(s@)[k],
        ) by {
            if k < v@.len() - 1 {
                assert(done[k] == old_done[k]);
                assert(v@[k] == old_v[k]);
                assert(bounds_of(s@, old_v[k], old_done[k]));
            }
        }
    }
    v
}

/// `b` is a valid range of `s` holding `piece`.
pub open spec fn bounds_of(s: Seq<char>, b: (usize, usize), piece: Seq<char>) -> bool {
    b.0 <= b.1 <= s.len() && s.subrange(b.0 as int, b.1 as int) == piece
}

/// Split a command line into statements at `;`, `\r`, `\n`, `&&` and `||`.
pub fn split_statements(cmd: &str) -> (r: Vec<String>)
    ensures
        r@.len() == statements(cmd@).len(),
        forall|k: int| 0 <= k < r@.len() ==> #[trigger] r@[k]@ == statements(cmd@)[k],
{
    let s = chars_of(cmd);
    let b = statement_bounds(s.as_slice());
    let mut r: Vec<String> = Vec::new();
    let mut k: usize = 0;
    while k < b.len()
        invariant
            s@ == cmd@,
            k <= b@.len(),
            b@.len() == statements(s@).len(),
            forall|j: int|
                0 <= j < b@.len() ==> #[trigger] bounds_of(s@, b@[j], statements(s@)[j]),
            r@.len() == k,
            forall|j: int| 0 <= j < k ==> #[trigger] r@[j]@ == statements(s@)[j],
        decreases b.len() - k,
    {
        let (lo, hi) = b[k];
        assert(bounds_of(s@, b@[k as int], statements(s@)[k as int]));
        let piece = copy_range(s.as_slice(), lo, hi);
        r.push(string_of(piece.as_slice()));
        k = k + 1;
    }
    r
}

// ---------------------------------------------------------------------------
// Matching one statement
// ---------------------------------------------------------------------------

/// ASCII case folding, as `eq_ignore_ascii_case` does it: `A`..=`Z` map to
/// `a`..=`z`, every other character is itself.
pub open spec fn fold_case(c: char) -> int {
    if 'A' <= c <= 'Z' {
        c as int + 32
    } else {
        c as int
    }
}

/// `s[i..]` starts with `lit`, ignoring ASCII case.
pub open spec fn ci_prefix_at(s: Seq<char>, i: int, lit: Seq<char>) -> bool {
    &&& 0 <= i
    &&& i + lit.len() <= s.len()
    &&& forall|k: int| 0 <= k < lit.len() ==> fold_case(s[i + k]) == fold_case(#[trigger] lit[k])
}

pub open spec fn script_name() -> Seq<char> {
    seq!['i', 's', 's', 'u', 'e', '.', 'p', 's', '1']
}

pub open spec fn powershell_exe() -> Seq<char> {
    seq!['p', 'o', 'w', 'e', 'r', 's', 'h', 'e', 'l', 'l', '.', 'e', 'x', 'e']
}

pub open spec fn powershell() -> Seq<char> {
    seq!['p', 'o', 'w', 'e', 'r', 's', 'h', 'e', 'l', 'l']
}

pub open spec fn pwsh() -> Seq<char> {
    seq!['p', 'w', 's', 'h']
}

/// End of the shell name at `i` (`powershell.exe`, `powershell` or `pwsh`,
/// tried in that order), if one is there.
pub open spec fn shell_word_end(s: Seq<char>, i: int) -> Option<int> {
    if ci_prefix_at(s, i, powershell_exe()) {
        Some(i + 14)
    } else if ci_prefix_at(s, i, powershell()) {
        Some(i + 10)
    } else if ci_prefix_at(s, i, pwsh()) {
        Some(i + 4)
    } else {
        None
    }
}

/// Skip `-flag` words (each followed by whitespace) from `cur`. `None` when a
/// flag runs to the end of the text: then there is no script after it.
pub open spec fn skip_flags(s: Seq<char>, cur: int) -> Option<int>
    decreases s.len() - cur,
{
    if 0 <= cur < s.len() && s[cur] == '-' {
        let end = next_space(s, cur);
        if end >= s.len() {
            None
        } else {
            proof {
                lemma_next_space(s, cur);
                lemma_skip_space(s, end);
            }
            skip_flags(s, skip_space(s, end))
        }
    } else {
        Some(cur)
    }
}

/// Position after an optional `powershell[.exe] | pwsh` prefix and its flags.
/// The prefix only counts when whitespace follows the shell name and a word
/// that is not a flag follows the flags; otherwise nothing is skipped.
pub open spec fn after_shell(s: Seq<char>, i: int) -> int {
    match shell_word_end(s, i) {
        Some(r) => if r < s.len() && is_space(s[r]) {
            match skip_flags(s, skip_space(s, r)) {
                Some(c) => c,
                None => i,
            }
        } else {
            i
        },
        None => i,
    }
}

/// Position after an optional PowerShell call operator: `&` and whitespace.
pub open spec fn after_call(s: Seq<char>, i: int) -> int {
    if 0 <= i && i + 1 < s.len() && s[i] == '&' && is_space(s[i + 1]) {
        skip_space(s, i + 1)
    } else {
        i
    }
}

/// Position after an optional double quote.
pub open spec fn after_quote(s: Seq<char>, i: int) -> int {
    if 0 <= i < s.len() && s[i] == '"' {
        i + 1
    } else {
        i
    }
}

pub open spec fn is_sep_char(c: char) -> bool {
    c == '\\' || c == '/'
}

/// ASCII letters and digits, and `.`, `_`, `:`, `~`, `-`.
pub open spec fn path_char(c: char) -> bool {
    ||| 'a' <= c <= 'z'
    ||| 'A' <= c <= 'Z'
    ||| '0' <= c <= '9'
    ||| c == '.'
    ||| c == '_'
    ||| c == ':'
    ||| c == '~'
    ||| c == '-'
}

/// Scanning the run of path characters and separators from `i`: the
/// position just after the last separator seen (`cut` if none).
pub open spec fn path_cut(s: Seq<char>, i: int, cut: int) -> int
    decreases s.len() - i,
{
    if 0 <= i < s.len() && is_sep_char(s[i]) {
        path_cut(s, i + 1, i + 1)
    } else if 0 <= i < s.len() && path_char(s[i]) {
        path_cut(s, i + 1, cut)
    } else {
        cut
    }
}

/// Position after an optional directory prefix `(?:[.\w:~-]*[\\/])*`.
pub open spec fn after_path(s: Seq<char>, i: int) -> int {
    path_cut(s, i, i)
}

/// What `issue.ps1 <verb> <n>` at the start of statement `s` claims: `n`,
/// when `s` is, in order: optional whitespace, an optional shell prefix, an
/// optional `& `, an optional `"`, an optional directory, `issue.ps1` (any
/// ASCII case), an optional `"`, whitespace, `verb` (any ASCII case),
/// whitespace, and decimal digits whose value fits in a `u32`.
pub open spec fn invocation(s: Seq<char>, verb: Seq<char>) -> Option<u32> {
    let p = after_path(s, after_quote(s, after_call(s, after_shell(s, skip_space(s, 0)))));
    if !ci_prefix_at(s, p, script_name()) {
        None
    } else {
        let q = after_quote(s, p + 9);
        if !(q < s.len() && is_space(s[q])) {
            None
        } else {
            let r = skip_space(s, q);
            if !ci_prefix_at(s, r, verb) {
                None
            } else {
                let t = r + verb.len();
                if !(t < s.len() && is_space(s[t])) {
                    None
                } else {
                    let u = skip_space(s, t);
                    let e = digit_end(s, u);
                    if e == u || decimal(s.subrange(u, e)) > u32::MAX {
                        None
                    } else {
                        Some(decimal(s.subrange(u, e)) as u32)
                    }
                }
            }
        }
    }
}

/// The first statement, from index `k` on, that is an invocation.
pub open spec fn first_invocation(stmts: Seq<Seq<char>>, verb: Seq<char>, k: int) -> Option<u32>
    decreases stmts.len() - k,
{
    if k < 0 || k >= stmts.len() {
        None
    } else {
        match invocation(stmts[k], verb) {
            Some(n) => Some(n),
            None => first_invocation(stmts, verb, k + 1),
        }
    }
}

fn script_name_chars() -> (v: Vec<char>)
    ensures
        v@ == script_name(),
{
    let v = vec!['i', 's', 's', 'u', 'e', '.', 'p', 's', '1'];
    assert(v@ =~= script_name());
    v
}

fn fold_case_code(c: char) -> (r: u32)
    ensures
        r == fold_case(c),
{
    if 'A' <= c && c <= 'Z' {
        c as u32 + 32
    } else {
        c as u32
    }
}

/// `ci_prefix_at(s, i, lit)`, computed.
fn ci_prefix(s: &[char], i: usize, lit: &[char]) -> (r: bool)
    ensures
        r == ci_prefix_at(s@, i as int, lit@),
{
    if i > s.len() || lit.len() > s.len() - i {
        return false;
    }
    let n = s.len();
    let mut k: usize = 0;
    while k < lit.len()
        invariant
            n == s@.len(),
            i + lit@.len() <= s@.len(),
            k <= lit@.len(),
            forall|j: int| 0 <= j < k ==> fold_case(s@[i + j]) == fold_case(#[trigger] lit@[j]),
        decreases lit.len() - k,
    {
        if fold_case_code(s[i + k]) != fold_case_code(lit[k]) {
            return false;
        }
        k = k + 1;
    }
    true
}

/// `after_shell(s, i)`, computed.
fn strip_shell_prefix(s: &[char], i: usize) -> (r: usize)
    requires
        i <= s@.len(),
    ensures
        r == after_shell(s@, i as int),
        i <= r <= s@.len(),
{
    let pe = vec!['p', 'o', 'w', 'e', 'r', 's', 'h', 'e', 'l', 'l', '.', 'e', 'x', 'e'];
    let ps = vec!['p', 'o', 'w', 'e', 'r', 's', 'h', 'e', 'l', 'l'];
    let pw = vec!['p', 'w', 's', 'h'];
    assert(pe@ =~= powershell_exe());
    assert(ps@ =~= powershell());
    assert(pw@ =~= pwsh());
    let n = s.len();
    let rest: usize = if ci_prefix(s, i, pe.as_slice()) {
        i + 14
    } else if ci_prefix(s, i, ps.as_slice()) {
        i + 10
    } else if ci_prefix(s, i, pw.as_slice()) {
        i + 4
    } else {
        return i;
    };
    if !(rest < s.len() && is_whitespace(s[rest])) {
        return i;
    }
    let mut cur = skip_space_at(s, rest);
    while cur < s.len() && s[cur] == '-'
        invariant
            i <= rest <= cur <= s@.len(),
            shell_word_end(s@, i as int) == Some(rest as int),
            rest < s@.len() && is_space(s@[rest as int]),
            skip_flags(s@, skip_space(s@, rest as int)) == skip_flags(s@, cur as int),
        decreases s.len() - cur,
    {
        let end = next_space_at(s, cur);
        proof {
            lemma_next_space(s@, cur as int);
        }
        if end >= s.len() {
            return i;
        }
        cur = skip_space_at(s, end);
    }
    cur
}

/// `after_call(s, i)`, computed.
fn strip_call_operator(s: &[char], i: usize) -> (r: usize)
    requires
        i <= s@.len(),
    ensures
        r == after_call(s@, i as int),
        i <= r <= s@.len(),
{
    if i < s.len() && i + 1 < s.len() && s[i] == '&' && is_whitespace(s[i + 1]) {
        skip_space_at(s, i + 1)
    } else {
        i
    }
}

/// `after_quote(s, i)`, computed.
fn strip_quote(s: &[char], i: usize) -> (r: usize)
    requires
        i <= s@.len(),
    ensures
        r == after_quote(s@, i as int),
        i <= r <= s@.len(),
{
    if i < s.len() && s[i] == '"' {
        i + 1
    } else {
        i
    }
}

/// `path_char(c)`, computed.
pub fn is_path_char(c: char) -> (r: bool)
    ensures
        r == path_char(c),
{
    ('a' <= c && c <= 'z') || ('A' <= c && c <= 'Z') || ('0' <= c && c <= '9') || c == '.' || c
        == '_' || c == ':' || c == '~' || c == '-'
}

/// `after_path(s, i)`, computed.
fn strip_path_prefix(s: &[char], i: usize) -> (r: usize)
    requires
        i <= s@.len(),
    ensures
        r == after_path(s@, i as int),
        i <= r <= s@.len(),
{
    let mut cut = i;
    let mut j = i;
    while j < s.len()
        invariant
            i <= cut <= j <= s@.len(),
            path_cut(s@, j as int, cut as int) == path_cut(s@, i as int, i as int),
        decreases s.len() - j,
    {
        let c = s[j];
        if c == '\\' || c == '/' {
            cut = j + 1;
        } else if !is_path_char(c) {
            return cut;
        }
        j = j + 1;
    }
    cut
}

/// `ci_prefix_at(s, i, lit)` then the position after the prefix.
fn strip_ci_prefix(s: &[char], i: usize, lit: &[char]) -> (r: Option<usize>)
    requires
        i <= s@.len(),
    ensures
        r is Some <==> ci_prefix_at(s@, i as int, lit@),
        r matches Some(j) ==> j == i + lit@.len() && j <= s@.len(),
{
    let n = s.len();
    if ci_prefix(s, i, lit) {
        assert(i + lit@.len() <= n);
        Some(i + lit.len())
    } else {
        None
    }
}

/// `invocation(s, verb)`, computed.
fn match_invocation(s: &[char], verb: &[char]) -> (r: Option<u32>)
    ensures
        r == invocation(s@, verb@),
{
    let p0 = skip_space_at(s, 0);
    let p1 = strip_shell_prefix(s, p0);
    let p2 = strip_call_operator(s, p1);
    let p3 = strip_quote(s, p2);
    let p = strip_path_prefix(s, p3);
    let name = script_name_chars();
    let p9 = match strip_ci_prefix(s, p, name.as_slice()) {
        Some(j) => j,
        None => return None,
    };
    let q = strip_quote(s, p9);
    if !(q < s.len() && is_whitespace(s[q])) {
        return None;
    }
    let r = skip_space_at(s, q);
    let t = match strip_ci_prefix(s, r, verb) {
        Some(j) => j,
        None => return None,
    };
    if !(t < s.len() && is_whitespace(s[t])) {
        return None;
    }
    let u = skip_space_at(s, t);
    let mut e = u;
    let mut value: u64 = 0;
    proof {
        lemma_digit_end(s@, u as int);
    }
    let ghost de = digit_end(s@, u as int);
    assert(invocation(s@, verb@) == (if de == u || decimal(s@.subrange(u as int, de)) > u32::MAX {
        None
    } else {
        Some(decimal(s@.subrange(u as int, de)) as u32)
    }));
    while e < s.len() && '0' <= s[e] && s[e] <= '9'
        invariant
            invocation(s@, verb@) == (if de == u || decimal(s@.subrange(u as int, de))
                > u32::MAX {
                None
            } else {
                Some(decimal(s@.subrange(u as int, de)) as u32)
            }),
            de == digit_end(s@, u as int),
            u <= e <= s@.len(),
            digit_end(s@, e as int) == digit_end(s@, u as int),
            forall|k: int| u <= k < e ==> is_ascii_digit(#[trigger] s@[k]),
            value == decimal(s@.subrange(u as int, e as int)),
            value <= u32::MAX,
        decreases s.len() - e,
    {
        let digit = (s[e] as u32 - '0' as u32) as u64;
        let next = value * 10 + digit;
        let ghost d = s@.subrange(u as int, e + 1);
        assert(d.drop_last() =~= s@.subrange(u as int, e as int));
        assert(decimal(d) == next);
        if next > u32::MAX as u64 {
            proof {
                lemma_digit_end(s@, u as int);
                lemma_digit_end(s@, e + 1);
                let de = digit_end(s@, u as int);
                assert(digit_end(s@, e as int) == digit_end(s@, e + 1));
                let full = s@.subrange(u as int, de);
                assert forall|j: int| 0 <= j < full.len() implies is_ascii_digit(
                    #[trigger] full[j],
                ) by {
                    assert(full[j] == s@[u + j]);
                }
                assert(full.take(e + 1 - u) =~= d);
                lemma_decimal_prefix(full, e + 1 - u);
            }
            return None;
        }
        value = next;
        e = e + 1;
    }
    if e == u {
        return None;
    }
    Some(value as u32)
}

/// Match a real `issue.ps1 <verb> <n>` invocation at statement position.
///
/// Not any mention of the text: a quoted payload that mentions the script is
/// not an invocation. Statement boundaries are `;`, newlines, `&&` and `||`.
/// The first statement that is an invocation gives the number.
pub fn issue_invocation(cmd: &str, verb: &str) -> (r: Option<u32>)
    ensures
        r == first_invocation(statements(cmd@), verb@, 0),
{
    let s = chars_of(cmd);
    let v = chars_of(verb);
    let b = statement_bounds(s.as_slice());
    let mut k: usize = 0;
    while k < b.len()
        invariant
            s@ == cmd@,
            v@ == verb@,
            k <= b@.len(),
            b@.len() == statements(s@).len(),
            forall|j: int|
                0 <= j < b@.len() ==> #[trigger] bounds_of(s@, b@[j], statements(s@)[j]),
            first_invocation(statements(s@), v@, k as int) == first_invocation(
                statements(s@),
                v@,
                0,
            ),
        decreases b.len() - k,
    {
        let (lo, hi) = b[k];
        assert(bounds_of(s@, b@[k as int], statements(s@)[k as int]));
        let stmt = copy_range(s.as_slice(), lo, hi);
        assert(stmt@ == statements(s@)[k as int]);
        if let Some(n) = match_invocation(stmt.as_slice(), v.as_slice()) {
            return Some(n);
        }
        k = k + 1;
    }
    None
}


// ---------------------------------------------------------------------------
// What the hook does
// ---------------------------------------------------------------------------

/// The session the payload belongs to: its `session_id`, unless missing or
/// empty (then the hook does nothing).
pub open spec fn hook_session(v: Value) -> Option<Seq<char>> {
    match field(v, "session_id"@) {
        Value::Str(t) => if t.len() > 0 {
            Some(t)
        } else {
            None
        },
        _ => None,
    }
}

/// The payload's session, if it names one.
pub fn session_of(input: &Json) -> (r: Option<String>)
    ensures
        match r {
            Some(t) => hook_session(input@) == Some(t@),
            None => hook_session(input@) is None,
        },
{
    match input.get("session_id").as_str() {
        Some(t) => if t.is_empty() {
            None
        } else {
            Some(String::from_str(t))
        },
        None => None,
    }
}

pub open spec fn clear_lit() -> Seq<char> {
    seq!['c', 'l', 'e', 'a', 'r']
}

pub open spec fn claim_lit() -> Seq<char> {
    seq!['c', 'l', 'a', 'i', 'm']
}

pub open spec fn done_lit() -> Seq<char> {
    seq!['d', 'o', 'n', 'e']
}

/// What happens to `<id>.state`.
#[derive(PartialEq, Eq, Structural, Debug)]
pub enum StateChange {
    /// Delete it (`clear`).
    Remove,
    /// Write the mode into it: a transition, so its mtime marks the new stint.
    Write,
    /// Leave it alone.
    Keep,
}

/// `clear` removes the state file; `working` and `waiting` write the mode,
/// but only on a transition (the file's mtime is the stint's start).
pub open spec fn state_change(mode: Seq<char>, prev: Option<Seq<char>>) -> StateChange {
    if mode == clear_lit() {
        StateChange::Remove
    } else if mode == working_lit() || mode == waiting_lit() {
        if prev == Some(mode) {
            StateChange::Keep
        } else {
            StateChange::Write
        }
    } else {
        StateChange::Keep
    }
}

/// What to do with the state file, given the hook's mode and the file's
/// current (trimmed) content.
pub fn state_change_for(mode: &str, prev: &Option<String>) -> (r: StateChange)
    ensures
        r == state_change(
            mode@,
            match prev {
                Some(p) => Some(p@),
                None => None,
            },
        ),
{
    let m = chars_of(mode);
    let clear = vec!['c', 'l', 'e', 'a', 'r'];
    let working = vec!['w', 'o', 'r', 'k', 'i', 'n', 'g'];
    let waiting = vec!['w', 'a', 'i', 't', 'i', 'n', 'g'];
    assert(clear@ =~= clear_lit());
    assert(working@ =~= working_lit());
    assert(waiting@ =~= waiting_lit());
    if chars_equal(m.as_slice(), clear.as_slice()) {
        StateChange::Remove
    } else if chars_equal(m.as_slice(), working.as_slice()) || chars_equal(
        m.as_slice(),
        waiting.as_slice(),
    ) {
        match prev {
            Some(p) => {
                let pc = chars_of(p.as_str());
                if chars_equal(pc.as_slice(), m.as_slice()) {
                    StateChange::Keep
                } else {
                    StateChange::Write
                }
            },
            None => StateChange::Write,
        }
    } else {
        StateChange::Keep
    }
}

/// The command of the tool call the hook fires for (`tool_input.command`),
/// empty if there is none.
pub fn tool_command(input: &Json) -> (r: String)
    ensures
        r@ == text_or_empty(field(field(input@, "tool_input"@), "command"@)),
{
    match input.get("tool_input").get("command").as_str() {
        Some(t) => String::from_str(t),
        None => String::new(),
    }
}

/// What happens to the session's claimed issue.
#[derive(PartialEq, Eq, Structural, Debug)]
pub enum IssueAction {
    /// `issue.ps1 claim <n>` ran: pin issue `n`.
    Claim(u32),
    /// `issue.ps1 done <n>` ran: unpin.
    Done,
    Nothing,
}

/// A claim wins over a done in the same command.
pub open spec fn issue_action_of(cmd: Seq<char>) -> IssueAction {
    if cmd.len() == 0 {
        IssueAction::Nothing
    } else {
        match first_invocation(statements(cmd), claim_lit(), 0) {
            Some(n) => IssueAction::Claim(n),
            None => if first_invocation(statements(cmd), done_lit(), 0) is Some {
                IssueAction::Done
            } else {
                IssueAction::Nothing
            },
        }
    }
}

/// What the tool call's command does to the claimed issue.
pub fn issue_action(cmd: &str) -> (r: IssueAction)
    ensures
        r == issue_action_of(cmd@),
{
    if cmd.is_empty() {
        return IssueAction::Nothing;
    }
    let claim = "claim";
    let done = "done";
    proof {
        reveal_strlit("claim");
        reveal_strlit("done");
        assert(claim@ =~= claim_lit());
        assert(done@ =~= done_lit());
    }
    match issue_invocation(cmd, claim) {
        Some(n) => IssueAction::Claim(n),
        None => if issue_invocation(cmd, done).is_some() {
            IssueAction::Done
        } else {
            IssueAction::Nothing
        },
    }
}

/// The first `max` characters.
pub fn truncate_chars(s: &str, max: usize) -> (r: String)
    ensures
        r@ == (if s@.len() > max {
            s@.take(max as int)
        } else {
            s@
        }),
{
    let c = chars_of(s);
    if c.len() > max {
        let t = copy_range(c.as_slice(), 0, max);
        assert(c@.subrange(0, max as int) =~= c@.take(max as int));
        string_of(t.as_slice())
    } else {
        string_of(c.as_slice())
    }
}

/// The `.issue` text for a claim: `#<n>`, then a space and the issue's title
/// cut to 120 characters when the title is known.
pub open spec fn issue_label_of(num: u32, title: Option<Seq<char>>) -> Seq<char> {
    seq!['#'] + dec(num as nat) + match title {
        Some(t) => seq![' '] + (if t.len() > 120 {
            t.take(120)
        } else {
            t
        }),
        None => Seq::empty(),
    }
}

/// The label written to `<id>.issue` for a claimed issue.
pub fn issue_label(num: u32, title: &Option<String>) -> (r: String)
    ensures
        r@ == issue_label_of(
            num,
            match title {
                Some(t) => Some(t@),
                None => None,
            },
        ),
{
    let mut out = vec!['#'];
    push_decimal(&mut out, num as u64);
    match title {
        Some(t) => {
            out.push(' ');
            let cut = truncate_chars(t.as_str(), 120);
            let cc = chars_of(cut.as_str());
            extend_chars(&mut out, cc.as_slice());
        },
        None => {},
    }
    assert(out@ =~= issue_label_of(
        num,
        match title {
            Some(t) => Some(t@),
            None => None,
        },
    ));
    string_of(out.as_slice())
}

/// The line appended to `<id>.history` when an issue is claimed, so that
/// later titles are anchored to it.
pub open spec fn history_note_of(label: Seq<char>) -> Seq<char> {
    seq!['\n', '('] + seq!['c', 'l', 'a', 'i', 'm', 'e', 'd', ' ', 'i', 's', 's', 'u', 'e', ' ']
        + label + seq![')', '\n']
}

pub fn history_note(label: &str) -> (r: String)
    ensures
        r@ == history_note_of(label@),
{
    let mut out = vec!['\n', '(', 'c', 'l', 'a', 'i', 'm', 'e', 'd', ' ', 'i', 's', 's', 'u', 'e', ' '];
    let lc = chars_of(label);
    extend_chars(&mut out, lc.as_slice());
    out.push(')');
    out.push('\n');
    assert(out@ =~= history_note_of(label@));
    string_of(out.as_slice())
}

/// The words of `s[i..]`: maximal runs of non-whitespace, in order.
pub open spec fn words_from(s: Seq<char>, i: int) -> Seq<Seq<char>>
    decreases s.len() - i,
{
    if i < 0 || i >= s.len() {
        Seq::empty()
    } else {
        let a = skip_space(s, i);
        if a >= s.len() {
            Seq::empty()
        } else {
            proof {
                lemma_skip_space(s, i);
                lemma_next_space(s, a);
            }
            let b = next_space(s, a);
            seq![s.subrange(a, b)] + words_from(s, b)
        }
    }
}

/// Words joined by single spaces.
pub open spec fn spaced(ws: Seq<Seq<char>>) -> Seq<char>
    decreases ws.len(),
{
    if ws.len() == 0 {
        Seq::empty()
    } else if ws.len() == 1 {
        ws[0]
    } else {
        ws[0] + seq![' '] + spaced(ws.drop_first())
    }
}

/// An issue title as `gh` printed it, whitespace collapsed; `None` if blank.
pub open spec fn title_of(out: Seq<char>) -> Option<Seq<char>> {
    let t = spaced(words_from(out, 0));
    if t.len() == 0 {
        None
    } else {
        Some(t)
    }
}

proof fn lemma_spaced_push(ws: Seq<Seq<char>>, w: Seq<char>)
    ensures
        spaced(ws.push(w)) == if ws.len() == 0 {
            w
        } else {
            spaced(ws) + seq![' '] + w
        },
    decreases ws.len(),
{
    let p = ws.push(w);
    if ws.len() == 0 {
        assert(p.len() == 1 && p[0] == w);
    } else if ws.len() == 1 {
        assert(p.drop_first() =~= seq![w]);
        assert(spaced(seq![w]) == w);
        assert(p[0] == ws[0]);
    } else {
        lemma_spaced_push(ws.drop_first(), w);
        assert(p.drop_first() =~= ws.drop_first().push(w));
        assert(p[0] == ws[0]);
        assert(spaced(p) == ws[0] + seq![' '] + (spaced(ws.drop_first()) + seq![' '] + w));
        assert(spaced(ws) == ws[0] + seq![' '] + spaced(ws.drop_first()));
        assert(spaced(p) =~= spaced(ws) + seq![' '] + w);
    }
}

/// Collapse the whitespace of `gh`'s output into single spaces.
pub fn normalize_title(out: &str) -> (r: Option<String>)
    ensures
        match r {
            Some(t) => title_of(out@) == Some(t@),
            None => title_of(out@) is None,
        },
{
    let s = chars_of(out);
    let n = s.len();
    let ghost all = words_from(s@, 0);
    let ghost mut k: int = 0;
    let mut acc: Vec<char> = Vec::new();
    let mut i: usize = 0;
    assert(all.take(0) =~= Seq::<Seq<char>>::empty());
    assert(all.skip(0) =~= all);
    loop
        invariant
            n == s@.len(),
            i <= n,
            0 <= k <= all.len(),
            all == words_from(s@, 0),
            words_from(s@, i as int) == all.skip(k),
            acc@ == spaced(all.take(k)),
            (acc@.len() == 0) == (k == 0),
        ensures
            words_from(s@, i as int).len() == 0,
            0 <= k <= all.len(),
            words_from(s@, i as int) == all.skip(k),
            acc@ == spaced(all.take(k)),
            (acc@.len() == 0) == (k == 0),
        decreases n - i,
    {
        let a = skip_space_at(s.as_slice(), i);
        if a >= n {
            assert(words_from(s@, i as int).len() == 0);
            break;
        }
        proof {
            lemma_skip_space(s@, i as int);
            lemma_next_space(s@, a as int);
        }
        let b = next_space_at(s.as_slice(), a);
        let ghost w = s@.subrange(a as int, b as int);
        assert(b > a);
        assert(words_from(s@, i as int) == seq![w] + words_from(s@, b as int));
        assert(all.skip(k)[0] == w);
        assert(all.skip(k + 1) =~= words_from(s@, b as int)) by {
            assert(all.skip(k).drop_first() =~= all.skip(k + 1));
        }
        proof {
            lemma_spaced_push(all.take(k), w);
            assert(all.take(k + 1) =~= all.take(k).push(w));
        }
        let ghost before = acc@;
        if acc.len() > 0 {
            acc.push(' ');
        }
        let piece = copy_range(s.as_slice(), a, b);
        extend_chars(&mut acc, piece.as_slice());
        proof {
            if k == 0 {
                assert(acc@ =~= w);
            } else {
                assert(acc@ =~= before + seq![' '] + w);
            }
            k = k + 1;
        }
        i = b;
    }
    assert(all.skip(k).len() == 0);
    assert(all.take(k) =~= all);
    if acc.len() == 0 {
        None
    } else {
        Some(string_of(acc.as_slice()))
    }
}

/// What the child process looks like when polled.
pub enum Probe {
    Exited,
    Running,
    Failed,
}

/// The next move while waiting for a child with a time limit.
#[derive(PartialEq, Eq, Structural, Debug)]
pub enum WaitStep {
    /// It exited: collect its output.
    Collect,
    /// It outran the limit: kill it and give up.
    Kill,
    /// Still running within the limit: sleep and poll again.
    Sleep,
    /// Polling failed: give up.
    GiveUp,
}

/// Decide the next move from a poll and the time waited so far.
pub fn wait_step(probe: Probe, elapsed_ns: u128, limit_ns: u128) -> (r: WaitStep)
    ensures
        r == match probe {
            Probe::Exited => WaitStep::Collect,
            Probe::Running => if elapsed_ns > limit_ns {
                WaitStep::Kill
            } else {
                WaitStep::Sleep
            },
            Probe::Failed => WaitStep::GiveUp,
        },
{
    match probe {
        Probe::Exited => WaitStep::Collect,
        Probe::Running => if elapsed_ns > limit_ns {
            WaitStep::Kill
        } else {
            WaitStep::Sleep
        },
        Probe::Failed => WaitStep::GiveUp,
    }
}

/// The payload handed to the summarizer to regenerate a title:
/// `{"session_id":"<id>"}`, the id written as it is.
pub open spec fn refresh_payload_of(id: Seq<char>) -> Seq<char> {
    seq!['{', '"', 's', 'e', 's', 's', 'i', 'o', 'n', '_', 'i', 'd', '"', ':', '"'] + id + seq![
        '"',
        '}',
    ]
}

pub fn refresh_payload(id: &str) -> (r: String)
    ensures
        r@ == refresh_payload_of(id@),
{
    let mut out = vec!['{', '"', 's', 'e', 's', 's', 'i', 'o', 'n', '_', 'i', 'd', '"', ':', '"'];
    let ic = chars_of(id);
    extend_chars(&mut out, ic.as_slice());
    out.push('"');
    out.push('}');
    assert(out@ =~= refresh_payload_of(id@));
    string_of(out.as_slice())
}


// ---------------------------------------------------------------------------
// Laws
// ---------------------------------------------------------------------------

/// No statement boundary starts anywhere in `t`.
pub open spec fn no_boundary(t: Seq<char>) -> bool {
    forall|j: int| 0 <= j < t.len() ==> #[trigger] sep_width(t, j) == 0
}

proof fn lemma_clean_piece(s: Seq<char>, start: int, e: int)
    requires
        0 <= start <= e <= s.len(),
        forall|j: int| start <= j < e ==> #[trigger] sep_width(s, j) == 0,
    ensures
        no_boundary(s.subrange(start, e)),
{
    let p = s.subrange(start, e);
    assert forall|j: int| 0 <= j < p.len() implies #[trigger] sep_width(p, j) == 0 by {
        assert(p[j] == s[start + j]);
        assert(sep_width(s, start + j) == 0);
        if j + 1 < p.len() {
            assert(p[j + 1] == s[start + j + 1]);
        }
    }
}

proof fn lemma_split_from_clean(s: Seq<char>, start: int, i: int)
    requires
        0 <= start <= i <= s.len(),
        forall|j: int| start <= j < i ==> #[trigger] sep_width(s, j) == 0,
    ensures
        forall|k: int|
            0 <= k < split_from(s, start, i).len() ==> no_boundary(#[trigger] split_from(s, start, i)[k]),
    decreases s.len() - i,
{
    let parts = split_from(s, start, i);
    if i >= s.len() {
        lemma_clean_piece(s, start, s.len() as int);
        assert(parts =~= seq![s.subrange(start, s.len() as int)]);
    } else if sep_width(s, i) > 0 {
        let w = sep_width(s, i);
        lemma_clean_piece(s, start, i);
        lemma_split_from_clean(s, i + w, i + w);
        let rest = split_from(s, i + w, i + w);
        assert(parts =~= seq![s.subrange(start, i)] + rest);
        assert forall|k: int| 0 <= k < parts.len() implies no_boundary(#[trigger] parts[k]) by {
            if k > 0 {
                assert(parts[k] == rest[k - 1]);
            }
        }
    } else {
        lemma_split_from_clean(s, start, i + 1);
        assert(parts == split_from(s, start, i + 1));
    }
}

/// The statements a command splits into hold no boundary themselves: each
/// `;`, line break, `&&` and `||` ends a statement.
pub proof fn statements_hold_no_boundary(cmd: Seq<char>)
    ensures
        forall|k: int| 0 <= k < statements(cmd).len() ==> no_boundary(#[trigger] statements(cmd)[k]),
{
    lemma_split_from_clean(cmd, 0, 0);
}

/// `claim` and `done` never match the same statement: a claim is not read
/// as a done, nor a done as a claim.
pub proof fn claim_and_done_exclude_each_other(stmt: Seq<char>)
    ensures
        !(invocation(stmt, claim_lit()) is Some && invocation(stmt, done_lit()) is Some),
{
    if invocation(stmt, claim_lit()) is Some && invocation(stmt, done_lit()) is Some {
        let p = after_path(
            stmt,
            after_quote(stmt, after_call(stmt, after_shell(stmt, skip_space(stmt, 0)))),
        );
        let r = skip_space(stmt, after_quote(stmt, p + 9));
        assert(ci_prefix_at(stmt, r, claim_lit()));
        assert(ci_prefix_at(stmt, r, done_lit()));
        assert(fold_case(stmt[r + 0]) == fold_case(claim_lit()[0]));
        assert(fold_case(stmt[r + 0]) == fold_case(done_lit()[0]));
        assert(false);
    }
}

/// The state file is written only on a transition: a `working` or `waiting`
/// event leaves the file alone when it already holds that mode (its mtime
/// stays the start of the stint), and writes it otherwise.
pub proof fn state_written_only_on_transition(mode: Seq<char>, prev: Option<Seq<char>>)
    requires
        mode == working_lit() || mode == waiting_lit(),
    ensures
        state_change(mode, Some(mode)) == StateChange::Keep,
        prev != Some(mode) ==> state_change(mode, prev) == StateChange::Write,
{
    assert(working_lit() != clear_lit());
    assert(waiting_lit() != clear_lit());
}

/// What the hook writes to `<id>.state` is what the statusline reads back
/// from it (trimmed): the mode itself.
pub proof fn written_state_reads_back(mode: Seq<char>)
    requires
        mode == working_lit() || mode == waiting_lit(),
    ensures
        trimmed_text(mode) == Some(mode),
{
    let n = mode.len() as int;
    assert(!is_space(mode[0]));
    assert(!is_space(mode[n - 1]));
    assert(skip_space(mode, 0) == 0);
    assert(trim_back(mode, 0, n) == n);
    assert(trim(mode) =~= mode);
}

proof fn lemma_trim_back_keeps(s: Seq<char>, lo: int, j: int, m: int)
    requires
        lo < m <= j <= s.len(),
        !is_space(s[m - 1]),
    ensures
        trim_back(s, lo, j) >= m,
    decreases j - lo,
{
    if j > m && is_space(s[j - 1]) {
        lemma_trim_back_keeps(s, lo, j - 1, m);
    }
}

/// What the state hook writes to `<id>.issue` for a claim shows, once the
/// renderer has read it back, as the chip `#<n>` of the claimed number.
pub proof fn claimed_issue_shows_as_its_chip(num: u32, title: Option<Seq<char>>)
    ensures
        trimmed_text(issue_label_of(num, title)) matches Some(raw) && issue_chip(raw) == Some(
            seq!['#'] + dec(num as nat),
        ),
{
    let label = issue_label_of(num, title);
    let d = dec(num as nat);
    let n = d.len() as int;
    lemma_dec_digits(num as nat);
    assert(label[0] == '#');
    assert forall|k: int| 1 <= k < 1 + n implies label[k] == d[k - 1] by {}
    assert(label.len() >= 1 + n);
    assert(is_ascii_digit(label[n]));
    assert(!is_space(label[n]));
    assert(!is_space(label[0]));
    assert(skip_space(label, 0) == 0);
    lemma_trim_back_keeps(label, 0, label.len() as int, 1 + n);
    lemma_trim_back(label, 0, label.len() as int);
    let e = trim_back(label, 0, label.len() as int);
    let raw = label.subrange(0, e);
    assert(trim(label) == raw);
    assert(raw.len() > 0);
    assert forall|k: int| 1 <= k < 1 + n implies is_ascii_digit(#[trigger] raw[k]) by {
        assert(raw[k] == d[k - 1]);
    }
    if 1 + n < raw.len() {
        assert(raw[1 + n] == ' ');
    }
    lemma_digit_end_at(raw, 1, 1 + n);
    assert(raw.subrange(0, 1 + n) =~= seq!['#'] + d);
}


/// `s` and `t` differ at most in the ASCII case of their letters.
pub open spec fn case_twins(s: Seq<char>, t: Seq<char>) -> bool {
    &&& s.len() == t.len()
    &&& forall|i: int| 0 <= i < s.len() ==> fold_case(#[trigger] s[i]) == fold_case(t[i])
}

proof fn lemma_fold_twins(c: char, d: char)
    requires
        fold_case(c) == fold_case(d),
    ensures
        is_space(c) == is_space(d),
        path_char(c) == path_char(d),
        is_sep_char(c) == is_sep_char(d),
        (c == '&') == (d == '&'),
        (c == '"') == (d == '"'),
        (c == '-') == (d == '-'),
        is_ascii_digit(c) == is_ascii_digit(d),
        is_ascii_digit(c) ==> c == d,
{
    let up_c = 'A' <= c <= 'Z';
    let up_d = 'A' <= d <= 'Z';
    if up_c == up_d {
        assert(c as int == d as int);
    } else if up_c {
        assert('a' <= d <= 'z');
    } else {
        assert('a' <= c <= 'z');
    }
}

proof fn lemma_skip_space_twins(s: Seq<char>, t: Seq<char>, i: int)
    requires
        case_twins(s, t),
    ensures
        skip_space(s, i) == skip_space(t, i),
    decreases s.len() - i,
{
    if 0 <= i < s.len() {
        lemma_fold_twins(s[i], t[i]);
        lemma_skip_space_twins(s, t, i + 1);
    }
}

proof fn lemma_next_space_twins(s: Seq<char>, t: Seq<char>, i: int)
    requires
        case_twins(s, t),
    ensures
        next_space(s, i) == next_space(t, i),
    decreases s.len() - i,
{
    if 0 <= i < s.len() {
        lemma_fold_twins(s[i], t[i]);
        lemma_next_space_twins(s, t, i + 1);
    }
}

proof fn lemma_digit_end_twins(s: Seq<char>, t: Seq<char>, i: int)
    requires
        case_twins(s, t),
    ensures
        digit_end(s, i) == digit_end(t, i),
    decreases s.len() - i,
{
    if 0 <= i < s.len() {
        lemma_fold_twins(s[i], t[i]);
        lemma_digit_end_twins(s, t, i + 1);
    }
}

proof fn lemma_ci_prefix_twins(s: Seq<char>, t: Seq<char>, i: int, lit: Seq<char>)
    requires
        case_twins(s, t),
    ensures
        ci_prefix_at(s, i, lit) == ci_prefix_at(t, i, lit),
{
    if 0 <= i && i + lit.len() <= s.len() {
        assert forall|k: int| 0 <= k < lit.len() implies (fold_case(s[i + k]) == fold_case(
            #[trigger] lit[k],
        )) == (fold_case(t[i + k]) == fold_case(lit[k])) by {
            assert(fold_case(s[i + k]) == fold_case(t[i + k]));
        }
    }
}

proof fn lemma_skip_flags_twins(s: Seq<char>, t: Seq<char>, cur: int)
    requires
        case_twins(s, t),
    ensures
        skip_flags(s, cur) == skip_flags(t, cur),
    decreases s.len() - cur,
{
    if 0 <= cur < s.len() {
        lemma_fold_twins(s[cur], t[cur]);
        if s[cur] == '-' {
            lemma_next_space_twins(s, t, cur);
            let end = next_space(s, cur);
            if end < s.len() {
                lemma_next_space(s, cur);
                lemma_skip_space(s, end);
                lemma_skip_space_twins(s, t, end);
                lemma_skip_flags_twins(s, t, skip_space(s, end));
            }
        }
    }
}

proof fn lemma_path_cut_twins(s: Seq<char>, t: Seq<char>, i: int, cut: int)
    requires
        case_twins(s, t),
    ensures
        path_cut(s, i, cut) == path_cut(t, i, cut),
    decreases s.len() - i,
{
    if 0 <= i < s.len() {
        lemma_fold_twins(s[i], t[i]);
        lemma_path_cut_twins(s, t, i + 1, i + 1);
        lemma_path_cut_twins(s, t, i + 1, cut);
    }
}

/// Matching ignores ASCII case: a statement that differs from another only
/// in the case of its letters invokes the same verb with the same number
/// (`ISSUE.PS1 CLAIM 7` is `issue.ps1 claim 7`).
pub proof fn invocation_ignores_ascii_case(s: Seq<char>, t: Seq<char>, verb: Seq<char>)
    requires
        case_twins(s, t),
    ensures
        invocation(s, verb) == invocation(t, verb),
{
    lemma_skip_space_twins(s, t, 0);
    let a = skip_space(s, 0);
    // The shell prefix.
    lemma_ci_prefix_twins(s, t, a, powershell_exe());
    lemma_ci_prefix_twins(s, t, a, powershell());
    lemma_ci_prefix_twins(s, t, a, pwsh());
    assert(shell_word_end(s, a) == shell_word_end(t, a));
    match shell_word_end(s, a) {
        Some(r) => {
            if 0 <= r < s.len() {
                lemma_fold_twins(s[r], t[r]);
            }
            lemma_skip_space_twins(s, t, r);
            lemma_skip_flags_twins(s, t, skip_space(s, r));
        },
        None => {},
    }
    let b = after_shell(s, a);
    assert(b == after_shell(t, a));
    // The call operator, the quote and the directory.
    if 0 <= b && b + 1 < s.len() {
        lemma_fold_twins(s[b], t[b]);
        lemma_fold_twins(s[b + 1], t[b + 1]);
    }
    lemma_skip_space_twins(s, t, b + 1);
    let c = after_call(s, b);
    assert(c == after_call(t, b));
    if 0 <= c < s.len() {
        lemma_fold_twins(s[c], t[c]);
    }
    let d = after_quote(s, c);
    assert(d == after_quote(t, c));
    lemma_path_cut_twins(s, t, d, d);
    let p = after_path(s, d);
    assert(p == after_path(t, d));
    // The script's name, the quote and the verb.
    lemma_ci_prefix_twins(s, t, p, script_name());
    if 0 <= p + 9 < s.len() {
        lemma_fold_twins(s[p + 9], t[p + 9]);
    }
    let q = after_quote(s, p + 9);
    assert(q == after_quote(t, p + 9));
    if 0 <= q < s.len() {
        lemma_fold_twins(s[q], t[q]);
    }
    lemma_skip_space_twins(s, t, q);
    let r = skip_space(s, q);
    lemma_ci_prefix_twins(s, t, r, verb);
    let e = r + verb.len();
    if 0 <= e < s.len() {
        lemma_fold_twins(s[e], t[e]);
    }
    // The number.
    lemma_skip_space_twins(s, t, e);
    let u = skip_space(s, e);
    lemma_digit_end_twins(s, t, u);
    if 0 <= u <= s.len() {
        lemma_digit_end(s, u);
        let de = digit_end(s, u);
        assert forall|k: int| 0 <= k < de - u implies s.subrange(u, de)[k] == t.subrange(
            u,
            de,
        )[k] by {
            lemma_fold_twins(s[u + k], t[u + k]);
        }
        assert(s.subrange(u, de) =~= t.subrange(u, de));
    }
}


/// One character that ends a statement on its own.
pub open spec fn single_boundary(c: char) -> bool {
    c == ';' || c == '\r' || c == '\n'
}

proof fn lemma_split_suffix(p: Seq<char>, b: Seq<char>, x: int, y: int)
    requires
        0 <= x <= y <= b.len(),
    ensures
        split_from(p + b, p.len() as int + x, p.len() as int + y) == split_from(b, x, y),
    decreases b.len() - y,
{
    let s = p + b;
    let o = p.len() as int;
    if y < b.len() {
        assert(s[o + y] == b[y]);
        if y + 1 < b.len() {
            assert(s[o + y + 1] == b[y + 1]);
        }
        assert(sep_width(s, o + y) == sep_width(b, y));
        let w = sep_width(b, y);
        if w > 0 {
            lemma_split_suffix(p, b, y + w, y + w);
            assert(s.subrange(o + x, o + y) =~= b.subrange(x, y));
        } else {
            lemma_split_suffix(p, b, x, y + 1);
        }
    } else {
        assert(s.subrange(o + x, s.len() as int) =~= b.subrange(x, b.len() as int));
    }
}

proof fn lemma_split_prefix(a: Seq<char>, c: char, b: Seq<char>, start: int, i: int)
    requires
        single_boundary(c),
        0 <= start <= i <= a.len(),
    ensures
        split_from(a + seq![c] + b, start, i) == split_from(a, start, i) + split_from(
            a + seq![c] + b,
            a.len() + 1int,
            a.len() + 1int,
        ),
    decreases a.len() - i,
{
    let s = a + seq![c] + b;
    let n = a.len() as int;
    let tail = split_from(s, n + 1, n + 1);
    if i < n {
        assert(s[i] == a[i]);
        if i + 1 < n {
            assert(s[i + 1] == a[i + 1]);
        } else {
            assert(s[i + 1] == c);
        }
        assert(sep_width(s, i) == sep_width(a, i));
        let w = sep_width(a, i);
        if w > 0 {
            lemma_split_prefix(a, c, b, i + w, i + w);
            assert(s.subrange(start, i) =~= a.subrange(start, i));
            assert(split_from(s, start, i) =~= seq![a.subrange(start, i)] + (split_from(a, i + w, i + w) + tail));
        } else {
            lemma_split_prefix(a, c, b, start, i + 1);
        }
    } else {
        assert(s[n] == c);
        assert(sep_width(s, n) == 1);
        assert(s.subrange(start, n) =~= a.subrange(start, n));
        assert(split_from(s, start, n) =~= seq![a.subrange(start, n)] + tail);
    }
}

/// The statements of `a`, a single-character boundary, then `b` are those
/// of `a` followed by those of `b`.
pub proof fn statements_of_joined(a: Seq<char>, c: char, b: Seq<char>)
    requires
        single_boundary(c),
    ensures
        statements(a + seq![c] + b) == statements(a) + statements(b),
{
    lemma_split_prefix(a, c, b, 0, 0);
    lemma_split_suffix(a + seq![c], b, 0, 0);
    assert(a + seq![c] + b =~= (a + seq![c]) + b);
}

proof fn lemma_first_invocation_join(x: Seq<Seq<char>>, y: Seq<Seq<char>>, verb: Seq<char>, k: int)
    requires
        0 <= k <= x.len(),
    ensures
        first_invocation(x + y, verb, k) == match first_invocation(x, verb, k) {
            Some(n) => Some(n),
            None => first_invocation(y, verb, 0),
        },
    decreases x.len() + y.len() - k,
{
    let xy = x + y;
    if k < x.len() {
        assert(xy[k] == x[k]);
        lemma_first_invocation_join(x, y, verb, k + 1);
    } else {
        lemma_first_invocation_shift(x, y, verb, 0);
    }
}

proof fn lemma_first_invocation_shift(x: Seq<Seq<char>>, y: Seq<Seq<char>>, verb: Seq<char>, j: int)
    requires
        0 <= j <= y.len(),
    ensures
        first_invocation(x + y, verb, x.len() as int + j) == first_invocation(y, verb, j),
    decreases y.len() - j,
{
    if j < y.len() {
        assert((x + y)[x.len() + j] == y[j]);
        lemma_first_invocation_shift(x, y, verb, j + 1);
    }
}

/// A `;` or a line break starts a new statement, and the first statement
/// that invokes the verb wins: the command `a;b` invokes what `a` invokes,
/// else what `b` invokes.
pub proof fn boundary_starts_a_new_statement(a: Seq<char>, c: char, b: Seq<char>, verb: Seq<char>)
    requires
        single_boundary(c),
    ensures
        first_invocation(statements(a + seq![c] + b), verb, 0) == match first_invocation(
            statements(a),
            verb,
            0,
        ) {
            Some(n) => Some(n),
            None => first_invocation(statements(b), verb, 0),
        },
{
    statements_of_joined(a, c, b);
    lemma_first_invocation_join(statements(a), statements(b), verb, 0);
}


/// A character a directory prefix may hold: an ASCII letter or digit, `.`,
/// `_`, `:`, `~`, `-`, or a separator `\` or `/`.
pub open spec fn dir_prefix_char(c: char) -> bool {
    ||| 'a' <= c <= 'z'
    ||| 'A' <= c <= 'Z'
    ||| '0' <= c <= '9'
    ||| c == '.' || c == '_' || c == ':' || c == '~' || c == '-'
    ||| c == '\\' || c == '/'
}

proof fn lemma_path_cut_through(s: Seq<char>, i: int, m: int, c: int)
    requires
        0 <= i < m <= s.len(),
        forall|k: int| i <= k < m ==> dir_prefix_char(#[trigger] s[k]),
        s[m - 1] == '\\' || s[m - 1] == '/',
    ensures
        path_cut(s, i, c) == path_cut(s, m, m),
    decreases m - i,
{
    assert(dir_prefix_char(s[i]));
    if is_sep_char(s[i]) {
        if i + 1 < m {
            lemma_path_cut_through(s, i + 1, m, i + 1);
        }
    } else {
        assert(path_char(s[i]));
        assert(i + 1 < m);
        lemma_path_cut_through(s, i + 1, m, c);
    }
}

proof fn lemma_path_cut_stops(s: Seq<char>, i: int, e: int, c: int)
    requires
        0 <= i <= e < s.len(),
        forall|k: int| i <= k < e ==> path_char(#[trigger] s[k]) && !is_sep_char(s[k]),
        !path_char(s[e]) && !is_sep_char(s[e]),
    ensures
        path_cut(s, i, c) == c,
    decreases e - i,
{
    if i < e {
        lemma_path_cut_stops(s, i + 1, e, c);
    }
}

/// The script may be named through any directory prefix: for every prefix
/// `d` of letters, digits, `.`, `_`, `:`, `~` and `-` (hyphenated folders
/// included) that ends in `\` or `/`, `d` + `issue.ps1 claim <n>` claims `n`.
pub proof fn any_directory_prefix_is_skipped(d: Seq<char>, n: u32)
    requires
        d.len() > 0,
        forall|k: int| 0 <= k < d.len() ==> dir_prefix_char(#[trigger] d[k]),
        d.last() == '\\' || d.last() == '/',
    ensures
        invocation(
            d + seq!['i', 's', 's', 'u', 'e', '.', 'p', 's', '1', ' ', 'c', 'l', 'a', 'i', 'm', ' ']
                + dec(n as nat),
            seq!['c', 'l', 'a', 'i', 'm'],
        ) == Some(n),
{
    let tail = seq!['i', 's', 's', 'u', 'e', '.', 'p', 's', '1', ' ', 'c', 'l', 'a', 'i', 'm', ' '];
    let digits = dec(n as nat);
    let s = d + tail + digits;
    let verb = seq!['c', 'l', 'a', 'i', 'm'];
    let m = d.len() as int;
    lemma_dec_digits(n as nat);
    assert forall|k: int| 0 <= k < m implies s[k] == d[k] by {}
    assert forall|k: int| 0 <= k < 16 implies s[m + k] == tail[k] by {}
    assert forall|k: int| 0 <= k < digits.len() implies s[m + 16 + k] == digits[k] by {}
    assert(s.len() == m + 16 + digits.len());
    // No leading whitespace, no shell prefix, no call operator, no quote.
    assert(dir_prefix_char(s[0]));
    assert(!is_space(s[0]));
    assert(skip_space(s, 0) == 0);
    assert(shell_word_end(s, 0) matches Some(r) ==> r < m && !is_space(s[r])) by {
        if ci_prefix_at(s, 0, powershell_exe()) {
            assert(fold_case(s[m - 1]) != fold_case(powershell_exe()[m - 1]) || m - 1 >= 14);
            assert(dir_prefix_char(s[14]) || 14 >= m);
        }
        if ci_prefix_at(s, 0, powershell()) {
            assert(fold_case(s[m - 1]) != fold_case(powershell()[m - 1]) || m - 1 >= 10);
        }
        if ci_prefix_at(s, 0, pwsh()) {
            assert(fold_case(s[m - 1]) != fold_case(pwsh()[m - 1]) || m - 1 >= 4);
        }
    }
    assert(after_shell(s, 0) == 0);
    assert(after_call(s, 0) == 0);
    assert(after_quote(s, 0) == 0);
    // The directory is cut off up to its last separator.
    lemma_path_cut_through(s, 0, m, 0);
    assert forall|k: int| m <= k < m + 9 implies path_char(#[trigger] s[k]) && !is_sep_char(s[k]) by {
        assert(s[k] == tail[k - m]);
    }
    assert(s[m + 9] == ' ');
    lemma_path_cut_stops(s, m, m + 9, m);
    assert(after_path(s, 0) == m);
    assert(ci_prefix_at(s, m, script_name()));
    assert(after_quote(s, m + 9) == m + 9);
    assert(is_space(s[m + 9]));
    assert(s[m + 10] == 'c');
    assert(skip_space(s, m + 10) == m + 10);
    assert(skip_space(s, m + 9) == m + 10);
    assert(ci_prefix_at(s, m + 10, verb));
    assert(s[m + 15] == ' ');
    assert(is_space(s[m + 15]));
    assert(is_ascii_digit(s[m + 16]));
    assert(skip_space(s, m + 16) == m + 16);
    assert(skip_space(s, m + 15) == m + 16);
    crate::text::lemma_digit_end_all(s, m + 16);
    assert(s.subrange(m + 16, s.len() as int) =~= digits);
    crate::text::lemma_decimal_dec(n as nat);
}


/// `clear` (the session ended) always removes the state file, whatever it
/// held; a mode other than `working`, `waiting` and `clear` never touches it.
pub proof fn clear_always_removes_the_state(mode: Seq<char>, prev: Option<Seq<char>>)
    ensures
        state_change(seq!['c', 'l', 'e', 'a', 'r'], prev) == StateChange::Remove,
        (mode != seq!['c', 'l', 'e', 'a', 'r'] && mode != seq!['w', 'o', 'r', 'k', 'i', 'n', 'g']
            && mode != seq!['w', 'a', 'i', 't', 'i', 'n', 'g']) ==> state_change(mode, prev)
            == StateChange::Keep,
{
    assert(clear_lit() =~= seq!['c', 'l', 'e', 'a', 'r']);
    assert(working_lit() =~= seq!['w', 'o', 'r', 'k', 'i', 'n', 'g']);
    assert(waiting_lit() =~= seq!['w', 'a', 'i', 't', 'i', 'n', 'g']);
}

} // verus!
