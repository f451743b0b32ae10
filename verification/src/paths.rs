//! What the file lookups make of what they read, and the clock.
use vstd::prelude::*;
use crate::text::{chars_of, copy_range, is_space, skip_space, string_of, trim, trim_back, trim_chars};

verus! {

/// Milliseconds since the Unix epoch as the clock reports them, `None` when
/// the clock is set before the epoch.
#[verifier::external_body]
fn millis_since_epoch() -> (r: Option<u128>) {
    std::time::SystemTime::now().duration_since(std::time::UNIX_EPOCH).ok().map(|d| d.as_millis())
}

/// The wall clock in milliseconds since the Unix epoch (0 if the clock is
/// before the epoch; the millisecond count is cut to 64 bits).
pub fn now_ms() -> i64 {
    epoch_ms(millis_since_epoch())
}

/// A clock reading in milliseconds since the epoch as an `i64`: the count
/// cut to 64 bits, as `as i64` cuts it, and 0 when the clock was before the
/// epoch (`None`).
pub fn epoch_ms(reading: Option<u128>) -> (r: i64)
    ensures
        r == match reading {
            Some(ms) => ms as i64,
            None => 0i64,
        },
{
    match reading {
        Some(ms) => ms as i64,
        None => 0,
    }
}

/// What `read_trimmed` makes of a file's text: the text without surrounding
/// whitespace, `None` if nothing is left.
pub open spec fn trimmed_text(s: Seq<char>) -> Option<Seq<char>> {
    if trim(s).len() == 0 {
        None
    } else {
        Some(trim(s))
    }
}

/// The text without surrounding whitespace, unless that is empty.
pub fn trimmed(s: &str) -> (r: Option<String>)
    ensures
        match r {
            Some(t) => trimmed_text(s@) == Some(t@),
            None => trimmed_text(s@) is None,
        },
{
    let c = chars_of(s);
    let t = trim_chars(c.as_slice());
    if t.len() == 0 {
        None
    } else {
        Some(string_of(t.as_slice()))
    }
}

pub open spec fn ref_lit() -> Seq<char> {
    seq!['r', 'e', 'f', ':']
}

pub open spec fn heads_lit() -> Seq<char> {
    seq!['r', 'e', 'f', 's', '/', 'h', 'e', 'a', 'd', 's', '/']
}

pub open spec fn gitdir_lit() -> Seq<char> {
    seq!['g', 'i', 't', 'd', 'i', 'r', ':']
}

pub open spec fn head_lit() -> Seq<char> {
    seq!['H', 'E', 'A', 'D']
}

pub open spec fn starts_with(s: Seq<char>, p: Seq<char>) -> bool {
    p.len() <= s.len() && s.take(p.len() as int) == p
}

/// The branch that a `.git/HEAD` text names, as `git rev-parse --abbrev-ref
/// HEAD` reports it: for `ref: refs/heads/<b>` the whole `<b>` (slashes
/// included), for another `ref:` the ref itself, for a detached head `HEAD`,
/// and nothing for an empty file.
pub open spec fn head_branch(text: Seq<char>) -> Option<Seq<char>> {
    let h = trim(text);
    if starts_with(h, ref_lit()) {
        let r = trim(h.skip(4));
        if starts_with(r, heads_lit()) {
            Some(r.skip(11))
        } else {
            Some(r)
        }
    } else if h.len() > 0 {
        Some(head_lit())
    } else {
        None
    }
}

/// The whole tail of `refs/heads/` is the branch, slashes included: a HEAD
/// of `ref: refs/heads/<b>` names branch `<b>`.
pub proof fn head_ref_names_its_whole_branch(b: Seq<char>)
    requires
        b.len() > 0,
        !is_space(b.last()),
    ensures
        head_branch(ref_lit() + seq![' '] + heads_lit() + b) == Some(b),
{
    let text = ref_lit() + seq![' '] + heads_lit() + b;
    let n = text.len() as int;
    assert(text[0] == 'r');
    assert(skip_space(text, 0) == 0);
    assert(text[n - 1] == b.last());
    assert(trim_back(text, 0, n) == n);
    assert(trim(text) =~= text);
    assert(text.take(4) =~= ref_lit());
    let rest = text.skip(4);
    assert(rest[0] == ' ');
    assert(rest[1] == 'r');
    assert(skip_space(rest, 1) == 1);
    assert(skip_space(rest, 0) == 1);
    let m = rest.len() as int;
    assert(rest[m - 1] == b.last());
    assert(trim_back(rest, 1, m) == m);
    let r = trim(rest);
    assert(r =~= heads_lit() + b);
    assert(r.take(11) =~= heads_lit());
    assert(r.skip(11) =~= b);
}

/// Where a worktree's `.git` file points: the text after `gitdir:`, trimmed.
pub open spec fn gitdir_target(text: Seq<char>) -> Option<Seq<char>> {
    let t = trim(text);
    if starts_with(t, gitdir_lit()) {
        Some(trim(t.skip(7)))
    } else {
        None
    }
}

fn has_prefix(s: &[char], p: &[char]) -> (r: bool)
    ensures
        r == starts_with(s@, p@),
{
    if p.len() > s.len() {
        return false;
    }
    let mut k: usize = 0;
    while k < p.len()
        invariant
            p@.len() <= s@.len(),
            k <= p@.len(),
            forall|j: int| 0 <= j < k ==> s@[j] == #[trigger] p@[j],
        decreases p.len() - k,
    {
        if s[k] != p[k] {
            assert(s@.take(p@.len() as int)[k as int] != p@[k as int]);
            return false;
        }
        k = k + 1;
    }
    assert(s@.take(p@.len() as int) =~= p@);
    true
}

fn suffix(s: &[char], n: usize) -> (r: Vec<char>)
    requires
        n <= s@.len(),
    ensures
        r@ == s@.skip(n as int),
{
    let r = copy_range(s, n, s.len());
    assert(s@.subrange(n as int, s@.len() as int) =~= s@.skip(n as int));
    r
}

/// The branch named by the text of `.git/HEAD`.
pub fn branch_from_head(text: &str) -> (r: Option<String>)
    ensures
        match r {
            Some(b) => head_branch(text@) == Some(b@),
            None => head_branch(text@) is None,
        },
{
    let c = chars_of(text);
    let h = trim_chars(c.as_slice());
    let rf = vec!['r', 'e', 'f', ':'];
    assert(rf@ =~= ref_lit());
    if has_prefix(h.as_slice(), rf.as_slice()) {
        let rest = suffix(h.as_slice(), 4);
        let r = trim_chars(rest.as_slice());
        let heads = vec!['r', 'e', 'f', 's', '/', 'h', 'e', 'a', 'd', 's', '/'];
        assert(heads@ =~= heads_lit());
        if has_prefix(r.as_slice(), heads.as_slice()) {
            let b = suffix(r.as_slice(), 11);
            Some(string_of(b.as_slice()))
        } else {
            Some(string_of(r.as_slice()))
        }
    } else if h.len() > 0 {
        let d = vec!['H', 'E', 'A', 'D'];
        assert(d@ =~= head_lit());
        Some(string_of(d.as_slice()))
    } else {
        None
    }
}

/// The target of a worktree's `.git` file.
pub fn gitdir_of(text: &str) -> (r: Option<String>)
    ensures
        match r {
            Some(t) => gitdir_target(text@) == Some(t@),
            None => gitdir_target(text@) is None,
        },
{
    let c = chars_of(text);
    let t = trim_chars(c.as_slice());
    let g = vec!['g', 'i', 't', 'd', 'i', 'r', ':'];
    assert(g@ =~= gitdir_lit());
    if has_prefix(t.as_slice(), g.as_slice()) {
        let rest = suffix(t.as_slice(), 7);
        let r = trim_chars(rest.as_slice());
        Some(string_of(r.as_slice()))
    } else {
        None
    }
}


/// A worktree's `.git` file points to the whole path after `gitdir:`, spaces
/// inside it included: for every path `p` without whitespace at either end,
/// the file `gitdir: <p>` and a line break points to `p`.
pub proof fn gitdir_keeps_the_whole_path(p: Seq<char>)
    requires
        p.len() > 0 ==> !is_space(p[0]) && !is_space(p.last()),
    ensures
        gitdir_target(seq!['g', 'i', 't', 'd', 'i', 'r', ':', ' '] + p + seq!['\n']) == Some(p),
{
    let text = seq!['g', 'i', 't', 'd', 'i', 'r', ':', ' '] + p + seq!['\n'];
    let n = text.len() as int;
    assert(text[0] == 'g');
    assert(skip_space(text, 0) == 0);
    assert(is_space(text[n - 1]));
    if p.len() > 0 {
        assert(text[n - 2] == p.last());
        assert(trim_back(text, 0, n - 1) == n - 1);
        assert(trim_back(text, 0, n) == n - 1);
    } else {
        assert(text[n - 2] == ' ');
        assert(text[n - 3] == ':');
        assert(trim_back(text, 0, n - 2) == n - 2);
        assert(trim_back(text, 0, n - 1) == n - 2);
        assert(trim_back(text, 0, n) == n - 2);
    }
    let t = trim(text);
    assert(t =~= seq!['g', 'i', 't', 'd', 'i', 'r', ':', ' '] + p || (p.len() == 0 && t =~= gitdir_lit()));
    assert(t.take(7) =~= gitdir_lit());
    let rest = t.skip(7);
    if p.len() > 0 {
        assert(rest =~= seq![' '] + p);
        let m = rest.len() as int;
        assert(rest[1] == p[0]);
        assert(skip_space(rest, 1) == 1);
        assert(skip_space(rest, 0) == 1);
        assert(rest[m - 1] == p.last());
        assert(trim_back(rest, 1, m) == m);
        assert(trim(rest) =~= p);
    } else {
        assert(rest.len() == 0);
        assert(trim(rest) =~= p);
    }
}

/// What `.git` turned out to be in a folder on the way up.
pub enum DotGit {
    /// A directory: the repository itself.
    Dir,
    /// A file (a worktree or submodule pointer), with its text, `None` when
    /// it could not be read.
    File(Option<String>),
    /// Neither.
    Missing,
}

/// The next move while looking for the repository from a folder upwards.
pub enum Discovery {
    /// Read `HEAD` in this `.git` directory.
    ReadHead,
    /// Read `HEAD` in the directory the `.git` file points to (relative to
    /// the folder unless absolute).
    Follow(String),
    /// There is no branch to be had.
    GiveUp,
    /// Look in the parent folder.
    Parent,
}

/// A `.git` directory is read, a `.git` file is followed to its `gitdir:`
/// target (no branch when it is unreadable or names no target), and without
/// either the search moves up, as git's own repository discovery does.
pub fn discovery_step(found: &DotGit) -> (r: Discovery)
    ensures
        match found {
            DotGit::Dir => r is ReadHead,
            DotGit::File(Some(t)) => match gitdir_target(t@) {
                Some(g) => r matches Discovery::Follow(p) && p@ == g,
                None => r is GiveUp,
            },
            DotGit::File(None) => r is GiveUp,
            DotGit::Missing => r is Parent,
        },
{
    match found {
        DotGit::Dir => Discovery::ReadHead,
        DotGit::File(Some(t)) => match gitdir_of(t.as_str()) {
            Some(g) => Discovery::Follow(g),
            None => Discovery::GiveUp,
        },
        DotGit::File(None) => Discovery::GiveUp,
        DotGit::Missing => Discovery::Parent,
    }
}

} // verus!
