//! Decisions of the self-collection of abandoned renders.
//!
//! An agent host sometimes creates a render process suspended and abandons it
//! before resuming; such a process never runs an instruction, so something else
//! has to kill it. The next render does: at most once a minute (rate-limited by
//! a stamp file holding the time of the last sweep) it walks the process table
//! and terminates copies of its own image that never ran or that hung.
//!
//! Walking the table and terminating belong to the caller; what to do is
//! decided here.
use vstd::prelude::*;
use crate::text::{
    chars_of, lemma_sdec_reads_back, parse_i64, push_signed, sdec, signed_text, string_of, trim, trim_chars, str_eq,
    to_lowercase,
};

verus! {

/// At most one sweep per minute across all panes.
pub const SWEEP_EVERY_MS: i64 = 60_000;

/// 0 CPU this long after start means it was never resumed. A healthy render
/// exits in ~10 ms, so this is not a close call.
pub const NEVER_RAN_MS: u64 = 15_000;

/// Ran, but outlived any plausible render: hung rather than suspended.
pub const STALE_MS: u64 = 60_000;

/// A Windows `FILETIME`: 100 ns ticks, split into two halves.
pub struct FileTime {
    pub low: u32,
    pub high: u32,
}

impl FileTime {
    pub open spec fn ticks(&self) -> nat {
        self.high as nat * 0x1_0000_0000 + self.low as nat
    }

    pub fn zero() -> (r: Self)
        ensures
            r.low == 0 && r.high == 0,
    {
        FileTime { low: 0, high: 0 }
    }

    /// Both halves as one 64-bit count.
    pub fn as_u64(&self) -> (r: u64)
        ensures
            r == self.ticks(),
    {
        let h = self.high as u64;
        let l = self.low as u64;
        assert(h * 0x1_0000_0000 + l <= u64::MAX) by (nonlinear_arith)
            requires
                h <= 0xffff_ffff,
                l <= 0xffff_ffff,
        ;
        h * 0x1_0000_0000 + l
    }
}

/// The time of the last sweep that a stamp file's text records: its trimmed
/// text read as an `i64`.
pub open spec fn stamp_time(text: Seq<char>) -> Option<int> {
    match signed_text(trim(text)) {
        Some(v) => if i64::MIN <= v <= i64::MAX {
            Some(v)
        } else {
            None
        },
        None => None,
    }
}

/// A sweep is due unless the stamp records a sweep less than a minute ago. A
/// stamp in the future (a clock that moved back, a garbled write) does not
/// hold the sweep off: it is rewritten, which self-heals.
pub open spec fn sweep_is_due(now: i64, stamp: Option<Seq<char>>) -> bool {
    match stamp {
        Some(t) => match stamp_time(t) {
            Some(last) => !(now >= last && now - last < SWEEP_EVERY_MS),
            None => true,
        },
        None => true,
    }
}

/// Whether to sweep now, given the stamp file's text (`None` if it could not
/// be read). A due sweep is stamped with `now` before it runs.
pub fn sweep_due(now: i64, stamp: Option<&str>) -> (r: bool)
    requires
        stamp matches Some(t) ==> (stamp_time(t@) matches Some(last) ==> now >= last ==> now - last
            <= i64::MAX),
    ensures
        r == sweep_is_due(now, match stamp {
            Some(t) => Some(t@),
            None => None,
        }),
{
    match stamp {
        Some(t) => {
            let c = chars_of(t);
            let tr = trim_chars(c.as_slice());
            let ts = string_of(tr.as_slice());
            match parse_i64(ts.as_str()) {
                Some(last) => !(now >= last && now - last < SWEEP_EVERY_MS),
                None => true,
            }
        },
        None => true,
    }
}

/// The stamp a sweep at `now` leaves: `now` in decimal.
pub fn stamp_text(now: i64) -> (r: String)
    ensures
        r@ == sdec(now as int),
{
    let mut out: Vec<char> = Vec::new();
    push_signed(&mut out, now);
    assert(out@ =~= sdec(now as int));
    string_of(out.as_slice())
}

/// The sweep is rate-limited by its stamp. Once a sweep at `stamped` has
/// written its stamp, no sweep is due until a minute has passed, and one is
/// due after that. A stamp from the future (a clock that moved back) never
/// holds a sweep off, nor does one that does not read as a number, nor a
/// missing one.
pub proof fn sweep_runs_at_most_once_a_minute(now: i64, stamped: i64, t: Seq<char>)
    ensures
        sweep_is_due(now, Some(sdec(stamped as int))) == !(stamped <= now && now - stamped
            < SWEEP_EVERY_MS),
        stamp_time(t) is None ==> sweep_is_due(now, Some(t)),
        (stamp_time(t) matches Some(last) && last > now) ==> sweep_is_due(now, Some(t)),
        sweep_is_due(now, None),
{
    lemma_sdec_reads_back(stamped as int);
    assert(stamp_time(sdec(stamped as int)) == Some(stamped as int));
}

/// A process is terminated when it has had no CPU time more than
/// `NEVER_RAN_MS` after its creation (never resumed), or is older than
/// `STALE_MS` (hung). Ages are measured from the clock, saturating at 0 when
/// the clock is behind the creation time.
pub open spec fn abandoned(now: nat, created: nat, kernel: nat, user: nat) -> bool {
    let age_ms: nat = if now >= created {
        ((now - created) / 10_000) as nat
    } else {
        0
    };
    (kernel + user == 0 && age_ms > NEVER_RAN_MS) || age_ms > STALE_MS
}

/// Whether a copy of this binary with these process times is to be killed.
pub fn should_terminate(now: &FileTime, creation: &FileTime, kernel: &FileTime, user: &FileTime) -> (r: bool)
    requires
        kernel.ticks() + user.ticks() <= u64::MAX,
    ensures
        r == abandoned(now.ticks(), creation.ticks(), kernel.ticks(), user.ticks()),
{
    let age_ms = now.as_u64().saturating_sub(creation.as_u64()) / 10_000;
    let cpu = kernel.as_u64() + user.as_u64();
    let never_ran = cpu == 0 && age_ms > NEVER_RAN_MS;
    let stale = age_ms > STALE_MS;
    never_ran || stale
}

/// A copy that has had CPU time and is no older than `STALE_MS` is never
/// terminated: only never-resumed and hung copies are.
pub proof fn healthy_copies_are_spared(now: nat, created: nat, kernel: nat, user: nat)
    requires
        kernel + user > 0,
        now < created || (now - created) / 10_000 <= STALE_MS,
    ensures
        !abandoned(now, created, kernel, user),
{
}

/// Length of a NUL-terminated wide string: up to the first 0, or all of it.
pub fn wide_len(buf: &[u16]) -> (r: usize)
    ensures
        r <= buf@.len(),
        forall|k: int| 0 <= k < r ==> buf@[k] != 0,
        r < buf@.len() ==> buf@[r as int] == 0,
{
    let mut k: usize = 0;
    while k < buf.len() && buf[k] != 0
        invariant
            k <= buf@.len(),
            forall|j: int| 0 <= j < k ==> buf@[j] != 0,
        decreases buf.len() - k,
    {
        k = k + 1;
    }
    k
}

/// A process-table entry is a candidate for the sweep: not the idle process,
/// not this process, and its image name is ours, ignoring case.
pub fn is_candidate(pid: u32, self_pid: u32, image_name: &str, self_name_lower: &str) -> (r: bool)
    ensures
        r == (pid != self_pid && pid != 0 && crate::text::lowercase(image_name@) == self_name_lower@),
{
    if pid == self_pid || pid == 0 {
        return false;
    }
    let lower = to_lowercase(image_name);
    str_eq(lower.as_str(), self_name_lower)
}

} // verus!
