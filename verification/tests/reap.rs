use lib::reap::{
    is_candidate, should_terminate, stamp_text, sweep_due, wide_len, FileTime, NEVER_RAN_MS, STALE_MS,
    SWEEP_EVERY_MS,
};

#[test]
fn filetime_reassembles_both_halves() {
    let ft = FileTime { low: 0x8000_0000, high: 0x0000_0001 };
    assert_eq!(ft.as_u64(), 0x1_8000_0000);
}

#[test]
fn filetime_zero_is_zero() {
    assert_eq!(FileTime::zero().as_u64(), 0);
    let max = FileTime { low: u32::MAX, high: u32::MAX };
    assert_eq!(max.as_u64(), u64::MAX);
}

#[test]
fn wide_conversion_stops_at_the_nul() {
    let mut buf = [0u16; 16];
    for (i, c) in "statusline.exe".encode_utf16().enumerate() {
        buf[i] = c;
    }
    let n = wide_len(&buf);
    assert_eq!(String::from_utf16_lossy(&buf[..n]), "statusline.exe");
}

#[test]
fn wide_length_without_a_nul_is_the_whole_buffer() {
    assert_eq!(wide_len(&[65, 66, 67]), 3);
    assert_eq!(wide_len(&[0, 66]), 0);
    assert_eq!(wide_len(&[]), 0);
}

#[test]
fn a_fresh_stamp_suppresses_the_sweep() {
    let now = 1_700_000_000_000i64;
    let stamp = stamp_text(now);
    assert_eq!(stamp, "1700000000000");
    assert!(!sweep_due(now, Some(&stamp)));
    assert!(!sweep_due(now + SWEEP_EVERY_MS - 1, Some(&stamp)));
    assert!(sweep_due(now + SWEEP_EVERY_MS, Some(&stamp)));
}

#[test]
fn an_expired_stamp_is_due_again() {
    let now = 1_700_000_000_000i64;
    let stale = now - (SWEEP_EVERY_MS + 5_000);
    assert!(sweep_due(now, Some(&stamp_text(stale))));
    assert!(sweep_due(now, Some(" 1699999935000 \n")));
}

#[test]
fn a_stamp_from_the_future_does_not_hold_the_sweep_off() {
    let now = 1_700_000_000_000i64;
    let future = now + 10 * SWEEP_EVERY_MS;
    assert!(sweep_due(now, Some(&stamp_text(future))));
}

#[test]
fn a_garbled_or_missing_stamp_means_a_sweep() {
    assert!(sweep_due(5, Some("not a number")));
    assert!(sweep_due(5, Some("")));
    assert!(sweep_due(5, None));
}

#[test]
fn negative_stamps_round_trip() {
    assert_eq!(stamp_text(-42), "-42");
    assert_eq!(stamp_text(i64::MIN), "-9223372036854775808");
    assert!(!sweep_due(-40, Some(&stamp_text(-42))));
}

fn ft(ticks: u64) -> FileTime {
    FileTime { low: ticks as u32, high: (ticks >> 32) as u32 }
}

#[test]
fn a_never_resumed_copy_is_killed_after_the_grace_period() {
    let created = 1_000_000_000u64;
    let zero = FileTime::zero();
    let young = ft(created + NEVER_RAN_MS * 10_000);
    assert!(!should_terminate(&young, &ft(created), &zero, &zero));
    let older = ft(created + (NEVER_RAN_MS + 1) * 10_000);
    assert!(should_terminate(&older, &ft(created), &zero, &zero));
    assert!(!should_terminate(&older, &ft(created), &ft(1), &zero));
}

#[test]
fn a_hung_copy_is_killed_even_with_cpu_time() {
    let created = 1_000_000_000u64;
    let hung = ft(created + (STALE_MS + 1) * 10_000);
    assert!(should_terminate(&hung, &ft(created), &ft(5), &ft(7)));
    let fine = ft(created + STALE_MS * 10_000);
    assert!(!should_terminate(&fine, &ft(created), &ft(5), &ft(7)));
}

#[test]
fn a_clock_behind_the_creation_time_counts_as_age_zero() {
    let zero = FileTime::zero();
    assert!(!should_terminate(&ft(5), &ft(1_000_000_000_000), &zero, &zero));
}

#[test]
fn only_other_copies_of_this_image_are_candidates() {
    assert!(is_candidate(10, 20, "StatusLine.EXE", "statusline.exe"));
    assert!(!is_candidate(20, 20, "statusline.exe", "statusline.exe"));
    assert!(!is_candidate(0, 20, "statusline.exe", "statusline.exe"));
    assert!(!is_candidate(10, 20, "other.exe", "statusline.exe"));
}
