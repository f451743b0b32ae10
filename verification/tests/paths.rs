use lib::paths::{branch_from_head, discovery_step, epoch_ms, gitdir_of, now_ms, trimmed, Discovery, DotGit};

#[test]
fn head_names_the_branch() {
    assert_eq!(branch_from_head("ref: refs/heads/main\n").as_deref(), Some("main"));
}

#[test]
fn head_keeps_slashes_in_branch_names() {
    assert_eq!(
        branch_from_head("ref: refs/heads/feature/nested/thing\n").as_deref(),
        Some("feature/nested/thing")
    );
}

#[test]
fn a_detached_head_reads_as_head() {
    assert_eq!(
        branch_from_head("9fceb02aaf1e4b0b0c0d0e0f1a2b3c4d5e6f7a8b\n").as_deref(),
        Some("HEAD")
    );
}

#[test]
fn an_empty_head_names_nothing() {
    assert_eq!(branch_from_head(""), None);
    assert_eq!(branch_from_head(" \n\t"), None);
}

#[test]
fn a_ref_outside_the_heads_is_kept_whole() {
    assert_eq!(branch_from_head("ref:refs/remotes/origin/x").as_deref(), Some("refs/remotes/origin/x"));
    assert_eq!(branch_from_head("  ref:   refs/heads/dev  \r\n").as_deref(), Some("dev"));
}

#[test]
fn a_worktree_file_points_at_its_git_dir() {
    assert_eq!(gitdir_of("gitdir: /repo/.git/worktrees/wt\n").as_deref(), Some("/repo/.git/worktrees/wt"));
    assert_eq!(gitdir_of("gitdir:../x").as_deref(), Some("../x"));
    assert_eq!(gitdir_of("not a pointer"), None);
}

#[test]
fn trimmed_text_drops_surrounding_whitespace_or_gives_nothing() {
    assert_eq!(trimmed("  working\n").as_deref(), Some("working"));
    assert_eq!(trimmed("\u{a0}x y\u{3000}").as_deref(), Some("x y"));
    assert_eq!(trimmed(" \n "), None);
    assert_eq!(trimmed(""), None);
}

#[test]
fn the_clock_is_past_the_epoch() {
    assert!(now_ms() > 1_600_000_000_000);
}

#[test]
fn a_clock_reading_becomes_milliseconds() {
    assert_eq!(epoch_ms(Some(1_700_000_000_123)), 1_700_000_000_123);
    assert_eq!(epoch_ms(None), 0);
    assert_eq!(epoch_ms(Some((1u128 << 64) + 7)), 7);
    assert_eq!(epoch_ms(Some(1u128 << 63)), i64::MIN);
}

#[test]
fn discovery_reads_follows_or_moves_up() {
    assert!(matches!(discovery_step(&DotGit::Dir), Discovery::ReadHead));
    assert!(matches!(discovery_step(&DotGit::Missing), Discovery::Parent));
    assert!(matches!(discovery_step(&DotGit::File(None)), Discovery::GiveUp));
    assert!(matches!(discovery_step(&DotGit::File(Some("junk".to_string()))), Discovery::GiveUp));
    match discovery_step(&DotGit::File(Some("gitdir: ../real/.git\n".to_string()))) {
        Discovery::Follow(t) => assert_eq!(t, "../real/.git"),
        _ => panic!("expected to follow the gitdir file"),
    }
}
