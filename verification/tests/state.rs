use lib::cli::{command, Command};
use lib::json::parse;
use lib::state::{
    history_note, issue_action, issue_invocation, issue_label, normalize_title, refresh_payload, session_of,
    split_statements, state_change_for, tool_command, truncate_chars, wait_step, IssueAction, Probe, StateChange,
    WaitStep,
};

#[test]
fn matches_a_bare_invocation() {
    assert_eq!(issue_invocation("issue.ps1 claim 42", "claim"), Some(42));
}

#[test]
fn matches_common_real_world_spellings() {
    for cmd in [
        r"tools\agent\issue.ps1 claim 7",
        r".\tools\agent\issue.ps1 claim 7",
        r"powershell -File tools\agent\issue.ps1 claim 7",
        r"powershell.exe -NoProfile -File .\issue.ps1 claim 7",
        r"pwsh -File C:\repo\tools\issue.ps1 claim 7",
        r"& .\tools\agent\issue.ps1 claim 7",
        r#"& "C:\repo\tools\agent\issue.ps1" claim 7"#,
        r"cd foo; issue.ps1 claim 7",
        "git status && issue.ps1 claim 7",
        "git status || issue.ps1 claim 7",
        "echo hi\nissue.ps1 claim 7",
        r"ISSUE.PS1 CLAIM 7",
    ] {
        assert_eq!(issue_invocation(cmd, "claim"), Some(7), "should match: {cmd}");
    }
}

#[test]
fn ignores_mentions_inside_a_quoted_payload() {
    for cmd in [
        r#"gh issue create --body "run issue.ps1 claim 42 to take it""#,
        r#"echo "issue.ps1 claim 42""#,
        r#"git commit -m "document issue.ps1 claim 42""#,
    ] {
        assert_eq!(issue_invocation(cmd, "claim"), None, "should not match: {cmd}");
    }
}

#[test]
fn requires_the_verb_and_a_number() {
    assert_eq!(issue_invocation("issue.ps1 claim", "claim"), None);
    assert_eq!(issue_invocation("issue.ps1 claim abc", "claim"), None);
    assert_eq!(issue_invocation("issue.ps1 claiming 42", "claim"), None);
    assert_eq!(issue_invocation("issue.ps1claim 42", "claim"), None);
}

#[test]
fn claim_and_done_do_not_cross_match() {
    assert_eq!(issue_invocation("issue.ps1 done 9", "claim"), None);
    assert_eq!(issue_invocation("issue.ps1 done 9", "done"), Some(9));
    assert_eq!(issue_invocation("issue.ps1 claim 9", "done"), None);
}

#[test]
fn a_similarly_named_script_does_not_match() {
    assert_eq!(issue_invocation("my-issue.ps1x claim 3", "claim"), None);
    assert_eq!(issue_invocation("reissue.ps1 claim 3", "claim"), None);
    assert_eq!(issue_invocation("notes-about-issue.ps1 claim 3", "claim"), None);
}

#[test]
fn multibyte_commands_do_not_panic() {
    assert_eq!(issue_invocation("échoing something", "claim"), None);
    assert_eq!(issue_invocation("issue.ps1 claim 5 # café ✦", "claim"), Some(5));
}

#[test]
fn statement_splitting_finds_the_boundaries() {
    assert_eq!(split_statements("a;b"), vec!["a", "b"]);
    assert_eq!(split_statements("a&&b"), vec!["a", "b"]);
    assert_eq!(split_statements("a||b"), vec!["a", "b"]);
    assert_eq!(split_statements("a\r\nb"), vec!["a", "", "b"]);
    assert_eq!(split_statements("a&b"), vec!["a&b"]);
}

#[test]
fn numbers_past_u32_are_not_invocations() {
    assert_eq!(issue_invocation("issue.ps1 claim 4294967296", "claim"), None);
    assert_eq!(issue_invocation("issue.ps1 claim 4294967295", "claim"), Some(4294967295));
    assert_eq!(issue_invocation("issue.ps1 claim 00012", "claim"), Some(12));
    assert_eq!(issue_invocation("issue.ps1 claim 99999999999; issue.ps1 claim 3", "claim"), Some(3));
}

#[test]
fn shell_prefix_edge_cases() {
    // A trailing flag with no script after it is no invocation.
    assert_eq!(issue_invocation("pwsh -File", "claim"), None);
    // The shell name must be followed by whitespace to count as a prefix.
    assert_eq!(issue_invocation("pwshx issue.ps1 claim 4", "claim"), None);
    assert_eq!(issue_invocation("  \tissue.ps1\u{a0}claim\u{2003}11", "claim"), Some(11));
    assert_eq!(issue_invocation("\"issue.ps1\" claim 8", "claim"), Some(8));
}

#[test]
fn the_state_file_is_written_only_on_a_transition() {
    let working = Some("working".to_string());
    assert_eq!(state_change_for("working", &working), StateChange::Keep);
    assert_eq!(state_change_for("waiting", &working), StateChange::Write);
    assert_eq!(state_change_for("working", &None), StateChange::Write);
    assert_eq!(state_change_for("waiting", &Some("waiting".to_string())), StateChange::Keep);
    assert_eq!(state_change_for("clear", &working), StateChange::Remove);
    assert_eq!(state_change_for("clear", &None), StateChange::Remove);
    assert_eq!(state_change_for("other", &None), StateChange::Keep);
}

#[test]
fn the_hook_needs_a_session_id() {
    assert_eq!(session_of(&parse(r#"{"session_id":"t1"}"#).unwrap()).as_deref(), Some("t1"));
    assert_eq!(session_of(&parse(r#"{"session_id":""}"#).unwrap()), None);
    assert_eq!(session_of(&parse(r#"{"session_id":5}"#).unwrap()), None);
    assert_eq!(session_of(&parse(r#"{}"#).unwrap()), None);
}

#[test]
fn the_tool_command_is_read_from_tool_input() {
    let v = parse(r#"{"tool_input":{"command":"issue.ps1 claim 3"}}"#).unwrap();
    assert_eq!(tool_command(&v), "issue.ps1 claim 3");
    assert_eq!(tool_command(&parse(r#"{"tool_input":{}}"#).unwrap()), "");
    assert_eq!(tool_command(&parse(r#"{"tool_input":"x"}"#).unwrap()), "");
}

#[test]
fn a_claim_wins_over_a_done_in_one_command() {
    assert_eq!(issue_action("issue.ps1 claim 3"), IssueAction::Claim(3));
    assert_eq!(issue_action("issue.ps1 done 3"), IssueAction::Done);
    assert_eq!(issue_action("issue.ps1 done 3; issue.ps1 claim 4"), IssueAction::Claim(4));
    assert_eq!(issue_action("echo hi"), IssueAction::Nothing);
    assert_eq!(issue_action(""), IssueAction::Nothing);
}

#[test]
fn the_issue_label_holds_the_number_and_the_cut_title() {
    assert_eq!(issue_label(12, &None), "#12");
    assert_eq!(issue_label(12, &Some("Fix it".to_string())), "#12 Fix it");
    let long = "é".repeat(130);
    let label = issue_label(5, &Some(long));
    assert_eq!(label, format!("#5 {}", "é".repeat(120)));
    assert_eq!(truncate_chars("abcdef", 3), "abc");
    assert_eq!(truncate_chars("ab", 3), "ab");
}

#[test]
fn the_history_records_the_claim() {
    assert_eq!(history_note("#12 Fix it"), "\n(claimed issue #12 Fix it)\n");
}

#[test]
fn gh_output_is_collapsed_to_one_line() {
    assert_eq!(normalize_title("  Fix   the\tparser \n").as_deref(), Some("Fix the parser"));
    assert_eq!(normalize_title("one").as_deref(), Some("one"));
    assert_eq!(normalize_title(" \n\t "), None);
    assert_eq!(normalize_title(""), None);
}

#[test]
fn waiting_on_a_child_polls_until_the_limit() {
    assert_eq!(wait_step(Probe::Exited, 0, 10), WaitStep::Collect);
    assert_eq!(wait_step(Probe::Running, 10, 10), WaitStep::Sleep);
    assert_eq!(wait_step(Probe::Running, 11, 10), WaitStep::Kill);
    assert_eq!(wait_step(Probe::Failed, 0, 10), WaitStep::GiveUp);
}

#[test]
fn the_refresh_payload_names_the_session() {
    assert_eq!(refresh_payload("t1"), r#"{"session_id":"t1"}"#);
}

#[test]
fn the_command_line_picks_the_job() {
    assert!(matches!(command(None, None), Command::Render));
    assert!(matches!(command(Some("render"), None), Command::Render));
    match command(Some("state"), Some("waiting")) {
        Command::State(m) => assert_eq!(m, "waiting"),
        _ => panic!("expected the state hook"),
    }
    assert!(matches!(command(Some("state"), Some("bogus")), Command::Usage));
    assert!(matches!(command(Some("state"), None), Command::Usage));
    match command(Some("frobnicate"), None) {
        Command::Unknown(o) => assert_eq!(o, "frobnicate"),
        _ => panic!("expected an unknown command"),
    }
}

#[test]
fn the_written_state_reads_back_as_the_mode() {
    for mode in ["working", "waiting"] {
        assert_eq!(lib::paths::trimmed(mode).as_deref(), Some(mode));
    }
}

#[test]
fn matching_ignores_the_case_of_letters() {
    for cmd in ["IsSuE.Ps1 ClAiM 7", r"POWERSHELL.EXE -NoProfile -File .\TOOLS\ISSUE.PS1 CLAIM 7", "Pwsh -f Issue.ps1 Claim 7"] {
        assert_eq!(issue_invocation(cmd, "claim"), Some(7), "should match: {cmd}");
        assert_eq!(issue_invocation(cmd, "CLAIM"), Some(7), "should match: {cmd}");
    }
}

#[test]
fn a_boundary_starts_a_new_statement_and_the_first_match_wins() {
    for (a, b) in [("cd foo", "issue.ps1 claim 7"), ("issue.ps1 claim 3", "issue.ps1 claim 7"), ("x&", "&y"), ("", "")] {
        for sep in [";", "\n", "\r"] {
            let joined = format!("{a}{sep}{b}");
            assert_eq!(
                issue_invocation(&joined, "claim"),
                issue_invocation(a, "claim").or(issue_invocation(b, "claim")),
                "{joined:?}"
            );
        }
    }
    assert_eq!(issue_invocation("cd foo;issue.ps1 claim 7", "claim"), Some(7));
}
