use lib::json::{parse, Json};
use lib::paths::trimmed;
use lib::render::{
    fg, leading_issue_number, next_spin, payload_dir, render, segments, spinner_frame, summarising,
    truncate_chars, Gauge, Heat, Limit, Surroundings, BG_DARK, BLUE, GREEN, ORANGE, RED, YELLOW,
};
use lib::state::issue_label;

fn strip_ansi(s: &str) -> String {
    let mut out = String::new();
    let mut chars = s.chars();
    while let Some(c) = chars.next() {
        if c == '\x1b' {
            for c2 in chars.by_ref() {
                if c2 == 'm' {
                    break;
                }
            }
        } else {
            out.push(c);
        }
    }
    out
}

fn number(v: &Json) -> Option<f64> {
    v.as_number().and_then(|t| t.parse::<f64>().ok())
}

fn pct(v: f64) -> String {
    if v.fract() == 0.0 {
        format!("{}", v as i64)
    } else {
        format!("{v}")
    }
}

/// What the program reads around a payload when no session files exist and
/// the folder is not a repository.
fn quiet_surroundings(input: &Json) -> Surroundings {
    let dir = payload_dir(input).unwrap_or_default();
    // The folder's last component, for either kind of separator.
    let name = match dir.rsplit(['/', '\\']).next() {
        Some(last) if !last.is_empty() => last.to_string(),
        _ => dir.clone(),
    };
    let gauge = number(input.get("context_window").get("used_percentage")).map(|ctx| Gauge {
        steps: (ctx / 20.0).round() as i64,
        heat: if ctx >= 80.0 {
            Heat::Hot
        } else if ctx >= 60.0 {
            Heat::Warm
        } else {
            Heat::Calm
        },
        percent: pct(ctx),
    });
    let mut limits = Vec::new();
    for (label, key) in [("5h", "five_hour"), ("7d", "seven_day")] {
        if let Some(used) = number(input.get("rate_limits").get(key).get("used_percentage")) {
            if used >= 75.0 {
                limits.push(Limit { label: label.to_string(), percent: pct(used), severe: used >= 90.0 });
            }
        }
    }
    Surroundings {
        now: 1_700_000_000_000,
        name,
        branch: None,
        task: None,
        pending: None,
        spin: None,
        state: None,
        state_since: 0,
        issue: None,
        gauge,
        limits,
    }
}

fn render_str(payload: &str) -> String {
    let input = parse(payload).unwrap();
    let f = quiet_surroundings(&input);
    render(&input, &f)
}

#[test]
fn shows_dir_model_and_context_bar() {
    let out = render_str(
        r#"{"workspace":{"current_dir":"E:\\dev\\widget"},
            "model":{"display_name":"Opus 5"},
            "context_window":{"used_percentage":42}}"#,
    );
    let plain = strip_ansi(&out);
    assert!(plain.contains("⌂ widget"), "{plain}");
    assert!(plain.contains("Opus 5"), "{plain}");
    assert!(plain.contains("▰▰▱▱▱ 42%"), "{plain}");
}

#[test]
fn context_bar_fills_and_recolours_at_thresholds() {
    assert!(strip_ansi(&render_str(r#"{"context_window":{"used_percentage":100}}"#))
        .contains("▰▰▰▰▰ 100%"));
    assert!(strip_ansi(&render_str(r#"{"context_window":{"used_percentage":0}}"#))
        .contains("▱▱▱▱▱ 0%"));
    let hot = render_str(r#"{"context_window":{"used_percentage":85}}"#);
    assert!(hot.contains(&fg(RED)));
    let warm = render_str(r#"{"context_window":{"used_percentage":65}}"#);
    assert!(warm.contains(&fg(YELLOW)));
}

#[test]
fn rate_limits_appear_only_above_the_threshold() {
    let quiet = strip_ansi(&render_str(r#"{"rate_limits":{"five_hour":{"used_percentage":50}}}"#));
    assert!(!quiet.contains("5h"), "{quiet}");
    let loud = strip_ansi(&render_str(
        r#"{"rate_limits":{"five_hour":{"used_percentage":80},"seven_day":{"used_percentage":91}}}"#,
    ));
    assert!(loud.contains("⧖ 5h 80%"), "{loud}");
    assert!(loud.contains("⧖ 7d 91%"), "{loud}");
}

#[test]
fn session_name_is_used_when_no_task_file_exists() {
    let out = strip_ansi(&render_str(
        r#"{"session_id":"no-such-session-id","session_name":"Refactor the parser"}"#,
    ));
    assert!(out.contains("✦ Refactor the parser"), "{out}");
}

#[test]
fn long_titles_are_ellipsised_to_the_segment_width() {
    let long = "x".repeat(80);
    let out = strip_ansi(&render_str(&format!(
        r#"{{"session_id":"none","session_name":"{long}"}}"#
    )));
    assert!(out.contains(&format!("{}…", "x".repeat(59))), "{out}");
}

#[test]
fn empty_input_still_renders_a_line() {
    let input = parse("{}").unwrap();
    let out = render(&input, &quiet_surroundings(&input));
    assert!(out.contains("⌂ "), "{out}");
    assert!(out.ends_with("\x1b[0m"));
}

#[test]
fn issue_chip_takes_only_the_number() {
    assert_eq!(leading_issue_number("#123 Fix the thing").as_deref(), Some("#123"));
    assert_eq!(leading_issue_number("no number here"), None);
    assert_eq!(leading_issue_number("#"), None);
}

#[test]
fn truncation_counts_characters_not_bytes() {
    let s = "é".repeat(70);
    let t = truncate_chars(&s, 60);
    assert_eq!(t.chars().count(), 60);
    assert!(t.ends_with('…'));
    assert_eq!(truncate_chars("short", 60), "short");
}

#[test]
fn truncation_at_the_exact_width_keeps_the_text() {
    let s = "y".repeat(60);
    assert_eq!(truncate_chars(&s, 60), s);
    assert_eq!(truncate_chars(&"y".repeat(61), 60), format!("{}…", "y".repeat(59)));
}

#[test]
fn colour_codes_are_truecolor_escapes() {
    assert_eq!(fg(RED), "\x1b[38;2;247;118;142m");
    assert_eq!(lib::render::bg(BG_DARK), "\x1b[48;2;26;27;38m");
    assert_eq!(lib::render::rgb(ORANGE), (255, 158, 100));
}

#[test]
fn waiting_state_shows_the_red_prompt_first() {
    let input = parse(r#"{"session_id":"s1"}"#).unwrap();
    let mut f = quiet_surroundings(&input);
    f.state = Some("waiting".to_string());
    let out = render(&input, &f);
    assert!(strip_ansi(&out).starts_with(" ❯ "), "{out}");
    assert!(out.starts_with("\x1b[48;2;36;40;59m\x1b[1m\x1b[38;2;247;118;142m"), "{out:?}");
}

#[test]
fn working_stint_is_shown_in_minutes_then_hours() {
    let input = parse(r#"{"session_id":"s1"}"#).unwrap();
    let mut f = quiet_surroundings(&input);
    f.state = Some("working".to_string());
    f.state_since = f.now - 30_000;
    assert!(strip_ansi(&render(&input, &f)).starts_with(" ● "));
    f.state_since = f.now - 5 * 60_000;
    assert!(strip_ansi(&render(&input, &f)).starts_with(" ● 5m "));
    f.state_since = f.now - (2 * 60 + 7) * 60_000;
    assert!(strip_ansi(&render(&input, &f)).starts_with(" ● 2h07 "));
}

#[test]
fn state_files_are_ignored_without_a_session() {
    let input = parse(r#"{}"#).unwrap();
    let mut f = quiet_surroundings(&input);
    f.state = Some("waiting".to_string());
    f.issue = Some("#5 x".to_string());
    f.task = Some("a task".to_string());
    let plain = strip_ansi(&render(&input, &f));
    assert!(!plain.contains('❯'), "{plain}");
    assert!(!plain.contains("#5"), "{plain}");
    assert!(!plain.contains("a task"), "{plain}");
}

#[test]
fn branch_is_shown_unless_the_folder_names_it() {
    let input = parse(r#"{"cwd":"/src/widget"}"#).unwrap();
    let mut f = quiet_surroundings(&input);
    f.branch = Some("main".to_string());
    let out = render(&input, &f);
    assert!(strip_ansi(&out).contains(" main"), "{out}");
    assert!(out.contains(&lib::render::bg(BLUE)));
    f.name = "widget-FEATURE-x".to_string();
    f.branch = Some("feature-X".to_string());
    assert!(!strip_ansi(&render(&input, &f)).contains(" feature-X"));
}

#[test]
fn task_file_wins_over_session_name_and_issue_chip_shows() {
    let input = parse(r#"{"session_id":"s1","session_name":"stale name"}"#).unwrap();
    let mut f = quiet_surroundings(&input);
    f.task = Some("Live task".to_string());
    f.issue = Some("#77 Make it so".to_string());
    let plain = strip_ansi(&render(&input, &f));
    assert!(plain.contains("✦ Live task"), "{plain}");
    assert!(!plain.contains("stale name"), "{plain}");
    assert!(plain.contains(" #77 "), "{plain}");
    assert!(render(&input, &f).contains(&fg(ORANGE)));
}

#[test]
fn spinner_shows_while_summarising_and_advances() {
    let input = parse(r#"{"session_id":"s1"}"#).unwrap();
    let mut f = quiet_surroundings(&input);
    f.pending = Some(f.now - 1_000);
    f.spin = Some("3".to_string());
    let plain = strip_ansi(&render(&input, &f));
    assert!(plain.contains("✻ summarising"), "{plain}");
    assert!(summarising("s1", f.pending, f.now));
    assert!(!summarising("s1", Some(f.now - 90_000), f.now));
    assert!(!summarising("", f.pending, f.now));
    assert_eq!(spinner_frame(&Some("3".to_string())), 3);
    assert_eq!(spinner_frame(&Some("11".to_string())), 3);
    assert_eq!(spinner_frame(&Some("junk".to_string())), 0);
    assert_eq!(spinner_frame(&None), 0);
}

#[test]
fn the_written_spin_counter_reads_back_as_the_next_frame() {
    for frame in 0..8usize {
        let text = next_spin(frame);
        assert_eq!(spinner_frame(&trimmed(&text)), (frame + 1) % 8);
    }
    assert_eq!(next_spin(7), "0");
}

#[test]
fn a_claimed_issue_label_reads_back_as_its_chip() {
    let label = issue_label(42, &Some("Fix the thing ".to_string()));
    let raw = trimmed(&label).unwrap();
    assert_eq!(leading_issue_number(&raw).as_deref(), Some("#42"));
    let bare = issue_label(7, &None);
    assert_eq!(leading_issue_number(&trimmed(&bare).unwrap()).as_deref(), Some("#7"));
}

#[test]
fn the_folder_comes_from_the_workspace_then_cwd() {
    let a = parse(r#"{"workspace":{"current_dir":"/a"},"cwd":"/b"}"#).unwrap();
    assert_eq!(payload_dir(&a).as_deref(), Some("/a"));
    let b = parse(r#"{"cwd":"/b"}"#).unwrap();
    assert_eq!(payload_dir(&b).as_deref(), Some("/b"));
    assert_eq!(payload_dir(&parse("{}").unwrap()), None);
}

#[test]
fn segments_keep_the_documented_order() {
    let input = parse(
        r#"{"session_id":"s","model":{"display_name":"M"},"context_window":{"used_percentage":10}}"#,
    )
    .unwrap();
    let mut f = quiet_surroundings(&input);
    f.state = Some("working".to_string());
    f.state_since = f.now;
    f.branch = Some("dev".to_string());
    f.name = "proj".to_string();
    f.issue = Some("#3".to_string());
    f.task = Some("T".to_string());
    let texts: Vec<String> = segments(&input, &f).into_iter().map(|s| s.text).collect();
    assert_eq!(texts, vec!["●", "⌂ proj", " dev", "#3", "✦ T", "M", "▰▱▱▱▱ 10%"]);
    let segs = segments(&input, &f);
    assert_eq!(segs[0].fg, GREEN);
}
