use std::borrow::Cow;
use tool_runtime::artifact::{finalize_delivered_page, ScannedPosition, SourcePosition};
use tool_runtime::classify::{classify_process_outcome, required_project_marker};
use tool_runtime::echo::{edit_echo, EDIT_ECHO_MAX_CHARS};
use tool_runtime::fs_read::mixed_eol_tokens;
use tool_runtime::matching::{
    exact_match, normalize_edit_line_endings, projected_replacement_len, ExactMatch,
    ExactMatchError, LineEnding,
};
use tool_runtime::outcome::ToolFailureClass;
use tool_runtime::page::{DeliveredSpan, FINAL_BODY_CHARS};

#[test]
fn echo_covers_the_changed_region_with_context_and_numbers() {
    let original = "l1\nl2\nl3\nl4\nfn b() {}\nl6\nl7\nl8\nl9\nl10\n";
    let updated = original.replace("fn b() {}", "fn b() -> u8 { 1 }");
    let echo = edit_echo(original, &updated, EDIT_ECHO_MAX_CHARS);
    assert!(echo.contains("     2 | l2"), "{echo}");
    assert!(echo.contains("     5 | fn b() -> u8 { 1 }"), "{echo}");
    assert!(echo.contains("     8 | l8"), "{echo}");
    assert!(!echo.contains("     1 | l1"), "{echo}");
    assert!(!echo.contains("     9 | l9"), "{echo}");
}

#[test]
fn echo_marks_truncation_and_points_to_fs_read() {
    let original = "one\n";
    let updated = original.replace(
        "one",
        &(0..60)
            .map(|index| format!("line {index} padding padding padding\n"))
            .collect::<String>(),
    );
    let echo = edit_echo(original, &updated, 200);
    assert!(
        echo.contains("fs.read the path for the full body"),
        "a capped echo must point at the full-body path: {echo}"
    );
    assert!(
        echo.chars().count() <= 200,
        "the hard cap must hold: {} chars",
        echo.chars().count()
    );
}

#[test]
fn echo_handles_deletion_insertion_and_empty_results() {
    let echo = edit_echo("a\nXX\nb\n", "a\nb\n", EDIT_ECHO_MAX_CHARS);
    assert!(echo.contains("     2 | b"), "{echo}");

    let echo = edit_echo("", "hello\n", EDIT_ECHO_MAX_CHARS);
    assert!(echo.contains("     1 | hello"), "{echo}");

    let echo = edit_echo("gone\n", "", EDIT_ECHO_MAX_CHARS);
    assert_eq!(echo, "(file is now empty)");
}

#[test]
fn echo_spans_multi_line_changes_and_multibyte_boundaries() {
    let original = "header\nbody-1\nbody-2\nbody-3\nfooter\n";
    let updated = original.replace("body-1\nbody-2\nbody-3", "body-A\nbody-B");
    let echo = edit_echo(original, &updated, EDIT_ECHO_MAX_CHARS);
    assert!(echo.contains("body-A"), "{echo}");
    assert!(echo.contains("body-B"), "{echo}");
    assert!(echo.contains("footer"), "{echo}");

    let original = "ααα\nβββ\n";
    let updated = original.replace("βββ", "βγδ");
    let echo = edit_echo(original, &updated, EDIT_ECHO_MAX_CHARS);
    assert!(echo.contains("βγδ"), "{echo}");
}

#[test]
fn line_ending_normalization_is_exact_and_preserves_uniform_targets() {
    assert_eq!(LineEnding::detect("a\r\nb\r\n"), LineEnding::CrLf);
    assert_eq!(LineEnding::detect("a\nb\n"), LineEnding::Lf);
    assert_eq!(LineEnding::detect("a\r\nb\n"), LineEnding::Mixed);
    assert_eq!(LineEnding::detect("plain"), LineEnding::NoBreaks);

    assert_eq!(
        normalize_edit_line_endings("a\nb\n", LineEnding::CrLf),
        "a\r\nb\r\n"
    );
    assert_eq!(
        normalize_edit_line_endings("a\r\nb\r\n", LineEnding::Lf),
        "a\nb\n"
    );
    assert!(matches!(
        normalize_edit_line_endings("a\nb", LineEnding::Mixed),
        Cow::Borrowed(_)
    ));
}

#[test]
fn exact_match_uses_constant_state_and_keeps_ambiguity_explicit() {
    assert_eq!(
        exact_match("a b a", "a", Some(2)).unwrap(),
        ExactMatch {
            start: 4,
            end: 5,
            count: 2
        }
    );
    assert_eq!(
        exact_match("a b a", "a", None),
        Err(ExactMatchError::Ambiguous { count: 2 })
    );
    assert_eq!(
        exact_match("abc", "z", None),
        Err(ExactMatchError::NoMatch { count: 0 })
    );
}

#[test]
fn projected_replacement_size_is_checked_before_allocation() {
    assert_eq!(projected_replacement_len(10, 1, 3, 2), Some(14));
    assert_eq!(projected_replacement_len(10, 3, 1, 2), Some(6));
    assert_eq!(
        projected_replacement_len(usize::MAX, 1, usize::MAX, 2),
        None
    );
}

#[test]
fn mixed_eol_map_matches_rendered_line_windows_at_boundaries() {
    assert_eq!(mixed_eol_tokens("", 0, 400), "");
    assert_eq!(mixed_eol_tokens("a\r\nb\nc", 0, 400), "CLN");
    assert_eq!(mixed_eol_tokens("a\r\nb\nc", 1, 2), "L");
    assert_eq!(mixed_eol_tokens("a\r\nb\n", 0, 400), "CL");
    assert_eq!(mixed_eol_tokens("\n\r\nx", 0, 400), "LCN");
    assert_eq!(mixed_eol_tokens("a\rb", 0, 400), "N");
}

#[test]
fn finalize_falls_back_behind_the_overrunning_spans() {
    let scanned = ScannedPosition {
        lines: 500,
        bytes: 75_500,
        complete: true,
    };
    let window_start = SourcePosition::new(1, 0);
    let spans: Vec<DeliveredSpan> = (1..=200)
        .map(|line| DeliveredSpan {
            line,
            shown_to: 200,
            complete: true,
            text: "x".repeat(200),
        })
        .collect();
    let reference = "artifact://v1/00000000-0000-0000-0000-000000000000/process/log/\
                     0000000000000000000000000000000000000000000000000000000000000000";
    let page = finalize_delivered_page(spans, scanned, window_start, 200, reference);
    assert!(
        page.body.chars().count() <= FINAL_BODY_CHARS,
        "the finalized body must fit: {}",
        page.body.chars().count()
    );
    let kept = page.returned;
    assert!(kept < 200, "the overrunning spans must be dropped");
    assert_eq!(page.facts.next, SourcePosition::new(kept + 1, 0));
    assert!(page.facts.has_more, "a dropped span leaves an unshown line");
    assert!(
        page.facts.window_truncated,
        "an overrun page reports its truncation"
    );
    assert!(page.body.contains(&format!("{:>6} | ", 1)));
    assert!(!page.body.contains(&format!("{:>6} | ", kept + 2)));
}

#[test]
fn rustc_and_generic_tools_are_not_missing_project_marker() {
    assert_eq!(
        required_project_marker("rustc --test src/protocol.rs"),
        None
    );
    assert_eq!(required_project_marker("pytest"), None);
    assert_eq!(required_project_marker("pip install foo"), None);
    assert_eq!(required_project_marker("npx tsc"), None);
    assert_eq!(
        classify_process_outcome(
            "exited",
            false,
            "error: couldn't compile src/protocol.rs",
            Some("rustc --test src/protocol.rs"),
            false,
            &vec![],
        ),
        Some(ToolFailureClass::ProcessExit)
    );
}

#[test]
fn cargo_test_missing_marker_requires_subcommand_evidence_and_absence() {
    assert_eq!(required_project_marker("cargo test"), Some("Cargo.toml"));
    assert_eq!(
        classify_process_outcome(
            "exited",
            false,
            "error: could not find `Cargo.toml` in `/tmp/x` or any parent directory",
            Some("cargo test"),
            false,
            &vec![],
        ),
        Some(ToolFailureClass::MissingProjectMarker)
    );
    assert_eq!(
        classify_process_outcome(
            "exited",
            false,
            "error: test failed",
            Some("cargo test"),
            false,
            &vec![],
        ),
        Some(ToolFailureClass::ProcessExit)
    );
    assert_eq!(
        classify_process_outcome(
            "exited",
            false,
            "error: could not find `Cargo.toml`",
            Some("cargo test"),
            false,
            &vec!["Cargo.toml".to_string()],
        ),
        Some(ToolFailureClass::ProcessExit)
    );
}

#[test]
fn unavailable_binary_is_not_missing_project_marker() {
    assert_eq!(
        classify_process_outcome(
            "exited",
            false,
            "'cargo' is not recognized as an internal or external command",
            Some("cargo test"),
            false,
            &vec![],
        ),
        Some(ToolFailureClass::CommandUnavailable)
    );
}

#[test]
fn every_outcome_has_its_class() {
    let none: Vec<String> = vec![];
    let class = |outcome: &str, ok: bool, tail: &str, wrong: bool| {
        classify_process_outcome(outcome, ok, tail, Some("npm run build"), wrong, &none)
    };
    assert_eq!(
        class("cancelled", true, "", false),
        Some(ToolFailureClass::Cancellation)
    );
    assert_eq!(
        class("timed out", false, "", false),
        Some(ToolFailureClass::Timeout)
    );
    assert_eq!(class("exited", true, "not found", false), None);
    assert_eq!(
        class("exited", false, "sh: 1: Get-Item: NOT FOUND", true),
        Some(ToolFailureClass::ShellDialectMismatch)
    );
    assert_eq!(
        class("exited", false, "ENOENT package.json", false),
        Some(ToolFailureClass::MissingProjectMarker)
    );
}
