use tool_runtime::edit::{
    check_args, check_before_staging, check_size, plan as plan_replace, ReplaceArgs, ReplaceError,
    ReplacePlan,
};
use tool_runtime::echo::EDIT_ECHO_MAX_CHARS;
use tool_runtime::matching::LineEnding;
use tool_runtime::outcome::ToolFailureClass;
use tool_runtime::patch::{
    append_bounded_rollback_detail, apply_hunk, bound_diagnostic, check_limits, content_digest,
    plan, receipt, resolved_files, rollback_report, FilePatch, Hunk, HunkOp, PatchArgs, PatchError,
    PatchPlan, PatchReceipt, PlannedFile, Snapshot, StageStep, Staging, MAX_FILES, MAX_FILE_BYTES,
};

fn replace(old: &str, new: &str) -> ReplaceArgs {
    ReplaceArgs {
        path: "f.txt".to_string(),
        old: old.to_string(),
        new: new.to_string(),
        occurrence: None,
        replace_all: false,
        base_revision: None,
    }
}

fn replaced(args: &ReplaceArgs, original: &str) -> String {
    match plan_replace(args, "f.txt", original) {
        ReplacePlan::Ready(updated, report) => {
            assert!(report.changed);
            assert_eq!(report.revision, content_digest(&updated));
            assert_eq!(report.bytes_after, updated.len());
            updated
        }
        _ => panic!("the edit must be planned"),
    }
}

fn class(args: &ReplaceArgs, original: &str) -> ToolFailureClass {
    match plan_replace(args, "f.txt", original) {
        ReplacePlan::Refused(refusal) => {
            assert_eq!(refusal.revision, content_digest(original));
            assert!(refusal.content.contains("revision="));
            refusal.class
        }
        _ => panic!("the edit must be refused"),
    }
}

#[test]
fn replace_single_occurrence_and_journal_it() {
    let original = "fn auth() {}\nfn main() { auth(); }\n";
    let args = replace("auth() {}", "auth() -> bool { true }");
    let ReplacePlan::Ready(updated, report) = plan_replace(&args, "lib.rs", original) else {
        panic!("the edit must be planned");
    };
    assert_eq!(updated, "fn auth() -> bool { true }\nfn main() { auth(); }\n");
    assert_eq!(report.path, "lib.rs");
    assert_eq!(report.revision.len(), 64);
    assert!(report
        .content
        .contains(&format!("revision {}", report.revision)));
    assert!(report
        .content
        .contains("     1 | fn auth() -> bool { true }"));
    assert_eq!(report.occurrences, 1);
    assert_eq!(report.bytes_before, original.len());
}

#[test]
fn ambiguous_match_requires_occurrence() {
    let mut args = replace("a", "x");
    assert_eq!(class(&args, "a b a\n"), ToolFailureClass::AmbiguousMatch);
    args.occurrence = Some(2);
    assert_eq!(replaced(&args, "a b a\n"), "a b x\n");
    args.occurrence = Some(3);
    assert_eq!(class(&args, "a b a\n"), ToolFailureClass::NoExactMatch);
    args.occurrence = None;
    args.replace_all = true;
    assert_eq!(replaced(&args, "a b a\n"), "x b x\n");
}

#[test]
fn stale_base_revision_is_typed_and_does_not_mutate() {
    let mut args = replace("hello", "hi");
    args.base_revision = Some(content_digest("hello\n"));
    assert_eq!(class(&args, "changed\n"), ToolFailureClass::StaleRevision);
    assert_eq!(replaced(&args, "hello\n"), "hi\n");
}

#[test]
fn zero_matches_returns_no_exact_match_and_candidates() {
    let args = replace("delta", "x");
    let ReplacePlan::Refused(refusal) = plan_replace(&args, "f.txt", "alpha beta gamma\n") else {
        panic!("zero matches must be a refusal");
    };
    assert_eq!(refusal.class, ToolFailureClass::NoExactMatch);
    assert_eq!(refusal.match_count, 0);
    assert!(refusal.content.contains("no candidate"));
    assert_eq!(refusal.class.as_str(), "no_exact_match");
}

#[test]
fn lf_multiline_argument_edits_crlf_file_without_changing_its_style() {
    let original = "alpha\r\nbeta\r\ngamma\r\n";
    let mut args = replace("alpha\nbeta", "ALPHA\nBETA");
    args.base_revision = Some(content_digest(original));
    let ReplacePlan::Ready(updated, report) = plan_replace(&args, "f.txt", original) else {
        panic!("LF arguments must match a uniform CRLF target");
    };
    assert_eq!(report.line_ending, LineEnding::CrLf);
    assert!(report.line_endings_normalized);
    assert_eq!(updated, "ALPHA\r\nBETA\r\ngamma\r\n");
}

#[test]
fn expanded_result_over_limit_is_rejected_before_staging() {
    let args = replace("x", &"y".repeat(MAX_FILE_BYTES + 1));
    let ReplacePlan::Invalid(error) = plan_replace(&args, "f.txt", "x") else {
        panic!("an oversized result must be refused");
    };
    assert_eq!(error, ReplaceError::ResultTooLarge);
    assert_eq!(
        error.message(),
        format!("edit.replace result exceeds the {MAX_FILE_BYTES}-byte file limit")
    );
}

#[test]
fn invalid_replace_arguments_are_refused() {
    assert_eq!(
        check_args(&replace("", "x")).unwrap_err().message(),
        "edit.replace `old` must not be empty"
    );
    let mut both = replace("a", "x");
    both.occurrence = Some(1);
    both.replace_all = true;
    assert_eq!(
        check_args(&both).unwrap_err(),
        ReplaceError::OccurrenceWithAll
    );
    let limit = MAX_FILE_BYTES as u64;
    assert_eq!(
        check_size(limit + 1, 0).unwrap_err(),
        ReplaceError::FileTooLarge(limit + 1)
    );
    assert_eq!(
        check_size(limit, MAX_FILE_BYTES + 1).unwrap_err(),
        ReplaceError::FileGrew
    );
    assert!(check_size(limit, MAX_FILE_BYTES).is_ok());
}

#[test]
fn an_edit_that_changes_nothing_is_no_edit() {
    let ReplacePlan::Unchanged(report) = plan_replace(&replace("a", "a"), "f.txt", "a\n") else {
        panic!("nothing changes");
    };
    assert!(!report.changed);
    assert_eq!(report.summary, "no-op: replacement text equals original");
    assert_eq!(report.content, "no change: f.txt");
}

#[test]
fn a_file_that_moved_on_is_not_staged() {
    let args = replace("a", "b");
    let same = Some(content_digest("a\n"));
    assert!(check_before_staging(&args, "f.txt", "a\n", same).is_none());
    for moved in [None, Some(content_digest("c\n"))] {
        let refusal = check_before_staging(&args, "f.txt", "a\n", moved).unwrap();
        assert_eq!(refusal.class, ToolFailureClass::StaleRevision);
    }
}

fn hunk(op: HunkOp, old: &str, new: &str) -> Hunk {
    Hunk {
        op,
        old: old.to_string(),
        new: new.to_string(),
        occurrence: None,
    }
}

fn file(path: &str, base_revision: Option<String>, hunks: &[(&str, &str)]) -> FilePatch {
    FilePatch {
        path: path.to_string(),
        base_revision,
        hunks: hunks
            .iter()
            .map(|(old, new)| hunk(HunkOp::Replace, old, new))
            .collect(),
    }
}

fn snapshot(relative: &str, content: &str) -> Snapshot {
    Snapshot {
        relative: relative.to_string(),
        revision: content_digest(content),
        content: content.as_bytes().to_vec(),
    }
}

fn planned(files: Vec<FilePatch>, contents: &[&str]) -> Vec<PlannedFile> {
    let snapshots = files
        .iter()
        .zip(contents)
        .map(|(file, content)| snapshot(&file.path, content))
        .collect();
    match plan(&files, &snapshots) {
        PatchPlan::Ready(list) => list,
        PatchPlan::Invalid(error) => panic!("{}", error.message()),
        PatchPlan::Refused(refusal) => panic!("{}", refusal.content),
    }
}

fn patched(file: FilePatch, content: &str) -> PlannedFile {
    planned(vec![file], &[content]).remove(0)
}

fn refused(files: Vec<FilePatch>, contents: &[&str]) -> (ToolFailureClass, String) {
    let snapshots = files
        .iter()
        .zip(contents)
        .map(|(file, content)| snapshot(&file.path, content))
        .collect();
    match plan(&files, &snapshots) {
        PatchPlan::Refused(refusal) => (refusal.class, refusal.content),
        _ => panic!("the call must be refused"),
    }
}

fn args(files: Vec<FilePatch>, path: Option<&str>, base: Option<&str>) -> PatchArgs {
    PatchArgs {
        files,
        path: path.map(str::to_string),
        base_revision: base.map(str::to_string),
        hunks: vec![],
    }
}

#[test]
fn patch_applies_hunks_in_order_and_journals() {
    let content = "fn a() {}\nfn b() {}\nfn main() { a(); b(); }\n";
    let revision = Some(content_digest(content));
    let file = file(
        "lib.rs",
        revision,
        &[
            ("fn a() {}", "fn a() -> u8 { 0 }"),
            ("fn b() {}", "fn b() -> u8 { 1 }"),
        ],
    );
    let list = planned(vec![file], &[content]);
    assert_eq!(
        list[0].updated,
        "fn a() -> u8 { 0 }\nfn b() -> u8 { 1 }\nfn main() { a(); b(); }\n"
    );
    let report = receipt(&list);
    assert!(report.changed);
    assert_eq!(report.files[0].path, "lib.rs");
    assert_eq!(report.files[0].hunks, 2);
}

#[test]
fn legacy_occurrence_remains_parser_compatible_but_off_surface() {
    let mut second = file("f.txt", None, &[("same", "changed")]);
    second.hunks[0].occurrence = Some(2);
    assert_eq!(patched(second, "same\nsame\n").updated, "same\nchanged\n");
}

#[test]
fn explicit_insert_hunks_preserve_their_unique_anchor() {
    let mut inserts = file("lib.rs", None, &[]);
    inserts.hunks = vec![
        hunk(HunkOp::InsertAfter, "fn first() {}", "\nfn second() {}"),
        hunk(HunkOp::InsertBefore, "fn last() {}", "fn penultimate() {}\n"),
    ];
    assert_eq!(
        patched(inserts, "fn first() {}\nfn last() {}\n").updated,
        "fn first() {}\nfn second() {}\nfn penultimate() {}\nfn last() {}\n"
    );
}

#[test]
fn explicit_insert_adapts_newlines_without_removing_a_crlf_anchor() {
    let mut inserts = file("lib.rs", None, &[]);
    inserts.hunks = vec![hunk(
        HunkOp::InsertAfter,
        "fn first() {}",
        "\nfn middle() {}",
    )];
    assert_eq!(
        patched(inserts, "fn first() {}\r\nfn last() {}\r\n").updated,
        "fn first() {}\r\nfn middle() {}\r\nfn last() {}\r\n"
    );
}

#[test]
fn patch_refuses_stale_base_revision() {
    let stale = Some(content_digest("original\n"));
    let (class, content) = refused(
        vec![file("f.txt", stale, &[("original", "patched")])],
        &["changed by someone else\n"],
    );
    assert_eq!(class, ToolFailureClass::StaleRevision);
    assert!(content.contains("stale_revision"));
}

#[test]
fn top_revision_binds_exactly_one_files_entry() {
    let revision = content_digest("one\n");
    let call = args(
        vec![file("f.txt", None, &[("one", "two")])],
        None,
        Some(&revision),
    );
    let files = resolved_files(call).unwrap();
    assert_eq!(files.len(), 1);
    assert_eq!(files[0].base_revision.as_deref(), Some(revision.as_str()));
    assert_eq!(planned(files, &["one\n"])[0].updated, "two\n");
}

#[test]
fn stale_top_revision_cannot_be_silently_dropped_from_one_file_entry() {
    let call = args(
        vec![file("f.txt", None, &[("one", "two")])],
        None,
        Some(&content_digest("one\n")),
    );
    let (class, _) = refused(resolved_files(call).unwrap(), &["changed elsewhere\n"]);
    assert_eq!(class, ToolFailureClass::StaleRevision);
}

#[test]
fn ambiguous_or_conflicting_top_revision_is_rejected() {
    let one = |path: &str, base: Option<&str>| {
        file(path, base.map(str::to_string), &[("a", "A")])
    };
    let conflict = resolved_files(args(vec![one("a", Some("2"))], None, Some("1"))).unwrap_err();
    assert!(conflict.message().contains("conflicting"));
    let ambiguous =
        resolved_files(args(vec![one("a", None), one("b", None)], None, Some("1"))).unwrap_err();
    assert!(ambiguous.message().contains("ambiguous"));
    let both = resolved_files(args(vec![one("a", None)], Some("a"), None)).unwrap_err();
    assert!(matches!(both, PatchError::BothForms));
    let neither = resolved_files(args(vec![], None, None)).unwrap_err();
    assert!(matches!(neither, PatchError::NeitherForm));
    let mut mixed = args(vec![one("a", None)], None, None);
    mixed.hunks = vec![hunk(HunkOp::Replace, "a", "b")];
    assert!(matches!(
        resolved_files(mixed).unwrap_err(),
        PatchError::HunksWithFiles
    ));
    let mut single = args(vec![], Some("a"), Some("1"));
    single.hunks = vec![hunk(HunkOp::Replace, "a", "b")];
    let files = resolved_files(single).unwrap();
    assert_eq!(files[0].path, "a");
    assert_eq!(files[0].base_revision.as_deref(), Some("1"));
    assert_eq!(files[0].hunks.len(), 1);
}

#[test]
fn the_limits_of_a_call_hold_before_anything_is_read() {
    let many: Vec<FilePatch> = (0..=MAX_FILES).map(|_| file("f", None, &[("a", "b")])).collect();
    assert!(matches!(
        check_limits(&many).unwrap_err(),
        PatchError::TooManyFiles
    ));
    assert!(matches!(
        check_limits(&vec![file("f", None, &[])]).unwrap_err(),
        PatchError::HunkCount(0)
    ));
    let hunks = vec![("a", "b"); 65];
    let error = check_limits(&vec![file("f", None, &hunks)]).unwrap_err();
    assert_eq!(
        error.message(),
        "edit.patch requires between 1 and 64 hunks per call (got 65)"
    );
    assert!(check_limits(&vec![file("f", None, &hunks[..64])]).is_ok());
}

#[test]
fn patch_without_revision_still_applies() {
    let file = file("f.txt", None, &[("one", "uno"), ("two", "dos")]);
    assert_eq!(patched(file, "one two\n").updated, "uno dos\n");
}

#[test]
fn patch_rejects_ambiguous_and_missing_hunks() {
    let (class, _) = refused(vec![file("f.txt", None, &[("a", "x")])], &["a b a\n"]);
    assert_eq!(class, ToolFailureClass::AmbiguousMatch);
    let (class, _) = refused(vec![file("f.txt", None, &[("zzz", "x")])], &["a b a\n"]);
    assert_eq!(class, ToolFailureClass::NoExactMatch);
}

#[test]
fn invalid_targets_and_hunks_are_errors() {
    let empty = vec![file("f", None, &[("", "x")])];
    assert!(matches!(
        plan(&empty, &vec![snapshot("f", "a")]),
        PatchPlan::Invalid(PatchError::EmptyAnchor)
    ));
    let binary = Snapshot {
        relative: "f".to_string(),
        revision: String::new(),
        content: vec![0xff],
    };
    let PatchPlan::Invalid(error) = plan(&vec![file("f", None, &[("a", "x")])], &vec![binary])
    else {
        panic!("not a text");
    };
    assert_eq!(error.message(), "edit.patch target is not UTF-8 text: f");
    let large = "y".repeat(MAX_FILE_BYTES + 1);
    let files = vec![file("f", None, &[("a", large.as_str())])];
    assert!(matches!(
        plan(&files, &vec![snapshot("f", "a")]),
        PatchPlan::Invalid(PatchError::ResultTooLarge)
    ));
}

#[test]
fn patch_applies_multiple_files_as_one_composite() {
    let list = planned(
        vec![
            file("a.txt", None, &[("alpha", "ALPHA")]),
            file("b.txt", None, &[("beta", "BETA")]),
        ],
        &["alpha\n", "beta\n"],
    );
    assert_eq!(list[0].updated, "ALPHA\n");
    assert_eq!(list[1].updated, "BETA\n");
    assert_eq!(receipt(&list).files.len(), 2);
}

#[test]
fn patch_refuses_the_whole_call_when_any_file_is_stale() {
    let (class, content) = refused(
        vec![
            file("a.txt", None, &[("alpha", "ALPHA")]),
            file("b.txt", Some(content_digest("beta\n")), &[("beta", "BETA")]),
        ],
        &["alpha\n", "BETA by someone else\n"],
    );
    assert_eq!(class, ToolFailureClass::StaleRevision);
    assert!(content.contains("stale_revision") && content.contains("path=\"b.txt\""));
}

#[test]
fn lf_hunks_apply_in_order_to_crlf_without_mixing_line_endings() {
    let file = file(
        "windows.txt",
        None,
        &[("one\ntwo", "ONE\nTWO"), ("TWO\nthree", "two\nTHREE")],
    );
    let done = patched(file, "one\r\ntwo\r\nthree\r\n");
    assert_eq!(done.updated, "ONE\r\ntwo\r\nTHREE\r\n");
    assert_eq!(done.line_ending_before, LineEnding::CrLf);
    assert_eq!(done.line_ending_after, LineEnding::CrLf);
    assert!(done.line_endings_normalized);
}

#[test]
fn patch_lone_cr_cannot_split_uniform_crlf() {
    let (class, _) = refused(vec![file("w.txt", None, &[("\r", "X")])], &["a\r\nb\r\n"]);
    assert_eq!(class, ToolFailureClass::NoExactMatch);
}

#[test]
fn mixed_eol_hunks_chain_on_updated_logical_text() {
    let file = file(
        "mixed.txt",
        None,
        &[
            ("one\ntwo\nthree", "ONE\nTWO\nTHREE"),
            ("THREE\nfour", "three\nFOUR"),
        ],
    );
    let done = patched(file, "one\r\ntwo\nthree\r\nfour\n");
    assert_eq!(done.updated, "ONE\r\nTWO\nthree\r\nFOUR\n");
    assert_eq!(done.line_ending_after, LineEnding::Mixed);
    assert!(done.line_endings_normalized);
}

#[test]
fn later_hunk_uses_line_endings_introduced_by_earlier_hunk() {
    let file = file(
        "chain.txt",
        None,
        &[("seed", "one\nTWO"), ("one\r\nTWO", "done\r\nnext")],
    );
    let done = patched(file, "seed");
    assert_eq!(done.line_ending_before, LineEnding::NoBreaks);
    assert_eq!(done.line_ending_before.as_str(), "none");
    assert_eq!(done.line_ending_after, LineEnding::Lf);
    assert!(done.line_endings_normalized);
    assert_eq!(done.updated, "done\nnext");
}

#[test]
fn a_hunk_reports_whether_it_adapted_line_breaks() {
    let (text, adapted) = apply_hunk("a\nb", &hunk(HunkOp::Replace, "a", "x")).unwrap();
    assert_eq!((text.as_str(), adapted), ("x\nb", false));
    let (text, adapted) = apply_hunk("a\r\nb", &hunk(HunkOp::Replace, "a\nb", "x")).unwrap();
    assert_eq!((text.as_str(), adapted), ("x", true));
}

fn long_receipt() -> PatchReceipt {
    let long = |tag: &str| {
        (0..40)
            .map(|index| format!("{tag}-{index:02} padding padding padding\n"))
            .collect::<String>()
    };
    let (long_a, long_b) = (long("A"), long("B"));
    receipt(&planned(
        vec![
            file("a.txt", None, &[("a\n", long_a.as_str())]),
            file("b.txt", None, &[("b\n", long_b.as_str())]),
        ],
        &["a\n", "b\n"],
    ))
}

#[test]
fn multi_file_success_echo_has_one_global_cap() {
    let report = long_receipt();
    let mut sections = report.content.splitn(3, '\n');
    let _summary = sections.next().unwrap();
    let revisions = sections.next().unwrap();
    let echo = sections.next().unwrap();
    assert!(revisions.starts_with("revisions_in_files_order=0:"));
    assert!(revisions.contains(",1:"));
    assert!(echo.chars().count() <= EDIT_ECHO_MAX_CHARS);
    assert!(echo.contains("A-00"), "the first file head stays visible");
    assert!(echo.contains("B-39"), "the final file tail stays visible");
    assert!(echo.contains("middle edit echoes omitted"));
}

#[test]
fn sixteen_file_success_keeps_every_revision_outside_the_echo_cap() {
    let old: Vec<String> = (0..MAX_FILES).map(|i| format!("old-{i}\n")).collect();
    let new: Vec<String> = (0..MAX_FILES).map(|i| format!("new-{i}\n")).collect();
    let files = (0..MAX_FILES)
        .map(|i| file(&format!("{i:x}"), None, &[(old[i].as_str(), new[i].as_str())]))
        .collect();
    let contents: Vec<&str> = old.iter().map(String::as_str).collect();
    let report = receipt(&planned(files, &contents));
    let manifest = report.content.lines().nth(1).unwrap();
    for (index, text) in new.iter().enumerate() {
        assert!(manifest.contains(&format!("{index}:{}", content_digest(text))));
    }
    assert!(report.content.chars().count() <= 2 * EDIT_ECHO_MAX_CHARS);
}

#[test]
fn staging_prepares_in_order_and_undoes_in_reverse() {
    let list = planned(
        vec![
            file("a", None, &[("a", "b")]),
            file("same", None, &[("x", "x")]),
            file("c", None, &[("c", "d")]),
            file("e", None, &[("e", "f")]),
        ],
        &["a", "x", "c", "e"],
    );
    let report = receipt(&list);
    assert!(!report.files[1].changed);
    let mut staging = Staging::new(&report);
    for index in [0, 2, 3] {
        assert_eq!(staging.next(), StageStep::Prepare(index));
        staging.record(true);
    }
    assert_eq!(staging.next(), StageStep::Staged);

    let mut staging = Staging::new(&report);
    staging.record(true);
    staging.record(true);
    assert_eq!(staging.next(), StageStep::Prepare(3));
    staging.record(false);
    assert_eq!(staging.next(), StageStep::RollBack(2));
    staging.record(false);
    assert_eq!(staging.next(), StageStep::RollBack(0));
    staging.record(true);
    assert_eq!(staging.next(), StageStep::Aborted);
}

#[test]
fn staging_abort_attempts_every_sibling_and_propagates_cleanup_failure() {
    assert_eq!(rollback_report(&vec![], 100), None);
    let errors = vec!["simulated staged cleanup failure".to_string(), "two".to_string()];
    assert_eq!(
        rollback_report(&errors, 200).unwrap(),
        "2 staged edit rollback(s) could not be confirmed: simulated staged cleanup failure; two"
    );
    assert_eq!(rollback_report(&errors, 10).unwrap(), "2 staged e");
    let mut detail = "ab".to_string();
    append_bounded_rollback_detail(&mut detail, "éé", 7);
    assert_eq!(detail, "ab; é");
    append_bounded_rollback_detail(&mut detail, "more", 7);
    assert_eq!(detail, "ab; é", "one byte is left, and nothing fits it");
    assert_eq!(bound_diagnostic("aé", 2), "a");
}

#[test]
fn staging_abort_rolls_back_every_prepared_sibling() {
    let list = planned(
        vec![
            file("a", None, &[("a", "b")]),
            file("c", None, &[("c", "d")]),
            file("e", None, &[("e", "f")]),
            file("g", None, &[("g", "h")]),
        ],
        &["a", "c", "e", "g"],
    );
    let mut staging = Staging::new(&receipt(&list));
    for _ in 0..3 {
        staging.record(true);
    }
    staging.record(false);
    let mut rolled_back: usize = 0;
    while let StageStep::RollBack(_) = staging.next() {
        rolled_back += 1;
        staging.record(true);
    }
    assert_eq!(staging.next(), StageStep::Aborted);
    assert_eq!(rolled_back, 3);
    assert_eq!(rollback_report(&vec![], 100), None);
}

#[test]
fn a_patch_chains_on_the_revision_of_the_one_before() {
    let list = planned(vec![file("f.txt", None, &[("one", "two")])], &["one\n"]);
    let revision = receipt(&list).files[0].revision.clone();
    let next = file("f.txt", Some(revision), &[("two", "three")]);
    assert_eq!(patched(next, &list[0].updated).updated, "three\n");
}
