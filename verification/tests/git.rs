use tool_runtime::git::{
    assemble, base_args, check_head, diff_args, discovery_text, git_output, head_file, head_query, is_git_variable, is_shared_index,
    layout_paths, layout_query, parse_layout, settings_query, status_args, strip_runtime_paths, tail_chars, view_config, view_environment,
    CapturedPipe, GitError, ObjectFormat,
};

fn captured(chunks: &[&[u8]], cap: usize) -> CapturedPipe {
    let mut pipe = CapturedPipe::new();
    for chunk in chunks {
        pipe.feed(chunk, cap);
    }
    pipe
}

fn whole(bytes: &[u8]) -> CapturedPipe {
    captured(&[bytes], 1_000_000)
}

#[test]
fn capture_limit_still_drains_every_byte() {
    let mut pipe = CapturedPipe::new();
    for _ in 0..625 {
        pipe.feed(&[b'x'; 32], 100);
    }
    assert_eq!(pipe.bytes.len(), 100);
    assert_eq!(pipe.total, 20_000);
}

#[test]
fn diff_treats_option_looking_path_as_a_path_without_side_effects() {
    let args = diff_args(false, Some("--output=leak.patch"));
    let end_of_options = args.iter().position(|arg| arg == "--").unwrap();
    let at = args.iter().position(|arg| arg == "--output=leak.patch").unwrap();
    assert!(
        end_of_options < at,
        "an option-looking path must not activate git's --output option"
    );
    assert_eq!(
        args[..end_of_options],
        ["diff", "--no-ext-diff", "--no-textconv", "--ignore-submodules=all"]
    );
    let staged = diff_args(true, None);
    assert!(staged.contains(&"--staged".to_string()));
}

#[test]
fn status_hides_focus_agent_runtime_state() {
    let args = status_args();
    assert_eq!(args[0], "status");
    assert!(args.contains(&":(exclude).focus-agent".to_string()));
    let answer = assemble(&whole(b"?? readme.txt\n?? .focus-agent/secret.jsonl\n"), &whole(b""));
    assert!(
        !answer.text.contains(".focus-agent"),
        "git.status leaked runtime state: {}",
        answer.text
    );
    assert!(answer.text.contains("readme.txt"));
    assert_eq!(
        strip_runtime_paths("a\nx .focus-agent y\nb"),
        "a\nb"
    );
}

#[test]
fn an_answer_joins_both_streams() {
    let answer = assemble(&whole(b"out \xff"), &whole(b"  \n"));
    assert_eq!(answer.text, "out \u{fffd}");
    assert!(!answer.capture_truncated);
    let answer = assemble(&whole(b"out"), &whole(b"warning"));
    assert_eq!(answer.text, "out\n[stderr]\nwarning");
    assert_eq!(answer.total_bytes, 10);
    let cut = assemble(&captured(&[b"abcdef"], 4), &whole(b""));
    assert_eq!(cut.text, "abcd");
    assert!(cut.capture_truncated);
    assert_eq!(cut.total_bytes, 6);
}

#[test]
fn diff_drains_output_larger_than_a_pipe_without_waiting_for_timeout() {
    let line = "+after xxxxxxxxxxxxxxxxxxxxxxxxxxxxxxxxxxxxxx\n".repeat(16_000);
    let answer = assemble(&whole(line.as_bytes()), &whole(b""));
    assert!(answer.total_bytes > 500_000);
    assert!(!answer.capture_truncated);
    let shown = tail_chars(&answer.text, 12_000);
    assert!(shown.chars().count() < 12_000 + 500);
    assert!(shown.starts_with("...["));
    assert_eq!(tail_chars("short", 5), "short");
    assert_eq!(
        tail_chars("shorter", 3),
        "...[4 chars omitted; showing tail]\nter"
    );
}

#[test]
fn discovery_is_bounded_and_typed() {
    let read = |out: &CapturedPipe, err: &CapturedPipe, ok, code, missing| {
        discovery_text(out, err, ok, code, missing).map_err(|e| e.message())
    };
    assert_eq!(
        read(&whole(b"/x/.git\n"), &whole(b""), true, Some(0), false),
        Ok("/x/.git\n".to_string())
    );
    assert_eq!(
        read(&whole(b""), &whole(b"fatal: no\n.focus-agent\n"), false, Some(128), true),
        Err("git repository discovery failed: fatal: no".to_string())
    );
    assert_eq!(read(&whole(b""), &whole(b""), false, Some(1), true), Ok(String::new()));
    assert!(read(&whole(b""), &whole(b""), false, Some(1), false).is_err());
    assert_eq!(
        read(&whole(b"\xff"), &whole(b""), true, Some(0), false),
        Err("git repository metadata is not UTF-8".to_string())
    );
    let big = vec![b'x'; 200_000];
    assert_eq!(
        read(&whole(&big), &whole(b""), true, Some(0), false),
        Err("git repository metadata exceeds the discovery limit".to_string())
    );
}

#[test]
fn a_layout_has_absolute_paths_and_a_known_format() {
    let answer = "/r/.git/objects\n/r/.git/index\nsha1\n";
    let (objects, index) = layout_paths(answer);
    assert_eq!((objects.as_str(), index.as_str()), ("/r/.git/objects", "/r/.git/index"));
    let layout = parse_layout(answer, true, true).unwrap();
    assert_eq!(layout.format, ObjectFormat::Sha1);
    assert!(layout.shared_index.is_none());
    let split = parse_layout("/o\n/i\nsha256\n/s/sharedindex.1\n", true, true).unwrap();
    assert_eq!(split.shared_index.unwrap(), "/s/sharedindex.1");
    assert!(matches!(parse_layout(answer, false, true), Err(GitError::UnsupportedLayout)));
    assert!(matches!(
        parse_layout("/o\n/i\nmd5\n", true, true),
        Err(GitError::UnsupportedLayout)
    ));
    assert!(matches!(
        parse_layout("/o\n/i\nsha1\na\nb\n", true, true),
        Err(GitError::AmbiguousPaths)
    ));
    assert!(is_shared_index("sharedindex.abc") && !is_shared_index("index"));
}

#[test]
fn a_head_is_empty_or_one_hash_of_the_format() {
    assert_eq!(check_head("\n", ObjectFormat::Sha1).unwrap(), "");
    let sha1 = "a".repeat(40);
    assert_eq!(check_head(&format!("{sha1}\n"), ObjectFormat::Sha1).unwrap(), sha1);
    assert!(check_head(&sha1, ObjectFormat::Sha256).is_err());
    let error = check_head(&"g".repeat(40), ObjectFormat::Sha1).unwrap_err();
    assert_eq!(error.message(), "invalid git HEAD identity");
    assert_eq!(head_file(""), "ref: refs/heads/read-only\n");
    assert_eq!(head_file("ab"), "ab\n");
}

#[test]
fn a_view_takes_over_known_settings_only() {
    let config = view_config("core.filemode\nTRUE\0core.autocrlf\ninput\0core.symlinks\0", ObjectFormat::Sha256)
        .unwrap();
    assert_eq!(
        config,
        "[core]\nrepositoryformatversion = 1\nbare = false\nfsmonitor = false\nfilemode = true\nautocrlf = input\nsymlinks = true\n[extensions]\nobjectFormat = sha256\n"
    );
    let error = view_config("core.fsmonitor\nhook\0", ObjectFormat::Sha1).unwrap_err();
    assert_eq!(error.message(), "unsupported git worktree setting");
    assert!(view_config("core.eol\n!rm\0", ObjectFormat::Sha1).is_err());
}

#[test]
fn variables_of_git_are_known_in_any_case() {
    assert!(is_git_variable("git_dir") && is_git_variable("GIT_INDEX_FILE"));
    assert!(!is_git_variable("PATH"));
}

#[test]
fn a_report_names_the_call_and_its_end() {
    let args = vec!["diff".to_string(), "a \"b\"".to_string()];
    let answer = assemble(&whole(b"+x\n"), &whole(b""));
    let report = git_output(&args, true, Some(0), &answer, "");
    assert_eq!(report.summary, "git [\"diff\", \"a \\\"b\\\"\"] (exit=0, 2 bytes)");
    assert_eq!(report.content, "+x");
    let nothing = assemble(&whole(b""), &whole(b" "));
    let failed = git_output(&args[..1].to_vec(), false, Some(-1), &nothing, "");
    assert_eq!(failed.summary, "git [\"diff\"] failed (exit=Some(-1))");
    assert_eq!(failed.content, "(empty output; is this a git repository?)");
    let cut = assemble(&captured(&[b"abcdef"], 4), &whole(b""));
    let spilled = git_output(&args[..1].to_vec(), true, None, &cut, "artifact://x");
    assert_eq!(spilled.summary, "git [\"diff\"] (exit=signal, 4 bytes)");
    assert_eq!(
        spilled.content,
        "abcd\n\nCaptured output (prefix truncated at byte limit): artifact://x"
    );
}

#[test]
fn a_call_in_the_view_sees_no_settings_outside_it() {
    assert_eq!(
        base_args(),
        vec!["--no-pager", "--no-optional-locks", "-c", "core.fsmonitor=false"]
    );
    assert_eq!(layout_query()[1..3], ["--path-format=absolute", "--git-path"]);
    assert_eq!(layout_query().len(), 8);
    assert_eq!(head_query(), vec!["rev-parse", "--verify", "--quiet", "HEAD"]);
    assert_eq!(
        settings_query()[3],
        r"^core\.(filemode|symlinks|ignorecase|autocrlf|eol)$"
    );
    let variables = view_environment("/r/objects", "/r/index", "/dev/null");
    let of = |name: &str| {
        variables
            .iter()
            .find(|(key, _)| key == name)
            .map(|(_, value)| value.as_str())
    };
    assert_eq!(variables.len(), 5);
    assert_eq!(of("GIT_OBJECT_DIRECTORY"), Some("/r/objects"));
    assert_eq!(of("GIT_INDEX_FILE"), Some("/r/index"));
    assert_eq!(of("GIT_CONFIG_NOSYSTEM"), Some("1"));
    assert_eq!(of("GIT_CONFIG_GLOBAL"), Some("/dev/null"));
    assert_eq!(of("GIT_ATTR_NOSYSTEM"), Some("1"));
    assert!(variables.iter().all(|(key, _)| is_git_variable(key)));
}
