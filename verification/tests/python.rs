use tool_runtime::python::{
    poll_step, probe_args, probe_script, read_probe, BoundedCapture, BoundedCommandError, ChildPoll, Configured,
    PollStep, ProbeOutput, PythonCandidate, PythonInterpreter, PythonInterpreterError, PythonSearch,
    PROBE_CAPTURE_BYTES, PYTHON_EXECUTABLE_ENV,
};

const PROGRAM: &str = "/opt/venv/bin/python";

fn resolve_with(
    explicit: Option<(&str, &str)>,
    mut probe: impl FnMut(&PythonCandidate) -> Result<String, String>,
) -> Result<PythonInterpreter, PythonInterpreterError> {
    let explicit = explicit.map(|(variable, value)| Configured {
        variable: variable.to_string(),
        value: value.to_string(),
    });
    let mut search = PythonSearch::start(explicit)?;
    loop {
        let outcome = probe(&search.candidate())
            .and_then(|path| PythonInterpreter::from_probed_executable(path, true, true));
        match search.settle(outcome) {
            Ok(next) => search = next,
            Err(end) => return end,
        }
    }
}

#[test]
fn fallback_order_probes_launcher_then_named_interpreters() {
    let mut seen = Vec::new();
    let interpreter = resolve_with(None, |candidate| {
        seen.push(candidate.label.clone());
        if candidate.label == "python3" {
            Ok(PROGRAM.to_string())
        } else {
            Err("not usable".to_string())
        }
    })
    .unwrap();
    assert_eq!(seen, ["py -3", "python3"]);
    assert_eq!(interpreter.executable(), PROGRAM);
}

#[test]
fn invalid_explicit_configuration_never_falls_back() {
    let mut seen = Vec::new();
    let error = resolve_with(Some(("TEST_PYTHON", "missing")), |candidate| {
        seen.push(candidate.label.clone());
        Err("probe failed".to_string())
    })
    .unwrap_err();
    assert_eq!(seen.len(), 1);
    assert_eq!(seen[0], "TEST_PYTHON=\"missing\"");
    assert_eq!(
        error.message(),
        "python_interpreter_invalid: TEST_PYTHON=\"missing\" did not identify a working Python 3 interpreter (probe failed)"
    );
    assert!(matches!(
        error,
        PythonInterpreterError::ExplicitInvalid { variable, .. } if variable == "TEST_PYTHON"
    ));
}

#[test]
fn an_empty_configuration_is_refused_without_a_probe() {
    let error = resolve_with(Some((PYTHON_EXECUTABLE_ENV, "")), |_| {
        panic!("nothing to probe")
    })
    .unwrap_err();
    assert_eq!(
        error.message(),
        "python_interpreter_invalid: AGENT_PYTHON=\"\" did not identify a working Python 3 interpreter (configured value is empty)"
    );
}

#[test]
fn unavailable_is_typed_and_never_returns_a_placeholder() {
    let error = resolve_with(None, |candidate| {
        Err(format!("{} unavailable", candidate.label))
    })
    .unwrap_err();
    assert_eq!(
        error.message(),
        "python_interpreter_unavailable: no working Python 3 interpreter found (py -3: py -3 unavailable; python3: python3 unavailable; python: python unavailable)"
    );
    match error {
        PythonInterpreterError::Unavailable { attempts } => {
            assert_eq!(attempts.len(), 3);
            assert!(attempts[0].starts_with("py -3:"));
            assert!(attempts[1].starts_with("python3:"));
            assert!(attempts[2].starts_with("python:"));
        }
        other => panic!("unexpected error: {other:?}"),
    }
}

#[test]
fn the_launcher_has_its_argument_and_a_configured_program_none() {
    let search = PythonSearch::start(None).unwrap();
    let first = search.candidate();
    assert_eq!(first.program, "py");
    assert_eq!(first.launcher_args, vec!["-3"]);
    let search = PythonSearch::start(Some(Configured {
        variable: "V".to_string(),
        value: "a \"b\"".to_string(),
    }))
    .unwrap();
    let only = search.candidate();
    assert_eq!(only.label, "V=\"a \\\"b\\\"\"");
    assert_eq!(only.program, "a \"b\"");
    assert!(only.launcher_args.is_empty());
}

#[test]
fn command_argv_uses_the_absolute_interpreter_without_launcher_args() {
    let interpreter =
        PythonInterpreter::from_probed_executable(PROGRAM.to_string(), true, true).unwrap();
    assert_eq!(
        interpreter.command_argv(&vec!["-m".to_string(), "pytest".to_string()]),
        [PROGRAM, "-m", "pytest"]
    );
    assert_eq!(interpreter.command_argv(&vec![]), [PROGRAM]);
}

#[test]
fn a_reported_path_has_to_be_an_absolute_file() {
    let relative = PythonInterpreter::from_probed_executable("python".to_string(), false, true);
    assert_eq!(
        relative.unwrap_err(),
        "probe returned a non-absolute executable identity"
    );
    let missing = PythonInterpreter::from_probed_executable(PROGRAM.to_string(), true, false);
    assert_eq!(
        missing.unwrap_err(),
        "reported executable identity is not a file"
    );
}

fn probe(success: bool, stdout: &[u8]) -> Result<String, String> {
    let mut capture = BoundedCapture::new();
    for chunk in stdout.chunks(1024) {
        capture.feed(chunk, PROBE_CAPTURE_BYTES);
    }
    read_probe(&ProbeOutput {
        success,
        status: "exit status: 3".to_string(),
        stdout: capture,
    })
}

#[test]
fn a_probe_reports_one_tagged_path() {
    assert_eq!(
        probe(true, b"warning\r\n  agent-python-v1:/usr/bin/python3  \r\n").unwrap(),
        "/usr/bin/python3"
    );
    assert_eq!(
        probe(true, b"agent-python-v1: /a\nagent-python-v1:/b\n").unwrap(),
        " /a"
    );
    assert_eq!(
        probe(false, b"").unwrap_err(),
        "probe exited exit status: 3"
    );
    for silent in [&b""[..], b"hello\n", b"agent-python-v1:\nagent-python-v1:/b\n"] {
        assert_eq!(
            probe(true, silent).unwrap_err(),
            "probe did not report its executable identity"
        );
    }
    assert_eq!(
        probe(true, b"agent-python-v1:/\xff\n").unwrap_err(),
        "probe output was not UTF-8"
    );
    assert_eq!(
        probe(true, &vec![b'x'; 4_097]).unwrap_err(),
        "probe output exceeded 4096 bytes"
    );
    assert!(probe_script().contains("print(\"agent-python-v1:\" + os.path.abspath"));
}

#[test]
fn bounded_runner_caps_resident_stdout_while_draining_the_child() {
    let mut capture = BoundedCapture::new();
    let output = vec![b'x'; PROBE_CAPTURE_BYTES + 1024];
    for chunk in output.chunks(1000) {
        capture.feed(chunk, PROBE_CAPTURE_BYTES);
    }
    assert_eq!(capture.bytes.len(), PROBE_CAPTURE_BYTES);
    assert!(capture.overflowed);

    let mut exact = BoundedCapture::new();
    exact.feed(b"abc", 3);
    exact.feed(b"", 3);
    assert_eq!(exact.bytes, b"abc");
    assert!(!exact.overflowed);
    exact.feed(b"d", 3);
    assert_eq!(exact.bytes, b"abc");
    assert!(exact.overflowed);
}

#[test]
fn a_process_is_waited_for_until_its_time_is_up() {
    assert!(matches!(
        poll_step(ChildPoll::Exited, 9_999, 5_000),
        PollStep::Finished
    ));
    assert!(matches!(
        poll_step(ChildPoll::Running, 4_999, 5_000),
        PollStep::Wait(10)
    ));
    assert!(matches!(
        poll_step(ChildPoll::Running, 0, 4),
        PollStep::Wait(4)
    ));
    assert!(matches!(
        poll_step(ChildPoll::Running, 5_000, 5_000),
        PollStep::Stop(BoundedCommandError::TimedOut)
    ));
    match poll_step(ChildPoll::Failed("gone".to_string()), 0, 5_000) {
        PollStep::Stop(error) => assert_eq!(error.message(), "wait failed: gone"),
        other => panic!("{other:?}"),
    }
    let text = |error: BoundedCommandError| error.message();
    assert_eq!(
        text(BoundedCommandError::Spawn("no".to_string())),
        "could not start: no"
    );
    assert_eq!(text(BoundedCommandError::MissingStdout), "did not expose stdout");
    assert_eq!(text(BoundedCommandError::ReaderPanicked), "stdout reader panicked");
    assert_eq!(text(BoundedCommandError::TimedOut), "timed out");
}

#[test]
fn a_probe_runs_isolated_behind_the_launchers_arguments() {
    let search = PythonSearch::start(None).unwrap();
    let first = search.candidate();
    let args = probe_args(&first);
    let own = first.launcher_args.len();
    assert_eq!(args[..own], first.launcher_args[..]);
    assert_eq!(args[own..own + 2], ["-I", "-c"]);
    assert_eq!(args[own + 2], probe_script());
    assert_eq!(args.len(), own + 3);
}
