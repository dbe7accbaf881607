//! Finding a Python interpreter.
//!
//! That a command of the right name exists is not enough: every candidate has
//! to run a probe that reports its own executable. An interpreter that was
//! configured is the only candidate, and it is never replaced by another.
use crate::git;
use crate::outside;
use crate::text;
use vstd::prelude::*;

verus! {

/// The variable that names the interpreter.
pub const PYTHON_EXECUTABLE_ENV: &'static str = "AGENT_PYTHON";

/// What stands before the path that the probe reports.
pub const PROBE_MARKER: &'static str = "agent-python-v1:";

/// The longest output of a probe that is accepted, in bytes.
pub const MAX_PROBE_OUTPUT_BYTES: usize = 4_096;

/// How much of a probe's output is kept, in bytes.
pub const PROBE_CAPTURE_BYTES: usize = 4_097;

/// How long a probe may take, in milliseconds.
pub const PROBE_TIMEOUT_MS: u64 = 5_000;

/// How long to wait before looking at the probe again, in milliseconds.
pub const PROBE_POLL_INTERVAL_MS: u64 = 10;

/// How long the reader of a probe's output may take after the probe was
/// ended, in milliseconds.
pub const PROBE_READER_REAP_GRACE_MS: u64 = 1_000;

// ---------------------------------------------------------------------
// Interpreters
// ---------------------------------------------------------------------

/// A Python 3 interpreter that passed the probe.
#[derive(Debug, Clone, PartialEq, Eq)]
pub struct PythonInterpreter {
    executable: String,
}

impl View for PythonInterpreter {
    type V = Seq<char>;

    closed spec fn view(&self) -> Seq<char> {
        self.executable@
    }
}

/// What is wrong with the path that a probe reported.
pub open spec fn path_fault(absolute: bool, is_file: bool) -> Option<Seq<char>> {
    if !absolute {
        Some("probe returned a non-absolute executable identity"@)
    } else if !is_file {
        Some("reported executable identity is not a file"@)
    } else {
        None
    }
}

impl PythonInterpreter {
    /// The interpreter that a probe reported, which has to be the absolute
    /// path of a file. The path is kept as it was reported.
    pub fn from_probed_executable(executable: String, absolute: bool, is_file: bool) -> (r: Result<
        PythonInterpreter,
        String,
    >)
        ensures
            match r {
                Ok(interpreter) => path_fault(absolute, is_file) is None && interpreter@
                    == executable@,
                Err(reason) => path_fault(absolute, is_file) == Some(reason@),
            },
    {
        if !absolute {
            return Err("probe returned a non-absolute executable identity".to_owned());
        }
        if !is_file {
            return Err("reported executable identity is not a file".to_owned());
        }
        Ok(PythonInterpreter { executable })
    }

    /// The interpreter's path.
    pub fn executable(&self) -> (s: &str)
        ensures
            s@ == self@,
    {
        self.executable.as_str()
    }

    /// The command that runs the interpreter with these arguments.
    pub fn command_argv(&self, args: &Vec<String>) -> (argv: Vec<String>)
        ensures
            text::views(argv@) == seq![self@] + text::views(args@),
    {
        let mut argv: Vec<String> = Vec::new();
        argv.push(self.executable.as_str().to_owned());
        let mut i: usize = 0;
        assert(text::views(argv@) =~= seq![self@] + text::views(args@).take(0));
        while i < args.len()
            invariant
                i <= args@.len(),
                text::views(argv@) == seq![self@] + text::views(args@).take(i as int),
            decreases args@.len() - i,
        {
            let arg = args[i].as_str().to_owned();
            proof {
                text::lemma_views_push(argv@, arg);
                assert(text::views(args@).take(i + 1) =~= text::views(args@).take(i as int).push(
                    arg@,
                ));
                assert(seq![self@] + text::views(args@).take(i + 1) =~= (seq![self@] + text::views(
                    args@,
                ).take(i as int)).push(arg@));
            }
            argv.push(arg);
            i += 1;
        }
        assert(text::views(args@).take(i as int) =~= text::views(args@));
        argv
    }
}

/// Why there is no interpreter.
#[derive(Debug, Clone, PartialEq, Eq)]
pub enum PythonInterpreterError {
    /// The configured interpreter does not work.
    ExplicitInvalid { variable: String, configured: String, reason: String },
    /// No candidate works.
    Unavailable { attempts: Vec<String> },
}

/// Why there is no interpreter, as a value.
pub enum Missing {
    ExplicitInvalid { variable: Seq<char>, configured: Seq<char>, reason: Seq<char> },
    Unavailable { attempts: Seq<Seq<char>> },
}

impl View for PythonInterpreterError {
    type V = Missing;

    open spec fn view(&self) -> Missing {
        match self {
            PythonInterpreterError::ExplicitInvalid { variable, configured, reason } =>
                Missing::ExplicitInvalid {
                variable: variable@,
                configured: configured@,
                reason: reason@,
            },
            PythonInterpreterError::Unavailable { attempts } => Missing::Unavailable {
                attempts: text::views(attempts@),
            },
        }
    }
}

/// The text of a failure.
pub open spec fn interpreter_error_text(e: PythonInterpreterError) -> Seq<char> {
    match e {
        PythonInterpreterError::ExplicitInvalid { variable, configured, reason } =>
            "python_interpreter_invalid: "@ + variable@ + "="@ + outside::str_debug(configured@)
            + " did not identify a working Python 3 interpreter ("@ + reason@ + ")"@,
        PythonInterpreterError::Unavailable { attempts } =>
            "python_interpreter_unavailable: no working Python 3 interpreter found ("@ + text::join(
            text::views(attempts@),
            "; "@,
        ) + ")"@,
    }
}

impl PythonInterpreterError {
    /// The failure in words.
    pub fn message(&self) -> (out: String)
        ensures
            out@ == interpreter_error_text(*self),
    {
        let mut out = String::new();
        match self {
            PythonInterpreterError::ExplicitInvalid { variable, configured, reason } => {
                out.append("python_interpreter_invalid: ");
                out.append(variable.as_str());
                out.append("=");
                out.append(outside::debug_quoted(configured.as_str()).as_str());
                out.append(" did not identify a working Python 3 interpreter (");
                out.append(reason.as_str());
                out.append(")");
            },
            PythonInterpreterError::Unavailable { attempts } => {
                out.append("python_interpreter_unavailable: no working Python 3 interpreter found (");
                out.append(text::join_strings(attempts, "; ").as_str());
                out.append(")");
            },
        }
        assert(out@ =~= interpreter_error_text(*self));
        out
    }
}

// ---------------------------------------------------------------------
// Candidates
// ---------------------------------------------------------------------

/// A command that may be a Python interpreter.
#[derive(Debug)]
pub struct PythonCandidate {
    pub label: String,
    pub program: String,
    pub launcher_args: Vec<String>,
}

/// A candidate as a value.
pub struct Candidate {
    pub label: Seq<char>,
    pub program: Seq<char>,
    pub launcher_args: Seq<Seq<char>>,
}

impl View for PythonCandidate {
    type V = Candidate;

    open spec fn view(&self) -> Candidate {
        Candidate {
            label: self.label@,
            program: self.program@,
            launcher_args: text::views(self.launcher_args@),
        }
    }
}

/// The candidates where nothing is configured, in the order in which they are
/// tried.
pub open spec fn named_candidates() -> Seq<Candidate> {
    seq![
        Candidate { label: "py -3"@, program: "py"@, launcher_args: seq!["-3"@] },
        Candidate { label: "python3"@, program: "python3"@, launcher_args: Seq::empty() },
        Candidate { label: "python"@, program: "python"@, launcher_args: Seq::empty() },
    ]
}

/// The candidate that was configured.
pub open spec fn explicit_candidate(variable: Seq<char>, configured: Seq<char>) -> Candidate {
    Candidate {
        label: variable + "="@ + outside::str_debug(configured),
        program: configured,
        launcher_args: Seq::empty(),
    }
}

/// A variable and what it configures.
#[derive(Debug)]
pub struct Configured {
    pub variable: String,
    pub value: String,
}

/// A search for an interpreter.
#[derive(Debug)]
pub struct PythonSearch {
    pub explicit: Option<Configured>,
    /// What failed so far.
    pub attempts: Vec<String>,
}

/// What a candidate that failed is reported as.
pub open spec fn attempt_text(label: Seq<char>, reason: Seq<char>) -> Seq<char> {
    label + ": "@ + reason
}

/// A variable and what it configures, as values.
pub open spec fn configured_view(explicit: Option<Configured>) -> Option<(Seq<char>, Seq<char>)> {
    match explicit {
        Some(c) => Some((c.variable@, c.value@)),
        None => None,
    }
}

/// The candidates of a search. What is configured is the only candidate.
pub open spec fn candidates(explicit: Option<(Seq<char>, Seq<char>)>) -> Seq<Candidate> {
    match explicit {
        Some((variable, value)) => seq![explicit_candidate(variable, value)],
        None => named_candidates(),
    }
}

/// How a search stands.
pub enum Progress {
    /// So many attempts failed, and another candidate is left.
    Going(Seq<Seq<char>>),
    /// The search has ended.
    Over(Result<Seq<char>, Missing>),
}

/// How a search stands after its next candidate: an interpreter ends it. A
/// configured candidate that fails ends it too; otherwise the next one
/// follows, until none is left.
pub open spec fn progress(
    explicit: Option<(Seq<char>, Seq<char>)>,
    attempts: Seq<Seq<char>>,
    outcome: Result<Seq<char>, Seq<char>>,
) -> Progress {
    match outcome {
        Ok(executable) => Progress::Over(Ok(executable)),
        Err(reason) => match explicit {
            Some((variable, configured)) => Progress::Over(
                Err(Missing::ExplicitInvalid { variable, configured, reason }),
            ),
            None => {
                let tried = attempts.push(
                    attempt_text(named_candidates()[attempts.len() as int].label, reason),
                );
                if tried.len() < named_candidates().len() {
                    Progress::Going(tried)
                } else {
                    Progress::Over(Err(Missing::Unavailable { attempts: tried }))
                }
            },
        },
    }
}

/// The result of a search whose candidates turn out like this; none as long
/// as another candidate has to be probed.
pub open spec fn search_result(
    explicit: Option<(Seq<char>, Seq<char>)>,
    attempts: Seq<Seq<char>>,
    outcomes: Seq<Result<Seq<char>, Seq<char>>>,
) -> Option<Result<Seq<char>, Missing>>
    decreases outcomes.len(),
{
    if outcomes.len() == 0 {
        None
    } else {
        match progress(explicit, attempts, outcomes[0]) {
            Progress::Over(result) => Some(result),
            Progress::Going(tried) => search_result(explicit, tried, outcomes.drop_first()),
        }
    }
}

fn named(index: usize) -> (c: PythonCandidate)
    requires
        index < 3,
    ensures
        c@ == named_candidates()[index as int],
{
    let mut launcher_args: Vec<String> = Vec::new();
    if index == 0 {
        launcher_args.push("-3".to_owned());
        assert(text::views(launcher_args@) =~= seq!["-3"@]);
        PythonCandidate { label: "py -3".to_owned(), program: "py".to_owned(), launcher_args }
    } else if index == 1 {
        assert(text::views(launcher_args@) =~= Seq::empty());
        PythonCandidate { label: "python3".to_owned(), program: "python3".to_owned(), launcher_args }
    } else {
        assert(text::views(launcher_args@) =~= Seq::empty());
        PythonCandidate { label: "python".to_owned(), program: "python".to_owned(), launcher_args }
    }
}

impl PythonSearch {
    /// Every attempt so far failed, and there is a candidate left.
    pub open spec fn wf(&self) -> bool {
        self.attempts@.len() < candidates(configured_view(self.explicit)).len()
    }

    /// The candidate whose turn it is.
    pub open spec fn turn(&self) -> Candidate {
        candidates(configured_view(self.explicit))[self.attempts@.len() as int]
    }

    /// Starts a search. An empty configured value fails at once.
    pub fn start(explicit: Option<Configured>) -> (r: Result<PythonSearch, PythonInterpreterError>)
        ensures
            match configured_view(explicit) {
                Some((variable, value)) if value.len() == 0 => r matches Err(e) && e@
                    == (Missing::ExplicitInvalid {
                    variable,
                    configured: Seq::empty(),
                    reason: "configured value is empty"@,
                }),
                _ => r matches Ok(s) && s.wf() && s.explicit == explicit && s.attempts@.len() == 0,
            },
    {
        match explicit {
            Some(c) => {
                proof {
                    text::lemma_byte_len_at_least_len(c.value@);
                    if c.value@.len() == 0 {
                        assert(c.value@ =~= Seq::empty());
                    }
                }
                if text::bytes_in(c.value.as_str()) == 0 {
                    let configured = String::new();
                    assert(configured@ =~= Seq::empty());
                    return Err(
                        PythonInterpreterError::ExplicitInvalid {
                            variable: c.variable,
                            configured,
                            reason: "configured value is empty".to_owned(),
                        },
                    );
                }
                Ok(PythonSearch { explicit: Some(c), attempts: Vec::new() })
            },
            None => Ok(PythonSearch { explicit: None, attempts: Vec::new() }),
        }
    }

    /// The candidate to probe next.
    pub fn candidate(&self) -> (c: PythonCandidate)
        requires
            self.wf(),
        ensures
            c@ == self.turn(),
    {
        match &self.explicit {
            Some(c) => {
                let mut label = c.variable.as_str().to_owned();
                label.append("=");
                label.append(outside::debug_quoted(c.value.as_str()).as_str());
                let launcher_args: Vec<String> = Vec::new();
                assert(text::views(launcher_args@) =~= Seq::empty());
                PythonCandidate { label, program: c.value.as_str().to_owned(), launcher_args }
            },
            None => named(self.attempts.len()),
        }
    }

    /// Takes what became of the candidate: the search goes on, or it ends.
    pub fn settle(self, outcome: Result<PythonInterpreter, String>) -> (r: Result<
        PythonSearch,
        Result<PythonInterpreter, PythonInterpreterError>,
    >)
        requires
            self.wf(),
        ensures
            ({
                let next = progress(
                    configured_view(self.explicit),
                    text::views(self.attempts@),
                    match outcome {
                        Ok(interpreter) => Ok(interpreter@),
                        Err(reason) => Err(reason@),
                    },
                );
                match r {
                    Ok(search) => {
                        &&& next == Progress::Going(text::views(search.attempts@))
                        &&& search.explicit == self.explicit
                        &&& search.wf()
                    },
                    Err(Ok(interpreter)) => next == Progress::Over(Ok(interpreter@)),
                    Err(Err(e)) => next == Progress::Over(Err(e@)),
                }
            }),
    {
        let why = match outcome {
            Ok(interpreter) => {
                return Err(Ok(interpreter));
            },
            Err(why) => why,
        };
        match self.explicit {
            Some(c) => Err(
                Err(
                    PythonInterpreterError::ExplicitInvalid {
                        variable: c.variable,
                        configured: c.value,
                        reason: why,
                    },
                ),
            ),
            None => {
                let mut attempts = self.attempts;
                let mut line = named(attempts.len()).label;
                line.append(": ");
                line.append(why.as_str());
                proof {
                    text::lemma_views_push(attempts@, line);
                }
                attempts.push(line);
                if attempts.len() < 3 {
                    Ok(PythonSearch { explicit: None, attempts })
                } else {
                    Err(Err(PythonInterpreterError::Unavailable { attempts }))
                }
            },
        }
    }
}

/// What is configured decides alone: its interpreter is the result, or its
/// failure is. Without it the result is the first interpreter that one of the
/// named candidates gives, and where none does, every failure is reported in
/// the order in which they were tried.
pub proof fn law_a_configured_interpreter_has_no_fallback(
    explicit: Option<(Seq<char>, Seq<char>)>,
    outcomes: Seq<Result<Seq<char>, Seq<char>>>,
)
    requires
        outcomes.len() >= candidates(explicit).len(),
    ensures
        explicit matches Some((variable, configured)) ==> search_result(
            explicit,
            Seq::empty(),
            outcomes,
        ) == Some(
            match outcomes[0] {
                Ok(executable) => Ok::<Seq<char>, Missing>(executable),
                Err(reason) => Err(Missing::ExplicitInvalid { variable, configured, reason }),
            },
        ),
        explicit is None ==> forall|k: int|
            #![trigger outcomes[k]]
            0 <= k < named_candidates().len() && outcomes[k] is Ok && (forall|j: int|
                0 <= j < k ==> (#[trigger] outcomes[j]) is Err) ==> search_result(
                explicit,
                Seq::empty(),
                outcomes,
            ) == Some(Ok::<Seq<char>, Missing>(outcomes[k]->Ok_0)),
        explicit is None && (forall|j: int|
            0 <= j < named_candidates().len() ==> (#[trigger] outcomes[j]) is Err)
            ==> search_result(explicit, Seq::empty(), outcomes) == Some(
            Err::<Seq<char>, Missing>(
                Missing::Unavailable {
                    attempts: Seq::new(
                        named_candidates().len(),
                        |j: int| attempt_text(named_candidates()[j].label, outcomes[j]->Err_0),
                    ),
                },
            ),
        ),
{
    reveal_with_fuel(search_result, 4);
    if explicit is None {
        let rest = outcomes.drop_first();
        assert(rest[0] == outcomes[1] && rest.drop_first()[0] == outcomes[2]);
        if outcomes[0] is Err && outcomes[1] is Err && outcomes[2] is Err {
            let tried = Seq::<Seq<char>>::empty().push(
                attempt_text(named_candidates()[0].label, outcomes[0]->Err_0),
            ).push(attempt_text(named_candidates()[1].label, outcomes[1]->Err_0)).push(
                attempt_text(named_candidates()[2].label, outcomes[2]->Err_0),
            );
            assert(search_result(explicit, Seq::empty(), outcomes) == Some(
                Err::<Seq<char>, Missing>(Missing::Unavailable { attempts: tried }),
            ));
            assert(tried =~= Seq::new(
                named_candidates().len(),
                |j: int| attempt_text(named_candidates()[j].label, outcomes[j]->Err_0),
            ));
        }
    }
}

// ---------------------------------------------------------------------
// The probe
// ---------------------------------------------------------------------

/// The program that a candidate has to run.
pub fn probe_script() -> (s: String)
    ensures
        s@
            == "import os,sys; sys.exit(3) if sys.version_info[0] != 3 else print(\"agent-python-v1:\" + os.path.abspath(sys.executable))"@,
{
    "import os,sys; sys.exit(3) if sys.version_info[0] != 3 else print(\"agent-python-v1:\" + os.path.abspath(sys.executable))".to_owned()
}

/// The arguments of a probe: the launcher's own, then the script, run in
/// isolation from the user's packages and settings.
pub fn probe_args(candidate: &PythonCandidate) -> (args: Vec<String>)
    ensures
        text::views(args@) == text::views(candidate.launcher_args@) + seq![
            "-I"@,
            "-c"@,
            "import os,sys; sys.exit(3) if sys.version_info[0] != 3 else print(\"agent-python-v1:\" + os.path.abspath(sys.executable))"@,
        ],
{
    let mut args: Vec<String> = Vec::new();
    let mut i: usize = 0;
    while i < candidate.launcher_args.len()
        invariant
            i <= candidate.launcher_args@.len(),
            args@.len() == i,
            forall|k: int|
                0 <= k < i ==> (#[trigger] args@[k])@ == candidate.launcher_args@[k]@,
        decreases candidate.launcher_args@.len() - i,
    {
        args.push(candidate.launcher_args[i].as_str().to_owned());
        i += 1;
    }
    args.push("-I".to_owned());
    args.push("-c".to_owned());
    args.push(probe_script());
    assert(text::views(args@) =~= text::views(candidate.launcher_args@) + seq![
        "-I"@,
        "-c"@,
        "import os,sys; sys.exit(3) if sys.version_info[0] != 3 else print(\"agent-python-v1:\" + os.path.abspath(sys.executable))"@,
    ]);
    args
}

/// What a line reports, where it begins with the marker.
pub open spec fn reported_in(line: Seq<char>) -> Option<Seq<char>> {
    let trimmed = text::trim(line);
    if text::starts_with(trimmed, PROBE_MARKER@) {
        Some(trimmed.skip(PROBE_MARKER@.len() as int))
    } else {
        None
    }
}

/// What the first line with the marker reports.
pub open spec fn first_report(lines: Seq<Seq<char>>, from: int) -> Option<Seq<char>>
    decreases lines.len() - from,
{
    if from < 0 || from >= lines.len() {
        None
    } else if reported_in(lines[from]) is Some {
        reported_in(lines[from])
    } else {
        first_report(lines, from + 1)
    }
}

/// How a probe ended.
#[derive(Debug)]
pub struct ProbeOutput {
    pub success: bool,
    /// The exit status in words.
    pub status: String,
    pub stdout: BoundedCapture,
}

/// What a probe says: the path that it reports, or why it failed.
pub open spec fn probe_result(out: ProbeOutput) -> Result<Seq<char>, Seq<char>> {
    if !out.success {
        Err("probe exited "@ + out.status@)
    } else if out.stdout.overflowed || out.stdout.bytes@.len() > MAX_PROBE_OUTPUT_BYTES {
        Err("probe output exceeded "@ + text::dec(MAX_PROBE_OUTPUT_BYTES as nat) + " bytes"@)
    } else if !vstd::utf8::valid_utf8(out.stdout.bytes@) {
        Err("probe output was not UTF-8"@)
    } else {
        match first_report(text::lines(vstd::utf8::decode_utf8(out.stdout.bytes@)), 0) {
            Some(path) => if text::trim(path).len() > 0 {
                Ok(path)
            } else {
                Err("probe did not report its executable identity"@)
            },
            None => Err("probe did not report its executable identity"@),
        }
    }
}

fn find_report(lines: &Vec<String>) -> (r: Option<String>)
    ensures
        match r {
            Some(path) => first_report(text::views(lines@), 0) == Some(path@),
            None => first_report(text::views(lines@), 0) is None,
        },
{
    let marker = text::chars_of(PROBE_MARKER);
    let n: usize = marker.len();
    let mut i: usize = 0;
    while i < lines.len()
        invariant
            marker@ == PROBE_MARKER@,
            n == marker@.len(),
            i <= lines@.len(),
            first_report(text::views(lines@), 0) == first_report(text::views(lines@), i as int),
        decreases lines@.len() - i,
    {
        let line = lines[i].as_str();
        assert(text::views(lines@)[i as int] == line@);
        let trimmed = text::trim_str(line);
        if text::str_starts_with(trimmed.as_str(), PROBE_MARKER) {
            let chars = text::chars_of(trimmed.as_str());
            let path = text::string_of_range(chars.as_slice(), n, chars.len());
            assert(path@ =~= trimmed@.skip(n as int));
            return Some(path);
        }
        i += 1;
    }
    None
}

/// Reads the result of a probe.
pub fn read_probe(out: &ProbeOutput) -> (r: Result<String, String>)
    ensures
        match r {
            Ok(path) => probe_result(*out) == Ok::<Seq<char>, Seq<char>>(path@),
            Err(reason) => probe_result(*out) == Err::<Seq<char>, Seq<char>>(reason@),
        },
{
    if !out.success {
        let mut reason = "probe exited ".to_owned();
        reason.append(out.status.as_str());
        return Err(reason);
    }
    if out.stdout.overflowed || out.stdout.bytes.len() > MAX_PROBE_OUTPUT_BYTES {
        let mut reason = "probe output exceeded ".to_owned();
        text::push_dec(&mut reason, MAX_PROBE_OUTPUT_BYTES as u64);
        reason.append(" bytes");
        return Err(reason);
    }
    let stdout = match outside::utf8_text(out.stdout.bytes.as_slice()) {
        Some(s) => s,
        None => {
            return Err("probe output was not UTF-8".to_owned());
        },
    };
    let chars = text::chars_of(stdout);
    let lines = text::lines_of(chars.as_slice());
    match find_report(&lines) {
        Some(path) => {
            let shown = text::trim_str(path.as_str());
            proof {
                text::lemma_byte_len_at_least_len(shown@);
                if shown@.len() == 0 {
                    assert(shown@ =~= Seq::empty());
                }
            }
            if text::bytes_in(shown.as_str()) > 0 {
                Ok(path)
            } else {
                Err("probe did not report its executable identity".to_owned())
            }
        },
        None => Err("probe did not report its executable identity".to_owned()),
    }
}

// ---------------------------------------------------------------------
// Running a probe
// ---------------------------------------------------------------------

/// The output of a process, kept up to a cap.
#[derive(Debug)]
pub struct BoundedCapture {
    pub bytes: Vec<u8>,
    /// Whether there was more than fits.
    pub overflowed: bool,
}

impl BoundedCapture {
    /// A capture of nothing.
    pub fn new() -> (c: BoundedCapture)
        ensures
            c.bytes@.len() == 0,
            !c.overflowed,
    {
        BoundedCapture { bytes: Vec::new(), overflowed: false }
    }

    /// Takes what was read next, as far as the cap leaves room.
    pub fn feed(&mut self, chunk: &[u8], cap: usize)
        ensures
            final(self).bytes@ == old(self).bytes@ + git::first_bytes(
                chunk@,
                cap - old(self).bytes@.len(),
            ),
            final(self).overflowed == (old(self).overflowed || chunk@.len() > 0 && chunk@.len()
                > cap - old(self).bytes@.len()),
    {
        let room: usize = if cap >= self.bytes.len() {
            cap - self.bytes.len()
        } else {
            0
        };
        let n: usize = chunk.len();
        let keep: usize = if room <= n {
            room
        } else {
            n
        };
        let ghost before = self.bytes@;
        let mut i: usize = 0;
        assert(self.bytes@ =~= before + chunk@.take(0));
        while i < keep
            invariant
                i <= keep <= n,
                n == chunk@.len(),
                self.overflowed == old(self).overflowed,
                self.bytes@ == before + chunk@.take(i as int),
            decreases keep - i,
        {
            self.bytes.push(chunk[i]);
            assert(before + chunk@.take(i + 1) =~= (before + chunk@.take(i as int)).push(
                chunk@[i as int],
            ));
            i += 1;
        }
        if keep < n {
            self.overflowed = true;
        }
        assert(chunk@.take(n as int) =~= chunk@);
        assert(self.bytes@ =~= before + git::first_bytes(chunk@, cap - before.len()));
    }
}

/// Everything that was read, in order.
pub open spec fn concat(chunks: Seq<Seq<u8>>) -> Seq<u8>
    decreases chunks.len(),
{
    if chunks.len() == 0 {
        Seq::empty()
    } else {
        concat(chunks.drop_last()) + chunks.last()
    }
}

/// What a capture holds after it took everything in these chunks.
pub open spec fn captured(chunks: Seq<Seq<u8>>, cap: int) -> (Seq<u8>, bool)
    decreases chunks.len(),
{
    if chunks.len() == 0 {
        (Seq::empty(), false)
    } else {
        let (bytes, over) = captured(chunks.drop_last(), cap);
        let chunk = chunks.last();
        (
            bytes + git::first_bytes(chunk, cap - bytes.len()),
            over || chunk.len() > 0 && chunk.len() > cap - bytes.len(),
        )
    }
}

/// However the output arrives, a capture holds its first bytes up to the cap,
/// and it says that there was more exactly when there was.
pub proof fn law_a_capture_is_a_bounded_prefix(chunks: Seq<Seq<u8>>, cap: int)
    requires
        cap >= 0,
    ensures
        captured(chunks, cap).0 == git::first_bytes(concat(chunks), cap),
        captured(chunks, cap).1 == (concat(chunks).len() > cap),
    decreases chunks.len(),
{
    if chunks.len() > 0 {
        let rest = concat(chunks.drop_last());
        let chunk = chunks.last();
        law_a_capture_is_a_bounded_prefix(chunks.drop_last(), cap);
        let whole = rest + chunk;
        let (bytes, over) = captured(chunks.drop_last(), cap);
        if rest.len() > cap {
            assert(whole.take(cap) =~= rest.take(cap));
            assert(bytes + git::first_bytes(chunk, cap - bytes.len()) =~= bytes);
        } else if whole.len() <= cap {
            assert(git::first_bytes(chunk, cap - bytes.len()) =~= chunk);
        } else {
            assert(whole.take(cap) =~= rest + chunk.take(cap - rest.len()));
            assert(git::first_bytes(chunk, cap - bytes.len()) =~= chunk.take(cap - rest.len()));
        }
    } else {
        assert(git::first_bytes(Seq::<u8>::empty(), cap) =~= Seq::<u8>::empty());
    }
}

/// Why a process gave no output.
#[derive(Debug, Clone, PartialEq, Eq)]
pub enum BoundedCommandError {
    Spawn(String),
    MissingStdout,
    Wait(String),
    ReaderPanicked,
    TimedOut,
}

/// The text of a failure.
pub open spec fn command_error_text(e: BoundedCommandError) -> Seq<char> {
    match e {
        BoundedCommandError::Spawn(error) => "could not start: "@ + error@,
        BoundedCommandError::MissingStdout => "did not expose stdout"@,
        BoundedCommandError::Wait(error) => "wait failed: "@ + error@,
        BoundedCommandError::ReaderPanicked => "stdout reader panicked"@,
        BoundedCommandError::TimedOut => "timed out"@,
    }
}

impl BoundedCommandError {
    /// The failure in words.
    pub fn message(&self) -> (out: String)
        ensures
            out@ == command_error_text(*self),
    {
        match self {
            BoundedCommandError::Spawn(error) => {
                let mut out = "could not start: ".to_owned();
                out.append(error.as_str());
                out
            },
            BoundedCommandError::MissingStdout => "did not expose stdout".to_owned(),
            BoundedCommandError::Wait(error) => {
                let mut out = "wait failed: ".to_owned();
                out.append(error.as_str());
                out
            },
            BoundedCommandError::ReaderPanicked => "stdout reader panicked".to_owned(),
            BoundedCommandError::TimedOut => "timed out".to_owned(),
        }
    }
}

/// What a look at a running process shows.
#[derive(Debug)]
pub enum ChildPoll {
    Exited,
    Running,
    Failed(String),
}

/// What to do after a look at a running process.
#[derive(Debug)]
pub enum PollStep {
    /// Go on to its output.
    Finished,
    /// Look again after so many milliseconds.
    Wait(u64),
    /// End the process and fail.
    Stop(BoundedCommandError),
}

/// Decides what to do after a look at a running process. A process that has
/// exited counts even when its time is up; any other is then ended.
pub fn poll_step(poll: ChildPoll, elapsed_ms: u64, timeout_ms: u64) -> (s: PollStep)
    ensures
        match poll {
            ChildPoll::Exited => s == PollStep::Finished,
            ChildPoll::Running => if elapsed_ms >= timeout_ms {
                s == PollStep::Stop(BoundedCommandError::TimedOut)
            } else {
                s matches PollStep::Wait(ms) && ms == if PROBE_POLL_INTERVAL_MS <= timeout_ms {
                    PROBE_POLL_INTERVAL_MS
                } else {
                    timeout_ms
                }
            },
            ChildPoll::Failed(error) => s == PollStep::Stop(BoundedCommandError::Wait(error)),
        },
{
    match poll {
        ChildPoll::Exited => PollStep::Finished,
        ChildPoll::Running => {
            if elapsed_ms >= timeout_ms {
                PollStep::Stop(BoundedCommandError::TimedOut)
            } else if PROBE_POLL_INTERVAL_MS <= timeout_ms {
                PollStep::Wait(PROBE_POLL_INTERVAL_MS)
            } else {
                PollStep::Wait(timeout_ms)
            }
        },
        ChildPoll::Failed(error) => PollStep::Stop(BoundedCommandError::Wait(error)),
    }
}

/// Without a configured interpreter three are tried in order: the launcher
/// with a version, and two names.
pub proof fn law_three_interpreters_are_tried_in_order()
    ensures
        candidates(None).len() == 3,
        candidates(None)[0] == (Candidate {
            label: "py -3"@,
            program: "py"@,
            launcher_args: seq!["-3"@],
        }),
        candidates(None)[1] == (Candidate {
            label: "python3"@,
            program: "python3"@,
            launcher_args: Seq::empty(),
        }),
        candidates(None)[2] == (Candidate {
            label: "python"@,
            program: "python"@,
            launcher_args: Seq::empty(),
        }),
        forall|variable: Seq<char>, value: Seq<char>|
            (#[trigger] candidates(Some((variable, value)))).len() == 1 && candidates(
                Some((variable, value)),
            )[0].program == value && candidates(Some((variable, value)))[0].launcher_args.len()
                == 0,
        forall|label: Seq<char>, reason: Seq<char>| #[trigger]
            attempt_text(label, reason) == label + ": "@ + reason,
        PYTHON_EXECUTABLE_ENV@ == "AGENT_PYTHON"@,
        PROBE_TIMEOUT_MS == 5_000,
        PROBE_POLL_INTERVAL_MS == 10,
        PROBE_READER_REAP_GRACE_MS == 1_000,
        PROBE_CAPTURE_BYTES == MAX_PROBE_OUTPUT_BYTES + 1,
{
}

/// The interpreter that a probe reports stands behind the marker on the first
/// line that begins with it, white space aside. `i` is that line.
pub proof fn law_a_report_is_the_first_marked_line(lines: Seq<Seq<char>>, i: int)
    requires
        0 <= i <= lines.len(),
        forall|k: int|
            0 <= k < i ==> !text::starts_with(
                text::trim(#[trigger] lines[k]),
                "agent-python-v1:"@,
            ),
        i < lines.len() ==> text::starts_with(text::trim(lines[i]), "agent-python-v1:"@),
    ensures
        i == lines.len() ==> first_report(lines, 0) is None,
        i < lines.len() ==> first_report(lines, 0) == Some(text::trim(lines[i]).skip(16)),
{
    reveal_strlit("agent-python-v1:");
    assert("agent-python-v1:"@.len() == 16);
    lemma_first_report(lines, 0, i);
}

proof fn lemma_first_report(lines: Seq<Seq<char>>, from: int, i: int)
    requires
        0 <= from <= i <= lines.len(),
        forall|k: int| from <= k < i ==> reported_in(#[trigger] lines[k]) is None,
        i < lines.len() ==> reported_in(lines[i]) is Some,
    ensures
        first_report(lines, from) == if i < lines.len() {
            reported_in(lines[i])
        } else {
            None
        },
    decreases i - from,
{
    if from < i {
        assert(reported_in(lines[from]) is None);
        lemma_first_report(lines, from + 1, i);
    }
}

/// A probe finds an interpreter exactly where it succeeds, says no more than
/// four thousand and ninety-six bytes of text, and reports a path that is not
/// blank.
pub proof fn law_a_probe_finds_what_it_reports(out: ProbeOutput)
    ensures
        ({
            let lines = text::lines(vstd::utf8::decode_utf8(out.stdout.bytes@));
            let reported = first_report(lines, 0);
            &&& probe_result(out) is Ok <==> out.success && !out.stdout.overflowed
                && out.stdout.bytes@.len() <= 4_096 && vstd::utf8::valid_utf8(out.stdout.bytes@)
                && reported is Some && text::trim(reported->0).len() > 0
            &&& probe_result(out) is Ok ==> probe_result(out)->Ok_0 == reported->0
            &&& !out.success ==> probe_result(out) == Err::<Seq<char>, _>(
                "probe exited "@ + out.status@,
            )
        }),
{
}

/// A reported interpreter is used only where its path is absolute and is a
/// file.
pub proof fn law_only_an_absolute_file_is_used(absolute: bool, is_file: bool)
    ensures
        path_fault(absolute, is_file) is None <==> absolute && is_file,
        !absolute ==> path_fault(absolute, is_file) == Some(
            "probe returned a non-absolute executable identity"@,
        ),
        absolute && !is_file ==> path_fault(absolute, is_file) == Some(
            "reported executable identity is not a file"@,
        ),
{
}

} // verus!
