//! How a tool call ends without doing its work: the class of the failure and
//! the bounded evidence that comes with a refusal.
use crate::echo;
use crate::text;
use vstd::prelude::*;

verus! {

/// The classes of tool failure a caller can act on.
#[derive(Clone, Copy, Debug, PartialEq, Eq, Structural)]
pub enum ToolFailureClass {
    Cancellation,
    Timeout,
    ShellDialectMismatch,
    CommandUnavailable,
    MissingProjectMarker,
    ProcessExit,
    StaleRevision,
    AmbiguousMatch,
    NoExactMatch,
    HiddenPath,
    PathNotFound,
}

/// The name of a failure class in tool output.
pub open spec fn class_name(c: ToolFailureClass) -> Seq<char> {
    match c {
        ToolFailureClass::Cancellation => "cancellation"@,
        ToolFailureClass::Timeout => "timeout"@,
        ToolFailureClass::ShellDialectMismatch => "shell_dialect_mismatch"@,
        ToolFailureClass::CommandUnavailable => "command_unavailable"@,
        ToolFailureClass::MissingProjectMarker => "missing_project_marker"@,
        ToolFailureClass::ProcessExit => "process_exit"@,
        ToolFailureClass::StaleRevision => "stale_revision"@,
        ToolFailureClass::AmbiguousMatch => "ambiguous_match"@,
        ToolFailureClass::NoExactMatch => "no_exact_match"@,
        ToolFailureClass::HiddenPath => "hidden_path"@,
        ToolFailureClass::PathNotFound => "path_not_found"@,
    }
}

impl ToolFailureClass {
    /// The name of the class in tool output.
    pub fn as_str(self) -> (r: &'static str)
        ensures
            r@ == class_name(self),
    {
        match self {
            ToolFailureClass::Cancellation => "cancellation",
            ToolFailureClass::Timeout => "timeout",
            ToolFailureClass::ShellDialectMismatch => "shell_dialect_mismatch",
            ToolFailureClass::CommandUnavailable => "command_unavailable",
            ToolFailureClass::MissingProjectMarker => "missing_project_marker",
            ToolFailureClass::ProcessExit => "process_exit",
            ToolFailureClass::StaleRevision => "stale_revision",
            ToolFailureClass::AmbiguousMatch => "ambiguous_match",
            ToolFailureClass::NoExactMatch => "no_exact_match",
            ToolFailureClass::HiddenPath => "hidden_path",
            ToolFailureClass::PathNotFound => "path_not_found",
        }
    }
}

/// A refused edit: nothing was changed, and this is what the caller learns.
pub struct Refusal {
    pub class: ToolFailureClass,
    /// One line that names the tool and the class.
    pub summary: String,
    /// What the reader sees: the reason, the path, the current revision and
    /// the candidate regions.
    pub content: String,
    pub path: String,
    pub revision: String,
    pub match_count: usize,
    pub candidates: Vec<String>,
    pub recovery_hint: String,
}

/// The candidate regions as one block.
pub open spec fn candidate_text(text: Seq<char>, needle: Seq<char>) -> Seq<char> {
    if echo::candidates(text, needle).len() == 0 {
        "no candidate"@
    } else {
        text::join(echo::candidates(text, needle), "\n---\n"@)
    }
}

/// What a refusal of `tool` says about an anchor in a text. `shown_path` is
/// the path as it is written for the reader.
pub open spec fn refusal_is(
    r: Refusal,
    tool: Seq<char>,
    class: ToolFailureClass,
    path: Seq<char>,
    shown_path: Seq<char>,
    revision: Seq<char>,
    text: Seq<char>,
    needle: Seq<char>,
    message: Seq<char>,
    match_count: nat,
) -> bool {
    &&& r.class == class
    &&& r.summary@ == tool + " refused: "@ + class_name(class)
    &&& r.content@ == message + "\npath="@ + shown_path + "\nrevision="@ + revision + "\n"@
        + candidate_text(text, needle)
    &&& r.path@ == path
    &&& r.revision@ == revision
    &&& r.match_count == match_count
    &&& text::views(r.candidates@) == echo::candidates(text, needle)
    &&& r.recovery_hint@ == "current revision "@ + revision + "; matching stays exact"@
}

/// Builds the refusal of an edit.
pub fn refuse(
    tool: &str,
    class: ToolFailureClass,
    path: &str,
    shown_path: &str,
    revision: &str,
    text: &str,
    needle: &str,
    message: &str,
    match_count: usize,
) -> (r: Refusal)
    ensures
        refusal_is(
            r,
            tool@,
            class,
            path@,
            shown_path@,
            revision@,
            text@,
            needle@,
            message@,
            match_count as nat,
        ),
{
    let candidates = echo::candidate_regions(text, needle);
    let shown = if candidates.len() == 0 {
        "no candidate".to_owned()
    } else {
        text::join_strings(&candidates, "\n---\n")
    };
    let mut summary = tool.to_owned();
    summary.append(" refused: ");
    summary.append(class.as_str());
    let mut content = message.to_owned();
    content.append("\npath=");
    content.append(shown_path);
    content.append("\nrevision=");
    content.append(revision);
    content.append("\n");
    content.append(shown.as_str());
    let mut hint = "current revision ".to_owned();
    hint.append(revision);
    hint.append("; matching stays exact");
    assert(text::views(candidates@).len() == candidates@.len());
    Refusal {
        class,
        summary,
        content,
        path: path.to_owned(),
        revision: revision.to_owned(),
        match_count,
        candidates,
        recovery_hint: hint,
    }
}

/// A refusal names the tool and the class, and shows the message, the path,
/// the current revision and the candidates, each on lines of its own.
pub proof fn law_a_refusal_shows_where_things_stand(
    r: Refusal,
    tool: Seq<char>,
    class: ToolFailureClass,
    path: Seq<char>,
    shown_path: Seq<char>,
    revision: Seq<char>,
    text: Seq<char>,
    needle: Seq<char>,
    message: Seq<char>,
    match_count: nat,
)
    requires
        refusal_is(
            r,
            tool,
            class,
            path,
            shown_path,
            revision,
            text,
            needle,
            message,
            match_count,
        ),
    ensures
        r.class == class,
        r.path@ == path && r.revision@ == revision && r.match_count == match_count,
        r.summary@ == tool + " refused: "@ + class_name(class),
        message.is_prefix_of(r.content@),
        text::contains(r.content@, "\nrevision="@ + revision + "\n"@),
        r.candidates@.len() == echo::candidates(text, needle).len(),
        forall|k: int|
            0 <= k < r.candidates@.len() ==> (#[trigger] r.candidates@[k])@ == echo::candidates(
                text,
                needle,
            )[k],
{
    assert(text::views(r.candidates@).len() == r.candidates@.len());
    assert forall|k: int| 0 <= k < r.candidates@.len() implies (#[trigger] r.candidates@[k])@
        == echo::candidates(text, needle)[k] by {
        assert(text::views(r.candidates@)[k] == r.candidates@[k]@);
    }
    assert(message =~= r.content@.subrange(0, message.len() as int));
    let part = "\nrevision="@ + revision + "\n"@;
    let at = (message + "\npath="@ + shown_path).len() as int;
    assert(r.content@.subrange(at, at + part.len()) =~= part);
    assert(text::occurs_at(r.content@, part, at));
}

/// The names of the classes of failure.
pub proof fn law_the_names_of_the_classes()
    ensures
        class_name(ToolFailureClass::Cancellation) == "cancellation"@,
        class_name(ToolFailureClass::Timeout) == "timeout"@,
        class_name(ToolFailureClass::ShellDialectMismatch) == "shell_dialect_mismatch"@,
        class_name(ToolFailureClass::CommandUnavailable) == "command_unavailable"@,
        class_name(ToolFailureClass::MissingProjectMarker) == "missing_project_marker"@,
        class_name(ToolFailureClass::ProcessExit) == "process_exit"@,
        class_name(ToolFailureClass::StaleRevision) == "stale_revision"@,
        class_name(ToolFailureClass::AmbiguousMatch) == "ambiguous_match"@,
        class_name(ToolFailureClass::NoExactMatch) == "no_exact_match"@,
        class_name(ToolFailureClass::HiddenPath) == "hidden_path"@,
        class_name(ToolFailureClass::PathNotFound) == "path_not_found"@,
{
}

} // verus!
