//! `edit.replace`: exact, occurrence-aware replacement in one file.
//!
//! Without `occurrence` or `replace_all` the old text must occur exactly
//! once; matching is never fuzzy.
use crate::echo;
use crate::matching;
use crate::matching::{ExactMatchError, LineEnding};
use crate::outcome;
use crate::outcome::{Refusal, ToolFailureClass};
use crate::patch;
use crate::patch::MAX_FILE_BYTES;
use crate::text;
use vstd::prelude::*;

verus! {

/// The arguments of a call.
#[derive(Debug)]
pub struct ReplaceArgs {
    pub path: String,
    pub old: String,
    pub new: String,
    /// Which occurrence to replace, counted from one.
    pub occurrence: Option<usize>,
    pub replace_all: bool,
    /// The revision the change is based on.
    pub base_revision: Option<String>,
}

/// Why a call is invalid.
#[derive(Clone, Copy, Debug, PartialEq, Eq, Structural)]
pub enum ReplaceError {
    EmptyOld,
    OccurrenceWithAll,
    FileTooLarge(u64),
    FileGrew,
    ResultTooLarge,
}

/// The text of an invalid-request error.
pub open spec fn replace_error_text(e: ReplaceError) -> Seq<char> {
    let limit = text::dec(MAX_FILE_BYTES as nat);
    match e {
        ReplaceError::EmptyOld => "edit.replace `old` must not be empty"@,
        ReplaceError::OccurrenceWithAll =>
            "edit.replace: `occurrence` and `replace_all` are mutually exclusive"@,
        ReplaceError::FileTooLarge(n) => "file is "@ + text::dec(n as nat)
            + " bytes; edit.replace is limited to "@ + limit + " bytes"@,
        ReplaceError::FileGrew => "file grew beyond the edit.replace limit of "@ + limit
            + " bytes while it was read"@,
        ReplaceError::ResultTooLarge => "edit.replace result exceeds the "@ + limit
            + "-byte file limit"@,
    }
}

impl ReplaceError {
    /// The text of the error.
    pub fn message(&self) -> (out: String)
        ensures
            out@ == replace_error_text(*self),
    {
        match self {
            ReplaceError::EmptyOld => "edit.replace `old` must not be empty".to_owned(),
            ReplaceError::OccurrenceWithAll => "edit.replace: `occurrence` and `replace_all` are mutually exclusive".to_owned(),
            ReplaceError::FileTooLarge(n) => {
                let mut out = "file is ".to_owned();
                text::push_dec(&mut out, *n);
                out.append(" bytes; edit.replace is limited to ");
                text::push_dec(&mut out, MAX_FILE_BYTES as u64);
                out.append(" bytes");
                out
            },
            ReplaceError::FileGrew => {
                let mut out = "file grew beyond the edit.replace limit of ".to_owned();
                text::push_dec(&mut out, MAX_FILE_BYTES as u64);
                out.append(" bytes while it was read");
                out
            },
            ReplaceError::ResultTooLarge => {
                let mut out = "edit.replace result exceeds the ".to_owned();
                text::push_dec(&mut out, MAX_FILE_BYTES as u64);
                out.append("-byte file limit");
                out
            },
        }
    }
}

/// Checks what can be checked before the file is opened.
pub fn check_args(args: &ReplaceArgs) -> (r: Result<(), ReplaceError>)
    ensures
        r == if args.old@.len() == 0 {
            Err::<(), ReplaceError>(ReplaceError::EmptyOld)
        } else if args.occurrence is Some && args.replace_all {
            Err(ReplaceError::OccurrenceWithAll)
        } else {
            Ok(())
        },
{
    if args.old.as_str().is_empty() {
        return Err(ReplaceError::EmptyOld);
    }
    if args.occurrence.is_some() && args.replace_all {
        return Err(ReplaceError::OccurrenceWithAll);
    }
    Ok(())
}

/// Checks the size of the file before it is read and of what was read: it
/// may have grown in between.
pub fn check_size(file_bytes: u64, read_bytes: usize) -> (r: Result<(), ReplaceError>)
    ensures
        r == if file_bytes > MAX_FILE_BYTES {
            Err::<(), ReplaceError>(ReplaceError::FileTooLarge(file_bytes))
        } else if read_bytes > MAX_FILE_BYTES {
            Err(ReplaceError::FileGrew)
        } else {
            Ok(())
        },
{
    if file_bytes > MAX_FILE_BYTES as u64 {
        return Err(ReplaceError::FileTooLarge(file_bytes));
    }
    if read_bytes > MAX_FILE_BYTES {
        return Err(ReplaceError::FileGrew);
    }
    Ok(())
}

// ---------------------------------------------------------------------
// The edit
// ---------------------------------------------------------------------

/// The old text in the line-ending style of the file.
pub open spec fn sought(args: ReplaceArgs, original: Seq<char>) -> Seq<char> {
    matching::normalized(args.old@, matching::line_ending(original))
}

/// The new text in the line-ending style of the file.
pub open spec fn written(args: ReplaceArgs, original: Seq<char>) -> Seq<char> {
    matching::normalized(args.new@, matching::line_ending(original))
}

/// Whether an argument's line breaks were adapted to the file.
pub open spec fn adapts(args: ReplaceArgs, original: Seq<char>) -> bool {
    sought(args, original) != args.old@ || written(args, original) != args.new@
}

/// Where the old text occurs.
pub open spec fn occurrences(args: ReplaceArgs, original: Seq<char>) -> Seq<int> {
    text::match_starts(original, sought(args, original))
}

/// Whether the file is the revision the change is based on.
pub open spec fn is_current(args: ReplaceArgs, original: Seq<char>) -> bool {
    args.base_revision matches Some(expected) ==> expected@ == patch::revision_of(original)
}

/// Why the old text does not select anything to replace.
pub open spec fn failed_match(args: ReplaceArgs, original: Seq<char>) -> Option<ExactMatchError> {
    let starts = occurrences(args, original);
    if args.replace_all {
        if starts.len() == 0 {
            Some(ExactMatchError::NoMatch { count: 0 })
        } else {
            None
        }
    } else {
        match matching::selection(starts, args.occurrence) {
            Ok(_) => None,
            Err(e) => Some(e),
        }
    }
}

/// The file after the edit.
pub open spec fn edited(args: ReplaceArgs, original: Seq<char>) -> Seq<char> {
    let old = sought(args, original);
    let new = written(args, original);
    if args.replace_all {
        text::replaced(original, old, new)
    } else {
        let at = matching::selection(occurrences(args, original), args.occurrence)->Ok_0;
        original.take(at) + new + original.skip(at + old.len())
    }
}

/// How many occurrences are replaced.
pub open spec fn replacements(args: ReplaceArgs, original: Seq<char>) -> nat {
    if args.replace_all {
        occurrences(args, original).len()
    } else {
        1
    }
}

/// What a refused match says.
pub open spec fn match_message(args: ReplaceArgs, e: ExactMatchError) -> Seq<char> {
    match e {
        ExactMatchError::NoMatch { count } => match args.occurrence {
            Some(n) => "no_exact_match: occurrence "@ + text::dec(n as nat)
                + " requested but `old` appears only "@ + text::dec(count as nat)
                + " times after target line-ending normalization"@,
            None =>
                "no_exact_match: `old` appears 0 times after target line-ending normalization. Matching stays exact; re-read and supply a current anchor."@,
        },
        ExactMatchError::Ambiguous { count } => "ambiguous_match: `old` appears "@ + text::dec(
            count as nat,
        )
            + " times; pass `occurrence` or `replace_all`, or use edit.patch for multi-hunk work"@,
    }
}

/// What a call reports of a file it may change.
#[derive(Debug)]
pub struct ReplaceReport {
    pub changed: bool,
    pub summary: String,
    pub content: String,
    pub path: String,
    pub occurrences: usize,
    pub bytes_before: usize,
    pub bytes_after: usize,
    /// The revision after the edit.
    pub revision: String,
    pub line_ending: LineEnding,
    pub line_endings_normalized: bool,
}

/// How a call was planned.
pub enum ReplacePlan {
    Invalid(ReplaceError),
    Refused(Refusal),
    /// The edit would leave the file as it is.
    Unchanged(ReplaceReport),
    /// The new content of the file, and the report once it is staged.
    Ready(String, ReplaceReport),
}

/// The report on a planned edit.
pub open spec fn report_is(
    r: ReplaceReport,
    args: ReplaceArgs,
    relative: Seq<char>,
    original: Seq<char>,
) -> bool {
    let updated = edited(args, original);
    let count = occurrences(args, original).len();
    &&& r.changed == (updated != original)
    &&& r.path@ == relative
    &&& r.occurrences == count
    &&& r.bytes_before == text::byte_len(original)
    &&& r.bytes_after == text::byte_len(updated)
    &&& r.revision@ == patch::revision_of(updated)
    &&& r.line_ending == matching::line_ending(original)
    &&& r.line_endings_normalized == adapts(args, original)
    &&& !r.changed ==> r.summary@ == "no-op: replacement text equals original"@ && r.content@
        == "no change: "@ + relative
    &&& r.changed ==> {
        &&& r.summary@ == "replaced "@ + text::dec(replacements(args, original))
            + " occurrence(s) in "@ + relative
        &&& r.content@ == "edit applied: "@ + relative + " ("@ + text::dec(count)
            + " occurrence(s) of old text; bytes "@ + text::dec(text::byte_len(original))
            + " -> "@ + text::dec(text::byte_len(updated)) + "; revision "@ + patch::revision_of(
            updated,
        ) + ")\n"@ + text::trim_end(
            echo::echo_of(original, updated, echo::EDIT_ECHO_MAX_CHARS as int),
        )
    }
}

/// A planned call: refused where the file moved on or the old text does not
/// select anything, invalid where the result is too large, and otherwise the
/// exact edit.
pub open spec fn plan_is(
    plan: ReplacePlan,
    args: ReplaceArgs,
    relative: Seq<char>,
    original: Seq<char>,
) -> bool {
    if !is_current(args, original) {
        plan matches ReplacePlan::Refused(r) && outcome::refusal_is(
            r,
            "edit.replace"@,
            ToolFailureClass::StaleRevision,
            relative,
            relative,
            patch::revision_of(original),
            original,
            args.old@,
            patch::stale_message(),
            0,
        )
    } else if let Some(e) = failed_match(args, original) {
        plan matches ReplacePlan::Refused(r) && outcome::refusal_is(
            r,
            "edit.replace"@,
            patch::match_class(e),
            relative,
            relative,
            patch::revision_of(original),
            original,
            sought(args, original),
            match_message(args, e),
            patch::match_count(e) as nat,
        )
    } else if text::byte_len(edited(args, original)) > MAX_FILE_BYTES {
        plan matches ReplacePlan::Invalid(e) && e == ReplaceError::ResultTooLarge
    } else if edited(args, original) == original {
        plan matches ReplacePlan::Unchanged(r) && report_is(r, args, relative, original)
    } else {
        plan matches ReplacePlan::Ready(updated, r) && updated@ == edited(args, original)
            && report_is(r, args, relative, original)
    }
}

/// The words for a failed match.
fn explain_match(args: &ReplaceArgs, e: ExactMatchError) -> (out: String)
    ensures
        out@ == match_message(*args, e),
{
    match e {
        ExactMatchError::NoMatch { count } => match args.occurrence {
            Some(n) => {
                let mut out = "no_exact_match: occurrence ".to_owned();
                text::push_dec(&mut out, n as u64);
                out.append(" requested but `old` appears only ");
                text::push_dec(&mut out, count as u64);
                out.append(" times after target line-ending normalization");
                out
            },
            None => "no_exact_match: `old` appears 0 times after target line-ending normalization. Matching stays exact; re-read and supply a current anchor.".to_owned(),
        },
        ExactMatchError::Ambiguous { count } => {
            let mut out = "ambiguous_match: `old` appears ".to_owned();
            text::push_dec(&mut out, count as u64);
            out.append(
                " times; pass `occurrence` or `replace_all`, or use edit.patch for multi-hunk work",
            );
            out
        },
    }
}

/// The report on an edit that was computed.
fn report(
    args: &ReplaceArgs,
    relative: &str,
    original: &str,
    updated: &str,
    count: usize,
    done: usize,
    shape: LineEnding,
    normalized: bool,
) -> (r: ReplaceReport)
    requires
        updated@ == edited(*args, original@),
        count == occurrences(*args, original@).len(),
        done == replacements(*args, original@),
        shape == matching::line_ending(original@),
        normalized == adapts(*args, original@),
    ensures
        report_is(r, *args, relative@, original@),
{
    let changed = !text::same(updated, original);
    let bytes_before: usize = text::bytes_in(original);
    let bytes_after: usize = text::bytes_in(updated);
    let revision = patch::content_digest(updated);
    let mut summary = String::new();
    let mut content = String::new();
    if !changed {
        summary = "no-op: replacement text equals original".to_owned();
        content = "no change: ".to_owned();
        content.append(relative);
    } else {
        summary = "replaced ".to_owned();
        text::push_dec(&mut summary, done as u64);
        summary.append(" occurrence(s) in ");
        summary.append(relative);
        content = "edit applied: ".to_owned();
        content.append(relative);
        content.append(" (");
        text::push_dec(&mut content, count as u64);
        content.append(" occurrence(s) of old text; bytes ");
        text::push_dec(&mut content, bytes_before as u64);
        content.append(" -> ");
        text::push_dec(&mut content, bytes_after as u64);
        content.append("; revision ");
        content.append(revision.as_str());
        content.append(")\n");
        let shown = echo::edit_echo(original, updated, echo::EDIT_ECHO_MAX_CHARS);
        content.append(text::trim_end_str(shown.as_str()).as_str());
    }
    ReplaceReport {
        changed,
        summary,
        content,
        path: relative.to_owned(),
        occurrences: count,
        bytes_before,
        bytes_after,
        revision,
        line_ending: shape,
        line_endings_normalized: normalized,
    }
}

/// Plans a call on a file that was read: nothing is changed, the result says
/// what would be.
pub fn plan(args: &ReplaceArgs, relative: &str, original: &str) -> (r: ReplacePlan)
    requires
        args.old@.len() > 0,
    ensures
        plan_is(r, *args, relative@, original@),
{
    let revision = patch::content_digest(original);
    let stale = match &args.base_revision {
        Some(expected) => !text::same(expected.as_str(), revision.as_str()),
        None => false,
    };
    if stale {
        return ReplacePlan::Refused(
            outcome::refuse(
                "edit.replace",
                ToolFailureClass::StaleRevision,
                relative,
                relative,
                revision.as_str(),
                original,
                args.old.as_str(),
                "stale_revision: file changed since fs.read; re-read and retry. Matching stays exact.",
                0,
            ),
        );
    }
    let chars = text::chars_of(original);
    let shape = matching::detect_chars(&chars);
    let old = matching::normalize_edit_line_endings(args.old.as_str(), shape);
    let new = matching::normalize_edit_line_endings(args.new.as_str(), shape);
    let old_chars = matching::cow_chars(&old);
    let new_chars = matching::cow_chars(&new);
    let given_old = text::chars_of(args.old.as_str());
    let given_new = text::chars_of(args.new.as_str());
    let normalized = !text::same_chars(&old_chars, &given_old) || !text::same_chars(
        &new_chars,
        &given_new,
    );
    let old_text = text::string_of(&old_chars);
    let new_text = text::string_of(&new_chars);
    proof {
        matching::lemma_normalized_is_written(args.old@, shape);
        text::lemma_matches_from(original@, old_text@, 0);
    }
    let found = if args.replace_all {
        match matching::locate(&chars, &old_chars, Some(1)) {
            Ok(first) => Ok(first),
            Err(_) => Err(ExactMatchError::NoMatch { count: 0 }),
        }
    } else {
        matching::locate(&chars, &old_chars, args.occurrence)
    };
    match found {
        Err(e) => {
            assert(failed_match(*args, original@) == Some(e));
            let message = explain_match(args, e);
            let (class, count): (ToolFailureClass, usize) = match e {
                ExactMatchError::Ambiguous { count } => (ToolFailureClass::AmbiguousMatch, count),
                ExactMatchError::NoMatch { count } => (ToolFailureClass::NoExactMatch, count),
            };
            ReplacePlan::Refused(
                outcome::refuse(
                    "edit.replace",
                    class,
                    relative,
                    relative,
                    revision.as_str(),
                    original,
                    old_text.as_str(),
                    message.as_str(),
                    count,
                ),
            )
        },
        Ok(at) => {
            let done: usize = if args.replace_all {
                at.count
            } else {
                1
            };
            assert(failed_match(*args, original@) is None);
            let end: usize = at.at + old_chars.len();
            proof {
                if args.replace_all {
                    text::lemma_replaced_bytes(original@, old_text@, new_text@);
                } else {
                    let s = at.at as int;
                    assert(original@ =~= original@.take(s) + old_text@ + original@.skip(
                        end as int,
                    ));
                    text::lemma_byte_len_concat(
                        original@.take(s) + old_text@,
                        original@.skip(end as int),
                    );
                    text::lemma_byte_len_concat(original@.take(s), old_text@);
                    text::lemma_byte_len_concat(
                        original@.take(s) + new_text@,
                        original@.skip(end as int),
                    );
                    text::lemma_byte_len_concat(original@.take(s), new_text@);
                }
            }
            let size = matching::projected_replacement_len(
                text::bytes_in(original),
                text::bytes_in(old_text.as_str()),
                text::bytes_in(new_text.as_str()),
                done,
            );
            match size {
                None => {
                    return ReplacePlan::Invalid(ReplaceError::ResultTooLarge);
                },
                Some(n) => {
                    if n > MAX_FILE_BYTES {
                        return ReplacePlan::Invalid(ReplaceError::ResultTooLarge);
                    }
                },
            }
            let updated = if args.replace_all {
                text::replace_all(&chars, &old_chars, &new_chars)
            } else {
                let mut out = text::string_of_range(&chars, 0, at.at);
                out.append(new_text.as_str());
                text::push_range(&mut out, &chars, end, chars.len());
                assert(chars@.subrange(0, at.at as int) =~= chars@.take(at.at as int));
                assert(chars@.subrange(end as int, chars@.len() as int) =~= chars@.skip(
                    end as int,
                ));
                out
            };
            assert(updated@ == edited(*args, original@));
            let r = report(
                args,
                relative,
                original,
                updated.as_str(),
                at.count,
                done,
                shape,
                normalized,
            );
            if r.changed {
                ReplacePlan::Ready(updated, r)
            } else {
                ReplacePlan::Unchanged(r)
            }
        },
    }
}

/// The last check before a planned edit is staged: the file that is about to
/// be replaced must still be the revision the edit was computed from.
/// `staged` is the revision found there, or `None` where the file is gone.
pub fn check_before_staging(
    args: &ReplaceArgs,
    relative: &str,
    original: &str,
    staged: Option<String>,
) -> (r: Option<Refusal>)
    ensures
        (r is None) == (staged matches Some(found) && found@ == patch::revision_of(original@)),
        r matches Some(refusal) ==> outcome::refusal_is(
            refusal,
            "edit.replace"@,
            ToolFailureClass::StaleRevision,
            relative@,
            relative@,
            (match staged {
                Some(found) => found@,
                None => "missing"@,
            }),
            ""@,
            sought(*args, original@),
            "stale_revision: target changed between edit preflight and staging; no content was staged. Re-read and retry."@,
            0,
        ),
{
    let revision = patch::content_digest(original);
    let shape = LineEnding::detect(original);
    let old = matching::normalize_edit_line_endings(args.old.as_str(), shape);
    let old_chars = matching::cow_chars(&old);
    let old_text = text::string_of(&old_chars);
    let actual = match staged {
        Some(found) => {
            if text::same(found.as_str(), revision.as_str()) {
                return None;
            }
            found
        },
        None => "missing".to_owned(),
    };
    Some(
        outcome::refuse(
            "edit.replace",
            ToolFailureClass::StaleRevision,
            relative,
            relative,
            actual.as_str(),
            "",
            old_text.as_str(),
            "stale_revision: target changed between edit preflight and staging; no content was staged. Re-read and retry.",
            0,
        ),
    )
}

// ---------------------------------------------------------------------
// Laws
// ---------------------------------------------------------------------

/// A file that moved on since it was read is never edited.
pub proof fn law_a_stale_file_is_not_edited(
    plan: ReplacePlan,
    args: ReplaceArgs,
    relative: Seq<char>,
    original: Seq<char>,
)
    requires
        plan_is(plan, args, relative, original),
        args.base_revision matches Some(expected) && expected@ != patch::revision_of(original),
    ensures
        plan is Refused,
{
}

/// The revision that a report names is the one a further edit is based on: a
/// chained edit of the new content that passes it is not stale.
pub proof fn law_a_chained_edit_is_current(
    report: ReplaceReport,
    args: ReplaceArgs,
    relative: Seq<char>,
    original: Seq<char>,
    next: ReplaceArgs,
)
    requires
        report_is(report, args, relative, original),
        next.base_revision matches Some(expected) && expected@ == report.revision@,
    ensures
        is_current(next, edited(args, original)),
{
}

/// An edit of one occurrence is exact: that occurrence is the sought text
/// character for character, the new text takes its place, and everything
/// before and behind it stays. Without `occurrence` it is the only one.
pub proof fn law_an_edit_replaces_one_exact_occurrence(args: ReplaceArgs, original: Seq<char>)
    requires
        args.old@.len() > 0,
        !args.replace_all,
        failed_match(args, original) is None,
    ensures
        ({
            let old = sought(args, original);
            let new = written(args, original);
            let made = edited(args, original);
            let at = matching::selection(occurrences(args, original), args.occurrence)->Ok_0;
            &&& 0 <= at && at + old.len() <= original.len()
            &&& original.subrange(at, at + old.len()) == old
            &&& made.take(at) == original.take(at)
            &&& made.subrange(at, at + new.len()) == new
            &&& made.skip(at + new.len()) == original.skip(at + old.len())
            &&& args.occurrence is None ==> occurrences(args, original).len() == 1
        }),
{
    let old = sought(args, original);
    let new = written(args, original);
    let made = edited(args, original);
    let starts = occurrences(args, original);
    let at = matching::selection(starts, args.occurrence)->Ok_0;
    matching::lemma_normalized_is_written(args.old@, matching::line_ending(original));
    text::lemma_matches_from(original, old, 0);
    assert(exists|k: int| 0 <= k < starts.len() && starts[k] == at);
    assert(text::occurs_at(original, old, at));
    assert(original.subrange(at, at + old.len()) =~= old);
    assert(made.take(at) =~= original.take(at));
    assert(made.subrange(at, at + new.len()) =~= new);
    assert(made.skip(at + new.len()) =~= original.skip(at + old.len()));
}

/// An edit with a number edits the occurrence of that number, counted from
/// one: before it the old text stands exactly one fewer times. Without a
/// number the old text stands nowhere else. The place is given.
pub proof fn law_an_edit_goes_to_the_occurrence_it_names(args: ReplaceArgs, original: Seq<char>)
    -> (at: int)
    requires
        args.old@.len() > 0,
        !args.replace_all,
        failed_match(args, original) is None,
    ensures
        ({
            let old = sought(args, original);
            &&& text::occurs_at(original, old, at)
            &&& edited(args, original) == original.take(at) + written(args, original)
                + original.skip(at + old.len())
            &&& args.occurrence matches Some(n) ==> text::match_starts(
                original.take(at),
                old,
            ).len() == n - 1
            &&& args.occurrence == Some(1usize) ==> forall|p: int|
                p < at ==> !#[trigger] text::occurs_at(original, old, p)
            &&& args.occurrence is None ==> forall|p: int|
                #[trigger] text::occurs_at(original, old, p) ==> at <= p < at + old.len()
        }),
{
    let old = sought(args, original);
    law_an_edit_replaces_one_exact_occurrence(args, original);
    matching::lemma_normalized_is_written(args.old@, matching::line_ending(original));
    let at = matching::selection(occurrences(args, original), args.occurrence)->Ok_0;
    match args.occurrence {
        Some(n) => {
            matching::law_a_numbered_occurrence_has_that_many_before_it(original, old, n, at);
        },
        None => {
            matching::law_an_unnumbered_occurrence_is_the_only_one(original, old);
        },
    }
    at
}

/// Replacing all leaves nothing out: the leftmost occurrence gives way to the
/// new text, and the rest of the file is treated the same; a file without an
/// occurrence is refused.
pub proof fn law_replacing_all_replaces_each(args: ReplaceArgs, original: Seq<char>) -> (at: int)
    requires
        args.old@.len() > 0,
        args.replace_all,
    ensures
        ({
            let old = sought(args, original);
            let new = written(args, original);
            &&& failed_match(args, original) is Some <==> !text::contains(original, old)
            &&& failed_match(args, original) is None ==> {
                &&& text::occurs_at(original, old, at)
                &&& forall|p: int| p < at ==> !#[trigger] text::occurs_at(original, old, p)
                &&& edited(args, original) == original.take(at) + new + text::replaced(
                    original.skip(at + old.len()),
                    old,
                    new,
                )
            }
        }),
{
    let old = sought(args, original);
    let new = written(args, original);
    matching::lemma_normalized_is_written(args.old@, matching::line_ending(original));
    text::law_occurrences_are_apart(original, old);
    let starts = occurrences(args, original);
    if starts.len() == 0 {
        if text::contains(original, old) {
            let p = choose|p: int| text::occurs_at(original, old, p);
            let k = text::law_every_occurrence_is_listed_or_overlapped(original, old, p);
        }
        0
    } else {
        let at = starts[0];
        assert(text::occurs_at(original, old, at));
        assert forall|p: int| p < at implies !#[trigger] text::occurs_at(original, old, p) by {
            if text::occurs_at(original, old, p) {
                let k = text::law_every_occurrence_is_listed_or_overlapped(original, old, p);
                if k > 0 {
                    assert(starts[0] + old.len() <= starts[k]);
                }
            }
        }
        assert forall|k: int| 0 <= k < at implies #[trigger] original.subrange(k, k + old.len())
            != old by {
            assert(!text::occurs_at(original, old, k));
        }
        text::law_replacing_goes_from_left_to_right(original, old, new, at);
        at
    }
}

/// An edit fails to match exactly where the text does not occur, where the
/// number it names is beyond the occurrences, or where it names none and the
/// text occurs more than once.
pub proof fn law_when_an_edit_does_not_match(args: ReplaceArgs, original: Seq<char>)
    requires
        original.len() <= usize::MAX,
    ensures
        ({
            let n = occurrences(args, original).len();
            let failed = failed_match(args, original);
            &&& args.replace_all ==> (failed is Some <==> n == 0)
            &&& !args.replace_all && args.occurrence is Some ==> (failed is Some <==> !(1
                <= args.occurrence->0 <= n))
            &&& !args.replace_all && args.occurrence is None ==> (failed is Some <==> n != 1)
            &&& failed is Some && failed->0 is Ambiguous <==> !args.replace_all && args.occurrence
                is None && n > 1
        }),
{
}

/// A call that names no revision goes to any state of a file; one that names a
/// revision goes only to the file of that digest.
pub proof fn law_a_named_revision_is_the_digest(args: ReplaceArgs, original: Seq<char>)
    ensures
        is_current(args, original) <==> args.base_revision is None || args.base_revision->0@
            == crate::outside::sha256_hex(vstd::utf8::encode_utf8(original)),
{
}

/// What is sought and written is what the call says in the breaks of the
/// file, and the report says so exactly where that made a difference.
pub proof fn law_an_edit_says_whether_it_adapted(args: ReplaceArgs, original: Seq<char>)
    ensures
        !adapts(args, original) <==> sought(args, original) == args.old@ && written(args, original)
            == args.new@,
        sought(args, original) == matching::normalized(args.old@, matching::line_ending(original)),
        written(args, original) == matching::normalized(
            args.new@,
            matching::line_ending(original),
        ),
        args.replace_all ==> replacements(args, original) == occurrences(args, original).len(),
        !args.replace_all ==> replacements(args, original) == 1,
        occurrences(args, original) == text::match_starts(original, sought(args, original)),
{
}

/// The report of an edit says whether the text changed, its sizes in bytes and
/// the digest of what it is now.
pub proof fn law_a_report_says_what_changed(
    r: ReplaceReport,
    args: ReplaceArgs,
    relative: Seq<char>,
    original: Seq<char>,
)
    requires
        report_is(r, args, relative, original),
    ensures
        r.changed <==> edited(args, original) != original,
        r.path@ == relative,
        r.occurrences == occurrences(args, original).len(),
        r.bytes_before == vstd::utf8::encode_utf8(original).len(),
        r.bytes_after == vstd::utf8::encode_utf8(edited(args, original)).len(),
        r.revision@ == crate::outside::sha256_hex(vstd::utf8::encode_utf8(edited(args, original))),
        r.line_ending == matching::line_ending(original),
        r.line_endings_normalized == adapts(args, original),
{
    text::lemma_byte_len_is_utf8(original);
    text::lemma_byte_len_is_utf8(edited(args, original));
}

/// What a call comes to: a stale file is refused before anything is sought,
/// then a match that fails, then a result of more than four mebibytes; what is
/// left is written exactly where it changes something.
pub proof fn law_what_an_edit_comes_to(
    plan: ReplacePlan,
    args: ReplaceArgs,
    relative: Seq<char>,
    original: Seq<char>,
)
    requires
        plan_is(plan, args, relative, original),
    ensures
        ({
            let ok = is_current(args, original) && failed_match(args, original) is None;
            let fits = vstd::utf8::encode_utf8(edited(args, original)).len() <= 4_194_304;
            &&& plan is Refused <==> !ok
            &&& plan is Invalid <==> ok && !fits
            &&& plan is Unchanged <==> ok && fits && edited(args, original) == original
            &&& plan is Ready <==> ok && fits && edited(args, original) != original
            &&& plan is Ready ==> plan->Ready_0@ == edited(args, original)
        }),
{
    text::lemma_byte_len_is_utf8(edited(args, original));
}

/// A failed match counts the occurrences that there are.
pub proof fn law_a_failed_match_counts_the_occurrences(args: ReplaceArgs, original: Seq<char>)
    requires
        occurrences(args, original).len() <= usize::MAX,
    ensures
        failed_match(args, original) matches Some(e) ==> patch::match_count(e) == occurrences(
            args,
            original,
        ).len(),
{
}

/// A refused edit gives its reason: a stale file with no count, a failed match
/// with the count of what was found.
pub proof fn law_a_refusal_gives_its_reason(
    plan: ReplacePlan,
    args: ReplaceArgs,
    relative: Seq<char>,
    original: Seq<char>,
)
    requires
        plan_is(plan, args, relative, original),
    ensures
        plan is Refused && !is_current(args, original) ==> plan->Refused_0.class
            == ToolFailureClass::StaleRevision && plan->Refused_0.match_count == 0,
        plan is Refused && is_current(args, original) ==> {
            let e = failed_match(args, original)->0;
            &&& plan->Refused_0.class == if e is NoMatch {
                ToolFailureClass::NoExactMatch
            } else {
                ToolFailureClass::AmbiguousMatch
            }
            &&& plan->Refused_0.match_count == patch::match_count(e)
        },
        plan is Refused ==> plan->Refused_0.path@ == relative && plan->Refused_0.revision@
            == crate::outside::sha256_hex(vstd::utf8::encode_utf8(original)),
{
}

} // verus!
