//! `edit.patch`: exact, revision-checked replace and insert hunks over
//! several files.
//!
//! A call is planned as a whole before anything is staged: one stale file or
//! one hunk whose anchor is not unique refuses all of it.
use crate::echo;
use crate::matching;
use crate::matching::{ExactMatchError, LineEnding};
use crate::outcome;
use crate::outcome::{Refusal, ToolFailureClass};
use crate::outside;
use crate::text;
use vstd::prelude::*;

verus! {

/// The largest file an edit reads or writes, in bytes.
pub const MAX_FILE_BYTES: usize = 4_194_304;

/// How many hunks one call may hold.
pub const MAX_HUNKS: usize = 64;

/// How many files one call may hold.
pub const MAX_FILES: usize = 16;

// ---------------------------------------------------------------------
// The request
// ---------------------------------------------------------------------

/// What a hunk does with its anchor.
#[derive(Clone, Copy, Debug, PartialEq, Eq, Structural)]
pub enum HunkOp {
    Replace,
    InsertBefore,
    InsertAfter,
}

/// One hunk: an exact anchor and the text that takes its place or stands
/// next to it.
#[derive(Debug)]
pub struct Hunk {
    pub op: HunkOp,
    pub old: String,
    pub new: String,
    /// Which occurrence of the anchor is meant, counted from one. Without it
    /// the anchor must be unique.
    pub occurrence: Option<usize>,
}

/// The hunks of one file, applied in order.
#[derive(Debug)]
pub struct FilePatch {
    pub path: String,
    /// The revision the hunks are based on.
    pub base_revision: Option<String>,
    pub hunks: Vec<Hunk>,
}

/// A call in either of its two shapes: `files`, or one file written on the
/// call itself.
#[derive(Debug)]
pub struct PatchArgs {
    pub files: Vec<FilePatch>,
    pub path: Option<String>,
    pub base_revision: Option<String>,
    pub hunks: Vec<Hunk>,
}

/// Why a call is invalid.
#[derive(Debug)]
pub enum PatchError {
    HunksWithFiles,
    AmbiguousRevision,
    ConflictingRevision,
    BothForms,
    NeitherForm,
    TooManyFiles,
    HunkCount(usize),
    NotUtf8(String),
    EmptyAnchor,
    ResultTooLarge,
}

/// The text of an invalid-request error.
pub open spec fn patch_error_text(e: PatchError) -> Seq<char> {
    match e {
        PatchError::HunksWithFiles =>
            "edit.patch: top-level `hunks` cannot be combined with `files`"@,
        PatchError::AmbiguousRevision =>
            "edit.patch: top-level `base_revision` is ambiguous for multiple files; pass one revision per files[] entry"@,
        PatchError::ConflictingRevision =>
            "edit.patch: conflicting top-level and files[0] base_revision values"@,
        PatchError::BothForms => "edit.patch: use either `files` or `path`+`hunks`, not both"@,
        PatchError::NeitherForm => "edit.patch requires either `files` or `path`+`hunks`"@,
        PatchError::TooManyFiles => "edit.patch is limited to "@ + text::dec(MAX_FILES as nat)
            + " files per call"@,
        PatchError::HunkCount(n) => "edit.patch requires between 1 and "@ + text::dec(
            MAX_HUNKS as nat,
        ) + " hunks per call (got "@ + text::dec(n as nat) + ")"@,
        PatchError::NotUtf8(path) => "edit.patch target is not UTF-8 text: "@ + path@,
        PatchError::EmptyAnchor => "edit.patch hunk `old` must not be empty"@,
        PatchError::ResultTooLarge => "edit.patch result exceeds the "@ + text::dec(
            MAX_FILE_BYTES as nat,
        ) + "-byte file limit"@,
    }
}

impl PatchError {
    /// The text of the error.
    pub fn message(&self) -> (out: String)
        ensures
            out@ == patch_error_text(*self),
    {
        match self {
            PatchError::HunksWithFiles => "edit.patch: top-level `hunks` cannot be combined with `files`".to_owned(),
            PatchError::AmbiguousRevision => "edit.patch: top-level `base_revision` is ambiguous for multiple files; pass one revision per files[] entry".to_owned(),
            PatchError::ConflictingRevision => "edit.patch: conflicting top-level and files[0] base_revision values".to_owned(),
            PatchError::BothForms => "edit.patch: use either `files` or `path`+`hunks`, not both".to_owned(),
            PatchError::NeitherForm => "edit.patch requires either `files` or `path`+`hunks`".to_owned(),
            PatchError::TooManyFiles => {
                let mut out = "edit.patch is limited to ".to_owned();
                text::push_dec(&mut out, MAX_FILES as u64);
                out.append(" files per call");
                out
            },
            PatchError::HunkCount(n) => {
                let mut out = "edit.patch requires between 1 and ".to_owned();
                text::push_dec(&mut out, MAX_HUNKS as u64);
                out.append(" hunks per call (got ");
                text::push_dec(&mut out, *n as u64);
                out.append(")");
                out
            },
            PatchError::NotUtf8(path) => {
                let mut out = "edit.patch target is not UTF-8 text: ".to_owned();
                out.append(path.as_str());
                out
            },
            PatchError::EmptyAnchor => "edit.patch hunk `old` must not be empty".to_owned(),
            PatchError::ResultTooLarge => {
                let mut out = "edit.patch result exceeds the ".to_owned();
                text::push_dec(&mut out, MAX_FILE_BYTES as u64);
                out.append("-byte file limit");
                out
            },
        }
    }
}

/// The files a call means. A revision on the call itself binds the one entry
/// of `files`; with several entries it would be ambiguous.
pub open spec fn resolution(args: PatchArgs) -> Result<Seq<FilePatch>, PatchError> {
    let files = args.files@;
    match args.path {
        Some(path) => if files.len() > 0 {
            Err(PatchError::BothForms)
        } else {
            Ok(seq![FilePatch { path, base_revision: args.base_revision, hunks: args.hunks }])
        },
        None => if files.len() == 0 {
            Err(PatchError::NeitherForm)
        } else if args.hunks@.len() > 0 {
            Err(PatchError::HunksWithFiles)
        } else {
            match args.base_revision {
                None => Ok(files),
                Some(top) => if files.len() > 1 {
                    Err(PatchError::AmbiguousRevision)
                } else {
                    match files[0].base_revision {
                        Some(own) => if own@ == top@ {
                            Ok(files)
                        } else {
                            Err(PatchError::ConflictingRevision)
                        },
                        None => Ok(
                            seq![
                                FilePatch {
                                    path: files[0].path,
                                    base_revision: Some(top),
                                    hunks: files[0].hunks,
                                },
                            ],
                        ),
                    }
                },
            }
        },
    }
}

/// Resolves the two shapes of a call without dropping a revision.
pub fn resolved_files(args: PatchArgs) -> (r: Result<Vec<FilePatch>, PatchError>)
    ensures
        match r {
            Ok(files) => resolution(args) == Ok::<Seq<FilePatch>, PatchError>(files@),
            Err(e) => resolution(args) == Err::<Seq<FilePatch>, PatchError>(e),
        },
{
    let PatchArgs { files, path, base_revision, hunks } = args;
    match path {
        Some(path) => {
            if files.len() > 0 {
                return Err(PatchError::BothForms);
            }
            let mut out: Vec<FilePatch> = Vec::new();
            out.push(FilePatch { path, base_revision, hunks });
            assert(out@ =~= seq![FilePatch { path, base_revision, hunks }]);
            Ok(out)
        },
        None => {
            if files.len() == 0 {
                return Err(PatchError::NeitherForm);
            }
            if hunks.len() > 0 {
                return Err(PatchError::HunksWithFiles);
            }
            match base_revision {
                None => Ok(files),
                Some(top) => {
                    if files.len() > 1 {
                        return Err(PatchError::AmbiguousRevision);
                    }
                    let conflict = match &files[0].base_revision {
                        Some(own) => Some(!text::same(own.as_str(), top.as_str())),
                        None => None,
                    };
                    match conflict {
                        Some(true) => Err(PatchError::ConflictingRevision),
                        Some(false) => Ok(files),
                        None => {
                            let mut files = files;
                            let ghost before = files@;
                            match files.pop() {
                                Some(only) => {
                                    let FilePatch { path, base_revision: _, hunks } = only;
                                    let mut out: Vec<FilePatch> = Vec::new();
                                    out.push(FilePatch { path, base_revision: Some(top), hunks });
                                    assert(out@ =~= seq![
                                        FilePatch {
                                            path: before[0].path,
                                            base_revision: Some(top),
                                            hunks: before[0].hunks,
                                        },
                                    ]);
                                    Ok(out)
                                },
                                None => Ok(files),
                            }
                        },
                    }
                },
            }
        },
    }
}

/// How many hunks the first `k` files hold.
pub open spec fn hunk_total(files: Seq<FilePatch>, k: int) -> nat
    decreases k,
{
    if k <= 0 {
        0
    } else {
        hunk_total(files, k - 1) + files[k - 1].hunks@.len()
    }
}

/// The number as a `usize`, the largest one where it does not fit.
pub open spec fn capped(n: nat) -> usize {
    if n <= usize::MAX {
        n as usize
    } else {
        usize::MAX
    }
}

/// Whether a call keeps to the limits on files and hunks.
pub open spec fn limits(files: Seq<FilePatch>) -> Result<(), PatchError> {
    let total = hunk_total(files, files.len() as int);
    if files.len() > MAX_FILES {
        Err(PatchError::TooManyFiles)
    } else if total == 0 || total > MAX_HUNKS {
        Err(PatchError::HunkCount(capped(total)))
    } else {
        Ok(())
    }
}

/// Checks the limits on files and hunks.
pub fn check_limits(files: &Vec<FilePatch>) -> (r: Result<(), PatchError>)
    ensures
        r == limits(files@),
{
    if files.len() > MAX_FILES {
        return Err(PatchError::TooManyFiles);
    }
    let mut total: usize = 0;
    let mut i: usize = 0;
    while i < files.len()
        invariant
            i <= files@.len(),
            total == capped(hunk_total(files@, i as int)),
        decreases files@.len() - i,
    {
        total = total.saturating_add(files[i].hunks.len());
        i = i + 1;
    }
    if total == 0 || total > MAX_HUNKS {
        return Err(PatchError::HunkCount(total));
    }
    Ok(())
}

// ---------------------------------------------------------------------
// One hunk
// ---------------------------------------------------------------------

/// Why a hunk was not applied.
#[derive(Clone, Copy, Debug, PartialEq, Eq, Structural)]
pub enum ApplyHunkError {
    Match(ExactMatchError),
    ResultTooLarge,
}

/// The anchor of a hunk in the line-ending style of the text it meets.
pub open spec fn hunk_old(text: Seq<char>, h: Hunk) -> Seq<char> {
    matching::normalized(h.old@, matching::line_ending(text))
}

/// The new text of a hunk in the style of the text it meets.
pub open spec fn hunk_new(text: Seq<char>, h: Hunk) -> Seq<char> {
    matching::normalized(h.new@, matching::line_ending(text))
}

/// Which occurrence of its anchor a hunk selects, counted in tokens.
pub open spec fn hunk_selection(text: Seq<char>, h: Hunk) -> Result<int, ExactMatchError> {
    matching::selection(matching::anchor_starts(text, hunk_old(text, h)), h.occurrence)
}

/// Where the selected anchor starts and ends.
pub open spec fn hunk_span(text: Seq<char>, h: Hunk, at: int) -> (int, int) {
    (matching::anchor_start(text, at), matching::anchor_end(text, hunk_old(text, h), at))
}

/// The text a hunk writes, its line breaks in the encoding of the anchor's.
pub open spec fn hunk_writes(text: Seq<char>, h: Hunk, at: int) -> Seq<char> {
    let (start, end) = hunk_span(text, h, at);
    matching::adapted(text.subrange(start, end), hunk_new(text, h), matching::line_ending(text))
}

/// The characters a hunk takes out: the anchor for a replacement, nothing
/// for an insertion before or behind it.
pub open spec fn hunk_cut(text: Seq<char>, h: Hunk, at: int) -> (int, int) {
    let (start, end) = hunk_span(text, h, at);
    match h.op {
        HunkOp::Replace => (start, end),
        HunkOp::InsertBefore => (start, start),
        HunkOp::InsertAfter => (end, end),
    }
}

/// The text a hunk makes of another.
pub open spec fn hunk_makes(text: Seq<char>, h: Hunk, at: int) -> Seq<char> {
    let (from, to) = hunk_cut(text, h, at);
    text.take(from) + hunk_writes(text, h, at) + text.skip(to)
}

/// Whether some line break of the hunk was written in another encoding.
pub open spec fn hunk_adapts(text: Seq<char>, h: Hunk, at: int) -> bool {
    let (start, end) = hunk_span(text, h, at);
    ||| hunk_old(text, h) != h.old@
    ||| hunk_new(text, h) != h.new@
    ||| text.subrange(start, end) != hunk_old(text, h)
    ||| hunk_writes(text, h, at) != hunk_new(text, h)
}

/// What applying one hunk gives: the new text and whether line breaks were
/// adapted, or why it was not applied.
pub open spec fn hunk_outcome(text: Seq<char>, h: Hunk) -> Result<
    (Seq<char>, bool),
    ApplyHunkError,
> {
    match hunk_selection(text, h) {
        Err(e) => Err(ApplyHunkError::Match(e)),
        Ok(at) => if text::byte_len(hunk_makes(text, h, at)) <= MAX_FILE_BYTES {
            Ok((hunk_makes(text, h, at), hunk_adapts(text, h, at)))
        } else {
            Err(ApplyHunkError::ResultTooLarge)
        },
    }
}

proof fn lemma_splice_bytes(text: Seq<char>, from: int, to: int, new: Seq<char>)
    requires
        0 <= from <= to <= text.len(),
    ensures
        text::byte_len(text.take(from) + new + text.skip(to)) == text::byte_len(text)
            - text::byte_len(text.subrange(from, to)) + text::byte_len(new),
        text::byte_len(text.subrange(from, to)) <= text::byte_len(text),
{
    let cut = text.subrange(from, to);
    assert(text =~= text.take(from) + cut + text.skip(to));
    text::lemma_byte_len_concat(text.take(from) + cut, text.skip(to));
    text::lemma_byte_len_concat(text.take(from), cut);
    text::lemma_byte_len_concat(text.take(from) + new, text.skip(to));
    text::lemma_byte_len_concat(text.take(from), new);
}

/// Applies one hunk to a text.
pub fn apply_hunk(text: &str, hunk: &Hunk) -> (r: Result<(String, bool), ApplyHunkError>)
    ensures
        match r {
            Ok((updated, adapted)) => hunk_outcome(text@, *hunk) == Ok::<
                (Seq<char>, bool),
                ApplyHunkError,
            >((updated@, adapted)),
            Err(e) => hunk_outcome(text@, *hunk) == Err::<(Seq<char>, bool), ApplyHunkError>(e),
        },
{
    let chars = text::chars_of(text);
    let shape = matching::detect_chars(&chars);
    let old = matching::normalize_edit_line_endings(hunk.old.as_str(), shape);
    let new = matching::normalize_edit_line_endings(hunk.new.as_str(), shape);
    let old_chars = matching::cow_chars(&old);
    let new_chars = matching::cow_chars(&new);
    let given_old = text::chars_of(hunk.old.as_str());
    let given_new = text::chars_of(hunk.new.as_str());
    let normalized = !text::same_chars(&old_chars, &given_old) || !text::same_chars(
        &new_chars,
        &given_new,
    );
    match matching::exact_edit_match(&chars, &old_chars, hunk.occurrence) {
        Err(e) => Err(ApplyHunkError::Match(e)),
        Ok(found) => {
            let written = matching::adapt_edit_replacement(
                &chars,
                found.start,
                found.end,
                &new_chars,
                shape,
            );
            let written_chars = text::chars_of(written.as_str());
            let region = text::string_of_range(&chars, found.start, found.end);
            let region_chars = text::chars_of(region.as_str());
            let adapted = normalized || !text::same_chars(&region_chars, &old_chars)
                || !text::same_chars(&written_chars, &new_chars);
            let (from, to): (usize, usize) = match hunk.op {
                HunkOp::Replace => (found.start, found.end),
                HunkOp::InsertBefore => (found.start, found.start),
                HunkOp::InsertAfter => (found.end, found.end),
            };
            let cut = text::string_of_range(&chars, from, to);
            let current: usize = text::bytes_in(text);
            let removed: usize = text::bytes_in(cut.as_str());
            let added: usize = text::bytes_in(written.as_str());
            proof {
                lemma_splice_bytes(text@, from as int, to as int, written@);
            }
            match matching::projected_replacement_len(current, removed, added, 1) {
                None => Err(ApplyHunkError::ResultTooLarge),
                Some(size) => {
                    if size > MAX_FILE_BYTES {
                        return Err(ApplyHunkError::ResultTooLarge);
                    }
                    let mut updated = text::string_of_range(&chars, 0, from);
                    updated.append(written.as_str());
                    text::push_range(&mut updated, &chars, to, chars.len());
                    proof {
                        assert(chars@.subrange(0, from as int) =~= chars@.take(from as int));
                        assert(chars@.subrange(to as int, chars@.len() as int) =~= chars@.skip(
                            to as int,
                        ));
                    }
                    Ok((updated, adapted))
                },
            }
        },
    }
}

// ---------------------------------------------------------------------
// One file
// ---------------------------------------------------------------------

/// A file as it was read for the call.
#[derive(Debug)]
pub struct Snapshot {
    /// The path below the workspace root.
    pub relative: String,
    /// The revision of `content`.
    pub revision: String,
    pub content: Vec<u8>,
}

/// A file whose hunks all apply.
#[derive(Debug)]
pub struct PlannedFile {
    pub relative: String,
    pub original: String,
    pub updated: String,
    pub hunks: usize,
    pub line_ending_before: LineEnding,
    pub line_ending_after: LineEnding,
    /// Whether some line break of a hunk was written in another encoding.
    pub line_endings_normalized: bool,
}

/// Why the hunks of a file do not apply. `text` is the file as the hunks
/// before the failing one left it.
pub enum HunksFailure {
    EmptyAnchor,
    TooLarge,
    NoAnchor { text: Seq<char>, hunk: int, error: ExactMatchError },
}

/// The text after the first `k` hunks, each applied to the result of the one
/// before, and whether any of them adapted line breaks.
pub open spec fn after_hunks(text: Seq<char>, hunks: Seq<Hunk>, k: int) -> Result<
    (Seq<char>, bool),
    HunksFailure,
>
    decreases k,
{
    if k <= 0 {
        Ok((text, false))
    } else {
        match after_hunks(text, hunks, k - 1) {
            Err(e) => Err(e),
            Ok((so_far, adapted)) => if hunks[k - 1].old@.len() == 0 {
                Err(HunksFailure::EmptyAnchor)
            } else {
                match hunk_outcome(so_far, hunks[k - 1]) {
                    Err(ApplyHunkError::ResultTooLarge) => Err(HunksFailure::TooLarge),
                    Err(ApplyHunkError::Match(error)) => Err(
                        HunksFailure::NoAnchor { text: so_far, hunk: k - 1, error },
                    ),
                    Ok((next, more)) => Ok((next, adapted || more)),
                }
            },
        }
    }
}

proof fn lemma_failure_stays(text: Seq<char>, hunks: Seq<Hunk>, a: int, b: int)
    requires
        a <= b,
        after_hunks(text, hunks, a) is Err,
    ensures
        after_hunks(text, hunks, b) == after_hunks(text, hunks, a),
    decreases b - a,
{
    if a < b {
        lemma_failure_stays(text, hunks, a, b - 1);
    }
}

/// What becomes of one file of a call.
pub enum FileVerdict {
    NotUtf8,
    Stale { text: Seq<char> },
    Failed(HunksFailure),
    Planned { text: Seq<char>, updated: Seq<char>, adapted: bool },
}

/// The verdict on one file: its bytes must be text, it must still be the
/// revision the hunks are based on, and every hunk must apply.
pub open spec fn verdict(file: FilePatch, snapshot: Snapshot) -> FileVerdict {
    let text = vstd::utf8::decode_utf8(snapshot.content@);
    if !vstd::utf8::valid_utf8(snapshot.content@) {
        FileVerdict::NotUtf8
    } else if file.base_revision matches Some(expected) && expected@ != snapshot.revision@ {
        FileVerdict::Stale { text }
    } else {
        match after_hunks(text, file.hunks@, file.hunks@.len() as int) {
            Err(e) => FileVerdict::Failed(e),
            Ok((updated, adapted)) => FileVerdict::Planned { text, updated, adapted },
        }
    }
}

/// The anchor a stale file is probed with: that of its first hunk.
pub open spec fn first_anchor(file: FilePatch) -> Seq<char> {
    if file.hunks@.len() > 0 {
        file.hunks@[0].old@
    } else {
        ""@
    }
}

pub open spec fn stale_message() -> Seq<char> {
    "stale_revision: file changed since fs.read; re-read and retry. Matching stays exact."@
}

/// The class of a failed match.
pub open spec fn match_class(e: ExactMatchError) -> ToolFailureClass {
    match e {
        ExactMatchError::Ambiguous { .. } => ToolFailureClass::AmbiguousMatch,
        ExactMatchError::NoMatch { .. } => ToolFailureClass::NoExactMatch,
    }
}

/// How many occurrences a failed match saw.
pub open spec fn match_count(e: ExactMatchError) -> usize {
    match e {
        ExactMatchError::Ambiguous { count } => count,
        ExactMatchError::NoMatch { count } => count,
    }
}

/// What a refused hunk says.
pub open spec fn match_message(e: ExactMatchError) -> Seq<char> {
    match e {
        ExactMatchError::Ambiguous { count } => "ambiguous_match: hunk `old` appears "@
            + text::dec(count as nat)
            + " times; include enough unchanged context to make the exact anchor unique"@,
        ExactMatchError::NoMatch { count } => "no_exact_match: hunk `old` appears "@ + text::dec(
            count as nat,
        ) + " times after target line-ending normalization. Matching stays exact."@,
    }
}

/// A planned file is what its verdict says.
pub open spec fn planned_is(p: PlannedFile, file: FilePatch, snapshot: Snapshot) -> bool {
    &&& verdict(file, snapshot) matches FileVerdict::Planned { text, updated, adapted }
    &&& p.relative@ == snapshot.relative@
    &&& p.original@ == text
    &&& p.updated@ == updated
    &&& p.hunks == file.hunks@.len()
    &&& p.line_ending_before == matching::line_ending(text)
    &&& p.line_ending_after == matching::line_ending(updated)
    &&& p.line_endings_normalized == adapted
}

/// An invalid file is reported as its verdict says.
pub open spec fn invalid_is(e: PatchError, file: FilePatch, snapshot: Snapshot) -> bool {
    match verdict(file, snapshot) {
        FileVerdict::NotUtf8 => e matches PatchError::NotUtf8(path) && path@
            == snapshot.relative@,
        FileVerdict::Failed(HunksFailure::EmptyAnchor) => e is EmptyAnchor,
        FileVerdict::Failed(HunksFailure::TooLarge) => e is ResultTooLarge,
        _ => false,
    }
}

/// A refused file is reported as its verdict says, with the current revision
/// and the regions its anchor might have meant.
pub open spec fn refused_is(r: Refusal, file: FilePatch, snapshot: Snapshot) -> bool {
    let shown = outside::json_string(snapshot.relative@);
    match verdict(file, snapshot) {
        FileVerdict::Stale { text } => outcome::refusal_is(
            r,
            "edit.patch"@,
            ToolFailureClass::StaleRevision,
            snapshot.relative@,
            shown,
            snapshot.revision@,
            text,
            first_anchor(file),
            stale_message(),
            0,
        ),
        FileVerdict::Failed(HunksFailure::NoAnchor { text, hunk, error }) => outcome::refusal_is(
            r,
            "edit.patch"@,
            match_class(error),
            snapshot.relative@,
            shown,
            snapshot.revision@,
            text,
            hunk_old(text, file.hunks@[hunk]),
            match_message(error),
            match_count(error) as nat,
        ),
        _ => false,
    }
}

/// How one file was planned.
pub enum FilePlan {
    Invalid(PatchError),
    Refused(Refusal),
    Planned(PlannedFile),
}

/// The words for a failed match.
fn explain_match(e: ExactMatchError) -> (out: String)
    ensures
        out@ == match_message(e),
{
    match e {
        ExactMatchError::Ambiguous { count } => {
            let mut out = "ambiguous_match: hunk `old` appears ".to_owned();
            text::push_dec(&mut out, count as u64);
            out.append(
                " times; include enough unchanged context to make the exact anchor unique",
            );
            out
        },
        ExactMatchError::NoMatch { count } => {
            let mut out = "no_exact_match: hunk `old` appears ".to_owned();
            text::push_dec(&mut out, count as u64);
            out.append(" times after target line-ending normalization. Matching stays exact.");
            out
        },
    }
}

/// Plans one file: nothing is changed, the result says what would be.
pub fn plan_file(file: &FilePatch, snapshot: &Snapshot) -> (r: FilePlan)
    ensures
        match r {
            FilePlan::Planned(p) => planned_is(p, *file, *snapshot),
            FilePlan::Invalid(e) => invalid_is(e, *file, *snapshot),
            FilePlan::Refused(refusal) => refused_is(refusal, *file, *snapshot),
        },
{
    let original = match outside::utf8_text(snapshot.content.as_slice()) {
        Some(t) => t,
        None => {
            return FilePlan::Invalid(PatchError::NotUtf8(snapshot.relative.clone()));
        },
    };
    let shown = outside::json_quoted(snapshot.relative.as_str());
    let stale = match &file.base_revision {
        Some(expected) => !text::same(expected.as_str(), snapshot.revision.as_str()),
        None => false,
    };
    if stale {
        let anchor = if file.hunks.len() > 0 {
            file.hunks[0].old.as_str()
        } else {
            ""
        };
        return FilePlan::Refused(
            outcome::refuse(
                "edit.patch",
                ToolFailureClass::StaleRevision,
                snapshot.relative.as_str(),
                shown.as_str(),
                snapshot.revision.as_str(),
                original,
                anchor,
                "stale_revision: file changed since fs.read; re-read and retry. Matching stays exact.",
                0,
            ),
        );
    }
    let mut updated = original.to_owned();
    let mut adapted = false;
    let mut i: usize = 0;
    let ghost n = file.hunks@.len() as int;
    while i < file.hunks.len()
        invariant
            i <= file.hunks@.len(),
            n == file.hunks@.len(),
            shown@ == outside::json_string(snapshot.relative@),
            original@ == vstd::utf8::decode_utf8(snapshot.content@),
            vstd::utf8::valid_utf8(snapshot.content@),
            !(file.base_revision matches Some(expected) && expected@ != snapshot.revision@),
            after_hunks(original@, file.hunks@, i as int) == Ok::<(Seq<char>, bool), HunksFailure>(
                (updated@, adapted),
            ),
        decreases file.hunks@.len() - i,
    {
        let hunk = &file.hunks[i];
        assert(*hunk == file.hunks@[i as int]);
        if hunk.old.as_str().is_empty() {
            proof {
                lemma_failure_stays(original@, file.hunks@, i + 1, n);
            }
            return FilePlan::Invalid(PatchError::EmptyAnchor);
        }
        match apply_hunk(updated.as_str(), hunk) {
            Ok((next, more)) => {
                updated = next;
                adapted = adapted || more;
            },
            Err(ApplyHunkError::ResultTooLarge) => {
                proof {
                    lemma_failure_stays(original@, file.hunks@, i + 1, n);
                }
                return FilePlan::Invalid(PatchError::ResultTooLarge);
            },
            Err(ApplyHunkError::Match(error)) => {
                proof {
                    lemma_failure_stays(original@, file.hunks@, i + 1, n);
                }
                let shape = LineEnding::detect(updated.as_str());
                let old = matching::normalize_edit_line_endings(hunk.old.as_str(), shape);
                let old_chars = matching::cow_chars(&old);
                let anchor = text::string_of(&old_chars);
                let message = explain_match(error);
                let (class, count): (ToolFailureClass, usize) = match error {
                    ExactMatchError::Ambiguous { count } => (
                        ToolFailureClass::AmbiguousMatch,
                        count,
                    ),
                    ExactMatchError::NoMatch { count } => (ToolFailureClass::NoExactMatch, count),
                };
                return FilePlan::Refused(
                    outcome::refuse(
                        "edit.patch",
                        class,
                        snapshot.relative.as_str(),
                        shown.as_str(),
                        snapshot.revision.as_str(),
                        updated.as_str(),
                        anchor.as_str(),
                        message.as_str(),
                        count,
                    ),
                );
            },
        }
        i = i + 1;
    }
    let before = LineEnding::detect(original);
    let after = LineEnding::detect(updated.as_str());
    FilePlan::Planned(
        PlannedFile {
            relative: snapshot.relative.clone(),
            original: original.to_owned(),
            updated,
            hunks: file.hunks.len(),
            line_ending_before: before,
            line_ending_after: after,
            line_endings_normalized: adapted,
        },
    )
}

// ---------------------------------------------------------------------
// The whole call
// ---------------------------------------------------------------------

/// The first file at or behind `i` that cannot be planned, or the number of
/// files where all can.
pub open spec fn first_unplanned(files: Seq<FilePatch>, snapshots: Seq<Snapshot>, i: int) -> int
    decreases files.len() - i,
{
    if i < 0 || i >= files.len() || i >= snapshots.len() {
        i
    } else if verdict(files[i], snapshots[i]) is Planned {
        first_unplanned(files, snapshots, i + 1)
    } else {
        i
    }
}

/// How a call was planned.
pub enum PatchPlan {
    Invalid(PatchError),
    Refused(Refusal),
    Ready(Vec<PlannedFile>),
}

/// The files of a call with one snapshot each: all planned, or the report on
/// the first that cannot be.
pub open spec fn plan_is(plan: PatchPlan, files: Seq<FilePatch>, snapshots: Seq<Snapshot>) -> bool {
    let bad = first_unplanned(files, snapshots, 0);
    match plan {
        PatchPlan::Ready(list) => {
            &&& bad == files.len()
            &&& list@.len() == files.len()
            &&& forall|i: int|
                0 <= i < list@.len() ==> planned_is(#[trigger] list@[i], files[i], snapshots[i])
        },
        PatchPlan::Invalid(e) => bad < files.len() && invalid_is(e, files[bad], snapshots[bad]),
        PatchPlan::Refused(r) => bad < files.len() && refused_is(r, files[bad], snapshots[bad]),
    }
}

/// Plans a call before anything is staged.
pub fn plan(files: &Vec<FilePatch>, snapshots: &Vec<Snapshot>) -> (r: PatchPlan)
    requires
        files@.len() == snapshots@.len(),
    ensures
        plan_is(r, files@, snapshots@),
{
    let mut planned: Vec<PlannedFile> = Vec::new();
    let mut i: usize = 0;
    while i < files.len()
        invariant
            i <= files@.len(),
            files@.len() == snapshots@.len(),
            planned@.len() == i,
            first_unplanned(files@, snapshots@, 0) == first_unplanned(files@, snapshots@, i as int),
            forall|j: int|
                0 <= j < i ==> planned_is(#[trigger] planned@[j], files@[j], snapshots@[j]),
        decreases files@.len() - i,
    {
        match plan_file(&files[i], &snapshots[i]) {
            FilePlan::Planned(p) => {
                planned.push(p);
            },
            FilePlan::Invalid(e) => {
                return PatchPlan::Invalid(e);
            },
            FilePlan::Refused(refusal) => {
                return PatchPlan::Refused(refusal);
            },
        }
        i = i + 1;
    }
    PatchPlan::Ready(planned)
}

// ---------------------------------------------------------------------
// Laws
// ---------------------------------------------------------------------

/// A file that moved on since it was read refuses the whole call.
pub proof fn law_a_stale_file_refuses_the_call(
    plan: PatchPlan,
    files: Seq<FilePatch>,
    snapshots: Seq<Snapshot>,
    i: int,
)
    requires
        files.len() == snapshots.len(),
        plan_is(plan, files, snapshots),
        0 <= i < files.len(),
        files[i].base_revision matches Some(expected) && expected@ != snapshots[i].revision@,
    ensures
        !(plan is Ready),
{
    if let PatchPlan::Ready(list) = plan {
        assert(planned_is(list@[i], files[i], snapshots[i]));
    }
}

/// A hunk changes nothing but the region it replaces: what stands before and
/// behind it stays, and the region is the anchor up to the encoding of its
/// line breaks.
pub proof fn law_a_hunk_is_a_splice(text: Seq<char>, h: Hunk, at: int)
    requires
        hunk_selection(text, h) == Ok::<int, ExactMatchError>(at),
    ensures
        ({
            let (start, end) = hunk_span(text, h, at);
            let (from, to) = hunk_cut(text, h, at);
            let made = hunk_makes(text, h, at);
            let written = hunk_writes(text, h, at).len();
            &&& 0 <= start <= from <= to <= end <= text.len()
            &&& matching::as_lf(text.subrange(start, end)) == matching::as_lf(hunk_old(text, h))
            &&& made.take(from) == text.take(from)
            &&& made.subrange(from, from + written) == hunk_writes(text, h, at)
            &&& made.skip(from + written) == text.skip(to)
        }),
{
    let old = hunk_old(text, h);
    let lf = matching::as_lf(text);
    text::lemma_matches_from(lf, matching::as_lf(old), 0);
    let starts = matching::anchor_starts(text, old);
    assert(exists|k: int| 0 <= k < starts.len() && starts[k] == at);
    assert(text::occurs_at(lf, matching::as_lf(old), at));
    let m = matching::as_lf(old).len() as int;
    matching::lemma_region(text, at, at + m);
    matching::lemma_physical(text, at);
    matching::lemma_physical(text, at + m);
    let (from, to) = hunk_cut(text, h, at);
    let written = hunk_writes(text, h, at);
    let made = hunk_makes(text, h, at);
    assert(made.take(from) =~= text.take(from));
    assert(made.subrange(from, from + written.len()) =~= written);
    assert(made.skip(from + written.len()) =~= text.skip(to));
}

/// An insertion takes nothing out: without the inserted text the result is
/// the text it was made from.
pub proof fn law_an_insertion_keeps_its_anchor(text: Seq<char>, h: Hunk, at: int)
    requires
        hunk_selection(text, h) == Ok::<int, ExactMatchError>(at),
        h.op != HunkOp::Replace,
    ensures
        ({
            let from = hunk_cut(text, h, at).0;
            let made = hunk_makes(text, h, at);
            made.take(from) + made.skip(from + hunk_writes(text, h, at).len()) == text
        }),
{
    law_a_hunk_is_a_splice(text, h, at);
    let from = hunk_cut(text, h, at).0;
    assert(text.take(from) + text.skip(from) =~= text);
}

/// What one applied hunk does, over the characters. `region` is the part of
/// the text that is its anchor, `written` what it writes: the anchor stands
/// there up to the encoding of its line breaks, the new text is written up to
/// the same, in place of the anchor or right before or behind it, and
/// everything else stays where it is.
pub open spec fn is_applied(
    before: Seq<char>,
    h: Hunk,
    after: Seq<char>,
    region: (int, int),
    written: Seq<char>,
) -> bool {
    let (start, end) = region;
    &&& 0 <= start <= end <= before.len()
    &&& !matching::has_lone_cr(h.old@) ==> matching::as_lf(before.subrange(start, end))
        == matching::as_lf(h.old@)
    &&& !matching::has_lone_cr(h.new@) ==> matching::as_lf(written) == matching::as_lf(h.new@)
    &&& match h.op {
        HunkOp::Replace => after == before.take(start) + written + before.skip(end),
        HunkOp::InsertBefore => after == before.take(start) + written + before.skip(start),
        HunkOp::InsertAfter => after == before.take(end) + written + before.skip(end),
    }
    &&& match h.occurrence {
        // Of the anchor's occurrences, one fewer than its number stand before.
        Some(n) => text::match_starts(
            matching::as_lf(before.take(start)),
            matching::as_lf(before.subrange(start, end)),
        ).len() == n - 1,
        // The anchor stands nowhere else.
        None => !text::contains(
            matching::as_lf(before.take(start)),
            matching::as_lf(before.subrange(start, end)),
        ) && !text::contains(
            matching::as_lf(before.skip(end)),
            matching::as_lf(before.subrange(start, end)),
        ),
    }
}

/// A hunk that is applied is applied at its anchor: the region and what is
/// written there are given.
pub proof fn law_a_hunk_is_applied_at_its_anchor(text: Seq<char>, h: Hunk) -> (r: (
    (int, int),
    Seq<char>,
))
    requires
        h.old@.len() > 0,
        hunk_outcome(text, h) is Ok,
    ensures
        is_applied(text, h, hunk_outcome(text, h)->Ok_0.0, r.0, r.1),
        vstd::utf8::encode_utf8(hunk_outcome(text, h)->Ok_0.0).len() <= MAX_FILE_BYTES,
{
    let at = hunk_selection(text, h)->Ok_0;
    let shape = matching::line_ending(text);
    let old = hunk_old(text, h);
    law_a_hunk_is_a_splice(text, h, at);
    matching::lemma_normalized_is_written(h.old@, shape);
    matching::lemma_lf_form_is_written(old);
    matching::law_an_anchor_is_exact_up_to_its_breaks(text, old, h.occurrence, at);
    if !matching::has_lone_cr(h.old@) {
        matching::law_normalizing_keeps_the_logical_text(h.old@, shape);
    }
    let (start, end) = hunk_span(text, h, at);
    let written = hunk_writes(text, h, at);
    if !matching::has_lone_cr(h.new@) {
        matching::law_normalizing_keeps_the_logical_text(h.new@, shape);
        matching::lemma_normalizing_adds_no_lone_cr(h.new@, shape);
        matching::law_adapting_keeps_the_logical_text(
            text.subrange(start, end),
            hunk_new(text, h),
            shape,
        );
    }
    text::lemma_byte_len_is_utf8(hunk_makes(text, h, at));
    ((start, end), written)
}

/// A hunk whose anchor does not stand in the text is never applied, nor one
/// without a number whose anchor stands there twice.
pub proof fn law_a_missing_or_ambiguous_anchor_is_refused(text: Seq<char>, h: Hunk)
    requires
        h.old@.len() > 0,
    ensures
        !text::contains(matching::as_lf(text), matching::as_lf(hunk_old(text, h)))
            ==> hunk_outcome(text, h) is Err,
        h.occurrence is None && (exists|p: int, q: int|
            p + matching::as_lf(hunk_old(text, h)).len() <= q && #[trigger] text::occurs_at(
                matching::as_lf(text),
                matching::as_lf(hunk_old(text, h)),
                p,
            ) && #[trigger] text::occurs_at(
                matching::as_lf(text),
                matching::as_lf(hunk_old(text, h)),
                q,
            )) ==> hunk_outcome(text, h) is Err,
        h.occurrence == Some(0usize) ==> hunk_outcome(text, h) is Err,
{
    let lf = matching::as_lf(text);
    let needle = matching::as_lf(hunk_old(text, h));
    matching::lemma_normalized_is_written(h.old@, matching::line_ending(text));
    matching::lemma_lf_form_is_written(hunk_old(text, h));
    text::law_occurrences_are_apart(lf, needle);
    let starts = text::match_starts(lf, needle);
    if !text::contains(lf, needle) && starts.len() > 0 {
        assert(text::occurs_at(lf, needle, starts[0]));
    }
    if h.occurrence is None {
        matching::law_an_unnumbered_occurrence_is_the_only_one(lf, needle);
    }
}

/// Whether texts are those that a file goes through while its hunks are
/// applied, one after the other: each hunk is applied to what the one before
/// it left, and none is passed over.
pub open spec fn is_application(stages: Seq<Seq<char>>, hunks: Seq<Hunk>) -> bool {
    &&& stages.len() == hunks.len() + 1
    &&& forall|k: int| 0 <= k < hunks.len() ==> #[trigger] applies(stages, hunks[k], k)
}

/// Whether hunk `h` leads from stage `k` to the next one.
pub open spec fn applies(stages: Seq<Seq<char>>, h: Hunk, k: int) -> bool {
    exists|region: (int, int), written: Seq<char>|
        #[trigger] is_applied(stages[k], h, stages[k + 1], region, written)
}

proof fn lemma_stages(text: Seq<char>, hunks: Seq<Hunk>, n: int) -> (stages: Seq<Seq<char>>)
    requires
        0 <= n <= hunks.len(),
        after_hunks(text, hunks, n) is Ok,
    ensures
        stages.len() == n + 1,
        stages[0] == text,
        stages[n] == after_hunks(text, hunks, n)->Ok_0.0,
        forall|k: int| 0 <= k < n ==> #[trigger] applies(stages, hunks[k], k),
    decreases n,
{
    if n == 0 {
        seq![text]
    } else {
        let before = lemma_stages(text, hunks, n - 1);
        let so_far = before[n - 1];
        let h = hunks[n - 1];
        let made = after_hunks(text, hunks, n)->Ok_0.0;
        let (region, written) = law_a_hunk_is_applied_at_its_anchor(so_far, h);
        let stages = before.push(made);
        assert forall|k: int| 0 <= k < n implies #[trigger] applies(stages, hunks[k], k) by {
            if k == n - 1 {
                assert(is_applied(stages[k], h, stages[k + 1], region, written));
            } else {
                assert(applies(before, hunks[k], k));
                let (r, w) = choose|r: (int, int), w: Seq<char>|
                    #[trigger] is_applied(before[k], hunks[k], before[k + 1], r, w);
                assert(is_applied(stages[k], hunks[k], stages[k + 1], r, w));
            }
        }
        stages
    }
}

/// A planned file has all its hunks applied, each to what the ones before it
/// left: the texts it goes through are given, from the file's content to the
/// planned one.
pub proof fn law_a_planned_file_has_every_hunk_applied(
    p: PlannedFile,
    file: FilePatch,
    snapshot: Snapshot,
) -> (stages: Seq<Seq<char>>)
    requires
        planned_is(p, file, snapshot),
    ensures
        is_application(stages, file.hunks@),
        stages[0] == p.original@,
        stages.last() == p.updated@,
        snapshot.content@ == vstd::utf8::encode_utf8(p.original@),
        p.hunks == file.hunks@.len(),
        file.base_revision matches Some(expected) ==> expected@ == snapshot.revision@,
{
    vstd::utf8::decode_utf8_encode_utf8(snapshot.content@);
    lemma_stages(p.original@, file.hunks@, file.hunks@.len() as int)
}

/// A call is ready only with every hunk of every file applied.
pub proof fn law_a_ready_call_has_every_hunk_applied(
    list: Vec<PlannedFile>,
    files: Seq<FilePatch>,
    snapshots: Seq<Snapshot>,
    i: int,
) -> (stages: Seq<Seq<char>>)
    requires
        files.len() == snapshots.len(),
        plan_is(PatchPlan::Ready(list), files, snapshots),
        0 <= i < files.len(),
    ensures
        list@.len() == files.len(),
        is_application(stages, files[i].hunks@),
        stages[0] == list@[i].original@,
        stages.last() == list@[i].updated@,
        snapshots[i].content@ == vstd::utf8::encode_utf8(list@[i].original@),
{
    assert(planned_is(list@[i], files[i], snapshots[i]));
    law_a_planned_file_has_every_hunk_applied(list@[i], files[i], snapshots[i])
}

/// Whether a text has breaks of one kind only, or none.
spec fn fits_style(s: Seq<char>, style: LineEnding) -> bool {
    matching::line_ending(s) == style || matching::line_ending(s) == LineEnding::NoBreaks
}

proof fn lemma_fits_style(s: Seq<char>, style: LineEnding)
    requires
        style == LineEnding::Lf || style == LineEnding::CrLf,
    ensures
        fits_style(s, style) == (!matching::has_lone_cr(s) && (if style == LineEnding::Lf {
            !matching::has_crlf(s)
        } else {
            !matching::has_lone_lf(s)
        })),
{
}

proof fn lemma_style_of_concat(a: Seq<char>, b: Seq<char>, style: LineEnding)
    requires
        style == LineEnding::Lf || style == LineEnding::CrLf,
        fits_style(a, style),
        fits_style(b, style),
    ensures
        fits_style(a + b, style),
{
    lemma_fits_style(a, style);
    lemma_fits_style(b, style);
    lemma_fits_style(a + b, style);
    let c = a + b;
    let n = a.len() as int;
    if n > 0 && a.last() == '\r' {
        assert(matching::lone_cr_at(a, n - 1));
    }
    assert forall|k: int|
        !matching::lone_cr_at(c, k) && (if style == LineEnding::Lf {
            !matching::crlf_at(c, k)
        } else {
            !matching::lone_lf_at(c, k)
        }) by {
        if 0 <= k < n {
            assert(c[k] == a[k]);
            assert(!matching::lone_cr_at(a, k));
            if k + 1 < n {
                assert(c[k + 1] == a[k + 1]);
            }
            assert(matching::crlf_at(a, k) == matching::crlf_at(c, k));
            if k > 0 {
                assert(matching::crlf_at(a, k - 1) == matching::crlf_at(c, k - 1));
            }
            if style == LineEnding::Lf {
                assert(!matching::crlf_at(a, k));
            } else {
                assert(!matching::lone_lf_at(a, k));
            }
        } else if n <= k < c.len() {
            assert(c[k] == b[k - n]);
            assert(!matching::lone_cr_at(b, k - n));
            assert(matching::crlf_at(b, k - n) == matching::crlf_at(c, k));
            if k > n {
                assert(matching::crlf_at(b, k - n - 1) == matching::crlf_at(c, k - 1));
            }
            if style == LineEnding::Lf {
                assert(!matching::crlf_at(b, k - n));
            } else {
                assert(!matching::lone_lf_at(b, k - n));
            }
        }
    }
}

proof fn lemma_style_of_prefix(s: Seq<char>, p: int, style: LineEnding)
    requires
        style == LineEnding::Lf || style == LineEnding::CrLf,
        fits_style(s, style),
        0 <= p <= s.len(),
        !matching::crlf_at(s, p - 1),
    ensures
        fits_style(s.take(p), style),
        fits_style(s.skip(p), style),
{
    lemma_fits_style(s, style);
    let a = s.take(p);
    let b = s.skip(p);
    lemma_fits_style(a, style);
    lemma_fits_style(b, style);
    assert forall|k: int|
        !matching::lone_cr_at(a, k) && (if style == LineEnding::Lf {
            !matching::crlf_at(a, k)
        } else {
            !matching::lone_lf_at(a, k)
        }) by {
        if 0 <= k < p {
            assert(!matching::lone_cr_at(s, k));
            assert(matching::crlf_at(a, k) == (matching::crlf_at(s, k) && k != p - 1));
            assert(!matching::crlf_at(s, k) || k != p - 1);
            if k > 0 {
                assert(matching::crlf_at(a, k - 1) == matching::crlf_at(s, k - 1));
            }
            if style == LineEnding::Lf {
                assert(!matching::crlf_at(s, k));
            } else {
                assert(!matching::lone_lf_at(s, k));
            }
        }
    }
    assert forall|k: int|
        !matching::lone_cr_at(b, k) && (if style == LineEnding::Lf {
            !matching::crlf_at(b, k)
        } else {
            !matching::lone_lf_at(b, k)
        }) by {
        if 0 <= k < b.len() {
            assert(!matching::lone_cr_at(s, p + k));
            assert(matching::crlf_at(b, k) == matching::crlf_at(s, p + k));
            if k > 0 {
                assert(matching::crlf_at(b, k - 1) == matching::crlf_at(s, p + k - 1));
            }
            if style == LineEnding::Lf {
                assert(!matching::crlf_at(s, p + k));
            } else {
                assert(!matching::lone_lf_at(s, p + k));
            }
        }
    }
}

/// A hunk never mixes line endings: in a file with one kind of line break,
/// new text without lone carriage returns leaves breaks of that kind only,
/// or none.
pub proof fn law_a_uniform_style_survives_a_hunk(text: Seq<char>, h: Hunk, at: int)
    requires
        hunk_selection(text, h) == Ok::<int, ExactMatchError>(at),
        matching::line_ending(text) == LineEnding::Lf || matching::line_ending(text)
            == LineEnding::CrLf,
        !matching::has_lone_cr(h.new@),
    ensures
        matching::line_ending(hunk_makes(text, h, at)) == matching::line_ending(text)
            || matching::line_ending(hunk_makes(text, h, at)) == LineEnding::NoBreaks,
{
    let style = matching::line_ending(text);
    law_a_hunk_is_a_splice(text, h, at);
    let old = hunk_old(text, h);
    let m = matching::as_lf(old).len() as int;
    text::lemma_matches_from(matching::as_lf(text), matching::as_lf(old), 0);
    let starts = matching::anchor_starts(text, old);
    assert(exists|k: int| 0 <= k < starts.len() && starts[k] == at);
    matching::lemma_physical(text, at);
    matching::lemma_physical(text, at + m);
    let (from, to) = hunk_cut(text, h, at);
    lemma_style_of_prefix(text, from, style);
    lemma_style_of_prefix(text, to, style);
    matching::law_uniform_target_keeps_its_style(h.new@, style);
    let written = hunk_writes(text, h, at);
    lemma_style_of_concat(text.take(from), written, style);
    lemma_style_of_concat(text.take(from) + written, text.skip(to), style);
}

// ---------------------------------------------------------------------
// The receipt
// ---------------------------------------------------------------------

/// The revision of a text: the digest of its bytes.
pub open spec fn revision_of(text: Seq<char>) -> Seq<char> {
    outside::sha256_hex(vstd::utf8::encode_utf8(text))
}

/// What a receipt says about one file.
#[derive(Debug)]
pub struct FileReport {
    pub path: String,
    pub changed: bool,
    pub hunks: usize,
    pub bytes_before: usize,
    pub bytes_after: usize,
    pub revision: String,
    pub line_ending_before: LineEnding,
    pub line_ending: LineEnding,
    pub line_endings_normalized: bool,
}

/// Whether a planned file changes at all.
pub open spec fn changes(p: PlannedFile) -> bool {
    p.updated@ != p.original@
}

/// The report on one planned file.
pub open spec fn report_is(r: FileReport, p: PlannedFile) -> bool {
    &&& r.path@ == p.relative@
    &&& r.changed == changes(p)
    &&& r.hunks == if changes(p) {
        p.hunks
    } else {
        0
    }
    &&& r.bytes_before == text::byte_len(p.original@)
    &&& r.bytes_after == text::byte_len(p.updated@)
    &&& r.revision@ == revision_of(p.updated@)
    &&& r.line_ending_before == p.line_ending_before
    &&& r.line_ending == p.line_ending_after
    &&& r.line_endings_normalized == p.line_endings_normalized
}

/// What a call that planned its files reports. Only with `changed` is there
/// anything to stage: the files whose report says so, in order.
#[derive(Debug)]
pub struct PatchReceipt {
    pub changed: bool,
    pub summary: String,
    pub content: String,
    pub files: Vec<FileReport>,
}

/// How many of the first `k` files change.
pub open spec fn changed_files(list: Seq<PlannedFile>, k: int) -> nat
    decreases k,
{
    if k <= 0 {
        0
    } else {
        changed_files(list, k - 1) + if changes(list[k - 1]) {
            1nat
        } else {
            0nat
        }
    }
}

/// How many hunks the changed ones of the first `k` files hold.
pub open spec fn hunks_applied(list: Seq<PlannedFile>, k: int) -> nat
    decreases k,
{
    if k <= 0 {
        0
    } else {
        hunks_applied(list, k - 1) + if changes(list[k - 1]) {
            list[k - 1].hunks as nat
        } else {
            0nat
        }
    }
}

/// The echo of one changed file under its heading. It has no cap of its own:
/// all files of a call share one.
pub open spec fn echo_block(p: PlannedFile, index: int) -> Seq<char> {
    "--- file["@ + text::dec(index as nat) + "] path="@ + outside::json_string(p.relative@)
        + "\n"@ + text::trim_end(
        echo::echo_of(p.original@, p.updated@, usize::MAX as int),
    )
}

/// The echoes of the changed ones of the first `k` files.
pub open spec fn echo_blocks(list: Seq<PlannedFile>, k: int) -> Seq<Seq<char>>
    decreases k,
{
    if k <= 0 {
        Seq::empty()
    } else if changes(list[k - 1]) {
        echo_blocks(list, k - 1).push(echo_block(list[k - 1], k - 1))
    } else {
        echo_blocks(list, k - 1)
    }
}

/// The new revision of each file, in the order of the call.
pub open spec fn revision_entries(list: Seq<PlannedFile>) -> Seq<Seq<char>> {
    Seq::new(
        list.len(),
        |i: int| text::dec(i as nat) + ":"@ + revision_of(list[i].updated@),
    )
}

pub open spec fn middle_marker() -> Seq<char> {
    "\n… (middle edit echoes omitted at global cap; use fs.read for full bodies)\n"@
}

/// The echoes of all files under one cap: the first file's head and the last
/// file's tail stay visible.
pub open spec fn receipt_echo(list: Seq<PlannedFile>) -> Seq<char> {
    echo::bounded_middle(
        text::join(echo_blocks(list, list.len() as int), "\n"@),
        echo::EDIT_ECHO_MAX_CHARS as int,
        middle_marker(),
    )
}

/// The receipt of a planned call. Every revision stands outside the capped
/// echo, so none is lost to it.
pub open spec fn receipt_is(r: PatchReceipt, list: Seq<PlannedFile>) -> bool {
    let n = list.len() as int;
    let hunks = text::dec(capped(hunks_applied(list, n)) as nat);
    let files = text::dec(changed_files(list, n));
    &&& r.changed == (changed_files(list, n) > 0)
    &&& r.files@.len() == n
    &&& forall|i: int| 0 <= i < n ==> report_is(#[trigger] r.files@[i], list[i])
    &&& !r.changed ==> r.summary@ == "no-op: hunks produced no change"@ && r.content@
        == "no change: all hunks matched already-applied content"@
    &&& r.changed ==> {
        &&& r.summary@ == "applied "@ + hunks + " hunk(s) across "@ + files + " file(s)"@
        &&& r.content@ == "patch applied: "@ + files + " file(s), "@ + hunks
            + " hunk(s)\nrevisions_in_files_order="@ + text::join(revision_entries(list), ","@)
            + "\n"@ + receipt_echo(list)
    }
}

/// A reported revision lets the next patch chain on it: a patch that passes
/// it, of a file that still holds what this one wrote, is not stale.
pub proof fn law_a_chained_patch_is_current(
    receipt: PatchReceipt,
    list: Seq<PlannedFile>,
    i: int,
    next: FilePatch,
    snapshot: Snapshot,
)
    requires
        receipt_is(receipt, list),
        0 <= i < list.len(),
        next.base_revision matches Some(expected) && expected@ == receipt.files@[i].revision@,
        snapshot.content@ == vstd::utf8::encode_utf8(list[i].updated@),
        snapshot.revision@ == outside::sha256_hex(snapshot.content@),
    ensures
        !(verdict(next, snapshot) is Stale),
        snapshot.revision@ == receipt.files@[i].revision@,
{
    assert(report_is(receipt.files@[i], list[i]));
}

/// The revision of a text.
pub fn content_digest(text: &str) -> (out: String)
    ensures
        out@ == revision_of(text@),
{
    outside::sha256(text.as_bytes())
}

/// Reports on one planned file.
fn report(p: &PlannedFile) -> (r: FileReport)
    ensures
        report_is(r, *p),
{
    let changed = !text::same(p.updated.as_str(), p.original.as_str());
    FileReport {
        path: p.relative.clone(),
        changed,
        hunks: if changed {
            p.hunks
        } else {
            0
        },
        bytes_before: text::bytes_in(p.original.as_str()),
        bytes_after: text::bytes_in(p.updated.as_str()),
        revision: content_digest(p.updated.as_str()),
        line_ending_before: p.line_ending_before,
        line_ending: p.line_ending_after,
        line_endings_normalized: p.line_endings_normalized,
    }
}

/// The echo of one changed file under its heading.
fn block(p: &PlannedFile, index: usize) -> (out: String)
    ensures
        out@ == echo_block(*p, index as int),
{
    let mut out = "--- file[".to_owned();
    text::push_dec(&mut out, index as u64);
    out.append("] path=");
    out.append(outside::json_quoted(p.relative.as_str()).as_str());
    out.append("\n");
    let shown = echo::edit_echo(p.original.as_str(), p.updated.as_str(), usize::MAX);
    out.append(text::trim_end_str(shown.as_str()).as_str());
    out
}

/// Builds the receipt of a planned call.
pub fn receipt(list: &Vec<PlannedFile>) -> (r: PatchReceipt)
    ensures
        receipt_is(r, list@),
{
    let mut files: Vec<FileReport> = Vec::new();
    let mut blocks: Vec<String> = Vec::new();
    let mut entries: Vec<String> = Vec::new();
    let mut changed: usize = 0;
    let mut hunks: usize = 0;
    let mut i: usize = 0;
    assert(text::views(blocks@) =~= echo_blocks(list@, 0));
    while i < list.len()
        invariant
            i <= list@.len(),
            files@.len() == i,
            forall|j: int| 0 <= j < i ==> report_is(#[trigger] files@[j], list@[j]),
            changed <= i,
            changed == changed_files(list@, i as int),
            hunks == capped(hunks_applied(list@, i as int)),
            text::views(blocks@) == echo_blocks(list@, i as int),
            text::views(entries@) == revision_entries(list@).take(i as int),
        decreases list@.len() - i,
    {
        let one = report(&list[i]);
        let mut entry = text::dec_string(i as u64);
        entry.append(":");
        entry.append(one.revision.as_str());
        proof {
            text::lemma_views_push(entries@, entry);
            assert(revision_entries(list@).take(i + 1) =~= revision_entries(list@).take(
                i as int,
            ).push(entry@));
        }
        entries.push(entry);
        if one.changed {
            changed = changed + 1;
            hunks = hunks.saturating_add(one.hunks);
            let shown = block(&list[i], i);
            proof {
                text::lemma_views_push(blocks@, shown);
            }
            blocks.push(shown);
        }
        files.push(one);
        i = i + 1;
    }
    assert(revision_entries(list@).take(i as int) =~= revision_entries(list@));
    if changed == 0 {
        return PatchReceipt {
            changed: false,
            summary: "no-op: hunks produced no change".to_owned(),
            content: "no change: all hunks matched already-applied content".to_owned(),
            files,
        };
    }
    let all = text::join_strings(&blocks, "\n");
    let echo = echo::bound_middle_with_marker(
        all.as_str(),
        echo::EDIT_ECHO_MAX_CHARS,
        "\n… (middle edit echoes omitted at global cap; use fs.read for full bodies)\n",
    );
    let mut summary = "applied ".to_owned();
    text::push_dec(&mut summary, hunks as u64);
    summary.append(" hunk(s) across ");
    text::push_dec(&mut summary, changed as u64);
    summary.append(" file(s)");
    let mut content = "patch applied: ".to_owned();
    text::push_dec(&mut content, changed as u64);
    content.append(" file(s), ");
    text::push_dec(&mut content, hunks as u64);
    content.append(" hunk(s)\nrevisions_in_files_order=");
    content.append(text::join_strings(&entries, ",").as_str());
    content.append("\n");
    content.append(echo.as_str());
    PatchReceipt { changed: true, summary, content, files }
}

// ---------------------------------------------------------------------
// Staging
// ---------------------------------------------------------------------

/// What the caller does next to stage a planned call.
#[derive(Clone, Copy, Debug, PartialEq, Eq, Structural)]
pub enum StageStep {
    /// Prepare the file with this index.
    Prepare(usize),
    /// Undo the preparation of the file with this index.
    RollBack(usize),
    /// Every changed file is prepared.
    Staged,
    /// A file could not be prepared, and every one before it was undone.
    Aborted,
}

/// The changed files of a call on their way to being staged: prepared in
/// order, or undone in reverse once one fails.
pub struct Staging {
    changed: Vec<usize>,
    prepared: usize,
    aborting: bool,
}

/// Which of the first `k` reports say that the file changes.
pub open spec fn changed_indices(files: Seq<FileReport>, k: int) -> Seq<usize>
    decreases k,
{
    if k <= 0 {
        Seq::empty()
    } else if files[k - 1].changed {
        changed_indices(files, k - 1).push((k - 1) as usize)
    } else {
        changed_indices(files, k - 1)
    }
}

impl Staging {
    pub closed spec fn wf(&self) -> bool {
        self.prepared <= self.changed@.len()
    }

    /// The files that change, in the order of the call.
    pub closed spec fn changed(&self) -> Seq<usize> {
        self.changed@
    }

    /// How many of them are prepared.
    pub closed spec fn prepared(&self) -> nat {
        self.prepared as nat
    }

    /// Whether one of them failed.
    pub closed spec fn aborting(&self) -> bool {
        self.aborting
    }

    /// The step that is due.
    pub open spec fn step(&self) -> StageStep {
        if self.aborting() {
            if self.prepared() > 0 {
                StageStep::RollBack(self.changed()[self.prepared() - 1])
            } else {
                StageStep::Aborted
            }
        } else if self.prepared() < self.changed().len() {
            StageStep::Prepare(self.changed()[self.prepared() as int])
        } else {
            StageStep::Staged
        }
    }

    /// Staging for a receipt, with nothing prepared.
    pub fn new(receipt: &PatchReceipt) -> (r: Staging)
        ensures
            r.wf(),
            r.changed() == changed_indices(receipt.files@, receipt.files@.len() as int),
            r.prepared() == 0,
            !r.aborting(),
    {
        let mut changed: Vec<usize> = Vec::new();
        let mut i: usize = 0;
        while i < receipt.files.len()
            invariant
                i <= receipt.files@.len(),
                changed@ == changed_indices(receipt.files@, i as int),
            decreases receipt.files@.len() - i,
        {
            if receipt.files[i].changed {
                changed.push(i);
            }
            i = i + 1;
        }
        Staging { changed, prepared: 0, aborting: false }
    }

    /// The step that is due.
    pub fn next(&self) -> (r: StageStep)
        requires
            self.wf(),
        ensures
            r == self.step(),
    {
        if self.aborting {
            if self.prepared > 0 {
                StageStep::RollBack(self.changed[self.prepared - 1])
            } else {
                StageStep::Aborted
            }
        } else if self.prepared < self.changed.len() {
            StageStep::Prepare(self.changed[self.prepared])
        } else {
            StageStep::Staged
        }
    }

    /// Records how the due step went. A failed preparation starts the
    /// abort; a failed undo does not keep the others from being tried.
    pub fn record(&mut self, ok: bool)
        requires
            old(self).wf(),
        ensures
            final(self).wf(),
            final(self).changed() == old(self).changed(),
            match old(self).step() {
                StageStep::Prepare(_) => {
                    &&& final(self).aborting() == !ok
                    &&& final(self).prepared() == old(self).prepared() + if ok {
                        1nat
                    } else {
                        0nat
                    }
                },
                StageStep::RollBack(_) => final(self).aborting() && final(self).prepared()
                    == old(self).prepared() - 1,
                StageStep::Staged | StageStep::Aborted => *final(self) == *old(self),
            },
    {
        if self.aborting {
            if self.prepared > 0 {
                self.prepared = self.prepared - 1;
            }
        } else if self.prepared < self.changed.len() {
            if ok {
                self.prepared = self.prepared + 1;
            } else {
                self.aborting = true;
            }
        }
    }
}

/// The steps an abort with `prepared` files left takes.
pub open spec fn abort_steps(changed: Seq<usize>, prepared: int) -> Seq<StageStep>
    decreases prepared,
{
    if prepared <= 0 {
        seq![StageStep::Aborted]
    } else {
        seq![StageStep::RollBack(changed[prepared - 1])] + abort_steps(changed, prepared - 1)
    }
}

/// An abort undoes every prepared file exactly once, the last one first, and
/// prepares none.
pub proof fn law_an_abort_undoes_every_prepared_file(staging: Staging)
    requires
        staging.wf(),
        staging.aborting(),
    ensures
        ({
            let n = staging.prepared() as int;
            let steps = abort_steps(staging.changed(), n);
            &&& steps[0] == staging.step()
            &&& steps.len() == n + 1
            &&& steps[n] == StageStep::Aborted
            &&& forall|i: int|
                0 <= i < n ==> #[trigger] steps[i] == StageStep::RollBack(
                    staging.changed()[n - 1 - i],
                )
        }),
{
    lemma_abort_steps(staging.changed(), staging.prepared() as int);
}

proof fn lemma_abort_steps(changed: Seq<usize>, prepared: int)
    requires
        0 <= prepared,
    ensures
        abort_steps(changed, prepared).len() == prepared + 1,
        abort_steps(changed, prepared)[prepared] == StageStep::Aborted,
        forall|i: int|
            0 <= i < prepared ==> #[trigger] abort_steps(changed, prepared)[i]
                == StageStep::RollBack(changed[prepared - 1 - i]),
    decreases prepared,
{
    if prepared > 0 {
        lemma_abort_steps(changed, prepared - 1);
    }
}

/// One more failure behind those already described, inside a byte limit.
pub open spec fn with_detail(target: Seq<char>, detail: Seq<char>, limit: int) -> Seq<char> {
    if text::byte_len(target) >= limit {
        target
    } else if target.len() == 0 {
        text::clip_bytes(detail, limit)
    } else if text::byte_len(target) + 2 > limit {
        target
    } else {
        let with_sep = target + "; "@;
        with_sep + text::clip_bytes(detail, limit - text::byte_len(with_sep))
    }
}

proof fn lemma_separator_bytes()
    ensures
        text::byte_len("; "@) == 2,
{
    reveal_strlit("; ");
    text::lemma_byte_len_push(Seq::empty(), ';');
    text::lemma_byte_len_push(seq![';'], ' ');
    assert(Seq::<char>::empty().push(';') =~= seq![';']);
    assert("; "@ =~= seq![';'].push(' '));
}

/// Appends one failure to a description of at most `limit` bytes.
pub fn append_bounded_rollback_detail(target: &mut String, detail: &str, limit: usize)
    ensures
        final(target)@ == with_detail(old(target)@, detail@, limit as int),
        text::byte_len(old(target)@) <= limit ==> text::byte_len(final(target)@) <= limit,
{
    let size: usize = text::bytes_in(target.as_str());
    if size >= limit {
        return;
    }
    proof {
        lemma_separator_bytes();
        text::lemma_byte_len_concat(target@, "; "@);
    }
    let mut room: usize = limit - size;
    if !target.as_str().is_empty() {
        if room < 2 {
            return;
        }
        target.append("; ");
        room = room - 2;
    } else {
        assert(target@ =~= Seq::<char>::empty());
    }
    let ghost before = target@;
    let more = text::clip_bytes_str(detail, room);
    target.append(more.as_str());
    proof {
        text::lemma_byte_len_concat(before, more@);
        if old(target)@.len() == 0 {
            assert(target@ =~= more@);
        }
    }
}

/// The failures of an abort, described one behind the other.
pub open spec fn rollback_detail(errors: Seq<Seq<char>>, limit: int) -> Seq<char>
    decreases errors.len(),
{
    if errors.len() == 0 {
        Seq::empty()
    } else {
        with_detail(rollback_detail(errors.drop_last(), limit), errors.last(), limit)
    }
}

/// A message cut to `limit` bytes.
pub fn bound_diagnostic(message: &str, limit: usize) -> (out: String)
    ensures
        out@ == text::clip_bytes(message@, limit as int),
        text::byte_len(out@) <= limit,
{
    text::clip_bytes_str(message, limit)
}

/// What is reported of the undo steps that failed, in the order they were
/// taken: nothing where none did.
pub fn rollback_report(errors: &Vec<String>, limit: usize) -> (r: Option<String>)
    ensures
        match r {
            None => errors@.len() == 0,
            Some(message) => {
                &&& errors@.len() > 0
                &&& message@ == text::clip_bytes(
                    text::dec(errors@.len())
                        + " staged edit rollback(s) could not be confirmed: "@ + rollback_detail(
                        text::views(errors@),
                        limit as int,
                    ),
                    limit as int,
                )
                &&& text::byte_len(message@) <= limit
            },
        },
{
    if errors.len() == 0 {
        return None;
    }
    let ghost all = text::views(errors@);
    let mut detail = String::new();
    let mut i: usize = 0;
    assert(all.take(0) =~= Seq::<Seq<char>>::empty());
    assert(text::byte_len(detail@) == 0);
    while i < errors.len()
        invariant
            i <= errors@.len(),
            all == text::views(errors@),
            detail@ == rollback_detail(all.take(i as int), limit as int),
            text::byte_len(detail@) <= limit,
        decreases errors@.len() - i,
    {
        append_bounded_rollback_detail(&mut detail, errors[i].as_str(), limit);
        assert(all.take(i + 1).drop_last() =~= all.take(i as int));
        i = i + 1;
    }
    assert(all.take(i as int) =~= all);
    let mut message = text::dec_string(errors.len() as u64);
    message.append(" staged edit rollback(s) could not be confirmed: ");
    message.append(detail.as_str());
    Some(bound_diagnostic(message.as_str(), limit))
}

// ---------------------------------------------------------------------
// Laws of a call
// ---------------------------------------------------------------------

/// A call names its files in one of two forms: one path with its hunks, or a
/// list; a revision beside a list goes to its only file, and must not differ
/// from the file's own.
pub proof fn law_a_call_has_one_of_two_forms(args: PatchArgs)
    ensures
        args.path is Some && args.files@.len() == 0 ==> resolution(args) == Ok::<_, PatchError>(
            seq![
                FilePatch {
                    path: args.path->0,
                    base_revision: args.base_revision,
                    hunks: args.hunks,
                },
            ],
        ),
        args.path is Some && args.files@.len() > 0 ==> resolution(args) == Err::<
            Seq<FilePatch>,
            _,
        >(PatchError::BothForms),
        args.path is None && args.files@.len() == 0 ==> resolution(args) == Err::<
            Seq<FilePatch>,
            _,
        >(PatchError::NeitherForm),
        args.path is None && args.files@.len() > 0 && args.hunks@.len() > 0 ==> resolution(args)
            == Err::<Seq<FilePatch>, _>(PatchError::HunksWithFiles),
        args.path is None && args.files@.len() > 0 && args.hunks@.len() == 0 && args.base_revision
            is None ==> resolution(args) == Ok::<_, PatchError>(args.files@),
        args.path is None && args.files@.len() > 1 && args.hunks@.len() == 0 && args.base_revision
            is Some ==> resolution(args) == Err::<Seq<FilePatch>, _>(PatchError::AmbiguousRevision),
        args.path is None && args.files@.len() == 1 && args.hunks@.len() == 0 && args.base_revision
            is Some && args.files@[0].base_revision is None ==> resolution(args) == Ok::<
            _,
            PatchError,
        >(
            seq![
                FilePatch {
                    path: args.files@[0].path,
                    base_revision: args.base_revision,
                    hunks: args.files@[0].hunks,
                },
            ],
        ),
        args.path is None && args.files@.len() == 1 && args.hunks@.len() == 0 && args.base_revision
            is Some && args.files@[0].base_revision is Some ==> {
            &&& args.files@[0].base_revision->0@ == args.base_revision->0@ ==> resolution(args)
                == Ok::<_, PatchError>(args.files@)
            &&& args.files@[0].base_revision->0@ != args.base_revision->0@ ==> resolution(args)
                == Err::<Seq<FilePatch>, _>(PatchError::ConflictingRevision)
        },
{
}

/// A call has at most sixteen files, and from one to sixty-four hunks, which
/// are those of all its files together.
pub proof fn law_a_call_has_at_most_sixteen_files(files: Seq<FilePatch>, k: int)
    requires
        0 <= k < files.len(),
    ensures
        limits(files) is Ok <==> files.len() <= 16 && 1 <= hunk_total(files, files.len() as int)
            <= 64,
        files.len() > 16 ==> limits(files) == Err::<(), _>(PatchError::TooManyFiles),
        hunk_total(files, 0) == 0,
        hunk_total(files, k + 1) == hunk_total(files, k) + files[k].hunks@.len(),
        MAX_FILE_BYTES == 4 * 1024 * 1024,
        MAX_FILES == 16,
        MAX_HUNKS == 64,
{
}

/// A hunk counts as adapted exactly where something of it differs from what
/// the call says: the region from `old`, or the written text from `new`.
pub proof fn law_an_unadapted_hunk_is_taken_literally(text: Seq<char>, h: Hunk, at: int)
    ensures
        ({
            let (start, end) = hunk_span(text, h, at);
            !hunk_adapts(text, h, at) ==> text.subrange(start, end) == h.old@ && hunk_writes(
                text,
                h,
                at,
            ) == h.new@
        }),
        ({
            let (start, end) = hunk_span(text, h, at);
            hunk_adapts(text, h, at) ==> text.subrange(start, end) != h.old@ || hunk_writes(
                text,
                h,
                at,
            ) != h.new@ || hunk_old(text, h) != h.old@ || hunk_new(text, h) != h.new@
        }),
{
}

/// A hunk's result is refused exactly where it is larger than four mebibytes.
pub proof fn law_a_result_is_bounded(text: Seq<char>, h: Hunk)
    ensures
        hunk_outcome(text, h) matches Ok((after, _)) ==> vstd::utf8::encode_utf8(after).len()
            <= 4_194_304,
        hunk_selection(text, h) matches Ok(at) ==> (vstd::utf8::encode_utf8(
            hunk_makes(text, h, at),
        ).len() <= 4_194_304 <==> hunk_outcome(text, h) is Ok),
        hunk_selection(text, h) matches Ok(at) ==> (hunk_outcome(text, h) is Err ==> hunk_outcome(
            text,
            h,
        ) == Err::<(Seq<char>, bool), _>(ApplyHunkError::ResultTooLarge)),
{
    if let Ok(at) = hunk_selection(text, h) {
        text::lemma_byte_len_is_utf8(hunk_makes(text, h, at));
    }
}

/// Where a file's hunks fail for want of an anchor, the hunk that is named is
/// the first that fails, and the text that is shown is what the hunks before
/// it made.
pub proof fn law_the_first_failing_hunk_is_named(text: Seq<char>, hunks: Seq<Hunk>, k: int)
    requires
        0 <= k <= hunks.len(),
    ensures
        after_hunks(text, hunks, k) matches Err(HunksFailure::NoAnchor { text: seen, hunk, error })
            ==> {
            &&& 0 <= hunk < k
            &&& after_hunks(text, hunks, hunk) matches Ok((before, _)) && before == seen
            &&& hunk_selection(seen, hunks[hunk]) == Err::<int, ExactMatchError>(error)
        },
        after_hunks(text, hunks, k) matches Err(HunksFailure::EmptyAnchor) ==> exists|j: int|
            0 <= j < k && (#[trigger] hunks[j]).old@.len() == 0,
    decreases k,
{
    if k > 0 {
        law_the_first_failing_hunk_is_named(text, hunks, k - 1);
        if after_hunks(text, hunks, k - 1) is Ok && hunks[k - 1].old@.len() == 0 {
            assert(hunks[k - 1].old@.len() == 0);
        }
    }
}

/// A file is planned exactly where it is text, the call does not name another
/// revision of it, and its hunks apply one after the other.
pub proof fn law_when_a_file_is_planned(file: FilePatch, snapshot: Snapshot)
    ensures
        ({
            let text = vstd::utf8::decode_utf8(snapshot.content@);
            let current = file.base_revision is None || file.base_revision->0@
                == snapshot.revision@;
            let v = verdict(file, snapshot);
            &&& v is NotUtf8 <==> !vstd::utf8::valid_utf8(snapshot.content@)
            &&& v is Stale <==> vstd::utf8::valid_utf8(snapshot.content@) && !current
            &&& v is Planned <==> vstd::utf8::valid_utf8(snapshot.content@) && current
                && after_hunks(text, file.hunks@, file.hunks@.len() as int) is Ok
            &&& v is Planned ==> v->Planned_text == text && v->updated == (after_hunks(
                text,
                file.hunks@,
                file.hunks@.len() as int,
            )->Ok_0).0
        }),
{
}

/// A call is planned as a whole: the first file that is not planned, where
/// there is one, decides. `i` is that file.
pub proof fn law_the_first_unplanned_file_decides(
    files: Seq<FilePatch>,
    snapshots: Seq<Snapshot>,
    i: int,
)
    requires
        files.len() == snapshots.len(),
        0 <= i <= files.len(),
        forall|k: int| 0 <= k < i ==> verdict(#[trigger] files[k], snapshots[k]) is Planned,
        i < files.len() ==> !(verdict(files[i], snapshots[i]) is Planned),
    ensures
        first_unplanned(files, snapshots, 0) == i,
{
    lemma_first_unplanned_is(files, snapshots, 0, i);
}

proof fn lemma_first_unplanned_is(
    files: Seq<FilePatch>,
    snapshots: Seq<Snapshot>,
    from: int,
    i: int,
)
    requires
        files.len() == snapshots.len(),
        0 <= from <= i <= files.len(),
        forall|k: int| from <= k < i ==> verdict(#[trigger] files[k], snapshots[k]) is Planned,
        i < files.len() ==> !(verdict(files[i], snapshots[i]) is Planned),
    ensures
        first_unplanned(files, snapshots, from) == i,
    decreases i - from,
{
    if from < i {
        assert(verdict(files[from], snapshots[from]) is Planned);
        lemma_first_unplanned_is(files, snapshots, from + 1, i);
    }
}

/// The report of a file says whether its text changed, how large it was and
/// is, and the digest of what it holds now; an unchanged file counts no hunks.
pub proof fn law_a_report_says_what_changed(r: FileReport, p: PlannedFile)
    requires
        report_is(r, p),
    ensures
        r.path@ == p.relative@,
        r.changed <==> p.updated@ != p.original@,
        r.changed ==> r.hunks == p.hunks,
        !r.changed ==> r.hunks == 0,
        r.bytes_before == vstd::utf8::encode_utf8(p.original@).len(),
        r.bytes_after == vstd::utf8::encode_utf8(p.updated@).len(),
        r.revision@ == outside::sha256_hex(vstd::utf8::encode_utf8(p.updated@)),
        r.line_ending_before == p.line_ending_before,
        r.line_ending == p.line_ending_after,
        r.line_endings_normalized == p.line_endings_normalized,
{
    text::lemma_byte_len_is_utf8(p.original@);
    text::lemma_byte_len_is_utf8(p.updated@);
}

/// A receipt counts the files that changed and their hunks, and shows an echo
/// of each of them under its place in the call, in order.
pub proof fn law_a_receipt_counts_what_changed(list: Seq<PlannedFile>, k: int)
    requires
        0 <= k < list.len(),
    ensures
        changed_files(list, 0) == 0 && hunks_applied(list, 0) == 0 && echo_blocks(list, 0).len()
            == 0,
        list[k].updated@ != list[k].original@ ==> {
            &&& changed_files(list, k + 1) == changed_files(list, k) + 1
            &&& hunks_applied(list, k + 1) == hunks_applied(list, k) + list[k].hunks
            &&& echo_blocks(list, k + 1) == echo_blocks(list, k).push(
                "--- file["@ + text::dec(k as nat) + "] path="@ + outside::json_string(
                    list[k].relative@,
                ) + "\n"@ + text::trim_end(
                    echo::echo_of(list[k].original@, list[k].updated@, usize::MAX as int),
                ),
            )
        },
        list[k].updated@ == list[k].original@ ==> {
            &&& changed_files(list, k + 1) == changed_files(list, k)
            &&& hunks_applied(list, k + 1) == hunks_applied(list, k)
            &&& echo_blocks(list, k + 1) == echo_blocks(list, k)
        },
        revision_entries(list)[k] == text::dec(k as nat) + ":"@ + outside::sha256_hex(
            vstd::utf8::encode_utf8(list[k].updated@),
        ),
        revision_entries(list).len() == list.len(),
{
}

/// What is staged is exactly the files that changed, in order.
pub proof fn law_exactly_the_changed_files_are_staged(files: Seq<FileReport>, k: int, i: int)
    requires
        0 <= k <= files.len() <= usize::MAX,
    ensures
        0 <= i < k ==> (changed_indices(files, k).contains(i as usize) <==> files[i].changed),
        forall|a: int|
            0 <= a < changed_indices(files, k).len() ==> (#[trigger] changed_indices(files, k)[a])
                < k,
        forall|a: int, b: int|
            0 <= a < b < changed_indices(files, k).len() ==> changed_indices(files, k)[a]
                < changed_indices(files, k)[b],
    decreases k,
{
    if k > 0 {
        law_exactly_the_changed_files_are_staged(files, k - 1, i);
        let before = changed_indices(files, k - 1);
        let all = changed_indices(files, k);
        if 0 <= i < k {
            if all.contains(i as usize) {
                let w = choose|w: int| 0 <= w < all.len() && all[w] == i as usize;
                if w < before.len() {
                    assert(before[w] == i as usize);
                }
            }
            if files[i].changed {
                if i < k - 1 {
                    let w = choose|w: int| 0 <= w < before.len() && before[w] == i as usize;
                    assert(all[w] == i as usize);
                } else {
                    assert(all[before.len() as int] == i as usize);
                }
            }
        }
    }
}

/// What is kept of several failures never exceeds its limit of bytes, keeps
/// what was there, and is separated from it.
pub proof fn law_a_detail_stays_within_its_limit(target: Seq<char>, detail: Seq<char>, limit: int)
    requires
        0 <= limit,
        vstd::utf8::encode_utf8(target).len() <= limit,
    ensures
        vstd::utf8::encode_utf8(with_detail(target, detail, limit)).len() <= limit,
        target.is_prefix_of(with_detail(target, detail, limit)),
        target.len() == 0 && vstd::utf8::encode_utf8(detail).len() <= limit ==> with_detail(
            target,
            detail,
            limit,
        ) == detail,
        target.len() > 0 && vstd::utf8::encode_utf8(target).len() + 2 + vstd::utf8::encode_utf8(
            detail,
        ).len() <= limit && detail.len() > 0 ==> with_detail(target, detail, limit) == target
            + "; "@ + detail,
{
    text::lemma_byte_len_is_utf8(target);
    text::lemma_byte_len_is_utf8(detail);
    let out = with_detail(target, detail, limit);
    text::lemma_byte_len_is_utf8(out);
    reveal_strlit("; ");
    let sep = "; "@;
    assert(text::byte_len(sep) == 2) by {
        text::lemma_byte_len_is_utf8(sep);
        assert(sep =~= seq![';'].push(' '));
        text::lemma_byte_len_push(seq![';'], ' ');
        assert(seq![';'] =~= Seq::<char>::empty().push(';'));
        text::lemma_byte_len_push(Seq::<char>::empty(), ';');
    }
    text::lemma_byte_len_concat(target, sep);
    let with_sep = target + sep;
    if text::byte_len(target) < limit && target.len() == 0 {
        text::law_clipping_by_bytes_keeps_the_longest_beginning(
            detail,
            limit,
            detail.len() as int,
        );
        text::lemma_byte_len_is_utf8(text::clip_bytes(detail, limit));
        assert(detail.take(detail.len() as int) =~= detail);
        assert(target =~= out.subrange(0, 0));
    } else if text::byte_len(target) < limit && text::byte_len(target) + 2 <= limit {
        let left = limit - text::byte_len(with_sep);
        let kept = text::clip_bytes(detail, left);
        text::law_clipping_by_bytes_keeps_the_longest_beginning(detail, left, detail.len() as int);
        text::lemma_byte_len_is_utf8(kept);
        text::lemma_byte_len_concat(with_sep, kept);
        assert(detail.take(detail.len() as int) =~= detail);
        assert(target =~= out.subrange(0, target.len() as int));
    } else {
        assert(target =~= out.subrange(0, target.len() as int));
    }
}

/// A failed match is classified by what was found: nothing, or too much; and
/// the refusal gives the count.
pub proof fn law_a_failed_match_is_told_by_its_count(count: usize)
    ensures
        match_class(ExactMatchError::NoMatch { count }) == ToolFailureClass::NoExactMatch,
        match_class(ExactMatchError::Ambiguous { count }) == ToolFailureClass::AmbiguousMatch,
        match_count(ExactMatchError::NoMatch { count }) == count,
        match_count(ExactMatchError::Ambiguous { count }) == count,
{
}

/// A stale file is shown around the anchor of its first hunk.
pub proof fn law_a_stale_file_is_shown_at_its_first_anchor(file: FilePatch)
    ensures
        file.hunks@.len() > 0 ==> first_anchor(file) == file.hunks@[0].old@,
        file.hunks@.len() == 0 ==> first_anchor(file).len() == 0,
{
    reveal_strlit("");
}

/// A refused file is refused for what was found: a stale one with no count and
/// the message that says so, one whose anchor fails with the count of what was
/// found, around the anchor of the hunk that failed.
pub proof fn law_a_refusal_gives_its_reason(r: Refusal, file: FilePatch, snapshot: Snapshot)
    requires
        refused_is(r, file, snapshot),
    ensures
        r.path@ == snapshot.relative@ && r.revision@ == snapshot.revision@,
        verdict(file, snapshot) is Stale ==> r.class == ToolFailureClass::StaleRevision
            && r.match_count == 0 && r.summary@ == "edit.patch refused: stale_revision"@,
        verdict(file, snapshot) matches FileVerdict::Failed(
            HunksFailure::NoAnchor { text, hunk, error },
        ) ==> {
            &&& error is NoMatch ==> r.class == ToolFailureClass::NoExactMatch && r.match_count
                == error->NoMatch_count
            &&& error is Ambiguous ==> r.class == ToolFailureClass::AmbiguousMatch && r.match_count
                == error->Ambiguous_count
            &&& r.candidates@.len() == echo::candidates(
                text,
                hunk_old(text, file.hunks@[hunk]),
            ).len()
        },
{
    reveal_strlit("edit.patch");
    reveal_strlit(" refused: ");
    reveal_strlit("stale_revision");
    reveal_strlit("edit.patch refused: stale_revision");
    assert("edit.patch"@ + " refused: "@ + "stale_revision"@
        =~= "edit.patch refused: stale_revision"@);
    assert(text::views(r.candidates@).len() == r.candidates@.len());
}

/// A number of any size is reported as it is where it fits, and as the largest
/// that fits where it does not.
pub proof fn law_a_count_is_capped_at_the_largest(n: nat)
    ensures
        n <= usize::MAX ==> capped(n) == n,
        n > usize::MAX ==> capped(n) == usize::MAX,
{
}

/// A call is invalid for a file only where the file is no text, an anchor is
/// empty or a result is too large, and it says which.
pub proof fn law_an_invalid_call_gives_its_reason(
    e: PatchError,
    file: FilePatch,
    snapshot: Snapshot,
)
    requires
        invalid_is(e, file, snapshot),
    ensures
        e is NotUtf8 || e is EmptyAnchor || e is ResultTooLarge,
        e is NotUtf8 <==> verdict(file, snapshot) is NotUtf8,
        e is EmptyAnchor <==> verdict(file, snapshot) == FileVerdict::Failed(
            HunksFailure::EmptyAnchor,
        ),
        e is ResultTooLarge <==> verdict(file, snapshot) == FileVerdict::Failed(
            HunksFailure::TooLarge,
        ),
{
}

/// A further failure is added exactly where its separator still fits behind
/// those before it.
pub proof fn law_a_detail_is_added_while_its_separator_fits(
    target: Seq<char>,
    detail: Seq<char>,
    limit: int,
)
    requires
        target.len() > 0,
    ensures
        vstd::utf8::encode_utf8(target).len() + 2 > limit ==> with_detail(target, detail, limit)
            == target,
        vstd::utf8::encode_utf8(target).len() + 2 <= limit ==> (target + "; "@).is_prefix_of(
            with_detail(target, detail, limit),
        ),
{
    text::lemma_byte_len_is_utf8(target);
    let start = target + "; "@;
    let out = with_detail(target, detail, limit);
    if text::byte_len(target) + 2 <= limit {
        assert(start =~= out.subrange(0, start.len() as int));
    }
}

} // verus!
