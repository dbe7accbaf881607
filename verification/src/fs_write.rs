//! `fs.write` and `fs.mkdir`: what is checked before anything is staged, and
//! what is reported of it.
use crate::matching;
use crate::matching::LineEnding;
use crate::patch;
use crate::patch::MAX_FILE_BYTES;
use crate::text;
use vstd::prelude::*;

verus! {

/// Why a write is refused before it starts: it holds this many bytes.
#[derive(Clone, Copy, Debug, PartialEq, Eq, Structural)]
pub struct WriteTooLarge(pub usize);

impl WriteTooLarge {
    /// The text of the error.
    pub fn message(&self) -> (out: String)
        ensures
            out@ == "fs.write content is "@ + text::dec(self.0 as nat) + " bytes; the limit is "@
                + text::dec(MAX_FILE_BYTES as nat) + " bytes"@,
    {
        let mut out = "fs.write content is ".to_owned();
        text::push_dec(&mut out, self.0 as u64);
        out.append(" bytes; the limit is ");
        text::push_dec(&mut out, MAX_FILE_BYTES as u64);
        out.append(" bytes");
        out
    }
}

/// Checks the size of the content.
pub fn check_content(content: &str) -> (r: Result<(), WriteTooLarge>)
    ensures
        match r {
            Ok(()) => text::byte_len(content@) <= MAX_FILE_BYTES,
            Err(e) => text::byte_len(content@) > MAX_FILE_BYTES && e.0 == text::byte_len(content@),
        },
{
    let size: usize = text::bytes_in(content);
    if size > MAX_FILE_BYTES {
        return Err(WriteTooLarge(size));
    }
    Ok(())
}

/// What is reported of a staged write.
#[derive(Debug)]
pub struct WriteReport {
    pub summary: String,
    pub content: String,
    pub path: String,
    pub bytes: usize,
    pub revision: String,
    pub line_ending: LineEnding,
}

/// Reports a staged write.
pub fn write_report(relative: &str, content: &str) -> (r: WriteReport)
    ensures
        r.summary@ == "wrote "@ + text::dec(text::byte_len(content@)) + " bytes to "@ + relative@,
        r.content@ == "file updated: "@ + relative@,
        r.path@ == relative@,
        r.bytes == text::byte_len(content@),
        r.revision@ == patch::revision_of(content@),
        r.line_ending == matching::line_ending(content@),
{
    let bytes: usize = text::bytes_in(content);
    let mut summary = "wrote ".to_owned();
    text::push_dec(&mut summary, bytes as u64);
    summary.append(" bytes to ");
    summary.append(relative);
    let mut shown = "file updated: ".to_owned();
    shown.append(relative);
    WriteReport {
        summary,
        content: shown,
        path: relative.to_owned(),
        bytes,
        revision: patch::content_digest(content),
        line_ending: LineEnding::detect(content),
    }
}

/// What is reported of a directory that was asked for.
#[derive(Debug)]
pub struct MkdirReport {
    pub summary: String,
    pub content: String,
    pub path: String,
    pub created: bool,
    /// Only a directory that is created changes the workspace.
    pub mutates_workspace: bool,
}

/// What is reported of a directory that exists or does not.
pub open spec fn mkdir_is(r: MkdirReport, relative: Seq<char>, exists: bool) -> bool {
    &&& r.path@ == relative
    &&& r.created == !exists
    &&& r.mutates_workspace == !exists
    &&& exists ==> r.summary@ == "directory already exists: "@ + relative && r.content@
        == r.summary@
    &&& !exists ==> r.summary@ == "created directory "@ + relative && r.content@
        == "directory created: "@ + relative
}

/// Reports on a directory: an existing one succeeds without a change.
pub fn mkdir_report(relative: &str, exists: bool) -> (r: MkdirReport)
    ensures
        mkdir_is(r, relative@, exists),
{
    let (mut summary, mut content) = if exists {
        ("directory already exists: ".to_owned(), "directory already exists: ".to_owned())
    } else {
        ("created directory ".to_owned(), "directory created: ".to_owned())
    };
    summary.append(relative);
    content.append(relative);
    MkdirReport {
        summary,
        content,
        path: relative.to_owned(),
        created: !exists,
        mutates_workspace: !exists,
    }
}

/// The directories of a workspace once what a report announces is committed.
pub open spec fn committed(directories: Set<Seq<char>>, r: MkdirReport) -> Set<Seq<char>> {
    if r.created {
        directories.insert(r.path@)
    } else {
        directories
    }
}

/// A directory asked for twice is created once: the first report creates
/// exactly it, and once that is committed the second one finds it and
/// announces no change.
pub proof fn law_a_directory_is_created_once(
    directories: Set<Seq<char>>,
    relative: Seq<char>,
    first: MkdirReport,
    second: MkdirReport,
)
    requires
        !directories.contains(relative),
        mkdir_is(first, relative, directories.contains(relative)),
        mkdir_is(second, relative, committed(directories, first).contains(relative)),
    ensures
        first.created && first.mutates_workspace,
        committed(directories, first) == directories.insert(relative),
        !second.created && !second.mutates_workspace,
        committed(committed(directories, first), second) == committed(directories, first),
{
}

/// A report of a directory says whether it was there, and changes something
/// exactly where it was not.
pub proof fn law_a_report_says_whether_it_was_there(
    r: MkdirReport,
    relative: Seq<char>,
    exists: bool,
)
    requires
        mkdir_is(r, relative, exists),
    ensures
        r.path@ == relative,
        r.created <==> !exists,
        r.mutates_workspace <==> !exists,
        exists ==> r.summary@ == "directory already exists: "@ + relative && r.content@
            == "directory already exists: "@ + relative,
        !exists ==> r.summary@ == "created directory "@ + relative && r.content@
            == "directory created: "@ + relative,
{
}

} // verus!
