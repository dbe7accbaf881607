//! `git.status` and `git.diff`, read-only.
//!
//! Git runs against a private directory whose configuration holds a closed
//! set of scalar settings, so nothing the repository configures can run.
//! Here is what that directory holds, how the repository's answers are
//! checked, and what is made of git's output.
use crate::outside;
use crate::text;
use crate::view;
use vstd::prelude::*;

verus! {

/// How long a call may take, in milliseconds.
pub const GIT_TIMEOUT_MS: u64 = 20_000;

/// How much of the output is shown, in characters.
pub const MODEL_OUTPUT_CHARS: usize = 12_000;

/// The largest artifact, in bytes.
pub const MAX_ARTIFACT_BYTES: usize = 8_388_608;

/// How much of one stream is kept, in bytes.
pub const MAX_PIPE_BYTES: usize = 4_194_304;

/// How much repository metadata is accepted, in bytes.
pub const MAX_DISCOVERY_BYTES: usize = 65_536;

/// The largest shared index that is copied, in bytes.
pub const MAX_SHARED_INDEX_BYTES: u64 = 67_108_864;

/// Why a call failed.
#[derive(Debug)]
pub enum GitError {
    DiscoveryTooLarge,
    DiscoveryFailed(String),
    DiscoveryNotUtf8,
    UnsupportedLayout,
    AmbiguousPaths,
    InvalidHead,
    UnsupportedSetting,
}

/// The text of a failure.
pub open spec fn git_error_text(e: GitError) -> Seq<char> {
    match e {
        GitError::DiscoveryTooLarge => "git repository metadata exceeds the discovery limit"@,
        GitError::DiscoveryFailed(detail) => "git repository discovery failed: "@ + detail@,
        GitError::DiscoveryNotUtf8 => "git repository metadata is not UTF-8"@,
        GitError::UnsupportedLayout => "unsupported git repository layout"@,
        GitError::AmbiguousPaths => "ambiguous git repository paths"@,
        GitError::InvalidHead => "invalid git HEAD identity"@,
        GitError::UnsupportedSetting => "unsupported git worktree setting"@,
    }
}

impl GitError {
    /// The text of the failure.
    pub fn message(&self) -> (out: String)
        ensures
            out@ == git_error_text(*self),
    {
        match self {
            GitError::DiscoveryTooLarge => "git repository metadata exceeds the discovery limit".to_owned(),
            GitError::DiscoveryFailed(detail) => {
                let mut out = "git repository discovery failed: ".to_owned();
                out.append(detail.as_str());
                out
            },
            GitError::DiscoveryNotUtf8 => "git repository metadata is not UTF-8".to_owned(),
            GitError::UnsupportedLayout => "unsupported git repository layout".to_owned(),
            GitError::AmbiguousPaths => "ambiguous git repository paths".to_owned(),
            GitError::InvalidHead => "invalid git HEAD identity".to_owned(),
            GitError::UnsupportedSetting => "unsupported git worktree setting".to_owned(),
        }
    }
}

// ---------------------------------------------------------------------
// Streams
// ---------------------------------------------------------------------

/// A stream that is read to its end and kept up to a cap.
#[derive(Debug)]
pub struct CapturedPipe {
    pub bytes: Vec<u8>,
    /// How many bytes the stream held.
    pub total: usize,
}

/// The first `n` bytes, or all where there are fewer.
pub open spec fn first_bytes(bytes: Seq<u8>, n: int) -> Seq<u8> {
    if n <= 0 {
        Seq::empty()
    } else if bytes.len() <= n {
        bytes
    } else {
        bytes.take(n)
    }
}

impl CapturedPipe {
    /// A stream nothing was read of.
    pub fn new() -> (r: CapturedPipe)
        ensures
            r.bytes@ == Seq::<u8>::empty(),
            r.total == 0,
    {
        CapturedPipe { bytes: Vec::new(), total: 0 }
    }

    /// Takes what was read next: counts all of it, keeps what the cap
    /// leaves room for.
    pub fn feed(&mut self, chunk: &[u8], cap: usize)
        ensures
            final(self).bytes@ == old(self).bytes@ + first_bytes(
                chunk@,
                cap - old(self).bytes@.len(),
            ),
            final(self).total == if old(self).total + chunk@.len() <= usize::MAX {
                old(self).total + chunk@.len()
            } else {
                usize::MAX as int
            },
    {
        self.total = self.total.saturating_add(chunk.len());
        let have: usize = self.bytes.len();
        let room: usize = if have >= cap {
            0
        } else {
            cap - have
        };
        let n: usize = if chunk.len() <= room {
            chunk.len()
        } else {
            room
        };
        let mut i: usize = 0;
        let ghost before = self.bytes@;
        let total: usize = self.total;
        while i < n
            invariant
                i <= n <= chunk@.len(),
                self.bytes@ == before + chunk@.take(i as int),
                self.total == total,
            decreases n - i,
        {
            self.bytes.push(chunk[i]);
            i = i + 1;
            assert(self.bytes@ =~= before + chunk@.take(i as int));
        }
        assert(chunk@.take(n as int) =~= first_bytes(chunk@, cap - before.len()));
    }
}

/// What is kept of a stream that came in pieces is what is kept of the whole
/// stream: its first bytes, up to the cap.
pub proof fn law_a_capture_is_a_prefix(so_far: Seq<u8>, chunk: Seq<u8>, cap: int)
    requires
        0 <= cap,
    ensures
        first_bytes(so_far, cap) + first_bytes(chunk, cap - first_bytes(so_far, cap).len())
            == first_bytes(so_far + chunk, cap),
{
    let kept = first_bytes(so_far, cap);
    assert(kept + first_bytes(chunk, cap - kept.len()) =~= first_bytes(so_far + chunk, cap));
}

// ---------------------------------------------------------------------
// The environment and the arguments
// ---------------------------------------------------------------------

/// Whether a variable routes or configures git: such a variable is never
/// inherited.
pub open spec fn git_variable(name: Seq<char>) -> bool {
    text::starts_with(Seq::new(name.len(), |i: int| text::ascii_upper_char(name[i])), "GIT_"@)
}

/// Whether a variable routes or configures git.
pub fn is_git_variable(name: &str) -> (r: bool)
    ensures
        r == git_variable(name@),
{
    let chars = text::chars_of(name);
    let ghost upper_name = Seq::new(name@.len(), |i: int| text::ascii_upper_char(name@[i]));
    let mut upper = String::new();
    let mut i: usize = 0;
    while i < chars.len()
        invariant
            chars@ == name@,
            i <= chars@.len(),
            upper_name == Seq::new(name@.len(), |i: int| text::ascii_upper_char(name@[i])),
            upper@ == upper_name.take(i as int),
        decreases chars@.len() - i,
    {
        upper.push(text::upper_char(chars[i]));
        i = i + 1;
        assert(upper@ =~= upper_name.take(i as int));
    }
    assert(upper@ =~= upper_name);
    text::str_starts_with(upper.as_str(), "GIT_")
}

/// What every call of git begins with: no pager, no lock that only saves
/// work, and no file system monitor, which a repository could choose.
pub fn base_args() -> (out: Vec<String>)
    ensures
        text::views(out@) == seq![
            "--no-pager"@,
            "--no-optional-locks"@,
            "-c"@,
            "core.fsmonitor=false"@,
        ],
{
    let mut out: Vec<String> = Vec::new();
    out.push("--no-pager".to_owned());
    out.push("--no-optional-locks".to_owned());
    out.push("-c".to_owned());
    out.push("core.fsmonitor=false".to_owned());
    assert(text::views(out@) =~= seq![
        "--no-pager"@,
        "--no-optional-locks"@,
        "-c"@,
        "core.fsmonitor=false"@,
    ]);
    out
}

/// The question where the objects and the index lie and what the objects are
/// named by.
pub fn layout_query() -> (out: Vec<String>)
    ensures
        text::views(out@) == seq![
            "rev-parse"@,
            "--path-format=absolute"@,
            "--git-path"@,
            "objects"@,
            "--git-path"@,
            "index"@,
            "--show-object-format"@,
            "--shared-index-path"@,
        ],
{
    let mut out: Vec<String> = Vec::new();
    out.push("rev-parse".to_owned());
    out.push("--path-format=absolute".to_owned());
    out.push("--git-path".to_owned());
    out.push("objects".to_owned());
    out.push("--git-path".to_owned());
    out.push("index".to_owned());
    out.push("--show-object-format".to_owned());
    out.push("--shared-index-path".to_owned());
    assert(text::views(out@) =~= seq![
        "rev-parse"@,
        "--path-format=absolute"@,
        "--git-path"@,
        "objects"@,
        "--git-path"@,
        "index"@,
        "--show-object-format"@,
        "--shared-index-path"@,
    ]);
    out
}

/// The question which commit is checked out.
pub fn head_query() -> (out: Vec<String>)
    ensures
        text::views(out@) == seq![
            "rev-parse"@,
            "--verify"@,
            "--quiet"@,
            "HEAD"@,
        ],
{
    let mut out: Vec<String> = Vec::new();
    out.push("rev-parse".to_owned());
    out.push("--verify".to_owned());
    out.push("--quiet".to_owned());
    out.push("HEAD".to_owned());
    assert(text::views(out@) =~= seq![
        "rev-parse"@,
        "--verify"@,
        "--quiet"@,
        "HEAD"@,
    ]);
    out
}

/// The question for the settings that a view can take over.
pub fn settings_query() -> (out: Vec<String>)
    ensures
        text::views(out@) == seq![
            "config"@,
            "--null"@,
            "--get-regexp"@,
            "^core\\.(filemode|symlinks|ignorecase|autocrlf|eol)$"@,
        ],
{
    let mut out: Vec<String> = Vec::new();
    out.push("config".to_owned());
    out.push("--null".to_owned());
    out.push("--get-regexp".to_owned());
    out.push("^core\\.(filemode|symlinks|ignorecase|autocrlf|eol)$".to_owned());
    assert(text::views(out@) =~= seq![
        "config"@,
        "--null"@,
        "--get-regexp"@,
        "^core\\.(filemode|symlinks|ignorecase|autocrlf|eol)$"@,
    ]);
    out
}

/// The environment of a call in the view: the repository's objects and
/// index, and none of the settings outside the view.
pub open spec fn view_variables(
    objects: Seq<char>,
    index: Seq<char>,
    null_device: Seq<char>,
) -> Seq<(Seq<char>, Seq<char>)> {
    seq![
        ("GIT_OBJECT_DIRECTORY"@, objects),
        ("GIT_INDEX_FILE"@, index),
        ("GIT_CONFIG_NOSYSTEM"@, "1"@),
        ("GIT_CONFIG_GLOBAL"@, null_device),
        ("GIT_ATTR_NOSYSTEM"@, "1"@),
    ]
}

/// The environment of a call in the view.
pub fn view_environment(objects: &str, index: &str, null_device: &str) -> (out: Vec<
    (String, String),
>)
    ensures
        Seq::new(out@.len(), |i: int| (out@[i].0@, out@[i].1@)) == view_variables(
            objects@,
            index@,
            null_device@,
        ),
{
    let mut out: Vec<(String, String)> = Vec::new();
    out.push(("GIT_OBJECT_DIRECTORY".to_owned(), objects.to_owned()));
    out.push(("GIT_INDEX_FILE".to_owned(), index.to_owned()));
    out.push(("GIT_CONFIG_NOSYSTEM".to_owned(), "1".to_owned()));
    out.push(("GIT_CONFIG_GLOBAL".to_owned(), null_device.to_owned()));
    out.push(("GIT_ATTR_NOSYSTEM".to_owned(), "1".to_owned()));
    assert(Seq::new(out@.len(), |i: int| (out@[i].0@, out@[i].1@)) =~= view_variables(
        objects@,
        index@,
        null_device@,
    ));
    out
}

/// The pathspecs that keep the runtime's own state out of every answer.
pub open spec fn exclusions() -> Seq<Seq<char>> {
    seq![":(exclude).focus-agent"@, ":(exclude).focus-agent/**"@]
}

/// The arguments of `git status`.
pub fn status_args() -> (out: Vec<String>)
    ensures
        text::views(out@) == seq![
            "status"@,
            "--short"@,
            "--ignore-submodules=all"@,
            "--"@,
            "."@,
        ] + exclusions(),
{
    let mut out: Vec<String> = Vec::new();
    out.push("status".to_owned());
    out.push("--short".to_owned());
    out.push("--ignore-submodules=all".to_owned());
    out.push("--".to_owned());
    out.push(".".to_owned());
    out.push(":(exclude).focus-agent".to_owned());
    out.push(":(exclude).focus-agent/**".to_owned());
    assert(text::views(out@) =~= seq![
        "status"@,
        "--short"@,
        "--ignore-submodules=all"@,
        "--"@,
        "."@,
    ] + exclusions());
    out
}

/// The arguments of `git diff`. A path stands behind `--`, so even one that
/// looks like an option is a path.
pub open spec fn diff_arguments(staged: bool, path: Seq<char>) -> Seq<Seq<char>> {
    seq!["diff"@, "--no-ext-diff"@, "--no-textconv"@, "--ignore-submodules=all"@] + (if staged {
        seq!["--staged"@]
    } else {
        Seq::empty()
    }) + seq![
        "--"@,
        if path.len() > 0 {
            path
        } else {
            "."@
        },
    ] + exclusions()
}

/// The arguments of `git diff`.
pub fn diff_args(staged: bool, path: Option<&str>) -> (out: Vec<String>)
    ensures
        text::views(out@) == diff_arguments(
            staged,
            match path {
                Some(p) => p@,
                None => Seq::empty(),
            },
        ),
{
    let mut out: Vec<String> = Vec::new();
    out.push("diff".to_owned());
    out.push("--no-ext-diff".to_owned());
    out.push("--no-textconv".to_owned());
    out.push("--ignore-submodules=all".to_owned());
    if staged {
        out.push("--staged".to_owned());
    }
    out.push("--".to_owned());
    let mut filter = ".".to_owned();
    if let Some(p) = path {
        if !p.is_empty() {
            filter = p.to_owned();
        }
    }
    out.push(filter);
    out.push(":(exclude).focus-agent".to_owned());
    out.push(":(exclude).focus-agent/**".to_owned());
    assert(text::views(out@) =~= diff_arguments(
        staged,
        match path {
            Some(p) => p@,
            None => Seq::empty(),
        },
    ));
    out
}

// ---------------------------------------------------------------------
// Hiding the runtime's paths
// ---------------------------------------------------------------------

/// Whether a line names the runtime's state or the repository's inside.
pub open spec fn names_hidden_path(line: Seq<char>) -> bool {
    let path = view::shown_path(line);
    ||| text::contains(path, ".focus-agent"@)
    ||| text::contains(path, "/.git/"@)
    ||| text::trim(path) == ".git"@
    ||| text::ends_with(text::trim(path), "/.git"@)
}

/// Those of the first `k` lines that name no hidden path.
pub open spec fn visible_lines(lines: Seq<Seq<char>>, k: int) -> Seq<Seq<char>>
    decreases k,
{
    if k <= 0 {
        Seq::empty()
    } else if names_hidden_path(lines[k - 1]) {
        visible_lines(lines, k - 1)
    } else {
        visible_lines(lines, k - 1).push(lines[k - 1])
    }
}

/// A text without the lines that name hidden paths.
pub open spec fn stripped(s: Seq<char>) -> Seq<char> {
    let lines = text::lines(s);
    text::join(visible_lines(lines, lines.len() as int), "\n"@)
}

/// Removes the lines that name hidden paths.
pub fn strip_runtime_paths(s: &str) -> (out: String)
    ensures
        out@ == stripped(s@),
{
    let chars = text::chars_of(s);
    let lines = text::lines_of(&chars);
    let ghost all = text::views(lines@);
    let mut kept: Vec<String> = Vec::new();
    let mut i: usize = 0;
    assert(text::views(kept@) =~= visible_lines(all, 0));
    while i < lines.len()
        invariant
            i <= lines@.len(),
            all == text::views(lines@),
            text::views(kept@) == visible_lines(all, i as int),
        decreases lines@.len() - i,
    {
        let path = view::forward_slashes(lines[i].as_str());
        let trimmed = text::trim_str(path.as_str());
        let hidden = text::str_has(path.as_str(), ".focus-agent") || text::str_has(
            path.as_str(),
            "/.git/",
        ) || text::same(trimmed.as_str(), ".git") || text::str_ends_with(
            trimmed.as_str(),
            "/.git",
        );
        assert(lines@[i as int]@ == all[i as int]);
        if !hidden {
            let line = lines[i].clone();
            proof {
                text::lemma_views_push(kept@, line);
            }
            kept.push(line);
        }
        i = i + 1;
    }
    text::join_strings(&kept, "\n")
}

/// No line that is kept names a hidden path, and no other line is lost.
pub proof fn law_only_hidden_lines_are_removed(lines: Seq<Seq<char>>, k: int)
    requires
        0 <= k <= lines.len(),
    ensures
        forall|i: int|
            0 <= i < visible_lines(lines, k).len() ==> !names_hidden_path(
                #[trigger] visible_lines(lines, k)[i],
            ),
        forall|i: int|
            0 <= i < k && !names_hidden_path(lines[i]) ==> visible_lines(lines, k).contains(
                #[trigger] lines[i],
            ),
    decreases k,
{
    if k > 0 {
        law_only_hidden_lines_are_removed(lines, k - 1);
        let before = visible_lines(lines, k - 1);
        let now = visible_lines(lines, k);
        assert forall|i: int| 0 <= i < k && !names_hidden_path(lines[i]) implies now.contains(
            #[trigger] lines[i],
        ) by {
            if i == k - 1 {
                assert(now.last() == lines[i]);
            } else {
                let j = choose|j: int| 0 <= j < before.len() && before[j] == lines[i];
                assert(now[j] == lines[i]);
            }
        }
    }
}

// ---------------------------------------------------------------------
// The repository
// ---------------------------------------------------------------------

/// Checks the answer of a discovery command. With `allow_missing` exit code
/// 1 means that there is nothing to report.
pub fn discovery_text(
    stdout: &CapturedPipe,
    stderr: &CapturedPipe,
    success: bool,
    code: Option<i32>,
    allow_missing: bool,
) -> (r: Result<String, GitError>)
    ensures
        if stdout.total > MAX_DISCOVERY_BYTES || stderr.total > MAX_DISCOVERY_BYTES {
            r matches Err(GitError::DiscoveryTooLarge)
        } else if !success && !(allow_missing && code == Some(1i32)) {
            r matches Err(GitError::DiscoveryFailed(detail)) && detail@ == stripped(
                outside::utf8_lossy(stderr.bytes@),
            )
        } else if vstd::utf8::valid_utf8(stdout.bytes@) {
            r matches Ok(t) && t@ == vstd::utf8::decode_utf8(stdout.bytes@)
        } else {
            r matches Err(GitError::DiscoveryNotUtf8)
        },
{
    if stdout.total > MAX_DISCOVERY_BYTES || stderr.total > MAX_DISCOVERY_BYTES {
        return Err(GitError::DiscoveryTooLarge);
    }
    let missing = match code {
        Some(c) => c == 1,
        None => false,
    };
    if !success && !(allow_missing && missing) {
        let said = outside::lossy_text(stderr.bytes.as_slice());
        return Err(GitError::DiscoveryFailed(strip_runtime_paths(said.as_str())));
    }
    match outside::utf8_text(stdout.bytes.as_slice()) {
        Some(t) => Ok(t.to_owned()),
        None => Err(GitError::DiscoveryNotUtf8),
    }
}

/// The hash a repository names its objects with.
#[derive(Clone, Copy, Debug, PartialEq, Eq, Structural)]
pub enum ObjectFormat {
    Sha1,
    Sha256,
}

/// Where a repository keeps what a read-only view borrows.
#[derive(Debug)]
pub struct Layout {
    pub objects: String,
    pub index: String,
    pub format: ObjectFormat,
    /// The shared part of a split index.
    pub shared_index: Option<String>,
}

/// Line `i` of an answer, empty where there is none.
pub open spec fn answer_line(lines: Seq<Seq<char>>, i: int) -> Seq<char> {
    if i < lines.len() {
        lines[i]
    } else {
        Seq::empty()
    }
}

/// The object format of a name.
pub open spec fn format_named(name: Seq<char>) -> Option<ObjectFormat> {
    if name == "sha1"@ {
        Some(ObjectFormat::Sha1)
    } else if name == "sha256"@ {
        Some(ObjectFormat::Sha256)
    } else {
        None
    }
}

/// The two paths of an answer, which must be absolute.
pub fn layout_paths(answer: &str) -> (r: (String, String))
    ensures
        r.0@ == answer_line(text::lines(answer@), 0),
        r.1@ == answer_line(text::lines(answer@), 1),
{
    let chars = text::chars_of(answer);
    let lines = text::lines_of(&chars);
    (line_or_empty(&lines, 0), line_or_empty(&lines, 1))
}

/// One line of a list, empty where there is none.
fn line_or_empty(lines: &Vec<String>, i: usize) -> (out: String)
    ensures
        out@ == answer_line(text::views(lines@), i as int),
{
    if i < lines.len() {
        lines[i].clone()
    } else {
        String::new()
    }
}

/// Reads the answer that describes a repository: the object directory, the
/// index, the object format and, perhaps, a shared index. Whether the two
/// paths are absolute depends on the platform and is told by the caller.
pub fn parse_layout(answer: &str, objects_absolute: bool, index_absolute: bool) -> (r: Result<
    Layout,
    GitError,
>)
    ensures
        ({
            let lines = text::lines(answer@);
            let format = format_named(answer_line(lines, 2));
            if !objects_absolute || !index_absolute || format is None {
                r matches Err(GitError::UnsupportedLayout)
            } else if lines.len() > 4 {
                r matches Err(GitError::AmbiguousPaths)
            } else {
                &&& r matches Ok(layout)
                &&& layout.objects@ == answer_line(lines, 0)
                &&& layout.index@ == answer_line(lines, 1)
                &&& Some(layout.format) == format
                &&& match layout.shared_index {
                    Some(s) => s@ == answer_line(lines, 3) && s@.len() > 0,
                    None => answer_line(lines, 3).len() == 0,
                }
            }
        }),
{
    let chars = text::chars_of(answer);
    let lines = text::lines_of(&chars);
    assert(lines@.len() == text::lines(answer@).len());
    let objects = line_or_empty(&lines, 0);
    let index = line_or_empty(&lines, 1);
    let name = line_or_empty(&lines, 2);
    let format = if text::same(name.as_str(), "sha1") {
        ObjectFormat::Sha1
    } else if text::same(name.as_str(), "sha256") {
        ObjectFormat::Sha256
    } else {
        return Err(GitError::UnsupportedLayout);
    };
    if !objects_absolute || !index_absolute {
        return Err(GitError::UnsupportedLayout);
    }
    if lines.len() > 4 {
        return Err(GitError::AmbiguousPaths);
    }
    let shared = line_or_empty(&lines, 3);
    let shared_index = if shared.as_str().is_empty() {
        None
    } else {
        Some(shared)
    };
    Ok(Layout { objects, index, format, shared_index })
}

/// Whether a character is a hexadecimal digit.
pub open spec fn is_hex(c: char) -> bool {
    ('0' <= c <= '9') || ('a' <= c <= 'f') || ('A' <= c <= 'F')
}

/// How many digits an object name has.
pub open spec fn name_len(format: ObjectFormat) -> nat {
    match format {
        ObjectFormat::Sha1 => 40,
        ObjectFormat::Sha256 => 64,
    }
}

/// Whether a text can stand as the current commit: nothing, or a full object
/// name.
pub open spec fn valid_head(head: Seq<char>, format: ObjectFormat) -> bool {
    head.len() == 0 || (head.len() == name_len(format) && forall|i: int|
        0 <= i < head.len() ==> is_hex(#[trigger] head[i]))
}

/// Checks the name of the current commit.
pub fn check_head(answer: &str, format: ObjectFormat) -> (r: Result<String, GitError>)
    ensures
        if valid_head(text::trim(answer@), format) {
            r matches Ok(head) && head@ == text::trim(answer@)
        } else {
            r matches Err(GitError::InvalidHead)
        },
{
    let head = text::trim_str(answer);
    let chars = text::chars_of(head.as_str());
    let wanted: usize = match format {
        ObjectFormat::Sha1 => 40,
        ObjectFormat::Sha256 => 64,
    };
    if chars.len() == 0 {
        return Ok(head);
    }
    if chars.len() != wanted {
        return Err(GitError::InvalidHead);
    }
    let mut i: usize = 0;
    while i < chars.len()
        invariant
            chars@ == head@,
            head@ == text::trim(answer@),
            i <= chars@.len(),
            forall|k: int| 0 <= k < i ==> is_hex(#[trigger] chars@[k]),
            chars@.len() > 0,
        decreases chars@.len() - i,
    {
        let c: char = chars[i];
        let hex = ('0' <= c && c <= '9') || ('a' <= c && c <= 'f') || ('A' <= c && c <= 'F');
        if !hex {
            assert(!is_hex(head@[i as int]));
            return Err(GitError::InvalidHead);
        }
        i = i + 1;
    }
    Ok(head)
}

/// What the view's `HEAD` file holds.
pub fn head_file(head: &str) -> (out: String)
    ensures
        out@ == if head@.len() == 0 {
            "ref: refs/heads/read-only\n"@
        } else {
            head@ + "\n"@
        },
{
    if head.is_empty() {
        return "ref: refs/heads/read-only\n".to_owned();
    }
    let mut out = head.to_owned();
    out.append("\n");
    out
}

/// Whether a file may be copied into the view as its shared index.
pub fn is_shared_index(name: &str) -> (r: bool)
    ensures
        r == text::starts_with(name@, "sharedindex."@),
{
    text::str_starts_with(name, "sharedindex.")
}

// ---------------------------------------------------------------------
// The view's configuration
// ---------------------------------------------------------------------

/// The parts of an answer between NUL characters, from character `i` on.
pub open spec fn nul_parts_from(s: Seq<char>, i: int) -> Seq<Seq<char>>
    decreases s.len() - i,
{
    if i < 0 || i > s.len() {
        Seq::empty()
    } else {
        let end = text::char_from(s, '\0', i);
        if i <= end < s.len() {
            seq![s.subrange(i, end)] + nul_parts_from(s, end + 1)
        } else {
            seq![s.subrange(i, s.len() as int)]
        }
    }
}

/// The key of an entry: what stands before its first line feed.
pub open spec fn entry_key(entry: Seq<char>) -> Seq<char> {
    entry.take(text::line_feed_from(entry, 0))
}

/// The value of an entry, in lower case: what stands behind its first line
/// feed, `true` where there is none.
pub open spec fn entry_value(entry: Seq<char>) -> Seq<char> {
    let at = text::line_feed_from(entry, 0);
    text::ascii_lower(
        if at < entry.len() {
            entry.skip(at + 1)
        } else {
            "true"@
        },
    )
}

/// Whether a text is a boolean setting.
pub open spec fn is_switch(v: Seq<char>) -> bool {
    ||| v == "true"@
    ||| v == "false"@
    ||| v == "yes"@
    ||| v == "no"@
    ||| v == "on"@
    ||| v == "off"@
    ||| v == "1"@
    ||| v == "0"@
}

/// The settings a view takes over: a closed set of scalars, never a path, a
/// command or another file.
pub open spec fn known_setting(key: Seq<char>, value: Seq<char>) -> bool {
    if key == "core.filemode"@ || key == "core.symlinks"@ || key == "core.ignorecase"@ {
        is_switch(value)
    } else if key == "core.autocrlf"@ {
        value == "true"@ || value == "false"@ || value == "input"@
    } else if key == "core.eol"@ {
        value == "lf"@ || value == "crlf"@ || value == "native"@
    } else {
        false
    }
}

/// One line of the view's configuration.
pub open spec fn setting_line(entry: Seq<char>) -> Seq<char> {
    entry_key(entry).skip(5) + " = "@ + entry_value(entry) + "\n"@
}

/// The lines for the first `k` entries; `None` where one is not known.
pub open spec fn setting_lines(entries: Seq<Seq<char>>, k: int) -> Option<Seq<char>>
    decreases k,
{
    if k <= 0 {
        Some(Seq::empty())
    } else {
        match setting_lines(entries, k - 1) {
            None => None,
            Some(so_far) => {
                let e = entries[k - 1];
                if e.len() == 0 {
                    Some(so_far)
                } else if known_setting(entry_key(e), entry_value(e)) {
                    Some(so_far + setting_line(e))
                } else {
                    None
                }
            },
        }
    }
}

/// The start of the view's configuration.
pub open spec fn config_head(format: ObjectFormat) -> Seq<char> {
    "[core]\nrepositoryformatversion = "@ + (if format == ObjectFormat::Sha256 {
        "1"@
    } else {
        "0"@
    }) + "\nbare = false\nfsmonitor = false\n"@
}

/// The end of the view's configuration.
pub open spec fn config_tail(format: ObjectFormat) -> Seq<char> {
    if format == ObjectFormat::Sha256 {
        "[extensions]\nobjectFormat = sha256\n"@
    } else {
        ""@
    }
}

/// Whether a text is a boolean setting.
fn switch(v: &str) -> (r: bool)
    ensures
        r == is_switch(v@),
{
    text::same(v, "true") || text::same(v, "false") || text::same(v, "yes") || text::same(v, "no")
        || text::same(v, "on") || text::same(v, "off") || text::same(v, "1") || text::same(v, "0")
}

/// Whether a setting is taken over.
fn known(key: &str, value: &str) -> (r: bool)
    ensures
        r == known_setting(key@, value@),
{
    if text::same(key, "core.filemode") || text::same(key, "core.symlinks") || text::same(
        key,
        "core.ignorecase",
    ) {
        switch(value)
    } else if text::same(key, "core.autocrlf") {
        text::same(value, "true") || text::same(value, "false") || text::same(value, "input")
    } else if text::same(key, "core.eol") {
        text::same(value, "lf") || text::same(value, "crlf") || text::same(value, "native")
    } else {
        false
    }
}

proof fn lemma_known_key_has_a_prefix(key: Seq<char>, value: Seq<char>)
    requires
        known_setting(key, value),
    ensures
        key.len() >= 5,
{
    reveal_strlit("core.filemode");
    reveal_strlit("core.symlinks");
    reveal_strlit("core.ignorecase");
    reveal_strlit("core.autocrlf");
    reveal_strlit("core.eol");
}

/// Appends the line of one entry, where the entry is known.
fn push_setting(config: &mut String, entry: &[char]) -> (ok: bool)
    requires
        entry@.len() > 0,
    ensures
        ok == known_setting(entry_key(entry@), entry_value(entry@)),
        final(config)@ == if ok {
            old(config)@ + setting_line(entry@)
        } else {
            old(config)@
        },
{
    let at: usize = text::find_line_feed(entry, 0);
    let key = text::string_of_range(entry, 0, at);
    assert(entry@.subrange(0, at as int) =~= entry@.take(at as int));
    let written = if at < entry.len() {
        let v = text::string_of_range(entry, at + 1, entry.len());
        assert(v@ =~= entry@.skip(at + 1));
        v
    } else {
        "true".to_owned()
    };
    let value = text::ascii_lower_str(written.as_str());
    if !known(key.as_str(), value.as_str()) {
        return false;
    }
    proof {
        lemma_known_key_has_a_prefix(key@, value@);
    }
    let ghost before = config@;
    text::push_range(config, entry, 5, at);
    config.append(" = ");
    config.append(value.as_str());
    config.append("\n");
    proof {
        assert(entry@.subrange(5, at as int) =~= entry_key(entry@).skip(5));
        assert(config@ =~= before + setting_line(entry@));
    }
    true
}

proof fn lemma_no_later_settings(entries: Seq<Seq<char>>, a: int, b: int)
    requires
        a <= b,
        setting_lines(entries, a) is None,
    ensures
        setting_lines(entries, b) is None,
    decreases b - a,
{
    if a < b {
        lemma_no_later_settings(entries, a, b - 1);
    }
}

/// The configuration of a read-only view, from the settings the repository
/// reports.
pub fn view_config(settings: &str, format: ObjectFormat) -> (r: Result<String, GitError>)
    ensures
        ({
            let entries = nul_parts_from(settings@, 0);
            match setting_lines(entries, entries.len() as int) {
                Some(lines) => r matches Ok(c) && c@ == config_head(format) + lines + config_tail(
                    format,
                ),
                None => r matches Err(GitError::UnsupportedSetting),
            }
        }),
{
    let chars = text::chars_of(settings);
    let n: usize = chars.len();
    let mut config = "[core]\nrepositoryformatversion = ".to_owned();
    config.append(
        match format {
            ObjectFormat::Sha256 => "1",
            ObjectFormat::Sha1 => "0",
        },
    );
    config.append("\nbare = false\nfsmonitor = false\n");
    let ghost head = config_head(format);
    let ghost entries = nul_parts_from(settings@, 0);
    let ghost mut k: int = 0;
    let ghost mut lines = Seq::<char>::empty();
    let mut i: usize = 0;
    let mut done = false;
    assert(entries =~= entries.take(0) + nul_parts_from(settings@, 0));
    assert(config@ =~= head + lines);
    while !done
        invariant
            n == chars@.len(),
            n < usize::MAX,
            chars@ == settings@,
            i <= n,
            head == config_head(format),
            entries == nul_parts_from(settings@, 0),
            0 <= k <= entries.len(),
            done ==> k == entries.len(),
            !done ==> entries == entries.take(k) + nul_parts_from(settings@, i as int),
            setting_lines(entries, k) == Some(lines),
            config@ == head + lines,
        decreases n - i + (if done {
            0int
        } else {
            1int
        }),
    {
        let end: usize = text::find_char(&chars, '\0', i);
        let entry = text::string_of_range(&chars, i, end);
        let entry_chars = text::chars_of(entry.as_str());
        let ghost rest = nul_parts_from(settings@, i as int);
        proof {
            assert(rest.len() > 0 && rest[0] == entry@);
            assert(entries[k] == entry@);
            assert(entries.take(k + 1) =~= entries.take(k).push(entry@));
        }
        if entry_chars.len() > 0 {
            let ok = push_setting(&mut config, &entry_chars);
            if !ok {
                proof {
                    lemma_no_later_settings(entries, k + 1, entries.len() as int);
                }
                return Err(GitError::UnsupportedSetting);
            }
            proof {
                lines = lines + setting_line(entry@);
                assert(config@ =~= head + lines);
            }
        }
        if end < n {
            proof {
                assert(entries =~= entries.take(k + 1) + nul_parts_from(settings@, end + 1));
            }
            i = end + 1;
        } else {
            proof {
                assert(entries =~= entries.take(k + 1));
            }
            i = n;
            done = true;
        }
        proof {
            k = k + 1;
        }
    }
    config.append(
        match format {
            ObjectFormat::Sha256 => "[extensions]\nobjectFormat = sha256\n",
            ObjectFormat::Sha1 => "",
        },
    );
    assert(config@ =~= head + lines + config_tail(format));
    Ok(config)
}

/// Everything a view's configuration takes over from the repository is a
/// known scalar setting.
pub proof fn law_the_view_takes_over_known_settings_only(entries: Seq<Seq<char>>, k: int)
    requires
        0 <= k <= entries.len(),
        setting_lines(entries, k) is Some,
    ensures
        forall|i: int|
            0 <= i < k && (#[trigger] entries[i]).len() > 0 ==> known_setting(
                entry_key(entries[i]),
                entry_value(entries[i]),
            ),
    decreases k,
{
    if k > 0 {
        law_the_view_takes_over_known_settings_only(entries, k - 1);
    }
}

// ---------------------------------------------------------------------
// The answer
// ---------------------------------------------------------------------

/// The last `max` characters of a text, under a note of how many are left
/// out.
pub open spec fn tail_of(s: Seq<char>, max: int) -> Seq<char> {
    if s.len() <= max {
        s
    } else {
        "...["@ + text::dec((s.len() - max) as nat) + " chars omitted; showing tail]\n"@ + s.skip(
            s.len() - max,
        )
    }
}

/// Shows the last characters of a text.
pub fn tail_chars(s: &str, max_chars: usize) -> (out: String)
    ensures
        out@ == tail_of(s@, max_chars as int),
{
    let chars = text::chars_of(s);
    let n: usize = chars.len();
    if n <= max_chars {
        return s.to_owned();
    }
    let skip: usize = n - max_chars;
    let mut out = "...[".to_owned();
    text::push_dec(&mut out, skip as u64);
    out.append(" chars omitted; showing tail]\n");
    text::push_range(&mut out, &chars, skip, n);
    assert(chars@.subrange(skip as int, n as int) =~= s@.skip(skip as int));
    out
}

/// What git said, decoded and without hidden paths.
#[derive(Debug)]
pub struct GitAnswer {
    pub text: String,
    /// Whether not everything git wrote is in `text`.
    pub capture_truncated: bool,
    /// How many bytes git wrote.
    pub total_bytes: usize,
}

/// Both streams as one text.
pub open spec fn combined(stdout: Seq<u8>, stderr: Seq<u8>) -> Seq<char> {
    let out = outside::utf8_lossy(stdout);
    let err = outside::utf8_lossy(stderr);
    stripped(
        if text::trim(err).len() == 0 {
            out
        } else {
            out + "\n[stderr]\n"@ + err
        },
    )
}

/// Puts the two streams together, inside the size of an artifact.
pub fn assemble(stdout: &CapturedPipe, stderr: &CapturedPipe) -> (r: GitAnswer)
    ensures
        ({
            let all = combined(stdout.bytes@, stderr.bytes@);
            &&& r.text@ == text::clip_bytes(all, MAX_ARTIFACT_BYTES as int)
            &&& r.capture_truncated == (stdout.total > stdout.bytes@.len() || stderr.total
                > stderr.bytes@.len() || text::byte_len(all) > MAX_ARTIFACT_BYTES)
            &&& r.total_bytes == if stdout.total + stderr.total <= usize::MAX {
                stdout.total + stderr.total
            } else {
                usize::MAX as int
            }
        }),
{
    let mut said = outside::lossy_text(stdout.bytes.as_slice());
    let err = outside::lossy_text(stderr.bytes.as_slice());
    let trimmed = text::trim_str(err.as_str());
    if !trimmed.as_str().is_empty() {
        said.append("\n[stderr]\n");
        said.append(err.as_str());
    }
    let all = strip_runtime_paths(said.as_str());
    let too_large = text::bytes_in(all.as_str()) > MAX_ARTIFACT_BYTES;
    GitAnswer {
        text: text::clip_bytes_str(all.as_str(), MAX_ARTIFACT_BYTES),
        capture_truncated: stdout.total > stdout.bytes.len() || stderr.total > stderr.bytes.len()
            || too_large,
        total_bytes: stdout.total.saturating_add(stderr.total),
    }
}

/// Whether an answer does not fit the page and is kept as an artifact.
pub open spec fn overflows(a: GitAnswer) -> bool {
    a.capture_truncated || a.text@.len() > MODEL_OUTPUT_CHARS
}

/// Whether an answer is kept as an artifact.
pub fn needs_artifact(answer: &GitAnswer) -> (r: bool)
    ensures
        r == overflows(*answer),
{
    answer.capture_truncated || text::chars_of(answer.text.as_str()).len() > MODEL_OUTPUT_CHARS
}

/// Whether git failed without a word.
pub open spec fn failed_silently(a: GitAnswer, ok: bool) -> bool {
    !ok && text::trim(a.text@).len() == 0
}

/// Whether git failed without a word.
pub fn is_silent_failure(answer: &GitAnswer, ok: bool) -> (r: bool)
    ensures
        r == failed_silently(*answer, ok),
{
    if ok {
        return false;
    }
    let trimmed = text::trim_str(answer.text.as_str());
    trimmed.as_str().is_empty()
}

/// A list of strings the way `{:?}` shows it.
pub open spec fn list_debug(args: Seq<Seq<char>>) -> Seq<char> {
    "["@ + text::join(Seq::new(args.len(), |i: int| outside::str_debug(args[i])), ", "@) + "]"@
}

/// Shows a list of strings.
fn debug_list(args: &Vec<String>) -> (out: String)
    ensures
        out@ == list_debug(text::views(args@)),
{
    let ghost all = text::views(args@);
    let mut shown: Vec<String> = Vec::new();
    let mut i: usize = 0;
    while i < args.len()
        invariant
            i <= args@.len(),
            all == text::views(args@),
            text::views(shown@) == Seq::new(i as nat, |j: int| outside::str_debug(all[j])),
        decreases args@.len() - i,
    {
        let one = outside::debug_quoted(args[i].as_str());
        assert(args@[i as int]@ == all[i as int]);
        proof {
            text::lemma_views_push(shown@, one);
        }
        shown.push(one);
        i = i + 1;
        assert(text::views(shown@) =~= Seq::new(i as nat, |j: int| outside::str_debug(all[j])));
    }
    let mut out = "[".to_owned();
    out.append(text::join_strings(&shown, ", ").as_str());
    out.append("]");
    out
}

/// What a call reports.
#[derive(Debug)]
pub struct GitOutput {
    pub ok: bool,
    pub summary: String,
    pub content: String,
    pub exit_code: Option<i32>,
    pub bytes: usize,
    pub captured_bytes: usize,
    pub capture_truncated: bool,
}

/// The exit code the way `{:?}` shows it.
pub open spec fn code_debug(code: Option<i32>) -> Seq<char> {
    match code {
        Some(c) => "Some("@ + text::signed_dec(c as int) + ")"@,
        None => "None"@,
    }
}

/// The exit code in a summary.
pub open spec fn code_text(code: Option<i32>) -> Seq<char> {
    match code {
        Some(c) => text::signed_dec(c as int),
        None => "signal"@,
    }
}

/// The report on a call. `artifact` names where an answer that does not fit
/// was written.
pub open spec fn output_is(
    o: GitOutput,
    args: Seq<Seq<char>>,
    ok: bool,
    code: Option<i32>,
    a: GitAnswer,
    artifact: Seq<char>,
) -> bool {
    &&& o.ok == ok
    &&& o.exit_code == code
    &&& o.bytes == a.total_bytes
    &&& o.captured_bytes == text::byte_len(a.text@)
    &&& o.capture_truncated == a.capture_truncated
    &&& if failed_silently(a, ok) {
        &&& o.summary@ == "git "@ + list_debug(args) + " failed (exit="@ + code_debug(code)
            + ")"@
        &&& o.content@ == "(empty output; is this a git repository?)"@
    } else {
        let shown = tail_of(a.text@, MODEL_OUTPUT_CHARS as int);
        &&& o.summary@ == "git "@ + list_debug(args) + " (exit="@ + code_text(code) + ", "@
            + text::dec(text::byte_len(a.text@)) + " bytes)"@
        &&& o.content@ == if overflows(a) {
            shown + "\n\nCaptured output"@ + (if a.capture_truncated {
                " (prefix truncated at byte limit)"@
            } else {
                ""@
            }) + ": "@ + artifact
        } else {
            shown
        }
    }
}

/// Reports on a call.
pub fn git_output(
    args: &Vec<String>,
    ok: bool,
    code: Option<i32>,
    answer: &GitAnswer,
    artifact: &str,
) -> (o: GitOutput)
    ensures
        output_is(o, text::views(args@), ok, code, *answer, artifact@),
{
    let mut summary = "git ".to_owned();
    summary.append(debug_list(args).as_str());
    let mut content = String::new();
    let captured: usize = text::bytes_in(answer.text.as_str());
    if is_silent_failure(answer, ok) {
        let mut shown = String::new();
        match code {
            Some(c) => {
                shown = "Some(".to_owned();
                text::push_signed(&mut shown, c);
                shown.append(")");
            },
            None => {
                shown = "None".to_owned();
            },
        }
        summary.append(" failed (exit=");
        summary.append(shown.as_str());
        summary.append(")");
        content = "(empty output; is this a git repository?)".to_owned();
    } else {
        summary.append(" (exit=");
        match code {
            Some(c) => {
                text::push_signed(&mut summary, c);
            },
            None => {
                summary.append("signal");
            },
        }
        summary.append(", ");
        text::push_dec(&mut summary, captured as u64);
        summary.append(" bytes)");
        content = tail_chars(answer.text.as_str(), MODEL_OUTPUT_CHARS);
        if needs_artifact(answer) {
            content.append("\n\nCaptured output");
            if answer.capture_truncated {
                content.append(" (prefix truncated at byte limit)");
            } else {
                content.append("");
            }
            content.append(": ");
            content.append(artifact);
        }
    }
    GitOutput {
        ok,
        summary,
        content,
        exit_code: code,
        bytes: answer.total_bytes,
        captured_bytes: captured,
        capture_truncated: answer.capture_truncated,
    }
}

// ---------------------------------------------------------------------
// Laws over the characters
// ---------------------------------------------------------------------

/// Whether a character separates the parts of a path.
pub open spec fn is_slash(c: char) -> bool {
    c == '/' || c == '\\'
}

/// Whether the runtime's name stands in a line at character `i`.
pub open spec fn runtime_name_at(line: Seq<char>, i: int) -> bool {
    0 <= i && i + 12 <= line.len() && line.subrange(i, i + 12) == seq![
        '.',
        'f',
        'o',
        'c',
        'u',
        's',
        '-',
        'a',
        'g',
        'e',
        'n',
        't',
    ]
}

/// Whether the version control directory stands in a line at character `i` as
/// a whole part of a path: between two slashes, behind a slash with nothing
/// but white space behind it, or with nothing but white space around it.
pub open spec fn repository_at(line: Seq<char>, i: int) -> bool {
    &&& 0 <= i && i + 4 <= line.len()
    &&& line[i] == '.' && line[i + 1] == 'g' && line[i + 2] == 'i' && line[i + 3] == 't'
    &&& {
        ||| i > 0 && is_slash(line[i - 1]) && i + 4 < line.len() && is_slash(line[i + 4])
        ||| i > 0 && is_slash(line[i - 1]) && blank_between(line, i + 4, line.len() as int)
        ||| blank_between(line, 0, i) && blank_between(line, i + 4, line.len() as int)
    }
}

/// Whether a part of a line is white space.
pub open spec fn blank_between(line: Seq<char>, from: int, to: int) -> bool {
    forall|k: int| from <= k < to ==> text::is_space(#[trigger] line[k])
}

proof fn lemma_dot_git(path: Seq<char>, line: Seq<char>, i: int)
    requires
        path == view::shown_path(line),
    ensures
        0 <= i && i + 4 <= line.len() ==> (path.subrange(i, i + 4) == ".git"@) == (line[i] == '.'
            && line[i + 1] == 'g' && line[i + 2] == 'i' && line[i + 3] == 't'),
        0 <= i && i + 5 <= line.len() ==> (path.subrange(i, i + 5) == "/.git"@) == (is_slash(
            line[i],
        ) && line[i + 1] == '.' && line[i + 2] == 'g' && line[i + 3] == 'i' && line[i + 4] == 't'),
        0 <= i && i + 6 <= line.len() ==> (path.subrange(i, i + 6) == "/.git/"@) == (is_slash(
            line[i],
        ) && line[i + 1] == '.' && line[i + 2] == 'g' && line[i + 3] == 'i' && line[i + 4] == 't'
            && is_slash(line[i + 5])),
{
    reveal_strlit(".git");
    reveal_strlit("/.git");
    reveal_strlit("/.git/");
    view::law_a_shown_path_differs_in_its_slashes_only(line);
    if 0 <= i && i + 4 <= line.len() {
        let part = path.subrange(i, i + 4);
        assert(part[0] == path[i] && part[1] == path[i + 1] && part[2] == path[i + 2] && part[3]
            == path[i + 3]);
        if line[i] == '.' && line[i + 1] == 'g' && line[i + 2] == 'i' && line[i + 3] == 't' {
            assert(part =~= ".git"@);
        }
    }
    if 0 <= i && i + 5 <= line.len() {
        let part = path.subrange(i, i + 5);
        assert(part[0] == path[i] && part[1] == path[i + 1] && part[2] == path[i + 2] && part[3]
            == path[i + 3] && part[4] == path[i + 4]);
        if is_slash(line[i]) && line[i + 1] == '.' && line[i + 2] == 'g' && line[i + 3] == 'i'
            && line[i + 4] == 't' {
            assert(part =~= "/.git"@);
        }
    }
    if 0 <= i && i + 6 <= line.len() {
        let part = path.subrange(i, i + 6);
        assert(part[0] == path[i] && part[1] == path[i + 1] && part[2] == path[i + 2] && part[3]
            == path[i + 3] && part[4] == path[i + 4] && part[5] == path[i + 5]);
        if is_slash(line[i]) && line[i + 1] == '.' && line[i + 2] == 'g' && line[i + 3] == 'i'
            && line[i + 4] == 't' && is_slash(line[i + 5]) {
            assert(part =~= "/.git/"@);
        }
    }
}

proof fn lemma_runtime_name(path: Seq<char>, line: Seq<char>, i: int)
    requires
        path == view::shown_path(line),
    ensures
        runtime_name_at(line, i) == text::occurs_at(path, ".focus-agent"@, i),
{
    reveal_strlit(".focus-agent");
    view::law_a_shown_path_differs_in_its_slashes_only(line);
    if 0 <= i && i + 12 <= line.len() {
        let name = ".focus-agent"@;
        let a = line.subrange(i, i + 12);
        let b = path.subrange(i, i + 12);
        assert(name =~= seq!['.', 'f', 'o', 'c', 'u', 's', '-', 'a', 'g', 'e', 'n', 't']);
        assert(forall|k: int| 0 <= k < 12 ==> #[trigger] name[k] != '/' && name[k] != '\\');
        if a == name {
            assert forall|k: int| 0 <= k < 12 implies b[k] == name[k] by {
                assert(a[k] == line[i + k]);
                assert(b[k] == path[i + k]);
            }
            assert(b =~= name);
        }
        if b == name {
            assert forall|k: int| 0 <= k < 12 implies a[k] == name[k] by {
                assert(a[k] == line[i + k]);
                assert(b[k] == path[i + k]);
            }
            assert(a =~= name);
        }
    }
}

/// A line is hidden exactly where it holds the runtime's name, or the version
/// control directory as a whole part of a path. A name that merely begins or
/// ends with that directory's name hides nothing.
pub proof fn law_a_line_is_hidden_by_whole_names_only(line: Seq<char>)
    ensures
        names_hidden_path(line) <==> (exists|i: int| runtime_name_at(line, i)) || (exists|i: int|
            repository_at(line, i)),
{
    let path = view::shown_path(line);
    let n = line.len() as int;
    reveal_strlit(".git");
    reveal_strlit("/.git");
    reveal_strlit("/.git/");
    view::law_a_shown_path_differs_in_its_slashes_only(line);
    let (a, b) = text::law_trimming_takes_white_space_off_the_ends(path);
    let trimmed = text::trim(path);
    assert forall|k: int| 0 <= k < n implies text::is_space(#[trigger] path[k]) == text::is_space(
        line[k],
    ) by {}
    if exists|i: int| runtime_name_at(line, i) {
        let i = choose|i: int| runtime_name_at(line, i);
        lemma_runtime_name(path, line, i);
        assert(text::occurs_at(path, ".focus-agent"@, i));
    }
    if text::contains(path, ".focus-agent"@) {
        let i = choose|i: int| text::occurs_at(path, ".focus-agent"@, i);
        lemma_runtime_name(path, line, i);
        assert(runtime_name_at(line, i));
    }
    if text::contains(path, "/.git/"@) {
        let i = choose|i: int| text::occurs_at(path, "/.git/"@, i);
        lemma_dot_git(path, line, i);
        assert(repository_at(line, i + 1));
    }
    if trimmed == ".git"@ {
        assert(trimmed.len() == b - a && ".git"@.len() == 4);
        lemma_dot_git(path, line, a);
        assert(blank_between(line, 0, a)) by {
            assert forall|k: int| 0 <= k < a implies text::is_space(#[trigger] line[k]) by {
                assert(text::is_space(path[k]));
            }
        }
        assert(blank_between(line, a + 4, n)) by {
            assert forall|k: int| a + 4 <= k < n implies text::is_space(#[trigger] line[k]) by {
                assert(text::is_space(path[k]));
            }
        }
        assert(repository_at(line, a));
    }
    if text::ends_with(trimmed, "/.git"@) {
        let i = b - 5;
        assert(trimmed.skip(trimmed.len() - 5) =~= path.subrange(i, i + 5));
        lemma_dot_git(path, line, i);
        assert(blank_between(line, i + 5, n)) by {
            assert forall|k: int| i + 5 <= k < n implies text::is_space(#[trigger] line[k]) by {
                assert(text::is_space(path[k]));
            }
        }
        assert(repository_at(line, i + 1));
    }
    if exists|i: int| repository_at(line, i) {
        let i = choose|i: int| repository_at(line, i);
        if i > 0 && is_slash(line[i - 1]) && i + 4 < n && is_slash(line[i + 4]) {
            lemma_dot_git(path, line, i - 1);
            assert(text::occurs_at(path, "/.git/"@, i - 1));
        } else {
            assert(!text::is_space(line[i]) && !text::is_space(line[i + 3]));
            assert(!text::is_space(path[i]) && !text::is_space(path[i + 3]));
            assert(blank_between(line, i + 4, n));
            assert(a <= i && i + 4 <= b);
            if b > i + 4 {
                assert(text::is_space(line[b - 1]));
                assert(text::is_space(path[b - 1]));
            }
            assert(b == i + 4);
            if i > 0 && is_slash(line[i - 1]) {
                assert(!text::is_space(line[i - 1]));
                assert(!text::is_space(path[i - 1]));
                assert(a <= i - 1);
                lemma_dot_git(path, line, i - 1);
                assert(trimmed.skip(trimmed.len() - 5) =~= path.subrange(i - 1, i + 4));
                assert(text::ends_with(trimmed, "/.git"@));
            } else {
                if a < i {
                    assert(text::is_space(line[a]));
                    assert(text::is_space(path[a]));
                }
                assert(a == i);
                lemma_dot_git(path, line, i);
                assert(trimmed == ".git"@);
            }
        }
    }
}

/// What is shown is the lines in their order, without those that are hidden
/// and with all others.
pub proof fn law_the_shown_lines_are_the_others_in_order(lines: Seq<Seq<char>>)
    ensures
        visible_lines(lines, lines.len() as int) == lines.filter(
            |line: Seq<char>|
                !((exists|i: int| runtime_name_at(line, i)) || (exists|i: int|
                    repository_at(line, i))),
        ),
    decreases lines.len(),
{
    let shown = |line: Seq<char>|
        !((exists|i: int| runtime_name_at(line, i)) || (exists|i: int| repository_at(line, i)));
    reveal(Seq::filter);
    if lines.len() > 0 {
        let rest = lines.drop_last();
        law_the_shown_lines_are_the_others_in_order(rest);
        law_a_line_is_hidden_by_whole_names_only(lines.last());
        lemma_visible_of_prefix(lines, rest.len() as int);
        assert(shown(lines.last()) == !names_hidden_path(lines.last()));
    }
}

proof fn lemma_visible_of_prefix(lines: Seq<Seq<char>>, k: int)
    requires
        lines.len() > 0,
        0 <= k < lines.len(),
    ensures
        visible_lines(lines, k) == visible_lines(lines.drop_last(), k),
    decreases k,
{
    if k > 0 {
        lemma_visible_of_prefix(lines, k - 1);
    }
}

/// A variable is git's where its name begins with `GIT_` in any case.
pub proof fn law_git_variables_begin_with_git(name: Seq<char>)
    ensures
        git_variable(name) <==> name.len() >= 4 && (name[0] == 'G' || name[0] == 'g') && (name[1]
            == 'I' || name[1] == 'i') && (name[2] == 'T' || name[2] == 't') && name[3] == '_',
{
    reveal_strlit("GIT_");
    let upper = Seq::new(name.len(), |i: int| text::ascii_upper_char(name[i]));
    text::law_beginning_and_ending(upper, "GIT_"@);
    let git = "GIT_"@;
    if name.len() >= 4 {
        text::law_case_changes_ascii_letters_only(name[0]);
        text::law_case_changes_ascii_letters_only(name[1]);
        text::law_case_changes_ascii_letters_only(name[2]);
        text::law_case_changes_ascii_letters_only(name[3]);
        assert(git[0] == 'G' && git[1] == 'I' && git[2] == 'T' && git[3] == '_');
        if (name[0] == 'G' || name[0] == 'g') && (name[1] == 'I' || name[1] == 'i') && (name[2]
            == 'T' || name[2] == 't') && name[3] == '_' {
            assert forall|k: int| 0 <= k < git.len() implies upper[k] == #[trigger] git[k] by {
                assert(k == 0 || k == 1 || k == 2 || k == 3);
            }
        }
        if text::starts_with(upper, git) {
            assert(upper[0] == git[0] && upper[1] == git[1] && upper[2] == git[2] && upper[3]
                == git[3]);
        }
    }
}

/// A path given to the diff is never an option: it stands behind the
/// separator, in front of which only fixed options stand; programs of the
/// repository are switched off, and the runtime's state is left out.
pub proof fn law_a_diffed_path_stands_behind_the_separator(staged: bool, path: Seq<char>)
    ensures
        ({
            let args = diff_arguments(staged, path);
            let at = if staged {
                5int
            } else {
                4int
            };
            &&& args.len() == at + 4
            &&& args[0] == "diff"@ && args[1] == "--no-ext-diff"@ && args[2] == "--no-textconv"@
            &&& args[3] == "--ignore-submodules=all"@
            &&& staged ==> args[4] == "--staged"@
            &&& args[at] == "--"@
            &&& args[at + 1] == if path.len() == 0 {
                "."@
            } else {
                path
            }
            &&& args[at + 2] == ":(exclude).focus-agent"@
            &&& args[at + 3] == ":(exclude).focus-agent/**"@
        }),
{
}

/// A capture keeps the beginning of what came, all of it where it fits.
pub proof fn law_a_capture_keeps_the_beginning(bytes: Seq<u8>, cap: int)
    requires
        0 <= cap,
    ensures
        first_bytes(bytes, cap).is_prefix_of(bytes),
        first_bytes(bytes, cap).len() == cap || first_bytes(bytes, cap) == bytes,
        first_bytes(bytes, cap).len() <= cap,
{
}

/// A commit is named by nothing, or by forty or sixty-four hexadecimal digits.
pub proof fn law_a_head_is_a_full_object_name(head: Seq<char>, format: ObjectFormat)
    ensures
        valid_head(head, format) <==> head.len() == 0 || {
            &&& format == ObjectFormat::Sha1 ==> head.len() == 40
            &&& format == ObjectFormat::Sha256 ==> head.len() == 64
            &&& forall|k: int|
                0 <= k < head.len() ==> ('0' <= #[trigger] head[k] <= '9' || 'a' <= head[k] <= 'f'
                    || 'A' <= head[k] <= 'F')
        },
        format_named("sha1"@) == Some(ObjectFormat::Sha1),
        format_named("sha256"@) == Some(ObjectFormat::Sha256),
        head != "sha1"@ && head != "sha256"@ ==> format_named(head) is None,
{
    reveal_strlit("sha1");
    reveal_strlit("sha256");
    assert("sha1"@.len() != "sha256"@.len());
    if head.len() != 0 && (forall|k: int|
        0 <= k < head.len() ==> ('0' <= #[trigger] head[k] <= '9' || 'a' <= head[k] <= 'f' || 'A'
            <= head[k] <= 'F')) {
        assert forall|k: int| 0 <= k < head.len() implies is_hex(#[trigger] head[k]) by {}
    }
}

/// The tail of a text that is too long is its last characters, under a line
/// that counts the others; a text that fits is shown as it is.
pub proof fn law_a_tail_is_the_end_of_the_text(s: Seq<char>, max: int)
    requires
        0 <= max,
    ensures
        s.len() <= max ==> tail_of(s, max) == s,
        s.len() > max ==> tail_of(s, max).len() > max && tail_of(s, max).skip(
            tail_of(s, max).len() - max,
        ) == s.skip(s.len() - max) && text::contains(
            tail_of(s, max),
            text::dec((s.len() - max) as nat),
        ),
{
    if s.len() > max {
        let note = "...["@ + text::dec((s.len() - max) as nat) + " chars omitted; showing tail]\n"@;
        let t = tail_of(s, max);
        assert(t =~= note + s.skip(s.len() - max));
        assert(t.skip(t.len() - max) =~= s.skip(s.len() - max));
        let number = text::dec((s.len() - max) as nat);
        let at = "...["@.len() as int;
        assert(t.subrange(at, at + number.len()) =~= number);
        assert(text::occurs_at(t, number, at));
    }
}

/// Both streams are shown without their hidden lines, the errors behind a
/// heading where they are more than white space.
pub proof fn law_both_streams_are_shown(stdout: Seq<u8>, stderr: Seq<u8>)
    ensures
        ({
            let out = outside::utf8_lossy(stdout);
            let err = outside::utf8_lossy(stderr);
            let silent = forall|k: int| 0 <= k < err.len() ==> text::is_space(#[trigger] err[k]);
            &&& silent ==> combined(stdout, stderr) == stripped(out)
            &&& !silent ==> combined(stdout, stderr) == stripped(out + "\n[stderr]\n"@ + err)
        }),
{
    let err = outside::utf8_lossy(stderr);
    let (a, b) = text::law_trimming_takes_white_space_off_the_ends(err);
    if a < b {
        assert(!text::is_space(err[a]));
    }
}

/// An answer that failed and says nothing but white space is a silent
/// failure, and only such a one.
pub proof fn law_a_silent_failure_says_nothing(a: GitAnswer, ok: bool)
    ensures
        failed_silently(a, ok) <==> !ok && forall|k: int|
            0 <= k < a.text@.len() ==> text::is_space(#[trigger] a.text@[k]),
        overflows(a) <==> a.capture_truncated || a.text@.len() > 12_000,
{
    let (from, to) = text::law_trimming_takes_white_space_off_the_ends(a.text@);
    if from < to {
        assert(!text::is_space(a.text@[from]));
    }
}

/// A setting's key is what stands before its first line feed, its value what
/// stands behind, in lower case, and true where there is no line feed. What is
/// taken over is written without the section's name, and the section stands
/// before it.
pub proof fn law_a_setting_is_read_at_its_first_feed(entry: Seq<char>, at: int)
    requires
        0 <= at <= entry.len(),
        forall|k: int| 0 <= k < at ==> entry[k] != '\n',
        at < entry.len() ==> entry[at] == '\n',
    ensures
        entry_key(entry) == entry.take(at),
        at < entry.len() ==> entry_value(entry).len() == entry.len() - at - 1 && forall|k: int|
            0 <= k < entry_value(entry).len() ==> #[trigger] entry_value(entry)[k]
                == text::ascii_lower_char(entry[at + 1 + k]),
        at == entry.len() ==> entry_value(entry) == "true"@,
        known_setting(entry_key(entry), entry_value(entry)) ==> seq!['c', 'o', 'r', 'e', '.']
            + setting_line(entry) == entry_key(entry) + " = "@ + entry_value(entry) + "\n"@,
{
    text::lemma_line_feed_from(entry, 0);
    let end = text::line_feed_from(entry, 0);
    if end < at {
        assert(entry[end] != '\n');
    }
    if at < end {
        assert(entry[at] != '\n');
    }
    if at == entry.len() {
        reveal_strlit("true");
        assert(entry_value(entry) =~= "true"@);
    }
    let key = entry_key(entry);
    if known_setting(key, entry_value(entry)) {
        reveal_strlit("core.filemode");
        reveal_strlit("core.symlinks");
        reveal_strlit("core.ignorecase");
        reveal_strlit("core.autocrlf");
        reveal_strlit("core.eol");
        assert(key =~= seq!['c', 'o', 'r', 'e', '.'] + key.skip(5));
        assert(seq!['c', 'o', 'r', 'e', '.'] + setting_line(entry) =~= key + " = "@ + entry_value(
            entry,
        ) + "\n"@);
    }
}

/// The settings that a view takes over are five, each with values of its own:
/// three switches, the conversion of line breaks and the line break itself.
pub proof fn law_the_known_settings_are_scalars(key: Seq<char>, value: Seq<char>)
    ensures
        known_setting(key, value) ==> seq![
            "core.filemode"@,
            "core.symlinks"@,
            "core.ignorecase"@,
            "core.autocrlf"@,
            "core.eol"@,
        ].contains(key) && seq![
            "true"@,
            "false"@,
            "yes"@,
            "no"@,
            "on"@,
            "off"@,
            "1"@,
            "0"@,
            "input"@,
            "lf"@,
            "crlf"@,
            "native"@,
        ].contains(value),
        known_setting("core.autocrlf"@, "input"@),
        known_setting("core.eol"@, "crlf"@),
        known_setting("core.eol"@, "native"@),
        is_switch(value) ==> known_setting("core.filemode"@, value) && known_setting(
            "core.symlinks"@,
            value,
        ) && known_setting("core.ignorecase"@, value),
        seq!["true"@, "false"@, "yes"@, "no"@, "on"@, "off"@, "1"@, "0"@].contains(value)
            <==> is_switch(value),
{
    let keys = seq![
        "core.filemode"@,
        "core.symlinks"@,
        "core.ignorecase"@,
        "core.autocrlf"@,
        "core.eol"@,
    ];
    let values = seq![
        "true"@,
        "false"@,
        "yes"@,
        "no"@,
        "on"@,
        "off"@,
        "1"@,
        "0"@,
        "input"@,
        "lf"@,
        "crlf"@,
        "native"@,
    ];
    let switches = seq!["true"@, "false"@, "yes"@, "no"@, "on"@, "off"@, "1"@, "0"@];
    reveal_strlit("core.filemode");
    reveal_strlit("core.symlinks");
    reveal_strlit("core.ignorecase");
    reveal_strlit("core.autocrlf");
    reveal_strlit("core.eol");
    assert(keys[0] == "core.filemode"@ && keys[1] == "core.symlinks"@ && keys[2]
        == "core.ignorecase"@ && keys[3] == "core.autocrlf"@ && keys[4] == "core.eol"@);
    assert(values[0] == "true"@ && values[1] == "false"@ && values[2] == "yes"@ && values[3]
        == "no"@ && values[4] == "on"@ && values[5] == "off"@ && values[6] == "1"@ && values[7]
        == "0"@ && values[8] == "input"@ && values[9] == "lf"@ && values[10] == "crlf"@
        && values[11] == "native"@);
    assert(switches[0] == "true"@ && switches[1] == "false"@ && switches[2] == "yes"@ && switches[3]
        == "no"@ && switches[4] == "on"@ && switches[5] == "off"@ && switches[6] == "1"@
        && switches[7] == "0"@);
    assert("core.autocrlf"@[5] == 'a' && "core.filemode"@[5] == 'f' && "core.symlinks"@[5] == 's');
    if switches.contains(value) {
        let k = choose|k: int| 0 <= k < switches.len() && switches[k] == value;
        assert(0 <= k < 8);
    }
}

/// What is shown of a text is its lines in order, without the hidden ones and
/// with all others, each on a line of its own.
pub proof fn law_only_hidden_lines_are_left_out(s: Seq<char>)
    ensures
        stripped(s) == text::join(
            text::lines(s).filter(
                |line: Seq<char>|
                    !((exists|i: int| runtime_name_at(line, i)) || (exists|i: int|
                        repository_at(line, i))),
            ),
            seq!['\n'],
        ),
{
    law_the_shown_lines_are_the_others_in_order(text::lines(s));
    reveal_strlit("\n");
    assert("\n"@ =~= seq!['\n']);
}

/// An answer is split at its zero characters: what stands before the first is
/// the first part, and the rest follows from what stands behind it. `at` is
/// the first zero character at or behind `i`, or the end.
pub proof fn law_an_answer_is_split_at_its_zeros(s: Seq<char>, i: int, at: int)
    requires
        0 <= i <= at <= s.len(),
        forall|k: int| i <= k < at ==> #[trigger] s[k] != '\0',
        at < s.len() ==> s[at] == '\0',
    ensures
        at < s.len() ==> nul_parts_from(s, i) == seq![s.subrange(i, at)] + nul_parts_from(
            s,
            at + 1,
        ),
        at == s.len() ==> nul_parts_from(s, i) == seq![s.subrange(i, at)],
{
    text::lemma_char_from(s, '\0', i);
    let end = text::char_from(s, '\0', i);
    if end < at {
        assert(s[end] != '\0');
    }
    if at < end {
        assert(s[at] != '\0');
    }
}

/// A view's settings are those of the repository, in order, each on a line; an
/// entry that is not known is refused, and so is everything behind it; an
/// empty entry is nothing.
pub proof fn law_every_setting_must_be_known(entries: Seq<Seq<char>>, k: int)
    requires
        0 <= k < entries.len(),
    ensures
        setting_lines(entries, 0) == Some(Seq::<char>::empty()),
        setting_lines(entries, k) is None ==> setting_lines(entries, k + 1) is None,
        entries[k].len() == 0 ==> setting_lines(entries, k + 1) == setting_lines(entries, k),
        entries[k].len() > 0 && !known_setting(entry_key(entries[k]), entry_value(entries[k]))
            ==> setting_lines(entries, k + 1) is None,
        entries[k].len() > 0 && known_setting(entry_key(entries[k]), entry_value(entries[k]))
            && setting_lines(entries, k) is Some ==> setting_lines(entries, k + 1) == Some(
            setting_lines(entries, k)->0 + setting_line(entries[k]),
        ),
{
}

/// The values that each known setting may have.
pub proof fn law_the_values_of_each_setting(value: Seq<char>)
    ensures
        known_setting("core.autocrlf"@, value) <==> value == "true"@ || value == "false"@ || value
            == "input"@,
        known_setting("core.eol"@, value) <==> value == "lf"@ || value == "crlf"@ || value
            == "native"@,
        known_setting("core.filemode"@, value) <==> is_switch(value),
        known_setting("core.symlinks"@, value) <==> is_switch(value),
        known_setting("core.ignorecase"@, value) <==> is_switch(value),
{
    reveal_strlit("core.filemode");
    reveal_strlit("core.symlinks");
    reveal_strlit("core.ignorecase");
    reveal_strlit("core.autocrlf");
    reveal_strlit("core.eol");
    assert("core.autocrlf"@[5] == 'a' && "core.filemode"@[5] == 'f' && "core.symlinks"@[5] == 's'
        && "core.ignorecase"@[5] == 'i' && "core.eol"@[5] == 'e');
}

/// The configuration of a view names its format, is not bare, watches nothing
/// and names the longer digests exactly where the repository has them.
pub proof fn law_a_view_is_configured_by_its_format()
    ensures
        config_head(ObjectFormat::Sha1) + config_tail(ObjectFormat::Sha1)
            == "[core]\nrepositoryformatversion = 0\nbare = false\nfsmonitor = false\n"@,
        config_head(ObjectFormat::Sha256)
            == "[core]\nrepositoryformatversion = 1\nbare = false\nfsmonitor = false\n"@,
        config_tail(ObjectFormat::Sha256) == "[extensions]\nobjectFormat = sha256\n"@,
{
    reveal_strlit("[core]\nrepositoryformatversion = ");
    reveal_strlit("0");
    reveal_strlit("1");
    reveal_strlit("");
    reveal_strlit("\nbare = false\nfsmonitor = false\n");
    reveal_strlit("[core]\nrepositoryformatversion = 0\nbare = false\nfsmonitor = false\n");
    reveal_strlit("[core]\nrepositoryformatversion = 1\nbare = false\nfsmonitor = false\n");
    assert(config_head(ObjectFormat::Sha1) + config_tail(ObjectFormat::Sha1)
        =~= "[core]\nrepositoryformatversion = 0\nbare = false\nfsmonitor = false\n"@);
    assert(config_head(ObjectFormat::Sha256)
        =~= "[core]\nrepositoryformatversion = 1\nbare = false\nfsmonitor = false\n"@);
}

/// A view reads its own objects and its own index, and no configuration or
/// attributes from outside the repository.
pub proof fn law_a_view_reads_nothing_from_outside(
    objects: Seq<char>,
    index: Seq<char>,
    null_device: Seq<char>,
)
    ensures
        view_variables(objects, index, null_device).contains(("GIT_OBJECT_DIRECTORY"@, objects)),
        view_variables(objects, index, null_device).contains(("GIT_INDEX_FILE"@, index)),
        view_variables(objects, index, null_device).contains(("GIT_CONFIG_NOSYSTEM"@, "1"@)),
        view_variables(objects, index, null_device).contains(("GIT_CONFIG_GLOBAL"@, null_device)),
        view_variables(objects, index, null_device).contains(("GIT_ATTR_NOSYSTEM"@, "1"@)),
        view_variables(objects, index, null_device).len() == 5,
{
    let v = view_variables(objects, index, null_device);
    assert(v[0] == ("GIT_OBJECT_DIRECTORY"@, objects));
    assert(v[1] == ("GIT_INDEX_FILE"@, index));
    assert(v[2] == ("GIT_CONFIG_NOSYSTEM"@, "1"@));
    assert(v[3] == ("GIT_CONFIG_GLOBAL"@, null_device));
    assert(v[4] == ("GIT_ATTR_NOSYSTEM"@, "1"@));
}

/// What a call reports: its success and its exit code as they were, the bytes
/// that came and the bytes that were kept; of an answer that fits all of it is
/// shown, of a longer one its last twelve thousand characters and where the
/// whole of it is kept.
pub proof fn law_a_call_reports_what_came(
    o: GitOutput,
    args: Seq<Seq<char>>,
    ok: bool,
    code: Option<i32>,
    a: GitAnswer,
    artifact: Seq<char>,
)
    requires
        output_is(o, args, ok, code, a, artifact),
    ensures
        o.ok == ok && o.exit_code == code,
        o.bytes == a.total_bytes,
        o.captured_bytes == vstd::utf8::encode_utf8(a.text@).len(),
        o.capture_truncated == a.capture_truncated,
        ok && a.text@.len() <= 12_000 && !a.capture_truncated ==> o.content@ == a.text@,
        ok && a.text@.len() > 12_000 ==> text::contains(
            o.content@,
            a.text@.skip(a.text@.len() - 12_000),
        ),
        ok && (a.text@.len() > 12_000 || a.capture_truncated) ==> text::ends_with(
            o.content@,
            artifact,
        ),
        !ok && a.text@.len() == 0 ==> o.content@ == "(empty output; is this a git repository?)"@,
{
    text::lemma_byte_len_is_utf8(a.text@);
    let shown = tail_of(a.text@, 12_000);
    if !failed_silently(a, ok) && overflows(a) {
        let note = "\n\nCaptured output"@ + (if a.capture_truncated {
            " (prefix truncated at byte limit)"@
        } else {
            ""@
        }) + ": "@;
        assert(o.content@ =~= shown + note + artifact);
        assert(o.content@.skip(o.content@.len() - artifact.len()) =~= artifact);
        if a.text@.len() > 12_000 {
            law_a_tail_is_the_end_of_the_text(a.text@, 12_000);
            let part = a.text@.skip(a.text@.len() - 12_000);
            let at = shown.len() - 12_000;
            assert(o.content@.subrange(at, at + 12_000) =~= shown.skip(at));
            assert(text::occurs_at(o.content@, part, at));
        }
    }
    if a.text@.len() == 0 {
        let (from, to) = text::law_trimming_takes_white_space_off_the_ends(a.text@);
    }
}

/// The limits of a call.
pub proof fn law_the_limits_of_a_call()
    ensures
        MODEL_OUTPUT_CHARS == 12_000,
{
}

/// A line that an answer lacks is empty.
pub proof fn law_a_missing_line_is_empty(lines: Seq<Seq<char>>, i: int)
    requires
        0 <= i,
    ensures
        i < lines.len() ==> answer_line(lines, i) == lines[i],
        i >= lines.len() ==> answer_line(lines, i) == Seq::<char>::empty(),
{
}

} // verus!
