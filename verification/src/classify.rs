//! Why a command failed, read off its output: the failure classes that tell
//! a caller what to do next.
use crate::outcome::ToolFailureClass;
use crate::text;
use vstd::prelude::*;

verus! {

// ---------------------------------------------------------------------
// The command
// ---------------------------------------------------------------------

/// The first character at or behind `i` that is white space (or is not, for
/// `wanted == false`), or the length of the text.
pub open spec fn space_from(s: Seq<char>, i: int, wanted: bool) -> int
    decreases s.len() - i,
{
    if i < 0 || i >= s.len() {
        s.len() as int
    } else if text::is_space(s[i]) == wanted {
        i
    } else {
        space_from(s, i + 1, wanted)
    }
}

/// The words of a text from character `i` on: what stands between white
/// space.
pub open spec fn words_from(s: Seq<char>, i: int) -> Seq<Seq<char>>
    decreases s.len() - i,
{
    let start = space_from(s, i, false);
    let end = space_from(s, start, true);
    if i < 0 || i > start || start >= s.len() || end <= start || end > s.len() {
        Seq::empty()
    } else {
        seq![s.subrange(start, end)] + words_from(s, end)
    }
}

fn find_space(s: &[char], i: usize, wanted: bool) -> (r: usize)
    requires
        i <= s@.len(),
    ensures
        r == space_from(s@, i as int, wanted),
        i <= r <= s@.len(),
        wanted && i < s@.len() && !text::is_space(s@[i as int]) ==> r > i,
{
    let mut j: usize = i;
    while j < s.len() && text::space(s[j]) != wanted
        invariant
            i <= j <= s@.len(),
            space_from(s@, i as int, wanted) == space_from(s@, j as int, wanted),
            wanted && i < s@.len() && !text::is_space(s@[i as int]) && j == i ==> text::is_space(
                s@[i as int],
            ) != wanted,
        decreases s@.len() - j,
    {
        j = j + 1;
    }
    j
}

/// The words of a command.
fn words(command: &str) -> (out: Vec<String>)
    ensures
        text::views(out@) == words_from(command@, 0),
{
    let chars = text::chars_of(command);
    let n: usize = chars.len();
    let mut out: Vec<String> = Vec::new();
    let mut i: usize = 0;
    let ghost all = words_from(command@, 0);
    assert(text::views(out@) + words_from(command@, 0) =~= all);
    loop
        invariant
            n == chars@.len(),
            chars@ == command@,
            i <= n,
            all == words_from(command@, 0),
            text::views(out@) + words_from(command@, i as int) == all,
        decreases n - i,
    {
        let start: usize = find_space(&chars, i, false);
        let ghost rest = words_from(command@, i as int);
        if start >= n {
            assert(rest =~= Seq::<Seq<char>>::empty());
            assert(text::views(out@) =~= all);
            return out;
        }
        proof {
            lemma_not_space_at(command@, i as int);
        }
        let end: usize = find_space(&chars, start, true);
        let word = text::string_of_range(&chars, start, end);
        proof {
            text::lemma_views_push(out@, word);
            assert(rest == seq![word@] + words_from(command@, end as int));
            assert(text::views(out@).push(word@) + words_from(command@, end as int)
                =~= text::views(out@) + rest);
        }
        out.push(word);
        i = end;
    }
}

proof fn lemma_not_space_at(s: Seq<char>, i: int)
    requires
        0 <= i <= s.len(),
    ensures
        i <= space_from(s, i, false) <= s.len(),
        space_from(s, i, false) < s.len() ==> !text::is_space(s[space_from(s, i, false)]),
    decreases s.len() - i,
{
    if i < s.len() && text::is_space(s[i]) {
        lemma_not_space_at(s, i + 1);
    }
}

/// A text without the quotes at its start.
pub open spec fn unquoted_start(s: Seq<char>) -> Seq<char>
    decreases s.len(),
{
    if s.len() > 0 && s[0] == '"' {
        unquoted_start(s.drop_first())
    } else {
        s
    }
}

/// A text without the quotes at its end.
pub open spec fn unquoted_end(s: Seq<char>) -> Seq<char>
    decreases s.len(),
{
    if s.len() > 0 && s.last() == '"' {
        unquoted_end(s.drop_last())
    } else {
        s
    }
}

/// A text without the quotes around it.
pub open spec fn unquoted(s: Seq<char>) -> Seq<char> {
    unquoted_end(unquoted_start(s))
}

fn unquote(s: &str) -> (out: String)
    ensures
        out@ == unquoted(s@),
{
    let chars = text::chars_of(s);
    let n: usize = chars.len();
    let mut from: usize = 0;
    assert(chars@.skip(0) =~= s@);
    while from < n && chars[from] == '"'
        invariant
            n == chars@.len(),
            chars@ == s@,
            from <= n,
            unquoted_start(s@) == unquoted_start(chars@.skip(from as int)),
        decreases n - from,
    {
        assert(chars@.skip(from as int).drop_first() =~= chars@.skip(from + 1));
        from = from + 1;
    }
    let mut to: usize = n;
    assert(chars@.subrange(from as int, to as int) =~= chars@.skip(from as int));
    while to > from && chars[to - 1] == '"'
        invariant
            from <= to <= n,
            n == chars@.len(),
            unquoted_end(unquoted_start(s@)) == unquoted_end(
                chars@.subrange(from as int, to as int),
            ),
        decreases to,
    {
        assert(chars@.subrange(from as int, to as int).drop_last() =~= chars@.subrange(
            from as int,
            to - 1,
        ));
        to = to - 1;
    }
    text::string_of_range(&chars, from, to)
}

/// Where the last path separator of the first `to` characters stands, or -1.
pub open spec fn last_separator(s: Seq<char>, to: int) -> int
    decreases to,
{
    if to <= 0 {
        -1
    } else if s[to - 1] == '/' || s[to - 1] == '\\' {
        to - 1
    } else {
        last_separator(s, to - 1)
    }
}

/// A text without an ending, however often it stands there.
pub open spec fn without_ending(s: Seq<char>, ending: Seq<char>) -> Seq<char>
    decreases s.len(),
{
    if ending.len() > 0 && text::ends_with(s, ending) {
        without_ending(s.take(s.len() - ending.len()), ending)
    } else {
        s
    }
}

fn strip_ending(s: String, ending: &str) -> (out: String)
    requires
        ending@.len() > 0,
    ensures
        out@ == without_ending(s@, ending@),
{
    let end = text::chars_of(ending);
    let mut out = s;
    while text::str_ends_with(out.as_str(), ending)
        invariant
            end@ == ending@,
            ending@.len() > 0,
            without_ending(s@, ending@) == without_ending(out@, ending@),
        decreases out@.len(),
    {
        let chars = text::chars_of(out.as_str());
        let shorter = text::string_of_range(&chars, 0, chars.len() - end.len());
        assert(shorter@ =~= out@.take(out@.len() - ending@.len()));
        out = shorter;
    }
    out
}

/// The program a word of a command names: its file name without the endings
/// of executables, in lower case.
pub open spec fn program(word: Seq<char>) -> Seq<char> {
    let bare = unquoted(word);
    let name = bare.skip(last_separator(bare, bare.len() as int) + 1);
    text::ascii_lower(
        without_ending(without_ending(without_ending(name, ".exe"@), ".cmd"@), ".bat"@),
    )
}

/// The program a word of a command names, where anything is left of it.
pub fn normalize_exe(token: &str) -> (r: Option<String>)
    ensures
        match r {
            Some(p) => p@ == program(token@) && p@.len() > 0,
            None => program(token@).len() == 0,
        },
{
    let bare = unquote(token);
    let chars = text::chars_of(bare.as_str());
    let mut at: usize = chars.len();
    while at > 0 && !(chars[at - 1] == '/' || chars[at - 1] == '\\')
        invariant
            chars@ == bare@,
            at <= chars@.len(),
            last_separator(bare@, bare@.len() as int) == last_separator(bare@, at as int),
        decreases at,
    {
        at = at - 1;
    }
    let name = text::string_of_range(&chars, at, chars.len());
    proof {
        assert(name@ =~= bare@.skip(at as int));
        reveal_strlit(".exe");
        reveal_strlit(".cmd");
        reveal_strlit(".bat");
    }
    let name = strip_ending(name, ".exe");
    let name = strip_ending(name, ".cmd");
    let name = strip_ending(name, ".bat");
    let lower = text::ascii_lower_str(name.as_str());
    if lower.as_str().is_empty() {
        None
    } else {
        Some(lower)
    }
}

/// The file that a program's subcommand cannot do without.
pub open spec fn marker_for(exe: Seq<char>, sub: Seq<char>) -> Option<Seq<char>> {
    if exe == "cargo"@ && (sub == "test"@ || sub == "build"@ || sub == "run"@ || sub == "check"@ || sub == "clippy"@ || sub == "fmt"@ || sub == "bench"@) {
        Some("Cargo.toml"@)
    } else if exe == "npm"@ && (sub == "test"@ || sub == "install"@ || sub == "ci"@ || sub == "run"@) {
        Some("package.json"@)
    } else if exe == "yarn"@ && (sub == "test"@ || sub == "install"@ || sub == "run"@) {
        Some("package.json"@)
    } else if exe == "pnpm"@ && (sub == "test"@ || sub == "install"@ || sub == "run"@) {
        Some("package.json"@)
    } else if exe == "go"@ && (sub == "test"@ || sub == "build"@ || sub == "run"@ || sub == "mod"@) {
        Some("go.mod"@)
    } else if exe == "mvn"@ && (sub == "test"@ || sub == "package"@ || sub == "install"@) {
        Some("pom.xml"@)
    } else {
        None
    }
}

/// The project file a command cannot do without.
pub open spec fn marker_of(command: Seq<char>) -> Option<Seq<char>> {
    let w = words_from(command, 0);
    if w.len() < 2 {
        None
    } else {
        marker_for(program(w[0]), text::ascii_lower(unquoted(w[1])))
    }
}

fn find_marker(exe: &str, sub: &str) -> (r: Option<&'static str>)
    ensures
        match r {
            Some(m) => marker_for(exe@, sub@) == Some(m@),
            None => marker_for(exe@, sub@) is None,
        },
{
    if text::same(exe, "cargo") && (text::same(sub, "test") || text::same(sub, "build") || text::same(sub, "run") || text::same(sub, "check") || text::same(sub, "clippy") || text::same(sub, "fmt") || text::same(sub, "bench")) {
        Some("Cargo.toml")
    } else if text::same(exe, "npm") && (text::same(sub, "test") || text::same(sub, "install") || text::same(sub, "ci") || text::same(sub, "run")) {
        Some("package.json")
    } else if text::same(exe, "yarn") && (text::same(sub, "test") || text::same(sub, "install") || text::same(sub, "run")) {
        Some("package.json")
    } else if text::same(exe, "pnpm") && (text::same(sub, "test") || text::same(sub, "install") || text::same(sub, "run")) {
        Some("package.json")
    } else if text::same(exe, "go") && (text::same(sub, "test") || text::same(sub, "build") || text::same(sub, "run") || text::same(sub, "mod")) {
        Some("go.mod")
    } else if text::same(exe, "mvn") && (text::same(sub, "test") || text::same(sub, "package") || text::same(sub, "install")) {
        Some("pom.xml")
    } else {
        None
    }
}

/// The project file a command cannot do without.
pub fn required_project_marker(command: &str) -> (r: Option<&'static str>)
    ensures
        match r {
            Some(m) => marker_of(command@) == Some(m@),
            None => marker_of(command@) is None,
        },
{
    let w = words(command);
    let ghost views = text::views(w@);
    if w.len() < 2 {
        return None;
    }
    assert(views[0] == w@[0]@ && views[1] == w@[1]@);
    let sub = text::ascii_lower_str(unquote(w[1].as_str()).as_str());
    match normalize_exe(w[0].as_str()) {
        Some(exe) => find_marker(exe.as_str(), sub.as_str()),
        None => {
            proof {
                reveal_strlit("cargo");
                reveal_strlit("npm");
                reveal_strlit("yarn");
                reveal_strlit("pnpm");
                reveal_strlit("go");
                reveal_strlit("mvn");
            }
            None
        },
    }
}

// ---------------------------------------------------------------------
// The output
// ---------------------------------------------------------------------

/// Whether an output says that a project file was not found.
pub open spec fn says_missing(marker: Seq<char>, tail: Seq<char>) -> bool {
    &&& text::contains(tail, text::ascii_lower(marker))
    &&& {
        ||| text::contains(tail, "could not find"@)
        ||| text::contains(tail, "no such file"@)
        ||| text::contains(tail, "cannot find"@)
        ||| text::contains(tail, "not found"@)
        ||| text::contains(tail, "enoent"@)
    }
}

/// Whether an output says that a project file was not found.
pub fn marker_missing_evidence(marker: &str, tail: &str) -> (r: bool)
    ensures
        r == says_missing(marker@, tail@),
{
    let needle = text::ascii_lower_str(marker);
    text::str_has(tail, needle.as_str()) && (text::str_has(tail, "could not find")
        || text::str_has(tail, "no such file") || text::str_has(tail, "cannot find")
        || text::str_has(tail, "not found") || text::str_has(tail, "enoent"))
}

/// Whether the project has what is needed; a Python project may have one of
/// two older files instead.
pub open spec fn has_marker(markers: Seq<Seq<char>>, needed: Seq<char>) -> bool {
    ||| markers.contains(needed)
    ||| needed == "pyproject.toml"@ && (markers.contains("requirements.txt"@) || markers.contains(
        "setup.py"@,
    ))
}

fn lists(markers: &Vec<String>, name: &str) -> (r: bool)
    ensures
        r == text::views(markers@).contains(name@),
{
    let ghost views = text::views(markers@);
    let mut i: usize = 0;
    while i < markers.len()
        invariant
            i <= markers@.len(),
            views == text::views(markers@),
            forall|k: int| 0 <= k < i ==> views[k] != name@,
        decreases markers@.len() - i,
    {
        assert(views[i as int] == markers@[i as int]@);
        if text::same(markers[i].as_str(), name) {
            return true;
        }
        i = i + 1;
    }
    false
}

/// Whether the project has what is needed.
pub fn marker_present(markers: &Vec<String>, needed: &str) -> (r: bool)
    ensures
        r == has_marker(text::views(markers@), needed@),
{
    lists(markers, needed) || (text::same(needed, "pyproject.toml") && (lists(
        markers,
        "requirements.txt",
    ) || lists(markers, "setup.py")))
}

/// Whether an output says that the command itself does not exist.
pub open spec fn says_unavailable(tail: Seq<char>) -> bool {
    ||| text::contains(tail, "is not recognized"@)
    ||| text::contains(tail, "commandnotfoundexception"@)
    ||| text::contains(tail, "not found"@)
    ||| text::contains(tail, "no such file or directory"@)
    ||| text::contains(tail, "is not recognized as a name of a cmdlet"@)
}

/// Whether an output says that the command itself does not exist.
pub fn looks_unavailable(tail: &str) -> (r: bool)
    ensures
        r == says_unavailable(tail@),
{
    text::str_has(tail, "is not recognized") || text::str_has(tail, "commandnotfoundexception")
        || text::str_has(tail, "not found") || text::str_has(tail, "no such file or directory")
        || text::str_has(tail, "is not recognized as a name of a cmdlet")
}

/// The class of a finished command: none where it succeeded.
/// `wrong_dialect` says whether the command looks like one for another
/// shell.
pub open spec fn class_of(
    outcome: Seq<char>,
    exit_ok: bool,
    output_tail: Seq<char>,
    command: Option<Seq<char>>,
    wrong_dialect: bool,
    markers: Seq<Seq<char>>,
) -> Option<ToolFailureClass> {
    let tail = text::ascii_lower(output_tail);
    let marker = match command {
        Some(c) => marker_of(c),
        None => None,
    };
    if outcome == "cancelled"@ {
        Some(ToolFailureClass::Cancellation)
    } else if outcome == "timed out"@ {
        Some(ToolFailureClass::Timeout)
    } else if exit_ok {
        None
    } else if says_unavailable(tail) {
        if wrong_dialect {
            Some(ToolFailureClass::ShellDialectMismatch)
        } else {
            Some(ToolFailureClass::CommandUnavailable)
        }
    } else if marker matches Some(m) && !has_marker(markers, m) && says_missing(m, tail) {
        Some(ToolFailureClass::MissingProjectMarker)
    } else if wrong_dialect {
        Some(ToolFailureClass::ShellDialectMismatch)
    } else {
        Some(ToolFailureClass::ProcessExit)
    }
}

/// Classifies a finished command.
pub fn classify_process_outcome(
    outcome: &str,
    exit_ok: bool,
    output_tail: &str,
    command: Option<&str>,
    wrong_dialect: bool,
    markers: &Vec<String>,
) -> (r: Option<ToolFailureClass>)
    ensures
        r == class_of(
            outcome@,
            exit_ok,
            output_tail@,
            match command {
                Some(c) => Some(c@),
                None => None,
            },
            wrong_dialect,
            text::views(markers@),
        ),
{
    if text::same(outcome, "cancelled") {
        return Some(ToolFailureClass::Cancellation);
    }
    if text::same(outcome, "timed out") {
        return Some(ToolFailureClass::Timeout);
    }
    if exit_ok {
        return None;
    }
    let tail = text::ascii_lower_str(output_tail);
    if looks_unavailable(tail.as_str()) {
        if wrong_dialect {
            return Some(ToolFailureClass::ShellDialectMismatch);
        }
        return Some(ToolFailureClass::CommandUnavailable);
    }
    let marker = match command {
        Some(c) => required_project_marker(c),
        None => None,
    };
    if let Some(m) = marker {
        if !marker_present(markers, m) && marker_missing_evidence(m, tail.as_str()) {
            return Some(ToolFailureClass::MissingProjectMarker);
        }
    }
    if wrong_dialect {
        return Some(ToolFailureClass::ShellDialectMismatch);
    }
    Some(ToolFailureClass::ProcessExit)
}

/// A command that ran to a successful end is never classified, and every
/// other one is.
pub proof fn law_exactly_the_failures_are_classified(
    outcome: Seq<char>,
    exit_ok: bool,
    output_tail: Seq<char>,
    command: Option<Seq<char>>,
    wrong_dialect: bool,
    markers: Seq<Seq<char>>,
)
    ensures
        class_of(outcome, exit_ok, output_tail, command, wrong_dialect, markers) is None <==> (
        exit_ok && outcome != "cancelled"@ && outcome != "timed out"@),
{
}

/// The words of a command are its stretches without white space, in order: the
/// first two are given by where they start and end.
pub proof fn law_the_first_two_words(s: Seq<char>, a: int, b: int, c: int, d: int)
    requires
        0 <= a < b < c < d <= s.len(),
        forall|k: int| 0 <= k < a ==> text::is_space(#[trigger] s[k]),
        forall|k: int| a <= k < b ==> !text::is_space(#[trigger] s[k]),
        forall|k: int| b <= k < c ==> text::is_space(#[trigger] s[k]),
        forall|k: int| c <= k < d ==> !text::is_space(#[trigger] s[k]),
        d < s.len() ==> text::is_space(s[d]),
    ensures
        words_from(s, 0).len() >= 2,
        words_from(s, 0)[0] == s.subrange(a, b),
        words_from(s, 0)[1] == s.subrange(c, d),
{
    lemma_space_from_is(s, 0, false, a);
    lemma_space_from_is(s, a, true, b);
    lemma_space_from_is(s, b, false, c);
    lemma_space_from_is(s, c, true, d);
    reveal_with_fuel(words_from, 3);
    let later = words_from(s, b);
    assert(words_from(s, 0) == seq![s.subrange(a, b)] + later);
    assert(later == seq![s.subrange(c, d)] + words_from(s, d));
    assert(words_from(s, 0)[1] == later[0]);
}

/// A command of one word, or of none, needs no project file.
pub proof fn law_a_single_word_needs_nothing(s: Seq<char>, a: int, b: int)
    requires
        0 <= a <= b <= s.len(),
        forall|k: int| 0 <= k < a ==> text::is_space(#[trigger] s[k]),
        forall|k: int| a <= k < b ==> !text::is_space(#[trigger] s[k]),
        forall|k: int| b <= k < s.len() ==> text::is_space(#[trigger] s[k]),
    ensures
        words_from(s, 0).len() == if a < b {
            1nat
        } else {
            0nat
        },
        marker_of(s) is None,
{
    let n = s.len() as int;
    if a < b {
        lemma_space_from_is(s, 0, false, a);
        lemma_space_from_is(s, a, true, b);
        lemma_space_from_is(s, b, false, n);
        reveal_with_fuel(words_from, 3);
    } else {
        lemma_space_from_is(s, 0, false, n);
    }
}

proof fn lemma_space_from_is(s: Seq<char>, i: int, wanted: bool, at: int)
    requires
        0 <= i <= at <= s.len(),
        forall|k: int| i <= k < at ==> text::is_space(#[trigger] s[k]) != wanted,
        at < s.len() ==> text::is_space(s[at]) == wanted,
    ensures
        space_from(s, i, wanted) == at,
    decreases at - i,
{
    if i < at {
        assert(text::is_space(s[i]) != wanted);
        lemma_space_from_is(s, i + 1, wanted, at);
    }
}

/// Whether a name is a plain one: without quotes, separators and dots.
pub open spec fn is_plain(name: Seq<char>) -> bool {
    name.len() > 0 && forall|k: int|
        0 <= k < name.len() ==> #[trigger] name[k] != '"' && name[k] != '/' && name[k] != '\\'
            && name[k] != '.'
}

/// A program is told by its name alone: the directory before it, the quotes
/// around it, the ending of an executable behind it and its case play no part.
pub proof fn law_a_program_is_told_by_its_name(
    quotes: nat,
    directory: Seq<char>,
    name: Seq<char>,
    ending: Seq<char>,
)
    requires
        is_plain(name),
        ending == ""@ || ending == ".exe"@ || ending == ".cmd"@ || ending == ".bat"@,
        directory.len() > 0 ==> directory[0] != '"' && (directory.last() == '/' || directory.last()
            == '\\'),
    ensures
        program(
            Seq::new(quotes, |k: int| '"') + directory + name + ending + Seq::new(
                quotes,
                |k: int| '"',
            ),
        ) == Seq::new(name.len(), |k: int| text::ascii_lower_char(name[k])),
{
    reveal_strlit("");
    reveal_strlit(".exe");
    reveal_strlit(".cmd");
    reveal_strlit(".bat");
    let marks = Seq::new(quotes, |k: int| '"');
    let inner = directory + name + ending;
    let word = marks + directory + name + ending + marks;
    assert(word =~= marks + (inner + marks));
    lemma_unquoted_start(quotes, inner + marks);
    lemma_unquoted_end(inner, quotes);
    assert(inner.last() != '"') by {
        if ending.len() == 0 {
            assert(inner.last() == name.last());
        } else {
            assert(inner.last() == ending.last());
        }
    }
    assert(inner[0] != '"') by {
        if directory.len() == 0 {
            assert(inner[0] == name[0]);
        }
    }
    assert(unquoted(word) == inner);
    let tail = name + ending;
    lemma_last_separator(inner, directory.len() - 1, inner.len() as int);
    assert(inner.skip(directory.len() as int) =~= tail);
    assert forall|e: Seq<char>| e == ".exe"@ || e == ".cmd"@ || e == ".bat"@ implies
        #[trigger] without_ending(name, e) == name by {
        if text::ends_with(name, e) {
            assert(name.skip(name.len() - e.len())[0] == name[name.len() - 4]);
        }
    }
    assert forall|e: Seq<char>|
        (e == ".exe"@ || e == ".cmd"@ || e == ".bat"@) && ending.len() > 0 && e != ending implies
        #[trigger] without_ending(tail, e) == tail by {
        if text::ends_with(tail, e) {
            assert(tail.skip(tail.len() - 4) =~= ending);
        }
    }
    if ending.len() > 0 {
        assert(tail.skip(tail.len() - 4) =~= ending);
        assert(text::ends_with(tail, ending));
        assert(tail.take(tail.len() - 4) =~= name);
        assert(without_ending(tail, ending) == without_ending(name, ending));
    } else {
        assert(tail =~= name);
    }
    assert(".exe"@[1] == 'e' && ".cmd"@[1] == 'c' && ".bat"@[1] == 'b');
    assert(without_ending(without_ending(without_ending(tail, ".exe"@), ".cmd"@), ".bat"@)
        == name);
    assert(text::ascii_lower(name) =~= Seq::new(
        name.len(),
        |k: int| text::ascii_lower_char(name[k]),
    ));
}

proof fn lemma_unquoted_start(quotes: nat, rest: Seq<char>)
    requires
        rest.len() > 0,
        rest[0] != '"',
    ensures
        unquoted_start(Seq::new(quotes, |k: int| '"') + rest) == rest,
    decreases quotes,
{
    let all = Seq::new(quotes, |k: int| '"') + rest;
    if quotes > 0 {
        lemma_unquoted_start((quotes - 1) as nat, rest);
        assert(all.drop_first() =~= Seq::new((quotes - 1) as nat, |k: int| '"') + rest);
    } else {
        assert(all =~= rest);
    }
}

proof fn lemma_unquoted_end(rest: Seq<char>, quotes: nat)
    requires
        rest.len() > 0,
        rest.last() != '"',
    ensures
        unquoted_end(rest + Seq::new(quotes, |k: int| '"')) == rest,
    decreases quotes,
{
    let all = rest + Seq::new(quotes, |k: int| '"');
    if quotes > 0 {
        lemma_unquoted_end(rest, (quotes - 1) as nat);
        assert(all.drop_last() =~= rest + Seq::new((quotes - 1) as nat, |k: int| '"'));
    } else {
        assert(all =~= rest);
    }
}

proof fn lemma_last_separator(s: Seq<char>, at: int, to: int)
    requires
        -1 <= at < to <= s.len() || at == -1 && to == 0,
        at >= 0 ==> s[at] == '/' || s[at] == '\\',
        forall|k: int| at < k < to ==> #[trigger] s[k] != '/' && s[k] != '\\',
    ensures
        last_separator(s, to) == at,
    decreases to,
{
    if at < to - 1 {
        lemma_last_separator(s, at, to - 1);
    }
}

/// The subcommands that need a project file, and the file that each needs.
pub proof fn law_the_project_files_of_commands(exe: Seq<char>, sub: Seq<char>)
    ensures
        marker_for("cargo"@, sub) is Some <==> seq![
            "test"@,
            "build"@,
            "run"@,
            "check"@,
            "clippy"@,
            "fmt"@,
            "bench"@,
        ].contains(sub),
        marker_for("npm"@, sub) is Some <==> seq!["test"@, "install"@, "ci"@, "run"@].contains(sub),
        marker_for("yarn"@, sub) is Some <==> seq!["test"@, "install"@, "run"@].contains(sub),
        marker_for("pnpm"@, sub) is Some <==> seq!["test"@, "install"@, "run"@].contains(sub),
        marker_for("go"@, sub) is Some <==> seq!["test"@, "build"@, "run"@, "mod"@].contains(sub),
        marker_for("mvn"@, sub) is Some <==> seq!["test"@, "package"@, "install"@].contains(sub),
        marker_for(exe, sub) is Some ==> seq![
            "cargo"@,
            "npm"@,
            "yarn"@,
            "pnpm"@,
            "go"@,
            "mvn"@,
        ].contains(exe),
        marker_for("cargo"@, sub) matches Some(m) ==> m == "Cargo.toml"@,
        marker_for("npm"@, sub) matches Some(m) ==> m == "package.json"@,
        marker_for("yarn"@, sub) matches Some(m) ==> m == "package.json"@,
        marker_for("pnpm"@, sub) matches Some(m) ==> m == "package.json"@,
        marker_for("go"@, sub) matches Some(m) ==> m == "go.mod"@,
        marker_for("mvn"@, sub) matches Some(m) ==> m == "pom.xml"@,
{
    reveal_strlit("cargo");
    reveal_strlit("npm");
    reveal_strlit("yarn");
    reveal_strlit("pnpm");
    reveal_strlit("go");
    reveal_strlit("mvn");
    assert("npm"@[0] == 'n' && "mvn"@[0] == 'm' && "yarn"@[0] == 'y' && "pnpm"@[0] == 'p');
    assert("cargo"@.len() == 5 && "npm"@.len() == 3 && "yarn"@.len() == 4 && "pnpm"@.len() == 4
        && "go"@.len() == 2 && "mvn"@.len() == 3);
    let cargo = seq!["test"@, "build"@, "run"@, "check"@, "clippy"@, "fmt"@, "bench"@];
    assert(cargo[0] == "test"@ && cargo[1] == "build"@ && cargo[2] == "run"@ && cargo[3] == "check"@
        && cargo[4] == "clippy"@ && cargo[5] == "fmt"@ && cargo[6] == "bench"@);
    let npm = seq!["test"@, "install"@, "ci"@, "run"@];
    assert(npm[0] == "test"@ && npm[1] == "install"@ && npm[2] == "ci"@ && npm[3] == "run"@);
    let yarn = seq!["test"@, "install"@, "run"@];
    assert(yarn[0] == "test"@ && yarn[1] == "install"@ && yarn[2] == "run"@);
    let go = seq!["test"@, "build"@, "run"@, "mod"@];
    assert(go[0] == "test"@ && go[1] == "build"@ && go[2] == "run"@ && go[3] == "mod"@);
    let mvn = seq!["test"@, "package"@, "install"@];
    assert(mvn[0] == "test"@ && mvn[1] == "package"@ && mvn[2] == "install"@);
    let all = seq!["cargo"@, "npm"@, "yarn"@, "pnpm"@, "go"@, "mvn"@];
    assert(all[0] == "cargo"@ && all[1] == "npm"@ && all[2] == "yarn"@ && all[3] == "pnpm"@
        && all[4] == "go"@ && all[5] == "mvn"@);
}

/// An output tells of a missing file where it names the file, in any case, and
/// holds one of five phrases; it tells of a missing command where it holds one
/// of four.
pub proof fn law_the_phrases_of_an_output(marker: Seq<char>, tail: Seq<char>)
    ensures
        says_missing(marker, tail) <==> text::contains(tail, text::ascii_lower(marker)) && (
        text::contains(tail, "could not find"@) || text::contains(tail, "no such file"@)
            || text::contains(tail, "cannot find"@) || text::contains(tail, "not found"@)
            || text::contains(tail, "enoent"@)),
        text::contains(tail, "is not recognized"@) || text::contains(
            tail,
            "commandnotfoundexception"@,
        ) || text::contains(tail, "not found"@) || text::contains(
            tail,
            "no such file or directory"@,
        ) <==> says_unavailable(tail),
{
    reveal_strlit("is not recognized");
    reveal_strlit("is not recognized as a name of a cmdlet");
    let long = "is not recognized as a name of a cmdlet"@;
    let short = "is not recognized"@;
    if text::contains(tail, long) {
        let at = choose|at: int| text::occurs_at(tail, long, at);
        assert(long.take(17) =~= short);
        assert(tail.subrange(at, at + 17) =~= tail.subrange(at, at + long.len()).take(17));
        assert(text::occurs_at(tail, short, at));
    }
}

/// A Python project is marked by any of its three files; any other project by
/// its own file alone.
pub proof fn law_a_project_is_marked_by_its_file(markers: Seq<Seq<char>>, needed: Seq<char>)
    ensures
        needed != "pyproject.toml"@ ==> has_marker(markers, needed) == markers.contains(needed),
        has_marker(markers, "pyproject.toml"@) <==> markers.contains("pyproject.toml"@)
            || markers.contains("requirements.txt"@) || markers.contains("setup.py"@),
{
}

/// What a finished command is classified as: what ended it from outside comes
/// first, then a missing command, then a missing project file, then the wrong
/// dialect; a command in the wrong dialect is never reported as missing.
pub proof fn law_the_first_reason_classifies(
    outcome: Seq<char>,
    exit_ok: bool,
    output_tail: Seq<char>,
    command: Option<Seq<char>>,
    wrong_dialect: bool,
    markers: Seq<Seq<char>>,
)
    ensures
        ({
            let class = class_of(outcome, exit_ok, output_tail, command, wrong_dialect, markers);
            let ran = outcome != "cancelled"@ && outcome != "timed out"@ && !exit_ok;
            let missing = says_unavailable(text::ascii_lower(output_tail));
            let project = command is Some && marker_of(command->0) is Some && !has_marker(
                markers,
                marker_of(command->0)->0,
            ) && says_missing(marker_of(command->0)->0, text::ascii_lower(output_tail));
            &&& class == Some(ToolFailureClass::Cancellation) <==> outcome == "cancelled"@
            &&& class == Some(ToolFailureClass::Timeout) <==> outcome == "timed out"@
            &&& class == Some(ToolFailureClass::CommandUnavailable) <==> ran && missing
                && !wrong_dialect
            &&& class == Some(ToolFailureClass::MissingProjectMarker) <==> ran && !missing
                && project
            &&& class == Some(ToolFailureClass::ShellDialectMismatch) <==> ran && wrong_dialect
                && (missing || !project)
            &&& class == Some(ToolFailureClass::ProcessExit) <==> ran && !missing && !project
                && !wrong_dialect
        }),
{
    reveal_strlit("cancelled");
    reveal_strlit("timed out");
    assert("cancelled"@[0] == 'c' && "timed out"@[0] == 't');
}

/// What a command needs is told by its first two words: the program, and its
/// subcommand without quotes and in lower case.
pub proof fn law_a_command_is_told_by_its_first_two_words(
    s: Seq<char>,
    a: int,
    b: int,
    c: int,
    d: int,
)
    requires
        0 <= a < b < c < d <= s.len(),
        forall|k: int| 0 <= k < a ==> text::is_space(#[trigger] s[k]),
        forall|k: int| a <= k < b ==> !text::is_space(#[trigger] s[k]),
        forall|k: int| b <= k < c ==> text::is_space(#[trigger] s[k]),
        forall|k: int| c <= k < d ==> !text::is_space(#[trigger] s[k]),
        d < s.len() ==> text::is_space(s[d]),
    ensures
        marker_of(s) == marker_for(
            program(s.subrange(a, b)),
            text::ascii_lower(unquoted(s.subrange(c, d))),
        ),
{
    law_the_first_two_words(s, a, b, c, d);
}

} // verus!
