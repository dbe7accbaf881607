//! What ordinary tools do not show: the runtime's own state and the version
//! control directory.
use crate::text;
use vstd::prelude::*;

verus! {

/// Directories the workspace scanners skip, so that build outputs and
/// runtime state never pollute what is searched.
pub open spec fn ignored_dir(name: Seq<char>) -> bool {
    ||| name == ".git"@
    ||| name == ".focus-agent"@
    ||| name == "target"@
    ||| name == "node_modules"@
    ||| name == "vendor"@
    ||| name == "dist"@
    ||| name == "build"@
    ||| name == ".idea"@
    ||| name == ".vscode"@
}

/// Whether a scanner skips a directory of this name.
pub fn is_ignored_dir(name: &str) -> (r: bool)
    ensures
        r == ignored_dir(name@),
{
    text::same(name, ".git") || text::same(name, ".focus-agent") || text::same(name, "target")
        || text::same(name, "node_modules") || text::same(name, "vendor") || text::same(
        name,
        "dist",
    ) || text::same(name, "build") || text::same(name, ".idea") || text::same(name, ".vscode")
}

/// Names that ordinary listings and reads hide.
pub open spec fn hidden_name(name: Seq<char>) -> bool {
    name == ".focus-agent"@ || name == ".git"@
}

/// Whether a name is hidden from ordinary tools.
pub fn is_hidden_name(name: &str) -> (r: bool)
    ensures
        r == hidden_name(name@),
{
    text::same(name, ".focus-agent") || text::same(name, ".git")
}

/// What a walk over a directory tree does with one entry.
#[derive(Clone, Copy, Debug, PartialEq, Eq, Structural)]
pub enum WalkStep {
    /// The budget is spent.
    Stop,
    /// Neither a file nor a directory to be searched.
    Skip,
    /// A directory to be searched later.
    Descend,
    /// A file to be collected.
    Collect,
}

/// What a directory entry is.
#[derive(Clone, Copy, Debug, PartialEq, Eq, Structural)]
pub enum EntryKind {
    Dir,
    File,
    Other,
    /// Its kind could not be found out.
    Unknown,
}

/// A walk that collects files until a budget is spent, passing over the
/// directories scanners skip.
#[derive(Clone, Copy, Debug, PartialEq, Eq, Structural)]
pub struct Walk {
    /// How many more files may be collected.
    pub budget: usize,
    /// How many entries were seen since the walk last yielded.
    pub since_yield: u32,
}

/// After how many entries a cancellable walk yields.
pub const WALK_YIELD_EVERY: u32 = 32;

impl Walk {
    /// A walk that may collect `budget` files.
    pub fn new(budget: usize) -> (w: Walk)
        ensures
            w.budget == budget,
            w.since_yield == 0,
    {
        Walk { budget, since_yield: 0 }
    }

    /// Counts one entry of a cancellable walk; `true` when it is time to
    /// yield, which starts the count anew.
    pub fn tick(&mut self) -> (due: bool)
        requires
            old(self).since_yield < WALK_YIELD_EVERY,
        ensures
            final(self).budget == old(self).budget,
            final(self).since_yield < WALK_YIELD_EVERY,
            due == (old(self).since_yield + 1 >= WALK_YIELD_EVERY),
            final(self).since_yield == if due {
                0
            } else {
                old(self).since_yield + 1
            },
    {
        self.since_yield = self.since_yield + 1;
        if self.since_yield >= WALK_YIELD_EVERY {
            self.since_yield = 0;
            return true;
        }
        false
    }

    /// Decides on one entry and spends the budget on a collected file.
    pub fn visit(&mut self, name: &str, kind: EntryKind) -> (r: WalkStep)
        ensures
            final(self).since_yield == old(self).since_yield,
            r == if old(self).budget == 0 {
                WalkStep::Stop
            } else if kind == EntryKind::Dir {
                if ignored_dir(name@) {
                    WalkStep::Skip
                } else {
                    WalkStep::Descend
                }
            } else if kind == EntryKind::File {
                WalkStep::Collect
            } else {
                WalkStep::Skip
            },
            final(self).budget == if r == WalkStep::Collect {
                old(self).budget - 1
            } else {
                old(self).budget as int
            },
    {
        if self.budget == 0 {
            return WalkStep::Stop;
        }
        match kind {
            EntryKind::Dir => if is_ignored_dir(name) {
                WalkStep::Skip
            } else {
                WalkStep::Descend
            },
            EntryKind::File => {
                self.budget = self.budget - 1;
                WalkStep::Collect
            },
            EntryKind::Other => WalkStep::Skip,
            EntryKind::Unknown => WalkStep::Skip,
        }
    }
}

/// A path the way tools show it: with forward slashes on every platform.
pub open spec fn shown_path(path: Seq<char>) -> Seq<char> {
    text::replaced(path, seq!['\\'], seq!['/'])
}

/// A path with forward slashes.
pub fn forward_slashes(path: &str) -> (out: String)
    ensures
        out@ == shown_path(path@),
{
    let chars = text::chars_of(path);
    let from: [char; 1] = ['\\'];
    let to: [char; 1] = ['/'];
    assert(from@ =~= seq!['\\']);
    assert(to@ =~= seq!['/']);
    text::replace_all(&chars, &from, &to)
}

/// Showing a path changes its backslashes to slashes, character by character,
/// and nothing else.
pub proof fn law_a_shown_path_differs_in_its_slashes_only(path: Seq<char>)
    ensures
        shown_path(path).len() == path.len(),
        forall|k: int|
            0 <= k < path.len() ==> #[trigger] shown_path(path)[k] == if path[k] == '\\' {
                '/'
            } else {
                path[k]
            },
{
    lemma_shown_from(path, 0);
    let shown = shown_path(path);
    assert forall|k: int| 0 <= k < path.len() implies #[trigger] shown[k] == if path[k] == '\\' {
        '/'
    } else {
        path[k]
    } by {}
}

proof fn lemma_shown_from(path: Seq<char>, i: int)
    requires
        0 <= i <= path.len(),
    ensures
        ({
            let rest = text::replaced_from(path, seq!['\\'], seq!['/'], i);
            &&& rest.len() == path.len() - i
            &&& forall|k: int|
                0 <= k < rest.len() ==> #[trigger] rest[k] == if path[i + k] == '\\' {
                    '/'
                } else {
                    path[i + k]
                }
        }),
    decreases path.len() - i,
{
    if i < path.len() {
        let back = seq!['\\'];
        lemma_shown_from(path, i + 1);
        text::law_an_occurrence_is_equal_characters(path, back, i);
        assert(back[0] == '\\');
        let rest = text::replaced_from(path, back, seq!['/'], i);
        let next = text::replaced_from(path, back, seq!['/'], i + 1);
        if path[i] == '\\' {
            assert(text::occurs_at(path, back, i));
            assert(rest == seq!['/'] + next);
        } else {
            assert(!text::occurs_at(path, back, i));
            assert(rest == seq![path[i]] + next);
        }
        assert forall|k: int| 0 <= k < rest.len() implies #[trigger] rest[k] == if path[i + k]
            == '\\' {
            '/'
        } else {
            path[i + k]
        } by {
            if k > 0 {
                assert(rest[k] == next[k - 1]);
            }
        }
    }
}

/// A scanner passes over exactly the directories of version control, of the
/// runtime, of build outputs, of fetched packages and of editors.
pub proof fn law_exactly_nine_directories_are_passed_over(name: Seq<char>)
    ensures
        ignored_dir(name) <==> seq![
            ".git"@,
            ".focus-agent"@,
            "target"@,
            "node_modules"@,
            "vendor"@,
            "dist"@,
            "build"@,
            ".idea"@,
            ".vscode"@,
        ].contains(name),
        hidden_name(name) <==> seq![".git"@, ".focus-agent"@].contains(name),
{
    let all = seq![
        ".git"@,
        ".focus-agent"@,
        "target"@,
        "node_modules"@,
        "vendor"@,
        "dist"@,
        "build"@,
        ".idea"@,
        ".vscode"@,
    ];
    assert(all[0] == ".git"@ && all[1] == ".focus-agent"@ && all[2] == "target"@);
    assert(all[3] == "node_modules"@ && all[4] == "vendor"@ && all[5] == "dist"@);
    assert(all[6] == "build"@ && all[7] == ".idea"@ && all[8] == ".vscode"@);
    let hidden = seq![".git"@, ".focus-agent"@];
    assert(hidden[0] == ".git"@ && hidden[1] == ".focus-agent"@);
    if all.contains(name) {
        let k = choose|k: int| 0 <= k < all.len() && all[k] == name;
        assert(0 <= k < 9);
    }
}

} // verus!
