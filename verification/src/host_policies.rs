//! Which arguments of a builtin tool decide what it does to the host, and
//! what has to hold before a process may start.
use crate::attribution;
use crate::attribution::ToolExecutionPurpose;
use crate::registry;
use crate::text;
use vstd::prelude::*;

verus! {

/// What a tool does to the host, and which of its arguments say so.
#[derive(Debug)]
pub enum HostEffectBinding {
    ReadOnly,
    WorkspaceWrite { path_arg: String, content_args: Vec<String> },
    ExecArgv { argv_arg: String },
    ShellExec { command_arg: String, dialect_arg: String },
    SessionExec { argv_arg: String, action_arg: String },
    /// It runs what the host registered under the recipe that the argument
    /// names.
    RecipeExec { recipe_arg: String },
}

/// What a tool does to the host, as a value.
pub enum Binding {
    ReadOnly,
    WorkspaceWrite { path_arg: Seq<char>, content_args: Seq<Seq<char>> },
    ExecArgv { argv_arg: Seq<char> },
    ShellExec { command_arg: Seq<char>, dialect_arg: Seq<char> },
    SessionExec { argv_arg: Seq<char>, action_arg: Seq<char> },
    RecipeExec { recipe_arg: Seq<char> },
}

impl View for HostEffectBinding {
    type V = Binding;

    open spec fn view(&self) -> Binding {
        match self {
            HostEffectBinding::ReadOnly => Binding::ReadOnly,
            HostEffectBinding::WorkspaceWrite { path_arg, content_args } => Binding::WorkspaceWrite {
                path_arg: path_arg@,
                content_args: text::views(content_args@),
            },
            HostEffectBinding::ExecArgv { argv_arg } => Binding::ExecArgv { argv_arg: argv_arg@ },
            HostEffectBinding::ShellExec { command_arg, dialect_arg } => Binding::ShellExec {
                command_arg: command_arg@,
                dialect_arg: dialect_arg@,
            },
            HostEffectBinding::SessionExec { argv_arg, action_arg } => Binding::SessionExec {
                argv_arg: argv_arg@,
                action_arg: action_arg@,
            },
            HostEffectBinding::RecipeExec { recipe_arg } => Binding::RecipeExec {
                recipe_arg: recipe_arg@,
            },
        }
    }
}

/// The policy of one tool.
#[derive(Debug)]
pub struct HostToolPolicy {
    pub tool_name: String,
    pub binding: HostEffectBinding,
}

/// The tools that only read.
pub open spec fn reads_only(name: Seq<char>) -> bool {
    name == "fs.list"@ || name == "fs.read"@ || name == "search.grep"@ || name == "artifact.read"@
        || name == "git.status"@ || name == "git.diff"@ || name == "capability.manage"@ || name
        == "context.manage"@ || name == "task.complete"@ || name == "code.symbols"@ || name
        == "code.diagnostics"@ || name == "task.manage"@
}

/// What a builtin tool does to the host. A tool without an entry may do
/// nothing.
pub open spec fn binding_of(name: Seq<char>) -> Option<Binding> {
    if reads_only(name) {
        Some(Binding::ReadOnly)
    } else if name == "fs.write"@ {
        Some(Binding::WorkspaceWrite { path_arg: "path"@, content_args: seq!["content"@] })
    } else if name == "edit.replace"@ {
        Some(Binding::WorkspaceWrite { path_arg: "path"@, content_args: seq!["new"@] })
    } else if name == "fs.mkdir"@ || name == "edit.patch"@ {
        Some(Binding::WorkspaceWrite { path_arg: "path"@, content_args: Seq::empty() })
    } else if name == "process.run"@ {
        Some(Binding::ExecArgv { argv_arg: "argv"@ })
    } else if name == "shell.exec"@ {
        Some(Binding::ShellExec { command_arg: "command"@, dialect_arg: "dialect"@ })
    } else if name == "process.session"@ {
        Some(Binding::SessionExec { argv_arg: "argv"@, action_arg: "action"@ })
    } else if name == registry::VERIFY_RUN_TOOL_NAME@ {
        Some(Binding::RecipeExec { recipe_arg: "recipe_id"@ })
    } else {
        None
    }
}

/// The names of the tools that the dispatcher offers, the control tool and
/// the verifier among them.
pub open spec fn builtin_tool_names() -> Seq<Seq<char>> {
    seq![
        "fs.list"@,
        "fs.read"@,
        "search.grep"@,
        "artifact.read"@,
        "git.status"@,
        "git.diff"@,
        "capability.manage"@,
        "context.manage"@,
        "task.complete"@,
        "code.symbols"@,
        "code.diagnostics"@,
        "task.manage"@,
        "fs.write"@,
        "fs.mkdir"@,
        "edit.replace"@,
        "edit.patch"@,
        "process.run"@,
        "shell.exec"@,
        "process.session"@,
        "verify.run"@,
    ]
}

fn write_to(content_args: Vec<String>) -> (b: HostEffectBinding)
    ensures
        b@ == (Binding::WorkspaceWrite {
            path_arg: "path"@,
            content_args: text::views(content_args@),
        }),
{
    HostEffectBinding::WorkspaceWrite { path_arg: "path".to_owned(), content_args }
}

/// The policies of the builtin tools.
#[derive(Debug)]
pub struct BuiltinToolPolicies;

impl BuiltinToolPolicies {
    /// The policy of a tool; an unknown tool has none.
    pub fn policy_for(&self, tool_name: &str) -> (r: Option<HostToolPolicy>)
        ensures
            match r {
                Some(policy) => policy.tool_name@ == tool_name@ && binding_of(tool_name@) == Some(
                    policy.binding@,
                ),
                None => binding_of(tool_name@) is None,
            },
    {
        let binding = if text::same(tool_name, "fs.list") || text::same(tool_name, "fs.read")
            || text::same(tool_name, "search.grep") || text::same(tool_name, "artifact.read")
            || text::same(tool_name, "git.status") || text::same(tool_name, "git.diff")
            || text::same(tool_name, "capability.manage") || text::same(tool_name, "context.manage")
            || text::same(tool_name, "task.complete") || text::same(tool_name, "code.symbols")
            || text::same(tool_name, "code.diagnostics") || text::same(tool_name, "task.manage") {
            HostEffectBinding::ReadOnly
        } else if text::same(tool_name, "fs.write") {
            let mut content_args: Vec<String> = Vec::new();
            content_args.push("content".to_owned());
            assert(text::views(content_args@) =~= seq!["content"@]);
            write_to(content_args)
        } else if text::same(tool_name, "edit.replace") {
            let mut content_args: Vec<String> = Vec::new();
            content_args.push("new".to_owned());
            assert(text::views(content_args@) =~= seq!["new"@]);
            write_to(content_args)
        } else if text::same(tool_name, "fs.mkdir") || text::same(tool_name, "edit.patch") {
            let content_args: Vec<String> = Vec::new();
            assert(text::views(content_args@) =~= Seq::empty());
            write_to(content_args)
        } else if text::same(tool_name, "process.run") {
            HostEffectBinding::ExecArgv { argv_arg: "argv".to_owned() }
        } else if text::same(tool_name, "shell.exec") {
            HostEffectBinding::ShellExec {
                command_arg: "command".to_owned(),
                dialect_arg: "dialect".to_owned(),
            }
        } else if text::same(tool_name, "process.session") {
            HostEffectBinding::SessionExec {
                argv_arg: "argv".to_owned(),
                action_arg: "action".to_owned(),
            }
        } else if text::same(tool_name, registry::VERIFY_RUN_TOOL_NAME) {
            HostEffectBinding::RecipeExec { recipe_arg: "recipe_id".to_owned() }
        } else {
            return None;
        };
        Some(HostToolPolicy { tool_name: tool_name.to_owned(), binding })
    }
}

fn push_policy(list: &mut Vec<HostToolPolicy>, name: &str)
    requires
        binding_of(name@) is Some,
    ensures
        final(list)@.len() == old(list)@.len() + 1,
        final(list)@.drop_last() == old(list)@,
        final(list)@.last().tool_name@ == name@,
        binding_of(name@) == Some(final(list)@.last().binding@),
{
    match (BuiltinToolPolicies).policy_for(name) {
        Some(policy) => {
            list.push(policy);
            assert(list@.drop_last() =~= old(list)@);
        },
        None => {},
    }
}

/// Every builtin policy, one for each tool.
pub fn builtin_tool_policies() -> (list: Vec<HostToolPolicy>)
    ensures
        list@.len() == builtin_tool_names().len(),
        forall|i: int|
            0 <= i < list@.len() ==> (#[trigger] list@[i]).tool_name@ == builtin_tool_names()[i]
                && binding_of(list@[i].tool_name@) == Some(list@[i].binding@),
{
    let names: [&str; 20] = [
        "fs.list",
        "fs.read",
        "search.grep",
        "artifact.read",
        "git.status",
        "git.diff",
        "capability.manage",
        "context.manage",
        "task.complete",
        "code.symbols",
        "code.diagnostics",
        "task.manage",
        "fs.write",
        "fs.mkdir",
        "edit.replace",
        "edit.patch",
        "process.run",
        "shell.exec",
        "process.session",
        "verify.run",
    ];
    let mut list: Vec<HostToolPolicy> = Vec::new();
    let mut i: usize = 0;
    proof {
        assert forall|k: int| 0 <= k < 20 implies (#[trigger] names@[k])@ == builtin_tool_names()[k] by {}
    }
    while i < 20
        invariant
            i <= 20,
            names@.len() == 20,
            forall|k: int| 0 <= k < 20 ==> (#[trigger] names@[k])@ == builtin_tool_names()[k],
            list@.len() == i,
            forall|k: int|
                0 <= k < i ==> (#[trigger] list@[k]).tool_name@ == builtin_tool_names()[k]
                    && binding_of(list@[k].tool_name@) == Some(list@[k].binding@),
        decreases 20 - i,
    {
        let ghost before = list@;
        proof {
            law_exactly_the_builtin_tools_have_a_policy(builtin_tool_names()[i as int]);
            assert(builtin_tool_names().contains(builtin_tool_names()[i as int]));
        }
        push_policy(&mut list, names[i]);
        proof {
            assert forall|k: int| 0 <= k < i + 1 implies (#[trigger] list@[k]).tool_name@
                == builtin_tool_names()[k] && binding_of(list@[k].tool_name@) == Some(
                list@[k].binding@,
            ) by {
                if k < i {
                    assert(list@.drop_last()[k] == before[k]);
                }
            }
        }
        i += 1;
    }
    list
}

/// Exactly the tools that the dispatcher offers have a policy: none is left
/// out, and a name that it does not know has none.
pub proof fn law_exactly_the_builtin_tools_have_a_policy(name: Seq<char>)
    ensures
        binding_of(name) is Some <==> builtin_tool_names().contains(name),
{
    let names = builtin_tool_names();
    if binding_of(name) is Some {
        let i = if name == "fs.list"@ {
            0int
        } else if name == "fs.read"@ {
            1
        } else if name == "search.grep"@ {
            2
        } else if name == "artifact.read"@ {
            3
        } else if name == "git.status"@ {
            4
        } else if name == "git.diff"@ {
            5
        } else if name == "capability.manage"@ {
            6
        } else if name == "context.manage"@ {
            7
        } else if name == "task.complete"@ {
            8
        } else if name == "code.symbols"@ {
            9
        } else if name == "code.diagnostics"@ {
            10
        } else if name == "task.manage"@ {
            11
        } else if name == "fs.write"@ {
            12
        } else if name == "fs.mkdir"@ {
            13
        } else if name == "edit.replace"@ {
            14
        } else if name == "edit.patch"@ {
            15
        } else if name == "process.run"@ {
            16
        } else if name == "shell.exec"@ {
            17
        } else if name == "process.session"@ {
            18
        } else {
            19
        };
        assert(names[i] == name);
    }
    if names.contains(name) {
        let i = choose|i: int| 0 <= i < names.len() && names[i] == name;
        assert(0 <= i < 20);
    }
}

/// Every tool whose calls the host attributes has a policy, and so has the
/// verifier; and the policy agrees with the purpose: what only observes,
/// searches or controls has no effect, and what mutates writes to the
/// workspace.
pub proof fn law_every_attributed_tool_has_a_policy(name: Seq<char>)
    ensures
        attribution::purpose(name) != ToolExecutionPurpose::Unattributed || name
            == registry::VERIFY_RUN_TOOL_NAME@ ==> binding_of(name) is Some,
        attribution::purpose(name) == ToolExecutionPurpose::Observe || attribution::purpose(name)
            == ToolExecutionPurpose::Search || attribution::purpose(name)
            == ToolExecutionPurpose::Control ==> binding_of(name) == Some(Binding::ReadOnly),
        attribution::purpose(name) == ToolExecutionPurpose::Mutate ==> binding_of(
            name,
        )->Some_0 is WorkspaceWrite,
        attribution::purpose(name) == ToolExecutionPurpose::Opaque ==> !(binding_of(name)->Some_0
            is ReadOnly || binding_of(name)->Some_0 is WorkspaceWrite),
{
    reveal_strlit("fs.list");
    reveal_strlit("fs.read");
    reveal_strlit("search.grep");
    reveal_strlit("artifact.read");
    reveal_strlit("git.status");
    reveal_strlit("git.diff");
    reveal_strlit("capability.manage");
    reveal_strlit("context.manage");
    reveal_strlit("task.complete");
    reveal_strlit("code.symbols");
    reveal_strlit("code.diagnostics");
    reveal_strlit("task.manage");
    reveal_strlit("fs.write");
    reveal_strlit("fs.mkdir");
    reveal_strlit("edit.replace");
    reveal_strlit("edit.patch");
    reveal_strlit("process.run");
    reveal_strlit("shell.exec");
    reveal_strlit("process.session");
    reveal_strlit("verify.run");
    // Names of one length differ in their first character, but for two.
    assert("git.diff"@[0] == 'g' && "git.status"@[0] == 'g' && "code.symbols"@[0] == 'c');
    assert("search.grep"@[0] == 's' && "task.manage"@[0] == 't');
    assert("edit.replace"@[0] == 'e' && "edit.patch"@[0] == 'e' && "shell.exec"@[0] == 's');
    assert("fs.write"@[0] == 'f' && "fs.mkdir"@[0] == 'f' && "process.run"@[0] == 'p');
    if attribution::purpose(name) == ToolExecutionPurpose::Opaque {
        assert(name.len() == 10 && name[0] == 's' || name.len() == 11 && name[0] == 'p'
            || name.len() == 15);
        assert(!reads_only(name));
    }
}

// ---------------------------------------------------------------------
// Before a process starts
// ---------------------------------------------------------------------

/// Why a process may not start.
#[derive(Debug)]
pub enum SpawnRefusal {
    NoContext,
    InvalidContext(String),
    NotAProcessTool(String),
    OtherTool { identity: String, expected: String },
    NotCovered,
}

/// The text of a refusal.
pub open spec fn spawn_refusal_text(e: SpawnRefusal) -> Seq<char> {
    match e {
        SpawnRefusal::NoContext =>
            "non-transactional process tools cannot spawn without Core-issued effect identity"@,
        SpawnRefusal::InvalidContext(reason) => reason@,
        SpawnRefusal::NotAProcessTool(name) => "'"@ + name@
            + "' is not a non-transactional process tool"@,
        SpawnRefusal::OtherTool { identity, expected } => "process spawn identity is for '"@
            + identity@ + "' but this tool is '"@ + expected@ + "'"@,
        SpawnRefusal::NotCovered =>
            "actual process command is not covered by the approved effect intent; the child was not started"@,
    }
}

impl SpawnRefusal {
    /// The refusal in words.
    pub fn message(&self) -> (out: String)
        ensures
            out@ == spawn_refusal_text(*self),
    {
        let mut out = String::new();
        match self {
            SpawnRefusal::NoContext => {
                out.append(
                    "non-transactional process tools cannot spawn without Core-issued effect identity",
                );
            },
            SpawnRefusal::InvalidContext(reason) => {
                out.append(reason.as_str());
            },
            SpawnRefusal::NotAProcessTool(name) => {
                out.append("'");
                out.append(name.as_str());
                out.append("' is not a non-transactional process tool");
            },
            SpawnRefusal::OtherTool { identity, expected } => {
                out.append("process spawn identity is for '");
                out.append(identity.as_str());
                out.append("' but this tool is '");
                out.append(expected.as_str());
                out.append("'");
            },
            SpawnRefusal::NotCovered => {
                out.append(
                    "actual process command is not covered by the approved effect intent; the child was not started",
                );
            },
        }
        assert(out@ =~= spawn_refusal_text(*self));
        out
    }
}

/// What is known of an effect context: the tool it was issued for, and why it
/// is invalid, if it is.
#[derive(Debug)]
pub struct EffectContextFacts {
    pub tool_name: String,
    pub invalid: Option<String>,
}

/// Whether a tool may start a process: it needs a valid context that was
/// issued for it, and it has to be a process tool.
pub fn require_process_effect_context(
    context: Option<&EffectContextFacts>,
    expected_tool_name: &str,
    is_process_tool: bool,
) -> (r: Result<(), SpawnRefusal>)
    ensures
        match context {
            None => r matches Err(e) && e == SpawnRefusal::NoContext,
            Some(c) => match c.invalid {
                Some(reason) => r matches Err(SpawnRefusal::InvalidContext(why)) && why@ == reason@,
                None => if !is_process_tool {
                    r matches Err(SpawnRefusal::NotAProcessTool(name)) && name@
                        == expected_tool_name@
                } else if c.tool_name@ != expected_tool_name@ {
                    r matches Err(SpawnRefusal::OtherTool { identity, expected }) && identity@
                        == c.tool_name@ && expected@ == expected_tool_name@
                } else {
                    r is Ok
                },
            },
        },
{
    let c = match context {
        Some(c) => c,
        None => {
            return Err(SpawnRefusal::NoContext);
        },
    };
    match &c.invalid {
        Some(reason) => {
            return Err(SpawnRefusal::InvalidContext(reason.as_str().to_owned()));
        },
        None => {},
    }
    if !is_process_tool {
        return Err(SpawnRefusal::NotAProcessTool(expected_tool_name.to_owned()));
    }
    if !text::same(c.tool_name.as_str(), expected_tool_name) {
        return Err(
            SpawnRefusal::OtherTool {
                identity: c.tool_name.as_str().to_owned(),
                expected: expected_tool_name.to_owned(),
            },
        );
    }
    Ok(())
}

/// Whether the process that would start is the one that was approved.
pub fn require_covered_process_spawn(covered: bool) -> (r: Result<(), SpawnRefusal>)
    ensures
        r is Ok <==> covered,
        r matches Err(e) ==> e == SpawnRefusal::NotCovered,
{
    if covered {
        Ok(())
    } else {
        Err(SpawnRefusal::NotCovered)
    }
}

/// What each writing or running tool is bound by: the argument that names its
/// path and those that hold its content, or the arguments that hold what it
/// runs. The tools that only read are bound to reading.
pub proof fn law_each_tool_is_bound_by_its_arguments()
    ensures
        binding_of("fs.write"@) == Some(
            Binding::WorkspaceWrite { path_arg: "path"@, content_args: seq!["content"@] },
        ),
        binding_of("edit.replace"@) == Some(
            Binding::WorkspaceWrite { path_arg: "path"@, content_args: seq!["new"@] },
        ),
        binding_of("fs.mkdir"@) == Some(
            Binding::WorkspaceWrite { path_arg: "path"@, content_args: Seq::empty() },
        ),
        binding_of("edit.patch"@) == Some(
            Binding::WorkspaceWrite { path_arg: "path"@, content_args: Seq::empty() },
        ),
        binding_of("process.run"@) == Some(Binding::ExecArgv { argv_arg: "argv"@ }),
        binding_of("shell.exec"@) == Some(
            Binding::ShellExec { command_arg: "command"@, dialect_arg: "dialect"@ },
        ),
        binding_of("process.session"@) == Some(
            Binding::SessionExec { argv_arg: "argv"@, action_arg: "action"@ },
        ),
        binding_of("verify.run"@) == Some(Binding::RecipeExec { recipe_arg: "recipe_id"@ }),
        forall|name: Seq<char>|
            #[trigger] binding_of(name) == Some(Binding::ReadOnly) <==> name == "fs.list"@ || name
                == "fs.read"@ || name == "search.grep"@ || name == "artifact.read"@ || name
                == "git.status"@ || name == "git.diff"@ || name == "capability.manage"@ || name
                == "context.manage"@ || name == "task.complete"@ || name == "code.symbols"@ || name
                == "code.diagnostics"@ || name == "task.manage"@,
{
    reveal_strlit("fs.list");
    reveal_strlit("fs.read");
    reveal_strlit("search.grep");
    reveal_strlit("artifact.read");
    reveal_strlit("git.status");
    reveal_strlit("git.diff");
    reveal_strlit("capability.manage");
    reveal_strlit("context.manage");
    reveal_strlit("task.complete");
    reveal_strlit("code.symbols");
    reveal_strlit("code.diagnostics");
    reveal_strlit("task.manage");
    reveal_strlit("fs.write");
    reveal_strlit("fs.mkdir");
    reveal_strlit("edit.replace");
    reveal_strlit("edit.patch");
    reveal_strlit("process.run");
    reveal_strlit("shell.exec");
    reveal_strlit("process.session");
    reveal_strlit("verify.run");
    assert("fs.read"@.len() == 7 && "fs.list"@.len() == 7 && "git.diff"@.len() == 8
        && "fs.write"@.len() == 8 && "fs.mkdir"@.len() == 8 && "git.status"@.len() == 10
        && "edit.patch"@.len() == 10 && "shell.exec"@.len() == 10 && "search.grep"@.len() == 11
        && "process.run"@.len() == 11 && "code.symbols"@.len() == 12 && "edit.replace"@.len() == 12
        && "artifact.read"@.len() == 13 && "task.complete"@.len() == 13 && "context.manage"@.len()
        == 14 && "process.session"@.len() == 15 && "code.diagnostics"@.len() == 16
        && "capability.manage"@.len() == 17 && "verify.run"@.len() == 10 && "task.manage"@.len()
        == 11);
    assert("fs.write"@[3] == 'w' && "fs.mkdir"@[3] == 'm' && "git.diff"@[3] == '.');
    assert("git.status"@[0] == 'g' && "edit.patch"@[0] == 'e' && "shell.exec"@[0] == 's'
        && "verify.run"@[0] == 'v' && "search.grep"@[0] == 's' && "process.run"@[0] == 'p'
        && "task.manage"@[0] == 't' && "code.symbols"@[0] == 'c' && "edit.replace"@[0] == 'e');
}

} // verus!
