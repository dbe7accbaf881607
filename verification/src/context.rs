//! `context.manage`: one entry point for looking into the context catalog and
//! for deliberate changes to it.
//!
//! A call does no work itself. It is read into one typed action or query,
//! which the runtime hands to the context engine. Fields that the chosen
//! operation does not use are ignored, even when they are empty; those it
//! uses are read strictly. How an identifier is spelled is not decided here:
//! the caller parses the texts that `ids_to_parse` names and hands the
//! outcome back.
use crate::outside;
use crate::text;
use vstd::prelude::*;

verus! {

/// What a call asks for.
#[derive(Clone, Copy, Debug, PartialEq, Eq, Structural)]
pub enum ManageOp {
    Tag,
    Lease,
    Search,
    Inspect,
    Fetch,
    Admit,
    Derive,
}

/// The name of an operation.
pub open spec fn op_name(op: ManageOp) -> Seq<char> {
    match op {
        ManageOp::Tag => "tag"@,
        ManageOp::Lease => "lease"@,
        ManageOp::Search => "search"@,
        ManageOp::Inspect => "inspect"@,
        ManageOp::Fetch => "fetch"@,
        ManageOp::Admit => "admit"@,
        ManageOp::Derive => "derive"@,
    }
}

impl ManageOp {
    /// The name of the operation.
    pub fn name(self) -> (r: &'static str)
        ensures
            r@ == op_name(self),
    {
        match self {
            ManageOp::Tag => "tag",
            ManageOp::Lease => "lease",
            ManageOp::Search => "search",
            ManageOp::Inspect => "inspect",
            ManageOp::Fetch => "fetch",
            ManageOp::Admit => "admit",
            ManageOp::Derive => "derive",
        }
    }
}

/// The arguments of a call, as they came.
#[derive(Debug)]
pub struct ManageArgs {
    pub op: ManageOp,
    pub item_id: Option<String>,
    pub tag: Option<String>,
    pub turns: Option<u32>,
    pub query: Option<String>,
    pub limit: Option<usize>,
    pub kind: Option<String>,
    pub scope: Option<String>,
    pub task_id: Option<String>,
    pub label: Option<String>,
    pub reason: Option<String>,
    pub fact: Option<String>,
}

/// How the parse of an identifier's text went.
#[derive(Debug)]
pub enum IdParse {
    /// The identifier, in its canonical form.
    Valid(String),
    /// Why the text is no identifier.
    Invalid(String),
}

/// The kinds of context item a search can ask for.
#[derive(Clone, Copy, Debug, PartialEq, Eq, Structural)]
pub enum ContextKind {
    Goal,
    Constraint,
    Decision,
    UserMessage,
    AssistantMessage,
    ToolObservation,
    FileObservation,
    Error,
    Summary,
    Note,
}

/// The scopes of context item a search can ask for.
#[derive(Clone, Copy, Debug, PartialEq, Eq, Structural)]
pub enum ContextScope {
    Message,
    Turn,
    Task,
    Session,
    Pinned,
}

/// The kind a name stands for.
pub open spec fn kind_named(s: Seq<char>) -> Option<ContextKind> {
    if s == "Goal"@ || s == "goal"@ {
        Some(ContextKind::Goal)
    } else if s == "Constraint"@ || s == "constraint"@ {
        Some(ContextKind::Constraint)
    } else if s == "Decision"@ || s == "decision"@ {
        Some(ContextKind::Decision)
    } else if s == "UserMessage"@ || s == "user_message"@ {
        Some(ContextKind::UserMessage)
    } else if s == "AssistantMessage"@ || s == "assistant_message"@ {
        Some(ContextKind::AssistantMessage)
    } else if s == "ToolObservation"@ || s == "tool_observation"@ {
        Some(ContextKind::ToolObservation)
    } else if s == "FileObservation"@ || s == "file_observation"@ {
        Some(ContextKind::FileObservation)
    } else if s == "Error"@ || s == "error"@ {
        Some(ContextKind::Error)
    } else if s == "Summary"@ || s == "summary"@ {
        Some(ContextKind::Summary)
    } else if s == "Note"@ || s == "note"@ {
        Some(ContextKind::Note)
    } else {
        None
    }
}

/// The scope a name stands for.
pub open spec fn scope_named(s: Seq<char>) -> Option<ContextScope> {
    if s == "Message"@ || s == "message"@ {
        Some(ContextScope::Message)
    } else if s == "Turn"@ || s == "turn"@ {
        Some(ContextScope::Turn)
    } else if s == "Task"@ || s == "task"@ {
        Some(ContextScope::Task)
    } else if s == "Session"@ || s == "session"@ {
        Some(ContextScope::Session)
    } else if s == "Pinned"@ || s == "pinned"@ {
        Some(ContextScope::Pinned)
    } else {
        None
    }
}

/// How many items a search returns when it does not say.
pub const DEFAULT_SEARCH_LIMIT: usize = 16;

/// A deliberate change to the catalog.
#[derive(Debug)]
pub enum ContextAction {
    GcHint { item_id: String, keep_alive: bool },
    Tag { item_id: String, tag: String },
    Lease { item_id: String, turns: u32 },
    Collect,
    Admit { item_id: String, reason: String },
    Derive { item_id: String, fact: String, reason: String },
    /// How many root claims were projected.
    AnchorRoots { roots: usize },
    /// How many checked paths were projected.
    CheckedFiles { files: usize },
}

/// A question to the catalog.
#[derive(Debug)]
pub enum EngineQuery {
    SearchExternal {
        query: String,
        kind: Option<ContextKind>,
        scope: Option<ContextScope>,
        task_id: Option<String>,
        label: Option<String>,
        limit: usize,
    },
    InspectExternal { item_id: String },
    FetchExternal { item_id: String },
}

/// What a call was read into.
#[derive(Debug)]
pub enum ContextCall {
    Directive(ContextAction),
    Query(EngineQuery),
}

/// Why a call is invalid.
#[derive(Debug)]
pub enum ContextError {
    Missing { op: ManageOp, field: &'static str },
    InvalidItem { op: ManageOp, error: String },
    InvalidTask { error: String },
    InvalidKind { value: String },
    InvalidScope { value: String },
}

/// A call as values.
pub ghost enum CallView {
    Tag { item: Seq<char>, tag: Seq<char> },
    Lease { item: Seq<char>, turns: u32 },
    Admit { item: Seq<char>, reason: Seq<char> },
    Derive { item: Seq<char>, fact: Seq<char>, reason: Seq<char> },
    Search {
        query: Seq<char>,
        kind: Option<ContextKind>,
        scope: Option<ContextScope>,
        task: Option<Seq<char>>,
        label: Option<Seq<char>>,
        limit: usize,
    },
    Inspect { item: Seq<char> },
    Fetch { item: Seq<char> },
    /// Not made by a call.
    Internal,
}

/// An error as values.
pub ghost enum FailView {
    Missing { op: ManageOp, field: Seq<char> },
    InvalidItem { op: ManageOp, error: Seq<char> },
    InvalidTask { error: Seq<char> },
    InvalidKind { value: Seq<char> },
    InvalidScope { value: Seq<char> },
}

/// The content of an optional string.
pub open spec fn content(s: Option<String>) -> Option<Seq<char>> {
    match s {
        Some(t) => Some(t@),
        None => None,
    }
}

impl View for ContextCall {
    type V = CallView;

    open spec fn view(&self) -> CallView {
        match *self {
            ContextCall::Directive(ContextAction::Tag { item_id, tag }) => CallView::Tag {
                item: item_id@,
                tag: tag@,
            },
            ContextCall::Directive(ContextAction::Lease { item_id, turns }) => CallView::Lease {
                item: item_id@,
                turns,
            },
            ContextCall::Directive(ContextAction::Admit { item_id, reason }) => CallView::Admit {
                item: item_id@,
                reason: reason@,
            },
            ContextCall::Directive(ContextAction::Derive { item_id, fact, reason }) =>
                CallView::Derive { item: item_id@, fact: fact@, reason: reason@ },
            ContextCall::Directive(_) => CallView::Internal,
            ContextCall::Query(
                EngineQuery::SearchExternal { query, kind, scope, task_id, label, limit },
            ) => CallView::Search {
                query: query@,
                kind,
                scope,
                task: content(task_id),
                label: content(label),
                limit,
            },
            ContextCall::Query(EngineQuery::InspectExternal { item_id }) => CallView::Inspect {
                item: item_id@,
            },
            ContextCall::Query(EngineQuery::FetchExternal { item_id }) => CallView::Fetch {
                item: item_id@,
            },
        }
    }
}

impl View for ContextError {
    type V = FailView;

    open spec fn view(&self) -> FailView {
        match *self {
            ContextError::Missing { op, field } => FailView::Missing { op, field: field@ },
            ContextError::InvalidItem { op, error } => FailView::InvalidItem { op, error: error@ },
            ContextError::InvalidTask { error } => FailView::InvalidTask { error: error@ },
            ContextError::InvalidKind { value } => FailView::InvalidKind { value: value@ },
            ContextError::InvalidScope { value } => FailView::InvalidScope { value: value@ },
        }
    }
}

/// The text of an invalid-request error.
pub open spec fn context_error_text(e: FailView) -> Seq<char> {
    match e {
        FailView::Missing { op, field } => "context.manage "@ + op_name(op) + ": missing '"@
            + field + "'"@,
        FailView::InvalidItem { op, error } => "context.manage "@ + op_name(op)
            + ": invalid 'item_id': "@ + error,
        FailView::InvalidTask { error } => "context.manage search: invalid 'task_id': "@ + error,
        FailView::InvalidKind { value } => "context.manage search: invalid 'kind' "@
            + outside::str_debug(value),
        FailView::InvalidScope { value } => "context.manage search: invalid 'scope' "@
            + outside::str_debug(value),
    }
}

impl ContextError {
    /// The text of the error.
    pub fn message(&self) -> (out: String)
        ensures
            out@ == context_error_text(self@),
    {
        match self {
            ContextError::Missing { op, field } => {
                let mut out = "context.manage ".to_owned();
                out.append(op.name());
                out.append(": missing '");
                out.append(field);
                out.append("'");
                out
            },
            ContextError::InvalidItem { op, error } => {
                let mut out = "context.manage ".to_owned();
                out.append(op.name());
                out.append(": invalid 'item_id': ");
                out.append(error.as_str());
                out
            },
            ContextError::InvalidTask { error } => {
                let mut out = "context.manage search: invalid 'task_id': ".to_owned();
                out.append(error.as_str());
                out
            },
            ContextError::InvalidKind { value } => {
                let mut out = "context.manage search: invalid 'kind' ".to_owned();
                out.append(outside::debug_quoted(value.as_str()).as_str());
                out
            },
            ContextError::InvalidScope { value } => {
                let mut out = "context.manage search: invalid 'scope' ".to_owned();
                out.append(outside::debug_quoted(value.as_str()).as_str());
                out
            },
        }
    }
}

/// A field without the white space around it; an empty one counts as absent.
pub open spec fn given(value: Option<String>) -> Option<Seq<char>> {
    match value {
        Some(s) => if text::trim(s@).len() > 0 {
            Some(text::trim(s@))
        } else {
            None
        },
        None => None,
    }
}

/// A field without the white space around it, where anything is left.
pub fn optional_text(value: &Option<String>) -> (r: Option<String>)
    ensures
        content(r) == given(*value),
{
    match value {
        Some(s) => {
            let trimmed = text::trim_str(s.as_str());
            if trimmed.as_str().is_empty() {
                None
            } else {
                Some(trimmed)
            }
        },
        None => None,
    }
}

/// Whether an operation names an item.
pub open spec fn uses_item(op: ManageOp) -> bool {
    op != ManageOp::Search
}

/// The identifier texts a call needs parsed: of its item, or of the task a
/// search is limited to.
pub fn ids_to_parse(args: &ManageArgs) -> (r: (Option<String>, Option<String>))
    ensures
        content(r.0) == if uses_item(args.op) {
            given(args.item_id)
        } else {
            None
        },
        content(r.1) == if uses_item(args.op) {
            None
        } else {
            given(args.task_id)
        },
{
    match args.op {
        ManageOp::Search => (None, optional_text(&args.task_id)),
        _ => (optional_text(&args.item_id), None),
    }
}

/// The kind a name stands for.
fn find_kind(s: &str) -> (r: Option<ContextKind>)
    ensures
        r == kind_named(s@),
{
    if text::same(s, "Goal") || text::same(s, "goal") {
        Some(ContextKind::Goal)
    } else if text::same(s, "Constraint") || text::same(s, "constraint") {
        Some(ContextKind::Constraint)
    } else if text::same(s, "Decision") || text::same(s, "decision") {
        Some(ContextKind::Decision)
    } else if text::same(s, "UserMessage") || text::same(s, "user_message") {
        Some(ContextKind::UserMessage)
    } else if text::same(s, "AssistantMessage") || text::same(s, "assistant_message") {
        Some(ContextKind::AssistantMessage)
    } else if text::same(s, "ToolObservation") || text::same(s, "tool_observation") {
        Some(ContextKind::ToolObservation)
    } else if text::same(s, "FileObservation") || text::same(s, "file_observation") {
        Some(ContextKind::FileObservation)
    } else if text::same(s, "Error") || text::same(s, "error") {
        Some(ContextKind::Error)
    } else if text::same(s, "Summary") || text::same(s, "summary") {
        Some(ContextKind::Summary)
    } else if text::same(s, "Note") || text::same(s, "note") {
        Some(ContextKind::Note)
    } else {
        None
    }
}

/// The scope a name stands for.
fn find_scope(s: &str) -> (r: Option<ContextScope>)
    ensures
        r == scope_named(s@),
{
    if text::same(s, "Message") || text::same(s, "message") {
        Some(ContextScope::Message)
    } else if text::same(s, "Turn") || text::same(s, "turn") {
        Some(ContextScope::Turn)
    } else if text::same(s, "Task") || text::same(s, "task") {
        Some(ContextScope::Task)
    } else if text::same(s, "Session") || text::same(s, "session") {
        Some(ContextScope::Session)
    } else if text::same(s, "Pinned") || text::same(s, "pinned") {
        Some(ContextScope::Pinned)
    } else {
        None
    }
}

/// The item of a call, given how its text parsed.
pub open spec fn item_of(args: ManageArgs, item: IdParse) -> Result<Seq<char>, FailView> {
    if given(args.item_id) is None {
        Err(FailView::Missing { op: args.op, field: "item_id"@ })
    } else {
        match item {
            IdParse::Valid(id) => Ok(id@),
            IdParse::Invalid(error) => Err(
                FailView::InvalidItem { op: args.op, error: error@ },
            ),
        }
    }
}

/// What a search asks for.
pub open spec fn search_of(args: ManageArgs, task: IdParse) -> Result<CallView, FailView> {
    let kind = match given(args.kind) {
        Some(k) => kind_named(k),
        None => None,
    };
    let scope = match given(args.scope) {
        Some(s) => scope_named(s),
        None => None,
    };
    if given(args.kind) is Some && kind is None {
        Err(FailView::InvalidKind { value: given(args.kind)->0 })
    } else if given(args.scope) is Some && scope is None {
        Err(FailView::InvalidScope { value: given(args.scope)->0 })
    } else if given(args.task_id) is Some && task is Invalid {
        Err(FailView::InvalidTask { error: task->Invalid_0@ })
    } else {
        let task_id = if given(args.task_id) is Some {
            Some(task->Valid_0@)
        } else {
            None
        };
        let filtered = kind is Some || scope is Some || task_id is Some || given(args.label)
            is Some;
        match given(args.query) {
            None if !filtered => Err(FailView::Missing { op: ManageOp::Search, field: "query"@ }),
            query => Ok(
                CallView::Search {
                    query: match query {
                        Some(q) => q,
                        None => Seq::empty(),
                    },
                    kind,
                    scope,
                    task: task_id,
                    label: given(args.label),
                    limit: match args.limit {
                        Some(n) => n,
                        None => DEFAULT_SEARCH_LIMIT,
                    },
                },
            ),
        }
    }
}

/// What a call is read into, given how its identifiers parsed.
pub open spec fn meaning(args: ManageArgs, item: IdParse, task: IdParse) -> Result<
    CallView,
    FailView,
> {
    if args.op == ManageOp::Search {
        search_of(args, task)
    } else {
        match item_of(args, item) {
            Err(e) => Err(e),
            Ok(id) => match args.op {
                ManageOp::Tag => match given(args.tag) {
                    Some(tag) => Ok(CallView::Tag { item: id, tag }),
                    None => Err(FailView::Missing { op: args.op, field: "tag"@ }),
                },
                ManageOp::Lease => match args.turns {
                    Some(turns) => Ok(CallView::Lease { item: id, turns }),
                    None => Err(FailView::Missing { op: args.op, field: "turns"@ }),
                },
                ManageOp::Inspect => Ok(CallView::Inspect { item: id }),
                ManageOp::Fetch => Ok(CallView::Fetch { item: id }),
                ManageOp::Admit => match given(args.reason) {
                    Some(reason) => Ok(CallView::Admit { item: id, reason }),
                    None => Err(FailView::Missing { op: args.op, field: "reason"@ }),
                },
                ManageOp::Derive => match (given(args.fact), given(args.reason)) {
                    (Some(fact), Some(reason)) => Ok(CallView::Derive { item: id, fact, reason }),
                    (None, _) => Err(FailView::Missing { op: args.op, field: "fact"@ }),
                    (_, None) => Err(FailView::Missing { op: args.op, field: "reason"@ }),
                },
                ManageOp::Search => Err(FailView::Missing { op: args.op, field: "query"@ }),
            },
        }
    }
}

/// Reads a search.
fn read_search(args: &ManageArgs, task: IdParse) -> (r: Result<ContextCall, ContextError>)
    ensures
        match r {
            Ok(call) => search_of(*args, task) == Ok::<CallView, FailView>(call@),
            Err(e) => search_of(*args, task) == Err::<CallView, FailView>(e@),
        },
{
    let kind = match optional_text(&args.kind) {
        Some(value) => match find_kind(value.as_str()) {
            Some(k) => Some(k),
            None => {
                return Err(ContextError::InvalidKind { value });
            },
        },
        None => None,
    };
    let scope = match optional_text(&args.scope) {
        Some(value) => match find_scope(value.as_str()) {
            Some(s) => Some(s),
            None => {
                return Err(ContextError::InvalidScope { value });
            },
        },
        None => None,
    };
    let task_id = match optional_text(&args.task_id) {
        Some(_) => match task {
            IdParse::Valid(id) => Some(id),
            IdParse::Invalid(error) => {
                return Err(ContextError::InvalidTask { error });
            },
        },
        None => None,
    };
    let label = optional_text(&args.label);
    let filtered = kind.is_some() || scope.is_some() || task_id.is_some() || label.is_some();
    let query = match optional_text(&args.query) {
        Some(q) => q,
        None => {
            if !filtered {
                return Err(ContextError::Missing { op: ManageOp::Search, field: "query" });
            }
            String::new()
        },
    };
    let limit: usize = match args.limit {
        Some(n) => n,
        None => DEFAULT_SEARCH_LIMIT,
    };
    Ok(
        ContextCall::Query(
            EngineQuery::SearchExternal { query, kind, scope, task_id, label, limit },
        ),
    )
}

/// Reads a call, given how its identifiers parsed.
pub fn read_call(args: &ManageArgs, item: IdParse, task: IdParse) -> (r: Result<
    ContextCall,
    ContextError,
>)
    ensures
        match r {
            Ok(call) => meaning(*args, item, task) == Ok::<CallView, FailView>(call@),
            Err(e) => meaning(*args, item, task) == Err::<CallView, FailView>(e@),
        },
{
    if args.op == ManageOp::Search {
        return read_search(args, task);
    }
    let item_id = match optional_text(&args.item_id) {
        None => {
            return Err(ContextError::Missing { op: args.op, field: "item_id" });
        },
        Some(_) => match item {
            IdParse::Valid(id) => id,
            IdParse::Invalid(error) => {
                return Err(ContextError::InvalidItem { op: args.op, error });
            },
        },
    };
    match args.op {
        ManageOp::Tag => match optional_text(&args.tag) {
            Some(tag) => Ok(ContextCall::Directive(ContextAction::Tag { item_id, tag })),
            None => Err(ContextError::Missing { op: args.op, field: "tag" }),
        },
        ManageOp::Lease => match args.turns {
            Some(turns) => Ok(ContextCall::Directive(ContextAction::Lease { item_id, turns })),
            None => Err(ContextError::Missing { op: args.op, field: "turns" }),
        },
        ManageOp::Inspect => Ok(ContextCall::Query(EngineQuery::InspectExternal { item_id })),
        ManageOp::Fetch => Ok(ContextCall::Query(EngineQuery::FetchExternal { item_id })),
        ManageOp::Admit => match optional_text(&args.reason) {
            Some(reason) => Ok(ContextCall::Directive(ContextAction::Admit { item_id, reason })),
            None => Err(ContextError::Missing { op: args.op, field: "reason" }),
        },
        ManageOp::Derive => match optional_text(&args.fact) {
            None => Err(ContextError::Missing { op: args.op, field: "fact" }),
            Some(fact) => match optional_text(&args.reason) {
                None => Err(ContextError::Missing { op: args.op, field: "reason" }),
                Some(reason) => Ok(
                    ContextCall::Directive(ContextAction::Derive { item_id, fact, reason }),
                ),
            },
        },
        ManageOp::Search => Err(ContextError::Missing { op: args.op, field: "query" }),
    }
}

/// What a reader is told of an action.
pub open spec fn description(action: ContextAction) -> Seq<char> {
    match action {
        ContextAction::GcHint { item_id, keep_alive } => "gc_hint: keep item "@ + item_id@
            + " alive = "@ + (if keep_alive {
            "true"@
        } else {
            "false"@
        }),
        ContextAction::Tag { item_id, tag } => "tag: '"@ + tag@ + "' on item "@ + item_id@,
        ContextAction::Lease { item_id, turns } => "lease: item "@ + item_id@
            + " protected for "@ + text::dec(turns as nat) + " turns"@,
        ContextAction::Collect => "collect: full GC pass requested"@,
        ContextAction::Admit { item_id, reason } => "admit: item "@ + item_id@
            + " re-enters the working set — "@ + reason@,
        ContextAction::Derive { item_id, fact, reason } => "derive: '"@ + fact@
            + "' persisted as a new item derived from "@ + item_id@ + " — "@ + reason@,
        ContextAction::AnchorRoots { roots } => "anchor roots: "@ + text::dec(roots as nat)
            + " claims projected from the task anchor"@,
        ContextAction::CheckedFiles { files } => "checked files: "@ + text::dec(files as nat)
            + " paths projected from task progress"@,
    }
}

/// Describes an action.
pub fn describe(action: &ContextAction) -> (out: String)
    ensures
        out@ == description(*action),
{
    match action {
        ContextAction::GcHint { item_id, keep_alive } => {
            let mut out = "gc_hint: keep item ".to_owned();
            out.append(item_id.as_str());
            out.append(" alive = ");
            out.append(
                if *keep_alive {
                    "true"
                } else {
                    "false"
                },
            );
            out
        },
        ContextAction::Tag { item_id, tag } => {
            let mut out = "tag: '".to_owned();
            out.append(tag.as_str());
            out.append("' on item ");
            out.append(item_id.as_str());
            out
        },
        ContextAction::Lease { item_id, turns } => {
            let mut out = "lease: item ".to_owned();
            out.append(item_id.as_str());
            out.append(" protected for ");
            text::push_dec(&mut out, *turns as u64);
            out.append(" turns");
            out
        },
        ContextAction::Collect => "collect: full GC pass requested".to_owned(),
        ContextAction::Admit { item_id, reason } => {
            let mut out = "admit: item ".to_owned();
            out.append(item_id.as_str());
            out.append(" re-enters the working set — ");
            out.append(reason.as_str());
            out
        },
        ContextAction::Derive { item_id, fact, reason } => {
            let mut out = "derive: '".to_owned();
            out.append(fact.as_str());
            out.append("' persisted as a new item derived from ");
            out.append(item_id.as_str());
            out.append(" — ");
            out.append(reason.as_str());
            out
        },
        ContextAction::AnchorRoots { roots } => {
            let mut out = "anchor roots: ".to_owned();
            text::push_dec(&mut out, *roots as u64);
            out.append(" claims projected from the task anchor");
            out
        },
        ContextAction::CheckedFiles { files } => {
            let mut out = "checked files: ".to_owned();
            text::push_dec(&mut out, *files as u64);
            out.append(" paths projected from task progress");
            out
        },
    }
}

/// What the reader sees of a call: the description of an action, or that a
/// question is under way.
#[derive(Debug)]
pub struct CallOutput {
    pub summary: String,
    pub content: String,
}

/// Words for a call that was read.
pub fn call_output(call: &ContextCall) -> (r: CallOutput)
    ensures
        match *call {
            ContextCall::Directive(action) => r.summary@ == description(action) && r.content@
                == description(action),
            ContextCall::Query(_) => r.summary@ == "querying the context engine"@ && r.content@
                == "resolving..."@,
        },
{
    match call {
        ContextCall::Directive(action) => CallOutput {
            summary: describe(action),
            content: describe(action),
        },
        ContextCall::Query(_) => CallOutput {
            summary: "querying the context engine".to_owned(),
            content: "resolving...".to_owned(),
        },
    }
}

/// A field that the chosen operation does not use never changes what a call
/// is read into, even where it could not be read itself.
pub proof fn law_unused_fields_are_ignored(
    a: ManageArgs,
    b: ManageArgs,
    item: IdParse,
    task: IdParse,
)
    requires
        a.op == b.op,
        uses_item(a.op) ==> a.item_id == b.item_id,
        a.op == ManageOp::Tag ==> a.tag == b.tag,
        a.op == ManageOp::Lease ==> a.turns == b.turns,
        a.op == ManageOp::Admit || a.op == ManageOp::Derive ==> a.reason == b.reason,
        a.op == ManageOp::Derive ==> a.fact == b.fact,
        a.op == ManageOp::Search ==> a.query == b.query && a.limit == b.limit && a.kind == b.kind
            && a.scope == b.scope && a.task_id == b.task_id && a.label == b.label,
    ensures
        meaning(a, item, task) == meaning(b, item, task),
{
}

/// A text counts as given where something but white space stands in it, and
/// then without the white space around it.
pub proof fn law_blank_is_not_given(s: Seq<char>, value: Option<String>)
    requires
        value matches Some(v) && v@ == s,
    ensures
        given(value) is None <==> forall|k: int|
            0 <= k < s.len() ==> text::is_space(#[trigger] s[k]),
        given(value) matches Some(t) ==> t == text::trim(s) && t.len() > 0,
        given(None) is None,
{
    let (a, b) = text::law_trimming_takes_white_space_off_the_ends(s);
    if a < b {
        assert(!text::is_space(s[a]));
    }
}

/// A call that names an item asks for what its operation says, of the item
/// that was read; each operation demands its own fields and no others.
pub proof fn law_an_operation_asks_for_its_own_fields(
    args: ManageArgs,
    item: IdParse,
    task: IdParse,
    id: String,
)
    requires
        given(args.item_id) is Some,
        item == IdParse::Valid(id),
    ensures
        args.op == ManageOp::Inspect ==> meaning(args, item, task) == Ok::<_, FailView>(
            CallView::Inspect { item: id@ },
        ),
        args.op == ManageOp::Fetch ==> meaning(args, item, task) == Ok::<_, FailView>(
            CallView::Fetch { item: id@ },
        ),
        args.op == ManageOp::Tag && given(args.tag) is Some ==> meaning(args, item, task) == Ok::<
            _,
            FailView,
        >(CallView::Tag { item: id@, tag: given(args.tag)->0 }),
        args.op == ManageOp::Tag && given(args.tag) is None ==> meaning(args, item, task) == Err::<
            CallView,
            _,
        >(FailView::Missing { op: ManageOp::Tag, field: "tag"@ }),
        args.op == ManageOp::Lease && args.turns is Some ==> meaning(args, item, task) == Ok::<
            _,
            FailView,
        >(CallView::Lease { item: id@, turns: args.turns->0 }),
        args.op == ManageOp::Lease && args.turns is None ==> meaning(args, item, task) == Err::<
            CallView,
            _,
        >(FailView::Missing { op: ManageOp::Lease, field: "turns"@ }),
        args.op == ManageOp::Admit && given(args.reason) is Some ==> meaning(args, item, task)
            == Ok::<_, FailView>(CallView::Admit { item: id@, reason: given(args.reason)->0 }),
        args.op == ManageOp::Admit && given(args.reason) is None ==> meaning(args, item, task)
            == Err::<CallView, _>(FailView::Missing { op: ManageOp::Admit, field: "reason"@ }),
        args.op == ManageOp::Derive && given(args.fact) is Some && given(args.reason) is Some
            ==> meaning(args, item, task) == Ok::<_, FailView>(
            CallView::Derive { item: id@, fact: given(args.fact)->0, reason: given(args.reason)->0 },
        ),
        args.op == ManageOp::Derive && given(args.fact) is None ==> meaning(args, item, task)
            == Err::<CallView, _>(FailView::Missing { op: ManageOp::Derive, field: "fact"@ }),
        args.op == ManageOp::Derive && given(args.fact) is Some && given(args.reason) is None
            ==> meaning(args, item, task) == Err::<CallView, _>(
            FailView::Missing { op: ManageOp::Derive, field: "reason"@ },
        ),
{
}

/// Every operation but a search needs an item that can be read.
pub proof fn law_an_item_must_be_given_and_readable(
    args: ManageArgs,
    item: IdParse,
    task: IdParse,
    error: String,
)
    requires
        args.op != ManageOp::Search,
    ensures
        given(args.item_id) is None ==> meaning(args, item, task) == Err::<CallView, _>(
            FailView::Missing { op: args.op, field: "item_id"@ },
        ),
        given(args.item_id) is Some && item == IdParse::Invalid(error) ==> meaning(args, item, task)
            == Err::<CallView, _>(FailView::InvalidItem { op: args.op, error: error@ }),
{
}

/// A search needs a query or a filter, refuses a kind or a scope that it does
/// not know and a task that cannot be read, in this order, and passes on what
/// was given; without a limit it asks for sixteen items.
pub proof fn law_a_search_asks_for_what_was_given(args: ManageArgs, item: IdParse, task: IdParse)
    requires
        args.op == ManageOp::Search,
    ensures
        ({
            let kind_bad = given(args.kind) is Some && kind_named(given(args.kind)->0) is None;
            let scope_bad = given(args.scope) is Some && scope_named(given(args.scope)->0) is None;
            let task_bad = given(args.task_id) is Some && task is Invalid;
            let empty = given(args.query) is None && given(args.kind) is None && given(args.scope)
                is None && given(args.task_id) is None && given(args.label) is None;
            let r = meaning(args, item, task);
            &&& kind_bad ==> r == Err::<CallView, _>(
                FailView::InvalidKind { value: given(args.kind)->0 },
            )
            &&& !kind_bad && scope_bad ==> r == Err::<CallView, _>(
                FailView::InvalidScope { value: given(args.scope)->0 },
            )
            &&& !kind_bad && !scope_bad && task_bad ==> r == Err::<CallView, _>(
                FailView::InvalidTask { error: task->Invalid_0@ },
            )
            &&& empty ==> r == Err::<CallView, _>(
                FailView::Missing { op: ManageOp::Search, field: "query"@ },
            )
            &&& r is Ok <==> !kind_bad && !scope_bad && !task_bad && !empty
            &&& r matches Ok(call) ==> {
                &&& call is Search
                &&& call->Search_query == if given(args.query) is Some {
                    given(args.query)->0
                } else {
                    Seq::empty()
                }
                &&& call->kind == if given(args.kind) is Some {
                    kind_named(given(args.kind)->0)
                } else {
                    None
                }
                &&& call->scope == if given(args.scope) is Some {
                    scope_named(given(args.scope)->0)
                } else {
                    None
                }
                &&& call->task == if given(args.task_id) is Some {
                    Some(task->Valid_0@)
                } else {
                    None
                }
                &&& call->label == given(args.label)
                &&& call->limit == if args.limit is Some {
                    args.limit->0
                } else {
                    16
                }
            }
        }),
{
}

/// What each change to the catalog is described as.
pub proof fn law_a_change_is_described_by_what_it_does(action: ContextAction)
    ensures
        action matches ContextAction::Tag { item_id, tag } ==> description(action) == "tag: '"@
            + tag@ + "' on item "@ + item_id@,
        action matches ContextAction::Lease { item_id, turns } ==> description(action)
            == "lease: item "@ + item_id@ + " protected for "@ + text::dec(turns as nat)
            + " turns"@,
        action matches ContextAction::Admit { item_id, reason } ==> description(action)
            == "admit: item "@ + item_id@ + " re-enters the working set — "@ + reason@,
        action matches ContextAction::Derive { item_id, fact, reason } ==> description(action)
            == "derive: '"@ + fact@ + "' persisted as a new item derived from "@ + item_id@
            + " — "@ + reason@,
{
}

/// Each kind goes by two names, its own and its own in lower case with
/// underscores, and by no other.
pub proof fn law_a_kind_goes_by_two_names(s: Seq<char>)
    ensures
        kind_named(s) == Some(ContextKind::Goal) <==> s == "Goal"@ || s == "goal"@,
        kind_named(s) == Some(ContextKind::Constraint) <==> s == "Constraint"@ || s == "constraint"@,
        kind_named(s) == Some(ContextKind::Decision) <==> s == "Decision"@ || s == "decision"@,
        kind_named(s) == Some(ContextKind::UserMessage) <==> s == "UserMessage"@ || s == "user_message"@,
        kind_named(s) == Some(ContextKind::AssistantMessage) <==> s == "AssistantMessage"@ || s == "assistant_message"@,
        kind_named(s) == Some(ContextKind::ToolObservation) <==> s == "ToolObservation"@ || s == "tool_observation"@,
        kind_named(s) == Some(ContextKind::FileObservation) <==> s == "FileObservation"@ || s == "file_observation"@,
        kind_named(s) == Some(ContextKind::Error) <==> s == "Error"@ || s == "error"@,
        kind_named(s) == Some(ContextKind::Summary) <==> s == "Summary"@ || s == "summary"@,
        kind_named(s) == Some(ContextKind::Note) <==> s == "Note"@ || s == "note"@,
{
    reveal_strlit("Goal");
    reveal_strlit("goal");
    reveal_strlit("Constraint");
    reveal_strlit("constraint");
    reveal_strlit("Decision");
    reveal_strlit("decision");
    reveal_strlit("UserMessage");
    reveal_strlit("user_message");
    reveal_strlit("AssistantMessage");
    reveal_strlit("assistant_message");
    reveal_strlit("ToolObservation");
    reveal_strlit("tool_observation");
    reveal_strlit("FileObservation");
    reveal_strlit("file_observation");
    reveal_strlit("Error");
    reveal_strlit("error");
    reveal_strlit("Summary");
    reveal_strlit("summary");
    reveal_strlit("Note");
    reveal_strlit("note");
    assert("Goal"@.len() == 4 && "Goal"@[0] == 'G' && "Goal"@[1] == 'o');
    assert("goal"@.len() == 4 && "goal"@[0] == 'g' && "goal"@[1] == 'o');
    assert("Constraint"@.len() == 10 && "Constraint"@[0] == 'C' && "Constraint"@[1] == 'o');
    assert("constraint"@.len() == 10 && "constraint"@[0] == 'c' && "constraint"@[1] == 'o');
    assert("Decision"@.len() == 8 && "Decision"@[0] == 'D' && "Decision"@[1] == 'e');
    assert("decision"@.len() == 8 && "decision"@[0] == 'd' && "decision"@[1] == 'e');
    assert("UserMessage"@.len() == 11 && "UserMessage"@[0] == 'U' && "UserMessage"@[1] == 's');
    assert("user_message"@.len() == 12 && "user_message"@[0] == 'u' && "user_message"@[1] == 's');
    assert("AssistantMessage"@.len() == 16 && "AssistantMessage"@[0] == 'A' && "AssistantMessage"@[1] == 's');
    assert("assistant_message"@.len() == 17 && "assistant_message"@[0] == 'a' && "assistant_message"@[1] == 's');
    assert("ToolObservation"@.len() == 15 && "ToolObservation"@[0] == 'T' && "ToolObservation"@[1] == 'o');
    assert("tool_observation"@.len() == 16 && "tool_observation"@[0] == 't' && "tool_observation"@[1] == 'o');
    assert("FileObservation"@.len() == 15 && "FileObservation"@[0] == 'F' && "FileObservation"@[1] == 'i');
    assert("file_observation"@.len() == 16 && "file_observation"@[0] == 'f' && "file_observation"@[1] == 'i');
    assert("Error"@.len() == 5 && "Error"@[0] == 'E' && "Error"@[1] == 'r');
    assert("error"@.len() == 5 && "error"@[0] == 'e' && "error"@[1] == 'r');
    assert("Summary"@.len() == 7 && "Summary"@[0] == 'S' && "Summary"@[1] == 'u');
    assert("summary"@.len() == 7 && "summary"@[0] == 's' && "summary"@[1] == 'u');
    assert("Note"@.len() == 4 && "Note"@[0] == 'N' && "Note"@[1] == 'o');
    assert("note"@.len() == 4 && "note"@[0] == 'n' && "note"@[1] == 'o');
}

/// Each scope goes by two names, its own and its own in lower case with
/// underscores, and by no other.
pub proof fn law_a_scope_goes_by_two_names(s: Seq<char>)
    ensures
        scope_named(s) == Some(ContextScope::Message) <==> s == "Message"@ || s == "message"@,
        scope_named(s) == Some(ContextScope::Turn) <==> s == "Turn"@ || s == "turn"@,
        scope_named(s) == Some(ContextScope::Task) <==> s == "Task"@ || s == "task"@,
        scope_named(s) == Some(ContextScope::Session) <==> s == "Session"@ || s == "session"@,
        scope_named(s) == Some(ContextScope::Pinned) <==> s == "Pinned"@ || s == "pinned"@,
{
    reveal_strlit("Message");
    reveal_strlit("message");
    reveal_strlit("Turn");
    reveal_strlit("turn");
    reveal_strlit("Task");
    reveal_strlit("task");
    reveal_strlit("Session");
    reveal_strlit("session");
    reveal_strlit("Pinned");
    reveal_strlit("pinned");
    assert("Message"@.len() == 7 && "Message"@[0] == 'M' && "Message"@[1] == 'e');
    assert("message"@.len() == 7 && "message"@[0] == 'm' && "message"@[1] == 'e');
    assert("Turn"@.len() == 4 && "Turn"@[0] == 'T' && "Turn"@[1] == 'u');
    assert("turn"@.len() == 4 && "turn"@[0] == 't' && "turn"@[1] == 'u');
    assert("Task"@.len() == 4 && "Task"@[0] == 'T' && "Task"@[1] == 'a');
    assert("task"@.len() == 4 && "task"@[0] == 't' && "task"@[1] == 'a');
    assert("Session"@.len() == 7 && "Session"@[0] == 'S' && "Session"@[1] == 'e');
    assert("session"@.len() == 7 && "session"@[0] == 's' && "session"@[1] == 'e');
    assert("Pinned"@.len() == 6 && "Pinned"@[0] == 'P' && "Pinned"@[1] == 'i');
    assert("pinned"@.len() == 6 && "pinned"@[0] == 'p' && "pinned"@[1] == 'i');
}

} // verus!
