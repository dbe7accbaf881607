use tool_runtime::context::{
    call_output, describe, ids_to_parse, optional_text, read_call, ContextAction, ContextCall,
    ContextError, ContextKind, ContextScope, EngineQuery, IdParse, ManageArgs, ManageOp,
};

const ITEM_ID: &str = "00000000-0000-0000-0000-000000000000";

fn args(op: ManageOp) -> ManageArgs {
    ManageArgs {
        op,
        item_id: None,
        tag: None,
        turns: None,
        query: None,
        limit: None,
        kind: None,
        scope: None,
        task_id: None,
        label: None,
        reason: None,
        fact: None,
    }
}

fn some(text: &str) -> Option<String> {
    Some(text.to_string())
}

/// Parses identifiers the way a host does: a UUID, perhaps inside a URI.
fn parse(text: Option<String>) -> IdParse {
    let text = text.unwrap_or_default();
    let id = text.strip_prefix("context://run/").unwrap_or(&text);
    if id.len() == 36 {
        IdParse::Valid(id.to_string())
    } else {
        IdParse::Invalid(format!("not an identifier: {id}"))
    }
}

fn call(args: &ManageArgs) -> Result<ContextCall, ContextError> {
    let (item, task) = ids_to_parse(args);
    read_call(args, parse(item), parse(task))
}

fn query(args: &ManageArgs) -> EngineQuery {
    match call(args).unwrap() {
        ContextCall::Query(query) => query,
        other => panic!("context query tools must emit an engine query, got {other:?}"),
    }
}

#[test]
fn context_manage_attaches_typed_directives() {
    let item_uri = format!("context://run/{ITEM_ID}");
    let mut tag = args(ManageOp::Tag);
    tag.item_id = Some(item_uri);
    tag.tag = some("urgent");
    match call(&tag).unwrap() {
        ContextCall::Directive(ContextAction::Tag { item_id, tag }) => {
            assert_eq!(item_id, ITEM_ID);
            assert_eq!(tag, "urgent");
        }
        other => panic!("context tools must return a directive, got {other:?}"),
    }
    let mut lease = args(ManageOp::Lease);
    lease.item_id = some(ITEM_ID);
    lease.turns = Some(3);
    assert!(matches!(
        call(&lease).unwrap(),
        ContextCall::Directive(ContextAction::Lease { turns: 3, .. })
    ));
}

#[test]
fn context_manage_query_ops_emit_engine_queries() {
    let mut search = args(ManageOp::Search);
    search.query = some("AuthService");
    search.limit = Some(8);
    match query(&search) {
        EngineQuery::SearchExternal { query, limit, kind, scope, task_id, label } => {
            assert_eq!(query, "AuthService");
            assert_eq!(limit, 8);
            assert!(kind.is_none() && scope.is_none() && task_id.is_none());
            assert!(label.is_none());
        }
        other => panic!("expected SearchExternal, got {other:?}"),
    }

    let mut inspect = args(ManageOp::Inspect);
    inspect.item_id = Some(format!("context://run/{ITEM_ID}"));
    match query(&inspect) {
        EngineQuery::InspectExternal { item_id } => assert_eq!(item_id, ITEM_ID),
        other => panic!("expected InspectExternal, got {other:?}"),
    }

    let mut fetch = args(ManageOp::Fetch);
    fetch.item_id = some(ITEM_ID);
    assert!(matches!(query(&fetch), EngineQuery::FetchExternal { .. }));

    // Fields that fetch does not use cannot spoil it.
    let mut padded = args(ManageOp::Fetch);
    padded.item_id = some(ITEM_ID);
    padded.kind = some("");
    padded.scope = some("");
    padded.task_id = some("");
    padded.fact = some("");
    padded.label = some("");
    assert!(matches!(query(&padded), EngineQuery::FetchExternal { .. }));

    // The short names are read as well as the canonical ones.
    let mut typed = args(ManageOp::Search);
    typed.query = some("AuthService");
    typed.kind = some("constraint");
    typed.scope = some("task");
    assert!(matches!(
        query(&typed),
        EngineQuery::SearchExternal {
            kind: Some(ContextKind::Constraint),
            scope: Some(ContextScope::Task),
            ..
        }
    ));

    let mut labelled = args(ManageOp::Search);
    labelled.label = some("decision");
    match query(&labelled) {
        EngineQuery::SearchExternal { query, label, .. } => {
            assert_eq!(query, "");
            assert_eq!(label.as_deref(), Some("decision"));
        }
        other => panic!("expected SearchExternal, got {other:?}"),
    }

    let error = call(&args(ManageOp::Search)).unwrap_err().message();
    assert!(error.contains("missing 'query'"), "{error}");
    let mut wrong = args(ManageOp::Search);
    wrong.query = some("AuthService");
    wrong.kind = some("Task");
    let error = call(&wrong).unwrap_err().message();
    assert!(error.contains("invalid 'kind'"), "{error}");
    let mut empty = args(ManageOp::Fetch);
    empty.item_id = some("");
    empty.kind = some("Constraint");
    let error = call(&empty).unwrap_err().message();
    assert!(error.contains("missing 'item_id'"), "{error}");
}

#[test]
fn every_refusal_names_the_operation_and_the_field() {
    let mut tag = args(ManageOp::Tag);
    tag.item_id = some("nonsense");
    assert_eq!(
        call(&tag).unwrap_err().message(),
        "context.manage tag: invalid 'item_id': not an identifier: nonsense"
    );
    tag.item_id = some(ITEM_ID);
    assert_eq!(
        call(&tag).unwrap_err().message(),
        "context.manage tag: missing 'tag'"
    );
    let mut search = args(ManageOp::Search);
    search.query = some("q");
    search.task_id = some("x");
    assert_eq!(
        call(&search).unwrap_err().message(),
        "context.manage search: invalid 'task_id': not an identifier: x"
    );
    search.task_id = None;
    search.scope = some("ever\"y");
    let error = call(&search).unwrap_err().message();
    assert!(error.contains("\"ever\\\"y\""), "{error}");
    assert_eq!(optional_text(&some("  a ")).unwrap(), "a");
    assert!(optional_text(&some("  ")).is_none());
}

#[test]
fn a_call_is_described() {
    let lease = ContextAction::Lease { item_id: "i".to_string(), turns: 3 };
    let text = describe(&lease);
    assert!(text.starts_with("lease: item i"), "{text}");
    let output = call_output(&ContextCall::Directive(lease));
    assert_eq!(output.summary, text);
    assert_eq!(output.content, text);
    let pending = call_output(&ContextCall::Query(EngineQuery::FetchExternal {
        item_id: "i".to_string(),
    }));
    assert_eq!(pending.summary, "querying the context engine");
    assert_eq!(pending.content, "resolving...");
}
