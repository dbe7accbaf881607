use tool_runtime::capability::{
    inspect_output, load_output, read_call, search_page, unload_output, ManageArgs, ManageCall,
    ManageError, SearchHit,
};
use tool_runtime::facts::{ResourceTouch, ToolExecutionFacts};
use tool_runtime::registry::{
    BuiltinToolDispatcher, CatalogError, ToolFacts, ToolLifecycle, ToolLifecycleConfig, ToolRisk,
    ToolSemanticRole, CAPABILITY_MANAGE,
};

const READS: [&str; 11] = [
    "fs.list",
    "fs.read",
    "artifact.read",
    "search.grep",
    "git.status",
    "git.diff",
    "code.symbols",
    "code.diagnostics",
    "context.manage",
    "task.complete",
    "task.manage",
];
const WRITES: [&str; 4] = ["fs.write", "fs.mkdir", "edit.replace", "edit.patch"];
const RUNS: [&str; 3] = ["shell.exec", "process.run", "process.session"];

fn facts(name: &str, risk: ToolRisk, schema_bytes: usize) -> ToolFacts {
    ToolFacts {
        name: name.to_string(),
        description: format!("about {name}"),
        risk,
        roles: match risk {
            ToolRisk::ReadOnly => vec![ToolSemanticRole::Search],
            ToolRisk::WorkspaceWrite => vec![ToolSemanticRole::Mutate],
            ToolRisk::ProcessExecution => vec![
                ToolSemanticRole::EscapeHatch,
                ToolSemanticRole::Verify,
            ],
        },
        schema_bytes,
    }
}

fn tools() -> Vec<ToolFacts> {
    let mut all = vec![];
    for name in READS {
        all.push(facts(name, ToolRisk::ReadOnly, 100));
    }
    for name in WRITES {
        all.push(facts(name, ToolRisk::WorkspaceWrite, 100));
    }
    for name in RUNS {
        all.push(facts(name, ToolRisk::ProcessExecution, 100));
    }
    all
}

fn dispatcher() -> BuiltinToolDispatcher {
    BuiltinToolDispatcher::new(tools())
}

fn configured(warm: usize, unload: usize, high: usize, low: usize) -> BuiltinToolDispatcher {
    BuiltinToolDispatcher::with_config(
        ToolLifecycleConfig {
            always_loaded: vec!["fs.read".to_string()],
            idle_to_warm_ticks: warm,
            warm_to_unload_ticks: unload,
            surface_soft_high_bytes: high,
            surface_low_watermark_bytes: low,
        },
        tools(),
    )
}

fn offers(dispatcher: &BuiltinToolDispatcher, name: &str) -> bool {
    dispatcher.surface().names.iter().any(|n| n == name)
}

fn state(dispatcher: &BuiltinToolDispatcher, name: &str) -> ToolLifecycle {
    dispatcher.inspect_tool(name).unwrap().state
}

#[test]
fn default_surface_is_the_core_set_plus_control_tools() {
    let dispatcher = dispatcher();
    let names = dispatcher.surface().names;
    assert_eq!(
        names,
        vec![
            "artifact.read",
            "capability.manage",
            "edit.patch",
            "fs.list",
            "fs.read",
            "fs.write",
            "git.diff",
            "git.status",
            "search.grep",
            "task.complete",
        ]
    );
    assert!(
        dispatcher
            .catalog()
            .iter()
            .any(|entry| entry.name == "fs.mkdir"),
        "fs.mkdir must remain discoverable even while absent from the default surface"
    );
}

#[test]
fn the_catalog_is_sorted_and_describes_every_tool() {
    let rows = dispatcher().catalog();
    assert_eq!(rows.len(), 18);
    assert!(rows.windows(2).all(|pair| pair[0].name < pair[1].name));
    let row = rows.iter().find(|row| row.name == "fs.write").unwrap();
    assert_eq!(row.owner, "builtin");
    assert_eq!(row.description, "about fs.write");
    assert_eq!(row.risk, ToolRisk::WorkspaceWrite);
    assert_eq!(row.roles, vec![ToolSemanticRole::Mutate]);
    assert_eq!(row.state, ToolLifecycle::Loaded);
    let run = rows.iter().find(|row| row.name == "process.run").unwrap();
    assert_eq!(
        run.roles,
        vec![ToolSemanticRole::EscapeHatch, ToolSemanticRole::Verify]
    );
}

#[test]
fn the_last_tool_of_a_name_counts() {
    let twice = vec![
        facts("b", ToolRisk::ReadOnly, 1),
        facts("a", ToolRisk::ReadOnly, 2),
        facts("b", ToolRisk::WorkspaceWrite, 4),
        facts("verify.run", ToolRisk::ProcessExecution, 8),
    ];
    let dispatcher = BuiltinToolDispatcher::with_config(ToolLifecycleConfig::default(), twice);
    let names: Vec<String> = dispatcher.catalog().into_iter().map(|row| row.name).collect();
    assert_eq!(names, vec!["a", "b", "verify.run"]);
    assert_eq!(
        dispatcher.inspect_tool("b").unwrap().risk,
        ToolRisk::WorkspaceWrite
    );
    assert_eq!(state(&dispatcher, "verify.run"), ToolLifecycle::Loaded);
    assert_eq!(dispatcher.loaded_surface_bytes(), 8);
}

#[test]
fn load_and_unload_change_the_model_surface() {
    let mut dispatcher = dispatcher();
    assert!(!offers(&dispatcher, "edit.replace"));
    assert!(offers(&dispatcher, "task.complete"));

    dispatcher.load("edit.replace").unwrap();
    assert!(offers(&dispatcher, "edit.replace"));
    dispatcher.load("task.complete").unwrap();
    assert!(offers(&dispatcher, "task.complete"));

    dispatcher.unload("edit.replace").unwrap();
    assert!(!offers(&dispatcher, "edit.replace"));
    assert!(
        dispatcher.unload("task.complete").is_err(),
        "an always-loaded closure surface cannot be unloaded"
    );
    assert!(offers(&dispatcher, "task.complete"));
    let core = dispatcher.unload("fs.read").unwrap_err();
    assert_eq!(core.message(), "core tool 'fs.read' cannot be unloaded");
    assert!(dispatcher.unload("git.status").is_err());
    let unknown = dispatcher.load("no.such.tool").unwrap_err();
    assert_eq!(
        unknown.message(),
        "unknown tool: no.such.tool (see capability.search)"
    );
    assert!(matches!(
        dispatcher.unload("no.such.tool"),
        Err(CatalogError::UnknownTool(_))
    ));
    assert!(dispatcher.load_for_lease("no.such.tool").is_err());
}

#[test]
fn round_omission_classification_preserves_core_and_controls() {
    let dispatcher = dispatcher();
    assert!(!dispatcher.may_omit_from_round("fs.read"));
    assert!(dispatcher.may_omit_from_round("context.manage"));
    assert!(!dispatcher.may_omit_from_round(CAPABILITY_MANAGE));
    assert!(!dispatcher.may_omit_from_round("unknown.tool"));
    assert!(!dispatcher.may_omit_from_round("git.status"));
    assert!(dispatcher.may_omit_from_round("edit.replace"));
    assert!(!dispatcher.may_omit_from_round("task.complete"));
}

#[test]
fn surface_specs_and_generation_are_one_catalog_revision() {
    let mut dispatcher = dispatcher();
    for _ in 0..50 {
        dispatcher.load("edit.replace").unwrap();
        let loaded = dispatcher.surface();
        assert_eq!(loaded.generation % 2, 1);
        assert!(loaded.names.iter().any(|name| name == "edit.replace"));
        dispatcher.unload("edit.replace").unwrap();
        let unloaded = dispatcher.surface();
        assert_eq!(unloaded.generation % 2, 0);
        assert!(!unloaded.names.iter().any(|name| name == "edit.replace"));
    }
    assert_eq!(dispatcher.generation, 100);
}

#[test]
fn idle_tools_cool_and_unload() {
    let mut dispatcher = configured(2, 4, 0, 0);
    dispatcher.load_for_lease("fs.write").unwrap();
    for _ in 0..3 {
        assert!(offers(&dispatcher, "fs.write"));
    }
    dispatcher.gc(&[]);
    assert_eq!(state(&dispatcher, "fs.write"), ToolLifecycle::Loaded);
    dispatcher.gc(&[]);
    assert_eq!(state(&dispatcher, "fs.write"), ToolLifecycle::Warm);
    dispatcher.gc(&[]);
    assert_eq!(state(&dispatcher, "fs.write"), ToolLifecycle::Warm);
    dispatcher.gc(&[]);
    assert_eq!(state(&dispatcher, "fs.write"), ToolLifecycle::Unloaded);
    assert!(
        !offers(&dispatcher, "fs.write"),
        "an idle tool must leave the surface after the GC thresholds"
    );
    assert_eq!(dispatcher.tick, 4);
    assert_eq!(dispatcher.generation, 3, "one load and two transitions");
}

#[test]
fn no_surface_pressure_keeps_idle_tools_loaded() {
    let mut dispatcher = configured(2, 4, 1_000_000, 500_000);
    dispatcher.load_for_lease("fs.write").unwrap();
    for _ in 0..10 {
        dispatcher.gc(&[]);
    }
    assert!(offers(&dispatcher, "fs.write"));
    assert_eq!(dispatcher.generation, 1);
}

#[test]
fn decision_lease_reconcile_cools_only_unrooted_optionals() {
    let mut dispatcher = configured(100, 200, 1_000_000, 500_000);
    dispatcher.load_for_lease("fs.write").unwrap();
    dispatcher.load_for_lease("git.status").unwrap();

    let report = dispatcher.reconcile_leases(&["fs.write".to_string()]);
    assert_eq!(report.examined_loaded_optional, 2);
    assert_eq!(report.retained_by_root, 1);
    assert_eq!(report.released_to_warm, 1);
    assert_eq!(report.released_tools, vec!["git.status"]);
    assert_eq!(state(&dispatcher, "fs.read"), ToolLifecycle::Loaded);
    assert_eq!(state(&dispatcher, "fs.write"), ToolLifecycle::Loaded);
    assert_eq!(state(&dispatcher, "git.status"), ToolLifecycle::Warm);

    dispatcher.load_for_lease("git.status").unwrap();
    assert!(
        offers(&dispatcher, "git.status"),
        "a released lease must remain exactly reloadable"
    );
}

#[test]
fn host_load_source_survives_reconcile_and_pressure_until_unload() {
    let mut dispatcher = configured(1, 2, 0, 0);
    dispatcher.load("git.status").unwrap();
    dispatcher.load_for_lease("fs.write").unwrap();

    let report = dispatcher.reconcile_leases(&[]);
    assert_eq!(report.examined_loaded_optional, 2);
    assert_eq!(report.retained_by_persistent_source, 1);
    assert_eq!(report.released_to_warm, 1);
    for _ in 0..4 {
        dispatcher.gc(&[]);
    }
    assert_eq!(state(&dispatcher, "git.status"), ToolLifecycle::Loaded);
    dispatcher.unload("git.status").unwrap();
    assert_eq!(state(&dispatcher, "git.status"), ToolLifecycle::Unloaded);
}

#[test]
fn pressure_cools_oldest_first_to_the_low_watermark() {
    // fs.read, fs.write and git.status together are 300 bytes.
    let mut dispatcher = configured(2, 100, 299, 299);
    dispatcher.load_for_lease("fs.write").unwrap();
    dispatcher.load_for_lease("git.status").unwrap();
    assert_eq!(dispatcher.loaded_surface_bytes(), 300);
    for _ in 0..4 {
        dispatcher.gc(&[]);
    }
    assert!(!offers(&dispatcher, "fs.write"));
    assert!(offers(&dispatcher, "git.status"));
    for _ in 0..4 {
        dispatcher.gc(&[]);
    }
    assert!(offers(&dispatcher, "git.status"));

    let mut dispatcher = configured(2, 100, 299, 299);
    dispatcher.load_for_lease("git.status").unwrap();
    dispatcher.gc(&[]);
    dispatcher.load_for_lease("fs.write").unwrap();
    for _ in 0..3 {
        dispatcher.gc(&[]);
    }
    assert!(!offers(&dispatcher, "git.status"), "the longest idle cools first");
    assert!(offers(&dispatcher, "fs.write"));
}

#[test]
fn task_roots_protect_required_tools_from_idle_gc() {
    let mut dispatcher = configured(2, 4, 0, 0);
    dispatcher.load_for_lease("fs.write").unwrap();
    dispatcher.load_for_lease("git.status").unwrap();
    let roots = vec!["fs.write".to_string()];
    for _ in 0..5 {
        dispatcher.gc(&roots);
    }
    assert!(offers(&dispatcher, "fs.write"));
    assert!(!offers(&dispatcher, "git.status"));
    assert!(
        dispatcher.unload("fs.write").is_ok(),
        "roots must not block explicit unload"
    );
}

#[test]
fn a_run_marks_the_tool_and_ends_loaded() {
    let mut dispatcher = configured(2, 4, 0, 0);
    dispatcher.gc(&[]);
    dispatcher.begin("git.status", false).unwrap();
    assert_eq!(state(&dispatcher, "git.status"), ToolLifecycle::Active);
    assert!(offers(&dispatcher, "git.status"));
    assert_eq!(dispatcher.inspect_tool("git.status").unwrap().last_used_tick, 1);
    dispatcher.end("git.status");
    assert_eq!(state(&dispatcher, "git.status"), ToolLifecycle::Loaded);

    dispatcher.begin("git.status", false).unwrap();
    dispatcher.unload("git.status").unwrap();
    dispatcher.end("git.status");
    assert_eq!(
        state(&dispatcher, "git.status"),
        ToolLifecycle::Unloaded,
        "a tool that moved on meanwhile stays where it is"
    );
    dispatcher.end("no.such.tool");
}

#[test]
fn dispatcher_refuses_effect_identity_on_readonly_git() {
    let mut dispatcher = dispatcher();
    let error = dispatcher.begin("git.status", true).unwrap_err();
    assert_eq!(
        error.message(),
        "tool 'git.status' must not receive a Core-issued effect context"
    );
    let error = dispatcher.begin("process.session", false).unwrap_err();
    assert_eq!(
        error.message(),
        "tool 'process.session' requires a Core-issued effect context"
    );
    assert!(dispatcher.begin("process.session", true).is_ok());
    assert!(dispatcher.begin("no.such.tool", true).is_err());
}

fn call(op: &str, name: Option<&str>) -> Result<ManageCall, ManageError> {
    read_call(ManageArgs {
        op: op.to_string(),
        name: name.map(str::to_string),
        query: Some("git".to_string()),
        role: None,
        limit: Some(3),
        cursor: None,
    })
}

#[test]
fn control_tools_execute() {
    match call("search", None).unwrap() {
        ManageCall::Search(args) => {
            assert_eq!(args.query.as_deref(), Some("git"));
            assert_eq!(args.limit, Some(3));
        }
        other => panic!("{other:?}"),
    }
    assert!(matches!(call("inspect", Some("fs.read")), Ok(ManageCall::Inspect(name)) if name == "fs.read"));
    assert!(matches!(call("unload", Some("x")), Ok(ManageCall::Unload(_))));

    let mut dispatcher = dispatcher();
    let Ok(ManageCall::Load(name)) = call("load", Some("edit.replace")) else {
        panic!("a load was asked for");
    };
    dispatcher.load_for_lease(&name).unwrap();
    assert!(offers(&dispatcher, "edit.replace"));
    let report = dispatcher.reconcile_leases(&[]);
    assert_eq!(report.retained_by_persistent_source, 0);
    assert_eq!(report.released_to_warm, 1);
    assert!(
        !offers(&dispatcher, "edit.replace"),
        "a load by the control tool must remain a transient lease"
    );

    let bad = call("explode", None).unwrap_err();
    assert_eq!(
        bad.message(),
        "capability.manage: unknown op 'explode' (expected search/inspect/load/unload)"
    );
    for op in ["inspect", "load", "unload"] {
        let missing = call(op, None).unwrap_err();
        assert_eq!(
            missing.message(),
            format!("capability.manage {op}: missing 'name'")
        );
    }
}

#[test]
fn the_answers_name_the_tool() {
    let loaded = load_output("fs.write");
    assert!(loaded.ok);
    assert_eq!(loaded.summary, "tool loaded: fs.write");
    assert_eq!(
        loaded.content,
        "tool loaded: fs.write — its schema is now offered to the model"
    );
    assert_eq!(unload_output("fs.write").content, "tool unloaded: fs.write");
    let found = inspect_output("fs.read", Some((ToolLifecycle::Warm, "Read.", "{}")));
    assert!(found.ok);
    assert_eq!(found.summary, "tool fs.read: warm");
    assert_eq!(
        found.content,
        "name: fs.read\nowner: builtin\nstate: warm\ndescription: Read.\nschema: {}"
    );
    let unknown = inspect_output("no.such.tool", None);
    assert!(!unknown.ok);
    assert_eq!(unknown.content, "unknown tool: no.such.tool");
}

fn hits() -> Vec<SearchHit> {
    dispatcher()
        .catalog()
        .into_iter()
        .map(|row| SearchHit {
            state: row.state,
            name: row.name,
            purpose: row.description,
        })
        .collect()
}

#[test]
fn capability_search_pages_and_spills_large_catalogs() {
    let all = hits();
    let small = search_page(&all, None, None);
    assert!(small.listing.is_none(), "small catalogs stay inline");
    assert!(small.content.contains("loaded\tfs.read\tabout fs.read"));
    assert_eq!(small.summary, "18 tools matched (9 in the active set)");
    assert!(!small.has_more);

    let paged = search_page(&all, Some(2), None);
    assert_eq!(
        paged.content,
        "loaded\tartifact.read\tabout artifact.read\navailable\tcode.diagnostics\tabout code.diagnostics"
    );
    assert_eq!(paged.listing.as_deref(), Some(small.content.as_str()));
    assert!(paged.has_more);
    assert_eq!(paged.returned, 2);

    let mut seen = vec![];
    let mut cursor: Option<String> = None;
    loop {
        let page = search_page(&all, Some(5), cursor.as_deref());
        for line in page.content.lines() {
            seen.push(line.split('\t').nth(1).unwrap().to_string());
        }
        if !page.has_more {
            break;
        }
        cursor = seen.last().cloned();
    }
    let names: Vec<String> = all.iter().map(|hit| hit.name.clone()).collect();
    assert_eq!(seen, names, "every page starts where the last one ended");

    let end = search_page(&all, Some(0), Some("zzz"));
    assert_eq!(end.content, "no tools match");
    assert_eq!(end.returned, 0);
    assert!(!end.has_more);
    assert!(end.listing.is_some(), "a limit of nothing is one row");
    assert_eq!(search_page(&all, Some(1_000), None).returned, 18);
}

#[test]
fn context_manage_is_catalog_only_on_the_production_surface() {
    const CONTEXT_MANAGE: &str = "context.manage";
    let mut dispatcher = dispatcher();
    assert!(
        !offers(&dispatcher, CONTEXT_MANAGE),
        "the default must not always load context.manage"
    );
    assert!(
        dispatcher
            .catalog()
            .iter()
            .any(|entry| entry.name == CONTEXT_MANAGE),
        "context.manage must remain catalog-loadable"
    );
    assert!(dispatcher.may_omit_from_round(CONTEXT_MANAGE));
    dispatcher.load(CONTEXT_MANAGE).unwrap();
    assert!(offers(&dispatcher, CONTEXT_MANAGE));
    dispatcher.unload(CONTEXT_MANAGE).unwrap();
    assert!(!offers(&dispatcher, CONTEXT_MANAGE));
}

fn stamped(path: &str, revision: &str, mutates: bool) -> ToolExecutionFacts {
    ToolExecutionFacts::translate_stamped(
        vec![ResourceTouch {
            path: path.to_string(),
            revision: Some(revision.to_string()),
        }],
        false,
        mutates,
    )
}

#[test]
fn execution_facts_prefer_native_stamps_inside_the_trust_boundary() {
    let tools = dispatcher();
    let native = ToolExecutionFacts {
        touches: vec![ResourceTouch {
            path: "native.rs".to_string(),
            revision: Some("r9".to_string()),
        }],
        verification: None,
        mutation_bound: Some(false),
    };
    let facts = tools.execution_facts("fs.read", Some(native), stamped("derived.rs", "r1", false));
    assert_eq!(facts.touches.len(), 1);
    assert_eq!(facts.touches[0].path, "native.rs");
    assert_eq!(facts.touches[0].revision.as_deref(), Some("r9"));
    assert_eq!(facts.mutation_bound, Some(false));

    let foreign = ToolExecutionFacts {
        touches: vec![],
        verification: Some(true),
        mutation_bound: Some(false),
    };
    let facts = tools.execution_facts(
        "plugin.demo.one",
        Some(foreign),
        ToolExecutionFacts::builtin_bound(false),
    );
    assert!(facts.touches.is_empty());
    assert_eq!(facts.mutation_bound, None);
    assert_eq!(facts.verification, None);
}

#[test]
fn facts_are_derived_only_from_outputs_of_owned_tools() {
    let tools = dispatcher();
    let facts = tools.execution_facts("fs.write", None, stamped("src/auth.rs", "r1", true));
    assert_eq!(facts.touches.len(), 1);
    assert_eq!(facts.touches[0].path, "src/auth.rs");
    assert_eq!(facts.touches[0].revision.as_deref(), Some("r1"));
    assert_eq!(facts.mutation_bound, Some(true));
    assert_eq!(facts.verification, Some(false));

    let plain = tools.execution_facts("fs.read", None, ToolExecutionFacts::builtin_bound(false));
    assert!(plain.touches.is_empty());
    assert_eq!(plain.mutation_bound, Some(false));

    let foreign = tools.execution_facts("plugin.demo.one", None, stamped("escaped.rs", "r", true));
    assert!(foreign.touches.is_empty());
    assert_eq!(foreign.mutation_bound, None);
    assert_eq!(foreign.verification, None);
}

#[test]
fn a_touched_directory_has_no_revision() {
    let facts = ToolExecutionFacts::touching("src", None, true);
    assert_eq!(facts.touches.len(), 1);
    assert_eq!(facts.touches[0].path, "src");
    assert!(facts.touches[0].revision.is_none());
    assert_eq!(facts.mutation_bound, Some(true));
    assert_eq!(facts.verification, Some(false));
    let read = ToolExecutionFacts::touching("a.rs", Some("r1"), false);
    assert_eq!(read.touches[0].revision.as_deref(), Some("r1"));
}

#[test]
fn one_generation_names_one_surface() {
    let mut dispatcher = configured(2, 4, 0, 0);
    let mut seen: Vec<(u64, Vec<String>)> = Vec::new();
    let mut note = |dispatcher: &BuiltinToolDispatcher| {
        let surface = dispatcher.surface();
        for (generation, names) in &seen {
            if *generation == surface.generation {
                assert_eq!(*names, surface.names);
            }
        }
        let mut sorted = surface.names.clone();
        sorted.sort();
        sorted.dedup();
        assert_eq!(sorted, surface.names, "sorted, each name once");
        seen.push((surface.generation, surface.names));
    };
    note(&dispatcher);
    let start = dispatcher.generation;
    dispatcher.begin("git.status", false).unwrap();
    note(&dispatcher);
    assert_eq!(dispatcher.generation, start + 1, "the run offers the tool");
    dispatcher.end("git.status");
    note(&dispatcher);
    assert_eq!(dispatcher.generation, start + 1, "the tool stays offered");
    dispatcher.begin("git.status", false).unwrap();
    note(&dispatcher);
    assert_eq!(dispatcher.generation, start + 1);
    dispatcher.end("git.status");
    for _ in 0..8 {
        dispatcher.gc(&[]);
        note(&dispatcher);
    }
    assert!(!offers(&dispatcher, "git.status"));
}

#[test]
fn a_full_clock_starts_anew() {
    let mut dispatcher = configured(2, 4, 0, 0);
    dispatcher.load("fs.write").unwrap();
    dispatcher.load_for_lease("git.status").unwrap();
    dispatcher.tick = u64::MAX;
    dispatcher.gc(&[]);
    assert_eq!(dispatcher.tick, 0);
    assert!(offers(&dispatcher, "fs.write"));
    assert!(offers(&dispatcher, "git.status"), "it was never used later than now");
}
