use tool_runtime::attribution::{
    attribute_call, attribute_verification, builtin_execution_attribution, digest_trimmed, proof_run,
    CallFacts, ExactWorld, ProofRefusal, Recipe, RecipeProofRunner, ToolExecutionPurpose, VerificationReuse,
};
use tool_runtime::host_policies::{
    builtin_tool_policies, require_covered_process_spawn, require_process_effect_context,
    BuiltinToolPolicies, EffectContextFacts, HostEffectBinding, SpawnRefusal,
};

#[test]
fn every_builtin_name_resolves_and_unknowns_do_not() {
    let policies = builtin_tool_policies();
    for policy in policies.iter() {
        assert!(
            BuiltinToolPolicies.policy_for(&policy.tool_name).is_some(),
            "{} must resolve",
            policy.tool_name
        );
    }
    assert!(BuiltinToolPolicies.policy_for("plugin.process").is_none());
}

#[test]
fn every_dispatched_tool_has_a_policy() {
    let policies = builtin_tool_policies();
    let names: Vec<&str> = policies.iter().map(|policy| policy.tool_name.as_str()).collect();
    for name in [
        "fs.list",
        "fs.read",
        "artifact.read",
        "fs.write",
        "fs.mkdir",
        "search.grep",
        "edit.replace",
        "edit.patch",
        "git.status",
        "git.diff",
        "shell.exec",
        "process.run",
        "process.session",
        "code.symbols",
        "code.diagnostics",
        "context.manage",
        "task.complete",
        "task.manage",
        "verify.run",
        "capability.manage",
    ] {
        assert!(names.contains(&name), "{name}");
        let policy = BuiltinToolPolicies.policy_for(name).unwrap();
        assert_eq!(policy.tool_name, name);
    }
    assert_eq!(names.len(), 20);
    assert!(BuiltinToolPolicies.policy_for("fs.rmdir").is_none());
}

#[test]
fn every_policy_names_the_arguments_it_goes_by() {
    let binding = |name: &str| BuiltinToolPolicies.policy_for(name).unwrap().binding;
    assert!(matches!(binding("git.diff"), HostEffectBinding::ReadOnly));
    assert!(matches!(binding("code.symbols"), HostEffectBinding::ReadOnly));
    assert!(matches!(binding("code.diagnostics"), HostEffectBinding::ReadOnly));
    assert!(matches!(binding("task.manage"), HostEffectBinding::ReadOnly));
    assert!(matches!(
        binding("fs.mkdir"),
        HostEffectBinding::WorkspaceWrite { path_arg, content_args }
            if path_arg == "path" && content_args.is_empty()
    ));
    assert!(matches!(
        binding("verify.run"),
        HostEffectBinding::RecipeExec { recipe_arg } if recipe_arg == "recipe_id"
    ));
    assert!(matches!(
        binding("fs.write"),
        HostEffectBinding::WorkspaceWrite { path_arg, content_args }
            if path_arg == "path" && content_args == vec!["content"]
    ));
    assert!(matches!(
        binding("edit.replace"),
        HostEffectBinding::WorkspaceWrite { path_arg, content_args }
            if path_arg == "path" && content_args == vec!["new"]
    ));
    assert!(matches!(
        binding("edit.patch"),
        HostEffectBinding::WorkspaceWrite { path_arg, content_args }
            if path_arg == "path" && content_args.is_empty()
    ));
    assert!(matches!(
        binding("process.run"),
        HostEffectBinding::ExecArgv { argv_arg } if argv_arg == "argv"
    ));
    assert!(matches!(
        binding("shell.exec"),
        HostEffectBinding::ShellExec { command_arg, dialect_arg }
            if command_arg == "command" && dialect_arg == "dialect"
    ));
    assert!(matches!(
        binding("process.session"),
        HostEffectBinding::SessionExec { argv_arg, action_arg }
            if argv_arg == "argv" && action_arg == "action"
    ));
}

fn context(tool_name: &str, invalid: Option<&str>) -> EffectContextFacts {
    EffectContextFacts {
        tool_name: tool_name.to_string(),
        invalid: invalid.map(str::to_string),
    }
}

#[test]
fn a_process_needs_a_context_of_its_own_tool() {
    let none = require_process_effect_context(None, "shell.exec", true).unwrap_err();
    assert!(none
        .message()
        .contains("cannot spawn without Core-issued effect identity"));
    let other = context("process.run", None);
    let refused = require_process_effect_context(Some(&other), "shell.exec", true).unwrap_err();
    assert_eq!(
        refused.message(),
        "process spawn identity is for 'process.run' but this tool is 'shell.exec'"
    );
    let broken = context("shell.exec", Some("expired"));
    let refused = require_process_effect_context(Some(&broken), "shell.exec", true).unwrap_err();
    assert_eq!(refused.message(), "expired");
    let own = context("fs.read", None);
    let refused = require_process_effect_context(Some(&own), "fs.read", false).unwrap_err();
    assert_eq!(
        refused.message(),
        "'fs.read' is not a non-transactional process tool"
    );
    let own = context("shell.exec", None);
    assert!(require_process_effect_context(Some(&own), "shell.exec", true).is_ok());

    assert!(require_covered_process_spawn(true).is_ok());
    let refused = require_covered_process_spawn(false).unwrap_err();
    assert!(matches!(refused, SpawnRefusal::NotCovered));
    assert!(refused.message().ends_with("the child was not started"));
}

#[test]
fn builtin_attribution_copies_only_trusted_resource_identities() {
    let read = attribute_call("fs.read", Some(r"src\lib.rs"), &vec![]);
    assert_eq!(read.purpose, ToolExecutionPurpose::Observe);
    assert_eq!(read.targets, vec!["src/lib.rs"]);
    assert_eq!(read.verification_reuse, VerificationReuse::Never);

    let shell = attribute_call("shell.exec", Some("src"), &vec!["a".to_string()]);
    assert_eq!(shell.purpose, ToolExecutionPurpose::Opaque);
    assert!(shell.targets.is_empty());
    assert!(shell.verification_identity.is_none());

    let files = vec!["a.rs".to_string(), r"b\c.rs".to_string()];
    let patch = attribute_call("edit.patch", Some("ignored"), &files);
    assert_eq!(patch.purpose, ToolExecutionPurpose::Mutate);
    assert_eq!(patch.targets, vec!["a.rs", "b/c.rs"]);
    let grep = attribute_call("search.grep", None, &files);
    assert_eq!(grep.purpose, ToolExecutionPurpose::Search);
    assert!(grep.targets.is_empty());
    assert_eq!(
        attribute_call("task.complete", None, &vec![]).purpose,
        ToolExecutionPurpose::Control
    );
    assert_eq!(
        attribute_call("plugin.tool", Some("a"), &vec![]).purpose,
        ToolExecutionPurpose::Unattributed
    );
}

fn recipe(id: &str, reuse: VerificationReuse, domain: Option<&str>) -> Recipe {
    Recipe {
        id: id.to_string(),
        revision: "v1".to_string(),
        argv: vec!["echo".to_string(), "trusted".to_string()],
        cwd: None,
        env: vec![("LANG".to_string(), "C".to_string())],
        timeout_ms: 100,
        reuse,
        coverage_domain: domain.map(str::to_string),
    }
}

fn world(material: &str) -> ExactWorld {
    ExactWorld {
        material: material.to_string(),
        class_material: Some(" class ".to_string()),
        declaration: Some((3, "digest".to_string())),
    }
}

fn recipes() -> Vec<Recipe> {
    vec![
        recipe("echo.trusted", VerificationReuse::ExactCurrentWorld, Some("unit")),
        recipe("plain", VerificationReuse::TaskScoped, None),
    ]
}

fn runner() -> RecipeProofRunner {
    assert!(RecipeProofRunner::new(recipes(), false).is_none());
    RecipeProofRunner::new(recipes(), true).unwrap()
}

const ABC: &str = "ba7816bf8f01cfea414140de5dae2223b00361a396177a9cb410ff61f20015ad";

#[test]
fn the_digest_leaves_white_space_around_out() {
    assert_eq!(digest_trimmed(" \u{2003}abc\r\n"), ABC);
    assert_ne!(digest_trimmed("a bc"), ABC);
}

#[test]
fn host_proof_identity_agrees_with_dispatcher_attribution() {
    let recipes = recipes();
    let here = world("abc\n");
    let stamped = attribute_verification(&recipes, Some(" echo.trusted "), Some(&here))
        .verification_identity
        .unwrap();
    assert_eq!(stamped, ABC);
    assert_eq!(
        runner().exact_identity("echo.trusted", Some(&here)).unwrap(),
        stamped
    );
    assert_eq!(
        runner()
            .verify_exact("echo.trusted ", Some(&here), true)
            .unwrap()
            .verification_identity,
        stamped
    );
}

#[test]
fn an_exact_recipe_carries_its_provenance() {
    let recipes = recipes();
    let exact = attribute_verification(&recipes, Some("echo.trusted"), Some(&world("abc")));
    assert_eq!(exact.purpose, ToolExecutionPurpose::Verify);
    assert_eq!(exact.targets, vec!["."]);
    assert_eq!(exact.verification_reuse, VerificationReuse::ExactCurrentWorld);
    let from = exact.verification_recipe.unwrap();
    assert_eq!(from.recipe_id, "echo.trusted");
    assert_eq!(from.recipe_revision, "v1");
    assert_eq!(from.coverage_domain.as_deref(), Some("unit"));
    assert_eq!(from.domain_declaration_revision, Some(3));
    assert_eq!(from.domain_source_digest, "digest");
    assert_eq!(
        from.class_identity_digest,
        format!("sha256-{}", digest_trimmed("class"))
    );

    let mut apart = recipe("apart", VerificationReuse::ExactCurrentWorld, None);
    apart.cwd = Some(r"sub\dir".to_string());
    let alone = attribute_verification(&vec![apart], Some("apart"), Some(&world("abc")));
    assert_eq!(alone.targets, vec!["sub/dir"]);
    let from = alone.verification_recipe.unwrap();
    assert_eq!(from.domain_declaration_revision, None);
    assert_eq!(from.domain_source_digest, "");
    assert_eq!(from.class_identity_digest, "");
}

#[test]
fn general_project_test_recipe_is_typed_but_not_exactly_reused() {
    let recipes = recipes();
    let plain = attribute_verification(&recipes, Some("plain"), Some(&world("abc")));
    assert_eq!(plain.purpose, ToolExecutionPurpose::Verify);
    assert_eq!(plain.verification_reuse, VerificationReuse::TaskScoped);
    assert!(plain.verification_identity.is_none());
    let unknown = attribute_verification(&recipes, Some("missing"), None);
    assert_eq!(unknown.purpose, ToolExecutionPurpose::Unattributed);
    assert!(unknown.targets.is_empty());
    let nothing = attribute_verification(&recipes, None, Some(&world("abc")));
    assert_eq!(nothing.purpose, ToolExecutionPurpose::Unattributed);
    let blind = attribute_verification(&recipes, Some("echo.trusted"), None);
    assert_eq!(blind.purpose, ToolExecutionPurpose::Verify);
    assert!(blind.verification_identity.is_none());
}

#[test]
fn pass_mints_the_exact_identity() {
    let started = runner().verify_exact("echo.trusted", Some(&world("abc")), true).unwrap();
    let run =
        proof_run(Some((true, "exit 0".to_string())), started.verification_identity).unwrap();
    assert!(run.ok);
    assert_eq!(run.summary, "exit 0");
    assert_eq!(run.verification_identity.len(), 64);
    assert_eq!(
        Some(run.verification_identity),
        runner().exact_identity("echo.trusted", Some(&world("abc")))
    );
}

#[test]
fn a_proof_runs_the_declared_process() {
    let mut apart = recipe("apart", VerificationReuse::ExactCurrentWorld, None);
    apart.cwd = Some("sub".to_string());
    let runner = RecipeProofRunner::new(vec![apart], true).unwrap();
    let started = runner.verify_exact(" apart", Some(&world("abc")), true).unwrap();
    assert_eq!(started.tool_name, "verify.run");
    assert_eq!(started.call_id, "host-proof");
    assert_eq!(started.recipe_id, "apart");
    assert_eq!(started.argv, vec!["echo", "trusted"]);
    assert_eq!(started.cwd.as_deref(), Some("sub"));
    assert_eq!(started.env, vec![("LANG".to_string(), "C".to_string())]);
    assert_eq!(started.timeout_ms, 100);
    assert!(started.host_trusted);
    assert_eq!(started.verification_identity, ABC);
}

#[test]
fn failure_is_reported_with_identity() {
    let run = proof_run(Some((false, "exit 1".to_string())), "id".to_string()).unwrap();
    assert!(!run.ok);
    assert_eq!(run.verification_identity, "id");
    let refused = proof_run(None, "id".to_string()).unwrap_err();
    assert_eq!(
        refused.message(),
        "host verification returned a non-value outcome"
    );
}

#[test]
fn unknown_recipe_is_refused_before_spawn() {
    let error = runner().verify_exact(" missing ", Some(&world("abc")), true).unwrap_err();
    assert_eq!(error.message(), "unknown verification recipe 'missing'");
    assert!(runner().exact_identity("missing", Some(&world("abc"))).is_none());
}

#[test]
fn non_exact_recipe_is_refused() {
    let error = runner().verify_exact("plain", Some(&world("abc")), true).unwrap_err();
    assert!(error.message().contains("not an exact current-world recipe"));
    assert!(runner().exact_identity("plain", Some(&world("abc"))).is_none());
    let error = runner().verify_exact("echo.trusted", None, true).unwrap_err();
    assert_eq!(
        error.message(),
        "exact identity for verification recipe 'echo.trusted' is not computable in this world; refusing host proof"
    );
    let error = runner().verify_exact("echo.trusted", Some(&world("a")), false).unwrap_err();
    assert!(matches!(error, ProofRefusal::NoPolicy));
    assert_eq!(
        error.message(),
        "verification recipes register no host policy"
    );
}

#[test]
fn only_the_verifier_with_a_known_recipe_verifies() {
    let call = |name: &str, recipe_id: Option<&str>| CallFacts {
        name: name.to_string(),
        recipe_id: recipe_id.map(str::to_string),
        path: Some("src".to_string()),
        file_paths: vec![],
    };
    let here = world("abc");
    let attribute =
        |call: &CallFacts| builtin_execution_attribution(&recipes(), call, Some(&here));
    let verified = attribute(&call("verify.run", Some(" echo.trusted ")));
    assert_eq!(verified.purpose, ToolExecutionPurpose::Verify);
    assert_eq!(verified.targets, vec!["."]);
    assert_eq!(verified.verification_identity.as_deref(), Some(ABC));
    for other in [call("verify.run", Some("missing")), call("verify.run", None)] {
        assert_eq!(attribute(&other).purpose, ToolExecutionPurpose::Unattributed);
    }
    let process = attribute(&call("process.run", Some("echo.trusted")));
    assert_eq!(process.purpose, ToolExecutionPurpose::Opaque);
    assert!(process.verification_identity.is_none() && process.targets.is_empty());
    let read = attribute(&call("fs.read", Some("echo.trusted")));
    assert_eq!(read.purpose, ToolExecutionPurpose::Observe);
    assert_eq!(read.targets, vec!["src"]);
}
