//! What a call is for, as the host sees it, and the identity of a
//! verification.
//!
//! Only identities of workspace resources are copied from a call; commands,
//! queries and contents are not. A shell or a process stays opaque whatever
//! it runs: only a recipe of the host verifies.
use crate::outside;
use crate::registry;
use crate::text;
use crate::view;
use vstd::prelude::*;

verus! {

/// What a call is for.
#[derive(Debug, Clone, Copy, PartialEq, Eq, Structural)]
pub enum ToolExecutionPurpose {
    Verify,
    Observe,
    Search,
    Mutate,
    Opaque,
    Control,
    Unattributed,
}

/// When the result of a verification may be used again.
#[derive(Debug, Clone, Copy, PartialEq, Eq, Structural)]
pub enum VerificationReuse {
    Never,
    TaskScoped,
    ExactCurrentWorld,
}

/// What a call of this tool is for.
pub open spec fn purpose(name: Seq<char>) -> ToolExecutionPurpose {
    if name == "fs.read"@ || name == "git.status"@ || name == "git.diff"@ || name
        == "artifact.read"@ {
        ToolExecutionPurpose::Observe
    } else if name == "fs.list"@ || name == "search.grep"@ || name == "code.symbols"@ || name
        == "code.diagnostics"@ {
        ToolExecutionPurpose::Search
    } else if name == "fs.write"@ || name == "fs.mkdir"@ || name == "edit.replace"@ || name
        == "edit.patch"@ {
        ToolExecutionPurpose::Mutate
    } else if name == "shell.exec"@ || name == "process.run"@ || name == "process.session"@ {
        ToolExecutionPurpose::Opaque
    } else if name == registry::CAPABILITY_MANAGE@ || name == "context.manage"@ || name
        == "task.complete"@ {
        ToolExecutionPurpose::Control
    } else {
        ToolExecutionPurpose::Unattributed
    }
}

/// What a call of this tool is for.
pub fn purpose_of(name: &str) -> (p: ToolExecutionPurpose)
    ensures
        p == purpose(name@),
{
    if text::same(name, "fs.read") || text::same(name, "git.status") || text::same(name, "git.diff")
        || text::same(name, "artifact.read") {
        ToolExecutionPurpose::Observe
    } else if text::same(name, "fs.list") || text::same(name, "search.grep") || text::same(
        name,
        "code.symbols",
    ) || text::same(name, "code.diagnostics") {
        ToolExecutionPurpose::Search
    } else if text::same(name, "fs.write") || text::same(name, "fs.mkdir") || text::same(
        name,
        "edit.replace",
    ) || text::same(name, "edit.patch") {
        ToolExecutionPurpose::Mutate
    } else if text::same(name, "shell.exec") || text::same(name, "process.run") || text::same(
        name,
        "process.session",
    ) {
        ToolExecutionPurpose::Opaque
    } else if text::same(name, registry::CAPABILITY_MANAGE) || text::same(name, "context.manage")
        || text::same(name, "task.complete") {
        ToolExecutionPurpose::Control
    } else {
        ToolExecutionPurpose::Unattributed
    }
}

/// Whether the `path` argument of this tool names a resource.
pub open spec fn names_a_path(name: Seq<char>) -> bool {
    name == "fs.read"@ || name == "fs.list"@ || name == "search.grep"@ || name == "fs.write"@
        || name == "fs.mkdir"@ || name == "edit.replace"@ || name == "git.diff"@ || name
        == "code.symbols"@ || name == "code.diagnostics"@
}

fn has_path_argument(name: &str) -> (r: bool)
    ensures
        r == names_a_path(name@),
{
    text::same(name, "fs.read") || text::same(name, "fs.list") || text::same(name, "search.grep")
        || text::same(name, "fs.write") || text::same(name, "fs.mkdir") || text::same(
        name,
        "edit.replace",
    ) || text::same(name, "git.diff") || text::same(name, "code.symbols") || text::same(
        name,
        "code.diagnostics",
    )
}

/// Where a verification comes from.
#[derive(Debug)]
pub struct VerificationRecipeProvenance {
    pub recipe_id: String,
    pub recipe_revision: String,
    pub coverage_domain: Option<String>,
    pub domain_declaration_revision: Option<u64>,
    pub domain_source_digest: String,
    pub class_identity_digest: String,
}

/// What a call is for, with what it touches.
#[derive(Debug)]
pub struct ToolExecutionAttribution {
    pub purpose: ToolExecutionPurpose,
    pub targets: Vec<String>,
    pub verification_reuse: VerificationReuse,
    /// The identity of an exact verification.
    pub verification_identity: Option<String>,
    pub verification_recipe: Option<VerificationRecipeProvenance>,
}

/// Whether an attribution carries these targets and nothing else.
pub open spec fn plain_attribution(
    a: ToolExecutionAttribution,
    p: ToolExecutionPurpose,
    targets: Seq<Seq<char>>,
    reuse: VerificationReuse,
) -> bool {
    &&& a.purpose == p
    &&& text::views(a.targets@) == targets
    &&& a.verification_reuse == reuse
    &&& a.verification_identity is None
    &&& a.verification_recipe is None
}

/// Paths the way they are recorded.
pub open spec fn shown_paths(paths: Seq<Seq<char>>) -> Seq<Seq<char>> {
    Seq::new(paths.len(), |i: int| view::shown_path(paths[i]))
}

/// What a call names as its targets: its path where the tool takes one, and
/// the paths of the files that a patch lists.
pub open spec fn named_paths(
    name: Seq<char>,
    path: Option<Seq<char>>,
    file_paths: Seq<Seq<char>>,
) -> Seq<Seq<char>> {
    if name == "edit.patch"@ {
        file_paths
    } else if names_a_path(name) && path is Some {
        seq![path->Some_0]
    } else {
        Seq::empty()
    }
}

/// A path that may be missing, as a value.
pub open spec fn path_view(path: Option<&str>) -> Option<Seq<char>> {
    match path {
        Some(p) => Some(p@),
        None => None,
    }
}

fn shown_all(paths: &Vec<String>) -> (out: Vec<String>)
    ensures
        text::views(out@) == shown_paths(text::views(paths@)),
{
    let mut out: Vec<String> = Vec::new();
    let mut i: usize = 0;
    while i < paths.len()
        invariant
            i <= paths@.len(),
            out@.len() == i,
            forall|k: int|
                0 <= k < i ==> (#[trigger] out@[k])@ == view::shown_path(paths@[k]@),
        decreases paths@.len() - i,
    {
        out.push(view::forward_slashes(paths[i].as_str()));
        i += 1;
    }
    assert(text::views(out@) =~= shown_paths(text::views(paths@)));
    out
}

/// Attributes a call of any tool but the verifier. `path` is the call's path
/// and `file_paths` are the paths of the files that it lists, as far as they
/// are texts.
pub fn attribute_call(name: &str, path: Option<&str>, file_paths: &Vec<String>) -> (a:
    ToolExecutionAttribution)
    ensures
        plain_attribution(
            a,
            purpose(name@),
            shown_paths(named_paths(name@, path_view(path), text::views(file_paths@))),
            VerificationReuse::Never,
        ),
{
    let targets = if text::same(name, "edit.patch") {
        shown_all(file_paths)
    } else {
        let mut targets: Vec<String> = Vec::new();
        if has_path_argument(name) {
            match path {
                Some(p) => {
                    targets.push(view::forward_slashes(p));
                },
                None => {},
            }
        }
        assert(text::views(targets@) =~= shown_paths(
            named_paths(name@, path_view(path), text::views(file_paths@)),
        ));
        targets
    };
    ToolExecutionAttribution {
        purpose: purpose_of(name),
        targets,
        verification_reuse: VerificationReuse::Never,
        verification_identity: None,
        verification_recipe: None,
    }
}

// ---------------------------------------------------------------------
// Verification
// ---------------------------------------------------------------------

/// A verification that the host has registered.
#[derive(Debug)]
pub struct Recipe {
    pub id: String,
    pub revision: String,
    /// The program and its arguments.
    pub argv: Vec<String>,
    pub cwd: Option<String>,
    pub env: Vec<(String, String)>,
    pub timeout_ms: u64,
    pub reuse: VerificationReuse,
    pub coverage_domain: Option<String>,
}

/// What the world looks like to an exact verification.
#[derive(Debug)]
pub struct ExactWorld {
    /// Everything the identity of the verification depends on.
    pub material: String,
    /// What recipes of the same class share, where there is such a class.
    pub class_material: Option<String>,
    /// The revision and the source digest of the coverage domain's
    /// declaration.
    pub declaration: Option<(u64, String)>,
}

/// Where the recipe of that id stands; -1 where there is none.
pub open spec fn recipe_index(recipes: Seq<Recipe>, id: Seq<char>, from: int) -> int
    decreases recipes.len() - from,
{
    if from < 0 || from >= recipes.len() {
        -1
    } else if recipes[from].id@ == id {
        from
    } else {
        recipe_index(recipes, id, from + 1)
    }
}

/// The recipe of that id.
pub open spec fn recipe_of(recipes: Seq<Recipe>, id: Seq<char>) -> Option<Recipe> {
    if recipe_index(recipes, id, 0) < 0 {
        None
    } else {
        Some(recipes[recipe_index(recipes, id, 0)])
    }
}

/// Finds the recipe of that id.
pub fn find_recipe<'a>(recipes: &'a Vec<Recipe>, id: &str) -> (r: Option<&'a Recipe>)
    ensures
        match r {
            Some(recipe) => recipe_of(recipes@, id@) == Some(*recipe) && recipe.id@ == id@,
            None => recipe_of(recipes@, id@) is None,
        },
{
    let mut i: usize = 0;
    while i < recipes.len()
        invariant
            i <= recipes@.len(),
            recipe_index(recipes@, id@, 0) == recipe_index(recipes@, id@, i as int),
        decreases recipes@.len() - i,
    {
        if text::same(recipes[i].id.as_str(), id) {
            return Some(&recipes[i]);
        }
        i += 1;
    }
    None
}

/// The digest of a text, white space around it left out.
pub open spec fn trimmed_digest(material: Seq<char>) -> Seq<char> {
    outside::sha256_hex(vstd::utf8::encode_utf8(text::trim(material)))
}

/// The digest of a text, white space around it left out.
pub fn digest_trimmed(material: &str) -> (out: String)
    ensures
        out@ == trimmed_digest(material@),
        out@.len() == 64,
{
    let trimmed = text::trim_str(material);
    outside::sha256(trimmed.as_str().as_bytes())
}

/// A text that may be missing, as a value.
pub open spec fn opt_view(s: Option<String>) -> Option<Seq<char>> {
    match s {
        Some(s) => Some(s@),
        None => None,
    }
}

fn copy_opt(s: &Option<String>) -> (r: Option<String>)
    ensures
        opt_view(r) == opt_view(*s),
{
    match s {
        Some(t) => Some(t.as_str().to_owned()),
        None => None,
    }
}

/// The digest that recipes of one class share: only a recipe with a coverage
/// domain has one.
pub open spec fn class_digest(recipe: Recipe, world: ExactWorld) -> Seq<char> {
    if recipe.coverage_domain is Some && world.class_material is Some {
        "sha256-"@ + trimmed_digest(world.class_material->Some_0@)
    } else {
        Seq::empty()
    }
}

/// Whether a provenance describes this recipe in this world.
pub open spec fn provenance_is(
    p: VerificationRecipeProvenance,
    recipe: Recipe,
    world: ExactWorld,
) -> bool {
    &&& p.recipe_id@ == recipe.id@
    &&& p.recipe_revision@ == recipe.revision@
    &&& opt_view(p.coverage_domain) == opt_view(recipe.coverage_domain)
    &&& if recipe.coverage_domain is Some && world.declaration is Some {
        &&& p.domain_declaration_revision == Some(world.declaration->Some_0.0)
        &&& p.domain_source_digest@ == world.declaration->Some_0.1@
    } else {
        &&& p.domain_declaration_revision is None
        &&& p.domain_source_digest@.len() == 0
    }
    &&& p.class_identity_digest@ == class_digest(recipe, world)
}

/// Where a recipe runs.
pub open spec fn recipe_target(recipe: Recipe) -> Seq<char> {
    match recipe.cwd {
        Some(cwd) => view::shown_path(cwd@),
        None => "."@,
    }
}

/// Whether an attribution is the one of a verification. Without a recipe it
/// says nothing; a recipe that is not exact, or whose world cannot be
/// captured, verifies without an identity.
pub open spec fn verification_attribution(
    a: ToolExecutionAttribution,
    recipe: Option<Recipe>,
    world: Option<ExactWorld>,
) -> bool {
    match recipe {
        None => plain_attribution(
            a,
            ToolExecutionPurpose::Unattributed,
            Seq::empty(),
            VerificationReuse::Never,
        ),
        Some(recipe) => if recipe.reuse == VerificationReuse::ExactCurrentWorld && world is Some {
            &&& a.purpose == ToolExecutionPurpose::Verify
            &&& text::views(a.targets@) == seq![recipe_target(recipe)]
            &&& a.verification_reuse == recipe.reuse
            &&& a.verification_identity matches Some(id) && id@ == trimmed_digest(
                world->Some_0.material@,
            )
            &&& a.verification_recipe matches Some(p) && provenance_is(p, recipe, world->Some_0)
        } else {
            plain_attribution(
                a,
                ToolExecutionPurpose::Verify,
                seq![recipe_target(recipe)],
                recipe.reuse,
            )
        },
    }
}

/// The recipe that a call of the verifier names: white space around the id
/// does not count.
pub open spec fn called_recipe(recipes: Seq<Recipe>, recipe_id: Option<&str>) -> Option<Recipe> {
    match recipe_id {
        Some(id) => recipe_of(recipes, text::trim(id@)),
        None => None,
    }
}

fn provenance(recipe: &Recipe, world: &ExactWorld) -> (p: VerificationRecipeProvenance)
    ensures
        provenance_is(p, *recipe, *world),
{
    let in_domain = recipe.coverage_domain.is_some();
    let class_identity_digest = match &world.class_material {
        Some(material) => {
            if in_domain {
                let mut out = "sha256-".to_owned();
                out.append(digest_trimmed(material.as_str()).as_str());
                out
            } else {
                String::new()
            }
        },
        None => String::new(),
    };
    assert(class_identity_digest@ =~= class_digest(*recipe, *world));
    let (domain_declaration_revision, domain_source_digest) = match &world.declaration {
        Some((revision, digest)) => if in_domain {
            (Some(*revision), digest.as_str().to_owned())
        } else {
            (None, String::new())
        },
        None => (None, String::new()),
    };
    VerificationRecipeProvenance {
        recipe_id: recipe.id.as_str().to_owned(),
        recipe_revision: recipe.revision.as_str().to_owned(),
        coverage_domain: copy_opt(&recipe.coverage_domain),
        domain_declaration_revision,
        domain_source_digest,
        class_identity_digest,
    }
}

/// Attributes a call of the verifier. `recipe_id` is the call's recipe, as
/// far as it is a text; `world` is what the recipe's exact identity depends
/// on, where it could be captured.
pub fn attribute_verification(
    recipes: &Vec<Recipe>,
    recipe_id: Option<&str>,
    world: Option<&ExactWorld>,
) -> (a: ToolExecutionAttribution)
    ensures
        verification_attribution(
            a,
            called_recipe(recipes@, recipe_id),
            match world {
                Some(w) => Some(*w),
                None => None,
            },
        ),
{
    let found = match recipe_id {
        Some(id) => {
            let trimmed = text::trim_str(id);
            find_recipe(recipes, trimmed.as_str())
        },
        None => None,
    };
    let recipe = match found {
        Some(recipe) => recipe,
        None => {
            let targets: Vec<String> = Vec::new();
            assert(text::views(targets@) =~= Seq::empty());
            return ToolExecutionAttribution {
                purpose: ToolExecutionPurpose::Unattributed,
                targets,
                verification_reuse: VerificationReuse::Never,
                verification_identity: None,
                verification_recipe: None,
            };
        },
    };
    let target = match &recipe.cwd {
        Some(cwd) => view::forward_slashes(cwd.as_str()),
        None => ".".to_owned(),
    };
    let mut targets: Vec<String> = Vec::new();
    targets.push(target);
    assert(text::views(targets@) =~= seq![recipe_target(*recipe)]);
    let (verification_identity, verification_recipe) = match world {
        Some(w) => if recipe.reuse == VerificationReuse::ExactCurrentWorld {
            (Some(digest_trimmed(w.material.as_str())), Some(provenance(recipe, w)))
        } else {
            (None, None)
        },
        None => (None, None),
    };
    ToolExecutionAttribution {
        purpose: ToolExecutionPurpose::Verify,
        targets,
        verification_reuse: recipe.reuse,
        verification_identity,
        verification_recipe,
    }
}

/// What the attribution of a call goes by.
#[derive(Debug)]
pub struct CallFacts {
    pub name: String,
    /// The recipe that the call names, as far as it is a text.
    pub recipe_id: Option<String>,
    /// The path that the call names, as far as it is a text.
    pub path: Option<String>,
    /// The paths of the files that the call lists, as far as they are texts.
    pub file_paths: Vec<String>,
}

/// Whether an attribution is the one of this call. Only a recipe of the host
/// verifies, whatever a command may run.
pub open spec fn call_attribution(
    a: ToolExecutionAttribution,
    recipes: Seq<Recipe>,
    call: CallFacts,
    world: Option<ExactWorld>,
) -> bool {
    if call.name@ == registry::VERIFY_RUN_TOOL_NAME@ {
        verification_attribution(
            a,
            match call.recipe_id {
                Some(id) => recipe_of(recipes, text::trim(id@)),
                None => None,
            },
            world,
        )
    } else {
        plain_attribution(
            a,
            purpose(call.name@),
            shown_paths(
                named_paths(call.name@, opt_view(call.path), text::views(call.file_paths@)),
            ),
            VerificationReuse::Never,
        )
    }
}

/// Attributes a call. `world` is what the exact identity of the recipe that
/// the call names depends on, where it could be captured.
pub fn builtin_execution_attribution(
    recipes: &Vec<Recipe>,
    call: &CallFacts,
    world: Option<&ExactWorld>,
) -> (a: ToolExecutionAttribution)
    ensures
        call_attribution(
            a,
            recipes@,
            *call,
            match world {
                Some(w) => Some(*w),
                None => None,
            },
        ),
{
    if text::same(call.name.as_str(), registry::VERIFY_RUN_TOOL_NAME) {
        match &call.recipe_id {
            Some(id) => attribute_verification(recipes, Some(id.as_str()), world),
            None => attribute_verification(recipes, None, world),
        }
    } else {
        match &call.path {
            Some(path) => attribute_call(
                call.name.as_str(),
                Some(path.as_str()),
                &call.file_paths,
            ),
            None => attribute_call(call.name.as_str(), None, &call.file_paths),
        }
    }
}

/// Only a registered recipe verifies: a call is attributed to a verification
/// exactly where it calls the verifier with the id of a recipe, and only such
/// a call carries an identity. What a shell or a process runs stays opaque
/// and names no target.
pub proof fn law_only_a_recipe_verifies(
    a: ToolExecutionAttribution,
    recipes: Seq<Recipe>,
    call: CallFacts,
    world: Option<ExactWorld>,
)
    requires
        call_attribution(a, recipes, call, world),
    ensures
        a.purpose == ToolExecutionPurpose::Verify <==> call.name@ == registry::VERIFY_RUN_TOOL_NAME@
            && (call.recipe_id matches Some(id) && recipe_of(recipes, text::trim(id@)) is Some),
        a.verification_identity is Some ==> a.purpose == ToolExecutionPurpose::Verify,
        call.name@ == "shell.exec"@ || call.name@ == "process.run"@ || call.name@
            == "process.session"@ ==> a.purpose == ToolExecutionPurpose::Opaque && a.targets@.len()
            == 0,
{
    if call.name@ == "shell.exec"@ || call.name@ == "process.run"@ || call.name@
        == "process.session"@ {
        lemma_opaque_names_no_path(call.name@);
    }
    assert(text::views(a.targets@).len() == a.targets@.len());
}

proof fn lemma_opaque_names_no_path(name: Seq<char>)
    requires
        name == "shell.exec"@ || name == "process.run"@ || name == "process.session"@,
    ensures
        !names_a_path(name),
        name != "edit.patch"@,
        name != registry::VERIFY_RUN_TOOL_NAME@,
        purpose(name) == ToolExecutionPurpose::Opaque,
{
    reveal_strlit("shell.exec");
    reveal_strlit("process.run");
    reveal_strlit("process.session");
    reveal_strlit("fs.read");
    reveal_strlit("git.status");
    reveal_strlit("git.diff");
    reveal_strlit("artifact.read");
    reveal_strlit("fs.list");
    reveal_strlit("search.grep");
    reveal_strlit("code.symbols");
    reveal_strlit("code.diagnostics");
    reveal_strlit("fs.write");
    reveal_strlit("fs.mkdir");
    reveal_strlit("edit.replace");
    reveal_strlit("edit.patch");
    reveal_strlit("verify.run");
    assert(name.len() == 10 && name[0] == 's' || name.len() == 11 && name[0] == 'p' || name.len()
        == 15);
}

// ---------------------------------------------------------------------
// Proofs by the host
// ---------------------------------------------------------------------

/// The result of one verification that the host ran.
#[derive(Debug)]
pub struct RecipeProofRun {
    /// Whether the verification passed.
    pub ok: bool,
    pub summary: String,
    /// The identity of what was verified.
    pub verification_identity: String,
}

/// Why the host cannot prove anything by a recipe.
#[derive(Debug)]
pub enum ProofRefusal {
    UnknownRecipe(String),
    NotExact(String),
    NoIdentity(String),
    NoPolicy,
    NoValue,
}

/// The text of a refusal.
pub open spec fn proof_refusal_text(e: ProofRefusal) -> Seq<char> {
    match e {
        ProofRefusal::UnknownRecipe(id) => "unknown verification recipe '"@ + id@ + "'"@,
        ProofRefusal::NotExact(id) => "verification recipe '"@ + id@
            + "' is not an exact current-world recipe"@,
        ProofRefusal::NoIdentity(id) => "exact identity for verification recipe '"@ + id@
            + "' is not computable in this world; refusing host proof"@,
        ProofRefusal::NoPolicy => "verification recipes register no host policy"@,
        ProofRefusal::NoValue => "host verification returned a non-value outcome"@,
    }
}

impl ProofRefusal {
    /// The refusal in words.
    pub fn message(&self) -> (out: String)
        ensures
            out@ == proof_refusal_text(*self),
    {
        let mut out = String::new();
        match self {
            ProofRefusal::UnknownRecipe(id) => {
                out.append("unknown verification recipe '");
                out.append(id.as_str());
                out.append("'");
            },
            ProofRefusal::NotExact(id) => {
                out.append("verification recipe '");
                out.append(id.as_str());
                out.append("' is not an exact current-world recipe");
            },
            ProofRefusal::NoIdentity(id) => {
                out.append("exact identity for verification recipe '");
                out.append(id.as_str());
                out.append("' is not computable in this world; refusing host proof");
            },
            ProofRefusal::NoPolicy => {
                out.append("verification recipes register no host policy");
            },
            ProofRefusal::NoValue => {
                out.append("host verification returned a non-value outcome");
            },
        }
        assert(out@ =~= proof_refusal_text(*self));
        out
    }
}

/// The process that runs a recipe on the host's own authority, and the
/// identity of what it verifies.
#[derive(Debug)]
pub struct ProofInvocation {
    pub tool_name: String,
    pub call_id: String,
    pub recipe_id: String,
    pub argv: Vec<String>,
    pub cwd: Option<String>,
    pub env: Vec<(String, String)>,
    pub timeout_ms: u64,
    /// No approval is asked for: the host is the authority.
    pub host_trusted: bool,
    pub verification_identity: String,
}

/// The call id that the host's own verifications carry.
pub const HOST_PROOF_CALL_ID: &'static str = "host-proof";

/// Variables of an environment as values.
pub open spec fn env_views(env: Seq<(String, String)>) -> Seq<(Seq<char>, Seq<char>)> {
    Seq::new(env.len(), |i: int| (env[i].0@, env[i].1@))
}

/// Whether a process is the one that a recipe declares: the same program,
/// directory, environment and time limit.
pub open spec fn runs_recipe(p: ProofInvocation, recipe: Recipe) -> bool {
    &&& p.tool_name@ == registry::VERIFY_RUN_TOOL_NAME@
    &&& p.call_id@ == HOST_PROOF_CALL_ID@
    &&& p.recipe_id@ == recipe.id@
    &&& text::views(p.argv@) == text::views(recipe.argv@)
    &&& opt_view(p.cwd) == opt_view(recipe.cwd)
    &&& env_views(p.env@) == env_views(recipe.env@)
    &&& p.timeout_ms == recipe.timeout_ms
    &&& p.host_trusted
}

fn copy_list(list: &Vec<String>) -> (r: Vec<String>)
    ensures
        text::views(r@) == text::views(list@),
{
    let mut r: Vec<String> = Vec::new();
    let mut i: usize = 0;
    while i < list.len()
        invariant
            i <= list@.len(),
            r@.len() == i,
            forall|k: int| 0 <= k < i ==> (#[trigger] r@[k])@ == list@[k]@,
        decreases list@.len() - i,
    {
        r.push(list[i].as_str().to_owned());
        i += 1;
    }
    assert(text::views(r@) =~= text::views(list@));
    r
}

fn copy_env(env: &Vec<(String, String)>) -> (r: Vec<(String, String)>)
    ensures
        env_views(r@) == env_views(env@),
{
    let mut r: Vec<(String, String)> = Vec::new();
    let mut i: usize = 0;
    while i < env.len()
        invariant
            i <= env@.len(),
            r@.len() == i,
            forall|k: int|
                0 <= k < i ==> (#[trigger] r@[k]).0@ == env@[k].0@ && r@[k].1@ == env@[k].1@,
        decreases env@.len() - i,
    {
        let (key, value) = &env[i];
        r.push((key.as_str().to_owned(), value.as_str().to_owned()));
        i += 1;
    }
    assert(env_views(r@) =~= env_views(env@));
    r
}

/// The exact identity of a recipe in a world: none without the recipe, for a
/// recipe that is not exact, and in a world that cannot be captured.
pub open spec fn exact_identity_of(recipe: Option<Recipe>, world: Option<ExactWorld>) -> Option<
    Seq<char>,
> {
    if recipe is Some && recipe->Some_0.reuse == VerificationReuse::ExactCurrentWorld && world
        is Some {
        Some(trimmed_digest(world->Some_0.material@))
    } else {
        None
    }
}

/// What proves something by running a recipe: it exists only where the
/// recipes have a policy of the host.
pub struct RecipeProofRunner {
    pub recipes: Vec<Recipe>,
}

impl RecipeProofRunner {
    /// A runner for some recipes.
    pub fn new(recipes: Vec<Recipe>, has_policy: bool) -> (r: Option<RecipeProofRunner>)
        ensures
            match r {
                Some(runner) => has_policy && runner.recipes == recipes,
                None => !has_policy,
            },
    {
        if has_policy {
            Some(RecipeProofRunner { recipes })
        } else {
            None
        }
    }

    /// The exact identity of a recipe, without running it.
    pub fn exact_identity(&self, recipe_id: &str, world: Option<&ExactWorld>) -> (r: Option<String>)
        ensures
            opt_view(r) == exact_identity_of(
                recipe_of(self.recipes@, recipe_id@),
                match world {
                    Some(w) => Some(*w),
                    None => None,
                },
            ),
    {
        match find_recipe(&self.recipes, recipe_id) {
            Some(recipe) => match world {
                Some(w) => if recipe.reuse == VerificationReuse::ExactCurrentWorld {
                    Some(digest_trimmed(w.material.as_str()))
                } else {
                    None
                },
                None => None,
            },
            None => None,
        }
    }

    /// Decides whether the host may prove something by a recipe, which process
    /// it runs for that, and under which identity. White space around the id
    /// does not count.
    pub fn verify_exact(
        &self,
        recipe_id: &str,
        world: Option<&ExactWorld>,
        has_policy: bool,
    ) -> (r: Result<ProofInvocation, ProofRefusal>)
        ensures
            ({
                let id = text::trim(recipe_id@);
                let recipe = recipe_of(self.recipes@, id);
                match r {
                    Ok(invocation) => {
                        &&& has_policy
                        &&& exact_identity_of(
                            recipe,
                            match world {
                                Some(w) => Some(*w),
                                None => None,
                            },
                        ) == Some(invocation.verification_identity@)
                        &&& runs_recipe(invocation, recipe->Some_0)
                    },
                    Err(e) => if recipe is None {
                        e matches ProofRefusal::UnknownRecipe(n) && n@ == id
                    } else if recipe->Some_0.reuse != VerificationReuse::ExactCurrentWorld {
                        e matches ProofRefusal::NotExact(n) && n@ == id
                    } else if world is None {
                        e matches ProofRefusal::NoIdentity(n) && n@ == id
                    } else {
                        !has_policy && e == ProofRefusal::NoPolicy
                    },
                }
            }),
    {
        let id = text::trim_str(recipe_id);
        let recipe = match find_recipe(&self.recipes, id.as_str()) {
            Some(recipe) => recipe,
            None => {
                return Err(ProofRefusal::UnknownRecipe(id));
            },
        };
        if recipe.reuse != VerificationReuse::ExactCurrentWorld {
            return Err(ProofRefusal::NotExact(id));
        }
        let identity = match world {
            Some(w) => digest_trimmed(w.material.as_str()),
            None => {
                return Err(ProofRefusal::NoIdentity(id));
            },
        };
        if !has_policy {
            return Err(ProofRefusal::NoPolicy);
        }
        Ok(
            ProofInvocation {
                tool_name: registry::VERIFY_RUN_TOOL_NAME.to_owned(),
                call_id: HOST_PROOF_CALL_ID.to_owned(),
                recipe_id: id,
                argv: copy_list(&recipe.argv),
                cwd: copy_opt(&recipe.cwd),
                env: copy_env(&recipe.env),
                timeout_ms: recipe.timeout_ms,
                host_trusted: true,
                verification_identity: identity,
            },
        )
    }
}

/// Reports a run under the identity it was started with. A run without a
/// value proves nothing.
pub fn proof_run(outcome: Option<(bool, String)>, identity: String) -> (r: Result<
    RecipeProofRun,
    ProofRefusal,
>)
    ensures
        match outcome {
            Some((ok, summary)) => r matches Ok(run) && run.ok == ok && run.summary == summary
                && run.verification_identity == identity,
            None => r == Err::<RecipeProofRun, ProofRefusal>(ProofRefusal::NoValue),
        },
{
    match outcome {
        Some((ok, summary)) => Ok(RecipeProofRun { ok, summary, verification_identity: identity }),
        None => Err(ProofRefusal::NoValue),
    }
}

/// The host's proof and the attribution of a call agree: for the same recipe
/// in the same world they carry the same identity, or neither carries one.
pub proof fn law_proof_and_attribution_agree(
    a: ToolExecutionAttribution,
    recipe: Option<Recipe>,
    world: Option<ExactWorld>,
)
    requires
        verification_attribution(a, recipe, world),
    ensures
        opt_view(a.verification_identity) == exact_identity_of(recipe, world),
{
}

proof fn lemma_tool_names_differ()
    ensures
        "fs.read"@.len() == 7 && "fs.list"@.len() == 7 && "git.diff"@.len() == 8,
        "fs.write"@.len() == 8 && "fs.mkdir"@.len() == 8 && "git.status"@.len() == 10,
        "edit.patch"@.len() == 10 && "shell.exec"@.len() == 10 && "search.grep"@.len() == 11,
        "process.run"@.len() == 11 && "code.symbols"@.len() == 12 && "edit.replace"@.len() == 12,
        "artifact.read"@.len() == 13 && "task.complete"@.len() == 13 && "context.manage"@.len()
            == 14,
        "process.session"@.len() == 15 && "code.diagnostics"@.len() == 16,
        "capability.manage"@.len() == 17 && "verify.run"@.len() == 10,
        "fs.read"@[3] == 'r' && "fs.list"@[3] == 'l' && "fs.write"@[3] == 'w' && "fs.mkdir"@[3]
            == 'm',
        "git.diff"@[0] == 'g' && "git.status"@[0] == 'g' && "edit.patch"@[0] == 'e'
            && "shell.exec"@[0] == 's' && "verify.run"@[0] == 'v',
        "fs.write"@[0] == 'f' && "fs.mkdir"@[0] == 'f',
        "search.grep"@[0] == 's' && "process.run"@[0] == 'p' && "code.symbols"@[0] == 'c'
            && "edit.replace"@[0] == 'e' && "artifact.read"@[0] == 'a' && "task.complete"@[0] == 't',
{
    reveal_strlit("fs.read");
    reveal_strlit("fs.list");
    reveal_strlit("git.diff");
    reveal_strlit("fs.write");
    reveal_strlit("fs.mkdir");
    reveal_strlit("git.status");
    reveal_strlit("edit.patch");
    reveal_strlit("shell.exec");
    reveal_strlit("search.grep");
    reveal_strlit("process.run");
    reveal_strlit("code.symbols");
    reveal_strlit("edit.replace");
    reveal_strlit("artifact.read");
    reveal_strlit("task.complete");
    reveal_strlit("context.manage");
    reveal_strlit("process.session");
    reveal_strlit("code.diagnostics");
    reveal_strlit("capability.manage");
    reveal_strlit("verify.run");
}

/// What each tool is for. Nothing else is attributed to a purpose.
pub proof fn law_the_purpose_of_each_tool(name: Seq<char>)
    ensures
        purpose(name) == ToolExecutionPurpose::Observe <==> name == "fs.read"@ || name
            == "git.status"@ || name == "git.diff"@ || name == "artifact.read"@,
        purpose(name) == ToolExecutionPurpose::Search <==> name == "fs.list"@ || name
            == "search.grep"@ || name == "code.symbols"@ || name == "code.diagnostics"@,
        purpose(name) == ToolExecutionPurpose::Mutate <==> name == "fs.write"@ || name
            == "fs.mkdir"@ || name == "edit.replace"@ || name == "edit.patch"@,
        purpose(name) == ToolExecutionPurpose::Opaque <==> name == "shell.exec"@ || name
            == "process.run"@ || name == "process.session"@,
        purpose(name) == ToolExecutionPurpose::Control <==> name == "capability.manage"@ || name
            == "context.manage"@ || name == "task.complete"@,
        purpose(name) != ToolExecutionPurpose::Verify,
{
    lemma_tool_names_differ();
}

/// The places a call touches: the path it names, for the tools that take one;
/// the paths of its files, for a patch; none for any other.
pub proof fn law_a_call_touches_the_paths_it_names(
    name: Seq<char>,
    path: Seq<char>,
    file_paths: Seq<Seq<char>>,
)
    ensures
        named_paths("edit.patch"@, Some(path), file_paths) == file_paths,
        name == "fs.read"@ || name == "fs.list"@ || name == "search.grep"@ || name == "fs.write"@
            || name == "fs.mkdir"@ || name == "edit.replace"@ || name == "git.diff"@ || name
            == "code.symbols"@ || name == "code.diagnostics"@ ==> named_paths(
            name,
            Some(path),
            file_paths,
        ) == seq![path] && named_paths(name, None, file_paths).len() == 0,
        purpose(name) == ToolExecutionPurpose::Opaque || purpose(name)
            == ToolExecutionPurpose::Control ==> named_paths(name, Some(path), file_paths).len()
            == 0,
        forall|k: int|
            #![trigger shown_paths(file_paths)[k]]
            0 <= k < file_paths.len() ==> shown_paths(file_paths)[k] == view::shown_path(
                file_paths[k],
            ),
        shown_paths(file_paths).len() == file_paths.len(),
{
    lemma_tool_names_differ();
}

/// A recipe is the first of its name; where there is none of that name there
/// is no recipe. `i` is the first of that name.
pub proof fn law_a_recipe_is_the_first_of_its_name(recipes: Seq<Recipe>, id: Seq<char>, i: int)
    requires
        0 <= i <= recipes.len(),
        forall|k: int| 0 <= k < i ==> (#[trigger] recipes[k]).id@ != id,
        i < recipes.len() ==> recipes[i].id@ == id,
    ensures
        i < recipes.len() ==> recipe_of(recipes, id) == Some(recipes[i]),
        i == recipes.len() ==> recipe_of(recipes, id) is None,
{
    lemma_recipe_index_is(recipes, id, 0, i);
}

proof fn lemma_recipe_index_is(recipes: Seq<Recipe>, id: Seq<char>, from: int, i: int)
    requires
        0 <= from <= i <= recipes.len(),
        forall|k: int| from <= k < i ==> (#[trigger] recipes[k]).id@ != id,
        i < recipes.len() ==> recipes[i].id@ == id,
    ensures
        recipe_index(recipes, id, from) == if i < recipes.len() {
            i
        } else {
            -1
        },
    decreases i - from,
{
    if from < i {
        assert(recipes[from].id@ != id);
        lemma_recipe_index_is(recipes, id, from + 1, i);
    }
}

/// A verification is identified exactly where its recipe demands the exact
/// current world and that world is known; the identity is the digest of the
/// world's material without the white space around it, and the recipe's
/// provenance is recorded with it.
pub proof fn law_an_exact_verification_is_identified(
    a: ToolExecutionAttribution,
    recipe: Recipe,
    world: Option<ExactWorld>,
)
    requires
        verification_attribution(a, Some(recipe), world),
    ensures
        a.purpose == ToolExecutionPurpose::Verify,
        a.verification_reuse == recipe.reuse,
        a.targets@.len() == 1,
        recipe.cwd is None ==> a.targets@[0]@ == "."@,
        recipe.cwd matches Some(cwd) ==> a.targets@[0]@ == view::shown_path(cwd@),
        a.verification_identity is Some <==> recipe.reuse == VerificationReuse::ExactCurrentWorld
            && world is Some,
        a.verification_recipe is Some <==> a.verification_identity is Some,
        a.verification_identity matches Some(id) ==> id@ == outside::sha256_hex(
            vstd::utf8::encode_utf8(text::trim(world->0.material@)),
        ),
        a.verification_recipe matches Some(p) ==> {
            &&& p.recipe_id@ == recipe.id@
            &&& p.recipe_revision@ == recipe.revision@
            &&& p.coverage_domain is Some <==> recipe.coverage_domain is Some
            &&& recipe.coverage_domain is Some ==> p.coverage_domain->0@
                == recipe.coverage_domain->0@
            &&& p.domain_declaration_revision is Some <==> recipe.coverage_domain is Some
                && world->0.declaration is Some
            &&& p.domain_declaration_revision is Some ==> p.domain_declaration_revision->0
                == (world->0.declaration->0).0 && p.domain_source_digest@
                == (world->0.declaration->0).1@
            &&& recipe.coverage_domain is Some && world->0.class_material is Some
                ==> p.class_identity_digest@ == "sha256-"@ + outside::sha256_hex(
                vstd::utf8::encode_utf8(text::trim(world->0.class_material->0@)),
            )
            &&& recipe.coverage_domain is None || world->0.class_material is None
                ==> p.class_identity_digest@.len() == 0
        },
{
    assert(text::views(a.targets@).len() == 1);
    assert(text::views(a.targets@)[0] == recipe_target(recipe));
}

/// An unknown recipe verifies nothing.
pub proof fn law_an_unknown_recipe_verifies_nothing(
    a: ToolExecutionAttribution,
    world: Option<ExactWorld>,
)
    requires
        verification_attribution(a, None, world),
    ensures
        a.purpose == ToolExecutionPurpose::Unattributed,
        a.targets@.len() == 0,
        a.verification_reuse == VerificationReuse::Never,
        a.verification_identity is None && a.verification_recipe is None,
{
    assert(text::views(a.targets@).len() == a.targets@.len());
}

/// A proof runs the recipe as it stands: its arguments, its directory, its
/// environment and its time, under the host's own call.
pub proof fn law_a_proof_runs_the_recipe_as_it_stands(p: ProofInvocation, recipe: Recipe)
    requires
        runs_recipe(p, recipe),
    ensures
        p.tool_name@ == "verify.run"@,
        p.call_id@ == "host-proof"@,
        p.recipe_id@ == recipe.id@,
        p.argv@.len() == recipe.argv@.len(),
        forall|k: int| 0 <= k < p.argv@.len() ==> (#[trigger] p.argv@[k])@ == recipe.argv@[k]@,
        p.cwd is Some <==> recipe.cwd is Some,
        p.cwd matches Some(cwd) ==> cwd@ == recipe.cwd->0@,
        p.env@.len() == recipe.env@.len(),
        forall|k: int|
            0 <= k < p.env@.len() ==> (#[trigger] p.env@[k]).0@ == recipe.env@[k].0@
                && p.env@[k].1@ == recipe.env@[k].1@,
        p.timeout_ms == recipe.timeout_ms,
        p.host_trusted,
{
    assert(text::views(p.argv@).len() == text::views(recipe.argv@).len());
    assert(env_views(p.env@).len() == env_views(recipe.env@).len());
    assert forall|k: int| 0 <= k < p.argv@.len() implies (#[trigger] p.argv@[k])@
        == recipe.argv@[k]@ by {
        assert(text::views(p.argv@)[k] == text::views(recipe.argv@)[k]);
    }
    assert forall|k: int| 0 <= k < p.env@.len() implies (#[trigger] p.env@[k]).0@
        == recipe.env@[k].0@ && p.env@[k].1@ == recipe.env@[k].1@ by {
        assert(env_views(p.env@)[k] == env_views(recipe.env@)[k]);
    }
}

} // verus!
