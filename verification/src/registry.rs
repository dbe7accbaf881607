//! The catalog of builtin tools and its lifecycle.
//!
//! Every known tool is in the catalog; only the loaded ones are offered. Time
//! passes once per round, when the catalog is aged: tools that were not used
//! for a while cool down and leave, unless something holds them.
use crate::order;
use crate::text;
use vstd::prelude::*;

verus! {

/// The control tool of the catalog; it is always offered.
pub const CAPABILITY_MANAGE: &'static str = "capability.manage";

/// The tool that runs the host's verification recipes; it stays loaded.
pub const VERIFY_RUN_TOOL_NAME: &'static str = "verify.run";

/// Where a tool is in its lifecycle.
#[derive(Debug, Clone, Copy, PartialEq, Eq, Structural)]
pub enum ToolLifecycle {
    Available,
    Loaded,
    Active,
    Warm,
    Unloaded,
}

/// The name of a lifecycle state.
pub open spec fn lifecycle_name(state: ToolLifecycle) -> Seq<char> {
    match state {
        ToolLifecycle::Available => "available"@,
        ToolLifecycle::Loaded => "loaded"@,
        ToolLifecycle::Active => "active"@,
        ToolLifecycle::Warm => "warm"@,
        ToolLifecycle::Unloaded => "unloaded"@,
    }
}

/// Whether a tool in this state is offered.
pub open spec fn is_offered(state: ToolLifecycle) -> bool {
    state == ToolLifecycle::Loaded || state == ToolLifecycle::Active
}

impl ToolLifecycle {
    /// The name of the state.
    pub fn as_str(self) -> (r: &'static str)
        ensures
            r@ == lifecycle_name(self),
    {
        match self {
            ToolLifecycle::Available => "available",
            ToolLifecycle::Loaded => "loaded",
            ToolLifecycle::Active => "active",
            ToolLifecycle::Warm => "warm",
            ToolLifecycle::Unloaded => "unloaded",
        }
    }

    /// Whether a tool in this state is offered.
    pub fn in_surface(self) -> (r: bool)
        ensures
            r == is_offered(self),
    {
        self == ToolLifecycle::Loaded || self == ToolLifecycle::Active
    }
}

/// What a tool may do.
#[derive(Debug, Clone, Copy, PartialEq, Eq, Structural)]
pub enum ToolRisk {
    ReadOnly,
    WorkspaceWrite,
    ProcessExecution,
}

/// What a tool is good for.
#[derive(Debug, Clone, Copy, PartialEq, Eq, Structural)]
pub enum ToolSemanticRole {
    ReadResource,
    Search,
    InspectDiff,
    Verify,
    Mutate,
    EscapeHatch,
}

/// How the catalog ages.
#[derive(Debug, Clone)]
pub struct ToolLifecycleConfig {
    /// Tools that stay loaded for the whole run.
    pub always_loaded: Vec<String>,
    /// Rounds without use before a loaded tool may cool.
    pub idle_to_warm_ticks: usize,
    /// Rounds without use before a warm tool is unloaded.
    pub warm_to_unload_ticks: usize,
    /// The size of all loaded schemas, in bytes, up to which nothing cools.
    /// With 0 the size does not matter.
    pub surface_soft_high_bytes: usize,
    /// The size at which cooling stops again.
    pub surface_low_watermark_bytes: usize,
}

/// The tools that are loaded from the start, and stay.
pub open spec fn core_tools() -> Seq<Seq<char>> {
    seq![
        "fs.list"@,
        "fs.read"@,
        "search.grep"@,
        "artifact.read"@,
        "edit.patch"@,
        "fs.write"@,
        "git.status"@,
        "git.diff"@,
        "task.complete"@,
        CAPABILITY_MANAGE@,
    ]
}

impl Default for ToolLifecycleConfig {
    fn default() -> (c: ToolLifecycleConfig)
        ensures
            text::views(c.always_loaded@) == core_tools(),
            c.idle_to_warm_ticks == 8,
            c.warm_to_unload_ticks == 24,
            c.surface_soft_high_bytes == 18_000,
            c.surface_low_watermark_bytes == 9_000,
    {
        let mut always_loaded: Vec<String> = Vec::new();
        always_loaded.push("fs.list".to_owned());
        always_loaded.push("fs.read".to_owned());
        always_loaded.push("search.grep".to_owned());
        always_loaded.push("artifact.read".to_owned());
        always_loaded.push("edit.patch".to_owned());
        always_loaded.push("fs.write".to_owned());
        always_loaded.push("git.status".to_owned());
        always_loaded.push("git.diff".to_owned());
        always_loaded.push("task.complete".to_owned());
        always_loaded.push(CAPABILITY_MANAGE.to_owned());
        assert(text::views(always_loaded@) =~= core_tools());
        ToolLifecycleConfig {
            always_loaded,
            idle_to_warm_ticks: 8,
            warm_to_unload_ticks: 24,
            surface_soft_high_bytes: 18_000,
            surface_low_watermark_bytes: 9_000,
        }
    }
}

// ---------------------------------------------------------------------
// The catalog
// ---------------------------------------------------------------------

/// What the catalog has to know of a tool.
#[derive(Debug)]
pub struct ToolFacts {
    pub name: String,
    pub description: String,
    pub risk: ToolRisk,
    pub roles: Vec<ToolSemanticRole>,
    /// The size of the tool's schema, in bytes.
    pub schema_bytes: usize,
}

/// A tool and where it is in its lifecycle.
#[derive(Debug)]
pub struct ToolEntry {
    pub name: String,
    pub description: String,
    pub risk: ToolRisk,
    pub roles: Vec<ToolSemanticRole>,
    pub schema_bytes: usize,
    pub state: ToolLifecycle,
    pub last_used_tick: u64,
    /// Whether the host asked for the tool; this holds until it is unloaded.
    pub persistent_load: bool,
}

/// A tool in its lifecycle, as a value.
pub struct Entry {
    pub name: Seq<char>,
    pub description: Seq<char>,
    pub risk: ToolRisk,
    pub roles: Seq<ToolSemanticRole>,
    pub schema_bytes: nat,
    pub state: ToolLifecycle,
    pub last_used_tick: nat,
    pub persistent_load: bool,
}

impl View for ToolEntry {
    type V = Entry;

    open spec fn view(&self) -> Entry {
        Entry {
            name: self.name@,
            description: self.description@,
            risk: self.risk,
            roles: self.roles@,
            schema_bytes: self.schema_bytes as nat,
            state: self.state,
            last_used_tick: self.last_used_tick as nat,
            persistent_load: self.persistent_load,
        }
    }
}

/// A list of tools as values.
pub open spec fn entry_views(entries: Seq<ToolEntry>) -> Seq<Entry> {
    Seq::new(entries.len(), |i: int| entries[i]@)
}

/// Whether the tools stand in the order of their names, each name once.
pub open spec fn in_name_order(entries: Seq<Entry>) -> bool {
    forall|i: int, j: int|
        0 <= i < j < entries.len() ==> order::before(
            #[trigger] entries[i].name,
            #[trigger] entries[j].name,
        )
}

/// Where the tool of that name stands; -1 where there is none.
pub open spec fn position(entries: Seq<Entry>, name: Seq<char>) -> int
    decreases entries.len(),
{
    if entries.len() == 0 {
        -1
    } else if entries.last().name == name {
        entries.len() - 1
    } else {
        position(entries.drop_last(), name)
    }
}

/// The tool of that name.
pub open spec fn find(entries: Seq<Entry>, name: Seq<char>) -> Option<Entry> {
    if position(entries, name) < 0 {
        None
    } else {
        Some(entries[position(entries, name)])
    }
}

proof fn lemma_position(entries: Seq<Entry>, name: Seq<char>)
    ensures
        -1 <= position(entries, name) < entries.len(),
        position(entries, name) >= 0 ==> entries[position(entries, name)].name == name,
        position(entries, name) < 0 ==> forall|i: int|
            0 <= i < entries.len() ==> (#[trigger] entries[i]).name != name,
    decreases entries.len(),
{
    if entries.len() > 0 && entries.last().name != name {
        let rest = entries.drop_last();
        lemma_position(rest, name);
        if position(rest, name) < 0 {
            assert forall|i: int| 0 <= i < entries.len() implies (#[trigger] entries[i]).name
                != name by {
                if i < rest.len() {
                    assert(rest[i].name != name);
                }
            }
        }
    }
}

proof fn lemma_position_is(entries: Seq<Entry>, i: int)
    requires
        in_name_order(entries),
        0 <= i < entries.len(),
    ensures
        position(entries, entries[i].name) == i,
{
    let name = entries[i].name;
    lemma_position(entries, name);
    let p = position(entries, name);
    if p < i {
        if p >= 0 {
            assert(order::before(entries[p].name, entries[i].name));
            order::lemma_before_is_a_strict_order(name, name, name);
        }
    } else if p > i {
        assert(order::before(entries[i].name, entries[p].name));
        order::lemma_before_is_a_strict_order(name, name, name);
    }
}

/// The size of all schemas.
pub open spec fn total_bytes(entries: Seq<Entry>) -> nat
    decreases entries.len(),
{
    if entries.len() == 0 {
        0
    } else {
        total_bytes(entries.drop_last()) + entries.last().schema_bytes
    }
}

/// The size of the loaded schemas.
pub open spec fn loaded_bytes(entries: Seq<Entry>) -> nat
    decreases entries.len(),
{
    if entries.len() == 0 {
        0
    } else {
        loaded_bytes(entries.drop_last()) + if entries.last().state == ToolLifecycle::Loaded {
            entries.last().schema_bytes
        } else {
            0
        }
    }
}

proof fn lemma_loaded_bytes(entries: Seq<Entry>, n: int)
    requires
        0 <= n <= entries.len(),
    ensures
        loaded_bytes(entries.take(n)) <= loaded_bytes(entries) <= total_bytes(entries),
    decreases entries.len(),
{
    if n < entries.len() {
        assert(entries.drop_last().take(n) =~= entries.take(n));
        lemma_loaded_bytes(entries.drop_last(), n);
    } else {
        assert(entries.take(n) =~= entries);
        if entries.len() > 0 {
            lemma_loaded_bytes(entries.drop_last(), n - 1);
        }
    }
}

proof fn lemma_total_update(entries: Seq<Entry>, i: int, e: Entry)
    requires
        0 <= i < entries.len(),
    ensures
        total_bytes(entries.update(i, e)) == total_bytes(entries) - entries[i].schema_bytes
            + e.schema_bytes,
    decreases entries.len(),
{
    if i < entries.len() - 1 {
        assert(entries.update(i, e).drop_last() =~= entries.drop_last().update(i, e));
        lemma_total_update(entries.drop_last(), i, e);
    } else {
        assert(entries.update(i, e).drop_last() =~= entries.drop_last());
    }
}

proof fn lemma_total_insert(entries: Seq<Entry>, i: int, e: Entry)
    requires
        0 <= i <= entries.len(),
    ensures
        total_bytes(entries.insert(i, e)) == total_bytes(entries) + e.schema_bytes,
    decreases entries.len(),
{
    let more = entries.insert(i, e);
    if i < entries.len() {
        assert(more.drop_last() =~= entries.drop_last().insert(i, e));
        lemma_total_insert(entries.drop_last(), i, e);
    } else {
        assert(more.drop_last() =~= entries);
    }
}

/// A tool that stays loaded whatever happens.
pub open spec fn stays_loaded(core: Seq<Seq<char>>, name: Seq<char>) -> bool {
    name == VERIFY_RUN_TOOL_NAME@ || core.contains(name)
}

/// How a tool enters the catalog.
pub open spec fn fresh(core: Seq<Seq<char>>, tool: ToolFacts) -> Entry {
    Entry {
        name: tool.name@,
        description: tool.description@,
        risk: tool.risk,
        roles: tool.roles@,
        schema_bytes: tool.schema_bytes as nat,
        state: if stays_loaded(core, tool.name@) {
            ToolLifecycle::Loaded
        } else {
            ToolLifecycle::Available
        },
        last_used_tick: 0,
        persistent_load: false,
    }
}

/// The last tool of that name in a list.
pub open spec fn last_named(tools: Seq<ToolFacts>, name: Seq<char>) -> Option<ToolFacts>
    decreases tools.len(),
{
    if tools.len() == 0 {
        None
    } else if tools.last().name@ == name {
        Some(tools.last())
    } else {
        last_named(tools.drop_last(), name)
    }
}

/// The size of the schemas of a list of tools.
pub open spec fn facts_bytes(tools: Seq<ToolFacts>) -> nat
    decreases tools.len(),
{
    if tools.len() == 0 {
        0
    } else {
        facts_bytes(tools.drop_last()) + tools.last().schema_bytes as nat
    }
}

/// Whether a list holds a name.
pub fn has_name(list: &[String], name: &str) -> (r: bool)
    ensures
        r == text::views(list@).contains(name@),
{
    let mut i: usize = 0;
    let n: usize = list.len();
    while i < n
        invariant
            n == list@.len(),
            i <= n,
            forall|k: int| 0 <= k < i ==> text::views(list@)[k] != name@,
        decreases n - i,
    {
        if text::same(list[i].as_str(), name) {
            assert(text::views(list@)[i as int] == name@);
            return true;
        }
        i += 1;
    }
    false
}

fn copy_roles(roles: &Vec<ToolSemanticRole>) -> (r: Vec<ToolSemanticRole>)
    ensures
        r@ == roles@,
{
    let mut out: Vec<ToolSemanticRole> = Vec::new();
    let mut i: usize = 0;
    while i < roles.len()
        invariant
            i <= roles@.len(),
            out@ == roles@.take(i as int),
        decreases roles@.len() - i,
    {
        out.push(roles[i]);
        assert(roles@.take(i + 1) =~= roles@.take(i as int).push(roles@[i as int]));
        i += 1;
    }
    assert(roles@.take(i as int) =~= roles@);
    out
}

/// Why a request to the catalog failed.
#[derive(Debug)]
pub enum CatalogError {
    UnknownTool(String),
    CoreTool(String),
    NeedsEffectContext(String),
    TakesNoEffectContext(String),
}

/// The text of a failure.
pub open spec fn catalog_error_text(e: CatalogError) -> Seq<char> {
    match e {
        CatalogError::UnknownTool(name) => "unknown tool: "@ + name@ + " (see capability.search)"@,
        CatalogError::CoreTool(name) => "core tool '"@ + name@ + "' cannot be unloaded"@,
        CatalogError::NeedsEffectContext(name) => "tool '"@ + name@
            + "' requires a Core-issued effect context"@,
        CatalogError::TakesNoEffectContext(name) => "tool '"@ + name@
            + "' must not receive a Core-issued effect context"@,
    }
}

impl CatalogError {
    /// The failure in words.
    pub fn message(&self) -> (out: String)
        ensures
            out@ == catalog_error_text(*self),
    {
        let mut out = String::new();
        match self {
            CatalogError::UnknownTool(name) => {
                out.append("unknown tool: ");
                out.append(name.as_str());
                out.append(" (see capability.search)");
            },
            CatalogError::CoreTool(name) => {
                out.append("core tool '");
                out.append(name.as_str());
                out.append("' cannot be unloaded");
            },
            CatalogError::NeedsEffectContext(name) => {
                out.append("tool '");
                out.append(name.as_str());
                out.append("' requires a Core-issued effect context");
            },
            CatalogError::TakesNoEffectContext(name) => {
                out.append("tool '");
                out.append(name.as_str());
                out.append("' must not receive a Core-issued effect context");
            },
        }
        assert(out@ =~= catalog_error_text(*self));
        out
    }
}

/// The catalog of builtin tools.
#[derive(Debug)]
pub struct BuiltinToolDispatcher {
    pub entries: Vec<ToolEntry>,
    pub config: ToolLifecycleConfig,
    /// How often the catalog was aged.
    pub tick: u64,
    /// Changes with every change of what is offered.
    pub generation: u64,
}

impl BuiltinToolDispatcher {
    /// The tools as values.
    pub open spec fn tools(&self) -> Seq<Entry> {
        entry_views(self.entries@)
    }

    /// The tools and the generation they belong to.
    pub open spec fn revision(&self) -> Revision {
        Revision { tools: self.tools(), generation: self.generation }
    }

    /// The names of the tools that stay loaded.
    pub open spec fn core_names(&self) -> Seq<Seq<char>> {
        text::views(self.config.always_loaded@)
    }

    /// The tools stand in the order of their names, each once, and the size
    /// of all schemas can be counted.
    pub open spec fn wf(&self) -> bool {
        &&& in_name_order(self.tools())
        &&& total_bytes(self.tools()) <= usize::MAX
    }

    /// A catalog of these tools that ages as usual.
    pub fn new(tools: Vec<ToolFacts>) -> (d: Self)
        requires
            facts_bytes(tools@) <= usize::MAX,
        ensures
            d.wf(),
            d.core_names() == core_tools(),
            d.config.idle_to_warm_ticks == 8,
            d.config.warm_to_unload_ticks == 24,
            d.config.surface_soft_high_bytes == 18_000,
            d.config.surface_low_watermark_bytes == 9_000,
            d.tick == 0,
            d.generation == 0,
            forall|name: Seq<char>|
                #[trigger] find(d.tools(), name) == match last_named(tools@, name) {
                    Some(tool) => Some(fresh(core_tools(), tool)),
                    None => None,
                },
    {
        Self::with_config(ToolLifecycleConfig::default(), tools)
    }

    /// A catalog of these tools. Where a name occurs twice, the last one
    /// counts.
    pub fn with_config(config: ToolLifecycleConfig, tools: Vec<ToolFacts>) -> (d: Self)
        requires
            facts_bytes(tools@) <= usize::MAX,
        ensures
            d.wf(),
            d.config == config,
            d.tick == 0,
            d.generation == 0,
            forall|name: Seq<char>|
                #[trigger] find(d.tools(), name) == match last_named(tools@, name) {
                    Some(tool) => Some(fresh(text::views(config.always_loaded@), tool)),
                    None => None,
                },
    {
        let ghost core = text::views(config.always_loaded@);
        let mut d = BuiltinToolDispatcher { entries: Vec::new(), config, tick: 0, generation: 0 };
        let mut i: usize = 0;
        assert(tools@.take(0) =~= Seq::empty());
        while i < tools.len()
            invariant
                i <= tools@.len(),
                facts_bytes(tools@) <= usize::MAX,
                in_name_order(d.tools()),
                total_bytes(d.tools()) <= facts_bytes(tools@.take(i as int)),
                d.config == config,
                core == text::views(config.always_loaded@),
                d.tick == 0,
                d.generation == 0,
                forall|name: Seq<char>|
                    #[trigger] find(d.tools(), name) == match last_named(
                        tools@.take(i as int),
                        name,
                    ) {
                        Some(tool) => Some(fresh(core, tool)),
                        None => None,
                    },
            decreases tools@.len() - i,
        {
            let tool = &tools[i];
            let state = if d.is_core(tool.name.as_str()) {
                ToolLifecycle::Loaded
            } else {
                ToolLifecycle::Available
            };
            let entry = ToolEntry {
                name: tool.name.as_str().to_owned(),
                description: tool.description.as_str().to_owned(),
                risk: tool.risk,
                roles: copy_roles(&tool.roles),
                schema_bytes: tool.schema_bytes,
                state,
                last_used_tick: 0,
                persistent_load: false,
            };
            proof {
                assert(entry@ == fresh(core, tools@[i as int]));
                assert(tools@.take(i + 1).drop_last() =~= tools@.take(i as int));
                assert(tools@.take(i + 1).last() == tools@[i as int]);
            }
            let ghost before = d.tools();
            d.put(entry);
            proof {
                assert forall|name: Seq<char>|
                    #[trigger] find(d.tools(), name) == match last_named(
                        tools@.take(i + 1),
                        name,
                    ) {
                        Some(tool) => Some(fresh(core, tool)),
                        None => None,
                    } by {
                    assert(find(before, name) == match last_named(tools@.take(i as int), name) {
                        Some(tool) => Some(fresh(core, tool)),
                        None => None,
                    });
                }
            }
            i += 1;
        }
        proof {
            assert(tools@.take(i as int) =~= tools@);
        }
        d
    }

    /// Puts a tool where its name belongs, in place of one of that name.
    fn put(&mut self, entry: ToolEntry)
        requires
            in_name_order(old(self).tools()),
        ensures
            in_name_order(final(self).tools()),
            total_bytes(final(self).tools()) <= total_bytes(old(self).tools())
                + entry@.schema_bytes,
            final(self).config == old(self).config,
            final(self).tick == old(self).tick,
            final(self).generation == old(self).generation,
            forall|name: Seq<char>|
                #[trigger] find(final(self).tools(), name) == if name == entry@.name {
                    Some(entry@)
                } else {
                    find(old(self).tools(), name)
                },
    {
        let ghost old_tools = self.tools();
        let ghost e = entry@;
        match self.index_of(entry.name.as_str()) {
            Some(at) => {
                self.entries.set(at, entry);
                proof {
                    let new_tools = self.tools();
                    assert(new_tools =~= old_tools.update(at as int, e));
                    lemma_total_update(old_tools, at as int, e);
                    lemma_position(old_tools, e.name);
                    lemma_found_after_update(old_tools, at as int, e);
                }
            },
            None => {
                let mut at: usize = self.entries.len();
                while at > 0 && order::comes_before(
                    entry.name.as_str(),
                    self.entries[at - 1].name.as_str(),
                )
                    invariant
                        at <= self.entries@.len(),
                        self.tools() == old_tools,
                        self.config == old(self).config,
                        self.tick == old(self).tick,
                        self.generation == old(self).generation,
                        forall|k: int|
                            at <= k < old_tools.len() ==> order::before(
                                entry.name@,
                                (#[trigger] old_tools[k]).name,
                            ),
                    decreases at,
                {
                    assert(self.tools()[at - 1] == self.entries@[at - 1]@);
                    at = at - 1;
                }
                proof {
                    if at > 0 {
                        assert(self.tools()[at - 1] == self.entries@[at - 1]@);
                    }
                }
                self.entries.insert(at, entry);
                proof {
                    assert(self.tools() =~= old_tools.insert(at as int, e));
                    lemma_total_insert(old_tools, at as int, e);
                    lemma_position(old_tools, e.name);
                    lemma_found_after_insert(old_tools, at as int, e);
                }
            },
        }
    }

    /// Where the tool of that name stands.
    fn index_of(&self, name: &str) -> (r: Option<usize>)
        ensures
            match r {
                Some(i) => i == position(self.tools(), name@) && i < self.entries@.len(),
                None => position(self.tools(), name@) < 0,
            },
    {
        let ghost all = self.tools();
        let mut i: usize = self.entries.len();
        assert(all.take(i as int) =~= all);
        while i > 0
            invariant
                i <= self.entries@.len(),
                all == self.tools(),
                position(all, name@) == position(all.take(i as int), name@),
            decreases i,
        {
            assert(all.take(i as int).last() == self.entries@[i - 1]@);
            if text::same(self.entries[i - 1].name.as_str(), name) {
                return Some(i - 1);
            }
            assert(all.take(i as int).drop_last() =~= all.take(i - 1));
            i = i - 1;
        }
        None
    }

    /// Whether a tool stays loaded whatever happens.
    fn is_core(&self, name: &str) -> (r: bool)
        ensures
            r == stays_loaded(self.core_names(), name@),
    {
        text::same(name, VERIFY_RUN_TOOL_NAME) || has_name(
            self.config.always_loaded.as_slice(),
            name,
        )
    }
}

proof fn lemma_found_after_update(entries: Seq<Entry>, at: int, e: Entry)
    requires
        in_name_order(entries),
        0 <= at < entries.len(),
        entries[at].name == e.name,
    ensures
        in_name_order(entries.update(at, e)),
        forall|name: Seq<char>|
            #[trigger] find(entries.update(at, e), name) == if name == e.name {
                Some(e)
            } else {
                find(entries, name)
            },
{
    let new = entries.update(at, e);
    assert forall|i: int, j: int| 0 <= i < j < new.len() implies order::before(
        #[trigger] new[i].name,
        #[trigger] new[j].name,
    ) by {
        assert(new[i].name == entries[i].name);
        assert(new[j].name == entries[j].name);
    }
    assert forall|name: Seq<char>|
        #[trigger] find(new, name) == if name == e.name {
            Some(e)
        } else {
            find(entries, name)
        } by {
        lemma_position(new, name);
        lemma_position(entries, name);
        if name == e.name {
            assert(new[at].name == name);
            lemma_position_is(new, at);
        } else if position(entries, name) >= 0 {
            let p = position(entries, name);
            assert(new[p] == entries[p]);
            lemma_position_is(new, p);
        } else if position(new, name) >= 0 {
            let p = position(new, name);
            assert(entries[p].name == new[p].name);
        }
    }
}

proof fn lemma_found_after_insert(entries: Seq<Entry>, at: int, e: Entry)
    requires
        in_name_order(entries),
        0 <= at <= entries.len(),
        position(entries, e.name) < 0,
        forall|k: int| at <= k < entries.len() ==> order::before(e.name, (#[trigger] entries[k]).name),
        at > 0 ==> !order::before(e.name, entries[at - 1].name),
    ensures
        in_name_order(entries.insert(at, e)),
        forall|name: Seq<char>|
            #[trigger] find(entries.insert(at, e), name) == if name == e.name {
                Some(e)
            } else {
                find(entries, name)
            },
{
    let new = entries.insert(at, e);
    lemma_position(entries, e.name);
    assert forall|k: int| 0 <= k < at implies order::before((#[trigger] entries[k]).name, e.name) by {
        let last = entries[at - 1].name;
        assert(last != e.name);
        order::lemma_before_is_a_strict_order(last, e.name, last);
        if k < at - 1 {
            assert(order::before(entries[k].name, entries[at - 1].name));
            order::lemma_before_is_a_strict_order(entries[k].name, last, e.name);
        }
    }
    assert forall|i: int, j: int| 0 <= i < j < new.len() implies order::before(
        #[trigger] new[i].name,
        #[trigger] new[j].name,
    ) by {
        if i < at && j > at {
            assert(order::before(entries[i].name, entries[j - 1].name));
        } else if i > at {
            assert(order::before(entries[i - 1].name, entries[j - 1].name));
        } else if i == at {
            assert(order::before(e.name, entries[j - 1].name));
        } else if j == at {
            assert(order::before(entries[i].name, e.name));
        } else {
            assert(order::before(entries[i].name, entries[j].name));
        }
    }
    assert forall|name: Seq<char>|
        #[trigger] find(new, name) == if name == e.name {
            Some(e)
        } else {
            find(entries, name)
        } by {
        lemma_position(new, name);
        lemma_position(entries, name);
        if name == e.name {
            assert(new[at].name == name);
            lemma_position_is(new, at);
        } else if position(entries, name) >= 0 {
            let p = position(entries, name);
            let q = if p < at {
                p
            } else {
                p + 1
            };
            assert(new[q] == entries[p]);
            lemma_position_is(new, q);
        } else if position(new, name) >= 0 {
            let p = position(new, name);
            let q = if p < at {
                p
            } else {
                p - 1
            };
            assert(entries[q].name == new[p].name);
        }
    }
}

// ---------------------------------------------------------------------
// Loading and unloading
// ---------------------------------------------------------------------

/// A tool that the host asked for.
pub open spec fn loaded_by_host(e: Entry, tick: nat) -> Entry {
    Entry { state: ToolLifecycle::Loaded, last_used_tick: tick, persistent_load: true, ..e }
}

/// A tool that was lent to a task; what the host asked for stays asked for.
pub open spec fn loaded_for_lease(e: Entry, tick: nat) -> Entry {
    Entry { state: ToolLifecycle::Loaded, last_used_tick: tick, ..e }
}

/// A tool that was taken away.
pub open spec fn taken_away(e: Entry) -> Entry {
    Entry { state: ToolLifecycle::Unloaded, persistent_load: false, ..e }
}

/// A tool that runs.
pub open spec fn in_use(e: Entry, tick: nat) -> Entry {
    Entry { state: ToolLifecycle::Active, last_used_tick: tick, ..e }
}

/// A tool after it ran.
pub open spec fn used(e: Entry) -> Entry {
    if e.state == ToolLifecycle::Active {
        Entry { state: ToolLifecycle::Loaded, ..e }
    } else {
        e
    }
}

/// The next generation.
pub open spec fn next_generation(generation: u64) -> u64 {
    if generation == u64::MAX {
        0
    } else {
        (generation + 1) as u64
    }
}

/// The clock one round later. A full clock starts anew.
pub open spec fn next_tick(tick: u64) -> u64 {
    if tick == u64::MAX {
        0
    } else {
        (tick + 1) as u64
    }
}

/// Whether two lists of tools differ at most in where the tools are in their
/// lifecycle.
pub open spec fn same_tools(a: Seq<Entry>, b: Seq<Entry>) -> bool {
    &&& a.len() == b.len()
    &&& forall|i: int|
        0 <= i < a.len() ==> (#[trigger] a[i]).name == b[i].name && a[i].schema_bytes
            == b[i].schema_bytes
}

proof fn lemma_same_tools(a: Seq<Entry>, b: Seq<Entry>)
    requires
        same_tools(a, b),
    ensures
        in_name_order(a) ==> in_name_order(b),
        total_bytes(a) == total_bytes(b),
    decreases a.len(),
{
    if in_name_order(a) {
        assert forall|i: int, j: int| 0 <= i < j < b.len() implies order::before(
            #[trigger] b[i].name,
            #[trigger] b[j].name,
        ) by {
            assert(a[i].name == b[i].name && a[j].name == b[j].name);
        }
    }
    if a.len() > 0 {
        let n = a.len() - 1;
        assert(a[n].schema_bytes == b[n].schema_bytes);
        assert forall|i: int| 0 <= i < n implies (#[trigger] a.drop_last()[i]).name
            == b.drop_last()[i].name && a.drop_last()[i].schema_bytes
            == b.drop_last()[i].schema_bytes by {
            assert(a[i].name == b[i].name);
        }
        lemma_same_tools(a.drop_last(), b.drop_last());
    }
}

impl BuiltinToolDispatcher {
    fn bump(&mut self)
        ensures
            final(self).generation == next_generation(old(self).generation),
            final(self).entries == old(self).entries,
            final(self).config == old(self).config,
            final(self).tick == old(self).tick,
    {
        self.generation = if self.generation == u64::MAX {
            0
        } else {
            self.generation + 1
        };
    }

    /// Loads a tool for the host. It stays until it is unloaded.
    pub fn load(&mut self, name: &str) -> (r: Result<(), CatalogError>)
        requires
            old(self).wf(),
        ensures
            final(self).wf(),
            final(self).config == old(self).config,
            final(self).tick == old(self).tick,
            follows(old(self).revision(), final(self).revision()),
            match r {
                Ok(_) => {
                    let p = position(old(self).tools(), name@);
                    &&& p >= 0
                    &&& final(self).tools() == old(self).tools().update(
                        p,
                        loaded_by_host(old(self).tools()[p], old(self).tick as nat),
                    )
                    &&& final(self).generation == next_generation(old(self).generation)
                },
                Err(e) => {
                    &&& position(old(self).tools(), name@) < 0
                    &&& e matches CatalogError::UnknownTool(n) && n@ == name@
                    &&& *final(self) == *old(self)
                },
            },
    {
        let ghost before = self.tools();
        match self.index_of(name) {
            Some(i) => {
                self.entries[i].state = ToolLifecycle::Loaded;
                self.entries[i].last_used_tick = self.tick;
                self.entries[i].persistent_load = true;
                proof {
                    let after = loaded_by_host(before[i as int], self.tick as nat);
                    assert(self.tools() =~= before.update(i as int, after));
                    lemma_same_tools(before, self.tools());
                }
                self.bump();
                Ok(())
            },
            None => Err(CatalogError::UnknownTool(name.to_owned())),
        }
    }

    /// Loads a tool for a task. When no task holds it any more, it is
    /// released.
    pub fn load_for_lease(&mut self, name: &str) -> (r: Result<(), CatalogError>)
        requires
            old(self).wf(),
        ensures
            final(self).wf(),
            final(self).config == old(self).config,
            final(self).tick == old(self).tick,
            follows(old(self).revision(), final(self).revision()),
            match r {
                Ok(_) => {
                    let p = position(old(self).tools(), name@);
                    &&& p >= 0
                    &&& final(self).tools() == old(self).tools().update(
                        p,
                        loaded_for_lease(old(self).tools()[p], old(self).tick as nat),
                    )
                    &&& final(self).generation == next_generation(old(self).generation)
                },
                Err(e) => {
                    &&& position(old(self).tools(), name@) < 0
                    &&& e matches CatalogError::UnknownTool(n) && n@ == name@
                    &&& *final(self) == *old(self)
                },
            },
    {
        let ghost before = self.tools();
        match self.index_of(name) {
            Some(i) => {
                self.entries[i].state = ToolLifecycle::Loaded;
                self.entries[i].last_used_tick = self.tick;
                proof {
                    let after = loaded_for_lease(before[i as int], self.tick as nat);
                    assert(self.tools() =~= before.update(i as int, after));
                    lemma_same_tools(before, self.tools());
                }
                self.bump();
                Ok(())
            },
            None => Err(CatalogError::UnknownTool(name.to_owned())),
        }
    }

    /// Takes a tool away. Core tools stay.
    pub fn unload(&mut self, name: &str) -> (r: Result<(), CatalogError>)
        requires
            old(self).wf(),
        ensures
            final(self).wf(),
            final(self).config == old(self).config,
            final(self).tick == old(self).tick,
            follows(old(self).revision(), final(self).revision()),
            match r {
                Ok(_) => {
                    let p = position(old(self).tools(), name@);
                    &&& !stays_loaded(old(self).core_names(), name@)
                    &&& p >= 0
                    &&& final(self).tools() == old(self).tools().update(
                        p,
                        taken_away(old(self).tools()[p]),
                    )
                    &&& final(self).generation == next_generation(old(self).generation)
                },
                Err(e) => {
                    &&& *final(self) == *old(self)
                    &&& if stays_loaded(old(self).core_names(), name@) {
                        e matches CatalogError::CoreTool(n) && n@ == name@
                    } else {
                        &&& position(old(self).tools(), name@) < 0
                        &&& e matches CatalogError::UnknownTool(n) && n@ == name@
                    }
                },
            },
    {
        if self.is_core(name) {
            return Err(CatalogError::CoreTool(name.to_owned()));
        }
        let ghost before = self.tools();
        match self.index_of(name) {
            Some(i) => {
                self.entries[i].state = ToolLifecycle::Unloaded;
                self.entries[i].persistent_load = false;
                proof {
                    let after = taken_away(before[i as int]);
                    assert(self.tools() =~= before.update(i as int, after));
                    lemma_same_tools(before, self.tools());
                }
                self.bump();
                Ok(())
            },
            None => Err(CatalogError::UnknownTool(name.to_owned())),
        }
    }

    /// Starts a run of a tool. A tool that changes something needs an effect
    /// context, any other must not have one.
    pub fn begin(&mut self, name: &str, has_effect_context: bool) -> (r: Result<(), CatalogError>)
        requires
            old(self).wf(),
        ensures
            final(self).wf(),
            final(self).config == old(self).config,
            final(self).tick == old(self).tick,
            follows(old(self).revision(), final(self).revision()),
            match r {
                Ok(_) => {
                    let p = position(old(self).tools(), name@);
                    &&& p >= 0
                    &&& (old(self).tools()[p].risk != ToolRisk::ReadOnly) == has_effect_context
                    &&& final(self).tools() == old(self).tools().update(
                        p,
                        in_use(old(self).tools()[p], old(self).tick as nat),
                    )
                    &&& final(self).generation == if is_offered(old(self).tools()[p].state) {
                        old(self).generation
                    } else {
                        next_generation(old(self).generation)
                    }
                },
                Err(e) => {
                    let p = position(old(self).tools(), name@);
                    &&& *final(self) == *old(self)
                    &&& if p < 0 {
                        e matches CatalogError::UnknownTool(n) && n@ == name@
                    } else if old(self).tools()[p].risk != ToolRisk::ReadOnly {
                        &&& !has_effect_context
                        &&& e matches CatalogError::NeedsEffectContext(n) && n@ == name@
                    } else {
                        &&& has_effect_context
                        &&& e matches CatalogError::TakesNoEffectContext(n) && n@ == name@
                    }
                },
            },
    {
        let ghost before = self.tools();
        match self.index_of(name) {
            Some(i) => {
                let effectful = self.entries[i].risk != ToolRisk::ReadOnly;
                if effectful != has_effect_context {
                    return Err(
                        if effectful {
                            CatalogError::NeedsEffectContext(name.to_owned())
                        } else {
                            CatalogError::TakesNoEffectContext(name.to_owned())
                        },
                    );
                }
                let offered_before = self.entries[i].state.in_surface();
                self.entries[i].state = ToolLifecycle::Active;
                self.entries[i].last_used_tick = self.tick;
                proof {
                    let after = in_use(before[i as int], self.tick as nat);
                    assert(self.tools() =~= before.update(i as int, after));
                    lemma_same_tools(before, self.tools());
                    if offered_before {
                        lemma_same_offer(before, self.tools());
                    }
                }
                if !offered_before {
                    self.bump();
                }
                Ok(())
            },
            None => Err(CatalogError::UnknownTool(name.to_owned())),
        }
    }

    /// Ends a run of a tool: it is loaded again, unless it was moved on
    /// meanwhile.
    pub fn end(&mut self, name: &str)
        requires
            old(self).wf(),
        ensures
            final(self).wf(),
            final(self).config == old(self).config,
            final(self).tick == old(self).tick,
            final(self).generation == old(self).generation,
            follows(old(self).revision(), final(self).revision()),
            final(self).tools() == {
                let p = position(old(self).tools(), name@);
                if p < 0 {
                    old(self).tools()
                } else {
                    old(self).tools().update(p, used(old(self).tools()[p]))
                }
            },
    {
        let ghost before = self.tools();
        match self.index_of(name) {
            Some(i) => {
                if self.entries[i].state == ToolLifecycle::Active {
                    self.entries[i].state = ToolLifecycle::Loaded;
                }
                proof {
                    assert(self.tools() =~= before.update(i as int, used(before[i as int])));
                    lemma_same_tools(before, self.tools());
                    lemma_same_offer(before, self.tools());
                }
            },
            None => {},
        }
    }
}

// ---------------------------------------------------------------------
// What is offered
// ---------------------------------------------------------------------

/// The names of the tools that are offered, without the control tool.
pub open spec fn offered(entries: Seq<Entry>) -> Seq<Seq<char>>
    decreases entries.len(),
{
    if entries.len() == 0 {
        Seq::empty()
    } else {
        let rest = offered(entries.drop_last());
        if is_offered(entries.last().state) {
            rest.push(entries.last().name)
        } else {
            rest
        }
    }
}

/// Whether a list holds what is offered and the control tool, in the order of
/// the names.
pub open spec fn is_surface(names: Seq<Seq<char>>, entries: Seq<Entry>) -> bool {
    &&& order::is_sorted(names)
    &&& names.to_multiset() == offered(entries).push(CAPABILITY_MANAGE@).to_multiset()
}

/// The tools of a catalog at one moment, and the generation they belong to.
pub ghost struct Revision {
    pub tools: Seq<Entry>,
    pub generation: u64,
}

/// Whether one revision can come right behind another: the same is offered
/// under the same generation, or the generation is the next one.
pub open spec fn follows(a: Revision, b: Revision) -> bool {
    ||| b.generation == a.generation && offered(b.tools) == offered(a.tools)
    ||| b.generation == next_generation(a.generation)
}

/// Whether each revision of a list follows the one before it.
pub open spec fn is_history(history: Seq<Revision>) -> bool {
    forall|i: int, j: int|
        0 <= i && j == i + 1 && j < history.len() ==> follows(
            #[trigger] history[i],
            #[trigger] history[j],
        )
}

proof fn lemma_same_offer(a: Seq<Entry>, b: Seq<Entry>)
    requires
        a.len() == b.len(),
        forall|i: int|
            0 <= i < a.len() ==> (#[trigger] a[i]).name == b[i].name && is_offered(a[i].state)
                == is_offered(b[i].state),
    ensures
        offered(a) == offered(b),
    decreases a.len(),
{
    if a.len() > 0 {
        lemma_same_offer(a.drop_last(), b.drop_last());
    }
}

/// What is offered in one round.
#[derive(Debug)]
pub struct ToolSurfaceSnapshot {
    /// The names of the tools, in order.
    pub names: Vec<String>,
    /// The generation of the catalog they were taken from.
    pub generation: u64,
}

/// One row of the catalog.
#[derive(Debug)]
pub struct ToolCatalogEntry {
    pub name: String,
    pub state: ToolLifecycle,
    pub owner: String,
    pub description: String,
    pub risk: ToolRisk,
    pub roles: Vec<ToolSemanticRole>,
}

impl BuiltinToolDispatcher {
    /// The tools of this round, with the control tool, in the order of their
    /// names, and the generation they belong to.
    pub fn surface(&self) -> (r: ToolSurfaceSnapshot)
        ensures
            is_surface(text::views(r.names@), self.tools()),
            r.generation == self.generation,
    {
        let ghost all = self.tools();
        let mut names: Vec<String> = Vec::new();
        let mut i: usize = 0;
        assert(all.take(0) =~= Seq::empty());
        assert(text::views(names@) =~= Seq::empty());
        while i < self.entries.len()
            invariant
                all == self.tools(),
                i <= self.entries@.len(),
                text::views(names@) == offered(all.take(i as int)),
            decreases self.entries@.len() - i,
        {
            proof {
                assert(all.take(i + 1).drop_last() =~= all.take(i as int));
                assert(all.take(i + 1).last() == self.entries@[i as int]@);
            }
            if self.entries[i].state.in_surface() {
                let name = self.entries[i].name.as_str().to_owned();
                proof {
                    text::lemma_views_push(names@, name);
                }
                names.push(name);
            }
            i += 1;
        }
        assert(all.take(i as int) =~= all);
        let manage = CAPABILITY_MANAGE.to_owned();
        proof {
            text::lemma_views_push(names@, manage);
        }
        names.push(manage);
        ToolSurfaceSnapshot { names: order::sort(names), generation: self.generation }
    }

    /// The whole catalog, in the order of the names.
    pub fn catalog(&self) -> (rows: Vec<ToolCatalogEntry>)
        ensures
            rows@.len() == self.tools().len(),
            forall|i: int|
                0 <= i < rows@.len() ==> {
                    let row = #[trigger] rows@[i];
                    let e = self.tools()[i];
                    &&& row.name@ == e.name
                    &&& row.state == e.state
                    &&& row.owner@ == "builtin"@
                    &&& row.description@ == e.description
                    &&& row.risk == e.risk
                    &&& row.roles@ == e.roles
                },
    {
        let mut rows: Vec<ToolCatalogEntry> = Vec::new();
        let mut i: usize = 0;
        while i < self.entries.len()
            invariant
                i <= self.entries@.len(),
                rows@.len() == i,
                forall|k: int|
                    0 <= k < rows@.len() ==> {
                        let row = #[trigger] rows@[k];
                        let e = self.tools()[k];
                        &&& row.name@ == e.name
                        &&& row.state == e.state
                        &&& row.owner@ == "builtin"@
                        &&& row.description@ == e.description
                        &&& row.risk == e.risk
                        &&& row.roles@ == e.roles
                    },
            decreases self.entries@.len() - i,
        {
            let entry = &self.entries[i];
            rows.push(
                ToolCatalogEntry {
                    name: entry.name.as_str().to_owned(),
                    state: entry.state,
                    owner: "builtin".to_owned(),
                    description: entry.description.as_str().to_owned(),
                    risk: entry.risk,
                    roles: copy_roles(&entry.roles),
                },
            );
            i += 1;
        }
        rows
    }

    /// The size of all loaded schemas.
    pub fn loaded_surface_bytes(&self) -> (n: usize)
        requires
            self.wf(),
        ensures
            n == loaded_bytes(self.tools()),
    {
        let ghost all = self.tools();
        let mut n: usize = 0;
        let mut i: usize = 0;
        assert(all.take(0) =~= Seq::empty());
        while i < self.entries.len()
            invariant
                self.wf(),
                all == self.tools(),
                i <= self.entries@.len(),
                n == loaded_bytes(all.take(i as int)),
            decreases self.entries@.len() - i,
        {
            proof {
                assert(all.take(i + 1).drop_last() =~= all.take(i as int));
                assert(all.take(i + 1).last() == self.entries@[i as int]@);
                lemma_loaded_bytes(all, i + 1);
            }
            if self.entries[i].state == ToolLifecycle::Loaded {
                n = n + self.entries[i].schema_bytes;
            }
            i += 1;
        }
        assert(all.take(i as int) =~= all);
        n
    }

    /// The tool of that name.
    pub fn inspect_tool(&self, name: &str) -> (r: Option<&ToolEntry>)
        ensures
            match r {
                Some(e) => find(self.tools(), name@) == Some(e@),
                None => find(self.tools(), name@) is None,
            },
    {
        match self.index_of(name) {
            Some(i) => Some(&self.entries[i]),
            None => None,
        }
    }

    /// Whether a round may do without a tool: only where it is known, is no
    /// core tool and not the control tool.
    pub fn may_omit_from_round(&self, name: &str) -> (r: bool)
        ensures
            r == (name@ != CAPABILITY_MANAGE@ && position(self.tools(), name@) >= 0
                && !stays_loaded(self.core_names(), name@)),
    {
        if text::same(name, CAPABILITY_MANAGE) {
            return false;
        }
        self.index_of(name).is_some() && !self.is_core(name)
    }
}

// ---------------------------------------------------------------------
// Leases
// ---------------------------------------------------------------------

/// What a reconciliation of leases does about a tool.
pub enum LeaseFate {
    /// It is not loaded, or stays loaded anyway.
    NotExamined,
    /// The host asked for it.
    Persistent,
    /// A task holds it.
    Rooted,
    /// Nothing holds it.
    Released,
}

/// What a reconciliation of leases does about a tool.
pub open spec fn lease_fate(kept: Seq<Seq<char>>, roots: Seq<Seq<char>>, e: Entry) -> LeaseFate {
    if e.state != ToolLifecycle::Loaded || stays_loaded(kept, e.name) {
        LeaseFate::NotExamined
    } else if e.persistent_load {
        LeaseFate::Persistent
    } else if roots.contains(e.name) {
        LeaseFate::Rooted
    } else {
        LeaseFate::Released
    }
}

/// A tool that has cooled.
pub open spec fn cooled(e: Entry) -> Entry {
    Entry { state: ToolLifecycle::Warm, ..e }
}

/// The tools after a reconciliation.
pub open spec fn without_leases(
    kept: Seq<Seq<char>>,
    roots: Seq<Seq<char>>,
    entries: Seq<Entry>,
) -> Seq<Entry> {
    Seq::new(
        entries.len(),
        |i: int|
            if lease_fate(kept, roots, entries[i]) is Released {
                cooled(entries[i])
            } else {
                entries[i]
            },
    )
}

/// How many tools have that fate.
pub open spec fn fate_count(
    kept: Seq<Seq<char>>,
    roots: Seq<Seq<char>>,
    entries: Seq<Entry>,
    fate: LeaseFate,
) -> nat
    decreases entries.len(),
{
    if entries.len() == 0 {
        0
    } else {
        fate_count(kept, roots, entries.drop_last(), fate) + if lease_fate(
            kept,
            roots,
            entries.last(),
        ) == fate {
            1nat
        } else {
            0
        }
    }
}

/// The names of the tools that are released.
pub open spec fn released_names(
    kept: Seq<Seq<char>>,
    roots: Seq<Seq<char>>,
    entries: Seq<Entry>,
) -> Seq<Seq<char>>
    decreases entries.len(),
{
    if entries.len() == 0 {
        Seq::empty()
    } else {
        let rest = released_names(kept, roots, entries.drop_last());
        if lease_fate(kept, roots, entries.last()) is Released {
            rest.push(entries.last().name)
        } else {
            rest
        }
    }
}

/// What a reconciliation of leases did.
#[derive(Debug)]
pub struct ToolLeaseReconcileReport {
    pub examined_loaded_optional: usize,
    pub retained_by_root: usize,
    pub retained_by_persistent_source: usize,
    pub released_to_warm: usize,
    pub released_tools: Vec<String>,
}

impl ToolLeaseReconcileReport {
    /// Whether the report counts the fates of these tools.
    pub open spec fn counts(
        &self,
        kept: Seq<Seq<char>>,
        roots: Seq<Seq<char>>,
        entries: Seq<Entry>,
    ) -> bool {
        &&& self.retained_by_root == fate_count(kept, roots, entries, LeaseFate::Rooted)
        &&& self.retained_by_persistent_source == fate_count(
            kept,
            roots,
            entries,
            LeaseFate::Persistent,
        )
        &&& self.released_to_warm == fate_count(kept, roots, entries, LeaseFate::Released)
        &&& self.examined_loaded_optional == self.retained_by_root
            + self.retained_by_persistent_source + self.released_to_warm
        &&& text::views(self.released_tools@) == released_names(kept, roots, entries)
    }
}

proof fn lemma_fates_bound(kept: Seq<Seq<char>>, roots: Seq<Seq<char>>, entries: Seq<Entry>)
    ensures
        fate_count(kept, roots, entries, LeaseFate::Rooted) + fate_count(
            kept,
            roots,
            entries,
            LeaseFate::Persistent,
        ) + fate_count(kept, roots, entries, LeaseFate::Released) <= entries.len(),
    decreases entries.len(),
{
    if entries.len() > 0 {
        lemma_fates_bound(kept, roots, entries.drop_last());
    }
}

proof fn lemma_nothing_released(kept: Seq<Seq<char>>, roots: Seq<Seq<char>>, entries: Seq<Entry>)
    requires
        fate_count(kept, roots, entries, LeaseFate::Released) == 0,
    ensures
        without_leases(kept, roots, entries) == entries,
    decreases entries.len(),
{
    if entries.len() > 0 {
        let rest = entries.drop_last();
        lemma_nothing_released(kept, roots, rest);
        let after = without_leases(kept, roots, entries);
        assert forall|k: int| 0 <= k < entries.len() implies after[k] == entries[k] by {
            if k < rest.len() {
                assert(without_leases(kept, roots, rest)[k] == rest[k]);
            }
        }
        assert(after =~= entries);
    } else {
        assert(without_leases(kept, roots, entries) =~= entries);
    }
}

impl BuiltinToolDispatcher {
    /// Releases every optional tool that is loaded and that neither a task
    /// nor the host holds. No time passes, and sizes play no part.
    pub fn reconcile_leases(&mut self, roots: &[String]) -> (report: ToolLeaseReconcileReport)
        requires
            old(self).wf(),
        ensures
            final(self).wf(),
            final(self).config == old(self).config,
            final(self).tick == old(self).tick,
            follows(old(self).revision(), final(self).revision()),
            final(self).tools() == without_leases(
                old(self).core_names(),
                text::views(roots@),
                old(self).tools(),
            ),
            report.counts(old(self).core_names(), text::views(roots@), old(self).tools()),
            final(self).generation == if report.released_to_warm > 0 {
                next_generation(old(self).generation)
            } else {
                old(self).generation
            },
    {
        let ghost kept = self.core_names();
        let ghost held = text::views(roots@);
        let ghost before = self.tools();
        let ghost after = without_leases(kept, held, before);
        let mut report = ToolLeaseReconcileReport {
            examined_loaded_optional: 0,
            retained_by_root: 0,
            retained_by_persistent_source: 0,
            released_to_warm: 0,
            released_tools: Vec::new(),
        };
        let n: usize = self.entries.len();
        let mut i: usize = 0;
        proof {
            assert(before.take(0) =~= Seq::empty());
            assert(text::views(report.released_tools@) =~= Seq::empty());
            assert(self.tools() =~= after.take(0) + before.skip(0));
        }
        while i < n
            invariant
                n == before.len(),
                n == self.entries@.len(),
                i <= n,
                kept == self.core_names(),
                held == text::views(roots@),
                after == without_leases(kept, held, before),
                self.tools() == after.take(i as int) + before.skip(i as int),
                report.counts(kept, held, before.take(i as int)),
                self.config == old(self).config,
                self.tick == old(self).tick,
                self.generation == old(self).generation,
            decreases n - i,
        {
            proof {
                assert(before.take(i + 1).drop_last() =~= before.take(i as int));
                assert(before.take(i + 1).last() == before[i as int]);
                assert(self.tools()[i as int] == before[i as int]);
                assert(self.entries@[i as int]@ == before[i as int]);
                lemma_fates_bound(kept, held, before.take(i as int));
            }
            let ghost now = self.entries@;
            if self.entries[i].state == ToolLifecycle::Loaded && !self.is_core(
                self.entries[i].name.as_str(),
            ) {
                report.examined_loaded_optional = report.examined_loaded_optional + 1;
                if self.entries[i].persistent_load {
                    report.retained_by_persistent_source = report.retained_by_persistent_source + 1;
                } else if has_name(roots, self.entries[i].name.as_str()) {
                    report.retained_by_root = report.retained_by_root + 1;
                } else {
                    let name = self.entries[i].name.as_str().to_owned();
                    self.entries[i].state = ToolLifecycle::Warm;
                    report.released_to_warm = report.released_to_warm + 1;
                    proof {
                        text::lemma_views_push(report.released_tools@, name);
                    }
                    report.released_tools.push(name);
                }
            }
            proof {
                assert(self.entries@[i as int]@ == after[i as int]);
                assert forall|k: int| 0 <= k < n && k != i implies self.entries@[k] == now[k] by {}
                assert(entry_views(now) =~= after.take(i as int) + before.skip(i as int));
                assert forall|k: int| 0 <= k < n implies #[trigger] self.tools()[k] == (
                after.take(i + 1) + before.skip(i + 1))[k] by {
                    if k != i {
                        assert(self.tools()[k] == entry_views(now)[k]);
                    }
                }
                assert(self.tools() =~= after.take(i + 1) + before.skip(i + 1));
            }
            i += 1;
        }
        proof {
            assert(before.take(i as int) =~= before);
            assert(self.tools() =~= after);
            lemma_same_tools(before, after);
            if report.released_to_warm == 0 {
                lemma_nothing_released(kept, held, before);
            }
        }
        if report.released_to_warm > 0 {
            self.bump();
        }
        report
    }
}

// ---------------------------------------------------------------------
// Aging
// ---------------------------------------------------------------------

/// What one round of aging goes by.
pub struct Round {
    /// The tools that stay loaded.
    pub kept: Seq<Seq<char>>,
    /// The tools that tasks hold.
    pub roots: Seq<Seq<char>>,
    pub tick: nat,
    pub idle_to_warm: nat,
    pub warm_to_unload: nat,
    pub high: nat,
    pub low: nat,
}

/// For how many rounds a tool was not used.
pub open spec fn idle(e: Entry, tick: nat) -> nat {
    if tick >= e.last_used_tick {
        (tick - e.last_used_tick) as nat
    } else {
        0
    }
}

/// Whether something holds a tool, so that it does not age.
pub open spec fn is_held(e: Entry, r: Round) -> bool {
    stays_loaded(r.kept, e.name) || e.persistent_load || r.roots.contains(e.name)
}

/// Whether a tool may cool.
pub open spec fn may_cool(e: Entry, r: Round) -> bool {
    !is_held(e, r) && e.state == ToolLifecycle::Loaded && idle(e, r.tick) >= r.idle_to_warm
}

/// The tool that cools next: of those that may, the one that was idle for the
/// longest, and of several such the first by name. -1 where none may.
pub open spec fn oldest(entries: Seq<Entry>, r: Round) -> int
    decreases entries.len(),
{
    if entries.len() == 0 {
        -1
    } else {
        let b = oldest(entries.drop_last(), r);
        if may_cool(entries.last(), r) && (b < 0 || idle(entries.last(), r.tick) > idle(
            entries[b],
            r.tick,
        )) {
            entries.len() - 1
        } else {
            b
        }
    }
}

/// How many tools are loaded.
pub open spec fn loaded_count(entries: Seq<Entry>) -> nat
    decreases entries.len(),
{
    if entries.len() == 0 {
        0
    } else {
        loaded_count(entries.drop_last()) + if entries.last().state == ToolLifecycle::Loaded {
            1nat
        } else {
            0
        }
    }
}

/// What is left of a size.
pub open spec fn less(pressure: nat, bytes: nat) -> nat {
    if pressure >= bytes {
        (pressure - bytes) as nat
    } else {
        0
    }
}

/// The tools after cooling, one after another, until the size has come down
/// to the low mark or no further tool may cool.
pub open spec fn cool(entries: Seq<Entry>, pressure: nat, r: Round) -> Seq<Entry>
    decreases loaded_count(entries),
    via cool_decreases
{
    if pressure <= r.low || oldest(entries, r) < 0 {
        entries
    } else {
        let i = oldest(entries, r);
        cool(entries.update(i, cooled(entries[i])), less(pressure, entries[i].schema_bytes), r)
    }
}

#[via_fn]
proof fn cool_decreases(entries: Seq<Entry>, pressure: nat, r: Round) {
    lemma_oldest(entries, r);
    if oldest(entries, r) >= 0 {
        lemma_cool_one(entries, oldest(entries, r));
    }
}

proof fn lemma_oldest(entries: Seq<Entry>, r: Round)
    ensures
        -1 <= oldest(entries, r) < entries.len(),
        oldest(entries, r) >= 0 ==> may_cool(entries[oldest(entries, r)], r),
        forall|j: int|
            0 <= j < entries.len() && may_cool(#[trigger] entries[j], r) ==> oldest(entries, r) >= 0
                && (idle(entries[oldest(entries, r)], r.tick) > idle(entries[j], r.tick) || (idle(
                entries[oldest(entries, r)],
                r.tick,
            ) == idle(entries[j], r.tick) && oldest(entries, r) <= j)),
    decreases entries.len(),
{
    if entries.len() > 0 {
        let rest = entries.drop_last();
        lemma_oldest(rest, r);
        assert forall|j: int|
            0 <= j < entries.len() && may_cool(#[trigger] entries[j], r) implies oldest(entries, r)
            >= 0 && (idle(entries[oldest(entries, r)], r.tick) > idle(entries[j], r.tick) || (idle(
            entries[oldest(entries, r)],
            r.tick,
        ) == idle(entries[j], r.tick) && oldest(entries, r) <= j)) by {
            if j < rest.len() {
                assert(may_cool(rest[j], r));
            }
        }
    }
}

proof fn lemma_cool_one(entries: Seq<Entry>, i: int)
    requires
        0 <= i < entries.len(),
        entries[i].state == ToolLifecycle::Loaded,
    ensures
        loaded_count(entries.update(i, cooled(entries[i]))) == loaded_count(entries) - 1,
        loaded_bytes(entries.update(i, cooled(entries[i]))) == loaded_bytes(entries)
            - entries[i].schema_bytes,
        same_tools(entries, entries.update(i, cooled(entries[i]))),
    decreases entries.len(),
{
    let after = entries.update(i, cooled(entries[i]));
    if i < entries.len() - 1 {
        assert(after.drop_last() =~= entries.drop_last().update(i, cooled(entries[i])));
        lemma_cool_one(entries.drop_last(), i);
    } else {
        assert(after.drop_last() =~= entries.drop_last());
    }
}

/// A tool that is not used leaves.
pub open spec fn unloaded_if_idle(e: Entry, r: Round) -> Entry {
    if !is_held(e, r) && e.state == ToolLifecycle::Warm && idle(e, r.tick) >= r.warm_to_unload {
        Entry { state: ToolLifecycle::Unloaded, ..e }
    } else {
        e
    }
}

/// The tools after those that are not used have left.
pub open spec fn unloaded_idle(entries: Seq<Entry>, r: Round) -> Seq<Entry> {
    Seq::new(entries.len(), |i: int| unloaded_if_idle(entries[i], r))
}

/// The size that cooling starts from. Without a high mark any size is too
/// large.
pub open spec fn pressure(entries: Seq<Entry>, r: Round) -> nat {
    if r.high > 0 {
        loaded_bytes(entries)
    } else {
        usize::MAX as nat
    }
}

/// The tools after the cooling of a round.
pub open spec fn after_cooling(entries: Seq<Entry>, r: Round) -> Seq<Entry> {
    if pressure(entries, r) > r.high {
        cool(entries, pressure(entries, r), r)
    } else {
        entries
    }
}

/// The tools after one round.
pub open spec fn aged(entries: Seq<Entry>, r: Round) -> Seq<Entry> {
    unloaded_idle(after_cooling(entries, r), r)
}

impl BuiltinToolDispatcher {
    /// What the next round of aging goes by.
    pub open spec fn next_round(&self, roots: Seq<Seq<char>>) -> Round {
        Round {
            kept: self.core_names(),
            roots,
            tick: next_tick(self.tick) as nat,
            idle_to_warm: self.config.idle_to_warm_ticks as nat,
            warm_to_unload: self.config.warm_to_unload_ticks as nat,
            high: self.config.surface_soft_high_bytes as nat,
            low: self.config.surface_low_watermark_bytes as nat,
        }
    }

    /// What this round of aging goes by.
    pub open spec fn this_round(&self, roots: Seq<Seq<char>>) -> Round {
        Round { tick: self.tick as nat, ..self.next_round(roots) }
    }

    fn is_held_at(&self, i: usize, roots: &[String]) -> (r: bool)
        requires
            i < self.entries@.len(),
        ensures
            r == is_held(self.tools()[i as int], self.this_round(text::views(roots@))),
    {
        self.is_core(self.entries[i].name.as_str()) || self.entries[i].persistent_load || has_name(
            roots,
            self.entries[i].name.as_str(),
        )
    }

    fn idle_at(&self, i: usize) -> (n: u64)
        requires
            i < self.entries@.len(),
        ensures
            n == idle(self.tools()[i as int], self.tick as nat),
    {
        if self.tick >= self.entries[i].last_used_tick {
            self.tick - self.entries[i].last_used_tick
        } else {
            0
        }
    }

    fn oldest_index(&self, roots: &[String]) -> (r: Option<usize>)
        ensures
            match r {
                Some(i) => i == oldest(self.tools(), self.this_round(text::views(roots@))),
                None => oldest(self.tools(), self.this_round(text::views(roots@))) < 0,
            },
    {
        let ghost all = self.tools();
        let ghost round = self.this_round(text::views(roots@));
        let mut best: Option<usize> = None;
        let mut i: usize = 0;
        assert(all.take(0) =~= Seq::empty());
        while i < self.entries.len()
            invariant
                all == self.tools(),
                round == self.this_round(text::views(roots@)),
                i <= self.entries@.len(),
                match best {
                    Some(b) => b < i && b == oldest(all.take(i as int), round),
                    None => oldest(all.take(i as int), round) < 0,
                },
            decreases self.entries@.len() - i,
        {
            proof {
                assert(all.take(i + 1).drop_last() =~= all.take(i as int));
                assert(all.take(i + 1).last() == all[i as int]);
                assert(all[i as int] == self.entries@[i as int]@);
            }
            let idle_now: u64 = self.idle_at(i);
            if self.entries[i].state == ToolLifecycle::Loaded && idle_now
                >= self.config.idle_to_warm_ticks as u64 && !self.is_held_at(i, roots) {
                let longer = match best {
                    Some(b) => idle_now > self.idle_at(b),
                    None => true,
                };
                if longer {
                    best = Some(i);
                }
            }
            i += 1;
        }
        assert(all.take(i as int) =~= all);
        best
    }

    /// One round passes. When the loaded schemas are too large, tools that
    /// nothing holds and that were idle for long enough cool, the longest
    /// idle first, until the size has come down; and warm tools that nobody
    /// used leave.
    pub fn gc(&mut self, roots: &[String])
        requires
            old(self).wf(),
        ensures
            final(self).wf(),
            final(self).config == old(self).config,
            final(self).tick == next_tick(old(self).tick),
            follows(old(self).revision(), final(self).revision()),
            final(self).tools() == aged(
                old(self).tools(),
                old(self).next_round(text::views(roots@)),
            ),
            final(self).generation == if final(self).tools() == old(self).tools() {
                old(self).generation
            } else {
                next_generation(old(self).generation)
            },
    {
        let ghost held = text::views(roots@);
        let ghost before = self.tools();
        let ghost round = self.next_round(held);
        self.tick = if self.tick == u64::MAX {
            0
        } else {
            self.tick + 1
        };
        assert(self.this_round(held) == round);
        let mut changed = self.cool_down(roots);
        if self.unload_idle(roots) {
            changed = true;
        }
        proof {
            lemma_cooling_shape(before, round);
            let mid = after_cooling(before, round);
            let end = self.tools();
            assert(end == unloaded_idle(mid, round));
            if end == before {
                assert forall|k: int| 0 <= k < before.len() implies mid[k] == before[k] by {
                    assert(end[k] == unloaded_if_idle(mid[k], round));
                }
                assert(mid =~= before);
            }
        }
        if changed {
            self.bump();
        }
    }

    fn cool_down(&mut self, roots: &[String]) -> (changed: bool)
        requires
            old(self).wf(),
        ensures
            final(self).wf(),
            final(self).config == old(self).config,
            final(self).tick == old(self).tick,
            final(self).generation == old(self).generation,
            final(self).tools() == after_cooling(
                old(self).tools(),
                old(self).this_round(text::views(roots@)),
            ),
            changed == (final(self).tools() != old(self).tools()),
    {
        let ghost before = self.tools();
        let ghost round = self.this_round(text::views(roots@));
        let mut changed = false;
        let mut left: usize = if self.config.surface_soft_high_bytes > 0 {
            self.loaded_surface_bytes()
        } else {
            usize::MAX
        };
        if left <= self.config.surface_soft_high_bytes {
            return false;
        }
        let mut more = true;
        let ghost mut witness: int = -1;
        while more && left > self.config.surface_low_watermark_bytes
            invariant
                self.wf(),
                self.config == old(self).config,
                self.tick == old(self).tick,
                self.generation == old(self).generation,
                round == self.this_round(text::views(roots@)),
                round == old(self).this_round(text::views(roots@)),
                before == old(self).tools(),
                before.len() == self.tools().len(),
                cool(self.tools(), left as nat, round) == cool(
                    before,
                    pressure(before, round),
                    round,
                ),
                !more ==> oldest(self.tools(), round) < 0,
                forall|k: int|
                    0 <= k < before.len() ==> (#[trigger] self.tools()[k] == before[k] || (
                    self.tools()[k] == cooled(before[k]) && before[k].state
                        == ToolLifecycle::Loaded)),
                changed ==> 0 <= witness < before.len() && self.tools()[witness].state
                    == ToolLifecycle::Warm && before[witness].state == ToolLifecycle::Loaded,
                !changed ==> self.tools() == before,
            decreases loaded_count(self.tools()), (if more { 1int } else { 0int }),
        {
            let ghost now = self.tools();
            proof {
                lemma_oldest(now, round);
            }
            match self.oldest_index(roots) {
                Some(i) => {
                    let bytes: usize = self.entries[i].schema_bytes;
                    self.entries[i].state = ToolLifecycle::Warm;
                    proof {
                        assert(now[i as int].state == ToolLifecycle::Loaded);
                        assert(self.tools() =~= now.update(i as int, cooled(now[i as int])));
                        lemma_cool_one(now, i as int);
                        lemma_same_tools(now, self.tools());
                        assert(now[i as int] == before[i as int]);
                        witness = i as int;
                    }
                    left = if left >= bytes {
                        left - bytes
                    } else {
                        0
                    };
                    changed = true;
                },
                None => {
                    more = false;
                },
            }
        }
        changed
    }

    fn unload_idle(&mut self, roots: &[String]) -> (changed: bool)
        requires
            old(self).wf(),
        ensures
            final(self).wf(),
            final(self).config == old(self).config,
            final(self).tick == old(self).tick,
            final(self).generation == old(self).generation,
            final(self).tools() == unloaded_idle(
                old(self).tools(),
                old(self).this_round(text::views(roots@)),
            ),
            changed == (final(self).tools() != old(self).tools()),
    {
        let ghost before = self.tools();
        let ghost round = self.this_round(text::views(roots@));
        let ghost after = unloaded_idle(before, round);
        let n: usize = self.entries.len();
        let mut changed = false;
        let mut i: usize = 0;
        let ghost mut witness: int = -1;
        assert(self.tools() =~= after.take(0) + before.skip(0));
        while i < n
            invariant
                n == before.len(),
                n == self.entries@.len(),
                i <= n,
                self.config == old(self).config,
                self.tick == old(self).tick,
                self.generation == old(self).generation,
                round == self.this_round(text::views(roots@)),
                after == unloaded_idle(before, round),
                self.tools() == after.take(i as int) + before.skip(i as int),
                changed ==> 0 <= witness < i && after[witness] != before[witness],
                !changed ==> after.take(i as int) == before.take(i as int),
            decreases n - i,
        {
            let ghost now = self.entries@;
            proof {
                assert(self.tools()[i as int] == before[i as int]);
                assert(self.entries@[i as int]@ == before[i as int]);
            }
            if self.entries[i].state == ToolLifecycle::Warm && self.idle_at(i)
                >= self.config.warm_to_unload_ticks as u64 && !self.is_held_at(i, roots) {
                self.entries[i].state = ToolLifecycle::Unloaded;
                changed = true;
                proof {
                    witness = i as int;
                }
            }
            proof {
                assert(self.entries@[i as int]@ == after[i as int]);
                assert forall|k: int| 0 <= k < n && k != i implies self.entries@[k] == now[k] by {}
                assert(entry_views(now) =~= after.take(i as int) + before.skip(i as int));
                assert forall|k: int| 0 <= k < n implies #[trigger] self.tools()[k] == (
                after.take(i + 1) + before.skip(i + 1))[k] by {
                    if k != i {
                        assert(self.tools()[k] == entry_views(now)[k]);
                    }
                }
                assert(self.tools() =~= after.take(i + 1) + before.skip(i + 1));
                if !changed {
                    assert(after.take(i + 1) =~= after.take(i as int).push(after[i as int]));
                    assert(before.take(i + 1) =~= before.take(i as int).push(before[i as int]));
                }
            }
            i += 1;
        }
        proof {
            assert(self.tools() =~= after);
            assert(after.take(i as int) =~= after);
            assert(before.take(i as int) =~= before);
            lemma_same_tools(before, after);
        }
        changed
    }
}

proof fn lemma_cool_shape(entries: Seq<Entry>, left: nat, r: Round)
    ensures
        cool(entries, left, r).len() == entries.len(),
        forall|k: int|
            0 <= k < entries.len() ==> (#[trigger] cool(entries, left, r)[k] == entries[k] || (
            may_cool(entries[k], r) && cool(entries, left, r)[k] == cooled(entries[k]))),
    decreases loaded_count(entries),
{
    if left > r.low && oldest(entries, r) >= 0 {
        let i = oldest(entries, r);
        lemma_oldest(entries, r);
        lemma_cool_one(entries, i);
        let next = entries.update(i, cooled(entries[i]));
        let rest = less(left, entries[i].schema_bytes);
        lemma_cool_shape(next, rest, r);
        assert forall|k: int| 0 <= k < entries.len() implies (#[trigger] cool(entries, left, r)[k]
            == entries[k] || (may_cool(entries[k], r) && cool(entries, left, r)[k] == cooled(
            entries[k],
        ))) by {
            assert(cool(next, rest, r)[k] == next[k] || (may_cool(next[k], r) && cool(
                next,
                rest,
                r,
            )[k] == cooled(next[k])));
        }
    }
}

proof fn lemma_cooling_shape(entries: Seq<Entry>, r: Round)
    ensures
        after_cooling(entries, r).len() == entries.len(),
        forall|k: int|
            0 <= k < entries.len() ==> (#[trigger] after_cooling(entries, r)[k] == entries[k] || (
            may_cool(entries[k], r) && after_cooling(entries, r)[k] == cooled(entries[k]))),
{
    lemma_cool_shape(entries, pressure(entries, r), r);
}

// ---------------------------------------------------------------------
// Laws of the lifecycle
// ---------------------------------------------------------------------

/// Aging leaves alone what is held: the core tools, what the host asked for
/// and what a task holds, however long it was idle and however large all
/// schemas are.
pub proof fn law_aging_spares_what_is_held(entries: Seq<Entry>, r: Round, i: int)
    requires
        0 <= i < entries.len(),
        is_held(entries[i], r),
    ensures
        aged(entries, r).len() == entries.len(),
        aged(entries, r)[i] == entries[i],
{
    lemma_cooling_shape(entries, r);
    assert(after_cooling(entries, r)[i] == entries[i]);
}

/// While the loaded schemas are not too large, no loaded tool cools, however
/// long it was idle.
pub proof fn law_nothing_cools_without_pressure(entries: Seq<Entry>, r: Round, i: int)
    requires
        0 <= i < entries.len(),
        loaded_bytes(entries) <= r.high,
        r.high > 0,
        entries[i].state == ToolLifecycle::Loaded,
    ensures
        aged(entries, r)[i] == entries[i],
{
}

/// Aging only ever moves a tool down: a loaded tool cools or leaves, a warm
/// tool leaves, and nothing is loaded by it. Nothing but the state changes.
pub proof fn law_aging_only_moves_down(entries: Seq<Entry>, r: Round, i: int)
    requires
        0 <= i < entries.len(),
    ensures
        aged(entries, r)[i] == entries[i] || (aged(entries, r)[i] == cooled(entries[i])
            && entries[i].state == ToolLifecycle::Loaded) || (aged(entries, r)[i] == (Entry {
            state: ToolLifecycle::Unloaded,
            ..entries[i]
        }) && (entries[i].state == ToolLifecycle::Loaded || entries[i].state
            == ToolLifecycle::Warm)),
{
    lemma_cooling_shape(entries, r);
    assert(after_cooling(entries, r)[i] == entries[i] || (may_cool(entries[i], r) && after_cooling(
        entries,
        r,
    )[i] == cooled(entries[i])));
}

proof fn lemma_cool_order(entries: Seq<Entry>, left: nat, r: Round, i: int, j: int)
    requires
        0 <= i < entries.len(),
        0 <= j < entries.len(),
        cool(entries, left, r)[i] != entries[i],
        may_cool(entries[j], r),
        cool(entries, left, r)[j] == entries[j],
    ensures
        idle(entries[i], r.tick) > idle(entries[j], r.tick) || (idle(entries[i], r.tick) == idle(
            entries[j],
            r.tick,
        ) && i < j),
    decreases loaded_count(entries),
{
    lemma_oldest(entries, r);
    if left > r.low && oldest(entries, r) >= 0 {
        let first = oldest(entries, r);
        let next = entries.update(first, cooled(entries[first]));
        let rest = less(left, entries[first].schema_bytes);
        lemma_cool_one(entries, first);
        lemma_cool_shape(next, rest, r);
        assert(cool(next, rest, r)[first] == next[first]);
        assert(j != first);
        if i != first {
            assert(next[i] == entries[i]);
            assert(next[j] == entries[j]);
            lemma_cool_order(next, rest, r, i, j);
        }
    }
}

/// The longest idle tools cool first, of several such those that come first
/// by name: when one tool cools and another that might have cooled does not,
/// the first was idle for longer, or as long and comes first.
pub proof fn law_the_longest_idle_cool_first(entries: Seq<Entry>, r: Round, i: int, j: int)
    requires
        0 <= i < entries.len(),
        0 <= j < entries.len(),
        entries[i].state == ToolLifecycle::Loaded,
        aged(entries, r)[i].state != ToolLifecycle::Loaded,
        may_cool(entries[j], r),
        aged(entries, r)[j].state == ToolLifecycle::Loaded,
    ensures
        idle(entries[i], r.tick) > idle(entries[j], r.tick) || (idle(entries[i], r.tick) == idle(
            entries[j],
            r.tick,
        ) && i < j),
{
    lemma_cooling_shape(entries, r);
    let mid = after_cooling(entries, r);
    assert(mid[i] == entries[i] || mid[i] == cooled(entries[i]));
    assert(mid[j] == entries[j] || mid[j] == cooled(entries[j]));
    assert(aged(entries, r)[i] == unloaded_if_idle(mid[i], r));
    assert(aged(entries, r)[j] == unloaded_if_idle(mid[j], r));
    lemma_cool_order(entries, pressure(entries, r), r, i, j);
}

/// The tool that cools last, or -1 where none does.
pub open spec fn last_cooled(entries: Seq<Entry>, pressure: nat, r: Round) -> int
    decreases loaded_count(entries),
    via last_cooled_decreases
{
    if pressure <= r.low || oldest(entries, r) < 0 {
        -1
    } else {
        let i = oldest(entries, r);
        let later = last_cooled(
            entries.update(i, cooled(entries[i])),
            less(pressure, entries[i].schema_bytes),
            r,
        );
        if later < 0 {
            i
        } else {
            later
        }
    }
}

#[via_fn]
proof fn last_cooled_decreases(entries: Seq<Entry>, pressure: nat, r: Round) {
    lemma_oldest(entries, r);
    if oldest(entries, r) >= 0 {
        lemma_cool_one(entries, oldest(entries, r));
    }
}

proof fn lemma_cool_extent(entries: Seq<Entry>, r: Round)
    ensures
        ({
            let end = cool(entries, loaded_bytes(entries), r);
            let last = last_cooled(entries, loaded_bytes(entries), r);
            &&& loaded_bytes(end) <= r.low || oldest(end, r) < 0
            &&& last < 0 ==> end == entries
            &&& last >= 0 ==> {
                &&& last < entries.len()
                &&& end[last] == cooled(entries[last])
                &&& may_cool(entries[last], r)
                &&& loaded_bytes(end) + entries[last].schema_bytes > r.low
                &&& forall|j: int|
                    0 <= j < entries.len() && #[trigger] end[j] != entries[j] ==> cools_no_later(
                        entries,
                        r,
                        j,
                        last,
                    )
            }
        }),
    decreases loaded_count(entries),
{
    let left = loaded_bytes(entries);
    let end = cool(entries, left, r);
    if left > r.low && oldest(entries, r) >= 0 {
        let first = oldest(entries, r);
        lemma_oldest(entries, r);
        lemma_cool_one(entries, first);
        let next = entries.update(first, cooled(entries[first]));
        lemma_cool_extent(next, r);
        lemma_cool_shape(next, loaded_bytes(next), r);
        assert(end == cool(next, loaded_bytes(next), r));
        let later = last_cooled(next, loaded_bytes(next), r);
        let last = last_cooled(entries, left, r);
        if later >= 0 {
            assert(may_cool(next[later], r));
            assert(later != first);
            assert(next[later] == entries[later]);
        }
        assert forall|j: int|
            0 <= j < entries.len() && #[trigger] end[j] != entries[j] implies cools_no_later(
            entries,
            r,
            j,
            last,
        ) by {
            if j != first {
                assert(next[j] == entries[j]);
                assert(end[j] != next[j]);
                assert(cools_no_later(next, r, j, later));
            } else if later >= 0 {
                assert(may_cool(entries[later], r));
            }
        }
    }
}

/// Whether one tool's turn to cool comes before another's, or is the same: it
/// was idle for longer, or for as long and does not come behind by name.
pub open spec fn cools_no_later(entries: Seq<Entry>, r: Round, j: int, k: int) -> bool {
    idle(entries[j], r.tick) > idle(entries[k], r.tick) || (idle(entries[j], r.tick) == idle(
        entries[k],
        r.tick,
    ) && j <= k)
}

/// Cooling goes as far as it must and no further. When the loaded schemas are
/// too large, they come down to the low mark, unless nothing is left that may
/// cool; and without the tool that cooled last, whose turn no other cooled
/// tool comes behind, they would still be above it.
pub proof fn law_cooling_stops_at_the_low_mark(entries: Seq<Entry>, r: Round)
    requires
        r.high > 0,
        loaded_bytes(entries) > r.high,
    ensures
        ({
            let end = after_cooling(entries, r);
            let last = last_cooled(entries, loaded_bytes(entries), r);
            &&& loaded_bytes(end) <= r.low || (forall|j: int|
                0 <= j < entries.len() ==> !may_cool(#[trigger] end[j], r))
            &&& last < 0 ==> end == entries
            &&& last >= 0 ==> {
                &&& last < entries.len()
                &&& end[last] == cooled(entries[last])
                &&& entries[last].state == ToolLifecycle::Loaded
                &&& loaded_bytes(end) + entries[last].schema_bytes > r.low
                &&& forall|j: int|
                    0 <= j < entries.len() && #[trigger] end[j] != entries[j] ==> cools_no_later(
                        entries,
                        r,
                        j,
                        last,
                    )
            }
        }),
{
    lemma_cool_extent(entries, r);
    lemma_cooling_shape(entries, r);
    lemma_oldest(after_cooling(entries, r), r);
    assert(after_cooling(entries, r) == cool(entries, loaded_bytes(entries), r));
}

proof fn lemma_generations(history: Seq<Revision>, i: int, j: int) -> (changes: int)
    requires
        is_history(history),
        0 <= i <= j < history.len(),
        j - i <= u64::MAX,
    ensures
        0 <= changes <= j - i,
        history[j].generation == history[i].generation + changes || history[j].generation
            == history[i].generation + changes - u64::MAX - 1,
        changes == 0 ==> offered(history[j].tools) == offered(history[i].tools),
    decreases j - i,
{
    if i == j {
        0
    } else {
        let earlier = lemma_generations(history, i, j - 1);
        assert(follows(history[j - 1], history[j]));
        if history[j].generation == history[j - 1].generation {
            earlier
        } else {
            earlier + 1
        }
    }
}

/// One generation names one surface: of all that a catalog goes through, two
/// revisions with the same generation offer the same tools, and their
/// surfaces are the same lists. The generation is a number of a fixed size,
/// so this is said of revisions between which it cannot have come around.
pub proof fn law_one_generation_names_one_surface(
    history: Seq<Revision>,
    i: int,
    j: int,
    names_i: Seq<Seq<char>>,
    names_j: Seq<Seq<char>>,
)
    requires
        is_history(history),
        0 <= i <= j < history.len(),
        j - i <= u64::MAX,
        history[i].generation == history[j].generation,
        is_surface(names_i, history[i].tools),
        is_surface(names_j, history[j].tools),
    ensures
        offered(history[i].tools) == offered(history[j].tools),
        names_i == names_j,
{
    let changes = lemma_generations(history, i, j);
    order::lemma_sorted_unique(names_i, names_j);
}

proof fn lemma_offered_in_order(entries: Seq<Entry>)
    requires
        in_name_order(entries),
    ensures
        forall|i: int, j: int|
            0 <= i < j < offered(entries).len() ==> order::before(
                #[trigger] offered(entries)[i],
                #[trigger] offered(entries)[j],
            ),
        forall|i: int|
            0 <= i < offered(entries).len() ==> exists|k: int|
                0 <= k < entries.len() && (#[trigger] entries[k]).name == #[trigger] offered(
                    entries,
                )[i],
    decreases entries.len(),
{
    if entries.len() > 0 {
        let rest = entries.drop_last();
        assert(in_name_order(rest)) by {
            assert forall|i: int, j: int| 0 <= i < j < rest.len() implies order::before(
                #[trigger] rest[i].name,
                #[trigger] rest[j].name,
            ) by {
                assert(order::before(entries[i].name, entries[j].name));
            }
        }
        lemma_offered_in_order(rest);
        let all = offered(entries);
        let before = offered(rest);
        assert forall|i: int| 0 <= i < all.len() implies exists|k: int|
            0 <= k < entries.len() && (#[trigger] entries[k]).name == #[trigger] all[i] by {
            if i < before.len() {
                let k = choose|k: int| 0 <= k < rest.len() && (#[trigger] rest[k]).name == before[i];
                assert(entries[k].name == all[i]);
            } else {
                assert(entries[entries.len() - 1].name == all[i]);
            }
        }
        assert forall|i: int, j: int| 0 <= i < j < all.len() implies order::before(
            #[trigger] all[i],
            #[trigger] all[j],
        ) by {
            assert(all[i] == before[i]);
            if j < before.len() {
                assert(all[j] == before[j]);
            } else {
                let k = choose|k: int| 0 <= k < rest.len() && (#[trigger] rest[k]).name == before[i];
                assert(order::before(entries[k].name, entries[entries.len() - 1].name));
            }
        }
    }
}

/// No two names of a surface are equal, unless a tool of the catalog bears
/// the name of the control tool.
pub proof fn law_a_surface_names_each_tool_once(
    names: Seq<Seq<char>>,
    entries: Seq<Entry>,
    i: int,
    j: int,
)
    requires
        in_name_order(entries),
        is_surface(names, entries),
        forall|k: int| 0 <= k < entries.len() ==> (#[trigger] entries[k]).name != CAPABILITY_MANAGE@,
        0 <= i < j < names.len(),
    ensures
        names[i] != names[j],
        order::before(names[i], names[j]),
{
    let all = offered(entries).push(CAPABILITY_MANAGE@);
    lemma_offered_in_order(entries);
    assert(all.no_duplicates()) by {
        assert forall|a: int, b: int| 0 <= a < all.len() && 0 <= b < all.len() && a != b implies
            all[a] != all[b] by {
            if a < all.len() - 1 && b < all.len() - 1 {
                order::lemma_before_is_a_strict_order(all[a], all[b], all[a]);
                order::lemma_before_is_a_strict_order(all[b], all[a], all[b]);
                if a < b {
                    assert(order::before(offered(entries)[a], offered(entries)[b]));
                } else {
                    assert(order::before(offered(entries)[b], offered(entries)[a]));
                }
            } else if a < all.len() - 1 {
                assert(all[a] == offered(entries)[a]);
            } else {
                assert(all[b] == offered(entries)[b]);
            }
        }
    }
    all.lemma_multiset_has_no_duplicates();
    names.lemma_multiset_has_no_duplicates_conv();
    order::lemma_before_is_a_strict_order(names[i], names[j], names[i]);
}

/// What the host loaded stays loaded through any aging and any reconciliation
/// of leases; only an unload takes it away.
pub proof fn law_a_host_load_stays(
    entries: Seq<Entry>,
    r: Round,
    kept: Seq<Seq<char>>,
    roots: Seq<Seq<char>>,
    tick: nat,
    i: int,
)
    requires
        0 <= i < entries.len(),
    ensures
        ({
            let after = entries.update(i, loaded_by_host(entries[i], tick));
            &&& aged(after, r)[i].state == ToolLifecycle::Loaded
            &&& without_leases(kept, roots, after)[i].state == ToolLifecycle::Loaded
            &&& aged(after, r)[i].persistent_load
            &&& without_leases(kept, roots, after)[i].persistent_load
        }),
{
    let after = entries.update(i, loaded_by_host(entries[i], tick));
    law_aging_spares_what_is_held(after, r, i);
}

/// A reconciliation of leases takes nothing from a core tool, from the host
/// or from a task, and it leaves no other tool loaded.
pub proof fn law_leases_end_exactly_without_a_holder(
    kept: Seq<Seq<char>>,
    roots: Seq<Seq<char>>,
    entries: Seq<Entry>,
    i: int,
)
    requires
        0 <= i < entries.len(),
    ensures
        stays_loaded(kept, entries[i].name) || entries[i].persistent_load || roots.contains(
            entries[i].name,
        ) ==> without_leases(kept, roots, entries)[i] == entries[i],
        without_leases(kept, roots, entries)[i].state == ToolLifecycle::Loaded ==> stays_loaded(
            kept,
            entries[i].name,
        ) || entries[i].persistent_load || roots.contains(entries[i].name),
{
}

// ---------------------------------------------------------------------
// Laws over the entries
// ---------------------------------------------------------------------

/// A tool is found exactly where an entry has its name, and what is found is
/// that entry.
pub proof fn law_a_tool_is_found_by_its_name(entries: Seq<Entry>, name: Seq<char>, i: int)
    ensures
        find(entries, name) matches Some(e) ==> entries.contains(e) && e.name == name,
        0 <= i < entries.len() && entries[i].name == name ==> find(entries, name) is Some,
        in_name_order(entries) && 0 <= i < entries.len() && entries[i].name == name ==> find(
            entries,
            name,
        ) == Some(entries[i]),
        0 <= position(entries, name) ==> position(entries, name) < entries.len()
            && entries[position(entries, name)].name == name,
    decreases entries.len(),
{
    if entries.len() > 0 {
        let front = entries.drop_last();
        law_a_tool_is_found_by_its_name(front, name, i);
        if entries.last().name == name {
            assert(entries[entries.len() - 1] == entries.last());
        } else {
            assert(find(entries, name) == find(front, name));
            if find(front, name) is Some {
                let e = find(front, name)->0;
                let k = choose|k: int| 0 <= k < front.len() && front[k] == e;
                assert(entries[k] == e);
            }
        }
        if in_name_order(entries) && 0 <= i < entries.len() && entries[i].name == name {
            let p = position(entries, name);
            if 0 <= p && p != i {
                order::lemma_before_is_a_strict_order(name, name, name);
                if p < i {
                    assert(order::before(entries[p].name, entries[i].name));
                } else {
                    assert(order::before(entries[i].name, entries[p].name));
                }
            }
        }
    }
}

/// Of several declarations of one tool the last counts. `i` is the last one of
/// that name.
pub proof fn law_the_last_declaration_counts(tools: Seq<ToolFacts>, name: Seq<char>, i: int)
    requires
        -1 <= i < tools.len(),
        i >= 0 ==> tools[i].name@ == name,
        forall|k: int| i < k < tools.len() ==> (#[trigger] tools[k]).name@ != name,
    ensures
        last_named(tools, name) == if i >= 0 {
            Some(tools[i])
        } else {
            None
        },
    decreases tools.len(),
{
    if i < tools.len() - 1 {
        let front = tools.drop_last();
        assert(tools[tools.len() - 1].name@ != name);
        assert forall|k: int| i < k < front.len() implies (#[trigger] front[k]).name@ != name by {
            assert(tools[k].name@ != name);
        }
        law_the_last_declaration_counts(front, name, i);
    }
}

/// A declared tool starts loaded where it is a core tool or runs
/// verifications, and otherwise only available; it has not been used, and no
/// host holds it.
pub proof fn law_a_tool_starts_as_declared(core: Seq<Seq<char>>, tool: ToolFacts)
    ensures
        ({
            let e = fresh(core, tool);
            &&& e.name == tool.name@ && e.description == tool.description@
            &&& e.risk == tool.risk && e.roles == tool.roles@
            &&& e.schema_bytes == tool.schema_bytes
            &&& e.state == ToolLifecycle::Loaded || e.state == ToolLifecycle::Available
            &&& e.state == ToolLifecycle::Loaded <==> tool.name@ == "verify.run"@ || core.contains(
                tool.name@,
            )
            &&& e.last_used_tick == 0
            &&& !e.persistent_load
        }),
{
}

/// What each step makes of a tool: a load by the host and one for a lease
/// differ only in that the host's stays; a tool that is taken away is no
/// longer held; one in use is active until it has been used.
pub proof fn law_each_step_changes_its_own_fields(e: Entry, tick: nat)
    ensures
        loaded_by_host(e, tick) == (Entry {
            state: ToolLifecycle::Loaded,
            last_used_tick: tick,
            persistent_load: true,
            ..e
        }),
        loaded_for_lease(e, tick).persistent_load == e.persistent_load,
        loaded_for_lease(e, tick).state == ToolLifecycle::Loaded,
        loaded_for_lease(e, tick).last_used_tick == tick,
        taken_away(e).state == ToolLifecycle::Unloaded && !taken_away(e).persistent_load,
        taken_away(e).last_used_tick == e.last_used_tick,
        in_use(e, tick).state == ToolLifecycle::Active,
        in_use(e, tick).last_used_tick == tick,
        in_use(e, tick).persistent_load == e.persistent_load,
        used(in_use(e, tick)).state == ToolLifecycle::Loaded,
        used(in_use(e, tick)).last_used_tick == tick,
        e.state != ToolLifecycle::Active ==> used(e) == e,
        cooled(e).state == ToolLifecycle::Warm && cooled(e).last_used_tick == e.last_used_tick
            && cooled(e).persistent_load == e.persistent_load,
        loaded_for_lease(e, tick).name == e.name && taken_away(e).name == e.name && in_use(
            e,
            tick,
        ).name == e.name && used(e).name == e.name && cooled(e).name == e.name,
        loaded_for_lease(e, tick).schema_bytes == e.schema_bytes && taken_away(e).schema_bytes
            == e.schema_bytes && in_use(e, tick).schema_bytes == e.schema_bytes && used(
            e,
        ).schema_bytes == e.schema_bytes && cooled(e).schema_bytes == e.schema_bytes,
{
}

/// What is offered is the names of the loaded and the active tools, all of
/// them and in their order.
pub proof fn law_the_loaded_and_active_tools_are_offered(entries: Seq<Entry>)
    ensures
        offered(entries) == entries.filter(
            |e: Entry| e.state == ToolLifecycle::Loaded || e.state == ToolLifecycle::Active,
        ).map_values(|e: Entry| e.name),
    decreases entries.len(),
{
    reveal(Seq::filter);
    let on = |e: Entry| e.state == ToolLifecycle::Loaded || e.state == ToolLifecycle::Active;
    let name = |e: Entry| e.name;
    if entries.len() > 0 {
        law_the_loaded_and_active_tools_are_offered(entries.drop_last());
        let rest = entries.drop_last().filter(on);
        if on(entries.last()) {
            assert(rest.push(entries.last()).map_values(name) =~= rest.map_values(name).push(
                entries.last().name,
            ));
        }
    } else {
        assert(entries.filter(on).map_values(name) =~= offered(entries));
    }
}

/// A surface holds exactly the offered names and the manager of tools.
pub proof fn law_a_surface_holds_what_is_offered(
    names: Seq<Seq<char>>,
    entries: Seq<Entry>,
    name: Seq<char>,
)
    requires
        is_surface(names, entries),
    ensures
        names.contains(name) <==> offered(entries).contains(name) || name == "capability.manage"@,
        names.len() == offered(entries).len() + 1,
{
    let all = offered(entries).push(CAPABILITY_MANAGE@);
    names.to_multiset_ensures();
    all.to_multiset_ensures();
    assert(names.contains(name) <==> names.to_multiset().count(name) > 0);
    assert(all.contains(name) <==> all.to_multiset().count(name) > 0);
    if offered(entries).contains(name) {
        let k = choose|k: int| 0 <= k < offered(entries).len() && offered(entries)[k] == name;
        assert(all[k] == name);
    }
    if name == CAPABILITY_MANAGE@ {
        assert(all[all.len() - 1] == name);
    }
    if all.contains(name) {
        let k = choose|k: int| 0 <= k < all.len() && all[k] == name;
        if k < offered(entries).len() {
            assert(offered(entries)[k] == name);
        }
    }
    assert(names.len() == names.to_multiset().len());
    assert(all.len() == all.to_multiset().len());
}

/// The bytes of the loaded schemas add up: a loaded tool adds its own, any
/// other adds nothing; the bytes of all schemas add up whatever their state.
pub proof fn law_schema_bytes_add_up(entries: Seq<Entry>, e: Entry)
    ensures
        loaded_bytes(Seq::empty()) == 0,
        total_bytes(Seq::empty()) == 0,
        e.state == ToolLifecycle::Loaded ==> loaded_bytes(entries.push(e)) == loaded_bytes(entries)
            + e.schema_bytes,
        e.state != ToolLifecycle::Loaded ==> loaded_bytes(entries.push(e)) == loaded_bytes(entries),
        total_bytes(entries.push(e)) == total_bytes(entries) + e.schema_bytes,
{
    assert(entries.push(e).drop_last() =~= entries);
}

/// A tool may cool exactly where it is loaded, no one holds it, and it has
/// been idle for at least the time that a tool may be; a warm tool that no one
/// holds is unloaded once it has been idle for at least its time.
pub proof fn law_what_ages(e: Entry, r: Round)
    requires
        e.last_used_tick <= r.tick,
    ensures
        ({
            let held = e.name == "verify.run"@ || r.kept.contains(e.name) || e.persistent_load
                || r.roots.contains(e.name);
            &&& may_cool(e, r) <==> e.state == ToolLifecycle::Loaded && !held && r.tick
                - e.last_used_tick >= r.idle_to_warm
            &&& unloaded_if_idle(e, r).state == ToolLifecycle::Unloaded <==> e.state
                == ToolLifecycle::Unloaded || e.state == ToolLifecycle::Warm && !held && r.tick
                - e.last_used_tick >= r.warm_to_unload
            &&& unloaded_if_idle(e, r) == e || unloaded_if_idle(e, r) == (Entry {
                state: ToolLifecycle::Unloaded,
                ..e
            })
            &&& is_held(e, r) == held
        }),
{
}

/// Without a high mark everything that may cool is under pressure; with one,
/// exactly the loaded schemas beyond it are.
pub proof fn law_when_cooling_starts(entries: Seq<Entry>, r: Round)
    requires
        r.low < usize::MAX,
        r.high < usize::MAX,
    ensures
        r.high > 0 && loaded_bytes(entries) <= r.high ==> after_cooling(entries, r) == entries,
        r.high > 0 && loaded_bytes(entries) > r.high ==> after_cooling(entries, r) == cool(
            entries,
            loaded_bytes(entries),
            r,
        ),
        r.high == 0 ==> after_cooling(entries, r) == cool(entries, usize::MAX as nat, r),
{
}

/// A lease on a loaded tool that is no core tool ends exactly where neither
/// the host nor a task holds it, and the tool then is warm; every other entry
/// stays as it is. Each examined tool is counted under one reason.
pub proof fn law_a_lease_ends_without_a_holder(
    kept: Seq<Seq<char>>,
    roots: Seq<Seq<char>>,
    e: Entry,
)
    ensures
        ({
            let examined = e.state == ToolLifecycle::Loaded && e.name != "verify.run"@
                && !kept.contains(e.name);
            let fate = lease_fate(kept, roots, e);
            &&& fate == LeaseFate::NotExamined <==> !examined
            &&& fate == LeaseFate::Persistent <==> examined && e.persistent_load
            &&& fate == LeaseFate::Rooted <==> examined && !e.persistent_load && roots.contains(
                e.name,
            )
            &&& fate == LeaseFate::Released <==> examined && !e.persistent_load && !roots.contains(
                e.name,
            )
        }),
        without_leases(kept, roots, seq![e])[0] == if lease_fate(kept, roots, e)
            == LeaseFate::Released {
            Entry { state: ToolLifecycle::Warm, ..e }
        } else {
            e
        },
{
}

/// The report of a reconciliation counts the tools of each fate, and names
/// those that were released, in order.
pub proof fn law_a_report_counts_each_fate(
    kept: Seq<Seq<char>>,
    roots: Seq<Seq<char>>,
    entries: Seq<Entry>,
    fate: LeaseFate,
)
    ensures
        fate_count(kept, roots, entries, fate) == entries.filter(
            |e: Entry| lease_fate(kept, roots, e) == fate,
        ).len(),
        released_names(kept, roots, entries) == entries.filter(
            |e: Entry| lease_fate(kept, roots, e) == LeaseFate::Released,
        ).map_values(|e: Entry| e.name),
    decreases entries.len(),
{
    reveal(Seq::filter);
    let gone = |e: Entry| lease_fate(kept, roots, e) == LeaseFate::Released;
    let name = |e: Entry| e.name;
    if entries.len() > 0 {
        law_a_report_counts_each_fate(kept, roots, entries.drop_last(), fate);
        let rest = entries.drop_last().filter(gone);
        if gone(entries.last()) {
            assert(rest.push(entries.last()).map_values(name) =~= rest.map_values(name).push(
                entries.last().name,
            ));
        }
    } else {
        assert(entries.filter(gone).map_values(name) =~= released_names(kept, roots, entries));
    }
}

/// The core tools, and the names that tools are managed and verified by.
pub proof fn law_the_core_tools(name: Seq<char>)
    ensures
        core_tools().contains(name) <==> name == "fs.list"@ || name == "fs.read"@ || name
            == "search.grep"@ || name == "artifact.read"@ || name == "edit.patch"@ || name
            == "fs.write"@ || name == "git.status"@ || name == "git.diff"@ || name
            == "task.complete"@ || name == "capability.manage"@,
        CAPABILITY_MANAGE@ == "capability.manage"@,
        VERIFY_RUN_TOOL_NAME@ == "verify.run"@,
        stays_loaded(core_tools(), name) <==> core_tools().contains(name) || name == "verify.run"@,
{
    let core = core_tools();
    assert(core[0] == "fs.list"@ && core[1] == "fs.read"@ && core[2] == "search.grep"@ && core[3]
        == "artifact.read"@ && core[4] == "edit.patch"@ && core[5] == "fs.write"@ && core[6]
        == "git.status"@ && core[7] == "git.diff"@ && core[8] == "task.complete"@ && core[9]
        == "capability.manage"@);
}

/// A change of the surface always gives a generation that is not the last one,
/// and the clock always moves on; behind the largest number comes zero.
pub proof fn law_generations_and_ticks_move_on(n: u64)
    ensures
        next_generation(n) != n,
        n < u64::MAX ==> next_generation(n) == n + 1,
        n == u64::MAX ==> next_generation(n) == 0,
        next_tick(n) != n,
        n < u64::MAX ==> next_tick(n) == n + 1,
        n == u64::MAX ==> next_tick(n) == 0,
{
}

/// The names of the states.
pub proof fn law_states_are_offered_by_their_name(state: ToolLifecycle)
    ensures
        is_offered(state) <==> lifecycle_name(state) == "loaded"@ || lifecycle_name(state)
            == "active"@,
        state == ToolLifecycle::Available ==> lifecycle_name(state) == "available"@,
        state == ToolLifecycle::Warm ==> lifecycle_name(state) == "warm"@,
        state == ToolLifecycle::Unloaded ==> lifecycle_name(state) == "unloaded"@,
        state == ToolLifecycle::Loaded ==> lifecycle_name(state) == "loaded"@,
        state == ToolLifecycle::Active ==> lifecycle_name(state) == "active"@,
{
    reveal_strlit("available");
    reveal_strlit("loaded");
    reveal_strlit("active");
    reveal_strlit("warm");
    reveal_strlit("unloaded");
    assert("loaded"@.len() == 6 && "active"@.len() == 6 && "available"@.len() == 9 && "warm"@.len()
        == 4 && "unloaded"@.len() == 8);
}

/// Pressure falls by what has cooled, and never below nothing.
pub proof fn law_pressure_falls_by_what_cooled(pressure: nat, bytes: nat)
    ensures
        bytes <= pressure ==> less(pressure, bytes) + bytes == pressure,
        bytes > pressure ==> less(pressure, bytes) == 0,
{
}

} // verus!
