//! `capability.manage`: searching the catalog, and loading and unloading its
//! tools.
use crate::order;
use crate::registry;
use crate::registry::ToolLifecycle;
use crate::text;
use vstd::prelude::*;

verus! {

/// How many rows a search shows where the call does not say.
pub const CAPABILITY_SEARCH_DEFAULT_LIMIT: usize = 20;

/// The most rows a search shows.
pub const CAPABILITY_SEARCH_MAX_LIMIT: usize = 50;

/// The arguments of a call.
#[derive(Debug)]
pub struct ManageArgs {
    pub op: String,
    pub name: Option<String>,
    pub query: Option<String>,
    pub role: Option<String>,
    pub limit: Option<usize>,
    pub cursor: Option<String>,
}

/// The arguments of a search.
#[derive(Debug)]
pub struct SearchArgs {
    pub query: Option<String>,
    pub role: Option<String>,
    pub limit: Option<usize>,
    pub cursor: Option<String>,
}

/// What a call asks for.
#[derive(Debug)]
pub enum ManageCall {
    Search(SearchArgs),
    Inspect(String),
    Load(String),
    Unload(String),
}

/// Why a call was refused.
#[derive(Debug)]
pub enum ManageError {
    /// The operation of that name needs the name of a tool.
    MissingName(&'static str),
    UnknownOp(String),
}

/// The text of a refusal.
pub open spec fn manage_error_text(e: ManageError) -> Seq<char> {
    match e {
        ManageError::MissingName(op) => "capability.manage "@ + op@ + ": missing 'name'"@,
        ManageError::UnknownOp(op) => "capability.manage: unknown op '"@ + op@
            + "' (expected search/inspect/load/unload)"@,
    }
}

impl ManageError {
    /// The refusal in words.
    pub fn message(&self) -> (out: String)
        ensures
            out@ == manage_error_text(*self),
    {
        let mut out = String::new();
        match self {
            ManageError::MissingName(op) => {
                out.append("capability.manage ");
                out.append(op);
                out.append(": missing 'name'");
            },
            ManageError::UnknownOp(op) => {
                out.append("capability.manage: unknown op '");
                out.append(op.as_str());
                out.append("' (expected search/inspect/load/unload)");
            },
        }
        assert(out@ =~= manage_error_text(*self));
        out
    }
}

/// What the arguments ask for. Only a search goes without the name of a tool,
/// and it takes nothing but the search's own arguments.
pub open spec fn call_of(args: ManageArgs) -> Result<ManageCall, ManageError> {
    if args.op@ == "search"@ {
        Ok(
            ManageCall::Search(
                SearchArgs {
                    query: args.query,
                    role: args.role,
                    limit: args.limit,
                    cursor: args.cursor,
                },
            ),
        )
    } else if args.op@ == "inspect"@ {
        match args.name {
            Some(name) => Ok(ManageCall::Inspect(name)),
            None => Err(ManageError::MissingName("inspect")),
        }
    } else if args.op@ == "load"@ {
        match args.name {
            Some(name) => Ok(ManageCall::Load(name)),
            None => Err(ManageError::MissingName("load")),
        }
    } else if args.op@ == "unload"@ {
        match args.name {
            Some(name) => Ok(ManageCall::Unload(name)),
            None => Err(ManageError::MissingName("unload")),
        }
    } else {
        Err(ManageError::UnknownOp(args.op))
    }
}

/// What the arguments ask for.
pub fn read_call(args: ManageArgs) -> (r: Result<ManageCall, ManageError>)
    ensures
        r == call_of(args),
{
    if text::same(args.op.as_str(), "search") {
        Ok(
            ManageCall::Search(
                SearchArgs {
                    query: args.query,
                    role: args.role,
                    limit: args.limit,
                    cursor: args.cursor,
                },
            ),
        )
    } else if text::same(args.op.as_str(), "inspect") {
        match args.name {
            Some(name) => Ok(ManageCall::Inspect(name)),
            None => Err(ManageError::MissingName("inspect")),
        }
    } else if text::same(args.op.as_str(), "load") {
        match args.name {
            Some(name) => Ok(ManageCall::Load(name)),
            None => Err(ManageError::MissingName("load")),
        }
    } else if text::same(args.op.as_str(), "unload") {
        match args.name {
            Some(name) => Ok(ManageCall::Unload(name)),
            None => Err(ManageError::MissingName("unload")),
        }
    } else {
        Err(ManageError::UnknownOp(args.op))
    }
}

// ---------------------------------------------------------------------
// Searching
// ---------------------------------------------------------------------

/// A tool that a search found.
#[derive(Debug)]
pub struct SearchHit {
    pub state: ToolLifecycle,
    pub name: String,
    /// What the tool is for, in one line.
    pub purpose: String,
}

/// A tool that a search found, as a value.
pub struct Hit {
    pub state: ToolLifecycle,
    pub name: Seq<char>,
    pub purpose: Seq<char>,
}

impl View for SearchHit {
    type V = Hit;

    open spec fn view(&self) -> Hit {
        Hit { state: self.state, name: self.name@, purpose: self.purpose@ }
    }
}

/// The hits as values.
pub open spec fn hit_views(hits: Seq<SearchHit>) -> Seq<Hit> {
    Seq::new(hits.len(), |i: int| hits[i]@)
}

/// One row of a result.
pub open spec fn hit_row(h: Hit) -> Seq<char> {
    registry::lifecycle_name(h.state) + "\t"@ + h.name + "\t"@ + h.purpose
}

/// The rows of a result.
pub open spec fn hit_rows(hits: Seq<Hit>) -> Seq<Seq<char>> {
    Seq::new(hits.len(), |i: int| hit_row(hits[i]))
}

/// The names of the tools of a result.
pub open spec fn hit_names(hits: Seq<Hit>) -> Seq<Seq<char>> {
    Seq::new(hits.len(), |i: int| hits[i].name)
}

/// How many of the hits are offered.
pub open spec fn active_count(hits: Seq<Hit>) -> nat
    decreases hits.len(),
{
    if hits.len() == 0 {
        0
    } else {
        active_count(hits.drop_last()) + if registry::is_offered(hits.last().state) {
            1nat
        } else {
            0
        }
    }
}

/// The hits whose names come after the cursor.
pub open spec fn after_cursor(hits: Seq<Hit>, cursor: Option<Seq<char>>) -> Seq<Hit>
    decreases hits.len(),
{
    match cursor {
        None => hits,
        Some(c) => if hits.len() == 0 {
            hits
        } else {
            let rest = after_cursor(hits.drop_last(), cursor);
            if order::before(c, hits.last().name) {
                rest.push(hits.last())
            } else {
                rest
            }
        },
    }
}

/// How many rows a page has.
pub open spec fn page_size(limit: Option<usize>) -> int {
    let wanted = match limit {
        Some(n) => n,
        None => CAPABILITY_SEARCH_DEFAULT_LIMIT,
    };
    if wanted < 1 {
        1
    } else if wanted > CAPABILITY_SEARCH_MAX_LIMIT {
        CAPABILITY_SEARCH_MAX_LIMIT as int
    } else {
        wanted as int
    }
}

/// The first `n`, or all where there are fewer.
pub open spec fn first_hits(hits: Seq<Hit>, n: int) -> Seq<Hit> {
    if hits.len() <= n {
        hits
    } else {
        hits.take(n)
    }
}

/// The result of a search.
#[derive(Debug)]
pub struct SearchPage {
    pub summary: String,
    pub content: String,
    /// All rows, where they do not fit the page.
    pub listing: Option<String>,
    pub total: usize,
    pub active: usize,
    pub returned: usize,
    pub has_more: bool,
    /// The tools of the page.
    pub names: Vec<String>,
}

/// Whether a result shows one page of these hits.
pub open spec fn page_is(
    p: SearchPage,
    hits: Seq<Hit>,
    limit: Option<usize>,
    cursor: Option<Seq<char>>,
) -> bool {
    let left = after_cursor(hits, cursor);
    let page = first_hits(left, page_size(limit));
    &&& p.total == hits.len()
    &&& p.active == active_count(hits)
    &&& p.returned == page.len()
    &&& text::views(p.names@) == hit_names(page)
    &&& p.has_more == (left.len() > page.len())
    &&& p.summary@ == text::dec(hits.len()) + " tools matched ("@ + text::dec(active_count(hits))
        + " in the active set)"@
    &&& p.content@ == if page.len() == 0 {
        "no tools match"@
    } else {
        text::join(hit_rows(page), "\n"@)
    }
    &&& match p.listing {
        Some(all) => hits.len() > page_size(limit) && all@ == text::join(hit_rows(hits), "\n"@),
        None => hits.len() <= page_size(limit),
    }
}

fn clamp_limit(limit: Option<usize>) -> (n: usize)
    ensures
        n == page_size(limit),
{
    let wanted: usize = match limit {
        Some(n) => n,
        None => CAPABILITY_SEARCH_DEFAULT_LIMIT,
    };
    if wanted < 1 {
        1
    } else if wanted > CAPABILITY_SEARCH_MAX_LIMIT {
        CAPABILITY_SEARCH_MAX_LIMIT
    } else {
        wanted
    }
}

impl SearchHit {
    fn row(&self) -> (out: String)
        ensures
            out@ == hit_row(self@),
    {
        let mut out = self.state.as_str().to_owned();
        out.append("\t");
        out.append(self.name.as_str());
        out.append("\t");
        out.append(self.purpose.as_str());
        out
    }
}

fn cursor_passed(cursor: Option<&str>, name: &str) -> (r: bool)
    ensures
        r == match cursor {
            Some(c) => order::before(c@, name@),
            None => true,
        },
{
    match cursor {
        Some(c) => order::comes_before(c, name),
        None => true,
    }
}

/// A cursor that may be missing, as a value.
pub open spec fn cursor_view(cursor: Option<&str>) -> Option<Seq<char>> {
    match cursor {
        Some(c) => Some(c@),
        None => None,
    }
}

/// Shows one page of what a search found: at most as many rows as asked for,
/// those behind the cursor. What does not fit one page is listed in full
/// besides.
pub fn search_page(
    hits: &Vec<SearchHit>,
    limit: Option<usize>,
    cursor: Option<&str>,
) -> (p: SearchPage)
    ensures
        page_is(p, hit_views(hits@), limit, cursor_view(cursor)),
{
    let ghost all = hit_views(hits@);
    let ghost from = cursor_view(cursor);
    let size: usize = clamp_limit(limit);
    let total: usize = hits.len();
    let mut rows: Vec<String> = Vec::new();
    let mut page: Vec<String> = Vec::new();
    let mut names: Vec<String> = Vec::new();
    let mut active: usize = 0;
    let mut left: usize = 0;
    let mut i: usize = 0;
    proof {
        assert(all.take(0) =~= Seq::empty());
        assert(after_cursor(all.take(0), from) =~= Seq::empty());
        assert(text::views(rows@) =~= hit_rows(all.take(0)));
        assert(text::views(page@) =~= hit_rows(first_hits(Seq::empty(), size as int)));
        assert(text::views(names@) =~= hit_names(first_hits(Seq::empty(), size as int)));
    }
    while i < total
        invariant
            total == hits@.len(),
            all == hit_views(hits@),
            from == cursor_view(cursor),
            size >= 1,
            i <= total,
            active == active_count(all.take(i as int)),
            active <= i,
            left == after_cursor(all.take(i as int), from).len(),
            left <= i,
            text::views(rows@) == hit_rows(all.take(i as int)),
            text::views(page@) == hit_rows(
                first_hits(after_cursor(all.take(i as int), from), size as int),
            ),
            text::views(names@) == hit_names(
                first_hits(after_cursor(all.take(i as int), from), size as int),
            ),
        decreases total - i,
    {
        let ghost before = all.take(i as int);
        let ghost next = all.take(i + 1);
        let ghost left_before = after_cursor(before, from);
        let ghost left_next = after_cursor(next, from);
        let row = hits[i].row();
        proof {
            assert(next.drop_last() =~= before);
            assert(next.last() == hits@[i as int]@);
            assert(next =~= before.push(hits@[i as int]@));
        }
        if hits[i].state.in_surface() {
            active = active + 1;
        }
        if cursor_passed(cursor, hits[i].name.as_str()) {
            proof {
                assert(left_next =~= left_before.push(hits@[i as int]@));
            }
            if left < size {
                let shown = row.as_str().to_owned();
                let name = hits[i].name.as_str().to_owned();
                proof {
                    text::lemma_views_push(page@, shown);
                    text::lemma_views_push(names@, name);
                    assert(hit_rows(left_next) =~= hit_rows(left_before).push(shown@));
                    assert(hit_names(left_next) =~= hit_names(left_before).push(name@));
                }
                page.push(shown);
                names.push(name);
            } else {
                proof {
                    assert(left_next.take(size as int) =~= left_before.take(size as int));
                    assert(left_before.take(left_before.len() as int) =~= left_before);
                }
            }
            left = left + 1;
        } else {
            assert(left_next =~= left_before);
        }
        proof {
            text::lemma_views_push(rows@, row);
            assert(hit_rows(next) =~= hit_rows(before).push(row@));
        }
        rows.push(row);
        i += 1;
    }
    assert(all.take(i as int) =~= all);
    let returned: usize = page.len();
    assert(text::views(page@).len() == returned);
    let mut summary = text::dec_string(total as u64);
    summary.append(" tools matched (");
    text::push_dec(&mut summary, active as u64);
    summary.append(" in the active set)");
    let content = if returned == 0 {
        "no tools match".to_owned()
    } else {
        text::join_strings(&page, "\n")
    };
    let listing = if total > size {
        Some(text::join_strings(&rows, "\n"))
    } else {
        None
    };
    SearchPage {
        summary,
        content,
        listing,
        total,
        active,
        returned,
        has_more: left > returned,
        names,
    }
}

/// Whether the hits stand in the order of their names, each name once.
pub open spec fn hits_in_order(hits: Seq<Hit>) -> bool {
    forall|i: int, j: int|
        0 <= i < j < hits.len() ==> order::before(#[trigger] hits[i].name, #[trigger] hits[j].name)
}

proof fn lemma_after_is_a_suffix(hits: Seq<Hit>, n: int)
    requires
        hits_in_order(hits),
        0 <= n < hits.len(),
    ensures
        after_cursor(hits, Some(hits[n].name)) == hits.skip(n + 1),
    decreases hits.len(),
{
    let c = hits[n].name;
    let rest = hits.drop_last();
    if n < rest.len() {
        assert forall|i: int, j: int| 0 <= i < j < rest.len() implies order::before(
            #[trigger] rest[i].name,
            #[trigger] rest[j].name,
        ) by {
            assert(order::before(hits[i].name, hits[j].name));
        }
        lemma_after_is_a_suffix(rest, n);
        assert(order::before(hits[n].name, hits[hits.len() - 1].name));
        assert(rest.skip(n + 1).push(hits.last()) =~= hits.skip(n + 1));
    } else {
        order::lemma_before_is_a_strict_order(c, c, c);
        lemma_none_after(rest, c, hits);
        assert(hits.skip(n + 1) =~= Seq::empty());
    }
}

proof fn lemma_none_after(rest: Seq<Hit>, c: Seq<char>, hits: Seq<Hit>)
    requires
        hits_in_order(hits),
        hits.len() > 0,
        c == hits.last().name,
        rest.len() < hits.len(),
        rest == hits.take(rest.len() as int),
    ensures
        after_cursor(rest, Some(c)) == Seq::<Hit>::empty(),
    decreases rest.len(),
{
    if rest.len() > 0 {
        let n = rest.len() - 1;
        assert(rest.drop_last() =~= hits.take(n));
        lemma_none_after(rest.drop_last(), c, hits);
        assert(order::before(hits[n].name, hits[hits.len() - 1].name));
        order::lemma_before_is_a_strict_order(hits[n].name, c, c);
    } else {
        assert(rest =~= Seq::empty());
    }
}

/// Paging by the last name of each page shows every hit once: what is behind
/// that name is exactly what the page left over.
pub proof fn law_the_next_page_goes_on(hits: Seq<Hit>, n: int)
    requires
        hits_in_order(hits),
        0 < n <= hits.len(),
    ensures
        after_cursor(hits, Some(hits.take(n).last().name)) == hits.skip(n),
        hits.take(n) + hits.skip(n) == hits,
{
    lemma_after_is_a_suffix(hits, n - 1);
    assert(hits.take(n).last() == hits[n - 1]);
    assert(hits.take(n) + hits.skip(n) =~= hits);
}

// ---------------------------------------------------------------------
// The answers
// ---------------------------------------------------------------------

/// What a call answers.
#[derive(Debug)]
pub struct ManageOutput {
    pub ok: bool,
    pub summary: String,
    pub content: String,
}

/// The answer to a load that worked.
pub fn load_output(name: &str) -> (o: ManageOutput)
    ensures
        o.ok,
        o.summary@ == "tool loaded: "@ + name@,
        o.content@ == "tool loaded: "@ + name@ + " — its schema is now offered to the model"@,
{
    let mut summary = "tool loaded: ".to_owned();
    summary.append(name);
    let mut content = summary.as_str().to_owned();
    content.append(" — its schema is now offered to the model");
    ManageOutput { ok: true, summary, content }
}

/// The answer to an unload that worked.
pub fn unload_output(name: &str) -> (o: ManageOutput)
    ensures
        o.ok,
        o.summary@ == "tool unloaded: "@ + name@,
        o.content@ == "tool unloaded: "@ + name@,
{
    let mut summary = "tool unloaded: ".to_owned();
    summary.append(name);
    let content = summary.as_str().to_owned();
    ManageOutput { ok: true, summary, content }
}

/// The answer to an inspection: what the catalog says of the tool, with its
/// schema, or that there is no such tool.
pub fn inspect_output(
    name: &str,
    found: Option<(ToolLifecycle, &str, &str)>,
) -> (o: ManageOutput)
    ensures
        match found {
            Some((state, description, schema)) => {
                &&& o.ok
                &&& o.summary@ == "tool "@ + name@ + ": "@ + registry::lifecycle_name(state)
                &&& o.content@ == "name: "@ + name@ + "\nowner: builtin\nstate: "@
                    + registry::lifecycle_name(state) + "\ndescription: "@ + description@
                    + "\nschema: "@ + schema@
            },
            None => {
                &&& !o.ok
                &&& o.summary@ == "unknown tool: "@ + name@
                &&& o.content@ == "unknown tool: "@ + name@
            },
        },
{
    match found {
        Some((state, description, schema)) => {
            let mut summary = "tool ".to_owned();
            summary.append(name);
            summary.append(": ");
            summary.append(state.as_str());
            let mut content = "name: ".to_owned();
            content.append(name);
            content.append("\nowner: builtin\nstate: ");
            content.append(state.as_str());
            content.append("\ndescription: ");
            content.append(description);
            content.append("\nschema: ");
            content.append(schema);
            ManageOutput { ok: true, summary, content }
        },
        None => {
            let mut summary = "unknown tool: ".to_owned();
            summary.append(name);
            let content = summary.as_str().to_owned();
            ManageOutput { ok: false, summary, content }
        },
    }
}

/// The hits behind a cursor are those whose names come after it, all of them
/// and in their order; without a cursor they are all hits.
pub proof fn law_a_cursor_leaves_the_later_names(hits: Seq<Hit>, cursor: Option<Seq<char>>)
    ensures
        cursor is None ==> after_cursor(hits, cursor) == hits,
        cursor matches Some(c) ==> after_cursor(hits, cursor) == hits.filter(
            |h: Hit| order::before(c, h.name),
        ),
    decreases hits.len(),
{
    reveal(Seq::filter);
    if hits.len() > 0 {
        law_a_cursor_leaves_the_later_names(hits.drop_last(), cursor);
    } else {
        assert(after_cursor(hits, cursor) =~= hits);
    }
}

/// A page counts the hits that are offered, each once.
pub proof fn law_the_offered_hits_are_counted(hits: Seq<Hit>)
    ensures
        active_count(hits) == hits.filter(|h: Hit| registry::is_offered(h.state)).len(),
    decreases hits.len(),
{
    reveal(Seq::filter);
    if hits.len() > 0 {
        law_the_offered_hits_are_counted(hits.drop_last());
    }
}

/// A page has between one and fifty rows, and twenty where the call does not
/// say; it shows the first hits behind the cursor, and says that there is more
/// exactly where some are left.
pub proof fn law_a_page_shows_the_first_hits_behind_the_cursor(
    p: SearchPage,
    hits: Seq<Hit>,
    limit: Option<usize>,
    cursor: Option<Seq<char>>,
)
    requires
        page_is(p, hits, limit, cursor),
    ensures
        ({
            let size = match limit {
                None => 20int,
                Some(n) => if n < 1 {
                    1
                } else if n > 50 {
                    50
                } else {
                    n as int
                },
            };
            let left = match cursor {
                None => hits,
                Some(c) => hits.filter(|h: Hit| order::before(c, h.name)),
            };
            &&& p.returned == if left.len() <= size {
                left.len() as int
            } else {
                size
            }
            &&& p.has_more <==> left.len() > size
            &&& p.names@.len() == p.returned
            &&& forall|k: int|
                0 <= k < p.names@.len() ==> (#[trigger] p.names@[k])@ == left[k].name
            &&& p.returned == 0 ==> p.content@ == "no tools match"@
            &&& p.returned > 0 ==> p.content@ == text::join(
                Seq::new(
                    p.returned as nat,
                    |k: int|
                        registry::lifecycle_name(left[k].state) + "\t"@ + left[k].name + "\t"@
                            + left[k].purpose,
                ),
                "\n"@,
            )
            &&& p.listing is Some <==> hits.len() > size
            &&& p.total == hits.len()
        }),
{
    law_a_cursor_leaves_the_later_names(hits, cursor);
    let left = after_cursor(hits, cursor);
    let page = first_hits(left, page_size(limit));
    assert(text::views(p.names@).len() == hit_names(page).len());
    assert forall|k: int| 0 <= k < p.names@.len() implies (#[trigger] p.names@[k])@
        == left[k].name by {
        assert(text::views(p.names@)[k] == hit_names(page)[k]);
        assert(page[k] == left[k]);
    }
    assert(hit_rows(page) =~= Seq::new(
        p.returned as nat,
        |k: int|
            registry::lifecycle_name(left[k].state) + "\t"@ + left[k].name + "\t"@
                + left[k].purpose,
    ));
}

/// What a call asks for: a search takes the search's arguments as they are,
/// and each other operation names its tool.
pub proof fn law_a_call_is_told_by_its_operation(args: ManageArgs)
    ensures
        args.op@ == "search"@ ==> call_of(args) == Ok::<_, ManageError>(
            ManageCall::Search(
                SearchArgs {
                    query: args.query,
                    role: args.role,
                    limit: args.limit,
                    cursor: args.cursor,
                },
            ),
        ),
        args.op@ == "inspect"@ && args.name is Some ==> call_of(args) == Ok::<_, ManageError>(
            ManageCall::Inspect(args.name->0),
        ),
        args.op@ == "load"@ && args.name is Some ==> call_of(args) == Ok::<_, ManageError>(
            ManageCall::Load(args.name->0),
        ),
        args.op@ == "unload"@ && args.name is Some ==> call_of(args) == Ok::<_, ManageError>(
            ManageCall::Unload(args.name->0),
        ),
        (args.op@ == "inspect"@ || args.op@ == "load"@ || args.op@ == "unload"@) && args.name
            is None ==> (call_of(args) matches Err(ManageError::MissingName(op)) && op@ == args.op@),
        args.op@ != "search"@ && args.op@ != "inspect"@ && args.op@ != "load"@ && args.op@
            != "unload"@ ==> call_of(args) == Err::<ManageCall, _>(ManageError::UnknownOp(args.op)),
{
    reveal_strlit("search");
    reveal_strlit("inspect");
    reveal_strlit("load");
    reveal_strlit("unload");
    assert("search"@[0] == 's' && "inspect"@[0] == 'i' && "load"@[0] == 'l' && "unload"@[0] == 'u');
}

} // verus!
