//! `fs.list`: one page of a directory listing.
//!
//! A listing that does not fit is written down once as a snapshot, and every
//! further page comes from that snapshot.
use crate::cursor;
use crate::cursor::CursorError;
use crate::order;
use crate::outside;
use crate::page;
use crate::text;
use crate::view;
use crate::view::EntryKind;
use vstd::prelude::*;

verus! {

/// How many entries of a directory are scanned.
pub const MAX_LIST_ENTRIES: usize = 2_000;

/// The page size of a call that does not say.
pub fn default_list_limit() -> (r: usize)
    ensures
        r == 200,
{
    200
}

/// A page size within its bounds.
pub open spec fn page_limit(limit: usize) -> usize {
    if limit < 1 {
        1
    } else if limit > MAX_LIST_ENTRIES {
        MAX_LIST_ENTRIES
    } else {
        limit
    }
}

/// Brings a page size within its bounds.
pub fn clamp_limit(limit: usize) -> (r: usize)
    ensures
        r == page_limit(limit),
        1 <= r <= MAX_LIST_ENTRIES,
{
    if limit < 1 {
        1
    } else if limit > MAX_LIST_ENTRIES {
        MAX_LIST_ENTRIES
    } else {
        limit
    }
}

/// The word for the kind of an entry.
pub open spec fn kind_name(kind: EntryKind) -> Seq<char> {
    match kind {
        EntryKind::Dir => "dir"@,
        EntryKind::File => "file"@,
        EntryKind::Other => "other"@,
        EntryKind::Unknown => "unknown"@,
    }
}

/// One entry of a listing.
pub open spec fn entry_text(kind: EntryKind, name: Seq<char>) -> Seq<char> {
    kind_name(kind) + "\t"@ + name
}

/// What the scan does with the name of the next entry.
#[derive(Clone, Copy, Debug, PartialEq, Eq, Structural)]
pub enum Admission {
    /// Pass it over.
    Hidden,
    /// The entry budget is spent: end the scan.
    Full,
    /// Find out its kind and add it.
    Visible,
}

/// A directory as far as it was scanned.
pub struct ListScan {
    pub entries: Vec<String>,
    /// Whether the entry budget ended the scan early.
    pub incomplete: bool,
}

impl ListScan {
    /// A scan that has not seen anything.
    pub fn new() -> (r: ListScan)
        ensures
            r.entries@ == Seq::<String>::empty(),
            !r.incomplete,
    {
        ListScan { entries: Vec::new(), incomplete: false }
    }

    /// Decides on the next name.
    pub fn consider(&mut self, name: &str) -> (r: Admission)
        ensures
            r == if view::hidden_name(name@) {
                Admission::Hidden
            } else if old(self).entries@.len() >= MAX_LIST_ENTRIES {
                Admission::Full
            } else {
                Admission::Visible
            },
            final(self).entries@ == old(self).entries@,
            final(self).incomplete == (old(self).incomplete || r == Admission::Full),
    {
        if view::is_hidden_name(name) {
            return Admission::Hidden;
        }
        if self.entries.len() >= MAX_LIST_ENTRIES {
            self.incomplete = true;
            return Admission::Full;
        }
        Admission::Visible
    }

    /// Adds a visible entry.
    pub fn add_entry(&mut self, name: &str, kind: EntryKind)
        ensures
            text::views(final(self).entries@) == text::views(old(self).entries@).push(
                entry_text(kind, name@),
            ),
            final(self).incomplete == old(self).incomplete,
    {
        let mut entry = match kind {
            EntryKind::Dir => "dir".to_owned(),
            EntryKind::File => "file".to_owned(),
            EntryKind::Other => "other".to_owned(),
            EntryKind::Unknown => "unknown".to_owned(),
        };
        entry.append("\t");
        entry.append(name);
        proof {
            text::lemma_views_push(self.entries@, entry);
        }
        self.entries.push(entry);
    }

    /// Ends the scan: the listing in its order.
    pub fn finish(self) -> (r: Listing)
        ensures
            r.incomplete == self.incomplete,
            order::is_sorted(text::views(r.entries@)),
            text::views(r.entries@).to_multiset() == text::views(self.entries@).to_multiset(),
    {
        Listing { entries: order::sort(self.entries), incomplete: self.incomplete }
    }
}

/// A finished scan.
pub struct Listing {
    pub entries: Vec<String>,
    pub incomplete: bool,
}

/// The listing as one text: what a snapshot holds and what identifies the
/// directory's state, whatever the page shows of it.
pub open spec fn full_text(entries: Seq<Seq<char>>) -> Seq<char> {
    text::join(entries, "\n"@)
}

/// One page of a listing and what it says about the rest.
#[derive(Debug)]
pub struct ListPage {
    pub body: String,
    pub summary: String,
    /// The listed directory, `.` for the root.
    pub path: String,
    pub revision: String,
    pub entry_count: usize,
    pub returned: usize,
    pub has_more: bool,
    pub next_start_line: Option<usize>,
    pub cursor: Option<String>,
    pub scan_incomplete: bool,
}

/// Whether a listing needs a snapshot for its further pages.
pub open spec fn overflows(entries: Seq<Seq<char>>, limit: usize) -> bool {
    entries.len() > limit
}

/// How many entries the first page shows.
pub open spec fn shown(entries: Seq<Seq<char>>, limit: usize) -> int {
    if overflows(entries, limit) {
        limit as int
    } else {
        entries.len() as int
    }
}

/// The listed directory as the page names it.
pub open spec fn listed_path(relative: Seq<char>) -> Seq<char> {
    if relative.len() == 0 {
        "."@
    } else {
        relative
    }
}

/// What a page states about its coverage: that the scan was cut short, and
/// how to read on.
pub open spec fn list_clauses(
    entries: Seq<Seq<char>>,
    incomplete: bool,
    limit: usize,
    relative: Seq<char>,
    reference: Option<Seq<char>>,
) -> Seq<Seq<char>> {
    let partial = if incomplete {
        seq![
            "PARTIAL listing: directory entry budget reached; "@ + (if entries.len() == 0 {
                "this is not an empty directory"@
            } else {
                "this is not the complete directory"@
            }) + " ("@ + listed_path(relative) + ")"@,
        ]
    } else {
        Seq::empty()
    };
    let more = match reference {
        Some(r) => seq![
            "continue with artifact.read reference="@ + r + " start_line="@ + text::dec(
                (shown(entries, limit) + 1) as nat,
            ),
        ],
        None => Seq::empty(),
    };
    partial + more
}

/// The first page of a listing. `reference` names the snapshot where one was
/// needed.
pub open spec fn list_page_is(
    p: ListPage,
    entries: Seq<Seq<char>>,
    incomplete: bool,
    limit: usize,
    relative: Seq<char>,
    reference: Option<Seq<char>>,
) -> bool {
    let n = shown(entries, limit);
    let visible = if entries.len() == 0 && incomplete {
        "no entries in the scanned prefix"@
    } else {
        text::join(entries.take(n), "\n"@)
    };
    &&& p.body@ == page::with_footer(
        visible,
        page::footer_of(list_clauses(entries, incomplete, limit, relative, reference)),
    )
    &&& p.summary@ == "listed "@ + text::dec(entries.len()) + " entries in "@ + relative + (
    if incomplete {
        " (PARTIAL scan: directory entry budget reached; do not treat this as the complete directory)"@
    } else {
        ""@
    })
    &&& p.path@ == listed_path(relative)
    &&& p.revision@ == outside::sha256_hex(vstd::utf8::encode_utf8(full_text(entries)))
    &&& p.entry_count == entries.len()
    &&& p.returned == n
    &&& p.has_more == reference is Some
    &&& match reference {
        Some(r) => {
            &&& p.next_start_line == Some((n + 1) as usize)
            &&& p.cursor matches Some(c) && c@ == cursor::cursor_text(r, limit as nat)
        },
        None => p.next_start_line is None && p.cursor is None,
    }
    &&& p.scan_incomplete == incomplete
}

/// The text a snapshot of the listing holds, where one is needed.
pub fn snapshot_text(listing: &Listing, limit: usize) -> (r: Option<String>)
    ensures
        match r {
            Some(t) => overflows(text::views(listing.entries@), limit) && t@ == full_text(
                text::views(listing.entries@),
            ),
            None => !overflows(text::views(listing.entries@), limit),
        },
{
    if listing.entries.len() > limit {
        Some(text::join_strings(&listing.entries, "\n"))
    } else {
        None
    }
}

/// Renders the first page of a listing.
pub fn list_page(
    listing: &Listing,
    limit: usize,
    relative: &str,
    reference: Option<&str>,
) -> (p: ListPage)
    requires
        listing.entries@.len() < usize::MAX,
        reference is Some == overflows(text::views(listing.entries@), limit),
    ensures
        list_page_is(
            p,
            text::views(listing.entries@),
            listing.incomplete,
            limit,
            relative@,
            match reference {
                Some(r) => Some(r@),
                None => None,
            },
        ),
{
    let total: usize = listing.entries.len();
    let n: usize = if total > limit {
        limit
    } else {
        total
    };
    let ghost entries = text::views(listing.entries@);
    let listed = if relative.is_empty() {
        ".".to_owned()
    } else {
        relative.to_owned()
    };
    let full = text::join_strings(&listing.entries, "\n");
    let mut clauses: Vec<String> = Vec::new();
    if listing.incomplete {
        let mut c = "PARTIAL listing: directory entry budget reached; ".to_owned();
        if total == 0 {
            c.append("this is not an empty directory");
        } else {
            c.append("this is not the complete directory");
        }
        c.append(" (");
        c.append(listed.as_str());
        c.append(")");
        clauses.push(c);
        assert(text::views(clauses@) =~= seq![c@]);
    }
    let mut cursor: Option<String> = None;
    let mut next_start_line: Option<usize> = None;
    if let Some(r) = reference {
        let mut c = "continue with artifact.read reference=".to_owned();
        c.append(r);
        c.append(" start_line=");
        text::push_dec(&mut c, (n + 1) as u64);
        proof {
            text::lemma_views_push(clauses@, c);
        }
        clauses.push(c);
        cursor = Some(cursor::format_cursor(r, limit));
        next_start_line = Some(n + 1);
    }
    let ghost named = match reference {
        Some(r) => Some(r@),
        None => None,
    };
    assert(text::views(clauses@) =~= list_clauses(
        entries,
        listing.incomplete,
        limit,
        relative@,
        named,
    ));
    let visible = if total == 0 && listing.incomplete {
        "no entries in the scanned prefix".to_owned()
    } else {
        let t = cursor::join_lines(&listing.entries, 0, n);
        assert(entries.subrange(0, n as int) =~= entries.take(n as int));
        t
    };
    let mut summary = "listed ".to_owned();
    text::push_dec(&mut summary, total as u64);
    summary.append(" entries in ");
    summary.append(relative);
    if listing.incomplete {
        summary.append(
            " (PARTIAL scan: directory entry budget reached; do not treat this as the complete directory)",
        );
    } else {
        summary.append("");
    }
    let footer = page::coverage_footer(&clauses);
    ListPage {
        body: page::with_coverage_footer(visible, footer),
        summary,
        path: listed,
        revision: outside::sha256(full.as_str().as_bytes()),
        entry_count: total,
        returned: n,
        has_more: reference.is_some(),
        next_start_line,
        cursor,
        scan_incomplete: listing.incomplete,
    }
}

// ---------------------------------------------------------------------
// Further pages
// ---------------------------------------------------------------------

/// One page of a snapshot.
#[derive(Debug)]
pub struct SnapshotPage {
    pub body: String,
    pub summary: String,
    pub reference: String,
    pub entry_count: usize,
    pub returned: usize,
    pub has_more: bool,
    pub cursor: Option<String>,
}

/// What a page of a snapshot states about its coverage: its range and its
/// continuation, or that the listing ends with it.
pub open spec fn snapshot_clause(
    tool: Seq<char>,
    total: nat,
    reference: Seq<char>,
    offset: nat,
    next: nat,
) -> Seq<char> {
    if next < total {
        "entries "@ + text::dec(offset + 1) + "-"@ + text::dec(next) + " of "@ + text::dec(total)
            + " (snapshot "@ + reference + "); continue with "@ + tool + " cursor="@ + reference
            + "#"@ + text::dec(next)
    } else {
        "end of listing ("@ + text::dec(next) + " total, snapshot "@ + reference + ")"@
    }
}

/// A page of a snapshot from `offset` on.
pub open spec fn snapshot_page_is(
    p: SnapshotPage,
    lines: Seq<Seq<char>>,
    reference: Seq<char>,
    offset: nat,
    limit: nat,
) -> bool {
    let next = cursor::page_end(lines.len() as int, offset as int, limit as int) as nat;
    let shown = lines.subrange(offset as int, next as int);
    &&& p.body@ == page::with_footer(
        if shown.len() == 0 {
            "no more entries"@
        } else {
            text::join(shown, "\n"@)
        },
        page::footer_of(
            seq![snapshot_clause("fs.list"@, lines.len(), reference, offset, next)],
        ),
    )
    &&& p.summary@ == "listed entries "@ + text::dec(offset + 1) + "-"@ + text::dec(next)
        + " of "@ + text::dec(lines.len()) + " (snapshot)"@
    &&& p.reference@ == reference
    &&& p.entry_count == lines.len()
    &&& p.returned == shown.len()
    &&& p.has_more == (next < lines.len())
    &&& match p.cursor {
        Some(c) => p.has_more && c@ == cursor::cursor_text(reference, next),
        None => !p.has_more,
    }
}

/// Renders a page of a snapshot.
pub fn snapshot_page(
    lines: &Vec<String>,
    reference: &str,
    offset: usize,
    limit: usize,
) -> (r: Result<SnapshotPage, CursorError>)
    requires
        lines@.len() < usize::MAX,
    ensures
        match r {
            Ok(p) => offset <= lines@.len() && snapshot_page_is(
                p,
                text::views(lines@),
                reference@,
                offset as nat,
                limit as nat,
            ),
            Err(e) => offset > lines@.len() && e == (CursorError::PastEnd {
                offset,
                total: lines@.len() as usize,
            }),
        },
{
    let total: usize = lines.len();
    if offset > total {
        return Err(CursorError::PastEnd { offset, total });
    }
    let next: usize = if limit <= total - offset {
        offset + limit
    } else {
        total
    };
    let has_more = next < total;
    let mut clause = String::new();
    if has_more {
        clause = "entries ".to_owned();
        text::push_dec(&mut clause, (offset + 1) as u64);
        clause.append("-");
        text::push_dec(&mut clause, next as u64);
        clause.append(" of ");
        text::push_dec(&mut clause, total as u64);
        clause.append(" (snapshot ");
        clause.append(reference);
        clause.append("); continue with ");
        clause.append("fs.list");
        clause.append(" cursor=");
        clause.append(reference);
        clause.append("#");
        text::push_dec(&mut clause, next as u64);
    } else {
        clause = "end of listing (".to_owned();
        text::push_dec(&mut clause, next as u64);
        clause.append(" total, snapshot ");
        clause.append(reference);
        clause.append(")");
    }
    let mut clauses: Vec<String> = Vec::new();
    clauses.push(clause);
    assert(text::views(clauses@) =~= seq![clause@]);
    let footer = page::coverage_footer(&clauses);
    let shown = if next == offset {
        "no more entries".to_owned()
    } else {
        cursor::join_lines(lines, offset, next)
    };
    let mut summary = "listed entries ".to_owned();
    text::push_dec(&mut summary, (offset + 1) as u64);
    summary.append("-");
    text::push_dec(&mut summary, next as u64);
    summary.append(" of ");
    text::push_dec(&mut summary, total as u64);
    summary.append(" (snapshot)");
    let cursor = if has_more {
        Some(cursor::format_cursor(reference, next))
    } else {
        None
    };
    Ok(
        SnapshotPage {
            body: page::with_coverage_footer(shown, footer),
            summary,
            reference: reference.to_owned(),
            entry_count: total,
            returned: next - offset,
            has_more,
            cursor,
        },
    )
}

/// A page of a listing holds between one and two thousand entries.
pub proof fn law_a_page_has_its_limit(limit: usize)
    ensures
        1 <= page_limit(limit) <= 2_000,
        limit < 1 ==> page_limit(limit) == 1,
        1 <= limit <= 2_000 ==> page_limit(limit) == limit,
        limit > 2_000 ==> page_limit(limit) == 2_000,
        MAX_LIST_ENTRIES == 2_000,
{
}

/// The first page shows the first entries in order, as many as its limit
/// allows; it continues exactly where entries are left, at the first of them,
/// and says so where the scan was cut.
pub proof fn law_the_first_page_shows_the_first_entries(
    p: ListPage,
    entries: Seq<Seq<char>>,
    incomplete: bool,
    limit: usize,
    relative: Seq<char>,
    reference: Option<Seq<char>>,
)
    requires
        list_page_is(p, entries, incomplete, limit, relative, reference),
        reference is Some <==> overflows(entries, limit),
        entries.len() < usize::MAX,
    ensures
        ({
            let n = if entries.len() > limit {
                limit as int
            } else {
                entries.len() as int
            };
            &&& p.returned == n
            &&& p.entry_count == entries.len()
            &&& p.has_more <==> entries.len() > limit
            &&& p.next_start_line is Some <==> p.has_more
            &&& p.next_start_line matches Some(next) ==> next == n + 1
            &&& p.cursor is Some <==> p.has_more
            &&& p.cursor matches Some(c) ==> cursor::cursor_meaning(c@) == Ok::<_, CursorError>(
                (reference->0, n as nat),
            )
            &&& p.scan_incomplete == incomplete
            &&& !incomplete && entries.len() <= limit ==> p.body@ == text::join(entries, "\n"@)
            &&& !incomplete && entries.len() > limit ==> p.body@ == text::join(
                entries.take(limit as int),
                "\n"@,
            ) + "\n[coverage] continue with artifact.read reference="@ + reference->0
                + " start_line="@ + text::dec((limit + 1) as nat)
            &&& incomplete && entries.len() > 0 ==> text::join(entries.take(n), "\n"@).is_prefix_of(
                p.body@,
            ) && p.body@.len() > text::join(entries.take(n), "\n"@).len()
        }),
{
    if !incomplete && entries.len() <= limit {
        assert(entries.take(entries.len() as int) =~= entries);
    }
    if reference is Some {
        cursor::law_a_cursor_reads_back(reference->0, limit as nat);
    }
    if !incomplete && entries.len() > limit {
        let clause = "continue with artifact.read reference="@ + reference->0 + " start_line="@
            + text::dec((limit + 1) as nat);
        assert(list_clauses(entries, incomplete, limit, relative, reference) =~= seq![clause]);
        page::law_a_footer_names_every_clause(
            text::join(entries.take(limit as int), "\n"@),
            seq![clause],
        );
        text::law_joining_goes_part_by_part(seq![clause], "; "@);
        reveal_strlit("\n[coverage] ");
        reveal_strlit("\n[coverage] continue with artifact.read reference=");
        reveal_strlit("continue with artifact.read reference=");
        assert("\n[coverage] continue with artifact.read reference="@ =~= "\n[coverage] "@
            + "continue with artifact.read reference="@);
        assert(p.body@ =~= text::join(entries.take(limit as int), "\n"@)
            + "\n[coverage] continue with artifact.read reference="@ + reference->0
            + " start_line="@ + text::dec((limit + 1) as nat));
    }
    if incomplete && entries.len() > 0 {
        let shown = text::join(entries.take(shown(entries, limit)), "\n"@);
        reveal_strlit("\n");
        assert(shown =~= p.body@.subrange(0, shown.len() as int));
    }
}

/// A later page shows the entries from its offset on, as many as its limit
/// allows, and its cursor names the first entry behind them.
pub proof fn law_a_later_page_goes_on(
    p: SnapshotPage,
    lines: Seq<Seq<char>>,
    reference: Seq<char>,
    offset: nat,
    limit: nat,
)
    requires
        snapshot_page_is(p, lines, reference, offset, limit),
        offset < lines.len() <= usize::MAX,
        0 < limit,
    ensures
        p.returned == if lines.len() - offset <= limit {
            lines.len() - offset
        } else {
            limit as int
        },
        p.entry_count == lines.len(),
        p.has_more <==> offset + limit < lines.len(),
        text::join(
            lines.subrange(offset as int, offset as int + p.returned),
            "\n"@,
        ).is_prefix_of(p.body@),
        p.has_more ==> p.cursor is Some && cursor::cursor_meaning(p.cursor->0@) == Ok::<
            _,
            CursorError,
        >((reference, offset + limit)),
        !p.has_more ==> p.cursor is None,
{
    if p.has_more {
        cursor::law_a_cursor_reads_back(reference, offset + limit);
    }
    let shown = text::join(lines.subrange(offset as int, offset as int + p.returned), "\n"@);
    assert(shown =~= p.body@.subrange(0, shown.len() as int));
}

/// An entry is its kind and its name, with a tab between.
pub proof fn law_an_entry_is_its_kind_and_name(name: Seq<char>)
    ensures
        entry_text(EntryKind::Dir, name) == "dir\t"@ + name,
        entry_text(EntryKind::File, name) == "file\t"@ + name,
        entry_text(EntryKind::Other, name) == "other\t"@ + name,
        entry_text(EntryKind::Unknown, name) == "unknown\t"@ + name,
{
    reveal_strlit("dir");
    reveal_strlit("file");
    reveal_strlit("other");
    reveal_strlit("unknown");
    reveal_strlit("\t");
    reveal_strlit("dir\t");
    reveal_strlit("file\t");
    reveal_strlit("other\t");
    reveal_strlit("unknown\t");
    assert("dir\t"@ =~= "dir"@ + "\t"@);
    assert("file\t"@ =~= "file"@ + "\t"@);
    assert("other\t"@ =~= "other"@ + "\t"@);
    assert("unknown\t"@ =~= "unknown"@ + "\t"@);
}

/// The directory at the root is shown as a dot, and any other by its path.
pub proof fn law_the_root_is_shown_as_a_dot(relative: Seq<char>)
    ensures
        relative.len() == 0 ==> listed_path(relative) == seq!['.'],
        relative.len() > 0 ==> listed_path(relative) == relative,
{
    reveal_strlit(".");
    assert("."@ =~= seq!['.']);
}

/// A listing that was cut says so first, and does not pass for an empty
/// directory where nothing was seen.
pub proof fn law_a_cut_listing_says_so(
    entries: Seq<Seq<char>>,
    limit: usize,
    relative: Seq<char>,
    reference: Option<Seq<char>>,
)
    ensures
        ({
            let cut = list_clauses(entries, true, limit, relative, reference);
            let whole = list_clauses(entries, false, limit, relative, reference);
            &&& cut.len() == whole.len() + 1
            &&& cut.skip(1) == whole
            &&& entries.len() == 0 ==> cut[0]
                == "PARTIAL listing: directory entry budget reached; "@
                + "this is not an empty directory"@ + " ("@ + listed_path(relative) + ")"@
            &&& entries.len() > 0 ==> cut[0]
                == "PARTIAL listing: directory entry budget reached; "@
                + "this is not the complete directory"@ + " ("@ + listed_path(relative) + ")"@
            &&& reference is None ==> whole.len() == 0
            &&& reference is Some ==> whole == seq![
                "continue with artifact.read reference="@ + reference->0 + " start_line="@
                    + text::dec((shown(entries, limit) + 1) as nat),
            ]
        }),
{
    let cut = list_clauses(entries, true, limit, relative, reference);
    let whole = list_clauses(entries, false, limit, relative, reference);
    assert(cut.skip(1) =~= whole);
}

/// A later page names the entries that it shows, and continues at the next
/// one exactly where there is one.
pub proof fn law_a_later_page_names_its_entries(
    p: SnapshotPage,
    lines: Seq<Seq<char>>,
    reference: Seq<char>,
    offset: nat,
    limit: nat,
)
    requires
        snapshot_page_is(p, lines, reference, offset, limit),
        offset < lines.len() <= usize::MAX,
        0 < limit,
    ensures
        p.summary@ == "listed entries "@ + text::dec(offset + 1) + "-"@ + text::dec(
            (offset + p.returned) as nat,
        ) + " of "@ + text::dec(lines.len()) + " (snapshot)"@,
        p.has_more ==> snapshot_clause(
            "fs.list"@,
            lines.len(),
            reference,
            offset,
            (offset + p.returned) as nat,
        ) == "entries "@ + text::dec(offset + 1) + "-"@ + text::dec((offset + p.returned) as nat)
            + " of "@ + text::dec(lines.len()) + " (snapshot "@ + reference
            + "); continue with fs.list cursor="@ + reference + "#"@ + text::dec(
            (offset + p.returned) as nat,
        ),
        !p.has_more ==> snapshot_clause(
            "fs.list"@,
            lines.len(),
            reference,
            offset,
            (offset + p.returned) as nat,
        ) == "end of listing ("@ + text::dec(lines.len()) + " total, snapshot "@ + reference
            + ")"@,
{
    reveal_strlit("); continue with fs.list cursor=");
    reveal_strlit("); continue with ");
    reveal_strlit("fs.list");
    reveal_strlit(" cursor=");
    assert("); continue with fs.list cursor="@ =~= "); continue with "@ + "fs.list"@
        + " cursor="@);
    if p.has_more {
        let next = (offset + p.returned) as nat;
        assert(snapshot_clause("fs.list"@, lines.len(), reference, offset, next) =~= "entries "@
            + text::dec(offset + 1) + "-"@ + text::dec(next) + " of "@ + text::dec(lines.len())
            + " (snapshot "@ + reference + "); continue with fs.list cursor="@ + reference + "#"@
            + text::dec(next));
    }
}

} // verus!
