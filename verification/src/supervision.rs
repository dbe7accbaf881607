//! The ledger of child processes: who is recorded, who may be released, and
//! who may be ended when a new host starts.
use crate::order;
use crate::outside;
use crate::outside::{json_object, json_written, JsonField};
use crate::text;
use vstd::prelude::*;

verus! {

/// The most rows a ledger holds.
pub const MAX_LEDGER_ROWS: usize = 256;

/// The largest ledger file, in bytes.
pub const MAX_LEDGER_BYTES: usize = 65_536;

/// The longest a waiter tries to become the holder of the ledger's lock, in
/// milliseconds.
pub const LOCK_WAIT_TIMEOUT_MS: u64 = 2_000;

/// The first pause between two attempts, in milliseconds.
pub const LOCK_FIRST_BACKOFF_MS: u64 = 25;

/// The longest pause between two attempts, in milliseconds.
pub const LOCK_MAX_BACKOFF_MS: u64 = 250;

// ---------------------------------------------------------------------
// Where the ledger lies
// ---------------------------------------------------------------------

/// A path with one more part behind it.
pub open spec fn joined(base: Seq<char>, part: Seq<char>) -> Seq<char> {
    if base.len() == 0 || base.last() == '/' {
        base + part
    } else {
        base + "/"@ + part
    }
}

fn push_part(path: &mut String, part: &str)
    ensures
        final(path)@ == joined(old(path)@, part@),
{
    let chars = text::chars_of(path.as_str());
    let n: usize = chars.len();
    if n > 0 && chars[n - 1] != '/' {
        path.append("/");
    }
    path.append(part);
}

/// The ledger's path under the state directory.
pub fn ledger_path(state_dir: &str) -> (path: String)
    ensures
        path@ == joined(joined(state_dir@, "authority"@), "host-children.jsonl"@),
{
    let mut path = state_dir.to_owned();
    push_part(&mut path, "authority");
    push_part(&mut path, "host-children.jsonl");
    path
}

// ---------------------------------------------------------------------
// Failures
// ---------------------------------------------------------------------

/// Why a ledger could not be used. None of these means that no child is
/// pending.
#[derive(Debug)]
pub enum LedgerError {
    /// Reading, writing or locking failed.
    Io { action: &'static str, detail: String },
    /// A line is no row; lines are counted from 1.
    Corrupt { line: usize },
    /// One more row would exceed a bound.
    OverLimit { rows: usize },
    /// Process 0 cannot be a child.
    InvalidPid,
}

pub type LedgerResult<T> = Result<T, LedgerError>;

/// What a failure says.
pub open spec fn ledger_error_text(e: LedgerError) -> Seq<char> {
    match e {
        LedgerError::Io { action, detail } => "supervision ledger "@ + action@ + " failed: "@
            + detail@,
        LedgerError::Corrupt { line } => "supervision ledger line "@ + text::dec(line as nat)
            + " is not a valid row"@,
        LedgerError::OverLimit { rows } => "supervision ledger is full ("@ + text::dec(rows as nat)
            + " rows); refusing to record another unsupervisable child"@,
        LedgerError::InvalidPid => "pid 0 cannot be a supervised child"@,
    }
}

impl LedgerError {
    /// The failure in words.
    pub fn message(&self) -> (out: String)
        ensures
            out@ == ledger_error_text(*self),
    {
        let mut out = String::new();
        match self {
            LedgerError::Io { action, detail } => {
                out.append("supervision ledger ");
                out.append(action);
                out.append(" failed: ");
                out.append(detail.as_str());
            },
            LedgerError::Corrupt { line } => {
                out.append("supervision ledger line ");
                text::push_dec(&mut out, *line as u64);
                out.append(" is not a valid row");
            },
            LedgerError::OverLimit { rows } => {
                out.append("supervision ledger is full (");
                text::push_dec(&mut out, *rows as u64);
                out.append(" rows); refusing to record another unsupervisable child");
            },
            LedgerError::InvalidPid => {
                out.append("pid 0 cannot be a supervised child");
            },
        }
        assert(out@ =~= ledger_error_text(*self));
        out
    }
}

// ---------------------------------------------------------------------
// Rows
// ---------------------------------------------------------------------

/// One recorded child. Without an identity a row is never trusted with a
/// kill.
#[derive(Debug, Clone, PartialEq, Eq)]
pub struct LedgerRow {
    pub pid: u32,
    pub identity: Option<String>,
    pub purpose: String,
}

/// One recorded child as a value.
pub struct Row {
    pub pid: u32,
    pub identity: Option<Seq<char>>,
    pub purpose: Seq<char>,
}

/// A text that may be missing, as a value.
pub open spec fn opt_view(s: Option<String>) -> Option<Seq<char>> {
    match s {
        Some(s) => Some(s@),
        None => None,
    }
}

impl View for LedgerRow {
    type V = Row;

    open spec fn view(&self) -> Row {
        Row { pid: self.pid, identity: opt_view(self.identity), purpose: self.purpose@ }
    }
}

/// A list of recorded children as values.
pub open spec fn row_views(rows: Seq<LedgerRow>) -> Seq<Row> {
    Seq::new(rows.len(), |i: int| rows[i]@)
}

/// The member of that name.
pub open spec fn member(
    members: Seq<(Seq<char>, outside::JsonValue)>,
    key: Seq<char>,
) -> Option<outside::JsonValue>
    decreases members.len(),
{
    if members.len() == 0 {
        None
    } else if members[0].0 == key {
        Some(members[0].1)
    } else {
        member(members.drop_first(), key)
    }
}

/// The text of a member, where it is a text.
pub open spec fn text_member(
    members: Seq<(Seq<char>, outside::JsonValue)>,
    key: Seq<char>,
) -> Option<Seq<char>> {
    match member(members, key) {
        Some(outside::JsonValue::Text(s)) => Some(s),
        _ => None,
    }
}

/// The row that the members of an object describe. It needs a process number
/// that fits; an identity that is no text counts as missing, and so does the
/// purpose.
pub open spec fn row_of_members(members: Seq<(Seq<char>, outside::JsonValue)>) -> Option<Row> {
    match member(members, "pid"@) {
        Some(outside::JsonValue::Unsigned(pid)) => if pid <= u32::MAX {
            Some(
                Row {
                    pid: pid as u32,
                    identity: text_member(members, "identity"@),
                    purpose: match text_member(members, "purpose"@) {
                        Some(s) => s,
                        None => "unknown"@,
                    },
                },
            )
        } else {
            None
        },
        _ => None,
    }
}

/// The row that a line holds.
pub open spec fn row_of_line(line: Seq<char>) -> Option<Row> {
    match outside::json_members(line) {
        Some(members) => row_of_members(members),
        None => None,
    }
}

fn find_member(members: &Vec<(String, JsonField)>, key: &str) -> (r: Option<usize>)
    ensures
        match r {
            Some(i) => i < members@.len() && member(outside::member_views(members@), key@) == Some(
                members@[i as int].1@,
            ),
            None => member(outside::member_views(members@), key@) is None,
        },
{
    let ghost all = outside::member_views(members@);
    let mut i: usize = 0;
    assert(all.skip(0) =~= all);
    while i < members.len()
        invariant
            all == outside::member_views(members@),
            i <= members@.len(),
            member(all, key@) == member(all.skip(i as int), key@),
        decreases members@.len() - i,
    {
        assert(all.skip(i as int)[0] == all[i as int]);
        if text::same(members[i].0.as_str(), key) {
            return Some(i);
        }
        assert(all.skip(i as int).drop_first() =~= all.skip(i + 1));
        i += 1;
    }
    None
}

fn find_text(members: &Vec<(String, JsonField)>, key: &str) -> (r: Option<String>)
    ensures
        opt_view(r) == text_member(outside::member_views(members@), key@),
{
    match find_member(members, key) {
        Some(i) => match &members[i].1 {
            JsonField::Text(s) => Some(s.as_str().to_owned()),
            _ => None,
        },
        None => None,
    }
}

/// The row that the members of an object describe.
pub fn read_members(members: &Vec<(String, JsonField)>) -> (r: Option<LedgerRow>)
    ensures
        match r {
            Some(row) => row_of_members(outside::member_views(members@)) == Some(row@),
            None => row_of_members(outside::member_views(members@)) is None,
        },
{
    let pid: u32 = match find_member(members, "pid") {
        Some(i) => match &members[i].1 {
            JsonField::Unsigned(n) => {
                if *n > u32::MAX as u64 {
                    return None;
                }
                *n as u32
            },
            _ => {
                return None;
            },
        },
        None => {
            return None;
        },
    };
    let identity = find_text(members, "identity");
    let purpose = match find_text(members, "purpose") {
        Some(s) => s,
        None => "unknown".to_owned(),
    };
    Some(LedgerRow { pid, identity, purpose })
}

/// The row that a line holds; without one, the failure names the line.
pub fn parse_row(line: &str, index: usize) -> (r: LedgerResult<LedgerRow>)
    ensures
        match r {
            Ok(row) => row_of_line(line@) == Some(row@),
            Err(e) => row_of_line(line@) is None && e == (LedgerError::Corrupt { line: index }),
        },
{
    match json_object(line) {
        Some(members) => match read_members(&members) {
            Some(row) => Ok(row),
            None => Err(LedgerError::Corrupt { line: index }),
        },
        None => Err(LedgerError::Corrupt { line: index }),
    }
}

/// The members that describe a row, in the order of their names.
pub open spec fn members_of_row(row: Row) -> Seq<(Seq<char>, outside::JsonValue)> {
    seq![
        (
            "identity"@,
            match row.identity {
                Some(token) => outside::JsonValue::Text(token),
                None => outside::JsonValue::Null,
            },
        ),
        ("pid"@, outside::JsonValue::Unsigned(row.pid as u64)),
        ("purpose"@, outside::JsonValue::Text(row.purpose)),
    ]
}

/// How a row is written.
pub open spec fn row_text(row: Row) -> Seq<char> {
    outside::json_object_text(members_of_row(row))
}

proof fn lemma_row_is_writable(row: Row)
    ensures
        outside::json_writable(members_of_row(row)),
{
    reveal_strlit("identity");
    reveal_strlit("pid");
    reveal_strlit("purpose");
    let m = members_of_row(row);
    assert("identity"@[0] == 'i' && "pid"@[0] == 'p' && "purpose"@[0] == 'p');
    assert(order::before(m[0].0, m[1].0));
    assert(order::before(m[0].0, m[2].0));
    assert("pid"@.drop_first()[0] == 'i');
    assert("purpose"@.drop_first()[0] == 'u');
    assert(order::before("pid"@.drop_first(), "purpose"@.drop_first()));
    assert(order::before(m[1].0, m[2].0));
}

proof fn lemma_members_describe_the_row(row: Row)
    ensures
        row_of_members(members_of_row(row)) == Some(row),
{
    reveal_strlit("identity");
    reveal_strlit("pid");
    reveal_strlit("purpose");
    let m = members_of_row(row);
    assert("identity"@.len() == 8 && "pid"@.len() == 3 && "purpose"@.len() == 7);
    assert(m.drop_first()[0] == m[1]);
    assert(m.drop_first().drop_first()[0] == m[2]);
    reveal_with_fuel(member, 4);
}

/// A row as one line of the ledger. Reading the line gives the row back.
pub fn encode_row(row: &LedgerRow) -> (line: String)
    ensures
        line@ == row_text(row@),
        unbroken(line@),
        row_of_line(line@) == Some(row@),
{
    let mut members: Vec<(String, JsonField)> = Vec::new();
    let identity = match &row.identity {
        Some(token) => JsonField::Text(token.as_str().to_owned()),
        None => JsonField::Null,
    };
    members.push(("identity".to_owned(), identity));
    members.push(("pid".to_owned(), JsonField::Unsigned(row.pid as u64)));
    members.push(("purpose".to_owned(), JsonField::Text(row.purpose.as_str().to_owned())));
    proof {
        assert(outside::member_views(members@) =~= members_of_row(row@));
        lemma_row_is_writable(row@);
        lemma_members_describe_the_row(row@);
        lemma_row_text(row@);
    }
    json_written(members)
}

// ---------------------------------------------------------------------
// The whole ledger
// ---------------------------------------------------------------------

/// The rows in a list of lines. Blank lines are skipped, the first line that
/// is no row fails the reading, and so does a row beyond the last allowed
/// one.
pub open spec fn rows_of_lines(lines: Seq<Seq<char>>) -> LedgerResult<Seq<Row>>
    decreases lines.len(),
{
    if lines.len() == 0 {
        Ok(Seq::empty())
    } else {
        match rows_of_lines(lines.drop_last()) {
            Err(e) => Err(e),
            Ok(rows) => if text::trim(lines.last()).len() == 0 {
                Ok(rows)
            } else if rows.len() >= MAX_LEDGER_ROWS {
                Err(LedgerError::OverLimit { rows: rows.len() as usize })
            } else {
                match row_of_line(lines.last()) {
                    Some(row) => Ok(rows.push(row)),
                    None => Err(LedgerError::Corrupt { line: lines.len() as usize }),
                }
            },
        }
    }
}

/// The rows in the text of a ledger.
pub open spec fn rows_of_text(content: Seq<char>) -> LedgerResult<Seq<Row>> {
    if text::byte_len(content) > MAX_LEDGER_BYTES {
        Err(LedgerError::OverLimit { rows: 0 })
    } else {
        rows_of_lines(text::lines(content))
    }
}

proof fn lemma_first_failure_stays(lines: Seq<Seq<char>>, n: int)
    requires
        0 <= n <= lines.len(),
        rows_of_lines(lines.take(n)) is Err,
    ensures
        rows_of_lines(lines) == rows_of_lines(lines.take(n)),
    decreases lines.len(),
{
    if n < lines.len() {
        assert(lines.drop_last().take(n) =~= lines.take(n));
        lemma_first_failure_stays(lines.drop_last(), n);
    } else {
        assert(lines.take(n) =~= lines);
    }
}

/// The rows in the text of a ledger; a ledger that does not exist has none.
pub fn read_rows(content: &str) -> (r: LedgerResult<Vec<LedgerRow>>)
    ensures
        match r {
            Ok(rows) => rows_of_text(content@) == Ok::<Seq<Row>, LedgerError>(row_views(rows@)),
            Err(e) => rows_of_text(content@) == Err::<Seq<Row>, LedgerError>(e),
        },
{
    if text::bytes_in(content) > MAX_LEDGER_BYTES {
        return Err(LedgerError::OverLimit { rows: 0 });
    }
    let chars = text::chars_of(content);
    let lines = text::lines_of(chars.as_slice());
    let ghost all = text::views(lines@);
    let mut rows: Vec<LedgerRow> = Vec::new();
    let mut i: usize = 0;
    assert(row_views(rows@) =~= Seq::empty());
    while i < lines.len()
        invariant
            all == text::views(lines@),
            all == text::lines(content@),
            text::byte_len(content@) <= MAX_LEDGER_BYTES,
            i <= lines@.len(),
            rows_of_lines(all.take(i as int)) == Ok::<Seq<Row>, LedgerError>(row_views(rows@)),
        decreases lines@.len() - i,
    {
        let line = lines[i].as_str();
        proof {
            assert(all.take(i + 1).drop_last() =~= all.take(i as int));
            assert(all.take(i + 1).last() == line@);
        }
        let trimmed = text::trim_str(line);
        if text::bytes_in(trimmed.as_str()) == 0 {
            proof {
                text::lemma_byte_len_at_least_len(trimmed@);
            }
        } else {
            assert(trimmed@.len() != 0);
            if rows.len() >= MAX_LEDGER_ROWS {
                proof {
                    lemma_first_failure_stays(all, i + 1);
                }
                return Err(LedgerError::OverLimit { rows: rows.len() });
            }
            match parse_row(line, i + 1) {
                Ok(row) => {
                    let ghost before = rows@;
                    rows.push(row);
                    assert(row_views(rows@) =~= row_views(before).push(row@));
                },
                Err(e) => {
                    proof {
                        lemma_first_failure_stays(all, i + 1);
                    }
                    return Err(e);
                },
            }
        }
        i += 1;
    }
    assert(all.take(i as int) =~= all);
    Ok(rows)
}

/// The text of a ledger that holds these rows: one line each.
pub open spec fn payload(rows: Seq<Row>) -> Seq<char>
    decreases rows.len(),
{
    if rows.len() == 0 {
        Seq::empty()
    } else {
        payload(rows.drop_last()) + row_text(rows.last()) + seq!['\n']
    }
}

/// Whether a text holds no line break.
pub open spec fn unbroken(s: Seq<char>) -> bool {
    forall|i: int| 0 <= i < s.len() ==> #[trigger] s[i] != '\n' && s[i] != '\r'
}

proof fn lemma_escape_is_unbroken(c: char)
    ensures
        unbroken(outside::json_escape(c)),
{
    if (c as int) < 32 {
        let hi = outside::hex_digit(c as int / 16);
        let lo = outside::hex_digit(c as int % 16);
        assert(hi != '\n' && hi != '\r' && lo != '\n' && lo != '\r');
    }
}

proof fn lemma_escaped_is_unbroken(s: Seq<char>)
    ensures
        unbroken(outside::json_escaped(s)),
    decreases s.len(),
{
    if s.len() > 0 {
        lemma_escaped_is_unbroken(s.drop_last());
        lemma_escape_is_unbroken(s.last());
    }
}

proof fn lemma_dec_is_unbroken(n: nat)
    ensures
        unbroken(text::dec(n)),
    decreases n,
{
    if n >= 10 {
        lemma_dec_is_unbroken(n / 10);
    }
    assert(text::digit(n % 10) != '\n' && text::digit(n % 10) != '\r');
}

proof fn lemma_members_text_is_unbroken(members: Seq<(Seq<char>, outside::JsonValue)>)
    ensures
        unbroken(outside::json_members_text(members)),
    decreases members.len(),
{
    if members.len() > 0 {
        lemma_members_text_is_unbroken(members.drop_last());
        let (key, value) = members.last();
        lemma_escaped_is_unbroken(key);
        reveal_strlit("null");
        reveal_strlit(":");
        reveal_strlit(",");
        match value {
            outside::JsonValue::Text(s) => {
                lemma_escaped_is_unbroken(s);
            },
            outside::JsonValue::Unsigned(n) => {
                lemma_dec_is_unbroken(n as nat);
            },
            _ => {},
        }
        assert(unbroken(outside::json_value_text(value)));
    }
}

proof fn lemma_row_text(row: Row)
    ensures
        unbroken(row_text(row)),
        row_text(row).len() > 1,
        row_text(row)[0] == '{',
        row_text(row).last() == '}',
{
    lemma_members_text_is_unbroken(members_of_row(row));
    reveal_strlit("{");
    reveal_strlit("}");
}

proof fn lemma_trim_keeps(s: Seq<char>)
    requires
        s.len() > 0,
        !text::is_space(s[0]),
        !text::is_space(s.last()),
    ensures
        text::trim(s) == s,
{
}

proof fn lemma_payload_ends(rows: Seq<Row>)
    ensures
        rows.len() > 0 ==> payload(rows).len() > 0 && payload(rows).last() == '\n',
{
}

proof fn lemma_line_feed_is_kept(s: Seq<char>, t: Seq<char>, i: int)
    requires
        0 <= i <= s.len(),
        text::line_feed_from(s, i) < s.len(),
    ensures
        text::line_feed_from(s + t, i) == text::line_feed_from(s, i),
    decreases s.len() - i,
{
    if i < s.len() && s[i] != '\n' {
        lemma_line_feed_is_kept(s, t, i + 1);
    }
}

proof fn lemma_lines_of_parts(s: Seq<char>, t: Seq<char>, from: int)
    requires
        0 <= from <= s.len(),
        s.len() > 0 ==> s.last() == '\n',
    ensures
        text::lines_from(s + t, from) == text::lines_from(s, from) + text::lines_from(
            s + t,
            s.len() as int,
        ),
    decreases s.len() - from,
{
    if from < s.len() {
        text::lemma_line_feed_from(s, from);
        let end = text::line_feed_from(s, from);
        lemma_line_feed_is_kept(s, t, from);
        lemma_lines_of_parts(s, t, end + 1);
        assert((s + t).subrange(from, end) =~= s.subrange(from, end));
        let head = seq![text::without_cr(s.subrange(from, end))];
        assert(head + (text::lines_from(s, end + 1) + text::lines_from(s + t, s.len() as int))
            =~= head + text::lines_from(s, end + 1) + text::lines_from(s + t, s.len() as int));
    } else {
        assert(text::lines_from(s, from) =~= Seq::empty());
        assert(Seq::<Seq<char>>::empty() + text::lines_from(s + t, s.len() as int)
            =~= text::lines_from(s + t, s.len() as int));
    }
}

proof fn lemma_lines_of_one_more(s: Seq<char>, line: Seq<char>)
    requires
        s.len() > 0 ==> s.last() == '\n',
        unbroken(line),
    ensures
        text::lines(s + line + seq!['\n']) == text::lines(s).push(line),
{
    let t = line + seq!['\n'];
    let whole = s + t;
    assert(s + line + seq!['\n'] =~= whole);
    lemma_lines_of_parts(s, t, 0);
    let from = s.len() as int;
    text::lemma_line_feed_from(whole, from);
    let end = text::line_feed_from(whole, from);
    assert(end == from + line.len()) by {
        assert(whole[from + line.len()] == '\n');
        if end < from + line.len() {
            assert(whole[end] == line[end - from]);
        }
    }
    assert(whole.subrange(from, end) =~= line);
    assert(text::lines_from(whole, end + 1) =~= Seq::empty());
    assert(text::lines_from(whole, from) =~= seq![line]);
    assert(text::lines(s) + seq![line] =~= text::lines(s).push(line));
}

/// Whether the line of every row reads back as that row.
pub open spec fn rows_read_back(rows: Seq<Row>) -> bool {
    forall|i: int| 0 <= i < rows.len() ==> row_of_line(row_text(#[trigger] rows[i])) == Some(rows[i])
}

proof fn lemma_payload_reads_back(rows: Seq<Row>)
    requires
        rows_read_back(rows),
        rows.len() <= MAX_LEDGER_ROWS,
    ensures
        rows_of_lines(text::lines(payload(rows))) == Ok::<Seq<Row>, LedgerError>(rows),
    decreases rows.len(),
{
    if rows.len() == 0 {
        assert(text::lines(payload(rows)) =~= Seq::empty());
        assert(rows =~= Seq::empty());
    } else {
        let rest = rows.drop_last();
        let line = row_text(rows.last());
        assert(rows_read_back(rest)) by {
            assert forall|i: int| 0 <= i < rest.len() implies row_of_line(
                row_text(#[trigger] rest[i]),
            ) == Some(rest[i]) by {
                assert(rest[i] == rows[i]);
            }
        }
        lemma_payload_reads_back(rest);
        lemma_payload_ends(rest);
        lemma_row_text(rows.last());
        lemma_lines_of_one_more(payload(rest), line);
        let lines = text::lines(payload(rows));
        assert(lines.drop_last() =~= text::lines(payload(rest)));
        assert(lines.last() == line);
        lemma_trim_keeps(line);
        assert(row_of_line(row_text(rows[rows.len() - 1])) == Some(rows[rows.len() - 1]));
        assert(rest.push(rows.last()) =~= rows);
    }
}

/// What has to happen to the ledger's file.
#[derive(Debug)]
pub enum LedgerWrite {
    Unchanged,
    Remove,
    Replace(String),
}

/// What has to happen to the ledger's file, as a value.
pub enum FileChange {
    Unchanged,
    Remove,
    Replace(Seq<char>),
}

impl View for LedgerWrite {
    type V = FileChange;

    open spec fn view(&self) -> FileChange {
        match self {
            LedgerWrite::Unchanged => FileChange::Unchanged,
            LedgerWrite::Remove => FileChange::Remove,
            LedgerWrite::Replace(s) => FileChange::Replace(s@),
        }
    }
}

/// What the file holds after a change.
pub open spec fn changed(before: Option<Seq<char>>, change: FileChange) -> Option<Seq<char>> {
    match change {
        FileChange::Unchanged => before,
        FileChange::Remove => None,
        FileChange::Replace(s) => Some(s),
    }
}

/// The rows of a file that may not exist.
pub open spec fn rows_of_file(content: Option<Seq<char>>) -> LedgerResult<Seq<Row>> {
    match content {
        Some(s) => rows_of_text(s),
        None => Ok(Seq::empty()),
    }
}

/// The change that leaves exactly these rows: without rows the file goes, and
/// what exceeds a bound is refused.
pub open spec fn written(rows: Seq<Row>) -> LedgerResult<FileChange> {
    if rows.len() == 0 {
        Ok(FileChange::Remove)
    } else if rows.len() > MAX_LEDGER_ROWS || text::byte_len(payload(rows)) > MAX_LEDGER_BYTES {
        Err(LedgerError::OverLimit { rows: rows.len() as usize })
    } else {
        Ok(FileChange::Replace(payload(rows)))
    }
}

/// Whether a result is that change or that failure.
pub open spec fn write_is(
    r: LedgerResult<LedgerWrite>,
    expected: LedgerResult<FileChange>,
) -> bool {
    match r {
        Ok(w) => expected == Ok::<FileChange, LedgerError>(w@),
        Err(e) => expected == Err::<FileChange, LedgerError>(e),
    }
}

/// Writes the ledger anew. Reading the file afterwards gives exactly the
/// rows that were written.
pub fn write_rows(rows: &Vec<LedgerRow>) -> (r: LedgerResult<LedgerWrite>)
    ensures
        write_is(r, written(row_views(rows@))),
        r matches Ok(w) ==> rows_of_file(changed(None, w@)) == Ok::<Seq<Row>, LedgerError>(
            row_views(rows@),
        ),
        r matches Ok(w) ==> w !is Unchanged,
{
    let ghost all = row_views(rows@);
    let n: usize = rows.len();
    if n == 0 {
        assert(all =~= Seq::empty());
        return Ok(LedgerWrite::Remove);
    }
    let mut out = String::new();
    let mut i: usize = 0;
    assert(all.take(0) =~= Seq::empty());
    while i < n
        invariant
            n == rows@.len(),
            all == row_views(rows@),
            i <= n,
            out@ == payload(all.take(i as int)),
            rows_read_back(all.take(i as int)),
        decreases n - i,
    {
        let line = encode_row(&rows[i]);
        out.append(line.as_str());
        out.push('\n');
        proof {
            let next = all.take(i + 1);
            assert(next.drop_last() =~= all.take(i as int));
            assert(next.last() == rows@[i as int]@);
            assert(out@ =~= payload(next));
            assert forall|k: int| 0 <= k < next.len() implies row_of_line(
                row_text(#[trigger] next[k]),
            ) == Some(next[k]) by {
                if k < i {
                    assert(next[k] == all.take(i as int)[k]);
                }
            }
        }
        i += 1;
    }
    assert(all.take(n as int) =~= all);
    if n > MAX_LEDGER_ROWS || text::bytes_in(out.as_str()) > MAX_LEDGER_BYTES {
        return Err(LedgerError::OverLimit { rows: n });
    }
    proof {
        lemma_payload_reads_back(all);
    }
    Ok(LedgerWrite::Replace(out))
}

// ---------------------------------------------------------------------
// Recording and releasing
// ---------------------------------------------------------------------

/// The row of a child. An empty token stands for an identity that could not
/// be captured.
pub open spec fn row_for(pid: u32, token: Seq<char>, purpose: Seq<char>) -> Row {
    Row {
        pid,
        identity: if token.len() == 0 {
            None
        } else {
            Some(token)
        },
        purpose,
    }
}

/// The change that adds one row to these.
pub open spec fn with_row(rows: Seq<Row>, row: Row) -> LedgerResult<FileChange> {
    if rows.len() >= MAX_LEDGER_ROWS || text::byte_len(payload(rows)) + text::byte_len(
        row_text(row),
    ) > MAX_LEDGER_BYTES {
        Err(LedgerError::OverLimit { rows: rows.len() as usize })
    } else {
        written(rows.push(row))
    }
}

/// The change that records a child. Process 0 changes nothing.
pub open spec fn recorded(content: Option<Seq<char>>, row: Row) -> LedgerResult<FileChange> {
    if row.pid == 0 {
        Ok(FileChange::Unchanged)
    } else {
        match rows_of_file(content) {
            Err(e) => Err(e),
            Ok(rows) => with_row(rows, row),
        }
    }
}

/// The text of a file that may not exist, as a value.
pub open spec fn content_view(content: Option<&str>) -> Option<Seq<char>> {
    match content {
        Some(s) => Some(s@),
        None => None,
    }
}

proof fn lemma_payload_bytes(rows: Seq<Row>)
    requires
        rows.len() > 0,
    ensures
        text::byte_len(payload(rows)) == text::byte_len(payload(rows.drop_last()))
            + text::byte_len(row_text(rows.last())) + 1,
{
    let head = payload(rows.drop_last());
    let line = row_text(rows.last());
    text::lemma_byte_len_concat(head, line);
    text::lemma_byte_len_push(head + line, '\n');
    assert(head + line + seq!['\n'] =~= (head + line).push('\n'));
}

proof fn lemma_payload_grows(rows: Seq<Row>, n: int)
    requires
        0 <= n <= rows.len(),
    ensures
        text::byte_len(payload(rows.take(n))) <= text::byte_len(payload(rows)),
    decreases rows.len(),
{
    if n < rows.len() {
        lemma_payload_bytes(rows);
        assert(rows.drop_last().take(n) =~= rows.take(n));
        lemma_payload_grows(rows.drop_last(), n);
    } else {
        assert(rows.take(n) =~= rows);
    }
}

/// The size of the rows when written, as long as it does not exceed `cap`.
fn written_bytes(rows: &Vec<LedgerRow>, cap: usize) -> (r: Option<usize>)
    ensures
        match r {
            Some(n) => n == text::byte_len(payload(row_views(rows@))) && n <= cap,
            None => text::byte_len(payload(row_views(rows@))) > cap,
        },
{
    let ghost all = row_views(rows@);
    let mut total: usize = 0;
    let mut i: usize = 0;
    assert(all.take(0) =~= Seq::empty());
    while i < rows.len()
        invariant
            all == row_views(rows@),
            i <= rows@.len(),
            total <= cap,
            total == text::byte_len(payload(all.take(i as int))),
        decreases rows@.len() - i,
    {
        let line = encode_row(&rows[i]);
        let size: usize = text::bytes_in(line.as_str());
        proof {
            assert(all.take(i + 1).drop_last() =~= all.take(i as int));
            assert(all.take(i + 1).last() == rows@[i as int]@);
            lemma_payload_bytes(all.take(i + 1));
            lemma_payload_grows(all, i + 1);
        }
        if size >= cap - total {
            return None;
        }
        total = total + size + 1;
        i += 1;
    }
    assert(all.take(i as int) =~= all);
    Some(total)
}

fn read_file(content: Option<&str>) -> (r: LedgerResult<Vec<LedgerRow>>)
    ensures
        match r {
            Ok(rows) => rows_of_file(content_view(content)) == Ok::<Seq<Row>, LedgerError>(
                row_views(rows@),
            ),
            Err(e) => rows_of_file(content_view(content)) == Err::<Seq<Row>, LedgerError>(e),
        },
{
    match content {
        Some(s) => read_rows(s),
        None => {
            let rows: Vec<LedgerRow> = Vec::new();
            assert(row_views(rows@) =~= Seq::empty());
            Ok(rows)
        },
    }
}

/// Records a child in the ledger whose text is `content`. The row is added
/// behind those that are there; a ledger that cannot be read, or that has no
/// room left, refuses it.
pub fn record_child(
    content: Option<&str>,
    pid: u32,
    identity_token: &str,
    purpose: &str,
) -> (r: LedgerResult<LedgerWrite>)
    ensures
        write_is(r, recorded(content_view(content), row_for(pid, identity_token@, purpose@))),
        pid != 0 ==> (r matches Ok(w) ==> rows_of_file(changed(content_view(content), w@)) == Ok::<
            Seq<Row>,
            LedgerError,
        >(rows_of_file(content_view(content))->Ok_0.push(row_for(pid, identity_token@, purpose@)))),
{
    if pid == 0 {
        return Ok(LedgerWrite::Unchanged);
    }
    let mut rows = match read_file(content) {
        Ok(rows) => rows,
        Err(e) => {
            return Err(e);
        },
    };
    let identity = if text::bytes_in(identity_token) == 0 {
        None
    } else {
        Some(identity_token.to_owned())
    };
    let row = LedgerRow { pid, identity, purpose: purpose.to_owned() };
    proof {
        text::lemma_byte_len_at_least_len(identity_token@);
        assert(row@ == row_for(pid, identity_token@, purpose@));
    }
    let line = encode_row(&row);
    let size: usize = text::bytes_in(line.as_str());
    let ghost before = row_views(rows@);
    let fits = match written_bytes(&rows, MAX_LEDGER_BYTES) {
        Some(total) => size <= MAX_LEDGER_BYTES - total,
        None => false,
    };
    if rows.len() >= MAX_LEDGER_ROWS || !fits {
        return Err(LedgerError::OverLimit { rows: rows.len() });
    }
    rows.push(row);
    assert(row_views(rows@) =~= before.push(row@));
    write_rows(&rows)
}

/// Whether a row is the one of this process with this identity. An empty
/// token stands for rows without an identity.
pub open spec fn is_row_of(row: Row, pid: u32, token: Seq<char>) -> bool {
    row.pid == pid && match row.identity {
        Some(t) => token.len() > 0 && t == token,
        None => token.len() == 0,
    }
}

/// The rows without those of one process.
pub open spec fn without(rows: Seq<Row>, pid: u32, token: Seq<char>) -> Seq<Row>
    decreases rows.len(),
{
    if rows.len() == 0 {
        Seq::empty()
    } else {
        let rest = without(rows.drop_last(), pid, token);
        if is_row_of(rows.last(), pid, token) {
            rest
        } else {
            rest.push(rows.last())
        }
    }
}

/// Whether one of the rows is of that process.
pub open spec fn has_row_of(rows: Seq<Row>, pid: u32, token: Seq<char>) -> bool {
    exists|i: int| 0 <= i < rows.len() && is_row_of(#[trigger] rows[i], pid, token)
}

/// The change that releases a process: nothing where it has no row.
pub open spec fn released(
    content: Option<Seq<char>>,
    pid: u32,
    token: Seq<char>,
) -> LedgerResult<FileChange> {
    match rows_of_file(content) {
        Err(e) => Err(e),
        Ok(rows) => if has_row_of(rows, pid, token) {
            written(without(rows, pid, token))
        } else {
            Ok(FileChange::Unchanged)
        },
    }
}

proof fn lemma_nothing_to_remove(rows: Seq<Row>, pid: u32, token: Seq<char>)
    requires
        !has_row_of(rows, pid, token),
    ensures
        without(rows, pid, token) == rows,
    decreases rows.len(),
{
    if rows.len() > 0 {
        assert(!is_row_of(rows[rows.len() - 1], pid, token));
        assert(!has_row_of(rows.drop_last(), pid, token)) by {
            if has_row_of(rows.drop_last(), pid, token) {
                let i = choose|i: int|
                    0 <= i < rows.drop_last().len() && is_row_of(
                        #[trigger] rows.drop_last()[i],
                        pid,
                        token,
                    );
                assert(is_row_of(rows[i], pid, token));
            }
        }
        lemma_nothing_to_remove(rows.drop_last(), pid, token);
        assert(rows.drop_last().push(rows.last()) =~= rows);
    } else {
        assert(rows =~= Seq::empty());
    }
}

impl LedgerRow {
    /// Another row with the same contents.
    pub fn copy(&self) -> (r: LedgerRow)
        ensures
            r@ == self@,
    {
        let identity = match &self.identity {
            Some(token) => Some(token.as_str().to_owned()),
            None => None,
        };
        LedgerRow { pid: self.pid, identity, purpose: self.purpose.as_str().to_owned() }
    }

    fn is_of(&self, pid: u32, token: &str) -> (r: bool)
        ensures
            r == is_row_of(self@, pid, token@),
    {
        let empty = text::bytes_in(token) == 0;
        proof {
            text::lemma_byte_len_at_least_len(token@);
            if token@.len() == 0 {
                assert(token@ =~= Seq::empty());
            }
        }
        self.pid == pid && match &self.identity {
            Some(t) => !empty && text::same(t.as_str(), token),
            None => empty,
        }
    }
}

/// Releases a process: its rows go, all others stay as they are.
pub fn release_row(content: Option<&str>, pid: u32, identity_token: &str) -> (r: LedgerResult<
    LedgerWrite,
>)
    ensures
        write_is(r, released(content_view(content), pid, identity_token@)),
        r matches Ok(w) ==> rows_of_file(changed(content_view(content), w@)) == Ok::<
            Seq<Row>,
            LedgerError,
        >(without(rows_of_file(content_view(content))->Ok_0, pid, identity_token@)),
{
    let rows = match read_file(content) {
        Ok(rows) => rows,
        Err(e) => {
            return Err(e);
        },
    };
    let ghost all = row_views(rows@);
    let mut kept: Vec<LedgerRow> = Vec::new();
    let mut found = false;
    let mut i: usize = 0;
    assert(all.take(0) =~= Seq::empty());
    assert(row_views(kept@) =~= Seq::empty());
    while i < rows.len()
        invariant
            all == row_views(rows@),
            i <= rows@.len(),
            row_views(kept@) == without(all.take(i as int), pid, identity_token@),
            found == has_row_of(all.take(i as int), pid, identity_token@),
        decreases rows@.len() - i,
    {
        let ghost before = all.take(i as int);
        let ghost next = all.take(i + 1);
        proof {
            assert(next.drop_last() =~= before);
            assert(next.last() == rows@[i as int]@);
            assert forall|k: int| 0 <= k < before.len() implies before[k] == next[k] by {}
        }
        if rows[i].is_of(pid, identity_token) {
            assert(is_row_of(next[i as int], pid, identity_token@));
            found = true;
        } else {
            let ghost so_far = kept@;
            let row = rows[i].copy();
            kept.push(row);
            proof {
                assert(row_views(kept@) =~= row_views(so_far).push(row@));
                if found {
                    let k = choose|k: int|
                        0 <= k < before.len() && is_row_of(
                            #[trigger] before[k],
                            pid,
                            identity_token@,
                        );
                    assert(is_row_of(next[k], pid, identity_token@));
                } else if has_row_of(next, pid, identity_token@) {
                    let k = choose|k: int|
                        0 <= k < next.len() && is_row_of(#[trigger] next[k], pid, identity_token@);
                    assert(is_row_of(before[k], pid, identity_token@));
                }
            }
        }
        i += 1;
    }
    assert(all.take(i as int) =~= all);
    if !found {
        proof {
            lemma_nothing_to_remove(all, pid, identity_token@);
        }
        return Ok(LedgerWrite::Unchanged);
    }
    write_rows(&kept)
}

/// Releasing a child that was recorded last leaves what releasing it before
/// would have left; where it had no row before, the rows are the ones from
/// before the record.
pub proof fn law_release_undoes_a_record(
    rows: Seq<Row>,
    pid: u32,
    token: Seq<char>,
    purpose: Seq<char>,
)
    ensures
        without(rows.push(row_for(pid, token, purpose)), pid, token) == without(rows, pid, token),
        !has_row_of(rows, pid, token) ==> without(
            rows.push(row_for(pid, token, purpose)),
            pid,
            token,
        ) == rows,
{
    let more = rows.push(row_for(pid, token, purpose));
    assert(more.drop_last() =~= rows);
    if !has_row_of(rows, pid, token) {
        lemma_nothing_to_remove(rows, pid, token);
    }
}

/// A release takes every row of the process with that identity and no row of
/// any other.
pub proof fn law_a_release_is_exact(rows: Seq<Row>, pid: u32, token: Seq<char>, row: Row)
    ensures
        without(rows, pid, token).contains(row) <==> rows.contains(row) && !is_row_of(
            row,
            pid,
            token,
        ),
    decreases rows.len(),
{
    if rows.len() > 0 {
        let rest = rows.drop_last();
        law_a_release_is_exact(rest, pid, token, row);
        let kept = without(rest, pid, token);
        assert(rest.push(rows.last()) =~= rows);
        if rest.contains(row) {
            let i = rest.index_of(row);
            assert(rows[i] == row);
        }
        if rows.contains(row) && row != rows.last() {
            let i = rows.index_of(row);
            assert(rest[i] == row);
        }
        if row == rows.last() {
            assert(rows[rows.len() - 1] == row);
        }
        if kept.contains(row) {
            let i = kept.index_of(row);
            assert(kept.push(rows.last())[i] == row);
        }
        if row == rows.last() {
            assert(kept.push(rows.last())[kept.len() as int] == row);
        }
    }
}

// ---------------------------------------------------------------------
// Reconciliation at startup
// ---------------------------------------------------------------------

/// What is known of the process that has a recorded number now.
#[derive(Debug)]
pub enum Observed {
    /// There is none.
    Exited,
    /// It runs and has this identity; an empty one could not be captured.
    Running(String),
    /// It could not be looked up.
    Unknown,
}

/// What is known of a process, as a value.
pub enum Sight {
    Exited,
    Running(Seq<char>),
    Unknown,
}

impl View for Observed {
    type V = Sight;

    open spec fn view(&self) -> Sight {
        match self {
            Observed::Exited => Sight::Exited,
            Observed::Running(token) => Sight::Running(token@),
            Observed::Unknown => Sight::Unknown,
        }
    }
}

/// What became of a recorded child.
#[derive(Debug, Clone, Copy, PartialEq, Eq, Structural)]
pub enum Fate {
    /// Ended by the reconciliation, with its exit confirmed.
    Killed,
    /// Gone before; its number may belong to another process.
    Stale,
    /// Nobody can say whether it is the recorded child.
    Unverified,
    /// Told to end, without a confirmed exit.
    Unconfirmed,
}

/// What to do about a recorded child.
#[derive(Debug, Clone, Copy, PartialEq, Eq, Structural)]
pub enum Verdict {
    Settled(Fate),
    Kill,
}

/// How an attempt to end a process went.
#[derive(Debug, Clone, Copy, PartialEq, Eq, Structural)]
pub enum Cleanup {
    ExitConfirmed,
    AlreadyExited,
    IdentityMismatch,
    Unconfirmed,
    Failed,
}

/// What to do about a recorded child, given what is known of its process.
pub open spec fn verdict_on(row: Row, sight: Sight) -> Verdict {
    match sight {
        Sight::Exited => Verdict::Settled(Fate::Stale),
        Sight::Unknown => Verdict::Settled(Fate::Unverified),
        Sight::Running(current) => match row.identity {
            None => Verdict::Settled(Fate::Unverified),
            Some(token) => if token.len() == 0 || current.len() == 0 {
                Verdict::Settled(Fate::Unverified)
            } else if token == current {
                Verdict::Kill
            } else {
                Verdict::Settled(Fate::Stale)
            },
        },
    }
}

/// What to do about a recorded child.
pub fn verdict(row: &LedgerRow, observed: &Observed) -> (v: Verdict)
    ensures
        v == verdict_on(row@, observed@),
{
    match observed {
        Observed::Exited => Verdict::Settled(Fate::Stale),
        Observed::Unknown => Verdict::Settled(Fate::Unverified),
        Observed::Running(current) => match &row.identity {
            None => Verdict::Settled(Fate::Unverified),
            Some(token) => {
                proof {
                    text::lemma_byte_len_at_least_len(token@);
                    text::lemma_byte_len_at_least_len(current@);
                    if token@.len() == 0 {
                        assert(token@ =~= Seq::empty());
                    }
                    if current@.len() == 0 {
                        assert(current@ =~= Seq::empty());
                    }
                }
                if text::bytes_in(token.as_str()) == 0 || text::bytes_in(current.as_str()) == 0 {
                    Verdict::Settled(Fate::Unverified)
                } else if text::same(token.as_str(), current.as_str()) {
                    Verdict::Kill
                } else {
                    Verdict::Settled(Fate::Stale)
                }
            },
        },
    }
}

/// What became of a child after an attempt to end it.
pub open spec fn fate_of(cleanup: Cleanup) -> Fate {
    match cleanup {
        Cleanup::ExitConfirmed => Fate::Killed,
        Cleanup::AlreadyExited => Fate::Stale,
        Cleanup::IdentityMismatch => Fate::Stale,
        Cleanup::Unconfirmed => Fate::Unconfirmed,
        Cleanup::Failed => Fate::Unverified,
    }
}

/// What became of a child after an attempt to end it.
pub fn fate_after(cleanup: Cleanup) -> (f: Fate)
    ensures
        f == fate_of(cleanup),
{
    match cleanup {
        Cleanup::ExitConfirmed => Fate::Killed,
        Cleanup::AlreadyExited => Fate::Stale,
        Cleanup::IdentityMismatch => Fate::Stale,
        Cleanup::Unconfirmed => Fate::Unconfirmed,
        Cleanup::Failed => Fate::Unverified,
    }
}

/// What was found out about a recorded child: its process now, and how ending
/// that process went where it had to be ended.
#[derive(Debug)]
pub struct Finding {
    pub observed: Observed,
    pub cleanup: Option<Cleanup>,
}

/// Whether a finding decides over a row.
pub open spec fn decides(row: Row, finding: Finding) -> bool {
    verdict_on(row, finding.observed@) == Verdict::Kill ==> finding.cleanup is Some
}

/// What became of a recorded child.
pub open spec fn fate_found(row: Row, finding: Finding) -> Fate {
    match verdict_on(row, finding.observed@) {
        Verdict::Settled(fate) => fate,
        Verdict::Kill => fate_of(finding.cleanup->Some_0),
    }
}

/// What became of every recorded child.
pub open spec fn fates_found(rows: Seq<Row>, findings: Seq<Finding>) -> Seq<Fate> {
    Seq::new(rows.len(), |i: int| fate_found(rows[i], findings[i]))
}

/// The outcome of a reconciliation. Children that were ended or were gone are
/// cleared; those of `unverified` and `unconfirmed` stay in the ledger.
#[derive(Debug, Default, PartialEq, Eq)]
pub struct ReconcileOutcome {
    pub killed: Vec<u32>,
    pub unverified: Vec<u32>,
    pub unconfirmed: Vec<u32>,
    pub cleared_stale: Vec<u32>,
}

impl ReconcileOutcome {
    /// Whether every row was resolved, so that the workspace may be used.
    pub fn is_clean(&self) -> (r: bool)
        ensures
            r == (self.unverified@.len() == 0 && self.unconfirmed@.len() == 0),
    {
        self.unverified.len() == 0 && self.unconfirmed.len() == 0
    }
}

/// The processes of the rows that met this fate, in order.
pub open spec fn pids_with(rows: Seq<Row>, fates: Seq<Fate>, fate: Fate) -> Seq<u32>
    decreases rows.len(),
{
    if rows.len() == 0 || fates.len() != rows.len() {
        Seq::empty()
    } else {
        let rest = pids_with(rows.drop_last(), fates.drop_last(), fate);
        if fates.last() == fate {
            rest.push(rows.last().pid)
        } else {
            rest
        }
    }
}

/// Whether a child of this fate stays in the ledger.
pub open spec fn stays(fate: Fate) -> bool {
    fate == Fate::Unverified || fate == Fate::Unconfirmed
}

/// The rows that stay in the ledger.
pub open spec fn rows_left(rows: Seq<Row>, fates: Seq<Fate>) -> Seq<Row>
    decreases rows.len(),
{
    if rows.len() == 0 || fates.len() != rows.len() {
        Seq::empty()
    } else {
        let rest = rows_left(rows.drop_last(), fates.drop_last());
        if stays(fates.last()) {
            rest.push(rows.last())
        } else {
            rest
        }
    }
}

/// Sums up what became of every recorded child, and what the ledger holds
/// from now on.
pub fn reconcile_children(rows: &Vec<LedgerRow>, findings: &Vec<Finding>) -> (r: LedgerResult<
    (ReconcileOutcome, LedgerWrite),
>)
    requires
        rows@.len() == findings@.len(),
        forall|i: int| 0 <= i < rows@.len() ==> decides(#[trigger] rows@[i]@, findings@[i]),
    ensures
        match r {
            Ok((outcome, w)) => {
                &&& outcome.killed@ == pids_with(row_views(rows@), fates_found(row_views(rows@), findings@), Fate::Killed)
                &&& outcome.unverified@ == pids_with(row_views(rows@), fates_found(row_views(rows@), findings@), Fate::Unverified)
                &&& outcome.unconfirmed@ == pids_with(row_views(rows@), fates_found(row_views(rows@), findings@), Fate::Unconfirmed)
                &&& outcome.cleared_stale@ == pids_with(row_views(rows@), fates_found(row_views(rows@), findings@), Fate::Stale)
                &&& write_is(Ok(w), written(rows_left(row_views(rows@), fates_found(row_views(rows@), findings@))))
                &&& rows_of_file(changed(None, w@)) == Ok::<Seq<Row>, LedgerError>(
                    rows_left(row_views(rows@), fates_found(row_views(rows@), findings@)),
                )
                &&& w !is Unchanged
            },
            Err(e) => write_is(Err(e), written(rows_left(row_views(rows@), fates_found(row_views(rows@), findings@)))),
        },
{
    let ghost all = row_views(rows@);
    let ghost fates = fates_found(all, findings@);
    let mut killed: Vec<u32> = Vec::new();
    let mut unverified: Vec<u32> = Vec::new();
    let mut unconfirmed: Vec<u32> = Vec::new();
    let mut cleared_stale: Vec<u32> = Vec::new();
    let mut kept: Vec<LedgerRow> = Vec::new();
    let mut i: usize = 0;
    assert(row_views(kept@) =~= Seq::empty());
    while i < rows.len()
        invariant
            all == row_views(rows@),
            rows@.len() == findings@.len(),
            forall|j: int| 0 <= j < rows@.len() ==> decides(#[trigger] rows@[j]@, findings@[j]),
            fates == fates_found(all, findings@),
            i <= rows@.len(),
            killed@ == pids_with(all.take(i as int), fates.take(i as int), Fate::Killed),
            unverified@ == pids_with(all.take(i as int), fates.take(i as int), Fate::Unverified),
            unconfirmed@ == pids_with(all.take(i as int), fates.take(i as int), Fate::Unconfirmed),
            cleared_stale@ == pids_with(all.take(i as int), fates.take(i as int), Fate::Stale),
            row_views(kept@) == rows_left(all.take(i as int), fates.take(i as int)),
        decreases rows@.len() - i,
    {
        proof {
            assert(all.take(i + 1).drop_last() =~= all.take(i as int));
            assert(fates.take(i + 1).drop_last() =~= fates.take(i as int));
            assert(all.take(i + 1).last() == rows@[i as int]@);
        }
        let pid: u32 = rows[i].pid;
        let fate = match verdict(&rows[i], &findings[i].observed) {
            Verdict::Settled(fate) => fate,
            Verdict::Kill => match findings[i].cleanup {
                Some(cleanup) => fate_after(cleanup),
                None => {
                    assert(decides(rows@[i as int]@, findings@[i as int]));
                    Fate::Unverified
                },
            },
        };
        assert(fate == fates[i as int]);
        match fate {
            Fate::Killed => killed.push(pid),
            Fate::Unverified => unverified.push(pid),
            Fate::Unconfirmed => unconfirmed.push(pid),
            Fate::Stale => cleared_stale.push(pid),
        }
        if fate == Fate::Unverified || fate == Fate::Unconfirmed {
            let ghost so_far = kept@;
            let row = rows[i].copy();
            kept.push(row);
            assert(row_views(kept@) =~= row_views(so_far).push(row@));
        }
        i += 1;
    }
    proof {
        assert(all.take(i as int) =~= all);
        assert(fates.take(i as int) =~= fates);
    }
    match write_rows(&kept) {
        Ok(w) => Ok((ReconcileOutcome { killed, unverified, unconfirmed, cleared_stale }, w)),
        Err(e) => Err(e),
    }
}

/// A process is ended only where the ledger recorded an identity for it and
/// the process that has its number now is known to have that same identity.
pub proof fn law_only_the_recorded_process_is_ended(row: Row, sight: Sight)
    ensures
        verdict_on(row, sight) == Verdict::Kill <==> (row.identity matches Some(token)
            && token.len() > 0 && sight == Sight::Running(token)),
{
}

/// A child counts as ended only where it was the recorded one and its exit
/// was confirmed. Its row leaves the ledger only where the child is known to
/// be gone: its process has exited, or another process has its number.
pub proof fn law_only_a_child_that_is_gone_is_cleared(row: Row, finding: Finding)
    requires
        decides(row, finding),
    ensures
        fate_found(row, finding) == Fate::Killed <==> verdict_on(row, finding.observed@)
            == Verdict::Kill && finding.cleanup == Some(Cleanup::ExitConfirmed),
        !stays(fate_found(row, finding)) ==> {
            ||| finding.observed@ == Sight::Exited
            ||| finding.cleanup == Some(Cleanup::ExitConfirmed)
            ||| finding.cleanup == Some(Cleanup::AlreadyExited)
            ||| finding.cleanup == Some(Cleanup::IdentityMismatch)
            ||| (row.identity matches Some(token) && finding.observed@ matches Sight::Running(current)
                && token.len() > 0 && current.len() > 0 && token != current)
        },
{
}

/// Every row meets exactly one fate, and exactly the children that are not
/// resolved stay: the outcome is clean if and only if no row is left.
pub proof fn law_a_clean_outcome_leaves_no_row(rows: Seq<Row>, fates: Seq<Fate>)
    requires
        rows.len() == fates.len(),
    ensures
        pids_with(rows, fates, Fate::Killed).len() + pids_with(rows, fates, Fate::Stale).len()
            + rows_left(rows, fates).len() == rows.len(),
        rows_left(rows, fates).len() == pids_with(rows, fates, Fate::Unverified).len() + pids_with(
            rows,
            fates,
            Fate::Unconfirmed,
        ).len(),
        pids_with(rows, fates, Fate::Unverified).len() == 0 && pids_with(
            rows,
            fates,
            Fate::Unconfirmed,
        ).len() == 0 <==> rows_left(rows, fates).len() == 0,
    decreases rows.len(),
{
    if rows.len() > 0 {
        law_a_clean_outcome_leaves_no_row(rows.drop_last(), fates.drop_last());
    }
}

// ---------------------------------------------------------------------
// Leases
// ---------------------------------------------------------------------

/// A recorded child whose supervision ends only with a confirmed exit, or at
/// the next startup.
#[derive(Debug)]
pub struct ChildLease {
    pub state_dir: String,
    pub pid: u32,
    pub identity_token: String,
    pub released: bool,
}

impl ChildLease {
    /// The change that removes the child's row; nothing where that happened
    /// before.
    pub fn release(&self, content: Option<&str>) -> (r: LedgerResult<LedgerWrite>)
        ensures
            self.released ==> (r matches Ok(w) && w@ == FileChange::Unchanged),
            !self.released ==> write_is(
                r,
                released(content_view(content), self.pid, self.identity_token@),
            ),
            !self.released ==> (r matches Ok(w) ==> rows_of_file(
                changed(content_view(content), w@),
            ) == Ok::<Seq<Row>, LedgerError>(
                without(
                    rows_of_file(content_view(content))->Ok_0,
                    self.pid,
                    self.identity_token@,
                ),
            )),
    {
        if self.released {
            return Ok(LedgerWrite::Unchanged);
        }
        release_row(content, self.pid, self.identity_token.as_str())
    }

    /// The receipt that the child was seen to exit, with how removing its row
    /// went. A failed removal leaves the lease open.
    pub fn confirm_reaped(&mut self, removal: LedgerResult<()>) -> (r: LedgerResult<()>)
        ensures
            r == (if old(self).released {
                Ok::<(), LedgerError>(())
            } else {
                removal
            }),
            final(self).released == (old(self).released || removal is Ok),
            final(self).pid == old(self).pid,
            final(self).identity_token == old(self).identity_token,
            final(self).state_dir == old(self).state_dir,
    {
        if self.released {
            return Ok(());
        }
        match removal {
            Ok(done) => {
                self.released = true;
                Ok(done)
            },
            Err(e) => Err(e),
        }
    }

    /// Whether dropping the lease without a receipt removes the row: only
    /// where the child is known to be gone.
    pub fn drop_releases(&self, observed: &Observed) -> (r: bool)
        ensures
            r == (!self.released && observed@ == Sight::Exited),
    {
        !self.released && match observed {
            Observed::Exited => true,
            _ => false,
        }
    }
}

/// The identity token of a child: empty where none was captured.
pub open spec fn token_of(captured: Option<String>) -> Seq<char> {
    match captured {
        Some(token) => token@,
        None => Seq::empty(),
    }
}

/// Records a child and hands out its lease, with the change that the ledger
/// needs first. Process 0 is refused, and so is what the ledger refuses.
pub fn lease(
    state_dir: &str,
    content: Option<&str>,
    pid: u32,
    captured: Option<String>,
    purpose: &str,
) -> (r: LedgerResult<(ChildLease, LedgerWrite)>)
    ensures
        match r {
            Ok((lease, w)) => {
                &&& pid != 0
                &&& write_is(
                    Ok(w),
                    recorded(
                        content_view(content),
                        row_for(pid, token_of(captured), purpose@),
                    ),
                )
                &&& lease.pid == pid && !lease.released
                &&& lease.identity_token@ == token_of(captured)
                &&& lease.state_dir@ == state_dir@
            },
            Err(e) => if pid == 0 {
                e == LedgerError::InvalidPid
            } else {
                write_is(
                    Err(e),
                    recorded(
                        content_view(content),
                        row_for(pid, token_of(captured), purpose@),
                    ),
                )
            },
        },
{
    if pid == 0 {
        return Err(LedgerError::InvalidPid);
    }
    let identity_token = match captured {
        Some(token) => token,
        None => String::new(),
    };
    assert(identity_token@ =~= token_of(captured));
    match record_child(content, pid, identity_token.as_str(), purpose) {
        Ok(w) => Ok(
            (
                ChildLease {
                    state_dir: state_dir.to_owned(),
                    pid,
                    identity_token,
                    released: false,
                },
                w,
            ),
        ),
        Err(e) => Err(e),
    }
}

// ---------------------------------------------------------------------
// Waiting for the lock
// ---------------------------------------------------------------------

/// How long the next pause is, given the time that is left.
pub open spec fn pause(backoff: int, remaining: int) -> int {
    if backoff <= remaining {
        backoff
    } else {
        remaining
    }
}

/// A waiter for the ledger's lock.
#[derive(Debug)]
pub struct LockWait {
    pub backoff_ms: u64,
}

impl LockWait {
    /// A pause is never shorter than the first nor longer than the longest.
    pub open spec fn wf(&self) -> bool {
        LOCK_FIRST_BACKOFF_MS <= self.backoff_ms <= LOCK_MAX_BACKOFF_MS
    }

    /// A waiter before its first attempt.
    pub fn new() -> (w: LockWait)
        ensures
            w.wf(),
            w.backoff_ms == LOCK_FIRST_BACKOFF_MS,
    {
        LockWait { backoff_ms: LOCK_FIRST_BACKOFF_MS }
    }

    /// The pause before the next attempt, given the milliseconds that are
    /// left; `None` gives up, because no time is left.
    pub fn next_pause(&mut self, remaining_ms: Option<u64>) -> (r: Option<u64>)
        requires
            old(self).wf(),
        ensures
            final(self).wf(),
            match remaining_ms {
                None => r is None && *final(self) == *old(self),
                Some(remaining) => {
                    &&& r matches Some(p) && p == pause(
                        old(self).backoff_ms as int,
                        remaining as int,
                    )
                    &&& final(self).backoff_ms == pause(
                        2 * old(self).backoff_ms,
                        LOCK_MAX_BACKOFF_MS as int,
                    )
                },
            },
    {
        match remaining_ms {
            None => None,
            Some(remaining) => {
                let p: u64 = if self.backoff_ms <= remaining {
                    self.backoff_ms
                } else {
                    remaining
                };
                let doubled: u64 = self.backoff_ms * 2;
                self.backoff_ms = if doubled <= LOCK_MAX_BACKOFF_MS {
                    doubled
                } else {
                    LOCK_MAX_BACKOFF_MS
                };
                Some(p)
            },
        }
    }
}

/// The sum of some pauses.
pub open spec fn total(pauses: Seq<int>) -> int
    decreases pauses.len(),
{
    if pauses.len() == 0 {
        0
    } else {
        total(pauses.drop_last()) + pauses.last()
    }
}

/// All pauses together never exceed the time that was left before the first,
/// whatever the backoffs are: each is cut to the time that is left when it
/// starts, and a pause uses up at least its own length of that time.
pub proof fn law_pauses_stay_within_the_budget(
    backoffs: Seq<int>,
    remaining: Seq<int>,
    pauses: Seq<int>,
)
    requires
        pauses.len() > 0,
        backoffs.len() == pauses.len(),
        remaining.len() == pauses.len(),
        forall|i: int|
            0 <= i < pauses.len() ==> #[trigger] pauses[i] == pause(backoffs[i], remaining[i]),
        forall|i: int|
            0 < i < pauses.len() ==> #[trigger] remaining[i] <= remaining[i - 1] - pauses[i - 1],
    ensures
        total(pauses) <= remaining[0],
{
    lemma_total(remaining, pauses);
    let n = pauses.len() - 1;
    assert(pauses[n] == pause(backoffs[n], remaining[n]));
}

proof fn lemma_total(remaining: Seq<int>, pauses: Seq<int>)
    requires
        pauses.len() > 0,
        remaining.len() == pauses.len(),
        forall|i: int|
            0 < i < pauses.len() ==> #[trigger] remaining[i] <= remaining[i - 1] - pauses[i - 1],
    ensures
        total(pauses) <= remaining[0] - remaining.last() + pauses.last(),
    decreases pauses.len(),
{
    let n = pauses.len() - 1;
    if n > 0 {
        let fewer = remaining.drop_last();
        assert(remaining[n] <= remaining[n - 1] - pauses[n - 1]);
        assert forall|i: int| 0 < i < n implies #[trigger] fewer[i] <= fewer[i - 1]
            - pauses.drop_last()[i - 1] by {
            assert(remaining[i] <= remaining[i - 1] - pauses[i - 1]);
        }
        lemma_total(fewer, pauses.drop_last());
    } else {
        assert(total(pauses.drop_last()) == 0);
    }
}

/// A pause is the backoff where that much time is left, and otherwise all the
/// time that is left.
pub proof fn law_a_pause_is_the_lesser(backoff: int, remaining: int)
    ensures
        pause(backoff, remaining) <= backoff,
        pause(backoff, remaining) <= remaining,
        pause(backoff, remaining) == backoff || pause(backoff, remaining) == remaining,
        LOCK_WAIT_TIMEOUT_MS == 2_000,
        LOCK_FIRST_BACKOFF_MS == 25,
        LOCK_MAX_BACKOFF_MS == 250,
{
}

/// A member of an object is the first of its name; one of no such name is
/// none. `i` is the first of that name.
pub proof fn law_a_member_is_the_first_of_its_name(
    members: Seq<(Seq<char>, outside::JsonValue)>,
    key: Seq<char>,
    i: int,
)
    requires
        0 <= i <= members.len(),
        forall|k: int| 0 <= k < i ==> (#[trigger] members[k]).0 != key,
        i < members.len() ==> members[i].0 == key,
    ensures
        i < members.len() ==> member(members, key) == Some(members[i].1),
        i == members.len() ==> member(members, key) is None,
    decreases members.len(),
{
    if i > 0 {
        let rest = members.drop_first();
        assert(members[0].0 != key);
        assert forall|k: int| 0 <= k < i - 1 implies (#[trigger] rest[k]).0 != key by {
            assert(members[k + 1].0 != key);
        }
        law_a_member_is_the_first_of_its_name(rest, key, i - 1);
    }
}

/// A line is a row exactly where it has a process number that fits thirty-two
/// bits; a token or a purpose that is no text counts as missing, and a missing
/// purpose is unknown.
pub proof fn law_a_row_needs_its_process_number(members: Seq<(Seq<char>, outside::JsonValue)>)
    ensures
        row_of_members(members) is Some <==> (member(members, "pid"@) matches Some(
            outside::JsonValue::Unsigned(n),
        ) && n < 0x1_0000_0000),
        row_of_members(members) matches Some(row) ==> {
            &&& member(members, "pid"@) == Some(outside::JsonValue::Unsigned(row.pid as u64))
            &&& (row.identity is Some) == (member(members, "identity"@) is Some && member(
                members,
                "identity"@,
            )->0 is Text)
            &&& row.identity is Some ==> member(members, "identity"@) == Some(
                outside::JsonValue::Text(row.identity->0),
            )
            &&& member(members, "purpose"@) == Some(outside::JsonValue::Text(row.purpose))
                || row.purpose == "unknown"@
            &&& (member(members, "purpose"@) is Some && member(members, "purpose"@)->0 is Text)
                ==> member(members, "purpose"@) == Some(outside::JsonValue::Text(row.purpose))
        },
{
}

/// A ledger is read line by line: blank lines are passed over, and every other
/// line is a row, in order. `of` lists the lines that are not blank.
pub proof fn law_every_written_line_is_a_row(lines: Seq<Seq<char>>) -> (of: Seq<int>)
    ensures
        rows_of_lines(lines) matches Ok(rows) ==> {
            &&& rows.len() == of.len()
            &&& rows.len() <= 256
            &&& forall|k: int|
                0 <= k < of.len() ==> 0 <= #[trigger] of[k] < lines.len() && row_of_line(
                    lines[of[k]],
                ) == Some(rows[k])
            &&& forall|i: int, j: int| 0 <= i < j < of.len() ==> of[i] < of[j]
            &&& forall|l: int|
                0 <= l < lines.len() ==> (of.contains(l) <==> text::trim(#[trigger] lines[l]).len()
                    > 0)
        },
        rows_of_lines(lines) matches Err(LedgerError::Corrupt { line }) ==> lines.len()
            <= usize::MAX ==> 1 <= line <= lines.len() && row_of_line(lines[line - 1]) is None
            && text::trim(lines[line - 1]).len() > 0 && rows_of_lines(lines.take(line - 1)) is Ok,
    decreases lines.len(),
{
    if lines.len() == 0 {
        Seq::empty()
    } else {
        let front = lines.drop_last();
        let before = law_every_written_line_is_a_row(front);
        let last = lines.len() - 1;
        assert(forall|l: int| 0 <= l < front.len() ==> front[l] == #[trigger] lines[l]);
        match rows_of_lines(front) {
            Err(e) => {
                if let LedgerError::Corrupt { line } = e {
                    if lines.len() <= usize::MAX {
                        assert(front.take(line - 1) =~= lines.take(line - 1));
                    }
                }
                before
            },
            Ok(rows) => {
                assert(lines.take(last) =~= front);
                if text::trim(lines.last()).len() == 0 {
                    assert forall|l: int| 0 <= l < lines.len() implies (before.contains(l)
                        <==> text::trim(#[trigger] lines[l]).len() > 0) by {
                        if l < last {
                            assert(front[l] == lines[l]);
                        }
                    }
                    before
                } else {
                    let of = before.push(last);
                    if rows_of_lines(lines) is Ok {
                        let all = rows_of_lines(lines)->Ok_0;
                        assert forall|k: int| 0 <= k < of.len() implies 0 <= #[trigger] of[k]
                            < lines.len() && row_of_line(lines[of[k]]) == Some(all[k]) by {
                            if k < before.len() {
                                assert(of[k] == before[k]);
                                assert(front[before[k]] == lines[before[k]]);
                            }
                        }
                        assert forall|l: int| 0 <= l < lines.len() implies (of.contains(l)
                            <==> text::trim(#[trigger] lines[l]).len() > 0) by {
                            if l < last {
                                assert(front[l] == lines[l]);
                                if before.contains(l) {
                                    let w = choose|w: int|
                                        0 <= w < before.len() && before[w] == l;
                                    assert(of[w] == l);
                                }
                                if of.contains(l) {
                                    let w = choose|w: int| 0 <= w < of.len() && of[w] == l;
                                    assert(before[w] == l);
                                }
                            } else {
                                assert(of[before.len() as int] == last);
                            }
                        }
                    }
                    of
                }
            },
        }
    }
}

/// A ledger of no rows is no file; one of up to two hundred and fifty-six rows
/// and sixty-four kibibytes is its rows, one line each; anything larger is
/// refused.
pub proof fn law_a_ledger_is_written_within_its_bounds(rows: Seq<Row>)
    requires
        rows.len() <= usize::MAX,
    ensures
        rows.len() == 0 ==> written(rows) == Ok::<_, LedgerError>(FileChange::Remove),
        0 < rows.len() <= 256 && vstd::utf8::encode_utf8(payload(rows)).len() <= 65_536 ==> written(
            rows,
        ) == Ok::<_, LedgerError>(FileChange::Replace(payload(rows))),
        rows.len() > 256 || (rows.len() > 0 && vstd::utf8::encode_utf8(payload(rows)).len()
            > 65_536) ==> written(rows) == Err::<FileChange, _>(
            LedgerError::OverLimit { rows: rows.len() as usize },
        ),
        rows.len() > 0 ==> payload(rows) == payload(rows.drop_last()) + row_text(rows.last())
            + seq!['\n'],
        payload(Seq::empty()) == Seq::<char>::empty(),
        MAX_LEDGER_ROWS == 256,
        MAX_LEDGER_BYTES == 65_536,
{
    text::lemma_byte_len_is_utf8(payload(rows));
}

/// Recording a child leaves the rows that were there and adds its row behind
/// them; process 0 changes nothing, and a ledger that cannot be read, or is
/// full, is not written.
pub proof fn law_a_record_adds_one_row(content: Option<Seq<char>>, row: Row)
    ensures
        row.pid == 0 ==> recorded(content, row) == Ok::<_, LedgerError>(FileChange::Unchanged),
        row.pid != 0 ==> (rows_of_file(content) matches Err(e) ==> recorded(content, row) == Err::<
            FileChange,
            _,
        >(e)),
        row.pid != 0 ==> (rows_of_file(content) matches Ok(rows) ==> (recorded(content, row)
            matches Ok(change) ==> change == FileChange::Replace(payload(rows.push(row)))
            && rows.len() < 256)),
        row.pid != 0 ==> (rows_of_file(content) matches Ok(rows) ==> (rows.len() < 256
            && vstd::utf8::encode_utf8(payload(rows.push(row))).len() <= 65_536 ==> recorded(
            content,
            row,
        ) == Ok::<_, LedgerError>(FileChange::Replace(payload(rows.push(row)))))),
        row.pid != 0 ==> (rows_of_file(content) matches Ok(rows) ==> (rows.len() >= 256
            ==> recorded(content, row) is Err)),
        rows_of_file(None) == Ok::<Seq<Row>, LedgerError>(Seq::empty()),
{
    if let Ok(rows) = rows_of_file(content) {
        text::lemma_byte_len_is_utf8(payload(rows.push(row)));
        assert(rows.push(row).drop_last() =~= rows);
        text::lemma_byte_len_concat(payload(rows) + row_text(row), seq!['\n']);
        text::lemma_byte_len_concat(payload(rows), row_text(row));
    }
}

/// A ledger is read only within its bound of bytes, and then by its lines.
pub proof fn law_a_ledger_is_read_by_its_lines(content: Seq<char>)
    ensures
        vstd::utf8::encode_utf8(content).len() <= 65_536 ==> rows_of_text(content) == rows_of_lines(
            text::lines(content),
        ),
        vstd::utf8::encode_utf8(content).len() > 65_536 ==> rows_of_text(content) is Err,
{
    text::lemma_byte_len_is_utf8(content);
}

/// The rows of a process are those of its number whose token is the same, or
/// that have none where there is none; a release leaves all others in order.
pub proof fn law_a_release_leaves_the_others_in_order(rows: Seq<Row>, pid: u32, token: Seq<char>)
    ensures
        without(rows, pid, token) == rows.filter(
            |row: Row|
                !(row.pid == pid && row.identity == if token.len() == 0 {
                    None
                } else {
                    Some(token)
                }),
        ),
    decreases rows.len(),
{
    reveal(Seq::filter);
    let others = |row: Row|
        !(row.pid == pid && row.identity == if token.len() == 0 {
            None
        } else {
            Some(token)
        });
    if rows.len() > 0 {
        law_a_release_leaves_the_others_in_order(rows.drop_last(), pid, token);
        assert(others(rows.last()) == !is_row_of(rows.last(), pid, token));
    }
}

/// A release writes the ledger without the process's rows where it has any,
/// and leaves the file as it is where it has none.
pub proof fn law_a_release_writes_only_what_changed(
    content: Option<Seq<char>>,
    pid: u32,
    token: Seq<char>,
)
    ensures
        rows_of_file(content) matches Err(e) ==> released(content, pid, token) == Err::<
            FileChange,
            _,
        >(e),
        rows_of_file(content) matches Ok(rows) ==> {
            &&& without(rows, pid, token) == rows ==> (released(content, pid, token) == Ok::<
                _,
                LedgerError,
            >(FileChange::Unchanged))
            &&& without(rows, pid, token) != rows ==> (released(content, pid, token) == written(
                without(rows, pid, token),
            ))
        },
{
    if let Ok(rows) = rows_of_file(content) {
        lemma_without_length(rows, pid, token);
        if !has_row_of(rows, pid, token) {
            lemma_without_none(rows, pid, token);
        }
    }
}

proof fn lemma_without_length(rows: Seq<Row>, pid: u32, token: Seq<char>)
    ensures
        without(rows, pid, token).len() <= rows.len(),
        has_row_of(rows, pid, token) ==> without(rows, pid, token).len() < rows.len(),
    decreases rows.len(),
{
    if rows.len() > 0 {
        lemma_without_length(rows.drop_last(), pid, token);
        if has_row_of(rows, pid, token) && !is_row_of(rows.last(), pid, token) {
            let i = choose|i: int| 0 <= i < rows.len() && is_row_of(#[trigger] rows[i], pid, token);
            assert(rows.drop_last()[i] == rows[i]);
        }
    }
}

proof fn lemma_without_none(rows: Seq<Row>, pid: u32, token: Seq<char>)
    requires
        !has_row_of(rows, pid, token),
    ensures
        without(rows, pid, token) == rows,
    decreases rows.len(),
{
    if rows.len() > 0 {
        let rest = rows.drop_last();
        assert(!has_row_of(rest, pid, token)) by {
            if has_row_of(rest, pid, token) {
                let i = choose|i: int|
                    0 <= i < rest.len() && is_row_of(#[trigger] rest[i], pid, token);
                assert(rows[i] == rest[i]);
            }
        }
        lemma_without_none(rest, pid, token);
        assert(!is_row_of(rows[rows.len() - 1], pid, token));
        assert(rest.push(rows.last()) =~= rows);
    } else {
        assert(rows =~= Seq::empty());
    }
}

/// Which processes are reported under a fate, and which rows stay: exactly
/// those of the rows that met it, or of the two fates that leave a child
/// behind. Row `i` decides for itself.
pub proof fn law_each_row_is_reported_under_its_fate(
    rows: Seq<Row>,
    fates: Seq<Fate>,
    fate: Fate,
    i: int,
)
    requires
        rows.len() == fates.len(),
        0 <= i < rows.len(),
    ensures
        fates[i] == fate ==> pids_with(rows, fates, fate).contains(rows[i].pid),
        fates[i] == Fate::Unverified || fates[i] == Fate::Unconfirmed ==> rows_left(
            rows,
            fates,
        ).contains(rows[i]),
        forall|p: u32|
            #[trigger] pids_with(rows, fates, fate).contains(p) ==> exists|k: int|
                0 <= k < rows.len() && (#[trigger] rows[k]).pid == p && fates[k] == fate,
        forall|r: Row|
            #[trigger] rows_left(rows, fates).contains(r) ==> exists|k: int|
                0 <= k < rows.len() && #[trigger] rows[k] == r && (fates[k] == Fate::Unverified
                    || fates[k] == Fate::Unconfirmed),
    decreases rows.len(),
{
    let front = rows.drop_last();
    let front_fates = fates.drop_last();
    let last = rows.len() - 1;
    let pids = pids_with(rows, fates, fate);
    let fewer = pids_with(front, front_fates, fate);
    let left = rows_left(rows, fates);
    let fewer_left = rows_left(front, front_fates);
    if front.len() > 0 {
        law_each_row_is_reported_under_its_fate(
            front,
            front_fates,
            fate,
            if i < last {
                i
            } else {
                0
            },
        );
    }
    if fates[i] == fate {
        if i < last {
            let w = choose|w: int| 0 <= w < fewer.len() && fewer[w] == front[i].pid;
            assert(pids[w] == rows[i].pid);
        } else {
            assert(pids[fewer.len() as int] == rows[i].pid);
        }
    }
    if fates[i] == Fate::Unverified || fates[i] == Fate::Unconfirmed {
        if i < last {
            let w = choose|w: int| 0 <= w < fewer_left.len() && fewer_left[w] == front[i];
            assert(left[w] == rows[i]);
        } else {
            assert(left[fewer_left.len() as int] == rows[i]);
        }
    }
    assert forall|p: u32| #[trigger] pids.contains(p) implies exists|k: int|
        0 <= k < rows.len() && (#[trigger] rows[k]).pid == p && fates[k] == fate by {
        let w = choose|w: int| 0 <= w < pids.len() && pids[w] == p;
        if w < fewer.len() {
            assert(fewer[w] == p);
            assert(fewer.contains(p));
            let k = choose|k: int|
                0 <= k < front.len() && (#[trigger] front[k]).pid == p && front_fates[k] == fate;
            assert(rows[k] == front[k]);
        } else {
            assert(rows[last].pid == p);
        }
    }
    assert forall|r: Row| #[trigger] left.contains(r) implies exists|k: int|
        0 <= k < rows.len() && #[trigger] rows[k] == r && (fates[k] == Fate::Unverified || fates[k]
            == Fate::Unconfirmed) by {
        let w = choose|w: int| 0 <= w < left.len() && left[w] == r;
        if w < fewer_left.len() {
            assert(fewer_left[w] == r);
            assert(fewer_left.contains(r));
            let k = choose|k: int|
                0 <= k < front.len() && #[trigger] front[k] == r && (front_fates[k]
                    == Fate::Unverified || front_fates[k] == Fate::Unconfirmed);
            assert(rows[k] == front[k]);
        } else {
            assert(rows[last] == r);
        }
    }
}

/// What became of a child that was found: one that has exited, or whose number
/// another process has, is stale; one that cannot be told apart is unverified;
/// of one that was ended, the confirmation decides.
pub proof fn law_the_fate_follows_from_what_was_found(row: Row, finding: Finding)
    requires
        decides(row, finding),
    ensures
        finding.observed@ == Sight::Exited ==> fate_found(row, finding) == Fate::Stale,
        finding.observed@ == Sight::Unknown ==> fate_found(row, finding) == Fate::Unverified,
        finding.observed@ is Running && row.identity is None ==> fate_found(row, finding)
            == Fate::Unverified,
        verdict_on(row, finding.observed@) == Verdict::Kill && finding.cleanup == Some(
            Cleanup::Unconfirmed,
        ) ==> fate_found(row, finding) == Fate::Unconfirmed,
        verdict_on(row, finding.observed@) == Verdict::Kill && finding.cleanup == Some(
            Cleanup::Failed,
        ) ==> fate_found(row, finding) == Fate::Unverified,
        verdict_on(row, finding.observed@) == Verdict::Kill && finding.cleanup == Some(
            Cleanup::AlreadyExited,
        ) ==> fate_found(row, finding) == Fate::Stale,
        verdict_on(row, finding.observed@) == Verdict::Kill && finding.cleanup == Some(
            Cleanup::IdentityMismatch,
        ) ==> fate_found(row, finding) == Fate::Stale,
        (finding.observed@ matches Sight::Running(current) && row.identity matches Some(token)
            && token.len() > 0 && current.len() > 0 && token != current) ==> fate_found(row, finding)
            == Fate::Stale,
{
}

/// A path is joined with exactly one slash between its parts.
pub proof fn law_parts_are_joined_with_one_slash(base: Seq<char>, part: Seq<char>)
    ensures
        base.len() == 0 ==> joined(base, part) == part,
        base.len() > 0 && base.last() != '/' ==> joined(base, part) == base + seq!['/'] + part,
        base.len() > 0 && base.last() == '/' ==> joined(base, part) == base + part,
{
    reveal_strlit("/");
    assert("/"@ =~= seq!['/']);
    if base.len() == 0 {
        assert(joined(base, part) =~= part);
    }
}

/// A ledger over its bound of bytes is refused unread, with no rows counted.
pub proof fn law_an_oversized_ledger_is_not_read(content: Seq<char>)
    requires
        vstd::utf8::encode_utf8(content).len() > 65_536,
    ensures
        rows_of_text(content) == Err::<Seq<Row>, _>(LedgerError::OverLimit { rows: 0 }),
{
    text::lemma_byte_len_is_utf8(content);
}

/// A recorded child has its number, its purpose, and its token where it has
/// one; the row is written as an object of these three.
pub proof fn law_a_recorded_row_holds_its_child(pid: u32, token: Seq<char>, purpose: Seq<char>)
    ensures
        row_for(pid, token, purpose).pid == pid,
        row_for(pid, token, purpose).purpose == purpose,
        token.len() > 0 ==> row_for(pid, token, purpose).identity == Some(token),
        token.len() == 0 ==> row_for(pid, token, purpose).identity is None,
        row_of_members(members_of_row(row_for(pid, token, purpose))) == Some(
            row_for(pid, token, purpose),
        ),
        is_row_of(row_for(pid, token, purpose), pid, token),
{
    let row = row_for(pid, token, purpose);
    let members = members_of_row(row);
    reveal_strlit("identity");
    reveal_strlit("pid");
    reveal_strlit("purpose");
    assert("identity"@.len() == 8 && "pid"@.len() == 3 && "purpose"@.len() == 7);
    law_a_member_is_the_first_of_its_name(members, "identity"@, 0);
    law_a_member_is_the_first_of_its_name(members, "pid"@, 1);
    law_a_member_is_the_first_of_its_name(members, "purpose"@, 2);
}

/// A full ledger takes no further row, and the refusal counts the rows that it
/// holds.
pub proof fn law_a_full_ledger_takes_no_row(rows: Seq<Row>, row: Row)
    requires
        256 <= rows.len() <= usize::MAX,
    ensures
        with_row(rows, row) == Err::<FileChange, _>(
            LedgerError::OverLimit { rows: rows.len() as usize },
        ),
{
}

} // verus!
