//! Cursors into a snapshot: `<artifact reference>#<line offset>`.
//!
//! Every page is served from the same immutable snapshot, so pages neither
//! repeat nor skip a line whatever happens to what the snapshot was taken of.
use crate::outside;
use crate::text;
use vstd::prelude::*;

verus! {

/// The largest snapshot that is read back, in bytes.
pub const MAX_SNAPSHOT_BYTES: u64 = 2_097_152;

/// Why a cursor or its snapshot is rejected.
#[derive(Clone, Copy, Debug, PartialEq, Eq, Structural)]
pub enum CursorError {
    /// There is no `#`.
    Malformed,
    /// What stands behind the last `#` is no offset.
    BadOffset,
    /// The snapshot is larger than any that is written.
    SnapshotTooLarge,
    /// The offset lies behind the last line.
    PastEnd { offset: usize, total: usize },
}

/// The text of a cursor error.
pub open spec fn cursor_error_text(e: CursorError, cursor: Seq<char>) -> Seq<char> {
    match e {
        CursorError::Malformed => "malformed cursor (expected <artifact_ref>#<offset>): "@
            + outside::str_debug(cursor),
        CursorError::BadOffset => "malformed cursor offset: "@ + outside::str_debug(cursor),
        CursorError::SnapshotTooLarge => "snapshot artifact exceeds "@ + text::dec(
            MAX_SNAPSHOT_BYTES as nat,
        ) + " bytes"@,
        CursorError::PastEnd { offset, total } => "cursor is past the end of the snapshot ("@
            + text::dec(offset as nat) + " > "@ + text::dec(total as nat) + " lines)"@,
    }
}

impl CursorError {
    /// The text of the error on a cursor.
    pub fn message(&self, cursor: &str) -> (out: String)
        ensures
            out@ == cursor_error_text(*self, cursor@),
    {
        match self {
            CursorError::Malformed => {
                let mut out = "malformed cursor (expected <artifact_ref>#<offset>): ".to_owned();
                out.append(outside::debug_quoted(cursor).as_str());
                out
            },
            CursorError::BadOffset => {
                let mut out = "malformed cursor offset: ".to_owned();
                out.append(outside::debug_quoted(cursor).as_str());
                out
            },
            CursorError::SnapshotTooLarge => {
                let mut out = "snapshot artifact exceeds ".to_owned();
                text::push_dec(&mut out, MAX_SNAPSHOT_BYTES);
                out.append(" bytes");
                out
            },
            CursorError::PastEnd { offset, total } => {
                let mut out = "cursor is past the end of the snapshot (".to_owned();
                text::push_dec(&mut out, *offset as u64);
                out.append(" > ");
                text::push_dec(&mut out, *total as u64);
                out.append(" lines)");
                out
            },
        }
    }
}

/// Where the last `#` of the first `to` characters stands, or -1.
pub open spec fn last_hash(s: Seq<char>, to: int) -> int
    decreases to,
{
    if to <= 0 {
        -1
    } else if s[to - 1] == '#' {
        to - 1
    } else {
        last_hash(s, to - 1)
    }
}

/// What a cursor means: the reference before the last `#` and the offset
/// behind it.
pub open spec fn cursor_meaning(cursor: Seq<char>) -> Result<(Seq<char>, nat), CursorError> {
    let at = last_hash(cursor, cursor.len() as int);
    if at < 0 {
        Err(CursorError::Malformed)
    } else {
        match text::parse_unsigned(cursor.skip(at + 1), usize::MAX as nat) {
            Some(offset) => Ok((cursor.take(at), offset)),
            None => Err(CursorError::BadOffset),
        }
    }
}

/// The cursor of a line in a snapshot.
pub open spec fn cursor_text(reference: Seq<char>, offset: nat) -> Seq<char> {
    reference + "#"@ + text::dec(offset)
}

/// Reads a cursor.
pub fn parse_cursor(cursor: &str) -> (r: Result<(String, usize), CursorError>)
    ensures
        match r {
            Ok((reference, offset)) => cursor_meaning(cursor@) == Ok::<
                (Seq<char>, nat),
                CursorError,
            >((reference@, offset as nat)),
            Err(e) => cursor_meaning(cursor@) == Err::<(Seq<char>, nat), CursorError>(e),
        },
{
    let chars = text::chars_of(cursor);
    let mut to: usize = chars.len();
    while to > 0 && chars[to - 1] != '#'
        invariant
            chars@ == cursor@,
            to <= chars@.len(),
            last_hash(cursor@, cursor@.len() as int) == last_hash(cursor@, to as int),
        decreases to,
    {
        to = to - 1;
    }
    if to == 0 {
        return Err(CursorError::Malformed);
    }
    let digits = text::string_of_range(&chars, to, chars.len());
    let digit_chars = text::chars_of(digits.as_str());
    assert(chars@.subrange(to as int, chars@.len() as int) =~= cursor@.skip(to as int));
    match text::parse_bounded(&digit_chars, usize::MAX as u64) {
        Some(offset) => {
            let reference = text::string_of_range(&chars, 0, to - 1);
            assert(chars@.subrange(0, to - 1) =~= cursor@.take(to - 1));
            Ok((reference, offset as usize))
        },
        None => Err(CursorError::BadOffset),
    }
}

/// Writes the cursor of a line.
pub fn format_cursor(reference: &str, offset: usize) -> (out: String)
    ensures
        out@ == cursor_text(reference@, offset as nat),
{
    let mut out = reference.to_owned();
    out.append("#");
    text::push_dec(&mut out, offset as u64);
    out
}

proof fn lemma_last_hash_is_at(s: Seq<char>, at: int, to: int)
    requires
        0 <= at < to <= s.len(),
        s[at] == '#',
        forall|k: int| at < k < to ==> s[k] != '#',
    ensures
        last_hash(s, to) == at,
    decreases to,
{
    if to - 1 > at {
        lemma_last_hash_is_at(s, at, to - 1);
    }
}

/// Reading back a written cursor gives the reference and the offset, even
/// where the reference holds a `#` of its own.
pub proof fn law_a_cursor_reads_back(reference: Seq<char>, offset: nat)
    requires
        offset <= usize::MAX,
    ensures
        cursor_meaning(cursor_text(reference, offset)) == Ok::<(Seq<char>, nat), CursorError>(
            (reference, offset),
        ),
{
    let s = cursor_text(reference, offset);
    let at = reference.len() as int;
    reveal_strlit("#");
    text::lemma_parse_of_dec(offset);
    assert(s[at] == '#');
    assert forall|k: int| at < k < s.len() implies s[k] != '#' by {
        assert(s[k] == text::dec(offset)[k - at - 1]);
    }
    lemma_last_hash_is_at(s, at, s.len() as int);
    assert(s.skip(at + 1) =~= text::dec(offset));
    assert(s.take(at) =~= reference);
    assert(text::unsigned_digits(text::dec(offset)) == text::dec(offset));
}

/// The lines of a snapshot that was read back.
pub fn snapshot_lines(bytes: &[u8]) -> (r: Result<Vec<String>, CursorError>)
    ensures
        match r {
            Ok(lines) => {
                &&& bytes@.len() <= MAX_SNAPSHOT_BYTES
                &&& text::views(lines@) == text::lines(outside::utf8_lossy(bytes@))
                &&& vstd::utf8::valid_utf8(bytes@) ==> text::views(lines@) == text::lines(
                    vstd::utf8::decode_utf8(bytes@),
                )
            },
            Err(e) => bytes@.len() > MAX_SNAPSHOT_BYTES && e == CursorError::SnapshotTooLarge,
        },
{
    if bytes.len() as u64 > MAX_SNAPSHOT_BYTES {
        return Err(CursorError::SnapshotTooLarge);
    }
    let text = outside::lossy_text(bytes);
    let chars = text::chars_of(text.as_str());
    Ok(text::lines_of(&chars))
}

/// Where a page of `limit` lines from `offset` on ends.
pub open spec fn page_end(total: int, offset: int, limit: int) -> int {
    if limit <= total - offset {
        offset + limit
    } else {
        total
    }
}

/// The lines that following the cursors from `offset` on delivers.
pub open spec fn walk(lines: Seq<Seq<char>>, offset: int, limit: int) -> Seq<Seq<char>>
    decreases lines.len() - offset,
{
    if limit <= 0 || offset < 0 || offset >= lines.len() {
        Seq::empty()
    } else {
        let end = page_end(lines.len() as int, offset, limit);
        lines.subrange(offset, end) + walk(lines, end, limit)
    }
}

/// Following the cursors delivers every line exactly once and in order: no
/// page repeats a line and none is left out.
pub proof fn law_pages_cover_the_snapshot(lines: Seq<Seq<char>>, offset: int, limit: int)
    requires
        0 <= offset <= lines.len(),
        0 < limit,
    ensures
        walk(lines, offset, limit) == lines.skip(offset),
    decreases lines.len() - offset,
{
    if offset < lines.len() {
        let end = page_end(lines.len() as int, offset, limit);
        law_pages_cover_the_snapshot(lines, end, limit);
        assert(lines.subrange(offset, end) + lines.skip(end) =~= lines.skip(offset));
    } else {
        assert(lines.skip(offset) =~= Seq::<Seq<char>>::empty());
    }
}

/// Lines `from..to` of a list, joined.
pub fn join_lines(lines: &Vec<String>, from: usize, to: usize) -> (out: String)
    requires
        from <= to <= lines@.len(),
    ensures
        out@ == text::join(text::views(lines@).subrange(from as int, to as int), "\n"@),
{
    let mut part: Vec<String> = Vec::new();
    let mut i: usize = from;
    while i < to
        invariant
            from <= i <= to <= lines@.len(),
            text::views(part@) == text::views(lines@).subrange(from as int, i as int),
        decreases to - i,
    {
        let line = lines[i].clone();
        proof {
            text::lemma_views_push(part@, line);
            assert(text::views(lines@)[i as int] == line@);
        }
        part.push(line);
        i = i + 1;
        assert(text::views(part@) =~= text::views(lines@).subrange(from as int, i as int));
    }
    text::join_strings(&part, "\n")
}

/// Whether a text can be a row of a snapshot: it holds no line break.
pub open spec fn is_row(s: Seq<char>) -> bool {
    &&& forall|i: int| 0 <= i < s.len() ==> s[i] != '\n'
    &&& s.len() > 0 ==> s.last() != '\r'
}

proof fn lemma_line_feed_is(s: Seq<char>, i: int, end: int)
    requires
        0 <= i <= end <= s.len(),
        forall|k: int| i <= k < end ==> s[k] != '\n',
        end < s.len() ==> s[end] == '\n',
    ensures
        text::line_feed_from(s, i) == end,
    decreases end - i,
{
    if i < end {
        lemma_line_feed_is(s, i + 1, end);
    }
}

proof fn lemma_join_first(rows: Seq<Seq<char>>)
    requires
        rows.len() >= 2,
    ensures
        text::join(rows, "\n"@) == rows[0] + "\n"@ + text::join(rows.drop_first(), "\n"@),
    decreases rows.len(),
{
    let rest = rows.drop_first();
    if rows.len() == 2 {
        assert(text::join(rows.drop_last(), "\n"@) == rows[0]);
        assert(text::join(rest, "\n"@) == rows[1]);
    } else {
        lemma_join_first(rows.drop_last());
        assert(rows.drop_last().drop_first() =~= rest.drop_last());
        assert(text::join(rows, "\n"@) =~= rows[0] + "\n"@ + text::join(rest, "\n"@));
    }
}

proof fn lemma_lines_of_rows(before: Seq<char>, rows: Seq<Seq<char>>)
    requires
        rows.len() > 0,
        rows.last().len() > 0,
        forall|i: int| 0 <= i < rows.len() ==> is_row(#[trigger] rows[i]),
    ensures
        text::lines_from(before + text::join(rows, "\n"@), before.len() as int) == rows,
    decreases rows.len(),
{
    reveal_strlit("\n");
    let s = before + text::join(rows, "\n"@);
    let from = before.len() as int;
    let end = from + rows[0].len();
    assert(is_row(rows[0]));
    if rows.len() == 1 {
        assert(s =~= before + rows[0]);
        lemma_line_feed_is(s, from, end);
        assert(s.subrange(from, end) =~= rows[0]);
        assert(text::lines_from(s, from) =~= rows);
    } else {
        lemma_join_first(rows);
        let rest = rows.drop_first();
        let ahead = before + rows[0] + "\n"@;
        assert(s =~= ahead + text::join(rest, "\n"@));
        assert(forall|k: int| from <= k < end ==> s[k] == rows[0][k - from]);
        lemma_line_feed_is(s, from, end);
        assert(s.subrange(from, end) =~= rows[0]);
        assert forall|i: int| 0 <= i < rest.len() implies is_row(#[trigger] rest[i]) by {
            assert(rest[i] == rows[i + 1]);
        }
        lemma_lines_of_rows(ahead, rest);
        assert(seq![rows[0]] + rest =~= rows);
    }
}

/// A snapshot gives back what was written to it: rows without line breaks,
/// joined by line feeds and encoded, are read back as they were. A last row
/// that is empty would not be told from the break before it.
pub proof fn law_a_snapshot_reads_back(rows: Seq<Seq<char>>)
    requires
        rows.len() > 0,
        rows.last().len() > 0,
        forall|i: int| 0 <= i < rows.len() ==> is_row(#[trigger] rows[i]),
    ensures
        ({
            let bytes = vstd::utf8::encode_utf8(text::join(rows, "\n"@));
            &&& vstd::utf8::valid_utf8(bytes)
            &&& text::lines(vstd::utf8::decode_utf8(bytes)) == rows
        }),
{
    let joined = text::join(rows, "\n"@);
    vstd::utf8::encode_utf8_valid_utf8(joined);
    vstd::utf8::encode_utf8_decode_utf8(joined);
    lemma_lines_of_rows(Seq::empty(), rows);
    assert(Seq::<char>::empty() + joined =~= joined);
}

/// A cursor is read at its last hash: what stands before is the reference,
/// what stands behind the offset; without a hash it is malformed. `at` is the
/// last hash.
pub proof fn law_a_cursor_is_read_at_its_last_hash(cursor: Seq<char>, at: int)
    requires
        -1 <= at < cursor.len(),
        at >= 0 ==> cursor[at] == '#',
        forall|k: int| at < k < cursor.len() ==> #[trigger] cursor[k] != '#',
    ensures
        at < 0 ==> cursor_meaning(cursor) == Err::<(Seq<char>, nat), CursorError>(
            CursorError::Malformed,
        ),
        at >= 0 ==> cursor_meaning(cursor) == match text::parse_unsigned(
            cursor.skip(at + 1),
            usize::MAX as nat,
        ) {
            Some(n) => Ok::<(Seq<char>, nat), CursorError>((cursor.take(at), n)),
            None => Err(CursorError::BadOffset),
        },
{
    lemma_last_hash_is(cursor, at, cursor.len() as int);
}

proof fn lemma_last_hash_is(s: Seq<char>, at: int, to: int)
    requires
        -1 <= at < to <= s.len() || at == -1 && to == 0,
        at >= 0 ==> s[at] == '#',
        forall|k: int| at < k < to ==> #[trigger] s[k] != '#',
    ensures
        last_hash(s, to) == at,
    decreases to,
{
    if at < to - 1 {
        lemma_last_hash_is(s, at, to - 1);
    }
}

/// A page holds as many lines as its limit allows, and fewer only at the end.
pub proof fn law_a_page_is_full_or_the_last(total: int, offset: int, limit: int)
    requires
        0 <= offset <= total,
        0 <= limit,
    ensures
        page_end(total, offset, limit) <= total,
        page_end(total, offset, limit) - offset <= limit,
        page_end(total, offset, limit) == total || page_end(total, offset, limit) - offset
            == limit,
        MAX_SNAPSHOT_BYTES == 2 * 1024 * 1024,
{
}

} // verus!
