//! Paging under one final budget.
//!
//! Every tool that pages source content renders its page under the budget
//! the reader's side enforces, so a page that fits here arrives verbatim.
//! [`finalize_within_budget`] measures the finished page and drops trailing
//! spans until it fits; what a page claims to have delivered is read off the
//! spans that were kept.
use crate::echo;
use crate::text;
use vstd::prelude::*;

verus! {

/// The size of a finished page, in characters.
pub const FINAL_BODY_CHARS: usize = 16_000;

/// One delivered interval of a source: the shown part of one line, under the
/// line's true number.
#[derive(Debug)]
pub struct DeliveredSpan {
    pub line: usize,
    /// Where the shown part ends, in the source's own coordinates.
    pub shown_to: usize,
    /// Whether all of the line's content is shown.
    pub complete: bool,
    /// The shown part, without number and line break.
    pub text: String,
}

/// How wide a row's number and separator are.
pub open spec fn prefix_chars(line: nat) -> nat {
    echo::aligned(line).len() + 3
}

/// The width of the number and separator in front of a line.
pub fn rendered_prefix_chars(line: usize) -> (n: usize)
    ensures
        n == prefix_chars(line as nat),
        n <= 24,
{
    let digits = text::dec_string(line as u64);
    let shown: usize = text::chars_of(digits.as_str()).len();
    proof {
        lemma_dec_digits(line as nat);
    }
    if shown < echo::LINE_NUMBER_WIDTH {
        echo::LINE_NUMBER_WIDTH + 3
    } else {
        shown + 3
    }
}

/// Ten to the power `k`.
pub open spec fn ten_to(k: nat) -> nat
    decreases k,
{
    if k == 0 {
        1
    } else {
        10 * ten_to((k - 1) as nat)
    }
}

/// A number below ten to the power `k` has at most `k` digits.
pub proof fn lemma_dec_len(n: nat, k: nat)
    requires
        n < ten_to(k),
        k >= 1,
    ensures
        1 <= text::dec(n).len() <= k,
    decreases k,
{
    if n >= 10 {
        if k == 1 {
            assert(ten_to(1) == 10) by {
                reveal_with_fuel(ten_to, 2);
            }
        } else {
            assert(n / 10 < ten_to((k - 1) as nat));
            lemma_dec_len(n / 10, (k - 1) as nat);
        }
    }
}

/// A 64-bit number has at most twenty digits.
pub proof fn lemma_dec_digits(n: nat)
    requires
        n <= u64::MAX,
    ensures
        1 <= text::dec(n).len() <= 20,
{
    assert(ten_to(20) == 100_000_000_000_000_000_000) by {
        reveal_with_fuel(ten_to, 21);
    }
    lemma_dec_len(n, 20);
}

/// A larger number has no fewer digits.
pub proof fn lemma_dec_len_monotone(a: nat, b: nat)
    requires
        a <= b,
    ensures
        text::dec(a).len() <= text::dec(b).len(),
    decreases b,
{
    if a >= 10 {
        lemma_dec_len_monotone(a / 10, b / 10);
    }
}

/// One row of a page.
pub open spec fn span_row(span: DeliveredSpan) -> Seq<char> {
    echo::aligned(span.line as nat) + " | "@ + span.text@
}

/// The rows of a page, under their true line numbers.
pub open spec fn span_rows(spans: Seq<DeliveredSpan>) -> Seq<char> {
    text::join(Seq::new(spans.len(), |i: int| span_row(spans[i])), "\n"@)
}

/// Renders the rows of a page.
pub fn render_numbered_spans(spans: &Vec<DeliveredSpan>) -> (out: String)
    ensures
        out@ == span_rows(spans@),
{
    let mut rows: Vec<String> = Vec::new();
    let mut i: usize = 0;
    while i < spans.len()
        invariant
            i <= spans@.len(),
            text::views(rows@) == Seq::new(i as nat, |j: int| span_row(spans@[j])),
        decreases spans@.len() - i,
    {
        let mut row = echo::aligned_number(spans[i].line);
        row.append(" | ");
        row.append(spans[i].text.as_str());
        proof {
            text::lemma_views_push(rows@, row);
        }
        rows.push(row);
        i = i + 1;
        assert(text::views(rows@) =~= Seq::new(i as nat, |j: int| span_row(spans@[j])));
    }
    text::join_strings(&rows, "\n")
}

/// The footer that states what a page covers, where there is something to
/// state.
pub open spec fn footer_of(clauses: Seq<Seq<char>>) -> Option<Seq<char>> {
    if clauses.len() == 0 {
        None
    } else {
        Some("[coverage] "@ + text::join(clauses, "; "@))
    }
}

/// Builds the coverage footer.
pub fn coverage_footer(clauses: &Vec<String>) -> (r: Option<String>)
    ensures
        match r {
            Some(f) => footer_of(text::views(clauses@)) == Some(f@),
            None => footer_of(text::views(clauses@)) is None,
        },
{
    if clauses.len() == 0 {
        return None;
    }
    let mut out = "[coverage] ".to_owned();
    out.append(text::join_strings(clauses, "; ").as_str());
    Some(out)
}

/// A page with its footer on a line of its own.
pub open spec fn with_footer(content: Seq<char>, footer: Option<Seq<char>>) -> Seq<char> {
    match footer {
        Some(f) => content + "\n"@ + f,
        None => content,
    }
}

/// Appends the coverage footer to a page.
pub fn with_coverage_footer(content: String, footer: Option<String>) -> (out: String)
    ensures
        out@ == with_footer(
            content@,
            match footer {
                Some(f) => Some(f@),
                None => None,
            },
        ),
{
    let mut out = content;
    if let Some(f) = footer {
        out.append("\n");
        out.append(f.as_str());
    }
    out
}

/// A tool's way to render a page from the spans it delivers.
pub trait PageRenderer {
    /// The finished page: header, rows and footer.
    spec fn page_text(&self, spans: Seq<DeliveredSpan>) -> Seq<char>;

    /// Whether the renderer's fields are consistent.
    spec fn inv(&self) -> bool;

    fn render(&self, spans: &Vec<DeliveredSpan>) -> (out: String)
        requires
            self.inv(),
        ensures
            out@ == self.page_text(spans@),
    ;
}

/// How many of the first `n` spans are kept: as many as leave the finished
/// page inside the budget.
pub open spec fn kept<R: PageRenderer>(
    renderer: R,
    spans: Seq<DeliveredSpan>,
    n: int,
    budget: int,
) -> int
    decreases n,
{
    if n <= 0 || renderer.page_text(spans.take(n)).len() <= budget {
        n
    } else {
        kept(renderer, spans, n - 1, budget)
    }
}

pub proof fn lemma_kept<R: PageRenderer>(
    renderer: R,
    spans: Seq<DeliveredSpan>,
    n: int,
    budget: int,
)
    requires
        0 <= n <= spans.len(),
    ensures
        0 <= kept(renderer, spans, n, budget) <= n,
        kept(renderer, spans, n, budget) == 0 || renderer.page_text(
            spans.take(kept(renderer, spans, n, budget)),
        ).len() <= budget,
    decreases n,
{
    if n > 0 && renderer.page_text(spans.take(n)).len() > budget {
        lemma_kept(renderer, spans, n - 1, budget);
    }
}

/// A finished page and the spans it delivers.
pub struct FinalizedPage {
    pub body: String,
    pub spans: Vec<DeliveredSpan>,
}

/// Renders a page and drops trailing spans until it fits the budget. The
/// spans that are returned bound every position the page may name: nothing
/// that was dropped counts as delivered.
pub fn finalize_within_budget<R: PageRenderer>(
    spans: Vec<DeliveredSpan>,
    renderer: &R,
) -> (r: FinalizedPage)
    requires
        renderer.inv(),
    ensures
        ({
            let k = kept(*renderer, spans@, spans@.len() as int, FINAL_BODY_CHARS as int);
            &&& r.spans@ == spans@.take(k)
            &&& r.body@ == renderer.page_text(r.spans@)
            &&& r.spans@.len() == 0 || r.body@.len() <= FINAL_BODY_CHARS
        }),
{
    let mut kept_spans = spans;
    let ghost all = spans@;
    let ghost budget = FINAL_BODY_CHARS as int;
    assert(all.take(all.len() as int) =~= all);
    loop
        invariant
            kept_spans@.len() <= all.len(),
            kept_spans@ == all.take(kept_spans@.len() as int),
            renderer.inv(),
            budget == FINAL_BODY_CHARS,
            kept(*renderer, all, all.len() as int, budget) == kept(
                *renderer,
                all,
                kept_spans@.len() as int,
                budget,
            ),
            spans@ == all,
        decreases kept_spans@.len(),
    {
        let body = renderer.render(&kept_spans);
        let size: usize = text::chars_of(body.as_str()).len();
        if size <= FINAL_BODY_CHARS || kept_spans.len() == 0 {
            return FinalizedPage { body, spans: kept_spans };
        }
        let ghost before = kept_spans@;
        kept_spans.pop();
        assert(kept_spans@ =~= all.take(kept_spans@.len() as int));
    }
}

/// A page keeps the most of its first spans whose finished page fits the
/// budget, and none where not even the empty page fits.
pub proof fn law_a_page_keeps_the_most_that_fit<R: PageRenderer>(
    renderer: R,
    spans: Seq<DeliveredSpan>,
    n: int,
    budget: int,
    m: int,
)
    requires
        0 <= n <= spans.len(),
        kept(renderer, spans, n, budget) < m <= n,
    ensures
        renderer.page_text(spans.take(m)).len() > budget,
    decreases n,
{
    if !(n <= 0 || renderer.page_text(spans.take(n)).len() <= budget) {
        if m < n {
            law_a_page_keeps_the_most_that_fit(renderer, spans, n - 1, budget, m);
        }
    }
}

/// A footer stands on a line of its own behind the page, and names every
/// clause in order; a page without clauses has none.
pub proof fn law_a_footer_names_every_clause(content: Seq<char>, clauses: Seq<Seq<char>>)
    ensures
        clauses.len() == 0 ==> with_footer(content, footer_of(clauses)) == content,
        clauses.len() > 0 ==> with_footer(content, footer_of(clauses)) == content
            + "\n[coverage] "@ + text::join(clauses, "; "@),
        FINAL_BODY_CHARS == 16_000,
{
    if clauses.len() > 0 {
        reveal_strlit("\n[coverage] ");
        reveal_strlit("\n");
        reveal_strlit("[coverage] ");
        assert("\n[coverage] "@ =~= "\n"@ + "[coverage] "@);
        assert(with_footer(content, footer_of(clauses)) =~= content + "\n[coverage] "@
            + text::join(clauses, "; "@));
    }
}

/// The rows of a page are its spans in order, each as its number and its text.
pub proof fn law_a_row_is_its_span(spans: Seq<DeliveredSpan>)
    requires
        spans.len() > 1,
    ensures
        span_rows(spans) == span_rows(spans.drop_last()) + "\n"@ + echo::aligned(
            spans.last().line as nat,
        ) + " | "@ + spans.last().text@,
{
    let all = Seq::new(spans.len(), |i: int| span_row(spans[i]));
    let fewer = Seq::new(spans.drop_last().len(), |i: int| span_row(spans.drop_last()[i]));
    assert(all.drop_last() =~= fewer);
    assert(span_rows(spans) =~= span_rows(spans.drop_last()) + "\n"@ + echo::aligned(
        spans.last().line as nat,
    ) + " | "@ + spans.last().text@);
}

} // verus!
