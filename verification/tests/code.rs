use tool_runtime::cursor::{parse_cursor, snapshot_lines};
use tool_runtime::diagnostics::{
    block, clamp_context, default_context, default_diag_limit, find_positions, oversized_reason,
    positions_of, DiagnosticsPage, Report, MAX_DIAG_FILE_BYTES, MAX_DIAG_INPUT_CHARS,
    MAX_DIAG_MODEL_CHARS,
};
use tool_runtime::symbols::{
    clamp_limit, default_symbols_limit, extension_of, first_page, inline_comment_at, language_of,
    rows, scan_file, scan_line, snapshot_page, snapshot_text, sort_symbols, Symbol, SymbolsPage,
    MAX_SYMBOLS, MODEL_SYMBOLS,
};
use tool_runtime::view::{EntryKind, Walk, WalkStep, WALK_YIELD_EVERY};

/// Scans files given by path and text, as a walk would meet them.
fn scan(files: &[(&str, &str)], query: &str, limit: usize) -> (Vec<String>, usize) {
    let mut symbols: Vec<Symbol> = Vec::new();
    let mut walk = Walk::new(100_000);
    let mut scanned: usize = 0;
    for (path, text) in files {
        let mut parts: Vec<&str> = path.split('/').collect();
        let name = parts.pop().unwrap();
        if parts
            .iter()
            .any(|dir| walk.visit(dir, EntryKind::Dir) != WalkStep::Descend)
        {
            continue;
        }
        assert_eq!(walk.visit(name, EntryKind::File), WalkStep::Collect);
        let extension = extension_of(name).unwrap_or_default();
        let language = match language_of(&extension) {
            Some(language) => language,
            None => continue,
        };
        scanned += 1;
        if scan_file(&mut symbols, text, language, path, query, limit) {
            break;
        }
    }
    (rows(&sort_symbols(symbols)), scanned)
}

fn page(files: &[(&str, &str)], query: &str) -> SymbolsPage {
    let (all, scanned) = scan(files, query, clamp_limit(default_symbols_limit()));
    first_page(&all, scanned, None)
}

#[test]
fn symbols_scan_rust_definitions_with_columns() {
    let content = page(
        &[(
            "src/lib.rs",
            "pub fn auth() {}\n\
             struct User {}\n\
             enum Role {}\n\
             trait Actor {}\n\
             impl User {}\n\
             const LIMIT: u32 = 10;\n\
             static mut COUNT: u32 = 0;\n\
             type Alias = u32;\n\
             mod helpers {}\n\
             macro_rules! make_id {}\n",
        )],
        "",
    )
    .content;
    for expected in [
        "src/lib.rs:1:8  fn auth",
        "src/lib.rs:2:8  struct User",
        "src/lib.rs:3:6  enum Role",
        "src/lib.rs:4:7  trait Actor",
        "src/lib.rs:5:6  impl User",
        "src/lib.rs:6:7  const LIMIT",
        "src/lib.rs:7:12  static COUNT",
        "src/lib.rs:8:6  type Alias",
        "src/lib.rs:9:5  mod helpers",
        "src/lib.rs:10:14  macro make_id",
    ] {
        assert!(content.contains(expected), "missing {expected}: {content}");
    }
}

#[test]
fn symbols_scan_multiple_languages() {
    let content = page(
        &[
            (
                "app.py",
                "def parse(text):\n    return text\nclass Parser:\n    pass\nasync def fetch():\n    pass\n",
            ),
            (
                "web.ts",
                "export function render() {}\nclass View {}\ninterface Props {}\nconst base = 10;\nexport let counter = 0;\ntype Id = string;\n",
            ),
            (
                "srv.go",
                "package srv\nfunc main() {}\nfunc (r *Repo) Find(id int) {}\ntype Repo struct {}\nvar global = 1\n",
            ),
        ],
        "",
    )
    .content;
    for expected in [
        "app.py:1:5  def parse",
        "app.py:3:7  class Parser",
        "app.py:5:11  def fetch",
        "web.ts:1:17  function render",
        "web.ts:2:7  class View",
        "web.ts:3:11  interface Props",
        "web.ts:4:7  const base",
        "web.ts:5:12  let counter",
        "web.ts:6:6  type Id",
        "srv.go:2:6  func main",
        "srv.go:3:16  func Find",
        "srv.go:4:6  type Repo",
        "srv.go:5:5  var global",
    ] {
        assert!(content.contains(expected), "missing {expected}: {content}");
    }
}

#[test]
fn symbols_skip_comments_and_ignored_dirs() {
    let content = page(
        &[
            (
                "src/lib.rs",
                "// fn fake() {}\nfn real() {}\nlet x = 1; // fn trailing()\n",
            ),
            ("target/gen.rs", "fn generated() {}\n"),
            (".focus-agent/traces/x.rs", "fn traced() {}\n"),
        ],
        "",
    )
    .content;
    assert!(content.contains("fn real"), "real symbol missing: {content}");
    assert!(!content.contains("fake"), "comment symbol leaked: {content}");
    assert!(!content.contains("trailing"), "inline comment leaked: {content}");
    assert!(!content.contains("generated"), "ignored dir leaked: {content}");
    assert!(!content.contains("traced"), "state dir leaked: {content}");
}

#[test]
fn symbols_query_filter_and_c_like_heuristic() {
    let files = [
        (
            "main.c",
            "int main(int argc, char **argv) {\n    return 0;\n}\nvoid helper(int x) {}\nstatic void internal(void) {}\n",
        ),
        (
            "App.java",
            "public class App {\n    public static void main(String[] args) {}\n    private int compute() { return 1; }\n}\n",
        ),
    ];
    let content = page(&files, "").content;
    for expected in [
        "main.c:1:5  fn main",
        "main.c:4:6  fn helper",
        "main.c:5:13  fn internal",
        "App.java:1:14  class App",
        "App.java:2:24  method main",
        "App.java:3:17  method compute",
    ] {
        assert!(content.contains(expected), "missing {expected}: {content}");
    }

    let filtered = page(&files, "main").content;
    let lines: Vec<&str> = filtered.lines().collect();
    assert_eq!(
        lines.len(),
        2,
        "query must filter to fn main + method main: {lines:?}"
    );
}

#[test]
fn symbols_bounds_and_pages_consistent_snapshot() {
    let mut body = String::new();
    for i in 0..250 {
        body.push_str(&format!("fn func_{i}() {{}}\n"));
    }
    let (all, scanned) = scan(&[("big.rs", &body)], "", clamp_limit(300));
    let snapshot = snapshot_text(&all).unwrap();
    let first = first_page(&all, scanned, Some("artifact://run/1"));
    assert_eq!(first.symbols, 250);
    assert!(first.has_more);
    assert_eq!(first.returned, MODEL_SYMBOLS);
    assert_eq!(first.summary, "250 symbols across 1 files");
    assert!(first
        .content
        .ends_with("\n... 150 more symbols; full list: artifact://run/1"));

    let mut shown: Vec<String> = all[..MODEL_SYMBOLS].to_vec();
    let mut total = first.returned;
    let mut cursor = first.cursor;
    while let Some(at) = cursor {
        let (reference, offset) = parse_cursor(&at).unwrap();
        assert_eq!(reference, "artifact://run/1");
        let lines = snapshot_lines(snapshot.as_bytes()).unwrap();
        let page = snapshot_page(&lines, &reference, offset).unwrap();
        assert_eq!(page.symbols, 250, "total comes from the snapshot");
        assert_eq!(page.has_more, page.cursor.is_some());
        total += page.returned;
        shown.extend(page.content.lines().map(String::from));
        cursor = page.cursor;
    }
    assert_eq!(total, 250, "all pages together must cover the snapshot");
    assert_eq!(shown, all);
}

#[test]
fn symbol_pages_state_their_bounds() {
    assert_eq!(clamp_limit(0), 1);
    assert_eq!(clamp_limit(5000), MAX_SYMBOLS);
    let none: Vec<String> = vec![];
    let empty = first_page(&none, 0, None);
    assert_eq!(empty.content, "no symbols found");
    assert_eq!(empty.summary, "0 symbols across 0 files");
    assert!(snapshot_text(&none).is_none());
    let lines = vec!["a".to_string(), "b".to_string()];
    let page = snapshot_page(&lines, "r", 1).unwrap();
    assert_eq!(page.summary, "symbol rows 2-2 of 2 (snapshot)");
    assert_eq!(page.content, "b");
    let end = snapshot_page(&lines, "r", 2).unwrap();
    assert_eq!(end.content, "no more symbols");
    assert!(snapshot_page(&lines, "r", 3).is_err());
}

#[test]
fn symbols_stop_at_the_limit() {
    let (all, _) = scan(&[("a.rs", "fn a() {}\nfn b() {}\nfn c() {}\n")], "", 2);
    assert_eq!(all, vec!["a.rs:1:4  fn a", "a.rs:2:4  fn b"]);
}

#[test]
fn symbols_count_columns_in_characters() {
    let language = language_of("rs").unwrap();
    let mut found: Vec<Symbol> = Vec::new();
    scan_file(&mut found, "let ö = 1; fn inner() {}", language, "a.rs", "", 10);
    assert_eq!(found.len(), 1);
    assert_eq!((found[0].line, found[0].column), (1, 15));
    assert_eq!((found[0].kind.as_str(), found[0].name.as_str()), ("fn", "inner"));
    let definition = scan_line("pub struct Street;", language).unwrap();
    assert_eq!(definition.name, "Street");
    assert!(scan_line("let x = 1;", language).is_none());
    assert!(scan_line("# fn fake() {}", language).is_none());
    assert_eq!(inline_comment_at("a // b"), 2);
    assert!(extension_of("README").is_none());
    assert_eq!(extension_of("a.tar.gz").unwrap(), "gz");
    assert!(language_of("txt").is_none());
}

#[test]
fn a_walk_yields_and_stops() {
    let mut walk = Walk::new(1);
    let mut due: u32 = 0;
    for _ in 0..(2 * WALK_YIELD_EVERY) {
        if walk.tick() {
            due += 1;
        }
    }
    assert_eq!(due, 2);
    assert_eq!(walk.visit("node_modules", EntryKind::Dir), WalkStep::Skip);
    assert_eq!(walk.visit("link", EntryKind::Other), WalkStep::Skip);
    assert_eq!(walk.visit("a", EntryKind::File), WalkStep::Collect);
    assert_eq!(walk.visit("b", EntryKind::File), WalkStep::Stop);
}

/// Expands a compiler's output against files given by name and text.
fn expand(input: &str, context: usize, limit: usize, files: &[(&str, &str)]) -> DiagnosticsPage {
    let (positions, _) = find_positions(input, limit);
    let context = clamp_context(context);
    let mut report = Report::new();
    for position in &positions {
        let found = files.iter().find(|(name, _)| *name == position.file);
        let entry = match found {
            Some((_, text)) => {
                let lines: Vec<String> = text.lines().map(String::from).collect();
                Ok(block(position, context, &lines))
            }
            None => Err("no such file".to_string()),
        };
        report.take(position, entry);
    }
    report.finish(positions.len())
}

#[test]
fn diagnostics_expands_rustc_style_positions_with_context() {
    let files = [(
        "src/main.rs",
        "fn main() {\n    let x = 1;\n    let y = x + 1;\n    println!(\"{y}\");\n}\n",
    )];
    let diagnostic = "error[E0308]: mismatched types\n  --> src/main.rs:3:14\n   |\n3  |     let y = x + 1;\n   |              ^ expected `i32`, found `&str`\n";
    let page = expand(diagnostic, 1, default_diag_limit(), &files);
    let content = &page.content;
    assert!(content.contains("== src/main.rs:3:14 =="), "header missing: {content}");
    assert!(
        content
            .lines()
            .any(|l| l.starts_with("=>") && l.contains("3 |     let y = x + 1;")),
        "target line marker missing: {content}"
    );
    assert!(
        content.lines().any(|l| l.contains("2 |     let x = 1;")),
        "context above: {content}"
    );
    assert!(
        content.lines().any(|l| l.contains("4 |     println!(\"{y}\");")),
        "context below: {content}"
    );
    assert_eq!(page.positions, 1);
    assert_eq!(page.expanded, 1);
    assert_eq!(page.unresolved, 0);
    assert_eq!(
        page.content,
        "== src/main.rs:3:14 ==\n       2 |     let x = 1;\n=>     3 |     let y = x + 1;\n       4 |     println!(\"{y}\");\n"
    );
}

#[test]
fn diagnostics_marks_escaping_and_missing_paths_unresolved() {
    let diagnostic =
        "note: see a/../outside.rs:2:1\nnote: see missing.rs:4:2\nnote: see src/main.rs:1:5\n";
    let page = expand(
        diagnostic,
        0,
        default_diag_limit(),
        &[("src/main.rs", "fn main() {}\n")],
    );
    let content = &page.content;
    assert!(
        content.contains("(unresolved) a/../outside.rs:2:1"),
        "escape must be reported not followed: {content}"
    );
    assert!(
        content.contains("(unresolved) missing.rs:4:2"),
        "missing file must be reported: {content}"
    );
    assert!(
        content.contains("== src/main.rs:1:5 =="),
        "resolvable position must expand: {content}"
    );
    assert_eq!(page.unresolved, 2);
    assert_eq!(page.expanded, 1);
    assert_eq!(page.summary, "expanded 1 of 3 positions (2 unresolved)");
}

#[test]
fn diagnostics_deduplicates_and_bounds_output() {
    let mut body = String::new();
    for i in 0..60 {
        body.push_str(&format!("fn func_{i}() {{}}\n"));
    }
    let mut input = String::new();
    for i in 0..60 {
        input.push_str(&format!("warn: big.rs:{}:1\n", i + 1));
    }
    let page = expand(&input, 10, 50, &[("big.rs", &body)]);
    assert_eq!(page.positions, 50, "limit caps positions");
    assert!(page.skipped > 0, "output must be bounded: {}", page.skipped);
    assert!(
        page.content.chars().count() <= MAX_DIAG_MODEL_CHARS + 512,
        "model content must stay bounded"
    );
    assert!(page.content.ends_with(&format!(
        "... {} more positions not expanded (bounded output)",
        page.skipped
    )));
}

#[test]
fn diagnostics_no_positions_is_a_clean_result() {
    let page = expand(
        "all clear, nothing to see here",
        default_context(),
        default_diag_limit(),
        &[],
    );
    assert!(page.content.contains("no file:line:col positions"));
    assert_eq!(page.positions, 0);
}

#[test]
fn positions_are_unique_by_line_and_default_their_column() {
    let (found, cut) = find_positions("a.rs:7 and a.rs:7:3 and b.py:2:9", 20);
    assert!(!cut);
    let seen: Vec<(&str, usize, usize)> = found
        .iter()
        .map(|p| (p.file.as_str(), p.line, p.column))
        .collect();
    assert_eq!(seen, vec![("a.rs", 7, 1), ("b.py", 2, 9)]);
    // A line beyond every number is taken for the first one.
    let groups = vec![
        Some("x".to_string()),
        Some("c.rs".to_string()),
        Some("99999999999999999999999".to_string()),
        None,
    ];
    let places = positions_of(&vec![groups], 5);
    assert_eq!((places[0].line, places[0].column), (1, 1));
    let long = "x".repeat(MAX_DIAG_INPUT_CHARS + 1);
    let (none, cut) = find_positions(&long, 20);
    assert!(none.is_empty() && cut);
    let (one, _) = find_positions("a.rs:1 b.rs:2", 0);
    assert_eq!(one.len(), 1);
}

#[test]
fn an_oversized_file_is_not_expanded() {
    assert!(oversized_reason(MAX_DIAG_FILE_BYTES).is_none());
    assert_eq!(
        oversized_reason(MAX_DIAG_FILE_BYTES + 1).unwrap(),
        "file is 2097153 bytes (above the 2097152 byte expand cap)"
    );
    assert_eq!(clamp_context(11), 10);
}

#[test]
fn a_function_stands_where_the_word_before_the_parenthesis_does() {
    let (found, _) = scan(
        &[(
            "m.c",
            "int f(int f2) {\n\tvoid go (int go) {\nint x; // late(\nint é(int é2) {\n(int a) {\n",
        )],
        "",
        100,
    );
    assert_eq!(
        found,
        vec!["m.c:1:5  fn f", "m.c:2:7  fn go", "m.c:4:5  fn é"]
    );
}
