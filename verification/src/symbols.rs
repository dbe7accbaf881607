//! `code.symbols`: definitions in source files, found line by line with
//! lexical rules.
use crate::cursor;
use crate::cursor::CursorError;
use crate::order;
use crate::outside;
use crate::outside::Group;
use crate::text;
use vstd::prelude::*;

verus! {

/// How many files are scanned.
pub const MAX_FILES_SCANNED: usize = 5_000;

/// The largest file that is scanned, in bytes.
pub const MAX_BYTES_PER_FILE: u64 = 2_097_152;

/// How many symbols one page shows.
pub const MODEL_SYMBOLS: usize = 100;

/// How many symbols a call collects at most.
pub const MAX_SYMBOLS: usize = 1_000;

/// How many symbols a call collects when it does not say.
pub fn default_symbols_limit() -> (r: usize)
    ensures
        r == 200,
{
    200
}

/// Brings the number of symbols to collect within its bounds.
pub fn clamp_limit(limit: usize) -> (r: usize)
    ensures
        r == if limit < 1 {
            1
        } else if limit > MAX_SYMBOLS {
            MAX_SYMBOLS
        } else {
            limit
        },
{
    if limit < 1 {
        1
    } else if limit > MAX_SYMBOLS {
        MAX_SYMBOLS
    } else {
        limit
    }
}

// ---------------------------------------------------------------------
// The rules
// ---------------------------------------------------------------------

/// How a match is read: group 1 is the name of a symbol of a fixed kind, or
/// group 1 is the kind and group 2 the name.
#[derive(Clone, Copy, Debug)]
pub enum RuleKind {
    Fixed(&'static str),
    FromGroups,
}

/// One lexical rule.
#[derive(Clone, Copy, Debug)]
pub struct SymbolRule {
    pub pattern: &'static str,
    pub kind: RuleKind,
}

/// A rule as values; `None` for a kind that is read from the match.
pub ghost struct RuleView {
    pub pattern: Seq<char>,
    pub kind: Option<Seq<char>>,
}

impl View for SymbolRule {
    type V = RuleView;

    open spec fn view(&self) -> RuleView {
        RuleView {
            pattern: self.pattern@,
            kind: match self.kind {
                RuleKind::Fixed(k) => Some(k@),
                RuleKind::FromGroups => None,
            },
        }
    }
}

pub open spec fn rule_views(rules: Seq<SymbolRule>) -> Seq<RuleView> {
    Seq::new(rules.len(), |i: int| rules[i]@)
}

fn fixed(pattern: &'static str, kind: &'static str) -> (r: SymbolRule)
    ensures
        r@ == (RuleView { pattern: pattern@, kind: Some(kind@) }),
{
    SymbolRule { pattern, kind: RuleKind::Fixed(kind) }
}

/// The languages whose definitions are recognised.
#[derive(Clone, Copy, Debug, PartialEq, Eq, Structural)]
pub enum Language {
    Rust,
    Python,
    TypeScript,
    Go,
    CLike,
    Java,
    CSharp,
    Kotlin,
    Scala,
    Swift,
    Zig,
}

/// The language of a file extension.
pub open spec fn language_named(ext: Seq<char>) -> Option<Language> {
    if ext == "rs"@ {
        Some(Language::Rust)
    } else if ext == "py"@ {
        Some(Language::Python)
    } else if ext == "js"@ || ext == "jsx"@ || ext == "mjs"@ || ext == "cjs"@ || ext == "ts"@ || ext == "tsx"@ {
        Some(Language::TypeScript)
    } else if ext == "go"@ {
        Some(Language::Go)
    } else if ext == "c"@ || ext == "h"@ || ext == "cpp"@ || ext == "hpp"@ || ext == "cc"@ || ext == "hh"@ || ext == "cxx"@ || ext == "hxx"@ {
        Some(Language::CLike)
    } else if ext == "java"@ {
        Some(Language::Java)
    } else if ext == "cs"@ {
        Some(Language::CSharp)
    } else if ext == "kt"@ || ext == "kts"@ {
        Some(Language::Kotlin)
    } else if ext == "scala"@ {
        Some(Language::Scala)
    } else if ext == "swift"@ {
        Some(Language::Swift)
    } else if ext == "zig"@ {
        Some(Language::Zig)
    } else {
        None
    }
}

/// The language of a file extension.
pub fn language_of(ext: &str) -> (r: Option<Language>)
    ensures
        r == language_named(ext@),
{
    if text::same(ext, "rs") {
        Some(Language::Rust)
    } else if text::same(ext, "py") {
        Some(Language::Python)
    } else if text::same(ext, "js") || text::same(ext, "jsx") || text::same(ext, "mjs") || text::same(ext, "cjs") || text::same(ext, "ts") || text::same(ext, "tsx") {
        Some(Language::TypeScript)
    } else if text::same(ext, "go") {
        Some(Language::Go)
    } else if text::same(ext, "c") || text::same(ext, "h") || text::same(ext, "cpp") || text::same(ext, "hpp") || text::same(ext, "cc") || text::same(ext, "hh") || text::same(ext, "cxx") || text::same(ext, "hxx") {
        Some(Language::CLike)
    } else if text::same(ext, "java") {
        Some(Language::Java)
    } else if text::same(ext, "cs") {
        Some(Language::CSharp)
    } else if text::same(ext, "kt") || text::same(ext, "kts") {
        Some(Language::Kotlin)
    } else if text::same(ext, "scala") {
        Some(Language::Scala)
    } else if text::same(ext, "swift") {
        Some(Language::Swift)
    } else if text::same(ext, "zig") {
        Some(Language::Zig)
    } else {
        None
    }
}

/// The rules of a language, tried in this order.
pub open spec fn rules_of(language: Language) -> Seq<RuleView> {
    match language {
        Language::Rust => seq![
            RuleView { pattern: r"\bfn\s+([A-Za-z_][A-Za-z0-9_]*)"@, kind: Some("fn"@) },
            RuleView { pattern: r"\bstruct\s+([A-Za-z_][A-Za-z0-9_]*)"@, kind: Some("struct"@) },
            RuleView { pattern: r"\benum\s+([A-Za-z_][A-Za-z0-9_]*)"@, kind: Some("enum"@) },
            RuleView { pattern: r"\btrait\s+([A-Za-z_][A-Za-z0-9_]*)"@, kind: Some("trait"@) },
            RuleView { pattern: r"\bimpl\s+([A-Za-z_][A-Za-z0-9_:]*)"@, kind: Some("impl"@) },
            RuleView { pattern: r"\bconst\s+([A-Za-z_][A-Za-z0-9_]*)\s*:"@, kind: Some("const"@) },
            RuleView { pattern: r"\bstatic\s+(?:mut\s+)?([A-Za-z_][A-Za-z0-9_]*)\s*:"@, kind: Some("static"@) },
            RuleView { pattern: r"\btype\s+([A-Za-z_][A-Za-z0-9_]*)\s*="@, kind: Some("type"@) },
            RuleView { pattern: r"\bmod\s+([A-Za-z_][A-Za-z0-9_]*)"@, kind: Some("mod"@) },
            RuleView { pattern: r"macro_rules!\s+([A-Za-z_][A-Za-z0-9_]*)"@, kind: Some("macro"@) },
        ],
        Language::Python => seq![
            RuleView { pattern: r"^\s*(?:async\s+)?def\s+([A-Za-z_][A-Za-z0-9_]*)"@, kind: Some("def"@) },
            RuleView { pattern: r"^\s*class\s+([A-Za-z_][A-Za-z0-9_]*)"@, kind: Some("class"@) },
        ],
        Language::TypeScript => seq![
            RuleView { pattern: r"\bfunction\s+([A-Za-z_$][A-Za-z0-9_$]*)"@, kind: Some("function"@) },
            RuleView { pattern: r"\bclass\s+([A-Za-z_$][A-Za-z0-9_$]*)"@, kind: Some("class"@) },
            RuleView { pattern: r"\binterface\s+([A-Za-z_$][A-Za-z0-9_$]*)"@, kind: Some("interface"@) },
            RuleView { pattern: r"\btype\s+([A-Za-z_$][A-Za-z0-9_$]*)\s*="@, kind: Some("type"@) },
            RuleView { pattern: r"\b(?:export\s+)?(const|let|var)\s+([A-Za-z_$][A-Za-z0-9_$]*)\s*="@, kind: None },
        ],
        Language::Go => seq![
            RuleView { pattern: r"\bfunc\s+(?:\([^)]*\)\s*)?([A-Za-z_][A-Za-z0-9_]*)"@, kind: Some("func"@) },
            RuleView { pattern: r"\btype\s+([A-Za-z_][A-Za-z0-9_]*)\s+(?:struct|interface)\b"@, kind: Some("type"@) },
            RuleView { pattern: r"\bvar\s+([A-Za-z_][A-Za-z0-9_]*)\s*="@, kind: Some("var"@) },
            RuleView { pattern: r"\bconst\s+([A-Za-z_][A-Za-z0-9_]*)\s*="@, kind: Some("const"@) },
        ],
        Language::CLike => seq![
            RuleView { pattern: r"\bstruct\s+([A-Za-z_][A-Za-z0-9_]*)"@, kind: Some("struct"@) },
            RuleView { pattern: r"\bclass\s+([A-Za-z_][A-Za-z0-9_]*)"@, kind: Some("class"@) },
            RuleView { pattern: r"\benum\s+([A-Za-z_][A-Za-z0-9_]*)"@, kind: Some("enum"@) },
            RuleView { pattern: r"\bunion\s+([A-Za-z_][A-Za-z0-9_]*)"@, kind: Some("union"@) },
        ],
        Language::Java => seq![
            RuleView { pattern: r"\bclass\s+([A-Za-z_][A-Za-z0-9_]*)"@, kind: Some("class"@) },
            RuleView { pattern: r"\binterface\s+([A-Za-z_][A-Za-z0-9_]*)"@, kind: Some("interface"@) },
            RuleView { pattern: r"\benum\s+([A-Za-z_][A-Za-z0-9_]*)"@, kind: Some("enum"@) },
            RuleView { pattern: r"\brecord\s+([A-Za-z_][A-Za-z0-9_]*)"@, kind: Some("record"@) },
        ],
        Language::CSharp => seq![
            RuleView { pattern: r"\bclass\s+([A-Za-z_][A-Za-z0-9_]*)"@, kind: Some("class"@) },
            RuleView { pattern: r"\bstruct\s+([A-Za-z_][A-Za-z0-9_]*)"@, kind: Some("struct"@) },
            RuleView { pattern: r"\binterface\s+([A-Za-z_][A-Za-z0-9_]*)"@, kind: Some("interface"@) },
            RuleView { pattern: r"\benum\s+([A-Za-z_][A-Za-z0-9_]*)"@, kind: Some("enum"@) },
            RuleView { pattern: r"\brecord\s+([A-Za-z_][A-Za-z0-9_]*)"@, kind: Some("record"@) },
        ],
        Language::Kotlin => seq![
            RuleView { pattern: r"\bfun\s+([A-Za-z_][A-Za-z0-9_]*)"@, kind: Some("fun"@) },
            RuleView { pattern: r"\bclass\s+([A-Za-z_][A-Za-z0-9_]*)"@, kind: Some("class"@) },
            RuleView { pattern: r"\binterface\s+([A-Za-z_][A-Za-z0-9_]*)"@, kind: Some("interface"@) },
            RuleView { pattern: r"\bobject\s+([A-Za-z_][A-Za-z0-9_]*)"@, kind: Some("object"@) },
            RuleView { pattern: r"\b(?:val|var)\s+([A-Za-z_][A-Za-z0-9_]*)\s*[:=]"@, kind: Some("property"@) },
        ],
        Language::Scala => seq![
            RuleView { pattern: r"\bdef\s+([A-Za-z_][A-Za-z0-9_]*)"@, kind: Some("def"@) },
            RuleView { pattern: r"\bclass\s+([A-Za-z_][A-Za-z0-9_]*)"@, kind: Some("class"@) },
            RuleView { pattern: r"\bobject\s+([A-Za-z_][A-Za-z0-9_]*)"@, kind: Some("object"@) },
            RuleView { pattern: r"\btrait\s+([A-Za-z_][A-Za-z0-9_]*)"@, kind: Some("trait"@) },
        ],
        Language::Swift => seq![
            RuleView { pattern: r"\bfunc\s+([A-Za-z_][A-Za-z0-9_]*)"@, kind: Some("func"@) },
            RuleView { pattern: r"\bclass\s+([A-Za-z_][A-Za-z0-9_]*)"@, kind: Some("class"@) },
            RuleView { pattern: r"\bstruct\s+([A-Za-z_][A-Za-z0-9_]*)"@, kind: Some("struct"@) },
            RuleView { pattern: r"\benum\s+([A-Za-z_][A-Za-z0-9_]*)"@, kind: Some("enum"@) },
            RuleView { pattern: r"\bprotocol\s+([A-Za-z_][A-Za-z0-9_]*)"@, kind: Some("protocol"@) },
            RuleView { pattern: r"\b(?:var|let)\s+([A-Za-z_][A-Za-z0-9_]*)\s*[:=]"@, kind: Some("property"@) },
        ],
        Language::Zig => seq![
            RuleView { pattern: r"\b(?:pub\s+)?fn\s+([A-Za-z_][A-Za-z0-9_]*)"@, kind: Some("fn"@) },
            RuleView { pattern: r"\b(?:pub\s+)?(?:const|var)\s+([A-Za-z_][A-Za-z0-9_]*)\s*="@, kind: Some("binding"@) },
            RuleView { pattern: r"\b(?:pub\s+)?(?:struct|enum|union)\s+([A-Za-z_][A-Za-z0-9_]*)"@, kind: Some("type"@) },
        ],
    }
}

/// The rules of a language.
pub fn rules(language: Language) -> (out: Vec<SymbolRule>)
    ensures
        rule_views(out@) == rules_of(language),
{
    let mut out: Vec<SymbolRule> = Vec::new();
    match language {
        Language::Rust => {
            out.push(fixed(r"\bfn\s+([A-Za-z_][A-Za-z0-9_]*)", "fn"));
            out.push(fixed(r"\bstruct\s+([A-Za-z_][A-Za-z0-9_]*)", "struct"));
            out.push(fixed(r"\benum\s+([A-Za-z_][A-Za-z0-9_]*)", "enum"));
            out.push(fixed(r"\btrait\s+([A-Za-z_][A-Za-z0-9_]*)", "trait"));
            out.push(fixed(r"\bimpl\s+([A-Za-z_][A-Za-z0-9_:]*)", "impl"));
            out.push(fixed(r"\bconst\s+([A-Za-z_][A-Za-z0-9_]*)\s*:", "const"));
            out.push(fixed(r"\bstatic\s+(?:mut\s+)?([A-Za-z_][A-Za-z0-9_]*)\s*:", "static"));
            out.push(fixed(r"\btype\s+([A-Za-z_][A-Za-z0-9_]*)\s*=", "type"));
            out.push(fixed(r"\bmod\s+([A-Za-z_][A-Za-z0-9_]*)", "mod"));
            out.push(fixed(r"macro_rules!\s+([A-Za-z_][A-Za-z0-9_]*)", "macro"));
        },
        Language::Python => {
            out.push(fixed(r"^\s*(?:async\s+)?def\s+([A-Za-z_][A-Za-z0-9_]*)", "def"));
            out.push(fixed(r"^\s*class\s+([A-Za-z_][A-Za-z0-9_]*)", "class"));
        },
        Language::TypeScript => {
            out.push(fixed(r"\bfunction\s+([A-Za-z_$][A-Za-z0-9_$]*)", "function"));
            out.push(fixed(r"\bclass\s+([A-Za-z_$][A-Za-z0-9_$]*)", "class"));
            out.push(fixed(r"\binterface\s+([A-Za-z_$][A-Za-z0-9_$]*)", "interface"));
            out.push(fixed(r"\btype\s+([A-Za-z_$][A-Za-z0-9_$]*)\s*=", "type"));
            out.push(SymbolRule { pattern: r"\b(?:export\s+)?(const|let|var)\s+([A-Za-z_$][A-Za-z0-9_$]*)\s*=", kind: RuleKind::FromGroups });
        },
        Language::Go => {
            out.push(fixed(r"\bfunc\s+(?:\([^)]*\)\s*)?([A-Za-z_][A-Za-z0-9_]*)", "func"));
            out.push(fixed(r"\btype\s+([A-Za-z_][A-Za-z0-9_]*)\s+(?:struct|interface)\b", "type"));
            out.push(fixed(r"\bvar\s+([A-Za-z_][A-Za-z0-9_]*)\s*=", "var"));
            out.push(fixed(r"\bconst\s+([A-Za-z_][A-Za-z0-9_]*)\s*=", "const"));
        },
        Language::CLike => {
            out.push(fixed(r"\bstruct\s+([A-Za-z_][A-Za-z0-9_]*)", "struct"));
            out.push(fixed(r"\bclass\s+([A-Za-z_][A-Za-z0-9_]*)", "class"));
            out.push(fixed(r"\benum\s+([A-Za-z_][A-Za-z0-9_]*)", "enum"));
            out.push(fixed(r"\bunion\s+([A-Za-z_][A-Za-z0-9_]*)", "union"));
        },
        Language::Java => {
            out.push(fixed(r"\bclass\s+([A-Za-z_][A-Za-z0-9_]*)", "class"));
            out.push(fixed(r"\binterface\s+([A-Za-z_][A-Za-z0-9_]*)", "interface"));
            out.push(fixed(r"\benum\s+([A-Za-z_][A-Za-z0-9_]*)", "enum"));
            out.push(fixed(r"\brecord\s+([A-Za-z_][A-Za-z0-9_]*)", "record"));
        },
        Language::CSharp => {
            out.push(fixed(r"\bclass\s+([A-Za-z_][A-Za-z0-9_]*)", "class"));
            out.push(fixed(r"\bstruct\s+([A-Za-z_][A-Za-z0-9_]*)", "struct"));
            out.push(fixed(r"\binterface\s+([A-Za-z_][A-Za-z0-9_]*)", "interface"));
            out.push(fixed(r"\benum\s+([A-Za-z_][A-Za-z0-9_]*)", "enum"));
            out.push(fixed(r"\brecord\s+([A-Za-z_][A-Za-z0-9_]*)", "record"));
        },
        Language::Kotlin => {
            out.push(fixed(r"\bfun\s+([A-Za-z_][A-Za-z0-9_]*)", "fun"));
            out.push(fixed(r"\bclass\s+([A-Za-z_][A-Za-z0-9_]*)", "class"));
            out.push(fixed(r"\binterface\s+([A-Za-z_][A-Za-z0-9_]*)", "interface"));
            out.push(fixed(r"\bobject\s+([A-Za-z_][A-Za-z0-9_]*)", "object"));
            out.push(fixed(r"\b(?:val|var)\s+([A-Za-z_][A-Za-z0-9_]*)\s*[:=]", "property"));
        },
        Language::Scala => {
            out.push(fixed(r"\bdef\s+([A-Za-z_][A-Za-z0-9_]*)", "def"));
            out.push(fixed(r"\bclass\s+([A-Za-z_][A-Za-z0-9_]*)", "class"));
            out.push(fixed(r"\bobject\s+([A-Za-z_][A-Za-z0-9_]*)", "object"));
            out.push(fixed(r"\btrait\s+([A-Za-z_][A-Za-z0-9_]*)", "trait"));
        },
        Language::Swift => {
            out.push(fixed(r"\bfunc\s+([A-Za-z_][A-Za-z0-9_]*)", "func"));
            out.push(fixed(r"\bclass\s+([A-Za-z_][A-Za-z0-9_]*)", "class"));
            out.push(fixed(r"\bstruct\s+([A-Za-z_][A-Za-z0-9_]*)", "struct"));
            out.push(fixed(r"\benum\s+([A-Za-z_][A-Za-z0-9_]*)", "enum"));
            out.push(fixed(r"\bprotocol\s+([A-Za-z_][A-Za-z0-9_]*)", "protocol"));
            out.push(fixed(r"\b(?:var|let)\s+([A-Za-z_][A-Za-z0-9_]*)\s*[:=]", "property"));
        },
        Language::Zig => {
            out.push(fixed(r"\b(?:pub\s+)?fn\s+([A-Za-z_][A-Za-z0-9_]*)", "fn"));
            out.push(fixed(r"\b(?:pub\s+)?(?:const|var)\s+([A-Za-z_][A-Za-z0-9_]*)\s*=", "binding"));
            out.push(fixed(r"\b(?:pub\s+)?(?:struct|enum|union)\s+([A-Za-z_][A-Za-z0-9_]*)", "type"));
        },
    }
    assert(rule_views(out@) =~= rules_of(language));
    out
}

/// What a function is called in a language whose functions are recognised by
/// the word before their parameters.
pub open spec fn function_kind(language: Language) -> Option<Seq<char>> {
    match language {
        Language::CLike => Some("fn"@),
        Language::Java => Some("method"@),
        Language::CSharp => Some("method"@),
        _ => None,
    }
}

/// What a function is called in such a language.
pub fn c_like_kind(language: Language) -> (r: Option<&'static str>)
    ensures
        match r {
            Some(k) => function_kind(language) == Some(k@),
            None => function_kind(language) is None,
        },
{
    match language {
        Language::CLike => Some("fn"),
        Language::Java => Some("method"),
        Language::CSharp => Some("method"),
        _ => None,
    }
}

/// The extension of a file name, in lower case: what stands behind its last
/// dot, unless that dot is its first character.
pub open spec fn extension(name: Seq<char>) -> Option<Seq<char>> {
    let at = last_dot(name, name.len() as int);
    if at <= 0 || name == ".."@ {
        None
    } else {
        Some(text::ascii_lower(name.skip(at + 1)))
    }
}

/// Where the last dot of the first `to` characters stands, or -1.
pub open spec fn last_dot(s: Seq<char>, to: int) -> int
    decreases to,
{
    if to <= 0 {
        -1
    } else if s[to - 1] == '.' {
        to - 1
    } else {
        last_dot(s, to - 1)
    }
}

/// The extension of a file name.
pub fn extension_of(name: &str) -> (r: Option<String>)
    ensures
        match r {
            Some(e) => extension(name@) == Some(e@),
            None => extension(name@) is None,
        },
{
    let chars = text::chars_of(name);
    let mut to: usize = chars.len();
    while to > 0 && chars[to - 1] != '.'
        invariant
            chars@ == name@,
            to <= chars@.len(),
            last_dot(name@, name@.len() as int) == last_dot(name@, to as int),
        decreases to,
    {
        to = to - 1;
    }
    if to <= 1 || text::same(name, "..") {
        return None;
    }
    let raw = text::string_of_range(&chars, to, chars.len());
    assert(raw@ =~= name@.skip(to as int));
    Some(text::ascii_lower_str(raw.as_str()))
}

// ---------------------------------------------------------------------
// One line
// ---------------------------------------------------------------------

/// Where the first comment of a line starts, or the length of the line.
pub open spec fn comment_start(line: Seq<char>) -> int {
    let slashes = first_at(line, "//"@, 0);
    let star = first_at(line, "/*"@, 0);
    if slashes <= star {
        slashes
    } else {
        star
    }
}

/// Where a text first stands in a line at or behind `i`, or the length of
/// the line where it does not.
pub open spec fn first_at(line: Seq<char>, needle: Seq<char>, i: int) -> int
    decreases line.len() - i,
{
    if i < 0 || i >= line.len() {
        line.len() as int
    } else if text::occurs_at(line, needle, i) {
        i
    } else {
        first_at(line, needle, i + 1)
    }
}

fn find_first(line: &[char], needle: &[char]) -> (r: usize)
    ensures
        r == first_at(line@, needle@, 0),
        r <= line@.len(),
{
    let mut i: usize = 0;
    while i < line.len()
        invariant
            i <= line@.len(),
            first_at(line@, needle@, 0) == first_at(line@, needle@, i as int),
        decreases line@.len() - i,
    {
        if text::is_at(line, needle, i) {
            return i;
        }
        i = i + 1;
    }
    i
}

/// The byte offset of the first comment of a line, or the line's length. A
/// definition that a rule finds behind it is none.
pub fn inline_comment_at(line: &str) -> (r: usize)
    ensures
        r == text::byte_len(line@.take(comment_start(line@))),
{
    let chars = text::chars_of(line);
    let slash: [char; 2] = ['/', '/'];
    let star: [char; 2] = ['/', '*'];
    proof {
        reveal_strlit("//");
        reveal_strlit("/*");
        assert(slash@ =~= "//"@);
        assert(star@ =~= "/*"@);
    }
    let a: usize = find_first(&chars, &slash);
    let b: usize = find_first(&chars, &star);
    let at: usize = if a <= b {
        a
    } else {
        b
    };
    let before = text::string_of_range(&chars, 0, at);
    assert(before@ =~= line@.take(at as int));
    text::bytes_in(before.as_str())
}

/// Whether a line is a comment as a whole.
pub open spec fn is_comment(line: Seq<char>) -> bool {
    let t = text::trim_start(line);
    ||| text::starts_with(t, "//"@)
    ||| text::starts_with(t, "/*"@)
    ||| text::starts_with(t, "*"@)
    ||| text::starts_with(t, "#"@)
}

fn comment_line(line: &str) -> (r: bool)
    ensures
        r == is_comment(line@),
{
    let chars = text::chars_of(line);
    let from: usize = text::skip_space(&chars, chars.len());
    let t = text::string_of_range(&chars, from, chars.len());
    assert(chars@.take(chars@.len() as int) =~= line@);
    text::str_starts_with(t.as_str(), "//") || text::str_starts_with(t.as_str(), "/*")
        || text::str_starts_with(t.as_str(), "*") || text::str_starts_with(t.as_str(), "#")
}

/// A definition on a line: what stands before the name, the name and its
/// kind.
pub ghost struct Found {
    pub before: Seq<char>,
    pub name: Seq<char>,
    pub kind: Seq<char>,
}

/// A definition as strings.
#[derive(Debug)]
pub struct Definition {
    pub before: String,
    pub name: String,
    pub kind: String,
}

impl View for Definition {
    type V = Found;

    open spec fn view(&self) -> Found {
        Found { before: self.before@, name: self.name@, kind: self.kind@ }
    }
}

/// Group `i` of a match, where it took part.
pub open spec fn group_at(groups: Seq<Option<(Seq<char>, Seq<char>)>>, i: int) -> Option<
    (Seq<char>, Seq<char>),
> {
    if i < groups.len() {
        groups[i]
    } else {
        None
    }
}

/// How a rule reads the groups of a match.
pub open spec fn reading(
    kind: Option<Seq<char>>,
    groups: Seq<Option<(Seq<char>, Seq<char>)>>,
) -> Option<Found> {
    match kind {
        Some(kind) => match group_at(groups, 1) {
            Some((before, name)) => Some(Found { before, name, kind }),
            None => None,
        },
        None => match (group_at(groups, 1), group_at(groups, 2)) {
            (Some((_, kind)), Some((before, name))) => Some(Found { before, name, kind }),
            _ => None,
        },
    }
}

/// Reads the groups of a match by a rule.
pub fn read_match(kind: RuleKind, groups: &Vec<Option<Group>>) -> (r: Option<Definition>)
    ensures
        ({
            let views = outside::group_views(groups@);
            let named = match kind {
                RuleKind::Fixed(k) => Some(k@),
                RuleKind::FromGroups => None,
            };
            match r {
                Some(d) => reading(named, views) == Some(d@),
                None => reading(named, views) is None,
            }
        }),
{
    let ghost views = outside::group_views(groups@);
    match kind {
        RuleKind::Fixed(k) => {
            if groups.len() <= 1 {
                return None;
            }
            assert(views[1] == group_at(views, 1));
            match &groups[1] {
                Some(g) => Some(
                    Definition {
                        before: g.before.clone(),
                        name: g.text.clone(),
                        kind: k.to_owned(),
                    },
                ),
                None => None,
            }
        },
        RuleKind::FromGroups => {
            if groups.len() <= 2 {
                return None;
            }
            assert(views[1] == group_at(views, 1));
            assert(views[2] == group_at(views, 2));
            match (&groups[1], &groups[2]) {
                (Some(k), Some(g)) => Some(
                    Definition {
                        before: g.before.clone(),
                        name: g.text.clone(),
                        kind: k.text.clone(),
                    },
                ),
                _ => None,
            }
        },
    }
}

/// What the rules find on a line.
pub enum RulesOutcome {
    /// A definition before any comment.
    Found(Found),
    /// A rule matched without the groups it reads: the line is given up.
    Nothing,
    /// No rule found a definition.
    NoRule,
}

/// What the rules from `i` on find on a line, where `found` holds the first
/// match of each.
pub open spec fn rules_outcome(
    line: Seq<char>,
    rules: Seq<RuleView>,
    found: Seq<Option<Seq<Option<(Seq<char>, Seq<char>)>>>>,
    i: int,
) -> RulesOutcome
    decreases rules.len() - i,
{
    if i < 0 || i >= rules.len() {
        RulesOutcome::NoRule
    } else {
        match found[i] {
            None => rules_outcome(line, rules, found, i + 1),
            Some(groups) => match reading(rules[i].kind, groups) {
                None => RulesOutcome::Nothing,
                Some(d) => if text::byte_len(d.before) < text::byte_len(
                    line.take(comment_start(line)),
                ) {
                    RulesOutcome::Found(d)
                } else {
                    rules_outcome(line, rules, found, i + 1)
                },
            },
        }
    }
}

/// The first match of each rule on a line.
pub open spec fn first_matches(line: Seq<char>, rules: Seq<RuleView>) -> Seq<
    Option<Seq<Option<(Seq<char>, Seq<char>)>>>,
> {
    Seq::new(rules.len(), |i: int| outside::regex_captures(rules[i].pattern, line))
}

/// The words that start a statement and never a declaration.
pub open spec fn control_words() -> Seq<Seq<char>> {
    seq![
        "if"@,
        "for"@,
        "while"@,
        "switch"@,
        "return"@,
        "else"@,
        "do"@,
        "catch"@,
        "sizeof"@,
        "case"@,
        "new"@,
        "delete"@,
        "throw"@,
        "try"@,
        "goto"@,
    ]
}

/// A text starts with a word: nothing that could continue the word follows.
pub open spec fn starts_with_word(s: Seq<char>, word: Seq<char>) -> bool {
    text::starts_with(s, word) && (s.len() == word.len() || !text::word_char(
        s[word.len() as int],
    ))
}

/// Where the last word of the first `n` characters ends.
pub open spec fn word_end(s: Seq<char>, n: int) -> int
    decreases n,
{
    if n <= 0 || text::word_char(s[n - 1]) {
        n
    } else {
        word_end(s, n - 1)
    }
}

/// Where the word that ends at `n` starts.
pub open spec fn word_start(s: Seq<char>, n: int) -> int
    decreases n,
{
    if n <= 0 || !text::word_char(s[n - 1]) {
        n
    } else {
        word_start(s, n - 1)
    }
}

/// Where the name of the function that a line declares stands in it, from and
/// to, in the languages that put the name before the parameters: the last word
/// before the first parenthesis, unless the line is a statement.
pub open spec fn declared_span(line: Seq<char>) -> Option<(int, int)> {
    let t = text::trim(line);
    let paren = text::char_from(line, '(', 0);
    let end = word_end(line, paren);
    if t.len() == 0 || t.last() == ';' || (exists|k: int|
        0 <= k < control_words().len() && starts_with_word(t, #[trigger] control_words()[k]))
        || paren == line.len() || end <= 0 {
        None
    } else {
        Some((word_start(line, end), end))
    }
}

/// The name of the function that a line declares.
pub open spec fn declared_function(line: Seq<char>) -> Option<Seq<char>> {
    match declared_span(line) {
        Some((start, end)) => Some(line.subrange(start, end)),
        None => None,
    }
}

fn begins_with_word(chars: &[char], word: &str) -> (r: bool)
    ensures
        r == starts_with_word(chars@, word@),
{
    let w = text::chars_of(word);
    if chars.len() < w.len() {
        return false;
    }
    assert(chars@.subrange(0, w@.len() as int) =~= chars@.take(w@.len() as int));
    if !text::is_at(chars, &w, 0) {
        return false;
    }
    chars.len() == w.len() || !text::is_word_char(chars[w.len()])
}

fn begins_with_control_word(chars: &[char]) -> (r: bool)
    ensures
        r == (exists|k: int|
            0 <= k < control_words().len() && starts_with_word(
                chars@,
                #[trigger] control_words()[k],
            )),
{
    let words: [&str; 15] = [
        "if",
        "for",
        "while",
        "switch",
        "return",
        "else",
        "do",
        "catch",
        "sizeof",
        "case",
        "new",
        "delete",
        "throw",
        "try",
        "goto",
    ];
    assert(forall|k: int| 0 <= k < 15 ==> (#[trigger] words@[k])@ == control_words()[k]);
    let mut i: usize = 0;
    while i < 15
        invariant
            i <= 15,
            words@.len() == 15,
            control_words().len() == 15,
            forall|k: int| 0 <= k < 15 ==> (#[trigger] words@[k])@ == control_words()[k],
            forall|k: int|
                0 <= k < i ==> !starts_with_word(chars@, #[trigger] control_words()[k]),
        decreases 15 - i,
    {
        if begins_with_word(chars, words[i]) {
            assert(starts_with_word(chars@, control_words()[i as int]));
            return true;
        }
        i = i + 1;
    }
    false
}

/// Finds where the name of the function that a line declares stands.
fn find_declared(line: &str, chars: &[char]) -> (r: Option<(usize, usize)>)
    requires
        chars@ == line@,
    ensures
        match r {
            Some((start, end)) => declared_span(line@) == Some((start as int, end as int))
                && start <= end <= line@.len(),
            None => declared_span(line@) is None,
        },
{
    let trimmed = text::trim_str(line);
    let t = text::chars_of(trimmed.as_str());
    if t.len() == 0 || t[t.len() - 1] == ';' {
        return None;
    }
    if begins_with_control_word(&t) {
        return None;
    }
    let paren: usize = text::find_char(chars, '(', 0);
    if paren == chars.len() {
        return None;
    }
    let mut end: usize = paren;
    while end > 0 && !text::is_word_char(chars[end - 1])
        invariant
            end <= paren <= chars@.len(),
            word_end(chars@, paren as int) == word_end(chars@, end as int),
        decreases end,
    {
        end = end - 1;
    }
    if end == 0 {
        return None;
    }
    let mut start: usize = end;
    while start > 0 && text::is_word_char(chars[start - 1])
        invariant
            start <= end <= chars@.len(),
            word_start(chars@, end as int) == word_start(chars@, start as int),
        decreases start,
    {
        start = start - 1;
    }
    Some((start, end))
}

/// The name of the function a line declares.
pub fn c_like_function(line: &str) -> (r: Option<String>)
    ensures
        match r {
            Some(n) => declared_function(line@) == Some(n@),
            None => declared_function(line@) is None,
        },
{
    let chars = text::chars_of(line);
    match find_declared(line, &chars) {
        Some((start, end)) => Some(text::string_of_range(&chars, start, end)),
        None => None,
    }
}

/// What the fallback for functions finds on a line.
pub open spec fn fallback(line: Seq<char>, kind: Option<Seq<char>>) -> Option<Found> {
    match (kind, declared_span(line)) {
        (Some(kind), Some((at, end))) => {
            if text::byte_len(line.take(at)) < text::byte_len(line.take(comment_start(line))) {
                Some(Found { before: line.take(at), name: line.subrange(at, end), kind })
            } else {
                None
            }
        },
        _ => None,
    }
}

/// The first definition on a line, where `found` holds the first match of
/// each rule.
pub open spec fn definition_from(
    line: Seq<char>,
    language: Language,
    found: Seq<Option<Seq<Option<(Seq<char>, Seq<char>)>>>>,
) -> Option<Found> {
    if is_comment(line) {
        None
    } else {
        match rules_outcome(line, rules_of(language), found, 0) {
            RulesOutcome::Found(f) => Some(f),
            RulesOutcome::Nothing => None,
            RulesOutcome::NoRule => fallback(line, function_kind(language)),
        }
    }
}

/// The first definition on a line.
pub open spec fn definition(line: Seq<char>, language: Language) -> Option<Found> {
    definition_from(line, language, first_matches(line, rules_of(language)))
}

fn find_fallback(line: &str, kind: Option<&'static str>, comment_at: usize) -> (r: Option<
    Definition,
>)
    requires
        comment_at == text::byte_len(line@.take(comment_start(line@))),
    ensures
        ({
            let named = match kind {
                Some(k) => Some(k@),
                None => None,
            };
            match r {
                Some(d) => fallback(line@, named) == Some(d@),
                None => fallback(line@, named) is None,
            }
        }),
{
    let k = match kind {
        Some(k) => k,
        None => {
            return None;
        },
    };
    let chars = text::chars_of(line);
    let (at, end): (usize, usize) = match find_declared(line, &chars) {
        Some(span) => span,
        None => {
            return None;
        },
    };
    let before = text::string_of_range(&chars, 0, at);
    assert(before@ =~= line@.take(at as int));
    if text::bytes_in(before.as_str()) < comment_at {
        let name = text::string_of_range(&chars, at, end);
        Some(Definition { before, name, kind: k.to_owned() })
    } else {
        None
    }
}

/// The matches of each rule on line `at`.
pub open spec fn matches_at(matches: Seq<Vec<Option<Vec<Option<Group>>>>>, at: int) -> Seq<
    Option<Seq<Option<(Seq<char>, Seq<char>)>>>,
> {
    Seq::new(matches.len(), |i: int| outside::found_view(matches[i]@[at]))
}

/// Picks the first definition on a line from the first match of each rule:
/// `matches` holds, for each rule, the matches on a list of lines, of which
/// the line is number `at`.
pub fn pick_definition(
    line: &str,
    language: Language,
    matches: &Vec<Vec<Option<Vec<Option<Group>>>>>,
    at: usize,
) -> (r: Option<Definition>)
    requires
        matches@.len() == rules_of(language).len(),
        forall|i: int| 0 <= i < matches@.len() ==> at < (#[trigger] matches@[i])@.len(),
    ensures
        match r {
            Some(d) => definition_from(line@, language, matches_at(matches@, at as int)) == Some(
                d@,
            ),
            None => definition_from(line@, language, matches_at(matches@, at as int)) is None,
        },
{
    if comment_line(line) {
        return None;
    }
    let comment_at: usize = inline_comment_at(line);
    let rules = rules(language);
    let ghost table = rules_of(language);
    let ghost found = matches_at(matches@, at as int);
    let mut i: usize = 0;
    assert(rules@.len() == rule_views(rules@).len());
    while i < rules.len()
        invariant
            i <= rules@.len(),
            rules@.len() == matches@.len(),
            forall|k: int| 0 <= k < matches@.len() ==> at < (#[trigger] matches@[k])@.len(),
            found == matches_at(matches@, at as int),
            table == rules_of(language),
            rule_views(rules@) == table,
            comment_at == text::byte_len(line@.take(comment_start(line@))),
            !is_comment(line@),
            rules_outcome(line@, table, found, 0) == rules_outcome(line@, table, found, i as int),
        decreases rules@.len() - i,
    {
        let rule = rules[i];
        assert(table[i as int] == rule@);
        assert(found[i as int] == outside::found_view(matches@[i as int]@[at as int]));
        if let Some(groups) = &matches[i][at] {
            match read_match(rule.kind, groups) {
                None => {
                    return None;
                },
                Some(d) => {
                    if text::bytes_in(d.before.as_str()) < comment_at {
                        return Some(d);
                    }
                },
            }
        }
        i = i + 1;
    }
    find_fallback(line, c_like_kind(language), comment_at)
}

/// The first match of every rule on every line.
fn match_lines(lines: &Vec<String>, language: Language) -> (matches: Vec<
    Vec<Option<Vec<Option<Group>>>>,
>)
    ensures
        matches@.len() == rules_of(language).len(),
        forall|i: int|
            0 <= i < matches@.len() ==> (#[trigger] matches@[i])@.len() == lines@.len(),
        forall|at: int|
            0 <= at < lines@.len() ==> #[trigger] matches_at(matches@, at) == first_matches(
                lines@[at]@,
                rules_of(language),
            ),
{
    let rules = rules(language);
    let ghost table = rules_of(language);
    let mut matches: Vec<Vec<Option<Vec<Option<Group>>>>> = Vec::new();
    let mut i: usize = 0;
    assert(rules@.len() == rule_views(rules@).len());
    while i < rules.len()
        invariant
            i <= rules@.len(),
            table == rules_of(language),
            rule_views(rules@) == table,
            rules@.len() == table.len(),
            matches@.len() == i,
            forall|k: int| 0 <= k < i ==> (#[trigger] matches@[k])@.len() == lines@.len(),
            forall|k: int, at: int|
                0 <= k < i && 0 <= at < lines@.len() ==> outside::found_view(
                    #[trigger] matches@[k]@[at],
                ) == outside::regex_captures(table[k].pattern, lines@[at]@),
        decreases rules@.len() - i,
    {
        assert(table[i as int] == rules@[i as int]@);
        matches.push(outside::regex_search(rules[i].pattern, lines));
        i = i + 1;
    }
    proof {
        assert forall|at: int| 0 <= at < lines@.len() implies #[trigger] matches_at(matches@, at)
            == first_matches(lines@[at]@, table) by {
            assert(matches_at(matches@, at) =~= first_matches(lines@[at]@, table));
        }
    }
    matches
}

/// Finds the first definition on a line.
pub fn scan_line(line: &str, language: Language) -> (r: Option<Definition>)
    ensures
        match r {
            Some(d) => definition(line@, language) == Some(d@),
            None => definition(line@, language) is None,
        },
{
    let mut lines: Vec<String> = Vec::new();
    lines.push(line.to_owned());
    let matches = match_lines(&lines, language);
    assert(matches_at(matches@, 0) == first_matches(lines@[0]@, rules_of(language)));
    pick_definition(line, language, &matches, 0)
}

// ---------------------------------------------------------------------
// Collecting
// ---------------------------------------------------------------------

/// One found symbol.
#[derive(Debug)]
pub struct Symbol {
    pub path: String,
    pub line: usize,
    /// Counted in characters, from one.
    pub column: usize,
    pub kind: String,
    pub name: String,
}

/// A symbol as values.
pub ghost struct SymbolView {
    pub path: Seq<char>,
    pub line: nat,
    pub column: nat,
    pub kind: Seq<char>,
    pub name: Seq<char>,
}

impl View for Symbol {
    type V = SymbolView;

    open spec fn view(&self) -> SymbolView {
        SymbolView {
            path: self.path@,
            line: self.line as nat,
            column: self.column as nat,
            kind: self.kind@,
            name: self.name@,
        }
    }
}

pub open spec fn symbol_views(symbols: Seq<Symbol>) -> Seq<SymbolView> {
    Seq::new(symbols.len(), |i: int| symbols[i]@)
}

/// The symbol line `index` of a file holds, if it holds one whose name
/// matches the query. An empty query matches every name.
pub open spec fn symbol_on(
    lines: Seq<Seq<char>>,
    index: int,
    language: Language,
    path: Seq<char>,
    query: Seq<char>,
) -> Option<SymbolView> {
    match definition(lines[index], language) {
        Some(f) => if query.len() == 0 || text::contains(f.name, query) {
            Some(
                SymbolView {
                    path,
                    line: (index + 1) as nat,
                    column: f.before.len() + 1,
                    kind: f.kind,
                    name: f.name,
                },
            )
        } else {
            None
        },
        None => None,
    }
}

/// What is collected once the lines from `i` on are scanned: at most one
/// symbol of each line, and nothing beyond `limit`.
pub open spec fn collected(
    lines: Seq<Seq<char>>,
    i: int,
    language: Language,
    path: Seq<char>,
    query: Seq<char>,
    limit: nat,
    so_far: Seq<SymbolView>,
) -> Seq<SymbolView>
    decreases lines.len() - i,
{
    if i < 0 || i >= lines.len() || so_far.len() >= limit {
        so_far
    } else {
        collected(
            lines,
            i + 1,
            language,
            path,
            query,
            limit,
            match symbol_on(lines, i, language, path, query) {
                Some(s) => so_far.push(s),
                None => so_far,
            },
        )
    }
}

/// Scans one file behind those already scanned; `true` once the limit is
/// reached.
pub fn scan_file(
    symbols: &mut Vec<Symbol>,
    text: &str,
    language: Language,
    path: &str,
    query: &str,
    limit: usize,
) -> (full: bool)
    ensures
        symbol_views(final(symbols)@) == collected(
            text::lines(text@),
            0,
            language,
            path@,
            query@,
            limit as nat,
            symbol_views(old(symbols)@),
        ),
        full == (final(symbols)@.len() >= limit),
{
    let chars = text::chars_of(text);
    let lines = text::lines_of(&chars);
    let wanted = text::chars_of(query);
    let ghost all = text::views(lines@);
    let ghost before = symbol_views(symbols@);
    let ghost end = collected(all, 0, language, path@, query@, limit as nat, before);
    if symbols.len() >= limit {
        return true;
    }
    let matches = match_lines(&lines, language);
    let mut i: usize = 0;
    while i < lines.len() && symbols.len() < limit
        invariant
            i <= lines@.len(),
            matches@.len() == rules_of(language).len(),
            forall|k: int|
                0 <= k < matches@.len() ==> (#[trigger] matches@[k])@.len() == lines@.len(),
            forall|at: int|
                0 <= at < lines@.len() ==> #[trigger] matches_at(matches@, at) == first_matches(
                    lines@[at]@,
                    rules_of(language),
                ),
            all == text::views(lines@),
            wanted@ == query@,
            end == collected(
                all,
                i as int,
                language,
                path@,
                query@,
                limit as nat,
                symbol_views(symbols@),
            ),
        decreases lines@.len() - i,
    {
        assert(lines@[i as int]@ == all[i as int]);
        assert(matches_at(matches@, i as int) == first_matches(all[i as int], rules_of(language)));
        if let Some(d) = pick_definition(lines[i].as_str(), language, &matches, i) {
            let name_chars = text::chars_of(d.name.as_str());
            if wanted.len() == 0 || text::has(&name_chars, &wanted) {
                let column: usize = text::chars_of(d.before.as_str()).len() + 1;
                let ghost so_far = symbols@;
                let symbol = Symbol {
                    path: path.to_owned(),
                    line: i + 1,
                    column,
                    kind: d.kind,
                    name: d.name,
                };
                symbols.push(symbol);
                assert(symbol_views(symbols@) =~= symbol_views(so_far).push(symbol@));
                assert(symbol_on(all, i as int, language, path@, query@) == Some(symbol@));
            }
        }
        i = i + 1;
    }
    symbols.len() >= limit
}

// ---------------------------------------------------------------------
// The order of symbols
// ---------------------------------------------------------------------

/// Whether one symbol comes before another: by path, line, column, kind and
/// name.
pub open spec fn symbol_before(a: SymbolView, b: SymbolView) -> bool {
    if a.path != b.path {
        order::before(a.path, b.path)
    } else if a.line != b.line {
        a.line < b.line
    } else if a.column != b.column {
        a.column < b.column
    } else if a.kind != b.kind {
        order::before(a.kind, b.kind)
    } else {
        order::before(a.name, b.name)
    }
}

pub open spec fn symbols_sorted(list: Seq<SymbolView>) -> bool {
    forall|i: int, j: int| 0 <= i < j < list.len() ==> !symbol_before(list[j], list[i])
}

proof fn lemma_symbol_before_is_a_strict_order(a: SymbolView, b: SymbolView, c: SymbolView)
    ensures
        !symbol_before(a, a),
        symbol_before(a, b) ==> !symbol_before(b, a),
        !symbol_before(b, a) && !symbol_before(c, b) ==> !symbol_before(c, a),
{
    order::lemma_before_is_a_strict_order(a.path, b.path, c.path);
    order::lemma_before_is_a_strict_order(b.path, c.path, a.path);
    order::lemma_before_is_a_strict_order(c.path, a.path, b.path);
    order::lemma_before_is_a_strict_order(a.path, c.path, b.path);
    order::lemma_before_is_a_strict_order(a.kind, b.kind, c.kind);
    order::lemma_before_is_a_strict_order(b.kind, c.kind, a.kind);
    order::lemma_before_is_a_strict_order(c.kind, a.kind, b.kind);
    order::lemma_before_is_a_strict_order(a.kind, c.kind, b.kind);
    order::lemma_before_is_a_strict_order(a.name, b.name, c.name);
}

/// Whether one symbol comes before another.
fn precedes(a: &Symbol, b: &Symbol) -> (r: bool)
    ensures
        r == symbol_before(a@, b@),
{
    if !text::same(a.path.as_str(), b.path.as_str()) {
        order::comes_before(a.path.as_str(), b.path.as_str())
    } else if a.line != b.line {
        a.line < b.line
    } else if a.column != b.column {
        a.column < b.column
    } else if !text::same(a.kind.as_str(), b.kind.as_str()) {
        order::comes_before(a.kind.as_str(), b.kind.as_str())
    } else {
        order::comes_before(a.name.as_str(), b.name.as_str())
    }
}

fn insert_symbol(out: &mut Vec<Symbol>, s: Symbol)
    requires
        symbols_sorted(symbol_views(old(out)@)),
    ensures
        symbols_sorted(symbol_views(final(out)@)),
        symbol_views(final(out)@).to_multiset() == symbol_views(
            old(out)@,
        ).to_multiset().insert(s@),
        final(out)@.len() == old(out)@.len() + 1,
{
    let mut at: usize = out.len();
    let ghost list = symbol_views(out@);
    while at > 0 && precedes(&s, &out[at - 1])
        invariant
            at <= out@.len(),
            list == symbol_views(out@),
            out@ == old(out)@,
            forall|k: int| at <= k < list.len() ==> symbol_before(s@, list[k]),
        decreases at,
    {
        assert(out@[at - 1]@ == list[at - 1]);
        at = at - 1;
    }
    proof {
        assert forall|k: int| 0 <= k < at implies !symbol_before(s@, list[k]) by {
            assert(out@[at - 1]@ == list[at - 1]);
            lemma_symbol_before_is_a_strict_order(list[k], list[at - 1], s@);
        }
    }
    out.insert(at, s);
    proof {
        let after = symbol_views(out@);
        assert(after =~= list.insert(at as int, s@));
        assert forall|i: int, j: int| 0 <= i < j < after.len() implies !symbol_before(
            after[j],
            after[i],
        ) by {
            lemma_symbol_before_is_a_strict_order(after[i], after[j], after[i]);
        }
        list.to_multiset_ensures();
        vstd::seq_lib::to_multiset_insert(list, at as int, s@);
    }
}

/// Sorts the collected symbols.
pub fn sort_symbols(list: Vec<Symbol>) -> (out: Vec<Symbol>)
    ensures
        symbols_sorted(symbol_views(out@)),
        symbol_views(out@).to_multiset() == symbol_views(list@).to_multiset(),
        out@.len() == list@.len(),
{
    let mut out: Vec<Symbol> = Vec::new();
    let mut rest = list;
    let ghost given = symbol_views(list@);
    assert(symbol_views(out@).to_multiset().add(symbol_views(rest@).to_multiset())
        =~= given.to_multiset()) by {
        symbol_views(out@).to_multiset_ensures();
    }
    while rest.len() > 0
        invariant
            out@.len() + rest@.len() == given.len(),
            given == symbol_views(list@),
            symbols_sorted(symbol_views(out@)),
            symbol_views(out@).to_multiset().add(symbol_views(rest@).to_multiset())
                == given.to_multiset(),
        decreases rest@.len(),
    {
        let ghost had = symbol_views(rest@);
        let ghost had_out = symbol_views(out@);
        match rest.pop() {
            Some(s) => {
                proof {
                    let fewer = symbol_views(rest@);
                    assert(had =~= fewer.push(s@));
                    fewer.to_multiset_ensures();
                }
                insert_symbol(&mut out, s);
                assert(symbol_views(out@).to_multiset().add(symbol_views(rest@).to_multiset())
                    =~= had_out.to_multiset().add(had.to_multiset()));
            },
            None => {},
        }
    }
    proof {
        assert(symbol_views(rest@) =~= Seq::<SymbolView>::empty());
        symbol_views(rest@).to_multiset_ensures();
        assert(symbol_views(out@).to_multiset() =~= given.to_multiset());
    }
    out
}

// ---------------------------------------------------------------------
// Pages
// ---------------------------------------------------------------------

/// One row: where a symbol stands and what it is.
pub open spec fn symbol_row(s: SymbolView) -> Seq<char> {
    s.path + ":"@ + text::dec(s.line) + ":"@ + text::dec(s.column) + "  "@ + s.kind + " "@ + s.name
}

pub open spec fn symbol_rows(list: Seq<SymbolView>) -> Seq<Seq<char>> {
    Seq::new(list.len(), |i: int| symbol_row(list[i]))
}

/// The rows of the collected symbols: one line each in a snapshot.
pub fn rows(symbols: &Vec<Symbol>) -> (out: Vec<String>)
    ensures
        text::views(out@) == symbol_rows(symbol_views(symbols@)),
{
    let ghost all = symbol_views(symbols@);
    let mut out: Vec<String> = Vec::new();
    let mut i: usize = 0;
    while i < symbols.len()
        invariant
            i <= symbols@.len(),
            all == symbol_views(symbols@),
            text::views(out@) == symbol_rows(all).take(i as int),
        decreases symbols@.len() - i,
    {
        let s = &symbols[i];
        assert(s@ == all[i as int]);
        let mut row = s.path.clone();
        row.append(":");
        text::push_dec(&mut row, s.line as u64);
        row.append(":");
        text::push_dec(&mut row, s.column as u64);
        row.append("  ");
        row.append(s.kind.as_str());
        row.append(" ");
        row.append(s.name.as_str());
        proof {
            text::lemma_views_push(out@, row);
            assert(symbol_rows(all).take(i + 1) =~= symbol_rows(all).take(i as int).push(row@));
        }
        out.push(row);
        i = i + 1;
    }
    assert(symbol_rows(all).take(i as int) =~= symbol_rows(all));
    out
}

/// One page of symbols.
#[derive(Debug)]
pub struct SymbolsPage {
    pub summary: String,
    pub content: String,
    pub symbols: usize,
    pub returned: usize,
    pub has_more: bool,
    pub cursor: Option<String>,
}

/// Whether the rows do not fit one page and are kept as a snapshot.
pub open spec fn overflows(rows: Seq<Seq<char>>) -> bool {
    rows.len() > MODEL_SYMBOLS
}

/// The text of a snapshot of the rows, where one is needed.
pub fn snapshot_text(rows: &Vec<String>) -> (r: Option<String>)
    ensures
        match r {
            Some(t) => overflows(text::views(rows@)) && t@ == text::join(
                text::views(rows@),
                "\n"@,
            ),
            None => !overflows(text::views(rows@)),
        },
{
    if rows.len() > MODEL_SYMBOLS {
        Some(text::join_strings(rows, "\n"))
    } else {
        None
    }
}

/// The first page. `reference` names the snapshot where one was needed.
pub open spec fn first_page_is(
    p: SymbolsPage,
    rows: Seq<Seq<char>>,
    files: nat,
    reference: Option<Seq<char>>,
) -> bool {
    let n = if overflows(rows) {
        MODEL_SYMBOLS as int
    } else {
        rows.len() as int
    };
    &&& p.summary@ == text::dec(rows.len()) + " symbols across "@ + text::dec(files)
        + " files"@
    &&& p.content@ == if rows.len() == 0 {
        "no symbols found"@
    } else {
        text::join(rows.take(n), "\n"@) + (match reference {
            Some(r) => "\n... "@ + text::dec((rows.len() - n) as nat)
                + " more symbols; full list: "@ + r,
            None => ""@,
        })
    }
    &&& p.symbols == rows.len()
    &&& p.returned == n
    &&& p.has_more == reference is Some
    &&& match (reference, p.cursor) {
        (Some(r), Some(c)) => c@ == cursor::cursor_text(r, MODEL_SYMBOLS as nat),
        (None, None) => true,
        _ => false,
    }
}

/// Renders the first page.
pub fn first_page(rows: &Vec<String>, files: usize, reference: Option<&str>) -> (p: SymbolsPage)
    requires
        reference is Some == overflows(text::views(rows@)),
    ensures
        first_page_is(
            p,
            text::views(rows@),
            files as nat,
            match reference {
                Some(r) => Some(r@),
                None => None,
            },
        ),
{
    let total: usize = rows.len();
    let n: usize = if total > MODEL_SYMBOLS {
        MODEL_SYMBOLS
    } else {
        total
    };
    let ghost all = text::views(rows@);
    let mut summary = text::dec_string(total as u64);
    summary.append(" symbols across ");
    text::push_dec(&mut summary, files as u64);
    summary.append(" files");
    let mut content = String::new();
    if total == 0 {
        content = "no symbols found".to_owned();
    } else {
        let mut note = "".to_owned();
        if let Some(r) = reference {
            note = "\n... ".to_owned();
            text::push_dec(&mut note, (total - n) as u64);
            note.append(" more symbols; full list: ");
            note.append(r);
        }
        content = cursor::join_lines(rows, 0, n);
        assert(all.subrange(0, n as int) =~= all.take(n as int));
        content.append(note.as_str());
    }
    let cursor = match reference {
        Some(r) => Some(cursor::format_cursor(r, MODEL_SYMBOLS)),
        None => None,
    };
    SymbolsPage {
        summary,
        content,
        symbols: total,
        returned: n,
        has_more: reference.is_some(),
        cursor,
    }
}

/// A page of a snapshot from `offset` on.
pub open spec fn snapshot_page_is(
    p: SymbolsPage,
    lines: Seq<Seq<char>>,
    reference: Seq<char>,
    offset: nat,
) -> bool {
    let next = cursor::page_end(lines.len() as int, offset as int, MODEL_SYMBOLS as int) as nat;
    let shown = lines.subrange(offset as int, next as int);
    &&& p.summary@ == "symbol rows "@ + text::dec(offset + 1) + "-"@ + text::dec(next) + " of "@
        + text::dec(lines.len()) + " (snapshot)"@
    &&& p.content@ == if shown.len() == 0 {
        "no more symbols"@
    } else {
        text::join(shown, "\n"@)
    }
    &&& p.symbols == lines.len()
    &&& p.returned == shown.len()
    &&& p.has_more == (next < lines.len())
    &&& match p.cursor {
        Some(c) => p.has_more && c@ == cursor::cursor_text(reference, next),
        None => !p.has_more,
    }
}

/// Renders a page of a snapshot.
pub fn snapshot_page(lines: &Vec<String>, reference: &str, offset: usize) -> (r: Result<
    SymbolsPage,
    CursorError,
>)
    requires
        lines@.len() < usize::MAX,
    ensures
        match r {
            Ok(p) => offset <= lines@.len() && snapshot_page_is(
                p,
                text::views(lines@),
                reference@,
                offset as nat,
            ),
            Err(e) => offset > lines@.len() && e == (CursorError::PastEnd {
                offset,
                total: lines@.len() as usize,
            }),
        },
{
    let total: usize = lines.len();
    if offset > total {
        return Err(CursorError::PastEnd { offset, total });
    }
    let next: usize = if MODEL_SYMBOLS <= total - offset {
        offset + MODEL_SYMBOLS
    } else {
        total
    };
    let has_more = next < total;
    let mut summary = "symbol rows ".to_owned();
    text::push_dec(&mut summary, (offset + 1) as u64);
    summary.append("-");
    text::push_dec(&mut summary, next as u64);
    summary.append(" of ");
    text::push_dec(&mut summary, total as u64);
    summary.append(" (snapshot)");
    let content = if next == offset {
        "no more symbols".to_owned()
    } else {
        cursor::join_lines(lines, offset, next)
    };
    let cursor = if has_more {
        Some(cursor::format_cursor(reference, next))
    } else {
        None
    };
    Ok(SymbolsPage { summary, content, symbols: total, returned: next - offset, has_more, cursor })
}

// ---------------------------------------------------------------------
// Laws
// ---------------------------------------------------------------------

/// A line that is a comment defines nothing, and a definition stands before
/// any comment on its line, whatever the rules match.
pub proof fn law_a_definition_stands_before_any_comment(
    line: Seq<char>,
    language: Language,
    found: Seq<Option<Seq<Option<(Seq<char>, Seq<char>)>>>>,
)
    ensures
        definition_from(line, language, found) matches Some(d) ==> !is_comment(line)
            && text::byte_len(d.before) < text::byte_len(line.take(comment_start(line))),
{
    lemma_rules_stop_at_a_comment(line, rules_of(language), found, 0);
}

/// A function found by the fallback is named by the word directly before the
/// first parenthesis of the line, and its place is where that word stands:
/// what lies between the word and the parenthesis holds no other word.
pub proof fn law_the_fallback_names_the_word_before_the_parenthesis(
    line: Seq<char>,
    kind: Option<Seq<char>>,
)
    ensures
        fallback(line, kind) matches Some(d) ==> {
            let at = d.before.len() as int;
            let end = at + d.name.len();
            let paren = text::char_from(line, '(', 0);
            &&& at < end <= paren < line.len()
            &&& d.before == line.take(at)
            &&& d.name == line.subrange(at, end)
            &&& line[paren] == '('
            &&& forall|k: int| 0 <= k < paren ==> #[trigger] line[k] != '('
            &&& forall|k: int| at <= k < end ==> text::word_char(#[trigger] line[k])
            &&& forall|k: int| end <= k < paren ==> !text::word_char(#[trigger] line[k])
            &&& at > 0 ==> !text::word_char(line[at - 1])
        },
{
    if fallback(line, kind) is Some {
        let paren = text::char_from(line, '(', 0);
        text::lemma_char_from(line, '(', 0);
        lemma_word_end(line, paren);
        lemma_word_start(line, word_end(line, paren));
    }
}

proof fn lemma_word_end(s: Seq<char>, n: int)
    requires
        0 <= n <= s.len(),
    ensures
        0 <= word_end(s, n) <= n,
        word_end(s, n) > 0 ==> text::word_char(s[word_end(s, n) - 1]),
        forall|k: int| word_end(s, n) <= k < n ==> !text::word_char(#[trigger] s[k]),
    decreases n,
{
    if !(n <= 0 || text::word_char(s[n - 1])) {
        lemma_word_end(s, n - 1);
    }
}

proof fn lemma_word_start(s: Seq<char>, n: int)
    requires
        0 <= n <= s.len(),
    ensures
        0 <= word_start(s, n) <= n,
        n > 0 && text::word_char(s[n - 1]) ==> word_start(s, n) < n,
        word_start(s, n) > 0 ==> !text::word_char(s[word_start(s, n) - 1]),
        forall|k: int| word_start(s, n) <= k < n ==> text::word_char(#[trigger] s[k]),
    decreases n,
{
    if !(n <= 0 || !text::word_char(s[n - 1])) {
        lemma_word_start(s, n - 1);
    }
}

proof fn lemma_rules_stop_at_a_comment(
    line: Seq<char>,
    rules: Seq<RuleView>,
    found: Seq<Option<Seq<Option<(Seq<char>, Seq<char>)>>>>,
    i: int,
)
    ensures
        rules_outcome(line, rules, found, i) matches RulesOutcome::Found(d) ==> text::byte_len(
            d.before,
        ) < text::byte_len(line.take(comment_start(line))),
    decreases rules.len() - i,
{
    if 0 <= i < rules.len() {
        lemma_rules_stop_at_a_comment(line, rules, found, i + 1);
    }
}

/// A scan adds behind what is there and never goes beyond the limit; every
/// symbol that it adds stands on a line of the file, and matches the query.
pub proof fn law_a_scan_stays_within_its_limit(
    lines: Seq<Seq<char>>,
    i: int,
    language: Language,
    path: Seq<char>,
    query: Seq<char>,
    limit: nat,
    so_far: Seq<SymbolView>,
)
    requires
        0 <= i,
    ensures
        ({
            let end = collected(lines, i, language, path, query, limit, so_far);
            &&& so_far.is_prefix_of(end)
            &&& end.len() <= limit || end == so_far
            &&& forall|k: int|
                so_far.len() <= k < end.len() ==> {
                    let s = #[trigger] end[k];
                    &&& i < s.line <= lines.len()
                    &&& symbol_on(lines, s.line - 1, language, path, query) == Some(s)
                }
        }),
    decreases lines.len() - i,
{
    if i < lines.len() && so_far.len() < limit {
        let next = match symbol_on(lines, i, language, path, query) {
            Some(s) => so_far.push(s),
            None => so_far,
        };
        law_a_scan_stays_within_its_limit(lines, i + 1, language, path, query, limit, next);
        let end = collected(lines, i, language, path, query, limit, so_far);
        assert(next.is_prefix_of(end));
        assert forall|k: int| so_far.len() <= k < end.len() implies {
            let s = #[trigger] end[k];
            &&& i < s.line <= lines.len()
            &&& symbol_on(lines, s.line - 1, language, path, query) == Some(s)
        } by {
            if k < next.len() {
                assert(end[k] == next[k]);
            }
        }
        assert(so_far.is_prefix_of(end)) by {
            assert(so_far =~= end.subrange(0, so_far.len() as int));
        }
    }
}

/// Whether a line holds a definition whose name has the query in it.
pub open spec fn is_wanted(line: Seq<char>, language: Language, query: Seq<char>) -> bool {
    definition(line, language) matches Some(f) && exists|at: int|
        text::occurs_at(f.name, query, at)
}

/// The symbol of line `number`, counted from one, that defines `f`.
pub open spec fn symbol_of(path: Seq<char>, number: int, f: Found) -> SymbolView {
    SymbolView {
        path,
        line: number as nat,
        column: (f.before.len() + 1) as nat,
        kind: f.kind,
        name: f.name,
    }
}

/// A scan adds, behind what is there, one symbol for each line that defines a
/// name with the query anywhere in it, with that line's number and that name,
/// in the order of the lines, and for no other line; only where the limit is
/// reached does it leave such lines out, and then those behind the last.
pub proof fn law_every_wanted_line_is_collected(
    lines: Seq<Seq<char>>,
    language: Language,
    path: Seq<char>,
    query: Seq<char>,
    limit: nat,
    so_far: Seq<SymbolView>,
) -> (numbers: Seq<int>)
    ensures
        ({
            let all = collected(lines, 0, language, path, query, limit, so_far);
            &&& all.len() == so_far.len() + numbers.len()
            &&& all.take(so_far.len() as int) == so_far
            &&& forall|k: int|
                0 <= k < numbers.len() ==> {
                    let n = #[trigger] numbers[k];
                    &&& 1 <= n <= lines.len()
                    &&& is_wanted(lines[n - 1], language, query)
                    &&& all[so_far.len() + k] == symbol_of(
                        path,
                        n,
                        definition(lines[n - 1], language)->0,
                    )
                }
            &&& forall|i: int, j: int| 0 <= i < j < numbers.len() ==> numbers[i] < numbers[j]
            &&& forall|i: int|
                0 <= i < lines.len() && is_wanted(#[trigger] lines[i], language, query)
                    && !numbers.contains(i + 1) ==> all.len() >= limit && (numbers.len() > 0
                    ==> numbers.last() < i + 1)
        }),
{
    lemma_wanted_lines(lines, 0, language, path, query, limit, so_far)
}

proof fn lemma_wanted_lines(
    lines: Seq<Seq<char>>,
    i: int,
    language: Language,
    path: Seq<char>,
    query: Seq<char>,
    limit: nat,
    so_far: Seq<SymbolView>,
) -> (numbers: Seq<int>)
    requires
        0 <= i <= lines.len(),
    ensures
        ({
            let all = collected(lines, i, language, path, query, limit, so_far);
            &&& all.len() == so_far.len() + numbers.len()
            &&& all.take(so_far.len() as int) == so_far
            &&& forall|k: int|
                0 <= k < numbers.len() ==> {
                    let n = #[trigger] numbers[k];
                    &&& i + 1 <= n <= lines.len()
                    &&& is_wanted(lines[n - 1], language, query)
                    &&& all[so_far.len() + k] == symbol_of(
                        path,
                        n,
                        definition(lines[n - 1], language)->0,
                    )
                }
            &&& forall|a: int, b: int| 0 <= a < b < numbers.len() ==> numbers[a] < numbers[b]
            &&& forall|l: int|
                i <= l < lines.len() && is_wanted(#[trigger] lines[l], language, query)
                    && !numbers.contains(l + 1) ==> all.len() >= limit && (numbers.len() > 0
                    ==> numbers.last() < l + 1)
        }),
    decreases lines.len() - i,
{
    let all = collected(lines, i, language, path, query, limit, so_far);
    if i < lines.len() && so_far.len() < limit {
        let found = symbol_on(lines, i, language, path, query);
        let next = match found {
            Some(s) => so_far.push(s),
            None => so_far,
        };
        let rest = lemma_wanted_lines(lines, i + 1, language, path, query, limit, next);
        if definition(lines[i], language) is Some {
            let f = definition(lines[i], language)->0;
            if text::contains(f.name, query) {
                let at = text::law_containing_is_a_place(f.name, query, 0);
                assert(text::occurs_at(f.name, query, at));
            }
            if exists|at: int| text::occurs_at(f.name, query, at) {
                let at = choose|at: int| text::occurs_at(f.name, query, at);
                text::law_containing_is_a_place(f.name, query, at);
            }
            if query.len() == 0 {
                assert(f.name.subrange(0, 0) =~= query);
                assert(text::occurs_at(f.name, query, 0));
            }
        }
        assert(found is Some <==> is_wanted(lines[i], language, query));
        if found is Some {
            let numbers = seq![i + 1] + rest;
            assert(all.take(so_far.len() as int) =~= so_far) by {
                assert(all.take(next.len() as int) == next);
                assert(forall|k: int|
                    0 <= k < so_far.len() ==> all[k] == #[trigger] all.take(next.len() as int)[k]);
            }
            assert(all[so_far.len() as int] == found->0) by {
                assert(all.take(next.len() as int)[so_far.len() as int] == all[so_far.len() as int]);
            }
            assert forall|k: int| 0 <= k < numbers.len() implies {
                let n = #[trigger] numbers[k];
                &&& i + 1 <= n <= lines.len()
                &&& is_wanted(lines[n - 1], language, query)
                &&& all[so_far.len() + k] == symbol_of(
                    path,
                    n,
                    definition(lines[n - 1], language)->0,
                )
            } by {
                if k > 0 {
                    assert(numbers[k] == rest[k - 1]);
                    assert(all[next.len() + (k - 1)] == all[so_far.len() + k]);
                }
            }
            assert forall|l: int|
                i <= l < lines.len() && is_wanted(#[trigger] lines[l], language, query)
                    && !numbers.contains(l + 1) implies all.len() >= limit && (numbers.len() > 0
                ==> numbers.last() < l + 1) by {
                assert(numbers[0] == i + 1);
                if rest.contains(l + 1) {
                    let w = choose|w: int| 0 <= w < rest.len() && rest[w] == l + 1;
                    assert(numbers[w + 1] == l + 1);
                }
                if rest.len() > 0 {
                    assert(numbers.last() == rest.last());
                }
            }
            numbers
        } else {
            rest
        }
    } else {
        assert(all =~= so_far);
        assert(all.take(so_far.len() as int) =~= so_far);
        Seq::empty()
    }
}

/// A comment starts at the first two slashes or slash and star of a line, and
/// at the end of a line that has neither.
pub proof fn law_a_comment_starts_at_its_first_mark(line: Seq<char>)
    ensures
        ({
            let at = comment_start(line);
            &&& 0 <= at <= line.len()
            &&& at < line.len() ==> at + 1 < line.len() && line[at] == '/' && (line[at + 1] == '/'
                || line[at + 1] == '*')
            &&& forall|k: int|
                0 <= k < at && k + 1 < line.len() && #[trigger] line[k] == '/' ==> line[k + 1]
                    != '/' && line[k + 1] != '*'
        }),
{
    reveal_strlit("//");
    reveal_strlit("/*");
    lemma_first_at(line, "//"@, 0);
    lemma_first_at(line, "/*"@, 0);
    let at = comment_start(line);
    assert("//"@[0] == '/' && "//"@[1] == '/' && "/*"@[0] == '/' && "/*"@[1] == '*');
    if at < line.len() {
        if text::occurs_at(line, "//"@, at) {
            text::law_an_occurrence_is_equal_characters(line, "//"@, at);
        } else {
            text::law_an_occurrence_is_equal_characters(line, "/*"@, at);
        }
    }
    assert forall|k: int|
        0 <= k < at && k + 1 < line.len() && #[trigger] line[k] == '/' implies line[k + 1] != '/'
        && line[k + 1] != '*' by {
        text::law_an_occurrence_is_equal_characters(line, "//"@, k);
        text::law_an_occurrence_is_equal_characters(line, "/*"@, k);
        assert(!text::occurs_at(line, "//"@, k));
        assert(!text::occurs_at(line, "/*"@, k));
    }
}

proof fn lemma_first_at(line: Seq<char>, needle: Seq<char>, i: int)
    requires
        0 <= i <= line.len(),
    ensures
        i <= first_at(line, needle, i) <= line.len(),
        first_at(line, needle, i) < line.len() ==> text::occurs_at(
            line,
            needle,
            first_at(line, needle, i),
        ),
        forall|k: int|
            i <= k < first_at(line, needle, i) ==> !#[trigger] text::occurs_at(line, needle, k),
    decreases line.len() - i,
{
    if i < line.len() && !text::occurs_at(line, needle, i) {
        lemma_first_at(line, needle, i + 1);
    }
}

/// A line is a comment as a whole by its first characters that are not white
/// space: a hash, a star, two slashes or a slash and a star. `at` is where the
/// first of them stands.
pub proof fn law_a_comment_line_is_told_by_its_start(line: Seq<char>, at: int)
    requires
        0 <= at <= line.len(),
        forall|k: int| 0 <= k < at ==> text::is_space(#[trigger] line[k]),
        at < line.len() ==> !text::is_space(line[at]),
    ensures
        is_comment(line) <==> at < line.len() && (line[at] == '#' || line[at] == '*' || (line[at]
            == '/' && at + 1 < line.len() && (line[at + 1] == '/' || line[at + 1] == '*'))),
{
    let t = text::trim_start(line);
    let from = text::law_trimming_the_start_keeps_the_end(line);
    if from < at {
        assert(text::is_space(line[from]));
    }
    if at < from {
        assert(text::is_space(line[at]));
    }
    assert(t =~= line.skip(at));
    reveal_strlit("//");
    reveal_strlit("/*");
    reveal_strlit("*");
    reveal_strlit("#");
    text::law_beginning_and_ending(t, "//"@);
    text::law_beginning_and_ending(t, "/*"@);
    text::law_beginning_and_ending(t, "*"@);
    text::law_beginning_and_ending(t, "#"@);
    assert("//"@[0] == '/' && "//"@[1] == '/' && "/*"@[0] == '/' && "/*"@[1] == '*');
    assert("*"@[0] == '*' && "#"@[0] == '#');
    if t.len() > 0 {
        assert(t[0] == line[at]);
    }
    if t.len() > 1 {
        assert(t[1] == line[at + 1]);
    }
}

/// The definition of a line that is no comment is that of the first rule whose
/// match stands before any comment: the rules before it match nowhere, or
/// behind a comment. `i` is that rule.
pub proof fn law_the_first_rule_that_matches_decides(
    line: Seq<char>,
    language: Language,
    found: Seq<Option<Seq<Option<(Seq<char>, Seq<char>)>>>>,
    i: int,
)
    requires
        found.len() == rules_of(language).len(),
        0 <= i < found.len(),
        !is_comment(line),
        found[i] matches Some(groups) && reading(rules_of(language)[i].kind, groups) matches Some(
            f,
        ) && text::byte_len(f.before) < text::byte_len(line.take(comment_start(line))),
        forall|k: int|
            0 <= k < i && #[trigger] found[k] is Some ==> {
                reading(rules_of(language)[k].kind, found[k]->0) matches Some(f) && text::byte_len(
                    f.before,
                ) >= text::byte_len(line.take(comment_start(line)))
            },
    ensures
        definition_from(line, language, found) == reading(
            rules_of(language)[i].kind,
            found[i]->0,
        ),
{
    lemma_rules_pass(line, rules_of(language), found, 0, i);
}

proof fn lemma_rules_pass(
    line: Seq<char>,
    rules: Seq<RuleView>,
    found: Seq<Option<Seq<Option<(Seq<char>, Seq<char>)>>>>,
    from: int,
    to: int,
)
    requires
        0 <= from <= to <= rules.len(),
        found.len() == rules.len(),
        forall|k: int|
            from <= k < to && #[trigger] found[k] is Some ==> {
                reading(rules[k].kind, found[k]->0) matches Some(f) && text::byte_len(f.before)
                    >= text::byte_len(line.take(comment_start(line)))
            },
    ensures
        rules_outcome(line, rules, found, from) == rules_outcome(line, rules, found, to),
    decreases to - from,
{
    if from < to {
        lemma_rules_pass(line, rules, found, from + 1, to);
        assert(found[from] is Some ==> reading(rules[from].kind, found[from]->0) is Some);
    }
}

/// Where no rule finds a definition, the languages of the C family fall back
/// on the word before the first parenthesis; the others find nothing.
pub proof fn law_only_three_languages_fall_back(
    line: Seq<char>,
    language: Language,
    found: Seq<Option<Seq<Option<(Seq<char>, Seq<char>)>>>>,
)
    requires
        found.len() == rules_of(language).len(),
        !is_comment(line),
        forall|k: int| 0 <= k < found.len() ==> #[trigger] found[k] is None,
    ensures
        definition_from(line, language, found) == match language {
            Language::CLike => fallback(line, Some("fn"@)),
            Language::Java => fallback(line, Some("method"@)),
            Language::CSharp => fallback(line, Some("method"@)),
            _ => None,
        },
{
    lemma_rules_pass(line, rules_of(language), found, 0, found.len() as int);
}

/// How a match is read: by a rule of a fixed kind, its first group is the
/// name; by any other rule, its first group is the kind and its second the
/// name. A match without those groups is no definition.
pub proof fn law_a_match_is_read_by_its_groups(
    kind: Option<Seq<char>>,
    groups: Seq<Option<(Seq<char>, Seq<char>)>>,
)
    ensures
        kind is Some && groups.len() > 1 && groups[1] is Some ==> reading(kind, groups) == Some(
            Found { before: (groups[1]->0).0, name: (groups[1]->0).1, kind: kind->0 },
        ),
        kind is None && groups.len() > 2 && groups[1] is Some && groups[2] is Some ==> reading(
            kind,
            groups,
        ) == Some(
            Found { before: (groups[2]->0).0, name: (groups[2]->0).1, kind: (groups[1]->0).1 },
        ),
        groups.len() < 2 || groups[1] is None ==> reading(kind, groups) is None,
        kind is None && (groups.len() < 3 || groups[2] is None) ==> reading(kind, groups) is None,
{
}

/// A line declares a function exactly where it is not blank, does not end with
/// a semicolon, does not begin with a word of control, and has a parenthesis
/// with a word somewhere before the first one.
pub proof fn law_what_declares_a_function(line: Seq<char>)
    ensures
        declared_function(line) is Some <==> {
            let t = text::trim(line);
            &&& t.len() > 0 && t.last() != ';'
            &&& forall|k: int|
                0 <= k < control_words().len() ==> !starts_with_word(
                    t,
                    #[trigger] control_words()[k],
                )
            &&& exists|k: int, j: int|
                0 <= k < j < line.len() && text::word_char(#[trigger] line[k]) && #[trigger] line[j]
                    == '(' && forall|m: int| 0 <= m < j ==> #[trigger] line[m] != '('
        },
{
    let paren = text::char_from(line, '(', 0);
    text::lemma_char_from(line, '(', 0);
    lemma_word_end(line, paren);
    let end = word_end(line, paren);
    if paren < line.len() && end > 0 {
        assert(text::word_char(line[end - 1]) && line[paren] == '(');
    }
    if exists|k: int, j: int|
        0 <= k < j < line.len() && text::word_char(#[trigger] line[k]) && #[trigger] line[j] == '('
            && forall|m: int| 0 <= m < j ==> #[trigger] line[m] != '(' {
        let (k, j) = choose|k: int, j: int|
            0 <= k < j < line.len() && text::word_char(#[trigger] line[k]) && #[trigger] line[j]
                == '(' && forall|m: int| 0 <= m < j ==> #[trigger] line[m] != '(';
        if paren < j {
            assert(line[paren] != '(');
        }
        if j < paren {
            assert(line[j] != '(');
        }
        assert(paren == j);
        if end <= 0 {
            assert(!text::word_char(line[k]));
        }
    }
}

/// A text starts with a word where the word's characters stand first and no
/// letter, digit or underscore follows.
pub proof fn law_a_first_word_ends_at_its_end(s: Seq<char>, word: Seq<char>)
    ensures
        starts_with_word(s, word) <==> {
            &&& word.len() <= s.len()
            &&& forall|k: int| 0 <= k < word.len() ==> s[k] == #[trigger] word[k]
            &&& word.len() < s.len() ==> !text::word_char(s[word.len() as int])
        },
{
    text::law_beginning_and_ending(s, word);
}

/// The words that never start a declaration.
pub proof fn law_the_words_of_control()
    ensures
        forall|w: Seq<char>|
            #[trigger] control_words().contains(w) <==> seq![
                "if"@,
                "for"@,
                "while"@,
                "switch"@,
                "return"@,
                "else"@,
                "do"@,
                "catch"@,
                "sizeof"@,
                "case"@,
                "new"@,
                "delete"@,
                "throw"@,
                "try"@,
                "goto"@,
            ].contains(w),
{
}

/// The extension of a name is what stands behind its last dot, in lower case;
/// a name without a dot behind its first character has none. `at` is the last
/// dot.
pub proof fn law_an_extension_stands_behind_the_last_dot(name: Seq<char>, at: int)
    requires
        -1 <= at < name.len(),
        at >= 0 ==> name[at] == '.',
        forall|k: int| at < k < name.len() ==> #[trigger] name[k] != '.',
    ensures
        extension(name) is Some <==> at > 0 && name != seq!['.', '.'],
        extension(name) matches Some(e) ==> e.len() == name.len() - at - 1 && forall|k: int|
            0 <= k < e.len() ==> #[trigger] e[k] == text::ascii_lower_char(name[at + 1 + k]),
{
    lemma_last_dot(name, name.len() as int);
    let found = last_dot(name, name.len() as int);
    if found < at {
        assert(name[at] != '.');
    }
    if at < found {
        assert(name[found] != '.');
    }
    reveal_strlit("..");
    assert(".."@ =~= seq!['.', '.']);
}

proof fn lemma_last_dot(s: Seq<char>, to: int)
    requires
        0 <= to <= s.len(),
    ensures
        -1 <= last_dot(s, to) < to,
        last_dot(s, to) >= 0 ==> s[last_dot(s, to)] == '.',
        forall|k: int| last_dot(s, to) < k < to ==> #[trigger] s[k] != '.',
    decreases to,
{
    if to > 0 && s[to - 1] != '.' {
        lemma_last_dot(s, to - 1);
    }
}

/// The symbols of a list in order go up by path, then line, then column.
pub proof fn law_sorted_symbols_go_up(list: Seq<SymbolView>, i: int, j: int)
    requires
        symbols_sorted(list),
        0 <= i < j < list.len(),
    ensures
        list[i].path == list[j].path || order::before(list[i].path, list[j].path),
        list[i].path == list[j].path ==> list[i].line <= list[j].line,
        list[i].path == list[j].path && list[i].line == list[j].line ==> list[i].column
            <= list[j].column,
        list[i].path == list[j].path && list[i].line == list[j].line && list[i].column
            == list[j].column ==> list[i].kind == list[j].kind || order::before(
            list[i].kind,
            list[j].kind,
        ),
        list[i].path == list[j].path && list[i].line == list[j].line && list[i].column
            == list[j].column && list[i].kind == list[j].kind ==> list[i].name == list[j].name
            || order::before(list[i].name, list[j].name),
{
    assert(!symbol_before(list[j], list[i]));
    order::lemma_before_is_a_strict_order(list[i].path, list[j].path, list[i].path);
    order::lemma_before_is_a_strict_order(list[i].kind, list[j].kind, list[i].kind);
    order::lemma_before_is_a_strict_order(list[i].name, list[j].name, list[i].name);
}

/// The first page shows the first hundred rows, and says how many are left
/// and where they are exactly where there are more.
pub proof fn law_the_first_page_shows_a_hundred_rows(
    p: SymbolsPage,
    rows: Seq<Seq<char>>,
    files: nat,
    reference: Option<Seq<char>>,
)
    requires
        first_page_is(p, rows, files, reference),
        reference is Some == overflows(rows),
    ensures
        p.has_more <==> rows.len() > 100,
        p.cursor is Some <==> p.has_more,
        p.symbols == rows.len(),
        p.returned == if rows.len() > 100 {
            100
        } else {
            rows.len()
        },
        0 < rows.len() <= 100 ==> p.content@ == text::join(rows, "\n"@),
        rows.len() > 100 ==> p.content@ == text::join(rows.take(100), "\n"@) + "\n... "@
            + text::dec((rows.len() - 100) as nat) + " more symbols; full list: "@ + reference->0,
        rows.len() > 100 ==> cursor::cursor_meaning(p.cursor->0@) == Ok::<_, CursorError>(
            (reference->0, 100nat),
        ),
{
    if 0 < rows.len() <= 100 {
        assert(rows.take(rows.len() as int) =~= rows);
        reveal_strlit("");
        assert(p.content@ =~= text::join(rows, "\n"@));
    }
    if rows.len() > 100 {
        cursor::law_a_cursor_reads_back(reference->0, 100);
        assert(p.content@ =~= text::join(rows.take(100), "\n"@) + "\n... "@ + text::dec(
            (rows.len() - 100) as nat,
        ) + " more symbols; full list: "@ + reference->0);
    }
}

/// A later page shows the next hundred rows and its cursor names the row
/// behind them; the last one has none.
pub proof fn law_a_later_page_goes_on(
    p: SymbolsPage,
    lines: Seq<Seq<char>>,
    reference: Seq<char>,
    offset: nat,
)
    requires
        snapshot_page_is(p, lines, reference, offset),
        offset < lines.len() <= usize::MAX,
    ensures
        p.returned == if lines.len() - offset > 100 {
            100
        } else {
            lines.len() - offset
        },
        p.content@ == text::join(
            lines.subrange(offset as int, offset as int + p.returned),
            "\n"@,
        ),
        p.has_more <==> lines.len() > offset + 100,
        p.has_more ==> p.cursor is Some && cursor::cursor_meaning(p.cursor->0@) == Ok::<
            _,
            CursorError,
        >((reference, offset + 100)),
        !p.has_more ==> p.cursor is None,
{
    if p.has_more {
        cursor::law_a_cursor_reads_back(reference, offset + 100);
    }
}

/// The limits of a call.
pub proof fn law_the_limits_of_a_call()
    ensures
        MAX_FILES_SCANNED == 5_000,
        MAX_BYTES_PER_FILE == 2 * 1024 * 1024,
        MODEL_SYMBOLS == 100,
        MAX_SYMBOLS == 1_000,
{
}

/// A row names the place, the kind and the name of its symbol, in that order.
pub proof fn law_a_row_names_its_symbol(list: Seq<SymbolView>, i: int)
    requires
        0 <= i < list.len(),
    ensures
        symbol_rows(list).len() == list.len(),
        symbol_rows(list)[i] == list[i].path + ":"@ + text::dec(list[i].line) + ":"@ + text::dec(
            list[i].column,
        ) + "  "@ + list[i].kind + " "@ + list[i].name,
{
}

/// Which language a file is in, by its extension.
pub proof fn law_the_extensions_of_each_language()
    ensures
        language_named("rs"@) == Some(Language::Rust),
        language_named("py"@) == Some(Language::Python),
        language_named("js"@) == Some(Language::TypeScript),
        language_named("jsx"@) == Some(Language::TypeScript),
        language_named("mjs"@) == Some(Language::TypeScript),
        language_named("cjs"@) == Some(Language::TypeScript),
        language_named("ts"@) == Some(Language::TypeScript),
        language_named("tsx"@) == Some(Language::TypeScript),
        language_named("go"@) == Some(Language::Go),
        language_named("c"@) == Some(Language::CLike),
        language_named("h"@) == Some(Language::CLike),
        language_named("cpp"@) == Some(Language::CLike),
        language_named("hpp"@) == Some(Language::CLike),
        language_named("cc"@) == Some(Language::CLike),
        language_named("hh"@) == Some(Language::CLike),
        language_named("cxx"@) == Some(Language::CLike),
        language_named("hxx"@) == Some(Language::CLike),
        language_named("java"@) == Some(Language::Java),
        language_named("cs"@) == Some(Language::CSharp),
        language_named("kt"@) == Some(Language::Kotlin),
        language_named("kts"@) == Some(Language::Kotlin),
        language_named("scala"@) == Some(Language::Scala),
        language_named("swift"@) == Some(Language::Swift),
        language_named("zig"@) == Some(Language::Zig),
{
    reveal_strlit("rs");
    reveal_strlit("py");
    reveal_strlit("js");
    reveal_strlit("jsx");
    reveal_strlit("mjs");
    reveal_strlit("cjs");
    reveal_strlit("ts");
    reveal_strlit("tsx");
    reveal_strlit("go");
    reveal_strlit("c");
    reveal_strlit("h");
    reveal_strlit("cpp");
    reveal_strlit("hpp");
    reveal_strlit("cc");
    reveal_strlit("hh");
    reveal_strlit("cxx");
    reveal_strlit("hxx");
    reveal_strlit("java");
    reveal_strlit("cs");
    reveal_strlit("kt");
    reveal_strlit("kts");
    reveal_strlit("scala");
    reveal_strlit("swift");
    reveal_strlit("zig");
    assert("rs"@.len() == 2 && "rs"@[0] == 'r');
    assert("py"@.len() == 2 && "py"@[0] == 'p');
    assert("js"@.len() == 2 && "js"@[0] == 'j');
    assert("jsx"@.len() == 3 && "jsx"@[0] == 'j');
    assert("mjs"@.len() == 3 && "mjs"@[0] == 'm');
    assert("cjs"@.len() == 3 && "cjs"@[0] == 'c' && "cjs"@[1] == 'j');
    assert("ts"@.len() == 2 && "ts"@[0] == 't');
    assert("tsx"@.len() == 3 && "tsx"@[0] == 't');
    assert("go"@.len() == 2 && "go"@[0] == 'g');
    assert("c"@.len() == 1 && "h"@.len() == 1 && "java"@.len() == 4);
    assert("cpp"@.len() == 3 && "cpp"@[0] == 'c' && "cpp"@[1] == 'p');
    assert("hpp"@.len() == 3 && "hpp"@[0] == 'h');
    assert("cc"@.len() == 2 && "cc"@[0] == 'c' && "cc"@[1] == 'c');
    assert("hh"@.len() == 2 && "hh"@[0] == 'h');
    assert("cxx"@.len() == 3 && "cxx"@[0] == 'c' && "cxx"@[1] == 'x');
    assert("hxx"@.len() == 3 && "hxx"@[0] == 'h');
    assert("cs"@.len() == 2 && "cs"@[0] == 'c' && "cs"@[1] == 's');
    assert("kt"@.len() == 2 && "kt"@[0] == 'k');
    assert("kts"@.len() == 3 && "kts"@[0] == 'k');
    assert("scala"@.len() == 5 && "scala"@[1] == 'c');
    assert("swift"@.len() == 5 && "swift"@[1] == 'w');
    assert("zig"@.len() == 3 && "zig"@[0] == 'z');
}

/// The kinds of definition that each language has, in the order in which they
/// are tried.
pub proof fn law_the_kinds_of_each_language()
    ensures
        rules_of(Language::Rust).map_values(|r: RuleView| r.kind) == seq![
            Some("fn"@),
            Some("struct"@),
            Some("enum"@),
            Some("trait"@),
            Some("impl"@),
            Some("const"@),
            Some("static"@),
            Some("type"@),
            Some("mod"@),
            Some("macro"@),
        ],
        rules_of(Language::Python).map_values(|r: RuleView| r.kind) == seq![
            Some("def"@),
            Some("class"@),
        ],
        rules_of(Language::TypeScript).map_values(|r: RuleView| r.kind) == seq![
            Some("function"@),
            Some("class"@),
            Some("interface"@),
            Some("type"@),
            None,
        ],
        rules_of(Language::Go).map_values(|r: RuleView| r.kind) == seq![
            Some("func"@),
            Some("type"@),
            Some("var"@),
            Some("const"@),
        ],
        rules_of(Language::CLike).map_values(|r: RuleView| r.kind) == seq![
            Some("struct"@),
            Some("class"@),
            Some("enum"@),
            Some("union"@),
        ],
        rules_of(Language::Java).map_values(|r: RuleView| r.kind) == seq![
            Some("class"@),
            Some("interface"@),
            Some("enum"@),
            Some("record"@),
        ],
        rules_of(Language::CSharp).map_values(|r: RuleView| r.kind) == seq![
            Some("class"@),
            Some("struct"@),
            Some("interface"@),
            Some("enum"@),
            Some("record"@),
        ],
        rules_of(Language::Kotlin).map_values(|r: RuleView| r.kind) == seq![
            Some("fun"@),
            Some("class"@),
            Some("interface"@),
            Some("object"@),
            Some("property"@),
        ],
        rules_of(Language::Scala).map_values(|r: RuleView| r.kind) == seq![
            Some("def"@),
            Some("class"@),
            Some("object"@),
            Some("trait"@),
        ],
        rules_of(Language::Swift).map_values(|r: RuleView| r.kind) == seq![
            Some("func"@),
            Some("class"@),
            Some("struct"@),
            Some("enum"@),
            Some("protocol"@),
            Some("property"@),
        ],
        rules_of(Language::Zig).map_values(|r: RuleView| r.kind) == seq![
            Some("fn"@),
            Some("binding"@),
            Some("type"@),
        ],
{
}

/// A class is found behind the word `class` in every language but two, which
/// have rules of their own for it.
pub proof fn law_a_class_is_found_behind_its_word(language: Language, i: int)
    requires
        0 <= i < rules_of(language).len(),
        rules_of(language)[i].kind == Some("class"@),
        language != Language::Python && language != Language::TypeScript,
    ensures
        rules_of(language)[i].pattern == r"\bclass\s+([A-Za-z_][A-Za-z0-9_]*)"@,
{
    reveal_strlit("class");
    reveal_strlit("fn");
    reveal_strlit("struct");
    reveal_strlit("enum");
    reveal_strlit("trait");
    reveal_strlit("impl");
    reveal_strlit("const");
    reveal_strlit("static");
    reveal_strlit("type");
    reveal_strlit("mod");
    reveal_strlit("macro");
    reveal_strlit("func");
    reveal_strlit("var");
    reveal_strlit("union");
    reveal_strlit("interface");
    reveal_strlit("record");
    reveal_strlit("fun");
    reveal_strlit("object");
    reveal_strlit("property");
    reveal_strlit("def");
    reveal_strlit("protocol");
    reveal_strlit("binding");
    assert("class"@[0] == 'c' && "class"@[1] == 'l' && "class"@.len() == 5);
    assert("trait"@[0] == 't' && "macro"@[0] == 'm' && "union"@[0] == 'u' && "const"@[1] == 'o');
}

/// The summaries of the pages count what is on them: the first all symbols and
/// files, a later one the rows that it shows.
pub proof fn law_the_summaries_count_the_rows(
    p: SymbolsPage,
    q: SymbolsPage,
    rows: Seq<Seq<char>>,
    files: nat,
    reference: Seq<char>,
    offset: nat,
)
    requires
        first_page_is(
            p,
            rows,
            files,
            if rows.len() > 100 {
                Some(reference)
            } else {
                None
            },
        ),
        snapshot_page_is(q, rows, reference, offset),
        offset < rows.len(),
    ensures
        p.summary@ == text::dec(rows.len()) + " symbols across "@ + text::dec(files) + " files"@,
        q.summary@ == "symbol rows "@ + text::dec(offset + 1) + "-"@ + text::dec(
            (offset + q.returned) as nat,
        ) + " of "@ + text::dec(rows.len()) + " (snapshot)"@,
        q.symbols == rows.len(),
{
}

/// A file is in a language exactly where its extension is one of these.
pub proof fn law_other_extensions_are_no_language(ext: Seq<char>)
    ensures
        language_named(ext) is Some <==> seq![
            "rs"@,
            "py"@,
            "js"@,
            "jsx"@,
            "mjs"@,
            "cjs"@,
            "ts"@,
            "tsx"@,
            "go"@,
            "c"@,
            "h"@,
            "cpp"@,
            "hpp"@,
            "cc"@,
            "hh"@,
            "cxx"@,
            "hxx"@,
            "java"@,
            "cs"@,
            "kt"@,
            "kts"@,
            "scala"@,
            "swift"@,
            "zig"@,
        ].contains(ext),
{
    let all = seq![
        "rs"@,
        "py"@,
        "js"@,
        "jsx"@,
        "mjs"@,
        "cjs"@,
        "ts"@,
        "tsx"@,
        "go"@,
        "c"@,
        "h"@,
        "cpp"@,
        "hpp"@,
        "cc"@,
        "hh"@,
        "cxx"@,
        "hxx"@,
        "java"@,
        "cs"@,
        "kt"@,
        "kts"@,
        "scala"@,
        "swift"@,
        "zig"@,
    ];
    assert(all[0] == "rs"@ && all[1] == "py"@ && all[2] == "js"@ && all[3] == "jsx"@);
    assert(all[4] == "mjs"@ && all[5] == "cjs"@ && all[6] == "ts"@ && all[7] == "tsx"@);
    assert(all[8] == "go"@ && all[9] == "c"@ && all[10] == "h"@ && all[11] == "cpp"@);
    assert(all[12] == "hpp"@ && all[13] == "cc"@ && all[14] == "hh"@ && all[15] == "cxx"@);
    assert(all[16] == "hxx"@ && all[17] == "java"@ && all[18] == "cs"@ && all[19] == "kt"@);
    assert(all[20] == "kts"@ && all[21] == "scala"@ && all[22] == "swift"@ && all[23] == "zig"@);
    if all.contains(ext) {
        let k = choose|k: int| 0 <= k < all.len() && all[k] == ext;
        assert(0 <= k < 24);
    }
}

} // verus!
