//! The outside functions the library calls, each behind one function with a
//! contract that is believed, not proved.
use crate::order;
use crate::text;
use regex::Regex;
use serde_json::Value;
use sha2::{Digest, Sha256};
use vstd::prelude::*;

verus! {

/// The SHA-256 digest of some bytes, written as lowercase hexadecimal.
pub uninterp spec fn sha256_hex(bytes: Seq<u8>) -> Seq<char>;

/// A lowercase hexadecimal digit.
pub open spec fn is_hex_digit(c: char) -> bool {
    ('0' <= c <= '9') || ('a' <= c <= 'f')
}

/// `sha2::Sha256::digest`, formatted with `{:x}`: the result depends on the
/// bytes alone and is 64 lowercase hexadecimal digits. Which digits is left
/// to the name `sha256_hex`.
#[verifier::external_body]
pub(crate) fn sha256(bytes: &[u8]) -> (out: String)
    ensures
        out@ == sha256_hex(bytes@),
        out@.len() == 64,
        forall|i: int| 0 <= i < out@.len() ==> is_hex_digit(#[trigger] out@[i]),
{
    format!("{:x}", Sha256::digest(bytes))
}

/// The low digit of a byte in hexadecimal.
pub open spec fn hex_digit(d: int) -> char {
    if d < 10 {
        (48 + d) as char
    } else {
        (87 + d) as char
    }
}

/// How one character is written inside a JSON string.
pub open spec fn json_escape(c: char) -> Seq<char> {
    if c == '"' {
        seq!['\\', '"']
    } else if c == '\\' {
        seq!['\\', '\\']
    } else if c == '\u{8}' {
        seq!['\\', 'b']
    } else if c == '\t' {
        seq!['\\', 't']
    } else if c == '\n' {
        seq!['\\', 'n']
    } else if c == '\u{c}' {
        seq!['\\', 'f']
    } else if c == '\r' {
        seq!['\\', 'r']
    } else if (c as int) < 32 {
        seq!['\\', 'u', '0', '0', hex_digit(c as int / 16), hex_digit(c as int % 16)]
    } else {
        seq![c]
    }
}

/// The inside of a JSON string.
pub open spec fn json_escaped(s: Seq<char>) -> Seq<char>
    decreases s.len(),
{
    if s.len() == 0 {
        Seq::empty()
    } else {
        json_escaped(s.drop_last()) + json_escape(s.last())
    }
}

/// A text as a JSON string, quotes included.
pub open spec fn json_string(s: Seq<char>) -> Seq<char> {
    seq!['"'] + json_escaped(s) + seq!['"']
}

/// `serde_json::to_string` on a string: the string in quotes, with quotes,
/// backslashes and the control characters below U+0020 escaped. Serializing
/// a string does not fail.
#[verifier::external_body]
pub(crate) fn json_quoted(s: &str) -> (out: String)
    ensures
        out@ == json_string(s@),
{
    serde_json::to_string(s).unwrap_or_default()
}

/// `str::from_utf8`: the text that some bytes encode, exactly when they are
/// valid UTF-8.
#[verifier::external_body]
pub(crate) fn utf8_text<'a>(bytes: &'a [u8]) -> (r: Option<&'a str>)
    ensures
        match r {
            Some(s) => vstd::utf8::valid_utf8(bytes@) && s@ == vstd::utf8::decode_utf8(bytes@),
            None => !vstd::utf8::valid_utf8(bytes@),
        },
{
    std::str::from_utf8(bytes).ok()
}

/// A text the way `{:?}` shows it: quoted, with what is not printable
/// escaped.
pub uninterp spec fn str_debug(s: Seq<char>) -> Seq<char>;

/// The `{:?}` formatting of a string: a function of its characters alone.
/// How each character is escaped is left to the name `str_debug`.
#[verifier::external_body]
pub(crate) fn debug_quoted(s: &str) -> (out: String)
    ensures
        out@ == str_debug(s@),
{
    format!("{s:?}")
}

/// The text that some bytes decode to with invalid sequences replaced.
pub uninterp spec fn utf8_lossy(bytes: Seq<u8>) -> Seq<char>;

/// `String::from_utf8_lossy`: the text of valid UTF-8, and for other bytes a
/// text that depends on them alone, in which one U+FFFD stands for each
/// invalid sequence, so that no byte gives more than one character. Where
/// one sequence ends and the next begins is left to the name `utf8_lossy`.
#[verifier::external_body]
pub(crate) fn lossy_text(bytes: &[u8]) -> (out: String)
    ensures
        out@ == utf8_lossy(bytes@),
        out@.len() <= bytes@.len(),
        vstd::utf8::valid_utf8(bytes@) ==> out@ == vstd::utf8::decode_utf8(bytes@),
{
    String::from_utf8_lossy(bytes).into_owned()
}

/// One group of a match: the text before it and the text it covers.
#[derive(Debug)]
pub struct Group {
    pub before: String,
    pub text: String,
}

/// The groups of a match as values.
pub open spec fn group_views(groups: Seq<Option<Group>>) -> Seq<Option<(Seq<char>, Seq<char>)>> {
    Seq::new(
        groups.len(),
        |i: int|
            match groups[i] {
                Some(g) => Some((g.before@, g.text@)),
                None => None,
            },
    )
}

/// The groups of the first match of a regular expression in a text; `None`
/// where it does not match or is no regular expression.
pub uninterp spec fn regex_captures(pattern: Seq<char>, text: Seq<char>) -> Option<
    Seq<Option<(Seq<char>, Seq<char>)>>,
>;

/// The first match in a text as values; `None` without one.
pub open spec fn found_view(found: Option<Vec<Option<Group>>>) -> Option<
    Seq<Option<(Seq<char>, Seq<char>)>>,
> {
    match found {
        Some(groups) => Some(group_views(groups@)),
        None => None,
    }
}

/// Whether a match is one in this text: group 0 took part in it, and every
/// group that did is a part of the text.
pub open spec fn found_in(found: Option<Vec<Option<Group>>>, text: Seq<char>) -> bool {
    found matches Some(groups) ==> {
        &&& groups@.len() > 0 && groups@[0] is Some
        &&& forall|i: int|
            0 <= i < groups@.len() ==> (#[trigger] groups@[i] matches Some(g) ==> (g.before@
                + g.text@).is_prefix_of(text))
    }
}

/// `regex::Regex::captures` on each text, by the expression that
/// `regex::Regex::new` makes of the pattern: a function of pattern and text
/// alone. Where a pattern matches is left to the name `regex_captures`.
#[verifier::external_body]
pub(crate) fn regex_search(pattern: &str, texts: &Vec<String>) -> (r: Vec<Option<Vec<Option<Group>>>>)
    ensures
        r@.len() == texts@.len(),
        forall|i: int|
            0 <= i < r@.len() ==> found_view(#[trigger] r@[i]) == regex_captures(
                pattern@,
                texts@[i]@,
            ) && found_in(r@[i], texts@[i]@),
{
    let regex = Regex::new(pattern).ok();
    let search = |text: &String| {
        let found = regex.as_ref()?.captures(text)?;
        let group = |m: regex::Match| Group {
            before: text[..m.start()].to_string(),
            text: m.as_str().to_string(),
        };
        Some(found.iter().map(|m| m.map(group)).collect())
    };
    texts.iter().map(search).collect()
}

/// The texts of a match's groups as values.
pub open spec fn text_views(groups: Seq<Option<String>>) -> Seq<Option<Seq<char>>> {
    Seq::new(
        groups.len(),
        |i: int|
            match groups[i] {
                Some(g) => Some(g@),
                None => None,
            },
    )
}

/// The texts of the groups of every match, in order.
pub open spec fn match_views(matches: Seq<Vec<Option<String>>>) -> Seq<Seq<Option<Seq<char>>>> {
    Seq::new(matches.len(), |i: int| text_views(matches[i]@))
}

/// The groups of the successive matches of a regular expression in a text;
/// none where it is no regular expression.
pub uninterp spec fn regex_captures_all(pattern: Seq<char>, text: Seq<char>) -> Seq<
    Seq<Option<Seq<char>>>,
>;

/// `regex::Regex::captures_iter` of the expression that `regex::Regex::new`
/// makes of the pattern: a function of pattern and text alone. Where the
/// pattern matches is left to the name `regex_captures_all`.
#[verifier::external_body]
pub(crate) fn regex_search_all(pattern: &str, text: &str) -> (r: Vec<Vec<Option<String>>>)
    ensures
        match_views(r@) == regex_captures_all(pattern@, text@),
{
    let Ok(regex) = Regex::new(pattern) else {
        return Vec::new();
    };
    let text_of = |m: regex::Match| m.as_str().to_string();
    regex.captures_iter(text).map(|c| c.iter().map(|m| m.map(text_of)).collect()).collect()
}

/// A member of a JSON object, as far as the library looks into it.
#[derive(Debug)]
pub enum JsonField {
    Null,
    Text(String),
    Unsigned(u64),
    Other,
}

/// A member of a JSON object as a value.
pub enum JsonValue {
    Null,
    Text(Seq<char>),
    Unsigned(u64),
    Other,
}

impl View for JsonField {
    type V = JsonValue;

    open spec fn view(&self) -> JsonValue {
        match self {
            JsonField::Null => JsonValue::Null,
            JsonField::Text(s) => JsonValue::Text(s@),
            JsonField::Unsigned(n) => JsonValue::Unsigned(*n),
            JsonField::Other => JsonValue::Other,
        }
    }
}

/// The members of a JSON object as values.
pub open spec fn member_views(members: Seq<(String, JsonField)>) -> Seq<(Seq<char>, JsonValue)> {
    Seq::new(members.len(), |i: int| (members[i].0@, members[i].1@))
}

/// The members of the JSON object that a text holds: none where it holds
/// another JSON value, `None` where it is no JSON.
pub uninterp spec fn json_members(text: Seq<char>) -> Option<Seq<(Seq<char>, JsonValue)>>;

/// `serde_json::from_str` into a `serde_json::Value`, and the members of that
/// value where it is an object: a function of the text alone. A string and an
/// unsigned integer keep what they hold. Which text gives which members is
/// left to the name `json_members`.
#[verifier::external_body]
pub(crate) fn json_object(text: &str) -> (r: Option<Vec<(String, JsonField)>>)
    ensures
        match r {
            Some(members) => json_members(text@) == Some(member_views(members@)),
            None => json_members(text@) is None,
        },
{
    let field = |value: Value| match value {
        Value::Null => JsonField::Null,
        Value::String(s) => JsonField::Text(s),
        Value::Number(n) => n.as_u64().map_or(JsonField::Other, JsonField::Unsigned),
        Value::Bool(_) | Value::Array(_) | Value::Object(_) => JsonField::Other,
    };
    match serde_json::from_str(text).ok()? {
        Value::Object(map) => Some(map.into_iter().map(|(k, v)| (k, field(v))).collect()),
        Value::Null | Value::Bool(_) | Value::Number(_) => Some(Vec::new()),
        Value::String(_) | Value::Array(_) => Some(Vec::new()),
    }
}

/// How a member's value is written.
pub open spec fn json_value_text(v: JsonValue) -> Seq<char> {
    match v {
        JsonValue::Text(s) => json_string(s),
        JsonValue::Unsigned(n) => text::dec(n as nat),
        _ => "null"@,
    }
}

/// How the members of an object are written, one after another.
pub open spec fn json_members_text(members: Seq<(Seq<char>, JsonValue)>) -> Seq<char>
    decreases members.len(),
{
    if members.len() == 0 {
        Seq::empty()
    } else {
        let (key, value) = members.last();
        let rest = members.drop_last();
        let own = json_string(key) + ":"@ + json_value_text(value);
        if rest.len() == 0 {
            own
        } else {
            json_members_text(rest) + ","@ + own
        }
    }
}

/// How an object is written, without white space.
pub open spec fn json_object_text(members: Seq<(Seq<char>, JsonValue)>) -> Seq<char> {
    "{"@ + json_members_text(members) + "}"@
}

/// Whether every member's name comes before the next one's, and every value
/// is one that can be written.
pub open spec fn json_writable(members: Seq<(Seq<char>, JsonValue)>) -> bool {
    &&& forall|i: int, j: int|
        0 <= i < j < members.len() ==> order::before(
            #[trigger] members[i].0,
            #[trigger] members[j].0,
        )
    &&& forall|i: int| 0 <= i < members.len() ==> (#[trigger] members[i]).1 !is Other
}

/// The `Display` of a `serde_json::Value` that holds an object: the members
/// in the order of their names, compact; and `serde_json::from_str` reads the
/// same members back.
#[verifier::external_body]
pub(crate) fn json_written(members: Vec<(String, JsonField)>) -> (out: String)
    requires
        json_writable(member_views(members@)),
    ensures
        out@ == json_object_text(member_views(members@)),
        json_members(out@) == Some(member_views(members@)),
{
    let value = |field: JsonField| match field {
        JsonField::Null | JsonField::Other => Value::Null,
        JsonField::Text(s) => Value::String(s),
        JsonField::Unsigned(n) => Value::from(n),
    };
    Value::Object(members.into_iter().map(|(k, f)| (k, value(f))).collect()).to_string()
}

} // verus!
