//! The YAML that the library writes.
//!
//! A text is quoted only where it must be: where it would not be YAML without quotes, or where
//! it would not be read back as it was. What a plain text is read as is asked of `serde_yaml`
//! itself.
use crate::json::{bool_text, bool_word, lemma_view, Json, JsonView, Member};
use crate::number::{print_number, printed, yaml_number, yaml_number_text};
use crate::text::{
    chars_of, contains, control, copy_text, digit, has, is_control, is_digit, join,
    law_joined_split, law_split_joined, occurs_at, opt_text, pieces, replace, replace_from,
    replaced, same, split, sub_text, trim, trimmed, views,
};
use crate::yaml::{lemma_yaml_view, parse_yaml, parsed_yaml, read_view, Yaml, YamlView};
use vstd::prelude::*;

verus! {

/// How strictly a text is quoted.
#[derive(Debug, Clone, Copy, PartialEq, Eq, Structural)]
pub enum Quote {
    /// A text must read back as a text: the content of a request.
    Strict,
    /// A text must read back as the same characters: a key, or an expected value.
    Loose,
    /// As strictly, here and wherever below: whether a value is a text or a number is up to the
    /// user.
    Free,
}

/// The key below which texts are quoted loosely.
pub const LOOSE_SUBTREE_KEY: &'static str = "assertions";

/// The key of the variables of a case, below which types are kept.
pub const VARS_KEY: &'static str = "vars";

/// The key of what a step sends, below which types are kept.
pub const REQUEST_KEY: &'static str = "request";

// ---- quotes ----------------------------------------------------------------------------

/// Whether a character is only read back from an escape: a control character, a line separator,
/// which a reader takes for the end of a line, or one that a reader of YAML refuses.
pub open spec fn must_escape(c: char) -> bool {
    is_control(c) || c == '\u{2028}' || c == '\u{2029}' || c == '\u{FFFE}' || c == '\u{FFFF}'
}

/// Whether a character is only read back from an escape.
fn is_escaped(c: char) -> (r: bool)
    ensures
        r == must_escape(c),
{
    control(c) || c == '\u{2028}' || c == '\u{2029}' || c == '\u{FFFE}' || c == '\u{FFFF}'
}

/// Whether a text holds a character that needs an escape, which only double quotes can write.
pub open spec fn holds_special(s: Seq<char>) -> bool {
    exists|i: int| 0 <= i < s.len() && must_escape(#[trigger] s[i])
}

/// Whether a text holds a character that needs an escape.
fn needs_double_quote(s: &str) -> (r: bool)
    ensures
        r == holds_special(s@),
{
    let cs: Vec<char> = chars_of(s);
    let mut i: usize = 0;
    while i < cs.len()
        invariant
            cs@ == s@,
            i <= cs@.len(),
            forall|k: int| 0 <= k < i ==> !must_escape(#[trigger] cs@[k]),
        decreases cs@.len() - i,
    {
        if is_escaped(cs[i]) {
            return true;
        }
        i = i + 1;
    }
    false
}

/// A text in single quotes, where a quote is written twice.
pub open spec fn in_single_quotes(s: Seq<char>) -> Seq<char> {
    seq!['\''] + replace(s, "'"@, "''"@) + seq!['\'']
}

/// A text in single quotes.
fn single_quoted(s: &str) -> (r: String)
    ensures
        r@ == in_single_quotes(s@),
{
    proof {
        reveal_strlit("'");
    }
    let mut out: String = String::new();
    out.push('\'');
    out.push_str(replaced(s, "'", "''").as_str());
    out.push('\'');
    assert(out@ =~= in_single_quotes(s@));
    out
}

/// A hexadecimal digit.
pub open spec fn hex_digit(d: int) -> char {
    if d < 10 {
        (0x30 + d) as char
    } else {
        (0x57 + d) as char
    }
}

/// A character between double quotes.
pub open spec fn escaped(c: char) -> Seq<char> {
    if c == '"' {
        seq!['\\', '"']
    } else if c == '\\' {
        seq!['\\', '\\']
    } else if c == '\n' {
        seq!['\\', 'n']
    } else if c == '\r' {
        seq!['\\', 'r']
    } else if c == '\t' {
        seq!['\\', 't']
    } else if must_escape(c) {
        let u = c as u32;
        seq![
            '\\',
            'u',
            hex_digit((u / 4096) as int),
            hex_digit((u / 256 % 16) as int),
            hex_digit((u / 16 % 16) as int),
            hex_digit((u % 16) as int),
        ]
    } else {
        seq![c]
    }
}

/// The characters of a text between double quotes.
pub open spec fn all_escaped(s: Seq<char>) -> Seq<char>
    decreases s.len(),
{
    if s.len() == 0 {
        seq![]
    } else {
        all_escaped(s.drop_last()) + escaped(s.last())
    }
}

/// A text in double quotes.
pub open spec fn in_double_quotes(s: Seq<char>) -> Seq<char> {
    seq!['"'] + all_escaped(s) + seq!['"']
}

fn hex_of(d: u8) -> (r: char)
    requires
        d < 16,
    ensures
        r == hex_digit(d as int),
{
    if d < 10 {
        (0x30 + d) as char
    } else {
        (0x57 + d) as char
    }
}

/// Writes a character between double quotes.
fn push_escaped(out: &mut String, c: char)
    ensures
        final(out)@ == old(out)@ + escaped(c),
{
    let ghost start = out@;
    if c == '"' {
        out.push('\\');
        out.push('"');
    } else if c == '\\' {
        out.push('\\');
        out.push('\\');
    } else if c == '\n' {
        out.push('\\');
        out.push('n');
    } else if c == '\r' {
        out.push('\\');
        out.push('r');
    } else if c == '\t' {
        out.push('\\');
        out.push('t');
    } else if is_escaped(c) {
        let u: u32 = c as u32;
        out.push('\\');
        out.push('u');
        out.push(hex_of((u / 4096) as u8));
        out.push(hex_of((u / 256 % 16) as u8));
        out.push(hex_of((u / 16 % 16) as u8));
        out.push(hex_of((u % 16) as u8));
    } else {
        out.push(c);
    }
    assert(out@ =~= start + escaped(c));
}

/// A text in double quotes.
fn double_quoted(s: &str) -> (r: String)
    ensures
        r@ == in_double_quotes(s@),
{
    let cs: Vec<char> = chars_of(s);
    let mut out: String = String::new();
    out.push('"');
    assert(cs@.take(0) =~= seq![]);
    assert(out@ =~= seq!['"'] + all_escaped(cs@.take(0)));
    let mut i: usize = 0;
    while i < cs.len()
        invariant
            i <= cs@.len(),
            out@ == seq!['"'] + all_escaped(cs@.take(i as int)),
        decreases cs@.len() - i,
    {
        push_escaped(&mut out, cs[i]);
        proof {
            assert(cs@.take(i + 1).drop_last() =~= cs@.take(i as int));
            assert(out@ =~= seq!['"'] + all_escaped(cs@.take(i + 1)));
        }
        i = i + 1;
    }
    assert(cs@.take(cs@.len() as int) =~= cs@);
    out.push('"');
    assert(out@ =~= in_double_quotes(s@));
    out
}

/// Whether a character at the front of a text is YAML syntax.
pub open spec fn is_indicator(c: char) -> bool {
    c == ',' || c == '[' || c == ']' || c == '{' || c == '}' || c == '#' || c == '&' || c == '*' || c
        == '!' || c == '|' || c == '>' || c == '\'' || c == '"' || c == '%' || c == '@' || c == '`'
}

/// Whether a character at the front of a text is YAML syntax.
fn leading_indicator(c: char) -> (r: bool)
    ensures
        r == is_indicator(c),
{
    c == ',' || c == '[' || c == ']' || c == '{' || c == '}' || c == '#' || c == '&' || c == '*' || c
        == '!' || c == '|' || c == '>' || c == '\'' || c == '"' || c == '%' || c == '@' || c == '`'
}

/// Whether a text without quotes would not be YAML, or would be another structure.
pub open spec fn unsafe_plain(s: Seq<char>) -> bool {
    ||| s.len() == 0
    ||| trim(s) != s
    ||| is_indicator(s[0])
    ||| (s[0] == '-' || s[0] == '?' || s[0] == ':') && (s.len() == 1 || s[1] == ' ')
    ||| contains(s, ": "@)
    ||| contains(s, " #"@)
    ||| s.last() == ':'
}

/// Whether a text without quotes would not be YAML, or would be another structure.
fn syntactically_unsafe(s: &str) -> (r: bool)
    ensures
        r == unsafe_plain(s@),
{
    let cs: Vec<char> = chars_of(s);
    if cs.len() == 0 {
        return true;
    }
    let t: String = trimmed(s);
    if !same(t.as_str(), s) {
        return true;
    }
    let first: char = cs[0];
    if leading_indicator(first) {
        return true;
    }
    if first == '-' || first == '?' || first == ':' {
        if cs.len() == 1 || cs[1] == ' ' {
            return true;
        }
    }
    has(s, ": ") || has(s, " #") || cs[cs.len() - 1] == ':'
}

/// Whether a text could be read as a number, a truth value or null: other texts are read as
/// themselves.
pub open spec fn typed_literal(s: Seq<char>) -> bool {
    &&& s.len() > 0
    &&& {
        ||| is_digit(s[0])
        ||| s[0] == '+' || s[0] == '-' || s[0] == '.' || s[0] == '~'
        ||| s == "true"@ || s == "True"@ || s == "TRUE"@
        ||| s == "false"@ || s == "False"@ || s == "FALSE"@
        ||| s == "null"@ || s == "Null"@ || s == "NULL"@
    }
}

/// Whether a text could be read as a number, a truth value or null.
pub fn maybe_typed_literal(s: &str) -> (r: bool)
    ensures
        r == typed_literal(s@),
{
    let cs: Vec<char> = chars_of(s);
    if cs.len() == 0 {
        return false;
    }
    let c: char = cs[0];
    digit(c) || c == '+' || c == '-' || c == '.' || c == '~' || same(s, "true") || same(s, "True")
        || same(s, "TRUE") || same(s, "false") || same(s, "False") || same(s, "FALSE") || same(
        s,
        "null",
    ) || same(s, "Null") || same(s, "NULL")
}

/// The characters that a scalar is read as where the schema says text; a structure has none.
pub open spec fn scalar_text(v: YamlView) -> Option<Seq<char>> {
    match v {
        YamlView::Null => Some(seq![]),
        YamlView::Bool(b) => Some(bool_text(b)),
        YamlView::Number(n) => Some(printed(n)),
        YamlView::Str(s) => Some(s),
        _ => None,
    }
}

/// Whether a text that is read as `read` is read as itself, a text.
pub open spec fn reads_as_text(s: Seq<char>, read: Result<YamlView, Seq<char>>) -> bool {
    !typed_literal(s) || read == Ok::<YamlView, Seq<char>>(YamlView::Str(s))
}

/// Whether a text that is read as `read` gives the same characters again.
pub open spec fn reads_as_characters(s: Seq<char>, read: Result<YamlView, Seq<char>>) -> bool {
    !typed_literal(s) || match read {
        Ok(v) => scalar_text(v) == Some(s),
        Err(_) => false,
    }
}

/// Whether a text is read as itself, given what it is read as.
pub fn text_given(s: &str, read: &Result<Yaml, String>) -> (r: bool)
    ensures
        r == reads_as_text(s@, read_view(*read)),
{
    if !maybe_typed_literal(s) {
        return true;
    }
    match read {
        Ok(v) => {
            proof {
                lemma_yaml_view(*v);
            }
            match v {
                Yaml::Str(t) => same(t.as_str(), s),
                _ => false,
            }
        },
        Err(_) => false,
    }
}

/// Whether a text gives the same characters again, given what it is read as.
pub fn characters_given(s: &str, read: &Result<Yaml, String>) -> (r: bool)
    ensures
        r == reads_as_characters(s@, read_view(*read)),
{
    if !maybe_typed_literal(s) {
        return true;
    }
    match read {
        Ok(v) => {
            proof {
                lemma_yaml_view(*v);
            }
            match v {
                Yaml::Null => crate::text::empty(s),
                Yaml::Bool(b) => same(bool_word(*b), s),
                Yaml::Number(n) => same(print_number(n).as_str(), s),
                Yaml::Str(t) => same(t.as_str(), s),
                _ => false,
            }
        },
        Err(_) => false,
    }
}

/// What a plain text is read as. A text that cannot be a literal is not read at all.
fn read_plain(s: &str) -> (r: Result<Yaml, String>)
    ensures
        typed_literal(s@) ==> read_view(r) == parsed_yaml(s@),
{
    if maybe_typed_literal(s) {
        parse_yaml(s)
    } else {
        Ok(Yaml::Null)
    }
}

/// Whether a plain text is read as itself, a text.
pub fn parses_as_string(s: &str) -> (r: bool)
    ensures
        r == reads_as_text(s@, parsed_yaml(s@)),
{
    text_given(s, &read_plain(s))
}

/// Whether a plain text gives the same characters again.
pub fn plain_round_trips(s: &str) -> (r: bool)
    ensures
        r == reads_as_characters(s@, parsed_yaml(s@)),
{
    characters_given(s, &read_plain(s))
}

/// A text as a YAML scalar on one line, given what it is read as without quotes.
pub open spec fn scalar_given(s: Seq<char>, q: Quote, read: Result<YamlView, Seq<char>>) -> Seq<char> {
    if holds_special(s) {
        in_double_quotes(s)
    } else if unsafe_plain(s) || !(match q {
        Quote::Loose => reads_as_characters(s, read),
        _ => reads_as_text(s, read),
    }) {
        in_single_quotes(s)
    } else {
        s
    }
}

/// A text as a YAML scalar on one line.
pub open spec fn str_text(s: Seq<char>, q: Quote) -> Seq<char> {
    scalar_given(s, q, parsed_yaml(s))
}

/// A text as a YAML scalar on one line, given what it is read as without quotes.
pub fn scalar_str_given(s: &str, q: Quote, read: &Result<Yaml, String>) -> (r: String)
    ensures
        r@ == scalar_given(s@, q, read_view(*read)),
{
    if needs_double_quote(s) {
        return double_quoted(s);
    }
    let kept: bool = match q {
        Quote::Loose => characters_given(s, read),
        _ => text_given(s, read),
    };
    if syntactically_unsafe(s) || !kept {
        return single_quoted(s);
    }
    copy_text(s)
}

/// A text as a YAML scalar on one line.
pub fn scalar_str(s: &str, q: Quote) -> (r: String)
    ensures
        r@ == str_text(s@, q),
{
    scalar_str_given(s, q, &read_plain(s))
}

/// A text as a scalar that can stand behind a key that is always read as text.
pub fn inline_scalar(s: &str) -> (r: String)
    ensures
        r@ == str_text(s@, Quote::Loose),
{
    scalar_str(s, Quote::Loose)
}

// ---- texts of several lines ------------------------------------------------------------

/// A text without the newlines at its end.
pub open spec fn no_back_newlines(s: Seq<char>) -> Seq<char>
    decreases s.len(),
{
    if s.len() > 0 && s.last() == '\n' {
        no_back_newlines(s.drop_last())
    } else {
        s
    }
}

/// A text without the newlines at its end.
fn strip_newlines(s: &str) -> (r: String)
    ensures
        r@ == no_back_newlines(s@),
        r@.len() <= s@.len(),
{
    let cs: Vec<char> = chars_of(s);
    let mut n: usize = cs.len();
    assert(cs@.take(n as int) =~= s@);
    while n > 0 && cs[n - 1] == '\n'
        invariant
            n <= cs@.len(),
            no_back_newlines(s@) == no_back_newlines(cs@.take(n as int)),
        decreases n,
    {
        assert(cs@.take(n as int).drop_last() =~= cs@.take(n - 1));
        n = n - 1;
    }
    let r: String = sub_text(cs.as_slice(), 0, n);
    assert(r@ =~= cs@.take(n as int));
    r
}

/// Whether a line ends with a blank, which a block would lose.
pub open spec fn ends_blank(l: Seq<char>) -> bool {
    l.len() > 0 && (l.last() == ' ' || l.last() == '\t')
}

fn line_ends_blank(l: &str) -> (r: bool)
    ensures
        r == ends_blank(l@),
{
    let cs: Vec<char> = chars_of(l);
    cs.len() > 0 && (cs[cs.len() - 1] == ' ' || cs[cs.len() - 1] == '\t')
}

/// Whether a character cannot stand in a block.
pub open spec fn unfit_for_block(c: char) -> bool {
    must_escape(c) && c != '\n'
}

/// Whether the first line that is not empty begins with a blank: a reader takes the indent of a
/// block from that line.
pub open spec fn begins_indented(ls: Seq<Seq<char>>) -> bool {
    exists|i: int| first_said(ls, i) && ((#[trigger] ls[i])[0] == ' ' || ls[i][0] == '\t')
}

/// Whether a line is the first that is not empty.
pub open spec fn first_said(ls: Seq<Seq<char>>, i: int) -> bool {
    &&& 0 <= i < ls.len()
    &&& ls[i].len() > 0
    &&& forall|j: int| 0 <= j < i ==> (#[trigger] ls[j]).len() == 0
}

/// The head of the block that can write a text of several lines: `|-` for a text that does not
/// end with a newline, `|` for one that ends with one. A text that a block would change has
/// none.
pub open spec fn header_of(s: Seq<char>) -> Option<Seq<char>> {
    let body = no_back_newlines(s);
    if !s.contains('\n') || (exists|i: int| 0 <= i < s.len() && unfit_for_block(#[trigger] s[i]))
        || body.len() == 0 || (exists|i: int|
        0 <= i < split(body, '\n').len() && ends_blank(#[trigger] split(body, '\n')[i]))
        || begins_indented(split(body, '\n')) {
        None
    } else if body.len() == s.len() {
        Some("|-"@)
    } else if body.len() + 1 == s.len() {
        Some("|"@)
    } else {
        None
    }
}

fn line_begins_indented(ls: &Vec<String>) -> (r: bool)
    ensures
        r == begins_indented(views(ls@)),
{
    let ghost v = views(ls@);
    let mut i: usize = 0;
    while i < ls.len()
        invariant
            v == views(ls@),
            i <= ls@.len(),
            forall|j: int| 0 <= j < i ==> (#[trigger] v[j]).len() == 0,
        decreases ls@.len() - i,
    {
        assert(v[i as int] == ls@[i as int]@);
        let cs: Vec<char> = chars_of(ls[i].as_str());
        if cs.len() > 0 {
            let r: bool = cs[0] == ' ' || cs[0] == '\t';
            proof {
                assert(first_said(v, i as int));
                if begins_indented(v) {
                    let k = choose|k: int|
                        first_said(v, k) && ((#[trigger] v[k])[0] == ' ' || v[k][0] == '\t');
                    if k < i {
                        assert(v[k].len() == 0);
                    } else if k > i {
                        assert(v[i as int].len() == 0);
                    }
                }
            }
            return r;
        }
        i = i + 1;
    }
    false
}

/// The head of the block that can write a text of several lines.
pub fn block_header(s: &str) -> (r: Option<&'static str>)
    ensures
        opt_text(r) == header_of(s@),
{
    let cs: Vec<char> = chars_of(s);
    let mut lines: bool = false;
    let mut i: usize = 0;
    while i < cs.len()
        invariant
            cs@ == s@,
            i <= cs@.len(),
            lines == (exists|k: int| 0 <= k < i && #[trigger] cs@[k] == '\n'),
            forall|k: int| 0 <= k < i ==> !unfit_for_block(#[trigger] cs@[k]),
        decreases cs@.len() - i,
    {
        if cs[i] == '\n' {
            lines = true;
        } else if is_escaped(cs[i]) {
            assert(unfit_for_block(s@[i as int]));
            return None;
        }
        i = i + 1;
    }
    if !lines {
        return None;
    }
    let body: String = strip_newlines(s);
    let bs: Vec<char> = chars_of(body.as_str());
    if bs.len() == 0 {
        return None;
    }
    let ls: Vec<String> = pieces(body.as_str(), '\n');
    let mut j: usize = 0;
    while j < ls.len()
        invariant
            views(ls@) == split(body@, '\n'),
            body@ == no_back_newlines(s@),
            j <= ls@.len(),
            forall|k: int| 0 <= k < j ==> !ends_blank(#[trigger] split(body@, '\n')[k]),
        decreases ls@.len() - j,
    {
        assert(views(ls@)[j as int] == ls@[j as int]@);
        if line_ends_blank(ls[j].as_str()) {
            return None;
        }
        j = j + 1;
    }
    if line_begins_indented(&ls) {
        return None;
    }
    let missing: usize = cs.len() - bs.len();
    if missing == 0 {
        Some("|-")
    } else if missing == 1 {
        Some("|")
    } else {
        None
    }
}

/// The first `n` lines of a block; an empty line has no indent.
pub open spec fn block_lines(ls: Seq<Seq<char>>, n: nat, pad: Seq<char>) -> Seq<char>
    decreases n,
{
    if n == 0 || n > ls.len() {
        seq![]
    } else {
        let l = ls[n - 1];
        block_lines(ls, (n - 1) as nat, pad) + (if l.len() == 0 {
            seq![]
        } else {
            pad + l
        }) + seq!['\n']
    }
}

/// A text behind a marker, that is behind the colon of a key or the dash of an item.
pub open spec fn string_text(s: Seq<char>, pad: Seq<char>, q: Quote) -> Seq<char> {
    match header_of(s) {
        Some(h) => {
            let ls = split(no_back_newlines(s), '\n');
            seq![' '] + h + seq!['\n'] + block_lines(ls, ls.len(), pad + seq![' ', ' '])
        },
        None => seq![' '] + str_text(s, q) + seq!['\n'],
    }
}

/// A deeper indent.
fn deeper(pad: &str) -> (r: String)
    ensures
        r@ == pad@ + seq![' ', ' '],
{
    let mut r: String = copy_text(pad);
    r.push(' ');
    r.push(' ');
    assert(r@ =~= pad@ + seq![' ', ' ']);
    r
}

/// Writes a text behind a marker.
fn emit_string_after_marker(s: &str, pad: &str, q: Quote, out: &mut String)
    ensures
        final(out)@ == old(out)@ + string_text(s@, pad@, q),
{
    let ghost start = out@;
    out.push(' ');
    match block_header(s) {
        Some(header) => {
            out.push_str(header);
            out.push('\n');
            let body: String = strip_newlines(s);
            let ls: Vec<String> = pieces(body.as_str(), '\n');
            let inner: String = deeper(pad);
            let ghost v = views(ls@);
            let ghost head = out@;
            assert(head =~= start + (seq![' '] + header@ + seq!['\n']));
            assert(out@ =~= head + block_lines(v, 0, inner@));
            let mut i: usize = 0;
            while i < ls.len()
                invariant
                    i <= ls@.len(),
                    v == views(ls@),
                    out@ == head + block_lines(v, i as nat, inner@),
                decreases ls@.len() - i,
            {
                let ghost before = out@;
                assert(v[i as int] == ls@[i as int]@);
                if !crate::text::empty(ls[i].as_str()) {
                    out.push_str(inner.as_str());
                    out.push_str(ls[i].as_str());
                }
                out.push('\n');
                assert(out@ =~= head + block_lines(v, (i + 1) as nat, inner@));
                i = i + 1;
            }
            assert(out@ =~= start + string_text(s@, pad@, q));
        },
        None => {
            out.push_str(scalar_str(s, q).as_str());
            out.push('\n');
            assert(out@ =~= start + string_text(s@, pad@, q));
        },
    }
}

// ---- structures ------------------------------------------------------------------------

/// A value on one line; of structures only the empty ones are written so.
pub open spec fn scalar_value(v: JsonView, q: Quote) -> Seq<char> {
    match v {
        JsonView::Null => "null"@,
        JsonView::Bool(b) => bool_text(b),
        JsonView::Number(n) => yaml_number(n),
        JsonView::Str(s) => str_text(s, q),
        JsonView::Array(_) => "[]"@,
        JsonView::Object(_) => "{}"@,
    }
}

/// A value on one line.
fn scalar(v: &Json, q: Quote) -> (r: String)
    ensures
        r@ == scalar_value(v@, q),
{
    proof {
        lemma_view(*v);
    }
    match v {
        Json::Null => copy_text("null"),
        Json::Bool(b) => copy_text(bool_word(*b)),
        Json::Number(n) => yaml_number_text(n),
        Json::Str(s) => scalar_str(s.as_str(), q),
        Json::Array(_) => copy_text("[]"),
        Json::Object(_) => copy_text("{}"),
    }
}

/// How texts below a key are quoted: once loosely, always loosely; and never loosely among the
/// variables and in what is sent, where `3` and `'3'` are not the same.
pub open spec fn child_quote(k: Seq<char>, q: Quote) -> Quote {
    match q {
        Quote::Strict => if k == LOOSE_SUBTREE_KEY@ {
            Quote::Loose
        } else if k == VARS_KEY@ || k == REQUEST_KEY@ {
            Quote::Free
        } else {
            Quote::Strict
        },
        _ => q,
    }
}

/// How texts below a key are quoted.
pub fn quote_below(k: &str, q: Quote) -> (r: Quote)
    ensures
        r == child_quote(k@, q),
{
    match q {
        Quote::Strict => if same(k, LOOSE_SUBTREE_KEY) {
            Quote::Loose
        } else if same(k, VARS_KEY) || same(k, REQUEST_KEY) {
            Quote::Free
        } else {
            Quote::Strict
        },
        _ => q,
    }
}

/// The first `n` members of an object, one below the other. The first is led by `lead`, the
/// others by the indent.
pub open spec fn map_text(
    m: Seq<(Seq<char>, JsonView)>,
    n: nat,
    lead: Seq<char>,
    pad: Seq<char>,
    q: Quote,
) -> Seq<char>
    decreases m, n,
{
    if n == 0 || n > m.len() {
        seq![]
    } else {
        map_text(m, (n - 1) as nat, lead, pad, q) + (if n == 1 {
            lead
        } else {
            pad
        }) + (str_text(m[n - 1].0, Quote::Loose) + seq![':'] + after_key(
            m[n - 1].1,
            pad,
            child_quote(m[n - 1].0, q),
        ))
    }
}

/// What stands behind the colon of a key.
pub open spec fn after_key(v: JsonView, pad: Seq<char>, q: Quote) -> Seq<char>
    decreases v, 0nat,
{
    let inner = pad + seq![' ', ' '];
    match v {
        JsonView::Object(m) => if m.len() > 0 {
            seq!['\n'] + map_text(m, m.len(), inner, inner, q)
        } else {
            seq![' '] + scalar_value(v, q) + seq!['\n']
        },
        JsonView::Array(a) => if a.len() > 0 {
            seq!['\n'] + seq_text(a, a.len(), inner, q)
        } else {
            seq![' '] + scalar_value(v, q) + seq!['\n']
        },
        JsonView::Str(s) => string_text(s, pad, q),
        _ => seq![' '] + scalar_value(v, q) + seq!['\n'],
    }
}

/// The first `n` items of an array, one below the other.
pub open spec fn seq_text(a: Seq<JsonView>, n: nat, pad: Seq<char>, q: Quote) -> Seq<char>
    decreases a, n,
{
    if n == 0 || n > a.len() {
        seq![]
    } else {
        seq_text(a, (n - 1) as nat, pad, q) + (pad + seq!['-'] + after_dash(a[n - 1], pad, q))
    }
}

/// What stands behind the dash of an item.
pub open spec fn after_dash(v: JsonView, pad: Seq<char>, q: Quote) -> Seq<char>
    decreases v, 0nat,
{
    let inner = pad + seq![' ', ' '];
    match v {
        JsonView::Object(m) => if m.len() > 0 {
            seq![' '] + map_text(m, m.len(), seq![], inner, q)
        } else {
            seq![' '] + scalar_value(v, q) + seq!['\n']
        },
        JsonView::Array(a) => if a.len() > 0 {
            seq!['\n'] + seq_text(a, a.len(), inner, q)
        } else {
            seq![' '] + scalar_value(v, q) + seq!['\n']
        },
        JsonView::Str(s) => string_text(s, pad, q),
        _ => seq![' '] + scalar_value(v, q) + seq!['\n'],
    }
}

/// Writes the members of an object.
fn emit_map(m: &Vec<Member>, lead: &str, pad: &str, q: Quote, out: &mut String)
    ensures
        final(out)@ == old(out)@ + map_text(views(m@), m@.len(), lead@, pad@, q),
    decreases m, 0nat,
{
    let ghost start = out@;
    let ghost w = views(m@);
    assert(out@ =~= start + map_text(w, 0, lead@, pad@, q));
    let mut i: usize = 0;
    while i < m.len()
        invariant
            i <= m@.len(),
            w == views(m@),
            out@ == start + map_text(w, i as nat, lead@, pad@, q),
        decreases m@.len() - i,
    {
        proof {
            assert(decreases_to!(*m => m@));
            assert(decreases_to!(m@ => m@[i as int]));
            assert(decreases_to!(m@[i as int] => m@[i as int].value));
            assert(w[i as int] == m@[i as int]@);
        }
        let ghost done = out@;
        if i == 0 {
            out.push_str(lead);
        } else {
            out.push_str(pad);
        }
        let k: &String = &m[i].name;
        out.push_str(scalar_str(k.as_str(), Quote::Loose).as_str());
        out.push(':');
        let child: Quote = quote_below(k.as_str(), q);
        emit_after_key(&m[i].value, pad, child, out);
        assert(out@ =~= start + map_text(w, (i + 1) as nat, lead@, pad@, q));
        i = i + 1;
    }
}

/// Writes what stands behind the colon of a key.
fn emit_after_key(v: &Json, pad: &str, q: Quote, out: &mut String)
    ensures
        final(out)@ == old(out)@ + after_key(v@, pad@, q),
    decreases v, 0nat,
{
    let ghost start = out@;
    let inner: String = deeper(pad);
    proof {
        lemma_view(*v);
    }
    match v {
        Json::Object(m) if m.len() > 0 => {
            out.push('\n');
            emit_map(m, inner.as_str(), inner.as_str(), q, out);
        },
        Json::Array(a) if a.len() > 0 => {
            out.push('\n');
            emit_seq(a, inner.as_str(), q, out);
        },
        Json::Str(s) => emit_string_after_marker(s.as_str(), pad, q, out),
        other => {
            out.push(' ');
            out.push_str(scalar(other, q).as_str());
            out.push('\n');
        },
    }
    assert(out@ =~= start + after_key(v@, pad@, q));
}

/// Writes the items of an array.
fn emit_seq(a: &Vec<Json>, pad: &str, q: Quote, out: &mut String)
    ensures
        final(out)@ == old(out)@ + seq_text(views(a@), a@.len(), pad@, q),
    decreases a, 0nat,
{
    let ghost start = out@;
    let ghost w = views(a@);
    assert(out@ =~= start + seq_text(w, 0, pad@, q));
    let mut i: usize = 0;
    while i < a.len()
        invariant
            i <= a@.len(),
            w == views(a@),
            out@ == start + seq_text(w, i as nat, pad@, q),
        decreases a@.len() - i,
    {
        proof {
            assert(decreases_to!(*a => a@));
            assert(decreases_to!(a@ => a@[i as int]));
            assert(w[i as int] == a@[i as int]@);
        }
        out.push_str(pad);
        out.push('-');
        emit_after_dash(&a[i], pad, q, out);
        assert(out@ =~= start + seq_text(w, (i + 1) as nat, pad@, q));
        i = i + 1;
    }
}

/// Writes what stands behind the dash of an item.
fn emit_after_dash(v: &Json, pad: &str, q: Quote, out: &mut String)
    ensures
        final(out)@ == old(out)@ + after_dash(v@, pad@, q),
    decreases v, 0nat,
{
    let ghost start = out@;
    let inner: String = deeper(pad);
    proof {
        lemma_view(*v);
        reveal_strlit("");
        assert(""@ =~= seq![]);
    }
    match v {
        Json::Object(m) if m.len() > 0 => {
            out.push(' ');
            emit_map(m, "", inner.as_str(), q, out);
        },
        Json::Array(a) if a.len() > 0 => {
            out.push('\n');
            emit_seq(a, inner.as_str(), q, out);
        },
        Json::Str(s) => emit_string_after_marker(s.as_str(), pad, q, out),
        other => {
            out.push(' ');
            out.push_str(scalar(other, q).as_str());
            out.push('\n');
        },
    }
    assert(out@ =~= start + after_dash(v@, pad@, q));
}

/// A value as a YAML document, which ends with a newline.
pub open spec fn yaml_text(v: JsonView) -> Seq<char> {
    match v {
        JsonView::Object(m) => if m.len() > 0 {
            map_text(m, m.len(), seq![], seq![], Quote::Strict)
        } else {
            scalar_value(v, Quote::Strict) + seq!['\n']
        },
        JsonView::Array(a) => if a.len() > 0 {
            seq_text(a, a.len(), seq![], Quote::Strict)
        } else {
            scalar_value(v, Quote::Strict) + seq!['\n']
        },
        _ => scalar_value(v, Quote::Strict) + seq!['\n'],
    }
}

/// A value as a YAML document.
pub fn to_yaml(v: &Json) -> (r: String)
    ensures
        r@ == yaml_text(v@),
{
    let mut out: String = String::new();
    proof {
        lemma_view(*v);
        reveal_strlit("");
        assert(""@ =~= seq![]);
    }
    match v {
        Json::Object(m) if m.len() > 0 => emit_map(m, "", "", Quote::Strict, &mut out),
        Json::Array(a) if a.len() > 0 => emit_seq(a, "", Quote::Strict, &mut out),
        other => {
            out.push_str(scalar(other, Quote::Strict).as_str());
            out.push('\n');
        },
    }
    assert(out@ =~= yaml_text(v@));
    out
}

// ---- laws ------------------------------------------------------------------------------

proof fn lemma_doubled_len(s: Seq<char>, i: int)
    requires
        0 <= i <= s.len(),
    ensures
        replace_from(s, "'"@, "''"@, i).len() >= s.len() - i,
    decreases s.len() - i,
{
    reveal_strlit("'");
    reveal_strlit("''");
    if i < s.len() {
        lemma_doubled_len(s, i + 1);
    }
}

proof fn lemma_escaped_len(s: Seq<char>)
    ensures
        all_escaped(s).len() >= s.len(),
    decreases s.len(),
{
    if s.len() > 0 {
        lemma_escaped_len(s.drop_last());
    }
}

/// A text is quoted exactly where it must be: it is written as it stands if and only if it is
/// plain YAML without characters that need an escape and is read back as itself, as a text where
/// texts are told from other scalars, and as the same characters elsewhere.
pub proof fn law_quoted_only_where_needed(s: Seq<char>, q: Quote)
    ensures
        str_text(s, q) == s <==> (!holds_special(s) && !unsafe_plain(s) && match q {
            Quote::Loose => reads_as_characters(s, parsed_yaml(s)),
            _ => reads_as_text(s, parsed_yaml(s)),
        }),
{
    lemma_doubled_len(s, 0);
    lemma_escaped_len(s);
    assert(in_single_quotes(s).len() >= s.len() + 2);
    assert(in_double_quotes(s).len() >= s.len() + 2);
}

/// The value of a hexadecimal digit.
pub open spec fn hex_value(c: char) -> int {
    if c as u32 <= 0x39 {
        c as u32 - 0x30
    } else {
        c as u32 - 0x57
    }
}

/// What escapes between double quotes stand for.
pub open spec fn unescaped(t: Seq<char>) -> Seq<char>
    decreases t.len(),
{
    if t.len() == 0 {
        seq![]
    } else if t[0] != '\\' {
        seq![t[0]] + unescaped(t.skip(1))
    } else if t.len() >= 6 && t[1] == 'u' {
        seq![
            (hex_value(t[2]) * 4096 + hex_value(t[3]) * 256 + hex_value(t[4]) * 16 + hex_value(t[5])) as char,
        ] + unescaped(t.skip(6))
    } else if t.len() >= 2 {
        seq![
            if t[1] == 'n' {
                '\n'
            } else if t[1] == 'r' {
                '\r'
            } else if t[1] == 't' {
                '\t'
            } else {
                t[1]
            },
        ] + unescaped(t.skip(2))
    } else {
        seq![]
    }
}

proof fn lemma_unescaped_one(c: char, t: Seq<char>)
    ensures
        unescaped(escaped(c) + t) == seq![c] + unescaped(t),
{
    let e = escaped(c);
    let all = e + t;
    assert(all.skip(e.len() as int) =~= t);
    if c == '"' || c == '\\' || c == '\n' || c == '\r' || c == '\t' {
        assert(all[0] == e[0] && all[1] == e[1]);
    } else if must_escape(c) {
        let u = c as u32;
        let a = (u / 4096) as int;
        let b = (u / 256 % 16) as int;
        let h = (u / 16 % 16) as int;
        let l = (u % 16) as int;
        assert(0 <= a < 16 && 0 <= b < 16 && 0 <= h < 16 && 0 <= l < 16);
        assert(a * 4096 + b * 256 + h * 16 + l == u);
        assert(all[0] == e[0] && all[1] == e[1] && all[2] == e[2] && all[3] == e[3]);
        assert(all[4] == e[4] && all[5] == e[5]);
        assert(hex_value(hex_digit(a)) == a);
        assert(hex_value(hex_digit(b)) == b);
        assert(hex_value(hex_digit(h)) == h);
        assert(hex_value(hex_digit(l)) == l);
        assert((a * 4096 + b * 256 + h * 16 + l) as char == c);
    } else {
        assert(all[0] == c);
    }
}

proof fn lemma_escaped_front(s: Seq<char>)
    requires
        s.len() > 0,
    ensures
        all_escaped(s) == escaped(s[0]) + all_escaped(s.skip(1)),
    decreases s.len(),
{
    if s.len() == 1 {
        assert(s.drop_last() =~= seq![]);
        assert(s.skip(1) =~= seq![]);
        assert(all_escaped(s) =~= escaped(s[0]) + all_escaped(s.skip(1)));
    } else {
        let d = s.drop_last();
        lemma_escaped_front(d);
        assert(s.skip(1).drop_last() =~= d.skip(1));
        assert(s.skip(1).last() == s.last());
        assert(all_escaped(s) =~= escaped(s[0]) + all_escaped(s.skip(1)));
    }
}

/// Nothing is lost between double quotes: the escapes that are written of a text stand for it.
pub proof fn law_double_quotes_keep(s: Seq<char>)
    ensures
        unescaped(all_escaped(s)) == s,
    decreases s.len(),
{
    if s.len() > 0 {
        lemma_escaped_front(s);
        law_double_quotes_keep(s.skip(1));
        lemma_unescaped_one(s[0], all_escaped(s.skip(1)));
        assert(seq![s[0]] + s.skip(1) =~= s);
    }
}

/// What a text between single quotes stands for: two quotes stand for one.
pub open spec fn halved(t: Seq<char>) -> Seq<char>
    decreases t.len(),
{
    if t.len() == 0 {
        seq![]
    } else if t[0] == '\'' && t.len() >= 2 {
        seq!['\''] + halved(t.skip(2))
    } else {
        seq![t[0]] + halved(t.skip(1))
    }
}

proof fn lemma_halved(s: Seq<char>, i: int)
    requires
        0 <= i <= s.len(),
    ensures
        halved(replace_from(s, "'"@, "''"@, i)) == s.skip(i),
    decreases s.len() - i,
{
    reveal_strlit("'");
    reveal_strlit("''");
    if i < s.len() {
        lemma_halved(s, i + 1);
        let rest = replace_from(s, "'"@, "''"@, i + 1);
        let all = replace_from(s, "'"@, "''"@, i);
        assert(s.subrange(i, i + 1) =~= seq![s[i]]);
        if s[i] == '\'' {
            assert("'"@ =~= seq!['\'']);
            assert(occurs_at(s, "'"@, i));
            assert(all.skip(2) =~= rest);
        } else {
            assert(seq![s[i]][0] != "'"@[0]);
            assert(!occurs_at(s, "'"@, i));
            assert(all.skip(1) =~= rest);
        }
        assert(seq![s[i]] + s.skip(i + 1) =~= s.skip(i));
    } else {
        assert(s.skip(i) =~= seq![]);
    }
}

/// Nothing is lost between single quotes: what is written of a text stands for it.
pub proof fn law_single_quotes_keep(s: Seq<char>)
    ensures
        halved(replace(s, "'"@, "''"@)) == s,
{
    lemma_halved(s, 0);
    assert(s.skip(0) =~= s);
}

/// No two texts are written alike on one line.
pub proof fn law_texts_differ(a: Seq<char>, b: Seq<char>, q: Quote)
    requires
        str_text(a, q) == str_text(b, q),
    ensures
        a == b,
{
    let t = str_text(a, q);
    let inner = t.subrange(1, t.len() - 1);
    if holds_special(a) {
        assert(t[0] == '"');
        assert(inner =~= all_escaped(a));
        law_double_quotes_keep(a);
    } else if t == in_single_quotes(a) {
        assert(t[0] == '\'');
        assert(inner =~= replace(a, "'"@, "''"@));
        law_single_quotes_keep(a);
    }
    if holds_special(b) {
        assert(t[0] == '"');
        assert(inner =~= all_escaped(b));
        law_double_quotes_keep(b);
    } else if t == in_single_quotes(b) {
        assert(t[0] == '\'');
        assert(inner =~= replace(b, "'"@, "''"@));
        law_single_quotes_keep(b);
    }
}

/// The lines of a block as they are written.
pub open spec fn indented(ls: Seq<Seq<char>>, pad: Seq<char>) -> Seq<Seq<char>> {
    ls.map_values(
        |l: Seq<char>|
            if l.len() == 0 {
                l
            } else {
                pad + l
            },
    )
}

proof fn lemma_block_is_joined(ls: Seq<Seq<char>>, n: nat, pad: Seq<char>)
    requires
        0 < n <= ls.len(),
    ensures
        block_lines(ls, n, pad) == join(indented(ls, pad).take(n as int), seq!['\n']) + seq!['\n'],
    decreases n,
{
    let w = indented(ls, pad).take(n as int);
    let l = ls[n - 1];
    assert(w.last() == if l.len() == 0 {
        l
    } else {
        pad + l
    });
    if l.len() == 0 {
        assert(l =~= seq![]);
    }
    if n == 1 {
        assert(block_lines(ls, 0, pad) =~= seq![]);
        assert(block_lines(ls, n, pad) =~= w[0] + seq!['\n']);
    } else {
        lemma_block_is_joined(ls, (n - 1) as nat, pad);
        assert(w.drop_last() =~= indented(ls, pad).take(n - 1));
        assert(block_lines(ls, n, pad) =~= join(w, seq!['\n']) + seq!['\n']);
    }
}

proof fn lemma_block_lines_differ(a: Seq<Seq<char>>, b: Seq<Seq<char>>, pad: Seq<char>)
    requires
        a.len() > 0,
        b.len() > 0,
        forall|i: int| 0 <= i < a.len() ==> !(#[trigger] a[i]).contains('\n'),
        forall|i: int| 0 <= i < b.len() ==> !(#[trigger] b[i]).contains('\n'),
        forall|k: int| 0 <= k < pad.len() ==> #[trigger] pad[k] == ' ',
        pad.len() > 0,
        block_lines(a, a.len(), pad) == block_lines(b, b.len(), pad),
    ensures
        a == b,
{
    let x = indented(a, pad);
    let y = indented(b, pad);
    lemma_block_is_joined(a, a.len(), pad);
    lemma_block_is_joined(b, b.len(), pad);
    assert(x.take(a.len() as int) =~= x);
    assert(y.take(b.len() as int) =~= y);
    let t = block_lines(a, a.len(), pad);
    assert(t.drop_last() =~= join(x, seq!['\n']));
    assert(t.drop_last() =~= join(y, seq!['\n']));
    assert forall|i: int| 0 <= i < x.len() implies !(#[trigger] x[i]).contains('\n') by {
        assert(!a[i].contains('\n'));
        lemma_line_fits(a[i], pad);
    }
    assert forall|i: int| 0 <= i < y.len() implies !(#[trigger] y[i]).contains('\n') by {
        assert(!b[i].contains('\n'));
        lemma_line_fits(b[i], pad);
    }
    law_split_joined(x, '\n');
    law_split_joined(y, '\n');
    assert(x == y);
    assert forall|i: int| 0 <= i < a.len() implies a[i] == b[i] by {
        assert(x[i] == y[i]);
        if a[i].len() > 0 && b[i].len() > 0 {
            assert((pad + a[i]).skip(pad.len() as int) =~= a[i]);
            assert((pad + b[i]).skip(pad.len() as int) =~= b[i]);
        }
        assert(a[i] =~= b[i]);
    }
    assert(a =~= b);
}

proof fn lemma_line_fits(l: Seq<char>, pad: Seq<char>)
    requires
        !l.contains('\n'),
        forall|k: int| 0 <= k < pad.len() ==> #[trigger] pad[k] == ' ',
    ensures
        !(pad + l).contains('\n'),
{
    if (pad + l).contains('\n') {
        let k = choose|k: int| 0 <= k < (pad + l).len() && (pad + l)[k] == '\n';
        if k < pad.len() {
            assert((pad + l)[k] == pad[k]);
        } else {
            assert((pad + l)[k] == l[k - pad.len()]);
        }
    }
}

proof fn lemma_back_newlines(s: Seq<char>)
    ensures
        no_back_newlines(s).len() <= s.len(),
        no_back_newlines(s).is_prefix_of(s),
        forall|k: int| no_back_newlines(s).len() <= k < s.len() ==> #[trigger] s[k] == '\n',
    decreases s.len(),
{
    if s.len() > 0 && s.last() == '\n' {
        lemma_back_newlines(s.drop_last());
        assert forall|k: int| no_back_newlines(s).len() <= k < s.len() implies #[trigger] s[k] == '\n' by {
            if k < s.len() - 1 {
                assert(s.drop_last()[k] == s[k]);
            }
        }
        assert(s.drop_last().is_prefix_of(s));
    }
}

/// No two texts are written alike behind a marker, on one line or as a block.
pub proof fn law_strings_differ(a: Seq<char>, b: Seq<char>, pad: Seq<char>, q: Quote)
    requires
        forall|k: int| 0 <= k < pad.len() ==> #[trigger] pad[k] == ' ',
        string_text(a, pad, q) == string_text(b, pad, q),
    ensures
        a == b,
{
    let t = string_text(a, pad, q);
    let inner = pad + seq![' ', ' '];
    reveal_strlit("|-");
    reveal_strlit("|");
    if header_of(a) is None {
        lemma_first_char(a, q);
        assert(t[1] == str_text(a, q)[0]);
        assert(t.subrange(1, t.len() - 1) =~= str_text(a, q));
    }
    if header_of(b) is None {
        lemma_first_char(b, q);
        assert(t[1] == str_text(b, q)[0]);
        assert(t.subrange(1, t.len() - 1) =~= str_text(b, q));
    }
    if header_of(a) is Some {
        assert(t[1] == '|');
    }
    if header_of(b) is Some {
        assert(t[1] == '|');
    }
    if header_of(a) is None {
        law_texts_differ(a, b, q);
    } else {
        let ha = header_of(a)->0;
        let hb = header_of(b)->0;
        assert(ha == "|"@ ==> t[2] == '\n');
        assert(hb == "|"@ ==> t[2] == '\n');
        assert(ha == "|-"@ ==> t[2] == '-');
        assert(hb == "|-"@ ==> t[2] == '-');
        let x = no_back_newlines(a);
        let y = no_back_newlines(b);
        let n = ha.len() + 2;
        let la = split(x, '\n');
        let lb = split(y, '\n');
        assert(t.skip(n as int) =~= block_lines(la, la.len(), inner));
        assert(t.skip(n as int) =~= block_lines(lb, lb.len(), inner));
        law_joined_split(x, '\n');
        law_joined_split(y, '\n');
        lemma_block_lines_differ(la, lb, inner);
        assert(x == y);
        lemma_back_newlines(a);
        lemma_back_newlines(b);
        assert(ha == hb);
        assert(a.len() == b.len());
        assert forall|k: int| 0 <= k < a.len() implies a[k] == b[k] by {
            if k < x.len() {
                assert(x[k] == a[k] && y[k] == b[k]);
            }
        }
        assert(a =~= b);
    }
}

proof fn lemma_first_char(s: Seq<char>, q: Quote)
    ensures
        str_text(s, q).len() > 0,
        str_text(s, q)[0] != '|',
{
    if holds_special(s) {
        assert(str_text(s, q)[0] == '"');
    } else if str_text(s, q) == in_single_quotes(s) {
        assert(str_text(s, q)[0] == '\'');
    }
}

/// How many blanks stand in front of a line.
pub open spec fn indent_of(l: Seq<char>) -> nat
    decreases l.len(),
{
    if l.len() > 0 && l[0] == ' ' {
        1 + indent_of(l.skip(1))
    } else {
        0
    }
}

/// Whether `r` is what a reader makes of the lines of a block: each without the indent of the
/// first that is not empty.
pub open spec fn block_read(written: Seq<Seq<char>>, r: Seq<Seq<char>>) -> bool {
    &&& r.len() == written.len()
    &&& forall|i: int, k: int|
        #![trigger first_said(written, i), r[k]]
        first_said(written, i) && 0 <= k < r.len() ==> r[k] == (if written[k].len() == 0 {
            written[k]
        } else {
            written[k].skip(indent_of(written[i]) as int)
        })
}

proof fn lemma_indent(pad: Seq<char>, l: Seq<char>)
    requires
        forall|k: int| 0 <= k < pad.len() ==> #[trigger] pad[k] == ' ',
        l.len() > 0,
        l[0] != ' ',
    ensures
        indent_of(pad + l) == pad.len(),
    decreases pad.len(),
{
    if pad.len() > 0 {
        assert((pad + l)[0] == pad[0]);
        assert((pad + l).skip(1) =~= pad.skip(1) + l);
        lemma_indent(pad.skip(1), l);
    } else {
        assert((pad + l)[0] == l[0]);
    }
}

/// Nothing is lost in a block: without the indent of the first line that is not empty, which is
/// the one that a reader takes, the lines that are written of a text are its lines.
pub proof fn law_block_keeps(s: Seq<char>, pad: Seq<char>)
    requires
        header_of(s) is Some,
        forall|k: int| 0 <= k < pad.len() ==> #[trigger] pad[k] == ' ',
    ensures
        block_read(
            indented(split(no_back_newlines(s), '\n'), pad),
            split(no_back_newlines(s), '\n'),
        ),
{
    let ls = split(no_back_newlines(s), '\n');
    let w = indented(ls, pad);
    assert forall|i: int, k: int|
        #![trigger first_said(w, i), ls[k]]
        first_said(w, i) && 0 <= k < ls.len() implies ls[k] == (if w[k].len() == 0 {
        w[k]
    } else {
        w[k].skip(indent_of(w[i]) as int)
    }) by {
        assert forall|j: int| 0 <= j < i implies (#[trigger] ls[j]).len() == 0 by {
            assert(w[j].len() == 0);
        }
        assert(first_said(ls, i));
        assert(!begins_indented(ls));
        lemma_indent(pad, ls[i]);
        if ls[k].len() > 0 {
            assert(w[k].skip(pad.len() as int) =~= ls[k]);
        } else {
            assert(ls[k] =~= w[k]);
        }
    }
}

/// Members and items are written in order, each behind those before it, with its key or its dash
/// in front, at the indent of the whole.
pub proof fn law_written_in_order(
    m: Seq<(Seq<char>, JsonView)>,
    k: Seq<char>,
    a: Seq<JsonView>,
    v: JsonView,
    pad: Seq<char>,
    q: Quote,
)
    ensures
        map_text(m.push((k, v)), m.len() + 1, pad, pad, q) == map_text(m, m.len(), pad, pad, q) + pad
            + (str_text(k, Quote::Loose) + seq![':'] + after_key(v, pad, child_quote(k, q))),
        seq_text(a.push(v), a.len() + 1, pad, q) == seq_text(a, a.len(), pad, q) + (pad + seq!['-']
            + after_dash(v, pad, q)),
{
    lemma_map_prefix(m, (k, v), m.len(), pad, q);
    lemma_seq_prefix(a, v, a.len(), pad, q);
    assert(m.push((k, v))[m.len() as int] == (k, v));
    assert(a.push(v)[a.len() as int] == v);
}

proof fn lemma_map_prefix(
    m: Seq<(Seq<char>, JsonView)>,
    e: (Seq<char>, JsonView),
    n: nat,
    pad: Seq<char>,
    q: Quote,
)
    requires
        n <= m.len(),
    ensures
        map_text(m.push(e), n, pad, pad, q) == map_text(m, n, pad, pad, q),
    decreases n,
{
    if n > 0 {
        lemma_map_prefix(m, e, (n - 1) as nat, pad, q);
        assert(m.push(e)[n - 1] == m[n - 1]);
    }
}

proof fn lemma_seq_prefix(a: Seq<JsonView>, v: JsonView, n: nat, pad: Seq<char>, q: Quote)
    requires
        n <= a.len(),
    ensures
        seq_text(a.push(v), n, pad, q) == seq_text(a, n, pad, q),
    decreases n,
{
    if n > 0 {
        lemma_seq_prefix(a, v, (n - 1) as nat, pad, q);
        assert(a.push(v)[n - 1] == a[n - 1]);
    }
}

/// What stands behind a key: a scalar on the same line, and what is in a list or an object on lines
/// of its own, two spaces further in.
pub proof fn law_behind_a_key(
    m: Seq<(Seq<char>, JsonView)>,
    a: Seq<JsonView>,
    pad: Seq<char>,
    q: Quote,
)
    ensures
        after_key(JsonView::Null, pad, q) == seq![' '] + "null"@ + seq!['\n'],
        after_key(JsonView::Bool(true), pad, q) == seq![' '] + "true"@ + seq!['\n'],
        after_key(JsonView::Bool(false), pad, q) == seq![' '] + "false"@ + seq!['\n'],
        after_key(JsonView::Array(seq![]), pad, q) == seq![' '] + "[]"@ + seq!['\n'],
        after_key(JsonView::Object(seq![]), pad, q) == seq![' '] + "{}"@ + seq!['\n'],
        m.len() > 0 ==> after_key(JsonView::Object(m), pad, q) == seq!['\n'] + map_text(
            m,
            m.len(),
            pad + seq![' ', ' '],
            pad + seq![' ', ' '],
            q,
        ),
        a.len() > 0 ==> after_key(JsonView::Array(a), pad, q) == seq!['\n'] + seq_text(
            a,
            a.len(),
            pad + seq![' ', ' '],
            q,
        ),
{
}

/// What may not stand in YAML as it is stands in double quotes. What else would be taken for
/// something other than the text stands in single quotes: nothing at all, white space at an end, a
/// character that means something to YAML at the beginning, a colon or a hash where YAML reads one,
/// and what reads as a number, a flag or nothing.
pub proof fn law_when_quoted(s: Seq<char>, q: Quote, i: int)
    ensures
        s.len() == 0 ==> str_text(s, q) == seq!['\'', '\''],
        0 <= i < s.len() && (s[i] == '\n' || s[i] == '\r' || s[i] == '\t' || s[i] == '\u{2028}'
            || s[i] == '\u{2029}' || s[i] == '\u{FFFE}' || s[i] == '\u{FFFF}' || is_control(s[i])) ==> str_text(s, q) == seq!['"'] + all_escaped(s)
            + seq!['"'],
        !holds_special(s) && s.len() > 0 && (trim(s) != s || s.last() == ':' || contains(s, ": "@)
            || contains(s, " #"@)) ==> str_text(s, q)[0] == '\'',
        !holds_special(s) && s.len() > 0 && (s[0] == '{' || s[0] == '[' || s[0] == '}' || s[0] == ']'
            || s[0] == ',' || s[0] == '#' || s[0] == '&' || s[0] == '*' || s[0] == '!' || s[0] == '|'
            || s[0] == '>' || s[0] == '\'' || s[0] == '"' || s[0] == '%' || s[0] == '@' || s[0]
            == '`') ==> str_text(s, q)[0] == '\'' && str_text(s, q).last() == '\'',
        !holds_special(s) && s.len() > 1 && s[1] == ' ' && (s[0] == '-' || s[0] == '?' || s[0]
            == ':') ==> str_text(s, q)[0] == '\'',
        !holds_special(s) && !(q is Loose) && (s == "true"@ || s == "false"@ || s == "null"@ || (
        s.len() > 0 && '0' <= s[0] <= '9')) && parsed_yaml(s) != Ok::<YamlView, Seq<char>>(
            YamlView::Str(s),
        ) ==> str_text(s, q)[0] == '\'',
{
    if s.len() == 0 {
        reveal_strlit("'");
        reveal_strlit("''");
        assert(!holds_special(s));
        assert(replace(s, "'"@, "''"@) =~= seq![]);
        assert(str_text(s, q) =~= seq!['\'', '\'']);
    }
    if 0 <= i < s.len() && (s[i] == '\n' || s[i] == '\r' || s[i] == '\t' || s[i] == '\u{2028}' || s[i]
        == '\u{2029}' || s[i] == '\u{FFFE}' || s[i] == '\u{FFFF}' || is_control(s[i])) {
        assert(must_escape(s[i]));
    }
    if s == "true"@ || s == "false"@ || s == "null"@ {
        reveal_strlit("true");
        reveal_strlit("false");
        reveal_strlit("null");
    }
}

/// A text of several lines stands line by line if it ends with one line end or with none, and on one
/// line in quotes if it ends with more.
pub proof fn law_which_block(s: Seq<char>)
    ensures
        !s.contains('\n') ==> header_of(s) is None,
        s.len() > 0 && s.last() != '\n' && header_of(s) is Some ==> header_of(s) == Some("|-"@),
        s.len() > 0 && s.last() == '\n' && header_of(s) is Some ==> header_of(s) == Some("|"@),
        s.len() > 1 && s.last() == '\n' && s[s.len() - 2] == '\n' ==> header_of(s) is None,
{
    reveal_with_fuel(no_back_newlines, 3);
    lemma_back_shorter(s);
    if s.len() > 0 {
        lemma_back_shorter(s.drop_last());
    }
    if s.len() > 1 {
        lemma_back_shorter(s.drop_last().drop_last());
        assert(s.drop_last().last() == s[s.len() - 2]);
    }
}

proof fn lemma_back_shorter(s: Seq<char>)
    ensures
        no_back_newlines(s).len() <= s.len(),
    decreases s.len(),
{
    if s.len() > 0 && s.last() == '\n' {
        lemma_back_shorter(s.drop_last());
    }
}

/// A block holds every line behind the white space of its place, but for empty lines, which stand
/// alone.
pub proof fn law_block_lines(ls: Seq<Seq<char>>, n: nat, pad: Seq<char>)
    requires
        n < ls.len(),
    ensures
        block_lines(ls, 0, pad).len() == 0,
        ls[n as int].len() == 0 ==> block_lines(ls, n + 1, pad) == block_lines(ls, n, pad).push('\n'),
        ls[n as int].len() > 0 ==> block_lines(ls, n + 1, pad) == block_lines(ls, n, pad) + pad
            + ls[n as int] + seq!['\n'],
{
    let a = block_lines(ls, n, pad);
    if ls[n as int].len() == 0 {
        assert(block_lines(ls, n + 1, pad) =~= a.push('\n'));
    } else {
        assert(block_lines(ls, n + 1, pad) =~= a + pad + ls[n as int] + seq!['\n']);
    }
}

/// Types are kept below the variables of a case and below what a step sends, are not below its
/// assertions, and elsewhere as they were.
pub proof fn law_how_strictly(k: Seq<char>)
    ensures
        child_quote("assertions"@, Quote::Strict) is Loose,
        child_quote("vars"@, Quote::Strict) is Free,
        child_quote("request"@, Quote::Strict) is Free,
        k != "assertions"@ && k != "vars"@ && k != "request"@ ==> child_quote(k, Quote::Strict)
            is Strict,
        child_quote(k, Quote::Loose) is Loose,
        child_quote(k, Quote::Free) is Free,
{
    reveal_strlit("assertions");
    reveal_strlit("vars");
    reveal_strlit("request");
    assert("assertions"@.len() == 10 && "vars"@.len() == 4 && "request"@.len() == 7);
}

} // verus!
