//! JSON values.
//!
//! An object keeps the order in which its members were first written. Reading and printing
//! JSON text is the work of `serde_json`; everything that looks at a value works on `Json`.
use crate::number::{number_spec, number_text, print_number, printed, Number, NumberView};
use crate::table::{distinct, drop_key, has_key, key_at, lookup, put};
use crate::text::{copy_text, opt_view, replace, same, views, Duplicate};
use serde_json::Value;
use vstd::prelude::*;

verus! {

/// A JSON value.
#[derive(Debug, PartialEq)]
pub enum Json {
    Null,
    Bool(bool),
    Number(Number),
    Str(String),
    Array(Vec<Json>),
    Object(Vec<Member>),
}

/// A member of a JSON object.
#[derive(Debug, PartialEq)]
pub struct Member {
    pub name: String,
    pub value: Json,
}

/// What a JSON value stands for.
pub enum JsonView {
    Null,
    Bool(bool),
    Number(NumberView),
    Str(Seq<char>),
    Array(Seq<JsonView>),
    Object(Seq<(Seq<char>, JsonView)>),
}

impl Json {
    /// What the value stands for.
    pub open spec fn content(self) -> JsonView
        decreases self,
    {
        match self {
            Json::Null => JsonView::Null,
            Json::Bool(b) => JsonView::Bool(b),
            Json::Number(n) => JsonView::Number(n@),
            Json::Str(s) => JsonView::Str(s@),
            Json::Array(a) => JsonView::Array(
                Seq::new(
                    a@.len(),
                    |i: int|
                        if 0 <= i < a@.len() {
                            a@[i].content()
                        } else {
                            JsonView::Null
                        },
                ),
            ),
            Json::Object(m) => JsonView::Object(
                Seq::new(
                    m@.len(),
                    |i: int|
                        if 0 <= i < m@.len() {
                            (m@[i].name@, m@[i].value.content())
                        } else {
                            (seq![], JsonView::Null)
                        },
                ),
            ),
        }
    }
}

impl View for Json {
    type V = JsonView;

    open spec fn view(&self) -> JsonView {
        self.content()
    }
}

impl View for Member {
    type V = (Seq<char>, JsonView);

    open spec fn view(&self) -> (Seq<char>, JsonView) {
        (self.name@, self.value@)
    }
}

/// The view of a value, level by level.
pub proof fn lemma_view(j: Json)
    ensures
        match j {
            Json::Null => j@ == JsonView::Null,
            Json::Bool(b) => j@ == JsonView::Bool(b),
            Json::Number(n) => j@ == JsonView::Number(n@),
            Json::Str(s) => j@ == JsonView::Str(s@),
            Json::Array(a) => j@ == JsonView::Array(views(a@)),
            Json::Object(m) => j@ == JsonView::Object(views(m@)),
        },
{
    match j {
        Json::Array(a) => {
            assert(j@->Array_0 =~= views(a@));
        },
        Json::Object(m) => {
            assert(j@->Object_0 =~= views(m@));
        },
        _ => {},
    }
}

impl Json {
    /// A value with the same view.
    pub fn copy(&self) -> (r: Json)
        ensures
            r@ == self@,
        decreases self,
    {
        match self {
            Json::Null => Json::Null,
            Json::Bool(b) => Json::Bool(*b),
            Json::Number(n) => Json::Number(n.duplicate()),
            Json::Str(s) => Json::Str(copy_text(s.as_str())),
            Json::Array(a) => {
                let mut out: Vec<Json> = Vec::new();
                let mut i: usize = 0;
                while i < a.len()
                    invariant
                        i <= a.len(),
                        out.len() == i,
                        *self == Json::Array(*a),
                        forall|k: int| 0 <= k < i ==> (#[trigger] out@[k])@ == a@[k]@,
                    decreases a.len() - i,
                {
                    proof {
                        assert(decreases_to!(*self => self->Array_0));
                        assert(decreases_to!(self->Array_0 => self->Array_0@));
                        assert(decreases_to!(self->Array_0@ => self->Array_0@[i as int]));
                    }
                    out.push(a[i].copy());
                    i = i + 1;
                }
                assert(views(out@) =~= views(a@));
                let r: Json = Json::Array(out);
                proof {
                    lemma_view(r);
                    lemma_view(*self);
                }
                r
            },
            Json::Object(m) => {
                let mut out: Vec<Member> = Vec::new();
                let mut i: usize = 0;
                while i < m.len()
                    invariant
                        i <= m.len(),
                        out.len() == i,
                        *self == Json::Object(*m),
                        forall|k: int| 0 <= k < i ==> (#[trigger] out@[k])@ == m@[k]@,
                    decreases m.len() - i,
                {
                    proof {
                        assert(decreases_to!(*self => self->Object_0));
                        assert(decreases_to!(self->Object_0 => self->Object_0@));
                        assert(decreases_to!(self->Object_0@ => self->Object_0@[i as int]));
                        assert(decreases_to!(m@[i as int] => m@[i as int].value));
                    }
                    out.push(
                        Member { name: copy_text(m[i].name.as_str()), value: m[i].value.copy() },
                    );
                    i = i + 1;
                }
                assert(views(out@) =~= views(m@));
                let r: Json = Json::Object(out);
                proof {
                    lemma_view(r);
                    lemma_view(*self);
                }
                r
            },
        }
    }

    /// Whether the value is null.
    pub fn is_null(&self) -> (r: bool)
        ensures
            r == (self@ is Null),
    {
        match self {
            Json::Null => true,
            _ => false,
        }
    }

    /// The text of a string value.
    pub fn as_str(&self) -> (r: Option<&str>)
        ensures
            crate::text::opt_text(r) == str_of(self@),
    {
        match self {
            Json::Str(s) => Some(s.as_str()),
            _ => None,
        }
    }

    /// The members of an object.
    pub fn as_object(&self) -> (r: Option<&Vec<Member>>)
        ensures
            match r {
                Some(m) => object_of(self@) == Some(views(m@)),
                None => object_of(self@) is None,
            },
    {
        proof {
            lemma_view(*self);
        }
        match self {
            Json::Object(m) => Some(m),
            _ => None,
        }
    }

    /// The elements of an array.
    pub fn as_array(&self) -> (r: Option<&Vec<Json>>)
        ensures
            match r {
                Some(a) => array_of(self@) == Some(views(a@)),
                None => array_of(self@) is None,
            },
    {
        proof {
            lemma_view(*self);
        }
        match self {
            Json::Array(a) => Some(a),
            _ => None,
        }
    }
}

impl Clone for Json {
    fn clone(&self) -> (r: Self)
        ensures
            r@ == self@,
    {
        self.copy()
    }
}

impl Clone for Member {
    fn clone(&self) -> (r: Self)
        ensures
            r@ == self@,
    {
        self.duplicate()
    }
}

impl Duplicate for Json {
    fn duplicate(&self) -> (r: Self) {
        self.copy()
    }
}

impl Duplicate for Member {
    fn duplicate(&self) -> (r: Self) {
        Member { name: copy_text(self.name.as_str()), value: self.value.copy() }
    }
}

/// The text of a string value.
pub open spec fn str_of(v: JsonView) -> Option<Seq<char>> {
    match v {
        JsonView::Str(s) => Some(s),
        _ => None,
    }
}

/// The members of an object.
pub open spec fn object_of(v: JsonView) -> Option<Seq<(Seq<char>, JsonView)>> {
    match v {
        JsonView::Object(m) => Some(m),
        _ => None,
    }
}

/// The elements of an array.
pub open spec fn array_of(v: JsonView) -> Option<Seq<JsonView>> {
    match v {
        JsonView::Array(a) => Some(a),
        _ => None,
    }
}

// ---- objects ---------------------------------------------------------------------------

/// The value of a member.
pub fn member<'a>(m: &'a Vec<Member>, k: &str) -> (r: Option<&'a Json>)
    ensures
        match r {
            Some(v) => lookup(views(m@), k@) == Some(v@),
            None => lookup(views(m@), k@) is None,
        },
{
    let mut i: usize = 0;
    while i < m.len()
        invariant
            i <= m@.len(),
            key_at(views(m@), k@, 0) == key_at(views(m@), k@, i as int),
        decreases m@.len() - i,
    {
        if same(m[i].name.as_str(), k) {
            assert(views(m@)[i as int] == m@[i as int]@);
            return Some(&m[i].value);
        }
        i = i + 1;
    }
    None
}

/// Whether an object has a member.
pub fn has_member(m: &Vec<Member>, k: &str) -> (r: bool)
    ensures
        r == has_key(views(m@), k@),
{
    member(m, k).is_some()
}

/// The position of a member, or the number of members.
fn position(m: &Vec<Member>, k: &str) -> (r: usize)
    ensures
        r == key_at(views(m@), k@, 0),
        r <= m@.len(),
{
    let mut i: usize = 0;
    while i < m.len() && !same(m[i].name.as_str(), k)
        invariant
            i <= m@.len(),
            key_at(views(m@), k@, 0) == key_at(views(m@), k@, i as int),
        decreases m@.len() - i,
    {
        i = i + 1;
    }
    i
}

/// Sets a member.
pub fn put_member(m: &mut Vec<Member>, k: &str, v: Json)
    ensures
        views(final(m)@) == put(views(old(m)@), k@, v@),
{
    let ghost start = views(m@);
    let ghost vv = v@;
    let i: usize = position(m, k);
    if i < m.len() {
        m.set(i, Member { name: copy_text(k), value: v });
        assert(views(m@) =~= start.update(i as int, (k@, vv)));
    } else {
        m.push(Member { name: copy_text(k), value: v });
        assert(views(m@) =~= start.push((k@, vv)));
    }
}

/// Removes a member; the last one takes its place.
pub fn remove_member(m: &mut Vec<Member>, k: &str)
    ensures
        views(final(m)@) == drop_key(views(old(m)@), k@),
{
    let ghost start = m@;
    let i: usize = position(m, k);
    if i < m.len() {
        let gone: Member = m.swap_remove(i);
        assert(views(m@) =~= drop_key(views(start), k@));
    }
}

// ---- text ------------------------------------------------------------------------------

/// `serde_json::Value`, as the printers and the parser of that crate take and give it.
#[verifier::external_type_specification]
#[verifier::external_body]
pub struct ExValue(Value);

/// The number of the library for a number of `serde_json`; one that is no integer is taken by the
/// text that `serde_json::Number` prints.
#[verifier::external_body]
fn from_number(n: &Value) -> (r: Number) {
    match (n.as_u64(), n.as_i64()) {
        (Some(u), _) => Number::PosInt(u),
        (None, Some(i)) => Number::NegInt(i),
        (None, None) => Number::Real(n.to_string()),
    }
}

/// The value of the library for a value of `serde_json`, variant by variant.
#[verifier::external_body]
fn from_value(v: Value) -> (r: Json) {
    match v {
        Value::Null => Json::Null,
        Value::Bool(b) => Json::Bool(b),
        Value::Number(_) => Json::Number(from_number(&v)),
        Value::String(s) => Json::Str(s),
        Value::Array(a) => Json::Array(a.into_iter().map(from_value).collect()),
        Value::Object(m) => Json::Object(
            m.into_iter().map(|(name, v)| Member { name, value: from_value(v) }).collect(),
        ),
    }
}

/// The value of `serde_json` for a number of the library; a number held by its text is read back
/// by `serde_json`.
#[verifier::external_body]
fn to_number(n: &Number) -> (r: Value) {
    match n {
        Number::PosInt(u) => Value::from(*u),
        Number::NegInt(i) => Value::from(*i),
        Number::Real(t) => serde_json::from_str(t).unwrap_or(Value::Null),
    }
}

/// The value of `serde_json` for a value of the library, variant by variant.
#[verifier::external_body]
fn to_value(v: &Json) -> (r: Value) {
    match v {
        Json::Null => Value::Null,
        Json::Bool(b) => Value::Bool(*b),
        Json::Number(n) => to_number(n),
        Json::Str(s) => Value::String(s.clone()),
        Json::Array(a) => Value::Array(a.iter().map(to_value).collect()),
        Json::Object(m) => Value::Object(
            m.iter().map(|e| (e.name.clone(), to_value(&e.value))).collect(),
        ),
    }
}

/// The most levels of arrays and objects that `serde_json::from_str` reads.
pub const MAX_DEPTH: usize = 127;

/// Whether a value keeps what it is when it is printed and read again, with `d` levels of arrays
/// and objects left: names are distinct, and a number that is no integer is held by the text
/// that prints it.
pub open spec fn settled(v: JsonView, d: nat) -> bool
    decreases v,
{
    match v {
        JsonView::Number(NumberView::Real(t)) => reprinted(t) == Some(t) && (t.contains('.')
            || t.contains('e')),
        JsonView::Array(a) => d > 0 && forall|i: int|
            0 <= i < a.len() ==> settled(#[trigger] a[i], (d - 1) as nat),
        JsonView::Object(m) => d > 0 && distinct(m) && forall|i: int|
            0 <= i < m.len() ==> settled((#[trigger] m[i]).1, (d - 1) as nat),
        _ => true,
    }
}

/// JSON text as it can stand in a script: no `</` ends the script, and no line separator ends a
/// line of it. Each replacement is an escape of the same character.
pub open spec fn in_script(text: Seq<char>) -> Seq<char> {
    replace(
        replace(
            replace(text, seq!['<', '/'], seq!['<', '\\', '/']),
            seq!['\u{2028}'],
            seq!['\\', 'u', '2', '0', '2', '8'],
        ),
        seq!['\u{2029}'],
        seq!['\\', 'u', '2', '0', '2', '9'],
    )
}

/// What `serde_json::from_str` reads from a text: a value, or nothing if the text is not JSON.
pub uninterp spec fn parsed_json(text: Seq<char>) -> Option<JsonView>;

/// The text that `serde_json` prints for a value, on one line.
pub uninterp spec fn json_text(v: JsonView) -> Seq<char>;

/// The text that `serde_json::to_string_pretty` prints for a value, indented by two spaces.
pub uninterp spec fn json_pretty(v: JsonView) -> Option<Seq<char>>;

/// The text that `serde_json::Number` prints for a number read from a text, or nothing if the
/// text is no JSON number.
pub uninterp spec fn reprinted(text: Seq<char>) -> Option<Seq<char>>;

/// Reads JSON text with `serde_json::from_str`. The result depends on the text alone.
#[verifier::external_body]
fn parse_text(text: &str) -> (r: Option<Json>)
    ensures
        opt_view(r) == parsed_json(text@),
{
    serde_json::from_str::<Value>(text).ok().map(from_value)
}

/// Reads JSON text; nothing if it is not JSON.
pub fn parse_json(text: &str) -> (r: Option<Json>)
    ensures
        opt_view(r) == parsed_json(text@),
{
    parse_text(text)
}

/// Prints a value on one line with the `Display` of `serde_json::Value`. The result depends on
/// the value alone. An object is printed from brace to brace. A settled value is read back by
/// `serde_json::from_str`, also from the text as it stands in a script: strings are the only
/// place where a `<` or a line separator is printed, and both are read from their escapes too.
#[verifier::external_body]
pub(crate) fn compact(v: &Json) -> (r: String)
    ensures
        r@ == json_text(v@),
        v@ is Object ==> r@.len() > 1 && r@[0] == '{' && r@.last() == '}',
        settled(v@, MAX_DEPTH as nat) ==> parsed_json(in_script(r@)) == Some(v@),
{
    to_value(v).to_string()
}

/// Prints a value with `serde_json::to_string_pretty`. The result depends on the value alone.
#[verifier::external_body]
pub(crate) fn pretty(v: &Json) -> (r: Option<String>)
    ensures
        opt_view(r) == json_pretty(v@),
{
    serde_json::to_string_pretty(&to_value(v)).ok()
}

/// Reads a number with `serde_json::from_str` and prints it again. The result depends on the
/// text alone.
#[verifier::external_body]
pub(crate) fn reprint_number(text: &str) -> (r: Option<String>)
    ensures
        opt_view(r) == reprinted(text@),
{
    serde_json::from_str::<serde_json::Number>(text).ok().map(|n| n.to_string())
}

/// The words of the truth values.
pub open spec fn bool_text(b: bool) -> Seq<char> {
    if b {
        "true"@
    } else {
        "false"@
    }
}

/// The words of the truth values.
pub fn bool_word(b: bool) -> (r: &'static str)
    ensures
        r@ == bool_text(b),
{
    if b {
        "true"
    } else {
        "false"
    }
}

/// A value as text, for comparisons and substitutions: a string is itself, a structure is its
/// JSON text.
pub open spec fn js_text(v: JsonView) -> Seq<char> {
    match v {
        JsonView::Null => "null"@,
        JsonView::Bool(b) => bool_text(b),
        JsonView::Number(n) => number_spec(n),
        JsonView::Str(s) => s,
        other => json_text(other),
    }
}

/// A value as text, for comparisons and substitutions.
pub fn js_string(v: &Json) -> (r: String)
    ensures
        r@ == js_text(v@),
{
    match v {
        Json::Null => copy_text("null"),
        Json::Bool(b) => copy_text(bool_word(*b)),
        Json::Number(n) => number_text(n),
        Json::Str(s) => copy_text(s.as_str()),
        other => compact(other),
    }
}

/// A field that the schema fixes as text: null and a missing field are empty, a number is as
/// it was printed.
pub open spec fn field_text(v: Option<JsonView>) -> Seq<char> {
    match v {
        None => seq![],
        Some(JsonView::Null) => seq![],
        Some(JsonView::Str(s)) => s,
        Some(JsonView::Bool(b)) => bool_text(b),
        Some(JsonView::Number(n)) => printed(n),
        Some(other) => json_text(other),
    }
}

/// A value as the text of a field that the schema fixes as text.
pub fn scalar_field(v: &Json) -> (r: String)
    ensures
        r@ == field_text(Some(v@)),
{
    match v {
        Json::Null => String::new(),
        Json::Bool(b) => copy_text(bool_word(*b)),
        Json::Number(n) => print_number(n),
        Json::Str(s) => copy_text(s.as_str()),
        other => compact(other),
    }
}

/// The text that is read as a number for a value: `Number(v)` reads null as nothing, which is
/// zero, and a structure as no number at all.
pub open spec fn number_source(v: JsonView) -> Option<Seq<char>> {
    match v {
        JsonView::Null => Some(seq![]),
        JsonView::Bool(b) => Some(
            if b {
                "1"@
            } else {
                "0"@
            },
        ),
        JsonView::Number(n) => Some(printed(n)),
        JsonView::Str(s) => Some(s),
        _ => None,
    }
}

/// The text that is read as a number for a value.
pub fn js_number(v: &Json) -> (r: Option<String>)
    ensures
        opt_view(r) == number_source(v@),
{
    match v {
        Json::Null => {
            let s: String = String::new();
            Some(s)
        },
        Json::Bool(b) => Some(copy_text(if *b {
            "1"
        } else {
            "0"
        })),
        Json::Number(n) => Some(print_number(n)),
        Json::Str(s) => Some(copy_text(s.as_str())),
        _ => None,
    }
}

/// Values as text: a text is itself, a truth is its word, and nothing is the word for it in a
/// comparison but no text in a field; lists and objects are as JSON writes them.
pub proof fn law_values_as_text(v: JsonView, t: Seq<char>)
    ensures
        js_text(JsonView::Str(t)) == t,
        field_text(Some(JsonView::Str(t))) == t,
        js_text(JsonView::Null) == "null"@,
        field_text(Some(JsonView::Null)).len() == 0,
        field_text(None).len() == 0,
        js_text(JsonView::Bool(true)) == "true"@,
        js_text(JsonView::Bool(false)) == "false"@,
        field_text(Some(JsonView::Bool(true))) == "true"@,
        field_text(Some(JsonView::Bool(false))) == "false"@,
        v is Array || v is Object ==> js_text(v) == json_text(v) && field_text(Some(v)) == json_text(
            v,
        ),
{
}

/// Which values can be numbers: a number and a text as they are written, a truth as one or zero,
/// nothing as an empty text, and lists and objects not at all.
pub proof fn law_values_as_numbers(v: JsonView, n: NumberView, t: Seq<char>)
    ensures
        number_source(JsonView::Number(n)) == Some(printed(n)),
        number_source(JsonView::Str(t)) == Some(t),
        number_source(JsonView::Bool(true)) == Some("1"@),
        number_source(JsonView::Bool(false)) == Some("0"@),
        number_source(JsonView::Null) == Some(Seq::<char>::empty()),
        v is Array || v is Object ==> number_source(v) is None,
{
}

} // verus!
