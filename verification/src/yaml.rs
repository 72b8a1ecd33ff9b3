//! YAML documents.
//!
//! Reading YAML text is the work of `serde_yaml`. What it reads becomes a `Yaml` value, and
//! from there a `Json` value: the rest of the library works on JSON alone.
use crate::json::{
    compact, json_text, lemma_view, put_member, reprint_number, reprinted, Json, JsonView, Member,
};
use crate::number::{Number, NumberView};
use crate::table::{law_put, lookup, put};
use crate::text::{cat, copy_text, views, Duplicate};
use serde_yaml::Value;
use vstd::prelude::*;

verus! {

/// A YAML value. A number that is no integer is held by the text that `serde_yaml` prints.
#[derive(Debug, PartialEq)]
pub enum Yaml {
    Null,
    Bool(bool),
    Number(Number),
    Str(String),
    List(Vec<Yaml>),
    Table(Vec<YamlPair>),
    Tagged(Box<Yaml>),
}

/// A key of a YAML mapping and its value.
#[derive(Debug, PartialEq)]
pub struct YamlPair {
    pub key: Yaml,
    pub value: Yaml,
}

/// What a YAML value stands for.
pub enum YamlView {
    Null,
    Bool(bool),
    Number(NumberView),
    Str(Seq<char>),
    List(Seq<YamlView>),
    Table(Seq<(YamlView, YamlView)>),
    Tagged(Box<YamlView>),
}

impl Yaml {
    /// What the value stands for.
    pub open spec fn content(self) -> YamlView
        decreases self,
    {
        match self {
            Yaml::Null => YamlView::Null,
            Yaml::Bool(b) => YamlView::Bool(b),
            Yaml::Number(n) => YamlView::Number(n@),
            Yaml::Str(s) => YamlView::Str(s@),
            Yaml::List(a) => YamlView::List(
                Seq::new(
                    a@.len(),
                    |i: int|
                        if 0 <= i < a@.len() {
                            a@[i].content()
                        } else {
                            YamlView::Null
                        },
                ),
            ),
            Yaml::Table(m) => YamlView::Table(
                Seq::new(
                    m@.len(),
                    |i: int|
                        if 0 <= i < m@.len() {
                            (m@[i].key.content(), m@[i].value.content())
                        } else {
                            (YamlView::Null, YamlView::Null)
                        },
                ),
            ),
            Yaml::Tagged(t) => YamlView::Tagged(Box::new(t.content())),
        }
    }
}

impl View for Yaml {
    type V = YamlView;

    open spec fn view(&self) -> YamlView {
        self.content()
    }
}

impl View for YamlPair {
    type V = (YamlView, YamlView);

    open spec fn view(&self) -> (YamlView, YamlView) {
        (self.key@, self.value@)
    }
}

/// The view of a value, level by level.
pub proof fn lemma_yaml_view(y: Yaml)
    ensures
        match y {
            Yaml::Null => y@ == YamlView::Null,
            Yaml::Bool(b) => y@ == YamlView::Bool(b),
            Yaml::Number(n) => y@ == YamlView::Number(n@),
            Yaml::Str(s) => y@ == YamlView::Str(s@),
            Yaml::List(a) => y@ == YamlView::List(views(a@)),
            Yaml::Table(m) => y@ == YamlView::Table(views(m@)),
            Yaml::Tagged(t) => y@ == YamlView::Tagged(Box::new(t@)),
        },
{
    match y {
        Yaml::List(a) => {
            assert(y@->List_0 =~= views(a@));
        },
        Yaml::Table(m) => {
            assert(y@->Table_0 =~= views(m@));
        },
        _ => {},
    }
}

// ---- reading ---------------------------------------------------------------------------

/// `serde_yaml::Value`, as the parser of that crate gives it.
#[verifier::external_type_specification]
#[verifier::external_body]
pub struct ExYamlValue(Value);

/// The number of the library for a number of `serde_yaml`; one that is no integer is taken by the
/// text that `serde_yaml::Number` prints.
#[verifier::external_body]
fn from_yaml_number(n: &Value) -> (r: Number) {
    match (n.as_u64(), n.as_i64()) {
        (Some(u), _) => Number::PosInt(u),
        (None, Some(i)) => Number::NegInt(i),
        (None, None) => Number::Real(n.as_f64().map(|f| serde_yaml::Number::from(f).to_string()).unwrap_or_default()),
    }
}

/// The entry of the library for an entry of a mapping of `serde_yaml`.
#[verifier::external_body]
fn from_yaml_pair(p: (Value, Value)) -> (r: YamlPair) {
    YamlPair { key: from_yaml(p.0), value: from_yaml(p.1) }
}

/// The value of the library for a value of `serde_yaml`, variant by variant.
#[verifier::external_body]
fn from_yaml(v: Value) -> (r: Yaml) {
    match v {
        Value::Null => Yaml::Null,
        Value::Bool(b) => Yaml::Bool(b),
        Value::Number(_) => Yaml::Number(from_yaml_number(&v)),
        Value::String(s) => Yaml::Str(s),
        Value::Sequence(a) => Yaml::List(a.into_iter().map(from_yaml).collect()),
        Value::Mapping(m) => Yaml::Table(m.into_iter().map(from_yaml_pair).collect()),
        Value::Tagged(t) => Yaml::Tagged(Box::new(from_yaml(t.value))),
    }
}

/// What `serde_yaml::from_str` reads from a text: a value, or the message of its error.
pub uninterp spec fn parsed_yaml(text: Seq<char>) -> Result<YamlView, Seq<char>>;

/// The view of what was read.
pub open spec fn read_view(r: Result<Yaml, String>) -> Result<YamlView, Seq<char>> {
    match r {
        Ok(v) => Ok(v@),
        Err(e) => Err(e@),
    }
}

/// Reads YAML text with `serde_yaml::from_str`. The result depends on the text alone.
#[verifier::external_body]
pub(crate) fn parse_yaml(text: &str) -> (r: Result<Yaml, String>)
    ensures
        read_view(r) == parsed_yaml(text@),
{
    serde_yaml::from_str::<Value>(text).map(from_yaml).map_err(|e| e.to_string())
}

// ---- YAML as JSON ----------------------------------------------------------------------

/// A YAML value as JSON. A tag is passed over; a number that JSON cannot hold is null.
pub open spec fn yaml_json(v: YamlView) -> JsonView
    decreases v, 0nat,
{
    match v {
        YamlView::Null => JsonView::Null,
        YamlView::Bool(b) => JsonView::Bool(b),
        YamlView::Number(NumberView::Int(i)) => JsonView::Number(NumberView::Int(i)),
        YamlView::Number(NumberView::Real(t)) => match reprinted(t) {
            Some(p) => JsonView::Number(NumberView::Real(p)),
            None => JsonView::Null,
        },
        YamlView::Str(s) => JsonView::Str(s),
        YamlView::List(a) => JsonView::Array(
            Seq::new(
                a.len(),
                |i: int|
                    if 0 <= i < a.len() {
                        yaml_json(a[i])
                    } else {
                        JsonView::Null
                    },
            ),
        ),
        YamlView::Table(m) => JsonView::Object(table_json(m, m.len())),
        YamlView::Tagged(t) => yaml_json(*t),
    }
}

/// The name that a key of a mapping gets in JSON: other keys than strings by their text.
pub open spec fn key_name(k: YamlView) -> Seq<char>
    decreases k, 1nat,
{
    match k {
        YamlView::Str(s) => s,
        other => match yaml_json(other) {
            JsonView::Str(s) => s,
            JsonView::Null => seq![],
            v => json_text(v),
        },
    }
}

/// The members that the first `n` entries of a mapping give, in order; of two entries with one
/// name the later counts.
pub open spec fn table_json(m: Seq<(YamlView, YamlView)>, n: nat) -> Seq<(Seq<char>, JsonView)>
    decreases m, n,
{
    if n == 0 || n > m.len() {
        seq![]
    } else {
        put(table_json(m, (n - 1) as nat), key_name(m[n - 1].0), yaml_json(m[n - 1].1))
    }
}

/// A YAML value as JSON.
pub fn yaml_to_json(v: &Yaml) -> (r: Json)
    ensures
        r@ == yaml_json(v@),
    decreases v, 0nat,
{
    proof {
        lemma_yaml_view(*v);
    }
    match v {
        Yaml::Null => Json::Null,
        Yaml::Bool(b) => Json::Bool(*b),
        Yaml::Number(Number::Real(t)) => match reprint_number(t.as_str()) {
            Some(p) => Json::Number(Number::Real(p)),
            None => Json::Null,
        },
        Yaml::Number(n) => Json::Number(n.duplicate()),
        Yaml::Str(s) => Json::Str(copy_text(s.as_str())),
        Yaml::List(a) => {
            let mut out: Vec<Json> = Vec::new();
            let mut i: usize = 0;
            while i < a.len()
                invariant
                    i <= a@.len(),
                    out@.len() == i,
                    *v == Yaml::List(*a),
                    forall|k: int| 0 <= k < i ==> (#[trigger] out@[k])@ == yaml_json(a@[k]@),
                decreases a@.len() - i,
            {
                proof {
                    assert(decreases_to!(*v => v->List_0));
                    assert(decreases_to!(v->List_0 => v->List_0@));
                    assert(decreases_to!(v->List_0@ => v->List_0@[i as int]));
                }
                out.push(yaml_to_json(&a[i]));
                i = i + 1;
            }
            let r: Json = Json::Array(out);
            proof {
                lemma_view(r);
                assert(yaml_json(v@)->Array_0 =~= views(out@));
            }
            r
        },
        Yaml::Table(m) => {
            let mut out: Vec<Member> = Vec::new();
            let ghost w = views(m@);
            assert(views(out@) =~= seq![]);
            let mut i: usize = 0;
            while i < m.len()
                invariant
                    i <= m@.len(),
                    w == views(m@),
                    *v == Yaml::Table(*m),
                    views(out@) == table_json(w, i as nat),
                decreases m@.len() - i,
            {
                proof {
                    assert(decreases_to!(*v => v->Table_0));
                    assert(decreases_to!(v->Table_0 => v->Table_0@));
                    assert(decreases_to!(v->Table_0@ => v->Table_0@[i as int]));
                    assert(decreases_to!(m@[i as int] => m@[i as int].key));
                    assert(decreases_to!(m@[i as int] => m@[i as int].value));
                    assert(w[i as int] == m@[i as int]@);
                }
                let k: String = yaml_key_to_string(&m[i].key);
                put_member(&mut out, k.as_str(), yaml_to_json(&m[i].value));
                i = i + 1;
            }
            let r: Json = Json::Object(out);
            proof {
                lemma_view(r);
            }
            r
        },
        Yaml::Tagged(t) => yaml_to_json(t),
    }
}

/// The name that a key of a mapping gets in JSON.
fn yaml_key_to_string(k: &Yaml) -> (r: String)
    ensures
        r@ == key_name(k@),
    decreases k, 1nat,
{
    proof {
        lemma_yaml_view(*k);
    }
    match k {
        Yaml::Str(s) => copy_text(s.as_str()),
        other => match yaml_to_json(other) {
            Json::Str(s) => s,
            Json::Null => String::new(),
            v => compact(&v),
        },
    }
}

/// What a document holds: an empty one is an empty mapping.
pub open spec fn document(r: Result<YamlView, Seq<char>>) -> Result<JsonView, Seq<char>> {
    match r {
        Err(e) => Err("YAML 解析失败："@ + e),
        Ok(v) => match yaml_json(v) {
            JsonView::Null => Ok(JsonView::Object(seq![])),
            other => Ok(other),
        },
    }
}

/// What a text holds as a document.
pub open spec fn loaded(text: Seq<char>) -> Result<JsonView, Seq<char>> {
    document(parsed_yaml(text))
}

/// The view of a loaded document.
pub open spec fn load_view(r: Result<Json, String>) -> Result<JsonView, Seq<char>> {
    match r {
        Ok(v) => Ok(v@),
        Err(e) => Err(e@),
    }
}

/// What a document holds, from what was read of it.
pub fn document_of(read: Result<Yaml, String>) -> (r: Result<Json, String>)
    ensures
        load_view(r) == document(read_view(read)),
{
    match read {
        Err(e) => Err(cat("YAML 解析失败：", e.as_str())),
        Ok(y) => {
            let v: Json = yaml_to_json(&y);
            if v.is_null() {
                let m: Vec<Member> = Vec::new();
                let r: Json = Json::Object(m);
                proof {
                    lemma_view(r);
                    assert(views(m@) =~= seq![]);
                }
                Ok(r)
            } else {
                Ok(v)
            }
        },
    }
}

/// Reads a document.
pub fn load(text: &str) -> (r: Result<Json, String>)
    ensures
        load_view(r) == loaded(text@),
{
    document_of(parse_yaml(text))
}

/// A YAML value is the JSON value of its kind: a list item by item, a table entry by entry, where a
/// later entry of a name replaces an earlier one, and what has a tag without the tag. An empty
/// document is an object without members.
pub proof fn law_yaml_values(
    b: bool,
    i: int,
    t: Seq<char>,
    a: Seq<YamlView>,
    k: int,
    v: YamlView,
    m: Seq<(YamlView, YamlView)>,
    e: (YamlView, YamlView),
    n: Seq<char>,
)
    ensures
        yaml_json(YamlView::Null) is Null,
        yaml_json(YamlView::Bool(b)) == JsonView::Bool(b),
        yaml_json(YamlView::Number(NumberView::Int(i))) == JsonView::Number(NumberView::Int(i)),
        yaml_json(YamlView::Str(t)) == JsonView::Str(t),
        match yaml_json(YamlView::List(a)) {
            JsonView::Array(r) => r.len() == a.len() && (0 <= k < a.len() ==> r[k] == yaml_json(a[k])),
            _ => false,
        },
        yaml_json(YamlView::Tagged(Box::new(v))) == yaml_json(v),
        document(Ok(YamlView::Null)) == Ok::<_, Seq<char>>(JsonView::Object(seq![])),
        document(Err(t)) == Err::<JsonView, _>("YAML 解析失败："@ + t),
        e.0 == YamlView::Str(t) ==> match (yaml_json(YamlView::Table(m.push(e))), yaml_json(
            YamlView::Table(m),
        )) {
            (JsonView::Object(after), JsonView::Object(before)) => {
                &&& lookup(after, t) == Some(yaml_json(e.1))
                &&& n != t ==> lookup(after, n) == lookup(before, n)
            },
            _ => false,
        },
{
    reveal_with_fuel(yaml_json, 2);
    assert(yaml_json(YamlView::Tagged(Box::new(v))) == yaml_json(v));
    let all = m.push(e);
    lemma_table_prefix(m, e, m.len());
    assert(table_json(all, all.len()) == put(
        table_json(all, m.len()),
        key_name(e.0),
        yaml_json(e.1),
    ));
    if e.0 == YamlView::Str(t) {
        law_put(table_json(m, m.len()), t, yaml_json(e.1), n);
    }
}

proof fn lemma_table_prefix(m: Seq<(YamlView, YamlView)>, e: (YamlView, YamlView), n: nat)
    requires
        n <= m.len(),
    ensures
        table_json(m.push(e), n) == table_json(m, n),
    decreases n,
{
    if n > 0 {
        lemma_table_prefix(m, e, (n - 1) as nat);
        assert(m.push(e)[n - 1] == m[n - 1]);
    }
}

} // verus!
