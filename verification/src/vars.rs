//! Variables in a request: `${{ name }}` is replaced by the value of an environment or case
//! variable, or of an output of an earlier step.
//!
//! What cannot be resolved stays as it is written, so that a missing variable is seen where it
//! is missing. The replacement works on the structure of a body, not on its text: a value with
//! quotes in it cannot break a JSON document.
use crate::json::{js_string, js_text, lemma_view, put_member, Json, JsonView, Member};
use crate::model::{
    ApikeyAuth, ApikeyAuthView, AuthSpec, AuthSpecView, BasicAuth, BasicAuthView, BearerAuth,
    BearerAuthView, BodySpec, BodySpecView, DigestAuth, DigestAuthView, FormItem, FormItemView,
    HttpSpec, HttpSpecView, Kv, KvView, Oauth2Auth, Oauth2AuthView,
};
use crate::table::{
    distinct, key_at, lemma_key_at, lemma_key_at_is, lemma_put_all_distinct, lemma_put_all_sorted, lookup, put_all,
    put_all_sorted, sorted, Entry, SortedMap,
};
use crate::text::{
    after_prefix, at, chars_of, contains, copy_opt, copy_text, lemma_seek,
    lemma_seek_is, occurs_at, opt_view, seek, seek_char,
    strip_prefix, sub_text, trim, trimmed, views, Duplicate,
};
use vstd::prelude::*;

verus! {

/// The variables of a run: those of the environment and of the case, and the outputs of the
/// steps that have run.
#[derive(Debug, Clone, PartialEq)]
pub struct RunContext {
    pub vars: SortedMap<Json>,
    /// The outputs of each step by its id.
    pub steps: SortedMap<SortedMap<Json>>,
}

/// What a `RunContext` stands for.
#[verifier::ext_equal]
pub struct RunContextView {
    pub vars: Seq<(Seq<char>, JsonView)>,
    pub steps: Seq<(Seq<char>, Seq<(Seq<char>, JsonView)>)>,
}

impl View for RunContext {
    type V = RunContextView;

    open spec fn view(&self) -> RunContextView {
        RunContextView { vars: self.vars@, steps: self.steps@ }
    }
}

impl Duplicate for RunContext {
    fn duplicate(&self) -> (r: Self) {
        RunContext { vars: self.vars.duplicate(), steps: self.steps.duplicate() }
    }
}

impl Default for RunContext {
    fn default() -> (r: Self)
        ensures
            r@ == (RunContextView { vars: seq![], steps: seq![] }),
    {
        RunContext { vars: SortedMap::new(), steps: SortedMap::new() }
    }
}

/// Texts as JSON strings.
pub open spec fn as_strings(es: Seq<(Seq<char>, Seq<char>)>) -> Seq<(Seq<char>, JsonView)> {
    es.map_values(|e: (Seq<char>, Seq<char>)| (e.0, JsonView::Str(e.1)))
}

/// The variables of an environment, overridden by those of a case.
pub open spec fn merged_vars(
    env: Seq<(Seq<char>, Seq<char>)>,
    case_vars: Option<Seq<(Seq<char>, JsonView)>>,
) -> Seq<(Seq<char>, JsonView)> {
    let base = put_all_sorted(seq![], as_strings(env));
    match case_vars {
        Some(m) => put_all_sorted(base, m),
        None => base,
    }
}

/// A variable of the case wins over one of the environment; the others are those of the
/// environment.
pub proof fn law_case_vars_override(
    env: Seq<(Seq<char>, Seq<char>)>,
    case_vars: Seq<(Seq<char>, JsonView)>,
    k: Seq<char>,
)
    requires
        distinct(env),
        distinct(case_vars),
    ensures
        sorted(merged_vars(env, Some(case_vars))),
        lookup(merged_vars(env, Some(case_vars)), k) == (match lookup(case_vars, k) {
            Some(v) => Some(v),
            None => match lookup(env, k) {
                Some(t) => Some(JsonView::Str(t)),
                None => None,
            },
        }),
{
    let s = as_strings(env);
    let none = Seq::<(Seq<char>, JsonView)>::empty();
    assert(distinct(s)) by {
        assert forall|i: int, j: int| 0 <= i < j < s.len() implies (#[trigger] s[i]).0 != (
        #[trigger] s[j]).0 by {
            assert(env[i].0 != env[j].0);
        }
    }
    lemma_put_all_sorted(none, s, k);
    lemma_put_all_sorted(put_all_sorted(none, s), case_vars, k);
    lemma_key_at(env, k, 0);
    let i = key_at(env, k, 0);
    assert forall|m: int| 0 <= m < i implies (#[trigger] s[m]).0 != k by {
        assert(env[m].0 != k);
    }
    lemma_key_at_is(s, k, 0, i);
    lemma_key_at_is(none, k, 0, 0);
}

/// The value of an expression: an output `steps.<id>.outputs.<name>` (`requests.` is an older
/// word for `steps.`), or a variable with or without `vars.`.
pub open spec fn value_of(c: RunContextView, expr: Seq<char>) -> Option<JsonView> {
    match after_prefix(expr, "steps."@) {
        Some(rest) => output_of(c, rest),
        None => match after_prefix(expr, "requests."@) {
            Some(rest) => output_of(c, rest),
            None => lookup(
                c.vars,
                match after_prefix(expr, "vars."@) {
                    Some(key) => key,
                    None => expr,
                },
            ),
        },
    }
}

/// The output that `<id>.outputs.<name>` names.
pub open spec fn output_of(c: RunContextView, rest: Seq<char>) -> Option<JsonView> {
    let j = seek(rest, '.', 0);
    if j >= rest.len() {
        None
    } else {
        match after_prefix(rest.skip(j + 1), "outputs."@) {
            Some(name) => match lookup(c.steps, rest.take(j)) {
                Some(outs) => lookup(outs, name),
                None => None,
            },
            None => None,
        }
    }
}

impl RunContext {
    /// The variables of an environment, overridden by those of a case; no step has run.
    pub fn new(env: &SortedMap<String>, case_vars: Option<&Vec<Member>>) -> (r: Self)
        ensures
            r@ == (RunContextView {
                vars: merged_vars(
                    env@,
                    match case_vars {
                        Some(m) => Some(views(m@)),
                        None => None,
                    },
                ),
                steps: seq![],
            }),
    {
        let mut vars: SortedMap<Json> = SortedMap::new();
        let ghost es = as_strings(env@);
        let mut i: usize = 0;
        assert(es.take(0) =~= seq![]);
        while i < env.entries.len()
            invariant
                i <= env.entries@.len(),
                es == as_strings(env@),
                vars@ == put_all_sorted(seq![], es.take(i as int)),
            decreases env.entries@.len() - i,
        {
            let e: &Entry<String> = &env.entries[i];
            let v: Json = Json::Str(copy_text(e.value.as_str()));
            proof {
                assert(es.take(i + 1).drop_last() =~= es.take(i as int));
                assert(es.take(i + 1).last() == (e.key@, v@));
            }
            vars.insert(copy_text(e.key.as_str()), v);
            i = i + 1;
        }
        assert(es.take(es.len() as int) =~= es);
        if let Some(m) = case_vars {
            let ghost base = vars@;
            let ghost ms = views(m@);
            let mut j: usize = 0;
            assert(ms.take(0) =~= seq![]);
            while j < m.len()
                invariant
                    j <= m@.len(),
                    ms == views(m@),
                    vars@ == put_all_sorted(base, ms.take(j as int)),
                decreases m@.len() - j,
            {
                proof {
                    assert(ms.take(j + 1).drop_last() =~= ms.take(j as int));
                    assert(ms.take(j + 1).last() == m@[j as int]@);
                }
                vars.insert(copy_text(m[j].name.as_str()), m[j].value.copy());
                j = j + 1;
            }
            assert(ms.take(ms.len() as int) =~= ms);
        }
        RunContext { vars, steps: SortedMap::new() }
    }

    /// The value of an expression.
    pub fn lookup(&self, expr: &str) -> (r: Option<&Json>)
        ensures
            match r {
                Some(v) => value_of(self@, expr@) == Some(v@),
                None => value_of(self@, expr@) is None,
            },
    {
        if let Some(rest) = strip_prefix(expr, "steps.") {
            return self.output(rest.as_str());
        }
        if let Some(rest) = strip_prefix(expr, "requests.") {
            return self.output(rest.as_str());
        }
        match strip_prefix(expr, "vars.") {
            Some(key) => self.vars.get(key.as_str()),
            None => self.vars.get(expr),
        }
    }

    fn output(&self, rest: &str) -> (r: Option<&Json>)
        ensures
            match r {
                Some(v) => output_of(self@, rest@) == Some(v@),
                None => output_of(self@, rest@) is None,
            },
    {
        let cs: Vec<char> = chars_of(rest);
        let j: usize = seek_char(cs.as_slice(), '.', 0);
        if j >= cs.len() {
            return None;
        }
        let id: String = sub_text(cs.as_slice(), 0, j);
        let tail: String = sub_text(cs.as_slice(), j + 1, cs.len());
        assert(id@ =~= rest@.take(j as int));
        assert(tail@ =~= rest@.skip(j + 1));
        match strip_prefix(tail.as_str(), "outputs.") {
            Some(name) => {
                match self.steps.get(id.as_str()) {
                    Some(outs) => outs.get(name.as_str()),
                    None => None,
                }
            },
            None => None,
        }
    }
}

// ---- texts -----------------------------------------------------------------------------

/// Where the expression that begins at `from` ends: before two closing braces, with no brace in
/// between. An empty expression is none.
pub open spec fn close_at(s: Seq<char>, from: int) -> Option<int> {
    let j = seek(s, '}', from);
    if from < j && j + 1 < s.len() && s[j + 1] == '}' {
        Some(j)
    } else {
        None
    }
}

/// Where the expression ends whose opening `${{` is at `i`.
pub open spec fn expr_end(s: Seq<char>, i: int) -> Option<int> {
    if occurs_at(s, "${{"@, i) {
        close_at(s, i + 3)
    } else {
        None
    }
}

/// What stands for an expression from `i` to the braces at `e`: its value, or the text itself if
/// it has none or is null.
pub open spec fn substituted(s: Seq<char>, c: RunContextView, i: int, e: int) -> Seq<char> {
    match value_of(c, trim(s.subrange(i + 3, e))) {
        Some(v) if !(v is Null) => js_text(v),
        _ => s.subrange(i, e + 2),
    }
}

/// A text from `i` on with its expressions replaced.
pub open spec fn resolved_from(s: Seq<char>, c: RunContextView, i: int) -> Seq<char>
    decreases s.len() - i,
{
    if i < 0 || i >= s.len() {
        seq![]
    } else {
        match expr_end(s, i) {
            Some(e) if e > i => substituted(s, c, i, e) + resolved_from(s, c, e + 2),
            _ => seq![s[i]] + resolved_from(s, c, i + 1),
        }
    }
}

/// A text with its expressions replaced.
pub open spec fn resolved(s: Seq<char>, c: RunContextView) -> Seq<char> {
    resolved_from(s, c, 0)
}

proof fn lemma_opening()
    ensures
        "${{"@ == seq!['$', '{', '{'],
{
    reveal_strlit("${{");
    assert("${{"@ =~= seq!['$', '{', '{']);
}

proof fn lemma_expr_end(s: Seq<char>, i: int)
    ensures
        expr_end(s, i) is Some ==> i + 3 < expr_end(s, i)->0 && expr_end(s, i)->0 + 2 <= s.len(),
{
    lemma_opening();
}

/// Replaces every `${{ expr }}` of a text. What has no value, or the value null, stays as it is.
pub fn resolve_string(s: &str, ctx: &RunContext) -> (r: String)
    ensures
        r@ == resolved(s@, ctx@),
{
    let cs: Vec<char> = chars_of(s);
    let open: Vec<char> = chars_of("${{");
    let mut out: String = String::new();
    let mut i: usize = 0;
    proof {
        lemma_opening();
    }
    while i < cs.len()
        invariant
            i <= cs@.len(),
            cs@ == s@,
            open@ == "${{"@,
            open@.len() == 3,
            out@ + resolved_from(s@, ctx@, i as int) == resolved(s@, ctx@),
        decreases cs@.len() - i,
    {
        let ghost before = out@;
        let mut end: usize = 0;
        if at(cs.as_slice(), open.as_slice(), i) {
            let j: usize = seek_char(cs.as_slice(), '}', i + 3);
            if j > i + 3 && j < cs.len() && cs.len() - j > 1 && cs[j + 1] == '}' {
                end = j;
            }
        }
        proof {
            assert(expr_end(s@, i as int) == (if end > 0 {
                Some(end as int)
            } else {
                None
            }));
        }
        if end > 0 {
            let inner: String = sub_text(cs.as_slice(), i + 3, end);
            let expr: String = trimmed(inner.as_str());
            let mut done: bool = false;
            if let Some(v) = ctx.lookup(expr.as_str()) {
                if !v.is_null() {
                    let t: String = js_string(v);
                    out.push_str(t.as_str());
                    done = true;
                }
            }
            if !done {
                let t: String = sub_text(cs.as_slice(), i, end + 2);
                out.push_str(t.as_str());
            }
            proof {
                assert(out@ == before + substituted(s@, ctx@, i as int, end as int));
                assert(out@ + resolved_from(s@, ctx@, end + 2) =~= before + resolved_from(
                    s@,
                    ctx@,
                    i as int,
                ));
            }
            i = end + 2;
        } else {
            out.push(cs[i]);
            assert(out@ + resolved_from(s@, ctx@, i + 1) =~= before + resolved_from(
                s@,
                ctx@,
                i as int,
            ));
            i = i + 1;
        }
    }
    assert(out@ + resolved_from(s@, ctx@, i as int) =~= out@);
    out
}

/// A text without `${{` is unchanged.
pub proof fn law_plain_text(s: Seq<char>, c: RunContextView)
    requires
        !contains(s, "${{"@),
    ensures
        resolved(s, c) == s,
{
    lemma_plain_text(s, c, 0);
    assert(s.skip(0) =~= s);
}

proof fn lemma_plain_text(s: Seq<char>, c: RunContextView, i: int)
    requires
        !contains(s, "${{"@),
        0 <= i <= s.len(),
    ensures
        resolved_from(s, c, i) == s.skip(i),
    decreases s.len() - i,
{
    if i < s.len() {
        assert(!occurs_at(s, "${{"@, i));
        lemma_plain_text(s, c, i + 1);
        assert(seq![s[i]] + s.skip(i + 1) =~= s.skip(i));
    } else {
        assert(s.skip(i) =~= seq![]);
    }
}

/// Expressions without a value stay as they are written: where no expression of a text has a
/// value, the text is unchanged.
pub proof fn law_unresolved_kept(s: Seq<char>, c: RunContextView)
    requires
        forall|i: int, e: int|
            0 <= i < e < s.len() && #[trigger] expr_end(s, i) == Some(e) ==> value_of(
                c,
                trim(#[trigger] s.subrange(i + 3, e)),
            ) is None || value_of(c, trim(s.subrange(i + 3, e))) == Some(JsonView::Null),
    ensures
        resolved(s, c) == s,
{
    lemma_unresolved_kept(s, c, 0);
    assert(s.skip(0) =~= s);
}

proof fn lemma_unresolved_kept(s: Seq<char>, c: RunContextView, i: int)
    requires
        0 <= i <= s.len(),
        forall|i: int, e: int|
            0 <= i < e < s.len() && #[trigger] expr_end(s, i) == Some(e) ==> value_of(
                c,
                trim(#[trigger] s.subrange(i + 3, e)),
            ) is None || value_of(c, trim(s.subrange(i + 3, e))) == Some(JsonView::Null),
    ensures
        resolved_from(s, c, i) == s.skip(i),
    decreases s.len() - i,
{
    if i < s.len() {
        lemma_expr_end(s, i);
        match expr_end(s, i) {
            Some(e) => {
                let inner = s.subrange(i + 3, e);
                assert(value_of(c, trim(inner)) is None || value_of(c, trim(inner)) == Some(
                    JsonView::Null,
                ));
                lemma_unresolved_kept(s, c, e + 2);
                assert(s.subrange(i, e + 2) + s.skip(e + 2) =~= s.skip(i));
            },
            None => {
                lemma_unresolved_kept(s, c, i + 1);
                assert(seq![s[i]] + s.skip(i + 1) =~= s.skip(i));
            },
        }
    } else {
        assert(s.skip(i) =~= seq![]);
    }
}

// ---- requests --------------------------------------------------------------------------

/// An optional text with its expressions replaced.
pub open spec fn resolved_opt(s: Option<Seq<char>>, c: RunContextView) -> Option<Seq<char>> {
    match s {
        Some(t) => Some(resolved(t, c)),
        None => None,
    }
}

fn resolve_opt(s: &Option<String>, ctx: &RunContext) -> (r: Option<String>)
    ensures
        opt_view(r) == resolved_opt(opt_view(*s), ctx@),
{
    match s {
        Some(t) => Some(resolve_string(t.as_str(), ctx)),
        None => None,
    }
}

/// A row with its expressions replaced.
pub open spec fn resolved_row(k: KvView, c: RunContextView) -> KvView {
    KvView {
        name: resolved(k.name, c),
        value: resolved(k.value, c),
        enabled: k.enabled,
        description: k.description,
    }
}

/// Rows with their expressions replaced.
pub open spec fn resolved_rows(l: Seq<KvView>, c: RunContextView) -> Seq<KvView> {
    l.map_values(|k: KvView| resolved_row(k, c))
}

fn resolve_kv(list: &Vec<Kv>, ctx: &RunContext) -> (r: Vec<Kv>)
    ensures
        views(r@) == resolved_rows(views(list@), ctx@),
{
    let mut out: Vec<Kv> = Vec::new();
    let mut i: usize = 0;
    while i < list.len()
        invariant
            i <= list@.len(),
            out@.len() == i,
            forall|k: int| 0 <= k < i ==> (#[trigger] out@[k])@ == resolved_row(list@[k]@, ctx@),
        decreases list@.len() - i,
    {
        let k: &Kv = &list[i];
        out.push(
            Kv {
                name: resolve_string(k.name.as_str(), ctx),
                value: resolve_string(k.value.as_str(), ctx),
                enabled: k.enabled,
                description: copy_opt(&k.description),
            },
        );
        i = i + 1;
    }
    assert(views(out@) =~= resolved_rows(views(list@), ctx@));
    out
}

/// A form field with its expressions replaced; the path of a file takes part.
pub open spec fn resolved_field(k: FormItemView, c: RunContextView) -> FormItemView {
    FormItemView {
        name: resolved(k.name, c),
        value: resolved(k.value, c),
        enabled: k.enabled,
        description: k.description,
        kind: k.kind,
    }
}

/// Form fields with their expressions replaced.
pub open spec fn resolved_fields(l: Seq<FormItemView>, c: RunContextView) -> Seq<FormItemView> {
    l.map_values(|k: FormItemView| resolved_field(k, c))
}

fn resolve_form(list: &Vec<FormItem>, ctx: &RunContext) -> (r: Vec<FormItem>)
    ensures
        views(r@) == resolved_fields(views(list@), ctx@),
{
    let mut out: Vec<FormItem> = Vec::new();
    let mut i: usize = 0;
    while i < list.len()
        invariant
            i <= list@.len(),
            out@.len() == i,
            forall|k: int| 0 <= k < i ==> (#[trigger] out@[k])@ == resolved_field(list@[k]@, ctx@),
        decreases list@.len() - i,
    {
        let k: &FormItem = &list[i];
        out.push(
            FormItem {
                name: resolve_string(k.name.as_str(), ctx),
                value: resolve_string(k.value.as_str(), ctx),
                enabled: k.enabled,
                description: copy_opt(&k.description),
                kind: k.kind,
            },
        );
        i = i + 1;
    }
    assert(views(out@) =~= resolved_fields(views(list@), ctx@));
    out
}

/// A JSON value with the expressions in its strings and member names replaced.
pub open spec fn resolved_json(v: JsonView, c: RunContextView) -> JsonView
    decreases v,
{
    match v {
        JsonView::Str(s) => JsonView::Str(resolved(s, c)),
        JsonView::Array(a) => JsonView::Array(
            Seq::new(
                a.len(),
                |i: int|
                    if 0 <= i < a.len() {
                        resolved_json(a[i], c)
                    } else {
                        JsonView::Null
                    },
            ),
        ),
        JsonView::Object(m) => JsonView::Object(put_all(resolved_members(m, c))),
        other => other,
    }
}

/// The members of an object with their expressions replaced, before equal names meet.
pub open spec fn resolved_members(m: Seq<(Seq<char>, JsonView)>, c: RunContextView) -> Seq<
    (Seq<char>, JsonView),
>
    decreases m,
{
    Seq::new(
        m.len(),
        |i: int|
            if 0 <= i < m.len() {
                (resolved(m[i].0, c), resolved_json(m[i].1, c))
            } else {
                (seq![], JsonView::Null)
            },
    )
}

/// A JSON value with the expressions in its strings and member names replaced, node by node.
pub fn resolve_json(v: &Json, ctx: &RunContext) -> (r: Json)
    ensures
        r@ == resolved_json(v@, ctx@),
    decreases v,
{
    proof {
        lemma_view(*v);
    }
    match v {
        Json::Str(s) => Json::Str(resolve_string(s.as_str(), ctx)),
        Json::Array(a) => {
            let mut out: Vec<Json> = Vec::new();
            let mut i: usize = 0;
            while i < a.len()
                invariant
                    i <= a@.len(),
                    out@.len() == i,
                    *v == Json::Array(*a),
                    forall|k: int|
                        0 <= k < i ==> (#[trigger] out@[k])@ == resolved_json(a@[k]@, ctx@),
                decreases a@.len() - i,
            {
                proof {
                    assert(decreases_to!(*v => v->Array_0));
                    assert(decreases_to!(v->Array_0 => v->Array_0@));
                    assert(decreases_to!(v->Array_0@ => v->Array_0@[i as int]));
                }
                out.push(resolve_json(&a[i], ctx));
                i = i + 1;
            }
            let r: Json = Json::Array(out);
            proof {
                lemma_view(r);
                assert(r@->Array_0 =~= resolved_json(v@, ctx@)->Array_0);
            }
            r
        },
        Json::Object(m) => {
            let mut out: Vec<Member> = Vec::new();
            let ghost ms = views(m@);
            let ghost es = resolved_members(ms, ctx@);
            let mut i: usize = 0;
            assert(es.take(0) =~= seq![]);
            assert(views(out@) =~= put_all(es.take(0)));
            while i < m.len()
                invariant
                    i <= m@.len(),
                    ms == views(m@),
                    *v == Json::Object(*m),
                    es.len() == ms.len(),
                    forall|k: int|
                        0 <= k < ms.len() ==> #[trigger] es[k] == (
                            resolved(ms[k].0, ctx@),
                            resolved_json(ms[k].1, ctx@),
                        ),
                    views(out@) == put_all(es.take(i as int)),
                decreases m@.len() - i,
            {
                proof {
                    assert(decreases_to!(*v => v->Object_0));
                    assert(decreases_to!(v->Object_0 => v->Object_0@));
                    assert(decreases_to!(v->Object_0@ => v->Object_0@[i as int]));
                    assert(decreases_to!(m@[i as int] => m@[i as int].value));
                    assert(es.take(i + 1).drop_last() =~= es.take(i as int));
                    assert(ms[i as int] == m@[i as int]@);
                    assert(es.take(i + 1).last() == es[i as int]);
                }
                let name: String = resolve_string(m[i].name.as_str(), ctx);
                let value: Json = resolve_json(&m[i].value, ctx);
                put_member(&mut out, name.as_str(), value);
                i = i + 1;
            }
            assert(es.take(es.len() as int) =~= es);
            let r: Json = Json::Object(out);
            proof {
                lemma_view(r);
            }
            r
        },
        other => other.copy(),
    }
}

/// Credentials with their expressions replaced.
pub open spec fn resolved_auth(a: AuthSpecView, c: RunContextView) -> AuthSpecView {
    AuthSpecView {
        kind: a.kind,
        bearer: match a.bearer {
            Some(b) => Some(BearerAuthView { token: resolved(b.token, c) }),
            None => None,
        },
        basic: match a.basic {
            Some(b) => Some(
                BasicAuthView {
                    username: resolved(b.username, c),
                    password: resolved(b.password, c),
                },
            ),
            None => None,
        },
        apikey: match a.apikey {
            Some(k) => Some(
                ApikeyAuthView {
                    key: resolved(k.key, c),
                    value: resolved(k.value, c),
                    place: k.place,
                },
            ),
            None => None,
        },
        digest: match a.digest {
            Some(d) => Some(
                DigestAuthView {
                    username: resolved(d.username, c),
                    password: resolved(d.password, c),
                },
            ),
            None => None,
        },
        oauth2: match a.oauth2 {
            Some(o) => Some(
                Oauth2AuthView {
                    token_url: resolved(o.token_url, c),
                    client_id: resolved(o.client_id, c),
                    client_secret: resolved(o.client_secret, c),
                    scope: resolved_opt(o.scope, c),
                    client_auth: o.client_auth,
                },
            ),
            None => None,
        },
    }
}

fn resolve_auth(a: &AuthSpec, ctx: &RunContext) -> (r: AuthSpec)
    ensures
        r@ == resolved_auth(a@, ctx@),
{
    AuthSpec {
        kind: a.kind,
        bearer: match &a.bearer {
            Some(b) => Some(BearerAuth { token: resolve_string(b.token.as_str(), ctx) }),
            None => None,
        },
        basic: match &a.basic {
            Some(b) => Some(
                BasicAuth {
                    username: resolve_string(b.username.as_str(), ctx),
                    password: resolve_string(b.password.as_str(), ctx),
                },
            ),
            None => None,
        },
        apikey: match &a.apikey {
            Some(k) => Some(
                ApikeyAuth {
                    key: resolve_string(k.key.as_str(), ctx),
                    value: resolve_string(k.value.as_str(), ctx),
                    place: k.place,
                },
            ),
            None => None,
        },
        digest: match &a.digest {
            Some(d) => Some(
                DigestAuth {
                    username: resolve_string(d.username.as_str(), ctx),
                    password: resolve_string(d.password.as_str(), ctx),
                },
            ),
            None => None,
        },
        oauth2: match &a.oauth2 {
            Some(o) => Some(
                Oauth2Auth {
                    token_url: resolve_string(o.token_url.as_str(), ctx),
                    client_id: resolve_string(o.client_id.as_str(), ctx),
                    client_secret: resolve_string(o.client_secret.as_str(), ctx),
                    scope: resolve_opt(&o.scope, ctx),
                    client_auth: o.client_auth,
                },
            ),
            None => None,
        },
    }
}

/// A body with its expressions replaced.
pub open spec fn resolved_body(b: BodySpecView, c: RunContextView) -> BodySpecView {
    BodySpecView {
        kind: b.kind,
        json: match b.json {
            Some(j) => Some(resolved_json(j, c)),
            None => None,
        },
        xml: resolved_opt(b.xml, c),
        text: resolved_opt(b.text, c),
        content_type: resolved_opt(b.content_type, c),
        urlencoded: match b.urlencoded {
            Some(l) => Some(resolved_rows(l, c)),
            None => None,
        },
        form_data: match b.form_data {
            Some(l) => Some(resolved_fields(l, c)),
            None => None,
        },
        file_path: resolved_opt(b.file_path, c),
    }
}

fn resolve_body(b: &BodySpec, ctx: &RunContext) -> (r: BodySpec)
    ensures
        r@ == resolved_body(b@, ctx@),
{
    BodySpec {
        kind: b.kind,
        json: match &b.json {
            Some(j) => Some(resolve_json(j, ctx)),
            None => None,
        },
        xml: resolve_opt(&b.xml, ctx),
        text: resolve_opt(&b.text, ctx),
        content_type: resolve_opt(&b.content_type, ctx),
        urlencoded: match &b.urlencoded {
            Some(l) => Some(resolve_kv(l, ctx)),
            None => None,
        },
        form_data: match &b.form_data {
            Some(l) => Some(resolve_form(l, ctx)),
            None => None,
        },
        file_path: resolve_opt(&b.file_path, ctx),
    }
}

/// A request with its expressions replaced; the method has none.
pub open spec fn resolved_http(h: HttpSpecView, c: RunContextView) -> HttpSpecView {
    HttpSpecView {
        method: h.method,
        url: resolved(h.url, c),
        query: resolved_rows(h.query, c),
        headers: resolved_rows(h.headers, c),
        auth: resolved_auth(h.auth, c),
        body: resolved_body(h.body, c),
    }
}

/// A request with its expressions replaced.
pub fn resolve_http(h: &HttpSpec, ctx: &RunContext) -> (r: HttpSpec)
    ensures
        r@ == resolved_http(h@, ctx@),
{
    HttpSpec {
        method: copy_text(h.method.as_str()),
        url: resolve_string(h.url.as_str(), ctx),
        query: resolve_kv(&h.query, ctx),
        headers: resolve_kv(&h.headers, ctx),
        auth: resolve_auth(&h.auth, ctx),
        body: resolve_body(&h.body, ctx),
    }
}

/// Expressions are replaced in a structure, not in its text: a value stays of its kind whatever
/// the variables hold, and an array keeps its length.
pub proof fn law_structure_kept(v: JsonView, c: RunContextView)
    ensures
        v is Str <==> resolved_json(v, c) is Str,
        v is Array <==> resolved_json(v, c) is Array,
        v is Object <==> resolved_json(v, c) is Object,
        !(v is Str || v is Array || v is Object) ==> resolved_json(v, c) == v,
        v is Array ==> resolved_json(v, c)->Array_0.len() == v->Array_0.len(),
{
}

// ---- what a replacement gives ------------------------------------------------------------

proof fn lemma_closing()
    ensures
        "}}"@ == seq!['}', '}'],
{
    reveal_strlit("}}");
    assert("}}"@ =~= seq!['}', '}']);
}

proof fn lemma_seek_shift(a: Seq<char>, b: Seq<char>, ch: char, i: int)
    requires
        0 <= i <= b.len(),
    ensures
        seek(a + b, ch, a.len() + i) == a.len() + seek(b, ch, i),
    decreases b.len() - i,
{
    if i < b.len() {
        assert((a + b)[a.len() + i] == b[i]);
        if b[i] != ch {
            lemma_seek_shift(a, b, ch, i + 1);
        }
    }
}

proof fn lemma_expr_shift(a: Seq<char>, b: Seq<char>, i: int)
    requires
        0 <= i <= b.len(),
    ensures
        expr_end(a + b, a.len() + i) == (match expr_end(b, i) {
            Some(e) => Some(a.len() + e),
            None => None,
        }),
{
    let s = a + b;
    let n = a.len() as int;
    lemma_opening();
    if i + 3 <= b.len() {
        assert(s.subrange(n + i, n + i + 3) =~= b.subrange(i, i + 3));
        lemma_seek_shift(a, b, '}', i + 3);
        lemma_seek(b, '}', i + 3);
    }
}

proof fn lemma_resolved_shift(a: Seq<char>, b: Seq<char>, c: RunContextView, i: int)
    requires
        0 <= i <= b.len(),
    ensures
        resolved_from(a + b, c, a.len() + i) == resolved_from(b, c, i),
    decreases b.len() - i,
{
    let s = a + b;
    let n = a.len() as int;
    if i < b.len() {
        lemma_expr_shift(a, b, i);
        lemma_expr_end(b, i);
        match expr_end(b, i) {
            Some(e) => {
                assert(s.subrange(n + i + 3, n + e) =~= b.subrange(i + 3, e));
                assert(s.subrange(n + i, n + e + 2) =~= b.subrange(i, e + 2));
                lemma_resolved_shift(a, b, c, e + 2);
            },
            None => {
                assert(s[n + i] == b[i]);
                lemma_resolved_shift(a, b, c, i + 1);
            },
        }
    }
}

proof fn lemma_plain_front(s: Seq<char>, c: RunContextView, i: int, n: int)
    requires
        0 <= i <= n <= s.len(),
        forall|k: int|
            0 <= k < n && k + 2 < s.len() ==> !((#[trigger] s[k]) == '$' && s[k + 1] == '{' && s[k
                + 2] == '{'),
    ensures
        resolved_from(s, c, i) == s.subrange(i, n) + resolved_from(s, c, n),
    decreases n - i,
{
    if i < n {
        lemma_opening();
        if occurs_at(s, "${{"@, i) {
            let t = s.subrange(i, i + 3);
            assert(t[0] == '$' && t[1] == '{' && t[2] == '{');
            assert(s[i] == '$' && s[i + 1] == '{' && s[i + 2] == '{');
        }
        lemma_plain_front(s, c, i + 1, n);
        assert(seq![s[i]] + (s.subrange(i + 1, n) + resolved_from(s, c, n)) =~= s.subrange(i, n)
            + resolved_from(s, c, n));
    } else {
        assert(s.subrange(i, n) + resolved_from(s, c, n) =~= resolved_from(s, c, n));
    }
}

/// A text is replaced piece by piece. What stands before the first expression is kept; the
/// expression, white space around it aside, is replaced by the text of its value, and stays as
/// it is written if it has no value or is null; and what follows it is replaced as if it stood
/// alone.
pub proof fn law_expression_replaced(
    before: Seq<char>,
    expr: Seq<char>,
    after: Seq<char>,
    c: RunContextView,
)
    requires
        forall|k: int|
            0 <= k < before.len() && k + 2 < (before + "${{"@ + expr + "}}"@ + after).len() ==> !((
            #[trigger] (before + "${{"@ + expr + "}}"@ + after)[k]) == '$' && (before + "${{"@
                + expr + "}}"@ + after)[k + 1] == '{' && (before + "${{"@ + expr + "}}"@ + after)[k
                + 2] == '{'),
        expr.len() > 0,
        !expr.contains('}'),
    ensures
        resolved(before + "${{"@ + expr + "}}"@ + after, c) == before + (match value_of(
            c,
            trim(expr),
        ) {
            None => "${{"@ + expr + "}}"@,
            Some(JsonView::Null) => "${{"@ + expr + "}}"@,
            Some(v) => js_text(v),
        }) + resolved(after, c),
{
    let s = before + "${{"@ + expr + "}}"@ + after;
    let n = before.len() as int;
    let e = n + 3 + expr.len();
    lemma_opening();
    lemma_closing();
    lemma_plain_front(s, c, 0, n);
    assert(s.subrange(0, n) =~= before);
    assert(s.subrange(n, n + 3) =~= "${{"@);
    assert(occurs_at(s, "${{"@, n));
    assert forall|k: int| n + 3 <= k < e implies s[k] != '}' by {
        assert(s[k] == expr[k - n - 3]);
        assert(expr.contains(expr[k - n - 3]));
    }
    assert(s[e] == '}' && s[e + 1] == '}');
    lemma_seek_is(s, '}', n + 3, e);
    assert(expr_end(s, n) == Some(e));
    assert(s.subrange(n + 3, e) =~= expr);
    assert(s.subrange(n, e + 2) =~= "${{"@ + expr + "}}"@);
    let front = before + "${{"@ + expr + "}}"@;
    assert(s =~= front + after);
    lemma_resolved_shift(front, after, c, 0);
    let mid = substituted(s, c, n, e);
    assert(before + (mid + resolved(after, c)) =~= before + mid + resolved(after, c));
}

/// A text that is one expression is replaced by the value of it: whole, and nothing else.
pub proof fn law_whole_expression(expr: Seq<char>, v: Seq<char>, c: RunContextView)
    requires
        expr.len() > 0,
        !expr.contains('}'),
        value_of(c, trim(expr)) == Some(JsonView::Str(v)),
    ensures
        resolved("${{"@ + expr + "}}"@, c) == v,
{
    let none = Seq::<char>::empty();
    assert(none + "${{"@ + expr + "}}"@ + none =~= "${{"@ + expr + "}}"@);
    law_expression_replaced(none, expr, none, c);
    assert(none + v + resolved(none, c) =~= v);
}

proof fn lemma_after_prefix(p: Seq<char>, rest: Seq<char>)
    ensures
        after_prefix(p + rest, p) == Some(rest),
{
    assert((p + rest).subrange(0, p.len() as int) =~= p);
    assert((p + rest).skip(p.len() as int) =~= rest);
}

proof fn lemma_other_first(s: Seq<char>, p: Seq<char>)
    requires
        s.len() > 0,
        p.len() > 0,
        s[0] != p[0],
    ensures
        after_prefix(s, p) is None,
{
    if occurs_at(s, p, 0) {
        assert(s.subrange(0, p.len() as int)[0] == s[0]);
    }
}

/// A variable is found by its name, with or without `vars.` before it: the value is that of the
/// first entry of that name, and there is none if no entry has it. Only the words for outputs
/// are kept from plain names.
pub proof fn law_variable_found(c: RunContextView, name: Seq<char>)
    ensures
        value_of(c, "vars."@ + name) == lookup(c.vars, name),
        after_prefix(name, "steps."@) is None && after_prefix(name, "requests."@) is None
            && after_prefix(name, "vars."@) is None ==> value_of(c, name) == lookup(c.vars, name),
        forall|i: int|
            0 <= i < c.vars.len() && (#[trigger] c.vars[i]).0 == name && (forall|j: int|
                0 <= j < i ==> (#[trigger] c.vars[j]).0 != name) ==> value_of(c, "vars."@ + name)
                == Some(c.vars[i].1),
        (forall|i: int| 0 <= i < c.vars.len() ==> (#[trigger] c.vars[i]).0 != name) ==> value_of(
            c,
            "vars."@ + name,
        ) is None,
{
    reveal_strlit("vars.");
    reveal_strlit("steps.");
    reveal_strlit("requests.");
    let e = "vars."@ + name;
    lemma_other_first(e, "steps."@);
    lemma_other_first(e, "requests."@);
    lemma_after_prefix("vars."@, name);
    assert forall|i: int|
        0 <= i < c.vars.len() && (#[trigger] c.vars[i]).0 == name && (forall|j: int|
            0 <= j < i ==> (#[trigger] c.vars[j]).0 != name) implies value_of(c, "vars."@ + name)
        == Some(c.vars[i].1) by {
        lemma_key_at_is(c.vars, name, 0, i);
    }
    if forall|i: int| 0 <= i < c.vars.len() ==> (#[trigger] c.vars[i]).0 != name {
        lemma_key_at_is(c.vars, name, 0, c.vars.len() as int);
    }
}

/// An output is found by the id of its step and its own name, under either word for steps; a
/// step that has no outputs in the context gives none.
pub proof fn law_output_found(c: RunContextView, id: Seq<char>, name: Seq<char>)
    requires
        !id.contains('.'),
    ensures
        value_of(c, "steps."@ + id + ".outputs."@ + name) == (match lookup(c.steps, id) {
            Some(outs) => lookup(outs, name),
            None => None,
        }),
        value_of(c, "requests."@ + id + ".outputs."@ + name) == value_of(
            c,
            "steps."@ + id + ".outputs."@ + name,
        ),
{
    reveal_strlit("steps.");
    reveal_strlit("requests.");
    reveal_strlit(".outputs.");
    reveal_strlit("outputs.");
    let rest = id + ".outputs."@ + name;
    let n = id.len() as int;
    assert("steps."@ + id + ".outputs."@ + name =~= "steps."@ + rest);
    assert("requests."@ + id + ".outputs."@ + name =~= "requests."@ + rest);
    lemma_after_prefix("steps."@, rest);
    lemma_after_prefix("requests."@, rest);
    lemma_other_first("requests."@ + rest, "steps."@);
    assert forall|k: int| 0 <= k < n implies rest[k] != '.' by {
        assert(rest[k] == id[k]);
        assert(id.contains(id[k]));
    }
    assert(rest[n] == '.');
    lemma_seek_is(rest, '.', 0, n);
    assert(rest.take(n) =~= id);
    assert(".outputs."@.skip(1) =~= "outputs."@);
    assert(rest.skip(n + 1) =~= "outputs."@ + name);
    lemma_after_prefix("outputs."@, name);
}

/// Without variables of a case, those of the environment count.
pub proof fn law_environment_alone(env: Seq<(Seq<char>, Seq<char>)>, k: Seq<char>)
    requires
        distinct(env),
    ensures
        lookup(merged_vars(env, None), k) == (match lookup(env, k) {
            Some(t) => Some(JsonView::Str(t)),
            None => None,
        }),
{
    let none = Seq::<(Seq<char>, JsonView)>::empty();
    law_case_vars_override(env, none, k);
    lemma_key_at_is(none, k, 0, 0);
    assert(put_all_sorted(put_all_sorted(none, as_strings(env)), none) == put_all_sorted(
        none,
        as_strings(env),
    ));
}

/// Every text that a request sends is replaced: the URL, the names and values of the query and
/// the headers, each credential, and each part of the body. Nothing else of it changes: the
/// method, the order of rows, what is switched off, and the kinds of things.
pub proof fn law_every_field_replaced(h: HttpSpecView, c: RunContextView)
    ensures
        resolved_http(h, c).method == h.method,
        resolved_http(h, c).url == resolved(h.url, c),
        rows_replaced(h.query, resolved_http(h, c).query, c),
        rows_replaced(h.headers, resolved_http(h, c).headers, c),
        resolved_http(h, c).auth.kind == h.auth.kind,
        match h.auth.bearer {
            None => resolved_http(h, c).auth.bearer is None,
            Some(b) => match resolved_http(h, c).auth.bearer {
                None => false,
                Some(r) => r.token == resolved(b.token, c),
            },
        },
        match h.auth.basic {
            None => resolved_http(h, c).auth.basic is None,
            Some(b) => match resolved_http(h, c).auth.basic {
                None => false,
                Some(r) => r.username == resolved(b.username, c) && r.password == resolved(
                    b.password,
                    c,
                ),
            },
        },
        match h.auth.apikey {
            None => resolved_http(h, c).auth.apikey is None,
            Some(k) => match resolved_http(h, c).auth.apikey {
                None => false,
                Some(r) => r.key == resolved(k.key, c) && r.value == resolved(k.value, c) && r.place
                    == k.place,
            },
        },
        match h.auth.digest {
            None => resolved_http(h, c).auth.digest is None,
            Some(d) => match resolved_http(h, c).auth.digest {
                None => false,
                Some(r) => r.username == resolved(d.username, c) && r.password == resolved(
                    d.password,
                    c,
                ),
            },
        },
        match h.auth.oauth2 {
            None => resolved_http(h, c).auth.oauth2 is None,
            Some(o) => match resolved_http(h, c).auth.oauth2 {
                None => false,
                Some(r) => {
                    &&& r.token_url == resolved(o.token_url, c)
                    &&& r.client_id == resolved(o.client_id, c)
                    &&& r.client_secret == resolved(o.client_secret, c)
                    &&& text_replaced(o.scope, r.scope, c)
                    &&& r.client_auth == o.client_auth
                },
            },
        },
        resolved_http(h, c).body.kind == h.body.kind,
        text_replaced(h.body.xml, resolved_http(h, c).body.xml, c),
        text_replaced(h.body.text, resolved_http(h, c).body.text, c),
        text_replaced(h.body.content_type, resolved_http(h, c).body.content_type, c),
        text_replaced(h.body.file_path, resolved_http(h, c).body.file_path, c),
        match h.body.json {
            None => resolved_http(h, c).body.json is None,
            Some(j) => resolved_http(h, c).body.json == Some(resolved_json(j, c)),
        },
        match h.body.urlencoded {
            None => resolved_http(h, c).body.urlencoded is None,
            Some(l) => match resolved_http(h, c).body.urlencoded {
                None => false,
                Some(r) => rows_replaced(l, r, c),
            },
        },
        match h.body.form_data {
            None => resolved_http(h, c).body.form_data is None,
            Some(l) => match resolved_http(h, c).body.form_data {
                None => false,
                Some(r) => fields_replaced(l, r, c),
            },
        },
{
}

/// Whether a text that may be missing is the replaced one of another.
pub open spec fn text_replaced(
    from: Option<Seq<char>>,
    to: Option<Seq<char>>,
    c: RunContextView,
) -> bool {
    match from {
        Some(t) => to == Some(resolved(t, c)),
        None => to is None,
    }
}

/// Whether rows are the replaced ones of others: names and values are replaced, the rest is kept.
pub open spec fn rows_replaced(from: Seq<KvView>, to: Seq<KvView>, c: RunContextView) -> bool {
    &&& to.len() == from.len()
    &&& forall|i: int|
        0 <= i < from.len() ==> {
            &&& (#[trigger] to[i]).name == resolved(from[i].name, c)
            &&& to[i].value == resolved(from[i].value, c)
            &&& to[i].enabled == from[i].enabled
            &&& to[i].description == from[i].description
        }
}

/// Whether form fields are the replaced ones of others: names and values are replaced, the rest
/// is kept.
pub open spec fn fields_replaced(
    from: Seq<FormItemView>,
    to: Seq<FormItemView>,
    c: RunContextView,
) -> bool {
    &&& to.len() == from.len()
    &&& forall|i: int|
        0 <= i < from.len() ==> {
            &&& (#[trigger] to[i]).name == resolved(from[i].name, c)
            &&& to[i].value == resolved(from[i].value, c)
            &&& to[i].enabled == from[i].enabled
            &&& to[i].description == from[i].description
            &&& to[i].kind == from[i].kind
        }
}

/// The texts of a JSON body are replaced at every depth: a string, each item of an array in its
/// place, and each member of an object in its place, its name too, where no two names meet.
pub proof fn law_json_replaced(v: JsonView, c: RunContextView)
    ensures
        match v {
            JsonView::Str(s) => resolved_json(v, c) == JsonView::Str(resolved(s, c)),
            JsonView::Array(a) => match resolved_json(v, c) {
                JsonView::Array(r) => r.len() == a.len() && forall|i: int|
                    0 <= i < a.len() ==> #[trigger] r[i] == resolved_json(a[i], c),
                _ => false,
            },
            JsonView::Object(m) => (forall|i: int, j: int|
                0 <= i < j < m.len() ==> resolved((#[trigger] m[i]).0, c) != resolved(
                    (#[trigger] m[j]).0,
                    c,
                )) ==> match resolved_json(v, c) {
                JsonView::Object(r) => r.len() == m.len() && forall|i: int|
                    0 <= i < m.len() ==> (#[trigger] r[i]).0 == resolved(m[i].0, c) && r[i].1
                        == resolved_json(m[i].1, c),
                _ => false,
            },
            other => resolved_json(v, c) == other,
        },
{
    if let JsonView::Object(m) = v {
        if forall|i: int, j: int|
            0 <= i < j < m.len() ==> resolved((#[trigger] m[i]).0, c) != resolved(
                (#[trigger] m[j]).0,
                c,
            ) {
            let es = resolved_members(m, c);
            assert(distinct(es)) by {
                assert forall|i: int, j: int| 0 <= i < j < es.len() implies (#[trigger] es[i]).0
                    != (#[trigger] es[j]).0 by {
                    assert(resolved(m[i].0, c) != resolved(m[j].0, c));
                }
            }
            lemma_put_all_distinct(es);
        }
    }
}

} // verus!
