//! Case files: reading a case from YAML and writing it back.
//!
//! Case files are written by hand, so only a text that is not YAML is an error. Everything
//! else falls back: an unknown word, a missing field or a value of another type gives the
//! default. What equals the default is not written.
use crate::emit::{to_yaml, yaml_text};
use crate::json::{
    field_text, has_member, lemma_view, member, put_member, reprint_number, reprinted, scalar_field,
    Json, JsonView, Member,
};
use crate::model::{
    assert_op_name, assert_op_of, auth_type_name, auth_type_of, body_type_of, empty_apikey,
    empty_basic, empty_bearer, empty_body, empty_digest, empty_oauth2, no_auth, takes_value,
    ApikeyAuth, ApikeyAuthView, ApikeyIn, AssertOp, Assertion, AssertionView, AuthSpec,
    AuthSpecView, AuthType, BasicAuth, BasicAuthView, BearerAuth, BearerAuthView, BodySpec,
    BodySpecView, BodyType, CASE_VERSION, Case, CaseView, ClientAuth, DigestAuth, DigestAuthView,
    FormItem, FormItemView, FormKind, HttpSpec, HttpSpecView, Kv, KvView, Oauth2Auth,
    Oauth2AuthView, Step, StepOutput, StepOutputView, StepUi, StepUiView, StepView,
};
use crate::number::{
    decimal, digits_value, fraction_part, parts_of, print_number, printed, saturating_value,
    whole_part, Number, NumberView, Parts,
};
use crate::table::{has_key, lookup, put};
use crate::text::{
    blank, cat, copy_text, duplicate_opt, duplicates, empty, is_blank, lemma_views_push, nat_text,
    opt_view, same, to_upper, trim, trimmed, uppercase, usize_text, views, Duplicate,
};
use crate::yaml::{load, load_view, loaded};
use vstd::prelude::*;

verus! {

// ---- fields ----------------------------------------------------------------------------

/// The text of a member; a missing one is empty.
pub open spec fn field(m: Seq<(Seq<char>, JsonView)>, k: Seq<char>) -> Seq<char> {
    field_text(lookup(m, k))
}

/// The text of a member, where an empty text is none.
pub open spec fn opt_field(m: Seq<(Seq<char>, JsonView)>, k: Seq<char>) -> Option<Seq<char>> {
    if field(m, k).len() == 0 {
        None
    } else {
        Some(field(m, k))
    }
}

/// The members of a value; one that is no object has none.
pub open spec fn members(v: Option<JsonView>) -> Seq<(Seq<char>, JsonView)> {
    match v {
        Some(JsonView::Object(m)) => m,
        _ => seq![],
    }
}

/// The elements of a value; one that is no array has none.
pub open spec fn elements(v: Option<JsonView>) -> Seq<JsonView> {
    match v {
        Some(JsonView::Array(a)) => a,
        _ => seq![],
    }
}

/// The view of a value that may be missing.
pub open spec fn seen(v: Option<&Json>) -> Option<JsonView> {
    match v {
        Some(j) => Some(j@),
        None => None,
    }
}

/// The view of members that may be missing.
pub open spec fn seen_members(m: Option<&Vec<Member>>) -> Seq<(Seq<char>, JsonView)> {
    match m {
        Some(m) => views(m@),
        None => seq![],
    }
}

/// The text of a member.
pub(crate) fn sf(m: &Vec<Member>, k: &str) -> (r: String)
    ensures
        r@ == field(views(m@), k@),
{
    match member(m, k) {
        Some(v) => scalar_field(v),
        None => String::new(),
    }
}

/// The text of a member, where an empty text is none.
pub(crate) fn opt_str(m: &Vec<Member>, k: &str) -> (r: Option<String>)
    ensures
        opt_view(r) == opt_field(views(m@), k@),
{
    let s: String = sf(m, k);
    if empty(s.as_str()) {
        None
    } else {
        Some(s)
    }
}

/// The members of a value.
pub(crate) fn members_of<'a>(v: Option<&'a Json>) -> (r: Option<&'a Vec<Member>>)
    ensures
        seen_members(r) == members(seen(v)),
        r is Some <==> seen(v) matches Some(JsonView::Object(_)),
{
    match v {
        Some(j) => j.as_object(),
        None => None,
    }
}

/// The text of a member of a value.
pub(crate) fn sub_field(m: Option<&Vec<Member>>, k: &str) -> (r: String)
    ensures
        r@ == field(seen_members(m), k@),
{
    match m {
        Some(m) => sf(m, k),
        None => String::new(),
    }
}

/// The elements of a value.
pub(crate) fn elements_of<'a>(v: Option<&'a Json>) -> (r: Option<&'a Vec<Json>>)
    ensures
        match r {
            Some(a) => elements(seen(v)) == views(a@),
            None => elements(seen(v)) == Seq::<JsonView>::empty(),
        },
{
    match v {
        Some(j) => j.as_array(),
        None => None,
    }
}

// ---- reading ---------------------------------------------------------------------------

/// A row of a list. Only an explicit `enabled: false` disables it.
pub open spec fn row_read(m: Seq<(Seq<char>, JsonView)>) -> KvView {
    KvView {
        name: field(m, "name"@),
        value: field(m, "value"@),
        enabled: lookup(m, "enabled"@) != Some(JsonView::Bool(false)),
        description: opt_field(m, "description"@),
    }
}

/// The rows of a list; what is no object is passed over.
pub open spec fn rows_read(a: Seq<JsonView>) -> Seq<KvView>
    decreases a.len(),
{
    if a.len() == 0 {
        seq![]
    } else {
        match a.last() {
            JsonView::Object(m) => rows_read(a.drop_last()).push(row_read(m)),
            _ => rows_read(a.drop_last()),
        }
    }
}

/// Whether a member is the truth value given.
pub(crate) fn is_bool(m: &Vec<Member>, k: &str, b: bool) -> (r: bool)
    ensures
        r == (lookup(views(m@), k@) == Some(JsonView::Bool(b))),
{
    match member(m, k) {
        Some(v) => match v {
            Json::Bool(c) => *c == b,
            _ => false,
        },
        None => false,
    }
}

fn norm_kv_row(m: &Vec<Member>) -> (r: Kv)
    ensures
        r@ == row_read(views(m@)),
{
    Kv {
        name: sf(m, "name"),
        value: sf(m, "value"),
        enabled: !is_bool(m, "enabled", false),
        description: opt_str(m, "description"),
    }
}

/// Reads the rows of a list.
fn norm_kv(v: Option<&Json>) -> (r: Vec<Kv>)
    ensures
        views(r@) == rows_read(elements(seen(v))),
{
    let mut out: Vec<Kv> = Vec::new();
    assert(views(out@) =~= seq![]);
    if let Some(a) = elements_of(v) {
        let ghost w = views(a@);
        assert(w.take(0) =~= seq![]);
        let mut i: usize = 0;
        while i < a.len()
            invariant
                i <= a@.len(),
                w == views(a@),
                views(out@) == rows_read(w.take(i as int)),
            decreases a@.len() - i,
        {
            proof {
                assert(w.take(i + 1).drop_last() =~= w.take(i as int));
                assert(w.take(i + 1).last() == a@[i as int]@);
            }
            if let Some(m) = a[i].as_object() {
                let row: Kv = norm_kv_row(m);
                proof {
                    lemma_views_push(out@, row);
                }
                out.push(row);
            }
            i = i + 1;
        }
        assert(w.take(w.len() as int) =~= w);
    }
    out
}

/// A field of a form. Only `type: file` makes it a file.
pub open spec fn form_item_read(m: Seq<(Seq<char>, JsonView)>) -> FormItemView {
    FormItemView {
        name: row_read(m).name,
        value: row_read(m).value,
        enabled: row_read(m).enabled,
        description: row_read(m).description,
        kind: if field(m, "type"@) == "file"@ {
            Some(FormKind::File)
        } else {
            None
        },
    }
}

/// The fields of a form; what is no object is passed over.
pub open spec fn form_read(a: Seq<JsonView>) -> Seq<FormItemView>
    decreases a.len(),
{
    if a.len() == 0 {
        seq![]
    } else {
        match a.last() {
            JsonView::Object(m) => form_read(a.drop_last()).push(form_item_read(m)),
            _ => form_read(a.drop_last()),
        }
    }
}

/// Reads the fields of a form.
fn norm_form(v: Option<&Json>) -> (r: Vec<FormItem>)
    ensures
        views(r@) == form_read(elements(seen(v))),
{
    let mut out: Vec<FormItem> = Vec::new();
    assert(views(out@) =~= seq![]);
    if let Some(a) = elements_of(v) {
        let ghost w = views(a@);
        assert(w.take(0) =~= seq![]);
        let mut i: usize = 0;
        while i < a.len()
            invariant
                i <= a@.len(),
                w == views(a@),
                views(out@) == form_read(w.take(i as int)),
            decreases a@.len() - i,
        {
            proof {
                assert(w.take(i + 1).drop_last() =~= w.take(i as int));
                assert(w.take(i + 1).last() == a@[i as int]@);
            }
            if let Some(m) = a[i].as_object() {
                let row: Kv = norm_kv_row(m);
                let item: FormItem = FormItem {
                    name: row.name,
                    value: row.value,
                    enabled: row.enabled,
                    description: row.description,
                    kind: if same(sf(m, "type").as_str(), "file") {
                        Some(FormKind::File)
                    } else {
                        None
                    },
                };
                proof {
                    lemma_views_push(out@, item);
                }
                out.push(item);
            }
            i = i + 1;
        }
        assert(w.take(w.len() as int) =~= w);
    }
    out
}

/// How a request is authenticated. The part of the type that is chosen is always there, with
/// empty texts for what is missing.
pub open spec fn auth_read(v: Option<JsonView>) -> AuthSpecView {
    match v {
        Some(JsonView::Object(m)) => {
            let kind = auth_type_of(field(m, "type"@));
            let bearer = members(lookup(m, "bearer"@));
            let basic = members(lookup(m, "basic"@));
            let apikey = members(lookup(m, "apikey"@));
            let digest = members(lookup(m, "digest"@));
            let oauth2 = members(lookup(m, "oauth2"@));
            AuthSpecView {
                kind,
                bearer: if kind == AuthType::Bearer {
                    Some(BearerAuthView { token: field(bearer, "token"@) })
                } else {
                    None
                },
                basic: if kind == AuthType::Basic {
                    Some(
                        BasicAuthView {
                            username: field(basic, "username"@),
                            password: field(basic, "password"@),
                        },
                    )
                } else {
                    None
                },
                apikey: if kind == AuthType::Apikey {
                    Some(
                        ApikeyAuthView {
                            key: field(apikey, "key"@),
                            value: field(apikey, "value"@),
                            place: if field(apikey, "in"@) == "query"@ {
                                ApikeyIn::Query
                            } else {
                                ApikeyIn::Header
                            },
                        },
                    )
                } else {
                    None
                },
                digest: if kind == AuthType::Digest {
                    Some(
                        DigestAuthView {
                            username: field(digest, "username"@),
                            password: field(digest, "password"@),
                        },
                    )
                } else {
                    None
                },
                oauth2: if kind == AuthType::Oauth2 {
                    Some(
                        Oauth2AuthView {
                            token_url: field(oauth2, "tokenUrl"@),
                            client_id: field(oauth2, "clientId"@),
                            client_secret: field(oauth2, "clientSecret"@),
                            scope: opt_field(oauth2, "scope"@),
                            client_auth: if field(oauth2, "clientAuth"@) == "body"@ {
                                ClientAuth::Body
                            } else {
                                ClientAuth::Header
                            },
                        },
                    )
                } else {
                    None
                },
            }
        },
        _ => no_auth(),
    }
}

/// Reads how a request is authenticated.
fn norm_auth(v: Option<&Json>) -> (r: AuthSpec)
    ensures
        r@ == auth_read(seen(v)),
{
    let m: &Vec<Member> = match members_of(v) {
        Some(m) => m,
        None => {
            return AuthSpec::default();
        },
    };
    let kind: AuthType = AuthType::from(sf(m, "type").as_str());
    let mut out: AuthSpec = AuthSpec::default();
    out.kind = kind;
    match kind {
        AuthType::Bearer => {
            let b: Option<&Vec<Member>> = members_of(member(m, "bearer"));
            out.bearer = Some(BearerAuth { token: sub_field(b, "token") });
        },
        AuthType::Basic => {
            let b: Option<&Vec<Member>> = members_of(member(m, "basic"));
            out.basic =
            Some(BasicAuth { username: sub_field(b, "username"), password: sub_field(b, "password") });
        },
        AuthType::Apikey => {
            let k: Option<&Vec<Member>> = members_of(member(m, "apikey"));
            out.apikey =
            Some(
                ApikeyAuth {
                    key: sub_field(k, "key"),
                    value: sub_field(k, "value"),
                    place: if same(sub_field(k, "in").as_str(), "query") {
                        ApikeyIn::Query
                    } else {
                        ApikeyIn::Header
                    },
                },
            );
        },
        AuthType::Digest => {
            let d: Option<&Vec<Member>> = members_of(member(m, "digest"));
            out.digest =
            Some(DigestAuth { username: sub_field(d, "username"), password: sub_field(d, "password") });
        },
        AuthType::Oauth2 => {
            let o: Option<&Vec<Member>> = members_of(member(m, "oauth2"));
            let scope: String = sub_field(o, "scope");
            out.oauth2 =
            Some(
                Oauth2Auth {
                    token_url: sub_field(o, "tokenUrl"),
                    client_id: sub_field(o, "clientId"),
                    client_secret: sub_field(o, "clientSecret"),
                    scope: if empty(scope.as_str()) {
                        None
                    } else {
                        Some(scope)
                    },
                    client_auth: if same(sub_field(o, "clientAuth").as_str(), "body") {
                        ClientAuth::Body
                    } else {
                        ClientAuth::Header
                    },
                },
            );
        },
        AuthType::NoAuth => {},
    }
    out
}

/// The body of a request. Only the part of the type that is chosen is read.
pub open spec fn body_read(v: Option<JsonView>) -> BodySpecView {
    match v {
        Some(JsonView::Object(m)) => {
            let kind = body_type_of(field(m, "type"@));
            BodySpecView {
                kind,
                json: if kind == BodyType::Json {
                    lookup(m, "json"@)
                } else {
                    None
                },
                xml: if kind == BodyType::Xml {
                    Some(field(m, "xml"@))
                } else {
                    None
                },
                text: if kind == BodyType::Text {
                    Some(field(m, "text"@))
                } else {
                    None
                },
                content_type: if kind == BodyType::Text || kind == BodyType::Binary {
                    opt_field(m, "contentType"@)
                } else {
                    None
                },
                urlencoded: if kind == BodyType::FormUrlencoded {
                    Some(rows_read(elements(lookup(m, "urlencoded"@))))
                } else {
                    None
                },
                form_data: if kind == BodyType::FormData {
                    Some(form_read(elements(lookup(m, "formData"@))))
                } else {
                    None
                },
                file_path: if kind == BodyType::Binary {
                    Some(field(m, "filePath"@))
                } else {
                    None
                },
            }
        },
        _ => empty_body(),
    }
}

/// Reads the body of a request.
fn norm_body(v: Option<&Json>) -> (r: BodySpec)
    ensures
        r@ == body_read(seen(v)),
{
    let m: &Vec<Member> = match members_of(v) {
        Some(m) => m,
        None => {
            return BodySpec::default();
        },
    };
    let kind: BodyType = BodyType::from(sf(m, "type").as_str());
    let mut out: BodySpec = BodySpec::default();
    out.kind = kind;
    match kind {
        BodyType::Json => {
            out.json = match member(m, "json") {
                Some(j) => Some(j.copy()),
                None => None,
            };
        },
        BodyType::Xml => {
            out.xml = Some(sf(m, "xml"));
        },
        BodyType::Text => {
            out.text = Some(sf(m, "text"));
            out.content_type = opt_str(m, "contentType");
        },
        BodyType::FormUrlencoded => {
            out.urlencoded = Some(norm_kv(member(m, "urlencoded")));
        },
        BodyType::FormData => {
            out.form_data = Some(norm_form(member(m, "formData")));
        },
        BodyType::Binary => {
            out.file_path = Some(sf(m, "filePath"));
            out.content_type = opt_str(m, "contentType");
        },
        BodyType::NoBody => {},
    }
    out
}

/// The request of a step. A missing method is `GET`.
pub open spec fn http_read(v: Option<JsonView>) -> HttpSpecView {
    let m = members(v);
    HttpSpecView {
        method: if field(m, "method"@).len() == 0 {
            "GET"@
        } else {
            uppercase(field(m, "method"@))
        },
        url: field(m, "url"@),
        query: rows_read(elements(lookup(m, "query"@))),
        headers: rows_read(elements(lookup(m, "headers"@))),
        auth: auth_read(lookup(m, "auth"@)),
        body: body_read(lookup(m, "body"@)),
    }
}

/// The value of a member of members that may be missing.
pub(crate) fn sub_member<'a>(m: Option<&'a Vec<Member>>, k: &str) -> (r: Option<&'a Json>)
    ensures
        seen(r) == lookup(seen_members(m), k@),
{
    match m {
        Some(m) => member(m, k),
        None => None,
    }
}

/// Reads the request of a step.
fn norm_http(v: Option<&Json>) -> (r: HttpSpec)
    ensures
        r@ == http_read(seen(v)),
{
    let m: Option<&Vec<Member>> = members_of(v);
    let method: String = sub_field(m, "method");
    HttpSpec {
        method: if empty(method.as_str()) {
            copy_text("GET")
        } else {
            to_upper(method.as_str())
        },
        url: sub_field(m, "url"),
        query: norm_kv(sub_member(m, "query")),
        headers: norm_kv(sub_member(m, "headers")),
        auth: norm_auth(sub_member(m, "auth")),
        body: norm_body(sub_member(m, "body")),
    }
}

/// The variables that a step gives, in the order in which they are written.
pub open spec fn outputs_read(m: Seq<(Seq<char>, JsonView)>) -> Seq<StepOutputView> {
    Seq::new(m.len(), |i: int| StepOutputView { name: m[i].0, path: field_text(Some(m[i].1)) })
}

/// Reads the variables that a step gives.
fn norm_outputs(v: Option<&Json>) -> (r: Vec<StepOutput>)
    ensures
        views(r@) == outputs_read(members(seen(v))),
{
    let mut out: Vec<StepOutput> = Vec::new();
    if let Some(m) = members_of(v) {
        let mut i: usize = 0;
        while i < m.len()
            invariant
                i <= m@.len(),
                out@.len() == i,
                forall|k: int|
                    0 <= k < i ==> (#[trigger] out@[k])@ == (StepOutputView {
                        name: m@[k].name@,
                        path: field_text(Some(m@[k].value@)),
                    }),
            decreases m@.len() - i,
        {
            out.push(
                StepOutput { name: copy_text(m[i].name.as_str()), path: scalar_field(&m[i].value) },
            );
            i = i + 1;
        }
        assert(views(out@) =~= outputs_read(views(m@)));
    }
    assert(views(out@) =~= outputs_read(members(seen(v))));
    out
}

/// An assertion. An unknown operator is `eq`.
pub open spec fn assertion_read(m: Seq<(Seq<char>, JsonView)>) -> AssertionView {
    AssertionView {
        target: field(m, "target"@),
        op: assert_op_of(field(m, "op"@)),
        value: match lookup(m, "value"@) {
            None => None,
            Some(JsonView::Null) => None,
            Some(v) => Some(field_text(Some(v))),
        },
    }
}

/// The assertions of a step; one without a target cannot be evaluated and is passed over.
pub open spec fn assertions_read(a: Seq<JsonView>) -> Seq<AssertionView>
    decreases a.len(),
{
    if a.len() == 0 {
        seq![]
    } else {
        let rest = assertions_read(a.drop_last());
        match a.last() {
            JsonView::Object(m) => if assertion_read(m).target.len() == 0 {
                rest
            } else {
                rest.push(assertion_read(m))
            },
            _ => rest,
        }
    }
}

/// Reads the assertions of a step.
fn norm_assertions(v: Option<&Json>) -> (r: Vec<Assertion>)
    ensures
        views(r@) == assertions_read(elements(seen(v))),
{
    let mut out: Vec<Assertion> = Vec::new();
    assert(views(out@) =~= seq![]);
    if let Some(a) = elements_of(v) {
        let ghost w = views(a@);
        assert(w.take(0) =~= seq![]);
        let mut i: usize = 0;
        while i < a.len()
            invariant
                i <= a@.len(),
                w == views(a@),
                views(out@) == assertions_read(w.take(i as int)),
            decreases a@.len() - i,
        {
            proof {
                assert(w.take(i + 1).drop_last() =~= w.take(i as int));
                assert(w.take(i + 1).last() == a@[i as int]@);
            }
            if let Some(m) = a[i].as_object() {
                let one: Assertion = Assertion {
                    target: sf(m, "target"),
                    op: AssertOp::from(sf(m, "op").as_str()),
                    value: match member(m, "value") {
                        None => None,
                        Some(v) => if v.is_null() {
                            None
                        } else {
                            Some(scalar_field(v))
                        },
                    },
                };
                if !empty(one.target.as_str()) {
                    proof {
                        lemma_views_push(out@, one);
                    }
                    out.push(one);
                }
            }
            i = i + 1;
        }
        assert(w.take(w.len() as int) =~= w);
    }
    out
}

/// The ids of the steps that a step depends on; an empty one is passed over.
pub open spec fn depends_read(a: Seq<JsonView>) -> Seq<Seq<char>>
    decreases a.len(),
{
    if a.len() == 0 {
        seq![]
    } else if field_text(Some(a.last())).len() == 0 {
        depends_read(a.drop_last())
    } else {
        depends_read(a.drop_last()).push(field_text(Some(a.last())))
    }
}

/// Reads the ids of the steps that a step depends on.
fn norm_depends(v: Option<&Json>) -> (r: Vec<String>)
    ensures
        views(r@) == depends_read(elements(seen(v))),
{
    let mut out: Vec<String> = Vec::new();
    assert(views(out@) =~= seq![]);
    if let Some(a) = elements_of(v) {
        let ghost w = views(a@);
        assert(w.take(0) =~= seq![]);
        let mut i: usize = 0;
        while i < a.len()
            invariant
                i <= a@.len(),
                w == views(a@),
                views(out@) == depends_read(w.take(i as int)),
            decreases a@.len() - i,
        {
            proof {
                assert(w.take(i + 1).drop_last() =~= w.take(i as int));
                assert(w.take(i + 1).last() == a@[i as int]@);
            }
            let id: String = scalar_field(&a[i]);
            if !empty(id.as_str()) {
                proof {
                    lemma_views_push(out@, id);
                }
                out.push(id);
            }
            i = i + 1;
        }
        assert(w.take(w.len() as int) =~= w);
    }
    out
}

/// Where an editor shows a step: both coordinates must be numbers.
pub open spec fn ui_read(v: Option<JsonView>) -> Option<StepUiView> {
    match (lookup(members(v), "x"@), lookup(members(v), "y"@)) {
        (Some(JsonView::Number(x)), Some(JsonView::Number(y))) => Some(StepUiView { x, y }),
        _ => None,
    }
}

/// Reads where an editor shows a step.
fn norm_step_ui(v: Option<&Json>) -> (r: Option<StepUi>)
    ensures
        opt_view(r) == ui_read(seen(v)),
{
    let m: Option<&Vec<Member>> = members_of(v);
    match (sub_member(m, "x"), sub_member(m, "y")) {
        (Some(Json::Number(x)), Some(Json::Number(y))) => Some(
            StepUi { x: x.duplicate(), y: y.duplicate() },
        ),
        _ => None,
    }
}

/// The step at position `i`. A step without an id is named by its position.
pub open spec fn step_read(v: JsonView, i: int) -> StepView {
    let m = members(Some(v));
    StepView {
        id: if field(m, "id"@).len() == 0 {
            "step"@ + nat_text((i + 1) as nat)
        } else {
            field(m, "id"@)
        },
        protocol: if field(m, "protocol"@).len() == 0 {
            "http"@
        } else {
            field(m, "protocol"@)
        },
        ui: ui_read(lookup(m, "ui"@)),
        http: http_read(lookup(m, "request"@)),
        depends_on: depends_read(elements(lookup(m, "dependsOn"@))),
        outputs: outputs_read(members(lookup(m, "outputs"@))),
        assertions: assertions_read(elements(lookup(m, "assertions"@))),
        docs: opt_field(m, "docs"@),
    }
}

/// Reads the step at position `i`.
fn norm_step(v: &Json, i: usize) -> (r: Step)
    requires
        i < usize::MAX,
    ensures
        r@ == step_read(v@, i as int),
{
    let m: Option<&Vec<Member>> = members_of(Some(v));
    let id: String = sub_field(m, "id");
    let protocol: String = sub_field(m, "protocol");
    let docs: String = sub_field(m, "docs");
    Step {
        id: if empty(id.as_str()) {
            cat("step", usize_text(i + 1).as_str())
        } else {
            id
        },
        protocol: if empty(protocol.as_str()) {
            copy_text("http")
        } else {
            protocol
        },
        ui: norm_step_ui(sub_member(m, "ui")),
        http: norm_http(sub_member(m, "request")),
        depends_on: norm_depends(sub_member(m, "dependsOn")),
        outputs: norm_outputs(sub_member(m, "outputs")),
        assertions: norm_assertions(sub_member(m, "assertions")),
        docs: if empty(docs.as_str()) {
            None
        } else {
            Some(docs)
        },
    }
}

/// The case that a document holds.
pub open spec fn case_read(v: JsonView) -> CaseView {
    let m = members(Some(v));
    CaseView {
        version: if field(m, "apicase"@).len() == 0 {
            CASE_VERSION@
        } else {
            field(m, "apicase"@)
        },
        name: opt_field(m, "name"@),
        vars: match lookup(m, "vars"@) {
            Some(JsonView::Object(o)) => Some(o),
            _ => None,
        },
        requests: Seq::new(
            elements(lookup(m, "steps"@)).len(),
            |i: int| step_read(elements(lookup(m, "steps"@))[i], i),
        ),
    }
}

/// The case that a document holds.
pub fn case_of(v: &Json) -> (r: Case)
    ensures
        r@ == case_read(v@),
{
    let m: Option<&Vec<Member>> = members_of(Some(v));
    let version: String = sub_field(m, "apicase");
    let name: String = sub_field(m, "name");
    let vars: Option<Vec<Member>> = match members_of(sub_member(m, "vars")) {
        Some(o) => Some(duplicates(o)),
        None => None,
    };
    let mut requests: Vec<Step> = Vec::new();
    let steps: Option<&Json> = sub_member(m, "steps");
    if let Some(a) = elements_of(steps) {
        let n: usize = a.len();
        let mut i: usize = 0;
        while i < n
            invariant
                n == a@.len(),
                i <= n,
                requests@.len() == i,
                forall|k: int| 0 <= k < i ==> (#[trigger] requests@[k])@ == step_read(a@[k]@, k),
            decreases n - i,
        {
            requests.push(norm_step(&a[i], i));
            i = i + 1;
        }
        assert(views(requests@) =~= case_read(v@).requests);
    }
    assert(views(requests@) =~= case_read(v@).requests);
    Case {
        version: if empty(version.as_str()) {
            copy_text(CASE_VERSION)
        } else {
            version
        },
        name: if empty(name.as_str()) {
            None
        } else {
            Some(name)
        },
        vars,
        requests,
    }
}

/// The case that a text holds, or why it holds none.
pub open spec fn parsed_case(text: Seq<char>) -> Result<CaseView, Seq<char>> {
    match loaded(text) {
        Ok(v) => Ok(case_read(v)),
        Err(e) => Err(e),
    }
}

/// Reads a case. Only a text that is not YAML is an error.
pub fn parse_case(text: &str) -> (r: Result<Case, String>)
    ensures
        match r {
            Ok(c) => parsed_case(text@) == Ok::<CaseView, Seq<char>>(c@),
            Err(e) => parsed_case(text@) == Err::<CaseView, Seq<char>>(e@),
        },
{
    match load(text) {
        Ok(v) => Ok(case_of(&v)),
        Err(e) => Err(e),
    }
}

// ---- analysis --------------------------------------------------------------------------

/// What an editor learns of a text: the case it holds, or why it is edited as plain text.
#[derive(Debug, Clone, PartialEq)]
pub struct AnalyzeResult {
    pub valid: bool,
    pub case: Option<Case>,
    pub error: Option<String>,
}

/// What a `AnalyzeResult` stands for.
#[verifier::ext_equal]
pub struct AnalyzeResultView {
    pub valid: bool,
    pub case: Option<CaseView>,
    pub error: Option<Seq<char>>,
}

impl View for AnalyzeResult {
    type V = AnalyzeResultView;

    open spec fn view(&self) -> AnalyzeResultView {
        AnalyzeResultView {
            valid: self.valid,
            case: opt_view(self.case),
            error: opt_view(self.error),
        }
    }
}

impl Duplicate for AnalyzeResult {
    fn duplicate(&self) -> (r: Self) {
        AnalyzeResult {
            valid: self.valid,
            case: duplicate_opt(&self.case),
            error: duplicate_opt(&self.error),
        }
    }
}
/// A text that holds no case.
pub open spec fn no_case(why: Seq<char>) -> AnalyzeResultView {
    AnalyzeResultView { valid: false, case: None, error: Some(why) }
}

/// Whether a step has its request under the old key only.
pub open spec fn is_legacy(v: JsonView) -> bool {
    has_key(members(Some(v)), "http"@) && !has_key(members(Some(v)), "request"@)
}

/// What an editor learns of a document: it holds a case if it is an object with a list of
/// steps, none of which has its request under the old key.
pub open spec fn analysis(read: Result<JsonView, Seq<char>>) -> AnalyzeResultView {
    match read {
        Err(e) => no_case(e),
        Ok(JsonView::Object(m)) => match lookup(m, "steps"@) {
            Some(JsonView::Array(steps)) => if exists|i: int|
                0 <= i < steps.len() && is_legacy(#[trigger] steps[i]) {
                no_case("step 使用了旧的 http: 报文键，请改为 request:"@)
            } else {
                AnalyzeResultView { valid: true, case: Some(case_read(JsonView::Object(m))), error: None }
            },
            _ => no_case("缺少 steps 列表"@),
        },
        Ok(_) => no_case("顶层不是对象，不是有效的 case"@),
    }
}

fn invalid(why: &str) -> (r: AnalyzeResult)
    ensures
        r@ == no_case(why@),
{
    AnalyzeResult { valid: false, case: None, error: Some(copy_text(why)) }
}

/// What an editor learns of a document.
pub fn analyze_document(read: Result<Json, String>) -> (r: AnalyzeResult)
    ensures
        r@ == analysis(load_view(read)),
{
    let v: Json = match read {
        Ok(v) => v,
        Err(e) => {
            return invalid(e.as_str());
        },
    };
    let m: &Vec<Member> = match v.as_object() {
        Some(m) => m,
        None => {
            return invalid("顶层不是对象，不是有效的 case");
        },
    };
    let steps: &Vec<Json> = match member(m, "steps") {
        Some(s) => match s.as_array() {
            Some(a) => a,
            None => {
                return invalid("缺少 steps 列表");
            },
        },
        None => {
            return invalid("缺少 steps 列表");
        },
    };
    let mut i: usize = 0;
    while i < steps.len()
        invariant
            i <= steps@.len(),
            v@ == JsonView::Object(views(m@)),
            lookup(views(m@), "steps"@) == Some(JsonView::Array(views(steps@))),
            forall|k: int| 0 <= k < i ==> !is_legacy(#[trigger] views(steps@)[k]),
            load_view(read) == Ok::<JsonView, Seq<char>>(v@),
        decreases steps@.len() - i,
    {
        assert(views(steps@)[i as int] == steps@[i as int]@);
        if let Some(s) = steps[i].as_object() {
            if has_member(s, "http") && !has_member(s, "request") {
                assert(is_legacy(views(steps@)[i as int]));
                return invalid("step 使用了旧的 http: 报文键，请改为 request:");
            }
        }
        i = i + 1;
    }
    AnalyzeResult { valid: true, case: Some(case_of(&v)), error: None }
}

/// What an editor learns of a text.
pub fn analyze_case(text: &str) -> (r: AnalyzeResult)
    ensures
        r@ == analysis(loaded(text@)),
{
    analyze_document(load(text))
}

/// A text that an editor takes for a case is a case file, and it is edited as the case that is
/// read from it.
pub proof fn law_analysis(text: Seq<char>)
    ensures
        analysis(loaded(text)).valid ==> match parsed_case(text) {
            Ok(c) => analysis(loaded(text)).case == Some(c),
            Err(_) => false,
        },
        analysis(loaded(text)).valid <==> analysis(loaded(text)).error is None,
        analysis(loaded(text)).valid <==> analysis(loaded(text)).case is Some,
{
}

// ---- writing ---------------------------------------------------------------------------

/// A member that holds a text.
pub open spec fn text_member(k: Seq<char>, s: Seq<char>) -> (Seq<char>, JsonView) {
    (k, JsonView::Str(s))
}

/// Adds a member that is not there yet.
pub(crate) fn push_value(o: &mut Vec<Member>, k: &str, v: Json)
    ensures
        views(final(o)@) == views(old(o)@).push((k@, v@)),
{
    let m: Member = Member { name: copy_text(k), value: v };
    proof {
        lemma_views_push(o@, m);
    }
    o.push(m);
}

/// Adds a member that holds a text and is not there yet.
pub(crate) fn push_text(o: &mut Vec<Member>, k: &str, s: &str)
    ensures
        views(final(o)@) == views(old(o)@).push(text_member(k@, s@)),
{
    push_value(o, k, Json::Str(copy_text(s)));
}

/// An object of members.
pub(crate) fn object(o: Vec<Member>) -> (r: Json)
    ensures
        r@ == JsonView::Object(views(o@)),
{
    let r: Json = Json::Object(o);
    proof {
        lemma_view(r);
    }
    r
}

/// An array of elements.
pub(crate) fn array(a: Vec<Json>) -> (r: Json)
    ensures
        r@ == JsonView::Array(views(a@)),
{
    let r: Json = Json::Array(a);
    proof {
        lemma_view(r);
    }
    r
}

/// No members.
pub(crate) fn no_members() -> (r: Vec<Member>)
    ensures
        views(r@) == Seq::<(Seq<char>, JsonView)>::empty(),
{
    let o: Vec<Member> = Vec::new();
    assert(views(o@) =~= seq![]);
    o
}

/// Whether a row is written: a row without a name and a value only holds a place in an editor.
pub open spec fn row_kept(name: Seq<char>, value: Seq<char>) -> bool {
    !is_blank(name) || !is_blank(value)
}

/// What is written of a row behind its value.
pub open spec fn row_tail(enabled: bool, description: Option<Seq<char>>) -> Seq<(Seq<char>, JsonView)> {
    (if enabled {
        seq![]
    } else {
        seq![("enabled"@, JsonView::Bool(false))]
    }) + (match description {
        Some(d) => if is_blank(d) {
            seq![]
        } else {
            seq![text_member("description"@, d)]
        },
        None => seq![],
    })
}

fn push_row_tail(o: &mut Vec<Member>, enabled: bool, description: &Option<String>)
    ensures
        views(final(o)@) == views(old(o)@) + row_tail(enabled, opt_view(*description)),
{
    let ghost start = views(o@);
    if !enabled {
        push_value(o, "enabled", Json::Bool(false));
    }
    if let Some(d) = description {
        if !blank(d.as_str()) {
            push_text(o, "description", d.as_str());
        }
    }
    assert(views(o@) =~= start + row_tail(enabled, opt_view(*description)));
}

/// A row as it is written.
pub open spec fn row_json(k: KvView) -> JsonView {
    JsonView::Object(
        seq![text_member("name"@, k.name), text_member("value"@, k.value)] + row_tail(
            k.enabled,
            k.description,
        ),
    )
}

/// The rows that are written.
pub open spec fn rows_json(list: Seq<KvView>) -> Seq<JsonView>
    decreases list.len(),
{
    if list.len() == 0 {
        seq![]
    } else if row_kept(list.last().name, list.last().value) {
        rows_json(list.drop_last()).push(row_json(list.last()))
    } else {
        rows_json(list.drop_last())
    }
}

fn ser_row(k: &Kv) -> (r: Json)
    ensures
        r@ == row_json(k@),
{
    let mut o: Vec<Member> = no_members();
    push_text(&mut o, "name", k.name.as_str());
    push_text(&mut o, "value", k.value.as_str());
    assert(views(o@) =~= seq![text_member("name"@, k@.name), text_member("value"@, k@.value)]);
    push_row_tail(&mut o, k.enabled, &k.description);
    object(o)
}

/// Writes rows.
fn ser_kv(list: &Vec<Kv>) -> (r: Vec<Json>)
    ensures
        views(r@) == rows_json(views(list@)),
{
    let mut out: Vec<Json> = Vec::new();
    let ghost w = views(list@);
    assert(views(out@) =~= seq![]);
    assert(w.take(0) =~= seq![]);
    let mut i: usize = 0;
    while i < list.len()
        invariant
            i <= list@.len(),
            w == views(list@),
            views(out@) == rows_json(w.take(i as int)),
        decreases list@.len() - i,
    {
        proof {
            assert(w.take(i + 1).drop_last() =~= w.take(i as int));
            assert(w.take(i + 1).last() == list@[i as int]@);
        }
        let k: &Kv = &list[i];
        if !blank(k.name.as_str()) || !blank(k.value.as_str()) {
            let j: Json = ser_row(k);
            proof {
                lemma_views_push(out@, j);
            }
            out.push(j);
        }
        i = i + 1;
    }
    assert(w.take(w.len() as int) =~= w);
    out
}

/// A field of a form as it is written: the type stands between the name and the value.
pub open spec fn form_item_json(k: FormItemView) -> JsonView {
    JsonView::Object(
        seq![text_member("name"@, k.name)] + (if k.kind == Some(FormKind::File) {
            seq![text_member("type"@, "file"@)]
        } else {
            seq![]
        }) + seq![text_member("value"@, k.value)] + row_tail(k.enabled, k.description),
    )
}

/// The fields of a form that are written.
pub open spec fn form_json(list: Seq<FormItemView>) -> Seq<JsonView>
    decreases list.len(),
{
    if list.len() == 0 {
        seq![]
    } else if row_kept(list.last().name, list.last().value) {
        form_json(list.drop_last()).push(form_item_json(list.last()))
    } else {
        form_json(list.drop_last())
    }
}

fn ser_form_item(k: &FormItem) -> (r: Json)
    ensures
        r@ == form_item_json(k@),
{
    let mut o: Vec<Member> = no_members();
    push_text(&mut o, "name", k.name.as_str());
    if k.is_file() {
        push_text(&mut o, "type", "file");
    }
    push_text(&mut o, "value", k.value.as_str());
    push_row_tail(&mut o, k.enabled, &k.description);
    assert(views(o@) =~= form_item_json(k@)->Object_0);
    object(o)
}

/// Writes the fields of a form.
fn ser_form(list: &Vec<FormItem>) -> (r: Vec<Json>)
    ensures
        views(r@) == form_json(views(list@)),
{
    let mut out: Vec<Json> = Vec::new();
    let ghost w = views(list@);
    assert(views(out@) =~= seq![]);
    assert(w.take(0) =~= seq![]);
    let mut i: usize = 0;
    while i < list.len()
        invariant
            i <= list@.len(),
            w == views(list@),
            views(out@) == form_json(w.take(i as int)),
        decreases list@.len() - i,
    {
        proof {
            assert(w.take(i + 1).drop_last() =~= w.take(i as int));
            assert(w.take(i + 1).last() == list@[i as int]@);
        }
        let k: &FormItem = &list[i];
        if !blank(k.name.as_str()) || !blank(k.value.as_str()) {
            let j: Json = ser_form_item(k);
            proof {
                lemma_views_push(out@, j);
            }
            out.push(j);
        }
        i = i + 1;
    }
    assert(w.take(w.len() as int) =~= w);
    out
}

/// The part of an authentication that its type chooses, under the name of the type.
pub open spec fn auth_part(a: AuthSpecView) -> Seq<(Seq<char>, JsonView)> {
    match a.kind {
        AuthType::NoAuth => seq![],
        AuthType::Bearer => {
            let b = match a.bearer {
                Some(b) => b,
                None => empty_bearer(),
            };
            seq![text_member("token"@, b.token)]
        },
        AuthType::Basic => {
            let b = match a.basic {
                Some(b) => b,
                None => empty_basic(),
            };
            seq![text_member("username"@, b.username), text_member("password"@, b.password)]
        },
        AuthType::Apikey => {
            let k = match a.apikey {
                Some(k) => k,
                None => empty_apikey(),
            };
            seq![
                text_member("key"@, k.key),
                text_member("value"@, k.value),
                text_member(
                    "in"@,
                    if k.place == ApikeyIn::Query {
                        "query"@
                    } else {
                        "header"@
                    },
                ),
            ]
        },
        AuthType::Digest => {
            let d = match a.digest {
                Some(d) => d,
                None => empty_digest(),
            };
            seq![text_member("username"@, d.username), text_member("password"@, d.password)]
        },
        AuthType::Oauth2 => {
            let t = match a.oauth2 {
                Some(t) => t,
                None => empty_oauth2(),
            };
            seq![
                text_member("tokenUrl"@, t.token_url),
                text_member("clientId"@, t.client_id),
                text_member("clientSecret"@, t.client_secret),
            ] + opt_member("scope"@, t.scope) + (if t.client_auth == ClientAuth::Body {
                seq![text_member("clientAuth"@, "body"@)]
            } else {
                seq![]
            })
        },
    }
}

/// A member for a text that is there and not empty.
pub open spec fn opt_member(k: Seq<char>, s: Option<Seq<char>>) -> Seq<(Seq<char>, JsonView)> {
    match s {
        Some(t) => if t.len() == 0 {
            seq![]
        } else {
            seq![text_member(k, t)]
        },
        None => seq![],
    }
}

pub(crate) fn push_opt(o: &mut Vec<Member>, k: &str, s: &Option<String>)
    ensures
        views(final(o)@) == views(old(o)@) + opt_member(k@, opt_view(*s)),
{
    let ghost start = views(o@);
    if let Some(t) = s {
        if !empty(t.as_str()) {
            push_text(o, k, t.as_str());
        }
    }
    assert(views(o@) =~= start + opt_member(k@, opt_view(*s)));
}

/// An authentication as it is written; none is not written.
pub open spec fn auth_json(a: AuthSpecView) -> Option<JsonView> {
    if a.kind == AuthType::NoAuth {
        None
    } else {
        Some(
            JsonView::Object(
                seq![
                    text_member("type"@, auth_type_name(a.kind)),
                    (auth_type_name(a.kind), JsonView::Object(auth_part(a))),
                ],
            ),
        )
    }
}

/// The part of an authentication that its type chooses.
fn ser_auth_part(a: &AuthSpec) -> (r: Vec<Member>)
    ensures
        views(r@) == auth_part(a@),
{
    let mut o: Vec<Member> = no_members();
    match a.kind {
        AuthType::NoAuth => {},
        AuthType::Bearer => {
            let b: BearerAuth = match &a.bearer {
                Some(b) => b.duplicate(),
                None => BearerAuth::default(),
            };
            push_text(&mut o, "token", b.token.as_str());
        },
        AuthType::Basic => {
            let b: BasicAuth = match &a.basic {
                Some(b) => b.duplicate(),
                None => BasicAuth::default(),
            };
            push_text(&mut o, "username", b.username.as_str());
            push_text(&mut o, "password", b.password.as_str());
        },
        AuthType::Apikey => {
            let k: ApikeyAuth = match &a.apikey {
                Some(k) => k.duplicate(),
                None => ApikeyAuth::default(),
            };
            push_text(&mut o, "key", k.key.as_str());
            push_text(&mut o, "value", k.value.as_str());
            let place: &str = if k.place == ApikeyIn::Query {
                "query"
            } else {
                "header"
            };
            push_text(&mut o, "in", place);
        },
        AuthType::Digest => {
            let d: DigestAuth = match &a.digest {
                Some(d) => d.duplicate(),
                None => DigestAuth::default(),
            };
            push_text(&mut o, "username", d.username.as_str());
            push_text(&mut o, "password", d.password.as_str());
        },
        AuthType::Oauth2 => {
            let t: Oauth2Auth = match &a.oauth2 {
                Some(t) => t.duplicate(),
                None => Oauth2Auth::default(),
            };
            push_text(&mut o, "tokenUrl", t.token_url.as_str());
            push_text(&mut o, "clientId", t.client_id.as_str());
            push_text(&mut o, "clientSecret", t.client_secret.as_str());
            push_opt(&mut o, "scope", &t.scope);
            if t.client_auth == ClientAuth::Body {
                push_text(&mut o, "clientAuth", "body");
            }
        },
    }
    assert(views(o@) =~= auth_part(a@));
    o
}

/// Writes an authentication.
fn ser_auth(a: &AuthSpec) -> (r: Option<Json>)
    ensures
        opt_view(r) == auth_json(a@),
{
    if a.kind == AuthType::NoAuth {
        return None;
    }
    let mut o: Vec<Member> = no_members();
    push_text(&mut o, "type", a.kind.as_str());
    push_value(&mut o, a.kind.as_str(), object(ser_auth_part(a)));
    assert(views(o@) =~= auth_json(a@)->0->Object_0);
    Some(object(o))
}

/// Whether a JSON body is there at all.
pub open spec fn json_kept(v: JsonView) -> bool {
    v !is Null && v != JsonView::Str(seq![])
}

/// The members of a body as it is written; a body without content is not written.
pub open spec fn body_json(b: BodySpecView) -> Option<JsonView> {
    match b.kind {
        BodyType::NoBody => None,
        BodyType::Json => match b.json {
            Some(v) => if json_kept(v) {
                Some(JsonView::Object(seq![text_member("type"@, "json"@), ("json"@, v)]))
            } else {
                None
            },
            None => None,
        },
        BodyType::Xml => match b.xml {
            Some(x) => if x.len() > 0 {
                Some(JsonView::Object(seq![text_member("type"@, "xml"@), text_member("xml"@, x)]))
            } else {
                None
            },
            None => None,
        },
        BodyType::Text => match b.text {
            Some(t) => if t.len() > 0 {
                Some(
                    JsonView::Object(
                        seq![text_member("type"@, "text"@)] + opt_member(
                            "contentType"@,
                            b.content_type,
                        ) + seq![text_member("text"@, t)],
                    ),
                )
            } else {
                None
            },
            None => None,
        },
        BodyType::Binary => match b.file_path {
            Some(p) => if p.len() > 0 {
                Some(
                    JsonView::Object(
                        seq![text_member("type"@, "binary"@)] + opt_member(
                            "contentType"@,
                            b.content_type,
                        ) + seq![text_member("filePath"@, p)],
                    ),
                )
            } else {
                None
            },
            None => None,
        },
        BodyType::FormUrlencoded => {
            let rows = rows_json(
                match b.urlencoded {
                    Some(l) => l,
                    None => seq![],
                },
            );
            if rows.len() > 0 {
                Some(
                    JsonView::Object(
                        seq![
                            text_member("type"@, "form-urlencoded"@),
                            ("urlencoded"@, JsonView::Array(rows)),
                        ],
                    ),
                )
            } else {
                None
            }
        },
        BodyType::FormData => {
            let rows = form_json(
                match b.form_data {
                    Some(l) => l,
                    None => seq![],
                },
            );
            if rows.len() > 0 {
                Some(
                    JsonView::Object(
                        seq![text_member("type"@, "form-data"@), ("formData"@, JsonView::Array(rows))],
                    ),
                )
            } else {
                None
            }
        },
    }
}

/// Whether a JSON body is there at all.
fn keeps_json(v: &Json) -> (r: bool)
    ensures
        r == json_kept(v@),
{
    match v {
        Json::Null => false,
        Json::Str(s) => {
            assert(s@.len() == 0 ==> s@ =~= seq![]);
            !empty(s.as_str())
        },
        _ => true,
    }
}

/// Writes a body.
fn ser_body(b: &BodySpec) -> (r: Option<Json>)
    ensures
        opt_view(r) == body_json(b@),
{
    let mut o: Vec<Member> = no_members();
    match b.kind {
        BodyType::NoBody => {
            return None;
        },
        BodyType::Json => {
            match &b.json {
                Some(v) => {
                    if !keeps_json(v) {
                        return None;
                    }
                    push_text(&mut o, "type", "json");
                    push_value(&mut o, "json", v.copy());
                },
                None => {
                    return None;
                },
            }
        },
        BodyType::Xml => {
            match &b.xml {
                Some(x) => {
                    if empty(x.as_str()) {
                        return None;
                    }
                    push_text(&mut o, "type", "xml");
                    push_text(&mut o, "xml", x.as_str());
                },
                None => {
                    return None;
                },
            }
        },
        BodyType::Text => {
            match &b.text {
                Some(t) => {
                    if empty(t.as_str()) {
                        return None;
                    }
                    push_text(&mut o, "type", "text");
                    push_opt(&mut o, "contentType", &b.content_type);
                    push_text(&mut o, "text", t.as_str());
                },
                None => {
                    return None;
                },
            }
        },
        BodyType::Binary => {
            match &b.file_path {
                Some(p) => {
                    if empty(p.as_str()) {
                        return None;
                    }
                    push_text(&mut o, "type", "binary");
                    push_opt(&mut o, "contentType", &b.content_type);
                    push_text(&mut o, "filePath", p.as_str());
                },
                None => {
                    return None;
                },
            }
        },
        BodyType::FormUrlencoded => {
            let rows: Vec<Json> = match &b.urlencoded {
                Some(l) => ser_kv(l),
                None => Vec::new(),
            };
            assert(b.urlencoded is None ==> views(rows@) =~= seq![]);
            if rows.len() == 0 {
                return None;
            }
            push_text(&mut o, "type", "form-urlencoded");
            push_value(&mut o, "urlencoded", array(rows));
        },
        BodyType::FormData => {
            let rows: Vec<Json> = match &b.form_data {
                Some(l) => ser_form(l),
                None => Vec::new(),
            };
            assert(b.form_data is None ==> views(rows@) =~= seq![]);
            if rows.len() == 0 {
                return None;
            }
            push_text(&mut o, "type", "form-data");
            push_value(&mut o, "formData", array(rows));
        },
    }
    assert(views(o@) =~= body_json(b@)->0->Object_0);
    Some(object(o))
}

/// A member for an array that is not empty.
pub open spec fn list_member(k: Seq<char>, a: Seq<JsonView>) -> Seq<(Seq<char>, JsonView)> {
    if a.len() == 0 {
        seq![]
    } else {
        seq![(k, JsonView::Array(a))]
    }
}

/// A member for a value that is there.
pub open spec fn value_member(k: Seq<char>, v: Option<JsonView>) -> Seq<(Seq<char>, JsonView)> {
    match v {
        Some(v) => seq![(k, v)],
        None => seq![],
    }
}

fn push_list(o: &mut Vec<Member>, k: &str, a: Vec<Json>)
    ensures
        views(final(o)@) == views(old(o)@) + list_member(k@, views(a@)),
{
    let ghost start = views(o@);
    let ghost w = views(a@);
    if a.len() > 0 {
        push_value(o, k, array(a));
    }
    assert(views(o@) =~= start + list_member(k@, w));
}

fn push_some(o: &mut Vec<Member>, k: &str, v: Option<Json>)
    ensures
        views(final(o)@) == views(old(o)@) + value_member(k@, opt_view(v)),
{
    let ghost start = views(o@);
    let ghost w = opt_view(v);
    if let Some(j) = v {
        push_value(o, k, j);
    }
    assert(views(o@) =~= start + value_member(k@, w));
}

/// A request as it is written.
pub open spec fn http_json(h: HttpSpecView) -> JsonView {
    JsonView::Object(
        seq![text_member("method"@, h.method), text_member("url"@, h.url)] + list_member(
            "query"@,
            rows_json(h.query),
        ) + list_member("headers"@, rows_json(h.headers)) + value_member("auth"@, auth_json(h.auth))
            + value_member("body"@, body_json(h.body)),
    )
}

/// Writes a request.
fn ser_http(h: &HttpSpec) -> (r: Json)
    ensures
        r@ == http_json(h@),
{
    let mut o: Vec<Member> = no_members();
    push_text(&mut o, "method", h.method.as_str());
    push_text(&mut o, "url", h.url.as_str());
    assert(views(o@) =~= seq![text_member("method"@, h@.method), text_member("url"@, h@.url)]);
    push_list(&mut o, "query", ser_kv(&h.query));
    push_list(&mut o, "headers", ser_kv(&h.headers));
    push_some(&mut o, "auth", ser_auth(&h.auth));
    push_some(&mut o, "body", ser_body(&h.body));
    object(o)
}

/// Beyond this a coordinate is written as a number with a fraction.
pub const MAX_WHOLE: u64 = 9_000_000_000_000_000;

/// A coordinate as it is written: an integral value within bounds is an integer, any other
/// value the double-precision number that it is.
pub open spec fn coordinate(n: NumberView) -> NumberView {
    match n {
        NumberView::Int(i) => if -(MAX_WHOLE as int) < i < MAX_WHOLE {
            n
        } else {
            match reprinted(printed(n) + seq!['.', '0']) {
                Some(t) => NumberView::Real(t),
                None => n,
            }
        },
        NumberView::Real(t) => {
            let d = decimal(t);
            let v = digits_value(whole_part(d));
            if fraction_part(d).len() == 0 && v < MAX_WHOLE {
                NumberView::Int(
                    if d.negative {
                        -(v as int)
                    } else {
                        v as int
                    },
                )
            } else {
                n
            }
        },
    }
}

/// A coordinate as it is written.
pub fn num(n: &Number) -> (r: Number)
    ensures
        r@ == coordinate(n@),
{
    let small: bool = match n {
        Number::PosInt(u) => *u < MAX_WHOLE,
        Number::NegInt(i) => -(MAX_WHOLE as i64) < *i && *i < MAX_WHOLE as i64,
        Number::Real(t) => {
            let p: Parts = parts_of(t.as_str());
            let v: u64 = saturating_value(p.whole.as_slice());
            if p.fraction.len() == 0 && v < MAX_WHOLE {
                return if p.negative {
                    Number::NegInt(-(v as i64))
                } else {
                    Number::PosInt(v)
                };
            }
            true
        },
    };
    if small {
        return n.duplicate();
    }
    let mut text: String = print_number(n);
    text.push('.');
    text.push('0');
    assert(text@ =~= printed(n@) + seq!['.', '0']);
    match reprint_number(text.as_str()) {
        Some(t) => Number::Real(t),
        None => n.duplicate(),
    }
}

/// The variables that a step gives as they are written; one without a name is not.
pub open spec fn outputs_json(list: Seq<StepOutputView>) -> Seq<(Seq<char>, JsonView)>
    decreases list.len(),
{
    if list.len() == 0 {
        seq![]
    } else if is_blank(list.last().name) {
        outputs_json(list.drop_last())
    } else {
        put(
            outputs_json(list.drop_last()),
            trim(list.last().name),
            JsonView::Str(list.last().path),
        )
    }
}

/// Writes the variables that a step gives.
fn ser_outputs(list: &Vec<StepOutput>) -> (r: Vec<Member>)
    ensures
        views(r@) == outputs_json(views(list@)),
{
    let mut out: Vec<Member> = no_members();
    let ghost w = views(list@);
    assert(w.take(0) =~= seq![]);
    let mut i: usize = 0;
    while i < list.len()
        invariant
            i <= list@.len(),
            w == views(list@),
            views(out@) == outputs_json(w.take(i as int)),
        decreases list@.len() - i,
    {
        proof {
            assert(w.take(i + 1).drop_last() =~= w.take(i as int));
            assert(w.take(i + 1).last() == list@[i as int]@);
        }
        let it: &StepOutput = &list[i];
        if !blank(it.name.as_str()) {
            let name: String = trimmed(it.name.as_str());
            put_member(&mut out, name.as_str(), Json::Str(copy_text(it.path.as_str())));
        }
        i = i + 1;
    }
    assert(w.take(w.len() as int) =~= w);
    out
}

/// An assertion as it is written: an operator that takes no value is written without one.
pub open spec fn assertion_json(a: AssertionView) -> JsonView {
    JsonView::Object(
        seq![text_member("target"@, a.target), text_member("op"@, assert_op_name(a.op))] + (
        if takes_value(a.op) {
            opt_member("value"@, a.value)
        } else {
            seq![]
        }),
    )
}

/// The assertions that are written; one without a target is not.
pub open spec fn assertions_json(list: Seq<AssertionView>) -> Seq<JsonView>
    decreases list.len(),
{
    if list.len() == 0 {
        seq![]
    } else if is_blank(list.last().target) {
        assertions_json(list.drop_last())
    } else {
        assertions_json(list.drop_last()).push(assertion_json(list.last()))
    }
}

fn ser_assertion(a: &Assertion) -> (r: Json)
    ensures
        r@ == assertion_json(a@),
{
    let mut o: Vec<Member> = no_members();
    push_text(&mut o, "target", a.target.as_str());
    push_text(&mut o, "op", a.op.as_str());
    assert(views(o@) =~= seq![
        text_member("target"@, a@.target),
        text_member("op"@, assert_op_name(a@.op)),
    ]);
    if a.op.needs_value() {
        push_opt(&mut o, "value", &a.value);
    }
    assert(views(o@) =~= assertion_json(a@)->Object_0);
    object(o)
}

/// Writes assertions.
fn ser_assertions(list: &Vec<Assertion>) -> (r: Vec<Json>)
    ensures
        views(r@) == assertions_json(views(list@)),
{
    let mut out: Vec<Json> = Vec::new();
    let ghost w = views(list@);
    assert(views(out@) =~= seq![]);
    assert(w.take(0) =~= seq![]);
    let mut i: usize = 0;
    while i < list.len()
        invariant
            i <= list@.len(),
            w == views(list@),
            views(out@) == assertions_json(w.take(i as int)),
        decreases list@.len() - i,
    {
        proof {
            assert(w.take(i + 1).drop_last() =~= w.take(i as int));
            assert(w.take(i + 1).last() == list@[i as int]@);
        }
        if !blank(list[i].target.as_str()) {
            let j: Json = ser_assertion(&list[i]);
            proof {
                lemma_views_push(out@, j);
            }
            out.push(j);
        }
        i = i + 1;
    }
    assert(w.take(w.len() as int) =~= w);
    out
}

/// Texts as JSON strings.
pub open spec fn texts_json(list: Seq<Seq<char>>) -> Seq<JsonView> {
    Seq::new(list.len(), |i: int| JsonView::Str(list[i]))
}

fn ser_texts(list: &Vec<String>) -> (r: Vec<Json>)
    ensures
        views(r@) == texts_json(views(list@)),
{
    let mut out: Vec<Json> = Vec::new();
    let mut i: usize = 0;
    while i < list.len()
        invariant
            i <= list@.len(),
            out@.len() == i,
            forall|k: int| 0 <= k < i ==> (#[trigger] out@[k])@ == JsonView::Str(list@[k]@),
        decreases list@.len() - i,
    {
        out.push(Json::Str(copy_text(list[i].as_str())));
        i = i + 1;
    }
    assert(views(out@) =~= texts_json(views(list@)));
    out
}

/// Where an editor shows a step, as it is written.
pub open spec fn ui_json(u: Option<StepUiView>) -> Option<JsonView> {
    match u {
        Some(u) => Some(
            JsonView::Object(
                seq![
                    ("x"@, JsonView::Number(coordinate(u.x))),
                    ("y"@, JsonView::Number(coordinate(u.y))),
                ],
            ),
        ),
        None => None,
    }
}

fn ser_ui(u: &Option<StepUi>) -> (r: Option<Json>)
    ensures
        opt_view(r) == ui_json(opt_view(*u)),
{
    match u {
        Some(u) => {
            let mut o: Vec<Member> = no_members();
            push_value(&mut o, "x", Json::Number(num(&u.x)));
            push_value(&mut o, "y", Json::Number(num(&u.y)));
            assert(views(o@) =~= ui_json(Some(u@))->0->Object_0);
            Some(object(o))
        },
        None => None,
    }
}

/// A step as it is written.
pub open spec fn step_json(st: StepView) -> JsonView {
    JsonView::Object(
        seq![
            text_member("id"@, st.id),
            text_member(
                "protocol"@,
                if st.protocol.len() == 0 {
                    "http"@
                } else {
                    st.protocol
                },
            ),
        ] + value_member("ui"@, ui_json(st.ui)) + list_member("dependsOn"@, texts_json(st.depends_on))
            + seq![("request"@, http_json(st.http))] + object_member(
            "outputs"@,
            outputs_json(st.outputs),
        ) + list_member("assertions"@, assertions_json(st.assertions)) + docs_member(st.docs),
    )
}

/// A member for an object that is not empty.
pub open spec fn object_member(k: Seq<char>, m: Seq<(Seq<char>, JsonView)>) -> Seq<
    (Seq<char>, JsonView),
> {
    if m.len() == 0 {
        seq![]
    } else {
        seq![(k, JsonView::Object(m))]
    }
}

/// The notes of a step as they are written; blank ones are not.
pub open spec fn docs_member(docs: Option<Seq<char>>) -> Seq<(Seq<char>, JsonView)> {
    match docs {
        Some(d) => if is_blank(d) {
            seq![]
        } else {
            seq![text_member("docs"@, d)]
        },
        None => seq![],
    }
}

fn push_object(o: &mut Vec<Member>, k: &str, m: Vec<Member>)
    ensures
        views(final(o)@) == views(old(o)@) + object_member(k@, views(m@)),
{
    let ghost start = views(o@);
    let ghost w = views(m@);
    if m.len() > 0 {
        push_value(o, k, object(m));
    }
    assert(views(o@) =~= start + object_member(k@, w));
}

/// Writes a step.
fn ser_step(st: &Step) -> (r: Json)
    ensures
        r@ == step_json(st@),
{
    let mut o: Vec<Member> = no_members();
    push_text(&mut o, "id", st.id.as_str());
    let protocol: &str = if empty(st.protocol.as_str()) {
        "http"
    } else {
        st.protocol.as_str()
    };
    push_text(&mut o, "protocol", protocol);
    assert(views(o@) =~= seq![text_member("id"@, st@.id), text_member("protocol"@, protocol@)]);
    push_some(&mut o, "ui", ser_ui(&st.ui));
    push_list(&mut o, "dependsOn", ser_texts(&st.depends_on));
    let ghost before = views(o@);
    push_value(&mut o, "request", ser_http(&st.http));
    assert(views(o@) =~= before + seq![("request"@, http_json(st@.http))]);
    push_object(&mut o, "outputs", ser_outputs(&st.outputs));
    push_list(&mut o, "assertions", ser_assertions(&st.assertions));
    let ghost late = views(o@);
    if let Some(d) = &st.docs {
        if !blank(d.as_str()) {
            push_text(&mut o, "docs", d.as_str());
        }
    }
    assert(views(o@) =~= late + docs_member(st@.docs));
    object(o)
}

/// A case as it is written.
pub open spec fn case_json(c: CaseView) -> JsonView {
    JsonView::Object(
        seq![
            text_member(
                "apicase"@,
                if c.version.len() == 0 {
                    CASE_VERSION@
                } else {
                    c.version
                },
            ),
        ] + opt_member("name"@, c.name) + (match c.vars {
            Some(v) => object_member("vars"@, v),
            None => seq![],
        }) + seq![
            (
                "steps"@,
                JsonView::Array(Seq::new(c.requests.len(), |i: int| step_json(c.requests[i]))),
            ),
        ],
    )
}

/// The object that a case is written as.
pub fn case_object(c: &Case) -> (r: Json)
    ensures
        r@ == case_json(c@),
{
    let mut o: Vec<Member> = no_members();
    let version: &str = if empty(c.version.as_str()) {
        CASE_VERSION
    } else {
        c.version.as_str()
    };
    push_text(&mut o, "apicase", version);
    assert(views(o@) =~= seq![text_member("apicase"@, version@)]);
    push_opt(&mut o, "name", &c.name);
    let ghost before = views(o@);
    if let Some(v) = &c.vars {
        push_object(&mut o, "vars", duplicates(v));
    }
    assert(views(o@) =~= before + (match c@.vars {
        Some(v) => object_member("vars"@, v),
        None => seq![],
    }));
    let mut steps: Vec<Json> = Vec::new();
    let mut i: usize = 0;
    while i < c.requests.len()
        invariant
            i <= c.requests@.len(),
            steps@.len() == i,
            forall|k: int| 0 <= k < i ==> (#[trigger] steps@[k])@ == step_json(c.requests@[k]@),
        decreases c.requests@.len() - i,
    {
        steps.push(ser_step(&c.requests[i]));
        i = i + 1;
    }
    assert(views(steps@) =~= Seq::new(c@.requests.len(), |i: int| step_json(c@.requests[i])));
    let ghost late = views(o@);
    push_value(&mut o, "steps", array(steps));
    assert(views(o@) =~= case_json(c@)->Object_0);
    object(o)
}

/// Writes a case as YAML.
pub fn dump_case(c: &Case) -> (r: String)
    ensures
        r@ == yaml_text(case_json(c@)),
{
    to_yaml(&case_object(c))
}

/// Only a text that is not YAML is no case file: whatever else is wrong in it, the rest is read.
pub proof fn law_only_bad_yaml_fails(text: Seq<char>)
    ensures
        parsed_case(text) is Err <==> loaded(text) is Err,
{
}

// ---- what is read under which name -------------------------------------------------------

/// A row is read from the members of an object by their names; it is switched on unless a `false`
/// says otherwise.
pub proof fn law_row_read(m: Seq<(Seq<char>, JsonView)>)
    ensures
        row_read(m).name == field_text(lookup(m, "name"@)),
        row_read(m).value == field_text(lookup(m, "value"@)),
        !row_read(m).enabled <==> lookup(m, "enabled"@) == Some(JsonView::Bool(false)),
        lookup(m, "description"@) is None ==> row_read(m).description is None,
        lookup(m, "description"@) matches Some(JsonView::Str(d)) ==> d.len() > 0
            ==> row_read(m).description == Some(d),
        form_item_read(m).name == row_read(m).name,
        form_item_read(m).value == row_read(m).value,
        form_item_read(m).enabled == row_read(m).enabled,
        form_item_read(m).description == row_read(m).description,
        form_item_read(m).kind == Some(FormKind::File) <==> field_text(lookup(m, "type"@))
            == "file"@,
{
}

/// Lists are read item by item and in order. Rows and form fields are objects, and nothing else
/// is one; an assertion is an object with a target; a dependency is what its text says.
pub proof fn law_lists_read(a: Seq<JsonView>, v: JsonView)
    ensures
        rows_read(seq![]).len() == 0,
        form_read(seq![]).len() == 0,
        assertions_read(seq![]).len() == 0,
        depends_read(seq![]).len() == 0,
        match v {
            JsonView::Object(m) => {
                &&& rows_read(a.push(v)) == rows_read(a).push(row_read(m))
                &&& form_read(a.push(v)) == form_read(a).push(form_item_read(m))
                &&& field_text(lookup(m, "target"@)).len() > 0 ==> assertions_read(a.push(v))
                    == assertions_read(a).push(assertion_read(m))
                &&& field_text(lookup(m, "target"@)).len() == 0 ==> assertions_read(a.push(v))
                    == assertions_read(a)
            },
            _ => {
                &&& rows_read(a.push(v)) == rows_read(a)
                &&& form_read(a.push(v)) == form_read(a)
                &&& assertions_read(a.push(v)) == assertions_read(a)
            },
        },
        match v {
            JsonView::Str(t) => if t.len() > 0 {
                depends_read(a.push(v)) == depends_read(a).push(t)
            } else {
                depends_read(a.push(v)) == depends_read(a)
            },
            JsonView::Null => depends_read(a.push(v)) == depends_read(a),
            _ => true,
        },
{
    assert(a.push(v).drop_last() =~= a);
}

/// An assertion is read by its target, its operator, which is `eq` unless another word stands
/// there, and its value, which is missing if it is null.
pub proof fn law_assertion_read(m: Seq<(Seq<char>, JsonView)>)
    ensures
        assertion_read(m).target == field_text(lookup(m, "target"@)),
        assertion_read(m).op == assert_op_of(field_text(lookup(m, "op"@))),
        lookup(m, "value"@) is None ==> assertion_read(m).value is None,
        lookup(m, "value"@) == Some(JsonView::Null) ==> assertion_read(m).value is None,
        lookup(m, "value"@) matches Some(JsonView::Str(t)) ==> assertion_read(m).value == Some(t),
        lookup(m, "value"@) matches Some(JsonView::Number(n)) ==> assertion_read(m).value == Some(
            printed(n),
        ),
{
}

/// Credentials are read from the object under the word of their kind, and those of no other kind
/// are.
pub proof fn law_auth_read(m: Seq<(Seq<char>, JsonView)>, p: Seq<(Seq<char>, JsonView)>, kind: Seq<char>)
    requires
        lookup(m, "type"@) == Some(JsonView::Str(kind)),
        lookup(m, kind) == Some(JsonView::Object(p)),
    ensures
        ({
            let a = auth_read(Some(JsonView::Object(m)));
            &&& a.kind == auth_type_of(kind)
            &&& a.bearer is Some <==> a.kind is Bearer
            &&& a.basic is Some <==> a.kind is Basic
            &&& a.apikey is Some <==> a.kind is Apikey
            &&& a.digest is Some <==> a.kind is Digest
            &&& a.oauth2 is Some <==> a.kind is Oauth2
            &&& kind == "bearer"@ && a.kind is Bearer ==> a.bearer->0.token == field_text(
                lookup(p, "token"@),
            )
            &&& kind == "basic"@ && a.kind is Basic ==> a.basic->0.username == field_text(
                lookup(p, "username"@),
            ) && a.basic->0.password == field_text(lookup(p, "password"@))
            &&& kind == "apikey"@ && a.kind is Apikey ==> {
                &&& a.apikey->0.key == field_text(lookup(p, "key"@))
                &&& a.apikey->0.value == field_text(lookup(p, "value"@))
                &&& a.apikey->0.place is Query <==> field_text(lookup(p, "in"@)) == "query"@
            }
            &&& kind == "digest"@ && a.kind is Digest ==> a.digest->0.username == field_text(
                lookup(p, "username"@),
            ) && a.digest->0.password == field_text(lookup(p, "password"@))
            &&& kind == "oauth2"@ && a.kind is Oauth2 ==> {
                &&& a.oauth2->0.token_url == field_text(lookup(p, "tokenUrl"@))
                &&& a.oauth2->0.client_id == field_text(lookup(p, "clientId"@))
                &&& a.oauth2->0.client_secret == field_text(lookup(p, "clientSecret"@))
                &&& a.oauth2->0.client_auth is Body <==> field_text(lookup(p, "clientAuth"@))
                    == "body"@
                &&& lookup(p, "scope"@) is None ==> a.oauth2->0.scope is None
                &&& lookup(p, "scope"@) matches Some(JsonView::Str(t)) ==> t.len() > 0
                    ==> a.oauth2->0.scope == Some(t)
            }
        }),
        auth_read(None).kind is NoAuth,
{
}

/// A body is read from the member of its kind, and from no other.
pub proof fn law_body_read(m: Seq<(Seq<char>, JsonView)>, kind: Seq<char>)
    requires
        lookup(m, "type"@) == Some(JsonView::Str(kind)),
    ensures
        ({
            let b = body_read(Some(JsonView::Object(m)));
            &&& b.kind == body_type_of(kind)
            &&& b.kind is Json ==> b.json == lookup(m, "json"@)
            &&& b.kind is Xml ==> b.xml == Some(field_text(lookup(m, "xml"@)))
            &&& b.kind is Text ==> b.text == Some(field_text(lookup(m, "text"@)))
            &&& b.kind is Binary ==> b.file_path == Some(field_text(lookup(m, "filePath"@)))
            &&& b.kind is FormUrlencoded ==> match lookup(m, "urlencoded"@) {
                Some(JsonView::Array(l)) => b.urlencoded == Some(rows_read(l)),
                _ => b.urlencoded == Some(Seq::<KvView>::empty()),
            }
            &&& b.kind is FormData ==> match lookup(m, "formData"@) {
                Some(JsonView::Array(l)) => b.form_data == Some(form_read(l)),
                _ => b.form_data == Some(Seq::<FormItemView>::empty()),
            }
            &&& b.kind is Text || b.kind is Binary ==> (lookup(m, "contentType"@) is None
                ==> b.content_type is None) && (lookup(m, "contentType"@) matches Some(
                JsonView::Str(t),
            ) ==> t.len() > 0 ==> b.content_type == Some(t))
            &&& !(b.kind is Json) ==> b.json is None
            &&& !(b.kind is Xml) ==> b.xml is None
            &&& !(b.kind is Text) ==> b.text is None
            &&& !(b.kind is Binary) ==> b.file_path is None
            &&& !(b.kind is FormUrlencoded) ==> b.urlencoded is None
            &&& !(b.kind is FormData) ==> b.form_data is None
            &&& !(b.kind is Text) && !(b.kind is Binary) ==> b.content_type is None
        }),
        body_read(None).kind is NoBody,
{
}

/// A request is read member by member; without a method it is a GET, and a method is in capitals.
pub proof fn law_request_read(m: Seq<(Seq<char>, JsonView)>, l: Seq<JsonView>)
    ensures
        ({
            let h = http_read(Some(JsonView::Object(m)));
            &&& lookup(m, "method"@) is None ==> h.method == "GET"@
            &&& lookup(m, "method"@) matches Some(JsonView::Str(t)) ==> t.len() > 0 ==> h.method
                == uppercase(t)
            &&& h.url == field_text(lookup(m, "url"@))
            &&& lookup(m, "query"@) == Some(JsonView::Array(l)) ==> h.query == rows_read(l)
            &&& lookup(m, "query"@) is None ==> h.query.len() == 0
            &&& lookup(m, "headers"@) == Some(JsonView::Array(l)) ==> h.headers == rows_read(l)
            &&& lookup(m, "headers"@) is None ==> h.headers.len() == 0
            &&& h.auth == auth_read(lookup(m, "auth"@))
            &&& h.body == body_read(lookup(m, "body"@))
        }),
{
}

/// A step is read member by member; without an id it is named by its place, counted from one, and
/// without a protocol it is one of HTTP.
pub proof fn law_step_read(
    m: Seq<(Seq<char>, JsonView)>,
    i: int,
    l: Seq<JsonView>,
    o: Seq<(Seq<char>, JsonView)>,
    k: int,
)
    requires
        0 <= i,
    ensures
        ({
            let s = step_read(JsonView::Object(m), i);
            &&& lookup(m, "id"@) is None ==> s.id == "step"@ + nat_text((i + 1) as nat)
            &&& lookup(m, "id"@) matches Some(JsonView::Str(t)) ==> t.len() > 0 ==> s.id == t
            &&& lookup(m, "protocol"@) is None ==> s.protocol == "http"@
            &&& lookup(m, "protocol"@) matches Some(JsonView::Str(t)) ==> t.len() > 0 ==> s.protocol
                == t
            &&& s.http == http_read(lookup(m, "request"@))
            &&& lookup(m, "dependsOn"@) == Some(JsonView::Array(l)) ==> s.depends_on == depends_read(
                l,
            )
            &&& lookup(m, "dependsOn"@) is None ==> s.depends_on.len() == 0
            &&& lookup(m, "assertions"@) == Some(JsonView::Array(l)) ==> s.assertions
                == assertions_read(l)
            &&& lookup(m, "assertions"@) is None ==> s.assertions.len() == 0
            &&& lookup(m, "outputs"@) == Some(JsonView::Object(o)) ==> {
                &&& s.outputs.len() == o.len()
                &&& 0 <= k < o.len() ==> s.outputs[k].name == o[k].0 && s.outputs[k].path
                    == field_text(Some(o[k].1))
            }
            &&& lookup(m, "outputs"@) is None ==> s.outputs.len() == 0
            &&& lookup(m, "docs"@) is None ==> s.docs is None
            &&& lookup(m, "docs"@) matches Some(JsonView::Str(t)) ==> t.len() > 0 ==> s.docs == Some(
                t,
            )
        }),
{
}

/// A case is read member by member, its steps in order and none left out.
pub proof fn law_case_read(
    m: Seq<(Seq<char>, JsonView)>,
    l: Seq<JsonView>,
    o: Seq<(Seq<char>, JsonView)>,
    i: int,
)
    ensures
        ({
            let c = case_read(JsonView::Object(m));
            &&& lookup(m, "apicase"@) is None ==> c.version == "v0.1"@
            &&& lookup(m, "apicase"@) matches Some(JsonView::Str(t)) ==> t.len() > 0 ==> c.version
                == t
            &&& lookup(m, "name"@) is None ==> c.name is None
            &&& lookup(m, "name"@) matches Some(JsonView::Str(t)) ==> t.len() > 0 ==> c.name == Some(
                t,
            )
            &&& lookup(m, "vars"@) == Some(JsonView::Object(o)) ==> c.vars == Some(o)
            &&& lookup(m, "vars"@) is None ==> c.vars is None
            &&& lookup(m, "steps"@) == Some(JsonView::Array(l)) ==> {
                &&& c.requests.len() == l.len()
                &&& 0 <= i < l.len() ==> c.requests[i] == step_read(l[i], i)
            }
            &&& lookup(m, "steps"@) is None ==> c.requests.len() == 0
        }),
{
}

/// A text is a case if and only if it is an object with a list of steps, none of which is of the
/// old kind, with `http` in place of `request`.
pub proof fn law_what_is_a_case(v: JsonView, e: Seq<char>)
    ensures
        analysis(Ok(v)).valid <==> match v {
            JsonView::Object(m) => match lookup(m, "steps"@) {
                Some(JsonView::Array(steps)) => forall|i: int|
                    0 <= i < steps.len() ==> match #[trigger] steps[i] {
                        JsonView::Object(s) => lookup(s, "http"@) is None || lookup(s, "request"@) is Some,
                        _ => true,
                    },
                _ => false,
            },
            _ => false,
        },
        analysis(Ok(v)).valid ==> analysis(Ok(v)).case == Some(case_read(v)),
        !analysis(Err(e)).valid,
        analysis(Err(e)).error == Some(e),
{
    let none = Seq::<(Seq<char>, JsonView)>::empty();
    assert(lookup(none, "http"@) is None);
    if let JsonView::Object(m) = v {
        if let Some(JsonView::Array(steps)) = lookup(m, "steps"@) {
            assert forall|i: int| 0 <= i < steps.len() implies (is_legacy(#[trigger] steps[i])
                <==> !(match steps[i] {
                JsonView::Object(s) => lookup(s, "http"@) is None || lookup(s, "request"@) is Some,
                _ => true,
            })) by {}
            if exists|i: int| 0 <= i < steps.len() && is_legacy(#[trigger] steps[i]) {
                let i = choose|i: int| 0 <= i < steps.len() && is_legacy(#[trigger] steps[i]);
                assert(!(match steps[i] {
                    JsonView::Object(s) => lookup(s, "http"@) is None || lookup(s, "request"@) is Some,
                    _ => true,
                }));
            }
        }
    }
}

// ---- laws of what is written -------------------------------------------------------------

/// What equals the default is not written: a request without rows, credentials and body has its
/// method and its address alone, and a step that does nothing else has its id, its protocol and its
/// request.
pub proof fn law_bare_step_written(st: StepView)
    ensures
        st.http.query.len() == 0 && st.http.headers.len() == 0 && st.http.auth.kind is NoAuth
            && st.http.body.kind is NoBody ==> http_json(st.http) == JsonView::Object(
            seq![
                ("method"@, JsonView::Str(st.http.method)),
                ("url"@, JsonView::Str(st.http.url)),
            ],
        ),
        st.ui is None && st.depends_on.len() == 0 && st.outputs.len() == 0 && st.assertions.len()
            == 0 && st.docs is None && st.protocol.len() > 0 ==> step_json(st) == JsonView::Object(
            seq![
                ("id"@, JsonView::Str(st.id)),
                ("protocol"@, JsonView::Str(st.protocol)),
                ("request"@, http_json(st.http)),
            ],
        ),
        st.ui is None && st.depends_on.len() == 0 && st.outputs.len() == 0 && st.assertions.len()
            == 0 && st.docs is None && st.protocol.len() == 0 ==> step_json(st) == JsonView::Object(
            seq![
                ("id"@, JsonView::Str(st.id)),
                ("protocol"@, JsonView::Str("http"@)),
                ("request"@, http_json(st.http)),
            ],
        ),
{
    let h = st.http;
    if h.query.len() == 0 && h.headers.len() == 0 && h.auth.kind is NoAuth && h.body.kind is NoBody {
        assert(http_json(h)->Object_0 =~= seq![
            ("method"@, JsonView::Str(h.method)),
            ("url"@, JsonView::Str(h.url)),
        ]);
    }
    if st.ui is None && st.depends_on.len() == 0 && st.outputs.len() == 0 && st.assertions.len() == 0
        && st.docs is None {
        assert(texts_json(st.depends_on).len() == 0);
        let p = if st.protocol.len() == 0 {
            "http"@
        } else {
            st.protocol
        };
        assert(step_json(st)->Object_0 =~= seq![
            ("id"@, JsonView::Str(st.id)),
            ("protocol"@, JsonView::Str(p)),
            ("request"@, http_json(h)),
        ]);
    }
}

/// A row is written with its name and its value, that it is switched off only if it is, and its
/// description only if it says something; a form field is written so too, and that it is a file
/// only if it is.
pub proof fn law_row_written(k: KvView, f: FormItemView)
    ensures
        k.enabled && k.description is None ==> row_json(k) == JsonView::Object(
            seq![("name"@, JsonView::Str(k.name)), ("value"@, JsonView::Str(k.value))],
        ),
        !k.enabled && k.description is None ==> row_json(k) == JsonView::Object(
            seq![
                ("name"@, JsonView::Str(k.name)),
                ("value"@, JsonView::Str(k.value)),
                ("enabled"@, JsonView::Bool(false)),
            ],
        ),
        k.enabled && k.description is Some && !is_blank(k.description->0) ==> row_json(k)
            == JsonView::Object(
            seq![
                ("name"@, JsonView::Str(k.name)),
                ("value"@, JsonView::Str(k.value)),
                ("description"@, JsonView::Str(k.description->0)),
            ],
        ),
        k.description is Some && is_blank(k.description->0) ==> row_json(k) == row_json(
            (KvView { description: None, ..k }),
        ),
        f.enabled && f.description is None && f.kind == Some(FormKind::File) ==> form_item_json(f)
            == JsonView::Object(
            seq![
                ("name"@, JsonView::Str(f.name)),
                ("type"@, JsonView::Str("file"@)),
                ("value"@, JsonView::Str(f.value)),
            ],
        ),
        f.enabled && f.description is None && f.kind != Some(FormKind::File) ==> form_item_json(f)
            == JsonView::Object(
            seq![("name"@, JsonView::Str(f.name)), ("value"@, JsonView::Str(f.value))],
        ),
{
    let a = row_json(k)->Object_0;
    if k.enabled && k.description is None {
        assert(a =~= seq![("name"@, JsonView::Str(k.name)), ("value"@, JsonView::Str(k.value))]);
    }
    if !k.enabled && k.description is None {
        assert(a =~= seq![
            ("name"@, JsonView::Str(k.name)),
            ("value"@, JsonView::Str(k.value)),
            ("enabled"@, JsonView::Bool(false)),
        ]);
    }
    if k.enabled && k.description is Some && !is_blank(k.description->0) {
        assert(a =~= seq![
            ("name"@, JsonView::Str(k.name)),
            ("value"@, JsonView::Str(k.value)),
            ("description"@, JsonView::Str(k.description->0)),
        ]);
    }
    if f.enabled && f.description is None {
        let b = form_item_json(f)->Object_0;
        if f.kind == Some(FormKind::File) {
            assert(b =~= seq![
                ("name"@, JsonView::Str(f.name)),
                ("type"@, JsonView::Str("file"@)),
                ("value"@, JsonView::Str(f.value)),
            ]);
        } else {
            assert(b =~= seq![("name"@, JsonView::Str(f.name)), ("value"@, JsonView::Str(f.value))]);
        }
    }
}

/// Lists are written in order, without what says nothing: rows with neither a name nor a value, and
/// assertions without a target.
pub proof fn law_lists_written(
    rows: Seq<KvView>,
    k: KvView,
    form: Seq<FormItemView>,
    f: FormItemView,
    asserts: Seq<AssertionView>,
    a: AssertionView,
)
    ensures
        rows_json(seq![]).len() == 0 && form_json(seq![]).len() == 0 && assertions_json(seq![]).len()
            == 0,
        is_blank(k.name) && is_blank(k.value) ==> rows_json(rows.push(k)) == rows_json(rows),
        !is_blank(k.name) || !is_blank(k.value) ==> rows_json(rows.push(k)) == rows_json(rows).push(
            row_json(k),
        ),
        is_blank(f.name) && is_blank(f.value) ==> form_json(form.push(f)) == form_json(form),
        !is_blank(f.name) || !is_blank(f.value) ==> form_json(form.push(f)) == form_json(form).push(
            form_item_json(f),
        ),
        is_blank(a.target) ==> assertions_json(asserts.push(a)) == assertions_json(asserts),
        !is_blank(a.target) ==> assertions_json(asserts.push(a)) == assertions_json(asserts).push(
            assertion_json(a),
        ),
{
    assert(rows.push(k).drop_last() =~= rows);
    assert(form.push(f).drop_last() =~= form);
    assert(asserts.push(a).drop_last() =~= asserts);
}

/// An assertion is written with its target and its operator, and with its value if its operator
/// takes one and there is one.
pub proof fn law_assertion_written(a: AssertionView)
    ensures
        a.op is Exists || a.op is NotExists || a.value is None ==> assertion_json(a)
            == JsonView::Object(
            seq![
                ("target"@, JsonView::Str(a.target)),
                ("op"@, JsonView::Str(assert_op_name(a.op))),
            ],
        ),
        !(a.op is Exists) && !(a.op is NotExists) && a.value is Some && a.value->0.len() > 0
            ==> assertion_json(a) == JsonView::Object(
            seq![
                ("target"@, JsonView::Str(a.target)),
                ("op"@, JsonView::Str(assert_op_name(a.op))),
                ("value"@, JsonView::Str(a.value->0)),
            ],
        ),
{
    let m = assertion_json(a)->Object_0;
    if a.op is Exists || a.op is NotExists || a.value is None {
        assert(m =~= seq![
            ("target"@, JsonView::Str(a.target)),
            ("op"@, JsonView::Str(assert_op_name(a.op))),
        ]);
    } else if a.value->0.len() > 0 {
        assert(m =~= seq![
            ("target"@, JsonView::Str(a.target)),
            ("op"@, JsonView::Str(assert_op_name(a.op))),
            ("value"@, JsonView::Str(a.value->0)),
        ]);
    }
}

/// A case is written with its version first, its name and its variables if it has some, and its
/// steps in order last.
pub proof fn law_case_written(c: CaseView, i: int)
    ensures
        case_json(c) matches JsonView::Object(m) && m.len() >= 2 && m[0].0 == "apicase"@ && m[0].1
            == JsonView::Str(
            if c.version.len() == 0 {
                "v0.1"@
            } else {
                c.version
            },
        ) && m.last().0 == "steps"@ && (m.last().1 matches JsonView::Array(a) && a.len()
            == c.requests.len() && (0 <= i < a.len() ==> a[i] == step_json(c.requests[i])))
            && m.len() == 2 + (if c.name is Some && c.name->0.len() > 0 {
            1int
        } else {
            0
        }) + (if c.vars is Some && c.vars->0.len() > 0 {
            1int
        } else {
            0
        }),
{
}

/// A place is read if both of its coordinates are numbers, and is none otherwise.
pub proof fn law_place_read(m: Seq<(Seq<char>, JsonView)>, x: NumberView, y: NumberView)
    ensures
        lookup(m, "x"@) == Some(JsonView::Number(x)) && lookup(m, "y"@) == Some(JsonView::Number(y))
            ==> ui_read(Some(JsonView::Object(m))) == Some(StepUiView { x, y }),
        lookup(m, "x"@) is None || lookup(m, "y"@) is None ==> ui_read(Some(JsonView::Object(m)))
            is None,
        ui_read(None) is None,
{
}

} // verus!
