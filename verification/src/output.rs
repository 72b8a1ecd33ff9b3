//! What is printed for tools: cases, checks, lists and cookies as JSON.
use crate::case_file::{analysis, analyze_case, dump_case, AnalyzeResult, AnalyzeResultView};
use crate::check::{
    CheckReport, CheckReportView, CheckResult, CheckResultView, Issue, IssueView, Severity,
};
use crate::cookie::{CookieItem, CookieItemView};
use crate::docs::{
    topic, topic_entry, topic_list, topic_table, topic_text, topics, Topic, TopicView,
};
use crate::emit::yaml_text;
use crate::fields::{
    lemma_field, lemma_present, names_differ, number_value, present, push_field, push_some, text_value, texts_json,
    texts_value, Field,
};
use crate::json::{json_pretty, lemma_view, pretty, Json, JsonView, Member};
use crate::list::{ListItem, ListItemView, StepBrief, StepBriefView};
use crate::model::{
    assert_op_name, auth_type_name, body_type_name, ApikeyAuth, ApikeyAuthView, ApikeyIn, Assertion,
    AssertionView, AuthSpec, AuthSpecView, BasicAuth, BasicAuthView, BearerAuth, BearerAuthView,
    BodySpec, BodySpecView, Case, CaseView, ClientAuth, DigestAuth, DigestAuthView, FormItem,
    FormItemView, FormKind, HttpSpec, HttpSpecView, Kv, KvView, Oauth2Auth, Oauth2AuthView, Step,
    StepOutput, StepOutputView, StepUi, StepUiView, StepView,
};
use crate::number::{Number, NumberView};
use crate::report::EnvironmentInfo;
use crate::report_json::{environment_json, environment_to_json, kept_text};
use crate::run::{runnable, take_case};
use crate::table::{key_at, lemma_key_at_is, lookup};
use crate::text::{cat, copy_text, i64_text, int_text, join, opt_text, opt_view, u64_text, views};
use crate::yaml::loaded;
use vstd::prelude::*;

verus! {

/// A number or `null`.
pub open spec fn number_or_null(o: Option<u64>) -> JsonView {
    match o {
        Some(n) => JsonView::Number(NumberView::Int(n as int)),
        None => JsonView::Null,
    }
}

fn number_or_none(o: Option<u64>) -> (r: Json)
    ensures
        r@ == number_or_null(o),
{
    match o {
        Some(n) => number_value(n),
        None => Json::Null,
    }
}

/// A coordinate, which is written with a point.
pub open spec fn coordinate_json(n: NumberView) -> JsonView {
    match n {
        NumberView::Int(i) => JsonView::Number(NumberView::Real(int_text(i) + ".0"@)),
        NumberView::Real(t) => JsonView::Number(NumberView::Real(t)),
    }
}

fn coordinate_value(n: &Number) -> (r: Json)
    ensures
        r@ == coordinate_json(n@),
{
    let t: String = match n {
        Number::PosInt(u) => cat(u64_text(*u).as_str(), ".0"),
        Number::NegInt(i) => cat(i64_text(*i).as_str(), ".0"),
        Number::Real(t) => copy_text(t.as_str()),
    };
    Json::Number(Number::Real(t))
}

/// Members as an object, which is left out when there are none to speak of.
pub open spec fn kept_members(o: Option<Seq<(Seq<char>, JsonView)>>) -> Option<JsonView> {
    match o {
        Some(m) => Some(JsonView::Object(m)),
        None => None,
    }
}

fn members_value(m: &Vec<Member>) -> (r: Json)
    ensures
        r@ == JsonView::Object(views(m@)),
{
    let mut out: Vec<Member> = Vec::new();
    let mut i: usize = 0;
    while i < m.len()
        invariant
            i <= m@.len(),
            views(out@) == views(m@).take(i as int),
        decreases m@.len() - i,
    {
        push_field(&mut out, m[i].name.as_str(), m[i].value.copy());
        proof {
            assert(views(m@)[i as int] == m@[i as int]@);
            assert(views(m@).take(i + 1) =~= views(m@).take(i as int).push(m@[i as int]@));
        }
        i = i + 1;
    }
    let r: Json = Json::Object(out);
    proof {
        lemma_view(r);
        assert(views(m@).take(m@.len() as int) =~= views(m@));
    }
    r
}

/// Texts that are left out when there are none.
pub open spec fn kept_texts(l: Seq<Seq<char>>) -> Option<JsonView> {
    if l.len() > 0 {
        Some(texts_json(l))
    } else {
        None
    }
}

/// The word of a kind of field.
pub open spec fn form_kind_word(t: FormKind) -> Seq<char> {
    match t {
        FormKind::Text => "text"@,
        FormKind::File => "file"@,
    }
}

fn name_of_form_kind(t: FormKind) -> (r: &'static str)
    ensures
        r@ == form_kind_word(t),
{
    match t {
        FormKind::Text => "text",
        FormKind::File => "file",
    }
}

/// The word of where a key is sent.
pub open spec fn apikey_in_word(t: ApikeyIn) -> Seq<char> {
    match t {
        ApikeyIn::Header => "header"@,
        ApikeyIn::Query => "query"@,
    }
}

fn name_of_apikey_in(t: ApikeyIn) -> (r: &'static str)
    ensures
        r@ == apikey_in_word(t),
{
    match t {
        ApikeyIn::Header => "header",
        ApikeyIn::Query => "query",
    }
}

/// The word of how a client says who it is.
pub open spec fn client_auth_word(t: ClientAuth) -> Seq<char> {
    match t {
        ClientAuth::Header => "header"@,
        ClientAuth::Body => "body"@,
    }
}

fn name_of_client_auth(t: ClientAuth) -> (r: &'static str)
    ensures
        r@ == client_auth_word(t),
{
    match t {
        ClientAuth::Header => "header",
        ClientAuth::Body => "body",
    }
}

/// The word of how bad an issue is.
pub open spec fn severity_word(t: Severity) -> Seq<char> {
    match t {
        Severity::Error => "error"@,
        Severity::Warning => "warning"@,
    }
}

fn name_of_severity(t: Severity) -> (r: &'static str)
    ensures
        r@ == severity_word(t),
{
    match t {
        Severity::Error => "error",
        Severity::Warning => "warning",
    }
}

/// The word of a kind of field, which is left out when none is set.
pub open spec fn kept_form_kind(o: Option<FormKind>) -> Option<JsonView> {
    match o {
        Some(k) => Some(JsonView::Str(form_kind_word(k))),
        None => None,
    }
}

// ---- a row ------------------------------------------------------------------------------

/// A row as JSON.
pub open spec fn row_json(v: KvView) -> JsonView {
    JsonView::Object(present(row_fields(v)))
}

/// The fields of a row.
pub open spec fn row_fields(v: KvView) -> Seq<Field> {
    seq![
        ("name"@, Some(JsonView::Str(v.name))),
        ("value"@, Some(JsonView::Str(v.value))),
        ("enabled"@, Some(JsonView::Bool(v.enabled))),
        ("description"@, kept_text(v.description)),
    ]
}

/// A row as JSON.
pub fn row_to_json(v: &Kv) -> (r: Json)
    ensures
        r@ == row_json(v@),
{
    let ghost fs = row_fields(v@);
    let mut out: Vec<Member> = Vec::new();
    assert(views(out@) =~= present(fs.take(0)));
    push_field(&mut out, "name", text_value(v.name.as_str()));
    proof {
        lemma_present(fs, 0);
    }
    push_field(&mut out, "value", text_value(v.value.as_str()));
    proof {
        lemma_present(fs, 1);
    }
    push_field(&mut out, "enabled", Json::Bool(v.enabled));
    proof {
        lemma_present(fs, 2);
    }
    push_some(&mut out, "description", &v.description);
    proof {
        lemma_present(fs, 3);
    }
    let r: Json = Json::Object(out);
    proof {
        lemma_view(r);
    }
    r
}

/// A row as an item.
pub open spec fn row_writer() -> spec_fn(KvView) -> JsonView {
    |v: KvView| row_json(v)
}

fn rows_to_json(l: &Vec<Kv>) -> (r: Json)
    ensures
        r@ == JsonView::Array(views(l@).map_values(row_writer())),
{
    let mut out: Vec<Json> = Vec::new();
    let mut i: usize = 0;
    while i < l.len()
        invariant
            i <= l@.len(),
            out@.len() == i,
            forall|k: int| 0 <= k < i ==> (#[trigger] out@[k])@ == row_json(l@[k]@),
        decreases l@.len() - i,
    {
        out.push(row_to_json(&l[i]));
        i = i + 1;
    }
    let r: Json = Json::Array(out);
    proof {
        lemma_view(r);
        assert(views(out@) =~= views(l@).map_values(row_writer()));
    }
    r
}

/// A list, which is left out when there is none.
pub open spec fn kept_rows(o: Option<Seq<KvView>>) -> Option<JsonView> {
    match o {
        Some(l) => Some(JsonView::Array(l.map_values(row_writer()))),
        None => None,
    }
}

// ---- a field of a form ------------------------------------------------------------------

/// A field of a form as JSON.
pub open spec fn form_item_json(v: FormItemView) -> JsonView {
    JsonView::Object(present(form_item_fields(v)))
}

/// The fields of a field of a form.
pub open spec fn form_item_fields(v: FormItemView) -> Seq<Field> {
    seq![
        ("name"@, Some(JsonView::Str(v.name))),
        ("value"@, Some(JsonView::Str(v.value))),
        ("enabled"@, Some(JsonView::Bool(v.enabled))),
        ("description"@, kept_text(v.description)),
        ("type"@, kept_form_kind(v.kind)),
    ]
}

/// A field of a form as JSON.
pub fn form_item_to_json(v: &FormItem) -> (r: Json)
    ensures
        r@ == form_item_json(v@),
{
    let ghost fs = form_item_fields(v@);
    let mut out: Vec<Member> = Vec::new();
    assert(views(out@) =~= present(fs.take(0)));
    push_field(&mut out, "name", text_value(v.name.as_str()));
    proof {
        lemma_present(fs, 0);
    }
    push_field(&mut out, "value", text_value(v.value.as_str()));
    proof {
        lemma_present(fs, 1);
    }
    push_field(&mut out, "enabled", Json::Bool(v.enabled));
    proof {
        lemma_present(fs, 2);
    }
    push_some(&mut out, "description", &v.description);
    proof {
        lemma_present(fs, 3);
    }
    if let Some(x) = v.kind {
        push_field(&mut out, "type", text_value(name_of_form_kind(x)));
    }
    proof {
        lemma_present(fs, 4);
    }
    let r: Json = Json::Object(out);
    proof {
        lemma_view(r);
    }
    r
}

/// A field of a form as an item.
pub open spec fn form_item_writer() -> spec_fn(FormItemView) -> JsonView {
    |v: FormItemView| form_item_json(v)
}

fn form_items_to_json(l: &Vec<FormItem>) -> (r: Json)
    ensures
        r@ == JsonView::Array(views(l@).map_values(form_item_writer())),
{
    let mut out: Vec<Json> = Vec::new();
    let mut i: usize = 0;
    while i < l.len()
        invariant
            i <= l@.len(),
            out@.len() == i,
            forall|k: int| 0 <= k < i ==> (#[trigger] out@[k])@ == form_item_json(l@[k]@),
        decreases l@.len() - i,
    {
        out.push(form_item_to_json(&l[i]));
        i = i + 1;
    }
    let r: Json = Json::Array(out);
    proof {
        lemma_view(r);
        assert(views(out@) =~= views(l@).map_values(form_item_writer()));
    }
    r
}

/// A list, which is left out when there is none.
pub open spec fn kept_form_items(o: Option<Seq<FormItemView>>) -> Option<JsonView> {
    match o {
        Some(l) => Some(JsonView::Array(l.map_values(form_item_writer()))),
        None => None,
    }
}

// ---- a body -----------------------------------------------------------------------------

/// A body as JSON.
pub open spec fn body_json(v: BodySpecView) -> JsonView {
    JsonView::Object(present(body_fields(v)))
}

/// The fields of a body.
pub open spec fn body_fields(v: BodySpecView) -> Seq<Field> {
    seq![
        ("type"@, Some(JsonView::Str(body_type_name(v.kind)))),
        ("json"@, v.json),
        ("xml"@, kept_text(v.xml)),
        ("text"@, kept_text(v.text)),
        ("contentType"@, kept_text(v.content_type)),
        ("urlencoded"@, kept_rows(v.urlencoded)),
        ("formData"@, kept_form_items(v.form_data)),
        ("filePath"@, kept_text(v.file_path)),
    ]
}

/// A body as JSON.
pub fn body_to_json(v: &BodySpec) -> (r: Json)
    ensures
        r@ == body_json(v@),
{
    let ghost fs = body_fields(v@);
    let mut out: Vec<Member> = Vec::new();
    assert(views(out@) =~= present(fs.take(0)));
    push_field(&mut out, "type", text_value(v.kind.as_str()));
    proof {
        lemma_present(fs, 0);
    }
    if let Some(x) = &v.json {
        push_field(&mut out, "json", x.copy());
    }
    proof {
        lemma_present(fs, 1);
    }
    push_some(&mut out, "xml", &v.xml);
    proof {
        lemma_present(fs, 2);
    }
    push_some(&mut out, "text", &v.text);
    proof {
        lemma_present(fs, 3);
    }
    push_some(&mut out, "contentType", &v.content_type);
    proof {
        lemma_present(fs, 4);
    }
    if let Some(x) = &v.urlencoded {
        push_field(&mut out, "urlencoded", rows_to_json(x));
    }
    proof {
        lemma_present(fs, 5);
    }
    if let Some(x) = &v.form_data {
        push_field(&mut out, "formData", form_items_to_json(x));
    }
    proof {
        lemma_present(fs, 6);
    }
    push_some(&mut out, "filePath", &v.file_path);
    proof {
        lemma_present(fs, 7);
    }
    let r: Json = Json::Object(out);
    proof {
        lemma_view(r);
    }
    r
}

// ---- a bearer token ---------------------------------------------------------------------

/// A bearer token as JSON.
pub open spec fn bearer_json(v: BearerAuthView) -> JsonView {
    JsonView::Object(present(bearer_fields(v)))
}

/// The fields of a bearer token.
pub open spec fn bearer_fields(v: BearerAuthView) -> Seq<Field> {
    seq![
        ("token"@, Some(JsonView::Str(v.token))),
    ]
}

/// A bearer token as JSON.
pub fn bearer_to_json(v: &BearerAuth) -> (r: Json)
    ensures
        r@ == bearer_json(v@),
{
    let ghost fs = bearer_fields(v@);
    let mut out: Vec<Member> = Vec::new();
    assert(views(out@) =~= present(fs.take(0)));
    push_field(&mut out, "token", text_value(v.token.as_str()));
    proof {
        lemma_present(fs, 0);
    }
    let r: Json = Json::Object(out);
    proof {
        lemma_view(r);
    }
    r
}

/// A bearer token, which is left out when there is none.
pub open spec fn kept_bearer(o: Option<BearerAuthView>) -> Option<JsonView> {
    match o {
        Some(v) => Some(bearer_json(v)),
        None => None,
    }
}

// ---- a name and a password --------------------------------------------------------------

/// A name and a password as JSON.
pub open spec fn basic_json(v: BasicAuthView) -> JsonView {
    JsonView::Object(present(basic_fields(v)))
}

/// The fields of a name and a password.
pub open spec fn basic_fields(v: BasicAuthView) -> Seq<Field> {
    seq![
        ("username"@, Some(JsonView::Str(v.username))),
        ("password"@, Some(JsonView::Str(v.password))),
    ]
}

/// A name and a password as JSON.
pub fn basic_to_json(v: &BasicAuth) -> (r: Json)
    ensures
        r@ == basic_json(v@),
{
    let ghost fs = basic_fields(v@);
    let mut out: Vec<Member> = Vec::new();
    assert(views(out@) =~= present(fs.take(0)));
    push_field(&mut out, "username", text_value(v.username.as_str()));
    proof {
        lemma_present(fs, 0);
    }
    push_field(&mut out, "password", text_value(v.password.as_str()));
    proof {
        lemma_present(fs, 1);
    }
    let r: Json = Json::Object(out);
    proof {
        lemma_view(r);
    }
    r
}

/// A name and a password, which is left out when there is none.
pub open spec fn kept_basic(o: Option<BasicAuthView>) -> Option<JsonView> {
    match o {
        Some(v) => Some(basic_json(v)),
        None => None,
    }
}

// ---- an API key -------------------------------------------------------------------------

/// An API key as JSON.
pub open spec fn apikey_json(v: ApikeyAuthView) -> JsonView {
    JsonView::Object(present(apikey_fields(v)))
}

/// The fields of an API key.
pub open spec fn apikey_fields(v: ApikeyAuthView) -> Seq<Field> {
    seq![
        ("key"@, Some(JsonView::Str(v.key))),
        ("value"@, Some(JsonView::Str(v.value))),
        ("in"@, Some(JsonView::Str(apikey_in_word(v.place)))),
    ]
}

/// An API key as JSON.
pub fn apikey_to_json(v: &ApikeyAuth) -> (r: Json)
    ensures
        r@ == apikey_json(v@),
{
    let ghost fs = apikey_fields(v@);
    let mut out: Vec<Member> = Vec::new();
    assert(views(out@) =~= present(fs.take(0)));
    push_field(&mut out, "key", text_value(v.key.as_str()));
    proof {
        lemma_present(fs, 0);
    }
    push_field(&mut out, "value", text_value(v.value.as_str()));
    proof {
        lemma_present(fs, 1);
    }
    push_field(&mut out, "in", text_value(name_of_apikey_in(v.place)));
    proof {
        lemma_present(fs, 2);
    }
    let r: Json = Json::Object(out);
    proof {
        lemma_view(r);
    }
    r
}

/// An API key, which is left out when there is none.
pub open spec fn kept_apikey(o: Option<ApikeyAuthView>) -> Option<JsonView> {
    match o {
        Some(v) => Some(apikey_json(v)),
        None => None,
    }
}

// ---- a name and a password for a digest -------------------------------------------------

/// A name and a password for a digest as JSON.
pub open spec fn digest_json(v: DigestAuthView) -> JsonView {
    JsonView::Object(present(digest_fields(v)))
}

/// The fields of a name and a password for a digest.
pub open spec fn digest_fields(v: DigestAuthView) -> Seq<Field> {
    seq![
        ("username"@, Some(JsonView::Str(v.username))),
        ("password"@, Some(JsonView::Str(v.password))),
    ]
}

/// A name and a password for a digest as JSON.
pub fn digest_to_json(v: &DigestAuth) -> (r: Json)
    ensures
        r@ == digest_json(v@),
{
    let ghost fs = digest_fields(v@);
    let mut out: Vec<Member> = Vec::new();
    assert(views(out@) =~= present(fs.take(0)));
    push_field(&mut out, "username", text_value(v.username.as_str()));
    proof {
        lemma_present(fs, 0);
    }
    push_field(&mut out, "password", text_value(v.password.as_str()));
    proof {
        lemma_present(fs, 1);
    }
    let r: Json = Json::Object(out);
    proof {
        lemma_view(r);
    }
    r
}

/// A name and a password for a digest, which is left out when there is none.
pub open spec fn kept_digest(o: Option<DigestAuthView>) -> Option<JsonView> {
    match o {
        Some(v) => Some(digest_json(v)),
        None => None,
    }
}

// ---- OAuth credentials ------------------------------------------------------------------

/// OAuth credentials as JSON.
pub open spec fn oauth2_json(v: Oauth2AuthView) -> JsonView {
    JsonView::Object(present(oauth2_fields(v)))
}

/// The fields of OAuth credentials.
pub open spec fn oauth2_fields(v: Oauth2AuthView) -> Seq<Field> {
    seq![
        ("tokenUrl"@, Some(JsonView::Str(v.token_url))),
        ("clientId"@, Some(JsonView::Str(v.client_id))),
        ("clientSecret"@, Some(JsonView::Str(v.client_secret))),
        ("scope"@, kept_text(v.scope)),
        ("clientAuth"@, Some(JsonView::Str(client_auth_word(v.client_auth)))),
    ]
}

/// OAuth credentials as JSON.
pub fn oauth2_to_json(v: &Oauth2Auth) -> (r: Json)
    ensures
        r@ == oauth2_json(v@),
{
    let ghost fs = oauth2_fields(v@);
    let mut out: Vec<Member> = Vec::new();
    assert(views(out@) =~= present(fs.take(0)));
    push_field(&mut out, "tokenUrl", text_value(v.token_url.as_str()));
    proof {
        lemma_present(fs, 0);
    }
    push_field(&mut out, "clientId", text_value(v.client_id.as_str()));
    proof {
        lemma_present(fs, 1);
    }
    push_field(&mut out, "clientSecret", text_value(v.client_secret.as_str()));
    proof {
        lemma_present(fs, 2);
    }
    push_some(&mut out, "scope", &v.scope);
    proof {
        lemma_present(fs, 3);
    }
    push_field(&mut out, "clientAuth", text_value(name_of_client_auth(v.client_auth)));
    proof {
        lemma_present(fs, 4);
    }
    let r: Json = Json::Object(out);
    proof {
        lemma_view(r);
    }
    r
}

/// OAuth credentials, which is left out when there is none.
pub open spec fn kept_oauth2(o: Option<Oauth2AuthView>) -> Option<JsonView> {
    match o {
        Some(v) => Some(oauth2_json(v)),
        None => None,
    }
}

// ---- an authentication ------------------------------------------------------------------

/// An authentication as JSON.
pub open spec fn auth_json(v: AuthSpecView) -> JsonView {
    JsonView::Object(present(auth_fields(v)))
}

/// The fields of an authentication.
pub open spec fn auth_fields(v: AuthSpecView) -> Seq<Field> {
    seq![
        ("type"@, Some(JsonView::Str(auth_type_name(v.kind)))),
        ("bearer"@, kept_bearer(v.bearer)),
        ("basic"@, kept_basic(v.basic)),
        ("apikey"@, kept_apikey(v.apikey)),
        ("digest"@, kept_digest(v.digest)),
        ("oauth2"@, kept_oauth2(v.oauth2)),
    ]
}

/// An authentication as JSON.
pub fn auth_to_json(v: &AuthSpec) -> (r: Json)
    ensures
        r@ == auth_json(v@),
{
    let ghost fs = auth_fields(v@);
    let mut out: Vec<Member> = Vec::new();
    assert(views(out@) =~= present(fs.take(0)));
    push_field(&mut out, "type", text_value(v.kind.as_str()));
    proof {
        lemma_present(fs, 0);
    }
    if let Some(x) = &v.bearer {
        push_field(&mut out, "bearer", bearer_to_json(x));
    }
    proof {
        lemma_present(fs, 1);
    }
    if let Some(x) = &v.basic {
        push_field(&mut out, "basic", basic_to_json(x));
    }
    proof {
        lemma_present(fs, 2);
    }
    if let Some(x) = &v.apikey {
        push_field(&mut out, "apikey", apikey_to_json(x));
    }
    proof {
        lemma_present(fs, 3);
    }
    if let Some(x) = &v.digest {
        push_field(&mut out, "digest", digest_to_json(x));
    }
    proof {
        lemma_present(fs, 4);
    }
    if let Some(x) = &v.oauth2 {
        push_field(&mut out, "oauth2", oauth2_to_json(x));
    }
    proof {
        lemma_present(fs, 5);
    }
    let r: Json = Json::Object(out);
    proof {
        lemma_view(r);
    }
    r
}

// ---- a request --------------------------------------------------------------------------

/// A request as JSON.
pub open spec fn http_json(v: HttpSpecView) -> JsonView {
    JsonView::Object(present(http_fields(v)))
}

/// The fields of a request.
pub open spec fn http_fields(v: HttpSpecView) -> Seq<Field> {
    seq![
        ("method"@, Some(JsonView::Str(v.method))),
        ("url"@, Some(JsonView::Str(v.url))),
        ("query"@, Some(JsonView::Array(v.query.map_values(row_writer())))),
        ("headers"@, Some(JsonView::Array(v.headers.map_values(row_writer())))),
        ("auth"@, Some(auth_json(v.auth))),
        ("body"@, Some(body_json(v.body))),
    ]
}

/// A request as JSON.
pub fn http_to_json(v: &HttpSpec) -> (r: Json)
    ensures
        r@ == http_json(v@),
{
    let ghost fs = http_fields(v@);
    let mut out: Vec<Member> = Vec::new();
    assert(views(out@) =~= present(fs.take(0)));
    push_field(&mut out, "method", text_value(v.method.as_str()));
    proof {
        lemma_present(fs, 0);
    }
    push_field(&mut out, "url", text_value(v.url.as_str()));
    proof {
        lemma_present(fs, 1);
    }
    push_field(&mut out, "query", rows_to_json(&v.query));
    proof {
        lemma_present(fs, 2);
    }
    push_field(&mut out, "headers", rows_to_json(&v.headers));
    proof {
        lemma_present(fs, 3);
    }
    push_field(&mut out, "auth", auth_to_json(&v.auth));
    proof {
        lemma_present(fs, 4);
    }
    push_field(&mut out, "body", body_to_json(&v.body));
    proof {
        lemma_present(fs, 5);
    }
    let r: Json = Json::Object(out);
    proof {
        lemma_view(r);
    }
    r
}

// ---- an output --------------------------------------------------------------------------

/// An output as JSON.
pub open spec fn step_output_json(v: StepOutputView) -> JsonView {
    JsonView::Object(present(step_output_fields(v)))
}

/// The fields of an output.
pub open spec fn step_output_fields(v: StepOutputView) -> Seq<Field> {
    seq![
        ("name"@, Some(JsonView::Str(v.name))),
        ("path"@, Some(JsonView::Str(v.path))),
    ]
}

/// An output as JSON.
pub fn step_output_to_json(v: &StepOutput) -> (r: Json)
    ensures
        r@ == step_output_json(v@),
{
    let ghost fs = step_output_fields(v@);
    let mut out: Vec<Member> = Vec::new();
    assert(views(out@) =~= present(fs.take(0)));
    push_field(&mut out, "name", text_value(v.name.as_str()));
    proof {
        lemma_present(fs, 0);
    }
    push_field(&mut out, "path", text_value(v.path.as_str()));
    proof {
        lemma_present(fs, 1);
    }
    let r: Json = Json::Object(out);
    proof {
        lemma_view(r);
    }
    r
}

/// An output as an item.
pub open spec fn step_output_writer() -> spec_fn(StepOutputView) -> JsonView {
    |v: StepOutputView| step_output_json(v)
}

fn step_outputs_to_json(l: &Vec<StepOutput>) -> (r: Json)
    ensures
        r@ == JsonView::Array(views(l@).map_values(step_output_writer())),
{
    let mut out: Vec<Json> = Vec::new();
    let mut i: usize = 0;
    while i < l.len()
        invariant
            i <= l@.len(),
            out@.len() == i,
            forall|k: int| 0 <= k < i ==> (#[trigger] out@[k])@ == step_output_json(l@[k]@),
        decreases l@.len() - i,
    {
        out.push(step_output_to_json(&l[i]));
        i = i + 1;
    }
    let r: Json = Json::Array(out);
    proof {
        lemma_view(r);
        assert(views(out@) =~= views(l@).map_values(step_output_writer()));
    }
    r
}

// ---- an assertion -----------------------------------------------------------------------

/// An assertion as JSON.
pub open spec fn assertion_json(v: AssertionView) -> JsonView {
    JsonView::Object(present(assertion_fields(v)))
}

/// The fields of an assertion.
pub open spec fn assertion_fields(v: AssertionView) -> Seq<Field> {
    seq![
        ("target"@, Some(JsonView::Str(v.target))),
        ("op"@, Some(JsonView::Str(assert_op_name(v.op)))),
        ("value"@, kept_text(v.value)),
    ]
}

/// An assertion as JSON.
pub fn assertion_to_json(v: &Assertion) -> (r: Json)
    ensures
        r@ == assertion_json(v@),
{
    let ghost fs = assertion_fields(v@);
    let mut out: Vec<Member> = Vec::new();
    assert(views(out@) =~= present(fs.take(0)));
    push_field(&mut out, "target", text_value(v.target.as_str()));
    proof {
        lemma_present(fs, 0);
    }
    push_field(&mut out, "op", text_value(v.op.as_str()));
    proof {
        lemma_present(fs, 1);
    }
    push_some(&mut out, "value", &v.value);
    proof {
        lemma_present(fs, 2);
    }
    let r: Json = Json::Object(out);
    proof {
        lemma_view(r);
    }
    r
}

/// An assertion as an item.
pub open spec fn assertion_writer() -> spec_fn(AssertionView) -> JsonView {
    |v: AssertionView| assertion_json(v)
}

fn assertions_to_json(l: &Vec<Assertion>) -> (r: Json)
    ensures
        r@ == JsonView::Array(views(l@).map_values(assertion_writer())),
{
    let mut out: Vec<Json> = Vec::new();
    let mut i: usize = 0;
    while i < l.len()
        invariant
            i <= l@.len(),
            out@.len() == i,
            forall|k: int| 0 <= k < i ==> (#[trigger] out@[k])@ == assertion_json(l@[k]@),
        decreases l@.len() - i,
    {
        out.push(assertion_to_json(&l[i]));
        i = i + 1;
    }
    let r: Json = Json::Array(out);
    proof {
        lemma_view(r);
        assert(views(out@) =~= views(l@).map_values(assertion_writer()));
    }
    r
}

// ---- a place on the canvas --------------------------------------------------------------

/// A place on the canvas as JSON.
pub open spec fn place_json(v: StepUiView) -> JsonView {
    JsonView::Object(present(place_fields(v)))
}

/// The fields of a place on the canvas.
pub open spec fn place_fields(v: StepUiView) -> Seq<Field> {
    seq![
        ("x"@, Some(coordinate_json(v.x))),
        ("y"@, Some(coordinate_json(v.y))),
    ]
}

/// A place on the canvas as JSON.
pub fn place_to_json(v: &StepUi) -> (r: Json)
    ensures
        r@ == place_json(v@),
{
    let ghost fs = place_fields(v@);
    let mut out: Vec<Member> = Vec::new();
    assert(views(out@) =~= present(fs.take(0)));
    push_field(&mut out, "x", coordinate_value(&v.x));
    proof {
        lemma_present(fs, 0);
    }
    push_field(&mut out, "y", coordinate_value(&v.y));
    proof {
        lemma_present(fs, 1);
    }
    let r: Json = Json::Object(out);
    proof {
        lemma_view(r);
    }
    r
}

/// A place on the canvas, which is left out when there is none.
pub open spec fn kept_place(o: Option<StepUiView>) -> Option<JsonView> {
    match o {
        Some(v) => Some(place_json(v)),
        None => None,
    }
}

// ---- a step -----------------------------------------------------------------------------

/// A step as JSON.
pub open spec fn step_json(v: StepView) -> JsonView {
    JsonView::Object(present(step_fields(v)))
}

/// The fields of a step.
pub open spec fn step_fields(v: StepView) -> Seq<Field> {
    seq![
        ("id"@, Some(JsonView::Str(v.id))),
        ("protocol"@, Some(JsonView::Str(v.protocol))),
        ("ui"@, kept_place(v.ui)),
        ("http"@, Some(http_json(v.http))),
        ("dependsOn"@, Some(texts_json(v.depends_on))),
        ("outputs"@, Some(JsonView::Array(v.outputs.map_values(step_output_writer())))),
        ("assertions"@, Some(JsonView::Array(v.assertions.map_values(assertion_writer())))),
        ("docs"@, kept_text(v.docs)),
    ]
}

/// A step as JSON.
pub fn step_to_json(v: &Step) -> (r: Json)
    ensures
        r@ == step_json(v@),
{
    let ghost fs = step_fields(v@);
    let mut out: Vec<Member> = Vec::new();
    assert(views(out@) =~= present(fs.take(0)));
    push_field(&mut out, "id", text_value(v.id.as_str()));
    proof {
        lemma_present(fs, 0);
    }
    push_field(&mut out, "protocol", text_value(v.protocol.as_str()));
    proof {
        lemma_present(fs, 1);
    }
    if let Some(x) = &v.ui {
        push_field(&mut out, "ui", place_to_json(x));
    }
    proof {
        lemma_present(fs, 2);
    }
    push_field(&mut out, "http", http_to_json(&v.http));
    proof {
        lemma_present(fs, 3);
    }
    push_field(&mut out, "dependsOn", texts_value(&v.depends_on));
    proof {
        lemma_present(fs, 4);
    }
    push_field(&mut out, "outputs", step_outputs_to_json(&v.outputs));
    proof {
        lemma_present(fs, 5);
    }
    push_field(&mut out, "assertions", assertions_to_json(&v.assertions));
    proof {
        lemma_present(fs, 6);
    }
    push_some(&mut out, "docs", &v.docs);
    proof {
        lemma_present(fs, 7);
    }
    let r: Json = Json::Object(out);
    proof {
        lemma_view(r);
    }
    r
}

/// A step as an item.
pub open spec fn step_writer() -> spec_fn(StepView) -> JsonView {
    |v: StepView| step_json(v)
}

fn steps_to_json(l: &Vec<Step>) -> (r: Json)
    ensures
        r@ == JsonView::Array(views(l@).map_values(step_writer())),
{
    let mut out: Vec<Json> = Vec::new();
    let mut i: usize = 0;
    while i < l.len()
        invariant
            i <= l@.len(),
            out@.len() == i,
            forall|k: int| 0 <= k < i ==> (#[trigger] out@[k])@ == step_json(l@[k]@),
        decreases l@.len() - i,
    {
        out.push(step_to_json(&l[i]));
        i = i + 1;
    }
    let r: Json = Json::Array(out);
    proof {
        lemma_view(r);
        assert(views(out@) =~= views(l@).map_values(step_writer()));
    }
    r
}

// ---- a case -----------------------------------------------------------------------------

/// A case as JSON.
pub open spec fn case_json(v: CaseView) -> JsonView {
    JsonView::Object(present(case_fields(v)))
}

/// The fields of a case.
pub open spec fn case_fields(v: CaseView) -> Seq<Field> {
    seq![
        ("version"@, Some(JsonView::Str(v.version))),
        ("name"@, kept_text(v.name)),
        ("vars"@, kept_members(v.vars)),
        ("requests"@, Some(JsonView::Array(v.requests.map_values(step_writer())))),
    ]
}

/// A case as JSON.
pub fn case_to_json(v: &Case) -> (r: Json)
    ensures
        r@ == case_json(v@),
{
    let ghost fs = case_fields(v@);
    let mut out: Vec<Member> = Vec::new();
    assert(views(out@) =~= present(fs.take(0)));
    push_field(&mut out, "version", text_value(v.version.as_str()));
    proof {
        lemma_present(fs, 0);
    }
    push_some(&mut out, "name", &v.name);
    proof {
        lemma_present(fs, 1);
    }
    if let Some(x) = &v.vars {
        push_field(&mut out, "vars", members_value(x));
    }
    proof {
        lemma_present(fs, 2);
    }
    push_field(&mut out, "requests", steps_to_json(&v.requests));
    proof {
        lemma_present(fs, 3);
    }
    let r: Json = Json::Object(out);
    proof {
        lemma_view(r);
    }
    r
}

// ---- an issue ---------------------------------------------------------------------------

/// An issue as JSON.
pub open spec fn issue_json(v: IssueView) -> JsonView {
    JsonView::Object(present(issue_fields(v)))
}

/// The fields of an issue.
pub open spec fn issue_fields(v: IssueView) -> Seq<Field> {
    seq![
        ("severity"@, Some(JsonView::Str(severity_word(v.severity)))),
        ("at"@, Some(JsonView::Str(v.at))),
        ("message"@, Some(JsonView::Str(v.message))),
    ]
}

/// An issue as JSON.
pub fn issue_to_json(v: &Issue) -> (r: Json)
    ensures
        r@ == issue_json(v@),
{
    let ghost fs = issue_fields(v@);
    let mut out: Vec<Member> = Vec::new();
    assert(views(out@) =~= present(fs.take(0)));
    push_field(&mut out, "severity", text_value(name_of_severity(v.severity)));
    proof {
        lemma_present(fs, 0);
    }
    push_field(&mut out, "at", text_value(v.at.as_str()));
    proof {
        lemma_present(fs, 1);
    }
    push_field(&mut out, "message", text_value(v.message.as_str()));
    proof {
        lemma_present(fs, 2);
    }
    let r: Json = Json::Object(out);
    proof {
        lemma_view(r);
    }
    r
}

/// An issue as an item.
pub open spec fn issue_writer() -> spec_fn(IssueView) -> JsonView {
    |v: IssueView| issue_json(v)
}

fn issues_to_json(l: &Vec<Issue>) -> (r: Json)
    ensures
        r@ == JsonView::Array(views(l@).map_values(issue_writer())),
{
    let mut out: Vec<Json> = Vec::new();
    let mut i: usize = 0;
    while i < l.len()
        invariant
            i <= l@.len(),
            out@.len() == i,
            forall|k: int| 0 <= k < i ==> (#[trigger] out@[k])@ == issue_json(l@[k]@),
        decreases l@.len() - i,
    {
        out.push(issue_to_json(&l[i]));
        i = i + 1;
    }
    let r: Json = Json::Array(out);
    proof {
        lemma_view(r);
        assert(views(out@) =~= views(l@).map_values(issue_writer()));
    }
    r
}

// ---- what checking a file found ---------------------------------------------------------

/// What checking a file found as JSON.
pub open spec fn check_result_json(v: CheckResultView) -> JsonView {
    JsonView::Object(present(check_result_fields(v)))
}

/// The fields of what checking a file found.
pub open spec fn check_result_fields(v: CheckResultView) -> Seq<Field> {
    seq![
        ("file"@, Some(JsonView::Str(v.file))),
        ("ok"@, Some(JsonView::Bool(v.ok))),
        ("issues"@, Some(JsonView::Array(v.issues.map_values(issue_writer())))),
    ]
}

/// What checking a file found as JSON.
pub fn check_result_to_json(v: &CheckResult) -> (r: Json)
    ensures
        r@ == check_result_json(v@),
{
    let ghost fs = check_result_fields(v@);
    let mut out: Vec<Member> = Vec::new();
    assert(views(out@) =~= present(fs.take(0)));
    push_field(&mut out, "file", text_value(v.file.as_str()));
    proof {
        lemma_present(fs, 0);
    }
    push_field(&mut out, "ok", Json::Bool(v.ok));
    proof {
        lemma_present(fs, 1);
    }
    push_field(&mut out, "issues", issues_to_json(&v.issues));
    proof {
        lemma_present(fs, 2);
    }
    let r: Json = Json::Object(out);
    proof {
        lemma_view(r);
    }
    r
}

/// What checking a file found as an item.
pub open spec fn check_result_writer() -> spec_fn(CheckResultView) -> JsonView {
    |v: CheckResultView| check_result_json(v)
}

fn check_results_to_json(l: &Vec<CheckResult>) -> (r: Json)
    ensures
        r@ == JsonView::Array(views(l@).map_values(check_result_writer())),
{
    let mut out: Vec<Json> = Vec::new();
    let mut i: usize = 0;
    while i < l.len()
        invariant
            i <= l@.len(),
            out@.len() == i,
            forall|k: int| 0 <= k < i ==> (#[trigger] out@[k])@ == check_result_json(l@[k]@),
        decreases l@.len() - i,
    {
        out.push(check_result_to_json(&l[i]));
        i = i + 1;
    }
    let r: Json = Json::Array(out);
    proof {
        lemma_view(r);
        assert(views(out@) =~= views(l@).map_values(check_result_writer()));
    }
    r
}

// ---- what checking files found ----------------------------------------------------------

/// What checking files found as JSON.
pub open spec fn check_report_json(v: CheckReportView) -> JsonView {
    JsonView::Object(present(check_report_fields(v)))
}

/// The fields of what checking files found.
pub open spec fn check_report_fields(v: CheckReportView) -> Seq<Field> {
    seq![
        ("results"@, Some(JsonView::Array(v.results.map_values(check_result_writer())))),
        ("total"@, Some(JsonView::Number(NumberView::Int(v.total as int)))),
        ("ok"@, Some(JsonView::Number(NumberView::Int(v.ok as int)))),
        ("errors"@, Some(JsonView::Number(NumberView::Int(v.errors as int)))),
        ("warnings"@, Some(JsonView::Number(NumberView::Int(v.warnings as int)))),
    ]
}

/// What checking files found as JSON.
pub fn check_report_to_json(v: &CheckReport) -> (r: Json)
    ensures
        r@ == check_report_json(v@),
{
    let ghost fs = check_report_fields(v@);
    let mut out: Vec<Member> = Vec::new();
    assert(views(out@) =~= present(fs.take(0)));
    push_field(&mut out, "results", check_results_to_json(&v.results));
    proof {
        lemma_present(fs, 0);
    }
    push_field(&mut out, "total", number_value(v.total as u64));
    proof {
        lemma_present(fs, 1);
    }
    push_field(&mut out, "ok", number_value(v.ok as u64));
    proof {
        lemma_present(fs, 2);
    }
    push_field(&mut out, "errors", number_value(v.errors as u64));
    proof {
        lemma_present(fs, 3);
    }
    push_field(&mut out, "warnings", number_value(v.warnings as u64));
    proof {
        lemma_present(fs, 4);
    }
    let r: Json = Json::Object(out);
    proof {
        lemma_view(r);
    }
    r
}

// ---- a step in short --------------------------------------------------------------------

/// A step in short as JSON.
pub open spec fn brief_json(v: StepBriefView) -> JsonView {
    JsonView::Object(present(brief_fields(v)))
}

/// The fields of a step in short.
pub open spec fn brief_fields(v: StepBriefView) -> Seq<Field> {
    seq![
        ("id"@, Some(JsonView::Str(v.id))),
        ("method"@, Some(JsonView::Str(v.method))),
        ("url"@, Some(JsonView::Str(v.url))),
        ("dependsOn"@, kept_texts(v.depends_on)),
        ("assertions"@, Some(JsonView::Number(NumberView::Int(v.assertions as int)))),
    ]
}

/// A step in short as JSON.
pub fn brief_to_json(v: &StepBrief) -> (r: Json)
    ensures
        r@ == brief_json(v@),
{
    let ghost fs = brief_fields(v@);
    let mut out: Vec<Member> = Vec::new();
    assert(views(out@) =~= present(fs.take(0)));
    push_field(&mut out, "id", text_value(v.id.as_str()));
    proof {
        lemma_present(fs, 0);
    }
    push_field(&mut out, "method", text_value(v.method.as_str()));
    proof {
        lemma_present(fs, 1);
    }
    push_field(&mut out, "url", text_value(v.url.as_str()));
    proof {
        lemma_present(fs, 2);
    }
    if v.depends_on.len() > 0 {
        push_field(&mut out, "dependsOn", texts_value(&v.depends_on));
    }
    proof {
        lemma_present(fs, 3);
    }
    push_field(&mut out, "assertions", number_value(v.assertions as u64));
    proof {
        lemma_present(fs, 4);
    }
    let r: Json = Json::Object(out);
    proof {
        lemma_view(r);
    }
    r
}

/// A step in short as an item.
pub open spec fn brief_writer() -> spec_fn(StepBriefView) -> JsonView {
    |v: StepBriefView| brief_json(v)
}

fn briefs_to_json(l: &Vec<StepBrief>) -> (r: Json)
    ensures
        r@ == JsonView::Array(views(l@).map_values(brief_writer())),
{
    let mut out: Vec<Json> = Vec::new();
    let mut i: usize = 0;
    while i < l.len()
        invariant
            i <= l@.len(),
            out@.len() == i,
            forall|k: int| 0 <= k < i ==> (#[trigger] out@[k])@ == brief_json(l@[k]@),
        decreases l@.len() - i,
    {
        out.push(brief_to_json(&l[i]));
        i = i + 1;
    }
    let r: Json = Json::Array(out);
    proof {
        lemma_view(r);
        assert(views(out@) =~= views(l@).map_values(brief_writer()));
    }
    r
}

// ---- a file in a list -------------------------------------------------------------------

/// A file in a list as JSON.
pub open spec fn item_json(v: ListItemView) -> JsonView {
    JsonView::Object(present(item_fields(v)))
}

/// The fields of a file in a list.
pub open spec fn item_fields(v: ListItemView) -> Seq<Field> {
    seq![
        ("file"@, Some(JsonView::Str(v.file))),
        ("path"@, Some(JsonView::Str(v.path))),
        ("name"@, kept_text(v.name)),
        ("valid"@, Some(JsonView::Bool(v.valid))),
        ("error"@, kept_text(v.error)),
        ("steps"@, Some(JsonView::Array(v.steps.map_values(brief_writer())))),
    ]
}

/// A file in a list as JSON.
pub fn item_to_json(v: &ListItem) -> (r: Json)
    ensures
        r@ == item_json(v@),
{
    let ghost fs = item_fields(v@);
    let mut out: Vec<Member> = Vec::new();
    assert(views(out@) =~= present(fs.take(0)));
    push_field(&mut out, "file", text_value(v.file.as_str()));
    proof {
        lemma_present(fs, 0);
    }
    push_field(&mut out, "path", text_value(v.path.as_str()));
    proof {
        lemma_present(fs, 1);
    }
    push_some(&mut out, "name", &v.name);
    proof {
        lemma_present(fs, 2);
    }
    push_field(&mut out, "valid", Json::Bool(v.valid));
    proof {
        lemma_present(fs, 3);
    }
    push_some(&mut out, "error", &v.error);
    proof {
        lemma_present(fs, 4);
    }
    push_field(&mut out, "steps", briefs_to_json(&v.steps));
    proof {
        lemma_present(fs, 5);
    }
    let r: Json = Json::Object(out);
    proof {
        lemma_view(r);
    }
    r
}

/// A file in a list as an item.
pub open spec fn item_writer() -> spec_fn(ListItemView) -> JsonView {
    |v: ListItemView| item_json(v)
}

fn items_to_json(l: &Vec<ListItem>) -> (r: Json)
    ensures
        r@ == JsonView::Array(views(l@).map_values(item_writer())),
{
    let mut out: Vec<Json> = Vec::new();
    let mut i: usize = 0;
    while i < l.len()
        invariant
            i <= l@.len(),
            out@.len() == i,
            forall|k: int| 0 <= k < i ==> (#[trigger] out@[k])@ == item_json(l@[k]@),
        decreases l@.len() - i,
    {
        out.push(item_to_json(&l[i]));
        i = i + 1;
    }
    let r: Json = Json::Array(out);
    proof {
        lemma_view(r);
        assert(views(out@) =~= views(l@).map_values(item_writer()));
    }
    r
}

// ---- a cookie ---------------------------------------------------------------------------

/// A cookie as JSON.
pub open spec fn cookie_json(v: CookieItemView) -> JsonView {
    JsonView::Object(present(cookie_fields(v)))
}

/// The fields of a cookie.
pub open spec fn cookie_fields(v: CookieItemView) -> Seq<Field> {
    seq![
        ("domain"@, Some(JsonView::Str(v.domain))),
        ("path"@, Some(JsonView::Str(v.path))),
        ("name"@, Some(JsonView::Str(v.name))),
        ("value"@, Some(JsonView::Str(v.value))),
        ("secure"@, Some(JsonView::Bool(v.secure))),
        ("expiresMs"@, Some(number_or_null(v.expires_ms))),
        ("expired"@, Some(JsonView::Bool(v.expired))),
        ("hostOnly"@, Some(JsonView::Bool(v.host_only))),
    ]
}

/// A cookie as JSON.
pub fn cookie_to_json(v: &CookieItem) -> (r: Json)
    ensures
        r@ == cookie_json(v@),
{
    let ghost fs = cookie_fields(v@);
    let mut out: Vec<Member> = Vec::new();
    assert(views(out@) =~= present(fs.take(0)));
    push_field(&mut out, "domain", text_value(v.domain.as_str()));
    proof {
        lemma_present(fs, 0);
    }
    push_field(&mut out, "path", text_value(v.path.as_str()));
    proof {
        lemma_present(fs, 1);
    }
    push_field(&mut out, "name", text_value(v.name.as_str()));
    proof {
        lemma_present(fs, 2);
    }
    push_field(&mut out, "value", text_value(v.value.as_str()));
    proof {
        lemma_present(fs, 3);
    }
    push_field(&mut out, "secure", Json::Bool(v.secure));
    proof {
        lemma_present(fs, 4);
    }
    push_field(&mut out, "expiresMs", number_or_none(v.expires_ms));
    proof {
        lemma_present(fs, 5);
    }
    push_field(&mut out, "expired", Json::Bool(v.expired));
    proof {
        lemma_present(fs, 6);
    }
    push_field(&mut out, "hostOnly", Json::Bool(v.host_only));
    proof {
        lemma_present(fs, 7);
    }
    let r: Json = Json::Object(out);
    proof {
        lemma_view(r);
    }
    r
}

/// A cookie as an item.
pub open spec fn cookie_writer() -> spec_fn(CookieItemView) -> JsonView {
    |v: CookieItemView| cookie_json(v)
}

fn cookies_to_json(l: &Vec<CookieItem>) -> (r: Json)
    ensures
        r@ == JsonView::Array(views(l@).map_values(cookie_writer())),
{
    let mut out: Vec<Json> = Vec::new();
    let mut i: usize = 0;
    while i < l.len()
        invariant
            i <= l@.len(),
            out@.len() == i,
            forall|k: int| 0 <= k < i ==> (#[trigger] out@[k])@ == cookie_json(l@[k]@),
        decreases l@.len() - i,
    {
        out.push(cookie_to_json(&l[i]));
        i = i + 1;
    }
    let r: Json = Json::Array(out);
    proof {
        lemma_view(r);
        assert(views(out@) =~= views(l@).map_values(cookie_writer()));
    }
    r
}

// ---- printed ---------------------------------------------------------------------------

/// A case as JSON text.
pub fn case_text(c: &Case) -> (r: Option<String>)
    ensures
        opt_view(r) == json_pretty(case_json(c@)),
{
    pretty(&case_to_json(c))
}

/// What checking files found as JSON text.
pub fn check_report_text(c: &CheckReport) -> (r: Option<String>)
    ensures
        opt_view(r) == json_pretty(check_report_json(c@)),
{
    pretty(&check_report_to_json(c))
}

/// A list of files as JSON text.
pub fn items_text(l: &Vec<ListItem>) -> (r: Option<String>)
    ensures
        opt_view(r) == json_pretty(JsonView::Array(views(l@).map_values(item_writer()))),
{
    pretty(&items_to_json(l))
}

/// Cookies as JSON text.
pub fn cookies_text(l: &Vec<CookieItem>) -> (r: Option<String>)
    ensures
        opt_view(r) == json_pretty(JsonView::Array(views(l@).map_values(cookie_writer()))),
{
    pretty(&cookies_to_json(l))
}

/// Texts as JSON text.
pub fn list_text(l: &Vec<String>) -> (r: Option<String>)
    ensures
        opt_view(r) == json_pretty(texts_json(views(l@))),
{
    pretty(&texts_value(l))
}

/// An environment as JSON text.
pub fn environment_text(e: &EnvironmentInfo) -> (r: Option<String>)
    ensures
        opt_view(r) == json_pretty(environment_json(e@)),
{
    pretty(&environment_to_json(e))
}

/// The environments and which of them is used unless another is named.
pub open spec fn environments_json(names: Seq<Seq<char>>, first: Seq<char>) -> JsonView {
    JsonView::Object(seq![("environments"@, texts_json(names)), ("default"@, JsonView::Str(first))])
}

/// The environments as JSON text.
pub fn environments_text(names: &Vec<String>, first: &str) -> (r: Option<String>)
    ensures
        opt_view(r) == json_pretty(environments_json(views(names@), first@)),
{
    let mut out: Vec<Member> = Vec::new();
    assert(views(out@) =~= seq![]);
    push_field(&mut out, "environments", texts_value(names));
    push_field(&mut out, "default", text_value(first));
    let v: Json = Json::Object(out);
    proof {
        lemma_view(v);
        assert(v@->Object_0 =~= environments_json(views(names@), first@)->Object_0);
    }
    pretty(&v)
}

// ---- answers to tools ------------------------------------------------------------------

/// A list of files with their number.
pub open spec fn listed_json(l: Seq<ListItemView>) -> JsonView {
    JsonView::Object(
        seq![
            ("cases"@, JsonView::Array(l.map_values(item_writer()))),
            ("total"@, JsonView::Number(NumberView::Int(l.len() as int))),
        ],
    )
}

/// A list of files with their number as JSON text.
pub fn listed_text(l: &Vec<ListItem>) -> (r: Option<String>)
    ensures
        opt_view(r) == json_pretty(listed_json(views(l@))),
{
    let mut out: Vec<Member> = Vec::new();
    assert(views(out@) =~= seq![]);
    push_field(&mut out, "cases", items_to_json(l));
    push_field(&mut out, "total", number_value(l.len() as u64));
    let v: Json = Json::Object(out);
    proof {
        lemma_view(v);
        assert(v@->Object_0 =~= listed_json(views(l@))->Object_0);
    }
    pretty(&v)
}

/// A case file that is shown: the case and how it is written, or why the text is no case.
pub open spec fn shown_json(file: Seq<char>, text: Seq<char>, a: AnalyzeResultView) -> JsonView {
    match runnable(a) {
        Ok(c) => JsonView::Object(
            seq![
                ("file"@, JsonView::Str(file)),
                ("case"@, case_json(c)),
                ("yaml"@, JsonView::Str(yaml_text(crate::case_file::case_json(c)))),
            ],
        ),
        Err(e) => JsonView::Object(
            seq![
                ("file"@, JsonView::Str(file)),
                ("valid"@, JsonView::Bool(false)),
                ("error"@, JsonView::Str(e)),
                ("raw"@, JsonView::Str(text)),
            ],
        ),
    }
}

/// A case file that is shown as JSON.
fn shown_to_json(file: &str, text: &str, a: AnalyzeResult) -> (r: Json)
    ensures
        r@ == shown_json(file@, text@, a@),
{
    let ghost av = a@;
    let mut out: Vec<Member> = Vec::new();
    assert(views(out@) =~= seq![]);
    push_field(&mut out, "file", text_value(file));
    match take_case(a) {
        Ok(c) => {
            push_field(&mut out, "case", case_to_json(&c));
            push_field(&mut out, "yaml", Json::Str(dump_case(&c)));
        },
        Err(e) => {
            push_field(&mut out, "valid", Json::Bool(false));
            push_field(&mut out, "error", text_value(e.as_str()));
            push_field(&mut out, "raw", text_value(text));
        },
    }
    let v: Json = Json::Object(out);
    proof {
        lemma_view(v);
        assert(v@->Object_0 =~= shown_json(file@, text@, av)->Object_0);
    }
    v
}

/// A case file that is shown as JSON text.
pub fn shown_text(file: &str, text: &str) -> (r: Option<String>)
    ensures
        opt_view(r) == json_pretty(shown_json(file@, text@, analysis(loaded(text@)))),
{
    pretty(&shown_to_json(file, text, analyze_case(text)))
}

/// The name of the topic that is answered.
pub open spec fn topic_name(name: Option<Seq<char>>) -> Seq<char> {
    match name {
        Some(n) => n,
        None => "case"@,
    }
}

fn topic_value(name: Option<&str>) -> (r: Json)
    ensures
        r@ == JsonView::Str(topic_name(opt_text(name))),
{
    match name {
        Some(n) => text_value(n),
        None => text_value("case"),
    }
}

/// What a description says on a topic, with the topics in one line.
pub open spec fn docs_json(doc: Seq<char>, name: Option<Seq<char>>) -> JsonView {
    JsonView::Object(
        seq![
            ("topic"@, JsonView::Str(topic_name(name))),
            (
                "topics"@,
                JsonView::Str(
                    join(topic_table().map_values(|t: TopicView| topic_entry(t)), "、"@),
                ),
            ),
            ("markdown"@, JsonView::Str(topic_text(doc, name))),
        ],
    )
}

/// What a description says on a topic as JSON text.
pub fn docs_text(doc: &str, name: Option<&str>) -> (r: Option<String>)
    ensures
        opt_view(r) == json_pretty(docs_json(doc@, opt_text(name))),
{
    let mut out: Vec<Member> = Vec::new();
    assert(views(out@) =~= seq![]);
    push_field(&mut out, "topic", topic_value(name));
    push_field(&mut out, "topics", Json::Str(topic_list()));
    push_field(&mut out, "markdown", Json::Str(topic(doc, name)));
    let v: Json = Json::Object(out);
    proof {
        lemma_view(v);
        assert(v@->Object_0 =~= docs_json(doc@, opt_text(name))->Object_0);
    }
    pretty(&v)
}

/// A topic as JSON.
pub open spec fn topic_json(t: TopicView) -> JsonView {
    JsonView::Object(seq![("name"@, JsonView::Str(t.name)), ("about"@, JsonView::Str(t.about))])
}

fn topic_to_json(t: &Topic) -> (r: Json)
    ensures
        r@ == topic_json(t@),
{
    let mut out: Vec<Member> = Vec::new();
    assert(views(out@) =~= seq![]);
    push_field(&mut out, "name", text_value(t.name.as_str()));
    push_field(&mut out, "about", text_value(t.about.as_str()));
    let v: Json = Json::Object(out);
    proof {
        lemma_view(v);
        assert(v@->Object_0 =~= topic_json(t@)->Object_0);
    }
    v
}

fn topics_to_json(l: &Vec<Topic>) -> (r: Json)
    ensures
        r@ == JsonView::Array(views(l@).map_values(|t: TopicView| topic_json(t))),
{
    let mut out: Vec<Json> = Vec::new();
    let mut i: usize = 0;
    while i < l.len()
        invariant
            i <= l@.len(),
            out@.len() == i,
            forall|k: int| 0 <= k < i ==> (#[trigger] out@[k])@ == topic_json(l@[k]@),
        decreases l@.len() - i,
    {
        out.push(topic_to_json(&l[i]));
        i = i + 1;
    }
    let r: Json = Json::Array(out);
    proof {
        lemma_view(r);
        assert(views(out@) =~= views(l@).map_values(|t: TopicView| topic_json(t)));
    }
    r
}

/// What a description says on a topic, with all topics.
pub open spec fn tool_docs_json(doc: Seq<char>, name: Option<Seq<char>>) -> JsonView {
    JsonView::Object(
        seq![
            ("topic"@, JsonView::Str(topic_name(name))),
            (
                "availableTopics"@,
                JsonView::Array(topic_table().map_values(|t: TopicView| topic_json(t))),
            ),
            ("markdown"@, JsonView::Str(topic_text(doc, name))),
        ],
    )
}

/// What a description says on a topic, with all topics, as JSON text.
pub fn tool_docs_text(doc: &str, name: Option<&str>) -> (r: Option<String>)
    ensures
        opt_view(r) == json_pretty(tool_docs_json(doc@, opt_text(name))),
{
    let mut out: Vec<Member> = Vec::new();
    assert(views(out@) =~= seq![]);
    push_field(&mut out, "topic", topic_value(name));
    push_field(&mut out, "availableTopics", topics_to_json(&topics()));
    push_field(&mut out, "markdown", Json::Str(topic(doc, name)));
    let v: Json = Json::Object(out);
    proof {
        lemma_view(v);
        assert(v@->Object_0 =~= tool_docs_json(doc@, opt_text(name))->Object_0);
    }
    pretty(&v)
}

// ---- laws of what is written under which name --------------------------------------------

/// The member of an object.
pub open spec fn member_of(v: JsonView, k: Seq<char>) -> Option<JsonView> {
    match v {
        JsonView::Object(m) => lookup(m, k),
        _ => None,
    }
}

/// A text that may be missing, as a member that may be.
pub open spec fn text_if(o: Option<Seq<char>>) -> Option<JsonView> {
    match o {
        Some(t) => Some(JsonView::Str(t)),
        None => None,
    }
}

/// Whether a member is a list of a length, whose item at a position is a value.
pub open spec fn lists_at(o: Option<JsonView>, n: nat, i: int, v: JsonView) -> bool {
    match o {
        Some(JsonView::Array(a)) => a.len() == n && (0 <= i < n ==> a[i] == v),
        _ => false,
    }
}

/// A row is written with its name, its value, whether it is switched on, and its description if it
/// has one.
pub proof fn law_row_written(v: KvView)
    ensures
        member_of(row_json(v), "name"@) == Some(JsonView::Str(v.name)),
        member_of(row_json(v), "value"@) == Some(JsonView::Str(v.value)),
        member_of(row_json(v), "enabled"@) == Some(JsonView::Bool(v.enabled)),
        member_of(row_json(v), "description"@) == text_if(v.description),
{
    let fs = row_fields(v);
    reveal_strlit("name");
    assert("name"@.len() == 4 && "name"@[0] == 'n' && "name"@[3] == 'e');
    reveal_strlit("value");
    assert("value"@.len() == 5 && "value"@[0] == 'v' && "value"@[4] == 'e');
    reveal_strlit("enabled");
    assert("enabled"@.len() == 7 && "enabled"@[0] == 'e' && "enabled"@[6] == 'd');
    reveal_strlit("description");
    assert("description"@.len() == 11 && "description"@[0] == 'd' && "description"@[10] == 'n');
    assert(names_differ(fs));
    lemma_field(fs, 0);
    lemma_field(fs, 1);
    lemma_field(fs, 2);
    lemma_field(fs, 3);
}

/// A form field is written as a row is, with the kind that it was given.
pub proof fn law_form_item_written(v: FormItemView)
    ensures
        member_of(form_item_json(v), "name"@) == Some(JsonView::Str(v.name)),
        member_of(form_item_json(v), "value"@) == Some(JsonView::Str(v.value)),
        member_of(form_item_json(v), "enabled"@) == Some(JsonView::Bool(v.enabled)),
        member_of(form_item_json(v), "description"@) == text_if(v.description),
        member_of(form_item_json(v), "type"@) == (match v.kind {
            Some(FormKind::File) => Some(JsonView::Str("file"@)),
            Some(FormKind::Text) => Some(JsonView::Str("text"@)),
            None => None,
        }),
{
    let fs = form_item_fields(v);
    reveal_strlit("name");
    assert("name"@.len() == 4 && "name"@[0] == 'n' && "name"@[3] == 'e');
    reveal_strlit("value");
    assert("value"@.len() == 5 && "value"@[0] == 'v' && "value"@[4] == 'e');
    reveal_strlit("enabled");
    assert("enabled"@.len() == 7 && "enabled"@[0] == 'e' && "enabled"@[6] == 'd');
    reveal_strlit("description");
    assert("description"@.len() == 11 && "description"@[0] == 'd' && "description"@[10] == 'n');
    reveal_strlit("type");
    assert("type"@.len() == 4 && "type"@[0] == 't' && "type"@[3] == 'e');
    assert(names_differ(fs));
    lemma_field(fs, 0);
    lemma_field(fs, 1);
    lemma_field(fs, 2);
    lemma_field(fs, 3);
    lemma_field(fs, 4);
}

/// A body is written with the word of its kind and every part that it has.
pub proof fn law_body_written(v: BodySpecView, i: int)
    ensures
        member_of(body_json(v), "type"@) == Some(JsonView::Str(body_type_name(v.kind))),
        member_of(body_json(v), "json"@) == v.json,
        member_of(body_json(v), "xml"@) == text_if(v.xml),
        member_of(body_json(v), "text"@) == text_if(v.text),
        member_of(body_json(v), "contentType"@) == text_if(v.content_type),
        member_of(body_json(v), "filePath"@) == text_if(v.file_path),
        v.urlencoded is None ==> member_of(body_json(v), "urlencoded"@) is None,
        v.urlencoded is Some ==> lists_at(member_of(body_json(v), "urlencoded"@), v.urlencoded->0.len(), i, row_json(v.urlencoded->0[i])),
        v.form_data is None ==> member_of(body_json(v), "formData"@) is None,
        v.form_data is Some ==> lists_at(member_of(body_json(v), "formData"@), v.form_data->0.len(), i, form_item_json(v.form_data->0[i])),
{
    let fs = body_fields(v);
    reveal_strlit("type");
    assert("type"@.len() == 4 && "type"@[0] == 't' && "type"@[3] == 'e');
    reveal_strlit("json");
    assert("json"@.len() == 4 && "json"@[0] == 'j' && "json"@[3] == 'n');
    reveal_strlit("xml");
    assert("xml"@.len() == 3 && "xml"@[0] == 'x' && "xml"@[2] == 'l');
    reveal_strlit("text");
    assert("text"@.len() == 4 && "text"@[0] == 't' && "text"@[3] == 't');
    reveal_strlit("contentType");
    assert("contentType"@.len() == 11 && "contentType"@[0] == 'c' && "contentType"@[10] == 'e');
    reveal_strlit("urlencoded");
    assert("urlencoded"@.len() == 10 && "urlencoded"@[0] == 'u' && "urlencoded"@[9] == 'd');
    reveal_strlit("formData");
    assert("formData"@.len() == 8 && "formData"@[0] == 'f' && "formData"@[7] == 'a');
    reveal_strlit("filePath");
    assert("filePath"@.len() == 8 && "filePath"@[0] == 'f' && "filePath"@[7] == 'h');
    assert(names_differ(fs));
    lemma_field(fs, 0);
    lemma_field(fs, 1);
    lemma_field(fs, 2);
    lemma_field(fs, 3);
    lemma_field(fs, 4);
    lemma_field(fs, 5);
    lemma_field(fs, 6);
    lemma_field(fs, 7);
}

/// A bearer token is written.
pub proof fn law_bearer_written(v: BearerAuthView)
    ensures
        member_of(bearer_json(v), "token"@) == Some(JsonView::Str(v.token)),
{
    let fs = bearer_fields(v);
    reveal_strlit("token");
    assert("token"@.len() == 5 && "token"@[0] == 't' && "token"@[4] == 'n');
    assert(names_differ(fs));
    lemma_field(fs, 0);
}

/// Basic credentials are written with the user and the password.
pub proof fn law_basic_written(v: BasicAuthView)
    ensures
        member_of(basic_json(v), "username"@) == Some(JsonView::Str(v.username)),
        member_of(basic_json(v), "password"@) == Some(JsonView::Str(v.password)),
{
    let fs = basic_fields(v);
    reveal_strlit("username");
    assert("username"@.len() == 8 && "username"@[0] == 'u' && "username"@[7] == 'e');
    reveal_strlit("password");
    assert("password"@.len() == 8 && "password"@[0] == 'p' && "password"@[7] == 'd');
    assert(names_differ(fs));
    lemma_field(fs, 0);
    lemma_field(fs, 1);
}

/// An API key is written with its name, its value and where it goes.
pub proof fn law_apikey_written(v: ApikeyAuthView)
    ensures
        member_of(apikey_json(v), "key"@) == Some(JsonView::Str(v.key)),
        member_of(apikey_json(v), "value"@) == Some(JsonView::Str(v.value)),
        member_of(apikey_json(v), "in"@) == Some(
            JsonView::Str(
                match v.place {
                    ApikeyIn::Header => "header"@,
                    ApikeyIn::Query => "query"@,
                },
            ),
        ),
{
    let fs = apikey_fields(v);
    reveal_strlit("key");
    assert("key"@.len() == 3 && "key"@[0] == 'k' && "key"@[2] == 'y');
    reveal_strlit("value");
    assert("value"@.len() == 5 && "value"@[0] == 'v' && "value"@[4] == 'e');
    reveal_strlit("in");
    assert("in"@.len() == 2 && "in"@[0] == 'i' && "in"@[1] == 'n');
    assert(names_differ(fs));
    lemma_field(fs, 0);
    lemma_field(fs, 1);
    lemma_field(fs, 2);
}

/// Digest credentials are written with the user and the password.
pub proof fn law_digest_written(v: DigestAuthView)
    ensures
        member_of(digest_json(v), "username"@) == Some(JsonView::Str(v.username)),
        member_of(digest_json(v), "password"@) == Some(JsonView::Str(v.password)),
{
    let fs = digest_fields(v);
    reveal_strlit("username");
    assert("username"@.len() == 8 && "username"@[0] == 'u' && "username"@[7] == 'e');
    reveal_strlit("password");
    assert("password"@.len() == 8 && "password"@[0] == 'p' && "password"@[7] == 'd');
    assert(names_differ(fs));
    lemma_field(fs, 0);
    lemma_field(fs, 1);
}

/// An OAuth 2.0 client is written with its address, its id and secret, its scope if it has one,
/// and where it is named.
pub proof fn law_oauth2_written(v: Oauth2AuthView)
    ensures
        member_of(oauth2_json(v), "tokenUrl"@) == Some(JsonView::Str(v.token_url)),
        member_of(oauth2_json(v), "clientId"@) == Some(JsonView::Str(v.client_id)),
        member_of(oauth2_json(v), "clientSecret"@) == Some(JsonView::Str(v.client_secret)),
        member_of(oauth2_json(v), "scope"@) == text_if(v.scope),
        member_of(oauth2_json(v), "clientAuth"@) == Some(
            JsonView::Str(
                match v.client_auth {
                    ClientAuth::Header => "header"@,
                    ClientAuth::Body => "body"@,
                },
            ),
        ),
{
    let fs = oauth2_fields(v);
    reveal_strlit("tokenUrl");
    assert("tokenUrl"@.len() == 8 && "tokenUrl"@[0] == 't' && "tokenUrl"@[7] == 'l');
    reveal_strlit("clientId");
    assert("clientId"@.len() == 8 && "clientId"@[0] == 'c' && "clientId"@[7] == 'd');
    reveal_strlit("clientSecret");
    assert("clientSecret"@.len() == 12 && "clientSecret"@[0] == 'c' && "clientSecret"@[11] == 't');
    reveal_strlit("scope");
    assert("scope"@.len() == 5 && "scope"@[0] == 's' && "scope"@[4] == 'e');
    reveal_strlit("clientAuth");
    assert("clientAuth"@.len() == 10 && "clientAuth"@[0] == 'c' && "clientAuth"@[9] == 'h');
    assert(names_differ(fs));
    lemma_field(fs, 0);
    lemma_field(fs, 1);
    lemma_field(fs, 2);
    lemma_field(fs, 3);
    lemma_field(fs, 4);
}

/// Credentials are written with the word of their kind and those of each kind that are there.
pub proof fn law_auth_written(v: AuthSpecView)
    ensures
        member_of(auth_json(v), "type"@) == Some(JsonView::Str(auth_type_name(v.kind))),
        v.bearer is None ==> member_of(auth_json(v), "bearer"@) is None,
        v.bearer is Some ==> member_of(auth_json(v), "bearer"@) == Some(bearer_json(v.bearer->0)),
        v.basic is None ==> member_of(auth_json(v), "basic"@) is None,
        v.basic is Some ==> member_of(auth_json(v), "basic"@) == Some(basic_json(v.basic->0)),
        v.apikey is None ==> member_of(auth_json(v), "apikey"@) is None,
        v.apikey is Some ==> member_of(auth_json(v), "apikey"@) == Some(apikey_json(v.apikey->0)),
        v.digest is None ==> member_of(auth_json(v), "digest"@) is None,
        v.digest is Some ==> member_of(auth_json(v), "digest"@) == Some(digest_json(v.digest->0)),
        v.oauth2 is None ==> member_of(auth_json(v), "oauth2"@) is None,
        v.oauth2 is Some ==> member_of(auth_json(v), "oauth2"@) == Some(oauth2_json(v.oauth2->0)),
{
    let fs = auth_fields(v);
    reveal_strlit("type");
    assert("type"@.len() == 4 && "type"@[0] == 't' && "type"@[3] == 'e');
    reveal_strlit("bearer");
    assert("bearer"@.len() == 6 && "bearer"@[0] == 'b' && "bearer"@[5] == 'r');
    reveal_strlit("basic");
    assert("basic"@.len() == 5 && "basic"@[0] == 'b' && "basic"@[4] == 'c');
    reveal_strlit("apikey");
    assert("apikey"@.len() == 6 && "apikey"@[0] == 'a' && "apikey"@[5] == 'y');
    reveal_strlit("digest");
    assert("digest"@.len() == 6 && "digest"@[0] == 'd' && "digest"@[5] == 't');
    reveal_strlit("oauth2");
    assert("oauth2"@.len() == 6 && "oauth2"@[0] == 'o' && "oauth2"@[5] == '2');
    assert(names_differ(fs));
    lemma_field(fs, 0);
    lemma_field(fs, 1);
    lemma_field(fs, 2);
    lemma_field(fs, 3);
    lemma_field(fs, 4);
    lemma_field(fs, 5);
}

/// A request is written with all that it has.
pub proof fn law_http_written(v: HttpSpecView, i: int)
    ensures
        member_of(http_json(v), "method"@) == Some(JsonView::Str(v.method)),
        member_of(http_json(v), "url"@) == Some(JsonView::Str(v.url)),
        lists_at(member_of(http_json(v), "query"@), v.query.len(), i, row_json(v.query[i])),
        lists_at(member_of(http_json(v), "headers"@), v.headers.len(), i, row_json(v.headers[i])),
        member_of(http_json(v), "auth"@) == Some(auth_json(v.auth)),
        member_of(http_json(v), "body"@) == Some(body_json(v.body)),
{
    let fs = http_fields(v);
    reveal_strlit("method");
    assert("method"@.len() == 6 && "method"@[0] == 'm' && "method"@[5] == 'd');
    reveal_strlit("url");
    assert("url"@.len() == 3 && "url"@[0] == 'u' && "url"@[2] == 'l');
    reveal_strlit("query");
    assert("query"@.len() == 5 && "query"@[0] == 'q' && "query"@[4] == 'y');
    reveal_strlit("headers");
    assert("headers"@.len() == 7 && "headers"@[0] == 'h' && "headers"@[6] == 's');
    reveal_strlit("auth");
    assert("auth"@.len() == 4 && "auth"@[0] == 'a' && "auth"@[3] == 'h');
    reveal_strlit("body");
    assert("body"@.len() == 4 && "body"@[0] == 'b' && "body"@[3] == 'y');
    assert(names_differ(fs));
    lemma_field(fs, 0);
    lemma_field(fs, 1);
    lemma_field(fs, 2);
    lemma_field(fs, 3);
    lemma_field(fs, 4);
    lemma_field(fs, 5);
}

/// An output is written with its name and its path.
pub proof fn law_step_output_written(v: StepOutputView)
    ensures
        member_of(step_output_json(v), "name"@) == Some(JsonView::Str(v.name)),
        member_of(step_output_json(v), "path"@) == Some(JsonView::Str(v.path)),
{
    let fs = step_output_fields(v);
    reveal_strlit("name");
    assert("name"@.len() == 4 && "name"@[0] == 'n' && "name"@[3] == 'e');
    reveal_strlit("path");
    assert("path"@.len() == 4 && "path"@[0] == 'p' && "path"@[3] == 'h');
    assert(names_differ(fs));
    lemma_field(fs, 0);
    lemma_field(fs, 1);
}

/// An assertion is written with its target, the word of its operator and its value if it has one.
pub proof fn law_assertion_written(v: AssertionView)
    ensures
        member_of(assertion_json(v), "target"@) == Some(JsonView::Str(v.target)),
        member_of(assertion_json(v), "op"@) == Some(JsonView::Str(assert_op_name(v.op))),
        member_of(assertion_json(v), "value"@) == text_if(v.value),
{
    let fs = assertion_fields(v);
    reveal_strlit("target");
    assert("target"@.len() == 6 && "target"@[0] == 't' && "target"@[5] == 't');
    reveal_strlit("op");
    assert("op"@.len() == 2 && "op"@[0] == 'o' && "op"@[1] == 'p');
    reveal_strlit("value");
    assert("value"@.len() == 5 && "value"@[0] == 'v' && "value"@[4] == 'e');
    assert(names_differ(fs));
    lemma_field(fs, 0);
    lemma_field(fs, 1);
    lemma_field(fs, 2);
}

/// A step is written with all that it has.
pub proof fn law_step_written(v: StepView, i: int)
    ensures
        member_of(step_json(v), "id"@) == Some(JsonView::Str(v.id)),
        member_of(step_json(v), "protocol"@) == Some(JsonView::Str(v.protocol)),
        member_of(step_json(v), "http"@) == Some(http_json(v.http)),
        lists_at(member_of(step_json(v), "dependsOn"@), v.depends_on.len(), i, JsonView::Str(v.depends_on[i])),
        lists_at(member_of(step_json(v), "outputs"@), v.outputs.len(), i, step_output_json(v.outputs[i])),
        lists_at(member_of(step_json(v), "assertions"@), v.assertions.len(), i, assertion_json(v.assertions[i])),
        member_of(step_json(v), "docs"@) == text_if(v.docs),
        v.ui is None ==> member_of(step_json(v), "ui"@) is None,
        v.ui is Some ==> member_of(step_json(v), "ui"@) == Some(place_json(v.ui->0)),
{
    let fs = step_fields(v);
    reveal_strlit("id");
    assert("id"@.len() == 2 && "id"@[0] == 'i' && "id"@[1] == 'd');
    reveal_strlit("protocol");
    assert("protocol"@.len() == 8 && "protocol"@[0] == 'p' && "protocol"@[7] == 'l');
    reveal_strlit("ui");
    assert("ui"@.len() == 2 && "ui"@[0] == 'u' && "ui"@[1] == 'i');
    reveal_strlit("http");
    assert("http"@.len() == 4 && "http"@[0] == 'h' && "http"@[3] == 'p');
    reveal_strlit("dependsOn");
    assert("dependsOn"@.len() == 9 && "dependsOn"@[0] == 'd' && "dependsOn"@[8] == 'n');
    reveal_strlit("outputs");
    assert("outputs"@.len() == 7 && "outputs"@[0] == 'o' && "outputs"@[6] == 's');
    reveal_strlit("assertions");
    assert("assertions"@.len() == 10 && "assertions"@[0] == 'a' && "assertions"@[9] == 's');
    reveal_strlit("docs");
    assert("docs"@.len() == 4 && "docs"@[0] == 'd' && "docs"@[3] == 's');
    assert(names_differ(fs));
    lemma_field(fs, 0);
    lemma_field(fs, 1);
    lemma_field(fs, 2);
    lemma_field(fs, 3);
    lemma_field(fs, 4);
    lemma_field(fs, 5);
    lemma_field(fs, 6);
    lemma_field(fs, 7);
}

/// A case is written with its version, its name and variables if it has some, and its steps in
/// order.
pub proof fn law_case_written(v: CaseView, i: int)
    ensures
        member_of(case_json(v), "version"@) == Some(JsonView::Str(v.version)),
        member_of(case_json(v), "name"@) == text_if(v.name),
        member_of(case_json(v), "vars"@) == (match v.vars {
            Some(m) => Some(JsonView::Object(m)),
            None => None,
        }),
        lists_at(member_of(case_json(v), "requests"@), v.requests.len(), i, step_json(v.requests[i])),
{
    let fs = case_fields(v);
    reveal_strlit("version");
    assert("version"@.len() == 7 && "version"@[0] == 'v' && "version"@[6] == 'n');
    reveal_strlit("name");
    assert("name"@.len() == 4 && "name"@[0] == 'n' && "name"@[3] == 'e');
    reveal_strlit("vars");
    assert("vars"@.len() == 4 && "vars"@[0] == 'v' && "vars"@[3] == 's');
    reveal_strlit("requests");
    assert("requests"@.len() == 8 && "requests"@[0] == 'r' && "requests"@[7] == 's');
    assert(names_differ(fs));
    lemma_field(fs, 0);
    lemma_field(fs, 1);
    lemma_field(fs, 2);
    lemma_field(fs, 3);
}

/// An issue is written with how bad it is, where it is and what it is.
pub proof fn law_issue_written(v: IssueView)
    ensures
        member_of(issue_json(v), "severity"@) == Some(
            JsonView::Str(
                match v.severity {
                    Severity::Error => "error"@,
                    Severity::Warning => "warning"@,
                },
            ),
        ),
        member_of(issue_json(v), "at"@) == Some(JsonView::Str(v.at)),
        member_of(issue_json(v), "message"@) == Some(JsonView::Str(v.message)),
{
    let fs = issue_fields(v);
    reveal_strlit("severity");
    assert("severity"@.len() == 8 && "severity"@[0] == 's' && "severity"@[7] == 'y');
    reveal_strlit("at");
    assert("at"@.len() == 2 && "at"@[0] == 'a' && "at"@[1] == 't');
    reveal_strlit("message");
    assert("message"@.len() == 7 && "message"@[0] == 'm' && "message"@[6] == 'e');
    assert(names_differ(fs));
    lemma_field(fs, 0);
    lemma_field(fs, 1);
    lemma_field(fs, 2);
}

/// What checking a file found is written with the file, whether it passed and every issue.
pub proof fn law_check_result_written(v: CheckResultView, i: int)
    ensures
        member_of(check_result_json(v), "file"@) == Some(JsonView::Str(v.file)),
        member_of(check_result_json(v), "ok"@) == Some(JsonView::Bool(v.ok)),
        lists_at(member_of(check_result_json(v), "issues"@), v.issues.len(), i, issue_json(v.issues[i])),
{
    let fs = check_result_fields(v);
    reveal_strlit("file");
    assert("file"@.len() == 4 && "file"@[0] == 'f' && "file"@[3] == 'e');
    reveal_strlit("ok");
    assert("ok"@.len() == 2 && "ok"@[0] == 'o' && "ok"@[1] == 'k');
    reveal_strlit("issues");
    assert("issues"@.len() == 6 && "issues"@[0] == 'i' && "issues"@[5] == 's');
    assert(names_differ(fs));
    lemma_field(fs, 0);
    lemma_field(fs, 1);
    lemma_field(fs, 2);
}

/// What checking files found is written with the result of every file and the counts.
pub proof fn law_check_report_written(v: CheckReportView, i: int)
    ensures
        lists_at(member_of(check_report_json(v), "results"@), v.results.len(), i, check_result_json(v.results[i])),
        member_of(check_report_json(v), "total"@) == Some(JsonView::Number(NumberView::Int(v.total as int))),
        member_of(check_report_json(v), "ok"@) == Some(JsonView::Number(NumberView::Int(v.ok as int))),
        member_of(check_report_json(v), "errors"@) == Some(JsonView::Number(NumberView::Int(v.errors as int))),
        member_of(check_report_json(v), "warnings"@) == Some(JsonView::Number(NumberView::Int(v.warnings as int))),
{
    let fs = check_report_fields(v);
    reveal_strlit("results");
    assert("results"@.len() == 7 && "results"@[0] == 'r' && "results"@[6] == 's');
    reveal_strlit("total");
    assert("total"@.len() == 5 && "total"@[0] == 't' && "total"@[4] == 'l');
    reveal_strlit("ok");
    assert("ok"@.len() == 2 && "ok"@[0] == 'o' && "ok"@[1] == 'k');
    reveal_strlit("errors");
    assert("errors"@.len() == 6 && "errors"@[0] == 'e' && "errors"@[5] == 's');
    reveal_strlit("warnings");
    assert("warnings"@.len() == 8 && "warnings"@[0] == 'w' && "warnings"@[7] == 's');
    assert(names_differ(fs));
    lemma_field(fs, 0);
    lemma_field(fs, 1);
    lemma_field(fs, 2);
    lemma_field(fs, 3);
    lemma_field(fs, 4);
}

/// A step in short is written with its id, its method, its address, how many assertions it has,
/// and what it depends on if it does on something.
pub proof fn law_brief_written(v: StepBriefView, i: int)
    ensures
        member_of(brief_json(v), "id"@) == Some(JsonView::Str(v.id)),
        member_of(brief_json(v), "method"@) == Some(JsonView::Str(v.method)),
        member_of(brief_json(v), "url"@) == Some(JsonView::Str(v.url)),
        member_of(brief_json(v), "assertions"@) == Some(JsonView::Number(NumberView::Int(v.assertions as int))),
        v.depends_on.len() == 0 ==> member_of(brief_json(v), "dependsOn"@) is None,
        v.depends_on.len() > 0 ==> lists_at(member_of(brief_json(v), "dependsOn"@), v.depends_on.len(), i, JsonView::Str(v.depends_on[i])),
{
    let fs = brief_fields(v);
    reveal_strlit("id");
    assert("id"@.len() == 2 && "id"@[0] == 'i' && "id"@[1] == 'd');
    reveal_strlit("method");
    assert("method"@.len() == 6 && "method"@[0] == 'm' && "method"@[5] == 'd');
    reveal_strlit("url");
    assert("url"@.len() == 3 && "url"@[0] == 'u' && "url"@[2] == 'l');
    reveal_strlit("dependsOn");
    assert("dependsOn"@.len() == 9 && "dependsOn"@[0] == 'd' && "dependsOn"@[8] == 'n');
    reveal_strlit("assertions");
    assert("assertions"@.len() == 10 && "assertions"@[0] == 'a' && "assertions"@[9] == 's');
    assert(names_differ(fs));
    lemma_field(fs, 0);
    lemma_field(fs, 1);
    lemma_field(fs, 2);
    lemma_field(fs, 3);
    lemma_field(fs, 4);
}

/// A case of a list is written with its file, its name, whether it is one or why not, and its
/// steps in order.
pub proof fn law_item_written(v: ListItemView, i: int)
    ensures
        member_of(item_json(v), "file"@) == Some(JsonView::Str(v.file)),
        member_of(item_json(v), "path"@) == Some(JsonView::Str(v.path)),
        member_of(item_json(v), "name"@) == text_if(v.name),
        member_of(item_json(v), "valid"@) == Some(JsonView::Bool(v.valid)),
        member_of(item_json(v), "error"@) == text_if(v.error),
        lists_at(member_of(item_json(v), "steps"@), v.steps.len(), i, brief_json(v.steps[i])),
{
    let fs = item_fields(v);
    reveal_strlit("file");
    assert("file"@.len() == 4 && "file"@[0] == 'f' && "file"@[3] == 'e');
    reveal_strlit("path");
    assert("path"@.len() == 4 && "path"@[0] == 'p' && "path"@[3] == 'h');
    reveal_strlit("name");
    assert("name"@.len() == 4 && "name"@[0] == 'n' && "name"@[3] == 'e');
    reveal_strlit("valid");
    assert("valid"@.len() == 5 && "valid"@[0] == 'v' && "valid"@[4] == 'd');
    reveal_strlit("error");
    assert("error"@.len() == 5 && "error"@[0] == 'e' && "error"@[4] == 'r');
    reveal_strlit("steps");
    assert("steps"@.len() == 5 && "steps"@[0] == 's' && "steps"@[4] == 's');
    assert(names_differ(fs));
    lemma_field(fs, 0);
    lemma_field(fs, 1);
    lemma_field(fs, 2);
    lemma_field(fs, 3);
    lemma_field(fs, 4);
    lemma_field(fs, 5);
}

/// A cookie is written with all that is known of it.
pub proof fn law_cookie_written(v: CookieItemView)
    ensures
        member_of(cookie_json(v), "domain"@) == Some(JsonView::Str(v.domain)),
        member_of(cookie_json(v), "path"@) == Some(JsonView::Str(v.path)),
        member_of(cookie_json(v), "name"@) == Some(JsonView::Str(v.name)),
        member_of(cookie_json(v), "value"@) == Some(JsonView::Str(v.value)),
        member_of(cookie_json(v), "secure"@) == Some(JsonView::Bool(v.secure)),
        member_of(cookie_json(v), "expired"@) == Some(JsonView::Bool(v.expired)),
        member_of(cookie_json(v), "hostOnly"@) == Some(JsonView::Bool(v.host_only)),
        member_of(cookie_json(v), "expiresMs"@) == Some(
            match v.expires_ms {
                Some(ms) => JsonView::Number(NumberView::Int(ms as int)),
                None => JsonView::Null,
            },
        ),
{
    let fs = cookie_fields(v);
    reveal_strlit("domain");
    assert("domain"@.len() == 6 && "domain"@[0] == 'd' && "domain"@[5] == 'n');
    reveal_strlit("path");
    assert("path"@.len() == 4 && "path"@[0] == 'p' && "path"@[3] == 'h');
    reveal_strlit("name");
    assert("name"@.len() == 4 && "name"@[0] == 'n' && "name"@[3] == 'e');
    reveal_strlit("value");
    assert("value"@.len() == 5 && "value"@[0] == 'v' && "value"@[4] == 'e');
    reveal_strlit("secure");
    assert("secure"@.len() == 6 && "secure"@[0] == 's' && "secure"@[5] == 'e');
    reveal_strlit("expiresMs");
    assert("expiresMs"@.len() == 9 && "expiresMs"@[0] == 'e' && "expiresMs"@[8] == 's');
    reveal_strlit("expired");
    assert("expired"@.len() == 7 && "expired"@[0] == 'e' && "expired"@[6] == 'd');
    reveal_strlit("hostOnly");
    assert("hostOnly"@.len() == 8 && "hostOnly"@[0] == 'h' && "hostOnly"@[7] == 'y');
    assert(names_differ(fs));
    lemma_field(fs, 0);
    lemma_field(fs, 1);
    lemma_field(fs, 2);
    lemma_field(fs, 3);
    lemma_field(fs, 4);
    lemma_field(fs, 5);
    lemma_field(fs, 6);
    lemma_field(fs, 7);
}

/// A case that is shown is written with its file, all of it and its text; what is no case is
/// written with why, and as it stands.
pub proof fn law_shown(file: Seq<char>, text: Seq<char>, a: AnalyzeResultView)
    ensures
        member_of(shown_json(file, text, a), "file"@) == Some(JsonView::Str(file)),
        a.valid && a.case is Some ==> {
            &&& member_of(shown_json(file, text, a), "case"@) == Some(case_json(a.case->0))
            &&& member_of(shown_json(file, text, a), "yaml"@) == Some(
                JsonView::Str(yaml_text(crate::case_file::case_json(a.case->0))),
            )
        },
        !(a.valid && a.case is Some) ==> {
            &&& member_of(shown_json(file, text, a), "valid"@) == Some(JsonView::Bool(false))
            &&& member_of(shown_json(file, text, a), "raw"@) == Some(JsonView::Str(text))
            &&& a.error is Some ==> member_of(shown_json(file, text, a), "error"@) == Some(
                JsonView::Str(a.error->0),
            )
        },
{
    reveal_strlit("file");
    assert("file"@.len() == 4 && "file"@[0] == 'f' && "file"@[3] == 'e');
    reveal_strlit("case");
    assert("case"@.len() == 4 && "case"@[0] == 'c' && "case"@[3] == 'e');
    reveal_strlit("yaml");
    assert("yaml"@.len() == 4 && "yaml"@[0] == 'y' && "yaml"@[3] == 'l');
    reveal_strlit("valid");
    assert("valid"@.len() == 5 && "valid"@[0] == 'v' && "valid"@[4] == 'd');
    reveal_strlit("raw");
    assert("raw"@.len() == 3 && "raw"@[0] == 'r' && "raw"@[2] == 'w');
    reveal_strlit("error");
    assert("error"@.len() == 5 && "error"@[0] == 'e' && "error"@[4] == 'r');
    reveal_with_fuel(key_at, 5);
}

/// A list of cases is written with every case in order and how many there are.
pub proof fn law_list_written(l: Seq<ListItemView>, i: int)
    ensures
        lists_at(member_of(listed_json(l), "cases"@), l.len(), i, item_json(l[i])),
        member_of(listed_json(l), "total"@) == Some(
            JsonView::Number(NumberView::Int(l.len() as int)),
        ),
{
    reveal_strlit("cases");
    assert("cases"@.len() == 5 && "cases"@[0] == 'c' && "cases"@[4] == 's');
    reveal_strlit("total");
    assert("total"@.len() == 5 && "total"@[0] == 't' && "total"@[4] == 'l');
    reveal_with_fuel(key_at, 3);
}

/// Documentation is written with the topic, all topics, and what is said on it; environments with
/// all their names and the one that is used unless another is named.
pub proof fn law_docs_written(
    doc: Seq<char>,
    name: Option<Seq<char>>,
    names: Seq<Seq<char>>,
    first: Seq<char>,
    i: int,
)
    ensures
        member_of(docs_json(doc, name), "topic"@) == Some(
            JsonView::Str(
                match name {
                    Some(n) => n,
                    None => "case"@,
                },
            ),
        ),
        member_of(docs_json(doc, name), "markdown"@) == Some(JsonView::Str(topic_text(doc, name))),
        member_of(tool_docs_json(doc, name), "topic"@) == member_of(docs_json(doc, name), "topic"@),
        member_of(tool_docs_json(doc, name), "markdown"@) == Some(
            JsonView::Str(topic_text(doc, name)),
        ),
        lists_at(
            member_of(tool_docs_json(doc, name), "availableTopics"@),
            topic_table().len(),
            i,
            JsonView::Object(
                seq![
                    ("name"@, JsonView::Str(topic_table()[i].name)),
                    ("about"@, JsonView::Str(topic_table()[i].about)),
                ],
            ),
        ),
        lists_at(
            member_of(environments_json(names, first), "environments"@),
            names.len(),
            i,
            JsonView::Str(names[i]),
        ),
        member_of(environments_json(names, first), "default"@) == Some(JsonView::Str(first)),
{
    reveal_strlit("topic");
    reveal_strlit("topics");
    reveal_strlit("availableTopics");
    reveal_strlit("markdown");
    reveal_strlit("environments");
    reveal_strlit("default");
    assert("topic"@.len() == 5 && "topics"@.len() == 6 && "markdown"@.len() == 8);
    assert("availableTopics"@.len() == 15 && "environments"@.len() == 12 && "default"@.len() == 7);
    let d = docs_json(doc, name)->Object_0;
    let t = tool_docs_json(doc, name)->Object_0;
    let e = environments_json(names, first)->Object_0;
    assert(d[0].0 == "topic"@ && d[1].0 == "topics"@ && d[2].0 == "markdown"@);
    assert(t[0].0 == "topic"@ && t[1].0 == "availableTopics"@ && t[2].0 == "markdown"@);
    assert(e[0].0 == "environments"@ && e[1].0 == "default"@);
    lemma_key_at_is(d, "topic"@, 0, 0);
    lemma_key_at_is(d, "markdown"@, 0, 2);
    lemma_key_at_is(t, "topic"@, 0, 0);
    lemma_key_at_is(t, "markdown"@, 0, 2);
    lemma_key_at_is(t, "availableTopics"@, 0, 1);
    lemma_key_at_is(e, "environments"@, 0, 0);
    lemma_key_at_is(e, "default"@, 0, 1);
}

} // verus!
