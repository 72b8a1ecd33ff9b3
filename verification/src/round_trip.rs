//! What is written of a case is read back.
//!
//! Writing leaves out what equals a default and what only holds a place in an editor. A case
//! that has nothing of that kind in it is settled, and a settled case is read back as it was.
use crate::case_file::{
    assertion_json, assertion_read, assertions_json, assertions_read, auth_json, auth_part,
    auth_read, body_json, body_read, case_json, case_object, case_read, coordinate, depends_read,
    docs_member, elements, field, form_item_json, form_item_read, form_json, form_read, http_json,
    http_read, json_kept, list_member, members, num, object_member, opt_field, opt_member,
    outputs_json, outputs_read, parsed_case, row_json, row_kept, row_read, row_tail, rows_json,
    rows_read, step_json, step_read, text_member, texts_json, ui_json, ui_read, value_member,
    MAX_WHOLE,
};
use crate::emit::{child_quote, quote_below, to_yaml, yaml_text, Quote};
use crate::json::{bool_text, bool_word, field_text, lemma_view, Json, JsonView};
use crate::model::{
    assert_op_name, auth_type_name, empty_apikey, empty_basic, empty_bearer, empty_body,
    empty_digest, empty_oauth2, law_assert_op_round_trip, law_auth_type_round_trip, no_auth,
    takes_value, ApikeyIn, AssertionView, AuthSpecView, AuthType, BodySpecView, BodyType, Case,
    CASE_VERSION, CaseView, ClientAuth, FormItemView, FormKind, HttpSpecView, KvView,
    Oauth2AuthView, Step, StepOutputView, StepUiView, StepView,
};
use crate::number::{print_number, printed, same_number, Number, NumberView};
use crate::table::{
    distinct, key_at, law_put, lemma_concats, lemma_key_at, lemma_none, lemma_one, lemma_three,
    lemma_two, lookup, put,
};
use crate::text::{
    copy_text, empty, is_ascii_text, is_blank, lemma_trim_twice, same, to_upper, trim, upper,
    upper_char, uppercase, views,
};
use crate::yaml::{load, loaded};
use vstd::prelude::*;

verus! {

// ---- members ---------------------------------------------------------------------------

proof fn lemma_opt_member(n: Seq<char>, s: Option<Seq<char>>)
    ensures
        forall|k: Seq<char>| #[trigger]
            lookup(opt_member(n, s), k) == (if k == n && s is Some && s->0.len() > 0 {
                Some(JsonView::Str(s->0))
            } else {
                None
            }),
{
    lemma_none::<JsonView>();
    if let Some(t) = s {
        lemma_one(seq![(n, JsonView::Str(t))]);
    }
}

proof fn lemma_list_member(n: Seq<char>, a: Seq<JsonView>)
    ensures
        forall|k: Seq<char>| #[trigger]
            lookup(list_member(n, a), k) == (if k == n && a.len() > 0 {
                Some(JsonView::Array(a))
            } else {
                None
            }),
{
    lemma_none::<JsonView>();
    lemma_one(seq![(n, JsonView::Array(a))]);
}

proof fn lemma_object_member(n: Seq<char>, m: Seq<(Seq<char>, JsonView)>)
    ensures
        forall|k: Seq<char>| #[trigger]
            lookup(object_member(n, m), k) == (if k == n && m.len() > 0 {
                Some(JsonView::Object(m))
            } else {
                None
            }),
{
    lemma_none::<JsonView>();
    lemma_one(seq![(n, JsonView::Object(m))]);
}

proof fn lemma_value_member(n: Seq<char>, v: Option<JsonView>)
    ensures
        forall|k: Seq<char>| #[trigger]
            lookup(value_member(n, v), k) == (if k == n {
                v
            } else {
                None
            }),
{
    lemma_none::<JsonView>();
    if let Some(w) = v {
        lemma_one(seq![(n, w)]);
    }
}

// ---- rows ------------------------------------------------------------------------------

/// Whether a text that may be missing is missing or not blank.
pub open spec fn missing_or_said(s: Option<Seq<char>>) -> bool {
    match s {
        Some(t) => !is_blank(t),
        None => true,
    }
}

/// Whether a text that may be missing is missing or not empty.
pub open spec fn missing_or_some(s: Option<Seq<char>>) -> bool {
    match s {
        Some(t) => t.len() > 0,
        None => true,
    }
}

/// Whether all of a row is written.
pub open spec fn row_settled(k: KvView) -> bool {
    row_kept(k.name, k.value) && missing_or_said(k.description)
}

/// Whether all of a field of a form is written.
pub open spec fn form_item_settled(k: FormItemView) -> bool {
    row_kept(k.name, k.value) && missing_or_said(k.description) && k.kind != Some(FormKind::Text)
}

/// Whether all of each row is written.
pub open spec fn rows_settled(l: Seq<KvView>) -> bool {
    forall|i: int| 0 <= i < l.len() ==> row_settled(#[trigger] l[i])
}

/// Whether all of each field of a form is written.
pub open spec fn form_settled(l: Seq<FormItemView>) -> bool {
    forall|i: int| 0 <= i < l.len() ==> form_item_settled(#[trigger] l[i])
}

proof fn lemma_blank(s: Seq<char>)
    ensures
        s.len() == 0 ==> is_blank(s),
{
    if s.len() == 0 {
        assert(s =~= seq![]);
    }
}

proof fn lemma_row_tail(enabled: bool, description: Option<Seq<char>>)
    requires
        missing_or_said(description),
    ensures
        forall|k: Seq<char>| #[trigger]
            lookup(row_tail(enabled, description), k) == (if k == "enabled"@ && !enabled {
                Some(JsonView::Bool(false))
            } else if k == "description"@ && description is Some {
                Some(JsonView::Str(description->0))
            } else {
                None
            }),
{

    reveal_strlit("enabled");
    reveal_strlit("description");
    assert("enabled"@.len() != "description"@.len());
    let a: Seq<(Seq<char>, JsonView)> = if enabled {
        seq![]
    } else {
        seq![("enabled"@, JsonView::Bool(false))]
    };
    let b: Seq<(Seq<char>, JsonView)> = match description {
        Some(d) => seq![text_member("description"@, d)],
        None => seq![],
    };
    assert(row_tail(enabled, description) =~= a + b);
    lemma_concats(a, b);
    lemma_none::<JsonView>();
    lemma_one(seq![("enabled"@, JsonView::Bool(false))]);
    if let Some(d) = description {
        lemma_one(seq![("description"@, JsonView::Str(d))]);
    }
}

proof fn lemma_row(k: KvView)
    requires
        row_settled(k),
    ensures
        row_read(row_json(k)->Object_0) == k,
{

    reveal_strlit("name");
    reveal_strlit("value");
    reveal_strlit("enabled");
    reveal_strlit("description");
    assert("name"@.len() != "value"@.len());
    assert("name"@.len() != "enabled"@.len());
    assert("name"@.len() != "description"@.len());
    assert("value"@.len() != "enabled"@.len());
    assert("value"@.len() != "description"@.len());
    assert("enabled"@.len() != "description"@.len());
    let a = seq![text_member("name"@, k.name), text_member("value"@, k.value)];
    let b = row_tail(k.enabled, k.description);
    lemma_concats(a, b);
    lemma_two(seq![("name"@, JsonView::Str(k.name)), ("value"@, JsonView::Str(k.value))]);
    lemma_row_tail(k.enabled, k.description);
    if let Some(d) = k.description {
        lemma_blank(d);
    }
    assert(row_read(a + b) =~= k);
}

/// Rows are read back as they were.
pub proof fn law_rows(l: Seq<KvView>)
    requires
        rows_settled(l),
    ensures
        rows_read(rows_json(l)) == l,
        rows_json(l).len() == l.len(),
    decreases l.len(),
{
    if l.len() > 0 {
        let rest = l.drop_last();
        assert forall|i: int| 0 <= i < rest.len() implies row_settled(#[trigger] rest[i]) by {
            assert(rest[i] == l[i]);
        }
        law_rows(rest);
        lemma_row(l.last());
        assert(rows_json(l).drop_last() =~= rows_json(rest));
        assert(l =~= rest.push(l.last()));
    } else {
        assert(l =~= seq![]);
    }
}

proof fn lemma_form_item(k: FormItemView)
    requires
        form_item_settled(k),
    ensures
        form_item_read(form_item_json(k)->Object_0) == k,
{

    reveal_strlit("name");
    reveal_strlit("type");
    reveal_strlit("value");
    reveal_strlit("enabled");
    reveal_strlit("description");
    reveal_strlit("file");
    assert("name"@[0] != "type"@[0]);
    assert("name"@.len() != "value"@.len());
    assert("name"@.len() != "enabled"@.len());
    assert("name"@.len() != "description"@.len());
    assert("name"@[0] != "file"@[0]);
    assert("type"@.len() != "value"@.len());
    assert("type"@.len() != "enabled"@.len());
    assert("type"@.len() != "description"@.len());
    assert("type"@[0] != "file"@[0]);
    assert("value"@.len() != "enabled"@.len());
    assert("value"@.len() != "description"@.len());
    assert("value"@.len() != "file"@.len());
    assert("enabled"@.len() != "description"@.len());
    assert("enabled"@.len() != "file"@.len());
    assert("description"@.len() != "file"@.len());
    let a = seq![text_member("name"@, k.name)];
    let b: Seq<(Seq<char>, JsonView)> = if k.kind == Some(FormKind::File) {
        seq![text_member("type"@, "file"@)]
    } else {
        seq![]
    };
    let c = seq![text_member("value"@, k.value)];
    let d = row_tail(k.enabled, k.description);
    lemma_concats(a, b);
    lemma_concats(a + b, c);
    lemma_concats(a + b + c, d);
    lemma_none::<JsonView>();
    lemma_one(seq![("name"@, JsonView::Str(k.name))]);
    lemma_one(seq![("type"@, JsonView::Str("file"@))]);
    lemma_one(seq![("value"@, JsonView::Str(k.value))]);
    lemma_row_tail(k.enabled, k.description);
    if let Some(d) = k.description {
        lemma_blank(d);
    }
    let m = a + b + c + d;
    assert(form_item_json(k)->Object_0 =~= m);
    assert(k.kind is None || k.kind == Some(FormKind::File));
    assert(form_item_read(m) =~= k);
}

/// The fields of a form are read back as they were.
pub proof fn law_form(l: Seq<FormItemView>)
    requires
        form_settled(l),
    ensures
        form_read(form_json(l)) == l,
        form_json(l).len() == l.len(),
    decreases l.len(),
{
    if l.len() > 0 {
        let rest = l.drop_last();
        assert forall|i: int| 0 <= i < rest.len() implies form_item_settled(#[trigger] rest[i]) by {
            assert(rest[i] == l[i]);
        }
        law_form(rest);
        lemma_form_item(l.last());
        assert(form_json(l).drop_last() =~= form_json(rest));
        assert(l =~= rest.push(l.last()));
    } else {
        assert(l =~= seq![]);
    }
}

// ---- authentication --------------------------------------------------------------------

/// Whether all of an authentication is written: the part of its type is there, and no other.
pub open spec fn auth_settled(a: AuthSpecView) -> bool {
    &&& a.bearer is Some <==> a.kind == AuthType::Bearer
    &&& a.basic is Some <==> a.kind == AuthType::Basic
    &&& a.apikey is Some <==> a.kind == AuthType::Apikey
    &&& a.digest is Some <==> a.kind == AuthType::Digest
    &&& a.oauth2 is Some <==> a.kind == AuthType::Oauth2
    &&& a.oauth2 is Some ==> missing_or_some(a.oauth2->0.scope)
}

proof fn lemma_auth_object(a: AuthSpecView)
    requires
        a.kind != AuthType::NoAuth,
    ensures
        forall|k: Seq<char>| #[trigger]
            lookup(auth_json(a)->0->Object_0, k) == (if k == "type"@ {
                Some(JsonView::Str(auth_type_name(a.kind)))
            } else if k == auth_type_name(a.kind) {
                Some(JsonView::Object(auth_part(a)))
            } else {
                None
            }),
        "type"@ != auth_type_name(a.kind),
{

    reveal_strlit("type");
    reveal_strlit("bearer");
    reveal_strlit("basic");
    reveal_strlit("apikey");
    reveal_strlit("digest");
    reveal_strlit("oauth2");
    assert("type"@.len() != "bearer"@.len());
    assert("type"@.len() != "basic"@.len());
    assert("type"@.len() != "apikey"@.len());
    assert("type"@.len() != "digest"@.len());
    assert("type"@.len() != "oauth2"@.len());
    assert("bearer"@.len() != "basic"@.len());
    assert("bearer"@[0] != "apikey"@[0]);
    assert("bearer"@[0] != "digest"@[0]);
    assert("bearer"@[0] != "oauth2"@[0]);
    assert("basic"@.len() != "apikey"@.len());
    assert("basic"@.len() != "digest"@.len());
    assert("basic"@.len() != "oauth2"@.len());
    assert("apikey"@[0] != "digest"@[0]);
    assert("apikey"@[0] != "oauth2"@[0]);
    assert("digest"@[0] != "oauth2"@[0]);
    lemma_two(seq![("type"@, JsonView::Str(auth_type_name(a.kind))), (auth_type_name(a.kind), JsonView::Object(auth_part(a)))]);
}

/// An authentication is read back as it was.
pub proof fn law_auth(a: AuthSpecView)
    requires
        auth_settled(a),
    ensures
        auth_read(auth_json(a)) == a,
{
    if a.kind == AuthType::NoAuth {
        assert(a =~= no_auth());
    } else {
        lemma_auth_object(a);
        law_auth_type_round_trip(a.kind);
        let m = auth_part(a);
        match a.kind {
            AuthType::NoAuth => {},
            AuthType::Bearer => {
                lemma_one(seq![("token"@, JsonView::Str(a.bearer->0.token))]);
            },
            AuthType::Basic => {
                lemma_credentials(a.basic->0.username, a.basic->0.password);
            },
            AuthType::Apikey => {
                lemma_apikey(a);
            },
            AuthType::Digest => {
                lemma_credentials(a.digest->0.username, a.digest->0.password);
            },
            AuthType::Oauth2 => {
                lemma_oauth2(a);
            },
        }
        assert(auth_read(auth_json(a)) =~= a);
    }
}

proof fn lemma_credentials(u: Seq<char>, p: Seq<char>)
    ensures
        field(seq![text_member("username"@, u), text_member("password"@, p)], "username"@) == u,
        field(seq![text_member("username"@, u), text_member("password"@, p)], "password"@) == p,
{

    reveal_strlit("username");
    reveal_strlit("password");
    assert("username"@[0] != "password"@[0]);
    lemma_two(seq![("username"@, JsonView::Str(u)), ("password"@, JsonView::Str(p))]);
}

proof fn lemma_apikey(a: AuthSpecView)
    requires
        a.kind == AuthType::Apikey,
        a.apikey is Some,
    ensures
        field(auth_part(a), "key"@) == a.apikey->0.key,
        field(auth_part(a), "value"@) == a.apikey->0.value,
        field(auth_part(a), "in"@) == "query"@ <==> a.apikey->0.place == ApikeyIn::Query,
{

    reveal_strlit("key");
    reveal_strlit("value");
    reveal_strlit("in");
    reveal_strlit("query");
    reveal_strlit("header");
    assert("key"@.len() != "value"@.len());
    assert("key"@.len() != "in"@.len());
    assert("key"@.len() != "query"@.len());
    assert("key"@.len() != "header"@.len());
    assert("value"@.len() != "in"@.len());
    assert("value"@[0] != "query"@[0]);
    assert("value"@.len() != "header"@.len());
    assert("in"@.len() != "query"@.len());
    assert("in"@.len() != "header"@.len());
    assert("query"@.len() != "header"@.len());
    let k = a.apikey->0;
    let place = if k.place == ApikeyIn::Query {
        "query"@
    } else {
        "header"@
    };
    lemma_three(seq![("key"@, JsonView::Str(k.key)), ("value"@, JsonView::Str(k.value)), ("in"@, JsonView::Str(place))]);
    assert(auth_part(a) =~= seq![
        ("key"@, JsonView::Str(k.key)),
        ("value"@, JsonView::Str(k.value)),
        ("in"@, JsonView::Str(place)),
    ]);
}

proof fn lemma_oauth2(a: AuthSpecView)
    requires
        a.kind == AuthType::Oauth2,
        a.oauth2 is Some,
        missing_or_some(a.oauth2->0.scope),
    ensures
        field(auth_part(a), "tokenUrl"@) == a.oauth2->0.token_url,
        field(auth_part(a), "clientId"@) == a.oauth2->0.client_id,
        field(auth_part(a), "clientSecret"@) == a.oauth2->0.client_secret,
        opt_field(auth_part(a), "scope"@) == a.oauth2->0.scope,
        field(auth_part(a), "clientAuth"@) == "body"@ <==> a.oauth2->0.client_auth == ClientAuth::Body,
{

    reveal_strlit("tokenUrl");
    reveal_strlit("clientId");
    reveal_strlit("clientSecret");
    reveal_strlit("scope");
    reveal_strlit("clientAuth");
    reveal_strlit("body");
    assert("tokenUrl"@[0] != "clientId"@[0]);
    assert("tokenUrl"@.len() != "clientSecret"@.len());
    assert("tokenUrl"@.len() != "scope"@.len());
    assert("tokenUrl"@.len() != "clientAuth"@.len());
    assert("tokenUrl"@.len() != "body"@.len());
    assert("clientId"@.len() != "clientSecret"@.len());
    assert("clientId"@.len() != "scope"@.len());
    assert("clientId"@.len() != "clientAuth"@.len());
    assert("clientId"@.len() != "body"@.len());
    assert("clientSecret"@.len() != "scope"@.len());
    assert("clientSecret"@.len() != "clientAuth"@.len());
    assert("clientSecret"@.len() != "body"@.len());
    assert("scope"@.len() != "clientAuth"@.len());
    assert("scope"@.len() != "body"@.len());
    assert("clientAuth"@.len() != "body"@.len());
    let t = a.oauth2->0;
    let x = seq![
        text_member("tokenUrl"@, t.token_url),
        text_member("clientId"@, t.client_id),
        text_member("clientSecret"@, t.client_secret),
    ];
    let y = opt_member("scope"@, t.scope);
    let z: Seq<(Seq<char>, JsonView)> = if t.client_auth == ClientAuth::Body {
        seq![text_member("clientAuth"@, "body"@)]
    } else {
        seq![]
    };
    lemma_concats(x, y);
    lemma_concats(x + y, z);
    lemma_three(seq![("tokenUrl"@, JsonView::Str(t.token_url)), ("clientId"@, JsonView::Str(t.client_id)), ("clientSecret"@, JsonView::Str(t.client_secret))]);
    lemma_opt_member("scope"@, t.scope);
    lemma_none::<JsonView>();
    lemma_one(seq![("clientAuth"@, JsonView::Str("body"@))]);
    assert(auth_part(a) =~= x + y + z);
}

// ---- body ------------------------------------------------------------------------------

/// Whether all of a body is written: its content is there, and the content of no other type.
pub open spec fn body_settled(b: BodySpecView) -> bool {
    &&& b.json is Some <==> b.kind == BodyType::Json
    &&& b.xml is Some <==> b.kind == BodyType::Xml
    &&& b.text is Some <==> b.kind == BodyType::Text
    &&& b.urlencoded is Some <==> b.kind == BodyType::FormUrlencoded
    &&& b.form_data is Some <==> b.kind == BodyType::FormData
    &&& b.file_path is Some <==> b.kind == BodyType::Binary
    &&& b.content_type is Some ==> b.kind == BodyType::Text || b.kind == BodyType::Binary
    &&& missing_or_some(b.content_type)
    &&& b.json is Some ==> json_kept(b.json->0)
    &&& missing_or_some(b.xml)
    &&& missing_or_some(b.text)
    &&& missing_or_some(b.file_path)
    &&& b.urlencoded is Some ==> b.urlencoded->0.len() > 0 && rows_settled(b.urlencoded->0)
    &&& b.form_data is Some ==> b.form_data->0.len() > 0 && form_settled(b.form_data->0)
}

proof fn lemma_typed(kind: Seq<char>, content_type: Option<Seq<char>>, n: Seq<char>, s: Seq<char>)
    requires
        missing_or_some(content_type),
        n != "type"@,
        n != "contentType"@,
    ensures
        ({
            let m = seq![text_member("type"@, kind)] + opt_member("contentType"@, content_type) + seq![
                text_member(n, s),
            ];
            field(m, "type"@) == kind && opt_field(m, "contentType"@) == content_type && field(m, n)
                == s
        }),
{

    reveal_strlit("type");
    reveal_strlit("contentType");
    assert("type"@.len() != "contentType"@.len());
    let x = seq![text_member("type"@, kind)];
    let y = opt_member("contentType"@, content_type);
    let z = seq![text_member(n, s)];
    lemma_concats(x, y);
    lemma_concats(x + y, z);
    lemma_one(seq![("type"@, JsonView::Str(kind))]);
    lemma_opt_member("contentType"@, content_type);
    lemma_one(seq![(n, JsonView::Str(s))]);
}

/// A body is read back as it was.
pub proof fn law_body(b: BodySpecView)
    requires
        body_settled(b),
    ensures
        body_read(body_json(b)) == b,
{

    reveal_strlit("type");
    reveal_strlit("contentType");
    reveal_strlit("json");
    reveal_strlit("xml");
    reveal_strlit("text");
    reveal_strlit("filePath");
    reveal_strlit("urlencoded");
    reveal_strlit("formData");
    reveal_strlit("form-urlencoded");
    reveal_strlit("form-data");
    reveal_strlit("binary");
    reveal_strlit("none");
    assert("type"@.len() != "contentType"@.len());
    assert("type"@[0] != "json"@[0]);
    assert("type"@.len() != "xml"@.len());
    assert("type"@[1] != "text"@[1]);
    assert("type"@.len() != "filePath"@.len());
    assert("type"@.len() != "urlencoded"@.len());
    assert("type"@.len() != "formData"@.len());
    assert("type"@.len() != "form-urlencoded"@.len());
    assert("type"@.len() != "form-data"@.len());
    assert("type"@.len() != "binary"@.len());
    assert("type"@[0] != "none"@[0]);
    assert("contentType"@.len() != "json"@.len());
    assert("contentType"@.len() != "xml"@.len());
    assert("contentType"@.len() != "text"@.len());
    assert("contentType"@.len() != "filePath"@.len());
    assert("contentType"@.len() != "urlencoded"@.len());
    assert("contentType"@.len() != "formData"@.len());
    assert("contentType"@.len() != "form-urlencoded"@.len());
    assert("contentType"@.len() != "form-data"@.len());
    assert("contentType"@.len() != "binary"@.len());
    assert("contentType"@.len() != "none"@.len());
    assert("json"@.len() != "xml"@.len());
    assert("json"@[0] != "text"@[0]);
    assert("json"@.len() != "filePath"@.len());
    assert("json"@.len() != "urlencoded"@.len());
    assert("json"@.len() != "formData"@.len());
    assert("json"@.len() != "form-urlencoded"@.len());
    assert("json"@.len() != "form-data"@.len());
    assert("json"@.len() != "binary"@.len());
    assert("json"@[0] != "none"@[0]);
    assert("xml"@.len() != "text"@.len());
    assert("xml"@.len() != "filePath"@.len());
    assert("xml"@.len() != "urlencoded"@.len());
    assert("xml"@.len() != "formData"@.len());
    assert("xml"@.len() != "form-urlencoded"@.len());
    assert("xml"@.len() != "form-data"@.len());
    assert("xml"@.len() != "binary"@.len());
    assert("xml"@.len() != "none"@.len());
    assert("text"@.len() != "filePath"@.len());
    assert("text"@.len() != "urlencoded"@.len());
    assert("text"@.len() != "formData"@.len());
    assert("text"@.len() != "form-urlencoded"@.len());
    assert("text"@.len() != "form-data"@.len());
    assert("text"@.len() != "binary"@.len());
    assert("text"@[0] != "none"@[0]);
    assert("filePath"@.len() != "urlencoded"@.len());
    assert("filePath"@[1] != "formData"@[1]);
    assert("filePath"@.len() != "form-urlencoded"@.len());
    assert("filePath"@.len() != "form-data"@.len());
    assert("filePath"@.len() != "binary"@.len());
    assert("filePath"@.len() != "none"@.len());
    assert("urlencoded"@.len() != "formData"@.len());
    assert("urlencoded"@.len() != "form-urlencoded"@.len());
    assert("urlencoded"@.len() != "form-data"@.len());
    assert("urlencoded"@.len() != "binary"@.len());
    assert("urlencoded"@.len() != "none"@.len());
    assert("formData"@.len() != "form-urlencoded"@.len());
    assert("formData"@.len() != "form-data"@.len());
    assert("formData"@.len() != "binary"@.len());
    assert("formData"@.len() != "none"@.len());
    assert("form-urlencoded"@.len() != "form-data"@.len());
    assert("form-urlencoded"@.len() != "binary"@.len());
    assert("form-urlencoded"@.len() != "none"@.len());
    assert("form-data"@.len() != "binary"@.len());
    assert("form-data"@.len() != "none"@.len());
    assert("binary"@.len() != "none"@.len());
    match b.kind {
        BodyType::NoBody => {
            assert(b =~= empty_body());
        },
        BodyType::Json => {
            lemma_two(seq![("type"@, JsonView::Str("json"@)), ("json"@, b.json->0)]);
        },
        BodyType::Xml => {
            lemma_two(seq![("type"@, JsonView::Str("xml"@)), ("xml"@, JsonView::Str(b.xml->0))]);
        },
        BodyType::Text => {
            lemma_typed("text"@, b.content_type, "text"@, b.text->0);
        },
        BodyType::Binary => {
            lemma_typed("binary"@, b.content_type, "filePath"@, b.file_path->0);
        },
        BodyType::FormUrlencoded => {
            let rows = rows_json(b.urlencoded->0);
            law_rows(b.urlencoded->0);
            lemma_two(seq![("type"@, JsonView::Str("form-urlencoded"@)), ("urlencoded"@, JsonView::Array(rows))]);
        },
        BodyType::FormData => {
            let rows = form_json(b.form_data->0);
            law_form(b.form_data->0);
            lemma_two(seq![("type"@, JsonView::Str("form-data"@)), ("formData"@, JsonView::Array(rows))]);
        },
    }
    assert(body_read(body_json(b)) =~= b);
}

// ---- requests --------------------------------------------------------------------------

/// Whether all of a request is written. Methods are read in upper case.
pub open spec fn http_settled(h: HttpSpecView) -> bool {
    &&& h.method.len() > 0
    &&& uppercase(h.method) == h.method
    &&& rows_settled(h.query)
    &&& rows_settled(h.headers)
    &&& auth_settled(h.auth)
    &&& body_settled(h.body)
}

/// The method that is read where a method is written.
pub open spec fn method_read(m: Seq<char>) -> Seq<char> {
    if m.len() == 0 {
        "GET"@
    } else {
        uppercase(m)
    }
}

/// A request is read back as it was, but for its method.
proof fn lemma_http(h: HttpSpecView)
    requires
        rows_settled(h.query),
        rows_settled(h.headers),
        auth_settled(h.auth),
        body_settled(h.body),
    ensures
        http_read(Some(http_json(h))) == (HttpSpecView { method: method_read(h.method), ..h }),
{

    reveal_strlit("method");
    reveal_strlit("url");
    reveal_strlit("query");
    reveal_strlit("headers");
    reveal_strlit("auth");
    reveal_strlit("body");
    assert("method"@.len() != "url"@.len());
    assert("method"@.len() != "query"@.len());
    assert("method"@.len() != "headers"@.len());
    assert("method"@.len() != "auth"@.len());
    assert("method"@.len() != "body"@.len());
    assert("url"@.len() != "query"@.len());
    assert("url"@.len() != "headers"@.len());
    assert("url"@.len() != "auth"@.len());
    assert("url"@.len() != "body"@.len());
    assert("query"@.len() != "headers"@.len());
    assert("query"@.len() != "auth"@.len());
    assert("query"@.len() != "body"@.len());
    assert("headers"@.len() != "auth"@.len());
    assert("headers"@.len() != "body"@.len());
    assert("auth"@[0] != "body"@[0]);
    law_rows(h.query);
    law_rows(h.headers);
    law_auth(h.auth);
    law_body(h.body);
    let a = seq![text_member("method"@, h.method), text_member("url"@, h.url)];
    let b = list_member("query"@, rows_json(h.query));
    let c = list_member("headers"@, rows_json(h.headers));
    let d = value_member("auth"@, auth_json(h.auth));
    let e = value_member("body"@, body_json(h.body));
    lemma_concats(a, b);
    lemma_concats(a + b, c);
    lemma_concats(a + b + c, d);
    lemma_concats(a + b + c + d, e);
    lemma_two(seq![("method"@, JsonView::Str(h.method)), ("url"@, JsonView::Str(h.url))]);
    lemma_list_member("query"@, rows_json(h.query));
    lemma_list_member("headers"@, rows_json(h.headers));
    lemma_value_member("auth"@, auth_json(h.auth));
    lemma_value_member("body"@, body_json(h.body));
    assert(elements(lookup(a + b + c + d + e, "query"@)) =~= rows_json(h.query));
    assert(elements(lookup(a + b + c + d + e, "headers"@)) =~= rows_json(h.headers));
    assert(http_read(Some(http_json(h))) =~= (HttpSpecView { method: method_read(h.method), ..h }));
}

/// A request is read back as it was.
pub proof fn law_http(h: HttpSpecView)
    requires
        http_settled(h),
    ensures
        http_read(Some(http_json(h))) == h,
{
    lemma_http(h);
}

// ---- outputs, assertions and dependencies ----------------------------------------------

/// Whether all outputs are written: each has a name of its own without blanks around it.
pub open spec fn outputs_settled(l: Seq<StepOutputView>) -> bool {
    &&& forall|i: int|
        0 <= i < l.len() ==> !is_blank((#[trigger] l[i]).name) && trim(l[i].name) == l[i].name
    &&& forall|i: int, j: int|
        0 <= i < j < l.len() ==> (#[trigger] l[i]).name != (#[trigger] l[j]).name
}

proof fn lemma_outputs(l: Seq<StepOutputView>)
    requires
        outputs_settled(l),
    ensures
        outputs_json(l) == Seq::new(l.len(), |i: int| (l[i].name, JsonView::Str(l[i].path))),
    decreases l.len(),
{
    if l.len() > 0 {
        let rest = l.drop_last();
        assert forall|i: int| 0 <= i < rest.len() implies !is_blank((#[trigger] rest[i]).name) && trim(
            rest[i].name,
        ) == rest[i].name by {
            assert(rest[i] == l[i]);
        }
        assert forall|i: int, j: int| 0 <= i < j < rest.len() implies (#[trigger] rest[i]).name != (
        #[trigger] rest[j]).name by {
            assert(rest[i] == l[i] && rest[j] == l[j]);
        }
        lemma_outputs(rest);
        let m = outputs_json(rest);
        let k = l.last().name;
        lemma_key_at(m, k, 0);
        if key_at(m, k, 0) < m.len() {
            let j = key_at(m, k, 0);
            assert(m[j].0 == l[j].name);
            assert(l[j].name != l[l.len() - 1].name);
        }
        assert(trim(l[l.len() - 1].name) == l[l.len() - 1].name);
        assert(outputs_json(l) =~= Seq::new(
            l.len(),
            |i: int| (l[i].name, JsonView::Str(l[i].path)),
        ));
    } else {
        assert(outputs_json(l) =~= Seq::new(
            l.len(),
            |i: int| (l[i].name, JsonView::Str(l[i].path)),
        ));
    }
}

/// Outputs are read back as they were.
pub proof fn law_outputs(l: Seq<StepOutputView>)
    requires
        outputs_settled(l),
    ensures
        outputs_read(outputs_json(l)) == l,
        outputs_json(l).len() == l.len(),
{
    lemma_outputs(l);
    assert(outputs_read(outputs_json(l)) =~= l);
}

/// Whether all of an assertion is written.
pub open spec fn assertion_settled(a: AssertionView) -> bool {
    &&& !is_blank(a.target)
    &&& missing_or_some(a.value)
    &&& a.value is Some ==> takes_value(a.op)
}

/// Whether all of each assertion is written.
pub open spec fn assertions_settled(l: Seq<AssertionView>) -> bool {
    forall|i: int| 0 <= i < l.len() ==> assertion_settled(#[trigger] l[i])
}

proof fn lemma_assertion(a: AssertionView)
    requires
        assertion_settled(a),
    ensures
        assertion_read(assertion_json(a)->Object_0) == a,
        a.target.len() > 0,
{

    reveal_strlit("target");
    reveal_strlit("op");
    reveal_strlit("value");
    assert("target"@.len() != "op"@.len());
    assert("target"@.len() != "value"@.len());
    assert("op"@.len() != "value"@.len());
    lemma_blank(a.target);
    law_assert_op_round_trip(a.op);
    let x = seq![text_member("target"@, a.target), text_member("op"@, assert_op_name(a.op))];
    let y = opt_member("value"@, a.value);
    lemma_concats(x, y);
    lemma_two(seq![("target"@, JsonView::Str(a.target)), ("op"@, JsonView::Str(assert_op_name(a.op)))]);
    lemma_opt_member("value"@, a.value);
    assert(assertion_json(a)->Object_0 =~= x + y);
    assert(assertion_read(x + y) =~= a);
}

/// Assertions are read back as they were.
pub proof fn law_assertions(l: Seq<AssertionView>)
    requires
        assertions_settled(l),
    ensures
        assertions_read(assertions_json(l)) == l,
        assertions_json(l).len() == l.len(),
    decreases l.len(),
{
    if l.len() > 0 {
        let rest = l.drop_last();
        assert forall|i: int| 0 <= i < rest.len() implies assertion_settled(#[trigger] rest[i]) by {
            assert(rest[i] == l[i]);
        }
        law_assertions(rest);
        lemma_assertion(l.last());
        assert(assertions_json(l).drop_last() =~= assertions_json(rest));
        assert(l =~= rest.push(l.last()));
    } else {
        assert(l =~= seq![]);
    }
}

/// Whether no id is empty.
pub open spec fn depends_settled(l: Seq<Seq<char>>) -> bool {
    forall|i: int| 0 <= i < l.len() ==> (#[trigger] l[i]).len() > 0
}

/// Dependencies are read back as they were.
pub proof fn law_depends(l: Seq<Seq<char>>)
    requires
        depends_settled(l),
    ensures
        depends_read(texts_json(l)) == l,
    decreases l.len(),
{
    if l.len() > 0 {
        let rest = l.drop_last();
        assert forall|i: int| 0 <= i < rest.len() implies (#[trigger] rest[i]).len() > 0 by {
            assert(rest[i] == l[i]);
        }
        law_depends(rest);
        assert(texts_json(l).drop_last() =~= texts_json(rest));
        assert(texts_json(l).last() == JsonView::Str(l.last()));
        assert(l =~= rest.push(l.last()));
        assert(l[l.len() - 1].len() > 0);
    } else {
        assert(texts_json(l) =~= seq![]);
        assert(l =~= seq![]);
    }
}

// ---- steps and cases -------------------------------------------------------------------

/// Whether all of where a step is shown is written.
pub open spec fn ui_settled(u: Option<StepUiView>) -> bool {
    match u {
        Some(u) => coordinate(u.x) == u.x && coordinate(u.y) == u.y,
        None => true,
    }
}

proof fn lemma_ui(u: Option<StepUiView>)
    requires
        ui_settled(u),
    ensures
        ui_read(ui_json(u)) == u,
{

    reveal_strlit("x");
    reveal_strlit("y");
    assert("x"@[0] != "y"@[0]);
    lemma_none::<JsonView>();
    if let Some(p) = u {
        lemma_two(seq![("x"@, JsonView::Number(p.x)), ("y"@, JsonView::Number(p.y))]);
        assert(ui_read(ui_json(u)) =~= u);
    }
}

/// Whether all of a step is written.
pub open spec fn step_settled(st: StepView) -> bool {
    &&& st.id.len() > 0
    &&& st.protocol.len() > 0
    &&& ui_settled(st.ui)
    &&& http_settled(st.http)
    &&& depends_settled(st.depends_on)
    &&& outputs_settled(st.outputs)
    &&& assertions_settled(st.assertions)
    &&& missing_or_said(st.docs)
}

proof fn lemma_docs(docs: Option<Seq<char>>)
    requires
        missing_or_said(docs),
    ensures
        forall|k: Seq<char>| #[trigger]
            lookup(docs_member(docs), k) == (if k == "docs"@ && docs is Some {
                Some(JsonView::Str(docs->0))
            } else {
                None
            }),
        docs is Some ==> docs->0.len() > 0,
{
    lemma_none::<JsonView>();
    if let Some(d) = docs {
        lemma_one(seq![("docs"@, JsonView::Str(d))]);
        lemma_blank(d);
    }
}

spec fn step_parts(st: StepView) -> Seq<(Seq<char>, JsonView)> {
    step_json(st)->Object_0
}

proof fn lemma_step_members(st: StepView)
    requires
        st.protocol.len() > 0,
        missing_or_said(st.docs),
    ensures
        lookup(step_parts(st), "id"@) == Some(JsonView::Str(st.id)),
        lookup(step_parts(st), "protocol"@) == Some(JsonView::Str(st.protocol)),
        lookup(step_parts(st), "ui"@) == ui_json(st.ui),
        elements(lookup(step_parts(st), "dependsOn"@)) == texts_json(st.depends_on),
        lookup(step_parts(st), "request"@) == Some(http_json(st.http)),
        members(lookup(step_parts(st), "outputs"@)) == outputs_json(st.outputs),
        elements(lookup(step_parts(st), "assertions"@)) == assertions_json(st.assertions),
        opt_field(step_parts(st), "docs"@) == st.docs,
        lookup(step_parts(st), "docs"@) is Some ==> lookup(step_parts(st), "docs"@)->0 is Str,
{

    reveal_strlit("id");
    reveal_strlit("protocol");
    reveal_strlit("ui");
    reveal_strlit("dependsOn");
    reveal_strlit("request");
    reveal_strlit("outputs");
    reveal_strlit("assertions");
    reveal_strlit("docs");
    assert("id"@.len() != "protocol"@.len());
    assert("id"@[0] != "ui"@[0]);
    assert("id"@.len() != "dependsOn"@.len());
    assert("id"@.len() != "request"@.len());
    assert("id"@.len() != "outputs"@.len());
    assert("id"@.len() != "assertions"@.len());
    assert("id"@.len() != "docs"@.len());
    assert("protocol"@.len() != "ui"@.len());
    assert("protocol"@.len() != "dependsOn"@.len());
    assert("protocol"@.len() != "request"@.len());
    assert("protocol"@.len() != "outputs"@.len());
    assert("protocol"@.len() != "assertions"@.len());
    assert("protocol"@.len() != "docs"@.len());
    assert("ui"@.len() != "dependsOn"@.len());
    assert("ui"@.len() != "request"@.len());
    assert("ui"@.len() != "outputs"@.len());
    assert("ui"@.len() != "assertions"@.len());
    assert("ui"@.len() != "docs"@.len());
    assert("dependsOn"@.len() != "request"@.len());
    assert("dependsOn"@.len() != "outputs"@.len());
    assert("dependsOn"@.len() != "assertions"@.len());
    assert("dependsOn"@.len() != "docs"@.len());
    assert("request"@[0] != "outputs"@[0]);
    assert("request"@.len() != "assertions"@.len());
    assert("request"@.len() != "docs"@.len());
    assert("outputs"@.len() != "assertions"@.len());
    assert("outputs"@.len() != "docs"@.len());
    assert("assertions"@.len() != "docs"@.len());
    let a = seq![text_member("id"@, st.id), text_member("protocol"@, st.protocol)];
    let b = value_member("ui"@, ui_json(st.ui));
    let c = list_member("dependsOn"@, texts_json(st.depends_on));
    let d = seq![("request"@, http_json(st.http))];
    let e = object_member("outputs"@, outputs_json(st.outputs));
    let f = list_member("assertions"@, assertions_json(st.assertions));
    let g = docs_member(st.docs);
    let m = a + b + c + d + e + f + g;
    assert(step_parts(st) =~= m);
    lemma_concats(a, b);
    lemma_concats(a + b, c);
    lemma_concats(a + b + c, d);
    lemma_concats(a + b + c + d, e);
    lemma_concats(a + b + c + d + e, f);
    lemma_concats(a + b + c + d + e + f, g);
    lemma_two(seq![("id"@, JsonView::Str(st.id)), ("protocol"@, JsonView::Str(st.protocol))]);
    lemma_value_member("ui"@, ui_json(st.ui));
    lemma_list_member("dependsOn"@, texts_json(st.depends_on));
    lemma_one(seq![("request"@, http_json(st.http))]);
    lemma_object_member("outputs"@, outputs_json(st.outputs));
    lemma_list_member("assertions"@, assertions_json(st.assertions));
    lemma_docs(st.docs);
    assert(elements(lookup(m, "dependsOn"@)) =~= texts_json(st.depends_on));
    assert(members(lookup(m, "outputs"@)) =~= outputs_json(st.outputs));
    assert(elements(lookup(m, "assertions"@)) =~= assertions_json(st.assertions));
}

/// A step is read back as it was, wherever it stands.
pub proof fn law_step(st: StepView, i: int)
    requires
        step_settled(st),
    ensures
        step_read(step_json(st), i) == st,
{
    lemma_step_members(st);
    lemma_ui(st.ui);
    law_http(st.http);
    law_depends(st.depends_on);
    law_outputs(st.outputs);
    law_assertions(st.assertions);
    assert(step_read(step_json(st), i) =~= st);
}

/// Whether all of a case is written.
pub open spec fn case_settled(c: CaseView) -> bool {
    &&& c.version.len() > 0
    &&& missing_or_some(c.name)
    &&& c.vars is Some ==> c.vars->0.len() > 0
    &&& forall|i: int| 0 <= i < c.requests.len() ==> step_settled(#[trigger] c.requests[i])
}

/// A settled case is read back from what is written of it, field by field and step by step.
pub proof fn law_case(c: CaseView)
    requires
        case_settled(c),
    ensures
        case_read(case_json(c)) == c,
{

    reveal_strlit("apicase");
    reveal_strlit("name");
    reveal_strlit("vars");
    reveal_strlit("steps");
    assert("apicase"@.len() != "name"@.len());
    assert("apicase"@.len() != "vars"@.len());
    assert("apicase"@.len() != "steps"@.len());
    assert("name"@[0] != "vars"@[0]);
    assert("name"@.len() != "steps"@.len());
    assert("vars"@.len() != "steps"@.len());
    let steps = Seq::new(c.requests.len(), |i: int| step_json(c.requests[i]));
    let a = seq![text_member("apicase"@, c.version)];
    let b = opt_member("name"@, c.name);
    let d: Seq<(Seq<char>, JsonView)> = match c.vars {
        Some(v) => object_member("vars"@, v),
        None => seq![],
    };
    let e = seq![("steps"@, JsonView::Array(steps))];
    let m = a + b + d + e;
    assert(case_json(c)->Object_0 =~= m);
    lemma_concats(a, b);
    lemma_concats(a + b, d);
    lemma_concats(a + b + d, e);
    lemma_none::<JsonView>();
    lemma_one(seq![("apicase"@, JsonView::Str(c.version))]);
    lemma_opt_member("name"@, c.name);
    if let Some(v) = c.vars {
        lemma_object_member("vars"@, v);
    }
    lemma_one(seq![("steps"@, JsonView::Array(steps))]);
    let r = case_read(case_json(c));
    assert(elements(lookup(m, "steps"@)) =~= steps);
    assert(r.requests.len() == c.requests.len());
    assert forall|i: int| 0 <= i < c.requests.len() implies r.requests[i] == c.requests[i] by {
        assert(step_settled(c.requests[i]));
        law_step(c.requests[i], i);
    }
    assert(r.requests =~= c.requests);
    assert(r =~= c);
}

// ---- texts -----------------------------------------------------------------------------

/// The characters of a scalar where a text is asked for; null and structures have none.
pub open spec fn characters(w: JsonView) -> Option<Seq<char>> {
    match w {
        JsonView::Bool(b) => Some(bool_text(b)),
        JsonView::Number(n) => Some(printed(n)),
        JsonView::Str(s) => Some(s),
        _ => None,
    }
}

/// Whether `w` says what `v` says: it is the same, but for texts that are quoted loosely, which
/// may have become other scalars with the same characters.
pub open spec fn told(v: JsonView, w: JsonView, q: Quote) -> bool
    decreases v,
{
    match (v, w) {
        (JsonView::Array(a), JsonView::Array(b)) => a.len() == b.len() && forall|i: int|
            0 <= i < a.len() ==> told(#[trigger] a[i], b[i], q),
        (JsonView::Object(m), JsonView::Object(o)) => m.len() == o.len() && forall|i: int|
            0 <= i < m.len() ==> (#[trigger] m[i]).0 == o[i].0 && told(
                m[i].1,
                o[i].1,
                child_quote(m[i].0, q),
            ),
        (JsonView::Str(s), _) => if q == Quote::Loose {
            characters(w) == Some(s)
        } else {
            v == w
        },
        _ => v == w,
    }
}

/// Whether the characters of a scalar are `s`.
fn has_characters(w: &Json, s: &str) -> (r: bool)
    ensures
        r == (characters(w@) == Some(s@)),
{
    proof {
        lemma_view(*w);
    }
    match w {
        Json::Bool(b) => same(bool_word(*b), s),
        Json::Number(n) => same(print_number(n).as_str(), s),
        Json::Str(t) => same(t.as_str(), s),
        _ => false,
    }
}

/// Whether `w` says what `v` says.
pub fn tells(v: &Json, w: &Json, q: Quote) -> (r: bool)
    ensures
        r == told(v@, w@, q),
    decreases v,
{
    proof {
        lemma_view(*v);
        lemma_view(*w);
    }
    match (v, w) {
        (Json::Null, Json::Null) => true,
        (Json::Bool(x), Json::Bool(y)) => *x == *y,
        (Json::Number(x), Json::Number(y)) => same_number(x, y),
        (Json::Str(x), _) => if q == Quote::Loose {
            has_characters(w, x.as_str())
        } else {
            match w {
                Json::Str(y) => same(x.as_str(), y.as_str()),
                _ => false,
            }
        },
        (Json::Array(x), Json::Array(y)) => {
            if x.len() != y.len() {
                return false;
            }
            let mut i: usize = 0;
            while i < x.len()
                invariant
                    i <= x@.len(),
                    x@.len() == y@.len(),
                    *v == Json::Array(*x),
                    v@ == JsonView::Array(views(x@)),
                    w@ == JsonView::Array(views(y@)),
                    forall|k: int| 0 <= k < i ==> told(#[trigger] views(x@)[k], views(y@)[k], q),
                decreases x@.len() - i,
            {
                proof {
                    assert(decreases_to!(*v => v->Array_0));
                    assert(decreases_to!(v->Array_0 => v->Array_0@));
                    assert(decreases_to!(v->Array_0@ => v->Array_0@[i as int]));
                    assert(views(x@)[i as int] == x@[i as int]@);
                    assert(views(y@)[i as int] == y@[i as int]@);
                }
                if !tells(&x[i], &y[i], q) {
                    return false;
                }
                i = i + 1;
            }
            true
        },
        (Json::Object(x), Json::Object(y)) => {
            if x.len() != y.len() {
                return false;
            }
            let mut i: usize = 0;
            while i < x.len()
                invariant
                    i <= x@.len(),
                    x@.len() == y@.len(),
                    *v == Json::Object(*x),
                    v@ == JsonView::Object(views(x@)),
                    w@ == JsonView::Object(views(y@)),
                    forall|k: int|
                        0 <= k < i ==> (#[trigger] views(x@)[k]).0 == views(y@)[k].0 && told(
                            views(x@)[k].1,
                            views(y@)[k].1,
                            child_quote(views(x@)[k].0, q),
                        ),
                decreases x@.len() - i,
            {
                proof {
                    assert(decreases_to!(*v => v->Object_0));
                    assert(decreases_to!(v->Object_0 => v->Object_0@));
                    assert(decreases_to!(v->Object_0@ => v->Object_0@[i as int]));
                    assert(decreases_to!(x@[i as int] => x@[i as int].value));
                    assert(views(x@)[i as int] == x@[i as int]@);
                    assert(views(y@)[i as int] == y@[i as int]@);
                }
                if !same(x[i].name.as_str(), y[i].name.as_str()) {
                    return false;
                }
                let below: Quote = quote_below(x[i].name.as_str(), q);
                if !tells(&x[i].value, &y[i].value, below) {
                    return false;
                }
                i = i + 1;
            }
            true
        },
        _ => false,
    }
}

/// Whether what is read of the YAML that is written of a case says what was written.
pub open spec fn text_kept(c: CaseView) -> bool {
    match loaded(yaml_text(case_json(c))) {
        Ok(w) => told(case_json(c), w, Quote::Strict),
        Err(_) => false,
    }
}

/// Whether what is read of the YAML that is written of a case says what was written: writes it
/// and looks.
pub fn keeps_text(c: &Case) -> (r: bool)
    ensures
        r == text_kept(c@),
{
    let v: Json = case_object(c);
    match load(to_yaml(&v).as_str()) {
        Ok(w) => tells(&v, &w, Quote::Strict),
        Err(_) => false,
    }
}

/// Where nothing is quoted loosely, nothing changes.
proof fn lemma_told_free(v: JsonView, w: JsonView)
    requires
        told(v, w, Quote::Free),
    ensures
        v == w,
    decreases v,
{
    match (v, w) {
        (JsonView::Array(a), JsonView::Array(b)) => {
            assert forall|i: int| 0 <= i < a.len() implies a[i] == b[i] by {
                assert(told(a[i], b[i], Quote::Free));
                lemma_told_free(a[i], b[i]);
            }
            assert(a =~= b);
        },
        (JsonView::Object(m), JsonView::Object(o)) => {
            assert forall|i: int| 0 <= i < m.len() implies m[i] == o[i] by {
                assert(m[i].0 == o[i].0 && told(m[i].1, o[i].1, child_quote(m[i].0, Quote::Free)));
                lemma_told_free(m[i].1, o[i].1);
            }
            assert(m =~= o);
        },
        _ => {},
    }
}

proof fn lemma_told_at(
    m: Seq<(Seq<char>, JsonView)>,
    o: Seq<(Seq<char>, JsonView)>,
    q: Quote,
    k: Seq<char>,
    i: int,
)
    requires
        told(JsonView::Object(m), JsonView::Object(o), q),
        0 <= i <= m.len(),
    ensures
        key_at(o, k, i) == key_at(m, k, i),
    decreases m.len() - i,
{
    if i < m.len() {
        assert(m[i].0 == o[i].0);
        if m[i].0 != k {
            lemma_told_at(m, o, q, k, i + 1);
        }
    }
}

/// What says what a text says has its characters.
proof fn lemma_told_text(v: JsonView, w: JsonView, q: Quote)
    requires
        told(v, w, q),
        v is Str,
    ensures
        field_text(Some(w)) == field_text(Some(v)),
        w !is Null,
{
    match w {
        JsonView::Bool(b) => {},
        JsonView::Number(n) => {},
        _ => {},
    }
}

/// How texts below the keys of a case are quoted.
proof fn lemma_case_quotes()
    ensures
        child_quote("apicase"@, Quote::Strict) == Quote::Strict,
        child_quote("name"@, Quote::Strict) == Quote::Strict,
        child_quote("vars"@, Quote::Strict) == Quote::Free,
        child_quote("steps"@, Quote::Strict) == Quote::Strict,
        child_quote("ui"@, Quote::Strict) == Quote::Strict,
        child_quote("dependsOn"@, Quote::Strict) == Quote::Strict,
        child_quote("request"@, Quote::Strict) == Quote::Free,
        child_quote("outputs"@, Quote::Strict) == Quote::Strict,
        child_quote("assertions"@, Quote::Strict) == Quote::Loose,
{
    reveal_strlit("apicase");
    reveal_strlit("name");
    reveal_strlit("vars");
    reveal_strlit("steps");
    reveal_strlit("ui");
    reveal_strlit("dependsOn");
    reveal_strlit("request");
    reveal_strlit("outputs");
    reveal_strlit("assertions");
    assert("apicase"@[0] != "request"@[0]);
    assert("name"@[0] != "vars"@[0]);
    assert("outputs"@[0] != "request"@[0]);
    assert("assertions"@.len() == 10);
    assert("request"@.len() == 7);
    assert("vars"@.len() == 4);
    assert("apicase"@.len() == 7);
    assert("steps"@.len() == 5);
    assert("ui"@.len() == 2);
    assert("dependsOn"@.len() == 9);
}

/// A member says what the member of the same name says.
proof fn lemma_told_member(
    m: Seq<(Seq<char>, JsonView)>,
    o: Seq<(Seq<char>, JsonView)>,
    q: Quote,
    k: Seq<char>,
)
    requires
        told(JsonView::Object(m), JsonView::Object(o), q),
    ensures
        match lookup(m, k) {
            Some(v) => lookup(o, k) is Some && told(v, lookup(o, k)->0, child_quote(k, q)),
            None => lookup(o, k) is None,
        },
        lookup(m, k) is None || lookup(m, k)->0 is Str ==> field(o, k) == field(m, k),
{
    lemma_told_at(m, o, q, k, 0);
    lemma_key_at(m, k, 0);
    let i = key_at(m, k, 0);
    if i < m.len() {
        assert(m[i].0 == o[i].0 && told(m[i].1, o[i].1, child_quote(m[i].0, q)));
        assert(lookup(m, k) == Some(m[i].1));
        assert(lookup(o, k) == Some(o[i].1));
        if m[i].1 is Str {
            lemma_told_text(m[i].1, o[i].1, child_quote(k, q));
        }
    }
}

/// Texts are read from what says the same.
proof fn lemma_told_texts(a: Seq<JsonView>, b: Seq<JsonView>)
    requires
        told(JsonView::Array(a), JsonView::Array(b), Quote::Strict),
        forall|i: int| 0 <= i < a.len() ==> (#[trigger] a[i]) is Str,
    ensures
        a == b,
{
    assert forall|i: int| 0 <= i < a.len() implies a[i] == b[i] by {
        assert(told(a[i], b[i], Quote::Strict));
    }
    assert(a =~= b);
}

/// The outputs of a step are written as texts.
proof fn lemma_outputs_are_texts(l: Seq<StepOutputView>)
    ensures
        forall|i: int| 0 <= i < outputs_json(l).len() ==> (#[trigger] outputs_json(l)[i]).1 is Str,
    decreases l.len(),
{
    if l.len() > 0 {
        lemma_outputs_are_texts(l.drop_last());
        lemma_key_at(outputs_json(l.drop_last()), trim(l.last().name), 0);
    }
}

/// The same outputs are read from what says the same.
proof fn lemma_told_outputs(m: Seq<(Seq<char>, JsonView)>, o: Seq<(Seq<char>, JsonView)>)
    requires
        told(JsonView::Object(m), JsonView::Object(o), Quote::Strict),
        forall|i: int| 0 <= i < m.len() ==> (#[trigger] m[i]).1 is Str,
    ensures
        outputs_read(o) == outputs_read(m),
{
    assert forall|i: int| 0 <= i < m.len() implies outputs_read(m)[i] == outputs_read(o)[i] by {
        assert(m[i].0 == o[i].0 && told(m[i].1, o[i].1, child_quote(m[i].0, Quote::Strict)));
        assert(m[i].1 is Str);
    }
    assert(outputs_read(o) =~= outputs_read(m));
}

/// The same assertions are read from what says the same.
proof fn lemma_told_assertions(l: Seq<AssertionView>, b: Seq<JsonView>)
    requires
        told(JsonView::Array(assertions_json(l)), JsonView::Array(b), Quote::Loose),
    ensures
        assertions_read(b) == assertions_read(assertions_json(l)),
    decreases l.len(),
{
    let a = assertions_json(l);
    if l.len() == 0 {
        assert(b =~= a);
    } else if is_blank(l.last().target) {
        lemma_told_assertions(l.drop_last(), b);
    } else {
        let x = l.last();
        let rest = assertions_json(l.drop_last());
        assert(a.drop_last() =~= rest);
        let c = b.drop_last();
        assert forall|i: int| 0 <= i < rest.len() implies told(#[trigger] rest[i], c[i], Quote::Loose) by {
            assert(rest[i] == a[i]);
            assert(told(a[i], b[i], Quote::Loose));
        }
        lemma_told_assertions(l.drop_last(), c);
        let n = a.len() - 1;
        assert(a[n] == assertion_json(x));
        assert(told(a[n], b[n], Quote::Loose));
        let m = assertion_json(x)->Object_0;
        let o = b[n]->Object_0;
        assert forall|i: int| 0 <= i < m.len() implies (#[trigger] m[i]).1 is Str by {}
        lemma_key_at(m, "target"@, 0);
        lemma_key_at(m, "op"@, 0);
        lemma_key_at(m, "value"@, 0);
        lemma_told_member(m, o, Quote::Loose, "target"@);
        lemma_told_member(m, o, Quote::Loose, "op"@);
        lemma_told_member(m, o, Quote::Loose, "value"@);
        assert(assertion_read(o) == assertion_read(m));
    }
}

proof fn lemma_told_ui(u: Option<StepUiView>, w: Option<JsonView>)
    requires
        u is Some ==> w is Some && told(ui_json(u)->0, w->0, Quote::Strict),
        u is None ==> w is None,
    ensures
        ui_read(w) == ui_read(ui_json(u)),
{
    if let Some(p) = u {
        let v = ui_json(u)->0;
        reveal_strlit("x");
        reveal_strlit("y");
        assert("x"@[0] != "y"@[0]);
        lemma_two(v->Object_0);
        lemma_told_member(v->Object_0, w->0->Object_0, Quote::Strict, "x"@);
        lemma_told_member(v->Object_0, w->0->Object_0, Quote::Strict, "y"@);
    }
}

/// The same step is read from what says the same.
proof fn lemma_told_step(st: StepView, w: JsonView, i: int)
    requires
        told(step_json(st), w, Quote::Strict),
    ensures
        step_read(w, i) == step_read(step_json(st), i),
{
    let u = StepView {
        protocol: if st.protocol.len() == 0 {
            "http"@
        } else {
            st.protocol
        },
        docs: if_said(st.docs),
        ..st
    };
    reveal_strlit("http");
    assert(docs_member(u.docs) == docs_member(st.docs));
    assert(step_json(u) == step_json(st));
    lemma_step_members(u);
    let m = step_parts(u);
    let o = w->Object_0;
    lemma_told_member(m, o, Quote::Strict, "id"@);
    lemma_told_member(m, o, Quote::Strict, "protocol"@);
    lemma_told_member(m, o, Quote::Strict, "ui"@);
    lemma_told_member(m, o, Quote::Strict, "dependsOn"@);
    lemma_told_member(m, o, Quote::Strict, "request"@);
    lemma_told_member(m, o, Quote::Strict, "outputs"@);
    lemma_told_member(m, o, Quote::Strict, "assertions"@);
    lemma_told_member(m, o, Quote::Strict, "docs"@);
    lemma_case_quotes();
    lemma_told_ui(u.ui, lookup(o, "ui"@));
    lemma_told_free(lookup(m, "request"@)->0, lookup(o, "request"@)->0);
    if let Some(JsonView::Array(a)) = lookup(m, "dependsOn"@) {
        lemma_told_texts(a, elements(lookup(o, "dependsOn"@)));
    }
    if let Some(JsonView::Object(a)) = lookup(m, "outputs"@) {
        lemma_outputs_are_texts(u.outputs);
        lemma_told_outputs(a, members(lookup(o, "outputs"@)));
    }
    if let Some(JsonView::Array(a)) = lookup(m, "assertions"@) {
        lemma_told_assertions(u.assertions, elements(lookup(o, "assertions"@)));
    }
}

/// The same case is read from what says the same.
pub proof fn law_told_case(c: CaseView, w: JsonView)
    requires
        told(case_json(c), w, Quote::Strict),
    ensures
        case_read(w) == case_read(case_json(c)),
{
    let m = case_json(c)->Object_0;
    let o = w->Object_0;
    let steps = Seq::new(c.requests.len(), |i: int| step_json(c.requests[i]));
    lemma_case_members(c);
    lemma_told_member(m, o, Quote::Strict, "apicase"@);
    lemma_told_member(m, o, Quote::Strict, "name"@);
    lemma_told_member(m, o, Quote::Strict, "vars"@);
    lemma_told_member(m, o, Quote::Strict, "steps"@);
    lemma_case_quotes();
    if lookup(m, "vars"@) is Some {
        lemma_told_free(lookup(m, "vars"@)->0, lookup(o, "vars"@)->0);
    }
    let b = elements(lookup(o, "steps"@));
    let x = case_read(w);
    let y = case_read(case_json(c));
    assert forall|i: int| 0 <= i < steps.len() implies x.requests[i] == y.requests[i] by {
        assert(told(steps[i], b[i], Quote::Strict));
        lemma_told_step(c.requests[i], b[i], i);
    }
    assert(x.requests =~= y.requests);
}

proof fn lemma_case_members(c: CaseView)
    ensures
        ({
            let m = case_json(c)->Object_0;
            &&& lookup(m, "apicase"@) is Some && lookup(m, "apicase"@)->0 is Str
            &&& lookup(m, "name"@) is Some ==> lookup(m, "name"@)->0 is Str
            &&& lookup(m, "steps"@) == Some(
                JsonView::Array(Seq::new(c.requests.len(), |i: int| step_json(c.requests[i]))),
            )
        }),
{
    reveal_strlit("apicase");
    reveal_strlit("name");
    reveal_strlit("vars");
    reveal_strlit("steps");
    assert("apicase"@.len() != "name"@.len());
    assert("apicase"@.len() != "vars"@.len());
    assert("apicase"@.len() != "steps"@.len());
    assert("name"@[0] != "vars"@[0]);
    assert("name"@.len() != "steps"@.len());
    assert("vars"@.len() != "steps"@.len());
    let version = if c.version.len() == 0 {
        CASE_VERSION@
    } else {
        c.version
    };
    let steps = Seq::new(c.requests.len(), |i: int| step_json(c.requests[i]));
    let a = seq![text_member("apicase"@, version)];
    let b = opt_member("name"@, c.name);
    let d: Seq<(Seq<char>, JsonView)> = match c.vars {
        Some(v) => object_member("vars"@, v),
        None => seq![],
    };
    let e = seq![("steps"@, JsonView::Array(steps))];
    let m = a + b + d + e;
    assert(case_json(c)->Object_0 =~= m);
    lemma_concats(a, b);
    lemma_concats(a + b, d);
    lemma_concats(a + b + d, e);
    lemma_none::<JsonView>();
    lemma_one(seq![("apicase"@, JsonView::Str(version))]);
    lemma_opt_member("name"@, c.name);
    if let Some(v) = c.vars {
        lemma_object_member("vars"@, v);
    }
    lemma_one(seq![("steps"@, JsonView::Array(steps))]);
}

/// A settled case whose text is kept is read back from it.
pub proof fn law_case_text(c: CaseView)
    requires
        case_settled(c),
    ensures
        text_kept(c) ==> parsed_case(yaml_text(case_json(c))) == Ok::<CaseView, Seq<char>>(c),
{
    law_case(c);
    if text_kept(c) {
        law_told_case(c, loaded(yaml_text(case_json(c)))->Ok_0);
    }
}

// ---- what is left after writing --------------------------------------------------------

/// A text that may be missing; a blank one is.
pub open spec fn if_said(s: Option<Seq<char>>) -> Option<Seq<char>> {
    match s {
        Some(t) => if is_blank(t) {
            None
        } else {
            s
        },
        None => None,
    }
}

/// A text that may be missing; an empty one is.
pub open spec fn if_some(s: Option<Seq<char>>) -> Option<Seq<char>> {
    match s {
        Some(t) => if t.len() == 0 {
            None
        } else {
            s
        },
        None => None,
    }
}

/// The rows that are written, with all that is written of them.
pub open spec fn rows_left(l: Seq<KvView>) -> Seq<KvView>
    decreases l.len(),
{
    if l.len() == 0 {
        seq![]
    } else if row_kept(l.last().name, l.last().value) {
        rows_left(l.drop_last()).push(
            KvView { description: if_said(l.last().description), ..l.last() },
        )
    } else {
        rows_left(l.drop_last())
    }
}

proof fn lemma_rows_left(l: Seq<KvView>)
    ensures
        rows_settled(rows_left(l)),
        rows_json(rows_left(l)) == rows_json(l),
    decreases l.len(),
{
    if l.len() > 0 {
        lemma_rows_left(l.drop_last());
        if row_kept(l.last().name, l.last().value) {
            let rest = rows_left(l.drop_last());
            let k = KvView { description: if_said(l.last().description), ..l.last() };
            let all = rest.push(k);
            assert(all.drop_last() =~= rest);
            assert(row_json(k) == row_json(l.last()));
            assert forall|i: int| 0 <= i < all.len() implies row_settled(#[trigger] all[i]) by {
                if i < rest.len() {
                    assert(all[i] == rest[i]);
                }
            }
        }
    }
}

/// The fields of a form that are written, with all that is written of them.
pub open spec fn form_left(l: Seq<FormItemView>) -> Seq<FormItemView>
    decreases l.len(),
{
    if l.len() == 0 {
        seq![]
    } else if row_kept(l.last().name, l.last().value) {
        form_left(l.drop_last()).push(
            FormItemView {
                description: if_said(l.last().description),
                kind: if l.last().kind == Some(FormKind::File) {
                    l.last().kind
                } else {
                    None
                },
                ..l.last()
            },
        )
    } else {
        form_left(l.drop_last())
    }
}

proof fn lemma_form_left(l: Seq<FormItemView>)
    ensures
        form_settled(form_left(l)),
        form_json(form_left(l)) == form_json(l),
    decreases l.len(),
{
    if l.len() > 0 {
        lemma_form_left(l.drop_last());
        if row_kept(l.last().name, l.last().value) {
            let rest = form_left(l.drop_last());
            let all = form_left(l);
            let k = all.last();
            assert(all.drop_last() =~= rest);
            assert(form_item_json(k) == form_item_json(l.last()));
            assert forall|i: int| 0 <= i < all.len() implies form_item_settled(#[trigger] all[i]) by {
                if i < rest.len() {
                    assert(all[i] == rest[i]);
                }
            }
        }
    }
}

/// An authentication with the part that is written of it.
pub open spec fn auth_left(a: AuthSpecView) -> AuthSpecView {
    let o = match a.oauth2 {
        Some(t) => t,
        None => empty_oauth2(),
    };
    AuthSpecView {
        kind: a.kind,
        bearer: if a.kind == AuthType::Bearer {
            Some(
                match a.bearer {
                    Some(b) => b,
                    None => empty_bearer(),
                },
            )
        } else {
            None
        },
        basic: if a.kind == AuthType::Basic {
            Some(
                match a.basic {
                    Some(b) => b,
                    None => empty_basic(),
                },
            )
        } else {
            None
        },
        apikey: if a.kind == AuthType::Apikey {
            Some(
                match a.apikey {
                    Some(b) => b,
                    None => empty_apikey(),
                },
            )
        } else {
            None
        },
        digest: if a.kind == AuthType::Digest {
            Some(
                match a.digest {
                    Some(b) => b,
                    None => empty_digest(),
                },
            )
        } else {
            None
        },
        oauth2: if a.kind == AuthType::Oauth2 {
            Some(Oauth2AuthView { scope: if_some(o.scope), ..o })
        } else {
            None
        },
    }
}

proof fn lemma_auth_left(a: AuthSpecView)
    ensures
        auth_settled(auth_left(a)),
        auth_json(auth_left(a)) == auth_json(a),
{
    assert(auth_part(auth_left(a)) =~= auth_part(a));
}

/// A body with the content that is written of it; one without content is none.
pub open spec fn body_left(b: BodySpecView) -> BodySpecView {
    if body_json(b) is None {
        empty_body()
    } else {
        BodySpecView {
            kind: b.kind,
            json: if b.kind == BodyType::Json {
                b.json
            } else {
                None
            },
            xml: if b.kind == BodyType::Xml {
                b.xml
            } else {
                None
            },
            text: if b.kind == BodyType::Text {
                b.text
            } else {
                None
            },
            content_type: if b.kind == BodyType::Text || b.kind == BodyType::Binary {
                if_some(b.content_type)
            } else {
                None
            },
            urlencoded: if b.kind == BodyType::FormUrlencoded {
                Some(
                    rows_left(
                        match b.urlencoded {
                            Some(l) => l,
                            None => seq![],
                        },
                    ),
                )
            } else {
                None
            },
            form_data: if b.kind == BodyType::FormData {
                Some(
                    form_left(
                        match b.form_data {
                            Some(l) => l,
                            None => seq![],
                        },
                    ),
                )
            } else {
                None
            },
            file_path: if b.kind == BodyType::Binary {
                b.file_path
            } else {
                None
            },
        }
    }
}

proof fn lemma_body_left(b: BodySpecView)
    ensures
        body_settled(body_left(b)),
        body_json(body_left(b)) == body_json(b),
{
    let u = match b.urlencoded {
        Some(l) => l,
        None => seq![],
    };
    let f = match b.form_data {
        Some(l) => l,
        None => seq![],
    };
    lemma_rows_left(u);
    lemma_form_left(f);
    law_rows(rows_left(u));
    law_form(form_left(f));
    assert(opt_member("contentType"@, if_some(b.content_type)) == opt_member(
        "contentType"@,
        b.content_type,
    ));
}

proof fn lemma_depends_read(a: Seq<JsonView>)
    ensures
        depends_settled(depends_read(a)),
    decreases a.len(),
{
    if a.len() > 0 {
        lemma_depends_read(a.drop_last());
        let rest = depends_read(a.drop_last());
        let all = depends_read(a);
        assert forall|i: int| 0 <= i < all.len() implies (#[trigger] all[i]).len() > 0 by {
            if i < rest.len() {
                assert(all[i] == rest[i]);
            }
        }
    }
}

/// Whether the names of a table are distinct, not blank and without blanks around them.
spec fn names_settled(m: Seq<(Seq<char>, JsonView)>) -> bool {
    &&& distinct(m)
    &&& forall|i: int|
        0 <= i < m.len() ==> !is_blank((#[trigger] m[i]).0) && trim(m[i].0) == m[i].0
}

proof fn lemma_output_names(l: Seq<StepOutputView>)
    ensures
        names_settled(outputs_json(l)),
    decreases l.len(),
{
    if l.len() > 0 {
        lemma_output_names(l.drop_last());
        if !is_blank(l.last().name) {
            let m = outputs_json(l.drop_last());
            let k = trim(l.last().name);
            let v = JsonView::Str(l.last().path);
            lemma_trim_twice(l.last().name);
            law_put(m, k, v, k);
            lemma_key_at(m, k, 0);
            let n = put(m, k, v);
            assert forall|i: int| 0 <= i < n.len() implies !is_blank((#[trigger] n[i]).0) && trim(
                n[i].0,
            ) == n[i].0 by {
                if n[i].0 != k {
                    assert(n[i] == m[i]);
                }
            }
        }
    }
}

proof fn lemma_outputs_left(l: Seq<StepOutputView>)
    ensures
        outputs_settled(outputs_read(outputs_json(l))),
{
    lemma_output_names(l);
    let m = outputs_json(l);
    let r = outputs_read(m);
    assert forall|i: int| 0 <= i < r.len() implies !is_blank((#[trigger] r[i]).name) && trim(r[i].name)
        == r[i].name by {
        assert(r[i].name == m[i].0);
    }
    assert forall|i: int, j: int| 0 <= i < j < r.len() implies (#[trigger] r[i]).name != (
    #[trigger] r[j]).name by {
        assert(m[i].0 != m[j].0);
    }
}

/// The assertions that are written, with all that is written of them.
pub open spec fn assertions_left(l: Seq<AssertionView>) -> Seq<AssertionView>
    decreases l.len(),
{
    if l.len() == 0 {
        seq![]
    } else if is_blank(l.last().target) {
        assertions_left(l.drop_last())
    } else {
        assertions_left(l.drop_last()).push(
            AssertionView {
                value: if takes_value(l.last().op) {
                    if_some(l.last().value)
                } else {
                    None
                },
                ..l.last()
            },
        )
    }
}

proof fn lemma_assertions_left(l: Seq<AssertionView>)
    ensures
        assertions_settled(assertions_left(l)),
        assertions_json(assertions_left(l)) == assertions_json(l),
    decreases l.len(),
{
    if l.len() > 0 {
        lemma_assertions_left(l.drop_last());
        if !is_blank(l.last().target) {
            let rest = assertions_left(l.drop_last());
            let all = assertions_left(l);
            assert(all.drop_last() =~= rest);
            assert(assertion_json(all.last()) == assertion_json(l.last()));
            assert forall|i: int| 0 <= i < all.len() implies assertion_settled(#[trigger] all[i]) by {
                if i < rest.len() {
                    assert(all[i] == rest[i]);
                }
            }
        }
    }
}

proof fn lemma_ui_left(u: Option<StepUiView>)
    ensures
        ui_read(ui_json(u)) == (match u {
            Some(p) => Some(StepUiView { x: coordinate(p.x), y: coordinate(p.y) }),
            None => None,
        }),
{
    reveal_strlit("x");
    reveal_strlit("y");
    assert("x"@[0] != "y"@[0]);
    lemma_none::<JsonView>();
    if let Some(p) = u {
        lemma_two(
            seq![
                ("x"@, JsonView::Number(coordinate(p.x))),
                ("y"@, JsonView::Number(coordinate(p.y))),
            ],
        );
    }
}

/// Whether a step has a method and a place that settle when they are read: the method is in
/// upper case afterwards, and the place is written as it was read.
pub open spec fn step_settles(st: StepView) -> bool {
    &&& method_read(st.http.method).len() > 0
    &&& uppercase(method_read(st.http.method)) == method_read(st.http.method)
    &&& st.ui matches Some(p) ==> coordinate(coordinate(p.x)) == coordinate(p.x) && coordinate(
        coordinate(p.y),
    ) == coordinate(p.y)
}

/// Whether every step of a case has a method and a place that settle.
pub open spec fn case_settles(c: CaseView) -> bool {
    forall|i: int| 0 <= i < c.requests.len() ==> step_settles(#[trigger] c.requests[i])
}

/// Whether a number is an integer that is written as it is.
pub open spec fn is_whole(n: NumberView) -> bool {
    n matches NumberView::Int(i) && -(MAX_WHOLE as int) < i < MAX_WHOLE
}

/// Whether a step has a method of ASCII characters and a place of integers, as steps do.
pub open spec fn is_plain_step(st: StepView) -> bool {
    &&& is_ascii_text(st.http.method)
    &&& st.ui matches Some(p) ==> is_whole(p.x) && is_whole(p.y)
}

proof fn lemma_upper_twice(s: Seq<char>)
    requires
        is_ascii_text(s),
    ensures
        is_ascii_text(upper(s)),
        upper(upper(s)) == upper(s),
{
    assert forall|i: int| 0 <= i < s.len() implies (#[trigger] upper(s)[i]) as u32 <= 0x7F && upper(
        upper(s),
    )[i] == upper(s)[i] by {
        assert(upper(s)[i] == upper_char(s[i]));
    }
    assert(upper(upper(s)) =~= upper(s));
}

/// Whether a method settles.
fn method_settles(m: &str) -> (r: bool)
    ensures
        r == (method_read(m@).len() > 0 && uppercase(method_read(m@)) == method_read(m@)),
        is_ascii_text(m@) ==> r,
{
    let once: String = if empty(m) {
        copy_text("GET")
    } else {
        to_upper(m)
    };
    let twice: String = to_upper(once.as_str());
    proof {
        reveal_strlit("GET");
        if is_ascii_text(m@) {
            lemma_upper_twice(m@);
            lemma_upper_twice("GET"@);
            assert(upper("GET"@) =~= "GET"@);
        }
    }
    !empty(once.as_str()) && same(twice.as_str(), once.as_str())
}

/// Whether a coordinate is written as it was read.
fn place_settles(n: &Number) -> (r: bool)
    ensures
        r == (coordinate(coordinate(n@)) == coordinate(n@)),
        is_whole(n@) ==> r,
{
    let once: Number = num(n);
    let twice: Number = num(&once);
    same_number(&twice, &once)
}

/// Whether every step of a case has a method and a place that settle: reads and writes them and
/// looks. They do where the methods are of ASCII characters and the places of integers.
pub fn settles(c: &Case) -> (r: bool)
    ensures
        r == case_settles(c@),
        (forall|i: int| 0 <= i < c@.requests.len() ==> is_plain_step(#[trigger] c@.requests[i]))
            ==> r,
{
    let mut i: usize = 0;
    while i < c.requests.len()
        invariant
            i <= c.requests@.len(),
            forall|j: int| 0 <= j < i ==> step_settles(#[trigger] c@.requests[j]),
        decreases c.requests@.len() - i,
    {
        let st: &Step = &c.requests[i];
        assert(c@.requests[i as int] == st@);
        let placed: bool = match &st.ui {
            Some(u) => place_settles(&u.x) && place_settles(&u.y),
            None => true,
        };
        if !placed || !method_settles(st.http.method.as_str()) {
            assert(!step_settles(c@.requests[i as int]));
            return false;
        }
        i = i + 1;
    }
    true
}

proof fn lemma_step_left(st: StepView, i: int)
    requires
        step_settles(st),
    ensures
        step_settled(step_read(step_json(st), i)),
{
    let h = HttpSpecView {
        query: rows_left(st.http.query),
        headers: rows_left(st.http.headers),
        auth: auth_left(st.http.auth),
        body: body_left(st.http.body),
        ..st.http
    };
    lemma_rows_left(st.http.query);
    lemma_rows_left(st.http.headers);
    lemma_auth_left(st.http.auth);
    lemma_body_left(st.http.body);
    assert(http_json(h) == http_json(st.http));
    lemma_http(h);
    let w = StepView {
        protocol: if st.protocol.len() == 0 {
            "http"@
        } else {
            st.protocol
        },
        assertions: assertions_left(st.assertions),
        docs: if_said(st.docs),
        ..st
    };
    lemma_assertions_left(st.assertions);
    reveal_strlit("http");
    assert(docs_member(w.docs) == docs_member(st.docs));
    assert(step_json(w) == step_json(st));
    lemma_step_members(w);
    lemma_ui_left(st.ui);
    lemma_depends_read(texts_json(st.depends_on));
    lemma_outputs_left(st.outputs);
    law_assertions(w.assertions);
    reveal_strlit("step");
}

/// One writing and reading settles a case: what is read from what was written of any case is
/// settled, so that writing and reading it again changes nothing.
pub proof fn law_settles(c: CaseView)
    requires
        case_settles(c),
    ensures
        case_settled(case_read(case_json(c))),
        case_read(case_json(case_read(case_json(c)))) == case_read(case_json(c)),
{
    reveal_strlit("apicase");
    reveal_strlit("name");
    reveal_strlit("vars");
    reveal_strlit("steps");
    reveal_strlit("v0.1");
    assert("apicase"@.len() != "name"@.len());
    assert("apicase"@.len() != "vars"@.len());
    assert("apicase"@.len() != "steps"@.len());
    assert("name"@[0] != "vars"@[0]);
    assert("name"@.len() != "steps"@.len());
    assert("vars"@.len() != "steps"@.len());
    let version = if c.version.len() == 0 {
        CASE_VERSION@
    } else {
        c.version
    };
    let steps = Seq::new(c.requests.len(), |i: int| step_json(c.requests[i]));
    let a = seq![text_member("apicase"@, version)];
    let b = opt_member("name"@, c.name);
    let d: Seq<(Seq<char>, JsonView)> = match c.vars {
        Some(v) => object_member("vars"@, v),
        None => seq![],
    };
    let e = seq![("steps"@, JsonView::Array(steps))];
    let m = a + b + d + e;
    assert(case_json(c)->Object_0 =~= m);
    lemma_concats(a, b);
    lemma_concats(a + b, d);
    lemma_concats(a + b + d, e);
    lemma_none::<JsonView>();
    lemma_one(seq![("apicase"@, JsonView::Str(version))]);
    lemma_opt_member("name"@, c.name);
    if let Some(v) = c.vars {
        lemma_object_member("vars"@, v);
    }
    lemma_one(seq![("steps"@, JsonView::Array(steps))]);
    let r = case_read(case_json(c));
    assert(elements(lookup(m, "steps"@)) =~= steps);
    assert forall|i: int| 0 <= i < r.requests.len() implies step_settled(#[trigger] r.requests[i]) by {
        assert(step_settles(c.requests[i]));
        lemma_step_left(c.requests[i], i);
        assert(r.requests[i] == step_read(steps[i], i));
    }
    law_case(r);
}

/// Once a case has been through a file, writing and reading it again changes nothing, wherever
/// the texts are kept.
pub proof fn law_settles_text(c: CaseView, again: CaseView)
    requires
        case_settles(c),
        text_kept(c),
        parsed_case(yaml_text(case_json(c))) == Ok::<CaseView, Seq<char>>(again),
        text_kept(again),
    ensures
        parsed_case(yaml_text(case_json(again))) == Ok::<CaseView, Seq<char>>(again),
{
    law_settles(c);
    law_told_case(c, loaded(yaml_text(case_json(c)))->Ok_0);
    law_told_case(again, loaded(yaml_text(case_json(again)))->Ok_0);
}

} // verus!
