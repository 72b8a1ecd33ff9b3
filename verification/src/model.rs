//! The model of a case: what a case file holds and what a run works on.
//!
//! Enumerations are read leniently: a word that is not known gives the default, so that one
//! misspelt `op` does not turn a whole file into a parse error.
use crate::json::{Json, JsonView, Member};
use crate::number::{Number, NumberView};
use crate::text::{
    blank, copy_text, duplicate_opt, duplicates, duplicates_opt, is_blank, opt_view, opt_views,
    same, views, Duplicate,
};
use vstd::prelude::*;

verus! {

/// The schema version of a case file. The leading `v` keeps it from reading as a number.
pub const CASE_VERSION: &'static str = "v0.1";

/// The largest number of cases that run at a time.
pub const MAX_CONCURRENCY: u32 = 64;

// ---- rows ------------------------------------------------------------------------------

/// A row of a query, of headers or of a form.
#[derive(Debug, Clone, PartialEq)]
pub struct Kv {
    pub name: String,
    pub value: String,
    pub enabled: bool,
    pub description: Option<String>,
}

/// What a `Kv` stands for.
#[verifier::ext_equal]
pub struct KvView {
    pub name: Seq<char>,
    pub value: Seq<char>,
    pub enabled: bool,
    pub description: Option<Seq<char>>,
}

impl View for Kv {
    type V = KvView;

    open spec fn view(&self) -> KvView {
        KvView {
            name: self.name@,
            value: self.value@,
            enabled: self.enabled,
            description: opt_view(self.description),
        }
    }
}

impl Duplicate for Kv {
    fn duplicate(&self) -> (r: Self) {
        Kv {
            name: copy_text(self.name.as_str()),
            value: copy_text(self.value.as_str()),
            enabled: self.enabled,
            description: duplicate_opt(&self.description),
        }
    }
}

/// Whether a row is sent: it is enabled and has a name.
pub open spec fn row_active(enabled: bool, name: Seq<char>) -> bool {
    enabled && !is_blank(name)
}

impl Kv {
    /// An enabled row without a description.
    pub fn new(name: &str, value: &str) -> (r: Self)
        ensures
            r@ == kv_row(name@, value@),
    {
        Kv { name: copy_text(name), value: copy_text(value), enabled: true, description: None }
    }

    /// Whether the row is sent.
    pub fn active(&self) -> (r: bool)
        ensures
            r == row_active(self@.enabled, self@.name),
    {
        self.enabled && !blank(self.name.as_str())
    }
}

/// An enabled row without a description.
pub open spec fn kv_row(name: Seq<char>, value: Seq<char>) -> KvView {
    KvView { name, value, enabled: true, description: None }
}

/// The kind of a form field.
#[derive(Debug, Clone, Copy, PartialEq, Eq, Structural)]
pub enum FormKind {
    Text,
    File,
}

/// A field of a multipart form. The value of a file field is a path.
#[derive(Debug, Clone, PartialEq)]
pub struct FormItem {
    pub name: String,
    pub value: String,
    pub enabled: bool,
    pub description: Option<String>,
    /// `None` is a text field.
    pub kind: Option<FormKind>,
}

/// What a `FormItem` stands for.
#[verifier::ext_equal]
pub struct FormItemView {
    pub name: Seq<char>,
    pub value: Seq<char>,
    pub enabled: bool,
    pub description: Option<Seq<char>>,
    pub kind: Option<FormKind>,
}

impl View for FormItem {
    type V = FormItemView;

    open spec fn view(&self) -> FormItemView {
        FormItemView {
            name: self.name@,
            value: self.value@,
            enabled: self.enabled,
            description: opt_view(self.description),
            kind: self.kind,
        }
    }
}

impl Duplicate for FormItem {
    fn duplicate(&self) -> (r: Self) {
        FormItem {
            name: copy_text(self.name.as_str()),
            value: copy_text(self.value.as_str()),
            enabled: self.enabled,
            description: duplicate_opt(&self.description),
            kind: self.kind,
        }
    }
}

impl FormItem {
    /// Whether the field is a file.
    pub fn is_file(&self) -> (r: bool)
        ensures
            r == (self@.kind == Some(FormKind::File)),
    {
        match self.kind {
            Some(FormKind::File) => true,
            _ => false,
        }
    }

    /// Whether the field is sent.
    pub fn active(&self) -> (r: bool)
        ensures
            r == row_active(self@.enabled, self@.name),
    {
        self.enabled && !blank(self.name.as_str())
    }
}

// ---- body ------------------------------------------------------------------------------

/// The type of a request body.
#[derive(Debug, Clone, Copy, PartialEq, Eq, Structural)]
pub enum BodyType {
    NoBody,
    Json,
    Xml,
    Text,
    FormUrlencoded,
    FormData,
    Binary,
}

/// The word of a body type.
pub open spec fn body_type_name(t: BodyType) -> Seq<char> {
    match t {
        BodyType::NoBody => "none"@,
        BodyType::Json => "json"@,
        BodyType::Xml => "xml"@,
        BodyType::Text => "text"@,
        BodyType::FormUrlencoded => "form-urlencoded"@,
        BodyType::FormData => "form-data"@,
        BodyType::Binary => "binary"@,
    }
}

/// A body type of a word; an unknown word gives the default.
pub open spec fn body_type_of(s: Seq<char>) -> BodyType {
    if s == "json"@ {
        BodyType::Json
    } else if s == "xml"@ {
        BodyType::Xml
    } else if s == "text"@ {
        BodyType::Text
    } else if s == "form-urlencoded"@ {
        BodyType::FormUrlencoded
    } else if s == "form-data"@ {
        BodyType::FormData
    } else if s == "binary"@ {
        BodyType::Binary
    } else {
        BodyType::NoBody
    }
}

impl BodyType {
    /// The word of a body type.
    pub fn as_str(self) -> (r: &'static str)
        ensures
            r@ == body_type_name(self),
    {
        match self {
            BodyType::NoBody => "none",
            BodyType::Json => "json",
            BodyType::Xml => "xml",
            BodyType::Text => "text",
            BodyType::FormUrlencoded => "form-urlencoded",
            BodyType::FormData => "form-data",
            BodyType::Binary => "binary",
        }
    }
}

impl<'a> From<&'a str> for BodyType {
    fn from(s: &'a str) -> (r: Self) {
        if same(s, "json") {
            BodyType::Json
        } else if same(s, "xml") {
            BodyType::Xml
        } else if same(s, "text") {
            BodyType::Text
        } else if same(s, "form-urlencoded") {
            BodyType::FormUrlencoded
        } else if same(s, "form-data") {
            BodyType::FormData
        } else if same(s, "binary") {
            BodyType::Binary
        } else {
            BodyType::NoBody
        }
    }
}

impl<'a> vstd::std_specs::convert::FromSpecImpl<&'a str> for BodyType {
    open spec fn obeys_from_spec() -> bool {
        true
    }

    open spec fn from_spec(s: &'a str) -> Self {
        body_type_of(s@)
    }
}

impl Default for BodyType {
    fn default() -> (r: Self)
        ensures
            r == BodyType::NoBody,
    {
        BodyType::NoBody
    }
}

/// Reading the word of a body type gives it back.
pub proof fn law_body_type_round_trip(t: BodyType)
    ensures
        body_type_of(body_type_name(t)) == t,
{
    reveal_strlit("none");
    reveal_strlit("json");
    reveal_strlit("xml");
    reveal_strlit("text");
    reveal_strlit("form-urlencoded");
    reveal_strlit("form-data");
    reveal_strlit("binary");
    assert(body_type_of(body_type_name(t)) == t) by {
        let n = body_type_name(t);
        assert(n == "none"@ ==> n.len() == 4 && n[0] == 'n');
        assert(n == "none"@ ==> n[3] == 'e');
        assert(n == "json"@ ==> n.len() == 4 && n[0] == 'j');
        assert(n == "json"@ ==> n[3] == 'n');
        assert(n == "xml"@ ==> n.len() == 3 && n[0] == 'x');
        assert(n == "xml"@ ==> n[2] == 'l');
        assert(n == "text"@ ==> n.len() == 4 && n[0] == 't');
        assert(n == "text"@ ==> n[3] == 't');
        assert(n == "form-urlencoded"@ ==> n.len() == 15 && n[0] == 'f');
        assert(n == "form-urlencoded"@ ==> n[14] == 'd');
        assert(n == "form-data"@ ==> n.len() == 9 && n[0] == 'f');
        assert(n == "form-data"@ ==> n[8] == 'a');
        assert(n == "binary"@ ==> n.len() == 6 && n[0] == 'b');
        assert(n == "binary"@ ==> n[5] == 'y');
    }
}

/// A request body. The fields that `kind` does not use are kept as they are.
#[derive(Debug, Clone, PartialEq)]
pub struct BodySpec {
    pub kind: BodyType,
    pub json: Option<Json>,
    pub xml: Option<String>,
    pub text: Option<String>,
    /// Overrides the content type of a text or binary body.
    pub content_type: Option<String>,
    pub urlencoded: Option<Vec<Kv>>,
    pub form_data: Option<Vec<FormItem>>,
    /// The file that a binary body sends.
    pub file_path: Option<String>,
}

/// What a `BodySpec` stands for.
#[verifier::ext_equal]
pub struct BodySpecView {
    pub kind: BodyType,
    pub json: Option<JsonView>,
    pub xml: Option<Seq<char>>,
    pub text: Option<Seq<char>>,
    pub content_type: Option<Seq<char>>,
    pub urlencoded: Option<Seq<KvView>>,
    pub form_data: Option<Seq<FormItemView>>,
    pub file_path: Option<Seq<char>>,
}

impl View for BodySpec {
    type V = BodySpecView;

    open spec fn view(&self) -> BodySpecView {
        BodySpecView {
            kind: self.kind,
            json: opt_view(self.json),
            xml: opt_view(self.xml),
            text: opt_view(self.text),
            content_type: opt_view(self.content_type),
            urlencoded: opt_views(self.urlencoded),
            form_data: opt_views(self.form_data),
            file_path: opt_view(self.file_path),
        }
    }
}

impl Duplicate for BodySpec {
    fn duplicate(&self) -> (r: Self) {
        BodySpec {
            kind: self.kind,
            json: duplicate_opt(&self.json),
            xml: duplicate_opt(&self.xml),
            text: duplicate_opt(&self.text),
            content_type: duplicate_opt(&self.content_type),
            urlencoded: duplicates_opt(&self.urlencoded),
            form_data: duplicates_opt(&self.form_data),
            file_path: duplicate_opt(&self.file_path),
        }
    }
}

/// The body with nothing in it.
pub open spec fn empty_body() -> BodySpecView {
    BodySpecView {
        kind: BodyType::NoBody,
        json: None,
        xml: None,
        text: None,
        content_type: None,
        urlencoded: None,
        form_data: None,
        file_path: None,
    }
}

impl Default for BodySpec {
    fn default() -> (r: Self)
        ensures
            r@ == empty_body(),
    {
        BodySpec {
            kind: BodyType::NoBody,
            json: None,
            xml: None,
            text: None,
            content_type: None,
            urlencoded: None,
            form_data: None,
            file_path: None,
        }
    }
}

// ---- authentication --------------------------------------------------------------------

/// The way a request is authenticated.
#[derive(Debug, Clone, Copy, PartialEq, Eq, Structural)]
pub enum AuthType {
    NoAuth,
    Bearer,
    Basic,
    Apikey,
    Digest,
    Oauth2,
}

/// The word of an authentication type.
pub open spec fn auth_type_name(t: AuthType) -> Seq<char> {
    match t {
        AuthType::NoAuth => "none"@,
        AuthType::Bearer => "bearer"@,
        AuthType::Basic => "basic"@,
        AuthType::Apikey => "apikey"@,
        AuthType::Digest => "digest"@,
        AuthType::Oauth2 => "oauth2"@,
    }
}

/// An authentication type of a word; an unknown word gives the default.
pub open spec fn auth_type_of(s: Seq<char>) -> AuthType {
    if s == "bearer"@ {
        AuthType::Bearer
    } else if s == "basic"@ {
        AuthType::Basic
    } else if s == "apikey"@ {
        AuthType::Apikey
    } else if s == "digest"@ {
        AuthType::Digest
    } else if s == "oauth2"@ {
        AuthType::Oauth2
    } else {
        AuthType::NoAuth
    }
}

impl AuthType {
    /// The word of an authentication type.
    pub fn as_str(self) -> (r: &'static str)
        ensures
            r@ == auth_type_name(self),
    {
        match self {
            AuthType::NoAuth => "none",
            AuthType::Bearer => "bearer",
            AuthType::Basic => "basic",
            AuthType::Apikey => "apikey",
            AuthType::Digest => "digest",
            AuthType::Oauth2 => "oauth2",
        }
    }
}

impl<'a> From<&'a str> for AuthType {
    fn from(s: &'a str) -> (r: Self) {
        if same(s, "bearer") {
            AuthType::Bearer
        } else if same(s, "basic") {
            AuthType::Basic
        } else if same(s, "apikey") {
            AuthType::Apikey
        } else if same(s, "digest") {
            AuthType::Digest
        } else if same(s, "oauth2") {
            AuthType::Oauth2
        } else {
            AuthType::NoAuth
        }
    }
}

impl<'a> vstd::std_specs::convert::FromSpecImpl<&'a str> for AuthType {
    open spec fn obeys_from_spec() -> bool {
        true
    }

    open spec fn from_spec(s: &'a str) -> Self {
        auth_type_of(s@)
    }
}

impl Default for AuthType {
    fn default() -> (r: Self)
        ensures
            r == AuthType::NoAuth,
    {
        AuthType::NoAuth
    }
}

/// Reading the word of an authentication type gives it back.
pub proof fn law_auth_type_round_trip(t: AuthType)
    ensures
        auth_type_of(auth_type_name(t)) == t,
{
    reveal_strlit("none");
    reveal_strlit("bearer");
    reveal_strlit("basic");
    reveal_strlit("apikey");
    reveal_strlit("digest");
    reveal_strlit("oauth2");
    assert(auth_type_of(auth_type_name(t)) == t) by {
        let n = auth_type_name(t);
        assert(n == "none"@ ==> n.len() == 4 && n[0] == 'n');
        assert(n == "none"@ ==> n[3] == 'e');
        assert(n == "bearer"@ ==> n.len() == 6 && n[0] == 'b');
        assert(n == "bearer"@ ==> n[5] == 'r');
        assert(n == "basic"@ ==> n.len() == 5 && n[0] == 'b');
        assert(n == "basic"@ ==> n[4] == 'c');
        assert(n == "apikey"@ ==> n.len() == 6 && n[0] == 'a');
        assert(n == "apikey"@ ==> n[5] == 'y');
        assert(n == "digest"@ ==> n.len() == 6 && n[0] == 'd');
        assert(n == "digest"@ ==> n[5] == 't');
        assert(n == "oauth2"@ ==> n.len() == 6 && n[0] == 'o');
        assert(n == "oauth2"@ ==> n[5] == '2');
    }
}

/// A bearer token.
#[derive(Debug, Clone, PartialEq)]
pub struct BearerAuth {
    pub token: String,
}

/// What a `BearerAuth` stands for.
#[verifier::ext_equal]
pub struct BearerAuthView {
    pub token: Seq<char>,
}

impl View for BearerAuth {
    type V = BearerAuthView;

    open spec fn view(&self) -> BearerAuthView {
        BearerAuthView {
            token: self.token@,
        }
    }
}

impl Duplicate for BearerAuth {
    fn duplicate(&self) -> (r: Self) {
        BearerAuth {
            token: copy_text(self.token.as_str()),
        }
    }
}

/// The default `BearerAuth`.
pub open spec fn empty_bearer() -> BearerAuthView {
    BearerAuthView {
        token: seq![],
    }
}

impl Default for BearerAuth {
    fn default() -> (r: Self)
        ensures
            r@ == empty_bearer(),
    {
        BearerAuth {
            token: String::new(),
        }
    }
}

/// A user name and a password.
#[derive(Debug, Clone, PartialEq)]
pub struct BasicAuth {
    pub username: String,
    pub password: String,
}

/// What a `BasicAuth` stands for.
#[verifier::ext_equal]
pub struct BasicAuthView {
    pub username: Seq<char>,
    pub password: Seq<char>,
}

impl View for BasicAuth {
    type V = BasicAuthView;

    open spec fn view(&self) -> BasicAuthView {
        BasicAuthView {
            username: self.username@,
            password: self.password@,
        }
    }
}

impl Duplicate for BasicAuth {
    fn duplicate(&self) -> (r: Self) {
        BasicAuth {
            username: copy_text(self.username.as_str()),
            password: copy_text(self.password.as_str()),
        }
    }
}

/// The default `BasicAuth`.
pub open spec fn empty_basic() -> BasicAuthView {
    BasicAuthView {
        username: seq![],
        password: seq![],
    }
}

impl Default for BasicAuth {
    fn default() -> (r: Self)
        ensures
            r@ == empty_basic(),
    {
        BasicAuth {
            username: String::new(),
            password: String::new(),
        }
    }
}

/// Where an API key is sent.
#[derive(Debug, Clone, Copy, PartialEq, Eq, Structural)]
pub enum ApikeyIn {
    Header,
    Query,
}

/// An API key.
#[derive(Debug, Clone, PartialEq)]
pub struct ApikeyAuth {
    pub key: String,
    pub value: String,
    pub place: ApikeyIn,
}

/// What a `ApikeyAuth` stands for.
#[verifier::ext_equal]
pub struct ApikeyAuthView {
    pub key: Seq<char>,
    pub value: Seq<char>,
    pub place: ApikeyIn,
}

impl View for ApikeyAuth {
    type V = ApikeyAuthView;

    open spec fn view(&self) -> ApikeyAuthView {
        ApikeyAuthView {
            key: self.key@,
            value: self.value@,
            place: self.place,
        }
    }
}

impl Duplicate for ApikeyAuth {
    fn duplicate(&self) -> (r: Self) {
        ApikeyAuth {
            key: copy_text(self.key.as_str()),
            value: copy_text(self.value.as_str()),
            place: self.place,
        }
    }
}

/// The default `ApikeyAuth`.
pub open spec fn empty_apikey() -> ApikeyAuthView {
    ApikeyAuthView {
        key: seq![],
        value: seq![],
        place: ApikeyIn::Header,
    }
}

impl Default for ApikeyAuth {
    fn default() -> (r: Self)
        ensures
            r@ == empty_apikey(),
    {
        ApikeyAuth {
            key: String::new(),
            value: String::new(),
            place: ApikeyIn::Header,
        }
    }
}

/// A user name and a password for digest authentication.
#[derive(Debug, Clone, PartialEq)]
pub struct DigestAuth {
    pub username: String,
    pub password: String,
}

/// What a `DigestAuth` stands for.
#[verifier::ext_equal]
pub struct DigestAuthView {
    pub username: Seq<char>,
    pub password: Seq<char>,
}

impl View for DigestAuth {
    type V = DigestAuthView;

    open spec fn view(&self) -> DigestAuthView {
        DigestAuthView {
            username: self.username@,
            password: self.password@,
        }
    }
}

impl Duplicate for DigestAuth {
    fn duplicate(&self) -> (r: Self) {
        DigestAuth {
            username: copy_text(self.username.as_str()),
            password: copy_text(self.password.as_str()),
        }
    }
}

/// The default `DigestAuth`.
pub open spec fn empty_digest() -> DigestAuthView {
    DigestAuthView {
        username: seq![],
        password: seq![],
    }
}

impl Default for DigestAuth {
    fn default() -> (r: Self)
        ensures
            r@ == empty_digest(),
    {
        DigestAuth {
            username: String::new(),
            password: String::new(),
        }
    }
}

/// Where the credentials of an OAuth 2.0 client are sent.
#[derive(Debug, Clone, Copy, PartialEq, Eq, Structural)]
pub enum ClientAuth {
    Header,
    Body,
}

/// OAuth 2.0 with client credentials.
#[derive(Debug, Clone, PartialEq)]
pub struct Oauth2Auth {
    pub token_url: String,
    pub client_id: String,
    pub client_secret: String,
    pub scope: Option<String>,
    pub client_auth: ClientAuth,
}

/// What a `Oauth2Auth` stands for.
#[verifier::ext_equal]
pub struct Oauth2AuthView {
    pub token_url: Seq<char>,
    pub client_id: Seq<char>,
    pub client_secret: Seq<char>,
    pub scope: Option<Seq<char>>,
    pub client_auth: ClientAuth,
}

impl View for Oauth2Auth {
    type V = Oauth2AuthView;

    open spec fn view(&self) -> Oauth2AuthView {
        Oauth2AuthView {
            token_url: self.token_url@,
            client_id: self.client_id@,
            client_secret: self.client_secret@,
            scope: opt_view(self.scope),
            client_auth: self.client_auth,
        }
    }
}

impl Duplicate for Oauth2Auth {
    fn duplicate(&self) -> (r: Self) {
        Oauth2Auth {
            token_url: copy_text(self.token_url.as_str()),
            client_id: copy_text(self.client_id.as_str()),
            client_secret: copy_text(self.client_secret.as_str()),
            scope: duplicate_opt(&self.scope),
            client_auth: self.client_auth,
        }
    }
}

/// The default `Oauth2Auth`.
pub open spec fn empty_oauth2() -> Oauth2AuthView {
    Oauth2AuthView {
        token_url: seq![],
        client_id: seq![],
        client_secret: seq![],
        scope: None,
        client_auth: ClientAuth::Header,
    }
}

impl Default for Oauth2Auth {
    fn default() -> (r: Self)
        ensures
            r@ == empty_oauth2(),
    {
        Oauth2Auth {
            token_url: String::new(),
            client_id: String::new(),
            client_secret: String::new(),
            scope: None,
            client_auth: ClientAuth::Header,
        }
    }
}

/// How a request is authenticated.
#[derive(Debug, Clone, PartialEq)]
pub struct AuthSpec {
    pub kind: AuthType,
    pub bearer: Option<BearerAuth>,
    pub basic: Option<BasicAuth>,
    pub apikey: Option<ApikeyAuth>,
    pub digest: Option<DigestAuth>,
    pub oauth2: Option<Oauth2Auth>,
}

/// What a `AuthSpec` stands for.
#[verifier::ext_equal]
pub struct AuthSpecView {
    pub kind: AuthType,
    pub bearer: Option<BearerAuthView>,
    pub basic: Option<BasicAuthView>,
    pub apikey: Option<ApikeyAuthView>,
    pub digest: Option<DigestAuthView>,
    pub oauth2: Option<Oauth2AuthView>,
}

impl View for AuthSpec {
    type V = AuthSpecView;

    open spec fn view(&self) -> AuthSpecView {
        AuthSpecView {
            kind: self.kind,
            bearer: opt_view(self.bearer),
            basic: opt_view(self.basic),
            apikey: opt_view(self.apikey),
            digest: opt_view(self.digest),
            oauth2: opt_view(self.oauth2),
        }
    }
}

impl Duplicate for AuthSpec {
    fn duplicate(&self) -> (r: Self) {
        AuthSpec {
            kind: self.kind,
            bearer: duplicate_opt(&self.bearer),
            basic: duplicate_opt(&self.basic),
            apikey: duplicate_opt(&self.apikey),
            digest: duplicate_opt(&self.digest),
            oauth2: duplicate_opt(&self.oauth2),
        }
    }
}

/// The default `AuthSpec`.
pub open spec fn no_auth() -> AuthSpecView {
    AuthSpecView {
        kind: AuthType::NoAuth,
        bearer: None,
        basic: None,
        apikey: None,
        digest: None,
        oauth2: None,
    }
}

impl Default for AuthSpec {
    fn default() -> (r: Self)
        ensures
            r@ == no_auth(),
    {
        AuthSpec {
            kind: AuthType::NoAuth,
            bearer: None,
            basic: None,
            apikey: None,
            digest: None,
            oauth2: None,
        }
    }
}

// ---- request ---------------------------------------------------------------------------

/// An HTTP request as it is configured.
#[derive(Debug, Clone, PartialEq)]
pub struct HttpSpec {
    pub method: String,
    pub url: String,
    pub query: Vec<Kv>,
    pub headers: Vec<Kv>,
    pub auth: AuthSpec,
    pub body: BodySpec,
}

/// What a `HttpSpec` stands for.
#[verifier::ext_equal]
pub struct HttpSpecView {
    pub method: Seq<char>,
    pub url: Seq<char>,
    pub query: Seq<KvView>,
    pub headers: Seq<KvView>,
    pub auth: AuthSpecView,
    pub body: BodySpecView,
}

impl View for HttpSpec {
    type V = HttpSpecView;

    open spec fn view(&self) -> HttpSpecView {
        HttpSpecView {
            method: self.method@,
            url: self.url@,
            query: views(self.query@),
            headers: views(self.headers@),
            auth: self.auth@,
            body: self.body@,
        }
    }
}

impl Duplicate for HttpSpec {
    fn duplicate(&self) -> (r: Self) {
        HttpSpec {
            method: copy_text(self.method.as_str()),
            url: copy_text(self.url.as_str()),
            query: duplicates(&self.query),
            headers: duplicates(&self.headers),
            auth: self.auth.duplicate(),
            body: self.body.duplicate(),
        }
    }
}

/// A `GET` request with nothing in it.
pub open spec fn empty_http() -> HttpSpecView {
    HttpSpecView {
        method: "GET"@,
        url: seq![],
        query: seq![],
        headers: seq![],
        auth: no_auth(),
        body: empty_body(),
    }
}

impl Default for HttpSpec {
    fn default() -> (r: Self)
        ensures
            r@ == empty_http(),
    {
        let query: Vec<Kv> = Vec::new();
        let headers: Vec<Kv> = Vec::new();
        assert(views(query@) =~= seq![]);
        HttpSpec {
            method: copy_text("GET"),
            url: String::new(),
            query,
            headers,
            auth: AuthSpec::default(),
            body: BodySpec::default(),
        }
    }
}

// ---- outputs and assertions ------------------------------------------------------------

/// A variable taken from a response.
#[derive(Debug, Clone, PartialEq)]
pub struct StepOutput {
    pub name: String,
    pub path: String,
}

/// What a `StepOutput` stands for.
#[verifier::ext_equal]
pub struct StepOutputView {
    pub name: Seq<char>,
    pub path: Seq<char>,
}

impl View for StepOutput {
    type V = StepOutputView;

    open spec fn view(&self) -> StepOutputView {
        StepOutputView {
            name: self.name@,
            path: self.path@,
        }
    }
}

impl Duplicate for StepOutput {
    fn duplicate(&self) -> (r: Self) {
        StepOutput {
            name: copy_text(self.name.as_str()),
            path: copy_text(self.path.as_str()),
        }
    }
}

/// The operator of an assertion.
#[derive(Debug, Clone, Copy, PartialEq, Eq, Structural)]
pub enum AssertOp {
    Eq,
    Ne,
    Contains,
    Exists,
    NotExists,
    Gt,
    Lt,
    Matches,
}

/// The word of an operator.
pub open spec fn assert_op_name(t: AssertOp) -> Seq<char> {
    match t {
        AssertOp::Eq => "eq"@,
        AssertOp::Ne => "ne"@,
        AssertOp::Contains => "contains"@,
        AssertOp::Exists => "exists"@,
        AssertOp::NotExists => "notExists"@,
        AssertOp::Gt => "gt"@,
        AssertOp::Lt => "lt"@,
        AssertOp::Matches => "matches"@,
    }
}

/// An operator of a word; an unknown word gives the default.
pub open spec fn assert_op_of(s: Seq<char>) -> AssertOp {
    if s == "ne"@ {
        AssertOp::Ne
    } else if s == "contains"@ {
        AssertOp::Contains
    } else if s == "exists"@ {
        AssertOp::Exists
    } else if s == "notExists"@ {
        AssertOp::NotExists
    } else if s == "gt"@ {
        AssertOp::Gt
    } else if s == "lt"@ {
        AssertOp::Lt
    } else if s == "matches"@ {
        AssertOp::Matches
    } else {
        AssertOp::Eq
    }
}

impl AssertOp {
    /// The word of an operator.
    pub fn as_str(self) -> (r: &'static str)
        ensures
            r@ == assert_op_name(self),
    {
        match self {
            AssertOp::Eq => "eq",
            AssertOp::Ne => "ne",
            AssertOp::Contains => "contains",
            AssertOp::Exists => "exists",
            AssertOp::NotExists => "notExists",
            AssertOp::Gt => "gt",
            AssertOp::Lt => "lt",
            AssertOp::Matches => "matches",
        }
    }
}

impl<'a> From<&'a str> for AssertOp {
    fn from(s: &'a str) -> (r: Self) {
        if same(s, "ne") {
            AssertOp::Ne
        } else if same(s, "contains") {
            AssertOp::Contains
        } else if same(s, "exists") {
            AssertOp::Exists
        } else if same(s, "notExists") {
            AssertOp::NotExists
        } else if same(s, "gt") {
            AssertOp::Gt
        } else if same(s, "lt") {
            AssertOp::Lt
        } else if same(s, "matches") {
            AssertOp::Matches
        } else {
            AssertOp::Eq
        }
    }
}

impl<'a> vstd::std_specs::convert::FromSpecImpl<&'a str> for AssertOp {
    open spec fn obeys_from_spec() -> bool {
        true
    }

    open spec fn from_spec(s: &'a str) -> Self {
        assert_op_of(s@)
    }
}

impl Default for AssertOp {
    fn default() -> (r: Self)
        ensures
            r == AssertOp::Eq,
    {
        AssertOp::Eq
    }
}

/// Reading the word of an operator gives it back.
pub proof fn law_assert_op_round_trip(t: AssertOp)
    ensures
        assert_op_of(assert_op_name(t)) == t,
{
    reveal_strlit("eq");
    reveal_strlit("ne");
    reveal_strlit("contains");
    reveal_strlit("exists");
    reveal_strlit("notExists");
    reveal_strlit("gt");
    reveal_strlit("lt");
    reveal_strlit("matches");
    assert(assert_op_of(assert_op_name(t)) == t) by {
        let n = assert_op_name(t);
        assert(n == "eq"@ ==> n.len() == 2 && n[0] == 'e');
        assert(n == "eq"@ ==> n[1] == 'q');
        assert(n == "ne"@ ==> n.len() == 2 && n[0] == 'n');
        assert(n == "ne"@ ==> n[1] == 'e');
        assert(n == "contains"@ ==> n.len() == 8 && n[0] == 'c');
        assert(n == "contains"@ ==> n[7] == 's');
        assert(n == "exists"@ ==> n.len() == 6 && n[0] == 'e');
        assert(n == "exists"@ ==> n[5] == 's');
        assert(n == "notExists"@ ==> n.len() == 9 && n[0] == 'n');
        assert(n == "notExists"@ ==> n[8] == 's');
        assert(n == "gt"@ ==> n.len() == 2 && n[0] == 'g');
        assert(n == "gt"@ ==> n[1] == 't');
        assert(n == "lt"@ ==> n.len() == 2 && n[0] == 'l');
        assert(n == "lt"@ ==> n[1] == 't');
        assert(n == "matches"@ ==> n.len() == 7 && n[0] == 'm');
        assert(n == "matches"@ ==> n[6] == 's');
    }
}

/// Whether an operator has an expected value.
pub open spec fn takes_value(op: AssertOp) -> bool {
    op != AssertOp::Exists && op != AssertOp::NotExists
}

impl AssertOp {
    /// Whether the operator has an expected value.
    pub fn needs_value(self) -> (r: bool)
        ensures
            r == takes_value(self),
    {
        match self {
            AssertOp::Exists => false,
            AssertOp::NotExists => false,
            _ => true,
        }
    }
}

/// One assertion on a response: `res.status`, `res.headers.<name>` or `res.body<path>`.
#[derive(Debug, Clone, PartialEq)]
pub struct Assertion {
    pub target: String,
    pub op: AssertOp,
    pub value: Option<String>,
}

/// What a `Assertion` stands for.
#[verifier::ext_equal]
pub struct AssertionView {
    pub target: Seq<char>,
    pub op: AssertOp,
    pub value: Option<Seq<char>>,
}

impl View for Assertion {
    type V = AssertionView;

    open spec fn view(&self) -> AssertionView {
        AssertionView {
            target: self.target@,
            op: self.op,
            value: opt_view(self.value),
        }
    }
}

impl Duplicate for Assertion {
    fn duplicate(&self) -> (r: Self) {
        Assertion {
            target: copy_text(self.target.as_str()),
            op: self.op,
            value: duplicate_opt(&self.value),
        }
    }
}

// ---- steps and cases -------------------------------------------------------------------

/// Where an editor shows a step. It has no bearing on a run.
#[derive(Debug, Clone, PartialEq)]
pub struct StepUi {
    pub x: Number,
    pub y: Number,
}

/// What a `StepUi` stands for.
#[verifier::ext_equal]
pub struct StepUiView {
    pub x: NumberView,
    pub y: NumberView,
}

impl View for StepUi {
    type V = StepUiView;

    open spec fn view(&self) -> StepUiView {
        StepUiView {
            x: self.x@,
            y: self.y@,
        }
    }
}

impl Duplicate for StepUi {
    fn duplicate(&self) -> (r: Self) {
        StepUi {
            x: self.x.duplicate(),
            y: self.y.duplicate(),
        }
    }
}

/// A step of a case: one request, what it depends on and what is checked.
#[derive(Debug, Clone, PartialEq)]
pub struct Step {
    pub id: String,
    pub protocol: String,
    pub ui: Option<StepUi>,
    pub http: HttpSpec,
    /// The ids of the steps that run before.
    pub depends_on: Vec<String>,
    pub outputs: Vec<StepOutput>,
    pub assertions: Vec<Assertion>,
    pub docs: Option<String>,
}

/// What a `Step` stands for.
#[verifier::ext_equal]
pub struct StepView {
    pub id: Seq<char>,
    pub protocol: Seq<char>,
    pub ui: Option<StepUiView>,
    pub http: HttpSpecView,
    pub depends_on: Seq<Seq<char>>,
    pub outputs: Seq<StepOutputView>,
    pub assertions: Seq<AssertionView>,
    pub docs: Option<Seq<char>>,
}

impl View for Step {
    type V = StepView;

    open spec fn view(&self) -> StepView {
        StepView {
            id: self.id@,
            protocol: self.protocol@,
            ui: opt_view(self.ui),
            http: self.http@,
            depends_on: views(self.depends_on@),
            outputs: views(self.outputs@),
            assertions: views(self.assertions@),
            docs: opt_view(self.docs),
        }
    }
}

impl Duplicate for Step {
    fn duplicate(&self) -> (r: Self) {
        Step {
            id: copy_text(self.id.as_str()),
            protocol: copy_text(self.protocol.as_str()),
            ui: duplicate_opt(&self.ui),
            http: self.http.duplicate(),
            depends_on: duplicates(&self.depends_on),
            outputs: duplicates(&self.outputs),
            assertions: duplicates(&self.assertions),
            docs: duplicate_opt(&self.docs),
        }
    }
}

/// A case: steps that depend on each other.
#[derive(Debug, Clone, PartialEq)]
pub struct Case {
    pub version: String,
    pub name: Option<String>,
    pub vars: Option<Vec<Member>>,
    pub requests: Vec<Step>,
}

/// What a `Case` stands for.
#[verifier::ext_equal]
pub struct CaseView {
    pub version: Seq<char>,
    pub name: Option<Seq<char>>,
    pub vars: Option<Seq<(Seq<char>, JsonView)>>,
    pub requests: Seq<StepView>,
}

impl View for Case {
    type V = CaseView;

    open spec fn view(&self) -> CaseView {
        CaseView {
            version: self.version@,
            name: opt_view(self.name),
            vars: opt_views(self.vars),
            requests: views(self.requests@),
        }
    }
}

impl Duplicate for Case {
    fn duplicate(&self) -> (r: Self) {
        Case {
            version: copy_text(self.version.as_str()),
            name: duplicate_opt(&self.name),
            vars: duplicates_opt(&self.vars),
            requests: duplicates(&self.requests),
        }
    }
}

impl Default for Case {
    fn default() -> (r: Self)
        ensures
            r@ == (CaseView { version: CASE_VERSION@, name: None, vars: None, requests: seq![] }),
    {
        let requests: Vec<Step> = Vec::new();
        assert(views(requests@) =~= seq![]);
        Case { version: copy_text(CASE_VERSION), name: None, vars: None, requests }
    }
}

// ---- workspace settings ----------------------------------------------------------------

/// The settings of a workspace, shared by everyone who works in it.
#[derive(Debug, Clone, PartialEq)]
pub struct WorkspaceSettings {
    /// Whether server certificates are checked.
    pub verify_ssl: bool,
    pub use_custom_ca: bool,
    /// The file of a certificate authority, relative to the root of the workspace.
    pub ca_cert: String,
    /// The limit on a whole request in milliseconds; zero is no limit.
    pub timeout_ms: u64,
    pub cookies: bool,
    /// Whether a failed assertion lets the steps that depend on it run.
    pub continue_on_assertion_failure: bool,
    /// How many cases run at a time.
    pub concurrency: u32,
}

/// What a `WorkspaceSettings` stands for.
#[verifier::ext_equal]
pub struct WorkspaceSettingsView {
    pub verify_ssl: bool,
    pub use_custom_ca: bool,
    pub ca_cert: Seq<char>,
    pub timeout_ms: u64,
    pub cookies: bool,
    pub continue_on_assertion_failure: bool,
    pub concurrency: u32,
}

impl View for WorkspaceSettings {
    type V = WorkspaceSettingsView;

    open spec fn view(&self) -> WorkspaceSettingsView {
        WorkspaceSettingsView {
            verify_ssl: self.verify_ssl,
            use_custom_ca: self.use_custom_ca,
            ca_cert: self.ca_cert@,
            timeout_ms: self.timeout_ms,
            cookies: self.cookies,
            continue_on_assertion_failure: self.continue_on_assertion_failure,
            concurrency: self.concurrency,
        }
    }
}

impl Duplicate for WorkspaceSettings {
    fn duplicate(&self) -> (r: Self) {
        WorkspaceSettings {
            verify_ssl: self.verify_ssl,
            use_custom_ca: self.use_custom_ca,
            ca_cert: copy_text(self.ca_cert.as_str()),
            timeout_ms: self.timeout_ms,
            cookies: self.cookies,
            continue_on_assertion_failure: self.continue_on_assertion_failure,
            concurrency: self.concurrency,
        }
    }
}

/// The settings of a workspace that sets nothing.
pub open spec fn default_settings() -> WorkspaceSettingsView {
    WorkspaceSettingsView {
        verify_ssl: true,
        use_custom_ca: false,
        ca_cert: seq![],
        timeout_ms: 0,
        cookies: true,
        continue_on_assertion_failure: false,
        concurrency: 1,
    }
}

impl Default for WorkspaceSettings {
    fn default() -> (r: Self)
        ensures
            r@ == default_settings(),
    {
        WorkspaceSettings {
            verify_ssl: true,
            use_custom_ca: false,
            ca_cert: String::new(),
            timeout_ms: 0,
            cookies: true,
            continue_on_assertion_failure: false,
            concurrency: 1,
        }
    }
}

/// A word that is not known stands for the default: no body, no authentication, equality.
pub proof fn law_unknown_words(s: Seq<char>)
    ensures
        (forall|t: BodyType| #[trigger] body_type_name(t) != s) ==> body_type_of(s) == BodyType::NoBody,
        (forall|t: AuthType| #[trigger] auth_type_name(t) != s) ==> auth_type_of(s) == AuthType::NoAuth,
        (forall|t: AssertOp| #[trigger] assert_op_name(t) != s) ==> assert_op_of(s) == AssertOp::Eq,
{
    assert(body_type_name(body_type_of(s)) == s || body_type_of(s) == BodyType::NoBody);
    assert(auth_type_name(auth_type_of(s)) == s || auth_type_of(s) == AuthType::NoAuth);
    assert(assert_op_name(assert_op_of(s)) == s || assert_op_of(s) == AssertOp::Eq);
}

/// The words that a case file has for the kinds of bodies and credentials and for operators.
pub proof fn law_words(b: BodyType, a: AuthType, o: AssertOp)
    ensures
        body_type_name(b) == (match b {
            BodyType::NoBody => "none"@,
            BodyType::Json => "json"@,
            BodyType::Xml => "xml"@,
            BodyType::Text => "text"@,
            BodyType::FormUrlencoded => "form-urlencoded"@,
            BodyType::FormData => "form-data"@,
            BodyType::Binary => "binary"@,
        }),
        auth_type_name(a) == (match a {
            AuthType::NoAuth => "none"@,
            AuthType::Bearer => "bearer"@,
            AuthType::Basic => "basic"@,
            AuthType::Apikey => "apikey"@,
            AuthType::Digest => "digest"@,
            AuthType::Oauth2 => "oauth2"@,
        }),
        assert_op_name(o) == (match o {
            AssertOp::Eq => "eq"@,
            AssertOp::Ne => "ne"@,
            AssertOp::Contains => "contains"@,
            AssertOp::Exists => "exists"@,
            AssertOp::NotExists => "notExists"@,
            AssertOp::Gt => "gt"@,
            AssertOp::Lt => "lt"@,
            AssertOp::Matches => "matches"@,
        }),
        takes_value(o) <==> !(o is Exists) && !(o is NotExists),
{
}

/// What is there unless something else is said: a request without an address, rows, credentials
/// and a body, sent by GET; and the settings of a workspace.
pub proof fn law_defaults(name: Seq<char>, value: Seq<char>)
    ensures
        empty_http().method == "GET"@,
        empty_http().url.len() == 0,
        empty_http().query.len() == 0,
        empty_http().headers.len() == 0,
        empty_http().auth.kind is NoAuth,
        empty_http().body.kind is NoBody,
        kv_row(name, value).name == name,
        kv_row(name, value).value == value,
        kv_row(name, value).enabled,
        default_settings().verify_ssl,
        default_settings().cookies,
        !default_settings().use_custom_ca,
        !default_settings().continue_on_assertion_failure,
        default_settings().timeout_ms == 0,
        default_settings().concurrency == 1,
{
}

} // verus!
