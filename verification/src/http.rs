//! What is decided about sending: the settings of a client, when a client can be used again,
//! what goes into a message and how much of a response is read.
use crate::report::{pair, KvPair, KvPairView};
use crate::request::{
    base_name, name_of_path, FormPart, FormPartView, HttpRequest, HttpRequestView, RequestBody,
    RequestBodyView,
};
use crate::text::{
    blank, cat, cat3, copy_text, duplicate_opt, duplicates, empty, is_alnum, is_blank,
    lemma_views_push, opt_view, same, to_upper, trim, trim_back, trim_front, trimmed, uppercase,
    views, Duplicate,
};
use vstd::prelude::*;

verus! {

/// The most bytes of a response that are read.
pub const MAX_RESPONSE_BYTES: usize = 64 * 1024 * 1024;

/// The most clients that are kept.
pub const MAX_CACHED_CLIENTS: usize = 16;

/// The proxy: `system` follows the environment, `none` goes direct, `custom` names one.
#[derive(Debug, Clone, PartialEq)]
pub struct ProxyConfig {
    pub mode: String,
    pub url: Option<String>,
}

/// What a `ProxyConfig` stands for.
#[verifier::ext_equal]
pub struct ProxyConfigView {
    pub mode: Seq<char>,
    pub url: Option<Seq<char>>,
}

impl View for ProxyConfig {
    type V = ProxyConfigView;

    open spec fn view(&self) -> ProxyConfigView {
        ProxyConfigView {
            mode: self.mode@,
            url: opt_view(self.url),
        }
    }
}

impl Duplicate for ProxyConfig {
    fn duplicate(&self) -> (r: Self) {
        ProxyConfig {
            mode: copy_text(self.mode.as_str()),
            url: duplicate_opt(&self.url),
        }
    }
}

/// The request settings of a workspace. Everything is optional.
#[derive(Debug, Clone, PartialEq)]
pub struct RequestOptions {
    /// Only `Some(false)` accepts any certificate.
    pub verify_ssl: Option<bool>,
    /// The absolute path of a certificate authority.
    pub ca_cert_path: Option<String>,
    /// The limit on a whole request in milliseconds; none or zero is no limit.
    pub timeout_ms: Option<u64>,
}

/// What a `RequestOptions` stands for.
#[verifier::ext_equal]
pub struct RequestOptionsView {
    pub verify_ssl: Option<bool>,
    pub ca_cert_path: Option<Seq<char>>,
    pub timeout_ms: Option<u64>,
}

impl View for RequestOptions {
    type V = RequestOptionsView;

    open spec fn view(&self) -> RequestOptionsView {
        RequestOptionsView {
            verify_ssl: self.verify_ssl,
            ca_cert_path: opt_view(self.ca_cert_path),
            timeout_ms: self.timeout_ms,
        }
    }
}

impl Duplicate for RequestOptions {
    fn duplicate(&self) -> (r: Self) {
        RequestOptions {
            verify_ssl: self.verify_ssl,
            ca_cert_path: duplicate_opt(&self.ca_cert_path),
            timeout_ms: self.timeout_ms,
        }
    }
}

impl Default for RequestOptions {
    fn default() -> (r: Self)
        ensures
            r@ == (RequestOptionsView { verify_ssl: None, ca_cert_path: None, timeout_ms: None }),
    {
        RequestOptions { verify_ssl: None, ca_cert_path: None, timeout_ms: None }
    }
}

/// The cookies of a run. Nothing is kept unless they are enabled.
#[derive(Debug, Clone, PartialEq)]
pub struct CookieConfig {
    pub enabled: bool,
    /// The file of the jar; without one it lives in memory.
    pub jar_path: Option<String>,
}

/// What a `CookieConfig` stands for.
#[verifier::ext_equal]
pub struct CookieConfigView {
    pub enabled: bool,
    pub jar_path: Option<Seq<char>>,
}

impl View for CookieConfig {
    type V = CookieConfigView;

    open spec fn view(&self) -> CookieConfigView {
        CookieConfigView {
            enabled: self.enabled,
            jar_path: opt_view(self.jar_path),
        }
    }
}

impl Duplicate for CookieConfig {
    fn duplicate(&self) -> (r: Self) {
        CookieConfig {
            enabled: self.enabled,
            jar_path: duplicate_opt(&self.jar_path),
        }
    }
}

impl Default for CookieConfig {
    fn default() -> (r: Self)
        ensures
            r@ == (CookieConfigView { enabled: false, jar_path: None }),
    {
        CookieConfig { enabled: false, jar_path: None }
    }
}

/// The key of the jar of a configuration: its path, or nothing for the one in memory.
pub open spec fn jar_key(c: CookieConfigView) -> Seq<char> {
    match c.jar_path {
        Some(p) => trim(p),
        None => seq![],
    }
}

impl CookieConfig {
    /// The key of the jar: its path, or nothing for the one in memory.
    pub fn key(&self) -> (r: String)
        ensures
            r@ == jar_key(self@),
    {
        match &self.jar_path {
            Some(p) => trimmed(p.as_str()),
            None => {
                let none: String = String::new();
                assert(none@ =~= seq![]);
                none
            },
        }
    }
}

/// The settings of a client.
#[derive(Debug, Clone, PartialEq)]
pub struct ClientConfig {
    pub proxy: Option<ProxyConfig>,
    pub options: Option<RequestOptions>,
    pub cookies: Option<CookieConfig>,
}

/// What a `ClientConfig` stands for.
#[verifier::ext_equal]
pub struct ClientConfigView {
    pub proxy: Option<ProxyConfigView>,
    pub options: Option<RequestOptionsView>,
    pub cookies: Option<CookieConfigView>,
}

impl View for ClientConfig {
    type V = ClientConfigView;

    open spec fn view(&self) -> ClientConfigView {
        ClientConfigView {
            proxy: opt_view(self.proxy),
            options: opt_view(self.options),
            cookies: opt_view(self.cookies),
        }
    }
}

impl Duplicate for ClientConfig {
    fn duplicate(&self) -> (r: Self) {
        ClientConfig {
            proxy: duplicate_opt(&self.proxy),
            options: duplicate_opt(&self.options),
            cookies: duplicate_opt(&self.cookies),
        }
    }
}

/// The client that sets nothing.
pub open spec fn default_client() -> ClientConfigView {
    ClientConfigView { proxy: None, options: None, cookies: None }
}

impl Default for ClientConfig {
    fn default() -> (r: Self)
        ensures
            r@ == default_client(),
    {
        ClientConfig { proxy: None, options: None, cookies: None }
    }
}

/// A response.
#[derive(Debug, Clone, PartialEq)]
pub struct HttpResponse {
    pub status: u16,
    pub status_text: String,
    pub headers: Vec<KvPair>,
    pub body: String,
    /// From sending to the end of the body.
    pub elapsed_ms: u64,
}

/// What a `HttpResponse` stands for.
#[verifier::ext_equal]
pub struct HttpResponseView {
    pub status: u16,
    pub status_text: Seq<char>,
    pub headers: Seq<KvPairView>,
    pub body: Seq<char>,
    pub elapsed_ms: u64,
}

impl View for HttpResponse {
    type V = HttpResponseView;

    open spec fn view(&self) -> HttpResponseView {
        HttpResponseView {
            status: self.status,
            status_text: self.status_text@,
            headers: views(self.headers@),
            body: self.body@,
            elapsed_ms: self.elapsed_ms,
        }
    }
}

impl Duplicate for HttpResponse {
    fn duplicate(&self) -> (r: Self) {
        HttpResponse {
            status: self.status,
            status_text: copy_text(self.status_text.as_str()),
            headers: duplicates(&self.headers),
            body: copy_text(self.body.as_str()),
            elapsed_ms: self.elapsed_ms,
        }
    }
}

// ---- keeping clients -------------------------------------------------------------------

/// What tells one client from another. The file of the certificate authority counts by its
/// time and size, so that a changed file makes a new client.
#[derive(Debug, Clone, PartialEq, Eq, Hash)]
pub struct ClientKey {
    pub proxy_mode: String,
    pub proxy_url: String,
    pub verify_ssl: bool,
    pub ca_path: String,
    pub ca_modified: u64,
    pub ca_size: u64,
    pub timeout_ms: u64,
    pub cookies: String,
}

/// What a `ClientKey` stands for.
#[verifier::ext_equal]
pub struct ClientKeyView {
    pub proxy_mode: Seq<char>,
    pub proxy_url: Seq<char>,
    pub verify_ssl: bool,
    pub ca_path: Seq<char>,
    pub ca_modified: u64,
    pub ca_size: u64,
    pub timeout_ms: u64,
    pub cookies: Seq<char>,
}

impl View for ClientKey {
    type V = ClientKeyView;

    open spec fn view(&self) -> ClientKeyView {
        ClientKeyView {
            proxy_mode: self.proxy_mode@,
            proxy_url: self.proxy_url@,
            verify_ssl: self.verify_ssl,
            ca_path: self.ca_path@,
            ca_modified: self.ca_modified,
            ca_size: self.ca_size,
            timeout_ms: self.timeout_ms,
            cookies: self.cookies@,
        }
    }
}

/// An optional text, or nothing.
pub open spec fn or_empty(o: Option<Seq<char>>) -> Seq<char> {
    match o {
        Some(s) => s,
        None => seq![],
    }
}

fn text_or_empty(o: &Option<String>) -> (r: String)
    ensures
        r@ == or_empty(opt_view(*o)),
{
    match o {
        Some(s) => copy_text(s.as_str()),
        None => {
            let none: String = String::new();
            assert(none@ =~= seq![]);
            none
        },
    }
}

/// The file of the certificate authority, or nothing.
pub open spec fn ca_file(cfg: ClientConfigView) -> Seq<char> {
    match cfg.options {
        Some(o) => trim(or_empty(o.ca_cert_path)),
        None => trim(seq![]),
    }
}

/// The file of the certificate authority, or nothing.
pub fn ca_path(cfg: &ClientConfig) -> (r: String)
    ensures
        r@ == ca_file(cfg@),
{
    let p: String = match &cfg.options {
        Some(o) => text_or_empty(&o.ca_cert_path),
        None => {
            let none: String = String::new();
            assert(none@ =~= seq![]);
            none
        },
    };
    trimmed(p.as_str())
}

/// The jar that a configuration uses, by its key; none where cookies are off.
pub open spec fn jar_used(cfg: ClientConfigView) -> Option<Seq<char>> {
    match cfg.cookies {
        Some(c) if c.enabled => Some(jar_key(c)),
        _ => None,
    }
}

/// The jar that a configuration uses, by its key; none where cookies are off.
pub fn jar_for(cfg: &ClientConfig) -> (r: Option<String>)
    ensures
        opt_view(r) == jar_used(cfg@),
{
    if let Some(c) = &cfg.cookies {
        if c.enabled {
            return Some(c.key());
        }
    }
    None
}

/// The part of the key that the cookies make: a client with a jar is not one without.
pub open spec fn cookie_key(cfg: ClientConfigView) -> Seq<char> {
    match cfg.cookies {
        Some(c) if c.enabled => "jar:"@ + jar_key(c),
        _ => seq![],
    }
}

/// The part of the key of a client that its cookies make.
pub fn client_key(cfg: &ClientConfig) -> (r: String)
    ensures
        r@ == cookie_key(cfg@),
{
    if let Some(c) = &cfg.cookies {
        if c.enabled {
            let k: String = c.key();
            return cat("jar:", k.as_str());
        }
    }
    let none: String = String::new();
    assert(none@ =~= seq![]);
    none
}

/// The key of the client of a configuration. `stamp` is the time and the size of the file of
/// the certificate authority.
pub open spec fn client_key_of(cfg: ClientConfigView, stamp: (u64, u64)) -> ClientKeyView {
    ClientKeyView {
        proxy_mode: match cfg.proxy {
            Some(p) => p.mode,
            None => seq![],
        },
        proxy_url: match cfg.proxy {
            Some(p) => or_empty(p.url),
            None => seq![],
        },
        verify_ssl: match cfg.options {
            Some(o) => o.verify_ssl != Some(false),
            None => true,
        },
        ca_path: ca_file(cfg),
        ca_modified: if ca_file(cfg).len() == 0 {
            0
        } else {
            stamp.0
        },
        ca_size: if ca_file(cfg).len() == 0 {
            0
        } else {
            stamp.1
        },
        timeout_ms: match cfg.options {
            Some(o) => match o.timeout_ms {
                Some(t) => t,
                None => 0,
            },
            None => 0,
        },
        cookies: cookie_key(cfg),
    }
}

/// The key of the client of a configuration.
pub fn key_of(cfg: &ClientConfig, stamp: (u64, u64)) -> (r: ClientKey)
    ensures
        r@ == client_key_of(cfg@, stamp),
{
    let (proxy_mode, proxy_url): (String, String) = match &cfg.proxy {
        Some(p) => (copy_text(p.mode.as_str()), text_or_empty(&p.url)),
        None => (String::new(), String::new()),
    };
    let ca: String = ca_path(cfg);
    let ca_stamp: (u64, u64) = if empty(ca.as_str()) {
        (0, 0)
    } else {
        stamp
    };
    let (verify_ssl, timeout_ms): (bool, u64) = match &cfg.options {
        Some(o) => (
            match o.verify_ssl {
                Some(false) => false,
                _ => true,
            },
            match o.timeout_ms {
                Some(t) => t,
                None => 0,
            },
        ),
        None => (true, 0),
    };
    let r: ClientKey = ClientKey {
        proxy_mode,
        proxy_url,
        verify_ssl,
        ca_path: ca,
        ca_modified: ca_stamp.0,
        ca_size: ca_stamp.1,
        timeout_ms,
        cookies: client_key(cfg),
    };
    assert(r@ =~= client_key_of(cfg@, stamp));
    r
}

/// Whether the kept clients are let go before another one is kept.
pub fn pool_is_full(kept: usize) -> (r: bool)
    ensures
        r == (kept >= MAX_CACHED_CLIENTS),
{
    kept >= MAX_CACHED_CLIENTS
}

// ---- building a client -----------------------------------------------------------------

/// How a client reaches the network.
#[derive(Debug, Clone, PartialEq)]
pub enum ProxyChoice {
    /// As the environment says.
    System,
    Direct,
    Via(String),
}

/// What a `ProxyChoice` stands for.
pub enum ProxyChoiceView {
    System,
    Direct,
    Via(Seq<char>),
}

impl View for ProxyChoice {
    type V = ProxyChoiceView;

    open spec fn view(&self) -> ProxyChoiceView {
        match self {
            ProxyChoice::System => ProxyChoiceView::System,
            ProxyChoice::Direct => ProxyChoiceView::Direct,
            ProxyChoice::Via(u) => ProxyChoiceView::Via(u@),
        }
    }
}

/// How a client reaches the network. A custom proxy without an address is a direct connection.
pub open spec fn proxy_of(cfg: ClientConfigView) -> ProxyChoiceView {
    match cfg.proxy {
        Some(p) => if p.mode == "none"@ {
            ProxyChoiceView::Direct
        } else if p.mode == "custom"@ {
            match p.url {
                Some(u) if !is_blank(u) => ProxyChoiceView::Via(trim(u)),
                _ => ProxyChoiceView::Direct,
            }
        } else {
            ProxyChoiceView::System
        },
        None => ProxyChoiceView::System,
    }
}

/// How a client reaches the network.
pub fn proxy_choice(cfg: &ClientConfig) -> (r: ProxyChoice)
    ensures
        r@ == proxy_of(cfg@),
{
    match &cfg.proxy {
        Some(p) => {
            if same(p.mode.as_str(), "none") {
                return ProxyChoice::Direct;
            }
            if same(p.mode.as_str(), "custom") {
                if let Some(u) = &p.url {
                    if !blank(u.as_str()) {
                        return ProxyChoice::Via(trimmed(u.as_str()));
                    }
                }
                return ProxyChoice::Direct;
            }
            ProxyChoice::System
        },
        None => ProxyChoice::System,
    }
}

/// A proxy of a client, with what it was made of.
#[verifier::external_type_specification]
#[verifier::external_body]
pub struct ExProxy(reqwest::Proxy);

/// What `reqwest::Proxy::all` makes of an address: a proxy, or why it refuses the address.
pub uninterp spec fn proxy_read(url: Seq<char>) -> Result<reqwest::Proxy, Seq<char>>;

/// `reqwest::Proxy::all`: what it makes of an address depends on the address alone. The error is
/// given as its text.
#[verifier::external_body]
fn read_proxy(url: &str) -> (r: Result<reqwest::Proxy, String>)
    ensures
        match r {
            Ok(p) => proxy_read(url@) == Ok::<reqwest::Proxy, Seq<char>>(p),
            Err(e) => proxy_read(url@) == Err::<reqwest::Proxy, Seq<char>>(e@),
        },
{
    reqwest::Proxy::all(url).map_err(|e| e.to_string())
}

/// A proxy that was made, or why there is none.
pub open spec fn proxy_accepted(read: Result<reqwest::Proxy, Seq<char>>) -> Result<
    reqwest::Proxy,
    Seq<char>,
> {
    match read {
        Ok(p) => Ok(p),
        Err(e) => Err("代理地址非法: "@ + e),
    }
}

/// What the outcome of making a proxy stands for.
pub open spec fn proxy_view(r: Result<reqwest::Proxy, String>) -> Result<
    reqwest::Proxy,
    Seq<char>,
> {
    match r {
        Ok(p) => Ok(p),
        Err(e) => Err(e@),
    }
}

/// A proxy that was made, or why there is none.
pub fn accept_proxy(read: Result<reqwest::Proxy, String>) -> (r: Result<reqwest::Proxy, String>)
    ensures
        proxy_view(r) == proxy_accepted(proxy_view(read)),
{
    match read {
        Ok(p) => Ok(p),
        Err(e) => Err(cat("代理地址非法: ", e.as_str())),
    }
}

/// The proxy at an address, or why there is none.
pub fn proxy_at(url: &str) -> (r: Result<reqwest::Proxy, String>)
    ensures
        proxy_view(r) == proxy_accepted(proxy_read(url@)),
{
    accept_proxy(read_proxy(url))
}

/// Whether any certificate is accepted; only an explicit setting does that.
pub fn accepts_any_certificate(cfg: &ClientConfig) -> (r: bool)
    ensures
        r == !client_key_of(cfg@, (0, 0)).verify_ssl,
{
    match &cfg.options {
        Some(o) => match o.verify_ssl {
            Some(false) => true,
            _ => false,
        },
        None => false,
    }
}

/// The limit on a whole request in milliseconds, if there is one.
pub fn time_limit(cfg: &ClientConfig) -> (r: Option<u64>)
    ensures
        r == (if client_key_of(cfg@, (0, 0)).timeout_ms > 0 {
            Some(client_key_of(cfg@, (0, 0)).timeout_ms)
        } else {
            None
        }),
{
    match &cfg.options {
        Some(o) => match o.timeout_ms {
            Some(t) => {
                if t > 0 {
                    Some(t)
                } else {
                    None
                }
            },
            None => None,
        },
        None => None,
    }
}

/// The format of a certificate file.
#[derive(Debug, Clone, Copy, PartialEq, Eq, Structural)]
pub enum CaFormat {
    Pem,
    Der,
}

/// Whether `p` occurs in `s` at `i`.
pub open spec fn bytes_at(s: Seq<u8>, p: Seq<u8>, i: int) -> bool {
    0 <= i && i + p.len() <= s.len() && s.subrange(i, i + p.len()) == p
}

/// The bytes of the line that begins a certificate in PEM.
pub open spec fn pem_marker() -> Seq<u8> {
    vstd::utf8::encode_utf8("-----BEGIN CERTIFICATE-----"@)
}

/// The format of a certificate file: text with the marker anywhere, or binary that begins with
/// the tag of a sequence.
pub open spec fn ca_format_of(bytes: Seq<u8>) -> Option<CaFormat> {
    if exists|i: int| bytes_at(bytes, pem_marker(), i) {
        Some(CaFormat::Pem)
    } else if bytes.len() > 0 && bytes[0] == 0x30 {
        Some(CaFormat::Der)
    } else {
        None
    }
}

fn byte_match(s: &[u8], p: &[u8], i: usize) -> (r: bool)
    requires
        i + p@.len() <= s@.len(),
    ensures
        r == bytes_at(s@, p@, i as int),
{
    let n: usize = s.len();
    let mut k: usize = 0;
    while k < p.len()
        invariant
            k <= p@.len(),
            n == s@.len(),
            i + p@.len() <= n,
            forall|j: int| 0 <= j < k ==> s@[i + j] == p@[j],
        decreases p@.len() - k,
    {
        if s[i + k] != p[k] {
            assert(s@.subrange(i as int, i + p@.len())[k as int] != p@[k as int]);
            return false;
        }
        k = k + 1;
    }
    assert(s@.subrange(i as int, i + p@.len()) =~= p@);
    true
}

/// The format of a certificate file, or why it is none.
pub fn ca_format(path: &str, bytes: &[u8]) -> (r: Result<CaFormat, String>)
    ensures
        match r {
            Ok(f) => ca_format_of(bytes@) == Some(f),
            Err(e) => ca_format_of(bytes@) is None && e@ == ca_error(
                path@,
                "既不是 PEM（找不到 BEGIN CERTIFICATE）也不是 DER"@,
            ),
        },
{
    let marker: &[u8] = "-----BEGIN CERTIFICATE-----".as_bytes();
    let n: usize = bytes.len();
    let m: usize = marker.len();
    let mut i: usize = 0;
    while m <= n && i <= n - m
        invariant
            n == bytes@.len(),
            m == marker@.len(),
            marker@ == pem_marker(),
            m <= n ==> i <= n - m + 1,
            m > n ==> i == 0,
            forall|k: int| 0 <= k < i ==> !bytes_at(bytes@, marker@, k),
        decreases n - i,
    {
        if byte_match(bytes, marker, i) {
            return Ok(CaFormat::Pem);
        }
        if i == n {
            assert(forall|k: int| bytes_at(bytes@, marker@, k) ==> k <= n - m);
            return if n > 0 && bytes[0] == 0x30 {
                Ok(CaFormat::Der)
            } else {
                Err(ca_refused(path, "既不是 PEM（找不到 BEGIN CERTIFICATE）也不是 DER"))
            };
        }
        i = i + 1;
    }
    if n > 0 && bytes[0] == 0x30 {
        return Ok(CaFormat::Der);
    }
    Err(ca_refused(path, "既不是 PEM（找不到 BEGIN CERTIFICATE）也不是 DER"))
}

/// A root certificate of a client, with what it holds.
#[verifier::external_type_specification]
#[verifier::external_body]
pub struct ExCertificate(reqwest::Certificate);

/// What `reqwest::Certificate::from_pem_bundle` reads in a text: the certificates in their
/// order, or why it refuses the text.
pub uninterp spec fn pem_read(bytes: Seq<u8>) -> Result<Seq<reqwest::Certificate>, Seq<char>>;

/// `reqwest::Certificate::from_pem_bundle`: what it reads depends on the bytes alone. The error
/// is given as its text.
#[verifier::external_body]
fn read_pem(bytes: &[u8]) -> (r: Result<Vec<reqwest::Certificate>, String>)
    ensures
        match r {
            Ok(v) => pem_read(bytes@) == Ok::<Seq<reqwest::Certificate>, Seq<char>>(v@),
            Err(e) => pem_read(bytes@) == Err::<Seq<reqwest::Certificate>, Seq<char>>(e@),
        },
{
    reqwest::Certificate::from_pem_bundle(bytes).map_err(|e| e.to_string())
}

/// What `reqwest::Certificate::from_der` reads in bytes: a certificate, or why it refuses them.
pub uninterp spec fn der_read(bytes: Seq<u8>) -> Result<reqwest::Certificate, Seq<char>>;

/// `reqwest::Certificate::from_der`: what it reads depends on the bytes alone. The error is
/// given as its text.
#[verifier::external_body]
fn read_der(bytes: &[u8]) -> (r: Result<reqwest::Certificate, String>)
    ensures
        match r {
            Ok(c) => der_read(bytes@) == Ok::<reqwest::Certificate, Seq<char>>(c),
            Err(e) => der_read(bytes@) == Err::<reqwest::Certificate, Seq<char>>(e@),
        },
{
    reqwest::Certificate::from_der(bytes).map_err(|e| e.to_string())
}

/// The error of a certificate file.
pub open spec fn ca_error(path: Seq<char>, why: Seq<char>) -> Seq<char> {
    "解析 CA 证书失败（"@ + path + "）——"@ + why
}

/// The error of a certificate file.
fn ca_refused(path: &str, why: &str) -> (r: String)
    ensures
        r@ == ca_error(path@, why@),
{
    let mut out: String = cat3("解析 CA 证书失败（", path, "）——");
    out.push_str(why);
    out
}

/// The certificates of a text that was read: as many as there are, but at least one.
pub open spec fn pem_accepted(
    path: Seq<char>,
    read: Result<Seq<reqwest::Certificate>, Seq<char>>,
) -> Result<Seq<reqwest::Certificate>, Seq<char>> {
    match read {
        Ok(certs) => if certs.len() == 0 {
            Err(ca_error(path, "PEM 里没有找到证书"@))
        } else {
            Ok(certs)
        },
        Err(e) => Err(ca_error(path, "PEM 格式有误: "@ + e)),
    }
}

/// The certificate of binary that was read.
pub open spec fn der_accepted(
    path: Seq<char>,
    read: Result<reqwest::Certificate, Seq<char>>,
) -> Result<Seq<reqwest::Certificate>, Seq<char>> {
    match read {
        Ok(cert) => Ok(seq![cert]),
        Err(e) => Err(ca_error(path, "DER 格式有误: "@ + e)),
    }
}

/// The certificates that a file holds, or why it is refused.
pub open spec fn ca_read(path: Seq<char>, bytes: Seq<u8>) -> Result<
    Seq<reqwest::Certificate>,
    Seq<char>,
> {
    match ca_format_of(bytes) {
        Some(CaFormat::Pem) => pem_accepted(path, pem_read(bytes)),
        Some(CaFormat::Der) => der_accepted(path, der_read(bytes)),
        None => Err(
            ca_error(path, "既不是 PEM（找不到 BEGIN CERTIFICATE）也不是 DER"@),
        ),
    }
}

/// What the outcome of reading certificates stands for.
pub open spec fn certs_view(r: Result<Vec<reqwest::Certificate>, String>) -> Result<
    Seq<reqwest::Certificate>,
    Seq<char>,
> {
    match r {
        Ok(v) => Ok(v@),
        Err(e) => Err(e@),
    }
}

/// What the outcome of reading one certificate stands for.
pub open spec fn cert_view(r: Result<reqwest::Certificate, String>) -> Result<
    reqwest::Certificate,
    Seq<char>,
> {
    match r {
        Ok(c) => Ok(c),
        Err(e) => Err(e@),
    }
}

/// The certificates of a text that was read: an empty bundle is refused.
pub fn accept_pem(path: &str, read: Result<Vec<reqwest::Certificate>, String>) -> (r: Result<
    Vec<reqwest::Certificate>,
    String,
>)
    ensures
        certs_view(r) == pem_accepted(path@, certs_view(read)),
{
    match read {
        Ok(certs) => if certs.len() == 0 {
            Err(ca_refused(path, "PEM 里没有找到证书"))
        } else {
            Ok(certs)
        },
        Err(e) => {
            let why: String = cat("PEM 格式有误: ", e.as_str());
            Err(ca_refused(path, why.as_str()))
        },
    }
}

/// The certificate of binary that was read.
pub fn accept_der(path: &str, read: Result<reqwest::Certificate, String>) -> (r: Result<
    Vec<reqwest::Certificate>,
    String,
>)
    ensures
        certs_view(r) == der_accepted(path@, cert_view(read)),
{
    match read {
        Ok(cert) => {
            let certs: Vec<reqwest::Certificate> = vec![cert];
            assert(certs@ =~= seq![cert]);
            Ok(certs)
        },
        Err(e) => {
            let why: String = cat("DER 格式有误: ", e.as_str());
            Err(ca_refused(path, why.as_str()))
        },
    }
}

/// The certificates that a file holds, or why it is refused. A file that is taken gives at
/// least one.
pub fn ca_certificates(path: &str, bytes: &[u8]) -> (r: Result<Vec<reqwest::Certificate>, String>)
    ensures
        certs_view(r) == ca_read(path@, bytes@),
        r is Ok ==> r->Ok_0@.len() > 0,
        r is Ok && ca_format_of(bytes@) == Some(CaFormat::Der) ==> r->Ok_0@.len() == 1,
{
    match ca_format(path, bytes) {
        Ok(CaFormat::Pem) => accept_pem(path, read_pem(bytes)),
        Ok(CaFormat::Der) => accept_der(path, read_der(bytes)),
        Err(e) => Err(e),
    }
}

/// The certificates of a file, given what reading it came to.
pub fn load_ca_certificates(path: &str, file: Result<Vec<u8>, String>) -> (r: Result<
    Vec<reqwest::Certificate>,
    String,
>)
    ensures
        certs_view(r) == (match file {
            Ok(bytes) => ca_read(path@, bytes@),
            Err(e) => Err("读取 CA 证书失败（"@ + path@ + "）: "@ + e@),
        }),
{
    match file {
        Ok(bytes) => ca_certificates(path, bytes.as_slice()),
        Err(e) => {
            let mut out: String = cat3("读取 CA 证书失败（", path, "）: ");
            out.push_str(e.as_str());
            Err(out)
        },
    }
}

// ---- sending ---------------------------------------------------------------------------

/// What is handed to the network.
#[derive(Debug, Clone, PartialEq)]
pub struct Prepared {
    pub method: String,
    pub url: String,
    pub headers: Vec<KvPair>,
}

/// What a `Prepared` stands for.
#[verifier::ext_equal]
pub struct PreparedView {
    pub method: Seq<char>,
    pub url: Seq<char>,
    pub headers: Seq<KvPairView>,
}

impl View for Prepared {
    type V = PreparedView;

    open spec fn view(&self) -> PreparedView {
        PreparedView {
            method: self.method@,
            url: self.url@,
            headers: views(self.headers@),
        }
    }
}

impl Duplicate for Prepared {
    fn duplicate(&self) -> (r: Self) {
        Prepared {
            method: copy_text(self.method.as_str()),
            url: copy_text(self.url.as_str()),
            headers: duplicates(&self.headers),
        }
    }
}

/// Whether a character can stand in a token of HTTP.
pub open spec fn is_token_char(c: char) -> bool {
    is_alnum(c) || c == '!' || c == '#' || c == '$' || c == '%' || c == '&' || c == '\'' || c == '*'
        || c == '+' || c == '-' || c == '.' || c == '^' || c == '_' || c == '`' || c == '|' || c
        == '~'
}

/// Whether a text is a method: a token, known or not.
pub open spec fn method_accepted(m: Seq<char>) -> bool {
    m.len() > 0 && forall|i: int| 0 <= i < m.len() ==> is_token_char(#[trigger] m[i])
}

/// `reqwest::Method::from_bytes`: a text is a method, known or an extension, if it is not empty
/// and all of its characters can stand in a token.
#[verifier::external_body]
fn valid_method(m: &str) -> (r: bool)
    ensures
        r == method_accepted(m@),
{
    reqwest::Method::from_bytes(m.as_bytes()).is_ok()
}

/// The headers that are sent: those with a name, trimmed.
pub open spec fn named_headers(hs: Seq<KvPairView>) -> Seq<KvPairView>
    decreases hs.len(),
{
    if hs.len() == 0 {
        seq![]
    } else if is_blank(hs.last().key) {
        named_headers(hs.drop_last())
    } else {
        named_headers(hs.drop_last()).push(pair(trim(hs.last().key), hs.last().value))
    }
}

/// What is handed to the network for a message, or why it cannot be sent. `ok` is whether the
/// method is one.
pub open spec fn prepared(req: HttpRequestView, ok: bool) -> Result<PreparedView, Seq<char>> {
    if is_blank(req.url) {
        Err("URL 不能为空"@)
    } else if !ok {
        Err("非法的 HTTP 方法: "@ + req.method)
    } else {
        Ok(
            PreparedView {
                method: uppercase(trim(req.method)),
                url: trim(req.url),
                headers: named_headers(req.headers),
            },
        )
    }
}

/// What is handed to the network for a message, given whether its method is one.
pub fn prepare_checked(req: &HttpRequest, ok: bool) -> (r: Result<Prepared, String>)
    ensures
        match r {
            Ok(p) => prepared(req@, ok) == Ok::<_, Seq<char>>(p@),
            Err(e) => prepared(req@, ok) == Err::<PreparedView, _>(e@),
        },
{
    if blank(req.url.as_str()) {
        return Err(copy_text("URL 不能为空"));
    }
    if !ok {
        return Err(cat("非法的 HTTP 方法: ", req.method.as_str()));
    }
    let t: String = trimmed(req.method.as_str());
    let method: String = to_upper(t.as_str());
    let ghost v = views(req.headers@);
    let mut headers: Vec<KvPair> = Vec::new();
    let mut i: usize = 0;
    assert(v.take(0) =~= seq![]);
    assert(views(headers@) =~= seq![]);
    while i < req.headers.len()
        invariant
            i <= req.headers@.len(),
            v == views(req.headers@),
            views(headers@) == named_headers(v.take(i as int)),
        decreases req.headers@.len() - i,
    {
        proof {
            assert(v.take(i + 1).drop_last() =~= v.take(i as int));
            assert(v.take(i + 1).last() == req.headers@[i as int]@);
        }
        if !blank(req.headers[i].key.as_str()) {
            let k: String = trimmed(req.headers[i].key.as_str());
            let h: KvPair = KvPair::new(k.as_str(), req.headers[i].value.as_str());
            proof {
                lemma_views_push(headers@, h);
            }
            headers.push(h);
        }
        i = i + 1;
    }
    assert(v.take(v.len() as int) =~= v);
    Ok(Prepared { method, url: trimmed(req.url.as_str()), headers })
}

/// What is handed to the network for a message, or why it cannot be sent.
pub fn prepare(req: &HttpRequest) -> (r: Result<Prepared, String>)
    ensures
        match r {
            Ok(p) => prepared(req@, method_accepted(uppercase(trim(req@.method)))) == Ok::<
                _,
                Seq<char>,
            >(p@),
            Err(e) => prepared(req@, method_accepted(uppercase(trim(req@.method)))) == Err::<
                PreparedView,
                _,
            >(e@),
        },
{
    let t: String = trimmed(req.method.as_str());
    let method: String = to_upper(t.as_str());
    let ok: bool = valid_method(method.as_str());
    prepare_checked(req, ok)
}

/// Whether another piece of a response is taken: with it the body stays within the limit.
pub fn take_chunk(have: usize, more: usize) -> (r: Result<(), String>)
    ensures
        r is Ok <==> have + more <= MAX_RESPONSE_BYTES,
        r matches Err(e) ==> e@
            == "响应体超过 64 MB 上限，已中止读取（apicase 用于接口调试，不适合拉取大文件）"@,
{
    if have <= MAX_RESPONSE_BYTES && more <= MAX_RESPONSE_BYTES - have {
        Ok(())
    } else {
        Err(copy_text("响应体超过 64 MB 上限，已中止读取（apicase 用于接口调试，不适合拉取大文件）"))
    }
}

// ---- the body of a request -------------------------------------------------------------

/// A file in a form.
#[derive(Debug, Clone, PartialEq)]
pub struct PartFile {
    pub path: String,
    /// The name that it is sent under.
    pub name: String,
    pub content_type: Option<String>,
}

/// What a `PartFile` stands for.
#[verifier::ext_equal]
pub struct PartFileView {
    pub path: Seq<char>,
    pub name: Seq<char>,
    pub content_type: Option<Seq<char>>,
}

impl View for PartFile {
    type V = PartFileView;

    open spec fn view(&self) -> PartFileView {
        PartFileView {
            path: self.path@,
            name: self.name@,
            content_type: opt_view(self.content_type),
        }
    }
}

/// A part of a form: a file, or a value.
#[derive(Debug, Clone, PartialEq)]
pub struct Part {
    pub name: String,
    pub value: String,
    pub file: Option<PartFile>,
}

/// What a `Part` stands for.
#[verifier::ext_equal]
pub struct PartView {
    pub name: Seq<char>,
    pub value: Seq<char>,
    pub file: Option<PartFileView>,
}

impl View for Part {
    type V = PartView;

    open spec fn view(&self) -> PartView {
        PartView {
            name: self.name@,
            value: self.value@,
            file: match self.file {
                Some(f) => Some(f@),
                None => None,
            },
        }
    }
}

/// What is sent as the body of a request.
#[derive(Debug, Clone, PartialEq)]
pub enum Payload {
    Nothing,
    Text(String),
    /// The bytes of a file.
    File(String),
    Form(Vec<Part>),
}

/// What a `Payload` stands for.
#[verifier::ext_equal]
pub enum PayloadView {
    Nothing,
    Text(Seq<char>),
    File(Seq<char>),
    Form(Seq<PartView>),
}

impl View for Payload {
    type V = PayloadView;

    open spec fn view(&self) -> PayloadView {
        match self {
            Payload::Nothing => PayloadView::Nothing,
            Payload::Text(t) => PayloadView::Text(t@),
            Payload::File(p) => PayloadView::File(p@),
            Payload::Form(l) => PayloadView::Form(views(l@)),
        }
    }
}

/// A part of a form as it is sent: a file has a name, and a type only where one is given.
pub open spec fn part_sent(p: FormPartView) -> PartView {
    PartView {
        name: p.name,
        value: p.value,
        file: match p.file_path {
            Some(path) => Some(
                PartFileView {
                    path,
                    name: match p.file_name {
                        Some(n) => n,
                        None => name_of_path(path),
                    },
                    content_type: match p.content_type {
                        Some(c) if c.len() > 0 => Some(c),
                        _ => None,
                    },
                },
            ),
            None => None,
        },
    }
}

/// What is sent as the body of a request. An empty text is no body.
pub open spec fn payload_of(b: Option<RequestBodyView>) -> PayloadView {
    match b {
        Some(RequestBodyView::Form(l)) => PayloadView::Form(
            l.map_values(|p: FormPartView| part_sent(p)),
        ),
        Some(RequestBodyView::File(p)) => PayloadView::File(p),
        Some(RequestBodyView::Text(t)) => if t.len() > 0 {
            PayloadView::Text(t)
        } else {
            PayloadView::Nothing
        },
        None => PayloadView::Nothing,
    }
}

fn send_part(p: &FormPart) -> (r: Part)
    ensures
        r@ == part_sent(p@),
{
    let file: Option<PartFile> = match &p.file_path {
        Some(path) => Some(
            PartFile {
                path: copy_text(path.as_str()),
                name: match &p.file_name {
                    Some(n) => copy_text(n.as_str()),
                    None => base_name(path.as_str()),
                },
                content_type: match &p.content_type {
                    Some(c) => if empty(c.as_str()) {
                        None
                    } else {
                        Some(copy_text(c.as_str()))
                    },
                    None => None,
                },
            },
        ),
        None => None,
    };
    Part { name: copy_text(p.name.as_str()), value: copy_text(p.value.as_str()), file }
}

/// What is sent as the body of a request.
pub fn payload(req: &HttpRequest) -> (r: Payload)
    ensures
        r@ == payload_of(req@.body),
{
    match &req.body {
        Some(RequestBody::Form(l)) => {
            let mut out: Vec<Part> = Vec::new();
            let mut i: usize = 0;
            while i < l.len()
                invariant
                    i <= l@.len(),
                    out@.len() == i,
                    forall|k: int| 0 <= k < i ==> (#[trigger] out@[k])@ == part_sent(l@[k]@),
                decreases l@.len() - i,
            {
                out.push(send_part(&l[i]));
                i = i + 1;
            }
            assert(views(out@) =~= views(l@).map_values(|p: FormPartView| part_sent(p)));
            Payload::Form(out)
        },
        Some(RequestBody::File(p)) => Payload::File(copy_text(p.as_str())),
        Some(RequestBody::Text(t)) => if empty(t.as_str()) {
            Payload::Nothing
        } else {
            Payload::Text(copy_text(t.as_str()))
        },
        None => Payload::Nothing,
    }
}

/// Why the file of a body is not sent.
pub fn body_file_error(path: &str, why: &str) -> (r: String)
    ensures
        r@ == "读取请求体文件失败（"@ + path@ + "）: "@ + why@,
{
    let mut r: String = cat3("读取请求体文件失败（", path, "）: ");
    r.push_str(why);
    r
}

/// Why the file of a field of a form is not sent: of several files, the field tells which.
pub fn form_file_error(field: &str, path: &str, why: &str) -> (r: String)
    ensures
        r@ == "读取表单文件失败（"@ + field@ + " → "@ + path@ + "）: "@ + why@,
{
    let mut r: String = cat3("读取表单文件失败（", field, " → ");
    r.push_str(path);
    r.push_str("）: ");
    r.push_str(why);
    r
}

/// Why `reqwest::multipart::Part::mime_str` refuses a content type; nothing where it takes it.
pub uninterp spec fn mime_problem(content_type: Seq<char>) -> Option<Seq<char>>;

/// `reqwest::multipart::Part::mime_str`: whether it takes a content type, and its error if it
/// does not, depends on the content type alone, whatever the part holds.
#[verifier::external_body]
fn mime_error(content_type: &str) -> (r: Option<String>)
    ensures
        opt_view(r) == mime_problem(content_type@),
{
    reqwest::multipart::Part::text("").mime_str(content_type).err().map(|e| e.to_string())
}

/// Why the file of a field of a form is not sent with a content type.
pub open spec fn content_type_error(
    field: Seq<char>,
    content_type: Seq<char>,
    problem: Option<Seq<char>>,
) -> Option<Seq<char>> {
    match problem {
        Some(e) => Some(
            "表单文件 Content-Type 非法（"@ + field + " → "@ + content_type + "）: "@ + e,
        ),
        None => None,
    }
}

/// Why the file of a field of a form is not sent with a content type, given the problem.
pub fn refuse_content_type(field: &str, content_type: &str, problem: Option<String>) -> (r: Option<
    String,
>)
    ensures
        opt_view(r) == content_type_error(field@, content_type@, opt_view(problem)),
{
    match problem {
        Some(e) => {
            let mut out: String = cat3("表单文件 Content-Type 非法（", field, " → ");
            out.push_str(content_type);
            out.push_str("）: ");
            out.push_str(e.as_str());
            Some(out)
        },
        None => None,
    }
}

/// Why the file of a field of a form is not sent with a content type; nothing if it is.
pub fn check_content_type(field: &str, content_type: &str) -> (r: Option<String>)
    ensures
        opt_view(r) == content_type_error(field@, content_type@, mime_problem(content_type@)),
{
    refuse_content_type(field, content_type, mime_error(content_type))
}

/// Configurations that share a client agree in all that a client is made of: the proxy, the
/// certificates, the time limit and the jar.
pub proof fn law_key_decides_client(
    a: ClientConfigView,
    b: ClientConfigView,
    s: (u64, u64),
    t: (u64, u64),
)
    requires
        client_key_of(a, s) == client_key_of(b, t),
    ensures
        proxy_of(a) == proxy_of(b),
        client_key_of(a, (0, 0)).verify_ssl == client_key_of(b, (0, 0)).verify_ssl,
        client_key_of(a, (0, 0)).timeout_ms == client_key_of(b, (0, 0)).timeout_ms,
        ca_file(a) == ca_file(b),
        ca_file(a).len() > 0 ==> s == t,
        jar_used(a) == jar_used(b),
{
    reveal_strlit("none");
    reveal_strlit("custom");
    reveal_strlit("jar:");
    let ka = cookie_key(a);
    if jar_used(a) is Some {
        assert(ka.skip(4) =~= jar_used(a)->0);
    }
    if jar_used(b) is Some {
        assert(cookie_key(b).skip(4) =~= jar_used(b)->0);
    }
    let none: Seq<char> = seq![];
    assert(trim_front(none) == none);
    assert(trim_back(none) == none);
    assert(is_blank(none));
}

// ---- laws of what is sent ----------------------------------------------------------------

/// A message is sent if it has an address and a method that can be sent, and as it is: the address
/// trimmed, the method in capitals, and the headers that have a name.
pub proof fn law_message_prepared(req: HttpRequestView, ok: bool)
    ensures
        is_blank(req.url) ==> prepared(req, ok) == Err::<PreparedView, _>("URL 不能为空"@),
        !is_blank(req.url) && !ok ==> prepared(req, ok) == Err::<PreparedView, _>(
            "非法的 HTTP 方法: "@ + req.method,
        ),
        !is_blank(req.url) && ok ==> match prepared(req, ok) {
            Ok(p) => p.url == trim(req.url) && p.method == uppercase(trim(req.method)) && p.headers
                == named_headers(req.headers),
            Err(_) => false,
        },
{
}

/// Headers are sent one by one and in order: each that has a name, with the name trimmed and the
/// value as it is, and no other.
pub proof fn law_named_headers(hs: Seq<KvPairView>, h: KvPairView)
    ensures
        named_headers(seq![]).len() == 0,
        is_blank(h.key) ==> named_headers(hs.push(h)) == named_headers(hs),
        !is_blank(h.key) ==> named_headers(hs.push(h)) == named_headers(hs).push(
            KvPairView { key: trim(h.key), value: h.value },
        ),
{
    assert(hs.push(h).drop_last() =~= hs);
}

/// What is sent of a body: a text that is not empty as it is, a file by its path, and the parts of
/// a form in order, each with its name and its value or its file. A file is named as it should be
/// or as it is, and has a type if one is given.
pub proof fn law_payload(t: Seq<char>, l: Seq<FormPartView>, i: int)
    ensures
        payload_of(None) is Nothing,
        t.len() > 0 ==> payload_of(Some(RequestBodyView::Text(t))) == PayloadView::Text(t),
        t.len() == 0 ==> payload_of(Some(RequestBodyView::Text(t))) is Nothing,
        payload_of(Some(RequestBodyView::File(t))) == PayloadView::File(t),
        match payload_of(Some(RequestBodyView::Form(l))) {
            PayloadView::Form(r) => r.len() == l.len() && (0 <= i < l.len() ==> {
                &&& r[i].name == l[i].name
                &&& r[i].value == l[i].value
                &&& r[i].file is Some <==> l[i].file_path is Some
                &&& l[i].file_path is Some ==> {
                    &&& r[i].file->0.path == l[i].file_path->0
                    &&& l[i].file_name is Some ==> r[i].file->0.name == l[i].file_name->0
                    &&& l[i].file_name is None ==> r[i].file->0.name == name_of_path(
                        l[i].file_path->0,
                    )
                    &&& l[i].content_type is None ==> r[i].file->0.content_type is None
                    &&& l[i].content_type is Some && l[i].content_type->0.len() > 0
                        ==> r[i].file->0.content_type == l[i].content_type
                }
            }),
            _ => false,
        },
{
}

/// Which proxy is used: none if that is said, the one that is named if a custom one is wanted and
/// has an address, and that of the system if nothing is said.
pub proof fn law_proxy_chosen(cfg: ClientConfigView)
    ensures
        cfg.proxy is None ==> proxy_of(cfg) is System,
        cfg.proxy is Some && cfg.proxy->0.mode == "none"@ ==> proxy_of(cfg) is Direct,
        cfg.proxy is Some && cfg.proxy->0.mode == "custom"@ && cfg.proxy->0.mode != "none"@ ==> {
            &&& cfg.proxy->0.url is Some && !is_blank(cfg.proxy->0.url->0) ==> proxy_of(cfg)
                == ProxyChoiceView::Via(trim(cfg.proxy->0.url->0))
            &&& cfg.proxy->0.url is None ==> proxy_of(cfg) is Direct
            &&& cfg.proxy->0.url is Some && is_blank(cfg.proxy->0.url->0) ==> proxy_of(cfg) is Direct
        },
        cfg.proxy is Some && cfg.proxy->0.mode == "system"@ && cfg.proxy->0.mode != "none"@
            && cfg.proxy->0.mode != "custom"@ ==> proxy_of(cfg) is System,
{
}

/// A client is made anew wherever something that it is made of differs: the proxy, whether
/// certificates are checked, the certificates and their file, the limit, or the jar.
pub proof fn law_client_made_anew(
    a: ClientConfigView,
    b: ClientConfigView,
    s: (u64, u64),
    t: (u64, u64),
)
    requires
        a.proxy is Some && b.proxy is Some,
        a.options is Some && b.options is Some,
        a.cookies is Some && b.cookies is Some,
    ensures
        a.proxy->0.mode != b.proxy->0.mode ==> client_key_of(a, s) != client_key_of(b, t),
        a.proxy->0.url is Some && b.proxy->0.url is Some && a.proxy->0.url != b.proxy->0.url
            ==> client_key_of(a, s) != client_key_of(b, t),
        (a.options->0.verify_ssl == Some(false)) != (b.options->0.verify_ssl == Some(false))
            ==> client_key_of(a, s) != client_key_of(b, t),
        a.options->0.timeout_ms is Some && b.options->0.timeout_ms is Some
            && a.options->0.timeout_ms != b.options->0.timeout_ms ==> client_key_of(a, s)
            != client_key_of(b, t),
        a.options->0.ca_cert_path is Some && b.options->0.ca_cert_path is Some && trim(
            a.options->0.ca_cert_path->0,
        ) != trim(b.options->0.ca_cert_path->0) ==> client_key_of(a, s) != client_key_of(b, t),
        a.options->0.ca_cert_path is Some && !is_blank(a.options->0.ca_cert_path->0) && s != t
            ==> client_key_of(a, s) != client_key_of(a, t),
        a.cookies->0.enabled && !b.cookies->0.enabled ==> client_key_of(a, s) != client_key_of(b, t),
        a.cookies->0.enabled && b.cookies->0.enabled && a.cookies->0.jar_path is Some
            && b.cookies->0.jar_path is Some && trim(a.cookies->0.jar_path->0) != trim(
            b.cookies->0.jar_path->0,
        ) ==> client_key_of(a, s) != client_key_of(b, t),
{
    reveal_strlit("jar:");
    let ka = cookie_key(a);
    let kb = cookie_key(b);
    if a.cookies->0.enabled && b.cookies->0.enabled && ka == kb {
        assert(ka.skip(4) =~= jar_key(a.cookies->0));
        assert(kb.skip(4) =~= jar_key(b.cookies->0));
    }
    if a.cookies->0.enabled && !b.cookies->0.enabled {
        assert(ka.len() >= 4 && kb.len() == 0);
    }
}

/// Certificates are read by their form: as PEM wherever the mark of one is among the bytes, else
/// as DER if the bytes begin like one, and else not at all. PEM without a certificate is refused.
pub proof fn law_certificate_forms(path: Seq<char>, bytes: Seq<u8>, i: int)
    ensures
        0 <= i && i + pem_marker().len() <= bytes.len() && bytes.subrange(i, i + pem_marker().len())
            == pem_marker() ==> ca_format_of(bytes) == Some(CaFormat::Pem),
        !(exists|k: int| bytes_at(bytes, pem_marker(), k)) ==> {
            &&& bytes.len() > 0 && bytes[0] == 0x30 ==> ca_format_of(bytes) == Some(CaFormat::Der)
            &&& bytes.len() == 0 || bytes[0] != 0x30 ==> ca_format_of(bytes) is None && ca_read(
                path,
                bytes,
            ) is Err
        },
        pem_accepted(path, Ok(seq![])) is Err,
{
    if 0 <= i && i + pem_marker().len() <= bytes.len() && bytes.subrange(i, i + pem_marker().len())
        == pem_marker() {
        assert(bytes_at(bytes, pem_marker(), i));
    }
}

/// What is wrong with certificates is told with their file.
pub proof fn law_certificates_refused(path: Seq<char>, why: Seq<char>)
    ensures
        ca_error(path, why) == "解析 CA 证书失败（"@ + path + "）——"@ + why,
{
}

/// A method is any word of the characters that HTTP has for one: letters, digits and some marks, but
/// no white space and nothing that separates.
pub proof fn law_methods(m: Seq<char>, i: int)
    ensures
        !method_accepted(seq![]),
        0 <= i < m.len() && (m[i] == ' ' || m[i] == '\t' || m[i] == '\n' || m[i] == '/' || m[i] == ':'
            || m[i] == '(' || m[i] == ')' || m[i] == '"' || m[i] == ',' || m[i] == ';' || m[i] == '='
            || m[i] == '@' || m[i] == '[' || m[i] == ']' || m[i] == '{' || m[i] == '}' || m[i] == '<'
            || m[i] == '>' || m[i] == '?' || m[i] == '\\') ==> !method_accepted(m),
        m.len() > 0 && (forall|k: int|
            0 <= k < m.len() ==> 'A' <= #[trigger] m[k] <= 'Z' || 'a' <= m[k] <= 'z' || '0' <= m[k]
                <= '9' || m[k] == '-' || m[k] == '_' || m[k] == '.') ==> method_accepted(m),
{
    if 0 <= i < m.len() && (m[i] == ' ' || m[i] == '\t' || m[i] == '\n' || m[i] == '/' || m[i] == ':'
        || m[i] == '(' || m[i] == ')' || m[i] == '"' || m[i] == ',' || m[i] == ';' || m[i] == '='
        || m[i] == '@' || m[i] == '[' || m[i] == ']' || m[i] == '{' || m[i] == '}' || m[i] == '<'
        || m[i] == '>' || m[i] == '?' || m[i] == '\\') {
        assert(!is_token_char(m[i]));
    }
}

} // verus!
