//! The cookie jar.
//!
//! The rules of cookies (which domain covers which host, which path, what has expired) are
//! those of `cookie_store`. The library decides what is handed to it, how a jar is listed, and
//! how it is written as YAML that people edit by hand. A cookie that is entered by hand goes
//! the way of one that a server sets: it becomes the line of a `Set-Cookie` header.
use crate::case_file::{array, no_members, object, push_text, push_value, text_member};
use crate::discover::{with_extension, with_extension_of};
use crate::emit::yaml_text;
use crate::json::{js_string, js_text, lemma_view, member, put_member, Json, JsonView, Member};
use crate::number::{Number, NumberView};
use crate::report::{pair, KvPair, KvPairView};
use crate::request::{HttpRequest, HttpRequestView};
use crate::table::{
    before, key_at, lemma_concats, lemma_key_at, lemma_less_total, lemma_less_transitive,
    lemma_none, lemma_one, lemma_two, less, lookup, put,
};
use crate::text::{
    begins, blank, cat, chars_of, contains, copy_text, duplicates, empty, is_blank, join, joined,
    lemma_views_push, lower, lowercase, opt_text, opt_view, same, same_ignoring_case, starts_with,
    sub_text, to_lower, to_lowercase, trim, trimmed, views, Duplicate,
};
use crate::util::{
    date_at, http_date, http_date_text, iso8601_secs, iso_secs_text, law_iso_round_trip,
    parse_iso8601, parsed_iso,
};
use crate::yaml::{load, loaded};
use vstd::prelude::*;

verus! {

/// The head of the file of a jar, written anew each time.
pub const FILE_HEADER: &'static str =
    "# apicase 的 cookie 会话。可以直接编辑，保存后下次运行即生效。\n# 本文件由 apicase 自动维护（响应里的 Set-Cookie 会写回这里），手写的注释与顺序不会保留。\n#\n# 顶层是域名，前缀 . 表示子域一并生效（.demo.com 也发给 api.demo.com）。\n# 每条只有 name 必填，其余省略即默认：path: /、secure: false，\n# expires 省略 = 会话 cookie（不过期，关掉应用也留着）。\n# expires 写 ISO 8601，如 2026-08-12T03:04:05Z；不带时区按 UTC，也可写 +08:00。\n";

/// The least time in milliseconds between two writes of a jar.
pub const FLUSH_INTERVAL_MS: u64 = 1000;

/// What tells one cookie from another.
#[derive(Debug, Clone, PartialEq)]
pub struct CookieKey {
    pub domain: String,
    pub path: String,
    pub name: String,
}

/// What a `CookieKey` stands for.
#[verifier::ext_equal]
pub struct CookieKeyView {
    pub domain: Seq<char>,
    pub path: Seq<char>,
    pub name: Seq<char>,
}

impl View for CookieKey {
    type V = CookieKeyView;

    open spec fn view(&self) -> CookieKeyView {
        CookieKeyView {
            domain: self.domain@,
            path: self.path@,
            name: self.name@,
        }
    }
}

impl Duplicate for CookieKey {
    fn duplicate(&self) -> (r: Self) {
        CookieKey {
            domain: copy_text(self.domain.as_str()),
            path: copy_text(self.path.as_str()),
            name: copy_text(self.name.as_str()),
        }
    }
}

/// A cookie as it is listed.
#[derive(Debug, Clone, PartialEq)]
pub struct CookieItem {
    pub domain: String,
    pub path: String,
    pub name: String,
    pub value: String,
    pub secure: bool,
    /// When it expires in milliseconds since 1970; none for a cookie of a session.
    pub expires_ms: Option<u64>,
    /// Whether it has expired: it is listed, but no longer sent.
    pub expired: bool,
    /// Whether it is sent to this one host only.
    pub host_only: bool,
}

/// What a `CookieItem` stands for.
#[verifier::ext_equal]
pub struct CookieItemView {
    pub domain: Seq<char>,
    pub path: Seq<char>,
    pub name: Seq<char>,
    pub value: Seq<char>,
    pub secure: bool,
    pub expires_ms: Option<u64>,
    pub expired: bool,
    pub host_only: bool,
}

impl View for CookieItem {
    type V = CookieItemView;

    open spec fn view(&self) -> CookieItemView {
        CookieItemView {
            domain: self.domain@,
            path: self.path@,
            name: self.name@,
            value: self.value@,
            secure: self.secure,
            expires_ms: self.expires_ms,
            expired: self.expired,
            host_only: self.host_only,
        }
    }
}

impl Duplicate for CookieItem {
    fn duplicate(&self) -> (r: Self) {
        CookieItem {
            domain: copy_text(self.domain.as_str()),
            path: copy_text(self.path.as_str()),
            name: copy_text(self.name.as_str()),
            value: copy_text(self.value.as_str()),
            secure: self.secure,
            expires_ms: self.expires_ms,
            expired: self.expired,
            host_only: self.host_only,
        }
    }
}

/// A cookie as it is entered. A domain with a leading dot covers its subdomains.
#[derive(Debug, Clone, PartialEq)]
pub struct CookieInput {
    pub domain: String,
    pub path: String,
    pub name: String,
    pub value: String,
    pub secure: bool,
    pub expires_ms: Option<u64>,
}

/// What a `CookieInput` stands for.
#[verifier::ext_equal]
pub struct CookieInputView {
    pub domain: Seq<char>,
    pub path: Seq<char>,
    pub name: Seq<char>,
    pub value: Seq<char>,
    pub secure: bool,
    pub expires_ms: Option<u64>,
}

impl View for CookieInput {
    type V = CookieInputView;

    open spec fn view(&self) -> CookieInputView {
        CookieInputView {
            domain: self.domain@,
            path: self.path@,
            name: self.name@,
            value: self.value@,
            secure: self.secure,
            expires_ms: self.expires_ms,
        }
    }
}

impl Duplicate for CookieInput {
    fn duplicate(&self) -> (r: Self) {
        CookieInput {
            domain: copy_text(self.domain.as_str()),
            path: copy_text(self.path.as_str()),
            name: copy_text(self.name.as_str()),
            value: copy_text(self.value.as_str()),
            secure: self.secure,
            expires_ms: self.expires_ms,
        }
    }
}

/// A cookie as the store gives it out.
#[derive(Debug, Clone, PartialEq)]
pub struct StoredCookie {
    pub domain: String,
    pub path: String,
    pub name: String,
    pub value: String,
    pub secure: Option<bool>,
    /// Seconds since 1970.
    pub expires: Option<i64>,
    pub expired: bool,
    pub host_only: bool,
}

/// What a `StoredCookie` stands for.
#[verifier::ext_equal]
pub struct StoredCookieView {
    pub domain: Seq<char>,
    pub path: Seq<char>,
    pub name: Seq<char>,
    pub value: Seq<char>,
    pub secure: Option<bool>,
    pub expires: Option<i64>,
    pub expired: bool,
    pub host_only: bool,
}

impl View for StoredCookie {
    type V = StoredCookieView;

    open spec fn view(&self) -> StoredCookieView {
        StoredCookieView {
            domain: self.domain@,
            path: self.path@,
            name: self.name@,
            value: self.value@,
            secure: self.secure,
            expires: self.expires,
            expired: self.expired,
            host_only: self.host_only,
        }
    }
}

impl Duplicate for StoredCookie {
    fn duplicate(&self) -> (r: Self) {
        StoredCookie {
            domain: copy_text(self.domain.as_str()),
            path: copy_text(self.path.as_str()),
            name: copy_text(self.name.as_str()),
            value: copy_text(self.value.as_str()),
            secure: self.secure,
            expires: self.expires,
            expired: self.expired,
            host_only: self.host_only,
        }
    }
}

/// What is handed to the store for a cookie that is entered.
#[derive(Debug, Clone, PartialEq)]
pub struct CookieRequest {
    /// The line of a `Set-Cookie` header.
    pub line: String,
    /// The address that it is taken to come from.
    pub url: String,
    /// The domain as it was entered.
    pub domain: String,
    pub key: CookieKey,
}

/// What a `CookieRequest` stands for.
#[verifier::ext_equal]
pub struct CookieRequestView {
    pub line: Seq<char>,
    pub url: Seq<char>,
    pub domain: Seq<char>,
    pub key: CookieKeyView,
}

impl View for CookieRequest {
    type V = CookieRequestView;

    open spec fn view(&self) -> CookieRequestView {
        CookieRequestView {
            line: self.line@,
            url: self.url@,
            domain: self.domain@,
            key: self.key@,
        }
    }
}

impl Duplicate for CookieRequest {
    fn duplicate(&self) -> (r: Self) {
        CookieRequest {
            line: copy_text(self.line.as_str()),
            url: copy_text(self.url.as_str()),
            domain: copy_text(self.domain.as_str()),
            key: self.key.duplicate(),
        }
    }
}

// ---- the store -------------------------------------------------------------------------

/// `cookie_store::CookieStore`, the cookies that are held.
#[verifier::external_type_specification]
#[verifier::external_body]
pub struct ExCookieStore(cookie_store::CookieStore);

/// What is held of a cookie beside its key.
#[verifier::ext_equal]
pub struct HeldCookie {
    pub value: Seq<char>,
    pub secure: Option<bool>,
    pub expires: Option<i64>,
    pub host_only: bool,
}

/// The cookies in a `cookie_store::CookieStore`, expired ones among them.
pub uninterp spec fn held(s: cookie_store::CookieStore) -> Map<CookieKeyView, HeldCookie>;

/// Whether a `cookie_store::CookieStore` was made without a list of public suffixes.
pub uninterp spec fn without_suffixes(s: cookie_store::CookieStore) -> bool;

/// The key of a cookie that the store gives out.
pub open spec fn key_of(c: StoredCookieView) -> CookieKeyView {
    CookieKeyView { domain: c.domain, path: c.path, name: c.name }
}

/// What is held of a cookie that the store gives out.
pub open spec fn held_of(c: StoredCookieView) -> HeldCookie {
    HeldCookie { value: c.value, secure: c.secure, expires: c.expires, host_only: c.host_only }
}

/// Whether a list holds every cookie of a store once, in any order.
pub open spec fn lists(v: Seq<StoredCookieView>, m: Map<CookieKeyView, HeldCookie>) -> bool {
    &&& forall|i: int|
        0 <= i < v.len() ==> m.contains_key(key_of(#[trigger] v[i])) && m[key_of(v[i])] == held_of(
            v[i],
        ) && (v[i].expired ==> v[i].expires is Some)
    &&& forall|i: int, j: int|
        0 <= i < j < v.len() ==> key_of(#[trigger] v[i]) != key_of(#[trigger] v[j])
    &&& forall|k: CookieKeyView| #[trigger]
        m.contains_key(k) ==> exists|i: int| 0 <= i < v.len() && key_of(#[trigger] v[i]) == k
}

/// No cookies.
pub open spec fn nothing_held() -> Map<CookieKeyView, HeldCookie> {
    Map::empty()
}

/// The empty store, by `CookieStore::default`.
#[verifier::external_body]
fn empty_store() -> (r: cookie_store::CookieStore)
    ensures
        held(r) == nothing_held(),
        without_suffixes(r),
{
    cookie_store::CookieStore::default()
}

/// The cookies of a store with `CookieStore::iter_any`, each once, in the order of a hash map,
/// which is not stated. A cookie of a session never expires; which of the others have expired
/// rests on the time and is not stated.
#[verifier::external_body]
fn stored(s: &cookie_store::CookieStore) -> (r: Vec<StoredCookie>)
    ensures
        lists(views(r@), held(*s)),
{
    s.iter_any().map(|c| StoredCookie {
        domain: String::from(&c.domain),
        path: String::from(&c.path),
        name: c.name().to_string(),
        value: c.value().to_string(),
        secure: c.secure(),
        expires: match &c.expires {
            cookie_store::CookieExpiration::AtUtc(t) => Some(t.unix_timestamp()),
            cookie_store::CookieExpiration::SessionEnd => None,
        },
        expired: c.is_expired(),
        host_only: matches!(c.domain, cookie_store::CookieDomain::HostOnly(_)),
    }).collect()
}

/// Removes a cookie with `CookieStore::remove`, and says whether it was there.
#[verifier::external_body]
fn drop_cookie(s: &mut cookie_store::CookieStore, domain: &str, path: &str, name: &str) -> (r: bool)
    ensures
        r == held(*old(s)).contains_key(
            CookieKeyView { domain: domain@, path: path@, name: name@ },
        ),
        held(*final(s)) == held(*old(s)).remove(
            CookieKeyView { domain: domain@, path: path@, name: name@ },
        ),
        without_suffixes(*final(s)) == without_suffixes(*old(s)),
{
    s.remove(domain, path, name).is_some()
}

/// Removes every cookie with `CookieStore::clear`.
#[verifier::external_body]
fn clear_store(s: &mut cookie_store::CookieStore)
    ensures
        held(*final(s)) == nothing_held(),
        without_suffixes(*final(s)) == without_suffixes(*old(s)),
{
    s.clear()
}

/// What is wrong with an address, by the message of `reqwest::Url::parse`; nothing for one that
/// is read.
pub uninterp spec fn url_problem(text: Seq<char>) -> Option<Seq<char>>;

/// What is wrong with an address, as `reqwest::Url::parse` says. It depends on the text alone.
#[verifier::external_body]
fn url_error(text: &str) -> (r: Option<String>)
    ensures
        opt_view(r) == url_problem(text@),
{
    reqwest::Url::parse(text).err().map(|e| e.to_string())
}

/// What is wrong with the line of a `Set-Cookie` header, by the message of
/// `cookie_store::RawCookie::parse`; nothing for one that is read.
pub uninterp spec fn line_problem(line: Seq<char>) -> Option<Seq<char>>;

/// What is wrong with the line of a `Set-Cookie` header, as `cookie_store::RawCookie::parse`
/// says. It depends on the line alone.
#[verifier::external_body]
fn line_error(line: &str) -> (r: Option<String>)
    ensures
        opt_view(r) == line_problem(line@),
{
    cookie_store::RawCookie::parse(line).err().map(|e| e.to_string())
}

/// Why the store does not take a cookie.
#[derive(Debug, Clone, PartialEq)]
pub enum Refusal {
    Expired,
    DomainMismatch,
    Other(String),
}

/// What a `Refusal` stands for.
pub enum RefusalView {
    Expired,
    DomainMismatch,
    Other(Seq<char>),
}

impl View for Refusal {
    type V = RefusalView;

    open spec fn view(&self) -> RefusalView {
        match self {
            Refusal::Expired => RefusalView::Expired,
            Refusal::DomainMismatch => RefusalView::DomainMismatch,
            Refusal::Other(s) => RefusalView::Other(s@),
        }
    }
}

/// What `CookieStore::parse` makes of the line of a `Set-Cookie` header that comes from an
/// address, were it not for the time and for what is held: the key of the cookie and what is
/// held of it, or why it is not taken.
pub uninterp spec fn cookie_in(line: Seq<char>, url: Seq<char>) -> Result<
    (CookieKeyView, HeldCookie),
    RefusalView,
>;

/// Whether a line says nothing of when its cookie expires.
pub open spec fn lasting(line: Seq<char>) -> bool {
    !contains(lower(line), "max-age"@) && !contains(lower(line), "expires"@)
}

/// Whether a cookie is as it was read. A line that says `Max-Age` counts from the time at which
/// it is read, so that nothing is said of when such a cookie expires, but that it does.
pub open spec fn as_read(c: HeldCookie, read: HeldCookie, line: Seq<char>) -> bool {
    &&& c.value == read.value
    &&& c.secure == read.secure
    &&& c.host_only == read.host_only
    &&& c.expires is Some <==> read.expires is Some
    &&& !contains(lower(line), "max-age"@) ==> c.expires == read.expires
    &&& lasting(line) ==> c.expires is None
}

/// A cookie that was ended: all of it is kept, but that it expired in 1970.
pub open spec fn ended(c: HeldCookie) -> HeldCookie {
    HeldCookie { expires: Some(0), ..c }
}

/// Hands the line of a `Set-Cookie` header to `CookieStore::parse` as one that comes from an
/// address, which is read with `reqwest::Url::parse`. A cookie that is refused changes nothing.
/// One that is taken is held under its key as it was read (`Ok(true)`); or, where it has
/// expired itself, the one that was held under its key is ended (`Ok(false)`).
/// What cannot be read, or does not belong to the address, is always refused. Whether a cookie
/// has expired rests on the time and is not stated. From an address of HTTP one that never
/// expires is always taken, and one that has expired is refused only where no cookie that never
/// expires is held under its key.
#[verifier::external_body]
fn store_line(s: &mut cookie_store::CookieStore, line: &str, url: &str) -> (r: Result<bool, Refusal>)
    requires
        url_problem(url@) is None,
        without_suffixes(*old(s)),
    ensures
        without_suffixes(*final(s)),
        r is Err ==> held(*final(s)) == held(*old(s)),
        match cookie_in(line@, url@) {
            Err(f) => r is Err && r->Err_0@ == f,
            Ok((k, c)) => {
                &&& r is Ok ==> held(*final(s)).contains_key(k) && held(*final(s)).remove(k)
                    == held(*old(s)).remove(k)
                &&& r is Ok && r->Ok_0 ==> as_read(held(*final(s))[k], c, line@)
                &&& r is Ok && !r->Ok_0 ==> !lasting(line@) && c.expires is Some && held(
                    *old(s),
                ).contains_key(k) && held(*final(s))[k] == ended(held(*old(s))[k])
                &&& is_http(url@) && r is Err ==> r->Err_0@ == RefusalView::Expired && (held(
                    *old(s),
                ).contains_key(k) ==> held(*old(s))[k].expires is Some)
                &&& is_http(url@) && lasting(line@) ==> r is Ok
            },
        },
{
    let u = reqwest::Url::parse(url).map_err(|e| Refusal::Other(e.to_string()))?;
    match s.parse(line, &u) {
        Ok(cookie_store::StoreAction::ExpiredExisting) => Ok(false),
        Ok(_) => Ok(true),
        Err(cookie_store::CookieError::Expired) => Err(Refusal::Expired),
        Err(cookie_store::CookieError::DomainMismatch) => Err(Refusal::DomainMismatch),
        Err(other) => Err(Refusal::Other(other.to_string())),
    }
}

/// Whether `cookie_store` sends a cookie that has not expired to an address: the domain and the
/// path match, and a secure one goes over a secure connection only.
pub uninterp spec fn goes_to(k: CookieKeyView, secure: Option<bool>, host_only: bool, url: Seq<char>) -> bool;

/// Whether an address is one of HTTP.
pub open spec fn is_http(url: Seq<char>) -> bool {
    begins(lower(url), "http:"@) || begins(lower(url), "https:"@)
}

/// Whether a pair is the name and the value of a cookie that goes along.
pub open spec fn sends(
    m: Map<CookieKeyView, HeldCookie>,
    goes: spec_fn(CookieKeyView) -> bool,
    k: CookieKeyView,
    p: KvPairView,
) -> bool {
    m.contains_key(k) && goes(k) && p == pair(k.name, m[k].value)
}

/// Whether pairs are the names and values of the cookies of keys: no key occurs twice, each is
/// that of a cookie that goes along to an address, and none that never expires is missing.
pub open spec fn go_along(
    ks: Seq<CookieKeyView>,
    v: Seq<KvPairView>,
    m: Map<CookieKeyView, HeldCookie>,
    goes: spec_fn(CookieKeyView) -> bool,
    url: Seq<char>,
) -> bool {
    &&& ks.no_duplicates()
    &&& ks.len() == v.len()
    &&& forall|i: int| 0 <= i < v.len() ==> sends(m, goes, #[trigger] ks[i], v[i])
    &&& forall|k: CookieKeyView| #[trigger]
        m.contains_key(k) && m[k].expires is None && is_http(url) && goes(k) ==> ks.contains(k)
}

/// Whether pairs are the cookies that go along to an address, each once.
pub open spec fn goes_along(
    v: Seq<KvPairView>,
    m: Map<CookieKeyView, HeldCookie>,
    goes: spec_fn(CookieKeyView) -> bool,
    url: Seq<char>,
) -> bool {
    exists|ks: Seq<CookieKeyView>| #[trigger] go_along(ks, v, m, goes, url)
}

/// The cookies that go to an address, each once, by `CookieStore::get_request_values`; nothing
/// for an address that `reqwest::Url::parse` does not read. Their order is that of a hash map and
/// is not stated, nor is which of those that expire have not yet done so.
#[verifier::external_body]
fn matching(s: &cookie_store::CookieStore, url: &str) -> (r: Option<Vec<KvPair>>)
    ensures
        r is Some <==> url_problem(url@) is None,
        r is Some ==> goes_along(
            views(r->0@),
            held(*s),
            |k: CookieKeyView| goes_to(k, held(*s)[k].secure, held(*s)[k].host_only, url@),
            url@,
        ),
{
    let u = reqwest::Url::parse(url).ok()?;
    Some(s.get_request_values(&u).map(|(k, v)| KvPair { key: k.to_string(), value: v.to_string() }).collect())
}

/// The cookies that `cookie_store::serde::json::load_all` reads from the file of an older jar;
/// nothing if it cannot be read.
pub uninterp spec fn older_cookies(text: Seq<char>) -> Option<Map<CookieKeyView, HeldCookie>>;

/// Reads the file of an older jar with `cookie_store::serde::json::load_all`, expired cookies
/// among them. What is read depends on the text alone.
#[verifier::external_body]
fn older_store(text: &str) -> (r: Option<cookie_store::CookieStore>)
    ensures
        (match r {
            Some(s) => Some(held(s)),
            None => None,
        }) == older_cookies(text@),
        r is Some ==> without_suffixes(r->0),
{
    cookie_store::serde::json::load_all(text.as_bytes()).ok()
}

// ---- lists -----------------------------------------------------------------------------

/// The milliseconds of a time in seconds; a time before 1970 is none.
pub open spec fn ms_of(expires: Option<i64>) -> Option<u64> {
    match expires {
        Some(s) => if s < 0 {
            None
        } else if s * 1000 > u64::MAX {
            Some(u64::MAX)
        } else {
            Some((s * 1000) as u64)
        },
        None => None,
    }
}

/// The key of a cookie that is listed.
pub open spec fn item_key(c: CookieItemView) -> CookieKeyView {
    CookieKeyView { domain: c.domain, path: c.path, name: c.name }
}

/// Whether an item shows a cookie that is held. A cookie of a session has not expired; of the
/// others nothing is said.
pub open spec fn shows(c: CookieItemView, h: HeldCookie) -> bool {
    &&& c.value == h.value
    &&& c.secure == (h.secure == Some(true))
    &&& c.expires_ms == ms_of(h.expires)
    &&& c.host_only == h.host_only
    &&& c.expired ==> h.expires is Some
}

/// The order of a list: by domain, then path, then name.
pub open spec fn key_less(a: CookieKeyView, b: CookieKeyView) -> bool {
    if a.domain != b.domain {
        less(a.domain, b.domain)
    } else if a.path != b.path {
        less(a.path, b.path)
    } else {
        less(a.name, b.name)
    }
}

/// Whether the keys of a list are in order.
pub open spec fn in_key_order(v: Seq<CookieItemView>) -> bool {
    forall|i: int, j: int|
        0 <= i < j < v.len() ==> key_less(item_key(#[trigger] v[i]), item_key(#[trigger] v[j]))
}

/// Whether a list shows every cookie that is held once, in order.
pub open spec fn is_list_of(v: Seq<CookieItemView>, m: Map<CookieKeyView, HeldCookie>) -> bool {
    &&& in_key_order(v)
    &&& forall|i: int|
        0 <= i < v.len() ==> m.contains_key(item_key(#[trigger] v[i])) && shows(
            v[i],
            m[item_key(v[i])],
        )
    &&& forall|k: CookieKeyView| #[trigger]
        m.contains_key(k) ==> exists|i: int| 0 <= i < v.len() && item_key(#[trigger] v[i]) == k
}

/// The keys of the items of a list that are marked as expired.
pub open spec fn expired_keys(v: Seq<CookieItemView>) -> Set<CookieKeyView> {
    Set::new(
        |k: CookieKeyView|
            exists|i: int| 0 <= i < v.len() && item_key(#[trigger] v[i]) == k && v[i].expired,
    )
}

proof fn lemma_expired_push(v: Seq<CookieItemView>, c: CookieItemView)
    ensures
        expired_keys(v.push(c)) == (if c.expired {
            expired_keys(v).insert(item_key(c))
        } else {
            expired_keys(v)
        }),
{
    let w = v.push(c);
    let all = if c.expired {
        expired_keys(v).insert(item_key(c))
    } else {
        expired_keys(v)
    };
    assert forall|k: CookieKeyView| #[trigger] expired_keys(w).contains(k) == all.contains(k) by {
        if all.contains(k) {
            if expired_keys(v).contains(k) {
                let a = choose|a: int|
                    0 <= a < v.len() && item_key(#[trigger] v[a]) == k && v[a].expired;
                assert(w[a] == v[a]);
            } else {
                assert(w[v.len() as int] == c);
            }
        }
        if expired_keys(w).contains(k) {
            let a = choose|a: int|
                0 <= a < w.len() && item_key(#[trigger] w[a]) == k && w[a].expired;
            if a < v.len() {
                assert(w[a] == v[a]);
            }
        }
    }
    assert(expired_keys(w) =~= all);
}

proof fn lemma_key_total(a: CookieKeyView, b: CookieKeyView)
    ensures
        a != b ==> key_less(a, b) || key_less(b, a),
        !(key_less(a, b) && key_less(b, a)),
        !key_less(a, a),
{
    lemma_less_total(a.domain, b.domain);
    lemma_less_total(a.path, b.path);
    lemma_less_total(a.name, b.name);
    lemma_less_total(a.name, a.name);
    if a.domain == b.domain && a.path == b.path && a.name == b.name {
        assert(a =~= b);
    }
}

proof fn lemma_key_transitive(a: CookieKeyView, b: CookieKeyView, c: CookieKeyView)
    requires
        key_less(a, b),
        key_less(b, c),
    ensures
        key_less(a, c),
{
    lemma_less_total(a.domain, b.domain);
    lemma_less_total(b.domain, c.domain);
    lemma_less_total(a.domain, c.domain);
    lemma_less_total(a.path, b.path);
    lemma_less_total(b.path, c.path);
    lemma_less_total(a.path, c.path);
    if a.domain != b.domain && b.domain != c.domain {
        lemma_less_transitive(a.domain, b.domain, c.domain);
    }
    if a.path != b.path && b.path != c.path && less(a.path, b.path) && less(b.path, c.path) {
        lemma_less_transitive(a.path, b.path, c.path);
    }
    if less(a.name, b.name) && less(b.name, c.name) {
        lemma_less_transitive(a.name, b.name, c.name);
    }
}

/// Whether one item comes before another.
fn item_before(a: &CookieItem, b: &CookieItem) -> (r: bool)
    ensures
        r == key_less(item_key(a@), item_key(b@)),
{
    if !same(a.domain.as_str(), b.domain.as_str()) {
        before(a.domain.as_str(), b.domain.as_str())
    } else if !same(a.path.as_str(), b.path.as_str()) {
        before(a.path.as_str(), b.path.as_str())
    } else {
        before(a.name.as_str(), b.name.as_str())
    }
}

/// A cookie as it is listed.
fn item_of(c: &StoredCookie) -> (r: CookieItem)
    ensures
        item_key(r@) == key_of(c@),
        (c@.expired ==> c@.expires is Some) ==> shows(r@, held_of(c@)),
{
    CookieItem {
        domain: copy_text(c.domain.as_str()),
        path: copy_text(c.path.as_str()),
        name: copy_text(c.name.as_str()),
        value: copy_text(c.value.as_str()),
        secure: match c.secure {
            Some(b) => b,
            None => false,
        },
        expires_ms: match c.expires {
            Some(s) => if s < 0 {
                None
            } else if s as u64 > u64::MAX / 1000 {
                Some(u64::MAX)
            } else {
                Some(s as u64 * 1000)
            },
            None => None,
        },
        expired: c.expired,
        host_only: c.host_only,
    }
}

/// Puts an item in its place in a list.
fn place_item(out: &mut Vec<CookieItem>, it: CookieItem)
    requires
        in_key_order(views(old(out)@)),
        forall|i: int| 0 <= i < old(out)@.len() ==> item_key((#[trigger] old(out)@[i])@) != item_key(it@),
    ensures
        in_key_order(views(final(out)@)),
        exists|p: int|
            0 <= p <= old(out)@.len() && #[trigger] final(out)@ == old(out)@.insert(p, it),
{
    let ghost start = out@;
    let mut p: usize = 0;
    while p < out.len() && item_before(&out[p], &it)
        invariant
            p <= out@.len(),
            out@ == start,
            forall|i: int| 0 <= i < p ==> key_less(item_key((#[trigger] start[i])@), item_key(it@)),
        decreases out@.len() - p,
    {
        p = p + 1;
    }
    proof {
        let w = views(start);
        let n = start.insert(p as int, it);
        assert forall|i: int, j: int| 0 <= i < j < n.len() implies key_less(
            item_key(#[trigger] views(n)[i]),
            item_key(#[trigger] views(n)[j]),
        ) by {
            let a = if i < p {
                start[i]@
            } else if i == p {
                it@
            } else {
                start[i - 1]@
            };
            let b = if j < p {
                start[j]@
            } else if j == p {
                it@
            } else {
                start[j - 1]@
            };
            assert(views(n)[i] == a && views(n)[j] == b);
            if i < p && j < p {
                assert(key_less(item_key(w[i]), item_key(w[j])));
            } else if i < p && j == p {
            } else if i < p {
                assert(key_less(item_key(w[i]), item_key(w[j - 1])));
            } else if i == p {
                lemma_key_total(item_key(start[p as int]@), item_key(it@));
                if j - 1 > p {
                    assert(key_less(item_key(w[p as int]), item_key(w[j - 1])));
                    lemma_key_transitive(
                        item_key(it@),
                        item_key(start[p as int]@),
                        item_key(start[j - 1]@),
                    );
                }
            } else {
                assert(key_less(item_key(w[i - 1]), item_key(w[j - 1])));
            }
        }
    }
    out.insert(p, it);
}

/// What the first `n` cookies of a list hold.
spec fn first_held(w: Seq<StoredCookieView>, n: nat) -> Map<CookieKeyView, HeldCookie>
    decreases n,
{
    if n == 0 || n > w.len() {
        nothing_held()
    } else {
        first_held(w, (n - 1) as nat).insert(key_of(w[n - 1]), held_of(w[n - 1]))
    }
}

proof fn lemma_first_held(w: Seq<StoredCookieView>, n: nat, m: Map<CookieKeyView, HeldCookie>)
    requires
        n <= w.len(),
        lists(w, m),
    ensures
        forall|k: CookieKeyView| #[trigger]
            first_held(w, n).contains_key(k) ==> m.contains_key(k) && first_held(w, n)[k] == m[k],
        forall|i: int| 0 <= i < n ==> first_held(w, n).contains_key(key_of(#[trigger] w[i])),
        forall|i: int| n <= i < w.len() ==> !first_held(w, n).contains_key(key_of(#[trigger] w[i])),
    decreases n,
{
    if n > 0 {
        lemma_first_held(w, (n - 1) as nat, m);
        assert forall|i: int| n <= i < w.len() implies !first_held(w, n).contains_key(
            key_of(#[trigger] w[i]),
        ) by {
            assert(key_of(w[n - 1]) != key_of(w[i]));
        }
    }
}

proof fn lemma_placed(
    v: Seq<CookieItemView>,
    m: Map<CookieKeyView, HeldCookie>,
    it: CookieItemView,
    h: HeldCookie,
    p: int,
)
    requires
        is_list_of(v, m),
        0 <= p <= v.len(),
        in_key_order(v.insert(p, it)),
        shows(it, h),
    ensures
        !m.contains_key(item_key(it)) ==> is_list_of(v.insert(p, it), m.insert(item_key(it), h)),
{
    if !m.contains_key(item_key(it)) {
        let v2 = v.insert(p, it);
        let m2 = m.insert(item_key(it), h);
        assert forall|i: int| 0 <= i < v2.len() implies m2.contains_key(item_key(#[trigger] v2[i]))
            && shows(v2[i], m2[item_key(v2[i])]) by {
            if i < p {
                assert(v2[i] == v[i]);
            } else if i > p {
                assert(v2[i] == v[i - 1]);
            }
        }
        assert forall|k: CookieKeyView| #[trigger] m2.contains_key(k) implies exists|i: int|
            0 <= i < v2.len() && item_key(#[trigger] v2[i]) == k by {
            if k == item_key(it) {
                assert(v2[p] == it);
            } else {
                let i = choose|i: int| 0 <= i < v.len() && item_key(#[trigger] v[i]) == k;
                if i < p {
                    assert(v2[i] == v[i]);
                } else {
                    assert(v2[i + 1] == v[i]);
                }
            }
        }
    }
}

/// Cookies as they are listed, in order.
fn in_order(raw: &Vec<StoredCookie>, Ghost(m): Ghost<Map<CookieKeyView, HeldCookie>>) -> (r: Vec<
    CookieItem,
>)
    requires
        lists(views(raw@), m),
    ensures
        is_list_of(views(r@), m),
        r@.len() == raw@.len(),
{
    let mut out: Vec<CookieItem> = Vec::new();
    let ghost w = views(raw@);
    let mut i: usize = 0;
    while i < raw.len()
        invariant
            i <= raw@.len(),
            w == views(raw@),
            lists(w, m),
            out@.len() == i,
            is_list_of(views(out@), first_held(w, i as nat)),
        decreases raw@.len() - i,
    {
        let it: CookieItem = item_of(&raw[i]);
        let ghost was = out@;
        let ghost iv = it;
        let ghost so_far = first_held(w, i as nat);
        proof {
            assert(w[i as int] == raw@[i as int]@);
            lemma_first_held(w, i as nat, m);
            assert forall|a: int| 0 <= a < out@.len() implies item_key((#[trigger] out@[a])@) != item_key(
                it@,
            ) by {
                assert(so_far.contains_key(item_key(views(out@)[a])));
            }
        }
        place_item(&mut out, it);
        proof {
            let p = choose|p: int| 0 <= p <= was.len() && #[trigger] out@ == was.insert(p, iv);
            assert(views(out@) =~= views(was).insert(p, iv@));
            lemma_placed(views(was), so_far, iv@, held_of(w[i as int]), p);
        }
        i = i + 1;
    }
    proof {
        lemma_first_held(w, w.len(), m);
        assert forall|k: CookieKeyView| m.contains_key(k) implies first_held(w, w.len()).contains_key(
            k,
        ) by {
            let b = choose|b: int| 0 <= b < w.len() && key_of(#[trigger] w[b]) == k;
            assert(first_held(w, w.len()).contains_key(key_of(w[b])));
        }
        assert(first_held(w, w.len()) =~= m);
    }
    out
}

// ---- entering --------------------------------------------------------------------------

/// A text without the dots at its front.
pub open spec fn no_front_dots(s: Seq<char>) -> Seq<char>
    decreases s.len(),
{
    if s.len() > 0 && s[0] == '.' {
        no_front_dots(s.skip(1))
    } else {
        s
    }
}

fn strip_dots(s: &str) -> (r: String)
    ensures
        r@ == no_front_dots(s@),
{
    let cs: Vec<char> = chars_of(s);
    let mut i: usize = 0;
    assert(cs@.skip(0) =~= cs@);
    while i < cs.len() && cs[i] == '.'
        invariant
            cs@ == s@,
            i <= cs@.len(),
            no_front_dots(s@) == no_front_dots(cs@.skip(i as int)),
        decreases cs@.len() - i,
    {
        assert(cs@.skip(i as int).skip(1) =~= cs@.skip(i + 1));
        i = i + 1;
    }
    let r: String = sub_text(cs.as_slice(), i, cs.len());
    assert(r@ =~= cs@.skip(i as int));
    r
}

/// The path of a cookie that is entered.
pub open spec fn entered_path(path: Seq<char>) -> Seq<char> {
    if is_blank(path) {
        "/"@
    } else {
        trim(path)
    }
}

/// The line of a `Set-Cookie` header for a cookie. A domain is named only where it covers its
/// subdomains.
pub open spec fn cookie_line(item: CookieInputView) -> Seq<char> {
    trim(item.name) + "="@ + item.value + "; Path="@ + entered_path(item.path) + (if begins(
        trim(item.domain),
        "."@,
    ) {
        "; Domain="@ + trim(item.domain)
    } else {
        seq![]
    }) + (if item.secure {
        "; Secure"@
    } else {
        seq![]
    }) + (match item.expires_ms {
        Some(ms) => "; Expires="@ + http_date_text(ms as nat),
        None => seq![],
    })
}

/// The address that a cookie is taken to come from: a secure one comes from a secure page.
pub open spec fn cookie_url(item: CookieInputView) -> Seq<char> {
    (if item.secure {
        "https"@
    } else {
        "http"@
    }) + "://"@ + no_front_dots(trim(item.domain)) + entered_path(item.path)
}

/// What is handed to the store for a cookie that is entered, or why it cannot be entered.
pub open spec fn request_for(item: CookieInputView) -> Result<CookieRequestView, Seq<char>> {
    let host = no_front_dots(trim(item.domain));
    if is_blank(item.name) {
        Err("Cookie 名不能为空"@)
    } else if host.len() == 0 {
        Err("域不能为空"@)
    } else if !begins(entered_path(item.path), "/"@) {
        Err("路径要以 / 开头"@)
    } else {
        Ok(
            CookieRequestView {
                line: cookie_line(item),
                url: cookie_url(item),
                domain: trim(item.domain),
                key: CookieKeyView {
                    domain: lowercase(host),
                    path: entered_path(item.path),
                    name: trim(item.name),
                },
            },
        )
    }
}

/// The view of a request that may not have been made.
pub open spec fn seen_request(r: Result<CookieRequest, String>) -> Result<CookieRequestView, Seq<char>> {
    match r {
        Ok(q) => Ok(q@),
        Err(e) => Err(e@),
    }
}

/// The line of a `Set-Cookie` header for a cookie.
fn line_of(item: &CookieInput) -> (r: String)
    ensures
        r@ == cookie_line(item@),
{
    let domain: String = trimmed(item.domain.as_str());
    let mut line: String = trimmed(item.name.as_str());
    line.push_str("=");
    line.push_str(item.value.as_str());
    line.push_str("; Path=");
    line.push_str(path_of(item).as_str());
    let ghost head = line@;
    let ghost d = if begins(trim(item@.domain), "."@) {
        "; Domain="@ + trim(item@.domain)
    } else {
        seq![]
    };
    if starts_with(domain.as_str(), ".") {
        line.push_str("; Domain=");
        line.push_str(domain.as_str());
    }
    assert(line@ =~= head + d);
    let ghost s = if item@.secure {
        "; Secure"@
    } else {
        seq![]
    };
    if item.secure {
        line.push_str("; Secure");
    }
    assert(line@ =~= head + d + s);
    if let Some(ms) = item.expires_ms {
        line.push_str("; Expires=");
        line.push_str(http_date(ms).as_str());
    }
    assert(line@ =~= cookie_line(item@));
    line
}

fn path_of(item: &CookieInput) -> (r: String)
    ensures
        r@ == entered_path(item@.path),
{
    if blank(item.path.as_str()) {
        copy_text("/")
    } else {
        trimmed(item.path.as_str())
    }
}

/// What is handed to the store for a cookie that is entered.
pub fn cookie_request(item: &CookieInput) -> (r: Result<CookieRequest, String>)
    ensures
        seen_request(r) == request_for(item@),
{
    if blank(item.name.as_str()) {
        return Err(copy_text("Cookie 名不能为空"));
    }
    let domain: String = trimmed(item.domain.as_str());
    let host: String = strip_dots(domain.as_str());
    if empty(host.as_str()) {
        return Err(copy_text("域不能为空"));
    }
    let path: String = path_of(item);
    if !starts_with(path.as_str(), "/") {
        return Err(copy_text("路径要以 / 开头"));
    }
    let mut url: String = copy_text(if item.secure {
        "https"
    } else {
        "http"
    });
    url.push_str("://");
    url.push_str(host.as_str());
    url.push_str(path.as_str());
    assert(url@ =~= cookie_url(item@));
    Ok(
        CookieRequest {
            line: line_of(item),
            url,
            domain,
            key: CookieKey {
                domain: to_lowercase(host.as_str()),
                path,
                name: trimmed(item.name.as_str()),
            },
        },
    )
}

/// What is handed to the store for a cookie that is entered, where the address and the line can
/// be read.
pub open spec fn ready(item: CookieInputView) -> Result<CookieRequestView, Seq<char>> {
    match request_for(item) {
        Err(e) => Err(e),
        Ok(q) => match url_problem(q.url) {
            Some(e) => Err("域不合法（"@ + q.domain + "）: "@ + e),
            None => match line_problem(q.line) {
                Some(e) => Err("Cookie 不合法: "@ + e),
                None => Ok(q),
            },
        },
    }
}

/// What is handed to the store for a cookie that is entered, where the address and the line can
/// be read.
fn ready_request(item: &CookieInput) -> (r: Result<CookieRequest, String>)
    ensures
        seen_request(r) == ready(item@),
        r is Ok ==> url_problem(r->Ok_0.url@) is None,
{
    let q: CookieRequest = match cookie_request(item) {
        Ok(q) => q,
        Err(e) => {
            return Err(e);
        },
    };
    if let Some(e) = url_error(q.url.as_str()) {
        let mut m: String = copy_text("域不合法（");
        m.push_str(q.domain.as_str());
        m.push_str("）: ");
        m.push_str(e.as_str());
        return Err(m);
    }
    if let Some(e) = line_error(q.line.as_str()) {
        return Err(cat("Cookie 不合法: ", e.as_str()));
    }
    Ok(q)
}

/// What is said of a cookie that the store does not take.
pub open spec fn refusal_text(f: RefusalView, domain: Seq<char>) -> Seq<char> {
    match f {
        RefusalView::Expired => "过期时间已经过去了，这条 cookie 存不下"@,
        RefusalView::DomainMismatch => "域 "@ + domain + " 与该 cookie 不匹配"@,
        RefusalView::Other(e) => "保存失败: "@ + e,
    }
}

/// What is said of a cookie that the store does not take.
pub fn refusal_message(f: &Refusal, domain: &str) -> (r: String)
    ensures
        r@ == refusal_text(f@, domain@),
{
    match f {
        Refusal::Expired => copy_text("过期时间已经过去了，这条 cookie 存不下"),
        Refusal::DomainMismatch => {
            let mut m: String = copy_text("域 ");
            m.push_str(domain);
            m.push_str(" 与该 cookie 不匹配");
            m
        },
        Refusal::Other(e) => cat("保存失败: ", e.as_str()),
    }
}

/// Whether a store went from one content to another by taking a line: the cookie that the line
/// is read as is held, or has ended the one that was held under its key, and no other changed.
pub open spec fn took(
    before: Map<CookieKeyView, HeldCookie>,
    after: Map<CookieKeyView, HeldCookie>,
    line: Seq<char>,
    url: Seq<char>,
) -> bool {
    cookie_in(line, url) is Ok && ({
        let (k, c) = cookie_in(line, url)->Ok_0;
        &&& after.contains_key(k)
        &&& after.remove(k) == before.remove(k)
        &&& as_read(after[k], c, line) || (!lasting(line) && c.expires is Some
            && before.contains_key(k) && after[k] == ended(before[k]))
    })
}

/// Whether a line that can be read is taken whatever the time is: it comes over HTTP, and it
/// never expires or there is a cookie that never expires to be ended.
pub open spec fn surely_taken(
    m: Map<CookieKeyView, HeldCookie>,
    line: Seq<char>,
    url: Seq<char>,
) -> bool {
    let k = cookie_in(line, url)->Ok_0.0;
    is_http(url) && (lasting(line) || (m.contains_key(k) && m[k].expires is None))
}

/// Whether a store went from one content to another by one line: a line that cannot be read, or
/// does not belong to the address, changes nothing; another is taken, or else it was refused
/// because it has expired.
pub open spec fn line_step(
    before: Map<CookieKeyView, HeldCookie>,
    after: Map<CookieKeyView, HeldCookie>,
    line: Seq<char>,
    url: Seq<char>,
) -> bool {
    if line_problem(line) is Some || cookie_in(line, url) is Err {
        after == before
    } else {
        took(before, after, line, url) || (after == before && !surely_taken(before, line, url))
    }
}

/// A cookie that never expires is held as it was read, and no other changes.
pub proof fn law_lasting_is_held(
    before: Map<CookieKeyView, HeldCookie>,
    after: Map<CookieKeyView, HeldCookie>,
    line: Seq<char>,
    url: Seq<char>,
)
    requires
        took(before, after, line, url),
        lasting(line),
    ensures
        after == before.insert(cookie_in(line, url)->Ok_0.0, cookie_in(line, url)->Ok_0.1),
{
    let (k, c) = cookie_in(line, url)->Ok_0;
    assert(after[k] =~= c);
    assert forall|x: CookieKeyView| after.contains_key(x) <==> before.insert(k, c).contains_key(x) by {
        if x != k {
            assert(after.remove(k).contains_key(x) <==> before.remove(k).contains_key(x));
        }
    }
    assert forall|x: CookieKeyView| after.contains_key(x) implies after[x] == before.insert(k, c)[x] by {
        if x != k {
            assert(after.remove(k)[x] == before.remove(k)[x]);
        }
    }
    assert(after =~= before.insert(k, c));
}

/// What is said where a cookie that is entered is refused; nothing where it is taken. Only one
/// that can expire is refused for the time.
pub open spec fn refused(q: CookieRequestView, e: Option<Seq<char>>) -> bool {
    match cookie_in(q.line, q.url) {
        Err(f) => e == Some(refusal_text(f, q.domain)),
        Ok(_) => e is Some ==> !lasting(q.line) && e == Some(
            refusal_text(RefusalView::Expired, q.domain),
        ),
    }
}

proof fn lemma_entered_over_http(item: CookieInputView)
    ensures
        is_http(cookie_url(item)),
{
    reveal_strlit("http");
    reveal_strlit("https");
    reveal_strlit("://");
    reveal_strlit("http:");
    reveal_strlit("https:");
    let u = cookie_url(item);
    let l = lower(u);
    if item.secure {
        assert(l.subrange(0, 6) =~= "https:"@);
    } else {
        assert(l.subrange(0, 5) =~= "http:"@);
    }
}

/// Whether a store went from one content to another by a cookie that was entered.
pub open spec fn input_step(
    before: Map<CookieKeyView, HeldCookie>,
    after: Map<CookieKeyView, HeldCookie>,
    item: CookieInputView,
) -> bool {
    match ready(item) {
        Ok(q) => line_step(before, after, q.line, q.url),
        Err(_) => after == before,
    }
}

/// Enters a cookie into a store, and gives its key.
fn insert_into(s: &mut cookie_store::CookieStore, item: &CookieInput) -> (r: Result<CookieKey, String>)
    requires
        without_suffixes(*old(s)),
    ensures
        without_suffixes(*final(s)),
        r is Err ==> held(*final(s)) == held(*old(s)),
        match ready(item@) {
            Err(e) => r is Err && r->Err_0@ == e,
            Ok(q) => match r {
                Ok(k) => refused(q, None) && k@ == q.key && took(
                    held(*old(s)),
                    held(*final(s)),
                    q.line,
                    q.url,
                ),
                Err(e) => refused(q, Some(e@)),
            },
        },
        input_step(held(*old(s)), held(*final(s)), item@),
{
    let q: CookieRequest = match ready_request(item) {
        Ok(q) => q,
        Err(e) => {
            return Err(e);
        },
    };
    let ghost qv = q@;
    proof {
        lemma_entered_over_http(item@);
    }
    match store_line(s, q.line.as_str(), q.url.as_str()) {
        Ok(_) => {
            assert(took(held(*old(s)), held(*s), qv.line, qv.url));
            Ok(q.key)
        },
        Err(f) => {
            let e: String = refusal_message(&f, q.domain.as_str());
            assert(e@ == refusal_text(f@, qv.domain));
            Err(e)
        },
    }
}

// ---- the jar ---------------------------------------------------------------------------

/// A jar of cookies, and whether it has changed since it was written.
#[derive(Debug)]
pub struct CookieJar {
    store: cookie_store::CookieStore,
    dirty: bool,
}

impl View for CookieJar {
    type V = Map<CookieKeyView, HeldCookie>;

    closed spec fn view(&self) -> Map<CookieKeyView, HeldCookie> {
        held(self.store)
    }
}

/// Whether a key is that of a cookie of a domain.
pub open spec fn of_domain(d: Seq<char>) -> Set<CookieKeyView> {
    Set::new(|k: CookieKeyView| k.domain == d)
}

impl CookieJar {
    /// Whether the jar is one that the library made.
    pub closed spec fn wf(&self) -> bool {
        without_suffixes(self.store)
    }

    /// Whether the jar has changed since it was written.
    pub closed spec fn changed(&self) -> bool {
        self.dirty
    }

    /// A jar without cookies.
    pub fn new() -> (r: Self)
        ensures
            r.wf(),
            r@ == nothing_held(),
            !r.changed(),
    {
        CookieJar { store: empty_store(), dirty: false }
    }

    /// The jar of an older file. It has to be written in the new form.
    pub fn from_older(text: &str) -> (r: Option<Self>)
        ensures
            (match r {
                Some(j) => Some(j@),
                None => None,
            }) == older_cookies(text@),
            r is Some ==> r->0.wf() && r->0.changed(),
    {
        match older_store(text) {
            Some(store) => Some(CookieJar { store, dirty: true }),
            None => None,
        }
    }

    /// Whether the jar has changed since it was written.
    pub fn is_dirty(&self) -> (r: bool)
        ensures
            r == self.changed(),
    {
        self.dirty
    }

    /// Takes the jar as written.
    pub fn mark_written(&mut self)
        ensures
            final(self)@ == old(self)@,
            final(self).wf() == old(self).wf(),
            !final(self).changed(),
    {
        self.dirty = false;
    }

    /// All cookies, expired ones among them, by domain, path and name.
    pub fn list(&self) -> (r: Vec<CookieItem>)
        ensures
            is_list_of(views(r@), self@),
    {
        let raw: Vec<StoredCookie> = stored(&self.store);
        in_order(&raw, Ghost(held(self.store)))
    }

    /// The value of the `Cookie` header for an address; nothing where no cookie goes along.
    pub fn header_for(&self, url: &str) -> (r: Option<String>)
        ensures
            match r {
                Some(h) => url_problem(trim(url@)) is None && exists|v: Seq<KvPairView>| #[trigger]
                    goes_to_url(v, self@, trim(url@)) && header_of(v) == Some(h@),
                None => url_problem(trim(url@)) is Some || exists|v: Seq<KvPairView>| #[trigger]
                    goes_to_url(v, self@, trim(url@)) && header_of(v) is None,
            },
    {
        let u: String = trimmed(url);
        match matching(&self.store, u.as_str()) {
            Some(v) => {
                assert(goes_to_url(views(v@), self@, trim(url@)));
                cookie_header(&v)
            },
            None => None,
        }
    }

    /// Enters a cookie. Where it takes the place of another (`prev`), that one is removed; a
    /// cookie that is refused changes nothing.
    pub fn put(&mut self, prev: Option<&CookieKey>, item: &CookieInput) -> (r: Result<(), String>)
        requires
            old(self).wf(),
        ensures
            final(self).wf(),
            r is Err ==> final(self)@ == old(self)@,
            r is Ok ==> final(self).changed(),
            r is Err ==> final(self).changed() == old(self).changed() && input_step(
                old(self)@,
                final(self)@,
                item@,
            ),
            match ready(item@) {
                Err(e) => r is Err && r->Err_0@ == e,
                Ok(q) => match r {
                    Ok(_) => refused(q, None) && exists|m: Map<CookieKeyView, HeldCookie>| #[trigger]
                        took(old(self)@, m, q.line, q.url) && final(self)@ == (match prev {
                            Some(p) => if p@ == q.key {
                                m
                            } else {
                                m.remove(p@)
                            },
                            None => m,
                        }),
                    Err(e) => refused(q, Some(e@)),
                },
            },
    {
        let key: CookieKey = match insert_into(&mut self.store, item) {
            Ok(k) => k,
            Err(e) => {
                return Err(e);
            },
        };
        let ghost q = ready(item@)->Ok_0;
        let ghost m = held(self.store);
        assert(took(old(self)@, m, q.line, q.url));
        if let Some(p) = prev {
            let same_key: bool = same(p.domain.as_str(), key.domain.as_str()) && same(
                p.path.as_str(),
                key.path.as_str(),
            ) && same(p.name.as_str(), key.name.as_str());
            assert(same_key <==> p@ =~= key@);
            if !same_key {
                let there: bool = drop_cookie(
                    &mut self.store,
                    p.domain.as_str(),
                    p.path.as_str(),
                    p.name.as_str(),
                );
                assert(p@ =~= CookieKeyView { domain: p.domain@, path: p.path@, name: p.name@ });
            }
        }
        self.dirty = true;
        Ok(())
    }

    /// Removes a cookie, and says whether it was there.
    pub fn remove(&mut self, domain: &str, path: &str, name: &str) -> (r: bool)
        ensures
            final(self).wf() == old(self).wf(),
            r == old(self)@.contains_key(
                CookieKeyView { domain: domain@, path: path@, name: name@ },
            ),
            final(self)@ == old(self)@.remove(
                CookieKeyView { domain: domain@, path: path@, name: name@ },
            ),
            final(self).changed() == (old(self).changed() || r),
    {
        let removed: bool = drop_cookie(&mut self.store, domain, path, name);
        if removed {
            self.dirty = true;
        }
        removed
    }

    /// Removes the cookies of keys.
    fn forget(&mut self, gone: &Vec<CookieKey>)
        ensures
            final(self).wf() == old(self).wf(),
            final(self)@ == old(self)@.remove_keys(views(gone@).to_set()),
            final(self).dirty == old(self).dirty,
    {
        let ghost w = views(gone@);
        let mut i: usize = 0;
        assert(w.take(0).to_set() =~= Set::empty());
        assert(self@ =~= old(self)@.remove_keys(w.take(0).to_set()));
        while i < gone.len()
            invariant
                i <= gone@.len(),
                w == views(gone@),
                self.wf() == old(self).wf(),
                self@ == old(self)@.remove_keys(w.take(i as int).to_set()),
                self.dirty == old(self).dirty,
            decreases gone@.len() - i,
        {
            let k: &CookieKey = &gone[i];
            let ghost was = self@;
            let there: bool = drop_cookie(
                &mut self.store,
                k.domain.as_str(),
                k.path.as_str(),
                k.name.as_str(),
            );
            proof {
                assert(k@ =~= CookieKeyView { domain: k.domain@, path: k.path@, name: k.name@ });
                assert(w.take(i + 1) =~= w.take(i as int).push(k@));
                assert(w.take(i + 1).to_set() =~= w.take(i as int).to_set().insert(k@)) by {
                    assert forall|x: CookieKeyView| w.take(i + 1).to_set().contains(x) <==> w.take(
                        i as int,
                    ).to_set().insert(k@).contains(x) by {
                        let t = w.take(i as int);
                        if t.push(k@).contains(x) && x != k@ {
                            let j = choose|j: int| 0 <= j < t.push(k@).len() && t.push(k@)[j] == x;
                            assert(t[j] == x);
                        }
                        if t.contains(x) {
                            let j = choose|j: int| 0 <= j < t.len() && t[j] == x;
                            assert(t.push(k@)[j] == x);
                        }
                        assert(t.push(k@)[t.len() as int] == k@);
                    }
                }
                assert(self@ =~= old(self)@.remove_keys(w.take(i + 1).to_set()));
            }
            i = i + 1;
        }
        assert(w.take(w.len() as int) =~= w);
    }

    /// Removes the cookies of a domain, or all cookies, and says how many.
    pub fn clear(&mut self, domain: Option<&str>) -> (r: usize)
        ensures
            final(self).wf() == old(self).wf(),
            match domain {
                Some(d) => final(self)@ == old(self)@.remove_keys(of_domain(d@)) && r
                    == old(self)@.dom().intersect(of_domain(d@)).len(),
                None => final(self)@ == nothing_held() && r == old(self)@.dom().len(),
            },
            final(self).changed() == (old(self).changed() || r > 0),
    {
        let items: Vec<CookieItem> = self.list();
        let n: usize = match domain {
            None => {
                let gone: Vec<CookieKey> = keys_where(&items, None, Ghost(self@));
                clear_store(&mut self.store);
                assert(old(self)@.dom() =~= views(gone@).to_set());
                proof {
                    views(gone@).unique_seq_to_set();
                }
                gone.len()
            },
            Some(d) => {
                let gone: Vec<CookieKey> = keys_where(&items, Some(d), Ghost(self@));
                self.forget(&gone);
                assert(old(self)@.dom().intersect(of_domain(d@)) =~= views(gone@).to_set());
                assert(self@ =~= old(self)@.remove_keys(of_domain(d@)));
                proof {
                    views(gone@).unique_seq_to_set();
                }
                gone.len()
            },
        };
        if n > 0 {
            self.dirty = true;
        }
        n
    }

    /// Removes the cookies that a list marks as expired.
    pub fn drop_expired(&mut self, items: &Vec<CookieItem>)
        ensures
            final(self).wf() == old(self).wf(),
            final(self).changed() == old(self).changed(),
            final(self)@ == old(self)@.remove_keys(expired_keys(views(items@))),
    {
        let ghost w = views(items@);
        let mut gone: Vec<CookieKey> = Vec::new();
        let mut i: usize = 0;
        assert(views(gone@).to_set() =~= expired_keys(w.take(0)));
        while i < items.len()
            invariant
                i <= items@.len(),
                w == views(items@),
                views(gone@).to_set() == expired_keys(w.take(i as int)),
            decreases items@.len() - i,
        {
            let ghost before = w.take(i as int);
            let ghost after = w.take(i + 1);
            assert(after =~= before.push(w[i as int]));
            assert(w[i as int] == items@[i as int]@);
            if items[i].expired {
                let k: CookieKey = key_copy(&items[i]);
                let ghost was = views(gone@);
                proof {
                    lemma_views_push(gone@, k);
                    lemma_expired_push(before, w[i as int]);
                    assert(was.push(k@).to_set() =~= was.to_set().insert(k@)) by {
                        assert forall|x: CookieKeyView| #[trigger]
                            was.to_set().insert(k@).contains(x) implies was.push(k@).to_set().contains(x) by {
                            if x == k@ {
                                assert(was.push(k@)[was.len() as int] == x);
                            } else {
                                let a = choose|a: int| 0 <= a < was.len() && was[a] == x;
                                assert(was.push(k@)[a] == x);
                            }
                        }
                    }
                }
                gone.push(k);
            } else {
                proof {
                    lemma_expired_push(before, w[i as int]);
                }
            }
            i = i + 1;
        }
        assert(w.take(w.len() as int) =~= w);
        self.forget(&gone);
    }

    /// Removes the cookies that have expired. Which have rests on the time: they are those that a
    /// list of the jar marks. None of the others is changed, and one that never expires stays.
    pub fn gc(&mut self)
        ensures
            final(self).wf() == old(self).wf(),
            final(self).changed() == old(self).changed(),
            exists|v: Seq<CookieItemView>| #[trigger]
                is_list_of(v, old(self)@) && final(self)@ == old(self)@.remove_keys(expired_keys(v)),
            forall|k: CookieKeyView| #[trigger]
                old(self)@.contains_key(k) && old(self)@[k].expires is None
                    ==> final(self)@.contains_key(k),
    {
        let items: Vec<CookieItem> = self.list();
        let ghost m = self@;
        self.drop_expired(&items);
        proof {
            let w = views(items@);
            assert forall|k: CookieKeyView| #[trigger]
                m.contains_key(k) && m[k].expires is None implies self@.contains_key(k) by {
                if expired_keys(w).contains(k) {
                    let a = choose|a: int|
                        0 <= a < w.len() && item_key(#[trigger] w[a]) == k && w[a].expired;
                    assert(shows(w[a], m[k]));
                }
            }
        }
    }

    /// Takes the `Set-Cookie` headers of a response from an address one after the other, as far
    /// as they can be read.
    pub fn receive(&mut self, lines: &Vec<String>, url: &str)
        requires
            old(self).wf(),
        ensures
            final(self).wf(),
            url_problem(url@) is Some ==> final(self)@ == old(self)@,
            url_problem(url@) is None ==> received(old(self)@, final(self)@, views(lines@), url@),
            forall|k: CookieKeyView| #[trigger]
                final(self)@.contains_key(k) ==> old(self)@.contains_key(k) || read_among(
                    views(lines@),
                    url@,
                    lines@.len() as int,
                    k,
                ),
            forall|k: CookieKeyView| #[trigger]
                old(self)@.contains_key(k) && !read_among(
                    views(lines@),
                    url@,
                    lines@.len() as int,
                    k,
                ) ==> final(self)@.contains_key(k) && final(self)@[k] == old(self)@[k],
            url_problem(url@) is None ==> forall|i: int| #[trigger]
                line_stays(views(lines@), url@, lines@.len() as int, i) ==> holds_cookie(
                    final(self)@,
                    cookie_in(views(lines@)[i], url@)->Ok_0,
                ),
            final(self).changed() == (old(self).changed() || (url_problem(url@) is None && exists|
                i: int,
            |
                0 <= i < lines@.len() && line_problem(#[trigger] views(lines@)[i]) is None)),
    {
        if url_error(url).is_some() {
            return;
        }
        let ghost w = views(lines@);
        let ghost mut t = seq![self@];
        let mut i: usize = 0;
        while i < lines.len()
            invariant
                i <= lines@.len(),
                w == views(lines@),
                url_problem(url@) is None,
                self.wf(),
                t.len() == i + 1,
                t[0] == old(self)@,
                t.last() == self@,
                forall|j: int| 0 <= j < i ==> line_step(#[trigger] t[j], t[j + 1], w[j], url@),
                forall|k: CookieKeyView| #[trigger]
                    self@.contains_key(k) ==> old(self)@.contains_key(k) || read_among(
                        w,
                        url@,
                        i as int,
                        k,
                    ),
                forall|k: CookieKeyView| #[trigger]
                    old(self)@.contains_key(k) && !read_among(w, url@, i as int, k)
                        ==> self@.contains_key(k) && self@[k] == old(self)@[k],
                forall|j: int| #[trigger]
                    line_stays(w, url@, i as int, j) ==> holds_cookie(
                        self@,
                        cookie_in(w[j], url@)->Ok_0,
                    ),
                self.dirty == (old(self).dirty || exists|j: int|
                    0 <= j < i && line_problem(#[trigger] w[j]) is None),
            decreases lines@.len() - i,
        {
            assert(w[i as int] == lines@[i as int]@);
            let ghost was = self@;
            if line_error(lines[i].as_str()).is_none() {
                let taken: Result<bool, Refusal> = store_line(
                    &mut self.store,
                    lines[i].as_str(),
                    url,
                );
                self.dirty = true;
                proof {
                    if taken is Ok {
                        assert(took(was, self@, w[i as int], url@));
                    }
                    lemma_line_read(old(self)@, was, self@, w, url@, i as int);
                }
            } else {
                proof {
                    lemma_line_read(old(self)@, was, self@, w, url@, i as int);
                }
            }
            proof {
                assert(line_step(was, self@, w[i as int], url@));
                let longer = t.push(self@);
                assert forall|j: int| 0 <= j < i + 1 implies line_step(
                    #[trigger] longer[j],
                    longer[j + 1],
                    w[j],
                    url@,
                ) by {
                    if j < i {
                        assert(longer[j] == t[j] && longer[j + 1] == t[j + 1]);
                    }
                }
                t = longer;
            }
            i = i + 1;
        }
        assert(line_course(t, w, url@));
    }
}

/// Whether a store went through contents by lines, one after the other.
pub open spec fn line_course(
    t: Seq<Map<CookieKeyView, HeldCookie>>,
    lines: Seq<Seq<char>>,
    url: Seq<char>,
) -> bool {
    &&& t.len() == lines.len() + 1
    &&& forall|i: int| 0 <= i < lines.len() ==> line_step(#[trigger] t[i], t[i + 1], lines[i], url)
}

/// Whether a store went from one content to another by the lines of a response, one after the
/// other.
pub open spec fn received(
    before: Map<CookieKeyView, HeldCookie>,
    after: Map<CookieKeyView, HeldCookie>,
    lines: Seq<Seq<char>>,
    url: Seq<char>,
) -> bool {
    exists|t: Seq<Map<CookieKeyView, HeldCookie>>| #[trigger]
        line_course(t, lines, url) && t[0] == before && t.last() == after
}

/// What a key holds after its last line: what the line says; or, where the line has expired,
/// nothing that lasts.
pub open spec fn settled_by(
    m: Map<CookieKeyView, HeldCookie>,
    line: Seq<char>,
    url: Seq<char>,
) -> bool {
    let (k, c) = cookie_in(line, url)->Ok_0;
    ||| m.contains_key(k) && as_read(m[k], c, line)
    ||| !lasting(line) && (m.contains_key(k) ==> m[k].expires is Some)
}

proof fn lemma_line_settles(
    before: Map<CookieKeyView, HeldCookie>,
    after: Map<CookieKeyView, HeldCookie>,
    line: Seq<char>,
    url: Seq<char>,
    k: CookieKeyView,
)
    requires
        line_step(before, after, line, url),
    ensures
        is_http(url) && reads_key(line, url, k) ==> settled_by(after, line, url),
        !reads_key(line, url, k) ==> (after.contains_key(k) <==> before.contains_key(k)) && (
        after.contains_key(k) ==> after[k] == before[k]),
{
    if line_problem(line) is None && cookie_in(line, url) is Ok {
        let kk = cookie_in(line, url)->Ok_0.0;
        if took(before, after, line, url) && k != kk {
            assert(after.remove(kk).contains_key(k) <==> before.remove(kk).contains_key(k));
            assert(after.remove(kk).contains_key(k) ==> after.remove(kk)[k] == before.remove(kk)[k]);
        }
    }
}

/// A later line replaces an earlier one: over HTTP a key holds after a response what its last
/// line says; or, where that line has expired, nothing that lasts, whatever stood before it.
pub proof fn law_last_line_counts(
    before: Map<CookieKeyView, HeldCookie>,
    after: Map<CookieKeyView, HeldCookie>,
    lines: Seq<Seq<char>>,
    url: Seq<char>,
    i: int,
)
    requires
        received(before, after, lines, url),
        is_http(url),
        0 <= i < lines.len(),
        line_problem(lines[i]) is None,
        cookie_in(lines[i], url) is Ok,
        forall|j: int|
            i < j < lines.len() ==> !reads_key(
                #[trigger] lines[j],
                url,
                cookie_in(lines[i], url)->Ok_0.0,
            ),
    ensures
        settled_by(after, lines[i], url),
{
    let t = choose|t: Seq<Map<CookieKeyView, HeldCookie>>| #[trigger]
        line_course(t, lines, url) && t[0] == before && t.last() == after;
    lemma_course_settles(t, lines, url, i, lines.len() as int);
}

proof fn lemma_course_settles(
    t: Seq<Map<CookieKeyView, HeldCookie>>,
    lines: Seq<Seq<char>>,
    url: Seq<char>,
    i: int,
    n: int,
)
    requires
        line_course(t, lines, url),
        is_http(url),
        0 <= i < n <= lines.len(),
        line_problem(lines[i]) is None,
        cookie_in(lines[i], url) is Ok,
        forall|j: int|
            i < j < lines.len() ==> !reads_key(
                #[trigger] lines[j],
                url,
                cookie_in(lines[i], url)->Ok_0.0,
            ),
    ensures
        settled_by(t[n], lines[i], url),
    decreases n,
{
    let k = cookie_in(lines[i], url)->Ok_0.0;
    assert(line_step(t[n - 1], t[n - 1 + 1], lines[n - 1], url));
    lemma_line_settles(t[n - 1], t[n], lines[n - 1], url, k);
    if n - 1 > i {
        lemma_course_settles(t, lines, url, i, n - 1);
        assert(!reads_key(lines[n - 1], url, k));
    }
}

/// Whether a line is read as the cookie of a key.
pub open spec fn reads_key(line: Seq<char>, url: Seq<char>, k: CookieKeyView) -> bool {
    line_problem(line) is None && cookie_in(line, url) is Ok && cookie_in(line, url)->Ok_0.0 == k
}

/// Whether one of the first `n` lines is read as the cookie of a key.
pub open spec fn read_among(lines: Seq<Seq<char>>, url: Seq<char>, n: int, k: CookieKeyView) -> bool {
    exists|i: int| 0 <= i < n && i < lines.len() && reads_key(#[trigger] lines[i], url, k)
}

/// Whether the cookie of a line outlasts the first `n` lines of a response over HTTP: it can be
/// read, it never expires, and no later line has its key.
pub open spec fn line_stays(lines: Seq<Seq<char>>, url: Seq<char>, n: int, i: int) -> bool {
    &&& 0 <= i < n <= lines.len()
    &&& is_http(url)
    &&& line_problem(lines[i]) is None
    &&& cookie_in(lines[i], url) is Ok
    &&& lasting(lines[i])
    &&& forall|j: int|
        i < j < n ==> !reads_key(#[trigger] lines[j], url, cookie_in(lines[i], url)->Ok_0.0)
}

/// Whether a cookie is among those that are held.
pub open spec fn holds_cookie(
    m: Map<CookieKeyView, HeldCookie>,
    c: (CookieKeyView, HeldCookie),
) -> bool {
    m.contains_key(c.0) && m[c.0] == c.1
}

proof fn lemma_line_read(
    first: Map<CookieKeyView, HeldCookie>,
    was: Map<CookieKeyView, HeldCookie>,
    now: Map<CookieKeyView, HeldCookie>,
    w: Seq<Seq<char>>,
    url: Seq<char>,
    i: int,
)
    requires
        0 <= i < w.len(),
        now == was || (line_problem(w[i]) is None && took(was, now, w[i], url)),
        line_problem(w[i]) is None && cookie_in(w[i], url) is Ok && is_http(url) && lasting(w[i])
            ==> took(was, now, w[i], url),
        forall|k: CookieKeyView| #[trigger]
            was.contains_key(k) ==> first.contains_key(k) || read_among(w, url, i, k),
        forall|k: CookieKeyView| #[trigger]
            first.contains_key(k) && !read_among(w, url, i, k) ==> was.contains_key(k) && was[k]
                == first[k],
        forall|j: int| #[trigger]
            line_stays(w, url, i, j) ==> holds_cookie(was, cookie_in(w[j], url)->Ok_0),
    ensures
        forall|k: CookieKeyView| #[trigger]
            now.contains_key(k) ==> first.contains_key(k) || read_among(w, url, i + 1, k),
        forall|k: CookieKeyView| #[trigger]
            first.contains_key(k) && !read_among(w, url, i + 1, k) ==> now.contains_key(k) && now[k]
                == first[k],
        forall|j: int| #[trigger]
            line_stays(w, url, i + 1, j) ==> holds_cookie(now, cookie_in(w[j], url)->Ok_0),
{
    assert forall|k: CookieKeyView| read_among(w, url, i, k) implies read_among(w, url, i + 1, k) by {
        let j = choose|j: int| 0 <= j < i && j < w.len() && reads_key(#[trigger] w[j], url, k);
        assert(reads_key(w[j], url, k));
    }
    let kk = cookie_in(w[i], url)->Ok_0.0;
    assert forall|k: CookieKeyView| #[trigger] now.contains_key(k) implies first.contains_key(k)
        || read_among(w, url, i + 1, k) by {
        if !was.contains_key(k) {
            if k != kk {
                assert(now.remove(kk).contains_key(k));
                assert(was.remove(kk).contains_key(k));
            }
            assert(reads_key(w[i], url, k));
        }
    }
    assert forall|k: CookieKeyView| #[trigger]
        first.contains_key(k) && !read_among(w, url, i + 1, k) implies now.contains_key(k) && now[k]
        == first[k] by {
        assert(was.contains_key(k) && was[k] == first[k]);
        if now != was {
            assert(!reads_key(w[i], url, k));
            assert(k != kk);
            assert(was.remove(kk).contains_key(k) && was.remove(kk)[k] == was[k]);
            assert(now.remove(kk).contains_key(k) && now.remove(kk)[k] == now[k]);
        }
    }
    assert forall|j: int| #[trigger] line_stays(w, url, i + 1, j) implies holds_cookie(
        now,
        cookie_in(w[j], url)->Ok_0,
    ) by {
        let c = cookie_in(w[j], url)->Ok_0;
        if j == i {
            law_lasting_is_held(was, now, w[i], url);
        } else {
            assert forall|x: int| j < x < i implies !reads_key(#[trigger] w[x], url, c.0) by {
                assert(x < i + 1);
            }
            assert(line_stays(w, url, i, j));
            assert(!reads_key(w[i], url, c.0));
            if now != was {
                assert(c.0 != kk);
                assert(was.remove(kk).contains_key(c.0) && was.remove(kk)[c.0] == was[c.0]);
                assert(now.remove(kk).contains_key(c.0) && now.remove(kk)[c.0] == now[c.0]);
            }
        }
    }
}

/// Whether pairs are the cookies of a jar that go along to an address.
pub open spec fn goes_to_url(
    v: Seq<KvPairView>,
    m: Map<CookieKeyView, HeldCookie>,
    url: Seq<char>,
) -> bool {
    goes_along(v, m, |k: CookieKeyView| goes_to(k, m[k].secure, m[k].host_only, url), url)
}

fn key_copy(it: &CookieItem) -> (r: CookieKey)
    ensures
        r@ == item_key(it@),
{
    CookieKey {
        domain: copy_text(it.domain.as_str()),
        path: copy_text(it.path.as_str()),
        name: copy_text(it.name.as_str()),
    }
}

/// The keys of the items of a list, or of those of a domain.
fn keys_where(
    items: &Vec<CookieItem>,
    domain: Option<&str>,
    Ghost(m): Ghost<Map<CookieKeyView, HeldCookie>>,
) -> (r: Vec<CookieKey>)
    requires
        is_list_of(views(items@), m),
    ensures
        views(r@).no_duplicates(),
        forall|k: CookieKeyView|
            views(r@).contains(k) <==> m.contains_key(k) && (match domain {
                Some(d) => k.domain == d@,
                None => true,
            }),
{
    let mut out: Vec<CookieKey> = Vec::new();
    let ghost w = views(items@);
    let mut i: usize = 0;
    while i < items.len()
        invariant
            i <= items@.len(),
            w == views(items@),
            is_list_of(w, m),
            forall|a: int, b: int|
                0 <= a < b < out@.len() ==> (#[trigger] out@[a])@ != (#[trigger] out@[b])@,
            forall|a: int|
                0 <= a < out@.len() ==> exists|j: int|
                    0 <= j < i && item_key(#[trigger] w[j]) == (#[trigger] out@[a])@ && (match domain {
                        Some(d) => w[j].domain == d@,
                        None => true,
                    }),
            forall|j: int|
                0 <= j < i && (match domain {
                    Some(d) => (#[trigger] w[j]).domain == d@,
                    None => true,
                }) ==> exists|a: int| 0 <= a < out@.len() && (#[trigger] out@[a])@ == item_key(w[j]),
        decreases items@.len() - i,
    {
        let it: &CookieItem = &items[i];
        assert(w[i as int] == it@);
        let take: bool = match domain {
            Some(d) => same(it.domain.as_str(), d),
            None => true,
        };
        if take {
            let k: CookieKey = key_copy(it);
            proof {
                assert forall|a: int| 0 <= a < out@.len() implies (#[trigger] out@[a])@ != k@ by {
                    let j = choose|j: int|
                        0 <= j < i && item_key(#[trigger] w[j]) == out@[a]@ && (match domain {
                            Some(d) => w[j].domain == d@,
                            None => true,
                        });
                    assert(key_less(item_key(w[j]), item_key(w[i as int])));
                    lemma_key_total(item_key(w[j]), item_key(w[j]));
                }
            }
            let ghost was = out@;
            out.push(k);
            proof {
                assert forall|j: int|
                    0 <= j < i + 1 && (match domain {
                        Some(d) => (#[trigger] w[j]).domain == d@,
                        None => true,
                    }) implies exists|a: int|
                    0 <= a < out@.len() && (#[trigger] out@[a])@ == item_key(w[j]) by {
                    if j < i {
                        let a = choose|a: int|
                            0 <= a < was.len() && (#[trigger] was[a])@ == item_key(w[j]);
                        assert(out@[a] == was[a]);
                    } else {
                        assert(out@[was.len() as int]@ == item_key(w[j]));
                    }
                }
            }
        }
        i = i + 1;
    }
    proof {
        let v = views(out@);
        assert forall|a: int, b: int| 0 <= a < v.len() && 0 <= b < v.len() && a != b implies v[a] != v[b] by {
            if a < b {
                assert(out@[a]@ != out@[b]@);
            } else {
                assert(out@[b]@ != out@[a]@);
            }
        }
        assert forall|k: CookieKeyView| v.contains(k) <==> m.contains_key(k) && (match domain {
            Some(d) => k.domain == d@,
            None => true,
        }) by {
            if v.contains(k) {
                let a = choose|a: int| 0 <= a < v.len() && v[a] == k;
                assert(out@[a]@ == k);
                let j = choose|j: int|
                    0 <= j < i && item_key(#[trigger] w[j]) == out@[a]@ && (match domain {
                        Some(d) => w[j].domain == d@,
                        None => true,
                    });
                assert(m.contains_key(item_key(w[j])));
            }
            if m.contains_key(k) && (match domain {
                Some(d) => k.domain == d@,
                None => true,
            }) {
                let j = choose|j: int| 0 <= j < w.len() && item_key(#[trigger] w[j]) == k;
                assert(w[j].domain == k.domain);
                let a = choose|a: int| 0 <= a < out@.len() && (#[trigger] out@[a])@ == item_key(w[j]);
                assert(v[a] == k);
            }
        }
    }
    out
}

/// The texts of cookies in a header.
pub open spec fn pair_texts(v: Seq<KvPairView>) -> Seq<Seq<char>> {
    Seq::new(v.len(), |i: int| v[i].key + "="@ + v[i].value)
}

/// The value of the `Cookie` header for cookies; an empty one is none.
pub open spec fn header_of(v: Seq<KvPairView>) -> Option<Seq<char>> {
    let h = join(pair_texts(v), "; "@);
    if h.len() == 0 {
        None
    } else {
        Some(h)
    }
}

/// The value of the `Cookie` header for cookies.
pub fn cookie_header(v: &Vec<KvPair>) -> (r: Option<String>)
    ensures
        opt_view(r) == header_of(views(v@)),
{
    let mut parts: Vec<String> = Vec::new();
    let mut i: usize = 0;
    while i < v.len()
        invariant
            i <= v@.len(),
            parts@.len() == i,
            forall|k: int| 0 <= k < i ==> (#[trigger] parts@[k])@ == v@[k].key@ + "="@ + v@[k].value@,
        decreases v@.len() - i,
    {
        let mut p: String = copy_text(v[i].key.as_str());
        p.push_str("=");
        p.push_str(v[i].value.as_str());
        parts.push(p);
        i = i + 1;
    }
    assert(views(parts@) =~= pair_texts(views(v@)));
    let h: String = joined(&parts, "; ");
    if empty(h.as_str()) {
        None
    } else {
        Some(h)
    }
}

/// Whether a jar is written now: it has changed, and it was not written within the last second
/// unless the write is forced.
pub fn writes_now(dirty: bool, force: bool, since_last_ms: Option<u64>) -> (r: bool)
    ensures
        r == (dirty && (force || since_last_ms is None || since_last_ms->0 >= FLUSH_INTERVAL_MS)),
{
    dirty && (force || match since_last_ms {
        Some(ms) => ms >= FLUSH_INTERVAL_MS,
        None => true,
    })
}

// ---- the file of a jar -----------------------------------------------------------------

/// The domain of a cookie in the file of a jar: one that covers its subdomains has a dot.
pub open spec fn domain_key(c: CookieItemView) -> Seq<char> {
    if c.host_only {
        c.domain
    } else {
        "."@ + c.domain
    }
}

/// A cookie in the file of a jar. What is the default is not written.
pub open spec fn cookie_json(c: CookieItemView) -> JsonView {
    JsonView::Object(
        seq![text_member("name"@, c.name), text_member("value"@, c.value)] + (if c.path == "/"@ {
            seq![]
        } else {
            seq![text_member("path"@, c.path)]
        }) + (if c.secure {
            seq![("secure"@, JsonView::Bool(true))]
        } else {
            seq![]
        }) + (match c.expires_ms {
            Some(ms) => seq![text_member("expires"@, iso_secs_text(ms as nat))],
            None => seq![],
        }),
    )
}

/// The first `n` cookies of a list, by domain, in the order in which domains first occur.
pub open spec fn grouped(items: Seq<CookieItemView>, n: nat) -> Seq<(Seq<char>, JsonView)>
    decreases n,
{
    if n == 0 || n > items.len() {
        seq![]
    } else {
        let rest = grouped(items, (n - 1) as nat);
        let c = items[n - 1];
        put(
            rest,
            domain_key(c),
            JsonView::Array(
                (match lookup(rest, domain_key(c)) {
                    Some(JsonView::Array(a)) => a,
                    _ => seq![],
                }).push(cookie_json(c)),
            ),
        )
    }
}

/// The file of a jar. An empty jar leaves the head alone.
pub open spec fn jar_text(items: Seq<CookieItemView>) -> Seq<char> {
    if items.len() == 0 {
        FILE_HEADER@
    } else {
        FILE_HEADER@ + "\n"@ + yaml_text(JsonView::Object(grouped(items, items.len())))
    }
}

fn cookie_object(c: &CookieItem) -> (r: Json)
    ensures
        r@ == cookie_json(c@),
{
    let mut m: Vec<Member> = no_members();
    push_text(&mut m, "name", c.name.as_str());
    push_text(&mut m, "value", c.value.as_str());
    if !same(c.path.as_str(), "/") {
        push_text(&mut m, "path", c.path.as_str());
    }
    if c.secure {
        push_value(&mut m, "secure", Json::Bool(true));
    }
    if let Some(ms) = c.expires_ms {
        push_text(&mut m, "expires", iso8601_secs(ms).as_str());
    }
    assert(views(m@) =~= cookie_json(c@)->Object_0);
    object(m)
}

/// The file of a jar.
pub fn to_yaml(items: &Vec<CookieItem>) -> (r: String)
    ensures
        r@ == jar_text(views(items@)),
{
    if items.len() == 0 {
        return copy_text(FILE_HEADER);
    }
    let mut root: Vec<Member> = no_members();
    let ghost w = views(items@);
    let mut i: usize = 0;
    while i < items.len()
        invariant
            i <= items@.len(),
            w == views(items@),
            views(root@) == grouped(w, i as nat),
        decreases items@.len() - i,
    {
        let c: &CookieItem = &items[i];
        assert(w[i as int] == c@);
        let key: String = if c.host_only {
            copy_text(c.domain.as_str())
        } else {
            cat(".", c.domain.as_str())
        };
        let mut list: Vec<Json> = match member(&root, key.as_str()) {
            Some(v) => match v.as_array() {
                Some(a) => duplicates(a),
                None => Vec::new(),
            },
            None => Vec::new(),
        };
        let ghost so_far: Seq<JsonView> = match lookup(grouped(w, i as nat), domain_key(c@)) {
            Some(JsonView::Array(a)) => a,
            _ => seq![],
        };
        assert(views(list@) =~= so_far);
        let one: Json = cookie_object(c);
        proof {
            lemma_views_push(list@, one);
        }
        list.push(one);
        put_member(&mut root, key.as_str(), array(list));
        i = i + 1;
    }
    let mut out: String = copy_text(FILE_HEADER);
    out.push_str("\n");
    out.push_str(crate::emit::to_yaml(&object(root)).as_str());
    out
}

/// The text of a field that is written by hand; a missing one is empty.
pub open spec fn hand_text(m: Seq<(Seq<char>, JsonView)>, k: Seq<char>) -> Seq<char> {
    match lookup(m, k) {
        Some(v) => js_text(v),
        None => seq![],
    }
}

/// A switch that is written by hand, as a truth value or as a word.
pub open spec fn hand_flag(m: Seq<(Seq<char>, JsonView)>, k: Seq<char>) -> bool {
    match lookup(m, k) {
        Some(JsonView::Bool(b)) => b,
        Some(JsonView::Str(s)) => {
            let w = lower(trim(s));
            w == "true"@ || w == "yes"@ || w == "1"@
        },
        _ => false,
    }
}

/// When a cookie that is written by hand expires: a number is in milliseconds, a text in
/// ISO 8601.
pub open spec fn hand_expiry(m: Seq<(Seq<char>, JsonView)>) -> Option<u64> {
    match lookup(m, "expires"@) {
        Some(JsonView::Number(NumberView::Int(i))) => if 0 <= i <= u64::MAX {
            Some(i as u64)
        } else {
            None
        },
        Some(JsonView::Str(s)) => match parsed_iso(s) {
            Some(ms) => Some(ms as u64),
            None => None,
        },
        _ => None,
    }
}

/// A cookie in the file of a jar, under a domain; a domain of its own comes first.
pub open spec fn input_of(m: Seq<(Seq<char>, JsonView)>, domain: Seq<char>) -> CookieInputView {
    CookieInputView {
        domain: if is_blank(hand_text(m, "domain"@)) {
            domain
        } else {
            trim(hand_text(m, "domain"@))
        },
        path: hand_text(m, "path"@),
        name: hand_text(m, "name"@),
        value: hand_text(m, "value"@),
        secure: hand_flag(m, "secure"@),
        expires_ms: hand_expiry(m),
    }
}

/// The first `n` cookies of a list under a domain; what is no object is passed over.
pub open spec fn inputs_in(a: Seq<JsonView>, n: nat, domain: Seq<char>) -> Seq<CookieInputView>
    decreases n,
{
    if n == 0 || n > a.len() {
        seq![]
    } else {
        match a[n - 1] {
            JsonView::Object(m) => inputs_in(a, (n - 1) as nat, domain).push(input_of(m, domain)),
            _ => inputs_in(a, (n - 1) as nat, domain),
        }
    }
}

/// The cookies under the first `n` domains; a domain with one cookie needs no list.
pub open spec fn inputs_under(m: Seq<(Seq<char>, JsonView)>, n: nat) -> Seq<CookieInputView>
    decreases n,
{
    if n == 0 || n > m.len() {
        seq![]
    } else {
        let rest = inputs_under(m, (n - 1) as nat);
        match m[n - 1].1 {
            JsonView::Array(a) => rest + inputs_in(a, a.len(), m[n - 1].0),
            JsonView::Object(o) => rest.push(input_of(o, m[n - 1].0)),
            _ => rest,
        }
    }
}

/// The cookies in the file of a jar: by domain, or as a list in which each names its domain.
pub open spec fn inputs_read(v: JsonView) -> Seq<CookieInputView> {
    match v {
        JsonView::Object(m) => inputs_under(m, m.len()),
        JsonView::Array(a) => inputs_in(a, a.len(), seq![]),
        _ => seq![],
    }
}

fn text_at(m: &Vec<Member>, k: &str) -> (r: String)
    ensures
        r@ == hand_text(views(m@), k@),
{
    match member(m, k) {
        Some(v) => js_string(v),
        None => String::new(),
    }
}

fn flag_at(m: &Vec<Member>, k: &str) -> (r: bool)
    ensures
        r == hand_flag(views(m@), k@),
{
    match member(m, k) {
        Some(Json::Bool(b)) => *b,
        Some(Json::Str(s)) => {
            let w: String = to_lower(trimmed(s.as_str()).as_str());
            same(w.as_str(), "true") || same(w.as_str(), "yes") || same(w.as_str(), "1")
        },
        _ => false,
    }
}

/// A cookie in the file of a jar, under a domain.
fn read_item(m: &Vec<Member>, domain: &str) -> (r: CookieInput)
    ensures
        r@ == input_of(views(m@), domain@),
{
    let own: String = text_at(m, "domain");
    let expires_ms: Option<u64> = match member(m, "expires") {
        Some(Json::Number(n)) => match n {
            Number::PosInt(u) => Some(*u),
            Number::NegInt(i) => if *i >= 0 {
                Some(*i as u64)
            } else {
                None
            },
            Number::Real(_) => None,
        },
        Some(Json::Str(s)) => parse_iso8601(s.as_str()),
        _ => None,
    };
    CookieInput {
        domain: if blank(own.as_str()) {
            copy_text(domain)
        } else {
            trimmed(own.as_str())
        },
        path: text_at(m, "path"),
        name: text_at(m, "name"),
        value: text_at(m, "value"),
        secure: flag_at(m, "secure"),
        expires_ms,
    }
}

/// Adds the cookies of a list under a domain.
fn read_list(a: &Vec<Json>, domain: &str, out: &mut Vec<CookieInput>)
    ensures
        views(final(out)@) == views(old(out)@) + inputs_in(views(a@), a@.len(), domain@),
{
    let ghost start = views(out@);
    let ghost w = views(a@);
    assert(views(out@) =~= start + inputs_in(w, 0, domain@));
    let mut i: usize = 0;
    while i < a.len()
        invariant
            i <= a@.len(),
            w == views(a@),
            views(out@) == start + inputs_in(w, i as nat, domain@),
        decreases a@.len() - i,
    {
        assert(w[i as int] == a@[i as int]@);
        if let Some(m) = a[i].as_object() {
            let one: CookieInput = read_item(m, domain);
            proof {
                lemma_views_push(out@, one);
            }
            out.push(one);
        }
        assert(views(out@) =~= start + inputs_in(w, (i + 1) as nat, domain@));
        i = i + 1;
    }
}

/// The cookies in the file of a jar.
pub fn cookie_inputs(v: &Json) -> (r: Vec<CookieInput>)
    ensures
        views(r@) == inputs_read(v@),
{
    let mut out: Vec<CookieInput> = Vec::new();
    assert(views(out@) =~= seq![]);
    proof {
        lemma_view(*v);
        reveal_strlit("");
        assert(""@ =~= seq![]);
    }
    match v {
        Json::Object(m) => {
            let ghost w = views(m@);
            let mut i: usize = 0;
            while i < m.len()
                invariant
                    i <= m@.len(),
                    w == views(m@),
                    views(out@) == inputs_under(w, i as nat),
                decreases m@.len() - i,
            {
                assert(w[i as int] == m@[i as int]@);
                proof {
                    lemma_view(m@[i as int].value);
                }
                match &m[i].value {
                    Json::Array(a) => read_list(a, m[i].name.as_str(), &mut out),
                    Json::Object(o) => {
                        let one: CookieInput = read_item(o, m[i].name.as_str());
                        proof {
                            lemma_views_push(out@, one);
                        }
                        out.push(one);
                    },
                    _ => {},
                }
                i = i + 1;
            }
        },
        Json::Array(a) => {
            read_list(a, "", &mut out);
            assert(views(out@) =~= inputs_read(v@));
        },
        _ => {},
    }
    out
}

/// The cookie that is read of one that is entered; nothing where it cannot be entered.
pub open spec fn read_of(item: CookieInputView) -> Option<(CookieKeyView, HeldCookie)> {
    match ready(item) {
        Ok(q) => match cookie_in(q.line, q.url) {
            Ok(c) => Some(c),
            Err(_) => None,
        },
        Err(_) => None,
    }
}

/// Whether a cookie that is entered is read as one of a key.
pub open spec fn enters_key(item: CookieInputView, k: CookieKeyView) -> bool {
    read_of(item) is Some && (read_of(item)->0).0 == k
}

/// Whether a key is that of one of the first `n` cookies that are entered.
pub open spec fn entered(inputs: Seq<CookieInputView>, n: int, k: CookieKeyView) -> bool {
    exists|i: int| 0 <= i < n && i < inputs.len() && enters_key(#[trigger] inputs[i], k)
}

/// Whether a cookie outlasts the first `n` that are entered: it can be entered, it never
/// expires, and no later one has its key.
pub open spec fn input_stays(inputs: Seq<CookieInputView>, n: int, i: int) -> bool {
    &&& 0 <= i < n <= inputs.len()
    &&& read_of(inputs[i]) is Some
    &&& lasting(ready(inputs[i])->Ok_0.line)
    &&& forall|j: int| i < j < n ==> !enters_key(#[trigger] inputs[j], (read_of(inputs[i])->0).0)
}

/// Whether cookies are those of a jar that was filled with some, one after the other: there is
/// no other, and each that outlasts the rest is there.
pub open spec fn filled(m: Map<CookieKeyView, HeldCookie>, inputs: Seq<CookieInputView>, n: int) -> bool {
    &&& forall|k: CookieKeyView| #[trigger] m.contains_key(k) ==> entered(inputs, n, k)
    &&& forall|i: int| #[trigger]
        input_stays(inputs, n, i) ==> holds_cookie(m, read_of(inputs[i])->0)
}

/// Whether a store went through contents by cookies that were entered, one after the other.
pub open spec fn input_course(
    t: Seq<Map<CookieKeyView, HeldCookie>>,
    inputs: Seq<CookieInputView>,
) -> bool {
    &&& t.len() == inputs.len() + 1
    &&& forall|i: int| 0 <= i < inputs.len() ==> input_step(#[trigger] t[i], t[i + 1], inputs[i])
}

/// Whether cookies are those of a jar that cookies were entered into, one after the other.
pub open spec fn filled_in_turn(
    m: Map<CookieKeyView, HeldCookie>,
    inputs: Seq<CookieInputView>,
) -> bool {
    exists|t: Seq<Map<CookieKeyView, HeldCookie>>| #[trigger]
        input_course(t, inputs) && t[0] == nothing_held() && t.last() == m
}

proof fn lemma_filled(
    was: Map<CookieKeyView, HeldCookie>,
    now: Map<CookieKeyView, HeldCookie>,
    w: Seq<CookieInputView>,
    i: int,
)
    requires
        0 <= i < w.len(),
        filled(was, w, i),
        now == was || (ready(w[i]) is Ok && took(
            was,
            now,
            ready(w[i])->Ok_0.line,
            ready(w[i])->Ok_0.url,
        )),
        read_of(w[i]) is Some && lasting(ready(w[i])->Ok_0.line) ==> took(
            was,
            now,
            ready(w[i])->Ok_0.line,
            ready(w[i])->Ok_0.url,
        ),
    ensures
        filled(now, w, i + 1),
{
    let kk = (read_of(w[i])->0).0;
    assert forall|k: CookieKeyView| #[trigger] now.contains_key(k) implies entered(w, i + 1, k) by {
        if was.contains_key(k) {
            assert(entered(w, i, k));
            let j = choose|j: int| 0 <= j < i && j < w.len() && enters_key(#[trigger] w[j], k);
            assert(enters_key(w[j], k));
        } else {
            if k != kk {
                assert(now.remove(kk).contains_key(k));
                assert(was.remove(kk).contains_key(k));
            }
            assert(enters_key(w[i], k));
        }
    }
    assert forall|j: int| #[trigger] input_stays(w, i + 1, j) implies holds_cookie(
        now,
        read_of(w[j])->0,
    ) by {
        let c = read_of(w[j])->0;
        if j == i {
            law_lasting_is_held(was, now, ready(w[i])->Ok_0.line, ready(w[i])->Ok_0.url);
        } else {
            assert forall|x: int| j < x < i implies !enters_key(#[trigger] w[x], c.0) by {
                assert(x < i + 1);
            }
            assert(input_stays(w, i, j));
            assert(!enters_key(w[i], c.0));
            if now != was {
                assert(c.0 != kk);
                assert(was.remove(kk).contains_key(c.0) && was.remove(kk)[c.0] == was[c.0]);
                assert(now.remove(kk).contains_key(c.0) && now.remove(kk)[c.0] == now[c.0]);
            }
        }
    }
}

impl CookieJar {
    /// The jar of cookies that are entered one after the other. One that cannot be entered, or
    /// is refused, is left out alone.
    pub fn of_inputs(inputs: &Vec<CookieInput>) -> (r: Self)
        ensures
            r.wf(),
            !r.changed(),
            filled(r@, views(inputs@), inputs@.len() as int),
            filled_in_turn(r@, views(inputs@)),
    {
        let mut jar: CookieJar = CookieJar::new();
        let ghost w = views(inputs@);
        let ghost mut t = seq![jar@];
        let mut i: usize = 0;
        while i < inputs.len()
            invariant
                i <= inputs@.len(),
                w == views(inputs@),
                jar.wf(),
                !jar.dirty,
                t.len() == i + 1,
                t[0] == nothing_held(),
                t.last() == jar@,
                forall|j: int| 0 <= j < i ==> input_step(#[trigger] t[j], t[j + 1], w[j]),
                filled(jar@, w, i as int),
            decreases inputs@.len() - i,
        {
            assert(w[i as int] == inputs@[i as int]@);
            let ghost was = jar@;
            let done: Result<CookieKey, String> = insert_into(&mut jar.store, &inputs[i]);
            proof {
                lemma_filled(was, jar@, w, i as int);
                let longer = t.push(jar@);
                assert forall|j: int| 0 <= j < i + 1 implies input_step(
                    #[trigger] longer[j],
                    longer[j + 1],
                    w[j],
                ) by {
                    if j < i {
                        assert(longer[j] == t[j] && longer[j + 1] == t[j + 1]);
                    }
                }
                t = longer;
            }
            i = i + 1;
        }
        assert(input_course(t, w));
        jar
    }

    /// The jar of a file. A file that is not YAML is an empty jar; of the others each cookie
    /// that can be read counts.
    pub fn from_yaml(text: &str) -> (r: Self)
        ensures
            r.wf(),
            !r.changed(),
            match loaded(text@) {
                Ok(v) => filled(r@, inputs_read(v), inputs_read(v).len() as int)
                    && filled_in_turn(r@, inputs_read(v)),
                Err(_) => r@ == nothing_held(),
            },
    {
        match load(text) {
            Ok(v) => {
                let inputs: Vec<CookieInput> = cookie_inputs(&v);
                CookieJar::of_inputs(&inputs)
            },
            Err(_) => CookieJar::new(),
        }
    }
}

// ---- files -----------------------------------------------------------------------------

/// The older file of a jar: that with the extension `json`. A jar that has this extension
/// itself has no older file.
pub open spec fn older_file(path: Seq<char>) -> Option<Seq<char>> {
    let older = with_extension_of(path, "json"@);
    if older == path {
        None
    } else {
        Some(older)
    }
}

/// The older file of a jar.
pub fn legacy_path(path: &str) -> (r: Option<String>)
    ensures
        opt_view(r) == older_file(path@),
{
    let older: String = with_extension(path, "json");
    if same(older.as_str(), path) {
        None
    } else {
        Some(older)
    }
}

impl CookieJar {
    /// The jar of what was read of its file and of the older one. The older one counts only
    /// where there is no other; a jar that was read from it has to be written.
    pub fn load(text: Option<&str>, older: Option<&str>) -> (r: Self)
        ensures
            r.wf(),
            match text {
                Some(t) => !r.changed() && match loaded(t@) {
                    Ok(v) => filled(r@, inputs_read(v), inputs_read(v).len() as int)
                        && filled_in_turn(r@, inputs_read(v)),
                    Err(_) => r@ == nothing_held(),
                },
                None => match opt_text(older) {
                    Some(o) => match older_cookies(o) {
                        Some(m) => r@ == m && r.changed(),
                        None => r@ == nothing_held() && !r.changed(),
                    },
                    None => r@ == nothing_held() && !r.changed(),
                },
            },
    {
        if let Some(t) = text {
            return CookieJar::from_yaml(t);
        }
        if let Some(o) = older {
            if let Some(jar) = CookieJar::from_older(o) {
                return jar;
            }
        }
        CookieJar::new()
    }
}

// ---- requests --------------------------------------------------------------------------

/// Whether a header is `Cookie`.
pub open spec fn is_cookie_header(h: KvPairView) -> bool {
    lower(trim(h.key)) == lower("cookie"@)
}

/// Whether a request has a `Cookie` header.
pub open spec fn names_cookies(req: HttpRequestView) -> bool {
    exists|i: int| 0 <= i < req.headers.len() && is_cookie_header(#[trigger] req.headers[i])
}

fn cookie_named(h: &KvPair) -> (r: bool)
    ensures
        r == is_cookie_header(h@),
{
    let k: String = trimmed(h.key.as_str());
    same_ignoring_case(k.as_str(), "cookie")
}

/// Whether a request has a `Cookie` header.
pub fn has_cookie_header(req: &HttpRequest) -> (r: bool)
    ensures
        r == names_cookies(req@),
{
    let mut i: usize = 0;
    while i < req.headers.len()
        invariant
            i <= req.headers@.len(),
            forall|k: int| 0 <= k < i ==> !is_cookie_header(#[trigger] req@.headers[k]),
        decreases req.headers@.len() - i,
    {
        assert(req@.headers[i as int] == req.headers@[i as int]@);
        if cookie_named(&req.headers[i]) {
            return true;
        }
        i = i + 1;
    }
    false
}

/// A request with a `Cookie` header, unless it has one already or there is nothing to say.
pub open spec fn with_cookies(req: HttpRequestView, value: Option<Seq<char>>) -> HttpRequestView {
    match value {
        Some(v) => if names_cookies(req) {
            req
        } else {
            HttpRequestView { headers: req.headers.push(pair("Cookie"@, v)), ..req }
        },
        None => req,
    }
}

/// Adds a `Cookie` header, unless the request has one already, and says whether it did.
pub fn attach_value(req: &mut HttpRequest, value: Option<&str>) -> (r: bool)
    ensures
        final(req)@ == with_cookies(old(req)@, crate::text::opt_text(value)),
        r == (value is Some && !names_cookies(old(req)@)),
{
    if has_cookie_header(req) {
        return false;
    }
    match value {
        Some(v) => {
            let h: KvPair = KvPair::new("Cookie", v);
            proof {
                lemma_views_push(req.headers@, h);
            }
            req.headers.push(h);
            true
        },
        None => false,
    }
}

/// Whether a request was given the cookies of a jar that go along to its address: nothing where
/// the address cannot be read or no cookie goes along.
pub open spec fn got_cookies(
    before: HttpRequestView,
    after: HttpRequestView,
    m: Map<CookieKeyView, HeldCookie>,
    added: bool,
) -> bool {
    if url_problem(trim(before.url)) is Some {
        !added && after == before
    } else {
        exists|v: Seq<KvPairView>| #[trigger]
            goes_to_url(v, m, trim(before.url)) && after == with_cookies(before, header_of(v))
                && added == (header_of(v) is Some)
    }
}

/// Adds the cookies of a jar that go along with a request, and says whether it did. A `Cookie`
/// header that the request has already counts more; without a jar nothing is added.
pub fn attach(req: &mut HttpRequest, jar: Option<&CookieJar>) -> (r: bool)
    ensures
        names_cookies(old(req)@) || jar is None ==> !r && final(req)@ == old(req)@,
        !names_cookies(old(req)@) && jar is Some ==> got_cookies(old(req)@, final(req)@, jar->0@, r),
{
    if has_cookie_header(req) {
        return false;
    }
    match jar {
        Some(j) => match j.header_for(req.url.as_str()) {
            Some(h) => attach_value(req, Some(h.as_str())),
            None => false,
        },
        None => false,
    }
}

/// Headers without those that are `Cookie`.
pub open spec fn without_cookies(h: Seq<KvPairView>) -> Seq<KvPairView>
    decreases h.len(),
{
    if h.len() == 0 {
        seq![]
    } else if is_cookie_header(h.last()) {
        without_cookies(h.drop_last())
    } else {
        without_cookies(h.drop_last()).push(h.last())
    }
}

proof fn lemma_without_cookies(h: Seq<KvPairView>)
    ensures
        forall|i: int|
            0 <= i < without_cookies(h).len() ==> !is_cookie_header(#[trigger] without_cookies(h)[i]),
    decreases h.len(),
{
    if h.len() > 0 {
        let rest = without_cookies(h.drop_last());
        lemma_without_cookies(h.drop_last());
        let all = without_cookies(h);
        assert forall|i: int| 0 <= i < all.len() implies !is_cookie_header(#[trigger] all[i]) by {
            if i < rest.len() {
                assert(all[i] == rest[i]);
            }
        }
    }
}

/// Removes the `Cookie` headers of a request.
pub fn detach(req: &mut HttpRequest)
    ensures
        final(req)@ == (HttpRequestView {
            headers: without_cookies(old(req)@.headers),
            ..old(req)@
        }),
        !names_cookies(final(req)@),
{
    let mut out: Vec<KvPair> = Vec::new();
    let ghost w = views(req.headers@);
    assert(views(out@) =~= seq![]);
    assert(w.take(0) =~= seq![]);
    let mut i: usize = 0;
    while i < req.headers.len()
        invariant
            i <= req.headers@.len(),
            w == views(req.headers@),
            req@ == old(req)@,
            views(out@) == without_cookies(w.take(i as int)),
        decreases req.headers@.len() - i,
    {
        proof {
            assert(w.take(i + 1).drop_last() =~= w.take(i as int));
            assert(w.take(i + 1).last() == req.headers@[i as int]@);
        }
        if !cookie_named(&req.headers[i]) {
            let h: KvPair = req.headers[i].duplicate();
            proof {
                lemma_views_push(out@, h);
            }
            out.push(h);
        }
        i = i + 1;
    }
    assert(w.take(w.len() as int) =~= w);
    proof {
        lemma_without_cookies(w);
    }
    req.headers = out;
}

/// Takes the cookies of a jar anew before a request is sent again. Only headers that were
/// added are touched.
pub fn refresh(req: &mut HttpRequest, jar: Option<&CookieJar>, attached: bool)
    ensures
        !attached ==> final(req)@ == old(req)@,
        attached ==> ({
            let bare = HttpRequestView { headers: without_cookies(old(req)@.headers), ..old(req)@ };
            if jar is Some {
                exists|added: bool| #[trigger] got_cookies(bare, final(req)@, jar->0@, added)
            } else {
                final(req)@ == bare
            }
        }),
{
    if !attached {
        return;
    }
    detach(req);
    let added: bool = attach(req, jar);
}

// ---- laws ------------------------------------------------------------------------------

/// A `Cookie` header that was written by hand is sent as it is: cookies are never added to it.
pub proof fn law_own_header_wins(req: HttpRequestView, value: Option<Seq<char>>)
    requires
        names_cookies(req),
    ensures
        with_cookies(req, value) == req,
{
}

/// A request gets one `Cookie` header at most, and no other header changes.
pub proof fn law_one_cookie_header(req: HttpRequestView, value: Option<Seq<char>>)
    requires
        !names_cookies(req),
    ensures
        with_cookies(req, value).headers.take(req.headers.len() as int) == req.headers,
        with_cookies(req, value).headers.len() <= req.headers.len() + 1,
{
    assert(with_cookies(req, value).headers.take(req.headers.len() as int) =~= req.headers);
}

/// A list of a jar is the only one: two lists of the same cookies have the same keys in the
/// same places.
pub proof fn law_list_is_unique(
    a: Seq<CookieItemView>,
    b: Seq<CookieItemView>,
    m: Map<CookieKeyView, HeldCookie>,
    i: int,
)
    requires
        is_list_of(a, m),
        is_list_of(b, m),
        0 <= i < a.len(),
        0 <= i < b.len(),
    ensures
        item_key(a[i]) == item_key(b[i]),
    decreases i,
{
    if item_key(a[i]) != item_key(b[i]) {
        lemma_key_total(item_key(a[i]), item_key(b[i]));
        if key_less(item_key(a[i]), item_key(b[i])) {
            lemma_smaller_is_earlier(a, b, m, i);
        } else {
            lemma_smaller_is_earlier(b, a, m, i);
        }
    }
}

proof fn lemma_smaller_is_earlier(
    a: Seq<CookieItemView>,
    b: Seq<CookieItemView>,
    m: Map<CookieKeyView, HeldCookie>,
    i: int,
)
    requires
        is_list_of(a, m),
        is_list_of(b, m),
        0 <= i < a.len(),
        0 <= i < b.len(),
    ensures
        !key_less(item_key(a[i]), item_key(b[i])),
    decreases i, 0int,
{
    if key_less(item_key(a[i]), item_key(b[i])) {
        let k = item_key(a[i]);
        assert(m.contains_key(k));
        let j = choose|j: int| 0 <= j < b.len() && item_key(#[trigger] b[j]) == k;
        lemma_key_total(k, k);
        if j >= i {
            if j > i {
                assert(key_less(item_key(b[i]), item_key(b[j])));
                lemma_key_total(item_key(b[i]), item_key(b[j]));
            }
        } else {
            // Below `i` both lists agree, so the key would stand twice in `a`.
            lemma_smaller_is_earlier(a, b, m, j);
            lemma_smaller_is_earlier(b, a, m, j);
            lemma_key_total(item_key(a[j]), item_key(b[j]));
            assert(item_key(a[j]) == k);
            assert(key_less(item_key(a[j]), item_key(a[i])));
        }
    }
}

/// What is read of a cookie that was written.
pub open spec fn written_input(c: CookieItemView) -> CookieInputView {
    CookieInputView {
        domain: domain_key(c),
        path: if c.path == "/"@ {
            seq![]
        } else {
            c.path
        },
        name: c.name,
        value: c.value,
        secure: c.secure,
        expires_ms: c.expires_ms,
    }
}

/// Whether all of a cookie is written: if it expires, it does so on a full second before the
/// year 10000.
pub open spec fn item_settled(c: CookieItemView) -> bool {
    c.expires_ms matches Some(ms) ==> ms % 1000 == 0 && date_at(ms as nat).0 <= 9999
}

proof fn lemma_written_names()
    ensures
        "name"@ != "value"@,
        "name"@ != "path"@,
        "name"@ != "secure"@,
        "name"@ != "expires"@,
        "name"@ != "domain"@,
        "value"@ != "path"@,
        "value"@ != "secure"@,
        "value"@ != "expires"@,
        "value"@ != "domain"@,
        "path"@ != "secure"@,
        "path"@ != "expires"@,
        "path"@ != "domain"@,
        "secure"@ != "expires"@,
        "secure"@ != "domain"@,
        "expires"@ != "domain"@,
{
    reveal_strlit("name");
    reveal_strlit("value");
    reveal_strlit("path");
    reveal_strlit("secure");
    reveal_strlit("expires");
    reveal_strlit("domain");
    assert("name"@.len() != "value"@.len());
    assert("name"@[0] != "path"@[0]);
    assert("name"@.len() != "secure"@.len());
    assert("name"@.len() != "expires"@.len());
    assert("name"@.len() != "domain"@.len());
    assert("value"@.len() != "path"@.len());
    assert("value"@.len() != "secure"@.len());
    assert("value"@.len() != "expires"@.len());
    assert("value"@.len() != "domain"@.len());
    assert("path"@.len() != "secure"@.len());
    assert("path"@.len() != "expires"@.len());
    assert("path"@.len() != "domain"@.len());
    assert("secure"@.len() != "expires"@.len());
    assert("secure"@[0] != "domain"@[0]);
    assert("expires"@.len() != "domain"@.len());
}

proof fn lemma_item_read(c: CookieItemView)
    requires
        item_settled(c),
    ensures
        input_of(cookie_json(c)->Object_0, domain_key(c)) == written_input(c),
{
    let a = seq![text_member("name"@, c.name), text_member("value"@, c.value)];
    let b: Seq<(Seq<char>, JsonView)> = if c.path == "/"@ {
        seq![]
    } else {
        seq![text_member("path"@, c.path)]
    };
    let d: Seq<(Seq<char>, JsonView)> = if c.secure {
        seq![("secure"@, JsonView::Bool(true))]
    } else {
        seq![]
    };
    let e: Seq<(Seq<char>, JsonView)> = match c.expires_ms {
        Some(ms) => seq![text_member("expires"@, iso_secs_text(ms as nat))],
        None => seq![],
    };
    let m = a + b + d + e;
    assert(cookie_json(c)->Object_0 =~= m);
    lemma_written_names();
    lemma_concats(a, b);
    lemma_concats(a + b, d);
    lemma_concats(a + b + d, e);
    lemma_none::<JsonView>();
    lemma_two(a);
    lemma_one(seq![text_member("path"@, c.path)]);
    lemma_one(seq![("secure"@, JsonView::Bool(true))]);
    if let Some(ms) = c.expires_ms {
        lemma_one(seq![text_member("expires"@, iso_secs_text(ms as nat))]);
        law_iso_round_trip(ms as nat);
        assert(ms as nat / 1000 * 1000 == ms);
    }
    assert(hand_text(m, "domain"@) =~= seq![]);
    assert(is_blank(Seq::<char>::empty()));
    assert(input_of(m, domain_key(c)) =~= written_input(c));
}

proof fn lemma_inputs_in_prefix(a: Seq<JsonView>, x: JsonView, n: nat, domain: Seq<char>)
    requires
        n <= a.len(),
    ensures
        inputs_in(a.push(x), n, domain) == inputs_in(a, n, domain),
    decreases n,
{
    if n > 0 {
        lemma_inputs_in_prefix(a, x, (n - 1) as nat, domain);
        assert(a.push(x)[n - 1] == a[n - 1]);
    }
}

proof fn lemma_inputs_grow(
    m: Seq<(Seq<char>, JsonView)>,
    p: int,
    a: Seq<JsonView>,
    o: Seq<(Seq<char>, JsonView)>,
    n: nat,
)
    requires
        0 <= p < m.len(),
        n <= m.len(),
        m[p].1 == JsonView::Array(a),
    ensures
        ({
            let t = m.update(p, (m[p].0, JsonView::Array(a.push(JsonView::Object(o)))));
            if n <= p {
                inputs_under(t, n) == inputs_under(m, n)
            } else {
                inputs_under(t, n).to_multiset() == inputs_under(m, n).to_multiset().insert(
                    input_of(o, m[p].0),
                )
            }
        }),
    decreases n,
{
    broadcast use vstd::seq_lib::group_to_multiset_ensures;
    broadcast use vstd::seq_lib::lemma_multiset_commutative;
    broadcast use vstd::multiset::group_multiset_axioms;

    let k = m[p].0;
    let b = a.push(JsonView::Object(o));
    let t = m.update(p, (k, JsonView::Array(b)));
    if n > 0 {
        let q = (n - 1) as nat;
        lemma_inputs_grow(m, p, a, o, q);
        let rest = inputs_under(m, q);
        let more = inputs_under(t, q);
        if q < p {
            assert(t[q as int] == m[q as int]);
        } else if q == p {
            lemma_inputs_in_prefix(a, JsonView::Object(o), a.len(), k);
            let x = inputs_in(a, a.len(), k);
            assert(inputs_in(b, b.len(), k) =~= x.push(input_of(o, k)));
            assert(inputs_under(t, n) =~= (rest + x).push(input_of(o, k)));
        } else {
            assert(t[q as int] == m[q as int]);
            match m[q as int].1 {
                JsonView::Array(c) => {
                    let x = inputs_in(c, c.len(), m[q as int].0);
                    assert(inputs_under(t, n) == more + x);
                    assert(inputs_under(m, n) == rest + x);
                    assert((more + x).to_multiset() =~= (rest + x).to_multiset().insert(
                        input_of(o, k),
                    ));
                },
                JsonView::Object(c) => {
                    let x = input_of(c, m[q as int].0);
                    assert(more.push(x).to_multiset() =~= rest.push(x).to_multiset().insert(
                        input_of(o, k),
                    ));
                },
                _ => {},
            }
        }
    }
}

proof fn lemma_under_prefix(m: Seq<(Seq<char>, JsonView)>, x: (Seq<char>, JsonView), n: nat)
    requires
        n <= m.len(),
    ensures
        inputs_under(m.push(x), n) == inputs_under(m, n),
    decreases n,
{
    if n > 0 {
        lemma_under_prefix(m, x, (n - 1) as nat);
        assert(m.push(x)[n - 1] == m[n - 1]);
    }
}

proof fn lemma_all_arrays(items: Seq<CookieItemView>, n: nat, i: int)
    requires
        n <= items.len(),
        0 <= i < grouped(items, n).len(),
    ensures
        grouped(items, n)[i].1 is Array,
    decreases n,
{
    if n > 0 {
        let rest = grouped(items, (n - 1) as nat);
        let k = domain_key(items[n - 1]);
        lemma_key_at(rest, k, 0);
        let p = key_at(rest, k, 0);
        if i != p {
            lemma_all_arrays(items, (n - 1) as nat, i);
        }
    }
}

proof fn lemma_grouped_read(items: Seq<CookieItemView>, n: nat)
    requires
        n <= items.len(),
        forall|i: int| 0 <= i < items.len() ==> item_settled(#[trigger] items[i]),
    ensures
        inputs_read(JsonView::Object(grouped(items, n))).to_multiset() == items.take(
            n as int,
        ).map_values(|c: CookieItemView| written_input(c)).to_multiset(),
    decreases n,
{
    broadcast use vstd::seq_lib::group_to_multiset_ensures;

    let f = |c: CookieItemView| written_input(c);
    if n == 0 {
        assert(items.take(0).map_values(f) =~= seq![]);
        assert(inputs_read(JsonView::Object(grouped(items, 0))) =~= seq![]);
    } else {
        let q = (n - 1) as nat;
        lemma_grouped_read(items, q);
        let rest = grouped(items, q);
        let c = items[n - 1];
        let k = domain_key(c);
        let o = cookie_json(c)->Object_0;
        lemma_item_read(c);
        lemma_key_at(rest, k, 0);
        let p = key_at(rest, k, 0);
        assert(items.take(n as int).map_values(f) =~= items.take(q as int).map_values(f).push(
            written_input(c),
        ));
        if p < rest.len() {
            lemma_all_arrays(items, q, p);
            let a = rest[p].1->Array_0;
            lemma_inputs_grow(rest, p, a, o, rest.len());
            assert(grouped(items, n) =~= rest.update(
                p,
                (rest[p].0, JsonView::Array(a.push(JsonView::Object(o)))),
            ));
        } else {
            let none = Seq::<JsonView>::empty();
            let x = (k, JsonView::Array(none.push(JsonView::Object(o))));
            assert(grouped(items, n) =~= rest.push(x));
            lemma_under_prefix(rest, x, rest.len());
            reveal_with_fuel(inputs_in, 2);
            assert(inputs_under(rest.push(x), rest.len() + 1) =~= inputs_under(
                rest,
                rest.len(),
            ).push(input_of(o, k)));
        }
    }
}

/// What is written of a jar is read back: the cookies in its file are those of the list, each
/// once, by domain.
pub proof fn law_jar_read_back(items: Seq<CookieItemView>)
    requires
        forall|i: int| 0 <= i < items.len() ==> item_settled(#[trigger] items[i]),
    ensures
        inputs_read(JsonView::Object(grouped(items, items.len()))).to_multiset()
            == items.map_values(|c: CookieItemView| written_input(c)).to_multiset(),
{
    lemma_grouped_read(items, items.len());
    assert(items.take(items.len() as int) =~= items);
}

/// Whether a cookie that is written is read as one of its own key.
pub open spec fn reads_itself(c: CookieItemView) -> bool {
    read_of(written_input(c)) is Some && (read_of(written_input(c))->0).0 == item_key(c)
}

/// What is entered for a cookie that is read from the file of a jar.
pub open spec fn written_line(c: CookieItemView) -> Seq<char> {
    ready(written_input(c))->Ok_0.line
}

/// Whether what is entered is what is written of one of the items.
spec fn is_written(items: Seq<CookieItemView>, x: CookieInputView) -> bool {
    exists|a: int| 0 <= a < items.len() && x == written_input(#[trigger] items[a])
}

/// What a key holds stays as it is while no cookie is entered that is read as one of the key.
proof fn lemma_entered_alone(
    t: Seq<Map<CookieKeyView, HeldCookie>>,
    inputs: Seq<CookieInputView>,
    k: CookieKeyView,
    a: int,
    b: int,
)
    requires
        input_course(t, inputs),
        0 <= a <= b <= inputs.len(),
        forall|j: int| a <= j < b ==> !enters_key(#[trigger] inputs[j], k),
    ensures
        t[a].contains_key(k) <==> t[b].contains_key(k),
        t[a].contains_key(k) ==> t[a][k] == t[b][k],
    decreases b - a,
{
    if a < b {
        lemma_entered_alone(t, inputs, k, a, b - 1);
        assert(input_step(t[b - 1], t[b - 1 + 1], inputs[b - 1]));
        assert(!enters_key(inputs[b - 1], k));
        if let Ok(q) = ready(inputs[b - 1]) {
            lemma_line_settles(t[b - 1], t[b], q.line, q.url, k);
        }
    }
}

/// A jar that is written and read again is the same jar, as far as the time lets it: no key comes
/// in, what is there is as it was written, and what never expires is there.
pub proof fn law_jar_restored(items: Seq<CookieItemView>, m: Map<CookieKeyView, HeldCookie>, i: int)
    requires
        forall|a: int| 0 <= a < items.len() ==> item_settled(#[trigger] items[a]),
        forall|a: int| 0 <= a < items.len() ==> reads_itself(#[trigger] items[a]),
        forall|a: int, b: int|
            0 <= a < b < items.len() ==> item_key(#[trigger] items[a]) != item_key(
                #[trigger] items[b],
            ),
        filled_in_turn(m, inputs_read(JsonView::Object(grouped(items, items.len())))),
        0 <= i < items.len(),
    ensures
        forall|k: CookieKeyView| #[trigger]
            m.contains_key(k) ==> exists|a: int|
                0 <= a < items.len() && item_key(#[trigger] items[a]) == k,
        m.contains_key(item_key(items[i])) ==> as_read(
            m[item_key(items[i])],
            (read_of(written_input(items[i]))->0).1,
            written_line(items[i]),
        ),
        lasting(written_line(items[i])) ==> holds_cookie(m, read_of(written_input(items[i]))->0),
{
    broadcast use vstd::seq_lib::group_to_multiset_ensures;

    let f = |c: CookieItemView| written_input(c);
    let w = items.map_values(f);
    let inputs = inputs_read(JsonView::Object(grouped(items, items.len())));
    law_jar_read_back(items);
    assert(inputs.to_multiset() == w.to_multiset());
    assert(w.no_duplicates()) by {
        assert forall|a: int, b: int| 0 <= a < w.len() && 0 <= b < w.len() && a != b implies w[a] != w[b] by {
            assert(reads_itself(items[a]) && reads_itself(items[b]));
            if a < b {
                assert(item_key(items[a]) != item_key(items[b]));
            } else {
                assert(item_key(items[b]) != item_key(items[a]));
            }
        }
    }
    w.lemma_multiset_has_no_duplicates();
    inputs.lemma_multiset_has_no_duplicates_conv();
    assert forall|j: int| 0 <= j < inputs.len() implies is_written(items, #[trigger] inputs[j]) by {
        assert(inputs.contains(inputs[j]));
        assert(inputs.to_multiset().contains(inputs[j]));
        assert(w.contains(inputs[j]));
        let a = choose|a: int| 0 <= a < w.len() && w[a] == inputs[j];
        assert(inputs[j] == written_input(items[a]));
    }
    let t = choose|t: Seq<Map<CookieKeyView, HeldCookie>>| #[trigger]
        input_course(t, inputs) && t[0] == nothing_held() && t.last() == m;
    let n = inputs.len() as int;
    assert forall|k: CookieKeyView| #[trigger] m.contains_key(k) implies exists|a: int|
        0 <= a < items.len() && item_key(#[trigger] items[a]) == k by {
        if forall|j: int| 0 <= j < n ==> !enters_key(#[trigger] inputs[j], k) {
            lemma_entered_alone(t, inputs, k, 0, n);
        } else {
            let j = choose|j: int| 0 <= j < n && enters_key(#[trigger] inputs[j], k);
            assert(is_written(items, inputs[j]));
            let a = choose|a: int|
                0 <= a < items.len() && inputs[j] == written_input(#[trigger] items[a]);
            assert(reads_itself(items[a]));
            assert(item_key(items[a]) == k);
        }
    }
    let k = item_key(items[i]);
    assert(reads_itself(items[i]));
    assert(w[i] == written_input(items[i]));
    assert(w.contains(w[i]));
    assert(w.to_multiset().contains(w[i]));
    assert(inputs.contains(w[i]));
    let p = choose|p: int| 0 <= p < n && inputs[p] == w[i];
    assert forall|j: int| 0 <= j < n && j != p implies !enters_key(#[trigger] inputs[j], k) by {
        if enters_key(inputs[j], k) {
            assert(is_written(items, inputs[j]));
            let a = choose|a: int|
                0 <= a < items.len() && inputs[j] == written_input(#[trigger] items[a]);
            assert(reads_itself(items[a]));
            assert(item_key(items[a]) == k);
            if a < i {
                assert(item_key(items[a]) != item_key(items[i]));
            } else if i < a {
                assert(item_key(items[i]) != item_key(items[a]));
            }
            assert(inputs[j] == inputs[p]);
        }
    }
    lemma_entered_alone(t, inputs, k, 0, p);
    lemma_entered_alone(t, inputs, k, p + 1, n);
    assert(input_step(t[p], t[p + 1], inputs[p]));
    let q = ready(inputs[p])->Ok_0;
    lemma_entered_over_http(inputs[p]);
    assert(line_step(t[p], t[p + 1], q.line, q.url));
    lemma_line_settles(t[p], t[p + 1], q.line, q.url, k);
    if lasting(q.line) {
        assert(took(t[p], t[p + 1], q.line, q.url));
        law_lasting_is_held(t[p], t[p + 1], q.line, q.url);
    }
}

/// Whether a text names a host as it is kept: nothing to trim and no dot at its front.
pub open spec fn is_host(d: Seq<char>) -> bool {
    d.len() > 0 && trim(d) == d && d[0] != '.' && lowercase(d) == d
}

/// A cookie that is read from the file of a jar is entered under the key that it was listed
/// with.
pub proof fn law_written_key(c: CookieItemView)
    requires
        is_host(c.domain),
        trim(domain_key(c)) == domain_key(c),
        !is_blank(c.name),
        trim(c.name) == c.name,
        begins(c.path, "/"@),
        trim(c.path) == c.path,
        !is_blank(c.path),
    ensures
        request_for(written_input(c)) matches Ok(q) && q.key == item_key(c),
{
    reveal_strlit(".");
    reveal_strlit("/");
    reveal_with_fuel(no_front_dots, 3);
    assert(("."@ + c.domain).skip(1) =~= c.domain);
    assert(is_blank(Seq::<char>::empty()));
    assert(begins("/"@, "/"@)) by {
        assert("/"@.subrange(0, 1) =~= "/"@);
    }
}

// ---- laws of what is entered and sent ----------------------------------------------------

/// A cookie is entered if it has a name, a domain and a path that begins with a slash, which it has
/// if none is said. Its key is the name and the path, trimmed, and the domain without dots at its
/// front, in lower case; and it is taken to come from a page of that domain.
pub proof fn law_cookie_entered(item: CookieInputView)
    ensures
        is_blank(item.name) ==> request_for(item) == Err::<CookieRequestView, _>(
            "Cookie 名不能为空"@,
        ),
        !is_blank(item.name) && no_front_dots(trim(item.domain)).len() == 0 ==> request_for(item)
            == Err::<CookieRequestView, _>("域不能为空"@),
        request_for(item) is Ok <==> !is_blank(item.name) && no_front_dots(trim(item.domain)).len()
            > 0 && (is_blank(item.path) || trim(item.path)[0] == '/'),
        match request_for(item) {
            Ok(q) => {
                let path = if is_blank(item.path) {
                    "/"@
                } else {
                    trim(item.path)
                };
                let host = no_front_dots(trim(item.domain));
                &&& q.domain == trim(item.domain)
                &&& q.key.name == trim(item.name)
                &&& q.key.path == path
                &&& q.key.domain == lowercase(host)
                &&& item.secure ==> q.url == "https"@ + "://"@ + host + path
                &&& !item.secure ==> q.url == "http"@ + "://"@ + host + path
            },
            Err(_) => true,
        },
{
    reveal_strlit("/");
    assert("/"@ =~= seq!['/']);
    let p = entered_path(item.path);
    assert(p.len() > 0);
    assert(p.subrange(0, 1) =~= seq![p[0]]);
    assert(seq![p[0]] == seq!['/'] ==> seq![p[0]][0] == seq!['/'][0]);
}

/// What is handed on of a cookie: its name, its value as it is, and its path; the domain only where
/// it covers its subdomains; that it is for secure pages only; and when it expires. Each adds to
/// the line of the cookie that does without it.
pub proof fn law_cookie_line(item: CookieInputView)
    ensures
        ({
            let path = if is_blank(item.path) {
                "/"@
            } else {
                trim(item.path)
            };
            let plain = CookieInputView { secure: false, expires_ms: None, ..item };
            let kept = CookieInputView { expires_ms: None, ..item };
            &&& trim(item.domain).len() == 0 || trim(item.domain)[0] != '.' ==> cookie_line(plain)
                == trim(item.name) + "="@ + item.value + "; Path="@ + path
            &&& trim(item.domain).len() > 0 && trim(item.domain)[0] == '.' ==> cookie_line(plain)
                == trim(item.name) + "="@ + item.value + "; Path="@ + path + ("; Domain="@ + trim(
                item.domain,
            ))
            &&& item.secure ==> cookie_line(kept) == cookie_line(plain) + "; Secure"@
            &&& item.expires_ms is Some ==> cookie_line(item) == cookie_line(kept) + (
            "; Expires="@ + http_date_text(item.expires_ms->0 as nat))
        }),
{
    reveal_strlit(".");
    assert("."@ =~= seq!['.']);
    let d = trim(item.domain);
    if d.len() > 0 {
        assert(d.subrange(0, 1) =~= seq![d[0]]);
        assert(seq![d[0]] == seq!['.'] ==> seq![d[0]][0] == seq!['.'][0]);
    }
    let none = Seq::<char>::empty();
    let plain = CookieInputView { secure: false, expires_ms: None, ..item };
    let kept = CookieInputView { expires_ms: None, ..item };
    let base = trim(item.name) + "="@ + item.value + "; Path="@ + entered_path(item.path);
    let covers = begins(d, "."@);
    if covers {
        assert(cookie_line(plain) =~= base + ("; Domain="@ + d));
    } else {
        assert(cookie_line(plain) =~= base);
    }
    if item.secure {
        assert(cookie_line(kept) =~= cookie_line(plain) + "; Secure"@);
    } else {
        assert(cookie_line(kept) =~= cookie_line(plain));
    }
    if item.expires_ms is Some {
        assert(cookie_line(item) =~= cookie_line(kept) + ("; Expires="@ + http_date_text(
            item.expires_ms->0 as nat,
        )));
    }
}

/// The header of cookies is each name and value with an equals sign between them, in order, with a
/// semicolon between two; without a cookie there is none.
pub proof fn law_cookie_header(v: Seq<KvPairView>, p: KvPairView)
    ensures
        header_of(seq![]) is None,
        header_of(seq![p]) == Some(p.key + "="@ + p.value),
        v.len() > 0 && header_of(v) is Some ==> header_of(v.push(p)) == Some(
            header_of(v)->0 + "; "@ + (p.key + "="@ + p.value),
        ),
{
    reveal_strlit("=");
    let none = Seq::<KvPairView>::empty();
    assert(pair_texts(none) =~= seq![]);
    let one = p.key + "="@ + p.value;
    assert(pair_texts(seq![p]) =~= seq![one]);
    assert(join(seq![one], "; "@) == one);
    let t = pair_texts(v);
    assert(pair_texts(v.push(p)) =~= t.push(one));
    assert(t.push(one).drop_last() =~= t);
}

/// Cookies are added to a request as one header more, after all others; without any, and where the
/// request has its own, it stays as it is.
pub proof fn law_cookies_added(req: HttpRequestView, v: Seq<char>)
    ensures
        with_cookies(req, None) == req,
        (exists|i: int|
            0 <= i < req.headers.len() && lower(trim((#[trigger] req.headers[i]).key)) == "cookie"@)
            ==> with_cookies(req, Some(v)) == req,
        !(exists|i: int|
            0 <= i < req.headers.len() && lower(trim((#[trigger] req.headers[i]).key)) == "cookie"@)
            ==> with_cookies(req, Some(v)) == (HttpRequestView {
            headers: req.headers.push(KvPairView { key: "Cookie"@, value: v }),
            ..req
        }),
{
    reveal_strlit("cookie");
    assert(lower("cookie"@) =~= "cookie"@);
    if exists|i: int|
        0 <= i < req.headers.len() && lower(trim((#[trigger] req.headers[i]).key)) == "cookie"@ {
        let i = choose|i: int|
            0 <= i < req.headers.len() && lower(trim((#[trigger] req.headers[i]).key))
                == "cookie"@;
        assert(is_cookie_header(req.headers[i]));
    }
    if names_cookies(req) {
        let i = choose|i: int|
            0 <= i < req.headers.len() && is_cookie_header(#[trigger] req.headers[i]);
        assert(lower(trim(req.headers[i].key)) == "cookie"@);
    }
}

/// Taking the cookies out of headers takes nothing else out.
pub proof fn law_cookies_taken_out(h: Seq<KvPairView>, x: KvPairView)
    ensures
        without_cookies(seq![]).len() == 0,
        lower(trim(x.key)) == "cookie"@ ==> without_cookies(h.push(x)) == without_cookies(h),
        lower(trim(x.key)) != "cookie"@ ==> without_cookies(h.push(x)) == without_cookies(h).push(x),
{
    reveal_strlit("cookie");
    assert(lower("cookie"@) =~= "cookie"@);
    assert(h.push(x).drop_last() =~= h);
}

/// When a cookie expires is told in milliseconds; a time before 1970 is not told.
pub proof fn law_expiry_told(s: i64)
    ensures
        ms_of(None) is None,
        s < 0 ==> ms_of(Some(s)) is None,
        0 <= s <= 18_446_744_073_709_551 ==> ms_of(Some(s)) == Some((s * 1000) as u64),
        s > 18_446_744_073_709_551 ==> ms_of(Some(s)) == Some(u64::MAX),
{
}

/// Cookies are listed by domain, then by path, then by name.
pub proof fn law_cookie_order(a: CookieKeyView, b: CookieKeyView)
    ensures
        a.domain != b.domain ==> (key_less(a, b) <==> less(a.domain, b.domain)),
        a.domain == b.domain && a.path != b.path ==> (key_less(a, b) <==> less(a.path, b.path)),
        a.domain == b.domain && a.path == b.path ==> (key_less(a, b) <==> less(a.name, b.name)),
        a != b ==> key_less(a, b) || key_less(b, a),
{
    lemma_less_total(a.domain, b.domain);
    lemma_less_total(a.path, b.path);
    lemma_less_total(a.name, b.name);
}

/// What is read of a cookie in a file: its members by their names; the domain is that of the group
/// it stands in unless it has its own; a switch is on if it says so; and a time is a number of
/// milliseconds or a date.
pub proof fn law_cookie_members(m: Seq<(Seq<char>, JsonView)>, domain: Seq<char>, t: Seq<char>)
    ensures
        lookup(m, "name"@) == Some(JsonView::Str(t)) ==> input_of(m, domain).name == t,
        lookup(m, "value"@) == Some(JsonView::Str(t)) ==> input_of(m, domain).value == t,
        lookup(m, "path"@) == Some(JsonView::Str(t)) ==> input_of(m, domain).path == t,
        lookup(m, "path"@) is None ==> input_of(m, domain).path.len() == 0,
        lookup(m, "domain"@) is None ==> input_of(m, domain).domain == domain,
        lookup(m, "domain"@) == Some(JsonView::Str(t)) && !is_blank(t) ==> input_of(m, domain).domain
            == trim(t),
        lookup(m, "secure"@) is None ==> !input_of(m, domain).secure,
        lookup(m, "secure"@) == Some(JsonView::Bool(true)) ==> input_of(m, domain).secure,
        lookup(m, "secure"@) == Some(JsonView::Bool(false)) ==> !input_of(m, domain).secure,
        lookup(m, "secure"@) == Some(JsonView::Str(t)) ==> (input_of(m, domain).secure <==> lower(
            trim(t),
        ) == "true"@ || lower(trim(t)) == "yes"@ || lower(trim(t)) == "1"@),
        lookup(m, "expires"@) is None ==> input_of(m, domain).expires_ms is None,
        lookup(m, "expires"@) matches Some(JsonView::Number(NumberView::Int(i))) ==> 0 <= i
            <= u64::MAX ==> input_of(m, domain).expires_ms == Some(i as u64),
        lookup(m, "expires"@) == Some(JsonView::Str(t)) ==> (match parsed_iso(t) {
            Some(ms) => input_of(m, domain).expires_ms == Some(ms as u64),
            None => input_of(m, domain).expires_ms is None,
        }),
{
    let none = Seq::<char>::empty();
    assert(trim(none).len() == 0);
}

/// Why a cookie was not taken is told: that it has expired, that it is for another domain, or what
/// else was said.
pub proof fn law_refusal_told(domain: Seq<char>, e: Seq<char>)
    ensures
        refusal_text(RefusalView::Expired, domain) == "过期时间已经过去了，这条 cookie 存不下"@,
        refusal_text(RefusalView::DomainMismatch, domain) == "域 "@ + domain + " 与该 cookie 不匹配"@,
        refusal_text(RefusalView::Other(e), domain) == "保存失败: "@ + e,
{
}

} // verus!
