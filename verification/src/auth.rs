//! The two ways of authentication that take more than one exchange: Digest and OAuth 2.0.
//!
//! Nothing is sent from here. For Digest this module reads the challenge of a 401 response and
//! makes the request that answers it; for OAuth 2.0 it says whether a token has to be asked for,
//! makes that request and reads the reply.
use crate::assertion::{find_header, header_value};
use crate::json::{member, object_of, parse_json, parsed_json, str_of, Json, JsonView};
use crate::model::{
    empty_digest, AuthType, ClientAuth, DigestAuth, HttpSpec, HttpSpecView, Oauth2Auth,
    Oauth2AuthView,
};
use crate::number::{print_number, printed};
use crate::report::{pair, KvPair, KvPairView};
use crate::request::{
    base64_of, basic_credentials, basic_value, encode_uri_component, encoded, HttpRequest, HttpRequestView,
    RequestBody, RequestBodyView,
};
use crate::table::{lookup, put_sorted, SortedMap};
use crate::text::{
    alnum, ascii_white, back_of, blank, cat, cat3, chars_of, copy_text, empty, find, find_from,
    is_alnum, is_ascii_text, is_ascii_white, is_blank, join, joined, lemma_find_least,
    lemma_find_occurs, lemma_seek_is, lemma_views_push, lower, nat_text, opt_view, pieces, same_ignoring_case, seek, seek_char, split,
    sub_text, to_lower, to_upper, trim, trim_back, trimmed, u128_text, u64_text, upper, uppercase,
    views, Duplicate,
};
use vstd::prelude::*;

verus! {

// ---- scanning --------------------------------------------------------------------------

/// A class of characters in a challenge.
#[derive(Clone, Copy, PartialEq, Eq, Structural)]
pub enum Class {
    White,
    Separator,
    Word,
    Token,
}

/// Whether a character is in a class.
pub open spec fn in_class(k: Class, c: char) -> bool {
    match k {
        Class::White => is_ascii_white(c),
        Class::Separator => c == ',' || is_ascii_white(c),
        Class::Word => is_alnum(c) || c == '-' || c == '_',
        Class::Token => c != ',' && !is_ascii_white(c),
    }
}

/// The first position from `i` on that is not in a class.
pub open spec fn pass(s: Seq<char>, k: Class, i: int) -> int
    decreases s.len() - i,
{
    if 0 <= i < s.len() && in_class(k, s[i]) {
        pass(s, k, i + 1)
    } else {
        i
    }
}

proof fn lemma_pass(s: Seq<char>, k: Class, i: int)
    requires
        0 <= i <= s.len(),
    ensures
        i <= pass(s, k, i) <= s.len(),
    decreases s.len() - i,
{
    if i < s.len() && in_class(k, s[i]) {
        lemma_pass(s, k, i + 1);
    }
}

fn passed(cs: &[char], k: Class, from: usize) -> (r: usize)
    requires
        from <= cs@.len(),
    ensures
        r == pass(cs@, k, from as int),
        from <= r <= cs@.len(),
{
    let mut i: usize = from;
    while i < cs.len()
        invariant_except_break
            from <= i <= cs@.len(),
            pass(cs@, k, from as int) == pass(cs@, k, i as int),
        ensures
            i == pass(cs@, k, from as int),
            from <= i <= cs@.len(),
        decreases cs@.len() - i,
    {
        let c: char = cs[i];
        let inside: bool = match k {
            Class::White => ascii_white(c),
            Class::Separator => c == ',' || ascii_white(c),
            Class::Word => alnum(c) || c == '-' || c == '_',
            Class::Token => c != ',' && !ascii_white(c),
        };
        if !inside {
            break;
        }
        i = i + 1;
    }
    i
}

// ---- digest challenge ------------------------------------------------------------------

/// Whether the scheme name at `i` begins a challenge: it is at the start or after a comma, and
/// white space follows it.
pub open spec fn scheme_at(l: Seq<char>, i: int) -> bool {
    let before = trim_back(l.take(i));
    (before.len() == 0 || before.last() == ',') && i + 6 < l.len() && is_ascii_white(l[i + 6])
}

/// Where the parameters of the digest challenge begin in a header in lower case.
pub open spec fn params_start(l: Seq<char>, from: int) -> Option<int>
    decreases l.len() - from,
    via params_start_decreases
{
    match find_from(l, "digest"@, from) {
        None => None,
        Some(i) => if scheme_at(l, i) {
            Some(pass(l, Class::White, i + 6))
        } else {
            params_start(l, i + 6)
        },
    }
}

#[via_fn]
proof fn params_start_decreases(l: Seq<char>, from: int) {
    reveal_strlit("digest");
    if find_from(l, "digest"@, from) is Some {
        lemma_find_occurs(l, "digest"@, from);
    }
}

/// The text of a quoted value that begins at `i`; a backslash stands for the character after it.
pub open spec fn quoted_text(s: Seq<char>, i: int) -> Seq<char>
    decreases s.len() - i,
{
    if i < 0 || i >= s.len() || s[i] == '"' {
        seq![]
    } else if s[i] == '\\' && i + 1 < s.len() {
        seq![s[i + 1]] + quoted_text(s, i + 2)
    } else {
        seq![s[i]] + quoted_text(s, i + 1)
    }
}

/// Where a quoted value that begins at `i` ends.
pub open spec fn quoted_end(s: Seq<char>, i: int) -> int
    decreases s.len() - i,
{
    if i < 0 || i >= s.len() || s[i] == '"' {
        i
    } else if s[i] == '\\' && i + 1 < s.len() {
        quoted_end(s, i + 2)
    } else {
        quoted_end(s, i + 1)
    }
}

proof fn lemma_quoted_end(s: Seq<char>, i: int)
    requires
        0 <= i <= s.len(),
    ensures
        i <= quoted_end(s, i) <= s.len(),
    decreases s.len() - i,
{
    if i < s.len() && s[i] != '"' {
        if s[i] == '\\' && i + 1 < s.len() {
            lemma_quoted_end(s, i + 2);
        } else {
            lemma_quoted_end(s, i + 1);
        }
    }
}

/// The parameters from `i` on, added to `acc`. Reading stops at what is no parameter.
pub open spec fn params_from(
    s: Seq<char>,
    i: int,
    acc: Seq<(Seq<char>, Seq<char>)>,
) -> Seq<(Seq<char>, Seq<char>)>
    decreases s.len() + 1 - i,
    via params_from_decreases
{
    if i < 0 || i >= s.len() {
        acc
    } else {
        let a = pass(s, Class::Separator, i);
        let k = pass(s, Class::Word, a);
        let e = pass(s, Class::White, k);
        if k == a || e >= s.len() || s[e] != '=' {
            acc
        } else {
            let key = lower(s.subrange(a, k));
            let v = pass(s, Class::White, e + 1);
            if v < s.len() && s[v] == '"' {
                params_from(
                    s,
                    quoted_end(s, v + 1) + 1,
                    put_sorted(acc, key, quoted_text(s, v + 1)),
                )
            } else {
                let t = pass(s, Class::Token, v);
                params_from(s, t, put_sorted(acc, key, s.subrange(v, t)))
            }
        }
    }
}

#[via_fn]
proof fn params_from_decreases(s: Seq<char>, i: int, acc: Seq<(Seq<char>, Seq<char>)>) {
    if 0 <= i < s.len() {
        let a = pass(s, Class::Separator, i);
        lemma_pass(s, Class::Separator, i);
        let k = pass(s, Class::Word, a);
        lemma_pass(s, Class::Word, a);
        let e = pass(s, Class::White, k);
        lemma_pass(s, Class::White, k);
        if e < s.len() {
            let v = pass(s, Class::White, e + 1);
            lemma_pass(s, Class::White, e + 1);
            lemma_pass(s, Class::Token, v);
            if v < s.len() {
                lemma_quoted_end(s, v + 1);
            }
        }
    }
}

/// The parameters of the digest challenge of a `WWW-Authenticate` header.
pub open spec fn challenge_of(header: Seq<char>) -> Option<Seq<(Seq<char>, Seq<char>)>> {
    match params_start(lower(header), 0) {
        None => None,
        Some(i) => {
            let ps = params_from(header.skip(i), 0, seq![]);
            if ps.len() > 0 {
                Some(ps)
            } else {
                None
            }
        },
    }
}

fn find_digest_scheme(header: &str) -> (r: Option<usize>)
    ensures
        match r {
            Some(i) => params_start(lower(header@), 0) == Some(i as int) && i <= header@.len(),
            None => params_start(lower(header@), 0) is None,
        },
{
    let low: String = to_lower(header);
    let cs: Vec<char> = chars_of(low.as_str());
    let word: Vec<char> = chars_of("digest");
    proof {
        reveal_strlit("digest");
    }
    let mut from: usize = 0;
    while from <= cs.len()
        invariant
            from <= cs@.len(),
            cs@ == lower(header@),
            word@ == "digest"@,
            word@.len() == 6,
            params_start(cs@, 0) == params_start(cs@, from as int),
        decreases cs@.len() - from,
    {
        match find(cs.as_slice(), word.as_slice(), from) {
            None => {
                return None;
            },
            Some(i) => {
                let head: String = sub_text(cs.as_slice(), 0, i);
                assert(head@ =~= cs@.take(i as int));
                let hs: Vec<char> = chars_of(head.as_str());
                let end: usize = back_of(hs.as_slice(), 0);
                assert(hs@.subrange(0, hs@.len() as int) =~= cs@.take(i as int));
                let ghost before = trim_back(cs@.take(i as int));
                assert(before == hs@.subrange(0, end as int));
                let after: usize = i + 6;
                if (end == 0 || hs[end - 1] == ',') && after < cs.len() && ascii_white(cs[after]) {
                    assert(scheme_at(cs@, i as int));
                    let start: usize = passed(cs.as_slice(), Class::White, after);
                    return Some(start);
                }
                assert(!scheme_at(cs@, i as int));
                from = after;
            },
        }
    }
    None
}

fn read_quoted(cs: &[char], from: usize) -> (r: (String, usize))
    requires
        from <= cs@.len(),
    ensures
        r.0@ == quoted_text(cs@, from as int),
        r.1 == quoted_end(cs@, from as int),
        from <= r.1 <= cs@.len(),
{
    let mut out: String = String::new();
    let mut i: usize = from;
    while i < cs.len() && cs[i] != '"'
        invariant
            from <= i <= cs@.len(),
            out@ + quoted_text(cs@, i as int) == quoted_text(cs@, from as int),
            quoted_end(cs@, i as int) == quoted_end(cs@, from as int),
        decreases cs@.len() - i,
    {
        let ghost before = out@;
        let step: usize = if cs[i] == '\\' && cs.len() - i > 1 {
            1
        } else {
            0
        };
        out.push(cs[i + step]);
        assert(out@ + quoted_text(cs@, i + step + 1) =~= before + quoted_text(cs@, i as int));
        i = i + step + 1;
    }
    assert(out@ + quoted_text(cs@, i as int) =~= out@);
    (out, i)
}

/// Reads the digest challenge of a `WWW-Authenticate` header, which may offer other schemes too.
pub fn parse_digest_challenge(header: &str) -> (r: Option<SortedMap<String>>)
    ensures
        opt_view(r) == challenge_of(header@),
{
    let start: usize = match find_digest_scheme(header) {
        Some(i) => i,
        None => {
            return None;
        },
    };
    let all: Vec<char> = chars_of(header);
    let rest: String = sub_text(all.as_slice(), start, all.len());
    assert(rest@ =~= header@.skip(start as int));
    let cs: Vec<char> = chars_of(rest.as_str());
    let ghost s = cs@;
    let mut out: SortedMap<String> = SortedMap::new();
    let mut i: usize = 0;
    while i < cs.len()
        invariant_except_break
            params_from(s, i as int, out@) == params_from(s, 0, seq![]),
        invariant
            s == cs@,
        ensures
            out@ == params_from(s, 0, seq![]),
        decreases cs@.len() - i,
    {
        let a: usize = passed(cs.as_slice(), Class::Separator, i);
        let k: usize = passed(cs.as_slice(), Class::Word, a);
        if k == a {
            break;
        }
        let word: String = sub_text(cs.as_slice(), a, k);
        let key: String = to_lower(word.as_str());
        let e: usize = passed(cs.as_slice(), Class::White, k);
        if e >= cs.len() || cs[e] != '=' {
            break;
        }
        let v: usize = passed(cs.as_slice(), Class::White, e + 1);
        if v < cs.len() && cs[v] == '"' {
            let (text, end): (String, usize) = read_quoted(cs.as_slice(), v + 1);
            out.insert(key, text);
            if end >= cs.len() {
                assert(params_from(s, end + 1, out@) == out@);
                break;
            }
            i = end + 1;
        } else {
            let t: usize = passed(cs.as_slice(), Class::Token, v);
            let text: String = sub_text(cs.as_slice(), v, t);
            out.insert(key, text);
            i = t;
        }
    }
    if out.is_empty() {
        None
    } else {
        Some(out)
    }
}

// ---- digest answer ---------------------------------------------------------------------

/// A lower-case hexadecimal digit.
pub open spec fn is_hex(c: char) -> bool {
    0x30 <= c as u32 <= 0x39 || 0x61 <= c as u32 <= 0x66
}

/// The MD5 digest of a text in UTF-8, in hexadecimal.
pub uninterp spec fn md5_text(s: Seq<char>) -> Seq<char>;

/// `md5::compute` on the bytes of a text, printed with the `LowerHex` of `md5::Digest`: two
/// hexadecimal digits for each of sixteen bytes. The result depends on the text alone.
#[verifier::external_body]
pub(crate) fn md5_hex(s: &str) -> (r: String)
    ensures
        r@ == md5_text(s@),
        r@.len() == 32,
        forall|i: int| 0 <= i < r@.len() ==> is_hex(#[trigger] r@[i]),
{
    format!("{:x}", md5::compute(s.as_bytes()))
}

/// The path and query of a URL.
pub open spec fn uri_of(url: Seq<char>) -> Seq<char> {
    let from = match find_from(url, "//"@, 0) {
        Some(i) => i + 2,
        None => 0,
    };
    let j = seek(url, '/', from);
    if j < url.len() {
        url.skip(j)
    } else {
        "/"@
    }
}

/// The path and query of a URL; a URL without a path has the path `/`.
pub fn request_uri(url: &str) -> (r: String)
    ensures
        r@ == uri_of(url@),
{
    let cs: Vec<char> = chars_of(url);
    let n: usize = cs.len();
    let slashes: Vec<char> = chars_of("//");
    proof {
        reveal_strlit("//");
        assert(slashes@.len() == 2);
    }
    let from: usize = match find(cs.as_slice(), slashes.as_slice(), 0) {
        Some(i) => i + slashes.len(),
        None => 0,
    };
    let j: usize = seek_char(cs.as_slice(), '/', from);
    if j < n {
        let t: String = sub_text(cs.as_slice(), j, cs.len());
        assert(t@ =~= url@.skip(j as int));
        t
    } else {
        copy_text("/")
    }
}

/// A client nonce made of a time, a counter and the name of a thread.
pub open spec fn nonce_of(nanos: nat, seq: nat, thread: Seq<char>) -> Seq<char> {
    md5_text(nat_text(nanos) + ":"@ + nat_text(seq) + ":"@ + thread).take(16)
}

/// A client nonce made of a time, a counter and the name of a thread. It is no secret; it has to
/// differ from call to call, which the counter sees to.
pub fn client_nonce(nanos: u128, seq: u64, thread: &str) -> (r: String)
    ensures
        r@ == nonce_of(nanos as nat, seq as nat, thread@),
        r@.len() == 16,
        forall|i: int| 0 <= i < r@.len() ==> is_hex(#[trigger] r@[i]),
{
    let mut t: String = u128_text(nanos);
    t.push_str(":");
    let n: String = u64_text(seq);
    t.push_str(n.as_str());
    t.push_str(":");
    t.push_str(thread);
    let h: String = md5_hex(t.as_str());
    let cs: Vec<char> = chars_of(h.as_str());
    let r: String = sub_text(cs.as_slice(), 0, 16);
    assert(r@ =~= h@.take(16));
    r
}

/// What an answer to a digest challenge is made of besides the challenge.
pub struct DigestOpts<'a> {
    pub username: &'a str,
    pub password: &'a str,
    pub method: &'a str,
    pub url: &'a str,
    /// The client nonce; `None` takes the fresh one.
    pub cnonce: Option<&'a str>,
    /// The nonce count; `None` is the first use.
    pub nc: Option<&'a str>,
}

/// A parameter of a challenge, or nothing.
pub open spec fn param(ch: Seq<(Seq<char>, Seq<char>)>, name: Seq<char>) -> Seq<char> {
    match lookup(ch, name) {
        Some(v) => v,
        None => seq![],
    }
}

/// Whether one of the texts is `auth`, whatever its case.
pub open spec fn offers_auth(qops: Seq<Seq<char>>) -> bool {
    exists|i: int| 0 <= i < qops.len() && lower(trim(#[trigger] qops[i])) == lower("auth"@)
}

/// Whether the answer uses the quality of protection `auth`.
pub open spec fn uses_qop(ch: Seq<(Seq<char>, Seq<char>)>) -> bool {
    match lookup(ch, "qop"@) {
        Some(q) => offers_auth(split(q, ',')),
        None => false,
    }
}

/// The first hash: of the user, the realm and the password; for `MD5-sess` with the nonces.
pub open spec fn first_hash(
    ch: Seq<(Seq<char>, Seq<char>)>,
    username: Seq<char>,
    password: Seq<char>,
    cnonce: Seq<char>,
) -> Seq<char> {
    let h = md5_text(username + ":"@ + param(ch, "realm"@) + ":"@ + password);
    if lower(param(ch, "algorithm"@)) == lower("MD5-sess"@) {
        md5_text(h + ":"@ + param(ch, "nonce"@) + ":"@ + cnonce)
    } else {
        h
    }
}

/// The response to a challenge.
pub open spec fn digest_response(
    ch: Seq<(Seq<char>, Seq<char>)>,
    username: Seq<char>,
    password: Seq<char>,
    method: Seq<char>,
    url: Seq<char>,
    cnonce: Seq<char>,
    nc: Seq<char>,
) -> Seq<char> {
    let h1 = first_hash(ch, username, password, cnonce);
    let h2 = md5_text(uppercase(method) + ":"@ + uri_of(url));
    let nonce = param(ch, "nonce"@);
    if uses_qop(ch) {
        md5_text(h1 + ":"@ + nonce + ":"@ + nc + ":"@ + cnonce + ":auth:"@ + h2)
    } else {
        md5_text(h1 + ":"@ + nonce + ":"@ + h2)
    }
}

/// A parameter with a quoted value.
pub open spec fn quoted_param(name: Seq<char>, value: Seq<char>) -> Seq<char> {
    name + "=\""@ + value + "\""@
}

/// The parameters of an answer to a challenge, whose response is given.
pub open spec fn digest_params(
    ch: Seq<(Seq<char>, Seq<char>)>,
    username: Seq<char>,
    url: Seq<char>,
    cnonce: Seq<char>,
    nc: Seq<char>,
    response: Seq<char>,
) -> Seq<Seq<char>> {
    seq![
        quoted_param("username"@, username),
        quoted_param("realm"@, param(ch, "realm"@)),
        quoted_param("nonce"@, param(ch, "nonce"@)),
        quoted_param("uri"@, uri_of(url)),
        quoted_param("response"@, response),
    ] + (if param(ch, "algorithm"@).len() > 0 {
        seq!["algorithm="@ + param(ch, "algorithm"@)]
    } else {
        seq![]
    }) + (if uses_qop(ch) {
        seq!["qop=auth"@, "nc="@ + nc, quoted_param("cnonce"@, cnonce)]
    } else {
        seq![]
    }) + (match lookup(ch, "opaque"@) {
        Some(o) => seq![quoted_param("opaque"@, o)],
        None => seq![],
    })
}

/// The `Authorization` header that answers a challenge with a given response.
pub open spec fn answer_header(
    ch: Seq<(Seq<char>, Seq<char>)>,
    username: Seq<char>,
    url: Seq<char>,
    cnonce: Seq<char>,
    nc: Seq<char>,
    response: Seq<char>,
) -> Seq<char> {
    "Digest "@ + join(digest_params(ch, username, url, cnonce, nc, response), ", "@)
}

/// The `Authorization` header that answers a challenge.
pub open spec fn digest_header(
    ch: Seq<(Seq<char>, Seq<char>)>,
    username: Seq<char>,
    password: Seq<char>,
    method: Seq<char>,
    url: Seq<char>,
    cnonce: Seq<char>,
    nc: Seq<char>,
) -> Seq<char> {
    answer_header(
        ch,
        username,
        url,
        cnonce,
        nc,
        digest_response(ch, username, password, method, url, cnonce, nc),
    )
}

fn param_of(ch: &SortedMap<String>, name: &str) -> (r: String)
    ensures
        r@ == param(ch@, name@),
{
    match ch.get(name) {
        Some(v) => copy_text(v.as_str()),
        None => {
            let none: String = String::new();
            assert(none@ =~= seq![]);
            none
        },
    }
}

fn with_qop(ch: &SortedMap<String>) -> (r: bool)
    ensures
        r == uses_qop(ch@),
{
    let q: String = match ch.get("qop") {
        Some(q) => copy_text(q.as_str()),
        None => {
            return false;
        },
    };
    let ps: Vec<String> = pieces(q.as_str(), ',');
    let ghost v = views(ps@);
    let mut i: usize = 0;
    while i < ps.len()
        invariant
            i <= ps@.len(),
            v == views(ps@),
            v == split(q@, ','),
            lookup(ch@, "qop"@) == Some(q@),
            forall|k: int| 0 <= k < i ==> lower(trim(#[trigger] v[k])) != lower("auth"@),
        decreases ps@.len() - i,
    {
        assert(v[i as int] == ps@[i as int]@);
        let t: String = trimmed(ps[i].as_str());
        if same_ignoring_case(t.as_str(), "auth") {
            return true;
        }
        i = i + 1;
    }
    false
}

fn quoted(name: &str, value: &str) -> (r: String)
    ensures
        r@ == quoted_param(name@, value@),
{
    let mut out: String = cat3(name, "=\"", value);
    out.push_str("\"");
    out
}

fn push_text(v: &mut Vec<String>, t: String)
    ensures
        views(final(v)@) == views(old(v)@).push(t@),
{
    proof {
        lemma_views_push(v@, t);
    }
    v.push(t);
}

/// The `Authorization` header that answers a challenge with a given response.
pub fn answer_challenge(
    ch: &SortedMap<String>,
    username: &str,
    url: &str,
    cnonce: &str,
    nc: &str,
    response: &str,
) -> (r: String)
    ensures
        r@ == answer_header(ch@, username@, url@, cnonce@, nc@, response@),
{
    let mut parts: Vec<String> = Vec::new();
    assert(views(parts@) =~= seq![]);
    push_text(&mut parts, quoted("username", username));
    push_text(&mut parts, quoted("realm", param_of(ch, "realm").as_str()));
    push_text(&mut parts, quoted("nonce", param_of(ch, "nonce").as_str()));
    push_text(&mut parts, quoted("uri", request_uri(url).as_str()));
    push_text(&mut parts, quoted("response", response));
    let algorithm: String = param_of(ch, "algorithm");
    if !empty(algorithm.as_str()) {
        push_text(&mut parts, cat("algorithm=", algorithm.as_str()));
    }
    if with_qop(ch) {
        push_text(&mut parts, copy_text("qop=auth"));
        push_text(&mut parts, cat("nc=", nc));
        push_text(&mut parts, quoted("cnonce", cnonce));
    }
    if let Some(op) = ch.get("opaque") {
        push_text(&mut parts, quoted("opaque", op.as_str()));
    }
    assert(views(parts@) =~= digest_params(ch@, username@, url@, cnonce@, nc@, response@));
    let list: String = joined(&parts, ", ");
    cat("Digest ", list.as_str())
}

/// The `Authorization` header that answers a challenge, with the quality of protection `auth`
/// or none. `fresh` is the client nonce if the options give none.
pub fn build_digest_header(ch: &SortedMap<String>, o: &DigestOpts, fresh: &str) -> (r: String)
    ensures
        r@ == digest_header(
            ch@,
            o.username@,
            o.password@,
            o.method@,
            o.url@,
            match o.cnonce {
                Some(c) => c@,
                None => fresh@,
            },
            match o.nc {
                Some(n) => n@,
                None => "00000001"@,
            },
        ),
        is_ascii_text(o.method@) ==> r@ == answer_header(
            ch@,
            o.username@,
            o.url@,
            match o.cnonce {
                Some(c) => c@,
                None => fresh@,
            },
            match o.nc {
                Some(n) => n@,
                None => "00000001"@,
            },
            response_to(
                ch@,
                o.username@,
                o.password@,
                upper(o.method@) + ":"@ + uri_of(o.url@),
                match o.cnonce {
                    Some(c) => c@,
                    None => fresh@,
                },
                match o.nc {
                    Some(n) => n@,
                    None => "00000001"@,
                },
            ),
        ),
{
    let realm: String = param_of(ch, "realm");
    let nonce: String = param_of(ch, "nonce");
    let algorithm: String = param_of(ch, "algorithm");
    let use_qop: bool = with_qop(ch);
    let uri: String = request_uri(o.url);
    let cnonce: String = match o.cnonce {
        Some(c) => copy_text(c),
        None => copy_text(fresh),
    };
    let nc: String = match o.nc {
        Some(n) => copy_text(n),
        None => copy_text("00000001"),
    };
    let mut t: String = cat3(o.username, ":", realm.as_str());
    t.push_str(":");
    t.push_str(o.password);
    let mut h1: String = md5_hex(t.as_str());
    if same_ignoring_case(algorithm.as_str(), "MD5-sess") {
        let mut u: String = cat3(h1.as_str(), ":", nonce.as_str());
        u.push_str(":");
        u.push_str(cnonce.as_str());
        h1 = md5_hex(u.as_str());
    }
    assert(h1@ == first_hash(ch@, o.username@, o.password@, cnonce@));
    let upper: String = to_upper(o.method);
    let a2: String = cat3(upper.as_str(), ":", uri.as_str());
    let h2: String = md5_hex(a2.as_str());
    let mut a3: String = cat3(h1.as_str(), ":", nonce.as_str());
    if use_qop {
        a3.push_str(":");
        a3.push_str(nc.as_str());
        a3.push_str(":");
        a3.push_str(cnonce.as_str());
        a3.push_str(":auth:");
    } else {
        a3.push_str(":");
    }
    a3.push_str(h2.as_str());
    let response: String = md5_hex(a3.as_str());
    proof {
        lemma_response(ch@, o.username@, o.password@, o.method@, o.url@, cnonce@, nc@);
    }
    answer_challenge(ch, o.username, o.url, cnonce.as_str(), nc.as_str(), response.as_str())
}

/// The request that answers the digest challenge of a response, if there is one to answer: the
/// request is authenticated by Digest, the response is a 401 and offers the scheme.
pub open spec fn digest_retry_of(
    spec: HttpSpecView,
    req: HttpRequestView,
    status: u16,
    headers: Seq<KvPairView>,
    cnonce: Seq<char>,
) -> Option<HttpRequestView> {
    if spec.auth.kind != AuthType::Digest || status != 401 {
        None
    } else {
        let www = match header_value(headers, "www-authenticate"@, 0) {
            Some(v) => v,
            None => seq![],
        };
        match challenge_of(www) {
            None => None,
            Some(ch) => {
                let d = match spec.auth.digest {
                    Some(d) => d,
                    None => empty_digest(),
                };
                let value = digest_header(
                    ch,
                    d.username,
                    d.password,
                    req.method,
                    req.url,
                    cnonce,
                    "00000001"@,
                );
                Some(
                    HttpRequestView {
                        headers: req.headers.push(pair("Authorization"@, value)),
                        ..req
                    },
                )
            },
        }
    }
}

/// The request that answers the digest challenge of a response, if there is one to answer.
pub fn digest_retry(
    spec: &HttpSpec,
    req: &HttpRequest,
    status: u16,
    headers: &[KvPair],
    cnonce: &str,
) -> (r: Option<HttpRequest>)
    ensures
        opt_view(r) == digest_retry_of(spec@, req@, status, views(headers@), cnonce@),
{
    match spec.auth.kind {
        AuthType::Digest => {},
        _ => {
            return None;
        },
    }
    if status != 401 {
        return None;
    }
    let www: String = match find_header(headers, "www-authenticate") {
        Some(v) => copy_text(v),
        None => {
            let none: String = String::new();
            assert(none@ =~= seq![]);
            none
        },
    };
    match parse_digest_challenge(www.as_str()) {
        None => None,
        Some(ch) => {
            let d: DigestAuth = match &spec.auth.digest {
                Some(d) => d.duplicate(),
                None => DigestAuth::default(),
            };
            let value: String = build_digest_header(
                &ch,
                &DigestOpts {
                    username: d.username.as_str(),
                    password: d.password.as_str(),
                    method: req.method.as_str(),
                    url: req.url.as_str(),
                    cnonce: None,
                    nc: None,
                },
                cnonce,
            );
            Some(with_authorization(req, value.as_str()))
        },
    }
}

fn with_authorization(req: &HttpRequest, value: &str) -> (r: HttpRequest)
    ensures
        r@ == (HttpRequestView {
            headers: req@.headers.push(pair("Authorization"@, value@)),
            ..req@
        }),
{
    let mut retry: HttpRequest = req.duplicate();
    let h: KvPair = KvPair::new("Authorization", value);
    proof {
        lemma_views_push(retry.headers@, h);
    }
    retry.headers.push(h);
    retry
}

// ---- OAuth 2.0 -------------------------------------------------------------------------

/// A token that was granted.
#[derive(Debug, Clone, PartialEq)]
pub struct CachedToken {
    pub token: String,
    pub kind: String,
    /// When the token is no longer used, in milliseconds; zero is never.
    pub expires_at: u64,
}

/// What a `CachedToken` stands for.
#[verifier::ext_equal]
pub struct CachedTokenView {
    pub token: Seq<char>,
    pub kind: Seq<char>,
    pub expires_at: u64,
}

impl View for CachedToken {
    type V = CachedTokenView;

    open spec fn view(&self) -> CachedTokenView {
        CachedTokenView { token: self.token@, kind: self.kind@, expires_at: self.expires_at }
    }
}

impl Duplicate for CachedToken {
    fn duplicate(&self) -> (r: Self) {
        CachedToken {
            token: copy_text(self.token.as_str()),
            kind: copy_text(self.kind.as_str()),
            expires_at: self.expires_at,
        }
    }
}

/// The name of a place for credentials.
pub open spec fn client_auth_name(c: ClientAuth) -> Seq<char> {
    match c {
        ClientAuth::Header => "Header"@,
        ClientAuth::Body => "Body"@,
    }
}

/// The scope, or nothing.
pub open spec fn scope_of(o: Oauth2AuthView) -> Seq<char> {
    match o.scope {
        Some(s) => s,
        None => seq![],
    }
}

/// The key under which a token is kept. The secret is part of it: a changed secret asks for a
/// new token.
pub open spec fn token_key_of(o: Oauth2AuthView) -> Seq<char> {
    o.token_url + "|"@ + o.client_id + "|"@ + o.client_secret + "|"@ + scope_of(o) + "|"@
        + client_auth_name(o.client_auth)
}

/// The key under which a token is kept.
pub fn token_key(o: &Oauth2Auth) -> (r: String)
    ensures
        r@ == token_key_of(o@),
{
    let mut out: String = cat3(o.token_url.as_str(), "|", o.client_id.as_str());
    out.push_str("|");
    out.push_str(o.client_secret.as_str());
    out.push_str("|");
    let ghost before = out@;
    if let Some(s) = &o.scope {
        out.push_str(s.as_str());
    }
    assert(out@ =~= before + scope_of(o@));
    out.push_str("|");
    out.push_str(
        match o.client_auth {
            ClientAuth::Header => "Header",
            ClientAuth::Body => "Body",
        },
    );
    out
}

/// A changed secret asks for a new token: two configurations that differ in the secret alone
/// keep their tokens under different keys.
pub proof fn law_secret_in_key(a: Oauth2AuthView, b: Oauth2AuthView)
    requires
        a.token_url == b.token_url,
        a.client_id == b.client_id,
        scope_of(a) == scope_of(b),
        a.client_auth == b.client_auth,
        a.client_secret != b.client_secret,
    ensures
        token_key_of(a) != token_key_of(b),
{
    let front = a.token_url + "|"@ + a.client_id + "|"@;
    let back = "|"@ + scope_of(a) + "|"@ + client_auth_name(a.client_auth);
    let n = front.len() as int;
    assert(token_key_of(a) =~= front + a.client_secret + back);
    assert(token_key_of(b) =~= front + b.client_secret + back);
    if token_key_of(a) == token_key_of(b) {
        let len = token_key_of(a).len() - back.len();
        assert(token_key_of(a).subrange(n, len) =~= a.client_secret);
        assert(token_key_of(b).subrange(n, len) =~= b.client_secret);
    }
}

/// Whether a kept token can be used at a time.
pub open spec fn token_usable_at(t: CachedTokenView, now: u64) -> bool {
    t.expires_at == 0 || t.expires_at > now
}

/// Whether a kept token can be used at a time.
pub fn token_usable(t: &CachedToken, now: u64) -> (r: bool)
    ensures
        r == token_usable_at(t@, now),
{
    t.expires_at == 0 || t.expires_at > now
}

/// The fields of the form that asks for a token.
pub open spec fn token_form(o: Oauth2AuthView) -> Seq<Seq<char>> {
    seq!["grant_type=client_credentials"@] + (if is_blank(scope_of(o)) {
        seq![]
    } else {
        seq!["scope="@ + encoded(trim(scope_of(o)))]
    }) + (match o.client_auth {
        ClientAuth::Body => seq![
            "client_id="@ + encoded(o.client_id),
            "client_secret="@ + encoded(o.client_secret),
        ],
        ClientAuth::Header => seq![],
    })
}

/// The request that asks for a token.
pub open spec fn token_request_of(o: Oauth2AuthView) -> HttpRequestView {
    let content = pair("Content-Type"@, "application/x-www-form-urlencoded"@);
    HttpRequestView {
        method: "POST"@,
        url: trim(o.token_url),
        headers: match o.client_auth {
            ClientAuth::Body => seq![content],
            ClientAuth::Header => seq![
                content,
                pair("Authorization"@, basic_value(o.client_id, o.client_secret)),
            ],
        },
        body: Some(RequestBodyView::Text(join(token_form(o), "&"@))),
    }
}

fn token_request(o: &Oauth2Auth) -> (r: HttpRequest)
    ensures
        r@ == token_request_of(o@),
{
    let mut form: Vec<String> = Vec::new();
    assert(views(form@) =~= seq![]);
    push_text(&mut form, copy_text("grant_type=client_credentials"));
    if let Some(s) = &o.scope {
        if !blank(s.as_str()) {
            let t: String = trimmed(s.as_str());
            let e: String = encode_uri_component(t.as_str());
            push_text(&mut form, cat("scope=", e.as_str()));
        }
    } else {
        assert(is_blank(scope_of(o@))) by {
            assert(scope_of(o@) =~= seq![]);
        }
    }
    let mut headers: Vec<KvPair> = Vec::new();
    assert(views(headers@) =~= seq![]);
    let content: KvPair = KvPair::new("Content-Type", "application/x-www-form-urlencoded");
    proof {
        lemma_views_push(headers@, content);
    }
    headers.push(content);
    match o.client_auth {
        ClientAuth::Body => {
            let id: String = encode_uri_component(o.client_id.as_str());
            let secret: String = encode_uri_component(o.client_secret.as_str());
            push_text(&mut form, cat("client_id=", id.as_str()));
            push_text(&mut form, cat("client_secret=", secret.as_str()));
        },
        ClientAuth::Header => {
            let value: String = basic_credentials(o.client_id.as_str(), o.client_secret.as_str());
            let h: KvPair = KvPair::new("Authorization", value.as_str());
            proof {
                lemma_views_push(headers@, h);
            }
            headers.push(h);
        },
    }
    assert(views(form@) =~= token_form(o@));
    let text: String = joined(&form, "&");
    let r: HttpRequest = HttpRequest {
        method: copy_text("POST"),
        url: trimmed(o.token_url.as_str()),
        headers,
        body: Some(RequestBody::Text(text)),
    };
    assert(r@.headers =~= token_request_of(o@).headers);
    r
}

/// What to do for a token.
pub enum TokenStep {
    /// The kept token is good.
    Use(CachedToken),
    /// No token can be asked for.
    Fail(String),
    /// This request asks for one.
    Ask(HttpRequest),
}

/// What a `TokenStep` stands for.
pub enum TokenStepView {
    Use(CachedTokenView),
    Fail(Seq<char>),
    Ask(HttpRequestView),
}

impl View for TokenStep {
    type V = TokenStepView;

    open spec fn view(&self) -> TokenStepView {
        match self {
            TokenStep::Use(t) => TokenStepView::Use(t@),
            TokenStep::Fail(e) => TokenStepView::Fail(e@),
            TokenStep::Ask(q) => TokenStepView::Ask(q@),
        }
    }
}

/// What to do for a token, given the one that is kept.
pub open spec fn token_step_of(
    o: Oauth2AuthView,
    cached: Option<CachedTokenView>,
    now: u64,
) -> TokenStepView {
    match cached {
        Some(t) if token_usable_at(t, now) => TokenStepView::Use(t),
        _ => if is_blank(o.token_url) {
            TokenStepView::Fail("OAuth 2.0：请先填写 Access Token URL"@)
        } else {
            TokenStepView::Ask(token_request_of(o))
        },
    }
}

/// What to do for a token, given the one that is kept.
pub fn token_step(o: &Oauth2Auth, cached: &Option<CachedToken>, now: u64) -> (r: TokenStep)
    ensures
        r@ == token_step_of(o@, opt_view(*cached), now),
{
    if let Some(t) = cached {
        if token_usable(t, now) {
            return TokenStep::Use(t.duplicate());
        }
    }
    if blank(o.token_url.as_str()) {
        return TokenStep::Fail(copy_text("OAuth 2.0：请先填写 Access Token URL"));
    }
    TokenStep::Ask(token_request(o))
}

/// The first characters of a text, enough to tell what it is.
pub open spec fn head_of(s: Seq<char>) -> Seq<char> {
    if s.len() <= 200 {
        s
    } else {
        s.take(200)
    }
}

fn head(s: &str) -> (r: String)
    ensures
        r@ == head_of(s@),
{
    let cs: Vec<char> = chars_of(s);
    if cs.len() <= 200 {
        copy_text(s)
    } else {
        let t: String = sub_text(cs.as_slice(), 0, 200);
        assert(t@ =~= s@.take(200));
        t
    }
}

/// A text with its first character in upper case.
pub open spec fn capitalized(s: Seq<char>) -> Seq<char> {
    if s.len() == 0 {
        s
    } else {
        uppercase(s.take(1)) + s.skip(1)
    }
}

/// A text with its first character in upper case.
pub fn capitalize(s: &str) -> (r: String)
    ensures
        r@ == capitalized(s@),
        is_ascii_text(s@) && s@.len() > 0 ==> r@ == upper(s@.take(1)) + s@.skip(1),
{
    let cs: Vec<char> = chars_of(s);
    if cs.len() == 0 {
        return copy_text(s);
    }
    let first: String = sub_text(cs.as_slice(), 0, 1);
    let rest: String = sub_text(cs.as_slice(), 1, cs.len());
    assert(first@ =~= s@.take(1));
    assert(rest@ =~= s@.skip(1));
    let up: String = to_upper(first.as_str());
    cat(up.as_str(), rest.as_str())
}

/// The text of a member of a JSON document, or nothing.
pub open spec fn text_member(v: JsonView, k: Seq<char>) -> Seq<char> {
    match object_of(v) {
        Some(m) => match lookup(m, k) {
            Some(x) => match str_of(x) {
                Some(t) => t,
                None => seq![],
            },
            None => seq![],
        },
        None => seq![],
    }
}

fn member_text(v: &Json, k: &str) -> (r: String)
    ensures
        r@ == text_member(v@, k@),
{
    if let Some(m) = v.as_object() {
        if let Some(x) = member(m, k) {
            if let Some(t) = x.as_str() {
                return copy_text(t);
            }
        }
    }
    let none: String = String::new();
    assert(none@ =~= seq![]);
    none
}

/// The text in a reply that gives the life of a token in seconds: a number, or a text that is
/// read as one without trimming. `doc` is the reply as JSON.
pub open spec fn lifetime_of(doc: Option<JsonView>) -> Option<Seq<char>> {
    match doc {
        None => None,
        Some(v) => match object_of(v) {
            None => None,
            Some(m) => match lookup(m, "expires_in"@) {
                Some(JsonView::Number(n)) => Some(printed(n)),
                Some(JsonView::Str(s)) => Some(s),
                _ => None,
            },
        },
    }
}

/// The text in a reply, given as JSON, that gives the life of a token in seconds.
pub fn lifetime_in(doc: &Option<Json>) -> (r: Option<String>)
    ensures
        opt_view(r) == lifetime_of(opt_view(*doc)),
{
    if let Some(v) = doc {
        if let Some(m) = v.as_object() {
            return match member(m, "expires_in") {
                Some(Json::Number(n)) => Some(print_number(n)),
                Some(Json::Str(s)) => Some(copy_text(s.as_str())),
                _ => None,
            };
        }
    }
    None
}

/// The text in a reply that gives the life of a token in seconds.
pub fn lifetime_text(body: &str) -> (r: Option<String>)
    ensures
        opt_view(r) == lifetime_of(parsed_json(body@)),
{
    lifetime_in(&parse_json(body))
}

/// The token of a reply, or why there is none. `life` is how many milliseconds the token is
/// used, if the reply limits that, and `doc` is the reply as JSON.
pub open spec fn token_of_reply(
    status: u16,
    body: Seq<char>,
    doc: Option<JsonView>,
    life: Option<u64>,
    now: u64,
) -> Result<CachedTokenView, Seq<char>> {
    if !(200 <= status < 300) {
        Err(
            "OAuth 2.0 取 token 失败（HTTP "@ + nat_text(status as nat) + "）："@ + head_of(body),
        )
    } else {
        match doc {
            None => Err("OAuth 2.0 取 token 失败：响应不是 JSON —— "@ + head_of(body)),
            Some(v) => if text_member(v, "access_token"@).len() == 0 {
                Err("OAuth 2.0 取 token 失败：响应中没有 access_token —— "@ + head_of(body))
            } else {
                let kind = text_member(v, "token_type"@);
                Ok(
                    CachedTokenView {
                        token: text_member(v, "access_token"@),
                        kind: capitalized(
                            if kind.len() == 0 {
                                "Bearer"@
                            } else {
                                kind
                            },
                        ),
                        expires_at: match life {
                            Some(l) => (now + l) as u64,
                            None => 0,
                        },
                    },
                )
            },
        }
    }
}

/// The token of a reply, which `doc` gives as JSON, or why there is none.
pub fn read_token_in(
    status: u16,
    body: &str,
    doc: &Option<Json>,
    life: Option<u64>,
    now: u64,
) -> (r: Result<CachedToken, String>)
    requires
        life is Some ==> now + life->0 <= u64::MAX,
    ensures
        match r {
            Ok(t) => token_of_reply(status, body@, opt_view(*doc), life, now) == Ok::<_, Seq<char>>(t@),
            Err(e) => token_of_reply(status, body@, opt_view(*doc), life, now) == Err::<CachedTokenView, _>(e@),
        },
{
    let shown: String = head(body);
    if !(200 <= status && status < 300) {
        let code: String = u64_text(status as u64);
        let mut e: String = cat3("OAuth 2.0 取 token 失败（HTTP ", code.as_str(), "）：");
        e.push_str(shown.as_str());
        return Err(e);
    }
    let parsed: &Json = match doc {
        Some(v) => v,
        None => {
            return Err(cat("OAuth 2.0 取 token 失败：响应不是 JSON —— ", shown.as_str()));
        },
    };
    let token: String = member_text(parsed, "access_token");
    if empty(token.as_str()) {
        return Err(
            cat("OAuth 2.0 取 token 失败：响应中没有 access_token —— ", shown.as_str()),
        );
    }
    let mut kind: String = member_text(parsed, "token_type");
    if empty(kind.as_str()) {
        kind = copy_text("Bearer");
    }
    let expires_at: u64 = match life {
        Some(l) => now + l,
        None => 0,
    };
    Ok(CachedToken { token, kind: capitalize(kind.as_str()), expires_at })
}

/// The token of a reply, or why there is none.
pub fn read_token(status: u16, body: &str, life: Option<u64>, now: u64) -> (r: Result<
    CachedToken,
    String,
>)
    requires
        life is Some ==> now + life->0 <= u64::MAX,
    ensures
        match r {
            Ok(t) => token_of_reply(status, body@, parsed_json(body@), life, now) == Ok::<_, Seq<char>>(t@),
            Err(e) => token_of_reply(status, body@, parsed_json(body@), life, now) == Err::<CachedTokenView, _>(e@),
        },
{
    read_token_in(status, body, &parse_json(body), life, now)
}

/// A request with a token.
pub fn with_token(req: &HttpRequest, t: &CachedToken) -> (r: HttpRequest)
    ensures
        r@ == (HttpRequestView {
            headers: req@.headers.push(pair("Authorization"@, t@.kind + " "@ + t@.token)),
            ..req@
        }),
        r@.headers.drop_last() == req@.headers,
        r@.headers.last().key == "Authorization"@,
        r@.headers.last().value == t@.kind + " "@ + t@.token,
        r@.method == req@.method && r@.url == req@.url && r@.body == req@.body,
{
    let value: String = cat3(t.kind.as_str(), " ", t.token.as_str());
    with_authorization(req, value.as_str())
}

// ---- laws of digest ----------------------------------------------------------------------

/// The response to a challenge as RFC 2617 has it (3.2.2.1), of what the second hash is made of:
/// the hash of the first hash, the nonce, with a quality of protection also the nonce count, the
/// client nonce and the word for it, and the second hash, with colons between them.
pub open spec fn response_to(
    ch: Seq<(Seq<char>, Seq<char>)>,
    username: Seq<char>,
    password: Seq<char>,
    a2: Seq<char>,
    cnonce: Seq<char>,
    nc: Seq<char>,
) -> Seq<char> {
    let realm = match lookup(ch, "realm"@) {
        Some(v) => v,
        None => seq![],
    };
    let nonce = match lookup(ch, "nonce"@) {
        Some(v) => v,
        None => seq![],
    };
    let plain = md5_text(username + ":"@ + realm + ":"@ + password);
    let h1 = match lookup(ch, "algorithm"@) {
        Some(v) if lower(v) == "md5-sess"@ => md5_text(plain + ":"@ + nonce + ":"@ + cnonce),
        _ => plain,
    };
    let middle = match lookup(ch, "qop"@) {
        Some(q) if exists|i: int|
            0 <= i < split(q, ',').len() && lower(trim(#[trigger] split(q, ',')[i])) == "auth"@ => nc
            + ":"@ + cnonce + ":auth:"@,
        _ => seq![],
    };
    md5_text(h1 + ":"@ + nonce + ":"@ + middle + md5_text(a2))
}

proof fn lemma_small_words()
    ensures
        lower("auth"@) == "auth"@,
        lower("MD5-sess"@) == "md5-sess"@,
        lower(seq![]) != "md5-sess"@,
{
    reveal_strlit("auth");
    reveal_strlit("MD5-sess");
    reveal_strlit("md5-sess");
    assert(lower("auth"@) =~= "auth"@);
    assert(lower("MD5-sess"@) =~= "md5-sess"@);
}

proof fn lemma_response(
    ch: Seq<(Seq<char>, Seq<char>)>,
    username: Seq<char>,
    password: Seq<char>,
    method: Seq<char>,
    url: Seq<char>,
    cnonce: Seq<char>,
    nc: Seq<char>,
)
    ensures
        digest_response(ch, username, password, method, url, cnonce, nc) == response_to(
            ch,
            username,
            password,
            uppercase(method) + ":"@ + uri_of(url),
            cnonce,
            nc,
        ),
{
    lemma_small_words();
    let h1 = first_hash(ch, username, password, cnonce);
    let h2 = md5_text(uppercase(method) + ":"@ + uri_of(url));
    let nonce = param(ch, "nonce"@);
    if uses_qop(ch) {
        assert(h1 + ":"@ + nonce + ":"@ + nc + ":"@ + cnonce + ":auth:"@ + h2 =~= h1 + ":"@ + nonce
            + ":"@ + (nc + ":"@ + cnonce + ":auth:"@) + h2);
    } else {
        assert(h1 + ":"@ + nonce + ":"@ + h2 =~= h1 + ":"@ + nonce + ":"@ + seq![] + h2);
    }
}

/// The second hash of an answer is that of the method of the request in capitals, a colon and the
/// URI of the request (RFC 2617, 3.2.2.3): every part of the answer is what the challenge, the
/// credentials and the request say.
pub proof fn law_digest_response(
    ch: Seq<(Seq<char>, Seq<char>)>,
    username: Seq<char>,
    password: Seq<char>,
    method: Seq<char>,
    url: Seq<char>,
    cnonce: Seq<char>,
    nc: Seq<char>,
    h1: Seq<char>,
    realm: Seq<char>,
    nonce: Seq<char>,
)
    requires
        lookup(ch, "realm"@) == Some(realm),
        lookup(ch, "nonce"@) == Some(nonce),
        match lookup(ch, "algorithm"@) {
            Some(v) => if lower(v) == "md5-sess"@ {
                h1 == md5_text(
                    md5_text(username + ":"@ + realm + ":"@ + password) + ":"@ + nonce + ":"@
                        + cnonce,
                )
            } else {
                h1 == md5_text(username + ":"@ + realm + ":"@ + password)
            },
            None => h1 == md5_text(username + ":"@ + realm + ":"@ + password),
        },
    ensures
        lookup(ch, "qop"@) is None ==> digest_header(
            ch,
            username,
            password,
            method,
            url,
            cnonce,
            nc,
        ) == answer_header(
            ch,
            username,
            url,
            cnonce,
            nc,
            md5_text(
                h1 + ":"@ + nonce + ":"@ + md5_text(uppercase(method) + ":"@ + uri_of(url)),
            ),
        ),
        lookup(ch, "qop"@) is Some && (exists|i: int|
            0 <= i < split(lookup(ch, "qop"@)->0, ',').len() && lower(
                trim(#[trigger] split(lookup(ch, "qop"@)->0, ',')[i]),
            ) == "auth"@) ==> digest_header(ch, username, password, method, url, cnonce, nc)
            == answer_header(
            ch,
            username,
            url,
            cnonce,
            nc,
            md5_text(
                h1 + ":"@ + nonce + ":"@ + nc + ":"@ + cnonce + ":auth:"@ + md5_text(
                    uppercase(method) + ":"@ + uri_of(url),
                ),
            ),
        ),
{
    lemma_small_words();
}

proof fn lemma_join_push(parts: Seq<Seq<char>>, x: Seq<char>, sep: Seq<char>)
    requires
        parts.len() > 0,
    ensures
        join(parts.push(x), sep) == join(parts, sep) + sep + x,
{
    assert(parts.push(x).drop_last() =~= parts);
}

proof fn lemma_words()
    ensures
        ", "@ + "realm"@ + "=\""@ == ", realm=\""@,
        ", "@ + "nonce"@ + "=\""@ == ", nonce=\""@,
        ", "@ + "uri"@ + "=\""@ == ", uri=\""@,
        ", "@ + "response"@ + "=\""@ == ", response=\""@,
        ", "@ + "cnonce"@ + "=\""@ == ", cnonce=\""@,
        ", "@ + "opaque"@ + "=\""@ == ", opaque=\""@,
        "Digest "@ + "username"@ + "=\""@ == "Digest username=\""@,
        ", "@ + "algorithm="@ == ", algorithm="@,
        ", "@ + "nc="@ == ", nc="@,
        ", "@ + "qop=auth"@ == ", qop=auth"@,
{
    reveal_strlit(", ");
    reveal_strlit("=\"");
    reveal_strlit("Digest username=\"");
    reveal_strlit("Digest ");
    reveal_strlit("username");
    reveal_strlit(", realm=\"");
    reveal_strlit("realm");
    reveal_strlit(", nonce=\"");
    reveal_strlit("nonce");
    reveal_strlit(", uri=\"");
    reveal_strlit("uri");
    reveal_strlit(", response=\"");
    reveal_strlit("response");
    reveal_strlit(", cnonce=\"");
    reveal_strlit("cnonce");
    reveal_strlit(", opaque=\"");
    reveal_strlit("opaque");
    reveal_strlit(", algorithm=");
    reveal_strlit("algorithm=");
    reveal_strlit(", qop=auth");
    reveal_strlit("qop=auth");
    reveal_strlit(", nc=");
    reveal_strlit("nc=");
    assert(", "@ + "realm"@ + "=\""@ =~= ", realm=\""@);
    assert(", "@ + "nonce"@ + "=\""@ =~= ", nonce=\""@);
    assert(", "@ + "uri"@ + "=\""@ =~= ", uri=\""@);
    assert(", "@ + "response"@ + "=\""@ =~= ", response=\""@);
    assert(", "@ + "cnonce"@ + "=\""@ =~= ", cnonce=\""@);
    assert(", "@ + "opaque"@ + "=\""@ =~= ", opaque=\""@);
    assert("Digest "@ + "username"@ + "=\""@ =~= "Digest username=\""@);
    assert(", "@ + "algorithm="@ =~= ", algorithm="@);
    assert(", "@ + "nc="@ =~= ", nc="@);
    assert(", "@ + "qop=auth"@ =~= ", qop=auth"@);
}

proof fn lemma_more_quoted(
    front: Seq<char>,
    parts: Seq<Seq<char>>,
    name: Seq<char>,
    value: Seq<char>,
    word: Seq<char>,
)
    requires
        parts.len() > 0,
        ", "@ + name + "=\""@ == word,
    ensures
        front + join(parts.push(quoted_param(name, value)), ", "@) == front + join(parts, ", "@)
            + word + value + "\""@,
{
    lemma_join_push(parts, quoted_param(name, value), ", "@);
    let a = front + join(parts, ", "@);
    assert(front + (join(parts, ", "@) + ", "@ + quoted_param(name, value)) =~= a + (", "@ + name
        + "=\""@) + value + "\""@);
}

proof fn lemma_more_plain(
    front: Seq<char>,
    parts: Seq<Seq<char>>,
    name: Seq<char>,
    value: Seq<char>,
    word: Seq<char>,
)
    requires
        parts.len() > 0,
        ", "@ + name == word,
    ensures
        front + join(parts.push(name + value), ", "@) == front + join(parts, ", "@) + word + value,
{
    lemma_join_push(parts, name + value, ", "@);
    let a = front + join(parts, ", "@);
    assert(front + (join(parts, ", "@) + ", "@ + (name + value)) =~= a + (", "@ + name) + value);
}

/// What an answer says, word for word: the user, the realm, the nonce, the URI and the response,
/// each in quotes; the algorithm if the challenge names one; with the quality of protection
/// `auth` the count and the client nonce; and what the challenge wants back.
#[verifier::spinoff_prover]
#[verifier::rlimit(60)]
pub proof fn law_answer_text(
    ch: Seq<(Seq<char>, Seq<char>)>,
    username: Seq<char>,
    url: Seq<char>,
    cnonce: Seq<char>,
    nc: Seq<char>,
    response: Seq<char>,
)
    ensures
        ({
            let realm = match lookup(ch, "realm"@) {
                Some(v) => v,
                None => seq![],
            };
            let nonce = match lookup(ch, "nonce"@) {
                Some(v) => v,
                None => seq![],
            };
            let always = "Digest username=\""@ + username + "\""@ + ", realm=\""@ + realm + "\""@
                + ", nonce=\""@ + nonce + "\""@ + ", uri=\""@ + uri_of(url) + "\""@
                + ", response=\""@ + response + "\""@;
            let named = match lookup(ch, "algorithm"@) {
                Some(v) if v.len() > 0 => always + ", algorithm="@ + v,
                _ => always,
            };
            let counted = match lookup(ch, "qop"@) {
                Some(q) if exists|i: int|
                    0 <= i < split(q, ',').len() && lower(trim(#[trigger] split(q, ',')[i]))
                        == "auth"@ => named + ", qop=auth"@ + ", nc="@ + nc + ", cnonce=\""@ + cnonce
                    + "\""@,
                _ => named,
            };
            answer_header(ch, username, url, cnonce, nc, response) == (match lookup(ch, "opaque"@) {
                Some(v) => counted + ", opaque=\""@ + v + "\""@,
                None => counted,
            })
        }),
{
    lemma_small_words();
    lemma_words();
    let f = "Digest "@;
    let realm = param(ch, "realm"@);
    let nonce = param(ch, "nonce"@);
    let uri = uri_of(url);
    let p1 = quoted_param("username"@, username);
    let p2 = quoted_param("realm"@, realm);
    let p3 = quoted_param("nonce"@, nonce);
    let p4 = quoted_param("uri"@, uri);
    let p5 = quoted_param("response"@, response);
    let l1 = seq![p1];
    let l2 = l1.push(p2);
    let l3 = l2.push(p3);
    let l4 = l3.push(p4);
    let l5 = l4.push(p5);
    assert(join(l1, ", "@) == p1);
    assert(f + p1 =~= f + "username"@ + "=\""@ + username + "\""@);
    lemma_more_quoted(f, l1, "realm"@, realm, ", realm=\""@);
    lemma_more_quoted(f, l2, "nonce"@, nonce, ", nonce=\""@);
    lemma_more_quoted(f, l3, "uri"@, uri, ", uri=\""@);
    lemma_more_quoted(f, l4, "response"@, response, ", response=\""@);
    assert(seq![p1, p2, p3, p4, p5] =~= l5);
    let alg = param(ch, "algorithm"@);
    lemma_more_plain(f, l5, "algorithm="@, alg, ", algorithm="@);
    let l6 = if alg.len() > 0 {
        l5.push("algorithm="@ + alg)
    } else {
        l5
    };
    let c1 = "qop=auth"@;
    let c2 = "nc="@ + nc;
    let c3 = quoted_param("cnonce"@, cnonce);
    let l7 = if uses_qop(ch) {
        l6.push(c1).push(c2).push(c3)
    } else {
        l6
    };
    lemma_join_push(l6, c1, ", "@);
    assert(f + (join(l6, ", "@) + ", "@ + c1) =~= f + join(l6, ", "@) + (", "@ + c1));
    lemma_more_plain(f, l6.push(c1), "nc="@, nc, ", nc="@);
    lemma_more_quoted(f, l6.push(c1).push(c2), "cnonce"@, cnonce, ", cnonce=\""@);
    match lookup(ch, "opaque"@) {
        Some(v) => {
            lemma_more_quoted(f, l7, "opaque"@, v, ", opaque=\""@);
            assert(digest_params(ch, username, url, cnonce, nc, response) =~= l7.push(
                quoted_param("opaque"@, v),
            ));
        },
        None => {
            assert(digest_params(ch, username, url, cnonce, nc, response) =~= l7);
        },
    }
}

/// The URI of a request is what follows the host in its URL, from the first slash on; where
/// nothing follows, it is `/`.
pub proof fn law_uri(scheme: Seq<char>, host: Seq<char>, path: Seq<char>)
    requires
        !scheme.contains('/'),
        !host.contains('/'),
    ensures
        uri_of(scheme + "//"@ + host + "/"@ + path) == "/"@ + path,
        uri_of(scheme + "//"@ + host) == "/"@,
{
    reveal_strlit("//");
    reveal_strlit("/");
    let n = scheme.len() as int;
    let a = scheme + "//"@ + host + "/"@ + path;
    let b = scheme + "//"@ + host;
    assert(a.take(n) =~= scheme && b.take(n) =~= scheme);
    lemma_slashes(a, scheme);
    lemma_slashes(b, scheme);
    assert forall|k: int| n + 2 <= k < n + 2 + host.len() implies a[k] != '/' && b[k] != '/' by {
        assert(a[k] == host[k - n - 2] && b[k] == host[k - n - 2]);
        assert(host.contains(host[k - n - 2]));
    }
    assert(a[n + 2 + host.len()] == '/');
    lemma_seek_is(a, '/', n + 2, n + 2 + host.len());
    lemma_seek_is(b, '/', n + 2, b.len() as int);
    assert(a.skip(n + 2 + host.len()) =~= "/"@ + path);
}

proof fn lemma_slashes(s: Seq<char>, scheme: Seq<char>)
    requires
        !scheme.contains('/'),
        s.len() >= scheme.len() + 2,
        s.take(scheme.len() as int) == scheme,
        s[scheme.len() as int] == '/',
        s[scheme.len() as int + 1] == '/',
    ensures
        find_from(s, "//"@, 0) == Some(scheme.len() as int),
{
    reveal_strlit("//");
    let n = scheme.len() as int;
    assert(s.subrange(n, n + 2) =~= "//"@);
    lemma_find_least(s, "//"@, 0, n);
    lemma_find_occurs(s, "//"@, 0);
    let f = find_from(s, "//"@, 0)->0;
    if f < n {
        assert(s.subrange(f, f + 2)[0] == '/');
        assert(s[f] == s.take(n)[f]);
        assert(scheme.contains(scheme[f]));
    }
}

/// A challenge is answered once, and only where there is one: the request is authenticated by
/// Digest, and it was refused with 401 and a challenge that offers the scheme. The answer is the
/// request as it was, with one header more at the end.
pub proof fn law_challenge_answered(
    spec: HttpSpecView,
    req: HttpRequestView,
    status: u16,
    headers: Seq<KvPairView>,
    cnonce: Seq<char>,
)
    ensures
        !(spec.auth.kind is Digest) ==> digest_retry_of(spec, req, status, headers, cnonce) is None,
        status != 401 ==> digest_retry_of(spec, req, status, headers, cnonce) is None,
        header_value(headers, "www-authenticate"@, 0) is None ==> digest_retry_of(
            spec,
            req,
            status,
            headers,
            cnonce,
        ) is None,
        spec.auth.kind is Digest && status == 401 && header_value(headers, "www-authenticate"@, 0) is Some
            ==> match challenge_of(header_value(headers, "www-authenticate"@, 0)->0) {
            None => digest_retry_of(spec, req, status, headers, cnonce) is None,
            Some(ch) => match digest_retry_of(spec, req, status, headers, cnonce) {
                None => false,
                Some(r) => {
                    &&& r.method == req.method
                    &&& r.url == req.url
                    &&& r.body == req.body
                    &&& r.headers.len() == req.headers.len() + 1
                    &&& r.headers.drop_last() == req.headers
                    &&& r.headers.last().key == "Authorization"@
                    &&& r.headers.last().value == (match spec.auth.digest {
                        Some(d) => digest_header(
                            ch,
                            d.username,
                            d.password,
                            req.method,
                            req.url,
                            cnonce,
                            "00000001"@,
                        ),
                        None => digest_header(
                            ch,
                            seq![],
                            seq![],
                            req.method,
                            req.url,
                            cnonce,
                            "00000001"@,
                        ),
                    })
                },
            },
        },
{
    let none = Seq::<char>::empty();
    if header_value(headers, "www-authenticate"@, 0) is None {
        reveal_strlit("digest");
        assert(lower(none) =~= none);
        assert(find_from(none, "digest"@, 0) is None);
        assert(params_start(none, 0) is None);
    }
    match digest_retry_of(spec, req, status, headers, cnonce) {
        Some(r) => {
            assert(r.headers.drop_last() =~= req.headers);
        },
        None => {},
    }
}

// ---- laws of challenges ------------------------------------------------------------------

proof fn lemma_pass_is(s: Seq<char>, k: Class, i: int, j: int)
    requires
        0 <= i <= j <= s.len(),
        forall|m: int| i <= m < j ==> in_class(k, #[trigger] s[m]),
        j < s.len() ==> !in_class(k, s[j]),
    ensures
        pass(s, k, i) == j,
    decreases j - i,
{
    if i < j {
        lemma_pass_is(s, k, i + 1, j);
    }
}

proof fn lemma_pass_shift(a: Seq<char>, b: Seq<char>, k: Class, i: int)
    requires
        0 <= i <= b.len(),
    ensures
        pass(a + b, k, a.len() + i) == a.len() + pass(b, k, i),
    decreases b.len() - i,
{
    if i < b.len() {
        assert((a + b)[a.len() + i] == b[i]);
        if in_class(k, b[i]) {
            lemma_pass_shift(a, b, k, i + 1);
        }
    }
}

proof fn lemma_quoted_shift(a: Seq<char>, b: Seq<char>, i: int)
    requires
        0 <= i <= b.len(),
    ensures
        quoted_end(a + b, a.len() + i) == a.len() + quoted_end(b, i),
        quoted_text(a + b, a.len() + i) == quoted_text(b, i),
    decreases b.len() - i,
{
    if i < b.len() && b[i] != '"' {
        assert((a + b)[a.len() + i] == b[i]);
        if b[i] == '\\' && i + 1 < b.len() {
            assert((a + b)[a.len() + i + 1] == b[i + 1]);
            lemma_quoted_shift(a, b, i + 2);
        } else {
            lemma_quoted_shift(a, b, i + 1);
        }
    } else if i < b.len() {
        assert((a + b)[a.len() + i] == b[i]);
    }
}

proof fn lemma_params_shift(
    a: Seq<char>,
    b: Seq<char>,
    i: int,
    acc: Seq<(Seq<char>, Seq<char>)>,
)
    requires
        0 <= i,
    ensures
        params_from(a + b, a.len() + i, acc) == params_from(b, i, acc),
    decreases b.len() + 1 - i,
{
    let s = a + b;
    let n = a.len() as int;
    if i < b.len() {
        let p = pass(b, Class::Separator, i);
        lemma_pass(b, Class::Separator, i);
        lemma_pass_shift(a, b, Class::Separator, i);
        let k = pass(b, Class::Word, p);
        lemma_pass(b, Class::Word, p);
        lemma_pass_shift(a, b, Class::Word, p);
        let e = pass(b, Class::White, k);
        lemma_pass(b, Class::White, k);
        lemma_pass_shift(a, b, Class::White, k);
        if k > p && e < b.len() && b[e] == '=' {
            assert(s[n + e] == b[e]);
            assert(s.subrange(n + p, n + k) =~= b.subrange(p, k));
            let key = lower(b.subrange(p, k));
            let v = pass(b, Class::White, e + 1);
            lemma_pass(b, Class::White, e + 1);
            lemma_pass_shift(a, b, Class::White, e + 1);
            if v < b.len() && b[v] == '"' {
                assert(s[n + v] == b[v]);
                lemma_quoted_end(b, v + 1);
                lemma_quoted_shift(a, b, v + 1);
                lemma_params_shift(
                    a,
                    b,
                    quoted_end(b, v + 1) + 1,
                    put_sorted(acc, key, quoted_text(b, v + 1)),
                );
            } else {
                if v < b.len() {
                    assert(s[n + v] == b[v]);
                }
                let t = pass(b, Class::Token, v);
                lemma_pass(b, Class::Token, v);
                lemma_pass_shift(a, b, Class::Token, v);
                assert(s.subrange(n + v, n + t) =~= b.subrange(v, t));
                lemma_params_shift(a, b, t, put_sorted(acc, key, b.subrange(v, t)));
            }
        } else if e < b.len() {
            assert(s[n + e] == b[e]);
        }
    }
}

/// Whether a text can name a parameter.
pub open spec fn is_param_name(name: Seq<char>) -> bool {
    &&& name.len() > 0
    &&& forall|i: int|
        0 <= i < name.len() ==> is_alnum(#[trigger] name[i]) || name[i] == '-' || name[i] == '_'
}

proof fn lemma_quoted_is(s: Seq<char>, i: int, j: int)
    requires
        0 <= i <= j < s.len(),
        s[j] == '"',
        forall|m: int| i <= m < j ==> (#[trigger] s[m]) != '"' && s[m] != '\\',
    ensures
        quoted_end(s, i) == j,
        quoted_text(s, i) == s.subrange(i, j),
    decreases j - i,
{
    if i < j {
        lemma_quoted_is(s, i + 1, j);
        assert(seq![s[i]] + s.subrange(i + 1, j) =~= s.subrange(i, j));
    } else {
        assert(s.subrange(i, j) =~= seq![]);
    }
}

/// Parameters are read one by one, whatever comes before them. One with a quoted value has what is
/// between the quotes, commas and white space included; names are read in lower case; and of two
/// of one name the later counts.
pub proof fn law_quoted_param_read(
    name: Seq<char>,
    value: Seq<char>,
    rest: Seq<char>,
    acc: Seq<(Seq<char>, Seq<char>)>,
)
    requires
        is_param_name(name),
        !value.contains('"') && !value.contains('\\'),
    ensures
        params_from(name + "=\""@ + value + "\""@ + rest, 0, acc) == params_from(
            rest,
            0,
            put_sorted(acc, lower(name), value),
        ),
        params_from(", "@ + rest, 0, acc) == params_from(rest, 0, acc) || rest.len() == 0,
{
    reveal_strlit("=\"");
    reveal_strlit("\"");
    reveal_strlit(", ");
    let s = name + "=\""@ + value + "\""@ + rest;
    let n = name.len() as int;
    let q = n + 2 + value.len();
    assert(s[0] == name[0]);
    lemma_pass_is(s, Class::Separator, 0, 0);
    assert forall|m: int| 0 <= m < n implies in_class(Class::Word, #[trigger] s[m]) by {
        assert(s[m] == name[m]);
    }
    assert(s[n] == '=' && s[n + 1] == '"');
    lemma_pass_is(s, Class::Word, 0, n);
    lemma_pass_is(s, Class::White, n, n);
    lemma_pass_is(s, Class::White, n + 1, n + 1);
    assert(s.subrange(0, n) =~= name);
    assert forall|m: int| n + 2 <= m < q implies (#[trigger] s[m]) != '"' && s[m] != '\\' by {
        assert(s[m] == value[m - n - 2]);
        assert(value.contains(value[m - n - 2]));
    }
    assert(s[q] == '"');
    lemma_quoted_is(s, n + 2, q);
    assert(s.subrange(n + 2, q) =~= value);
    let front = name + "=\""@ + value + "\""@;
    lemma_params_shift(front, rest, 0, put_sorted(acc, lower(name), value));
    if rest.len() > 0 {
        let t = ", "@ + rest;
        let p = pass(rest, Class::Separator, 0);
        assert(t[0] == ',' && t[1] == ' ');
        lemma_pass_shift(", "@, rest, Class::Separator, 0);
        assert(pass(t, Class::Separator, 2) == 2 + p);
        assert(pass(t, Class::Separator, 1) == 2 + p);
        assert(pass(t, Class::Separator, 0) == 2 + p);
        lemma_params_shift(", "@, rest, 0, acc);
        assert(params_from(t, 2, acc) == params_from(rest, 0, acc));
        assert(params_from(t, 0, acc) == params_from(t, 2, acc));
    }
}

/// A value without quotes ends at a comma or at white space.
pub proof fn law_plain_param_read(
    name: Seq<char>,
    value: Seq<char>,
    rest: Seq<char>,
    acc: Seq<(Seq<char>, Seq<char>)>,
)
    requires
        is_param_name(name),
        value.len() > 0,
        value[0] != '"',
        forall|i: int| 0 <= i < value.len() ==> (#[trigger] value[i]) != ',' && !is_ascii_white(value[i]),
        rest.len() == 0 || rest[0] == ',' || is_ascii_white(rest[0]),
    ensures
        params_from(name + "="@ + value + rest, 0, acc) == params_from(
            rest,
            0,
            put_sorted(acc, lower(name), value),
        ),
{
    reveal_strlit("=");
    let s = name + "="@ + value + rest;
    let n = name.len() as int;
    let t = n + 1 + value.len();
    assert(s[0] == name[0]);
    lemma_pass_is(s, Class::Separator, 0, 0);
    assert forall|m: int| 0 <= m < n implies in_class(Class::Word, #[trigger] s[m]) by {
        assert(s[m] == name[m]);
    }
    assert(s[n] == '=' && s[n + 1] == value[0]);
    lemma_pass_is(s, Class::Word, 0, n);
    lemma_pass_is(s, Class::White, n, n);
    lemma_pass_is(s, Class::White, n + 1, n + 1);
    assert(s.subrange(0, n) =~= name);
    assert forall|m: int| n + 1 <= m < t implies in_class(Class::Token, #[trigger] s[m]) by {
        assert(s[m] == value[m - n - 1]);
    }
    if rest.len() > 0 {
        assert(s[t] == rest[0]);
    }
    lemma_pass_is(s, Class::Token, n + 1, t);
    assert(s.subrange(n + 1, t) =~= value);
    let front = name + "="@ + value;
    lemma_params_shift(front, rest, 0, put_sorted(acc, lower(name), value));
}

/// A challenge is what follows the name of the scheme, whatever its case; one that says nothing is
/// none.
pub proof fn law_challenge_begins(word: Seq<char>, rest: Seq<char>)
    requires
        lower(word) == "digest"@,
        rest.len() > 0,
        !is_ascii_white(rest[0]),
    ensures
        challenge_of(word + " "@ + rest) == (if params_from(rest, 0, seq![]).len() > 0 {
            Some(params_from(rest, 0, seq![]))
        } else {
            None
        }),
{
    reveal_strlit("digest");
    reveal_strlit(" ");
    let h = word + " "@ + rest;
    let l = lower(h);
    assert(word.len() == lower(word).len());
    assert(l.subrange(0, 6) =~= "digest"@) by {
        assert forall|i: int| 0 <= i < 6 implies l[i] == "digest"@[i] by {
            assert(h[i] == word[i]);
            assert(lower(word)[i] == l[i]);
        }
    }
    assert(find_from(l, "digest"@, 0) == Some(0int));
    assert(l.take(0) =~= seq![]);
    assert(trim_back(l.take(0)).len() == 0);
    assert(h[6] == ' ');
    assert(l[6] == ' ');
    assert(h[7] == rest[0]);
    assert(!is_ascii_white(l[7]));
    lemma_pass_is(l, Class::White, 6, 7);
    assert(h.skip(7) =~= rest);
}

// ---- laws of tokens ----------------------------------------------------------------------

/// A token is asked for with what the configuration says: by a POST to the address, with a form
/// that names the grant, the scope if there is one, and the client if it is named there; otherwise
/// the client is named in the header, as for basic credentials.
pub proof fn law_token_asked(o: Oauth2AuthView)
    ensures
        token_request_of(o).method == "POST"@,
        token_request_of(o).url == trim(o.token_url),
        ({
            let form = "grant_type=client_credentials"@ + (match o.scope {
                Some(t) => if is_blank(t) {
                    seq![]
                } else {
                    "&scope="@ + encoded(trim(t))
                },
                None => seq![],
            });
            let content = KvPairView {
                key: "Content-Type"@,
                value: "application/x-www-form-urlencoded"@,
            };
            match o.client_auth {
                ClientAuth::Header => {
                    &&& token_request_of(o).body == Some(RequestBodyView::Text(form))
                    &&& token_request_of(o).headers == seq![
                        content,
                        KvPairView {
                            key: "Authorization"@,
                            value: "Basic "@ + base64_of(
                                vstd::utf8::encode_utf8(o.client_id + ":"@ + o.client_secret),
                            ),
                        },
                    ]
                },
                ClientAuth::Body => {
                    &&& token_request_of(o).body == Some(
                        RequestBodyView::Text(
                            form + "&client_id="@ + encoded(o.client_id) + "&client_secret="@ + encoded(
                                o.client_secret,
                            ),
                        ),
                    )
                    &&& token_request_of(o).headers == seq![content]
                },
            }
        }),
{
    reveal_strlit("&scope=");
    reveal_strlit("scope=");
    reveal_strlit("&client_id=");
    reveal_strlit("client_id=");
    reveal_strlit("&client_secret=");
    reveal_strlit("client_secret=");
    reveal_strlit("&");
    let sep = "&"@;
    let none = Seq::<char>::empty();
    assert(trim(none).len() == 0);
    let g = "grant_type=client_credentials"@;
    let l1 = seq![g];
    assert(join(l1, sep) == g);
    let scope = scope_of(o);
    let ps = "scope="@ + encoded(trim(scope));
    lemma_join_push(l1, ps, sep);
    let l2 = if is_blank(scope) {
        l1
    } else {
        l1.push(ps)
    };
    let form = g + (if is_blank(scope) {
        seq![]
    } else {
        "&scope="@ + encoded(trim(scope))
    });
    assert(join(l2, sep) =~= form);
    let pc = "client_id="@ + encoded(o.client_id);
    let pw = "client_secret="@ + encoded(o.client_secret);
    lemma_join_push(l2, pc, sep);
    lemma_join_push(l2.push(pc), pw, sep);
    match o.client_auth {
        ClientAuth::Header => {
            assert(token_form(o) =~= l2);
        },
        ClientAuth::Body => {
            assert(token_form(o) =~= l2.push(pc).push(pw));
            assert(join(l2.push(pc).push(pw), sep) =~= form + "&client_id="@ + encoded(o.client_id)
                + "&client_secret="@ + encoded(o.client_secret));
        },
    }
}

/// A kept token is used as long as it is good: one without a term always is, one with a term until
/// it ends. Otherwise a new one is asked for, and without an address none can be.
pub proof fn law_token_kept(o: Oauth2AuthView, t: CachedTokenView, now: u64, later: u64)
    ensures
        t.expires_at == 0 ==> token_step_of(o, Some(t), now) == TokenStepView::Use(t),
        now < t.expires_at ==> token_step_of(o, Some(t), now) == TokenStepView::Use(t),
        0 < t.expires_at <= now ==> token_step_of(o, Some(t), now) == token_step_of(o, None, now),
        now <= later && token_step_of(o, Some(t), later) is Use ==> token_step_of(o, Some(t), now) is Use,
        token_step_of(o, None, now) == (if is_blank(o.token_url) {
            TokenStepView::Fail("OAuth 2.0：请先填写 Access Token URL"@)
        } else {
            TokenStepView::Ask(token_request_of(o))
        }),
{
}

/// A token is granted by a reply of success that is JSON and holds one; the token is what stands
/// there, its kind is as it stands there with a capital or `Bearer`, and it is used as long as the
/// reply says. Every other reply is an error that shows how it begins.
pub proof fn law_token_granted(
    status: u16,
    body: Seq<char>,
    doc: Option<JsonView>,
    life: Option<u64>,
    now: u64,
)
    requires
        life is Some ==> now + life->0 <= u64::MAX,
    ensures
        token_of_reply(status, body, doc, life, now) is Ok <==> 200 <= status < 300 && (match doc {
            Some(JsonView::Object(m)) => match lookup(m, "access_token"@) {
                Some(JsonView::Str(t)) => t.len() > 0,
                _ => false,
            },
            _ => false,
        }),
        match token_of_reply(status, body, doc, life, now) {
            Ok(t) => match doc {
                Some(JsonView::Object(m)) => {
                    &&& lookup(m, "access_token"@) == Some(JsonView::Str(t.token))
                    &&& t.kind == (match lookup(m, "token_type"@) {
                        Some(JsonView::Str(k)) => if k.len() > 0 {
                            uppercase(k.take(1)) + k.skip(1)
                        } else {
                            uppercase("Bearer"@.take(1)) + "Bearer"@.skip(1)
                        },
                        _ => uppercase("Bearer"@.take(1)) + "Bearer"@.skip(1),
                    })
                    &&& life is None ==> t.expires_at == 0
                    &&& life is Some ==> t.expires_at == now + life->0
                },
                _ => false,
            },
            Err(e) => e == (if status < 200 || status >= 300 {
                "OAuth 2.0 取 token 失败（HTTP "@ + nat_text(status as nat) + "）："@
            } else if doc is None {
                "OAuth 2.0 取 token 失败：响应不是 JSON —— "@
            } else {
                "OAuth 2.0 取 token 失败：响应中没有 access_token —— "@
            }) + (if body.len() <= 200 {
                body
            } else {
                body.take(200)
            }),
        },
{
    reveal_strlit("Bearer");
}

/// The life of a token is a member of the reply, as a number or as a text.
pub proof fn law_lifetime(m: Seq<(Seq<char>, JsonView)>)
    ensures
        lifetime_of(None) is None,
        lifetime_of(Some(JsonView::Object(m))) == (match lookup(m, "expires_in"@) {
            Some(JsonView::Number(n)) => Some(printed(n)),
            Some(JsonView::Str(t)) => Some(t),
            _ => None,
        }),
{
}

// ---- laws of what a challenge may hold ---------------------------------------------------

/// A text with a backslash before each quote and each backslash.
pub open spec fn guarded(t: Seq<char>) -> Seq<char>
    decreases t.len(),
{
    if t.len() == 0 {
        seq![]
    } else if t[0] == '"' || t[0] == '\\' {
        seq!['\\', t[0]] + guarded(t.skip(1))
    } else {
        seq![t[0]] + guarded(t.skip(1))
    }
}

proof fn lemma_guarded(s: Seq<char>, i: int, t: Seq<char>)
    requires
        0 <= i,
        i + guarded(t).len() < s.len(),
        s.subrange(i, i + guarded(t).len()) == guarded(t),
        s[i + guarded(t).len()] == '"',
    ensures
        quoted_text(s, i) == t,
        quoted_end(s, i) == i + guarded(t).len(),
    decreases t.len(),
{
    let g = guarded(t);
    if t.len() == 0 {
        assert(quoted_text(s, i) =~= t);
    } else {
        let r = t.skip(1);
        let k: int = if t[0] == '"' || t[0] == '\\' {
            2
        } else {
            1
        };
        assert(s[i] == g[0]) by {
            assert(s.subrange(i, i + g.len())[0] == s[i]);
        }
        if k == 2 {
            assert(g.len() >= 2);
            assert(s.subrange(i, i + g.len())[1] == s[i + 1]);
            assert(s[i + 1] == t[0]);
        }
        assert(s.subrange(i + k, i + k + guarded(r).len()) =~= guarded(r)) by {
            assert forall|m: int| 0 <= m < guarded(r).len() implies s[i + k + m] == guarded(r)[m] by {
                assert(s.subrange(i, i + g.len())[k + m] == s[i + k + m]);
                assert(g[k + m] == guarded(r)[m]);
            }
        }
        lemma_guarded(s, i + k, r);
        assert(seq![t[0]] + r =~= t);
    }
}

/// A quoted value ends at the first quote that no backslash stands before, and a backslash is left
/// out: whatever the value is, it is read back from where it was written with backslashes.
pub proof fn law_guarded_read_back(t: Seq<char>, rest: Seq<char>)
    ensures
        quoted_text(guarded(t) + seq!['"'] + rest, 0) == t,
        quoted_end(guarded(t) + seq!['"'] + rest, 0) == guarded(t).len(),
{
    let s = guarded(t) + seq!['"'] + rest;
    assert(s.subrange(0, guarded(t).len() as int) =~= guarded(t));
    assert(s[guarded(t).len() as int] == '"');
    lemma_guarded(s, 0, t);
}

/// A header that never names the scheme holds no challenge.
pub proof fn law_no_challenge(h: Seq<char>)
    requires
        forall|i: int|
            0 <= i && i + 6 <= h.len() ==> lower(#[trigger] h.subrange(i, i + 6)) != "digest"@,
    ensures
        challenge_of(h) is None,
{
    reveal_strlit("digest");
    let l = lower(h);
    if find_from(l, "digest"@, 0) is Some {
        lemma_find_occurs(l, "digest"@, 0);
        let i = find_from(l, "digest"@, 0)->0;
        assert(lower(h.subrange(i, i + 6)) =~= l.subrange(i, i + 6));
    }
}

/// A challenge may stand behind another scheme and a comma.
pub proof fn law_challenge_behind_another(front: Seq<char>, word: Seq<char>, rest: Seq<char>)
    requires
        lower(word) == "digest"@,
        rest.len() > 0,
        !is_ascii_white(rest[0]),
        forall|i: int|
            0 <= i && i + 6 <= front.len() ==> lower(#[trigger] front.subrange(i, i + 6))
                != "digest"@,
    ensures
        challenge_of(front + ", "@ + word + " "@ + rest) == challenge_of(word + " "@ + rest),
{
    law_challenge_begins(word, rest);
    reveal_strlit("digest");
    reveal_strlit(" ");
    reveal_strlit(", ");
    let h = front + ", "@ + word + " "@ + rest;
    let l = lower(h);
    let n = front.len() as int;
    let d = "digest"@;
    assert(word.len() == lower(word).len());
    assert(l.subrange(n + 2, n + 8) =~= d) by {
        assert forall|i: int| 0 <= i < 6 implies l[n + 2 + i] == d[i] by {
            assert(h[n + 2 + i] == word[i]);
            assert(lower(word)[i] == l[n + 2 + i]);
        }
    }
    lemma_find_least(l, d, 0, n + 2);
    lemma_find_occurs(l, d, 0);
    let f = find_from(l, d, 0)->0;
    if f < n + 2 {
        if f + 6 <= n {
            assert(lower(front.subrange(f, f + 6)) =~= l.subrange(f, f + 6));
        } else if f <= n {
            assert(h[n] == ',');
            assert(l[n] == ',');
            assert(l.subrange(f, f + 6)[n - f] == ',');
            assert(d[0] != ',' && d[1] != ',' && d[2] != ',' && d[3] != ',' && d[4] != ',' && d[5]
                != ',');
        } else {
            assert(h[n + 1] == ' ');
            assert(l[n + 1] == ' ');
            assert(l.subrange(f, f + 6)[0] == ' ');
        }
    }
    let before = l.take(n + 2);
    assert(h[n] == ',' && h[n + 1] == ' ');
    assert(before.last() == ' ');
    assert(before.drop_last().last() == ',');
    assert(trim_back(before) == before.drop_last()) by {
        reveal_with_fuel(trim_back, 3);
    }
    assert(h[n + 8] == ' ');
    assert(l[n + 8] == ' ');
    assert(h[n + 9] == rest[0]);
    assert(!is_ascii_white(l[n + 9]));
    lemma_pass_is(l, Class::White, n + 8, n + 9);
    assert(h.skip(n + 9) =~= rest);
}

} // verus!
