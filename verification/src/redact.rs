//! Hiding credentials in what is recorded.
//!
//! Reports are passed on and archived, so what is recorded in them is redacted. Headers,
//! variables, outputs and JSON members are masked by their names; the known values of
//! credentials are replaced wherever they turn up; and bodies are redacted before they are cut,
//! so that no beginning of a credential is left at the cut.
use crate::json::{
    compact, js_string, js_text, json_text, lemma_view, parse_json, parsed_json, put_member, Json,
    JsonView, Member,
};
use crate::report::{
    absent_body, body_record, pair, AssertRecord, AssertRecordView, BodyRecord, BodyRecordView,
    KvPair, KvPairView,
};
use crate::table::{distinct, lemma_put_all_distinct, put_all, Entry, SortedMap};
use crate::text::{
    byte_len, bytes_of, chars_of, clip, contains, copy_text, empty, has, law_clip, lemma_seek,
    lemma_seek_is, lemma_views_push, lower, occurs_at, opt_text, replace, replace_from, replaced, same, seek,
    seek_char, sub_text, to_lower, trim, trim_front, trimmed, trimmed_front, views, Duplicate,
};
use vstd::prelude::*;

verus! {

/// The shortest value, in bytes, that is replaced wherever it turns up. Replacing shorter ones
/// would riddle the text.
pub const MIN_SECRET_LEN: usize = 6;

/// How deep members are masked in a JSON body.
pub const MAX_SCRUB_DEPTH: usize = 12;

// ---- names -----------------------------------------------------------------------------

/// Whether a name is that of a credential: one of the headers that hold one, or a name with one
/// of the words in it.
pub open spec fn secret_name(name: Seq<char>) -> bool {
    let n = lower(trim(name));
    ||| n == "authorization"@
    ||| n == "proxy-authorization"@
    ||| n == "cookie"@
    ||| n == "set-cookie"@
    ||| n == "x-api-key"@
    ||| n == "api-key"@
    ||| contains(n, "token"@)
    ||| contains(n, "secret"@)
    ||| contains(n, "password"@)
    ||| contains(n, "passwd"@)
    ||| contains(n, "credential"@)
    ||| contains(n, "auth"@)
    ||| contains(n, "apikey"@)
    ||| contains(n, "api-key"@)
    ||| contains(n, "api_key"@)
}

/// Whether a name of a header, a variable or a member is that of a credential.
pub fn is_secret_name(name: &str) -> (r: bool)
    ensures
        r == secret_name(name@),
{
    let t: String = trimmed(name);
    let low: String = to_lower(t.as_str());
    let n: &str = low.as_str();
    same(n, "authorization") || same(n, "proxy-authorization") || same(n, "cookie") || same(
        n,
        "set-cookie",
    ) || same(n, "x-api-key") || same(n, "api-key") || has(n, "token") || has(n, "secret") || has(
        n,
        "password",
    ) || has(n, "passwd") || has(n, "credential") || has(n, "auth") || has(n, "apikey") || has(
        n,
        "api-key",
    ) || has(n, "api_key")
}

// ---- masks -----------------------------------------------------------------------------

/// A text masked but for its first four characters; a text that is no longer is hidden whole.
pub open spec fn masked_tail(s: Seq<char>) -> Seq<char> {
    if s.len() == 0 {
        s
    } else if s.len() <= 4 {
        "***"@
    } else {
        s.take(4) + "***"@
    }
}

/// A credential masked: the scheme before a space stays, and so does the beginning of the rest.
pub open spec fn masked(value: Seq<char>) -> Seq<char> {
    let j = seek(value, ' ', 0);
    if 0 < j < value.len() && byte_len(value.take(j)) <= 10 {
        value.take(j) + " "@ + masked_tail(value.skip(j + 1))
    } else {
        masked_tail(value)
    }
}

fn mask_tail(s: &str) -> (r: String)
    ensures
        r@ == masked_tail(s@),
{
    let cs: Vec<char> = chars_of(s);
    if cs.len() == 0 {
        return copy_text(s);
    }
    if cs.len() <= 4 {
        return copy_text("***");
    }
    let mut out: String = sub_text(cs.as_slice(), 0, 4);
    assert(out@ =~= s@.take(4));
    out.push_str("***");
    out
}

/// A credential masked so that it can still be told whether there was one and of what scheme.
pub fn mask_secret(value: &str) -> (r: String)
    ensures
        r@ == masked(value@),
{
    let cs: Vec<char> = chars_of(value);
    let j: usize = seek_char(cs.as_slice(), ' ', 0);
    if 0 < j && j < cs.len() {
        let scheme: String = sub_text(cs.as_slice(), 0, j);
        assert(scheme@ =~= value@.take(j as int));
        if bytes_of(scheme.as_str()) <= 10 {
            let rest: String = sub_text(cs.as_slice(), j + 1, cs.len());
            assert(rest@ =~= value@.skip(j + 1));
            let tail: String = mask_tail(rest.as_str());
            let mut out: String = scheme;
            out.push_str(" ");
            out.push_str(tail.as_str());
            return out;
        }
    }
    mask_tail(value)
}

/// A header as it is recorded.
pub open spec fn redacted_header(h: KvPairView) -> KvPairView {
    if secret_name(h.key) {
        pair(h.key, masked(h.value))
    } else {
        h
    }
}

/// Headers as they are recorded.
pub open spec fn redacted_headers(hs: Seq<KvPairView>, redact: bool) -> Seq<KvPairView> {
    if redact {
        hs.map_values(|h: KvPairView| redacted_header(h))
    } else {
        hs
    }
}

/// Headers as they are recorded.
pub fn redact_headers(headers: &[KvPair], redact: bool) -> (r: Vec<KvPair>)
    ensures
        views(r@) == redacted_headers(views(headers@), redact),
{
    let mut out: Vec<KvPair> = Vec::new();
    let mut i: usize = 0;
    while i < headers.len()
        invariant
            i <= headers@.len(),
            out@.len() == i,
            forall|k: int|
                0 <= k < i ==> (#[trigger] out@[k])@ == (if redact {
                    redacted_header(headers@[k]@)
                } else {
                    headers@[k]@
                }),
        decreases headers@.len() - i,
    {
        let h: &KvPair = &headers[i];
        if redact && is_secret_name(h.key.as_str()) {
            let v: String = mask_secret(h.value.as_str());
            out.push(KvPair::new(h.key.as_str(), v.as_str()));
        } else {
            out.push(h.duplicate());
        }
        i = i + 1;
    }
    assert(views(out@) =~= redacted_headers(views(headers@), redact));
    out
}

/// Variables as they are recorded.
pub open spec fn redacted_vars(vars: Seq<(Seq<char>, Seq<char>)>, redact: bool) -> Seq<
    (Seq<char>, Seq<char>),
> {
    vars.map_values(
        |e: (Seq<char>, Seq<char>)|
            (
                e.0,
                if redact && secret_name(e.0) {
                    masked(e.1)
                } else {
                    e.1
                },
            ),
    )
}

/// Variables as they are recorded.
pub fn redact_vars(vars: &SortedMap<String>, redact: bool) -> (r: SortedMap<String>)
    ensures
        r@ == redacted_vars(vars@, redact),
{
    let mut out: Vec<Entry<String>> = Vec::new();
    let mut i: usize = 0;
    while i < vars.entries.len()
        invariant
            i <= vars.entries@.len(),
            out@.len() == i,
            forall|k: int|
                0 <= k < i ==> (#[trigger] out@[k])@ == redacted_vars(vars@, redact)[k],
        decreases vars.entries@.len() - i,
    {
        let e: &Entry<String> = &vars.entries[i];
        let v: String = if redact && is_secret_name(e.key.as_str()) {
            mask_secret(e.value.as_str())
        } else {
            copy_text(e.value.as_str())
        };
        out.push(Entry { key: copy_text(e.key.as_str()), value: v });
        i = i + 1;
    }
    let r: SortedMap<String> = SortedMap { entries: out };
    assert(r@ =~= redacted_vars(vars@, redact));
    r
}

/// An output as it is recorded: a text under the name of a credential is masked.
pub open spec fn redacted_output(name: Seq<char>, v: JsonView) -> JsonView {
    match v {
        JsonView::Str(s) if secret_name(name) => JsonView::Str(masked(s)),
        other => other,
    }
}

/// Outputs as they are recorded.
pub open spec fn redacted_outputs(outs: Seq<(Seq<char>, JsonView)>, redact: bool) -> Seq<
    (Seq<char>, JsonView),
> {
    if redact {
        outs.map_values(|e: (Seq<char>, JsonView)| (e.0, redacted_output(e.0, e.1)))
    } else {
        outs
    }
}

/// Outputs as they are recorded. Later steps get the values as they are.
pub fn redact_outputs(outputs: &SortedMap<Json>, redact: bool) -> (r: SortedMap<Json>)
    ensures
        r@ == redacted_outputs(outputs@, redact),
{
    if !redact {
        return outputs.duplicate();
    }
    let mut out: Vec<Entry<Json>> = Vec::new();
    let mut i: usize = 0;
    while i < outputs.entries.len()
        invariant
            redact,
            i <= outputs.entries@.len(),
            out@.len() == i,
            forall|k: int|
                0 <= k < i ==> (#[trigger] out@[k])@ == redacted_outputs(outputs@, redact)[k],
        decreases outputs.entries@.len() - i,
    {
        let e: &Entry<Json> = &outputs.entries[i];
        let v: Json = match &e.value {
            Json::Str(s) => {
                if is_secret_name(e.key.as_str()) {
                    Json::Str(mask_secret(s.as_str()))
                } else {
                    e.value.copy()
                }
            },
            other => other.copy(),
        };
        proof {
            lemma_view(e.value);
            lemma_view(v);
        }
        out.push(Entry { key: copy_text(e.key.as_str()), value: v });
        i = i + 1;
    }
    let r: SortedMap<Json> = SortedMap { entries: out };
    assert(r@ =~= redacted_outputs(outputs@, redact));
    r
}

// ---- known values ----------------------------------------------------------------------

/// A text with the known values of credentials replaced, one after the other.
pub open spec fn scrubbed(text: Seq<char>, secrets: Seq<Seq<char>>) -> Seq<char>
    decreases secrets.len(),
{
    if secrets.len() == 0 {
        text
    } else {
        let before = scrubbed(text, secrets.drop_last());
        if secrets.last().len() == 0 {
            before
        } else {
            replace(before, secrets.last(), "***"@)
        }
    }
}

/// A text with the known values of credentials replaced.
pub fn scrub_secrets(text: &str, secrets: &[String]) -> (r: String)
    ensures
        r@ == scrubbed(text@, views(secrets@)),
{
    let ghost v = views(secrets@);
    let mut out: String = copy_text(text);
    let mut i: usize = 0;
    assert(v.take(0) =~= seq![]);
    while i < secrets.len()
        invariant
            i <= secrets@.len(),
            v == views(secrets@),
            out@ == scrubbed(text@, v.take(i as int)),
        decreases secrets@.len() - i,
    {
        proof {
            assert(v.take(i + 1).drop_last() =~= v.take(i as int));
            assert(v.take(i + 1).last() == secrets@[i as int]@);
        }
        let s: &str = secrets[i].as_str();
        if !empty(s) {
            out = replaced(out.as_str(), s, "***");
        }
        i = i + 1;
    }
    assert(v.take(v.len() as int) =~= v);
    out
}

/// Whether a text has no star, so that the mark of a replacement cannot be part of it.
pub open spec fn no_star(s: Seq<char>) -> bool {
    forall|i: int| 0 <= i < s.len() ==> #[trigger] s[i] != '*'
}

/// A star-free beginning of a text with replacements is the beginning of the text itself.
proof fn lemma_replaced_prefix(t: Seq<char>, p: Seq<char>, i: int, w: Seq<char>)
    requires
        0 <= i,
        p.len() > 0,
        no_star(w),
        w.is_prefix_of(replace_from(t, p, "***"@, i)),
    ensures
        occurs_at(t, w, i) || w.len() == 0,
    decreases w.len(),
{
    reveal_strlit("***");
    let r = replace_from(t, p, "***"@, i);
    if w.len() > 0 {
        assert(w[0] == r[0]);
        assert(i < t.len());
        if occurs_at(t, p, i) {
            assert(r[0] == '*');
            assert(false);
        }
        let next = replace_from(t, p, "***"@, i + 1);
        assert(r =~= seq![t[i]] + next);
        let v = w.drop_first();
        assert forall|k: int| 0 <= k < v.len() implies #[trigger] v[k] != '*' by {
            assert(v[k] == w[k + 1]);
        }
        assert(v.is_prefix_of(next)) by {
            assert(v =~= next.subrange(0, v.len() as int)) by {
                assert forall|k: int| 0 <= k < v.len() implies v[k] == next[k] by {
                    assert(w[k + 1] == r[k + 1]);
                }
            }
        }
        lemma_replaced_prefix(t, p, i + 1, v);
        if v.len() > 0 {
            assert(t.subrange(i, i + w.len()) =~= w) by {
                assert forall|k: int| 0 <= k < w.len() implies t.subrange(i, i + w.len())[k] == w[k] by {
                    if k > 0 {
                        assert(t.subrange(i + 1, i + 1 + v.len())[k - 1] == v[k - 1]);
                    }
                }
            }
        } else {
            assert(t.subrange(i, i + w.len()) =~= w);
        }
    }
}

/// What occurs in a text with replacements and has no star occurs in the text itself, and where
/// it is what was replaced it does not occur at all.
proof fn lemma_replaced_occurs(t: Seq<char>, p: Seq<char>, i: int, w: Seq<char>, k: int)
    requires
        0 <= i,
        p.len() > 0,
        w.len() > 0,
        no_star(w),
        occurs_at(replace_from(t, p, "***"@, i), w, k),
    ensures
        contains(t, w),
        w != p,
    decreases t.len() - i,
{
    reveal_strlit("***");
    let r = replace_from(t, p, "***"@, i);
    assert(i < t.len());
    if occurs_at(t, p, i) {
        let next = replace_from(t, p, "***"@, i + p.len());
        assert(r =~= "***"@ + next);
        if k < 3 {
            assert(r.subrange(k, k + w.len())[0] == r[k]);
            assert(r[k] == '*');
            assert(w[0] != '*');
            assert(false);
        } else {
            assert(next.subrange(k - 3, k - 3 + w.len()) =~= r.subrange(k, k + w.len()));
            lemma_replaced_occurs(t, p, i + p.len(), w, k - 3);
        }
    } else {
        let next = replace_from(t, p, "***"@, i + 1);
        assert(r =~= seq![t[i]] + next);
        if k == 0 {
            assert(w.is_prefix_of(r)) by {
                assert(r.subrange(0, w.len() as int) =~= w);
            }
            lemma_replaced_prefix(t, p, i, w);
        } else {
            assert(next.subrange(k - 1, k - 1 + w.len()) =~= r.subrange(k, k + w.len()));
            lemma_replaced_occurs(t, p, i + 1, w, k - 1);
        }
    }
}

/// After scrubbing, no known value is left. (A value with a star in it could be put together
/// by the marks of replacements, so it is left out.)
pub proof fn law_scrubbed(text: Seq<char>, secrets: Seq<Seq<char>>, i: int)
    requires
        0 <= i < secrets.len(),
        secrets[i].len() > 0,
        no_star(secrets[i]),
    ensures
        !contains(scrubbed(text, secrets), secrets[i]),
    decreases secrets.len(),
{
    let before = scrubbed(text, secrets.drop_last());
    let last = secrets.last();
    let w = secrets[i];
    if i < secrets.len() - 1 {
        law_scrubbed(text, secrets.drop_last(), i);
    }
    if contains(scrubbed(text, secrets), w) {
        let k = choose|k: int| occurs_at(scrubbed(text, secrets), w, k);
        if last.len() > 0 {
            lemma_replaced_occurs(before, last, 0, w, k);
        }
        assert(false);
    }
}

fn long_enough(s: &str) -> (r: bool)
    ensures
        r == (byte_len(s@) >= MIN_SECRET_LEN),
{
    bytes_of(s) >= MIN_SECRET_LEN
}

/// The value of a variable that is replaced wherever it turns up: a text under the name of a
/// credential, if it is long enough.
pub open spec fn known_value(name: Seq<char>, v: JsonView) -> Option<Seq<char>> {
    match v {
        JsonView::Str(s) if secret_name(name) && byte_len(s) >= MIN_SECRET_LEN => Some(s),
        _ => None,
    }
}

/// The values of variables that are replaced wherever they turn up.
pub open spec fn known_values(es: Seq<(Seq<char>, JsonView)>) -> Seq<Seq<char>>
    decreases es.len(),
{
    if es.len() == 0 {
        seq![]
    } else {
        match known_value(es.last().0, es.last().1) {
            Some(s) => known_values(es.drop_last()).push(s),
            None => known_values(es.drop_last()),
        }
    }
}

/// The values of variables that are replaced wherever they turn up.
pub fn secret_values(entries: &SortedMap<Json>, redact: bool) -> (r: Vec<String>)
    ensures
        views(r@) == (if redact {
            known_values(entries@)
        } else {
            seq![]
        }),
{
    let mut out: Vec<String> = Vec::new();
    assert(views(out@) =~= seq![]);
    if !redact {
        return out;
    }
    let ghost v = entries@;
    let mut i: usize = 0;
    assert(v.take(0) =~= seq![]);
    while i < entries.entries.len()
        invariant
            i <= entries.entries@.len(),
            v == entries@,
            views(out@) == known_values(v.take(i as int)),
        decreases entries.entries@.len() - i,
    {
        let e: &Entry<Json> = &entries.entries[i];
        proof {
            assert(v.take(i + 1).drop_last() =~= v.take(i as int));
            assert(v.take(i + 1).last() == e@);
            lemma_view(e.value);
        }
        if let Json::Str(s) = &e.value {
            if is_secret_name(e.key.as_str()) && long_enough(s.as_str()) {
                let t: String = copy_text(s.as_str());
                proof {
                    lemma_views_push(out@, t);
                }
                out.push(t);
            }
        }
        i = i + 1;
    }
    assert(v.take(v.len() as int) =~= v);
    out
}

/// The values of an environment that are replaced wherever they turn up.
pub open spec fn known_strings(es: Seq<(Seq<char>, Seq<char>)>) -> Seq<Seq<char>>
    decreases es.len(),
{
    if es.len() == 0 {
        seq![]
    } else if secret_name(es.last().0) && byte_len(es.last().1) >= MIN_SECRET_LEN {
        known_strings(es.drop_last()).push(es.last().1)
    } else {
        known_strings(es.drop_last())
    }
}

/// The values of an environment that are replaced wherever they turn up.
pub fn secret_values_of_strings(vars: &SortedMap<String>, redact: bool) -> (r: Vec<String>)
    ensures
        views(r@) == (if redact {
            known_strings(vars@)
        } else {
            seq![]
        }),
{
    let mut out: Vec<String> = Vec::new();
    assert(views(out@) =~= seq![]);
    if !redact {
        return out;
    }
    let ghost v = vars@;
    let mut i: usize = 0;
    assert(v.take(0) =~= seq![]);
    while i < vars.entries.len()
        invariant
            i <= vars.entries@.len(),
            v == vars@,
            views(out@) == known_strings(v.take(i as int)),
        decreases vars.entries@.len() - i,
    {
        let e: &Entry<String> = &vars.entries[i];
        proof {
            assert(v.take(i + 1).drop_last() =~= v.take(i as int));
            assert(v.take(i + 1).last() == e@);
        }
        if is_secret_name(e.key.as_str()) && long_enough(e.value.as_str()) {
            let t: String = copy_text(e.value.as_str());
            proof {
                lemma_views_push(out@, t);
            }
            out.push(t);
        }
        i = i + 1;
    }
    assert(v.take(v.len() as int) =~= v);
    out
}

/// The values of outputs that are replaced wherever they turn up: as `known_values`, but a
/// value that is no text counts by the text it is written as.
pub open spec fn known_outputs(es: Seq<(Seq<char>, JsonView)>) -> Seq<Seq<char>>
    decreases es.len(),
{
    if es.len() == 0 {
        seq![]
    } else if secret_name(es.last().0) && !(es.last().1 is Null) && byte_len(js_text(es.last().1))
        >= MIN_SECRET_LEN {
        known_outputs(es.drop_last()).push(js_text(es.last().1))
    } else {
        known_outputs(es.drop_last())
    }
}

/// The values of outputs that are replaced wherever they turn up.
pub fn secret_values_of_outputs(outputs: &SortedMap<Json>, redact: bool) -> (r: Vec<String>)
    ensures
        views(r@) == (if redact {
            known_outputs(outputs@)
        } else {
            seq![]
        }),
{
    let mut out: Vec<String> = Vec::new();
    assert(views(out@) =~= seq![]);
    if !redact {
        return out;
    }
    let ghost v = outputs@;
    let mut i: usize = 0;
    assert(v.take(0) =~= seq![]);
    while i < outputs.entries.len()
        invariant
            i <= outputs.entries@.len(),
            v == outputs@,
            views(out@) == known_outputs(v.take(i as int)),
        decreases outputs.entries@.len() - i,
    {
        let e: &Entry<Json> = &outputs.entries[i];
        proof {
            assert(v.take(i + 1).drop_last() =~= v.take(i as int));
            assert(v.take(i + 1).last() == e@);
        }
        if is_secret_name(e.key.as_str()) && !e.value.is_null() {
            let t: String = js_string(&e.value);
            if long_enough(t.as_str()) {
                proof {
                    lemma_views_push(out@, t);
                }
                out.push(t);
            }
        }
        i = i + 1;
    }
    assert(v.take(v.len() as int) =~= v);
    out
}

// ---- assertions ------------------------------------------------------------------------

/// A text without the trailing characters that close a path.
pub open spec fn no_closers(s: Seq<char>) -> Seq<char>
    decreases s.len(),
{
    if s.len() > 0 && (s.last() == ']' || s.last() == '\'' || s.last() == '"') {
        no_closers(s.drop_last())
    } else {
        s
    }
}

/// A character that parts the names of a path.
pub open spec fn parts_names(c: char) -> bool {
    c == '.' || c == '[' || c == '\'' || c == '"'
}

/// A text without its trailing separators of names.
pub open spec fn no_separators(s: Seq<char>) -> Seq<char>
    decreases s.len(),
{
    if s.len() > 0 && parts_names(s.last()) {
        no_separators(s.drop_last())
    } else {
        s
    }
}

/// What follows the last separator of names.
pub open spec fn after_separator(s: Seq<char>) -> Seq<char>
    decreases s.len(),
{
    if s.len() == 0 || parts_names(s.last()) {
        seq![]
    } else {
        after_separator(s.drop_last()).push(s.last())
    }
}

/// The last name of a target.
pub open spec fn last_name(target: Seq<char>) -> Seq<char> {
    let t = no_separators(no_closers(target));
    if t.len() == 0 {
        target
    } else {
        after_separator(t)
    }
}

proof fn lemma_after_separator(s: Seq<char>, j: int)
    requires
        0 <= j <= s.len(),
        j == 0 || parts_names(s[j - 1]),
        forall|k: int| j <= k < s.len() ==> !parts_names(#[trigger] s[k]),
    ensures
        after_separator(s) == s.subrange(j, s.len() as int),
    decreases s.len(),
{
    if s.len() == j {
        assert(after_separator(s) =~= s.subrange(j, s.len() as int));
    } else {
        let t = s.drop_last();
        assert(forall|k: int| j <= k < t.len() ==> t[k] == s[k]);
        lemma_after_separator(t, j);
        assert(t.subrange(j, t.len() as int).push(s.last()) =~= s.subrange(j, s.len() as int));
    }
}

fn separator(c: char) -> (r: bool)
    ensures
        r == parts_names(c),
{
    c == '.' || c == '[' || c == '\'' || c == '"'
}

/// Whether an assertion looks at a credential, by the last name of its target.
pub fn is_secret_target(target: &str) -> (r: bool)
    ensures
        r == secret_name(last_name(target@)),
{
    let cs: Vec<char> = chars_of(target);
    let mut e: usize = cs.len();
    assert(cs@.take(e as int) =~= target@);
    while e > 0 && (cs[e - 1] == ']' || cs[e - 1] == '\'' || cs[e - 1] == '"')
        invariant
            e <= cs@.len(),
            no_closers(cs@.take(e as int)) == no_closers(target@),
        decreases e,
    {
        assert(cs@.take(e as int).drop_last() =~= cs@.take(e - 1));
        e = e - 1;
    }
    let ghost a = no_closers(target@);
    assert(a == cs@.take(e as int));
    while e > 0 && separator(cs[e - 1])
        invariant
            e <= cs@.len(),
            no_separators(cs@.take(e as int)) == no_separators(a),
        decreases e,
    {
        assert(cs@.take(e as int).drop_last() =~= cs@.take(e - 1));
        e = e - 1;
    }
    if e == 0 {
        return is_secret_name(target);
    }
    let ghost t = cs@.take(e as int);
    let mut j: usize = e;
    while j > 0 && !separator(cs[j - 1])
        invariant
            j <= e <= cs@.len(),
            forall|k: int| j <= k < e ==> !parts_names(#[trigger] cs@[k]),
        decreases j,
    {
        j = j - 1;
    }
    let name: String = sub_text(cs.as_slice(), j, e);
    proof {
        assert(forall|k: int| 0 <= k < e ==> t[k] == cs@[k]);
        lemma_after_separator(t, j as int);
        assert(name@ =~= t.subrange(j as int, t.len() as int));
    }
    is_secret_name(name.as_str())
}

/// A value that is shown, masked. The marks of a missing value and of a missing expectation
/// stay, so that they can be told from a hidden value.
pub open spec fn masked_display(v: Seq<char>) -> Seq<char> {
    if v == "∅"@ || v == "—"@ || v.len() == 0 {
        v
    } else {
        masked(v)
    }
}

fn mask_display(v: &str) -> (r: String)
    ensures
        r@ == masked_display(v@),
{
    if same(v, "∅") || same(v, "—") || empty(v) {
        copy_text(v)
    } else {
        mask_secret(v)
    }
}

/// An assertion as it is recorded.
pub open spec fn redacted_assertion(a: AssertRecordView, secrets: Seq<Seq<char>>) -> AssertRecordView {
    if secret_name(last_name(a.target)) {
        AssertRecordView {
            actual: masked_display(a.actual),
            expected: masked_display(a.expected),
            ..a
        }
    } else {
        AssertRecordView {
            actual: scrubbed(a.actual, secrets),
            expected: scrubbed(a.expected, secrets),
            ..a
        }
    }
}

/// Assertions as they are recorded.
pub open spec fn redacted_assertions(
    list: Seq<AssertRecordView>,
    secrets: Seq<Seq<char>>,
    redact: bool,
) -> Seq<AssertRecordView> {
    if redact {
        list.map_values(|a: AssertRecordView| redacted_assertion(a, secrets))
    } else {
        list
    }
}

/// Assertions as they are recorded: the value that an assertion found may be a credential.
pub fn redact_assertions(list: Vec<AssertRecord>, secrets: &[String], redact: bool) -> (r: Vec<
    AssertRecord,
>)
    ensures
        views(r@) == redacted_assertions(views(list@), views(secrets@), redact),
{
    if !redact {
        return list;
    }
    let mut out: Vec<AssertRecord> = Vec::new();
    let mut i: usize = 0;
    while i < list.len()
        invariant
            i <= list@.len(),
            out@.len() == i,
            forall|k: int|
                0 <= k < i ==> (#[trigger] out@[k])@ == redacted_assertion(
                    list@[k]@,
                    views(secrets@),
                ),
        decreases list@.len() - i,
    {
        let a: &AssertRecord = &list[i];
        let hidden: bool = is_secret_target(a.target.as_str());
        let actual: String = if hidden {
            mask_display(a.actual.as_str())
        } else {
            scrub_secrets(a.actual.as_str(), secrets)
        };
        let expected: String = if hidden {
            mask_display(a.expected.as_str())
        } else {
            scrub_secrets(a.expected.as_str(), secrets)
        };
        out.push(
            AssertRecord {
                target: copy_text(a.target.as_str()),
                op: copy_text(a.op.as_str()),
                expected,
                actual,
                ok: a.ok,
            },
        );
        i = i + 1;
    }
    assert(views(out@) =~= redacted_assertions(views(list@), views(secrets@), redact));
    out
}

// ---- bodies ----------------------------------------------------------------------------

/// Whether a member is masked: a text that is not empty, under the name of a credential.
pub open spec fn hides(name: Seq<char>, v: JsonView) -> bool {
    v is Str && v->Str_0.len() > 0 && secret_name(name)
}

/// Whether a value has a member that is masked, at the depth it stands at.
pub open spec fn touched(v: JsonView, depth: int) -> bool
    decreases v,
{
    if depth > MAX_SCRUB_DEPTH {
        false
    } else {
        match v {
            JsonView::Array(a) => exists|i: int|
                0 <= i < a.len() && touched(#[trigger] a[i], depth + 1),
            JsonView::Object(m) => exists|i: int|
                0 <= i < m.len() && (hides((#[trigger] m[i]).0, m[i].1) || touched(
                    m[i].1,
                    depth + 1,
                )),
            _ => false,
        }
    }
}

/// A value with its members masked by their names.
pub open spec fn masked_json(v: JsonView, depth: int) -> JsonView
    decreases v,
{
    if depth > MAX_SCRUB_DEPTH {
        v
    } else {
        match v {
            JsonView::Array(a) => JsonView::Array(
                Seq::new(
                    a.len(),
                    |i: int|
                        if 0 <= i < a.len() {
                            masked_json(a[i], depth + 1)
                        } else {
                            JsonView::Null
                        },
                ),
            ),
            JsonView::Object(m) => JsonView::Object(put_all(masked_members(m, depth))),
            other => other,
        }
    }
}

/// The members of an object, masked by their names.
pub open spec fn masked_members(m: Seq<(Seq<char>, JsonView)>, depth: int) -> Seq<
    (Seq<char>, JsonView),
>
    decreases m,
{
    Seq::new(
        m.len(),
        |i: int|
            if 0 <= i < m.len() {
                (
                    m[i].0,
                    if hides(m[i].0, m[i].1) {
                        JsonView::Str(masked(m[i].1->Str_0))
                    } else {
                        masked_json(m[i].1, depth + 1)
                    },
                )
            } else {
                (seq![], JsonView::Null)
            },
    )
}

/// A JSON body with its members masked by their names. A text that is no JSON, and one that
/// has nothing to mask, stay as they are.
pub open spec fn scrubbed_body(text: Seq<char>, redact: bool) -> Seq<char> {
    let t = trim_front(text);
    if !redact || t.len() == 0 || !(t[0] == '{' || t[0] == '[') {
        text
    } else {
        match parsed_json(text) {
            Some(v) => if touched(v, 0) {
                json_text(masked_json(v, 0))
            } else {
                text
            },
            None => text,
        }
    }
}

/// A value with its members masked by their names, and whether there was one to mask.
fn mask_json(v: &Json, depth: usize) -> (r: (Json, bool))
    requires
        depth <= MAX_SCRUB_DEPTH + 1,
    ensures
        r.0@ == masked_json(v@, depth as int),
        r.1 == touched(v@, depth as int),
    decreases v,
{
    proof {
        lemma_view(*v);
    }
    if depth > MAX_SCRUB_DEPTH {
        return (v.copy(), false);
    }
    match v {
        Json::Array(a) => {
            let mut out: Vec<Json> = Vec::new();
            let mut hit: bool = false;
            let mut i: usize = 0;
            while i < a.len()
                invariant
                    i <= a@.len(),
                    out@.len() == i,
                    depth <= MAX_SCRUB_DEPTH,
                    *v == Json::Array(*a),
                    hit <==> exists|k: int|
                        0 <= k < i && touched(#[trigger] views(a@)[k], depth + 1),
                    forall|k: int|
                        0 <= k < i ==> (#[trigger] out@[k])@ == masked_json(a@[k]@, depth + 1),
                decreases a@.len() - i,
            {
                proof {
                    assert(decreases_to!(*v => v->Array_0));
                    assert(decreases_to!(v->Array_0 => v->Array_0@));
                    assert(decreases_to!(v->Array_0@ => v->Array_0@[i as int]));
                    assert(views(a@)[i as int] == a@[i as int]@);
                }
                let (x, h): (Json, bool) = mask_json(&a[i], depth + 1);
                out.push(x);
                hit = hit || h;
                i = i + 1;
            }
            let r: Json = Json::Array(out);
            proof {
                lemma_view(r);
                assert(r@->Array_0 =~= masked_json(v@, depth as int)->Array_0);
            }
            (r, hit)
        },
        Json::Object(m) => {
            let mut out: Vec<Member> = Vec::new();
            let mut hit: bool = false;
            let ghost ms = views(m@);
            let ghost es = masked_members(ms, depth as int);
            let mut i: usize = 0;
            assert(es.take(0) =~= seq![]);
            assert(views(out@) =~= put_all(es.take(0)));
            while i < m.len()
                invariant
                    i <= m@.len(),
                    ms == views(m@),
                    depth <= MAX_SCRUB_DEPTH,
                    *v == Json::Object(*m),
                    es == masked_members(ms, depth as int),
                    hit <==> exists|k: int|
                        0 <= k < i && (hides((#[trigger] ms[k]).0, ms[k].1) || touched(
                            ms[k].1,
                            depth + 1,
                        )),
                    views(out@) == put_all(es.take(i as int)),
                decreases m@.len() - i,
            {
                proof {
                    assert(decreases_to!(*v => v->Object_0));
                    assert(decreases_to!(v->Object_0 => v->Object_0@));
                    assert(decreases_to!(v->Object_0@ => v->Object_0@[i as int]));
                    assert(decreases_to!(m@[i as int] => m@[i as int].value));
                    assert(es.take(i + 1).drop_last() =~= es.take(i as int));
                    assert(ms[i as int] == m@[i as int]@);
                    assert(es.take(i + 1).last() == es[i as int]);
                    lemma_view(m@[i as int].value);
                }
                let name: &str = m[i].name.as_str();
                let secret: Option<String> = match &m[i].value {
                    Json::Str(s) => {
                        if !empty(s.as_str()) && is_secret_name(name) {
                            Some(mask_secret(s.as_str()))
                        } else {
                            None
                        }
                    },
                    _ => None,
                };
                match secret {
                    Some(t) => {
                        let x: Json = Json::Str(t);
                        proof {
                            lemma_view(x);
                        }
                        put_member(&mut out, name, x);
                        hit = true;
                    },
                    None => {
                        let (x, h): (Json, bool) = mask_json(&m[i].value, depth + 1);
                        put_member(&mut out, name, x);
                        hit = hit || h;
                    },
                }
                i = i + 1;
            }
            assert(es.take(es.len() as int) =~= es);
            let r: Json = Json::Object(out);
            proof {
                lemma_view(r);
            }
            (r, hit)
        },
        other => (other.copy(), false),
    }
}

/// A document with its members masked by their names, and whether there was one to mask.
pub fn mask_document(v: &Json) -> (r: (Json, bool))
    ensures
        r.0@ == masked_json(v@, 0),
        r.1 == touched(v@, 0),
{
    mask_json(v, 0)
}

/// A JSON body with its members masked by their names.
pub fn scrub_json_body(text: &str, redact: bool) -> (r: String)
    ensures
        r@ == scrubbed_body(text@, redact),
{
    if !redact {
        return copy_text(text);
    }
    let t: String = trimmed_front(text);
    let cs: Vec<char> = chars_of(t.as_str());
    if cs.len() == 0 || !(cs[0] == '{' || cs[0] == '[') {
        return copy_text(text);
    }
    match parse_json(text) {
        Some(v) => {
            let (next, hit): (Json, bool) = mask_document(&v);
            if hit {
                compact(&next)
            } else {
                copy_text(text)
            }
        },
        None => copy_text(text),
    }
}

/// A body cut to `max_bytes` at a character boundary.
pub fn clip_body(body: Option<&str>, max_bytes: usize) -> (r: BodyRecord)
    ensures
        r@ == body_record(opt_text(body), max_bytes as nat),
        body is Some ==> r.bytes == byte_len(body->0@),
{
    BodyRecord::clip(body, max_bytes)
}

/// A body as it is recorded: masked by names, then scrubbed of known values, then cut. Its size
/// is that of the body itself.
pub open spec fn cleaned_body(
    body: Option<Seq<char>>,
    secrets: Seq<Seq<char>>,
    redact: bool,
    max: nat,
) -> BodyRecordView {
    match body {
        None => absent_body(),
        Some(s) => BodyRecordView {
            bytes: byte_len(s) as usize,
            ..body_record(Some(scrubbed(scrubbed_body(s, redact), secrets)), max)
        },
    }
}

/// A body as it is recorded: redacted first, then cut. Its size is that of the body itself.
pub fn clean_body(body: Option<&str>, secrets: &[String], redact: bool, max_bytes: usize) -> (r:
    BodyRecord)
    ensures
        r@ == cleaned_body(opt_text(body), views(secrets@), redact, max_bytes as nat),
        body is Some ==> r.bytes == byte_len(body->0@),
{
    match body {
        None => BodyRecord::absent(),
        Some(s) => {
            let named: String = scrub_json_body(s, redact);
            let clean: String = scrub_secrets(named.as_str(), secrets);
            let mut r: BodyRecord = clip_body(Some(clean.as_str()), max_bytes);
            r.bytes = bytes_of(s);
            r
        },
    }
}

/// No known value is left in a recorded body, wherever it is cut.
pub proof fn law_cleaned_body(
    body: Seq<char>,
    secrets: Seq<Seq<char>>,
    redact: bool,
    max: nat,
    i: int,
)
    requires
        0 <= i < secrets.len(),
        secrets[i].len() > 0,
        no_star(secrets[i]),
    ensures
        cleaned_body(Some(body), secrets, redact, max).preview is Some,
        !contains(cleaned_body(Some(body), secrets, redact, max).preview->0, secrets[i]),
{
    let clean = scrubbed(scrubbed_body(body, redact), secrets);
    let shown = cleaned_body(Some(body), secrets, redact, max).preview->0;
    law_scrubbed(scrubbed_body(body, redact), secrets, i);
    law_clip(clean, max);
    assert(shown.is_prefix_of(clean));
    if contains(shown, secrets[i]) {
        let k = choose|k: int| occurs_at(shown, secrets[i], k);
        assert(clean.subrange(k, k + secrets[i].len()) =~= shown.subrange(
            k,
            k + secrets[i].len(),
        ));
        assert(occurs_at(clean, secrets[i], k));
    }
}

/// A header whose name tells of a credential is recorded masked, and the other headers as they
/// are.
pub proof fn law_headers_masked(hs: Seq<KvPairView>, i: int)
    requires
        0 <= i < hs.len(),
    ensures
        redacted_headers(hs, true).len() == hs.len(),
        redacted_headers(hs, true)[i].key == hs[i].key,
        redacted_headers(hs, true)[i].value == (if secret_name(hs[i].key) {
            masked(hs[i].value)
        } else {
            hs[i].value
        }),
{
}

/// A mask hides something of every credential. (A text that ends with a space may be a scheme
/// without a credential, and one with a star may look like a mask.)
pub proof fn law_mask_hides(v: Seq<char>)
    requires
        v.len() > 0,
        v.last() != ' ',
        no_star(v),
    ensures
        masked(v) != v,
{
    reveal_strlit("***");
    reveal_strlit(" ");
    lemma_seek(v, ' ', 0);
    let m = masked(v);
    assert(m.last() == '*');
    assert(v[v.len() - 1] != '*');
}

// ---- what is hidden, and what is not -----------------------------------------------------

/// A word that tells of a credential wherever it stands in a name.
pub open spec fn tells(word: Seq<char>) -> bool {
    ||| word == "token"@
    ||| word == "secret"@
    ||| word == "password"@
    ||| word == "passwd"@
    ||| word == "credential"@
    ||| word == "auth"@
    ||| word == "apikey"@
    ||| word == "api-key"@
    ||| word == "api_key"@
}

/// A name tells of a credential if one of the words is in it, whatever is around the word and
/// whatever the case of the name, or if it is that of a cookie header; and otherwise it does not.
pub proof fn law_names_of_credentials(
    name: Seq<char>,
    before: Seq<char>,
    word: Seq<char>,
    after: Seq<char>,
)
    ensures
        tells(word) && lower(trim(name)) == before + word + after ==> secret_name(name),
        lower(trim(name)) == "cookie"@ || lower(trim(name)) == "set-cookie"@ ==> secret_name(name),
        secret_name(name) ==> lower(trim(name)) == "cookie"@ || lower(trim(name)) == "set-cookie"@
            || exists|w: Seq<char>| #[trigger] tells(w) && contains(lower(trim(name)), w),
{
    let n = lower(trim(name));
    if n == before + word + after {
        assert(n.subrange(before.len() as int, before.len() as int + word.len()) =~= word);
        assert(occurs_at(n, word, before.len() as int));
    }
    reveal_strlit("auth");
    reveal_strlit("api-key");
    reveal_strlit("authorization");
    reveal_strlit("proxy-authorization");
    reveal_strlit("x-api-key");
    if n == "authorization"@ {
        assert(n.subrange(0, 4) =~= "auth"@);
        assert(occurs_at(n, "auth"@, 0));
    }
    if n == "proxy-authorization"@ {
        assert(n.subrange(6, 10) =~= "auth"@);
        assert(occurs_at(n, "auth"@, 6));
    }
    if n == "x-api-key"@ {
        assert(n.subrange(2, 9) =~= "api-key"@);
        assert(occurs_at(n, "api-key"@, 2));
    }
    if n == "api-key"@ {
        assert(n.subrange(0, 7) =~= "api-key"@);
        assert(occurs_at(n, "api-key"@, 0));
    }
    assert(tells("token"@) && tells("secret"@) && tells("password"@) && tells("passwd"@) && tells(
        "credential"@,
    ) && tells("auth"@) && tells("apikey"@) && tells("api-key"@) && tells("api_key"@));
}

/// What a mask shows: of a text without a space the first four characters, and nothing of one that
/// has no more; of a scheme and a credential the scheme, and of the credential as much. Two
/// credentials that begin alike are masked alike.
pub proof fn law_mask_shows(scheme: Seq<char>, v: Seq<char>, w: Seq<char>)
    requires
        !scheme.contains(' '),
        !v.contains(' '),
        !w.contains(' '),
    ensures
        0 < v.len() <= 4 ==> masked(v) == "***"@,
        v.len() > 4 ==> masked(v) == v.take(4) + "***"@,
        v.len() == 0 ==> masked(v) == v,
        0 < scheme.len() && byte_len(scheme) <= 10 && v.len() > 0 ==> masked(scheme + " "@ + v)
            == scheme + " "@ + masked(v),
        v.len() > 4 && w.len() > 4 && v.take(4) == w.take(4) ==> masked(v) == masked(w),
{
    lemma_no_space(v);
    lemma_no_space(w);
    lemma_no_space(scheme);
    reveal_strlit(" ");
    let t = scheme + " "@ + v;
    let n = scheme.len() as int;
    assert forall|k: int| 0 <= k < n implies t[k] != ' ' by {
        assert(t[k] == scheme[k]);
        assert(scheme.contains(scheme[k]));
    }
    assert(t[n] == ' ');
    lemma_seek_is(t, ' ', 0, n);
    assert(t.take(n) =~= scheme);
    assert(t.skip(n + 1) =~= v);
}

proof fn lemma_no_space(v: Seq<char>)
    requires
        !v.contains(' '),
    ensures
        seek(v, ' ', 0) == v.len(),
{
    assert forall|k: int| 0 <= k < v.len() implies v[k] != ' ' by {
        assert(v.contains(v[k]));
    }
    lemma_seek_is(v, ' ', 0, v.len() as int);
}

/// Outputs are recorded under their names and in their order: a text under the name of a
/// credential is masked, and everything else is as it is.
pub proof fn law_outputs_masked(outs: Seq<(Seq<char>, JsonView)>, i: int)
    requires
        0 <= i < outs.len(),
    ensures
        redacted_outputs(outs, false) == outs,
        redacted_outputs(outs, true).len() == outs.len(),
        redacted_outputs(outs, true)[i].0 == outs[i].0,
        redacted_outputs(outs, true)[i].1 == (match outs[i].1 {
            JsonView::Str(t) => if secret_name(outs[i].0) {
                JsonView::Str(masked(t))
            } else {
                outs[i].1
            },
            other => other,
        }),
{
}

/// A known value is a text of at least six bytes under the name of a credential: every such value
/// is known, and nothing else is.
pub proof fn law_known_values(es: Seq<(Seq<char>, JsonView)>, s: Seq<char>)
    ensures
        known_values(es).contains(s) <==> exists|i: int|
            0 <= i < es.len() && secret_name((#[trigger] es[i]).0) && es[i].1 == JsonView::Str(s)
                && byte_len(s) >= 6,
    decreases es.len(),
{
    if es.len() > 0 {
        let d = es.drop_last();
        let a = known_values(d);
        let b = known_values(es);
        law_known_values(d, s);
        assert(forall|i: int| 0 <= i < d.len() ==> d[i] == es[i]);
        assert(es[es.len() - 1] == es.last());
        if a.contains(s) {
            let k = choose|k: int| 0 <= k < a.len() && a[k] == s;
            assert(b[k] == s);
            let i = choose|i: int|
                0 <= i < d.len() && secret_name((#[trigger] d[i]).0) && d[i].1 == JsonView::Str(s)
                    && byte_len(s) >= 6;
            assert(es[i] == d[i]);
        }
        if known_value(es.last().0, es.last().1) == Some(s) {
            assert(b[b.len() - 1] == s);
        }
        if b.contains(s) {
            let k = choose|k: int| 0 <= k < b.len() && b[k] == s;
            if k < a.len() {
                assert(a[k] == s);
                let i = choose|i: int|
                    0 <= i < d.len() && secret_name((#[trigger] d[i]).0) && d[i].1 == JsonView::Str(s)
                        && byte_len(s) >= 6;
                assert(es[i] == d[i]);
            } else {
                assert(secret_name(es[es.len() - 1].0));
            }
        }
        if exists|i: int|
            0 <= i < es.len() && secret_name((#[trigger] es[i]).0) && es[i].1 == JsonView::Str(s)
                && byte_len(s) >= 6 {
            let i = choose|i: int|
                0 <= i < es.len() && secret_name((#[trigger] es[i]).0) && es[i].1 == JsonView::Str(s)
                    && byte_len(s) >= 6;
            if i < d.len() {
                assert(d[i] == es[i]);
            }
        }
    }
}

/// An output is known by the text it is written as, be it a text or not: every output of at least
/// six bytes under the name of a credential is known, but null is not.
pub proof fn law_known_outputs(es: Seq<(Seq<char>, JsonView)>, s: Seq<char>)
    ensures
        known_outputs(es).contains(s) <==> exists|i: int|
            0 <= i < es.len() && secret_name((#[trigger] es[i]).0) && !(es[i].1 is Null) && js_text(
                es[i].1,
            ) == s && byte_len(s) >= 6,
    decreases es.len(),
{
    if es.len() > 0 {
        let d = es.drop_last();
        let a = known_outputs(d);
        let b = known_outputs(es);
        law_known_outputs(d, s);
        assert(forall|i: int| 0 <= i < d.len() ==> d[i] == es[i]);
        assert(es[es.len() - 1] == es.last());
        if a.contains(s) {
            let k = choose|k: int| 0 <= k < a.len() && a[k] == s;
            assert(b[k] == s);
            let i = choose|i: int|
                0 <= i < d.len() && secret_name((#[trigger] d[i]).0) && !(d[i].1 is Null) && js_text(
                    d[i].1,
                ) == s && byte_len(s) >= 6;
            assert(es[i] == d[i]);
        }
        if secret_name(es.last().0) && !(es.last().1 is Null) && js_text(es.last().1) == s && byte_len(
            s,
        ) >= 6 {
            assert(b[b.len() - 1] == s);
        }
        if b.contains(s) {
            let k = choose|k: int| 0 <= k < b.len() && b[k] == s;
            if k < a.len() {
                assert(a[k] == s);
                let i = choose|i: int|
                    0 <= i < d.len() && secret_name((#[trigger] d[i]).0) && !(d[i].1 is Null)
                        && js_text(d[i].1) == s && byte_len(s) >= 6;
                assert(es[i] == d[i]);
            } else {
                assert(secret_name(es[es.len() - 1].0));
            }
        }
        if exists|i: int|
            0 <= i < es.len() && secret_name((#[trigger] es[i]).0) && !(es[i].1 is Null) && js_text(
                es[i].1,
            ) == s && byte_len(s) >= 6 {
            let i = choose|i: int|
                0 <= i < es.len() && secret_name((#[trigger] es[i]).0) && !(es[i].1 is Null)
                    && js_text(es[i].1) == s && byte_len(s) >= 6;
            if i < d.len() {
                assert(d[i] == es[i]);
            }
        }
    }
}

/// Only known values are replaced: a text in which none of them occurs stays as it is.
pub proof fn law_scrubbed_only(text: Seq<char>, secrets: Seq<Seq<char>>)
    requires
        forall|i: int|
            0 <= i < secrets.len() ==> (#[trigger] secrets[i]).len() == 0 || !contains(
                text,
                secrets[i],
            ),
    ensures
        scrubbed(text, secrets) == text,
    decreases secrets.len(),
{
    if secrets.len() > 0 {
        let d = secrets.drop_last();
        assert forall|i: int| 0 <= i < d.len() implies (#[trigger] d[i]).len() == 0 || !contains(
            text,
            d[i],
        ) by {
            assert(d[i] == secrets[i]);
        }
        law_scrubbed_only(text, d);
        let last = secrets[secrets.len() - 1];
        if last.len() > 0 {
            lemma_nothing_replaced(text, last, 0);
            assert(text.skip(0) =~= text);
        }
    }
}

proof fn lemma_nothing_replaced(s: Seq<char>, p: Seq<char>, i: int)
    requires
        0 <= i <= s.len(),
        !contains(s, p),
    ensures
        replace_from(s, p, "***"@, i) == s.skip(i),
    decreases s.len() - i,
{
    if i < s.len() {
        assert(!occurs_at(s, p, i));
        lemma_nothing_replaced(s, p, i + 1);
        assert(seq![s[i]] + s.skip(i + 1) =~= s.skip(i));
    } else {
        assert(s.skip(i) =~= seq![]);
    }
}

/// A body is recorded with its own size. With nothing to hide it is recorded as it is, up to the
/// limit; what is longer is cut to its beginning, and only that is marked as cut.
pub proof fn law_body_recorded(body: Seq<char>, max: nat)
    requires
        byte_len(body) <= usize::MAX,
    ensures
        cleaned_body(Some(body), seq![], false, max).bytes == byte_len(body),
        cleaned_body(Some(body), seq![], true, max).bytes == byte_len(body),
        byte_len(body) <= max ==> cleaned_body(Some(body), seq![], false, max).preview == Some(body)
            && !cleaned_body(Some(body), seq![], false, max).truncated,
        byte_len(body) > max ==> cleaned_body(Some(body), seq![], false, max).truncated
            && cleaned_body(Some(body), seq![], false, max).preview is Some && cleaned_body(
            Some(body),
            seq![],
            false,
            max,
        ).preview->0.is_prefix_of(body) && byte_len(
            cleaned_body(Some(body), seq![], false, max).preview->0,
        ) <= max,
        cleaned_body(None, seq![], true, max).preview is None,
        cleaned_body(None, seq![], true, max).bytes == 0,
{
    law_clip(body, max);
}

/// What an assertion shows is masked by the name its target ends with, and scrubbed of known
/// values otherwise; what it decided is never touched.
pub proof fn law_assertions_masked(
    list: Seq<AssertRecordView>,
    secrets: Seq<Seq<char>>,
    i: int,
)
    requires
        0 <= i < list.len(),
    ensures
        redacted_assertions(list, secrets, false) == list,
        ({
            let r = redacted_assertions(list, secrets, true);
            let a = list[i];
            &&& r.len() == list.len()
            &&& r[i].target == a.target && r[i].op == a.op && r[i].ok == a.ok
            &&& !secret_name(last_name(a.target)) ==> r[i].actual == scrubbed(a.actual, secrets)
                && r[i].expected == scrubbed(a.expected, secrets)
            &&& secret_name(last_name(a.target)) ==> {
                &&& r[i].actual == (if a.actual == "∅"@ || a.actual == "—"@ {
                    a.actual
                } else {
                    masked(a.actual)
                })
                &&& r[i].expected == (if a.expected == "∅"@ || a.expected == "—"@ {
                    a.expected
                } else {
                    masked(a.expected)
                })
            }
        }),
{
    let none = Seq::<char>::empty();
    assert forall|v: Seq<char>| v.len() == 0 implies #[trigger] masked(v) == v by {
        assert(seek(v, ' ', 0) == 0);
    }
}

/// The name that a target ends with is what follows its last dot, or what stands in its last
/// brackets, with quotes or without.
pub proof fn law_last_name(front: Seq<char>, name: Seq<char>)
    requires
        name.len() > 0,
        forall|i: int|
            0 <= i < name.len() ==> !parts_names(#[trigger] name[i]) && name[i] != ']',
    ensures
        last_name(name) == name,
        last_name(front + seq!['.'] + name) == name,
        last_name(front + seq!['['] + name + seq![']']) == name,
        last_name(front + seq!['[', '\''] + name + seq!['\'', ']']) == name,
        last_name(front + seq!['[', '"'] + name + seq!['"', ']']) == name,
{
    let none = Seq::<char>::empty();
    assert(none + name =~= name);
    lemma_name_after(none, name);
    lemma_name_after(front + seq!['.'], name);
    lemma_name_after(front + seq!['['], name);
    lemma_name_after(front + seq!['[', '\''], name);
    lemma_name_after(front + seq!['[', '"'], name);
    let a = front + seq!['['] + name;
    assert((a + seq![']']).drop_last() =~= a);
    let b = front + seq!['[', '\''] + name;
    assert((b + seq!['\'', ']']).drop_last() =~= b + seq!['\'']);
    assert((b + seq!['\'']).drop_last() =~= b);
    let c = front + seq!['[', '"'] + name;
    assert((c + seq!['"', ']']).drop_last() =~= c + seq!['"']);
    assert((c + seq!['"']).drop_last() =~= c);
    reveal_with_fuel(no_closers, 3);
}

proof fn lemma_name_after(front: Seq<char>, name: Seq<char>)
    requires
        name.len() > 0,
        front.len() == 0 || parts_names(front.last()),
        forall|i: int|
            0 <= i < name.len() ==> !parts_names(#[trigger] name[i]) && name[i] != ']',
    ensures
        no_closers(front + name) == front + name,
        no_separators(front + name) == front + name,
        after_separator(front + name) == name,
        last_name(front + name) == name,
{
    let t = front + name;
    assert(t.last() == name[name.len() - 1]);
    lemma_after_front(front, name);
}

proof fn lemma_after_front(front: Seq<char>, name: Seq<char>)
    requires
        front.len() == 0 || parts_names(front.last()),
        forall|i: int| 0 <= i < name.len() ==> !parts_names(#[trigger] name[i]),
    ensures
        after_separator(front + name) == name,
    decreases name.len(),
{
    let t = front + name;
    if name.len() > 0 {
        assert(t.last() == name[name.len() - 1]);
        assert(t.drop_last() =~= front + name.drop_last());
        lemma_after_front(front, name.drop_last());
        assert(name.drop_last().push(name.last()) =~= name);
    } else {
        assert(t =~= front);
        assert(after_separator(front) =~= name);
    }
}

/// Members of a JSON body are masked by their names at every depth down to the limit: a text that
/// is not empty under the name of a credential is masked, and everything else keeps its place and
/// is gone through in turn.
pub proof fn law_members_masked(v: JsonView, depth: int)
    requires
        0 <= depth <= 12,
    ensures
        match v {
            JsonView::Array(a) => match masked_json(v, depth) {
                JsonView::Array(r) => r.len() == a.len() && forall|i: int|
                    0 <= i < a.len() ==> #[trigger] r[i] == masked_json(a[i], depth + 1),
                _ => false,
            },
            JsonView::Object(m) => distinct(m) ==> match masked_json(v, depth) {
                JsonView::Object(r) => r.len() == m.len() && forall|i: int|
                    0 <= i < m.len() ==> (#[trigger] r[i]).0 == m[i].0 && r[i].1 == (match m[i].1 {
                        JsonView::Str(t) => if secret_name(m[i].0) {
                            JsonView::Str(masked(t))
                        } else {
                            JsonView::Str(t)
                        },
                        other => masked_json(other, depth + 1),
                    }),
                _ => false,
            },
            other => masked_json(v, depth) == other,
        },
{
    if let JsonView::Object(m) = v {
        if distinct(m) {
            let es = masked_members(m, depth);
            assert(distinct(es)) by {
                assert forall|i: int, j: int| 0 <= i < j < es.len() implies (#[trigger] es[i]).0
                    != (#[trigger] es[j]).0 by {
                    assert(m[i].0 != m[j].0);
                }
            }
            lemma_put_all_distinct(es);
            assert forall|i: int| 0 <= i < m.len() implies (#[trigger] es[i]).1 == (match m[i].1 {
                JsonView::Str(t) => if secret_name(m[i].0) {
                    JsonView::Str(masked(t))
                } else {
                    JsonView::Str(t)
                },
                other => masked_json(other, depth + 1),
            }) by {
                match m[i].1 {
                    JsonView::Str(t) => {
                        if t.len() == 0 {
                            assert(seek(t, ' ', 0) == 0);
                            assert(masked(t) == t);
                        }
                    },
                    _ => {},
                }
            }
        }
    }
}

/// A body is written anew only if something in it is masked: one that is no JSON, and one in which
/// nothing is hidden, is recorded letter for letter.
pub proof fn law_body_untouched(text: Seq<char>)
    ensures
        scrubbed_body(text, false) == text,
        parsed_json(text) is None ==> scrubbed_body(text, true) == text,
        parsed_json(text) is Some && masked_json(parsed_json(text)->0, 0) != parsed_json(text)->0
            ==> touched(parsed_json(text)->0, 0) || !distinct_all(parsed_json(text)->0),
{
    match parsed_json(text) {
        Some(v) => {
            if distinct_all(v) && !touched(v, 0) {
                lemma_untouched(v, 0);
            }
        },
        None => {},
    }
}

/// Whether no object in a value has two members of one name.
pub open spec fn distinct_all(v: JsonView) -> bool
    decreases v,
{
    match v {
        JsonView::Array(a) => forall|i: int| 0 <= i < a.len() ==> distinct_all(#[trigger] a[i]),
        JsonView::Object(m) => distinct(m) && forall|i: int|
            0 <= i < m.len() ==> distinct_all((#[trigger] m[i]).1),
        _ => true,
    }
}

proof fn lemma_untouched(v: JsonView, depth: int)
    requires
        distinct_all(v),
        !touched(v, depth),
        0 <= depth,
    ensures
        masked_json(v, depth) == v,
    decreases v,
{
    if depth <= MAX_SCRUB_DEPTH {
        match v {
            JsonView::Array(a) => {
                assert forall|i: int| 0 <= i < a.len() implies masked_json(#[trigger] a[i], depth + 1)
                    == a[i] by {
                    assert(!touched(a[i], depth + 1));
                    lemma_untouched(a[i], depth + 1);
                }
                assert(masked_json(v, depth)->Array_0 =~= a);
            },
            JsonView::Object(m) => {
                let es = masked_members(m, depth);
                assert forall|i: int| 0 <= i < m.len() implies #[trigger] es[i] == m[i] by {
                    assert(!hides(m[i].0, m[i].1) && !touched(m[i].1, depth + 1));
                    lemma_untouched(m[i].1, depth + 1);
                }
                assert(es =~= m);
                lemma_put_all_distinct(m);
            },
            _ => {},
        }
    }
}

} // verus!
