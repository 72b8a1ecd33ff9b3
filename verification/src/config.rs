//! The configuration of a workspace, `application.yml`: environments and settings.
//!
//! The file is written by hand. What cannot be read falls back to the defaults, and what an
//! editor does not know of is kept when it writes the file.
use crate::case_file::{
    field, is_bool, members, members_of, no_members, object, push_value, sf, sub_member,
    text_member,
};
use crate::emit::{to_yaml, yaml_text};
use crate::json::{
    field_text, member, put_member, remove_member, scalar_field, Json, JsonView, Member,
};
use crate::model::{default_settings, MAX_CONCURRENCY, WorkspaceSettings, WorkspaceSettingsView};
use crate::number::{as_double, cut_to_u64, number_as_u64, spacing, Number, NumberView};
use crate::table::{
    distinct, drop_key, key_at, law_drop_key, law_put, lemma_concat, lemma_concats,
    lemma_distinct_concat, lemma_key_at, lemma_key_at_is, lemma_none, lemma_one,
    lemma_put_all_distinct, lemma_put_all_sorted, lookup, put, put_all, put_all_sorted, SortedMap,
};
use crate::text::{blank, copy_text, duplicates, is_blank, opt_view, trim, trimmed, views};
use crate::yaml::{key_name, load, load_view, loaded, parsed_yaml, table_json, yaml_json, YamlView};
use vstd::prelude::*;

verus! {

/// The variables of an environment, sorted by name so that two reports can be compared.
pub type Vars = SortedMap<String>;

/// The environments by name, in the order in which they are written.
pub type Environments = Vec<Member>;

// ---- environments ----------------------------------------------------------------------

/// The members of an object with every value as text.
pub open spec fn as_texts(m: Seq<(Seq<char>, JsonView)>) -> Seq<(Seq<char>, JsonView)> {
    Seq::new(m.len(), |i: int| (m[i].0, JsonView::Str(field_text(Some(m[i].1)))))
}

/// The environments that the members of `environment` give.
pub open spec fn as_environments(m: Seq<(Seq<char>, JsonView)>) -> Seq<(Seq<char>, JsonView)> {
    Seq::new(
        m.len(),
        |i: int| (m[i].0, JsonView::Object(put_all(as_texts(members(Some(m[i].1)))))),
    )
}

/// The members of a part of a configuration; one that cannot be read has none.
pub open spec fn section(read: Result<JsonView, Seq<char>>, k: Seq<char>) -> Option<
    Seq<(Seq<char>, JsonView)>,
> {
    match read {
        Ok(v) => match lookup(members(Some(v)), k) {
            Some(JsonView::Object(m)) => Some(m),
            _ => None,
        },
        Err(_) => None,
    }
}

/// The environments of a configuration.
pub open spec fn environments_read(read: Result<JsonView, Seq<char>>) -> Seq<(Seq<char>, JsonView)> {
    match section(read, "environment"@) {
        Some(m) => put_all(as_environments(m)),
        None => seq![],
    }
}

/// A copy of a part of a configuration.
fn section_of(read: &Result<Json, String>, k: &str) -> (r: Option<Vec<Member>>)
    ensures
        match r {
            Some(m) => section(load_view(*read), k@) == Some(views(m@)),
            None => section(load_view(*read), k@) is None,
        },
{
    match read {
        Ok(v) => {
            let m: Option<&Vec<Member>> = members_of(Some(v));
            match members_of(sub_member(m, k)) {
                Some(o) => Some(duplicates(o)),
                None => None,
            }
        },
        Err(_) => None,
    }
}

/// The variables of an environment, every one as text.
fn texts_of(m: &Vec<Member>) -> (r: Vec<Member>)
    ensures
        views(r@) == put_all(as_texts(views(m@))),
{
    let mut out: Vec<Member> = no_members();
    let ghost es = as_texts(views(m@));
    assert(es.take(0) =~= seq![]);
    let mut i: usize = 0;
    while i < m.len()
        invariant
            i <= m@.len(),
            es == as_texts(views(m@)),
            views(out@) == put_all(es.take(i as int)),
        decreases m@.len() - i,
    {
        let v: Json = Json::Str(scalar_field(&m[i].value));
        proof {
            assert(es.take(i + 1).drop_last() =~= es.take(i as int));
            assert(es.take(i + 1).last() == (m@[i as int].name@, v@));
        }
        put_member(&mut out, m[i].name.as_str(), v);
        i = i + 1;
    }
    assert(es.take(es.len() as int) =~= es);
    out
}

/// The environments of a configuration.
pub fn environments_of(read: &Result<Json, String>) -> (r: Environments)
    ensures
        views(r@) == environments_read(load_view(*read)),
{
    let mut out: Vec<Member> = no_members();
    if let Some(m) = section_of(read, "environment") {
        let ghost es = as_environments(views(m@));
        assert(es.take(0) =~= seq![]);
        let mut i: usize = 0;
        while i < m.len()
            invariant
                i <= m@.len(),
                es == as_environments(views(m@)),
                views(out@) == put_all(es.take(i as int)),
            decreases m@.len() - i,
        {
            let vars: Vec<Member> = match m[i].value.as_object() {
                Some(o) => texts_of(o),
                None => no_members(),
            };
            proof {
                assert(es.take(i + 1).drop_last() =~= es.take(i as int));
                assert(as_texts(seq![]) =~= seq![]);
                assert(es.take(i + 1).last() == (
                    m@[i as int].name@,
                    JsonView::Object(views(vars@)),
                ));
            }
            put_member(&mut out, m[i].name.as_str(), object(vars));
            i = i + 1;
        }
        assert(es.take(es.len() as int) =~= es);
    }
    out
}

/// Reads the environments of a configuration. A text that cannot be read has none.
pub fn parse_environments(text: &str) -> (r: Environments)
    ensures
        views(r@) == environments_read(loaded(text@)),
{
    environments_of(&load(text))
}

/// The entries of an object with every value as text.
pub open spec fn text_entries(m: Seq<(Seq<char>, JsonView)>) -> Seq<(Seq<char>, Seq<char>)> {
    Seq::new(m.len(), |i: int| (m[i].0, field_text(Some(m[i].1))))
}

/// The variables of an environment; an unknown one has none.
pub open spec fn vars_of(envs: Seq<(Seq<char>, JsonView)>, name: Seq<char>) -> Seq<
    (Seq<char>, Seq<char>),
> {
    put_all_sorted(seq![], text_entries(members(lookup(envs, name))))
}

/// The variables of an environment.
pub fn env_vars(envs: &Environments, name: &str) -> (r: Vars)
    ensures
        r@ == vars_of(views(envs@), name@),
{
    let mut out: Vars = SortedMap::new();
    let found: Option<&Vec<Member>> = members_of(member(envs, name));
    if let Some(m) = found {
        let ghost es = text_entries(views(m@));
        assert(es.take(0) =~= seq![]);
        let mut i: usize = 0;
        while i < m.len()
            invariant
                i <= m@.len(),
                es == text_entries(views(m@)),
                out@ == put_all_sorted(seq![], es.take(i as int)),
            decreases m@.len() - i,
        {
            let v: String = scalar_field(&m[i].value);
            proof {
                assert(es.take(i + 1).drop_last() =~= es.take(i as int));
                assert(es.take(i + 1).last() == (m@[i as int].name@, v@));
            }
            out.insert(copy_text(m[i].name.as_str()), v);
            i = i + 1;
        }
        assert(es.take(es.len() as int) =~= es);
    }
    assert(text_entries(seq![]) =~= seq![]);
    out
}

// ---- settings --------------------------------------------------------------------------

/// A number of cases that run at a time, within its bounds.
pub open spec fn clamped(n: u64) -> u32 {
    if n < 1 {
        1
    } else if n > MAX_CONCURRENCY {
        MAX_CONCURRENCY
    } else {
        n as u32
    }
}

/// The settings that members give. Certificates are checked and cookies are kept unless an
/// explicit `false` says otherwise; the other switches need an explicit `true`. `quoted` is
/// the limit that stands for a time limit written as text.
pub open spec fn settings_of(st: Seq<(Seq<char>, JsonView)>, quoted: Option<u64>) -> WorkspaceSettingsView {
    WorkspaceSettingsView {
        verify_ssl: lookup(st, "verifySsl"@) != Some(JsonView::Bool(false)),
        use_custom_ca: lookup(st, "useCustomCa"@) == Some(JsonView::Bool(true)),
        ca_cert: trim(field(st, "caCert"@)),
        timeout_ms: match lookup(st, "timeoutMs"@) {
            Some(JsonView::Number(n)) => cut_to_u64(n),
            Some(JsonView::Str(_)) => match quoted {
                Some(ms) => ms,
                None => 0,
            },
            _ => 0,
        },
        cookies: lookup(st, "cookies"@) != Some(JsonView::Bool(false)),
        continue_on_assertion_failure: lookup(st, "continueOnAssertionFailure"@) == Some(
            JsonView::Bool(true),
        ),
        concurrency: match lookup(st, "concurrency"@) {
            Some(JsonView::Number(n)) => clamped(cut_to_u64(n)),
            _ => 1,
        },
    }
}

/// The settings of a configuration; one without settings has the defaults.
pub open spec fn settings_read(read: Result<JsonView, Seq<char>>, quoted: Option<u64>) -> WorkspaceSettingsView {
    match section(read, "settings"@) {
        Some(st) => settings_of(st, quoted),
        None => default_settings(),
    }
}

/// The time limit of a configuration, where it is written as text.
pub open spec fn quoted_limit(read: Result<JsonView, Seq<char>>) -> Option<Seq<char>> {
    match section(read, "settings"@) {
        Some(st) => match lookup(st, "timeoutMs"@) {
            Some(JsonView::Str(s)) => Some(trim(s)),
            _ => None,
        },
        None => None,
    }
}

/// The time limit of a configuration, where it is written as text. Reading it as a number of
/// milliseconds is left to the caller, who hands the result to `parse_settings`.
pub fn timeout_source(text: &str) -> (r: Option<String>)
    ensures
        opt_view(r) == quoted_limit(loaded(text@)),
{
    match section_of(&load(text), "settings") {
        Some(st) => match member(&st, "timeoutMs") {
            Some(Json::Str(s)) => Some(trimmed(s.as_str())),
            _ => None,
        },
        None => None,
    }
}

/// The settings of a configuration.
pub fn settings_in(read: &Result<Json, String>, quoted: Option<u64>) -> (r: WorkspaceSettings)
    ensures
        r@ == settings_read(load_view(*read), quoted),
{
    let st: Vec<Member> = match section_of(read, "settings") {
        Some(st) => st,
        None => {
            return WorkspaceSettings::default();
        },
    };
    let timeout_ms: u64 = match member(&st, "timeoutMs") {
        Some(Json::Number(n)) => number_as_u64(n),
        Some(Json::Str(_)) => match quoted {
            Some(ms) => ms,
            None => 0,
        },
        _ => 0,
    };
    let concurrency: u32 = match member(&st, "concurrency") {
        Some(Json::Number(n)) => {
            let c: u64 = number_as_u64(n);
            if c < 1 {
                1
            } else if c > MAX_CONCURRENCY as u64 {
                MAX_CONCURRENCY
            } else {
                c as u32
            }
        },
        _ => 1,
    };
    WorkspaceSettings {
        verify_ssl: !is_bool(&st, "verifySsl", false),
        use_custom_ca: is_bool(&st, "useCustomCa", true),
        ca_cert: trimmed(sf(&st, "caCert").as_str()),
        timeout_ms,
        cookies: !is_bool(&st, "cookies", false),
        continue_on_assertion_failure: is_bool(&st, "continueOnAssertionFailure", true),
        concurrency,
    }
}

/// Reads the settings of a configuration. `quoted` is the limit that stands for a time limit
/// written as text.
pub fn parse_settings(text: &str, quoted: Option<u64>) -> (r: WorkspaceSettings)
    ensures
        r@ == settings_read(loaded(text@), quoted),
{
    settings_in(&load(text), quoted)
}

// ---- writing ---------------------------------------------------------------------------

/// A member for a switch that is written.
pub open spec fn flag_member(k: Seq<char>, written: bool, b: bool) -> Seq<(Seq<char>, JsonView)> {
    if written {
        seq![(k, JsonView::Bool(b))]
    } else {
        seq![]
    }
}

/// A member for a number that is written.
pub open spec fn number_member(k: Seq<char>, written: bool, n: int) -> Seq<(Seq<char>, JsonView)> {
    if written {
        seq![(k, JsonView::Number(NumberView::Int(n)))]
    } else {
        seq![]
    }
}

/// The settings that are written: those that are not the defaults.
pub open spec fn settings_json(s: WorkspaceSettingsView) -> Seq<(Seq<char>, JsonView)> {
    flag_member("verifySsl"@, !s.verify_ssl, false) + flag_member(
        "useCustomCa"@,
        s.use_custom_ca,
        true,
    ) + (if is_blank(s.ca_cert) {
        seq![]
    } else {
        seq![text_member("caCert"@, trim(s.ca_cert))]
    }) + number_member("timeoutMs"@, s.timeout_ms > 0, s.timeout_ms as int) + flag_member(
        "cookies"@,
        !s.cookies,
        false,
    ) + flag_member("continueOnAssertionFailure"@, s.continue_on_assertion_failure, true)
        + number_member("concurrency"@, s.concurrency != 1, s.concurrency as int)
}

fn push_flag(o: &mut Vec<Member>, k: &str, written: bool, b: bool)
    ensures
        views(final(o)@) == views(old(o)@) + flag_member(k@, written, b),
{
    let ghost start = views(o@);
    if written {
        push_value(o, k, Json::Bool(b));
    }
    assert(views(o@) =~= start + flag_member(k@, written, b));
}

fn push_number(o: &mut Vec<Member>, k: &str, written: bool, n: u64)
    ensures
        views(final(o)@) == views(old(o)@) + number_member(k@, written, n as int),
{
    let ghost start = views(o@);
    if written {
        push_value(o, k, Json::Number(Number::PosInt(n)));
    }
    assert(views(o@) =~= start + number_member(k@, written, n as int));
}

/// The settings that are written.
fn ser_settings(s: &WorkspaceSettings) -> (r: Vec<Member>)
    ensures
        views(r@) == settings_json(s@),
{
    let mut o: Vec<Member> = no_members();
    push_flag(&mut o, "verifySsl", !s.verify_ssl, false);
    assert(views(o@) =~= flag_member("verifySsl"@, !s.verify_ssl, false));
    push_flag(&mut o, "useCustomCa", s.use_custom_ca, true);
    let ghost before = views(o@);
    if !blank(s.ca_cert.as_str()) {
        push_value(&mut o, "caCert", Json::Str(trimmed(s.ca_cert.as_str())));
    }
    assert(views(o@) =~= before + (if is_blank(s@.ca_cert) {
        seq![]
    } else {
        seq![text_member("caCert"@, trim(s@.ca_cert))]
    }));
    push_number(&mut o, "timeoutMs", s.timeout_ms > 0, s.timeout_ms);
    push_flag(&mut o, "cookies", !s.cookies, false);
    push_flag(&mut o, "continueOnAssertionFailure", s.continue_on_assertion_failure, true);
    push_number(&mut o, "concurrency", s.concurrency != 1, s.concurrency as u64);
    o
}

/// Members without those that the settings write.
pub open spec fn unmanaged(m: Seq<(Seq<char>, JsonView)>) -> Seq<(Seq<char>, JsonView)> {
    let a = drop_key(m, "verifySsl"@);
    let b = drop_key(a, "useCustomCa"@);
    let c = drop_key(b, "caCert"@);
    let d = drop_key(c, "timeoutMs"@);
    let e = drop_key(d, "cookies"@);
    let f = drop_key(e, "continueOnAssertionFailure"@);
    drop_key(f, "concurrency"@)
}

/// A table with every entry of another set in turn.
pub open spec fn put_each(m: Seq<(Seq<char>, JsonView)>, es: Seq<(Seq<char>, JsonView)>) -> Seq<
    (Seq<char>, JsonView),
>
    decreases es.len(),
{
    if es.len() == 0 {
        m
    } else {
        put(put_each(m, es.drop_last()), es.last().0, es.last().1)
    }
}

/// A configuration with its environments, and its settings where there are any, replaced. The
/// other members, and the settings that are not known, are kept.
pub open spec fn config_members(
    base: Seq<(Seq<char>, JsonView)>,
    envs: Seq<(Seq<char>, JsonView)>,
    settings: Option<WorkspaceSettingsView>,
) -> Seq<(Seq<char>, JsonView)> {
    let with_envs = put(base, "environment"@, JsonView::Object(envs));
    match settings {
        None => with_envs,
        Some(s) => {
            let next = put_each(
                unmanaged(members(lookup(with_envs, "settings"@))),
                settings_json(s),
            );
            if next.len() == 0 {
                drop_key(with_envs, "settings"@)
            } else {
                put(with_envs, "settings"@, JsonView::Object(next))
            }
        },
    }
}

/// The members of a configuration; one that cannot be read has none.
pub open spec fn config_base(read: Result<JsonView, Seq<char>>) -> Seq<(Seq<char>, JsonView)> {
    match read {
        Ok(v) => members(Some(v)),
        Err(_) => seq![],
    }
}

/// The view of settings that may be missing.
pub open spec fn seen_settings(s: Option<&WorkspaceSettings>) -> Option<WorkspaceSettingsView> {
    match s {
        Some(s) => Some(s@),
        None => None,
    }
}

/// A configuration with its environments, and its settings where there are any, replaced.
pub fn config_object(
    read: &Result<Json, String>,
    environment: &Environments,
    settings: Option<&WorkspaceSettings>,
) -> (r: Json)
    ensures
        r@ == JsonView::Object(
            config_members(
                config_base(load_view(*read)),
                views(environment@),
                seen_settings(settings),
            ),
        ),
{
    let mut base: Vec<Member> = match read {
        Ok(v) => match v.as_object() {
            Some(m) => duplicates(m),
            None => no_members(),
        },
        Err(_) => no_members(),
    };
    put_member(&mut base, "environment", object(duplicates(environment)));
    if let Some(st) = settings {
        let mut prev: Vec<Member> = match members_of(member(&base, "settings")) {
            Some(m) => duplicates(m),
            None => no_members(),
        };
        remove_member(&mut prev, "verifySsl");
        remove_member(&mut prev, "useCustomCa");
        remove_member(&mut prev, "caCert");
        remove_member(&mut prev, "timeoutMs");
        remove_member(&mut prev, "cookies");
        remove_member(&mut prev, "continueOnAssertionFailure");
        remove_member(&mut prev, "concurrency");
        let next: Vec<Member> = ser_settings(st);
        let ghost start = views(prev@);
        let ghost es = views(next@);
        assert(es.take(0) =~= seq![]);
        let mut i: usize = 0;
        while i < next.len()
            invariant
                i <= next@.len(),
                es == views(next@),
                views(prev@) == put_each(start, es.take(i as int)),
            decreases next@.len() - i,
        {
            proof {
                assert(es.take(i + 1).drop_last() =~= es.take(i as int));
                assert(es.take(i + 1).last() == next@[i as int]@);
            }
            put_member(&mut prev, next[i].name.as_str(), next[i].value.copy());
            i = i + 1;
        }
        assert(es.take(es.len() as int) =~= es);
        if prev.len() == 0 {
            remove_member(&mut base, "settings");
        } else {
            put_member(&mut base, "settings", object(prev));
        }
    }
    object(base)
}

/// Writes environments, and settings where there are any, into a configuration.
pub fn dump_application_config(
    base_text: &str,
    environment: &Environments,
    settings: Option<&WorkspaceSettings>,
) -> (r: String)
    ensures
        r@ == yaml_text(
            JsonView::Object(
                config_members(
                    config_base(loaded(base_text@)),
                    views(environment@),
                    seen_settings(settings),
                ),
            ),
        ),
{
    to_yaml(&config_object(&load(base_text), environment, settings))
}

// ---- laws ------------------------------------------------------------------------------

proof fn lemma_put_each(
    m: Seq<(Seq<char>, JsonView)>,
    es: Seq<(Seq<char>, JsonView)>,
    k: Seq<char>,
)
    requires
        distinct(es),
    ensures
        lookup(put_each(m, es), k) == (match lookup(es, k) {
            Some(v) => Some(v),
            None => lookup(m, k),
        }),
        distinct(m) ==> distinct(put_each(m, es)),
    decreases es.len(),
{
    if es.len() > 0 {
        let d = es.drop_last();
        let e = es.last();
        assert(distinct(d)) by {
            assert forall|i: int, j: int| 0 <= i < j < d.len() implies (#[trigger] d[i]).0 != (
            #[trigger] d[j]).0 by {
                assert(d[i] == es[i] && d[j] == es[j]);
            }
        }
        lemma_put_each(m, d, k);
        law_put(put_each(m, d), e.0, e.1, k);
        lemma_concat(d, seq![e], k);
        lemma_one(seq![e]);
        assert(es =~= d + seq![e]);
        if e.0 == k {
            lemma_key_at(d, k, 0);
            let j = key_at(d, k, 0);
            if j < d.len() {
                assert(es[j].0 != es[es.len() - 1].0);
            }
        }
    }
}

/// Whether a setting is one that the library writes.
pub open spec fn is_managed(k: Seq<char>) -> bool {
    k == "verifySsl"@ || k == "useCustomCa"@ || k == "caCert"@ || k == "timeoutMs"@ || k
        == "cookies"@ || k == "continueOnAssertionFailure"@ || k == "concurrency"@
}

proof fn lemma_unmanaged(m: Seq<(Seq<char>, JsonView)>, k: Seq<char>)
    requires
        distinct(m),
    ensures
        lookup(unmanaged(m), k) == (if is_managed(k) {
            None
        } else {
            lookup(m, k)
        }),
        distinct(unmanaged(m)),
{
    let a = drop_key(m, "verifySsl"@);
    let b = drop_key(a, "useCustomCa"@);
    let c = drop_key(b, "caCert"@);
    let d = drop_key(c, "timeoutMs"@);
    let e = drop_key(d, "cookies"@);
    let f = drop_key(e, "continueOnAssertionFailure"@);
    law_drop_key(m, "verifySsl"@, k);
    law_drop_key(a, "useCustomCa"@, k);
    law_drop_key(b, "caCert"@, k);
    law_drop_key(c, "timeoutMs"@, k);
    law_drop_key(d, "cookies"@, k);
    law_drop_key(e, "continueOnAssertionFailure"@, k);
    law_drop_key(f, "concurrency"@, k);
}

/// The settings that are written, by their keys.
spec fn written(s: WorkspaceSettingsView, k: Seq<char>) -> Option<JsonView> {
    if k == "verifySsl"@ && !s.verify_ssl {
        Some(JsonView::Bool(false))
    } else if k == "useCustomCa"@ && s.use_custom_ca {
        Some(JsonView::Bool(true))
    } else if k == "caCert"@ && !is_blank(s.ca_cert) {
        Some(JsonView::Str(trim(s.ca_cert)))
    } else if k == "timeoutMs"@ && s.timeout_ms > 0 {
        Some(JsonView::Number(NumberView::Int(s.timeout_ms as int)))
    } else if k == "cookies"@ && !s.cookies {
        Some(JsonView::Bool(false))
    } else if k == "continueOnAssertionFailure"@ && s.continue_on_assertion_failure {
        Some(JsonView::Bool(true))
    } else if k == "concurrency"@ && s.concurrency != 1 {
        Some(JsonView::Number(NumberView::Int(s.concurrency as int)))
    } else {
        None
    }
}

proof fn lemma_at_most_one(m: Seq<(Seq<char>, JsonView)>, k: Seq<char>, v: JsonView, there: bool)
    requires
        m == (if there {
            seq![(k, v)]
        } else {
            seq![]
        }),
    ensures
        distinct(m),
        forall|n: Seq<char>| #[trigger]
            lookup(m, n) == (if there && n == k {
                Some(v)
            } else {
                None
            }),
{
    lemma_none::<JsonView>();
    if there {
        lemma_one(m);
    }
}

/// The first settings that are written.
spec fn first_settings(s: WorkspaceSettingsView) -> Seq<(Seq<char>, JsonView)> {
    flag_member("verifySsl"@, !s.verify_ssl, false) + flag_member(
        "useCustomCa"@,
        s.use_custom_ca,
        true,
    ) + (if is_blank(s.ca_cert) {
        seq![]
    } else {
        seq![text_member("caCert"@, trim(s.ca_cert))]
    }) + number_member("timeoutMs"@, s.timeout_ms > 0, s.timeout_ms as int)
}

/// The last settings that are written.
spec fn last_settings(s: WorkspaceSettingsView) -> Seq<(Seq<char>, JsonView)> {
    flag_member("cookies"@, !s.cookies, false) + flag_member(
        "continueOnAssertionFailure"@,
        s.continue_on_assertion_failure,
        true,
    ) + number_member("concurrency"@, s.concurrency != 1, s.concurrency as int)
}

proof fn lemma_keys_differ()
    ensures
        "verifySsl"@ != "useCustomCa"@,
        "verifySsl"@ != "caCert"@,
        "verifySsl"@ != "timeoutMs"@,
        "verifySsl"@ != "cookies"@,
        "verifySsl"@ != "continueOnAssertionFailure"@,
        "verifySsl"@ != "concurrency"@,
        "useCustomCa"@ != "caCert"@,
        "useCustomCa"@ != "timeoutMs"@,
        "useCustomCa"@ != "cookies"@,
        "useCustomCa"@ != "continueOnAssertionFailure"@,
        "useCustomCa"@ != "concurrency"@,
        "caCert"@ != "timeoutMs"@,
        "caCert"@ != "cookies"@,
        "caCert"@ != "continueOnAssertionFailure"@,
        "caCert"@ != "concurrency"@,
        "timeoutMs"@ != "cookies"@,
        "timeoutMs"@ != "continueOnAssertionFailure"@,
        "timeoutMs"@ != "concurrency"@,
        "cookies"@ != "continueOnAssertionFailure"@,
        "cookies"@ != "concurrency"@,
        "continueOnAssertionFailure"@ != "concurrency"@,
{
    reveal_strlit("verifySsl");
    reveal_strlit("useCustomCa");
    reveal_strlit("caCert");
    reveal_strlit("timeoutMs");
    reveal_strlit("cookies");
    reveal_strlit("continueOnAssertionFailure");
    reveal_strlit("concurrency");
    assert("verifySsl"@.len() != "useCustomCa"@.len());
    assert("verifySsl"@.len() != "caCert"@.len());
    assert("verifySsl"@[0] != "timeoutMs"@[0]);
    assert("verifySsl"@.len() != "cookies"@.len());
    assert("verifySsl"@.len() != "continueOnAssertionFailure"@.len());
    assert("verifySsl"@.len() != "concurrency"@.len());
    assert("useCustomCa"@.len() != "caCert"@.len());
    assert("useCustomCa"@.len() != "timeoutMs"@.len());
    assert("useCustomCa"@.len() != "cookies"@.len());
    assert("useCustomCa"@.len() != "continueOnAssertionFailure"@.len());
    assert("useCustomCa"@[0] != "concurrency"@[0]);
    assert("caCert"@.len() != "timeoutMs"@.len());
    assert("caCert"@.len() != "cookies"@.len());
    assert("caCert"@.len() != "continueOnAssertionFailure"@.len());
    assert("caCert"@.len() != "concurrency"@.len());
    assert("timeoutMs"@.len() != "cookies"@.len());
    assert("timeoutMs"@.len() != "continueOnAssertionFailure"@.len());
    assert("timeoutMs"@.len() != "concurrency"@.len());
    assert("cookies"@.len() != "continueOnAssertionFailure"@.len());
    assert("cookies"@.len() != "concurrency"@.len());
    assert("continueOnAssertionFailure"@.len() != "concurrency"@.len());
}

proof fn lemma_first_settings(s: WorkspaceSettingsView)
    ensures
        distinct(first_settings(s)),
        forall|k: Seq<char>| #[trigger]
            lookup(first_settings(s), k) == (if k == "verifySsl"@ || k == "useCustomCa"@ || k
                == "caCert"@ || k == "timeoutMs"@ {
                written(s, k)
            } else {
                None
            }),
{
    lemma_keys_differ();
    let a = flag_member("verifySsl"@, !s.verify_ssl, false);
    let b = flag_member("useCustomCa"@, s.use_custom_ca, true);
    let c: Seq<(Seq<char>, JsonView)> = if is_blank(s.ca_cert) {
        seq![]
    } else {
        seq![text_member("caCert"@, trim(s.ca_cert))]
    };
    let d = number_member("timeoutMs"@, s.timeout_ms > 0, s.timeout_ms as int);
    lemma_at_most_one(a, "verifySsl"@, JsonView::Bool(false), !s.verify_ssl);
    lemma_at_most_one(b, "useCustomCa"@, JsonView::Bool(true), s.use_custom_ca);
    lemma_at_most_one(c, "caCert"@, JsonView::Str(trim(s.ca_cert)), !is_blank(s.ca_cert));
    lemma_at_most_one(
        d,
        "timeoutMs"@,
        JsonView::Number(NumberView::Int(s.timeout_ms as int)),
        s.timeout_ms > 0,
    );
    lemma_concats(a, b);
    lemma_distinct_concat(a, b);
    lemma_concats(a + b, c);
    lemma_distinct_concat(a + b, c);
    lemma_concats(a + b + c, d);
    lemma_distinct_concat(a + b + c, d);
    assert(first_settings(s) =~= a + b + c + d);
}

proof fn lemma_last_settings(s: WorkspaceSettingsView)
    ensures
        distinct(last_settings(s)),
        forall|k: Seq<char>| #[trigger]
            lookup(last_settings(s), k) == (if k == "cookies"@ || k == "continueOnAssertionFailure"@
                || k == "concurrency"@ {
                written(s, k)
            } else {
                None
            }),
{
    lemma_keys_differ();
    let e = flag_member("cookies"@, !s.cookies, false);
    let f = flag_member("continueOnAssertionFailure"@, s.continue_on_assertion_failure, true);
    let g = number_member("concurrency"@, s.concurrency != 1, s.concurrency as int);
    lemma_at_most_one(e, "cookies"@, JsonView::Bool(false), !s.cookies);
    lemma_at_most_one(
        f,
        "continueOnAssertionFailure"@,
        JsonView::Bool(true),
        s.continue_on_assertion_failure,
    );
    lemma_at_most_one(
        g,
        "concurrency"@,
        JsonView::Number(NumberView::Int(s.concurrency as int)),
        s.concurrency != 1,
    );
    lemma_concats(e, f);
    lemma_distinct_concat(e, f);
    lemma_concats(e + f, g);
    lemma_distinct_concat(e + f, g);
    assert(last_settings(s) =~= e + f + g);
}

proof fn lemma_settings_json(s: WorkspaceSettingsView)
    ensures
        distinct(settings_json(s)),
        forall|k: Seq<char>| #[trigger] lookup(settings_json(s), k) == written(s, k),
{
    lemma_keys_differ();
    lemma_first_settings(s);
    lemma_last_settings(s);
    lemma_concats(first_settings(s), last_settings(s));
    lemma_distinct_concat(first_settings(s), last_settings(s));
    assert(settings_json(s) =~= first_settings(s) + last_settings(s));
}

/// Whether settings can be written in full: what is read of a certificate path has no blanks
/// around it, a time limit is a double-precision number, and the number of cases that run at a
/// time is within its bounds.
pub open spec fn settings_settled(s: WorkspaceSettingsView) -> bool {
    &&& trim(s.ca_cert) == s.ca_cert
    &&& as_double(s.timeout_ms as nat) == s.timeout_ms
    &&& 1 <= s.concurrency <= MAX_CONCURRENCY
}

/// An integer of up to 53 bits is a double-precision number.
pub proof fn lemma_small_double(n: nat)
    requires
        n < 0x20_0000_0000_0000,
    ensures
        as_double(n) == n,
{
    assert(spacing(n, 1) == 1);
}

proof fn lemma_config(
    base: Seq<(Seq<char>, JsonView)>,
    envs: Seq<(Seq<char>, JsonView)>,
    s: WorkspaceSettingsView,
    k: Seq<char>,
)
    requires
        distinct(base),
        distinct(members(lookup(base, "settings"@))),
    ensures
        ({
            let m = config_members(base, envs, Some(s));
            let next = members(lookup(m, "settings"@));
            &&& lookup(m, "environment"@) == Some(JsonView::Object(envs))
            &&& k != "environment"@ && k != "settings"@ ==> lookup(m, k) == lookup(base, k)
            &&& lookup(next, k) == (if is_managed(k) {
                written(s, k)
            } else {
                lookup(members(lookup(base, "settings"@)), k)
            })
            &&& lookup(m, "settings"@) is Some ==> lookup(m, "settings"@) == Some(
                JsonView::Object(next),
            )
        }),
{
    reveal_strlit("environment");
    reveal_strlit("settings");
    assert("environment"@.len() != "settings"@.len());
    let with_envs = put(base, "environment"@, JsonView::Object(envs));
    law_put(base, "environment"@, JsonView::Object(envs), "settings"@);
    law_put(base, "environment"@, JsonView::Object(envs), k);
    let prev = members(lookup(base, "settings"@));
    let next = put_each(unmanaged(prev), settings_json(s));
    lemma_unmanaged(prev, k);
    lemma_settings_json(s);
    lemma_put_each(unmanaged(prev), settings_json(s), k);
    lemma_none::<JsonView>();
    if next.len() == 0 {
        law_drop_key(with_envs, "settings"@, "environment"@);
        law_drop_key(with_envs, "settings"@, k);
        assert(next =~= seq![]);
    } else {
        law_put(with_envs, "settings"@, JsonView::Object(next), "environment"@);
        law_put(with_envs, "settings"@, JsonView::Object(next), k);
    }
}

/// Settings that are written are read back as they were, whatever the configuration held.
pub proof fn law_settings_read_back(
    base: Seq<(Seq<char>, JsonView)>,
    envs: Seq<(Seq<char>, JsonView)>,
    s: WorkspaceSettingsView,
    quoted: Option<u64>,
)
    requires
        distinct(base),
        distinct(members(lookup(base, "settings"@))),
        settings_settled(s),
    ensures
        settings_read(Ok(JsonView::Object(config_members(base, envs, Some(s)))), quoted) == s,
{
    let m = config_members(base, envs, Some(s));
    let next = members(lookup(m, "settings"@));
    lemma_config(base, envs, s, "verifySsl"@);
    lemma_config(base, envs, s, "useCustomCa"@);
    lemma_config(base, envs, s, "caCert"@);
    lemma_config(base, envs, s, "timeoutMs"@);
    lemma_config(base, envs, s, "cookies"@);
    lemma_config(base, envs, s, "continueOnAssertionFailure"@);
    lemma_config(base, envs, s, "concurrency"@);
    lemma_keys_differ();
    lemma_small_double(s.concurrency as nat);
    assert(is_blank(s.ca_cert) ==> s.ca_cert =~= seq![]);
    assert(trim(Seq::<char>::empty()) =~= Seq::<char>::empty());
    if lookup(m, "settings"@) is Some {
        assert(settings_of(next, quoted) =~= s);
    } else {
        lemma_none::<JsonView>();
        assert(default_settings() =~= s);
    }
}

/// Writing environments and settings keeps every other part of a configuration, and every
/// setting that is not known; the environments are those that were given.
pub proof fn law_unknown_kept(
    base: Seq<(Seq<char>, JsonView)>,
    envs: Seq<(Seq<char>, JsonView)>,
    s: WorkspaceSettingsView,
    k: Seq<char>,
)
    requires
        distinct(base),
        distinct(members(lookup(base, "settings"@))),
    ensures
        lookup(config_members(base, envs, Some(s)), "environment"@) == Some(JsonView::Object(envs)),
        k != "environment"@ && k != "settings"@ ==> lookup(
            config_members(base, envs, Some(s)),
            k,
        ) == lookup(base, k),
        !is_managed(k) ==> lookup(
            members(lookup(config_members(base, envs, Some(s)), "settings"@)),
            k,
        ) == lookup(members(lookup(base, "settings"@)), k),
{
    lemma_config(base, envs, s, k);
}

/// Writing environments alone keeps every other part of a configuration as it was.
pub proof fn law_settings_untouched(
    base: Seq<(Seq<char>, JsonView)>,
    envs: Seq<(Seq<char>, JsonView)>,
    k: Seq<char>,
)
    ensures
        lookup(config_members(base, envs, None), "environment"@) == Some(JsonView::Object(envs)),
        k != "environment"@ ==> lookup(config_members(base, envs, None), k) == lookup(base, k),
{
    law_put(base, "environment"@, JsonView::Object(envs), k);
}

/// Default settings are not written: a configuration without settings that are not known has
/// no settings at all afterwards.
pub proof fn law_defaults_not_written(
    base: Seq<(Seq<char>, JsonView)>,
    envs: Seq<(Seq<char>, JsonView)>,
)
    requires
        distinct(base),
        unmanaged(members(lookup(base, "settings"@))).len() == 0,
    ensures
        lookup(config_members(base, envs, Some(default_settings())), "settings"@) is None,
{
    reveal_strlit("environment");
    reveal_strlit("settings");
    assert("environment"@.len() != "settings"@.len());
    let with_envs = put(base, "environment"@, JsonView::Object(envs));
    law_put(base, "environment"@, JsonView::Object(envs), "settings"@);
    law_drop_key(with_envs, "settings"@, "settings"@);
    assert(is_blank(default_settings().ca_cert));
    assert(settings_json(default_settings()) =~= seq![]);
}

proof fn lemma_yaml_keys(v: YamlView)
    ensures
        match yaml_json(v) {
            JsonView::Object(m) => distinct(m) && forall|k: Seq<char>|
                distinct(members(#[trigger] lookup(m, k))),
            _ => true,
        },
    decreases v,
{
    match v {
        YamlView::Tagged(t) => {
            lemma_yaml_keys(*t);
        },
        YamlView::Table(m) => {
            lemma_table_keys(m, m.len());
            let o = table_json(m, m.len());
            assert forall|k: Seq<char>| distinct(members(#[trigger] lookup(o, k))) by {
                lemma_key_at(o, k, 0);
                let i = key_at(o, k, 0);
                if i < o.len() {
                    assert(distinct(members(Some(o[i].1))));
                }
            }
        },
        _ => {},
    }
}

proof fn lemma_table_keys(m: Seq<(YamlView, YamlView)>, n: nat)
    ensures
        distinct(table_json(m, n)),
        forall|i: int|
            0 <= i < table_json(m, n).len() ==> distinct(
                members(Some((#[trigger] table_json(m, n)[i]).1)),
            ),
    decreases m, n,
{
    if n > 0 && n <= m.len() {
        let rest = table_json(m, (n - 1) as nat);
        lemma_table_keys(m, (n - 1) as nat);
        lemma_yaml_keys(m[n - 1].1);
        law_put(rest, key_name(m[n - 1].0), yaml_json(m[n - 1].1), seq![]);
        lemma_key_at(rest, key_name(m[n - 1].0), 0);
        assert(distinct(members(Some(yaml_json(m[n - 1].1)))));
        let t = table_json(m, n);
        assert forall|i: int| 0 <= i < t.len() implies distinct(members(Some((#[trigger] t[i]).1))) by {
            if i < rest.len() && t[i] == rest[i] {
            } else {
                assert(t[i].1 == yaml_json(m[n - 1].1));
            }
        }
    }
}

/// The keys of a configuration that was read are distinct, and so are those of its settings.
pub proof fn law_read_keys_distinct(text: Seq<char>, k: Seq<char>)
    ensures
        distinct(config_base(loaded(text))),
        distinct(members(lookup(config_base(loaded(text)), k))),
{
    lemma_none::<JsonView>();
    if let Ok(v) = parsed_yaml(text) {
        lemma_yaml_keys(v);
    }
    assert(distinct(Seq::<(Seq<char>, JsonView)>::empty()));
}

/// A configuration that cannot be read is one without environments and with default settings.
pub proof fn law_unreadable_is_default(e: Seq<char>, quoted: Option<u64>)
    ensures
        settings_read(Err(e), quoted) == default_settings(),
        environments_read(Err(e)) == Seq::<(Seq<char>, JsonView)>::empty(),
{
}

// ---- laws of what settings and environments mean -----------------------------------------

/// What each setting means. Certificates are checked and cookies are kept unless a `false` says
/// otherwise, and nothing but a `false` does; the other switches need a `true`, and nothing but a
/// `true` switches them; a time limit and a number of cases are numbers, the latter within its
/// bounds; and a certificate is told by its path.
pub proof fn law_settings_mean(st: Seq<(Seq<char>, JsonView)>, quoted: Option<u64>)
    ensures
        ({
            let s = settings_of(st, quoted);
            &&& !s.verify_ssl <==> lookup(st, "verifySsl"@) == Some(JsonView::Bool(false))
            &&& s.use_custom_ca <==> lookup(st, "useCustomCa"@) == Some(JsonView::Bool(true))
            &&& !s.cookies <==> lookup(st, "cookies"@) == Some(JsonView::Bool(false))
            &&& s.continue_on_assertion_failure <==> lookup(st, "continueOnAssertionFailure"@)
                == Some(JsonView::Bool(true))
            &&& lookup(st, "caCert"@) is None ==> s.ca_cert.len() == 0
            &&& lookup(st, "caCert"@) matches Some(JsonView::Str(p)) ==> s.ca_cert == trim(p)
            &&& lookup(st, "timeoutMs"@) matches Some(JsonView::Number(n)) ==> s.timeout_ms
                == cut_to_u64(n)
            &&& lookup(st, "timeoutMs"@) is None ==> s.timeout_ms == 0
            &&& lookup(st, "timeoutMs"@) is Some && lookup(st, "timeoutMs"@)->0 is Str ==> (
            quoted is Some ==> s.timeout_ms == quoted->0) && (quoted is None ==> s.timeout_ms == 0)
            &&& lookup(st, "concurrency"@) is None ==> s.concurrency == 1
            &&& lookup(st, "concurrency"@) matches Some(JsonView::Number(n)) ==> {
                &&& cut_to_u64(n) < 1 ==> s.concurrency == 1
                &&& 1 <= cut_to_u64(n) <= 64 ==> s.concurrency == cut_to_u64(n)
                &&& cut_to_u64(n) > 64 ==> s.concurrency == 64
            }
        }),
{
    let none = Seq::<char>::empty();
    assert(trim(none).len() == 0);
}

/// The variables of an environment are the members that the configuration has under its name, each
/// as text; an environment that is not there has none.
pub proof fn law_environment_vars(
    top: Seq<(Seq<char>, JsonView)>,
    envs: Seq<(Seq<char>, JsonView)>,
    name: Seq<char>,
    k: Seq<char>,
)
    requires
        lookup(top, "environment"@) == Some(JsonView::Object(envs)),
        distinct(envs),
        lookup(envs, name) matches Some(JsonView::Object(m)) ==> distinct(m),
    ensures
        ({
            let read = environments_read(Ok(JsonView::Object(top)));
            lookup(vars_of(read, name), k) == (match lookup(envs, name) {
                Some(JsonView::Object(m)) => match lookup(m, k) {
                    None => None,
                    Some(v) => Some(field_text(Some(v))),
                },
                _ => None,
            })
        }),
{
    let es = as_environments(envs);
    let read = environments_read(Ok(JsonView::Object(top)));
    assert(distinct(es)) by {
        assert forall|i: int, j: int| 0 <= i < j < es.len() implies (#[trigger] es[i]).0 != (
        #[trigger] es[j]).0 by {
            assert(envs[i].0 != envs[j].0);
        }
    }
    lemma_put_all_distinct(es);
    assert(read == es);
    lemma_key_at(envs, name, 0);
    let i = key_at(envs, name, 0);
    assert forall|j: int| 0 <= j < i implies (#[trigger] es[j]).0 != name by {
        assert(envs[j].0 != name);
    }
    lemma_key_at_is(es, name, 0, i);
    let none = Seq::<(Seq<char>, Seq<char>)>::empty();
    lemma_key_at_is(none, k, 0, 0);
    let no_members = Seq::<(Seq<char>, JsonView)>::empty();
    match lookup(envs, name) {
        Some(JsonView::Object(m)) => {
            let ts = as_texts(m);
            assert(distinct(ts)) by {
                assert forall|a: int, b: int| 0 <= a < b < ts.len() implies (#[trigger] ts[a]).0
                    != (#[trigger] ts[b]).0 by {
                    assert(m[a].0 != m[b].0);
                }
            }
            lemma_put_all_distinct(ts);
            assert(lookup(es, name) == Some(JsonView::Object(ts)));
            let xs = text_entries(ts);
            assert(distinct(xs)) by {
                assert forall|a: int, b: int| 0 <= a < b < xs.len() implies (#[trigger] xs[a]).0
                    != (#[trigger] xs[b]).0 by {
                    assert(ts[a].0 != ts[b].0);
                }
            }
            lemma_put_all_sorted(none, xs, k);
            lemma_key_at(m, k, 0);
            let j = key_at(m, k, 0);
            assert forall|a: int| 0 <= a < j implies (#[trigger] xs[a]).0 != k by {
                assert(m[a].0 != k);
            }
            lemma_key_at_is(xs, k, 0, j);
        },
        Some(v) => {
            assert(as_texts(no_members) =~= no_members);
            assert(lookup(es, name) == Some(JsonView::Object(put_all(as_texts(no_members)))));
            assert(put_all(no_members) == no_members);
            assert(text_entries(no_members) =~= none);
        },
        None => {
            assert(text_entries(no_members) =~= none);
        },
    }
}

/// A time limit that is written as text is handed on without the white space around it; one that is
/// a number, or none, is not.
pub proof fn law_limit_as_text(
    top: Seq<(Seq<char>, JsonView)>,
    st: Seq<(Seq<char>, JsonView)>,
    t: Seq<char>,
    e: Seq<char>,
)
    requires
        lookup(top, "settings"@) == Some(JsonView::Object(st)),
    ensures
        lookup(st, "timeoutMs"@) == Some(JsonView::Str(t)) ==> quoted_limit(
            Ok(JsonView::Object(top)),
        ) == Some(trim(t)),
        lookup(st, "timeoutMs"@) is None || lookup(st, "timeoutMs"@)->0 is Number ==> quoted_limit(
            Ok(JsonView::Object(top)),
        ) is None,
        quoted_limit(Err(e)) is None,
{
}

} // verus!
