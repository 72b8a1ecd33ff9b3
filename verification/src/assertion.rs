//! What is checked of a response, and what is taken from it.
//!
//! Comparison is loose: an expected `200` is met by the number and by the text. Numbers are
//! compared as double-precision values. Which texts are to be read as numbers is decided here;
//! the reading is done by the caller, who gives each number by a key that is ordered as the
//! numbers are.
use crate::json::{
    js_number, js_string, js_text, number_source, parse_json, parsed_json, Json, JsonView,
};
use crate::jsonpath::{get, value_at};
use crate::model::{
    assert_op_name, takes_value, AssertOp, Assertion, AssertionView, StepOutput, StepOutputView,
};
use crate::number::{printed, Number, NumberView};
use crate::report::{AssertRecord, AssertRecordView, KvPair, KvPairView};
use crate::table::{law_put_sorted, lookup, put_sorted, sorted, SortedMap};
use crate::text::{
    after_prefix, blank, chars_of, contains, copy_text, has, is_blank, lemma_views_push, lower,
    occurs_at, opt_view, same, same_ignoring_case, strip_prefix, sub_text, trim, trimmed, views,
};
use vstd::prelude::*;

verus! {

/// What assertions look at in a response.
pub struct RespView<'a> {
    pub status: u16,
    pub headers: &'a [KvPair],
    pub body: &'a str,
}

// ---- targets ---------------------------------------------------------------------------

/// What follows a domain of a target. It ends or goes on with a dot or a bracket: `bodyfoo` is
/// not in the domain `body`.
pub open spec fn domain_rest(rest: Seq<char>, domain: Seq<char>) -> Option<Seq<char>> {
    match after_prefix(rest, domain) {
        Some(a) if a.len() == 0 || a[0] == '.' || a[0] == '[' => Some(a),
        _ => None,
    }
}

/// A text between two of the same quotes.
pub open spec fn unquoted(s: Seq<char>, q: char) -> Option<Seq<char>> {
    if s.len() >= 2 && s[0] == q && s.last() == q {
        Some(s.subrange(1, s.len() - 1))
    } else {
        None
    }
}

/// The header that a target names: `.name`, `['name']` or `["name"]`. After a dot everything is
/// the name.
pub open spec fn header_name(after: Seq<char>) -> Option<Seq<char>> {
    if after.len() > 0 && after[0] == '.' {
        let name = trim(after.skip(1));
        if name.len() > 0 {
            Some(name)
        } else {
            None
        }
    } else if after.len() >= 2 && after[0] == '[' && after.last() == ']' {
        let inner = after.subrange(1, after.len() - 1);
        let name = match unquoted(inner, '\'') {
            Some(n) => Some(n),
            None => unquoted(inner, '"'),
        };
        match name {
            Some(n) if n.len() > 0 => Some(n),
            _ => None,
        }
    } else {
        None
    }
}

/// The value of the first header with a name, whatever its case.
pub open spec fn header_value(hs: Seq<KvPairView>, name: Seq<char>, i: int) -> Option<Seq<char>>
    decreases hs.len() - i,
{
    if i < 0 || i >= hs.len() {
        None
    } else if lower(hs[i].key) == lower(name) {
        Some(hs[i].value)
    } else {
        header_value(hs, name, i + 1)
    }
}

/// The value of a target: `res.status`, `res.headers.<name>` or `res.body<path>`. A body that is
/// no JSON has no paths, but is itself a text. `doc` is the body as JSON.
pub open spec fn actual_value(
    target: Seq<char>,
    status: u16,
    headers: Seq<KvPairView>,
    body: Seq<char>,
    doc: Option<JsonView>,
) -> Option<JsonView> {
    match after_prefix(trim(target), "res."@) {
        None => None,
        Some(rest) => if rest == "status"@ {
            Some(JsonView::Number(NumberView::Int(status as int)))
        } else {
            match domain_rest(rest, "headers"@) {
                Some(after) => match header_name(after) {
                    Some(name) => match header_value(headers, name, 0) {
                        Some(v) => Some(JsonView::Str(v)),
                        None => None,
                    },
                    None => None,
                },
                None => match domain_rest(rest, "body"@) {
                    Some(after) => match doc {
                        Some(root) => value_at(root, after),
                        None => if after.len() == 0 {
                            Some(JsonView::Str(body))
                        } else {
                            None
                        },
                    },
                    None => None,
                },
            }
        },
    }
}

/// Whether a target is written in a way that can name something.
pub open spec fn known_target(target: Seq<char>) -> bool {
    match after_prefix(trim(target), "res."@) {
        None => false,
        Some(rest) => {
            ||| rest == "status"@
            ||| match domain_rest(rest, "headers"@) {
                Some(after) => header_name(after) is Some,
                None => domain_rest(rest, "body"@) is Some,
            }
        },
    }
}

fn rest_of_domain(rest: &str, domain: &str) -> (r: Option<String>)
    ensures
        opt_view(r) == domain_rest(rest@, domain@),
{
    match strip_prefix(rest, domain) {
        Some(a) => {
            let cs: Vec<char> = chars_of(a.as_str());
            if cs.len() == 0 || cs[0] == '.' || cs[0] == '[' {
                Some(a)
            } else {
                None
            }
        },
        None => None,
    }
}

fn without_quotes(cs: &[char], q: char) -> (r: Option<String>)
    ensures
        opt_view(r) == unquoted(cs@, q),
{
    if cs.len() >= 2 && cs[0] == q && cs[cs.len() - 1] == q {
        Some(sub_text(cs, 1, cs.len() - 1))
    } else {
        None
    }
}

fn name_of_header(after: &str) -> (r: Option<String>)
    ensures
        opt_view(r) == header_name(after@),
{
    let cs: Vec<char> = chars_of(after);
    if cs.len() > 0 && cs[0] == '.' {
        let t: String = sub_text(cs.as_slice(), 1, cs.len());
        assert(t@ =~= after@.skip(1));
        if blank(t.as_str()) {
            None
        } else {
            Some(trimmed(t.as_str()))
        }
    } else if cs.len() >= 2 && cs[0] == '[' && cs[cs.len() - 1] == ']' {
        let inner: String = sub_text(cs.as_slice(), 1, cs.len() - 1);
        let ics: Vec<char> = chars_of(inner.as_str());
        let name: Option<String> = match without_quotes(ics.as_slice(), '\'') {
            Some(n) => Some(n),
            None => without_quotes(ics.as_slice(), '"'),
        };
        match name {
            Some(n) => {
                if crate::text::empty(n.as_str()) {
                    None
                } else {
                    Some(n)
                }
            },
            None => None,
        }
    } else {
        None
    }
}

/// The value of the first header with a name, whatever its case.
pub fn find_header<'a>(hs: &'a [KvPair], name: &str) -> (r: Option<&'a str>)
    ensures
        crate::text::opt_text(r) == header_value(views(hs@), name@, 0),
{
    let mut i: usize = 0;
    while i < hs.len()
        invariant
            i <= hs@.len(),
            header_value(views(hs@), name@, 0) == header_value(views(hs@), name@, i as int),
        decreases hs@.len() - i,
    {
        assert(views(hs@)[i as int] == hs@[i as int]@);
        if same_ignoring_case(hs[i].key.as_str(), name) {
            return Some(hs[i].value.as_str());
        }
        i = i + 1;
    }
    None
}

fn actual_for(target: &str, resp: &RespView, doc: &Option<Json>) -> (r: Option<Json>)
    ensures
        opt_view(r) == actual_value(
            target@,
            resp.status,
            views(resp.headers@),
            resp.body@,
            opt_view(*doc),
        ),
{
    let t: String = trimmed(target);
    let rest: String = match strip_prefix(t.as_str(), "res.") {
        Some(rest) => rest,
        None => {
            return None;
        },
    };
    if same(rest.as_str(), "status") {
        let v: Json = Json::Number(Number::PosInt(resp.status as u64));
        return Some(v);
    }
    if let Some(after) = rest_of_domain(rest.as_str(), "headers") {
        return match name_of_header(after.as_str()) {
            Some(name) => {
                match find_header(resp.headers, name.as_str()) {
                    Some(v) => Some(Json::Str(copy_text(v))),
                    None => None,
                }
            },
            None => None,
        };
    }
    if let Some(after) = rest_of_domain(rest.as_str(), "body") {
        return match doc {
            Some(root) => {
                match get(root, after.as_str()) {
                    Some(v) => Some(v.copy()),
                    None => None,
                }
            },
            None => {
                if crate::text::empty(after.as_str()) {
                    Some(Json::Str(copy_text(resp.body)))
                } else {
                    None
                }
            },
        };
    }
    None
}

/// Whether a target is written in a way that can name something.
pub fn is_known_target(target: &str) -> (r: bool)
    ensures
        r == known_target(target@),
{
    let t: String = trimmed(target);
    match strip_prefix(t.as_str(), "res.") {
        Some(rest) => {
            if same(rest.as_str(), "status") {
                return true;
            }
            match rest_of_domain(rest.as_str(), "headers") {
                Some(after) => name_of_header(after.as_str()).is_some(),
                None => rest_of_domain(rest.as_str(), "body").is_some(),
            }
        },
        None => false,
    }
}

/// A target that is not known names nothing in any response.
pub proof fn law_unknown_target(
    target: Seq<char>,
    status: u16,
    headers: Seq<KvPairView>,
    body: Seq<char>,
    doc: Option<JsonView>,
)
    requires
        !known_target(target),
    ensures
        actual_value(target, status, headers, body, doc) is None,
{
}

// ---- comparison ------------------------------------------------------------------------

/// The numbers of an assertion: each a key that is ordered as double-precision numbers are, or
/// nothing if the text is no finite number.
#[derive(Debug, Clone, Copy, PartialEq, Eq, Structural)]
pub struct NumKeys {
    pub actual: Option<i64>,
    pub expected: Option<i64>,
}

/// Whether `regex::Regex` accepts a pattern and finds it in a text.
pub uninterp spec fn regex_matches(pattern: Seq<char>, text: Seq<char>) -> bool;

/// `regex::Regex::new` and `Regex::is_match`: whether the pattern is valid and matches somewhere
/// in the text. The result depends on the pattern and the text alone.
#[verifier::external_body]
fn pattern_matches(pattern: &str, text: &str) -> (r: bool)
    ensures
        r == regex_matches(pattern@, text@),
{
    regex::Regex::new(pattern).map(|re| re.is_match(text)).unwrap_or(false)
}

/// Whether a value is there and not null.
pub open spec fn present(actual: Option<JsonView>) -> bool {
    actual is Some && !(actual->0 is Null)
}

/// Whether a value equals an expected text: as a text, or as a number.
pub open spec fn loosely_equal(actual: Option<JsonView>, value: Seq<char>, k: NumKeys) -> bool {
    present(actual) && (js_text(actual->0) == value || (k.actual is Some && k.expected is Some
        && k.actual->0 == k.expected->0))
}

/// Whether an assertion holds.
pub open spec fn holds(actual: Option<JsonView>, op: AssertOp, value: Seq<char>, k: NumKeys) -> bool {
    match op {
        AssertOp::Exists => present(actual),
        AssertOp::NotExists => !present(actual),
        AssertOp::Eq => loosely_equal(actual, value, k),
        AssertOp::Ne => !loosely_equal(actual, value, k),
        AssertOp::Contains => present(actual) && contains(js_text(actual->0), value),
        AssertOp::Gt => actual is Some && k.actual is Some && k.expected is Some && k.actual->0
            > k.expected->0,
        AssertOp::Lt => actual is Some && k.actual is Some && k.expected is Some && k.actual->0
            < k.expected->0,
        AssertOp::Matches => actual is Some && regex_matches(value, js_text(actual->0)),
    }
}

/// Each operator and its counterpart exclude each other.
pub proof fn law_opposites(actual: Option<JsonView>, value: Seq<char>, k: NumKeys)
    ensures
        holds(actual, AssertOp::Exists, value, k) != holds(actual, AssertOp::NotExists, value, k),
        holds(actual, AssertOp::Eq, value, k) != holds(actual, AssertOp::Ne, value, k),
        !(holds(actual, AssertOp::Gt, value, k) && holds(actual, AssertOp::Lt, value, k)),
{
}

/// Comparison is loose: a value equals the text that it is written as, whether it is a number or
/// a text, and a number equals every text of the same number.
pub proof fn law_loose_equality(v: JsonView, value: Seq<char>, k: NumKeys)
    requires
        !(v is Null),
    ensures
        holds(Some(v), AssertOp::Eq, js_text(v), k),
        holds(Some(JsonView::Str(js_text(v))), AssertOp::Eq, js_text(v), k),
        k.actual is Some && k.actual == k.expected ==> holds(Some(v), AssertOp::Eq, value, k),
{
}

/// Whether an assertion holds of a value.
pub fn satisfies(actual: &Option<Json>, op: AssertOp, value: &str, k: NumKeys) -> (r: bool)
    ensures
        r == holds(opt_view(*actual), op, value@, k),
{
    match op {
        AssertOp::Exists => is_present(actual),
        AssertOp::NotExists => !is_present(actual),
        AssertOp::Eq => loose_eq(actual, value, k),
        AssertOp::Ne => !loose_eq(actual, value, k),
        AssertOp::Contains => match actual {
            Some(v) => {
                if v.is_null() {
                    false
                } else {
                    let t: String = js_string(v);
                    has(t.as_str(), value)
                }
            },
            None => false,
        },
        AssertOp::Gt => match (actual, k.actual, k.expected) {
            (Some(_), Some(a), Some(b)) => a > b,
            _ => false,
        },
        AssertOp::Lt => match (actual, k.actual, k.expected) {
            (Some(_), Some(a), Some(b)) => a < b,
            _ => false,
        },
        AssertOp::Matches => match actual {
            Some(v) => {
                let t: String = js_string(v);
                pattern_matches(value, t.as_str())
            },
            None => false,
        },
    }
}

fn is_present(actual: &Option<Json>) -> (r: bool)
    ensures
        r == present(opt_view(*actual)),
{
    match actual {
        Some(v) => !v.is_null(),
        None => false,
    }
}

fn loose_eq(actual: &Option<Json>, value: &str, k: NumKeys) -> (r: bool)
    ensures
        r == loosely_equal(opt_view(*actual), value@, k),
{
    match actual {
        Some(v) => {
            if v.is_null() {
                return false;
            }
            let t: String = js_string(v);
            if same(t.as_str(), value) {
                return true;
            }
            match (k.actual, k.expected) {
                (Some(a), Some(b)) => a == b,
                _ => false,
            }
        },
        None => false,
    }
}

// ---- evaluation ------------------------------------------------------------------------

/// The texts of an assertion that are to be read as numbers.
#[derive(Debug, Clone, PartialEq)]
pub struct NumTexts {
    pub actual: Option<String>,
    pub expected: String,
}

/// What a `NumTexts` stands for.
pub struct NumTextsView {
    pub actual: Option<Seq<char>>,
    pub expected: Seq<char>,
}

impl View for NumTexts {
    type V = NumTextsView;

    open spec fn view(&self) -> NumTextsView {
        NumTextsView { actual: opt_view(self.actual), expected: self.expected@ }
    }
}

/// The expected value of an assertion.
pub open spec fn expected_text(a: AssertionView) -> Seq<char> {
    match a.value {
        Some(v) => v,
        None => seq![],
    }
}

/// The texts of an assertion that are to be read as numbers.
pub open spec fn num_texts(
    a: AssertionView,
    status: u16,
    headers: Seq<KvPairView>,
    body: Seq<char>,
    doc: Option<JsonView>,
) -> NumTextsView {
    NumTextsView {
        actual: match actual_value(a.target, status, headers, body, doc) {
            Some(v) => number_source(v),
            None => None,
        },
        expected: expected_text(a),
    }
}

/// The texts that are to be read as numbers, for each assertion that has a target.
pub open spec fn all_num_texts_in(
    list: Seq<AssertionView>,
    status: u16,
    headers: Seq<KvPairView>,
    body: Seq<char>,
    doc: Option<JsonView>,
) -> Seq<NumTextsView>
    decreases list.len(),
{
    if list.len() == 0 {
        seq![]
    } else if is_blank(list.last().target) {
        all_num_texts_in(list.drop_last(), status, headers, body, doc)
    } else {
        all_num_texts_in(list.drop_last(), status, headers, body, doc).push(
            num_texts(list.last(), status, headers, body, doc),
        )
    }
}

/// The numbers of the `n`-th assertion that has a target; those that are not given are none.
pub open spec fn keys_of(keys: Seq<NumKeys>, n: nat) -> NumKeys {
    if n < keys.len() {
        keys[n as int]
    } else {
        NumKeys { actual: None, expected: None }
    }
}

/// The record of an assertion.
pub open spec fn record_of(
    a: AssertionView,
    status: u16,
    headers: Seq<KvPairView>,
    body: Seq<char>,
    doc: Option<JsonView>,
    k: NumKeys,
) -> AssertRecordView {
    let actual = actual_value(a.target, status, headers, body, doc);
    AssertRecordView {
        target: trim(a.target),
        op: assert_op_name(a.op),
        expected: if takes_value(a.op) {
            expected_text(a)
        } else {
            "—"@
        },
        actual: match actual {
            Some(v) => js_text(v),
            None => "∅"@,
        },
        ok: holds(actual, a.op, expected_text(a), k),
    }
}

/// The records of the assertions that have a target, in their order.
pub open spec fn records_in(
    list: Seq<AssertionView>,
    status: u16,
    headers: Seq<KvPairView>,
    body: Seq<char>,
    doc: Option<JsonView>,
    keys: Seq<NumKeys>,
) -> Seq<AssertRecordView>
    decreases list.len(),
{
    if list.len() == 0 {
        seq![]
    } else {
        let before = records_in(list.drop_last(), status, headers, body, doc, keys);
        if is_blank(list.last().target) {
            before
        } else {
            before.push(
                record_of(list.last(), status, headers, body, doc, keys_of(keys, before.len())),
            )
        }
    }
}

/// There is a record for exactly each assertion whose numbers are asked for.
pub proof fn law_one_record_per_number_pair(
    list: Seq<AssertionView>,
    status: u16,
    headers: Seq<KvPairView>,
    body: Seq<char>,
    doc: Option<JsonView>,
    keys: Seq<NumKeys>,
)
    ensures
        records_in(list, status, headers, body, doc, keys).len() == all_num_texts_in(
            list,
            status,
            headers,
            body,
            doc,
        ).len(),
        records_in(list, status, headers, body, doc, keys).len() <= list.len(),
    decreases list.len(),
{
    if list.len() > 0 {
        law_one_record_per_number_pair(list.drop_last(), status, headers, body, doc, keys);
    }
}

fn expected_of(a: &Assertion) -> (r: String)
    ensures
        r@ == expected_text(a@),
{
    match &a.value {
        Some(v) => copy_text(v.as_str()),
        None => {
            let none: String = String::new();
            assert(none@ =~= seq![]);
            none
        },
    }
}

/// The texts that are to be read as numbers, for each assertion that has a target. `doc` is the
/// body as JSON.
pub fn number_texts_in(list: &[Assertion], resp: &RespView, doc: &Option<Json>) -> (r: Vec<NumTexts>)
    ensures
        views(r@) == all_num_texts_in(
            views(list@),
            resp.status,
            views(resp.headers@),
            resp.body@,
            opt_view(*doc),
        ),
{
    let ghost v = views(list@);
    let mut out: Vec<NumTexts> = Vec::new();
    let mut i: usize = 0;
    assert(v.take(0) =~= seq![]);
    assert(views(out@) =~= seq![]);
    while i < list.len()
        invariant
            i <= list@.len(),
            v == views(list@),
            views(out@) == all_num_texts_in(
                v.take(i as int),
                resp.status,
                views(resp.headers@),
                resp.body@,
                opt_view(*doc),
            ),
        decreases list@.len() - i,
    {
        proof {
            assert(v.take(i + 1).drop_last() =~= v.take(i as int));
            assert(v.take(i + 1).last() == list@[i as int]@);
        }
        let a: &Assertion = &list[i];
        if !blank(a.target.as_str()) {
            let actual: Option<Json> = actual_for(a.target.as_str(), resp, doc);
            let source: Option<String> = match &actual {
                Some(x) => js_number(x),
                None => None,
            };
            let t: NumTexts = NumTexts { actual: source, expected: expected_of(a) };
            proof {
                lemma_views_push(out@, t);
            }
            out.push(t);
        }
        i = i + 1;
    }
    assert(v.take(v.len() as int) =~= v);
    out
}

/// The texts that are to be read as numbers, of a response as it came.
pub open spec fn all_num_texts(
    list: Seq<AssertionView>,
    status: u16,
    headers: Seq<KvPairView>,
    body: Seq<char>,
) -> Seq<NumTextsView> {
    all_num_texts_in(list, status, headers, body, parsed_json(body))
}

/// The texts that are to be read as numbers, for each assertion that has a target.
pub fn number_texts(list: &[Assertion], resp: &RespView) -> (r: Vec<NumTexts>)
    ensures
        views(r@) == all_num_texts(
            views(list@),
            resp.status,
            views(resp.headers@),
            resp.body@,
        ),
{
    number_texts_in(list, resp, &parse_json(resp.body))
}

/// Evaluates assertions on a response. `doc` is its body as JSON, and `keys` holds the numbers
/// of the texts that `number_texts_in` gives.
pub fn eval_assertions_in(
    list: &[Assertion],
    resp: &RespView,
    doc: &Option<Json>,
    keys: &[NumKeys],
) -> (r: Vec<AssertRecord>)
    ensures
        views(r@) == records_in(
            views(list@),
            resp.status,
            views(resp.headers@),
            resp.body@,
            opt_view(*doc),
            keys@,
        ),
{
    let ghost v = views(list@);
    let mut out: Vec<AssertRecord> = Vec::new();
    let mut i: usize = 0;
    assert(v.take(0) =~= seq![]);
    assert(views(out@) =~= seq![]);
    while i < list.len()
        invariant
            i <= list@.len(),
            v == views(list@),
            views(out@) == records_in(
                v.take(i as int),
                resp.status,
                views(resp.headers@),
                resp.body@,
                opt_view(*doc),
                keys@,
            ),
        decreases list@.len() - i,
    {
        proof {
            assert(v.take(i + 1).drop_last() =~= v.take(i as int));
            assert(v.take(i + 1).last() == list@[i as int]@);
        }
        let a: &Assertion = &list[i];
        if !blank(a.target.as_str()) {
            let actual: Option<Json> = actual_for(a.target.as_str(), resp, doc);
            let expected: String = expected_of(a);
            let k: NumKeys = if out.len() < keys.len() {
                keys[out.len()]
            } else {
                NumKeys { actual: None, expected: None }
            };
            let ok: bool = satisfies(&actual, a.op, expected.as_str(), k);
            let shown: String = match &actual {
                Some(x) => js_string(x),
                None => copy_text("∅"),
            };
            let record: AssertRecord = AssertRecord {
                target: trimmed(a.target.as_str()),
                op: copy_text(a.op.as_str()),
                expected: if a.op.needs_value() {
                    expected
                } else {
                    copy_text("—")
                },
                actual: shown,
                ok,
            };
            proof {
                lemma_views_push(out@, record);
            }
            out.push(record);
        }
        i = i + 1;
    }
    assert(v.take(v.len() as int) =~= v);
    out
}

/// The records of the assertions on a response as it came.
pub open spec fn records_of(
    list: Seq<AssertionView>,
    status: u16,
    headers: Seq<KvPairView>,
    body: Seq<char>,
    keys: Seq<NumKeys>,
) -> Seq<AssertRecordView> {
    records_in(list, status, headers, body, parsed_json(body), keys)
}

/// Evaluates assertions on a response. `keys` holds the numbers of the texts that
/// `number_texts` gives.
pub fn eval_assertions(list: &[Assertion], resp: &RespView, keys: &[NumKeys]) -> (r: Vec<
    AssertRecord,
>)
    ensures
        views(r@) == records_of(
            views(list@),
            resp.status,
            views(resp.headers@),
            resp.body@,
            keys@,
        ),
{
    eval_assertions_in(list, resp, &parse_json(resp.body), keys)
}

// ---- outputs ---------------------------------------------------------------------------

/// The value of an output: what its path leads to, or null.
pub open spec fn output_value(path: Seq<char>, doc: Option<JsonView>) -> JsonView {
    match doc {
        Some(root) => match value_at(root, path) {
            Some(v) => v,
            None => JsonView::Null,
        },
        None => JsonView::Null,
    }
}

/// The outputs of a step by name. An output that is not found is null, but it is there.
pub open spec fn outputs_in(outs: Seq<StepOutputView>, doc: Option<JsonView>) -> Seq<
    (Seq<char>, JsonView),
>
    decreases outs.len(),
{
    if outs.len() == 0 {
        seq![]
    } else if is_blank(outs.last().name) {
        outputs_in(outs.drop_last(), doc)
    } else {
        put_sorted(
            outputs_in(outs.drop_last(), doc),
            trim(outs.last().name),
            output_value(outs.last().path, doc),
        )
    }
}

/// Takes the outputs of a step from the body of its response, as JSON.
pub fn extract_outputs_in(outputs: &[StepOutput], doc: &Option<Json>) -> (r: SortedMap<Json>)
    ensures
        r@ == outputs_in(views(outputs@), opt_view(*doc)),
{
    let ghost v = views(outputs@);
    let mut out: SortedMap<Json> = SortedMap::new();
    let mut i: usize = 0;
    assert(v.take(0) =~= seq![]);
    while i < outputs.len()
        invariant
            i <= outputs@.len(),
            v == views(outputs@),
            out@ == outputs_in(v.take(i as int), opt_view(*doc)),
        decreases outputs@.len() - i,
    {
        proof {
            assert(v.take(i + 1).drop_last() =~= v.take(i as int));
            assert(v.take(i + 1).last() == outputs@[i as int]@);
        }
        let o: &StepOutput = &outputs[i];
        if !blank(o.name.as_str()) {
            let value: Json = match doc {
                Some(root) => match get(root, o.path.as_str()) {
                    Some(x) => x.copy(),
                    None => Json::Null,
                },
                None => Json::Null,
            };
            out.insert(trimmed(o.name.as_str()), value);
        }
        i = i + 1;
    }
    assert(v.take(v.len() as int) =~= v);
    out
}

/// Takes the outputs of a step from the body of its response.
pub fn extract_outputs(outputs: &[StepOutput], body: &str) -> (r: SortedMap<Json>)
    ensures
        r@ == outputs_in(views(outputs@), parsed_json(body@)),
{
    extract_outputs_in(outputs, &parse_json(body))
}

/// The value of an output of a step: what a target names, as in an assertion, or else what a
/// path into the body leads to; null if there is nothing.
pub open spec fn taken_value(
    path: Seq<char>,
    status: u16,
    headers: Seq<KvPairView>,
    body: Seq<char>,
    doc: Option<JsonView>,
) -> JsonView {
    if known_target(path) {
        match actual_value(path, status, headers, body, doc) {
            Some(v) => v,
            None => JsonView::Null,
        }
    } else {
        output_value(path, doc)
    }
}

/// The outputs of a step by name, taken from the whole response.
pub open spec fn taken_outputs_in(
    outs: Seq<StepOutputView>,
    status: u16,
    headers: Seq<KvPairView>,
    body: Seq<char>,
    doc: Option<JsonView>,
) -> Seq<(Seq<char>, JsonView)>
    decreases outs.len(),
{
    if outs.len() == 0 {
        seq![]
    } else if is_blank(outs.last().name) {
        taken_outputs_in(outs.drop_last(), status, headers, body, doc)
    } else {
        put_sorted(
            taken_outputs_in(outs.drop_last(), status, headers, body, doc),
            trim(outs.last().name),
            taken_value(outs.last().path, status, headers, body, doc),
        )
    }
}

proof fn lemma_outputs_sorted(
    outs: Seq<StepOutputView>,
    status: u16,
    headers: Seq<KvPairView>,
    body: Seq<char>,
    doc: Option<JsonView>,
)
    ensures
        sorted(taken_outputs_in(outs, status, headers, body, doc)),
    decreases outs.len(),
{
    if outs.len() > 0 {
        lemma_outputs_sorted(outs.drop_last(), status, headers, body, doc);
        if !is_blank(outs.last().name) {
            let n = trim(outs.last().name);
            law_put_sorted(
                taken_outputs_in(outs.drop_last(), status, headers, body, doc),
                n,
                taken_value(outs.last().path, status, headers, body, doc),
                n,
            );
        }
    }
}

/// Every output that has a name is there, found or not; a later step sees null rather than a
/// variable that does not exist. Of outputs with one name the last counts.
pub proof fn law_outputs_present(
    outs: Seq<StepOutputView>,
    status: u16,
    headers: Seq<KvPairView>,
    body: Seq<char>,
    doc: Option<JsonView>,
    i: int,
)
    requires
        0 <= i < outs.len(),
        !is_blank(outs[i].name),
        forall|j: int|
            i < j < outs.len() ==> is_blank(outs[j].name) || trim((#[trigger] outs[j]).name) != trim(
                outs[i].name,
            ),
    ensures
        lookup(taken_outputs_in(outs, status, headers, body, doc), trim(outs[i].name)) == Some(
            taken_value(outs[i].path, status, headers, body, doc),
        ),
    decreases outs.len(),
{
    let d = outs.drop_last();
    lemma_outputs_sorted(d, status, headers, body, doc);
    if i < d.len() {
        assert forall|j: int| i < j < d.len() implies is_blank(d[j].name) || trim(
            (#[trigger] d[j]).name,
        ) != trim(d[i].name) by {
            assert(d[j] == outs[j]);
        }
        law_outputs_present(d, status, headers, body, doc, i);
    }
    if !is_blank(outs.last().name) {
        assert(outs[outs.len() - 1] == outs.last());
        law_put_sorted(
            taken_outputs_in(d, status, headers, body, doc),
            trim(outs.last().name),
            taken_value(outs.last().path, status, headers, body, doc),
            trim(outs[i].name),
        );
    }
}

/// Takes the outputs of a step from its response. `doc` is the body as JSON.
pub fn take_outputs_in(outputs: &[StepOutput], resp: &RespView, doc: &Option<Json>) -> (r: SortedMap<
    Json,
>)
    ensures
        r@ == taken_outputs_in(
            views(outputs@),
            resp.status,
            views(resp.headers@),
            resp.body@,
            opt_view(*doc),
        ),
{
    let ghost v = views(outputs@);
    let mut out: SortedMap<Json> = SortedMap::new();
    let mut i: usize = 0;
    assert(v.take(0) =~= seq![]);
    while i < outputs.len()
        invariant
            i <= outputs@.len(),
            v == views(outputs@),
            out@ == taken_outputs_in(
                v.take(i as int),
                resp.status,
                views(resp.headers@),
                resp.body@,
                opt_view(*doc),
            ),
        decreases outputs@.len() - i,
    {
        proof {
            assert(v.take(i + 1).drop_last() =~= v.take(i as int));
            assert(v.take(i + 1).last() == outputs@[i as int]@);
        }
        let o: &StepOutput = &outputs[i];
        if !blank(o.name.as_str()) {
            let found: Option<Json> = if is_known_target(o.path.as_str()) {
                actual_for(o.path.as_str(), resp, doc)
            } else {
                match doc {
                    Some(root) => match get(root, o.path.as_str()) {
                        Some(x) => Some(x.copy()),
                        None => None,
                    },
                    None => None,
                }
            };
            let value: Json = match found {
                Some(x) => x,
                None => Json::Null,
            };
            out.insert(trimmed(o.name.as_str()), value);
        }
        i = i + 1;
    }
    assert(v.take(v.len() as int) =~= v);
    out
}

/// The outputs of a step by name, taken from a response as it came.
pub open spec fn taken_outputs(
    outs: Seq<StepOutputView>,
    status: u16,
    headers: Seq<KvPairView>,
    body: Seq<char>,
) -> Seq<(Seq<char>, JsonView)> {
    taken_outputs_in(outs, status, headers, body, parsed_json(body))
}

/// Takes the outputs of a step from its response.
pub fn take_outputs(outputs: &[StepOutput], resp: &RespView) -> (r: SortedMap<Json>)
    ensures
        r@ == taken_outputs(
            views(outputs@),
            resp.status,
            views(resp.headers@),
            resp.body@,
        ),
{
    take_outputs_in(outputs, resp, &parse_json(resp.body))
}

// ---- what assertions look at, and what they decide ----------------------------------------

proof fn lemma_after(p: Seq<char>, rest: Seq<char>)
    ensures
        after_prefix(p + rest, p) == Some(rest),
{
    assert((p + rest).subrange(0, p.len() as int) =~= p);
    assert((p + rest).skip(p.len() as int) =~= rest);
}

proof fn lemma_not_after(s: Seq<char>, p: Seq<char>)
    requires
        p.len() > 0,
        s.len() == 0 || s[0] != p[0],
    ensures
        after_prefix(s, p) is None,
{
    if s.len() >= p.len() {
        assert(s.subrange(0, p.len() as int)[0] == s[0]);
    }
}

proof fn lemma_first_header(hs: Seq<KvPairView>, name: Seq<char>, i: int, j: int)
    requires
        0 <= i <= j <= hs.len(),
        forall|m: int| i <= m < j ==> lower((#[trigger] hs[m]).key) != lower(name),
        j < hs.len() ==> lower(hs[j].key) == lower(name),
    ensures
        header_value(hs, name, i) == (if j < hs.len() {
            Some(hs[j].value)
        } else {
            None
        }),
    decreases j - i,
{
    if i < j {
        assert(lower(hs[i].key) != lower(name));
        lemma_first_header(hs, name, i + 1, j);
    }
}

/// `res.status` is the status of the response, as a number; white space around a target is
/// nothing.
pub proof fn law_status_target(
    target: Seq<char>,
    status: u16,
    headers: Seq<KvPairView>,
    body: Seq<char>,
    doc: Option<JsonView>,
)
    requires
        trim(target) == "res.status"@,
    ensures
        actual_value(target, status, headers, body, doc) == Some(
            JsonView::Number(NumberView::Int(status as int)),
        ),
        taken_value(target, status, headers, body, doc) == JsonView::Number(
            NumberView::Int(status as int),
        ),
{
    reveal_strlit("res.status");
    reveal_strlit("res.");
    reveal_strlit("status");
    assert("res.status"@ =~= "res."@ + "status"@);
    lemma_after("res."@, "status"@);
}

/// Whether a target names a header: after a dot, or in brackets and quotes.
pub open spec fn names_header(target: Seq<char>, name: Seq<char>) -> bool {
    &&& name.len() > 0
    &&& {
        ||| trim(target) == "res.headers."@ + name && trim(name) == name
        ||| trim(target) == "res.headers['"@ + name + "']"@
        ||| trim(target) == "res.headers[\""@ + name + "\"]"@
    }
}

proof fn lemma_header_target(target: Seq<char>, name: Seq<char>)
    requires
        names_header(target, name),
    ensures
        match after_prefix(trim(target), "res."@) {
            None => false,
            Some(rest) => rest != "status"@ && (match domain_rest(rest, "headers"@) {
                None => false,
                Some(after) => header_name(after) == Some(name),
            }),
        },
{
    reveal_strlit("res.");
    reveal_strlit("status");
    reveal_strlit("headers");
    reveal_strlit("res.headers.");
    reveal_strlit("res.headers['");
    reveal_strlit("']");
    reveal_strlit("res.headers[\"");
    reveal_strlit("\"]");
    let t = trim(target);
    let after = t.skip(11);
    assert(t =~= "res."@ + ("headers"@ + after));
    lemma_after("res."@, "headers"@ + after);
    lemma_after("headers"@, after);
    let rest = "headers"@ + after;
    assert(rest[0] == 'h');
    if t == "res.headers."@ + name {
        assert(after[0] == '.');
        assert(after.skip(1) =~= name);
    }
    if t == "res.headers['"@ + name + "']"@ {
        assert(after[0] == '[' && after.last() == ']');
        let inner = after.subrange(1, after.len() - 1);
        assert(inner[0] == '\'' && inner.last() == '\'');
        assert(inner.subrange(1, inner.len() - 1) =~= name);
    }
    if t == "res.headers[\""@ + name + "\"]"@ {
        assert(after[0] == '[' && after.last() == ']');
        let inner = after.subrange(1, after.len() - 1);
        assert(inner[0] == '"' && inner.last() == '"');
        assert(inner.subrange(1, inner.len() - 1) =~= name);
    }
}

/// A header target is the value of the first header of that name, whatever the case of either,
/// and there is no value if no header has the name.
pub proof fn law_header_target(
    target: Seq<char>,
    name: Seq<char>,
    status: u16,
    headers: Seq<KvPairView>,
    body: Seq<char>,
    doc: Option<JsonView>,
    i: int,
)
    requires
        names_header(target, name),
        0 <= i <= headers.len(),
        forall|m: int| 0 <= m < i ==> lower((#[trigger] headers[m]).key) != lower(name),
        i < headers.len() ==> lower(headers[i].key) == lower(name),
    ensures
        i < headers.len() ==> actual_value(target, status, headers, body, doc) == Some(
            JsonView::Str(headers[i].value),
        ) && taken_value(target, status, headers, body, doc) == JsonView::Str(headers[i].value),
        i == headers.len() ==> actual_value(target, status, headers, body, doc) is None
            && taken_value(target, status, headers, body, doc) is Null,
{
    lemma_header_target(target, name);
    lemma_first_header(headers, name, 0, i);
}

/// `res.body` is the body: the value that its path leads to if the body is JSON; otherwise the
/// whole text, into which no path leads.
pub proof fn law_body_target(
    target: Seq<char>,
    path: Seq<char>,
    status: u16,
    headers: Seq<KvPairView>,
    body: Seq<char>,
    doc: Option<JsonView>,
)
    requires
        trim(target) == "res.body"@ + path,
        path.len() > 0 ==> path[0] == '.' || path[0] == '[',
    ensures
        match doc {
            Some(root) => {
                &&& actual_value(target, status, headers, body, doc) == value_at(root, path)
                &&& taken_value(target, status, headers, body, doc) == (match value_at(root, path) {
                    Some(v) => v,
                    None => JsonView::Null,
                })
            },
            None => if path.len() == 0 {
                &&& actual_value(target, status, headers, body, doc) == Some(JsonView::Str(body))
                &&& taken_value(target, status, headers, body, doc) == JsonView::Str(body)
            } else {
                &&& actual_value(target, status, headers, body, doc) is None
                &&& taken_value(target, status, headers, body, doc) is Null
            },
        },
{
    reveal_strlit("res.body");
    reveal_strlit("res.");
    reveal_strlit("body");
    reveal_strlit("headers");
    reveal_strlit("status");
    assert("res.body"@ + path =~= "res."@ + ("body"@ + path));
    lemma_after("res."@, "body"@ + path);
    lemma_after("body"@, path);
    assert(("body"@ + path)[0] == 'b');
    lemma_not_after("body"@ + path, "headers"@);
}

/// A path that is no target is a path into the body: an output without `res.` before it is what
/// it leads to in a JSON body, and null where it leads nowhere or the body is not JSON.
pub proof fn law_plain_output(
    path: Seq<char>,
    status: u16,
    headers: Seq<KvPairView>,
    body: Seq<char>,
    doc: Option<JsonView>,
)
    requires
        after_prefix(trim(path), "res."@) is None,
    ensures
        match doc {
            Some(root) => match value_at(root, path) {
                Some(v) => taken_value(path, status, headers, body, doc) == v,
                None => taken_value(path, status, headers, body, doc) is Null,
            },
            None => taken_value(path, status, headers, body, doc) is Null,
        },
{
}

/// Numbers are ordered. Of a value that is there and a number that is expected exactly one is
/// true: it is greater, it is less, or the two numbers are equal. To be greater is to be less
/// the other way round; and nothing is greater or less where either is no number, or nothing is
/// there.
pub proof fn law_ordered(v: JsonView, value: Seq<char>, w: JsonView, other: Seq<char>, a: i64, b: i64)
    ensures
        ({
            let k = NumKeys { actual: Some(a), expected: Some(b) };
            let swapped = NumKeys { actual: Some(b), expected: Some(a) };
            &&& a > b ==> holds(Some(v), AssertOp::Gt, value, k)
            &&& a < b ==> holds(Some(v), AssertOp::Lt, value, k)
            &&& holds(Some(v), AssertOp::Gt, value, k) ==> a != b && !holds(
                Some(v),
                AssertOp::Lt,
                value,
                k,
            )
            &&& holds(Some(v), AssertOp::Lt, value, k) ==> a != b
            &&& holds(Some(v), AssertOp::Gt, value, k) || holds(Some(v), AssertOp::Lt, value, k) || a
                == b
            &&& holds(Some(v), AssertOp::Gt, value, k) == holds(
                Some(w),
                AssertOp::Lt,
                other,
                swapped,
            )
            &&& !(v is Null) && a == b ==> holds(Some(v), AssertOp::Eq, value, k)
            &&& !holds(None, AssertOp::Gt, value, k) && !holds(None, AssertOp::Lt, value, k)
        }),
        forall|k: NumKeys|
            (k.actual is None || k.expected is None) ==> !(#[trigger] holds(
                Some(v),
                AssertOp::Gt,
                value,
                k,
            )) && !holds(Some(v), AssertOp::Lt, value, k),
{
}

/// A value is there if there is one and it is not null. What is not there equals nothing, holds
/// nothing and differs from everything.
pub proof fn law_presence(v: JsonView, value: Seq<char>, k: NumKeys)
    requires
        !(v is Null),
    ensures
        holds(Some(v), AssertOp::Exists, value, k),
        !holds(Some(JsonView::Null), AssertOp::Exists, value, k),
        !holds(None, AssertOp::Exists, value, k),
        !holds(Some(JsonView::Null), AssertOp::Eq, value, k),
        !holds(None, AssertOp::Eq, value, k),
        !holds(Some(JsonView::Null), AssertOp::Contains, value, k),
        !holds(None, AssertOp::Contains, value, k),
        !holds(None, AssertOp::Matches, value, k),
{
}

/// Equality goes no further than the text and the number: a value that is written otherwise than
/// expected, and is not the same number, is not equal.
pub proof fn law_unequal(v: JsonView, value: Seq<char>, k: NumKeys)
    requires
        js_text(v) != value,
        k.actual is None || k.expected is None || k.actual->0 != k.expected->0,
    ensures
        !holds(Some(v), AssertOp::Eq, value, k),
        holds(Some(v), AssertOp::Ne, value, k),
{
}

/// A value contains what stands anywhere in its text, and nothing else.
pub proof fn law_contains(v: JsonView, before: Seq<char>, value: Seq<char>, after: Seq<char>, k: NumKeys)
    requires
        !(v is Null),
    ensures
        js_text(v) == before + value + after ==> holds(Some(v), AssertOp::Contains, value, k),
        holds(Some(v), AssertOp::Contains, value, k) ==> exists|i: int|
            0 <= i && i + value.len() <= js_text(v).len() && #[trigger] js_text(v).subrange(
                i,
                i + value.len(),
            ) == value,
{
    let t = js_text(v);
    if t == before + value + after {
        let i = before.len() as int;
        assert(t.subrange(i, i + value.len()) =~= value);
        assert(occurs_at(t, value, i));
    }
    if contains(t, value) {
        let i = choose|i: int| occurs_at(t, value, i);
        assert(t.subrange(i, i + value.len()) == value);
    }
}

/// A pattern is the expected text, and it is matched against the text of the value.
pub proof fn law_matches(v: JsonView, value: Seq<char>, k: NumKeys)
    ensures
        holds(Some(v), AssertOp::Matches, value, k) == regex_matches(value, js_text(v)),
{
}

/// One assertion more is one record more, at the end, unless its target is blank; the records of
/// the others do not change. The record tells the target, the operator, what was expected and
/// what was found, and whether the operator holds of what was found and expected, by the numbers
/// in the place of the record.
pub proof fn law_one_more_record(
    list: Seq<AssertionView>,
    a: AssertionView,
    status: u16,
    headers: Seq<KvPairView>,
    body: Seq<char>,
    doc: Option<JsonView>,
    keys: Seq<NumKeys>,
)
    ensures
        records_in(seq![], status, headers, body, doc, keys).len() == 0,
        is_blank(a.target) ==> records_in(list.push(a), status, headers, body, doc, keys)
            == records_in(list, status, headers, body, doc, keys),
        !is_blank(a.target) ==> ({
            let before = records_in(list, status, headers, body, doc, keys);
            let all = records_in(list.push(a), status, headers, body, doc, keys);
            let found = actual_value(a.target, status, headers, body, doc);
            let r = all.last();
            let n = before.len() as int;
            &&& all.len() == n + 1
            &&& all.take(n) == before
            &&& r.target == trim(a.target)
            &&& r.op == assert_op_name(a.op)
            &&& r.expected == (if a.op is Exists || a.op is NotExists {
                "—"@
            } else {
                match a.value {
                    Some(t) => t,
                    None => seq![],
                }
            })
            &&& r.actual == (match found {
                Some(v) => js_text(v),
                None => "∅"@,
            })
            &&& r.ok == holds(
                found,
                a.op,
                match a.value {
                    Some(t) => t,
                    None => seq![],
                },
                if n < keys.len() {
                    keys[n]
                } else {
                    NumKeys { actual: None, expected: None }
                },
            )
        }),
{
    assert(list.push(a).drop_last() =~= list);
    let before = records_in(list, status, headers, body, doc, keys);
    if !is_blank(a.target) {
        let all = records_in(list.push(a), status, headers, body, doc, keys);
        assert(all.take(before.len() as int) =~= before);
    }
}

/// One assertion more is one pair of texts more to read as numbers, at the end, unless its target
/// is blank: that of what was found, if it can be read as a number at all, and that of what was
/// expected.
pub proof fn law_one_more_number_pair(
    list: Seq<AssertionView>,
    a: AssertionView,
    status: u16,
    headers: Seq<KvPairView>,
    body: Seq<char>,
    doc: Option<JsonView>,
)
    ensures
        all_num_texts_in(seq![], status, headers, body, doc).len() == 0,
        is_blank(a.target) ==> all_num_texts_in(list.push(a), status, headers, body, doc)
            == all_num_texts_in(list, status, headers, body, doc),
        !is_blank(a.target) ==> all_num_texts_in(list.push(a), status, headers, body, doc)
            == all_num_texts_in(list, status, headers, body, doc).push(
            NumTextsView {
                actual: match actual_value(a.target, status, headers, body, doc) {
                    Some(JsonView::Null) => Some(seq![]),
                    Some(JsonView::Bool(b)) => Some(
                        if b {
                            "1"@
                        } else {
                            "0"@
                        },
                    ),
                    Some(JsonView::Number(n)) => Some(printed(n)),
                    Some(JsonView::Str(t)) => Some(t),
                    _ => None,
                },
                expected: match a.value {
                    Some(t) => t,
                    None => seq![],
                },
            },
        ),
{
    assert(list.push(a).drop_last() =~= list);
}

/// Only what is named is taken: a name that no output has, white space aside, has no value.
pub proof fn law_no_other_outputs(
    outs: Seq<StepOutputView>,
    status: u16,
    headers: Seq<KvPairView>,
    body: Seq<char>,
    doc: Option<JsonView>,
    name: Seq<char>,
)
    requires
        forall|i: int| 0 <= i < outs.len() ==> trim((#[trigger] outs[i]).name) != name || is_blank(
            outs[i].name,
        ),
    ensures
        lookup(taken_outputs_in(outs, status, headers, body, doc), name) is None,
        lookup(outputs_in(outs, doc), name) is None,
    decreases outs.len(),
{
    if outs.len() > 0 {
        let d = outs.drop_last();
        assert forall|i: int| 0 <= i < d.len() implies trim((#[trigger] d[i]).name) != name
            || is_blank(d[i].name) by {
            assert(d[i] == outs[i]);
        }
        law_no_other_outputs(d, status, headers, body, doc, name);
        lemma_outputs_sorted(d, status, headers, body, doc);
        lemma_body_outputs_sorted(d, doc);
        let o = outs.last();
        assert(outs[outs.len() - 1] == o);
        if !is_blank(o.name) {
            law_put_sorted(
                taken_outputs_in(d, status, headers, body, doc),
                trim(o.name),
                taken_value(o.path, status, headers, body, doc),
                name,
            );
            law_put_sorted(outputs_in(d, doc), trim(o.name), output_value(o.path, doc), name);
        }
    }
}

proof fn lemma_body_outputs_sorted(outs: Seq<StepOutputView>, doc: Option<JsonView>)
    ensures
        sorted(outputs_in(outs, doc)),
    decreases outs.len(),
{
    if outs.len() > 0 {
        let d = outs.drop_last();
        lemma_body_outputs_sorted(d, doc);
        let o = outs.last();
        law_put_sorted(outputs_in(d, doc), trim(o.name), output_value(o.path, doc), seq![]);
    }
}

/// An output of a JSON body is what its path leads to there, and null where it leads nowhere; of
/// two outputs of one name the later counts.
pub proof fn law_body_outputs(outs: Seq<StepOutputView>, doc: Option<JsonView>, i: int)
    requires
        0 <= i < outs.len(),
        !is_blank(outs[i].name),
        forall|j: int|
            i < j < outs.len() ==> is_blank(outs[j].name) || trim((#[trigger] outs[j]).name) != trim(
                outs[i].name,
            ),
    ensures
        lookup(outputs_in(outs, doc), trim(outs[i].name)) == Some(
            match doc {
                Some(root) => match value_at(root, outs[i].path) {
                    Some(v) => v,
                    None => JsonView::Null,
                },
                None => JsonView::Null,
            },
        ),
    decreases outs.len(),
{
    let d = outs.drop_last();
    let o = outs.last();
    let name = trim(outs[i].name);
    lemma_body_outputs_sorted(d, doc);
    law_put_sorted(outputs_in(d, doc), trim(o.name), output_value(o.path, doc), name);
    if i < outs.len() - 1 {
        assert(outs[outs.len() - 1] == o);
        assert(d[i] == outs[i]);
        assert forall|j: int| i < j < d.len() implies is_blank(d[j].name) || trim(
            (#[trigger] d[j]).name,
        ) != name by {
            assert(d[j] == outs[j]);
        }
        law_body_outputs(d, doc, i);
    }
}

} // verus!
