//! Reports as JSON.
use crate::fields::{
    all_in, fields_in, flag_in, lemma_all_in, lemma_field, lemma_present, lemma_record_settled,
    lemma_spoilt, lemma_table, lemma_texts, lemma_values, list_in, maybe_flag_in, maybe_text_in,
    names_differ, number_in, number_value, present, push_field, push_some, read_fields, read_flag,
    read_maybe_flag, read_maybe_text, read_number, read_table, read_text, read_texts, read_values,
    read_word, table_in, table_json, table_value, text_in, text_or_none, text_or_null, text_reader,
    text_value, texts_json, texts_value, values_in, values_value, word_in, Field,
};
use crate::json::{lemma_view, member, settled, Json, JsonView, MAX_DEPTH, Member};
use crate::number::NumberView;
use crate::output::{lists_at, member_of};
use crate::report::{
    no_counts, AssertRecord, AssertRecordView, AssertSummary, BodyRecord, BodyRecordView,
    CaseResult, CaseResultView, CaseStatus, EnvironmentInfo, EnvironmentInfoView, KvPair,
    KvPairView, RequestRecord, RequestRecordView, ResponseRecord, ResponseRecordView, RunOptions,
    RunOptionsView, RunReport, RunReportView, RunStatus, RunSummary, StepResult, StepResultView,
    StepStatus, StepSummary, ToolInfo, ToolInfoView, WorkspaceInfo, WorkspaceInfoView,
};
use crate::table::{distinct, lookup, sorted, SortedMap};
use crate::text::{lemma_views_push, opt_view, same, views};
use vstd::prelude::*;

verus! {

/// How deep a value may be that a step hands on, so that its report can still be read.
pub const OUTPUT_DEPTH: usize = 121;

/// A text that is left out when there is none.
pub open spec fn kept_text(o: Option<Seq<char>>) -> Option<JsonView> {
    match o {
        Some(s) => Some(JsonView::Str(s)),
        None => None,
    }
}

proof fn lemma_word_actual()
    ensures
        "actual"@.len() == 6,
        "actual"@[0] == 'a',
        "actual"@.last() == 'l',
{
    reveal_strlit("actual");
}

proof fn lemma_word_assertions()
    ensures
        "assertions"@.len() == 10,
        "assertions"@[0] == 'a',
        "assertions"@.last() == 's',
{
    reveal_strlit("assertions");
}

proof fn lemma_word_body()
    ensures
        "body"@.len() == 4,
        "body"@[0] == 'b',
        "body"@.last() == 'y',
{
    reveal_strlit("body");
}

proof fn lemma_word_bytes()
    ensures
        "bytes"@.len() == 5,
        "bytes"@[0] == 'b',
        "bytes"@.last() == 's',
{
    reveal_strlit("bytes");
}

proof fn lemma_word_cancelled()
    ensures
        "cancelled"@.len() == 9,
        "cancelled"@[0] == 'c',
        "cancelled"@.last() == 'd',
{
    reveal_strlit("cancelled");
}

proof fn lemma_word_cases()
    ensures
        "cases"@.len() == 5,
        "cases"@[0] == 'c',
        "cases"@.last() == 's',
{
    reveal_strlit("cases");
}

proof fn lemma_word_concurrency()
    ensures
        "concurrency"@.len() == 11,
        "concurrency"@[0] == 'c',
        "concurrency"@.last() == 'y',
{
    reveal_strlit("concurrency");
}

proof fn lemma_word_continue_on_assertion_failure()
    ensures
        "continueOnAssertionFailure"@.len() == 26,
        "continueOnAssertionFailure"@[0] == 'c',
        "continueOnAssertionFailure"@.last() == 'e',
{
    reveal_strlit("continueOnAssertionFailure");
}

proof fn lemma_word_done()
    ensures
        "done"@.len() == 4,
        "done"@[0] == 'd',
        "done"@.last() == 'e',
{
    reveal_strlit("done");
}

proof fn lemma_word_duration_ms()
    ensures
        "durationMs"@.len() == 10,
        "durationMs"@[0] == 'd',
        "durationMs"@.last() == 's',
{
    reveal_strlit("durationMs");
}

proof fn lemma_word_elapsed_ms()
    ensures
        "elapsedMs"@.len() == 9,
        "elapsedMs"@[0] == 'e',
        "elapsedMs"@.last() == 's',
{
    reveal_strlit("elapsedMs");
}

proof fn lemma_word_environment()
    ensures
        "environment"@.len() == 11,
        "environment"@[0] == 'e',
        "environment"@.last() == 't',
{
    reveal_strlit("environment");
}

proof fn lemma_word_error()
    ensures
        "error"@.len() == 5,
        "error"@[0] == 'e',
        "error"@.last() == 'r',
{
    reveal_strlit("error");
}

proof fn lemma_word_expected()
    ensures
        "expected"@.len() == 8,
        "expected"@[0] == 'e',
        "expected"@.last() == 'd',
{
    reveal_strlit("expected");
}

proof fn lemma_word_failed()
    ensures
        "failed"@.len() == 6,
        "failed"@[0] == 'f',
        "failed"@.last() == 'd',
{
    reveal_strlit("failed");
}

proof fn lemma_word_file()
    ensures
        "file"@.len() == 4,
        "file"@[0] == 'f',
        "file"@.last() == 'e',
{
    reveal_strlit("file");
}

proof fn lemma_word_finished_at()
    ensures
        "finishedAt"@.len() == 10,
        "finishedAt"@[0] == 'f',
        "finishedAt"@.last() == 't',
{
    reveal_strlit("finishedAt");
}

proof fn lemma_word_headers()
    ensures
        "headers"@.len() == 7,
        "headers"@[0] == 'h',
        "headers"@.last() == 's',
{
    reveal_strlit("headers");
}

proof fn lemma_word_id()
    ensures
        "id"@.len() == 2,
        "id"@[0] == 'i',
        "id"@.last() == 'd',
{
    reveal_strlit("id");
}

proof fn lemma_word_key()
    ensures
        "key"@.len() == 3,
        "key"@[0] == 'k',
        "key"@.last() == 'y',
{
    reveal_strlit("key");
}

proof fn lemma_word_max_body_bytes()
    ensures
        "maxBodyBytes"@.len() == 12,
        "maxBodyBytes"@[0] == 'm',
        "maxBodyBytes"@.last() == 's',
{
    reveal_strlit("maxBodyBytes");
}

proof fn lemma_word_method()
    ensures
        "method"@.len() == 6,
        "method"@[0] == 'm',
        "method"@.last() == 'd',
{
    reveal_strlit("method");
}

proof fn lemma_word_name()
    ensures
        "name"@.len() == 4,
        "name"@[0] == 'n',
        "name"@.last() == 'e',
{
    reveal_strlit("name");
}

proof fn lemma_word_ok()
    ensures
        "ok"@.len() == 2,
        "ok"@[0] == 'o',
        "ok"@.last() == 'k',
{
    reveal_strlit("ok");
}

proof fn lemma_word_op()
    ensures
        "op"@.len() == 2,
        "op"@[0] == 'o',
        "op"@.last() == 'p',
{
    reveal_strlit("op");
}

proof fn lemma_word_options()
    ensures
        "options"@.len() == 7,
        "options"@[0] == 'o',
        "options"@.last() == 's',
{
    reveal_strlit("options");
}

proof fn lemma_word_outputs()
    ensures
        "outputs"@.len() == 7,
        "outputs"@[0] == 'o',
        "outputs"@.last() == 's',
{
    reveal_strlit("outputs");
}

proof fn lemma_word_passed()
    ensures
        "passed"@.len() == 6,
        "passed"@[0] == 'p',
        "passed"@.last() == 'd',
{
    reveal_strlit("passed");
}

proof fn lemma_word_preview()
    ensures
        "preview"@.len() == 7,
        "preview"@[0] == 'p',
        "preview"@.last() == 'w',
{
    reveal_strlit("preview");
}

proof fn lemma_word_recursive()
    ensures
        "recursive"@.len() == 9,
        "recursive"@[0] == 'r',
        "recursive"@.last() == 'e',
{
    reveal_strlit("recursive");
}

proof fn lemma_word_request()
    ensures
        "request"@.len() == 7,
        "request"@[0] == 'r',
        "request"@.last() == 't',
{
    reveal_strlit("request");
}

proof fn lemma_word_response()
    ensures
        "response"@.len() == 8,
        "response"@[0] == 'r',
        "response"@.last() == 'e',
{
    reveal_strlit("response");
}

proof fn lemma_word_root()
    ensures
        "root"@.len() == 4,
        "root"@[0] == 'r',
        "root"@.last() == 't',
{
    reveal_strlit("root");
}

proof fn lemma_word_running()
    ensures
        "running"@.len() == 7,
        "running"@[0] == 'r',
        "running"@.last() == 'g',
{
    reveal_strlit("running");
}

proof fn lemma_word_schema_version()
    ensures
        "schemaVersion"@.len() == 13,
        "schemaVersion"@[0] == 's',
        "schemaVersion"@.last() == 'n',
{
    reveal_strlit("schemaVersion");
}

proof fn lemma_word_skip_reason()
    ensures
        "skipReason"@.len() == 10,
        "skipReason"@[0] == 's',
        "skipReason"@.last() == 'n',
{
    reveal_strlit("skipReason");
}

proof fn lemma_word_skipped()
    ensures
        "skipped"@.len() == 7,
        "skipped"@[0] == 's',
        "skipped"@.last() == 'd',
{
    reveal_strlit("skipped");
}

proof fn lemma_word_started_at()
    ensures
        "startedAt"@.len() == 9,
        "startedAt"@[0] == 's',
        "startedAt"@.last() == 't',
{
    reveal_strlit("startedAt");
}

proof fn lemma_word_status()
    ensures
        "status"@.len() == 6,
        "status"@[0] == 's',
        "status"@.last() == 's',
{
    reveal_strlit("status");
}

proof fn lemma_word_status_text()
    ensures
        "statusText"@.len() == 10,
        "statusText"@[0] == 's',
        "statusText"@.last() == 't',
{
    reveal_strlit("statusText");
}

proof fn lemma_word_steps()
    ensures
        "steps"@.len() == 5,
        "steps"@[0] == 's',
        "steps"@.last() == 's',
{
    reveal_strlit("steps");
}

proof fn lemma_word_stop_on_failure()
    ensures
        "stopOnFailure"@.len() == 13,
        "stopOnFailure"@[0] == 's',
        "stopOnFailure"@.last() == 'e',
{
    reveal_strlit("stopOnFailure");
}

proof fn lemma_word_summary()
    ensures
        "summary"@.len() == 7,
        "summary"@[0] == 's',
        "summary"@.last() == 'y',
{
    reveal_strlit("summary");
}

proof fn lemma_word_target()
    ensures
        "target"@.len() == 6,
        "target"@[0] == 't',
        "target"@.last() == 't',
{
    reveal_strlit("target");
}

proof fn lemma_word_targets()
    ensures
        "targets"@.len() == 7,
        "targets"@[0] == 't',
        "targets"@.last() == 's',
{
    reveal_strlit("targets");
}

proof fn lemma_word_tool()
    ensures
        "tool"@.len() == 4,
        "tool"@[0] == 't',
        "tool"@.last() == 'l',
{
    reveal_strlit("tool");
}

proof fn lemma_word_total()
    ensures
        "total"@.len() == 5,
        "total"@[0] == 't',
        "total"@.last() == 'l',
{
    reveal_strlit("total");
}

proof fn lemma_word_truncated()
    ensures
        "truncated"@.len() == 9,
        "truncated"@[0] == 't',
        "truncated"@.last() == 'd',
{
    reveal_strlit("truncated");
}

proof fn lemma_word_url()
    ensures
        "url"@.len() == 3,
        "url"@[0] == 'u',
        "url"@.last() == 'l',
{
    reveal_strlit("url");
}

proof fn lemma_word_value()
    ensures
        "value"@.len() == 5,
        "value"@[0] == 'v',
        "value"@.last() == 'e',
{
    reveal_strlit("value");
}

proof fn lemma_word_vars()
    ensures
        "vars"@.len() == 4,
        "vars"@[0] == 'v',
        "vars"@.last() == 's',
{
    reveal_strlit("vars");
}

proof fn lemma_word_version()
    ensures
        "version"@.len() == 7,
        "version"@[0] == 'v',
        "version"@.last() == 'n',
{
    reveal_strlit("version");
}

proof fn lemma_word_workspace()
    ensures
        "workspace"@.len() == 9,
        "workspace"@[0] == 'w',
        "workspace"@.last() == 'e',
{
    reveal_strlit("workspace");
}

// ---- the outcome of a step ----------------------------------------------------------------

/// The word of the outcome of a step.
pub open spec fn step_status_word(s: StepStatus) -> Seq<char> {
    match s {
        StepStatus::Passed => "passed"@,
        StepStatus::Failed => "failed"@,
        StepStatus::Error => "error"@,
        StepStatus::Skipped => "skipped"@,
        StepStatus::Running => "running"@,
    }
}

/// The word of the outcome of a step.
pub fn step_status_name(s: StepStatus) -> (r: &'static str)
    ensures
        r@ == step_status_word(s),
{
    match s {
        StepStatus::Passed => "passed",
        StepStatus::Failed => "failed",
        StepStatus::Error => "error",
        StepStatus::Skipped => "skipped",
        StepStatus::Running => "running",
    }
}

/// The outcome of a step by its word.
pub open spec fn step_status_in(o: Option<JsonView>) -> Option<StepStatus> {
    match word_in(o) {
        Some(w) => 
if w == "passed"@ {
            Some(StepStatus::Passed)
        } else if w == "failed"@ {
            Some(StepStatus::Failed)
        } else if w == "error"@ {
            Some(StepStatus::Error)
        } else if w == "skipped"@ {
            Some(StepStatus::Skipped)
        } else if w == "running"@ {
            Some(StepStatus::Running)
        } else {
            None
        },
        None => None,
    }
}

fn read_step_status(m: &Vec<Member>, k: &str) -> (r: Option<StepStatus>)
    ensures
        r == step_status_in(lookup(views(m@), k@)),
{
    match read_word(m, k) {
        Some(w) => 
if same(w.as_str(), "passed") {
            Some(StepStatus::Passed)
        } else if same(w.as_str(), "failed") {
            Some(StepStatus::Failed)
        } else if same(w.as_str(), "error") {
            Some(StepStatus::Error)
        } else if same(w.as_str(), "skipped") {
            Some(StepStatus::Skipped)
        } else if same(w.as_str(), "running") {
            Some(StepStatus::Running)
        } else {
            None
        },
        None => None,
    }
}

proof fn lemma_step_status(s: StepStatus)
    ensures
        step_status_in(Some(JsonView::Str(step_status_word(s)))) == Some(s),
{
    lemma_word_passed();
    lemma_word_failed();
    lemma_word_error();
    lemma_word_skipped();
    lemma_word_running();
}

// ---- the outcome of a case ----------------------------------------------------------------

/// The word of the outcome of a case.
pub open spec fn case_status_word(s: CaseStatus) -> Seq<char> {
    match s {
        CaseStatus::Passed => "passed"@,
        CaseStatus::Failed => "failed"@,
        CaseStatus::Error => "error"@,
        CaseStatus::Skipped => "skipped"@,
        CaseStatus::Running => "running"@,
    }
}

/// The word of the outcome of a case.
pub fn case_status_name(s: CaseStatus) -> (r: &'static str)
    ensures
        r@ == case_status_word(s),
{
    match s {
        CaseStatus::Passed => "passed",
        CaseStatus::Failed => "failed",
        CaseStatus::Error => "error",
        CaseStatus::Skipped => "skipped",
        CaseStatus::Running => "running",
    }
}

/// The outcome of a case by its word.
pub open spec fn case_status_in(o: Option<JsonView>) -> Option<CaseStatus> {
    match word_in(o) {
        Some(w) => 
if w == "passed"@ {
            Some(CaseStatus::Passed)
        } else if w == "failed"@ {
            Some(CaseStatus::Failed)
        } else if w == "error"@ {
            Some(CaseStatus::Error)
        } else if w == "skipped"@ {
            Some(CaseStatus::Skipped)
        } else if w == "running"@ {
            Some(CaseStatus::Running)
        } else {
            None
        },
        None => None,
    }
}

fn read_case_status(m: &Vec<Member>, k: &str) -> (r: Option<CaseStatus>)
    ensures
        r == case_status_in(lookup(views(m@), k@)),
{
    match read_word(m, k) {
        Some(w) => 
if same(w.as_str(), "passed") {
            Some(CaseStatus::Passed)
        } else if same(w.as_str(), "failed") {
            Some(CaseStatus::Failed)
        } else if same(w.as_str(), "error") {
            Some(CaseStatus::Error)
        } else if same(w.as_str(), "skipped") {
            Some(CaseStatus::Skipped)
        } else if same(w.as_str(), "running") {
            Some(CaseStatus::Running)
        } else {
            None
        },
        None => None,
    }
}

proof fn lemma_case_status(s: CaseStatus)
    ensures
        case_status_in(Some(JsonView::Str(case_status_word(s)))) == Some(s),
{
    lemma_word_passed();
    lemma_word_failed();
    lemma_word_error();
    lemma_word_skipped();
    lemma_word_running();
}

// ---- the outcome of a run -----------------------------------------------------------------

/// The word of the outcome of a run.
pub open spec fn run_status_word(s: RunStatus) -> Seq<char> {
    match s {
        RunStatus::Running => "running"@,
        RunStatus::Done => "done"@,
        RunStatus::Cancelled => "cancelled"@,
    }
}

/// The word of the outcome of a run.
pub fn run_status_name(s: RunStatus) -> (r: &'static str)
    ensures
        r@ == run_status_word(s),
{
    match s {
        RunStatus::Running => "running",
        RunStatus::Done => "done",
        RunStatus::Cancelled => "cancelled",
    }
}

/// The outcome of a run by its word.
pub open spec fn run_status_in(o: Option<JsonView>) -> Option<RunStatus> {
    match word_in(o) {
        Some(w) => 
if w == "running"@ {
            Some(RunStatus::Running)
        } else if w == "done"@ {
            Some(RunStatus::Done)
        } else if w == "cancelled"@ {
            Some(RunStatus::Cancelled)
        } else {
            None
        },
        None => None,
    }
}

fn read_run_status(m: &Vec<Member>, k: &str) -> (r: Option<RunStatus>)
    ensures
        r == run_status_in(lookup(views(m@), k@)),
{
    match read_word(m, k) {
        Some(w) => 
if same(w.as_str(), "running") {
            Some(RunStatus::Running)
        } else if same(w.as_str(), "done") {
            Some(RunStatus::Done)
        } else if same(w.as_str(), "cancelled") {
            Some(RunStatus::Cancelled)
        } else {
            None
        },
        None => None,
    }
}

proof fn lemma_run_status(s: RunStatus)
    ensures
        run_status_in(Some(JsonView::Str(run_status_word(s)))) == Some(s),
{
    lemma_word_running();
    lemma_word_done();
    lemma_word_cancelled();
}

// ---- a pair -----------------------------------------------------------------------------

/// The names of the fields of a pair.
pub open spec fn pair_names() -> Seq<Seq<char>> {
    seq!["key"@, "value"@]
}

/// The fields of a pair.
pub open spec fn pair_fields(v: KvPairView) -> Seq<Field> {
    seq![
        ("key"@, Some(JsonView::Str(v.key))),
        ("value"@, Some(JsonView::Str(v.value))),
    ]
}

/// A pair as JSON.
pub open spec fn pair_json(v: KvPairView) -> JsonView {
    JsonView::Object(present(pair_fields(v)))
}

/// A pair as JSON.
pub fn pair_to_json(v: &KvPair) -> (r: Json)
    ensures
        r@ == pair_json(v@),
{
    let ghost fs = pair_fields(v@);
    let mut out: Vec<Member> = Vec::new();
    assert(views(out@) =~= present(fs.take(0)));
    push_field(&mut out, "key", text_value(v.key.as_str()));
    proof {
        lemma_present(fs, 0);
    }
    push_field(&mut out, "value", text_value(v.value.as_str()));
    proof {
        lemma_present(fs, 1);
    }
    let r: Json = Json::Object(out);
    proof {
        lemma_view(r);
    }
    r
}

/// A pair that JSON gives.
pub open spec fn pair_read(v: JsonView) -> Option<KvPairView> {
    match fields_in(v, pair_names()) {
        Some(m) => {
            let key = text_in(lookup(m, "key"@));
            let value = text_in(lookup(m, "value"@));
            if key is Some && value is Some {
                Some(
                    KvPairView {
                        key: key->0,
                        value: value->0,
                    },
                )
            } else {
                None
            }
        },
        None => None,
    }
}

/// A pair that JSON gives.
pub fn pair_from_json(v: &Json) -> (r: Option<KvPair>)
    ensures
        opt_view(r) == pair_read(v@),
{
    let mut names: Vec<&'static str> = Vec::new();
    names.push("key");
    names.push("value");
    assert(names@.map_values(|s: &'static str| s@) =~= pair_names());
    let m: Vec<Member> = match read_fields(v, &names) {
        Some(m) => m,
        None => return None,
    };
    let key: String = match read_text(&m, "key") {
        Some(x) => x,
        None => return None,
    };
    let value: String = match read_text(&m, "value") {
        Some(x) => x,
        None => return None,
    };
    Some(
        KvPair {
            key,
            value,
        },
    )
}

/// A pair as an item.
pub open spec fn pair_writer() -> spec_fn(KvPairView) -> JsonView {
    |v: KvPairView| pair_json(v)
}

/// A pair as an item.
pub open spec fn pair_reader() -> spec_fn(JsonView) -> Option<KvPairView> {
    |v: JsonView| pair_read(v)
}

fn pairs_to_json(l: &Vec<KvPair>) -> (r: Json)
    ensures
        r@ == JsonView::Array(views(l@).map_values(pair_writer())),
{
    let mut out: Vec<Json> = Vec::new();
    let mut i: usize = 0;
    while i < l.len()
        invariant
            i <= l@.len(),
            out@.len() == i,
            forall|k: int| 0 <= k < i ==> (#[trigger] out@[k])@ == pair_json(l@[k]@),
        decreases l@.len() - i,
    {
        out.push(pair_to_json(&l[i]));
        i = i + 1;
    }
    let r: Json = Json::Array(out);
    proof {
        lemma_view(r);
        assert(views(out@) =~= views(l@).map_values(pair_writer()));
    }
    r
}

fn read_pairs(m: &Vec<Member>, k: &str) -> (r: Option<Vec<KvPair>>)
    ensures
        match r {
            Some(l) => list_in(lookup(views(m@), k@), pair_reader()) == Some(views(l@)),
            None => list_in(lookup(views(m@), k@), pair_reader()) is None,
        },
{
    let v: &Json = match member(m, k) {
        Some(v) => v,
        None => return None,
    };
    proof {
        lemma_view(*v);
    }
    match v {
        Json::Array(a) => {
            let ghost w = views(a@);
            let mut out: Vec<KvPair> = Vec::new();
            let mut i: usize = 0;
            assert(w.take(0) =~= seq![]);
            assert(views(out@) =~= seq![]);
            while i < a.len()
                invariant
                    i <= a@.len(),
                    w == views(a@),
                    lookup(views(m@), k@) == Some(JsonView::Array(w)),
                    all_in(w.take(i as int), pair_reader()) == Some(views(out@)),
                decreases a@.len() - i,
            {
                proof {
                    assert(w.take(i + 1).drop_last() =~= w.take(i as int));
                    assert(w.take(i + 1).last() == a@[i as int]@);
                }
                match pair_from_json(&a[i]) {
                    Some(x) => {
                        proof {
                            lemma_views_push(out@, x);
                        }
                        out.push(x);
                    },
                    None => {
                        proof {
                            lemma_spoilt(w, pair_reader(), i + 1);
                        }
                        return None;
                    },
                }
                i = i + 1;
            }
            assert(w.take(w.len() as int) =~= w);
            Some(out)
        },
        _ => None,
    }
}

proof fn lemma_pair_names(v: KvPairView)
    ensures
        names_differ(pair_fields(v)),
{
    let fs = pair_fields(v);
    lemma_word_key();
    lemma_word_value();
}

proof fn lemma_pair(v: KvPairView, d: nat)
    requires
        d >= 1,
    ensures
        pair_read(pair_json(v)) == Some(v),
        settled(pair_json(v), d),
{
    let fs = pair_fields(v);
    lemma_pair_names(v);
    lemma_field(fs, 0);
    lemma_field(fs, 1);
    lemma_record_settled(fs, d);
}

// ---- a body -----------------------------------------------------------------------------

/// The names of the fields of a body.
pub open spec fn body_names() -> Seq<Seq<char>> {
    seq!["preview"@, "bytes"@, "truncated"@]
}

/// The fields of a body.
pub open spec fn body_fields(v: BodyRecordView) -> Seq<Field> {
    seq![
        ("preview"@, Some(text_or_null(v.preview))),
        ("bytes"@, Some(JsonView::Number(NumberView::Int(v.bytes as int)))),
        ("truncated"@, Some(JsonView::Bool(v.truncated))),
    ]
}

/// A body as JSON.
pub open spec fn body_json(v: BodyRecordView) -> JsonView {
    JsonView::Object(present(body_fields(v)))
}

/// A body as JSON.
pub fn body_to_json(v: &BodyRecord) -> (r: Json)
    ensures
        r@ == body_json(v@),
{
    let ghost fs = body_fields(v@);
    let mut out: Vec<Member> = Vec::new();
    assert(views(out@) =~= present(fs.take(0)));
    push_field(&mut out, "preview", text_or_none(&v.preview));
    proof {
        lemma_present(fs, 0);
    }
    push_field(&mut out, "bytes", number_value(v.bytes as u64));
    proof {
        lemma_present(fs, 1);
    }
    push_field(&mut out, "truncated", Json::Bool(v.truncated));
    proof {
        lemma_present(fs, 2);
    }
    let r: Json = Json::Object(out);
    proof {
        lemma_view(r);
    }
    r
}

/// A body that JSON gives.
pub open spec fn body_read(v: JsonView) -> Option<BodyRecordView> {
    match fields_in(v, body_names()) {
        Some(m) => {
            let preview = maybe_text_in(lookup(m, "preview"@));
            let bytes = number_in(lookup(m, "bytes"@), usize::MAX as nat);
            let truncated = flag_in(lookup(m, "truncated"@));
            if preview is Some && bytes is Some && truncated is Some {
                Some(
                    BodyRecordView {
                        preview: preview->0,
                        bytes: bytes->0 as usize,
                        truncated: truncated->0,
                    },
                )
            } else {
                None
            }
        },
        None => None,
    }
}

/// A body that JSON gives.
pub fn body_from_json(v: &Json) -> (r: Option<BodyRecord>)
    ensures
        opt_view(r) == body_read(v@),
{
    let mut names: Vec<&'static str> = Vec::new();
    names.push("preview");
    names.push("bytes");
    names.push("truncated");
    assert(names@.map_values(|s: &'static str| s@) =~= body_names());
    let m: Vec<Member> = match read_fields(v, &names) {
        Some(m) => m,
        None => return None,
    };
    let preview: Option<String> = match read_maybe_text(&m, "preview") {
        Some(x) => x,
        None => return None,
    };
    let bytes: u64 = match read_number(&m, "bytes", usize::MAX as u64) {
        Some(x) => x,
        None => return None,
    };
    let truncated: bool = match read_flag(&m, "truncated") {
        Some(x) => x,
        None => return None,
    };
    Some(
        BodyRecord {
            preview,
            bytes: bytes as usize,
            truncated,
        },
    )
}

/// A body in a field.
pub open spec fn body_in(o: Option<JsonView>) -> Option<BodyRecordView> {
    match o {
        Some(v) => body_read(v),
        None => None,
    }
}

fn read_body(m: &Vec<Member>, k: &str) -> (r: Option<BodyRecord>)
    ensures
        opt_view(r) == body_in(lookup(views(m@), k@)),
{
    match member(m, k) {
        Some(v) => body_from_json(v),
        None => None,
    }
}

proof fn lemma_body_names(v: BodyRecordView)
    ensures
        names_differ(body_fields(v)),
{
    let fs = body_fields(v);
    lemma_word_preview();
    lemma_word_bytes();
    lemma_word_truncated();
}

proof fn lemma_body(v: BodyRecordView, d: nat)
    requires
        d >= 1,
    ensures
        body_read(body_json(v)) == Some(v),
        settled(body_json(v), d),
{
    let fs = body_fields(v);
    lemma_body_names(v);
    lemma_field(fs, 0);
    lemma_field(fs, 1);
    lemma_field(fs, 2);
    lemma_record_settled(fs, d);
}

// ---- an assertion -----------------------------------------------------------------------

/// The names of the fields of an assertion.
pub open spec fn assert_record_names() -> Seq<Seq<char>> {
    seq!["target"@, "op"@, "expected"@, "actual"@, "ok"@]
}

/// The fields of an assertion.
pub open spec fn assert_record_fields(v: AssertRecordView) -> Seq<Field> {
    seq![
        ("target"@, Some(JsonView::Str(v.target))),
        ("op"@, Some(JsonView::Str(v.op))),
        ("expected"@, Some(JsonView::Str(v.expected))),
        ("actual"@, Some(JsonView::Str(v.actual))),
        ("ok"@, Some(JsonView::Bool(v.ok))),
    ]
}

/// An assertion as JSON.
pub open spec fn assert_record_json(v: AssertRecordView) -> JsonView {
    JsonView::Object(present(assert_record_fields(v)))
}

/// An assertion as JSON.
pub fn assert_record_to_json(v: &AssertRecord) -> (r: Json)
    ensures
        r@ == assert_record_json(v@),
{
    let ghost fs = assert_record_fields(v@);
    let mut out: Vec<Member> = Vec::new();
    assert(views(out@) =~= present(fs.take(0)));
    push_field(&mut out, "target", text_value(v.target.as_str()));
    proof {
        lemma_present(fs, 0);
    }
    push_field(&mut out, "op", text_value(v.op.as_str()));
    proof {
        lemma_present(fs, 1);
    }
    push_field(&mut out, "expected", text_value(v.expected.as_str()));
    proof {
        lemma_present(fs, 2);
    }
    push_field(&mut out, "actual", text_value(v.actual.as_str()));
    proof {
        lemma_present(fs, 3);
    }
    push_field(&mut out, "ok", Json::Bool(v.ok));
    proof {
        lemma_present(fs, 4);
    }
    let r: Json = Json::Object(out);
    proof {
        lemma_view(r);
    }
    r
}

/// An assertion that JSON gives.
pub open spec fn assert_record_read(v: JsonView) -> Option<AssertRecordView> {
    match fields_in(v, assert_record_names()) {
        Some(m) => {
            let target = text_in(lookup(m, "target"@));
            let op = text_in(lookup(m, "op"@));
            let expected = text_in(lookup(m, "expected"@));
            let actual = text_in(lookup(m, "actual"@));
            let ok = flag_in(lookup(m, "ok"@));
            if target is Some && op is Some && expected is Some && actual is Some && ok is Some {
                Some(
                    AssertRecordView {
                        target: target->0,
                        op: op->0,
                        expected: expected->0,
                        actual: actual->0,
                        ok: ok->0,
                    },
                )
            } else {
                None
            }
        },
        None => None,
    }
}

/// An assertion that JSON gives.
pub fn assert_record_from_json(v: &Json) -> (r: Option<AssertRecord>)
    ensures
        opt_view(r) == assert_record_read(v@),
{
    let mut names: Vec<&'static str> = Vec::new();
    names.push("target");
    names.push("op");
    names.push("expected");
    names.push("actual");
    names.push("ok");
    assert(names@.map_values(|s: &'static str| s@) =~= assert_record_names());
    let m: Vec<Member> = match read_fields(v, &names) {
        Some(m) => m,
        None => return None,
    };
    let target: String = match read_text(&m, "target") {
        Some(x) => x,
        None => return None,
    };
    let op: String = match read_text(&m, "op") {
        Some(x) => x,
        None => return None,
    };
    let expected: String = match read_text(&m, "expected") {
        Some(x) => x,
        None => return None,
    };
    let actual: String = match read_text(&m, "actual") {
        Some(x) => x,
        None => return None,
    };
    let ok: bool = match read_flag(&m, "ok") {
        Some(x) => x,
        None => return None,
    };
    Some(
        AssertRecord {
            target,
            op,
            expected,
            actual,
            ok,
        },
    )
}

/// An assertion as an item.
pub open spec fn assert_record_writer() -> spec_fn(AssertRecordView) -> JsonView {
    |v: AssertRecordView| assert_record_json(v)
}

/// An assertion as an item.
pub open spec fn assert_record_reader() -> spec_fn(JsonView) -> Option<AssertRecordView> {
    |v: JsonView| assert_record_read(v)
}

fn assert_records_to_json(l: &Vec<AssertRecord>) -> (r: Json)
    ensures
        r@ == JsonView::Array(views(l@).map_values(assert_record_writer())),
{
    let mut out: Vec<Json> = Vec::new();
    let mut i: usize = 0;
    while i < l.len()
        invariant
            i <= l@.len(),
            out@.len() == i,
            forall|k: int| 0 <= k < i ==> (#[trigger] out@[k])@ == assert_record_json(l@[k]@),
        decreases l@.len() - i,
    {
        out.push(assert_record_to_json(&l[i]));
        i = i + 1;
    }
    let r: Json = Json::Array(out);
    proof {
        lemma_view(r);
        assert(views(out@) =~= views(l@).map_values(assert_record_writer()));
    }
    r
}

fn read_assert_records(m: &Vec<Member>, k: &str) -> (r: Option<Vec<AssertRecord>>)
    ensures
        match r {
            Some(l) => list_in(lookup(views(m@), k@), assert_record_reader()) == Some(views(l@)),
            None => list_in(lookup(views(m@), k@), assert_record_reader()) is None,
        },
{
    let v: &Json = match member(m, k) {
        Some(v) => v,
        None => return None,
    };
    proof {
        lemma_view(*v);
    }
    match v {
        Json::Array(a) => {
            let ghost w = views(a@);
            let mut out: Vec<AssertRecord> = Vec::new();
            let mut i: usize = 0;
            assert(w.take(0) =~= seq![]);
            assert(views(out@) =~= seq![]);
            while i < a.len()
                invariant
                    i <= a@.len(),
                    w == views(a@),
                    lookup(views(m@), k@) == Some(JsonView::Array(w)),
                    all_in(w.take(i as int), assert_record_reader()) == Some(views(out@)),
                decreases a@.len() - i,
            {
                proof {
                    assert(w.take(i + 1).drop_last() =~= w.take(i as int));
                    assert(w.take(i + 1).last() == a@[i as int]@);
                }
                match assert_record_from_json(&a[i]) {
                    Some(x) => {
                        proof {
                            lemma_views_push(out@, x);
                        }
                        out.push(x);
                    },
                    None => {
                        proof {
                            lemma_spoilt(w, assert_record_reader(), i + 1);
                        }
                        return None;
                    },
                }
                i = i + 1;
            }
            assert(w.take(w.len() as int) =~= w);
            Some(out)
        },
        _ => None,
    }
}

proof fn lemma_assert_record_names(v: AssertRecordView)
    ensures
        names_differ(assert_record_fields(v)),
{
    let fs = assert_record_fields(v);
    lemma_word_target();
    lemma_word_op();
    lemma_word_expected();
    lemma_word_actual();
    lemma_word_ok();
}

proof fn lemma_assert_record(v: AssertRecordView, d: nat)
    requires
        d >= 1,
    ensures
        assert_record_read(assert_record_json(v)) == Some(v),
        settled(assert_record_json(v), d),
{
    let fs = assert_record_fields(v);
    lemma_assert_record_names(v);
    lemma_field(fs, 0);
    lemma_field(fs, 1);
    lemma_field(fs, 2);
    lemma_field(fs, 3);
    lemma_field(fs, 4);
    lemma_record_settled(fs, d);
}

// ---- a request --------------------------------------------------------------------------

/// The names of the fields of a request.
pub open spec fn request_names() -> Seq<Seq<char>> {
    seq!["method"@, "url"@, "headers"@, "body"@]
}

/// The fields of a request.
pub open spec fn request_fields(v: RequestRecordView) -> Seq<Field> {
    seq![
        ("method"@, Some(JsonView::Str(v.method))),
        ("url"@, Some(JsonView::Str(v.url))),
        ("headers"@, Some(JsonView::Array(v.headers.map_values(pair_writer())))),
        ("body"@, Some(body_json(v.body))),
    ]
}

/// A request as JSON.
pub open spec fn request_json(v: RequestRecordView) -> JsonView {
    JsonView::Object(present(request_fields(v)))
}

/// A request as JSON.
pub fn request_to_json(v: &RequestRecord) -> (r: Json)
    ensures
        r@ == request_json(v@),
{
    let ghost fs = request_fields(v@);
    let mut out: Vec<Member> = Vec::new();
    assert(views(out@) =~= present(fs.take(0)));
    push_field(&mut out, "method", text_value(v.method.as_str()));
    proof {
        lemma_present(fs, 0);
    }
    push_field(&mut out, "url", text_value(v.url.as_str()));
    proof {
        lemma_present(fs, 1);
    }
    push_field(&mut out, "headers", pairs_to_json(&v.headers));
    proof {
        lemma_present(fs, 2);
    }
    push_field(&mut out, "body", body_to_json(&v.body));
    proof {
        lemma_present(fs, 3);
    }
    let r: Json = Json::Object(out);
    proof {
        lemma_view(r);
    }
    r
}

/// A request that JSON gives.
pub open spec fn request_read(v: JsonView) -> Option<RequestRecordView> {
    match fields_in(v, request_names()) {
        Some(m) => {
            let method = text_in(lookup(m, "method"@));
            let url = text_in(lookup(m, "url"@));
            let headers = list_in(lookup(m, "headers"@), pair_reader());
            let body = body_in(lookup(m, "body"@));
            if method is Some && url is Some && headers is Some && body is Some {
                Some(
                    RequestRecordView {
                        method: method->0,
                        url: url->0,
                        headers: headers->0,
                        body: body->0,
                    },
                )
            } else {
                None
            }
        },
        None => None,
    }
}

/// A request that JSON gives.
pub fn request_from_json(v: &Json) -> (r: Option<RequestRecord>)
    ensures
        opt_view(r) == request_read(v@),
{
    let mut names: Vec<&'static str> = Vec::new();
    names.push("method");
    names.push("url");
    names.push("headers");
    names.push("body");
    assert(names@.map_values(|s: &'static str| s@) =~= request_names());
    let m: Vec<Member> = match read_fields(v, &names) {
        Some(m) => m,
        None => return None,
    };
    let method: String = match read_text(&m, "method") {
        Some(x) => x,
        None => return None,
    };
    let url: String = match read_text(&m, "url") {
        Some(x) => x,
        None => return None,
    };
    let headers: Vec<KvPair> = match read_pairs(&m, "headers") {
        Some(x) => x,
        None => return None,
    };
    let body: BodyRecord = match read_body(&m, "body") {
        Some(x) => x,
        None => return None,
    };
    Some(
        RequestRecord {
            method,
            url,
            headers,
            body,
        },
    )
}

/// A request or `null`.
pub open spec fn maybe_request_json(o: Option<RequestRecordView>) -> JsonView {
    match o {
        Some(v) => request_json(v),
        None => JsonView::Null,
    }
}

fn maybe_request_to_json(o: &Option<RequestRecord>) -> (r: Json)
    ensures
        r@ == maybe_request_json(opt_view(*o)),
{
    match o {
        Some(v) => request_to_json(v),
        None => Json::Null,
    }
}

/// A request in a field, which may be missing or `null`.
pub open spec fn maybe_request_in(o: Option<JsonView>) -> Option<Option<RequestRecordView>> {
    match o {
        None => Some(None),
        Some(JsonView::Null) => Some(None),
        Some(v) => match request_read(v) {
            Some(x) => Some(Some(x)),
            None => None,
        },
    }
}

fn read_maybe_request(m: &Vec<Member>, k: &str) -> (r: Option<Option<RequestRecord>>)
    ensures
        match r {
            Some(x) => maybe_request_in(lookup(views(m@), k@)) == Some(opt_view(x)),
            None => maybe_request_in(lookup(views(m@), k@)) is None,
        },
{
    match member(m, k) {
        Some(v) => {
            proof {
                lemma_view(*v);
            }
            match v {
                Json::Null => Some(None),
                _ => match request_from_json(v) {
                    Some(x) => Some(Some(x)),
                    None => None,
                },
            }
        },
        None => Some(None),
    }
}

proof fn lemma_request_names(v: RequestRecordView)
    ensures
        names_differ(request_fields(v)),
{
    let fs = request_fields(v);
    lemma_word_method();
    lemma_word_url();
    lemma_word_headers();
    lemma_word_body();
}

proof fn lemma_request(v: RequestRecordView, d: nat)
    requires
        d >= 3,
    ensures
        request_read(request_json(v)) == Some(v),
        settled(request_json(v), d),
{
    let fs = request_fields(v);
    lemma_request_names(v);
    lemma_field(fs, 0);
    lemma_field(fs, 1);
    lemma_field(fs, 2);
    lemma_field(fs, 3);
    assert forall|i: int| 0 <= i < v.headers.len() implies pair_reader()(pair_writer()(#[trigger] v.headers[i]))
        == Some(v.headers[i]) && settled(pair_json(v.headers[i]), (d - 2) as nat) by {
        lemma_pair(v.headers[i], (d - 2) as nat);
    }
    lemma_all_in(v.headers, pair_writer(), pair_reader());
    let list_headers = v.headers.map_values(pair_writer());
    assert forall|i: int| 0 <= i < list_headers.len() implies settled(#[trigger] list_headers[i], (d - 2) as nat) by {
        assert(list_headers[i] == pair_json(v.headers[i]));
    }
    assert(settled(JsonView::Array(list_headers), (d - 1) as nat));
    lemma_body(v.body, (d - 1) as nat);
    lemma_record_settled(fs, d);
}

// ---- a response -------------------------------------------------------------------------

/// The names of the fields of a response.
pub open spec fn response_names() -> Seq<Seq<char>> {
    seq!["status"@, "statusText"@, "headers"@, "body"@, "elapsedMs"@]
}

/// The fields of a response.
pub open spec fn response_fields(v: ResponseRecordView) -> Seq<Field> {
    seq![
        ("status"@, Some(JsonView::Number(NumberView::Int(v.status as int)))),
        ("statusText"@, Some(JsonView::Str(v.status_text))),
        ("headers"@, Some(JsonView::Array(v.headers.map_values(pair_writer())))),
        ("body"@, Some(body_json(v.body))),
        ("elapsedMs"@, Some(JsonView::Number(NumberView::Int(v.elapsed_ms as int)))),
    ]
}

/// A response as JSON.
pub open spec fn response_json(v: ResponseRecordView) -> JsonView {
    JsonView::Object(present(response_fields(v)))
}

/// A response as JSON.
pub fn response_to_json(v: &ResponseRecord) -> (r: Json)
    ensures
        r@ == response_json(v@),
{
    let ghost fs = response_fields(v@);
    let mut out: Vec<Member> = Vec::new();
    assert(views(out@) =~= present(fs.take(0)));
    push_field(&mut out, "status", number_value(v.status as u64));
    proof {
        lemma_present(fs, 0);
    }
    push_field(&mut out, "statusText", text_value(v.status_text.as_str()));
    proof {
        lemma_present(fs, 1);
    }
    push_field(&mut out, "headers", pairs_to_json(&v.headers));
    proof {
        lemma_present(fs, 2);
    }
    push_field(&mut out, "body", body_to_json(&v.body));
    proof {
        lemma_present(fs, 3);
    }
    push_field(&mut out, "elapsedMs", number_value(v.elapsed_ms));
    proof {
        lemma_present(fs, 4);
    }
    let r: Json = Json::Object(out);
    proof {
        lemma_view(r);
    }
    r
}

/// A response that JSON gives.
pub open spec fn response_read(v: JsonView) -> Option<ResponseRecordView> {
    match fields_in(v, response_names()) {
        Some(m) => {
            let status = number_in(lookup(m, "status"@), u16::MAX as nat);
            let status_text = text_in(lookup(m, "statusText"@));
            let headers = list_in(lookup(m, "headers"@), pair_reader());
            let body = body_in(lookup(m, "body"@));
            let elapsed_ms = number_in(lookup(m, "elapsedMs"@), u64::MAX as nat);
            if status is Some && status_text is Some && headers is Some && body is Some && elapsed_ms is Some {
                Some(
                    ResponseRecordView {
                        status: status->0 as u16,
                        status_text: status_text->0,
                        headers: headers->0,
                        body: body->0,
                        elapsed_ms: elapsed_ms->0 as u64,
                    },
                )
            } else {
                None
            }
        },
        None => None,
    }
}

/// A response that JSON gives.
pub fn response_from_json(v: &Json) -> (r: Option<ResponseRecord>)
    ensures
        opt_view(r) == response_read(v@),
{
    let mut names: Vec<&'static str> = Vec::new();
    names.push("status");
    names.push("statusText");
    names.push("headers");
    names.push("body");
    names.push("elapsedMs");
    assert(names@.map_values(|s: &'static str| s@) =~= response_names());
    let m: Vec<Member> = match read_fields(v, &names) {
        Some(m) => m,
        None => return None,
    };
    let status: u64 = match read_number(&m, "status", u16::MAX as u64) {
        Some(x) => x,
        None => return None,
    };
    let status_text: String = match read_text(&m, "statusText") {
        Some(x) => x,
        None => return None,
    };
    let headers: Vec<KvPair> = match read_pairs(&m, "headers") {
        Some(x) => x,
        None => return None,
    };
    let body: BodyRecord = match read_body(&m, "body") {
        Some(x) => x,
        None => return None,
    };
    let elapsed_ms: u64 = match read_number(&m, "elapsedMs", u64::MAX) {
        Some(x) => x,
        None => return None,
    };
    Some(
        ResponseRecord {
            status: status as u16,
            status_text,
            headers,
            body,
            elapsed_ms,
        },
    )
}

/// A response or `null`.
pub open spec fn maybe_response_json(o: Option<ResponseRecordView>) -> JsonView {
    match o {
        Some(v) => response_json(v),
        None => JsonView::Null,
    }
}

fn maybe_response_to_json(o: &Option<ResponseRecord>) -> (r: Json)
    ensures
        r@ == maybe_response_json(opt_view(*o)),
{
    match o {
        Some(v) => response_to_json(v),
        None => Json::Null,
    }
}

/// A response in a field, which may be missing or `null`.
pub open spec fn maybe_response_in(o: Option<JsonView>) -> Option<Option<ResponseRecordView>> {
    match o {
        None => Some(None),
        Some(JsonView::Null) => Some(None),
        Some(v) => match response_read(v) {
            Some(x) => Some(Some(x)),
            None => None,
        },
    }
}

fn read_maybe_response(m: &Vec<Member>, k: &str) -> (r: Option<Option<ResponseRecord>>)
    ensures
        match r {
            Some(x) => maybe_response_in(lookup(views(m@), k@)) == Some(opt_view(x)),
            None => maybe_response_in(lookup(views(m@), k@)) is None,
        },
{
    match member(m, k) {
        Some(v) => {
            proof {
                lemma_view(*v);
            }
            match v {
                Json::Null => Some(None),
                _ => match response_from_json(v) {
                    Some(x) => Some(Some(x)),
                    None => None,
                },
            }
        },
        None => Some(None),
    }
}

proof fn lemma_response_names(v: ResponseRecordView)
    ensures
        names_differ(response_fields(v)),
{
    let fs = response_fields(v);
    lemma_word_status();
    lemma_word_status_text();
    lemma_word_headers();
    lemma_word_body();
    lemma_word_elapsed_ms();
}

proof fn lemma_response(v: ResponseRecordView, d: nat)
    requires
        d >= 3,
    ensures
        response_read(response_json(v)) == Some(v),
        settled(response_json(v), d),
{
    let fs = response_fields(v);
    lemma_response_names(v);
    lemma_field(fs, 0);
    lemma_field(fs, 1);
    lemma_field(fs, 2);
    lemma_field(fs, 3);
    lemma_field(fs, 4);
    assert forall|i: int| 0 <= i < v.headers.len() implies pair_reader()(pair_writer()(#[trigger] v.headers[i]))
        == Some(v.headers[i]) && settled(pair_json(v.headers[i]), (d - 2) as nat) by {
        lemma_pair(v.headers[i], (d - 2) as nat);
    }
    lemma_all_in(v.headers, pair_writer(), pair_reader());
    let list_headers = v.headers.map_values(pair_writer());
    assert forall|i: int| 0 <= i < list_headers.len() implies settled(#[trigger] list_headers[i], (d - 2) as nat) by {
        assert(list_headers[i] == pair_json(v.headers[i]));
    }
    assert(settled(JsonView::Array(list_headers), (d - 1) as nat));
    lemma_body(v.body, (d - 1) as nat);
    lemma_record_settled(fs, d);
}

// ---- a step -----------------------------------------------------------------------------

/// The names of the fields of a step.
pub open spec fn step_names() -> Seq<Seq<char>> {
    seq!["id"@, "status"@, "durationMs"@, "request"@, "response"@, "outputs"@, "assertions"@, "error"@, "skipReason"@]
}

/// The fields of a step.
pub open spec fn step_fields(v: StepResultView) -> Seq<Field> {
    seq![
        ("id"@, Some(JsonView::Str(v.id))),
        ("status"@, Some(JsonView::Str(step_status_word(v.status)))),
        ("durationMs"@, Some(JsonView::Number(NumberView::Int(v.duration_ms as int)))),
        ("request"@, Some(maybe_request_json(v.request))),
        ("response"@, Some(maybe_response_json(v.response))),
        ("outputs"@, Some(JsonView::Object(v.outputs))),
        ("assertions"@, Some(JsonView::Array(v.assertions.map_values(assert_record_writer())))),
        ("error"@, kept_text(v.error)),
        ("skipReason"@, kept_text(v.skip_reason)),
    ]
}

/// A step as JSON.
pub open spec fn step_json(v: StepResultView) -> JsonView {
    JsonView::Object(present(step_fields(v)))
}

/// A step as JSON.
pub fn step_to_json(v: &StepResult) -> (r: Json)
    ensures
        r@ == step_json(v@),
{
    let ghost fs = step_fields(v@);
    let mut out: Vec<Member> = Vec::new();
    assert(views(out@) =~= present(fs.take(0)));
    push_field(&mut out, "id", text_value(v.id.as_str()));
    proof {
        lemma_present(fs, 0);
    }
    push_field(&mut out, "status", text_value(step_status_name(v.status)));
    proof {
        lemma_present(fs, 1);
    }
    push_field(&mut out, "durationMs", number_value(v.duration_ms));
    proof {
        lemma_present(fs, 2);
    }
    push_field(&mut out, "request", maybe_request_to_json(&v.request));
    proof {
        lemma_present(fs, 3);
    }
    push_field(&mut out, "response", maybe_response_to_json(&v.response));
    proof {
        lemma_present(fs, 4);
    }
    push_field(&mut out, "outputs", values_value(&v.outputs));
    proof {
        lemma_present(fs, 5);
    }
    push_field(&mut out, "assertions", assert_records_to_json(&v.assertions));
    proof {
        lemma_present(fs, 6);
    }
    push_some(&mut out, "error", &v.error);
    proof {
        lemma_present(fs, 7);
    }
    push_some(&mut out, "skipReason", &v.skip_reason);
    proof {
        lemma_present(fs, 8);
    }
    let r: Json = Json::Object(out);
    proof {
        lemma_view(r);
    }
    r
}

/// A step that JSON gives.
pub open spec fn step_read(v: JsonView) -> Option<StepResultView> {
    match fields_in(v, step_names()) {
        Some(m) => {
            let id = text_in(lookup(m, "id"@));
            let status = step_status_in(lookup(m, "status"@));
            let duration_ms = number_in(lookup(m, "durationMs"@), u64::MAX as nat);
            let request = maybe_request_in(lookup(m, "request"@));
            let response = maybe_response_in(lookup(m, "response"@));
            let outputs = values_in(lookup(m, "outputs"@));
            let assertions = list_in(lookup(m, "assertions"@), assert_record_reader());
            let error = maybe_text_in(lookup(m, "error"@));
            let skip_reason = maybe_text_in(lookup(m, "skipReason"@));
            if id is Some && status is Some && duration_ms is Some && request is Some && response is Some && outputs is Some && assertions is Some && error is Some && skip_reason is Some {
                Some(
                    StepResultView {
                        id: id->0,
                        status: status->0,
                        duration_ms: duration_ms->0 as u64,
                        request: request->0,
                        response: response->0,
                        outputs: outputs->0,
                        assertions: assertions->0,
                        error: error->0,
                        skip_reason: skip_reason->0,
                    },
                )
            } else {
                None
            }
        },
        None => None,
    }
}

/// A step that JSON gives.
pub fn step_from_json(v: &Json) -> (r: Option<StepResult>)
    ensures
        opt_view(r) == step_read(v@),
{
    let mut names: Vec<&'static str> = Vec::new();
    names.push("id");
    names.push("status");
    names.push("durationMs");
    names.push("request");
    names.push("response");
    names.push("outputs");
    names.push("assertions");
    names.push("error");
    names.push("skipReason");
    assert(names@.map_values(|s: &'static str| s@) =~= step_names());
    let m: Vec<Member> = match read_fields(v, &names) {
        Some(m) => m,
        None => return None,
    };
    let id: String = match read_text(&m, "id") {
        Some(x) => x,
        None => return None,
    };
    let status: StepStatus = match read_step_status(&m, "status") {
        Some(x) => x,
        None => return None,
    };
    let duration_ms: u64 = match read_number(&m, "durationMs", u64::MAX) {
        Some(x) => x,
        None => return None,
    };
    let request: Option<RequestRecord> = match read_maybe_request(&m, "request") {
        Some(x) => x,
        None => return None,
    };
    let response: Option<ResponseRecord> = match read_maybe_response(&m, "response") {
        Some(x) => x,
        None => return None,
    };
    let outputs: SortedMap<Json> = match read_values(&m, "outputs") {
        Some(x) => x,
        None => return None,
    };
    let assertions: Vec<AssertRecord> = match read_assert_records(&m, "assertions") {
        Some(x) => x,
        None => return None,
    };
    let error: Option<String> = match read_maybe_text(&m, "error") {
        Some(x) => x,
        None => return None,
    };
    let skip_reason: Option<String> = match read_maybe_text(&m, "skipReason") {
        Some(x) => x,
        None => return None,
    };
    Some(
        StepResult {
            id,
            status,
            duration_ms,
            request,
            response,
            outputs,
            assertions,
            error,
            skip_reason,
        },
    )
}

/// A step as an item.
pub open spec fn step_writer() -> spec_fn(StepResultView) -> JsonView {
    |v: StepResultView| step_json(v)
}

/// A step as an item.
pub open spec fn step_reader() -> spec_fn(JsonView) -> Option<StepResultView> {
    |v: JsonView| step_read(v)
}

fn steps_to_json(l: &Vec<StepResult>) -> (r: Json)
    ensures
        r@ == JsonView::Array(views(l@).map_values(step_writer())),
{
    let mut out: Vec<Json> = Vec::new();
    let mut i: usize = 0;
    while i < l.len()
        invariant
            i <= l@.len(),
            out@.len() == i,
            forall|k: int| 0 <= k < i ==> (#[trigger] out@[k])@ == step_json(l@[k]@),
        decreases l@.len() - i,
    {
        out.push(step_to_json(&l[i]));
        i = i + 1;
    }
    let r: Json = Json::Array(out);
    proof {
        lemma_view(r);
        assert(views(out@) =~= views(l@).map_values(step_writer()));
    }
    r
}

fn read_steps(m: &Vec<Member>, k: &str) -> (r: Option<Vec<StepResult>>)
    ensures
        match r {
            Some(l) => list_in(lookup(views(m@), k@), step_reader()) == Some(views(l@)),
            None => list_in(lookup(views(m@), k@), step_reader()) is None,
        },
{
    let v: &Json = match member(m, k) {
        Some(v) => v,
        None => return None,
    };
    proof {
        lemma_view(*v);
    }
    match v {
        Json::Array(a) => {
            let ghost w = views(a@);
            let mut out: Vec<StepResult> = Vec::new();
            let mut i: usize = 0;
            assert(w.take(0) =~= seq![]);
            assert(views(out@) =~= seq![]);
            while i < a.len()
                invariant
                    i <= a@.len(),
                    w == views(a@),
                    lookup(views(m@), k@) == Some(JsonView::Array(w)),
                    all_in(w.take(i as int), step_reader()) == Some(views(out@)),
                decreases a@.len() - i,
            {
                proof {
                    assert(w.take(i + 1).drop_last() =~= w.take(i as int));
                    assert(w.take(i + 1).last() == a@[i as int]@);
                }
                match step_from_json(&a[i]) {
                    Some(x) => {
                        proof {
                            lemma_views_push(out@, x);
                        }
                        out.push(x);
                    },
                    None => {
                        proof {
                            lemma_spoilt(w, step_reader(), i + 1);
                        }
                        return None;
                    },
                }
                i = i + 1;
            }
            assert(w.take(w.len() as int) =~= w);
            Some(out)
        },
        _ => None,
    }
}

/// Whether the report of a step says all of it: what it hands on is a table of settled values.
pub open spec fn step_kept(v: StepResultView) -> bool {
    sorted(v.outputs) && forall|i: int|
        0 <= i < v.outputs.len() ==> settled((#[trigger] v.outputs[i]).1, OUTPUT_DEPTH as nat)
}

proof fn lemma_step_names(v: StepResultView)
    ensures
        names_differ(step_fields(v)),
{
    let fs = step_fields(v);
    lemma_word_id();
    lemma_word_status();
    lemma_word_duration_ms();
    lemma_word_request();
    lemma_word_response();
    lemma_word_outputs();
    lemma_word_assertions();
    lemma_word_error();
    lemma_word_skip_reason();
}

proof fn lemma_step(v: StepResultView)
    requires
        step_kept(v),
    ensures
        step_read(step_json(v)) == Some(v),
        settled(step_json(v), 123),
{
    let fs = step_fields(v);
    lemma_step_names(v);
    lemma_field(fs, 0);
    lemma_field(fs, 1);
    lemma_field(fs, 2);
    lemma_field(fs, 3);
    lemma_field(fs, 4);
    lemma_field(fs, 5);
    lemma_field(fs, 6);
    lemma_field(fs, 7);
    lemma_field(fs, 8);
    lemma_step_status(v.status);
    if let Some(x) = v.request {
        lemma_request(x, 122);
    }
    if let Some(x) = v.response {
        lemma_response(x, 122);
    }
    lemma_values(v.outputs, 122);
    assert forall|i: int| 0 <= i < v.assertions.len() implies assert_record_reader()(assert_record_writer()(#[trigger] v.assertions[i]))
        == Some(v.assertions[i]) && settled(assert_record_json(v.assertions[i]), 121) by {
        lemma_assert_record(v.assertions[i], 121);
    }
    lemma_all_in(v.assertions, assert_record_writer(), assert_record_reader());
    let list_assertions = v.assertions.map_values(assert_record_writer());
    assert forall|i: int| 0 <= i < list_assertions.len() implies settled(#[trigger] list_assertions[i], 121) by {
        assert(list_assertions[i] == assert_record_json(v.assertions[i]));
    }
    assert(settled(JsonView::Array(list_assertions), 122));
    lemma_record_settled(fs, 123);
}

// ---- a case -----------------------------------------------------------------------------

/// The names of the fields of a case.
pub open spec fn case_names() -> Seq<Seq<char>> {
    seq!["file"@, "name"@, "status"@, "skipReason"@, "startedAt"@, "durationMs"@, "steps"@]
}

/// The fields of a case.
pub open spec fn case_fields(v: CaseResultView) -> Seq<Field> {
    seq![
        ("file"@, Some(JsonView::Str(v.file))),
        ("name"@, Some(JsonView::Str(v.name))),
        ("status"@, Some(JsonView::Str(case_status_word(v.status)))),
        ("skipReason"@, kept_text(v.skip_reason)),
        ("startedAt"@, Some(JsonView::Str(v.started_at))),
        ("durationMs"@, Some(JsonView::Number(NumberView::Int(v.duration_ms as int)))),
        ("steps"@, Some(JsonView::Array(v.steps.map_values(step_writer())))),
    ]
}

/// A case as JSON.
pub open spec fn case_json(v: CaseResultView) -> JsonView {
    JsonView::Object(present(case_fields(v)))
}

/// A case as JSON.
pub fn case_to_json(v: &CaseResult) -> (r: Json)
    ensures
        r@ == case_json(v@),
{
    let ghost fs = case_fields(v@);
    let mut out: Vec<Member> = Vec::new();
    assert(views(out@) =~= present(fs.take(0)));
    push_field(&mut out, "file", text_value(v.file.as_str()));
    proof {
        lemma_present(fs, 0);
    }
    push_field(&mut out, "name", text_value(v.name.as_str()));
    proof {
        lemma_present(fs, 1);
    }
    push_field(&mut out, "status", text_value(case_status_name(v.status)));
    proof {
        lemma_present(fs, 2);
    }
    push_some(&mut out, "skipReason", &v.skip_reason);
    proof {
        lemma_present(fs, 3);
    }
    push_field(&mut out, "startedAt", text_value(v.started_at.as_str()));
    proof {
        lemma_present(fs, 4);
    }
    push_field(&mut out, "durationMs", number_value(v.duration_ms));
    proof {
        lemma_present(fs, 5);
    }
    push_field(&mut out, "steps", steps_to_json(&v.steps));
    proof {
        lemma_present(fs, 6);
    }
    let r: Json = Json::Object(out);
    proof {
        lemma_view(r);
    }
    r
}

/// A case that JSON gives.
pub open spec fn case_read(v: JsonView) -> Option<CaseResultView> {
    match fields_in(v, case_names()) {
        Some(m) => {
            let file = text_in(lookup(m, "file"@));
            let name = text_in(lookup(m, "name"@));
            let status = case_status_in(lookup(m, "status"@));
            let skip_reason = maybe_text_in(lookup(m, "skipReason"@));
            let started_at = text_in(lookup(m, "startedAt"@));
            let duration_ms = number_in(lookup(m, "durationMs"@), u64::MAX as nat);
            let steps = list_in(lookup(m, "steps"@), step_reader());
            if file is Some && name is Some && status is Some && skip_reason is Some && started_at is Some && duration_ms is Some && steps is Some {
                Some(
                    CaseResultView {
                        file: file->0,
                        name: name->0,
                        status: status->0,
                        skip_reason: skip_reason->0,
                        started_at: started_at->0,
                        duration_ms: duration_ms->0 as u64,
                        steps: steps->0,
                    },
                )
            } else {
                None
            }
        },
        None => None,
    }
}

/// A case that JSON gives.
pub fn case_from_json(v: &Json) -> (r: Option<CaseResult>)
    ensures
        opt_view(r) == case_read(v@),
{
    let mut names: Vec<&'static str> = Vec::new();
    names.push("file");
    names.push("name");
    names.push("status");
    names.push("skipReason");
    names.push("startedAt");
    names.push("durationMs");
    names.push("steps");
    assert(names@.map_values(|s: &'static str| s@) =~= case_names());
    let m: Vec<Member> = match read_fields(v, &names) {
        Some(m) => m,
        None => return None,
    };
    let file: String = match read_text(&m, "file") {
        Some(x) => x,
        None => return None,
    };
    let name: String = match read_text(&m, "name") {
        Some(x) => x,
        None => return None,
    };
    let status: CaseStatus = match read_case_status(&m, "status") {
        Some(x) => x,
        None => return None,
    };
    let skip_reason: Option<String> = match read_maybe_text(&m, "skipReason") {
        Some(x) => x,
        None => return None,
    };
    let started_at: String = match read_text(&m, "startedAt") {
        Some(x) => x,
        None => return None,
    };
    let duration_ms: u64 = match read_number(&m, "durationMs", u64::MAX) {
        Some(x) => x,
        None => return None,
    };
    let steps: Vec<StepResult> = match read_steps(&m, "steps") {
        Some(x) => x,
        None => return None,
    };
    Some(
        CaseResult {
            file,
            name,
            status,
            skip_reason,
            started_at,
            duration_ms,
            steps,
        },
    )
}

/// A case as an item.
pub open spec fn case_writer() -> spec_fn(CaseResultView) -> JsonView {
    |v: CaseResultView| case_json(v)
}

/// A case as an item.
pub open spec fn case_reader() -> spec_fn(JsonView) -> Option<CaseResultView> {
    |v: JsonView| case_read(v)
}

fn cases_to_json(l: &Vec<CaseResult>) -> (r: Json)
    ensures
        r@ == JsonView::Array(views(l@).map_values(case_writer())),
{
    let mut out: Vec<Json> = Vec::new();
    let mut i: usize = 0;
    while i < l.len()
        invariant
            i <= l@.len(),
            out@.len() == i,
            forall|k: int| 0 <= k < i ==> (#[trigger] out@[k])@ == case_json(l@[k]@),
        decreases l@.len() - i,
    {
        out.push(case_to_json(&l[i]));
        i = i + 1;
    }
    let r: Json = Json::Array(out);
    proof {
        lemma_view(r);
        assert(views(out@) =~= views(l@).map_values(case_writer()));
    }
    r
}

fn read_cases(m: &Vec<Member>, k: &str) -> (r: Option<Vec<CaseResult>>)
    ensures
        match r {
            Some(l) => list_in(lookup(views(m@), k@), case_reader()) == Some(views(l@)),
            None => list_in(lookup(views(m@), k@), case_reader()) is None,
        },
{
    let v: &Json = match member(m, k) {
        Some(v) => v,
        None => return None,
    };
    proof {
        lemma_view(*v);
    }
    match v {
        Json::Array(a) => {
            let ghost w = views(a@);
            let mut out: Vec<CaseResult> = Vec::new();
            let mut i: usize = 0;
            assert(w.take(0) =~= seq![]);
            assert(views(out@) =~= seq![]);
            while i < a.len()
                invariant
                    i <= a@.len(),
                    w == views(a@),
                    lookup(views(m@), k@) == Some(JsonView::Array(w)),
                    all_in(w.take(i as int), case_reader()) == Some(views(out@)),
                decreases a@.len() - i,
            {
                proof {
                    assert(w.take(i + 1).drop_last() =~= w.take(i as int));
                    assert(w.take(i + 1).last() == a@[i as int]@);
                }
                match case_from_json(&a[i]) {
                    Some(x) => {
                        proof {
                            lemma_views_push(out@, x);
                        }
                        out.push(x);
                    },
                    None => {
                        proof {
                            lemma_spoilt(w, case_reader(), i + 1);
                        }
                        return None;
                    },
                }
                i = i + 1;
            }
            assert(w.take(w.len() as int) =~= w);
            Some(out)
        },
        _ => None,
    }
}

/// Whether the report of a case says all of it.
pub open spec fn case_kept(v: CaseResultView) -> bool {
    forall|i: int| 0 <= i < v.steps.len() ==> step_kept(#[trigger] v.steps[i])
}

proof fn lemma_case_names(v: CaseResultView)
    ensures
        names_differ(case_fields(v)),
{
    let fs = case_fields(v);
    lemma_word_file();
    lemma_word_name();
    lemma_word_status();
    lemma_word_skip_reason();
    lemma_word_started_at();
    lemma_word_duration_ms();
    lemma_word_steps();
}

proof fn lemma_case(v: CaseResultView)
    requires
        case_kept(v),
    ensures
        case_read(case_json(v)) == Some(v),
        settled(case_json(v), 125),
{
    let fs = case_fields(v);
    lemma_case_names(v);
    lemma_field(fs, 0);
    lemma_field(fs, 1);
    lemma_field(fs, 2);
    lemma_field(fs, 3);
    lemma_field(fs, 4);
    lemma_field(fs, 5);
    lemma_field(fs, 6);
    lemma_case_status(v.status);
    assert forall|i: int| 0 <= i < v.steps.len() implies step_reader()(step_writer()(#[trigger] v.steps[i]))
        == Some(v.steps[i]) && settled(step_json(v.steps[i]), 123) by {
        lemma_step(v.steps[i]);
    }
    lemma_all_in(v.steps, step_writer(), step_reader());
    let list_steps = v.steps.map_values(step_writer());
    assert forall|i: int| 0 <= i < list_steps.len() implies settled(#[trigger] list_steps[i], 123) by {
        assert(list_steps[i] == step_json(v.steps[i]));
    }
    assert(settled(JsonView::Array(list_steps), 124));
    lemma_record_settled(fs, 125);
}

// ---- counts of assertions ---------------------------------------------------------------

/// The names of the fields of counts of assertions.
pub open spec fn assert_summary_names() -> Seq<Seq<char>> {
    seq!["total"@, "passed"@, "failed"@]
}

/// The fields of counts of assertions.
pub open spec fn assert_summary_fields(v: AssertSummary) -> Seq<Field> {
    seq![
        ("total"@, Some(JsonView::Number(NumberView::Int(v.total as int)))),
        ("passed"@, Some(JsonView::Number(NumberView::Int(v.passed as int)))),
        ("failed"@, Some(JsonView::Number(NumberView::Int(v.failed as int)))),
    ]
}

/// Counts of assertions as JSON.
pub open spec fn assert_summary_json(v: AssertSummary) -> JsonView {
    JsonView::Object(present(assert_summary_fields(v)))
}

/// Counts of assertions as JSON.
pub fn assert_summary_to_json(v: AssertSummary) -> (r: Json)
    ensures
        r@ == assert_summary_json(v),
{
    let ghost fs = assert_summary_fields(v);
    let mut out: Vec<Member> = Vec::new();
    assert(views(out@) =~= present(fs.take(0)));
    push_field(&mut out, "total", number_value(v.total as u64));
    proof {
        lemma_present(fs, 0);
    }
    push_field(&mut out, "passed", number_value(v.passed as u64));
    proof {
        lemma_present(fs, 1);
    }
    push_field(&mut out, "failed", number_value(v.failed as u64));
    proof {
        lemma_present(fs, 2);
    }
    let r: Json = Json::Object(out);
    proof {
        lemma_view(r);
    }
    r
}

/// Counts of assertions that JSON gives.
pub open spec fn assert_summary_read(v: JsonView) -> Option<AssertSummary> {
    match fields_in(v, assert_summary_names()) {
        Some(m) => {
            let total = number_in(lookup(m, "total"@), u32::MAX as nat);
            let passed = number_in(lookup(m, "passed"@), u32::MAX as nat);
            let failed = number_in(lookup(m, "failed"@), u32::MAX as nat);
            if total is Some && passed is Some && failed is Some {
                Some(
                    AssertSummary {
                        total: total->0 as u32,
                        passed: passed->0 as u32,
                        failed: failed->0 as u32,
                    },
                )
            } else {
                None
            }
        },
        None => None,
    }
}

/// Counts of assertions that JSON gives.
pub fn assert_summary_from_json(v: &Json) -> (r: Option<AssertSummary>)
    ensures
        r == assert_summary_read(v@),
{
    let mut names: Vec<&'static str> = Vec::new();
    names.push("total");
    names.push("passed");
    names.push("failed");
    assert(names@.map_values(|s: &'static str| s@) =~= assert_summary_names());
    let m: Vec<Member> = match read_fields(v, &names) {
        Some(m) => m,
        None => return None,
    };
    let total: u64 = match read_number(&m, "total", u32::MAX as u64) {
        Some(x) => x,
        None => return None,
    };
    let passed: u64 = match read_number(&m, "passed", u32::MAX as u64) {
        Some(x) => x,
        None => return None,
    };
    let failed: u64 = match read_number(&m, "failed", u32::MAX as u64) {
        Some(x) => x,
        None => return None,
    };
    Some(
        AssertSummary {
            total: total as u32,
            passed: passed as u32,
            failed: failed as u32,
        },
    )
}

/// Counts of assertions in a field.
pub open spec fn assert_summary_in(o: Option<JsonView>) -> Option<AssertSummary> {
    match o {
        Some(v) => assert_summary_read(v),
        None => None,
    }
}

fn read_assert_summary(m: &Vec<Member>, k: &str) -> (r: Option<AssertSummary>)
    ensures
        r == assert_summary_in(lookup(views(m@), k@)),
{
    match member(m, k) {
        Some(v) => assert_summary_from_json(v),
        None => None,
    }
}

proof fn lemma_assert_summary_names(v: AssertSummary)
    ensures
        names_differ(assert_summary_fields(v)),
{
    let fs = assert_summary_fields(v);
    lemma_word_total();
    lemma_word_passed();
    lemma_word_failed();
}

proof fn lemma_assert_summary(v: AssertSummary, d: nat)
    requires
        d >= 1,
    ensures
        assert_summary_read(assert_summary_json(v)) == Some(v),
        settled(assert_summary_json(v), d),
{
    let fs = assert_summary_fields(v);
    lemma_assert_summary_names(v);
    lemma_field(fs, 0);
    lemma_field(fs, 1);
    lemma_field(fs, 2);
    lemma_record_settled(fs, d);
}

// ---- counts of steps --------------------------------------------------------------------

/// The names of the fields of counts of steps.
pub open spec fn step_summary_names() -> Seq<Seq<char>> {
    seq!["total"@, "passed"@, "failed"@, "error"@, "skipped"@]
}

/// The fields of counts of steps.
pub open spec fn step_summary_fields(v: StepSummary) -> Seq<Field> {
    seq![
        ("total"@, Some(JsonView::Number(NumberView::Int(v.total as int)))),
        ("passed"@, Some(JsonView::Number(NumberView::Int(v.passed as int)))),
        ("failed"@, Some(JsonView::Number(NumberView::Int(v.failed as int)))),
        ("error"@, Some(JsonView::Number(NumberView::Int(v.error as int)))),
        ("skipped"@, Some(JsonView::Number(NumberView::Int(v.skipped as int)))),
    ]
}

/// Counts of steps as JSON.
pub open spec fn step_summary_json(v: StepSummary) -> JsonView {
    JsonView::Object(present(step_summary_fields(v)))
}

/// Counts of steps as JSON.
pub fn step_summary_to_json(v: StepSummary) -> (r: Json)
    ensures
        r@ == step_summary_json(v),
{
    let ghost fs = step_summary_fields(v);
    let mut out: Vec<Member> = Vec::new();
    assert(views(out@) =~= present(fs.take(0)));
    push_field(&mut out, "total", number_value(v.total as u64));
    proof {
        lemma_present(fs, 0);
    }
    push_field(&mut out, "passed", number_value(v.passed as u64));
    proof {
        lemma_present(fs, 1);
    }
    push_field(&mut out, "failed", number_value(v.failed as u64));
    proof {
        lemma_present(fs, 2);
    }
    push_field(&mut out, "error", number_value(v.error as u64));
    proof {
        lemma_present(fs, 3);
    }
    push_field(&mut out, "skipped", number_value(v.skipped as u64));
    proof {
        lemma_present(fs, 4);
    }
    let r: Json = Json::Object(out);
    proof {
        lemma_view(r);
    }
    r
}

/// Counts of steps that JSON gives.
pub open spec fn step_summary_read(v: JsonView) -> Option<StepSummary> {
    match fields_in(v, step_summary_names()) {
        Some(m) => {
            let total = number_in(lookup(m, "total"@), u32::MAX as nat);
            let passed = number_in(lookup(m, "passed"@), u32::MAX as nat);
            let failed = number_in(lookup(m, "failed"@), u32::MAX as nat);
            let error = number_in(lookup(m, "error"@), u32::MAX as nat);
            let skipped = number_in(lookup(m, "skipped"@), u32::MAX as nat);
            if total is Some && passed is Some && failed is Some && error is Some && skipped is Some {
                Some(
                    StepSummary {
                        total: total->0 as u32,
                        passed: passed->0 as u32,
                        failed: failed->0 as u32,
                        error: error->0 as u32,
                        skipped: skipped->0 as u32,
                    },
                )
            } else {
                None
            }
        },
        None => None,
    }
}

/// Counts of steps that JSON gives.
pub fn step_summary_from_json(v: &Json) -> (r: Option<StepSummary>)
    ensures
        r == step_summary_read(v@),
{
    let mut names: Vec<&'static str> = Vec::new();
    names.push("total");
    names.push("passed");
    names.push("failed");
    names.push("error");
    names.push("skipped");
    assert(names@.map_values(|s: &'static str| s@) =~= step_summary_names());
    let m: Vec<Member> = match read_fields(v, &names) {
        Some(m) => m,
        None => return None,
    };
    let total: u64 = match read_number(&m, "total", u32::MAX as u64) {
        Some(x) => x,
        None => return None,
    };
    let passed: u64 = match read_number(&m, "passed", u32::MAX as u64) {
        Some(x) => x,
        None => return None,
    };
    let failed: u64 = match read_number(&m, "failed", u32::MAX as u64) {
        Some(x) => x,
        None => return None,
    };
    let error: u64 = match read_number(&m, "error", u32::MAX as u64) {
        Some(x) => x,
        None => return None,
    };
    let skipped: u64 = match read_number(&m, "skipped", u32::MAX as u64) {
        Some(x) => x,
        None => return None,
    };
    Some(
        StepSummary {
            total: total as u32,
            passed: passed as u32,
            failed: failed as u32,
            error: error as u32,
            skipped: skipped as u32,
        },
    )
}

/// Counts of steps in a field; where it is missing everything is zero.
pub open spec fn maybe_step_summary_in(o: Option<JsonView>) -> Option<StepSummary> {
    match o {
        Some(v) => step_summary_read(v),
        None => Some(no_counts().steps),
    }
}

fn read_maybe_step_summary(m: &Vec<Member>, k: &str) -> (r: Option<StepSummary>)
    ensures
        r == maybe_step_summary_in(lookup(views(m@), k@)),
{
    match member(m, k) {
        Some(v) => step_summary_from_json(v),
        None => Some(StepSummary::default()),
    }
}

proof fn lemma_step_summary_names(v: StepSummary)
    ensures
        names_differ(step_summary_fields(v)),
{
    let fs = step_summary_fields(v);
    lemma_word_total();
    lemma_word_passed();
    lemma_word_failed();
    lemma_word_error();
    lemma_word_skipped();
}

proof fn lemma_step_summary(v: StepSummary, d: nat)
    requires
        d >= 1,
    ensures
        step_summary_read(step_summary_json(v)) == Some(v),
        settled(step_summary_json(v), d),
{
    let fs = step_summary_fields(v);
    lemma_step_summary_names(v);
    lemma_field(fs, 0);
    lemma_field(fs, 1);
    lemma_field(fs, 2);
    lemma_field(fs, 3);
    lemma_field(fs, 4);
    lemma_record_settled(fs, d);
}

// ---- counts -----------------------------------------------------------------------------

/// The names of the fields of counts.
pub open spec fn run_summary_names() -> Seq<Seq<char>> {
    seq!["total"@, "passed"@, "failed"@, "error"@, "skipped"@, "assertions"@, "steps"@]
}

/// The fields of counts.
pub open spec fn run_summary_fields(v: RunSummary) -> Seq<Field> {
    seq![
        ("total"@, Some(JsonView::Number(NumberView::Int(v.total as int)))),
        ("passed"@, Some(JsonView::Number(NumberView::Int(v.passed as int)))),
        ("failed"@, Some(JsonView::Number(NumberView::Int(v.failed as int)))),
        ("error"@, Some(JsonView::Number(NumberView::Int(v.error as int)))),
        ("skipped"@, Some(JsonView::Number(NumberView::Int(v.skipped as int)))),
        ("assertions"@, Some(assert_summary_json(v.assertions))),
        ("steps"@, Some(step_summary_json(v.steps))),
    ]
}

/// Counts as JSON.
pub open spec fn run_summary_json(v: RunSummary) -> JsonView {
    JsonView::Object(present(run_summary_fields(v)))
}

/// Counts as JSON.
pub fn run_summary_to_json(v: RunSummary) -> (r: Json)
    ensures
        r@ == run_summary_json(v),
{
    let ghost fs = run_summary_fields(v);
    let mut out: Vec<Member> = Vec::new();
    assert(views(out@) =~= present(fs.take(0)));
    push_field(&mut out, "total", number_value(v.total as u64));
    proof {
        lemma_present(fs, 0);
    }
    push_field(&mut out, "passed", number_value(v.passed as u64));
    proof {
        lemma_present(fs, 1);
    }
    push_field(&mut out, "failed", number_value(v.failed as u64));
    proof {
        lemma_present(fs, 2);
    }
    push_field(&mut out, "error", number_value(v.error as u64));
    proof {
        lemma_present(fs, 3);
    }
    push_field(&mut out, "skipped", number_value(v.skipped as u64));
    proof {
        lemma_present(fs, 4);
    }
    push_field(&mut out, "assertions", assert_summary_to_json(v.assertions));
    proof {
        lemma_present(fs, 5);
    }
    push_field(&mut out, "steps", step_summary_to_json(v.steps));
    proof {
        lemma_present(fs, 6);
    }
    let r: Json = Json::Object(out);
    proof {
        lemma_view(r);
    }
    r
}

/// Counts that JSON gives.
pub open spec fn run_summary_read(v: JsonView) -> Option<RunSummary> {
    match fields_in(v, run_summary_names()) {
        Some(m) => {
            let total = number_in(lookup(m, "total"@), u32::MAX as nat);
            let passed = number_in(lookup(m, "passed"@), u32::MAX as nat);
            let failed = number_in(lookup(m, "failed"@), u32::MAX as nat);
            let error = number_in(lookup(m, "error"@), u32::MAX as nat);
            let skipped = number_in(lookup(m, "skipped"@), u32::MAX as nat);
            let assertions = assert_summary_in(lookup(m, "assertions"@));
            let steps = maybe_step_summary_in(lookup(m, "steps"@));
            if total is Some && passed is Some && failed is Some && error is Some && skipped is Some && assertions is Some && steps is Some {
                Some(
                    RunSummary {
                        total: total->0 as u32,
                        passed: passed->0 as u32,
                        failed: failed->0 as u32,
                        error: error->0 as u32,
                        skipped: skipped->0 as u32,
                        assertions: assertions->0,
                        steps: steps->0,
                    },
                )
            } else {
                None
            }
        },
        None => None,
    }
}

/// Counts that JSON gives.
pub fn run_summary_from_json(v: &Json) -> (r: Option<RunSummary>)
    ensures
        r == run_summary_read(v@),
{
    let mut names: Vec<&'static str> = Vec::new();
    names.push("total");
    names.push("passed");
    names.push("failed");
    names.push("error");
    names.push("skipped");
    names.push("assertions");
    names.push("steps");
    assert(names@.map_values(|s: &'static str| s@) =~= run_summary_names());
    let m: Vec<Member> = match read_fields(v, &names) {
        Some(m) => m,
        None => return None,
    };
    let total: u64 = match read_number(&m, "total", u32::MAX as u64) {
        Some(x) => x,
        None => return None,
    };
    let passed: u64 = match read_number(&m, "passed", u32::MAX as u64) {
        Some(x) => x,
        None => return None,
    };
    let failed: u64 = match read_number(&m, "failed", u32::MAX as u64) {
        Some(x) => x,
        None => return None,
    };
    let error: u64 = match read_number(&m, "error", u32::MAX as u64) {
        Some(x) => x,
        None => return None,
    };
    let skipped: u64 = match read_number(&m, "skipped", u32::MAX as u64) {
        Some(x) => x,
        None => return None,
    };
    let assertions: AssertSummary = match read_assert_summary(&m, "assertions") {
        Some(x) => x,
        None => return None,
    };
    let steps: StepSummary = match read_maybe_step_summary(&m, "steps") {
        Some(x) => x,
        None => return None,
    };
    Some(
        RunSummary {
            total: total as u32,
            passed: passed as u32,
            failed: failed as u32,
            error: error as u32,
            skipped: skipped as u32,
            assertions,
            steps,
        },
    )
}

/// Counts in a field.
pub open spec fn run_summary_in(o: Option<JsonView>) -> Option<RunSummary> {
    match o {
        Some(v) => run_summary_read(v),
        None => None,
    }
}

fn read_run_summary(m: &Vec<Member>, k: &str) -> (r: Option<RunSummary>)
    ensures
        r == run_summary_in(lookup(views(m@), k@)),
{
    match member(m, k) {
        Some(v) => run_summary_from_json(v),
        None => None,
    }
}

proof fn lemma_run_summary_names(v: RunSummary)
    ensures
        names_differ(run_summary_fields(v)),
{
    let fs = run_summary_fields(v);
    lemma_word_total();
    lemma_word_passed();
    lemma_word_failed();
    lemma_word_error();
    lemma_word_skipped();
    lemma_word_assertions();
    lemma_word_steps();
}

proof fn lemma_run_summary(v: RunSummary, d: nat)
    requires
        d >= 2,
    ensures
        run_summary_read(run_summary_json(v)) == Some(v),
        settled(run_summary_json(v), d),
{
    let fs = run_summary_fields(v);
    lemma_run_summary_names(v);
    lemma_field(fs, 0);
    lemma_field(fs, 1);
    lemma_field(fs, 2);
    lemma_field(fs, 3);
    lemma_field(fs, 4);
    lemma_field(fs, 5);
    lemma_field(fs, 6);
    lemma_assert_summary(v.assertions, (d - 1) as nat);
    lemma_step_summary(v.steps, (d - 1) as nat);
    lemma_record_settled(fs, d);
}

// ---- how a run was made -----------------------------------------------------------------

/// The names of the fields of how a run was made.
pub open spec fn options_names() -> Seq<Seq<char>> {
    seq!["targets"@, "recursive"@, "environment"@, "concurrency"@, "stopOnFailure"@, "maxBodyBytes"@, "continueOnAssertionFailure"@]
}

/// The fields of how a run was made.
pub open spec fn options_fields(v: RunOptionsView) -> Seq<Field> {
    seq![
        ("targets"@, Some(texts_json(v.targets))),
        ("recursive"@, Some(JsonView::Bool(v.recursive))),
        ("environment"@, Some(JsonView::Str(v.environment))),
        ("concurrency"@, Some(JsonView::Number(NumberView::Int(v.concurrency as int)))),
        ("stopOnFailure"@, Some(JsonView::Bool(v.stop_on_failure))),
        ("maxBodyBytes"@, Some(JsonView::Number(NumberView::Int(v.max_body_bytes as int)))),
        ("continueOnAssertionFailure"@, Some(JsonView::Bool(v.continue_on_assertion_failure))),
    ]
}

/// How a run was made as JSON.
pub open spec fn options_json(v: RunOptionsView) -> JsonView {
    JsonView::Object(present(options_fields(v)))
}

/// How a run was made as JSON.
pub fn options_to_json(v: &RunOptions) -> (r: Json)
    ensures
        r@ == options_json(v@),
{
    let ghost fs = options_fields(v@);
    let mut out: Vec<Member> = Vec::new();
    assert(views(out@) =~= present(fs.take(0)));
    push_field(&mut out, "targets", texts_value(&v.targets));
    proof {
        lemma_present(fs, 0);
    }
    push_field(&mut out, "recursive", Json::Bool(v.recursive));
    proof {
        lemma_present(fs, 1);
    }
    push_field(&mut out, "environment", text_value(v.environment.as_str()));
    proof {
        lemma_present(fs, 2);
    }
    push_field(&mut out, "concurrency", number_value(v.concurrency as u64));
    proof {
        lemma_present(fs, 3);
    }
    push_field(&mut out, "stopOnFailure", Json::Bool(v.stop_on_failure));
    proof {
        lemma_present(fs, 4);
    }
    push_field(&mut out, "maxBodyBytes", number_value(v.max_body_bytes as u64));
    proof {
        lemma_present(fs, 5);
    }
    push_field(&mut out, "continueOnAssertionFailure", Json::Bool(v.continue_on_assertion_failure));
    proof {
        lemma_present(fs, 6);
    }
    let r: Json = Json::Object(out);
    proof {
        lemma_view(r);
    }
    r
}

/// How a run was made that JSON gives.
pub open spec fn options_read(v: JsonView) -> Option<RunOptionsView> {
    match fields_in(v, options_names()) {
        Some(m) => {
            let targets = list_in(lookup(m, "targets"@), text_reader());
            let recursive = flag_in(lookup(m, "recursive"@));
            let environment = text_in(lookup(m, "environment"@));
            let concurrency = number_in(lookup(m, "concurrency"@), u32::MAX as nat);
            let stop_on_failure = flag_in(lookup(m, "stopOnFailure"@));
            let max_body_bytes = number_in(lookup(m, "maxBodyBytes"@), usize::MAX as nat);
            let continue_on_assertion_failure = maybe_flag_in(lookup(m, "continueOnAssertionFailure"@));
            if targets is Some && recursive is Some && environment is Some && concurrency is Some && stop_on_failure is Some && max_body_bytes is Some && continue_on_assertion_failure is Some {
                Some(
                    RunOptionsView {
                        targets: targets->0,
                        recursive: recursive->0,
                        environment: environment->0,
                        concurrency: concurrency->0 as u32,
                        stop_on_failure: stop_on_failure->0,
                        max_body_bytes: max_body_bytes->0 as usize,
                        continue_on_assertion_failure: continue_on_assertion_failure->0,
                    },
                )
            } else {
                None
            }
        },
        None => None,
    }
}

/// How a run was made that JSON gives.
pub fn options_from_json(v: &Json) -> (r: Option<RunOptions>)
    ensures
        opt_view(r) == options_read(v@),
{
    let mut names: Vec<&'static str> = Vec::new();
    names.push("targets");
    names.push("recursive");
    names.push("environment");
    names.push("concurrency");
    names.push("stopOnFailure");
    names.push("maxBodyBytes");
    names.push("continueOnAssertionFailure");
    assert(names@.map_values(|s: &'static str| s@) =~= options_names());
    let m: Vec<Member> = match read_fields(v, &names) {
        Some(m) => m,
        None => return None,
    };
    let targets: Vec<String> = match read_texts(&m, "targets") {
        Some(x) => x,
        None => return None,
    };
    let recursive: bool = match read_flag(&m, "recursive") {
        Some(x) => x,
        None => return None,
    };
    let environment: String = match read_text(&m, "environment") {
        Some(x) => x,
        None => return None,
    };
    let concurrency: u64 = match read_number(&m, "concurrency", u32::MAX as u64) {
        Some(x) => x,
        None => return None,
    };
    let stop_on_failure: bool = match read_flag(&m, "stopOnFailure") {
        Some(x) => x,
        None => return None,
    };
    let max_body_bytes: u64 = match read_number(&m, "maxBodyBytes", usize::MAX as u64) {
        Some(x) => x,
        None => return None,
    };
    let continue_on_assertion_failure: bool = match read_maybe_flag(&m, "continueOnAssertionFailure") {
        Some(x) => x,
        None => return None,
    };
    Some(
        RunOptions {
            targets,
            recursive,
            environment,
            concurrency: concurrency as u32,
            stop_on_failure,
            max_body_bytes: max_body_bytes as usize,
            continue_on_assertion_failure,
        },
    )
}

/// How a run was made in a field.
pub open spec fn options_in(o: Option<JsonView>) -> Option<RunOptionsView> {
    match o {
        Some(v) => options_read(v),
        None => None,
    }
}

fn read_options(m: &Vec<Member>, k: &str) -> (r: Option<RunOptions>)
    ensures
        opt_view(r) == options_in(lookup(views(m@), k@)),
{
    match member(m, k) {
        Some(v) => options_from_json(v),
        None => None,
    }
}

proof fn lemma_options_names(v: RunOptionsView)
    ensures
        names_differ(options_fields(v)),
{
    let fs = options_fields(v);
    lemma_word_targets();
    lemma_word_recursive();
    lemma_word_environment();
    lemma_word_concurrency();
    lemma_word_stop_on_failure();
    lemma_word_max_body_bytes();
    lemma_word_continue_on_assertion_failure();
}

proof fn lemma_options(v: RunOptionsView, d: nat)
    requires
        d >= 2,
    ensures
        options_read(options_json(v)) == Some(v),
        settled(options_json(v), d),
{
    let fs = options_fields(v);
    lemma_options_names(v);
    lemma_field(fs, 0);
    lemma_field(fs, 1);
    lemma_field(fs, 2);
    lemma_field(fs, 3);
    lemma_field(fs, 4);
    lemma_field(fs, 5);
    lemma_field(fs, 6);
    lemma_texts(v.targets, (d - 1) as nat);
    lemma_record_settled(fs, d);
}

// ---- a tool -----------------------------------------------------------------------------

/// The names of the fields of a tool.
pub open spec fn tool_names() -> Seq<Seq<char>> {
    seq!["name"@, "version"@]
}

/// The fields of a tool.
pub open spec fn tool_fields(v: ToolInfoView) -> Seq<Field> {
    seq![
        ("name"@, Some(JsonView::Str(v.name))),
        ("version"@, Some(JsonView::Str(v.version))),
    ]
}

/// A tool as JSON.
pub open spec fn tool_json(v: ToolInfoView) -> JsonView {
    JsonView::Object(present(tool_fields(v)))
}

/// A tool as JSON.
pub fn tool_to_json(v: &ToolInfo) -> (r: Json)
    ensures
        r@ == tool_json(v@),
{
    let ghost fs = tool_fields(v@);
    let mut out: Vec<Member> = Vec::new();
    assert(views(out@) =~= present(fs.take(0)));
    push_field(&mut out, "name", text_value(v.name.as_str()));
    proof {
        lemma_present(fs, 0);
    }
    push_field(&mut out, "version", text_value(v.version.as_str()));
    proof {
        lemma_present(fs, 1);
    }
    let r: Json = Json::Object(out);
    proof {
        lemma_view(r);
    }
    r
}

/// A tool that JSON gives.
pub open spec fn tool_read(v: JsonView) -> Option<ToolInfoView> {
    match fields_in(v, tool_names()) {
        Some(m) => {
            let name = text_in(lookup(m, "name"@));
            let version = text_in(lookup(m, "version"@));
            if name is Some && version is Some {
                Some(
                    ToolInfoView {
                        name: name->0,
                        version: version->0,
                    },
                )
            } else {
                None
            }
        },
        None => None,
    }
}

/// A tool that JSON gives.
pub fn tool_from_json(v: &Json) -> (r: Option<ToolInfo>)
    ensures
        opt_view(r) == tool_read(v@),
{
    let mut names: Vec<&'static str> = Vec::new();
    names.push("name");
    names.push("version");
    assert(names@.map_values(|s: &'static str| s@) =~= tool_names());
    let m: Vec<Member> = match read_fields(v, &names) {
        Some(m) => m,
        None => return None,
    };
    let name: String = match read_text(&m, "name") {
        Some(x) => x,
        None => return None,
    };
    let version: String = match read_text(&m, "version") {
        Some(x) => x,
        None => return None,
    };
    Some(
        ToolInfo {
            name,
            version,
        },
    )
}

/// A tool in a field.
pub open spec fn tool_in(o: Option<JsonView>) -> Option<ToolInfoView> {
    match o {
        Some(v) => tool_read(v),
        None => None,
    }
}

fn read_tool(m: &Vec<Member>, k: &str) -> (r: Option<ToolInfo>)
    ensures
        opt_view(r) == tool_in(lookup(views(m@), k@)),
{
    match member(m, k) {
        Some(v) => tool_from_json(v),
        None => None,
    }
}

proof fn lemma_tool_names(v: ToolInfoView)
    ensures
        names_differ(tool_fields(v)),
{
    let fs = tool_fields(v);
    lemma_word_name();
    lemma_word_version();
}

proof fn lemma_tool(v: ToolInfoView, d: nat)
    requires
        d >= 1,
    ensures
        tool_read(tool_json(v)) == Some(v),
        settled(tool_json(v), d),
{
    let fs = tool_fields(v);
    lemma_tool_names(v);
    lemma_field(fs, 0);
    lemma_field(fs, 1);
    lemma_record_settled(fs, d);
}

// ---- a workspace ------------------------------------------------------------------------

/// The names of the fields of a workspace.
pub open spec fn workspace_names() -> Seq<Seq<char>> {
    seq!["name"@, "root"@]
}

/// The fields of a workspace.
pub open spec fn workspace_fields(v: WorkspaceInfoView) -> Seq<Field> {
    seq![
        ("name"@, Some(JsonView::Str(v.name))),
        ("root"@, Some(JsonView::Str(v.root))),
    ]
}

/// A workspace as JSON.
pub open spec fn workspace_json(v: WorkspaceInfoView) -> JsonView {
    JsonView::Object(present(workspace_fields(v)))
}

/// A workspace as JSON.
pub fn workspace_to_json(v: &WorkspaceInfo) -> (r: Json)
    ensures
        r@ == workspace_json(v@),
{
    let ghost fs = workspace_fields(v@);
    let mut out: Vec<Member> = Vec::new();
    assert(views(out@) =~= present(fs.take(0)));
    push_field(&mut out, "name", text_value(v.name.as_str()));
    proof {
        lemma_present(fs, 0);
    }
    push_field(&mut out, "root", text_value(v.root.as_str()));
    proof {
        lemma_present(fs, 1);
    }
    let r: Json = Json::Object(out);
    proof {
        lemma_view(r);
    }
    r
}

/// A workspace that JSON gives.
pub open spec fn workspace_read(v: JsonView) -> Option<WorkspaceInfoView> {
    match fields_in(v, workspace_names()) {
        Some(m) => {
            let name = text_in(lookup(m, "name"@));
            let root = text_in(lookup(m, "root"@));
            if name is Some && root is Some {
                Some(
                    WorkspaceInfoView {
                        name: name->0,
                        root: root->0,
                    },
                )
            } else {
                None
            }
        },
        None => None,
    }
}

/// A workspace that JSON gives.
pub fn workspace_from_json(v: &Json) -> (r: Option<WorkspaceInfo>)
    ensures
        opt_view(r) == workspace_read(v@),
{
    let mut names: Vec<&'static str> = Vec::new();
    names.push("name");
    names.push("root");
    assert(names@.map_values(|s: &'static str| s@) =~= workspace_names());
    let m: Vec<Member> = match read_fields(v, &names) {
        Some(m) => m,
        None => return None,
    };
    let name: String = match read_text(&m, "name") {
        Some(x) => x,
        None => return None,
    };
    let root: String = match read_text(&m, "root") {
        Some(x) => x,
        None => return None,
    };
    Some(
        WorkspaceInfo {
            name,
            root,
        },
    )
}

/// A workspace in a field.
pub open spec fn workspace_in(o: Option<JsonView>) -> Option<WorkspaceInfoView> {
    match o {
        Some(v) => workspace_read(v),
        None => None,
    }
}

fn read_workspace(m: &Vec<Member>, k: &str) -> (r: Option<WorkspaceInfo>)
    ensures
        opt_view(r) == workspace_in(lookup(views(m@), k@)),
{
    match member(m, k) {
        Some(v) => workspace_from_json(v),
        None => None,
    }
}

proof fn lemma_workspace_names(v: WorkspaceInfoView)
    ensures
        names_differ(workspace_fields(v)),
{
    let fs = workspace_fields(v);
    lemma_word_name();
    lemma_word_root();
}

proof fn lemma_workspace(v: WorkspaceInfoView, d: nat)
    requires
        d >= 1,
    ensures
        workspace_read(workspace_json(v)) == Some(v),
        settled(workspace_json(v), d),
{
    let fs = workspace_fields(v);
    lemma_workspace_names(v);
    lemma_field(fs, 0);
    lemma_field(fs, 1);
    lemma_record_settled(fs, d);
}

// ---- an environment ---------------------------------------------------------------------

/// The names of the fields of an environment.
pub open spec fn environment_names() -> Seq<Seq<char>> {
    seq!["name"@, "vars"@]
}

/// The fields of an environment.
pub open spec fn environment_fields(v: EnvironmentInfoView) -> Seq<Field> {
    seq![
        ("name"@, Some(JsonView::Str(v.name))),
        ("vars"@, Some(table_json(v.vars))),
    ]
}

/// An environment as JSON.
pub open spec fn environment_json(v: EnvironmentInfoView) -> JsonView {
    JsonView::Object(present(environment_fields(v)))
}

/// An environment as JSON.
pub fn environment_to_json(v: &EnvironmentInfo) -> (r: Json)
    ensures
        r@ == environment_json(v@),
{
    let ghost fs = environment_fields(v@);
    let mut out: Vec<Member> = Vec::new();
    assert(views(out@) =~= present(fs.take(0)));
    push_field(&mut out, "name", text_value(v.name.as_str()));
    proof {
        lemma_present(fs, 0);
    }
    push_field(&mut out, "vars", table_value(&v.vars));
    proof {
        lemma_present(fs, 1);
    }
    let r: Json = Json::Object(out);
    proof {
        lemma_view(r);
    }
    r
}

/// An environment that JSON gives.
pub open spec fn environment_read(v: JsonView) -> Option<EnvironmentInfoView> {
    match fields_in(v, environment_names()) {
        Some(m) => {
            let name = text_in(lookup(m, "name"@));
            let vars = table_in(lookup(m, "vars"@));
            if name is Some && vars is Some {
                Some(
                    EnvironmentInfoView {
                        name: name->0,
                        vars: vars->0,
                    },
                )
            } else {
                None
            }
        },
        None => None,
    }
}

/// An environment that JSON gives.
pub fn environment_from_json(v: &Json) -> (r: Option<EnvironmentInfo>)
    ensures
        opt_view(r) == environment_read(v@),
{
    let mut names: Vec<&'static str> = Vec::new();
    names.push("name");
    names.push("vars");
    assert(names@.map_values(|s: &'static str| s@) =~= environment_names());
    let m: Vec<Member> = match read_fields(v, &names) {
        Some(m) => m,
        None => return None,
    };
    let name: String = match read_text(&m, "name") {
        Some(x) => x,
        None => return None,
    };
    let vars: SortedMap<String> = match read_table(&m, "vars") {
        Some(x) => x,
        None => return None,
    };
    Some(
        EnvironmentInfo {
            name,
            vars,
        },
    )
}

/// An environment in a field.
pub open spec fn environment_in(o: Option<JsonView>) -> Option<EnvironmentInfoView> {
    match o {
        Some(v) => environment_read(v),
        None => None,
    }
}

fn read_environment(m: &Vec<Member>, k: &str) -> (r: Option<EnvironmentInfo>)
    ensures
        opt_view(r) == environment_in(lookup(views(m@), k@)),
{
    match member(m, k) {
        Some(v) => environment_from_json(v),
        None => None,
    }
}

/// Whether the report of an environment says all of it.
pub open spec fn environment_kept(v: EnvironmentInfoView) -> bool {
    sorted(v.vars)
}

proof fn lemma_environment_names(v: EnvironmentInfoView)
    ensures
        names_differ(environment_fields(v)),
{
    let fs = environment_fields(v);
    lemma_word_name();
    lemma_word_vars();
}

proof fn lemma_environment(v: EnvironmentInfoView, d: nat)
    requires
        environment_kept(v),
        d >= 2,
    ensures
        environment_read(environment_json(v)) == Some(v),
        settled(environment_json(v), d),
{
    let fs = environment_fields(v);
    lemma_environment_names(v);
    lemma_field(fs, 0);
    lemma_field(fs, 1);
    lemma_table(v.vars, (d - 1) as nat);
    lemma_record_settled(fs, d);
}

// ---- a report ---------------------------------------------------------------------------

/// The names of the fields of a report.
pub open spec fn report_names() -> Seq<Seq<char>> {
    seq!["schemaVersion"@, "tool"@, "startedAt"@, "finishedAt"@, "durationMs"@, "status"@, "workspace"@, "environment"@, "options"@, "summary"@, "cases"@]
}

/// The fields of a report.
pub open spec fn report_fields(v: RunReportView) -> Seq<Field> {
    seq![
        ("schemaVersion"@, Some(JsonView::Number(NumberView::Int(v.schema_version as int)))),
        ("tool"@, Some(tool_json(v.tool))),
        ("startedAt"@, Some(JsonView::Str(v.started_at))),
        ("finishedAt"@, Some(text_or_null(v.finished_at))),
        ("durationMs"@, Some(JsonView::Number(NumberView::Int(v.duration_ms as int)))),
        ("status"@, Some(JsonView::Str(run_status_word(v.status)))),
        ("workspace"@, Some(workspace_json(v.workspace))),
        ("environment"@, Some(environment_json(v.environment))),
        ("options"@, Some(options_json(v.options))),
        ("summary"@, Some(run_summary_json(v.summary))),
        ("cases"@, Some(JsonView::Array(v.cases.map_values(case_writer())))),
    ]
}

/// A report as JSON.
pub open spec fn report_json(v: RunReportView) -> JsonView {
    JsonView::Object(present(report_fields(v)))
}

/// A report as JSON.
pub fn report_to_json(v: &RunReport) -> (r: Json)
    ensures
        r@ == report_json(v@),
{
    let ghost fs = report_fields(v@);
    let mut out: Vec<Member> = Vec::new();
    assert(views(out@) =~= present(fs.take(0)));
    push_field(&mut out, "schemaVersion", number_value(v.schema_version as u64));
    proof {
        lemma_present(fs, 0);
    }
    push_field(&mut out, "tool", tool_to_json(&v.tool));
    proof {
        lemma_present(fs, 1);
    }
    push_field(&mut out, "startedAt", text_value(v.started_at.as_str()));
    proof {
        lemma_present(fs, 2);
    }
    push_field(&mut out, "finishedAt", text_or_none(&v.finished_at));
    proof {
        lemma_present(fs, 3);
    }
    push_field(&mut out, "durationMs", number_value(v.duration_ms));
    proof {
        lemma_present(fs, 4);
    }
    push_field(&mut out, "status", text_value(run_status_name(v.status)));
    proof {
        lemma_present(fs, 5);
    }
    push_field(&mut out, "workspace", workspace_to_json(&v.workspace));
    proof {
        lemma_present(fs, 6);
    }
    push_field(&mut out, "environment", environment_to_json(&v.environment));
    proof {
        lemma_present(fs, 7);
    }
    push_field(&mut out, "options", options_to_json(&v.options));
    proof {
        lemma_present(fs, 8);
    }
    push_field(&mut out, "summary", run_summary_to_json(v.summary));
    proof {
        lemma_present(fs, 9);
    }
    push_field(&mut out, "cases", cases_to_json(&v.cases));
    proof {
        lemma_present(fs, 10);
    }
    let r: Json = Json::Object(out);
    proof {
        lemma_view(r);
    }
    r
}

/// A report that JSON gives.
pub open spec fn report_read(v: JsonView) -> Option<RunReportView> {
    match fields_in(v, report_names()) {
        Some(m) => {
            let schema_version = number_in(lookup(m, "schemaVersion"@), u32::MAX as nat);
            let tool = tool_in(lookup(m, "tool"@));
            let started_at = text_in(lookup(m, "startedAt"@));
            let finished_at = maybe_text_in(lookup(m, "finishedAt"@));
            let duration_ms = number_in(lookup(m, "durationMs"@), u64::MAX as nat);
            let status = run_status_in(lookup(m, "status"@));
            let workspace = workspace_in(lookup(m, "workspace"@));
            let environment = environment_in(lookup(m, "environment"@));
            let options = options_in(lookup(m, "options"@));
            let summary = run_summary_in(lookup(m, "summary"@));
            let cases = list_in(lookup(m, "cases"@), case_reader());
            if schema_version is Some && tool is Some && started_at is Some && finished_at is Some && duration_ms is Some && status is Some && workspace is Some && environment is Some && options is Some && summary is Some && cases is Some {
                Some(
                    RunReportView {
                        schema_version: schema_version->0 as u32,
                        tool: tool->0,
                        started_at: started_at->0,
                        finished_at: finished_at->0,
                        duration_ms: duration_ms->0 as u64,
                        status: status->0,
                        workspace: workspace->0,
                        environment: environment->0,
                        options: options->0,
                        summary: summary->0,
                        cases: cases->0,
                    },
                )
            } else {
                None
            }
        },
        None => None,
    }
}

/// A report that JSON gives.
pub fn report_from_json(v: &Json) -> (r: Option<RunReport>)
    ensures
        opt_view(r) == report_read(v@),
{
    let mut names: Vec<&'static str> = Vec::new();
    names.push("schemaVersion");
    names.push("tool");
    names.push("startedAt");
    names.push("finishedAt");
    names.push("durationMs");
    names.push("status");
    names.push("workspace");
    names.push("environment");
    names.push("options");
    names.push("summary");
    names.push("cases");
    assert(names@.map_values(|s: &'static str| s@) =~= report_names());
    let m: Vec<Member> = match read_fields(v, &names) {
        Some(m) => m,
        None => return None,
    };
    let schema_version: u64 = match read_number(&m, "schemaVersion", u32::MAX as u64) {
        Some(x) => x,
        None => return None,
    };
    let tool: ToolInfo = match read_tool(&m, "tool") {
        Some(x) => x,
        None => return None,
    };
    let started_at: String = match read_text(&m, "startedAt") {
        Some(x) => x,
        None => return None,
    };
    let finished_at: Option<String> = match read_maybe_text(&m, "finishedAt") {
        Some(x) => x,
        None => return None,
    };
    let duration_ms: u64 = match read_number(&m, "durationMs", u64::MAX) {
        Some(x) => x,
        None => return None,
    };
    let status: RunStatus = match read_run_status(&m, "status") {
        Some(x) => x,
        None => return None,
    };
    let workspace: WorkspaceInfo = match read_workspace(&m, "workspace") {
        Some(x) => x,
        None => return None,
    };
    let environment: EnvironmentInfo = match read_environment(&m, "environment") {
        Some(x) => x,
        None => return None,
    };
    let options: RunOptions = match read_options(&m, "options") {
        Some(x) => x,
        None => return None,
    };
    let summary: RunSummary = match read_run_summary(&m, "summary") {
        Some(x) => x,
        None => return None,
    };
    let cases: Vec<CaseResult> = match read_cases(&m, "cases") {
        Some(x) => x,
        None => return None,
    };
    Some(
        RunReport {
            schema_version: schema_version as u32,
            tool,
            started_at,
            finished_at,
            duration_ms,
            status,
            workspace,
            environment,
            options,
            summary,
            cases,
        },
    )
}

/// Whether a report can be read back in full.
pub open spec fn report_kept(v: RunReportView) -> bool {
    environment_kept(v.environment) && forall|i: int|
        0 <= i < v.cases.len() ==> case_kept(#[trigger] v.cases[i])
}

proof fn lemma_report_names(v: RunReportView)
    ensures
        names_differ(report_fields(v)),
{
    let fs = report_fields(v);
    lemma_word_schema_version();
    lemma_word_tool();
    lemma_word_started_at();
    lemma_word_finished_at();
    lemma_word_duration_ms();
    lemma_word_status();
    lemma_word_workspace();
    lemma_word_environment();
    lemma_word_options();
    lemma_word_summary();
    lemma_word_cases();
}

/// A report that is written as JSON is read back as it was.
pub proof fn law_report_read_back(v: RunReportView)
    requires
        report_kept(v),
    ensures
        report_read(report_json(v)) == Some(v),
        settled(report_json(v), MAX_DEPTH as nat),
{
    let fs = report_fields(v);
    lemma_report_names(v);
    lemma_field(fs, 0);
    lemma_field(fs, 1);
    lemma_field(fs, 2);
    lemma_field(fs, 3);
    lemma_field(fs, 4);
    lemma_field(fs, 5);
    lemma_field(fs, 6);
    lemma_field(fs, 7);
    lemma_field(fs, 8);
    lemma_field(fs, 9);
    lemma_field(fs, 10);
    lemma_tool(v.tool, 126);
    lemma_run_status(v.status);
    lemma_workspace(v.workspace, 126);
    lemma_environment(v.environment, 126);
    lemma_options(v.options, 126);
    lemma_run_summary(v.summary, 126);
    assert forall|i: int| 0 <= i < v.cases.len() implies case_reader()(case_writer()(#[trigger] v.cases[i]))
        == Some(v.cases[i]) && settled(case_json(v.cases[i]), 125) by {
        lemma_case(v.cases[i]);
    }
    lemma_all_in(v.cases, case_writer(), case_reader());
    let list_cases = v.cases.map_values(case_writer());
    assert forall|i: int| 0 <= i < list_cases.len() implies settled(#[trigger] list_cases[i], 125) by {
        assert(list_cases[i] == case_json(v.cases[i]));
    }
    assert(settled(JsonView::Array(list_cases), 126));
    lemma_record_settled(fs, 127);
}

/// Whether a value is made of texts, truth values and integers, in at most `d` levels of arrays
/// and of objects with distinct names.
pub open spec fn is_integral(v: JsonView, d: nat) -> bool
    decreases v,
{
    match v {
        JsonView::Number(NumberView::Real(_)) => false,
        JsonView::Array(a) => d > 0 && forall|i: int|
            0 <= i < a.len() ==> is_integral(#[trigger] a[i], (d - 1) as nat),
        JsonView::Object(m) => d > 0 && distinct(m) && forall|i: int|
            0 <= i < m.len() ==> is_integral((#[trigger] m[i]).1, (d - 1) as nat),
        _ => true,
    }
}

proof fn lemma_integral_is_settled(v: JsonView, d: nat, e: nat)
    requires
        is_integral(v, d),
        d <= e,
    ensures
        settled(v, e),
    decreases v,
{
    match v {
        JsonView::Array(a) => {
            assert forall|i: int| 0 <= i < a.len() implies settled(#[trigger] a[i], (e - 1) as nat) by {
                lemma_integral_is_settled(a[i], (d - 1) as nat, (e - 1) as nat);
            }
        },
        JsonView::Object(m) => {
            assert forall|i: int| 0 <= i < m.len() implies settled((#[trigger] m[i]).1, (e - 1) as nat) by {
                lemma_integral_is_settled(m[i].1, (d - 1) as nat, (e - 1) as nat);
            }
        },
        _ => {},
    }
}

/// Whether the values that the steps of a report hand on hold no number but integers and are
/// nested at most a hundred levels deep. (Its tables are sorted.)
pub open spec fn report_integral(v: RunReportView) -> bool {
    &&& sorted(v.environment.vars)
    &&& forall|i: int, j: int|
        0 <= i < v.cases.len() && 0 <= j < v.cases[i].steps.len() ==> sorted(
            (#[trigger] v.cases[i].steps[j]).outputs,
        )
    &&& forall|i: int, j: int, k: int|
        0 <= i < v.cases.len() && 0 <= j < v.cases[i].steps.len() && 0 <= k
            < v.cases[i].steps[j].outputs.len() ==> is_integral(
            (#[trigger] v.cases[i].steps[j].outputs[k]).1,
            100,
        )
}

/// A report whose steps hand on integers only can be read back in full.
pub proof fn law_integral_is_kept(v: RunReportView)
    requires
        report_integral(v),
    ensures
        report_kept(v),
{
    assert forall|i: int| 0 <= i < v.cases.len() implies case_kept(#[trigger] v.cases[i]) by {
        assert forall|j: int| 0 <= j < v.cases[i].steps.len() implies step_kept(
            #[trigger] v.cases[i].steps[j],
        ) by {
            let o = v.cases[i].steps[j].outputs;
            assert forall|k: int| 0 <= k < o.len() implies settled((#[trigger] o[k]).1, OUTPUT_DEPTH as nat) by {
                assert(is_integral(v.cases[i].steps[j].outputs[k].1, 100));
                lemma_integral_is_settled(o[k].1, 100, OUTPUT_DEPTH as nat);
            }
        }
    }
}

// ---- laws of what is reported under which name -------------------------------------------

/// A header is reported with its name and its value.
pub proof fn law_pair_reported(v: KvPairView)
    ensures
        member_of(pair_json(v), "key"@) == Some(JsonView::Str(v.key)),
        member_of(pair_json(v), "value"@) == Some(JsonView::Str(v.value)),
{
    let fs = pair_fields(v);
    reveal_strlit("key");
    assert("key"@.len() == 3 && "key"@[0] == 'k' && "key"@[2] == 'y');
    reveal_strlit("value");
    assert("value"@.len() == 5 && "value"@[0] == 'v' && "value"@[4] == 'e');
    assert(names_differ(fs));
    lemma_field(fs, 0);
    lemma_field(fs, 1);
}

/// A body is reported with what is shown of it, its length in bytes, and whether it was cut.
pub proof fn law_body_reported(v: BodyRecordView)
    ensures
        member_of(body_json(v), "preview"@) == Some(
            match v.preview {
                Some(t) => JsonView::Str(t),
                None => JsonView::Null,
            },
        ),
        member_of(body_json(v), "bytes"@)
            == Some(JsonView::Number(NumberView::Int(v.bytes as int))),
        member_of(body_json(v), "truncated"@) == Some(JsonView::Bool(v.truncated)),
{
    let fs = body_fields(v);
    reveal_strlit("preview");
    assert("preview"@.len() == 7 && "preview"@[0] == 'p' && "preview"@[6] == 'w');
    reveal_strlit("bytes");
    assert("bytes"@.len() == 5 && "bytes"@[0] == 'b' && "bytes"@[4] == 's');
    reveal_strlit("truncated");
    assert("truncated"@.len() == 9 && "truncated"@[0] == 't' && "truncated"@[8] == 'd');
    assert(names_differ(fs));
    lemma_field(fs, 0);
    lemma_field(fs, 1);
    lemma_field(fs, 2);
}

/// An assertion is reported with its target, its operator, what was expected, what was found, and
/// whether it holds.
pub proof fn law_assert_record_reported(v: AssertRecordView)
    ensures
        member_of(assert_record_json(v), "target"@) == Some(JsonView::Str(v.target)),
        member_of(assert_record_json(v), "op"@) == Some(JsonView::Str(v.op)),
        member_of(assert_record_json(v), "expected"@) == Some(JsonView::Str(v.expected)),
        member_of(assert_record_json(v), "actual"@) == Some(JsonView::Str(v.actual)),
        member_of(assert_record_json(v), "ok"@) == Some(JsonView::Bool(v.ok)),
{
    let fs = assert_record_fields(v);
    reveal_strlit("target");
    assert("target"@.len() == 6 && "target"@[0] == 't' && "target"@[5] == 't');
    reveal_strlit("op");
    assert("op"@.len() == 2 && "op"@[0] == 'o' && "op"@[1] == 'p');
    reveal_strlit("expected");
    assert("expected"@.len() == 8 && "expected"@[0] == 'e' && "expected"@[7] == 'd');
    reveal_strlit("actual");
    assert("actual"@.len() == 6 && "actual"@[0] == 'a' && "actual"@[5] == 'l');
    reveal_strlit("ok");
    assert("ok"@.len() == 2 && "ok"@[0] == 'o' && "ok"@[1] == 'k');
    assert(names_differ(fs));
    lemma_field(fs, 0);
    lemma_field(fs, 1);
    lemma_field(fs, 2);
    lemma_field(fs, 3);
    lemma_field(fs, 4);
}

/// A request is reported with its method, its address, its headers in order and its body.
pub proof fn law_request_reported(v: RequestRecordView, i: int)
    ensures
        member_of(request_json(v), "method"@) == Some(JsonView::Str(v.method)),
        member_of(request_json(v), "url"@) == Some(JsonView::Str(v.url)),
        lists_at(
            member_of(request_json(v), "headers"@),
            v.headers.len(),
            i,
            pair_json(v.headers[i]),
        ),
        member_of(request_json(v), "body"@) == Some(body_json(v.body)),
{
    let fs = request_fields(v);
    reveal_strlit("method");
    assert("method"@.len() == 6 && "method"@[0] == 'm' && "method"@[5] == 'd');
    reveal_strlit("url");
    assert("url"@.len() == 3 && "url"@[0] == 'u' && "url"@[2] == 'l');
    reveal_strlit("headers");
    assert("headers"@.len() == 7 && "headers"@[0] == 'h' && "headers"@[6] == 's');
    reveal_strlit("body");
    assert("body"@.len() == 4 && "body"@[0] == 'b' && "body"@[3] == 'y');
    assert(names_differ(fs));
    lemma_field(fs, 0);
    lemma_field(fs, 1);
    lemma_field(fs, 2);
    lemma_field(fs, 3);
}

/// An answer is reported with its status and the words for it, its headers in order, its body, and
/// how long it took.
pub proof fn law_response_reported(v: ResponseRecordView, i: int)
    ensures
        member_of(response_json(v), "status"@)
            == Some(JsonView::Number(NumberView::Int(v.status as int))),
        member_of(response_json(v), "statusText"@) == Some(JsonView::Str(v.status_text)),
        lists_at(
            member_of(response_json(v), "headers"@),
            v.headers.len(),
            i,
            pair_json(v.headers[i]),
        ),
        member_of(response_json(v), "body"@) == Some(body_json(v.body)),
        member_of(response_json(v), "elapsedMs"@)
            == Some(JsonView::Number(NumberView::Int(v.elapsed_ms as int))),
{
    let fs = response_fields(v);
    reveal_strlit("status");
    assert("status"@.len() == 6 && "status"@[0] == 's' && "status"@[5] == 's');
    reveal_strlit("statusText");
    assert("statusText"@.len() == 10 && "statusText"@[0] == 's' && "statusText"@[9] == 't');
    reveal_strlit("headers");
    assert("headers"@.len() == 7 && "headers"@[0] == 'h' && "headers"@[6] == 's');
    reveal_strlit("body");
    assert("body"@.len() == 4 && "body"@[0] == 'b' && "body"@[3] == 'y');
    reveal_strlit("elapsedMs");
    assert("elapsedMs"@.len() == 9 && "elapsedMs"@[0] == 'e' && "elapsedMs"@[8] == 's');
    assert(names_differ(fs));
    lemma_field(fs, 0);
    lemma_field(fs, 1);
    lemma_field(fs, 2);
    lemma_field(fs, 3);
    lemma_field(fs, 4);
}

/// A step is reported with its id, how it went, how long it took, what was sent and what came
/// back, what it hands on, its assertions in order, and what went wrong or why it was left out.
pub proof fn law_step_reported(v: StepResultView, i: int)
    ensures
        member_of(step_json(v), "id"@) == Some(JsonView::Str(v.id)),
        member_of(step_json(v), "status"@) == Some(
            JsonView::Str(
                match v.status {
                    StepStatus::Passed => "passed"@,
                    StepStatus::Failed => "failed"@,
                    StepStatus::Error => "error"@,
                    StepStatus::Skipped => "skipped"@,
                    StepStatus::Running => "running"@,
                },
            ),
        ),
        member_of(step_json(v), "durationMs"@)
            == Some(JsonView::Number(NumberView::Int(v.duration_ms as int))),
        member_of(step_json(v), "request"@) == Some(
            match v.request {
                Some(q) => request_json(q),
                None => JsonView::Null,
            },
        ),
        member_of(step_json(v), "response"@) == Some(
            match v.response {
                Some(q) => response_json(q),
                None => JsonView::Null,
            },
        ),
        member_of(step_json(v), "outputs"@) == Some(JsonView::Object(v.outputs)),
        lists_at(
            member_of(step_json(v), "assertions"@),
            v.assertions.len(),
            i,
            assert_record_json(v.assertions[i]),
        ),
        member_of(step_json(v), "error"@) == (match v.error {
            Some(t) => Some(JsonView::Str(t)),
            None => None,
        }),
        member_of(step_json(v), "skipReason"@) == (match v.skip_reason {
            Some(t) => Some(JsonView::Str(t)),
            None => None,
        }),
{
    let fs = step_fields(v);
    reveal_strlit("id");
    assert("id"@.len() == 2 && "id"@[0] == 'i' && "id"@[1] == 'd');
    reveal_strlit("status");
    assert("status"@.len() == 6 && "status"@[0] == 's' && "status"@[5] == 's');
    reveal_strlit("durationMs");
    assert("durationMs"@.len() == 10 && "durationMs"@[0] == 'd' && "durationMs"@[9] == 's');
    reveal_strlit("request");
    assert("request"@.len() == 7 && "request"@[0] == 'r' && "request"@[6] == 't');
    reveal_strlit("response");
    assert("response"@.len() == 8 && "response"@[0] == 'r' && "response"@[7] == 'e');
    reveal_strlit("outputs");
    assert("outputs"@.len() == 7 && "outputs"@[0] == 'o' && "outputs"@[6] == 's');
    reveal_strlit("assertions");
    assert("assertions"@.len() == 10 && "assertions"@[0] == 'a' && "assertions"@[9] == 's');
    reveal_strlit("error");
    assert("error"@.len() == 5 && "error"@[0] == 'e' && "error"@[4] == 'r');
    reveal_strlit("skipReason");
    assert("skipReason"@.len() == 10 && "skipReason"@[0] == 's' && "skipReason"@[9] == 'n');
    assert(names_differ(fs));
    lemma_field(fs, 0);
    lemma_field(fs, 1);
    lemma_field(fs, 2);
    lemma_field(fs, 3);
    lemma_field(fs, 4);
    lemma_field(fs, 5);
    lemma_field(fs, 6);
    lemma_field(fs, 7);
    lemma_field(fs, 8);
}

/// A case is reported with its file, its name, how it went, why it was left out if it was, when it
/// began, how long it took, and its steps in order.
pub proof fn law_case_reported(v: CaseResultView, i: int)
    ensures
        member_of(case_json(v), "file"@) == Some(JsonView::Str(v.file)),
        member_of(case_json(v), "name"@) == Some(JsonView::Str(v.name)),
        member_of(case_json(v), "status"@) == Some(
            JsonView::Str(
                match v.status {
                    CaseStatus::Passed => "passed"@,
                    CaseStatus::Failed => "failed"@,
                    CaseStatus::Error => "error"@,
                    CaseStatus::Skipped => "skipped"@,
                    CaseStatus::Running => "running"@,
                },
            ),
        ),
        member_of(case_json(v), "skipReason"@) == (match v.skip_reason {
            Some(t) => Some(JsonView::Str(t)),
            None => None,
        }),
        member_of(case_json(v), "startedAt"@) == Some(JsonView::Str(v.started_at)),
        member_of(case_json(v), "durationMs"@)
            == Some(JsonView::Number(NumberView::Int(v.duration_ms as int))),
        lists_at(member_of(case_json(v), "steps"@), v.steps.len(), i, step_json(v.steps[i])),
{
    let fs = case_fields(v);
    reveal_strlit("file");
    assert("file"@.len() == 4 && "file"@[0] == 'f' && "file"@[3] == 'e');
    reveal_strlit("name");
    assert("name"@.len() == 4 && "name"@[0] == 'n' && "name"@[3] == 'e');
    reveal_strlit("status");
    assert("status"@.len() == 6 && "status"@[0] == 's' && "status"@[5] == 's');
    reveal_strlit("skipReason");
    assert("skipReason"@.len() == 10 && "skipReason"@[0] == 's' && "skipReason"@[9] == 'n');
    reveal_strlit("startedAt");
    assert("startedAt"@.len() == 9 && "startedAt"@[0] == 's' && "startedAt"@[8] == 't');
    reveal_strlit("durationMs");
    assert("durationMs"@.len() == 10 && "durationMs"@[0] == 'd' && "durationMs"@[9] == 's');
    reveal_strlit("steps");
    assert("steps"@.len() == 5 && "steps"@[0] == 's' && "steps"@[4] == 's');
    assert(names_differ(fs));
    lemma_field(fs, 0);
    lemma_field(fs, 1);
    lemma_field(fs, 2);
    lemma_field(fs, 3);
    lemma_field(fs, 4);
    lemma_field(fs, 5);
    lemma_field(fs, 6);
}

/// The counts of the assertions are reported each under its own name.
pub proof fn law_assert_summary_reported(v: AssertSummary)
    ensures
        member_of(assert_summary_json(v), "total"@)
            == Some(JsonView::Number(NumberView::Int(v.total as int))),
        member_of(assert_summary_json(v), "passed"@)
            == Some(JsonView::Number(NumberView::Int(v.passed as int))),
        member_of(assert_summary_json(v), "failed"@)
            == Some(JsonView::Number(NumberView::Int(v.failed as int))),
{
    let fs = assert_summary_fields(v);
    reveal_strlit("total");
    assert("total"@.len() == 5 && "total"@[0] == 't' && "total"@[4] == 'l');
    reveal_strlit("passed");
    assert("passed"@.len() == 6 && "passed"@[0] == 'p' && "passed"@[5] == 'd');
    reveal_strlit("failed");
    assert("failed"@.len() == 6 && "failed"@[0] == 'f' && "failed"@[5] == 'd');
    assert(names_differ(fs));
    lemma_field(fs, 0);
    lemma_field(fs, 1);
    lemma_field(fs, 2);
}

/// The counts of the steps are reported each under its own name.
pub proof fn law_step_summary_reported(v: StepSummary)
    ensures
        member_of(step_summary_json(v), "total"@)
            == Some(JsonView::Number(NumberView::Int(v.total as int))),
        member_of(step_summary_json(v), "passed"@)
            == Some(JsonView::Number(NumberView::Int(v.passed as int))),
        member_of(step_summary_json(v), "failed"@)
            == Some(JsonView::Number(NumberView::Int(v.failed as int))),
        member_of(step_summary_json(v), "error"@)
            == Some(JsonView::Number(NumberView::Int(v.error as int))),
        member_of(step_summary_json(v), "skipped"@)
            == Some(JsonView::Number(NumberView::Int(v.skipped as int))),
{
    let fs = step_summary_fields(v);
    reveal_strlit("total");
    assert("total"@.len() == 5 && "total"@[0] == 't' && "total"@[4] == 'l');
    reveal_strlit("passed");
    assert("passed"@.len() == 6 && "passed"@[0] == 'p' && "passed"@[5] == 'd');
    reveal_strlit("failed");
    assert("failed"@.len() == 6 && "failed"@[0] == 'f' && "failed"@[5] == 'd');
    reveal_strlit("error");
    assert("error"@.len() == 5 && "error"@[0] == 'e' && "error"@[4] == 'r');
    reveal_strlit("skipped");
    assert("skipped"@.len() == 7 && "skipped"@[0] == 's' && "skipped"@[6] == 'd');
    assert(names_differ(fs));
    lemma_field(fs, 0);
    lemma_field(fs, 1);
    lemma_field(fs, 2);
    lemma_field(fs, 3);
    lemma_field(fs, 4);
}

/// The counts of the cases are reported each under its own name, with those of the assertions and
/// of the steps.
pub proof fn law_run_summary_reported(v: RunSummary)
    ensures
        member_of(run_summary_json(v), "total"@)
            == Some(JsonView::Number(NumberView::Int(v.total as int))),
        member_of(run_summary_json(v), "passed"@)
            == Some(JsonView::Number(NumberView::Int(v.passed as int))),
        member_of(run_summary_json(v), "failed"@)
            == Some(JsonView::Number(NumberView::Int(v.failed as int))),
        member_of(run_summary_json(v), "error"@)
            == Some(JsonView::Number(NumberView::Int(v.error as int))),
        member_of(run_summary_json(v), "skipped"@)
            == Some(JsonView::Number(NumberView::Int(v.skipped as int))),
        member_of(run_summary_json(v), "assertions"@) == Some(assert_summary_json(v.assertions)),
        member_of(run_summary_json(v), "steps"@) == Some(step_summary_json(v.steps)),
{
    let fs = run_summary_fields(v);
    reveal_strlit("total");
    assert("total"@.len() == 5 && "total"@[0] == 't' && "total"@[4] == 'l');
    reveal_strlit("passed");
    assert("passed"@.len() == 6 && "passed"@[0] == 'p' && "passed"@[5] == 'd');
    reveal_strlit("failed");
    assert("failed"@.len() == 6 && "failed"@[0] == 'f' && "failed"@[5] == 'd');
    reveal_strlit("error");
    assert("error"@.len() == 5 && "error"@[0] == 'e' && "error"@[4] == 'r');
    reveal_strlit("skipped");
    assert("skipped"@.len() == 7 && "skipped"@[0] == 's' && "skipped"@[6] == 'd');
    reveal_strlit("assertions");
    assert("assertions"@.len() == 10 && "assertions"@[0] == 'a' && "assertions"@[9] == 's');
    reveal_strlit("steps");
    assert("steps"@.len() == 5 && "steps"@[0] == 's' && "steps"@[4] == 's');
    assert(names_differ(fs));
    lemma_field(fs, 0);
    lemma_field(fs, 1);
    lemma_field(fs, 2);
    lemma_field(fs, 3);
    lemma_field(fs, 4);
    lemma_field(fs, 5);
    lemma_field(fs, 6);
}

/// What was asked of a run is reported.
pub proof fn law_options_reported(v: RunOptionsView, i: int)
    ensures
        lists_at(
            member_of(options_json(v), "targets"@),
            v.targets.len(),
            i,
            JsonView::Str(v.targets[i]),
        ),
        member_of(options_json(v), "recursive"@) == Some(JsonView::Bool(v.recursive)),
        member_of(options_json(v), "environment"@) == Some(JsonView::Str(v.environment)),
        member_of(options_json(v), "concurrency"@)
            == Some(JsonView::Number(NumberView::Int(v.concurrency as int))),
        member_of(options_json(v), "stopOnFailure"@) == Some(JsonView::Bool(v.stop_on_failure)),
        member_of(options_json(v), "maxBodyBytes"@)
            == Some(JsonView::Number(NumberView::Int(v.max_body_bytes as int))),
        member_of(options_json(v), "continueOnAssertionFailure"@)
            == Some(JsonView::Bool(v.continue_on_assertion_failure)),
{
    let fs = options_fields(v);
    reveal_strlit("targets");
    assert("targets"@.len() == 7 && "targets"@[0] == 't' && "targets"@[6] == 's');
    reveal_strlit("recursive");
    assert("recursive"@.len() == 9 && "recursive"@[0] == 'r' && "recursive"@[8] == 'e');
    reveal_strlit("environment");
    assert("environment"@.len() == 11 && "environment"@[0] == 'e' && "environment"@[10] == 't');
    reveal_strlit("concurrency");
    assert("concurrency"@.len() == 11 && "concurrency"@[0] == 'c' && "concurrency"@[10] == 'y');
    reveal_strlit("stopOnFailure");
    assert("stopOnFailure"@.len() == 13
        && "stopOnFailure"@[0] == 's'
        && "stopOnFailure"@[12] == 'e');
    reveal_strlit("maxBodyBytes");
    assert("maxBodyBytes"@.len() == 12 && "maxBodyBytes"@[0] == 'm' && "maxBodyBytes"@[11] == 's');
    reveal_strlit("continueOnAssertionFailure");
    assert("continueOnAssertionFailure"@.len() == 26
        && "continueOnAssertionFailure"@[0] == 'c'
        && "continueOnAssertionFailure"@[25] == 'e');
    assert(names_differ(fs));
    lemma_field(fs, 0);
    lemma_field(fs, 1);
    lemma_field(fs, 2);
    lemma_field(fs, 3);
    lemma_field(fs, 4);
    lemma_field(fs, 5);
    lemma_field(fs, 6);
}

/// The tool is reported with its name and its version.
pub proof fn law_tool_reported(v: ToolInfoView)
    ensures
        member_of(tool_json(v), "name"@) == Some(JsonView::Str(v.name)),
        member_of(tool_json(v), "version"@) == Some(JsonView::Str(v.version)),
{
    let fs = tool_fields(v);
    reveal_strlit("name");
    assert("name"@.len() == 4 && "name"@[0] == 'n' && "name"@[3] == 'e');
    reveal_strlit("version");
    assert("version"@.len() == 7 && "version"@[0] == 'v' && "version"@[6] == 'n');
    assert(names_differ(fs));
    lemma_field(fs, 0);
    lemma_field(fs, 1);
}

/// The workspace is reported with its name and where it is.
pub proof fn law_workspace_reported(v: WorkspaceInfoView)
    ensures
        member_of(workspace_json(v), "name"@) == Some(JsonView::Str(v.name)),
        member_of(workspace_json(v), "root"@) == Some(JsonView::Str(v.root)),
{
    let fs = workspace_fields(v);
    reveal_strlit("name");
    assert("name"@.len() == 4 && "name"@[0] == 'n' && "name"@[3] == 'e');
    reveal_strlit("root");
    assert("root"@.len() == 4 && "root"@[0] == 'r' && "root"@[3] == 't');
    assert(names_differ(fs));
    lemma_field(fs, 0);
    lemma_field(fs, 1);
}

/// The environment is reported with its name and its variables in order.
pub proof fn law_environment_reported(v: EnvironmentInfoView, i: int)
    ensures
        member_of(environment_json(v), "name"@) == Some(JsonView::Str(v.name)),
        member_of(environment_json(v), "vars"@) matches Some(JsonView::Object(m)) && m.len()
            == v.vars.len() && (0 <= i < m.len() ==> m[i] == (
            v.vars[i].0,
            JsonView::Str(v.vars[i].1),
        )),
{
    let fs = environment_fields(v);
    reveal_strlit("name");
    assert("name"@.len() == 4 && "name"@[0] == 'n' && "name"@[3] == 'e');
    reveal_strlit("vars");
    assert("vars"@.len() == 4 && "vars"@[0] == 'v' && "vars"@[3] == 's');
    assert(names_differ(fs));
    lemma_field(fs, 0);
    lemma_field(fs, 1);
}

/// A run is reported with the version of the layout, the tool, when it began and ended and how long
/// it took, how it stands, where and under what it ran, the counts, and its cases in order.
pub proof fn law_report_reported(v: RunReportView, i: int)
    ensures
        member_of(report_json(v), "schemaVersion"@)
            == Some(JsonView::Number(NumberView::Int(v.schema_version as int))),
        member_of(report_json(v), "tool"@) == Some(tool_json(v.tool)),
        member_of(report_json(v), "startedAt"@) == Some(JsonView::Str(v.started_at)),
        member_of(report_json(v), "finishedAt"@) == Some(
            match v.finished_at {
                Some(t) => JsonView::Str(t),
                None => JsonView::Null,
            },
        ),
        member_of(report_json(v), "durationMs"@)
            == Some(JsonView::Number(NumberView::Int(v.duration_ms as int))),
        member_of(report_json(v), "status"@) == Some(
            JsonView::Str(
                match v.status {
                    RunStatus::Running => "running"@,
                    RunStatus::Done => "done"@,
                    RunStatus::Cancelled => "cancelled"@,
                },
            ),
        ),
        member_of(report_json(v), "workspace"@) == Some(workspace_json(v.workspace)),
        member_of(report_json(v), "environment"@) == Some(environment_json(v.environment)),
        member_of(report_json(v), "options"@) == Some(options_json(v.options)),
        member_of(report_json(v), "summary"@) == Some(run_summary_json(v.summary)),
        lists_at(member_of(report_json(v), "cases"@), v.cases.len(), i, case_json(v.cases[i])),
{
    let fs = report_fields(v);
    reveal_strlit("schemaVersion");
    assert("schemaVersion"@.len() == 13
        && "schemaVersion"@[0] == 's'
        && "schemaVersion"@[12] == 'n');
    reveal_strlit("tool");
    assert("tool"@.len() == 4 && "tool"@[0] == 't' && "tool"@[3] == 'l');
    reveal_strlit("startedAt");
    assert("startedAt"@.len() == 9 && "startedAt"@[0] == 's' && "startedAt"@[8] == 't');
    reveal_strlit("finishedAt");
    assert("finishedAt"@.len() == 10 && "finishedAt"@[0] == 'f' && "finishedAt"@[9] == 't');
    reveal_strlit("durationMs");
    assert("durationMs"@.len() == 10 && "durationMs"@[0] == 'd' && "durationMs"@[9] == 's');
    reveal_strlit("status");
    assert("status"@.len() == 6 && "status"@[0] == 's' && "status"@[5] == 's');
    reveal_strlit("workspace");
    assert("workspace"@.len() == 9 && "workspace"@[0] == 'w' && "workspace"@[8] == 'e');
    reveal_strlit("environment");
    assert("environment"@.len() == 11 && "environment"@[0] == 'e' && "environment"@[10] == 't');
    reveal_strlit("options");
    assert("options"@.len() == 7 && "options"@[0] == 'o' && "options"@[6] == 's');
    reveal_strlit("summary");
    assert("summary"@.len() == 7 && "summary"@[0] == 's' && "summary"@[6] == 'y');
    reveal_strlit("cases");
    assert("cases"@.len() == 5 && "cases"@[0] == 'c' && "cases"@[4] == 's');
    assert(names_differ(fs));
    lemma_field(fs, 0);
    lemma_field(fs, 1);
    lemma_field(fs, 2);
    lemma_field(fs, 3);
    lemma_field(fs, 4);
    lemma_field(fs, 5);
    lemma_field(fs, 6);
    lemma_field(fs, 7);
    lemma_field(fs, 8);
    lemma_field(fs, 9);
    lemma_field(fs, 10);
}

} // verus!
