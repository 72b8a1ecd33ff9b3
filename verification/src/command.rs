//! The decisions behind the commands.
use crate::cookie::{CookieItem, CookieItemView};
use crate::discover::{
    extension, extension_of, file_stem, stem_of, with_extension, with_extension_of,
};
use crate::http::{ProxyConfig, ProxyConfigView};
use crate::model::{
    empty_http, AssertOp, Assertion, AssertionView, CASE_VERSION, Case, CaseView, HttpSpec,
    HttpSpecView, Step, StepOutput, StepView,
};
use crate::report::{
    body_record, AssertRecord, AssertRecordView, BodyRecord, BodyRecordView, CaseResult,
    CaseResultView, CaseStatus, EnvironmentInfo, EnvironmentInfoView, RequestRecord,
    RequestRecordView, ResponseRecord, ResponseRecordView, RunReport, RunReportView, StepResult,
    StepResultView, StepStatus,
};
use crate::run::{ReportSink, ReportSinkView, RunRequest, RunRequestView};
use crate::table::{before, lemma_less_total, less};
use crate::text::{
    blank, byte_len, cat, cat3, contains, copy_text, empty, has, is_blank, join, joined, law_clip,
    lemma_views_push, opt_text, opt_view, same, to_upper, uppercase, views, Duplicate,
};
use crate::util::{stamp14, stamped};
use crate::workspace::{
    below, env_of, file_name, file_name_of, join_path, CONFIG_FILE, REPORTS_DIR, Workspace,
    WorkspaceView,
};
use vstd::prelude::*;

verus! {

// ---- how much of a report is told ------------------------------------------------------

/// How much of a report is told.
#[derive(Debug, Clone, Copy, PartialEq, Eq, Structural)]
pub enum Detail {
    /// The counts, and what is needed to look into failures.
    Summary,
    Full,
}

/// The most bytes of a body that a summary keeps.
pub const KEEP_BYTES: usize = 2 * 1024;

/// A body cut to a number of bytes. It still says how large it was.
pub open spec fn cut_body(b: BodyRecordView, max: nat) -> BodyRecordView {
    let c = body_record(b.preview, max);
    BodyRecordView { preview: c.preview, bytes: b.bytes, truncated: c.truncated || b.truncated }
}

/// The assertions that failed.
pub open spec fn failed_only(l: Seq<AssertRecordView>) -> Seq<AssertRecordView>
    decreases l.len(),
{
    if l.len() == 0 {
        seq![]
    } else if l.last().ok {
        failed_only(l.drop_last())
    } else {
        failed_only(l.drop_last()).push(l.last())
    }
}

/// A step in a summary: one that passed keeps nothing to look into, another keeps its cut bodies
/// and the assertions that failed.
pub open spec fn short_step(s: StepResultView) -> StepResultView {
    if s.status == StepStatus::Passed {
        StepResultView { request: None, response: None, assertions: seq![], ..s }
    } else {
        StepResultView {
            assertions: failed_only(s.assertions),
            request: match s.request {
                Some(q) => Some(
                    RequestRecordView { body: cut_body(q.body, KEEP_BYTES as nat), ..q },
                ),
                None => None,
            },
            response: match s.response {
                Some(p) => Some(
                    ResponseRecordView { body: cut_body(p.body, KEEP_BYTES as nat), ..p },
                ),
                None => None,
            },
            ..s
        }
    }
}

/// A case in a summary.
pub open spec fn short_case(c: CaseResultView) -> CaseResultView {
    CaseResultView { steps: c.steps.map_values(|s: StepResultView| short_step(s)), ..c }
}

/// A report as much as is told of it. Its shape and its counts stay.
pub open spec fn told(r: RunReportView, detail: Detail) -> RunReportView {
    match detail {
        Detail::Full => r,
        Detail::Summary => RunReportView {
            cases: r.cases.map_values(|c: CaseResultView| short_case(c)),
            ..r
        },
    }
}

fn cut(b: &BodyRecord, max: usize) -> (r: BodyRecord)
    ensures
        r@ == cut_body(b@, max as nat),
{
    let c: BodyRecord = match &b.preview {
        Some(t) => BodyRecord::clip(Some(t.as_str()), max),
        None => BodyRecord::clip(None, max),
    };
    BodyRecord { preview: c.preview, bytes: b.bytes, truncated: c.truncated || b.truncated }
}

fn keep_failed(l: &Vec<AssertRecord>) -> (r: Vec<AssertRecord>)
    ensures
        views(r@) == failed_only(views(l@)),
{
    let ghost w = views(l@);
    let mut out: Vec<AssertRecord> = Vec::new();
    let mut i: usize = 0;
    assert(w.take(0) =~= seq![]);
    assert(views(out@) =~= seq![]);
    while i < l.len()
        invariant
            i <= l@.len(),
            w == views(l@),
            views(out@) == failed_only(w.take(i as int)),
        decreases l@.len() - i,
    {
        proof {
            assert(w.take(i + 1).drop_last() =~= w.take(i as int));
            assert(w.take(i + 1).last() == l@[i as int]@);
        }
        if !l[i].ok {
            let a: AssertRecord = l[i].duplicate();
            proof {
                lemma_views_push(out@, a);
            }
            out.push(a);
        }
        i = i + 1;
    }
    assert(w.take(w.len() as int) =~= w);
    out
}

fn shorten_step(s: &StepResult) -> (r: StepResult)
    ensures
        r@ == short_step(s@),
{
    let mut r: StepResult = s.duplicate();
    if s.status == StepStatus::Passed {
        let none: Vec<AssertRecord> = Vec::new();
        assert(views(none@) =~= seq![]);
        r.request = None;
        r.response = None;
        r.assertions = none;
    } else {
        r.assertions = keep_failed(&s.assertions);
        let request: Option<RequestRecord> = match &s.request {
            Some(q) => {
                let mut c: RequestRecord = q.duplicate();
                c.body = cut(&q.body, KEEP_BYTES);
                Some(c)
            },
            None => None,
        };
        let response: Option<ResponseRecord> = match &s.response {
            Some(p) => {
                let mut c: ResponseRecord = p.duplicate();
                c.body = cut(&p.body, KEEP_BYTES);
                Some(c)
            },
            None => None,
        };
        r.request = request;
        r.response = response;
    }
    r
}

fn shorten_case(c: &CaseResult) -> (r: CaseResult)
    ensures
        r@ == short_case(c@),
{
    let mut steps: Vec<StepResult> = Vec::new();
    let mut i: usize = 0;
    while i < c.steps.len()
        invariant
            i <= c.steps@.len(),
            steps@.len() == i,
            forall|k: int| 0 <= k < i ==> (#[trigger] steps@[k])@ == short_step(c.steps@[k]@),
        decreases c.steps@.len() - i,
    {
        steps.push(shorten_step(&c.steps[i]));
        i = i + 1;
    }
    assert(views(steps@) =~= views(c.steps@).map_values(|s: StepResultView| short_step(s)));
    let mut r: CaseResult = c.duplicate();
    r.steps = steps;
    r
}

/// A report as much as is told of it.
pub fn shrink(report: &RunReport, detail: Detail) -> (r: RunReport)
    ensures
        r@ == told(report@, detail),
{
    let mut r: RunReport = report.duplicate();
    if detail == Detail::Summary {
        let mut cases: Vec<CaseResult> = Vec::new();
        let mut i: usize = 0;
        while i < report.cases.len()
            invariant
                i <= report.cases@.len(),
                cases@.len() == i,
                forall|k: int|
                    0 <= k < i ==> (#[trigger] cases@[k])@ == short_case(report.cases@[k]@),
            decreases report.cases@.len() - i,
        {
            cases.push(shorten_case(&report.cases[i]));
            i = i + 1;
        }
        assert(views(cases@) =~= views(report.cases@).map_values(
            |c: CaseResultView| short_case(c),
        ));
        r.cases = cases;
    }
    r
}

/// How much is told by a word; anything else is a summary.
pub fn detail_of(word: Option<&str>) -> (r: Detail)
    ensures
        r == (if opt_text(word) == Some("full"@) {
            Detail::Full
        } else {
            Detail::Summary
        }),
{
    match word {
        Some(w) => if same(w, "full") {
            Detail::Full
        } else {
            Detail::Summary
        },
        None => Detail::Summary,
    }
}

/// A summary has the counts of its report, and every case and every step of it with its name
/// and outcome.
pub proof fn law_summary_keeps_the_shape(r: RunReportView, detail: Detail, i: int, j: int)
    requires
        0 <= i < r.cases.len(),
        0 <= j < r.cases[i].steps.len(),
    ensures
        told(r, detail).summary == r.summary,
        told(r, detail).cases.len() == r.cases.len(),
        told(r, detail).cases[i].file == r.cases[i].file,
        told(r, detail).cases[i].status == r.cases[i].status,
        told(r, detail).cases[i].steps.len() == r.cases[i].steps.len(),
        told(r, detail).cases[i].steps[j].id == r.cases[i].steps[j].id,
        told(r, detail).cases[i].steps[j].status == r.cases[i].steps[j].status,
        told(r, detail).cases[i].steps[j].error == r.cases[i].steps[j].error,
{
}

proof fn lemma_failed_only(l: Seq<AssertRecordView>, k: int)
    requires
        0 <= k < l.len(),
        !l[k].ok,
    ensures
        failed_only(l).contains(l[k]),
    decreases l.len(),
{
    let d = l.drop_last();
    if k == l.len() - 1 {
        assert(failed_only(l)[failed_only(d).len() as int] == l[k]);
    } else {
        lemma_failed_only(d, k);
        let i = choose|i: int| 0 <= i < failed_only(d).len() && failed_only(d)[i] == d[k];
        assert(failed_only(l)[i] == l[k]);
    }
}

/// A summary keeps every assertion that failed in a step that did not pass.
pub proof fn law_summary_keeps_failures(s: StepResultView, k: int)
    requires
        s.status != StepStatus::Passed,
        0 <= k < s.assertions.len(),
        !s.assertions[k].ok,
    ensures
        short_step(s).assertions.contains(s.assertions[k]),
{
    lemma_failed_only(s.assertions, k);
}

// ---- which cases of a report are told --------------------------------------------------

/// Which cases of a report are told.
#[derive(Debug, Clone, Copy, PartialEq, Eq, Structural)]
pub enum ReportFilter {
    All,
    Failed,
    Error,
    /// Those that did not do what they should.
    Bad,
}

/// Whether a case is told.
pub open spec fn shows(f: ReportFilter, st: CaseStatus) -> bool {
    match f {
        ReportFilter::All => true,
        ReportFilter::Failed => st == CaseStatus::Failed,
        ReportFilter::Error => st == CaseStatus::Error,
        ReportFilter::Bad => st != CaseStatus::Passed && st != CaseStatus::Running,
    }
}

/// The cases that are told.
pub open spec fn shown_cases(l: Seq<CaseResultView>, f: ReportFilter) -> Seq<CaseResultView>
    decreases l.len(),
{
    if l.len() == 0 {
        seq![]
    } else if shows(f, l.last().status) {
        shown_cases(l.drop_last(), f).push(l.last())
    } else {
        shown_cases(l.drop_last(), f)
    }
}

/// Whether a case is told.
pub fn is_shown(f: ReportFilter, st: CaseStatus) -> (r: bool)
    ensures
        r == shows(f, st),
{
    match f {
        ReportFilter::All => true,
        ReportFilter::Failed => st == CaseStatus::Failed,
        ReportFilter::Error => st == CaseStatus::Error,
        ReportFilter::Bad => st != CaseStatus::Passed && st != CaseStatus::Running,
    }
}

/// A report with the cases that are told; its counts are those of the whole run.
pub fn filter_cases(report: RunReport, f: ReportFilter) -> (r: RunReport)
    ensures
        r@ == (RunReportView { cases: shown_cases(report@.cases, f), ..report@ }),
{
    let ghost w = views(report.cases@);
    let mut cases: Vec<CaseResult> = Vec::new();
    let mut i: usize = 0;
    assert(w.take(0) =~= seq![]);
    assert(views(cases@) =~= seq![]);
    while i < report.cases.len()
        invariant
            i <= report.cases@.len(),
            w == views(report.cases@),
            views(cases@) == shown_cases(w.take(i as int), f),
        decreases report.cases@.len() - i,
    {
        proof {
            assert(w.take(i + 1).drop_last() =~= w.take(i as int));
            assert(w.take(i + 1).last() == report.cases@[i as int]@);
        }
        if is_shown(f, report.cases[i].status) {
            let c: CaseResult = report.cases[i].duplicate();
            proof {
                lemma_views_push(cases@, c);
            }
            cases.push(c);
        }
        i = i + 1;
    }
    assert(w.take(w.len() as int) =~= w);
    let mut r: RunReport = report;
    r.cases = cases;
    r
}

/// Which cases are told by a word; anything else is all of them.
pub fn filter_of(word: Option<&str>) -> (r: ReportFilter)
    ensures
        r == (if opt_text(word) == Some("failed"@) {
            ReportFilter::Failed
        } else if opt_text(word) == Some("error"@) {
            ReportFilter::Error
        } else if opt_text(word) == Some("bad"@) {
            ReportFilter::Bad
        } else {
            ReportFilter::All
        }),
{
    match word {
        Some(w) => if same(w, "failed") {
            ReportFilter::Failed
        } else if same(w, "error") {
            ReportFilter::Error
        } else if same(w, "bad") {
            ReportFilter::Bad
        } else {
            ReportFilter::All
        },
        None => ReportFilter::All,
    }
}

// ---- which report ----------------------------------------------------------------------

/// Whether a file comes before another: later names first, and names begin with a time.
pub open spec fn newer(a: Seq<char>, b: Seq<char>) -> bool {
    less(file_name_of(b), file_name_of(a))
}

/// The place of a file among files that are in order: behind those that do not come after it.
pub open spec fn newest_place(l: Seq<Seq<char>>, p: Seq<char>) -> int
    decreases l.len(),
{
    if l.len() > 0 && newer(p, l.last()) {
        newest_place(l.drop_last(), p)
    } else {
        l.len() as int
    }
}

/// Files with the newest first; files of one name stay in order.
pub open spec fn newest(l: Seq<Seq<char>>) -> Seq<Seq<char>>
    decreases l.len(),
{
    if l.len() == 0 {
        seq![]
    } else {
        let d = newest(l.drop_last());
        d.insert(newest_place(d, l.last()), l.last())
    }
}

proof fn lemma_newest_place(l: Seq<Seq<char>>, p: Seq<char>)
    ensures
        0 <= newest_place(l, p) <= l.len(),
        newest_place(l, p) > 0 ==> !newer(p, l[newest_place(l, p) - 1]),
        forall|k: int| newest_place(l, p) <= k < l.len() ==> newer(p, #[trigger] l[k]),
    decreases l.len(),
{
    if l.len() > 0 && newer(p, l.last()) {
        let d = l.drop_last();
        lemma_newest_place(d, p);
        assert forall|k: int| newest_place(l, p) <= k < l.len() implies newer(p, #[trigger] l[k]) by {
            if k < d.len() {
                assert(l[k] == d[k]);
            }
        }
    }
}

fn comes_before(a: &str, b: &str) -> (r: bool)
    ensures
        r == newer(a@, b@),
{
    before(file_name(b).as_str(), file_name(a).as_str())
}

/// Files with the newest first.
pub fn newest_first(files: &Vec<String>) -> (r: Vec<String>)
    ensures
        views(r@) == newest(views(files@)),
{
    let ghost w = views(files@);
    let mut out: Vec<String> = Vec::new();
    let mut i: usize = 0;
    assert(w.take(0) =~= seq![]);
    assert(views(out@) =~= seq![]);
    while i < files.len()
        invariant
            i <= files@.len(),
            w == views(files@),
            views(out@) == newest(w.take(i as int)),
        decreases files@.len() - i,
    {
        let ghost d = views(out@);
        let mut k: usize = out.len();
        let ghost p = files@[i as int]@;
        assert(d.take(d.len() as int) =~= d);
        while k > 0 && comes_before(files[i].as_str(), out[k - 1].as_str())
            invariant
                k <= out@.len(),
                i < files@.len(),
                d == views(out@),
                p == files@[i as int]@,
                newest_place(d, p) == newest_place(d.take(k as int), p),
            decreases k,
        {
            proof {
                assert(d.take(k as int).last() == out@[k - 1]@);
                assert(d.take(k as int).drop_last() =~= d.take(k - 1));
            }
            k = k - 1;
        }
        proof {
            assert(w.take(i + 1).drop_last() =~= w.take(i as int));
            assert(w.take(i + 1).last() == p);
            if k > 0 {
                assert(d.take(k as int).last() == out@[k - 1]@);
            }
            assert(newest_place(d, p) == k);
        }
        let c: String = copy_text(files[i].as_str());
        let ghost before_insert = out@;
        out.insert(k, c);
        assert(views(out@) =~= d.insert(k as int, p));
        i = i + 1;
    }
    assert(w.take(w.len() as int) =~= w);
    out
}

/// In a list with the newest first, no file is newer than one before it.
pub proof fn law_newest_first(l: Seq<Seq<char>>)
    ensures
        newest(l).len() == l.len(),
        forall|i: int, j: int|
            0 <= i < j < l.len() ==> !newer(#[trigger] newest(l)[j], #[trigger] newest(l)[i]),
        newest(l).to_multiset() == l.to_multiset(),
    decreases l.len(),
{
    broadcast use vstd::seq_lib::group_to_multiset_ensures;

    if l.len() > 0 {
        let d = newest(l.drop_last());
        let p = l.last();
        law_newest_first(l.drop_last());
        lemma_newest_place(d, p);
        let k = newest_place(d, p);
        let t = newest(l);
        assert(t =~= d.insert(k, p));
        d.to_multiset_ensures();
        assert(l =~= l.drop_last().push(p));
        assert forall|i: int, j: int| 0 <= i < j < t.len() implies !newer(
            #[trigger] t[j],
            #[trigger] t[i],
        ) by {
            let a = if i < k {
                d[i]
            } else if i == k {
                p
            } else {
                d[i - 1]
            };
            let b = if j < k {
                d[j]
            } else if j == k {
                p
            } else {
                d[j - 1]
            };
            assert(t[i] == a && t[j] == b);
            if j == k {
                lemma_before_place(d, p, i);
            } else if i == k {
                assert(newer(p, d[j - 1]));
                lemma_less_total(file_name_of(d[j - 1]), file_name_of(p));
            } else if i < k && j > k {
                assert(!newer(d[j - 1], d[i]));
            } else if i > k {
                assert(!newer(d[j - 1], d[i - 1]));
            } else {
                assert(!newer(d[j], d[i]));
            }
        }
    } else {
        assert(newest(l) =~= l);
    }
}

proof fn lemma_before_place(d: Seq<Seq<char>>, p: Seq<char>, i: int)
    requires
        0 <= i < newest_place(d, p),
        forall|a: int, b: int| 0 <= a < b < d.len() ==> !newer(#[trigger] d[b], #[trigger] d[a]),
    ensures
        !newer(p, d[i]),
{
    lemma_newest_place(d, p);
    let k = newest_place(d, p);
    if newer(p, d[i]) && i < k - 1 {
        // the one before the place is not newer than the one at `i`, and `p` is newer than that
        assert(!newer(d[k - 1], d[i]));
        let n = file_name_of(p);
        let x = file_name_of(d[i]);
        let y = file_name_of(d[k - 1]);
        lemma_less_total(x, y);
        if less(y, x) {
            crate::table::lemma_less_transitive(y, x, n);
        }
    }
}

/// The report that is meant: the file that is named, as a path or as a name among the reports,
/// or else the newest.
pub open spec fn picked(
    ws: WorkspaceView,
    file: Option<Seq<char>>,
    is_file: bool,
    is_report: bool,
    files: Seq<Seq<char>>,
) -> Result<Seq<char>, Seq<char>> {
    match file {
        Some(p) => if is_file {
            Ok(p)
        } else if is_report {
            Ok(below(below(ws.root, REPORTS_DIR@), p))
        } else {
            Err("找不到报告："@ + p)
        },
        None => if newest(files).len() > 0 {
            Ok(newest(files)[0])
        } else {
            Err("还没有任何报告"@)
        },
    }
}

/// The report that is meant, given whether the name is a file, whether it is a file among the
/// reports, and the reports there are.
pub fn pick_report(
    ws: &Workspace,
    file: Option<&str>,
    is_file: bool,
    is_report: bool,
    files: &Vec<String>,
) -> (r: Result<String, String>)
    ensures
        match r {
            Ok(p) => picked(ws@, opt_text(file), is_file, is_report, views(files@)) == Ok::<
                Seq<char>,
                Seq<char>,
            >(p@),
            Err(e) => picked(ws@, opt_text(file), is_file, is_report, views(files@)) == Err::<
                Seq<char>,
                Seq<char>,
            >(e@),
        },
{
    match file {
        Some(p) => if is_file {
            Ok(copy_text(p))
        } else if is_report {
            Ok(join_path(ws.reports_dir().as_str(), p))
        } else {
            Err(cat("找不到报告：", p))
        },
        None => {
            let all: Vec<String> = newest_first(files);
            if all.len() > 0 {
                assert(views(all@)[0] == all@[0]@);
                Ok(copy_text(all[0].as_str()))
            } else {
                Err(copy_text("还没有任何报告"))
            }
        },
    }
}

// ---- arguments -------------------------------------------------------------------------

/// How results are printed.
#[derive(Debug, Clone, Copy, PartialEq, Eq, Structural)]
pub enum Format {
    Text,
    Json,
}

/// How results are printed: as was asked for, else as text on a terminal and as JSON elsewhere.
pub fn output_format(json: bool, asked: Option<Format>, is_tty: bool) -> (r: Format)
    ensures
        r == (if json {
            Format::Json
        } else if asked is Some {
            asked->0
        } else if is_tty {
            Format::Text
        } else {
            Format::Json
        }),
{
    if json {
        return Format::Json;
    }
    match asked {
        Some(f) => f,
        None => if is_tty {
            Format::Text
        } else {
            Format::Json
        },
    }
}

/// The targets that are paths: `-` stands for the standard input.
pub open spec fn paths_of(targets: Seq<Seq<char>>) -> Seq<Seq<char>>
    decreases targets.len(),
{
    if targets.len() == 0 {
        seq![]
    } else if targets.last() == "-"@ {
        paths_of(targets.drop_last())
    } else {
        paths_of(targets.drop_last()).push(targets.last())
    }
}

/// Whether the standard input is a target, and the targets that are paths.
pub fn split_targets(targets: &Vec<String>) -> (r: (bool, Vec<String>))
    ensures
        r.0 == views(targets@).contains("-"@),
        views(r.1@) == paths_of(views(targets@)),
{
    let ghost w = views(targets@);
    let mut stdin: bool = false;
    let mut out: Vec<String> = Vec::new();
    let mut i: usize = 0;
    assert(w.take(0) =~= seq![]);
    assert(views(out@) =~= seq![]);
    while i < targets.len()
        invariant
            i <= targets@.len(),
            w == views(targets@),
            stdin == w.take(i as int).contains("-"@),
            views(out@) == paths_of(w.take(i as int)),
        decreases targets@.len() - i,
    {
        proof {
            let t = w.take(i + 1);
            assert(t.drop_last() =~= w.take(i as int));
            assert(t.last() == targets@[i as int]@);
            if w.take(i as int).contains("-"@) {
                let k = choose|k: int|
                    0 <= k < w.take(i as int).len() && w.take(i as int)[k] == "-"@;
                assert(t[k] == "-"@);
            }
            if t.contains("-"@) && t.last() != "-"@ {
                let k = choose|k: int| 0 <= k < t.len() && t[k] == "-"@;
                assert(w.take(i as int)[k] == "-"@);
            }
            if t.last() == "-"@ {
                assert(t[i as int] == "-"@);
            }
        }
        if same(targets[i].as_str(), "-") {
            stdin = true;
        } else {
            let c: String = copy_text(targets[i].as_str());
            proof {
                lemma_views_push(out@, c);
            }
            out.push(c);
        }
        i = i + 1;
    }
    assert(w.take(w.len() as int) =~= w);
    (stdin, out)
}

/// What is wrong with the targets of a run: the standard input is run alone.
pub fn mixed_targets(stdin: bool, paths: &Vec<String>) -> (r: Option<String>)
    ensures
        opt_view(r) == (if stdin && paths@.len() > 0 {
            Some("`-`（标准输入）不能与其它目标同时给：一次只跑一份内联用例"@)
        } else {
            None
        }),
{
    if stdin && paths.len() > 0 {
        Some(copy_text("`-`（标准输入）不能与其它目标同时给：一次只跑一份内联用例"))
    } else {
        None
    }
}

/// What is wrong with what was read from the standard input.
pub fn empty_input(text: &str) -> (r: Option<String>)
    ensures
        opt_view(r) == (if is_blank(text@) {
            Some("标准输入是空的"@)
        } else {
            None
        }),
{
    if blank(text) {
        Some(copy_text("标准输入是空的"))
    } else {
        None
    }
}

/// The proxy of a run: what the surroundings say, else what the settings say.
pub open spec fn proxy_of_run(
    mode: Option<Seq<char>>,
    url: Option<Seq<char>>,
    stored: Option<ProxyConfigView>,
) -> Option<ProxyConfigView> {
    match mode {
        Some(m) => Some(ProxyConfigView { mode: m, url }),
        None => stored,
    }
}

/// The proxy of a run.
pub fn choose_proxy(mode: Option<String>, url: Option<String>, stored: Option<ProxyConfig>) -> (r: Option<
    ProxyConfig,
>)
    ensures
        opt_view(r) == proxy_of_run(opt_view(mode), opt_view(url), opt_view(stored)),
{
    match mode {
        Some(m) => Some(ProxyConfig { mode: m, url }),
        None => stored,
    }
}

/// The stamp of a time where clocks differ by some seconds from universal time.
pub fn local_stamp(now_ms: u64, offset_secs: i32) -> (r: String)
    requires
        now_ms <= i64::MAX,
    ensures
        r@ == stamped(
            (if now_ms + offset_secs * 1000 > 0 {
                now_ms + offset_secs * 1000
            } else {
                0
            }) as nat,
            seq![],
            seq![],
            seq![],
        ),
{
    let at: i128 = now_ms as i128 + offset_secs as i128 * 1000;
    let ms: u64 = if at > 0 {
        at as u64
    } else {
        0
    };
    stamp14(ms)
}

// ---- environments and cookies ----------------------------------------------------------

/// Whether a workspace has an environment.
pub open spec fn has_env(ws: WorkspaceView, name: Seq<char>) -> bool {
    exists|i: int| 0 <= i < ws.environments.len() && (#[trigger] ws.environments[i]).0 == name
}

/// The names of the environments of a workspace.
pub open spec fn env_names_of(ws: WorkspaceView) -> Seq<Seq<char>> {
    ws.environments.map_values(|e: (Seq<char>, crate::json::JsonView)| e.0)
}

/// An environment that is named has to be there.
pub open spec fn shown_env(ws: WorkspaceView, name: Option<Seq<char>>) -> Result<
    EnvironmentInfoView,
    Seq<char>,
> {
    match name {
        Some(n) => if has_env(ws, n) {
            Ok(env_of(ws, name))
        } else {
            Err("没有名为 "@ + n + " 的环境（现有："@ + join(env_names_of(ws), "、"@) + "）"@)
        },
        None => Ok(env_of(ws, None)),
    }
}

/// An environment to show.
pub fn show_env(ws: &Workspace, name: Option<&str>) -> (r: Result<EnvironmentInfo, String>)
    ensures
        match r {
            Ok(e) => shown_env(ws@, opt_text(name)) == Ok::<EnvironmentInfoView, Seq<char>>(e@),
            Err(e) => shown_env(ws@, opt_text(name)) == Err::<EnvironmentInfoView, Seq<char>>(e@),
        },
{
    if let Some(n) = name {
        let names: Vec<String> = ws.env_names();
        let mut found: bool = false;
        let mut i: usize = 0;
        assert(views(names@).len() == names@.len());
        while i < names.len()
            invariant
                i <= names@.len(),
                names@.len() == ws@.environments.len(),
                views(names@) == env_names_of(ws@),
                found == exists|k: int| 0 <= k < i && (#[trigger] ws@.environments[k]).0 == n@,
            decreases names@.len() - i,
        {
            assert(views(names@)[i as int] == names@[i as int]@);
            assert(env_names_of(ws@)[i as int] == ws@.environments[i as int].0);
            if same(names[i].as_str(), n) {
                found = true;
            }
            i = i + 1;
        }
        if !found {
            let mut m: String = cat3("没有名为 ", n, " 的环境（现有：");
            m.push_str(joined(&names, "、").as_str());
            m.push_str("）");
            return Err(m);
        }
    }
    Ok(ws.env_info(name))
}

/// The cookies of domains with a text in them.
pub open spec fn of_domain(l: Seq<CookieItemView>, domain: Option<Seq<char>>) -> Seq<CookieItemView>
    decreases l.len(),
{
    if l.len() == 0 {
        seq![]
    } else if domain is None || contains(l.last().domain, domain->0) {
        of_domain(l.drop_last(), domain).push(l.last())
    } else {
        of_domain(l.drop_last(), domain)
    }
}

/// The cookies of domains with a text in them.
pub fn filter_cookies(l: Vec<CookieItem>, domain: Option<&str>) -> (r: Vec<CookieItem>)
    ensures
        views(r@) == of_domain(views(l@), opt_text(domain)),
{
    let ghost w = views(l@);
    let mut out: Vec<CookieItem> = Vec::new();
    let mut i: usize = 0;
    assert(w.take(0) =~= seq![]);
    assert(views(out@) =~= seq![]);
    while i < l.len()
        invariant
            i <= l@.len(),
            w == views(l@),
            views(out@) == of_domain(w.take(i as int), opt_text(domain)),
        decreases l@.len() - i,
    {
        proof {
            assert(w.take(i + 1).drop_last() =~= w.take(i as int));
            assert(w.take(i + 1).last() == l@[i as int]@);
        }
        let keep: bool = match domain {
            Some(d) => has(l[i].domain.as_str(), d),
            None => true,
        };
        if keep {
            let c: CookieItem = l[i].duplicate();
            proof {
                lemma_views_push(out@, c);
            }
            out.push(c);
        }
        i = i + 1;
    }
    assert(w.take(w.len() as int) =~= w);
    out
}

/// Why there are no cookies: only a workspace has a session.
pub fn no_session(ws: &Workspace) -> (r: Option<String>)
    ensures
        opt_view(r) == (if ws@.anchored {
            None
        } else {
            Some(
                ws@.root + " 不是工作空间（没有 "@ + CONFIG_FILE@
                    + "），没有 cookie 会话——用 apicase init 把它声明为工作空间，或用 -w 指定"@,
            )
        }),
{
    if ws.is_scratch() {
        let mut m: String = cat3(ws.root.as_str(), " 不是工作空间（没有 ", CONFIG_FILE);
        m.push_str("），没有 cookie 会话——用 apicase init 把它声明为工作空间，或用 -w 指定");
        Some(m)
    } else {
        None
    }
}

// ---- where a command works -------------------------------------------------------------

/// Where the workspace of a command is: at a directory that was named, or at or above a place.
#[derive(Debug, Clone, PartialEq)]
pub enum Start {
    At(String),
    Above(String),
}

/// What a `Start` stands for.
pub enum StartView {
    At(Seq<char>),
    Above(Seq<char>),
}

impl View for Start {
    type V = StartView;

    open spec fn view(&self) -> StartView {
        match self {
            Start::At(d) => StartView::At(d@),
            Start::Above(d) => StartView::Above(d@),
        }
    }
}

/// Where the workspace of a command is: what was asked for counts most, then what the
/// environment names, then the place of the first target, and last the current directory.
pub fn start_of(
    asked: Option<String>,
    named: Option<String>,
    target: Option<String>,
    current: String,
) -> (r: Start)
    ensures
        r@ == (match (asked, named, target) {
            (Some(d), _, _) => StartView::At(d@),
            (None, Some(d), _) => StartView::At(d@),
            (None, None, Some(t)) => StartView::Above(t@),
            (None, None, None) => StartView::Above(current@),
        }),
{
    if let Some(d) = asked {
        return Start::At(d);
    }
    if let Some(d) = named {
        return Start::At(d);
    }
    match target {
        Some(t) => Start::Above(t),
        None => Start::Above(current),
    }
}

/// Whether a file is a report by its extension.
pub fn is_report_file(path: &str) -> (r: bool)
    ensures
        r == (extension_of(file_name_of(path@)) == Some("html"@)),
{
    match extension(file_name(path).as_str()) {
        Some(e) => same(e.as_str(), "html"),
        None => false,
    }
}

// ---- new cases -------------------------------------------------------------------------

/// The file of a new case: `.yml` unless an extension is given.
pub fn new_case_path(path: &str) -> (r: String)
    ensures
        r@ == (if extension_of(file_name_of(path@)) is None {
            with_extension_of(path@, "yml"@)
        } else {
            path@
        }),
{
    match extension(file_name(path).as_str()) {
        Some(_) => copy_text(path),
        None => with_extension(path, "yml"),
    }
}

/// The name of a new case: that which is given, or else that of its file.
pub fn new_case_name(given: Option<String>, path: &str) -> (r: String)
    ensures
        r@ == (match opt_view(given) {
            Some(n) => n,
            None => stem_of(file_name_of(path@)),
        }),
{
    match given {
        Some(n) => n,
        None => file_stem(path),
    }
}

/// Why a file is not written: it is there, and is not to be replaced.
pub fn keeps_file(path: &str, exists: bool, force: bool) -> (r: Option<String>)
    ensures
        opt_view(r) == (if exists && !force {
            Some(path@ + " 已存在（要覆盖加 --force）"@)
        } else {
            None
        }),
{
    if exists && !force {
        Some(cat(path, " 已存在（要覆盖加 --force）"))
    } else {
        None
    }
}

/// A new case: one request, whose status is expected to be 200.
pub open spec fn fresh_case(name: Seq<char>, method: Seq<char>, url: Seq<char>) -> CaseView {
    CaseView {
        version: CASE_VERSION@,
        name: if name.len() == 0 {
            None
        } else {
            Some(name)
        },
        vars: None,
        requests: seq![
            StepView {
                id: "request"@,
                protocol: "http"@,
                ui: None,
                http: HttpSpecView { method: uppercase(method), url, ..empty_http() },
                depends_on: seq![],
                outputs: seq![],
                assertions: seq![
                    AssertionView {
                        target: "res.status"@,
                        op: AssertOp::Eq,
                        value: Some("200"@),
                    },
                ],
                docs: None,
            },
        ],
    }
}

/// A new case.
pub fn new_case(name: &str, method: &str, url: &str) -> (r: Case)
    ensures
        r@ == fresh_case(name@, method@, url@),
{
    let mut assertions: Vec<Assertion> = Vec::new();
    assertions.push(
        Assertion {
            target: copy_text("res.status"),
            op: AssertOp::Eq,
            value: Some(copy_text("200")),
        },
    );
    let mut http: HttpSpec = HttpSpec::default();
    http.method = to_upper(method);
    http.url = copy_text(url);
    let depends_on: Vec<String> = Vec::new();
    let outputs: Vec<StepOutput> = Vec::new();
    let step: Step = Step {
        id: copy_text("request"),
        protocol: copy_text("http"),
        ui: None,
        http,
        depends_on,
        outputs,
        assertions,
        docs: None,
    };
    let mut requests: Vec<Step> = Vec::new();
    requests.push(step);
    let r: Case = Case {
        version: copy_text(CASE_VERSION),
        name: if empty(name) {
            None
        } else {
            Some(copy_text(name))
        },
        vars: None,
        requests,
    };
    proof {
        let want = fresh_case(name@, method@, url@).requests[0];
        assert(step@.depends_on =~= want.depends_on);
        assert(step@.outputs =~= want.outputs);
        assert(step@.assertions =~= want.assertions);
        assert(r@.requests =~= fresh_case(name@, method@, url@).requests);
    }
    r
}

// ---- requests of tools -----------------------------------------------------------------

/// What a tool asks of a run.
#[derive(Debug)]
pub struct RunParams {
    pub target: Option<String>,
    pub content: Option<String>,
    pub env: Option<String>,
    pub steps: Vec<String>,
    pub vars: Vec<(String, String)>,
    pub concurrency: Option<u32>,
    pub bail: bool,
    /// Whether a report is written; it is not unless it is asked for.
    pub report: bool,
}

/// The run that a tool asks for: a target is found from the root of the workspace, one case runs
/// at a time unless more are asked for, and no report is written unless it is asked for.
pub fn tool_request(ws: &Workspace, p: RunParams, proxy: Option<ProxyConfig>) -> (r: RunRequest)
    ensures
        r@ == (RunRequestView {
            targets: match p.target {
                Some(t) => seq![below(ws@.root, t@)],
                None => seq![],
            },
            content: opt_view(p.content),
            env: opt_view(p.env),
            steps: views(p.steps@),
            vars: views(p.vars@),
            concurrency: Some(
                match p.concurrency {
                    Some(n) => if n > 1 {
                        n
                    } else {
                        1
                    },
                    None => 1,
                },
            ),
            stop_on_failure: p.bail,
            continue_on_assertion_failure: None,
            timeout_ms: None,
            insecure: false,
            recursive: true,
            report: if p.report {
                ReportSinkView::Auto
            } else {
                ReportSinkView::NoReport
            },
            proxy: opt_view(proxy),
        }),
{
    let mut targets: Vec<String> = Vec::new();
    let ghost given = opt_view(p.target);
    if let Some(t) = &p.target {
        targets.push(ws.resolve(t.as_str()));
    }
    assert(views(targets@) =~= match given {
        Some(t) => seq![below(ws@.root, t)],
        None => seq![],
    });
    let concurrency: u32 = match p.concurrency {
        Some(n) => if n > 1 {
            n
        } else {
            1
        },
        None => 1,
    };
    let mut r: RunRequest = RunRequest::default();
    r.targets = targets;
    r.content = p.content;
    r.env = p.env;
    r.steps = p.steps;
    r.vars = p.vars;
    r.concurrency = Some(concurrency);
    r.stop_on_failure = p.bail;
    r.report = if p.report {
        ReportSink::Auto
    } else {
        ReportSink::NoReport
    };
    r.proxy = proxy;
    r
}

// ---- laws of what is told ----------------------------------------------------------------

/// What a summary leaves out of a step that passed: what was sent and received, and its
/// assertions; and of the others only the assertions that hold and the ends of long bodies.
pub proof fn law_short_step(s: StepResultView, k: int)
    ensures
        short_step(s).id == s.id,
        short_step(s).duration_ms == s.duration_ms,
        short_step(s).outputs == s.outputs,
        short_step(s).skip_reason == s.skip_reason,
        s.status is Passed ==> short_step(s).request is None && short_step(s).response is None
            && short_step(s).assertions.len() == 0,
        !(s.status is Passed) ==> {
            &&& short_step(s).request is Some <==> s.request is Some
            &&& short_step(s).response is Some <==> s.response is Some
            &&& s.request is Some ==> {
                &&& short_step(s).request->0.method == s.request->0.method
                &&& short_step(s).request->0.url == s.request->0.url
                &&& short_step(s).request->0.headers == s.request->0.headers
                &&& short_step(s).request->0.body.bytes == s.request->0.body.bytes
            }
            &&& s.response is Some ==> {
                &&& short_step(s).response->0.status == s.response->0.status
                &&& short_step(s).response->0.status_text == s.response->0.status_text
                &&& short_step(s).response->0.headers == s.response->0.headers
                &&& short_step(s).response->0.elapsed_ms == s.response->0.elapsed_ms
                &&& short_step(s).response->0.body.bytes == s.response->0.body.bytes
            }
            &&& 0 <= k < short_step(s).assertions.len() ==> !short_step(s).assertions[k].ok
                && s.assertions.contains(short_step(s).assertions[k])
        },
{
    lemma_only_failed(s.assertions, k);
}

proof fn lemma_only_failed(l: Seq<AssertRecordView>, k: int)
    ensures
        0 <= k < failed_only(l).len() ==> !failed_only(l)[k].ok && l.contains(failed_only(l)[k]),
    decreases l.len(),
{
    if l.len() > 0 {
        let d = l.drop_last();
        lemma_only_failed(d, k);
        if 0 <= k < failed_only(d).len() {
            let i = choose|i: int| 0 <= i < d.len() && d[i] == failed_only(d)[k];
            assert(l[i] == d[i]);
        }
        assert(l[l.len() - 1] == l.last());
    }
}

/// A body that a summary cuts keeps its beginning and tells how large it was; one that is short
/// enough stays as it is, and one that was cut before stays marked as cut.
pub proof fn law_cut_body(b: BodyRecordView, max: nat)
    ensures
        cut_body(b, max).bytes == b.bytes,
        b.preview is None ==> cut_body(b, max).preview is None,
        b.preview is Some && byte_len(b.preview->0) <= max ==> cut_body(b, max).preview == b.preview
            && cut_body(b, max).truncated == b.truncated,
        b.preview is Some && byte_len(b.preview->0) > max ==> cut_body(b, max).truncated && cut_body(
            b,
            max,
        ).preview is Some && cut_body(b, max).preview->0.is_prefix_of(b.preview->0) && byte_len(
            cut_body(b, max).preview->0,
        ) <= max,
{
    if b.preview is Some {
        law_clip(b.preview->0, max);
    }
}

/// Which cases are told: all, those that failed, those in error, or all that did not do what they
/// should, each in order and no other.
pub proof fn law_cases_told(l: Seq<CaseResultView>, c: CaseResultView, f: ReportFilter)
    ensures
        shown_cases(seq![], f).len() == 0,
        shown_cases(l.push(c), f) == (if (f is All) || (f is Failed && c.status is Failed) || (
        f is Error && c.status is Error) || (f is Bad && (c.status is Failed || c.status is Error
            || c.status is Skipped)) {
            shown_cases(l, f).push(c)
        } else {
            shown_cases(l, f)
        }),
{
    assert(l.push(c).drop_last() =~= l);
}

/// Which report is told: the file that is named if it is there, else the report of that name in
/// the workspace, else none; and without a name the newest.
pub proof fn law_report_picked(
    ws: WorkspaceView,
    p: Seq<char>,
    is_report: bool,
    files: Seq<Seq<char>>,
    i: int,
)
    ensures
        picked(ws, Some(p), true, is_report, files) == Ok::<_, Seq<char>>(p),
        picked(ws, Some(p), false, true, files) == Ok::<_, Seq<char>>(
            below(below(ws.root, ".apicase/reports"@), p),
        ),
        picked(ws, Some(p), false, false, files) is Err,
        files.len() == 0 ==> picked(ws, None, false, false, files) is Err,
        files.len() > 0 ==> match picked(ws, None, false, false, files) {
            Ok(q) => files.contains(q) && (0 <= i < files.len() ==> !newer(files[i], q)),
            Err(_) => false,
        },
{
    if files.len() > 0 {
        law_newest_first(files);
        let n = newest(files);
        files.to_multiset_ensures();
        n.to_multiset_ensures();
        assert(n.contains(n[0]));
        assert(n.to_multiset().contains(n[0]));
        assert(files.contains(n[0]));
        if 0 <= i < files.len() {
            assert(files.contains(files[i]));
            assert(n.to_multiset().contains(files[i]));
            assert(n.contains(files[i]));
            let j = choose|j: int| 0 <= j < n.len() && n[j] == files[i];
            if j == 0 {
                lemma_less_total(file_name_of(n[0]), file_name_of(n[0]));
                assert(!newer(n[0], n[0])) by {
                    lemma_not_newer(n[0]);
                }
            }
        }
    }
}

proof fn lemma_not_newer(p: Seq<char>)
    ensures
        !newer(p, p),
{
    lemma_not_less(file_name_of(p));
}

proof fn lemma_not_less(s: Seq<char>)
    ensures
        !less(s, s),
    decreases s.len(),
{
    if s.len() > 0 {
        lemma_not_less(s.drop_first());
    }
}

/// The targets of a run are paths, in order; a dash stands for what is given as text.
pub proof fn law_paths_of(targets: Seq<Seq<char>>, t: Seq<char>)
    ensures
        paths_of(seq![]).len() == 0,
        t == "-"@ ==> paths_of(targets.push(t)) == paths_of(targets),
        t != "-"@ ==> paths_of(targets.push(t)) == paths_of(targets).push(t),
{
    assert(targets.push(t).drop_last() =~= targets);
}

/// The proxy of a run is the one that is asked for, and else the one that is kept.
pub proof fn law_proxy_of_run(
    m: Seq<char>,
    url: Option<Seq<char>>,
    stored: Option<ProxyConfigView>,
)
    ensures
        proxy_of_run(None, url, stored) == stored,
        match proxy_of_run(Some(m), url, stored) {
            Some(p) => p.mode == m && p.url == url,
            None => false,
        },
{
}

/// An environment is shown by its name, and one that is not there is refused; without a name the
/// one that a run takes is shown.
pub proof fn law_env_shown(ws: WorkspaceView, n: Seq<char>)
    ensures
        shown_env(ws, None) == Ok::<_, Seq<char>>(env_of(ws, None)),
        shown_env(ws, Some(n)) is Ok <==> exists|i: int|
            0 <= i < ws.environments.len() && (#[trigger] ws.environments[i]).0 == n,
        shown_env(ws, Some(n)) is Ok ==> shown_env(ws, Some(n)) == Ok::<_, Seq<char>>(
            env_of(ws, Some(n)),
        ),
{
}

/// Cookies are listed in order, those in whose domain the text stands, or all.
pub proof fn law_of_domain(l: Seq<CookieItemView>, c: CookieItemView, domain: Option<Seq<char>>)
    ensures
        of_domain(seq![], domain).len() == 0,
        domain is None || contains(c.domain, domain->0) ==> of_domain(l.push(c), domain)
            == of_domain(l, domain).push(c),
        domain is Some && !contains(c.domain, domain->0) ==> of_domain(l.push(c), domain)
            == of_domain(l, domain),
{
    assert(l.push(c).drop_last() =~= l);
}

/// A new case has one step that sends what was asked for and expects that all is well.
pub proof fn law_fresh_case(name: Seq<char>, method: Seq<char>, url: Seq<char>)
    ensures
        ({
            let c = fresh_case(name, method, url);
            &&& c.version == "v0.1"@
            &&& name.len() > 0 ==> c.name == Some(name)
            &&& name.len() == 0 ==> c.name is None
            &&& c.vars is None
            &&& c.requests.len() == 1
            &&& c.requests[0].http.method == uppercase(method)
            &&& c.requests[0].http.url == url
            &&& c.requests[0].http.body.kind is NoBody
            &&& c.requests[0].http.auth.kind is NoAuth
            &&& c.requests[0].depends_on.len() == 0
            &&& c.requests[0].assertions.len() == 1
            &&& c.requests[0].assertions[0].target == "res.status"@
            &&& c.requests[0].assertions[0].op is Eq
            &&& c.requests[0].assertions[0].value == Some("200"@)
        }),
{
}

} // verus!
