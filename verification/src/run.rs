//! From what was asked for to a run: which cases, with which options, and where the report goes.
use crate::case_file::{analysis, analyze_case, AnalyzeResult, AnalyzeResultView};
use crate::check::{reason, why_not};
use crate::config::clamped;
use crate::graph::ints;
use crate::http::{
    ClientConfigView, ProxyConfig, ProxyConfigView, RequestOptions, RequestOptionsView,
};
use crate::model::{Case, CaseView, MAX_CONCURRENCY, Step};
use crate::report::{
    cases_with, countable, summarizes, CaseResult, CaseResultView, CaseStatus, EnvironmentInfo,
    EnvironmentInfoView, RunOptions, RunOptionsView, RunReport, RunReportView, RunStatus,
    RunSummary,
};
use crate::runner::{
    begin_report, case_skipped, finish_report, needed, push_case, report_begun, skipped_case,
    with_dependencies, BatchMeta, BatchMetaView, BatchTarget, BatchTargetView, RunOpts, RunOptsView,
};
use crate::table::{law_put_sorted, lookup, put_all_sorted, sorted};
use crate::text::{
    blank, cat, cat3, chars_of, copy_text, copy_texts, duplicate_opt, empty, is_blank, join, joined,
    lemma_seek_is, lemma_views_push, opt_view, same, seek, seek_char, sub_text, trim, trimmed,
    views, Duplicate,
};
use crate::util::iso_text;
use crate::workspace::{
    below, env_of, file_name_of, join_path, opened, opts_of, relative, report_file_name,
    report_file_name_multi, report_name, target_name, targets_name, CONFIG_FILE, REPORTS_DIR,
    Workspace, WorkspaceView,
};
use crate::yaml::loaded;
use vstd::prelude::*;

verus! {

/// The name that a case given as text has in a report.
pub const STDIN_FILE: &'static str = "<stdin>";

/// Where a report goes.
#[derive(Debug, Clone, PartialEq)]
pub enum ReportSink {
    /// Among the reports of the workspace.
    Auto,
    /// To a file.
    Path(String),
    /// Nowhere.
    NoReport,
}

/// What a `ReportSink` stands for.
pub enum ReportSinkView {
    Auto,
    Path(Seq<char>),
    NoReport,
}

impl View for ReportSink {
    type V = ReportSinkView;

    open spec fn view(&self) -> ReportSinkView {
        match *self {
            ReportSink::Auto => ReportSinkView::Auto,
            ReportSink::Path(p) => ReportSinkView::Path(p@),
            ReportSink::NoReport => ReportSinkView::NoReport,
        }
    }
}

/// What is asked of a run.
#[derive(Debug)]
pub struct RunRequest {
    /// Files and directories; none is the whole workspace.
    pub targets: Vec<String>,
    /// The text of a case, which is run in place of targets.
    pub content: Option<String>,
    /// The environment; none is that of the workspace.
    pub env: Option<String>,
    /// The steps to run, with what they depend on; none is all of them.
    pub steps: Vec<String>,
    /// Variables that are set in the environment.
    pub vars: Vec<(String, String)>,
    /// How many cases run at a time; none follows the workspace.
    pub concurrency: Option<u32>,
    pub stop_on_failure: bool,
    /// None follows the workspace.
    pub continue_on_assertion_failure: Option<bool>,
    /// None follows the workspace, zero is no limit.
    pub timeout_ms: Option<u64>,
    /// Whether any certificate is accepted.
    pub insecure: bool,
    pub recursive: bool,
    pub report: ReportSink,
    pub proxy: Option<ProxyConfig>,
}

/// What a `RunRequest` stands for.
#[verifier::ext_equal]
pub struct RunRequestView {
    pub targets: Seq<Seq<char>>,
    pub content: Option<Seq<char>>,
    pub env: Option<Seq<char>>,
    pub steps: Seq<Seq<char>>,
    pub vars: Seq<(Seq<char>, Seq<char>)>,
    pub concurrency: Option<u32>,
    pub stop_on_failure: bool,
    pub continue_on_assertion_failure: Option<bool>,
    pub timeout_ms: Option<u64>,
    pub insecure: bool,
    pub recursive: bool,
    pub report: ReportSinkView,
    pub proxy: Option<ProxyConfigView>,
}

impl View for RunRequest {
    type V = RunRequestView;

    open spec fn view(&self) -> RunRequestView {
        RunRequestView {
            targets: views(self.targets@),
            content: opt_view(self.content),
            env: opt_view(self.env),
            steps: views(self.steps@),
            vars: views(self.vars@),
            concurrency: self.concurrency,
            stop_on_failure: self.stop_on_failure,
            continue_on_assertion_failure: self.continue_on_assertion_failure,
            timeout_ms: self.timeout_ms,
            insecure: self.insecure,
            recursive: self.recursive,
            report: self.report@,
            proxy: opt_view(self.proxy),
        }
    }
}

impl Default for RunRequest {
    fn default() -> (r: Self)
        ensures
            r@ == (RunRequestView {
                targets: seq![],
                content: None,
                env: None,
                steps: seq![],
                vars: seq![],
                concurrency: None,
                stop_on_failure: false,
                continue_on_assertion_failure: None,
                timeout_ms: None,
                insecure: false,
                recursive: true,
                report: ReportSinkView::NoReport,
                proxy: None,
            }),
    {
        let r: RunRequest = RunRequest {
            targets: Vec::new(),
            content: None,
            env: None,
            steps: Vec::new(),
            vars: Vec::new(),
            concurrency: None,
            stop_on_failure: false,
            continue_on_assertion_failure: None,
            timeout_ms: None,
            insecure: false,
            recursive: true,
            report: ReportSink::NoReport,
            proxy: None,
        };
        proof {
            assert(r@.targets =~= seq![]);
            assert(r@.steps =~= seq![]);
            assert(r@.vars =~= seq![]);
        }
        r
    }
}

// ---- variables -------------------------------------------------------------------------

/// A variable that is given as `name=value`. Only the first `=` counts: values often have more.
pub open spec fn var_of(s: Seq<char>) -> Option<(Seq<char>, Seq<char>)> {
    let i = seek(s, '=', 0);
    if i < s.len() && !is_blank(s.take(i)) {
        Some((trim(s.take(i)), s.skip(i + 1)))
    } else {
        None
    }
}

/// Variables that are given as `name=value`, or what is wrong with the first that is not.
pub open spec fn vars_given(raw: Seq<Seq<char>>) -> Result<Seq<(Seq<char>, Seq<char>)>, Seq<char>>
    decreases raw.len(),
{
    if raw.len() == 0 {
        Ok(seq![])
    } else {
        match vars_given(raw.drop_last()) {
            Err(e) => Err(e),
            Ok(l) => match var_of(raw.last()) {
                Some(v) => Ok(l.push(v)),
                None => Err("--var 要写成 name=value，收到的是 `"@ + raw.last() + "`"@),
            },
        }
    }
}

proof fn lemma_first_bad(raw: Seq<Seq<char>>, i: int)
    requires
        0 <= i <= raw.len(),
        vars_given(raw.take(i)) is Err,
    ensures
        vars_given(raw) == vars_given(raw.take(i)),
    decreases raw.len() - i,
{
    if i < raw.len() {
        assert(raw.take(i + 1).drop_last() =~= raw.take(i));
        lemma_first_bad(raw, i + 1);
    } else {
        assert(raw.take(i) =~= raw);
    }
}

fn split_var(s: &str) -> (r: Option<(String, String)>)
    ensures
        opt_view(r) == var_of(s@),
{
    let cs: Vec<char> = chars_of(s);
    let i: usize = seek_char(cs.as_slice(), '=', 0);
    if i == cs.len() {
        return None;
    }
    let name: String = sub_text(cs.as_slice(), 0, i);
    assert(cs@.subrange(0, i as int) =~= cs@.take(i as int));
    if blank(name.as_str()) {
        return None;
    }
    let value: String = sub_text(cs.as_slice(), i + 1, cs.len());
    assert(cs@.subrange(i + 1, cs@.len() as int) =~= cs@.skip(i + 1));
    Some((trimmed(name.as_str()), value))
}

/// Variables that are given as `name=value`.
pub fn parse_vars(raw: &[String]) -> (r: Result<Vec<(String, String)>, String>)
    ensures
        match r {
            Ok(v) => vars_given(views(raw@)) == Ok::<Seq<(Seq<char>, Seq<char>)>, Seq<char>>(
                views(v@),
            ),
            Err(e) => vars_given(views(raw@)) == Err::<Seq<(Seq<char>, Seq<char>)>, Seq<char>>(e@),
        },
{
    let ghost w = views(raw@);
    let mut out: Vec<(String, String)> = Vec::new();
    let mut i: usize = 0;
    assert(w.take(0) =~= seq![]);
    assert(views(out@) =~= seq![]);
    while i < raw.len()
        invariant
            i <= raw@.len(),
            w == views(raw@),
            vars_given(w.take(i as int)) == Ok::<Seq<(Seq<char>, Seq<char>)>, Seq<char>>(
                views(out@),
            ),
        decreases raw@.len() - i,
    {
        proof {
            assert(w.take(i + 1).drop_last() =~= w.take(i as int));
            assert(w.take(i + 1).last() == raw@[i as int]@);
        }
        match split_var(raw[i].as_str()) {
            Some(v) => {
                proof {
                    lemma_views_push(out@, v);
                }
                out.push(v);
            },
            None => {
                proof {
                    lemma_first_bad(w, i + 1);
                }
                return Err(cat3("--var 要写成 name=value，收到的是 `", raw[i].as_str(), "`"));
            },
        }
        i = i + 1;
    }
    assert(w.take(w.len() as int) =~= w);
    Ok(out)
}

// ---- options ---------------------------------------------------------------------------

/// The environment of a run: that of the workspace with the given variables set.
pub open spec fn run_env(ws: WorkspaceView, req: RunRequestView) -> EnvironmentInfoView {
    let env = env_of(ws, req.env);
    EnvironmentInfoView { name: env.name, vars: put_all_sorted(env.vars, req.vars) }
}

/// The settings of requests, with what was asked for in place of what the workspace says.
pub open spec fn asked_options(o: RequestOptionsView, req: RunRequestView) -> RequestOptionsView {
    RequestOptionsView {
        verify_ssl: if req.insecure {
            Some(false)
        } else {
            o.verify_ssl
        },
        timeout_ms: match req.timeout_ms {
            Some(ms) => if ms > 0 {
                Some(ms)
            } else {
                None
            },
            None => o.timeout_ms,
        },
        ca_cert_path: o.ca_cert_path,
    }
}

/// How a run is made: as the workspace says, except for what was asked for.
pub open spec fn asked_opts(ws: WorkspaceView, req: RunRequestView) -> RunOptsView {
    let o = opts_of(ws, run_env(ws, req), req.proxy);
    RunOptsView {
        concurrency: match req.concurrency {
            Some(n) => clamped(n as u64),
            None => o.concurrency,
        },
        stop_on_failure: req.stop_on_failure,
        continue_on_assertion_failure: match req.continue_on_assertion_failure {
            Some(c) => c,
            None => o.continue_on_assertion_failure,
        },
        client: ClientConfigView {
            options: match o.client.options {
                Some(q) => Some(asked_options(q, req)),
                None => None,
            },
            ..o.client
        },
        ..o
    }
}

/// How a run is made.
pub fn build_opts(ws: &Workspace, req: &RunRequest) -> (r: RunOpts)
    ensures
        r@ == asked_opts(ws@, req@),
{
    let mut env: EnvironmentInfo = match &req.env {
        Some(n) => ws.env_info(Some(n.as_str())),
        None => ws.env_info(None),
    };
    let ghost start = env@;
    let ghost w = views(req.vars@);
    let mut i: usize = 0;
    assert(w.take(0) =~= seq![]);
    while i < req.vars.len()
        invariant
            i <= req.vars@.len(),
            w == views(req.vars@),
            env@ == (EnvironmentInfoView {
                name: start.name,
                vars: put_all_sorted(start.vars, w.take(i as int)),
            }),
        decreases req.vars@.len() - i,
    {
        proof {
            assert(w.take(i + 1).drop_last() =~= w.take(i as int));
            assert(w.take(i + 1).last() == req.vars@[i as int]@);
        }
        let k: String = copy_text(req.vars[i].0.as_str());
        let v: String = copy_text(req.vars[i].1.as_str());
        env.vars.insert(k, v);
        i = i + 1;
    }
    assert(w.take(w.len() as int) =~= w);
    let mut o: RunOpts = ws.run_opts(env, duplicate_opt(&req.proxy));
    if let Some(n) = req.concurrency {
        o.concurrency = if n < 1 {
            1
        } else if n > MAX_CONCURRENCY {
            MAX_CONCURRENCY
        } else {
            n
        };
    }
    o.stop_on_failure = req.stop_on_failure;
    if let Some(c) = req.continue_on_assertion_failure {
        o.continue_on_assertion_failure = c;
    }
    let asked: Option<RequestOptions> = match &o.client.options {
        Some(q) => Some(
            RequestOptions {
                verify_ssl: if req.insecure {
                    Some(false)
                } else {
                    q.verify_ssl
                },
                timeout_ms: match req.timeout_ms {
                    Some(ms) => if ms > 0 {
                        Some(ms)
                    } else {
                        None
                    },
                    None => q.timeout_ms,
                },
                ca_cert_path: duplicate_opt(&q.ca_cert_path),
            },
        ),
        None => None,
    };
    o.client.options = asked;
    o
}

/// However a workspace is configured and whatever is asked for, at least one case runs at a
/// time and never more than the limit.
pub proof fn law_concurrency_in_bounds(
    root: Seq<char>,
    config: Option<Seq<char>>,
    quoted: Option<u64>,
    req: RunRequestView,
)
    ensures
        1 <= asked_opts(opened(root, config, quoted), req).concurrency <= MAX_CONCURRENCY,
{
}

/// A variable that is given for a run has the value that was given last, whatever the
/// environment says; the other variables of the environment stay.
pub proof fn law_given_vars_win(env: Seq<(Seq<char>, Seq<char>)>, vars: Seq<(Seq<char>, Seq<char>)>, k: Seq<
    char,
>, i: int)
    requires
        sorted(env),
        -1 <= i < vars.len(),
        i >= 0 ==> vars[i].0 == k,
        forall|j: int| i < j < vars.len() ==> (#[trigger] vars[j]).0 != k,
    ensures
        sorted(put_all_sorted(env, vars)),
        lookup(put_all_sorted(env, vars), k) == (if i >= 0 {
            Some(vars[i].1)
        } else {
            lookup(env, k)
        }),
    decreases vars.len(),
{
    if vars.len() > 0 {
        let d = vars.drop_last();
        if i == vars.len() - 1 {
            lemma_given_sorted(env, d);
        } else {
            assert forall|j: int| i < j < d.len() implies (#[trigger] d[j]).0 != k by {
                assert(d[j] == vars[j]);
            }
            assert(vars[vars.len() - 1].0 != k);
            law_given_vars_win(env, d, k, i);
        }
        law_put_sorted(put_all_sorted(env, d), vars.last().0, vars.last().1, k);
    }
}

proof fn lemma_given_sorted(env: Seq<(Seq<char>, Seq<char>)>, vars: Seq<(Seq<char>, Seq<char>)>)
    requires
        sorted(env),
    ensures
        sorted(put_all_sorted(env, vars)),
    decreases vars.len(),
{
    if vars.len() > 0 {
        lemma_given_sorted(env, vars.drop_last());
        law_put_sorted(
            put_all_sorted(env, vars.drop_last()),
            vars.last().0,
            vars.last().1,
            vars.last().0,
        );
    }
}

/// What a report says of how a run was made.
pub open spec fn options_of(o: RunOptsView, targets: Seq<Seq<char>>, recursive: bool) -> RunOptionsView {
    RunOptionsView {
        targets,
        recursive,
        environment: o.environment.name,
        concurrency: o.concurrency,
        stop_on_failure: o.stop_on_failure,
        max_body_bytes: o.max_body_bytes,
        continue_on_assertion_failure: o.continue_on_assertion_failure,
    }
}

/// What a report says of how a run was made.
pub fn run_options(o: &RunOpts, targets: Vec<String>, recursive: bool) -> (r: RunOptions)
    ensures
        r@ == options_of(o@, views(targets@), recursive),
{
    RunOptions {
        targets,
        recursive,
        environment: copy_text(o.environment.name.as_str()),
        concurrency: o.concurrency,
        stop_on_failure: o.stop_on_failure,
        max_body_bytes: o.max_body_bytes,
        continue_on_assertion_failure: o.continue_on_assertion_failure,
    }
}

// ---- targets ---------------------------------------------------------------------------

/// Where cases are looked for. A directory that is no workspace is not walked unless it is
/// named: real requests are sent.
pub open spec fn roots_of(ws: WorkspaceView, req: RunRequestView) -> Result<Seq<Seq<char>>, Seq<char>> {
    if req.targets.len() > 0 {
        Ok(req.targets)
    } else if ws.anchored {
        Ok(seq![ws.root])
    } else {
        Err(
            ws.root + " 不是工作空间（没有 "@ + CONFIG_FILE@
                + "），不能省略目标——请指明要跑哪个文件或目录，或用 apicase init 把它声明为工作空间"@,
        )
    }
}

/// Where cases are looked for.
pub fn target_roots(ws: &Workspace, req: &RunRequest) -> (r: Result<Vec<String>, String>)
    ensures
        match r {
            Ok(v) => roots_of(ws@, req@) == Ok::<Seq<Seq<char>>, Seq<char>>(views(v@)),
            Err(e) => roots_of(ws@, req@) == Err::<Seq<Seq<char>>, Seq<char>>(e@),
        },
{
    if req.targets.len() > 0 {
        return Ok(copy_texts(&req.targets));
    }
    if ws.is_scratch() {
        let mut m: String = cat3(ws.root.as_str(), " 不是工作空间（没有 ", CONFIG_FILE);
        m.push_str(
            "），不能省略目标——请指明要跑哪个文件或目录，或用 apicase init 把它声明为工作空间",
        );
        return Err(m);
    }
    let mut out: Vec<String> = Vec::new();
    out.push(copy_text(ws.root.as_str()));
    assert(views(out@) =~= seq![ws@.root]);
    Ok(out)
}

/// The cases of a run and the targets that its report names.
pub open spec fn targets_of(ws: WorkspaceView, roots: Seq<Seq<char>>, files: Seq<Seq<char>>) -> Result<
    (Seq<BatchTargetView>, Seq<Seq<char>>),
    Seq<char>,
> {
    if files.len() == 0 {
        Err(
            join(roots, "、"@) + " 里没有可运行的用例（找的是 .yml / .yaml，不含 "@ + CONFIG_FILE@
                + "）"@,
        )
    } else {
        Ok(
            (
                files.map_values(
                    |p: Seq<char>| BatchTargetView { file: relative(ws.root, p), path: p },
                ),
                roots.map_values(|p: Seq<char>| relative(ws.root, p)),
            ),
        )
    }
}

/// The first root that is not there.
pub open spec fn first_missing(roots: Seq<Seq<char>>, exist: Seq<bool>, i: int) -> Option<Seq<char>>
    decreases roots.len() - i,
{
    if i < 0 || i >= roots.len() || i >= exist.len() {
        None
    } else if !exist[i] {
        Some("目标不存在："@ + roots[i])
    } else {
        first_missing(roots, exist, i + 1)
    }
}

/// What is wrong with the roots of a run, given which of them exist.
pub fn missing_target(roots: &Vec<String>, exist: &Vec<bool>) -> (r: Option<String>)
    ensures
        opt_view(r) == first_missing(views(roots@), exist@, 0),
{
    let mut i: usize = 0;
    while i < roots.len() && i < exist.len()
        invariant
            i <= roots@.len(),
            i <= exist@.len(),
            first_missing(views(roots@), exist@, 0) == first_missing(
                views(roots@),
                exist@,
                i as int,
            ),
        decreases roots@.len() - i,
    {
        if !exist[i] {
            return Some(cat("目标不存在：", roots[i].as_str()));
        }
        i = i + 1;
    }
    None
}

/// The cases of a run and the targets that its report names, given the files that were found.
pub fn resolve_targets(ws: &Workspace, roots: &Vec<String>, files: &Vec<String>) -> (r: Result<
    (Vec<BatchTarget>, Vec<String>),
    String,
>)
    ensures
        match r {
            Ok(p) => targets_of(ws@, views(roots@), views(files@)) == Ok::<
                (Seq<BatchTargetView>, Seq<Seq<char>>),
                Seq<char>,
            >((views(p.0@), views(p.1@))),
            Err(e) => targets_of(ws@, views(roots@), views(files@)) == Err::<
                (Seq<BatchTargetView>, Seq<Seq<char>>),
                Seq<char>,
            >(e@),
        },
{
    if files.len() == 0 {
        let mut m: String = joined(roots, "、");
        m.push_str(" 里没有可运行的用例（找的是 .yml / .yaml，不含 ");
        m.push_str(CONFIG_FILE);
        m.push_str("）");
        return Err(m);
    }
    let mut targets: Vec<BatchTarget> = Vec::new();
    let mut i: usize = 0;
    while i < files.len()
        invariant
            i <= files@.len(),
            targets@.len() == i,
            forall|k: int|
                0 <= k < i ==> (#[trigger] targets@[k])@ == (BatchTargetView {
                    file: relative(ws@.root, files@[k]@),
                    path: files@[k]@,
                }),
        decreases files@.len() - i,
    {
        targets.push(
            BatchTarget { file: ws.rel(files[i].as_str()), path: copy_text(files[i].as_str()) },
        );
        i = i + 1;
    }
    let mut rels: Vec<String> = Vec::new();
    let mut j: usize = 0;
    while j < roots.len()
        invariant
            j <= roots@.len(),
            rels@.len() == j,
            forall|k: int|
                0 <= k < j ==> (#[trigger] rels@[k])@ == relative(ws@.root, roots@[k]@),
        decreases roots@.len() - j,
    {
        rels.push(ws.rel(roots[j].as_str()));
        j = j + 1;
    }
    proof {
        assert(views(targets@) =~= views(files@).map_values(
            |p: Seq<char>| BatchTargetView { file: relative(ws@.root, p), path: p },
        ));
        assert(views(rels@) =~= views(roots@).map_values(|p: Seq<char>| relative(ws@.root, p)));
    }
    Ok((targets, rels))
}

// ---- reports ---------------------------------------------------------------------------

/// The targets that say something in the name of a report: the root itself does not.
pub open spec fn usable(rels: Seq<Seq<char>>) -> Seq<Seq<char>>
    decreases rels.len(),
{
    if rels.len() == 0 {
        seq![]
    } else if rels.last().len() > 0 && rels.last() != "."@ {
        usable(rels.drop_last()).push(rels.last())
    } else {
        usable(rels.drop_last())
    }
}

/// The file of a report. A directory that is no workspace gets one only if it was asked for.
pub open spec fn sink_path(
    ws: WorkspaceView,
    sink: ReportSinkView,
    rels: Seq<Seq<char>>,
    stamp: Seq<char>,
) -> Option<Seq<char>> {
    match sink {
        ReportSinkView::NoReport => None,
        ReportSinkView::Path(p) => Some(p),
        ReportSinkView::Auto => if ws.anchored {
            let name = if usable(rels).len() == 0 {
                target_name(file_name_of(ws.root))
            } else {
                targets_name(usable(rels))
            };
            Some(below(below(ws.root, REPORTS_DIR@), report_name(stamp, name)))
        } else {
            None
        },
    }
}

fn usable_targets(rels: &Vec<String>) -> (r: Vec<String>)
    ensures
        views(r@) == usable(views(rels@)),
{
    let ghost w = views(rels@);
    let mut out: Vec<String> = Vec::new();
    let mut i: usize = 0;
    assert(w.take(0) =~= seq![]);
    assert(views(out@) =~= seq![]);
    while i < rels.len()
        invariant
            i <= rels@.len(),
            w == views(rels@),
            views(out@) == usable(w.take(i as int)),
        decreases rels@.len() - i,
    {
        proof {
            assert(w.take(i + 1).drop_last() =~= w.take(i as int));
            assert(w.take(i + 1).last() == rels@[i as int]@);
        }
        let t: &str = rels[i].as_str();
        if !empty(t) && !same(t, ".") {
            let c: String = copy_text(t);
            proof {
                lemma_views_push(out@, c);
            }
            out.push(c);
        }
        i = i + 1;
    }
    assert(w.take(w.len() as int) =~= w);
    out
}

/// The file of a report of the targets `rels`, made at `stamp`.
pub fn report_path(ws: &Workspace, sink: &ReportSink, rels: &Vec<String>, stamp: &str) -> (r: Option<
    String,
>)
    ensures
        opt_view(r) == sink_path(ws@, sink@, views(rels@), stamp@),
{
    match sink {
        ReportSink::NoReport => None,
        ReportSink::Path(p) => Some(copy_text(p.as_str())),
        ReportSink::Auto => {
            if ws.is_scratch() {
                return None;
            }
            let named: Vec<String> = usable_targets(rels);
            let file: String = if named.len() == 0 {
                report_file_name(stamp, ws.name().as_str())
            } else {
                report_file_name_multi(stamp, &named)
            };
            Some(join_path(ws.reports_dir().as_str(), file.as_str()))
        },
    }
}

/// Where a report goes: to the file that is named, else nowhere if none is wanted. A case that
/// is given as text has no place among the reports.
pub open spec fn sink_of(file: Option<Seq<char>>, no_report: bool, inline: bool) -> ReportSinkView {
    match file {
        Some(p) => ReportSinkView::Path(p),
        None => if no_report || inline {
            ReportSinkView::NoReport
        } else {
            ReportSinkView::Auto
        },
    }
}

/// Where a report goes.
pub fn report_sink(file: Option<String>, no_report: bool, inline: bool) -> (r: ReportSink)
    ensures
        r@ == sink_of(opt_view(file), no_report, inline),
{
    match file {
        Some(p) => ReportSink::Path(p),
        None => if no_report || inline {
            ReportSink::NoReport
        } else {
            ReportSink::Auto
        },
    }
}

/// A directory that is no workspace gets no report that was not asked for.
pub proof fn law_scratch_gets_no_report(
    ws: WorkspaceView,
    sink: ReportSinkView,
    rels: Seq<Seq<char>>,
    stamp: Seq<char>,
)
    requires
        !ws.anchored,
    ensures
        sink_path(ws, sink, rels, stamp) is Some ==> sink is Path,
{
}

// ---- one case --------------------------------------------------------------------------

/// The case of a text, or why it is none.
pub open spec fn runnable(a: AnalyzeResultView) -> Result<CaseView, Seq<char>> {
    match a.case {
        Some(c) => if a.valid {
            Ok(c)
        } else {
            Err(why_not(a))
        },
        None => Err(why_not(a)),
    }
}

/// The case that an editor read, or why it is none.
pub fn take_case(a: AnalyzeResult) -> (r: Result<Case, String>)
    ensures
        match r {
            Ok(c) => runnable(a@) == Ok::<CaseView, Seq<char>>(c@),
            Err(e) => runnable(a@) == Err::<CaseView, Seq<char>>(e@),
        },
{
    let why: String = reason(&a);
    if a.valid {
        if let Some(c) = a.case {
            return Ok(c);
        }
    }
    Err(why)
}

/// The case of a text, or why it is none.
pub fn read_case(text: &str) -> (r: Result<Case, String>)
    ensures
        match r {
            Ok(c) => runnable(analysis(loaded(text@))) == Ok::<CaseView, Seq<char>>(c@),
            Err(e) => runnable(analysis(loaded(text@))) == Err::<CaseView, Seq<char>>(e@),
        },
{
    take_case(analyze_case(text))
}

/// What becomes of a case: it is run, or it is skipped with a reason.
pub open spec fn ready(c: Result<CaseView, Seq<char>>, file: Seq<char>, at: u64) -> Result<
    CaseView,
    CaseResultView,
> {
    match c {
        Ok(c) => if c.requests.len() == 0 {
            Err(case_skipped(file, "用例没有任何请求"@, at))
        } else {
            Ok(c)
        },
        Err(e) => Err(case_skipped(file, e, at)),
    }
}

/// What was read of a file: its text, or why there is none.
pub open spec fn read_view(read: Result<String, String>) -> Result<Seq<char>, Seq<char>> {
    match read {
        Ok(t) => Ok(t@),
        Err(e) => Err(e@),
    }
}

/// The case that a file gives, or why it gives none. A file that cannot be read is no case.
pub open spec fn case_in_file(read: Result<Seq<char>, Seq<char>>) -> Result<CaseView, Seq<char>> {
    match read {
        Ok(t) => runnable(analysis(loaded(t))),
        Err(e) => Err("读取失败："@ + e),
    }
}

/// The case to run. One without a request is skipped.
pub fn open_case(case: Case, file: &str, at: u64) -> (r: Result<Case, CaseResult>)
    ensures
        match r {
            Ok(c) => ready(Ok(case@), file@, at) == Ok::<CaseView, CaseResultView>(c@),
            Err(s) => ready(Ok(case@), file@, at) == Err::<CaseView, CaseResultView>(s@),
        },
{
    if case.requests.len() == 0 {
        return Err(skipped_case(file, "用例没有任何请求", at));
    }
    Ok(case)
}

/// The case of a text, or what is reported where it is none.
pub fn open_text(text: &str, file: &str, at: u64) -> (r: Result<Case, CaseResult>)
    ensures
        match r {
            Ok(c) => ready(runnable(analysis(loaded(text@))), file@, at) == Ok::<
                CaseView,
                CaseResultView,
            >(c@),
            Err(s) => ready(runnable(analysis(loaded(text@))), file@, at) == Err::<
                CaseView,
                CaseResultView,
            >(s@),
        },
{
    match read_case(text) {
        Ok(c) => open_case(c, file, at),
        Err(e) => Err(skipped_case(file, e.as_str(), at)),
    }
}

/// The case of a file as it was read. A file that could not be read is reported as skipped.
pub fn open_file(read: &Result<String, String>, file: &str, at: u64) -> (r: Result<Case, CaseResult>)
    ensures
        match r {
            Ok(c) => ready(case_in_file(read_view(*read)), file@, at) == Ok::<
                CaseView,
                CaseResultView,
            >(c@),
            Err(s) => ready(case_in_file(read_view(*read)), file@, at) == Err::<
                CaseView,
                CaseResultView,
            >(s@),
        },
{
    match read {
        Ok(t) => open_text(t.as_str(), file, at),
        Err(e) => {
            let why: String = cat("读取失败：", e.as_str());
            Err(skipped_case(file, why.as_str(), at))
        },
    }
}

/// The case that a file gives where only some steps are run, or why it gives none.
pub open spec fn selection_in_file(
    read: Result<Seq<char>, Seq<char>>,
    path: Seq<char>,
    ids: Seq<Seq<char>>,
) -> Result<CaseView, Seq<char>> {
    match read {
        Ok(t) => match runnable(analysis(loaded(t))) {
            Ok(c) => narrowed(c, ids),
            Err(e) => Err(e),
        },
        Err(e) => Err("读取 "@ + path + " 失败："@ + e),
    }
}

/// The named steps of a file as it was read, with what they depend on. A file without them is
/// reported as skipped.
pub fn open_selected(
    read: &Result<String, String>,
    path: &str,
    file: &str,
    ids: &Vec<String>,
    at: u64,
) -> (r: Result<Case, CaseResult>)
    ensures
        match r {
            Ok(c) => ready(selection_in_file(read_view(*read), path@, views(ids@)), file@, at)
                == Ok::<CaseView, CaseResultView>(c@),
            Err(s) => ready(selection_in_file(read_view(*read), path@, views(ids@)), file@, at)
                == Err::<CaseView, CaseResultView>(s@),
        },
{
    match read {
        Ok(t) => match read_case(t.as_str()) {
            Ok(c) => match select_steps(c, ids) {
                Ok(c) => open_case(c, file, at),
                Err(e) => Err(skipped_case(file, e.as_str(), at)),
            },
            Err(e) => Err(skipped_case(file, e.as_str(), at)),
        },
        Err(e) => {
            let mut why: String = cat3("读取 ", path, " 失败：");
            why.push_str(e.as_str());
            Err(skipped_case(file, why.as_str(), at))
        },
    }
}

/// No file of a run is passed over in silence: what is not run is reported as skipped, with a
/// reason.
pub proof fn law_nothing_is_dropped(read: Result<Seq<char>, Seq<char>>, file: Seq<char>, at: u64)
    ensures
        match ready(case_in_file(read), file, at) {
            Ok(c) => case_in_file(read) == Ok::<CaseView, Seq<char>>(c) && c.requests.len() > 0,
            Err(s) => s.file == file && s.status == CaseStatus::Skipped && s.skip_reason is Some,
        },
{
}

/// A case with the named steps and what they depend on, in the order in which they run.
pub open spec fn narrowed(c: CaseView, ids: Seq<Seq<char>>) -> Result<CaseView, Seq<char>> {
    let keep = needed(c.requests, ids);
    if keep.len() == 0 {
        Err("没有名为 "@ + join(ids, " / "@) + " 的请求"@)
    } else {
        Ok(CaseView { requests: Seq::new(keep.len(), |k: int| c.requests[keep[k]]), ..c })
    }
}

/// A case with the named steps and what they depend on.
pub fn select_steps(case: Case, ids: &Vec<String>) -> (r: Result<Case, String>)
    ensures
        match r {
            Ok(c) => narrowed(case@, views(ids@)) == Ok::<CaseView, Seq<char>>(c@),
            Err(e) => narrowed(case@, views(ids@)) == Err::<CaseView, Seq<char>>(e@),
        },
{
    let keep: Vec<usize> = with_dependencies(case.requests.as_slice(), ids);
    assert(ints(keep@).len() == keep@.len());
    if keep.len() == 0 {
        let names: String = joined(ids, " / ");
        return Err(cat3("没有名为 ", names.as_str(), " 的请求"));
    }
    let mut steps: Vec<Step> = Vec::new();
    let mut i: usize = 0;
    while i < keep.len()
        invariant
            i <= keep@.len(),
            steps@.len() == i,
            forall|k: int| 0 <= k < keep@.len() ==> #[trigger] keep@[k] < case.requests@.len(),
            forall|k: int|
                0 <= k < i ==> (#[trigger] steps@[k])@ == case.requests@[keep@[k] as int]@,
        decreases keep@.len() - i,
    {
        steps.push(case.requests[keep[i]].duplicate());
        i = i + 1;
    }
    let ghost before = case@;
    let mut out: Case = case;
    out.requests = steps;
    assert(out@.requests =~= Seq::new(
        ints(keep@).len(),
        |k: int| before.requests[ints(keep@)[k]],
    ));
    Ok(out)
}

/// The report of a case that was given as text.
pub open spec fn content_begun(ws: WorkspaceView, version: Seq<char>, o: RunOptsView, started: u64) -> RunReportView {
    report_begun(
        BatchMetaView {
            workspace: crate::report::WorkspaceInfoView {
                name: file_name_of(ws.root),
                root: ws.root,
            },
            tool_version: version,
            options: RunOptionsView {
                concurrency: 1,
                ..options_of(o, seq![STDIN_FILE@], false)
            },
        },
        o.environment,
        o.redact,
        started,
    )
}

/// The report of a case that was given as text.
pub fn content_report(
    ws: &Workspace,
    version: &str,
    o: &RunOpts,
    case: CaseResult,
    cancelled: bool,
    started: u64,
    end: u64,
) -> (r: RunReport)
    requires
        countable(seq![case@]),
    ensures
        summarizes(r@.summary, seq![case@]),
        r@ == (RunReportView {
            cases: seq![case@],
            summary: r@.summary,
            status: if cancelled {
                RunStatus::Cancelled
            } else {
                RunStatus::Done
            },
            finished_at: Some(iso_text(end as nat)),
            duration_ms: (if end > started {
                end - started
            } else {
                0
            }) as u64,
            ..content_begun(ws@, version@, o@, started)
        }),
{
    let mut targets: Vec<String> = Vec::new();
    targets.push(copy_text(STDIN_FILE));
    assert(views(targets@) =~= seq![STDIN_FILE@]);
    let mut options: RunOptions = run_options(o, targets, false);
    options.concurrency = 1;
    let meta: BatchMeta = BatchMeta {
        workspace: ws.info(),
        tool_version: copy_text(version),
        options,
    };
    let mut report: RunReport = begin_report(meta, o, started);
    let took: u64 = if end > started {
        end - started
    } else {
        0
    };
    assert(views(report.cases@).push(case@) =~= seq![case@]);
    push_case(&mut report, case, took);
    finish_report(&mut report, cancelled, false, end, took);
    report
}

// ---- how it ended ----------------------------------------------------------------------

/// Everything passed.
pub const EXIT_OK: u8 = 0;

/// An assertion failed: the service is at fault.
pub const EXIT_FAILED: u8 = 1;

/// The tool was not used as it should be.
pub const EXIT_USAGE: u8 = 2;

/// A request could not be sent or a case was not run: the surroundings or the case are at fault.
pub const EXIT_ERROR: u8 = 3;

/// The run was interrupted.
pub const EXIT_INTERRUPTED: u8 = 130;

/// Whether assertions failed.
pub fn has_failures(report: &RunReport) -> (r: bool)
    ensures
        r == (report@.summary.failed > 0),
{
    report.summary.failed > 0
}

/// Whether requests could not be sent or cases were not run.
pub fn has_errors(report: &RunReport) -> (r: bool)
    ensures
        r == (report@.summary.error > 0 || report@.summary.skipped > 0),
{
    report.summary.error > 0 || report.summary.skipped > 0
}

/// What a run tells the shell.
pub open spec fn exit_of(s: RunSummary, cancelled: bool) -> u8 {
    if cancelled {
        EXIT_INTERRUPTED
    } else if s.error > 0 || s.skipped > 0 {
        EXIT_ERROR
    } else if s.failed > 0 {
        EXIT_FAILED
    } else {
        EXIT_OK
    }
}

/// What a run tells the shell. What could not be run weighs more than what failed.
pub fn exit_code(report: &RunReport, cancelled: bool) -> (r: u8)
    ensures
        r == exit_of(report@.summary, cancelled),
{
    if cancelled {
        EXIT_INTERRUPTED
    } else if has_errors(report) {
        EXIT_ERROR
    } else if has_failures(report) {
        EXIT_FAILED
    } else {
        EXIT_OK
    }
}

/// Whether a case did what it should, as far as it has come.
pub open spec fn went_well(c: CaseResultView) -> bool {
    c.status == CaseStatus::Passed || c.status == CaseStatus::Running
}

proof fn lemma_none_with(c: Seq<CaseResultView>, st: CaseStatus)
    ensures
        cases_with(c, st) == 0 <==> forall|i: int| 0 <= i < c.len() ==> (#[trigger] c[i]).status != st,
    decreases c.len(),
{
    if c.len() > 0 {
        let d = c.drop_last();
        lemma_none_with(d, st);
        if cases_with(c, st) == 0 {
            assert forall|i: int| 0 <= i < c.len() implies (#[trigger] c[i]).status != st by {
                if i < d.len() {
                    assert(d[i].status != st);
                }
            }
        }
        if forall|i: int| 0 <= i < c.len() ==> (#[trigger] c[i]).status != st {
            assert forall|i: int| 0 <= i < d.len() implies (#[trigger] d[i]).status != st by {
                assert(c[i].status != st);
            }
            assert(c[c.len() - 1].status != st);
        }
    }
}

/// A run that was not interrupted tells the shell that all is well if and only if every case
/// went well.
pub proof fn law_exit_zero(s: RunSummary, c: Seq<CaseResultView>)
    requires
        summarizes(s, c),
    ensures
        exit_of(s, false) == EXIT_OK <==> forall|i: int| 0 <= i < c.len() ==> went_well(#[trigger] c[i]),
{
    lemma_none_with(c, CaseStatus::Failed);
    lemma_none_with(c, CaseStatus::Error);
    lemma_none_with(c, CaseStatus::Skipped);
    if forall|i: int| 0 <= i < c.len() ==> went_well(#[trigger] c[i]) {
        assert forall|i: int| 0 <= i < c.len() implies (#[trigger] c[i]).status != CaseStatus::Failed
            && c[i].status != CaseStatus::Error && c[i].status != CaseStatus::Skipped by {
            assert(went_well(c[i]));
        }
    }
}

// ---- laws of what is asked for -----------------------------------------------------------

/// A variable is given by its name, an equals sign and its value: the name is trimmed and must say
/// something, and the value is all that follows, more equals signs included.
pub proof fn law_var_given(name: Seq<char>, value: Seq<char>)
    requires
        !name.contains('='),
    ensures
        !is_blank(name) ==> var_of(name + "="@ + value) == Some((trim(name), value)),
        is_blank(name) ==> var_of(name + "="@ + value) is None,
        var_of(name) is None,
{
    reveal_strlit("=");
    let s = name + "="@ + value;
    let n = name.len() as int;
    assert forall|k: int| 0 <= k < n implies s[k] != '=' && name[k] != '=' by {
        assert(s[k] == name[k]);
        assert(name.contains(name[k]));
    }
    assert(s[n] == '=');
    lemma_seek_is(s, '=', 0, n);
    lemma_seek_is(name, '=', 0, n);
    assert(s.take(n) =~= name);
    assert(s.skip(n + 1) =~= value);
}

/// Variables are read one by one and in order; the first that is none is told, and nothing after
/// it is read.
pub proof fn law_vars_in_order(raw: Seq<Seq<char>>, s: Seq<char>)
    ensures
        vars_given(seq![]) == Ok::<_, Seq<char>>(Seq::<(Seq<char>, Seq<char>)>::empty()),
        match vars_given(raw) {
            Err(e) => vars_given(raw.push(s)) == Err::<Seq<(Seq<char>, Seq<char>)>, _>(e),
            Ok(l) => match var_of(s) {
                Some(v) => vars_given(raw.push(s)) == Ok::<_, Seq<char>>(l.push(v)),
                None => vars_given(raw.push(s)) == Err::<Seq<(Seq<char>, Seq<char>)>, _>(
                    "--var 要写成 name=value，收到的是 `"@ + s + "`"@,
                ),
            },
        },
{
    assert(raw.push(s).drop_last() =~= raw);
}

/// What is asked for wins over what the workspace says, switch by switch; what is not asked for is
/// as the workspace says.
pub proof fn law_asked_wins(ws: WorkspaceView, req: RunRequestView)
    ensures
        ({
            let o = asked_opts(ws, req);
            let plain = opts_of(ws, run_env(ws, req), req.proxy);
            &&& o.stop_on_failure == req.stop_on_failure
            &&& req.concurrency is None ==> o.concurrency == ws.settings.concurrency
            &&& req.concurrency is Some ==> o.concurrency == (if req.concurrency->0 < 1 {
                1
            } else if req.concurrency->0 > 64 {
                64
            } else {
                req.concurrency->0
            })
            &&& req.continue_on_assertion_failure is None ==> o.continue_on_assertion_failure
                == ws.settings.continue_on_assertion_failure
            &&& req.continue_on_assertion_failure is Some ==> Some(o.continue_on_assertion_failure)
                == req.continue_on_assertion_failure
            &&& o.redact
            &&& o.max_body_bytes == 65536
            &&& o.environment == run_env(ws, req)
            &&& o.client.proxy == req.proxy
            &&& o.client.cookies == plain.client.cookies
            &&& o.client.options is Some && plain.client.options is Some
            &&& o.client.options->0.ca_cert_path == plain.client.options->0.ca_cert_path
            &&& req.insecure ==> o.client.options->0.verify_ssl == Some(false)
            &&& !req.insecure ==> o.client.options->0.verify_ssl
                == plain.client.options->0.verify_ssl
            &&& req.timeout_ms is None ==> o.client.options->0.timeout_ms
                == plain.client.options->0.timeout_ms
            &&& req.timeout_ms == Some(0u64) ==> o.client.options->0.timeout_ms is None
            &&& req.timeout_ms is Some && req.timeout_ms->0 > 0 ==> o.client.options->0.timeout_ms
                == req.timeout_ms
        }),
{
}

/// A report tells how a run was made.
pub proof fn law_options_told(o: RunOptsView, targets: Seq<Seq<char>>, recursive: bool)
    ensures
        options_of(o, targets, recursive).targets == targets,
        options_of(o, targets, recursive).recursive == recursive,
        options_of(o, targets, recursive).environment == o.environment.name,
        options_of(o, targets, recursive).concurrency == o.concurrency,
        options_of(o, targets, recursive).stop_on_failure == o.stop_on_failure,
        options_of(o, targets, recursive).max_body_bytes == o.max_body_bytes,
        options_of(o, targets, recursive).continue_on_assertion_failure
            == o.continue_on_assertion_failure,
{
}

/// Cases are looked for where they are asked for, else in the whole workspace; a directory that is
/// no workspace is not walked unless it is named.
pub proof fn law_where_cases_are(ws: WorkspaceView, req: RunRequestView)
    ensures
        req.targets.len() > 0 ==> roots_of(ws, req) == Ok::<_, Seq<char>>(req.targets),
        req.targets.len() == 0 && ws.anchored ==> roots_of(ws, req) == Ok::<_, Seq<char>>(
            seq![ws.root],
        ),
        req.targets.len() == 0 && !ws.anchored ==> roots_of(ws, req) is Err,
{
}

/// Every file that was found is a case to run, in the order in which they were found, and none is
/// added; a run without one is refused.
pub proof fn law_every_file_is_run(
    ws: WorkspaceView,
    roots: Seq<Seq<char>>,
    files: Seq<Seq<char>>,
    i: int,
)
    ensures
        files.len() == 0 <==> targets_of(ws, roots, files) is Err,
        match targets_of(ws, roots, files) {
            Ok((cases, told)) => {
                &&& cases.len() == files.len()
                &&& 0 <= i < files.len() ==> cases[i].path == files[i] && cases[i].file == relative(
                    ws.root,
                    files[i],
                )
                &&& told.len() == roots.len()
                &&& 0 <= i < roots.len() ==> told[i] == relative(ws.root, roots[i])
            },
            Err(_) => true,
        },
{
}

/// A run is refused for the first target that is not there, and only for one that is not.
pub proof fn law_missing_target(roots: Seq<Seq<char>>, exist: Seq<bool>, from: int, i: int)
    requires
        roots.len() == exist.len(),
        0 <= from <= i <= roots.len(),
        forall|k: int| from <= k < i ==> #[trigger] exist[k],
        i < roots.len() ==> !exist[i],
    ensures
        first_missing(roots, exist, from) == (if i < roots.len() {
            Some("目标不存在："@ + roots[i])
        } else {
            None
        }),
    decreases i - from,
{
    if from < i {
        assert(exist[from]);
        law_missing_target(roots, exist, from + 1, i);
    }
}

/// A report goes to the file that is named, whatever else is said; to none if none is wanted or
/// the case is given as text; and else among the reports of the workspace.
pub proof fn law_where_a_report_goes(
    ws: WorkspaceView,
    file: Option<Seq<char>>,
    no_report: bool,
    inline: bool,
    rels: Seq<Seq<char>>,
    stamp: Seq<char>,
)
    ensures
        ({
            let path = sink_path(ws, sink_of(file, no_report, inline), rels, stamp);
            &&& file is Some ==> path == file
            &&& file is None && (no_report || inline) ==> path is None
            &&& file is None && !no_report && !inline ==> {
                &&& !ws.anchored ==> path is None
                &&& ws.anchored && usable(rels).len() == 0 ==> path == Some(
                    below(
                        below(ws.root, REPORTS_DIR@),
                        report_name(stamp, target_name(file_name_of(ws.root))),
                    ),
                )
                &&& ws.anchored && usable(rels).len() > 0 ==> path == Some(
                    below(
                        below(ws.root, REPORTS_DIR@),
                        report_name(stamp, targets_name(usable(rels))),
                    ),
                )
            }
        }),
{
}

/// The targets that name a report are those that say something, in order.
pub proof fn law_targets_that_name(rels: Seq<Seq<char>>, r: Seq<char>)
    ensures
        usable(seq![]).len() == 0,
        r.len() == 0 || r == "."@ ==> usable(rels.push(r)) == usable(rels),
        r.len() > 0 && r != "."@ ==> usable(rels.push(r)) == usable(rels).push(r),
{
    assert(rels.push(r).drop_last() =~= rels);
}

/// A case is run if and only if it was read, is valid and has a step; otherwise it is skipped, with
/// the reason that reading it gave.
pub proof fn law_what_is_run(a: AnalyzeResultView, file: Seq<char>, at: u64)
    ensures
        ready(runnable(a), file, at) is Ok <==> a.valid && a.case is Some
            && a.case->0.requests.len() > 0,
        match ready(runnable(a), file, at) {
            Ok(c) => Some(c) == a.case,
            Err(s) => {
                &&& s.file == file
                &&& s.steps.len() == 0
                &&& !(a.valid && a.case is Some) && a.error is Some ==> s.skip_reason == a.error
                &&& a.valid && a.case is Some ==> s.skip_reason == Some("用例没有任何请求"@)
            },
        },
{
}

/// A selection of steps is a case of its own: it keeps its name and variables, its steps are those
/// that were selected, in the order in which they run, and without one it is refused.
pub proof fn law_selection_is_a_case(c: CaseView, ids: Seq<Seq<char>>, k: int)
    ensures
        narrowed(c, ids) is Err <==> needed(c.requests, ids).len() == 0,
        match narrowed(c, ids) {
            Ok(n) => {
                &&& n.version == c.version
                &&& n.name == c.name
                &&& n.vars == c.vars
                &&& n.requests.len() == needed(c.requests, ids).len()
                &&& 0 <= k < n.requests.len() ==> n.requests[k] == c.requests[needed(
                    c.requests,
                    ids,
                )[k]]
            },
            Err(_) => true,
        },
{
}

/// What a run tells the shell: that it was interrupted before everything else; that something went
/// wrong in it, be it an error or a case that could not be run; else that a case failed; else that
/// all is well. The four are told apart.
pub proof fn law_exit_codes(s: RunSummary)
    ensures
        exit_of(s, true) == 130,
        s.error > 0 || s.skipped > 0 ==> exit_of(s, false) == 3,
        s.error == 0 && s.skipped == 0 && s.failed > 0 ==> exit_of(s, false) == 1,
        s.error == 0 && s.skipped == 0 && s.failed == 0 ==> exit_of(s, false) == 0,
{
}

} // verus!
