//! Checking a case without sending anything.
//!
//! A case can be read and still be pointless to run: a step depends on one that is not there,
//! or an assertion is about nothing. Such things show here instead of in a report.
use crate::assertion::{is_known_target, known_target};
use crate::case_file::{analysis, analyze_case, AnalyzeResult, AnalyzeResultView};
use crate::discover::{ReadFile, ReadFileView};
use crate::graph::{cycle, find_closed_path, ints, law_cycle};
use crate::model::{
    assert_op_name, takes_value, Assertion, AssertionView, Case, CaseView, Step, StepOutput,
    StepOutputView, StepView,
};
use crate::runner::{dependency_lists, graph_of, lemma_graph_of};
use crate::text::{
    blank, cat, cat3, copy_text, duplicates, empty, is_blank, join, joined, lemma_views_push,
    nat_text, opt_view, same, trim, trimmed, usize_text, views, Duplicate,
};
use crate::workspace::{relative, Workspace, WorkspaceView};
use crate::yaml::loaded;
use vstd::prelude::*;

verus! {

/// How bad an issue is: an error spoils every run, a warning is likely not what was meant.
#[derive(Debug, Clone, Copy, PartialEq, Eq, Structural)]
pub enum Severity {
    Error,
    Warning,
}

/// Something that is wrong with a case.
#[derive(Debug, Clone, PartialEq)]
pub struct Issue {
    pub severity: Severity,
    /// Where it is, such as `steps[2].assertions[0]`.
    pub at: String,
    pub message: String,
}

/// What a `Issue` stands for.
#[verifier::ext_equal]
pub struct IssueView {
    pub severity: Severity,
    pub at: Seq<char>,
    pub message: Seq<char>,
}

impl View for Issue {
    type V = IssueView;

    open spec fn view(&self) -> IssueView {
        IssueView {
            severity: self.severity,
            at: self.at@,
            message: self.message@,
        }
    }
}

impl Duplicate for Issue {
    fn duplicate(&self) -> (r: Self) {
        Issue {
            severity: self.severity,
            at: copy_text(self.at.as_str()),
            message: copy_text(self.message.as_str()),
        }
    }
}

/// What checking a file found.
#[derive(Debug, Clone, PartialEq)]
pub struct CheckResult {
    pub file: String,
    /// Whether there is no error; warnings do not count.
    pub ok: bool,
    pub issues: Vec<Issue>,
}

/// What a `CheckResult` stands for.
#[verifier::ext_equal]
pub struct CheckResultView {
    pub file: Seq<char>,
    pub ok: bool,
    pub issues: Seq<IssueView>,
}

impl View for CheckResult {
    type V = CheckResultView;

    open spec fn view(&self) -> CheckResultView {
        CheckResultView {
            file: self.file@,
            ok: self.ok,
            issues: views(self.issues@),
        }
    }
}

impl Duplicate for CheckResult {
    fn duplicate(&self) -> (r: Self) {
        CheckResult {
            file: copy_text(self.file.as_str()),
            ok: self.ok,
            issues: duplicates(&self.issues),
        }
    }
}

/// What checking files found.
#[derive(Debug, Clone, PartialEq)]
pub struct CheckReport {
    pub results: Vec<CheckResult>,
    pub total: usize,
    pub ok: usize,
    pub errors: usize,
    pub warnings: usize,
}

/// What a `CheckReport` stands for.
#[verifier::ext_equal]
pub struct CheckReportView {
    pub results: Seq<CheckResultView>,
    pub total: usize,
    pub ok: usize,
    pub errors: usize,
    pub warnings: usize,
}

impl View for CheckReport {
    type V = CheckReportView;

    open spec fn view(&self) -> CheckReportView {
        CheckReportView {
            results: views(self.results@),
            total: self.total,
            ok: self.ok,
            errors: self.errors,
            warnings: self.warnings,
        }
    }
}

impl Duplicate for CheckReport {
    fn duplicate(&self) -> (r: Self) {
        CheckReport {
            results: duplicates(&self.results),
            total: self.total,
            ok: self.ok,
            errors: self.errors,
            warnings: self.warnings,
        }
    }
}

// ---- one case --------------------------------------------------------------------------

/// An error.
pub open spec fn error_at(at: Seq<char>, message: Seq<char>) -> IssueView {
    IssueView { severity: Severity::Error, at, message }
}

/// A warning.
pub open spec fn warning_at(at: Seq<char>, message: Seq<char>) -> IssueView {
    IssueView { severity: Severity::Warning, at, message }
}

/// A place in a case.
pub open spec fn step_place(i: int, suffix: Seq<char>) -> Seq<char> {
    "steps["@ + nat_text(i as nat) + "]"@ + suffix
}

/// A place in a list of a step.
pub open spec fn item_place(i: int, list: Seq<char>, j: int) -> Seq<char> {
    step_place(i, list + "["@ + nat_text(j as nat) + "]"@)
}

/// One issue, or none.
pub open spec fn issue_if(wrong: bool, issue: IssueView) -> Seq<IssueView> {
    if wrong {
        seq![issue]
    } else {
        seq![]
    }
}

/// Whether a step has an id.
pub open spec fn has_id(steps: Seq<StepView>, id: Seq<char>) -> bool {
    exists|k: int| 0 <= k < steps.len() && (#[trigger] steps[k]).id == id
}

/// What is wrong with the id of a step: it is missing, or an earlier step has it.
pub open spec fn id_issues(steps: Seq<StepView>, i: int) -> Seq<IssueView> {
    let id = steps[i].id;
    if is_blank(id) {
        seq![error_at(step_place(i, seq![]), "请求缺少 id"@)]
    } else {
        issue_if(
            has_id(steps.take(i), id),
            error_at(step_place(i, seq![]), "请求 id 重复："@ + id),
        )
    }
}

/// The first `n` dependencies of a step that are no steps.
pub open spec fn dependency_issues(steps: Seq<StepView>, i: int, n: nat) -> Seq<IssueView>
    decreases n,
{
    if n == 0 || n > steps[i].depends_on.len() {
        seq![]
    } else {
        let dep = steps[i].depends_on[n - 1];
        dependency_issues(steps, i, (n - 1) as nat) + issue_if(
            !has_id(steps, dep),
            error_at(item_place(i, ".dependsOn"@, n - 1), "依赖的请求不存在："@ + dep),
        )
    }
}

/// What is wrong with an assertion.
pub open spec fn assertion_issues(a: AssertionView, at: Seq<char>) -> Seq<IssueView> {
    (if is_blank(a.target) {
        seq![warning_at(at, "断言没有目标，运行时会被跳过"@)]
    } else {
        issue_if(
            !known_target(a.target),
            warning_at(
                at,
                "认不出的断言目标 `"@ + trim(a.target)
                    + "`——目标要写成 res.status / res.headers.<名> / res.body<路径>"@,
            ),
        )
    }) + issue_if(
        takes_value(a.op) && (a.value is None || a.value->0.len() == 0),
        warning_at(at, assert_op_name(a.op) + " 断言没有期望值"@),
    )
}

/// What is wrong with the first `n` assertions of a step.
pub open spec fn assertions_issues(l: Seq<AssertionView>, i: int, n: nat) -> Seq<IssueView>
    decreases n,
{
    if n == 0 || n > l.len() {
        seq![]
    } else {
        assertions_issues(l, i, (n - 1) as nat) + assertion_issues(
            l[n - 1],
            item_place(i, ".assertions"@, n - 1),
        )
    }
}

/// What is wrong with an output.
pub open spec fn output_issues(o: StepOutputView, at: Seq<char>) -> Seq<IssueView> {
    issue_if(is_blank(o.name), warning_at(at, "输出没有变量名，运行时会被跳过"@)) + issue_if(
        !is_blank(o.path) && !known_target(o.path),
        warning_at(at, "认不出的提取路径 `"@ + trim(o.path) + "`——写法同断言目标"@),
    )
}

/// What is wrong with the first `n` outputs of a step.
pub open spec fn outputs_issues(l: Seq<StepOutputView>, i: int, n: nat) -> Seq<IssueView>
    decreases n,
{
    if n == 0 || n > l.len() {
        seq![]
    } else {
        outputs_issues(l, i, (n - 1) as nat) + output_issues(
            l[n - 1],
            item_place(i, ".outputs"@, n - 1),
        )
    }
}

/// What is wrong with a step.
pub open spec fn step_issues(steps: Seq<StepView>, i: int) -> Seq<IssueView> {
    let s = steps[i];
    id_issues(steps, i) + issue_if(
        is_blank(s.http.url),
        error_at(step_place(i, ".request.url"@), "URL 是空的"@),
    ) + dependency_issues(steps, i, s.depends_on.len()) + assertions_issues(
        s.assertions,
        i,
        s.assertions.len(),
    ) + outputs_issues(s.outputs, i, s.outputs.len())
}

/// What is wrong with the first `n` steps.
pub open spec fn steps_issues(steps: Seq<StepView>, n: nat) -> Seq<IssueView>
    decreases n,
{
    if n == 0 || n > steps.len() {
        seq![]
    } else {
        steps_issues(steps, (n - 1) as nat) + step_issues(steps, n - 1)
    }
}

/// The ids of steps.
pub open spec fn ids_of(steps: Seq<StepView>, c: Seq<int>) -> Seq<Seq<char>> {
    Seq::new(c.len(), |k: int| steps[c[k]].id)
}

/// The first circle of steps that depend on each other, as `a → b → a`.
pub open spec fn cycle_text(steps: Seq<StepView>) -> Option<Seq<char>> {
    match cycle(graph_of(steps)) {
        Some(c) => Some(join(ids_of(steps, c), " → "@)),
        None => None,
    }
}

/// What is wrong with a case.
pub open spec fn issues_of(c: CaseView) -> Seq<IssueView> {
    let steps = c.requests;
    if steps.len() == 0 {
        seq![error_at(seq![], "没有任何请求（steps 是空的）"@)]
    } else {
        steps_issues(steps, steps.len()) + (match cycle_text(steps) {
            Some(t) => seq![error_at(seq![], "依赖成环："@ + t)],
            None => seq![],
        })
    }
}

fn push_issue(out: &mut Vec<Issue>, severity: Severity, at: &str, message: String)
    ensures
        views(final(out)@) == views(old(out)@).push(
            IssueView { severity, at: at@, message: message@ },
        ),
{
    let i: Issue = Issue { severity, at: copy_text(at), message };
    proof {
        lemma_views_push(out@, i);
    }
    out.push(i);
}

/// A place in a case.
fn place_of(i: usize, suffix: &str) -> (r: String)
    ensures
        r@ == step_place(i as int, suffix@),
{
    let mut r: String = copy_text("steps[");
    r.push_str(usize_text(i).as_str());
    r.push_str("]");
    r.push_str(suffix);
    r
}

/// A place in a list of a step.
fn place_in(i: usize, list: &str, j: usize) -> (r: String)
    ensures
        r@ == item_place(i as int, list@, j as int),
{
    let mut s: String = copy_text(list);
    s.push_str("[");
    s.push_str(usize_text(j).as_str());
    s.push_str("]");
    place_of(i, s.as_str())
}

/// Whether one of the first `n` steps has an id.
fn knows_id(steps: &Vec<Step>, n: usize, id: &str) -> (r: bool)
    requires
        n <= steps@.len(),
    ensures
        r == has_id(views(steps@).take(n as int), id@),
{
    let ghost w = views(steps@).take(n as int);
    let mut k: usize = 0;
    while k < n
        invariant
            k <= n,
            n <= steps@.len(),
            w == views(steps@).take(n as int),
            forall|j: int| 0 <= j < k ==> (#[trigger] w[j]).id != id@,
        decreases n - k,
    {
        assert(w[k as int] == steps@[k as int]@);
        if same(steps[k].id.as_str(), id) {
            return true;
        }
        k = k + 1;
    }
    false
}

fn check_id(steps: &Vec<Step>, i: usize, out: &mut Vec<Issue>)
    requires
        i < steps@.len(),
    ensures
        views(final(out)@) == views(old(out)@) + id_issues(views(steps@), i as int),
{
    let ghost start = views(out@);
    let id: &str = steps[i].id.as_str();
    let at: String = place_of(i, "");
    proof {
        reveal_strlit("");
        assert(""@ =~= seq![]);
        assert(views(steps@)[i as int] == steps@[i as int]@);
    }
    if blank(id) {
        push_issue(out, Severity::Error, at.as_str(), copy_text("请求缺少 id"));
    } else if knows_id(steps, i, id) {
        push_issue(out, Severity::Error, at.as_str(), cat("请求 id 重复：", id));
    }
    assert(views(out@) =~= start + id_issues(views(steps@), i as int));
}

fn check_dependencies(steps: &Vec<Step>, i: usize, out: &mut Vec<Issue>)
    requires
        i < steps@.len(),
    ensures
        views(final(out)@) == views(old(out)@) + dependency_issues(
            views(steps@),
            i as int,
            steps@[i as int].depends_on@.len(),
        ),
{
    let ghost start = views(out@);
    let ghost w = views(steps@);
    let deps: &Vec<String> = &steps[i].depends_on;
    assert(w.take(w.len() as int) =~= w);
    assert(views(out@) =~= start + dependency_issues(w, i as int, 0));
    let mut j: usize = 0;
    while j < deps.len()
        invariant
            j <= deps@.len(),
            i < steps@.len(),
            w == views(steps@),
            w.take(w.len() as int) == w,
            *deps == steps@[i as int].depends_on,
            views(out@) == start + dependency_issues(w, i as int, j as nat),
        decreases deps@.len() - j,
    {
        assert(w[i as int].depends_on[j as int] == deps@[j as int]@);
        if !knows_id(steps, steps.len(), deps[j].as_str()) {
            let at: String = place_in(i, ".dependsOn", j);
            push_issue(
                out,
                Severity::Error,
                at.as_str(),
                cat("依赖的请求不存在：", deps[j].as_str()),
            );
        }
        assert(views(out@) =~= start + dependency_issues(w, i as int, (j + 1) as nat));
        j = j + 1;
    }
}

fn check_assertion(a: &Assertion, at: &str, out: &mut Vec<Issue>)
    ensures
        views(final(out)@) == views(old(out)@) + assertion_issues(a@, at@),
{
    let ghost start = views(out@);
    let target: &str = a.target.as_str();
    if blank(target) {
        push_issue(out, Severity::Warning, at, copy_text("断言没有目标，运行时会被跳过"));
    } else if !is_known_target(target) {
        let t: String = trimmed(target);
        push_issue(
            out,
            Severity::Warning,
            at,
            cat3(
                "认不出的断言目标 `",
                t.as_str(),
                "`——目标要写成 res.status / res.headers.<名> / res.body<路径>",
            ),
        );
    }
    let valueless: bool = match &a.value {
        Some(v) => empty(v.as_str()),
        None => true,
    };
    if a.op.needs_value() && valueless {
        push_issue(out, Severity::Warning, at, cat(a.op.as_str(), " 断言没有期望值"));
    }
    assert(views(out@) =~= start + assertion_issues(a@, at@));
}

fn check_output(o: &StepOutput, at: &str, out: &mut Vec<Issue>)
    ensures
        views(final(out)@) == views(old(out)@) + output_issues(o@, at@),
{
    let ghost start = views(out@);
    if blank(o.name.as_str()) {
        push_issue(out, Severity::Warning, at, copy_text("输出没有变量名，运行时会被跳过"));
    }
    let path: &str = o.path.as_str();
    if !blank(path) && !is_known_target(path) {
        let t: String = trimmed(path);
        push_issue(
            out,
            Severity::Warning,
            at,
            cat3("认不出的提取路径 `", t.as_str(), "`——写法同断言目标"),
        );
    }
    assert(views(out@) =~= start + output_issues(o@, at@));
}

/// Checks a step.
fn check_step(steps: &Vec<Step>, i: usize, out: &mut Vec<Issue>)
    requires
        i < steps@.len(),
    ensures
        views(final(out)@) == views(old(out)@) + step_issues(views(steps@), i as int),
{
    let ghost start = views(out@);
    let ghost w = views(steps@);
    let s: &Step = &steps[i];
    assert(w[i as int] == s@);
    check_id(steps, i, out);
    let ghost after_id = views(out@);
    if blank(s.http.url.as_str()) {
        let at: String = place_of(i, ".request.url");
        push_issue(out, Severity::Error, at.as_str(), copy_text("URL 是空的"));
    }
    assert(views(out@) =~= after_id + issue_if(
        is_blank(s@.http.url),
        error_at(step_place(i as int, ".request.url"@), "URL 是空的"@),
    ));
    check_dependencies(steps, i, out);
    let ghost after_deps = views(out@);
    let ghost av = views(s.assertions@);
    assert(views(out@) =~= after_deps + assertions_issues(av, i as int, 0));
    let mut j: usize = 0;
    while j < s.assertions.len()
        invariant
            j <= s.assertions@.len(),
            av == views(s.assertions@),
            views(out@) == after_deps + assertions_issues(av, i as int, j as nat),
        decreases s.assertions@.len() - j,
    {
        assert(av[j as int] == s.assertions@[j as int]@);
        let at: String = place_in(i, ".assertions", j);
        check_assertion(&s.assertions[j], at.as_str(), out);
        assert(views(out@) =~= after_deps + assertions_issues(av, i as int, (j + 1) as nat));
        j = j + 1;
    }
    let ghost after_asserts = views(out@);
    let ghost ov = views(s.outputs@);
    assert(views(out@) =~= after_asserts + outputs_issues(ov, i as int, 0));
    let mut k: usize = 0;
    while k < s.outputs.len()
        invariant
            k <= s.outputs@.len(),
            ov == views(s.outputs@),
            views(out@) == after_asserts + outputs_issues(ov, i as int, k as nat),
        decreases s.outputs@.len() - k,
    {
        assert(ov[k as int] == s.outputs@[k as int]@);
        let at: String = place_in(i, ".outputs", k);
        check_output(&s.outputs[k], at.as_str(), out);
        assert(views(out@) =~= after_asserts + outputs_issues(ov, i as int, (k + 1) as nat));
        k = k + 1;
    }
    assert(views(out@) =~= start + step_issues(w, i as int));
}

/// The first circle of steps that depend on each other.
pub fn find_cycle(case: &Case) -> (r: Option<String>)
    ensures
        opt_view(r) == cycle_text(case@.requests),
{
    let g: Vec<Vec<usize>> = dependency_lists(case.requests.as_slice());
    let ghost w = views(case.requests@);
    proof {
        lemma_graph_of(w);
        law_cycle(graph_of(w), seq![]);
    }
    match find_closed_path(&g) {
        Some(c) => {
            assert forall|k: int| 0 <= k < c@.len() implies (#[trigger] c@[k])
                < case.requests@.len() by {
                assert(ints(c@)[k] == c@[k]);
            }
            let mut names: Vec<String> = Vec::new();
            let mut i: usize = 0;
            while i < c.len()
                invariant
                    i <= c@.len(),
                    w == views(case.requests@),
                    forall|k: int| 0 <= k < c@.len() ==> (#[trigger] c@[k]) < case.requests@.len(),
                    names@.len() == i,
                    forall|k: int|
                        0 <= k < i ==> (#[trigger] names@[k])@ == w[c@[k] as int].id,
                decreases c@.len() - i,
            {
                assert(w[c@[i as int] as int] == case.requests@[c@[i as int] as int]@);
                names.push(copy_text(case.requests[c[i]].id.as_str()));
                i = i + 1;
            }
            assert(views(names@) =~= ids_of(w, ints(c@)));
            Some(joined(&names, " → "))
        },
        None => None,
    }
}

/// What is wrong with a case.
pub fn inspect(case: &Case) -> (r: Vec<Issue>)
    ensures
        views(r@) == issues_of(case@),
{
    let mut out: Vec<Issue> = Vec::new();
    assert(views(out@) =~= seq![]);
    proof {
        reveal_strlit("");
        assert(""@ =~= seq![]);
    }
    if case.requests.len() == 0 {
        push_issue(&mut out, Severity::Error, "", copy_text("没有任何请求（steps 是空的）"));
        assert(views(out@) =~= issues_of(case@));
        return out;
    }
    let ghost w = views(case.requests@);
    let mut i: usize = 0;
    while i < case.requests.len()
        invariant
            i <= case.requests@.len(),
            w == views(case.requests@),
            views(out@) == steps_issues(w, i as nat),
        decreases case.requests@.len() - i,
    {
        check_step(&case.requests, i, &mut out);
        i = i + 1;
    }
    if let Some(c) = find_cycle(case) {
        push_issue(&mut out, Severity::Error, "", cat("依赖成环：", c.as_str()));
    }
    assert(views(out@) =~= issues_of(case@));
    out
}

// ---- files -----------------------------------------------------------------------------

/// Whether one of issues is an error.
pub open spec fn has_error(l: Seq<IssueView>) -> bool {
    exists|i: int| 0 <= i < l.len() && (#[trigger] l[i]).severity == Severity::Error
}

/// A file that could not be checked.
pub open spec fn unreadable(file: Seq<char>, why: Seq<char>) -> CheckResultView {
    CheckResultView { file, ok: false, issues: seq![error_at(seq![], why)] }
}

/// What checking a file found, given what an editor learns of it.
pub open spec fn result_of(a: AnalyzeResultView, file: Seq<char>) -> CheckResultView {
    match a.case {
        Some(c) => if a.valid {
            CheckResultView { file, ok: !has_error(issues_of(c)), issues: issues_of(c) }
        } else {
            unreadable(file, why_not(a))
        },
        None => unreadable(file, why_not(a)),
    }
}

/// Why a text is no case.
pub open spec fn why_not(a: AnalyzeResultView) -> Seq<char> {
    match a.error {
        Some(e) => e,
        None => "不是有效的用例"@,
    }
}

/// Why a text is no case.
pub fn reason(a: &AnalyzeResult) -> (r: String)
    ensures
        r@ == why_not(a@),
{
    match &a.error {
        Some(e) => copy_text(e.as_str()),
        None => copy_text("不是有效的用例"),
    }
}

/// A file that could not be checked.
pub fn unreadable_file(file: &str, why: &str) -> (r: CheckResult)
    ensures
        r@ == unreadable(file@, why@),
{
    let mut issues: Vec<Issue> = Vec::new();
    assert(views(issues@) =~= seq![]);
    proof {
        reveal_strlit("");
        assert(""@ =~= seq![]);
    }
    push_issue(&mut issues, Severity::Error, "", copy_text(why));
    assert(views(issues@) =~= unreadable(file@, why@).issues);
    CheckResult { file: copy_text(file), ok: false, issues }
}

fn finds_error(l: &Vec<Issue>) -> (r: bool)
    ensures
        r == has_error(views(l@)),
{
    let mut i: usize = 0;
    while i < l.len()
        invariant
            i <= l@.len(),
            forall|k: int| 0 <= k < i ==> (#[trigger] views(l@)[k]).severity != Severity::Error,
        decreases l@.len() - i,
    {
        assert(views(l@)[i as int] == l@[i as int]@);
        if l[i].severity == Severity::Error {
            return true;
        }
        i = i + 1;
    }
    false
}

/// What checking a file found, given what an editor learns of it.
pub fn check_analyzed(a: &AnalyzeResult, file: &str) -> (r: CheckResult)
    ensures
        r@ == result_of(a@, file@),
{
    if a.valid {
        if let Some(c) = &a.case {
            let issues: Vec<Issue> = inspect(c);
            return CheckResult { file: copy_text(file), ok: !finds_error(&issues), issues };
        }
    }
    unreadable_file(file, reason(a).as_str())
}

/// Checks the text of a case.
pub fn check_text(text: &str, file: &str) -> (r: CheckResult)
    ensures
        r@ == result_of(analysis(loaded(text@)), file@),
{
    check_analyzed(&analyze_case(text), file)
}

/// How many issues are of a severity.
pub open spec fn of_severity(l: Seq<IssueView>, s: Severity) -> nat
    decreases l.len(),
{
    if l.len() == 0 {
        0
    } else {
        of_severity(l.drop_last(), s) + (if l.last().severity == s {
            1nat
        } else {
            0
        })
    }
}

/// How many issues of files are of a severity.
pub open spec fn all_of_severity(rs: Seq<CheckResultView>, s: Severity) -> nat
    decreases rs.len(),
{
    if rs.len() == 0 {
        0
    } else {
        all_of_severity(rs.drop_last(), s) + of_severity(rs.last().issues, s)
    }
}

/// How many files are without an error.
pub open spec fn passed(rs: Seq<CheckResultView>) -> nat
    decreases rs.len(),
{
    if rs.len() == 0 {
        0
    } else {
        passed(rs.drop_last()) + (if rs.last().ok {
            1nat
        } else {
            0
        })
    }
}

/// A count, or the largest that a machine word holds.
pub open spec fn capped(n: nat) -> usize {
    if n > usize::MAX {
        usize::MAX
    } else {
        n as usize
    }
}

fn add_capped(a: usize, b: usize) -> (r: usize)
    ensures
        r == capped((a + b) as nat),
{
    if b > usize::MAX - a {
        usize::MAX
    } else {
        a + b
    }
}

/// What checking files found.
pub open spec fn report_of(rs: Seq<CheckResultView>) -> CheckReportView {
    CheckReportView {
        results: rs,
        total: rs.len() as usize,
        ok: passed(rs) as usize,
        errors: capped(all_of_severity(rs, Severity::Error)),
        warnings: capped(all_of_severity(rs, Severity::Warning)),
    }
}

fn count(l: &Vec<Issue>, s: Severity) -> (r: usize)
    ensures
        r == of_severity(views(l@), s),
{
    let ghost w = views(l@);
    let mut n: usize = 0;
    let mut i: usize = 0;
    assert(w.take(0) =~= seq![]);
    while i < l.len()
        invariant
            i <= l@.len(),
            w == views(l@),
            n <= i,
            n == of_severity(w.take(i as int), s),
        decreases l@.len() - i,
    {
        proof {
            assert(w.take(i + 1).drop_last() =~= w.take(i as int));
            assert(w.take(i + 1).last() == l@[i as int]@);
        }
        if l[i].severity == s {
            n = n + 1;
        }
        i = i + 1;
    }
    assert(w.take(w.len() as int) =~= w);
    n
}

impl CheckReport {
    /// What checking files found.
    pub fn of(results: Vec<CheckResult>) -> (r: Self)
        ensures
            r@ == report_of(views(results@)),
    {
        let ghost w = views(results@);
        let mut ok: usize = 0;
        let mut errors: usize = 0;
        let mut warnings: usize = 0;
        let mut i: usize = 0;
        assert(w.take(0) =~= seq![]);
        while i < results.len()
            invariant
                i <= results@.len(),
                w == views(results@),
                ok <= i,
                ok == passed(w.take(i as int)),
                errors == capped(all_of_severity(w.take(i as int), Severity::Error)),
                warnings == capped(all_of_severity(w.take(i as int), Severity::Warning)),
            decreases results@.len() - i,
        {
            proof {
                assert(w.take(i + 1).drop_last() =~= w.take(i as int));
                assert(w.take(i + 1).last() == results@[i as int]@);
            }
            let c: &CheckResult = &results[i];
            if c.ok {
                ok = ok + 1;
            }
            errors = add_capped(errors, count(&c.issues, Severity::Error));
            warnings = add_capped(warnings, count(&c.issues, Severity::Warning));
            i = i + 1;
        }
        assert(w.take(w.len() as int) =~= w);
        let total: usize = results.len();
        CheckReport { results, total, ok, errors, warnings }
    }

    /// What checking one text found.
    pub fn of_one(result: CheckResult) -> (r: Self)
        ensures
            r@ == report_of(seq![result@]),
    {
        let mut results: Vec<CheckResult> = Vec::new();
        results.push(result);
        proof {
            assert(views(results@) =~= seq![result@]);
        }
        CheckReport::of(results)
    }
}

/// What checking a file found.
pub open spec fn file_result(ws: WorkspaceView, f: ReadFileView) -> CheckResultView {
    let file = relative(ws.root, f.path);
    match f.text {
        Ok(t) => result_of(analysis(loaded(t)), file),
        Err(e) => unreadable(file, e),
    }
}

/// Checks the cases that were found in a workspace.
pub fn check(ws: &Workspace, files: &Vec<ReadFile>) -> (r: CheckReport)
    ensures
        r@ == report_of(views(files@).map_values(|f: ReadFileView| file_result(ws@, f))),
{
    let mut results: Vec<CheckResult> = Vec::new();
    let ghost all = views(files@).map_values(|f: ReadFileView| file_result(ws@, f));
    let mut i: usize = 0;
    assert(views(results@) =~= all.take(0));
    while i < files.len()
        invariant
            i <= files@.len(),
            all == views(files@).map_values(|f: ReadFileView| file_result(ws@, f)),
            views(results@) == all.take(i as int),
        decreases files@.len() - i,
    {
        let f: &ReadFile = &files[i];
        let file: String = ws.rel(f.path.as_str());
        let one: CheckResult = match &f.text {
            Ok(t) => check_text(t.as_str(), file.as_str()),
            Err(e) => unreadable_file(file.as_str(), e.as_str()),
        };
        proof {
            assert(views(files@)[i as int] == f@);
            assert(one@ == all[i as int]);
            lemma_views_push(results@, one);
            assert(all.take(i + 1) =~= all.take(i as int).push(one@));
        }
        results.push(one);
        i = i + 1;
    }
    assert(all.take(all.len() as int) =~= all);
    CheckReport::of(results)
}

// ---- laws ------------------------------------------------------------------------------

proof fn lemma_has_error(l: Seq<IssueView>)
    ensures
        has_error(l) <==> of_severity(l, Severity::Error) > 0,
    decreases l.len(),
{
    if l.len() > 0 {
        let d = l.drop_last();
        lemma_has_error(d);
        if has_error(l) {
            let i = choose|i: int| 0 <= i < l.len() && (#[trigger] l[i]).severity == Severity::Error;
            if i < d.len() {
                assert(d[i].severity == Severity::Error);
            }
        }
        if has_error(d) {
            let i = choose|i: int| 0 <= i < d.len() && (#[trigger] d[i]).severity == Severity::Error;
            assert(l[i].severity == Severity::Error);
        }
        if l.last().severity == Severity::Error {
            assert(l[l.len() - 1].severity == Severity::Error);
        }
    }
}

/// A file passes if and only if no error was found in it; warnings do not count.
pub proof fn law_ok_means_no_error(a: AnalyzeResultView, file: Seq<char>)
    ensures
        result_of(a, file).ok <==> of_severity(result_of(a, file).issues, Severity::Error) == 0,
{
    lemma_has_error(result_of(a, file).issues);
    if !result_of(a, file).ok {
        let l = result_of(a, file).issues;
        if !has_error(l) {
            assert(l[0].severity == Severity::Error);
        }
    }
}

/// A case whose steps depend on each other in a circle does not pass.
pub proof fn law_circles_are_errors(c: CaseView)
    requires
        cycle(graph_of(c.requests)) is Some,
        c.requests.len() > 0,
    ensures
        has_error(issues_of(c)),
{
    let l = issues_of(c);
    assert(l[l.len() - 1].severity == Severity::Error);
}

proof fn lemma_steps_issues_grow(steps: Seq<StepView>, n: nat, m: nat, k: int)
    requires
        n <= m <= steps.len(),
        0 <= k < steps_issues(steps, n).len(),
    ensures
        k < steps_issues(steps, m).len(),
        steps_issues(steps, m)[k] == steps_issues(steps, n)[k],
    decreases m,
{
    if n < m {
        lemma_steps_issues_grow(steps, n, (m - 1) as nat, k);
    }
}

/// A case in which two steps have one id does not pass.
pub proof fn law_ids_are_unique(c: CaseView, i: int, j: int)
    requires
        0 <= i < j < c.requests.len(),
        c.requests[i].id == c.requests[j].id,
    ensures
        has_error(issues_of(c)),
{
    let steps = c.requests;
    assert(steps.take(j)[i].id == steps[j].id);
    assert(has_id(steps.take(j), steps[j].id));
    let before = steps_issues(steps, j as nat);
    let k = before.len() as int;
    let here = steps_issues(steps, (j + 1) as nat);
    assert(id_issues(steps, j).len() == 1);
    assert(here[k] == step_issues(steps, j)[0]);
    assert(here[k].severity == Severity::Error);
    lemma_steps_issues_grow(steps, (j + 1) as nat, steps.len(), k);
    assert(issues_of(c)[k].severity == Severity::Error);
}

proof fn lemma_error_in_either(a: Seq<IssueView>, b: Seq<IssueView>)
    ensures
        has_error(a + b) <==> has_error(a) || has_error(b),
{
    let l = a + b;
    if has_error(a) {
        let i = choose|i: int| 0 <= i < a.len() && (#[trigger] a[i]).severity == Severity::Error;
        assert(l[i] == a[i]);
    }
    if has_error(b) {
        let i = choose|i: int| 0 <= i < b.len() && (#[trigger] b[i]).severity == Severity::Error;
        assert(l[a.len() + i] == b[i]);
    }
    if has_error(l) {
        let i = choose|i: int| 0 <= i < l.len() && (#[trigger] l[i]).severity == Severity::Error;
        if i < a.len() {
            assert(a[i] == l[i]);
        } else {
            assert(b[i - a.len()] == l[i]);
        }
    }
}

proof fn lemma_one_error(wrong: bool, issue: IssueView)
    ensures
        has_error(issue_if(wrong, issue)) <==> wrong && issue.severity == Severity::Error,
{
    let l = issue_if(wrong, issue);
    if wrong {
        assert(l[0] == issue);
    }
}

proof fn lemma_dependency_errors(steps: Seq<StepView>, i: int, n: nat)
    requires
        0 <= i < steps.len(),
        n <= steps[i].depends_on.len(),
    ensures
        has_error(dependency_issues(steps, i, n)) <==> exists|d: int|
            0 <= d < n && !has_id(steps, #[trigger] steps[i].depends_on[d]),
    decreases n,
{
    if n > 0 {
        let m = (n - 1) as nat;
        let dep = steps[i].depends_on[n - 1];
        let issue = error_at(item_place(i, ".dependsOn"@, n - 1), "依赖的请求不存在："@ + dep);
        lemma_dependency_errors(steps, i, m);
        lemma_error_in_either(
            dependency_issues(steps, i, m),
            issue_if(!has_id(steps, dep), issue),
        );
        lemma_one_error(!has_id(steps, dep), issue);
        if exists|d: int| 0 <= d < n && !has_id(steps, #[trigger] steps[i].depends_on[d]) {
            let d = choose|d: int| 0 <= d < n && !has_id(steps, #[trigger] steps[i].depends_on[d]);
            assert(d < m || d == n - 1);
        }
    }
}

proof fn lemma_only_warnings(steps: Seq<StepView>, i: int, n: nat, m: nat)
    requires
        0 <= i < steps.len(),
    ensures
        !has_error(assertions_issues(steps[i].assertions, i, n)),
        !has_error(outputs_issues(steps[i].outputs, i, m)),
    decreases n + m,
{
    let l = steps[i].assertions;
    let o = steps[i].outputs;
    if 0 < n <= l.len() {
        lemma_only_warnings(steps, i, (n - 1) as nat, m);
        let at = item_place(i, ".assertions"@, n - 1);
        lemma_error_in_either(
            assertions_issues(l, i, (n - 1) as nat),
            assertion_issues(l[n - 1], at),
        );
        assert(forall|k: int|
            0 <= k < assertion_issues(l[n - 1], at).len() ==> (#[trigger] assertion_issues(
                l[n - 1],
                at,
            )[k]).severity == Severity::Warning);
    }
    if 0 < m <= o.len() {
        lemma_only_warnings(steps, i, n, (m - 1) as nat);
        let at = item_place(i, ".outputs"@, m - 1);
        lemma_error_in_either(outputs_issues(o, i, (m - 1) as nat), output_issues(o[m - 1], at));
        assert(forall|k: int|
            0 <= k < output_issues(o[m - 1], at).len() ==> (#[trigger] output_issues(
                o[m - 1],
                at,
            )[k]).severity == Severity::Warning);
    }
}

/// Whether a step is one that spoils every run of its case: it has no id or that of an earlier
/// step, it has no address, or it depends on what is no step.
pub open spec fn spoils(steps: Seq<StepView>, i: int) -> bool {
    ||| is_blank(steps[i].id)
    ||| exists|k: int| 0 <= k < i && (#[trigger] steps[k]).id == steps[i].id
    ||| is_blank(steps[i].http.url)
    ||| exists|d: int|
        0 <= d < steps[i].depends_on.len() && !has_id(steps, #[trigger] steps[i].depends_on[d])
}

proof fn lemma_step_errors(steps: Seq<StepView>, i: int)
    requires
        0 <= i < steps.len(),
    ensures
        has_error(step_issues(steps, i)) <==> spoils(steps, i),
{
    let s = steps[i];
    let a = id_issues(steps, i);
    let url = error_at(step_place(i, ".request.url"@), "URL 是空的"@);
    let b = issue_if(is_blank(s.http.url), url);
    let c = dependency_issues(steps, i, s.depends_on.len());
    let d = assertions_issues(s.assertions, i, s.assertions.len());
    let e = outputs_issues(s.outputs, i, s.outputs.len());
    lemma_error_in_either(a, b);
    lemma_error_in_either(a + b, c);
    lemma_error_in_either(a + b + c, d);
    lemma_error_in_either(a + b + c + d, e);
    lemma_one_error(is_blank(s.http.url), url);
    lemma_dependency_errors(steps, i, s.depends_on.len());
    lemma_only_warnings(steps, i, s.assertions.len(), s.outputs.len());
    let twice = error_at(step_place(i, seq![]), "请求 id 重复："@ + s.id);
    lemma_one_error(has_id(steps.take(i), s.id), twice);
    if is_blank(s.id) {
        assert(a[0].severity == Severity::Error);
    }
    let t = steps.take(i);
    if has_id(t, s.id) {
        let k = choose|k: int| 0 <= k < t.len() && (#[trigger] t[k]).id == s.id;
        assert(steps[k] == t[k]);
    }
    if exists|k: int| 0 <= k < i && (#[trigger] steps[k]).id == s.id {
        let k = choose|k: int| 0 <= k < i && (#[trigger] steps[k]).id == s.id;
        assert(t[k] == steps[k]);
    }
}

proof fn lemma_steps_errors(steps: Seq<StepView>, n: nat)
    requires
        n <= steps.len(),
    ensures
        has_error(steps_issues(steps, n)) <==> exists|i: int|
            0 <= i < n && #[trigger] spoils(steps, i),
    decreases n,
{
    if n > 0 {
        lemma_steps_errors(steps, (n - 1) as nat);
        lemma_step_errors(steps, n - 1);
        lemma_error_in_either(steps_issues(steps, (n - 1) as nat), step_issues(steps, n - 1));
        if exists|i: int| 0 <= i < n && #[trigger] spoils(steps, i) {
            let i = choose|i: int| 0 <= i < n && #[trigger] spoils(steps, i);
            assert(i < n - 1 || i == n - 1);
        }
    }
}

/// A case has an error if and only if it has no step, one of its steps spoils it, or its steps
/// depend on each other in a circle. Nothing else stands in the way of a run.
pub proof fn law_what_is_an_error(c: CaseView)
    ensures
        has_error(issues_of(c)) <==> c.requests.len() == 0 || (exists|i: int|
            0 <= i < c.requests.len() && #[trigger] spoils(c.requests, i)) || cycle(
            graph_of(c.requests),
        ) is Some,
{
    let steps = c.requests;
    if steps.len() == 0 {
        assert(issues_of(c)[0].severity == Severity::Error);
    } else {
        lemma_steps_errors(steps, steps.len());
        let tail = match cycle_text(steps) {
            Some(t) => seq![error_at(seq![], "依赖成环："@ + t)],
            None => seq![],
        };
        lemma_error_in_either(steps_issues(steps, steps.len()), tail);
        if cycle_text(steps) is Some {
            assert(tail[0].severity == Severity::Error);
        }
    }
}

proof fn lemma_in_sum(a: Seq<IssueView>, b: Seq<IssueView>, x: IssueView)
    ensures
        (a + b).contains(x) <==> a.contains(x) || b.contains(x),
{
    let l = a + b;
    if a.contains(x) {
        let i = choose|i: int| 0 <= i < a.len() && a[i] == x;
        assert(l[i] == x);
    }
    if b.contains(x) {
        let i = choose|i: int| 0 <= i < b.len() && b[i] == x;
        assert(l[a.len() + i] == x);
    }
    if l.contains(x) {
        let i = choose|i: int| 0 <= i < l.len() && l[i] == x;
        if i < a.len() {
            assert(a[i] == x);
        } else {
            assert(b[i - a.len()] == x);
        }
    }
}

proof fn lemma_told_of_steps(steps: Seq<StepView>, i: int, n: nat, x: IssueView)
    requires
        0 <= i < n <= steps.len(),
        step_issues(steps, i).contains(x),
    ensures
        steps_issues(steps, n).contains(x),
    decreases n,
{
    lemma_in_sum(steps_issues(steps, (n - 1) as nat), step_issues(steps, n - 1), x);
    if i < n - 1 {
        lemma_told_of_steps(steps, i, (n - 1) as nat, x);
    }
}

proof fn lemma_told(c: CaseView, i: int, x: IssueView)
    requires
        0 <= i < c.requests.len(),
        step_issues(c.requests, i).contains(x),
    ensures
        issues_of(c).contains(x),
{
    let steps = c.requests;
    lemma_told_of_steps(steps, i, steps.len(), x);
    let tail = match cycle_text(steps) {
        Some(t) => seq![error_at(seq![], "依赖成环："@ + t)],
        None => seq![],
    };
    lemma_in_sum(steps_issues(steps, steps.len()), tail, x);
}

proof fn lemma_step_parts(steps: Seq<StepView>, i: int, x: IssueView)
    requires
        0 <= i < steps.len(),
    ensures
        step_issues(steps, i).contains(x) <==> id_issues(steps, i).contains(x) || issue_if(
            is_blank(steps[i].http.url),
            error_at(step_place(i, ".request.url"@), "URL 是空的"@),
        ).contains(x) || dependency_issues(steps, i, steps[i].depends_on.len()).contains(x)
            || assertions_issues(steps[i].assertions, i, steps[i].assertions.len()).contains(x)
            || outputs_issues(steps[i].outputs, i, steps[i].outputs.len()).contains(x),
{
    let s = steps[i];
    let a = id_issues(steps, i);
    let b = issue_if(
        is_blank(s.http.url),
        error_at(step_place(i, ".request.url"@), "URL 是空的"@),
    );
    let c = dependency_issues(steps, i, s.depends_on.len());
    let d = assertions_issues(s.assertions, i, s.assertions.len());
    let e = outputs_issues(s.outputs, i, s.outputs.len());
    lemma_in_sum(a, b, x);
    lemma_in_sum(a + b, c, x);
    lemma_in_sum(a + b + c, d, x);
    lemma_in_sum(a + b + c + d, e, x);
}

proof fn lemma_dependency_told(steps: Seq<StepView>, i: int, d: int, n: nat, x: IssueView)
    requires
        0 <= i < steps.len(),
        0 <= d < n <= steps[i].depends_on.len(),
        !has_id(steps, steps[i].depends_on[d]),
        x == error_at(
            item_place(i, ".dependsOn"@, d),
            "依赖的请求不存在："@ + steps[i].depends_on[d],
        ),
    ensures
        dependency_issues(steps, i, n).contains(x),
    decreases n,
{
    let m = (n - 1) as nat;
    let dep = steps[i].depends_on[n - 1];
    let more = issue_if(
        !has_id(steps, dep),
        error_at(item_place(i, ".dependsOn"@, n - 1), "依赖的请求不存在："@ + dep),
    );
    lemma_in_sum(dependency_issues(steps, i, m), more, x);
    if d < m {
        lemma_dependency_told(steps, i, d, m, x);
    } else {
        assert(more[0] == x);
    }
}

proof fn lemma_assertion_told(l: Seq<AssertionView>, i: int, j: int, n: nat, x: IssueView)
    requires
        0 <= j < n <= l.len(),
        assertion_issues(l[j], item_place(i, ".assertions"@, j)).contains(x),
    ensures
        assertions_issues(l, i, n).contains(x),
    decreases n,
{
    let m = (n - 1) as nat;
    lemma_in_sum(
        assertions_issues(l, i, m),
        assertion_issues(l[n - 1], item_place(i, ".assertions"@, n - 1)),
        x,
    );
    if j < m {
        lemma_assertion_told(l, i, j, m, x);
    }
}

proof fn lemma_output_told(l: Seq<StepOutputView>, i: int, j: int, n: nat, x: IssueView)
    requires
        0 <= j < n <= l.len(),
        output_issues(l[j], item_place(i, ".outputs"@, j)).contains(x),
    ensures
        outputs_issues(l, i, n).contains(x),
    decreases n,
{
    let m = (n - 1) as nat;
    lemma_in_sum(
        outputs_issues(l, i, m),
        output_issues(l[n - 1], item_place(i, ".outputs"@, n - 1)),
        x,
    );
    if j < m {
        lemma_output_told(l, i, j, m, x);
    }
}

/// What is wrong with a step is told at its place: an id that is missing or taken, an address that
/// is missing, and each dependency on what is no step.
pub proof fn law_step_errors_told(c: CaseView, i: int, d: int)
    requires
        0 <= i < c.requests.len(),
    ensures
        ({
            let s = c.requests[i];
            let at = "steps["@ + nat_text(i as nat) + "]"@;
            &&& is_blank(s.id) ==> issues_of(c).contains(
                IssueView { severity: Severity::Error, at, message: "请求缺少 id"@ },
            )
            &&& !is_blank(s.id) && (exists|k: int|
                0 <= k < i && (#[trigger] c.requests[k]).id == s.id) ==> issues_of(c).contains(
                IssueView { severity: Severity::Error, at, message: "请求 id 重复："@ + s.id },
            )
            &&& is_blank(s.http.url) ==> issues_of(c).contains(
                IssueView {
                    severity: Severity::Error,
                    at: at + ".request.url"@,
                    message: "URL 是空的"@,
                },
            )
            &&& 0 <= d < s.depends_on.len() && !has_id(c.requests, s.depends_on[d]) ==> issues_of(
                c,
            ).contains(
                IssueView {
                    severity: Severity::Error,
                    at: at + (".dependsOn"@ + "["@ + nat_text(d as nat) + "]"@),
                    message: "依赖的请求不存在："@ + s.depends_on[d],
                },
            )
        }),
{
    let steps = c.requests;
    let s = steps[i];
    let at = "steps["@ + nat_text(i as nat) + "]"@;
    assert(at + seq![] =~= at);
    if is_blank(s.id) {
        let x = error_at(at, "请求缺少 id"@);
        assert(id_issues(steps, i)[0] == x);
        lemma_step_parts(steps, i, x);
        lemma_told(c, i, x);
    } else if exists|k: int| 0 <= k < i && (#[trigger] steps[k]).id == s.id {
        let k = choose|k: int| 0 <= k < i && (#[trigger] steps[k]).id == s.id;
        assert(steps.take(i)[k] == steps[k]);
        let x = error_at(at, "请求 id 重复："@ + s.id);
        assert(id_issues(steps, i)[0] == x);
        lemma_step_parts(steps, i, x);
        lemma_told(c, i, x);
    }
    if is_blank(s.http.url) {
        let x = error_at(step_place(i, ".request.url"@), "URL 是空的"@);
        assert(issue_if(is_blank(s.http.url), x)[0] == x);
        lemma_step_parts(steps, i, x);
        lemma_told(c, i, x);
    }
    if 0 <= d < s.depends_on.len() && !has_id(steps, s.depends_on[d]) {
        let x = error_at(
            item_place(i, ".dependsOn"@, d),
            "依赖的请求不存在："@ + s.depends_on[d],
        );
        lemma_dependency_told(steps, i, d, s.depends_on.len(), x);
        lemma_step_parts(steps, i, x);
        lemma_told(c, i, x);
    }
}

/// What an assertion or an output is likely not meant to be is told at its place, as a warning: one
/// without a target or a name, which is passed over; one whose target is not known; and an
/// operator without the value that it takes.
pub proof fn law_warnings_told(c: CaseView, i: int, j: int)
    requires
        0 <= i < c.requests.len(),
    ensures
        ({
            let s = c.requests[i];
            let at = "steps["@ + nat_text(i as nat) + "]"@ + (".assertions"@ + "["@ + nat_text(
                j as nat,
            ) + "]"@);
            let a = s.assertions[j];
            0 <= j < s.assertions.len() ==> {
                &&& is_blank(a.target) ==> issues_of(c).contains(
                    IssueView {
                        severity: Severity::Warning,
                        at,
                        message: "断言没有目标，运行时会被跳过"@,
                    },
                )
                &&& !is_blank(a.target) && !known_target(a.target) ==> issues_of(c).contains(
                    IssueView {
                        severity: Severity::Warning,
                        at,
                        message: "认不出的断言目标 `"@ + trim(a.target)
                            + "`——目标要写成 res.status / res.headers.<名> / res.body<路径>"@,
                    },
                )
                &&& !(a.op is Exists) && !(a.op is NotExists) && (a.value is None || a.value->0.len()
                    == 0) ==> issues_of(c).contains(
                    IssueView {
                        severity: Severity::Warning,
                        at,
                        message: assert_op_name(a.op) + " 断言没有期望值"@,
                    },
                )
            }
        }),
        ({
            let s = c.requests[i];
            let at = "steps["@ + nat_text(i as nat) + "]"@ + (".outputs"@ + "["@ + nat_text(j as nat)
                + "]"@);
            let o = s.outputs[j];
            0 <= j < s.outputs.len() ==> {
                &&& is_blank(o.name) ==> issues_of(c).contains(
                    IssueView {
                        severity: Severity::Warning,
                        at,
                        message: "输出没有变量名，运行时会被跳过"@,
                    },
                )
                &&& !is_blank(o.path) && !known_target(o.path) ==> issues_of(c).contains(
                    IssueView {
                        severity: Severity::Warning,
                        at,
                        message: "认不出的提取路径 `"@ + trim(o.path) + "`——写法同断言目标"@,
                    },
                )
            }
        }),
{
    let steps = c.requests;
    let s = steps[i];
    if 0 <= j < s.assertions.len() {
        let at = item_place(i, ".assertions"@, j);
        let l = assertion_issues(s.assertions[j], at);
        assert forall|x: IssueView| #[trigger] l.contains(x) implies issues_of(c).contains(x) by {
            lemma_assertion_told(s.assertions, i, j, s.assertions.len(), x);
            lemma_step_parts(steps, i, x);
            lemma_told(c, i, x);
        }
        let a = s.assertions[j];
        if is_blank(a.target) || !known_target(a.target) {
            assert(l.contains(l[0]));
        }
        if takes_value(a.op) && (a.value is None || a.value->0.len() == 0) {
            assert(l.contains(l[l.len() - 1]));
        }
    }
    if 0 <= j < s.outputs.len() {
        let at = item_place(i, ".outputs"@, j);
        let l = output_issues(s.outputs[j], at);
        assert forall|x: IssueView| #[trigger] l.contains(x) implies issues_of(c).contains(x) by {
            lemma_output_told(s.outputs, i, j, s.outputs.len(), x);
            lemma_step_parts(steps, i, x);
            lemma_told(c, i, x);
        }
        let o = s.outputs[j];
        if is_blank(o.name) {
            assert(l.contains(l[0]));
        }
        if !is_blank(o.path) && !known_target(o.path) {
            assert(l.contains(l[l.len() - 1]));
        }
    }
}

/// One file more is one result more: it is counted, its errors and warnings are counted, and it
/// counts as passed if it is.
pub proof fn law_report_counts(rs: Seq<CheckResultView>, r: CheckResultView)
    ensures
        passed(rs.push(r)) == passed(rs) + (if r.ok {
            1nat
        } else {
            0
        }),
        all_of_severity(rs.push(r), Severity::Error) == all_of_severity(rs, Severity::Error)
            + of_severity(r.issues, Severity::Error),
        all_of_severity(rs.push(r), Severity::Warning) == all_of_severity(rs, Severity::Warning)
            + of_severity(r.issues, Severity::Warning),
        of_severity(r.issues, Severity::Error) + of_severity(r.issues, Severity::Warning)
            == r.issues.len(),
        report_of(rs).results == rs,
        rs.len() <= usize::MAX ==> report_of(rs).total == rs.len() && report_of(rs).ok == passed(rs),
        all_of_severity(rs, Severity::Error) <= usize::MAX ==> report_of(rs).errors
            == all_of_severity(rs, Severity::Error),
        all_of_severity(rs, Severity::Warning) <= usize::MAX ==> report_of(rs).warnings
            == all_of_severity(rs, Severity::Warning),
{
    assert(rs.push(r).drop_last() =~= rs);
    lemma_severities(r.issues);
    lemma_passed(rs);
}

proof fn lemma_passed(rs: Seq<CheckResultView>)
    ensures
        passed(rs) <= rs.len(),
    decreases rs.len(),
{
    if rs.len() > 0 {
        lemma_passed(rs.drop_last());
    }
}

proof fn lemma_severities(l: Seq<IssueView>)
    ensures
        of_severity(l, Severity::Error) + of_severity(l, Severity::Warning) == l.len(),
    decreases l.len(),
{
    if l.len() > 0 {
        lemma_severities(l.drop_last());
    }
}

/// A file that is no case does not pass, and the one thing told of it is why.
pub proof fn law_no_case_no_pass(a: AnalyzeResultView, file: Seq<char>)
    ensures
        result_of(a, file).file == file,
        a.case is None || !a.valid ==> {
            &&& !result_of(a, file).ok
            &&& result_of(a, file).issues.len() == 1
            &&& result_of(a, file).issues[0].severity == Severity::Error
            &&& a.error is Some ==> Some(result_of(a, file).issues[0].message) == a.error
        },
        a.case is Some && a.valid ==> result_of(a, file).issues == issues_of(a.case->0),
{
}

} // verus!
