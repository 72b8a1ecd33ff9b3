//! What is printed for people.
//!
//! Progress is printed line by line, and a failure brings what is needed to look into it.
use crate::check::{
    CheckReport, CheckReportView, CheckResult, CheckResultView, Issue, IssueView, Severity,
};
use crate::list::{ListItem, ListItemView, StepBrief, StepBriefView};
use crate::report::{
    asserts_with, step_asserts, step_asserts_with, AssertRecord, AssertRecordView, CaseResult,
    CaseResultView, CaseStatus, EnvironmentInfo, EnvironmentInfoView, RunReport, RunReportView,
    RunStatus, StepResult, StepResultView, StepStatus, WorkspaceInfo, WorkspaceInfoView,
};
use crate::style::{
    bold_text, dim_text, error_text, fail_text, pad, padded_to, pass_text, skip_text, warn_text,
    width, width_of, Style,
};
use crate::text::{
    cat, cat3, copy_opt, copy_text, empty, join, joined, nat_text, opt_text, opt_view, u128_text,
    u64_text, usize_text, views,
};
use vstd::prelude::*;

verus! {

/// The mark of a case; every outcome has its own, so that it can be told without colours.
pub open spec fn mark_of(st: CaseStatus, s: Style) -> Seq<char> {
    match st {
        CaseStatus::Passed => pass_text(s, "✓"@),
        CaseStatus::Failed => fail_text(s, "✕"@),
        CaseStatus::Error => error_text(s, "!"@),
        CaseStatus::Skipped => skip_text(s, "–"@),
        CaseStatus::Running => dim_text(s, "·"@),
    }
}

/// The mark of a case.
pub fn case_mark(st: CaseStatus, s: Style) -> (r: String)
    ensures
        r@ == mark_of(st, s),
{
    match st {
        CaseStatus::Passed => s.pass("✓"),
        CaseStatus::Failed => s.fail("✕"),
        CaseStatus::Error => s.error("!"),
        CaseStatus::Skipped => s.skip("–"),
        CaseStatus::Running => s.dim("·"),
    }
}

/// What is printed before a run: the workspace, the environment and how many cases there are.
pub open spec fn header_text(ws: WorkspaceInfoView, env: EnvironmentInfoView, total: nat, s: Style) -> Seq<
    char,
> {
    dim_text(s, "工作空间"@) + " "@ + bold_text(s, ws.name) + " "@ + dim_text(
        s,
        "("@ + ws.root + ")  · 环境 "@ + env.name + " · "@ + nat_text(env.vars.len()) + " 个变量"@,
    ) + "\n"@ + dim_text(s, "用例"@) + " "@ + nat_text(total) + "\n\n"@
}

/// What is printed before a run.
pub fn run_header(ws: &WorkspaceInfo, env: &EnvironmentInfo, total: usize, s: Style) -> (r: String)
    ensures
        r@ == header_text(ws@, env@, total as nat, s),
{
    let mut d: String = copy_text("(");
    d.push_str(ws.root.as_str());
    d.push_str(")  · 环境 ");
    d.push_str(env.name.as_str());
    d.push_str(" · ");
    d.push_str(usize_text(env.vars.len()).as_str());
    d.push_str(" 个变量");
    let mut r: String = s.dim("工作空间");
    r.push_str(" ");
    r.push_str(s.bold(ws.name.as_str()).as_str());
    r.push_str(" ");
    r.push_str(s.dim(d.as_str()).as_str());
    r.push_str("\n");
    r.push_str(s.dim("用例").as_str());
    r.push_str(" ");
    r.push_str(usize_text(total).as_str());
    r.push_str("\n\n");
    r
}

// ---- a case ----------------------------------------------------------------------------

/// Why the first step that could not be run could not.
pub open spec fn first_error(steps: Seq<StepResultView>, i: int) -> Option<Seq<char>>
    decreases steps.len() - i,
{
    if i < 0 || i >= steps.len() {
        None
    } else if steps[i].status == StepStatus::Error {
        steps[i].error
    } else {
        first_error(steps, i + 1)
    }
}

/// What is said at the end of the line of a case: how many assertions failed, or what went
/// wrong.
pub open spec fn note_of(c: CaseResultView) -> Option<Seq<char>> {
    match c.status {
        CaseStatus::Failed => Some(
            "断言 "@ + nat_text(step_asserts_with(c.steps, false)) + "/"@ + nat_text(
                step_asserts(c.steps),
            ) + " 未通过"@,
        ),
        CaseStatus::Error => first_error(c.steps, 0),
        _ => None,
    }
}

/// The line of an assertion that failed.
pub open spec fn assert_line(id: Seq<char>, a: AssertRecordView, s: Style) -> Seq<char> {
    "      "@ + dim_text(s, id) + " "@ + a.target + " "@ + dim_text(s, a.op) + " "@ + a.expected
        + " "@ + dim_text(s, "→"@) + " "@ + fail_text(s, a.actual) + "\n"@
}

/// The lines of the first `n` assertions: those that passed have none.
pub open spec fn assert_lines(id: Seq<char>, l: Seq<AssertRecordView>, s: Style, n: nat) -> Seq<char>
    decreases n,
{
    if n == 0 || n > l.len() {
        seq![]
    } else if l[n - 1].ok {
        assert_lines(id, l, s, (n - 1) as nat)
    } else {
        assert_lines(id, l, s, (n - 1) as nat) + assert_line(id, l[n - 1], s)
    }
}

/// The line of a step that could not be run.
pub open spec fn step_error_line(st: StepResultView, s: Style) -> Seq<char> {
    match st.error {
        Some(e) => "      "@ + error_text(s, st.id) + " "@ + dim_text(s, e) + "\n"@,
        None => seq![],
    }
}

/// The line of a step that was not run.
pub open spec fn step_skip_line(st: StepResultView, s: Style) -> Seq<char> {
    if st.skip_reason is Some && st.status == StepStatus::Skipped {
        "      "@ + skip_text(s, st.id) + " "@ + skip_text(s, st.skip_reason->0) + "\n"@
    } else {
        seq![]
    }
}

/// The lines of a step.
pub open spec fn step_lines(st: StepResultView, s: Style) -> Seq<char> {
    step_error_line(st, s) + step_skip_line(st, s) + assert_lines(
        st.id,
        st.assertions,
        s,
        st.assertions.len(),
    )
}

/// The lines of the first `n` steps.
pub open spec fn steps_lines(l: Seq<StepResultView>, s: Style, n: nat) -> Seq<char>
    decreases n,
{
    if n == 0 || n > l.len() {
        seq![]
    } else {
        steps_lines(l, s, (n - 1) as nat) + step_lines(l[n - 1], s)
    }
}

/// How long a case took.
pub open spec fn took(c: CaseResultView) -> Seq<char> {
    if c.status == CaseStatus::Skipped {
        "—"@
    } else {
        nat_text(c.duration_ms as nat) + "ms"@
    }
}

/// The last column of the line of a case.
pub open spec fn tail_of(c: CaseResultView, s: Style) -> Seq<char> {
    match c.skip_reason {
        Some(r) => skip_text(s, r),
        None => match note_of(c) {
            Some(n) => n,
            None => seq![],
        },
    }
}

/// The line of a case, with what went wrong below it.
pub open spec fn case_text(c: CaseResultView, s: Style, col: nat) -> Seq<char> {
    "  "@ + mark_of(c.status, s) + " "@ + padded_to(c.file, col) + " "@ + dim_text(
        s,
        padded_to(took(c), 8),
    ) + tail_of(c, s) + "\n"@ + steps_lines(c.steps, s, c.steps.len())
}

fn count_asserts(l: &Vec<AssertRecord>) -> (r: usize)
    ensures
        r == asserts_with(views(l@), false),
        r <= l@.len(),
{
    let ghost w = views(l@);
    let mut n: usize = 0;
    let mut i: usize = 0;
    assert(w.take(0) =~= seq![]);
    while i < l.len()
        invariant
            i <= l@.len(),
            w == views(l@),
            n <= i,
            n == asserts_with(w.take(i as int), false),
        decreases l@.len() - i,
    {
        proof {
            assert(w.take(i + 1).drop_last() =~= w.take(i as int));
            assert(w.take(i + 1).last() == l@[i as int]@);
        }
        if !l[i].ok {
            n = n + 1;
        }
        i = i + 1;
    }
    assert(w.take(w.len() as int) =~= w);
    n
}

fn failed_note(steps: &Vec<StepResult>) -> (r: String)
    ensures
        r@ == "断言 "@ + nat_text(step_asserts_with(views(steps@), false)) + "/"@ + nat_text(
            step_asserts(views(steps@)),
        ) + " 未通过"@,
{
    let ghost w = views(steps@);
    let mut bad: u128 = 0;
    let mut all: u128 = 0;
    let mut i: usize = 0;
    assert(w.take(0) =~= seq![]);
    while i < steps.len()
        invariant
            i <= steps@.len(),
            w == views(steps@),
            bad == step_asserts_with(w.take(i as int), false),
            all == step_asserts(w.take(i as int)),
            bad <= i * 0xffff_ffff_ffff_ffff,
            all <= i * 0xffff_ffff_ffff_ffff,
        decreases steps@.len() - i,
    {
        proof {
            assert(w.take(i + 1).drop_last() =~= w.take(i as int));
            assert(w.take(i + 1).last() == steps@[i as int]@);
        }
        let b: usize = count_asserts(&steps[i].assertions);
        let a: usize = steps[i].assertions.len();
        bad = bad + b as u128;
        all = all + a as u128;
        i = i + 1;
    }
    assert(w.take(w.len() as int) =~= w);
    let mut r: String = copy_text("断言 ");
    r.push_str(u128_text(bad).as_str());
    r.push_str("/");
    r.push_str(u128_text(all).as_str());
    r.push_str(" 未通过");
    r
}

fn error_note(steps: &Vec<StepResult>) -> (r: Option<String>)
    ensures
        opt_view(r) == first_error(views(steps@), 0),
{
    let ghost w = views(steps@);
    let mut i: usize = 0;
    while i < steps.len()
        invariant
            i <= steps@.len(),
            w == views(steps@),
            first_error(w, 0) == first_error(w, i as int),
        decreases steps@.len() - i,
    {
        assert(w[i as int] == steps@[i as int]@);
        if steps[i].status == StepStatus::Error {
            return copy_opt(&steps[i].error);
        }
        i = i + 1;
    }
    None
}

/// What is said at the end of the line of a case.
pub fn summary_note(c: &CaseResult) -> (r: Option<String>)
    ensures
        opt_view(r) == note_of(c@),
{
    match c.status {
        CaseStatus::Failed => Some(failed_note(&c.steps)),
        CaseStatus::Error => error_note(&c.steps),
        _ => None,
    }
}

fn push_assert_line(out: &mut String, id: &str, a: &AssertRecord, s: Style)
    ensures
        final(out)@ == old(out)@ + assert_line(id@, a@, s),
{
    let mut r: String = copy_text("      ");
    r.push_str(s.dim(id).as_str());
    r.push_str(" ");
    r.push_str(a.target.as_str());
    r.push_str(" ");
    r.push_str(s.dim(a.op.as_str()).as_str());
    r.push_str(" ");
    r.push_str(a.expected.as_str());
    r.push_str(" ");
    r.push_str(s.dim("→").as_str());
    r.push_str(" ");
    r.push_str(s.fail(a.actual.as_str()).as_str());
    r.push_str("\n");
    out.push_str(r.as_str());
}

fn push_step_lines(out: &mut String, st: &StepResult, s: Style)
    ensures
        final(out)@ == old(out)@ + step_lines(st@, s),
{
    let ghost start = out@;
    if let Some(e) = &st.error {
        let mut r: String = copy_text("      ");
        r.push_str(s.error(st.id.as_str()).as_str());
        r.push_str(" ");
        r.push_str(s.dim(e.as_str()).as_str());
        r.push_str("\n");
        out.push_str(r.as_str());
    }
    assert(out@ =~= start + step_error_line(st@, s));
    if let Some(w) = &st.skip_reason {
        if st.status == StepStatus::Skipped {
            let mut r: String = copy_text("      ");
            r.push_str(s.skip(st.id.as_str()).as_str());
            r.push_str(" ");
            r.push_str(s.skip(w.as_str()).as_str());
            r.push_str("\n");
            out.push_str(r.as_str());
        }
    }
    let ghost head = step_error_line(st@, s) + step_skip_line(st@, s);
    assert(out@ =~= start + head);
    let ghost l = views(st.assertions@);
    let mut i: usize = 0;
    assert(out@ =~= start + head + assert_lines(st@.id, l, s, 0));
    while i < st.assertions.len()
        invariant
            i <= st.assertions@.len(),
            l == views(st.assertions@),
            out@ == start + head + assert_lines(st@.id, l, s, i as nat),
        decreases st.assertions@.len() - i,
    {
        assert(l[i as int] == st.assertions@[i as int]@);
        if !st.assertions[i].ok {
            push_assert_line(out, st.id.as_str(), &st.assertions[i], s);
        }
        assert(out@ =~= start + head + assert_lines(st@.id, l, s, (i + 1) as nat));
        i = i + 1;
    }
    assert(out@ =~= start + step_lines(st@, s));
}

/// The line of a case, with what went wrong below it.
pub fn case_line(c: &CaseResult, s: Style, name_col: usize) -> (r: String)
    ensures
        r@ == case_text(c@, s, name_col as nat),
{
    let dur: String = if c.status == CaseStatus::Skipped {
        copy_text("—")
    } else {
        cat(u64_text(c.duration_ms).as_str(), "ms")
    };
    let mut out: String = copy_text("  ");
    out.push_str(case_mark(c.status, s).as_str());
    out.push_str(" ");
    out.push_str(pad(c.file.as_str(), name_col).as_str());
    out.push_str(" ");
    out.push_str(s.dim(pad(dur.as_str(), 8).as_str()).as_str());
    let ghost lead = out@;
    if let Some(w) = &c.skip_reason {
        out.push_str(s.skip(w.as_str()).as_str());
    } else if let Some(n) = summary_note(c) {
        out.push_str(n.as_str());
    }
    assert(out@ =~= lead + tail_of(c@, s));
    out.push_str("\n");
    let ghost head = out@;
    let ghost l = views(c.steps@);
    let mut i: usize = 0;
    assert(out@ =~= head + steps_lines(l, s, 0));
    while i < c.steps.len()
        invariant
            i <= c.steps@.len(),
            l == views(c.steps@),
            out@ == head + steps_lines(l, s, i as nat),
        decreases c.steps@.len() - i,
    {
        assert(l[i as int] == c.steps@[i as int]@);
        push_step_lines(&mut out, &c.steps[i], s);
        assert(out@ =~= head + steps_lines(l, s, (i + 1) as nat));
        i = i + 1;
    }
    out
}

// ---- columns ---------------------------------------------------------------------------

/// The width of the widest of texts.
pub open spec fn widest(l: Seq<Seq<char>>) -> nat
    decreases l.len(),
{
    if l.len() == 0 {
        0
    } else if width_of(l.last()) > widest(l.drop_last()) {
        width_of(l.last())
    } else {
        widest(l.drop_last())
    }
}

/// The width of a column of names: that of the widest, within bounds, and two more.
pub open spec fn column_of(l: Seq<Seq<char>>) -> nat {
    (if widest(l) < 24 {
        24nat
    } else if widest(l) > 60 {
        60
    } else {
        widest(l)
    }) + 2
}

/// The width of a column of names.
pub fn name_column(names: &Vec<String>) -> (r: usize)
    ensures
        r == column_of(views(names@)),
{
    let ghost w = views(names@);
    let mut n: usize = 0;
    let mut i: usize = 0;
    assert(w.take(0) =~= seq![]);
    while i < names.len()
        invariant
            i <= names@.len(),
            w == views(names@),
            n == widest(w.take(i as int)),
        decreases names@.len() - i,
    {
        proof {
            assert(w.take(i + 1).drop_last() =~= w.take(i as int));
            assert(w.take(i + 1).last() == names@[i as int]@);
        }
        let m: usize = width(names[i].as_str());
        if m > n {
            n = m;
        }
        i = i + 1;
    }
    assert(w.take(w.len() as int) =~= w);
    if n < 24 {
        26
    } else if n > 60 {
        62
    } else {
        n + 2
    }
}

// ---- a run -----------------------------------------------------------------------------

/// How the double-precision number nearest to a number of milliseconds in seconds is scaled: it
/// is a multiple of one part in this many.
pub open spec fn second_parts(ms: nat) -> nat {
    if ms < 2000 {
        0x10_0000_0000_0000
    } else if ms < 4000 {
        0x8_0000_0000_0000
    } else if ms < 8000 {
        0x4_0000_0000_0000
    } else if ms < 16000 {
        0x2_0000_0000_0000
    } else if ms < 32000 {
        0x1_0000_0000_0000
    } else {
        0x8000_0000_0000
    }
}

/// A number of milliseconds in tenths of a second, to the nearest. Half-way between two, the
/// double-precision number of seconds decides: it may lie above or below, and where it lies
/// between them exactly, the even one is taken.
pub open spec fn tenths(ms: nat) -> nat {
    let down = ms / 100;
    let rest = ms % 100;
    let off = (ms * second_parts(ms)) % 1000;
    if rest < 50 {
        down
    } else if rest > 50 || off > 500 || off == 0 && down % 2 == 1 {
        down + 1
    } else {
        down
    }
}

/// A time for people: seconds once it is one second.
pub open spec fn time_text(ms: nat) -> Seq<char> {
    if ms < 1000 {
        nat_text(ms) + "ms"@
    } else if ms < 60_000 {
        nat_text(tenths(ms) / 10) + "."@ + nat_text(tenths(ms) % 10) + "s"@
    } else {
        nat_text(ms / 60_000) + "m"@ + nat_text((ms % 60_000) / 1000) + "s"@
    }
}

/// A time for people.
pub fn human_ms(ms: u64) -> (r: String)
    ensures
        r@ == time_text(ms as nat),
{
    if ms < 1000 {
        cat(u64_text(ms).as_str(), "ms")
    } else if ms < 60_000 {
        let parts: u128 = if ms < 2000 {
            0x10_0000_0000_0000
        } else if ms < 4000 {
            0x8_0000_0000_0000
        } else if ms < 8000 {
            0x4_0000_0000_0000
        } else if ms < 16000 {
            0x2_0000_0000_0000
        } else if ms < 32000 {
            0x1_0000_0000_0000
        } else {
            0x8000_0000_0000
        };
        let wide: u128 = ms as u128;
        assert(wide * parts <= 60_000 * 0x10_0000_0000_0000) by (nonlinear_arith)
            requires
                wide <= 60_000,
                parts <= 0x10_0000_0000_0000,
        ;
        let off: u128 = (wide * parts) % 1000;
        let down: u64 = ms / 100;
        let rest: u64 = ms % 100;
        let t: u64 = if rest < 50 {
            down
        } else if rest > 50 || off > 500 || off == 0 && down % 2 == 1 {
            down + 1
        } else {
            down
        };
        let mut r: String = u64_text(t / 10);
        r.push_str(".");
        r.push_str(u64_text(t % 10).as_str());
        r.push_str("s");
        r
    } else {
        let mut r: String = u64_text(ms / 60_000);
        r.push_str("m");
        r.push_str(u64_text((ms % 60_000) / 1000).as_str());
        r.push_str("s");
        r
    }
}

/// A count with its label, unless it is zero.
pub open spec fn count_text(label: Seq<char>, n: u32) -> Seq<char> {
    if n > 0 {
        "  "@ + label + " "@ + padded_to(nat_text(n as nat), 4)
    } else {
        seq![]
    }
}

/// A line of counts; those that are zero are left out.
pub open spec fn counts_text(
    label: Seq<char>,
    total: u32,
    passed: u32,
    failed: u32,
    error: u32,
    skipped: u32,
    s: Style,
) -> Seq<char> {
    dim_text(s, padded_to(label, 4)) + " "@ + padded_to(nat_text(total as nat), 5) + count_text(
        pass_text(s, "通过"@),
        passed,
    ) + count_text(fail_text(s, "失败"@), failed) + count_text(error_text(s, "错误"@), error)
        + count_text(skip_text(s, "跳过"@), skipped) + "\n"@
}

/// What is printed after a run. Cases, steps and assertions are counted apart.
pub open spec fn summary_text(r: RunReportView, path: Option<Seq<char>>, s: Style) -> Seq<char> {
    let m = r.summary;
    "\n"@ + counts_text("用例"@, m.total, m.passed, m.failed, m.error, m.skipped, s) + (if m.steps.total
        > 0 {
        counts_text(
            "请求"@,
            m.steps.total,
            m.steps.passed,
            m.steps.failed,
            m.steps.error,
            m.steps.skipped,
            s,
        )
    } else {
        seq![]
    }) + (if m.assertions.total > 0 {
        counts_text("断言"@, m.assertions.total, m.assertions.passed, m.assertions.failed, 0, 0, s)
    } else {
        seq![]
    }) + (dim_text(s, padded_to("耗时"@, 4)) + " "@ + time_text(r.duration_ms as nat) + "\n"@) + (match path {
        Some(p) => dim_text(s, padded_to("报告"@, 4)) + " "@ + p + "\n"@,
        None => seq![],
    }) + (if r.status == RunStatus::Cancelled {
        warn_text(s, "运行被中断，以上是已完成的部分\n"@)
    } else {
        seq![]
    })
}

fn push_count(out: &mut String, label: &str, n: u32)
    ensures
        final(out)@ == old(out)@ + count_text(label@, n),
{
    let ghost start = out@;
    if n > 0 {
        let mut r: String = copy_text("  ");
        r.push_str(label);
        r.push_str(" ");
        r.push_str(pad(u64_text(n as u64).as_str(), 4).as_str());
        out.push_str(r.as_str());
    }
    assert(out@ =~= start + count_text(label@, n));
}

fn counts(label: &str, total: u32, passed: u32, failed: u32, error: u32, skipped: u32, s: Style) -> (r:
    String)
    ensures
        r@ == counts_text(label@, total, passed, failed, error, skipped, s),
{
    let mut r: String = s.dim(pad(label, 4).as_str());
    r.push_str(" ");
    r.push_str(pad(u64_text(total as u64).as_str(), 5).as_str());
    push_count(&mut r, s.pass("通过").as_str(), passed);
    push_count(&mut r, s.fail("失败").as_str(), failed);
    push_count(&mut r, s.error("错误").as_str(), error);
    push_count(&mut r, s.skip("跳过").as_str(), skipped);
    r.push_str("\n");
    r
}

/// What is printed after a run.
pub fn run_summary(report: &RunReport, report_path: Option<&str>, s: Style) -> (r: String)
    ensures
        r@ == summary_text(report@, opt_text(report_path), s),
{
    let none: String = String::new();
    assert(none@ =~= seq![]);
    let mut r: String = copy_text("\n");
    let cases: String = counts(
        "用例",
        report.summary.total,
        report.summary.passed,
        report.summary.failed,
        report.summary.error,
        report.summary.skipped,
        s,
    );
    r.push_str(cases.as_str());
    let steps: String = if report.summary.steps.total > 0 {
        counts(
            "请求",
            report.summary.steps.total,
            report.summary.steps.passed,
            report.summary.steps.failed,
            report.summary.steps.error,
            report.summary.steps.skipped,
            s,
        )
    } else {
        copy_text(none.as_str())
    };
    r.push_str(steps.as_str());
    let asserts: String = if report.summary.assertions.total > 0 {
        counts(
            "断言",
            report.summary.assertions.total,
            report.summary.assertions.passed,
            report.summary.assertions.failed,
            0,
            0,
            s,
        )
    } else {
        copy_text(none.as_str())
    };
    r.push_str(asserts.as_str());
    let mut time: String = s.dim(pad("耗时", 4).as_str());
    time.push_str(" ");
    time.push_str(human_ms(report.duration_ms).as_str());
    time.push_str("\n");
    r.push_str(time.as_str());
    let place: String = match report_path {
        Some(p) => {
            let mut l: String = s.dim(pad("报告", 4).as_str());
            l.push_str(" ");
            l.push_str(p);
            l.push_str("\n");
            l
        },
        None => copy_text(none.as_str()),
    };
    r.push_str(place.as_str());
    let broken: String = if report.status == RunStatus::Cancelled {
        s.warn("运行被中断，以上是已完成的部分\n")
    } else {
        copy_text(none.as_str())
    };
    r.push_str(broken.as_str());
    r
}

// ---- lists -----------------------------------------------------------------------------

/// The line of a step in a list.
pub open spec fn brief_line(st: StepBriefView, s: Style) -> Seq<char> {
    "  "@ + dim_text(s, padded_to(st.id, 16)) + " "@ + padded_to(st.method, 6) + " "@ + st.url + (if st.depends_on.len()
        == 0 {
        seq![]
    } else {
        dim_text(s, "  ← "@ + join(st.depends_on, ", "@))
    }) + "\n"@
}

/// The lines of the first `n` steps in a list.
pub open spec fn brief_lines(l: Seq<StepBriefView>, s: Style, n: nat) -> Seq<char>
    decreases n,
{
    if n == 0 || n > l.len() {
        seq![]
    } else {
        brief_lines(l, s, (n - 1) as nat) + brief_line(l[n - 1], s)
    }
}

/// The lines of a file in a list.
pub open spec fn item_lines(it: ListItemView, s: Style, col: nat) -> Seq<char> {
    if it.valid {
        padded_to(it.file, col) + dim_text(
            s,
            match it.name {
                Some(n) => n,
                None => seq![],
            },
        ) + "\n"@ + brief_lines(it.steps, s, it.steps.len())
    } else {
        fail_text(s, padded_to(it.file, col)) + " "@ + dim_text(
            s,
            match it.error {
                Some(e) => e,
                None => "解析失败"@,
            },
        ) + "\n"@
    }
}

/// The lines of the first `n` files in a list.
pub open spec fn items_lines(l: Seq<ListItemView>, s: Style, col: nat, n: nat) -> Seq<char>
    decreases n,
{
    if n == 0 || n > l.len() {
        seq![]
    } else {
        items_lines(l, s, col, (n - 1) as nat) + item_lines(l[n - 1], s, col)
    }
}

/// A list of files.
pub open spec fn list_text(l: Seq<ListItemView>, s: Style) -> Seq<char> {
    if l.len() == 0 {
        dim_text(s, "没有找到用例\n"@)
    } else {
        items_lines(l, s, column_of(l.map_values(|it: ListItemView| it.file)), l.len())
            + dim_text(s, "\n"@ + nat_text(l.len()) + " 个用例\n"@)
    }
}

fn push_brief(out: &mut String, st: &StepBrief, s: Style)
    ensures
        final(out)@ == old(out)@ + brief_line(st@, s),
{
    let deps: String = if st.depends_on.len() == 0 {
        let none: String = String::new();
        assert(none@ =~= seq![]);
        none
    } else {
        s.dim(cat("  ← ", joined(&st.depends_on, ", ").as_str()).as_str())
    };
    let mut r: String = copy_text("  ");
    r.push_str(s.dim(pad(st.id.as_str(), 16).as_str()).as_str());
    r.push_str(" ");
    r.push_str(pad(st.method.as_str(), 6).as_str());
    r.push_str(" ");
    r.push_str(st.url.as_str());
    r.push_str(deps.as_str());
    r.push_str("\n");
    out.push_str(r.as_str());
}

fn item_text(it: &ListItem, s: Style, col: usize) -> (r: String)
    ensures
        r@ == item_lines(it@, s, col as nat),
{
    if !it.valid {
        let mut r: String = s.fail(pad(it.file.as_str(), col).as_str());
        r.push_str(" ");
        let why: String = match &it.error {
            Some(e) => s.dim(e.as_str()),
            None => s.dim("解析失败"),
        };
        r.push_str(why.as_str());
        r.push_str("\n");
        return r;
    }
    let title: String = match &it.name {
        Some(n) => copy_text(n.as_str()),
        None => {
            let none: String = String::new();
            assert(none@ =~= seq![]);
            none
        },
    };
    let mut r: String = pad(it.file.as_str(), col);
    r.push_str(s.dim(title.as_str()).as_str());
    r.push_str("\n");
    let ghost head = r@;
    let ghost l = views(it.steps@);
    let mut i: usize = 0;
    assert(r@ =~= head + brief_lines(l, s, 0));
    while i < it.steps.len()
        invariant
            i <= it.steps@.len(),
            l == views(it.steps@),
            r@ == head + brief_lines(l, s, i as nat),
        decreases it.steps@.len() - i,
    {
        assert(l[i as int] == it.steps@[i as int]@);
        push_brief(&mut r, &it.steps[i], s);
        assert(r@ =~= head + brief_lines(l, s, (i + 1) as nat));
        i = i + 1;
    }
    r
}

fn item_files(l: &[ListItem]) -> (r: Vec<String>)
    ensures
        views(r@) == views(l@).map_values(|it: ListItemView| it.file),
{
    let mut out: Vec<String> = Vec::new();
    let mut i: usize = 0;
    while i < l.len()
        invariant
            i <= l@.len(),
            out@.len() == i,
            forall|k: int| 0 <= k < i ==> (#[trigger] out@[k])@ == l@[k]@.file,
        decreases l@.len() - i,
    {
        out.push(copy_text(l[i].file.as_str()));
        i = i + 1;
    }
    assert(views(out@) =~= views(l@).map_values(|it: ListItemView| it.file));
    out
}

/// A list of files.
pub fn list_table(items: &[ListItem], s: Style) -> (r: String)
    ensures
        r@ == list_text(views(items@), s),
{
    if items.len() == 0 {
        return s.dim("没有找到用例\n");
    }
    let col: usize = name_column(&item_files(items));
    let ghost l = views(items@);
    let mut r: String = String::new();
    let mut i: usize = 0;
    assert(r@ =~= items_lines(l, s, col as nat, 0));
    while i < items.len()
        invariant
            i <= items@.len(),
            l == views(items@),
            r@ == items_lines(l, s, col as nat, i as nat),
        decreases items@.len() - i,
    {
        assert(l[i as int] == items@[i as int]@);
        r.push_str(item_text(&items[i], s, col).as_str());
        i = i + 1;
    }
    let end: String = cat3("\n", usize_text(items.len()).as_str(), " 个用例\n");
    r.push_str(s.dim(end.as_str()).as_str());
    r
}

// ---- checks ----------------------------------------------------------------------------

/// The line of an issue.
pub open spec fn issue_line(i: IssueView, s: Style) -> Seq<char> {
    "      "@ + (match i.severity {
        Severity::Error => fail_text(s, "错误"@),
        Severity::Warning => warn_text(s, "警告"@),
    }) + " "@ + (if i.at.len() == 0 {
        seq![]
    } else {
        dim_text(s, i.at) + " "@
    }) + i.message + "\n"@
}

/// The lines of the first `n` issues.
pub open spec fn issue_lines(l: Seq<IssueView>, s: Style, n: nat) -> Seq<char>
    decreases n,
{
    if n == 0 || n > l.len() {
        seq![]
    } else {
        issue_lines(l, s, (n - 1) as nat) + issue_line(l[n - 1], s)
    }
}

/// The lines of a file that was checked; one without issues has none.
pub open spec fn result_lines(r: CheckResultView, s: Style, col: nat) -> Seq<char> {
    if r.issues.len() == 0 {
        seq![]
    } else {
        "  "@ + (if r.ok {
            warn_text(s, "!"@)
        } else {
            fail_text(s, "✕"@)
        }) + " "@ + padded_to(r.file, col) + "\n"@ + issue_lines(r.issues, s, r.issues.len())
    }
}

/// The lines of the first `n` files that were checked.
pub open spec fn results_lines(l: Seq<CheckResultView>, s: Style, col: nat, n: nat) -> Seq<char>
    decreases n,
{
    if n == 0 || n > l.len() {
        seq![]
    } else {
        results_lines(l, s, col, (n - 1) as nat) + result_lines(l[n - 1], s, col)
    }
}

/// How many files have issues.
pub open spec fn with_issues(l: Seq<CheckResultView>) -> nat
    decreases l.len(),
{
    if l.len() == 0 {
        0
    } else {
        with_issues(l.drop_last()) + (if l.last().issues.len() > 0 {
            1nat
        } else {
            0
        })
    }
}

/// What a check found; files without issues are only counted.
pub open spec fn checked_text(r: CheckReportView, s: Style) -> Seq<char> {
    let clean = r.total - with_issues(r.results);
    results_lines(
        r.results,
        s,
        column_of(r.results.map_values(|c: CheckResultView| c.file)),
        r.results.len(),
    ) + "\n"@ + (nat_text(r.total as nat) + " 个用例"@) + (if clean > 0 {
        "，"@ + pass_text(s, nat_text(clean as nat)) + " 无问题"@
    } else {
        seq![]
    }) + (if r.errors > 0 {
        "，"@ + fail_text(s, nat_text(r.errors as nat)) + " 处错误"@
    } else {
        seq![]
    }) + (if r.warnings > 0 {
        "，"@ + warn_text(s, nat_text(r.warnings as nat)) + " 处警告"@
    } else {
        seq![]
    }) + "\n"@
}

fn push_issue_line(out: &mut String, i: &Issue, s: Style)
    ensures
        final(out)@ == old(out)@ + issue_line(i@, s),
{
    let mut r: String = copy_text("      ");
    let tag: String = match i.severity {
        Severity::Error => s.fail("错误"),
        Severity::Warning => s.warn("警告"),
    };
    r.push_str(tag.as_str());
    r.push_str(" ");
    let at: String = if empty(i.at.as_str()) {
        let none: String = String::new();
        assert(none@ =~= seq![]);
        none
    } else {
        cat(s.dim(i.at.as_str()).as_str(), " ")
    };
    r.push_str(at.as_str());
    r.push_str(i.message.as_str());
    r.push_str("\n");
    out.push_str(r.as_str());
}

fn result_text(c: &CheckResult, s: Style, col: usize) -> (r: String)
    ensures
        r@ == result_lines(c@, s, col as nat),
{
    if c.issues.len() == 0 {
        let none: String = String::new();
        assert(none@ =~= seq![]);
        return none;
    }
    let mut r: String = copy_text("  ");
    let mark: String = if c.ok {
        s.warn("!")
    } else {
        s.fail("✕")
    };
    r.push_str(mark.as_str());
    r.push_str(" ");
    r.push_str(pad(c.file.as_str(), col).as_str());
    r.push_str("\n");
    let ghost head = r@;
    let ghost l = views(c.issues@);
    let mut i: usize = 0;
    assert(r@ =~= head + issue_lines(l, s, 0));
    while i < c.issues.len()
        invariant
            i <= c.issues@.len(),
            l == views(c.issues@),
            r@ == head + issue_lines(l, s, i as nat),
        decreases c.issues@.len() - i,
    {
        assert(l[i as int] == c.issues@[i as int]@);
        push_issue_line(&mut r, &c.issues[i], s);
        assert(r@ =~= head + issue_lines(l, s, (i + 1) as nat));
        i = i + 1;
    }
    r
}

fn checked_files(l: &Vec<CheckResult>) -> (r: Vec<String>)
    ensures
        views(r@) == views(l@).map_values(|c: CheckResultView| c.file),
{
    let mut out: Vec<String> = Vec::new();
    let mut i: usize = 0;
    while i < l.len()
        invariant
            i <= l@.len(),
            out@.len() == i,
            forall|k: int| 0 <= k < i ==> (#[trigger] out@[k])@ == l@[k]@.file,
        decreases l@.len() - i,
    {
        out.push(copy_text(l[i].file.as_str()));
        i = i + 1;
    }
    assert(views(out@) =~= views(l@).map_values(|c: CheckResultView| c.file));
    out
}

fn push_found(out: &mut String, n: String, what: &str)
    ensures
        final(out)@ == old(out)@ + ("，"@ + n@ + what@),
{
    let r: String = cat3("，", n.as_str(), what);
    out.push_str(r.as_str());
}

/// What a check found.
pub fn check_text(report: &CheckReport, s: Style) -> (r: String)
    requires
        with_issues(report@.results) <= report@.total,
    ensures
        r@ == checked_text(report@, s),
{
    let col: usize = name_column(&checked_files(&report.results));
    let ghost l = views(report.results@);
    let mut r: String = String::new();
    let mut dirty: usize = 0;
    let mut i: usize = 0;
    assert(r@ =~= results_lines(l, s, col as nat, 0));
    assert(l.take(0) =~= seq![]);
    while i < report.results.len()
        invariant
            i <= report.results@.len(),
            l == views(report.results@),
            dirty <= i,
            dirty == with_issues(l.take(i as int)),
            r@ == results_lines(l, s, col as nat, i as nat),
        decreases report.results@.len() - i,
    {
        proof {
            assert(l[i as int] == report.results@[i as int]@);
            assert(l.take(i + 1).drop_last() =~= l.take(i as int));
            assert(l.take(i + 1).last() == l[i as int]);
        }
        if report.results[i].issues.len() > 0 {
            dirty = dirty + 1;
        }
        r.push_str(result_text(&report.results[i], s, col).as_str());
        i = i + 1;
    }
    assert(l.take(l.len() as int) =~= l);
    let clean: usize = report.total - dirty;
    r.push_str("\n");
    r.push_str(cat(usize_text(report.total).as_str(), " 个用例").as_str());
    let ghost base = r@;
    if clean > 0 {
        push_found(&mut r, s.pass(usize_text(clean).as_str()), " 无问题");
    } else {
        assert(base + seq![] =~= base);
    }
    let ghost after_clean = r@;
    if report.errors > 0 {
        push_found(&mut r, s.fail(usize_text(report.errors).as_str()), " 处错误");
    } else {
        assert(after_clean + seq![] =~= after_clean);
    }
    let ghost after_errors = r@;
    if report.warnings > 0 {
        push_found(&mut r, s.warn(usize_text(report.warnings).as_str()), " 处警告");
    } else {
        assert(after_errors + seq![] =~= after_errors);
    }
    r.push_str("\n");
    r
}

// ---- laws ------------------------------------------------------------------------------

proof fn lemma_with_issues(l: Seq<CheckResultView>)
    ensures
        with_issues(l) <= l.len(),
    decreases l.len(),
{
    if l.len() > 0 {
        lemma_with_issues(l.drop_last());
    }
}

/// What a check found can always be printed.
pub proof fn law_reports_can_be_printed(l: Seq<CheckResultView>)
    requires
        l.len() <= usize::MAX,
    ensures
        with_issues(crate::check::report_of(l).results) <= crate::check::report_of(l).total,
{
    lemma_with_issues(l);
}

/// What is told of a case that did not pass: how many of its assertions do not hold, or the error
/// of the first step that has one.
pub proof fn law_note(c: CaseResultView, i: int)
    requires
        0 <= i <= c.steps.len(),
        forall|k: int| 0 <= k < i ==> !((#[trigger] c.steps[k]).status is Error),
        i < c.steps.len() ==> c.steps[i].status is Error,
    ensures
        c.status is Passed || c.status is Skipped || c.status is Running ==> note_of(c) is None,
        c.status is Failed ==> note_of(c) == Some(
            "断言 "@ + nat_text(step_asserts_with(c.steps, false)) + "/"@ + nat_text(
                step_asserts(c.steps),
            ) + " 未通过"@,
        ),
        c.status is Error ==> note_of(c) == (if i < c.steps.len() {
            c.steps[i].error
        } else {
            None
        }),
{
    lemma_first_error(c.steps, 0, i);
}

proof fn lemma_first_error(steps: Seq<StepResultView>, from: int, i: int)
    requires
        0 <= from <= i <= steps.len(),
        forall|k: int| from <= k < i ==> !((#[trigger] steps[k]).status is Error),
        i < steps.len() ==> steps[i].status is Error,
    ensures
        first_error(steps, from) == (if i < steps.len() {
            steps[i].error
        } else {
            None
        }),
    decreases i - from,
{
    if from < i {
        assert(!(steps[from].status is Error));
        lemma_first_error(steps, from + 1, i);
    }
}

proof fn lemma_assert_lines(
    id: Seq<char>,
    l: Seq<AssertRecordView>,
    a: AssertRecordView,
    s: Style,
    n: nat,
)
    requires
        n <= l.len(),
    ensures
        assert_lines(id, l.push(a), s, n) == assert_lines(id, l, s, n),
    decreases n,
{
    if n > 0 {
        lemma_assert_lines(id, l, a, s, (n - 1) as nat);
        assert(l.push(a)[n - 1] == l[n - 1]);
    }
}

/// Assertions that do not hold are told, one line each and in order, with the step, the target, the
/// operator, what was expected and what was found; those that hold are not.
pub proof fn law_failures_told(
    id: Seq<char>,
    l: Seq<AssertRecordView>,
    a: AssertRecordView,
    s: Style,
)
    ensures
        assert_lines(id, seq![], s, 0).len() == 0,
        a.ok ==> assert_lines(id, l.push(a), s, l.len() + 1) == assert_lines(id, l, s, l.len()),
        !a.ok ==> assert_lines(id, l.push(a), s, l.len() + 1) == assert_lines(id, l, s, l.len())
            + assert_line(id, a, s),
        !s.on ==> assert_line(id, a, s) == "      "@ + id + " "@ + a.target + " "@ + a.op + " "@
            + a.expected + " "@ + "→"@ + " "@ + a.actual + "\n"@,
{
    lemma_assert_lines(id, l, a, s, l.len());
    assert(l.push(a)[l.len() as int] == a);
}

/// A duration is told in milliseconds up to a second, in tenths of a second up to a minute, to the
/// nearest tenth, and in minutes and seconds from there on.
pub proof fn law_duration_told(ms: nat)
    ensures
        ms < 1000 ==> time_text(ms) == nat_text(ms) + "ms"@,
        1000 <= ms < 60_000 ==> time_text(ms) == nat_text(tenths(ms) / 10) + "."@ + nat_text(
            tenths(ms) % 10,
        ) + "s"@ && -50 <= tenths(ms) * 100 - ms <= 50,
        ms >= 60_000 ==> time_text(ms) == nat_text(ms / 60_000) + "m"@ + nat_text(
            (ms % 60_000) / 1000,
        ) + "s"@,
{
    assert(ms == (ms / 100) * 100 + ms % 100);
}

/// A count is told if there is something to count.
pub proof fn law_counts_told(label: Seq<char>, n: u32)
    ensures
        count_text(label, 0).len() == 0,
        n > 0 ==> count_text(label, n) == "  "@ + label + " "@ + padded_to(nat_text(n as nat), 4),
{
}

/// Without colours a step that could not be carried out tells its error, one that was left out tells
/// why, and one that went well tells nothing but the assertions that do not hold.
pub proof fn law_steps_told(l: Seq<StepResultView>, st: StepResultView, s: Style)
    requires
        !s.on,
    ensures
        steps_lines(seq![], s, 0).len() == 0,
        steps_lines(l.push(st), s, l.len() + 1) == steps_lines(l, s, l.len()) + step_lines(st, s),
        st.error is None && st.skip_reason is None ==> step_lines(st, s) == assert_lines(
            st.id,
            st.assertions,
            s,
            st.assertions.len(),
        ),
        st.error is Some && st.skip_reason is None && st.assertions.len() == 0 ==> step_lines(st, s)
            == "      "@ + st.id + " "@ + st.error->0 + "\n"@,
        st.skip_reason is Some && st.status is Skipped && st.error is None && st.assertions.len()
            == 0 ==> step_lines(st, s) == "      "@ + st.id + " "@ + st.skip_reason->0 + "\n"@,
        !(st.status is Skipped) && st.error is None && st.assertions.len() == 0 ==> step_lines(
            st,
            s,
        ).len() == 0,
{
    let m = l.push(st);
    lemma_steps_alike(l, m, s, l.len());
    assert(m[m.len() - 1] == st);
    if st.error is None && st.skip_reason is None {
        assert(step_lines(st, s) =~= assert_lines(st.id, st.assertions, s, st.assertions.len()));
    }
    if let Some(e) = st.error {
        assert(step_error_line(st, s) =~= "      "@ + st.id + " "@ + e + "\n"@);
        if st.skip_reason is None && st.assertions.len() == 0 {
            assert(step_lines(st, s) =~= step_error_line(st, s));
        }
    }
    if let Some(r) = st.skip_reason {
        if st.status is Skipped && st.error is None && st.assertions.len() == 0 {
            assert(step_lines(st, s) =~= step_skip_line(st, s));
            assert(step_skip_line(st, s) =~= "      "@ + st.id + " "@ + r + "\n"@);
        }
    }
}

proof fn lemma_steps_alike(l: Seq<StepResultView>, m: Seq<StepResultView>, s: Style, n: nat)
    requires
        n <= l.len(),
        n <= m.len(),
        forall|k: int| 0 <= k < n ==> l[k] == #[trigger] m[k],
    ensures
        steps_lines(l, s, n) == steps_lines(m, s, n),
    decreases n,
{
    if n > 0 {
        lemma_steps_alike(l, m, s, (n - 1) as nat);
        assert(l[n - 1] == m[n - 1]);
    }
}

/// Without colours a case is told with the mark of how it went, its file, how long it took unless it
/// was left out, why it was left out or what went wrong, and then its steps.
pub proof fn law_case_printed(c: CaseResultView, s: Style, col: nat)
    requires
        !s.on,
    ensures
        mark_of(c.status, s) == (match c.status {
            CaseStatus::Passed => "✓"@,
            CaseStatus::Failed => "✕"@,
            CaseStatus::Error => "!"@,
            CaseStatus::Skipped => "–"@,
            CaseStatus::Running => "·"@,
        }),
        took(c) == (if c.status is Skipped {
            "—"@
        } else {
            nat_text(c.duration_ms as nat) + "ms"@
        }),
        case_text(c, s, col) == "  "@ + mark_of(c.status, s) + " "@ + padded_to(c.file, col) + " "@
            + padded_to(took(c), 8) + (match (c.skip_reason, note_of(c)) {
            (Some(r), _) => r,
            (None, Some(n)) => n,
            (None, None) => Seq::<char>::empty(),
        }) + "\n"@ + steps_lines(c.steps, s, c.steps.len()),
{
}

/// Without colours a run begins by telling the workspace and where it is, the environment with the
/// number of its variables, and the number of cases.
pub proof fn law_header_printed(
    ws: WorkspaceInfoView,
    env: EnvironmentInfoView,
    total: nat,
    s: Style,
)
    requires
        !s.on,
    ensures
        header_text(ws, env, total, s) == "工作空间"@ + " "@ + ws.name + " "@ + ("("@ + ws.root
            + ")  · 环境 "@ + env.name + " · "@ + nat_text(env.vars.len()) + " 个变量"@) + "\n"@
            + "用例"@ + " "@ + nat_text(total) + "\n\n"@,
{
}

/// The column after the names is two wider than the widest of them, and never narrower than 26 nor
/// wider than 62.
pub proof fn law_column(l: Seq<Seq<char>>, i: int)
    requires
        0 <= i < l.len(),
    ensures
        26 <= column_of(l) <= 62,
        column_of(l) == 62 || width_of(l[i]) + 2 <= column_of(l),
        column_of(l) == 26 || exists|k: int|
            0 <= k < l.len() && width_of(#[trigger] l[k]) + 2 >= column_of(l),
{
    lemma_widest(l, i);
}

proof fn lemma_widest(l: Seq<Seq<char>>, i: int)
    requires
        0 <= i < l.len(),
    ensures
        width_of(l[i]) <= widest(l),
        exists|k: int| 0 <= k < l.len() && width_of(#[trigger] l[k]) == widest(l),
    decreases l.len(),
{
    let d = l.drop_last();
    assert(l[l.len() - 1] == l.last());
    if d.len() == 0 {
        assert(widest(d) == 0);
        assert(width_of(l[0]) == widest(l));
    } else if i < d.len() {
        lemma_widest(d, i);
        assert(d[i] == l[i]);
        if widest(l) == widest(d) {
            let k = choose|k: int| 0 <= k < d.len() && width_of(#[trigger] d[k]) == widest(d);
            assert(l[k] == d[k]);
        }
    } else {
        lemma_widest(d, 0);
        if widest(l) == widest(d) {
            let k = choose|k: int| 0 <= k < d.len() && width_of(#[trigger] d[k]) == widest(d);
            assert(l[k] == d[k]);
        }
    }
}

/// Without colours a step of a listed case is told with its id, its method, its address, and what it
/// depends on.
pub proof fn law_brief_printed(st: StepBriefView, s: Style)
    requires
        !s.on,
    ensures
        st.depends_on.len() == 0 ==> brief_line(st, s) == "  "@ + padded_to(st.id, 16) + " "@
            + padded_to(st.method, 6) + " "@ + st.url + "\n"@,
        st.depends_on.len() > 0 ==> brief_line(st, s) == "  "@ + padded_to(st.id, 16) + " "@
            + padded_to(st.method, 6) + " "@ + st.url + ("  ← "@ + join(st.depends_on, ", "@))
            + "\n"@,
{
    if st.depends_on.len() == 0 {
        assert(brief_line(st, s) =~= "  "@ + padded_to(st.id, 16) + " "@ + padded_to(st.method, 6)
            + " "@ + st.url + "\n"@);
    }
}

/// Without colours a listed case is told with its file, its name and its steps, and a file that is
/// no case with what is wrong with it.
pub proof fn law_item_printed(it: ListItemView, s: Style, col: nat)
    requires
        !s.on,
    ensures
        it.valid && it.name is Some ==> item_lines(it, s, col) == padded_to(it.file, col)
            + it.name->0 + "\n"@ + brief_lines(it.steps, s, it.steps.len()),
        it.valid && it.name is None ==> item_lines(it, s, col) == padded_to(it.file, col) + "\n"@
            + brief_lines(it.steps, s, it.steps.len()),
        !it.valid && it.error is Some ==> item_lines(it, s, col) == padded_to(it.file, col) + " "@
            + it.error->0 + "\n"@,
        !it.valid && it.error is None ==> item_lines(it, s, col) == padded_to(it.file, col) + " "@
            + "解析失败"@ + "\n"@,
{
    if it.valid && it.name is None {
        assert(item_lines(it, s, col) =~= padded_to(it.file, col) + "\n"@ + brief_lines(
            it.steps,
            s,
            it.steps.len(),
        ));
    }
}

/// Without colours a list tells that there is no case, or every case and their number.
pub proof fn law_list_printed(l: Seq<ListItemView>, s: Style)
    requires
        !s.on,
    ensures
        l.len() == 0 ==> list_text(l, s) == "没有找到用例\n"@,
        l.len() > 0 ==> list_text(l, s) == items_lines(
            l,
            s,
            column_of(l.map_values(|it: ListItemView| it.file)),
            l.len(),
        ) + ("\n"@ + nat_text(l.len()) + " 个用例\n"@),
{
}

/// Without colours an issue is told with how bad it is, where it is if that is known, and what it
/// is; a file is told only if it has an issue, marked by whether it passed.
pub proof fn law_issue_printed(i: IssueView, r: CheckResultView, s: Style, col: nat)
    requires
        !s.on,
    ensures
        i.severity is Error && i.at.len() > 0 ==> issue_line(i, s) == "      "@ + "错误"@ + " "@ + (i.at
            + " "@) + i.message + "\n"@,
        i.severity is Warning && i.at.len() > 0 ==> issue_line(i, s) == "      "@ + "警告"@ + " "@ + (
        i.at + " "@) + i.message + "\n"@,
        i.severity is Error && i.at.len() == 0 ==> issue_line(i, s) == "      "@ + "错误"@ + " "@
            + i.message + "\n"@,
        i.severity is Warning && i.at.len() == 0 ==> issue_line(i, s) == "      "@ + "警告"@ + " "@
            + i.message + "\n"@,
        r.issues.len() == 0 ==> result_lines(r, s, col).len() == 0,
        r.issues.len() > 0 && r.ok ==> result_lines(r, s, col) == "  "@ + "!"@ + " "@ + padded_to(
            r.file,
            col,
        ) + "\n"@ + issue_lines(r.issues, s, r.issues.len()),
        r.issues.len() > 0 && !r.ok ==> result_lines(r, s, col) == "  "@ + "✕"@ + " "@ + padded_to(
            r.file,
            col,
        ) + "\n"@ + issue_lines(r.issues, s, r.issues.len()),
{
    if i.at.len() == 0 {
        let word = if i.severity is Error {
            "错误"@
        } else {
            "警告"@
        };
        assert(issue_line(i, s) =~= "      "@ + word + " "@ + i.message + "\n"@);
    }
}

/// A file counts among those with issues exactly if it has one.
pub proof fn law_one_more_checked(l: Seq<CheckResultView>, r: CheckResultView)
    ensures
        with_issues(seq![]) == 0,
        r.issues.len() == 0 ==> with_issues(l.push(r)) == with_issues(l),
        r.issues.len() > 0 ==> with_issues(l.push(r)) == with_issues(l) + 1,
{
    assert(l.push(r).drop_last() =~= l);
}

/// Without colours a check ends by telling how many cases there were, and how many of them had no
/// issue and how many errors and warnings were found wherever there was one.
pub proof fn law_check_printed(r: CheckReportView, s: Style)
    requires
        !s.on,
        with_issues(r.results) <= r.total,
    ensures
        checked_text(r, s) == results_lines(
            r.results,
            s,
            column_of(r.results.map_values(|c: CheckResultView| c.file)),
            r.results.len(),
        ) + "\n"@ + (nat_text(r.total as nat) + " 个用例"@) + (if r.total == with_issues(r.results) {
            Seq::<char>::empty()
        } else {
            "，"@ + nat_text((r.total - with_issues(r.results)) as nat) + " 无问题"@
        }) + (if r.errors == 0 {
            Seq::<char>::empty()
        } else {
            "，"@ + nat_text(r.errors as nat) + " 处错误"@
        }) + (if r.warnings == 0 {
            Seq::<char>::empty()
        } else {
            "，"@ + nat_text(r.warnings as nat) + " 处警告"@
        }) + "\n"@,
{
}

/// Without colours a run ends by telling the counts of its cases, those of its requests and of its
/// assertions if there were some, how long it took, where the report is if there is one, and that it
/// was cut short if it was.
pub proof fn law_summary_printed(r: RunReportView, path: Option<Seq<char>>, s: Style)
    requires
        !s.on,
    ensures
        summary_text(r, path, s) == "\n"@ + counts_text(
            "用例"@,
            r.summary.total,
            r.summary.passed,
            r.summary.failed,
            r.summary.error,
            r.summary.skipped,
            s,
        ) + (if r.summary.steps.total == 0 {
            Seq::<char>::empty()
        } else {
            counts_text(
                "请求"@,
                r.summary.steps.total,
                r.summary.steps.passed,
                r.summary.steps.failed,
                r.summary.steps.error,
                r.summary.steps.skipped,
                s,
            )
        }) + (if r.summary.assertions.total == 0 {
            Seq::<char>::empty()
        } else {
            counts_text(
                "断言"@,
                r.summary.assertions.total,
                r.summary.assertions.passed,
                r.summary.assertions.failed,
                0,
                0,
                s,
            )
        }) + (padded_to("耗时"@, 4) + " "@ + time_text(r.duration_ms as nat) + "\n"@) + (match path {
            Some(p) => padded_to("报告"@, 4) + " "@ + p + "\n"@,
            None => Seq::<char>::empty(),
        }) + (if r.status is Cancelled {
            "运行被中断，以上是已完成的部分\n"@
        } else {
            Seq::<char>::empty()
        }),
{
}

/// Without colours the counts of one kind are told in one line: their name, how many there are, and
/// how many of them went each way wherever there was one.
pub proof fn law_counts_printed(
    label: Seq<char>,
    total: u32,
    passed: u32,
    failed: u32,
    error: u32,
    skipped: u32,
    s: Style,
)
    requires
        !s.on,
    ensures
        counts_text(label, total, passed, failed, error, skipped, s) == padded_to(label, 4) + " "@
            + padded_to(nat_text(total as nat), 5) + count_text("通过"@, passed) + count_text(
            "失败"@,
            failed,
        ) + count_text("错误"@, error) + count_text("跳过"@, skipped) + "\n"@,
{
}

/// The lines of lists stand in the order of their items, those of each item behind those before it.
pub proof fn law_lines_in_order(
    briefs: Seq<StepBriefView>,
    items: Seq<ListItemView>,
    issues: Seq<IssueView>,
    results: Seq<CheckResultView>,
    s: Style,
    col: nat,
    n: nat,
)
    ensures
        n < briefs.len() ==> brief_lines(briefs, s, n + 1) == brief_lines(briefs, s, n)
            + brief_line(briefs[n as int], s),
        n < items.len() ==> items_lines(items, s, col, n + 1) == items_lines(items, s, col, n)
            + item_lines(items[n as int], s, col),
        n < issues.len() ==> issue_lines(issues, s, n + 1) == issue_lines(issues, s, n)
            + issue_line(issues[n as int], s),
        n < results.len() ==> results_lines(results, s, col, n + 1) == results_lines(
            results,
            s,
            col,
            n,
        ) + result_lines(results[n as int], s, col),
        brief_lines(briefs, s, 0).len() == 0,
        items_lines(items, s, col, 0).len() == 0,
        issue_lines(issues, s, 0).len() == 0,
        results_lines(results, s, col, 0).len() == 0,
{
}

} // verus!
