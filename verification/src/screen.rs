//! What the commands that look at a workspace print for people.
use crate::console::{case_line, case_text, column_of, name_column, run_summary, summary_text};
use crate::cookie::{CookieItem, CookieItemView};
use crate::docs::{topic_table, topics, Topic, TopicView};
use crate::report::{
    CaseResult, CaseResultView, EnvironmentInfo, EnvironmentInfoView, RunReport, RunReportView,
};
use crate::style::{dim_text, pad, padded_to, pass_text, Style};
use crate::table::Entry;
use crate::text::{cat, cat3, copy_text, join, joined, nat_text, opt_text, same, usize_text, views};
use crate::workspace::{relative, Workspace};
use vstd::prelude::*;

verus! {

// ---- environments ----------------------------------------------------------------------

/// The line of an environment; the one that is used unless another is named is marked.
pub open spec fn env_line_text(v: Seq<char>, first: Seq<char>, s: Style) -> Seq<char> {
    v + (if v == first {
        pass_text(s, " (默认)"@)
    } else {
        seq![]
    })
}

fn env_line(v: &String, first: &str, s: Style) -> (r: String)
    ensures
        r@ == env_line_text(v@, first@, s),
{
    let mut r: String = copy_text(v.as_str());
    if same(v.as_str(), first) {
        r.push_str(s.pass(" (默认)").as_str());
    }
    assert(r@ =~= env_line_text(v@, first@, s));
    r
}

fn env_lines(l: &Vec<String>, first: &str, s: Style) -> (r: Vec<String>)
    ensures
        views(r@) == views(l@).map_values(|v: Seq<char>| env_line_text(v, first@, s)),
{
    let mut out: Vec<String> = Vec::new();
    let mut i: usize = 0;
    while i < l.len()
        invariant
            i <= l@.len(),
            out@.len() == i,
            forall|k: int| 0 <= k < i ==> (#[trigger] out@[k])@ == env_line_text(l@[k]@, first@, s),
        decreases l@.len() - i,
    {
        out.push(env_line(&l[i], first, s));
        i = i + 1;
    }
    assert(views(out@) =~= views(l@).map_values(|v: Seq<char>| env_line_text(v, first@, s)));
    out
}

/// The environments of a workspace.
pub open spec fn environments_text(names: Seq<Seq<char>>, first: Seq<char>, s: Style) -> Seq<char> {
    if names.len() == 0 {
        dim_text(s, "没有配置任何环境（application.yml 的 environment 键）"@) + "\n"@
    } else {
        join(names.map_values(|v: Seq<char>| env_line_text(v, first, s)), "\n"@) + "\n"@
    }
}

/// The environments of a workspace.
pub fn environments(names: &Vec<String>, first: &str, s: Style) -> (r: String)
    ensures
        r@ == environments_text(views(names@), first@, s),
{
    if names.len() == 0 {
        return cat(s.dim("没有配置任何环境（application.yml 的 environment 键）").as_str(), "\n");
    }
    let l: Vec<String> = env_lines(names, first, s);
    cat(joined(&l, "\n").as_str(), "\n")
}

/// The line of a variable.
pub open spec fn var_line_text(v: (Seq<char>, Seq<char>)) -> Seq<char> {
    "  "@ + padded_to(v.0, 20) + " "@ + v.1
}

fn var_line(v: &Entry<String>) -> (r: String)
    ensures
        r@ == var_line_text(v@),
{
    let mut r: String = cat3("  ", pad(v.key.as_str(), 20).as_str(), " ");
    r.push_str(v.value.as_str());
    r
}

fn var_lines(l: &Vec<Entry<String>>) -> (r: Vec<String>)
    ensures
        views(r@) == views(l@).map_values(|v: (Seq<char>, Seq<char>)| var_line_text(v)),
{
    let mut out: Vec<String> = Vec::new();
    let mut i: usize = 0;
    while i < l.len()
        invariant
            i <= l@.len(),
            out@.len() == i,
            forall|k: int| 0 <= k < i ==> (#[trigger] out@[k])@ == var_line_text(l@[k]@),
        decreases l@.len() - i,
    {
        out.push(var_line(&l[i]));
        i = i + 1;
    }
    assert(views(out@) =~= views(l@).map_values(|v: (Seq<char>, Seq<char>)| var_line_text(v)));
    out
}

/// An environment and its variables.
pub open spec fn environment_text(e: EnvironmentInfoView, s: Style) -> Seq<char> {
    dim_text(s, "环境"@) + " "@ + e.name + "\n"@ + (if e.vars.len() == 0 {
        seq![]
    } else {
        join(e.vars.map_values(|v: (Seq<char>, Seq<char>)| var_line_text(v)), "\n"@) + "\n"@
    })
}

/// An environment and its variables.
pub fn environment(e: &EnvironmentInfo, s: Style) -> (r: String)
    ensures
        r@ == environment_text(e@, s),
{
    let mut r: String = cat3(s.dim("环境").as_str(), " ", e.name.as_str());
    r.push_str("\n");
    let ghost head = r@;
    if e.vars.entries.len() > 0 {
        let l: Vec<String> = var_lines(&e.vars.entries);
        let t: String = cat(joined(&l, "\n").as_str(), "\n");
        r.push_str(t.as_str());
    } else {
        assert(head + seq![] =~= head);
    }
    r
}

// ---- cookies ---------------------------------------------------------------------------

/// The line of a cookie.
pub open spec fn cookie_line_text(v: CookieItemView) -> Seq<char> {
    padded_to(v.domain, 28) + " "@ + padded_to(v.path, 10) + " "@ + padded_to(v.name, 20) + " "@
        + v.value
}

fn cookie_line(v: &CookieItem) -> (r: String)
    ensures
        r@ == cookie_line_text(v@),
{
    let mut r: String = cat3(pad(v.domain.as_str(), 28).as_str(), " ", pad(v.path.as_str(), 10).as_str());
    r.push_str(" ");
    r.push_str(pad(v.name.as_str(), 20).as_str());
    r.push_str(" ");
    r.push_str(v.value.as_str());
    r
}

fn cookie_lines(l: &Vec<CookieItem>) -> (r: Vec<String>)
    ensures
        views(r@) == views(l@).map_values(|v: CookieItemView| cookie_line_text(v)),
{
    let mut out: Vec<String> = Vec::new();
    let mut i: usize = 0;
    while i < l.len()
        invariant
            i <= l@.len(),
            out@.len() == i,
            forall|k: int| 0 <= k < i ==> (#[trigger] out@[k])@ == cookie_line_text(l@[k]@),
        decreases l@.len() - i,
    {
        out.push(cookie_line(&l[i]));
        i = i + 1;
    }
    assert(views(out@) =~= views(l@).map_values(|v: CookieItemView| cookie_line_text(v)));
    out
}

/// Cookies, and how many they are.
pub open spec fn cookies_text(l: Seq<CookieItemView>, s: Style) -> Seq<char> {
    if l.len() == 0 {
        dim_text(s, "jar 里没有 cookie"@) + "\n"@
    } else {
        join(l.map_values(|v: CookieItemView| cookie_line_text(v)), "\n"@) + "\n"@ + dim_text(
            s,
            "\n"@ + nat_text(l.len()) + " 条"@,
        ) + "\n"@
    }
}

/// Cookies, and how many they are.
pub fn cookies(l: &Vec<CookieItem>, s: Style) -> (r: String)
    ensures
        r@ == cookies_text(views(l@), s),
{
    if l.len() == 0 {
        return cat(s.dim("jar 里没有 cookie").as_str(), "\n");
    }
    let lines: Vec<String> = cookie_lines(l);
    let mut r: String = cat(joined(&lines, "\n").as_str(), "\n");
    let n: String = cat3("\n", usize_text(l.len()).as_str(), " 条");
    r.push_str(s.dim(n.as_str()).as_str());
    r.push_str("\n");
    r
}

/// What is said after a cookie was removed, or why it was not.
pub fn cookie_removed(removed: bool, domain: &str, path: &str, name: &str) -> (r: Result<String, String>)
    ensures
        r is Ok <==> removed,
        r matches Ok(t) ==> t@ == "已删除 "@ + (domain@ + " "@ + path@ + " "@ + name@) + "\n"@,
        r matches Err(e) ==> e@ == "jar 里没有 "@ + (domain@ + " "@ + path@ + " "@ + name@),
{
    let mut which: String = cat3(domain, " ", path);
    which.push_str(" ");
    which.push_str(name);
    if removed {
        Ok(cat3("已删除 ", which.as_str(), "\n"))
    } else {
        Err(cat("jar 里没有 ", which.as_str()))
    }
}

/// What is said after cookies were removed.
pub fn cookies_cleared(n: usize, domain: Option<&str>) -> (r: String)
    ensures
        r@ == "已清空 "@ + nat_text(n as nat) + " 条"@ + (match opt_text(domain) {
            Some(d) => "（"@ + d + "）"@,
            None => seq![],
        }) + "\n"@,
{
    let mut r: String = cat3("已清空 ", usize_text(n).as_str(), " 条");
    let ghost head = r@;
    if let Some(d) = domain {
        r.push_str(cat3("（", d, "）").as_str());
    } else {
        assert(head + seq![] =~= head);
    }
    r.push_str("\n");
    r
}

// ---- reports ---------------------------------------------------------------------------

/// The line of a report: its path from the root of the workspace.
pub open spec fn report_line_text(v: Seq<char>, root: Seq<char>) -> Seq<char> {
    relative(root, v)
}

fn report_line(v: &String, ws: &Workspace) -> (r: String)
    ensures
        r@ == report_line_text(v@, ws@.root),
{
    ws.rel(v.as_str())
}

fn report_lines(l: &Vec<String>, ws: &Workspace) -> (r: Vec<String>)
    ensures
        views(r@) == views(l@).map_values(|v: Seq<char>| report_line_text(v, ws@.root)),
{
    let mut out: Vec<String> = Vec::new();
    let mut i: usize = 0;
    while i < l.len()
        invariant
            i <= l@.len(),
            out@.len() == i,
            forall|k: int| 0 <= k < i ==> (#[trigger] out@[k])@ == report_line_text(l@[k]@, ws@.root),
        decreases l@.len() - i,
    {
        out.push(report_line(&l[i], ws));
        i = i + 1;
    }
    assert(views(out@) =~= views(l@).map_values(|v: Seq<char>| report_line_text(v, ws@.root)));
    out
}

/// The reports of a workspace.
pub open spec fn reports_text(root: Seq<char>, files: Seq<Seq<char>>, s: Style) -> Seq<char> {
    if files.len() == 0 {
        dim_text(s, "还没有报告（跑一次 apicase run 就有了）"@) + "\n"@
    } else {
        join(files.map_values(|v: Seq<char>| report_line_text(v, root)), "\n"@) + "\n"@
    }
}

/// The reports of a workspace.
pub fn reports(ws: &Workspace, files: &Vec<String>, s: Style) -> (r: String)
    ensures
        r@ == reports_text(ws@.root, views(files@), s),
{
    if files.len() == 0 {
        return cat(s.dim("还没有报告（跑一次 apicase run 就有了）").as_str(), "\n");
    }
    let l: Vec<String> = report_lines(files, ws);
    cat(joined(&l, "\n").as_str(), "\n")
}

/// The names of the files of a report.
pub open spec fn files_of(l: Seq<CaseResultView>) -> Seq<Seq<char>> {
    l.map_values(|c: CaseResultView| c.file)
}

/// A report: the lines of its cases, in columns, and its summary.
pub open spec fn report_text(r: RunReportView, path: Option<Seq<char>>, s: Style) -> Seq<char> {
    all_lines(r.cases, s, column_of(files_of(r.cases)), r.cases.len()) + summary_text(r, path, s)
}

/// The lines of the first `n` cases.
pub open spec fn all_lines(l: Seq<CaseResultView>, s: Style, col: nat, n: nat) -> Seq<char>
    decreases n,
{
    if n == 0 || n > l.len() {
        seq![]
    } else {
        all_lines(l, s, col, (n - 1) as nat) + case_text(l[n - 1], s, col)
    }
}

fn file_names(l: &Vec<CaseResult>) -> (r: Vec<String>)
    ensures
        views(r@) == files_of(views(l@)),
{
    let mut out: Vec<String> = Vec::new();
    let mut i: usize = 0;
    while i < l.len()
        invariant
            i <= l@.len(),
            out@.len() == i,
            forall|k: int| 0 <= k < i ==> (#[trigger] out@[k])@ == l@[k]@.file,
        decreases l@.len() - i,
    {
        out.push(copy_text(l[i].file.as_str()));
        i = i + 1;
    }
    assert(views(out@) =~= files_of(views(l@)));
    out
}

/// A report: the lines of its cases, in columns, and its summary.
pub fn report(r: &RunReport, path: Option<&str>, s: Style) -> (t: String)
    ensures
        t@ == report_text(r@, opt_text(path), s),
{
    let names: Vec<String> = file_names(&r.cases);
    let col: usize = name_column(&names);
    let ghost l = views(r.cases@);
    let mut out: String = String::new();
    let mut i: usize = 0;
    assert(out@ =~= all_lines(l, s, col as nat, 0));
    while i < r.cases.len()
        invariant
            i <= r.cases@.len(),
            l == views(r.cases@),
            out@ == all_lines(l, s, col as nat, i as nat),
        decreases r.cases@.len() - i,
    {
        assert(l[i as int] == r.cases@[i as int]@);
        out.push_str(case_line(&r.cases[i], s, col).as_str());
        i = i + 1;
    }
    out.push_str(run_summary(r, path, s).as_str());
    out
}

// ---- the description -------------------------------------------------------------------

/// The line of a topic.
pub open spec fn topic_line_text(v: TopicView, s: Style) -> Seq<char> {
    padded_to(v.name, 12) + " "@ + dim_text(s, v.about)
}

fn topic_line(v: &Topic, s: Style) -> (r: String)
    ensures
        r@ == topic_line_text(v@, s),
{
    cat3(pad(v.name.as_str(), 12).as_str(), " ", s.dim(v.about.as_str()).as_str())
}

fn topic_lines(l: &Vec<Topic>, s: Style) -> (r: Vec<String>)
    ensures
        views(r@) == views(l@).map_values(|v: TopicView| topic_line_text(v, s)),
{
    let mut out: Vec<String> = Vec::new();
    let mut i: usize = 0;
    while i < l.len()
        invariant
            i <= l@.len(),
            out@.len() == i,
            forall|k: int| 0 <= k < i ==> (#[trigger] out@[k])@ == topic_line_text(l@[k]@, s),
        decreases l@.len() - i,
    {
        out.push(topic_line(&l[i], s));
        i = i + 1;
    }
    assert(views(out@) =~= views(l@).map_values(|v: TopicView| topic_line_text(v, s)));
    out
}

/// The topics of the description.
pub fn all_topics(s: Style) -> (r: String)
    ensures
        r@ == join(topic_table().map_values(|v: TopicView| topic_line_text(v, s)), "\n"@) + "\n"@,
{
    let l: Vec<String> = topic_lines(&topics(), s);
    cat(joined(&l, "\n").as_str(), "\n")
}

/// What is said of a workspace that was made.
pub fn workspace_made(root: &str, s: Style) -> (r: String)
    ensures
        r@ == "已初始化工作空间："@ + root@ + "\n"@ + dim_text(
            s,
            "下一步：apicase new 用例名 && apicase run"@,
        ) + "\n"@,
{
    let mut r: String = cat3("已初始化工作空间：", root, "\n");
    r.push_str(s.dim("下一步：apicase new 用例名 && apicase run").as_str());
    r.push_str("\n");
    r
}

/// Every environment has a line of its own, in order, and the one that is used is marked; every
/// cookie has one, with all that is told of it; and every report has one.
pub proof fn law_lines_of_lists(
    names: Seq<Seq<char>>,
    name: Seq<char>,
    first: Seq<char>,
    c: CookieItemView,
    s: Style,
)
    requires
        !s.on,
    ensures
        name == first ==> environments_text(seq![name], first, s) == name + " (默认)"@ + "\n"@,
        name != first ==> environments_text(seq![name], first, s) == name + "\n"@,
        names.len() > 0 && name != first ==> environments_text(names.push(name), first, s)
            == environments_text(names, first, s) + name + "\n"@,
        cookie_line_text(c) == padded_to(c.domain, 28) + " "@ + padded_to(c.path, 10) + " "@
            + padded_to(c.name, 20) + " "@ + c.value,
{
    let f = |v: Seq<char>| env_line_text(v, first, s);
    let line = env_line_text(name, first, s);
    let none = Seq::<char>::empty();
    assert(seq![name].map_values(f) =~= seq![line]);
    assert(join(seq![line], "\n"@) == line);
    if name != first {
        assert(line =~= name);
    }
    if names.len() > 0 {
        let ls = names.map_values(f);
        assert(names.push(name).map_values(f) =~= ls.push(line));
        assert(ls.push(line).drop_last() =~= ls);
        if name != first {
            assert(environments_text(names.push(name), first, s) =~= environments_text(
                names,
                first,
                s,
            ) + name + "\n"@);
        }
    }
}

/// Without colours an environment is told with its name, and below it each of its variables with
/// its value.
pub proof fn law_environment_printed(e: EnvironmentInfoView, v: (Seq<char>, Seq<char>), s: Style)
    requires
        !s.on,
    ensures
        e.vars.len() == 0 ==> environment_text(e, s) == "环境"@ + " "@ + e.name + "\n"@,
        e.vars == seq![v] ==> environment_text(e, s) == "环境"@ + " "@ + e.name + "\n"@ + ("  "@
            + padded_to(v.0, 20) + " "@ + v.1 + "\n"@),
        e.vars.len() > 0 ==> environment_text(
            (EnvironmentInfoView { name: e.name, vars: e.vars.push(v) }),
            s,
        ) == environment_text(e, s) + ("  "@ + padded_to(v.0, 20) + " "@ + v.1 + "\n"@),
{
    let f = |w: (Seq<char>, Seq<char>)| var_line_text(w);
    let head = "环境"@ + " "@ + e.name + "\n"@;
    if e.vars.len() == 0 {
        assert(environment_text(e, s) =~= head);
    }
    if e.vars == seq![v] {
        let l = e.vars.map_values(f);
        assert(l =~= seq![f(v)]);
        assert(join(l, "\n"@) == f(v)) by {
            reveal_with_fuel(join, 2);
        }
        assert(environment_text(e, s) =~= head + (f(v) + "\n"@));
    }
    if e.vars.len() > 0 {
        let l = e.vars.map_values(f);
        let m = e.vars.push(v).map_values(f);
        assert(m =~= l.push(f(v)));
        assert(m.drop_last() =~= l && m.last() == f(v));
        let more = EnvironmentInfoView { name: e.name, vars: e.vars.push(v) };
        assert(environment_text(more, s) =~= environment_text(e, s) + (f(v) + "\n"@));
    }
}

/// Without colours cookies are told one to a line with their number at the end, or that there is
/// none; and reports one to a line by where they are below the workspace, or that there is none.
pub proof fn law_listings_printed(
    l: Seq<CookieItemView>,
    root: Seq<char>,
    files: Seq<Seq<char>>,
    s: Style,
)
    requires
        !s.on,
    ensures
        l.len() == 0 ==> cookies_text(l, s) == "jar 里没有 cookie"@ + "\n"@,
        l.len() > 0 ==> cookies_text(l, s) == join(
            Seq::new(l.len(), |i: int| cookie_line_text(l[i])),
            "\n"@,
        ) + "\n"@ + ("\n"@ + nat_text(l.len()) + " 条"@) + "\n"@,
        files.len() == 0 ==> reports_text(root, files, s) == "还没有报告（跑一次 apicase run 就有了）"@
            + "\n"@,
        files.len() > 0 ==> reports_text(root, files, s) == join(
            Seq::new(files.len(), |i: int| relative(root, files[i])),
            "\n"@,
        ) + "\n"@,
{
    assert(l.map_values(|v: CookieItemView| cookie_line_text(v)) =~= Seq::new(
        l.len(),
        |i: int| cookie_line_text(l[i]),
    ));
    assert(files.map_values(|v: Seq<char>| report_line_text(v, root)) =~= Seq::new(
        files.len(),
        |i: int| relative(root, files[i]),
    ));
}

/// A report is told case by case in order, and then its counts.
pub proof fn law_report_printed(r: RunReportView, path: Option<Seq<char>>, s: Style, col: nat, n: nat)
    ensures
        all_lines(r.cases, s, col, 0).len() == 0,
        n < r.cases.len() ==> all_lines(r.cases, s, col, n + 1) == all_lines(r.cases, s, col, n)
            + case_text(r.cases[n as int], s, col),
        report_text(r, path, s) == all_lines(
            r.cases,
            s,
            column_of(Seq::new(r.cases.len(), |i: int| r.cases[i].file)),
            r.cases.len(),
        ) + summary_text(r, path, s),
{
    assert(files_of(r.cases) =~= Seq::new(r.cases.len(), |i: int| r.cases[i].file));
}

} // verus!
