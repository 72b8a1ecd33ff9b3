//! Parts of the description of the file format, by topic.
//!
//! A question needs a section, not the whole description. Sections are found by their headings.
use crate::text::{
    blank, cat3, chars_of, copy_text, empty, is_blank, join, joined, lemma_views_push, lower,
    opt_text, pieces, same, same_ignoring_case, split, sub_text, trim, trimmed, views,
};
use vstd::prelude::*;

verus! {

/// A topic: its name, what it is about, and the headings of its sections. A topic without
/// headings is the whole description.
#[derive(Debug, Clone)]
pub struct Topic {
    pub name: String,
    pub about: String,
    pub headings: Vec<String>,
}

/// What a `Topic` stands for.
#[verifier::ext_equal]
pub struct TopicView {
    pub name: Seq<char>,
    pub about: Seq<char>,
    pub headings: Seq<Seq<char>>,
}

impl View for Topic {
    type V = TopicView;

    open spec fn view(&self) -> TopicView {
        TopicView { name: self.name@, about: self.about@, headings: views(self.headings@) }
    }
}

/// The headings of how a case is built.
pub open spec fn case_headings() -> Seq<Seq<char>> {
    seq!["总览"@, "顶层字段"@, "step（请求节点）"@, "request（http 报文）"@]
}

/// The topics.
pub open spec fn topic_table() -> Seq<TopicView> {
    seq![
        TopicView {
            name: "case"@,
            about: "用例的整体结构：顶层字段与 step（默认）"@,
            headings: case_headings(),
        },
        TopicView {
            name: "assertions"@,
            about: "断言与输出提取的写法"@,
            headings: seq!["outputs（输出提取）"@, "assertions（断言）"@],
        },
        TopicView {
            name: "auth"@,
            about: "六种认证方式的配置"@,
            headings: seq!["auth（认证）"@],
        },
        TopicView {
            name: "body"@,
            about: "请求体的七种类型"@,
            headings: seq!["body（请求体）"@],
        },
        TopicView {
            name: "vars"@,
            about: "变量语法与优先级"@,
            headings: seq!["变量与透传"@],
        },
        TopicView {
            name: "settings"@,
            about: "application.yml：多套环境与工作空间设置"@,
            headings: seq!["application.yml（工作空间配置）"@],
        },
        TopicView {
            name: "cookies"@,
            about: ".apicase/cookies.yml：cookie 会话文件的格式（直接编辑它，没有对应的命令）"@,
            headings: seq!["cookies.yml（cookie 会话）"@],
        },
        TopicView { name: "all"@, about: "规范全文"@, headings: seq![] },
    ]
}

fn topic_of(name: &str, about: &str, headings: Vec<String>) -> (r: Topic)
    ensures
        r@ == (TopicView { name: name@, about: about@, headings: views(headings@) }),
{
    Topic { name: copy_text(name), about: copy_text(about), headings }
}

fn one_heading(h: &str) -> (r: Vec<String>)
    ensures
        views(r@) == seq![h@],
{
    let mut v: Vec<String> = Vec::new();
    v.push(copy_text(h));
    assert(views(v@) =~= seq![h@]);
    v
}

fn headings_of_case() -> (r: Vec<String>)
    ensures
        views(r@) == case_headings(),
{
    let mut v: Vec<String> = Vec::new();
    v.push(copy_text("总览"));
    v.push(copy_text("顶层字段"));
    v.push(copy_text("step（请求节点）"));
    v.push(copy_text("request（http 报文）"));
    assert(views(v@) =~= case_headings());
    v
}

/// The topics.
pub fn topics() -> (r: Vec<Topic>)
    ensures
        views(r@) == topic_table(),
{
    let mut both: Vec<String> = Vec::new();
    both.push(copy_text("outputs（输出提取）"));
    both.push(copy_text("assertions（断言）"));
    assert(views(both@) =~= seq!["outputs（输出提取）"@, "assertions（断言）"@]);
    let none: Vec<String> = Vec::new();
    assert(views(none@) =~= seq![]);
    let mut v: Vec<Topic> = Vec::new();
    v.push(topic_of("case", "用例的整体结构：顶层字段与 step（默认）", headings_of_case()));
    v.push(topic_of("assertions", "断言与输出提取的写法", both));
    v.push(topic_of("auth", "六种认证方式的配置", one_heading("auth（认证）")));
    v.push(topic_of("body", "请求体的七种类型", one_heading("body（请求体）")));
    v.push(topic_of("vars", "变量语法与优先级", one_heading("变量与透传")));
    v.push(
        topic_of(
            "settings",
            "application.yml：多套环境与工作空间设置",
            one_heading("application.yml（工作空间配置）"),
        ),
    );
    v.push(
        topic_of(
            "cookies",
            ".apicase/cookies.yml：cookie 会话文件的格式（直接编辑它，没有对应的命令）",
            one_heading("cookies.yml（cookie 会话）"),
        ),
    );
    v.push(topic_of("all", "规范全文", none));
    assert(views(v@) =~= topic_table());
    v
}

// ---- lines -----------------------------------------------------------------------------

/// A line without the carriage return at its end.
pub open spec fn no_return(l: Seq<char>) -> Seq<char> {
    if l.len() > 0 && l.last() == '\r' {
        l.drop_last()
    } else {
        l
    }
}

/// The lines of a text. The last one need not be ended.
pub open spec fn lines_of(s: Seq<char>) -> Seq<Seq<char>> {
    let parts = split(s, '\n');
    let ended = parts.drop_last().map_values(|l: Seq<char>| no_return(l));
    if parts.last().len() == 0 {
        ended
    } else {
        ended.push(parts.last())
    }
}

/// The lines of a text.
pub fn lines(s: &str) -> (r: Vec<String>)
    ensures
        views(r@) == lines_of(s@),
{
    let parts: Vec<String> = pieces(s, '\n');
    let ghost w = split(s@, '\n');
    assert(w.len() > 0);
    let ghost ended = w.drop_last().map_values(|l: Seq<char>| no_return(l));
    let n: usize = parts.len();
    let mut out: Vec<String> = Vec::new();
    let mut i: usize = 0;
    while i + 1 < n
        invariant
            n == parts@.len(),
            n == w.len(),
            n > 0,
            w == views(parts@),
            i + 1 <= n,
            ended == w.drop_last().map_values(|l: Seq<char>| no_return(l)),
            out@.len() == i,
            forall|k: int| 0 <= k < i ==> (#[trigger] out@[k])@ == ended[k],
        decreases n - i,
    {
        let cs: Vec<char> = chars_of(parts[i].as_str());
        assert(w[i as int] == cs@);
        let m: usize = cs.len();
        if m > 0 && cs[m - 1] == '\r' {
            let l: String = sub_text(cs.as_slice(), 0, m - 1);
            assert(l@ =~= cs@.drop_last());
            out.push(l);
        } else {
            out.push(copy_text(parts[i].as_str()));
        }
        i = i + 1;
    }
    assert(views(out@) =~= ended);
    assert(w.last() == parts@[n - 1]@);
    if !empty(parts[n - 1].as_str()) {
        let l: String = copy_text(parts[n - 1].as_str());
        proof {
            lemma_views_push(out@, l);
        }
        out.push(l);
    }
    out
}

// ---- headings --------------------------------------------------------------------------

/// How many `#` a line begins with.
pub open spec fn hashes(l: Seq<char>) -> nat
    decreases l.len(),
{
    if l.len() > 0 && l[0] == '#' {
        1 + hashes(l.drop_first())
    } else {
        0
    }
}

/// The level of a heading: `#` and a blank.
pub open spec fn level_of(l: Seq<char>) -> Option<nat> {
    let n = hashes(l);
    if n > 0 && n < l.len() && l[n as int] == ' ' {
        Some(n)
    } else {
        None
    }
}

/// Whether a line is a heading with a text.
pub open spec fn is_heading(l: Seq<char>, want: Seq<char>) -> bool {
    match level_of(l) {
        Some(n) => trim(l.skip(n as int)) == want,
        None => false,
    }
}

proof fn lemma_hashes(l: Seq<char>)
    ensures
        hashes(l) <= l.len(),
    decreases l.len(),
{
    if l.len() > 0 && l[0] == '#' {
        lemma_hashes(l.drop_first());
    }
}

fn count_hashes(cs: &[char]) -> (r: usize)
    ensures
        r == hashes(cs@),
        r <= cs@.len(),
{
    let mut n: usize = 0;
    assert(cs@.skip(0) =~= cs@);
    proof {
        lemma_hashes(cs@);
    }
    while n < cs.len() && cs[n] == '#'
        invariant
            n <= cs@.len(),
            n + hashes(cs@.skip(n as int)) == hashes(cs@),
        decreases cs@.len() - n,
    {
        assert(cs@.skip(n as int).drop_first() =~= cs@.skip(n + 1));
        n = n + 1;
    }
    n
}

/// The level of a heading.
pub fn heading_level(line: &str) -> (r: Option<usize>)
    ensures
        match r {
            Some(n) => level_of(line@) == Some(n as nat),
            None => level_of(line@) is None,
        },
{
    let cs: Vec<char> = chars_of(line);
    let n: usize = count_hashes(cs.as_slice());
    if n > 0 && n < cs.len() && cs[n] == ' ' {
        Some(n)
    } else {
        None
    }
}

/// Whether a line is a heading with a text.
pub fn heading_matches(line: &str, want: &str) -> (r: bool)
    ensures
        r == is_heading(line@, want@),
{
    match heading_level(line) {
        Some(n) => {
            let cs: Vec<char> = chars_of(line);
            let rest: String = sub_text(cs.as_slice(), n, cs.len());
            assert(rest@ =~= line@.skip(n as int));
            same(trimmed(rest.as_str()).as_str(), want)
        },
        None => false,
    }
}

// ---- sections --------------------------------------------------------------------------

/// The first line from `i` on that is a heading with a text.
pub open spec fn heading_at(ls: Seq<Seq<char>>, want: Seq<char>, i: int) -> Option<int>
    decreases ls.len() - i,
{
    if i < 0 || i >= ls.len() {
        None
    } else if is_heading(ls[i], want) {
        Some(i)
    } else {
        heading_at(ls, want, i + 1)
    }
}

/// Whether a line begins a section of a level or of one above it.
pub open spec fn ends_section(l: Seq<char>, level: nat) -> bool {
    match level_of(l) {
        Some(n) => n <= level,
        None => false,
    }
}

/// The first line from `i` on that ends a section of a level.
pub open spec fn section_end(ls: Seq<Seq<char>>, level: nat, i: int) -> int
    decreases ls.len() - i,
{
    if i < 0 || i >= ls.len() {
        ls.len() as int
    } else if ends_section(ls[i], level) {
        i
    } else {
        section_end(ls, level, i + 1)
    }
}

/// A section: from its heading to the next heading of its level or of one above it, so that it
/// brings its own subsections along.
pub open spec fn section_of(ls: Seq<Seq<char>>, want: Seq<char>) -> Option<Seq<Seq<char>>> {
    match heading_at(ls, want, 0) {
        Some(a) => Some(ls.subrange(a, section_end(ls, level_of(ls[a])->0, a + 1))),
        None => None,
    }
}

/// The first `n` sections, with an empty line between them.
pub open spec fn sections_text(ls: Seq<Seq<char>>, wants: Seq<Seq<char>>, n: nat) -> Seq<char>
    decreases n,
{
    if n == 0 || n > wants.len() {
        seq![]
    } else {
        let before = sections_text(ls, wants, (n - 1) as nat);
        match section_of(ls, wants[n - 1]) {
            Some(part) => (if before.len() == 0 {
                before
            } else {
                before + "\n"@
            }) + join(part, "\n"@) + "\n"@,
            None => before,
        }
    }
}

/// Sections of a description. Where none is found the whole of it is given.
pub open spec fn sections_of(doc: Seq<char>, wants: Seq<Seq<char>>) -> Seq<char> {
    let t = sections_text(lines_of(doc), wants, wants.len());
    if t.len() == 0 {
        doc
    } else {
        t
    }
}

proof fn lemma_heading_at(ls: Seq<Seq<char>>, want: Seq<char>, i: int)
    requires
        0 <= i,
    ensures
        match heading_at(ls, want, i) {
            Some(a) => i <= a < ls.len() && is_heading(ls[a], want) && level_of(ls[a]) is Some,
            None => true,
        },
    decreases ls.len() - i,
{
    if i < ls.len() && !is_heading(ls[i], want) {
        lemma_heading_at(ls, want, i + 1);
    }
}

proof fn lemma_section_end(ls: Seq<Seq<char>>, level: nat, i: int)
    requires
        0 <= i <= ls.len(),
    ensures
        i <= section_end(ls, level, i) <= ls.len(),
        forall|k: int| i <= k < section_end(ls, level, i) ==> !ends_section(#[trigger] ls[k], level),
        section_end(ls, level, i) < ls.len() ==> ends_section(
            ls[section_end(ls, level, i)],
            level,
        ),
    decreases ls.len() - i,
{
    if i < ls.len() && !ends_section(ls[i], level) {
        lemma_section_end(ls, level, i + 1);
    }
}

fn find_heading(ls: &Vec<String>, want: &str) -> (r: Option<usize>)
    ensures
        match r {
            Some(a) => heading_at(views(ls@), want@, 0) == Some(a as int) && a < ls@.len(),
            None => heading_at(views(ls@), want@, 0) is None,
        },
{
    let ghost w = views(ls@);
    let mut i: usize = 0;
    while i < ls.len()
        invariant
            i <= ls@.len(),
            w == views(ls@),
            heading_at(w, want@, 0) == heading_at(w, want@, i as int),
        decreases ls@.len() - i,
    {
        assert(w[i as int] == ls@[i as int]@);
        if heading_matches(ls[i].as_str(), want) {
            return Some(i);
        }
        i = i + 1;
    }
    None
}

fn find_end(ls: &Vec<String>, level: usize, from: usize) -> (r: usize)
    requires
        from <= ls@.len(),
    ensures
        r == section_end(views(ls@), level as nat, from as int),
        from <= r <= ls@.len(),
{
    let ghost w = views(ls@);
    let mut i: usize = from;
    while i < ls.len()
        invariant
            from <= i <= ls@.len(),
            w == views(ls@),
            section_end(w, level as nat, from as int) == section_end(w, level as nat, i as int),
        decreases ls@.len() - i,
    {
        assert(w[i as int] == ls@[i as int]@);
        if let Some(n) = heading_level(ls[i].as_str()) {
            if n <= level {
                return i;
            }
        }
        i = i + 1;
    }
    i
}

fn section(ls: &Vec<String>, want: &str) -> (r: Option<String>)
    ensures
        match section_of(views(ls@), want@) {
            Some(part) => r is Some && r->0@ == join(part, "\n"@),
            None => r is None,
        },
{
    let ghost w = views(ls@);
    let n: usize = ls.len();
    match find_heading(ls, want) {
        Some(a) => {
            proof {
                lemma_heading_at(w, want@, 0);
                assert(w[a as int] == ls@[a as int]@);
            }
            let level: usize = match heading_level(ls[a].as_str()) {
                Some(n) => n,
                None => 0,
            };
            assert(a < n);
            let b: usize = find_end(ls, level, a + 1);
            let mut part: Vec<String> = Vec::new();
            let mut i: usize = a;
            while i < b
                invariant
                    a <= i <= b,
                    b <= ls@.len(),
                    w == views(ls@),
                    part@.len() == i - a,
                    forall|k: int| 0 <= k < i - a ==> (#[trigger] part@[k])@ == w[a + k],
                decreases b - i,
            {
                part.push(copy_text(ls[i].as_str()));
                i = i + 1;
            }
            assert(views(part@) =~= w.subrange(a as int, b as int));
            Some(joined(&part, "\n"))
        },
        None => None,
    }
}

/// Sections of a description.
pub fn sections(doc: &str, headings: &Vec<String>) -> (r: String)
    ensures
        r@ == sections_of(doc@, views(headings@)),
{
    let ls: Vec<String> = lines(doc);
    let ghost w = views(headings@);
    let mut out: String = String::new();
    let mut i: usize = 0;
    assert(out@ =~= sections_text(views(ls@), w, 0));
    while i < headings.len()
        invariant
            i <= headings@.len(),
            w == views(headings@),
            out@ == sections_text(views(ls@), w, i as nat),
        decreases headings@.len() - i,
    {
        assert(w[i as int] == headings@[i as int]@);
        if let Some(t) = section(&ls, headings[i].as_str()) {
            if !empty(out.as_str()) {
                out.push_str("\n");
            }
            out.push_str(t.as_str());
            out.push_str("\n");
        }
        i = i + 1;
    }
    if empty(out.as_str()) {
        return copy_text(doc);
    }
    out
}

// ---- topics ----------------------------------------------------------------------------

/// The first topic from `i` on with a name, in any case.
pub open spec fn topic_at(l: Seq<TopicView>, want: Seq<char>, i: int) -> Option<TopicView>
    decreases l.len() - i,
{
    if i < 0 || i >= l.len() {
        None
    } else if lower(l[i].name) == lower(want) {
        Some(l[i])
    } else {
        topic_at(l, want, i + 1)
    }
}

/// The names of topics.
pub open spec fn topic_names(l: Seq<TopicView>) -> Seq<Seq<char>> {
    l.map_values(|t: TopicView| t.name)
}

/// The topic that is asked for: how a case is built, unless another is named.
pub open spec fn wanted(name: Option<Seq<char>>) -> Seq<char> {
    match name {
        Some(n) => if is_blank(n) {
            "case"@
        } else {
            trim(n)
        },
        None => "case"@,
    }
}

/// What a description says on a topic. For a name that is none, it says so and tells how a case
/// is built.
pub open spec fn topic_text(doc: Seq<char>, name: Option<Seq<char>>) -> Seq<char> {
    let want = wanted(name);
    match topic_at(topic_table(), want, 0) {
        Some(t) => if t.headings.len() == 0 {
            doc
        } else {
            sections_of(doc, t.headings)
        },
        None => "（没有名为 `"@ + want + "` 的主题，以下是 `case`。可选主题："@ + join(
            topic_names(topic_table()),
            " / "@,
        ) + "）\n\n"@ + sections_of(doc, case_headings()),
    }
}

fn names_of(l: &Vec<Topic>) -> (r: Vec<String>)
    ensures
        views(r@) == topic_names(views(l@)),
{
    let mut out: Vec<String> = Vec::new();
    let mut i: usize = 0;
    while i < l.len()
        invariant
            i <= l@.len(),
            out@.len() == i,
            forall|k: int| 0 <= k < i ==> (#[trigger] out@[k])@ == l@[k]@.name,
        decreases l@.len() - i,
    {
        out.push(copy_text(l[i].name.as_str()));
        i = i + 1;
    }
    assert(views(out@) =~= topic_names(views(l@)));
    out
}

/// What a description says on a topic.
pub fn topic(doc: &str, name: Option<&str>) -> (r: String)
    ensures
        r@ == topic_text(doc@, opt_text(name)),
{
    let want: String = match name {
        Some(n) => if blank(n) {
            copy_text("case")
        } else {
            trimmed(n)
        },
        None => copy_text("case"),
    };
    let all: Vec<Topic> = topics();
    let ghost w = topic_table();
    let mut i: usize = 0;
    while i < all.len()
        invariant
            i <= all@.len(),
            w == views(all@),
            w == topic_table(),
            want@ == wanted(opt_text(name)),
            topic_at(w, want@, 0) == topic_at(w, want@, i as int),
        decreases all@.len() - i,
    {
        assert(w[i as int] == all@[i as int]@);
        if same_ignoring_case(all[i].name.as_str(), want.as_str()) {
            if all[i].headings.len() == 0 {
                return copy_text(doc);
            }
            return sections(doc, &all[i].headings);
        }
        i = i + 1;
    }
    let mut r: String = cat3(
        "（没有名为 `",
        want.as_str(),
        "` 的主题，以下是 `case`。可选主题：",
    );
    r.push_str(joined(&names_of(&all), " / ").as_str());
    r.push_str("）\n\n");
    r.push_str(sections(doc, &headings_of_case()).as_str());
    r
}

/// A topic in a list.
pub open spec fn topic_entry(t: TopicView) -> Seq<char> {
    t.name + "（"@ + t.about + "）"@
}

/// The topics in one line.
pub fn topic_list() -> (r: String)
    ensures
        r@ == join(topic_table().map_values(|t: TopicView| topic_entry(t)), "、"@),
{
    let all: Vec<Topic> = topics();
    let mut out: Vec<String> = Vec::new();
    let mut i: usize = 0;
    while i < all.len()
        invariant
            i <= all@.len(),
            out@.len() == i,
            forall|k: int| 0 <= k < i ==> (#[trigger] out@[k])@ == topic_entry(all@[k]@),
        decreases all@.len() - i,
    {
        let mut t: String = cat3(all[i].name.as_str(), "（", all[i].about.as_str());
        t.push_str("）");
        out.push(t);
        i = i + 1;
    }
    assert(views(out@) =~= topic_table().map_values(|t: TopicView| topic_entry(t)));
    joined(&out, "、")
}

// ---- laws ------------------------------------------------------------------------------

/// A section begins with its heading, and every other heading in it is below that one: it
/// brings its subsections along and stops before the next section.
pub proof fn law_section(doc: Seq<char>, want: Seq<char>)
    ensures
        match section_of(lines_of(doc), want) {
            Some(part) => {
                &&& part.len() > 0
                &&& is_heading(part[0], want)
                &&& forall|k: int|
                    0 < k < part.len() ==> !ends_section(#[trigger] part[k], level_of(part[0])->0)
            },
            None => true,
        },
{
    let ls = lines_of(doc);
    if let Some(a) = heading_at(ls, want, 0) {
        lemma_heading_at(ls, want, 0);
        let level = level_of(ls[a])->0;
        lemma_section_end(ls, level, a + 1);
        let part = ls.subrange(a, section_end(ls, level, a + 1));
        assert(part[0] == ls[a]);
        assert forall|k: int| 0 < k < part.len() implies !ends_section(
            #[trigger] part[k],
            level_of(part[0])->0,
        ) by {
            assert(part[k] == ls[a + k]);
        }
    }
}

/// Without a name, how a case is built is told.
pub proof fn law_case_is_the_default(doc: Seq<char>)
    ensures
        topic_text(doc, None) == topic_text(doc, Some("case"@)),
        topic_text(doc, None) == sections_of(doc, case_headings()),
{
    reveal_strlit("case");
    let c = "case"@;
    assert(!crate::text::is_white(c[0]) && !crate::text::is_white(c[3]));
    assert(trim(c) == c);
    assert(topic_at(topic_table(), c, 0) == Some(topic_table()[0]));
}

proof fn lemma_topic_names()
    ensures
        lower("case"@).len() == 4 && lower("case"@)[0] == 'c',
        lower("assertions"@).len() == 10 && lower("assertions"@)[0] == 'a',
        lower("auth"@).len() == 4 && lower("auth"@)[0] == 'a',
        lower("body"@).len() == 4 && lower("body"@)[0] == 'b',
        lower("vars"@).len() == 4 && lower("vars"@)[0] == 'v',
        lower("settings"@).len() == 8 && lower("settings"@)[0] == 's',
        lower("cookies"@).len() == 7 && lower("cookies"@)[0] == 'c',
        lower("all"@).len() == 3 && lower("all"@)[0] == 'a',
{
    reveal_strlit("case");
    assert("case"@.len() == 4 && "case"@[0] == 'c');
    reveal_strlit("assertions");
    assert("assertions"@.len() == 10 && "assertions"@[0] == 'a');
    reveal_strlit("auth");
    assert("auth"@.len() == 4 && "auth"@[0] == 'a');
    reveal_strlit("body");
    assert("body"@.len() == 4 && "body"@[0] == 'b');
    reveal_strlit("vars");
    assert("vars"@.len() == 4 && "vars"@[0] == 'v');
    reveal_strlit("settings");
    assert("settings"@.len() == 8 && "settings"@[0] == 's');
    reveal_strlit("cookies");
    assert("cookies"@.len() == 7 && "cookies"@[0] == 'c');
    reveal_strlit("all");
    assert("all"@.len() == 3 && "all"@[0] == 'a');
}

/// A topic is named in any case and with white space around it; each tells the sections of the
/// description that it is about, and one tells all of it.
pub proof fn law_topics(doc: Seq<char>, name: Seq<char>)
    requires
        !is_blank(name),
    ensures
        lower(trim(name)) == lower("case"@) ==> topic_text(doc, Some(name)) == sections_of(
            doc,
            seq!["总览"@, "顶层字段"@, "step（请求节点）"@, "request（http 报文）"@],
        ),
        lower(trim(name)) == lower("assertions"@) ==> topic_text(doc, Some(name)) == sections_of(
            doc,
            seq!["outputs（输出提取）"@, "assertions（断言）"@],
        ),
        lower(trim(name)) == lower("auth"@) ==> topic_text(doc, Some(name)) == sections_of(
            doc,
            seq!["auth（认证）"@],
        ),
        lower(trim(name)) == lower("body"@) ==> topic_text(doc, Some(name)) == sections_of(
            doc,
            seq!["body（请求体）"@],
        ),
        lower(trim(name)) == lower("vars"@) ==> topic_text(doc, Some(name)) == sections_of(
            doc,
            seq!["变量与透传"@],
        ),
        lower(trim(name)) == lower("settings"@) ==> topic_text(doc, Some(name)) == sections_of(
            doc,
            seq!["application.yml（工作空间配置）"@],
        ),
        lower(trim(name)) == lower("cookies"@) ==> topic_text(doc, Some(name)) == sections_of(
            doc,
            seq!["cookies.yml（cookie 会话）"@],
        ),
        lower(trim(name)) == lower("all"@) ==> topic_text(doc, Some(name)) == doc,
{
    lemma_topic_names();
    let l = topic_table();
    let w = trim(name);
    let x = lower(w);
    reveal_with_fuel(topic_at, 9);
    assert(wanted(Some(name)) == w);
    assert(l[0].name == "case"@);
    assert(l[1].name == "assertions"@);
    assert(l[2].name == "auth"@);
    assert(l[3].name == "body"@);
    assert(l[4].name == "vars"@);
    assert(l[5].name == "settings"@);
    assert(l[6].name == "cookies"@);
    assert(l[7].name == "all"@);
    if x == lower("case"@) {
        assert(topic_at(l, w, 0) == Some(l[0]));
        assert(l[0].headings == seq!["总览"@, "顶层字段"@, "step（请求节点）"@, "request（http 报文）"@]);
    }
    if x == lower("assertions"@) {
        assert(topic_at(l, w, 0) == Some(l[1]));
        assert(l[1].headings == seq!["outputs（输出提取）"@, "assertions（断言）"@]);
    }
    if x == lower("auth"@) {
        assert(topic_at(l, w, 0) == Some(l[2]));
        assert(l[2].headings == seq!["auth（认证）"@]);
    }
    if x == lower("body"@) {
        assert(topic_at(l, w, 0) == Some(l[3]));
        assert(l[3].headings == seq!["body（请求体）"@]);
    }
    if x == lower("vars"@) {
        assert(topic_at(l, w, 0) == Some(l[4]));
        assert(l[4].headings == seq!["变量与透传"@]);
    }
    if x == lower("settings"@) {
        assert(topic_at(l, w, 0) == Some(l[5]));
        assert(l[5].headings == seq!["application.yml（工作空间配置）"@]);
    }
    if x == lower("cookies"@) {
        assert(topic_at(l, w, 0) == Some(l[6]));
        assert(l[6].headings == seq!["cookies.yml（cookie 会话）"@]);
    }
    if x == lower("all"@) {
        assert(topic_at(l, w, 0) == Some(l[7]));
    }
}

proof fn lemma_heading_is(ls: Seq<Seq<char>>, want: Seq<char>, i: int, a: int)
    requires
        0 <= i <= a < ls.len(),
        is_heading(ls[a], want),
        forall|k: int| i <= k < a ==> !is_heading(#[trigger] ls[k], want),
    ensures
        heading_at(ls, want, i) == Some(a),
    decreases a - i,
{
    if i < a {
        lemma_heading_is(ls, want, i + 1, a);
    }
}

proof fn lemma_end_is(ls: Seq<Seq<char>>, level: nat, i: int, b: int)
    requires
        0 <= i <= b <= ls.len(),
        b < ls.len() ==> ends_section(ls[b], level),
        forall|k: int| i <= k < b ==> !ends_section(#[trigger] ls[k], level),
    ensures
        section_end(ls, level, i) == b,
    decreases b - i,
{
    if i < b {
        lemma_end_is(ls, level, i + 1, b);
    }
}

/// A section is every line from the first heading of its name up to the next heading that is not
/// below it, or up to the end; without such a heading there is none.
pub proof fn law_lines_of_section(
    ls: Seq<Seq<char>>,
    want: Seq<char>,
    a: int,
    b: int,
    level: nat,
    title: Seq<char>,
)
    requires
        0 <= a < b <= ls.len(),
        level > 0,
        title.len() > 0 && title[0] == ' ' && trim(title) == want,
        ls[a] == Seq::new(level, |k: int| '#') + title,
        forall|k: int| 0 <= k < a ==> !is_heading(#[trigger] ls[k], want),
        forall|k: int| a < k < b ==> !ends_section(#[trigger] ls[k], level),
        b < ls.len() ==> ends_section(ls[b], level),
    ensures
        section_of(ls, want) == Some(ls.subrange(a, b)),
        level_of(ls[a]) == Some(level),
{
    lemma_hashes_of(level, title);
    assert(ls[a].skip(level as int) =~= title);
    lemma_heading_is(ls, want, 0, a);
    lemma_end_is(ls, level, a + 1, b);
}

proof fn lemma_hashes_of(level: nat, title: Seq<char>)
    requires
        title.len() > 0 && title[0] != '#',
    ensures
        hashes(Seq::new(level, |k: int| '#') + title) == level,
    decreases level,
{
    let l = Seq::new(level, |k: int| '#') + title;
    if level > 0 {
        let n = (level - 1) as nat;
        assert(l.drop_first() =~= Seq::new(n, |k: int| '#') + title);
        lemma_hashes_of(n, title);
    } else {
        assert(l =~= title);
    }
}

} // verus!
