//! Reports as single HTML files, and back.
//!
//! The data of a report stands in its page as a block of JSON; the page draws itself from it.
//! The same page without data is what a host shows and feeds.
use crate::fields::{push_field, text_value};
use crate::json::{
    compact, in_script, json_pretty, json_text, lemma_view, parse_json, parsed_json, pretty, Json,
    JsonView, Member,
};
use crate::page::{lemma_data_first, page_head, page_start, SCRIPT};
use crate::report::{REPORT_SCHEMA_VERSION, RunReport, RunReportView};
use crate::report_json::{
    law_integral_is_kept, law_report_read_back, report_from_json, report_integral, report_json,
    report_kept, report_read, report_to_json,
};
use crate::text::{
    chars_of, copy_text, empty, find, find_from, is_white, lemma_find_least, lemma_find_occurs,
    occurs_at, opt_text, opt_view, replace, replace_from, replaced, sub_text, trim, trimmed,
};
use vstd::prelude::*;

verus! {

/// What begins the data of a report.
pub const DATA_OPEN: &'static str = "<script id=\"apicase-report\" type=\"application/json\">";

/// What ends the data of a report.
pub const DATA_CLOSE: &'static str = "</script>";

/// The page after its data.
pub open spec fn page_tail() -> Seq<char> {
    "\n<script>"@ + SCRIPT@ + DATA_CLOSE@ + "\n</body>\n</html>\n"@
}

/// The page with data.
pub open spec fn page(data: Seq<char>) -> Seq<char> {
    page_head() + DATA_OPEN@ + data + DATA_CLOSE@ + page_tail()
}

/// The page of a report.
pub open spec fn report_page(r: RunReportView) -> Seq<char> {
    page(in_script(json_text(report_json(r))))
}

/// JSON text as it can stand in a script.
pub fn escape_json_for_script(json: &str) -> (r: String)
    ensures
        r@ == in_script(json@),
{
    proof {
        reveal_strlit("</");
        reveal_strlit("<\\/");
        reveal_strlit("\u{2028}");
        reveal_strlit("\\u2028");
        reveal_strlit("\u{2029}");
        reveal_strlit("\\u2029");
        assert("</"@ =~= seq!['<', '/']);
        assert("<\\/"@ =~= seq!['<', '\\', '/']);
        assert("\u{2028}"@ =~= seq!['\u{2028}']);
        assert("\\u2028"@ =~= seq!['\\', 'u', '2', '0', '2', '8']);
        assert("\u{2029}"@ =~= seq!['\u{2029}']);
        assert("\\u2029"@ =~= seq!['\\', 'u', '2', '0', '2', '9']);
    }
    let closed: String = replaced(json, "</", "<\\/");
    let lines: String = replaced(closed.as_str(), "\u{2028}", "\\u2028");
    replaced(lines.as_str(), "\u{2029}", "\\u2029")
}

fn page_end() -> (r: String)
    ensures
        r@ == page_tail(),
{
    let mut tail: String = copy_text("\n<script>");
    tail.push_str(SCRIPT);
    tail.push_str(DATA_CLOSE);
    tail.push_str("\n</body>\n</html>\n");
    tail
}

fn shell_html(data: &str) -> (r: String)
    ensures
        r@ == page(data@),
{
    let mut out: String = page_start();
    out.push_str(DATA_OPEN);
    out.push_str(data);
    out.push_str(DATA_CLOSE);
    out.push_str(page_end().as_str());
    out
}

/// The page without data.
pub fn report_shell() -> (r: String)
    ensures
        r@ == page(seq![]),
{
    let none: String = String::new();
    assert(none@ =~= seq![]);
    shell_html(none.as_str())
}

/// What is read from the page of a report: the report as it was, unless a later version made it.
pub open spec fn readable(r: RunReportView) -> Option<RunReportView> {
    if r.schema_version <= REPORT_SCHEMA_VERSION {
        Some(r)
    } else {
        None
    }
}

/// The page of a report. A report that was made by this version, or an older one, is read back
/// from its page as it was, whatever the bodies in it hold; one of a later version is not read.
pub fn render_html(report: &RunReport) -> (r: String)
    ensures
        r@ == report_page(report@),
        report_kept(report@) ==> page_report(r@) == readable(report@),
        report_integral(report@) ==> page_report(r@) == readable(report@),
{
    let v: Json = report_to_json(report);
    let json: String = compact(&v);
    let data: String = escape_json_for_script(json.as_str());
    let r: String = shell_html(data.as_str());
    proof {
        if report_integral(report@) {
            law_integral_is_kept(report@);
        }
        if report_kept(report@) {
            law_report_read_back(report@);
            lemma_script_ends(json@);
            law_no_early_end(json@);
            law_data_found(data@);
        }
    }
    r
}

// ---- reading ---------------------------------------------------------------------------

/// The data of a page.
pub open spec fn data_of(text: Seq<char>) -> Option<Seq<char>> {
    match find_from(text, DATA_OPEN@, 0) {
        Some(i) => {
            let from = i + DATA_OPEN@.len();
            match find_from(text, DATA_CLOSE@, from) {
                Some(j) => {
                    let raw = trim(text.subrange(from, j));
                    if raw.len() == 0 {
                        None
                    } else {
                        Some(raw)
                    }
                },
                None => None,
            }
        },
        None => None,
    }
}

/// The report that data gives. One that a later version made is not read: it may say what this
/// one does not know.
pub open spec fn data_report(v: Option<JsonView>) -> Option<RunReportView> {
    match v {
        Some(j) => match report_read(j) {
            Some(r) => if r.schema_version <= REPORT_SCHEMA_VERSION {
                Some(r)
            } else {
                None
            },
            None => None,
        },
        None => None,
    }
}

/// The report of a page.
pub open spec fn page_report(text: Seq<char>) -> Option<RunReportView> {
    match data_of(text) {
        Some(raw) => data_report(parsed_json(raw)),
        None => None,
    }
}

/// The data of a page.
pub fn report_data(text: &str) -> (r: Option<String>)
    ensures
        opt_view(r) == data_of(text@),
{
    let cs: Vec<char> = chars_of(text);
    let open: Vec<char> = chars_of(DATA_OPEN);
    let close: Vec<char> = chars_of(DATA_CLOSE);
    match find(cs.as_slice(), open.as_slice(), 0) {
        Some(i) => {
            let n: usize = cs.len();
            assert(i + open@.len() <= n);
            let from: usize = i + open.len();
            match find(cs.as_slice(), close.as_slice(), from) {
                Some(j) => {
                    assert(j + close@.len() <= n);
                    let raw: String = trimmed(sub_text(cs.as_slice(), from, j).as_str());
                    if empty(raw.as_str()) {
                        None
                    } else {
                        Some(raw)
                    }
                },
                None => None,
            }
        },
        None => None,
    }
}

/// The report that data gives.
pub fn report_of_data(v: &Option<Json>) -> (r: Option<RunReport>)
    ensures
        opt_view(r) == data_report(opt_view(*v)),
{
    match v {
        Some(j) => match report_from_json(j) {
            Some(r) => if r.schema_version <= REPORT_SCHEMA_VERSION {
                Some(r)
            } else {
                None
            },
            None => None,
        },
        None => None,
    }
}

/// The report of a page; anything else is no report.
pub fn parse_report_html(text: &str) -> (r: Option<RunReport>)
    ensures
        opt_view(r) == page_report(text@),
{
    match report_data(text) {
        Some(raw) => report_of_data(&parse_json(raw.as_str())),
        None => None,
    }
}

// ---- JSON output -----------------------------------------------------------------------

/// A report as JSON, with the file that it was written to.
pub open spec fn report_with_file(r: RunReportView, path: Option<Seq<char>>) -> JsonView {
    match path {
        Some(p) => JsonView::Object(
            report_json(r)->Object_0.push(("reportFile"@, JsonView::Str(p))),
        ),
        None => report_json(r),
    }
}

/// A report as JSON text, with the file that it was written to: where it is, is the next thing
/// that is asked.
pub fn to_json(report: &RunReport, path: Option<&str>) -> (r: Option<String>)
    ensures
        opt_view(r) == json_pretty(report_with_file(report@, opt_text(path))),
{
    let mut v: Json = report_to_json(report);
    if let Some(p) = path {
        proof {
            lemma_view(v);
        }
        if let Json::Object(m) = v {
            let mut all: Vec<Member> = m;
            push_field(&mut all, "reportFile", text_value(p));
            let w: Json = Json::Object(all);
            proof {
                lemma_view(w);
            }
            return pretty(&w);
        }
        return None;
    }
    pretty(&v)
}

// ---- writing now and then --------------------------------------------------------------

/// When a report that grows was last written to its file.
#[derive(Debug, Clone)]
pub struct ReportWriter {
    pub path: String,
    /// The time of the last write, in milliseconds; none before the first.
    pub last: Option<u64>,
}

/// How long after a write the next one is due, in milliseconds: a large report takes its time.
pub open spec fn interval_of(cases: nat) -> nat {
    if cases * 20 > 1000 {
        cases * 20
    } else {
        1000
    }
}

/// Whether a report is written: the first time, and again once the interval has passed.
pub open spec fn is_due(last: Option<u64>, now: u64, cases: nat) -> bool {
    match last {
        Some(t) => now - t >= interval_of(cases),
        None => true,
    }
}

impl ReportWriter {
    /// A writer that has not written yet.
    pub fn new(path: String) -> (r: Self)
        ensures
            r.path@ == path@,
            r.last is None,
    {
        ReportWriter { path, last: None }
    }

    /// The file that is written.
    pub fn path(&self) -> (r: &str)
        ensures
            r@ == self.path@,
    {
        self.path.as_str()
    }

    /// How long after a write the next one is due.
    pub fn interval(cases: usize) -> (r: u64)
        requires
            cases * 20 <= u64::MAX,
        ensures
            r == interval_of(cases as nat),
    {
        let ms: u64 = cases as u64 * 20;
        if ms > 1000 {
            ms
        } else {
            1000
        }
    }

    /// Whether a report is written now, which counts as a write.
    pub fn maybe_write(&mut self, now: u64, cases: usize) -> (r: bool)
        requires
            cases * 20 <= u64::MAX,
        ensures
            r == is_due(old(self).last, now, cases as nat),
            final(self).path == old(self).path,
            final(self).last == (if r {
                Some(now)
            } else {
                old(self).last
            }),
    {
        let due: bool = match self.last {
            Some(t) => now >= t && now - t >= ReportWriter::interval(cases),
            None => true,
        };
        if due {
            self.last = Some(now);
        }
        due
    }

    /// Counts a write, whenever the last one was.
    pub fn write_now(&mut self, now: u64)
        ensures
            final(self).path == old(self).path,
            final(self).last == Some(now),
    {
        self.last = Some(now);
    }
}

// ---- laws ------------------------------------------------------------------------------

/// Whether nothing in a text can end a script.
pub open spec fn no_end_tag(s: Seq<char>) -> bool {
    forall|k: int| 0 <= k < s.len() - 1 ==> !(#[trigger] s[k] == '<' && s[k + 1] == '/')
}

proof fn lemma_closed(s: Seq<char>, i: int)
    requires
        0 <= i,
    ensures
        no_end_tag(replace_from(s, seq!['<', '/'], seq!['<', '\\', '/'], i)),
        i < s.len() ==> {
            let t = replace_from(s, seq!['<', '/'], seq!['<', '\\', '/'], i);
            t.len() > 0 && t[0] == s[i]
        },
    decreases s.len() - i,
{
    let p = seq!['<', '/'];
    let to = seq!['<', '\\', '/'];
    if i < s.len() {
        if occurs_at(s, p, i) {
            lemma_closed(s, i + 2);
            assert(s.subrange(i, i + 2)[0] == p[0]);
            let rest = replace_from(s, p, to, i + 2);
            let t = to + rest;
            assert forall|k: int| 0 <= k < t.len() - 1 implies !(#[trigger] t[k] == '<' && t[k + 1]
                == '/') by {
                if k >= 3 {
                    assert(t[k] == rest[k - 3] && t[k + 1] == rest[k - 2]);
                }
            }
        } else {
            lemma_closed(s, i + 1);
            let rest = replace_from(s, p, to, i + 1);
            let t = seq![s[i]] + rest;
            assert forall|k: int| 0 <= k < t.len() - 1 implies !(#[trigger] t[k] == '<' && t[k + 1]
                == '/') by {
                if k >= 1 {
                    assert(t[k] == rest[k - 1] && t[k + 1] == rest[k]);
                } else if s[i] == '<' && rest[0] == '/' {
                    assert(i + 1 < s.len());
                    assert(s.subrange(i, i + 2) =~= p);
                }
            }
        }
    }
}

/// Whether a text is an escape: it is not empty and holds none of the characters that matter.
pub open spec fn is_escape(to: Seq<char>) -> bool {
    to.len() > 0 && forall|k: int|
        0 <= k < to.len() ==> (#[trigger] to[k]) != '<' && to[k] != '/' && to[k] != '\u{2028}' && to[k]
            != '\u{2029}'
}

proof fn lemma_escaped(s: Seq<char>, c: char, to: Seq<char>, i: int)
    requires
        0 <= i,
        c != '<' && c != '/',
        is_escape(to),
        no_end_tag(s),
    ensures
        no_end_tag(replace_from(s, seq![c], to, i)),
        i < s.len() ==> {
            let t = replace_from(s, seq![c], to, i);
            t.len() > 0 && (t[0] == s[i] || t[0] == to[0])
        },
    decreases s.len() - i,
{
    let p = seq![c];
    if i < s.len() {
        lemma_escaped(s, c, to, i + 1);
        let rest = replace_from(s, p, to, i + 1);
        if occurs_at(s, p, i) {
            let t = to + rest;
            assert forall|k: int| 0 <= k < t.len() - 1 implies !(#[trigger] t[k] == '<' && t[k + 1]
                == '/') by {
                if k >= to.len() {
                    assert(t[k] == rest[k - to.len()] && t[k + 1] == rest[k + 1 - to.len()]);
                } else {
                    assert(t[k] == to[k]);
                }
            }
        } else {
            let t = seq![s[i]] + rest;
            assert forall|k: int| 0 <= k < t.len() - 1 implies !(#[trigger] t[k] == '<' && t[k + 1]
                == '/') by {
                if k >= 1 {
                    assert(t[k] == rest[k - 1] && t[k + 1] == rest[k]);
                } else {
                    assert(s[i] == '<' && s[i + 1] == '/' ==> !no_end_tag(s));
                    assert(to[0] != '/');
                }
            }
        }
    }
}

proof fn lemma_gone(s: Seq<char>, c: char, to: Seq<char>, i: int, gone: char)
    requires
        0 <= i,
        is_escape(to),
        gone == '\u{2028}' || gone == '\u{2029}',
        gone == c || forall|k: int| 0 <= k < s.len() ==> #[trigger] s[k] != gone,
    ensures
        forall|k: int|
            0 <= k < replace_from(s, seq![c], to, i).len() ==> #[trigger] replace_from(
                s,
                seq![c],
                to,
                i,
            )[k] != gone,
    decreases s.len() - i,
{
    let p = seq![c];
    if i < s.len() {
        lemma_gone(s, c, to, i + 1, gone);
        let rest = replace_from(s, p, to, i + 1);
        let t = replace_from(s, p, to, i);
        if occurs_at(s, p, i) {
            assert(t =~= to + rest);
        } else {
            assert(t =~= seq![s[i]] + rest);
            if s[i] == c {
                assert(s.subrange(i, i + 1) =~= p);
            }
        }
        assert forall|k: int| 0 <= k < t.len() implies #[trigger] t[k] != gone by {
            if occurs_at(s, p, i) {
                if k < to.len() {
                    assert(t[k] == to[k]);
                } else {
                    assert(t[k] == rest[k - to.len()]);
                }
            } else if k > 0 {
                assert(t[k] == rest[k - 1]);
            }
        }
    }
}

proof fn lemma_ends_kept(s: Seq<char>, p: Seq<char>, to: Seq<char>, i: int)
    requires
        0 <= i < s.len(),
        p.len() > 0,
        to.len() > 0,
        s.last() == '}',
        p[0] != '{',
        p.last() != '}',
    ensures
        replace_from(s, p, to, i).len() > 0,
        replace_from(s, p, to, i).last() == '}',
        s[i] == '{' ==> replace_from(s, p, to, i)[0] == '{',
    decreases s.len() - i,
{
    if occurs_at(s, p, i) {
        assert(s.subrange(i, i + p.len())[0] == p[0]);
        assert(s.subrange(i, i + p.len()).last() == p.last());
        assert(i + p.len() < s.len());
        lemma_ends_kept(s, p, to, i + p.len());
        assert(s[i] == p[0]);
    } else if i + 1 < s.len() {
        lemma_ends_kept(s, p, to, i + 1);
    }
}

proof fn lemma_escapes()
    ensures
        is_escape(seq!['\\', 'u', '2', '0', '2', '8']),
        is_escape(seq!['\\', 'u', '2', '0', '2', '9']),
{
}

/// An object keeps its braces when it is made to stand in a script.
proof fn lemma_script_ends(t: Seq<char>)
    requires
        t.len() > 1,
        t[0] == '{',
        t.last() == '}',
    ensures
        in_script(t).len() > 0,
        in_script(t)[0] == '{',
        in_script(t).last() == '}',
        trim(in_script(t)) == in_script(t),
{
    let a = replace(t, seq!['<', '/'], seq!['<', '\\', '/']);
    lemma_ends_kept(t, seq!['<', '/'], seq!['<', '\\', '/'], 0);
    let b = replace(a, seq!['\u{2028}'], seq!['\\', 'u', '2', '0', '2', '8']);
    lemma_ends_kept(a, seq!['\u{2028}'], seq!['\\', 'u', '2', '0', '2', '8'], 0);
    lemma_ends_kept(b, seq!['\u{2029}'], seq!['\\', 'u', '2', '0', '2', '9'], 0);
    assert(!is_white('{') && !is_white('}'));
}

/// Whatever a report says, nothing in its data ends the script that it stands in.
pub proof fn law_no_early_end(t: Seq<char>)
    ensures
        no_end_tag(in_script(t)),
{
    lemma_escapes();
    let a = replace(t, seq!['<', '/'], seq!['<', '\\', '/']);
    lemma_closed(t, 0);
    let b = replace(a, seq!['\u{2028}'], seq!['\\', 'u', '2', '0', '2', '8']);
    lemma_escaped(a, '\u{2028}', seq!['\\', 'u', '2', '0', '2', '8'], 0);
    lemma_escaped(b, '\u{2029}', seq!['\\', 'u', '2', '0', '2', '9'], 0);
}

/// Whatever a report says, no line separator stands in its data: a script takes one for the end
/// of a line.
pub proof fn law_no_line_separators(t: Seq<char>)
    ensures
        forall|k: int|
            0 <= k < in_script(t).len() ==> (#[trigger] in_script(t)[k]) != '\u{2028}'
                && in_script(t)[k] != '\u{2029}',
{
    lemma_escapes();
    let a = replace(t, seq!['<', '/'], seq!['<', '\\', '/']);
    let e8 = seq!['\\', 'u', '2', '0', '2', '8'];
    let e9 = seq!['\\', 'u', '2', '0', '2', '9'];
    let b = replace(a, seq!['\u{2028}'], e8);
    lemma_gone(a, '\u{2028}', e8, 0, '\u{2028}');
    lemma_gone(b, '\u{2029}', e9, 0, '\u{2028}');
    lemma_gone(b, '\u{2029}', e9, 0, '\u{2029}');
}

proof fn lemma_open_found(data: Seq<char>)
    ensures
        find_from(page(data), DATA_OPEN@, 0) == Some(page_head().len() as int),
{
    let head = page_head();
    let open = DATA_OPEN@;
    let text = page(data);
    let n = head.len() as int;
    lemma_data_first();
    assert(text.subrange(n, n + open.len()) =~= open);
    lemma_find_least(text, open, 0, n);
    lemma_find_occurs(text, open, 0);
    let i = find_from(text, open, 0)->0;
    if i < n {
        let short = head + open;
        assert(short.subrange(i, i + open.len()) =~= text.subrange(i, i + open.len()));
        assert(occurs_at(short, open, i));
        lemma_find_least(short, open, 0, i);
    }
}

/// The data of a page is found in it, whatever it is, as long as nothing in it ends its script.
pub proof fn law_data_found(data: Seq<char>)
    requires
        no_end_tag(data),
    ensures
        data_of(page(data)) == (if trim(data).len() == 0 {
            None
        } else {
            Some(trim(data))
        }),
{
    let text = page(data);
    let open = DATA_OPEN@;
    let close = DATA_CLOSE@;
    let from = (page_head().len() + open.len()) as int;
    let end = from + data.len() as int;
    lemma_open_found(data);
    reveal_strlit("</script>");
    assert(text.subrange(end, end + close.len()) =~= close);
    lemma_find_least(text, close, from, end);
    lemma_find_occurs(text, close, from);
    let j = find_from(text, close, from)->0;
    if j < end {
        assert(text.subrange(j, j + close.len())[0] == close[0]);
        assert(text.subrange(j, j + close.len())[1] == close[1]);
        assert(text[j] == '<' && text[j + 1] == '/');
        assert(text[j] == data[j - from]);
        if j + 1 < end {
            assert(text[j + 1] == data[j + 1 - from]);
            assert(!no_end_tag(data));
        } else {
            assert(text[j + 1] == close[0]);
        }
    }
    assert(text.subrange(from, end) =~= data);
}

/// The page without data and the page of a report differ in nothing but the data.
pub proof fn law_one_page(r: RunReportView)
    ensures
        page(seq![]) == page_head() + DATA_OPEN@ + (DATA_CLOSE@ + page_tail()),
        report_page(r) == page_head() + DATA_OPEN@ + in_script(json_text(report_json(r))) + (
        DATA_CLOSE@ + page_tail()),
{
    assert(page(seq![]) =~= page_head() + DATA_OPEN@ + (DATA_CLOSE@ + page_tail()));
    assert(report_page(r) =~= page_head() + DATA_OPEN@ + in_script(json_text(report_json(r))) + (
    DATA_CLOSE@ + page_tail()));
}

/// A report of a later version is not read, whatever it says.
pub proof fn law_later_is_not_read(v: JsonView)
    requires
        report_read(v) is Some,
        report_read(v)->0.schema_version > REPORT_SCHEMA_VERSION,
    ensures
        data_report(Some(v)) is None,
{
}

/// A report is written again at most once a second, and less often the more cases it has: at least
/// twenty milliseconds pass for each. The first time it is always written.
pub proof fn law_when_to_write(t: u64, now: u64, cases: nat)
    ensures
        is_due(None, now, cases),
        is_due(Some(t), now, cases) ==> now - t >= 1000 && now - t >= cases * 20,
        now - t >= 1000 && now - t >= cases * 20 ==> is_due(Some(t), now, cases),
{
}

/// Where a report is told with its file, all of the report is told, and the file comes last.
pub proof fn law_told_with_file(r: RunReportView, p: Seq<char>)
    ensures
        report_with_file(r, None) == report_json(r),
        match (report_with_file(r, Some(p)), report_json(r)) {
            (JsonView::Object(m), JsonView::Object(n)) => m.len() == n.len() + 1 && m.drop_last() == n
                && m.last().0 == "reportFile"@ && m.last().1 == JsonView::Str(p),
            _ => false,
        },
{
    if let JsonView::Object(n) = report_json(r) {
        assert(n.push(("reportFile"@, JsonView::Str(p))).drop_last() =~= n);
    }
}

} // verus!
