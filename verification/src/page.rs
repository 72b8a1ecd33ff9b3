//! The page that shows a report: its style, its frame and the script that fills it.
//!
//! The page is one file. Nothing in it is fetched from elsewhere.
use crate::render::DATA_OPEN;
use crate::text::{
    find_from, lemma_find_least, lemma_find_occurs, lemma_lines_concat, lines_text, occurs_at,
    push_line,
};
use vstd::prelude::*;

verus! {

/// The script that draws the page from its data, or from what a host hands it.
pub const SCRIPT: &'static str = "(function(){function el(t,c,x){var e=document.createElement(t);if(c)e.className=c;if(x!=null)e.textContent=x;return e}function body(b){return b&&b.preview!=null?b.preview+(b.truncated?'\\n…':''):''}function step(s){var d=el('details');var m=el('summary',s.status,s.id+' · '+s.status+' · '+s.durationMs+'ms');d.append(m);if(s.error)d.append(el('pre','error',s.error));if(s.skipReason)d.append(el('p','skipped',s.skipReason));if(s.assertions&&s.assertions.length){var t=el('table');s.assertions.forEach(function(a){var r=el('tr',a.ok?'passed':'failed');[a.target,a.op,a.expected,a.actual].forEach(function(x){r.append(el('td','',x))});t.append(r)});d.append(t)}if(s.request)d.append(el('pre','',s.request.method+' '+s.request.url+'\\n'+body(s.request.body)));if(s.response)d.append(el('pre','',s.response.status+' '+s.response.statusText+'\\n'+body(s.response.body)));return d}function show(r){var h=document.getElementById('head');h.textContent=r.workspace.name+' · '+r.environment.name+' · '+new Date(r.startedAt).toLocaleString();var q=document.getElementById('sum');q.replaceChildren();['total','passed','failed','error','skipped'].forEach(function(k){q.append(el('span',k,k+' '+r.summary[k]))});var c=document.getElementById('cases');c.replaceChildren();r.cases.forEach(function(x){var d=el('details');d.open=x.status!=='passed';d.append(el('summary',x.status,x.name+' · '+x.file+' · '+x.status));if(x.skipReason)d.append(el('p','skipped',x.skipReason));x.steps.forEach(function(s){d.append(step(s))});c.append(d)})}var raw=document.getElementById('apicase-report').textContent.trim();if(raw)show(JSON.parse(raw));window.addEventListener('message',function(e){if(e.data&&e.data.cases)show(e.data)})})();";

/// The lines up to the style.
pub open spec fn top_lines() -> Seq<Seq<char>> {
    seq![
        "<!doctype html>"@,
        "<html lang=\"zh-CN\">"@,
        "<head>"@,
        "<meta charset=\"utf-8\">"@,
        "<meta name=\"viewport\" content=\"width=device-width, initial-scale=1\">"@,
        "<meta name=\"generator\" content=\"apicase\">"@,
        "<title>apicase 运行报告</title>"@,
        "<style>"@,
    ]
}

/// The lines of the style.
pub open spec fn style_lines() -> Seq<Seq<char>> {
    seq![
        "body{font:14px/1.6 system-ui,sans-serif;margin:2rem auto;max-width:60rem;"@,
        "padding:0 1rem;color:#222}h1{font-size:1.2rem}.sum span{margin-right:1.2rem}"@,
        "details{border:1px solid #ddd;border-radius:6px;margin:.5rem 0;"@,
        "padding:.4rem .8rem}summary{cursor:pointer}.passed{color:#1a7f37}"@,
        ".failed{color:#cf222e}.error{color:#9a6700}.skipped{color:#777}"@,
        "pre{background:#f6f8fa;overflow:auto;padding:.5rem;white-space:pre-wrap;"@,
        "word-break:break-all}td{padding:0 .8rem 0 0;vertical-align:top}"@,
    ]
}

/// The lines after the style.
pub open spec fn frame_lines() -> Seq<Seq<char>> {
    seq![
        "</style>"@,
        "</head>"@,
        "<body>"@,
        "<h1>apicase 运行报告</h1>"@,
        "<div id=\"head\"></div>"@,
        "<div class=\"sum\" id=\"sum\"></div>"@,
        "<div id=\"cases\"></div>"@,
    ]
}

/// The lines of the page up to its data.
#[verifier::opaque]
pub open spec fn page_lines() -> Seq<Seq<char>> {
    top_lines() + style_lines() + frame_lines()
}

/// The page up to its data.
pub open spec fn page_head() -> Seq<char> {
    lines_text(page_lines())
}

/// Writes those lines.
fn push_top(out: &mut String)
    ensures
        final(out)@ == old(out)@ + lines_text(top_lines()),
{
    let ghost start = out@;
    assert(out@ =~= start + lines_text(seq![]));
    let ghost l0: Seq<Seq<char>> = seq![];
    push_line(out, "<!doctype html>", Ghost(start), Ghost(l0));
    let ghost l1 = l0.push("<!doctype html>"@);
    push_line(out, "<html lang=\"zh-CN\">", Ghost(start), Ghost(l1));
    let ghost l2 = l1.push("<html lang=\"zh-CN\">"@);
    push_line(out, "<head>", Ghost(start), Ghost(l2));
    let ghost l3 = l2.push("<head>"@);
    push_line(out, "<meta charset=\"utf-8\">", Ghost(start), Ghost(l3));
    let ghost l4 = l3.push("<meta charset=\"utf-8\">"@);
    push_line(out, "<meta name=\"viewport\" content=\"width=device-width, initial-scale=1\">", Ghost(start), Ghost(l4));
    let ghost l5 = l4.push("<meta name=\"viewport\" content=\"width=device-width, initial-scale=1\">"@);
    push_line(out, "<meta name=\"generator\" content=\"apicase\">", Ghost(start), Ghost(l5));
    let ghost l6 = l5.push("<meta name=\"generator\" content=\"apicase\">"@);
    push_line(out, "<title>apicase 运行报告</title>", Ghost(start), Ghost(l6));
    let ghost l7 = l6.push("<title>apicase 运行报告</title>"@);
    push_line(out, "<style>", Ghost(start), Ghost(l7));
    let ghost l8 = l7.push("<style>"@);
    assert(l8 =~= top_lines());
}

/// Writes those lines.
fn push_style(out: &mut String)
    ensures
        final(out)@ == old(out)@ + lines_text(style_lines()),
{
    let ghost start = out@;
    assert(out@ =~= start + lines_text(seq![]));
    let ghost l0: Seq<Seq<char>> = seq![];
    push_line(out, "body{font:14px/1.6 system-ui,sans-serif;margin:2rem auto;max-width:60rem;", Ghost(start), Ghost(l0));
    let ghost l1 = l0.push("body{font:14px/1.6 system-ui,sans-serif;margin:2rem auto;max-width:60rem;"@);
    push_line(out, "padding:0 1rem;color:#222}h1{font-size:1.2rem}.sum span{margin-right:1.2rem}", Ghost(start), Ghost(l1));
    let ghost l2 = l1.push("padding:0 1rem;color:#222}h1{font-size:1.2rem}.sum span{margin-right:1.2rem}"@);
    push_line(out, "details{border:1px solid #ddd;border-radius:6px;margin:.5rem 0;", Ghost(start), Ghost(l2));
    let ghost l3 = l2.push("details{border:1px solid #ddd;border-radius:6px;margin:.5rem 0;"@);
    push_line(out, "padding:.4rem .8rem}summary{cursor:pointer}.passed{color:#1a7f37}", Ghost(start), Ghost(l3));
    let ghost l4 = l3.push("padding:.4rem .8rem}summary{cursor:pointer}.passed{color:#1a7f37}"@);
    push_line(out, ".failed{color:#cf222e}.error{color:#9a6700}.skipped{color:#777}", Ghost(start), Ghost(l4));
    let ghost l5 = l4.push(".failed{color:#cf222e}.error{color:#9a6700}.skipped{color:#777}"@);
    push_line(out, "pre{background:#f6f8fa;overflow:auto;padding:.5rem;white-space:pre-wrap;", Ghost(start), Ghost(l5));
    let ghost l6 = l5.push("pre{background:#f6f8fa;overflow:auto;padding:.5rem;white-space:pre-wrap;"@);
    push_line(out, "word-break:break-all}td{padding:0 .8rem 0 0;vertical-align:top}", Ghost(start), Ghost(l6));
    let ghost l7 = l6.push("word-break:break-all}td{padding:0 .8rem 0 0;vertical-align:top}"@);
    assert(l7 =~= style_lines());
}

/// Writes those lines.
fn push_frame(out: &mut String)
    ensures
        final(out)@ == old(out)@ + lines_text(frame_lines()),
{
    let ghost start = out@;
    assert(out@ =~= start + lines_text(seq![]));
    let ghost l0: Seq<Seq<char>> = seq![];
    push_line(out, "</style>", Ghost(start), Ghost(l0));
    let ghost l1 = l0.push("</style>"@);
    push_line(out, "</head>", Ghost(start), Ghost(l1));
    let ghost l2 = l1.push("</head>"@);
    push_line(out, "<body>", Ghost(start), Ghost(l2));
    let ghost l3 = l2.push("<body>"@);
    push_line(out, "<h1>apicase 运行报告</h1>", Ghost(start), Ghost(l3));
    let ghost l4 = l3.push("<h1>apicase 运行报告</h1>"@);
    push_line(out, "<div id=\"head\"></div>", Ghost(start), Ghost(l4));
    let ghost l5 = l4.push("<div id=\"head\"></div>"@);
    push_line(out, "<div class=\"sum\" id=\"sum\"></div>", Ghost(start), Ghost(l5));
    let ghost l6 = l5.push("<div class=\"sum\" id=\"sum\"></div>"@);
    push_line(out, "<div id=\"cases\"></div>", Ghost(start), Ghost(l6));
    let ghost l7 = l6.push("<div id=\"cases\"></div>"@);
    assert(l7 =~= frame_lines());
}

/// The page up to its data.
pub fn page_start() -> (r: String)
    ensures
        r@ == page_head(),
{
    let mut out: String = String::new();
    push_top(&mut out);
    push_style(&mut out);
    push_frame(&mut out);
    proof {
        reveal(page_lines);
        lemma_lines_concat(top_lines(), style_lines());
        lemma_lines_concat(top_lines() + style_lines(), frame_lines());
        assert(out@ =~= page_head());
    }
    out
}

// ---- the data comes first --------------------------------------------------------------

/// Whether what begins the data begins nowhere among the first `n` characters of a text, by its
/// first three characters.
spec fn plain_to(s: Seq<char>, n: nat) -> bool
    decreases n,
{
    if n == 0 || n > s.len() {
        true
    } else {
        !(s[n - 1] == '<' && n + 1 < s.len() && s[n as int] == 's' && s[n as int + 1] == 'c') && plain_to(
            s,
            (n - 1) as nat,
        )
    }
}

/// Whether what begins the data begins nowhere in a text, by its first three characters.
spec fn plain(s: Seq<char>) -> bool {
    forall|k: int|
        0 <= k < s.len() - 2 ==> !(#[trigger] s[k] == '<' && s[k + 1] == 's' && s[k + 2] == 'c')
}

proof fn lemma_plain_to(s: Seq<char>, n: nat)
    requires
        plain_to(s, n),
        n <= s.len(),
    ensures
        forall|k: int|
            0 <= k < n && k < s.len() - 2 ==> !(#[trigger] s[k] == '<' && s[k + 1] == 's' && s[k + 2]
                == 'c'),
    decreases n,
{
    if n > 0 {
        lemma_plain_to(s, (n - 1) as nat);
    }
}

proof fn lemma_top_0()
    ensures
        plain("<!doctype html>"@),
{
    let s = "<!doctype html>"@;
    reveal_strlit("<!doctype html>");
    assert(plain_to(s, s.len())) by {
        reveal_with_fuel(plain_to, 16);
    }
    lemma_plain_to(s, s.len());
}

proof fn lemma_top_1()
    ensures
        plain("<html lang=\"zh-CN\">"@),
{
    let s = "<html lang=\"zh-CN\">"@;
    reveal_strlit("<html lang=\"zh-CN\">");
    assert(plain_to(s, s.len())) by {
        reveal_with_fuel(plain_to, 20);
    }
    lemma_plain_to(s, s.len());
}

proof fn lemma_top_2()
    ensures
        plain("<head>"@),
{
    let s = "<head>"@;
    reveal_strlit("<head>");
    assert(plain_to(s, s.len())) by {
        reveal_with_fuel(plain_to, 7);
    }
    lemma_plain_to(s, s.len());
}

proof fn lemma_top_3()
    ensures
        plain("<meta charset=\"utf-8\">"@),
{
    let s = "<meta charset=\"utf-8\">"@;
    reveal_strlit("<meta charset=\"utf-8\">");
    assert(plain_to(s, s.len())) by {
        reveal_with_fuel(plain_to, 23);
    }
    lemma_plain_to(s, s.len());
}

proof fn lemma_top_4()
    ensures
        plain("<meta name=\"viewport\" content=\"width=device-width, initial-scale=1\">"@),
{
    let s = "<meta name=\"viewport\" content=\"width=device-width, initial-scale=1\">"@;
    reveal_strlit("<meta name=\"viewport\" content=\"width=device-width, initial-scale=1\">");
    assert(plain_to(s, s.len())) by {
        reveal_with_fuel(plain_to, 69);
    }
    lemma_plain_to(s, s.len());
}

proof fn lemma_top_5()
    ensures
        plain("<meta name=\"generator\" content=\"apicase\">"@),
{
    let s = "<meta name=\"generator\" content=\"apicase\">"@;
    reveal_strlit("<meta name=\"generator\" content=\"apicase\">");
    assert(plain_to(s, s.len())) by {
        reveal_with_fuel(plain_to, 42);
    }
    lemma_plain_to(s, s.len());
}

proof fn lemma_top_6()
    ensures
        plain("<title>apicase 运行报告</title>"@),
{
    let s = "<title>apicase 运行报告</title>"@;
    reveal_strlit("<title>apicase 运行报告</title>");
    assert(plain_to(s, s.len())) by {
        reveal_with_fuel(plain_to, 28);
    }
    lemma_plain_to(s, s.len());
}

proof fn lemma_top_7()
    ensures
        plain("<style>"@),
{
    let s = "<style>"@;
    reveal_strlit("<style>");
    assert(plain_to(s, s.len())) by {
        reveal_with_fuel(plain_to, 8);
    }
    lemma_plain_to(s, s.len());
}

proof fn lemma_top()
    ensures
        forall|i: int| 0 <= i < top_lines().len() ==> plain(#[trigger] top_lines()[i]),
{
    lemma_top_0();
    lemma_top_1();
    lemma_top_2();
    lemma_top_3();
    lemma_top_4();
    lemma_top_5();
    lemma_top_6();
    lemma_top_7();
}

proof fn lemma_style_0()
    ensures
        plain("body{font:14px/1.6 system-ui,sans-serif;margin:2rem auto;max-width:60rem;"@),
{
    let s = "body{font:14px/1.6 system-ui,sans-serif;margin:2rem auto;max-width:60rem;"@;
    reveal_strlit("body{font:14px/1.6 system-ui,sans-serif;margin:2rem auto;max-width:60rem;");
    assert(plain_to(s, s.len())) by {
        reveal_with_fuel(plain_to, 74);
    }
    lemma_plain_to(s, s.len());
}

proof fn lemma_style_1()
    ensures
        plain("padding:0 1rem;color:#222}h1{font-size:1.2rem}.sum span{margin-right:1.2rem}"@),
{
    let s = "padding:0 1rem;color:#222}h1{font-size:1.2rem}.sum span{margin-right:1.2rem}"@;
    reveal_strlit("padding:0 1rem;color:#222}h1{font-size:1.2rem}.sum span{margin-right:1.2rem}");
    assert(plain_to(s, s.len())) by {
        reveal_with_fuel(plain_to, 77);
    }
    lemma_plain_to(s, s.len());
}

proof fn lemma_style_2()
    ensures
        plain("details{border:1px solid #ddd;border-radius:6px;margin:.5rem 0;"@),
{
    let s = "details{border:1px solid #ddd;border-radius:6px;margin:.5rem 0;"@;
    reveal_strlit("details{border:1px solid #ddd;border-radius:6px;margin:.5rem 0;");
    assert(plain_to(s, s.len())) by {
        reveal_with_fuel(plain_to, 64);
    }
    lemma_plain_to(s, s.len());
}

proof fn lemma_style_3()
    ensures
        plain("padding:.4rem .8rem}summary{cursor:pointer}.passed{color:#1a7f37}"@),
{
    let s = "padding:.4rem .8rem}summary{cursor:pointer}.passed{color:#1a7f37}"@;
    reveal_strlit("padding:.4rem .8rem}summary{cursor:pointer}.passed{color:#1a7f37}");
    assert(plain_to(s, s.len())) by {
        reveal_with_fuel(plain_to, 66);
    }
    lemma_plain_to(s, s.len());
}

proof fn lemma_style_4()
    ensures
        plain(".failed{color:#cf222e}.error{color:#9a6700}.skipped{color:#777}"@),
{
    let s = ".failed{color:#cf222e}.error{color:#9a6700}.skipped{color:#777}"@;
    reveal_strlit(".failed{color:#cf222e}.error{color:#9a6700}.skipped{color:#777}");
    assert(plain_to(s, s.len())) by {
        reveal_with_fuel(plain_to, 64);
    }
    lemma_plain_to(s, s.len());
}

proof fn lemma_style_5()
    ensures
        plain("pre{background:#f6f8fa;overflow:auto;padding:.5rem;white-space:pre-wrap;"@),
{
    let s = "pre{background:#f6f8fa;overflow:auto;padding:.5rem;white-space:pre-wrap;"@;
    reveal_strlit("pre{background:#f6f8fa;overflow:auto;padding:.5rem;white-space:pre-wrap;");
    assert(plain_to(s, s.len())) by {
        reveal_with_fuel(plain_to, 73);
    }
    lemma_plain_to(s, s.len());
}

proof fn lemma_style_6()
    ensures
        plain("word-break:break-all}td{padding:0 .8rem 0 0;vertical-align:top}"@),
{
    let s = "word-break:break-all}td{padding:0 .8rem 0 0;vertical-align:top}"@;
    reveal_strlit("word-break:break-all}td{padding:0 .8rem 0 0;vertical-align:top}");
    assert(plain_to(s, s.len())) by {
        reveal_with_fuel(plain_to, 64);
    }
    lemma_plain_to(s, s.len());
}

proof fn lemma_style()
    ensures
        forall|i: int| 0 <= i < style_lines().len() ==> plain(#[trigger] style_lines()[i]),
{
    lemma_style_0();
    lemma_style_1();
    lemma_style_2();
    lemma_style_3();
    lemma_style_4();
    lemma_style_5();
    lemma_style_6();
}

proof fn lemma_frame_0()
    ensures
        plain("</style>"@),
{
    let s = "</style>"@;
    reveal_strlit("</style>");
    assert(plain_to(s, s.len())) by {
        reveal_with_fuel(plain_to, 9);
    }
    lemma_plain_to(s, s.len());
}

proof fn lemma_frame_1()
    ensures
        plain("</head>"@),
{
    let s = "</head>"@;
    reveal_strlit("</head>");
    assert(plain_to(s, s.len())) by {
        reveal_with_fuel(plain_to, 8);
    }
    lemma_plain_to(s, s.len());
}

proof fn lemma_frame_2()
    ensures
        plain("<body>"@),
{
    let s = "<body>"@;
    reveal_strlit("<body>");
    assert(plain_to(s, s.len())) by {
        reveal_with_fuel(plain_to, 7);
    }
    lemma_plain_to(s, s.len());
}

proof fn lemma_frame_3()
    ensures
        plain("<h1>apicase 运行报告</h1>"@),
{
    let s = "<h1>apicase 运行报告</h1>"@;
    reveal_strlit("<h1>apicase 运行报告</h1>");
    assert(plain_to(s, s.len())) by {
        reveal_with_fuel(plain_to, 22);
    }
    lemma_plain_to(s, s.len());
}

proof fn lemma_frame_4()
    ensures
        plain("<div id=\"head\"></div>"@),
{
    let s = "<div id=\"head\"></div>"@;
    reveal_strlit("<div id=\"head\"></div>");
    assert(plain_to(s, s.len())) by {
        reveal_with_fuel(plain_to, 22);
    }
    lemma_plain_to(s, s.len());
}

proof fn lemma_frame_5()
    ensures
        plain("<div class=\"sum\" id=\"sum\"></div>"@),
{
    let s = "<div class=\"sum\" id=\"sum\"></div>"@;
    reveal_strlit("<div class=\"sum\" id=\"sum\"></div>");
    assert(plain_to(s, s.len())) by {
        reveal_with_fuel(plain_to, 33);
    }
    lemma_plain_to(s, s.len());
}

proof fn lemma_frame_6()
    ensures
        plain("<div id=\"cases\"></div>"@),
{
    let s = "<div id=\"cases\"></div>"@;
    reveal_strlit("<div id=\"cases\"></div>");
    assert(plain_to(s, s.len())) by {
        reveal_with_fuel(plain_to, 23);
    }
    lemma_plain_to(s, s.len());
}

proof fn lemma_frame()
    ensures
        forall|i: int| 0 <= i < frame_lines().len() ==> plain(#[trigger] frame_lines()[i]),
{
    lemma_frame_0();
    lemma_frame_1();
    lemma_frame_2();
    lemma_frame_3();
    lemma_frame_4();
    lemma_frame_5();
    lemma_frame_6();
}

proof fn lemma_lines_plain(ls: Seq<Seq<char>>)
    requires
        forall|i: int| 0 <= i < ls.len() ==> plain(#[trigger] ls[i]),
    ensures
        plain(lines_text(ls)),
        ls.len() > 0 ==> lines_text(ls).len() > 0 && lines_text(ls).last() == '\n',
        ls.len() == 0 ==> lines_text(ls).len() == 0,
    decreases ls.len(),
{
    if ls.len() > 0 {
        let d = ls.drop_last();
        assert forall|i: int| 0 <= i < d.len() implies plain(#[trigger] d[i]) by {
            assert(d[i] == ls[i]);
        }
        lemma_lines_plain(d);
        let a = lines_text(d);
        let l = ls[ls.len() - 1];
        let t = lines_text(ls);
        assert(t == a + l + seq!['\n']);
        let n = a.len() as int;
        assert forall|k: int| 0 <= k < t.len() - 2 implies !(#[trigger] t[k] == '<' && t[k + 1] == 's'
            && t[k + 2] == 'c') by {
            if k < n {
                assert(t[k] == a[k]);
                if k + 1 < n {
                    assert(t[k + 1] == a[k + 1]);
                    if k + 2 < n {
                        assert(t[k + 2] == a[k + 2]);
                    }
                }
            } else {
                assert(t[k] == l[k - n]);
                if k + 1 < n + l.len() {
                    assert(t[k + 1] == l[k + 1 - n]);
                    if k + 2 < n + l.len() {
                        assert(t[k + 2] == l[k + 2 - n]);
                    }
                }
            }
        }
    }
}

/// Nothing in front of the data of a page looks like the beginning of data.
pub proof fn lemma_data_first()
    ensures
        find_from(page_head() + DATA_OPEN@, DATA_OPEN@, 0) == Some(page_head().len() as int),
{
    reveal(page_lines);
    lemma_top();
    lemma_style();
    lemma_frame();
    let ls = page_lines();
    assert forall|i: int| 0 <= i < ls.len() implies plain(#[trigger] ls[i]) by {
        let (x, y) = (top_lines(), style_lines());
        if i < x.len() {
            assert(ls[i] == x[i]);
        } else if i < x.len() + y.len() {
            assert(ls[i] == y[i - x.len()]);
        } else {
            assert(ls[i] == frame_lines()[i - x.len() - y.len()]);
        }
    }
    lemma_lines_plain(ls);
    let h = page_head();
    let open = DATA_OPEN@;
    let t = h + open;
    let n = h.len() as int;
    assert(t.subrange(n, n + open.len()) =~= open);
    lemma_find_least(t, open, 0, n);
    lemma_find_occurs(t, open, 0);
    let k = find_from(t, open, 0)->0;
    if k < n {
        reveal_strlit("<script id=\"apicase-report\" type=\"application/json\">");
        assert(t.subrange(k, k + open.len())[0] == open[0]);
        assert(t.subrange(k, k + open.len())[1] == open[1]);
        assert(t.subrange(k, k + open.len())[2] == open[2]);
        assert(t[k] == h[k]);
        if k + 1 < n {
            assert(t[k + 1] == h[k + 1]);
            if k + 2 < n {
                assert(t[k + 2] == h[k + 2]);
            }
        }
    }
}

} // verus!
