//! The section of `AGENTS.md` that tells an agent how to work in a workspace.
//!
//! The file may be about much more than this tool. The section has marks around it, and only
//! what stands between them is ever replaced.
use crate::emit::no_back_newlines;
use crate::text::{
    at, begins, chars_of, copy_text, find, find_from, lemma_find_least, lemma_find_occurs,
    lemma_lines_concat, lines_text, occurs_at, opt_text, opt_view, push_line, same, sub_text,
};
use vstd::prelude::*;

verus! {

/// The file.
pub const AGENTS_FILE: &'static str = "AGENTS.md";

/// What became of the file.
#[derive(Debug, Clone, Copy, PartialEq, Eq, Structural)]
pub enum Written {
    Created,
    /// The section was put at the end.
    Appended,
    /// The section was there and was replaced.
    Updated,
    Unchanged,
}

/// What a file says of the section.
#[derive(Debug, Clone, Copy, PartialEq, Eq, Structural)]
pub enum State {
    Absent,
    /// It is there, but it is not what would be written now.
    Stale,
    Ready,
}

/// The mark in front of the section.
pub open spec fn begin_mark() -> Seq<char> {
    "<!-- apicase:begin -->"@
}

/// The mark behind the section.
pub open spec fn end_mark() -> Seq<char> {
    "<!-- apicase:end -->"@
}

// ---- the text --------------------------------------------------------------------------

/// The lines up to what is said of where the tool is.
pub open spec fn head_lines() -> Seq<Seq<char>> {
    seq![
        "## API 用例（apicase）"@,
        ""@,
        "本目录是 apicase 工作空间：一个 `.yml` = 一个用例，内部是 HTTP 请求的 DAG。"@,
        "用例是纯文本，**用你自己的文件读写工具直接编辑即可**。"@,
    ]
}

/// Where the tool is, for someone who cannot call it yet.
pub open spec fn fallback_lines() -> Seq<Seq<char>> {
    seq![
        ""@,
        "命令是 `apicase`。若 PATH 里没有，桌面版自带一份，在这些位置："@,
        "- macOS   `/Applications/Apicase.app/Contents/Resources/bin/apicase`"@,
        "- Windows `%LOCALAPPDATA%\\Programs\\Apicase\\resources\\bin\\apicase.exe`"@,
        "- Linux   `/usr/lib/apicase-desktop/bin/apicase`"@,
        ""@,
        "找到后请提示用户运行 `apicase init` 或打开「设置 → AI → 安装命令行工具」，装一次以后就不用再找。**不要自行下载安装。**"@,
    ]
}

/// The commands and what their results mean.
pub open spec fn tail_lines() -> Seq<Seq<char>> {
    seq![
        ""@,
        "| 命令 | 用途 |"@,
        "|---|---|"@,
        "| `apicase docs` | **写用例前先读**，YAML 格式规范（schema 靠猜必然写错） |"@,
        "| `apicase check` | 只解析不发请求，秒回。写完先过这一道 |"@,
        "| `apicase run --json` | 运行，返回统计与失败现场 |"@,
        "| `apicase ls` | 列出现有用例 |"@,
        ""@,
        "典型闭环：**查格式 → 写 .yml → check 自检 → run 验证 → 读失败现场再改**。"@,
        ""@,
        "登录态存在 `.apicase/cookies.yml`，是一份可直接编辑的 YAML（`apicase docs cookies` 看格式）——"@,
        "换 token、清会话都改这个文件，**没有对应的命令**。"@,
        ""@,
        "读结果时注意三种状态是三回事："@,
        "`failed` 是请求发出去了但断言没过（**被测服务**的问题）、"@,
        "`error` 是请求本身失败（网络 / TLS / 超时，多半是**环境或用例自身**的问题）、"@,
        "`skipped` 是上游挂了没轮到它跑。"@,
    ]
}

/// The lines between the marks.
#[verifier::opaque]
pub open spec fn body_lines(cli_on_path: bool) -> Seq<Seq<char>> {
    head_lines() + (if cli_on_path {
        seq![]
    } else {
        fallback_lines()
    }) + tail_lines()
}

/// The section with its marks, up to the mark behind it.
pub open spec fn marked(cli_on_path: bool) -> Seq<char> {
    begin_mark() + seq!['\n'] + lines_text(body_lines(cli_on_path)) + end_mark()
}

/// The section.
pub open spec fn section_text(cli_on_path: bool) -> Seq<char> {
    marked(cli_on_path) + seq!['\n']
}

/// Writes those lines.
fn push_head(out: &mut String)
    ensures
        final(out)@ == old(out)@ + lines_text(head_lines()),
{
    let ghost start = out@;
    assert(out@ =~= start + lines_text(seq![]));
    let ghost l0: Seq<Seq<char>> = seq![];
    push_line(out, "## API 用例（apicase）", Ghost(start), Ghost(l0));
    let ghost l1 = l0.push("## API 用例（apicase）"@);
    push_line(out, "", Ghost(start), Ghost(l1));
    let ghost l2 = l1.push(""@);
    push_line(out, "本目录是 apicase 工作空间：一个 `.yml` = 一个用例，内部是 HTTP 请求的 DAG。", Ghost(start), Ghost(l2));
    let ghost l3 = l2.push("本目录是 apicase 工作空间：一个 `.yml` = 一个用例，内部是 HTTP 请求的 DAG。"@);
    push_line(out, "用例是纯文本，**用你自己的文件读写工具直接编辑即可**。", Ghost(start), Ghost(l3));
    let ghost l4 = l3.push("用例是纯文本，**用你自己的文件读写工具直接编辑即可**。"@);
    assert(l4 =~= head_lines());
}

/// Writes those lines.
fn push_fallback(out: &mut String)
    ensures
        final(out)@ == old(out)@ + lines_text(fallback_lines()),
{
    let ghost start = out@;
    assert(out@ =~= start + lines_text(seq![]));
    let ghost l0: Seq<Seq<char>> = seq![];
    push_line(out, "", Ghost(start), Ghost(l0));
    let ghost l1 = l0.push(""@);
    push_line(out, "命令是 `apicase`。若 PATH 里没有，桌面版自带一份，在这些位置：", Ghost(start), Ghost(l1));
    let ghost l2 = l1.push("命令是 `apicase`。若 PATH 里没有，桌面版自带一份，在这些位置："@);
    push_line(out, "- macOS   `/Applications/Apicase.app/Contents/Resources/bin/apicase`", Ghost(start), Ghost(l2));
    let ghost l3 = l2.push("- macOS   `/Applications/Apicase.app/Contents/Resources/bin/apicase`"@);
    push_line(out, "- Windows `%LOCALAPPDATA%\\Programs\\Apicase\\resources\\bin\\apicase.exe`", Ghost(start), Ghost(l3));
    let ghost l4 = l3.push("- Windows `%LOCALAPPDATA%\\Programs\\Apicase\\resources\\bin\\apicase.exe`"@);
    push_line(out, "- Linux   `/usr/lib/apicase-desktop/bin/apicase`", Ghost(start), Ghost(l4));
    let ghost l5 = l4.push("- Linux   `/usr/lib/apicase-desktop/bin/apicase`"@);
    push_line(out, "", Ghost(start), Ghost(l5));
    let ghost l6 = l5.push(""@);
    push_line(out, "找到后请提示用户运行 `apicase init` 或打开「设置 → AI → 安装命令行工具」，装一次以后就不用再找。**不要自行下载安装。**", Ghost(start), Ghost(l6));
    let ghost l7 = l6.push("找到后请提示用户运行 `apicase init` 或打开「设置 → AI → 安装命令行工具」，装一次以后就不用再找。**不要自行下载安装。**"@);
    assert(l7 =~= fallback_lines());
}

/// Writes those lines.
fn push_tail(out: &mut String)
    ensures
        final(out)@ == old(out)@ + lines_text(tail_lines()),
{
    let ghost start = out@;
    assert(out@ =~= start + lines_text(seq![]));
    let ghost l0: Seq<Seq<char>> = seq![];
    push_line(out, "", Ghost(start), Ghost(l0));
    let ghost l1 = l0.push(""@);
    push_line(out, "| 命令 | 用途 |", Ghost(start), Ghost(l1));
    let ghost l2 = l1.push("| 命令 | 用途 |"@);
    push_line(out, "|---|---|", Ghost(start), Ghost(l2));
    let ghost l3 = l2.push("|---|---|"@);
    push_line(out, "| `apicase docs` | **写用例前先读**，YAML 格式规范（schema 靠猜必然写错） |", Ghost(start), Ghost(l3));
    let ghost l4 = l3.push("| `apicase docs` | **写用例前先读**，YAML 格式规范（schema 靠猜必然写错） |"@);
    push_line(out, "| `apicase check` | 只解析不发请求，秒回。写完先过这一道 |", Ghost(start), Ghost(l4));
    let ghost l5 = l4.push("| `apicase check` | 只解析不发请求，秒回。写完先过这一道 |"@);
    push_line(out, "| `apicase run --json` | 运行，返回统计与失败现场 |", Ghost(start), Ghost(l5));
    let ghost l6 = l5.push("| `apicase run --json` | 运行，返回统计与失败现场 |"@);
    push_line(out, "| `apicase ls` | 列出现有用例 |", Ghost(start), Ghost(l6));
    let ghost l7 = l6.push("| `apicase ls` | 列出现有用例 |"@);
    push_line(out, "", Ghost(start), Ghost(l7));
    let ghost l8 = l7.push(""@);
    push_line(out, "典型闭环：**查格式 → 写 .yml → check 自检 → run 验证 → 读失败现场再改**。", Ghost(start), Ghost(l8));
    let ghost l9 = l8.push("典型闭环：**查格式 → 写 .yml → check 自检 → run 验证 → 读失败现场再改**。"@);
    push_line(out, "", Ghost(start), Ghost(l9));
    let ghost l10 = l9.push(""@);
    push_line(out, "登录态存在 `.apicase/cookies.yml`，是一份可直接编辑的 YAML（`apicase docs cookies` 看格式）——", Ghost(start), Ghost(l10));
    let ghost l11 = l10.push("登录态存在 `.apicase/cookies.yml`，是一份可直接编辑的 YAML（`apicase docs cookies` 看格式）——"@);
    push_line(out, "换 token、清会话都改这个文件，**没有对应的命令**。", Ghost(start), Ghost(l11));
    let ghost l12 = l11.push("换 token、清会话都改这个文件，**没有对应的命令**。"@);
    push_line(out, "", Ghost(start), Ghost(l12));
    let ghost l13 = l12.push(""@);
    push_line(out, "读结果时注意三种状态是三回事：", Ghost(start), Ghost(l13));
    let ghost l14 = l13.push("读结果时注意三种状态是三回事："@);
    push_line(out, "`failed` 是请求发出去了但断言没过（**被测服务**的问题）、", Ghost(start), Ghost(l14));
    let ghost l15 = l14.push("`failed` 是请求发出去了但断言没过（**被测服务**的问题）、"@);
    push_line(out, "`error` 是请求本身失败（网络 / TLS / 超时，多半是**环境或用例自身**的问题）、", Ghost(start), Ghost(l15));
    let ghost l16 = l15.push("`error` 是请求本身失败（网络 / TLS / 超时，多半是**环境或用例自身**的问题）、"@);
    push_line(out, "`skipped` 是上游挂了没轮到它跑。", Ghost(start), Ghost(l16));
    let ghost l17 = l16.push("`skipped` 是上游挂了没轮到它跑。"@);
    assert(l17 =~= tail_lines());
}

/// The section.
pub fn section(cli_on_path: bool) -> (r: String)
    ensures
        r@ == section_text(cli_on_path),
{
    let mut out: String = copy_text("<!-- apicase:begin -->");
    out.push('\n');
    let ghost start = out@;
    push_head(&mut out);
    if !cli_on_path {
        push_fallback(&mut out);
    }
    push_tail(&mut out);
    proof {
        reveal(body_lines);
        let none: Seq<Seq<char>> = seq![];
        let mid = if cli_on_path {
            none
        } else {
            fallback_lines()
        };
        lemma_lines_concat(head_lines(), mid);
        lemma_lines_concat(head_lines() + mid, tail_lines());
        assert(out@ =~= start + lines_text(body_lines(cli_on_path)));
    }
    out.push_str("<!-- apicase:end -->");
    out.push('\n');
    assert(out@ =~= section_text(cli_on_path));
    out
}

// ---- replacing -------------------------------------------------------------------------

/// The last position in front of `e` at which `p` occurs in `s`.
pub open spec fn last_before(s: Seq<char>, p: Seq<char>, e: int) -> Option<int>
    decreases e,
{
    if e <= 0 {
        None
    } else if occurs_at(s, p, e - 1) {
        Some(e - 1)
    } else {
        last_before(s, p, e - 1)
    }
}

/// Where the section of a file stands: up to the first mark behind a section that has a mark in
/// front of it, and from the last such mark. What follows a stray mark is not the section's.
pub open spec fn section_in(existing: Seq<char>) -> Option<(int, int)> {
    match find_from(existing, begin_mark(), 0) {
        Some(first) => match find_from(existing, end_mark(), first) {
            Some(e) => match last_before(existing, begin_mark(), e) {
                Some(b) => Some((b, e + end_mark().len())),
                None => None,
            },
            None => None,
        },
        None => None,
    }
}

/// A file with its section replaced; nothing for a file without both marks in order.
pub open spec fn spliced(existing: Seq<char>, body: Seq<char>) -> Option<Seq<char>> {
    match section_in(existing) {
        Some((b, e)) => Some(existing.take(b) + no_back_newlines(body) + existing.skip(e)),
        None => None,
    }
}

fn strip_newlines(s: &str) -> (r: String)
    ensures
        r@ == no_back_newlines(s@),
{
    let cs: Vec<char> = chars_of(s);
    let mut n: usize = cs.len();
    assert(cs@.take(n as int) =~= s@);
    while n > 0 && cs[n - 1] == '\n'
        invariant
            n <= cs@.len(),
            no_back_newlines(s@) == no_back_newlines(cs@.take(n as int)),
        decreases n,
    {
        assert(cs@.take(n as int).drop_last() =~= cs@.take(n - 1));
        n = n - 1;
    }
    let r: String = sub_text(cs.as_slice(), 0, n);
    assert(r@ =~= cs@.take(n as int));
    r
}

/// A file with its section replaced.
pub fn splice(existing: &str, body: &str) -> (r: Option<String>)
    ensures
        opt_view(r) == spliced(existing@, body@),
{
    let cs: Vec<char> = chars_of(existing);
    let bm: Vec<char> = chars_of("<!-- apicase:begin -->");
    let em: Vec<char> = chars_of("<!-- apicase:end -->");
    proof {
        reveal_strlit("<!-- apicase:begin -->");
        reveal_strlit("<!-- apicase:end -->");
    }
    let first: usize = match find(cs.as_slice(), bm.as_slice(), 0) {
        Some(b) => b,
        None => {
            return None;
        },
    };
    let e: usize = match find(cs.as_slice(), em.as_slice(), first) {
        Some(e) => e,
        None => {
            return None;
        },
    };
    proof {
        lemma_section_bounds(cs@);
    }
    let mut b: usize = e;
    while b > 0 && !at(cs.as_slice(), bm.as_slice(), b - 1)
        invariant
            b <= e,
            bm@ == begin_mark(),
            last_before(cs@, begin_mark(), e as int) == last_before(cs@, begin_mark(), b as int),
        decreases b,
    {
        b = b - 1;
    }
    if b == 0 {
        return None;
    }
    b = b - 1;
    let n: usize = cs.len();
    let mut out: String = sub_text(cs.as_slice(), 0, b);
    assert(out@ =~= existing@.take(b as int));
    out.push_str(strip_newlines(body).as_str());
    let rest: String = sub_text(cs.as_slice(), e + em.len(), n);
    assert(rest@ =~= existing@.skip(e + end_mark().len()));
    out.push_str(rest.as_str());
    Some(out)
}

/// What a file becomes, and what that is called. A file without the section gets it at the end,
/// with an empty line in front of it.
pub open spec fn outcome(existing: Option<Seq<char>>, cli_on_path: bool) -> (Seq<char>, Written) {
    let body = section_text(cli_on_path);
    match existing {
        None => (body, Written::Created),
        Some(text) => match spliced(text, body) {
            Some(t) => if t == text {
                (text, Written::Unchanged)
            } else {
                (t, Written::Updated)
            },
            None => (
                text + (if text.len() > 0 && text.last() == '\n' {
                    "\n"@
                } else {
                    "\n\n"@
                }) + body,
                Written::Appended,
            ),
        },
    }
}

/// What a file becomes, and what that is called.
pub fn write(existing: Option<&str>, cli_on_path: bool) -> (r: (String, Written))
    ensures
        (r.0@, r.1) == outcome(opt_text(existing), cli_on_path),
{
    let body: String = section(cli_on_path);
    let text: &str = match existing {
        Some(t) => t,
        None => {
            return (body, Written::Created);
        },
    };
    match splice(text, body.as_str()) {
        Some(t) => if same(t.as_str(), text) {
            (t, Written::Unchanged)
        } else {
            (t, Written::Updated)
        },
        None => {
            let cs: Vec<char> = chars_of(text);
            let mut out: String = copy_text(text);
            if cs.len() > 0 && cs[cs.len() - 1] == '\n' {
                out.push_str("\n");
            } else {
                out.push_str("\n\n");
            }
            out.push_str(body.as_str());
            (out, Written::Appended)
        },
    }
}

/// What a file says of the section.
pub open spec fn state_of(existing: Option<Seq<char>>, cli_on_path: bool) -> State {
    match existing {
        None => State::Absent,
        Some(text) => match spliced(text, section_text(cli_on_path)) {
            Some(t) => if t == text {
                State::Ready
            } else {
                State::Stale
            },
            None => State::Absent,
        },
    }
}

/// What a file says of the section.
pub fn state(existing: Option<&str>, cli_on_path: bool) -> (r: State)
    ensures
        r == state_of(opt_text(existing), cli_on_path),
{
    let text: &str = match existing {
        Some(t) => t,
        None => {
            return State::Absent;
        },
    };
    let body: String = section(cli_on_path);
    match splice(text, body.as_str()) {
        Some(t) => if same(t.as_str(), text) {
            State::Ready
        } else {
            State::Stale
        },
        None => State::Absent,
    }
}

// ---- laws ------------------------------------------------------------------------------

/// Whether none of the first `n` characters of a text is `c`.
spec fn free_of(s: Seq<char>, c: char, n: nat) -> bool
    decreases n,
{
    if n == 0 || n > s.len() {
        true
    } else {
        s[n - 1] != c && free_of(s, c, (n - 1) as nat)
    }
}

proof fn lemma_free_of(s: Seq<char>, c: char, n: nat)
    requires
        free_of(s, c, n),
        n <= s.len(),
    ensures
        forall|i: int| 0 <= i < n ==> s[i] != c,
    decreases n,
{
    if n > 0 {
        lemma_free_of(s, c, (n - 1) as nat);
    }
}

proof fn lemma_head_line_0()
    ensures
        free_of("## API 用例（apicase）"@, '<', "## API 用例（apicase）"@.len()),
{
    reveal_strlit("## API 用例（apicase）");
    reveal_with_fuel(free_of, 19);
}

proof fn lemma_head_line_2()
    ensures
        free_of("本目录是 apicase 工作空间：一个 `.yml` = 一个用例，内部是 HTTP 请求的 DAG。"@, '<', "本目录是 apicase 工作空间：一个 `.yml` = 一个用例，内部是 HTTP 请求的 DAG。"@.len()),
{
    reveal_strlit("本目录是 apicase 工作空间：一个 `.yml` = 一个用例，内部是 HTTP 请求的 DAG。");
    reveal_with_fuel(free_of, 53);
}

proof fn lemma_head_line_3()
    ensures
        free_of("用例是纯文本，**用你自己的文件读写工具直接编辑即可**。"@, '<', "用例是纯文本，**用你自己的文件读写工具直接编辑即可**。"@.len()),
{
    reveal_strlit("用例是纯文本，**用你自己的文件读写工具直接编辑即可**。");
    reveal_with_fuel(free_of, 30);
}

proof fn lemma_head_plain()
    ensures
        forall|i: int, j: int|
            0 <= i < head_lines().len() && 0 <= j < head_lines()[i].len() ==> head_lines()[i][j] != '<',
{
    reveal_strlit("");
    lemma_head_line_0();
    lemma_free_of("## API 用例（apicase）"@, '<', "## API 用例（apicase）"@.len());
    lemma_head_line_2();
    lemma_free_of("本目录是 apicase 工作空间：一个 `.yml` = 一个用例，内部是 HTTP 请求的 DAG。"@, '<', "本目录是 apicase 工作空间：一个 `.yml` = 一个用例，内部是 HTTP 请求的 DAG。"@.len());
    lemma_head_line_3();
    lemma_free_of("用例是纯文本，**用你自己的文件读写工具直接编辑即可**。"@, '<', "用例是纯文本，**用你自己的文件读写工具直接编辑即可**。"@.len());
}

proof fn lemma_fallback_line_1()
    ensures
        free_of("命令是 `apicase`。若 PATH 里没有，桌面版自带一份，在这些位置："@, '<', "命令是 `apicase`。若 PATH 里没有，桌面版自带一份，在这些位置："@.len()),
{
    reveal_strlit("命令是 `apicase`。若 PATH 里没有，桌面版自带一份，在这些位置：");
    reveal_with_fuel(free_of, 40);
}

proof fn lemma_fallback_line_2()
    ensures
        free_of("- macOS   `/Applications/Apicase.app/Contents/Resources/bin/apicase`"@, '<', "- macOS   `/Applications/Apicase.app/Contents/Resources/bin/apicase`"@.len()),
{
    reveal_strlit("- macOS   `/Applications/Apicase.app/Contents/Resources/bin/apicase`");
    reveal_with_fuel(free_of, 69);
}

proof fn lemma_fallback_line_3()
    ensures
        free_of("- Windows `%LOCALAPPDATA%\\Programs\\Apicase\\resources\\bin\\apicase.exe`"@, '<', "- Windows `%LOCALAPPDATA%\\Programs\\Apicase\\resources\\bin\\apicase.exe`"@.len()),
{
    reveal_strlit("- Windows `%LOCALAPPDATA%\\Programs\\Apicase\\resources\\bin\\apicase.exe`");
    reveal_with_fuel(free_of, 70);
}

proof fn lemma_fallback_line_4()
    ensures
        free_of("- Linux   `/usr/lib/apicase-desktop/bin/apicase`"@, '<', "- Linux   `/usr/lib/apicase-desktop/bin/apicase`"@.len()),
{
    reveal_strlit("- Linux   `/usr/lib/apicase-desktop/bin/apicase`");
    reveal_with_fuel(free_of, 49);
}

proof fn lemma_fallback_line_6()
    ensures
        free_of("找到后请提示用户运行 `apicase init` 或打开「设置 → AI → 安装命令行工具」，装一次以后就不用再找。**不要自行下载安装。**"@, '<', "找到后请提示用户运行 `apicase init` 或打开「设置 → AI → 安装命令行工具」，装一次以后就不用再找。**不要自行下载安装。**"@.len()),
{
    reveal_strlit("找到后请提示用户运行 `apicase init` 或打开「设置 → AI → 安装命令行工具」，装一次以后就不用再找。**不要自行下载安装。**");
    reveal_with_fuel(free_of, 74);
}

proof fn lemma_fallback_plain()
    ensures
        forall|i: int, j: int|
            0 <= i < fallback_lines().len() && 0 <= j < fallback_lines()[i].len() ==> fallback_lines()[i][j] != '<',
{
    reveal_strlit("");
    lemma_fallback_line_1();
    lemma_free_of("命令是 `apicase`。若 PATH 里没有，桌面版自带一份，在这些位置："@, '<', "命令是 `apicase`。若 PATH 里没有，桌面版自带一份，在这些位置："@.len());
    lemma_fallback_line_2();
    lemma_free_of("- macOS   `/Applications/Apicase.app/Contents/Resources/bin/apicase`"@, '<', "- macOS   `/Applications/Apicase.app/Contents/Resources/bin/apicase`"@.len());
    lemma_fallback_line_3();
    lemma_free_of("- Windows `%LOCALAPPDATA%\\Programs\\Apicase\\resources\\bin\\apicase.exe`"@, '<', "- Windows `%LOCALAPPDATA%\\Programs\\Apicase\\resources\\bin\\apicase.exe`"@.len());
    lemma_fallback_line_4();
    lemma_free_of("- Linux   `/usr/lib/apicase-desktop/bin/apicase`"@, '<', "- Linux   `/usr/lib/apicase-desktop/bin/apicase`"@.len());
    lemma_fallback_line_6();
    lemma_free_of("找到后请提示用户运行 `apicase init` 或打开「设置 → AI → 安装命令行工具」，装一次以后就不用再找。**不要自行下载安装。**"@, '<', "找到后请提示用户运行 `apicase init` 或打开「设置 → AI → 安装命令行工具」，装一次以后就不用再找。**不要自行下载安装。**"@.len());
}

proof fn lemma_tail_line_1()
    ensures
        free_of("| 命令 | 用途 |"@, '<', "| 命令 | 用途 |"@.len()),
{
    reveal_strlit("| 命令 | 用途 |");
    reveal_with_fuel(free_of, 12);
}

proof fn lemma_tail_line_2()
    ensures
        free_of("|---|---|"@, '<', "|---|---|"@.len()),
{
    reveal_strlit("|---|---|");
    reveal_with_fuel(free_of, 10);
}

proof fn lemma_tail_line_3()
    ensures
        free_of("| `apicase docs` | **写用例前先读**，YAML 格式规范（schema 靠猜必然写错） |"@, '<', "| `apicase docs` | **写用例前先读**，YAML 格式规范（schema 靠猜必然写错） |"@.len()),
{
    reveal_strlit("| `apicase docs` | **写用例前先读**，YAML 格式规范（schema 靠猜必然写错） |");
    reveal_with_fuel(free_of, 57);
}

proof fn lemma_tail_line_4()
    ensures
        free_of("| `apicase check` | 只解析不发请求，秒回。写完先过这一道 |"@, '<', "| `apicase check` | 只解析不发请求，秒回。写完先过这一道 |"@.len()),
{
    reveal_strlit("| `apicase check` | 只解析不发请求，秒回。写完先过这一道 |");
    reveal_with_fuel(free_of, 41);
}

proof fn lemma_tail_line_5()
    ensures
        free_of("| `apicase run --json` | 运行，返回统计与失败现场 |"@, '<', "| `apicase run --json` | 运行，返回统计与失败现场 |"@.len()),
{
    reveal_strlit("| `apicase run --json` | 运行，返回统计与失败现场 |");
    reveal_with_fuel(free_of, 40);
}

proof fn lemma_tail_line_6()
    ensures
        free_of("| `apicase ls` | 列出现有用例 |"@, '<', "| `apicase ls` | 列出现有用例 |"@.len()),
{
    reveal_strlit("| `apicase ls` | 列出现有用例 |");
    reveal_with_fuel(free_of, 26);
}

proof fn lemma_tail_line_8()
    ensures
        free_of("典型闭环：**查格式 → 写 .yml → check 自检 → run 验证 → 读失败现场再改**。"@, '<', "典型闭环：**查格式 → 写 .yml → check 自检 → run 验证 → 读失败现场再改**。"@.len()),
{
    reveal_strlit("典型闭环：**查格式 → 写 .yml → check 自检 → run 验证 → 读失败现场再改**。");
    reveal_with_fuel(free_of, 53);
}

proof fn lemma_tail_line_10()
    ensures
        free_of("登录态存在 `.apicase/cookies.yml`，是一份可直接编辑的 YAML（`apicase docs cookies` 看格式）——"@, '<', "登录态存在 `.apicase/cookies.yml`，是一份可直接编辑的 YAML（`apicase docs cookies` 看格式）——"@.len()),
{
    reveal_strlit("登录态存在 `.apicase/cookies.yml`，是一份可直接编辑的 YAML（`apicase docs cookies` 看格式）——");
    reveal_with_fuel(free_of, 74);
}

proof fn lemma_tail_line_11()
    ensures
        free_of("换 token、清会话都改这个文件，**没有对应的命令**。"@, '<', "换 token、清会话都改这个文件，**没有对应的命令**。"@.len()),
{
    reveal_strlit("换 token、清会话都改这个文件，**没有对应的命令**。");
    reveal_with_fuel(free_of, 31);
}

proof fn lemma_tail_line_13()
    ensures
        free_of("读结果时注意三种状态是三回事："@, '<', "读结果时注意三种状态是三回事："@.len()),
{
    reveal_strlit("读结果时注意三种状态是三回事：");
    reveal_with_fuel(free_of, 16);
}

proof fn lemma_tail_line_14()
    ensures
        free_of("`failed` 是请求发出去了但断言没过（**被测服务**的问题）、"@, '<', "`failed` 是请求发出去了但断言没过（**被测服务**的问题）、"@.len()),
{
    reveal_strlit("`failed` 是请求发出去了但断言没过（**被测服务**的问题）、");
    reveal_with_fuel(free_of, 36);
}

proof fn lemma_tail_line_15()
    ensures
        free_of("`error` 是请求本身失败（网络 / TLS / 超时，多半是**环境或用例自身**的问题）、"@, '<', "`error` 是请求本身失败（网络 / TLS / 超时，多半是**环境或用例自身**的问题）、"@.len()),
{
    reveal_strlit("`error` 是请求本身失败（网络 / TLS / 超时，多半是**环境或用例自身**的问题）、");
    reveal_with_fuel(free_of, 50);
}

proof fn lemma_tail_line_16()
    ensures
        free_of("`skipped` 是上游挂了没轮到它跑。"@, '<', "`skipped` 是上游挂了没轮到它跑。"@.len()),
{
    reveal_strlit("`skipped` 是上游挂了没轮到它跑。");
    reveal_with_fuel(free_of, 22);
}

proof fn lemma_tail_plain()
    ensures
        forall|i: int, j: int|
            0 <= i < tail_lines().len() && 0 <= j < tail_lines()[i].len() ==> tail_lines()[i][j] != '<',
{
    reveal_strlit("");
    lemma_tail_line_1();
    lemma_free_of("| 命令 | 用途 |"@, '<', "| 命令 | 用途 |"@.len());
    lemma_tail_line_2();
    lemma_free_of("|---|---|"@, '<', "|---|---|"@.len());
    lemma_tail_line_3();
    lemma_free_of("| `apicase docs` | **写用例前先读**，YAML 格式规范（schema 靠猜必然写错） |"@, '<', "| `apicase docs` | **写用例前先读**，YAML 格式规范（schema 靠猜必然写错） |"@.len());
    lemma_tail_line_4();
    lemma_free_of("| `apicase check` | 只解析不发请求，秒回。写完先过这一道 |"@, '<', "| `apicase check` | 只解析不发请求，秒回。写完先过这一道 |"@.len());
    lemma_tail_line_5();
    lemma_free_of("| `apicase run --json` | 运行，返回统计与失败现场 |"@, '<', "| `apicase run --json` | 运行，返回统计与失败现场 |"@.len());
    lemma_tail_line_6();
    lemma_free_of("| `apicase ls` | 列出现有用例 |"@, '<', "| `apicase ls` | 列出现有用例 |"@.len());
    lemma_tail_line_8();
    lemma_free_of("典型闭环：**查格式 → 写 .yml → check 自检 → run 验证 → 读失败现场再改**。"@, '<', "典型闭环：**查格式 → 写 .yml → check 自检 → run 验证 → 读失败现场再改**。"@.len());
    lemma_tail_line_10();
    lemma_free_of("登录态存在 `.apicase/cookies.yml`，是一份可直接编辑的 YAML（`apicase docs cookies` 看格式）——"@, '<', "登录态存在 `.apicase/cookies.yml`，是一份可直接编辑的 YAML（`apicase docs cookies` 看格式）——"@.len());
    lemma_tail_line_11();
    lemma_free_of("换 token、清会话都改这个文件，**没有对应的命令**。"@, '<', "换 token、清会话都改这个文件，**没有对应的命令**。"@.len());
    lemma_tail_line_13();
    lemma_free_of("读结果时注意三种状态是三回事："@, '<', "读结果时注意三种状态是三回事："@.len());
    lemma_tail_line_14();
    lemma_free_of("`failed` 是请求发出去了但断言没过（**被测服务**的问题）、"@, '<', "`failed` 是请求发出去了但断言没过（**被测服务**的问题）、"@.len());
    lemma_tail_line_15();
    lemma_free_of("`error` 是请求本身失败（网络 / TLS / 超时，多半是**环境或用例自身**的问题）、"@, '<', "`error` 是请求本身失败（网络 / TLS / 超时，多半是**环境或用例自身**的问题）、"@.len());
    lemma_tail_line_16();
    lemma_free_of("`skipped` 是上游挂了没轮到它跑。"@, '<', "`skipped` 是上游挂了没轮到它跑。"@.len());
}

proof fn lemma_lines_plain(ls: Seq<Seq<char>>)
    requires
        forall|i: int, j: int| 0 <= i < ls.len() && 0 <= j < ls[i].len() ==> ls[i][j] != '<',
    ensures
        forall|k: int| 0 <= k < lines_text(ls).len() ==> lines_text(ls)[k] != '<',
    decreases ls.len(),
{
    if ls.len() > 0 {
        let d = ls.drop_last();
        assert forall|i: int, j: int| 0 <= i < d.len() && 0 <= j < d[i].len() implies d[i][j] != '<' by {
            assert(d[i] == ls[i]);
        }
        lemma_lines_plain(d);
        let t = lines_text(ls);
        let a = lines_text(d);
        assert forall|k: int| 0 <= k < t.len() implies t[k] != '<' by {
            if k < a.len() {
                assert(t[k] == a[k]);
            } else if k < a.len() + ls.last().len() {
                assert(t[k] == ls[ls.len() - 1][k - a.len()]);
            }
        }
    }
}

proof fn lemma_body_plain(cli_on_path: bool)
    ensures
        forall|k: int|
            0 <= k < lines_text(body_lines(cli_on_path)).len() ==> lines_text(
                body_lines(cli_on_path),
            )[k] != '<',
{
    reveal(body_lines);
    lemma_head_plain();
    lemma_fallback_plain();
    lemma_tail_plain();
    let h = head_lines();
    let none: Seq<Seq<char>> = seq![];
    let f = if cli_on_path {
        none
    } else {
        fallback_lines()
    };
    let t = tail_lines();
    let ls = body_lines(cli_on_path);
    assert(ls =~= h + f + t);
    assert forall|i: int, j: int| 0 <= i < ls.len() && 0 <= j < ls[i].len() implies ls[i][j] != '<' by {
        if i < h.len() {
            assert(ls[i] == h[i]);
        } else if i < h.len() + f.len() {
            assert(ls[i] == f[i - h.len()]);
        } else {
            assert(ls[i] == t[i - h.len() - f.len()]);
        }
    }
    lemma_lines_plain(ls);
}

/// The first occurrence is where the search ends.
proof fn lemma_find_is(s: Seq<char>, p: Seq<char>, i: int, j: int)
    requires
        0 <= i <= j,
        occurs_at(s, p, j),
        forall|k: int| i <= k < j ==> !occurs_at(s, p, k),
    ensures
        find_from(s, p, i) == Some(j),
    decreases j - i,
{
    if i < j {
        lemma_find_is(s, p, i + 1, j);
    }
}

/// The last occurrence is where the search backwards ends.
proof fn lemma_last_is(s: Seq<char>, p: Seq<char>, e: int, j: int)
    requires
        0 <= j < e,
        occurs_at(s, p, j),
        forall|k: int| j < k < e ==> !occurs_at(s, p, k),
    ensures
        last_before(s, p, e) == Some(j),
    decreases e - j,
{
    if j < e - 1 {
        lemma_last_is(s, p, e - 1, j);
    }
}

/// What `last_before` finds is an occurrence, and none that is later.
proof fn lemma_last_occurs(s: Seq<char>, p: Seq<char>, e: int, j: int)
    requires
        occurs_at(s, p, j),
        j < e,
    ensures
        last_before(s, p, e) is Some,
        j <= last_before(s, p, e)->0 < e,
        occurs_at(s, p, last_before(s, p, e)->0),
    decreases e,
{
    if !occurs_at(s, p, e - 1) {
        lemma_last_occurs(s, p, e - 1, j);
    }
}

/// No mark stands where the other stands.
proof fn lemma_marks_differ(s: Seq<char>, k: int)
    requires
        occurs_at(s, begin_mark(), k),
    ensures
        !occurs_at(s, end_mark(), k),
{
    reveal_strlit("<!-- apicase:begin -->");
    reveal_strlit("<!-- apicase:end -->");
    assert(s.subrange(k, k + begin_mark().len())[13] == s[k + 13]);
    if occurs_at(s, end_mark(), k) {
        assert(s.subrange(k, k + end_mark().len())[13] == s[k + 13]);
    }
}

/// Where the marks of a section stand. In front of the mark behind it no other such mark
/// follows a mark in front.
proof fn lemma_section_bounds(s: Seq<char>)
    ensures
        match section_in(s) {
            Some((b, e)) => {
                let end = e - end_mark().len();
                &&& 0 <= b < end
                &&& e <= s.len()
                &&& occurs_at(s, begin_mark(), b)
                &&& occurs_at(s, end_mark(), end)
                &&& forall|j: int, k: int|
                    #![trigger occurs_at(s, begin_mark(), j), occurs_at(s, end_mark(), k)]
                    j <= k < end && occurs_at(s, begin_mark(), j) ==> !occurs_at(s, end_mark(), k)
            },
            None => forall|j: int, k: int|
                #![trigger occurs_at(s, begin_mark(), j), occurs_at(s, end_mark(), k)]
                j <= k && occurs_at(s, begin_mark(), j) ==> !occurs_at(s, end_mark(), k),
        },
{
    let first = find_from(s, begin_mark(), 0);
    if first is Some {
        lemma_find_occurs(s, begin_mark(), 0);
        lemma_marks_differ(s, first->0);
        let end = find_from(s, end_mark(), first->0);
        if end is Some {
            lemma_find_occurs(s, end_mark(), first->0);
            lemma_last_occurs(s, begin_mark(), end->0, first->0);
        }
    }
    assert forall|j: int, k: int|
        #![trigger occurs_at(s, begin_mark(), j), occurs_at(s, end_mark(), k)]
        j <= k && occurs_at(s, begin_mark(), j) && occurs_at(s, end_mark(), k) implies (
    match section_in(s) {
        Some((b, e)) => e - end_mark().len() <= k,
        None => false,
    }) by {
        lemma_find_least(s, begin_mark(), 0, j);
        lemma_find_least(s, end_mark(), first->0, k);
    }
}

/// A section between two texts is found, if in front of it no mark behind a section follows one
/// in front.
proof fn lemma_section_found(pre: Seq<char>, post: Seq<char>, cli_on_path: bool)
    requires
        forall|j: int, k: int|
            #![trigger occurs_at(pre + marked(cli_on_path) + post, begin_mark(), j), occurs_at(pre + marked(cli_on_path) + post, end_mark(), k)]
            0 <= j <= k < pre.len() && occurs_at(
                pre + marked(cli_on_path) + post,
                begin_mark(),
                j,
            ) ==> !occurs_at(pre + marked(cli_on_path) + post, end_mark(), k),
    ensures
        section_in(pre + marked(cli_on_path) + post) == Some(
            (pre.len() as int, (pre.len() + marked(cli_on_path).len()) as int),
        ),
{
    reveal_strlit("<!-- apicase:begin -->");
    reveal_strlit("<!-- apicase:end -->");
    let m = marked(cli_on_path);
    let t = pre + m + post;
    let b = pre.len() as int;
    let n = begin_mark().len();
    let inner = lines_text(body_lines(cli_on_path));
    assert(t.subrange(b, b + n) =~= begin_mark());
    lemma_body_plain(cli_on_path);
    let e = b + m.len() - end_mark().len();
    assert(t.subrange(e, e + end_mark().len()) =~= end_mark());
    assert forall|k: int| b < k < e implies t[k] != '<' by {
        if k < b + n {
            assert(t[k] == begin_mark()[k - b]);
        } else if k == b + n {
            assert(t[k] == '\n');
        } else {
            assert(t[k] == inner[k - b - n - 1]);
        }
    }
    lemma_find_least(t, begin_mark(), 0, b);
    lemma_find_occurs(t, begin_mark(), 0);
    let first = find_from(t, begin_mark(), 0)->0;
    assert forall|k: int| first <= k < e implies !occurs_at(t, end_mark(), k) by {
        if k == b {
            lemma_marks_differ(t, b);
        } else if k > b && occurs_at(t, end_mark(), k) {
            assert(t.subrange(k, k + end_mark().len())[0] == '<');
        }
    }
    lemma_find_is(t, end_mark(), first, e);
    assert forall|k: int| b < k < e implies !occurs_at(t, begin_mark(), k) by {
        if occurs_at(t, begin_mark(), k) {
            assert(t.subrange(k, k + n)[0] == '<');
        }
    }
    lemma_last_is(t, begin_mark(), e, b);
}

proof fn lemma_trimmed(cli_on_path: bool)
    ensures
        no_back_newlines(section_text(cli_on_path)) == marked(cli_on_path),
{
    reveal_strlit("<!-- apicase:end -->");
    reveal_with_fuel(no_back_newlines, 3);
    let m = marked(cli_on_path);
    assert(section_text(cli_on_path).drop_last() =~= m);
    assert(m.last() == end_mark().last());
}

/// Up to the end of the mark in front of its section a file is as it was when the section has
/// been replaced.
proof fn lemma_front_kept(existing: Seq<char>, b: int, post: Seq<char>, cli_on_path: bool, p: Seq<char>, k: int)
    requires
        occurs_at(existing, begin_mark(), b),
        0 <= k <= b,
        p.len() <= begin_mark().len(),
        occurs_at(existing.take(b) + marked(cli_on_path) + post, p, k),
    ensures
        occurs_at(existing, p, k),
{
    let t = existing.take(b) + marked(cli_on_path) + post;
    assert forall|i: int| 0 <= i < p.len() implies existing.subrange(k, k + p.len())[i] == p[i] by {
        assert(t.subrange(k, k + p.len())[i] == p[i]);
        if k + i >= b {
            assert(t[k + i] == begin_mark()[k + i - b]);
            assert(existing.subrange(b, b + begin_mark().len())[k + i - b] == existing[k + i]);
        }
    }
    assert(existing.subrange(k, k + p.len()) =~= p);
}

/// The section that is written is the one that is found again.
proof fn lemma_replaced(existing: Seq<char>, cli_on_path: bool)
    requires
        section_in(existing) is Some,
    ensures
        ({
            let (b, e) = section_in(existing)->0;
            let m = marked(cli_on_path);
            section_in(existing.take(b) + m + existing.skip(e)) == Some((b, b + m.len()))
        }),
{
    reveal_strlit("<!-- apicase:begin -->");
    reveal_strlit("<!-- apicase:end -->");
    lemma_section_bounds(existing);
    let (b, e) = section_in(existing)->0;
    let pre = existing.take(b);
    let post = existing.skip(e);
    let t = pre + marked(cli_on_path) + post;
    assert forall|j: int, k: int|
        #![trigger occurs_at(t, begin_mark(), j), occurs_at(t, end_mark(), k)]
        0 <= j <= k < pre.len() && occurs_at(t, begin_mark(), j) implies !occurs_at(
        t,
        end_mark(),
        k,
    ) by {
        if occurs_at(t, end_mark(), k) {
            lemma_front_kept(existing, b, post, cli_on_path, begin_mark(), j);
            lemma_front_kept(existing, b, post, cli_on_path, end_mark(), k);
        }
    }
    lemma_section_found(pre, post, cli_on_path);
}

/// A mark that begins in front of an empty line ends in front of it too.
proof fn lemma_mark_in_front(text: Seq<char>, sep: Seq<char>, rest: Seq<char>, p: Seq<char>, k: int)
    requires
        p == begin_mark() || p == end_mark(),
        forall|i: int| 0 <= i < sep.len() ==> #[trigger] sep[i] == '\n',
        sep.len() > 0,
        0 <= k < text.len() + sep.len(),
        occurs_at(text + sep + rest, p, k),
    ensures
        occurs_at(text, p, k),
{
    let t = text + sep + rest;
    let n = p.len();
    reveal_strlit("<!-- apicase:begin -->");
    reveal_strlit("<!-- apicase:end -->");
    if k + n > text.len() {
        let i = if k >= text.len() {
            0int
        } else {
            text.len() - k
        };
        assert(t.subrange(k, k + n)[i] == t[k + i]);
        assert(t[k + i] == sep[k + i - text.len()]);
        assert(free_of(p, '\n', n)) by {
            reveal_with_fuel(free_of, 23);
        }
        lemma_free_of(p, '\n', n);
    } else {
        assert(text.subrange(k, k + n) =~= t.subrange(k, k + n));
    }
}

/// A section that is put at the end is found there.
proof fn lemma_appended(text: Seq<char>, sep: Seq<char>, cli_on_path: bool)
    requires
        section_in(text) is None,
        forall|i: int| 0 <= i < sep.len() ==> #[trigger] sep[i] == '\n',
        sep.len() > 0,
    ensures
        section_in(text + sep + section_text(cli_on_path)) == Some(
            ((text + sep).len() as int, ((text + sep).len() + marked(cli_on_path).len()) as int),
        ),
{
    let m = marked(cli_on_path);
    let post = seq!['\n'];
    let pre = text + sep;
    let t = pre + m + post;
    assert(t =~= text + sep + section_text(cli_on_path));
    lemma_section_bounds(text);
    assert forall|j: int, k: int|
        #![trigger occurs_at(t, begin_mark(), j), occurs_at(t, end_mark(), k)]
        0 <= j <= k < pre.len() && occurs_at(t, begin_mark(), j) implies !occurs_at(
        t,
        end_mark(),
        k,
    ) by {
        if occurs_at(t, end_mark(), k) {
            lemma_mark_in_front(text, sep, section_text(cli_on_path), begin_mark(), j);
            lemma_mark_in_front(text, sep, section_text(cli_on_path), end_mark(), k);
        }
    }
    lemma_section_found(pre, post, cli_on_path);
}

/// The last write counts, and nothing but the section changes: writing twice comes to what the
/// second write alone comes to, whatever marks the file held.
pub proof fn law_last_write_counts(existing: Option<Seq<char>>, before: bool, cli_on_path: bool)
    ensures
        outcome(Some(outcome(existing, before).0), cli_on_path).0 == outcome(
            existing,
            cli_on_path,
        ).0,
{
    let t = outcome(existing, before).0;
    let m = marked(before);
    let w = marked(cli_on_path);
    lemma_trimmed(before);
    lemma_trimmed(cli_on_path);
    match existing {
        None => {
            let pre: Seq<char> = seq![];
            let post = seq!['\n'];
            assert(t =~= pre + m + post);
            lemma_section_found(pre, post, before);
            assert(t.take(0) + w + t.skip(m.len() as int) =~= section_text(cli_on_path));
        },
        Some(text) => match section_in(text) {
            Some((b, e)) => {
                lemma_section_bounds(text);
                lemma_replaced(text, before);
                assert(t == text.take(b) + m + text.skip(e));
                assert(t.take(b) =~= text.take(b));
                assert(t.skip(b + m.len()) =~= text.skip(e));
            },
            None => {
                reveal_strlit("\n");
                reveal_strlit("\n\n");
                let sep = if text.len() > 0 && text.last() == '\n' {
                    "\n"@
                } else {
                    "\n\n"@
                };
                lemma_appended(text, sep, before);
                let p = (text + sep).len() as int;
                assert(t.take(p) =~= text + sep);
                assert(t.skip(p + m.len()) =~= seq!['\n']);
                assert(t.take(p) + w + t.skip(p + m.len()) =~= text + sep + section_text(
                    cli_on_path,
                ));
            },
        },
    }
}

/// What is written is up to date, whatever the file held, and a second write changes nothing.
pub proof fn law_written_is_ready(existing: Option<Seq<char>>, cli_on_path: bool)
    ensures
        state_of(Some(outcome(existing, cli_on_path).0), cli_on_path) == State::Ready,
        outcome(Some(outcome(existing, cli_on_path).0), cli_on_path) == (
            outcome(existing, cli_on_path).0,
            Written::Unchanged,
        ),
{
    let t = outcome(existing, cli_on_path).0;
    law_last_write_counts(existing, cli_on_path, cli_on_path);
    if section_in(t) is None {
        assert(outcome(Some(t), cli_on_path).0.len() > t.len());
    }
}

/// What stands outside the marks is never touched: in front of the section and behind it a file
/// stays as it was, and a section that is put at the end comes behind the whole file.
pub proof fn law_own_text_kept(existing: Seq<char>, cli_on_path: bool)
    ensures
        match section_in(existing) {
            Some((b, e)) => {
                let t = outcome(Some(existing), cli_on_path).0;
                t.take(b) == existing.take(b) && t.skip(t.len() - (existing.len() - e))
                    == existing.skip(e)
            },
            None => begins(outcome(Some(existing), cli_on_path).0, existing),
        },
{
    lemma_section_bounds(existing);
    let t = outcome(Some(existing), cli_on_path).0;
    match section_in(existing) {
        Some((b, e)) => {
            assert(t.take(b) =~= existing.take(b));
            assert(t.skip(t.len() - (existing.len() - e)) =~= existing.skip(e));
        },
        None => {
            assert(t.subrange(0, existing.len() as int) =~= existing);
        },
    }
}

} // verus!
