//! Colours and columns on a terminal.
use crate::text::{byte_len, bytes_of, chars_of, copy_text, fill};
use vstd::prelude::*;

verus! {

/// When output is coloured.
#[derive(Debug, Clone, Copy, PartialEq, Eq, Structural)]
pub enum ColorWhen {
    /// On a terminal, unless the user wants no colours anywhere.
    Auto,
    Always,
    Never,
}

/// Whether output is coloured.
#[derive(Debug, Clone, Copy, PartialEq, Eq, Structural)]
pub struct Style {
    pub on: bool,
}

/// Whether output is coloured: what is asked for counts most, then whether the user wants no
/// colours anywhere, then whether a terminal shows it.
pub open spec fn coloured(when: ColorWhen, is_tty: bool, no_color: bool) -> bool {
    match when {
        ColorWhen::Always => true,
        ColorWhen::Never => false,
        ColorWhen::Auto => is_tty && !no_color,
    }
}

/// A text in a colour.
pub open spec fn painted(st: Style, code: Seq<char>, s: Seq<char>) -> Seq<char> {
    if st.on {
        "\x1b["@ + code + "m"@ + s + "\x1b[0m"@
    } else {
        s
    }
}

/// Green.
pub open spec fn pass_text(st: Style, s: Seq<char>) -> Seq<char> {
    painted(st, "32"@, s)
}

/// Red.
pub open spec fn fail_text(st: Style, s: Seq<char>) -> Seq<char> {
    painted(st, "31"@, s)
}

/// Magenta: what could not be run is looked into elsewhere than what failed.
pub open spec fn error_text(st: Style, s: Seq<char>) -> Seq<char> {
    painted(st, "35"@, s)
}

/// Grey.
pub open spec fn skip_text(st: Style, s: Seq<char>) -> Seq<char> {
    painted(st, "90"@, s)
}

/// Faint.
pub open spec fn dim_text(st: Style, s: Seq<char>) -> Seq<char> {
    painted(st, "2"@, s)
}

/// Bold.
pub open spec fn bold_text(st: Style, s: Seq<char>) -> Seq<char> {
    painted(st, "1"@, s)
}

/// Yellow.
pub open spec fn warn_text(st: Style, s: Seq<char>) -> Seq<char> {
    painted(st, "33"@, s)
}

impl Style {
    /// Whether output is coloured.
    pub fn resolve(when: ColorWhen, is_tty: bool, no_color: bool) -> (r: Self)
        ensures
            r.on == coloured(when, is_tty, no_color),
    {
        let on: bool = match when {
            ColorWhen::Always => true,
            ColorWhen::Never => false,
            ColorWhen::Auto => is_tty && !no_color,
        };
        Style { on }
    }

    fn paint(self, code: &str, s: &str) -> (r: String)
        ensures
            r@ == painted(self, code@, s@),
    {
        if self.on {
            let mut r: String = copy_text("\x1b[");
            r.push_str(code);
            r.push_str("m");
            r.push_str(s);
            r.push_str("\x1b[0m");
            r
        } else {
            copy_text(s)
        }
    }

    /// Green.
    pub fn pass(self, s: &str) -> (r: String)
        ensures
            r@ == pass_text(self, s@),
    {
        self.paint("32", s)
    }

    /// Red.
    pub fn fail(self, s: &str) -> (r: String)
        ensures
            r@ == fail_text(self, s@),
    {
        self.paint("31", s)
    }

    /// Magenta.
    pub fn error(self, s: &str) -> (r: String)
        ensures
            r@ == error_text(self, s@),
    {
        self.paint("35", s)
    }

    /// Grey.
    pub fn skip(self, s: &str) -> (r: String)
        ensures
            r@ == skip_text(self, s@),
    {
        self.paint("90", s)
    }

    /// Faint.
    pub fn dim(self, s: &str) -> (r: String)
        ensures
            r@ == dim_text(self, s@),
    {
        self.paint("2", s)
    }

    /// Bold.
    pub fn bold(self, s: &str) -> (r: String)
        ensures
            r@ == bold_text(self, s@),
    {
        self.paint("1", s)
    }

    /// Yellow.
    pub fn warn(self, s: &str) -> (r: String)
        ensures
            r@ == warn_text(self, s@),
    {
        self.paint("33", s)
    }
}

// ---- columns ---------------------------------------------------------------------------

/// Whether a character takes two columns: those of East Asia, and emoji.
pub open spec fn is_wide(c: char) -> bool {
    let n = c as u32;
    ||| 0x1100 <= n <= 0x115F
    ||| 0x2E80 <= n <= 0x303E
    ||| 0x3041 <= n <= 0x4DBF
    ||| 0x4E00 <= n <= 0xA4CF
    ||| 0xAC00 <= n <= 0xD7A3
    ||| 0xF900 <= n <= 0xFAFF
    ||| 0xFE30 <= n <= 0xFE6F
    ||| 0xFF00 <= n <= 0xFF60
    ||| 0xFFE0 <= n <= 0xFFE6
    ||| 0x1F300 <= n <= 0x1F64F
    ||| 0x1F900 <= n <= 0x1F9FF
    ||| 0x20000 <= n <= 0x3FFFD
}

/// How many columns a text takes.
pub open spec fn width_of(s: Seq<char>) -> nat
    decreases s.len(),
{
    if s.len() == 0 {
        0
    } else {
        (if is_wide(s[0]) {
            2nat
        } else {
            1
        }) + width_of(s.drop_first())
    }
}

/// A text that fills `w` columns at least; one that takes more is left as it is.
pub open spec fn padded_to(s: Seq<char>, w: nat) -> Seq<char> {
    if width_of(s) >= w {
        s
    } else {
        s + Seq::new((w - width_of(s)) as nat, |i: int| ' ')
    }
}

/// Whether a character takes two columns.
fn wide(c: char) -> (r: bool)
    ensures
        r == is_wide(c),
{
    let n: u32 = c as u32;
    0x1100 <= n && n <= 0x115F || 0x2E80 <= n && n <= 0x303E || 0x3041 <= n && n <= 0x4DBF || 0x4E00
        <= n && n <= 0xA4CF || 0xAC00 <= n && n <= 0xD7A3 || 0xF900 <= n && n <= 0xFAFF || 0xFE30
        <= n && n <= 0xFE6F || 0xFF00 <= n && n <= 0xFF60 || 0xFFE0 <= n && n <= 0xFFE6 || 0x1F300
        <= n && n <= 0x1F64F || 0x1F900 <= n && n <= 0x1F9FF || 0x20000 <= n && n <= 0x3FFFD
}

proof fn lemma_width(s: Seq<char>)
    ensures
        width_of(s) <= byte_len(s),
    decreases s.len(),
{
    if s.len() > 0 {
        lemma_width(s.drop_first());
    }
}

/// How many columns a text takes.
pub fn width(s: &str) -> (r: usize)
    ensures
        r == width_of(s@),
{
    let bytes: usize = bytes_of(s);
    let cs: Vec<char> = chars_of(s);
    proof {
        lemma_width(s@);
        assert(s@.skip(0) =~= s@);
    }
    let mut n: usize = 0;
    let mut i: usize = 0;
    while i < cs.len()
        invariant
            i <= cs@.len(),
            cs@ == s@,
            n + width_of(s@.skip(i as int)) == width_of(s@),
            width_of(s@) <= bytes,
        decreases cs@.len() - i,
    {
        assert(s@.skip(i as int).drop_first() =~= s@.skip(i + 1));
        if wide(cs[i]) {
            n = n + 2;
        } else {
            n = n + 1;
        }
        i = i + 1;
    }
    n
}

/// A text that fills `w` columns at least.
pub fn pad(s: &str, w: usize) -> (r: String)
    ensures
        r@ == padded_to(s@, w as nat),
{
    let n: usize = width(s);
    let mut r: String = copy_text(s);
    if n < w {
        fill(&mut r, ' ', w - n);
        assert(r@ =~= padded_to(s@, w as nat));
    }
    r
}

proof fn lemma_spaces(s: Seq<char>, n: nat)
    ensures
        width_of(s + Seq::new(n, |i: int| ' ')) == width_of(s) + n,
    decreases s.len(), n,
{
    let t = s + Seq::new(n, |i: int| ' ');
    if s.len() > 0 {
        lemma_spaces(s.drop_first(), n);
        assert(t.drop_first() =~= s.drop_first() + Seq::new(n, |i: int| ' '));
    } else if n > 0 {
        lemma_spaces(s, (n - 1) as nat);
        assert(t.drop_first() =~= s + Seq::new((n - 1) as nat, |i: int| ' '));
    }
}

/// What follows texts that fit a column begins in one place.
pub proof fn law_columns_line_up(s: Seq<char>, w: nat)
    ensures
        width_of(padded_to(s, w)) == (if width_of(s) >= w {
            width_of(s)
        } else {
            w
        }),
{
    if width_of(s) < w {
        lemma_spaces(s, (w - width_of(s)) as nat);
    }
}

/// Colours are used where they are wanted: always, never, or on a terminal unless they are switched
/// off. Without them a text is as it is; with them nothing of it is lost.
pub proof fn law_colours(st: Style, code: Seq<char>, s: Seq<char>, tty: bool, no_color: bool)
    ensures
        coloured(ColorWhen::Always, tty, no_color),
        !coloured(ColorWhen::Never, tty, no_color),
        coloured(ColorWhen::Auto, tty, no_color) <==> tty && !no_color,
        !st.on ==> painted(st, code, s) == s,
        st.on ==> painted(st, code, s) == "\x1b["@ + code + "m"@ + s + "\x1b[0m"@,
{
}

/// Each outcome has a colour of its own.
pub proof fn law_own_colours(st: Style, s: Seq<char>)
    requires
        st.on,
    ensures
        pass_text(st, s) == "\x1b["@ + "32"@ + "m"@ + s + "\x1b[0m"@,
        fail_text(st, s) == "\x1b["@ + "31"@ + "m"@ + s + "\x1b[0m"@,
        error_text(st, s) == "\x1b["@ + "35"@ + "m"@ + s + "\x1b[0m"@,
        skip_text(st, s) == "\x1b["@ + "90"@ + "m"@ + s + "\x1b[0m"@,
        warn_text(st, s) == "\x1b["@ + "33"@ + "m"@ + s + "\x1b[0m"@,
{
}

/// A text that is padded begins with the text, and only spaces follow.
pub proof fn law_padding(s: Seq<char>, w: nat, i: int)
    ensures
        s.is_prefix_of(padded_to(s, w)),
        s.len() <= i < padded_to(s, w).len() ==> padded_to(s, w)[i] == ' ',
        width_of(s) >= w ==> padded_to(s, w) == s,
{
    assert(s =~= padded_to(s, w).take(s.len() as int));
}

} // verus!
