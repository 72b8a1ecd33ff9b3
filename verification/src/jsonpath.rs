//! Paths into a JSON value: `$`, `.key`, `[n]`, `['key']` and `["key"]`.
//!
//! There are no filters, no recursive descent, no slices and no wildcards. A path that is not
//! understood to its end finds nothing, rather than what its beginning would find.
use crate::json::{array_of, lemma_view, member, object_of, Json, JsonView};
use crate::number::{digits_value, saturating_value};
use crate::table::lookup;
use crate::text::{
    alnum, alpha, chars_of, digit, is_alnum, is_alpha, is_digit, is_white, lemma_seek,
    lemma_seek_is, seek, seek_char, sub_text, trim, trim_back, trim_front, trimmed, views,
};
use vstd::prelude::*;

verus! {

/// A step of a path.
pub enum Seg {
    Key(String),
    /// An index. One that is too large for the type is the largest of the type.
    Index(u64),
}

/// What a step of a path stands for.
pub enum SegView {
    Key(Seq<char>),
    Index(nat),
}

/// A character that an identifier begins with.
pub open spec fn ident_start(c: char) -> bool {
    is_alpha(c) || c == '_' || c == '$'
}

/// A character that an identifier goes on with.
pub open spec fn ident_part(c: char) -> bool {
    is_alnum(c) || c == '_' || c == '$' || c == '-'
}

/// Where the identifier that goes on at `j` ends.
pub open spec fn ident_end(s: Seq<char>, j: int) -> int
    decreases s.len() - j,
{
    if 0 <= j < s.len() && ident_part(s[j]) {
        ident_end(s, j + 1)
    } else {
        j
    }
}

/// Where the digits that begin at `j` end.
pub open spec fn digits_end(s: Seq<char>, j: int) -> int
    decreases s.len() - j,
{
    if 0 <= j < s.len() && is_digit(s[j]) {
        digits_end(s, j + 1)
    } else {
        j
    }
}

/// The identifier at `i`, and the position after it.
pub open spec fn ident_at(s: Seq<char>, i: int) -> Option<(SegView, int)> {
    if 0 <= i < s.len() && ident_start(s[i]) {
        let e = ident_end(s, i + 1);
        Some((SegView::Key(s.subrange(i, e)), e))
    } else {
        None
    }
}

/// What a bracket holds whose content begins at `i`, and the position after the bracket.
pub open spec fn bracket_at(s: Seq<char>, i: int) -> Option<(SegView, int)> {
    if i >= s.len() {
        None
    } else if s[i] == '\'' || s[i] == '"' {
        let j = seek(s, s[i], i + 1);
        if j + 1 < s.len() && s[j + 1] == ']' {
            Some((SegView::Key(s.subrange(i + 1, j)), j + 2))
        } else {
            None
        }
    } else {
        let j = digits_end(s, i);
        if i < j < s.len() && s[j] == ']' {
            Some((SegView::Index(digits_value(s.subrange(i, j))), j + 1))
        } else {
            None
        }
    }
}

/// The step at `i`, and the position after it.
pub open spec fn seg_at(s: Seq<char>, i: int) -> Option<(SegView, int)> {
    if s[i] == '.' {
        ident_at(s, i + 1)
    } else if s[i] == '[' {
        bracket_at(s, i + 1)
    } else {
        None
    }
}

/// The steps from `i` on.
pub open spec fn segs_from(s: Seq<char>, i: int) -> Option<Seq<SegView>>
    decreases s.len() - i,
{
    if i < 0 || i >= s.len() {
        Some(seq![])
    } else {
        match seg_at(s, i) {
            Some((seg, j)) if i < j <= s.len() => match segs_from(s, j) {
                Some(rest) => Some(seq![seg] + rest),
                None => None,
            },
            _ => None,
        }
    }
}

/// The steps of a path. A leading `$` and a leading dot may be left out.
pub open spec fn path_segs(path: Seq<char>) -> Option<Seq<SegView>> {
    let t = trim(path);
    let s = if t.len() > 0 && t[0] == '$' {
        t.skip(1)
    } else {
        t
    };
    if s.len() == 0 {
        Some(seq![])
    } else if s[0] == '.' || s[0] == '[' {
        segs_from(s, 0)
    } else {
        match ident_at(s, 0) {
            Some((seg, j)) => match segs_from(s, j) {
                Some(rest) => Some(seq![seg] + rest),
                None => None,
            },
            None => None,
        }
    }
}

/// What the steps of a path lead to.
pub open spec fn walk(v: JsonView, segs: Seq<SegView>) -> Option<JsonView>
    decreases segs.len(),
{
    if segs.len() == 0 {
        Some(v)
    } else {
        match segs[0] {
            SegView::Key(k) => match object_of(v) {
                Some(m) => match lookup(m, k) {
                    Some(x) => walk(x, segs.drop_first()),
                    None => None,
                },
                None => None,
            },
            SegView::Index(n) => match array_of(v) {
                Some(a) => if n < a.len() {
                    walk(a[n as int], segs.drop_first())
                } else {
                    None
                },
                None => None,
            },
        }
    }
}

/// The value at a path.
pub open spec fn value_at(root: JsonView, path: Seq<char>) -> Option<JsonView> {
    match path_segs(path) {
        Some(segs) => walk(root, segs),
        None => None,
    }
}

/// Whether a parsed step stands for `v`.
pub open spec fn stands_for(s: Seg, v: SegView) -> bool {
    match (s, v) {
        (Seg::Key(k), SegView::Key(w)) => k@ == w,
        (Seg::Index(n), SegView::Index(m)) => n == (if m > u64::MAX {
            u64::MAX as nat
        } else {
            m
        }),
        _ => false,
    }
}

proof fn lemma_ident_end(s: Seq<char>, j: int)
    requires
        0 <= j <= s.len(),
    ensures
        j <= ident_end(s, j) <= s.len(),
    decreases s.len() - j,
{
    if j < s.len() && ident_part(s[j]) {
        lemma_ident_end(s, j + 1);
    }
}

proof fn lemma_digits_end(s: Seq<char>, j: int)
    requires
        0 <= j <= s.len(),
    ensures
        j <= digits_end(s, j) <= s.len(),
    decreases s.len() - j,
{
    if j < s.len() && is_digit(s[j]) {
        lemma_digits_end(s, j + 1);
    }
}

fn read_ident(cs: &[char], i: usize) -> (r: Option<(Seg, usize)>)
    requires
        i <= cs@.len(),
    ensures
        match r {
            Some((seg, j)) => {
                &&& ident_at(cs@, i as int) is Some
                &&& stands_for(seg, (ident_at(cs@, i as int)->0).0)
                &&& j == (ident_at(cs@, i as int)->0).1
                &&& i < j <= cs@.len()
            },
            None => ident_at(cs@, i as int) is None,
        },
{
    if i >= cs.len() || !(alpha(cs[i]) || cs[i] == '_' || cs[i] == '$') {
        return None;
    }
    let mut j: usize = i + 1;
    while j < cs.len() && (alnum(cs[j]) || cs[j] == '_' || cs[j] == '$' || cs[j] == '-')
        invariant
            i + 1 <= j <= cs@.len(),
            ident_end(cs@, i + 1) == ident_end(cs@, j as int),
        decreases cs@.len() - j,
    {
        j = j + 1;
    }
    Some((Seg::Key(sub_text(cs, i, j)), j))
}

fn read_bracket(cs: &[char], i: usize) -> (r: Option<(Seg, usize)>)
    requires
        i <= cs@.len(),
    ensures
        match r {
            Some((seg, j)) => {
                &&& bracket_at(cs@, i as int) is Some
                &&& stands_for(seg, (bracket_at(cs@, i as int)->0).0)
                &&& j == (bracket_at(cs@, i as int)->0).1
                &&& i < j <= cs@.len()
            },
            None => bracket_at(cs@, i as int) is None,
        },
{
    if i >= cs.len() {
        return None;
    }
    let quote: char = cs[i];
    if quote == '\'' || quote == '"' {
        let j: usize = seek_char(cs, quote, i + 1);
        if j >= cs.len() || j + 1 >= cs.len() || cs[j + 1] != ']' {
            return None;
        }
        return Some((Seg::Key(sub_text(cs, i + 1, j)), j + 2));
    }
    let mut j: usize = i;
    while j < cs.len() && digit(cs[j])
        invariant
            i <= j <= cs@.len(),
            digits_end(cs@, i as int) == digits_end(cs@, j as int),
        decreases cs@.len() - j,
    {
        j = j + 1;
    }
    if j == i || j >= cs.len() || cs[j] != ']' {
        return None;
    }
    let t: String = sub_text(cs, i, j);
    let ds: Vec<char> = chars_of(t.as_str());
    Some((Seg::Index(saturating_value(ds.as_slice())), j + 1))
}

/// The value of a path among parsed steps.
fn follow<'a>(root: &'a Json, segs: &Vec<Seg>, Ghost(vs): Ghost<Seq<SegView>>) -> (r: Option<
    &'a Json,
>)
    requires
        vs.len() == segs@.len(),
        forall|i: int| 0 <= i < vs.len() ==> stands_for(#[trigger] segs@[i], vs[i]),
    ensures
        match r {
            Some(v) => walk(root@, vs) == Some(v@),
            None => walk(root@, vs) is None,
        },
{
    let mut cur: &'a Json = root;
    let mut i: usize = 0;
    assert(vs.skip(0) =~= vs);
    while i < segs.len()
        invariant
            i <= segs@.len(),
            vs.len() == segs@.len(),
            forall|k: int| 0 <= k < vs.len() ==> stands_for(#[trigger] segs@[k], vs[k]),
            walk(root@, vs) == walk(cur@, vs.skip(i as int)),
        decreases segs@.len() - i,
    {
        proof {
            assert(vs.skip(i as int).drop_first() =~= vs.skip(i + 1));
            assert(vs.skip(i as int)[0] == vs[i as int]);
            assert(stands_for(segs@[i as int], vs[i as int]));
            lemma_view(*cur);
        }
        match &segs[i] {
            Seg::Key(k) => {
                match cur.as_object() {
                    Some(m) => {
                        match member(m, k.as_str()) {
                            Some(x) => {
                                cur = x;
                            },
                            None => {
                                return None;
                            },
                        }
                    },
                    None => {
                        return None;
                    },
                }
            },
            Seg::Index(n) => {
                match cur.as_array() {
                    Some(a) => {
                        if *n < a.len() as u64 {
                            assert(views(a@)[*n as int] == a@[*n as int]@);
                            cur = &a[*n as usize];
                        } else {
                            return None;
                        }
                    },
                    None => {
                        return None;
                    },
                }
            },
        }
        i = i + 1;
    }
    assert(vs.skip(vs.len() as int) =~= seq![]);
    Some(cur)
}

/// The value at a path, or nothing if the path is not valid or leads nowhere.
pub fn get<'a>(root: &'a Json, path: &str) -> (r: Option<&'a Json>)
    ensures
        match r {
            Some(v) => value_at(root@, path@) == Some(v@),
            None => value_at(root@, path@) is None,
        },
{
    let t: String = trimmed(path);
    let all: Vec<char> = chars_of(t.as_str());
    let start: usize = if all.len() > 0 && all[0] == '$' {
        1
    } else {
        0
    };
    let rest: String = sub_text(all.as_slice(), start, all.len());
    let cs: Vec<char> = chars_of(rest.as_str());
    let ghost s = cs@;
    proof {
        if start == 1 {
            assert(s =~= t@.skip(1));
        } else {
            assert(s =~= t@);
        }
    }
    let mut segs: Vec<Seg> = Vec::new();
    let ghost mut vs: Seq<SegView> = seq![];
    let mut i: usize = 0;
    if cs.len() == 0 {
        assert(walk(root@, seq![]) == Some(root@));
        return Some(root);
    }
    if cs[0] != '.' && cs[0] != '[' {
        match read_ident(cs.as_slice(), 0) {
            Some((seg, j)) => {
                proof {
                    vs = vs.push((ident_at(s, 0)->0).0);
                }
                segs.push(seg);
                i = j;
            },
            None => {
                return None;
            },
        }
    }
    proof {
        let whole = path_segs(path@);
        let tail = segs_from(s, i as int);
        if tail is Some {
            assert(whole is Some);
            assert(whole->0 =~= vs + tail->0);
        }
    }
    while i < cs.len()
        invariant
            i <= cs@.len(),
            s == cs@,
            vs.len() == segs@.len(),
            forall|k: int| 0 <= k < vs.len() ==> stands_for(#[trigger] segs@[k], vs[k]),
            segs_from(s, i as int) is None <==> path_segs(path@) is None,
            segs_from(s, i as int) is Some ==> path_segs(path@)->0 == vs + segs_from(
                s,
                i as int,
            )->0,
        decreases cs@.len() - i,
    {
        let step: Option<(Seg, usize)> = if cs[i] == '.' {
            read_ident(cs.as_slice(), i + 1)
        } else if cs[i] == '[' {
            read_bracket(cs.as_slice(), i + 1)
        } else {
            None
        };
        match step {
            Some((seg, j)) => {
                let ghost sv = (seg_at(s, i as int)->0).0;
                proof {
                    let tail = segs_from(s, j as int);
                    if tail is Some {
                        assert(vs + segs_from(s, i as int)->0 =~= vs.push(sv) + tail->0);
                    }
                    vs = vs.push(sv);
                }
                segs.push(seg);
                i = j;
            },
            None => {
                return None;
            },
        }
    }
    assert(path_segs(path@)->0 =~= vs);
    follow(root, &segs, Ghost(vs))
}

// ---- what may be left out of a path ----------------------------------------------------

proof fn lemma_trim_back_after(c: char, p: Seq<char>)
    requires
        !is_white(c),
    ensures
        trim_back(seq![c] + p) == seq![c] + trim_back(p),
    decreases p.len(),
{
    let s = seq![c] + p;
    if p.len() == 0 {
        assert(s =~= seq![c]);
        assert(s =~= seq![c] + trim_back(p));
    } else if is_white(p.last()) {
        assert(s.drop_last() =~= seq![c] + p.drop_last());
        lemma_trim_back_after(c, p.drop_last());
    }
}

proof fn lemma_seek_after(c: char, s: Seq<char>, q: char, i: int)
    requires
        0 <= i,
    ensures
        seek(seq![c] + s, q, i + 1) == seek(s, q, i) + 1,
    decreases s.len() - i,
{
    if i < s.len() {
        assert((seq![c] + s)[i + 1] == s[i]);
        if s[i] != q {
            lemma_seek_after(c, s, q, i + 1);
        }
    }
}

proof fn lemma_ident_end_after(c: char, s: Seq<char>, i: int)
    requires
        0 <= i,
    ensures
        ident_end(seq![c] + s, i + 1) == ident_end(s, i) + 1,
    decreases s.len() - i,
{
    if i < s.len() {
        assert((seq![c] + s)[i + 1] == s[i]);
        if ident_part(s[i]) {
            lemma_ident_end_after(c, s, i + 1);
        }
    }
}

proof fn lemma_digits_end_after(c: char, s: Seq<char>, i: int)
    requires
        0 <= i,
    ensures
        digits_end(seq![c] + s, i + 1) == digits_end(s, i) + 1,
    decreases s.len() - i,
{
    if i < s.len() {
        assert((seq![c] + s)[i + 1] == s[i]);
        if is_digit(s[i]) {
            lemma_digits_end_after(c, s, i + 1);
        }
    }
}

/// What was found, one position further on.
spec fn further(r: Option<(SegView, int)>) -> Option<(SegView, int)> {
    match r {
        Some((seg, j)) => Some((seg, j + 1)),
        None => None,
    }
}

proof fn lemma_ident_after(c: char, s: Seq<char>, i: int)
    requires
        0 <= i,
    ensures
        ident_at(seq![c] + s, i + 1) == further(ident_at(s, i)),
{
    let t = seq![c] + s;
    if i < s.len() {
        assert(t[i + 1] == s[i]);
        let e = ident_end(s, i + 1);
        lemma_ident_end_after(c, s, i + 1);
        lemma_ident_end(s, i + 1);
        assert(t.subrange(i + 1, e + 1) =~= s.subrange(i, e));
    }
}

proof fn lemma_bracket_after(c: char, s: Seq<char>, i: int)
    requires
        0 <= i,
    ensures
        bracket_at(seq![c] + s, i + 1) == further(bracket_at(s, i)),
{
    let t = seq![c] + s;
    if i < s.len() {
        assert(t[i + 1] == s[i]);
        if s[i] == '\'' || s[i] == '"' {
            let j = seek(s, s[i], i + 1);
            lemma_seek_after(c, s, s[i], i + 1);
            lemma_seek(s, s[i], i + 1);
            if j + 1 < s.len() {
                assert(t[j + 2] == s[j + 1]);
                assert(t.subrange(i + 2, j + 1) =~= s.subrange(i + 1, j));
            }
        } else {
            let j = digits_end(s, i);
            lemma_digits_end_after(c, s, i);
            lemma_digits_end(s, i);
            if j < s.len() {
                assert(t[j + 1] == s[j]);
                assert(t.subrange(i + 1, j + 1) =~= s.subrange(i, j));
            }
        }
    }
}

proof fn lemma_segs_after(c: char, s: Seq<char>, i: int)
    requires
        0 <= i,
    ensures
        segs_from(seq![c] + s, i + 1) == segs_from(s, i),
    decreases s.len() - i,
{
    let t = seq![c] + s;
    if i < s.len() {
        assert(t[i + 1] == s[i]);
        lemma_ident_after(c, s, i + 1);
        lemma_bracket_after(c, s, i + 1);
        assert(seg_at(t, i + 1) == further(seg_at(s, i)));
        match seg_at(s, i) {
            Some((seg, j)) if i < j <= s.len() => {
                lemma_segs_after(c, s, j);
            },
            _ => {},
        }
    }
}

/// A leading `$` may be left out: with it and without it a path leads to the same value.
pub proof fn law_dollar_may_be_left_out(root: JsonView, p: Seq<char>)
    requires
        p.len() > 0 ==> p[0] != '$' && !is_white(p[0]),
    ensures
        value_at(root, seq!['$'] + p) == value_at(root, p),
{
    let t = seq!['$'] + p;
    lemma_trim_back_after('$', p);
    assert(trim_front(t) == t);
    assert(trim(t).skip(1) =~= trim_back(p));
    if p.len() > 0 {
        lemma_trim_back_after(p[0], p.drop_first());
        assert(p =~= seq![p[0]] + p.drop_first());
    }
    assert(trim(p) == trim_back(p));
}

/// A leading dot may be left out before a name, and so may `$.`: `data.token` leads to what
/// `$.data.token` leads to.
pub proof fn law_dot_may_be_left_out(root: JsonView, p: Seq<char>)
    requires
        p.len() > 0,
        ident_start(p[0]),
        p[0] != '$',
    ensures
        value_at(root, seq!['.'] + p) == value_at(root, p),
        value_at(root, seq!['$', '.'] + p) == value_at(root, p),
{
    let t = seq!['.'] + p;
    lemma_trim_back_after('.', p);
    lemma_trim_back_after(p[0], p.drop_first());
    assert(p =~= seq![p[0]] + p.drop_first());
    let s = trim_back(p);
    assert(trim(p) == s);
    assert(trim(t) == seq!['.'] + s);
    lemma_ident_after('.', s, 0);
    lemma_ident_end(s, 1);
    let j = ident_end(s, 1);
    lemma_segs_after('.', s, j);
    assert(seg_at(trim(t), 0) == Some((SegView::Key(s.subrange(0, j)), j + 1)));
    assert(path_segs(t) == path_segs(p));
    law_dollar_may_be_left_out(root, t);
    assert(seq!['$', '.'] + p =~= seq!['$'] + t);
}

/// In quotes any key can be named that does not hold the quote.
pub proof fn law_quoted_key(root: JsonView, key: Seq<char>, quote: char)
    requires
        quote == '\'' || quote == '"',
        !key.contains(quote),
    ensures
        value_at(root, seq!['[', quote] + key + seq![quote, ']']) == (match object_of(root) {
            Some(m) => lookup(m, key),
            None => None,
        }),
{
    let s = seq!['[', quote] + key + seq![quote, ']'];
    let j = 2 + key.len();
    assert(trim(s) == s);
    assert forall|k: int| 2 <= k < j implies s[k] != quote by {
        assert(s[k] == key[k - 2]);
    }
    lemma_seek_is(s, quote, 2, j as int);
    assert(s.subrange(2, j as int) =~= key);
    assert(seg_at(s, 0) == Some((SegView::Key(key), s.len() as int)));
    assert(segs_from(s, s.len() as int) == Some(Seq::<SegView>::empty()));
    let segs = seq![SegView::Key(key)];
    assert(path_segs(s)->0 =~= segs);
    assert(segs.drop_first() =~= seq![]);
    reveal_with_fuel(walk, 2);
}

proof fn lemma_segs_shift(a: Seq<char>, b: Seq<char>, i: int)
    requires
        0 <= i,
    ensures
        segs_from(a + b, a.len() + i) == segs_from(b, i),
    decreases a.len(),
{
    if a.len() == 0 {
        assert(a + b =~= b);
    } else {
        let d = a.drop_first();
        lemma_segs_shift(d, b, i);
        lemma_segs_after(a[0], d + b, d.len() + i);
        assert(seq![a[0]] + (d + b) =~= a + b);
    }
}

proof fn lemma_walk_first(v: JsonView, seg: SegView, rest: Seq<SegView>)
    ensures
        walk(v, seq![seg] + rest) == (match seg {
            SegView::Key(k) => match v {
                JsonView::Object(m) => match lookup(m, k) {
                    Some(x) => walk(x, rest),
                    None => None,
                },
                _ => None,
            },
            SegView::Index(n) => match v {
                JsonView::Array(a) => if n < a.len() {
                    walk(a[n as int], rest)
                } else {
                    None
                },
                _ => None,
            },
        }),
{
    assert((seq![seg] + rest).drop_first() =~= rest);
}

/// Whether a text goes on a path after one of its steps: nothing, or a further step, with no
/// white space at the end.
pub open spec fn goes_on(rest: Seq<char>) -> bool {
    rest.len() > 0 ==> (rest[0] == '.' || rest[0] == '[') && !is_white(rest.last())
}

proof fn lemma_rest(rest: Seq<char>)
    requires
        goes_on(rest),
    ensures
        path_segs(rest) == segs_from(rest, 0),
{
    assert(trim(rest) == rest);
}

/// The empty path and `$` lead to the value itself, and white space around a path is nothing.
pub proof fn law_root(root: JsonView, p: Seq<char>, q: Seq<char>)
    ensures
        value_at(root, seq![]) == Some(root),
        value_at(root, seq!['$']) == Some(root),
        trim(p) == trim(q) ==> value_at(root, p) == value_at(root, q),
{
    let none = Seq::<char>::empty();
    assert(trim(none) == none);
    assert(trim(seq!['$']) == seq!['$']);
    assert(seq!['$'].skip(1) =~= none);
}

proof fn lemma_ident_end_is(s: Seq<char>, i: int, j: int)
    requires
        0 <= i <= j <= s.len(),
        forall|k: int| i <= k < j ==> ident_part(#[trigger] s[k]),
        j < s.len() ==> !ident_part(s[j]),
    ensures
        ident_end(s, i) == j,
    decreases j - i,
{
    if i < j {
        lemma_ident_end_is(s, i + 1, j);
    }
}

proof fn lemma_digits_end_is(s: Seq<char>, i: int, j: int)
    requires
        0 <= i <= j <= s.len(),
        forall|k: int| i <= k < j ==> is_digit(#[trigger] s[k]),
        j < s.len() ==> !is_digit(s[j]),
    ensures
        digits_end(s, i) == j,
    decreases j - i,
{
    if i < j {
        lemma_digits_end_is(s, i + 1, j);
    }
}

/// A name leads to the member of that name, and the rest of the path goes on from there. It
/// leads nowhere in what is no object or has no such member.
pub proof fn law_name_step(root: JsonView, name: Seq<char>, rest: Seq<char>)
    requires
        name.len() > 0,
        ident_start(name[0]),
        forall|k: int| 0 < k < name.len() ==> ident_part(#[trigger] name[k]),
        goes_on(rest),
    ensures
        value_at(root, seq!['.'] + name + rest) == (match root {
            JsonView::Object(m) => match lookup(m, name) {
                Some(x) => value_at(x, rest),
                None => None,
            },
            _ => None,
        }),
{
    let s = seq!['.'] + name + rest;
    let e = 1 + name.len() as int;
    assert(!is_white(s.last())) by {
        if rest.len() == 0 {
            assert(s.last() == name.last());
            assert(name.last() == name[0] || ident_part(name[name.len() - 1]));
        } else {
            assert(s.last() == rest.last());
        }
    }
    assert(trim(s) == s);
    assert forall|k: int| 2 <= k < e implies ident_part(#[trigger] s[k]) by {
        assert(s[k] == name[k - 1]);
    }
    if rest.len() > 0 {
        assert(s[e] == rest[0]);
    }
    lemma_ident_end_is(s, 2, e);
    assert(s[1] == name[0]);
    assert(s.subrange(1, e) =~= name);
    assert(seg_at(s, 0) == Some((SegView::Key(name), e)));
    assert(s =~= (seq!['.'] + name) + rest);
    lemma_segs_shift(seq!['.'] + name, rest, 0);
    lemma_rest(rest);
    match segs_from(rest, 0) {
        Some(r) => {
            lemma_walk_first(root, SegView::Key(name), r);
        },
        None => {},
    }
}

/// A number in brackets leads to the item at that position, counted from zero, and the rest of
/// the path goes on from there. It leads nowhere in what is no array or is too short.
pub proof fn law_index_step(root: JsonView, digits: Seq<char>, rest: Seq<char>)
    requires
        digits.len() > 0,
        forall|k: int| 0 <= k < digits.len() ==> is_digit(#[trigger] digits[k]),
        goes_on(rest),
    ensures
        value_at(root, seq!['['] + digits + seq![']'] + rest) == (match root {
            JsonView::Array(a) => if digits_value(digits) < a.len() {
                value_at(a[digits_value(digits) as int], rest)
            } else {
                None
            },
            _ => None,
        }),
{
    let s = seq!['['] + digits + seq![']'] + rest;
    let j = 1 + digits.len() as int;
    assert(!is_white(s.last())) by {
        if rest.len() == 0 {
            assert(s.last() == ']');
        } else {
            assert(s.last() == rest.last());
        }
    }
    assert(trim(s) == s);
    assert forall|k: int| 1 <= k < j implies is_digit(#[trigger] s[k]) by {
        assert(s[k] == digits[k - 1]);
    }
    assert(s[j] == ']');
    lemma_digits_end_is(s, 1, j);
    assert(s[1] == digits[0]);
    assert(s.subrange(1, j) =~= digits);
    let n = digits_value(digits);
    assert(seg_at(s, 0) == Some((SegView::Index(n), j + 1)));
    let front = seq!['['] + digits + seq![']'];
    lemma_segs_shift(front, rest, 0);
    lemma_rest(rest);
    match segs_from(rest, 0) {
        Some(r) => {
            lemma_walk_first(root, SegView::Index(n), r);
        },
        None => {},
    }
}

/// A key in quotes leads to the member of that name, whatever the name holds but the quote, and
/// the rest of the path goes on from there.
pub proof fn law_quoted_step(root: JsonView, key: Seq<char>, quote: char, rest: Seq<char>)
    requires
        quote == '\'' || quote == '"',
        !key.contains(quote),
        goes_on(rest),
    ensures
        value_at(root, seq!['[', quote] + key + seq![quote, ']'] + rest) == (match root {
            JsonView::Object(m) => match lookup(m, key) {
                Some(x) => value_at(x, rest),
                None => None,
            },
            _ => None,
        }),
{
    let front = seq!['[', quote] + key + seq![quote, ']'];
    let s = front + rest;
    let j = 2 + key.len() as int;
    assert(!is_white(s.last())) by {
        if rest.len() == 0 {
            assert(s.last() == ']');
        } else {
            assert(s.last() == rest.last());
        }
    }
    assert(trim(s) == s);
    assert forall|k: int| 2 <= k < j implies s[k] != quote by {
        assert(s[k] == key[k - 2]);
        assert(key.contains(key[k - 2]));
    }
    assert(s[j] == quote && s[j + 1] == ']');
    lemma_seek_is(s, quote, 2, j);
    assert(s.subrange(2, j) =~= key);
    assert(seg_at(s, 0) == Some((SegView::Key(key), j + 2)));
    lemma_segs_shift(front, rest, 0);
    lemma_rest(rest);
    match segs_from(rest, 0) {
        Some(r) => {
            lemma_walk_first(root, SegView::Key(key), r);
        },
        None => {},
    }
}

/// A path that goes on with what is no step leads nowhere, though its beginning would lead
/// somewhere.
pub proof fn law_not_understood(root: JsonView, name: Seq<char>, rest: Seq<char>)
    requires
        name.len() > 0,
        ident_start(name[0]),
        forall|k: int| 0 < k < name.len() ==> ident_part(#[trigger] name[k]),
        rest.len() > 0,
        !ident_part(rest[0]) && rest[0] != '.' && rest[0] != '[' && !is_white(rest.last()),
    ensures
        value_at(root, seq!['.'] + name + rest) is None,
{
    let s = seq!['.'] + name + rest;
    let e = 1 + name.len() as int;
    assert(s.last() == rest.last());
    assert(trim(s) == s);
    assert forall|k: int| 2 <= k < e implies ident_part(#[trigger] s[k]) by {
        assert(s[k] == name[k - 1]);
    }
    assert(s[e] == rest[0]);
    lemma_ident_end_is(s, 2, e);
    assert(s[1] == name[0]);
    assert(seg_at(s, e) is None);
    assert(segs_from(s, e) is None);
}

} // verus!
