//! Text as sequences of characters.
//!
//! A `str` or a `String` is modelled by its view, a `Seq<char>`. The functions here work on
//! character vectors, so no index ever falls inside a multi-byte character.
use vstd::prelude::*;

verus! {

/// `String::push` appends one character.
pub assume_specification[ String::push ](s: &mut String, c: char)
    ensures
        final(s)@ == old(s)@.push(c),
;

/// `String::push_str` appends a string slice.
pub assume_specification[ String::push_str ](s: &mut String, other: &str)
    ensures
        final(s)@ == old(s)@ + other@,
;

/// The upper case of a text, as `str::to_uppercase` gives it.
pub uninterp spec fn uppercase(s: Seq<char>) -> Seq<char>;

/// `str::to_uppercase` maps a text to upper case by the tables of Unicode. The result depends on
/// the text alone; in a text of ASCII characters the letters from `a` to `z` become those from
/// `A` to `Z`, and nothing else changes.
#[verifier::external_body]
pub(crate) fn to_upper(s: &str) -> (r: String)
    ensures
        r@ == uppercase(s@),
        is_ascii_text(s@) ==> r@ == upper(s@),
{
    s.to_uppercase()
}

/// The text that `str::to_lowercase` gives.
pub uninterp spec fn lowercase(s: Seq<char>) -> Seq<char>;

/// A text in lower case, by `str::to_lowercase`. It depends on the text alone; in a text of
/// ASCII characters the letters from `A` to `Z` become those from `a` to `z`, and nothing else
/// changes.
#[verifier::external_body]
pub(crate) fn to_lowercase(s: &str) -> (r: String)
    ensures
        r@ == lowercase(s@),
        is_ascii_text(s@) ==> r@ == lower(s@),
{
    s.to_lowercase()
}

// ---- views of containers ---------------------------------------------------------------

/// The views of the elements of a sequence.
pub open spec fn views<T: View>(s: Seq<T>) -> Seq<T::V> {
    s.map_values(|t: T| t@)
}

/// The view of an optional value.
pub open spec fn opt_view<T: View>(o: Option<T>) -> Option<T::V> {
    match o {
        Some(t) => Some(t@),
        None => None,
    }
}

/// The view of an optional borrowed text.
pub open spec fn opt_text(o: Option<&str>) -> Option<Seq<char>> {
    match o {
        Some(t) => Some(t@),
        None => None,
    }
}

/// The views of the elements of an optional vector.
pub open spec fn opt_views<T: View>(o: Option<Vec<T>>) -> Option<Seq<T::V>> {
    match o {
        Some(v) => Some(views(v@)),
        None => None,
    }
}

/// Pushing a value pushes its view.
pub proof fn lemma_views_push<T: View>(s: Seq<T>, t: T)
    ensures
        views(s.push(t)) == views(s).push(t@),
{
    assert(views(s.push(t)) =~= views(s).push(t@));
}

// ---- character classes -----------------------------------------------------------------

/// The Unicode property `White_Space`.
pub open spec fn is_white(c: char) -> bool {
    let u = c as u32;
    ||| 0x9 <= u <= 0xD
    ||| u == 0x20
    ||| u == 0x85
    ||| u == 0xA0
    ||| u == 0x1680
    ||| 0x2000 <= u <= 0x200A
    ||| u == 0x2028
    ||| u == 0x2029
    ||| u == 0x202F
    ||| u == 0x205F
    ||| u == 0x3000
}

/// Whether a character is white space.
pub fn white(c: char) -> (r: bool)
    ensures
        r == is_white(c),
{
    let u: u32 = c as u32;
    (0x9 <= u && u <= 0xD) || u == 0x20 || u == 0x85 || u == 0xA0 || u == 0x1680 || (0x2000 <= u && u
        <= 0x200A) || u == 0x2028 || u == 0x2029 || u == 0x202F || u == 0x205F || u == 0x3000
}

/// The Unicode general category `Cc` (control).
pub open spec fn is_control(c: char) -> bool {
    let u = c as u32;
    u <= 0x1F || 0x7F <= u <= 0x9F
}

/// Whether a character is a control character.
pub fn control(c: char) -> (r: bool)
    ensures
        r == is_control(c),
{
    let u: u32 = c as u32;
    u <= 0x1F || (0x7F <= u && u <= 0x9F)
}

/// White space of ASCII: tab, line feed, form feed, carriage return and space.
pub open spec fn is_ascii_white(c: char) -> bool {
    c == '\t' || c == '\n' || c == '\x0C' || c == '\r' || c == ' '
}

/// Whether a character is ASCII white space.
pub fn ascii_white(c: char) -> (r: bool)
    ensures
        r == is_ascii_white(c),
{
    c == '\t' || c == '\n' || c == '\x0C' || c == '\r' || c == ' '
}

/// An ASCII decimal digit.
pub open spec fn is_digit(c: char) -> bool {
    0x30 <= c as u32 <= 0x39
}

/// Whether a character is an ASCII digit.
pub fn digit(c: char) -> (r: bool)
    ensures
        r == is_digit(c),
{
    let u: u32 = c as u32;
    0x30 <= u && u <= 0x39
}

/// An ASCII letter.
pub open spec fn is_alpha(c: char) -> bool {
    0x41 <= c as u32 <= 0x5A || 0x61 <= c as u32 <= 0x7A
}

/// Whether a character is an ASCII letter.
pub fn alpha(c: char) -> (r: bool)
    ensures
        r == is_alpha(c),
{
    let u: u32 = c as u32;
    (0x41 <= u && u <= 0x5A) || (0x61 <= u && u <= 0x7A)
}

/// An ASCII letter or digit.
pub open spec fn is_alnum(c: char) -> bool {
    is_alpha(c) || is_digit(c)
}

/// Whether a character is an ASCII letter or digit.
pub fn alnum(c: char) -> (r: bool)
    ensures
        r == is_alnum(c),
{
    alpha(c) || digit(c)
}

/// The ASCII lower case of a character; other characters are unchanged.
pub open spec fn lower_char(c: char) -> char {
    if 0x41 <= c as u32 <= 0x5A {
        ((c as u32) + 32) as char
    } else {
        c
    }
}

/// The ASCII lower case of a character.
pub fn to_lower_char(c: char) -> (r: char)
    ensures
        r == lower_char(c),
{
    let u: u32 = c as u32;
    if 0x41 <= u && u <= 0x5A {
        let b: u8 = (u + 32) as u8;
        b as char
    } else {
        c
    }
}

// ---- conversions -----------------------------------------------------------------------

/// The characters of a text.
pub fn chars_of(s: &str) -> (r: Vec<char>)
    ensures
        r@ == s@,
{
    let mut out: Vec<char> = Vec::new();
    for c in it: s.chars()
        invariant
            out@ == s@.take(it.index() as int),
            it.seq() == s@,
    {
        out.push(c);
        assert(s@.take(it.index() + 1) =~= s@.take(it.index() as int).push(s@[it.index() as int]));
    }
    assert(s@.take(s@.len() as int) =~= s@);
    out
}

/// The text of the characters from `i` up to `j`.
pub fn sub_text(cs: &[char], i: usize, j: usize) -> (r: String)
    requires
        i <= j <= cs@.len(),
    ensures
        r@ == cs@.subrange(i as int, j as int),
{
    let mut out: String = String::new();
    let mut k: usize = i;
    while k < j
        invariant
            i <= k <= j <= cs@.len(),
            out@ == cs@.subrange(i as int, k as int),
        decreases j - k,
    {
        out.push(cs[k]);
        k = k + 1;
        assert(cs@.subrange(i as int, k as int) =~= cs@.subrange(i as int, k - 1).push(cs@[k - 1]));
    }
    out
}

/// The text of a character slice.
pub fn text_of(cs: &[char]) -> (r: String)
    ensures
        r@ == cs@,
{
    let r: String = sub_text(cs, 0, cs.len());
    assert(cs@.subrange(0, cs@.len() as int) =~= cs@);
    r
}

/// A copy of a text.
pub fn copy_text(s: &str) -> (r: String)
    ensures
        r@ == s@,
{
    s.to_owned()
}

/// Two texts joined.
pub fn cat(a: &str, b: &str) -> (r: String)
    ensures
        r@ == a@ + b@,
{
    let mut out: String = a.to_owned();
    out.push_str(b);
    out
}

/// Three texts joined.
pub fn cat3(a: &str, b: &str, c: &str) -> (r: String)
    ensures
        r@ == a@ + b@ + c@,
{
    let mut out: String = a.to_owned();
    out.push_str(b);
    out.push_str(c);
    out
}

/// The view of a vector of texts, copied.
pub fn copy_texts(v: &Vec<String>) -> (r: Vec<String>)
    ensures
        views(r@) == views(v@),
{
    let mut out: Vec<String> = Vec::new();
    let mut i: usize = 0;
    while i < v.len()
        invariant
            i <= v.len(),
            out.len() == i,
            forall|k: int| 0 <= k < i ==> (#[trigger] out@[k])@ == v@[k]@,
        decreases v.len() - i,
    {
        out.push(copy_text(v[i].as_str()));
        i = i + 1;
    }
    assert(views(out@) =~= views(v@));
    out
}

/// A copy of an optional text.
pub fn copy_opt(o: &Option<String>) -> (r: Option<String>)
    ensures
        opt_view(r) == opt_view(*o),
{
    match o {
        Some(s) => Some(copy_text(s.as_str())),
        None => None,
    }
}

// ---- comparison ------------------------------------------------------------------------

/// Whether `p` occurs in `s` at position `i`.
pub open spec fn occurs_at(s: Seq<char>, p: Seq<char>, i: int) -> bool {
    0 <= i && i + p.len() <= s.len() && s.subrange(i, i + p.len()) == p
}

/// Whether `p` occurs in `cs` at position `i`.
pub fn at(cs: &[char], p: &[char], i: usize) -> (r: bool)
    ensures
        r == occurs_at(cs@, p@, i as int),
{
    if cs.len() < p.len() || i > cs.len() - p.len() {
        return false;
    }
    let n: usize = cs.len();
    let mut k: usize = 0;
    while k < p.len()
        invariant
            k <= p@.len(),
            n == cs@.len(),
            i + p@.len() <= n,
            forall|j: int| 0 <= j < k ==> cs@[i + j] == p@[j],
        decreases p@.len() - k,
    {
        if cs[i + k] != p[k] {
            assert(cs@.subrange(i as int, i + p@.len())[k as int] != p@[k as int]);
            return false;
        }
        k = k + 1;
    }
    assert(cs@.subrange(i as int, i + p@.len()) =~= p@);
    true
}

/// Whether two texts are equal.
pub fn same(a: &str, b: &str) -> (r: bool)
    ensures
        r == (a@ == b@),
{
    let x: Vec<char> = chars_of(a);
    let y: Vec<char> = chars_of(b);
    if x.len() != y.len() {
        return false;
    }
    let r: bool = at(x.as_slice(), y.as_slice(), 0);
    assert(x@.subrange(0, x@.len() as int) =~= x@);
    r
}

/// Whether a text begins with another.
pub open spec fn begins(s: Seq<char>, p: Seq<char>) -> bool {
    occurs_at(s, p, 0)
}

/// Whether a text begins with another.
pub fn starts_with(s: &str, p: &str) -> (r: bool)
    ensures
        r == begins(s@, p@),
{
    let x: Vec<char> = chars_of(s);
    let y: Vec<char> = chars_of(p);
    at(x.as_slice(), y.as_slice(), 0)
}

/// Whether a text ends with another.
pub open spec fn ends(s: Seq<char>, p: Seq<char>) -> bool {
    occurs_at(s, p, s.len() - p.len())
}

/// Whether a text ends with another.
pub fn ends_with(s: &str, p: &str) -> (r: bool)
    ensures
        r == ends(s@, p@),
{
    let x: Vec<char> = chars_of(s);
    let y: Vec<char> = chars_of(p);
    if x.len() < y.len() {
        return false;
    }
    at(x.as_slice(), y.as_slice(), x.len() - y.len())
}

/// What follows a prefix.
pub open spec fn after_prefix(s: Seq<char>, p: Seq<char>) -> Option<Seq<char>> {
    if begins(s, p) {
        Some(s.skip(p.len() as int))
    } else {
        None
    }
}

/// What follows a prefix, if the text begins with it.
pub fn strip_prefix(s: &str, p: &str) -> (r: Option<String>)
    ensures
        opt_view(r) == after_prefix(s@, p@),
{
    let x: Vec<char> = chars_of(s);
    let y: Vec<char> = chars_of(p);
    if at(x.as_slice(), y.as_slice(), 0) {
        let t: String = sub_text(x.as_slice(), y.len(), x.len());
        assert(s@.skip(p@.len() as int) =~= t@);
        Some(t)
    } else {
        None
    }
}

/// Whether a text holds ASCII characters only.
pub open spec fn is_ascii_text(s: Seq<char>) -> bool {
    forall|i: int| 0 <= i < s.len() ==> (#[trigger] s[i]) as u32 <= 0x7F
}

/// The ASCII upper case of a character.
pub open spec fn upper_char(c: char) -> char {
    if 0x61 <= c as u32 <= 0x7A {
        ((c as u32) - 32) as char
    } else {
        c
    }
}

/// The ASCII upper case of a text.
pub open spec fn upper(s: Seq<char>) -> Seq<char> {
    s.map_values(|c: char| upper_char(c))
}

/// The ASCII lower case of a text.
pub open spec fn lower(s: Seq<char>) -> Seq<char> {
    s.map_values(|c: char| lower_char(c))
}

/// The ASCII lower case of a text.
pub fn to_lower(s: &str) -> (r: String)
    ensures
        r@ == lower(s@),
{
    let x: Vec<char> = chars_of(s);
    let mut out: String = String::new();
    let mut i: usize = 0;
    while i < x.len()
        invariant
            i <= x@.len(),
            x@ == s@,
            out@ == lower(s@.take(i as int)),
        decreases x@.len() - i,
    {
        out.push(to_lower_char(x[i]));
        i = i + 1;
        assert(lower(s@.take(i as int)) =~= lower(s@.take(i - 1)).push(lower_char(s@[i - 1])));
    }
    assert(s@.take(s@.len() as int) =~= s@);
    out
}

/// Whether two texts are equal up to the case of ASCII letters.
pub fn same_ignoring_case(a: &str, b: &str) -> (r: bool)
    ensures
        r == (lower(a@) == lower(b@)),
{
    let x: String = to_lower(a);
    let y: String = to_lower(b);
    same(x.as_str(), y.as_str())
}

// ---- trimming --------------------------------------------------------------------------

/// A text without its leading white space.
pub open spec fn trim_front(s: Seq<char>) -> Seq<char>
    decreases s.len(),
{
    if s.len() > 0 && is_white(s[0]) {
        trim_front(s.drop_first())
    } else {
        s
    }
}

/// A text without its trailing white space.
pub open spec fn trim_back(s: Seq<char>) -> Seq<char>
    decreases s.len(),
{
    if s.len() > 0 && is_white(s.last()) {
        trim_back(s.drop_last())
    } else {
        s
    }
}

/// A text without leading and trailing white space.
pub open spec fn trim(s: Seq<char>) -> Seq<char> {
    trim_back(trim_front(s))
}

proof fn lemma_trim_front(s: Seq<char>)
    ensures
        trim_front(s).len() > 0 ==> !is_white(trim_front(s)[0]),
    decreases s.len(),
{
    if s.len() > 0 && is_white(s[0]) {
        lemma_trim_front(s.drop_first());
    }
}

proof fn lemma_trim_back(s: Seq<char>)
    ensures
        trim_back(s).len() <= s.len(),
        trim_back(s).len() > 0 ==> !is_white(trim_back(s).last()) && trim_back(s)[0] == s[0],
    decreases s.len(),
{
    if s.len() > 0 && is_white(s.last()) {
        lemma_trim_back(s.drop_last());
    }
}

/// A text that was trimmed has nothing to trim.
pub proof fn lemma_trim_twice(s: Seq<char>)
    ensures
        trim(trim(s)) == trim(s),
        is_blank(trim(s)) <==> is_blank(s),
{
    lemma_trim_front(s);
    lemma_trim_back(trim_front(s));
    let t = trim(s);
    assert(trim_front(t) == t);
    assert(trim_back(t) == t);
}

/// Where the text starts after its leading white space.
pub fn front_of(cs: &[char]) -> (r: usize)
    ensures
        r <= cs@.len(),
        cs@.subrange(r as int, cs@.len() as int) == trim_front(cs@),
{
    let mut i: usize = 0;
    assert(cs@.subrange(0, cs@.len() as int) =~= cs@);
    while i < cs.len() && white(cs[i])
        invariant
            i <= cs@.len(),
            trim_front(cs@.subrange(i as int, cs@.len() as int)) == trim_front(cs@),
        decreases cs@.len() - i,
    {
        assert(cs@.subrange(i as int, cs@.len() as int).drop_first() =~= cs@.subrange(
            i + 1,
            cs@.len() as int,
        ));
        i = i + 1;
    }
    i
}

/// Where the text that starts at `from` ends before its trailing white space.
pub fn back_of(cs: &[char], from: usize) -> (r: usize)
    requires
        from <= cs@.len(),
    ensures
        from <= r <= cs@.len(),
        cs@.subrange(from as int, r as int) == trim_back(cs@.subrange(from as int, cs@.len() as int)),
{
    let mut j: usize = cs.len();
    while j > from && white(cs[j - 1])
        invariant
            from <= j <= cs@.len(),
            trim_back(cs@.subrange(from as int, j as int)) == trim_back(
                cs@.subrange(from as int, cs@.len() as int),
            ),
        decreases j,
    {
        assert(cs@.subrange(from as int, j as int).drop_last() =~= cs@.subrange(from as int, j - 1));
        j = j - 1;
    }
    j
}

/// A text without leading and trailing white space.
pub fn trimmed(s: &str) -> (r: String)
    ensures
        r@ == trim(s@),
{
    let x: Vec<char> = chars_of(s);
    let i: usize = front_of(x.as_slice());
    let j: usize = back_of(x.as_slice(), i);
    sub_text(x.as_slice(), i, j)
}

/// A text without leading white space.
pub fn trimmed_front(s: &str) -> (r: String)
    ensures
        r@ == trim_front(s@),
{
    let x: Vec<char> = chars_of(s);
    let i: usize = front_of(x.as_slice());
    sub_text(x.as_slice(), i, x.len())
}

/// Whether nothing but white space is in a text.
pub open spec fn is_blank(s: Seq<char>) -> bool {
    trim(s).len() == 0
}

/// Whether nothing but white space is in a text.
pub fn blank(s: &str) -> (r: bool)
    ensures
        r == is_blank(s@),
{
    let x: Vec<char> = chars_of(s);
    let i: usize = front_of(x.as_slice());
    let j: usize = back_of(x.as_slice(), i);
    i == j
}

// ---- searching -------------------------------------------------------------------------

/// The first position from `i` on at which `p` occurs in `s`.
pub open spec fn find_from(s: Seq<char>, p: Seq<char>, i: int) -> Option<int>
    decreases s.len() - i,
{
    if i < 0 || i + p.len() > s.len() {
        None
    } else if occurs_at(s, p, i) {
        Some(i)
    } else if i >= s.len() {
        None
    } else {
        find_from(s, p, i + 1)
    }
}

/// The first position from `i` on at which `p` occurs in `cs`.
pub fn find(cs: &[char], p: &[char], from: usize) -> (r: Option<usize>)
    requires
        from <= cs@.len(),
    ensures
        match r {
            Some(i) => find_from(cs@, p@, from as int) == Some(i as int) && from <= i && occurs_at(
                cs@,
                p@,
                i as int,
            ),
            None => find_from(cs@, p@, from as int) is None,
        },
{
    let mut i: usize = from;
    while i <= cs.len() && p.len() <= cs.len() - i
        invariant
            from <= i <= cs@.len(),
            find_from(cs@, p@, from as int) == find_from(cs@, p@, i as int),
        decreases cs@.len() - i,
    {
        if at(cs, p, i) {
            return Some(i);
        }
        if i == cs.len() {
            return None;
        }
        i = i + 1;
    }
    None
}

/// `find_from` finds the least position.
pub proof fn lemma_find_least(s: Seq<char>, p: Seq<char>, i: int, j: int)
    requires
        0 <= i <= j,
        occurs_at(s, p, j),
    ensures
        find_from(s, p, i) is Some,
        find_from(s, p, i)->0 <= j,
    decreases j - i,
{
    if !occurs_at(s, p, i) {
        lemma_find_least(s, p, i + 1, j);
    }
}

/// What `find_from` finds is an occurrence.
pub proof fn lemma_find_occurs(s: Seq<char>, p: Seq<char>, i: int)
    requires
        find_from(s, p, i) is Some,
    ensures
        i <= find_from(s, p, i)->0,
        occurs_at(s, p, find_from(s, p, i)->0),
    decreases s.len() - i,
{
    if !occurs_at(s, p, i) {
        lemma_find_occurs(s, p, i + 1);
    }
}

/// Whether `p` occurs in `s`.
pub open spec fn contains(s: Seq<char>, p: Seq<char>) -> bool {
    exists|i: int| occurs_at(s, p, i)
}

/// Whether `p` occurs in `s`.
pub fn has(s: &str, p: &str) -> (r: bool)
    ensures
        r == contains(s@, p@),
{
    let x: Vec<char> = chars_of(s);
    let y: Vec<char> = chars_of(p);
    let f: Option<usize> = find(x.as_slice(), y.as_slice(), 0);
    proof {
        if contains(s@, p@) {
            let i = choose|i: int| occurs_at(s@, p@, i);
            lemma_find_least(s@, p@, 0, i);
        }
    }
    f.is_some()
}

/// The first position from `i` on that holds `c`, or the length of the text.
pub open spec fn seek(s: Seq<char>, c: char, i: int) -> int
    decreases s.len() - i,
{
    if i >= s.len() {
        s.len() as int
    } else if s[i] == c {
        i
    } else {
        seek(s, c, i + 1)
    }
}

/// Bounds of `seek` and what it skips.
pub proof fn lemma_seek(s: Seq<char>, c: char, i: int)
    requires
        0 <= i <= s.len(),
    ensures
        i <= seek(s, c, i) <= s.len(),
        seek(s, c, i) < s.len() ==> s[seek(s, c, i)] == c,
        forall|k: int| i <= k < seek(s, c, i) ==> s[k] != c,
    decreases s.len() - i,
{
    if i < s.len() && s[i] != c {
        lemma_seek(s, c, i + 1);
    }
}

/// The first position from `from` on that holds `c`, or the length of the slice.
pub fn seek_char(cs: &[char], c: char, from: usize) -> (r: usize)
    requires
        from <= cs@.len(),
    ensures
        r == seek(cs@, c, from as int),
        from <= r <= cs@.len(),
        r < cs@.len() ==> cs@[r as int] == c,
{
    let mut i: usize = from;
    while i < cs.len() && cs[i] != c
        invariant
            from <= i <= cs@.len(),
            seek(cs@, c, i as int) == seek(cs@, c, from as int),
        decreases cs@.len() - i,
    {
        i = i + 1;
    }
    i
}

// ---- splitting and joining -------------------------------------------------------------

/// The pieces of a text between the occurrences of `c`, from position `i` on.
pub open spec fn split_from(s: Seq<char>, c: char, i: int) -> Seq<Seq<char>>
    decreases s.len() - i,
    via split_from_decreases
{
    if i < 0 || i > s.len() {
        seq![]
    } else {
        let j = seek(s, c, i);
        if j >= s.len() {
            seq![s.subrange(i, s.len() as int)]
        } else {
            seq![s.subrange(i, j)] + split_from(s, c, j + 1)
        }
    }
}

#[via_fn]
proof fn split_from_decreases(s: Seq<char>, c: char, i: int) {
    if 0 <= i <= s.len() {
        lemma_seek(s, c, i);
    }
}

/// The pieces of a text between the occurrences of `c`.
pub open spec fn split(s: Seq<char>, c: char) -> Seq<Seq<char>> {
    split_from(s, c, 0)
}

/// The pieces of a text between the occurrences of `c`.
pub fn pieces(s: &str, c: char) -> (r: Vec<String>)
    ensures
        views(r@) == split(s@, c),
        r@.len() > 0,
{
    let x: Vec<char> = chars_of(s);
    let mut out: Vec<String> = Vec::new();
    let mut i: usize = 0;
    loop
        invariant_except_break
            i <= x@.len(),
            views(out@) + split_from(s@, c, i as int) == split(s@, c),
        invariant
            x@ == s@,
        ensures
            views(out@) == split(s@, c),
            out@.len() > 0,
        decreases x@.len() - i,
    {
        let j: usize = seek_char(x.as_slice(), c, i);
        let piece: String = sub_text(x.as_slice(), i, j);
        let ghost before = out@;
        out.push(piece);
        proof {
            lemma_views_push(before, piece);
        }
        if j >= x.len() {
            assert(views(out@) =~= views(before) + split_from(s@, c, i as int));
            break;
        }
        assert(views(out@) + split_from(s@, c, j + 1) =~= views(before) + split_from(s@, c, i as int));
        i = j + 1;
    }
    out
}

/// Texts joined with a separator between each two.
pub open spec fn join(parts: Seq<Seq<char>>, sep: Seq<char>) -> Seq<char>
    decreases parts.len(),
{
    if parts.len() == 0 {
        seq![]
    } else if parts.len() == 1 {
        parts[0]
    } else {
        join(parts.drop_last(), sep) + sep + parts.last()
    }
}

/// What `seek` finds is the only position that holds `c` after none.
pub proof fn lemma_seek_is(s: Seq<char>, c: char, i: int, j: int)
    requires
        0 <= i <= j <= s.len(),
        forall|k: int| i <= k < j ==> s[k] != c,
        j < s.len() ==> s[j] == c,
    ensures
        seek(s, c, i) == j,
    decreases j - i,
{
    if i < j {
        lemma_seek_is(s, c, i + 1, j);
    }
}

/// A piece after one more separator is one more piece.
pub proof fn lemma_split_append(a: Seq<char>, c: char, b: Seq<char>, i: int)
    requires
        0 <= i <= a.len(),
        !b.contains(c),
    ensures
        split_from(a + seq![c] + b, c, i) == split_from(a, c, i).push(b),
    decreases a.len() - i,
{
    let s = a + seq![c] + b;
    let j = seek(a, c, i);
    lemma_seek(a, c, i);
    assert forall|k: int| i <= k < j implies s[k] != c by {
        assert(s[k] == a[k]);
    }
    lemma_seek_is(s, c, i, j);
    assert(s.subrange(i, j) =~= a.subrange(i, j));
    if j < a.len() {
        lemma_split_append(a, c, b, j + 1);
        assert(split_from(s, c, i) =~= split_from(a, c, i).push(b));
    } else {
        assert forall|k: int| j + 1 <= k < s.len() implies s[k] != c by {
            assert(s[k] == b[k - j - 1]);
        }
        lemma_seek_is(s, c, j + 1, s.len() as int);
        assert(s.subrange(j + 1, s.len() as int) =~= b);
        assert(split_from(s, c, j + 1) =~= seq![b]);
        assert(split_from(a, c, i) =~= seq![a.subrange(i, j)]);
        assert(split_from(s, c, i) =~= split_from(a, c, i).push(b));
    }
}

/// Pieces that are joined are the pieces between the separators again.
pub proof fn law_split_joined(parts: Seq<Seq<char>>, c: char)
    requires
        parts.len() > 0,
        forall|i: int| 0 <= i < parts.len() ==> !(#[trigger] parts[i]).contains(c),
    ensures
        split(join(parts, seq![c]), c) == parts,
    decreases parts.len(),
{
    let last = parts.last();
    if parts.len() == 1 {
        assert forall|k: int| 0 <= k < last.len() implies last[k] != c by {
            assert(last.contains(last[k]));
        }
        lemma_seek_is(last, c, 0, last.len() as int);
        assert(last.subrange(0, last.len() as int) =~= last);
        assert(split(join(parts, seq![c]), c) =~= parts);
    } else {
        let d = parts.drop_last();
        assert forall|i: int| 0 <= i < d.len() implies !(#[trigger] d[i]).contains(c) by {
            assert(d[i] == parts[i]);
        }
        law_split_joined(d, c);
        assert(!parts[parts.len() - 1].contains(c));
        lemma_split_append(join(d, seq![c]), c, last, 0);
        assert(d.push(last) =~= parts);
    }
}

proof fn lemma_join_front(a: Seq<char>, rest: Seq<Seq<char>>, sep: Seq<char>)
    requires
        rest.len() > 0,
    ensures
        join(seq![a] + rest, sep) == a + sep + join(rest, sep),
    decreases rest.len(),
{
    let all = seq![a] + rest;
    assert(all.drop_last() =~= seq![a] + rest.drop_last());
    assert(all.last() == rest.last());
    if rest.len() == 1 {
        assert(all.drop_last() =~= seq![a]);
        assert(join(all.drop_last(), sep) == a);
        assert(join(rest, sep) == rest.last());
        assert(join(all, sep) =~= a + sep + join(rest, sep));
    } else {
        lemma_join_front(a, rest.drop_last(), sep);
        assert(join(all, sep) =~= a + sep + join(rest, sep));
    }
}

proof fn lemma_joined_from(s: Seq<char>, c: char, i: int)
    requires
        0 <= i <= s.len(),
    ensures
        split_from(s, c, i).len() > 0,
        forall|k: int| 0 <= k < split_from(s, c, i).len() ==> !(#[trigger] split_from(s, c, i)[k]).contains(c),
        join(split_from(s, c, i), seq![c]) == s.skip(i),
    decreases s.len() - i,
{
    let j = seek(s, c, i);
    lemma_seek(s, c, i);
    let first = s.subrange(i, j);
    assert forall|k: int| 0 <= k < first.len() implies first[k] != c by {
        assert(first[k] == s[i + k]);
    }
    if j < s.len() {
        let rest = split_from(s, c, j + 1);
        lemma_joined_from(s, c, j + 1);
        lemma_join_front(first, rest, seq![c]);
        assert(first + seq![c] + s.skip(j + 1) =~= s.skip(i));
        let all = split_from(s, c, i);
        assert(all =~= seq![first] + rest);
        assert forall|k: int| 0 <= k < all.len() implies !(#[trigger] all[k]).contains(c) by {
            if k > 0 {
                assert(all[k] == rest[k - 1]);
            }
        }
    } else {
        assert(first =~= s.skip(i));
        assert(split_from(s, c, i) =~= seq![first]);
    }
}

/// The pieces between the separators of a text hold none and give the text again when they are
/// joined.
pub proof fn law_joined_split(s: Seq<char>, c: char)
    ensures
        split(s, c).len() > 0,
        forall|k: int| 0 <= k < split(s, c).len() ==> !(#[trigger] split(s, c)[k]).contains(c),
        join(split(s, c), seq![c]) == s,
{
    lemma_joined_from(s, c, 0);
    assert(s.skip(0) =~= s);
}

/// Texts joined with a separator between each two.
pub fn joined(parts: &Vec<String>, sep: &str) -> (r: String)
    ensures
        r@ == join(views(parts@), sep@),
{
    let mut out: String = String::new();
    let mut i: usize = 0;
    while i < parts.len()
        invariant
            i <= parts@.len(),
            out@ == join(views(parts@).take(i as int), sep@),
        decreases parts@.len() - i,
    {
        if i > 0 {
            out.push_str(sep);
        }
        out.push_str(parts[i].as_str());
        i = i + 1;
        proof {
            let t = views(parts@).take(i as int);
            assert(t.drop_last() =~= views(parts@).take(i - 1));
            assert(t.last() == parts@[i - 1]@);
            if i == 1 {
                assert(out@ =~= t[0]);
            }
        }
    }
    assert(views(parts@).take(parts@.len() as int) =~= views(parts@));
    out
}

/// A text with every occurrence of `p` from position `i` on, taken left to right without
/// overlap, replaced by `to`.
pub open spec fn replace_from(s: Seq<char>, p: Seq<char>, to: Seq<char>, i: int) -> Seq<char>
    decreases s.len() - i,
{
    if i < 0 || i >= s.len() {
        seq![]
    } else if p.len() > 0 && occurs_at(s, p, i) {
        to + replace_from(s, p, to, i + p.len())
    } else {
        seq![s[i]] + replace_from(s, p, to, i + 1)
    }
}

/// A text with every occurrence of the non-empty `p` replaced by `to`.
pub open spec fn replace(s: Seq<char>, p: Seq<char>, to: Seq<char>) -> Seq<char> {
    replace_from(s, p, to, 0)
}

/// A text with every occurrence of the non-empty `p` replaced by `to`.
pub fn replaced(s: &str, p: &str, to: &str) -> (r: String)
    requires
        p@.len() > 0,
    ensures
        r@ == replace(s@, p@, to@),
{
    let x: Vec<char> = chars_of(s);
    let y: Vec<char> = chars_of(p);
    let mut out: String = String::new();
    let mut i: usize = 0;
    while i < x.len()
        invariant
            i <= x@.len(),
            x@ == s@,
            y@ == p@,
            p@.len() > 0,
            out@ + replace_from(s@, p@, to@, i as int) == replace(s@, p@, to@),
        decreases x@.len() - i,
    {
        let ghost before = out@;
        if at(x.as_slice(), y.as_slice(), i) {
            out.push_str(to);
            assert(out@ + replace_from(s@, p@, to@, i + p@.len()) =~= before + replace_from(
                s@,
                p@,
                to@,
                i as int,
            ));
            i = i + y.len();
        } else {
            out.push(x[i]);
            assert(out@ + replace_from(s@, p@, to@, i + 1) =~= before + replace_from(
                s@,
                p@,
                to@,
                i as int,
            ));
            i = i + 1;
        }
    }
    assert(out@ + replace_from(s@, p@, to@, i as int) =~= out@);
    out
}

/// A character that separates the parts of a path.
pub open spec fn is_slash(c: char) -> bool {
    c == '/' || c == '\\'
}

/// What follows the last path separator of a text.
pub open spec fn last_segment(s: Seq<char>) -> Seq<char>
    decreases s.len(),
{
    if s.len() == 0 || is_slash(s.last()) {
        seq![]
    } else {
        last_segment(s.drop_last()).push(s.last())
    }
}

proof fn lemma_last_segment(s: Seq<char>, j: int)
    requires
        0 <= j <= s.len(),
        j == 0 || is_slash(s[j - 1]),
        forall|k: int| j <= k < s.len() ==> !is_slash(#[trigger] s[k]),
    ensures
        last_segment(s) == s.subrange(j, s.len() as int),
    decreases s.len(),
{
    if s.len() == j {
        assert(last_segment(s) =~= s.subrange(j, s.len() as int));
    } else {
        let t = s.drop_last();
        assert(forall|k: int| j <= k < t.len() ==> t[k] == s[k]);
        lemma_last_segment(t, j);
        assert(t.subrange(j, t.len() as int).push(s.last()) =~= s.subrange(j, s.len() as int));
    }
}

/// What follows the last path separator of a text.
pub fn last_part(s: &str) -> (r: String)
    ensures
        r@ == last_segment(s@),
{
    let x: Vec<char> = chars_of(s);
    let mut j: usize = x.len();
    while j > 0 && x[j - 1] != '/' && x[j - 1] != '\\'
        invariant
            j <= x@.len(),
            forall|k: int| j <= k < x@.len() ==> !is_slash(#[trigger] x@[k]),
        decreases j,
    {
        j = j - 1;
    }
    proof {
        lemma_last_segment(x@, j as int);
    }
    sub_text(x.as_slice(), j, x.len())
}

// ---- numbers ---------------------------------------------------------------------------

/// The character of a decimal digit.
pub open spec fn digit_char(d: int) -> char {
    (0x30 + d) as char
}

/// A natural number in decimal.
pub open spec fn nat_text(n: nat) -> Seq<char>
    decreases n,
{
    if n < 10 {
        seq![digit_char(n as int)]
    } else {
        nat_text(n / 10).push(digit_char((n % 10) as int))
    }
}

/// An integer in decimal.
pub open spec fn int_text(n: int) -> Seq<char> {
    if n < 0 {
        seq!['-'] + nat_text((-n) as nat)
    } else {
        nat_text(n as nat)
    }
}

/// The character of a decimal digit.
pub fn digit_of(d: u8) -> (r: char)
    requires
        d < 10,
    ensures
        r == digit_char(d as int),
{
    (0x30 + d) as char
}

/// A natural number in decimal.
pub fn u128_text(n: u128) -> (r: String)
    ensures
        r@ == nat_text(n as nat),
    decreases n,
{
    let d: u8 = (n % 10) as u8;
    let mut out: String = if n < 10 {
        String::new()
    } else {
        u128_text(n / 10)
    };
    out.push(digit_of(d));
    assert(n < 10 ==> out@ =~= seq![digit_char(n as int)]);
    out
}

/// A natural number in decimal.
pub fn u64_text(n: u64) -> (r: String)
    ensures
        r@ == nat_text(n as nat),
{
    u128_text(n as u128)
}

/// A size in decimal.
pub fn usize_text(n: usize) -> (r: String)
    ensures
        r@ == nat_text(n as nat),
{
    u128_text(n as u128)
}

/// An integer in decimal.
pub fn i64_text(n: i64) -> (r: String)
    ensures
        r@ == int_text(n as int),
{
    if n < 0 {
        let m: u128 = (-(n as i128)) as u128;
        let t: String = u128_text(m);
        let mut out: String = String::new();
        out.push('-');
        out.push_str(t.as_str());
        assert(out@ =~= seq!['-'] + nat_text(m as nat));
        out
    } else {
        u128_text(n as u128)
    }
}

/// A natural number in decimal, filled with leading zeros up to `w` digits.
pub open spec fn padded(n: nat, w: nat) -> Seq<char> {
    let t = nat_text(n);
    if t.len() >= w {
        t
    } else {
        Seq::new((w - t.len()) as nat, |i: int| '0') + t
    }
}

/// The number of characters of a text.
pub fn char_count(s: &str) -> (r: usize)
    ensures
        r == s@.len(),
{
    let x: Vec<char> = chars_of(s);
    x.len()
}

/// Whether a text has no characters.
pub fn empty(s: &str) -> (r: bool)
    ensures
        r == (s@.len() == 0),
{
    char_count(s) == 0
}

/// Appends `n` copies of a character.
pub fn fill(out: &mut String, c: char, n: usize)
    ensures
        final(out)@ == old(out)@ + Seq::new(n as nat, |i: int| c),
{
    let ghost start = out@;
    let mut i: usize = 0;
    assert(out@ =~= start + Seq::new(0nat, |k: int| c));
    while i < n
        invariant
            i <= n,
            out@ == start + Seq::new(i as nat, |k: int| c),
        decreases n - i,
    {
        out.push(c);
        i = i + 1;
        assert(out@ =~= start + Seq::new(i as nat, |k: int| c));
    }
}

/// Appends a natural number in decimal with leading zeros up to `w` digits.
pub fn push_padded(out: &mut String, n: u64, w: usize)
    ensures
        final(out)@ == old(out)@ + padded(n as nat, w as nat),
{
    let ghost start = out@;
    let t: String = u64_text(n);
    let l: usize = char_count(t.as_str());
    if l < w {
        fill(out, '0', w - l);
    }
    out.push_str(t.as_str());
    assert(out@ =~= start + padded(n as nat, w as nat));
}

// ---- copying ---------------------------------------------------------------------------

/// A value that can be duplicated with its view kept.
pub trait Duplicate: View + Sized {
    /// A value with the same view.
    fn duplicate(&self) -> (r: Self)
        ensures
            r@ == self@,
    ;
}

impl Duplicate for String {
    fn duplicate(&self) -> (r: Self) {
        copy_text(self.as_str())
    }
}

/// A duplicate of every element.
pub fn duplicates<T: Duplicate>(v: &Vec<T>) -> (r: Vec<T>)
    ensures
        views(r@) == views(v@),
{
    let mut out: Vec<T> = Vec::new();
    let mut i: usize = 0;
    while i < v.len()
        invariant
            i <= v.len(),
            out.len() == i,
            forall|k: int| 0 <= k < i ==> (#[trigger] out@[k])@ == v@[k]@,
        decreases v.len() - i,
    {
        out.push(v[i].duplicate());
        i = i + 1;
    }
    assert(views(out@) =~= views(v@));
    out
}

/// A duplicate of an optional value.
pub fn duplicate_opt<T: Duplicate>(o: &Option<T>) -> (r: Option<T>)
    ensures
        opt_view(r) == opt_view(*o),
{
    match o {
        Some(t) => Some(t.duplicate()),
        None => None,
    }
}

/// A duplicate of an optional vector.
pub fn duplicates_opt<T: Duplicate>(o: &Option<Vec<T>>) -> (r: Option<Vec<T>>)
    ensures
        opt_views(r) == opt_views(*o),
{
    match o {
        Some(v) => Some(duplicates(v)),
        None => None,
    }
}

// ---- bytes -----------------------------------------------------------------------------

/// The number of bytes that UTF-8 takes for a character.
pub open spec fn char_bytes(c: char) -> nat {
    let u = c as u32;
    if u < 0x80 {
        1
    } else if u < 0x800 {
        2
    } else if u < 0x10000 {
        3
    } else {
        4
    }
}

/// The number of bytes that UTF-8 takes for a character.
pub fn char_width_of(c: char) -> (r: usize)
    ensures
        r == char_bytes(c),
        1 <= r <= 4,
{
    let u: u32 = c as u32;
    if u < 0x80 {
        1
    } else if u < 0x800 {
        2
    } else if u < 0x10000 {
        3
    } else {
        4
    }
}

/// The number of bytes that UTF-8 takes for a text.
pub open spec fn byte_len(s: Seq<char>) -> nat
    decreases s.len(),
{
    if s.len() == 0 {
        0
    } else {
        char_bytes(s[0]) + byte_len(s.drop_first())
    }
}

/// `byte_len` is the length of the UTF-8 encoding.
pub proof fn lemma_byte_len(s: Seq<char>)
    ensures
        byte_len(s) == vstd::utf8::encode_utf8(s).len(),
    decreases s.len(),
{
    if s.len() > 0 {
        vstd::utf8::char_is_scalar(s[0]);
        lemma_byte_len(s.drop_first());
    }
}

/// The number of bytes of a text in UTF-8.
pub fn bytes_of(s: &str) -> (r: usize)
    ensures
        r == byte_len(s@),
{
    let n: usize = s.as_bytes().len();
    proof {
        lemma_byte_len(s@);
    }
    n
}

/// The longest beginning of a text that takes at most `max` bytes in UTF-8.
pub open spec fn clip(s: Seq<char>, max: nat) -> Seq<char>
    decreases s.len(),
{
    if s.len() == 0 || char_bytes(s[0]) > max {
        seq![]
    } else {
        seq![s[0]] + clip(s.drop_first(), (max - char_bytes(s[0])) as nat)
    }
}

/// The longest beginning of a text that takes at most `max` bytes in UTF-8.
pub fn clipped(s: &str, max: usize) -> (r: String)
    ensures
        r@ == clip(s@, max as nat),
{
    let x: Vec<char> = chars_of(s);
    let mut left: usize = max;
    let mut i: usize = 0;
    assert(s@.skip(0) =~= s@);
    assert(s@.take(0) + clip(s@, max as nat) =~= clip(s@, max as nat));
    while i < x.len() && char_width_of(x[i]) <= left
        invariant
            i <= x@.len(),
            x@ == s@,
            clip(s@, max as nat) == s@.take(i as int) + clip(s@.skip(i as int), left as nat),
        decreases x@.len() - i,
    {
        let w: usize = char_width_of(x[i]);
        proof {
            let rest = s@.skip(i as int);
            assert(rest.drop_first() =~= s@.skip(i + 1));
            assert(s@.take(i as int) + clip(rest, left as nat) =~= s@.take(i + 1) + clip(
                s@.skip(i + 1),
                (left - w) as nat,
            ));
        }
        left = left - w;
        i = i + 1;
    }
    let r: String = sub_text(x.as_slice(), 0, i);
    assert(r@ =~= s@.take(i as int) + clip(s@.skip(i as int), left as nat));
    r
}

/// A clipped text is a beginning of the text, within the limit, and no longer beginning fits.
pub proof fn law_clip(s: Seq<char>, max: nat)
    ensures
        clip(s, max).is_prefix_of(s),
        byte_len(clip(s, max)) <= max,
        clip(s, max).len() < s.len() ==> byte_len(s.take((clip(s, max).len() + 1) as int)) > max,
        byte_len(s) <= max ==> clip(s, max) == s,
    decreases s.len(),
{
    if s.len() == 0 || char_bytes(s[0]) > max {
        if s.len() > 0 {
            assert(s.take(1)[0] == s[0]);
            assert(s.take(1).drop_first() =~= seq![]);
            assert(byte_len(s.take(1)) == char_bytes(s[0]) + byte_len(seq![]));
        }
    } else {
        let m = (max - char_bytes(s[0])) as nat;
        let t = s.drop_first();
        law_clip(t, m);
        let c = clip(s, max);
        assert(c.drop_first() =~= clip(t, m));
        assert(c =~= s.take(c.len() as int));
        if c.len() < s.len() {
            let longer = s.take((c.len() + 1) as int);
            assert(longer.drop_first() =~= t.take((clip(t, m).len() + 1) as int));
        }
    }
}

// ---- lines -----------------------------------------------------------------------------

/// Lines, each with a newline behind it.
pub open spec fn lines_text(ls: Seq<Seq<char>>) -> Seq<char>
    decreases ls.len(),
{
    if ls.len() == 0 {
        seq![]
    } else {
        lines_text(ls.drop_last()) + ls.last() + seq!['\n']
    }
}

/// Lines behind lines.
pub proof fn lemma_lines_concat(a: Seq<Seq<char>>, b: Seq<Seq<char>>)
    ensures
        lines_text(a + b) == lines_text(a) + lines_text(b),
    decreases b.len(),
{
    if b.len() == 0 {
        assert(a + b =~= a);
        assert(lines_text(a) + lines_text(b) =~= lines_text(a));
    } else {
        lemma_lines_concat(a, b.drop_last());
        assert((a + b).drop_last() =~= a + b.drop_last());
        assert(lines_text(a + b) =~= lines_text(a) + lines_text(b));
    }
}

/// Writes a line behind lines.
pub fn push_line(
    out: &mut String,
    s: &str,
    Ghost(start): Ghost<Seq<char>>,
    Ghost(ls): Ghost<Seq<Seq<char>>>,
)
    requires
        old(out)@ == start + lines_text(ls),
    ensures
        final(out)@ == start + lines_text(ls.push(s@)),
{
    out.push_str(s);
    out.push('\n');
    proof {
        assert(ls.push(s@).drop_last() =~= ls);
        assert(out@ =~= start + lines_text(ls.push(s@)));
    }
}

// ---- laws of texts -----------------------------------------------------------------------

/// Whether a text is nothing but white space.
pub open spec fn all_white(s: Seq<char>) -> bool {
    forall|i: int| 0 <= i < s.len() ==> is_white(#[trigger] s[i])
}

proof fn lemma_trim_front_of(front: Seq<char>, s: Seq<char>)
    requires
        all_white(front),
        s.len() > 0 ==> !is_white(s[0]),
    ensures
        trim_front(front + s) == s,
    decreases front.len(),
{
    let t = front + s;
    if front.len() > 0 {
        assert(t[0] == front[0]);
        assert(t.drop_first() =~= front.drop_first() + s);
        assert forall|i: int| 0 <= i < front.drop_first().len() implies is_white(
            #[trigger] front.drop_first()[i],
        ) by {
            assert(front.drop_first()[i] == front[i + 1]);
        }
        lemma_trim_front_of(front.drop_first(), s);
    } else {
        assert(t =~= s);
    }
}

proof fn lemma_trim_back_of(s: Seq<char>, back: Seq<char>)
    requires
        all_white(back),
        s.len() > 0 ==> !is_white(s.last()),
    ensures
        trim_back(s + back) == s,
    decreases back.len(),
{
    let t = s + back;
    if back.len() > 0 {
        assert(t.last() == back[back.len() - 1]);
        assert(t.drop_last() =~= s + back.drop_last());
        assert forall|i: int| 0 <= i < back.drop_last().len() implies is_white(
            #[trigger] back.drop_last()[i],
        ) by {
            assert(back.drop_last()[i] == back[i]);
        }
        lemma_trim_back_of(s, back.drop_last());
    } else {
        assert(t =~= s);
    }
}

/// Trimming takes the white space off both ends and nothing else; of nothing but white space
/// nothing is left, and only of that.
pub proof fn law_trim(front: Seq<char>, s: Seq<char>, back: Seq<char>)
    requires
        all_white(front),
        all_white(back),
        s.len() > 0 ==> !is_white(s[0]) && !is_white(s.last()),
    ensures
        trim(front + s + back) == s,
        is_blank(front + s + back) <==> s.len() == 0,
{
    if s.len() > 0 {
        assert((s + back)[0] == s[0]);
        assert(front + s + back =~= front + (s + back));
        lemma_trim_front_of(front, s + back);
        lemma_trim_back_of(s, back);
    } else {
        let w = front + back;
        assert(front + s + back =~= w + s);
        assert forall|i: int| 0 <= i < w.len() implies is_white(#[trigger] w[i]) by {
            if i < front.len() {
                assert(w[i] == front[i]);
            } else {
                assert(w[i] == back[i - front.len()]);
            }
        }
        lemma_trim_front_of(w, s);
        assert(trim_back(s) == s);
    }
}

/// Lower case and upper case change letters of ASCII, place by place, and nothing else.
pub proof fn law_cases(s: Seq<char>, i: int)
    requires
        0 <= i < s.len(),
    ensures
        lower(s).len() == s.len(),
        upper(s).len() == s.len(),
        'A' as u32 <= s[i] as u32 <= 'Z' as u32 ==> lower(s)[i] as u32 == s[i] as u32 + 32 && upper(
            s,
        )[i] == s[i],
        'a' as u32 <= s[i] as u32 <= 'z' as u32 ==> upper(s)[i] as u32 + 32 == s[i] as u32 && lower(
            s,
        )[i] == s[i],
        !('A' as u32 <= s[i] as u32 <= 'Z' as u32) && !('a' as u32 <= s[i] as u32 <= 'z' as u32)
            ==> lower(s)[i] == s[i] && upper(s)[i] == s[i],
{
}

/// The last part of a path is what follows its last separator, whichever it is.
pub proof fn law_last_segment(front: Seq<char>, name: Seq<char>)
    requires
        forall|i: int| 0 <= i < name.len() ==> !is_slash(#[trigger] name[i]),
    ensures
        last_segment(name) == name,
        last_segment(front + seq!['/'] + name) == name,
        last_segment(front + seq!['\\'] + name) == name,
{
    let a = front + seq!['/'] + name;
    let b = front + seq!['\\'] + name;
    let j = front.len() as int + 1;
    lemma_last_segment(name, 0);
    assert(name.subrange(0, name.len() as int) =~= name);
    assert forall|k: int| j <= k < a.len() implies !is_slash(#[trigger] a[k]) by {
        assert(a[k] == name[k - j]);
    }
    assert forall|k: int| j <= k < b.len() implies !is_slash(#[trigger] b[k]) by {
        assert(b[k] == name[k - j]);
    }
    lemma_last_segment(a, j);
    lemma_last_segment(b, j);
    assert(a.subrange(j, a.len() as int) =~= name);
    assert(b.subrange(j, b.len() as int) =~= name);
}

} // verus!
