//! Which files are cases.
//!
//! A file that is named is always taken. Only a walk through a directory leaves files out.
use crate::table::lemma_code_points;
use crate::text::{
    begins, char_count, chars_of, copy_text, empty, ends, ends_with, lemma_views_push, lower, same,
    same_ignoring_case, starts_with, sub_text, views,
};
use crate::workspace::{file_name, file_name_of, law_file_name, CONFIG_FILE};
use vstd::prelude::*;

verus! {

/// Whether a directory is never walked into.
pub open spec fn is_skipped_dir(name: Seq<char>) -> bool {
    name == "node_modules"@ || name == "target"@ || name == "dist"@
}

/// What follows the last dot of a name, where something stands before it.
pub open spec fn extension_of(name: Seq<char>) -> Option<Seq<char>>
    decreases name.len(),
{
    if name.len() <= 1 {
        None
    } else if name.last() == '.' {
        Some(seq![])
    } else {
        match extension_of(name.drop_last()) {
            Some(e) => Some(e.push(name.last())),
            None => None,
        }
    }
}

/// What follows the last dot of a name.
pub fn extension(name: &str) -> (r: Option<String>)
    ensures
        crate::text::opt_view(r) == extension_of(name@),
{
    let cs: Vec<char> = chars_of(name);
    let mut i: usize = cs.len();
    assert(cs@.take(i as int) =~= cs@);
    while i > 1 && cs[i - 1] != '.'
        invariant
            i <= cs@.len(),
            forall|k: int| i <= k < cs@.len() ==> cs@[k] != '.',
        decreases i,
    {
        i = i - 1;
    }
    if i <= 1 {
        proof {
            lemma_no_extension(cs@);
        }
        return None;
    }
    let e: String = sub_text(cs.as_slice(), i, cs.len());
    proof {
        lemma_extension(cs@, i as int);
    }
    Some(e)
}

proof fn lemma_no_extension(s: Seq<char>)
    requires
        forall|k: int| 1 <= k < s.len() ==> s[k] != '.',
    ensures
        extension_of(s) is None,
    decreases s.len(),
{
    if s.len() > 1 {
        assert(s.last() == s[s.len() - 1]);
        lemma_no_extension(s.drop_last());
    }
}

proof fn lemma_extension(s: Seq<char>, i: int)
    requires
        1 < i <= s.len(),
        s[i - 1] == '.',
        forall|k: int| i <= k < s.len() ==> s[k] != '.',
    ensures
        extension_of(s) == Some(s.subrange(i, s.len() as int)),
    decreases s.len(),
{
    if i == s.len() {
        assert(s.subrange(i, s.len() as int) =~= seq![]);
    } else {
        assert(s.last() == s[s.len() - 1]);
        lemma_extension(s.drop_last(), i);
        assert(s.drop_last().subrange(i, s.len() - 1).push(s.last()) =~= s.subrange(
            i,
            s.len() as int,
        ));
    }
}

/// A name without its extension.
pub open spec fn stem_of(name: Seq<char>) -> Seq<char> {
    match extension_of(name) {
        Some(e) => name.take(name.len() - e.len() - 1),
        None => name,
    }
}

proof fn lemma_extension_fits(name: Seq<char>)
    ensures
        extension_of(name) is Some ==> (extension_of(name)->0).len() + 1 < name.len(),
    decreases name.len(),
{
    if name.len() > 1 && name.last() != '.' {
        lemma_extension_fits(name.drop_last());
    }
}

/// A name without its extension.
fn stem(name: &str) -> (r: String)
    ensures
        r@ == stem_of(name@),
{
    match extension(name) {
        Some(e) => {
            proof {
                lemma_extension_fits(name@);
            }
            let cs: Vec<char> = chars_of(name);
            let n: usize = char_count(e.as_str());
            let r: String = sub_text(cs.as_slice(), 0, cs.len() - n - 1);
            assert(r@ =~= stem_of(name@));
            r
        },
        None => copy_text(name),
    }
}

/// The name of the last part of a path without its extension.
pub fn file_stem(path: &str) -> (r: String)
    ensures
        r@ == stem_of(file_name_of(path@)),
{
    stem(file_name(path).as_str())
}

/// A path with another extension. Only a path that ends with a name has one.
pub open spec fn with_extension_of(path: Seq<char>, ext: Seq<char>) -> Seq<char> {
    let name = file_name_of(path);
    if name.len() == 0 || !ends(path, name) {
        path
    } else {
        path.take(path.len() - name.len()) + stem_of(name) + "."@ + ext
    }
}

/// A path with another extension.
pub fn with_extension(path: &str, ext: &str) -> (r: String)
    ensures
        r@ == with_extension_of(path@, ext@),
{
    let name: String = file_name(path);
    if empty(name.as_str()) || !ends_with(path, name.as_str()) {
        return copy_text(path);
    }
    let cs: Vec<char> = chars_of(path);
    let n: usize = char_count(name.as_str());
    let mut r: String = sub_text(cs.as_slice(), 0, cs.len() - n);
    assert(r@ =~= path@.take(path@.len() - name@.len()));
    r.push_str(stem(name.as_str()).as_str());
    r.push_str(".");
    r.push_str(ext);
    r
}

/// Whether a file is YAML by its extension.
pub open spec fn names_yaml(path: Seq<char>) -> bool {
    match extension_of(file_name_of(path)) {
        Some(e) => lower(e) == lower("yml"@) || lower(e) == lower("yaml"@),
        None => false,
    }
}

/// Whether a file is YAML by its extension.
pub fn is_yaml_file(path: &str) -> (r: bool)
    ensures
        r == names_yaml(path@),
{
    let name: String = file_name(path);
    match extension(name.as_str()) {
        Some(e) => same_ignoring_case(e.as_str(), "yml") || same_ignoring_case(e.as_str(), "yaml"),
        None => false,
    }
}

/// Whether a walk takes a file: YAML that is neither hidden nor a configuration.
pub open spec fn is_taken(path: Seq<char>) -> bool {
    names_yaml(path) && !begins(file_name_of(path), "."@) && lower(file_name_of(path)) != lower(
        CONFIG_FILE@,
    )
}

/// Whether a walk takes a file.
pub fn takes_in_walk(path: &str) -> (r: bool)
    ensures
        r == is_taken(path@),
{
    let name: String = file_name(path);
    is_yaml_file(path) && !starts_with(name.as_str(), ".") && !same_ignoring_case(
        name.as_str(),
        CONFIG_FILE,
    )
}

/// Whether a walk goes into a directory: one that is neither hidden nor always skipped.
pub open spec fn is_entered(name: Seq<char>) -> bool {
    !begins(name, "."@) && !is_skipped_dir(name)
}

/// Whether a walk goes into a directory.
pub fn enters(name: &str) -> (r: bool)
    ensures
        r == is_entered(name@),
{
    !starts_with(name, ".") && !same(name, "node_modules") && !same(name, "target") && !same(
        name,
        "dist",
    )
}

// ---- order -----------------------------------------------------------------------------

/// Whether a path comes before another. They are compared part by part, so that what lies in a
/// directory follows it directly.
pub open spec fn path_less(a: Seq<char>, b: Seq<char>) -> bool
    decreases a.len(),
{
    if b.len() == 0 {
        false
    } else if a.len() == 0 {
        true
    } else if a[0] == b[0] {
        path_less(a.skip(1), b.skip(1))
    } else if a[0] == '/' {
        true
    } else if b[0] == '/' {
        false
    } else {
        (a[0] as u32) < (b[0] as u32)
    }
}

/// Whether a path comes before another.
pub fn path_before(a: &str, b: &str) -> (r: bool)
    ensures
        r == path_less(a@, b@),
{
    let x: Vec<char> = chars_of(a);
    let y: Vec<char> = chars_of(b);
    let mut i: usize = 0;
    assert(x@.skip(0) =~= x@);
    assert(y@.skip(0) =~= y@);
    while i < x.len() && i < y.len()
        invariant
            i <= x@.len(),
            i <= y@.len(),
            x@ == a@,
            y@ == b@,
            path_less(a@, b@) == path_less(x@.skip(i as int), y@.skip(i as int)),
        decreases x@.len() - i,
    {
        proof {
            assert(x@.skip(i as int).skip(1) =~= x@.skip(i + 1));
            assert(y@.skip(i as int).skip(1) =~= y@.skip(i + 1));
        }
        if x[i] != y[i] {
            return if x[i] == '/' {
                true
            } else if y[i] == '/' {
                false
            } else {
                (x[i] as u32) < (y[i] as u32)
            };
        }
        i = i + 1;
    }
    i < y.len()
}

/// Whether paths are in order.
pub open spec fn in_path_order(s: Seq<Seq<char>>) -> bool {
    forall|i: int, j: int| 0 <= i < j < s.len() ==> !path_less(#[trigger] s[j], #[trigger] s[i])
}

proof fn lemma_path_total(a: Seq<char>, b: Seq<char>)
    ensures
        !(path_less(a, b) && path_less(b, a)),
        a != b ==> path_less(a, b) || path_less(b, a),
        !path_less(a, a),
    decreases a.len(),
{
    if a.len() > 0 {
        lemma_path_total(a.skip(1), a.skip(1));
    }
    if a.len() > 0 && b.len() > 0 {
        lemma_code_points(a[0], b[0]);
    }
    if a.len() > 0 && b.len() > 0 && a[0] == b[0] {
        lemma_path_total(a.skip(1), b.skip(1));
        if a != b && a.skip(1) == b.skip(1) {
            assert forall|i: int| 0 <= i < a.len() implies a[i] == b[i] by {
                if i > 0 {
                    assert(a[i] == a.skip(1)[i - 1]);
                    assert(b[i] == b.skip(1)[i - 1]);
                }
            }
            assert(a.len() == a.skip(1).len() + 1);
            assert(b.len() == b.skip(1).len() + 1);
            assert(a =~= b);
        }
    } else if a.len() == 0 && b.len() == 0 {
        assert(a =~= b);
    }
}

proof fn lemma_path_transitive(a: Seq<char>, b: Seq<char>, c: Seq<char>)
    requires
        path_less(a, b),
        path_less(b, c),
    ensures
        path_less(a, c),
    decreases a.len(),
{
    if a.len() > 0 && b.len() > 0 && c.len() > 0 && a[0] == b[0] && b[0] == c[0] {
        lemma_path_transitive(a.skip(1), b.skip(1), c.skip(1));
    }
}

/// Puts a path in its place among paths that are in order.
fn place_path(out: &mut Vec<String>, p: String)
    requires
        in_path_order(views(old(out)@)),
    ensures
        in_path_order(views(final(out)@)),
        views(final(out)@).to_multiset() == views(old(out)@).to_multiset().insert(p@),
{
    let ghost start = views(out@);
    let ghost pv = p@;
    let mut i: usize = 0;
    while i < out.len() && !path_before(p.as_str(), out[i].as_str())
        invariant
            i <= out@.len(),
            views(out@) == start,
            pv == p@,
            forall|k: int| 0 <= k < i ==> !path_less(pv, #[trigger] start[k]),
        decreases out@.len() - i,
    {
        assert(start[i as int] == out@[i as int]@);
        i = i + 1;
    }
    proof {
        if i < start.len() {
            assert(start[i as int] == out@[i as int]@);
        }
    }
    out.insert(i, p);
    proof {
        let n = start.insert(i as int, pv);
        assert(views(out@) =~= n);
        n.to_multiset_ensures();
        assert(n.remove(i as int) =~= start);
        assert(n.contains(n[i as int]));
        assert(n.to_multiset() =~= start.to_multiset().insert(pv));
        assert forall|a: int, b: int| 0 <= a < b < n.len() implies !path_less(
            #[trigger] n[b],
            #[trigger] n[a],
        ) by {
            let x = if a < i {
                start[a]
            } else if a == i {
                pv
            } else {
                start[a - 1]
            };
            let y = if b < i {
                start[b]
            } else if b == i {
                pv
            } else {
                start[b - 1]
            };
            assert(n[a] == x && n[b] == y);
            if a == i {
                // The path comes before the one it was put in front of, and so before the rest.
                let m = start[i as int];
                lemma_path_total(pv, m);
                if b - 1 > i {
                    assert(!path_less(start[b - 1], m));
                    if path_less(start[b - 1], pv) {
                        lemma_path_transitive(start[b - 1], pv, m);
                    }
                }
            }
        }
    }
}

/// Paths in order.
pub fn sorted_paths(v: &Vec<String>) -> (r: Vec<String>)
    ensures
        in_path_order(views(r@)),
        views(r@).to_multiset() == views(v@).to_multiset(),
{
    let mut out: Vec<String> = Vec::new();
    let ghost w = views(v@);
    let mut i: usize = 0;
    assert(views(out@) =~= seq![]);
    assert(w.take(0) =~= seq![]);
    while i < v.len()
        invariant
            i <= v@.len(),
            w == views(v@),
            in_path_order(views(out@)),
            views(out@).to_multiset() == w.take(i as int).to_multiset(),
        decreases v@.len() - i,
    {
        let p: String = copy_text(v[i].as_str());
        proof {
            assert(w.take(i + 1) =~= w.take(i as int).push(p@));
            w.take(i as int).to_multiset_ensures();
        }
        place_path(&mut out, p);
        i = i + 1;
    }
    assert(w.take(w.len() as int) =~= w);
    out
}

/// The order of paths is the only one: paths in order that are the same, how often each occurs
/// counted, stand in the same places.
pub proof fn law_order_is_unique(a: Seq<Seq<char>>, b: Seq<Seq<char>>)
    requires
        in_path_order(a),
        in_path_order(b),
        a.to_multiset() == b.to_multiset(),
    ensures
        a == b,
    decreases a.len(),
{
    broadcast use vstd::seq_lib::group_to_multiset_ensures;

    assert(a.len() == a.to_multiset().len());
    assert(b.len() == b.to_multiset().len());
    if a.len() > 0 {
        let x = a.last();
        let y = b.last();
        assert(a.contains(x));
        assert(b.contains(y));
        assert(b.to_multiset().count(x) > 0);
        assert(a.to_multiset().count(y) > 0);
        assert(b.contains(x));
        assert(a.contains(y));
        let i = choose|i: int| 0 <= i < b.len() && b[i] == x;
        let j = choose|j: int| 0 <= j < a.len() && a[j] == y;
        lemma_path_total(x, y);
        if i < b.len() - 1 {
            assert(!path_less(b[b.len() - 1], b[i]));
        }
        if j < a.len() - 1 {
            assert(!path_less(a[a.len() - 1], a[j]));
        }
        assert(x == y);
        let p = a.drop_last();
        let q = b.drop_last();
        assert forall|m: int, n: int| 0 <= m < n < p.len() implies !path_less(
            #[trigger] p[n],
            #[trigger] p[m],
        ) by {
            assert(p[m] == a[m] && p[n] == a[n]);
        }
        assert forall|m: int, n: int| 0 <= m < n < q.len() implies !path_less(
            #[trigger] q[n],
            #[trigger] q[m],
        ) by {
            assert(q[m] == b[m] && q[n] == b[n]);
        }
        assert(a =~= p.push(x));
        assert(b =~= q.push(x));
        assert(p.push(x).to_multiset() =~= p.to_multiset().insert(x));
        assert(q.push(x).to_multiset() =~= q.to_multiset().insert(x));
        assert(p.to_multiset() =~= p.to_multiset().insert(x).remove(x));
        assert(q.to_multiset() =~= q.to_multiset().insert(x).remove(x));
        law_order_is_unique(p, q);
    } else {
        assert(a =~= b);
    }
}

// ---- several targets -------------------------------------------------------------------

/// Paths with each only where it first occurs.
pub open spec fn first_only(s: Seq<Seq<char>>) -> Seq<Seq<char>>
    decreases s.len(),
{
    if s.len() == 0 {
        seq![]
    } else {
        let rest = first_only(s.drop_last());
        if rest.contains(s.last()) {
            rest
        } else {
            rest.push(s.last())
        }
    }
}

/// Lists one behind the other.
pub open spec fn flat(l: Seq<Seq<Seq<char>>>) -> Seq<Seq<char>>
    decreases l.len(),
{
    if l.len() == 0 {
        seq![]
    } else {
        flat(l.drop_last()) + l.last()
    }
}

/// The views of lists of texts.
pub open spec fn lists_of(l: Seq<Vec<String>>) -> Seq<Seq<Seq<char>>> {
    Seq::new(l.len(), |i: int| views(l[i]@))
}

/// Whether a path is among paths.
pub fn is_among(v: &Vec<String>, p: &str) -> (r: bool)
    ensures
        r == views(v@).contains(p@),
{
    let mut i: usize = 0;
    while i < v.len()
        invariant
            i <= v@.len(),
            forall|k: int| 0 <= k < i ==> (#[trigger] views(v@)[k]) != p@,
        decreases v@.len() - i,
    {
        assert(views(v@)[i as int] == v@[i as int]@);
        if same(v[i].as_str(), p) {
            return true;
        }
        i = i + 1;
    }
    false
}

/// The cases of several targets, each target's in order: a case that several targets hold is
/// run once, where it first occurs.
pub fn find_all(found: &Vec<Vec<String>>) -> (r: Vec<String>)
    ensures
        views(r@) == first_only(flat(lists_of(found@))),
{
    let mut out: Vec<String> = Vec::new();
    let ghost l = lists_of(found@);
    assert(views(out@) =~= seq![]);
    assert(l.take(0) =~= seq![]);
    let mut i: usize = 0;
    while i < found.len()
        invariant
            i <= found@.len(),
            l == lists_of(found@),
            views(out@) == first_only(flat(l.take(i as int))),
        decreases found@.len() - i,
    {
        let one: &Vec<String> = &found[i];
        let ghost before = flat(l.take(i as int));
        let ghost w = views(one@);
        assert(before + w.take(0) =~= before);
        let mut j: usize = 0;
        while j < one.len()
            invariant
                j <= one@.len(),
                w == views(one@),
                views(out@) == first_only(before + w.take(j as int)),
            decreases one@.len() - j,
        {
            proof {
                let s = before + w.take(j + 1);
                assert(s.drop_last() =~= before + w.take(j as int));
                assert(s.last() == one@[j as int]@);
            }
            if !is_among(&out, one[j].as_str()) {
                let p: String = copy_text(one[j].as_str());
                proof {
                    lemma_views_push(out@, p);
                }
                out.push(p);
            }
            j = j + 1;
        }
        proof {
            assert(w.take(w.len() as int) =~= w);
            assert(l.take(i + 1).drop_last() =~= l.take(i as int));
            assert(l.take(i + 1).last() == w);
        }
        i = i + 1;
    }
    assert(l.take(l.len() as int) =~= l);
    out
}

/// No case is run twice, and none is left out.
pub proof fn law_found_once(s: Seq<Seq<char>>)
    ensures
        first_only(s).no_duplicates(),
        forall|p: Seq<char>| #[trigger] s.contains(p) <==> first_only(s).contains(p),
    decreases s.len(),
{
    if s.len() > 0 {
        let d = s.drop_last();
        let rest = first_only(d);
        let all = first_only(s);
        law_found_once(d);
        assert forall|p: Seq<char>| #[trigger] s.contains(p) <==> all.contains(p) by {
            if s.contains(p) {
                let i = choose|i: int| 0 <= i < s.len() && s[i] == p;
                if i < d.len() {
                    assert(d[i] == p);
                    assert(d.contains(p));
                    let k = choose|k: int| 0 <= k < rest.len() && rest[k] == p;
                    assert(all[k] == p);
                } else if !rest.contains(p) {
                    assert(all[rest.len() as int] == p);
                }
            }
            if all.contains(p) {
                let i = choose|i: int| 0 <= i < all.len() && all[i] == p;
                if i < rest.len() {
                    assert(rest[i] == p);
                    assert(rest.contains(p));
                    assert(d.contains(p));
                    let k = choose|k: int| 0 <= k < d.len() && d[k] == p;
                    assert(s[k] == p);
                } else {
                    assert(s[s.len() - 1] == p);
                }
            }
        }
        assert forall|i: int, j: int| 0 <= i < all.len() && 0 <= j < all.len() && i != j implies all[i] != all[j] by {
            if i < rest.len() && j < rest.len() {
                assert(all[i] == rest[i] && all[j] == rest[j]);
            } else if i < rest.len() {
                assert(rest.contains(rest[i]));
            } else {
                assert(rest.contains(rest[j]));
            }
        }
    } else {
        assert(s =~= first_only(s));
    }
}

// ---- what was read ---------------------------------------------------------------------

/// A case that was found: its text, or why it could not be read.
#[derive(Debug)]
pub struct ReadFile {
    pub path: String,
    pub text: Result<String, String>,
}

/// What a `ReadFile` stands for.
pub struct ReadFileView {
    pub path: Seq<char>,
    pub text: Result<Seq<char>, Seq<char>>,
}

impl View for ReadFile {
    type V = ReadFileView;

    open spec fn view(&self) -> ReadFileView {
        ReadFileView {
            path: self.path@,
            text: match self.text {
                Ok(t) => Ok(t@),
                Err(e) => Err(e@),
            },
        }
    }
}

// ---- laws of files and names -------------------------------------------------------------

proof fn lemma_ending(stem: Seq<char>, ext: Seq<char>)
    requires
        stem.len() > 0,
        !ext.contains('.'),
    ensures
        extension_of(stem + seq!['.'] + ext) == Some(ext),
    decreases ext.len(),
{
    let s = stem + seq!['.'] + ext;
    if ext.len() > 0 {
        let d = ext.drop_last();
        assert forall|k: int| 0 <= k < d.len() implies d[k] != '.' by {
            assert(ext.contains(ext[k]));
        }
        assert(!d.contains('.'));
        lemma_ending(stem, d);
        assert(s.drop_last() =~= stem + seq!['.'] + d);
        assert(ext.contains(ext[ext.len() - 1]));
        assert(s.last() == ext.last());
        assert(d.push(ext.last()) =~= ext);
    } else {
        assert(s.last() == '.');
        assert(Seq::<char>::empty() =~= ext);
    }
}

/// What a name ends with is what follows its last dot; a name that begins with its only dot has no
/// such ending, nor has one without a dot.
pub proof fn law_extension(stem: Seq<char>, ext: Seq<char>)
    requires
        !ext.contains('.'),
    ensures
        stem.len() > 0 ==> extension_of(stem + "."@ + ext) == Some(ext) && stem_of(stem + "."@ + ext)
            == stem,
        extension_of("."@ + ext) is None,
        extension_of(ext) is None,
        stem_of(ext) == ext,
{
    reveal_strlit(".");
    assert("."@ =~= seq!['.']);
    if stem.len() > 0 {
        lemma_ending(stem, ext);
        let s = stem + seq!['.'] + ext;
        assert(s.take(stem.len() as int) =~= stem);
    }
    let hidden = seq!['.'] + ext;
    assert forall|k: int| 0 <= k < ext.len() implies ext[k] != '.' by {
        assert(ext.contains(ext[k]));
    }
    assert forall|k: int| 1 <= k < hidden.len() implies hidden[k] != '.' by {
        assert(hidden[k] == ext[k - 1]);
    }
    lemma_no_extension(hidden);
    lemma_no_extension(ext);
}

/// Which files a walk takes: those that end with `.yml` or `.yaml`, whatever the case, but no
/// hidden file and not the configuration. Which directories it enters: all but hidden ones and
/// those of tools.
pub proof fn law_walk(dir: Seq<char>, stem: Seq<char>, ext: Seq<char>, name: Seq<char>)
    requires
        !ext.contains('.'),
        stem.len() > 0,
        !stem.contains('/'),
        !ext.contains('/'),
        ext.len() > 0,
    ensures
        is_taken(dir + "/"@ + (stem + "."@ + ext)) <==> (lower(ext) == "yml"@ || lower(ext)
            == "yaml"@) && stem[0] != '.' && lower(stem + "."@ + ext) != "application.yml"@,
        is_entered(name) <==> !(name.len() > 0 && name[0] == '.') && name != "node_modules"@ && name
            != "target"@ && name != "dist"@,
{
    reveal_strlit(".");
    reveal_strlit("..");
    reveal_strlit("yml");
    reveal_strlit("yaml");
    reveal_strlit("application.yml");
    let n = stem + "."@ + ext;
    assert forall|k: int| 0 <= k < n.len() implies n[k] != '/' by {
        if k < stem.len() {
            assert(n[k] == stem[k]);
            assert(stem.contains(stem[k]));
        } else if k > stem.len() {
            assert(n[k] == ext[k - stem.len() - 1]);
            assert(ext.contains(ext[k - stem.len() - 1]));
        }
    }
    assert(!n.contains('/'));
    if n == ".."@ {
        assert(n.len() == 2);
    }
    assert(n.len() >= 3);
    assert(n != "."@);
    law_file_name(dir, n);
    law_extension(stem, ext);
    assert(lower("yml"@) =~= "yml"@);
    assert(lower("yaml"@) =~= "yaml"@);
    assert(lower("application.yml"@) =~= "application.yml"@);
    assert(n[0] == stem[0]);
    assert(n.subrange(0, 1) =~= seq![n[0]]);
    assert("."@ =~= seq!['.']);
    assert(seq![n[0]] == seq!['.'] ==> seq![n[0]][0] == seq!['.'][0]);
    if name.len() > 0 {
        assert(name.subrange(0, 1) =~= seq![name[0]]);
        assert(seq![name[0]] == seq!['.'] ==> seq![name[0]][0] == seq!['.'][0]);
    }
}

/// Paths are in order directory by directory: what lies in a directory comes before what lies
/// beside it, whatever the names, and within a directory the code of the first character that
/// differs decides.
pub proof fn law_path_order(front: Seq<char>, a: Seq<char>, b: Seq<char>, x: char, y: char)
    requires
        x != y,
    ensures
        !path_less(front, front),
        path_less(front, front + seq![x] + a),
        !path_less(front + seq![x] + a, front),
        path_less(front + seq![x] + a, front + seq![y] + b) <==> x == '/' || (y != '/' && (x as u32)
            < (y as u32)),
    decreases front.len(),
{
    let p = front + seq![x] + a;
    let q = front + seq![y] + b;
    if front.len() == 0 {
        assert(p[0] == x && q[0] == y);
    } else {
        let f = front.skip(1);
        law_path_order(f, a, b, x, y);
        assert(p.skip(1) =~= f + seq![x] + a);
        assert(q.skip(1) =~= f + seq![y] + b);
        assert(p[0] == front[0] && q[0] == front[0]);
    }
}

/// A file that is found again changes nothing; one that is new comes last.
pub proof fn law_first_counts(s: Seq<Seq<char>>, p: Seq<char>)
    ensures
        first_only(seq![]).len() == 0,
        s.contains(p) ==> first_only(s.push(p)) == first_only(s),
        !s.contains(p) ==> first_only(s.push(p)) == first_only(s).push(p),
{
    assert(s.push(p).drop_last() =~= s);
    law_found_once(s);
    assert(s.contains(p) <==> first_only(s).contains(p));
}

} // verus!
