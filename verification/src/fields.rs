//! Records as JSON objects.
//!
//! A record is written as an object with its fields in order; a field that is left out when it
//! has no value stands for nothing. It is read by the names of its fields, whatever else the
//! object holds; an array gives the fields in order.
use crate::json::{lemma_view, member, settled, Json, JsonView, Member};
use crate::number::{Number, NumberView};
use crate::table::{
    distinct, lemma_key_at, lemma_key_at_is, lemma_place, less, lookup, place, put_all_sorted,
    sorted, SortedMap,
};
use crate::text::{copy_text, lemma_views_push, opt_view, views};
use vstd::prelude::*;

verus! {

/// A field of a record: its name, and its value unless it is left out.
pub type Field = (Seq<char>, Option<JsonView>);

/// The fields that are not left out.
pub open spec fn present(fs: Seq<Field>) -> Seq<(Seq<char>, JsonView)>
    decreases fs.len(),
{
    if fs.len() == 0 {
        seq![]
    } else {
        match fs.last().1 {
            Some(v) => present(fs.drop_last()).push((fs.last().0, v)),
            None => present(fs.drop_last()),
        }
    }
}

/// Whether no two fields have one name.
pub open spec fn names_differ(fs: Seq<Field>) -> bool {
    forall|i: int, j: int| 0 <= i < j < fs.len() ==> (#[trigger] fs[i]).0 != (#[trigger] fs[j]).0
}

/// The fields of a record, one at a time.
pub proof fn lemma_present(fs: Seq<Field>, k: int)
    requires
        0 <= k < fs.len(),
    ensures
        present(fs.take(k + 1)) == (match fs[k].1 {
            Some(v) => present(fs.take(k)).push((fs[k].0, v)),
            None => present(fs.take(k)),
        }),
        fs.take(0).len() == 0,
        fs.take(fs.len() as int) == fs,
{
    assert(fs.take(k + 1).drop_last() =~= fs.take(k));
    assert(fs.take(k + 1).last() == fs[k]);
    assert(fs.take(fs.len() as int) =~= fs);
}

proof fn lemma_present_from(fs: Seq<Field>, i: int)
    requires
        0 <= i < present(fs).len(),
    ensures
        exists|j: int|
            0 <= j < fs.len() && fs[j].1 is Some && present(fs)[i] == (
                (#[trigger] fs[j]).0,
                fs[j].1->0,
            ),
    decreases fs.len(),
{
    let d = fs.drop_last();
    if fs.last().1 is Some && i == present(d).len() {
        assert(present(fs)[i] == (fs[fs.len() - 1].0, fs[fs.len() - 1].1->0));
    } else {
        lemma_present_from(d, i);
        let j = choose|j: int|
            0 <= j < d.len() && d[j].1 is Some && present(d)[i] == ((#[trigger] d[j]).0, d[j].1->0);
        assert(fs[j] == d[j]);
        assert(present(fs)[i] == (fs[j].0, fs[j].1->0));
    }
}

proof fn lemma_present_at(fs: Seq<Field>, j: int)
    requires
        0 <= j < fs.len(),
        fs[j].1 is Some,
    ensures
        exists|i: int| 0 <= i < present(fs).len() && #[trigger] present(fs)[i] == (fs[j].0, fs[j].1->0),
    decreases fs.len(),
{
    let d = fs.drop_last();
    if j == fs.len() - 1 {
        assert(present(fs)[present(d).len() as int] == (fs[j].0, fs[j].1->0));
    } else {
        lemma_present_at(d, j);
        let i = choose|i: int|
            0 <= i < present(d).len() && #[trigger] present(d)[i] == (d[j].0, d[j].1->0);
        assert(present(fs)[i] == present(d)[i]);
    }
}

/// The names of the fields of a record are distinct in its object.
pub proof fn lemma_present_distinct(fs: Seq<Field>)
    requires
        names_differ(fs),
    ensures
        distinct(present(fs)),
    decreases fs.len(),
{
    if fs.len() > 0 {
        let d = fs.drop_last();
        assert forall|i: int, j: int| 0 <= i < j < d.len() implies (#[trigger] d[i]).0 != (
        #[trigger] d[j]).0 by {
            assert(d[i] == fs[i] && d[j] == fs[j]);
        }
        lemma_present_distinct(d);
        if fs.last().1 is Some {
            let p = present(fs);
            let n = present(d).len() as int;
            assert forall|i: int| 0 <= i < n implies (#[trigger] p[i]).0 != p[n].0 by {
                lemma_present_from(d, i);
                let j = choose|j: int|
                    0 <= j < d.len() && d[j].1 is Some && present(d)[i] == (
                        (#[trigger] d[j]).0,
                        d[j].1->0,
                    );
                assert(d[j] == fs[j]);
                assert(fs[j].0 != fs[fs.len() - 1].0);
            }
        }
    }
}

/// A field of a record is read from its object, and one that is left out is not there.
pub proof fn lemma_field(fs: Seq<Field>, k: int)
    requires
        names_differ(fs),
        0 <= k < fs.len(),
    ensures
        lookup(present(fs), fs[k].0) == fs[k].1,
{
    let p = present(fs);
    lemma_present_distinct(fs);
    lemma_key_at(p, fs[k].0, 0);
    match fs[k].1 {
        Some(v) => {
            lemma_present_at(fs, k);
            let i = choose|i: int| 0 <= i < p.len() && #[trigger] p[i] == (fs[k].0, v);
            assert forall|m: int| 0 <= m < i implies (#[trigger] p[m]).0 != fs[k].0 by {
                assert(p[m].0 != p[i].0);
            }
            lemma_key_at_is(p, fs[k].0, 0, i);
        },
        None => {
            assert forall|m: int| 0 <= m < p.len() implies (#[trigger] p[m]).0 != fs[k].0 by {
                lemma_present_from(fs, m);
                let j = choose|j: int|
                    0 <= j < fs.len() && fs[j].1 is Some && p[m] == ((#[trigger] fs[j]).0, fs[j].1->0);
                if j < k {
                    assert(fs[j].0 != fs[k].0);
                } else {
                    assert(fs[k].0 != fs[j].0);
                }
            }
            lemma_key_at_is(p, fs[k].0, 0, p.len() as int);
        },
    }
}

/// The object of a record is settled where its fields are.
pub proof fn lemma_record_settled(fs: Seq<Field>, d: nat)
    requires
        names_differ(fs),
        d > 0,
        forall|k: int|
            0 <= k < fs.len() && fs[k].1 is Some ==> settled((#[trigger] fs[k]).1->0, (d - 1) as nat),
    ensures
        settled(JsonView::Object(present(fs)), d),
{
    lemma_present_distinct(fs);
    let p = present(fs);
    assert forall|i: int| 0 <= i < p.len() implies settled((#[trigger] p[i]).1, (d - 1) as nat) by {
        lemma_present_from(fs, i);
        let j = choose|j: int|
            0 <= j < fs.len() && fs[j].1 is Some && p[i] == ((#[trigger] fs[j]).0, fs[j].1->0);
        assert(settled(fs[j].1->0, (d - 1) as nat));
    }
}

// ---- writing ---------------------------------------------------------------------------

/// Adds a field.
pub(crate) fn push_field(out: &mut Vec<Member>, name: &str, value: Json)
    ensures
        views(final(out)@) == views(old(out)@).push((name@, value@)),
{
    let m: Member = Member { name: copy_text(name), value };
    proof {
        lemma_views_push(out@, m);
    }
    out.push(m);
}

/// Adds a field that is left out when it has no value.
pub(crate) fn push_some(out: &mut Vec<Member>, name: &str, value: &Option<String>)
    ensures
        views(final(out)@) == (match *value {
            Some(s) => views(old(out)@).push((name@, JsonView::Str(s@))),
            None => views(old(out)@),
        }),
{
    if let Some(s) = value {
        push_field(out, name, text_value(s.as_str()));
    }
}

/// A text as a value.
pub(crate) fn text_value(s: &str) -> (r: Json)
    ensures
        r@ == JsonView::Str(s@),
{
    Json::Str(copy_text(s))
}

/// A number as a value.
pub(crate) fn number_value(n: u64) -> (r: Json)
    ensures
        r@ == JsonView::Number(NumberView::Int(n as int)),
{
    Json::Number(Number::PosInt(n))
}

/// A text or `null`.
pub open spec fn text_or_null(o: Option<Seq<char>>) -> JsonView {
    match o {
        Some(s) => JsonView::Str(s),
        None => JsonView::Null,
    }
}

/// A text or `null`.
pub(crate) fn text_or_none(o: &Option<String>) -> (r: Json)
    ensures
        r@ == text_or_null(opt_view(*o)),
{
    match o {
        Some(s) => text_value(s.as_str()),
        None => Json::Null,
    }
}

/// Texts as an array.
pub open spec fn texts_json(l: Seq<Seq<char>>) -> JsonView {
    JsonView::Array(l.map_values(|s: Seq<char>| JsonView::Str(s)))
}

/// Texts as an array.
pub(crate) fn texts_value(l: &Vec<String>) -> (r: Json)
    ensures
        r@ == texts_json(views(l@)),
{
    let mut out: Vec<Json> = Vec::new();
    let mut i: usize = 0;
    while i < l.len()
        invariant
            i <= l@.len(),
            out@.len() == i,
            forall|k: int| 0 <= k < i ==> (#[trigger] out@[k])@ == JsonView::Str(l@[k]@),
        decreases l@.len() - i,
    {
        out.push(text_value(l[i].as_str()));
        i = i + 1;
    }
    let r: Json = Json::Array(out);
    proof {
        lemma_view(r);
        assert(views(out@) =~= views(l@).map_values(|s: Seq<char>| JsonView::Str(s)));
    }
    r
}

/// A table of texts as an object.
pub open spec fn table_json(t: Seq<(Seq<char>, Seq<char>)>) -> JsonView {
    JsonView::Object(t.map_values(|e: (Seq<char>, Seq<char>)| (e.0, JsonView::Str(e.1))))
}

/// A table of texts as an object.
pub(crate) fn table_value(t: &SortedMap<String>) -> (r: Json)
    ensures
        r@ == table_json(t@),
{
    let ghost w = t@.map_values(|e: (Seq<char>, Seq<char>)| (e.0, JsonView::Str(e.1)));
    let mut out: Vec<Member> = Vec::new();
    let mut i: usize = 0;
    while i < t.entries.len()
        invariant
            i <= t.entries@.len(),
            w == t@.map_values(|e: (Seq<char>, Seq<char>)| (e.0, JsonView::Str(e.1))),
            views(out@) == w.take(i as int),
        decreases t.entries@.len() - i,
    {
        push_field(
            &mut out,
            t.entries[i].key.as_str(),
            text_value(t.entries[i].value.as_str()),
        );
        proof {
            assert(t@[i as int] == t.entries@[i as int]@);
            assert(w.take(i + 1) =~= w.take(i as int).push(w[i as int]));
        }
        i = i + 1;
    }
    let r: Json = Json::Object(out);
    proof {
        lemma_view(r);
        assert(w.take(w.len() as int) =~= w);
    }
    r
}

/// A table of values as an object.
pub(crate) fn values_value(t: &SortedMap<Json>) -> (r: Json)
    ensures
        r@ == JsonView::Object(t@),
{
    let mut out: Vec<Member> = Vec::new();
    let mut i: usize = 0;
    while i < t.entries.len()
        invariant
            i <= t.entries@.len(),
            views(out@) == t@.take(i as int),
        decreases t.entries@.len() - i,
    {
        push_field(&mut out, t.entries[i].key.as_str(), t.entries[i].value.copy());
        proof {
            assert(t@[i as int] == t.entries@[i as int]@);
            assert(t@.take(i + 1) =~= t@.take(i as int).push(t@[i as int]));
        }
        i = i + 1;
    }
    let r: Json = Json::Object(out);
    proof {
        lemma_view(r);
        assert(t@.take(t@.len() as int) =~= t@);
    }
    r
}

// ---- reading ---------------------------------------------------------------------------

/// The fields that an array gives in order.
pub open spec fn zipped(names: Seq<Seq<char>>, a: Seq<JsonView>) -> Seq<(Seq<char>, JsonView)> {
    Seq::new(a.len(), |i: int| (names[i], a[i]))
}

/// The fields of a record with the names `names`.
pub open spec fn fields_in(v: JsonView, names: Seq<Seq<char>>) -> Option<Seq<(Seq<char>, JsonView)>> {
    match v {
        JsonView::Object(m) => Some(m),
        JsonView::Array(a) => if a.len() <= names.len() {
            Some(zipped(names, a))
        } else {
            None
        },
        _ => None,
    }
}

/// The fields of a record.
pub(crate) fn read_fields(v: &Json, names: &Vec<&'static str>) -> (r: Option<Vec<Member>>)
    ensures
        opt_view_members(r) == fields_in(v@, names@.map_values(|s: &'static str| s@)),
{
    let ghost ns = names@.map_values(|s: &'static str| s@);
    proof {
        lemma_view(*v);
    }
    match v {
        Json::Object(m) => {
            let mut out: Vec<Member> = Vec::new();
            let mut i: usize = 0;
            while i < m.len()
                invariant
                    i <= m@.len(),
                    views(out@) == views(m@).take(i as int),
                decreases m@.len() - i,
            {
                push_field(&mut out, m[i].name.as_str(), m[i].value.copy());
                proof {
                    assert(views(m@)[i as int] == m@[i as int]@);
                    assert(views(m@).take(i + 1) =~= views(m@).take(i as int).push(m@[i as int]@));
                }
                i = i + 1;
            }
            assert(views(m@).take(m@.len() as int) =~= views(m@));
            Some(out)
        },
        Json::Array(a) => {
            if a.len() > names.len() {
                return None;
            }
            let mut out: Vec<Member> = Vec::new();
            let ghost z = zipped(ns, views(a@));
            let mut i: usize = 0;
            assert(views(out@) =~= z.take(0));
            while i < a.len()
                invariant
                    i <= a@.len(),
                    a@.len() <= names@.len(),
                    ns == names@.map_values(|s: &'static str| s@),
                    z == zipped(ns, views(a@)),
                    views(out@) == z.take(i as int),
                decreases a@.len() - i,
            {
                push_field(&mut out, names[i], a[i].copy());
                proof {
                    assert(views(a@)[i as int] == a@[i as int]@);
                    assert(z.take(i + 1) =~= z.take(i as int).push(z[i as int]));
                }
                i = i + 1;
            }
            assert(z.take(z.len() as int) =~= z);
            Some(out)
        },
        _ => None,
    }
}

/// The view of fields.
pub open spec fn opt_view_members(o: Option<Vec<Member>>) -> Option<Seq<(Seq<char>, JsonView)>> {
    match o {
        Some(m) => Some(views(m@)),
        None => None,
    }
}

/// A text.
pub open spec fn text_in(o: Option<JsonView>) -> Option<Seq<char>> {
    match o {
        Some(JsonView::Str(s)) => Some(s),
        _ => None,
    }
}

/// A text that may be missing or `null`.
pub open spec fn maybe_text_in(o: Option<JsonView>) -> Option<Option<Seq<char>>> {
    match o {
        None => Some(None),
        Some(JsonView::Null) => Some(None),
        Some(JsonView::Str(s)) => Some(Some(s)),
        _ => None,
    }
}

/// A truth value.
pub open spec fn flag_in(o: Option<JsonView>) -> Option<bool> {
    match o {
        Some(JsonView::Bool(b)) => Some(b),
        _ => None,
    }
}

/// A truth value that is false when it is missing.
pub open spec fn maybe_flag_in(o: Option<JsonView>) -> Option<bool> {
    match o {
        None => Some(false),
        _ => flag_in(o),
    }
}

/// A natural number up to a bound.
pub open spec fn number_in(o: Option<JsonView>, max: nat) -> Option<nat> {
    match o {
        Some(JsonView::Number(NumberView::Int(n))) => if 0 <= n <= max {
            Some(n as nat)
        } else {
            None
        },
        _ => None,
    }
}

/// A text.
pub(crate) fn read_text(m: &Vec<Member>, k: &str) -> (r: Option<String>)
    ensures
        opt_view(r) == text_in(lookup(views(m@), k@)),
{
    match member(m, k) {
        Some(v) => {
            proof {
                lemma_view(*v);
            }
            match v {
                Json::Str(s) => Some(copy_text(s.as_str())),
                _ => None,
            }
        },
        None => None,
    }
}

/// A text that may be missing or `null`.
pub(crate) fn read_maybe_text(m: &Vec<Member>, k: &str) -> (r: Option<Option<String>>)
    ensures
        match r {
            Some(o) => maybe_text_in(lookup(views(m@), k@)) == Some(opt_view(o)),
            None => maybe_text_in(lookup(views(m@), k@)) is None,
        },
{
    match member(m, k) {
        Some(v) => {
            proof {
                lemma_view(*v);
            }
            match v {
                Json::Str(s) => Some(Some(copy_text(s.as_str()))),
                Json::Null => Some(None),
                _ => None,
            }
        },
        None => Some(None),
    }
}

/// A truth value.
pub(crate) fn read_flag(m: &Vec<Member>, k: &str) -> (r: Option<bool>)
    ensures
        r == flag_in(lookup(views(m@), k@)),
{
    match member(m, k) {
        Some(v) => {
            proof {
                lemma_view(*v);
            }
            match v {
                Json::Bool(b) => Some(*b),
                _ => None,
            }
        },
        None => None,
    }
}

/// A truth value that is false when it is missing.
pub(crate) fn read_maybe_flag(m: &Vec<Member>, k: &str) -> (r: Option<bool>)
    ensures
        r == maybe_flag_in(lookup(views(m@), k@)),
{
    match member(m, k) {
        Some(_) => read_flag(m, k),
        None => Some(false),
    }
}

/// A natural number up to a bound.
pub(crate) fn read_number(m: &Vec<Member>, k: &str, max: u64) -> (r: Option<u64>)
    ensures
        match r {
            Some(n) => n <= max && number_in(lookup(views(m@), k@), max as nat) == Some(n as nat),
            None => number_in(lookup(views(m@), k@), max as nat) is None,
        },
{
    match member(m, k) {
        Some(v) => {
            proof {
                lemma_view(*v);
            }
            match v {
                Json::Number(Number::PosInt(n)) => if *n <= max {
                    Some(*n)
                } else {
                    None
                },
                Json::Number(Number::NegInt(n)) => if *n >= 0 && *n as u64 <= max {
                    Some(*n as u64)
                } else {
                    None
                },
                _ => None,
            }
        },
        None => None,
    }
}

/// A list whose items are read one by one; one that cannot be read spoils it.
pub open spec fn all_in<T>(a: Seq<JsonView>, read: spec_fn(JsonView) -> Option<T>) -> Option<Seq<T>>
    decreases a.len(),
{
    if a.len() == 0 {
        Some(seq![])
    } else {
        match all_in(a.drop_last(), read) {
            Some(l) => match read(a.last()) {
                Some(t) => Some(l.push(t)),
                None => None,
            },
            None => None,
        }
    }
}

/// A list of records.
pub open spec fn list_in<T>(o: Option<JsonView>, read: spec_fn(JsonView) -> Option<T>) -> Option<Seq<T>> {
    match o {
        Some(JsonView::Array(a)) => all_in(a, read),
        _ => None,
    }
}

/// Where an item cannot be read, nothing is.
pub proof fn lemma_spoilt<T>(a: Seq<JsonView>, read: spec_fn(JsonView) -> Option<T>, i: int)
    requires
        0 <= i <= a.len(),
        all_in(a.take(i), read) is None,
    ensures
        all_in(a, read) is None,
    decreases a.len() - i,
{
    if i < a.len() {
        assert(a.take(i + 1).drop_last() =~= a.take(i));
        lemma_spoilt(a, read, i + 1);
    } else {
        assert(a.take(i) =~= a);
    }
}

/// A list is read back where its items are.
pub proof fn lemma_all_in<T>(
    l: Seq<T>,
    write: spec_fn(T) -> JsonView,
    read: spec_fn(JsonView) -> Option<T>,
)
    requires
        forall|i: int| 0 <= i < l.len() ==> read(write(#[trigger] l[i])) == Some(l[i]),
    ensures
        all_in(l.map_values(write), read) == Some(l),
    decreases l.len(),
{
    let w = l.map_values(write);
    if l.len() > 0 {
        let d = l.drop_last();
        assert forall|i: int| 0 <= i < d.len() implies read(write(#[trigger] d[i])) == Some(d[i]) by {
            assert(d[i] == l[i]);
        }
        lemma_all_in(d, write, read);
        assert(w.drop_last() =~= d.map_values(write));
        assert(w.last() == write(l[l.len() - 1]));
        assert(d.push(l.last()) =~= l);
    } else {
        assert(w =~= seq![]);
        assert(l =~= seq![]);
    }
}

/// A text as an item.
pub open spec fn text_reader() -> spec_fn(JsonView) -> Option<Seq<char>> {
    |v: JsonView| text_in(Some(v))
}

/// A list of texts.
pub(crate) fn read_texts(m: &Vec<Member>, k: &str) -> (r: Option<Vec<String>>)
    ensures
        match r {
            Some(l) => list_in(lookup(views(m@), k@), text_reader()) == Some(views(l@)),
            None => list_in(lookup(views(m@), k@), text_reader()) is None,
        },
{
    match member(m, k) {
        Some(v) => {
            proof {
                lemma_view(*v);
            }
            match v {
                Json::Array(a) => {
                    let ghost w = views(a@);
                    let mut out: Vec<String> = Vec::new();
                    let mut i: usize = 0;
                    assert(w.take(0) =~= seq![]);
                    assert(views(out@) =~= seq![]);
                    while i < a.len()
                        invariant
                            i <= a@.len(),
                            w == views(a@),
                            lookup(views(m@), k@) == Some(JsonView::Array(w)),
                            all_in(w.take(i as int), text_reader()) == Some(views(out@)),
                        decreases a@.len() - i,
                    {
                        proof {
                            lemma_view(a@[i as int]);
                            assert(w.take(i + 1).drop_last() =~= w.take(i as int));
                            assert(w.take(i + 1).last() == a@[i as int]@);
                        }
                        match &a[i] {
                            Json::Str(s) => {
                                let c: String = copy_text(s.as_str());
                                proof {
                                    lemma_views_push(out@, c);
                                }
                                out.push(c);
                            },
                            _ => {
                                proof {
                                    lemma_spoilt(w, text_reader(), i + 1);
                                }
                                return None;
                            },
                        }
                        i = i + 1;
                    }
                    assert(w.take(w.len() as int) =~= w);
                    Some(out)
                },
                _ => None,
            }
        },
        None => None,
    }
}

/// An entry of a table of texts.
pub open spec fn entry_in(e: (Seq<char>, JsonView)) -> Option<(Seq<char>, Seq<char>)> {
    match e.1 {
        JsonView::Str(s) => Some((e.0, s)),
        _ => None,
    }
}

/// The entries of a table of texts.
pub open spec fn entries_in(m: Seq<(Seq<char>, JsonView)>) -> Option<Seq<(Seq<char>, Seq<char>)>>
    decreases m.len(),
{
    if m.len() == 0 {
        Some(seq![])
    } else {
        match entries_in(m.drop_last()) {
            Some(l) => match entry_in(m.last()) {
                Some(e) => Some(l.push(e)),
                None => None,
            },
            None => None,
        }
    }
}

/// A table of texts, sorted by its keys.
pub open spec fn table_in(o: Option<JsonView>) -> Option<Seq<(Seq<char>, Seq<char>)>> {
    match o {
        Some(JsonView::Object(m)) => match entries_in(m) {
            Some(l) => Some(put_all_sorted(seq![], l)),
            None => None,
        },
        _ => None,
    }
}

/// A table of values, sorted by its keys.
pub open spec fn values_in(o: Option<JsonView>) -> Option<Seq<(Seq<char>, JsonView)>> {
    match o {
        Some(JsonView::Object(m)) => Some(put_all_sorted(seq![], m)),
        _ => None,
    }
}

proof fn lemma_no_entries(m: Seq<(Seq<char>, JsonView)>, i: int)
    requires
        0 <= i <= m.len(),
        entries_in(m.take(i)) is None,
    ensures
        entries_in(m) is None,
    decreases m.len() - i,
{
    if i < m.len() {
        assert(m.take(i + 1).drop_last() =~= m.take(i));
        lemma_no_entries(m, i + 1);
    } else {
        assert(m.take(i) =~= m);
    }
}

/// A table of texts, sorted by its keys.
pub(crate) fn read_table(m: &Vec<Member>, k: &str) -> (r: Option<SortedMap<String>>)
    ensures
        opt_view(r) == table_in(lookup(views(m@), k@)),
{
    match member(m, k) {
        Some(v) => {
            proof {
                lemma_view(*v);
            }
            match v {
                Json::Object(o) => {
                    let ghost w = views(o@);
                    let ghost mut l: Seq<(Seq<char>, Seq<char>)> = seq![];
                    let mut out: SortedMap<String> = SortedMap::new();
                    let mut i: usize = 0;
                    assert(w.take(0) =~= seq![]);
                    assert(out@ =~= put_all_sorted(seq![], l));
                    while i < o.len()
                        invariant
                            i <= o@.len(),
                            w == views(o@),
                            lookup(views(m@), k@) == Some(JsonView::Object(w)),
                            entries_in(w.take(i as int)) == Some(l),
                            out@ == put_all_sorted(seq![], l),
                        decreases o@.len() - i,
                    {
                        proof {
                            lemma_view(o@[i as int].value);
                            assert(w.take(i + 1).drop_last() =~= w.take(i as int));
                            assert(w.take(i + 1).last() == o@[i as int]@);
                        }
                        match &o[i].value {
                            Json::Str(s) => {
                                proof {
                                    let e = (o@[i as int].name@, s@);
                                    assert(l.push(e).drop_last() =~= l);
                                    l = l.push(e);
                                }
                                out.insert(copy_text(o[i].name.as_str()), copy_text(s.as_str()));
                            },
                            _ => {
                                proof {
                                    lemma_no_entries(w, i + 1);
                                }
                                return None;
                            },
                        }
                        i = i + 1;
                    }
                    assert(w.take(w.len() as int) =~= w);
                    Some(out)
                },
                _ => None,
            }
        },
        None => None,
    }
}

/// A table of values, sorted by its keys.
pub(crate) fn read_values(m: &Vec<Member>, k: &str) -> (r: Option<SortedMap<Json>>)
    ensures
        opt_view(r) == values_in(lookup(views(m@), k@)),
{
    match member(m, k) {
        Some(v) => {
            proof {
                lemma_view(*v);
            }
            match v {
                Json::Object(o) => {
                    let ghost w = views(o@);
                    let mut out: SortedMap<Json> = SortedMap::new();
                    let mut i: usize = 0;
                    assert(w.take(0) =~= seq![]);
                    while i < o.len()
                        invariant
                            i <= o@.len(),
                            w == views(o@),
                            out@ == put_all_sorted(seq![], w.take(i as int)),
                        decreases o@.len() - i,
                    {
                        proof {
                            assert(w.take(i + 1).drop_last() =~= w.take(i as int));
                            assert(w.take(i + 1).last() == o@[i as int]@);
                        }
                        out.insert(copy_text(o[i].name.as_str()), o[i].value.copy());
                        i = i + 1;
                    }
                    assert(w.take(w.len() as int) =~= w);
                    Some(out)
                },
                _ => None,
            }
        },
        None => None,
    }
}

/// The word of a variant: a text, or an object with the word for its only name.
pub open spec fn word_in(o: Option<JsonView>) -> Option<Seq<char>> {
    match o {
        Some(JsonView::Str(s)) => Some(s),
        Some(JsonView::Object(m)) => if m.len() == 1 && m[0].1 == JsonView::Null {
            Some(m[0].0)
        } else {
            None
        },
        _ => None,
    }
}

/// The word of a variant.
pub(crate) fn read_word(m: &Vec<Member>, k: &str) -> (r: Option<String>)
    ensures
        opt_view(r) == word_in(lookup(views(m@), k@)),
{
    match member(m, k) {
        Some(v) => {
            proof {
                lemma_view(*v);
            }
            match v {
                Json::Str(s) => Some(copy_text(s.as_str())),
                Json::Object(o) => {
                    if o.len() != 1 {
                        return None;
                    }
                    proof {
                        lemma_view(o@[0].value);
                        assert(views(o@)[0] == o@[0]@);
                    }
                    match &o[0].value {
                        Json::Null => Some(copy_text(o[0].name.as_str())),
                        _ => None,
                    }
                },
                _ => None,
            }
        },
        None => None,
    }
}

// ---- tables that are read back ---------------------------------------------------------

/// A sorted table is what its entries make when they are set in turn.
pub proof fn lemma_sorted_kept<T>(s: Seq<(Seq<char>, T)>)
    requires
        sorted(s),
    ensures
        put_all_sorted(seq![], s) == s,
    decreases s.len(),
{
    if s.len() > 0 {
        let d = s.drop_last();
        assert forall|i: int, j: int| 0 <= i < j < d.len() implies less(
            (#[trigger] d[i]).0,
            (#[trigger] d[j]).0,
        ) by {
            assert(d[i] == s[i] && d[j] == s[j]);
        }
        lemma_sorted_kept(d);
        let k = s.last().0;
        lemma_place(d, k, 0);
        let i = place(d, k, 0);
        if i < d.len() {
            assert(d[i] == s[i]);
            assert(less(s[i].0, s[s.len() - 1].0));
        }
        assert(d.insert(d.len() as int, s.last()) =~= s);
    }
}

/// The names of a sorted table are distinct.
pub proof fn lemma_sorted_distinct<T>(s: Seq<(Seq<char>, T)>)
    requires
        sorted(s),
    ensures
        distinct(s),
{
    assert forall|i: int, j: int| 0 <= i < j < s.len() implies (#[trigger] s[i]).0 != (#[trigger] s[j]).0 by {
        assert(less(s[i].0, s[j].0));
        crate::table::lemma_less_total(s[i].0, s[j].0);
    }
}

/// A table of texts is read back.
pub proof fn lemma_table(t: Seq<(Seq<char>, Seq<char>)>, d: nat)
    requires
        sorted(t),
        d > 0,
    ensures
        table_in(Some(table_json(t))) == Some(t),
        settled(table_json(t), d),
{
    let m = t.map_values(|e: (Seq<char>, Seq<char>)| (e.0, JsonView::Str(e.1)));
    lemma_entries(t);
    lemma_sorted_kept(t);
    assert(sorted(m)) by {
        assert forall|i: int, j: int| 0 <= i < j < m.len() implies less(
            (#[trigger] m[i]).0,
            (#[trigger] m[j]).0,
        ) by {
            assert(less(t[i].0, t[j].0));
        }
    }
    lemma_sorted_distinct(m);
    assert(forall|i: int| 0 <= i < m.len() ==> settled((#[trigger] m[i]).1, (d - 1) as nat));
}

proof fn lemma_entries(t: Seq<(Seq<char>, Seq<char>)>)
    ensures
        entries_in(t.map_values(|e: (Seq<char>, Seq<char>)| (e.0, JsonView::Str(e.1)))) == Some(t),
    decreases t.len(),
{
    let m = t.map_values(|e: (Seq<char>, Seq<char>)| (e.0, JsonView::Str(e.1)));
    if t.len() > 0 {
        let d = t.drop_last();
        lemma_entries(d);
        assert(m.drop_last() =~= d.map_values(
            |e: (Seq<char>, Seq<char>)| (e.0, JsonView::Str(e.1)),
        ));
        assert(d.push(t.last()) =~= t);
    } else {
        assert(t =~= seq![]);
    }
}

/// A table of values is read back.
pub proof fn lemma_values(t: Seq<(Seq<char>, JsonView)>, d: nat)
    requires
        sorted(t),
        d > 0,
        forall|i: int| 0 <= i < t.len() ==> settled((#[trigger] t[i]).1, (d - 1) as nat),
    ensures
        values_in(Some(JsonView::Object(t))) == Some(t),
        settled(JsonView::Object(t), d),
{
    lemma_sorted_kept(t);
    lemma_sorted_distinct(t);
}

/// Texts are read back.
pub proof fn lemma_texts(l: Seq<Seq<char>>, d: nat)
    requires
        d > 0,
    ensures
        list_in(Some(texts_json(l)), text_reader()) == Some(l),
        settled(texts_json(l), d),
{
    lemma_all_in(l, |s: Seq<char>| JsonView::Str(s), text_reader());
    let a = l.map_values(|s: Seq<char>| JsonView::Str(s));
    assert(forall|i: int| 0 <= i < a.len() ==> settled(#[trigger] a[i], (d - 1) as nat));
}

} // verus!
