//! What cases there are, each with the address of every step.
use crate::case_file::{analysis, analyze_case, AnalyzeResult, AnalyzeResultView};
use crate::check::{reason, why_not};
use crate::discover::{ReadFile, ReadFileView};
use crate::model::{CaseView, Step, StepView};
use crate::text::{
    contains, copy_text, copy_texts, duplicate_opt, duplicates, empty, has, lemma_views_push,
    lowercase, opt_text, opt_view, to_lowercase, views, Duplicate,
};
use crate::workspace::{relative, Workspace, WorkspaceView};
use crate::yaml::loaded;
use vstd::prelude::*;

verus! {

/// A step in short.
#[derive(Debug, Clone, PartialEq)]
pub struct StepBrief {
    pub id: String,
    pub method: String,
    pub url: String,
    pub depends_on: Vec<String>,
    /// How many assertions it has.
    pub assertions: usize,
}

/// What a `StepBrief` stands for.
#[verifier::ext_equal]
pub struct StepBriefView {
    pub id: Seq<char>,
    pub method: Seq<char>,
    pub url: Seq<char>,
    pub depends_on: Seq<Seq<char>>,
    pub assertions: usize,
}

impl View for StepBrief {
    type V = StepBriefView;

    open spec fn view(&self) -> StepBriefView {
        StepBriefView {
            id: self.id@,
            method: self.method@,
            url: self.url@,
            depends_on: views(self.depends_on@),
            assertions: self.assertions,
        }
    }
}

impl Duplicate for StepBrief {
    fn duplicate(&self) -> (r: Self) {
        StepBrief {
            id: copy_text(self.id.as_str()),
            method: copy_text(self.method.as_str()),
            url: copy_text(self.url.as_str()),
            depends_on: duplicates(&self.depends_on),
            assertions: self.assertions,
        }
    }
}

/// A file. One that is no case is listed too, with the reason.
#[derive(Debug, Clone, PartialEq)]
pub struct ListItem {
    /// Relative to the workspace.
    pub file: String,
    pub path: String,
    pub name: Option<String>,
    pub valid: bool,
    pub error: Option<String>,
    pub steps: Vec<StepBrief>,
}

/// What a `ListItem` stands for.
#[verifier::ext_equal]
pub struct ListItemView {
    pub file: Seq<char>,
    pub path: Seq<char>,
    pub name: Option<Seq<char>>,
    pub valid: bool,
    pub error: Option<Seq<char>>,
    pub steps: Seq<StepBriefView>,
}

impl View for ListItem {
    type V = ListItemView;

    open spec fn view(&self) -> ListItemView {
        ListItemView {
            file: self.file@,
            path: self.path@,
            name: opt_view(self.name),
            valid: self.valid,
            error: opt_view(self.error),
            steps: views(self.steps@),
        }
    }
}

impl Duplicate for ListItem {
    fn duplicate(&self) -> (r: Self) {
        ListItem {
            file: copy_text(self.file.as_str()),
            path: copy_text(self.path.as_str()),
            name: duplicate_opt(&self.name),
            valid: self.valid,
            error: duplicate_opt(&self.error),
            steps: duplicates(&self.steps),
        }
    }
}

/// A step in short.
pub open spec fn brief_of(s: StepView) -> StepBriefView {
    StepBriefView {
        id: s.id,
        method: s.http.method,
        url: s.http.url,
        depends_on: s.depends_on,
        assertions: s.assertions.len() as usize,
    }
}

/// A case as it is listed.
pub open spec fn case_item(c: CaseView, file: Seq<char>, path: Seq<char>) -> ListItemView {
    ListItemView {
        file,
        path,
        name: if c.name is Some && c.name->0.len() == 0 {
            None
        } else {
            c.name
        },
        valid: true,
        error: None,
        steps: c.requests.map_values(|s: StepView| brief_of(s)),
    }
}

/// A file that is no case.
pub open spec fn broken_item(file: Seq<char>, path: Seq<char>, why: Seq<char>) -> ListItemView {
    ListItemView { file, path, name: None, valid: false, error: Some(why), steps: seq![] }
}

/// A file as it is listed, given what an editor learns of it.
pub open spec fn analyzed_item(a: AnalyzeResultView, file: Seq<char>, path: Seq<char>) -> ListItemView {
    match a.case {
        Some(c) => if a.valid {
            case_item(c, file, path)
        } else {
            broken_item(file, path, why_not(a))
        },
        None => broken_item(file, path, why_not(a)),
    }
}

/// A file as it is listed.
pub open spec fn item_of(ws: WorkspaceView, f: ReadFileView) -> ListItemView {
    let file = relative(ws.root, f.path);
    match f.text {
        Ok(t) => analyzed_item(analysis(loaded(t)), file, f.path),
        Err(e) => broken_item(file, f.path, e),
    }
}

/// Whether a step has a text, in small letters, in its address or its id.
pub open spec fn step_matches(s: StepBriefView, q: Seq<char>) -> bool {
    contains(lowercase(s.url), q) || contains(lowercase(s.id), q)
}

/// Whether a file has a text, in small letters, in its path, its name or a step.
pub open spec fn item_matches(it: ListItemView, q: Seq<char>) -> bool {
    ||| contains(lowercase(it.file), q)
    ||| it.name is Some && contains(lowercase(it.name->0), q)
    ||| exists|i: int| 0 <= i < it.steps.len() && step_matches(#[trigger] it.steps[i], q)
}

/// Whether a file is listed: an empty text asks for all of them.
pub open spec fn asked_for(it: ListItemView, query: Option<Seq<char>>) -> bool {
    match query {
        Some(q) => lowercase(q).len() == 0 || item_matches(it, lowercase(q)),
        None => true,
    }
}

/// The files that are listed.
pub open spec fn listed(ws: WorkspaceView, files: Seq<ReadFileView>, query: Option<Seq<char>>) -> Seq<
    ListItemView,
> {
    files.map_values(|f: ReadFileView| item_of(ws, f)).filter(
        |it: ListItemView| asked_for(it, query),
    )
}

fn broken(file: &str, path: &str, why: &str) -> (r: ListItem)
    ensures
        r@ == broken_item(file@, path@, why@),
{
    let steps: Vec<StepBrief> = Vec::new();
    assert(views(steps@) =~= seq![]);
    ListItem {
        file: copy_text(file),
        path: copy_text(path),
        name: None,
        valid: false,
        error: Some(copy_text(why)),
        steps,
    }
}

fn briefs(l: &Vec<Step>) -> (r: Vec<StepBrief>)
    ensures
        views(r@) == views(l@).map_values(|s: StepView| brief_of(s)),
{
    let mut out: Vec<StepBrief> = Vec::new();
    let mut i: usize = 0;
    while i < l.len()
        invariant
            i <= l@.len(),
            out@.len() == i,
            forall|k: int| 0 <= k < i ==> (#[trigger] out@[k])@ == brief_of(l@[k]@),
        decreases l@.len() - i,
    {
        let s: &Step = &l[i];
        out.push(
            StepBrief {
                id: copy_text(s.id.as_str()),
                method: copy_text(s.http.method.as_str()),
                url: copy_text(s.http.url.as_str()),
                depends_on: copy_texts(&s.depends_on),
                assertions: s.assertions.len(),
            },
        );
        i = i + 1;
    }
    assert(views(out@) =~= views(l@).map_values(|s: StepView| brief_of(s)));
    out
}

/// A file as it is listed, given what an editor learns of it.
pub fn list_analyzed(a: &AnalyzeResult, file: &str, path: &str) -> (r: ListItem)
    ensures
        r@ == analyzed_item(a@, file@, path@),
{
    if a.valid {
        if let Some(c) = &a.case {
            let name: Option<String> = match &c.name {
                Some(n) => if empty(n.as_str()) {
                    None
                } else {
                    Some(copy_text(n.as_str()))
                },
                None => None,
            };
            return ListItem {
                file: copy_text(file),
                path: copy_text(path),
                name,
                valid: true,
                error: None,
                steps: briefs(&c.requests),
            };
        }
    }
    broken(file, path, reason(a).as_str())
}

/// A file as it is listed.
pub fn list_file(ws: &Workspace, f: &ReadFile) -> (r: ListItem)
    ensures
        r@ == item_of(ws@, f@),
{
    let file: String = ws.rel(f.path.as_str());
    match &f.text {
        Ok(t) => list_analyzed(&analyze_case(t.as_str()), file.as_str(), f.path.as_str()),
        Err(e) => broken(file.as_str(), f.path.as_str(), e.as_str()),
    }
}

/// Whether a file has a text, in small letters, in its path, its name or a step.
pub fn matches_query(it: &ListItem, q: &str) -> (r: bool)
    ensures
        r == item_matches(it@, q@),
{
    if has(to_lowercase(it.file.as_str()).as_str(), q) {
        return true;
    }
    if let Some(n) = &it.name {
        if has(to_lowercase(n.as_str()).as_str(), q) {
            return true;
        }
    }
    let mut i: usize = 0;
    while i < it.steps.len()
        invariant
            i <= it.steps@.len(),
            forall|k: int| 0 <= k < i ==> !step_matches(#[trigger] it@.steps[k], q@),
        decreases it.steps@.len() - i,
    {
        let s: &StepBrief = &it.steps[i];
        assert(it@.steps[i as int] == s@);
        if has(to_lowercase(s.url.as_str()).as_str(), q) || has(
            to_lowercase(s.id.as_str()).as_str(),
            q,
        ) {
            return true;
        }
        i = i + 1;
    }
    false
}

/// The cases that were found in a workspace, or those of them that hold a text.
pub fn list(ws: &Workspace, files: &Vec<ReadFile>, query: Option<&str>) -> (r: Vec<ListItem>)
    ensures
        views(r@) == listed(ws@, views(files@), opt_text(query)),
{
    let small: String = match query {
        Some(q) => to_lowercase(q),
        None => String::new(),
    };
    let all: bool = empty(small.as_str());
    let ghost items = views(files@).map_values(|f: ReadFileView| item_of(ws@, f));
    let ghost asks = |it: ListItemView| asked_for(it, opt_text(query));
    let mut out: Vec<ListItem> = Vec::new();
    let mut i: usize = 0;
    proof {
        reveal(Seq::filter);
        assert(items.take(0) =~= seq![]);
        assert(views(out@) =~= seq![]);
    }
    while i < files.len()
        invariant
            i <= files@.len(),
            items == views(files@).map_values(|f: ReadFileView| item_of(ws@, f)),
            asks == (|it: ListItemView| asked_for(it, opt_text(query))),
            all == (small@.len() == 0),
            query is Some ==> small@ == lowercase(query->0@),
            query is None ==> all,
            views(out@) == items.take(i as int).filter(asks),
        decreases files@.len() - i,
    {
        let it: ListItem = list_file(ws, &files[i]);
        proof {
            reveal(Seq::filter);
            assert(views(files@)[i as int] == files@[i as int]@);
            assert(it@ == items[i as int]);
            assert(items.take(i + 1).drop_last() =~= items.take(i as int));
            assert(items.take(i + 1).last() == it@);
            assert(asks(it@) == asked_for(it@, opt_text(query)));
            lemma_views_push(out@, it);
        }
        if all || matches_query(&it, small.as_str()) {
            out.push(it);
        }
        i = i + 1;
    }
    assert(items.take(items.len() as int) =~= items);
    out
}

/// A case is listed with its file, its name and each of its steps, in order; what is no case is
/// listed all the same, with why.
pub proof fn law_item(a: AnalyzeResultView, file: Seq<char>, path: Seq<char>, i: int)
    ensures
        analyzed_item(a, file, path).file == file,
        analyzed_item(a, file, path).path == path,
        analyzed_item(a, file, path).valid <==> a.valid && a.case is Some,
        a.valid && a.case is Some ==> {
            let c = a.case->0;
            let it = analyzed_item(a, file, path);
            &&& it.error is None
            &&& c.name is None ==> it.name is None
            &&& c.name is Some && c.name->0.len() > 0 ==> it.name == c.name
            &&& it.steps.len() == c.requests.len()
            &&& 0 <= i < c.requests.len() ==> {
                &&& it.steps[i].id == c.requests[i].id
                &&& it.steps[i].method == c.requests[i].http.method
                &&& it.steps[i].url == c.requests[i].http.url
                &&& it.steps[i].depends_on == c.requests[i].depends_on
                &&& c.requests[i].assertions.len() <= usize::MAX ==> it.steps[i].assertions
                    == c.requests[i].assertions.len()
            }
        },
        !(a.valid && a.case is Some) && a.error is Some ==> analyzed_item(a, file, path).error
            == a.error,
{
}

/// What is searched for is found in the file, in the name and in the address and the id of every
/// step, whatever the case of the letters; without something to search for all is listed.
pub proof fn law_found(it: ListItemView, q: Seq<char>, i: int)
    ensures
        asked_for(it, None),
        lowercase(q).len() == 0 ==> asked_for(it, Some(q)),
        contains(lowercase(it.file), lowercase(q)) ==> asked_for(it, Some(q)),
        it.name is Some && contains(lowercase(it.name->0), lowercase(q)) ==> asked_for(it, Some(q)),
        0 <= i < it.steps.len() && (contains(lowercase(it.steps[i].url), lowercase(q)) || contains(
            lowercase(it.steps[i].id),
            lowercase(q),
        )) ==> asked_for(it, Some(q)),
        asked_for(it, Some(q)) ==> lowercase(q).len() == 0 || contains(
            lowercase(it.file),
            lowercase(q),
        ) || (it.name is Some && contains(lowercase(it.name->0), lowercase(q))) || exists|k: int|
            0 <= k < it.steps.len() && step_matches(#[trigger] it.steps[k], lowercase(q)),
{
    if 0 <= i < it.steps.len() && (contains(lowercase(it.steps[i].url), lowercase(q)) || contains(
        lowercase(it.steps[i].id),
        lowercase(q),
    )) {
        assert(step_matches(it.steps[i], lowercase(q)));
    }
}

} // verus!
