//! Running: the order of steps, what a failure holds back, the records of steps and cases, and
//! the course of a batch.
//!
//! Nothing is sent from here. A caller that sends asks `CaseRun` for the next step, sends it and
//! hands the outcome back.
//!
//! A failed step was sent and did not meet its assertions; a step in error was not sent. Each
//! case has variables of its own, and outputs only flow between the steps of one case.
use crate::assertion::{eval_assertions, records_of, take_outputs, taken_outputs, NumKeys, RespView};
use crate::graph::{
    closure, edges_of, ints, is_cycle, is_path, law_order, lemma_reaches_step, order, reachable,
    reaches, topological, valid, Edges,
};
use crate::http::{default_client, ClientConfig, ClientConfigView, HttpResponse, HttpResponseView};
use crate::json::{Json, JsonView};
use crate::model::{Case, CaseView, Step, StepView};
use crate::redact::{
    clean_body, cleaned_body, known_outputs, known_values, last_name, law_cleaned_body,
    law_scrubbed, masked, no_star, redact_assertions, redact_headers, redact_outputs, redact_vars,
    redacted_assertions, redacted_headers, redacted_outputs, redacted_vars, scrub_secrets, scrubbed,
    secret_name, secret_values, secret_values_of_outputs,
};
use crate::report::{
    absent_body, blocks, countable, no_counts, skipped_step, summarizes, AssertRecord,
    AssertRecordView, BodyRecord, BodyRecordView, CaseResult, CaseResultView, CaseStatus,
    EnvironmentInfo, EnvironmentInfoView, REPORT_SCHEMA_VERSION, RequestRecord, RequestRecordView,
    ResponseRecord, ResponseRecordView, RunOptions, RunOptionsView, RunReport, RunReportView,
    RunStatus, RunSummary, StepResult, StepResultView, StepStatus, ToolInfo, ToolInfoView,
    WorkspaceInfo, WorkspaceInfoView,
};
use crate::request::{built, HttpRequest, HttpRequestView, RequestBody, RequestBodyView};
use crate::table::{has_key, law_put_sorted, lemma_key_at, lookup, put_sorted, sorted, SortedMap};
use crate::text::{
    byte_len, cat3, contains, copy_text, empty, last_part, last_segment, lemma_views_push, nat_text, opt_view,
    same, trim, usize_text, views, Duplicate,
};
use crate::util::{iso8601, iso_text};
use crate::vars::{
    law_output_found, law_whole_expression, merged_vars, resolved, resolved_http, RunContext,
    RunContextView,
};
use vstd::prelude::*;

verus! {

/// The most bytes of a body that a report of a batch keeps.
pub const DEFAULT_MAX_BODY_BYTES: usize = 64 * 1024;

/// How steps are run.
#[derive(Debug, Clone, PartialEq)]
pub struct RunOpts {
    pub environment: EnvironmentInfo,
    /// How many cases run at a time. The steps of a case run one after the other.
    pub concurrency: u32,
    /// Whether nothing more is run after a failure.
    pub stop_on_failure: bool,
    /// Whether a failed assertion lets the steps that depend on it run.
    pub continue_on_assertion_failure: bool,
    /// Whether credentials are hidden in what is recorded.
    pub redact: bool,
    pub max_body_bytes: usize,
    pub client: ClientConfig,
}

/// What a `RunOpts` stands for.
#[verifier::ext_equal]
pub struct RunOptsView {
    pub environment: EnvironmentInfoView,
    pub concurrency: u32,
    pub stop_on_failure: bool,
    pub continue_on_assertion_failure: bool,
    pub redact: bool,
    pub max_body_bytes: usize,
    pub client: ClientConfigView,
}

impl View for RunOpts {
    type V = RunOptsView;

    open spec fn view(&self) -> RunOptsView {
        RunOptsView {
            environment: self.environment@,
            concurrency: self.concurrency,
            stop_on_failure: self.stop_on_failure,
            continue_on_assertion_failure: self.continue_on_assertion_failure,
            redact: self.redact,
            max_body_bytes: self.max_body_bytes,
            client: self.client@,
        }
    }
}

impl Duplicate for RunOpts {
    fn duplicate(&self) -> (r: Self) {
        RunOpts {
            environment: self.environment.duplicate(),
            concurrency: self.concurrency,
            stop_on_failure: self.stop_on_failure,
            continue_on_assertion_failure: self.continue_on_assertion_failure,
            redact: self.redact,
            max_body_bytes: self.max_body_bytes,
            client: self.client.duplicate(),
        }
    }
}

/// How a batch is run unless something else is said.
pub open spec fn batch_opts(environment: EnvironmentInfoView) -> RunOptsView {
    RunOptsView {
        environment,
        concurrency: 1,
        stop_on_failure: false,
        continue_on_assertion_failure: false,
        redact: true,
        max_body_bytes: DEFAULT_MAX_BODY_BYTES,
        client: default_client(),
    }
}

impl RunOpts {
    /// How a batch is run unless something else is said: one case at a time, to the end, with
    /// credentials hidden and bodies cut.
    pub fn for_batch(environment: EnvironmentInfo) -> (r: Self)
        ensures
            r@ == batch_opts(environment@),
    {
        RunOpts {
            environment,
            concurrency: 1,
            stop_on_failure: false,
            continue_on_assertion_failure: false,
            redact: true,
            max_body_bytes: DEFAULT_MAX_BODY_BYTES,
            client: ClientConfig::default(),
        }
    }

    /// How a step is run from an editor: everything is shown as it is.
    pub fn for_debug(environment: EnvironmentInfo) -> (r: Self)
        ensures
            r@ == (RunOptsView {
                redact: false,
                max_body_bytes: usize::MAX,
                ..batch_opts(environment@)
            }),
    {
        RunOpts {
            environment,
            concurrency: 1,
            stop_on_failure: false,
            continue_on_assertion_failure: false,
            redact: false,
            max_body_bytes: usize::MAX,
            client: ClientConfig::default(),
        }
    }
}

// ---- order -----------------------------------------------------------------------------

/// The last step with an id.
pub open spec fn step_with_id(steps: Seq<StepView>, id: Seq<char>) -> Option<int>
    decreases steps.len(),
{
    if steps.len() == 0 {
        None
    } else if steps.last().id == id {
        Some(steps.len() - 1)
    } else {
        step_with_id(steps.drop_last(), id)
    }
}

proof fn lemma_step_with_id(steps: Seq<StepView>, id: Seq<char>)
    ensures
        match step_with_id(steps, id) {
            Some(i) => 0 <= i < steps.len() && steps[i].id == id && forall|k: int|
                i < k < steps.len() ==> (#[trigger] steps[k]).id != id,
            None => forall|k: int| 0 <= k < steps.len() ==> (#[trigger] steps[k]).id != id,
        },
    decreases steps.len(),
{
    if steps.len() > 0 && steps.last().id != id {
        lemma_step_with_id(steps.drop_last(), id);
        assert(forall|k: int| 0 <= k < steps.len() - 1 ==> steps.drop_last()[k] == steps[k]);
    }
}

/// The steps that ids name; ids of no step are left out.
pub open spec fn steps_named(steps: Seq<StepView>, ids: Seq<Seq<char>>) -> Seq<int>
    decreases ids.len(),
{
    if ids.len() == 0 {
        seq![]
    } else {
        match step_with_id(steps, ids.last()) {
            Some(i) => steps_named(steps, ids.drop_last()).push(i),
            None => steps_named(steps, ids.drop_last()),
        }
    }
}

proof fn lemma_steps_named(steps: Seq<StepView>, ids: Seq<Seq<char>>)
    ensures
        forall|k: int|
            0 <= k < steps_named(steps, ids).len() ==> 0 <= #[trigger] steps_named(steps, ids)[k]
                < steps.len(),
        forall|k: int|
            0 <= k < steps_named(steps, ids).len() ==> ids.contains(
                steps[#[trigger] steps_named(steps, ids)[k]].id,
            ),
        forall|d: int|
            0 <= d < ids.len() && step_with_id(steps, #[trigger] ids[d]) is Some ==> steps_named(
                steps,
                ids,
            ).contains(step_with_id(steps, ids[d])->0),
    decreases ids.len(),
{
    if ids.len() > 0 {
        let rest = ids.drop_last();
        lemma_steps_named(steps, rest);
        lemma_step_with_id(steps, ids.last());
        let a = steps_named(steps, ids);
        let b = steps_named(steps, rest);
        assert forall|k: int| 0 <= k < a.len() implies 0 <= #[trigger] a[k] < steps.len()
            && ids.contains(steps[a[k]].id) by {
            if k < b.len() {
                assert(a[k] == b[k]);
                let m = choose|m: int| 0 <= m < rest.len() && rest[m] == steps[b[k]].id;
                assert(ids[m] == rest[m]);
            } else {
                assert(ids[ids.len() - 1] == ids.last());
            }
        }
        assert forall|d: int|
            0 <= d < ids.len() && step_with_id(steps, #[trigger] ids[d]) is Some implies a.contains(
            step_with_id(steps, ids[d])->0,
        ) by {
            if d < ids.len() - 1 {
                assert(rest[d] == ids[d]);
                let x = step_with_id(steps, ids[d])->0;
                let m = choose|m: int| 0 <= m < b.len() && b[m] == x;
                assert(a[m] == x);
            } else {
                assert(a[a.len() - 1] == step_with_id(steps, ids[d])->0);
            }
        }
    }
}

/// The graph of the dependencies of steps. An id of no step is no dependency.
pub open spec fn graph_of(steps: Seq<StepView>) -> Edges {
    Seq::new(steps.len(), |i: int| steps_named(steps, steps[i].depends_on))
}

/// Every dependency in the graph is a step.
pub proof fn lemma_graph_of(steps: Seq<StepView>)
    ensures
        valid(graph_of(steps)),
        graph_of(steps).len() == steps.len(),
{
    let g = graph_of(steps);
    assert forall|i: int, k: int| 0 <= i < g.len() && 0 <= k < g[i].len() implies 0 <= #[trigger] g[i][k]
        < g.len() by {
        lemma_steps_named(steps, steps[i].depends_on);
    }
}

/// The last step with an id.
pub fn find_step(steps: &[Step], id: &str) -> (r: Option<usize>)
    ensures
        match r {
            Some(i) => step_with_id(views(steps@), id@) == Some(i as int) && i < steps@.len(),
            None => step_with_id(views(steps@), id@) is None,
        },
{
    let ghost v = views(steps@);
    let mut n: usize = steps.len();
    assert(v.take(n as int) =~= v);
    while n > 0
        invariant
            n <= steps@.len(),
            v == views(steps@),
            step_with_id(v, id@) == step_with_id(v.take(n as int), id@),
        decreases n,
    {
        proof {
            assert(v.take(n as int).drop_last() =~= v.take(n - 1));
            assert(v.take(n as int).last() == steps@[n - 1]@);
        }
        if same(steps[n - 1].id.as_str(), id) {
            return Some(n - 1);
        }
        n = n - 1;
    }
    None
}

/// The steps that ids name.
pub fn find_steps(steps: &[Step], ids: &Vec<String>) -> (r: Vec<usize>)
    ensures
        ints(r@) == steps_named(views(steps@), views(ids@)),
        forall|k: int| 0 <= k < r@.len() ==> #[trigger] r@[k] < steps@.len(),
{
    let ghost v = views(ids@);
    let mut out: Vec<usize> = Vec::new();
    let mut i: usize = 0;
    assert(v.take(0) =~= seq![]);
    assert(ints(out@) =~= seq![]);
    while i < ids.len()
        invariant
            i <= ids@.len(),
            v == views(ids@),
            ints(out@) == steps_named(views(steps@), v.take(i as int)),
            forall|k: int| 0 <= k < out@.len() ==> #[trigger] out@[k] < steps@.len(),
        decreases ids@.len() - i,
    {
        proof {
            assert(v.take(i + 1).drop_last() =~= v.take(i as int));
            assert(v.take(i + 1).last() == ids@[i as int]@);
        }
        if let Some(j) = find_step(steps, ids[i].as_str()) {
            let ghost before = out@;
            out.push(j);
            assert(ints(out@) =~= ints(before).push(j as int));
        }
        i = i + 1;
    }
    assert(v.take(v.len() as int) =~= v);
    out
}

/// The dependencies of each step.
pub fn dependency_lists(steps: &[Step]) -> (r: Vec<Vec<usize>>)
    ensures
        edges_of(r@) == graph_of(views(steps@)),
        r@.len() == steps@.len(),
{
    let ghost v = views(steps@);
    let mut out: Vec<Vec<usize>> = Vec::new();
    let mut i: usize = 0;
    while i < steps.len()
        invariant
            i <= steps@.len(),
            v == views(steps@),
            out@.len() == i,
            forall|k: int| 0 <= k < i ==> ints((#[trigger] out@[k])@) == graph_of(v)[k],
        decreases steps@.len() - i,
    {
        assert(v[i as int] == steps@[i as int]@);
        out.push(find_steps(steps, &steps[i].depends_on));
        i = i + 1;
    }
    assert(edges_of(out@) =~= graph_of(v));
    out
}

/// The order in which steps run: each after the steps it depends on, else as they stand. Steps
/// that depend on each other in a circle run all the same.
pub fn topo_order(steps: &[Step]) -> (r: Vec<usize>)
    ensures
        ints(r@) == order(graph_of(views(steps@))),
        r@.len() == steps@.len(),
        forall|k: int| 0 <= k < r@.len() ==> #[trigger] r@[k] < steps@.len(),
{
    let g: Vec<Vec<usize>> = dependency_lists(steps);
    proof {
        lemma_graph_of(views(steps@));
        law_order(graph_of(views(steps@)));
    }
    let r: Vec<usize> = topological(&g);
    assert forall|k: int| 0 <= k < r@.len() implies #[trigger] r@[k] < steps@.len() by {
        assert(ints(r@)[k] == r@[k] as int);
        assert(0 <= order(graph_of(views(steps@)))[k] < graph_of(views(steps@)).len());
    }
    r
}

/// Where no step depends on itself in a circle, every step comes after the steps it depends on.
pub proof fn law_dependencies_first(steps: Seq<StepView>, i: int, d: int)
    requires
        forall|c: Seq<int>| !is_cycle(graph_of(steps), c),
        0 <= i < steps.len(),
        0 <= d < steps[i].depends_on.len(),
        step_with_id(steps, steps[i].depends_on[d]) is Some,
    ensures
        exists|a: int, b: int|
            #![trigger order(graph_of(steps))[a], order(graph_of(steps))[b]]
            0 <= a < b < steps.len() && order(graph_of(steps))[a] == step_with_id(
                steps,
                steps[i].depends_on[d],
            )->0 && order(graph_of(steps))[b] == i,
{
    let g = graph_of(steps);
    let o = order(g);
    let j = step_with_id(steps, steps[i].depends_on[d])->0;
    lemma_graph_of(steps);
    law_order(g);
    lemma_steps_named(steps, steps[i].depends_on);
    assert(g[i].contains(j));
    let k = choose|k: int| 0 <= k < g[i].len() && g[i][k] == j;
    assert(o.contains(i));
    let b = choose|b: int| 0 <= b < o.len() && o[b] == i;
    assert(o.take(b).contains(g[o[b]][k]) || reaches(g, g[o[b]][k], o[b]));
    if reaches(g, j, i) {
        let p = choose|p: Seq<int>| is_path(g, p, j, i);
        let c = p.push(j);
        assert forall|m: int| 0 <= m < c.len() - 1 implies g[#[trigger] c[m]].contains(c[m + 1]) by {
            if m < p.len() - 1 {
                assert(c[m] == p[m] && c[m + 1] == p[m + 1]);
            } else {
                assert(c[m] == i && c[m + 1] == j);
            }
        }
        assert(is_path(g, c, c[0], c[0]));
        assert(is_cycle(g, c));
    }
    let a = choose|a: int| 0 <= a < o.take(b).len() && o.take(b)[a] == j;
    assert(o[a] == j && o[b] == i);
}

// ---- selection -------------------------------------------------------------------------

/// The nodes of a list that are reached from the roots.
pub open spec fn selected(g: Edges, roots: Seq<int>, list: Seq<int>) -> Seq<int>
    decreases list.len(),
{
    if list.len() == 0 {
        seq![]
    } else if reachable(g, roots, list.last()) {
        selected(g, roots, list.drop_last()).push(list.last())
    } else {
        selected(g, roots, list.drop_last())
    }
}

/// Named steps with everything they depend on, in the order in which they run.
pub open spec fn needed(steps: Seq<StepView>, ids: Seq<Seq<char>>) -> Seq<int> {
    selected(graph_of(steps), steps_named(steps, ids), order(graph_of(steps)))
}

/// Named steps with everything they depend on, in the order in which they run. Ids of no step
/// are ignored.
pub fn with_dependencies(steps: &[Step], ids: &Vec<String>) -> (r: Vec<usize>)
    ensures
        ints(r@) == needed(views(steps@), views(ids@)),
        forall|k: int| 0 <= k < r@.len() ==> #[trigger] r@[k] < steps@.len(),
{
    let g: Vec<Vec<usize>> = dependency_lists(steps);
    let roots: Vec<usize> = find_steps(steps, ids);
    proof {
        lemma_graph_of(views(steps@));
    }
    let keep: Vec<bool> = closure(&g, &roots);
    let all: Vec<usize> = topo_order(steps);
    let ghost e = graph_of(views(steps@));
    let ghost rs = steps_named(views(steps@), views(ids@));
    let ghost list = order(e);
    let mut out: Vec<usize> = Vec::new();
    let mut i: usize = 0;
    assert(list.take(0) =~= seq![]);
    assert(ints(out@) =~= seq![]);
    while i < all.len()
        invariant
            i <= all@.len(),
            ints(all@) == list,
            all@.len() == steps@.len(),
            keep@.len() == steps@.len(),
            forall|k: int| 0 <= k < all@.len() ==> #[trigger] all@[k] < steps@.len(),
            forall|j: int| 0 <= j < keep@.len() ==> (#[trigger] keep@[j] <==> reachable(e, rs, j)),
            ints(out@) == selected(e, rs, list.take(i as int)),
            forall|k: int| 0 <= k < out@.len() ==> #[trigger] out@[k] < steps@.len(),
        decreases all@.len() - i,
    {
        let x: usize = all[i];
        proof {
            assert(list[i as int] == x as int);
            assert(list.take(i + 1).drop_last() =~= list.take(i as int));
            assert(list.take(i + 1).last() == x as int);
            assert(keep@[x as int] <==> reachable(e, rs, x as int));
        }
        if keep[x] {
            let ghost before = out@;
            out.push(x);
            assert(ints(out@) =~= ints(before).push(x as int));
        }
        i = i + 1;
    }
    assert(list.take(list.len() as int) =~= list);
    out
}

proof fn lemma_selected(g: Edges, roots: Seq<int>, list: Seq<int>, x: int)
    ensures
        selected(g, roots, list).contains(x) <==> list.contains(x) && reachable(g, roots, x),
    decreases list.len(),
{
    if list.len() > 0 {
        let rest = list.drop_last();
        lemma_selected(g, roots, rest, x);
        let s = selected(g, roots, list);
        let b = selected(g, roots, rest);
        if list.contains(x) && reachable(g, roots, x) {
            let k = choose|k: int| 0 <= k < list.len() && list[k] == x;
            if k < rest.len() {
                assert(rest[k] == x);
                let m = choose|m: int| 0 <= m < b.len() && b[m] == x;
                assert(s[m] == x);
            } else {
                assert(s[s.len() - 1] == x);
            }
        }
        if s.contains(x) {
            let k = choose|k: int| 0 <= k < s.len() && s[k] == x;
            if k < b.len() {
                assert(b[k] == x);
                assert(b.contains(x));
                let m = choose|m: int| 0 <= m < rest.len() && rest[m] == x;
                assert(list[m] == x);
            } else {
                assert(list[list.len() - 1] == x);
            }
        }
    }
}

/// A selection holds the named steps, and with a step all that it depends on.
pub proof fn law_selection_complete(steps: Seq<StepView>, ids: Seq<Seq<char>>, i: int, d: int)
    ensures
        0 <= d < ids.len() && step_with_id(steps, ids[d]) is Some ==> needed(steps, ids).contains(
            step_with_id(steps, ids[d])->0,
        ),
        needed(steps, ids).contains(i) ==> 0 <= i < steps.len(),
        needed(steps, ids).contains(i) && 0 <= d < steps[i].depends_on.len() && step_with_id(
            steps,
            steps[i].depends_on[d],
        ) is Some ==> needed(steps, ids).contains(step_with_id(steps, steps[i].depends_on[d])->0),
{
    let g = graph_of(steps);
    let rs = steps_named(steps, ids);
    lemma_graph_of(steps);
    law_order(g);
    lemma_steps_named(steps, ids);
    if 0 <= d < ids.len() && step_with_id(steps, ids[d]) is Some {
        let x = step_with_id(steps, ids[d])->0;
        lemma_step_with_id(steps, ids[d]);
        assert(rs.contains(x));
        let k = choose|k: int| 0 <= k < rs.len() && rs[k] == x;
        crate::graph::lemma_reaches_self(g, x);
        assert(reaches(g, rs[k], x));
        assert(order(g).contains(x));
        lemma_selected(g, rs, order(g), x);
    }
    lemma_selected(g, rs, order(g), i);
    if needed(steps, ids).contains(i) {
        let m = choose|m: int| 0 <= m < order(g).len() && order(g)[m] == i;
        assert(0 <= order(g)[m] < g.len());
        if 0 <= d < steps[i].depends_on.len() && step_with_id(steps, steps[i].depends_on[d]) is Some {
            let j = step_with_id(steps, steps[i].depends_on[d])->0;
            lemma_step_with_id(steps, steps[i].depends_on[d]);
            lemma_steps_named(steps, steps[i].depends_on);
            assert(g[i].contains(j));
            let r = choose|r: int| 0 <= r < rs.len() && reaches(g, rs[r], i);
            lemma_reaches_step(g, rs[r], i, j);
            assert(reachable(g, rs, j));
            assert(order(g).contains(j));
            lemma_selected(g, rs, order(g), j);
        }
    }
}

// ---- what a failure holds back ---------------------------------------------------------

/// A step that is not run because of another.
#[derive(Debug, Clone, PartialEq)]
pub struct BlockedStep {
    pub id: String,
    /// The step that failed in the first place, however far up it is.
    pub cause: String,
}

/// What a `BlockedStep` stands for.
#[verifier::ext_equal]
pub struct BlockedStepView {
    pub id: Seq<char>,
    pub cause: Seq<char>,
}

impl View for BlockedStep {
    type V = BlockedStepView;

    open spec fn view(&self) -> BlockedStepView {
        BlockedStepView {
            id: self.id@,
            cause: self.cause@,
        }
    }
}

impl Duplicate for BlockedStep {
    fn duplicate(&self) -> (r: Self) {
        BlockedStep {
            id: copy_text(self.id.as_str()),
            cause: copy_text(self.cause.as_str()),
        }
    }
}

/// The outcome of a step that was run.
#[derive(Debug, Clone, PartialEq)]
pub struct StepOutcome {
    pub id: String,
    pub status: StepStatus,
}

/// What a `StepOutcome` stands for.
#[verifier::ext_equal]
pub struct StepOutcomeView {
    pub id: Seq<char>,
    pub status: StepStatus,
}

impl View for StepOutcome {
    type V = StepOutcomeView;

    open spec fn view(&self) -> StepOutcomeView {
        StepOutcomeView {
            id: self.id@,
            status: self.status,
        }
    }
}

impl Duplicate for StepOutcome {
    fn duplicate(&self) -> (r: Self) {
        StepOutcome {
            id: copy_text(self.id.as_str()),
            status: self.status,
        }
    }
}

/// The cause of the first of the ids that has one.
pub open spec fn first_cause(cause: Seq<(Seq<char>, Seq<char>)>, ids: Seq<Seq<char>>) -> Option<
    Seq<char>,
>
    decreases ids.len(),
{
    if ids.len() == 0 {
        None
    } else {
        match lookup(cause, ids[0]) {
            Some(c) => Some(c),
            None => first_cause(cause, ids.drop_first()),
        }
    }
}

fn find_cause(cause: &SortedMap<String>, ids: &Vec<String>) -> (r: Option<String>)
    ensures
        opt_view(r) == first_cause(cause@, views(ids@)),
{
    let ghost v = views(ids@);
    let mut i: usize = 0;
    assert(v.skip(0) =~= v);
    while i < ids.len()
        invariant
            i <= ids@.len(),
            v == views(ids@),
            first_cause(cause@, v) == first_cause(cause@, v.skip(i as int)),
        decreases ids@.len() - i,
    {
        proof {
            assert(v.skip(i as int)[0] == ids@[i as int]@);
            assert(v.skip(i as int).drop_first() =~= v.skip(i + 1));
        }
        if let Some(c) = cause.get(ids[i].as_str()) {
            return Some(copy_text(c.as_str()));
        }
        i = i + 1;
    }
    assert(v.skip(v.len() as int) =~= seq![]);
    None
}

/// The causes that steps are to themselves.
pub open spec fn own_causes(ids: Seq<Seq<char>>) -> Seq<(Seq<char>, Seq<char>)>
    decreases ids.len(),
{
    if ids.len() == 0 {
        seq![]
    } else {
        put_sorted(own_causes(ids.drop_last()), ids.last(), ids.last())
    }
}

/// The causes and the blocked steps after a list of steps was gone through: a step with a
/// dependency that has a cause takes over that cause.
pub open spec fn spread(
    steps: Seq<StepView>,
    list: Seq<int>,
    cause: Seq<(Seq<char>, Seq<char>)>,
) -> (Seq<(Seq<char>, Seq<char>)>, Seq<BlockedStepView>)
    decreases list.len(),
{
    if list.len() == 0 {
        (cause, seq![])
    } else {
        let (c, o) = spread(steps, list.drop_last(), cause);
        let s = steps[list.last()];
        if has_key(c, s.id) {
            (c, o)
        } else {
            match first_cause(c, s.depends_on) {
                None => (c, o),
                Some(r) => (put_sorted(c, s.id, r), o.push(BlockedStepView { id: s.id, cause: r })),
            }
        }
    }
}

/// The steps that are held back by those that block, with the causes.
pub open spec fn blocked_by(steps: Seq<StepView>, blocking: Seq<Seq<char>>) -> Seq<BlockedStepView> {
    spread(steps, order(graph_of(steps)), own_causes(blocking)).1
}

/// The steps that are held back by those that block: everything that depends on one of them,
/// however far down. Branches that do not depend on one are not affected.
pub fn blocked_steps(steps: &[Step], blocking: &Vec<String>) -> (r: Vec<BlockedStep>)
    ensures
        views(r@) == blocked_by(views(steps@), views(blocking@)),
{
    let ghost bs = views(blocking@);
    let ghost v = views(steps@);
    let mut cause: SortedMap<String> = SortedMap::new();
    let mut i: usize = 0;
    assert(bs.take(0) =~= seq![]);
    while i < blocking.len()
        invariant
            i <= blocking@.len(),
            bs == views(blocking@),
            cause@ == own_causes(bs.take(i as int)),
        decreases blocking@.len() - i,
    {
        proof {
            assert(bs.take(i + 1).drop_last() =~= bs.take(i as int));
            assert(bs.take(i + 1).last() == blocking@[i as int]@);
        }
        cause.insert(copy_text(blocking[i].as_str()), copy_text(blocking[i].as_str()));
        i = i + 1;
    }
    assert(bs.take(bs.len() as int) =~= bs);
    let ghost start = cause@;
    let all: Vec<usize> = topo_order(steps);
    let ghost list = order(graph_of(v));
    let mut out: Vec<BlockedStep> = Vec::new();
    let mut k: usize = 0;
    assert(list.take(0) =~= seq![]);
    assert(views(out@) =~= seq![]);
    while k < all.len()
        invariant
            k <= all@.len(),
            v == views(steps@),
            ints(all@) == list,
            forall|m: int| 0 <= m < all@.len() ==> #[trigger] all@[m] < steps@.len(),
            (cause@, views(out@)) == spread(v, list.take(k as int), start),
        decreases all@.len() - k,
    {
        let s: &Step = &steps[all[k]];
        proof {
            assert(list[k as int] == all@[k as int] as int);
            assert(list.take(k + 1).drop_last() =~= list.take(k as int));
            assert(v[list.take(k + 1).last()] == s@);
        }
        if cause.get(s.id.as_str()).is_none() {
            if let Some(root) = find_cause(&cause, &s.depends_on) {
                let b: BlockedStep = BlockedStep {
                    id: copy_text(s.id.as_str()),
                    cause: copy_text(root.as_str()),
                };
                proof {
                    lemma_views_push(out@, b);
                }
                cause.insert(copy_text(s.id.as_str()), root);
                out.push(b);
            }
        }
        k = k + 1;
    }
    assert(list.take(list.len() as int) =~= list);
    out
}

/// The ids of the outcomes that hold others back.
pub open spec fn blocking_ids(outcomes: Seq<StepOutcomeView>, cont: bool) -> Seq<Seq<char>>
    decreases outcomes.len(),
{
    if outcomes.len() == 0 {
        seq![]
    } else if blocks(outcomes.last().status, cont) {
        blocking_ids(outcomes.drop_last(), cont).push(outcomes.last().id)
    } else {
        blocking_ids(outcomes.drop_last(), cont)
    }
}

/// The steps that are held back after some steps were run.
pub fn blocked_from_outcomes(
    steps: &[Step],
    outcomes: &[StepOutcome],
    continue_on_assertion_failure: bool,
) -> (r: Vec<BlockedStep>)
    ensures
        views(r@) == blocked_by(
            views(steps@),
            blocking_ids(views(outcomes@), continue_on_assertion_failure),
        ),
{
    let ghost v = views(outcomes@);
    let mut ids: Vec<String> = Vec::new();
    let mut i: usize = 0;
    assert(v.take(0) =~= seq![]);
    assert(views(ids@) =~= seq![]);
    while i < outcomes.len()
        invariant
            i <= outcomes@.len(),
            v == views(outcomes@),
            views(ids@) == blocking_ids(v.take(i as int), continue_on_assertion_failure),
        decreases outcomes@.len() - i,
    {
        proof {
            assert(v.take(i + 1).drop_last() =~= v.take(i as int));
            assert(v.take(i + 1).last() == outcomes@[i as int]@);
        }
        if outcomes[i].status.blocks_downstream(continue_on_assertion_failure) {
            let id: String = copy_text(outcomes[i].id.as_str());
            proof {
                lemma_views_push(ids@, id);
            }
            ids.push(id);
        }
        i = i + 1;
    }
    assert(v.take(v.len() as int) =~= v);
    blocked_steps(steps, &ids)
}

/// Whether every cause is one of the ids, and the table is sorted.
spec fn causes_in(cause: Seq<(Seq<char>, Seq<char>)>, ids: Seq<Seq<char>>) -> bool {
    &&& sorted(cause)
    &&& forall|k: int| 0 <= k < cause.len() ==> ids.contains((#[trigger] cause[k]).1)
}

proof fn lemma_put_cause(
    cause: Seq<(Seq<char>, Seq<char>)>,
    ids: Seq<Seq<char>>,
    k: Seq<char>,
    c: Seq<char>,
)
    requires
        causes_in(cause, ids),
        ids.contains(c),
    ensures
        causes_in(put_sorted(cause, k, c), ids),
{
    law_put_sorted(cause, k, c, k);
    crate::table::lemma_place(cause, k, 0);
    let t = put_sorted(cause, k, c);
    let p = crate::table::place(cause, k, 0);
    assert forall|m: int| 0 <= m < t.len() implies ids.contains((#[trigger] t[m]).1) by {
        if p < cause.len() && cause[p].0 == k {
            if m != p {
                assert(t[m] == cause[m]);
            }
        } else if m < p {
            assert(t[m] == cause[m]);
        } else if m > p {
            assert(t[m] == cause[m - 1]);
        }
    }
}

proof fn lemma_first_cause(
    cause: Seq<(Seq<char>, Seq<char>)>,
    ids: Seq<Seq<char>>,
    deps: Seq<Seq<char>>,
)
    requires
        causes_in(cause, ids),
    ensures
        first_cause(cause, deps) is Some ==> ids.contains(first_cause(cause, deps)->0),
        first_cause(cause, deps) is Some <==> exists|d: int|
            0 <= d < deps.len() && has_key(cause, #[trigger] deps[d]),
    decreases deps.len(),
{
    if deps.len() > 0 {
        let rest = deps.drop_first();
        lemma_first_cause(cause, ids, rest);
        lemma_key_at(cause, deps[0], 0);
        assert(forall|d: int| 0 <= d < rest.len() ==> rest[d] == deps[d + 1]);
        if lookup(cause, deps[0]) is None {
            if exists|d: int| 0 <= d < deps.len() && has_key(cause, #[trigger] deps[d]) {
                let d = choose|d: int| 0 <= d < deps.len() && has_key(cause, #[trigger] deps[d]);
                assert(rest[d - 1] == deps[d]);
            }
            if first_cause(cause, rest) is Some {
                let d = choose|d: int| 0 <= d < rest.len() && has_key(cause, #[trigger] rest[d]);
                assert(has_key(cause, deps[d + 1]));
            }
        } else {
            assert(has_key(cause, deps[0]));
        }
    }
}

proof fn lemma_own_causes(ids: Seq<Seq<char>>, all: Seq<Seq<char>>, k: Seq<char>)
    requires
        forall|i: int| 0 <= i < ids.len() ==> all.contains(#[trigger] ids[i]),
    ensures
        causes_in(own_causes(ids), all),
        has_key(own_causes(ids), k) <==> ids.contains(k),
    decreases ids.len(),
{
    if ids.len() > 0 {
        let rest = ids.drop_last();
        assert forall|i: int| 0 <= i < rest.len() implies all.contains(#[trigger] rest[i]) by {
            assert(rest[i] == ids[i]);
        }
        lemma_own_causes(rest, all, k);
        assert(all.contains(ids[ids.len() - 1]));
        lemma_put_cause(own_causes(rest), all, ids.last(), ids.last());
        law_put_sorted(own_causes(rest), ids.last(), ids.last(), k);
        if rest.contains(k) {
            let i = choose|i: int| 0 <= i < rest.len() && rest[i] == k;
            assert(ids[i] == k);
        }
        if ids.contains(k) {
            let i = choose|i: int| 0 <= i < ids.len() && ids[i] == k;
            if i < rest.len() {
                assert(rest[i] == k);
            }
        }
        assert(ids[ids.len() - 1] == ids.last());
    }
}

proof fn lemma_spread(
    steps: Seq<StepView>,
    list: Seq<int>,
    cause: Seq<(Seq<char>, Seq<char>)>,
    ids: Seq<Seq<char>>,
)
    requires
        causes_in(cause, ids),
    ensures
        causes_in(spread(steps, list, cause).0, ids),
        forall|k: int|
            0 <= k < spread(steps, list, cause).1.len() ==> ids.contains(
                (#[trigger] spread(steps, list, cause).1[k]).cause,
            ),
    decreases list.len(),
{
    if list.len() > 0 {
        let (c, o) = spread(steps, list.drop_last(), cause);
        lemma_spread(steps, list.drop_last(), cause, ids);
        let s = steps[list.last()];
        lemma_first_cause(c, ids, s.depends_on);
        if !has_key(c, s.id) && first_cause(c, s.depends_on) is Some {
            lemma_put_cause(c, ids, s.id, first_cause(c, s.depends_on)->0);
        }
    }
}

/// Whether a step with the id `a` depends on the id `b`.
pub open spec fn depends(steps: Seq<StepView>, a: Seq<char>, b: Seq<char>) -> bool {
    exists|i: int|
        0 <= i < steps.len() && (#[trigger] steps[i]).id == a && steps[i].depends_on.contains(b)
}

/// Whether the ids of `q` lead from `a` to `b`, each depending on the next.
pub open spec fn is_chain(
    steps: Seq<StepView>,
    q: Seq<Seq<char>>,
    a: Seq<char>,
    b: Seq<char>,
) -> bool {
    &&& q.len() > 0
    &&& q[0] == a
    &&& q.last() == b
    &&& forall|m: int| 0 <= m < q.len() - 1 ==> depends(steps, #[trigger] q[m], q[m + 1])
}

/// Whether dependencies lead from `a` to `b`, and `b` is the first on the way that blocks in its
/// own right.
pub open spec fn traces_to(
    steps: Seq<StepView>,
    blocking: Seq<Seq<char>>,
    a: Seq<char>,
    b: Seq<char>,
) -> bool {
    exists|q: Seq<Seq<char>>|
        #![trigger is_chain(steps, q, a, b)]
        is_chain(steps, q, a, b) && blocking.contains(b) && forall|m: int|
            0 <= m < q.len() - 1 ==> !blocking.contains(#[trigger] q[m])
}

/// Whether every id with a cause leads to it, and every id that blocks has one.
spec fn traced(
    steps: Seq<StepView>,
    blocking: Seq<Seq<char>>,
    cause: Seq<(Seq<char>, Seq<char>)>,
) -> bool {
    &&& forall|k: Seq<char>|
        #![trigger lookup(cause, k)]
        lookup(cause, k) is Some ==> traces_to(steps, blocking, k, lookup(cause, k)->0)
    &&& forall|k: Seq<char>| #![trigger lookup(cause, k)] blocking.contains(k) ==> has_key(cause, k)
}

proof fn lemma_own_cause(ids: Seq<Seq<char>>, k: Seq<char>)
    ensures
        sorted(own_causes(ids)),
        lookup(own_causes(ids), k) == (if ids.contains(k) {
            Some(k)
        } else {
            None
        }),
    decreases ids.len(),
{
    if ids.len() > 0 {
        let rest = ids.drop_last();
        lemma_own_cause(rest, k);
        law_put_sorted(own_causes(rest), ids.last(), ids.last(), k);
        if rest.contains(k) {
            let i = choose|i: int| 0 <= i < rest.len() && rest[i] == k;
            assert(ids[i] == k);
        }
        if ids.contains(k) {
            let i = choose|i: int| 0 <= i < ids.len() && ids[i] == k;
            if i < rest.len() {
                assert(rest[i] == k);
            }
        }
        assert(ids[ids.len() - 1] == ids.last());
    }
}

/// The cause that a step takes over is that of an id it depends on.
proof fn lemma_cause_of(cause: Seq<(Seq<char>, Seq<char>)>, deps: Seq<Seq<char>>) -> (d: Seq<char>)
    requires
        first_cause(cause, deps) is Some,
    ensures
        deps.contains(d),
        lookup(cause, d) == first_cause(cause, deps),
    decreases deps.len(),
{
    if lookup(cause, deps[0]) is Some {
        deps[0]
    } else {
        let rest = deps.drop_first();
        let d = lemma_cause_of(cause, rest);
        let i = choose|i: int| 0 <= i < rest.len() && rest[i] == d;
        assert(deps[i + 1] == d);
        d
    }
}

/// A step that depends on an id leads to where the id leads.
proof fn lemma_traced_on(
    steps: Seq<StepView>,
    blocking: Seq<Seq<char>>,
    i: int,
    d: Seq<char>,
    r: Seq<char>,
)
    requires
        0 <= i < steps.len(),
        steps[i].depends_on.contains(d),
        !blocking.contains(steps[i].id),
        traces_to(steps, blocking, d, r),
    ensures
        traces_to(steps, blocking, steps[i].id, r),
{
    let a = steps[i].id;
    let q = choose|q: Seq<Seq<char>>|
        #![trigger is_chain(steps, q, d, r)]
        is_chain(steps, q, d, r) && blocking.contains(r) && forall|m: int|
            0 <= m < q.len() - 1 ==> !blocking.contains(#[trigger] q[m]);
    let w = seq![a] + q;
    assert forall|m: int| 0 <= m < w.len() - 1 implies depends(steps, #[trigger] w[m], w[m + 1])
        && !blocking.contains(w[m]) by {
        if m == 0 {
            assert(depends(steps, a, d));
        } else {
            assert(w[m] == q[m - 1]);
            assert(w[m + 1] == q[m]);
        }
    }
    assert(w.last() == q.last());
    assert(is_chain(steps, w, a, r));
}

proof fn lemma_spread_traced(
    steps: Seq<StepView>,
    blocking: Seq<Seq<char>>,
    list: Seq<int>,
    cause: Seq<(Seq<char>, Seq<char>)>,
)
    requires
        sorted(cause),
        traced(steps, blocking, cause),
        forall|k: int| 0 <= k < list.len() ==> 0 <= #[trigger] list[k] < steps.len(),
    ensures
        sorted(spread(steps, list, cause).0),
        traced(steps, blocking, spread(steps, list, cause).0),
        forall|k: int|
            0 <= k < spread(steps, list, cause).1.len() ==> {
                let x = #[trigger] spread(steps, list, cause).1[k];
                traces_to(steps, blocking, x.id, x.cause) && !blocking.contains(x.id)
            },
    decreases list.len(),
{
    if list.len() > 0 {
        let rest = list.drop_last();
        assert forall|k: int| 0 <= k < rest.len() implies 0 <= #[trigger] rest[k] < steps.len() by {
            assert(rest[k] == list[k]);
        }
        lemma_spread_traced(steps, blocking, rest, cause);
        let (c, o) = spread(steps, rest, cause);
        let i = list[list.len() - 1];
        let s = steps[i];
        if !has_key(c, s.id) && first_cause(c, s.depends_on) is Some {
            let r = first_cause(c, s.depends_on)->0;
            let d = lemma_cause_of(c, s.depends_on);
            assert(lookup(c, s.id) is None);
            lemma_traced_on(steps, blocking, i, d, r);
            let t = put_sorted(c, s.id, r);
            law_put_sorted(c, s.id, r, s.id);
            assert forall|k: Seq<char>| #![trigger lookup(t, k)] lookup(t, k) is Some implies traces_to(
                steps,
                blocking,
                k,
                lookup(t, k)->0,
            ) by {
                law_put_sorted(c, s.id, r, k);
                assert(k != s.id ==> lookup(c, k) == lookup(t, k));
            }
            assert forall|k: Seq<char>| #![trigger lookup(t, k)] blocking.contains(k) implies has_key(
                t,
                k,
            ) by {
                law_put_sorted(c, s.id, r, k);
                assert(has_key(c, k));
            }
        }
    }
}

/// The cause of a blocked step is the root of its trouble: following what depends on what, it is
/// the first that blocks in its own right, and never one that is itself held back.
pub proof fn law_root_cause(steps: Seq<StepView>, blocking: Seq<Seq<char>>, k: int)
    requires
        0 <= k < blocked_by(steps, blocking).len(),
    ensures
        blocking.contains(blocked_by(steps, blocking)[k].cause),
        !blocking.contains(blocked_by(steps, blocking)[k].id),
        traces_to(
            steps,
            blocking,
            blocked_by(steps, blocking)[k].id,
            blocked_by(steps, blocking)[k].cause,
        ),
{
    let start = own_causes(blocking);
    lemma_own_cause(blocking, seq![]);
    assert(traced(steps, blocking, start)) by {
        assert forall|k: Seq<char>| #![trigger lookup(start, k)] lookup(start, k) is Some implies traces_to(
            steps,
            blocking,
            k,
            lookup(start, k)->0,
        ) by {
            lemma_own_cause(blocking, k);
            assert(is_chain(steps, seq![k], k, k));
        }
        assert forall|k: Seq<char>| #![trigger lookup(start, k)] blocking.contains(k) implies has_key(
            start,
            k,
        ) by {
            lemma_own_cause(blocking, k);
        }
    }
    lemma_graph_of(steps);
    law_order(graph_of(steps));
    let o = order(graph_of(steps));
    lemma_spread_traced(steps, blocking, o, start);
}

/// Whether an id blocks or is that of a blocked step.
pub open spec fn held_back(steps: Seq<StepView>, blocking: Seq<Seq<char>>, id: Seq<char>) -> bool {
    has_key(spread(steps, order(graph_of(steps)), own_causes(blocking)).0, id)
}

/// Going through one more step adds no id but that of the step.
proof fn lemma_spread_adds(
    steps: Seq<StepView>,
    list: Seq<int>,
    cause: Seq<(Seq<char>, Seq<char>)>,
    ids: Seq<Seq<char>>,
    p: int,
    k: Seq<char>,
)
    requires
        causes_in(cause, ids),
        0 <= p <= list.len(),
        forall|m: int| p <= m < list.len() ==> steps[#[trigger] list[m]].id != k,
    ensures
        has_key(spread(steps, list, cause).0, k) == has_key(
            spread(steps, list.take(p), cause).0,
            k,
        ),
    decreases list.len() - p,
{
    if p < list.len() {
        let rest = list.drop_last();
        assert(rest.take(p) =~= list.take(p));
        assert forall|m: int| p <= m < rest.len() implies steps[#[trigger] rest[m]].id != k by {
            assert(rest[m] == list[m]);
        }
        lemma_spread_adds(steps, rest, cause, ids, p, k);
        lemma_spread(steps, rest, cause, ids);
        let (c, o) = spread(steps, rest, cause);
        let s = steps[list.last()];
        assert(steps[list[list.len() - 1]].id != k);
        if !has_key(c, s.id) && first_cause(c, s.depends_on) is Some {
            law_put_sorted(c, s.id, first_cause(c, s.depends_on)->0, k);
        }
    } else {
        assert(list.take(p) =~= list);
    }
}

/// What is held back is exactly what follows from the failures: where ids are distinct and
/// nothing depends on itself in a circle, a step is held back if and only if it blocks itself
/// or one of the ids it depends on is held back.
pub proof fn law_held_back(steps: Seq<StepView>, blocking: Seq<Seq<char>>, i: int)
    requires
        0 <= i < steps.len(),
        forall|a: int, b: int|
            0 <= a < b < steps.len() ==> (#[trigger] steps[a]).id != (#[trigger] steps[b]).id,
        forall|c: Seq<int>| !is_cycle(graph_of(steps), c),
    ensures
        held_back(steps, blocking, steps[i].id) <==> blocking.contains(steps[i].id) || exists|d: int|
            0 <= d < steps[i].depends_on.len() && held_back(
                steps,
                blocking,
                #[trigger] steps[i].depends_on[d],
            ),
{
    let g = graph_of(steps);
    let o = order(g);
    let start = own_causes(blocking);
    let s = steps[i];
    lemma_graph_of(steps);
    law_order(g);
    assert forall|m: int| 0 <= m < blocking.len() implies blocking.contains(
        #[trigger] blocking[m],
    ) by {}
    lemma_own_causes(blocking, blocking, s.id);
    assert(o.contains(i));
    let p = choose|p: int| 0 <= p < o.len() && o[p] == i;
    let c = spread(steps, o.take(p), start).0;
    lemma_spread(steps, o.take(p), start, blocking);
    assert forall|k: Seq<char>|
        #![trigger has_key(c, k)]
        (forall|m: int| p <= m < o.len() ==> steps[#[trigger] o[m]].id != k) implies has_key(c, k)
        == held_back(steps, blocking, k) by {
        lemma_spread_adds(steps, o, start, blocking, p, k);
    }
    assert forall|d: int| 0 <= d < s.depends_on.len() implies has_key(
        c,
        #[trigger] s.depends_on[d],
    ) == held_back(steps, blocking, s.depends_on[d]) by {
        let k = s.depends_on[d];
        lemma_step_with_id(steps, k);
        if step_with_id(steps, k) is Some {
            law_dependencies_first(steps, i, d);
            let j = step_with_id(steps, k)->0;
            let (a, b) = choose|a: int, b: int|
                #![trigger o[a], o[b]]
                0 <= a < b < steps.len() && o[a] == j && o[b] == i;
            assert(b == p);
            assert forall|m: int| p <= m < o.len() implies steps[#[trigger] o[m]].id != k by {
                assert(o[m] != o[a]);
                if o[m] < j {
                    assert(steps[o[m]].id != steps[j].id);
                } else {
                    assert(steps[j].id != steps[o[m]].id);
                }
            }
        } else {
            assert forall|m: int| p <= m < o.len() implies steps[#[trigger] o[m]].id != k by {
                assert(0 <= o[m] < g.len());
            }
        }
        assert(has_key(c, k) == held_back(steps, blocking, k));
    }
    // The id itself: it can be there before the step only if it blocks.
    assert forall|m: int| 0 <= m < o.take(p).len() implies steps[#[trigger] o.take(p)[m]].id
        != s.id by {
        assert(o.take(p)[m] == o[m]);
        assert(o[m] != o[p]);
        assert(0 <= o[m] < g.len());
        if o[m] < i {
            assert(steps[o[m]].id != steps[i].id);
        } else {
            assert(steps[i].id != steps[o[m]].id);
        }
    }
    lemma_spread_adds(steps, o.take(p), start, blocking, 0, s.id);
    assert(o.take(p).take(0) =~= seq![]);
    assert(has_key(c, s.id) <==> blocking.contains(s.id));
    // After the step.
    let after = spread(steps, o.take(p + 1), start).0;
    assert(o.take(p + 1).drop_last() =~= o.take(p));
    assert(o.take(p + 1).last() == i);
    lemma_first_cause(c, blocking, s.depends_on);
    if !has_key(c, s.id) && first_cause(c, s.depends_on) is Some {
        law_put_sorted(c, s.id, first_cause(c, s.depends_on)->0, s.id);
    }
    assert forall|m: int| p + 1 <= m < o.len() implies steps[#[trigger] o[m]].id != s.id by {
        assert(o[m] != o[p]);
        assert(0 <= o[m] < g.len());
        if o[m] < i {
            assert(steps[o[m]].id != steps[i].id);
        } else {
            assert(steps[i].id != steps[o[m]].id);
        }
    }
    lemma_spread_adds(steps, o, start, blocking, p + 1, s.id);
    assert(held_back(steps, blocking, s.id) == has_key(after, s.id));
    if exists|d: int|
        0 <= d < s.depends_on.len() && held_back(steps, blocking, #[trigger] s.depends_on[d]) {
        let d = choose|d: int|
            0 <= d < s.depends_on.len() && held_back(steps, blocking, #[trigger] s.depends_on[d]);
        assert(has_key(c, s.depends_on[d]));
    }
    if first_cause(c, s.depends_on) is Some {
        let d = choose|d: int| 0 <= d < s.depends_on.len() && has_key(c, #[trigger] s.depends_on[d]);
        assert(held_back(steps, blocking, s.depends_on[d]));
    }
}

// ---- steps -----------------------------------------------------------------------------

/// The known values of credentials in the outputs of all steps.
pub open spec fn known_in_steps(es: Seq<(Seq<char>, Seq<(Seq<char>, JsonView)>)>) -> Seq<Seq<char>>
    decreases es.len(),
{
    if es.len() == 0 {
        seq![]
    } else {
        known_in_steps(es.drop_last()) + known_outputs(es.last().1)
    }
}

/// The known values of credentials: of the variables, of the outputs of earlier steps and of the
/// outputs of this one.
pub open spec fn secrets_of(
    ctx: RunContextView,
    outputs: Seq<(Seq<char>, JsonView)>,
    redact: bool,
) -> Seq<Seq<char>> {
    if redact {
        known_values(ctx.vars) + known_in_steps(ctx.steps) + known_outputs(outputs)
    } else {
        seq![]
    }
}

fn append_texts(out: &mut Vec<String>, more: Vec<String>)
    ensures
        views(final(out)@) == views(old(out)@) + views(more@),
{
    let mut rest: Vec<String> = more;
    let ghost a = out@;
    let ghost b = rest@;
    out.append(&mut rest);
    assert(views(a + b) =~= views(a) + views(b));
}

fn collect_secrets(ctx: &RunContext, outputs: &SortedMap<Json>, redact: bool) -> (r: Vec<String>)
    ensures
        views(r@) == secrets_of(ctx@, outputs@, redact),
{
    let mut out: Vec<String> = secret_values(&ctx.vars, redact);
    if !redact {
        return out;
    }
    let ghost first = views(out@);
    let ghost es = ctx.steps@;
    let mut i: usize = 0;
    assert(es.take(0) =~= seq![]);
    assert(first + known_in_steps(es.take(0)) =~= first);
    while i < ctx.steps.entries.len()
        invariant
            redact,
            i <= ctx.steps.entries@.len(),
            es == ctx.steps@,
            views(out@) == first + known_in_steps(es.take(i as int)),
        decreases ctx.steps.entries@.len() - i,
    {
        proof {
            assert(es.take(i + 1).drop_last() =~= es.take(i as int));
            assert(es.take(i + 1).last() == ctx.steps.entries@[i as int]@);
        }
        let more: Vec<String> = secret_values_of_outputs(&ctx.steps.entries[i].value, redact);
        let ghost before = views(out@);
        let ghost added = views(more@);
        append_texts(&mut out, more);
        assert(before + added =~= first + known_in_steps(es.take(i + 1)));
        i = i + 1;
    }
    assert(es.take(es.len() as int) =~= es);
    append_texts(&mut out, secret_values_of_outputs(outputs, redact));
    out
}

/// The record of a request. A file and a form are told by a note.
pub open spec fn request_record(
    req: HttpRequestView,
    secrets: Seq<Seq<char>>,
    redact: bool,
    max: nat,
) -> RequestRecordView {
    RequestRecordView {
        method: req.method,
        url: scrubbed(req.url, secrets),
        headers: redacted_headers(req.headers, redact),
        body: match req.body {
            Some(RequestBodyView::Text(t)) => cleaned_body(Some(t), secrets, redact, max),
            Some(RequestBodyView::File(p)) => BodyRecordView {
                preview: Some("<二进制文件："@ + p + ">"@),
                bytes: 0,
                truncated: false,
            },
            Some(RequestBodyView::Form(f)) => BodyRecordView {
                preview: Some("<multipart/form-data："@ + nat_text(f.len()) + " 个字段>"@),
                bytes: 0,
                truncated: false,
            },
            None => absent_body(),
        },
    }
}

fn record_request(req: &HttpRequest, secrets: &Vec<String>, redact: bool, max: usize) -> (r:
    RequestRecord)
    ensures
        r@ == request_record(req@, views(secrets@), redact, max as nat),
{
    let body: BodyRecord = match &req.body {
        Some(RequestBody::Text(t)) => clean_body(
            Some(t.as_str()),
            secrets.as_slice(),
            redact,
            max,
        ),
        Some(RequestBody::File(p)) => BodyRecord {
            preview: Some(cat3("<二进制文件：", p.as_str(), ">")),
            bytes: 0,
            truncated: false,
        },
        Some(RequestBody::Form(f)) => {
            let n: String = usize_text(f.len());
            BodyRecord {
                preview: Some(cat3("<multipart/form-data：", n.as_str(), " 个字段>")),
                bytes: 0,
                truncated: false,
            }
        },
        None => BodyRecord::absent(),
    };
    RequestRecord {
        method: copy_text(req.method.as_str()),
        url: scrub_secrets(req.url.as_str(), secrets.as_slice()),
        headers: redact_headers(req.headers.as_slice(), redact),
        body,
    }
}

/// Whether every assertion passed.
pub open spec fn all_ok(list: Seq<AssertRecordView>) -> bool {
    forall|i: int| 0 <= i < list.len() ==> (#[trigger] list[i]).ok
}

fn every_ok(list: &Vec<AssertRecord>) -> (r: bool)
    ensures
        r == all_ok(views(list@)),
{
    let ghost v = views(list@);
    let mut i: usize = 0;
    while i < list.len()
        invariant
            i <= list@.len(),
            v == views(list@),
            forall|k: int| 0 <= k < i ==> (#[trigger] v[k]).ok,
        decreases list@.len() - i,
    {
        assert(v[i as int] == list@[i as int]@);
        if !list[i].ok {
            return false;
        }
        i = i + 1;
    }
    true
}

/// The result of a step whose request was answered.
pub open spec fn answered(
    step: StepView,
    ctx: RunContextView,
    redact: bool,
    max: nat,
    sent: HttpRequestView,
    resp: HttpResponseView,
    keys: Seq<NumKeys>,
    duration_ms: u64,
) -> StepResultView {
    let outputs = taken_outputs(step.outputs, resp.status, resp.headers, resp.body);
    let secrets = secrets_of(ctx, outputs, redact);
    let checks = records_of(step.assertions, resp.status, resp.headers, resp.body, keys);
    StepResultView {
        id: step.id,
        status: if all_ok(checks) {
            StepStatus::Passed
        } else {
            StepStatus::Failed
        },
        duration_ms,
        request: Some(request_record(sent, secrets, redact, max)),
        response: Some(
            ResponseRecordView {
                status: resp.status,
                status_text: resp.status_text,
                headers: redacted_headers(resp.headers, redact),
                body: cleaned_body(Some(resp.body), secrets, redact, max),
                elapsed_ms: resp.elapsed_ms,
            },
        ),
        outputs: redacted_outputs(outputs, redact),
        assertions: redacted_assertions(checks, secrets, redact),
        error: None,
        skip_reason: None,
    }
}

/// The result of a step whose request was answered, and its outputs for the steps that depend on
/// it. `keys` holds the numbers that `number_texts` asks for.
pub fn finish_step(
    step: &Step,
    ctx: &RunContext,
    opts: &RunOpts,
    sent: &HttpRequest,
    resp: &HttpResponse,
    keys: &[NumKeys],
    duration_ms: u64,
) -> (r: (StepResult, SortedMap<Json>))
    ensures
        r.0@ == answered(
            step@,
            ctx@,
            opts@.redact,
            opts@.max_body_bytes as nat,
            sent@,
            resp@,
            keys@,
            duration_ms,
        ),
        r.1@ == taken_outputs(step@.outputs, resp@.status, resp@.headers, resp@.body),
{
    let view: RespView = RespView {
        status: resp.status,
        headers: resp.headers.as_slice(),
        body: resp.body.as_str(),
    };
    let outputs: SortedMap<Json> = take_outputs(step.outputs.as_slice(), &view);
    let checks: Vec<AssertRecord> = eval_assertions(step.assertions.as_slice(), &view, keys);
    let status: StepStatus = if every_ok(&checks) {
        StepStatus::Passed
    } else {
        StepStatus::Failed
    };
    let secrets: Vec<String> = collect_secrets(ctx, &outputs, opts.redact);
    let result: StepResult = StepResult {
        id: copy_text(step.id.as_str()),
        status,
        duration_ms,
        request: Some(record_request(sent, &secrets, opts.redact, opts.max_body_bytes)),
        response: Some(
            ResponseRecord {
                status: resp.status,
                status_text: copy_text(resp.status_text.as_str()),
                headers: redact_headers(resp.headers.as_slice(), opts.redact),
                body: clean_body(
                    Some(resp.body.as_str()),
                    secrets.as_slice(),
                    opts.redact,
                    opts.max_body_bytes,
                ),
                elapsed_ms: resp.elapsed_ms,
            },
        ),
        outputs: redact_outputs(&outputs, opts.redact),
        assertions: redact_assertions(checks, secrets.as_slice(), opts.redact),
        error: None,
        skip_reason: None,
    };
    (result, outputs)
}

/// The result of a step whose request was not answered. The request that would have been sent is
/// recorded all the same. What is said of the error may repeat the address, so that known
/// credentials are replaced in it too.
pub open spec fn unanswered(
    step: StepView,
    ctx: RunContextView,
    redact: bool,
    max: nat,
    error: Seq<char>,
    duration_ms: u64,
) -> StepResultView {
    let secrets = secrets_of(ctx, seq![], redact);
    StepResultView {
        id: step.id,
        status: StepStatus::Error,
        duration_ms,
        request: Some(request_record(built(resolved_http(step.http, ctx)), secrets, redact, max)),
        response: None,
        outputs: seq![],
        assertions: seq![],
        error: Some(scrubbed(error, secrets)),
        skip_reason: None,
    }
}

/// The result of a step whose request was not answered.
pub fn fail_step(
    step: &Step,
    ctx: &RunContext,
    opts: &RunOpts,
    error: &str,
    duration_ms: u64,
) -> (r: StepResult)
    ensures
        r@ == unanswered(
            step@,
            ctx@,
            opts@.redact,
            opts@.max_body_bytes as nat,
            error@,
            duration_ms,
        ),
{
    let resolved: crate::model::HttpSpec = crate::vars::resolve_http(&step.http, ctx);
    let req: HttpRequest = crate::request::build(&resolved);
    let outputs: SortedMap<Json> = SortedMap::new();
    let secrets: Vec<String> = collect_secrets(ctx, &outputs, opts.redact);
    let assertions: Vec<AssertRecord> = Vec::new();
    assert(views(assertions@) =~= seq![]);
    let told: String = scrub_secrets(error, secrets.as_slice());
    StepResult {
        id: copy_text(step.id.as_str()),
        status: StepStatus::Error,
        duration_ms,
        request: Some(record_request(&req, &secrets, opts.redact, opts.max_body_bytes)),
        response: None,
        outputs,
        assertions,
        error: Some(told),
        skip_reason: None,
    }
}

/// A failure is not an error: a step that was answered passed or failed, and passed if and only
/// if every assertion did; a step that was not answered is in error.
pub proof fn law_failed_is_no_error(
    step: StepView,
    ctx: RunContextView,
    redact: bool,
    max: nat,
    sent: HttpRequestView,
    resp: HttpResponseView,
    keys: Seq<NumKeys>,
    error: Seq<char>,
    duration_ms: u64,
)
    ensures
        ({
            let a = answered(step, ctx, redact, max, sent, resp, keys, duration_ms);
            &&& a.status == StepStatus::Passed || a.status == StepStatus::Failed
            &&& a.status == StepStatus::Passed <==> all_ok(a.assertions)
            &&& a.error is None
        }),
        unanswered(step, ctx, redact, max, error, duration_ms).status == StepStatus::Error,
        unanswered(step, ctx, redact, max, error, duration_ms).error is Some,
        unanswered(step, ctx, false, max, error, duration_ms).error == Some(error),
{
    let outputs = taken_outputs(step.outputs, resp.status, resp.headers, resp.body);
    let secrets = secrets_of(ctx, outputs, redact);
    let checks = records_of(step.assertions, resp.status, resp.headers, resp.body, keys);
    let shown = redacted_assertions(checks, secrets, redact);
    assert(forall|i: int| 0 <= i < checks.len() ==> (#[trigger] shown[i]).ok == checks[i].ok);
    assert(forall|i: int| 0 <= i < checks.len() ==> shown[i].ok == (#[trigger] checks[i]).ok);
}

/// No known credential is left in what is recorded of a step: not in the address, not in the
/// bodies, not in what its assertions show. (One with a star in it could be put together by the
/// marks of replacements, so it is left out, and so are assertions on what a name tells is a
/// credential, which are masked instead.)
pub proof fn law_no_known_credential_recorded(
    step: StepView,
    ctx: RunContextView,
    max: nat,
    sent: HttpRequestView,
    resp: HttpResponseView,
    keys: Seq<NumKeys>,
    duration_ms: u64,
    i: int,
    j: int,
)
    requires
        ({
            let outputs = taken_outputs(step.outputs, resp.status, resp.headers, resp.body);
            let secrets = secrets_of(ctx, outputs, true);
            0 <= i < secrets.len() && secrets[i].len() > 0 && no_star(secrets[i])
        }),
    ensures
        ({
            let outputs = taken_outputs(step.outputs, resp.status, resp.headers, resp.body);
            let secret = secrets_of(ctx, outputs, true)[i];
            let a = answered(step, ctx, true, max, sent, resp, keys, duration_ms);
            &&& !contains(a.request->0.url, secret)
            &&& sent.body matches Some(RequestBodyView::Text(t)) ==> !contains(
                a.request->0.body.preview->0,
                secret,
            )
            &&& !contains(a.response->0.body.preview->0, secret)
            &&& 0 <= j < a.assertions.len() && !secret_name(last_name(a.assertions[j].target))
                ==> !contains(a.assertions[j].actual, secret) && !contains(
                a.assertions[j].expected,
                secret,
            )
        }),
{
    let outputs = taken_outputs(step.outputs, resp.status, resp.headers, resp.body);
    let secrets = secrets_of(ctx, outputs, true);
    let checks = records_of(step.assertions, resp.status, resp.headers, resp.body, keys);
    law_scrubbed(sent.url, secrets, i);
    law_cleaned_body(resp.body, secrets, true, max, i);
    if let Some(RequestBodyView::Text(t)) = sent.body {
        law_cleaned_body(t, secrets, true, max, i);
    }
    if 0 <= j < checks.len() {
        law_scrubbed(checks[j].actual, secrets, i);
        law_scrubbed(checks[j].expected, secrets, i);
    }
}

/// No known credential is left in what is recorded of a step that was not answered: not in the
/// address, not in the body, not in what is said of the error.
pub proof fn law_no_known_credential_in_error(
    step: StepView,
    ctx: RunContextView,
    max: nat,
    error: Seq<char>,
    duration_ms: u64,
    i: int,
)
    requires
        0 <= i < secrets_of(ctx, seq![], true).len(),
        secrets_of(ctx, seq![], true)[i].len() > 0,
        no_star(secrets_of(ctx, seq![], true)[i]),
    ensures
        ({
            let secret = secrets_of(ctx, seq![], true)[i];
            let a = unanswered(step, ctx, true, max, error, duration_ms);
            &&& !contains(a.request->0.url, secret)
            &&& built(resolved_http(step.http, ctx)).body matches Some(RequestBodyView::Text(t))
                ==> !contains(a.request->0.body.preview->0, secret)
            &&& !contains(a.error->0, secret)
        }),
{
    let req = built(resolved_http(step.http, ctx));
    let secrets = secrets_of(ctx, seq![], true);
    law_scrubbed(req.url, secrets, i);
    law_scrubbed(error, secrets, i);
    if let Some(RequestBodyView::Text(t)) = req.body {
        law_cleaned_body(t, secrets, true, max, i);
    }
}

// ---- cases -----------------------------------------------------------------------------

/// Whether a step has an outcome.
pub open spec fn some_step(steps: Seq<StepResultView>, st: StepStatus) -> bool {
    exists|i: int| 0 <= i < steps.len() && (#[trigger] steps[i]).status == st
}

/// The outcome of a case by those of its steps: an error before a failure; what was skipped does
/// not count.
pub open spec fn rolled_up(steps: Seq<StepResultView>) -> CaseStatus {
    if some_step(steps, StepStatus::Error) {
        CaseStatus::Error
    } else if some_step(steps, StepStatus::Failed) {
        CaseStatus::Failed
    } else {
        CaseStatus::Passed
    }
}

/// The outcome of a case by those of its steps.
pub fn rollup(steps: &Vec<StepResult>) -> (r: CaseStatus)
    ensures
        r == rolled_up(views(steps@)),
{
    let ghost v = views(steps@);
    let mut failed: bool = false;
    let mut i: usize = 0;
    while i < steps.len()
        invariant
            i <= steps@.len(),
            v == views(steps@),
            forall|k: int| 0 <= k < i ==> (#[trigger] v[k]).status != StepStatus::Error,
            failed <==> exists|k: int|
                0 <= k < i && (#[trigger] v[k]).status == StepStatus::Failed,
        decreases steps@.len() - i,
    {
        assert(v[i as int] == steps@[i as int]@);
        match steps[i].status {
            StepStatus::Error => {
                return CaseStatus::Error;
            },
            StepStatus::Failed => {
                failed = true;
            },
            _ => {},
        }
        i = i + 1;
    }
    if failed {
        CaseStatus::Failed
    } else {
        CaseStatus::Passed
    }
}

/// A case that was not run.
pub open spec fn case_skipped(file: Seq<char>, reason: Seq<char>, at: u64) -> CaseResultView {
    CaseResultView {
        file,
        name: last_segment(file),
        status: CaseStatus::Skipped,
        skip_reason: Some(reason),
        started_at: iso_text(at as nat),
        duration_ms: 0,
        steps: seq![],
    }
}

/// A case that was not run, with the reason.
pub fn skipped_case(file: &str, reason: &str, at: u64) -> (r: CaseResult)
    ensures
        r@ == case_skipped(file@, reason@, at),
{
    let steps: Vec<StepResult> = Vec::new();
    assert(views(steps@) =~= seq![]);
    CaseResult {
        file: copy_text(file),
        name: last_part(file),
        status: CaseStatus::Skipped,
        skip_reason: Some(copy_text(reason)),
        started_at: iso8601(at),
        duration_ms: 0,
        steps,
    }
}

/// A case that is being run.
pub struct CaseRun {
    /// The steps in the order in which they run.
    pub order: Vec<usize>,
    /// How many of them are done.
    pub done: usize,
    pub ctx: RunContext,
    pub results: Vec<StepResult>,
    /// The failure behind each step that holds others back.
    pub cause: SortedMap<String>,
    pub stopped: bool,
}

/// What a `CaseRun` stands for.
#[verifier::ext_equal]
pub struct CaseRunView {
    pub order: Seq<int>,
    pub done: nat,
    pub ctx: RunContextView,
    pub results: Seq<StepResultView>,
    pub cause: Seq<(Seq<char>, Seq<char>)>,
    pub stopped: bool,
}

impl View for CaseRun {
    type V = CaseRunView;

    open spec fn view(&self) -> CaseRunView {
        CaseRunView {
            order: ints(self.order@),
            done: self.done as nat,
            ctx: self.ctx@,
            results: views(self.results@),
            cause: self.cause@,
            stopped: self.stopped,
        }
    }
}

/// What to do next in a case.
#[derive(Debug, Clone, Copy, PartialEq, Eq, Structural)]
pub enum CaseAction {
    /// Nothing is left.
    Done,
    /// A step was passed over; ask again.
    Skipped,
    /// This step is to be run.
    Run(usize),
}

/// A case before its first step.
pub open spec fn case_begun(case: CaseView, env: Seq<(Seq<char>, Seq<char>)>) -> CaseRunView {
    CaseRunView {
        order: order(graph_of(case.requests)),
        done: 0,
        ctx: RunContextView { vars: merged_vars(env, case.vars), steps: seq![] },
        results: seq![],
        cause: seq![],
        stopped: false,
    }
}

/// Whether a run goes through the steps of a case.
pub open spec fn run_of(r: CaseRunView, case: CaseView) -> bool {
    &&& r.done <= r.order.len()
    &&& forall|k: int| 0 <= k < r.order.len() ==> 0 <= #[trigger] r.order[k] < case.requests.len()
}

/// Whether a run has a step to look at.
pub open spec fn goes_on(r: CaseRunView, cancelled: bool) -> bool {
    !cancelled && !r.stopped && r.done < r.order.len()
}

/// The run after asking what to do next: a step with a dependency that holds it back is recorded
/// as skipped, and holds back others in turn.
pub open spec fn after_asking(r: CaseRunView, case: CaseView, cancelled: bool) -> CaseRunView {
    if !goes_on(r, cancelled) {
        r
    } else {
        let s = case.requests[r.order[r.done as int]];
        match first_cause(r.cause, s.depends_on) {
            None => r,
            Some(root) => CaseRunView {
                done: r.done + 1,
                results: r.results.push(skipped_step(s.id, "上游 "@ + root + " 失败"@)),
                cause: put_sorted(r.cause, s.id, root),
                ..r
            },
        }
    }
}

/// The run after a step was run.
pub open spec fn after_step(
    r: CaseRunView,
    id: Seq<char>,
    result: StepResultView,
    outputs: Seq<(Seq<char>, JsonView)>,
    stop_on_failure: bool,
    cont: bool,
) -> CaseRunView {
    CaseRunView {
        order: r.order,
        done: r.done + 1,
        ctx: RunContextView { vars: r.ctx.vars, steps: put_sorted(r.ctx.steps, id, outputs) },
        results: r.results.push(result),
        cause: if blocks(result.status, cont) {
            put_sorted(r.cause, id, id)
        } else {
            r.cause
        },
        stopped: stop_on_failure && result.status != StepStatus::Passed,
    }
}

impl CaseRun {
    /// A case before its first step. Its variables are its own.
    pub fn begin(case: &Case, env: &SortedMap<String>) -> (r: Self)
        ensures
            r@ == case_begun(case@, env@),
            run_of(r@, case@),
    {
        let ord: Vec<usize> = topo_order(case.requests.as_slice());
        let ctx: RunContext = RunContext::new(env, match &case.vars {
            Some(v) => Some(v),
            None => None,
        });
        let results: Vec<StepResult> = Vec::new();
        assert(views(results@) =~= seq![]);
        let r: CaseRun = CaseRun {
            order: ord,
            done: 0,
            ctx,
            results,
            cause: SortedMap::new(),
            stopped: false,
        };
        proof {
            assert(ints(ord@).len() == ord@.len());
            assert forall|k: int| 0 <= k < r@.order.len() implies 0 <= #[trigger] r@.order[k]
                < case@.requests.len() by {
                assert(r@.order[k] == ord@[k] as int);
            }
        }
        r
    }

    /// What to do next. A step with a dependency that holds it back is recorded as skipped.
    pub fn next(&mut self, case: &Case, cancelled: bool) -> (a: CaseAction)
        requires
            run_of(old(self)@, case@),
        ensures
            final(self)@ == after_asking(old(self)@, case@, cancelled),
            run_of(final(self)@, case@),
            match a {
                CaseAction::Done => !goes_on(old(self)@, cancelled),
                CaseAction::Skipped => goes_on(old(self)@, cancelled) && final(self)@.done
                    == old(self)@.done + 1,
                CaseAction::Run(i) => goes_on(old(self)@, cancelled) && i as int
                    == old(self)@.order[old(self)@.done as int] && first_cause(
                    old(self)@.cause,
                    case@.requests[i as int].depends_on,
                ) is None,
            },
    {
        if cancelled || self.stopped || self.done >= self.order.len() {
            return CaseAction::Done;
        }
        let ghost start = self@;
        let i: usize = self.order[self.done];
        assert(start.order[self.done as int] == i as int);
        let s: &Step = &case.requests[i];
        assert(case@.requests[i as int] == s@);
        match find_cause(&self.cause, &s.depends_on) {
            None => CaseAction::Run(i),
            Some(root) => {
                let reason: String = cat3("上游 ", root.as_str(), " 失败");
                let skipped: StepResult = StepResult::skipped(s.id.as_str(), reason.as_str());
                proof {
                    lemma_views_push(self.results@, skipped);
                }
                self.results.push(skipped);
                self.cause.insert(copy_text(s.id.as_str()), root);
                self.done = self.done + 1;
                CaseAction::Skipped
            },
        }
    }

    /// Takes the result of the step that was run, and its outputs for the steps after it.
    pub fn record(&mut self, step: &Step, result: StepResult, outputs: SortedMap<Json>, opts: &RunOpts)
        requires
            old(self)@.done < old(self)@.order.len(),
        ensures
            final(self)@ == after_step(
                old(self)@,
                step@.id,
                result@,
                outputs@,
                opts@.stop_on_failure,
                opts@.continue_on_assertion_failure,
            ),
    {
        let n: usize = self.order.len();
        assert(self.done < n);
        self.ctx.steps.insert(copy_text(step.id.as_str()), outputs);
        if result.status.blocks_downstream(opts.continue_on_assertion_failure) {
            self.cause.insert(copy_text(step.id.as_str()), copy_text(step.id.as_str()));
        }
        let passed: bool = match result.status {
            StepStatus::Passed => true,
            _ => false,
        };
        self.stopped = opts.stop_on_failure && !passed;
        proof {
            lemma_views_push(self.results@, result);
        }
        self.results.push(result);
        self.done = self.done + 1;
    }

    /// The result of the case.
    pub fn finish(self, case: &Case, file: &str, started: u64, duration_ms: u64) -> (r: CaseResult)
        ensures
            r@ == case_result(self@, case@, file@, started, duration_ms),
    {
        let status: CaseStatus = rollup(&self.results);
        let mut name: String = last_part(file);
        if let Some(n) = &case.name {
            if !empty(n.as_str()) {
                name = copy_text(n.as_str());
            }
        }
        CaseResult {
            file: copy_text(file),
            name,
            status,
            skip_reason: None,
            started_at: iso8601(started),
            duration_ms,
            steps: self.results,
        }
    }
}

/// The result of a case that was run.
pub open spec fn case_result(
    r: CaseRunView,
    case: CaseView,
    file: Seq<char>,
    started: u64,
    duration_ms: u64,
) -> CaseResultView {
    CaseResultView {
        file,
        name: match case.name {
            Some(n) if n.len() > 0 => n,
            _ => last_segment(file),
        },
        status: rolled_up(r.results),
        skip_reason: None,
        started_at: iso_text(started as nat),
        duration_ms,
        steps: r.results,
    }
}

/// A step is recorded for every step that was looked at.
pub proof fn law_one_result_per_step(
    r: CaseRunView,
    case: CaseView,
    cancelled: bool,
    id: Seq<char>,
    result: StepResultView,
    outputs: Seq<(Seq<char>, JsonView)>,
    stop: bool,
    cont: bool,
)
    requires
        r.results.len() == r.done,
    ensures
        after_asking(r, case, cancelled).results.len() == after_asking(r, case, cancelled).done,
        after_step(r, id, result, outputs, stop, cont).results.len() == after_step(
            r,
            id,
            result,
            outputs,
            stop,
            cont,
        ).done,
{
}

/// Whether a step failed or could not be sent, so that it holds others back.
pub open spec fn is_cause(s: StepResultView, id: Seq<char>, cont: bool) -> bool {
    s.id == id && s.status != StepStatus::Skipped && blocks(s.status, cont)
}

/// Whether a step is among results as one that holds others back in its own right.
pub open spec fn has_cause(l: Seq<StepResultView>, id: Seq<char>, cont: bool) -> bool {
    exists|k: int| 0 <= k < l.len() && is_cause(#[trigger] l[k], id, cont)
}

/// Whether what a run has recorded fits its case: there is a result for each step that is done,
/// in order; each step that holds others back has a cause, and each cause is a step that failed
/// or could not be sent.
pub open spec fn consistent(r: CaseRunView, case: CaseView, cont: bool) -> bool {
    &&& r.order == order(graph_of(case.requests))
    &&& r.done <= r.order.len()
    &&& r.results.len() == r.done
    &&& forall|k: int|
        0 <= k < r.done ==> (#[trigger] r.results[k]).id == case.requests[r.order[k]].id
    &&& sorted(r.cause)
    &&& forall|k: int|
        0 <= k < r.done && blocks((#[trigger] r.results[k]).status, cont) ==> lookup(
            r.cause,
            r.results[k].id,
        ) is Some
    &&& forall|id: Seq<char>| (#[trigger] lookup(r.cause, id)) is Some ==> has_cause(
        r.results,
        lookup(r.cause, id)->0,
        cont,
    )
}

proof fn lemma_cause_found(cause: Seq<(Seq<char>, Seq<char>)>, ids: Seq<Seq<char>>)
    ensures
        first_cause(cause, ids) is None ==> forall|d: int|
            0 <= d < ids.len() ==> lookup(cause, #[trigger] ids[d]) is None,
        first_cause(cause, ids) is Some ==> exists|d: int|
            0 <= d < ids.len() && lookup(cause, #[trigger] ids[d]) == first_cause(cause, ids),
    decreases ids.len(),
{
    if ids.len() > 0 {
        let rest = ids.drop_first();
        lemma_cause_found(cause, rest);
        if lookup(cause, ids[0]) is None {
            if first_cause(cause, ids) is None {
                assert forall|d: int| 0 <= d < ids.len() implies lookup(cause, #[trigger] ids[d]) is None by {
                    if d > 0 {
                        assert(rest[d - 1] == ids[d]);
                    }
                }
            } else {
                let d = choose|d: int|
                    0 <= d < rest.len() && lookup(cause, #[trigger] rest[d]) == first_cause(cause, rest);
                assert(ids[d + 1] == rest[d]);
            }
        }
    }
}

proof fn lemma_cause_stays(l: Seq<StepResultView>, s: StepResultView, id: Seq<char>, cont: bool)
    requires
        has_cause(l, id, cont),
    ensures
        has_cause(l.push(s), id, cont),
{
    let k = choose|k: int| 0 <= k < l.len() && is_cause(#[trigger] l[k], id, cont);
    assert(l.push(s)[k] == l[k]);
}

/// A case that begins is consistent.
pub proof fn law_begins_consistent(case: CaseView, env: Seq<(Seq<char>, Seq<char>)>, cont: bool)
    ensures
        consistent(case_begun(case, env), case, cont),
{
    let r = case_begun(case, env);
    assert forall|id: Seq<char>| (#[trigger] lookup(r.cause, id)) is Some implies has_cause(
        r.results,
        lookup(r.cause, id)->0,
        cont,
    ) by {
        lemma_key_at(r.cause, id, 0);
    }
}

/// A run stays consistent when it is asked what comes next.
pub proof fn law_asking_keeps_consistent(r: CaseRunView, case: CaseView, cancelled: bool, cont: bool)
    requires
        consistent(r, case, cont),
    ensures
        consistent(after_asking(r, case, cancelled), case, cont),
{
    if goes_on(r, cancelled) {
        let s = case.requests[r.order[r.done as int]];
        if first_cause(r.cause, s.depends_on) is Some {
            let root = first_cause(r.cause, s.depends_on)->0;
            let n = after_asking(r, case, cancelled);
            let skipped = skipped_step(s.id, "上游 "@ + root + " 失败"@);
            lemma_cause_found(r.cause, s.depends_on);
            law_put_sorted(r.cause, s.id, root, s.id);
            assert forall|k: int| 0 <= k < n.done implies (#[trigger] n.results[k]).id
                == case.requests[n.order[k]].id by {
                if k < r.done {
                    assert(n.results[k] == r.results[k]);
                }
            }
            assert forall|k: int|
                0 <= k < n.done && blocks((#[trigger] n.results[k]).status, cont) implies lookup(
                n.cause,
                n.results[k].id,
            ) is Some by {
                if k < r.done {
                    assert(n.results[k] == r.results[k]);
                }
                law_put_sorted(r.cause, s.id, root, n.results[k].id);
            }
            assert forall|id: Seq<char>| (#[trigger] lookup(n.cause, id)) is Some implies has_cause(
                n.results,
                lookup(n.cause, id)->0,
                cont,
            ) by {
                law_put_sorted(r.cause, s.id, root, id);
                let from = if id == s.id {
                    s.depends_on[choose|d: int|
                        0 <= d < s.depends_on.len() && lookup(r.cause, #[trigger] s.depends_on[d]) == Some(
                            root,
                        )]
                } else {
                    id
                };
                assert(lookup(r.cause, from) == lookup(n.cause, id));
                lemma_cause_stays(r.results, skipped, lookup(r.cause, from)->0, cont);
            }
        }
    }
}

/// A run stays consistent when the outcome of the step that was sent is recorded.
pub proof fn law_recording_keeps_consistent(
    r: CaseRunView,
    case: CaseView,
    result: StepResultView,
    outputs: Seq<(Seq<char>, JsonView)>,
    stop: bool,
    cont: bool,
)
    requires
        consistent(r, case, cont),
        r.done < r.order.len(),
        result.id == case.requests[r.order[r.done as int]].id,
        result.status != StepStatus::Skipped,
    ensures
        consistent(after_step(r, result.id, result, outputs, stop, cont), case, cont),
{
    let n = after_step(r, result.id, result, outputs, stop, cont);
    law_put_sorted(r.cause, result.id, result.id, result.id);
    assert forall|k: int| 0 <= k < n.done implies (#[trigger] n.results[k]).id
        == case.requests[n.order[k]].id by {
        if k < r.done {
            assert(n.results[k] == r.results[k]);
        }
    }
    assert forall|k: int|
        0 <= k < n.done && blocks((#[trigger] n.results[k]).status, cont) implies lookup(
        n.cause,
        n.results[k].id,
    ) is Some by {
        if k < r.done {
            assert(n.results[k] == r.results[k]);
        }
        law_put_sorted(r.cause, result.id, result.id, n.results[k].id);
    }
    assert forall|id: Seq<char>| (#[trigger] lookup(n.cause, id)) is Some implies has_cause(
        n.results,
        lookup(n.cause, id)->0,
        cont,
    ) by {
        law_put_sorted(r.cause, result.id, result.id, id);
        if blocks(result.status, cont) && id == result.id {
            assert(is_cause(n.results[r.done as int], id, cont));
        } else {
            assert(lookup(r.cause, id) == lookup(n.cause, id));
            lemma_cause_stays(r.results, result, lookup(r.cause, id)->0, cont);
        }
    }
}

/// A step is sent only after the steps that it depends on: where no step depends on itself in a
/// circle, each of them was run before it, and with an outcome that lets it through.
pub proof fn law_sent_after_dependencies(r: CaseRunView, case: CaseView, cont: bool, d: int)
    requires
        consistent(r, case, cont),
        goes_on(r, false),
        forall|c: Seq<int>| !is_cycle(graph_of(case.requests), c),
        first_cause(r.cause, case.requests[r.order[r.done as int]].depends_on) is None,
        0 <= d < case.requests[r.order[r.done as int]].depends_on.len(),
        step_with_id(
            case.requests,
            case.requests[r.order[r.done as int]].depends_on[d],
        ) is Some,
    ensures
        exists|k: int|
            0 <= k < r.done && #[trigger] r.order[k] == step_with_id(
                case.requests,
                case.requests[r.order[r.done as int]].depends_on[d],
            )->0 && !blocks(r.results[k].status, cont),
{
    let steps = case.requests;
    let g = graph_of(steps);
    lemma_graph_of(steps);
    law_order(g);
    let i = r.order[r.done as int];
    let id = steps[i].depends_on[d];
    let j = step_with_id(steps, id)->0;
    law_dependencies_first(steps, i, d);
    let (a, b) = choose|a: int, b: int|
        #![trigger order(graph_of(steps))[a], order(graph_of(steps))[b]]
        0 <= a < b < steps.len() && order(graph_of(steps))[a] == j && order(graph_of(steps))[b] == i;
    assert(b == r.done);
    lemma_cause_found(r.cause, steps[i].depends_on);
    lemma_step_with_id(steps, id);
    assert(r.results[a].id == steps[r.order[a]].id);
    assert(steps[j].id == id);
    assert(lookup(r.cause, id) is None);
}

/// A step is skipped only where one that it depends on, itself or through others, failed or
/// could not be sent, and the reason names that step.
pub proof fn law_skipped_for_a_failure(r: CaseRunView, case: CaseView, cont: bool)
    requires
        consistent(r, case, cont),
        goes_on(r, false),
        first_cause(r.cause, case.requests[r.order[r.done as int]].depends_on) is Some,
    ensures
        has_cause(
            r.results,
            first_cause(r.cause, case.requests[r.order[r.done as int]].depends_on)->0,
            cont,
        ),
        after_asking(r, case, false).results.last().skip_reason == Some(
            "上游 "@ + first_cause(
                r.cause,
                case.requests[r.order[r.done as int]].depends_on,
            )->0 + " 失败"@,
        ),
{
    let ids = case.requests[r.order[r.done as int]].depends_on;
    lemma_cause_found(r.cause, ids);
    let d = choose|d: int|
        0 <= d < ids.len() && lookup(r.cause, #[trigger] ids[d]) == first_cause(r.cause, ids);
    assert(lookup(r.cause, ids[d]) is Some);
}

/// Cases do not see each other's outputs: every case starts without outputs.
pub proof fn law_cases_are_isolated(case: CaseView, env: Seq<(Seq<char>, Seq<char>)>, id: Seq<char>)
    ensures
        lookup(case_begun(case, env).ctx.steps, id) is None,
{
}

// ---- batches ---------------------------------------------------------------------------

/// A case file to run.
#[derive(Debug, Clone, PartialEq)]
pub struct BatchTarget {
    /// The path relative to the root of the workspace.
    pub file: String,
    pub path: String,
}

/// What a `BatchTarget` stands for.
#[verifier::ext_equal]
pub struct BatchTargetView {
    pub file: Seq<char>,
    pub path: Seq<char>,
}

impl View for BatchTarget {
    type V = BatchTargetView;

    open spec fn view(&self) -> BatchTargetView {
        BatchTargetView {
            file: self.file@,
            path: self.path@,
        }
    }
}

impl Duplicate for BatchTarget {
    fn duplicate(&self) -> (r: Self) {
        BatchTarget {
            file: copy_text(self.file.as_str()),
            path: copy_text(self.path.as_str()),
        }
    }
}

/// What a report says about a batch.
#[derive(Debug, Clone, PartialEq)]
pub struct BatchMeta {
    pub workspace: WorkspaceInfo,
    pub tool_version: String,
    pub options: RunOptions,
}

/// What a `BatchMeta` stands for.
#[verifier::ext_equal]
pub struct BatchMetaView {
    pub workspace: WorkspaceInfoView,
    pub tool_version: Seq<char>,
    pub options: RunOptionsView,
}

impl View for BatchMeta {
    type V = BatchMetaView;

    open spec fn view(&self) -> BatchMetaView {
        BatchMetaView {
            workspace: self.workspace@,
            tool_version: self.tool_version@,
            options: self.options@,
        }
    }
}

impl Duplicate for BatchMeta {
    fn duplicate(&self) -> (r: Self) {
        BatchMeta {
            workspace: self.workspace.duplicate(),
            tool_version: copy_text(self.tool_version.as_str()),
            options: self.options.duplicate(),
        }
    }
}

/// The report of a batch before its first case.
pub open spec fn report_begun(
    meta: BatchMetaView,
    environment: EnvironmentInfoView,
    redact: bool,
    started: u64,
) -> RunReportView {
    RunReportView {
        schema_version: REPORT_SCHEMA_VERSION,
        tool: ToolInfoView { name: "apicase"@, version: meta.tool_version },
        started_at: iso_text(started as nat),
        finished_at: None,
        duration_ms: 0,
        status: RunStatus::Running,
        workspace: meta.workspace,
        environment: EnvironmentInfoView {
            name: environment.name,
            vars: redacted_vars(environment.vars, redact),
        },
        options: meta.options,
        summary: no_counts(),
        cases: seq![],
    }
}

/// The report of a batch before its first case.
pub fn begin_report(meta: BatchMeta, opts: &RunOpts, started: u64) -> (r: RunReport)
    ensures
        r@ == report_begun(meta@, opts@.environment, opts@.redact, started),
{
    let cases: Vec<CaseResult> = Vec::new();
    assert(views(cases@) =~= seq![]);
    RunReport {
        schema_version: REPORT_SCHEMA_VERSION,
        tool: ToolInfo { name: copy_text("apicase"), version: meta.tool_version },
        started_at: iso8601(started),
        finished_at: None,
        duration_ms: 0,
        status: RunStatus::Running,
        workspace: meta.workspace,
        environment: EnvironmentInfo {
            name: copy_text(opts.environment.name.as_str()),
            vars: redact_vars(&opts.environment.vars, opts.redact),
        },
        options: meta.options,
        summary: RunSummary::default(),
        cases,
    }
}

/// Adds the result of a case: the cases and the counts of a report always agree.
pub fn push_case(report: &mut RunReport, result: CaseResult, elapsed_ms: u64)
    requires
        countable(views(old(report).cases@).push(result@)),
    ensures
        final(report)@.cases == old(report)@.cases.push(result@),
        summarizes(final(report)@.summary, final(report)@.cases),
        final(report)@ == (RunReportView {
            cases: final(report)@.cases,
            summary: final(report)@.summary,
            duration_ms: elapsed_ms,
            ..old(report)@
        }),
{
    proof {
        lemma_views_push(report.cases@, result);
    }
    report.cases.push(result);
    report.summary = RunSummary::of(report.cases.as_slice());
    report.duration_ms = elapsed_ms;
}

/// Whether nothing more is run after a case.
pub fn halts(stop_on_failure: bool, status: CaseStatus) -> (r: bool)
    ensures
        r == (stop_on_failure && (status == CaseStatus::Failed || status == CaseStatus::Error)),
        r ==> stop_on_failure,
        stop_on_failure ==> (!r <==> status is Passed || status is Skipped || status is Running),
{
    stop_on_failure && match status {
        CaseStatus::Failed => true,
        CaseStatus::Error => true,
        _ => false,
    }
}

/// Whether another case is begun.
pub fn takes_more(cancelled: bool, stopped: bool) -> (r: bool)
    ensures
        r == (!cancelled && !stopped),
        cancelled ==> !r,
        stopped ==> !r,
        r || cancelled || stopped,
{
    !cancelled && !stopped
}

/// Closes a report. A batch that stopped by itself was not cancelled.
pub fn finish_report(report: &mut RunReport, cancelled: bool, stopped: bool, end: u64, elapsed_ms: u64)
    ensures
        final(report)@ == (RunReportView {
            status: if cancelled && !stopped {
                RunStatus::Cancelled
            } else {
                RunStatus::Done
            },
            finished_at: Some(iso_text(end as nat)),
            duration_ms: elapsed_ms,
            ..old(report)@
        }),
        final(report)@.cases == old(report)@.cases,
        final(report)@.summary == old(report)@.summary,
        final(report)@.finished_at is Some,
        final(report)@.status is Cancelled <==> cancelled && !stopped,
        !(final(report)@.status is Running),
{
    report.status = if cancelled && !stopped {
        RunStatus::Cancelled
    } else {
        RunStatus::Done
    };
    report.finished_at = Some(iso8601(end));
    report.duration_ms = elapsed_ms;
}

// ---- laws of a whole run -----------------------------------------------------------------

/// After a step is recorded, its outputs are found under its id, and the outputs of every other
/// step are what they were; so are the variables. The result comes last, after all that were
/// there. The step holds others back if its outcome does, and every other cause is what it was.
/// The run stops if it should and the step did not pass, and only then.
pub proof fn law_step_recorded(
    r: CaseRunView,
    id: Seq<char>,
    result: StepResultView,
    outputs: Seq<(Seq<char>, JsonView)>,
    stop: bool,
    cont: bool,
    other: Seq<char>,
)
    requires
        sorted(r.ctx.steps),
        sorted(r.cause),
    ensures
        ({
            let after = after_step(r, id, result, outputs, stop, cont);
            &&& lookup(after.ctx.steps, id) == Some(outputs)
            &&& other != id ==> lookup(after.ctx.steps, other) == lookup(r.ctx.steps, other)
            &&& sorted(after.ctx.steps)
            &&& after.ctx.vars == r.ctx.vars
            &&& after.order == r.order
            &&& after.done == r.done + 1
            &&& after.results.len() == r.results.len() + 1
            &&& after.results.drop_last() == r.results
            &&& after.results.last() == result
            &&& other != id ==> lookup(after.cause, other) == lookup(r.cause, other)
            &&& lookup(after.cause, id) == (if result.status is Error || result.status is Skipped || (
            result.status is Failed && !cont) {
                Some(id)
            } else {
                lookup(r.cause, id)
            })
            &&& sorted(after.cause)
            &&& after.stopped <==> stop && !(result.status is Passed)
        }),
{
    let after = after_step(r, id, result, outputs, stop, cont);
    law_put_sorted(r.ctx.steps, id, outputs, other);
    law_put_sorted(r.cause, id, id, other);
    assert(after.results.drop_last() =~= r.results);
}

/// Asking what comes next changes no variable and no output, and no result that is there. A step
/// is passed over if one that it depends on holds it back, and only then: it is recorded as
/// skipped, with no request, and holds others back for the same cause.
pub proof fn law_step_asked(r: CaseRunView, case: CaseView, cancelled: bool, other: Seq<char>)
    requires
        sorted(r.cause),
        r.done < r.order.len(),
    ensures
        ({
            let after = after_asking(r, case, cancelled);
            let s = case.requests[r.order[r.done as int]];
            let held = exists|d: int|
                0 <= d < s.depends_on.len() && has_key(r.cause, #[trigger] s.depends_on[d]);
            &&& after.ctx == r.ctx
            &&& after.order == r.order
            &&& after.stopped == r.stopped
            &&& cancelled || r.stopped || !held ==> after == r
            &&& !cancelled && !r.stopped && held ==> {
                &&& after.done == r.done + 1
                &&& after.results.drop_last() == r.results
                &&& after.results.len() == r.results.len() + 1
                &&& after.results.last().id == s.id
                &&& after.results.last().status is Skipped
                &&& after.results.last().request is None
                &&& after.results.last().response is None
                &&& after.results.last().error is None
                &&& after.results.last().outputs.len() == 0
                &&& after.results.last().assertions.len() == 0
                &&& sorted(after.cause)
                &&& other != s.id ==> lookup(after.cause, other) == lookup(r.cause, other)
                &&& exists|d: int|
                    0 <= d < s.depends_on.len() && lookup(r.cause, #[trigger] s.depends_on[d]) is Some
                        && lookup(after.cause, s.id) == lookup(r.cause, s.depends_on[d])
            }
        }),
{
    let after = after_asking(r, case, cancelled);
    let s = case.requests[r.order[r.done as int]];
    lemma_cause_found(r.cause, s.depends_on);
    if goes_on(r, cancelled) && first_cause(r.cause, s.depends_on) is Some {
        let root = first_cause(r.cause, s.depends_on)->0;
        law_put_sorted(r.cause, s.id, root, other);
        law_put_sorted(r.cause, s.id, root, s.id);
        assert(after.results.drop_last() =~= r.results);
        let d = choose|d: int|
            0 <= d < s.depends_on.len() && lookup(r.cause, #[trigger] s.depends_on[d])
                == first_cause(r.cause, s.depends_on);
        assert(has_key(r.cause, s.depends_on[d]));
        assert(lookup(after.cause, s.id) == lookup(r.cause, s.depends_on[d]));
    }
}

/// What happens in the course of a case.
pub enum CaseEvent {
    /// It was asked what comes next.
    Asked,
    /// The outcome of a step was recorded, with its outputs.
    Recorded(StepResultView, Seq<(Seq<char>, JsonView)>),
}

/// A run after all that has happened.
pub open spec fn run_after(
    case: CaseView,
    env: Seq<(Seq<char>, Seq<char>)>,
    events: Seq<CaseEvent>,
    stop: bool,
    cont: bool,
) -> CaseRunView
    decreases events.len(),
{
    if events.len() == 0 {
        case_begun(case, env)
    } else {
        let before = run_after(case, env, events.drop_last(), stop, cont);
        match events.last() {
            CaseEvent::Asked => after_asking(before, case, false),
            CaseEvent::Recorded(result, outputs) => after_step(
                before,
                result.id,
                result,
                outputs,
                stop,
                cont,
            ),
        }
    }
}

/// Whether the outcome of a step was recorded from the event `i` on.
pub open spec fn recorded_from(events: Seq<CaseEvent>, i: int, id: Seq<char>) -> bool {
    exists|j: int|
        i <= j < events.len() && (#[trigger] events[j] matches CaseEvent::Recorded(r, o) && r.id == id)
}

proof fn lemma_run_sorted(
    case: CaseView,
    env: Seq<(Seq<char>, Seq<char>)>,
    events: Seq<CaseEvent>,
    stop: bool,
    cont: bool,
)
    ensures
        sorted(run_after(case, env, events, stop, cont).ctx.steps),
        sorted(run_after(case, env, events, stop, cont).cause),
        run_after(case, env, events, stop, cont).ctx.vars == merged_vars(env, case.vars),
        run_after(case, env, events, stop, cont).order == order(graph_of(case.requests)),
    decreases events.len(),
{
    if events.len() > 0 {
        let before = run_after(case, env, events.drop_last(), stop, cont);
        lemma_run_sorted(case, env, events.drop_last(), stop, cont);
        match events.last() {
            CaseEvent::Asked => {
                if goes_on(before, false) {
                    let s = case.requests[before.order[before.done as int]];
                    match first_cause(before.cause, s.depends_on) {
                        Some(root) => {
                            law_put_sorted(before.cause, s.id, root, s.id);
                        },
                        None => {},
                    }
                }
            },
            CaseEvent::Recorded(result, outputs) => {
                law_put_sorted(before.ctx.steps, result.id, outputs, result.id);
                law_put_sorted(before.cause, result.id, result.id, result.id);
            },
        }
    }
}

/// Whatever happens in a case, the outputs of every step that was run stay as they were recorded,
/// for all the steps after it, and so do the variables the case began with; a step that was not
/// run has none.
pub proof fn law_outputs_through_a_run(
    case: CaseView,
    env: Seq<(Seq<char>, Seq<char>)>,
    events: Seq<CaseEvent>,
    stop: bool,
    cont: bool,
    i: int,
    id: Seq<char>,
)
    ensures
        run_after(case, env, events, stop, cont).ctx.vars == merged_vars(env, case.vars),
        0 <= i < events.len() && !recorded_from(events, i + 1, id) ==> match events[i] {
            CaseEvent::Recorded(result, outputs) => result.id == id ==> lookup(
                run_after(case, env, events, stop, cont).ctx.steps,
                id,
            ) == Some(outputs),
            CaseEvent::Asked => true,
        },
        !recorded_from(events, 0, id) ==> lookup(
            run_after(case, env, events, stop, cont).ctx.steps,
            id,
        ) is None,
    decreases events.len(),
{
    lemma_run_sorted(case, env, events, stop, cont);
    if events.len() > 0 {
        let d = events.drop_last();
        let n = d.len() as int;
        let before = run_after(case, env, d, stop, cont);
        law_outputs_through_a_run(case, env, d, stop, cont, i, id);
        lemma_run_sorted(case, env, d, stop, cont);
        assert(forall|j: int| 0 <= j < n ==> d[j] == events[j]);
        if recorded_from(d, 0, id) {
            let j = choose|j: int|
                0 <= j < d.len() && (#[trigger] d[j] matches CaseEvent::Recorded(r, o) && r.id == id);
            assert(events[j] == d[j]);
        }
        if 0 <= i && recorded_from(d, i + 1, id) {
            let j = choose|j: int|
                i + 1 <= j < d.len() && (#[trigger] d[j] matches CaseEvent::Recorded(r, o) && r.id
                    == id);
            assert(events[j] == d[j]);
        }
        assert(events[n] == events.last());
        match events.last() {
            CaseEvent::Recorded(result, outputs) => {
                law_put_sorted(before.ctx.steps, result.id, outputs, id);
            },
            CaseEvent::Asked => {},
        }
    }
}

/// What a step took from its response is what a later step is sent with: a text that is an
/// expression for an output of a step that was run is replaced by that output.
pub proof fn law_later_step_sees_output(
    case: CaseView,
    env: Seq<(Seq<char>, Seq<char>)>,
    events: Seq<CaseEvent>,
    stop: bool,
    cont: bool,
    i: int,
    name: Seq<char>,
    value: Seq<char>,
)
    requires
        0 <= i < events.len(),
        match events[i] {
            CaseEvent::Recorded(result, outputs) => {
                &&& !result.id.contains('.') && !result.id.contains('}') && !name.contains('}')
                &&& !recorded_from(events, i + 1, result.id)
                &&& lookup(outputs, name) == Some(JsonView::Str(value))
                &&& trim("steps."@ + result.id + ".outputs."@ + name) == "steps."@ + result.id
                    + ".outputs."@ + name
            },
            CaseEvent::Asked => false,
        },
    ensures
        match events[i] {
            CaseEvent::Recorded(result, outputs) => resolved(
                "${{"@ + ("steps."@ + result.id + ".outputs."@ + name) + "}}"@,
                run_after(case, env, events, stop, cont).ctx,
            ) == value,
            CaseEvent::Asked => true,
        },
{
    let ctx = run_after(case, env, events, stop, cont).ctx;
    match events[i] {
        CaseEvent::Recorded(result, outputs) => {
            let expr = "steps."@ + result.id + ".outputs."@ + name;
            law_outputs_through_a_run(case, env, events, stop, cont, i, result.id);
            law_output_found(ctx, result.id, name);
            reveal_strlit("steps.");
            reveal_strlit(".outputs.");
            assert forall|k: int| 0 <= k < expr.len() implies expr[k] != '}' by {
                let n = result.id.len() as int;
                if k < 6 {
                    assert(expr[k] == "steps."@[k]);
                } else if k < 6 + n {
                    assert(expr[k] == result.id[k - 6]);
                    assert(result.id.contains(result.id[k - 6]));
                } else if k < 15 + n {
                    assert(expr[k] == ".outputs."@[k - 6 - n]);
                } else {
                    assert(expr[k] == name[k - 15 - n]);
                    assert(name.contains(name[k - 15 - n]));
                }
            }
            law_whole_expression(expr, value, ctx);
        },
        CaseEvent::Asked => {},
    }
}

/// Results are kept in the order in which they came: what happens later never changes them.
pub proof fn law_results_stay(
    case: CaseView,
    env: Seq<(Seq<char>, Seq<char>)>,
    events: Seq<CaseEvent>,
    stop: bool,
    cont: bool,
    i: int,
)
    requires
        0 <= i <= events.len(),
    ensures
        run_after(case, env, events.take(i), stop, cont).results.is_prefix_of(
            run_after(case, env, events, stop, cont).results,
        ),
        0 < i && events[i - 1] is Recorded ==> run_after(
            case,
            env,
            events.take(i),
            stop,
            cont,
        ).results.last() == events[i - 1]->Recorded_0,
    decreases events.len(),
{
    if 0 < i {
        assert(events.take(i).last() == events[i - 1]);
    }
    if i == events.len() {
        assert(events.take(i) =~= events);
    } else {
        law_results_stay(case, env, events.drop_last(), stop, cont, i);
        assert(events.drop_last().take(i) =~= events.take(i));
    }
}

// ---- laws of results ---------------------------------------------------------------------

/// A case is in error if one of its steps is; otherwise it failed if one of its steps did;
/// otherwise it passed, whatever was skipped. The order of the steps does not matter.
pub proof fn law_case_outcome(steps: Seq<StepResultView>, i: int)
    ensures
        0 <= i < steps.len() && steps[i].status is Error ==> rolled_up(steps) is Error,
        0 <= i < steps.len() && steps[i].status is Failed ==> rolled_up(steps) is Error || rolled_up(
            steps,
        ) is Failed,
        rolled_up(steps) is Passed <==> forall|k: int|
            0 <= k < steps.len() ==> !((#[trigger] steps[k]).status is Error || steps[k].status is Failed),
        rolled_up(steps) is Error <==> exists|k: int|
            0 <= k < steps.len() && (#[trigger] steps[k]).status is Error,
        !(rolled_up(steps) is Skipped) && !(rolled_up(steps) is Running),
{
    if rolled_up(steps) is Passed {
        assert forall|k: int| 0 <= k < steps.len() implies !((#[trigger] steps[k]).status is Error
            || steps[k].status is Failed) by {
            assert(steps[k].status != StepStatus::Error);
            assert(steps[k].status != StepStatus::Failed);
        }
    }
    if exists|k: int| 0 <= k < steps.len() && (#[trigger] steps[k]).status is Error {
        let k = choose|k: int| 0 <= k < steps.len() && (#[trigger] steps[k]).status is Error;
        assert(steps[k].status == StepStatus::Error);
    }
    if 0 <= i < steps.len() && steps[i].status is Failed {
        assert(steps[i].status == StepStatus::Failed);
    }
}

/// The result of a case tells what was run: the file, the name that the case has or else that of
/// the file, when it began, how long it took, and the results of its steps as they came.
pub proof fn law_case_told(
    r: CaseRunView,
    case: CaseView,
    file: Seq<char>,
    started: u64,
    duration_ms: u64,
    reason: Seq<char>,
)
    ensures
        ({
            let c = case_result(r, case, file, started, duration_ms);
            &&& c.file == file
            &&& c.steps == r.results
            &&& c.started_at == iso_text(started as nat)
            &&& c.duration_ms == duration_ms
            &&& c.skip_reason is None
            &&& case.name is Some && case.name->0.len() > 0 ==> Some(c.name) == case.name
            &&& case.name is None || case.name->0.len() == 0 ==> c.name == last_segment(file)
        }),
        ({
            let c = case_skipped(file, reason, started);
            &&& c.file == file
            &&& c.name == last_segment(file)
            &&& c.status is Skipped
            &&& c.skip_reason == Some(reason)
            &&& c.started_at == iso_text(started as nat)
            &&& c.duration_ms == 0
            &&& c.steps.len() == 0
        }),
{
}

/// What is recorded of a step that was answered. The step, the time it took, the method that was
/// sent and the status, its words and the time of the response are recorded as they are, hidden
/// or not; a step passed if every one of its assertions holds. Nothing is hidden from an editor:
/// then the address, the headers, the outputs and the assertions are recorded as they are too.
pub proof fn law_answer_recorded(
    step: StepView,
    ctx: RunContextView,
    redact: bool,
    max: nat,
    sent: HttpRequestView,
    resp: HttpResponseView,
    keys: Seq<NumKeys>,
    duration_ms: u64,
)
    ensures
        ({
            let a = answered(step, ctx, redact, max, sent, resp, keys, duration_ms);
            let checks = records_of(step.assertions, resp.status, resp.headers, resp.body, keys);
            let outputs = taken_outputs(step.outputs, resp.status, resp.headers, resp.body);
            &&& a.id == step.id
            &&& a.duration_ms == duration_ms
            &&& a.skip_reason is None
            &&& a.status is Passed <==> forall|i: int|
                0 <= i < checks.len() ==> (#[trigger] checks[i]).ok
            &&& a.request is Some && a.request->0.method == sent.method
            &&& a.response is Some
            &&& a.response->0.status == resp.status
            &&& a.response->0.status_text == resp.status_text
            &&& a.response->0.elapsed_ms == resp.elapsed_ms
            &&& a.request->0.headers.len() == sent.headers.len()
            &&& a.response->0.headers.len() == resp.headers.len()
            &&& a.assertions.len() == checks.len()
            &&& forall|i: int|
                0 <= i < checks.len() ==> (#[trigger] a.assertions[i]).target == checks[i].target
                    && a.assertions[i].op == checks[i].op && a.assertions[i].ok == checks[i].ok
            &&& a.outputs.len() == outputs.len()
            &&& forall|i: int|
                0 <= i < outputs.len() ==> (#[trigger] a.outputs[i]).0 == outputs[i].0
            &&& !redact ==> {
                &&& a.request->0.url == sent.url
                &&& a.request->0.headers == sent.headers
                &&& a.response->0.headers == resp.headers
                &&& a.outputs == outputs
                &&& a.assertions == checks
                &&& byte_len(resp.body) <= max ==> a.response->0.body.preview == Some(resp.body)
            }
        }),
{
}

/// What is recorded of a step that was not answered: the request that would have been sent, with
/// no response and nothing taken from one, and the error.
pub proof fn law_error_recorded(
    step: StepView,
    ctx: RunContextView,
    redact: bool,
    max: nat,
    error: Seq<char>,
    duration_ms: u64,
)
    ensures
        ({
            let a = unanswered(step, ctx, redact, max, error, duration_ms);
            let sent = built(resolved_http(step.http, ctx));
            &&& a.id == step.id
            &&& a.duration_ms == duration_ms
            &&& a.response is None
            &&& a.outputs.len() == 0
            &&& a.assertions.len() == 0
            &&& a.skip_reason is None
            &&& a.request is Some && a.request->0.method == sent.method
            &&& a.request->0.headers.len() == sent.headers.len()
            &&& !redact ==> a.request->0.url == sent.url && a.request->0.headers == sent.headers
                && a.error == Some(error)
        }),
{
}

/// What is recorded of a body that was sent: a text is shown, a file is told by its path, a form
/// by the number of its parts, and nothing is told of no body.
pub proof fn law_sent_body_recorded(
    req: HttpRequestView,
    secrets: Seq<Seq<char>>,
    redact: bool,
    max: nat,
)
    ensures
        match req.body {
            None => request_record(req, secrets, redact, max).body.preview is None,
            Some(RequestBodyView::File(p)) => request_record(req, secrets, redact, max).body.preview
                == Some("<二进制文件："@ + p + ">"@),
            Some(RequestBodyView::Form(f)) => request_record(req, secrets, redact, max).body.preview
                == Some("<multipart/form-data："@ + nat_text(f.len()) + " 个字段>"@),
            Some(RequestBodyView::Text(t)) => !redact && secrets.len() == 0 && byte_len(t) <= max
                ==> request_record(req, secrets, redact, max).body.preview == Some(t)
                && !request_record(req, secrets, redact, max).body.truncated,
        },
{
}

proof fn lemma_known_in_steps(
    es: Seq<(Seq<char>, Seq<(Seq<char>, JsonView)>)>,
    i: int,
    s: Seq<char>,
)
    requires
        0 <= i < es.len(),
        known_outputs(es[i].1).contains(s),
    ensures
        known_in_steps(es).contains(s),
    decreases es.len(),
{
    let d = es.drop_last();
    let a = known_in_steps(d);
    let b = known_outputs(es.last().1);
    if i < d.len() {
        assert(d[i] == es[i]);
        lemma_known_in_steps(d, i, s);
        let k = choose|k: int| 0 <= k < a.len() && a[k] == s;
        assert((a + b)[k] == s);
    } else {
        let k = choose|k: int| 0 <= k < b.len() && b[k] == s;
        assert((a + b)[a.len() + k] == s);
    }
}

/// Credentials are known from wherever a case has them: from its variables, from the outputs of
/// every step that was run, and from those of the step itself; and none is known where nothing is
/// hidden.
pub proof fn law_credentials_known(
    ctx: RunContextView,
    outputs: Seq<(Seq<char>, JsonView)>,
    i: int,
    s: Seq<char>,
)
    ensures
        known_values(ctx.vars).contains(s) ==> secrets_of(ctx, outputs, true).contains(s),
        0 <= i < ctx.steps.len() && known_outputs(ctx.steps[i].1).contains(s) ==> secrets_of(
            ctx,
            outputs,
            true,
        ).contains(s),
        known_outputs(outputs).contains(s) ==> secrets_of(ctx, outputs, true).contains(s),
        secrets_of(ctx, outputs, false).len() == 0,
{
    let a = known_values(ctx.vars);
    let b = known_in_steps(ctx.steps);
    let c = known_outputs(outputs);
    let all = a + b + c;
    if a.contains(s) {
        let k = choose|k: int| 0 <= k < a.len() && a[k] == s;
        assert(all[k] == s);
    }
    if 0 <= i < ctx.steps.len() && known_outputs(ctx.steps[i].1).contains(s) {
        lemma_known_in_steps(ctx.steps, i, s);
        let k = choose|k: int| 0 <= k < b.len() && b[k] == s;
        assert(all[a.len() + k] == s);
    }
    if c.contains(s) {
        let k = choose|k: int| 0 <= k < c.len() && c[k] == s;
        assert(all[a.len() + b.len() + k] == s);
    }
}

/// A selection is no more than was asked for: every step of it is one that was named, or one that
/// such a step leads to by what depends on what.
pub proof fn law_selection_is_least(steps: Seq<StepView>, ids: Seq<Seq<char>>, i: int)
    requires
        needed(steps, ids).contains(i),
    ensures
        exists|j: int|
            0 <= j < steps.len() && ids.contains((#[trigger] steps[j]).id) && reaches(
                graph_of(steps),
                j,
                i,
            ),
{
    let g = graph_of(steps);
    let rs = steps_named(steps, ids);
    lemma_selected(g, rs, order(g), i);
    lemma_steps_named(steps, ids);
    let r = choose|r: int| 0 <= r < rs.len() && reaches(g, #[trigger] rs[r], i);
    assert(ids.contains(steps[rs[r]].id));
}

/// The last step of an id counts for what depends on it.
pub proof fn law_last_of_an_id(steps: Seq<StepView>, id: Seq<char>, i: int)
    requires
        0 <= i < steps.len(),
        steps[i].id == id,
        forall|k: int| i < k < steps.len() ==> (#[trigger] steps[k]).id != id,
    ensures
        step_with_id(steps, id) == Some(i),
{
    lemma_step_with_id(steps, id);
}

/// Steps hold others back by their outcome: those in error and those that were skipped always,
/// those that failed unless that is allowed, and those that passed never. What is held back is
/// listed with its cause only if it does not block in its own right.
pub proof fn law_who_holds_back(outcomes: Seq<StepOutcomeView>, o: StepOutcomeView, cont: bool)
    ensures
        blocking_ids(seq![], cont).len() == 0,
        blocking_ids(outcomes.push(o), cont) == (if o.status is Error || o.status is Skipped || (
        o.status is Failed && !cont) {
            blocking_ids(outcomes, cont).push(o.id)
        } else {
            blocking_ids(outcomes, cont)
        }),
{
    assert(outcomes.push(o).drop_last() =~= outcomes);
}

/// How a batch is run unless something else is said: one case at a time, on after a failure, but
/// not past a failed step within a case, with credentials hidden.
pub proof fn law_batch_defaults(environment: EnvironmentInfoView)
    ensures
        batch_opts(environment).environment == environment,
        batch_opts(environment).concurrency == 1,
        !batch_opts(environment).stop_on_failure,
        !batch_opts(environment).continue_on_assertion_failure,
        batch_opts(environment).redact,
        batch_opts(environment).max_body_bytes == 65536,
{
}

/// The report of a batch begins without cases and without a time at which it ended; it tells the
/// environment by its name and its variables, those with the name of a credential masked if
/// credentials are hidden.
pub proof fn law_report_begins(
    meta: BatchMetaView,
    environment: EnvironmentInfoView,
    redact: bool,
    started: u64,
    i: int,
)
    ensures
        ({
            let r = report_begun(meta, environment, redact, started);
            &&& r.cases.len() == 0
            &&& r.finished_at is None
            &&& r.status is Running
            &&& r.started_at == iso_text(started as nat)
            &&& r.duration_ms == 0
            &&& summarizes(r.summary, r.cases)
            &&& r.tool.name == "apicase"@
            &&& r.tool.version == meta.tool_version
            &&& r.workspace == meta.workspace
            &&& r.options == meta.options
            &&& r.environment.name == environment.name
            &&& r.environment.vars.len() == environment.vars.len()
            &&& 0 <= i < environment.vars.len() ==> {
                &&& r.environment.vars[i].0 == environment.vars[i].0
                &&& r.environment.vars[i].1 == (if redact && secret_name(environment.vars[i].0) {
                    masked(environment.vars[i].1)
                } else {
                    environment.vars[i].1
                })
            }
        }),
{
}

} // verus!
