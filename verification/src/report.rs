//! The data of a run report, the contract between running and rendering.
use crate::json::{Json, JsonView};
use crate::table::SortedMap;
use crate::text::{
    byte_len, bytes_of, clip, clipped, copy_text, duplicate_opt, duplicates, opt_text, opt_view,
    views, Duplicate,
};
use vstd::prelude::*;

verus! {

/// The version of the report format. It grew when steps could be skipped.
pub const REPORT_SCHEMA_VERSION: u32 = 2;

/// A header.
#[derive(Debug, Clone, PartialEq)]
pub struct KvPair {
    pub key: String,
    pub value: String,
}

/// What a `KvPair` stands for.
#[verifier::ext_equal]
pub struct KvPairView {
    pub key: Seq<char>,
    pub value: Seq<char>,
}

impl View for KvPair {
    type V = KvPairView;

    open spec fn view(&self) -> KvPairView {
        KvPairView {
            key: self.key@,
            value: self.value@,
        }
    }
}

impl Duplicate for KvPair {
    fn duplicate(&self) -> (r: Self) {
        KvPair {
            key: copy_text(self.key.as_str()),
            value: copy_text(self.value.as_str()),
        }
    }
}

impl KvPair {
    /// A header.
    pub fn new(key: &str, value: &str) -> (r: Self)
        ensures
            r@ == pair(key@, value@),
    {
        KvPair { key: copy_text(key), value: copy_text(value) }
    }
}

/// A header.
pub open spec fn pair(key: Seq<char>, value: Seq<char>) -> KvPairView {
    KvPairView { key, value }
}

/// A body as a report keeps it. `bytes` is its whole size even when it was cut.
#[derive(Debug, Clone, PartialEq)]
pub struct BodyRecord {
    /// `None` when there was no body, which is not the same as an empty one.
    pub preview: Option<String>,
    pub bytes: usize,
    pub truncated: bool,
}

/// What a `BodyRecord` stands for.
#[verifier::ext_equal]
pub struct BodyRecordView {
    pub preview: Option<Seq<char>>,
    pub bytes: usize,
    pub truncated: bool,
}

impl View for BodyRecord {
    type V = BodyRecordView;

    open spec fn view(&self) -> BodyRecordView {
        BodyRecordView {
            preview: opt_view(self.preview),
            bytes: self.bytes,
            truncated: self.truncated,
        }
    }
}

impl Duplicate for BodyRecord {
    fn duplicate(&self) -> (r: Self) {
        BodyRecord {
            preview: duplicate_opt(&self.preview),
            bytes: self.bytes,
            truncated: self.truncated,
        }
    }
}

/// The record of a body, cut to `max` bytes at a character boundary.
pub open spec fn body_record(body: Option<Seq<char>>, max: nat) -> BodyRecordView {
    match body {
        None => absent_body(),
        Some(s) => if byte_len(s) <= max {
            BodyRecordView { preview: Some(s), bytes: byte_len(s) as usize, truncated: false }
        } else {
            BodyRecordView { preview: Some(clip(s, max)), bytes: byte_len(s) as usize, truncated: true }
        },
    }
}

/// The record of a request or response without a body.
pub open spec fn absent_body() -> BodyRecordView {
    BodyRecordView { preview: None, bytes: 0, truncated: false }
}

impl BodyRecord {
    /// The record of a request or response without a body.
    pub fn absent() -> (r: Self)
        ensures
            r@ == absent_body(),
    {
        BodyRecord { preview: None, bytes: 0, truncated: false }
    }

    /// The record of a body, cut to `max_bytes` at a character boundary.
    pub fn clip(body: Option<&str>, max_bytes: usize) -> (r: Self)
        ensures
            r@ == body_record(opt_text(body), max_bytes as nat),
            body is Some ==> r.bytes == byte_len(body->0@),
    {
        match body {
            None => BodyRecord::absent(),
            Some(s) => {
                let bytes: usize = bytes_of(s);
                if bytes <= max_bytes {
                    BodyRecord { preview: Some(copy_text(s)), bytes, truncated: false }
                } else {
                    BodyRecord { preview: Some(clipped(s, max_bytes)), bytes, truncated: true }
                }
            },
        }
    }
}

/// The outcome of one assertion.
#[derive(Debug, Clone, PartialEq)]
pub struct AssertRecord {
    pub target: String,
    pub op: String,
    /// A dash when the operator has no expected value.
    pub expected: String,
    pub actual: String,
    pub ok: bool,
}

/// What a `AssertRecord` stands for.
#[verifier::ext_equal]
pub struct AssertRecordView {
    pub target: Seq<char>,
    pub op: Seq<char>,
    pub expected: Seq<char>,
    pub actual: Seq<char>,
    pub ok: bool,
}

impl View for AssertRecord {
    type V = AssertRecordView;

    open spec fn view(&self) -> AssertRecordView {
        AssertRecordView {
            target: self.target@,
            op: self.op@,
            expected: self.expected@,
            actual: self.actual@,
            ok: self.ok,
        }
    }
}

impl Duplicate for AssertRecord {
    fn duplicate(&self) -> (r: Self) {
        AssertRecord {
            target: copy_text(self.target.as_str()),
            op: copy_text(self.op.as_str()),
            expected: copy_text(self.expected.as_str()),
            actual: copy_text(self.actual.as_str()),
            ok: self.ok,
        }
    }
}

/// The outcome of a step. A failed step was sent and did not meet its assertions; a step in
/// error was not sent; a skipped step was not run.
#[derive(Debug, Clone, Copy, PartialEq, Eq, Structural)]
pub enum StepStatus {
    Passed,
    Failed,
    Error,
    Skipped,
    Running,
}

/// Whether the steps that depend on a step with this outcome are held back.
pub open spec fn blocks(s: StepStatus, continue_on_assertion_failure: bool) -> bool {
    match s {
        StepStatus::Error => true,
        StepStatus::Skipped => true,
        StepStatus::Failed => !continue_on_assertion_failure,
        StepStatus::Passed => false,
        StepStatus::Running => false,
    }
}

impl StepStatus {
    /// Whether the steps that depend on a step with this outcome are held back.
    pub fn blocks_downstream(self, continue_on_assertion_failure: bool) -> (r: bool)
        ensures
            r == blocks(self, continue_on_assertion_failure),
    {
        match self {
            StepStatus::Error => true,
            StepStatus::Skipped => true,
            StepStatus::Failed => !continue_on_assertion_failure,
            StepStatus::Passed => false,
            StepStatus::Running => false,
        }
    }
}

/// A request as it was sent.
#[derive(Debug, Clone, PartialEq)]
pub struct RequestRecord {
    pub method: String,
    pub url: String,
    pub headers: Vec<KvPair>,
    pub body: BodyRecord,
}

/// What a `RequestRecord` stands for.
#[verifier::ext_equal]
pub struct RequestRecordView {
    pub method: Seq<char>,
    pub url: Seq<char>,
    pub headers: Seq<KvPairView>,
    pub body: BodyRecordView,
}

impl View for RequestRecord {
    type V = RequestRecordView;

    open spec fn view(&self) -> RequestRecordView {
        RequestRecordView {
            method: self.method@,
            url: self.url@,
            headers: views(self.headers@),
            body: self.body@,
        }
    }
}

impl Duplicate for RequestRecord {
    fn duplicate(&self) -> (r: Self) {
        RequestRecord {
            method: copy_text(self.method.as_str()),
            url: copy_text(self.url.as_str()),
            headers: duplicates(&self.headers),
            body: self.body.duplicate(),
        }
    }
}

/// A response as it came.
#[derive(Debug, Clone, PartialEq)]
pub struct ResponseRecord {
    pub status: u16,
    pub status_text: String,
    pub headers: Vec<KvPair>,
    pub body: BodyRecord,
    pub elapsed_ms: u64,
}

/// What a `ResponseRecord` stands for.
#[verifier::ext_equal]
pub struct ResponseRecordView {
    pub status: u16,
    pub status_text: Seq<char>,
    pub headers: Seq<KvPairView>,
    pub body: BodyRecordView,
    pub elapsed_ms: u64,
}

impl View for ResponseRecord {
    type V = ResponseRecordView;

    open spec fn view(&self) -> ResponseRecordView {
        ResponseRecordView {
            status: self.status,
            status_text: self.status_text@,
            headers: views(self.headers@),
            body: self.body@,
            elapsed_ms: self.elapsed_ms,
        }
    }
}

impl Duplicate for ResponseRecord {
    fn duplicate(&self) -> (r: Self) {
        ResponseRecord {
            status: self.status,
            status_text: copy_text(self.status_text.as_str()),
            headers: duplicates(&self.headers),
            body: self.body.duplicate(),
            elapsed_ms: self.elapsed_ms,
        }
    }
}

/// The outcome of a step with its evidence.
#[derive(Debug, Clone, PartialEq)]
pub struct StepResult {
    pub id: String,
    pub status: StepStatus,
    pub duration_ms: u64,
    pub request: Option<RequestRecord>,
    pub response: Option<ResponseRecord>,
    pub outputs: SortedMap<Json>,
    pub assertions: Vec<AssertRecord>,
    pub error: Option<String>,
    /// Why the step was not run.
    pub skip_reason: Option<String>,
}

/// What a `StepResult` stands for.
#[verifier::ext_equal]
pub struct StepResultView {
    pub id: Seq<char>,
    pub status: StepStatus,
    pub duration_ms: u64,
    pub request: Option<RequestRecordView>,
    pub response: Option<ResponseRecordView>,
    pub outputs: Seq<(Seq<char>, JsonView)>,
    pub assertions: Seq<AssertRecordView>,
    pub error: Option<Seq<char>>,
    pub skip_reason: Option<Seq<char>>,
}

impl View for StepResult {
    type V = StepResultView;

    open spec fn view(&self) -> StepResultView {
        StepResultView {
            id: self.id@,
            status: self.status,
            duration_ms: self.duration_ms,
            request: opt_view(self.request),
            response: opt_view(self.response),
            outputs: self.outputs@,
            assertions: views(self.assertions@),
            error: opt_view(self.error),
            skip_reason: opt_view(self.skip_reason),
        }
    }
}

impl Duplicate for StepResult {
    fn duplicate(&self) -> (r: Self) {
        StepResult {
            id: copy_text(self.id.as_str()),
            status: self.status,
            duration_ms: self.duration_ms,
            request: duplicate_opt(&self.request),
            response: duplicate_opt(&self.response),
            outputs: self.outputs.duplicate(),
            assertions: duplicates(&self.assertions),
            error: duplicate_opt(&self.error),
            skip_reason: duplicate_opt(&self.skip_reason),
        }
    }
}

/// A step that was not run.
pub open spec fn skipped_step(id: Seq<char>, reason: Seq<char>) -> StepResultView {
    StepResultView {
        id,
        status: StepStatus::Skipped,
        duration_ms: 0,
        request: None,
        response: None,
        outputs: seq![],
        assertions: seq![],
        error: None,
        skip_reason: Some(reason),
    }
}

impl StepResult {
    /// A step that was not run; it is in the report all the same.
    pub fn skipped(id: &str, reason: &str) -> (r: Self)
        ensures
            r@ == skipped_step(id@, reason@),
    {
        let assertions: Vec<AssertRecord> = Vec::new();
        assert(views(assertions@) =~= seq![]);
        StepResult {
            id: copy_text(id),
            status: StepStatus::Skipped,
            duration_ms: 0,
            request: None,
            response: None,
            outputs: SortedMap::new(),
            assertions,
            error: None,
            skip_reason: Some(copy_text(reason)),
        }
    }
}

/// The outcome of a case.
#[derive(Debug, Clone, Copy, PartialEq, Eq, Structural)]
pub enum CaseStatus {
    Passed,
    Failed,
    Error,
    Skipped,
    Running,
}

/// The outcome of a case with its steps.
#[derive(Debug, Clone, PartialEq)]
pub struct CaseResult {
    /// The path relative to the root of the workspace.
    pub file: String,
    pub name: String,
    pub status: CaseStatus,
    pub skip_reason: Option<String>,
    pub started_at: String,
    pub duration_ms: u64,
    pub steps: Vec<StepResult>,
}

/// What a `CaseResult` stands for.
#[verifier::ext_equal]
pub struct CaseResultView {
    pub file: Seq<char>,
    pub name: Seq<char>,
    pub status: CaseStatus,
    pub skip_reason: Option<Seq<char>>,
    pub started_at: Seq<char>,
    pub duration_ms: u64,
    pub steps: Seq<StepResultView>,
}

impl View for CaseResult {
    type V = CaseResultView;

    open spec fn view(&self) -> CaseResultView {
        CaseResultView {
            file: self.file@,
            name: self.name@,
            status: self.status,
            skip_reason: opt_view(self.skip_reason),
            started_at: self.started_at@,
            duration_ms: self.duration_ms,
            steps: views(self.steps@),
        }
    }
}

impl Duplicate for CaseResult {
    fn duplicate(&self) -> (r: Self) {
        CaseResult {
            file: copy_text(self.file.as_str()),
            name: copy_text(self.name.as_str()),
            status: self.status,
            skip_reason: duplicate_opt(&self.skip_reason),
            started_at: copy_text(self.started_at.as_str()),
            duration_ms: self.duration_ms,
            steps: duplicates(&self.steps),
        }
    }
}

// ---- summary ---------------------------------------------------------------------------

/// Counts of assertions.
#[derive(Debug, Clone, Copy, PartialEq, Eq, Structural)]
pub struct AssertSummary {
    pub total: u32,
    pub passed: u32,
    pub failed: u32,
}

/// Counts of steps.
#[derive(Debug, Clone, Copy, PartialEq, Eq, Structural)]
pub struct StepSummary {
    pub total: u32,
    pub passed: u32,
    pub failed: u32,
    pub error: u32,
    pub skipped: u32,
}

/// Counts of cases, of their steps and of their assertions.
#[derive(Debug, Clone, Copy, PartialEq, Eq, Structural)]
pub struct RunSummary {
    pub total: u32,
    pub passed: u32,
    pub failed: u32,
    pub error: u32,
    pub skipped: u32,
    pub assertions: AssertSummary,
    pub steps: StepSummary,
}

impl Default for AssertSummary {
    fn default() -> (r: Self)
        ensures
            r == (AssertSummary { total: 0, passed: 0, failed: 0 }),
    {
        AssertSummary { total: 0, passed: 0, failed: 0 }
    }
}

impl Default for StepSummary {
    fn default() -> (r: Self)
        ensures
            r == (StepSummary { total: 0, passed: 0, failed: 0, error: 0, skipped: 0 }),
    {
        StepSummary { total: 0, passed: 0, failed: 0, error: 0, skipped: 0 }
    }
}

/// The summary of a run without cases.
pub open spec fn no_counts() -> RunSummary {
    RunSummary {
        total: 0,
        passed: 0,
        failed: 0,
        error: 0,
        skipped: 0,
        assertions: AssertSummary { total: 0, passed: 0, failed: 0 },
        steps: StepSummary { total: 0, passed: 0, failed: 0, error: 0, skipped: 0 },
    }
}

impl Default for RunSummary {
    fn default() -> (r: Self)
        ensures
            r == no_counts(),
    {
        RunSummary {
            total: 0,
            passed: 0,
            failed: 0,
            error: 0,
            skipped: 0,
            assertions: AssertSummary::default(),
            steps: StepSummary::default(),
        }
    }
}

/// How many assertions have the outcome `ok`.
pub open spec fn asserts_with(a: Seq<AssertRecordView>, ok: bool) -> nat
    decreases a.len(),
{
    if a.len() == 0 {
        0
    } else {
        asserts_with(a.drop_last(), ok) + (if a.last().ok == ok {
            1nat
        } else {
            0nat
        })
    }
}

/// How many steps have the outcome `st`.
pub open spec fn steps_with(s: Seq<StepResultView>, st: StepStatus) -> nat
    decreases s.len(),
{
    if s.len() == 0 {
        0
    } else {
        steps_with(s.drop_last(), st) + (if s.last().status == st {
            1nat
        } else {
            0nat
        })
    }
}

/// How many assertions of the steps there are.
pub open spec fn step_asserts(s: Seq<StepResultView>) -> nat
    decreases s.len(),
{
    if s.len() == 0 {
        0
    } else {
        step_asserts(s.drop_last()) + s.last().assertions.len()
    }
}

/// How many assertions of the steps have the outcome `ok`.
pub open spec fn step_asserts_with(s: Seq<StepResultView>, ok: bool) -> nat
    decreases s.len(),
{
    if s.len() == 0 {
        0
    } else {
        step_asserts_with(s.drop_last(), ok) + asserts_with(s.last().assertions, ok)
    }
}

/// How many cases have the outcome `st`.
pub open spec fn cases_with(c: Seq<CaseResultView>, st: CaseStatus) -> nat
    decreases c.len(),
{
    if c.len() == 0 {
        0
    } else {
        cases_with(c.drop_last(), st) + (if c.last().status == st {
            1nat
        } else {
            0nat
        })
    }
}

/// How many steps the cases have.
pub open spec fn case_steps(c: Seq<CaseResultView>) -> nat
    decreases c.len(),
{
    if c.len() == 0 {
        0
    } else {
        case_steps(c.drop_last()) + c.last().steps.len()
    }
}

/// How many steps of the cases have the outcome `st`.
pub open spec fn case_steps_with(c: Seq<CaseResultView>, st: StepStatus) -> nat
    decreases c.len(),
{
    if c.len() == 0 {
        0
    } else {
        case_steps_with(c.drop_last(), st) + steps_with(c.last().steps, st)
    }
}

/// How many assertions the cases have.
pub open spec fn case_asserts(c: Seq<CaseResultView>) -> nat
    decreases c.len(),
{
    if c.len() == 0 {
        0
    } else {
        case_asserts(c.drop_last()) + step_asserts(c.last().steps)
    }
}

/// How many assertions of the cases have the outcome `ok`.
pub open spec fn case_asserts_with(c: Seq<CaseResultView>, ok: bool) -> nat
    decreases c.len(),
{
    if c.len() == 0 {
        0
    } else {
        case_asserts_with(c.drop_last(), ok) + step_asserts_with(c.last().steps, ok)
    }
}

/// Whether the counts of a run fit the fields of a summary.
pub open spec fn countable(c: Seq<CaseResultView>) -> bool {
    c.len() <= u32::MAX && case_steps(c) <= u32::MAX && case_asserts(c) <= u32::MAX
}

/// Whether a summary counts the cases of a run.
pub open spec fn summarizes(r: RunSummary, c: Seq<CaseResultView>) -> bool {
    &&& r.total == c.len()
    &&& r.passed == cases_with(c, CaseStatus::Passed)
    &&& r.failed == cases_with(c, CaseStatus::Failed)
    &&& r.error == cases_with(c, CaseStatus::Error)
    &&& r.skipped == cases_with(c, CaseStatus::Skipped)
    &&& r.steps.total == case_steps(c)
    &&& r.steps.passed == case_steps_with(c, StepStatus::Passed)
    &&& r.steps.failed == case_steps_with(c, StepStatus::Failed)
    &&& r.steps.error == case_steps_with(c, StepStatus::Error)
    &&& r.steps.skipped == case_steps_with(c, StepStatus::Skipped)
    &&& r.assertions.total == case_asserts(c)
    &&& r.assertions.passed == case_asserts_with(c, true)
    &&& r.assertions.failed == case_asserts_with(c, false)
}

/// Every assertion passes or fails.
pub proof fn lemma_asserts_split(a: Seq<AssertRecordView>)
    ensures
        asserts_with(a, true) + asserts_with(a, false) == a.len(),
    decreases a.len(),
{
    if a.len() > 0 {
        lemma_asserts_split(a.drop_last());
    }
}

/// The assertions of steps pass or fail.
pub proof fn lemma_step_asserts_split(s: Seq<StepResultView>)
    ensures
        step_asserts_with(s, true) + step_asserts_with(s, false) == step_asserts(s),
    decreases s.len(),
{
    if s.len() > 0 {
        lemma_step_asserts_split(s.drop_last());
        lemma_asserts_split(s.last().assertions);
    }
}

/// Every step has one of the five outcomes.
pub proof fn lemma_steps_split(s: Seq<StepResultView>)
    ensures
        steps_with(s, StepStatus::Passed) + steps_with(s, StepStatus::Failed) + steps_with(
            s,
            StepStatus::Error,
        ) + steps_with(s, StepStatus::Skipped) + steps_with(s, StepStatus::Running) == s.len(),
    decreases s.len(),
{
    if s.len() > 0 {
        lemma_steps_split(s.drop_last());
    }
}

/// The counts of a summary add up: every case, every step and every assertion is counted in
/// exactly one place, apart from what is still running.
pub proof fn law_summary_adds_up(r: RunSummary, c: Seq<CaseResultView>)
    requires
        summarizes(r, c),
    ensures
        r.passed + r.failed + r.error + r.skipped + cases_with(c, CaseStatus::Running) == r.total,
        r.steps.passed + r.steps.failed + r.steps.error + r.steps.skipped + case_steps_with(
            c,
            StepStatus::Running,
        ) == r.steps.total,
        r.assertions.passed + r.assertions.failed == r.assertions.total,
{
    lemma_case_counts(c);
}

proof fn lemma_case_counts(c: Seq<CaseResultView>)
    ensures
        cases_with(c, CaseStatus::Passed) + cases_with(c, CaseStatus::Failed) + cases_with(
            c,
            CaseStatus::Error,
        ) + cases_with(c, CaseStatus::Skipped) + cases_with(c, CaseStatus::Running) == c.len(),
        case_steps_with(c, StepStatus::Passed) + case_steps_with(c, StepStatus::Failed)
            + case_steps_with(c, StepStatus::Error) + case_steps_with(c, StepStatus::Skipped)
            + case_steps_with(c, StepStatus::Running) == case_steps(c),
        case_asserts_with(c, true) + case_asserts_with(c, false) == case_asserts(c),
    decreases c.len(),
{
    if c.len() > 0 {
        lemma_case_counts(c.drop_last());
        lemma_steps_split(c.last().steps);
        lemma_step_asserts_split(c.last().steps);
    }
}

/// The counts of a beginning of a run are at most those of the run.
proof fn lemma_case_counts_grow(c: Seq<CaseResultView>, i: int)
    requires
        0 <= i <= c.len(),
    ensures
        case_steps(c.take(i)) <= case_steps(c),
        case_asserts(c.take(i)) <= case_asserts(c),
    decreases c.len() - i,
{
    if i < c.len() {
        assert(c.take(i + 1).drop_last() =~= c.take(i));
        lemma_case_counts_grow(c, i + 1);
    } else {
        assert(c.take(i) =~= c);
    }
}

proof fn lemma_step_counts_grow(s: Seq<StepResultView>, i: int)
    requires
        0 <= i <= s.len(),
    ensures
        step_asserts(s.take(i)) <= step_asserts(s),
    decreases s.len() - i,
{
    if i < s.len() {
        assert(s.take(i + 1).drop_last() =~= s.take(i));
        lemma_step_counts_grow(s, i + 1);
    } else {
        assert(s.take(i) =~= s);
    }
}

/// Adds the assertions of a step.
fn count_asserts(a: &Vec<AssertRecord>, s: AssertSummary) -> (r: AssertSummary)
    requires
        s.total + a@.len() <= u32::MAX,
        s.passed + s.failed == s.total,
    ensures
        r.total == s.total + a@.len(),
        r.passed == s.passed + asserts_with(views(a@), true),
        r.failed == s.failed + asserts_with(views(a@), false),
        r.passed + r.failed == r.total,
{
    let mut out: AssertSummary = s;
    let mut i: usize = 0;
    let ghost v = views(a@);
    while i < a.len()
        invariant
            i <= a@.len(),
            v == views(a@),
            s.total + a@.len() <= u32::MAX,
            out.total == s.total + i,
            out.passed == s.passed + asserts_with(v.take(i as int), true),
            out.failed == s.failed + asserts_with(v.take(i as int), false),
            out.passed + out.failed == out.total,
        decreases a@.len() - i,
    {
        assert(v.take(i + 1).drop_last() =~= v.take(i as int));
        assert(v.take(i + 1).last() == a@[i as int]@);
        out.total = out.total + 1;
        if a[i].ok {
            out.passed = out.passed + 1;
        } else {
            out.failed = out.failed + 1;
        }
        i = i + 1;
    }
    assert(v.take(v.len() as int) =~= v);
    out
}

/// Adds the steps of a case and their assertions.
fn count_steps(
    steps: &Vec<StepResult>,
    s: StepSummary,
    a: AssertSummary,
) -> (r: (StepSummary, AssertSummary))
    requires
        s.total + steps@.len() <= u32::MAX,
        a.total + step_asserts(views(steps@)) <= u32::MAX,
        a.passed + a.failed == a.total,
        s.passed + s.failed + s.error + s.skipped <= s.total,
    ensures
        r.0.total == s.total + steps@.len(),
        r.0.passed == s.passed + steps_with(views(steps@), StepStatus::Passed),
        r.0.failed == s.failed + steps_with(views(steps@), StepStatus::Failed),
        r.0.error == s.error + steps_with(views(steps@), StepStatus::Error),
        r.0.skipped == s.skipped + steps_with(views(steps@), StepStatus::Skipped),
        r.0.passed + r.0.failed + r.0.error + r.0.skipped <= r.0.total,
        r.1.total == a.total + step_asserts(views(steps@)),
        r.1.passed == a.passed + step_asserts_with(views(steps@), true),
        r.1.failed == a.failed + step_asserts_with(views(steps@), false),
        r.1.passed + r.1.failed == r.1.total,
{
    let mut n: StepSummary = s;
    let mut m: AssertSummary = a;
    let mut i: usize = 0;
    let ghost v = views(steps@);
    while i < steps.len()
        invariant
            i <= steps@.len(),
            v == views(steps@),
            s.total + steps@.len() <= u32::MAX,
            a.total + step_asserts(v) <= u32::MAX,
            n.total == s.total + i,
            n.passed == s.passed + steps_with(v.take(i as int), StepStatus::Passed),
            n.failed == s.failed + steps_with(v.take(i as int), StepStatus::Failed),
            n.error == s.error + steps_with(v.take(i as int), StepStatus::Error),
            n.skipped == s.skipped + steps_with(v.take(i as int), StepStatus::Skipped),
            n.passed + n.failed + n.error + n.skipped <= n.total,
            m.total == a.total + step_asserts(v.take(i as int)),
            m.passed == a.passed + step_asserts_with(v.take(i as int), true),
            m.failed == a.failed + step_asserts_with(v.take(i as int), false),
            m.passed + m.failed == m.total,
        decreases steps@.len() - i,
    {
        proof {
            assert(v.take(i + 1).drop_last() =~= v.take(i as int));
            assert(v.take(i + 1).last() == steps@[i as int]@);
            lemma_step_counts_grow(v, i + 1);
        }
        n.total = n.total + 1;
        match steps[i].status {
            StepStatus::Passed => {
                n.passed = n.passed + 1;
            },
            StepStatus::Failed => {
                n.failed = n.failed + 1;
            },
            StepStatus::Error => {
                n.error = n.error + 1;
            },
            StepStatus::Skipped => {
                n.skipped = n.skipped + 1;
            },
            StepStatus::Running => {},
        }
        m = count_asserts(&steps[i].assertions, m);
        i = i + 1;
    }
    assert(v.take(v.len() as int) =~= v);
    (n, m)
}

impl RunSummary {
    /// Counts the cases of a run, their steps and their assertions.
    pub fn of(cases: &[CaseResult]) -> (r: Self)
        requires
            countable(views(cases@)),
        ensures
            summarizes(r, views(cases@)),
    {
        let mut n: RunSummary = RunSummary::default();
        let mut i: usize = 0;
        let ghost v = views(cases@);
        while i < cases.len()
            invariant
                i <= cases@.len(),
                v == views(cases@),
                countable(v),
                n.total == i,
                n.passed + n.failed + n.error + n.skipped <= n.total,
                n.passed == cases_with(v.take(i as int), CaseStatus::Passed),
                n.failed == cases_with(v.take(i as int), CaseStatus::Failed),
                n.error == cases_with(v.take(i as int), CaseStatus::Error),
                n.skipped == cases_with(v.take(i as int), CaseStatus::Skipped),
                n.steps.total == case_steps(v.take(i as int)),
                n.steps.passed == case_steps_with(v.take(i as int), StepStatus::Passed),
                n.steps.failed == case_steps_with(v.take(i as int), StepStatus::Failed),
                n.steps.error == case_steps_with(v.take(i as int), StepStatus::Error),
                n.steps.skipped == case_steps_with(v.take(i as int), StepStatus::Skipped),
                n.steps.passed + n.steps.failed + n.steps.error + n.steps.skipped <= n.steps.total,
                n.assertions.total == case_asserts(v.take(i as int)),
                n.assertions.passed == case_asserts_with(v.take(i as int), true),
                n.assertions.failed == case_asserts_with(v.take(i as int), false),
                n.assertions.passed + n.assertions.failed == n.assertions.total,
            decreases cases@.len() - i,
        {
            proof {
                assert(v.take(i + 1).drop_last() =~= v.take(i as int));
                assert(v.take(i + 1).last() == cases@[i as int]@);
                lemma_case_counts_grow(v, i + 1);
            }
            n.total = n.total + 1;
            match cases[i].status {
                CaseStatus::Passed => {
                    n.passed = n.passed + 1;
                },
                CaseStatus::Failed => {
                    n.failed = n.failed + 1;
                },
                CaseStatus::Error => {
                    n.error = n.error + 1;
                },
                CaseStatus::Skipped => {
                    n.skipped = n.skipped + 1;
                },
                CaseStatus::Running => {},
            }
            let (steps, assertions): (StepSummary, AssertSummary) = count_steps(
                &cases[i].steps,
                n.steps,
                n.assertions,
            );
            n.steps = steps;
            n.assertions = assertions;
            i = i + 1;
        }
        assert(v.take(v.len() as int) =~= v);
        n
    }
}

// ---- the report ------------------------------------------------------------------------

/// How a run was made; a report has to tell on its own.
#[derive(Debug, Clone, PartialEq)]
pub struct RunOptions {
    pub targets: Vec<String>,
    pub recursive: bool,
    pub environment: String,
    pub concurrency: u32,
    pub stop_on_failure: bool,
    pub max_body_bytes: usize,
    pub continue_on_assertion_failure: bool,
}

/// What a `RunOptions` stands for.
#[verifier::ext_equal]
pub struct RunOptionsView {
    pub targets: Seq<Seq<char>>,
    pub recursive: bool,
    pub environment: Seq<char>,
    pub concurrency: u32,
    pub stop_on_failure: bool,
    pub max_body_bytes: usize,
    pub continue_on_assertion_failure: bool,
}

impl View for RunOptions {
    type V = RunOptionsView;

    open spec fn view(&self) -> RunOptionsView {
        RunOptionsView {
            targets: views(self.targets@),
            recursive: self.recursive,
            environment: self.environment@,
            concurrency: self.concurrency,
            stop_on_failure: self.stop_on_failure,
            max_body_bytes: self.max_body_bytes,
            continue_on_assertion_failure: self.continue_on_assertion_failure,
        }
    }
}

impl Duplicate for RunOptions {
    fn duplicate(&self) -> (r: Self) {
        RunOptions {
            targets: duplicates(&self.targets),
            recursive: self.recursive,
            environment: copy_text(self.environment.as_str()),
            concurrency: self.concurrency,
            stop_on_failure: self.stop_on_failure,
            max_body_bytes: self.max_body_bytes,
            continue_on_assertion_failure: self.continue_on_assertion_failure,
        }
    }
}

/// How far a run has come.
#[derive(Debug, Clone, Copy, PartialEq, Eq, Structural)]
pub enum RunStatus {
    Running,
    Done,
    Cancelled,
}

/// The tool that made a report.
#[derive(Debug, Clone, PartialEq)]
pub struct ToolInfo {
    pub name: String,
    pub version: String,
}

/// What a `ToolInfo` stands for.
#[verifier::ext_equal]
pub struct ToolInfoView {
    pub name: Seq<char>,
    pub version: Seq<char>,
}

impl View for ToolInfo {
    type V = ToolInfoView;

    open spec fn view(&self) -> ToolInfoView {
        ToolInfoView {
            name: self.name@,
            version: self.version@,
        }
    }
}

impl Duplicate for ToolInfo {
    fn duplicate(&self) -> (r: Self) {
        ToolInfo {
            name: copy_text(self.name.as_str()),
            version: copy_text(self.version.as_str()),
        }
    }
}

/// The workspace of a run.
#[derive(Debug, Clone, PartialEq)]
pub struct WorkspaceInfo {
    pub name: String,
    pub root: String,
}

/// What a `WorkspaceInfo` stands for.
#[verifier::ext_equal]
pub struct WorkspaceInfoView {
    pub name: Seq<char>,
    pub root: Seq<char>,
}

impl View for WorkspaceInfo {
    type V = WorkspaceInfoView;

    open spec fn view(&self) -> WorkspaceInfoView {
        WorkspaceInfoView {
            name: self.name@,
            root: self.root@,
        }
    }
}

impl Duplicate for WorkspaceInfo {
    fn duplicate(&self) -> (r: Self) {
        WorkspaceInfo {
            name: copy_text(self.name.as_str()),
            root: copy_text(self.root.as_str()),
        }
    }
}

/// The environment of a run.
#[derive(Debug, Clone, PartialEq)]
pub struct EnvironmentInfo {
    pub name: String,
    pub vars: SortedMap<String>,
}

/// What a `EnvironmentInfo` stands for.
#[verifier::ext_equal]
pub struct EnvironmentInfoView {
    pub name: Seq<char>,
    pub vars: Seq<(Seq<char>, Seq<char>)>,
}

impl View for EnvironmentInfo {
    type V = EnvironmentInfoView;

    open spec fn view(&self) -> EnvironmentInfoView {
        EnvironmentInfoView {
            name: self.name@,
            vars: self.vars@,
        }
    }
}

impl Duplicate for EnvironmentInfo {
    fn duplicate(&self) -> (r: Self) {
        EnvironmentInfo {
            name: copy_text(self.name.as_str()),
            vars: self.vars.duplicate(),
        }
    }
}

/// A run report.
#[derive(Debug, Clone, PartialEq)]
pub struct RunReport {
    pub schema_version: u32,
    pub tool: ToolInfo,
    pub started_at: String,
    /// `None` while the run goes on.
    pub finished_at: Option<String>,
    pub duration_ms: u64,
    pub status: RunStatus,
    pub workspace: WorkspaceInfo,
    pub environment: EnvironmentInfo,
    pub options: RunOptions,
    pub summary: RunSummary,
    pub cases: Vec<CaseResult>,
}

/// What a `RunReport` stands for.
#[verifier::ext_equal]
pub struct RunReportView {
    pub schema_version: u32,
    pub tool: ToolInfoView,
    pub started_at: Seq<char>,
    pub finished_at: Option<Seq<char>>,
    pub duration_ms: u64,
    pub status: RunStatus,
    pub workspace: WorkspaceInfoView,
    pub environment: EnvironmentInfoView,
    pub options: RunOptionsView,
    pub summary: RunSummary,
    pub cases: Seq<CaseResultView>,
}

impl View for RunReport {
    type V = RunReportView;

    open spec fn view(&self) -> RunReportView {
        RunReportView {
            schema_version: self.schema_version,
            tool: self.tool@,
            started_at: self.started_at@,
            finished_at: opt_view(self.finished_at),
            duration_ms: self.duration_ms,
            status: self.status,
            workspace: self.workspace@,
            environment: self.environment@,
            options: self.options@,
            summary: self.summary,
            cases: views(self.cases@),
        }
    }
}

impl Duplicate for RunReport {
    fn duplicate(&self) -> (r: Self) {
        RunReport {
            schema_version: self.schema_version,
            tool: self.tool.duplicate(),
            started_at: copy_text(self.started_at.as_str()),
            finished_at: duplicate_opt(&self.finished_at),
            duration_ms: self.duration_ms,
            status: self.status,
            workspace: self.workspace.duplicate(),
            environment: self.environment.duplicate(),
            options: self.options.duplicate(),
            summary: self.summary,
            cases: duplicates(&self.cases),
        }
    }
}

/// Steps are held back by their outcome: an error and a skipped step always hold back what depends
/// on them, a failure unless it is allowed, and a step that passed or still runs never does.
pub proof fn law_outcomes_that_block(s: StepStatus, cont: bool)
    ensures
        blocks(s, true) ==> blocks(s, false),
        blocks(s, false) <==> s is Error || s is Skipped || s is Failed,
        blocks(s, true) <==> s is Error || s is Skipped,
{
}

/// One case more: each count of a summary grows by what the case adds to it, and by nothing else.
pub proof fn law_one_more_case(
    before: RunSummary,
    after: RunSummary,
    c: Seq<CaseResultView>,
    x: CaseResultView,
)
    requires
        summarizes(before, c),
        summarizes(after, c.push(x)),
    ensures
        after.total == before.total + 1,
        after.passed == before.passed + count_of(x.status is Passed),
        after.failed == before.failed + count_of(x.status is Failed),
        after.error == before.error + count_of(x.status is Error),
        after.skipped == before.skipped + count_of(x.status is Skipped),
        after.steps.total == before.steps.total + x.steps.len(),
        after.steps.passed == before.steps.passed + x.steps.filter(
            |s: StepResultView| s.status is Passed,
        ).len(),
        after.steps.failed == before.steps.failed + x.steps.filter(
            |s: StepResultView| s.status is Failed,
        ).len(),
        after.steps.error == before.steps.error + x.steps.filter(
            |s: StepResultView| s.status is Error,
        ).len(),
        after.steps.skipped == before.steps.skipped + x.steps.filter(
            |s: StepResultView| s.status is Skipped,
        ).len(),
        after.assertions.total == before.assertions.total + x.steps.fold_left(
            0,
            |n: int, s: StepResultView| n + s.assertions.len(),
        ),
        after.assertions.passed == before.assertions.passed + x.steps.fold_left(
            0,
            |n: int, s: StepResultView|
                n + s.assertions.filter(|a: AssertRecordView| a.ok).len(),
        ),
        after.assertions.failed == before.assertions.failed + x.steps.fold_left(
            0,
            |n: int, s: StepResultView|
                n + s.assertions.filter(|a: AssertRecordView| !a.ok).len(),
        ),
{
    assert(c.push(x).drop_last() =~= c);
    lemma_steps_filtered(x.steps);
    lemma_asserts_folded(x.steps);
}

/// One if it is so.
pub open spec fn count_of(b: bool) -> nat {
    if b {
        1
    } else {
        0
    }
}

proof fn lemma_steps_filtered(s: Seq<StepResultView>)
    ensures
        steps_with(s, StepStatus::Passed) == s.filter(
            |s: StepResultView| s.status is Passed,
        ).len(),
        steps_with(s, StepStatus::Failed) == s.filter(
            |s: StepResultView| s.status is Failed,
        ).len(),
        steps_with(s, StepStatus::Error) == s.filter(|s: StepResultView| s.status is Error).len(),
        steps_with(s, StepStatus::Skipped) == s.filter(
            |s: StepResultView| s.status is Skipped,
        ).len(),
    decreases s.len(),
{
    reveal(Seq::filter);
    if s.len() > 0 {
        lemma_steps_filtered(s.drop_last());
    }
}

proof fn lemma_asserts_filtered(a: Seq<AssertRecordView>)
    ensures
        asserts_with(a, true) == a.filter(|a: AssertRecordView| a.ok).len(),
        asserts_with(a, false) == a.filter(|a: AssertRecordView| !a.ok).len(),
    decreases a.len(),
{
    reveal(Seq::filter);
    if a.len() > 0 {
        lemma_asserts_filtered(a.drop_last());
    }
}

proof fn lemma_asserts_folded(s: Seq<StepResultView>)
    ensures
        step_asserts(s) == s.fold_left(0, |n: int, s: StepResultView| n + s.assertions.len()),
        step_asserts_with(s, true) == s.fold_left(
            0,
            |n: int, s: StepResultView|
                n + s.assertions.filter(|a: AssertRecordView| a.ok).len(),
        ),
        step_asserts_with(s, false) == s.fold_left(
            0,
            |n: int, s: StepResultView|
                n + s.assertions.filter(|a: AssertRecordView| !a.ok).len(),
        ),
    decreases s.len(),
{
    reveal(Seq::fold_left);
    if s.len() > 0 {
        lemma_asserts_folded(s.drop_last());
        lemma_asserts_filtered(s.last().assertions);
    }
}

/// A summary of no cases counts nothing.
pub proof fn law_nothing_counted(r: RunSummary)
    requires
        summarizes(r, seq![]),
    ensures
        r == no_counts(),
        r.total == 0 && r.passed == 0 && r.failed == 0 && r.error == 0 && r.skipped == 0,
        r.steps.total == 0 && r.steps.passed == 0 && r.steps.failed == 0 && r.steps.error == 0
            && r.steps.skipped == 0,
        r.assertions.total == 0 && r.assertions.passed == 0 && r.assertions.failed == 0,
{
}

} // verus!
