//! Workspaces: what the configuration of a directory makes of a run, and where files go.
//!
//! A workspace is a directory with an `application.yml`. Paths are texts with `/` between their
//! parts.
use crate::config::{
    env_vars, environments_of, environments_read, settings_in, settings_read, vars_of,
};
use crate::http::{
    ClientConfig, ClientConfigView, CookieConfig, CookieConfigView, ProxyConfig, ProxyConfigView,
    RequestOptions, RequestOptionsView,
};
use crate::json::{Json, JsonView, Member};
use crate::model::{WorkspaceSettings, WorkspaceSettingsView};
use crate::report::{EnvironmentInfo, EnvironmentInfoView, WorkspaceInfo, WorkspaceInfoView};
use crate::runner::{batch_opts, RunOpts, RunOptsView};
use crate::text::{
    begins, byte_len, cat, chars_of, clip, clipped, control, copy_text, duplicates, empty, ends,
    ends_with, is_control, is_white, join, last_part, last_segment, law_clip, law_split_joined,
    lemma_split_append, lower, nat_text, occurs_at, opt_text, opt_view, pieces, replace,
    replace_from, replaced, same, same_ignoring_case, split, starts_with, sub_text, trim, trimmed, usize_text, views, white,
    Duplicate,
};
use crate::yaml::{load, loaded};
use vstd::prelude::*;

verus! {

/// The file that makes a directory a workspace.
pub const CONFIG_FILE: &'static str = "application.yml";

/// The directory for what the tool itself writes. It holds credentials.
pub const DATA_DIR: &'static str = ".apicase";

/// The directory of reports, relative to the root.
pub const REPORTS_DIR: &'static str = ".apicase/reports";

/// The cookie jar, relative to the root.
pub const COOKIE_JAR: &'static str = ".apicase/cookies.yml";

/// What a new `application.yml` holds.
pub const CONFIG_TEMPLATE: &'static str =
    "# apicase 工作空间配置\n# environment：支持多套环境，可切换（dev / test / prod…）\nenvironment:\n  default: {}\n";

/// The most bytes of the name of a target in the name of a report.
pub const MAX_NAME_BYTES: usize = 60;

/// A workspace that was opened.
#[derive(Debug, Clone, PartialEq)]
pub struct Workspace {
    pub root: String,
    /// The text of `application.yml`.
    pub config_text: String,
    pub environments: Vec<Member>,
    pub settings: WorkspaceSettings,
    /// Whether the root holds an `application.yml`. A directory without one can be worked in, but
    /// nothing is written into it.
    pub anchored: bool,
}

/// What a `Workspace` stands for.
#[verifier::ext_equal]
pub struct WorkspaceView {
    pub root: Seq<char>,
    pub config_text: Seq<char>,
    pub environments: Seq<(Seq<char>, JsonView)>,
    pub settings: WorkspaceSettingsView,
    pub anchored: bool,
}

impl View for Workspace {
    type V = WorkspaceView;

    open spec fn view(&self) -> WorkspaceView {
        WorkspaceView {
            root: self.root@,
            config_text: self.config_text@,
            environments: views(self.environments@),
            settings: self.settings@,
            anchored: self.anchored,
        }
    }
}

impl Duplicate for Workspace {
    fn duplicate(&self) -> (r: Self) {
        Workspace {
            root: copy_text(self.root.as_str()),
            config_text: copy_text(self.config_text.as_str()),
            environments: duplicates(&self.environments),
            settings: self.settings.duplicate(),
            anchored: self.anchored,
        }
    }
}

// ---- paths -----------------------------------------------------------------------------

/// A path below another; an absolute one stands for itself.
pub open spec fn below(root: Seq<char>, rel: Seq<char>) -> Seq<char> {
    if begins(rel, "/"@) || root.len() == 0 {
        rel
    } else if ends(root, "/"@) {
        root + rel
    } else {
        root + "/"@ + rel
    }
}

/// A path below another.
pub fn join_path(root: &str, rel: &str) -> (r: String)
    ensures
        r@ == below(root@, rel@),
{
    if starts_with(rel, "/") || empty(root) {
        copy_text(rel)
    } else if ends_with(root, "/") {
        cat(root, rel)
    } else {
        let mut r: String = cat(root, "/");
        r.push_str(rel);
        r
    }
}

/// The parts of a path from the `i`-th on that name something.
pub open spec fn named_parts(parts: Seq<Seq<char>>) -> Seq<Seq<char>>
    decreases parts.len(),
{
    if parts.len() == 0 {
        seq![]
    } else if parts.last().len() == 0 || parts.last() == "."@ {
        named_parts(parts.drop_last())
    } else {
        named_parts(parts.drop_last()).push(parts.last())
    }
}

/// The name of the last part of a path; a path that ends with `..` has none.
pub open spec fn file_name_of(path: Seq<char>) -> Seq<char> {
    let parts = named_parts(split(path, '/'));
    if parts.len() == 0 || parts.last() == ".."@ {
        seq![]
    } else {
        parts.last()
    }
}

/// The name of the last part of a path.
pub fn file_name(path: &str) -> (r: String)
    ensures
        r@ == file_name_of(path@),
{
    let ps: Vec<String> = pieces(path, '/');
    let ghost w = views(ps@);
    let mut i: usize = ps.len();
    assert(w.take(i as int) =~= w);
    while i > 0
        invariant
            i <= ps@.len(),
            w == views(ps@),
            w == split(path@, '/'),
            named_parts(w) == named_parts(w.take(i as int)),
        decreases i,
    {
        let p: &String = &ps[i - 1];
        proof {
            assert(w.take(i as int).drop_last() =~= w.take(i - 1));
            assert(w.take(i as int).last() == p@);
        }
        if !empty(p.as_str()) && !same(p.as_str(), ".") {
            if same(p.as_str(), "..") {
                return String::new();
            }
            return copy_text(p.as_str());
        }
        i = i - 1;
    }
    assert(w.take(0) =~= seq![]);
    String::new()
}

/// A text without the slashes at its end.
pub open spec fn no_back_slashes(s: Seq<char>) -> Seq<char>
    decreases s.len(),
{
    if s.len() > 0 && s.last() == '/' {
        no_back_slashes(s.drop_last())
    } else {
        s
    }
}

/// A text without the slashes at its front.
pub open spec fn no_front_slashes(s: Seq<char>) -> Seq<char>
    decreases s.len(),
{
    if s.len() > 0 && s[0] == '/' {
        no_front_slashes(s.skip(1))
    } else {
        s
    }
}

/// A path relative to a root, with `/` between its parts; one outside the root stays as it is.
pub open spec fn relative(root: Seq<char>, path: Seq<char>) -> Seq<char> {
    let r = no_back_slashes(root);
    replace(
        if begins(path, r) && (path.len() == r.len() || path[r.len() as int] == '/') && root.len() > 0 {
            no_front_slashes(path.skip(r.len() as int))
        } else {
            path
        },
        "\\"@,
        "/"@,
    )
}

/// A path relative to a root.
pub fn relative_path(root: &str, path: &str) -> (r: String)
    ensures
        r@ == relative(root@, path@),
{
    let rs: Vec<char> = chars_of(root);
    let mut n: usize = rs.len();
    assert(rs@.take(n as int) =~= rs@);
    while n > 0 && rs[n - 1] == '/'
        invariant
            n <= rs@.len(),
            no_back_slashes(rs@) == no_back_slashes(rs@.take(n as int)),
        decreases n,
    {
        assert(rs@.take(n as int).drop_last() =~= rs@.take(n - 1));
        n = n - 1;
    }
    let base: String = sub_text(rs.as_slice(), 0, n);
    assert(base@ =~= rs@.take(n as int));
    assert(base@ == no_back_slashes(root@));
    let ps: Vec<char> = chars_of(path);
    let kept: String = if rs.len() > 0 && starts_with(path, base.as_str()) && (ps.len() == n || ps[n]
        == '/') {
        let mut i: usize = n;
        while i < ps.len() && ps[i] == '/'
            invariant
                n <= i <= ps@.len(),
                no_front_slashes(ps@.skip(n as int)) == no_front_slashes(ps@.skip(i as int)),
            decreases ps@.len() - i,
        {
            assert(ps@.skip(i as int).skip(1) =~= ps@.skip(i + 1));
            i = i + 1;
        }
        let t: String = sub_text(ps.as_slice(), i, ps.len());
        assert(t@ =~= ps@.skip(i as int));
        t
    } else {
        copy_text(path)
    };
    proof {
        reveal_strlit("\\");
    }
    replaced(kept.as_str(), "\\", "/")
}

/// The nearest of directories, given from the inside out, that is marked.
pub open spec fn nearest(dirs: Seq<Seq<char>>, marked: Seq<bool>, i: int) -> Option<Seq<char>>
    decreases dirs.len() - i,
{
    if i < 0 || i >= dirs.len() || i >= marked.len() {
        None
    } else if marked[i] {
        Some(dirs[i])
    } else {
        nearest(dirs, marked, i + 1)
    }
}

/// The root of the workspace that a directory lies in: the nearest of the directory and those
/// above it, given from the inside out, that holds an `application.yml`.
pub fn nearest_root(dirs: &Vec<String>, holds_config: &Vec<bool>) -> (r: Option<String>)
    ensures
        opt_view(r) == nearest(views(dirs@), holds_config@, 0),
{
    let mut i: usize = 0;
    while i < dirs.len() && i < holds_config.len()
        invariant
            i <= dirs@.len(),
            i <= holds_config@.len(),
            nearest(views(dirs@), holds_config@, 0) == nearest(views(dirs@), holds_config@, i as int),
        decreases dirs@.len() - i,
    {
        if holds_config[i] {
            assert(views(dirs@)[i as int] == dirs@[i as int]@);
            return Some(copy_text(dirs[i].as_str()));
        }
        i = i + 1;
    }
    None
}

// ---- workspaces ------------------------------------------------------------------------

/// The workspace of a directory whose `application.yml` has a text; a directory without one has
/// the defaults.
pub open spec fn opened(root: Seq<char>, config: Option<Seq<char>>, quoted: Option<u64>) -> WorkspaceView {
    let text = match config {
        Some(t) => t,
        None => seq![],
    };
    WorkspaceView {
        root,
        config_text: text,
        environments: environments_read(loaded(text)),
        settings: settings_read(loaded(text), quoted),
        anchored: config is Some,
    }
}

/// The first environment, or `default`.
pub open spec fn first_env(envs: Seq<(Seq<char>, JsonView)>) -> Seq<char> {
    if envs.len() == 0 {
        "default"@
    } else {
        envs[0].0
    }
}

/// An environment by its name; without a name the first one. One that is not there has no
/// variables.
pub open spec fn env_of(ws: WorkspaceView, name: Option<Seq<char>>) -> EnvironmentInfoView {
    let n = match name {
        Some(n) => n,
        None => first_env(ws.environments),
    };
    EnvironmentInfoView { name: n, vars: vars_of(ws.environments, n) }
}

/// The settings of a client in a workspace. The certificate is found from the root; the jar
/// lies in the workspace, and a directory that is no workspace has none.
pub open spec fn client_of(ws: WorkspaceView, proxy: Option<ProxyConfigView>) -> ClientConfigView {
    let s = ws.settings;
    ClientConfigView {
        proxy,
        options: Some(
            RequestOptionsView {
                verify_ssl: if s.verify_ssl {
                    None
                } else {
                    Some(false)
                },
                ca_cert_path: if s.use_custom_ca && s.ca_cert.len() > 0 {
                    Some(below(ws.root, s.ca_cert))
                } else {
                    None
                },
                timeout_ms: if s.timeout_ms > 0 {
                    Some(s.timeout_ms)
                } else {
                    None
                },
            },
        ),
        cookies: Some(
            CookieConfigView {
                enabled: s.cookies && ws.anchored,
                jar_path: if ws.anchored {
                    Some(below(ws.root, COOKIE_JAR@))
                } else {
                    None
                },
            },
        ),
    }
}

/// How a batch is run in a workspace unless something else is said.
pub open spec fn opts_of(
    ws: WorkspaceView,
    env: EnvironmentInfoView,
    proxy: Option<ProxyConfigView>,
) -> RunOptsView {
    RunOptsView {
        concurrency: ws.settings.concurrency,
        continue_on_assertion_failure: ws.settings.continue_on_assertion_failure,
        client: client_of(ws, proxy),
        ..batch_opts(env)
    }
}

impl Workspace {
    /// Opens the workspace of a directory whose `application.yml` was read. `quoted` stands for
    /// a time limit that is written as text.
    pub fn open(root: String, config: Option<String>, quoted: Option<u64>) -> (r: Self)
        ensures
            r@ == opened(root@, opt_view(config), quoted),
    {
        let anchored: bool = config.is_some();
        let config_text: String = match config {
            Some(t) => t,
            None => {
                let none: String = String::new();
                assert(none@ =~= seq![]);
                none
            },
        };
        let read: Result<Json, String> = load(config_text.as_str());
        Workspace {
            environments: environments_of(&read),
            settings: settings_in(&read, quoted),
            root,
            config_text,
            anchored,
        }
    }

    /// Whether nothing is written into the directory, since it is no workspace.
    pub fn is_scratch(&self) -> (r: bool)
        ensures
            r == !self@.anchored,
    {
        !self.anchored
    }

    /// The name of the directory.
    pub fn name(&self) -> (r: String)
        ensures
            r@ == file_name_of(self@.root),
    {
        file_name(self.root.as_str())
    }

    /// The workspace as reports name it.
    pub fn info(&self) -> (r: WorkspaceInfo)
        ensures
            r@ == (WorkspaceInfoView { name: file_name_of(self@.root), root: self@.root }),
    {
        WorkspaceInfo { name: self.name(), root: copy_text(self.root.as_str()) }
    }

    /// The names of the environments, in the order in which they are written.
    pub fn env_names(&self) -> (r: Vec<String>)
        ensures
            views(r@) == self@.environments.map_values(|e: (Seq<char>, JsonView)| e.0),
    {
        let mut out: Vec<String> = Vec::new();
        let mut i: usize = 0;
        while i < self.environments.len()
            invariant
                i <= self.environments@.len(),
                out@.len() == i,
                forall|k: int| 0 <= k < i ==> (#[trigger] out@[k])@ == self.environments@[k].name@,
            decreases self.environments@.len() - i,
        {
            out.push(copy_text(self.environments[i].name.as_str()));
            i = i + 1;
        }
        assert(views(out@) =~= self@.environments.map_values(|e: (Seq<char>, JsonView)| e.0));
        out
    }

    /// The environment that is used unless another is named.
    pub fn default_env(&self) -> (r: String)
        ensures
            r@ == first_env(self@.environments),
    {
        if self.environments.len() == 0 {
            copy_text("default")
        } else {
            copy_text(self.environments[0].name.as_str())
        }
    }

    /// An environment by its name.
    pub fn env_info(&self, name: Option<&str>) -> (r: EnvironmentInfo)
        ensures
            r@ == env_of(self@, opt_text(name)),
    {
        let n: String = match name {
            Some(n) => copy_text(n),
            None => self.default_env(),
        };
        EnvironmentInfo { vars: env_vars(&self.environments, n.as_str()), name: n }
    }

    /// The settings of a client in the workspace.
    pub fn client_config(&self, proxy: Option<ProxyConfig>) -> (r: ClientConfig)
        ensures
            r@ == client_of(self@, opt_view(proxy)),
    {
        let s: &WorkspaceSettings = &self.settings;
        ClientConfig {
            proxy,
            options: Some(
                RequestOptions {
                    verify_ssl: if s.verify_ssl {
                        None
                    } else {
                        Some(false)
                    },
                    ca_cert_path: if s.use_custom_ca && !empty(s.ca_cert.as_str()) {
                        Some(join_path(self.root.as_str(), s.ca_cert.as_str()))
                    } else {
                        None
                    },
                    timeout_ms: if s.timeout_ms > 0 {
                        Some(s.timeout_ms)
                    } else {
                        None
                    },
                },
            ),
            cookies: Some(
                CookieConfig {
                    enabled: s.cookies && self.anchored,
                    jar_path: if self.anchored {
                        Some(self.jar_path())
                    } else {
                        None
                    },
                },
            ),
        }
    }

    /// How a batch is run in the workspace unless something else is said.
    pub fn run_opts(&self, env: EnvironmentInfo, proxy: Option<ProxyConfig>) -> (r: RunOpts)
        ensures
            r@ == opts_of(self@, env@, opt_view(proxy)),
    {
        let mut o: RunOpts = RunOpts::for_batch(env);
        o.concurrency = self.settings.concurrency;
        o.continue_on_assertion_failure = self.settings.continue_on_assertion_failure;
        o.client = self.client_config(proxy);
        o
    }

    /// The directory of reports.
    pub fn reports_dir(&self) -> (r: String)
        ensures
            r@ == below(self@.root, REPORTS_DIR@),
    {
        join_path(self.root.as_str(), REPORTS_DIR)
    }

    /// The file of the cookie jar.
    pub fn jar_path(&self) -> (r: String)
        ensures
            r@ == below(self@.root, COOKIE_JAR@),
    {
        join_path(self.root.as_str(), COOKIE_JAR)
    }

    /// A path relative to the root; one outside the workspace stays as it is.
    pub fn rel(&self, path: &str) -> (r: String)
        ensures
            r@ == relative(self@.root, path@),
    {
        relative_path(self.root.as_str(), path)
    }

    /// A path that is given relative to the root.
    pub fn resolve(&self, target: &str) -> (r: String)
        ensures
            r@ == below(self@.root, target@),
    {
        join_path(self.root.as_str(), target)
    }
}

/// A directory that is no workspace has no cookie jar: nothing is written into it.
pub proof fn law_scratch_keeps_no_cookies(ws: WorkspaceView, proxy: Option<ProxyConfigView>)
    requires
        !ws.anchored,
    ensures
        !client_of(ws, proxy).cookies->0.enabled,
        client_of(ws, proxy).cookies->0.jar_path is None,
{
}

// ---- the list of files that are not kept -----------------------------------------------

/// Whether a line leaves the data of the tool out of a repository.
pub open spec fn ignores_data(line: Seq<char>) -> bool {
    trim(line) == ".apicase/"@ || trim(line) == ".apicase"@
}

/// Whether a `.gitignore` leaves the data of the tool out.
pub open spec fn ignored(text: Seq<char>) -> bool {
    exists|i: int| 0 <= i < split(text, '\n').len() && ignores_data(#[trigger] split(text, '\n')[i])
}

/// A `.gitignore` that leaves the data of the tool out; nothing where it does so already.
pub open spec fn gitignored(text: Seq<char>) -> Option<Seq<char>> {
    if ignored(text) {
        None
    } else if text.len() == 0 || text.last() == '\n' {
        Some(text + ".apicase/\n"@)
    } else {
        Some(text + "\n.apicase/\n"@)
    }
}

/// A `.gitignore` that leaves the data of the tool out; nothing where it does so already.
pub fn gitignore_text(text: &str) -> (r: Option<String>)
    ensures
        opt_view(r) == gitignored(text@),
{
    let ls: Vec<String> = pieces(text, '\n');
    let mut i: usize = 0;
    while i < ls.len()
        invariant
            i <= ls@.len(),
            views(ls@) == split(text@, '\n'),
            forall|k: int| 0 <= k < i ==> !ignores_data(#[trigger] split(text@, '\n')[k]),
        decreases ls@.len() - i,
    {
        assert(views(ls@)[i as int] == ls@[i as int]@);
        let l: String = trimmed(ls[i].as_str());
        if same(l.as_str(), ".apicase/") || same(l.as_str(), ".apicase") {
            return None;
        }
        i = i + 1;
    }
    let cs: Vec<char> = chars_of(text);
    if cs.len() == 0 || cs[cs.len() - 1] == '\n' {
        Some(cat(text, ".apicase/\n"))
    } else {
        Some(cat(text, "\n.apicase/\n"))
    }
}

/// One writing is enough: what `gitignored` gives keeps every line and leaves the data of the
/// tool out, so that there is nothing to write a second time.
pub proof fn law_ignored_once(text: Seq<char>)
    ensures
        gitignored(text) is Some ==> {
            &&& text.is_prefix_of(gitignored(text)->0)
            &&& gitignored(gitignored(text)->0) is None
        },
{
    if !ignored(text) {
        let u = gitignored(text)->0;
        reveal_strlit(".apicase/\n");
        reveal_strlit("\n.apicase/\n");
        reveal_strlit(".apicase/");
        let line = ".apicase/"@;
        let none: Seq<char> = seq![];
        assert(!line.contains('\n'));
        assert(!none.contains('\n'));
        assert(trim(line) == line);
        if text.len() == 0 {
            law_split_joined(seq![line], '\n');
            assert(join(seq![line], seq!['\n']) =~= line);
            lemma_split_append(line, '\n', none, 0);
            assert(u =~= line + seq!['\n'] + none);
            assert(split(u, '\n') == split(line, '\n').push(none));
            assert(split(u, '\n')[0] == line);
        } else {
            let head = if text.last() == '\n' {
                text.drop_last()
            } else {
                text
            };
            let mid = head + seq!['\n'] + line;
            lemma_split_append(head, '\n', line, 0);
            lemma_split_append(mid, '\n', none, 0);
            assert(u =~= mid + seq!['\n'] + none);
            let n = split(head, '\n').len() as int;
            assert(split(u, '\n')[n] == line);
        }
        assert(ignored(u));
    }
}

// ---- names of reports ------------------------------------------------------------------

/// A name without `.yml` or `.yaml` at its end; a name that is nothing else stays.
pub open spec fn no_yaml_ext(name: Seq<char>) -> Seq<char> {
    if name.len() > 4 && lower(name.skip(name.len() - 4)) == lower(".yml"@) {
        name.take(name.len() - 4)
    } else if name.len() > 5 && lower(name.skip(name.len() - 5)) == lower(".yaml"@) {
        name.take(name.len() - 5)
    } else {
        name
    }
}

/// A name without `.yml` or `.yaml` at its end.
fn strip_yaml_ext(name: &str) -> (r: String)
    ensures
        r@ == no_yaml_ext(name@),
{
    let cs: Vec<char> = chars_of(name);
    let n: usize = cs.len();
    if n > 4 {
        let tail: String = sub_text(cs.as_slice(), n - 4, n);
        assert(tail@ =~= name@.skip(n - 4));
        if same_ignoring_case(tail.as_str(), ".yml") {
            let r: String = sub_text(cs.as_slice(), 0, n - 4);
            assert(r@ =~= name@.take(n - 4));
            return r;
        }
    }
    if n > 5 {
        let tail: String = sub_text(cs.as_slice(), n - 5, n);
        assert(tail@ =~= name@.skip(n - 5));
        if same_ignoring_case(tail.as_str(), ".yaml") {
            let r: String = sub_text(cs.as_slice(), 0, n - 5);
            assert(r@ =~= name@.take(n - 5));
            return r;
        }
    }
    copy_text(name)
}

/// Whether a character cannot stand in the name of a file.
pub open spec fn is_bad_in_name(c: char) -> bool {
    c == '\\' || c == '/' || c == ':' || c == '*' || c == '?' || c == '"' || c == '<' || c == '>' || c
        == '|' || is_control(c)
}

fn bad_in_name(c: char) -> (r: bool)
    ensures
        r == is_bad_in_name(c),
{
    c == '\\' || c == '/' || c == ':' || c == '*' || c == '?' || c == '"' || c == '<' || c == '>' || c
        == '|' || control(c)
}

/// A name for a file: what cannot stand there becomes `-`, and a run of `-` is one.
pub open spec fn cleaned(s: Seq<char>) -> Seq<char>
    decreases s.len(),
{
    if s.len() == 0 {
        seq![]
    } else {
        let rest = cleaned(s.drop_last());
        if is_bad_in_name(s.last()) || s.last() == '-' {
            if rest.len() > 0 && rest.last() == '-' {
                rest
            } else {
                rest.push('-')
            }
        } else {
            rest.push(s.last())
        }
    }
}

fn clean(s: &str) -> (r: String)
    ensures
        r@ == cleaned(s@),
{
    let cs: Vec<char> = chars_of(s);
    let mut out: String = String::new();
    let mut dash: bool = false;
    assert(cs@.take(0) =~= seq![]);
    let mut i: usize = 0;
    while i < cs.len()
        invariant
            i <= cs@.len(),
            out@ == cleaned(cs@.take(i as int)),
            dash == (out@.len() > 0 && out@.last() == '-'),
        decreases cs@.len() - i,
    {
        assert(cs@.take(i + 1).drop_last() =~= cs@.take(i as int));
        let c: char = cs[i];
        if bad_in_name(c) || c == '-' {
            if !dash {
                out.push('-');
            }
            dash = true;
        } else {
            out.push(c);
            dash = false;
        }
        i = i + 1;
    }
    assert(cs@.take(cs@.len() as int) =~= cs@);
    out
}

/// Whether a character is taken off the ends of a name.
pub open spec fn is_edge(c: char) -> bool {
    c == '-' || c == '.' || is_white(c)
}

/// A text without such characters at its front.
pub open spec fn no_front_edge(s: Seq<char>) -> Seq<char>
    decreases s.len(),
{
    if s.len() > 0 && is_edge(s[0]) {
        no_front_edge(s.skip(1))
    } else {
        s
    }
}

/// A text without such characters at its end.
pub open spec fn no_back_edge(s: Seq<char>) -> Seq<char>
    decreases s.len(),
{
    if s.len() > 0 && is_edge(s.last()) {
        no_back_edge(s.drop_last())
    } else {
        s
    }
}

fn edge(c: char) -> (r: bool)
    ensures
        r == is_edge(c),
{
    c == '-' || c == '.' || white(c)
}

fn trim_edges(s: &str) -> (r: String)
    ensures
        r@ == no_back_edge(no_front_edge(s@)),
{
    let cs: Vec<char> = chars_of(s);
    let mut i: usize = 0;
    assert(cs@.skip(0) =~= cs@);
    while i < cs.len() && edge(cs[i])
        invariant
            i <= cs@.len(),
            no_front_edge(cs@) == no_front_edge(cs@.skip(i as int)),
        decreases cs@.len() - i,
    {
        assert(cs@.skip(i as int).skip(1) =~= cs@.skip(i + 1));
        i = i + 1;
    }
    let ghost front = cs@.skip(i as int);
    let mut j: usize = cs.len();
    assert(cs@.subrange(i as int, j as int) =~= front);
    while j > i && edge(cs[j - 1])
        invariant
            i <= j <= cs@.len(),
            no_back_edge(front) == no_back_edge(cs@.subrange(i as int, j as int)),
        decreases j,
    {
        assert(cs@.subrange(i as int, j as int).drop_last() =~= cs@.subrange(i as int, j - 1));
        j = j - 1;
    }
    sub_text(cs.as_slice(), i, j)
}

/// What the name of a report says of a target.
pub open spec fn target_name(target: Seq<char>) -> Seq<char> {
    clip(
        no_back_edge(no_front_edge(cleaned(no_yaml_ext(last_segment(target))))),
        MAX_NAME_BYTES as nat,
    )
}

fn target_stem(target: &str) -> (r: String)
    ensures
        r@ == target_name(target@),
{
    let base: String = last_part(target);
    let bare: String = strip_yaml_ext(base.as_str());
    let name: String = clean(bare.as_str());
    let inner: String = trim_edges(name.as_str());
    clipped(inner.as_str(), MAX_NAME_BYTES)
}

/// The name of a report: a time and a name, or a time alone.
pub open spec fn report_name(stamp: Seq<char>, name: Seq<char>) -> Seq<char> {
    if name.len() == 0 {
        stamp + ".html"@
    } else {
        stamp + "-"@ + name + ".html"@
    }
}

fn name_report(stamp: &str, name: &str) -> (r: String)
    ensures
        r@ == report_name(stamp@, name@),
{
    if empty(name) {
        cat(stamp, ".html")
    } else {
        let mut r: String = cat(stamp, "-");
        r.push_str(name);
        r.push_str(".html");
        r
    }
}

/// The name of the report of a target.
pub fn report_file_name(stamp: &str, target: &str) -> (r: String)
    ensures
        r@ == report_name(stamp@, target_name(target@)),
{
    let name: String = target_stem(target);
    name_report(stamp, name.as_str())
}

/// What the name of a report says of several targets: the first, and how many there are.
pub open spec fn targets_name(targets: Seq<Seq<char>>) -> Seq<char> {
    if targets.len() == 0 {
        seq![]
    } else if targets.len() == 1 {
        target_name(targets[0])
    } else {
        target_name(targets[0]) + "等"@ + nat_text(targets.len()) + "项"@
    }
}

/// The name of the report of several targets.
pub fn report_file_name_multi(stamp: &str, targets: &Vec<String>) -> (r: String)
    ensures
        r@ == report_name(stamp@, targets_name(views(targets@))),
{
    if targets.len() == 0 {
        let none: String = String::new();
        assert(none@ =~= seq![]);
        return name_report(stamp, none.as_str());
    }
    assert(views(targets@)[0] == targets@[0]@);
    let mut name: String = target_stem(targets[0].as_str());
    if targets.len() > 1 {
        name.push_str("等");
        name.push_str(usize_text(targets.len()).as_str());
        name.push_str("项");
    }
    name_report(stamp, name.as_str())
}

proof fn lemma_cleaned(s: Seq<char>)
    ensures
        forall|i: int| 0 <= i < cleaned(s).len() ==> !is_bad_in_name(#[trigger] cleaned(s)[i]),
    decreases s.len(),
{
    if s.len() > 0 {
        let rest = cleaned(s.drop_last());
        lemma_cleaned(s.drop_last());
        let all = cleaned(s);
        assert forall|i: int| 0 <= i < all.len() implies !is_bad_in_name(#[trigger] all[i]) by {
            if i < rest.len() {
                assert(all[i] == rest[i]);
            }
        }
    }
}

proof fn lemma_front_edge(s: Seq<char>)
    ensures
        exists|i: int| 0 <= i <= s.len() && no_front_edge(s) == #[trigger] s.skip(i),
    decreases s.len(),
{
    if s.len() > 0 && is_edge(s[0]) {
        lemma_front_edge(s.skip(1));
        let i = choose|i: int|
            0 <= i <= s.skip(1).len() && no_front_edge(s.skip(1)) == #[trigger] s.skip(1).skip(i);
        assert(s.skip(1).skip(i) =~= s.skip(i + 1));
    } else {
        assert(s.skip(0) =~= s);
    }
}

proof fn lemma_back_edge(s: Seq<char>)
    ensures
        exists|i: int| 0 <= i <= s.len() && no_back_edge(s) == #[trigger] s.take(i),
    decreases s.len(),
{
    if s.len() > 0 && is_edge(s.last()) {
        lemma_back_edge(s.drop_last());
        let i = choose|i: int|
            0 <= i <= s.drop_last().len() && no_back_edge(s.drop_last()) == #[trigger] s.drop_last().take(i);
        assert(s.drop_last().take(i) =~= s.take(i));
    } else {
        assert(s.take(s.len() as int) =~= s);
    }
}

/// The name of a target in the name of a report can stand in the name of a file, and it is not
/// longer than the limit.
pub proof fn law_report_name(target: Seq<char>)
    ensures
        forall|i: int|
            0 <= i < target_name(target).len() ==> !is_bad_in_name(#[trigger] target_name(target)[i]),
        byte_len(target_name(target)) <= MAX_NAME_BYTES,
{
    let c = cleaned(no_yaml_ext(last_segment(target)));
    lemma_cleaned(no_yaml_ext(last_segment(target)));
    lemma_front_edge(c);
    let f = no_front_edge(c);
    lemma_back_edge(f);
    let b = no_back_edge(f);
    law_clip(b, MAX_NAME_BYTES as nat);
    let i = choose|i: int| 0 <= i <= c.len() && f == #[trigger] c.skip(i);
    let j = choose|j: int| 0 <= j <= f.len() && b == #[trigger] f.take(j);
    let t = target_name(target);
    assert forall|k: int| 0 <= k < t.len() implies !is_bad_in_name(#[trigger] t[k]) by {
        assert(t[k] == b[k]);
        assert(b[k] == c[i + k]);
    }
}

// ---- laws of paths and settings ----------------------------------------------------------

proof fn lemma_no_back_slashes(s: Seq<char>)
    requires
        s.len() > 0 ==> s.last() != '/',
    ensures
        no_back_slashes(s) == s,
{
}

/// A path below a root is told by what it is below it: where a file lies in a workspace, its path
/// relative to the root is the path that was put below the root.
pub proof fn law_below_is_relative(root: Seq<char>, rel: Seq<char>)
    requires
        root.len() > 0,
        root.last() != '/',
        rel.len() > 0,
        rel[0] != '/',
        !rel.contains('\\'),
    ensures
        below(root, rel) == root + "/"@ + rel,
        relative(root, below(root, rel)) == rel,
        relative(root + "/"@, below(root + "/"@, rel)) == rel,
        relative(root, root) == Seq::<char>::empty(),
{
    reveal_strlit("/");
    reveal_strlit("\\");
    let n = root.len() as int;
    let p = root + "/"@ + rel;
    if begins(rel, "/"@) {
        assert(rel.subrange(0, 1)[0] == '/');
    }
    if ends(root, "/"@) {
        assert(root.subrange(n - 1, n)[0] == '/');
    }
    lemma_no_back_slashes(root);
    assert(p.subrange(0, n) =~= root);
    assert(p[n] == '/');
    assert(p.skip(n) =~= "/"@ + rel);
    assert(("/"@ + rel).skip(1) =~= rel);
    reveal_with_fuel(no_front_slashes, 2);
    lemma_no_backslash(rel);
    let slashed = root + "/"@;
    assert(slashed.drop_last() =~= root);
    assert(slashed.subrange(n, n + 1) =~= "/"@);
    assert(slashed + rel =~= p);
    reveal_with_fuel(no_back_slashes, 2);
    assert(root.subrange(0, n) =~= root);
    assert(root.skip(n) =~= seq![]);
    lemma_no_backslash(seq![]);
}

proof fn lemma_no_backslash(s: Seq<char>)
    requires
        !s.contains('\\'),
    ensures
        replace(s, "\\"@, "/"@) == s,
{
    lemma_no_backslash_from(s, 0);
    assert(s.skip(0) =~= s);
}

proof fn lemma_no_backslash_from(s: Seq<char>, i: int)
    requires
        0 <= i <= s.len(),
        !s.contains('\\'),
    ensures
        replace_from(s, "\\"@, "/"@, i) == s.skip(i),
    decreases s.len() - i,
{
    reveal_strlit("\\");
    if i < s.len() {
        if occurs_at(s, "\\"@, i) {
            assert(s.subrange(i, i + 1)[0] == '\\');
            assert(s.contains(s[i]));
        }
        lemma_no_backslash_from(s, i + 1);
        assert(seq![s[i]] + s.skip(i + 1) =~= s.skip(i));
    } else {
        assert(s.skip(i) =~= seq![]);
    }
}

/// An absolute path stands for itself, below whatever root.
pub proof fn law_absolute_stays(root: Seq<char>, path: Seq<char>)
    requires
        path.len() > 0,
        path[0] == '/',
    ensures
        below(root, path) == path,
{
    reveal_strlit("/");
    assert(path.subrange(0, 1) =~= "/"@);
}

/// The name of a file is the last part of its path.
pub proof fn law_file_name(dir: Seq<char>, name: Seq<char>)
    requires
        name.len() > 0,
        !name.contains('/'),
        name != "."@,
        name != ".."@,
    ensures
        file_name_of(dir + "/"@ + name) == name,
        file_name_of(name) == name,
{
    reveal_strlit("/");
    assert("/"@ =~= seq!['/']);
    lemma_split_append(dir, '/', name, 0);
    let parts = split(dir, '/');
    assert(split(dir + "/"@ + name, '/') == parts.push(name));
    assert(parts.push(name).drop_last() =~= parts);
    law_split_joined(seq![name], '/');
    assert(join(seq![name], seq!['/']) == name);
    assert(seq![name].last() == name);
}

/// The nearest directory that is marked is found: the first from the inside out.
pub proof fn law_nearest(dirs: Seq<Seq<char>>, marked: Seq<bool>, from: int, i: int)
    requires
        dirs.len() == marked.len(),
        0 <= from <= i <= dirs.len(),
        forall|k: int| from <= k < i ==> !#[trigger] marked[k],
        i < dirs.len() ==> marked[i],
    ensures
        nearest(dirs, marked, from) == (if i < dirs.len() {
            Some(dirs[i])
        } else {
            None
        }),
    decreases i - from,
{
    if from < i {
        assert(!marked[from]);
        law_nearest(dirs, marked, from + 1, i);
    }
}

/// A directory is a workspace if and only if it has a configuration, even an empty one; what is
/// read of it is what the configuration says.
pub proof fn law_workspace_opened(root: Seq<char>, config: Option<Seq<char>>, quoted: Option<u64>)
    ensures
        opened(root, config, quoted).root == root,
        opened(root, config, quoted).anchored <==> config is Some,
        config is Some ==> {
            &&& opened(root, config, quoted).config_text == config->0
            &&& opened(root, config, quoted).environments == environments_read(loaded(config->0))
            &&& opened(root, config, quoted).settings == settings_read(loaded(config->0), quoted)
        },
        config is None ==> opened(root, config, quoted).settings == opened(
            root,
            Some(seq![]),
            quoted,
        ).settings,
{
}

/// An environment is taken by its name, the first if none is named, and `default` where there is
/// none; its variables are those that the workspace has under that name.
pub proof fn law_environment_chosen(ws: WorkspaceView, name: Option<Seq<char>>)
    ensures
        name is Some ==> env_of(ws, name).name == name->0,
        name is None && ws.environments.len() > 0 ==> env_of(ws, name).name
            == ws.environments[0].0,
        name is None && ws.environments.len() == 0 ==> env_of(ws, name).name == "default"@,
        env_of(ws, name).vars == vars_of(ws.environments, env_of(ws, name).name),
{
}

/// The settings of a workspace are those of its client, one by one: certificates are checked
/// unless that is switched off, a certificate counts if it is switched on and named, a limit if it
/// is not zero, and cookies are kept in a workspace unless that is switched off.
pub proof fn law_client_settings(ws: WorkspaceView, proxy: Option<ProxyConfigView>)
    ensures
        ({
            let c = client_of(ws, proxy);
            let s = ws.settings;
            &&& c.proxy == proxy
            &&& c.options is Some && c.cookies is Some
            &&& c.options->0.verify_ssl == Some(false) <==> !s.verify_ssl
            &&& c.options->0.verify_ssl is None <==> s.verify_ssl
            &&& c.options->0.ca_cert_path is Some <==> s.use_custom_ca && s.ca_cert.len() > 0
            &&& s.use_custom_ca && s.ca_cert.len() > 0 ==> c.options->0.ca_cert_path == Some(
                below(ws.root, s.ca_cert),
            )
            &&& s.timeout_ms == 0 ==> c.options->0.timeout_ms is None
            &&& s.timeout_ms > 0 ==> c.options->0.timeout_ms == Some(s.timeout_ms)
            &&& c.cookies->0.enabled <==> s.cookies && ws.anchored
            &&& ws.anchored ==> c.cookies->0.jar_path == Some(below(ws.root, ".apicase/cookies.yml"@))
        }),
{
}

/// How a batch is run in a workspace: as the settings say, and as every batch is for the rest.
pub proof fn law_batch_settings(
    ws: WorkspaceView,
    env: EnvironmentInfoView,
    proxy: Option<ProxyConfigView>,
)
    ensures
        opts_of(ws, env, proxy).concurrency == ws.settings.concurrency,
        opts_of(ws, env, proxy).continue_on_assertion_failure
            == ws.settings.continue_on_assertion_failure,
        opts_of(ws, env, proxy).environment == env,
        !opts_of(ws, env, proxy).stop_on_failure,
        opts_of(ws, env, proxy).redact,
        opts_of(ws, env, proxy).client == client_of(ws, proxy),
{
}

proof fn lemma_plain_cleaned(s: Seq<char>)
    requires
        forall|i: int| 0 <= i < s.len() ==> !is_bad_in_name(#[trigger] s[i]),
        forall|i: int| 0 <= i < s.len() ==> (#[trigger] s[i]) != '-',
    ensures
        cleaned(s) == s,
    decreases s.len(),
{
    if s.len() > 0 {
        let d = s.drop_last();
        assert forall|i: int| 0 <= i < d.len() implies !is_bad_in_name(#[trigger] d[i]) && d[i]
            != '-' by {
            assert(d[i] == s[i]);
        }
        lemma_plain_cleaned(d);
        assert(!is_bad_in_name(s[s.len() - 1]) && s[s.len() - 1] != '-');
        assert(d.push(s.last()) =~= s);
    } else {
        assert(cleaned(s) =~= s);
    }
}

/// What the name of a report says of a file is the name of the file without its ending, where that
/// is a name that a file can have and not too long; of several targets it says the first and how
/// many there are.
pub proof fn law_name_of_report(name: Seq<char>, others: Seq<Seq<char>>)
    requires
        name.len() > 0,
        forall|i: int| 0 <= i < name.len() ==> !is_bad_in_name(#[trigger] name[i]),
        forall|i: int| 0 <= i < name.len() ==> (#[trigger] name[i]) != '-',
        !is_edge(name[0]),
        !is_edge(name.last()),
        byte_len(name) <= 60,
    ensures
        target_name(name + ".yml"@) == name,
        target_name(name + ".yaml"@) == name,
        targets_name(seq![name + ".yml"@]) == name,
        others.len() > 0 ==> targets_name(seq![name + ".yml"@] + others) == name + "等"@ + nat_text(
            others.len() + 1,
        ) + "项"@,
{
    reveal_strlit(".yml");
    reveal_strlit(".yaml");
    let n = name.len() as int;
    let a = name + ".yml"@;
    let b = name + ".yaml"@;
    assert forall|i: int| 0 <= i < a.len() implies !crate::text::is_slash(#[trigger] a[i]) by {
        if i < n {
            assert(a[i] == name[i]);
        }
    }
    assert forall|i: int| 0 <= i < b.len() implies !crate::text::is_slash(#[trigger] b[i]) by {
        if i < n {
            assert(b[i] == name[i]);
        }
    }
    lemma_one_segment(a);
    lemma_one_segment(b);
    assert(a.skip(n) =~= ".yml"@);
    assert(a.take(n) =~= name);
    assert(b.skip(n) =~= ".yaml"@);
    assert(b.take(n) =~= name);
    assert(no_yaml_ext(a) == name);
    assert(b.skip(b.len() - 4)[0] == 'y');
    assert(lower(b.skip(b.len() - 4))[0] == 'y');
    assert(lower(".yml"@)[0] == '.');
    assert(no_yaml_ext(b) == name);
    lemma_plain_cleaned(name);
    assert(no_front_edge(name) == name);
    assert(no_back_edge(name) == name);
    law_clip(name, 60);
    if others.len() > 0 {
        assert((seq![a] + others)[0] == a);
    }
}

proof fn lemma_one_segment(s: Seq<char>)
    requires
        forall|i: int| 0 <= i < s.len() ==> !crate::text::is_slash(#[trigger] s[i]),
    ensures
        last_segment(s) == s,
    decreases s.len(),
{
    if s.len() > 0 {
        let d = s.drop_last();
        assert forall|i: int| 0 <= i < d.len() implies !crate::text::is_slash(#[trigger] d[i]) by {
            assert(d[i] == s[i]);
        }
        lemma_one_segment(d);
        assert(!crate::text::is_slash(s[s.len() - 1]));
        assert(d.push(s.last()) =~= s);
    } else {
        assert(last_segment(s) =~= s);
    }
}

/// A report is named by the time, and by the name if there is one.
pub proof fn law_report_named(stamp: Seq<char>, name: Seq<char>)
    ensures
        report_name(stamp, seq![]) == stamp + ".html"@,
        name.len() > 0 ==> report_name(stamp, name) == stamp + "-"@ + name + ".html"@,
{
}

/// Only the endings of case files are left out of a name, in whatever case they are written, and
/// never the whole name.
pub proof fn law_ending_left_out(stem: Seq<char>, ending: Seq<char>, name: Seq<char>)
    ensures
        stem.len() > 0 && (lower(ending) == lower(".yml"@) || lower(ending) == lower(".yaml"@))
            ==> no_yaml_ext(stem + ending) == stem,
        name.len() <= 4 ==> no_yaml_ext(name) == name,
        name.len() > 4 && lower(name.skip(name.len() - 4)) != lower(".yml"@) && lower(
            name.skip(name.len() - 5),
        ) != lower(".yaml"@) ==> no_yaml_ext(name) == name,
        lower(name) == lower(".yaml"@) ==> no_yaml_ext(name) == name,
{
    reveal_strlit(".yml");
    reveal_strlit(".yaml");
    let y = lower(".yml"@);
    let z = lower(".yaml"@);
    assert(y.len() == 4 && z.len() == 5);
    assert(y[0] == '.' && z[0] == '.' && z[1] == 'y');
    if stem.len() > 0 && (lower(ending) == y || lower(ending) == z) {
        let s = stem + ending;
        assert(ending.len() == lower(ending).len());
        assert(s.skip(stem.len() as int) =~= ending);
        assert(s.take(stem.len() as int) =~= stem);
        if lower(ending) == z {
            let t = lower(s.skip(s.len() - 4));
            assert(s.skip(s.len() - 4)[0] == ending[1]);
            assert(t[0] == lower(ending)[1]);
        }
    }
    if lower(name) == z {
        assert(name.len() == lower(name).len());
        let t = lower(name.skip(1));
        assert(name.skip(1)[0] == name[1]);
        assert(t[0] == lower(name)[1]);
    }
}

/// In a name every character that a file name cannot have becomes a hyphen, several of them and the
/// hyphens beside them only one; every other character is kept.
pub proof fn law_cleaned(s: Seq<char>, c: char, i: int)
    ensures
        cleaned(seq![]).len() == 0,
        !is_bad_in_name(c) && c != '-' ==> cleaned(s.push(c)) == cleaned(s).push(c),
        (c == '/' || c == '\\' || c == ':' || c == '*' || c == '?' || c == '"' || c == '<' || c == '>'
            || c == '|' || c == '-' || is_control(c)) ==> cleaned(s.push(c)).last() == '-'
            && cleaned(s.push(c).push(c)) == cleaned(s.push(c)),
        0 <= i < cleaned(s).len() ==> !is_bad_in_name(cleaned(s)[i]) && (i > 0 && cleaned(s)[i] == '-'
            ==> cleaned(s)[i - 1] != '-'),
{
    let a = s.push(c);
    assert(a.drop_last() =~= s);
    assert(a.push(c).drop_last() =~= a);
    if 0 <= i < cleaned(s).len() {
        lemma_cleaned_at(s, i);
    }
}

proof fn lemma_cleaned_at(s: Seq<char>, i: int)
    requires
        0 <= i < cleaned(s).len(),
    ensures
        !is_bad_in_name(cleaned(s)[i]),
        i > 0 && cleaned(s)[i] == '-' ==> cleaned(s)[i - 1] != '-',
    decreases s.len(),
{
    if s.len() > 0 {
        let rest = cleaned(s.drop_last());
        if i < rest.len() {
            lemma_cleaned_at(s.drop_last(), i);
        }
    }
}

} // verus!
