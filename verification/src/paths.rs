//! Where the application keeps its settings, and what of them bears on a run.
//!
//! Nothing here is an error: what is missing or cannot be read falls back to the defaults.
use crate::http::{ProxyConfig, ProxyConfigView};
use crate::json::{member, parse_json, parsed_json, Json, JsonView};
use crate::table::lookup;
use crate::text::{
    begins, blank, copy_text, duplicate_opt, empty, is_blank, opt_text, opt_view, same, starts_with,
    trim, trimmed, Duplicate,
};
use crate::workspace::{below, join_path};
use vstd::prelude::*;

verus! {

/// The identifier of the application, which older settings are found by.
pub const APP_IDENTIFIER: &'static str = "com.apicase.app";

/// The directory of the application below the home directory.
pub const APP_DIR_NAME: &'static str = ".apicase";

/// The file of the settings.
pub const SETTINGS_FILE: &'static str = "settings.json";

/// The variable of the environment that names another directory.
pub const HOME_ENV: &'static str = "APICASE_HOME";

/// What the settings of the application say about a run.
#[derive(Debug, Clone, PartialEq)]
pub struct AppPrefs {
    /// Nothing follows the system.
    pub proxy: Option<ProxyConfig>,
}

/// What a `AppPrefs` stands for.
#[verifier::ext_equal]
pub struct AppPrefsView {
    pub proxy: Option<ProxyConfigView>,
}

impl View for AppPrefs {
    type V = AppPrefsView;

    open spec fn view(&self) -> AppPrefsView {
        AppPrefsView {
            proxy: opt_view(self.proxy),
        }
    }
}

impl Duplicate for AppPrefs {
    fn duplicate(&self) -> (r: Self) {
        AppPrefs {
            proxy: duplicate_opt(&self.proxy),
        }
    }
}

/// Settings that say nothing.
pub open spec fn no_prefs() -> AppPrefsView {
    AppPrefsView { proxy: None }
}

impl Default for AppPrefs {
    fn default() -> (r: Self)
        ensures
            r@ == no_prefs(),
    {
        AppPrefs { proxy: None }
    }
}

/// A member of a value that is an object.
pub open spec fn get(v: JsonView, k: Seq<char>) -> Option<JsonView> {
    match v {
        JsonView::Object(m) => lookup(m, k),
        _ => None,
    }
}

/// The proxy of the settings. `none` and `custom` are known; a custom one needs an address.
/// Everything else follows the system.
pub open spec fn proxy_in(v: JsonView) -> Option<ProxyConfigView> {
    let url = match get(v, "url"@) {
        Some(JsonView::Str(s)) => if is_blank(s) {
            None
        } else {
            Some(trim(s))
        },
        _ => None,
    };
    match get(v, "mode"@) {
        Some(JsonView::Str(mode)) => if mode == "none"@ || (mode == "custom"@ && url is Some) {
            Some(ProxyConfigView { mode, url })
        } else {
            None
        },
        _ => None,
    }
}

/// What settings say about a run; settings that cannot be read say nothing.
pub open spec fn prefs_in(read: Option<JsonView>) -> AppPrefsView {
    AppPrefsView {
        proxy: match read {
            Some(v) => match get(v, "proxy"@) {
                Some(p) => proxy_in(p),
                None => None,
            },
            None => None,
        },
    }
}

/// A member of a value that is an object.
fn member_of<'a>(v: &'a Json, k: &str) -> (r: Option<&'a Json>)
    ensures
        match r {
            Some(j) => get(v@, k@) == Some(j@),
            None => get(v@, k@) is None,
        },
{
    match v.as_object() {
        Some(m) => member(m, k),
        None => None,
    }
}

/// The proxy of the settings.
fn parse_proxy(v: &Json) -> (r: Option<ProxyConfig>)
    ensures
        opt_view(r) == proxy_in(v@),
{
    let mode: &String = match member_of(v, "mode") {
        Some(Json::Str(s)) => s,
        _ => {
            return None;
        },
    };
    let url: Option<String> = match member_of(v, "url") {
        Some(Json::Str(s)) => if blank(s.as_str()) {
            None
        } else {
            Some(trimmed(s.as_str()))
        },
        _ => None,
    };
    let custom: bool = same(mode.as_str(), "custom");
    if same(mode.as_str(), "none") || (custom && url.is_some()) {
        Some(ProxyConfig { mode: copy_text(mode.as_str()), url })
    } else {
        None
    }
}

/// What settings that were read say about a run.
pub fn prefs_of(read: &Option<Json>) -> (r: AppPrefs)
    ensures
        r@ == prefs_in(opt_view(*read)),
{
    match read {
        Some(v) => match member_of(v, "proxy") {
            Some(p) => AppPrefs { proxy: parse_proxy(p) },
            None => AppPrefs { proxy: None },
        },
        None => AppPrefs { proxy: None },
    }
}

/// What the text of settings says about a run.
pub fn parse_app_prefs(text: &str) -> (r: AppPrefs)
    ensures
        r@ == prefs_in(parsed_json(text@)),
{
    prefs_of(&parse_json(text))
}

/// A path that was given, if it is an absolute one.
pub open spec fn absolute(p: Option<Seq<char>>) -> Option<Seq<char>> {
    match p {
        Some(t) => if begins(t, "/"@) {
            Some(t)
        } else {
            None
        },
        None => None,
    }
}

/// A path that was given, if it is an absolute one.
fn only_absolute(p: Option<&str>) -> (r: Option<String>)
    ensures
        opt_view(r) == absolute(opt_text(p)),
{
    match p {
        Some(t) => if starts_with(t, "/") {
            Some(copy_text(t))
        } else {
            None
        },
        None => None,
    }
}

/// A path below a directory, where there is one.
pub open spec fn below_dir(dir: Option<Seq<char>>, rel: Seq<char>) -> Option<Seq<char>> {
    match dir {
        Some(d) => Some(below(d, rel)),
        None => None,
    }
}

/// A path below a directory, where there is one.
fn join_dir(dir: Option<&str>, rel: &str) -> (r: Option<String>)
    ensures
        opt_view(r) == below_dir(opt_text(dir), rel@),
{
    match dir {
        Some(d) => Some(join_path(d, rel)),
        None => None,
    }
}

/// The directory of the application: the one that is pinned, or one below the home directory.
/// What is pinned counts only where it is absolute.
pub open spec fn config_dir(pinned: Option<Seq<char>>, home: Option<Seq<char>>) -> Option<Seq<char>> {
    match absolute(pinned) {
        Some(p) => Some(p),
        None => below_dir(home, APP_DIR_NAME@),
    }
}

/// The directory of the application. `pinned` is what the environment names, if it does.
pub fn app_config_dir(pinned: Option<&str>, home: Option<&str>) -> (r: Option<String>)
    ensures
        opt_view(r) == config_dir(opt_text(pinned), opt_text(home)),
{
    match only_absolute(pinned) {
        Some(p) => Some(p),
        None => join_dir(home, APP_DIR_NAME),
    }
}

/// The file of the settings in a directory.
pub open spec fn settings_below(dir: Option<Seq<char>>) -> Option<Seq<char>> {
    match dir {
        Some(d) => Some(below(d, SETTINGS_FILE@)),
        None => None,
    }
}

/// The file of the settings.
pub fn app_settings_file(pinned: Option<&str>, home: Option<&str>) -> (r: Option<String>)
    ensures
        opt_view(r) == settings_below(config_dir(opt_text(pinned), opt_text(home))),
{
    match app_config_dir(pinned, home) {
        Some(d) => Some(join_path(d.as_str(), SETTINGS_FILE)),
        None => None,
    }
}

/// A system, by where its applications keep their settings.
#[derive(Debug, Clone, Copy, PartialEq, Eq, Structural)]
pub enum System {
    Mac,
    Windows,
    Other,
}

/// The directory for settings of a system. `given` is the one that the environment names: it
/// counts on Windows where it is not empty, elsewhere where it is absolute, and never on a Mac.
pub open spec fn system_dir(
    system: System,
    given: Option<Seq<char>>,
    home: Option<Seq<char>>,
) -> Option<Seq<char>> {
    match system {
        System::Mac => below_dir(below_dir(home, "Library"@), "Application Support"@),
        System::Windows => match given {
            Some(g) => if g.len() > 0 {
                Some(g)
            } else {
                None
            },
            None => None,
        },
        System::Other => match absolute(given) {
            Some(g) => Some(g),
            None => below_dir(home, ".config"@),
        },
    }
}

/// The directory for settings of a system.
pub fn legacy_config_base(system: System, given: Option<&str>, home: Option<&str>) -> (r: Option<String>)
    ensures
        opt_view(r) == system_dir(system, opt_text(given), opt_text(home)),
{
    match system {
        System::Mac => match join_dir(home, "Library") {
            Some(l) => join_dir(Some(l.as_str()), "Application Support"),
            None => None,
        },
        System::Windows => match given {
            Some(g) => if empty(g) {
                None
            } else {
                Some(copy_text(g))
            },
            None => None,
        },
        System::Other => match only_absolute(given) {
            Some(g) => Some(g),
            None => join_dir(home, ".config"),
        },
    }
}

/// The older directory of the application, below the directory for settings of the system.
pub open spec fn legacy_dir(base: Option<Seq<char>>) -> Option<Seq<char>> {
    match base {
        Some(b) => Some(below(b, APP_IDENTIFIER@)),
        None => None,
    }
}

/// The older directory of the application, below the directory for settings of the system.
pub fn legacy_app_config_dir(base: Option<&str>) -> (r: Option<String>)
    ensures
        opt_view(r) == legacy_dir(opt_text(base)),
{
    match base {
        Some(b) => Some(join_path(b, APP_IDENTIFIER)),
        None => None,
    }
}

/// The older file of the settings.
pub fn legacy_app_settings_file(base: Option<&str>) -> (r: Option<String>)
    ensures
        opt_view(r) == settings_below(legacy_dir(opt_text(base))),
{
    match legacy_app_config_dir(base) {
        Some(d) => Some(join_path(d.as_str(), SETTINGS_FILE)),
        None => None,
    }
}

/// The file that settings are read from: the new one where it exists, or else the older one.
pub fn pick_settings_file(new_file: Option<String>, new_exists: bool, old_file: Option<String>) -> (r:
    Option<String>)
    ensures
        opt_view(r) == (if new_file is Some && new_exists {
            opt_view(new_file)
        } else {
            opt_view(old_file)
        }),
{
    if new_file.is_some() && new_exists {
        new_file
    } else {
        old_file
    }
}

/// Whether older settings are moved: only where there are some, and never over new ones.
pub fn moves_settings(same_file: bool, new_exists: bool, old_exists: bool) -> (r: bool)
    ensures
        r == (!same_file && !new_exists && old_exists),
{
    !same_file && !new_exists && old_exists
}

/// A proxy that goes direct has no address that counts, and a custom one always has one.
pub proof fn law_custom_has_address(v: JsonView)
    ensures
        match proxy_in(v) {
            Some(p) => p.mode == "none"@ || (p.mode == "custom"@ && p.url is Some),
            None => true,
        },
{
}

/// What is kept of a proxy: that none is used, or the one that is named with its address; a custom
/// one without an address, and any other word, is none.
pub proof fn law_proxy_kept(m: Seq<(Seq<char>, JsonView)>, mode: Seq<char>, url: Seq<char>)
    requires
        lookup(m, "mode"@) == Some(JsonView::Str(mode)),
    ensures
        mode == "none"@ && lookup(m, "url"@) is None ==> proxy_in(JsonView::Object(m)) == Some(
            ProxyConfigView { mode, url: None },
        ),
        mode == "custom"@ && lookup(m, "url"@) == Some(JsonView::Str(url)) && !is_blank(url)
            ==> proxy_in(JsonView::Object(m)) == Some(
            ProxyConfigView { mode, url: Some(trim(url)) },
        ),
        mode == "custom"@ && mode != "none"@ && lookup(m, "url"@) is None ==> proxy_in(
            JsonView::Object(m),
        ) is None,
        mode != "none"@ && mode != "custom"@ ==> proxy_in(JsonView::Object(m)) is None,
        prefs_in(None).proxy is None,
{
}

/// Where settings are: in the directory that is pinned if that is an absolute path, else below the
/// home directory.
pub proof fn law_settings_place(p: Seq<char>, home: Option<Seq<char>>, pinned: Option<Seq<char>>)
    requires
        p.len() > 0,
    ensures
        p[0] == '/' ==> config_dir(Some(p), home) == Some(p),
        p[0] != '/' ==> config_dir(Some(p), home) == config_dir(None, home),
        home is Some ==> config_dir(None, home) == Some(below(home->0, ".apicase"@)),
        home is None ==> config_dir(None, home) is None,
        config_dir(pinned, home) is Some ==> settings_below(config_dir(pinned, home)) == Some(
            below(config_dir(pinned, home)->0, "settings.json"@),
        ),
{
    reveal_strlit("/");
    assert("/"@ =~= seq!['/']);
    assert(p.subrange(0, 1) =~= seq![p[0]]);
    assert(seq![p[0]] == seq!['/'] ==> seq![p[0]][0] == seq!['/'][0]);
}

} // verus!
