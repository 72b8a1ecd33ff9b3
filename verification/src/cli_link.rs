//! Putting the command line tool where it can be called.
//!
//! A command of the same name that is not ours is never touched.
use crate::text::{cat, copy_text, opt_text, opt_view, views};
use crate::workspace::{below, join_path};
use vstd::prelude::*;

verus! {

/// A place that is looked at.
#[derive(Debug, Clone, PartialEq)]
pub struct Found {
    /// The command that was found there.
    pub link: String,
    /// Whether it is our own.
    pub ours: bool,
}

/// A directory that the command can be put into.
#[derive(Debug, Clone, PartialEq)]
pub struct Candidate {
    pub dir: String,
    /// Whether commands are looked for there.
    pub in_path: bool,
    pub writable: bool,
}

/// Where the command line tool stands.
#[derive(Debug, Clone, PartialEq)]
pub enum LinkStatus {
    /// It is there, and it is ours.
    Installed { link: String },
    /// Another command of that name is there.
    Foreign { link: String },
    /// It is not there. `target` is where it would go; `needs_path_setup` says that commands
    /// are not looked for there yet.
    Missing { target: Option<String>, needs_path_setup: bool },
}

/// What a `LinkStatus` stands for.
#[verifier::ext_equal]
pub enum LinkStatusView {
    Installed { link: Seq<char> },
    Foreign { link: Seq<char> },
    Missing { target: Option<Seq<char>>, needs_path_setup: bool },
}

impl View for LinkStatus {
    type V = LinkStatusView;

    open spec fn view(&self) -> LinkStatusView {
        match self {
            LinkStatus::Installed { link } => LinkStatusView::Installed { link: link@ },
            LinkStatus::Foreign { link } => LinkStatusView::Foreign { link: link@ },
            LinkStatus::Missing { target, needs_path_setup } => LinkStatusView::Missing {
                target: opt_view(*target),
                needs_path_setup: *needs_path_setup,
            },
        }
    }
}

/// The directories that the tool can be put into: the one of the user comes first, since it
/// needs no other rights.
pub open spec fn candidate_dirs(home: Option<Seq<char>>, common: Option<Seq<char>>) -> Seq<Seq<char>> {
    (match home {
        Some(h) => seq![below(below(h, ".local"@), "bin"@)],
        None => seq![],
    }) + (match common {
        Some(c) => seq![c],
        None => seq![],
    })
}

/// The directories that the tool can be put into, given the home directory and the directory
/// for all users of the system.
pub fn candidates(home: Option<&str>, common: Option<&str>) -> (r: Vec<String>)
    ensures
        views(r@) == candidate_dirs(opt_text(home), opt_text(common)),
{
    let mut out: Vec<String> = Vec::new();
    if let Some(h) = home {
        let local: String = join_path(h, ".local");
        out.push(join_path(local.as_str(), "bin"));
    }
    if let Some(c) = common {
        out.push(copy_text(c));
    }
    assert(views(out@) =~= candidate_dirs(opt_text(home), opt_text(common)));
    out
}

/// The first directory from the `i`-th on that can be used as it is.
pub open spec fn usable(c: Seq<Candidate>, i: int) -> Option<Seq<char>>
    decreases c.len() - i,
{
    if i < 0 || i >= c.len() {
        None
    } else if c[i].in_path && c[i].writable {
        Some(c[i].dir@)
    } else {
        usable(c, i + 1)
    }
}

/// Where the tool stands, given the first command of its name that is found and the
/// directories that it can be put into.
pub open spec fn status_of(found: Option<Found>, c: Seq<Candidate>, name: Seq<char>) -> LinkStatusView {
    match found {
        Some(f) => if f.ours {
            LinkStatusView::Installed { link: f.link@ }
        } else {
            LinkStatusView::Foreign { link: f.link@ }
        },
        None => match usable(c, 0) {
            Some(d) => LinkStatusView::Missing {
                target: Some(below(d, name)),
                needs_path_setup: false,
            },
            None => LinkStatusView::Missing {
                target: if c.len() == 0 {
                    None
                } else {
                    Some(below(c[0].dir@, name))
                },
                needs_path_setup: true,
            },
        },
    }
}

/// Where the tool stands: a command of its name that is found first, or else the first
/// directory that can be used as it is, or else the first directory.
pub fn status(found: &Option<Found>, candidates: &Vec<Candidate>, name: &str) -> (r: LinkStatus)
    ensures
        r@ == status_of(*found, candidates@, name@),
{
    if let Some(f) = found {
        return if f.ours {
            LinkStatus::Installed { link: copy_text(f.link.as_str()) }
        } else {
            LinkStatus::Foreign { link: copy_text(f.link.as_str()) }
        };
    }
    let mut i: usize = 0;
    while i < candidates.len()
        invariant
            i <= candidates@.len(),
            usable(candidates@, 0) == usable(candidates@, i as int),
            *found is None,
        decreases candidates@.len() - i,
    {
        if candidates[i].in_path && candidates[i].writable {
            return LinkStatus::Missing {
                target: Some(join_path(candidates[i].dir.as_str(), name)),
                needs_path_setup: false,
            };
        }
        i = i + 1;
    }
    LinkStatus::Missing {
        target: if candidates.len() == 0 {
            None
        } else {
            Some(join_path(candidates[0].dir.as_str(), name))
        },
        needs_path_setup: true,
    }
}

/// What an installation comes to.
#[derive(Debug, Clone, PartialEq)]
pub struct Installed {
    pub link: String,
    /// Whether commands are not looked for there yet.
    pub needs_path_setup: bool,
    /// Whether it was there already.
    pub already: bool,
}

/// What an `Installed` stands for.
#[verifier::ext_equal]
pub struct InstalledView {
    pub link: Seq<char>,
    pub needs_path_setup: bool,
    pub already: bool,
}

impl View for Installed {
    type V = InstalledView;

    open spec fn view(&self) -> InstalledView {
        InstalledView {
            link: self.link@,
            needs_path_setup: self.needs_path_setup,
            already: self.already,
        }
    }
}

/// What an installation comes to, or why it cannot be made.
pub open spec fn install_plan(exists: bool, source: Seq<char>, s: LinkStatusView) -> Result<
    InstalledView,
    Seq<char>,
> {
    if !exists {
        Err("找不到命令行工具："@ + source)
    } else {
        match s {
            LinkStatusView::Installed { link } => Ok(
                InstalledView { link, needs_path_setup: false, already: true },
            ),
            LinkStatusView::Foreign { link } => Err(
                link
                    + " 已被另一个 apicase 占用（不是这个应用自带的那份）。如果想换成这份，请先手动删除它。"@,
            ),
            LinkStatusView::Missing { target, needs_path_setup } => match target {
                Some(link) => Ok(InstalledView { link, needs_path_setup, already: false }),
                None => Err("找不到可用的安装位置（没有 HOME？）"@),
            },
        }
    }
}

/// What an installation comes to, or why it cannot be made.
pub fn plan_install(exists: bool, source: &str, s: LinkStatus) -> (r: Result<Installed, String>)
    ensures
        match r {
            Ok(i) => install_plan(exists, source@, s@) == Ok::<InstalledView, Seq<char>>(i@),
            Err(e) => install_plan(exists, source@, s@) == Err::<InstalledView, Seq<char>>(e@),
        },
{
    if !exists {
        return Err(cat("找不到命令行工具：", source));
    }
    match s {
        LinkStatus::Installed { link } => Ok(
            Installed { link, needs_path_setup: false, already: true },
        ),
        LinkStatus::Foreign { link } => Err(
            cat(
                link.as_str(),
                " 已被另一个 apicase 占用（不是这个应用自带的那份）。如果想换成这份，请先手动删除它。",
            ),
        ),
        LinkStatus::Missing { target, needs_path_setup } => match target {
            Some(link) => Ok(Installed { link, needs_path_setup, already: false }),
            None => Err(copy_text("找不到可用的安装位置（没有 HOME？）")),
        },
    }
}

/// The command that a removal takes away, if any, or why it does not.
pub open spec fn uninstall_plan(s: LinkStatusView) -> Result<Option<Seq<char>>, Seq<char>> {
    match s {
        LinkStatusView::Installed { link } => Ok(Some(link)),
        LinkStatusView::Foreign { link } => Err(link + " 不是这个应用装的，不动它"@),
        LinkStatusView::Missing { .. } => Ok(None),
    }
}

/// The command that a removal takes away, if any, or why it does not.
pub fn plan_uninstall(s: LinkStatus) -> (r: Result<Option<String>, String>)
    ensures
        match r {
            Ok(l) => uninstall_plan(s@) == Ok::<Option<Seq<char>>, Seq<char>>(opt_view(l)),
            Err(e) => uninstall_plan(s@) == Err::<Option<Seq<char>>, Seq<char>>(e@),
        },
{
    match s {
        LinkStatus::Installed { link } => Ok(Some(link)),
        LinkStatus::Foreign { link } => Err(cat(link.as_str(), " 不是这个应用装的，不动它")),
        LinkStatus::Missing { .. } => Ok(None),
    }
}

/// A command of the same name that is not ours is neither replaced nor removed.
pub proof fn law_foreign_is_left_alone(f: Found, c: Seq<Candidate>, name: Seq<char>, source: Seq<char>)
    requires
        !f.ours,
    ensures
        install_plan(true, source, status_of(Some(f), c, name)) is Err,
        uninstall_plan(status_of(Some(f), c, name)) is Err,
{
}

/// A command is put into the first directory that is looked at and can be written to; without one,
/// into the first of all, which then has to be looked at.
pub proof fn law_where_to_put(c: Seq<Candidate>, name: Seq<char>, from: int, i: int)
    requires
        0 <= from <= i <= c.len(),
        forall|k: int| from <= k < i ==> !((#[trigger] c[k]).in_path && c[k].writable),
        i < c.len() ==> c[i].in_path && c[i].writable,
    ensures
        usable(c, from) == (if i < c.len() {
            Some(c[i].dir@)
        } else {
            None
        }),
        from == 0 && i < c.len() ==> status_of(None, c, name) == (LinkStatusView::Missing {
            target: Some(below(c[i].dir@, name)),
            needs_path_setup: false,
        }),
        from == 0 && i == c.len() && c.len() > 0 ==> status_of(None, c, name) == (
        LinkStatusView::Missing { target: Some(below(c[0].dir@, name)), needs_path_setup: true }),
    decreases i - from,
{
    if from < i {
        assert(!(c[from].in_path && c[from].writable));
        law_where_to_put(c, name, from + 1, i);
    }
}

/// Our own command is found and not put anew, and it is what is taken away; without one there is
/// nothing to take away.
pub proof fn law_own_command(f: Found, c: Seq<Candidate>, name: Seq<char>, source: Seq<char>)
    requires
        f.ours,
    ensures
        install_plan(true, source, status_of(Some(f), c, name)) == Ok::<_, Seq<char>>(
            InstalledView { link: f.link@, needs_path_setup: false, already: true },
        ),
        install_plan(false, source, status_of(Some(f), c, name)) is Err,
        uninstall_plan(status_of(Some(f), c, name)) == Ok::<_, Seq<char>>(Some(f.link@)),
        uninstall_plan(status_of(None, c, name)) == Ok::<_, Seq<char>>(None::<Seq<char>>),
{
}

} // verus!
