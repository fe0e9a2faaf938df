//! The unstow planner: a walk over a package that removes from the target
//! the links that lead into the package, and the directories left empty.

use vstd::prelude::*;
use vstd::string::*;
use crate::config::StowContext;
use crate::error::{ErrorView, StowError};
use crate::fs_model::{lemma_listing_line, lemma_max_len, listing, DirEntryView, FsView, Step};
use crate::fs_ops::{listing_view, stepped, DirEntry, FileSystem};
use crate::path_utils::{
    lemma_view_wf, normalize_path, paths_equal, paths_equal_spec, PathView, StowPath,
};
use crate::planner::{execute_spec, Action, ActionView, Plan, RelocationView};
use crate::stow::{entry_path, lemma_room, link_target_abs, room};

verus! {

/// The mathematical value of an [`Unstower`].
pub struct UnstowerView {
    pub stow_dir: PathView,
    pub target_dir: PathView,
    pub dry_run: bool,
}

/// Whether the link at `link` belongs to the package entry `source`: a link
/// is there, and the normal form of where it points is the normal form of
/// the source.
pub open spec fn owns(fs: FsView, link: PathView, source: PathView) -> bool {
    fs.is_symlink(link) && paths_equal_spec(
        fs,
        fs.normalize(link_target_abs(link, fs.read_link(link)->Ok_0)),
        fs.normalize(source),
    )
}

/// The plan for one link of a package entry: the link is removed if it
/// belongs to the entry, and left alone otherwise.
pub open spec fn plan_unstow_link_spec(fs: FsView, source: PathView, target: PathView) -> Seq<
    ActionView,
> {
    if owns(fs, target, source) {
        seq![ActionView::RemoveLink { path: target }]
    } else {
        Seq::empty()
    }
}

/// The plan for the entries `lines` of the package directory at location
/// `dir`, mirrored at `target`.
pub open spec fn plan_unstow_entries_spec(
    cfg: UnstowerView,
    fs: FsView,
    dir: Seq<Seq<char>>,
    target: PathView,
    lines: Seq<DirEntryView>,
) -> Seq<ActionView>
    decreases room(fs, dir), lines.len(),
{
    if lines.len() == 0 {
        Seq::empty()
    } else {
        let name = lines[0].name;
        let item = target.child(name);
        let first = if !fs.present(item) {
            Seq::empty()
        } else if lines[0].is_dir {
            // A listed directory is an entry, so the walk always has room
            // for it.
            if room(fs, dir) > 0 {
                plan_unstow_dir_item_spec(cfg, fs, dir.push(name), item)
            } else {
                Seq::empty()
            }
        } else {
            plan_unstow_link_spec(fs, entry_path(dir, name), item)
        };
        first + plan_unstow_entries_spec(cfg, fs, dir, target, lines.skip(1))
    }
}

/// The plan for the package directory at location `dir` and what is at
/// `target`: a link that belongs to the directory is removed, a real
/// directory is walked, anything else is left alone.
pub open spec fn plan_unstow_dir_item_spec(
    cfg: UnstowerView,
    fs: FsView,
    dir: Seq<Seq<char>>,
    target: PathView,
) -> Seq<ActionView>
    decreases room(fs, dir) + 1, 0nat,
{
    if fs.is_symlink(target) {
        plan_unstow_link_spec(fs, PathView::absolute_of(dir), target)
    } else if fs.is_dir(target) && room(fs, dir) >= 0 {
        plan_unstow_walk_spec(cfg, fs, dir, target)
    } else {
        Seq::empty()
    }
}

/// The plan for the package directory at location `dir`, mirrored at the
/// directory `target`: the plan for its entries, and then the removal of
/// `target` in case it is left empty, unless it is the target root.
pub open spec fn plan_unstow_walk_spec(
    cfg: UnstowerView,
    fs: FsView,
    dir: Seq<Seq<char>>,
    target: PathView,
) -> Seq<ActionView>
    decreases room(fs, dir), listing(fs.entries, dir).len() + 1,
{
    if !fs.present(target) {
        Seq::empty()
    } else {
        plan_unstow_entries_spec(cfg, fs, dir, target, listing(fs.entries, dir)) + (if target
            != cfg.target_dir {
            seq![ActionView::RemoveEmptyDir { path: target }]
        } else {
            Seq::empty()
        })
    }
}

/// The plan for the directory that `package_dir` leads to, mirrored at
/// `target_dir`.
pub open spec fn plan_unstow_directory_spec(
    cfg: UnstowerView,
    fs: FsView,
    package_dir: PathView,
    target_dir: PathView,
) -> Result<Seq<ActionView>, ErrorView> {
    if !fs.present(target_dir) {
        Ok(Seq::empty())
    } else {
        match fs.read_dir(package_dir) {
            Err(k) => Err(ErrorView::IoError { path: package_dir, source: k }),
            Ok(_) => Ok(plan_unstow_walk_spec(cfg, fs, fs.locate(package_dir, true)->Ok_0, target_dir)),
        }
    }
}

/// The plan for removing the package `name`.
pub open spec fn plan_unstow_package_spec(cfg: UnstowerView, fs: FsView, name: Seq<char>) -> Result<
    Seq<ActionView>,
    ErrorView,
> {
    let package = cfg.stow_dir.child(name);
    if !fs.present(package) {
        Err(ErrorView::PackageNotFound { package: name, stow_dir: cfg.stow_dir })
    } else {
        plan_unstow_directory_spec(cfg, fs, package, cfg.target_dir)
    }
}

/// What removing the package `name` does: the plan is made and executed.
/// Where no plan can be made, nothing is changed.
pub open spec fn unstow_package_spec(cfg: UnstowerView, fs: FsView, name: Seq<char>) -> Step {
    match plan_unstow_package_spec(cfg, fs, name) {
        Err(e) => Step { fs, err: Some(e) },
        Ok(actions) => execute_spec(fs, actions, cfg.dry_run),
    }
}

/// Whether a planning step ended as the model says.
pub open spec fn planned(
    before: Seq<ActionView>,
    moves: Seq<RelocationView>,
    after: Plan,
    want: Seq<ActionView>,
) -> bool {
    after@ == before + want && after.moves() == moves
}

/// Unstow operation manager: the directories of one invocation.
#[derive(Debug)]
pub struct Unstower {
    stow_dir: StowPath,
    target_dir: StowPath,
    dry_run: bool,
}

impl View for Unstower {
    type V = UnstowerView;

    closed spec fn view(&self) -> UnstowerView {
        UnstowerView {
            stow_dir: self.stow_dir@,
            target_dir: self.target_dir@,
            dry_run: self.dry_run,
        }
    }
}

impl Unstower {
    /// The unstower for a context.
    pub fn from_context(context: &StowContext) -> (u: Self)
        ensures
            u@ == (UnstowerView {
                stow_dir: context@.stow_dir,
                target_dir: context@.target_dir,
                dry_run: context@.dry_run,
            }),
    {
        Unstower {
            stow_dir: context.stow_dir().clone(),
            target_dir: context.target_dir().clone(),
            dry_run: context.is_dry_run(),
        }
    }

    /// An unstower for the given directories.
    pub fn new(stow_dir: StowPath, target_dir: StowPath, _verbose: bool, dry_run: bool) -> (u: Self)
        ensures
            u@ == (UnstowerView { stow_dir: stow_dir@, target_dir: target_dir@, dry_run }),
    {
        Unstower { stow_dir, target_dir, dry_run }
    }

    pub fn stow_dir(&self) -> (r: &StowPath)
        ensures
            r@ == self@.stow_dir,
    {
        &self.stow_dir
    }

    pub fn target_dir(&self) -> (r: &StowPath)
        ensures
            r@ == self@.target_dir,
    {
        &self.target_dir
    }

    pub fn is_dry_run(&self) -> (r: bool)
        ensures
            r == self@.dry_run,
    {
        self.dry_run
    }

    /// Plans the link at `target_file` for the package entry
    /// `package_file`: the link is removed if it leads to the entry; what is
    /// no link, or leads elsewhere, is left alone.
    pub fn plan_unstow_file(
        &self,
        fs: &FileSystem,
        package_file: &StowPath,
        target_file: &StowPath,
        plan: &mut Plan,
    ) -> (r: Result<(), StowError>)
        requires
            fs@.wf(),
        ensures
            r is Ok,
            planned(
                old(plan)@,
                old(plan).moves(),
                *final(plan),
                plan_unstow_link_spec(fs@, package_file@, target_file@),
            ),
    {
        let ghost a0 = plan@;
        match fs.read_link(target_file) {
            Err(_) => {
                assert(a0 + Seq::<ActionView>::empty() =~= a0);
                Ok(())
            },
            Ok(stored) => {
                proof {
                    lemma_view_wf(stored);
                    lemma_view_wf(*target_file);
                }
                let at = StowPath::root().join(target_file);
                let abs = match at.parent() {
                    Some(p) => p.join(&stored),
                    None => at.join(&stored),
                };
                let link_norm = match normalize_path(fs, &abs) {
                    Ok(p) => p,
                    Err(_) => vstd::pervasive::unreached(),
                };
                let package_norm = match normalize_path(fs, package_file) {
                    Ok(p) => p,
                    Err(_) => vstd::pervasive::unreached(),
                };
                if paths_equal(fs, &link_norm, &package_norm) {
                    plan.add(Action::RemoveLink { path: target_file.clone() });
                    assert(plan@ =~= a0 + seq![ActionView::RemoveLink { path: target_file@ }]);
                } else {
                    assert(a0 + Seq::<ActionView>::empty() =~= a0);
                }
                Ok(())
            },
        }
    }

    /// Plans the entries of the package directory at location `dir`.
    fn plan_entries(
        &self,
        fs: &FileSystem,
        dir: &Vec<String>,
        target: &StowPath,
        lines: &Vec<DirEntry>,
        plan: &mut Plan,
    )
        requires
            fs@.wf(),
            listing_view(lines@) == listing(fs@.entries, dir.deep_view()),
            room(fs@, dir.deep_view()) >= 0,
        ensures
            planned(
                old(plan)@,
                old(plan).moves(),
                *final(plan),
                plan_unstow_entries_spec(
                    self@,
                    fs@,
                    dir.deep_view(),
                    target@,
                    listing_view(lines@),
                ),
            ),
        decreases room(fs@, dir.deep_view()), 1nat,
    {
        let ghost a0 = plan@;
        let ghost m0 = plan.moves();
        let ghost all = listing_view(lines@);
        let ghost d = dir.deep_view();
        let mut i: usize = 0;
        assert(all.skip(0) =~= all);
        while i < lines.len()
            invariant
                i <= lines.len(),
                fs@.wf(),
                d == dir.deep_view(),
                all == listing_view(lines@),
                all == listing(fs@.entries, d),
                room(fs@, d) >= 0,
                plan.moves() == m0,
                a0 + plan_unstow_entries_spec(self@, fs@, d, target@, all) == plan@
                    + plan_unstow_entries_spec(self@, fs@, d, target@, all.skip(i as int)),
            decreases lines.len() - i,
        {
            let ghost before = plan@;
            let ghost left = all.skip(i as int);
            proof {
                assert(left[0] == lines[i as int]@);
                assert(left.skip(1) =~= all.skip(i + 1));
                lemma_listing_line(fs@.entries, d, i as int);
                let k = choose|k: int|
                    0 <= k < fs@.entries.len() && (#[trigger] fs@.entries[k]).path == d.push(
                        all[i as int].name,
                    ) && all[i as int].is_dir == (fs@.entries[k].node is Dir);
                lemma_max_len(fs@.entries, k);
                assert(before + Seq::<ActionView>::empty() =~= before);
                assert(forall|x: Seq<ActionView>, y: Seq<ActionView>|
                    #![auto]
                    (before + x) + y =~= before + (x + y));
            }
            let line = &lines[i];
            let item = target.child(line.name.as_str());
            if fs.path_exists(&item) {
                let mut child = dir.clone();
                child.push(line.name.clone());
                assert(child.deep_view() =~= d.push(line.name@));
                let source = StowPath::from_names(child.clone());
                if line.is_dir {
                    self.plan_dir_item(fs, &child, &source, &item, plan);
                } else {
                    let _ = self.plan_unstow_file(fs, &source, &item, plan);
                }
            }
            i += 1;
        }
        proof {
            assert(all.skip(lines.len() as int) =~= Seq::empty());
            assert(plan@ + Seq::<ActionView>::empty() =~= plan@);
        }
    }

    /// Plans the package directory at location `dir`, whose path is
    /// `source`, and what is at `target`.
    fn plan_dir_item(
        &self,
        fs: &FileSystem,
        dir: &Vec<String>,
        source: &StowPath,
        target: &StowPath,
        plan: &mut Plan,
    )
        requires
            fs@.wf(),
            source@ == PathView::absolute_of(dir.deep_view()),
            room(fs@, dir.deep_view()) >= 0,
        ensures
            planned(
                old(plan)@,
                old(plan).moves(),
                *final(plan),
                plan_unstow_dir_item_spec(self@, fs@, dir.deep_view(), target@),
            ),
        decreases room(fs@, dir.deep_view()) + 1, 0nat,
    {
        let ghost a0 = plan@;
        if fs.is_link(target) {
            let _ = self.plan_unstow_file(fs, source, target, plan);
        } else if fs.is_dir(target) {
            self.plan_walk(fs, dir, target, plan);
        } else {
            assert(a0 + Seq::<ActionView>::empty() =~= a0);
        }
    }

    /// Plans the package directory at location `dir`, mirrored at the
    /// directory `target`.
    fn plan_walk(&self, fs: &FileSystem, dir: &Vec<String>, target: &StowPath, plan: &mut Plan)
        requires
            fs@.wf(),
            room(fs@, dir.deep_view()) >= 0,
        ensures
            planned(
                old(plan)@,
                old(plan).moves(),
                *final(plan),
                plan_unstow_walk_spec(self@, fs@, dir.deep_view(), target@),
            ),
        decreases room(fs@, dir.deep_view()), 2nat,
    {
        let ghost a0 = plan@;
        if !fs.path_exists(target) {
            assert(a0 + Seq::<ActionView>::empty() =~= a0);
            return ;
        }
        let lines = fs.list_at(dir);
        self.plan_entries(fs, dir, target, &lines, plan);
        let ghost mid = plan@;
        if !target.equals(&self.target_dir) {
            plan.add(Action::RemoveEmptyDir { path: target.clone() });
            proof {
                let body = plan_unstow_entries_spec(
                    self@,
                    fs@,
                    dir.deep_view(),
                    target@,
                    listing(fs@.entries, dir.deep_view()),
                );
                assert(plan@ =~= a0 + (body + seq![ActionView::RemoveEmptyDir { path: target@ }]));
            }
        } else {
            proof {
                let body = plan_unstow_entries_spec(
                    self@,
                    fs@,
                    dir.deep_view(),
                    target@,
                    listing(fs@.entries, dir.deep_view()),
                );
                assert(plan@ =~= a0 + (body + Seq::<ActionView>::empty()));
            }
        }
    }

    /// Plans the directory that `package_dir` leads to, mirrored at
    /// `target_dir`. A failure leaves the plan as it was.
    pub fn plan_unstow_directory(
        &self,
        fs: &FileSystem,
        package_dir: &StowPath,
        target_dir: &StowPath,
        plan: &mut Plan,
    ) -> (r: Result<(), StowError>)
        requires
            fs@.wf(),
        ensures
            match plan_unstow_directory_spec(self@, fs@, package_dir@, target_dir@) {
                Ok(actions) => r is Ok && planned(
                    old(plan)@,
                    old(plan).moves(),
                    *final(plan),
                    actions,
                ),
                Err(e) => r matches Err(x) && x@ == e && *final(plan) == *old(plan),
            },
    {
        let ghost a0 = plan@;
        if !fs.path_exists(target_dir) {
            assert(a0 + Seq::<ActionView>::empty() =~= a0);
            return Ok(());
        }
        match fs.read_dir(package_dir) {
            Err(k) => Err(StowError::io_error(package_dir.clone(), k)),
            Ok(_) => {
                match fs.locate(package_dir, true) {
                    Err(_) => vstd::pervasive::unreached(),
                    Ok(place) => {
                        proof {
                            lemma_room(fs@, place.deep_view());
                        }
                        self.plan_walk(fs, &place, target_dir, plan);
                        Ok(())
                    },
                }
            },
        }
    }

    /// The plan for removing the package `package_name`.
    pub fn plan_package(&self, fs: &FileSystem, package_name: &str) -> (r: Result<Plan, StowError>)
        requires
            fs@.wf(),
        ensures
            match plan_unstow_package_spec(self@, fs@, package_name@) {
                Ok(actions) => r matches Ok(plan) && plan@ == actions && plan.moves()
                    == Seq::<RelocationView>::empty(),
                Err(e) => r matches Err(x) && x@ == e,
            },
    {
        let package_path = self.stow_dir.child(package_name);
        if !fs.path_exists(&package_path) {
            return Err(StowError::package_not_found(package_name, self.stow_dir.clone()));
        }
        let mut plan = Plan::new();
        match self.plan_unstow_directory(fs, &package_path, &self.target_dir, &mut plan) {
            Err(e) => Err(e),
            Ok(()) => {
                proof {
                    assert(forall|x: Seq<ActionView>| Seq::<ActionView>::empty() + x =~= x);
                }
                Ok(plan)
            },
        }
    }
}

impl Unstower {
    /// Removes the package `package_name`: the plan for it is made and
    /// executed. A dry run changes nothing.
    pub fn unstow_package(&self, fs: &mut FileSystem, package_name: &str) -> (r: Result<
        (),
        StowError,
    >)
        requires
            old(fs)@.wf(),
        ensures
            final(fs)@.wf(),
            stepped(final(fs)@, r, unstow_package_spec(self@, old(fs)@, package_name@)),
    {
        match self.plan_package(fs, package_name) {
            Err(e) => Err(e),
            Ok(plan) => {
                proof {
                    assert(plan.moves().len() == 0);
                }
                plan.execute(fs, self.dry_run)
            },
        }
    }
}

} // verus!
