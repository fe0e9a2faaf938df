//! The stow planner: a walk over a package, mirrored against the target,
//! that decides for each entry whether to link it, to descend, to unfold a
//! link made for another package, or to resolve a conflict.

use vstd::prelude::*;
use vstd::string::*;
use crate::config::StowContext;
use crate::error::{ErrorView, StowError};
use crate::fs_model::{
    lemma_listing_line, lemma_max_len, lemma_present, listing, max_len, DirEntryView, FsView, Step,
};
use crate::fs_ops::{listing_view, stepped, DirEntry, FileSystem};
use crate::ignore::{PatternSet, PatternSetView};
use crate::path_utils::{
    compute_relative_path, lemma_view_wf, normalize_path, paths_equal, paths_equal_spec,
    relative_spec, PathView, StowPath,
};
use crate::planner::{execute_plan_spec, Action, ActionView, Plan, Relocation, RelocationView};

verus! {

/// How a conflict with something in the target is resolved.
#[derive(Debug, Clone, Copy, PartialEq, Eq, Structural)]
pub enum ConflictStrategy {
    /// Fail on conflicts.
    Fail,
    /// Move what conflicts into the package.
    Adopt,
    /// Remove what conflicts.
    Override,
}

/// How a directory of a package is installed.
#[derive(Debug, PartialEq)]
pub enum FoldDecision {
    /// As a single link to the directory.
    Fold,
    /// The link found at the target, which points to the held path, is
    /// replaced by a real directory that takes the entries of both.
    Unfold(StowPath),
    /// The target is a real directory: its entries are planned one by one.
    Traverse,
    /// Something else occupies the target.
    Conflict,
}

/// The mathematical value of a [`FoldDecision`].
pub enum FoldDecisionView {
    Fold,
    Unfold(PathView),
    Traverse,
    Conflict,
}

impl View for FoldDecision {
    type V = FoldDecisionView;

    open spec fn view(&self) -> FoldDecisionView {
        match self {
            FoldDecision::Fold => FoldDecisionView::Fold,
            FoldDecision::Unfold(p) => FoldDecisionView::Unfold(p@),
            FoldDecision::Traverse => FoldDecisionView::Traverse,
            FoldDecision::Conflict => FoldDecisionView::Conflict,
        }
    }
}

/// What the planner finds at a target path.
#[derive(Debug)]
pub enum Seen {
    /// Nothing that can be reached.
    Absent,
    /// A link: where it points, as an absolute path, and the normal form of
    /// that.
    Link { target: StowPath, resolved: StowPath },
    /// A real directory.
    Directory,
    /// Anything else.
    Other,
}

/// The mathematical value of a [`Seen`].
pub enum SeenView {
    Absent,
    Link { target: PathView, resolved: PathView },
    Directory,
    Other,
}

impl View for Seen {
    type V = SeenView;

    open spec fn view(&self) -> SeenView {
        match self {
            Seen::Absent => SeenView::Absent,
            Seen::Link { target, resolved } => SeenView::Link {
                target: target@,
                resolved: resolved@,
            },
            Seen::Directory => SeenView::Directory,
            Seen::Other => SeenView::Other,
        }
    }
}

/// What a part of the walk has planned.
pub struct Planned {
    pub actions: Seq<ActionView>,
    pub moves: Seq<RelocationView>,
}

impl Planned {
    pub open spec fn nothing() -> Planned {
        Planned { actions: Seq::empty(), moves: Seq::empty() }
    }

    pub open spec fn one(action: ActionView) -> Planned {
        Planned { actions: seq![action], moves: Seq::empty() }
    }

    pub open spec fn followed_by(self, next: Planned) -> Planned {
        Planned { actions: self.actions + next.actions, moves: self.moves + next.moves }
    }
}

/// The directory left behind by an unfolded link: the location that the link
/// led to, and the names that were linked from there into the new directory.
pub struct OverlayView {
    pub prior: Seq<Seq<char>>,
    pub names: Seq<Seq<char>>,
}

/// The mathematical value of a [`Stower`].
pub struct StowerView {
    pub stow_dir: PathView,
    pub target_dir: PathView,
    pub dry_run: bool,
    pub conflict_strategy: ConflictStrategy,
    pub patterns: PatternSetView,
}

/// The absolute path that a link at `link` with the stored target `stored`
/// points to: the stored target taken from the directory of the link.
pub open spec fn link_target_abs(link: PathView, stored: PathView) -> PathView {
    let at = PathView::root().join(link);
    match at.parent() {
        Some(p) => p.join(stored),
        None => at.join(stored),
    }
}

/// What is found at a target path of the file system.
pub open spec fn observe_spec(fs: FsView, target: PathView) -> SeenView {
    if !fs.present(target) {
        SeenView::Absent
    } else if fs.is_symlink(target) {
        let abs = link_target_abs(target, fs.read_link(target)->Ok_0);
        SeenView::Link { target: abs, resolved: fs.normalize(abs) }
    } else if fs.is_dir(target) {
        SeenView::Directory
    } else {
        SeenView::Other
    }
}

/// What is found at the target path `target`, whose last name is `name`: in
/// a directory left behind by an unfolded link, the links made from it; else
/// what the file system holds.
pub open spec fn see_spec(
    fs: FsView,
    overlay: Option<OverlayView>,
    target: PathView,
    name: Seq<char>,
) -> SeenView {
    match overlay {
        None => observe_spec(fs, target),
        Some(o) => if o.names.contains(name) {
            let p = fs.normalize(PathView::absolute_of(o.prior.push(name)));
            SeenView::Link { target: p, resolved: p }
        } else {
            SeenView::Absent
        },
    }
}

/// The target stored in a link that leads to `source` from a directory
/// whose normal form is `home`: the relative path from `home` to the normal
/// form of the source.
pub open spec fn link_rel(fs: FsView, source: PathView, home: PathView) -> PathView {
    relative_spec(home, fs.normalize(source))
}

/// The normal form of the directory that holds `target`.
pub open spec fn home_of(fs: FsView, target: PathView) -> PathView {
    fs.normalize(
        match target.parent() {
            Some(p) => p,
            None => target,
        },
    )
}

pub open spec fn file_link(fs: FsView, source: PathView, target: PathView, home: PathView) -> ActionView {
    ActionView::CreateFileLink { link_path: target, target_path: link_rel(fs, source, home) }
}

pub open spec fn dir_link(fs: FsView, source: PathView, target: PathView, home: PathView) -> ActionView {
    ActionView::CreateDirLink { link_path: target, target_path: link_rel(fs, source, home) }
}

/// Whether what is seen is a link that leads to the source.
pub open spec fn already_linked(fs: FsView, seen: SeenView, source: PathView) -> bool {
    seen matches SeenView::Link { resolved, .. } && paths_equal_spec(
        fs,
        resolved,
        fs.normalize(source),
    )
}

/// The plan for a file of a package, given what is seen at its target and
/// the normal form `home` of the directory that holds the target.
pub open spec fn plan_file_spec(
    cfg: StowerView,
    fs: FsView,
    source: PathView,
    target: PathView,
    home: PathView,
    seen: SeenView,
) -> Result<Planned, ErrorView> {
    if seen is Absent {
        Ok(Planned::one(file_link(fs, source, target, home)))
    } else if cfg.patterns.should_defer(source) {
        Ok(Planned::nothing())
    } else if already_linked(fs, seen, source) {
        Ok(Planned::nothing())
    } else {
        match cfg.conflict_strategy {
            ConflictStrategy::Fail => Err(ErrorView::Conflict { path: target }),
            ConflictStrategy::Adopt => if seen is Link {
                Err(
                    ErrorView::InvalidPath(
                        "Target is already a symlink, cannot adopt: "@ + target.text(),
                    ),
                )
            } else {
                Ok(
                    Planned {
                        actions: seq![file_link(fs, source, target, home)],
                        moves: seq![RelocationView::AdoptFile { target, package: source }],
                    },
                )
            },
            ConflictStrategy::Override => Ok(
                Planned {
                    actions: seq![file_link(fs, source, target, home)],
                    moves: if seen is Link {
                        Seq::empty()
                    } else {
                        seq![RelocationView::Override { target }]
                    },
                },
            ),
        }
    }
}

/// How a directory of a package is installed, given what is seen at its
/// target.
pub open spec fn decide_spec(fs: FsView, source: PathView, seen: SeenView) -> FoldDecisionView {
    match seen {
        SeenView::Absent => FoldDecisionView::Fold,
        SeenView::Link { target, resolved } => if paths_equal_spec(
            fs,
            resolved,
            fs.normalize(source),
        ) {
            FoldDecisionView::Fold
        } else {
            FoldDecisionView::Unfold(target)
        },
        SeenView::Directory => FoldDecisionView::Traverse,
        SeenView::Other => FoldDecisionView::Conflict,
    }
}

/// The source path of the entry `name` of the directory at location `dir`.
pub open spec fn entry_path(dir: Seq<Seq<char>>, name: Seq<char>) -> PathView {
    PathView::absolute_of(dir.push(name))
}

/// The links for the entries of the directory at `dir`, made in a directory
/// `target` that holds nothing yet: one link per entry that is not ignored.
pub open spec fn plan_fresh_spec(
    cfg: StowerView,
    fs: FsView,
    dir: Seq<Seq<char>>,
    target: PathView,
    home: PathView,
    lines: Seq<DirEntryView>,
) -> Planned
    decreases lines.len(),
{
    if lines.len() == 0 {
        Planned::nothing()
    } else {
        let source = entry_path(dir, lines[0].name);
        let rest = plan_fresh_spec(cfg, fs, dir, target, home, lines.skip(1));
        if cfg.patterns.should_ignore(source) {
            rest
        } else if lines[0].is_dir {
            Planned::one(dir_link(fs, source, target.child(lines[0].name), home)).followed_by(rest)
        } else {
            Planned::one(file_link(fs, source, target.child(lines[0].name), home)).followed_by(rest)
        }
    }
}

/// The names of the entries of the directory at `dir` that are not ignored.
pub open spec fn linked_names(cfg: StowerView, dir: Seq<Seq<char>>, lines: Seq<DirEntryView>) -> Seq<
    Seq<char>,
>
    decreases lines.len(),
{
    if lines.len() == 0 {
        Seq::empty()
    } else {
        let rest = linked_names(cfg, dir, lines.skip(1));
        if cfg.patterns.should_ignore(entry_path(dir, lines[0].name)) {
            rest
        } else {
            seq![lines[0].name] + rest
        }
    }
}

/// How far the walk can still descend below the location `dir`.
pub open spec fn room(fs: FsView, dir: Seq<Seq<char>>) -> int {
    max_len(fs.entries) - dir.len()
}

/// The plan for the entries `lines` of the package directory at location
/// `dir`, mirrored at the directory `target` whose normal form is `home`.
/// The first entry that fails ends the walk.
pub open spec fn plan_entries_spec(
    cfg: StowerView,
    fs: FsView,
    dir: Seq<Seq<char>>,
    target: PathView,
    home: PathView,
    overlay: Option<OverlayView>,
    lines: Seq<DirEntryView>,
) -> Result<Planned, ErrorView>
    decreases room(fs, dir), lines.len(),
{
    if lines.len() == 0 {
        Ok(Planned::nothing())
    } else {
        let name = lines[0].name;
        let source = entry_path(dir, name);
        let first = if cfg.patterns.should_ignore(source) {
            Ok(Planned::nothing())
        } else if lines[0].is_dir {
            // A listed directory is an entry, so the walk always has room
            // for it.
            if room(fs, dir) > 0 {
                plan_dir_item_spec(
                    cfg,
                    fs,
                    dir.push(name),
                    target.child(name),
                    home,
                    see_spec(fs, overlay, target.child(name), name),
                )
            } else {
                Ok(Planned::nothing())
            }
        } else {
            plan_file_spec(
                cfg,
                fs,
                source,
                target.child(name),
                home,
                see_spec(fs, overlay, target.child(name), name),
            )
        };
        match first {
            Err(e) => Err(e),
            Ok(a) => match plan_entries_spec(cfg, fs, dir, target, home, overlay, lines.skip(1)) {
                Err(e) => Err(e),
                Ok(b) => Ok(a.followed_by(b)),
            },
        }
    }
}

/// The plan for the package directory at location `dir`, given what is seen
/// at its target and the normal form `home` of the directory that holds the
/// target. A directory that is walked is the home of its entries; so is the
/// directory that takes the place of an unfolded link.
pub open spec fn plan_dir_item_spec(
    cfg: StowerView,
    fs: FsView,
    dir: Seq<Seq<char>>,
    target: PathView,
    home: PathView,
    seen: SeenView,
) -> Result<Planned, ErrorView>
    decreases room(fs, dir) + 1, 0nat,
{
    let source = PathView::absolute_of(dir);
    if !(seen is Absent) && cfg.patterns.should_defer(source) {
        Ok(Planned::nothing())
    } else {
        match decide_spec(fs, source, seen) {
            FoldDecisionView::Fold => Ok(Planned::one(dir_link(fs, source, target, home))),
            FoldDecisionView::Unfold(prior) => {
                let head = Planned::one(
                    ActionView::UnfoldDirLink { link_path: target, original_target: prior },
                );
                let inside = unfolded_home(target, home);
                let fresh = unfolded_links(cfg, fs, prior, target, inside);
                if room(fs, dir) >= 0 {
                    match plan_entries_spec(
                        cfg,
                        fs,
                        dir,
                        target,
                        inside,
                        Some(unfolded_overlay(cfg, fs, prior)),
                        listing(fs.entries, dir),
                    ) {
                        Err(e) => Err(e),
                        Ok(rest) => Ok(head.followed_by(fresh).followed_by(rest)),
                    }
                } else {
                    Ok(head.followed_by(fresh))
                }
            },
            FoldDecisionView::Traverse => if room(fs, dir) >= 0 {
                plan_entries_spec(
                    cfg,
                    fs,
                    dir,
                    target,
                    fs.normalize(target),
                    None,
                    listing(fs.entries, dir),
                )
            } else {
                Ok(Planned::nothing())
            },
            FoldDecisionView::Conflict => match cfg.conflict_strategy {
                ConflictStrategy::Fail => Err(ErrorView::Conflict { path: target }),
                ConflictStrategy::Adopt => Ok(
                    Planned {
                        actions: seq![dir_link(fs, source, target, home)],
                        moves: seq![
                            if fs.is_dir(target) {
                                RelocationView::AdoptDirectory { target, package: source }
                            } else {
                                RelocationView::AdoptFile { target, package: source }
                            },
                        ],
                    },
                ),
                ConflictStrategy::Override => Ok(
                    Planned {
                        actions: seq![dir_link(fs, source, target, home)],
                        moves: seq![RelocationView::Override { target }],
                    },
                ),
            },
        }
    }
}

/// The normal form of the directory that takes the place of the unfolded
/// link at `target`: its name inside the home of the link.
pub open spec fn unfolded_home(target: PathView, home: PathView) -> PathView {
    match target.file_name() {
        Some(name) => home.child(name),
        None => home,
    }
}

/// The links that take the place of an unfolded link to `prior`: one for
/// each entry of the directory that `prior` leads to, where it leads to one.
pub open spec fn unfolded_links(
    cfg: StowerView,
    fs: FsView,
    prior: PathView,
    target: PathView,
    home: PathView,
) -> Planned {
    match fs.read_dir(prior) {
        Ok(lines) => plan_fresh_spec(cfg, fs, fs.locate(prior, true)->Ok_0, target, home, lines),
        Err(_) => Planned::nothing(),
    }
}

/// The directory left behind by an unfolded link to `prior`.
pub open spec fn unfolded_overlay(cfg: StowerView, fs: FsView, prior: PathView) -> OverlayView {
    match fs.read_dir(prior) {
        Ok(lines) => OverlayView {
            prior: fs.locate(prior, true)->Ok_0,
            names: linked_names(cfg, fs.locate(prior, true)->Ok_0, lines),
        },
        Err(_) => OverlayView { prior: Seq::empty(), names: Seq::empty() },
    }
}

/// The plan for the directory that `source_dir` leads to, mirrored at
/// `target_parent`.
pub open spec fn plan_directory_spec(
    cfg: StowerView,
    fs: FsView,
    source_dir: PathView,
    target_parent: PathView,
) -> Result<Planned, ErrorView> {
    match fs.read_dir(source_dir) {
        Err(k) => Err(ErrorView::IoError { path: source_dir, source: k }),
        Ok(lines) => plan_entries_spec(
            cfg,
            fs,
            fs.locate(source_dir, true)->Ok_0,
            target_parent,
            fs.normalize(target_parent),
            None,
            lines,
        ),
    }
}

/// The plan for installing the package `name`.
pub open spec fn plan_package_spec(cfg: StowerView, fs: FsView, name: Seq<char>) -> Result<
    Planned,
    ErrorView,
> {
    let package = cfg.stow_dir.child(name);
    if !fs.present(package) {
        Err(ErrorView::PackageNotFound { package: name, stow_dir: cfg.stow_dir })
    } else if !fs.is_dir(package) {
        Err(ErrorView::InvalidPath("Package '"@ + name + "' is not a directory"@))
    } else {
        plan_directory_spec(cfg, fs, package, cfg.target_dir)
    }
}

/// Whether a part of the walk ended as the model says: on success the plan
/// holds what it held and what was planned, in that order; on failure the
/// error is the model's.
pub open spec fn extends(
    actions: Seq<ActionView>,
    moves: Seq<RelocationView>,
    after: Plan,
    r: Result<(), StowError>,
    want: Result<Planned, ErrorView>,
) -> bool {
    match want {
        Ok(p) => r is Ok && after@ == actions + p.actions && after.moves() == moves + p.moves,
        Err(e) => r matches Err(x) && x@ == e,
    }
}

/// The directory left behind by an unfolded link.
struct Overlay {
    prior: Vec<String>,
    names: Vec<String>,
}

impl View for Overlay {
    type V = OverlayView;

    closed spec fn view(&self) -> OverlayView {
        OverlayView { prior: self.prior.deep_view(), names: self.names.deep_view() }
    }
}

/// The view of an overlay that may be there.
closed spec fn overlay_view(o: Option<Overlay>) -> Option<OverlayView> {
    match o {
        Some(x) => Some(x@),
        None => None,
    }
}

/// The normal form of a path is absolute.
pub proof fn lemma_normalize_absolute(fs: FsView, p: PathView)
    requires
        p.wf(),
    ensures
        fs.normalize(p).absolute,
        fs.normalize(p).wf(),
{
}

/// What is found at a target path of the file system.
pub fn observe(fs: &FileSystem, target: &StowPath) -> (seen: Seen)
    requires
        fs@.wf(),
    ensures
        seen@ == observe_spec(fs@, target@),
{
    if !fs.path_exists(target) {
        return Seen::Absent;
    }
    match fs.read_link(target) {
        Ok(stored) => {
            proof {
                lemma_view_wf(stored);
                lemma_view_wf(*target);
            }
            let at = StowPath::root().join(target);
            let abs = match at.parent() {
                Some(p) => p.join(&stored),
                None => at.join(&stored),
            };
            let resolved = normalized(fs, &abs);
            Seen::Link { target: abs, resolved }
        },
        Err(_) => {
            if fs.is_dir(target) {
                Seen::Directory
            } else {
                Seen::Other
            }
        },
    }
}

/// The normal form of a path.
fn normalized(fs: &FileSystem, path: &StowPath) -> (r: StowPath)
    requires
        fs@.wf(),
    ensures
        r@ == fs@.normalize(path@),
{
    match normalize_path(fs, path) {
        Ok(p) => p,
        Err(_) => vstd::pervasive::unreached(),
    }
}

/// The target to store in a link that leads to `source` from a directory
/// whose normal form is `home`.
fn relative_target(fs: &FileSystem, source: &StowPath, home: &StowPath) -> (r: StowPath)
    requires
        fs@.wf(),
        home@.absolute,
    ensures
        r@ == link_rel(fs@, source@, home@),
{
    let source_norm = normalized(fs, source);
    proof {
        lemma_view_wf(*source);
        lemma_normalize_absolute(fs@, source@);
    }
    match compute_relative_path(home, &source_norm) {
        Ok(rel) => rel,
        Err(_) => vstd::pervasive::unreached(),
    }
}

/// The normal form of the directory that holds `target`.
fn home_dir(fs: &FileSystem, target: &StowPath) -> (r: StowPath)
    requires
        fs@.wf(),
    ensures
        r@ == home_of(fs@, target@),
        r@.absolute,
{
    let parent = match target.parent() {
        Some(p) => p,
        None => target.clone(),
    };
    proof {
        lemma_view_wf(parent);
        lemma_normalize_absolute(fs@, parent@);
    }
    normalized(fs, &parent)
}

/// Whether a list of names holds a name.
fn holds_name(names: &Vec<String>, name: &String) -> (b: bool)
    ensures
        b == names.deep_view().contains(name@),
{
    let mut i: usize = 0;
    while i < names.len()
        invariant
            i <= names.len(),
            forall|j: int| 0 <= j < i ==> names.deep_view()[j] != name@,
        decreases names.len() - i,
    {
        if names[i] == *name {
            assert(names.deep_view()[i as int] == name@);
            return true;
        }
        i += 1;
    }
    false
}

/// The path of the location `dir` with `name` below it.
fn path_below(dir: &Vec<String>, name: &String) -> (r: (Vec<String>, StowPath))
    ensures
        r.0.deep_view() == dir.deep_view().push(name@),
        r.1@ == entry_path(dir.deep_view(), name@),
{
    let mut loc = dir.clone();
    loc.push(name.clone());
    assert(loc.deep_view() =~= dir.deep_view().push(name@));
    let path = StowPath::from_names(loc.clone());
    (loc, path)
}

/// Stow operation manager: the directories and rules of one invocation.
#[derive(Debug)]
pub struct Stower {
    stow_dir: StowPath,
    target_dir: StowPath,
    dry_run: bool,
    conflict_strategy: ConflictStrategy,
    patterns: PatternSet,
}

impl View for Stower {
    type V = StowerView;

    closed spec fn view(&self) -> StowerView {
        StowerView {
            stow_dir: self.stow_dir@,
            target_dir: self.target_dir@,
            dry_run: self.dry_run,
            conflict_strategy: self.conflict_strategy,
            patterns: self.patterns@,
        }
    }
}

impl Stower {
    /// The stower for a context, with the compiled patterns.
    pub fn from_context(context: &StowContext, patterns: PatternSet) -> (s: Self)
        ensures
            s@ == (StowerView {
                stow_dir: context@.stow_dir,
                target_dir: context@.target_dir,
                dry_run: context@.dry_run,
                conflict_strategy: context@.conflict_strategy,
                patterns: patterns@,
            }),
    {
        Stower {
            stow_dir: context.stow_dir().clone(),
            target_dir: context.target_dir().clone(),
            dry_run: context.is_dry_run(),
            conflict_strategy: context.conflict_strategy(),
            patterns,
        }
    }

    /// A stower that fails on conflicts and has no patterns.
    pub fn new(stow_dir: StowPath, target_dir: StowPath, _verbose: bool, dry_run: bool) -> (s: Self)
        ensures
            s@ == (StowerView {
                stow_dir: stow_dir@,
                target_dir: target_dir@,
                dry_run,
                conflict_strategy: ConflictStrategy::Fail,
                patterns: PatternSetView { ignore: Seq::empty(), defer: Seq::empty() },
            }),
    {
        Stower {
            stow_dir,
            target_dir,
            dry_run,
            conflict_strategy: ConflictStrategy::Fail,
            patterns: PatternSet::empty(),
        }
    }

    /// The same stower with another way to resolve conflicts.
    pub fn with_conflict_strategy(self, strategy: ConflictStrategy) -> (s: Self)
        ensures
            s@ == (StowerView { conflict_strategy: strategy, ..self@ }),
    {
        let mut s = self;
        s.conflict_strategy = strategy;
        s
    }

    /// The same stower with other ignore and defer patterns.
    pub fn with_patterns(self, patterns: PatternSet) -> (s: Self)
        ensures
            s@ == (StowerView { patterns: patterns@, ..self@ }),
    {
        let mut s = self;
        s.patterns = patterns;
        s
    }

    pub fn stow_dir(&self) -> (r: &StowPath)
        ensures
            r@ == self@.stow_dir,
    {
        &self.stow_dir
    }

    pub fn target_dir(&self) -> (r: &StowPath)
        ensures
            r@ == self@.target_dir,
    {
        &self.target_dir
    }

    pub fn is_dry_run(&self) -> (r: bool)
        ensures
            r == self@.dry_run,
    {
        self.dry_run
    }

    pub fn conflict_strategy(&self) -> (r: ConflictStrategy)
        ensures
            r == self@.conflict_strategy,
    {
        self.conflict_strategy
    }

    /// What is found at the target path `target`, whose last name is `name`.
    fn see(fs: &FileSystem, overlay: &Option<Overlay>, target: &StowPath, name: &String) -> (seen:
        Seen)
        requires
            fs@.wf(),
        ensures
            seen@ == see_spec(fs@, overlay_view(*overlay), target@, name@),
    {
        match overlay {
            None => observe(fs, target),
            Some(o) => {
                if holds_name(&o.names, name) {
                    let (_, path) = path_below(&o.prior, name);
                    let p = normalized(fs, &path);
                    Seen::Link { target: p.clone(), resolved: p }
                } else {
                    Seen::Absent
                }
            },
        }
    }

    /// How a directory of a package is installed, given what is seen at its
    /// target.
    fn decide(fs: &FileSystem, source: &StowPath, seen: &Seen) -> (d: FoldDecision)
        requires
            fs@.wf(),
        ensures
            d@ == decide_spec(fs@, source@, seen@),
    {
        match seen {
            Seen::Absent => FoldDecision::Fold,
            Seen::Link { target, resolved } => {
                let source_norm = normalized(fs, source);
                if paths_equal(fs, resolved, &source_norm) {
                    FoldDecision::Fold
                } else {
                    FoldDecision::Unfold(target.clone())
                }
            },
            Seen::Directory => FoldDecision::Traverse,
            Seen::Other => FoldDecision::Conflict,
        }
    }

    /// Decides how the package directory `source_path` is installed at
    /// `target_path`: folded where nothing is there or a link to it is,
    /// unfolded where a link leads elsewhere, traversed where a real
    /// directory is, and in conflict with anything else.
    pub fn decide_fold(&self, fs: &FileSystem, source_path: &StowPath, target_path: &StowPath) -> (r:
        Result<FoldDecision, StowError>)
        requires
            fs@.wf(),
        ensures
            r matches Ok(d) && d@ == decide_spec(
                fs@,
                source_path@,
                observe_spec(fs@, target_path@),
            ),
    {
        let seen = observe(fs, target_path);
        Ok(Self::decide(fs, source_path, &seen))
    }

    /// Plans a file of a package, given what is seen at its target.
    fn plan_file(
        &self,
        fs: &FileSystem,
        source: &StowPath,
        target: &StowPath,
        home: &StowPath,
        seen: &Seen,
        out: &mut Plan,
    ) -> (r: Result<(), StowError>)
        requires
            fs@.wf(),
            home@.absolute,
        ensures
            extends(
                old(out)@,
                old(out).moves(),
                *final(out),
                r,
                plan_file_spec(self@, fs@, source@, target@, home@, seen@),
            ),
            r is Err ==> *final(out) == *old(out),
    {
        let ghost a0 = out@;
        let ghost m0 = out.moves();
        let is_link = match seen {
            Seen::Link { .. } => true,
            _ => false,
        };
        match seen {
            Seen::Absent => {},
            _ => {
                if self.patterns.should_defer(source) {
                    assert(a0 + Seq::<ActionView>::empty() =~= a0);
                    assert(m0 + Seq::<RelocationView>::empty() =~= m0);
                    return Ok(());
                }
                let linked = match seen {
                    Seen::Link { resolved, .. } => {
                        let source_norm = normalized(fs, source);
                        paths_equal(fs, resolved, &source_norm)
                    },
                    _ => false,
                };
                if linked {
                    assert(a0 + Seq::<ActionView>::empty() =~= a0);
                    assert(m0 + Seq::<RelocationView>::empty() =~= m0);
                    return Ok(());
                }
                match self.conflict_strategy {
                    ConflictStrategy::Fail => {
                        return Err(StowError::conflict(target.clone()));
                    },
                    ConflictStrategy::Adopt => {
                        if is_link {
                            let mut m = String::from_str(
                                "Target is already a symlink, cannot adopt: ",
                            );
                            let t = target.to_string();
                            m.append(t.as_str());
                            return Err(StowError::invalid_path(m.as_str()));
                        }
                        out.add_relocation(
                            Relocation::AdoptFile {
                                target: target.clone(),
                                package: source.clone(),
                            },
                        );
                    },
                    ConflictStrategy::Override => {
                        if !is_link {
                            out.add_relocation(Relocation::Override { target: target.clone() });
                        }
                    },
                }
            },
        }
        let rel = relative_target(fs, source, home);
        out.add(Action::CreateFileLink { link_path: target.clone(), target_path: rel });
        proof {
            let a = file_link(fs@, source@, target@, home@);
            assert(out@ =~= a0 + seq![a]);
            assert(m0 + Seq::<RelocationView>::empty() =~= m0);
            assert(forall|x: RelocationView| m0.push(x) =~= m0 + seq![x]);
        }
        Ok(())
    }

    /// Plans the file `source_path` of a package at `target_path`: a link
    /// where nothing is there; nothing where the link is there already or
    /// the file is deferred; else the conflict is resolved by the strategy.
    /// A failure leaves the plan as it was.
    pub fn plan_stow_file(
        &self,
        fs: &FileSystem,
        source_path: &StowPath,
        target_path: &StowPath,
        plan: &mut Plan,
    ) -> (r: Result<(), StowError>)
        requires
            fs@.wf(),
        ensures
            extends(
                old(plan)@,
                old(plan).moves(),
                *final(plan),
                r,
                plan_file_spec(
                    self@,
                    fs@,
                    source_path@,
                    target_path@,
                    home_of(fs@, target_path@),
                    observe_spec(fs@, target_path@),
                ),
            ),
            r is Err ==> *final(plan) == *old(plan),
    {
        let seen = observe(fs, target_path);
        let home = home_dir(fs, target_path);
        self.plan_file(fs, source_path, target_path, &home, &seen, plan)
    }
}

/// Whether the walk over the first lines of a listing has planned what the
/// model plans for them: what the model makes of all lines is what was
/// planned so far followed by what it makes of the lines left.
pub open spec fn on_course(
    actions: Seq<ActionView>,
    moves: Seq<RelocationView>,
    now: Plan,
    all: Result<Planned, ErrorView>,
    left: Result<Planned, ErrorView>,
) -> bool {
    match left {
        Err(e) => all == Err::<Planned, ErrorView>(e),
        Ok(p) => all matches Ok(q) && actions + q.actions == now@ + p.actions && moves + q.moves
            == now.moves() + p.moves,
    }
}

impl Stower {
    /// Plans one link for each entry of the directory at `dir` that is not
    /// ignored, in a target directory that holds nothing yet.
    fn plan_fresh(
        &self,
        fs: &FileSystem,
        dir: &Vec<String>,
        target: &StowPath,
        home: &StowPath,
        lines: &Vec<DirEntry>,
        out: &mut Plan,
    )
        requires
            fs@.wf(),
            home@.absolute,
        ensures
            final(out)@ == old(out)@ + plan_fresh_spec(
                self@,
                fs@,
                dir.deep_view(),
                target@,
                home@,
                listing_view(lines@),
            ).actions,
            final(out).moves() == old(out).moves() + plan_fresh_spec(
                self@,
                fs@,
                dir.deep_view(),
                target@,
                home@,
                listing_view(lines@),
            ).moves,
    {
        let ghost a0 = out@;
        let ghost m0 = out.moves();
        let ghost all = listing_view(lines@);
        let mut i: usize = 0;
        assert(all.skip(0) =~= all);
        while i < lines.len()
            invariant
                i <= lines.len(),
                fs@.wf(),
                home@.absolute,
                all == listing_view(lines@),
                a0 + plan_fresh_spec(self@, fs@, dir.deep_view(), target@, home@, all).actions
                    == out@ + plan_fresh_spec(
                    self@,
                    fs@,
                    dir.deep_view(),
                    target@,
                    home@,
                    all.skip(i as int),
                ).actions,
                m0 + plan_fresh_spec(self@, fs@, dir.deep_view(), target@, home@, all).moves
                    == out.moves() + plan_fresh_spec(
                    self@,
                    fs@,
                    dir.deep_view(),
                    target@,
                    home@,
                    all.skip(i as int),
                ).moves,
            decreases lines.len() - i,
        {
            let ghost before = out@;
            let ghost left = all.skip(i as int);
            let ghost rest = plan_fresh_spec(
                self@,
                fs@,
                dir.deep_view(),
                target@,
                home@,
                left.skip(1),
            );
            proof {
                assert(left[0] == lines[i as int]@);
                assert(left.skip(1) =~= all.skip(i + 1));
            }
            let line = &lines[i];
            let (_, source) = path_below(dir, &line.name);
            if !self.patterns.should_ignore(&source) {
                let link = target.child(line.name.as_str());
                let rel = relative_target(fs, &source, home);
                if line.is_dir {
                    out.add(Action::CreateDirLink { link_path: link, target_path: rel });
                } else {
                    out.add(Action::CreateFileLink { link_path: link, target_path: rel });
                }
                proof {
                    let a = if line.is_dir {
                        dir_link(fs@, source@, target@.child(line.name@), home@)
                    } else {
                        file_link(fs@, source@, target@.child(line.name@), home@)
                    };
                    assert(out@ == before.push(a));
                    assert(before.push(a) + rest.actions =~= before + (seq![a] + rest.actions));
                    assert(Seq::<RelocationView>::empty() + rest.moves =~= rest.moves);
                }
            }
            i += 1;
        }
        proof {
            assert(all.skip(lines.len() as int) =~= Seq::empty());
            assert(out@ + Seq::<ActionView>::empty() =~= out@);
            assert(out.moves() + Seq::<RelocationView>::empty() =~= out.moves());
        }
    }

    /// The names of the entries of the directory at `dir` that are not
    /// ignored.
    fn linked(&self, dir: &Vec<String>, lines: &Vec<DirEntry>) -> (names: Vec<String>)
        ensures
            names.deep_view() == linked_names(self@, dir.deep_view(), listing_view(lines@)),
    {
        let mut names: Vec<String> = Vec::new();
        let ghost all = listing_view(lines@);
        let mut i: usize = 0;
        assert(all.skip(0) =~= all);
        assert(names.deep_view() =~= Seq::empty());
        assert(Seq::<Seq<char>>::empty() + linked_names(self@, dir.deep_view(), all)
            =~= linked_names(self@, dir.deep_view(), all));
        while i < lines.len()
            invariant
                i <= lines.len(),
                all == listing_view(lines@),
                linked_names(self@, dir.deep_view(), all) == names.deep_view() + linked_names(
                    self@,
                    dir.deep_view(),
                    all.skip(i as int),
                ),
            decreases lines.len() - i,
        {
            let ghost before = names.deep_view();
            let ghost left = all.skip(i as int);
            let ghost rest = linked_names(self@, dir.deep_view(), left.skip(1));
            proof {
                assert(left[0] == lines[i as int]@);
                assert(left.skip(1) =~= all.skip(i + 1));
            }
            let line = &lines[i];
            let (_, source) = path_below(dir, &line.name);
            if !self.patterns.should_ignore(&source) {
                names.push(line.name.clone());
                proof {
                    assert(names.deep_view() =~= before.push(line.name@));
                    assert(before.push(line.name@) + rest =~= before + (seq![line.name@] + rest));
                }
            }
            i += 1;
        }
        proof {
            assert(all.skip(lines.len() as int) =~= Seq::empty());
            assert(names.deep_view() + Seq::<Seq<char>>::empty() =~= names.deep_view());
        }
        names
    }

    /// Plans the entries of the package directory at location `dir`,
    /// mirrored at `target`.
    fn plan_entries(
        &self,
        fs: &FileSystem,
        dir: &Vec<String>,
        target: &StowPath,
        home: &StowPath,
        overlay: &Option<Overlay>,
        lines: &Vec<DirEntry>,
        out: &mut Plan,
    ) -> (r: Result<(), StowError>)
        requires
            fs@.wf(),
            home@.absolute,
            listing_view(lines@) == listing(fs@.entries, dir.deep_view()),
            room(fs@, dir.deep_view()) >= 0,
        ensures
            extends(
                old(out)@,
                old(out).moves(),
                *final(out),
                r,
                plan_entries_spec(
                    self@,
                    fs@,
                    dir.deep_view(),
                    target@,
                    home@,
                    overlay_view(*overlay),
                    listing_view(lines@),
                ),
            ),
        decreases room(fs@, dir.deep_view()), 1nat,
    {
        let ghost a0 = out@;
        let ghost m0 = out.moves();
        let ghost all = listing_view(lines@);
        let ghost d = dir.deep_view();
        let ghost ov = overlay_view(*overlay);
        let ghost whole = plan_entries_spec(self@, fs@, d, target@, home@, ov, all);
        let mut i: usize = 0;
        assert(all.skip(0) =~= all);
        while i < lines.len()
            invariant
                i <= lines.len(),
                fs@.wf(),
                d == dir.deep_view(),
                ov == overlay_view(*overlay),
                all == listing_view(lines@),
                all == listing(fs@.entries, d),
                room(fs@, d) >= 0,
                home@.absolute,
                whole == plan_entries_spec(self@, fs@, d, target@, home@, ov, all),
                on_course(
                    a0,
                    m0,
                    *out,
                    whole,
                    plan_entries_spec(self@, fs@, d, target@, home@, ov, all.skip(i as int)),
                ),
            decreases lines.len() - i,
        {
            let ghost before = out@;
            let ghost before_moves = out.moves();
            let ghost left = all.skip(i as int);
            proof {
                assert(left[0] == lines[i as int]@);
                assert(left.skip(1) =~= all.skip(i + 1));
                lemma_listing_line(fs@.entries, d, i as int);
                let k = choose|k: int|
                    0 <= k < fs@.entries.len() && (#[trigger] fs@.entries[k]).path == d.push(
                        all[i as int].name,
                    ) && all[i as int].is_dir == (fs@.entries[k].node is Dir);
                lemma_max_len(fs@.entries, k);
            }
            let line = &lines[i];
            let (child, source) = path_below(dir, &line.name);
            let first = if self.patterns.should_ignore(&source) {
                Ok(())
            } else {
                let link = target.child(line.name.as_str());
                let seen = Self::see(fs, overlay, &link, &line.name);
                if line.is_dir {
                    self.plan_dir_item(fs, &child, &source, &link, home, &seen, out)
                } else {
                    self.plan_file(fs, &source, &link, home, &seen, out)
                }
            };
            match first {
                Err(e) => {
                    return Err(e);
                },
                Ok(()) => {},
            }
            proof {
                let rest = plan_entries_spec(self@, fs@, d, target@, home@, ov, left.skip(1));
                assert(before + Seq::<ActionView>::empty() =~= before);
                assert(before_moves + Seq::<RelocationView>::empty() =~= before_moves);
                match rest {
                    Ok(b) => {
                        let a = Planned {
                            actions: out@.skip(before.len() as int),
                            moves: out.moves().skip(before_moves.len() as int),
                        };
                        assert(forall|x: Seq<ActionView>, y: Seq<ActionView>|
                            #![auto]
                            (before + x) + y =~= before + (x + y));
                        assert(forall|x: Seq<RelocationView>, y: Seq<RelocationView>|
                            #![auto]
                            (before_moves + x) + y =~= before_moves + (x + y));
                    },
                    Err(_) => {},
                }
            }
            i += 1;
        }
        proof {
            assert(all.skip(lines.len() as int) =~= Seq::empty());
            assert(out@ + Seq::<ActionView>::empty() =~= out@);
            assert(out.moves() + Seq::<RelocationView>::empty() =~= out.moves());
        }
        Ok(())
    }

    /// Plans the package directory at location `dir`, whose path is
    /// `source`, given what is seen at its target.
    fn plan_dir_item(
        &self,
        fs: &FileSystem,
        dir: &Vec<String>,
        source: &StowPath,
        target: &StowPath,
        home: &StowPath,
        seen: &Seen,
        out: &mut Plan,
    ) -> (r: Result<(), StowError>)
        requires
            fs@.wf(),
            home@.absolute,
            source@ == PathView::absolute_of(dir.deep_view()),
            room(fs@, dir.deep_view()) >= 0,
        ensures
            extends(
                old(out)@,
                old(out).moves(),
                *final(out),
                r,
                plan_dir_item_spec(self@, fs@, dir.deep_view(), target@, home@, seen@),
            ),
        decreases room(fs@, dir.deep_view()) + 1, 0nat,
    {
        let ghost a0 = out@;
        let ghost m0 = out.moves();
        let absent = match seen {
            Seen::Absent => true,
            _ => false,
        };
        proof {
            assert(a0 + Seq::<ActionView>::empty() =~= a0);
            assert(m0 + Seq::<RelocationView>::empty() =~= m0);
        }
        if !absent && self.patterns.should_defer(source) {
            return Ok(());
        }
        match Self::decide(fs, source, seen) {
            FoldDecision::Fold => {
                let rel = relative_target(fs, source, home);
                out.add(Action::CreateDirLink { link_path: target.clone(), target_path: rel });
                assert(out@ =~= a0 + seq![dir_link(fs@, source@, target@, home@)]);
                Ok(())
            },
            FoldDecision::Unfold(prior) => {
                out.add(
                    Action::UnfoldDirLink {
                        link_path: target.clone(),
                        original_target: prior.clone(),
                    },
                );
                let ghost head = ActionView::UnfoldDirLink {
                    link_path: target@,
                    original_target: prior@,
                };
                let inside = match target.file_name() {
                    Some(name) => home.child(name.as_str()),
                    None => home.clone(),
                };
                let overlay = match fs.read_dir(&prior) {
                    Ok(prior_lines) => {
                        match fs.locate(&prior, true) {
                            Ok(place) => {
                                self.plan_fresh(fs, &place, target, &inside, &prior_lines, out);
                                let names = self.linked(&place, &prior_lines);
                                Some(Overlay { prior: place, names })
                            },
                            Err(_) => vstd::pervasive::unreached(),
                        }
                    },
                    Err(_) => {
                        let o = Overlay { prior: Vec::new(), names: Vec::new() };
                        assert(o.prior.deep_view() =~= Seq::empty());
                        assert(o.names.deep_view() =~= Seq::empty());
                        Some(o)
                    },
                };
                let ghost fresh = unfolded_links(self@, fs@, prior@, target@, inside@);
                proof {
                    assert(out@ =~= a0 + (seq![head] + fresh.actions));
                    assert(out.moves() =~= m0 + fresh.moves);
                    assert(overlay_view(overlay) == Some(unfolded_overlay(self@, fs@, prior@)));
                }
                let lines = fs.list_at(dir);
                let ghost mid = out@;
                let ghost mid_moves = out.moves();
                match self.plan_entries(fs, dir, target, &inside, &overlay, &lines, out) {
                    Err(e) => Err(e),
                    Ok(()) => {
                        proof {
                            let rest = plan_entries_spec(
                                self@,
                                fs@,
                                dir.deep_view(),
                                target@,
                                inside@,
                                Some(unfolded_overlay(self@, fs@, prior@)),
                                listing(fs@.entries, dir.deep_view()),
                            )->Ok_0;
                            assert(out@ =~= a0 + ((seq![head] + fresh.actions) + rest.actions));
                            assert(out.moves() =~= m0 + ((Seq::<RelocationView>::empty()
                                + fresh.moves) + rest.moves));
                        }
                        Ok(())
                    },
                }
            },
            FoldDecision::Traverse => {
                let lines = fs.list_at(dir);
                let none: Option<Overlay> = None;
                proof {
                    lemma_view_wf(*target);
                    lemma_normalize_absolute(fs@, target@);
                }
                let inside = normalized(fs, target);
                self.plan_entries(fs, dir, target, &inside, &none, &lines, out)
            },
            FoldDecision::Conflict => {
                match self.conflict_strategy {
                    ConflictStrategy::Fail => {
                        return Err(StowError::conflict(target.clone()));
                    },
                    ConflictStrategy::Adopt => {
                        if fs.is_dir(target) {
                            out.add_relocation(
                                Relocation::AdoptDirectory {
                                    target: target.clone(),
                                    package: source.clone(),
                                },
                            );
                        } else {
                            out.add_relocation(
                                Relocation::AdoptFile {
                                    target: target.clone(),
                                    package: source.clone(),
                                },
                            );
                        }
                    },
                    ConflictStrategy::Override => {
                        out.add_relocation(Relocation::Override { target: target.clone() });
                    },
                }
                let rel = relative_target(fs, source, home);
                out.add(Action::CreateDirLink { link_path: target.clone(), target_path: rel });
                proof {
                    assert(out@ =~= a0 + seq![dir_link(fs@, source@, target@, home@)]);
                    assert(forall|x: RelocationView| m0.push(x) =~= m0 + seq![x]);
                }
                Ok(())
            },
        }
    }

    /// Plans the directory that `source_dir` leads to, mirrored at
    /// `target_parent`: each entry that is not ignored is planned as a file
    /// or as a directory. A failure leaves the plan as it was.
    pub fn plan_stow_directory(
        &self,
        fs: &FileSystem,
        source_dir: &StowPath,
        target_parent: &StowPath,
        plan: &mut Plan,
    ) -> (r: Result<(), StowError>)
        requires
            fs@.wf(),
        ensures
            extends(
                old(plan)@,
                old(plan).moves(),
                *final(plan),
                r,
                plan_directory_spec(self@, fs@, source_dir@, target_parent@),
            ),
            r is Err ==> *final(plan) == *old(plan),
    {
        match fs.read_dir(source_dir) {
            Err(k) => Err(StowError::io_error(source_dir.clone(), k)),
            Ok(lines) => {
                match fs.locate(source_dir, true) {
                    Err(_) => vstd::pervasive::unreached(),
                    Ok(place) => {
                        proof {
                            lemma_room(fs@, place.deep_view());
                        }
                        let mut part = Plan::new();
                        let none: Option<Overlay> = None;
                        proof {
                            lemma_view_wf(*target_parent);
                            lemma_normalize_absolute(fs@, target_parent@);
                        }
                        let home = normalized(fs, target_parent);
                        match self.plan_entries(
                            fs,
                            &place,
                            target_parent,
                            &home,
                            &none,
                            &lines,
                            &mut part,
                        ) {
                            Err(e) => Err(e),
                            Ok(()) => {
                                proof {
                                    assert(Seq::<ActionView>::empty() + part@ =~= part@);
                                    assert(Seq::<RelocationView>::empty() + part.moves()
                                        =~= part.moves());
                                }
                                plan.append(part);
                                Ok(())
                            },
                        }
                    },
                }
            },
        }
    }

    /// The plan for installing the package `package_name`.
    pub fn plan_package(&self, fs: &FileSystem, package_name: &str) -> (r: Result<Plan, StowError>)
        requires
            fs@.wf(),
        ensures
            match plan_package_spec(self@, fs@, package_name@) {
                Ok(p) => r matches Ok(plan) && plan@ == p.actions && plan.moves() == p.moves,
                Err(e) => r matches Err(x) && x@ == e,
            },
    {
        let package_path = self.stow_dir.child(package_name);
        if !fs.path_exists(&package_path) {
            return Err(StowError::package_not_found(package_name, self.stow_dir.clone()));
        }
        if !fs.is_dir(&package_path) {
            let mut m = String::from_str("Package '");
            m.append(package_name);
            m.append("' is not a directory");
            return Err(StowError::invalid_path(m.as_str()));
        }
        let mut plan = Plan::new();
        match self.plan_stow_directory(fs, &package_path, &self.target_dir, &mut plan) {
            Err(e) => Err(e),
            Ok(()) => {
                proof {
                    assert(forall|x: Seq<ActionView>| Seq::<ActionView>::empty() + x =~= x);
                    assert(forall|x: Seq<RelocationView>| Seq::<RelocationView>::empty() + x =~= x);
                }
                Ok(plan)
            },
        }
    }
}

/// What installing the package `name` does: the plan is made and executed.
/// Where no plan can be made, nothing is changed.
pub open spec fn stow_package_spec(cfg: StowerView, fs: FsView, name: Seq<char>) -> Step {
    match plan_package_spec(cfg, fs, name) {
        Err(e) => Step { fs, err: Some(e) },
        Ok(p) => execute_plan_spec(fs, p.moves, p.actions, cfg.dry_run),
    }
}

impl Stower {
    /// Installs the package `package_name`: the plan for it is made and
    /// executed. A dry run changes nothing.
    pub fn stow_package(&self, fs: &mut FileSystem, package_name: &str) -> (r: Result<
        (),
        StowError,
    >)
        requires
            old(fs)@.wf(),
        ensures
            final(fs)@.wf(),
            stepped(final(fs)@, r, stow_package_spec(self@, old(fs)@, package_name@)),
    {
        match self.plan_package(fs, package_name) {
            Err(e) => Err(e),
            Ok(plan) => plan.execute(fs, self.dry_run),
        }
    }
}

/// A location at which something is has room in the walk.
pub proof fn lemma_room(fs: FsView, dir: Seq<Seq<char>>)
    requires
        fs.node_at(dir) is Some,
    ensures
        room(fs, dir) >= 0,
{
    lemma_present(fs, dir);
    if dir.len() > 0 {
        let i = fs.index_of(dir);
        lemma_max_len(fs.entries, i);
    }
}

/// The package entry that a target path stands for: the names that the
/// path has below `target`, taken below the package directory at `dir`.
pub open spec fn source_for(dir: Seq<Seq<char>>, target: PathView, path: PathView) -> PathView {
    entry_below(dir, path.names.skip(target.names.len() as int))
}

/// The path of what lies the names `more` below the location `dir`.
pub open spec fn entry_below(dir: Seq<Seq<char>>, more: Seq<Seq<char>>) -> PathView {
    PathView::absolute_of(dir + more)
}

} // verus!
