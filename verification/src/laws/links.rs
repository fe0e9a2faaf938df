//! The links of a plan: each stores the relative path that leads from its
//! directory to its source, and no two are made at the same path.

use vstd::prelude::*;
use crate::error::IoErrorKind;
use crate::fs_model::{
    lemma_listing_distinct, listing, names_distinct, walk_in, DirEntryView, FsView, MAX_LINK_HOPS,
    NodeView,
};
use crate::path_utils::{lemma_relative_leads_back, PathView};
use crate::planner::ActionView;
use crate::resolve::{lemma_normalize_fixed, lemma_walk_canonical, lemma_walk_last};
use crate::stow::{
    decide_spec, dir_link, entry_path, file_link, lemma_normalize_absolute, link_rel, observe_spec,
    plan_dir_item_spec, plan_entries_spec, plan_file_spec, plan_package_spec, room, see_spec,
    source_for, unfolded_home, FoldDecisionView, Planned, StowerView,
};

verus! {

/// Relative-target correctness: the target stored in a link, taken from the
/// normal form of the directory that holds the link, is the normal form of
/// the source.
pub proof fn lemma_link_leads_to_source(fs: FsView, source: PathView, home: PathView)
    requires
        source.wf(),
        home.wf(),
        home.absolute,
    ensures
        home.join(link_rel(fs, source, home)) == fs.normalize(source),
{
    lemma_normalize_absolute(fs, source);
    lemma_relative_leads_back(home, fs.normalize(source));
}

/// Whether no action replaces a link by a directory.
pub open spec fn no_unfold(actions: Seq<ActionView>) -> bool {
    forall|i: int| 0 <= i < actions.len() ==> !((#[trigger] actions[i]) is UnfoldDirLink)
}

/// Whether no two actions make a link at the same path.
pub open spec fn distinct_creates(actions: Seq<ActionView>) -> bool {
    forall|i: int, j: int|
        0 <= i < j < actions.len() && (#[trigger] actions[i]).is_create() && (
        #[trigger] actions[j]).is_create() ==> actions[i].subject() != actions[j].subject()
}

/// The target that an action stores in the link it makes.
pub open spec fn stored_target(action: ActionView) -> PathView {
    match action {
        ActionView::CreateFileLink { target_path, .. } => target_path,
        ActionView::CreateDirLink { target_path, .. } => target_path,
        _ => PathView::root(),
    }
}

/// Whether a link made at `link` suits the walk of the package directory at
/// `dir` mirrored at `target`: the link lies below `target`, and it stores
/// the relative path from the normal form of its directory to the normal
/// form of the package entry that it stands for.
pub open spec fn link_fits(
    fs: FsView,
    dir: Seq<Seq<char>>,
    target: PathView,
    action: ActionView,
) -> bool {
    let link = action.subject();
    &&& link.is_below(target)
    &&& stored_target(action) == link_rel(
        fs,
        source_for(dir, target, link),
        fs.normalize(link.parent().unwrap()),
    )
}

/// Whether every link that `actions` makes suits the walk, and starts below
/// `target` with one of `names`.
pub open spec fn links_fit(
    fs: FsView,
    dir: Seq<Seq<char>>,
    target: PathView,
    lines: Seq<DirEntryView>,
    actions: Seq<ActionView>,
) -> bool {
    forall|i: int|
        0 <= i < actions.len() && (#[trigger] actions[i]).is_create() ==> link_fits(
            fs,
            dir,
            target,
            actions[i],
        ) && exists|k: int|
            0 <= k < lines.len() && (#[trigger] lines[k]).name == actions[i].subject().names[target.names.len() as int]
}

/// A link at a child of `target` for the entry `name` of `dir` suits the
/// walk.
proof fn lemma_child_fits(
    fs: FsView,
    dir: Seq<Seq<char>>,
    target: PathView,
    name: Seq<char>,
    action: ActionView,
)
    requires
        action.is_create(),
        action.subject() == target.child(name),
        stored_target(action) == link_rel(fs, entry_path(dir, name), fs.normalize(target)),
    ensures
        link_fits(fs, dir, target, action),
        action.subject().names[target.names.len() as int] == name,
{
    let link = target.child(name);
    assert(link.names.take(target.names.len() as int) =~= target.names);
    assert(dir + link.names.skip(target.names.len() as int) =~= dir.push(name));
    assert(link.parent().unwrap().names =~= target.names);
    assert(link.parent().unwrap() == target);
}

/// A link that suits the walk of a child directory suits the walk of the
/// directory that holds it.
proof fn lemma_fits_above(
    fs: FsView,
    dir: Seq<Seq<char>>,
    target: PathView,
    name: Seq<char>,
    action: ActionView,
)
    requires
        link_fits(fs, dir.push(name), target.child(name), action),
    ensures
        link_fits(fs, dir, target, action),
        action.subject().names[target.names.len() as int] == name,
{
    let link = action.subject();
    let t = target.names.len() as int;
    assert(link.names.take(t) =~= link.names.take(t + 1).take(t));
    assert(target.child(name).names.take(t) =~= target.names);
    assert(link.names.take(t + 1)[t] == name);
    assert(dir + link.names.skip(t) =~= dir.push(name) + link.names.skip(t + 1));
}

/// No duplicate links, and relative-target correctness, for the walk over
/// the entries of a package directory mirrored at a real directory: where
/// the plan replaces no link by a directory, no two of its actions make a
/// link at the same path, and every link it makes stores the relative path
/// from the normal form of its directory to the normal form of the package
/// entry that it stands for.
pub proof fn lemma_entries_link_once(
    cfg: StowerView,
    fs: FsView,
    dir: Seq<Seq<char>>,
    target: PathView,
    lines: Seq<DirEntryView>,
)
    requires
        fs.wf(),
        names_distinct(lines),
        plan_entries_spec(cfg, fs, dir, target, fs.normalize(target), None, lines) is Ok,
        no_unfold(
            plan_entries_spec(cfg, fs, dir, target, fs.normalize(target), None, lines)->Ok_0.actions,
        ),
    ensures
        distinct_creates(
            plan_entries_spec(cfg, fs, dir, target, fs.normalize(target), None, lines)->Ok_0.actions,
        ),
        links_fit(
            fs,
            dir,
            target,
            lines,
            plan_entries_spec(cfg, fs, dir, target, fs.normalize(target), None, lines)->Ok_0.actions,
        ),
    decreases room(fs, dir), lines.len(),
{
    let home = fs.normalize(target);
    let whole = plan_entries_spec(cfg, fs, dir, target, home, None, lines)->Ok_0.actions;
    if lines.len() > 0 {
        let name = lines[0].name;
        let source = entry_path(dir, name);
        let link = target.child(name);
        let seen = observe_spec(fs, link);
        let first = if cfg.patterns.should_ignore(source) {
            Ok(Planned::nothing())
        } else if lines[0].is_dir {
            if room(fs, dir) > 0 {
                plan_dir_item_spec(cfg, fs, dir.push(name), link, home, seen)
            } else {
                Ok(Planned::nothing())
            }
        } else {
            plan_file_spec(cfg, fs, source, link, home, seen)
        };
        let a = first->Ok_0.actions;
        let tail = lines.skip(1);
        let b = plan_entries_spec(cfg, fs, dir, target, home, None, tail)->Ok_0.actions;
        assert(whole == a + b);
        assert forall|i: int, j: int| 0 <= i < j < tail.len() implies (#[trigger] tail[i]).name != (
        #[trigger] tail[j]).name by {
            assert(tail[i] == lines[i + 1]);
            assert(tail[j] == lines[j + 1]);
        }
        assert forall|i: int| 0 <= i < b.len() implies !((#[trigger] b[i]) is UnfoldDirLink) by {
            assert(whole[a.len() + i] == b[i]);
        }
        assert forall|i: int| 0 <= i < a.len() implies !((#[trigger] a[i]) is UnfoldDirLink) by {
            assert(whole[i] == a[i]);
        }
        lemma_entries_link_once(cfg, fs, dir, target, tail);
        // The links of the first entry start with its name.
        assert(distinct_creates(a) && forall|i: int|
            0 <= i < a.len() && (#[trigger] a[i]).is_create() ==> link_fits(fs, dir, target, a[i])
                && a[i].subject().names[target.names.len() as int] == name) by {
            if cfg.patterns.should_ignore(source) {
            } else if lines[0].is_dir {
                if room(fs, dir) > 0 {
                    lemma_dir_item_links_once(cfg, fs, dir, target, name);
                }
            } else {
                assert forall|i: int| 0 <= i < a.len() && (#[trigger] a[i]).is_create() implies link_fits(
                    fs,
                    dir,
                    target,
                    a[i],
                ) && a[i].subject().names[target.names.len() as int] == name by {
                    lemma_child_fits(fs, dir, target, name, a[i]);
                }
            }
        }
        assert forall|i: int| 0 <= i < whole.len() && (#[trigger] whole[i]).is_create() implies link_fits(
            fs,
            dir,
            target,
            whole[i],
        ) && exists|k: int|
            0 <= k < lines.len() && (#[trigger] lines[k]).name
                == whole[i].subject().names[target.names.len() as int] by {
            if i < a.len() {
                assert(whole[i] == a[i]);
                assert(lines[0].name == name);
            } else {
                assert(whole[i] == b[i - a.len()]);
                let k = choose|k: int|
                    0 <= k < tail.len() && (#[trigger] tail[k]).name == b[i
                        - a.len()].subject().names[target.names.len() as int];
                assert(lines[k + 1] == tail[k]);
            }
        }
        assert forall|i: int, j: int|
            0 <= i < j < whole.len() && (#[trigger] whole[i]).is_create() && (
            #[trigger] whole[j]).is_create() implies whole[i].subject() != whole[j].subject() by {
            if j < a.len() {
                assert(whole[i] == a[i]);
                assert(whole[j] == a[j]);
            } else if i >= a.len() {
                assert(whole[i] == b[i - a.len()]);
                assert(whole[j] == b[j - a.len()]);
            } else {
                assert(whole[i] == a[i]);
                assert(whole[j] == b[j - a.len()]);
                let k = choose|k: int|
                    0 <= k < tail.len() && (#[trigger] tail[k]).name == b[j
                        - a.len()].subject().names[target.names.len() as int];
                assert(tail[k] == lines[k + 1]);
                assert(lines[0].name != lines[k + 1].name);
            }
        }
    }
}

/// The same for one directory of a package, seen from the directory that
/// holds it.
proof fn lemma_dir_item_links_once(
    cfg: StowerView,
    fs: FsView,
    dir: Seq<Seq<char>>,
    target: PathView,
    name: Seq<char>,
)
    requires
        fs.wf(),
        room(fs, dir) > 0,
        plan_dir_item_spec(
            cfg,
            fs,
            dir.push(name),
            target.child(name),
            fs.normalize(target),
            observe_spec(fs, target.child(name)),
        ) is Ok,
        no_unfold(
            plan_dir_item_spec(
                cfg,
                fs,
                dir.push(name),
                target.child(name),
                fs.normalize(target),
                observe_spec(fs, target.child(name)),
            )->Ok_0.actions,
        ),
    ensures
        ({
            let a = plan_dir_item_spec(
                cfg,
                fs,
                dir.push(name),
                target.child(name),
                fs.normalize(target),
                observe_spec(fs, target.child(name)),
            )->Ok_0.actions;
            distinct_creates(a) && forall|i: int|
                0 <= i < a.len() && (#[trigger] a[i]).is_create() ==> link_fits(
                    fs,
                    dir,
                    target,
                    a[i],
                ) && a[i].subject().names[target.names.len() as int] == name
        }),
    decreases room(fs, dir), 0nat,
{
    let sub = dir.push(name);
    let link = target.child(name);
    let home = fs.normalize(target);
    let seen = observe_spec(fs, link);
    let source = PathView::absolute_of(sub);
    let a = plan_dir_item_spec(cfg, fs, sub, link, home, seen)->Ok_0.actions;
    if !(seen is Absent) && cfg.patterns.should_defer(source) {
    } else {
        match decide_spec(fs, source, seen) {
            FoldDecisionView::Unfold(prior) => {
                let inside = unfolded_home(link, home);
                let head = ActionView::UnfoldDirLink { link_path: link, original_target: prior };
                assert(a[0] == head);
            },
            FoldDecisionView::Traverse => {
                if room(fs, sub) >= 0 {
                    let lines = listing(fs.entries, sub);
                    lemma_listing_distinct(fs.entries, sub);
                    lemma_entries_link_once(cfg, fs, sub, link, lines);
                    assert forall|i: int| 0 <= i < a.len() && (#[trigger] a[i]).is_create() implies link_fits(
                        fs,
                        dir,
                        target,
                        a[i],
                    ) && a[i].subject().names[target.names.len() as int] == name by {
                        lemma_fits_above(fs, dir, target, name, a[i]);
                    }
                }
            },
            _ => {
                assert forall|i: int| 0 <= i < a.len() && (#[trigger] a[i]).is_create() implies link_fits(
                    fs,
                    dir,
                    target,
                    a[i],
                ) && a[i].subject().names[target.names.len() as int] == name by {
                    lemma_child_fits(fs, dir, target, name, a[i]);
                }
            },
        }
    }
}

/// No duplicate links: a plan for installing a package that replaces no
/// link by a directory makes no two links at the same path, and each link
/// it makes stores the relative path from the normal form of its directory
/// to the normal form of the package entry that it stands for.
pub proof fn lemma_package_links_once(cfg: StowerView, fs: FsView, name: Seq<char>)
    requires
        fs.wf(),
        plan_package_spec(cfg, fs, name) is Ok,
        no_unfold(plan_package_spec(cfg, fs, name)->Ok_0.actions),
    ensures
        distinct_creates(plan_package_spec(cfg, fs, name)->Ok_0.actions),
        forall|i: int|
            0 <= i < plan_package_spec(cfg, fs, name)->Ok_0.actions.len() && (
            #[trigger] plan_package_spec(cfg, fs, name)->Ok_0.actions[i]).is_create() ==> link_fits(
                fs,
                fs.locate(cfg.stow_dir.child(name), true)->Ok_0,
                cfg.target_dir,
                plan_package_spec(cfg, fs, name)->Ok_0.actions[i],
            ),
{
    let package = cfg.stow_dir.child(name);
    let place = fs.locate(package, true)->Ok_0;
    lemma_listing_distinct(fs.entries, place);
    lemma_entries_link_once(cfg, fs, place, cfg.target_dir, listing(fs.entries, place));
}

/// Whether an action that makes a link makes it inside a directory that is
/// there, named by its location.
pub open spec fn lands(fs: FsView, action: ActionView) -> bool {
    let link = action.subject();
    &&& link.absolute
    &&& link.ups == 0
    &&& link.names.len() > 0
    &&& fs.node_at(link.names.drop_last()) == Some(NodeView::Dir)
    &&& stored_target(action).wf()
}

/// Whether every link that is made lands.
pub open spec fn all_land(fs: FsView, actions: Seq<ActionView>) -> bool {
    forall|i: int| 0 <= i < actions.len() && (#[trigger] actions[i]).is_create() ==> lands(
        fs,
        actions[i],
    )
}

/// What is seen at a name inside a directory, where a directory is seen:
/// the location holds a directory, and the path is canonical.
pub proof fn lemma_seen_directory(fs: FsView, place: Seq<Seq<char>>, name: Seq<char>)
    requires
        fs.wf(),
        fs.node_at(place) == Some(NodeView::Dir),
        observe_spec(fs, PathView::absolute_of(place).child(name)) is Directory,
    ensures
        fs.node_at(place.push(name)) == Some(NodeView::Dir),
        fs.normalize(PathView::absolute_of(place).child(name)) == PathView::absolute_of(
            place,
        ).child(name),
{
    let item = PathView::absolute_of(place).child(name);
    let fuel = MAX_LINK_HOPS as nat;
    let one = seq![name];
    assert(item.names =~= place.push(name));
    lemma_walk_last(fs, place, name, true, fuel);
    lemma_walk_last(fs, place, name, false, fuel);
    assert(one.skip(1) =~= Seq::empty());
    assert(walk_in(fs.entries, place.push(name), Seq::empty(), true, fuel) == Ok::<
        Seq<Seq<char>>,
        IoErrorKind,
    >(place.push(name)));
}

/// Where a location inside a directory holds a directory, a directory is
/// seen there, and the path is canonical.
pub proof fn lemma_directory_is_seen(fs: FsView, place: Seq<Seq<char>>, name: Seq<char>)
    requires
        fs.wf(),
        fs.node_at(place) == Some(NodeView::Dir),
        fs.node_at(place.push(name)) == Some(NodeView::Dir),
    ensures
        observe_spec(fs, PathView::absolute_of(place).child(name)) is Directory,
        fs.normalize(PathView::absolute_of(place).child(name)) == PathView::absolute_of(
            place,
        ).child(name),
{
    let item = PathView::absolute_of(place).child(name);
    let fuel = MAX_LINK_HOPS as nat;
    assert(item.names =~= place.push(name));
    lemma_walk_canonical(fs, place.push(name), true, fuel);
    lemma_walk_canonical(fs, place.push(name), false, fuel);
}

/// The links that the walk plans land, where it replaces no link by a
/// directory and walks a directory named by its location.
pub proof fn lemma_entries_land(
    cfg: StowerView,
    fs: FsView,
    dir: Seq<Seq<char>>,
    place: Seq<Seq<char>>,
    lines: Seq<DirEntryView>,
)
    requires
        fs.wf(),
        fs.node_at(place) == Some(NodeView::Dir),
        plan_entries_spec(
            cfg,
            fs,
            dir,
            PathView::absolute_of(place),
            PathView::absolute_of(place),
            None,
            lines,
        ) is Ok,
        no_unfold(
            plan_entries_spec(
                cfg,
                fs,
                dir,
                PathView::absolute_of(place),
                PathView::absolute_of(place),
                None,
                lines,
            )->Ok_0.actions,
        ),
    ensures
        all_land(
            fs,
            plan_entries_spec(
                cfg,
                fs,
                dir,
                PathView::absolute_of(place),
                PathView::absolute_of(place),
                None,
                lines,
            )->Ok_0.actions,
        ),
    decreases room(fs, dir), lines.len(),
{
    let target = PathView::absolute_of(place);
    let whole = plan_entries_spec(cfg, fs, dir, target, target, None, lines)->Ok_0.actions;
    if lines.len() > 0 {
        let name = lines[0].name;
        let source = entry_path(dir, name);
        let item = target.child(name);
        let seen = observe_spec(fs, item);
        assert(see_spec(fs, None, item, name) == seen);
        let first = if cfg.patterns.should_ignore(source) {
            Ok(Planned::nothing())
        } else if lines[0].is_dir {
            if room(fs, dir) > 0 {
                plan_dir_item_spec(cfg, fs, dir.push(name), item, target, seen)
            } else {
                Ok(Planned::nothing())
            }
        } else {
            plan_file_spec(cfg, fs, source, item, target, seen)
        };
        let a = first->Ok_0.actions;
        let tail = lines.skip(1);
        let b = plan_entries_spec(cfg, fs, dir, target, target, None, tail)->Ok_0.actions;
        assert(whole == a + b);
        assert forall|i: int| 0 <= i < b.len() implies !((#[trigger] b[i]) is UnfoldDirLink) by {
            assert(whole[a.len() + i] == b[i]);
        }
        assert forall|i: int| 0 <= i < a.len() implies !((#[trigger] a[i]) is UnfoldDirLink) by {
            assert(whole[i] == a[i]);
        }
        lemma_entries_land(cfg, fs, dir, place, tail);
        assert(all_land(fs, a)) by {
            if cfg.patterns.should_ignore(source) {
            } else if lines[0].is_dir {
                if room(fs, dir) > 0 {
                    lemma_item_lands(cfg, fs, dir, place, name);
                }
            } else {
                assert forall|i: int| 0 <= i < a.len() && (#[trigger] a[i]).is_create() implies lands(
                    fs,
                    a[i],
                ) by {
                    assert(a[i] == file_link(fs, source, item, target));
                    assert(item.names.drop_last() =~= place);
                }
            }
        }
        assert forall|i: int| 0 <= i < whole.len() && (#[trigger] whole[i]).is_create() implies lands(
            fs,
            whole[i],
        ) by {
            if i < a.len() {
                assert(whole[i] == a[i]);
            } else {
                assert(whole[i] == b[i - a.len()]);
            }
        }
    }
}

/// The same for one directory of a package.
proof fn lemma_item_lands(
    cfg: StowerView,
    fs: FsView,
    dir: Seq<Seq<char>>,
    place: Seq<Seq<char>>,
    name: Seq<char>,
)
    requires
        fs.wf(),
        fs.node_at(place) == Some(NodeView::Dir),
        room(fs, dir) > 0,
        plan_dir_item_spec(
            cfg,
            fs,
            dir.push(name),
            PathView::absolute_of(place).child(name),
            PathView::absolute_of(place),
            observe_spec(fs, PathView::absolute_of(place).child(name)),
        ) is Ok,
        no_unfold(
            plan_dir_item_spec(
                cfg,
                fs,
                dir.push(name),
                PathView::absolute_of(place).child(name),
                PathView::absolute_of(place),
                observe_spec(fs, PathView::absolute_of(place).child(name)),
            )->Ok_0.actions,
        ),
    ensures
        all_land(
            fs,
            plan_dir_item_spec(
                cfg,
                fs,
                dir.push(name),
                PathView::absolute_of(place).child(name),
                PathView::absolute_of(place),
                observe_spec(fs, PathView::absolute_of(place).child(name)),
            )->Ok_0.actions,
        ),
    decreases room(fs, dir), 0nat,
{
    let target = PathView::absolute_of(place);
    let item = target.child(name);
    let sub = dir.push(name);
    let seen = observe_spec(fs, item);
    let source = PathView::absolute_of(sub);
    let a = plan_dir_item_spec(cfg, fs, sub, item, target, seen)->Ok_0.actions;
    if !(seen is Absent) && cfg.patterns.should_defer(source) {
    } else {
        match decide_spec(fs, source, seen) {
            FoldDecisionView::Traverse => {
                lemma_seen_directory(fs, place, name);
                assert(item == PathView::absolute_of(place.push(name)));
                lemma_entries_land(cfg, fs, sub, place.push(name), listing(fs.entries, sub));
            },
            FoldDecisionView::Unfold(prior) => {
                assert(a[0] is UnfoldDirLink);
            },
            _ => {
                assert forall|i: int| 0 <= i < a.len() && (#[trigger] a[i]).is_create() implies lands(
                    fs,
                    a[i],
                ) by {
                    assert(a[i] == dir_link(fs, source, item, target));
                    assert(item.names.drop_last() =~= place);
                }
            },
        }
    }
}

/// The normal form of a normal form is the normal form.
pub proof fn lemma_normalize_again(fs: FsView, p: PathView)
    requires
        fs.wf(),
        p.wf(),
    ensures
        fs.normalize(fs.normalize(p)) == fs.normalize(p),
{
    if fs.present(p) {
        lemma_normalize_fixed(fs, p);
    } else {
        let q = PathView::root().join(p);
        assert(q.names =~= p.names);
        assert(PathView::root().join(q) == q);
    }
}

/// Relative-target correctness: in a plan for installing a package that
/// replaces no link by a directory, the target stored in each link, taken
/// from the directory of the link, has the normal form of the package entry
/// that the link stands for.
///
/// The target directory is a directory given in canonical form.
pub proof fn lemma_package_links_lead_to_sources(
    cfg: StowerView,
    fs: FsView,
    name: Seq<char>,
    i: int,
)
    requires
        fs.wf(),
        fs.is_dir(cfg.target_dir),
        fs.canonical(cfg.target_dir) == Ok::<PathView, IoErrorKind>(cfg.target_dir),
        plan_package_spec(cfg, fs, name) is Ok,
        no_unfold(plan_package_spec(cfg, fs, name)->Ok_0.actions),
        0 <= i < plan_package_spec(cfg, fs, name)->Ok_0.actions.len(),
        plan_package_spec(cfg, fs, name)->Ok_0.actions[i].is_create(),
    ensures
        ({
            let action = plan_package_spec(cfg, fs, name)->Ok_0.actions[i];
            let link = action.subject();
            let package = fs.locate(cfg.stow_dir.child(name), true)->Ok_0;
            link.parent() is Some && fs.normalize(link.parent()->Some_0.join(stored_target(action)))
                == fs.normalize(source_for(package, cfg.target_dir, link))
        }),
{
    let package = fs.locate(cfg.stow_dir.child(name), true)->Ok_0;
    let target = cfg.target_dir;
    let place = target.names;
    let lines = listing(fs.entries, package);
    let actions = plan_package_spec(cfg, fs, name)->Ok_0.actions;
    let action = actions[i];
    let link = action.subject();
    let source = source_for(package, target, link);
    assert(target == PathView::absolute_of(place));
    assert(fs.normalize(target) == target);
    lemma_package_links_once(cfg, fs, name);
    lemma_entries_land(cfg, fs, package, place, lines);
    assert(lands(fs, action));
    assert(link_fits(fs, package, target, action));
    let parent = link.parent()->Some_0;
    assert(parent == PathView::absolute_of(link.names.drop_last()));
    lemma_walk_canonical(fs, link.names.drop_last(), true, MAX_LINK_HOPS as nat);
    assert(fs.normalize(parent) == parent);
    lemma_link_leads_to_source(fs, source, parent);
    lemma_normalize_again(fs, source);
}

} // verus!
