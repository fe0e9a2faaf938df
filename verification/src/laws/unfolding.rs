//! No duplicate links in plans that unfold: where a link to another
//! package's directory is replaced by a real directory, the links made for
//! the entries of both packages are at different paths.

use vstd::prelude::*;
use crate::fs_model::{
    lemma_listing_distinct, lemma_listing_line, lemma_node_at, listing, names_distinct,
    DirEntryView, FsView, MAX_LINK_HOPS, NodeView,
};
use crate::laws::links::distinct_creates;
use crate::path_utils::PathView;
use crate::planner::ActionView;
use crate::resolve::{lemma_normalize_fixed, lemma_walk_canonical};
use crate::stow::{
    decide_spec, entry_path, linked_names, plan_dir_item_spec, plan_entries_spec, plan_file_spec,
    plan_fresh_spec, plan_package_spec, room, see_spec, unfolded_home, unfolded_links,
    unfolded_overlay, FoldDecisionView, OverlayView, Planned, StowerView,
};

verus! {

/// Whether the directory that `prior` leads to, where it leads to one,
/// holds no links.
pub open spec fn plain_dir(fs: FsView, prior: PathView) -> bool {
    fs.read_dir(prior) is Ok ==> forall|name: Seq<char>|
        !(#[trigger] fs.node_at(fs.locate(prior, true)->Ok_0.push(name)) matches Some(
            NodeView::Link(_),
        ))
}

/// Whether every directory that an unfolded link led to holds no links.
pub open spec fn unfolds_plain(fs: FsView, actions: Seq<ActionView>) -> bool {
    forall|i: int|
        0 <= i < actions.len() ==> ((#[trigger] actions[i]) matches ActionView::UnfoldDirLink {
            original_target,
            ..
        } ==> plain_dir(fs, original_target))
}

/// Whether the overlay names entries of a directory other than `dir`, none
/// of them a link.
pub open spec fn overlay_plain(fs: FsView, overlay: Option<OverlayView>, dir: Seq<Seq<char>>) -> bool {
    overlay matches Some(o) ==> o.prior != dir && forall|k: int|
        0 <= k < o.names.len() ==> fs.node_at(o.prior.push(#[trigger] o.names[k])) is Some && !(
        fs.node_at(o.prior.push(o.names[k]))->Some_0 is Link)
}

/// Whether every link that `actions` makes lies below `target`, under one
/// of the names of `lines`, and, where it lies directly inside a directory
/// left behind by an unfolded link, under a name that is not linked there
/// already.
pub open spec fn links_apart(
    target: PathView,
    overlay: Option<OverlayView>,
    lines: Seq<DirEntryView>,
    actions: Seq<ActionView>,
) -> bool {
    forall|i: int|
        0 <= i < actions.len() && (#[trigger] actions[i]).is_create() ==> {
            let link = actions[i].subject();
            &&& link.is_below(target)
            &&& exists|k: int|
                0 <= k < lines.len() && (#[trigger] lines[k]).name
                    == link.names[target.names.len() as int]
            &&& (link.names.len() == target.names.len() + 1 && overlay is Some
                ==> !overlay->Some_0.names.contains(link.names.last()))
        }
}

/// Whether every link that `actions` makes is at `item` or below it.
pub open spec fn links_at_or_below(item: PathView, actions: Seq<ActionView>) -> bool {
    forall|i: int|
        0 <= i < actions.len() && (#[trigger] actions[i]).is_create() ==> actions[i].subject()
            == item || actions[i].subject().is_below(item)
}

/// The names of the entries that are not ignored are names of entries.
proof fn lemma_linked_names(cfg: StowerView, dir: Seq<Seq<char>>, lines: Seq<DirEntryView>)
    ensures
        forall|k: int|
            0 <= k < linked_names(cfg, dir, lines).len() ==> exists|j: int|
                0 <= j < lines.len() && (#[trigger] lines[j]).name == #[trigger] linked_names(
                    cfg,
                    dir,
                    lines,
                )[k],
        forall|j: int|
            0 <= j < lines.len() && !cfg.patterns.should_ignore(
                entry_path(dir, (#[trigger] lines[j]).name),
            ) ==> linked_names(cfg, dir, lines).contains(lines[j].name),
    decreases lines.len(),
{
    if lines.len() > 0 {
        let tail = lines.skip(1);
        let rest = linked_names(cfg, dir, tail);
        let all = linked_names(cfg, dir, lines);
        let kept = !cfg.patterns.should_ignore(entry_path(dir, lines[0].name));
        let shift: int = if kept {
            1
        } else {
            0
        };
        lemma_linked_names(cfg, dir, tail);
        assert forall|k: int| 0 <= k < all.len() implies exists|j: int|
            0 <= j < lines.len() && (#[trigger] lines[j]).name == #[trigger] all[k] by {
            if kept && k == 0 {
                assert(lines[0].name == all[0]);
            } else {
                assert(all[k] == rest[k - shift]);
                let j = choose|j: int| 0 <= j < tail.len() && (#[trigger] tail[j]).name == rest[k - shift];
                assert(tail[j] == lines[j + 1]);
            }
        }
        assert forall|j: int|
            0 <= j < lines.len() && !cfg.patterns.should_ignore(
                entry_path(dir, (#[trigger] lines[j]).name),
            ) implies all.contains(lines[j].name) by {
            if j == 0 {
                assert(all[0] == lines[0].name);
            } else {
                assert(tail[j - 1] == lines[j]);
                assert(rest.contains(tail[j - 1].name));
                let k = choose|k: int| 0 <= k < rest.len() && rest[k] == tail[j - 1].name;
                assert(all[k + shift] == rest[k]);
            }
        }
    }
}

/// The links made in a directory that holds nothing yet are at different
/// paths, each directly inside the directory, under the name of an entry
/// that is not ignored.
proof fn lemma_fresh_links(
    cfg: StowerView,
    fs: FsView,
    dir: Seq<Seq<char>>,
    target: PathView,
    home: PathView,
    lines: Seq<DirEntryView>,
)
    requires
        names_distinct(lines),
    ensures
        distinct_creates(plan_fresh_spec(cfg, fs, dir, target, home, lines).actions),
        forall|i: int|
            0 <= i < plan_fresh_spec(cfg, fs, dir, target, home, lines).actions.len()
                ==> exists|j: int|
                0 <= j < lines.len() && !cfg.patterns.should_ignore(
                    entry_path(dir, (#[trigger] lines[j]).name),
                ) && (#[trigger] plan_fresh_spec(
                    cfg,
                    fs,
                    dir,
                    target,
                    home,
                    lines,
                ).actions[i]).subject() == target.child(lines[j].name) && plan_fresh_spec(
                    cfg,
                    fs,
                    dir,
                    target,
                    home,
                    lines,
                ).actions[i].is_create(),
    decreases lines.len(),
{
    let all = plan_fresh_spec(cfg, fs, dir, target, home, lines).actions;
    if lines.len() > 0 {
        let tail = lines.skip(1);
        let rest = plan_fresh_spec(cfg, fs, dir, target, home, tail).actions;
        let kept = !cfg.patterns.should_ignore(entry_path(dir, lines[0].name));
        let shift: int = if kept {
            1
        } else {
            0
        };
        assert forall|i: int, j: int| 0 <= i < j < tail.len() implies (#[trigger] tail[i]).name != (
        #[trigger] tail[j]).name by {
            assert(tail[i] == lines[i + 1]);
            assert(tail[j] == lines[j + 1]);
        }
        lemma_fresh_links(cfg, fs, dir, target, home, tail);
        if kept {
            assert(all =~= seq![all[0]] + rest);
            assert(all[0].subject() == target.child(lines[0].name));
        } else {
            assert(all =~= rest);
        }
        assert forall|i: int| 0 <= i < all.len() implies exists|j: int|
            0 <= j < lines.len() && !cfg.patterns.should_ignore(
                entry_path(dir, (#[trigger] lines[j]).name),
            ) && (#[trigger] all[i]).subject() == target.child(lines[j].name)
                && all[i].is_create() by {
            if kept && i == 0 {
                assert(all[0].subject() == target.child(lines[0].name));
            } else {
                assert(all[i] == rest[i - shift]);
                let j = choose|j: int|
                    0 <= j < tail.len() && !cfg.patterns.should_ignore(
                        entry_path(dir, (#[trigger] tail[j]).name),
                    ) && rest[i - shift].subject() == target.child(tail[j].name);
                assert(tail[j] == lines[j + 1]);
            }
        }
        assert forall|i: int, j: int|
            0 <= i < j < all.len() && (#[trigger] all[i]).is_create() && (
            #[trigger] all[j]).is_create() implies all[i].subject() != all[j].subject() by {
            if kept && i == 0 {
                assert(all[j] == rest[j - 1]);
                let k = choose|k: int|
                    0 <= k < tail.len() && !cfg.patterns.should_ignore(
                        entry_path(dir, (#[trigger] tail[k]).name),
                    ) && rest[j - 1].subject() == target.child(tail[k].name);
                assert(tail[k] == lines[k + 1]);
                assert(lines[0].name != lines[k + 1].name);
                assert(target.child(lines[0].name).names.last() == lines[0].name);
                assert(target.child(tail[k].name).names.last() == tail[k].name);
            } else {
                assert(all[i] == rest[i - shift]);
                assert(all[j] == rest[j - shift]);
            }
        }
    }
}

/// Whether each of `lines` that is listed as a directory is one.
pub open spec fn dirs_are_dirs(fs: FsView, dir: Seq<Seq<char>>, lines: Seq<DirEntryView>) -> bool {
    forall|j: int|
        0 <= j < lines.len() && (#[trigger] lines[j]).is_dir ==> fs.node_at(
            dir.push(lines[j].name),
        ) == Some(NodeView::Dir)
}

/// The lines of a listing that are listed as directories are directories.
proof fn lemma_listed_dirs(fs: FsView, dir: Seq<Seq<char>>)
    requires
        fs.wf(),
    ensures
        dirs_are_dirs(fs, dir, listing(fs.entries, dir)),
        names_distinct(listing(fs.entries, dir)),
{
    let lines = listing(fs.entries, dir);
    lemma_listing_distinct(fs.entries, dir);
    assert forall|j: int| 0 <= j < lines.len() && (#[trigger] lines[j]).is_dir implies fs.node_at(
        dir.push(lines[j].name),
    ) == Some(NodeView::Dir) by {
        lemma_listing_line(fs.entries, dir, j);
        let i = choose|i: int|
            0 <= i < fs.entries.len() && (#[trigger] fs.entries[i]).path == dir.push(lines[j].name)
                && lines[j].is_dir == (fs.entries[i].node is Dir);
        lemma_node_at(fs, i);
    }
}

/// What lies below a child of `target` lies below `target`, under the name
/// of the child.
proof fn lemma_below_item(target: PathView, name: Seq<char>, link: PathView)
    requires
        link == target.child(name) || link.is_below(target.child(name)),
    ensures
        link.is_below(target),
        link.names[target.names.len() as int] == name,
        link.names.len() == target.names.len() + 1 ==> link == target.child(name),
{
    let t = target.names.len() as int;
    let item = target.child(name);
    assert(item.names.take(t) =~= target.names);
    if link != item {
        assert(link.names.take(t) =~= link.names.take(t + 1).take(t));
        assert(link.names.take(t + 1)[t] == name);
    }
}

/// The canonical path of a location that holds something other than a link
/// is its own normal form.
proof fn lemma_location_is_normal(fs: FsView, x: Seq<Seq<char>>)
    requires
        fs.wf(),
        fs.node_at(x) is Some,
        !(fs.node_at(x)->Some_0 is Link),
    ensures
        fs.normalize(PathView::absolute_of(x)) == PathView::absolute_of(x),
        fs.present(PathView::absolute_of(x)),
{
    lemma_walk_canonical(fs, x, true, MAX_LINK_HOPS as nat);
}

/// No duplicate links, in plans that unfold: the walk over the entries of a
/// package directory makes no two links at the same path, where conflicts
/// are not overridden and the directories that unfolded links led to hold
/// no links.
pub proof fn lemma_entries_apart(
    cfg: StowerView,
    fs: FsView,
    dir: Seq<Seq<char>>,
    target: PathView,
    home: PathView,
    overlay: Option<OverlayView>,
    lines: Seq<DirEntryView>,
)
    requires
        fs.wf(),
        names_distinct(lines),
        dirs_are_dirs(fs, dir, lines),
        !(cfg.conflict_strategy is Override),
        overlay_plain(fs, overlay, dir),
        plan_entries_spec(cfg, fs, dir, target, home, overlay, lines) is Ok,
        unfolds_plain(
            fs,
            plan_entries_spec(cfg, fs, dir, target, home, overlay, lines)->Ok_0.actions,
        ),
    ensures
        distinct_creates(
            plan_entries_spec(cfg, fs, dir, target, home, overlay, lines)->Ok_0.actions,
        ),
        links_apart(
            target,
            overlay,
            lines,
            plan_entries_spec(cfg, fs, dir, target, home, overlay, lines)->Ok_0.actions,
        ),
    decreases room(fs, dir), lines.len(),
{
    let whole = plan_entries_spec(cfg, fs, dir, target, home, overlay, lines)->Ok_0.actions;
    if lines.len() > 0 {
        let name = lines[0].name;
        let source = entry_path(dir, name);
        let item = target.child(name);
        let seen = see_spec(fs, overlay, item, name);
        let first = if cfg.patterns.should_ignore(source) {
            Ok(Planned::nothing())
        } else if lines[0].is_dir {
            if room(fs, dir) > 0 {
                plan_dir_item_spec(cfg, fs, dir.push(name), item, home, seen)
            } else {
                Ok(Planned::nothing())
            }
        } else {
            plan_file_spec(cfg, fs, source, item, home, seen)
        };
        let a = first->Ok_0.actions;
        let tail = lines.skip(1);
        let b = plan_entries_spec(cfg, fs, dir, target, home, overlay, tail)->Ok_0.actions;
        assert(whole == a + b);
        assert forall|i: int, j: int| 0 <= i < j < tail.len() implies (#[trigger] tail[i]).name != (
        #[trigger] tail[j]).name by {
            assert(tail[i] == lines[i + 1]);
            assert(tail[j] == lines[j + 1]);
        }
        assert forall|j: int| 0 <= j < tail.len() && (#[trigger] tail[j]).is_dir implies fs.node_at(
            dir.push(tail[j].name),
        ) == Some(NodeView::Dir) by {
            assert(tail[j] == lines[j + 1]);
        }
        assert forall|i: int| 0 <= i < b.len() implies ((
        #[trigger] b[i]) matches ActionView::UnfoldDirLink { original_target, .. } ==> plain_dir(
            fs,
            original_target,
        )) by {
            assert(whole[a.len() + i] == b[i]);
        }
        assert forall|i: int| 0 <= i < a.len() implies ((
        #[trigger] a[i]) matches ActionView::UnfoldDirLink { original_target, .. } ==> plain_dir(
            fs,
            original_target,
        )) by {
            assert(whole[i] == a[i]);
        }
        lemma_entries_apart(cfg, fs, dir, target, home, overlay, tail);
        let taken = overlay is Some && overlay->Some_0.names.contains(name);
        // The links of the first entry are at its path or below, and not at
        // its path where that is linked already.
        assert(distinct_creates(a) && links_at_or_below(item, a) && (taken ==> forall|i: int|
            0 <= i < a.len() && (#[trigger] a[i]).is_create() ==> a[i].subject() != item)) by {
            if cfg.patterns.should_ignore(source) {
            } else if lines[0].is_dir {
                if room(fs, dir) > 0 {
                    assert(fs.node_at(dir.push(lines[0].name)) == Some(NodeView::Dir));
                    lemma_item_apart(cfg, fs, dir, target, home, overlay, name);
                }
            } else {
                if taken {
                    assert(seen is Link);
                    assert(a.len() == 0);
                }
            }
        }
        assert forall|i: int| 0 <= i < whole.len() && (#[trigger] whole[i]).is_create() implies ({
            let link = whole[i].subject();
            &&& link.is_below(target)
            &&& exists|k: int|
                0 <= k < lines.len() && (#[trigger] lines[k]).name
                    == link.names[target.names.len() as int]
            &&& (link.names.len() == target.names.len() + 1 && overlay is Some
                ==> !overlay->Some_0.names.contains(link.names.last()))
        }) by {
            let link = whole[i].subject();
            if i < a.len() {
                assert(whole[i] == a[i]);
                lemma_below_item(target, name, link);
                assert(lines[0].name == name);
                if link.names.len() == target.names.len() + 1 {
                    assert(link == item);
                    assert(item.names.last() == name);
                }
            } else {
                assert(whole[i] == b[i - a.len()]);
                let k = choose|k: int|
                    0 <= k < tail.len() && (#[trigger] tail[k]).name
                        == link.names[target.names.len() as int];
                assert(lines[k + 1] == tail[k]);
            }
        }
        assert forall|i: int, j: int|
            0 <= i < j < whole.len() && (#[trigger] whole[i]).is_create() && (
            #[trigger] whole[j]).is_create() implies whole[i].subject() != whole[j].subject() by {
            if j < a.len() {
                assert(whole[i] == a[i]);
                assert(whole[j] == a[j]);
            } else if i >= a.len() {
                assert(whole[i] == b[i - a.len()]);
                assert(whole[j] == b[j - a.len()]);
            } else {
                assert(whole[i] == a[i]);
                assert(whole[j] == b[j - a.len()]);
                lemma_below_item(target, name, whole[i].subject());
                let k = choose|k: int|
                    0 <= k < tail.len() && (#[trigger] tail[k]).name == b[j
                        - a.len()].subject().names[target.names.len() as int];
                assert(tail[k] == lines[k + 1]);
                assert(lines[0].name != lines[k + 1].name);
            }
        }
    }
}

/// The same for one directory of a package: its links are at its path or
/// below, and not at its path where that is linked already.
proof fn lemma_item_apart(
    cfg: StowerView,
    fs: FsView,
    dir: Seq<Seq<char>>,
    target: PathView,
    home: PathView,
    overlay: Option<OverlayView>,
    name: Seq<char>,
)
    requires
        fs.wf(),
        !(cfg.conflict_strategy is Override),
        overlay_plain(fs, overlay, dir),
        room(fs, dir) > 0,
        fs.node_at(dir.push(name)) == Some(NodeView::Dir),
        plan_dir_item_spec(
            cfg,
            fs,
            dir.push(name),
            target.child(name),
            home,
            see_spec(fs, overlay, target.child(name), name),
        ) is Ok,
        unfolds_plain(
            fs,
            plan_dir_item_spec(
                cfg,
                fs,
                dir.push(name),
                target.child(name),
                home,
                see_spec(fs, overlay, target.child(name), name),
            )->Ok_0.actions,
        ),
    ensures
        ({
            let a = plan_dir_item_spec(
                cfg,
                fs,
                dir.push(name),
                target.child(name),
                home,
                see_spec(fs, overlay, target.child(name), name),
            )->Ok_0.actions;
            &&& distinct_creates(a)
            &&& links_at_or_below(target.child(name), a)
            &&& (overlay is Some && overlay->Some_0.names.contains(name) ==> forall|i: int|
                0 <= i < a.len() && (#[trigger] a[i]).is_create() ==> a[i].subject()
                    != target.child(name))
        }),
    decreases room(fs, dir), 0nat,
{
    let sub = dir.push(name);
    let item = target.child(name);
    let seen = see_spec(fs, overlay, item, name);
    let source = PathView::absolute_of(sub);
    let a = plan_dir_item_spec(cfg, fs, sub, item, home, seen)->Ok_0.actions;
    let taken = overlay is Some && overlay->Some_0.names.contains(name);
    lemma_location_is_normal(fs, sub);
    if !(seen is Absent) && cfg.patterns.should_defer(source) {
    } else {
        match decide_spec(fs, source, seen) {
            FoldDecisionView::Fold => {
                if taken {
                    // What is linked there already is an entry of another
                    // directory, and no link: it does not lead here.
                    let o = overlay->Some_0;
                    let k = choose|k: int| 0 <= k < o.names.len() && o.names[k] == name;
                    let x = o.prior.push(name);
                    assert(fs.node_at(o.prior.push(o.names[k])) is Some);
                    lemma_location_is_normal(fs, x);
                    assert(x.drop_last() =~= o.prior);
                    assert(sub.drop_last() =~= dir);
                    assert(false);
                }
            },
            FoldDecisionView::Unfold(prior) => {
                let inside = unfolded_home(item, home);
                let head = ActionView::UnfoldDirLink { link_path: item, original_target: prior };
                let fresh = unfolded_links(cfg, fs, prior, item, inside).actions;
                let over = unfolded_overlay(cfg, fs, prior);
                let lines = listing(fs.entries, sub);
                let rest = plan_entries_spec(cfg, fs, sub, item, inside, Some(over), lines)->Ok_0.actions;
                assert(a =~= seq![head] + fresh + rest);
                assert(a[0] == head);
                assert(plain_dir(fs, prior));
                lemma_listed_dirs(fs, sub);
                // The directory that the link led to is another one.
                let resolved = seen->Link_resolved;
                assert(overlay_plain(fs, Some(over), sub)) by {
                    if fs.read_dir(prior) is Ok {
                        let there = fs.locate(prior, true)->Ok_0;
                        let listed = listing(fs.entries, there);
                        lemma_linked_names(cfg, there, listed);
                        assert forall|k: int| 0 <= k < over.names.len() implies fs.node_at(
                            over.prior.push(#[trigger] over.names[k]),
                        ) is Some && !(fs.node_at(over.prior.push(over.names[k]))->Some_0 is Link) by {
                            let j = choose|j: int|
                                0 <= j < listed.len() && (#[trigger] listed[j]).name
                                    == over.names[k];
                            lemma_listing_line(fs.entries, there, j);
                            let i = choose|i: int|
                                0 <= i < fs.entries.len() && (#[trigger] fs.entries[i]).path
                                    == there.push(listed[j].name) && listed[j].is_dir == (
                                fs.entries[i].node is Dir);
                            lemma_node_at(fs, i);
                            assert(!(fs.node_at(there.push(over.names[k])) matches Some(
                                NodeView::Link(_),
                            )));
                        }
                        if there == sub {
                            if overlay is None {
                                assert(fs.present(prior));
                                lemma_normalize_fixed(fs, prior);
                            }
                            assert(fs.normalize(resolved) == source);
                            assert(false);
                        }
                    } else {
                        assert(over.prior.len() == 0);
                    }
                }
                assert forall|i: int| 0 <= i < rest.len() implies ((
                #[trigger] rest[i]) matches ActionView::UnfoldDirLink { original_target, .. }
                    ==> plain_dir(fs, original_target)) by {
                    assert(a[1 + fresh.len() + i] == rest[i]);
                }
                lemma_entries_apart(cfg, fs, sub, item, inside, Some(over), lines);
                if fs.read_dir(prior) is Ok {
                    let there = fs.locate(prior, true)->Ok_0;
                    let listed = listing(fs.entries, there);
                    lemma_listing_distinct(fs.entries, there);
                    lemma_fresh_links(cfg, fs, there, item, inside, listed);
                    lemma_linked_names(cfg, there, listed);
                }
                assert forall|i: int| 0 <= i < fresh.len() implies linked_here(
                    over,
                    item,
                    (#[trigger] fresh[i]).subject(),
                ) by {
                    let there = fs.locate(prior, true)->Ok_0;
                    let listed = listing(fs.entries, there);
                    assert(fs.read_dir(prior) is Ok);
                    let j = choose|j: int|
                        0 <= j < listed.len() && !cfg.patterns.should_ignore(
                            entry_path(there, (#[trigger] listed[j]).name),
                        ) && fresh[i].subject() == item.child(listed[j].name)
                            && fresh[i].is_create();
                    assert(over.names.contains(listed[j].name));
                }
                lemma_links_join(cfg, fs, prior, item, inside, over, lines, head, fresh, rest);
            },
            FoldDecisionView::Traverse => {
                let lines = listing(fs.entries, sub);
                lemma_listed_dirs(fs, sub);
                lemma_entries_apart(cfg, fs, sub, item, fs.normalize(item), None, lines);
            },
            FoldDecisionView::Conflict => {},
        }
    }
}

/// Whether `link` is directly inside `item` under one of the names that are
/// linked there.
pub open spec fn linked_here(over: OverlayView, item: PathView, link: PathView) -> bool {
    exists|name: Seq<char>| over.names.contains(name) && link == item.child(name)
}

/// The links of an unfolded directory: those for the entries that the link
/// led to, and those for the entries of the package, are at different paths,
/// all below the directory.
proof fn lemma_links_join(
    cfg: StowerView,
    fs: FsView,
    prior: PathView,
    item: PathView,
    inside: PathView,
    over: OverlayView,
    lines: Seq<DirEntryView>,
    head: ActionView,
    fresh: Seq<ActionView>,
    rest: Seq<ActionView>,
)
    requires
        head is UnfoldDirLink,
        distinct_creates(fresh),
        forall|i: int|
            0 <= i < fresh.len() ==> linked_here(over, item, (#[trigger] fresh[i]).subject()),
        distinct_creates(rest),
        links_apart(item, Some(over), lines, rest),
    ensures
        distinct_creates(seq![head] + fresh + rest),
        links_at_or_below(item, seq![head] + fresh + rest),
        forall|i: int|
            0 <= i < (seq![head] + fresh + rest).len() && (#[trigger] (seq![head] + fresh
                + rest)[i]).is_create() ==> (seq![head] + fresh + rest)[i].subject() != item,
{
    let all = seq![head] + fresh + rest;
    let n = fresh.len() as int;
    assert forall|i: int| 0 <= i < all.len() && (#[trigger] all[i]).is_create() implies (
    all[i].subject() == item || all[i].subject().is_below(item)) && all[i].subject() != item by {
        if i == 0 {
        } else if i <= n {
            assert(all[i] == fresh[i - 1]);
            assert(linked_here(over, item, fresh[i - 1].subject()));
            let name = choose|name: Seq<char>|
                over.names.contains(name) && fresh[i - 1].subject() == item.child(name);
            assert(item.child(name).names.take(item.names.len() as int) =~= item.names);
        } else {
            assert(all[i] == rest[i - 1 - n]);
        }
    }
    assert forall|i: int, j: int|
        0 <= i < j < all.len() && (#[trigger] all[i]).is_create() && (
        #[trigger] all[j]).is_create() implies all[i].subject() != all[j].subject() by {
        if i == 0 {
        } else if j <= n {
            assert(all[i] == fresh[i - 1]);
            assert(all[j] == fresh[j - 1]);
        } else if i > n {
            assert(all[i] == rest[i - 1 - n]);
            assert(all[j] == rest[j - 1 - n]);
        } else {
            assert(all[i] == fresh[i - 1]);
            assert(all[j] == rest[j - 1 - n]);
            assert(linked_here(over, item, fresh[i - 1].subject()));
            let name = choose|name: Seq<char>|
                over.names.contains(name) && fresh[i - 1].subject() == item.child(name);
            let link = rest[j - 1 - n].subject();
            assert(item.child(name).names.last() == name);
            if link == item.child(name) {
                assert(link.names.len() == item.names.len() + 1);
            }
        }
    }
}

/// No duplicate links: a plan for installing a package makes no two links
/// at the same path, where conflicts are not overridden and the directories
/// that unfolded links led to hold no links.
pub proof fn lemma_package_links_apart(cfg: StowerView, fs: FsView, name: Seq<char>)
    requires
        fs.wf(),
        !(cfg.conflict_strategy is Override),
        plan_package_spec(cfg, fs, name) is Ok,
        unfolds_plain(fs, plan_package_spec(cfg, fs, name)->Ok_0.actions),
    ensures
        distinct_creates(plan_package_spec(cfg, fs, name)->Ok_0.actions),
{
    let package = cfg.stow_dir.child(name);
    let place = fs.locate(package, true)->Ok_0;
    lemma_listed_dirs(fs, place);
    lemma_entries_apart(
        cfg,
        fs,
        place,
        cfg.target_dir,
        fs.normalize(cfg.target_dir),
        None,
        listing(fs.entries, place),
    );
}

} // verus!
