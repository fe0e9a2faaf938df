//! Ownership: the unstow planner removes only links that lead into the
//! package, and what is foreign to the package stays.

use vstd::prelude::*;
use crate::error::IoErrorKind;
use crate::fs_model::{
    is_child, is_empty_directory_spec, lemma_leaf_childless, lemma_listing_empty, lemma_present,
    lemma_root, lemma_without_entry, listing, node_in, remove_empty_directory_spec, DirEntryView,
    EntryView, FsView, MAX_LINK_HOPS,
};
use crate::path_utils::PathView;
use crate::planner::{execute_action_spec, execute_spec, remove_link_spec, ActionView};
use crate::resolve::{keeps, lemma_keeps_chain, lemma_walk_kept};
use crate::stow::{entry_below, entry_path, room, source_for};
use crate::unstow::{
    owns, plan_unstow_dir_item_spec, plan_unstow_entries_spec, plan_unstow_link_spec,
    plan_unstow_package_spec, unstow_package_spec, UnstowerView,
};

verus! {

/// Whether every link that `actions` removes lies below `target` and belongs
/// to the package entry that it stands for.
pub open spec fn removes_owned(
    fs: FsView,
    dir: Seq<Seq<char>>,
    target: PathView,
    actions: Seq<ActionView>,
) -> bool {
    forall|i: int|
        0 <= i < actions.len() ==> ((#[trigger] actions[i]) matches ActionView::RemoveLink { path }
            ==> path.is_below(target) && owns(fs, path, source_for(dir, target, path))) && (
        actions[i] is RemoveLink || actions[i] is RemoveEmptyDir)
}

/// A child of `target` that belongs to the entry `name` of `dir`.
proof fn lemma_child_owned(fs: FsView, dir: Seq<Seq<char>>, target: PathView, name: Seq<char>)
    requires
        owns(fs, target.child(name), PathView::absolute_of(dir.push(name))),
    ensures
        target.child(name).is_below(target),
        owns(fs, target.child(name), source_for(dir, target, target.child(name))),
{
    let path = target.child(name);
    assert(path.names.take(target.names.len() as int) =~= target.names);
    assert(dir + path.names.skip(target.names.len() as int) =~= dir.push(name));
}

/// What lies below a child of `target` lies below `target`, and stands for
/// the same package entry seen from either.
proof fn lemma_below_child(dir: Seq<Seq<char>>, target: PathView, name: Seq<char>, path: PathView)
    requires
        path.is_below(target.child(name)),
    ensures
        path.is_below(target),
        source_for(dir, target, path) == source_for(dir.push(name), target.child(name), path),
{
    let t = target.names.len() as int;
    assert(path.names.take(t) =~= path.names.take(t + 1).take(t));
    assert(target.child(name).names.take(t) =~= target.names);
    assert(path.names.take(t + 1)[t] == name);
    assert(dir + path.names.skip(t) =~= dir.push(name) + path.names.skip(t + 1));
}

/// Every link that the walk over the entries of a package directory removes
/// lies below the target of the walk and belongs to the package entry that
/// it stands for.
pub proof fn lemma_entries_remove_owned(
    cfg: UnstowerView,
    fs: FsView,
    dir: Seq<Seq<char>>,
    target: PathView,
    lines: Seq<DirEntryView>,
)
    ensures
        removes_owned(fs, dir, target, plan_unstow_entries_spec(cfg, fs, dir, target, lines)),
    decreases room(fs, dir), lines.len(),
{
    if lines.len() > 0 {
        let name = lines[0].name;
        let item = target.child(name);
        let first = if !fs.present(item) {
            Seq::empty()
        } else if lines[0].is_dir {
            if room(fs, dir) > 0 {
                plan_unstow_dir_item_spec(cfg, fs, dir.push(name), item)
            } else {
                Seq::empty()
            }
        } else {
            plan_unstow_link_spec(fs, entry_path(dir, name), item)
        };
        let rest = plan_unstow_entries_spec(cfg, fs, dir, target, lines.skip(1));
        lemma_entries_remove_owned(cfg, fs, dir, target, lines.skip(1));
        if fs.present(item) && lines[0].is_dir && room(fs, dir) > 0 {
            lemma_dir_item_removes_owned(cfg, fs, dir, target, name);
        }
        assert forall|i: int| 0 <= i < (first + rest).len() implies ((#[trigger] (first
            + rest)[i]) matches ActionView::RemoveLink { path } ==> path.is_below(target) && owns(
            fs,
            path,
            source_for(dir, target, path),
        )) && ((first + rest)[i] is RemoveLink || (first + rest)[i] is RemoveEmptyDir) by {
            if i < first.len() {
                assert((first + rest)[i] == first[i]);
                if !lines[0].is_dir {
                    if owns(fs, item, entry_path(dir, name)) {
                        lemma_child_owned(fs, dir, target, name);
                    }
                }
            } else {
                assert((first + rest)[i] == rest[i - first.len()]);
            }
        }
    }
}

/// The same for the walk over one directory of a package, seen from the
/// directory that holds it.
proof fn lemma_dir_item_removes_owned(
    cfg: UnstowerView,
    fs: FsView,
    dir: Seq<Seq<char>>,
    target: PathView,
    name: Seq<char>,
)
    requires
        room(fs, dir) > 0,
    ensures
        removes_owned(
            fs,
            dir,
            target,
            plan_unstow_dir_item_spec(cfg, fs, dir.push(name), target.child(name)),
        ),
    decreases room(fs, dir), 0nat,
{
    let item = target.child(name);
    let sub = dir.push(name);
    let actions = plan_unstow_dir_item_spec(cfg, fs, sub, item);
    if fs.is_symlink(item) {
        if owns(fs, item, PathView::absolute_of(sub)) {
            lemma_child_owned(fs, dir, target, name);
        }
    } else if fs.is_dir(item) && room(fs, sub) >= 0 {
        if fs.present(item) {
            let inner = plan_unstow_entries_spec(cfg, fs, sub, item, listing(fs.entries, sub));
            lemma_entries_remove_owned(cfg, fs, sub, item, listing(fs.entries, sub));
            assert forall|i: int| 0 <= i < actions.len() implies ((
            #[trigger] actions[i]) matches ActionView::RemoveLink { path } ==> path.is_below(target)
                && owns(fs, path, source_for(dir, target, path))) && (actions[i] is RemoveLink
                || actions[i] is RemoveEmptyDir) by {
                if i < inner.len() {
                    assert(actions[i] == inner[i]);
                    match inner[i] {
                        ActionView::RemoveLink { path } => {
                            lemma_below_child(dir, target, name, path);
                        },
                        _ => {},
                    }
                }
            }
        }
    }
}

/// Ownership soundness: every link that the plan for removing a package
/// removes lies below the target directory, is a link, and leads to the
/// entry of the package that it stands for.
pub proof fn lemma_unstow_removes_only_owned_links(
    cfg: UnstowerView,
    fs: FsView,
    name: Seq<char>,
    i: int,
)
    requires
        plan_unstow_package_spec(cfg, fs, name) is Ok,
        0 <= i < plan_unstow_package_spec(cfg, fs, name)->Ok_0.len(),
        plan_unstow_package_spec(cfg, fs, name)->Ok_0[i] is RemoveLink,
    ensures
        ({
            let path = plan_unstow_package_spec(cfg, fs, name)->Ok_0[i]->RemoveLink_path;
            let package = fs.locate(cfg.stow_dir.child(name), true)->Ok_0;
            path.is_below(cfg.target_dir) && owns(
                fs,
                path,
                source_for(package, cfg.target_dir, path),
            )
        }),
{
    let package = fs.locate(cfg.stow_dir.child(name), true)->Ok_0;
    let target = cfg.target_dir;
    let actions = plan_unstow_package_spec(cfg, fs, name)->Ok_0;
    if fs.present(target) {
        let inner = plan_unstow_entries_spec(cfg, fs, package, target, listing(fs.entries, package));
        lemma_entries_remove_owned(cfg, fs, package, target, listing(fs.entries, package));
        assert(actions =~= inner);
        assert(inner[i] is RemoveLink);
    }
}

/// Non-interference: a link that leads to nothing inside the package is not
/// among the links that the plan for removing the package removes.
pub proof fn lemma_unstow_keeps_foreign_links(
    cfg: UnstowerView,
    fs: FsView,
    name: Seq<char>,
    link: PathView,
)
    requires
        plan_unstow_package_spec(cfg, fs, name) is Ok,
        forall|more: Seq<Seq<char>>|
            !owns(
                fs,
                link,
                #[trigger] entry_below(fs.locate(cfg.stow_dir.child(name), true)->Ok_0, more),
            ),
    ensures
        !plan_unstow_package_spec(cfg, fs, name)->Ok_0.contains(
            ActionView::RemoveLink { path: link },
        ),
{
    let actions = plan_unstow_package_spec(cfg, fs, name)->Ok_0;
    if actions.contains(ActionView::RemoveLink { path: link }) {
        let i = choose|i: int|
            0 <= i < actions.len() && actions[i] == (ActionView::RemoveLink { path: link });
        lemma_unstow_removes_only_owned_links(cfg, fs, name, i);
        let package = fs.locate(cfg.stow_dir.child(name), true)->Ok_0;
        let more = link.names.skip(cfg.target_dir.names.len() as int);
        assert(source_for(package, cfg.target_dir, link) == entry_below(package, more));
    }
}

/// Whether the link at the location `x` is foreign to the package at `pkg`:
/// by no path that names it does it belong to anything inside the package.
pub open spec fn foreign(fs: FsView, pkg: Seq<Seq<char>>, x: Seq<Seq<char>>) -> bool {
    forall|path: PathView, more: Seq<Seq<char>>|
        #![trigger owns(fs, path, entry_below(pkg, more))]
        fs.locate(path, false) == Ok::<Seq<Seq<char>>, IoErrorKind>(x) ==> !owns(
            fs,
            path,
            entry_below(pkg, more),
        )
}

/// Whether every action removes a link or an empty directory, and no link
/// that is removed is named, in `fs`, by its path at the location `x`.
pub open spec fn spares(fs: FsView, x: Seq<Seq<char>>, actions: Seq<ActionView>) -> bool {
    forall|i: int|
        0 <= i < actions.len() ==> match #[trigger] actions[i] {
            ActionView::RemoveLink { path } => fs.locate(path, false) != Ok::<
                Seq<Seq<char>>,
                IoErrorKind,
            >(x),
            ActionView::RemoveEmptyDir { .. } => true,
            _ => false,
        }
}

/// Removing an entry that has nothing inside it keeps the rest.
proof fn lemma_removed_keeps(now: FsView, q: Seq<Seq<char>>, x: Seq<Seq<char>>)
    requires
        now.wf(),
        now.has(q),
        forall|i: int| 0 <= i < now.entries.len() ==> !is_child(
            #[trigger] now.entries[i],
            q,
        ),
        x != q,
    ensures
        now.without_entry(q).wf(),
        keeps(now.without_entry(q).entries, now.entries),
        now.without_entry(q).node_at(x) == now.node_at(x),
{
    let gone = now.without_entry(q);
    lemma_without_entry(now, q);
    assert(gone.node_at(x) == now.node_at(x));
    assert forall|y: Seq<Seq<char>>| (#[trigger] node_in(
        gone.entries,
        y,
    )) is Some implies node_in(now.entries, y) == node_in(
        gone.entries,
        y,
    ) by {
        assert(gone.node_at(y) == if y == q && q.len() > 0 {
            None
        } else {
            now.node_at(y)
        });
    }
}

/// Holding all is kept by what holds the same.
proof fn lemma_keeps_same(a: Seq<EntryView>)
    ensures
        keeps(a, a),
{
}

/// Removing a link that is named at another location leaves the link at
/// `x` where it is.
proof fn lemma_remove_link_spares(fs: FsView, now: FsView, x: Seq<Seq<char>>, path: PathView)
    requires
        now.wf(),
        keeps(now.entries, fs.entries),
        now.node_at(x) is Some,
        now.node_at(x)->Some_0 is Link,
        fs.locate(path, false) != Ok::<Seq<Seq<char>>, IoErrorKind>(x),
    ensures
        remove_link_spec(now, path).fs.wf(),
        keeps(remove_link_spec(now, path).fs.entries, now.entries),
        remove_link_spec(now, path).fs.node_at(x) == now.node_at(x),
{
    let fuel = MAX_LINK_HOPS as nat;
    lemma_keeps_same(now.entries);
    match now.remove_file(path) {
        Err(_) => {},
        Ok(gone) => {
            let q = now.locate(path, false)->Ok_0;
            lemma_walk_kept(now.entries, fs.entries, Seq::empty(), path.names, false, fuel);
            lemma_root(now);
            if q.len() == 0 {
                assert(q =~= Seq::empty());
            }
            lemma_present(now, q);
            lemma_leaf_childless(now, q);
            lemma_removed_keeps(now, q, x);
        },
    }
}

/// Removing an empty directory leaves the link at `x` where it is.
proof fn lemma_remove_dir_spares(now: FsView, x: Seq<Seq<char>>, path: PathView)
    requires
        now.wf(),
        now.node_at(x) is Some,
        now.node_at(x)->Some_0 is Link,
    ensures
        remove_empty_directory_spec(now, path).fs.wf(),
        keeps(remove_empty_directory_spec(now, path).fs.entries, now.entries),
        remove_empty_directory_spec(now, path).fs.node_at(x) == now.node_at(x),
{
    lemma_keeps_same(now.entries);
    match is_empty_directory_spec(now, path) {
        Ok(true) => match now.remove_dir(path) {
            Err(_) => {},
            Ok(gone) => {
                let q = now.locate(path, false)->Ok_0;
                lemma_present(now, q);
                lemma_listing_empty(now.entries, q);
                lemma_removed_keeps(now, q, x);
            },
        },
        _ => {},
    }
}

/// Executing removals that spare a link leaves the link where it is,
/// whether they all succeed or not.
proof fn lemma_removals_spare(
    fs: FsView,
    now: FsView,
    x: Seq<Seq<char>>,
    actions: Seq<ActionView>,
    dry_run: bool,
)
    requires
        now.wf(),
        keeps(now.entries, fs.entries),
        now.node_at(x) is Some,
        now.node_at(x)->Some_0 is Link,
        spares(fs, x, actions),
    ensures
        execute_spec(now, actions, dry_run).fs.node_at(x) == now.node_at(x),
    decreases actions.len(),
{
    if actions.len() > 0 {
        let first = actions[0];
        let tail = actions.skip(1);
        let step = execute_action_spec(now, first, dry_run);
        assert forall|i: int| 0 <= i < tail.len() implies match #[trigger] tail[i] {
            ActionView::RemoveLink { path } => fs.locate(path, false) != Ok::<
                Seq<Seq<char>>,
                IoErrorKind,
            >(x),
            ActionView::RemoveEmptyDir { .. } => true,
            _ => false,
        } by {
            assert(tail[i] == actions[i + 1]);
        }
        lemma_keeps_same(now.entries);
        if !dry_run {
            match first {
                ActionView::RemoveLink { path } => {
                    lemma_remove_link_spares(fs, now, x, path);
                },
                ActionView::RemoveEmptyDir { path } => {
                    lemma_remove_dir_spares(now, x, path);
                },
                _ => {},
            }
        }
        lemma_keeps_chain(step.fs.entries, now.entries, fs.entries);
        if step.err is None {
            lemma_removals_spare(fs, step.fs, x, tail, dry_run);
        }
    }
}

/// Non-interference, in what results: a link that is foreign to a package
/// is still there, as it was, after the package was removed, whether the
/// removal succeeded or failed on the way.
pub proof fn lemma_unstow_spares_foreign_links(
    cfg: UnstowerView,
    fs: FsView,
    name: Seq<char>,
    x: Seq<Seq<char>>,
)
    requires
        fs.wf(),
        fs.node_at(x) is Some,
        fs.node_at(x)->Some_0 is Link,
        foreign(fs, fs.locate(cfg.stow_dir.child(name), true)->Ok_0, x),
    ensures
        unstow_package_spec(cfg, fs, name).fs.node_at(x) == fs.node_at(x),
{
    let pkg = fs.locate(cfg.stow_dir.child(name), true)->Ok_0;
    match plan_unstow_package_spec(cfg, fs, name) {
        Err(_) => {},
        Ok(actions) => {
            let target = cfg.target_dir;
            if fs.present(target) {
                let inner = plan_unstow_entries_spec(cfg, fs, pkg, target, listing(fs.entries, pkg));
                lemma_entries_remove_owned(cfg, fs, pkg, target, listing(fs.entries, pkg));
                assert(actions =~= inner);
                assert forall|i: int| 0 <= i < actions.len() implies match #[trigger] actions[i] {
                    ActionView::RemoveLink { path } => fs.locate(path, false) != Ok::<
                        Seq<Seq<char>>,
                        IoErrorKind,
                    >(x),
                    ActionView::RemoveEmptyDir { .. } => true,
                    _ => false,
                } by {
                    match actions[i] {
                        ActionView::RemoveLink { path } => {
                            let more = path.names.skip(target.names.len() as int);
                            assert(source_for(pkg, target, path) == entry_below(pkg, more));
                            assert(owns(fs, path, entry_below(pkg, more)));
                        },
                        _ => {},
                    }
                }
            } else {
                assert(actions =~= Seq::empty());
            }
            lemma_keeps_same(fs.entries);
            lemma_removals_spare(fs, fs, x, actions, cfg.dry_run);
        },
    }
}

} // verus!
