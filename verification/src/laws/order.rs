//! The order of removals: a directory is removed, in case it is left empty,
//! only after the links inside it.

use vstd::prelude::*;
use crate::fs_model::{lemma_listing_distinct, listing, names_distinct, DirEntryView, FsView};
use crate::path_utils::PathView;
use crate::planner::ActionView;
use crate::stow::{entry_path, room};
use crate::unstow::{
    plan_unstow_dir_item_spec, plan_unstow_entries_spec, plan_unstow_link_spec,
    plan_unstow_package_spec, plan_unstow_walk_spec, UnstowerView,
};

verus! {

/// Whether every removal of a link comes before the removal of each
/// directory that the link lies in.
pub open spec fn links_go_first(actions: Seq<ActionView>) -> bool {
    forall|i: int, j: int|
        0 <= i < actions.len() && 0 <= j < actions.len() && (#[trigger] actions[i]) is RemoveLink
            && (#[trigger] actions[j]) is RemoveEmptyDir && actions[i].subject().is_below(
            actions[j].subject(),
        ) ==> i < j
}

/// Whether every action works at `item` or below it.
pub open spec fn works_at_or_below(item: PathView, actions: Seq<ActionView>) -> bool {
    forall|i: int|
        0 <= i < actions.len() ==> (#[trigger] actions[i]).subject() == item
            || actions[i].subject().is_below(item)
}

/// Whether every action works below `target`, under one of the names of
/// `lines`.
pub open spec fn works_below(
    target: PathView,
    lines: Seq<DirEntryView>,
    actions: Seq<ActionView>,
) -> bool {
    forall|i: int|
        0 <= i < actions.len() ==> (#[trigger] actions[i]).subject().is_below(target)
            && exists|k: int|
            0 <= k < lines.len() && (#[trigger] lines[k]).name
                == actions[i].subject().names[target.names.len() as int]
}

/// What is at a child of `target` or below it lies below `target`, under
/// the name of the child.
proof fn lemma_under_child(target: PathView, name: Seq<char>, path: PathView)
    requires
        path == target.child(name) || path.is_below(target.child(name)),
    ensures
        path.is_below(target),
        path.names[target.names.len() as int] == name,
{
    let t = target.names.len() as int;
    let item = target.child(name);
    assert(item.names.take(t) =~= target.names);
    if path != item {
        assert(path.names.take(t) =~= path.names.take(t + 1).take(t));
        assert(path.names.take(t + 1)[t] == name);
    }
}

/// What lies below a path has the names of the path.
proof fn lemma_below_has_names(path: PathView, above: PathView, k: int)
    requires
        path.is_below(above),
        0 <= k < above.names.len(),
    ensures
        path.names[k] == above.names[k],
{
    assert(path.names.take(above.names.len() as int)[k] == above.names[k]);
}

/// Removal order, for the walk over the entries of a package directory.
pub proof fn lemma_entries_in_order(
    cfg: UnstowerView,
    fs: FsView,
    dir: Seq<Seq<char>>,
    target: PathView,
    lines: Seq<DirEntryView>,
)
    requires
        fs.wf(),
        names_distinct(lines),
    ensures
        links_go_first(plan_unstow_entries_spec(cfg, fs, dir, target, lines)),
        works_below(target, lines, plan_unstow_entries_spec(cfg, fs, dir, target, lines)),
    decreases room(fs, dir), lines.len(),
{
    let whole = plan_unstow_entries_spec(cfg, fs, dir, target, lines);
    if lines.len() > 0 {
        let name = lines[0].name;
        let item = target.child(name);
        let tail = lines.skip(1);
        let a = if !fs.present(item) {
            Seq::empty()
        } else if lines[0].is_dir {
            if room(fs, dir) > 0 {
                plan_unstow_dir_item_spec(cfg, fs, dir.push(name), item)
            } else {
                Seq::empty()
            }
        } else {
            plan_unstow_link_spec(fs, entry_path(dir, name), item)
        };
        let b = plan_unstow_entries_spec(cfg, fs, dir, target, tail);
        assert(whole == a + b);
        assert forall|i: int, j: int| 0 <= i < j < tail.len() implies (#[trigger] tail[i]).name != (
        #[trigger] tail[j]).name by {
            assert(tail[i] == lines[i + 1]);
            assert(tail[j] == lines[j + 1]);
        }
        lemma_entries_in_order(cfg, fs, dir, target, tail);
        assert(links_go_first(a) && works_at_or_below(item, a)) by {
            if fs.present(item) && lines[0].is_dir && room(fs, dir) > 0 {
                lemma_item_in_order(cfg, fs, dir, target, name);
            }
        }
        assert forall|i: int| 0 <= i < whole.len() implies (#[trigger] whole[i]).subject().is_below(
            target,
        ) && exists|k: int|
            0 <= k < lines.len() && (#[trigger] lines[k]).name
                == whole[i].subject().names[target.names.len() as int] by {
            if i < a.len() {
                assert(whole[i] == a[i]);
                lemma_under_child(target, name, whole[i].subject());
                assert(lines[0].name == name);
            } else {
                assert(whole[i] == b[i - a.len()]);
                let k = choose|k: int|
                    0 <= k < tail.len() && (#[trigger] tail[k]).name == b[i
                        - a.len()].subject().names[target.names.len() as int];
                assert(lines[k + 1] == tail[k]);
            }
        }
        assert forall|i: int, j: int|
            0 <= i < whole.len() && 0 <= j < whole.len() && (#[trigger] whole[i]) is RemoveLink && (
            #[trigger] whole[j]) is RemoveEmptyDir && whole[i].subject().is_below(
                whole[j].subject(),
            ) implies i < j by {
            if i < a.len() && j < a.len() {
                assert(whole[i] == a[i]);
                assert(whole[j] == a[j]);
            } else if i >= a.len() && j >= a.len() {
                assert(whole[i] == b[i - a.len()]);
                assert(whole[j] == b[j - a.len()]);
            } else if i >= a.len() {
                // A link under another name does not lie in a directory
                // under this one.
                assert(whole[i] == b[i - a.len()]);
                assert(whole[j] == a[j]);
                let link = whole[i].subject();
                let gone = whole[j].subject();
                lemma_under_child(target, name, gone);
                lemma_below_has_names(link, gone, target.names.len() as int);
                let k = choose|k: int|
                    0 <= k < tail.len() && (#[trigger] tail[k]).name
                        == link.names[target.names.len() as int];
                assert(tail[k] == lines[k + 1]);
                assert(lines[0].name != lines[k + 1].name);
            }
        }
    }
}

/// The same for one directory of a package.
proof fn lemma_item_in_order(
    cfg: UnstowerView,
    fs: FsView,
    dir: Seq<Seq<char>>,
    target: PathView,
    name: Seq<char>,
)
    requires
        fs.wf(),
        room(fs, dir) > 0,
    ensures
        links_go_first(plan_unstow_dir_item_spec(cfg, fs, dir.push(name), target.child(name))),
        works_at_or_below(
            target.child(name),
            plan_unstow_dir_item_spec(cfg, fs, dir.push(name), target.child(name)),
        ),
    decreases room(fs, dir), 0nat,
{
    let item = target.child(name);
    let sub = dir.push(name);
    let a = plan_unstow_dir_item_spec(cfg, fs, sub, item);
    if fs.is_symlink(item) {
    } else if fs.is_dir(item) && room(fs, sub) >= 0 {
        if fs.present(item) {
            let lines = listing(fs.entries, sub);
            let inner = plan_unstow_entries_spec(cfg, fs, sub, item, lines);
            lemma_listing_distinct(fs.entries, sub);
            lemma_entries_in_order(cfg, fs, sub, item, lines);
            assert forall|i: int| 0 <= i < a.len() implies (#[trigger] a[i]).subject() == item
                || a[i].subject().is_below(item) by {
                if i < inner.len() {
                    assert(a[i] == inner[i]);
                }
            }
            assert forall|i: int, j: int|
                0 <= i < a.len() && 0 <= j < a.len() && (#[trigger] a[i]) is RemoveLink && (
                #[trigger] a[j]) is RemoveEmptyDir && a[i].subject().is_below(
                    a[j].subject(),
                ) implies i < j by {
                if i < inner.len() && j < inner.len() {
                    assert(a[i] == inner[i]);
                    assert(a[j] == inner[j]);
                }
            }
        }
    }
}

/// Removal order: in the plan for removing a package, the removal of a
/// directory comes after the removal of every link that lies in it.
pub proof fn lemma_unstow_removes_links_first(cfg: UnstowerView, fs: FsView, name: Seq<char>)
    requires
        fs.wf(),
        plan_unstow_package_spec(cfg, fs, name) is Ok,
    ensures
        links_go_first(plan_unstow_package_spec(cfg, fs, name)->Ok_0),
{
    let package = fs.locate(cfg.stow_dir.child(name), true)->Ok_0;
    let target = cfg.target_dir;
    let actions = plan_unstow_package_spec(cfg, fs, name)->Ok_0;
    if fs.present(target) {
        let lines = listing(fs.entries, package);
        let inner = plan_unstow_entries_spec(cfg, fs, package, target, lines);
        lemma_listing_distinct(fs.entries, package);
        lemma_entries_in_order(cfg, fs, package, target, lines);
        assert(actions =~= inner);
    }
}

} // verus!
