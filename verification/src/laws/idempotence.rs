//! Stowing a package a second time plans nothing, where the first time
//! linked files only.

use vstd::prelude::*;
use crate::error::{ErrorView, IoErrorKind};
use crate::fs_model::{
    is_child, is_under, lemma_listing_line, lemma_node_at, lemma_present, lemma_present_has,
    lemma_root, lemma_with_entry, listing, node_in, DirEntryView, EntryView, FsOpView, FsView,
    MAX_LINK_HOPS, NodeView,
};
use crate::laws::links::{
    all_land, lands, lemma_directory_is_seen, lemma_entries_land, lemma_seen_directory, no_unfold,
    stored_target,
};
use crate::laws::round_trip::{lemma_link_is_owned, lemma_listing_of_more};
use crate::path_utils::PathView;
use crate::planner::{execute_action_spec, execute_spec, ActionView};
use crate::resolve::{
    keeps, lemma_keeps_chain, lemma_normalize_fixed, lemma_walk_canonical, lemma_walk_end,
    lemma_walk_kept,
};
use crate::stow::{
    already_linked, decide_spec, entry_path, file_link, lemma_room, link_target_abs, observe_spec,
    plan_dir_item_spec, plan_entries_spec, plan_file_spec, plan_package_spec, room, see_spec,
    stow_package_spec, FoldDecisionView, Planned, StowerView,
};

verus! {

/// Whether every action makes a link to a file.
pub open spec fn only_file_links(actions: Seq<ActionView>) -> bool {
    forall|i: int| 0 <= i < actions.len() ==> (#[trigger] actions[i]) is CreateFileLink
}

/// The entry that an action makes.
pub open spec fn made_entry(action: ActionView) -> EntryView {
    EntryView { path: action.subject().names, node: NodeView::Link(stored_target(action)) }
}

/// Whether the file system holds the link of every action.
pub open spec fn has_links(fs: FsView, actions: Seq<ActionView>) -> bool {
    forall|i: int|
        0 <= i < actions.len() ==> fs.node_at((#[trigger] actions[i]).subject().names)
            == Some(made_entry(actions[i]).node)
}

/// Executing links that land, where none fails, keeps what was there, and
/// holds the link of every action afterwards. No entry of the file system
/// is lost, and the entries added are the links.
pub proof fn lemma_creates_add_links(fs: FsView, now: FsView, actions: Seq<ActionView>)
    requires
        now.wf(),
        keeps(fs.entries, now.entries),
        only_file_links(actions),
        all_land(fs, actions),
        execute_spec(now, actions, false).err is None,
    ensures
        execute_spec(now, actions, false).fs.wf(),
        keeps(now.entries, execute_spec(now, actions, false).fs.entries),
        has_links(execute_spec(now, actions, false).fs, actions),
        exists|more: Seq<EntryView>|
            #![trigger now.entries + more]
            execute_spec(now, actions, false).fs.entries == now.entries + more && forall|k: int|
                0 <= k < more.len() ==> exists|i: int|
                    0 <= i < actions.len() && (#[trigger] more[k]) == made_entry(
                        #[trigger] actions[i],
                    ),
    decreases actions.len(),
{
    let end = execute_spec(now, actions, false).fs;
    let fuel = MAX_LINK_HOPS as nat;
    if actions.len() == 0 {
        let none = Seq::<EntryView>::empty();
        assert(now.entries + none =~= now.entries);
        assert(end.entries == now.entries + none);
    } else {
        let first = actions[0];
        let tail = actions.skip(1);
        assert(first is CreateFileLink);
        assert(lands(fs, first));
        let link = first.subject();
        let rel = stored_target(first);
        let d = link.names.drop_last();
        let name = link.names.last();
        let x = link.names;
        assert(d.push(name) =~= x);
        // The directory of the link is there, so nothing is made for it.
        assert(now.node_at(d) == fs.node_at(d));
        lemma_walk_canonical(now, d, true, fuel);
        let parent = link.parent()->Some_0;
        assert(parent.names == d);
        assert(now.present(parent));
        assert(now.slot(link) == Ok::<Seq<Seq<char>>, IoErrorKind>(x));
        let step = execute_action_spec(now, first, false);
        assert(step.err is None);
        assert(now.node_at(x) is None);
        lemma_present_has(now, x);
        lemma_with_entry(now, x, NodeView::Link(rel));
        let made = now.with_entry(x, NodeView::Link(rel));
        let next = made.logged(FsOpView::Symlink { link, target: rel, is_directory: false });
        assert(step.fs == next);
        assert(keeps(now.entries, next.entries)) by {
            assert forall|y: Seq<Seq<char>>| (#[trigger] node_in(now.entries, y)) is Some implies node_in(
                next.entries,
                y,
            ) == node_in(now.entries, y) by {
                assert(made.node_at(y) == now.node_at(y));
            }
        }
        lemma_keeps_chain(fs.entries, now.entries, next.entries);
        assert forall|i: int| 0 <= i < tail.len() implies (#[trigger] tail[i]) is CreateFileLink && (
        tail[i].is_create() ==> lands(fs, tail[i])) by {
            assert(tail[i] == actions[i + 1]);
        }
        lemma_creates_add_links(fs, next, tail);
        lemma_keeps_chain(now.entries, next.entries, end.entries);
        assert(made.node_at(x) == Some(NodeView::Link(rel)));
        assert(node_in(next.entries, x) is Some);
        assert forall|i: int| 0 <= i < actions.len() implies end.node_at(
            (#[trigger] actions[i]).subject().names,
        ) == Some(made_entry(actions[i]).node) by {
            if i > 0 {
                assert(tail[i - 1] == actions[i]);
            }
        }
        let rest = choose|more: Seq<EntryView>|
            #![trigger next.entries + more]
            end.entries == next.entries + more && forall|k: int|
                0 <= k < more.len() ==> exists|i: int|
                    0 <= i < tail.len() && (#[trigger] more[k]) == made_entry(#[trigger] tail[i]);
        let all = seq![made_entry(first)] + rest;
        assert(end.entries =~= now.entries + all);
        assert forall|k: int| 0 <= k < all.len() implies exists|i: int|
            0 <= i < actions.len() && (#[trigger] all[k]) == made_entry(#[trigger] actions[i]) by {
            if k == 0 {
                assert(all[0] == made_entry(actions[0]));
            } else {
                assert(all[k] == rest[k - 1]);
                let i = choose|i: int|
                    0 <= i < tail.len() && rest[k - 1] == made_entry(#[trigger] tail[i]);
                assert(tail[i] == actions[i + 1]);
            }
        }
    }
}

/// A link that leads to a package entry still does once more is there.
proof fn lemma_already_linked_kept(fs: FsView, after: FsView, item: PathView, source: PathView)
    requires
        fs.wf(),
        after.wf(),
        keeps(fs.entries, after.entries),
        item.wf(),
        fs.present(source),
        observe_spec(fs, item) is Link,
        already_linked(fs, observe_spec(fs, item), source),
    ensures
        observe_spec(after, item) is Link,
        already_linked(after, observe_spec(after, item), source),
{
    let fuel = MAX_LINK_HOPS as nat;
    lemma_walk_kept(fs.entries, after.entries, Seq::empty(), item.names, true, fuel);
    lemma_walk_kept(fs.entries, after.entries, Seq::empty(), item.names, false, fuel);
    lemma_walk_kept(fs.entries, after.entries, Seq::empty(), source.names, true, fuel);
    lemma_root(fs);
    lemma_walk_end(fs, Seq::empty(), item.names, false, fuel);
    let own = fs.locate(item, false)->Ok_0;
    assert(node_in(fs.entries, own) is Some);
    assert(after.node_at(own) == fs.node_at(own));
    let stored = fs.read_link(item)->Ok_0;
    assert(after.read_link(item) == Ok::<PathView, IoErrorKind>(stored));
    let abs = link_target_abs(item, stored);
    // What the entries hold is well formed, so the link points to an
    // absolute path.
    assert(stored.wf()) by {
        lemma_present(fs, own);
        if own.len() > 0 {
            let i = fs.index_of(own);
            lemma_node_at(fs, i);
        } else {
            assert(own =~= Seq::empty());
        }
    }
    assert(abs.absolute && abs.wf());
    lemma_normalize_fixed(fs, source);
    let norm = fs.normalize(source);
    assert(after.normalize(source) == norm);
    if fs.present(abs) {
        lemma_normalize_fixed(fs, abs);
        lemma_walk_kept(fs.entries, after.entries, Seq::empty(), abs.names, true, fuel);
        assert(after.normalize(abs) == fs.normalize(abs));
    } else {
        assert(PathView::root().join(abs) == abs);
        assert(fs.normalize(abs) == abs);
    }
}

/// A file of a package that was planned for, with its link made where one
/// was planned, is planned as nothing the second time.
proof fn lemma_file_again(
    cfg: StowerView,
    fs: FsView,
    after: FsView,
    dir: Seq<Seq<char>>,
    place: Seq<Seq<char>>,
    name: Seq<char>,
)
    requires
        fs.wf(),
        after.wf(),
        keeps(fs.entries, after.entries),
        cfg.conflict_strategy is Fail,
        fs.node_at(place) == Some(NodeView::Dir),
        fs.present(entry_path(dir, name)),
        plan_file_spec(
            cfg,
            fs,
            entry_path(dir, name),
            PathView::absolute_of(place).child(name),
            PathView::absolute_of(place),
            observe_spec(fs, PathView::absolute_of(place).child(name)),
        ) is Ok,
        has_links(
            after,
            plan_file_spec(
                cfg,
                fs,
                entry_path(dir, name),
                PathView::absolute_of(place).child(name),
                PathView::absolute_of(place),
                observe_spec(fs, PathView::absolute_of(place).child(name)),
            )->Ok_0.actions,
        ),
    ensures
        plan_file_spec(
            cfg,
            after,
            entry_path(dir, name),
            PathView::absolute_of(place).child(name),
            PathView::absolute_of(place),
            observe_spec(after, PathView::absolute_of(place).child(name)),
        ) == Ok::<Planned, ErrorView>(Planned::nothing()),
{
    let target = PathView::absolute_of(place);
    let item = target.child(name);
    let source = entry_path(dir, name);
    let seen = observe_spec(fs, item);
    let fuel = MAX_LINK_HOPS as nat;
    let first = plan_file_spec(cfg, fs, source, item, target, seen)->Ok_0.actions;
    assert(after.node_at(place) == fs.node_at(place));
    if seen is Absent {
        assert(first[0] == file_link(fs, source, item, target));
        assert(item.names =~= place.push(name));
        assert(after.node_at(first[0].subject().names) == Some(
            made_entry(first[0]).node,
        ));
        lemma_link_is_owned(fs, after, dir, place, name);
    } else {
        lemma_walk_kept(fs.entries, after.entries, Seq::empty(), item.names, true, fuel);
        assert(after.present(item));
        if cfg.patterns.should_defer(source) {
        } else {
            lemma_already_linked_kept(fs, after, item, source);
        }
    }
}

/// Whether every entry of the file system at or below `dir` leads to
/// something.
pub open spec fn all_lead(fs: FsView, dir: Seq<Seq<char>>) -> bool {
    forall|i: int|
        0 <= i < fs.entries.len() && is_under((#[trigger] fs.entries[i]).path, dir) ==> fs.present(
            PathView::absolute_of(fs.entries[i].path),
        )
}

/// Whether the directories at or below `dir` list in `after` what they list
/// in `fs`.
pub open spec fn lists_kept(fs: FsView, after: FsView, dir: Seq<Seq<char>>) -> bool {
    forall|d: Seq<Seq<char>>|
        is_under(d, dir) ==> #[trigger] listing(after.entries, d) == listing(fs.entries, d)
}

/// Each line of a listing is an entry.
proof fn lemma_lines_are_entries(fs: FsView, dir: Seq<Seq<char>>)
    requires
        fs.wf(),
    ensures
        forall|j: int|
            0 <= j < listing(fs.entries, dir).len() ==> fs.node_at(
                dir.push((#[trigger] listing(fs.entries, dir)[j]).name),
            ) is Some,
{
    let lines = listing(fs.entries, dir);
    assert forall|j: int| 0 <= j < lines.len() implies fs.node_at(
        dir.push((#[trigger] lines[j]).name),
    ) is Some by {
        lemma_listing_line(fs.entries, dir, j);
        let i = choose|i: int|
            0 <= i < fs.entries.len() && (#[trigger] fs.entries[i]).path == dir.push(lines[j].name)
                && lines[j].is_dir == (fs.entries[i].node is Dir);
        lemma_node_at(fs, i);
    }
}

/// What holds something at or below a directory leads to something, where
/// all entries there do.
proof fn lemma_entry_leads(fs: FsView, pkg: Seq<Seq<char>>, x: Seq<Seq<char>>)
    requires
        fs.wf(),
        all_lead(fs, pkg),
        is_under(x, pkg),
        x.len() > 0,
        fs.node_at(x) is Some,
    ensures
        fs.present(PathView::absolute_of(x)),
{
    lemma_present(fs, x);
    let i = fs.index_of(x);
    assert(fs.entries[i].path == x);
}

/// The walk over the entries of a package directory plans nothing the
/// second time, where the first time it planned links to files only and
/// those links were made.
pub proof fn lemma_entries_again(
    cfg: StowerView,
    fs: FsView,
    after: FsView,
    pkg: Seq<Seq<char>>,
    dir: Seq<Seq<char>>,
    place: Seq<Seq<char>>,
    lines: Seq<DirEntryView>,
)
    requires
        fs.wf(),
        after.wf(),
        keeps(fs.entries, after.entries),
        cfg.conflict_strategy is Fail,
        fs.node_at(place) == Some(NodeView::Dir),
        is_under(dir, pkg),
        all_lead(fs, pkg),
        lists_kept(fs, after, pkg),
        forall|j: int| 0 <= j < lines.len() ==> fs.node_at(dir.push((#[trigger] lines[j]).name)) is Some,
        plan_entries_spec(
            cfg,
            fs,
            dir,
            PathView::absolute_of(place),
            PathView::absolute_of(place),
            None,
            lines,
        ) is Ok,
        only_file_links(
            plan_entries_spec(
                cfg,
                fs,
                dir,
                PathView::absolute_of(place),
                PathView::absolute_of(place),
                None,
                lines,
            )->Ok_0.actions,
        ),
        has_links(
            after,
            plan_entries_spec(
                cfg,
                fs,
                dir,
                PathView::absolute_of(place),
                PathView::absolute_of(place),
                None,
                lines,
            )->Ok_0.actions,
        ),
    ensures
        plan_entries_spec(
            cfg,
            after,
            dir,
            PathView::absolute_of(place),
            PathView::absolute_of(place),
            None,
            lines,
        ) == Ok::<Planned, ErrorView>(Planned::nothing()),
    decreases room(fs, dir), lines.len(),
{
    let target = PathView::absolute_of(place);
    let whole = plan_entries_spec(cfg, fs, dir, target, target, None, lines)->Ok_0.actions;
    if lines.len() > 0 {
        let name = lines[0].name;
        let source = entry_path(dir, name);
        let item = target.child(name);
        let seen = observe_spec(fs, item);
        assert(see_spec(fs, None, item, name) == seen);
        assert(see_spec(after, None, item, name) == observe_spec(after, item));
        let first = if cfg.patterns.should_ignore(source) {
            Ok(Planned::nothing())
        } else if lines[0].is_dir {
            if room(fs, dir) > 0 {
                plan_dir_item_spec(cfg, fs, dir.push(name), item, target, seen)
            } else {
                Ok(Planned::nothing())
            }
        } else {
            plan_file_spec(cfg, fs, source, item, target, seen)
        };
        let a = first->Ok_0.actions;
        let tail = lines.skip(1);
        let b = plan_entries_spec(cfg, fs, dir, target, target, None, tail)->Ok_0.actions;
        assert(whole == a + b);
        assert forall|i: int| 0 <= i < b.len() implies (#[trigger] b[i]) is CreateFileLink
            && after.node_at(b[i].subject().names) == Some(made_entry(b[i]).node) by {
            assert(whole[a.len() + i] == b[i]);
        }
        assert forall|i: int| 0 <= i < a.len() implies (#[trigger] a[i]) is CreateFileLink
            && after.node_at(a[i].subject().names) == Some(made_entry(a[i]).node) by {
            assert(whole[i] == a[i]);
        }
        assert forall|j: int| 0 <= j < tail.len() implies fs.node_at(
            dir.push((#[trigger] tail[j]).name),
        ) is Some by {
            assert(tail[j] == lines[j + 1]);
        }
        lemma_entries_again(cfg, fs, after, pkg, dir, place, tail);
        // The entry is there, in both, and leads to something.
        let sub = dir.push(name);
        assert(fs.node_at(dir.push(lines[0].name)) is Some);
        assert(is_under(sub, pkg)) by {
            assert(sub.take(pkg.len() as int) =~= dir.take(pkg.len() as int));
        }
        lemma_entry_leads(fs, pkg, sub);
        assert(after.node_at(sub) == fs.node_at(sub));
        lemma_room(fs, sub);
        lemma_room(after, sub);
        assert(Planned::nothing().followed_by(Planned::nothing()).actions =~= Seq::empty());
        assert(Planned::nothing().followed_by(Planned::nothing()).moves =~= Seq::empty());
        assert(Planned::nothing().followed_by(Planned::nothing()) == Planned::nothing());
        if cfg.patterns.should_ignore(source) {
        } else if lines[0].is_dir {
            lemma_item_again(cfg, fs, after, pkg, dir, place, name);
        } else {
            lemma_file_again(cfg, fs, after, dir, place, name);
        }
    }
}

/// The same for one directory of a package.
proof fn lemma_item_again(
    cfg: StowerView,
    fs: FsView,
    after: FsView,
    pkg: Seq<Seq<char>>,
    dir: Seq<Seq<char>>,
    place: Seq<Seq<char>>,
    name: Seq<char>,
)
    requires
        fs.wf(),
        after.wf(),
        keeps(fs.entries, after.entries),
        cfg.conflict_strategy is Fail,
        fs.node_at(place) == Some(NodeView::Dir),
        is_under(dir.push(name), pkg),
        all_lead(fs, pkg),
        lists_kept(fs, after, pkg),
        room(fs, dir) > 0,
        fs.node_at(dir.push(name)) is Some,
        plan_dir_item_spec(
            cfg,
            fs,
            dir.push(name),
            PathView::absolute_of(place).child(name),
            PathView::absolute_of(place),
            observe_spec(fs, PathView::absolute_of(place).child(name)),
        ) is Ok,
        only_file_links(
            plan_dir_item_spec(
                cfg,
                fs,
                dir.push(name),
                PathView::absolute_of(place).child(name),
                PathView::absolute_of(place),
                observe_spec(fs, PathView::absolute_of(place).child(name)),
            )->Ok_0.actions,
        ),
        has_links(
            after,
            plan_dir_item_spec(
                cfg,
                fs,
                dir.push(name),
                PathView::absolute_of(place).child(name),
                PathView::absolute_of(place),
                observe_spec(fs, PathView::absolute_of(place).child(name)),
            )->Ok_0.actions,
        ),
    ensures
        plan_dir_item_spec(
            cfg,
            after,
            dir.push(name),
            PathView::absolute_of(place).child(name),
            PathView::absolute_of(place),
            observe_spec(after, PathView::absolute_of(place).child(name)),
        ) == Ok::<Planned, ErrorView>(Planned::nothing()),
    decreases room(fs, dir), 0nat,
{
    let target = PathView::absolute_of(place);
    let item = target.child(name);
    let sub = dir.push(name);
    let seen = observe_spec(fs, item);
    let source = PathView::absolute_of(sub);
    let fuel = MAX_LINK_HOPS as nat;
    let a = plan_dir_item_spec(cfg, fs, sub, item, target, seen)->Ok_0.actions;
    assert(after.node_at(place) == fs.node_at(place));
    if !(seen is Absent) && cfg.patterns.should_defer(source) {
        lemma_walk_kept(fs.entries, after.entries, Seq::empty(), item.names, true, fuel);
        assert(after.present(item));
    } else {
        match decide_spec(fs, source, seen) {
            FoldDecisionView::Traverse => {
                lemma_seen_directory(fs, place, name);
                let inner = place.push(name);
                assert(item == PathView::absolute_of(inner));
                assert(after.node_at(inner) == fs.node_at(inner));
                lemma_directory_is_seen(after, place, name);
                assert(after.node_at(sub) == fs.node_at(sub));
                lemma_room(fs, sub);
                lemma_room(after, sub);
                let lines = listing(fs.entries, sub);
                assert(listing(after.entries, sub) == lines);
                lemma_lines_are_entries(fs, sub);
                lemma_entries_again(cfg, fs, after, pkg, sub, inner, lines);
            },
            FoldDecisionView::Unfold(prior) => {
                assert(a[0] is UnfoldDirLink);
            },
            _ => {
                if a.len() > 0 {
                    assert(a[0] is CreateDirLink);
                }
            },
        }
    }
}

/// Idempotence of install, for a first run that only linked files: where
/// the plan for a package makes links to files and nothing else, none of
/// them inside the package, and its execution succeeds, the plan for the
/// same package in what results is empty.
///
/// Conflicts fail, the target directory is given in canonical form, and
/// every entry of the package leads to something.
pub proof fn lemma_second_stow_plans_nothing(cfg: StowerView, fs: FsView, name: Seq<char>)
    requires
        fs.wf(),
        !cfg.dry_run,
        cfg.conflict_strategy is Fail,
        fs.is_dir(cfg.target_dir),
        fs.canonical(cfg.target_dir) == Ok::<PathView, IoErrorKind>(cfg.target_dir),
        plan_package_spec(cfg, fs, name) is Ok,
        plan_package_spec(cfg, fs, name)->Ok_0.moves.len() == 0,
        only_file_links(plan_package_spec(cfg, fs, name)->Ok_0.actions),
        forall|i: int|
            0 <= i < plan_package_spec(cfg, fs, name)->Ok_0.actions.len() ==> !is_under(
                (#[trigger] plan_package_spec(cfg, fs, name)->Ok_0.actions[i]).subject().names,
                fs.locate(cfg.stow_dir.child(name), true)->Ok_0,
            ),
        all_lead(fs, fs.locate(cfg.stow_dir.child(name), true)->Ok_0),
        stow_package_spec(cfg, fs, name).err is None,
    ensures
        plan_package_spec(cfg, stow_package_spec(cfg, fs, name).fs, name) == Ok::<
            Planned,
            ErrorView,
        >(Planned::nothing()),
{
    let package = cfg.stow_dir.child(name);
    let pkg = fs.locate(package, true)->Ok_0;
    let target = cfg.target_dir;
    let place = target.names;
    let lines = listing(fs.entries, pkg);
    let fuel = MAX_LINK_HOPS as nat;
    let plan = plan_package_spec(cfg, fs, name)->Ok_0;
    assert(target == PathView::absolute_of(place));
    assert(fs.locate(target, true) == Ok::<Seq<Seq<char>>, IoErrorKind>(place));
    assert(fs.normalize(target) == target);
    assert(plan.moves =~= Seq::empty());
    let after = stow_package_spec(cfg, fs, name).fs;
    assert(after == execute_spec(fs, plan.actions, false).fs);
    // The links land, so executing them adds them and keeps the rest.
    assert(no_unfold(plan.actions));
    lemma_entries_land(cfg, fs, pkg, place, lines);
    lemma_creates_add_links(fs, fs, plan.actions);
    let more = choose|more: Seq<EntryView>|
        #![trigger fs.entries + more]
        after.entries == fs.entries + more && forall|k: int|
            0 <= k < more.len() ==> exists|i: int|
                0 <= i < plan.actions.len() && (#[trigger] more[k]) == made_entry(
                    #[trigger] plan.actions[i],
                );
    assert forall|d: Seq<Seq<char>>| is_under(d, pkg) implies #[trigger] listing(after.entries, d)
        == listing(fs.entries, d) by {
        assert forall|k: int| 0 <= k < more.len() implies !is_child(#[trigger] more[k], d) by {
            let i = choose|i: int|
                0 <= i < plan.actions.len() && more[k] == made_entry(#[trigger] plan.actions[i]);
            let x = plan.actions[i].subject().names;
            assert(more[k].path == x);
            if is_child(more[k], d) {
                assert(x.take(pkg.len() as int) =~= d.take(pkg.len() as int));
            }
        }
        lemma_listing_of_more(fs.entries, more, d);
    }
    // In what results, the package and the target are where they were.
    lemma_walk_kept(fs.entries, after.entries, Seq::empty(), package.names, true, fuel);
    lemma_walk_kept(fs.entries, after.entries, Seq::empty(), target.names, true, fuel);
    assert(after.node_at(pkg) == fs.node_at(pkg));
    assert(after.normalize(target) == target);
    assert(pkg.take(pkg.len() as int) =~= pkg);
    assert(listing(after.entries, pkg) == lines);
    lemma_lines_are_entries(fs, pkg);
    lemma_entries_again(cfg, fs, after, pkg, pkg, place, lines);
}

} // verus!
