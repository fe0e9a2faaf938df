//! Stowing a package into a target that has none of its entries, and
//! removing it again, leaves the target as it was.

use vstd::prelude::*;
use crate::error::{ErrorView, IoErrorKind};
use crate::fs_model::{
    is_child, lemma_leaf_childless, lemma_listing_distinct, lemma_listing_line, lemma_node_at,
    lemma_present, lemma_present_has, lemma_root, lemma_with_entry, lemma_without_entry, link_base,
    listing, names_distinct, node_in, walk_in, DirEntryView, EntryView, FsOpView, FsView,
    MAX_LINK_HOPS, NodeView, Step,
};
use crate::path_utils::{
    common_len, lemma_common_len, lemma_relative_leads_back, relative_spec, PathView,
};
use crate::planner::{execute_action_spec, execute_spec, ActionView};
use crate::resolve::{
    keeps, lemma_walk_canonical, lemma_walk_end, lemma_walk_from_prefix, lemma_walk_kept,
    lemma_walk_last,
};
use crate::stow::{
    dir_link, entry_path, file_link, lemma_room, link_rel, link_target_abs, observe_spec,
    plan_dir_item_spec, plan_entries_spec, plan_file_spec, plan_fresh_spec, plan_package_spec, room,
    see_spec, stow_package_spec, Planned, StowerView,
};
use crate::unstow::{
    owns, plan_unstow_dir_item_spec, plan_unstow_entries_spec, plan_unstow_link_spec,
    plan_unstow_package_spec, plan_unstow_walk_spec, unstow_package_spec, UnstowerView,
};

verus! {

/// The link that stowing makes for the entry `name` of the package
/// directory at `dir`, inside the target directory at `place`.
pub open spec fn link_entry(
    fs: FsView,
    dir: Seq<Seq<char>>,
    place: Seq<Seq<char>>,
    name: Seq<char>,
) -> EntryView {
    EntryView {
        path: place.push(name),
        node: NodeView::Link(link_rel(fs, entry_path(dir, name), PathView::absolute_of(place))),
    }
}

/// The links that stowing makes for the entries `lines`: one for each that
/// is not ignored.
pub open spec fn fresh_entries(
    cfg: StowerView,
    fs: FsView,
    dir: Seq<Seq<char>>,
    place: Seq<Seq<char>>,
    lines: Seq<DirEntryView>,
) -> Seq<EntryView>
    decreases lines.len(),
{
    if lines.len() == 0 {
        Seq::empty()
    } else {
        let rest = fresh_entries(cfg, fs, dir, place, lines.skip(1));
        if cfg.patterns.should_ignore(entry_path(dir, lines[0].name)) {
            rest
        } else {
            seq![link_entry(fs, dir, place, lines[0].name)] + rest
        }
    }
}

/// The removals that undo those links.
pub open spec fn removals(
    cfg: StowerView,
    dir: Seq<Seq<char>>,
    target: PathView,
    lines: Seq<DirEntryView>,
) -> Seq<ActionView>
    decreases lines.len(),
{
    if lines.len() == 0 {
        Seq::empty()
    } else {
        let rest = removals(cfg, dir, target, lines.skip(1));
        if cfg.patterns.should_ignore(entry_path(dir, lines[0].name)) {
            rest
        } else {
            seq![ActionView::RemoveLink { path: target.child(lines[0].name) }] + rest
        }
    }
}

/// Whether nothing is in the directory at `place` under the names of
/// `lines`.
pub open spec fn all_free(fs: FsView, place: Seq<Seq<char>>, lines: Seq<DirEntryView>) -> bool {
    forall|j: int| 0 <= j < lines.len() ==> fs.node_at(place.push((#[trigger] lines[j]).name)) is None
}

/// Whether each of `lines` is an entry of the directory at `dir` that leads
/// to something.
pub open spec fn all_there(fs: FsView, dir: Seq<Seq<char>>, lines: Seq<DirEntryView>) -> bool {
    forall|j: int|
        0 <= j < lines.len() ==> fs.node_at(dir.push((#[trigger] lines[j]).name)) is Some
            && fs.present(entry_path(dir, lines[j].name))
}

/// Nothing can be reached under a name that is free in a directory.
pub proof fn lemma_free_is_absent(fs: FsView, place: Seq<Seq<char>>, name: Seq<char>)
    requires
        fs.wf(),
        fs.node_at(place) == Some(NodeView::Dir),
        fs.node_at(place.push(name)) is None,
    ensures
        !fs.present(PathView::absolute_of(place).child(name)),
        observe_spec(fs, PathView::absolute_of(place).child(name)) is Absent,
{
    lemma_walk_last(fs, place, name, true, MAX_LINK_HOPS as nat);
}

/// With nothing of the package in the target, the plan links every entry
/// that is not ignored, at the top of the target.
proof fn lemma_plan_is_fresh(
    cfg: StowerView,
    fs: FsView,
    dir: Seq<Seq<char>>,
    place: Seq<Seq<char>>,
    lines: Seq<DirEntryView>,
)
    requires
        fs.wf(),
        fs.node_at(place) == Some(NodeView::Dir),
        all_free(fs, place, lines),
        all_there(fs, dir, lines),
    ensures
        plan_entries_spec(
            cfg,
            fs,
            dir,
            PathView::absolute_of(place),
            PathView::absolute_of(place),
            None,
            lines,
        ) == Ok::<Planned, ErrorView>(
            plan_fresh_spec(
                cfg,
                fs,
                dir,
                PathView::absolute_of(place),
                PathView::absolute_of(place),
                lines,
            ),
        ),
    decreases lines.len(),
{
    let target = PathView::absolute_of(place);
    if lines.len() > 0 {
        let name = lines[0].name;
        let tail = lines.skip(1);
        assert forall|j: int| 0 <= j < tail.len() implies fs.node_at(
            place.push((#[trigger] tail[j]).name),
        ) is None by {
            assert(tail[j] == lines[j + 1]);
        }
        assert forall|j: int| 0 <= j < tail.len() implies fs.node_at(
            dir.push((#[trigger] tail[j]).name),
        ) is Some && fs.present(entry_path(dir, tail[j].name)) by {
            assert(tail[j] == lines[j + 1]);
        }
        lemma_plan_is_fresh(cfg, fs, dir, place, tail);
        assert(fs.node_at(place.push(lines[0].name)) is None);
        lemma_free_is_absent(fs, place, name);
        let rest = plan_fresh_spec(cfg, fs, dir, target, target, tail);
        assert(Planned::nothing().followed_by(rest).actions =~= rest.actions);
        assert(Planned::nothing().followed_by(rest).moves =~= rest.moves);
        assert(Planned::nothing().followed_by(rest) == rest);
        // The entry is there, so the walk has room for it.
        assert(fs.node_at(dir.push(lines[0].name)) is Some);
        lemma_room(fs, dir.push(name));
        let seen = observe_spec(fs, target.child(name));
        let source = entry_path(dir, name);
        assert(see_spec(fs, None, target.child(name), name) == seen);
        if cfg.patterns.should_ignore(source) {
        } else if lines[0].is_dir {
            assert(room(fs, dir) > 0);
            assert(plan_dir_item_spec(cfg, fs, dir.push(name), target.child(name), target, seen)
                == Ok::<Planned, ErrorView>(
                Planned::one(dir_link(fs, source, target.child(name), target)),
            ));
        } else {
            assert(plan_file_spec(cfg, fs, source, target.child(name), target, seen) == Ok::<
                Planned,
                ErrorView,
            >(Planned::one(file_link(fs, source, target.child(name), target))));
        }
    }
}

/// Executing the links of such a plan adds one link for each entry that is
/// not ignored, and fails nowhere.
proof fn lemma_links_are_added(
    cfg: StowerView,
    fs: FsView,
    now: FsView,
    dir: Seq<Seq<char>>,
    place: Seq<Seq<char>>,
    lines: Seq<DirEntryView>,
)
    requires
        now.wf(),
        now.links_allowed,
        now.node_at(place) == Some(NodeView::Dir),
        all_free(now, place, lines),
        names_distinct(lines),
    ensures
        ({
            let target = PathView::absolute_of(place);
            let step = execute_spec(
                now,
                plan_fresh_spec(cfg, fs, dir, target, target, lines).actions,
                false,
            );
            &&& step.err is None
            &&& step.fs.wf()
            &&& step.fs.links_allowed
            &&& step.fs.entries == now.entries + fresh_entries(cfg, fs, dir, place, lines)
        }),
    decreases lines.len(),
{
    let target = PathView::absolute_of(place);
    let actions = plan_fresh_spec(cfg, fs, dir, target, target, lines).actions;
    if lines.len() == 0 {
        assert(now.entries + Seq::<EntryView>::empty() =~= now.entries);
    } else {
        let name = lines[0].name;
        let tail = lines.skip(1);
        let source = entry_path(dir, name);
        let rest = plan_fresh_spec(cfg, fs, dir, target, target, tail);
        assert forall|i: int, j: int| 0 <= i < j < tail.len() implies (#[trigger] tail[i]).name != (
        #[trigger] tail[j]).name by {
            assert(tail[i] == lines[i + 1]);
            assert(tail[j] == lines[j + 1]);
        }
        if cfg.patterns.should_ignore(source) {
            assert forall|j: int| 0 <= j < tail.len() implies now.node_at(
                place.push((#[trigger] tail[j]).name),
            ) is None by {
                assert(tail[j] == lines[j + 1]);
            }
            lemma_links_are_added(cfg, fs, now, dir, place, tail);
        } else {
            let link = target.child(name);
            let rel = link_rel(fs, source, target);
            let e = link_entry(fs, dir, place, name);
            let first = actions[0];
            assert(actions =~= seq![first] + rest.actions);
            assert(actions.skip(1) =~= rest.actions);
            // The directory of the link is there, and its place is free.
            assert(link.parent() == Some(target)) by {
                assert(link.names.drop_last() =~= place);
            }
            lemma_walk_canonical(now, place, true, MAX_LINK_HOPS as nat);
            assert(now.present(target));
            assert(now.node_at(place.push(lines[0].name)) is None);
            assert(link.names.last() == name);
            assert(now.slot(link) == Ok::<Seq<Seq<char>>, IoErrorKind>(place.push(name)));
            let made = now.with_entry(place.push(name), NodeView::Link(rel));
            assert(place.push(name).drop_last() =~= place);
            lemma_present_has(now, place.push(name));
            lemma_with_entry(now, place.push(name), NodeView::Link(rel));
            let next = made.logged(
                FsOpView::Symlink { link, target: rel, is_directory: lines[0].is_dir },
            );
            assert(execute_action_spec(now, first, false) == (Step { fs: next, err: None }));
            assert(made.node_at(place) == now.node_at(place)) by {
                if place == place.push(name) {
                    assert(place.len() == place.push(name).len());
                }
            }
            assert(next.node_at(place) == made.node_at(place));
            assert forall|j: int| 0 <= j < tail.len() implies next.node_at(
                place.push((#[trigger] tail[j]).name),
            ) is None by {
                assert(tail[j] == lines[j + 1]);
                assert(lines[0].name != lines[j + 1].name);
                let x = place.push(tail[j].name);
                if x == place.push(name) {
                    assert(x.last() == place.push(name).last());
                }
                assert(made.node_at(x) == now.node_at(x));
                assert(next.node_at(x) == made.node_at(x));
            }
            lemma_links_are_added(cfg, fs, next, dir, place, tail);
            assert(now.entries.push(e) + fresh_entries(cfg, fs, dir, place, tail) =~= now.entries
                + (seq![e] + fresh_entries(cfg, fs, dir, place, tail)));
        }
    }
}

/// Such a plan moves nothing out of the way.
proof fn lemma_fresh_moves_nothing(
    cfg: StowerView,
    fs: FsView,
    dir: Seq<Seq<char>>,
    target: PathView,
    home: PathView,
    lines: Seq<DirEntryView>,
)
    ensures
        plan_fresh_spec(cfg, fs, dir, target, home, lines).moves.len() == 0,
    decreases lines.len(),
{
    if lines.len() > 0 {
        lemma_fresh_moves_nothing(cfg, fs, dir, target, home, lines.skip(1));
    }
}

/// Each of the links made is the link of an entry that is not ignored, and
/// each such entry has its link among them.
proof fn lemma_fresh_members(
    cfg: StowerView,
    fs: FsView,
    dir: Seq<Seq<char>>,
    place: Seq<Seq<char>>,
    lines: Seq<DirEntryView>,
)
    ensures
        forall|k: int|
            0 <= k < fresh_entries(cfg, fs, dir, place, lines).len() ==> exists|j: int|
                0 <= j < lines.len() && !cfg.patterns.should_ignore(
                    entry_path(dir, (#[trigger] lines[j]).name),
                ) && (#[trigger] fresh_entries(cfg, fs, dir, place, lines)[k]) == link_entry(
                    fs,
                    dir,
                    place,
                    lines[j].name,
                ),
        forall|j: int|
            0 <= j < lines.len() && !cfg.patterns.should_ignore(
                entry_path(dir, (#[trigger] lines[j]).name),
            ) ==> fresh_entries(cfg, fs, dir, place, lines).contains(
                link_entry(fs, dir, place, lines[j].name),
            ),
    decreases lines.len(),
{
    if lines.len() > 0 {
        let tail = lines.skip(1);
        let rest = fresh_entries(cfg, fs, dir, place, tail);
        let all = fresh_entries(cfg, fs, dir, place, lines);
        let kept = !cfg.patterns.should_ignore(entry_path(dir, lines[0].name));
        let shift: int = if kept {
            1
        } else {
            0
        };
        lemma_fresh_members(cfg, fs, dir, place, tail);
        assert forall|k: int| 0 <= k < all.len() implies exists|j: int|
            0 <= j < lines.len() && !cfg.patterns.should_ignore(
                entry_path(dir, (#[trigger] lines[j]).name),
            ) && (#[trigger] all[k]) == link_entry(fs, dir, place, lines[j].name) by {
            if kept && k == 0 {
                assert(all[0] == link_entry(fs, dir, place, lines[0].name));
            } else {
                assert(all[k] == rest[k - shift]);
                let j = choose|j: int|
                    0 <= j < tail.len() && !cfg.patterns.should_ignore(
                        entry_path(dir, (#[trigger] tail[j]).name),
                    ) && rest[k - shift] == link_entry(fs, dir, place, tail[j].name);
                assert(tail[j] == lines[j + 1]);
            }
        }
        assert forall|j: int|
            0 <= j < lines.len() && !cfg.patterns.should_ignore(
                entry_path(dir, (#[trigger] lines[j]).name),
            ) implies all.contains(link_entry(fs, dir, place, lines[j].name)) by {
            if j == 0 {
                assert(all[0] == link_entry(fs, dir, place, lines[0].name));
            } else {
                assert(tail[j - 1] == lines[j]);
                let e = link_entry(fs, dir, place, tail[j - 1].name);
                assert(rest.contains(e));
                let k = choose|k: int| 0 <= k < rest.len() && rest[k] == e;
                assert(all[k + shift] == rest[k]);
            }
        }
    }
}

/// Whether `after` is `fs` with the links of the stowed entries made: what
/// `fs` holds is kept, the directory of the package lists what it listed,
/// and in the target directory each entry that is not ignored has its link,
/// while nothing is there for the others.
pub open spec fn stowed(
    cfg: StowerView,
    fs: FsView,
    after: FsView,
    dir: Seq<Seq<char>>,
    place: Seq<Seq<char>>,
    lines: Seq<DirEntryView>,
) -> bool {
    &&& after.wf()
    &&& keeps(fs.entries, after.entries)
    &&& after.node_at(place) == Some(NodeView::Dir)
    &&& forall|j: int|
        0 <= j < lines.len() ==> after.node_at(place.push((#[trigger] lines[j]).name))
            == if cfg.patterns.should_ignore(entry_path(dir, lines[j].name)) {
            None
        } else {
            Some(link_entry(fs, dir, place, lines[j].name).node)
        }
}

/// A file system with the links added is one in which the package is
/// stowed.
proof fn lemma_added_is_stowed(
    cfg: StowerView,
    fs: FsView,
    after: FsView,
    dir: Seq<Seq<char>>,
    place: Seq<Seq<char>>,
    lines: Seq<DirEntryView>,
)
    requires
        fs.wf(),
        after.wf(),
        after.entries == fs.entries + fresh_entries(cfg, fs, dir, place, lines),
        fs.node_at(place) == Some(NodeView::Dir),
        all_free(fs, place, lines),
        names_distinct(lines),
    ensures
        stowed(cfg, fs, after, dir, place, lines),
{
    let made = fresh_entries(cfg, fs, dir, place, lines);
    let n = fs.entries.len() as int;
    lemma_fresh_members(cfg, fs, dir, place, lines);
    assert forall|x: Seq<Seq<char>>| (#[trigger] node_in(fs.entries, x)) is Some implies node_in(
        after.entries,
        x,
    ) == node_in(fs.entries, x) by {
        if x.len() > 0 {
            lemma_present(fs, x);
            let i = fs.index_of(x);
            assert(fs.entries[i].path == x);
            assert(after.entries[i] == fs.entries[i]);
            lemma_node_at(fs, i);
            lemma_node_at(after, i);
        } else {
            lemma_root(fs);
            lemma_root(after);
            assert(x =~= Seq::empty());
        }
    }
    assert forall|j: int| 0 <= j < lines.len() implies after.node_at(
        place.push((#[trigger] lines[j]).name),
    ) == if cfg.patterns.should_ignore(entry_path(dir, lines[j].name)) {
        None
    } else {
        Some(link_entry(fs, dir, place, lines[j].name).node)
    } by {
        let x = place.push(lines[j].name);
        if cfg.patterns.should_ignore(entry_path(dir, lines[j].name)) {
            if after.node_at(x) is Some {
                lemma_present(after, x);
                let i = after.index_of(x);
                assert(after.entries[i].path == x);
                if i < n {
                    assert(after.entries[i] == fs.entries[i]);
                    lemma_node_at(fs, i);
                } else {
                    assert(after.entries[i] == made[i - n]);
                    let k = choose|k: int|
                        0 <= k < lines.len() && !cfg.patterns.should_ignore(
                            entry_path(dir, (#[trigger] lines[k]).name),
                        ) && made[i - n] == link_entry(fs, dir, place, lines[k].name);
                    assert(place.push(lines[k].name).last() == x.last());
                    if k < j {
                        assert(lines[k].name != lines[j].name);
                    }
                    if j < k {
                        assert(lines[j].name != lines[k].name);
                    }
                }
            }
        } else {
            let e = link_entry(fs, dir, place, lines[j].name);
            assert(made.contains(e));
            let k = choose|k: int| 0 <= k < made.len() && made[k] == e;
            assert(after.entries[n + k] == e);
            lemma_node_at(after, n + k);
        }
    }
}

/// Where a package is stowed, the link of an entry that is not ignored
/// leads to something, and belongs to the entry.
pub proof fn lemma_link_is_owned(
    fs: FsView,
    after: FsView,
    dir: Seq<Seq<char>>,
    place: Seq<Seq<char>>,
    name: Seq<char>,
)
    requires
        fs.wf(),
        after.wf(),
        keeps(fs.entries, after.entries),
        after.node_at(place) == Some(NodeView::Dir),
        after.node_at(place.push(name)) == Some(link_entry(fs, dir, place, name).node),
        fs.present(entry_path(dir, name)),
    ensures
        after.present(PathView::absolute_of(place).child(name)),
        after.is_symlink(PathView::absolute_of(place).child(name)),
        owns(after, PathView::absolute_of(place).child(name), entry_path(dir, name)),
{
    let target = PathView::absolute_of(place);
    let item = target.child(name);
    let source = entry_path(dir, name);
    let there = fs.locate(source, true)->Ok_0;
    let norm = PathView::absolute_of(there);
    let rel = relative_spec(target, norm);
    let fuel = MAX_LINK_HOPS as nat;
    assert(fs.normalize(source) == norm);
    assert(link_entry(fs, dir, place, name).node == NodeView::Link(rel));
    // What the source leads to is there, in both.
    lemma_root(fs);
    lemma_walk_end(fs, Seq::empty(), source.names, true, fuel);
    assert(node_in(fs.entries, there) is Some);
    assert(after.node_at(there) == fs.node_at(there));
    lemma_walk_kept(fs.entries, after.entries, Seq::empty(), source.names, true, fuel);
    assert(after.locate(source, true) == Ok::<Seq<Seq<char>>, IoErrorKind>(there));
    assert(after.normalize(source) == norm);
    lemma_walk_canonical(after, there, true, fuel);
    assert(after.normalize(norm) == norm);
    // The link leads there.
    let c = common_len(place, there);
    lemma_common_len(place, there);
    let from = link_base(place, rel);
    assert(from =~= there.take(c as int)) by {
        if rel.ups >= place.len() {
            assert(there.take(0) =~= Seq::<Seq<char>>::empty());
        }
    }
    let one = seq![name];
    assert(rel.names + one.skip(1) =~= there.skip(c as int));
    lemma_walk_from_prefix(after, there, c as int, true, (fuel - 1) as nat);
    lemma_walk_last(after, place, name, true, fuel);
    assert(walk_in(after.entries, place, one, true, fuel) == Ok::<Seq<Seq<char>>, IoErrorKind>(
        there,
    ));
    assert(item.names =~= place.push(name));
    assert(after.locate(item, true) == Ok::<Seq<Seq<char>>, IoErrorKind>(there));
    // It is a link, and stores the relative path.
    lemma_walk_last(after, place, name, false, fuel);
    assert(walk_in(after.entries, place, one, false, fuel) == Ok::<Seq<Seq<char>>, IoErrorKind>(
        place.push(name),
    ));
    assert(after.locate(item, false) == Ok::<Seq<Seq<char>>, IoErrorKind>(place.push(name)));
    assert(after.read_link(item) == Ok::<PathView, IoErrorKind>(rel));
    // Where it points is the normal form of the source.
    assert(PathView::root().join(item) == item);
    assert(item.parent() == Some(target)) by {
        assert(item.names.drop_last() =~= place);
    }
    lemma_relative_leads_back(target, norm);
    assert(link_target_abs(item, rel) == norm);
}

/// Where a package is stowed, the plan for removing it removes the link of
/// each entry that is not ignored, and nothing else.
proof fn lemma_unstow_plan_is_removals(
    cfg: StowerView,
    ucfg: UnstowerView,
    fs: FsView,
    after: FsView,
    dir: Seq<Seq<char>>,
    place: Seq<Seq<char>>,
    all: Seq<DirEntryView>,
    lines: Seq<DirEntryView>,
)
    requires
        fs.wf(),
        stowed(cfg, fs, after, dir, place, lines),
        all_there(fs, dir, lines),
    ensures
        plan_unstow_entries_spec(ucfg, after, dir, PathView::absolute_of(place), lines) == removals(
            cfg,
            dir,
            PathView::absolute_of(place),
            lines,
        ),
    decreases lines.len(),
{
    let target = PathView::absolute_of(place);
    if lines.len() > 0 {
        let name = lines[0].name;
        let tail = lines.skip(1);
        let item = target.child(name);
        let source = entry_path(dir, name);
        assert forall|j: int| 0 <= j < tail.len() implies after.node_at(
            place.push((#[trigger] tail[j]).name),
        ) == if cfg.patterns.should_ignore(entry_path(dir, tail[j].name)) {
            None
        } else {
            Some(link_entry(fs, dir, place, tail[j].name).node)
        } by {
            assert(tail[j] == lines[j + 1]);
        }
        assert forall|j: int| 0 <= j < tail.len() implies fs.node_at(
            dir.push((#[trigger] tail[j]).name),
        ) is Some && fs.present(entry_path(dir, tail[j].name)) by {
            assert(tail[j] == lines[j + 1]);
        }
        lemma_unstow_plan_is_removals(cfg, ucfg, fs, after, dir, place, all, tail);
        let rest = removals(cfg, dir, target, tail);
        assert(after.node_at(place.push(lines[0].name)) == if cfg.patterns.should_ignore(source) {
            None
        } else {
            Some(link_entry(fs, dir, place, name).node)
        });
        assert(fs.node_at(dir.push(lines[0].name)) is Some);
        if cfg.patterns.should_ignore(source) {
            lemma_free_is_absent(after, place, name);
            assert(Seq::<ActionView>::empty() + rest =~= rest);
        } else {
            lemma_link_is_owned(fs, after, dir, place, name);
            assert(after.node_at(dir.push(name)) == fs.node_at(dir.push(name)));
            lemma_room(after, dir.push(name));
            assert(plan_unstow_link_spec(after, source, item) == seq![
                ActionView::RemoveLink { path: item },
            ]);
            if lines[0].is_dir {
                assert(plan_unstow_dir_item_spec(ucfg, after, dir.push(name), item) == seq![
                    ActionView::RemoveLink { path: item },
                ]);
            }
        }
    }
}

/// Executing the removals takes the links away again, and fails nowhere.
proof fn lemma_links_are_removed(
    cfg: StowerView,
    fs: FsView,
    now: FsView,
    base: Seq<EntryView>,
    dir: Seq<Seq<char>>,
    place: Seq<Seq<char>>,
    lines: Seq<DirEntryView>,
)
    requires
        now.wf(),
        now.node_at(place) == Some(NodeView::Dir),
        now.entries == base + fresh_entries(cfg, fs, dir, place, lines),
    ensures
        ({
            let step = execute_spec(
                now,
                removals(cfg, dir, PathView::absolute_of(place), lines),
                false,
            );
            step.err is None && step.fs.entries == base
        }),
    decreases lines.len(),
{
    let target = PathView::absolute_of(place);
    let actions = removals(cfg, dir, target, lines);
    let fuel = MAX_LINK_HOPS as nat;
    if lines.len() == 0 {
        assert(base + Seq::<EntryView>::empty() =~= base);
    } else {
        let name = lines[0].name;
        let tail = lines.skip(1);
        let source = entry_path(dir, name);
        if cfg.patterns.should_ignore(source) {
            lemma_links_are_removed(cfg, fs, now, base, dir, place, tail);
        } else {
            let item = target.child(name);
            let e = link_entry(fs, dir, place, name);
            let rest = fresh_entries(cfg, fs, dir, place, tail);
            let n = base.len() as int;
            let x = place.push(name);
            assert(actions.skip(1) =~= removals(cfg, dir, target, tail));
            assert(now.entries[n] == e);
            lemma_node_at(now, n);
            lemma_walk_last(now, place, name, false, fuel);
            let one = seq![name];
            assert(walk_in(now.entries, place, one, false, fuel) == Ok::<
                Seq<Seq<char>>,
                IoErrorKind,
            >(x));
            assert(item.names =~= x);
            assert(now.locate(item, false) == Ok::<Seq<Seq<char>>, IoErrorKind>(x));
            lemma_leaf_childless(now, x);
            lemma_without_entry(now, x);
            let gone = now.without_entry(x);
            assert(gone.entries =~= base + rest);
            let next = gone.logged(FsOpView::RemoveFile { path: item });
            assert(execute_action_spec(now, actions[0], false) == (Step { fs: next, err: None }));
            assert(gone.node_at(place) == now.node_at(place)) by {
                if place == x {
                    assert(place.len() == x.len());
                }
            }
            assert(next.node_at(place) == gone.node_at(place));
            lemma_links_are_removed(cfg, fs, next, base, dir, place, tail);
        }
    }
}

/// Round-trip identity: where the target directory has nothing under the
/// names of the entries of a package, stowing the package and then removing
/// it succeeds and leaves the entries of the file system as they were
/// before, in kind, in content and in order.
///
/// The target directory is given in canonical form, links may be made, and
/// every entry of the package leads to something.
pub proof fn lemma_stow_then_unstow_restores(
    cfg: StowerView,
    ucfg: UnstowerView,
    fs: FsView,
    name: Seq<char>,
)
    requires
        fs.wf(),
        fs.links_allowed,
        !cfg.dry_run,
        !ucfg.dry_run,
        ucfg.stow_dir == cfg.stow_dir,
        ucfg.target_dir == cfg.target_dir,
        fs.is_dir(cfg.stow_dir.child(name)),
        fs.is_dir(cfg.target_dir),
        fs.canonical(cfg.target_dir) == Ok::<PathView, IoErrorKind>(cfg.target_dir),
        all_free(
            fs,
            cfg.target_dir.names,
            listing(fs.entries, fs.locate(cfg.stow_dir.child(name), true)->Ok_0),
        ),
        forall|j: int|
            0 <= j < listing(fs.entries, fs.locate(cfg.stow_dir.child(name), true)->Ok_0).len()
                ==> fs.present(
                entry_path(
                    fs.locate(cfg.stow_dir.child(name), true)->Ok_0,
                    (#[trigger] listing(
                        fs.entries,
                        fs.locate(cfg.stow_dir.child(name), true)->Ok_0,
                    )[j]).name,
                ),
            ),
    ensures
        stow_package_spec(cfg, fs, name).err is None,
        unstow_package_spec(ucfg, stow_package_spec(cfg, fs, name).fs, name).err is None,
        unstow_package_spec(ucfg, stow_package_spec(cfg, fs, name).fs, name).fs.entries
            == fs.entries,
{
    let package = cfg.stow_dir.child(name);
    let dir = fs.locate(package, true)->Ok_0;
    let target = cfg.target_dir;
    let place = target.names;
    let lines = listing(fs.entries, dir);
    let fuel = MAX_LINK_HOPS as nat;
    assert(target == PathView::absolute_of(place));
    assert(fs.locate(target, true) == Ok::<Seq<Seq<char>>, IoErrorKind>(place));
    assert(fs.normalize(target) == target);
    lemma_listing_distinct(fs.entries, dir);
    assert forall|j: int| 0 <= j < lines.len() implies fs.node_at(
        dir.push((#[trigger] lines[j]).name),
    ) is Some && fs.present(entry_path(dir, lines[j].name)) by {
        lemma_listing_line(fs.entries, dir, j);
        let i = choose|i: int|
            0 <= i < fs.entries.len() && (#[trigger] fs.entries[i]).path == dir.push(lines[j].name)
                && lines[j].is_dir == (fs.entries[i].node is Dir);
        lemma_node_at(fs, i);
    }
    // The plan links every entry, and its execution adds the links.
    lemma_plan_is_fresh(cfg, fs, dir, place, lines);
    let plan = plan_fresh_spec(cfg, fs, dir, target, target, lines);
    lemma_fresh_moves_nothing(cfg, fs, dir, target, target, lines);
    assert(plan.moves =~= Seq::empty());
    assert(plan_package_spec(cfg, fs, name) == Ok::<Planned, ErrorView>(plan));
    lemma_links_are_added(cfg, fs, fs, dir, place, lines);
    let after = stow_package_spec(cfg, fs, name).fs;
    assert(after == execute_spec(fs, plan.actions, false).fs);
    lemma_added_is_stowed(cfg, fs, after, dir, place, lines);
    // In what results, the package and the target are where they were.
    lemma_walk_kept(fs.entries, after.entries, Seq::empty(), package.names, true, fuel);
    lemma_walk_kept(fs.entries, after.entries, Seq::empty(), target.names, true, fuel);
    assert(after.node_at(dir) == fs.node_at(dir));
    lemma_listing_kept(cfg, fs, after, dir, place, lines);
    // The plan for removing the package removes the links, and its
    // execution takes them away.
    lemma_unstow_plan_is_removals(cfg, ucfg, fs, after, dir, place, lines, lines);
    let undo = removals(cfg, dir, target, lines);
    assert(undo + Seq::<ActionView>::empty() =~= undo);
    assert(plan_unstow_walk_spec(ucfg, after, dir, target) == undo);
    assert(plan_unstow_package_spec(ucfg, after, name) == Ok::<
        Seq<ActionView>,
        ErrorView,
    >(undo));
    lemma_links_are_removed(cfg, fs, after, fs.entries, dir, place, lines);
}

/// The links made are no entries of the package directory: it lists what it
/// listed.
proof fn lemma_listing_kept(
    cfg: StowerView,
    fs: FsView,
    after: FsView,
    dir: Seq<Seq<char>>,
    place: Seq<Seq<char>>,
    lines: Seq<DirEntryView>,
)
    requires
        after.entries == fs.entries + fresh_entries(cfg, fs, dir, place, lines),
        lines.len() > 0 ==> place != dir,
    ensures
        listing(after.entries, dir) == listing(fs.entries, dir),
{
    let made = fresh_entries(cfg, fs, dir, place, lines);
    lemma_fresh_members(cfg, fs, dir, place, lines);
    assert forall|k: int| 0 <= k < made.len() implies !is_child(
        #[trigger] made[k],
        dir,
    ) by {
        let j = choose|j: int|
            0 <= j < lines.len() && !cfg.patterns.should_ignore(
                entry_path(dir, (#[trigger] lines[j]).name),
            ) && made[k] == link_entry(fs, dir, place, lines[j].name);
        assert(place.push(lines[j].name).drop_last() =~= place);
    }
    lemma_listing_of_more(fs.entries, made, dir);
}

/// Entries that are not inside a directory do not show in its listing.
pub proof fn lemma_listing_of_more(entries: Seq<EntryView>, more: Seq<EntryView>, dir: Seq<Seq<char>>)
    requires
        forall|k: int| 0 <= k < more.len() ==> !is_child(#[trigger] more[k], dir),
    ensures
        listing(entries + more, dir) == listing(entries, dir),
    decreases more.len(),
{
    if more.len() == 0 {
        assert(entries + more =~= entries);
    } else {
        let init = more.drop_last();
        assert forall|k: int| 0 <= k < init.len() implies !is_child(
            #[trigger] init[k],
            dir,
        ) by {
            assert(init[k] == more[k]);
        }
        lemma_listing_of_more(entries, init, dir);
        assert((entries + more).drop_last() =~= entries + init);
        assert((entries + more).last() == more[more.len() - 1]);
    }
}

} // verus!
