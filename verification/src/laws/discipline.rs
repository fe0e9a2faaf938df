//! Ignore and defer discipline: an ignored entry is never planned for, and
//! a deferred one is planned for exactly where nothing is at its target.

use vstd::prelude::*;
use crate::error::ErrorView;
use crate::fs_model::{DirEntryView, FsView};
use crate::path_utils::PathView;
use crate::stow::{
    dir_link, entry_path, file_link, home_of, observe_spec, plan_dir_item_spec, plan_entries_spec,
    plan_file_spec, OverlayView, Planned, StowerView,
};

verus! {

/// The lines of a listing without those that the ignore patterns match.
pub open spec fn kept_lines(cfg: StowerView, dir: Seq<Seq<char>>, lines: Seq<DirEntryView>) -> Seq<
    DirEntryView,
>
    decreases lines.len(),
{
    if lines.len() == 0 {
        lines
    } else {
        let rest = kept_lines(cfg, dir, lines.skip(1));
        if cfg.patterns.should_ignore(entry_path(dir, lines[0].name)) {
            rest
        } else {
            seq![lines[0]] + rest
        }
    }
}

/// Ignore discipline: an entry that the ignore patterns match is left out,
/// whatever is at its target. The plan is the plan for the other entries.
pub proof fn lemma_ignored_entries_are_skipped(
    cfg: StowerView,
    fs: FsView,
    dir: Seq<Seq<char>>,
    target: PathView,
    home: PathView,
    overlay: Option<OverlayView>,
    lines: Seq<DirEntryView>,
)
    ensures
        plan_entries_spec(cfg, fs, dir, target, home, overlay, lines) == plan_entries_spec(
            cfg,
            fs,
            dir,
            target,
            home,
            overlay,
            kept_lines(cfg, dir, lines),
        ),
    decreases lines.len(),
{
    if lines.len() > 0 {
        lemma_ignored_entries_are_skipped(cfg, fs, dir, target, home, overlay, lines.skip(1));
        let rest = plan_entries_spec(cfg, fs, dir, target, home, overlay, lines.skip(1));
        if cfg.patterns.should_ignore(entry_path(dir, lines[0].name)) {
            match rest {
                Ok(b) => {
                    assert(Planned::nothing().followed_by(b).actions =~= b.actions);
                    assert(Planned::nothing().followed_by(b).moves =~= b.moves);
                },
                Err(_) => {},
            }
        } else {
            let kept = kept_lines(cfg, dir, lines);
            assert(kept[0] == lines[0]);
            assert(kept.skip(1) =~= kept_lines(cfg, dir, lines.skip(1)));
        }
    }
}

/// Defer discipline, for a file: a file that the defer patterns match is
/// left out if and only if something is at its target at plan time; with
/// nothing there it is linked.
pub proof fn lemma_deferred_file(cfg: StowerView, fs: FsView, source: PathView, target: PathView)
    requires
        cfg.patterns.should_defer(source),
    ensures
        plan_file_spec(
            cfg,
            fs,
            source,
            target,
            home_of(fs, target),
            observe_spec(fs, target),
        ) == if fs.present(target) {
            Ok::<Planned, ErrorView>(Planned::nothing())
        } else {
            Ok(Planned::one(file_link(fs, source, target, home_of(fs, target))))
        },
{
}

/// Defer discipline, for a directory: a directory that the defer patterns
/// match is left out, with all below it, if and only if something is at its
/// target at plan time; with nothing there it is linked.
pub proof fn lemma_deferred_directory(
    cfg: StowerView,
    fs: FsView,
    dir: Seq<Seq<char>>,
    target: PathView,
    home: PathView,
)
    requires
        cfg.patterns.should_defer(PathView::absolute_of(dir)),
    ensures
        plan_dir_item_spec(cfg, fs, dir, target, home, observe_spec(fs, target)) == if fs.present(
            target,
        ) {
            Ok::<Planned, ErrorView>(Planned::nothing())
        } else {
            Ok(Planned::one(dir_link(fs, PathView::absolute_of(dir), target, home)))
        },
{
}

} // verus!
