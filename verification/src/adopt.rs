//! Adopt and override: moving what conflicts in the target into a package,
//! or removing it, so that a link can take its place.

use vstd::prelude::*;
use vstd::string::*;
use crate::error::{ErrorView, IoErrorKind, StowError};
use crate::fs_model::{ensure_parent_dirs_spec, DirEntryView, FsOpView, FsView, Step};
use crate::fs_ops::{ensure_parent_dirs, is_symlink, listing_view, stepped, FileSystem};
use crate::path_utils::{PathView, StowPath};

verus! {

/// How many levels below its start a walk over a directory tree descends
/// before it gives up.
pub const MAX_TREE_DEPTH: usize = 128;

/// A step that failed with an error at `path`.
pub open spec fn failed(fs: FsView, path: PathView, kind: IoErrorKind) -> Step {
    Step { fs, err: Some(ErrorView::IoError { path, source: kind }) }
}

/// A step that went well.
pub open spec fn done(fs: FsView) -> Step {
    Step { fs, err: None }
}

/// Moving `from` to `to`: by renaming; where that fails, by copying the file,
/// which stays where it was. If both fail, the error is that of the renaming.
pub open spec fn move_file_spec(fs: FsView, from: PathView, to: PathView) -> Step {
    match fs.rename(from, to) {
        Ok(fs1) => done(fs1.logged(FsOpView::Rename { from, to })),
        Err(rename_err) => match fs.copy(from, to) {
            Ok(fs1) => done(fs1.logged(FsOpView::Copy { from, to })),
            Err(_) => failed(fs, from, rename_err),
        },
    }
}

/// Adopting a file: it is moved from the target to its place in the
/// package. What is not there, or is a link, is not adopted; a dry run only
/// checks.
pub open spec fn adopt_file_spec(fs: FsView, target: PathView, package: PathView, dry_run: bool) -> Step {
    if !fs.present(target) {
        Step {
            fs,
            err: Some(ErrorView::InvalidPath("Target file does not exist: "@ + target.text())),
        }
    } else if fs.is_symlink(target) {
        Step {
            fs,
            err: Some(
                ErrorView::InvalidPath(
                    "Target is already a symlink, cannot adopt: "@ + target.text(),
                ),
            ),
        }
    } else if dry_run {
        done(fs)
    } else {
        let first = ensure_parent_dirs_spec(fs, package);
        if first.err is Some {
            first
        } else {
            match first.fs.rename(target, package) {
                Ok(fs1) => done(fs1.logged(FsOpView::Rename { from: target, to: package })),
                Err(rename_err) => match first.fs.copy(target, package) {
                    Err(_) => failed(first.fs, target, rename_err),
                    Ok(fs1) => {
                        let copied = fs1.logged(FsOpView::Copy { from: target, to: package });
                        match copied.remove_file(target) {
                            Ok(fs2) => done(fs2.logged(FsOpView::RemoveFile { path: target })),
                            Err(k) => failed(copied, target, k),
                        }
                    },
                },
            }
        }
    }
}

/// Overriding an entry of the target: it is removed, unless nothing is
/// there, or a link is, or the run is dry.
pub open spec fn override_file_spec(fs: FsView, target: PathView, dry_run: bool) -> Step {
    if !fs.present(target) || fs.is_symlink(target) || dry_run {
        done(fs)
    } else if fs.is_dir(target) {
        match fs.remove_dir_all(target) {
            Ok(fs1) => done(fs1.logged(FsOpView::RemoveDirAll { path: target })),
            Err(k) => failed(fs, target, k),
        }
    } else {
        match fs.remove_file(target) {
            Ok(fs1) => done(fs1.logged(FsOpView::RemoveFile { path: target })),
            Err(k) => failed(fs, target, k),
        }
    }
}

/// Copying the directory `src` to `dst` with all below it, at most `depth`
/// levels deep.
pub open spec fn copy_dir_spec(fs: FsView, src: PathView, dst: PathView, depth: nat) -> Step
    decreases depth, 1nat, 0nat,
{
    match fs.create_dir_all(dst) {
        Err(k) => failed(fs, dst, k),
        Ok(fs1) => {
            let made = fs1.logged(FsOpView::CreateDirAll { path: dst });
            match made.read_dir(src) {
                Err(k) => failed(made, src, k),
                Ok(lines) => copy_entries_spec(made, src, dst, lines, depth),
            }
        },
    }
}

/// Copying the entries `lines` of `src` to `dst`, each in turn up to the
/// first that fails.
pub open spec fn copy_entries_spec(
    fs: FsView,
    src: PathView,
    dst: PathView,
    lines: Seq<DirEntryView>,
    depth: nat,
) -> Step
    decreases depth, 0nat, lines.len(),
{
    if lines.len() == 0 {
        done(fs)
    } else {
        let from = src.child(lines[0].name);
        let to = dst.child(lines[0].name);
        let first = if fs.is_dir(from) {
            if depth == 0 {
                failed(fs, from, IoErrorKind::TooManyLinks)
            } else {
                copy_dir_spec(fs, from, to, (depth - 1) as nat)
            }
        } else {
            match fs.copy(from, to) {
                Ok(fs1) => done(fs1.logged(FsOpView::Copy { from, to })),
                Err(k) => failed(fs, from, k),
            }
        };
        if first.err is Some {
            first
        } else {
            copy_entries_spec(first.fs, src, dst, lines.skip(1), depth)
        }
    }
}

/// Moving the directory `from` to the free place `to`: by renaming; where
/// that fails, by copying it with all below it. If both fail, the error is
/// that of the renaming, and what was copied stays.
pub open spec fn move_dir_spec(fs: FsView, from: PathView, to: PathView, depth: nat) -> Step {
    match fs.rename(from, to) {
        Ok(fs1) => done(fs1.logged(FsOpView::Rename { from, to })),
        Err(rename_err) => {
            let copied = copy_dir_spec(fs, from, to, depth);
            if copied.err is Some {
                failed(copied.fs, from, rename_err)
            } else {
                copied
            }
        },
    }
}

/// Merging the entries of the directory `src` into the directory `dst`, at
/// most `depth` levels deep.
pub open spec fn merge_spec(fs: FsView, src: PathView, dst: PathView, depth: nat) -> Step
    decreases depth, 1nat, 0nat,
{
    match fs.read_dir(src) {
        Err(k) => failed(fs, src, k),
        Ok(lines) => merge_entries_spec(fs, src, dst, lines, depth),
    }
}

/// Merging the entries `lines` of `src` into `dst`, each in turn up to the
/// first that fails: a directory that `dst` has too is merged, anything else
/// is moved.
pub open spec fn merge_entries_spec(
    fs: FsView,
    src: PathView,
    dst: PathView,
    lines: Seq<DirEntryView>,
    depth: nat,
) -> Step
    decreases depth, 0nat, lines.len(),
{
    if lines.len() == 0 {
        done(fs)
    } else {
        let from = src.child(lines[0].name);
        let to = dst.child(lines[0].name);
        let first = if fs.is_dir(from) {
            if fs.present(to) {
                if depth == 0 {
                    failed(fs, from, IoErrorKind::TooManyLinks)
                } else {
                    merge_spec(fs, from, to, (depth - 1) as nat)
                }
            } else {
                move_dir_spec(fs, from, to, depth)
            }
        } else {
            move_file_spec(fs, from, to)
        };
        if first.err is Some {
            first
        } else {
            merge_entries_spec(first.fs, src, dst, lines.skip(1), depth)
        }
    }
}

/// Removing the directory `target` with all below it.
pub open spec fn clear_spec(fs: FsView, target: PathView) -> Step {
    match fs.remove_dir_all(target) {
        Ok(fs1) => done(fs1.logged(FsOpView::RemoveDirAll { path: target })),
        Err(k) => failed(fs, target, k),
    }
}

/// Adopting a directory: it is moved from the target into the package, or
/// merged into the directory that the package has already. What is not
/// there, or is a link, is not adopted; a dry run only checks.
pub open spec fn adopt_directory_spec(
    fs: FsView,
    target: PathView,
    package: PathView,
    dry_run: bool,
) -> Step {
    if !fs.present(target) {
        Step {
            fs,
            err: Some(
                ErrorView::InvalidPath("Target directory does not exist: "@ + target.text()),
            ),
        }
    } else if fs.is_symlink(target) {
        Step {
            fs,
            err: Some(
                ErrorView::InvalidPath(
                    "Target is already a symlink, cannot adopt: "@ + target.text(),
                ),
            ),
        }
    } else if dry_run {
        done(fs)
    } else {
        let first = ensure_parent_dirs_spec(fs, package);
        if first.err is Some {
            first
        } else if !first.fs.present(package) {
            match first.fs.rename(target, package) {
                Ok(fs1) => done(fs1.logged(FsOpView::Rename { from: target, to: package })),
                Err(rename_err) => {
                    let copied = copy_dir_spec(first.fs, target, package, MAX_TREE_DEPTH as nat);
                    if copied.err is Some {
                        failed(copied.fs, target, rename_err)
                    } else {
                        clear_spec(copied.fs, target)
                    }
                },
            }
        } else {
            let merged = merge_spec(first.fs, target, package, MAX_TREE_DEPTH as nat);
            if merged.err is Some {
                merged
            } else {
                clear_spec(merged.fs, target)
            }
        }
    }
}

/// The error for a failure at `path`.
fn fail_at(path: &StowPath, kind: IoErrorKind) -> (e: StowError)
    ensures
        e@ == (ErrorView::IoError { path: path@, source: kind }),
{
    StowError::io_error(path.clone(), kind)
}

/// The error for a path of the wrong kind: `words` and the path.
fn wrong_path(words: &str, path: &StowPath) -> (e: StowError)
    ensures
        e@ == ErrorView::InvalidPath(words@ + path@.text()),
{
    let mut m = String::from_str(words);
    let t = path.to_string();
    m.append(t.as_str());
    StowError::invalid_path(m.as_str())
}

/// Moves the file `from` to `to`: by renaming, and where that fails by
/// copying.
fn move_file(fs: &mut FileSystem, from: &StowPath, to: &StowPath) -> (r: Result<(), StowError>)
    requires
        old(fs)@.wf(),
    ensures
        final(fs)@.wf(),
        stepped(final(fs)@, r, move_file_spec(old(fs)@, from@, to@)),
{
    match fs.rename(from, to) {
        Ok(()) => Ok(()),
        Err(rename_err) => match fs.copy(from, to) {
            Ok(()) => Ok(()),
            Err(_) => Err(fail_at(from, rename_err)),
        },
    }
}

/// Adopts a conflicting file: moves it from the target to its place in the
/// package. A link is not adopted. A dry run only checks.
pub fn adopt_file(fs: &mut FileSystem, target_file: &StowPath, package_file: &StowPath, dry_run: bool) -> (r:
    Result<(), StowError>)
    requires
        old(fs)@.wf(),
    ensures
        final(fs)@.wf(),
        stepped(final(fs)@, r, adopt_file_spec(old(fs)@, target_file@, package_file@, dry_run)),
{
    if !fs.path_exists(target_file) {
        return Err(wrong_path("Target file does not exist: ", target_file));
    }
    if is_symlink(fs, target_file) {
        return Err(wrong_path("Target is already a symlink, cannot adopt: ", target_file));
    }
    if dry_run {
        return Ok(());
    }
    match ensure_parent_dirs(fs, package_file) {
        Err(e) => {
            return Err(e);
        },
        Ok(()) => {},
    }
    match fs.rename(target_file, package_file) {
        Ok(()) => Ok(()),
        Err(rename_err) => match fs.copy(target_file, package_file) {
            Err(_) => Err(fail_at(target_file, rename_err)),
            Ok(()) => match fs.remove_file(target_file) {
                Ok(()) => Ok(()),
                Err(k) => Err(fail_at(target_file, k)),
            },
        },
    }
}

/// Overrides a conflicting entry: removes it from the target. Nothing is
/// done where nothing is there, and a link is left alone. A dry run removes
/// nothing.
pub fn override_file(fs: &mut FileSystem, target_file: &StowPath, dry_run: bool) -> (r: Result<
    (),
    StowError,
>)
    requires
        old(fs)@.wf(),
    ensures
        final(fs)@.wf(),
        stepped(final(fs)@, r, override_file_spec(old(fs)@, target_file@, dry_run)),
{
    if !fs.path_exists(target_file) {
        return Ok(());
    }
    if is_symlink(fs, target_file) {
        return Ok(());
    }
    if dry_run {
        return Ok(());
    }
    if fs.is_dir(target_file) {
        match fs.remove_dir_all(target_file) {
            Ok(()) => Ok(()),
            Err(k) => Err(fail_at(target_file, k)),
        }
    } else {
        match fs.remove_file(target_file) {
            Ok(()) => Ok(()),
            Err(k) => Err(fail_at(target_file, k)),
        }
    }
}

/// Copies the directory `src` to `dst` with all below it, at most `depth`
/// levels deep.
fn copy_dir_recursive(fs: &mut FileSystem, src: &StowPath, dst: &StowPath, depth: usize) -> (r:
    Result<(), StowError>)
    requires
        old(fs)@.wf(),
    ensures
        final(fs)@.wf(),
        stepped(final(fs)@, r, copy_dir_spec(old(fs)@, src@, dst@, depth as nat)),
    decreases depth,
{
    match fs.create_dir_all(dst) {
        Err(k) => {
            return Err(fail_at(dst, k));
        },
        Ok(()) => {},
    }
    let lines = match fs.read_dir(src) {
        Err(k) => {
            return Err(fail_at(src, k));
        },
        Ok(lines) => lines,
    };
    let ghost total = copy_dir_spec(old(fs)@, src@, dst@, depth as nat);
    let ghost all = listing_view(lines@);
    let mut i: usize = 0;
    assert(all.skip(0) =~= all);
    while i < lines.len()
        invariant
            i <= lines.len(),
            fs@.wf(),
            all == listing_view(lines@),
            copy_entries_spec(fs@, src@, dst@, all.skip(i as int), depth as nat) == total,
            total == copy_dir_spec(old(fs)@, src@, dst@, depth as nat),
        decreases lines.len() - i,
    {
        proof {
            assert(all.skip(i as int)[0] == lines[i as int]@);
            assert(all.skip(i as int).skip(1) =~= all.skip(i + 1));
        }
        let from = src.child(lines[i].name.as_str());
        let to = dst.child(lines[i].name.as_str());
        if fs.is_dir(&from) {
            if depth == 0 {
                return Err(fail_at(&from, IoErrorKind::TooManyLinks));
            }
            match copy_dir_recursive(fs, &from, &to, depth - 1) {
                Err(e) => {
                    return Err(e);
                },
                Ok(()) => {},
            }
        } else {
            match fs.copy(&from, &to) {
                Err(k) => {
                    return Err(fail_at(&from, k));
                },
                Ok(()) => {},
            }
        }
        i += 1;
    }
    Ok(())
}

/// Moves the directory `from` to the free place `to`: by renaming, and where
/// that fails by copying it with all below it.
fn move_dir(fs: &mut FileSystem, from: &StowPath, to: &StowPath, depth: usize) -> (r: Result<
    (),
    StowError,
>)
    requires
        old(fs)@.wf(),
    ensures
        final(fs)@.wf(),
        stepped(final(fs)@, r, move_dir_spec(old(fs)@, from@, to@, depth as nat)),
{
    match fs.rename(from, to) {
        Ok(()) => Ok(()),
        Err(rename_err) => match copy_dir_recursive(fs, from, to, depth) {
            Ok(()) => Ok(()),
            Err(_) => Err(fail_at(from, rename_err)),
        },
    }
}

/// Merges the entries of the directory `src` into the directory `dst`, at
/// most `depth` levels deep.
fn merge_directories(fs: &mut FileSystem, src: &StowPath, dst: &StowPath, depth: usize) -> (r:
    Result<(), StowError>)
    requires
        old(fs)@.wf(),
    ensures
        final(fs)@.wf(),
        stepped(final(fs)@, r, merge_spec(old(fs)@, src@, dst@, depth as nat)),
    decreases depth,
{
    let lines = match fs.read_dir(src) {
        Err(k) => {
            return Err(fail_at(src, k));
        },
        Ok(lines) => lines,
    };
    let ghost total = merge_spec(old(fs)@, src@, dst@, depth as nat);
    let ghost all = listing_view(lines@);
    let mut i: usize = 0;
    assert(all.skip(0) =~= all);
    while i < lines.len()
        invariant
            i <= lines.len(),
            fs@.wf(),
            all == listing_view(lines@),
            merge_entries_spec(fs@, src@, dst@, all.skip(i as int), depth as nat) == total,
            total == merge_spec(old(fs)@, src@, dst@, depth as nat),
        decreases lines.len() - i,
    {
        proof {
            assert(all.skip(i as int)[0] == lines[i as int]@);
            assert(all.skip(i as int).skip(1) =~= all.skip(i + 1));
        }
        let from = src.child(lines[i].name.as_str());
        let to = dst.child(lines[i].name.as_str());
        let step = if fs.is_dir(&from) {
            if fs.path_exists(&to) {
                if depth == 0 {
                    Err(fail_at(&from, IoErrorKind::TooManyLinks))
                } else {
                    merge_directories(fs, &from, &to, depth - 1)
                }
            } else {
                move_dir(fs, &from, &to, depth)
            }
        } else {
            move_file(fs, &from, &to)
        };
        match step {
            Err(e) => {
                return Err(e);
            },
            Ok(()) => {},
        }
        i += 1;
    }
    Ok(())
}

/// Adopts a conflicting directory: moves it from the target into the
/// package. Where the package has the directory already, the entries are
/// merged into it and the directory in the target is removed. A link is not
/// adopted. A dry run only checks.
pub fn adopt_directory(
    fs: &mut FileSystem,
    target_dir: &StowPath,
    package_dir: &StowPath,
    dry_run: bool,
) -> (r: Result<(), StowError>)
    requires
        old(fs)@.wf(),
    ensures
        final(fs)@.wf(),
        stepped(
            final(fs)@,
            r,
            adopt_directory_spec(old(fs)@, target_dir@, package_dir@, dry_run),
        ),
{
    if !fs.path_exists(target_dir) {
        return Err(wrong_path("Target directory does not exist: ", target_dir));
    }
    if is_symlink(fs, target_dir) {
        return Err(wrong_path("Target is already a symlink, cannot adopt: ", target_dir));
    }
    if dry_run {
        return Ok(());
    }
    match ensure_parent_dirs(fs, package_dir) {
        Err(e) => {
            return Err(e);
        },
        Ok(()) => {},
    }
    if !fs.path_exists(package_dir) {
        match fs.rename(target_dir, package_dir) {
            Ok(()) => {
                return Ok(());
            },
            Err(rename_err) => match copy_dir_recursive(fs, target_dir, package_dir, MAX_TREE_DEPTH) {
                Err(_) => {
                    return Err(fail_at(target_dir, rename_err));
                },
                Ok(()) => {},
            },
        }
    } else {
        match merge_directories(fs, target_dir, package_dir, MAX_TREE_DEPTH) {
            Err(e) => {
                return Err(e);
            },
            Ok(()) => {},
        }
    }
    match fs.remove_dir_all(target_dir) {
        Ok(()) => Ok(()),
        Err(k) => Err(fail_at(target_dir, k)),
    }
}

} // verus!
