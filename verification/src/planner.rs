//! The actions that a plan is made of, and their execution.

use vstd::prelude::*;
use crate::adopt::{
    adopt_directory, adopt_directory_spec, adopt_file, adopt_file_spec, override_file,
    override_file_spec,
};
use crate::error::{ErrorView, StowError};
use crate::fs_model::{create_symlink_spec, remove_empty_directory_spec, FsOpView, FsView, Step};
use crate::fs_ops::{create_symlink, remove_empty_directory, stepped, FileSystem};
use crate::path_utils::{PathView, StowPath};

verus! {

/// An action to be performed during stow and unstow operations.
#[derive(Debug, PartialEq)]
pub enum Action {
    /// Create a symbolic link to a file.
    CreateFileLink { link_path: StowPath, target_path: StowPath },
    /// Create a symbolic link to a directory (folding).
    CreateDirLink { link_path: StowPath, target_path: StowPath },
    /// Replace a directory link by a real directory, to be filled by the
    /// actions that follow.
    UnfoldDirLink { link_path: StowPath, original_target: StowPath },
    /// Remove a symbolic link.
    RemoveLink { path: StowPath },
    /// Remove a directory if it is empty.
    RemoveEmptyDir { path: StowPath },
}

/// The mathematical value of an [`Action`].
pub enum ActionView {
    CreateFileLink { link_path: PathView, target_path: PathView },
    CreateDirLink { link_path: PathView, target_path: PathView },
    UnfoldDirLink { link_path: PathView, original_target: PathView },
    RemoveLink { path: PathView },
    RemoveEmptyDir { path: PathView },
}

impl View for Action {
    type V = ActionView;

    open spec fn view(&self) -> ActionView {
        match self {
            Action::CreateFileLink { link_path, target_path } => ActionView::CreateFileLink {
                link_path: link_path@,
                target_path: target_path@,
            },
            Action::CreateDirLink { link_path, target_path } => ActionView::CreateDirLink {
                link_path: link_path@,
                target_path: target_path@,
            },
            Action::UnfoldDirLink { link_path, original_target } => ActionView::UnfoldDirLink {
                link_path: link_path@,
                original_target: original_target@,
            },
            Action::RemoveLink { path } => ActionView::RemoveLink { path: path@ },
            Action::RemoveEmptyDir { path } => ActionView::RemoveEmptyDir { path: path@ },
        }
    }
}

impl Clone for Action {
    fn clone(&self) -> (r: Self)
        ensures
            r@ == self@,
    {
        match self {
            Action::CreateFileLink { link_path, target_path } => Action::CreateFileLink {
                link_path: link_path.clone(),
                target_path: target_path.clone(),
            },
            Action::CreateDirLink { link_path, target_path } => Action::CreateDirLink {
                link_path: link_path.clone(),
                target_path: target_path.clone(),
            },
            Action::UnfoldDirLink { link_path, original_target } => Action::UnfoldDirLink {
                link_path: link_path.clone(),
                original_target: original_target.clone(),
            },
            Action::RemoveLink { path } => Action::RemoveLink { path: path.clone() },
            Action::RemoveEmptyDir { path } => Action::RemoveEmptyDir { path: path.clone() },
        }
    }
}

impl ActionView {
    /// Whether the action makes a link.
    pub open spec fn is_create(self) -> bool {
        self is CreateFileLink || self is CreateDirLink
    }

    /// The path at which the action works.
    pub open spec fn subject(self) -> PathView {
        match self {
            ActionView::CreateFileLink { link_path, .. } => link_path,
            ActionView::CreateDirLink { link_path, .. } => link_path,
            ActionView::UnfoldDirLink { link_path, .. } => link_path,
            ActionView::RemoveLink { path } => path,
            ActionView::RemoveEmptyDir { path } => path,
        }
    }
}

/// Removing the link at `path`, with its failure as an error at `path`.
pub open spec fn remove_link_spec(fs: FsView, path: PathView) -> Step {
    match fs.remove_file(path) {
        Ok(fs1) => Step { fs: fs1.logged(FsOpView::RemoveFile { path }), err: None },
        Err(k) => Step { fs, err: Some(ErrorView::IoError { path, source: k }) },
    }
}

/// Replacing the link at `path` by an empty directory.
pub open spec fn unfold_spec(fs: FsView, path: PathView) -> Step {
    let first = remove_link_spec(fs, path);
    if first.err is Some {
        first
    } else {
        match first.fs.create_dir(path) {
            Ok(fs2) => Step { fs: fs2.logged(FsOpView::CreateDir { path }), err: None },
            Err(k) => Step { fs: first.fs, err: Some(ErrorView::IoError { path, source: k }) },
        }
    }
}

/// What executing one action does. A dry run does nothing.
pub open spec fn execute_action_spec(fs: FsView, action: ActionView, dry_run: bool) -> Step {
    if dry_run {
        Step { fs, err: None }
    } else {
        match action {
            ActionView::CreateFileLink { link_path, target_path } => create_symlink_spec(
                fs,
                link_path,
                target_path,
                false,
            ),
            ActionView::CreateDirLink { link_path, target_path } => create_symlink_spec(
                fs,
                link_path,
                target_path,
                true,
            ),
            ActionView::UnfoldDirLink { link_path, original_target } => unfold_spec(fs, link_path),
            ActionView::RemoveLink { path } => remove_link_spec(fs, path),
            ActionView::RemoveEmptyDir { path } => remove_empty_directory_spec(fs, path),
        }
    }
}

/// What executing a sequence of actions does: each in turn, up to the first
/// that fails. Nothing is undone.
pub open spec fn execute_spec(fs: FsView, actions: Seq<ActionView>, dry_run: bool) -> Step
    decreases actions.len(),
{
    if actions.len() == 0 {
        Step { fs, err: None }
    } else {
        let first = execute_action_spec(fs, actions[0], dry_run);
        if first.err is Some {
            first
        } else {
            execute_spec(first.fs, actions.skip(1), dry_run)
        }
    }
}

/// Executes a single action.
pub fn execute_action(fs: &mut FileSystem, action: &Action, dry_run: bool) -> (r: Result<
    (),
    StowError,
>)
    requires
        old(fs)@.wf(),
    ensures
        final(fs)@.wf(),
        stepped(final(fs)@, r, execute_action_spec(old(fs)@, action@, dry_run)),
{
    if dry_run {
        return Ok(());
    }
    match action {
        Action::CreateFileLink { link_path, target_path } => create_symlink(
            fs,
            link_path,
            target_path,
            false,
        ),
        Action::CreateDirLink { link_path, target_path } => create_symlink(
            fs,
            link_path,
            target_path,
            true,
        ),
        Action::UnfoldDirLink { link_path, original_target } => {
            match fs.remove_file(link_path) {
                Err(k) => {
                    return Err(StowError::io_error(link_path.clone(), k));
                },
                Ok(()) => {},
            }
            match fs.create_dir(link_path) {
                Err(k) => Err(StowError::io_error(link_path.clone(), k)),
                Ok(()) => Ok(()),
            }
        },
        Action::RemoveLink { path } => match fs.remove_file(path) {
            Err(k) => Err(StowError::io_error(path.clone(), k)),
            Ok(()) => Ok(()),
        },
        Action::RemoveEmptyDir { path } => remove_empty_directory(fs, path),
    }
}

/// Something in the target that is moved or cleared out of the way before
/// the actions of a plan run.
#[derive(Debug, PartialEq)]
pub enum Relocation {
    /// Move the file at `target` to `package`.
    AdoptFile { target: StowPath, package: StowPath },
    /// Move the directory at `target` into `package`.
    AdoptDirectory { target: StowPath, package: StowPath },
    /// Remove what is at `target`.
    Override { target: StowPath },
}

/// The mathematical value of a [`Relocation`].
pub enum RelocationView {
    AdoptFile { target: PathView, package: PathView },
    AdoptDirectory { target: PathView, package: PathView },
    Override { target: PathView },
}

impl View for Relocation {
    type V = RelocationView;

    open spec fn view(&self) -> RelocationView {
        match self {
            Relocation::AdoptFile { target, package } => RelocationView::AdoptFile {
                target: target@,
                package: package@,
            },
            Relocation::AdoptDirectory { target, package } => RelocationView::AdoptDirectory {
                target: target@,
                package: package@,
            },
            Relocation::Override { target } => RelocationView::Override { target: target@ },
        }
    }
}

impl Clone for Relocation {
    fn clone(&self) -> (r: Self)
        ensures
            r@ == self@,
    {
        match self {
            Relocation::AdoptFile { target, package } => Relocation::AdoptFile {
                target: target.clone(),
                package: package.clone(),
            },
            Relocation::AdoptDirectory { target, package } => Relocation::AdoptDirectory {
                target: target.clone(),
                package: package.clone(),
            },
            Relocation::Override { target } => Relocation::Override { target: target.clone() },
        }
    }
}

/// What moving one thing out of the way does.
pub open spec fn relocate_spec(fs: FsView, relocation: RelocationView, dry_run: bool) -> Step {
    match relocation {
        RelocationView::AdoptFile { target, package } => adopt_file_spec(
            fs,
            target,
            package,
            dry_run,
        ),
        RelocationView::AdoptDirectory { target, package } => adopt_directory_spec(
            fs,
            target,
            package,
            dry_run,
        ),
        RelocationView::Override { target } => override_file_spec(fs, target, dry_run),
    }
}

/// What moving a sequence of things out of the way does: each in turn, up
/// to the first that fails.
pub open spec fn relocate_all_spec(fs: FsView, moves: Seq<RelocationView>, dry_run: bool) -> Step
    decreases moves.len(),
{
    if moves.len() == 0 {
        Step { fs, err: None }
    } else {
        let first = relocate_spec(fs, moves[0], dry_run);
        if first.err is Some {
            first
        } else {
            relocate_all_spec(first.fs, moves.skip(1), dry_run)
        }
    }
}

/// What executing a plan does: what is in the way is moved, and then the
/// actions are executed. The first failure ends it; nothing is undone.
pub open spec fn execute_plan_spec(
    fs: FsView,
    moves: Seq<RelocationView>,
    actions: Seq<ActionView>,
    dry_run: bool,
) -> Step {
    let first = relocate_all_spec(fs, moves, dry_run);
    if first.err is Some {
        first
    } else {
        execute_spec(first.fs, actions, dry_run)
    }
}

/// Moves one thing out of the way.
pub fn relocate(fs: &mut FileSystem, relocation: &Relocation, dry_run: bool) -> (r: Result<
    (),
    StowError,
>)
    requires
        old(fs)@.wf(),
    ensures
        final(fs)@.wf(),
        stepped(final(fs)@, r, relocate_spec(old(fs)@, relocation@, dry_run)),
{
    match relocation {
        Relocation::AdoptFile { target, package } => adopt_file(fs, target, package, dry_run),
        Relocation::AdoptDirectory { target, package } => adopt_directory(
            fs,
            target,
            package,
            dry_run,
        ),
        Relocation::Override { target } => override_file(fs, target, dry_run),
    }
}

/// A plan: the actions to execute, in order, and what is to be moved out of
/// their way first.
#[derive(Debug)]
pub struct Plan {
    actions: Vec<Action>,
    relocations: Vec<Relocation>,
}

impl View for Plan {
    type V = Seq<ActionView>;

    closed spec fn view(&self) -> Seq<ActionView> {
        self.actions@.map_values(|a: Action| a@)
    }
}

impl Plan {
    /// What is to be moved out of the way before the actions run, in order.
    pub closed spec fn moves(&self) -> Seq<RelocationView> {
        self.relocations@.map_values(|m: Relocation| m@)
    }

    /// An empty plan.
    pub fn new() -> (p: Plan)
        ensures
            p@ == Seq::<ActionView>::empty(),
            p.moves() == Seq::<RelocationView>::empty(),
    {
        let p = Plan { actions: Vec::new(), relocations: Vec::new() };
        assert(p@ =~= Seq::empty());
        assert(p.moves() =~= Seq::empty());
        p
    }

    /// Adds an action at the end of the plan.
    pub fn add(&mut self, action: Action)
        ensures
            final(self)@ == old(self)@.push(action@),
            final(self).moves() == old(self).moves(),
    {
        let ghost before = self@;
        self.actions.push(action);
        assert(self@ =~= before.push(action@));
    }

    /// Adds something to move out of the way.
    pub fn add_relocation(&mut self, relocation: Relocation)
        ensures
            final(self)@ == old(self)@,
            final(self).moves() == old(self).moves().push(relocation@),
    {
        let ghost before = self.moves();
        self.relocations.push(relocation);
        assert(self.moves() =~= before.push(relocation@));
    }

    /// What is to be moved out of the way before the actions run, in order.
    pub fn relocations(&self) -> (r: &Vec<Relocation>)
        ensures
            r@.map_values(|m: Relocation| m@) == self.moves(),
    {
        &self.relocations
    }

    /// Moves all of `other` to the end of this plan.
    pub fn append(&mut self, other: Plan)
        ensures
            final(self)@ == old(self)@ + other@,
            final(self).moves() == old(self).moves() + other.moves(),
    {
        let ghost a0 = self@;
        let ghost m0 = self.moves();
        let ghost a1 = other@;
        let ghost m1 = other.moves();
        let mut other = other;
        self.actions.append(&mut other.actions);
        self.relocations.append(&mut other.relocations);
        assert(self@ =~= a0 + a1);
        assert(self.moves() =~= m0 + m1);
    }

    /// The number of actions in the plan.
    pub fn len(&self) -> (n: usize)
        ensures
            n == self@.len(),
    {
        self.actions.len()
    }

    /// The actions of the plan, in order.
    pub fn actions(&self) -> (r: &Vec<Action>)
        ensures
            r@.map_values(|a: Action| a@) == self@,
    {
        &self.actions
    }

    /// Executes the plan: moves what is in the way, then executes the
    /// actions in order. It stops at the first failure and undoes nothing. A
    /// dry run changes nothing.
    pub fn execute(&self, fs: &mut FileSystem, dry_run: bool) -> (r: Result<(), StowError>)
        requires
            old(fs)@.wf(),
        ensures
            final(fs)@.wf(),
            stepped(final(fs)@, r, execute_plan_spec(old(fs)@, self.moves(), self@, dry_run)),
    {
        let ghost total = execute_plan_spec(old(fs)@, self.moves(), self@, dry_run);
        let mut k: usize = 0;
        assert(self.moves().skip(0) =~= self.moves());
        while k < self.relocations.len()
            invariant
                k <= self.relocations.len(),
                fs@.wf(),
                execute_plan_spec(fs@, self.moves().skip(k as int), self@, dry_run) == total,
                total == execute_plan_spec(old(fs)@, self.moves(), self@, dry_run),
            decreases self.relocations.len() - k,
        {
            proof {
                assert(self.moves().skip(k as int)[0] == self.relocations[k as int]@);
                assert(self.moves().skip(k as int).skip(1) =~= self.moves().skip(k + 1));
            }
            match relocate(fs, &self.relocations[k], dry_run) {
                Err(e) => {
                    return Err(e);
                },
                Ok(()) => {},
            }
            k += 1;
        }
        let mut i: usize = 0;
        proof {
            assert(self.moves().skip(self.relocations.len() as int) =~= Seq::empty());
            assert(self@.skip(0) =~= self@);
        }
        while i < self.actions.len()
            invariant
                i <= self.actions.len(),
                fs@.wf(),
                execute_spec(fs@, self@.skip(i as int), dry_run) == total,
                total == execute_plan_spec(old(fs)@, self.moves(), self@, dry_run),
            decreases self.actions.len() - i,
        {
            proof {
                assert(self@.skip(i as int)[0] == self.actions[i as int]@);
                assert(self@.skip(i as int).skip(1) =~= self@.skip(i + 1));
            }
            match execute_action(fs, &self.actions[i], dry_run) {
                Err(e) => {
                    return Err(e);
                },
                Ok(()) => {},
            }
            i += 1;
        }
        Ok(())
    }
}

} // verus!
