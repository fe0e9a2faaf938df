//! The mathematical value of a file system: a list of entries that forms a
//! tree of files, directories and symbolic links, what a path lookup in it
//! finds, and what each change makes of it.

use vstd::prelude::*;
use crate::error::{ErrorView, IoErrorKind};
use crate::fs_ops::{is_directory, is_symlink};
use crate::path_utils::PathView;

verus! {

/// How often a path lookup follows symbolic links before it gives up.
pub const MAX_LINK_HOPS: usize = 40;

/// The mathematical value of an entry's content.
pub enum NodeView {
    File(Seq<u8>),
    Dir,
    Link(PathView),
}

/// An entry: the names that lead to it from the root, and what is there.
pub struct EntryView {
    pub path: Seq<Seq<char>>,
    pub node: NodeView,
}

/// A change that was made to the file system.
pub enum FsOpView {
    Symlink { link: PathView, target: PathView, is_directory: bool },
    RemoveFile { path: PathView },
    CreateDir { path: PathView },
    CreateDirAll { path: PathView },
    RemoveDir { path: PathView },
    RemoveDirAll { path: PathView },
    Rename { from: PathView, to: PathView },
    Copy { from: PathView, to: PathView },
    Write { path: PathView, data: Seq<u8> },
}

/// The mathematical value of a file system.
pub struct FsView {
    pub entries: Seq<EntryView>,
    pub links_allowed: bool,
    pub journal: Seq<FsOpView>,
}

/// One line of a directory listing.
pub struct DirEntryView {
    pub name: Seq<char>,
    pub is_dir: bool,
}

/// What an operation leaves behind: the file system after it, and the error
/// where it failed.
pub struct Step {
    pub fs: FsView,
    pub err: Option<ErrorView>,
}

/// Whether `path` is `dir` or lies below it.
pub open spec fn is_under(path: Seq<Seq<char>>, dir: Seq<Seq<char>>) -> bool {
    dir.len() <= path.len() && path.take(dir.len() as int) == dir
}

/// Where a link's target starts from: the root for an absolute target, else
/// the directory that holds the link, less the levels the target climbs.
pub open spec fn link_base(dir: Seq<Seq<char>>, target: PathView) -> Seq<Seq<char>> {
    if target.absolute {
        Seq::empty()
    } else if target.ups >= dir.len() {
        Seq::empty()
    } else {
        dir.take(dir.len() - target.ups)
    }
}

/// Whether an entry has the location `p`.
pub open spec fn has_entry(entries: Seq<EntryView>, p: Seq<Seq<char>>) -> bool {
    exists|i: int| 0 <= i < entries.len() && (#[trigger] entries[i]).path == p
}

/// The index of an entry with the location `p`.
pub open spec fn index_in(entries: Seq<EntryView>, p: Seq<Seq<char>>) -> int {
    choose|i: int| 0 <= i < entries.len() && (#[trigger] entries[i]).path == p
}

/// What the entries hold at the location `p`. The root is always a
/// directory.
#[verifier::opaque]
pub open spec fn node_in(entries: Seq<EntryView>, p: Seq<Seq<char>>) -> Option<NodeView> {
    if p.len() == 0 {
        Some(NodeView::Dir)
    } else if has_entry(entries, p) {
        Some(entries[index_in(entries, p)].node)
    } else {
        None
    }
}

/// Every entry lies directly inside a directory.
#[verifier::opaque]
pub open spec fn parents_are_dirs(entries: Seq<EntryView>) -> bool {
    forall|i: int|
        0 <= i < entries.len() ==> node_in(entries, (#[trigger] entries[i]).path.drop_last())
            == Some(NodeView::Dir)
}

/// No location is entered twice, no entry stands for the root, every entry
/// lies in a directory, and link targets are well-formed paths.
pub open spec fn entries_wf(entries: Seq<EntryView>) -> bool {
    &&& parents_are_dirs(entries)
    &&& forall|i: int, j: int|
        0 <= i < j < entries.len() ==> (#[trigger] entries[i]).path != (#[trigger] entries[j]).path
    &&& forall|i: int| 0 <= i < entries.len() ==> (#[trigger] entries[i]).path.len() > 0
    &&& forall|i: int|
        0 <= i < entries.len() ==> ((#[trigger] entries[i]).node matches NodeView::Link(t)
            ==> t.wf())
}

/// Follows `rest` name by name from the directory `cur`. Links on the way
/// are followed; the last name is followed only with `follow_last`. The
/// result is the location that the walk ends at.
pub open spec fn walk_in(
    entries: Seq<EntryView>,
    cur: Seq<Seq<char>>,
    rest: Seq<Seq<char>>,
    follow_last: bool,
    fuel: nat,
) -> Result<Seq<Seq<char>>, IoErrorKind>
    decreases fuel, rest.len(),
{
    if rest.len() == 0 {
        Ok(cur)
    } else {
        let p = cur.push(rest[0]);
        match node_in(entries, p) {
            None => Err(IoErrorKind::NotFound),
            Some(NodeView::File(_)) => if rest.len() == 1 {
                Ok(p)
            } else {
                Err(IoErrorKind::NotADirectory)
            },
            Some(NodeView::Dir) => walk_in(entries, p, rest.skip(1), follow_last, fuel),
            Some(NodeView::Link(t)) => if rest.len() == 1 && !follow_last {
                Ok(p)
            } else if fuel == 0 {
                Err(IoErrorKind::TooManyLinks)
            } else {
                walk_in(
                    entries,
                    link_base(cur, t),
                    t.names + rest.skip(1),
                    follow_last,
                    (fuel - 1) as nat,
                )
            },
        }
    }
}

/// Follows `rest` from the directory `cur` as far as entries exist. The
/// result is the directory reached and the names for which nothing exists.
pub open spec fn reach_in(
    entries: Seq<EntryView>,
    cur: Seq<Seq<char>>,
    rest: Seq<Seq<char>>,
    fuel: nat,
) -> Result<(Seq<Seq<char>>, Seq<Seq<char>>), IoErrorKind>
    decreases fuel, rest.len(),
{
    if rest.len() == 0 {
        Ok((cur, rest))
    } else {
        let p = cur.push(rest[0]);
        match node_in(entries, p) {
            None => Ok((cur, rest)),
            Some(NodeView::File(_)) => if rest.len() == 1 {
                Err(IoErrorKind::AlreadyExists)
            } else {
                Err(IoErrorKind::NotADirectory)
            },
            Some(NodeView::Dir) => reach_in(entries, p, rest.skip(1), fuel),
            Some(NodeView::Link(t)) => if fuel == 0 {
                Err(IoErrorKind::TooManyLinks)
            } else {
                match walk_in(entries, link_base(cur, t), t.names, true, (fuel - 1) as nat) {
                    Err(_) => Err(IoErrorKind::AlreadyExists),
                    Ok(q) => if node_in(entries, q) == Some(NodeView::Dir) {
                        reach_in(entries, q, rest.skip(1), (fuel - 1) as nat)
                    } else if rest.len() == 1 {
                        Err(IoErrorKind::AlreadyExists)
                    } else {
                        Err(IoErrorKind::NotADirectory)
                    },
                }
            },
        }
    }
}

/// The entries with a chain of new directories: `names[0]` inside `dir`,
/// `names[1]` inside that, and so on.
pub open spec fn grow(entries: Seq<EntryView>, dir: Seq<Seq<char>>, names: Seq<Seq<char>>) -> Seq<
    EntryView,
>
    decreases names.len(),
{
    if names.len() == 0 {
        entries
    } else {
        grow(
            entries.push(EntryView { path: dir.push(names[0]), node: NodeView::Dir }),
            dir.push(names[0]),
            names.skip(1),
        )
    }
}

/// The length of the longest location among the entries.
pub open spec fn max_len(entries: Seq<EntryView>) -> nat
    decreases entries.len(),
{
    if entries.len() == 0 {
        0
    } else {
        let rest = max_len(entries.drop_last());
        if entries.last().path.len() > rest {
            entries.last().path.len()
        } else {
            rest
        }
    }
}

/// Whether no two lines have the same name.
pub open spec fn names_distinct(lines: Seq<DirEntryView>) -> bool {
    forall|i: int, j: int|
        0 <= i < j < lines.len() ==> (#[trigger] lines[i]).name != (#[trigger] lines[j]).name
}

/// The location `x` after what is at or below `a` was moved to `b`.
pub open spec fn moved_path(x: Seq<Seq<char>>, a: Seq<Seq<char>>, b: Seq<Seq<char>>) -> Seq<
    Seq<char>,
> {
    if is_under(x, a) {
        b + x.skip(a.len() as int)
    } else {
        x
    }
}

/// An entry after what is at or below `a` was moved to `b`.
pub open spec fn moved_entry(e: EntryView, a: Seq<Seq<char>>, b: Seq<Seq<char>>) -> EntryView {
    EntryView { path: moved_path(e.path, a, b), node: e.node }
}

/// Whether an entry lies directly inside the directory at location `dir`.
pub open spec fn is_child(e: EntryView, dir: Seq<Seq<char>>) -> bool {
    e.path.len() > 0 && e.path.drop_last() == dir
}

/// The lines for the entries directly inside `dir`, in the entries' order.
pub open spec fn listing(entries: Seq<EntryView>, dir: Seq<Seq<char>>) -> Seq<DirEntryView>
    decreases entries.len(),
{
    if entries.len() == 0 {
        Seq::empty()
    } else {
        let rest = listing(entries.drop_last(), dir);
        let e = entries.last();
        if is_child(e, dir) {
            rest.push(DirEntryView { name: e.path.last(), is_dir: e.node is Dir })
        } else {
            rest
        }
    }
}

/// The entries that are neither at nor below `dir`, in order.
pub open spec fn prune(entries: Seq<EntryView>, dir: Seq<Seq<char>>) -> Seq<EntryView>
    decreases entries.len(),
{
    if entries.len() == 0 {
        Seq::empty()
    } else {
        let rest = prune(entries.drop_last(), dir);
        if is_under(entries.last().path, dir) {
            rest
        } else {
            rest.push(entries.last())
        }
    }
}

impl FsView {
    pub open spec fn has(self, p: Seq<Seq<char>>) -> bool {
        has_entry(self.entries, p)
    }

    pub open spec fn index_of(self, p: Seq<Seq<char>>) -> int {
        index_in(self.entries, p)
    }

    /// What is at the location `p`. The root is always a directory.
    pub open spec fn node_at(self, p: Seq<Seq<char>>) -> Option<NodeView> {
        node_in(self.entries, p)
    }

    /// Whether the entries form a tree.
    pub open spec fn wf(self) -> bool {
        entries_wf(self.entries)
    }

    /// Follows `rest` name by name from the directory `cur`.
    pub open spec fn walk(
        self,
        cur: Seq<Seq<char>>,
        rest: Seq<Seq<char>>,
        follow_last: bool,
        fuel: nat,
    ) -> Result<Seq<Seq<char>>, IoErrorKind> {
        walk_in(self.entries, cur, rest, follow_last, fuel)
    }

    /// The directory that a path starts from. Relative paths start from the
    /// root, as absolute ones do.
    pub open spec fn base(self, p: PathView) -> Seq<Seq<char>> {
        Seq::empty()
    }

    /// The location of what `p` names, where there is something.
    pub open spec fn locate(self, p: PathView, follow_last: bool) -> Result<
        Seq<Seq<char>>,
        IoErrorKind,
    > {
        self.walk(self.base(p), p.names, follow_last, MAX_LINK_HOPS as nat)
    }

    /// The location at which an entry named by `p` would be made: the last
    /// name of `p` inside the directory that the rest of `p` leads to.
    pub open spec fn slot(self, p: PathView) -> Result<Seq<Seq<char>>, IoErrorKind> {
        if p.names.len() == 0 {
            Err(IoErrorKind::AlreadyExists)
        } else {
            match self.walk(self.base(p), p.names.drop_last(), true, MAX_LINK_HOPS as nat) {
                Err(k) => Err(k),
                Ok(d) => if self.node_at(d) == Some(NodeView::Dir) {
                    Ok(d.push(p.names.last()))
                } else {
                    Err(IoErrorKind::NotADirectory)
                },
            }
        }
    }

    /// Whether `p` leads to something, links followed.
    pub open spec fn present(self, p: PathView) -> bool {
        self.locate(p, true) is Ok
    }

    /// What `p` leads to, links followed.
    pub open spec fn target_node(self, p: PathView) -> Option<NodeView> {
        match self.locate(p, true) {
            Ok(q) => self.node_at(q),
            Err(_) => None,
        }
    }

    /// What `p` names, a link at its end not followed.
    pub open spec fn own_node(self, p: PathView) -> Option<NodeView> {
        match self.locate(p, false) {
            Ok(q) => self.node_at(q),
            Err(_) => None,
        }
    }

    pub open spec fn is_symlink(self, p: PathView) -> bool {
        self.own_node(p) matches Some(NodeView::Link(_))
    }

    pub open spec fn is_dir(self, p: PathView) -> bool {
        self.target_node(p) == Some(NodeView::Dir)
    }

    /// The target stored in the link that `p` names.
    pub open spec fn read_link(self, p: PathView) -> Result<PathView, IoErrorKind> {
        match self.locate(p, false) {
            Err(k) => Err(k),
            Ok(q) => match self.node_at(q) {
                Some(NodeView::Link(t)) => Ok(t),
                _ => Err(IoErrorKind::InvalidInput),
            },
        }
    }

    /// The absolute path of what `p` leads to, all links resolved.
    pub open spec fn canonical(self, p: PathView) -> Result<PathView, IoErrorKind> {
        match self.locate(p, true) {
            Ok(q) => Ok(PathView::absolute_of(q)),
            Err(k) => Err(k),
        }
    }

    /// The canonical form of `p` where `p` leads to something; else `p` made
    /// absolute from the root.
    pub open spec fn normalize(self, p: PathView) -> PathView {
        match self.canonical(p) {
            Ok(q) => q,
            Err(_) => PathView::root().join(p),
        }
    }

    /// The listing of the directory that `p` leads to.
    pub open spec fn read_dir(self, p: PathView) -> Result<Seq<DirEntryView>, IoErrorKind> {
        match self.locate(p, true) {
            Err(k) => Err(k),
            Ok(q) => if self.node_at(q) == Some(NodeView::Dir) {
                Ok(listing(self.entries, q))
            } else {
                Err(IoErrorKind::NotADirectory)
            },
        }
    }

    /// The same file system with one more line in its journal.
    pub open spec fn logged(self, op: FsOpView) -> FsView {
        FsView { journal: self.journal.push(op), ..self }
    }

    /// The same file system with one more entry.
    pub open spec fn with_entry(self, path: Seq<Seq<char>>, node: NodeView) -> FsView {
        FsView { entries: self.entries.push(EntryView { path, node }), ..self }
    }

    /// The same file system without the entry at the location `path`.
    pub open spec fn without_entry(self, path: Seq<Seq<char>>) -> FsView {
        FsView { entries: self.entries.remove(self.index_of(path)), ..self }
    }

    /// The same file system without what is at or below `dir`.
    pub open spec fn without_tree(self, dir: Seq<Seq<char>>) -> FsView {
        FsView { entries: prune(self.entries, dir), ..self }
    }

    /// A new entry at the place that `p` names, where nothing is there yet
    /// and the directory to hold it exists.
    pub open spec fn make(self, p: PathView, node: NodeView) -> Result<FsView, IoErrorKind> {
        match self.slot(p) {
            Err(k) => Err(k),
            Ok(q) => if self.node_at(q) is Some {
                Err(IoErrorKind::AlreadyExists)
            } else {
                Ok(self.with_entry(q, node))
            },
        }
    }

    /// A new symbolic link at `link` that stores `target`.
    pub open spec fn symlink(self, link: PathView, target: PathView) -> Result<
        FsView,
        IoErrorKind,
    > {
        if !self.links_allowed {
            Err(IoErrorKind::PermissionDenied)
        } else {
            self.make(link, NodeView::Link(target))
        }
    }

    /// A new directory at `p`.
    pub open spec fn create_dir(self, p: PathView) -> Result<FsView, IoErrorKind> {
        self.make(p, NodeView::Dir)
    }

    /// The directory at `p` and every directory missing on the way to it.
    pub open spec fn create_dir_all(self, p: PathView) -> Result<FsView, IoErrorKind> {
        match reach_in(self.entries, self.base(p), p.names, MAX_LINK_HOPS as nat) {
            Err(k) => Err(k),
            Ok((dir, rest)) => Ok(FsView { entries: grow(self.entries, dir, rest), ..self }),
        }
    }

    /// The bytes of the file that `p` leads to.
    pub open spec fn read(self, p: PathView) -> Result<Seq<u8>, IoErrorKind> {
        match self.locate(p, true) {
            Err(k) => Err(k),
            Ok(q) => match self.node_at(q) {
                Some(NodeView::File(data)) => Ok(data),
                Some(NodeView::Dir) => Err(IoErrorKind::IsADirectory),
                _ => Err(IoErrorKind::InvalidInput),
            },
        }
    }

    /// The file that `p` leads to holds `data`; where `p` leads to nothing,
    /// a file is made there.
    pub open spec fn write(self, p: PathView, data: Seq<u8>) -> Result<FsView, IoErrorKind> {
        match self.locate(p, true) {
            Ok(q) => match self.node_at(q) {
                Some(NodeView::File(_)) => Ok(
                    FsView {
                        entries: self.entries.update(
                            self.index_of(q),
                            EntryView { path: q, node: NodeView::File(data) },
                        ),
                        ..self
                    },
                ),
                Some(NodeView::Dir) => Err(IoErrorKind::IsADirectory),
                _ => Err(IoErrorKind::InvalidInput),
            },
            Err(IoErrorKind::NotFound) => self.make(p, NodeView::File(data)),
            Err(k) => Err(k),
        }
    }

    /// The file that `to` names holds the bytes of the file at `from`.
    pub open spec fn copy(self, from: PathView, to: PathView) -> Result<FsView, IoErrorKind> {
        match self.read(from) {
            Err(k) => Err(k),
            Ok(data) => self.write(to, data),
        }
    }

    /// The file or link that `p` names is removed; a link is not followed.
    pub open spec fn remove_file(self, p: PathView) -> Result<FsView, IoErrorKind> {
        match self.locate(p, false) {
            Err(k) => Err(k),
            Ok(q) => match self.node_at(q) {
                Some(NodeView::Dir) => Err(IoErrorKind::IsADirectory),
                Some(_) => Ok(self.without_entry(q)),
                None => Err(IoErrorKind::NotFound),
            },
        }
    }

    /// The empty directory that `p` names is removed.
    pub open spec fn remove_dir(self, p: PathView) -> Result<FsView, IoErrorKind> {
        match self.locate(p, false) {
            Err(k) => Err(k),
            Ok(q) => if q.len() == 0 {
                Err(IoErrorKind::InvalidInput)
            } else {
                match self.node_at(q) {
                    Some(NodeView::Dir) => if listing(self.entries, q).len() > 0 {
                        Err(IoErrorKind::DirectoryNotEmpty)
                    } else {
                        Ok(self.without_entry(q))
                    },
                    Some(_) => Err(IoErrorKind::NotADirectory),
                    None => Err(IoErrorKind::NotFound),
                }
            },
        }
    }

    /// What `from` names is moved to the place that `to` names, with all
    /// below it. A file or link takes the place of a file or link; a
    /// directory takes the place of an empty directory.
    pub open spec fn rename(self, from: PathView, to: PathView) -> Result<FsView, IoErrorKind> {
        match self.locate(from, false) {
            Err(k) => Err(k),
            Ok(a) => match self.slot(to) {
                Err(k) => Err(k),
                Ok(b) => if a.len() == 0 {
                    Err(IoErrorKind::InvalidInput)
                } else if a == b {
                    Ok(self)
                } else if is_under(b, a) {
                    Err(IoErrorKind::InvalidInput)
                } else {
                    match (self.node_at(a), self.node_at(b)) {
                        (None, _) => Err(IoErrorKind::NotFound),
                        (Some(_), None) => Ok(self.rerooted(a, b)),
                        (Some(NodeView::Dir), Some(NodeView::Dir)) => if listing(
                            self.entries,
                            b,
                        ).len() > 0 {
                            Err(IoErrorKind::DirectoryNotEmpty)
                        } else {
                            Ok(self.without_entry(b).rerooted(a, b))
                        },
                        (Some(NodeView::Dir), Some(_)) => Err(IoErrorKind::NotADirectory),
                        (Some(_), Some(NodeView::Dir)) => Err(IoErrorKind::IsADirectory),
                        (Some(_), Some(_)) => Ok(self.without_entry(b).rerooted(a, b)),
                    }
                },
            },
        }
    }

    /// The same file system with what is at or below `a` moved to `b`.
    pub open spec fn rerooted(self, a: Seq<Seq<char>>, b: Seq<Seq<char>>) -> FsView {
        FsView { entries: self.entries.map_values(|e: EntryView| moved_entry(e, a, b)), ..self }
    }

    /// The directory that `p` names is removed with all below it; a link is
    /// removed alone.
    pub open spec fn remove_dir_all(self, p: PathView) -> Result<FsView, IoErrorKind> {
        match self.locate(p, false) {
            Err(k) => Err(k),
            Ok(q) => match self.node_at(q) {
                Some(NodeView::Dir) => Ok(self.without_tree(q)),
                Some(NodeView::Link(_)) => Ok(self.without_entry(q)),
                Some(NodeView::File(_)) => Err(IoErrorKind::NotADirectory),
                None => Err(IoErrorKind::NotFound),
            },
        }
    }
}

/// Whether a change left the file system as the model says: on success the
/// model's result with the change entered in the journal, on failure the
/// file system as it was, with the model's error.
pub open spec fn outcome(
    pre: FsView,
    post: FsView,
    r: Result<(), IoErrorKind>,
    want: Result<FsView, IoErrorKind>,
    op: FsOpView,
) -> bool {
    match want {
        Ok(fs) => r is Ok && post == fs.logged(op),
        Err(k) => r == Err::<(), IoErrorKind>(k) && post == pre,
    }
}

/// Making the directories on the way to `path`, its last name left out:
/// nothing where they are there, or where `path` has no name.
pub open spec fn ensure_parent_dirs_spec(fs: FsView, path: PathView) -> Step {
    match path.parent() {
        None => Step { fs, err: None },
        Some(parent) => if fs.present(parent) {
            Step { fs, err: None }
        } else {
            match fs.create_dir_all(parent) {
                Ok(fs1) => Step {
                    fs: fs1.logged(FsOpView::CreateDirAll { path: parent }),
                    err: None,
                },
                Err(k) => Step { fs, err: Some(ErrorView::IoError { path: parent, source: k }) },
            }
        },
    }
}

/// Making a link at `link` that stores `target`, after the directories on
/// the way to it. A refusal for want of privilege is told apart from other
/// failures.
pub open spec fn create_symlink_spec(
    fs: FsView,
    link: PathView,
    target: PathView,
    is_directory: bool,
) -> Step {
    let first = ensure_parent_dirs_spec(fs, link);
    if first.err is Some {
        first
    } else {
        match first.fs.symlink(link, target) {
            Ok(fs2) => Step {
                fs: fs2.logged(FsOpView::Symlink { link, target, is_directory }),
                err: None,
            },
            Err(IoErrorKind::PermissionDenied) => Step {
                fs: first.fs,
                err: Some(ErrorView::PermissionDenied("Cannot create symlink at "@ + link.text())),
            },
            Err(k) => Step {
                fs: first.fs,
                err: Some(
                    ErrorView::SymlinkError {
                        path: link,
                        message: "Failed to create symlink: "@ + k.text(),
                    },
                ),
            },
        }
    }
}

/// Whether `path` leads to a directory without entries.
pub open spec fn is_empty_directory_spec(fs: FsView, path: PathView) -> Result<bool, ErrorView> {
    if !fs.is_dir(path) {
        Ok(false)
    } else {
        match fs.read_dir(path) {
            Ok(lines) => Ok(lines.len() == 0),
            Err(k) => Err(ErrorView::IoError { path, source: k }),
        }
    }
}

/// Removing the directory at `path` if it is empty.
pub open spec fn remove_empty_directory_spec(fs: FsView, path: PathView) -> Step {
    match is_empty_directory_spec(fs, path) {
        Err(e) => Step { fs, err: Some(e) },
        Ok(false) => Step { fs, err: Some(ErrorView::DirectoryNotEmpty(path)) },
        Ok(true) => match fs.remove_dir(path) {
            Ok(fs1) => Step { fs: fs1.logged(FsOpView::RemoveDir { path }), err: None },
            Err(k) => Step { fs, err: Some(ErrorView::IoError { path, source: k }) },
        },
    }
}

/// No location is longer than the longest.
pub proof fn lemma_max_len(entries: Seq<EntryView>, i: int)
    requires
        0 <= i < entries.len(),
    ensures
        entries[i].path.len() <= max_len(entries),
    decreases entries.len(),
{
    if i < entries.len() - 1 {
        lemma_max_len(entries.drop_last(), i);
    }
}

/// Each line of a listing stands for an entry directly inside the
/// directory, and says whether that entry is a directory.
pub proof fn lemma_listing_line(entries: Seq<EntryView>, dir: Seq<Seq<char>>, j: int)
    requires
        0 <= j < listing(entries, dir).len(),
    ensures
        exists|i: int|
            0 <= i < entries.len() && (#[trigger] entries[i]).path == dir.push(
                listing(entries, dir)[j].name,
            ) && listing(entries, dir)[j].is_dir == (entries[i].node is Dir),
    decreases entries.len(),
{
    let rest = listing(entries.drop_last(), dir);
    let e = entries.last();
    let n = entries.len() - 1;
    if is_child(e, dir) && j == rest.len() {
        assert(e.path =~= dir.push(e.path.last()));
        assert(entries[n].path == dir.push(listing(entries, dir)[j].name));
    } else {
        lemma_listing_line(entries.drop_last(), dir, j);
        let i = choose|i: int|
            0 <= i < entries.drop_last().len() && (#[trigger] entries.drop_last()[i]).path
                == dir.push(rest[j].name) && rest[j].is_dir == (entries.drop_last()[i].node is Dir);
        assert(entries[i] == entries.drop_last()[i]);
    }
}

/// Where no location is entered twice, no name is listed twice.
pub proof fn lemma_listing_distinct(entries: Seq<EntryView>, dir: Seq<Seq<char>>)
    requires
        forall|i: int, j: int|
            0 <= i < j < entries.len() ==> (#[trigger] entries[i]).path != (
            #[trigger] entries[j]).path,
    ensures
        names_distinct(listing(entries, dir)),
    decreases entries.len(),
{
    if entries.len() > 0 {
        let init = entries.drop_last();
        let rest = listing(init, dir);
        let e = entries.last();
        let n = entries.len() - 1;
        assert forall|i: int, j: int| 0 <= i < j < init.len() implies (#[trigger] init[i]).path != (
        #[trigger] init[j]).path by {
            assert(init[i] == entries[i]);
            assert(init[j] == entries[j]);
        }
        lemma_listing_distinct(init, dir);
        if is_child(e, dir) {
            let all = listing(entries, dir);
            assert forall|i: int, j: int| 0 <= i < j < all.len() implies (#[trigger] all[i]).name
                != (#[trigger] all[j]).name by {
                if j == rest.len() {
                    lemma_listing_line(init, dir, i);
                    let k = choose|k: int|
                        0 <= k < init.len() && (#[trigger] init[k]).path == dir.push(rest[i].name)
                            && rest[i].is_dir == (init[k].node is Dir);
                    assert(init[k] == entries[k]);
                    assert(e.path =~= dir.push(e.path.last()));
                    assert(entries[k].path != entries[n].path);
                } else {
                    assert(all[i] == rest[i]);
                    assert(all[j] == rest[j]);
                }
            }
        }
    }
}

/// A listing does not shrink as entries are added.
pub proof fn lemma_listing_grows(entries: Seq<EntryView>, dir: Seq<Seq<char>>, k: int)
    requires
        0 <= k <= entries.len(),
    ensures
        listing(entries.take(k), dir).len() <= listing(entries, dir).len(),
    decreases entries.len() - k,
{
    if k < entries.len() {
        lemma_listing_grows(entries, dir, k + 1);
        assert(entries.take(k + 1).drop_last() =~= entries.take(k));
    } else {
        assert(entries.take(k) =~= entries);
    }
}

/// What is no directory has nothing inside it.
pub proof fn lemma_leaf_childless(fs: FsView, q: Seq<Seq<char>>)
    requires
        fs.wf(),
        fs.node_at(q) != Some(NodeView::Dir),
    ensures
        forall|i: int| 0 <= i < fs.entries.len() ==> !is_child(#[trigger] fs.entries[i], q),
{
    assert forall|i: int| 0 <= i < fs.entries.len() implies !is_child(
        #[trigger] fs.entries[i],
        q,
    ) by {
        lemma_parent(fs, i);
    }
}

/// Where the walk for new directories stops, a directory is, and nothing is
/// there under the first name left.
pub proof fn lemma_reach(
    entries: Seq<EntryView>,
    cur: Seq<Seq<char>>,
    rest: Seq<Seq<char>>,
    fuel: nat,
)
    requires
        node_in(entries, cur) == Some(NodeView::Dir),
        reach_in(entries, cur, rest, fuel) is Ok,
    ensures
        node_in(entries, reach_in(entries, cur, rest, fuel)->Ok_0.0) == Some(NodeView::Dir),
        reach_in(entries, cur, rest, fuel)->Ok_0.1.len() > 0 ==> node_in(
            entries,
            reach_in(entries, cur, rest, fuel)->Ok_0.0.push(
                reach_in(entries, cur, rest, fuel)->Ok_0.1[0],
            ),
        ) is None,
    decreases fuel, rest.len(),
{
    if rest.len() > 0 {
        let p = cur.push(rest[0]);
        match node_in(entries, p) {
            None => {},
            Some(NodeView::File(_)) => {},
            Some(NodeView::Dir) => {
                lemma_reach(entries, p, rest.skip(1), fuel);
            },
            Some(NodeView::Link(t)) => {
                let q = walk_in(entries, link_base(cur, t), t.names, true, (fuel - 1) as nat)->Ok_0;
                lemma_reach(entries, q, rest.skip(1), (fuel - 1) as nat);
            },
        }
    }
}

/// Nothing lies inside a location where nothing is.
pub proof fn lemma_orphan(fs: FsView, x: Seq<Seq<char>>, name: Seq<char>)
    requires
        fs.wf(),
        fs.node_at(x) is None,
    ensures
        !fs.has(x.push(name)),
        fs.node_at(x.push(name)) is None,
{
    if fs.has(x.push(name)) {
        let i = fs.index_of(x.push(name));
        assert(fs.entries[i].path.drop_last() =~= x);
        lemma_parent(fs, i);
    }
    lemma_absent(fs, x.push(name));
}

/// What is at one location once the node of the entry at `q` was replaced.
proof fn lemma_replaced_node(fs: FsView, k: int, node: NodeView, x: Seq<Seq<char>>)
    requires
        fs.wf(),
        0 <= k < fs.entries.len(),
    ensures
        node_in(fs.entries.update(k, EntryView { path: fs.entries[k].path, node }), x) == if x
            == fs.entries[k].path {
            Some(node)
        } else {
            fs.node_at(x)
        },
{
    reveal(node_in);
    let q = fs.entries[k].path;
    let e2 = fs.entries.update(k, EntryView { path: q, node });
    if x.len() > 0 {
        if has_entry(e2, x) {
            let j = index_in(e2, x);
            assert(e2[j].path == x);
            assert(fs.entries[j].path == x);
            lemma_node_at(fs, j);
        } else if fs.has(x) {
            let i = fs.index_of(x);
            assert(e2[i].path == x);
        }
    }
}

/// Replacing what a file holds leaves the tree a tree.
pub proof fn lemma_replaced(fs: FsView, k: int, data: Seq<u8>)
    requires
        fs.wf(),
        0 <= k < fs.entries.len(),
        fs.entries[k].node is File,
    ensures
        entries_wf(
            fs.entries.update(k, EntryView { path: fs.entries[k].path, node: NodeView::File(data) }),
        ),
{
    let q = fs.entries[k].path;
    let node = NodeView::File(data);
    let e2 = fs.entries.update(k, EntryView { path: q, node });
    assert(parents_are_dirs(e2)) by {
        assert forall|i: int| 0 <= i < e2.len() implies node_in(
            e2,
            (#[trigger] e2[i]).path.drop_last(),
        ) == Some(NodeView::Dir) by {
            assert(e2[i].path == fs.entries[i].path);
            lemma_parent(fs, i);
            lemma_replaced_node(fs, k, node, fs.entries[i].path.drop_last());
            if fs.entries[i].path.drop_last() == q {
                lemma_node_at(fs, k);
            }
        }
        reveal(parents_are_dirs);
    }
    assert forall|i: int, j: int| 0 <= i < j < e2.len() implies (#[trigger] e2[i]).path != (
    #[trigger] e2[j]).path by {
        assert(e2[i].path == fs.entries[i].path);
        assert(e2[j].path == fs.entries[j].path);
    }
    assert forall|i: int| 0 <= i < e2.len() implies (#[trigger] e2[i]).path.len() > 0 by {
        assert(e2[i].path == fs.entries[i].path);
    }
    assert forall|i: int| 0 <= i < e2.len() implies ((#[trigger] e2[i]).node matches NodeView::Link(
        t,
    ) ==> t.wf()) by {
        if i != k {
            assert(e2[i] == fs.entries[i]);
        }
    }
}

/// No entry has a location at which nothing is.
pub proof fn lemma_present_has(fs: FsView, x: Seq<Seq<char>>)
    requires
        x.len() > 0,
        fs.node_at(x) is None,
    ensures
        !fs.has(x),
{
    reveal(node_in);
}

/// The slot of a path lies in a directory.
pub proof fn lemma_slot_parent(fs: FsView, p: PathView)
    requires
        fs.slot(p) is Ok,
    ensures
        fs.slot(p)->Ok_0.len() > 0,
        fs.node_at(fs.slot(p)->Ok_0.drop_last()) == Some(NodeView::Dir),
{
    let d = fs.walk(fs.base(p), p.names.drop_last(), true, MAX_LINK_HOPS as nat)->Ok_0;
    assert(d.push(p.names.last()).drop_last() =~= d);
}

/// The root is a directory.
pub proof fn lemma_root(fs: FsView)
    ensures
        fs.node_at(Seq::empty()) == Some(NodeView::Dir),
{
    reveal(node_in);
}

/// Nothing is at a location that no entry has.
pub proof fn lemma_absent(fs: FsView, x: Seq<Seq<char>>)
    requires
        x.len() > 0,
        !fs.has(x),
    ensures
        fs.node_at(x) is None,
{
    reveal(node_in);
}

/// Only the root and the locations of entries hold something.
pub proof fn lemma_present(fs: FsView, x: Seq<Seq<char>>)
    requires
        fs.node_at(x) is Some,
    ensures
        x.len() == 0 || fs.has(x),
{
    reveal(node_in);
}

/// The directory that holds an entry.
pub proof fn lemma_parent(fs: FsView, i: int)
    requires
        fs.wf(),
        0 <= i < fs.entries.len(),
    ensures
        fs.node_at(fs.entries[i].path.drop_last()) == Some(NodeView::Dir),
{
    reveal(parents_are_dirs);
}

/// Two entries of a well-formed file system at one location are one entry.
pub proof fn lemma_unique(fs: FsView, i: int, j: int)
    requires
        fs.wf(),
        0 <= i < fs.entries.len(),
        0 <= j < fs.entries.len(),
        fs.entries[i].path == fs.entries[j].path,
    ensures
        i == j,
{
    if i < j {
        assert(fs.entries[i].path != fs.entries[j].path);
    }
    if j < i {
        assert(fs.entries[j].path != fs.entries[i].path);
    }
}

/// The entry at a location is the one that the model names.
pub proof fn lemma_node_at(fs: FsView, i: int)
    requires
        fs.wf(),
        0 <= i < fs.entries.len(),
    ensures
        fs.has(fs.entries[i].path),
        fs.index_of(fs.entries[i].path) == i,
        fs.node_at(fs.entries[i].path) == Some(fs.entries[i].node),
{
    reveal(node_in);
    let x = fs.entries[i].path;
    let j = fs.index_of(x);
    assert(fs.entries[j].path == x);
    lemma_unique(fs, i, j);
}

/// What is at one location once an entry was added at the new location `q`.
proof fn lemma_added_node(fs: FsView, q: Seq<Seq<char>>, node: NodeView, x: Seq<Seq<char>>)
    requires
        fs.wf(),
        q.len() > 0,
        !fs.has(q),
    ensures
        fs.with_entry(q, node).node_at(x) == if x == q {
            Some(node)
        } else {
            fs.node_at(x)
        },
{
    reveal(node_in);
    let fs2 = fs.with_entry(q, node);
    let n = fs.entries.len() as int;
    assert(fs2.entries[n].path == q);
    if x.len() > 0 {
        if fs2.has(x) {
            let j = fs2.index_of(x);
            if j < n {
                assert(fs2.entries[j] == fs.entries[j]);
                assert(fs.entries[j].path == x);
                lemma_node_at(fs, j);
            }
        } else if fs.has(x) {
            let i = fs.index_of(x);
            assert(fs2.entries[i].path == x);
        }
    }
}

/// What the model says of a location once an entry was added at a new one.
pub proof fn lemma_with_entry(fs: FsView, q: Seq<Seq<char>>, node: NodeView)
    requires
        fs.wf(),
        q.len() > 0,
        !fs.has(q),
        fs.node_at(q.drop_last()) == Some(NodeView::Dir),
        node matches NodeView::Link(t) ==> t.wf(),
    ensures
        fs.with_entry(q, node).wf(),
        forall|x: Seq<Seq<char>>|
            #[trigger] fs.with_entry(q, node).node_at(x) == if x == q {
                Some(node)
            } else {
                fs.node_at(x)
            },
{
    let fs2 = fs.with_entry(q, node);
    let n = fs.entries.len() as int;
    assert(fs2.entries[n].path == q);
    assert forall|x: Seq<Seq<char>>| #[trigger] fs2.node_at(x) == if x == q {
        Some(node)
    } else {
        fs.node_at(x)
    } by {
        lemma_added_node(fs, q, node, x);
    }
    assert(parents_are_dirs(fs2.entries)) by {
        assert forall|i: int| 0 <= i < fs2.entries.len() implies fs2.node_at(
            (#[trigger] fs2.entries[i]).path.drop_last(),
        ) == Some(NodeView::Dir) by {
            let d = fs2.entries[i].path.drop_last();
            lemma_added_node(fs, q, node, d);
            if i < n {
                assert(fs2.entries[i] == fs.entries[i]);
                lemma_parent(fs, i);
            }
            if d == q {
                lemma_absent(fs, q);
            }
        }
        reveal(parents_are_dirs);
    }
    assert forall|i: int, j: int| 0 <= i < j < fs2.entries.len() implies (
    #[trigger] fs2.entries[i]).path != (#[trigger] fs2.entries[j]).path by {
        if j < n {
            assert(fs.entries[i].path != fs.entries[j].path);
        } else {
            assert(fs.entries[i].path != q);
        }
    }
}

/// What is at one location once the entry at `q` was removed.
proof fn lemma_removed_node(fs: FsView, q: Seq<Seq<char>>, x: Seq<Seq<char>>)
    requires
        fs.wf(),
        fs.has(q),
    ensures
        fs.without_entry(q).node_at(x) == if x == q && q.len() > 0 {
            None
        } else {
            fs.node_at(x)
        },
{
    reveal(node_in);
    let fs2 = fs.without_entry(q);
    let k = fs.index_of(q);
    assert(fs.entries[k].path == q);
    if x.len() > 0 {
        if fs2.has(x) {
            let j = fs2.index_of(x);
            let j1 = if j < k {
                j
            } else {
                j + 1
            };
            assert(fs2.entries[j] == fs.entries[j1]);
            assert(fs.entries[j1].path == x);
            lemma_node_at(fs, j1);
            if x == q {
                lemma_unique(fs, j1, k);
            }
        } else if fs.has(x) {
            let i = fs.index_of(x);
            assert(fs.entries[i].path == x);
            if i != k {
                let i2 = if i < k {
                    i
                } else {
                    i - 1
                };
                assert(fs2.entries[i2] == fs.entries[i]);
                assert(fs2.entries[i2].path == x);
            }
        }
    }
}

/// What the model says of a location once a childless entry was removed.
pub proof fn lemma_without_entry(fs: FsView, q: Seq<Seq<char>>)
    requires
        fs.wf(),
        fs.has(q),
        forall|i: int| 0 <= i < fs.entries.len() ==> !is_child(#[trigger] fs.entries[i], q),
    ensures
        fs.without_entry(q).wf(),
        forall|x: Seq<Seq<char>>|
            #[trigger] fs.without_entry(q).node_at(x) == if x == q && q.len() > 0 {
                None
            } else {
                fs.node_at(x)
            },
{
    let fs2 = fs.without_entry(q);
    let k = fs.index_of(q);
    assert(fs.entries[k].path == q);
    assert forall|x: Seq<Seq<char>>| #[trigger] fs2.node_at(x) == if x == q && q.len() > 0 {
        None
    } else {
        fs.node_at(x)
    } by {
        lemma_removed_node(fs, q, x);
    }
    assert(parents_are_dirs(fs2.entries)) by {
        assert forall|i: int| 0 <= i < fs2.entries.len() implies fs2.node_at(
            (#[trigger] fs2.entries[i]).path.drop_last(),
        ) == Some(NodeView::Dir) by {
            let i1 = if i < k {
                i
            } else {
                i + 1
            };
            assert(fs2.entries[i] == fs.entries[i1]);
            assert(!is_child(fs.entries[i1], q));
            lemma_parent(fs, i1);
            lemma_removed_node(fs, q, fs.entries[i1].path.drop_last());
        }
        reveal(parents_are_dirs);
    }
    assert forall|i: int, j: int| 0 <= i < j < fs2.entries.len() implies (
    #[trigger] fs2.entries[i]).path != (#[trigger] fs2.entries[j]).path by {
        let i1 = if i < k {
            i
        } else {
            i + 1
        };
        let j1 = if j < k {
            j
        } else {
            j + 1
        };
        assert(fs2.entries[i] == fs.entries[i1]);
        assert(fs2.entries[j] == fs.entries[j1]);
        if fs.entries[i1].path == fs.entries[j1].path {
            lemma_unique(fs, i1, j1);
        }
    }
    assert forall|i: int| 0 <= i < fs2.entries.len() implies (#[trigger] fs2.entries[i]).path.len()
        > 0 by {
        let i1 = if i < k {
            i
        } else {
            i + 1
        };
        assert(fs2.entries[i] == fs.entries[i1]);
    }
    assert forall|i: int| 0 <= i < fs2.entries.len() implies ((
    #[trigger] fs2.entries[i]).node matches NodeView::Link(t) ==> t.wf()) by {
        let i1 = if i < k {
            i
        } else {
            i + 1
        };
        assert(fs2.entries[i] == fs.entries[i1]);
    }
}

/// A directory whose listing is empty has no entry directly inside it.
pub proof fn lemma_listing_empty(entries: Seq<EntryView>, dir: Seq<Seq<char>>)
    requires
        listing(entries, dir).len() == 0,
    ensures
        forall|i: int| 0 <= i < entries.len() ==> !is_child(#[trigger] entries[i], dir),
    decreases entries.len(),
{
    if entries.len() > 0 {
        let rest = listing(entries.drop_last(), dir);
        if is_child(entries.last(), dir) {
            assert(listing(entries, dir).len() == rest.len() + 1);
        }
        lemma_listing_empty(entries.drop_last(), dir);
        assert forall|i: int| 0 <= i < entries.len() implies !is_child(
            #[trigger] entries[i],
            dir,
        ) by {
            if i < entries.len() - 1 {
                assert(entries.drop_last()[i] == entries[i]);
            }
        }
    }
}

/// Every location on the way to an entry holds a directory.
pub proof fn lemma_ancestors(fs: FsView, i: int, k: int)
    requires
        fs.wf(),
        0 <= i < fs.entries.len(),
        0 <= k < fs.entries[i].path.len(),
    ensures
        fs.node_at(fs.entries[i].path.take(k)) == Some(NodeView::Dir),
    decreases fs.entries[i].path.len() - k,
{
    let x = fs.entries[i].path;
    lemma_parent(fs, i);
    if k == x.len() - 1 {
        assert(x.take(k) =~= x.drop_last());
    } else {
        let d = x.drop_last();
        lemma_present(fs, d);
        let j = fs.index_of(d);
        assert(fs.entries[j].path == d);
        lemma_ancestors(fs, j, k);
        assert(d.take(k) =~= x.take(k));
    }
}

/// Nothing lies below a location that holds no directory.
pub proof fn lemma_nothing_below(fs: FsView, b: Seq<Seq<char>>, i: int)
    requires
        fs.wf(),
        fs.node_at(b) != Some(NodeView::Dir),
        0 <= i < fs.entries.len(),
        is_under(fs.entries[i].path, b),
    ensures
        fs.entries[i].path == b,
{
    let x = fs.entries[i].path;
    if x.len() > b.len() {
        lemma_ancestors(fs, i, b.len() as int);
    } else {
        assert(x.take(b.len() as int) =~= x);
    }
}

/// Moving is one to one on locations that do not lie at or below the place
/// moved to.
proof fn lemma_moved_path_injective(
    x: Seq<Seq<char>>,
    y: Seq<Seq<char>>,
    a: Seq<Seq<char>>,
    b: Seq<Seq<char>>,
)
    requires
        moved_path(x, a, b) == moved_path(y, a, b),
        !is_under(x, a) ==> !is_under(x, b),
        !is_under(y, a) ==> !is_under(y, b),
    ensures
        x == y,
{
    let n = a.len() as int;
    if is_under(x, a) && is_under(y, a) {
        let fx = b + x.skip(n);
        let fy = b + y.skip(n);
        assert(x.skip(n) =~= fx.skip(b.len() as int));
        assert(y.skip(n) =~= fy.skip(b.len() as int));
        assert(x =~= x.take(n) + x.skip(n));
        assert(y =~= y.take(n) + y.skip(n));
    } else if is_under(x, a) {
        assert((b + x.skip(n)).take(b.len() as int) =~= b);
    } else if is_under(y, a) {
        assert((b + y.skip(n)).take(b.len() as int) =~= b);
    }
}

/// What is at one location once what is at or below `a` was moved to the
/// free place `b`.
proof fn lemma_rerooted_node(fs: FsView, a: Seq<Seq<char>>, b: Seq<Seq<char>>, x: Seq<Seq<char>>)
    requires
        fs.wf(),
        a.len() > 0,
        b.len() > 0,
        fs.node_at(b) is None,
        !is_under(b, a),
    ensures
        fs.rerooted(a, b).node_at(x) == if is_under(x, b) {
            fs.node_at(a + x.skip(b.len() as int))
        } else if is_under(x, a) {
            None
        } else {
            fs.node_at(x)
        },
{
    reveal(node_in);
    let fs2 = fs.rerooted(a, b);
    let n = a.len() as int;
    let m = b.len() as int;
    assert forall|i: int| 0 <= i < fs.entries.len() && !is_under(
        (#[trigger] fs.entries[i]).path,
        a,
    ) implies !is_under(fs.entries[i].path, b) by {
        if is_under(fs.entries[i].path, b) {
            lemma_nothing_below(fs, b, i);
            lemma_node_at(fs, i);
        }
    }
    if x.len() > 0 {
        if fs2.has(x) {
            let j = fs2.index_of(x);
            assert(fs2.entries[j] == moved_entry(fs.entries[j], a, b));
            let y = fs.entries[j].path;
            lemma_node_at(fs, j);
            if is_under(y, a) {
                assert(x == b + y.skip(n));
                assert(x.take(m) =~= b);
                assert(x.skip(m) =~= y.skip(n));
                assert(a + x.skip(m) =~= y) by {
                    assert(y =~= y.take(n) + y.skip(n));
                }
            } else {
                assert(x == y);
            }
        } else {
            if is_under(x, b) {
                let y = a + x.skip(m);
                assert(y.take(n) =~= a);
                assert(y.skip(n) =~= x.skip(m));
                assert(b + y.skip(n) =~= x) by {
                    assert(x =~= x.take(m) + x.skip(m));
                }
                if fs.has(y) {
                    let i = fs.index_of(y);
                    assert(fs2.entries[i] == moved_entry(fs.entries[i], a, b));
                    assert(fs2.entries[i].path == x);
                }
            } else if is_under(x, a) {
            } else if fs.has(x) {
                let i = fs.index_of(x);
                assert(fs2.entries[i] == moved_entry(fs.entries[i], a, b));
                assert(fs2.entries[i].path == x);
            }
        }
    } else {
        assert(!is_under(x, a));
        assert(!is_under(x, b));
    }
}

/// Moving what is at or below `a` to a free place `b` inside a directory
/// leaves the tree a tree.
pub proof fn lemma_rerooted(fs: FsView, a: Seq<Seq<char>>, b: Seq<Seq<char>>)
    requires
        fs.wf(),
        a.len() > 0,
        b.len() > 0,
        fs.node_at(b) is None,
        fs.node_at(b.drop_last()) == Some(NodeView::Dir),
        !is_under(b, a),
    ensures
        fs.rerooted(a, b).wf(),
        forall|x: Seq<Seq<char>>|
            #[trigger] fs.rerooted(a, b).node_at(x) == if is_under(x, b) {
                fs.node_at(a + x.skip(b.len() as int))
            } else if is_under(x, a) {
                None
            } else {
                fs.node_at(x)
            },
{
    let fs2 = fs.rerooted(a, b);
    let n = a.len() as int;
    let m = b.len() as int;
    assert forall|x: Seq<Seq<char>>| #[trigger] fs2.node_at(x) == if is_under(x, b) {
        fs.node_at(a + x.skip(b.len() as int))
    } else if is_under(x, a) {
        None
    } else {
        fs.node_at(x)
    } by {
        lemma_rerooted_node(fs, a, b, x);
    }
    assert forall|i: int| 0 <= i < fs.entries.len() && !is_under(
        (#[trigger] fs.entries[i]).path,
        a,
    ) implies !is_under(fs.entries[i].path, b) by {
        if is_under(fs.entries[i].path, b) {
            lemma_nothing_below(fs, b, i);
            lemma_node_at(fs, i);
        }
    }
    assert forall|i: int, j: int| 0 <= i < j < fs2.entries.len() implies (
    #[trigger] fs2.entries[i]).path != (#[trigger] fs2.entries[j]).path by {
        assert(fs2.entries[i] == moved_entry(fs.entries[i], a, b));
        assert(fs2.entries[j] == moved_entry(fs.entries[j], a, b));
        if fs2.entries[i].path == fs2.entries[j].path {
            lemma_moved_path_injective(fs.entries[i].path, fs.entries[j].path, a, b);
            assert(fs.entries[i].path != fs.entries[j].path);
        }
    }
    assert forall|i: int| 0 <= i < fs2.entries.len() implies (#[trigger] fs2.entries[i]).path.len()
        > 0 by {
        assert(fs2.entries[i] == moved_entry(fs.entries[i], a, b));
    }
    assert forall|i: int| 0 <= i < fs2.entries.len() implies ((
    #[trigger] fs2.entries[i]).node matches NodeView::Link(t) ==> t.wf()) by {
        assert(fs2.entries[i] == moved_entry(fs.entries[i], a, b));
    }
    assert(parents_are_dirs(fs2.entries)) by {
        assert forall|i: int| 0 <= i < fs2.entries.len() implies node_in(
            fs2.entries,
            (#[trigger] fs2.entries[i]).path.drop_last(),
        ) == Some(NodeView::Dir) by {
            assert(fs2.entries[i] == moved_entry(fs.entries[i], a, b));
            let y = fs.entries[i].path;
            let p = y.drop_last();
            lemma_parent(fs, i);
            if is_under(y, a) {
                let y2 = b + y.skip(n);
                let moved_parent = y2.drop_last();
                lemma_rerooted_node(fs, a, b, moved_parent);
                if y.len() == n {
                    assert(y.skip(n) =~= Seq::empty());
                    assert(y2 =~= b);
                    assert(!is_under(moved_parent, b));
                    if is_under(moved_parent, a) {
                        assert(b.take(n) =~= moved_parent.take(n));
                    }
                } else {
                    assert(moved_parent =~= b + p.skip(n));
                    assert(moved_parent.take(m) =~= b);
                    assert(moved_parent.skip(m) =~= p.skip(n));
                    assert(p.take(n) =~= y.take(n));
                    assert(a + moved_parent.skip(m) =~= p) by {
                        assert(p =~= p.take(n) + p.skip(n));
                    }
                }
            } else {
                lemma_rerooted_node(fs, a, b, p);
                if is_under(p, a) {
                    assert(y.take(n) =~= p.take(n));
                }
                if is_under(p, b) {
                    if p.len() > 0 {
                        lemma_present(fs, p);
                        let j = fs.index_of(p);
                        assert(fs.entries[j].path == p);
                        lemma_nothing_below(fs, b, j);
                    } else {
                        assert(p.take(m) =~= p);
                    }
                }
            }
        }
        reveal(parents_are_dirs);
    }
}

/// Every entry that is left after pruning is an entry that was there, not
/// at or below the pruned place; and every such entry is left.
pub proof fn lemma_prune_members(entries: Seq<EntryView>, dir: Seq<Seq<char>>)
    ensures
        forall|j: int|
            0 <= j < prune(entries, dir).len() ==> !is_under(
                (#[trigger] prune(entries, dir)[j]).path,
                dir,
            ) && entries.contains(prune(entries, dir)[j]),
        forall|i: int|
            0 <= i < entries.len() && !is_under((#[trigger] entries[i]).path, dir) ==> prune(
                entries,
                dir,
            ).contains(entries[i]),
    decreases entries.len(),
{
    if entries.len() > 0 {
        let init = entries.drop_last();
        let rest = prune(init, dir);
        let all = prune(entries, dir);
        lemma_prune_members(init, dir);
        assert forall|j: int| 0 <= j < all.len() implies !is_under((#[trigger] all[j]).path, dir)
            && entries.contains(all[j]) by {
            if j < rest.len() {
                assert(all[j] == rest[j]);
                assert(init.contains(rest[j]));
                let i = choose|i: int| 0 <= i < init.len() && init[i] == rest[j];
                assert(entries[i] == rest[j]);
            } else {
                assert(all[j] == entries.last());
                assert(entries[entries.len() - 1] == all[j]);
            }
        }
        assert forall|i: int|
            0 <= i < entries.len() && !is_under((#[trigger] entries[i]).path, dir) implies all.contains(
            entries[i],
        ) by {
            if i < init.len() {
                assert(init[i] == entries[i]);
                assert(rest.contains(init[i]));
                let j = choose|j: int| 0 <= j < rest.len() && rest[j] == init[i];
                assert(all[j] == rest[j]);
            } else {
                assert(all[all.len() - 1] == entries[i]);
            }
        }
    }
}

/// Pruning keeps locations distinct.
proof fn lemma_prune_distinct(entries: Seq<EntryView>, dir: Seq<Seq<char>>)
    requires
        forall|i: int, j: int|
            0 <= i < j < entries.len() ==> (#[trigger] entries[i]).path != (
            #[trigger] entries[j]).path,
    ensures
        forall|i: int, j: int|
            0 <= i < j < prune(entries, dir).len() ==> (#[trigger] prune(entries, dir)[i]).path != (
            #[trigger] prune(entries, dir)[j]).path,
    decreases entries.len(),
{
    if entries.len() > 0 {
        let init = entries.drop_last();
        let rest = prune(init, dir);
        let all = prune(entries, dir);
        assert forall|i: int, j: int| 0 <= i < j < init.len() implies (#[trigger] init[i]).path != (
        #[trigger] init[j]).path by {
            assert(init[i] == entries[i]);
            assert(init[j] == entries[j]);
        }
        lemma_prune_distinct(init, dir);
        lemma_prune_members(init, dir);
        assert forall|i: int, j: int| 0 <= i < j < all.len() implies (#[trigger] all[i]).path != (
        #[trigger] all[j]).path by {
            if j < rest.len() {
                assert(all[i] == rest[i]);
                assert(all[j] == rest[j]);
            } else {
                assert(all[i] == rest[i]);
                assert(init.contains(rest[i]));
                let k = choose|k: int| 0 <= k < init.len() && init[k] == rest[i];
                assert(entries[k] == rest[i]);
                assert(entries[k].path != entries[entries.len() - 1].path);
            }
        }
    }
}

/// What is at one location once all at or below `dir` was removed.
proof fn lemma_pruned_node(fs: FsView, dir: Seq<Seq<char>>, x: Seq<Seq<char>>)
    requires
        fs.wf(),
    ensures
        fs.without_tree(dir).node_at(x) == if is_under(x, dir) && x.len() > 0 {
            None
        } else {
            fs.node_at(x)
        },
{
    reveal(node_in);
    let fs2 = fs.without_tree(dir);
    lemma_prune_members(fs.entries, dir);
    if x.len() > 0 {
        if fs2.has(x) {
            let j = fs2.index_of(x);
            assert(fs.entries.contains(fs2.entries[j]));
            let i = choose|i: int| 0 <= i < fs.entries.len() && fs.entries[i] == fs2.entries[j];
            lemma_node_at(fs, i);
        } else if fs.has(x) && !is_under(x, dir) {
            let i = fs.index_of(x);
            assert(fs.entries[i].path == x);
            assert(fs2.entries.contains(fs.entries[i]));
            let j = choose|j: int| 0 <= j < fs2.entries.len() && fs2.entries[j] == fs.entries[i];
            assert(fs2.entries[j].path == x);
        }
    }
}

/// Removing all at or below a place leaves the tree a tree.
pub proof fn lemma_pruned(fs: FsView, dir: Seq<Seq<char>>)
    requires
        fs.wf(),
    ensures
        fs.without_tree(dir).wf(),
        forall|x: Seq<Seq<char>>|
            #[trigger] fs.without_tree(dir).node_at(x) == if is_under(x, dir) && x.len() > 0 {
                None
            } else {
                fs.node_at(x)
            },
{
    let fs2 = fs.without_tree(dir);
    lemma_prune_members(fs.entries, dir);
    lemma_prune_distinct(fs.entries, dir);
    assert forall|x: Seq<Seq<char>>| #[trigger] fs2.node_at(x) == if is_under(x, dir) && x.len()
        > 0 {
        None
    } else {
        fs.node_at(x)
    } by {
        lemma_pruned_node(fs, dir, x);
    }
    assert forall|j: int| 0 <= j < fs2.entries.len() implies (#[trigger] fs2.entries[j]).path.len()
        > 0 by {
        assert(fs.entries.contains(fs2.entries[j]));
    }
    assert forall|j: int| 0 <= j < fs2.entries.len() implies ((
    #[trigger] fs2.entries[j]).node matches NodeView::Link(t) ==> t.wf()) by {
        assert(fs.entries.contains(fs2.entries[j]));
    }
    assert(parents_are_dirs(fs2.entries)) by {
        assert forall|j: int| 0 <= j < fs2.entries.len() implies node_in(
            fs2.entries,
            (#[trigger] fs2.entries[j]).path.drop_last(),
        ) == Some(NodeView::Dir) by {
            assert(fs.entries.contains(fs2.entries[j]));
            let i = choose|i: int| 0 <= i < fs.entries.len() && fs.entries[i] == fs2.entries[j];
            let y = fs.entries[i].path;
            let p = y.drop_last();
            lemma_parent(fs, i);
            lemma_pruned_node(fs, dir, p);
            if is_under(p, dir) {
                assert(y.take(dir.len() as int) =~= p.take(dir.len() as int));
            }
        }
        reveal(parents_are_dirs);
    }
}

} // verus!
