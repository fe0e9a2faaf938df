//! An in-memory file system that records every change made to it, and the
//! primitives that the planner and the executor consume.
//!
//! Entries are kept in the order in which they were made; that order is the
//! order in which a directory is listed.

use vstd::prelude::*;
use vstd::string::*;
use crate::error::{ErrorView, IoErrorKind, StowError};
use crate::fs_model::{
    create_symlink_spec, ensure_parent_dirs_spec, grow, is_child, is_empty_directory_spec, is_under,
    lemma_absent, lemma_leaf_childless, lemma_listing_empty, lemma_listing_grows, lemma_node_at,
    lemma_orphan, lemma_present_has, lemma_pruned, lemma_reach, lemma_replaced, lemma_rerooted,
    lemma_root, lemma_slot_parent, lemma_with_entry, lemma_without_entry, link_base, listing,
    moved_entry, outcome, parents_are_dirs, prune, reach_in, remove_empty_directory_spec,
    DirEntryView, EntryView, FsOpView, FsView, MAX_LINK_HOPS, NodeView, Step,
};
use crate::path_utils::{extend_names, names_equal, PathView, StowPath};

verus! {

/// What an entry holds.
#[derive(Debug)]
pub enum Node {
    /// A regular file and its bytes.
    File(Vec<u8>),
    /// A directory.
    Dir,
    /// A symbolic link and the target stored in it.
    Link(StowPath),
}

impl View for Node {
    type V = NodeView;

    open spec fn view(&self) -> NodeView {
        match self {
            Node::File(data) => NodeView::File(data@),
            Node::Dir => NodeView::Dir,
            Node::Link(target) => NodeView::Link(target@),
        }
    }
}

impl Node {
    /// A copy of the node.
    pub fn duplicate(&self) -> (r: Node)
        ensures
            r@ == self@,
    {
        match self {
            Node::File(data) => Node::File(data.clone()),
            Node::Dir => Node::Dir,
            Node::Link(target) => Node::Link(target.clone()),
        }
    }
}

/// An entry of the file system.
#[derive(Debug)]
pub struct Entry {
    path: Vec<String>,
    node: Node,
}

impl View for Entry {
    type V = EntryView;

    closed spec fn view(&self) -> EntryView {
        EntryView { path: self.path.deep_view(), node: self.node@ }
    }
}

/// A change that was made to the file system, as the journal records it.
#[derive(Debug)]
pub enum FsOp {
    Symlink { link: StowPath, target: StowPath, is_directory: bool },
    RemoveFile { path: StowPath },
    CreateDir { path: StowPath },
    CreateDirAll { path: StowPath },
    RemoveDir { path: StowPath },
    RemoveDirAll { path: StowPath },
    Rename { from: StowPath, to: StowPath },
    Copy { from: StowPath, to: StowPath },
    Write { path: StowPath, data: Vec<u8> },
}

impl View for FsOp {
    type V = FsOpView;

    open spec fn view(&self) -> FsOpView {
        match self {
            FsOp::Symlink { link, target, is_directory } => FsOpView::Symlink {
                link: link@,
                target: target@,
                is_directory: *is_directory,
            },
            FsOp::RemoveFile { path } => FsOpView::RemoveFile { path: path@ },
            FsOp::CreateDir { path } => FsOpView::CreateDir { path: path@ },
            FsOp::CreateDirAll { path } => FsOpView::CreateDirAll { path: path@ },
            FsOp::RemoveDir { path } => FsOpView::RemoveDir { path: path@ },
            FsOp::RemoveDirAll { path } => FsOpView::RemoveDirAll { path: path@ },
            FsOp::Rename { from, to } => FsOpView::Rename { from: from@, to: to@ },
            FsOp::Copy { from, to } => FsOpView::Copy { from: from@, to: to@ },
            FsOp::Write { path, data } => FsOpView::Write { path: path@, data: data@ },
        }
    }
}

/// One line of a directory listing.
#[derive(Debug)]
pub struct DirEntry {
    pub name: String,
    pub is_dir: bool,
}

impl View for DirEntry {
    type V = DirEntryView;

    open spec fn view(&self) -> DirEntryView {
        DirEntryView { name: self.name@, is_dir: self.is_dir }
    }
}

/// An in-memory file system that records every change made to it.
#[derive(Debug)]
pub struct FileSystem {
    entries: Vec<Entry>,
    links_allowed: bool,
    journal: Vec<FsOp>,
}

impl View for FileSystem {
    type V = FsView;

    closed spec fn view(&self) -> FsView {
        FsView {
            entries: self.entries@.map_values(|e: Entry| e@),
            links_allowed: self.links_allowed,
            journal: self.journal@.map_values(|o: FsOp| o@),
        }
    }
}

/// The views of a list of directory entries.
pub open spec fn listing_view(v: Seq<DirEntry>) -> Seq<DirEntryView> {
    v.map_values(|e: DirEntry| e@)
}

/// Whether an exec result of a path lookup is the one that the model gives.
pub open spec fn same_location(
    r: Result<Vec<String>, IoErrorKind>,
    s: Result<Seq<Seq<char>>, IoErrorKind>,
) -> bool {
    match (r, s) {
        (Ok(v), Ok(q)) => v.deep_view() == q,
        (Err(a), Err(b)) => a == b,
        _ => false,
    }
}

/// Whether an exec result of a path-valued query is the one that the model
/// gives.
pub open spec fn same_path(r: Result<StowPath, IoErrorKind>, s: Result<PathView, IoErrorKind>) -> bool {
    match (r, s) {
        (Ok(p), Ok(q)) => p@ == q,
        (Err(a), Err(b)) => a == b,
        _ => false,
    }
}

/// Whether a listing is the one that the model gives.
pub open spec fn same_listing(
    r: Result<Vec<DirEntry>, IoErrorKind>,
    s: Result<Seq<DirEntryView>, IoErrorKind>,
) -> bool {
    match (r, s) {
        (Ok(v), Ok(l)) => listing_view(v@) == l,
        (Err(a), Err(b)) => a == b,
        _ => false,
    }
}

/// Whether an operation ended as the model says.
pub open spec fn stepped(post: FsView, r: Result<(), StowError>, want: Step) -> bool {
    post == want.fs && match r {
        Ok(_) => want.err is None,
        Err(e) => want.err == Some(e@),
    }
}

impl FileSystem {
    /// An empty file system: only the root directory. Links may be made in
    /// it.
    pub fn new() -> (fs: FileSystem)
        ensures
            fs@.entries.len() == 0,
            fs@.links_allowed,
            fs@.journal.len() == 0,
            fs@.wf(),
    {
        let fs = FileSystem {
            entries: Vec::new(),
            links_allowed: true,
            journal: Vec::new(),
        };
        proof {
            reveal(parents_are_dirs);
        }
        fs
    }

    /// Whether links may be made.
    pub fn links_allowed(&self) -> (b: bool)
        ensures
            b == self@.links_allowed,
    {
        self.links_allowed
    }

    /// Grants or withdraws the privilege to make links.
    pub fn set_links_allowed(&mut self, allowed: bool)
        ensures
            final(self)@ == (FsView { links_allowed: allowed, ..old(self)@ }),
    {
        self.links_allowed = allowed;
    }

    /// The changes made so far, oldest first.
    pub fn journal(&self) -> (r: &Vec<FsOp>)
        ensures
            r@.map_values(|o: FsOp| o@) == self@.journal,
    {
        &self.journal
    }

    /// The index of the entry at a location.
    fn find(&self, loc: &Vec<String>) -> (r: Option<usize>)
        ensures
            r matches Some(i) ==> i < self.entries.len() && self@.entries[i as int].path
                == loc.deep_view(),
            r is None ==> !self@.has(loc.deep_view()),
    {
        let mut i: usize = 0;
        while i < self.entries.len()
            invariant
                i <= self.entries.len(),
                forall|j: int| 0 <= j < i ==> (#[trigger] self@.entries[j]).path != loc.deep_view(),
            decreases self.entries.len() - i,
        {
            if names_equal(&self.entries[i].path, loc) {
                return Some(i);
            }
            i += 1;
        }
        None
    }

    /// In a well-formed file system the entry found at a location is the one
    /// that the model names.
    proof fn lemma_found(self, loc: Seq<Seq<char>>, i: int)
        requires
            self@.wf(),
            0 <= i < self@.entries.len(),
            self@.entries[i].path == loc,
        ensures
            self@.has(loc),
            self@.index_of(loc) == i,
            self@.node_at(loc) == Some(self@.entries[i].node),
    {
        lemma_node_at(self@, i);
    }

    /// Follows `rest[start..]` name by name from the directory `cur`.
    fn walk(
        &self,
        cur: Vec<String>,
        rest: &Vec<String>,
        start: usize,
        follow_last: bool,
        fuel: usize,
    ) -> (r: Result<Vec<String>, IoErrorKind>)
        requires
            self@.wf(),
            start <= rest.len(),
        ensures
            same_location(
                r,
                self@.walk(
                    cur.deep_view(),
                    rest.deep_view().skip(start as int),
                    follow_last,
                    fuel as nat,
                ),
            ),
        decreases fuel, rest.len() - start,
    {
        let ghost names = rest.deep_view().skip(start as int);
        if start == rest.len() {
            return Ok(cur);
        }
        let ghost dir = cur.deep_view();
        let mut p = cur;
        p.push(rest[start].clone());
        proof {
            assert(names[0] == rest[start as int]@);
            assert(p.deep_view() =~= dir.push(names[0]));
            assert(names.skip(1) =~= rest.deep_view().skip(start + 1));
        }
        let last = start + 1 == rest.len();
        match self.find(&p) {
            None => {
                proof {
                    lemma_absent(self@, p.deep_view());
                }
                Err(IoErrorKind::NotFound)
            },
            Some(i) => {
                proof {
                    self.lemma_found(p.deep_view(), i as int);
                }
                match &self.entries[i].node {
                    Node::File(_) => {
                        if last {
                            Ok(p)
                        } else {
                            Err(IoErrorKind::NotADirectory)
                        }
                    },
                    Node::Dir => self.walk(p, rest, start + 1, follow_last, fuel),
                    Node::Link(t) => {
                        if last && !follow_last {
                            Ok(p)
                        } else if fuel == 0 {
                            Err(IoErrorKind::TooManyLinks)
                        } else {
                            let keep: usize = if t.is_absolute() || t.ups() >= p.len() - 1 {
                                0
                            } else {
                                p.len() - 1 - t.ups()
                            };
                            let mut from: Vec<String> = Vec::new();
                            assert(from.deep_view() =~= Seq::empty());
                            extend_names(&mut from, &p, 0, keep);
                            let mut next: Vec<String> = Vec::new();
                            assert(next.deep_view() =~= Seq::empty());
                            let tn = t.names();
                            extend_names(&mut next, tn, 0, tn.len());
                            extend_names(&mut next, rest, start + 1, rest.len());
                            proof {
                                assert(p.deep_view().subrange(0, keep as int) =~= link_base(
                                    dir,
                                    t@,
                                ));
                                assert(tn.deep_view().subrange(0, tn.len() as int) =~= t@.names);
                                assert(rest.deep_view().subrange(
                                    start + 1,
                                    rest.len() as int,
                                ) =~= names.skip(1));
                                assert(next.deep_view() =~= t@.names + names.skip(1));
                                assert(next.deep_view().skip(0) =~= next.deep_view());
                            }
                            self.walk(from, &next, 0, follow_last, fuel - 1)
                        }
                    },
                }
            },
        }
    }

    /// The location of what `p` names, where there is something. A link at
    /// the end of `p` is followed only with `follow_last`.
    pub fn locate(&self, p: &StowPath, follow_last: bool) -> (r: Result<Vec<String>, IoErrorKind>)
        requires
            self@.wf(),
        ensures
            same_location(r, self@.locate(p@, follow_last)),
    {
        let from: Vec<String> = Vec::new();
        let names = p.names();
        proof {
            assert(from.deep_view() =~= Seq::empty());
            assert(names.deep_view().skip(0) =~= p@.names);
        }
        self.walk(from, names, 0, follow_last, MAX_LINK_HOPS)
    }

    /// Follows `rest[start..]` from `cur` as far as entries exist.
    fn reach(&self, cur: Vec<String>, rest: &Vec<String>, start: usize, fuel: usize) -> (r: Result<
        (Vec<String>, Vec<String>),
        IoErrorKind,
    >)
        requires
            self@.wf(),
            start <= rest.len(),
        ensures
            match (
                r,
                reach_in(
                    self@.entries,
                    cur.deep_view(),
                    rest.deep_view().skip(start as int),
                    fuel as nat,
                ),
            ) {
                (Ok(v), Ok(s)) => v.0.deep_view() == s.0 && v.1.deep_view() == s.1,
                (Err(a), Err(b)) => a == b,
                _ => false,
            },
        decreases fuel, rest.len() - start,
    {
        let ghost names = rest.deep_view().skip(start as int);
        if start == rest.len() {
            let none: Vec<String> = Vec::new();
            assert(none.deep_view() =~= names);
            return Ok((cur, none));
        }
        let ghost dir = cur.deep_view();
        let mut p = cur.clone();
        p.push(rest[start].clone());
        proof {
            assert(names[0] == rest[start as int]@);
            assert(p.deep_view() =~= dir.push(names[0]));
            assert(names.skip(1) =~= rest.deep_view().skip(start + 1));
        }
        let last = start + 1 == rest.len();
        match self.find(&p) {
            None => {
                proof {
                    lemma_absent(self@, p.deep_view());
                }
                let mut left: Vec<String> = Vec::new();
                assert(left.deep_view() =~= Seq::empty());
                extend_names(&mut left, rest, start, rest.len());
                assert(rest.deep_view().subrange(start as int, rest.len() as int) =~= names);
                assert(left.deep_view() =~= names);
                Ok((cur, left))
            },
            Some(i) => {
                proof {
                    self.lemma_found(p.deep_view(), i as int);
                }
                match &self.entries[i].node {
                    Node::File(_) => {
                        if last {
                            Err(IoErrorKind::AlreadyExists)
                        } else {
                            Err(IoErrorKind::NotADirectory)
                        }
                    },
                    Node::Dir => self.reach(p, rest, start + 1, fuel),
                    Node::Link(t) => {
                        if fuel == 0 {
                            Err(IoErrorKind::TooManyLinks)
                        } else {
                            let keep: usize = if t.is_absolute() || t.ups() >= p.len() - 1 {
                                0
                            } else {
                                p.len() - 1 - t.ups()
                            };
                            let mut from: Vec<String> = Vec::new();
                            assert(from.deep_view() =~= Seq::empty());
                            extend_names(&mut from, &p, 0, keep);
                            let tn = t.names();
                            proof {
                                assert(p.deep_view().subrange(0, keep as int) =~= link_base(
                                    dir,
                                    t@,
                                ));
                                assert(tn.deep_view().skip(0) =~= t@.names);
                            }
                            match self.walk(from, tn, 0, true, fuel - 1) {
                                Err(_) => Err(IoErrorKind::AlreadyExists),
                                Ok(q) => {
                                    if self.dir_at(&q) {
                                        self.reach(q, rest, start + 1, fuel - 1)
                                    } else if last {
                                        Err(IoErrorKind::AlreadyExists)
                                    } else {
                                        Err(IoErrorKind::NotADirectory)
                                    }
                                },
                            }
                        }
                    },
                }
            },
        }
    }

    /// The location at which an entry named by `p` would be made.
    fn slot(&self, p: &StowPath) -> (r: Result<Vec<String>, IoErrorKind>)
        requires
            self@.wf(),
        ensures
            same_location(r, self@.slot(p@)),
    {
        let names = p.names();
        if names.len() == 0 {
            return Err(IoErrorKind::AlreadyExists);
        }
        let from: Vec<String> = Vec::new();
        assert(from.deep_view() =~= Seq::empty());
        let mut head: Vec<String> = Vec::new();
        assert(head.deep_view() =~= Seq::empty());
        extend_names(&mut head, names, 0, names.len() - 1);
        proof {
            assert(names.deep_view().subrange(0, names.len() - 1) =~= p@.names.drop_last());
            assert(head.deep_view().skip(0) =~= head.deep_view());
        }
        match self.walk(from, &head, 0, true, MAX_LINK_HOPS) {
            Err(k) => Err(k),
            Ok(d) => {
                if self.dir_at(&d) {
                    let mut q = d;
                    q.push(names[names.len() - 1].clone());
                    assert(q.deep_view() =~= d.deep_view().push(p@.names.last()));
                    Ok(q)
                } else {
                    Err(IoErrorKind::NotADirectory)
                }
            },
        }
    }

    /// Whether the entry with index `i` lies directly inside `dir`.
    fn child_at(&self, i: usize, dir: &Vec<String>) -> (b: bool)
        requires
            i < self.entries.len(),
        ensures
            b == is_child(self@.entries[i as int], dir.deep_view()),
    {
        let path = &self.entries[i].path;
        let b = path.len() > 0 && path.len() - 1 == dir.len() && has_prefix(path, dir);
        proof {
            let p = path.deep_view();
            let d = dir.deep_view();
            if p.len() == d.len() + 1 {
                assert(p.take(d.len() as int) =~= p.drop_last());
            }
        }
        b
    }

    /// Whether the location holds a directory.
    fn dir_at(&self, loc: &Vec<String>) -> (b: bool)
        requires
            self@.wf(),
        ensures
            b == (self@.node_at(loc.deep_view()) == Some(NodeView::Dir)),
    {
        if loc.len() == 0 {
            proof {
                lemma_root(self@);
                assert(loc.deep_view() =~= Seq::empty());
            }
            return true;
        }
        match self.find(loc) {
            None => {
                proof {
                    lemma_absent(self@, loc.deep_view());
                }
                false
            },
            Some(i) => {
                proof {
                    self.lemma_found(loc.deep_view(), i as int);
                }
                match &self.entries[i].node {
                    Node::Dir => true,
                    _ => false,
                }
            },
        }
    }

    /// Whether the directory at the location has entries.
    fn occupied(&self, dir: &Vec<String>) -> (b: bool)
        ensures
            b == (listing(self@.entries, dir.deep_view()).len() > 0),
    {
        let mut i: usize = 0;
        assert(self@.entries.take(0) =~= Seq::empty());
        while i < self.entries.len()
            invariant
                i <= self.entries.len(),
                listing(self@.entries.take(i as int), dir.deep_view()).len() == 0,
            decreases self.entries.len() - i,
        {
            proof {
                assert(self@.entries.take(i + 1).drop_last() =~= self@.entries.take(i as int));
                assert(self@.entries.take(i + 1).last() == self@.entries[i as int]);
            }
            if self.child_at(i, dir) {
                proof {
                    lemma_listing_grows(self@.entries, dir.deep_view(), i + 1);
                }
                return true;
            }
            i += 1;
        }
        assert(self@.entries.take(self.entries.len() as int) =~= self@.entries);
        false
    }

    /// Whether `p` leads to something, links followed.
    pub fn path_exists(&self, p: &StowPath) -> (b: bool)
        requires
            self@.wf(),
        ensures
            b == self@.present(p@),
    {
        self.locate(p, true).is_ok()
    }

    /// Whether `p` leads to a directory, links followed.
    pub fn is_dir(&self, p: &StowPath) -> (b: bool)
        requires
            self@.wf(),
        ensures
            b == self@.is_dir(p@),
    {
        match self.locate(p, true) {
            Ok(q) => self.dir_at(&q),
            Err(_) => false,
        }
    }

    /// Whether `p` names a symbolic link.
    pub fn is_link(&self, p: &StowPath) -> (b: bool)
        requires
            self@.wf(),
        ensures
            b == self@.is_symlink(p@),
    {
        match self.read_link(p) {
            Ok(_) => true,
            Err(_) => false,
        }
    }

    /// The target stored in the link that `p` names.
    pub fn read_link(&self, p: &StowPath) -> (r: Result<StowPath, IoErrorKind>)
        requires
            self@.wf(),
        ensures
            same_path(r, self@.read_link(p@)),
    {
        match self.locate(p, false) {
            Err(k) => Err(k),
            Ok(q) => {
                if q.len() == 0 {
                    proof {
                        lemma_root(self@);
                        assert(q.deep_view() =~= Seq::empty());
                    }
                    return Err(IoErrorKind::InvalidInput);
                }
                match self.find(&q) {
                    None => {
                        proof {
                            lemma_absent(self@, q.deep_view());
                        }
                        Err(IoErrorKind::InvalidInput)
                    },
                    Some(i) => {
                        proof {
                            self.lemma_found(q.deep_view(), i as int);
                        }
                        match &self.entries[i].node {
                            Node::Link(t) => Ok(t.clone()),
                            _ => Err(IoErrorKind::InvalidInput),
                        }
                    },
                }
            },
        }
    }

    /// The absolute path of what `p` leads to, all links resolved.
    pub fn canonicalize(&self, p: &StowPath) -> (r: Result<StowPath, IoErrorKind>)
        requires
            self@.wf(),
        ensures
            same_path(r, self@.canonical(p@)),
    {
        match self.locate(p, true) {
            Ok(q) => Ok(StowPath::from_names(q)),
            Err(k) => Err(k),
        }
    }

    /// The listing of the directory that `p` leads to.
    pub fn read_dir(&self, p: &StowPath) -> (r: Result<Vec<DirEntry>, IoErrorKind>)
        requires
            self@.wf(),
        ensures
            same_listing(r, self@.read_dir(p@)),
    {
        match self.locate(p, true) {
            Err(k) => Err(k),
            Ok(q) => {
                if !self.dir_at(&q) {
                    return Err(IoErrorKind::NotADirectory);
                }
                Ok(self.list_at(&q))
            },
        }
    }

    /// The lines for the entries directly inside the location `dir`.
    pub fn list_at(&self, dir: &Vec<String>) -> (out: Vec<DirEntry>)
        ensures
            listing_view(out@) == listing(self@.entries, dir.deep_view()),
    {
        let mut out: Vec<DirEntry> = Vec::new();
        let mut i: usize = 0;
        assert(self@.entries.take(0) =~= Seq::empty());
        assert(listing_view(out@) =~= Seq::empty());
        while i < self.entries.len()
            invariant
                i <= self.entries.len(),
                listing_view(out@) == listing(self@.entries.take(i as int), dir.deep_view()),
            decreases self.entries.len() - i,
        {
            let ghost before = listing_view(out@);
            proof {
                assert(self@.entries.take(i + 1).drop_last() =~= self@.entries.take(i as int));
                assert(self@.entries.take(i + 1).last() == self@.entries[i as int]);
            }
            if self.child_at(i, dir) {
                let e = &self.entries[i];
                let is_dir = match &e.node {
                    Node::Dir => true,
                    _ => false,
                };
                let line = DirEntry { name: e.path[e.path.len() - 1].clone(), is_dir };
                out.push(line);
                proof {
                    assert(listing_view(out@) =~= before.push(line@));
                }
            }
            i += 1;
        }
        assert(self@.entries.take(self.entries.len() as int) =~= self@.entries);
        out
    }

    /// The bytes of the file that `p` leads to.
    pub fn read(&self, p: &StowPath) -> (r: Result<Vec<u8>, IoErrorKind>)
        requires
            self@.wf(),
        ensures
            match (r, self@.read(p@)) {
                (Ok(v), Ok(s)) => v@ == s,
                (Err(a), Err(b)) => a == b,
                _ => false,
            },
    {
        match self.locate(p, true) {
            Err(k) => Err(k),
            Ok(q) => {
                if q.len() == 0 {
                    proof {
                        lemma_root(self@);
                        assert(q.deep_view() =~= Seq::empty());
                    }
                    return Err(IoErrorKind::IsADirectory);
                }
                match self.find(&q) {
                    None => {
                        proof {
                            lemma_absent(self@, q.deep_view());
                        }
                        Err(IoErrorKind::InvalidInput)
                    },
                    Some(i) => {
                        proof {
                            self.lemma_found(q.deep_view(), i as int);
                        }
                        match &self.entries[i].node {
                            Node::File(data) => Ok(data.clone()),
                            Node::Dir => Err(IoErrorKind::IsADirectory),
                            Node::Link(_) => Err(IoErrorKind::InvalidInput),
                        }
                    },
                }
            },
        }
    }

    /// Makes a new entry at the place that `p` names.
    fn make(&mut self, p: &StowPath, node: Node) -> (r: Result<(), IoErrorKind>)
        requires
            old(self)@.wf(),
        ensures
            final(self)@.wf(),
            match old(self)@.make(p@, node@) {
                Ok(fs) => r is Ok && final(self)@ == fs,
                Err(k) => r == Err::<(), IoErrorKind>(k) && final(self)@ == old(self)@,
            },
    {
        match self.slot(p) {
            Err(k) => Err(k),
            Ok(q) => {
                match self.find(&q) {
                    Some(i) => {
                        proof {
                            self.lemma_found(q.deep_view(), i as int);
                        }
                        Err(IoErrorKind::AlreadyExists)
                    },
                    None => {
                        proof {
                            lemma_slot_parent(self@, p@);
                            lemma_absent(self@, q.deep_view());
                            assert(q.deep_view().drop_last() =~= q.deep_view().take(
                                q.deep_view().len() - 1,
                            ));
                            match &node {
                                Node::Link(t) => {
                                    crate::path_utils::lemma_view_wf(*t);
                                },
                                _ => {},
                            }
                            lemma_slot_parent(self@, p@);
                            lemma_with_entry(self@, q.deep_view(), node@);
                        }
                        let ghost pre = self@;
                        let e = Entry { path: q, node };
                        self.entries.push(e);
                        assert(self@.entries =~= pre.entries.push(e@));
                        assert(self@ == pre.with_entry(e@.path, e@.node));
                        Ok(())
                    },
                }
            },
        }
    }

    /// Enters a change in the journal.
    fn log(&mut self, op: FsOp)
        ensures
            final(self)@ == old(self)@.logged(op@),
    {
        let ghost pre = self@;
        self.journal.push(op);
        assert(self@.journal =~= pre.journal.push(op@));
    }

    /// Stores `data` in the file that `p` leads to, or in a new file there.
    fn store(&mut self, p: &StowPath, data: Vec<u8>) -> (r: Result<(), IoErrorKind>)
        requires
            old(self)@.wf(),
        ensures
            final(self)@.wf(),
            match old(self)@.write(p@, data@) {
                Ok(fs) => r is Ok && final(self)@ == fs,
                Err(k) => r == Err::<(), IoErrorKind>(k) && final(self)@ == old(self)@,
            },
    {
        match self.locate(p, true) {
            Err(IoErrorKind::NotFound) => self.make(p, Node::File(data)),
            Err(k) => Err(k),
            Ok(q) => {
                if q.len() == 0 {
                    proof {
                        lemma_root(self@);
                        assert(q.deep_view() =~= Seq::empty());
                    }
                    return Err(IoErrorKind::IsADirectory);
                }
                match self.find(&q) {
                    None => {
                        proof {
                            lemma_absent(self@, q.deep_view());
                        }
                        Err(IoErrorKind::InvalidInput)
                    },
                    Some(i) => {
                        proof {
                            self.lemma_found(q.deep_view(), i as int);
                        }
                        match &self.entries[i].node {
                            Node::File(_) => {
                                let ghost pre = self@;
                                proof {
                                    lemma_replaced(pre, i as int, data@);
                                }
                                let e = Entry { path: q, node: Node::File(data) };
                                self.entries.set(i, e);
                                assert(self@.entries =~= pre.entries.update(
                                    i as int,
                                    EntryView { path: q.deep_view(), node: NodeView::File(data@) },
                                ));
                                Ok(())
                            },
                            Node::Dir => Err(IoErrorKind::IsADirectory),
                            Node::Link(_) => Err(IoErrorKind::InvalidInput),
                        }
                    },
                }
            },
        }
    }

    /// Removes the entry with index `i`, which has nothing inside it.
    fn remove_at(&mut self, i: usize)
        requires
            old(self)@.wf(),
            i < old(self).entries.len(),
            forall|j: int|
                0 <= j < old(self)@.entries.len() ==> !is_child(
                    #[trigger] old(self)@.entries[j],
                    old(self)@.entries[i as int].path,
                ),
        ensures
            final(self)@.wf(),
            final(self)@ == old(self)@.without_entry(old(self)@.entries[i as int].path),
    {
        let ghost pre = self@;
        let ghost q = pre.entries[i as int].path;
        proof {
            self.lemma_found(q, i as int);
            lemma_without_entry(pre, q);
        }
        self.entries.remove(i);
        assert(self@.entries =~= pre.entries.remove(i as int));
    }

    /// Removes every entry at or below the location `dir`.
    fn prune_at(&mut self, dir: &Vec<String>)
        requires
            old(self)@.wf(),
        ensures
            final(self)@.wf(),
            final(self)@ == old(self)@.without_tree(dir.deep_view()),
    {
        let ghost pre = self@;
        let ghost d = dir.deep_view();
        let mut i: usize = 0;
        let ghost mut k: int = 0;
        proof {
            assert(pre.entries.take(0) =~= Seq::empty());
            assert(pre.entries.skip(0) =~= pre.entries);
            assert(prune(pre.entries.take(0), d) + pre.entries.skip(0) =~= pre.entries);
        }
        while i < self.entries.len()
            invariant
                0 <= k <= pre.entries.len(),
                d == dir.deep_view(),
                i == prune(pre.entries.take(k), d).len(),
                self@.entries == prune(pre.entries.take(k), d) + pre.entries.skip(k),
                self@.links_allowed == pre.links_allowed,
                self@.journal == pre.journal,
            decreases pre.entries.len() - k,
        {
            let ghost now = self@.entries;
            proof {
                assert(now[i as int] == pre.entries[k]);
                assert(pre.entries.take(k + 1).drop_last() =~= pre.entries.take(k));
                assert(pre.entries.take(k + 1).last() == pre.entries[k]);
            }
            if has_prefix(&self.entries[i].path, dir) {
                self.entries.remove(i);
                proof {
                    assert(self@.entries =~= now.remove(i as int));
                    assert(now.remove(i as int) =~= prune(pre.entries.take(k + 1), d)
                        + pre.entries.skip(k + 1));
                }
            } else {
                proof {
                    assert(now =~= prune(pre.entries.take(k + 1), d) + pre.entries.skip(k + 1));
                }
                i += 1;
            }
            proof {
                k = k + 1;
            }
        }
        proof {
            assert(k == pre.entries.len()) by {
                if k < pre.entries.len() {
                    assert(self@.entries.len() == i + (pre.entries.len() - k));
                }
            }
            assert(pre.entries.take(k) =~= pre.entries);
            assert(pre.entries.skip(k) =~= Seq::empty());
            assert(self@.entries =~= prune(pre.entries, d));
            lemma_pruned(pre, d);
        }
    }

    /// Moves every entry at or below the location `a` to `b`.
    fn reroot(&mut self, a: &Vec<String>, b: &Vec<String>)
        requires
            old(self)@.wf(),
            a.len() > 0,
            b.len() > 0,
            old(self)@.node_at(b.deep_view()) is None,
            old(self)@.node_at(b.deep_view().drop_last()) == Some(NodeView::Dir),
            !is_under(b.deep_view(), a.deep_view()),
        ensures
            final(self)@.wf(),
            final(self)@ == old(self)@.rerooted(a.deep_view(), b.deep_view()),
    {
        let ghost pre = self@;
        let ghost av = a.deep_view();
        let ghost bv = b.deep_view();
        let mut i: usize = 0;
        while i < self.entries.len()
            invariant
                i <= self.entries.len(),
                av == a.deep_view(),
                bv == b.deep_view(),
                self@.entries.len() == pre.entries.len(),
                forall|j: int| 0 <= j < i ==> #[trigger] self@.entries[j] == moved_entry(
                    pre.entries[j],
                    av,
                    bv,
                ),
                forall|j: int|
                    i <= j < pre.entries.len() ==> #[trigger] self@.entries[j] == pre.entries[j],
                self@.links_allowed == pre.links_allowed,
                self@.journal == pre.journal,
            decreases self.entries.len() - i,
        {
            let ghost now = self@.entries;
            if has_prefix(&self.entries[i].path, a) {
                let mut path = b.clone();
                extend_names(&mut path, &self.entries[i].path, a.len(), self.entries[i].path.len());
                let node = self.entries[i].node.duplicate();
                proof {
                    let x = pre.entries[i as int].path;
                    assert(now[i as int] == pre.entries[i as int]);
                    assert(x.subrange(a.len() as int, x.len() as int) =~= x.skip(a.len() as int));
                }
                let e = Entry { path, node };
                self.entries.set(i, e);
                proof {
                    assert(self@.entries =~= now.update(i as int, e@));
                }
            }
            i += 1;
        }
        proof {
            assert(self@.entries =~= pre.entries.map_values(|e: EntryView| moved_entry(e, av, bv)));
            lemma_rerooted(pre, av, bv);
        }
    }

    /// Makes a symbolic link at `link` that stores `target`. `is_directory`
    /// says which kind of link is made where the system has two.
    pub fn symlink(&mut self, link: &StowPath, target: &StowPath, is_directory: bool) -> (r: Result<
        (),
        IoErrorKind,
    >)
        requires
            old(self)@.wf(),
        ensures
            final(self)@.wf(),
            outcome(
                old(self)@,
                final(self)@,
                r,
                old(self)@.symlink(link@, target@),
                FsOpView::Symlink { link: link@, target: target@, is_directory },
            ),
    {
        if !self.links_allowed {
            return Err(IoErrorKind::PermissionDenied);
        }
        match self.make(link, Node::Link(target.clone())) {
            Err(k) => Err(k),
            Ok(()) => {
                self.log(FsOp::Symlink { link: link.clone(), target: target.clone(), is_directory });
                Ok(())
            },
        }
    }

    /// Makes a directory at `p`, inside a directory that exists.
    pub fn create_dir(&mut self, p: &StowPath) -> (r: Result<(), IoErrorKind>)
        requires
            old(self)@.wf(),
        ensures
            final(self)@.wf(),
            outcome(
                old(self)@,
                final(self)@,
                r,
                old(self)@.create_dir(p@),
                FsOpView::CreateDir { path: p@ },
            ),
    {
        match self.make(p, Node::Dir) {
            Err(k) => Err(k),
            Ok(()) => {
                self.log(FsOp::CreateDir { path: p.clone() });
                Ok(())
            },
        }
    }

    /// Makes the directory at `p` and every directory missing on the way.
    pub fn create_dir_all(&mut self, p: &StowPath) -> (r: Result<(), IoErrorKind>)
        requires
            old(self)@.wf(),
        ensures
            final(self)@.wf(),
            outcome(
                old(self)@,
                final(self)@,
                r,
                old(self)@.create_dir_all(p@),
                FsOpView::CreateDirAll { path: p@ },
            ),
    {
        let from: Vec<String> = Vec::new();
        let names = p.names();
        proof {
            assert(from.deep_view() =~= Seq::empty());
            assert(names.deep_view().skip(0) =~= p@.names);
        }
        let ghost pre = self@;
        match self.reach(from, names, 0, MAX_LINK_HOPS) {
            Err(k) => Err(k),
            Ok((dir, rest)) => {
                proof {
                    lemma_root(pre);
                    lemma_reach(pre.entries, pre.base(p@), p@.names, MAX_LINK_HOPS as nat);
                }
                let mut cur = dir;
                let mut k: usize = 0;
                proof {
                    assert(rest.deep_view().skip(0) =~= rest.deep_view());
                    if rest.len() > 0 {
                        lemma_present_has(self@, cur.deep_view().push(rest.deep_view()[0]));
                    }
                }
                while k < rest.len()
                    invariant
                        k <= rest.len(),
                        self@.wf(),
                        self@.links_allowed == pre.links_allowed,
                        self@.journal == pre.journal,
                        self@.node_at(cur.deep_view()) == Some(NodeView::Dir),
                        k < rest.len() ==> !self@.has(
                            cur.deep_view().push(rest.deep_view()[k as int]),
                        ),
                        grow(self@.entries, cur.deep_view(), rest.deep_view().skip(k as int))
                            == grow(pre.entries, dir.deep_view(), rest.deep_view()),
                    decreases rest.len() - k,
                {
                    let ghost before = self@;
                    let ghost d = cur.deep_view();
                    let ghost left = rest.deep_view().skip(k as int);
                    cur.push(rest[k].clone());
                    let ghost q = cur.deep_view();
                    proof {
                        assert(left[0] == rest.deep_view()[k as int]);
                        assert(q =~= d.push(left[0]));
                        assert(q.drop_last() =~= d);
                        lemma_with_entry(before, q, NodeView::Dir);
                        assert(left.skip(1) =~= rest.deep_view().skip(k + 1));
                    }
                    let e = Entry { path: cur.clone(), node: Node::Dir };
                    self.entries.push(e);
                    proof {
                        assert(self@.entries =~= before.entries.push(
                            EntryView { path: q, node: NodeView::Dir },
                        ));
                        assert(self@ == before.with_entry(q, NodeView::Dir));
                        if k + 1 < rest.len() {
                            let next = q.push(rest.deep_view()[k + 1]);
                            lemma_absent(before, q);
                            lemma_orphan(before, q, rest.deep_view()[k + 1]);
                            if self@.has(next) {
                                let j = self@.index_of(next);
                                assert(self@.entries[j].path == next);
                                if j < before.entries.len() {
                                    assert(before.entries[j].path == next);
                                }
                            }
                        }
                    }
                    k += 1;
                }
                proof {
                    assert(rest.deep_view().skip(rest.len() as int) =~= Seq::empty());
                    assert(self@ == (FsView {
                        entries: grow(pre.entries, dir.deep_view(), rest.deep_view()),
                        ..pre
                    }));
                }
                self.log(FsOp::CreateDirAll { path: p.clone() });
                Ok(())
            },
        }
    }

    /// Stores `data` in the file that `p` leads to; where `p` leads to
    /// nothing, a file is made there.
    pub fn write(&mut self, p: &StowPath, data: Vec<u8>) -> (r: Result<(), IoErrorKind>)
        requires
            old(self)@.wf(),
        ensures
            final(self)@.wf(),
            outcome(
                old(self)@,
                final(self)@,
                r,
                old(self)@.write(p@, data@),
                FsOpView::Write { path: p@, data: data@ },
            ),
    {
        let copy = data.clone();
        match self.store(p, data) {
            Err(k) => Err(k),
            Ok(()) => {
                self.log(FsOp::Write { path: p.clone(), data: copy });
                Ok(())
            },
        }
    }

    /// Copies the bytes of the file at `from` into the file that `to` names.
    pub fn copy(&mut self, from: &StowPath, to: &StowPath) -> (r: Result<(), IoErrorKind>)
        requires
            old(self)@.wf(),
        ensures
            final(self)@.wf(),
            outcome(
                old(self)@,
                final(self)@,
                r,
                old(self)@.copy(from@, to@),
                FsOpView::Copy { from: from@, to: to@ },
            ),
    {
        match self.read(from) {
            Err(k) => Err(k),
            Ok(data) => match self.store(to, data) {
                Err(k) => Err(k),
                Ok(()) => {
                    self.log(FsOp::Copy { from: from.clone(), to: to.clone() });
                    Ok(())
                },
            },
        }
    }

    /// Removes the file or link that `p` names; a link is not followed.
    pub fn remove_file(&mut self, p: &StowPath) -> (r: Result<(), IoErrorKind>)
        requires
            old(self)@.wf(),
        ensures
            final(self)@.wf(),
            outcome(
                old(self)@,
                final(self)@,
                r,
                old(self)@.remove_file(p@),
                FsOpView::RemoveFile { path: p@ },
            ),
    {
        match self.locate(p, false) {
            Err(k) => Err(k),
            Ok(q) => {
                if q.len() == 0 {
                    proof {
                        lemma_root(self@);
                        assert(q.deep_view() =~= Seq::empty());
                    }
                    return Err(IoErrorKind::IsADirectory);
                }
                match self.find(&q) {
                    None => {
                        proof {
                            lemma_absent(self@, q.deep_view());
                        }
                        Err(IoErrorKind::NotFound)
                    },
                    Some(i) => {
                        proof {
                            self.lemma_found(q.deep_view(), i as int);
                        }
                        let is_dir = match &self.entries[i].node {
                            Node::Dir => true,
                            _ => false,
                        };
                        if is_dir {
                            return Err(IoErrorKind::IsADirectory);
                        }
                        proof {
                            lemma_leaf_childless(self@, q.deep_view());
                        }
                        self.remove_at(i);
                        self.log(FsOp::RemoveFile { path: p.clone() });
                        Ok(())
                    },
                }
            },
        }
    }

    /// Removes the empty directory that `p` names.
    pub fn remove_dir(&mut self, p: &StowPath) -> (r: Result<(), IoErrorKind>)
        requires
            old(self)@.wf(),
        ensures
            final(self)@.wf(),
            outcome(
                old(self)@,
                final(self)@,
                r,
                old(self)@.remove_dir(p@),
                FsOpView::RemoveDir { path: p@ },
            ),
    {
        match self.locate(p, false) {
            Err(k) => Err(k),
            Ok(q) => {
                if q.len() == 0 {
                    return Err(IoErrorKind::InvalidInput);
                }
                match self.find(&q) {
                    None => {
                        proof {
                            lemma_absent(self@, q.deep_view());
                        }
                        Err(IoErrorKind::NotFound)
                    },
                    Some(i) => {
                        proof {
                            self.lemma_found(q.deep_view(), i as int);
                        }
                        let is_dir = match &self.entries[i].node {
                            Node::Dir => true,
                            _ => false,
                        };
                        if !is_dir {
                            return Err(IoErrorKind::NotADirectory);
                        }
                        if self.occupied(&q) {
                            return Err(IoErrorKind::DirectoryNotEmpty);
                        }
                        proof {
                            lemma_listing_empty(self@.entries, q.deep_view());
                        }
                        self.remove_at(i);
                        self.log(FsOp::RemoveDir { path: p.clone() });
                        Ok(())
                    },
                }
            },
        }
    }

    /// Removes the directory that `p` names with all below it; a link is
    /// removed alone.
    pub fn remove_dir_all(&mut self, p: &StowPath) -> (r: Result<(), IoErrorKind>)
        requires
            old(self)@.wf(),
        ensures
            final(self)@.wf(),
            outcome(
                old(self)@,
                final(self)@,
                r,
                old(self)@.remove_dir_all(p@),
                FsOpView::RemoveDirAll { path: p@ },
            ),
    {
        match self.locate(p, false) {
            Err(k) => Err(k),
            Ok(q) => {
                if q.len() == 0 {
                    proof {
                        lemma_root(self@);
                        assert(q.deep_view() =~= Seq::empty());
                    }
                    self.prune_at(&q);
                    self.log(FsOp::RemoveDirAll { path: p.clone() });
                    return Ok(());
                }
                match self.find(&q) {
                    None => {
                        proof {
                            lemma_absent(self@, q.deep_view());
                        }
                        Err(IoErrorKind::NotFound)
                    },
                    Some(i) => {
                        proof {
                            self.lemma_found(q.deep_view(), i as int);
                        }
                        let kind: u8 = match &self.entries[i].node {
                            Node::Dir => 0,
                            Node::Link(_) => 1,
                            Node::File(_) => 2,
                        };
                        if kind == 2 {
                            return Err(IoErrorKind::NotADirectory);
                        }
                        if kind == 0 {
                            self.prune_at(&q);
                        } else {
                            proof {
                                lemma_leaf_childless(self@, q.deep_view());
                            }
                            self.remove_at(i);
                        }
                        self.log(FsOp::RemoveDirAll { path: p.clone() });
                        Ok(())
                    },
                }
            },
        }
    }

    /// Moves what `from` names to the place that `to` names, with all below
    /// it. A file or link takes the place of a file or link; a directory
    /// takes the place of an empty directory.
    pub fn rename(&mut self, from: &StowPath, to: &StowPath) -> (r: Result<(), IoErrorKind>)
        requires
            old(self)@.wf(),
        ensures
            final(self)@.wf(),
            outcome(
                old(self)@,
                final(self)@,
                r,
                old(self)@.rename(from@, to@),
                FsOpView::Rename { from: from@, to: to@ },
            ),
    {
        let ghost pre = self@;
        let a = match self.locate(from, false) {
            Err(k) => {
                return Err(k);
            },
            Ok(a) => a,
        };
        let b = match self.slot(to) {
            Err(k) => {
                return Err(k);
            },
            Ok(b) => b,
        };
        if a.len() == 0 {
            return Err(IoErrorKind::InvalidInput);
        }
        if names_equal(&a, &b) {
            self.log(FsOp::Rename { from: from.clone(), to: to.clone() });
            return Ok(());
        }
        if has_prefix(&b, &a) {
            return Err(IoErrorKind::InvalidInput);
        }
        proof {
            lemma_slot_parent(pre, to@);
        }
        let i = match self.find(&a) {
            None => {
                proof {
                    lemma_absent(self@, a.deep_view());
                }
                return Err(IoErrorKind::NotFound);
            },
            Some(i) => i,
        };
        proof {
            self.lemma_found(a.deep_view(), i as int);
        }
        let a_dir = match &self.entries[i].node {
            Node::Dir => true,
            _ => false,
        };
        match self.find(&b) {
            None => {
                proof {
                    lemma_absent(self@, b.deep_view());
                }
            },
            Some(j) => {
                proof {
                    self.lemma_found(b.deep_view(), j as int);
                }
                let b_dir = match &self.entries[j].node {
                    Node::Dir => true,
                    _ => false,
                };
                if a_dir && !b_dir {
                    return Err(IoErrorKind::NotADirectory);
                }
                if !a_dir && b_dir {
                    return Err(IoErrorKind::IsADirectory);
                }
                if a_dir {
                    if self.occupied(&b) {
                        return Err(IoErrorKind::DirectoryNotEmpty);
                    }
                    proof {
                        lemma_listing_empty(self@.entries, b.deep_view());
                    }
                } else {
                    proof {
                        lemma_leaf_childless(self@, b.deep_view());
                    }
                }
                proof {
                    lemma_without_entry(pre, b.deep_view());
                }
                self.remove_at(j);
                proof {
                    assert(b.deep_view().drop_last() != b.deep_view());
                }
            },
        }
        self.reroot(&a, &b);
        self.log(FsOp::Rename { from: from.clone(), to: to.clone() });
        Ok(())
    }
}

/// Whether `path` is `dir` or lies below it.
pub fn has_prefix(path: &Vec<String>, dir: &Vec<String>) -> (b: bool)
    ensures
        b == is_under(path.deep_view(), dir.deep_view()),
{
    if dir.len() > path.len() {
        return false;
    }
    let mut i: usize = 0;
    while i < dir.len()
        invariant
            i <= dir.len() <= path.len(),
            forall|j: int| 0 <= j < i ==> path.deep_view()[j] == dir.deep_view()[j],
        decreases dir.len() - i,
    {
        if !(path[i] == dir[i]) {
            assert(path.deep_view().take(dir.len() as int)[i as int] != dir.deep_view()[i as int]);
            return false;
        }
        i += 1;
    }
    assert(path.deep_view().take(dir.len() as int) =~= dir.deep_view());
    true
}

/// Creates missing directories on the way to `path`, its last name left out.
pub fn ensure_parent_dirs(fs: &mut FileSystem, path: &StowPath) -> (r: Result<(), StowError>)
    requires
        old(fs)@.wf(),
    ensures
        final(fs)@.wf(),
        stepped(final(fs)@, r, ensure_parent_dirs_spec(old(fs)@, path@)),
{
    match path.parent() {
        None => Ok(()),
        Some(parent) => {
            if fs.path_exists(&parent) {
                Ok(())
            } else {
                match fs.create_dir_all(&parent) {
                    Ok(()) => Ok(()),
                    Err(k) => Err(StowError::io_error(parent, k)),
                }
            }
        },
    }
}

/// Creates a symbolic link at `link_path` that stores `target_path`, after
/// the directories on the way to it. `is_directory` selects the kind of link
/// where the system has two.
pub fn create_symlink(
    fs: &mut FileSystem,
    link_path: &StowPath,
    target_path: &StowPath,
    is_directory: bool,
) -> (r: Result<(), StowError>)
    requires
        old(fs)@.wf(),
    ensures
        final(fs)@.wf(),
        stepped(
            final(fs)@,
            r,
            create_symlink_spec(old(fs)@, link_path@, target_path@, is_directory),
        ),
{
    match ensure_parent_dirs(fs, link_path) {
        Err(e) => {
            return Err(e);
        },
        Ok(()) => {},
    }
    match fs.symlink(link_path, target_path, is_directory) {
        Ok(()) => Ok(()),
        Err(IoErrorKind::PermissionDenied) => {
            let mut m = String::from_str("Cannot create symlink at ");
            let t = link_path.to_string();
            m.append(t.as_str());
            Err(StowError::permission_denied(m.as_str()))
        },
        Err(k) => {
            let mut m = String::from_str("Failed to create symlink: ");
            let t = k.describe();
            m.append(t.as_str());
            Err(StowError::symlink_error(link_path.clone(), m.as_str()))
        },
    }
}

/// Whether `path` names a symbolic link. Nothing there is no link.
pub fn is_symlink(fs: &FileSystem, path: &StowPath) -> (b: bool)
    requires
        fs@.wf(),
    ensures
        b == fs@.is_symlink(path@),
{
    fs.is_link(path)
}

/// Whether `path` leads to a directory, links followed; an error where it
/// leads to nothing.
pub fn is_directory(fs: &FileSystem, path: &StowPath) -> (r: Result<bool, StowError>)
    requires
        fs@.wf(),
    ensures
        match fs@.locate(path@, true) {
            Ok(_) => r matches Ok(b) && b == fs@.is_dir(path@),
            Err(k) => r matches Err(e) && e@ == (ErrorView::IoError { path: path@, source: k }),
        },
{
    match fs.locate(path, true) {
        Ok(_) => Ok(fs.is_dir(path)),
        Err(k) => Err(StowError::io_error(path.clone(), k)),
    }
}

/// The target stored in the symbolic link at `path`, as it was stored.
pub fn read_symlink(fs: &FileSystem, path: &StowPath) -> (r: Result<StowPath, StowError>)
    requires
        fs@.wf(),
    ensures
        match fs@.read_link(path@) {
            Ok(t) => r matches Ok(p) && p@ == t,
            Err(k) => r matches Err(e) && e@ == (ErrorView::IoError { path: path@, source: k }),
        },
{
    match fs.read_link(path) {
        Ok(t) => Ok(t),
        Err(k) => Err(StowError::io_error(path.clone(), k)),
    }
}

/// Whether `path` leads to a directory without entries. What is no
/// directory is not an empty one.
pub fn is_empty_directory(fs: &FileSystem, path: &StowPath) -> (r: Result<bool, StowError>)
    requires
        fs@.wf(),
    ensures
        match is_empty_directory_spec(fs@, path@) {
            Ok(b) => r == Ok::<bool, StowError>(b),
            Err(v) => r matches Err(e) && e@ == v,
        },
{
    if !fs.is_dir(path) {
        return Ok(false);
    }
    match fs.read_dir(path) {
        Ok(lines) => Ok(lines.len() == 0),
        Err(k) => Err(StowError::io_error(path.clone(), k)),
    }
}

/// Removes the directory at `path` if it is empty.
pub fn remove_empty_directory(fs: &mut FileSystem, path: &StowPath) -> (r: Result<(), StowError>)
    requires
        old(fs)@.wf(),
    ensures
        final(fs)@.wf(),
        stepped(final(fs)@, r, remove_empty_directory_spec(old(fs)@, path@)),
{
    match is_empty_directory(fs, path) {
        Err(e) => Err(e),
        Ok(false) => Err(StowError::directory_not_empty(path.clone())),
        Ok(true) => match fs.remove_dir(path) {
            Ok(()) => Ok(()),
            Err(k) => Err(StowError::io_error(path.clone(), k)),
        },
    }
}

} // verus!
