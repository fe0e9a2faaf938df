//! Facts about path lookup: which lookups a change leaves alone, and where
//! the lookup of a canonical location ends.

use vstd::prelude::*;
use crate::error::IoErrorKind;
use crate::fs_model::{
    lemma_ancestors, lemma_present, lemma_root, link_base, node_in, walk_in, EntryView, FsView,
    MAX_LINK_HOPS, NodeView,
};
use crate::path_utils::PathView;

verus! {

/// Whether `after` holds all that `before` holds, at the same locations.
pub open spec fn keeps(before: Seq<EntryView>, after: Seq<EntryView>) -> bool {
    forall|x: Seq<Seq<char>>|
        (#[trigger] node_in(before, x)) is Some ==> node_in(after, x) == node_in(before, x)
}

/// Holding all is kept along a chain.
pub proof fn lemma_keeps_chain(a: Seq<EntryView>, b: Seq<EntryView>, c: Seq<EntryView>)
    requires
        keeps(a, b),
        keeps(b, c),
    ensures
        keeps(a, c),
{
    assert forall|x: Seq<Seq<char>>| (#[trigger] node_in(a, x)) is Some implies node_in(c, x)
        == node_in(a, x) by {
        assert(node_in(b, x) is Some);
    }
}

/// A lookup that ends somewhere ends at the same location once more is
/// there.
pub proof fn lemma_walk_kept(
    before: Seq<EntryView>,
    after: Seq<EntryView>,
    cur: Seq<Seq<char>>,
    rest: Seq<Seq<char>>,
    follow_last: bool,
    fuel: nat,
)
    requires
        keeps(before, after),
        walk_in(before, cur, rest, follow_last, fuel) is Ok,
    ensures
        walk_in(after, cur, rest, follow_last, fuel) == walk_in(before, cur, rest, follow_last, fuel),
    decreases fuel, rest.len(),
{
    if rest.len() > 0 {
        let p = cur.push(rest[0]);
        assert(node_in(before, p) is Some);
        match node_in(before, p) {
            Some(NodeView::Dir) => {
                lemma_walk_kept(before, after, p, rest.skip(1), follow_last, fuel);
            },
            Some(NodeView::Link(t)) => {
                if !(rest.len() == 1 && !follow_last) {
                    lemma_walk_kept(
                        before,
                        after,
                        link_base(cur, t),
                        t.names + rest.skip(1),
                        follow_last,
                        (fuel - 1) as nat,
                    );
                }
            },
            _ => {},
        }
    }
}

/// Where a link's target starts from is a directory.
pub proof fn lemma_link_base_is_dir(fs: FsView, cur: Seq<Seq<char>>, t: PathView)
    requires
        fs.wf(),
        fs.node_at(cur) == Some(NodeView::Dir),
    ensures
        fs.node_at(link_base(cur, t)) == Some(NodeView::Dir),
{
    lemma_root(fs);
    lemma_way_is_dirs(fs, cur);
    let b = link_base(cur, t);
    if b.len() == cur.len() {
        assert(b =~= cur);
    }
}

/// A lookup from a directory ends at something, and where it follows the
/// last name, at something that is no link.
pub proof fn lemma_walk_end(
    fs: FsView,
    cur: Seq<Seq<char>>,
    rest: Seq<Seq<char>>,
    follow_last: bool,
    fuel: nat,
)
    requires
        fs.wf(),
        fs.node_at(cur) == Some(NodeView::Dir),
        walk_in(fs.entries, cur, rest, follow_last, fuel) is Ok,
    ensures
        fs.node_at(walk_in(fs.entries, cur, rest, follow_last, fuel)->Ok_0) is Some,
        follow_last ==> !(fs.node_at(
            walk_in(fs.entries, cur, rest, follow_last, fuel)->Ok_0,
        )->Some_0 is Link),
    decreases fuel, rest.len(),
{
    if rest.len() > 0 {
        let p = cur.push(rest[0]);
        match node_in(fs.entries, p) {
            Some(NodeView::Dir) => {
                lemma_walk_end(fs, p, rest.skip(1), follow_last, fuel);
            },
            Some(NodeView::Link(t)) => {
                if !(rest.len() == 1 && !follow_last) {
                    lemma_link_base_is_dir(fs, cur, t);
                    lemma_walk_end(
                        fs,
                        link_base(cur, t),
                        t.names + rest.skip(1),
                        follow_last,
                        (fuel - 1) as nat,
                    );
                }
            },
            _ => {},
        }
    }
}

/// Whether every location on the way to `q` holds a directory.
pub open spec fn way_is_dirs(entries: Seq<EntryView>, q: Seq<Seq<char>>) -> bool {
    forall|k: int| 0 <= k < q.len() ==> node_in(entries, #[trigger] q.take(k)) == Some(NodeView::Dir)
}

/// The way to what a tree holds is made of directories.
pub proof fn lemma_way_is_dirs(fs: FsView, q: Seq<Seq<char>>)
    requires
        fs.wf(),
        fs.node_at(q) is Some,
    ensures
        way_is_dirs(fs.entries, q),
{
    if q.len() > 0 {
        lemma_present(fs, q);
        let i = fs.index_of(q);
        assert(fs.entries[i].path == q);
        assert forall|k: int| 0 <= k < q.len() implies node_in(fs.entries, #[trigger] q.take(k))
            == Some(NodeView::Dir) by {
            lemma_ancestors(fs, i, k);
        }
    }
}

/// A lookup along a way of directories comes to the last name of the way:
/// it ends where the lookup of that name from the directory before it ends.
pub proof fn lemma_walk_along(
    entries: Seq<EntryView>,
    q: Seq<Seq<char>>,
    more: Seq<Seq<char>>,
    k: int,
    follow_last: bool,
    fuel: nat,
)
    requires
        0 <= k <= q.len(),
        way_is_dirs(entries, q),
        more.len() > 0 ==> node_in(entries, q) == Some(NodeView::Dir),
        k < q.len() || more.len() > 0,
    ensures
        walk_in(entries, q.take(k), q.skip(k) + more, follow_last, fuel) == if more.len() > 0 {
            walk_in(entries, q, more, follow_last, fuel)
        } else {
            walk_in(entries, q.drop_last(), seq![q.last()], follow_last, fuel)
        },
    decreases q.len() - k,
{
    let rest = q.skip(k) + more;
    if k == q.len() {
        assert(q.take(k) =~= q);
        assert(rest =~= more);
    } else if k == q.len() - 1 && more.len() == 0 {
        assert(q.take(k) =~= q.drop_last());
        assert(rest =~= seq![q.last()]);
    } else {
        let p = q.take(k).push(rest[0]);
        assert(rest[0] == q[k]);
        assert(p =~= q.take(k + 1));
        assert(rest.skip(1) =~= q.skip(k + 1) + more);
        if k + 1 < q.len() {
            assert(node_in(entries, q.take(k + 1)) == Some(NodeView::Dir));
        } else {
            assert(q.take(k + 1) =~= q);
        }
        lemma_walk_along(entries, q, more, k + 1, follow_last, fuel);
    }
}

/// The lookup of a location that holds something other than a link ends at
/// that location.
pub proof fn lemma_walk_canonical(fs: FsView, q: Seq<Seq<char>>, follow_last: bool, fuel: nat)
    requires
        fs.wf(),
        fs.node_at(q) is Some,
        !follow_last || !(fs.node_at(q)->Some_0 is Link),
    ensures
        walk_in(fs.entries, Seq::empty(), q, follow_last, fuel) == Ok::<
            Seq<Seq<char>>,
            IoErrorKind,
        >(q),
{
    lemma_way_is_dirs(fs, q);
    if q.len() > 0 {
        lemma_walk_along(fs.entries, q, Seq::empty(), 0, follow_last, fuel);
        assert(q.take(0) =~= Seq::empty());
        assert(q.skip(0) + Seq::<Seq<char>>::empty() =~= q);
        let d = q.drop_last();
        let one = seq![q.last()];
        assert(d.push(one[0]) =~= q);
        assert(one.skip(1) =~= Seq::empty());
        assert(walk_in(fs.entries, q, Seq::empty(), follow_last, fuel) == Ok::<
            Seq<Seq<char>>,
            IoErrorKind,
        >(q));
        assert(walk_in(fs.entries, d, one, follow_last, fuel) == Ok::<Seq<Seq<char>>, IoErrorKind>(
            q,
        ));
    } else {
        assert(q =~= Seq::empty());
    }
}

/// The normal form of a path that leads to something is canonical: its own
/// normal form.
pub proof fn lemma_normalize_fixed(fs: FsView, p: PathView)
    requires
        fs.wf(),
        fs.present(p),
    ensures
        fs.normalize(fs.normalize(p)) == fs.normalize(p),
        fs.present(fs.normalize(p)),
        fs.locate(fs.normalize(p), true) == fs.locate(p, true),
{
    let q = fs.locate(p, true)->Ok_0;
    lemma_root(fs);
    lemma_walk_end(fs, Seq::empty(), p.names, true, MAX_LINK_HOPS as nat);
    lemma_walk_canonical(fs, q, true, MAX_LINK_HOPS as nat);
}

/// The lookup of a location that holds something other than a link, taken
/// up at any place on the way, ends at that location.
pub proof fn lemma_walk_from_prefix(
    fs: FsView,
    q: Seq<Seq<char>>,
    k: int,
    follow_last: bool,
    fuel: nat,
)
    requires
        fs.wf(),
        fs.node_at(q) is Some,
        !follow_last || !(fs.node_at(q)->Some_0 is Link),
        0 <= k <= q.len(),
    ensures
        walk_in(fs.entries, q.take(k), q.skip(k), follow_last, fuel) == Ok::<
            Seq<Seq<char>>,
            IoErrorKind,
        >(q),
{
    lemma_way_is_dirs(fs, q);
    lemma_walk_canonical(fs, q, follow_last, fuel);
    if k < q.len() {
        lemma_walk_along(fs.entries, q, Seq::empty(), 0, follow_last, fuel);
        lemma_walk_along(fs.entries, q, Seq::empty(), k, follow_last, fuel);
        assert(q.take(0) =~= Seq::empty());
        assert(q.skip(0) + Seq::<Seq<char>>::empty() =~= q);
        assert(q.skip(k) + Seq::<Seq<char>>::empty() =~= q.skip(k));
    } else {
        assert(q.take(k) =~= q);
        assert(q.skip(k) =~= Seq::empty());
    }
}

/// The lookup of a name inside a directory, from the root, is the lookup of
/// the name from the directory.
pub proof fn lemma_walk_last(
    fs: FsView,
    d: Seq<Seq<char>>,
    name: Seq<char>,
    follow_last: bool,
    fuel: nat,
)
    requires
        fs.wf(),
        fs.node_at(d) == Some(NodeView::Dir),
    ensures
        walk_in(fs.entries, Seq::empty(), d.push(name), follow_last, fuel) == walk_in(
            fs.entries,
            d,
            seq![name],
            follow_last,
            fuel,
        ),
{
    let q = d.push(name);
    lemma_way_is_dirs(fs, d);
    assert forall|k: int| 0 <= k < q.len() implies node_in(fs.entries, #[trigger] q.take(k))
        == Some(NodeView::Dir) by {
        if k < d.len() {
            assert(q.take(k) =~= d.take(k));
        } else {
            assert(q.take(k) =~= d);
        }
    }
    lemma_walk_along(fs.entries, q, Seq::empty(), 0, follow_last, fuel);
    assert(q.take(0) =~= Seq::empty());
    assert(q.skip(0) + Seq::<Seq<char>>::empty() =~= q);
    assert(q.drop_last() =~= d);
}

} // verus!
