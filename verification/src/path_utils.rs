//! Paths as sequences of names, kept lexically normalized, and the
//! arithmetic on them: joining, and the relative path from one to another.

use vstd::prelude::*;
use vstd::string::*;
use crate::error::StowError;
use crate::fs_model::FsView;
use crate::fs_ops::FileSystem;

verus! {

/// The mathematical value of a path: whether it starts at the root, how many
/// levels it climbs first (relative paths only), and the names it descends.
pub struct PathView {
    pub absolute: bool,
    pub ups: nat,
    pub names: Seq<Seq<char>>,
}

impl PathView {
    /// An absolute path never climbs: `..` at the root stays at the root.
    pub open spec fn wf(self) -> bool {
        self.absolute ==> self.ups == 0
    }

    pub open spec fn root() -> PathView {
        PathView { absolute: true, ups: 0, names: Seq::empty() }
    }

    pub open spec fn absolute_of(names: Seq<Seq<char>>) -> PathView {
        PathView { absolute: true, ups: 0, names }
    }

    /// The path with one more name below it.
    pub open spec fn child(self, name: Seq<char>) -> PathView {
        PathView { names: self.names.push(name), ..self }
    }

    /// Whether `self` lies below `above`: it is `above` with at least one
    /// more name.
    pub open spec fn is_below(self, above: PathView) -> bool {
        &&& self.absolute == above.absolute
        &&& self.ups == above.ups
        &&& self.names.len() > above.names.len()
        &&& self.names.take(above.names.len() as int) == above.names
    }

    /// The path without its last name, where it has one.
    pub open spec fn parent(self) -> Option<PathView> {
        if self.names.len() == 0 {
            None
        } else {
            Some(PathView { names: self.names.drop_last(), ..self })
        }
    }

    pub open spec fn file_name(self) -> Option<Seq<char>> {
        if self.names.len() == 0 {
            None
        } else {
            Some(self.names.last())
        }
    }

    /// `other` taken from `self`: an absolute `other` replaces `self`; a
    /// relative one first cancels as many trailing names of `self` as it
    /// climbs, and climbs on from there where `self` is relative too.
    pub open spec fn join(self, other: PathView) -> PathView {
        if other.absolute {
            other
        } else if other.ups <= self.names.len() {
            PathView {
                names: self.names.take(self.names.len() - other.ups) + other.names,
                ..self
            }
        } else if self.absolute {
            PathView { absolute: true, ups: 0, names: other.names }
        } else {
            PathView {
                absolute: false,
                ups: (self.ups + other.ups - self.names.len()) as nat,
                names: other.names,
            }
        }
    }

    /// What a component-wise walk over the path meets: the root marker of an
    /// absolute path, one `..` per level climbed, and the names.
    pub open spec fn components(self) -> Seq<Seq<char>> {
        (if self.absolute { seq![seq!['/']] } else { Seq::empty() })
            + Seq::new(self.ups, |i: int| seq!['.', '.'])
            + self.names
    }

    /// The text of the path, with `/` between components.
    pub open spec fn text(self) -> Seq<char> {
        if self.absolute {
            seq!['/'] + join_names(self.names)
        } else if self.ups == 0 && self.names.len() == 0 {
            seq!['.']
        } else {
            join_names(Seq::new(self.ups, |i: int| seq!['.', '.']) + self.names)
        }
    }
}

/// The names written one after another with a `/` between each two.
pub open spec fn join_names(names: Seq<Seq<char>>) -> Seq<char>
    decreases names.len(),
{
    if names.len() == 0 {
        Seq::empty()
    } else if names.len() == 1 {
        names[0]
    } else {
        join_names(names.drop_last()) + seq!['/'] + names.last()
    }
}

/// How many leading names two sequences share.
pub open spec fn common_len(a: Seq<Seq<char>>, b: Seq<Seq<char>>) -> nat
    decreases a.len(),
{
    if a.len() == 0 || b.len() == 0 || a[0] != b[0] {
        0
    } else {
        1 + common_len(a.skip(1), b.skip(1))
    }
}

/// The relative path that leads from `from` to `to`: one level up for each
/// name of `from` beyond what the two share, then the rest of `to`.
pub open spec fn relative_spec(from: PathView, to: PathView) -> PathView {
    let c = common_len(from.names, to.names);
    PathView { absolute: false, ups: (from.names.len() - c) as nat, names: to.names.skip(c as int) }
}

/// The pieces of a text between its `/` separators.
pub open spec fn split_spec(s: Seq<char>) -> Seq<Seq<char>>
    decreases s.len(),
{
    if s.len() == 0 {
        seq![Seq::empty()]
    } else {
        let init = split_spec(s.drop_last());
        if s.last() == '/' {
            init.push(Seq::empty())
        } else {
            init.update(init.len() - 1, init.last().push(s.last()))
        }
    }
}

/// One piece applied to a path: empty pieces and `.` change nothing, `..`
/// cancels the last name (or climbs, or stays at the root), a name descends.
pub open spec fn step_spec(p: PathView, piece: Seq<char>) -> PathView {
    if piece.len() == 0 || piece == seq!['.'] {
        p
    } else if piece == seq!['.', '.'] {
        if p.names.len() > 0 {
            PathView { names: p.names.drop_last(), ..p }
        } else if p.absolute {
            p
        } else {
            PathView { ups: p.ups + 1, ..p }
        }
    } else {
        PathView { names: p.names.push(piece), ..p }
    }
}

pub open spec fn fold_pieces(start: PathView, pieces: Seq<Seq<char>>) -> PathView
    decreases pieces.len(),
{
    if pieces.len() == 0 {
        start
    } else {
        step_spec(fold_pieces(start, pieces.drop_last()), pieces.last())
    }
}

/// The path that a text denotes. It is absolute where the text starts with
/// `/`.
pub open spec fn parse_spec(s: Seq<char>) -> PathView {
    fold_pieces(
        PathView { absolute: s.len() > 0 && s[0] == '/', ups: 0, names: Seq::empty() },
        split_spec(s),
    )
}

/// A path whose `.` components are dropped and whose `..` components have
/// cancelled the name before them.
#[derive(Debug, PartialEq, Eq)]
pub struct StowPath {
    absolute: bool,
    ups: usize,
    names: Vec<String>,
}

impl View for StowPath {
    type V = PathView;

    closed spec fn view(&self) -> PathView {
        PathView {
            absolute: self.absolute,
            ups: if self.absolute { 0 } else { self.ups as nat },
            names: self.names.deep_view(),
        }
    }
}

impl Clone for StowPath {
    fn clone(&self) -> (r: Self)
        ensures
            r@ == self@,
    {
        StowPath { absolute: self.absolute, ups: self.ups, names: self.names.clone() }
    }
}

impl StowPath {
    /// The root directory.
    pub fn root() -> (p: StowPath)
        ensures
            p@ == PathView::root(),
    {
        let p = StowPath { absolute: true, ups: 0, names: Vec::new() };
        assert(p.names.deep_view() =~= Seq::empty());
        p
    }

    /// The absolute path that descends the given names from the root.
    pub fn from_names(names: Vec<String>) -> (p: StowPath)
        ensures
            p@ == PathView::absolute_of(names.deep_view()),
    {
        StowPath { absolute: true, ups: 0, names }
    }

    /// The path that a text with `/` separators denotes.
    pub fn parse(s: &str) -> (p: StowPath)
        ensures
            p@ == parse_spec(s@),
    {
        let n: usize = s.unicode_len();
        let absolute = n > 0 && s.get_char(0) == '/';
        let mut p = StowPath { absolute, ups: 0, names: Vec::new() };
        let ghost init = PathView { absolute, ups: 0, names: Seq::empty() };
        assert(p.names.deep_view() =~= Seq::empty());
        let mut start: usize = 0;
        let mut i: usize = 0;
        assert(s@.take(0) =~= Seq::empty());
        assert(split_spec(s@.take(0)).drop_last() =~= Seq::empty());
        assert(s@.subrange(0, 0) =~= Seq::empty());
        while i < n
            invariant
                start <= i <= n,
                n == s@.len(),
                split_spec(s@.take(i as int)).len() >= 1,
                split_spec(s@.take(i as int)).last() == s@.subrange(start as int, i as int),
                p@ == fold_pieces(init, split_spec(s@.take(i as int)).drop_last()),
                p.absolute == absolute,
                p.ups * 3 <= start,
            decreases n - i,
        {
            let c = s.get_char(i);
            let ghost before = split_spec(s@.take(i as int));
            proof {
                assert(s@.take(i + 1).drop_last() =~= s@.take(i as int));
                assert(s@.take(i + 1).last() == c);
            }
            if c == '/' {
                let piece = s.substring_char(start, i);
                p.push_piece(piece);
                start = i + 1;
                proof {
                    let after = split_spec(s@.take(i + 1));
                    assert(after == before.push(Seq::empty()));
                    assert(after.drop_last() =~= before);
                    assert(before.drop_last().push(before.last()) =~= before);
                    assert(s@.subrange(start as int, i + 1) =~= Seq::empty());
                }
            } else {
                proof {
                    let after = split_spec(s@.take(i + 1));
                    assert(after.drop_last() =~= before.drop_last());
                    assert(s@.subrange(start as int, i + 1) =~= s@.subrange(
                        start as int,
                        i as int,
                    ).push(c));
                }
            }
            i += 1;
        }
        let piece = s.substring_char(start, n);
        p.push_piece(piece);
        proof {
            let all = split_spec(s@.take(n as int));
            assert(s@.take(n as int) =~= s@);
            assert(all.drop_last().push(all.last()) =~= all);
        }
        p
    }

    /// Applies one piece of a path text.
    fn push_piece(&mut self, piece: &str)
        requires
            old(self).ups < usize::MAX,
        ensures
            final(self)@ == step_spec(old(self)@, piece@),
            final(self).absolute == old(self).absolute,
            final(self).ups <= old(self).ups + 1,
            final(self).ups > old(self).ups ==> piece@.len() == 2,
    {
        let len: usize = piece.unicode_len();
        let ghost old_names = self.names.deep_view();
        if len == 0 {
        } else if len == 1 && piece.get_char(0) == '.' {
            assert(piece@ =~= seq!['.']);
        } else if len == 2 && piece.get_char(0) == '.' && piece.get_char(1) == '.' {
            assert(piece@ =~= seq!['.', '.']);
            if self.names.len() > 0 {
                self.names.pop();
                assert(self.names.deep_view() =~= old_names.drop_last());
            } else if self.absolute {
            } else {
                self.ups = self.ups + 1;
            }
        } else {
            assert(piece@ != seq!['.']) by {
                if piece@ == seq!['.'] {
                    assert(seq!['.'].len() == 1);
                    assert(seq!['.'][0] == '.');
                }
            }
            assert(piece@ != seq!['.', '.']) by {
                if piece@ == seq!['.', '.'] {
                    assert(seq!['.', '.'].len() == 2);
                    assert(seq!['.', '.'][0] == '.');
                    assert(seq!['.', '.'][1] == '.');
                }
            }
            self.names.push(String::from_str(piece));
            assert(self.names.deep_view() =~= old_names.push(piece@));
        }
    }

    pub fn is_absolute(&self) -> (b: bool)
        ensures
            b == self@.absolute,
    {
        self.absolute
    }

    pub fn is_relative(&self) -> (b: bool)
        ensures
            b == !self@.absolute,
    {
        !self.absolute
    }

    /// The names that the path descends.
    pub fn names(&self) -> (r: &Vec<String>)
        ensures
            r.deep_view() == self@.names,
    {
        &self.names
    }

    /// How many levels a relative path climbs before it descends.
    pub fn ups(&self) -> (r: usize)
        ensures
            r == self@.ups,
    {
        if self.absolute {
            0
        } else {
            self.ups
        }
    }

    /// The path with one more name below it.
    pub fn child(&self, name: &str) -> (r: StowPath)
        ensures
            r@ == self@.child(name@),
    {
        let mut names = self.names.clone();
        names.push(String::from_str(name));
        assert(names.deep_view() =~= self.names.deep_view().push(name@));
        StowPath { absolute: self.absolute, ups: self.ups, names }
    }

    /// The path without its last name, where it has one.
    pub fn parent(&self) -> (r: Option<StowPath>)
        ensures
            r is Some == self@.parent() is Some,
            r matches Some(p) ==> Some(p@) == self@.parent(),
    {
        if self.names.len() == 0 {
            None
        } else {
            let mut names = self.names.clone();
            names.pop();
            assert(names.deep_view() =~= self.names.deep_view().drop_last());
            Some(StowPath { absolute: self.absolute, ups: self.ups, names })
        }
    }

    /// The last name of the path, where it has one.
    pub fn file_name(&self) -> (r: Option<String>)
        ensures
            r is Some == self@.file_name() is Some,
            r matches Some(n) ==> Some(n@) == self@.file_name(),
    {
        if self.names.len() == 0 {
            None
        } else {
            Some(self.names[self.names.len() - 1].clone())
        }
    }

    /// One `..` per level climbed, followed by the names.
    fn relative_parts(&self) -> (r: Vec<String>)
        ensures
            r.deep_view() == Seq::new(self@.ups, |i: int| seq!['.', '.']) + self@.names,
    {
        let ups = self.ups();
        let mut parts: Vec<String> = Vec::new();
        let mut k: usize = 0;
        while k < ups
            invariant
                k <= ups,
                parts.deep_view() == Seq::new(k as nat, |i: int| seq!['.', '.']),
            decreases ups - k,
        {
            let ghost before = parts.deep_view();
            parts.push(String::from_str(".."));
            proof {
                reveal_strlit("..");
                assert(".."@ =~= seq!['.', '.']);
                assert(parts.deep_view() =~= before.push(seq!['.', '.']));
                assert(before.push(seq!['.', '.']) =~= Seq::new(
                    (k + 1) as nat,
                    |i: int| seq!['.', '.'],
                ));
            }
            k += 1;
        }
        let mut j: usize = 0;
        while j < self.names.len()
            invariant
                j <= self.names.len(),
                parts.deep_view() == Seq::new(ups as nat, |i: int| seq!['.', '.'])
                    + self.names.deep_view().take(j as int),
            decreases self.names.len() - j,
        {
            let ghost before = parts.deep_view();
            parts.push(self.names[j].clone());
            proof {
                assert(parts.deep_view() =~= before.push(self.names[j as int]@));
                assert(self.names.deep_view().take(j + 1) =~= self.names.deep_view().take(
                    j as int,
                ).push(self.names[j as int]@));
            }
            j += 1;
        }
        assert(self.names.deep_view().take(self.names.len() as int) =~= self.names.deep_view());
        parts
    }

    /// What a component-wise walk over the path meets.
    pub fn components(&self) -> (r: Vec<String>)
        ensures
            r.deep_view() == self@.components(),
    {
        let rest = self.relative_parts();
        if self.absolute {
            let mut parts: Vec<String> = Vec::new();
            parts.push(String::from_str("/"));
            proof {
                reveal_strlit("/");
                assert("/"@ =~= seq!['/']);
                assert(parts.deep_view() =~= seq![seq!['/']]);
            }
            let mut j: usize = 0;
            while j < rest.len()
                invariant
                    j <= rest.len(),
                    parts.deep_view() == seq![seq!['/']] + rest.deep_view().take(j as int),
                decreases rest.len() - j,
            {
                let ghost before = parts.deep_view();
                parts.push(rest[j].clone());
                proof {
                    assert(parts.deep_view() =~= before.push(rest[j as int]@));
                    assert(rest.deep_view().take(j + 1) =~= rest.deep_view().take(j as int).push(
                        rest[j as int]@,
                    ));
                }
                j += 1;
            }
            proof {
                assert(rest.deep_view().take(rest.len() as int) =~= rest.deep_view());
                assert(Seq::new(0nat, |i: int| seq!['.', '.']) =~= Seq::<Seq<char>>::empty());
                assert(parts.deep_view() =~= self@.components());
            }
            parts
        } else {
            assert(rest.deep_view() =~= self@.components());
            rest
        }
    }

    /// The text of the path, with `/` between components.
    pub fn to_string(&self) -> (r: String)
        ensures
            r@ == self@.text(),
    {
        if self.absolute {
            let mut s = String::from_str("/");
            let tail = join_list(&self.names);
            s.append(tail.as_str());
            proof {
                reveal_strlit("/");
                assert("/"@ =~= seq!['/']);
            }
            s
        } else if self.ups == 0 && self.names.len() == 0 {
            proof {
                reveal_strlit(".");
                assert("."@ =~= seq!['.']);
            }
            String::from_str(".")
        } else {
            let parts = self.relative_parts();
            join_list(&parts)
        }
    }

    /// `other` taken from this path: an absolute `other` replaces it, a
    /// relative one cancels trailing names for the levels it climbs.
    pub fn join(&self, other: &StowPath) -> (r: StowPath)
        requires
            self@.join(other@).ups <= usize::MAX,
        ensures
            r@ == self@.join(other@),
    {
        if other.absolute {
            return other.clone();
        }
        let n: usize = self.names.len();
        if other.ups <= n {
            let keep: usize = n - other.ups;
            let mut names: Vec<String> = Vec::new();
            assert(names.deep_view() =~= Seq::empty());
            extend_names(&mut names, &self.names, 0, keep);
            extend_names(&mut names, &other.names, 0, other.names.len());
            proof {
                assert(self.names.deep_view().subrange(0, keep as int) =~= self.names.deep_view().take(
                    keep as int,
                ));
                assert(other.names.deep_view().subrange(0, other.names.len() as int)
                    =~= other.names.deep_view());
                assert(names.deep_view() =~= self.names.deep_view().take(keep as int)
                    + other.names.deep_view());
            }
            StowPath { absolute: self.absolute, ups: self.ups, names }
        } else if self.absolute {
            StowPath { absolute: true, ups: 0, names: other.names.clone() }
        } else {
            StowPath { absolute: false, ups: self.ups + (other.ups - n), names: other.names.clone() }
        }
    }

    /// Whether two paths are the same path.
    pub fn equals(&self, other: &StowPath) -> (b: bool)
        ensures
            b == (self@ == other@),
    {
        if self.absolute != other.absolute || self.ups() != other.ups() {
            return false;
        }
        let same = names_equal(&self.names, &other.names);
        same
    }
}

/// The names written one after another with a `/` between each two.
pub fn join_list(parts: &Vec<String>) -> (r: String)
    ensures
        r@ == join_names(parts.deep_view()),
{
    let mut s = String::new();
    let mut j: usize = 0;
    while j < parts.len()
        invariant
            j <= parts.len(),
            s@ == join_names(parts.deep_view().take(j as int)),
        decreases parts.len() - j,
    {
        let ghost before = parts.deep_view().take(j as int);
        let ghost after = parts.deep_view().take(j + 1);
        proof {
            assert(after.drop_last() =~= before);
            assert(after.last() == parts[j as int]@);
            reveal_strlit("/");
            assert("/"@ =~= seq!['/']);
        }
        if j > 0 {
            s.append("/");
        }
        s.append(parts[j].as_str());
        proof {
            if j == 0 {
                assert(s@ =~= parts[j as int]@);
            }
        }
        j += 1;
    }
    assert(parts.deep_view().take(parts.len() as int) =~= parts.deep_view());
    s
}

/// Appends the names of `src` at positions `from..to` to `dst`.
pub fn extend_names(dst: &mut Vec<String>, src: &Vec<String>, from: usize, to: usize)
    requires
        from <= to <= src.len(),
    ensures
        final(dst).deep_view() == old(dst).deep_view() + src.deep_view().subrange(
            from as int,
            to as int,
        ),
{
    let mut j: usize = from;
    assert(src.deep_view().subrange(from as int, from as int) =~= Seq::empty());
    assert(dst.deep_view() =~= old(dst).deep_view() + Seq::empty());
    while j < to
        invariant
            from <= j <= to <= src.len(),
            dst.deep_view() == old(dst).deep_view() + src.deep_view().subrange(
                from as int,
                j as int,
            ),
        decreases to - j,
    {
        let ghost before = dst.deep_view();
        dst.push(src[j].clone());
        proof {
            assert(dst.deep_view() =~= before.push(src[j as int]@));
            assert(src.deep_view().subrange(from as int, j + 1) =~= src.deep_view().subrange(
                from as int,
                j as int,
            ).push(src[j as int]@));
            assert(dst.deep_view() =~= old(dst).deep_view() + src.deep_view().subrange(
                from as int,
                j + 1,
            ));
        }
        j += 1;
    }
}

/// The shared leading names are at most as many as either sequence has, and
/// they are the same names.
pub proof fn lemma_common_len(a: Seq<Seq<char>>, b: Seq<Seq<char>>)
    ensures
        common_len(a, b) <= a.len(),
        common_len(a, b) <= b.len(),
        a.take(common_len(a, b) as int) == b.take(common_len(a, b) as int),
        common_len(a, b) < a.len() && common_len(a, b) < b.len() ==> a[common_len(a, b) as int]
            != b[common_len(a, b) as int],
    decreases a.len(),
{
    if a.len() == 0 || b.len() == 0 || a[0] != b[0] {
        assert(a.take(0) =~= b.take(0));
    } else {
        lemma_common_len(a.skip(1), b.skip(1));
        let c = common_len(a.skip(1), b.skip(1)) as int;
        assert(a.take(c + 1) =~= seq![a[0]] + a.skip(1).take(c));
        assert(b.take(c + 1) =~= seq![b[0]] + b.skip(1).take(c));
        if c + 1 < a.len() && c + 1 < b.len() {
            assert(a.skip(1)[c] == a[c + 1]);
            assert(b.skip(1)[c] == b[c + 1]);
        }
    }
}

/// Taking the relative path from `from` to `to` at `from` arrives at `to`.
pub proof fn lemma_relative_leads_back(from: PathView, to: PathView)
    requires
        from.absolute,
        to.absolute,
        from.wf(),
        to.wf(),
    ensures
        from.join(relative_spec(from, to)) == to,
{
    lemma_common_len(from.names, to.names);
    let c = common_len(from.names, to.names);
    assert(from.names.take(c as int) + to.names.skip(c as int) =~= to.names) by {
        assert(to.names.take(c as int) + to.names.skip(c as int) =~= to.names);
    }
    assert((from.names.len() - (from.names.len() - c)) as int == c);
}

/// The relative path from one absolute path to another: one level up for
/// each name of `from` beyond what the two share, then the rest of `to`.
pub fn compute_relative_path(from: &StowPath, to: &StowPath) -> (r: Result<StowPath, StowError>)
    ensures
        from@.absolute && to@.absolute ==> (r matches Ok(p) && p@ == relative_spec(from@, to@)),
        !(from@.absolute && to@.absolute) ==> (r matches Err(e) && e@
            == crate::error::ErrorView::InvalidPath(
            "Both 'from' and 'to' paths must be absolute for relative path computation"@,
        )),
{
    if !from.absolute || !to.absolute {
        return Err(
            StowError::invalid_path(
                "Both 'from' and 'to' paths must be absolute for relative path computation",
            ),
        );
    }
    let a = &from.names;
    let b = &to.names;
    let mut c: usize = 0;
    proof {
        assert(a.deep_view().skip(0) =~= a.deep_view());
        assert(b.deep_view().skip(0) =~= b.deep_view());
    }
    while c < a.len() && c < b.len() && components_equal(&a[c], &b[c])
        invariant
            c <= a.len(),
            c <= b.len(),
            common_len(a.deep_view(), b.deep_view()) == c + common_len(
                a.deep_view().skip(c as int),
                b.deep_view().skip(c as int),
            ),
        decreases a.len() - c,
    {
        proof {
            let x = a.deep_view().skip(c as int);
            let y = b.deep_view().skip(c as int);
            assert(x[0] == a.deep_view()[c as int]);
            assert(y[0] == b.deep_view()[c as int]);
            assert(x.skip(1) =~= a.deep_view().skip(c + 1));
            assert(y.skip(1) =~= b.deep_view().skip(c + 1));
        }
        c += 1;
    }
    proof {
        let x = a.deep_view().skip(c as int);
        let y = b.deep_view().skip(c as int);
        if c < a.len() && c < b.len() {
            assert(x[0] == a.deep_view()[c as int]);
            assert(y[0] == b.deep_view()[c as int]);
        }
        assert(common_len(x, y) == 0);
    }
    let mut names: Vec<String> = Vec::new();
    assert(names.deep_view() =~= Seq::empty());
    extend_names(&mut names, b, c, b.len());
    proof {
        assert(b.deep_view().subrange(c as int, b.len() as int) =~= b.deep_view().skip(c as int));
        assert(names.deep_view() =~= b.deep_view().skip(c as int));
    }
    Ok(StowPath { absolute: false, ups: a.len() - c, names })
}

/// The absolute canonical form of a path: all links resolved where the path
/// leads to something, else the path made absolute from the root. It never
/// fails.
pub fn normalize_path(fs: &FileSystem, path: &StowPath) -> (r: Result<StowPath, StowError>)
    requires
        fs@.wf(),
    ensures
        r matches Ok(p) && p@ == fs@.normalize(path@),
{
    match fs.canonicalize(path) {
        Ok(q) => Ok(q),
        Err(_) => {
            let root = StowPath::root();
            Ok(root.join(path))
        },
    }
}

/// Whether two paths have the same canonical form.
pub open spec fn paths_equal_spec(fs: FsView, a: PathView, b: PathView) -> bool {
    fs.normalize(a) == fs.normalize(b)
}

/// Whether two paths lead to the same place: both are normalized and the
/// results compared name by name.
pub fn paths_equal(fs: &FileSystem, a: &StowPath, b: &StowPath) -> (r: bool)
    requires
        fs@.wf(),
    ensures
        r == paths_equal_spec(fs@, a@, b@),
{
    let x = normalize_path(fs, a);
    let y = normalize_path(fs, b);
    match (x, y) {
        (Ok(p), Ok(q)) => p.equals(&q),
        _ => false,
    }
}

/// Whether two lists of names hold the same names in the same order.
pub fn names_equal(a: &Vec<String>, b: &Vec<String>) -> (r: bool)
    ensures
        r == (a.deep_view() == b.deep_view()),
{
    if a.len() != b.len() {
        assert(a.deep_view().len() != b.deep_view().len());
        return false;
    }
    let mut i: usize = 0;
    while i < a.len()
        invariant
            i <= a.len(),
            a.len() == b.len(),
            forall|j: int| 0 <= j < i ==> a.deep_view()[j] == b.deep_view()[j],
        decreases a.len() - i,
    {
        if !components_equal(&a[i], &b[i]) {
            assert(a.deep_view()[i as int] != b.deep_view()[i as int]);
            return false;
        }
        i += 1;
    }
    assert(a.deep_view() =~= b.deep_view());
    true
}

/// Whether two path components are the same name. Names are compared as they
/// are written.
pub fn components_equal(a: &String, b: &String) -> (r: bool)
    ensures
        r == (a@ == b@),
{
    *a == *b
}

/// Every path value is well formed.
pub proof fn lemma_view_wf(p: StowPath)
    ensures
        p@.wf(),
{
}

} // verus!
