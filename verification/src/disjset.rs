//! Disjoint-set (union-find) over a fixed universe `0 .. n`.
//!
//! Each element optionally points at a parent; an element without a parent is
//! the root of its set.  `find` resolves an element to its root and compresses
//! the path it walked; `lookup` resolves without mutating; `union` hangs one
//! root under another.  A ghost rank sequence, strictly increasing along
//! parent links, witnesses that the parent graph is acyclic and bounds the
//! length of every parent chain.

use vstd::prelude::*;

verus! {

/// Union-find over `n` elements, with path compression on `find`.
pub struct DisjSet {
    nodes: Vec<Option<usize>>,
    rank: Ghost<Seq<nat>>,
}

/// Status of two sets relative to each other, as reported by
/// [`DisjSet::find_roots`].
#[derive(Debug)]
pub enum Roots {
    /// Both elements resolve to this one root.
    Same(usize),
    /// The elements resolve to these two distinct roots.
    DisJoint(usize, usize),
}

/// Number of entries of `s` that are `None`, i.e. of elements that have never
/// been given a parent.
pub open spec fn cnt_none(s: Seq<Option<usize>>) -> nat
    decreases s.len(),
{
    if s.len() == 0 {
        0
    } else {
        cnt_none(s.drop_last()) + if s.last() is None {
            1nat
        } else {
            0nat
        }
    }
}

/// Every parent link stays inside the universe and strictly increases rank.
pub open spec fn links_ok(s: Seq<Option<usize>>, rank: Seq<nat>) -> bool {
    &&& rank.len() == s.len()
    &&& forall|i: int|
        0 <= i < s.len() ==> match #[trigger] s[i] {
            Option::Some(p) => 0 <= p < s.len() && rank[p as int] > rank[i],
            Option::None => true,
        }
}

/// Every rank is strictly below the size of the universe.
pub open spec fn ranks_lt(s: Seq<Option<usize>>, rank: Seq<nat>) -> bool {
    forall|i: int| 0 <= i < s.len() ==> #[trigger] rank[i] < s.len()
}

/// Follow parent links from `c` for at most `fuel` steps.
pub open spec fn root_n(s: Seq<Option<usize>>, c: int, fuel: nat) -> int
    decreases fuel,
{
    if fuel == 0 || !(0 <= c < s.len()) {
        c
    } else {
        match s[c] {
            Option::Some(p) => root_n(s, p as int, (fuel - 1) as nat),
            Option::None => c,
        }
    }
}

/// The root of the set that `c` belongs to.  When the parent links are
/// acyclic, `s.len()` steps always suffice to reach the root.
pub open spec fn root_of(s: Seq<Option<usize>>, c: int) -> int {
    root_n(s, c, s.len())
}

impl DisjSet {
    /// Size of the universe.
    pub closed spec fn spec_len(self) -> nat {
        self.nodes@.len()
    }

    /// Number of elements that have never been given a parent.  This counts
    /// live sets while unions are performed only on roots.
    pub closed spec fn sets(self) -> nat {
        cnt_none(self.nodes@)
    }

    /// The root of `c`'s set.
    pub closed spec fn repr(self, c: int) -> int {
        root_of(self.nodes@, c)
    }

    /// `r` is the root of a set.
    pub closed spec fn is_root(self, r: int) -> bool {
        0 <= r < self.nodes@.len() && self.nodes@[r] is None
    }

    /// Structural invariant: parent links are acyclic (witnessed by the ghost
    /// ranks) and every rank leaves room for the live-set count.
    pub closed spec fn wf(self) -> bool {
        &&& self.rank@.len() == self.nodes@.len()
        &&& links_ok(self.nodes@, self.rank@)
        &&& forall|i: int|
            0 <= i < self.nodes@.len() ==> #[trigger] self.rank@[i] + cnt_none(self.nodes@)
                <= self.nodes@.len()
        &&& self.nodes@.len() > 0 ==> cnt_none(self.nodes@) >= 1
    }
}

proof fn lemma_cnt_none_le(s: Seq<Option<usize>>)
    ensures
        cnt_none(s) <= s.len(),
    decreases s.len(),
{
    if s.len() > 0 {
        lemma_cnt_none_le(s.drop_last());
    }
}

proof fn lemma_cnt_none_all(s: Seq<Option<usize>>)
    requires
        forall|i: int| 0 <= i < s.len() ==> (#[trigger] s[i]) is None,
    ensures
        cnt_none(s) == s.len(),
    decreases s.len(),
{
    if s.len() > 0 {
        lemma_cnt_none_all(s.drop_last());
    }
}

/// Updating one entry changes the `None` count by the difference at that spot.
proof fn lemma_cnt_none_update(s: Seq<Option<usize>>, i: int, v: Option<usize>)
    requires
        0 <= i < s.len(),
    ensures
        cnt_none(s.update(i, v)) + (if s[i] is None { 1nat } else { 0nat }) == cnt_none(s) + (
        if v is None {
            1nat
        } else {
            0nat
        }),
    decreases s.len(),
{
    let s2 = s.update(i, v);
    if i == s.len() - 1 {
        assert(s2.drop_last() =~= s.drop_last());
    } else {
        assert(s2.drop_last() =~= s.drop_last().update(i, v));
        lemma_cnt_none_update(s.drop_last(), i, v);
    }
}

/// Two sequences whose `None` entries sit at the same positions have the same
/// `None` count.
proof fn lemma_cnt_none_congruent(s1: Seq<Option<usize>>, s2: Seq<Option<usize>>)
    requires
        s1.len() == s2.len(),
        forall|i: int| 0 <= i < s1.len() ==> ((#[trigger] s1[i]) is None <==> s2[i] is None),
    ensures
        cnt_none(s1) == cnt_none(s2),
    decreases s1.len(),
{
    if s1.len() > 0 {
        lemma_cnt_none_congruent(s1.drop_last(), s2.drop_last());
    }
}

/// Two distinct un-parented elements witness at least two live sets.
proof fn lemma_cnt_none_two(s: Seq<Option<usize>>, i: int, j: int)
    requires
        0 <= i < s.len(),
        0 <= j < s.len(),
        i != j,
        s[i] is None,
        s[j] is None,
    ensures
        cnt_none(s) >= 2,
    decreases s.len(),
{
    if i == s.len() - 1 || j == s.len() - 1 {
        let k = if i == s.len() - 1 {
            j
        } else {
            i
        };
        lemma_cnt_none_one(s.drop_last(), k);
    } else {
        lemma_cnt_none_two(s.drop_last(), i, j);
    }
}

/// An un-parented element witnesses at least one live set.
proof fn lemma_cnt_none_one(s: Seq<Option<usize>>, i: int)
    requires
        0 <= i < s.len(),
        s[i] is None,
    ensures
        cnt_none(s) >= 1,
    decreases s.len(),
{
    if i < s.len() - 1 {
        lemma_cnt_none_one(s.drop_last(), i);
    }
}

/// When only one live set is left, every un-parented element is the same one.
proof fn lemma_cnt_none_unique(s: Seq<Option<usize>>, i: int, j: int)
    requires
        cnt_none(s) <= 1,
        0 <= i < s.len(),
        0 <= j < s.len(),
        s[i] is None,
        s[j] is None,
    ensures
        i == j,
{
    if i != j {
        lemma_cnt_none_two(s, i, j);
    }
}

/// With enough fuel the chase from `c` reaches a genuine root, and the result
/// does not depend on the exact amount of fuel.
proof fn lemma_root_fuel(s: Seq<Option<usize>>, rank: Seq<nat>, c: int, f1: nat, f2: nat)
    requires
        links_ok(s, rank),
        ranks_lt(s, rank),
        0 <= c < s.len(),
        f1 + rank[c] >= s.len(),
        f2 + rank[c] >= s.len(),
    ensures
        root_n(s, c, f1) == root_n(s, c, f2),
        0 <= root_n(s, c, f1) < s.len(),
        s[root_n(s, c, f1)] is None,
        rank[root_n(s, c, f1)] >= rank[c],
    decreases f1,
{
    match s[c] {
        Option::None => {},
        Option::Some(p) => {
            lemma_root_fuel(s, rank, p as int, (f1 - 1) as nat, (f2 - 1) as nat);
        },
    }
}

/// Basic facts about `root_of` under the rank invariants: the result is an
/// in-range root, chasing one link does not change it, and rank never drops
/// along the way.
proof fn lemma_root_of(s: Seq<Option<usize>>, rank: Seq<nat>, c: int)
    requires
        links_ok(s, rank),
        ranks_lt(s, rank),
        0 <= c < s.len(),
    ensures
        0 <= root_of(s, c) < s.len(),
        s[root_of(s, c)] is None,
        rank[root_of(s, c)] >= rank[c],
        s[c] is None ==> root_of(s, c) == c,
        s[c] matches Option::Some(p) ==> root_of(s, c) == root_of(s, p as int) && rank[root_of(
            s,
            c,
        )] > rank[c],
    decreases s.len() - rank[c],
{
    lemma_root_fuel(s, rank, c, s.len(), s.len());
    match s[c] {
        Option::None => {},
        Option::Some(p) => {
            lemma_root_fuel(s, rank, p as int, (s.len() - 1) as nat, s.len());
            lemma_root_of(s, rank, p as int);
        },
    }
}

/// Hanging root `r2` under root `r1` reroutes exactly the elements of `r2`'s
/// set to `r1` and leaves every other element's root unchanged.
proof fn lemma_union_repr_at(
    s: Seq<Option<usize>>,
    rank: Seq<nat>,
    s2: Seq<Option<usize>>,
    rank2: Seq<nat>,
    r1: int,
    r2: int,
    x: int,
)
    requires
        s.len() <= usize::MAX,
        links_ok(s, rank),
        ranks_lt(s, rank),
        links_ok(s2, rank2),
        ranks_lt(s2, rank2),
        0 <= r1 < s.len(),
        0 <= r2 < s.len(),
        r1 != r2,
        s[r1] is None,
        s[r2] is None,
        s2 == s.update(r2, Option::Some(r1 as usize)),
        0 <= x < s.len(),
    ensures
        root_of(s2, x) == if root_of(s, x) == r2 {
            r1
        } else {
            root_of(s, x)
        },
    decreases s.len() - rank[x],
{
    lemma_root_of(s, rank, x);
    lemma_root_of(s2, rank2, x);
    match s[x] {
        Option::None => {
            if x == r2 {
                lemma_root_of(s2, rank2, r1);
            }
        },
        Option::Some(p) => {
            lemma_union_repr_at(s, rank, s2, rank2, r1, r2, p as int);
        },
    }
}

/// Rewriting one non-root entry to point directly at its own root changes no
/// element's root.
proof fn lemma_compress_repr_at(s: Seq<Option<usize>>, rank: Seq<nat>, c0: int, x: int)
    requires
        s.len() <= usize::MAX,
        links_ok(s, rank),
        ranks_lt(s, rank),
        0 <= c0 < s.len(),
        s[c0] is Some,
        0 <= x < s.len(),
    ensures
        links_ok(s.update(c0, Option::Some(root_of(s, c0) as usize)), rank),
        root_of(s.update(c0, Option::Some(root_of(s, c0) as usize)), x) == root_of(s, x),
    decreases s.len() - rank[x],
{
    let r0 = root_of(s, c0);
    lemma_root_of(s, rank, c0);
    let s2 = s.update(c0, Option::Some(r0 as usize));
    assert(links_ok(s2, rank)) by {
        assert forall|i: int| 0 <= i < s2.len() implies match #[trigger] s2[i] {
            Option::Some(p) => 0 <= p < s2.len() && rank[p as int] > rank[i],
            Option::None => true,
        } by {
            if i != c0 {
                assert(s2[i] == s[i]);
            } else {
                assert(0 <= r0 < s.len());
                assert(s2[i] == Option::Some(r0 as usize));
                assert((r0 as usize) as int == r0);
                assert(rank[(r0 as usize) as int] > rank[i]);
            }
        }
    }
    lemma_root_of(s, rank, x);
    lemma_root_of(s2, rank, x);
    match s[x] {
        Option::None => {},
        Option::Some(p) => {
            if x == c0 {
                lemma_root_of(s2, rank, r0);
            } else {
                lemma_compress_repr_at(s, rank, c0, p as int);
            }
        },
    }
}

/// What one call of [`DisjSet::find`] guarantees: the result is the root the
/// queried element had before the call, and compression changes nothing that
/// `lookup` can observe — every element keeps its root, its root-ness and the
/// live-set count.
pub open spec fn find_post(pre: DisjSet, post: DisjSet, c: int, r: int) -> bool {
    &&& post.wf()
    &&& post.spec_len() == pre.spec_len()
    &&& post.sets() == pre.sets()
    &&& r == pre.repr(c)
    &&& post.is_root(r)
    &&& forall|x: int| 0 <= x < pre.spec_len() ==> post.repr(x) == pre.repr(x)
    &&& forall|x: int| 0 <= x < pre.spec_len() ==> (post.is_root(x) <==> pre.is_root(x))
}

/// Resolve `c` to its root in `nodes`, rewriting every entry on the walked
/// path to point directly at that root.
fn find_at(nodes: &mut Vec<Option<usize>>, Ghost(rank): Ghost<Seq<nat>>, c: usize) -> (r: usize)
    requires
        old(nodes)@.len() <= usize::MAX,
        links_ok(old(nodes)@, rank),
        ranks_lt(old(nodes)@, rank),
        c < old(nodes)@.len(),
    ensures
        final(nodes)@.len() == old(nodes)@.len(),
        links_ok(final(nodes)@, rank),
        ranks_lt(final(nodes)@, rank),
        r == root_of(old(nodes)@, c as int),
        r < final(nodes)@.len(),
        final(nodes)@[r as int] is None,
        forall|x: int|
            0 <= x < old(nodes)@.len() ==> root_of(final(nodes)@, x) == root_of(old(nodes)@, x),
        forall|x: int|
            0 <= x < old(nodes)@.len() ==> ((#[trigger] final(nodes)@[x]) is None <==> old(
                nodes,
            )@[x] is None),
    decreases old(nodes)@.len() - rank[c as int],
{
    let node = nodes[c];
    match node {
        Option::None => {
            proof {
                lemma_root_of(nodes@, rank, c as int);
            }
            c
        },
        Option::Some(p) => {
            proof {
                lemma_root_of(nodes@, rank, c as int);
            }
            let r = find_at(nodes, Ghost(rank), p);
            let ghost mid = nodes@;
            nodes[c] = Option::Some(r);
            proof {
                assert(root_of(mid, c as int) == root_of(old(nodes)@, c as int));
                assert(mid[c as int] is Some);
                assert(r as int == root_of(mid, c as int));
                assert(nodes@ =~= mid.update(c as int, Option::Some(r)));
                assert forall|x: int| 0 <= x < mid.len() implies root_of(nodes@, x) == root_of(
                    mid,
                    x,
                ) by {
                    lemma_compress_repr_at(mid, rank, c as int, x);
                }
                lemma_compress_repr_at(mid, rank, c as int, c as int);
            }
            r
        },
    }
}

/// Resolve `c` to its root without mutating anything.
fn lookup_at(nodes: &Vec<Option<usize>>, Ghost(rank): Ghost<Seq<nat>>, c: usize) -> (r: usize)
    requires
        links_ok(nodes@, rank),
        ranks_lt(nodes@, rank),
        c < nodes@.len(),
    ensures
        r == root_of(nodes@, c as int),
    decreases nodes@.len() - rank[c as int],
{
    proof {
        lemma_root_of(nodes@, rank, c as int);
    }
    match nodes[c] {
        Option::None => c,
        Option::Some(p) => lookup_at(nodes, Ghost(rank), p),
    }
}

impl DisjSet {
    /// A universe of `size` singleton sets: no element has a parent yet.
    pub fn new(size: usize) -> (r: DisjSet)
        ensures
            r.wf(),
            r.spec_len() == size,
            r.sets() == size,
            forall|x: int| 0 <= x < size ==> r.repr(x) == x,
            forall|x: int| 0 <= x < size ==> r.is_root(x),
    {
        let r = DisjSet { nodes: vec![None; size], rank: Ghost(Seq::new(size as nat, |i| 0nat)) };
        proof {
            lemma_cnt_none_all(r.nodes@);
        }
        r
    }

    /// Join the two sets rooted at `r1` and `r2` by making `r1` the parent of
    /// `r2`.  The caller must pass two distinct already-resolved roots.  The
    /// live-set count drops by exactly one, and exactly the elements that were
    /// in `r2`'s set now resolve to `r1`.
    pub fn union(&mut self, r1: usize, r2: usize)
        requires
            old(self).wf(),
            old(self).is_root(r1 as int),
            old(self).is_root(r2 as int),
            r1 != r2,
        ensures
            final(self).wf(),
            final(self).spec_len() == old(self).spec_len(),
            final(self).sets() == old(self).sets() - 1,
            final(self).is_root(r1 as int),
            forall|x: int|
                0 <= x < old(self).spec_len() ==> final(self).repr(x) == (if old(self).repr(x)
                    == r2 {
                    r1 as int
                } else {
                    old(self).repr(x)
                }),
    {
        let n = self.nodes.len();
        let ghost s = self.nodes@;
        let ghost rank = self.rank@;
        proof {
            assert(n == s.len() && n <= usize::MAX);
        }
        let ghost nr = (if rank[r1 as int] >= rank[r2 as int] {
            rank[r1 as int]
        } else {
            rank[r2 as int]
        }) + 1;
        let ghost rank2 = rank.update(r1 as int, nr);
        self.nodes[r2] = Option::Some(r1);
        proof {
            self.rank@ = rank2;
            let s2 = self.nodes@;
            assert(s2 =~= s.update(r2 as int, Option::Some(r1)));
            lemma_cnt_none_two(s, r1 as int, r2 as int);
            lemma_cnt_none_update(s, r2 as int, Option::Some(r1));
            assert(cnt_none(s2) == cnt_none(s) - 1);
            assert(links_ok(s2, rank2)) by {
                assert forall|i: int| 0 <= i < s2.len() implies match #[trigger] s2[i] {
                    Option::Some(p) => 0 <= p < s2.len() && rank2[p as int] > rank2[i],
                    Option::None => true,
                } by {
                    if i == r2 as int {
                        assert(s2[i] == Option::Some(r1));
                    } else {
                        assert(s2[i] == s[i]);
                    }
                }
            }
            assert(ranks_lt(s, rank));
            assert(ranks_lt(s2, rank2));
            assert forall|x: int| 0 <= x < s.len() implies root_of(s2, x) == (if root_of(s, x)
                == r2 as int {
                r1 as int
            } else {
                root_of(s, x)
            }) by {
                lemma_union_repr_at(s, rank, s2, rank2, r1 as int, r2 as int, x);
            }
        }
    }

    /// Resolve both elements and report whether they already share a root.
    /// This is the one decision point that maze carving branches on.
    pub fn find_roots(&mut self, a: usize, b: usize) -> (r: Roots)
        requires
            old(self).wf(),
            a < old(self).spec_len(),
            b < old(self).spec_len(),
        ensures
            final(self).wf(),
            final(self).spec_len() == old(self).spec_len(),
            final(self).sets() == old(self).sets(),
            forall|x: int|
                0 <= x < old(self).spec_len() ==> final(self).repr(x) == old(self).repr(x),
            forall|x: int|
                0 <= x < old(self).spec_len() ==> (final(self).is_root(x) <==> old(self).is_root(
                    x,
                )),
            r is Same <==> old(self).repr(a as int) == old(self).repr(b as int),
            r matches Roots::Same(x) ==> x as int == old(self).repr(a as int),
            r matches Roots::DisJoint(x, y) ==> x as int == old(self).repr(a as int) && y as int
                == old(self).repr(b as int) && x != y && final(self).is_root(x as int)
                && final(self).is_root(y as int),
    {
        let ra = self.find(a);
        let rb = self.find(b);
        if ra == rb {
            Roots::Same(ra)
        } else {
            Roots::DisJoint(ra, rb)
        }
    }

    /// Resolve `c` to the root of its set, rewriting every visited entry to
    /// point directly at that root so that later queries are cheap.
    pub fn find(&mut self, c: usize) -> (r: usize)
        requires
            old(self).wf(),
            c < old(self).spec_len(),
        ensures
            find_post(*old(self), *final(self), c as int, r as int),
            r < final(self).spec_len(),
    {
        let n = self.nodes.len();
        proof {
            assert(n == self.nodes@.len() && n <= usize::MAX);
            assert(ranks_lt(self.nodes@, self.rank@));
        }
        let r = find_at(&mut self.nodes, Ghost(self.rank@), c);
        proof {
            lemma_cnt_none_congruent(self.nodes@, old(self).nodes@);
        }
        r
    }

    /// Resolve `c` to the root of its set without compressing the path, for
    /// read-only contexts.
    pub fn lookup(&self, c: usize) -> (r: usize)
        requires
            self.wf(),
            c < self.spec_len(),
        ensures
            r as int == self.repr(c as int),
            self.is_root(r as int),
    {
        proof {
            assert(ranks_lt(self.nodes@, self.rank@));
            lemma_root_of(self.nodes@, self.rank@, c as int);
        }
        lookup_at(&self.nodes, Ghost(self.rank@), c)
    }

    /// Size of the universe of elements.
    pub fn len(&self) -> (r: usize)
        ensures
            r == self.spec_len(),
    {
        self.nodes.len()
    }

    /// Count of elements that were never given a parent.  While every union
    /// joins two roots, this is exactly the number of live sets, and it
    /// reaches 1 exactly when all elements are in one set.
    pub fn distinct_sets(&self) -> (r: usize)
        ensures
            r == self.sets(),
    {
        let mut count: usize = 0;
        let mut i: usize = 0;
        proof {
            assert(self.nodes@.take(0) =~= Seq::<Option<usize>>::empty());
            lemma_cnt_none_le(self.nodes@);
        }
        while i < self.nodes.len()
            invariant
                i <= self.nodes@.len(),
                count == cnt_none(self.nodes@.take(i as int)),
                count <= i,
            decreases self.nodes@.len() - i,
        {
            proof {
                assert(self.nodes@.take(i + 1).drop_last() =~= self.nodes@.take(i as int));
                assert(self.nodes@.take(i + 1).last() == self.nodes@[i as int]);
            }
            if self.nodes[i].is_none() {
                count = count + 1;
            }
            i = i + 1;
        }
        proof {
            assert(self.nodes@.take(self.nodes@.len() as int) =~= self.nodes@);
        }
        count
    }
}

/// Some entry is `None` whenever the count says so.
proof fn lemma_cnt_none_ex(s: Seq<Option<usize>>)
    requires
        cnt_none(s) >= 1,
    ensures
        exists|i: int| 0 <= i < s.len() && s[i] is None,
    decreases s.len(),
{
    if s.last() is None {
        assert(s[s.len() - 1] is None);
    } else {
        lemma_cnt_none_ex(s.drop_last());
        let i = choose|i: int| 0 <= i < s.drop_last().len() && s.drop_last()[i] is None;
        assert(s[i] is None);
    }
}

/// Two distinct entries are `None` whenever the count is at least two.
proof fn lemma_cnt_none_ex2(s: Seq<Option<usize>>)
    requires
        cnt_none(s) >= 2,
    ensures
        exists|i: int, j: int| 0 <= i < s.len() && 0 <= j < s.len() && i != j && s[i] is None && s[j] is None,
    decreases s.len(),
{
    if s.last() is None {
        lemma_cnt_none_ex(s.drop_last());
        let i = choose|i: int| 0 <= i < s.drop_last().len() && s.drop_last()[i] is None;
        assert(s[i] is None && s[s.len() - 1] is None && i != s.len() - 1);
    } else {
        lemma_cnt_none_ex2(s.drop_last());
        let (i, j) = choose|i: int, j: int|
            0 <= i < s.drop_last().len() && 0 <= j < s.drop_last().len() && i != j && s.drop_last()[i] is None
                && s.drop_last()[j] is None;
        assert(s[i] is None && s[j] is None);
    }
}

/// The root an element resolves to is a genuine root, and a root resolves to
/// itself.
pub proof fn lemma_repr_props(ds: DisjSet, c: int)
    requires
        ds.wf(),
        0 <= c < ds.spec_len(),
    ensures
        ds.is_root(ds.repr(c)),
        ds.is_root(c) ==> ds.repr(c) == c,
{
    lemma_root_of(ds.nodes@, ds.rank@, c);
}

/// A non-empty universe always has at least one live set.
pub proof fn lemma_sets_pos(ds: DisjSet)
    requires
        ds.wf(),
        ds.spec_len() > 0,
    ensures
        ds.sets() >= 1,
{
}

/// While at least two live sets remain, two distinct roots exist.
pub proof fn lemma_two_roots(ds: DisjSet)
    requires
        ds.wf(),
        ds.sets() >= 2,
    ensures
        exists|i: int, j: int|
            0 <= i < ds.spec_len() && 0 <= j < ds.spec_len() && ds.is_root(i) && ds.is_root(j)
                && i != j,
{
    lemma_cnt_none_ex2(ds.nodes@);
    let (i, j) = choose|i: int, j: int|
        0 <= i < ds.nodes@.len() && 0 <= j < ds.nodes@.len() && i != j && ds.nodes@[i] is None
            && ds.nodes@[j] is None;
    assert(ds.is_root(i) && ds.is_root(j));
}

/// With a single live set left, every pair of elements shares its root.
pub proof fn lemma_one_set(ds: DisjSet, a: int, b: int)
    requires
        ds.wf(),
        ds.sets() == 1,
        0 <= a < ds.spec_len(),
        0 <= b < ds.spec_len(),
    ensures
        ds.repr(a) == ds.repr(b),
{
    lemma_repr_props(ds, a);
    lemma_repr_props(ds, b);
    lemma_cnt_none_unique(ds.nodes@, ds.repr(a), ds.repr(b));
}

/// Law: `find` is idempotent after compression.  A second `find` on the same
/// element returns the same root, and it makes no structural change that
/// `lookup` can observe: every element's root — which is exactly what
/// `lookup` returns — is the same after the second call as after the first.
pub proof fn lemma_find_idempotent(
    s0: DisjSet,
    s1: DisjSet,
    r1: int,
    s2: DisjSet,
    r2: int,
    c: int,
)
    requires
        s0.wf(),
        0 <= c < s0.spec_len(),
        find_post(s0, s1, c, r1),
        find_post(s1, s2, c, r2),
    ensures
        r2 == r1,
        forall|x: int| 0 <= x < s1.spec_len() ==> s2.repr(x) == s1.repr(x),
{
}

} // verus!
