//! Randomized maze carving.
//!
//! Generation builds the full list of candidate walls between adjacent cells,
//! then repeatedly draws a random candidate.  A drawn wall between two cells
//! of different disjoint-set components is knocked down and the components
//! are united; one inside a single component stays standing.  On the hard
//! setting carving continues until every cell is in one component, which
//! leaves the complement of a spanning tree; on the normal setting it stops
//! as soon as the entrance and the exit are connected.
//!
//! Connectivity is tracked by the carved-wall list: two cells are linked when
//! a chain of knocked-down walls joins them, and every maze this module
//! returns carries a proof that the promised cells are linked by passable
//! adjacencies.

use vstd::prelude::*;
use vstd::multiset::Multiset;
use rand::Rng;
use crate::disjset::{DisjSet, Roots, lemma_one_set, lemma_repr_props, lemma_two_roots};
use crate::maze::{Difficulty, Direction, Maze, Opts};

verus! {

broadcast use vstd::seq_lib::group_to_multiset_ensures, vstd::seq_lib::lemma_multiset_commutative;

/// Cells `a` and `b` are horizontally or vertically adjacent on a `w x h`
/// grid, with `a` the smaller row-major index: `b` is `a`'s right neighbour
/// (unless `a` ends a row) or the cell below `a`.
pub open spec fn adjacent_pair(w: int, h: int, a: int, b: int) -> bool {
    &&& 0 <= a < w * h
    &&& 0 <= b < w * h
    &&& ((b == a + 1 && a % w != w - 1) || b == a + w)
}

/// The number of adjacent cell pairs of a `w x h` grid.
pub open spec fn spec_edge_count(w: int, h: int) -> int {
    w * (h - 1) + h * (w - 1)
}

/// One entry of `es` joins cells `a` and `b`, in either orientation.
pub open spec fn edge_in(es: Seq<(u16, u16)>, a: int, b: int) -> bool {
    exists|i: int|
        0 <= i < es.len() && (((#[trigger] es[i]).0 == a && es[i].1 == b) || (es[i].0 == b
            && es[i].1 == a))
}

/// A chain of at most `k` edges of `es` leads from `a` to `b`.
pub open spec fn linked_n(es: Seq<(u16, u16)>, a: int, b: int, k: nat) -> bool
    decreases k,
{
    if k == 0 {
        a == b
    } else {
        linked_n(es, a, b, (k - 1) as nat) || exists|m: int|
            linked_n(es, a, m, (k - 1) as nat) && #[trigger] edge_in(es, m, b)
    }
}

/// Some chain of edges of `es` leads from `a` to `b`.
pub open spec fn linked(es: Seq<(u16, u16)>, a: int, b: int) -> bool {
    exists|k: nat| linked_n(es, a, b, k)
}

/// Cells `a` and `b` are adjacent in `m`'s grid and no wall stands between
/// them: a single move crosses from one to the other.
pub open spec fn passable(m: Maze, a: int, b: int) -> bool {
    &&& (adjacent_pair(m.width as int, m.height as int, a, b) || adjacent_pair(
        m.width as int,
        m.height as int,
        b,
        a,
    ))
    &&& !m.spec_has_wall(a, b)
}

/// Cells `a` and `b` are connected through passable adjacencies of `m`: some
/// list of passable cell pairs chains from one to the other.
pub open spec fn maze_linked(m: Maze, a: int, b: int) -> bool {
    exists|es: Seq<(u16, u16)>|
        (forall|i: int|
            0 <= i < es.len() ==> passable(m, (#[trigger] es[i]).0 as int, es[i].1 as int))
            && #[trigger] linked(es, a, b)
}

proof fn lemma_linked_refl(es: Seq<(u16, u16)>, a: int)
    ensures
        linked(es, a, a),
{
    assert(linked_n(es, a, a, 0));
}

proof fn lemma_linked_edge(es: Seq<(u16, u16)>, a: int, b: int)
    requires
        edge_in(es, a, b),
    ensures
        linked(es, a, b),
{
    assert(linked_n(es, a, a, 0));
    assert(linked_n(es, a, b, 1));
}

proof fn lemma_linked_n_trans(es: Seq<(u16, u16)>, a: int, b: int, c: int, k: nat)
    requires
        linked(es, a, b),
        linked_n(es, b, c, k),
    ensures
        linked(es, a, c),
    decreases k,
{
    if k == 0 {
    } else if linked_n(es, b, c, (k - 1) as nat) {
        lemma_linked_n_trans(es, a, b, c, (k - 1) as nat);
    } else {
        let m = choose|m: int| linked_n(es, b, m, (k - 1) as nat) && #[trigger] edge_in(es, m, c);
        lemma_linked_n_trans(es, a, b, m, (k - 1) as nat);
        let k2 = choose|k2: nat| linked_n(es, a, m, k2);
        assert(linked_n(es, a, c, k2 + 1));
    }
}

proof fn lemma_linked_trans(es: Seq<(u16, u16)>, a: int, b: int, c: int)
    requires
        linked(es, a, b),
        linked(es, b, c),
    ensures
        linked(es, a, c),
{
    let k = choose|k: nat| linked_n(es, b, c, k);
    lemma_linked_n_trans(es, a, b, c, k);
}

proof fn lemma_linked_n_mono(es: Seq<(u16, u16)>, es2: Seq<(u16, u16)>, a: int, b: int, k: nat)
    requires
        linked_n(es, a, b, k),
        forall|i: int| 0 <= i < es.len() ==> es2.contains(#[trigger] es[i]),
    ensures
        linked(es2, a, b),
    decreases k,
{
    if k == 0 {
        lemma_linked_refl(es2, a);
    } else if linked_n(es, a, b, (k - 1) as nat) {
        lemma_linked_n_mono(es, es2, a, b, (k - 1) as nat);
    } else {
        let m = choose|m: int| linked_n(es, a, m, (k - 1) as nat) && #[trigger] edge_in(es, m, b);
        lemma_linked_n_mono(es, es2, a, m, (k - 1) as nat);
        let i = choose|i: int|
            0 <= i < es.len() && (((#[trigger] es[i]).0 == m && es[i].1 == b) || (es[i].0 == b
                && es[i].1 == m));
        assert(es2.contains(es[i]));
        let j = choose|j: int| 0 <= j < es2.len() && es2[j] == es[i];
        assert(edge_in(es2, m, b));
        lemma_linked_edge(es2, m, b);
        lemma_linked_trans(es2, a, m, b);
    }
}

/// A chain stays a chain in any edge list that keeps every edge of the first.
proof fn lemma_linked_mono(es: Seq<(u16, u16)>, es2: Seq<(u16, u16)>, a: int, b: int)
    requires
        linked(es, a, b),
        forall|i: int| 0 <= i < es.len() ==> es2.contains(#[trigger] es[i]),
    ensures
        linked(es2, a, b),
{
    let k = choose|k: nat| linked_n(es, a, b, k);
    lemma_linked_n_mono(es, es2, a, b, k);
}

/// When every pair of adjacent cells shares a disjoint-set root, every cell
/// shares cell 0's root: walking left and up along the grid reaches cell 0.
proof fn lemma_grid_all_one(ds: DisjSet, w: int, h: int, c: int)
    requires
        ds.wf(),
        ds.spec_len() == w * h,
        w >= 1,
        h >= 1,
        0 <= c < w * h,
        forall|a: int, b: int| #[trigger] adjacent_pair(w, h, a, b) ==> ds.repr(a) == ds.repr(b),
    ensures
        ds.repr(c) == ds.repr(0),
    decreases c,
{
    if c > 0 {
        let x = c % w;
        let y = c / w;
        assert(c == y * w + x && 0 <= x < w && 0 <= y < h) by (nonlinear_arith)
            requires
                w >= 1,
                h >= 1,
                0 <= c < w * h,
                x == c % w,
                y == c / w,
        ;
        if x > 0 {
            assert((c - 1) % w == x - 1 && x - 1 != w - 1) by (nonlinear_arith)
                requires
                    w >= 1,
                    c == y * w + x,
                    0 < x < w,
                    0 <= y,
            ;
            assert(adjacent_pair(w, h, c - 1, c));
            lemma_grid_all_one(ds, w, h, c - 1);
        } else {
            assert(y >= 1 && c - w >= 0) by (nonlinear_arith)
                requires
                    w >= 1,
                    c == y * w + x,
                    x == 0,
                    c > 0,
                    0 <= y,
            ;
            assert(adjacent_pair(w, h, c - w, c));
            lemma_grid_all_one(ds, w, h, c - w);
        }
    }
}

/// Relies on `rand::Rng::gen_range` over `0..n` on the thread rng: the range
/// is non-empty, and the drawn value lies in it.
#[verifier::external_body]
fn rand_below(n: usize) -> (r: usize)
    requires
        n > 0,
    ensures
        r < n,
{
    rand::thread_rng().gen_range(0..n)
}

/// The full candidate wall list of a `w x h` grid, scanning cells row-major
/// and emitting each cell's right-neighbour pair (unless the cell ends its
/// row) and below-neighbour pair (unless it is in the last row).
fn build_candidates(w: u16, h: u16) -> (cand: Vec<(u16, u16)>)
    requires
        w >= 1,
        h >= 1,
        w * h <= u16::MAX,
    ensures
        cand@.len() == spec_edge_count(w as int, h as int),
        forall|k: int|
            0 <= k < cand@.len() ==> adjacent_pair(
                w as int,
                h as int,
                (#[trigger] cand@[k]).0 as int,
                cand@[k].1 as int,
            ),
        forall|a: int, b: int|
            adjacent_pair(w as int, h as int, a, b) ==> cand@.contains((a as u16, b as u16)),
        forall|i: int, j: int| 0 <= i < j < cand@.len() ==> cand@[i] != cand@[j],
{
    let mut cand: Vec<(u16, u16)> = Vec::new();
    let mut y: u16 = 0;
    while y < h
        invariant
            w >= 1,
            h >= 1,
            w * h <= u16::MAX,
            y <= h,
            cand@.len() == y * (2 * w - 1) - (if y + 1 <= h {
                0int
            } else {
                w as int
            }),
            forall|k: int|
                0 <= k < cand@.len() ==> adjacent_pair(
                    w as int,
                    h as int,
                    (#[trigger] cand@[k]).0 as int,
                    cand@[k].1 as int,
                ),
            forall|a: int, b: int|
                adjacent_pair(w as int, h as int, a, b) && a < y * w ==> cand@.contains(
                    (a as u16, b as u16),
                ),
            forall|k: int| 0 <= k < cand@.len() ==> (#[trigger] cand@[k]).0 < y * w,
            forall|i: int, j: int| 0 <= i < j < cand@.len() ==> cand@[i] != cand@[j],
        decreases h - y,
    {
        let mut x: u16 = 0;
        proof {
            assert(y * w + 0 <= y * (2 * w - 1) && y < h ==> y * w < w * h) by (nonlinear_arith)
                requires
                    w >= 1,
                    0 <= y < h,
            ;
        }
        while x < w
            invariant
                w >= 1,
                h >= 1,
                w * h <= u16::MAX,
                y < h,
                x <= w,
                cand@.len() == y * (2 * w - 1) + (if x < w {
                    x as int
                } else {
                    w - 1
                }) + (if y + 1 < h {
                    x as int
                } else {
                    0int
                }),
                forall|k: int|
                    0 <= k < cand@.len() ==> adjacent_pair(
                        w as int,
                        h as int,
                        (#[trigger] cand@[k]).0 as int,
                        cand@[k].1 as int,
                    ),
                forall|a: int, b: int|
                    adjacent_pair(w as int, h as int, a, b) && a < y * w + x ==> cand@.contains(
                        (a as u16, b as u16),
                    ),
                forall|k: int| 0 <= k < cand@.len() ==> (#[trigger] cand@[k]).0 < y * w + x,
                forall|i: int, j: int| 0 <= i < j < cand@.len() ==> cand@[i] != cand@[j],
            decreases w - x,
        {
            proof {
                assert(y * w + x < w * h && (x + 1 < w ==> y * w + x + 1 < w * h) && y * w + x + (
                if y + 1 < h {
                    w as int
                } else {
                    0int
                }) < w * h && (y * w + x) % (w as int) == x && (y * w + x) / (w as int) == y)
                    by (nonlinear_arith)
                    requires
                        w >= 1,
                        h >= 1,
                        0 <= y < h,
                        0 <= x < w,
                ;
            }
            let c = y * w + x;
            let ghost pre = cand@;
            if x + 1 < w {
                cand.push((c, c + 1));
                proof {
                    assert(adjacent_pair(w as int, h as int, c as int, c as int + 1));
                    assert forall|a: int, b: int|
                        adjacent_pair(w as int, h as int, a, b) && pre.contains(
                            (a as u16, b as u16),
                        ) implies cand@.contains((a as u16, b as u16)) by {
                        let i = choose|i: int| 0 <= i < pre.len() && pre[i] == (a as u16, b as u16);
                        assert(cand@[i] == (a as u16, b as u16));
                    }
                }
            }
            if y + 1 < h {
                let ghost mid = cand@;
                cand.push((c, c + w));
                proof {
                    assert(adjacent_pair(w as int, h as int, c as int, c as int + w));
                    assert forall|a: int, b: int|
                        adjacent_pair(w as int, h as int, a, b) && mid.contains(
                            (a as u16, b as u16),
                        ) implies cand@.contains((a as u16, b as u16)) by {
                        let i = choose|i: int| 0 <= i < mid.len() && mid[i] == (a as u16, b as u16);
                        assert(cand@[i] == (a as u16, b as u16));
                    }
                }
            }
            proof {
                assert forall|a: int, b: int|
                    adjacent_pair(w as int, h as int, a, b) && a < y * w + x + 1 implies
                    cand@.contains((a as u16, b as u16)) by {
                    if a < y * w + x {
                        assert(pre.contains((a as u16, b as u16)));
                        let i = choose|i: int| 0 <= i < pre.len() && pre[i] == (a as u16, b as u16);
                        assert(cand@[i] == (a as u16, b as u16));
                    } else {
                        assert(a == c);
                        assert(a % (w as int) == x && a / (w as int) == y);
                        if b == a + 1 && a % (w as int) != w - 1 {
                            assert(x < w - 1);
                            assert(cand@[pre.len() as int] == (c, (c + 1) as u16));
                            assert(cand@.contains((c, (c + 1) as u16)));
                        } else {
                            assert(b == a + w);
                            assert(b < w * h);
                            assert(y + 1 < h) by (nonlinear_arith)
                                requires
                                    w >= 1,
                                    h >= 1,
                                    0 <= y < h,
                                    0 <= x < w,
                                    a == y * w + x,
                                    b == a + w,
                                    b < w * h,
                            ;
                            assert(cand@[cand@.len() - 1] == (c, (c + w) as u16));
                            assert(cand@.contains((c, (c + w) as u16)));
                        }
                    }
                }
            }
            x = x + 1;
        }
        proof {
            assert((y + 1) * (2 * w - 1) == y * (2 * w - 1) + (2 * w - 1) && (y + 1) * w == y * w
                + w) by (nonlinear_arith)
                requires
                    w >= 1,
            ;
        }
        y = y + 1;
    }
    proof {
        assert(h * (2 * w - 1) - w == spec_edge_count(w as int, h as int) && h * w == w * h)
            by (nonlinear_arith)
            requires
                w >= 1,
                h >= 1,
        ;
    }
    cand
}

/// Law: a passable pair of cells really can be crossed by a single move.
/// From the position of cell `a` some direction leads exactly to cell `b`,
/// so a chain of passable adjacencies is a walkable path.
pub proof fn lemma_passable_movable(m: Maze, a: int, b: int)
    requires
        m.wf(),
        passable(m, a, b),
    ensures
        exists|d: Direction|
            {
                let q = #[trigger] m.spec_move_pos(m.spec_cell_pos(a), d);
                q matches Option::Some(qp) && m.spec_cell(qp) == b
            },
{
    let w = m.width as int;
    let h = m.height as int;
    let (lo, hi) = if adjacent_pair(w, h, a, b) {
        (a, b)
    } else {
        (b, a)
    };
    let x = lo % w;
    let y = lo / w;
    assert(lo == y * w + x && 0 <= x < w && 0 <= y < h && ((hi == lo + 1 && x != w - 1) ==> x < w
        - 1 && (y * w + (x + 1)) % w == x + 1 && (y * w + (x + 1)) / w == y) && (hi == lo + w
        ==> y < h - 1 && (y + 1) * w + x == hi)) by (nonlinear_arith)
        requires
            w >= 1,
            h >= 1,
            0 <= lo < w * h,
            0 <= hi < w * h,
            x == lo % w,
            y == lo / w,
            (hi == lo + 1 && x != w - 1) || hi == lo + w,
    ;
    let p = m.spec_cell_pos(lo);
    if a == lo {
        if hi == lo + 1 && x != w - 1 {
            assert(m.spec_move_pos(p, Direction::Right) matches Option::Some(qp) && m.spec_cell(qp)
                == b);
        } else {
            assert(m.spec_move_pos(p, Direction::Down) matches Option::Some(qp) && m.spec_cell(qp)
                == b);
        }
    } else {
        let ph = m.spec_cell_pos(hi);
        if hi == lo + 1 && x != w - 1 {
            assert(ph.x == x + 1 && ph.y == y);
            assert(m.spec_move_pos(ph, Direction::Left) matches Option::Some(qp) && m.spec_cell(qp)
                == b);
        } else {
            assert(ph.x == x && ph.y == y + 1) by (nonlinear_arith)
                requires
                    w >= 1,
                    lo == y * w + x,
                    0 <= x < w,
                    0 <= y,
                    hi == lo + w,
                    ph.x == hi % w,
                    ph.y == hi / w,
            ;
            assert(m.spec_move_pos(ph, Direction::Up) matches Option::Some(qp) && m.spec_cell(qp)
                == b);
        }
    }
}

/// Everything the carving loop maintains: the disjoint sets cover the grid;
/// candidate, kept and carved walls are adjacent pairs; together they account
/// for every adjacency exactly once; each carve united two components; a pair
/// of adjacent cells is either still a candidate or already in one component;
/// and cells of one component are linked by carved walls.
spec fn carve_inv(
    w: int,
    h: int,
    cells: DisjSet,
    cand: Seq<(u16, u16)>,
    kept: Seq<(u16, u16)>,
    carved: Seq<(u16, u16)>,
) -> bool {
    &&& w >= 1
    &&& h >= 1
    &&& w * h >= 1
    &&& w * h <= u16::MAX
    &&& cells.wf()
    &&& cells.spec_len() == w * h
    &&& forall|k: int|
        0 <= k < cand.len() ==> adjacent_pair(w, h, (#[trigger] cand[k]).0 as int, cand[k].1 as int)
    &&& forall|k: int|
        0 <= k < kept.len() ==> adjacent_pair(w, h, (#[trigger] kept[k]).0 as int, kept[k].1 as int)
    &&& forall|k: int|
        0 <= k < carved.len() ==> adjacent_pair(
            w,
            h,
            (#[trigger] carved[k]).0 as int,
            carved[k].1 as int,
        )
    &&& cand.len() + kept.len() + carved.len() == spec_edge_count(w, h)
    &&& carved.len() + cells.sets() == w * h
    &&& forall|e: (u16, u16)| (#[trigger] kept.to_multiset().add(cand.to_multiset()).count(e)) <= 1
    &&& forall|k: int|
        0 <= k < carved.len() ==> kept.to_multiset().add(cand.to_multiset()).count(
            #[trigger] carved[k],
        ) == 0
    &&& forall|a: int, b: int|
        #[trigger] adjacent_pair(w, h, a, b) ==> cand.contains((a as u16, b as u16)) || cells.repr(
            a,
        ) == cells.repr(b)
    &&& forall|a: int, b: int|
        #![trigger cells.repr(a), cells.repr(b)]
        (0 <= a < w * h && 0 <= b < w * h && cells.repr(a) == cells.repr(b)) ==> linked(
            carved,
            a,
            b,
        )
}

/// While two cells are still in different components, some candidate wall is
/// left: were the candidate list empty, every adjacency would already be
/// inside one component and the whole grid would share one root.
proof fn lemma_cand_nonempty(
    w: int,
    h: int,
    cells: DisjSet,
    cand: Seq<(u16, u16)>,
    x: int,
    y: int,
)
    requires
        w >= 1,
        h >= 1,
        cells.wf(),
        cells.spec_len() == w * h,
        forall|a: int, b: int|
            #[trigger] adjacent_pair(w, h, a, b) ==> cand.contains((a as u16, b as u16))
                || cells.repr(a) == cells.repr(b),
        0 <= x < w * h,
        0 <= y < w * h,
        cells.repr(x) != cells.repr(y),
    ensures
        cand.len() > 0,
{
    if cand.len() == 0 {
        assert forall|a: int, b: int| #[trigger] adjacent_pair(w, h, a, b) implies cells.repr(a)
            == cells.repr(b) by {
            assert(!cand.contains((a as u16, b as u16)));
        }
        lemma_grid_all_one(cells, w, h, x);
        lemma_grid_all_one(cells, w, h, y);
        assert(false);
    }
}

/// One carving step: draw a random candidate wall and remove it from the
/// candidate list; knock it down (uniting its two components) when its cells
/// are in different components, keep it standing otherwise.  Returns the
/// carved-wall list, grown by the knocked-down wall if any.
fn carve_step(
    w: u16,
    h: u16,
    cells: &mut DisjSet,
    cand: &mut Vec<(u16, u16)>,
    kept: &mut Vec<(u16, u16)>,
    Ghost(carved): Ghost<Seq<(u16, u16)>>,
) -> (res: Ghost<Seq<(u16, u16)>>)
    requires
        carve_inv(w as int, h as int, *old(cells), old(cand)@, old(kept)@, carved),
        old(cand)@.len() > 0,
    ensures
        carve_inv(w as int, h as int, *final(cells), final(cand)@, final(kept)@, res@),
        final(cand)@.len() == old(cand)@.len() - 1,
        final(cells).spec_len() == old(cells).spec_len(),
        final(cells).sets() <= old(cells).sets(),
        forall|a: int, b: int|
            #![trigger final(cells).repr(a), final(cells).repr(b)]
            (0 <= a < old(cells).spec_len() && 0 <= b < old(cells).spec_len() && old(cells).repr(a)
                == old(cells).repr(b)) ==> final(cells).repr(a) == final(cells).repr(b),
{
    let ghost w_ = w as int;
    let ghost h_ = h as int;
    let ghost n = w_ * h_;
    let ghost cand0 = cand@;
    let ghost kept0 = kept@;
    let i = rand_below(cand.len());
    let e = cand[i];
    cand.remove(i);
    proof {
        assert(adjacent_pair(w_, h_, e.0 as int, e.1 as int));
        assert(cand@ == cand0.remove(i as int));
        assert(cand@.to_multiset() =~= cand0.to_multiset().remove(e));
        assert(cand0.to_multiset().count(e) > 0);
        // membership in the shrunken candidate list, for every other pair
        assert forall|p: (u16, u16)| cand0.contains(p) && p != e implies cand@.contains(p) by {
            assert(cand0.to_multiset().count(p) > 0);
            assert(cand@.to_multiset().count(p) > 0);
        }
    }
    let r = cells.find_roots(e.0 as usize, e.1 as usize);
    let ghost cells1 = *cells;
    match r {
        Roots::DisJoint(r1, r2) => {
            cells.union(r1, r2);
            proof {
                let carved2 = carved.push(e);
                let m0 = kept0.to_multiset().add(cand0.to_multiset());
                let m2 = kept@.to_multiset().add(cand@.to_multiset());
                assert(m2 =~= m0.remove(e));
                assert(m0.count(e) == 1);
                assert forall|k: int| 0 <= k < carved2.len() implies m2.count(
                    #[trigger] carved2[k],
                ) == 0 by {
                    if k < carved.len() {
                        assert(m0.count(carved[k]) == 0);
                    }
                }
                // every pair of one new component is linked by carved2
                assert forall|a: int, b: int|
                    #![trigger cells.repr(a), cells.repr(b)]
                    (0 <= a < n && 0 <= b < n && cells.repr(a) == cells.repr(b)) implies linked(
                    carved2,
                    a,
                    b,
                ) by {
                    assert(carved2[carved2.len() - 1] == e);
                    assert forall|j: int| 0 <= j < carved.len() implies carved2.contains(
                        #[trigger] carved[j],
                    ) by {
                        assert(carved2[j] == carved[j]);
                    }
                    let e0 = e.0 as int;
                    let e1 = e.1 as int;
                    if cells1.repr(a) == cells1.repr(b) {
                        lemma_linked_mono(carved, carved2, a, b);
                    } else if cells1.repr(a) == r2 {
                        assert(cells1.repr(b) == r1 as int);
                        assert(linked(carved, a, e1));
                        assert(linked(carved, e0, b));
                        lemma_linked_mono(carved, carved2, a, e1);
                        lemma_linked_mono(carved, carved2, e0, b);
                        assert(edge_in(carved2, e1, e0));
                        lemma_linked_edge(carved2, e1, e0);
                        lemma_linked_trans(carved2, a, e1, e0);
                        lemma_linked_trans(carved2, a, e0, b);
                    } else {
                        assert(cells1.repr(a) == r1 as int && cells1.repr(b) == r2 as int);
                        assert(linked(carved, a, e0));
                        assert(linked(carved, e1, b));
                        lemma_linked_mono(carved, carved2, a, e0);
                        lemma_linked_mono(carved, carved2, e1, b);
                        assert(edge_in(carved2, e0, e1));
                        lemma_linked_edge(carved2, e0, e1);
                        lemma_linked_trans(carved2, a, e0, e1);
                        lemma_linked_trans(carved2, a, e1, b);
                    }
                }
                // adjacency accounted for: the drawn pair's components merged
                assert forall|a: int, b: int| #[trigger] adjacent_pair(w_, h_, a, b) implies
                    cand@.contains((a as u16, b as u16)) || cells.repr(a) == cells.repr(b) by {
                    if (a as u16, b as u16) == e {
                        assert(a == e.0 as int && b == e.1 as int);
                    } else if !cand@.contains((a as u16, b as u16)) {
                        assert(cand0.contains((a as u16, b as u16)) || cells1.repr(a)
                            == cells1.repr(b));
                    }
                }
            }
            Ghost(carved.push(e))
        },
        Roots::Same(_) => {
            kept.push(e);
            proof {
                let m0 = kept0.to_multiset().add(cand0.to_multiset());
                let m2 = kept@.to_multiset().add(cand@.to_multiset());
                assert(m2 =~= m0);
                assert forall|a: int, b: int| #[trigger] adjacent_pair(w_, h_, a, b) implies
                    cand@.contains((a as u16, b as u16)) || cells.repr(a) == cells.repr(b) by {
                    if (a as u16, b as u16) == e {
                        assert(a == e.0 as int && b == e.1 as int);
                        assert(cells.repr(a) == cells.repr(b));
                    } else if !cand@.contains((a as u16, b as u16)) {
                        assert(cand0.contains((a as u16, b as u16)) || cells1.repr(a)
                            == cells1.repr(b));
                    }
                }
            }
            Ghost(carved)
        },
    }
}

impl Maze {
    /// Generate a random `width x height` maze by knocking down walls.  On
    /// the hard setting the walls left standing number exactly the candidate
    /// count minus `width * height - 1` — the complement of a spanning tree —
    /// and every pair of cells is connected through passable adjacencies; on
    /// either setting the entrance is connected to the exit.
    pub fn generate(width: u16, height: u16, opts: &Opts) -> (m: Maze)
        requires
            width >= 1,
            height >= 1,
            width * height <= u16::MAX,
        ensures
            m.wf(),
            m.width == width,
            m.height == height,
            forall|k: int|
                0 <= k < m.spec_walls().len() ==> adjacent_pair(
                    width as int,
                    height as int,
                    (#[trigger] m.spec_walls()[k]).0 as int,
                    m.spec_walls()[k].1 as int,
                ),
            opts.difficulty == Difficulty::Hard ==> m.spec_walls().len() + (width * height - 1)
                == spec_edge_count(width as int, height as int),
            opts.difficulty == Difficulty::Hard ==> forall|a: int, b: int|
                0 <= a < width * height && 0 <= b < width * height ==> #[trigger] maze_linked(
                    m,
                    a,
                    b,
                ),
            maze_linked(m, 0, width * height - 1),
    {
        let ghost w_ = width as int;
        let ghost h_ = height as int;
        let ghost n = w_ * h_;
        proof {
            assert(width * height >= 1 && width * height >= width && width as int * (
            height as int - 1) + height as int * (width as int - 1) >= 0) by (nonlinear_arith)
                requires
                    width >= 1,
                    height >= 1,
            ;
            assert(spec_edge_count(w_, h_) >= 0);
        }
        let size = width * height;
        let mut cells = DisjSet::new(size as usize);
        let mut cand = build_candidates(width, height);
        let mut kept: Vec<(u16, u16)> = Vec::new();
        let ghost mut carved: Seq<(u16, u16)> = Seq::empty();
        proof {
            assert(kept@.to_multiset() =~= Multiset::<(u16, u16)>::empty());
            assert forall|e: (u16, u16)| (#[trigger] kept@.to_multiset().add(
                cand@.to_multiset(),
            ).count(e)) <= 1 by {
                lemma_nodup_count(cand@, e);
            }
            assert forall|a: int, b: int|
                #![trigger cells.repr(a), cells.repr(b)]
                (0 <= a < n && 0 <= b < n && cells.repr(a) == cells.repr(b)) implies linked(
                carved,
                a,
                b,
            ) by {
                lemma_linked_refl(carved, a);
            }
            assert(carve_inv(w_, h_, cells, cand@, kept@, carved));
        }
        match opts.difficulty {
            Difficulty::Hard => {
                loop
                    invariant_except_break
                        carve_inv(w_, h_, cells, cand@, kept@, carved),
                        w_ == width,
                        h_ == height,
                        n == w_ * h_,
                        size == width * height,
                    ensures
                        carve_inv(w_, h_, cells, cand@, kept@, carved),
                        cells.sets() == 1,
                        w_ == width && h_ == height && n == w_ * h_,
                    decreases cand@.len(),
                {
                    if cells.distinct_sets() == 1 {
                        break ;
                    }
                    proof {
                        crate::disjset::lemma_sets_pos(cells);
                        lemma_two_roots(cells);
                        let (i, j) = choose|i: int, j: int|
                            0 <= i < cells.spec_len() && 0 <= j < cells.spec_len()
                                && cells.is_root(i) && cells.is_root(j) && i != j;
                        lemma_repr_props(cells, i);
                        lemma_repr_props(cells, j);
                        lemma_cand_nonempty(w_, h_, cells, cand@, i, j);
                    }
                    let g = carve_step(width, height, &mut cells, &mut cand, &mut kept, Ghost(carved));
                    proof {
                        carved = g@;
                    }
                }
            },
            Difficulty::Normal => {
                loop
                    invariant_except_break
                        carve_inv(w_, h_, cells, cand@, kept@, carved),
                        w_ == width,
                        h_ == height,
                        n == w_ * h_,
                        size == width * height,
                    ensures
                        carve_inv(w_, h_, cells, cand@, kept@, carved),
                        cells.repr(0) == cells.repr(n - 1),
                        w_ == width && h_ == height && n == w_ * h_,
                    decreases cand@.len(),
                {
                    let r = cells.find_roots(0, (size - 1) as usize);
                    if let Roots::Same(_) = r {
                        break ;
                    }
                    proof {
                        lemma_cand_nonempty(w_, h_, cells, cand@, 0, n - 1);
                    }
                    let g = carve_step(width, height, &mut cells, &mut cand, &mut kept, Ghost(carved));
                    proof {
                        carved = g@;
                    }
                }
            },
        }
        let ghost kept0 = kept@;
        let ghost cand0 = cand@;
        kept.append(&mut cand);
        let m = Maze { walls: kept, enter: 0, exit: size - 1, size, width, height };
        proof {
            assert(m.spec_walls() == kept0 + cand0);
            assert forall|k: int| 0 <= k < m.spec_walls().len() implies adjacent_pair(
                w_,
                h_,
                (#[trigger] m.spec_walls()[k]).0 as int,
                m.spec_walls()[k].1 as int,
            ) by {
                if k < kept0.len() {
                    assert(m.spec_walls()[k] == kept0[k]);
                } else {
                    assert(m.spec_walls()[k] == cand0[k - kept0.len()]);
                }
            }
            assert forall|k: int| 0 <= k < m.spec_walls().len() implies (#[trigger] m.spec_walls()[k]).0
                <= m.spec_exit() && m.spec_walls()[k].1 <= m.spec_exit() by {
                assert(adjacent_pair(w_, h_, m.spec_walls()[k].0 as int, m.spec_walls()[k].1 as int));
            }
            assert(m.wf());
            // carved walls are passable in the finished maze
            assert forall|k: int| 0 <= k < carved.len() implies passable(
                m,
                (#[trigger] carved[k]).0 as int,
                carved[k].1 as int,
            ) by {
                let f = carved[k];
                assert(kept0.to_multiset().add(cand0.to_multiset()).count(f) == 0);
                if m.spec_has_wall(f.0 as int, f.1 as int) {
                    let j = choose|j: int|
                        0 <= j < m.spec_walls().len() && (((#[trigger] m.spec_walls()[j]).0
                            == f.0 as int && m.spec_walls()[j].1 == f.1 as int) || (
                        m.spec_walls()[j].0 == f.1 as int && m.spec_walls()[j].1 == f.0 as int));
                    let g = m.spec_walls()[j];
                    assert(adjacent_pair(w_, h_, g.0 as int, g.1 as int));
                    assert(adjacent_pair(w_, h_, f.0 as int, f.1 as int));
                    assert(f.0 < f.1 && g.0 < g.1) by (nonlinear_arith)
                        requires
                            adjacent_pair(w_, h_, g.0 as int, g.1 as int),
                            adjacent_pair(w_, h_, f.0 as int, f.1 as int),
                            w_ >= 1,
                    ;
                    assert(g == f);
                    assert(m.spec_walls().contains(f));
                    assert((kept0 + cand0).to_multiset().count(f) > 0);
                    assert((kept0 + cand0).to_multiset() =~= kept0.to_multiset().add(
                        cand0.to_multiset(),
                    ));
                    assert(false);
                }
            }
            if opts.difficulty == Difficulty::Hard {
                assert forall|a: int, b: int| 0 <= a < n && 0 <= b < n implies #[trigger] maze_linked(
                    m,
                    a,
                    b,
                ) by {
                    lemma_one_set(cells, a, b);
                    assert(linked(carved, a, b));
                }
                assert(n >= 1);
                assert(maze_linked(m, 0, n - 1));
            } else {
                assert(linked(carved, 0, n - 1));
                assert(maze_linked(m, 0, n - 1));
            }
        }
        m
    }
}

/// In a duplicate-free sequence every element is counted at most once.
proof fn lemma_nodup_count(s: Seq<(u16, u16)>, e: (u16, u16))
    requires
        forall|i: int, j: int| 0 <= i < j < s.len() ==> s[i] != s[j],
    ensures
        s.to_multiset().count(e) <= 1,
{
    assert(s.no_duplicates());
    s.lemma_multiset_has_no_duplicates();
    if s.to_multiset().count(e) > 0 {
        assert(s.to_multiset().contains(e));
    }
}

} // verus!
