//! The board as a mathematical grid of cells, and what the rules read from it:
//! connected groups, their liberties, the colors that border a region, and the
//! row-major listing of a set of cells.
use crate::loc::{adjacent, spec_on_board, Loc};
use crate::stone::Color;
use vstd::prelude::*;

verus! {

pub open spec fn height(g: Seq<Seq<Color>>) -> int {
    g.len() as int
}

pub open spec fn width(g: Seq<Seq<Color>>) -> int {
    if g.len() > 0 {
        g[0].len() as int
    } else {
        0
    }
}

pub open spec fn in_bounds(g: Seq<Seq<Color>>, l: Loc) -> bool {
    l.row < height(g) && l.col < width(g)
}

pub open spec fn interior(g: Seq<Seq<Color>>, l: Loc) -> bool {
    spec_on_board(l, height(g), width(g))
}

pub open spec fn on_ring(g: Seq<Seq<Color>>, l: Loc) -> bool {
    l.row == 0 || l.row + 1 == height(g) || l.col == 0 || l.col + 1 == width(g)
}

pub open spec fn at(g: Seq<Seq<Color>>, l: Loc) -> Color {
    g[l.row as int][l.col as int]
}

/// A rectangular grid whose sentinel cells are exactly its outermost ring.
pub open spec fn wf_grid(g: Seq<Seq<Color>>) -> bool {
    &&& 1 <= height(g) <= usize::MAX
    &&& 1 <= width(g) <= usize::MAX
    &&& height(g) * width(g) <= usize::MAX
    &&& forall|r: int| 0 <= r < g.len() ==> #[trigger] g[r].len() == width(g)
    &&& forall|l: Loc| in_bounds(g, l) ==> (#[trigger] at(g, l) == Color::Invalid <==> on_ring(g, l))
}

/// A walk through cells of color `c`, each step to a cell that shares a side.
pub open spec fn is_path(g: Seq<Seq<Color>>, p: Seq<Loc>, c: Color) -> bool {
    &&& p.len() >= 1
    &&& forall|i: int| 0 <= i < p.len() ==> in_bounds(g, #[trigger] p[i]) && at(g, p[i]) == c
    &&& forall|i: int| 0 <= i < p.len() - 1 ==> adjacent(#[trigger] p[i], p[i + 1])
}

/// `b` can be reached from `a` through cells of `a`'s color.
pub open spec fn connected(g: Seq<Seq<Color>>, a: Loc, b: Loc) -> bool {
    exists|p: Seq<Loc>| #[trigger] is_path(g, p, at(g, a)) && p[0] == a && p.last() == b
}

/// The maximal connected set of cells of `a`'s color that holds `a`.
pub open spec fn group(g: Seq<Seq<Color>>, a: Loc) -> Set<Loc> {
    Set::new(|b: Loc| connected(g, a, b))
}

/// The empty cells that share a side with the group of `a`.
pub open spec fn liberties(g: Seq<Seq<Color>>, a: Loc) -> Set<Loc> {
    Set::new(
        |l: Loc|
            in_bounds(g, l) && at(g, l) == Color::Empty && exists|m: Loc| #[trigger]
                group(g, a).contains(m) && adjacent(m, l),
    )
}

/// The colors found on the cells that share a side with a cell of `s`.
pub open spec fn borders(g: Seq<Seq<Color>>, s: Set<Loc>) -> Set<Color> {
    Set::new(
        |c: Color|
            exists|m: Loc, n: Loc|
                #![trigger s.contains(m), at(g, n)]
                s.contains(m) && adjacent(m, n) && in_bounds(g, n) && at(g, n) == c,
    )
}

pub open spec fn cell(r: int, c: int) -> Loc {
    Loc { row: r as usize, col: c as usize }
}

/// Strict row-major order.
pub open spec fn before(a: Loc, b: Loc) -> bool {
    a.row < b.row || (a.row == b.row && a.col < b.col)
}

/// The cells of `s` in row `r` with a column below `n`, left to right.
pub open spec fn select_row(s: Set<Loc>, r: int, n: int) -> Seq<Loc>
    decreases n,
{
    if n <= 0 {
        seq![]
    } else {
        select_row(s, r, n - 1) + if s.contains(cell(r, n - 1)) {
            seq![cell(r, n - 1)]
        } else {
            seq![]
        }
    }
}

/// The cells of `s` with a row below `h` and a column below `w`, in row-major order.
pub open spec fn select(s: Set<Loc>, h: int, w: int) -> Seq<Loc>
    decreases h,
{
    if h <= 0 {
        seq![]
    } else {
        select(s, h - 1, w) + select_row(s, h - 1, w)
    }
}

pub open spec fn in_box(l: Loc, h: int, w: int) -> bool {
    l.row < h && l.col < w
}

pub open spec fn sorted_row_major(v: Seq<Loc>) -> bool {
    forall|i: int, j: int| 0 <= i < j < v.len() ==> before(#[trigger] v[i], #[trigger] v[j])
}

proof fn lemma_select_row(s: Set<Loc>, r: int, n: int)
    requires
        0 <= r <= usize::MAX,
        0 <= n <= usize::MAX + 1,
    ensures
        forall|l: Loc|
            #[trigger] select_row(s, r, n).contains(l) <==> (s.contains(l) && l.row == r && l.col
                < n),
        forall|i: int|
            0 <= i < select_row(s, r, n).len() ==> #[trigger] select_row(s, r, n)[i].row == r,
        sorted_row_major(select_row(s, r, n)),
    decreases n,
{
    if n > 0 {
        lemma_select_row(s, r, n - 1);
        let prev = select_row(s, r, n - 1);
        let tail = if s.contains(cell(r, n - 1)) {
            seq![cell(r, n - 1)]
        } else {
            seq![]
        };
        let cur = select_row(s, r, n);
        assert(cur == prev + tail);
        assert forall|l: Loc| #[trigger] cur.contains(l) <==> (s.contains(l) && l.row == r && l.col < n) by {
            if cur.contains(l) {
                let i = choose|i: int| 0 <= i < cur.len() && cur[i] == l;
                if i < prev.len() {
                    assert(prev.contains(prev[i]));
                }
            }
            if s.contains(l) && l.row == r && l.col < n {
                if l.col < n - 1 {
                    assert(prev.contains(l));
                    let i = choose|i: int| 0 <= i < prev.len() && prev[i] == l;
                    assert(cur[i] == l);
                } else {
                    assert(l == cell(r, n - 1));
                    assert(cur[prev.len() as int] == l);
                }
            }
        }
        assert forall|i: int| 0 <= i < cur.len() implies #[trigger] cur[i].row == r by {
            if i < prev.len() {
                assert(cur[i] == prev[i]);
            }
        }
        assert forall|i: int, j: int| 0 <= i < j < cur.len() implies before(
            #[trigger] cur[i],
            #[trigger] cur[j],
        ) by {
            if j >= prev.len() {
                assert(cur[j] == cell(r, n - 1));
                if i < prev.len() {
                    assert(prev.contains(prev[i]));
                    assert(cur[i] == prev[i]);
                }
            } else {
                assert(cur[i] == prev[i] && cur[j] == prev[j]);
            }
        }
    }
}

/// The row-major listing holds exactly the cells of `s` in the box, each once, in order.
pub proof fn lemma_select(s: Set<Loc>, h: int, w: int)
    requires
        0 <= h <= usize::MAX + 1,
        0 <= w <= usize::MAX + 1,
    ensures
        forall|l: Loc|
            #[trigger] select(s, h, w).contains(l) <==> (s.contains(l) && in_box(l, h, w)),
        sorted_row_major(select(s, h, w)),
        select(s, h, w).no_duplicates(),
    decreases h,
{
    if h > 0 {
        lemma_select(s, h - 1, w);
        lemma_select_row(s, h - 1, w);
        let prev = select(s, h - 1, w);
        let row = select_row(s, h - 1, w);
        let cur = select(s, h, w);
        assert(cur == prev + row);
        assert forall|l: Loc| #[trigger] cur.contains(l) <==> (s.contains(l) && in_box(l, h, w)) by {
            if cur.contains(l) {
                let i = choose|i: int| 0 <= i < cur.len() && cur[i] == l;
                if i < prev.len() {
                    assert(prev.contains(prev[i]));
                } else {
                    assert(row.contains(row[i - prev.len()]));
                }
            }
            if s.contains(l) && in_box(l, h, w) {
                if l.row < h - 1 {
                    assert(prev.contains(l));
                    let i = choose|i: int| 0 <= i < prev.len() && prev[i] == l;
                    assert(cur[i] == l);
                } else {
                    assert(row.contains(l));
                    let i = choose|i: int| 0 <= i < row.len() && row[i] == l;
                    assert(cur[prev.len() + i] == l);
                }
            }
        }
        assert forall|i: int, j: int| 0 <= i < j < cur.len() implies before(
            #[trigger] cur[i],
            #[trigger] cur[j],
        ) by {
            if j >= prev.len() {
                assert(cur[j] == row[j - prev.len()]);
                if i < prev.len() {
                    assert(prev.contains(prev[i]));
                    assert(cur[i] == prev[i]);
                } else {
                    assert(cur[i] == row[i - prev.len()]);
                }
            } else {
                assert(cur[i] == prev[i] && cur[j] == prev[j]);
            }
        }
    }
    let cur = select(s, h, w);
    assert forall|i: int, j: int| 0 <= i < cur.len() && 0 <= j < cur.len() && i != j implies cur[i]
        != cur[j] by {
        if i < j {
            assert(before(cur[i], cur[j]));
        } else {
            assert(before(cur[j], cur[i]));
        }
    }
}

proof fn lemma_select_row_len_bound(s: Set<Loc>, r: int, n: int)
    requires
        n >= 0,
    ensures
        select_row(s, r, n).len() <= n,
    decreases n,
{
    if n > 0 {
        lemma_select_row_len_bound(s, r, n - 1);
    }
}

/// The listing of a box of `h` rows and `w` columns has at most `h * w` cells.
pub proof fn lemma_select_len_bound(s: Set<Loc>, h: int, w: int)
    requires
        h >= 0,
        w >= 0,
    ensures
        select(s, h, w).len() <= h * w,
    decreases h,
{
    if h > 0 {
        lemma_select_len_bound(s, h - 1, w);
        lemma_select_row_len_bound(s, h - 1, w);
        assert((h - 1) * w + w == h * w) by (nonlinear_arith);
    }
}

/// A set of cells inside the box is finite, and its listing has one entry per cell.
pub proof fn lemma_select_len(s: Set<Loc>, h: int, w: int)
    requires
        0 <= h <= usize::MAX + 1,
        0 <= w <= usize::MAX + 1,
        forall|l: Loc| #[trigger] s.contains(l) ==> in_box(l, h, w),
    ensures
        s.finite(),
        select(s, h, w).len() == s.len(),
{
    lemma_select(s, h, w);
    let v = select(s, h, w);
    assert(v.to_set() =~= s);
    v.unique_seq_to_set();
}

pub proof fn lemma_connected_refl(g: Seq<Seq<Color>>, a: Loc)
    requires
        in_bounds(g, a),
    ensures
        connected(g, a, a),
{
    let p = seq![a];
    assert(is_path(g, p, at(g, a)));
}

pub proof fn lemma_connected_step(g: Seq<Seq<Color>>, a: Loc, b: Loc, n: Loc)
    requires
        connected(g, a, b),
        adjacent(b, n),
        in_bounds(g, n),
        at(g, n) == at(g, a),
    ensures
        connected(g, a, n),
{
    let p = choose|p: Seq<Loc>| #[trigger] is_path(g, p, at(g, a)) && p[0] == a && p.last() == b;
    let q = p.push(n);
    assert(q[q.len() - 2] == b);
    assert(is_path(g, q, at(g, a)));
    assert(q[0] == a && q.last() == n);
}

proof fn lemma_connected_symmetric(g: Seq<Seq<Color>>, a: Loc, b: Loc)
    requires
        connected(g, a, b),
    ensures
        connected(g, b, a),
        at(g, b) == at(g, a),
{
    let p = choose|p: Seq<Loc>| #[trigger] is_path(g, p, at(g, a)) && p[0] == a && p.last() == b;
    assert(at(g, p[p.len() - 1]) == at(g, a));
    let q = p.reverse();
    assert forall|i: int| 0 <= i < q.len() - 1 implies adjacent(#[trigger] q[i], q[i + 1]) by {
        assert(q[i] == p[p.len() - 1 - i]);
        assert(q[i + 1] == p[p.len() - 1 - i - 1]);
        assert(adjacent(p[p.len() - 1 - i - 1], p[p.len() - 1 - i]));
    }
    assert forall|i: int| 0 <= i < q.len() implies in_bounds(g, #[trigger] q[i]) && at(g, q[i])
        == at(g, b) by {
        assert(q[i] == p[p.len() - 1 - i]);
    }
    assert(is_path(g, q, at(g, b)));
    assert(q[0] == b && q.last() == a);
}

proof fn lemma_connected_trans(g: Seq<Seq<Color>>, a: Loc, b: Loc, c: Loc)
    requires
        connected(g, a, b),
        connected(g, b, c),
    ensures
        connected(g, a, c),
{
    lemma_connected_symmetric(g, a, b);
    let p = choose|p: Seq<Loc>| #[trigger] is_path(g, p, at(g, a)) && p[0] == a && p.last() == b;
    let q = choose|q: Seq<Loc>| #[trigger] is_path(g, q, at(g, b)) && q[0] == b && q.last() == c;
    let r = p + q.drop_first();
    assert forall|i: int| 0 <= i < r.len() implies in_bounds(g, #[trigger] r[i]) && at(g, r[i])
        == at(g, a) by {
        if i >= p.len() {
            assert(r[i] == q[i - p.len() + 1]);
        }
    }
    assert forall|i: int| 0 <= i < r.len() - 1 implies adjacent(#[trigger] r[i], r[i + 1]) by {
        if i >= p.len() {
            assert(r[i] == q[i - p.len() + 1]);
            assert(r[i + 1] == q[i - p.len() + 2]);
        } else if i == p.len() - 1 {
            assert(r[i] == q[0]);
            assert(r[i + 1] == q[1]);
        } else {
            assert(r[i] == p[i] && r[i + 1] == p[i + 1]);
        }
    }
    assert(is_path(g, r, at(g, a)));
    if q.len() == 1 {
        assert(r =~= p);
    } else {
        assert(r.last() == q.last());
    }
}

/// Cells of one group share it: the group of any member is the same set.
pub proof fn lemma_same_group(g: Seq<Seq<Color>>, a: Loc, b: Loc)
    requires
        group(g, a).contains(b),
    ensures
        group(g, b) == group(g, a),
        at(g, b) == at(g, a),
{
    lemma_connected_symmetric(g, a, b);
    assert forall|c: Loc| group(g, b).contains(c) <==> group(g, a).contains(c) by {
        if connected(g, b, c) {
            lemma_connected_trans(g, a, b, c);
        }
        if connected(g, a, c) {
            lemma_connected_trans(g, b, a, c);
        }
    }
    assert(group(g, b) =~= group(g, a));
}

/// A set that holds `seed` and is closed under stepping to a side-sharing cell of
/// the seed's color holds the seed's whole group.
pub proof fn lemma_group_closed(g: Seq<Seq<Color>>, seed: Loc, s: Set<Loc>)
    requires
        s.contains(seed),
        forall|m: Loc, n: Loc|
            #![trigger s.contains(m), s.contains(n), adjacent(m, n)]
            s.contains(m) && adjacent(m, n) && in_bounds(g, n) && at(g, n) == at(g, seed)
                ==> s.contains(n),
    ensures
        group(g, seed).subset_of(s),
{
    assert forall|b: Loc| group(g, seed).contains(b) implies s.contains(b) by {
        let p = choose|p: Seq<Loc>|
            #[trigger] is_path(g, p, at(g, seed)) && p[0] == seed && p.last() == b;
        lemma_path_prefix_in(g, seed, s, p, p.len() - 1);
    }
}

proof fn lemma_path_prefix_in(g: Seq<Seq<Color>>, seed: Loc, s: Set<Loc>, p: Seq<Loc>, k: int)
    requires
        s.contains(seed),
        forall|m: Loc, n: Loc|
            #![trigger s.contains(m), s.contains(n), adjacent(m, n)]
            s.contains(m) && adjacent(m, n) && in_bounds(g, n) && at(g, n) == at(g, seed)
                ==> s.contains(n),
        is_path(g, p, at(g, seed)),
        p[0] == seed,
        0 <= k < p.len(),
    ensures
        s.contains(p[k]),
    decreases k,
{
    if k > 0 {
        lemma_path_prefix_in(g, seed, s, p, k - 1);
        assert(adjacent(p[k - 1], p[k]));
        assert(in_bounds(g, p[k]) && at(g, p[k]) == at(g, seed));
    }
}

/// The cells that share a side with a cell away from the numeric limits are its four
/// neighbors.
pub proof fn lemma_adjacent_cases(a: Loc, n: Loc)
    requires
        0 < a.row < usize::MAX,
        0 < a.col < usize::MAX,
    ensures
        adjacent(a, n) <==> (n == Loc { row: (a.row - 1) as usize, col: a.col } || n == Loc {
            row: (a.row + 1) as usize,
            col: a.col,
        } || n == Loc { row: a.row, col: (a.col - 1) as usize } || n == Loc {
            row: a.row,
            col: (a.col + 1) as usize,
        }),
{
}

/// Two grids of one size that agree on which cells have the color of `a` give `a`
/// the same group.
pub proof fn lemma_group_same_cells(g1: Seq<Seq<Color>>, g2: Seq<Seq<Color>>, a: Loc)
    requires
        height(g1) == height(g2),
        width(g1) == width(g2),
        at(g1, a) == at(g2, a),
        forall|l: Loc| #![trigger at(g1, l), at(g2, l)] in_bounds(g1, l) ==> (at(g1, l) == at(g1, a) <==> at(g2, l) == at(g2, a)),
    ensures
        group(g1, a) == group(g2, a),
{
    assert forall|b: Loc| group(g1, a).contains(b) <==> group(g2, a).contains(b) by {
        if connected(g1, a, b) {
            let p = choose|p: Seq<Loc>| #[trigger] is_path(g1, p, at(g1, a)) && p[0] == a && p.last() == b;
            assert forall|i: int| 0 <= i < p.len() implies in_bounds(g2, #[trigger] p[i]) && at(g2, p[i]) == at(g2, a) by {
                assert(in_bounds(g1, p[i]) && at(g1, p[i]) == at(g1, a));
            }
            assert(is_path(g2, p, at(g2, a)));
        }
        if connected(g2, a, b) {
            let p = choose|p: Seq<Loc>| #[trigger] is_path(g2, p, at(g2, a)) && p[0] == a && p.last() == b;
            assert forall|i: int| 0 <= i < p.len() implies in_bounds(g1, #[trigger] p[i]) && at(g1, p[i]) == at(g1, a) by {
                assert(in_bounds(g2, p[i]) && at(g2, p[i]) == at(g2, a));
            }
            assert(is_path(g1, p, at(g1, a)));
        }
    }
    assert(group(g1, a) =~= group(g2, a));
}

/// A group lies inside the grid, so it is finite.
pub proof fn lemma_group_finite(g: Seq<Seq<Color>>, a: Loc)
    requires
        height(g) <= usize::MAX,
        width(g) <= usize::MAX,
    ensures
        group(g, a).finite(),
        forall|b: Loc| #[trigger] group(g, a).contains(b) ==> in_bounds(g, b),
{
    assert forall|b: Loc| #[trigger] group(g, a).contains(b) implies in_bounds(g, b) by {
        let p = choose|p: Seq<Loc>| #[trigger] is_path(g, p, at(g, a)) && p[0] == a && p.last() == b;
        assert(in_bounds(g, p[p.len() - 1]));
    }
    lemma_select_len(group(g, a), height(g), width(g));
}

/// In a well-formed grid the group of a cell off the ring stays off the ring.
pub proof fn lemma_group_interior(g: Seq<Seq<Color>>, seed: Loc)
    requires
        wf_grid(g),
        interior(g, seed),
    ensures
        forall|b: Loc| #[trigger]
            group(g, seed).contains(b) ==> interior(g, b) && at(g, b) == at(g, seed),
        group(g, seed).contains(seed),
{
    assert(at(g, seed) != Color::Invalid);
    lemma_connected_refl(g, seed);
    assert forall|b: Loc| #[trigger] group(g, seed).contains(b) implies interior(g, b) && at(g, b)
        == at(g, seed) by {
        let p = choose|p: Seq<Loc>|
            #[trigger] is_path(g, p, at(g, seed)) && p[0] == seed && p.last() == b;
        assert(in_bounds(g, p[p.len() - 1]) && at(g, p[p.len() - 1]) == at(g, seed));
    }
}

} // verus!
