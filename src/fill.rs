//! Flood fill and liberty counting on a grid of cells, with a grid of marks
//! as the visited set and an explicit worklist in place of recursion.
use crate::grid::{
    at, cell, group, lemma_adjacent_cases, height, in_bounds, interior, lemma_connected_step, lemma_group_closed,
    lemma_group_interior, lemma_select, lemma_select_len, liberties, select, select_row, wf_grid,
    width,
};
use crate::loc::{adjacent, Loc};
use crate::stone::Color;
use vstd::prelude::*;

verus! {

pub open spec fn cells(f: &Vec<Vec<Color>>) -> Seq<Seq<Color>> {
    f@.map_values(|r: Vec<Color>| r@)
}

pub open spec fn bools(m: &Vec<Vec<bool>>) -> Seq<Seq<bool>> {
    m@.map_values(|r: Vec<bool>| r@)
}

pub open spec fn mk(m: Seq<Seq<bool>>, l: Loc) -> bool {
    m[l.row as int][l.col as int]
}

/// The cells that `m` marks.
pub open spec fn marked(m: Seq<Seq<bool>>) -> Set<Loc> {
    Set::new(|l: Loc| l.row < m.len() && l.col < m[l.row as int].len() && mk(m, l))
}

pub open spec fn shaped(m: Seq<Seq<bool>>, h: int, w: int) -> bool {
    m.len() == h && forall|r: int| 0 <= r < h ==> #[trigger] m[r].len() == w
}

pub open spec fn row_false(s: Seq<bool>) -> nat
    decreases s.len(),
{
    if s.len() == 0 {
        0
    } else {
        row_false(s.drop_last()) + if s.last() {
            0nat
        } else {
            1nat
        }
    }
}

/// How many cells are not marked.
pub open spec fn count_false(m: Seq<Seq<bool>>) -> nat
    decreases m.len(),
{
    if m.len() == 0 {
        0
    } else {
        count_false(m.drop_last()) + row_false(m.last())
    }
}

proof fn lemma_row_false_update(s: Seq<bool>, i: int)
    requires
        0 <= i < s.len(),
        !s[i],
    ensures
        row_false(s.update(i, true)) + 1 == row_false(s),
    decreases s.len(),
{
    let t = s.update(i, true);
    if i == s.len() - 1 {
        assert(t.drop_last() =~= s.drop_last());
    } else {
        assert(t.drop_last() =~= s.drop_last().update(i, true));
        lemma_row_false_update(s.drop_last(), i);
    }
}

proof fn lemma_count_false_update(m: Seq<Seq<bool>>, r: int, c: int)
    requires
        0 <= r < m.len(),
        0 <= c < m[r].len(),
        !m[r][c],
    ensures
        count_false(m.update(r, m[r].update(c, true))) + 1 == count_false(m),
    decreases m.len(),
{
    let t = m.update(r, m[r].update(c, true));
    if r == m.len() - 1 {
        assert(t.drop_last() =~= m.drop_last());
        lemma_row_false_update(m[r], c);
    } else {
        let d = m.drop_last();
        assert(t.drop_last() =~= d.update(r, d[r].update(c, true)));
        lemma_count_false_update(d, r, c);
    }
}

/// Marking one more cell adds it to the marked set.
pub proof fn lemma_marked_insert(m: Seq<Seq<bool>>, x: Loc)
    requires
        x.row < m.len(),
        x.col < m[x.row as int].len(),
    ensures
        marked(m.update(x.row as int, m[x.row as int].update(x.col as int, true))) == marked(m).insert(x),
{
    let m1 = m.update(x.row as int, m[x.row as int].update(x.col as int, true));
    assert forall|l: Loc| marked(m1).contains(l) <==> marked(m).insert(x).contains(l) by {
        if l.row == x.row && l.col == x.col {
            assert(l == x);
        }
    }
    assert(marked(m1) =~= marked(m).insert(x));
}

/// A grid of `h` rows of `w` unmarked cells.
pub(crate) fn new_marks(h: usize, w: usize) -> (m: Vec<Vec<bool>>)
    ensures
        shaped(bools(&m), h as int, w as int),
        forall|l: Loc| #![trigger mk(bools(&m), l)] l.row < h && l.col < w ==> !mk(bools(&m), l),
{
    let mut m: Vec<Vec<bool>> = Vec::new();
    let mut r: usize = 0;
    while r < h
        invariant
            r <= h,
            m@.len() == r,
            forall|i: int| 0 <= i < r ==> #[trigger] m@[i]@.len() == w,
            forall|i: int, j: int| 0 <= i < r && 0 <= j < w ==> !#[trigger] m@[i]@[j],
        decreases h - r,
    {
        let mut row: Vec<bool> = Vec::new();
        let mut c: usize = 0;
        while c < w
            invariant
                c <= w,
                row@.len() == c,
                forall|j: int| 0 <= j < c ==> !#[trigger] row@[j],
            decreases w - c,
        {
            row.push(false);
            c = c + 1;
        }
        m.push(row);
        r = r + 1;
    }
    m
}

pub(crate) fn mark(m: &mut Vec<Vec<bool>>, l: Loc)
    requires
        l.row < old(m)@.len(),
        l.col < old(m)@[l.row as int]@.len(),
    ensures
        bools(final(m)) == bools(old(m)).update(
            l.row as int,
            bools(old(m))[l.row as int].update(l.col as int, true),
        ),
{
    m[l.row][l.col] = true;
    assert(bools(m) =~= bools(old(m)).update(
        l.row as int,
        bools(old(m))[l.row as int].update(l.col as int, true),
    ));
}

/// The marked cells, in row-major order.
fn collect_marked(m: &Vec<Vec<bool>>, w: usize) -> (r: Vec<Loc>)
    requires
        shaped(bools(m), m@.len() as int, w as int),
    ensures
        r@ == select(marked(bools(m)), m@.len() as int, w as int),
{
    let ghost s = marked(bools(m));
    let h = m.len();
    let mut out: Vec<Loc> = Vec::new();
    let mut i: usize = 0;
    while i < h
        invariant
            i <= h,
            h == m@.len(),
            shaped(bools(m), h as int, w as int),
            s == marked(bools(m)),
            out@ == select(s, i as int, w as int),
        decreases h - i,
    {
        let mut j: usize = 0;
        while j < w
            invariant
                i < h,
                j <= w,
                h == m@.len(),
                shaped(bools(m), h as int, w as int),
                s == marked(bools(m)),
                out@ == select(s, i as int, w as int) + select_row(s, i as int, j as int),
            decreases w - j,
        {
            let l = Loc { row: i, col: j };
            assert(l == cell(i as int, j as int));
            assert(bools(m)[i as int].len() == w);
            if m[i][j] {
                out.push(l);
                assert(s.contains(l));
            } else {
                assert(!s.contains(l));
            }
            assert(select_row(s, i as int, j + 1) == select_row(s, i as int, j as int) + if s.contains(
                cell(i as int, j as int),
            ) {
                seq![cell(i as int, j as int)]
            } else {
                seq![]
            });
            j = j + 1;
        }
        i = i + 1;
    }
    out
}

/// Every marked cell belongs to the seed's group, and every cell waiting in the
/// worklist is marked.
#[verifier::opaque]
pub open spec fn fill_sound(g: Seq<Seq<Color>>, seed: Loc, m: Seq<Seq<bool>>, work: Seq<Loc>) -> bool {
    &&& shaped(m, height(g), width(g))
    &&& forall|l: Loc| #![trigger mk(m, l)] in_bounds(g, l) && mk(m, l) ==> group(g, seed).contains(l)
    &&& forall|i: int| 0 <= i < work.len() ==> in_bounds(g, #[trigger] work[i]) && mk(m, work[i])
}

/// A marked cell that has left the worklist has each side-sharing cell of the
/// seed's color marked.
#[verifier::opaque]
pub open spec fn fill_closed(g: Seq<Seq<Color>>, seed: Loc, m: Seq<Seq<bool>>, work: Seq<Loc>) -> bool {
    forall|l: Loc, n: Loc|
        #![trigger mk(m, l), adjacent(l, n)]
        in_bounds(g, l) && mk(m, l) && !work.contains(l) && adjacent(l, n) && in_bounds(g, n) && at(
            g,
            n,
        ) == at(g, seed) ==> mk(m, n)
}

/// From `(m0, w0)` to `(m1, w1)` marks were only added, each new mark went to the
/// worklist, and the worklist only shrank where no mark was added.
#[verifier::opaque]
pub open spec fn progress(
    g: Seq<Seq<Color>>,
    m0: Seq<Seq<bool>>,
    w0: Seq<Loc>,
    m1: Seq<Seq<bool>>,
    w1: Seq<Loc>,
) -> bool {
    &&& forall|l: Loc| #![trigger mk(m1, l)] in_bounds(g, l) && mk(m0, l) ==> mk(m1, l)
    &&& forall|l: Loc| #![trigger mk(m1, l)] in_bounds(g, l) && mk(m1, l) && !mk(m0, l) ==> w1.contains(l)
    &&& forall|l: Loc| #![trigger w1.contains(l)] w0.contains(l) ==> w1.contains(l)
    &&& count_false(m1) <= count_false(m0)
    &&& count_false(m1) == count_false(m0) ==> w1 == w0
}

proof fn lemma_progress_trans(
    g: Seq<Seq<Color>>,
    m0: Seq<Seq<bool>>,
    w0: Seq<Loc>,
    m1: Seq<Seq<bool>>,
    w1: Seq<Loc>,
    m2: Seq<Seq<bool>>,
    w2: Seq<Loc>,
)
    requires
        progress(g, m0, w0, m1, w1),
        progress(g, m1, w1, m2, w2),
    ensures
        progress(g, m0, w0, m2, w2),
{
    reveal(progress);
    assert forall|l: Loc| #![trigger mk(m2, l)] in_bounds(g, l) && mk(m2, l) && !mk(m0, l) implies w2.contains(
        l,
    ) by {
        if !mk(m1, l) {
        } else {
            assert(w1.contains(l));
        }
    }
}

/// Marks `n` and puts it on the worklist when it has the seed's color and is not
/// marked yet.
fn visit(
    f: &Vec<Vec<Color>>,
    m: &mut Vec<Vec<bool>>,
    work: &mut Vec<Loc>,
    n: Loc,
    color: Color,
    Ghost(seed): Ghost<Loc>,
    Ghost(cur): Ghost<Loc>,
)
    requires
        wf_grid(cells(f)),
        interior(cells(f), seed),
        color == at(cells(f), seed),
        group(cells(f), seed).contains(cur),
        adjacent(cur, n),
        in_bounds(cells(f), n),
        fill_sound(cells(f), seed, bools(old(m)), old(work)@),
    ensures
        fill_sound(cells(f), seed, bools(final(m)), final(work)@),
        progress(cells(f), bools(old(m)), old(work)@, bools(final(m)), final(work)@),
        at(cells(f), n) == color ==> mk(bools(final(m)), n),
{
    reveal(progress);
    reveal(fill_sound);
    let ghost g = cells(f);
    let ghost m0 = bools(m);
    assert(f@[n.row as int]@.len() == width(g));
    assert(m0[n.row as int].len() == width(g));
    let c = f[n.row][n.col];
    if c == color && !m[n.row][n.col] {
        proof {
            lemma_connected_step(g, seed, cur, n);
            lemma_count_false_update(m0, n.row as int, n.col as int);
        }
        mark(m, n);
        work.push(n);
        let ghost m1 = bools(m);
        assert forall|l: Loc| #![trigger mk(m1, l)] in_bounds(g, l) && mk(m1, l) && !mk(m0, l) implies work@.contains(
            l,
        ) by {
            assert(l == n);
            assert(work@[work@.len() - 1] == n);
        }
        assert forall|l: Loc| #![trigger work@.contains(l)] old(work)@.contains(l) implies work@.contains(l) by {
            let i = choose|i: int| 0 <= i < old(work)@.len() && old(work)@[i] == l;
            assert(work@[i] == l);
        }
        assert forall|i: int| 0 <= i < work@.len() implies in_bounds(g, #[trigger] work@[i]) && mk(m1, work@[i]) by {
            if i < old(work)@.len() {
                assert(work@[i] == old(work)@[i]);
            }
        }
    }
}

/// One round of the fill: `cur` left the worklist and its four neighbors were
/// visited, which keeps the marks closed and makes progress.
proof fn lemma_fill_iteration(
    g: Seq<Seq<Color>>,
    seed: Loc,
    cur: Loc,
    m0: Seq<Seq<bool>>,
    w0: Seq<Loc>,
    w1: Seq<Loc>,
    m2: Seq<Seq<bool>>,
    w2: Seq<Loc>,
    m3: Seq<Seq<bool>>,
    w3: Seq<Loc>,
    m4: Seq<Seq<bool>>,
    w4: Seq<Loc>,
    m5: Seq<Seq<bool>>,
    w5: Seq<Loc>,
)
    requires
        fill_closed(g, seed, m0, w0),
        w0 == w1.push(cur),
        0 < cur.row < usize::MAX,
        0 < cur.col < usize::MAX,
        progress(g, m0, w1, m2, w2),
        progress(g, m2, w2, m3, w3),
        progress(g, m3, w3, m4, w4),
        progress(g, m4, w4, m5, w5),
        at(g, Loc { row: (cur.row - 1) as usize, col: cur.col }) == at(g, seed) ==> mk(
            m2,
            Loc { row: (cur.row - 1) as usize, col: cur.col },
        ),
        at(g, Loc { row: (cur.row + 1) as usize, col: cur.col }) == at(g, seed) ==> mk(
            m3,
            Loc { row: (cur.row + 1) as usize, col: cur.col },
        ),
        at(g, Loc { row: cur.row, col: (cur.col - 1) as usize }) == at(g, seed) ==> mk(
            m4,
            Loc { row: cur.row, col: (cur.col - 1) as usize },
        ),
        at(g, Loc { row: cur.row, col: (cur.col + 1) as usize }) == at(g, seed) ==> mk(
            m5,
            Loc { row: cur.row, col: (cur.col + 1) as usize },
        ),
        in_bounds(g, Loc { row: (cur.row - 1) as usize, col: cur.col }),
        in_bounds(g, Loc { row: (cur.row + 1) as usize, col: cur.col }),
        in_bounds(g, Loc { row: cur.row, col: (cur.col - 1) as usize }),
        in_bounds(g, Loc { row: cur.row, col: (cur.col + 1) as usize }),
    ensures
        fill_closed(g, seed, m5, w5),
        progress(g, m0, w1, m5, w5),
{
    reveal(progress);
    reveal(fill_closed);
    let up = Loc { row: (cur.row - 1) as usize, col: cur.col };
    let down = Loc { row: (cur.row + 1) as usize, col: cur.col };
    let left = Loc { row: cur.row, col: (cur.col - 1) as usize };
    let right = Loc { row: cur.row, col: (cur.col + 1) as usize };
    lemma_progress_trans(g, m0, w1, m2, w2, m3, w3);
    lemma_progress_trans(g, m0, w1, m3, w3, m4, w4);
    lemma_progress_trans(g, m0, w1, m4, w4, m5, w5);
    lemma_progress_trans(g, m2, w2, m3, w3, m4, w4);
    lemma_progress_trans(g, m2, w2, m4, w4, m5, w5);
    lemma_progress_trans(g, m3, w3, m4, w4, m5, w5);
    assert forall|l: Loc, n: Loc|
        #![trigger mk(m5, l), adjacent(l, n)]
        in_bounds(g, l) && mk(m5, l) && !w5.contains(l) && adjacent(l, n) && in_bounds(g, n) && at(
            g,
            n,
        ) == at(g, seed) implies mk(m5, n) by {
        if l == cur {
            assert(n == up || n == down || n == left || n == right);
            if n == up {
                assert(mk(m2, up));
            } else if n == down {
                assert(mk(m3, down));
            } else if n == left {
                assert(mk(m4, left));
            }
        } else if mk(m0, l) {
            assert(!w1.contains(l));
            if w0.contains(l) {
                let i = choose|i: int| 0 <= i < w0.len() && w0[i] == l;
                assert(i < w1.len());
                assert(w1[i] == l);
            }
            assert(mk(m0, n));
        }
    }
}

/// Visits the four neighbors of `cur`, which has just left the worklist `w0`.
fn visit_neighbors(
    f: &Vec<Vec<Color>>,
    m: &mut Vec<Vec<bool>>,
    work: &mut Vec<Loc>,
    cur: Loc,
    color: Color,
    Ghost(seed): Ghost<Loc>,
    Ghost(w0): Ghost<Seq<Loc>>,
)
    requires
        wf_grid(cells(f)),
        interior(cells(f), seed),
        color == at(cells(f), seed),
        group(cells(f), seed).contains(cur),
        interior(cells(f), cur),
        w0 == old(work)@.push(cur),
        fill_sound(cells(f), seed, bools(old(m)), old(work)@),
        fill_closed(cells(f), seed, bools(old(m)), w0),
    ensures
        fill_sound(cells(f), seed, bools(final(m)), final(work)@),
        fill_closed(cells(f), seed, bools(final(m)), final(work)@),
        progress(cells(f), bools(old(m)), old(work)@, bools(final(m)), final(work)@),
{
    let ghost g = cells(f);
    let ghost m0 = bools(m);
    let ghost w1 = work@;
    let _h = f.len();
    assert(f@[0]@.len() == width(g));
    let _w = f[0].len();
    let up = cur.up();
    visit(f, m, work, up, color, Ghost(seed), Ghost(cur));
    let ghost m2 = bools(m);
    let ghost w2 = work@;
    let down = cur.down();
    visit(f, m, work, down, color, Ghost(seed), Ghost(cur));
    let ghost m3 = bools(m);
    let ghost w3 = work@;
    let left = cur.left();
    visit(f, m, work, left, color, Ghost(seed), Ghost(cur));
    let ghost m4 = bools(m);
    let ghost w4 = work@;
    let right = cur.right();
    visit(f, m, work, right, color, Ghost(seed), Ghost(cur));
    let ghost m5 = bools(m);
    let ghost w5 = work@;
    proof {
        lemma_fill_iteration(g, seed, cur, m0, w0, w1, m2, w2, m3, w3, m4, w4, m5, w5);
    }
}

/// Marks exactly the group of `seed`.
fn flood_fill(f: &Vec<Vec<Color>>, seed: Loc) -> (m: Vec<Vec<bool>>)
    requires
        wf_grid(cells(f)),
        interior(cells(f), seed),
    ensures
        shaped(bools(&m), height(cells(f)), width(cells(f))),
        marked(bools(&m)) == group(cells(f), seed),
{
    let ghost g = cells(f);
    proof {
        lemma_group_interior(g, seed);
    }
    let h = f.len();
    assert(f@[0]@.len() == width(g));
    let w = f[0].len();
    assert(f@[seed.row as int]@.len() == width(g));
    let color = f[seed.row][seed.col];
    let mut m = new_marks(h, w);
    let ghost m0 = bools(&m);
    assert(m0[seed.row as int].len() == w);
    mark(&mut m, seed);
    let mut work: Vec<Loc> = Vec::new();
    work.push(seed);
    proof {
        reveal(fill_sound);
        reveal(fill_closed);
        let m1 = bools(&m);
        assert forall|l: Loc| #![trigger mk(m1, l)] in_bounds(g, l) && mk(m1, l) implies l == seed by {
            if l.row != seed.row || l.col != seed.col {
                assert(!mk(m0, l));
            }
        }
        assert(work@[0] == seed);
        assert(work@.contains(seed));
    }
    while work.len() > 0
        invariant
            wf_grid(g),
            g == cells(f),
            interior(g, seed),
            group(g, seed).contains(seed),
            forall|b: Loc| #[trigger] group(g, seed).contains(b) ==> interior(g, b),
            color == at(g, seed),
            mk(bools(&m), seed),
            fill_sound(g, seed, bools(&m), work@),
            fill_closed(g, seed, bools(&m), work@),
        decreases count_false(bools(&m)), work@.len(),
    {
        let ghost m0 = bools(&m);
        let ghost w0 = work@;
        let cur = work.pop().unwrap();
        let ghost w1 = work@;
        proof {
            reveal(fill_sound);
            assert(w0 == w1.push(cur));
            assert(mk(m0, w0[w0.len() - 1]));
            assert(interior(g, cur));
            assert forall|i: int| 0 <= i < w1.len() implies in_bounds(g, #[trigger] w1[i]) && mk(
                m0,
                w1[i],
            ) by {
                assert(w1[i] == w0[i]);
            }
        }
        visit_neighbors(f, &mut m, &mut work, cur, color, Ghost(seed), Ghost(w0));
        proof {
            reveal(progress);
        }
    }
    proof {
        reveal(fill_sound);
        reveal(fill_closed);
        let mf = bools(&m);
        let s = marked(mf);
        assert forall|a: Loc, n: Loc|
            #![trigger s.contains(a), s.contains(n), adjacent(a, n)]
            s.contains(a) && adjacent(a, n) && in_bounds(g, n) && at(g, n) == at(g, seed) implies s.contains(
                n,
            ) by {
            assert(in_bounds(g, a) && mk(mf, a));
            assert(mk(mf, n));
        }
        lemma_group_closed(g, seed, s);
        assert(s =~= group(g, seed));
    }
    m
}

/// The group of `seed`, in row-major order.
pub fn group_cells(f: &Vec<Vec<Color>>, seed: Loc) -> (r: Vec<Loc>)
    requires
        wf_grid(cells(f)),
        interior(cells(f), seed),
    ensures
        r@ == select(group(cells(f), seed), height(cells(f)), width(cells(f))),
{
    let m = flood_fill(f, seed);
    assert(f@[0]@.len() == width(cells(f)));
    collect_marked(&m, f[0].len())
}

/// Some cell among the first `k` of `v` shares a side with `l`.
pub open spec fn near(v: Seq<Loc>, k: int, l: Loc) -> bool {
    exists|j: int| 0 <= j < k && #[trigger] adjacent(v[j], l)
}

fn mark_if_empty(f: &Vec<Vec<Color>>, m: &mut Vec<Vec<bool>>, n: Loc)
    requires
        wf_grid(cells(f)),
        in_bounds(cells(f), n),
        shaped(bools(old(m)), height(cells(f)), width(cells(f))),
    ensures
        shaped(bools(final(m)), height(cells(f)), width(cells(f))),
        forall|l: Loc|
            #![trigger mk(bools(final(m)), l)]
            in_bounds(cells(f), l) ==> (mk(bools(final(m)), l) <==> (mk(bools(old(m)), l) || (l == n
                && at(cells(f), n) == Color::Empty))),
{
    assert(f@[n.row as int]@.len() == width(cells(f)));
    if f[n.row][n.col] == Color::Empty {
        assert(bools(old(m))[n.row as int].len() == width(cells(f)));
        mark(m, n);
        assert forall|l: Loc|
            #![trigger mk(bools(m), l)]
            in_bounds(cells(f), l) implies (mk(bools(m), l) <==> (mk(bools(old(m)), l) || l == n)) by {
            if l.row == n.row && l.col == n.col {
                assert(l == n);
            }
        }
    }
}

/// How many empty cells share a side with the group of `seed`.
pub fn count_group_liberties(f: &Vec<Vec<Color>>, seed: Loc) -> (r: usize)
    requires
        wf_grid(cells(f)),
        interior(cells(f), seed),
    ensures
        liberties(cells(f), seed).finite(),
        r == liberties(cells(f), seed).len(),
{
    let ghost g = cells(f);
    let h = f.len();
    assert(f@[0]@.len() == width(g));
    let w = f[0].len();
    proof {
        lemma_group_interior(g, seed);
        lemma_select(group(g, seed), height(g), width(g));
    }
    let stones = group_cells(f, seed);
    assert forall|j: int| 0 <= j < stones@.len() implies interior(g, #[trigger] stones@[j]) by {
        assert(stones@.contains(stones@[j]));
    }
    let mut lm = new_marks(h, w);
    let mut i: usize = 0;
    while i < stones.len()
        invariant
            g == cells(f),
            wf_grid(g),
            h == height(g),
            w == width(g),
            i <= stones@.len(),
            forall|j: int| 0 <= j < stones@.len() ==> interior(g, #[trigger] stones@[j]),
            shaped(bools(&lm), h as int, w as int),
            forall|l: Loc|
                #![trigger mk(bools(&lm), l)]
                in_bounds(g, l) ==> (mk(bools(&lm), l) <==> (at(g, l) == Color::Empty && near(
                    stones@,
                    i as int,
                    l,
                ))),
        decreases stones@.len() - i,
    {
        let s = stones[i];
        assert(interior(g, stones@[i as int]));
        let ghost m0 = bools(&lm);
        mark_if_empty(f, &mut lm, s.up());
        mark_if_empty(f, &mut lm, s.down());
        mark_if_empty(f, &mut lm, s.left());
        mark_if_empty(f, &mut lm, s.right());
        proof {
            let m1 = bools(&lm);
            assert forall|l: Loc| #![trigger mk(m1, l)] in_bounds(g, l) implies (mk(m1, l) <==> (at(
                g,
                l,
            ) == Color::Empty && near(stones@, i + 1, l))) by {
                lemma_adjacent_cases(s, l);
                if near(stones@, i as int, l) {
                    let j = choose|j: int| 0 <= j < i && #[trigger] adjacent(stones@[j], l);
                    assert(0 <= j < i + 1 && adjacent(stones@[j], l));
                }
                if adjacent(s, l) {
                    assert(adjacent(stones@[i as int], l));
                }
                if near(stones@, i + 1, l) && !adjacent(s, l) {
                    let j = choose|j: int| 0 <= j < i + 1 && #[trigger] adjacent(stones@[j], l);
                    assert(j < i);
                }
            }
        }
        i = i + 1;
    }
    let libs = collect_marked(&lm, w);
    proof {
        let lib = liberties(g, seed);
        let mf = bools(&lm);
        assert forall|l: Loc| #[trigger] marked(mf).contains(l) <==> lib.contains(l) by {
            if in_bounds(g, l) {
                if near(stones@, stones@.len() as int, l) {
                    let j = choose|j: int| 0 <= j < stones@.len() && #[trigger] adjacent(stones@[j], l);
                    assert(stones@.contains(stones@[j]));
                    assert(group(g, seed).contains(stones@[j]));
                }
                if lib.contains(l) {
                    let a = choose|a: Loc| #[trigger] group(g, seed).contains(a) && adjacent(a, l);
                    assert(interior(g, a));
                    assert(stones@.contains(a));
                    let j = choose|j: int| 0 <= j < stones@.len() && stones@[j] == a;
                    assert(adjacent(stones@[j], l));
                }
            }
        }
        assert(marked(mf) =~= lib);
        lemma_select_len(lib, h as int, w as int);
    }
    libs.len()
}

impl Loc {
    /// Every cell of an `r` by `c` board, in row-major order.
    pub fn get_all(r: usize, c: usize) -> (all: Vec<Loc>)
        ensures
            all@ == select(Set::full(), r as int, c as int),
    {
        let ghost s = Set::<Loc>::full();
        let mut all_loc: Vec<Loc> = Vec::new();
        let mut row: usize = 0;
        while row < r
            invariant
                row <= r,
                s == Set::<Loc>::full(),
                all_loc@ == select(s, row as int, c as int),
            decreases r - row,
        {
            let mut col: usize = 0;
            while col < c
                invariant
                    row < r,
                    col <= c,
                    s == Set::<Loc>::full(),
                    all_loc@ == select(s, row as int, c as int) + select_row(s, row as int, col as int),
                decreases c - col,
            {
                let l = Loc { row, col };
                assert(l == cell(row as int, col as int));
                all_loc.push(l);
                assert(s.contains(l));
                col = col + 1;
            }
            row = row + 1;
        }
        all_loc
    }
}

} // verus!
