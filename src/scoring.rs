//! Territory scoring: empty regions are credited to the one stone color that
//! borders them, and the totals add captures and komi.
use crate::board::Board;
use crate::fill::{bools, cells, lemma_marked_insert, mark, marked, mk, new_marks, shaped};
use crate::game::Game;
use crate::grid::{
    at, borders, group, height, in_bounds, interior, lemma_adjacent_cases, lemma_group_finite,
    lemma_group_interior, lemma_same_group, lemma_select, lemma_select_len,
    lemma_select_len_bound, select, wf_grid, width,
};
use crate::loc::{adjacent, down_of, left_of, right_of, up_of, Loc};
use crate::stone::{Color, Player};
use vstd::prelude::*;
use vstd::set_lib::{lemma_len_subset, lemma_set_disjoint_lens};

verus! {

/// The color credited with the empty region of `l`: the one stone color on its
/// border, or `Empty` when both colors border it or neither does.
pub open spec fn island_owner(g: Seq<Seq<Color>>, l: Loc) -> Color {
    let b = borders(g, group(g, l));
    if b.contains(Color::Black) && !b.contains(Color::White) {
        Color::Black
    } else if b.contains(Color::White) && !b.contains(Color::Black) {
        Color::White
    } else {
        Color::Empty
    }
}

/// What the empty region of `l` is worth, and to whom. A cell that is not empty
/// gives `(Invalid, 0)`; a neutral region gives `(Empty, 0)`.
pub open spec fn potential_points(g: Seq<Seq<Color>>, l: Loc) -> (Color, nat) {
    if !in_bounds(g, l) || at(g, l) != Color::Empty {
        (Color::Invalid, 0)
    } else if island_owner(g, l) == Color::Empty {
        (Color::Empty, 0)
    } else {
        (island_owner(g, l), group(g, l).len())
    }
}

/// The empty cells credited to `c`.
pub open spec fn territory(g: Seq<Seq<Color>>, c: Color) -> Set<Loc> {
    Set::new(|l: Loc| in_bounds(g, l) && at(g, l) == Color::Empty && island_owner(g, l) == c)
}

/// Black's total in half points: territory and captures.
pub open spec fn black_total(s: Game) -> int {
    2 * (territory(s.grid, Color::Black).len() + s.black_captures) as int
}

/// White's total in half points: territory, captures and komi.
pub open spec fn white_total(s: Game) -> int {
    2 * (territory(s.grid, Color::White).len() + s.white_captures) as int + s.komi
}

/// The outcome of a game.
#[derive(Debug, Clone, Copy, PartialEq, Eq, Structural)]
pub enum GameResult {
    /// The winner and the margin, in half points.
    Player(Player, u128),
    Draw,
}

pub open spec fn result_spec(s: Game) -> GameResult {
    if black_total(s) == white_total(s) {
        GameResult::Draw
    } else if black_total(s) > white_total(s) {
        GameResult::Player(Player::Black, (black_total(s) - white_total(s)) as u128)
    } else {
        GameResult::Player(Player::White, (white_total(s) - black_total(s)) as u128)
    }
}

fn add_color(colors: &mut Vec<Color>, c: Color)
    ensures
        final(colors)@.to_set() == old(colors)@.to_set().insert(c),
{
    let mut i: usize = 0;
    while i < colors.len()
        invariant
            i <= colors@.len(),
            forall|k: int| 0 <= k < i ==> colors@[k] != c,
        decreases colors@.len() - i,
    {
        if colors[i] == c {
            assert(colors@.to_set().insert(c) =~= colors@.to_set()) by {
                assert(colors@.contains(c));
            }
            return;
        }
        i = i + 1;
    }
    colors.push(c);
    proof {
        old(colors)@.lemma_push_to_set_commute(c);
    }
}

fn has_color(colors: &Vec<Color>, c: Color) -> (r: bool)
    ensures
        r == colors@.to_set().contains(c),
{
    let mut i: usize = 0;
    while i < colors.len()
        invariant
            i <= colors@.len(),
            forall|k: int| 0 <= k < i ==> colors@[k] != c,
        decreases colors@.len() - i,
    {
        if colors[i] == c {
            assert(colors@.contains(c));
            return true;
        }
        i = i + 1;
    }
    false
}

/// The colors on the border of `s.insert(f)` are those of `s` and those of the four
/// neighbors of `f`.
proof fn lemma_borders_insert(g: Seq<Seq<Color>>, s: Set<Loc>, f: Loc)
    requires
        wf_grid(g),
        interior(g, f),
    ensures
        borders(g, s.insert(f)) == borders(g, s).insert(at(g, up_of(f))).insert(
            at(g, down_of(f)),
        ).insert(at(g, left_of(f))).insert(at(g, right_of(f))),
{
    let lhs = borders(g, s.insert(f));
    let rhs = borders(g, s).insert(at(g, up_of(f))).insert(at(g, down_of(f))).insert(
        at(g, left_of(f)),
    ).insert(at(g, right_of(f)));
    assert forall|c: Color| lhs.contains(c) <==> rhs.contains(c) by {
        if lhs.contains(c) {
            let (m, n) = choose|m: Loc, n: Loc|
                #![trigger s.insert(f).contains(m), at(g, n)]
                s.insert(f).contains(m) && adjacent(m, n) && in_bounds(g, n) && at(g, n) == c;
            if m == f {
                lemma_adjacent_cases(f, n);
            } else {
                assert(s.contains(m));
                assert(borders(g, s).contains(c));
            }
        }
        if rhs.contains(c) {
            if borders(g, s).contains(c) {
                let (m, n) = choose|m: Loc, n: Loc|
                    #![trigger s.contains(m), at(g, n)]
                    s.contains(m) && adjacent(m, n) && in_bounds(g, n) && at(g, n) == c;
                assert(s.insert(f).contains(m));
            } else {
                lemma_adjacent_cases(f, up_of(f));
                lemma_adjacent_cases(f, down_of(f));
                lemma_adjacent_cases(f, left_of(f));
                lemma_adjacent_cases(f, right_of(f));
                assert(s.insert(f).contains(f));
                if c == at(g, up_of(f)) {
                    assert(adjacent(f, up_of(f)));
                } else if c == at(g, down_of(f)) {
                    assert(adjacent(f, down_of(f)));
                } else if c == at(g, left_of(f)) {
                    assert(adjacent(f, left_of(f)));
                } else {
                    assert(adjacent(f, right_of(f)));
                }
            }
        }
    }
    assert(lhs =~= rhs);
}

/// The region listed by `v`: the group of its first cell.
pub open spec fn region(g: Seq<Seq<Color>>, v: Vec<Loc>) -> Set<Loc> {
    group(g, v@[0])
}

/// Every entry of `islands` lists, in row-major order, the empty region of its
/// first cell, and no two entries share a cell.
pub open spec fn distinct_islands(g: Seq<Seq<Color>>, islands: Seq<Vec<Loc>>) -> bool {
    &&& forall|k: int|
        #![trigger islands[k]]
        0 <= k < islands.len() ==> islands[k]@.len() > 0 && in_bounds(g, islands[k]@[0]) && at(
            g,
            islands[k]@[0],
        ) == Color::Empty && islands[k]@ == select(region(g, islands[k]), height(g), width(g))
    &&& forall|k1: int, k2: int|
        0 <= k1 < islands.len() && 0 <= k2 < islands.len() && k1 != k2 ==> region(
            g,
            #[trigger] islands[k1],
        ).disjoint(region(g, #[trigger] islands[k2]))
}

/// The cells of all the regions listed.
pub open spec fn covered(g: Seq<Seq<Color>>, islands: Seq<Vec<Loc>>) -> Set<Loc>
    decreases islands.len(),
{
    if islands.len() == 0 {
        Set::empty()
    } else {
        covered(g, islands.drop_last()) + region(g, islands.last())
    }
}

proof fn lemma_covered(g: Seq<Seq<Color>>, islands: Seq<Vec<Loc>>)
    ensures
        forall|l: Loc|
            #[trigger] covered(g, islands).contains(l) <==> exists|k: int|
                0 <= k < islands.len() && #[trigger] region(g, islands[k]).contains(l),
    decreases islands.len(),
{
    if islands.len() > 0 {
        let d = islands.drop_last();
        lemma_covered(g, d);
        assert forall|l: Loc| #[trigger] covered(g, islands).contains(l) <==> exists|k: int|
            0 <= k < islands.len() && #[trigger] region(g, islands[k]).contains(l) by {
            if covered(g, d).contains(l) {
                let k = choose|k: int| 0 <= k < d.len() && #[trigger] region(g, d[k]).contains(l);
                assert(islands[k] == d[k]);
            }
            if exists|k: int| 0 <= k < islands.len() && #[trigger] region(g, islands[k]).contains(l) {
                let k = choose|k: int| 0 <= k < islands.len() && #[trigger] region(g, islands[k]).contains(l);
                if k < d.len() {
                    assert(islands[k] == d[k]);
                } else {
                    assert(islands[k] == islands.last());
                }
            }
        }
    }
}

impl Board {
    /// The distinct colors found beside the cells of `island`.
    fn get_bordering_colors(&self, island: &Vec<Loc>) -> (r: Vec<Color>)
        requires
            self.wf(),
            forall|i: int| 0 <= i < island@.len() ==> interior(self@.grid, #[trigger] island@[i]),
        ensures
            r@.to_set() == borders(self@.grid, island@.to_set()),
    {
        let ghost g = self@.grid;
        let mut colors: Vec<Color> = Vec::new();
        let mut i: usize = 0;
        proof {
            assert(island@.take(0).to_set() =~= Set::empty());
            assert(borders(g, Set::empty()) =~= Set::empty());
            assert(colors@.to_set() =~= Set::empty());
        }
        while i < island.len()
            invariant
                self.wf(),
                g == self@.grid,
                i <= island@.len(),
                forall|k: int| 0 <= k < island@.len() ==> interior(g, #[trigger] island@[k]),
                colors@.to_set() == borders(g, island@.take(i as int).to_set()),
            decreases island@.len() - i,
        {
            let field = island[i];
            assert(interior(g, island@[i as int]));
            add_color(&mut colors, self.get(field.up()));
            add_color(&mut colors, self.get(field.down()));
            add_color(&mut colors, self.get(field.left()));
            add_color(&mut colors, self.get(field.right()));
            proof {
                assert(island@.take(i + 1) =~= island@.take(i as int).push(field));
                island@.take(i as int).lemma_push_to_set_commute(field);
                lemma_borders_insert(g, island@.take(i as int).to_set(), field);
            }
            i = i + 1;
        }
        proof {
            assert(island@.take(island@.len() as int) =~= island@);
        }
        colors
    }

    /// The color credited with the empty region of `loc`, whose cells are `island`.
    fn island_owner_of(&self, island: &Vec<Loc>, Ghost(loc): Ghost<Loc>) -> (r: Color)
        requires
            self.wf(),
            interior(self@.grid, loc),
            island@ == select(group(self@.grid, loc), height(self@.grid), width(self@.grid)),
        ensures
            r == island_owner(self@.grid, loc),
    {
        let ghost g = self@.grid;
        proof {
            lemma_group_interior(g, loc);
            lemma_select(group(g, loc), height(g), width(g));
            assert(island@.to_set() =~= group(g, loc));
            assert forall|i: int| 0 <= i < island@.len() implies interior(g, #[trigger] island@[i]) by {
                assert(island@.contains(island@[i]));
            }
        }
        let bordering_colors = self.get_bordering_colors(island);
        let black = has_color(&bordering_colors, Color::Black);
        let white = has_color(&bordering_colors, Color::White);
        if black && !white {
            Color::Black
        } else if white && !black {
            Color::White
        } else {
            Color::Empty
        }
    }

    /// To whom the empty region of `loc` belongs and how many cells it has:
    /// `(Invalid, 0)` when the cell is not empty, `(Empty, 0)` when the region is
    /// neutral.
    pub fn count_potential_points(&self, loc: Loc) -> (r: (Color, usize))
        requires
            self.wf(),
        ensures
            r.0 == potential_points(self@.grid, loc).0,
            r.1 == potential_points(self@.grid, loc).1,
    {
        let ghost g = self@.grid;
        let (rows, cols) = self.board_size();
        if loc.row >= rows || loc.col >= cols {
            return (Color::Invalid, 0);
        }
        if self.get(loc) != Color::Empty {
            return (Color::Invalid, 0);
        }
        assert(interior(g, loc));
        let island = self.group_stones(loc);
        proof {
            lemma_group_interior(g, loc);
            lemma_select_len(group(g, loc), height(g), width(g));
        }
        let owner = self.island_owner_of(&island, Ghost(loc));
        if owner == Color::Empty {
            (Color::Empty, 0)
        } else {
            (owner, island.len())
        }
    }

    /// Adds the empty region of `l`, which no listed region holds yet, to the list
    /// and marks its cells as seen.
    fn add_island(&self, seen: &mut Vec<Vec<bool>>, islands: &mut Vec<Vec<Loc>>, l: Loc)
        requires
            self.wf(),
            in_bounds(self@.grid, l),
            at(self@.grid, l) == Color::Empty,
            !mk(bools(old(seen)), l),
            shaped(bools(old(seen)), height(self@.grid), width(self@.grid)),
            distinct_islands(self@.grid, old(islands)@),
            marked(bools(old(seen))) == covered(self@.grid, old(islands)@),
        ensures
            shaped(bools(final(seen)), height(self@.grid), width(self@.grid)),
            distinct_islands(self@.grid, final(islands)@),
            marked(bools(final(seen))) == covered(self@.grid, final(islands)@),
            marked(bools(old(seen))).subset_of(marked(bools(final(seen)))),
            mk(bools(final(seen)), l),
    {
        let ghost g = self@.grid;
        let (rows, cols) = self.board_size();
        assert(interior(g, l));
        let island = self.group_stones(l);
        let ghost seen0 = bools(seen);
        let ghost island_set = group(g, l);
        proof {
            lemma_group_interior(g, l);
            lemma_select(island_set, height(g), width(g));
            assert(island@.contains(l));
            let x = island@[0];
            assert(island@.contains(x));
            lemma_same_group(g, l, x);
        }
        let mut q: usize = 0;
        while q < island.len()
            invariant
                q <= island@.len(),
                rows == height(g),
                cols == width(g),
                wf_grid(g),
                island@ == select(island_set, height(g), width(g)),
                forall|b: Loc| #[trigger] island_set.contains(b) ==> interior(g, b),
                forall|b: Loc|
                    #[trigger] island@.contains(b) <==> (island_set.contains(b) && crate::grid::in_box(
                        b,
                        height(g),
                        width(g),
                    )),
                shaped(bools(seen), rows as int, cols as int),
                marked(bools(seen)) == marked(seen0) + island@.take(q as int).to_set(),
            decreases island@.len() - q,
        {
            let x = island[q];
            assert(island@.contains(x));
            let ghost before = bools(seen);
            assert(before[x.row as int].len() == cols);
            mark(seen, x);
            proof {
                lemma_marked_insert(before, x);
                assert(island@.take(q + 1) =~= island@.take(q as int).push(x));
                island@.take(q as int).lemma_push_to_set_commute(x);
                assert(marked(bools(seen)) =~= marked(seen0) + island@.take(q + 1).to_set());
            }
            q = q + 1;
        }
        proof {
            assert(island@.take(island@.len() as int) =~= island@);
            assert(island@.to_set() =~= island_set);
            lemma_covered(g, islands@);
            let old_islands = islands@;
            let new_islands = old_islands.push(island);
            assert(new_islands.drop_last() =~= old_islands);
            assert(region(g, island) == island_set);
            assert forall|k: int| 0 <= k < old_islands.len() implies #[trigger] region(
                g,
                old_islands[k],
            ).disjoint(island_set) by {
                assert forall|y: Loc| !(region(g, old_islands[k]).contains(y) && island_set.contains(
                    y,
                )) by {
                    if region(g, old_islands[k]).contains(y) && island_set.contains(y) {
                        assert(old_islands[k]@.contains(old_islands[k]@[0]));
                        lemma_same_group(g, old_islands[k]@[0], y);
                        lemma_same_group(g, l, y);
                        assert(region(g, old_islands[k]).contains(l));
                        assert(covered(g, old_islands).contains(l));
                        assert(marked(seen0).contains(l));
                    }
                }
            }
            assert forall|k1: int, k2: int|
                0 <= k1 < new_islands.len() && 0 <= k2 < new_islands.len() && k1 != k2 implies region(
                g,
                #[trigger] new_islands[k1],
            ).disjoint(region(g, #[trigger] new_islands[k2])) by {
                if k1 == old_islands.len() {
                    assert(region(g, old_islands[k2]).disjoint(island_set));
                } else if k2 == old_islands.len() {
                    assert(region(g, old_islands[k1]).disjoint(island_set));
                } else {
                    assert(new_islands[k1] == old_islands[k1]);
                    assert(new_islands[k2] == old_islands[k2]);
                }
            }
            assert forall|k: int| 0 <= k < new_islands.len() implies #[trigger] new_islands[k]@.len() > 0
                && in_bounds(g, new_islands[k]@[0]) && at(g, new_islands[k]@[0]) == Color::Empty
                && new_islands[k]@ == select(region(g, new_islands[k]), height(g), width(g)) by {
                if k < old_islands.len() {
                    assert(new_islands[k] == old_islands[k]);
                }
            }
            assert(marked(bools(seen)).contains(l));
        }
        islands.push(island);
    }

    /// The empty regions of the board, each listed once, found by scanning the
    /// cells row by row.
    pub fn empty_islands(&self) -> (r: Vec<Vec<Loc>>)
        requires
            self.wf(),
        ensures
            distinct_islands(self@.grid, r@),
            forall|l: Loc|
                in_bounds(self@.grid, l) && #[trigger] at(self@.grid, l) == Color::Empty ==> covered(
                    self@.grid,
                    r@,
                ).contains(l),
    {
        let ghost g = self@.grid;
        let (rows, cols) = self.board_size();
        let mut seen = new_marks(rows, cols);
        let mut islands: Vec<Vec<Loc>> = Vec::new();
        proof {
            assert(marked(bools(&seen)) =~= covered(g, islands@));
        }
        let mut i: usize = 0;
        while i < rows
            invariant
                self.wf(),
                g == self@.grid,
                rows == height(g),
                cols == width(g),
                i <= rows,
                shaped(bools(&seen), rows as int, cols as int),
                distinct_islands(g, islands@),
                marked(bools(&seen)) == covered(g, islands@),
                forall|l: Loc|
                    in_bounds(g, l) && l.row < i && #[trigger] at(g, l) == Color::Empty ==> mk(
                        bools(&seen),
                        l,
                    ),
            decreases rows - i,
        {
            let mut j: usize = 0;
            while j < cols
                invariant
                    self.wf(),
                    g == self@.grid,
                    rows == height(g),
                    cols == width(g),
                    i < rows,
                    j <= cols,
                    shaped(bools(&seen), rows as int, cols as int),
                    distinct_islands(g, islands@),
                    marked(bools(&seen)) == covered(g, islands@),
                    forall|l: Loc|
                        in_bounds(g, l) && (l.row < i || (l.row == i && l.col < j)) && #[trigger] at(
                            g,
                            l,
                        ) == Color::Empty ==> mk(bools(&seen), l),
                decreases cols - j,
            {
                let l = Loc { row: i, col: j };
                assert(bools(&seen)[i as int].len() == cols);
                let ghost seen0 = bools(&seen);
                if self.get(l) == Color::Empty && !seen[i][j] {
                    self.add_island(&mut seen, &mut islands, l);
                }
                proof {
                    let m1 = bools(&seen);
                    assert forall|x: Loc|
                        in_bounds(g, x) && (x.row < i || (x.row == i && x.col < j + 1)) && #[trigger] at(
                            g,
                            x,
                        ) == Color::Empty implies mk(m1, x) by {
                        if x.row == i && x.col == j {
                            assert(x == l);
                            assert(marked(m1).contains(x));
                        } else {
                            assert(marked(seen0).contains(x));
                        }
                    }
                }
                j = j + 1;
            }
            i = i + 1;
        }
        proof {
            let m1 = bools(&seen);
            assert forall|l: Loc| in_bounds(g, l) && #[trigger] at(g, l) == Color::Empty implies covered(
                g,
                islands@,
            ).contains(l) by {
                assert(mk(m1, l));
                assert(marked(m1).contains(l));
            }
        }
        islands
    }

    /// The territory of Black and of White: the points of each empty region,
    /// credited to its owner.
    pub fn count_board_points(&self) -> (r: (usize, usize))
        requires
            self.wf(),
        ensures
            r.0 == territory(self@.grid, Color::Black).len(),
            r.1 == territory(self@.grid, Color::White).len(),
    {
        let ghost g = self@.grid;
        let ghost tb = territory(g, Color::Black);
        let ghost tw = territory(g, Color::White);
        let groups_of_potential_points = self.empty_islands();
        let ghost isl = groups_of_potential_points@;
        let mut white_points: usize = 0;
        let mut black_points: usize = 0;
        proof {
            assert(tb.intersect(covered(g, isl.take(0))) =~= Set::empty());
            assert(tw.intersect(covered(g, isl.take(0))) =~= Set::empty());
        }
        let mut k: usize = 0;
        while k < groups_of_potential_points.len()
            invariant
                self.wf(),
                g == self@.grid,
                tb == territory(g, Color::Black),
                tw == territory(g, Color::White),
                isl == groups_of_potential_points@,
                distinct_islands(g, isl),
                k <= isl.len(),
                black_points == tb.intersect(covered(g, isl.take(k as int))).len(),
                white_points == tw.intersect(covered(g, isl.take(k as int))).len(),
                black_points + white_points <= covered(g, isl.take(k as int)).len(),
                covered(g, isl.take(k as int)).finite(),
                forall|x: Loc| #[trigger] covered(g, isl.take(k as int)).contains(x) ==> in_bounds(g, x),
            decreases isl.len() - k,
        {
            let island = &groups_of_potential_points[k];
            assert(isl[k as int] == *island);
            assert(island@.len() > 0);
            let seed = island[0];
            let (color, points) = self.count_potential_points(seed);
            let ghost cov = covered(g, isl.take(k as int));
            let ghost cov1 = covered(g, isl.take(k + 1));
            let ghost x = region(g, *island);
            proof {
                assert(isl.take(k + 1).drop_last() =~= isl.take(k as int));
                assert(isl.take(k + 1).last() == *island);
                assert(cov1 == cov + x);
                lemma_group_finite(g, seed);
                lemma_covered(g, isl.take(k as int));
                assert(cov.disjoint(x)) by {
                    assert forall|y: Loc| !(cov.contains(y) && x.contains(y)) by {
                        if cov.contains(y) {
                            let q = choose|q: int|
                                0 <= q < k && #[trigger] region(g, isl.take(k as int)[q]).contains(y);
                            assert(isl.take(k as int)[q] == isl[q]);
                            assert(region(g, isl[q]).disjoint(region(g, isl[k as int])));
                        }
                    }
                }
                lemma_set_disjoint_lens(cov, x);
                lemma_select_len(cov1, height(g), width(g));
                lemma_select_len_bound(cov1, height(g), width(g));
                lemma_group_interior(g, seed);
                // Every cell of the region has the seed's owner.
                assert forall|y: Loc| #[trigger] x.contains(y) implies (tb.contains(y) <==> island_owner(
                    g,
                    seed,
                ) == Color::Black) && (tw.contains(y) <==> island_owner(g, seed) == Color::White) by {
                    lemma_same_group(g, seed, y);
                }
                let bx = tb.intersect(x);
                let wx = tw.intersect(x);
                assert(tb.intersect(cov1) =~= tb.intersect(cov) + bx);
                assert(tw.intersect(cov1) =~= tw.intersect(cov) + wx);
                lemma_len_subset(tb.intersect(cov), cov);
                lemma_len_subset(tw.intersect(cov), cov);
                lemma_set_disjoint_lens(tb.intersect(cov), bx);
                lemma_set_disjoint_lens(tw.intersect(cov), wx);
                if island_owner(g, seed) == Color::Black {
                    assert(bx =~= x);
                    assert(wx =~= Set::empty());
                } else if island_owner(g, seed) == Color::White {
                    assert(wx =~= x);
                    assert(bx =~= Set::empty());
                } else {
                    assert(bx =~= Set::empty());
                    assert(wx =~= Set::empty());
                }
            }
            if color == Color::Black {
                black_points = black_points + points;
            } else if color == Color::White {
                white_points = white_points + points;
            }
            k = k + 1;
        }
        proof {
            let cov = covered(g, isl.take(isl.len() as int));
            assert(isl.take(isl.len() as int) =~= isl);
            assert(tb.intersect(cov) =~= tb);
            assert(tw.intersect(cov) =~= tw);
        }
        (black_points, white_points)
    }

    /// The result at the end of the game: territory and captures for each player,
    /// komi for White; the larger total wins by the difference.
    pub fn count_score(&self) -> (r: GameResult)
        requires
            self.wf(),
        ensures
            r == result_spec(self@),
    {
        let (black_points, white_points) = self.count_board_points();
        let black_total: i128 = 2 * (black_points as i128 + self.black_captures() as i128);
        let white_total: i128 = 2 * (white_points as i128 + self.white_captures() as i128)
            + self.komi() as i128;
        if black_total == white_total {
            GameResult::Draw
        } else if black_total > white_total {
            GameResult::Player(Player::Black, (black_total - white_total) as u128)
        } else {
            GameResult::Player(Player::White, (white_total - black_total) as u128)
        }
    }
}

} // verus!
