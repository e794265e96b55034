//! The rules as mathematics: a game state, what one move does to it, replay of
//! a move list, legality and undo. The executable board is proved against these.
use crate::grid::{
    at, cell, group, height, in_bounds, interior, lemma_group_finite, lemma_group_interior,
    lemma_select_len,
    liberties, wf_grid, width,
};
use crate::loc::{down_of, is_pass_move, left_of, right_of, up_of, Loc, Move};
use crate::stone::{spec_opponent, stone_of, Color, Player};
use vstd::prelude::*;
use vstd::set_lib::{lemma_len_subset, lemma_set_difference_len};

verus! {

/// A game state: the cells, every move made so far, whose turn it is, the
/// configuration the game began with, and the stones each player has captured.
pub ghost struct Game {
    pub grid: Seq<Seq<Color>>,
    pub history: Seq<Move>,
    pub current: Player,
    pub start: Player,
    /// Komi in half points.
    pub komi: int,
    pub black_captures: nat,
    pub white_captures: nat,
}

/// A board of `rows` by `cols` cells: the outermost ring sentinel, the rest empty.
pub open spec fn init_grid(rows: int, cols: int) -> Seq<Seq<Color>> {
    Seq::new(
        rows as nat,
        |r: int|
            Seq::new(
                cols as nat,
                |c: int|
                    if r == 0 || r == rows - 1 || c == 0 || c == cols - 1 {
                        Color::Invalid
                    } else {
                        Color::Empty
                    },
            ),
    )
}

pub open spec fn new_game(rows: int, cols: int, start: Player, komi: int) -> Game {
    Game {
        grid: init_grid(rows, cols),
        history: seq![],
        current: start,
        start,
        komi,
        black_captures: 0,
        white_captures: 0,
    }
}

/// The state that the game of `s` began in.
pub open spec fn initial(s: Game) -> Game {
    new_game(height(s.grid), width(s.grid), s.start, s.komi)
}

/// The cells that hold a stone.
pub open spec fn stones(g: Seq<Seq<Color>>) -> Set<Loc> {
    Set::new(|l: Loc| in_bounds(g, l) && (at(g, l) == Color::Black || at(g, l) == Color::White))
}

pub open spec fn set_cell(g: Seq<Seq<Color>>, l: Loc, c: Color) -> Seq<Seq<Color>> {
    g.update(l.row as int, g[l.row as int].update(l.col as int, c))
}

/// The grid with every cell of `s` emptied.
pub open spec fn clear(g: Seq<Seq<Color>>, s: Set<Loc>) -> Seq<Seq<Color>> {
    Seq::new(
        g.len(),
        |r: int|
            Seq::new(
                g[r].len(),
                |c: int|
                    if s.contains(cell(r, c)) {
                        Color::Empty
                    } else {
                        g[r][c]
                    },
            ),
    )
}

/// Removing the group at `l`: its cells become empty and the opponent of its
/// color is credited with its size. Anything but a stone is left alone.
pub open spec fn remove_spec(s: Game, l: Loc) -> Game {
    let gr = group(s.grid, l);
    if interior(s.grid, l) && at(s.grid, l) == Color::Black {
        Game { grid: clear(s.grid, gr), white_captures: s.white_captures + gr.len(), ..s }
    } else if interior(s.grid, l) && at(s.grid, l) == Color::White {
        Game { grid: clear(s.grid, gr), black_captures: s.black_captures + gr.len(), ..s }
    } else {
        s
    }
}

/// After `mover` played, the group at `n` is captured when it is the opponent's
/// and has no liberty left.
pub open spec fn capture_spec(s: Game, n: Loc, mover: Player) -> Game {
    if at(s.grid, n) == stone_of(spec_opponent(mover)) && liberties(s.grid, n).len() == 0 {
        remove_spec(s, n)
    } else {
        s
    }
}

/// What one move does: it is logged and the turn passes; a stone is written to its
/// cell, then the opponent's groups beside it without liberties are captured,
/// above, below, left and right in that order.
pub open spec fn step(s: Game, m: Move) -> Game {
    let logged = Game { history: s.history.push(m), current: spec_opponent(s.current), ..s };
    if is_pass_move(m) || !interior(s.grid, m.loc) {
        logged
    } else {
        let placed = Game { grid: set_cell(s.grid, m.loc, stone_of(m.player)), ..logged };
        let a = capture_spec(placed, up_of(m.loc), m.player);
        let b = capture_spec(a, down_of(m.loc), m.player);
        let c = capture_spec(b, left_of(m.loc), m.player);
        capture_spec(c, right_of(m.loc), m.player)
    }
}

/// The state after playing `ms` in order from `s0`.
pub open spec fn replay(s0: Game, ms: Seq<Move>) -> Game
    decreases ms.len(),
{
    if ms.len() == 0 {
        s0
    } else {
        step(replay(s0, ms.drop_last()), ms.last())
    }
}

/// The state before the last move, rebuilt from the start by replay.
pub open spec fn undo_spec(s: Game) -> Game {
    if s.history.len() == 0 {
        s
    } else {
        replay(initial(s), s.history.drop_last())
    }
}

/// The cells as they stood before the last move.
pub open spec fn previous_grid(s: Game) -> Seq<Seq<Color>> {
    undo_spec(s).grid
}

/// A move after which the mover's new stone has no liberty.
pub open spec fn is_suicide(s: Game, m: Move) -> bool {
    liberties(step(s, m).grid, m.loc).len() == 0
}

/// A move after which the cells are as they were two moves earlier.
pub open spec fn repeats_position(s: Game, m: Move) -> bool {
    step(s, m).grid == previous_grid(s)
}

/// A pass is always legal. A stone must go to an empty cell inside the ring,
/// must keep a liberty once captures are done, and must not bring back the
/// position from before the last move.
pub open spec fn legal(s: Game, m: Move) -> bool {
    is_pass_move(m) || (interior(s.grid, m.loc) && at(s.grid, m.loc) == Color::Empty && !is_suicide(
        s,
        m,
    ) && !repeats_position(s, m))
}

/// What `play` does: a legal move is made, an illegal one changes nothing.
pub open spec fn play_spec(s: Game, m: Move) -> Game {
    if legal(s, m) {
        step(s, m)
    } else {
        s
    }
}

/// The last two moves were passes.
pub open spec fn game_over(s: Game) -> bool {
    s.history.len() >= 2 && is_pass_move(s.history.last()) && is_pass_move(
        s.history[s.history.len() - 2],
    )
}

/// Every move in the log is a pass or lies inside the ring, and the stones
/// captured and on the board together are no more than the moves made.
pub open spec fn wf_game(s: Game) -> bool {
    &&& wf_grid(s.grid)
    &&& forall|i: int|
        0 <= i < s.history.len() ==> is_pass_move(#[trigger] s.history[i]) || interior(
            s.grid,
            s.history[i].loc,
        )
    &&& s.black_captures + s.white_captures + stones(s.grid).len() <= s.history.len()
}

pub proof fn lemma_stones_finite(g: Seq<Seq<Color>>)
    requires
        wf_grid(g),
    ensures
        stones(g).finite(),
{
    lemma_select_len(stones(g), height(g), width(g));
}

pub proof fn lemma_init_wf(rows: int, cols: int, start: Player, komi: int)
    requires
        1 <= rows <= usize::MAX,
        1 <= cols <= usize::MAX,
        rows * cols <= usize::MAX,
    ensures
        wf_game(new_game(rows, cols, start, komi)),
        height(init_grid(rows, cols)) == rows,
        width(init_grid(rows, cols)) == cols,
{
    let g = init_grid(rows, cols);
    assert(stones(g) =~= Set::empty());
}

proof fn lemma_grid_shape(g: Seq<Seq<Color>>, h: Seq<Seq<Color>>)
    requires
        wf_grid(g),
        h.len() == g.len(),
        forall|r: int| 0 <= r < g.len() ==> #[trigger] h[r].len() == g[r].len(),
    ensures
        height(h) == height(g),
        width(h) == width(g),
        forall|l: Loc| in_bounds(h, l) <==> in_bounds(g, l),
        forall|l: Loc| interior(h, l) <==> interior(g, l),
{
    assert(h[0].len() == g[0].len());
}

proof fn lemma_clear_dims(g: Seq<Seq<Color>>, s: Set<Loc>)
    requires
        height(g) >= 1,
    ensures
        height(clear(g, s)) == height(g),
        width(clear(g, s)) == width(g),
{
}

proof fn lemma_capture_dims(s: Game, n: Loc, mover: Player)
    requires
        height(s.grid) >= 1,
    ensures
        height(capture_spec(s, n, mover).grid) == height(s.grid),
        width(capture_spec(s, n, mover).grid) == width(s.grid),
        capture_spec(s, n, mover).history == s.history,
        capture_spec(s, n, mover).start == s.start,
        capture_spec(s, n, mover).komi == s.komi,
{
    lemma_clear_dims(s.grid, group(s.grid, n));
}

/// A move changes neither the size of the board nor how the game began, and it
/// is appended to the log.
pub proof fn lemma_step_dims(s: Game, m: Move)
    requires
        height(s.grid) >= 1,
    ensures
        height(step(s, m).grid) == height(s.grid),
        width(step(s, m).grid) == width(s.grid),
        step(s, m).history == s.history.push(m),
        step(s, m).start == s.start,
        step(s, m).komi == s.komi,
{
    if !(is_pass_move(m) || !interior(s.grid, m.loc)) {
        let logged = Game { history: s.history.push(m), current: spec_opponent(s.current), ..s };
        let placed = Game { grid: set_cell(s.grid, m.loc, stone_of(m.player)), ..logged };
        assert(placed.grid[0].len() == s.grid[0].len());
        let a = capture_spec(placed, up_of(m.loc), m.player);
        let b = capture_spec(a, down_of(m.loc), m.player);
        let c = capture_spec(b, left_of(m.loc), m.player);
        lemma_capture_dims(placed, up_of(m.loc), m.player);
        lemma_capture_dims(a, down_of(m.loc), m.player);
        lemma_capture_dims(b, left_of(m.loc), m.player);
        lemma_capture_dims(c, right_of(m.loc), m.player);
    }
}

proof fn lemma_capture_wf(s: Game, n: Loc, mover: Player)
    requires
        wf_game(s),
    ensures
        wf_game(capture_spec(s, n, mover)),
{
    lemma_remove_wf(s, n);
}

/// A pass, or a move inside the ring, keeps the state well formed.
pub proof fn lemma_step_wf(s: Game, m: Move)
    requires
        wf_game(s),
        is_pass_move(m) || interior(s.grid, m.loc),
    ensures
        wf_game(step(s, m)),
{
    let logged = Game { history: s.history.push(m), current: spec_opponent(s.current), ..s };
    if is_pass_move(m) {
        assert forall|i: int| 0 <= i < logged.history.len() implies is_pass_move(
            #[trigger] logged.history[i],
        ) || interior(logged.grid, logged.history[i].loc) by {
            if i < s.history.len() {
                assert(logged.history[i] == s.history[i]);
            }
        }
    } else {
        let placed = Game { grid: set_cell(s.grid, m.loc, stone_of(m.player)), ..logged };
        lemma_place_wf(s, m);
        let a = capture_spec(placed, up_of(m.loc), m.player);
        let b = capture_spec(a, down_of(m.loc), m.player);
        let c = capture_spec(b, left_of(m.loc), m.player);
        lemma_capture_wf(placed, up_of(m.loc), m.player);
        lemma_capture_wf(a, down_of(m.loc), m.player);
        lemma_capture_wf(b, left_of(m.loc), m.player);
        lemma_capture_wf(c, right_of(m.loc), m.player);
    }
}

/// Writing a stone inside the ring and logging the move keeps the state well formed.
pub proof fn lemma_place_wf(s: Game, m: Move)
    requires
        wf_game(s),
        interior(s.grid, m.loc),
    ensures
        wf_game(
            Game {
                grid: set_cell(s.grid, m.loc, stone_of(m.player)),
                history: s.history.push(m),
                current: spec_opponent(s.current),
                ..s
            },
        ),
{
    let g = s.grid;
    let h = set_cell(g, m.loc, stone_of(m.player));
    lemma_grid_shape(g, h);
    assert forall|l: Loc| in_bounds(h, l) implies (#[trigger] at(h, l) == Color::Invalid
        <==> crate::grid::on_ring(h, l)) by {
        if l.row != m.loc.row || l.col != m.loc.col {
            assert(at(h, l) == at(g, l));
        }
    }
    let hist = s.history.push(m);
    assert forall|i: int| 0 <= i < hist.len() implies is_pass_move(#[trigger] hist[i]) || interior(
        h,
        hist[i].loc,
    ) by {
        if i < s.history.len() {
            assert(hist[i] == s.history[i]);
        }
    }
    lemma_stones_finite(g);
    lemma_stones_finite(h);
    assert(stones(h).subset_of(stones(g).insert(m.loc))) by {
        assert forall|l: Loc| stones(h).contains(l) implies stones(g).insert(m.loc).contains(l) by {
            if l.row != m.loc.row || l.col != m.loc.col {
                assert(at(h, l) == at(g, l));
            } else {
                assert(l == m.loc);
            }
        }
    }
    lemma_len_subset(stones(h), stones(g).insert(m.loc));
}

/// Removing a group keeps the state well formed.
pub proof fn lemma_remove_wf(s: Game, l: Loc)
    requires
        wf_game(s),
    ensures
        wf_game(remove_spec(s, l)),
        group(s.grid, l).finite(),
        remove_spec(s, l).history == s.history,
        remove_spec(s, l).current == s.current,
        remove_spec(s, l).start == s.start,
        remove_spec(s, l).komi == s.komi,
        height(remove_spec(s, l).grid) == height(s.grid),
        width(remove_spec(s, l).grid) == width(s.grid),
        interior(s.grid, l) && (at(s.grid, l) == Color::Black || at(s.grid, l) == Color::White)
            ==> group(s.grid, l).len() <= stones(s.grid).len(),
{
    let g = s.grid;
    if interior(g, l) && (at(g, l) == Color::Black || at(g, l) == Color::White) {
        let gr = group(g, l);
        lemma_group_interior(g, l);
        lemma_select_len(gr, height(g), width(g));
        let h = clear(g, gr);
        lemma_grid_shape(g, h);
        assert forall|x: Loc| in_bounds(h, x) implies (#[trigger] at(h, x) == Color::Invalid
            <==> crate::grid::on_ring(h, x)) by {
            assert(x == cell(x.row as int, x.col as int));
        }
        lemma_stones_finite(g);
        assert(gr.subset_of(stones(g)));
        assert(stones(h) =~= stones(g).difference(gr)) by {
            assert forall|x: Loc| stones(h).contains(x) <==> stones(g).difference(gr).contains(x) by {
                if in_bounds(g, x) {
                    assert(x == cell(x.row as int, x.col as int));
                }
            }
        }
        lemma_set_difference_len(stones(g), gr);
        assert(stones(g).intersect(gr) =~= gr);
        lemma_len_subset(gr, stones(g));
    }
    lemma_group_finite(g, l);
}

} // verus!
