//! Properties of the rules that hold for every board and every move, stated over
//! the same specifications that the executable functions are proved against.
use crate::game::{
    capture_spec, clear, game_over, initial, is_suicide, legal, lemma_step_wf, new_game,
    play_spec, previous_grid, remove_spec, repeats_position, replay, set_cell, step, undo_spec,
    wf_game, Game,
};
use crate::grid::{
    at, cell, group, height, in_bounds, interior, lemma_adjacent_cases, lemma_connected_refl,
    lemma_group_finite,
    lemma_group_interior, lemma_group_same_cells, lemma_same_group, liberties, select, width,
};
use crate::loc::{adjacent, down_of, is_pass_move, left_of, pass_loc, right_of, up_of, Loc, Move};
use crate::stone::{spec_opponent, stone_of, Color, Player};
use vstd::prelude::*;

verus! {

/// Any two cells of one group have the same group: computed from either of
/// them, `group_stones` lists the same cells in the same order.
pub proof fn group_is_shared_by_its_members(g: Seq<Seq<Color>>, a: Loc, b: Loc)
    requires
        group(g, a).contains(b),
    ensures
        group(g, b) == group(g, a),
        select(group(g, b), height(g), width(g)) == select(group(g, a), height(g), width(g)),
{
    lemma_same_group(g, a, b);
}

/// A move after which the mover's new stone has no liberty, once the captures
/// it makes are done, is rejected, and playing it leaves the board as it was.
pub proof fn suicide_is_rejected(s: Game, m: Move)
    requires
        !is_pass_move(m),
        is_suicide(s, m),
    ensures
        !legal(s, m),
        play_spec(s, m) == s,
{
}

/// A move that would bring back the cells as they stood before the last move is
/// rejected, and playing it leaves the board as it was.
pub proof fn repeated_position_is_rejected(s: Game, m: Move)
    requires
        !is_pass_move(m),
        repeats_position(s, m),
    ensures
        !legal(s, m),
        play_spec(s, m) == s,
{
}

proof fn lemma_replay_keeps_start(s0: Game, ms: Seq<Move>)
    requires
        height(s0.grid) >= 1,
    ensures
        replay(s0, ms).history == s0.history + ms,
        height(replay(s0, ms).grid) == height(s0.grid),
        width(replay(s0, ms).grid) == width(s0.grid),
        replay(s0, ms).start == s0.start,
        replay(s0, ms).komi == s0.komi,
    decreases ms.len(),
{
    if ms.len() > 0 {
        lemma_replay_keeps_start(s0, ms.drop_last());
        crate::game::lemma_step_dims(replay(s0, ms.drop_last()), ms.last());
        assert(s0.history + ms =~= (s0.history + ms.drop_last()).push(ms.last()));
    } else {
        assert(s0.history + ms =~= s0.history);
    }
}

/// Undo after any sequence of moves from a new game gives back the state before
/// the last move, captures and whose turn it is included.
pub proof fn undo_after_moves(
    rows: int,
    cols: int,
    start: Player,
    komi: int,
    ms: Seq<Move>,
    m: Move,
)
    requires
        rows >= 1,
        cols >= 1,
    ensures
        undo_spec(replay(new_game(rows, cols, start, komi), ms.push(m))) == replay(
            new_game(rows, cols, start, komi),
            ms,
        ),
{
    let s0 = new_game(rows, cols, start, komi);
    let t = ms.push(m);
    assert(t.drop_last() =~= ms);
    assert(height(s0.grid) == rows);
    assert(s0.grid[0].len() == cols);
    lemma_replay_keeps_start(s0, t);
    assert(seq![] + t =~= t);
    assert(initial(replay(s0, t)) == s0);
}

/// Two passes in a row are always legal and end the game.
pub proof fn two_passes_end_the_game(s: Game, first: Player, second: Player)
    ensures
        legal(s, Move { player: first, loc: pass_loc() }),
        legal(
            step(s, Move { player: first, loc: pass_loc() }),
            Move { player: second, loc: pass_loc() },
        ),
        game_over(
            step(
                step(s, Move { player: first, loc: pass_loc() }),
                Move { player: second, loc: pass_loc() },
            ),
        ),
{
    let a = Move { player: first, loc: pass_loc() };
    let b = Move { player: second, loc: pass_loc() };
    let t = step(step(s, a), b);
    assert(t.history == s.history.push(a).push(b));
    assert(t.history[t.history.len() - 2] == a);
}

/// Filling the last liberty of an opposing group removes exactly that group's
/// stones and credits its size to the mover, when no other opposing group
/// touches the point played.
pub proof fn filling_last_liberty_captures_the_group(s: Game, m: Move, a: Loc)
    requires
        wf_game(s),
        !is_pass_move(m),
        interior(s.grid, m.loc),
        at(s.grid, m.loc) == Color::Empty,
        interior(s.grid, a),
        at(s.grid, a) == stone_of(spec_opponent(m.player)),
        liberties(s.grid, a) == set![m.loc],
        forall|n: Loc|
            #![trigger adjacent(m.loc, n), at(s.grid, n)]
            adjacent(m.loc, n) && in_bounds(s.grid, n) && at(s.grid, n) == at(s.grid, a) ==> group(
                s.grid,
                a,
            ).contains(n),
    ensures
        step(s, m).grid == clear(set_cell(s.grid, m.loc, stone_of(m.player)), group(s.grid, a)),
        m.player == Player::Black ==> step(s, m).black_captures == s.black_captures + group(
            s.grid,
            a,
        ).len() && step(s, m).white_captures == s.white_captures,
        m.player == Player::White ==> step(s, m).white_captures == s.white_captures + group(
            s.grid,
            a,
        ).len() && step(s, m).black_captures == s.black_captures,
{
    let g = s.grid;
    let c = at(g, a);
    let loc = m.loc;
    let gr = group(g, a);
    let pg = set_cell(g, loc, stone_of(m.player));
    let logged = Game { history: s.history.push(m), current: spec_opponent(s.current), ..s };
    let placed = Game { grid: pg, ..logged };
    lemma_group_interior(g, a);
    lemma_group_finite(g, a);
    // The stone written at `loc` is not of the group's color, so the group is unchanged.
    assert(pg[0].len() == g[0].len());
    assert forall|l: Loc| #![trigger at(g, l), at(pg, l)] in_bounds(g, l) implies (at(g, l) == at(g, a)
        <==> at(pg, l) == at(pg, a)) by {
        if l.row == loc.row && l.col == loc.col {
            assert(l == loc);
        }
    }
    assert(a != loc);
    lemma_group_same_cells(g, pg, a);
    // Its one liberty is gone.
    assert(liberties(pg, a) =~= Set::<Loc>::empty()) by {
        assert forall|l: Loc| !liberties(pg, a).contains(l) by {
            if liberties(pg, a).contains(l) {
                let x = choose|x: Loc| #[trigger] group(pg, a).contains(x) && adjacent(x, l);
                if l.row == loc.row && l.col == loc.col {
                    assert(l == loc);
                } else {
                    assert(at(g, l) == at(pg, l));
                    assert(group(g, a).contains(x));
                    assert(liberties(g, a).contains(l));
                }
            }
        }
    }
    let removed = remove_spec(placed, a);
    assert forall|n: Loc| adjacent(loc, n) implies #[trigger] capture_spec(placed, n, m.player)
        == (if gr.contains(n) {
        removed
    } else {
        placed
    }) by {
        lemma_adjacent_cases(loc, n);
        if gr.contains(n) {
            lemma_same_group(pg, a, n);
            assert(liberties(pg, n) =~= liberties(pg, a));
            assert(n != loc);
        } else {
            if n.row == loc.row && n.col == loc.col {
                assert(n == loc);
            }
            assert(in_bounds(g, n));
            if at(pg, n) == c {
                assert(at(g, n) == at(pg, n));
            }
        }
    }
    let cleared = clear(pg, gr);
    assert forall|n: Loc| adjacent(loc, n) implies #[trigger] capture_spec(removed, n, m.player)
        == removed by {
        lemma_adjacent_cases(loc, n);
        assert(n == crate::grid::cell(n.row as int, n.col as int));
        if !gr.contains(n) {
            if n.row == loc.row && n.col == loc.col {
                assert(n == loc);
            }
            assert(in_bounds(g, n));
            if at(cleared, n) == c {
                assert(at(g, n) == at(pg, n));
            }
        }
    }
    // `loc` is a liberty of the group, so one of its four neighbors is in the group.
    assert(liberties(g, a).contains(loc));
    let x = choose|x: Loc| #[trigger] group(g, a).contains(x) && adjacent(x, loc);
    lemma_adjacent_cases(loc, x);
    assert(adjacent(loc, up_of(loc)) && adjacent(loc, down_of(loc)) && adjacent(loc, left_of(loc))
        && adjacent(loc, right_of(loc)));
}

/// Ko: after a move at `p` that captured exactly the one stone at `q` and left
/// its own single stone with `q` as its only liberty, where no other stone of the
/// capturing color touches `q`, the opponent's immediate recapture at `q` would
/// bring back the position from before the capture, and is rejected.
pub proof fn ko_recapture_is_rejected(
    rows: int,
    cols: int,
    start: Player,
    komi: int,
    ms: Seq<Move>,
    m1: Move,
    m2: Move,
)
    requires
        rows >= 1,
        cols >= 1,
        wf_game(replay(new_game(rows, cols, start, komi), ms)),
        !is_pass_move(m1),
        !is_pass_move(m2),
        m1.player == spec_opponent(m2.player),
        interior(replay(new_game(rows, cols, start, komi), ms).grid, m1.loc),
        interior(replay(new_game(rows, cols, start, komi), ms).grid, m2.loc),
        at(replay(new_game(rows, cols, start, komi), ms).grid, m1.loc) == Color::Empty,
        at(replay(new_game(rows, cols, start, komi), ms).grid, m2.loc) == stone_of(m2.player),
        step(replay(new_game(rows, cols, start, komi), ms), m1).grid == clear(
            set_cell(
                replay(new_game(rows, cols, start, komi), ms).grid,
                m1.loc,
                stone_of(m1.player),
            ),
            set![m2.loc],
        ),
        group(step(replay(new_game(rows, cols, start, komi), ms), m1).grid, m1.loc) == set![m1.loc],
        liberties(step(replay(new_game(rows, cols, start, komi), ms), m1).grid, m1.loc) == set![
            m2.loc,
        ],
        forall|n: Loc|
            #![trigger adjacent(m2.loc, n)]
            adjacent(m2.loc, n) && in_bounds(
                step(replay(new_game(rows, cols, start, komi), ms), m1).grid,
                n,
            ) && at(step(replay(new_game(rows, cols, start, komi), ms), m1).grid, n) == stone_of(
                m1.player,
            ) ==> n == m1.loc,
    ensures
        repeats_position(step(replay(new_game(rows, cols, start, komi), ms), m1), m2),
        !legal(step(replay(new_game(rows, cols, start, komi), ms), m1), m2),
{
    let s0 = new_game(rows, cols, start, komi);
    let s = replay(s0, ms);
    let s1 = step(s, m1);
    let g = s.grid;
    let p = m1.loc;
    let q = m2.loc;
    // The state before the capture is what undo gives back.
    undo_after_moves(rows, cols, start, komi, ms, m1);
    assert(ms.push(m1).drop_last() =~= ms);
    assert(ms.push(m1).last() == m1);
    assert(replay(s0, ms.push(m1)) == s1);
    assert(previous_grid(s1) == g);
    // The recapture fills the last liberty of the single stone at `p`.
    lemma_step_wf(s, m1);
    let g1 = s1.grid;
    assert(height(g1) == height(g) && width(g1) == width(g)) by {
        crate::game::lemma_step_dims(s, m1);
    }
    assert(at(g1, q) == Color::Empty) by {
        assert(cell(q.row as int, q.col as int) == q);
    }
    assert(at(g1, p) == stone_of(m1.player)) by {
        assert(cell(p.row as int, p.col as int) != q);
    }
    lemma_connected_refl(g1, p);
    filling_last_liberty_captures_the_group(s1, m2, p);
    // Putting back the stone at `q` and emptying `p` gives the earlier cells.
    let g2 = step(s1, m2).grid;
    assert(g2 == clear(set_cell(g1, q, stone_of(m2.player)), set![p]));
    assert forall|r: int| 0 <= r < g2.len() implies #[trigger] g2[r] =~= g[r] by {
        assert forall|c: int| 0 <= c < g2[r].len() implies g2[r][c] == g[r][c] by {
            let l = cell(r, c);
            if r == p.row && c == p.col {
                assert(l == p);
            } else if r == q.row && c == q.col {
                assert(l == q);
            } else {
                assert(l != p && l != q);
            }
        }
    }
    assert(g2 =~= g);
}

} // verus!
