//! The board: the one mutable aggregate of the engine. Each operation is proved
//! to do to the board's view what the rules in `game` say.
use crate::fill::{cells, count_group_liberties, group_cells};
use crate::game::{
    capture_spec, clear, game_over, initial, legal, lemma_init_wf, lemma_place_wf,
    lemma_remove_wf, lemma_stones_finite, new_game, play_spec, remove_spec, replay, set_cell, step,
    undo_spec, wf_game, Game,
};
use crate::grid::{
    at, cell, group, height, in_bounds, interior, lemma_group_interior, lemma_select,
    lemma_select_len, liberties, select, wf_grid, width,
};
use crate::loc::{is_pass_move, Loc, Move};
use crate::stone::{Color, Player};
use vstd::prelude::*;

verus! {

pub struct Board {
    fields: Vec<Vec<Color>>,
    game_history: Vec<Move>,
    current_player: Player,
    starting_player: Player,
    /// Komi in half points.
    komi: i64,
    black_captures: usize,
    white_captures: usize,
}

impl View for Board {
    type V = Game;

    closed spec fn view(&self) -> Game {
        Game {
            grid: cells(&self.fields),
            history: self.game_history@,
            current: self.current_player,
            start: self.starting_player,
            komi: self.komi as int,
            black_captures: self.black_captures as nat,
            white_captures: self.white_captures as nat,
        }
    }
}

impl Board {
    pub open spec fn wf(&self) -> bool {
        &&& wf_game(self@)
        &&& i64::MIN <= self@.komi <= i64::MAX
    }

    proof fn lemma_view_facts(&self)
        requires
            rectangular(self@.grid),
        ensures
            self.fields@.len() == height(self@.grid),
            forall|r: int| 0 <= r < self.fields@.len() ==> #[trigger] self.fields@[r]@.len() == width(self@.grid),
            self@.komi == self.komi as int,
            self@.black_captures == self.black_captures as nat,
            self@.white_captures == self.white_captures as nat,
    {
        assert forall|r: int| 0 <= r < self.fields@.len() implies #[trigger] self.fields@[r]@.len() == width(self@.grid) by {
            assert(cells(&self.fields)[r] == self.fields@[r]@);
        }
    }

    /// A board of `rows` by `cols` cells whose outermost ring is sentinel and the
    /// rest empty, with no moves made; `komi` is in half points.
    pub fn new(rows: usize, cols: usize, starting_player: Player, komi: i64) -> (r: Board)
        requires
            rows >= 1,
            cols >= 1,
            rows * cols <= usize::MAX,
        ensures
            r.wf(),
            r@ == new_game(rows as int, cols as int, starting_player, komi as int),
    {
        let mut fields: Vec<Vec<Color>> = Vec::new();
        let mut i: usize = 0;
        while i < rows
            invariant
                i <= rows,
                rows >= 1,
                cols >= 1,
                fields@.len() == i,
                forall|r: int| 0 <= r < i ==> #[trigger] fields@[r]@ == new_game(rows as int, cols as int, starting_player, komi as int).grid[r],
            decreases rows - i,
        {
            let mut row: Vec<Color> = Vec::new();
            let mut j: usize = 0;
            while j < cols
                invariant
                    i < rows,
                    j <= cols,
                    row@.len() == j,
                    forall|c: int|
                        0 <= c < j ==> #[trigger] row@[c] == (if i == 0 || i == rows - 1 || c == 0 || c
                            == cols - 1 {
                            Color::Invalid
                        } else {
                            Color::Empty
                        }),
                decreases cols - j,
            {
                if i == 0 || i == rows - 1 || j == 0 || j == cols - 1 {
                    row.push(Color::Invalid);
                } else {
                    row.push(Color::Empty);
                }
                j = j + 1;
            }
            assert(row@ =~= new_game(rows as int, cols as int, starting_player, komi as int).grid[i as int]);
            fields.push(row);
            i = i + 1;
        }
        let board = Board {
            fields,
            game_history: Vec::new(),
            current_player: starting_player,
            starting_player,
            komi,
            black_captures: 0,
            white_captures: 0,
        };
        proof {
            lemma_init_wf(rows as int, cols as int, starting_player, komi as int);
            assert(board@.grid =~= new_game(rows as int, cols as int, starting_player, komi as int).grid);
            assert(board@.history =~= seq![]);
        }
        board
    }

    /// A fresh board with this board's size, starting player and komi.
    fn reset(&self) -> (r: Board)
        requires
            self.wf(),
        ensures
            r.wf(),
            r@ == new_game(height(self@.grid), width(self@.grid), self@.start, self@.komi),
    {
        let (rows, cols) = self.board_size();
        Board::new(rows, cols, self.starting_player, self.komi)
    }

    pub fn get_game_history(&self) -> (r: &Vec<Move>)
        ensures
            r@ == self@.history,
    {
        &self.game_history
    }

    pub fn get_current_player(&self) -> (r: Player)
        ensures
            r == self@.current,
    {
        self.current_player
    }

    /// Stones of White that Black has captured.
    pub fn black_captures(&self) -> (r: usize)
        ensures
            r == self@.black_captures,
    {
        self.black_captures
    }

    /// Stones of Black that White has captured.
    pub fn white_captures(&self) -> (r: usize)
        ensures
            r == self@.white_captures,
    {
        self.white_captures
    }

    /// Komi in half points.
    pub fn komi(&self) -> (r: i64)
        ensures
            r == self@.komi,
    {
        self.komi
    }

    pub fn get(&self, loc: Loc) -> (r: Color)
        requires
            self.wf(),
            in_bounds(self@.grid, loc),
        ensures
            r == at(self@.grid, loc),
    {
        proof {
            self.lemma_view_facts();
        }
        self.fields[loc.row][loc.col]
    }

    fn set(&mut self, loc: Loc, color: Color)
        requires
            rectangular(old(self)@.grid),
            in_bounds(old(self)@.grid, loc),
        ensures
            final(self)@ == (Game { grid: set_cell(old(self)@.grid, loc, color), ..old(self)@ }),
    {
        proof {
            self.lemma_view_facts();
        }
        self.fields[loc.row][loc.col] = color;
        proof {
            assert(cells(&self.fields) =~= set_cell(cells(&old(self).fields), loc, color));
        }
    }

    /// The number of rows and of columns, the sentinel ring included.
    pub fn board_size(&self) -> (r: (usize, usize))
        requires
            self.wf(),
        ensures
            r.0 == height(self@.grid),
            r.1 == width(self@.grid),
    {
        proof {
            self.lemma_view_facts();
        }
        (self.fields.len(), self.fields[0].len())
    }

    /// The group of the cell at `loc`, in row-major order.
    pub fn group_stones(&self, loc: Loc) -> (r: Vec<Loc>)
        requires
            self.wf(),
            interior(self@.grid, loc),
        ensures
            r@ == select(group(self@.grid, loc), height(self@.grid), width(self@.grid)),
    {
        group_cells(&self.fields, loc)
    }

    /// The number of distinct empty cells beside the group at `loc`.
    pub fn count_liberties(&self, loc: Loc) -> (r: usize)
        requires
            self.wf(),
            interior(self@.grid, loc),
        ensures
            liberties(self@.grid, loc).finite(),
            r == liberties(self@.grid, loc).len(),
    {
        count_group_liberties(&self.fields, loc)
    }

    /// Removes the group of the stone at `loc` and credits its size to the other
    /// player's captures. On an empty or sentinel cell, or off the board, nothing
    /// happens.
    pub fn remove_group(&mut self, loc: Loc)
        requires
            old(self).wf(),
        ensures
            final(self).wf(),
            final(self)@ == remove_spec(old(self)@, loc),
    {
        let ghost s0 = self@;
        proof {
            lemma_remove_wf(s0, loc);
            self.lemma_view_facts();
        }
        if !loc.is_on_board(self.board_size()) {
            return;
        }
        let color = self.get(loc);
        if color != Color::Black && color != Color::White {
            return;
        }
        let ghost gr = group(s0.grid, loc);
        let group = self.group_stones(loc);
        proof {
            lemma_group_interior(s0.grid, loc);
            lemma_select(gr, height(s0.grid), width(s0.grid));
            lemma_select_len(gr, height(s0.grid), width(s0.grid));
            lemma_stones_finite(s0.grid);
        }
        let stone_count = group.len();
        let _moves = self.game_history.len();
        if color == Color::White {
            self.black_captures = self.black_captures + stone_count;
        } else {
            self.white_captures = self.white_captures + stone_count;
        }
        let ghost s1 = self@;
        proof {
            assert(clear(s0.grid, group@.take(0).to_set()) =~~= s0.grid);
        }
        let mut i: usize = 0;
        while i < group.len()
            invariant
                i <= group@.len(),
                group@ == select(gr, height(s0.grid), width(s0.grid)),
                forall|b: Loc| #[trigger] gr.contains(b) ==> interior(s0.grid, b),
                forall|b: Loc| #[trigger] group@.contains(b) ==> gr.contains(b),
                wf_grid(s0.grid),
                rectangular(self@.grid),
                height(self@.grid) == height(s0.grid),
                width(self@.grid) == width(s0.grid),
                self@ == (Game { grid: clear(s0.grid, group@.take(i as int).to_set()), ..s1 }),
            decreases group@.len() - i,
        {
            let stone = group[i];
            assert(group@.contains(stone));
            proof {
                lemma_clear_insert(s0.grid, group@.take(i as int).to_set(), stone);
                assert(group@.take(i + 1) =~= group@.take(i as int).push(stone));
                group@.take(i as int).lemma_push_to_set_commute(stone);
                lemma_clear_shape(s0.grid, group@.take(i + 1).to_set());
            }
            self.set(stone, Color::Empty);
            i = i + 1;
        }
        proof {
            assert(group@.take(group@.len() as int) =~= group@);
            assert(group@.to_set() =~= gr);
        }
    }

    /// Captures the group at `n` when it holds the opponent of `mover` and has no
    /// liberty left.
    fn capture_if_dead(&mut self, n: Loc, mover: Player)
        requires
            old(self).wf(),
            in_bounds(old(self)@.grid, n),
        ensures
            final(self).wf(),
            final(self)@ == capture_spec(old(self)@, n, mover),
            height(final(self)@.grid) == height(old(self)@.grid),
            width(final(self)@.grid) == width(old(self)@.grid),
    {
        proof {
            lemma_remove_wf(self@, n);
        }
        let color = self.get(n);
        if color == mover.opponent().to_color() {
            if self.count_liberties(n) == 0 {
                self.remove_group(n);
            }
        }
    }

    /// Makes the move without asking whether it is legal: logs it, passes the
    /// turn, writes the stone and captures what it leaves without liberties.
    fn apply_move(&mut self, mv: &Move)
        requires
            old(self).wf(),
            is_pass_move(*mv) || interior(old(self)@.grid, mv.loc),
        ensures
            final(self).wf(),
            final(self)@ == step(old(self)@, *mv),
            height(final(self)@.grid) == height(old(self)@.grid),
            width(final(self)@.grid) == width(old(self)@.grid),
    {
        let ghost s0 = self@;
        self.game_history.push(*mv);
        self.current_player = self.current_player.opponent();
        if mv.is_pass() {
            proof {
                assert forall|i: int| 0 <= i < self@.history.len() implies is_pass_move(
                    #[trigger] self@.history[i],
                ) || interior(self@.grid, self@.history[i].loc) by {
                    if i < s0.history.len() {
                        assert(self@.history[i] == s0.history[i]);
                    }
                }
            }
            return;
        }
        proof {
            lemma_place_wf(s0, *mv);
        }
        self.set(mv.loc, mv.player.to_color());
        self.capture_if_dead(mv.loc.up(), mv.player);
        self.capture_if_dead(mv.loc.down(), mv.player);
        self.capture_if_dead(mv.loc.left(), mv.player);
        self.capture_if_dead(mv.loc.right(), mv.player);
    }

    /// A board equal to this one.
    fn copy(&self) -> (r: Board)
        requires
            self.wf(),
        ensures
            r@ == self@,
    {
        proof {
            self.lemma_view_facts();
        }
        let mut fields: Vec<Vec<Color>> = Vec::new();
        let mut i: usize = 0;
        while i < self.fields.len()
            invariant
                i <= self.fields@.len(),
                fields@.len() == i,
                forall|r: int| 0 <= r < i ==> #[trigger] fields@[r]@ == self.fields@[r]@,
            decreases self.fields@.len() - i,
        {
            let src = &self.fields[i];
            let mut row: Vec<Color> = Vec::new();
            let mut j: usize = 0;
            while j < src.len()
                invariant
                    j <= src@.len(),
                    row@ == src@.take(j as int),
                decreases src@.len() - j,
            {
                row.push(src[j]);
                proof {
                    assert(src@.take(j + 1) =~= src@.take(j as int).push(src@[j as int]));
                }
                j = j + 1;
            }
            proof {
                assert(src@.take(src@.len() as int) =~= src@);
            }
            fields.push(row);
            i = i + 1;
        }
        let mut history: Vec<Move> = Vec::new();
        let mut k: usize = 0;
        while k < self.game_history.len()
            invariant
                k <= self.game_history@.len(),
                history@ == self.game_history@.take(k as int),
            decreases self.game_history@.len() - k,
        {
            history.push(self.game_history[k]);
            proof {
                assert(self.game_history@.take(k + 1) =~= self.game_history@.take(k as int).push(
                    self.game_history@[k as int],
                ));
            }
            k = k + 1;
        }
        proof {
            assert(self.game_history@.take(self.game_history@.len() as int) =~= self.game_history@);
        }
        let r = Board {
            fields,
            game_history: history,
            current_player: self.current_player,
            starting_player: self.starting_player,
            komi: self.komi,
            black_captures: self.black_captures,
            white_captures: self.white_captures,
        };
        proof {
            assert(r@.grid =~= self@.grid);
        }
        r
    }

    /// The board that the first `n` moves of this board's log lead to.
    fn replay_prefix(&self, n: usize) -> (r: Board)
        requires
            self.wf(),
            n <= self@.history.len(),
        ensures
            r.wf(),
            r@ == replay(initial(self@), self@.history.take(n as int)),
    {
        let mut b = self.reset();
        let ghost s0 = b@;
        let mut i: usize = 0;
        while i < n
            invariant
                self.wf(),
                n <= self@.history.len(),
                i <= n,
                s0 == initial(self@),
                b.wf(),
                b@ == replay(s0, self@.history.take(i as int)),
                height(b@.grid) == height(self@.grid),
                width(b@.grid) == width(self@.grid),
            decreases n - i,
        {
            let mv = self.game_history[i];
            assert(self@.history[i as int] == mv);
            proof {
                let t = self@.history.take(i + 1);
                assert(t.drop_last() =~= self@.history.take(i as int));
                assert(t.last() == mv);
            }
            b.apply_move(&mv);
            i = i + 1;
        }
        b
    }

    /// The board as it stood before the last move, rebuilt by replaying every
    /// earlier move from the start.
    fn previous_board(&self) -> (r: Board)
        requires
            self.wf(),
        ensures
            r.wf(),
            r@ == undo_spec(self@),
    {
        if self.game_history.len() == 0 {
            return self.copy();
        }
        let n = self.game_history.len() - 1;
        let r = self.replay_prefix(n);
        proof {
            assert(self@.history.take(n as int) =~= self@.history.drop_last());
        }
        r
    }

    /// Takes back the last move: replays every earlier move on a fresh board. With
    /// no move made the board is returned as it is.
    pub fn undo(self) -> (r: Board)
        requires
            self.wf(),
        ensures
            r.wf(),
            r@ == undo_spec(self@),
    {
        if self.game_history.len() == 0 {
            return self;
        }
        self.previous_board()
    }

    /// Whether the two boards hold the same cells.
    fn board_position_is_reapated(&self, board: &Board) -> (r: bool)
        requires
            self.wf(),
            board.wf(),
        ensures
            r == (self@.grid == board@.grid),
    {
        proof {
            self.lemma_view_facts();
            board.lemma_view_facts();
        }
        let (rows, cols) = self.board_size();
        let (other_rows, other_cols) = board.board_size();
        if rows != other_rows || cols != other_cols {
            return false;
        }
        let mut i: usize = 0;
        while i < rows
            invariant
                self.wf(),
                board.wf(),
                rows == height(self@.grid),
                rows == height(board@.grid),
                cols == width(self@.grid),
                cols == width(board@.grid),
                i <= rows,
                forall|r: int| 0 <= r < i ==> #[trigger] self@.grid[r] == board@.grid[r],
            decreases rows - i,
        {
            proof {
                self.lemma_view_facts();
                board.lemma_view_facts();
            }
            let mut j: usize = 0;
            while j < cols
                invariant
                    self.wf(),
                    board.wf(),
                    rows == height(self@.grid),
                    rows == height(board@.grid),
                    cols == width(self@.grid),
                    cols == width(board@.grid),
                    i < rows,
                    j <= cols,
                    forall|c: int| 0 <= c < j ==> #[trigger] self@.grid[i as int][c] == board@.grid[i as int][c],
                decreases cols - j,
            {
                let l = Loc { row: i, col: j };
                if self.get(l) != board.get(l) {
                    return false;
                }
                j = j + 1;
            }
            assert(self@.grid[i as int] =~= board@.grid[i as int]);
            i = i + 1;
        }
        assert(self@.grid =~= board@.grid);
        true
    }

    /// Whether `mv` may be played now. A pass always may. A stone must go to an
    /// empty cell inside the ring, must have a liberty once the captures it makes
    /// are done, and must not bring back the cells as they stood before the last
    /// move.
    pub fn move_is_valid(&self, mv: &Move) -> (r: bool)
        requires
            self.wf(),
        ensures
            r == legal(self@, *mv),
    {
        if mv.is_pass() {
            return true;
        }
        if !mv.loc.is_on_board(self.board_size()) {
            return false;
        }
        if self.get(mv.loc) != Color::Empty {
            return false;
        }
        let mut potential_board = self.copy();
        potential_board.apply_move(mv);
        let move_is_suicidal = potential_board.count_liberties(mv.loc) == 0;
        let board_from_2_moves_ago = self.previous_board();
        let board_is_repeated = board_from_2_moves_ago.board_position_is_reapated(&potential_board);
        !move_is_suicidal && !board_is_repeated
    }

    /// Plays `mv` when it is legal; an illegal move leaves the board unchanged.
    pub fn play(&mut self, mv: &Move)
        requires
            old(self).wf(),
        ensures
            final(self).wf(),
            final(self)@ == play_spec(old(self)@, *mv),
    {
        if self.move_is_valid(mv) {
            self.apply_move(mv);
        }
    }

    /// Plays `mv` when it is legal; an illegal move leaves the board unchanged.
    pub fn play_if_move_is_valid(&mut self, mv: &Move)
        requires
            old(self).wf(),
        ensures
            final(self).wf(),
            final(self)@ == play_spec(old(self)@, *mv),
    {
        self.play(mv);
    }

    /// Whether the last two moves were passes, which ends the game.
    pub fn last_two_moves_are_pass(&self) -> (r: bool)
        ensures
            r == game_over(self@),
    {
        let n = self.game_history.len();
        if n > 1 {
            return self.game_history[n - 1].is_pass() && self.game_history[n - 2].is_pass();
        }
        false
    }
}

/// Every row has the length of the first.
pub open spec fn rectangular(g: Seq<Seq<Color>>) -> bool {
    forall|r: int| 0 <= r < g.len() ==> #[trigger] g[r].len() == width(g)
}

proof fn lemma_clear_shape(g: Seq<Seq<Color>>, s: Set<Loc>)
    requires
        wf_grid(g),
    ensures
        clear(g, s).len() == g.len(),
        forall|r: int| 0 <= r < g.len() ==> #[trigger] clear(g, s)[r].len() == g[r].len(),
        rectangular(clear(g, s)),
        height(clear(g, s)) == height(g),
        width(clear(g, s)) == width(g),
{
}

proof fn lemma_clear_insert(g: Seq<Seq<Color>>, s: Set<Loc>, x: Loc)
    requires
        wf_grid(g),
        in_bounds(g, x),
    ensures
        clear(g, s.insert(x)) == set_cell(clear(g, s), x, Color::Empty),
{
    let a = clear(g, s.insert(x));
    let b = set_cell(clear(g, s), x, Color::Empty);
    assert forall|r: int| 0 <= r < a.len() implies #[trigger] a[r] =~= b[r] by {
        assert forall|c: int| 0 <= c < a[r].len() implies a[r][c] == b[r][c] by {
            if r == x.row && c == x.col {
                assert(cell(r, c) == x);
            } else {
                assert(cell(r, c) != x);
            }
        }
    }
    assert(a =~= b);
}

} // verus!
