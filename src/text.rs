//! Text at the edge of the engine: reading a "row,col" coordinate, drawing the
//! board, and writing a result.
use crate::board::Board;
use crate::loc::Loc;
use crate::scoring::GameResult;
use crate::stone::{color_symbol, Color, Player};
use vstd::prelude::*;

verus! {

/// The characters that `char::is_whitespace` accepts: Unicode's White_Space.
pub open spec fn is_ws(c: char) -> bool {
    let u = c as u32;
    (0x9 <= u <= 0xD) || u == 0x20 || u == 0x85 || u == 0xA0 || u == 0x1680 || (0x2000 <= u
        <= 0x200A) || u == 0x2028 || u == 0x2029 || u == 0x202F || u == 0x205F || u == 0x3000
}

pub open spec fn trim_start(s: Seq<char>) -> Seq<char>
    decreases s.len(),
{
    if s.len() > 0 && is_ws(s[0]) {
        trim_start(s.subrange(1, s.len() as int))
    } else {
        s
    }
}

pub open spec fn trim_end(s: Seq<char>) -> Seq<char>
    decreases s.len(),
{
    if s.len() > 0 && is_ws(s.last()) {
        trim_end(s.drop_last())
    } else {
        s
    }
}

/// `s` without leading and trailing whitespace.
pub open spec fn trim(s: Seq<char>) -> Seq<char> {
    trim_end(trim_start(s))
}

pub open spec fn is_digit(c: char) -> bool {
    '0' <= c <= '9'
}

pub open spec fn digit_value(c: char) -> nat {
    (c as u32 - '0' as u32) as nat
}

/// The number that a string of decimal digits denotes.
pub open spec fn digits_value(s: Seq<char>) -> nat
    decreases s.len(),
{
    if s.len() == 0 {
        0
    } else {
        digits_value(s.drop_last()) * 10 + digit_value(s.last())
    }
}

pub open spec fn all_digits(s: Seq<char>) -> bool {
    forall|i: int| 0 <= i < s.len() ==> is_digit(#[trigger] s[i])
}

/// An unsigned integer as `usize::from_str` reads it: an optional `+`, then one
/// or more decimal digits, of a value that fits in `usize`.
pub open spec fn parse_usize(s: Seq<char>) -> Option<nat> {
    let body = if s.len() > 0 && s[0] == '+' {
        s.subrange(1, s.len() as int)
    } else {
        s
    };
    if body.len() > 0 && all_digits(body) && digits_value(body) <= usize::MAX {
        Some(digits_value(body))
    } else {
        None
    }
}

/// `k` is the position of the one comma in `s`.
pub open spec fn sole_comma(s: Seq<char>, k: int) -> bool {
    0 <= k < s.len() && s[k] == ',' && forall|i: int| 0 <= i < s.len() && i != k ==> #[trigger] s[i] != ','
}

/// A coordinate written "row,col": exactly one comma, and on each side an
/// unsigned integer with whitespace around it allowed.
pub open spec fn parse_loc(s: Seq<char>) -> Option<Loc> {
    if exists|k: int| sole_comma(s, k) {
        let k = choose|k: int| sole_comma(s, k);
        let row = parse_usize(trim(s.subrange(0, k)));
        let col = parse_usize(trim(s.subrange(k + 1, s.len() as int)));
        if row is Some && col is Some {
            Some(Loc { row: row->0 as usize, col: col->0 as usize })
        } else {
            None
        }
    } else {
        None
    }
}

pub open spec fn opt_nat(o: Option<usize>) -> Option<nat> {
    match o {
        Some(v) => Some(v as nat),
        None => None,
    }
}

fn is_whitespace(c: char) -> (r: bool)
    ensures
        r == is_ws(c),
{
    let u = c as u32;
    (0x9 <= u && u <= 0xD) || u == 0x20 || u == 0x85 || u == 0xA0 || u == 0x1680 || (0x2000 <= u
        && u <= 0x200A) || u == 0x2028 || u == 0x2029 || u == 0x202F || u == 0x205F || u == 0x3000
}

proof fn lemma_trim_start_skip(s: Seq<char>, a: int, b: int)
    requires
        0 <= a < b <= s.len(),
        is_ws(s[a]),
    ensures
        trim_start(s.subrange(a, b)) == trim_start(s.subrange(a + 1, b)),
{
    assert(s.subrange(a, b).subrange(1, b - a) =~= s.subrange(a + 1, b));
}

proof fn lemma_trim_end_skip(s: Seq<char>, a: int, b: int)
    requires
        0 <= a < b <= s.len(),
        is_ws(s[b - 1]),
    ensures
        trim_end(s.subrange(a, b)) == trim_end(s.subrange(a, b - 1)),
{
    assert(s.subrange(a, b).drop_last() =~= s.subrange(a, b - 1));
}

/// The bounds of `cs[lo..hi]` with whitespace cut from both ends.
fn trim_bounds(cs: &Vec<char>, lo: usize, hi: usize) -> (r: (usize, usize))
    requires
        lo <= hi <= cs@.len(),
    ensures
        lo <= r.0 <= r.1 <= hi,
        cs@.subrange(r.0 as int, r.1 as int) == trim(cs@.subrange(lo as int, hi as int)),
{
    let ghost s = cs@;
    let mut a = lo;
    while a < hi && is_whitespace(cs[a])
        invariant
            lo <= a <= hi <= s.len(),
            s == cs@,
            trim_start(s.subrange(lo as int, hi as int)) == trim_start(s.subrange(a as int, hi as int)),
        decreases hi - a,
    {
        proof {
            lemma_trim_start_skip(s, a as int, hi as int);
        }
        a = a + 1;
    }
    assert(trim_start(s.subrange(a as int, hi as int)) == s.subrange(a as int, hi as int));
    let mut b = hi;
    while b > a && is_whitespace(cs[b - 1])
        invariant
            lo <= a <= b <= hi <= s.len(),
            s == cs@,
            trim_end(s.subrange(a as int, hi as int)) == trim_end(s.subrange(a as int, b as int)),
        decreases b - a,
    {
        proof {
            lemma_trim_end_skip(s, a as int, b as int);
        }
        b = b - 1;
    }
    assert(trim_end(s.subrange(a as int, b as int)) == s.subrange(a as int, b as int));
    (a, b)
}

proof fn lemma_digits_monotone(s: Seq<char>, k: int)
    requires
        0 <= k <= s.len(),
        forall|i: int| 0 <= i < s.len() ==> is_digit(#[trigger] s[i]),
    ensures
        digits_value(s.subrange(0, k)) <= digits_value(s),
    decreases s.len() - k,
{
    if k < s.len() {
        lemma_digits_monotone(s, k + 1);
        let t = s.subrange(0, k + 1);
        assert(t.drop_last() =~= s.subrange(0, k));
    } else {
        assert(s.subrange(0, k) =~= s);
    }
}

/// Reads `cs[lo..hi]` as `usize::from_str` does.
fn parse_number(cs: &Vec<char>, lo: usize, hi: usize) -> (r: Option<usize>)
    requires
        lo <= hi <= cs@.len(),
    ensures
        opt_nat(r) == parse_usize(cs@.subrange(lo as int, hi as int)),
{
    let ghost s = cs@.subrange(lo as int, hi as int);
    let mut start = lo;
    if lo < hi && cs[lo] == '+' {
        start = lo + 1;
    }
    let ghost body = cs@.subrange(start as int, hi as int);
    assert(body == if s.len() > 0 && s[0] == '+' {
        s.subrange(1, s.len() as int)
    } else {
        s
    });
    if start == hi {
        return None;
    }
    let mut value: usize = 0;
    let mut i = start;
    while i < hi
        invariant
            lo <= start < hi <= cs@.len(),
            start <= i <= hi,
            body == cs@.subrange(start as int, hi as int),
            s == cs@.subrange(lo as int, hi as int),
            body == if s.len() > 0 && s[0] == '+' {
                s.subrange(1, s.len() as int)
            } else {
                s
            },
            forall|k: int| 0 <= k < i - start ==> is_digit(#[trigger] body[k]),
            value == digits_value(body.subrange(0, i - start)),
        decreases hi - i,
    {
        let c = cs[i];
        assert(c == body[i - start]);
        if c < '0' || c > '9' {
            assert(!is_digit(body[i - start]));
            return None;
        }
        let d = (c as u32 - '0' as u32) as usize;
        proof {
            let t = body.subrange(0, i - start + 1);
            assert(t.drop_last() =~= body.subrange(0, i - start));
            assert(t.last() == c);
        }
        if value > (usize::MAX - d) / 10 {
            proof {
                assert(value * 10 + d > usize::MAX) by (nonlinear_arith)
                    requires
                        value > (usize::MAX - d) / 10,
                        d <= 9,
                ;
                let t = body.subrange(0, i - start + 1);
                assert(digits_value(t) == value * 10 + d);
                if all_digits(body) {
                    lemma_digits_monotone(body, i - start + 1);
                    assert(digits_value(body) > usize::MAX);
                }
            }
            return None;
        }
        assert(value * 10 + d <= usize::MAX) by (nonlinear_arith)
            requires
                value <= (usize::MAX - d) / 10,
                d <= 9,
        ;
        value = value * 10 + d;
        i = i + 1;
    }
    assert(body.subrange(0, hi - start) =~= body);
    Some(value)
}

impl Loc {
    /// Reads a coordinate written "row,col". Anything without exactly one comma, or
    /// with a side that is not an unsigned integer, gives `None`.
    pub fn from_string(s: &str) -> (r: Option<Self>)
        ensures
            r == parse_loc(s@),
    {
        let n = s.unicode_len();
        let mut cs: Vec<char> = Vec::new();
        let mut i: usize = 0;
        while i < n
            invariant
                n == s@.len(),
                i <= n,
                cs@ == s@.subrange(0, i as int),
            decreases n - i,
        {
            cs.push(s.get_char(i));
            proof {
                assert(s@.subrange(0, i + 1) =~= s@.subrange(0, i as int).push(s@[i as int]));
            }
            i = i + 1;
        }
        assert(cs@ =~= s@);
        let mut commas: usize = 0;
        let mut comma_at: usize = 0;
        let mut j: usize = 0;
        while j < n
            invariant
                n == cs@.len(),
                j <= n,
                commas <= j,
                commas == 0 ==> forall|k: int| 0 <= k < j ==> #[trigger] cs@[k] != ',',
                commas == 1 ==> comma_at < j && cs@[comma_at as int] == ',' && forall|k: int|
                    0 <= k < j && k != comma_at ==> #[trigger] cs@[k] != ',',
                commas >= 2 ==> exists|a: int, b: int|
                    0 <= a < b < j && #[trigger] cs@[a] == ',' && #[trigger] cs@[b] == ',',
            decreases n - j,
        {
            if cs[j] == ',' {
                if commas == 1 {
                    assert(cs@[comma_at as int] == ',' && cs@[j as int] == ',');
                }
                if commas == 0 {
                    comma_at = j;
                }
                if commas < 2 {
                    commas = commas + 1;
                }
            }
            j = j + 1;
        }
        if commas != 1 {
            proof {
                if commas >= 2 {
                    let (a, b) = choose|a: int, b: int|
                        0 <= a < b < n && #[trigger] cs@[a] == ',' && #[trigger] cs@[b] == ',';
                    assert forall|k: int| !sole_comma(s@, k) by {
                        if sole_comma(s@, k) {
                            assert(a == k && b == k);
                        }
                    }
                }
            }
            return None;
        }
        assert(sole_comma(s@, comma_at as int));
        proof {
            let k = choose|k: int| sole_comma(s@, k);
            assert(k == comma_at);
        }
        let (a, b) = trim_bounds(&cs, 0, comma_at);
        let row = parse_number(&cs, a, b);
        let (c, d) = trim_bounds(&cs, comma_at + 1, n);
        let col = parse_number(&cs, c, d);
        match (row, col) {
            (Some(row), Some(col)) => Some(Loc { row, col }),
            _ => None,
        }
    }
}

/// The board drawn as text: each cell's symbol followed by a space, each row
/// followed by a newline.
pub open spec fn render(g: Seq<Seq<Color>>) -> Seq<char>
    decreases g.len(),
{
    if g.len() == 0 {
        seq![]
    } else {
        render(g.drop_last()) + render_row(g.last()) + seq!['\n']
    }
}

pub open spec fn render_row(row: Seq<Color>) -> Seq<char>
    decreases row.len(),
{
    if row.len() == 0 {
        seq![]
    } else {
        render_row(row.drop_last()) + color_symbol(row.last()) + seq![' ']
    }
}

pub open spec fn digit_char(d: nat) -> char {
    if d == 0 {
        '0'
    } else if d == 1 {
        '1'
    } else if d == 2 {
        '2'
    } else if d == 3 {
        '3'
    } else if d == 4 {
        '4'
    } else if d == 5 {
        '5'
    } else if d == 6 {
        '6'
    } else if d == 7 {
        '7'
    } else if d == 8 {
        '8'
    } else {
        '9'
    }
}

/// The decimal digits of `n`, without leading zeros.
pub open spec fn decimal(n: nat) -> Seq<char>
    decreases n,
{
    if n < 10 {
        seq![digit_char(n)]
    } else {
        decimal(n / 10) + seq![digit_char(n % 10)]
    }
}

/// A number of half points written as points: "3" for 6, "3.5" for 7.
pub open spec fn half_points_text(m: nat) -> Seq<char> {
    if m % 2 == 1 {
        decimal(m / 2) + seq!['.', '5']
    } else {
        decimal(m / 2)
    }
}

pub open spec fn result_text(r: GameResult) -> Seq<char> {
    match r {
        GameResult::Draw => "D R A W !"@,
        GameResult::Player(Player::Black, m) => "Black +"@ + half_points_text(m as nat),
        GameResult::Player(Player::White, m) => "White +"@ + half_points_text(m as nat),
    }
}

fn digit_str(d: u128) -> (r: &'static str)
    requires
        d < 10,
    ensures
        r@ == seq![digit_char(d as nat)],
{
    proof {
        reveal_strlit("0");
        reveal_strlit("1");
        reveal_strlit("2");
        reveal_strlit("3");
        reveal_strlit("4");
        reveal_strlit("5");
        reveal_strlit("6");
        reveal_strlit("7");
        reveal_strlit("8");
        reveal_strlit("9");
    }
    if d == 0 {
        "0"
    } else if d == 1 {
        "1"
    } else if d == 2 {
        "2"
    } else if d == 3 {
        "3"
    } else if d == 4 {
        "4"
    } else if d == 5 {
        "5"
    } else if d == 6 {
        "6"
    } else if d == 7 {
        "7"
    } else if d == 8 {
        "8"
    } else {
        assert(d == 9);
        "9"
    }
}

fn push_decimal(out: &mut String, n: u128)
    ensures
        final(out)@ == old(out)@ + decimal(n as nat),
    decreases n,
{
    if n >= 10 {
        push_decimal(out, n / 10);
    }
    out.append(digit_str(n % 10));
    proof {
        if n >= 10 {
            assert(decimal(n as nat) == decimal((n / 10) as nat) + seq![digit_char((n % 10) as nat)]);
        }
    }
}

impl GameResult {
    /// "D R A W !", or the winner and the margin in points, as in "Black +3.5".
    pub fn to_string(&self) -> (r: String)
        ensures
            r@ == result_text(*self),
    {
        let (mut out, margin) = match self {
            GameResult::Draw => {
                return String::from_str("D R A W !");
            },
            GameResult::Player(Player::Black, m) => (String::from_str("Black +"), *m),
            GameResult::Player(Player::White, m) => (String::from_str("White +"), *m),
        };
        push_decimal(&mut out, margin / 2);
        if margin % 2 == 1 {
            proof {
                reveal_strlit(".5");
            }
            out.append(".5");
        }
        out
    }
}

impl Board {
    /// The board drawn as text, row by row.
    pub fn to_string(&self) -> (r: String)
        requires
            self.wf(),
        ensures
            r@ == render(self@.grid),
    {
        let ghost g = self@.grid;
        let (rows, cols) = self.board_size();
        let mut board_string = String::new();
        proof {
            reveal_strlit(" ");
            reveal_strlit("\n");
            assert(g.take(0) =~= seq![]);
        }
        let mut i: usize = 0;
        while i < rows
            invariant
                self.wf(),
                g == self@.grid,
                rows == g.len(),
                cols == crate::grid::width(g),
                i <= rows,
                board_string@ == render(g.take(i as int)),
            decreases rows - i,
        {
            assert(g[i as int].len() == cols);
            assert(g[i as int].take(0) =~= seq![]);
            let mut j: usize = 0;
            while j < cols
                invariant
                    self.wf(),
                    g == self@.grid,
                    rows == g.len(),
                    cols == crate::grid::width(g),
                    i < rows,
                    j <= cols,
                    g[i as int].len() == cols,
                    board_string@ == render(g.take(i as int)) + render_row(g[i as int].take(j as int)),
                decreases cols - j,
            {
                let field = self.get(Loc { row: i, col: j });
                let symbol = field.to_string();
                board_string.append(symbol.as_str());
                board_string.append(" ");
                proof {
                    reveal_strlit(" ");
                    let t = g[i as int].take(j + 1);
                    assert(t.drop_last() =~= g[i as int].take(j as int));
                    assert(t.last() == field);
                    assert(board_string@ =~= render(g.take(i as int)) + render_row(t));
                }
                j = j + 1;
            }
            board_string.append("\n");
            proof {
                reveal_strlit("\n");
                let t = g.take(i + 1);
                assert(t.drop_last() =~= g.take(i as int));
                assert(g[i as int].take(cols as int) =~= g[i as int]);
                assert(board_string@ =~= render(t));
            }
            i = i + 1;
        }
        proof {
            assert(g.take(rows as int) =~= g);
        }
        board_string
    }
}

} // verus!
