use vstd::prelude::*;

verus! {

/// A position: ten rows of nine cells, read as `board[y][x]`.
///
/// A cell holds 0 when it is empty, a positive value for a piece of the
/// engine's side and a negative value for a piece of its opponent. The
/// absolute value names the piece: 1 soldier, 2 advisor, 3 elephant,
/// 5 horse, 6 cannon, 10 chariot, 127 general. The score of a position is
/// the sum of its cells.
pub type Board = [[i8; 9]; 10];

/// The mathematical view of a board: a sequence of rows, each a sequence of cells.
pub type Grid = Seq<Seq<i8>>;

/// The view of a board.
pub open spec fn grid(b: Board) -> Grid {
    Seq::new(10, |y: int| b[y]@)
}

/// Ten rows of nine cells.
pub open spec fn shaped(g: Grid) -> bool {
    &&& g.len() == 10
    &&& forall|y: int| 0 <= y < 10 ==> (#[trigger] g[y]).len() == 9
}

pub open spec fn in_board(x: int, y: int) -> bool {
    0 <= x < 9 && 0 <= y < 10
}

pub open spec fn abs_val(v: int) -> int {
    if v < 0 {
        -v
    } else {
        v
    }
}

/// The values a cell may hold.
pub open spec fn is_piece_value(v: i8) -> bool {
    let a = abs_val(v as int);
    a == 0 || a == 1 || a == 2 || a == 3 || a == 5 || a == 6 || a == 10 || a == 127
}

/// A shaped grid whose every cell is empty or holds a piece.
pub open spec fn valid(g: Grid) -> bool {
    &&& shaped(g)
    &&& forall|x: int, y: int| in_board(x, y) ==> is_piece_value(#[trigger] g[y][x])
}

/// The cell is on the board and empty.
pub open spec fn space(g: Grid, x: int, y: int) -> bool {
    in_board(x, y) && g[y][x] == 0
}

/// The cell is on the board and either empty or held by the other side.
pub open spec fn movable(g: Grid, is_ai: bool, x: int, y: int) -> bool {
    in_board(x, y) && (g[y][x] == 0 || (g[y][x] > 0) != is_ai)
}

/// The cell lies in the palace of the given side (rows 7..=9 for the
/// engine, rows 0..=2 for its opponent, columns 3..=5).
pub open spec fn palace(is_ai: bool, x: int, y: int) -> bool {
    3 <= x <= 5 && (if is_ai {
        7 <= y <= 9
    } else {
        0 <= y <= 2
    })
}

pub open spec fn set_cell(g: Grid, x: int, y: int, v: i8) -> Grid {
    g.update(y, g[y].update(x, v))
}

/// The grid after the piece on `(sx, sy)` moves to `(tx, ty)`.
pub open spec fn applied(g: Grid, sx: int, sy: int, tx: int, ty: int) -> Grid {
    set_cell(set_cell(g, tx, ty, g[sy][sx]), sx, sy, 0)
}

/// The grid after a move from `(sx, sy)` to `(tx, ty)` that removed `removed` is taken back.
pub open spec fn reverted(g: Grid, sx: int, sy: int, tx: int, ty: int, removed: i8) -> Grid {
    set_cell(set_cell(g, sx, sy, g[ty][tx]), tx, ty, removed)
}

/// The sum of the first `n` cells of column `x`.
pub open spec fn column_sum(g: Grid, x: int, n: int) -> int
    decreases n,
{
    if n <= 0 {
        0
    } else {
        column_sum(g, x, n - 1) + g[n - 1][x]
    }
}

/// The sum of the first `m` columns.
pub open spec fn score_upto(g: Grid, m: int) -> int
    decreases m,
{
    if m <= 0 {
        0
    } else {
        score_upto(g, m - 1) + column_sum(g, m - 1, 10)
    }
}

/// The score of a position: the sum of all its cells.
pub open spec fn score(g: Grid) -> int {
    score_upto(g, 9)
}

pub proof fn lemma_grid_shaped(b: Board)
    ensures
        shaped(grid(b)),
        forall|x: int, y: int| in_board(x, y) ==> #[trigger] grid(b)[y][x] == b[y][x],
{
}

proof fn lemma_column_sum_bound(g: Grid, x: int, n: int)
    requires
        shaped(g),
        0 <= x < 9,
        0 <= n <= 10,
    ensures
        -128 * n <= column_sum(g, x, n) <= 127 * n,
    decreases n,
{
    if n > 0 {
        lemma_column_sum_bound(g, x, n - 1);
    }
}

/// Every cell lies in -128..=127, so a score lies in -11520..=11430.
pub proof fn lemma_score_bound(g: Grid, m: int)
    requires
        shaped(g),
        0 <= m <= 9,
    ensures
        -1280 * m <= score_upto(g, m) <= 1270 * m,
    decreases m,
{
    if m > 0 {
        lemma_score_bound(g, m - 1);
        lemma_column_sum_bound(g, m - 1, 10);
    }
}

proof fn lemma_column_sum_set(g: Grid, x: int, y: int, v: i8, c: int, n: int)
    requires
        shaped(g),
        in_board(x, y),
        0 <= c < 9,
        0 <= n <= 10,
    ensures
        column_sum(set_cell(g, x, y, v), c, n) == column_sum(g, c, n) + (if c == x && y < n {
            v - g[y][x]
        } else {
            0
        }),
    decreases n,
{
    if n > 0 {
        lemma_column_sum_set(g, x, y, v, c, n - 1);
    }
}

proof fn lemma_score_upto_set(g: Grid, x: int, y: int, v: i8, m: int)
    requires
        shaped(g),
        in_board(x, y),
        0 <= m <= 9,
    ensures
        score_upto(set_cell(g, x, y, v), m) == score_upto(g, m) + (if x < m {
            v - g[y][x]
        } else {
            0
        }),
    decreases m,
{
    if m > 0 {
        lemma_score_upto_set(g, x, y, v, m - 1);
        lemma_column_sum_set(g, x, y, v, m - 1, 10);
    }
}

/// Writing `v` into one cell changes the score by `v` minus what stood there.
pub proof fn lemma_score_set(g: Grid, x: int, y: int, v: i8)
    requires
        shaped(g),
        in_board(x, y),
    ensures
        shaped(set_cell(g, x, y, v)),
        score(set_cell(g, x, y, v)) == score(g) + v - g[y][x],
{
    lemma_score_upto_set(g, x, y, v, 9);
}

/// Law: a move lowers the score by exactly the value it removes.
pub proof fn lemma_score_after_move(g: Grid, sx: int, sy: int, tx: int, ty: int)
    requires
        shaped(g),
        in_board(sx, sy),
        in_board(tx, ty),
    ensures
        shaped(applied(g, sx, sy, tx, ty)),
        score(applied(g, sx, sy, tx, ty)) == score(g) - g[ty][tx],
{
    let g1 = set_cell(g, tx, ty, g[sy][sx]);
    lemma_score_set(g, tx, ty, g[sy][sx]);
    lemma_score_set(g1, sx, sy, 0);
}

/// Law: a move keeps a valid position valid.
pub proof fn lemma_move_keeps_valid(g: Grid, sx: int, sy: int, tx: int, ty: int)
    requires
        valid(g),
        in_board(sx, sy),
        in_board(tx, ty),
    ensures
        valid(applied(g, sx, sy, tx, ty)),
{
    let h = applied(g, sx, sy, tx, ty);
    assert forall|x: int, y: int| in_board(x, y) implies is_piece_value(#[trigger] h[y][x]) by {
        assert(is_piece_value(g[y][x]));
        assert(is_piece_value(g[sy][sx]));
    }
}

/// Law: taking back a move restores the position it was made on.
pub proof fn lemma_revert_after_move(g: Grid, sx: int, sy: int, tx: int, ty: int)
    requires
        shaped(g),
        in_board(sx, sy),
        in_board(tx, ty),
    ensures
        reverted(applied(g, sx, sy, tx, ty), sx, sy, tx, ty, g[ty][tx]) == g,
{
    let h = reverted(applied(g, sx, sy, tx, ty), sx, sy, tx, ty, g[ty][tx]);
    assert forall|y: int| 0 <= y < 10 implies #[trigger] h[y] =~= g[y] by {}
    assert(h =~= g);
}

/// Law: the palace of either side lies on the board.
pub proof fn lemma_palace_in_board(is_ai: bool, x: int, y: int)
    requires
        palace(is_ai, x, y),
    ensures
        in_board(x, y),
{
}

/// Copies `src` into `tar`, cell by cell.
pub fn copy_board(tar: &mut Board, src: Board)
    ensures
        *final(tar) == src,
{
    for i in 0..9
        invariant
            forall|x: int, y: int| 0 <= x < i && 0 <= y < 10 ==> tar[y][x] == src[y][x],
    {
        for j in 0..10
            invariant
                0 <= i < 9,
                forall|x: int, y: int|
                    (0 <= x < i && 0 <= y < 10) || (x == i && 0 <= y < j) ==> tar[y][x]
                        == src[y][x],
        {
            tar[j][i] = src[j][i];
        }
    }
    assert forall|y: int| 0 <= y < 10 implies #[trigger] tar[y] =~= src[y] by {}
    assert(*tar =~= src);
}

/// The score of `board`: the sum of its cells.
pub fn get_score(board: Board) -> (r: i16)
    ensures
        r == score(grid(board)),
{
    let ghost g = grid(board);
    proof {
        lemma_grid_shaped(board);
    }
    let mut r: i16 = 0;
    for i in 0..9
        invariant
            g == grid(board),
            shaped(g),
            r == score_upto(g, i as int),
    {
        proof {
            lemma_score_bound(g, i as int);
        }
        for j in 0..10
            invariant
                g == grid(board),
                shaped(g),
                0 <= i < 9,
                -1280 * i <= score_upto(g, i as int) <= 1270 * i,
                r == score_upto(g, i as int) + column_sum(g, i as int, j as int),
        {
            proof {
                lemma_column_sum_bound(g, i as int, j as int);
            }
            r += board[j][i] as i16;
        }
    }
    r
}

/// The absolute value of a cell.
pub fn abs(value: i8) -> (r: i8)
    requires
        value != i8::MIN,
    ensures
        r == abs_val(value as int),
{
    if value < 0 {
        return -value;
    }
    value
}

/// Whether `(x, y)` lies on the board.
pub fn is_in_board(x: u8, y: u8) -> (r: bool)
    ensures
        r == in_board(x as int, y as int),
{
    x < 9 && y < 10
}

/// Whether `(x, y)` lies on the board and is empty.
pub fn is_space(board: Board, x: u8, y: u8) -> (r: bool)
    ensures
        r == space(grid(board), x as int, y as int),
{
    if !is_in_board(x, y) {
        return false;
    }
    board[y as usize][x as usize] == 0
}

/// Whether the side `is_ai` may move a piece onto `(x, y)`: the cell is on
/// the board and empty or held by the other side.
pub fn can_move(board: Board, is_ai: bool, x: u8, y: u8) -> (r: bool)
    ensures
        r == movable(grid(board), is_ai, x as int, y as int),
{
    if !is_in_board(x, y) {
        return false;
    }
    board[y as usize][x as usize] == 0 || (board[y as usize][x as usize] > 0) != is_ai
}

/// Whether `(x, y)` lies in the palace of the side `is_ai`.
pub fn is_in_nine_palaces(is_ai: bool, x: u8, y: u8) -> (r: bool)
    ensures
        r == palace(is_ai, x as int, y as int),
{
    x > 2 && x < 6 && (if is_ai {
        y > 6 && y < 10
    } else {
        y < 3
    })
}

} // verus!
