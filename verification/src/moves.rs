use vstd::prelude::*;
use crate::action::Coord;
use crate::board::{
    abs, abs_val, can_move, grid, in_board, is_in_nine_palaces, is_space, lemma_grid_shaped,
    movable, palace, space, valid, is_piece_value, Board, Grid,
};

verus! {

// Squares are computed as plain integers: a step off the edge of the board
// gives a square that fails every on-board test, exactly as the wrapped
// `u8` coordinate it stands for would.

/// The squares of a list of coordinates, as integer pairs.
pub open spec fn as_pairs(v: Seq<Coord>) -> Seq<(int, int)> {
    v.map_values(|c: Coord| (c.x as int, c.y as int))
}

/// `(x, y)` when `c` holds, nothing otherwise.
pub open spec fn opt(c: bool, x: int, y: int) -> Seq<(int, int)> {
    if c {
        seq![(x, y)]
    } else {
        seq![]
    }
}

/// One of the four orthogonal unit steps.
pub open spec fn unit(dx: int, dy: int) -> bool {
    (dx == 1 && dy == 0) || (dx == -1 && dy == 0) || (dx == 0 && dy == 1) || (dx == 0 && dy == -1)
}

/// How many more steps in direction `(dx, dy)` stay within reach of the board.
pub open spec fn steps_left(x: int, y: int, dx: int, dy: int) -> int {
    if dx == 1 {
        10 - x
    } else if dx == -1 {
        x + 1
    } else if dy == 1 {
        11 - y
    } else {
        y + 1
    }
}

/// The piece on the square belongs to the side `is_ai`.
pub open spec fn own(g: Grid, is_ai: bool, x: int, y: int) -> bool {
    g[y][x] != 0 && (g[y][x] > 0) == is_ai
}

/// Soldier: one step forward; past the river also one step sideways.
pub open spec fn soldier_targets(g: Grid, is_ai: bool, x: int, y: int) -> Seq<(int, int)> {
    let fy = if is_ai {
        y - 1
    } else {
        y + 1
    };
    let crossed = if is_ai {
        y < 5
    } else {
        y > 4
    };
    opt(movable(g, is_ai, x, fy), x, fy) + if crossed {
        opt(movable(g, is_ai, x - 1, y), x - 1, y) + opt(movable(g, is_ai, x + 1, y), x + 1, y)
    } else {
        seq![]
    }
}

pub open spec fn palace_step(g: Grid, is_ai: bool, x: int, y: int) -> Seq<(int, int)> {
    opt(palace(is_ai, x, y) && movable(g, is_ai, x, y), x, y)
}

/// Advisor: one diagonal step inside the palace.
pub open spec fn advisor_targets(g: Grid, is_ai: bool, x: int, y: int) -> Seq<(int, int)> {
    palace_step(g, is_ai, x + 1, y + 1) + palace_step(g, is_ai, x - 1, y + 1) + palace_step(
        g,
        is_ai,
        x - 1,
        y - 1,
    ) + palace_step(g, is_ai, x + 1, y - 1)
}

/// A two-square diagonal step whose middle square (the eye) is empty.
pub open spec fn elephant_step(g: Grid, is_ai: bool, x: int, y: int, dx: int, dy: int) -> Seq<
    (int, int),
> {
    if space(g, x + dx, y + dy) {
        opt(movable(g, is_ai, x + 2 * dx, y + 2 * dy), x + 2 * dx, y + 2 * dy)
    } else {
        seq![]
    }
}

/// Elephant: two diagonal steps over an empty eye.
pub open spec fn elephant_targets(g: Grid, is_ai: bool, x: int, y: int) -> Seq<(int, int)> {
    (if is_ai || y < 4 {
        elephant_step(g, is_ai, x, y, 1, 1) + elephant_step(g, is_ai, x, y, -1, 1)
    } else {
        seq![]
    }) + (if y > 5 || !is_ai {
        elephant_step(g, is_ai, x, y, 1, -1) + elephant_step(g, is_ai, x, y, -1, -1)
    } else {
        seq![]
    })
}

/// The two horse moves over the empty leg `(x + dx, y + dy)`.
pub open spec fn horse_pair(g: Grid, is_ai: bool, x: int, y: int, dx: int, dy: int) -> Seq<
    (int, int),
> {
    if space(g, x + dx, y + dy) {
        if dx != 0 {
            opt(movable(g, is_ai, x + 2 * dx, y + 1), x + 2 * dx, y + 1) + opt(
                movable(g, is_ai, x + 2 * dx, y - 1),
                x + 2 * dx,
                y - 1,
            )
        } else {
            opt(movable(g, is_ai, x + 1, y + 2 * dy), x + 1, y + 2 * dy) + opt(
                movable(g, is_ai, x - 1, y + 2 * dy),
                x - 1,
                y + 2 * dy,
            )
        }
    } else {
        seq![]
    }
}

/// Horse: one orthogonal step over an empty leg, then one diagonal step outward.
pub open spec fn horse_targets(g: Grid, is_ai: bool, x: int, y: int) -> Seq<(int, int)> {
    horse_pair(g, is_ai, x, y, 1, 0) + horse_pair(g, is_ai, x, y, -1, 0) + horse_pair(
        g,
        is_ai,
        x,
        y,
        0,
        -1,
    ) + horse_pair(g, is_ai, x, y, 0, 1)
}

/// Chariot ray from `(x, y)` on: empty squares, then the first occupied
/// square if it holds an enemy.
pub open spec fn chariot_ray(g: Grid, is_ai: bool, x: int, y: int, dx: int, dy: int) -> Seq<
    (int, int),
>
    decreases steps_left(x, y, dx, dy),
{
    if !unit(dx, dy) || !movable(g, is_ai, x, y) {
        seq![]
    } else if space(g, x, y) {
        seq![(x, y)] + chariot_ray(g, is_ai, x + dx, y + dy, dx, dy)
    } else {
        seq![(x, y)]
    }
}

/// Cannon ray from `(x, y)` on: empty squares up to the first occupied square
/// (the screen), then the capture beyond it.
pub open spec fn cannon_ray(g: Grid, is_ai: bool, x: int, y: int, dx: int, dy: int) -> Seq<
    (int, int),
>
    decreases steps_left(x, y, dx, dy),
{
    if !unit(dx, dy) || !in_board(x, y) {
        seq![]
    } else if space(g, x, y) {
        seq![(x, y)] + cannon_ray(g, is_ai, x + dx, y + dy, dx, dy)
    } else {
        cannon_jump(g, is_ai, x + dx, y + dy, dx, dy)
    }
}

/// Past the screen: the first occupied square, if it holds an enemy.
pub open spec fn cannon_jump(g: Grid, is_ai: bool, x: int, y: int, dx: int, dy: int) -> Seq<
    (int, int),
>
    decreases steps_left(x, y, dx, dy),
{
    if !unit(dx, dy) || !in_board(x, y) {
        seq![]
    } else if space(g, x, y) {
        cannon_jump(g, is_ai, x + dx, y + dy, dx, dy)
    } else if movable(g, is_ai, x, y) {
        seq![(x, y)]
    } else {
        seq![]
    }
}

/// Generals facing each other: along the column from `(x, y)` on, the first
/// occupied square if it holds a general.
pub open spec fn face_ray(g: Grid, x: int, y: int, dy: int) -> Seq<(int, int)>
    decreases steps_left(x, y, 0, dy),
{
    if !unit(0, dy) || !in_board(x, y) {
        seq![]
    } else if space(g, x, y) {
        face_ray(g, x, y + dy, dy)
    } else if abs_val(g[y][x] as int) == 127 {
        seq![(x, y)]
    } else {
        seq![]
    }
}

pub open spec fn cannon_targets(g: Grid, is_ai: bool, x: int, y: int) -> Seq<(int, int)> {
    cannon_ray(g, is_ai, x + 1, y, 1, 0) + cannon_ray(g, is_ai, x - 1, y, -1, 0) + cannon_ray(
        g,
        is_ai,
        x,
        y + 1,
        0,
        1,
    ) + cannon_ray(g, is_ai, x, y - 1, 0, -1)
}

pub open spec fn chariot_targets(g: Grid, is_ai: bool, x: int, y: int) -> Seq<(int, int)> {
    chariot_ray(g, is_ai, x + 1, y, 1, 0) + chariot_ray(g, is_ai, x - 1, y, -1, 0) + chariot_ray(
        g,
        is_ai,
        x,
        y + 1,
        0,
        1,
    ) + chariot_ray(g, is_ai, x, y - 1, 0, -1)
}

/// General: one orthogonal step inside the palace, or the capture of the
/// other general straight ahead along an open column.
pub open spec fn general_targets(g: Grid, is_ai: bool, x: int, y: int) -> Seq<(int, int)> {
    let dy = if is_ai {
        -1
    } else {
        1
    };
    palace_step(g, is_ai, x + 1, y) + palace_step(g, is_ai, x - 1, y) + palace_step(
        g,
        is_ai,
        x,
        y + 1,
    ) + palace_step(g, is_ai, x, y - 1) + face_ray(g, x, y + dy, dy)
}

/// The squares the piece on `(x, y)` may move to, in the order they are tried.
#[verifier::opaque]
pub open spec fn targets(g: Grid, is_ai: bool, x: int, y: int) -> Seq<(int, int)> {
    let p = abs_val(g[y][x] as int);
    if p == 1 {
        soldier_targets(g, is_ai, x, y)
    } else if p == 2 {
        advisor_targets(g, is_ai, x, y)
    } else if p == 3 {
        elephant_targets(g, is_ai, x, y)
    } else if p == 5 {
        horse_targets(g, is_ai, x, y)
    } else if p == 6 {
        cannon_targets(g, is_ai, x, y)
    } else if p == 10 {
        chariot_targets(g, is_ai, x, y)
    } else if p == 127 {
        general_targets(g, is_ai, x, y)
    } else {
        seq![]
    }
}

/// The moves of the side `is_ai` from `(x, y)`: none unless it holds one of its pieces.
pub open spec fn piece_targets(g: Grid, is_ai: bool, x: int, y: int) -> Seq<(int, int)> {
    if in_board(x, y) && own(g, is_ai, x, y) {
        targets(g, is_ai, x, y)
    } else {
        seq![]
    }
}

fn space_at(board: &Board, x: i16, y: i16) -> (r: bool)
    requires
        -16 <= x <= 32,
        -16 <= y <= 32,
    ensures
        r == space(grid(*board), x as int, y as int),
{
    if x < 0 || y < 0 {
        return false;
    }
    is_space(*board, x as u8, y as u8)
}

fn movable_at(board: &Board, is_ai: bool, x: i16, y: i16) -> (r: bool)
    requires
        -16 <= x <= 32,
        -16 <= y <= 32,
    ensures
        r == movable(grid(*board), is_ai, x as int, y as int),
{
    if x < 0 || y < 0 {
        return false;
    }
    can_move(*board, is_ai, x as u8, y as u8)
}

fn palace_at(is_ai: bool, x: i16, y: i16) -> (r: bool)
    requires
        -16 <= x <= 32,
        -16 <= y <= 32,
    ensures
        r == palace(is_ai, x as int, y as int),
{
    if x < 0 || y < 0 {
        return false;
    }
    is_in_nine_palaces(is_ai, x as u8, y as u8)
}

proof fn lemma_as_pairs_push(v: Seq<Coord>, c: Coord)
    ensures
        as_pairs(v.push(c)) == as_pairs(v).push((c.x as int, c.y as int)),
{
    assert(as_pairs(v.push(c)) =~= as_pairs(v).push((c.x as int, c.y as int)));
}

/// Appends `(x, y)` when `cond` holds.
fn push_if(v: &mut Vec<Coord>, cond: bool, x: i16, y: i16)
    requires
        cond ==> in_board(x as int, y as int),
    ensures
        as_pairs(final(v)@) == as_pairs(old(v)@) + opt(cond, x as int, y as int),
{
    let ghost v0 = v@;
    if cond {
        v.push(Coord::new(x as u8, y as u8));
        proof {
            lemma_as_pairs_push(v0, Coord { x: x as u8, y: y as u8 });
        }
        assert(as_pairs(v@) =~= as_pairs(v0) + opt(cond, x as int, y as int));
    } else {
        assert(as_pairs(v@) =~= as_pairs(v0) + opt(cond, x as int, y as int));
    }
}

fn push_palace_step(board: &Board, is_ai: bool, v: &mut Vec<Coord>, x: i16, y: i16)
    requires
        -16 <= x <= 32,
        -16 <= y <= 32,
    ensures
        as_pairs(final(v)@) == as_pairs(old(v)@) + palace_step(grid(*board), is_ai, x as int, y as int),
{
    let c = palace_at(is_ai, x, y) && movable_at(board, is_ai, x, y);
    push_if(v, c, x, y);
}

fn soldier_moves(board: &Board, is_ai: bool, x: i16, y: i16, v: &mut Vec<Coord>)
    requires
        in_board(x as int, y as int),
    ensures
        as_pairs(final(v)@) == as_pairs(old(v)@) + soldier_targets(grid(*board), is_ai, x as int, y as int),
{
    let ghost g = grid(*board);
    let ghost v0 = as_pairs(v@);
    let fy: i16 = if is_ai {
        y - 1
    } else {
        y + 1
    };
    let c = movable_at(board, is_ai, x, fy);
    push_if(v, c, x, fy);
    if if is_ai {
        y < 5
    } else {
        y > 4
    } {
        let c = movable_at(board, is_ai, x - 1, y);
        push_if(v, c, x - 1, y);
        let c = movable_at(board, is_ai, x + 1, y);
        push_if(v, c, x + 1, y);
    }
    assert(as_pairs(v@) =~= v0 + soldier_targets(g, is_ai, x as int, y as int));
}

fn advisor_moves(board: &Board, is_ai: bool, x: i16, y: i16, v: &mut Vec<Coord>)
    requires
        in_board(x as int, y as int),
    ensures
        as_pairs(final(v)@) == as_pairs(old(v)@) + advisor_targets(grid(*board), is_ai, x as int, y as int),
{
    let ghost v0 = as_pairs(v@);
    push_palace_step(board, is_ai, v, x + 1, y + 1);
    push_palace_step(board, is_ai, v, x - 1, y + 1);
    push_palace_step(board, is_ai, v, x - 1, y - 1);
    push_palace_step(board, is_ai, v, x + 1, y - 1);
    assert(as_pairs(v@) =~= v0 + advisor_targets(grid(*board), is_ai, x as int, y as int));
}

fn elephant_step_moves(board: &Board, is_ai: bool, x: i16, y: i16, dx: i16, dy: i16, v: &mut Vec<Coord>)
    requires
        in_board(x as int, y as int),
        -1 <= dx <= 1,
        -1 <= dy <= 1,
    ensures
        as_pairs(final(v)@) == as_pairs(old(v)@) + elephant_step(
            grid(*board),
            is_ai,
            x as int,
            y as int,
            dx as int,
            dy as int,
        ),
{
    let ghost v0 = as_pairs(v@);
    if space_at(board, x + dx, y + dy) {
        let c = movable_at(board, is_ai, x + 2 * dx, y + 2 * dy);
        push_if(v, c, x + 2 * dx, y + 2 * dy);
    }
    assert(as_pairs(v@) =~= v0 + elephant_step(
        grid(*board),
        is_ai,
        x as int,
        y as int,
        dx as int,
        dy as int,
    ));
}

fn elephant_moves(board: &Board, is_ai: bool, x: i16, y: i16, v: &mut Vec<Coord>)
    requires
        in_board(x as int, y as int),
    ensures
        as_pairs(final(v)@) == as_pairs(old(v)@) + elephant_targets(grid(*board), is_ai, x as int, y as int),
{
    let ghost g = grid(*board);
    let ghost v0 = as_pairs(v@);
    let ghost (xi, yi) = (x as int, y as int);
    let ghost up = if is_ai || y < 4 {
        elephant_step(g, is_ai, xi, yi, 1, 1) + elephant_step(g, is_ai, xi, yi, -1, 1)
    } else {
        seq![]
    };
    let ghost down = if y > 5 || !is_ai {
        elephant_step(g, is_ai, xi, yi, 1, -1) + elephant_step(g, is_ai, xi, yi, -1, -1)
    } else {
        seq![]
    };
    if is_ai || y < 4 {
        elephant_step_moves(board, is_ai, x, y, 1, 1, v);
        elephant_step_moves(board, is_ai, x, y, -1, 1, v);
        proof {
            vstd::seq_lib::lemma_concat_associative(
                v0,
                elephant_step(g, is_ai, xi, yi, 1, 1),
                elephant_step(g, is_ai, xi, yi, -1, 1),
            );
        }
    } else {
        assert(as_pairs(v@) =~= v0 + up);
    }
    let ghost v1 = as_pairs(v@);
    assert(v1 == v0 + up);
    if y > 5 || !is_ai {
        elephant_step_moves(board, is_ai, x, y, 1, -1, v);
        elephant_step_moves(board, is_ai, x, y, -1, -1, v);
        proof {
            vstd::seq_lib::lemma_concat_associative(
                v1,
                elephant_step(g, is_ai, xi, yi, 1, -1),
                elephant_step(g, is_ai, xi, yi, -1, -1),
            );
        }
    } else {
        assert(as_pairs(v@) =~= v1 + down);
    }
    proof {
        vstd::seq_lib::lemma_concat_associative(v0, up, down);
    }
}

fn horse_pair_moves(board: &Board, is_ai: bool, x: i16, y: i16, dx: i16, dy: i16, v: &mut Vec<Coord>)
    requires
        in_board(x as int, y as int),
        -1 <= dx <= 1,
        -1 <= dy <= 1,
    ensures
        as_pairs(final(v)@) == as_pairs(old(v)@) + horse_pair(
            grid(*board),
            is_ai,
            x as int,
            y as int,
            dx as int,
            dy as int,
        ),
{
    let ghost v0 = as_pairs(v@);
    if space_at(board, x + dx, y + dy) {
        if dx != 0 {
            let c = movable_at(board, is_ai, x + 2 * dx, y + 1);
            push_if(v, c, x + 2 * dx, y + 1);
            let c = movable_at(board, is_ai, x + 2 * dx, y - 1);
            push_if(v, c, x + 2 * dx, y - 1);
        } else {
            let c = movable_at(board, is_ai, x + 1, y + 2 * dy);
            push_if(v, c, x + 1, y + 2 * dy);
            let c = movable_at(board, is_ai, x - 1, y + 2 * dy);
            push_if(v, c, x - 1, y + 2 * dy);
        }
    }
    assert(as_pairs(v@) =~= v0 + horse_pair(
        grid(*board),
        is_ai,
        x as int,
        y as int,
        dx as int,
        dy as int,
    ));
}

fn horse_moves(board: &Board, is_ai: bool, x: i16, y: i16, v: &mut Vec<Coord>)
    requires
        in_board(x as int, y as int),
    ensures
        as_pairs(final(v)@) == as_pairs(old(v)@) + horse_targets(grid(*board), is_ai, x as int, y as int),
{
    let ghost g = grid(*board);
    let ghost v0 = as_pairs(v@);
    let ghost (xi, yi) = (x as int, y as int);
    let ghost h1 = horse_pair(g, is_ai, xi, yi, 1, 0);
    let ghost h2 = horse_pair(g, is_ai, xi, yi, -1, 0);
    let ghost h3 = horse_pair(g, is_ai, xi, yi, 0, -1);
    let ghost h4 = horse_pair(g, is_ai, xi, yi, 0, 1);
    horse_pair_moves(board, is_ai, x, y, 1, 0, v);
    horse_pair_moves(board, is_ai, x, y, -1, 0, v);
    proof {
        vstd::seq_lib::lemma_concat_associative(v0, h1, h2);
    }
    horse_pair_moves(board, is_ai, x, y, 0, -1, v);
    proof {
        vstd::seq_lib::lemma_concat_associative(v0, h1 + h2, h3);
    }
    horse_pair_moves(board, is_ai, x, y, 0, 1, v);
    proof {
        vstd::seq_lib::lemma_concat_associative(v0, h1 + h2 + h3, h4);
    }
}


fn chariot_ray_moves(board: &Board, is_ai: bool, x: i16, y: i16, dx: i16, dy: i16, v: &mut Vec<Coord>)
    requires
        in_board(x as int, y as int),
        unit(dx as int, dy as int),
    ensures
        as_pairs(final(v)@) == as_pairs(old(v)@) + chariot_ray(
            grid(*board),
            is_ai,
            x + dx,
            y + dy,
            dx as int,
            dy as int,
        ),
{
    let ghost g = grid(*board);
    let ghost goal = as_pairs(v@) + chariot_ray(g, is_ai, x + dx, y + dy, dx as int, dy as int);
    let mut tx: i16 = x + dx;
    let mut ty: i16 = y + dy;
    loop
        invariant_except_break
            as_pairs(v@) + chariot_ray(g, is_ai, tx as int, ty as int, dx as int, dy as int) == goal,
        invariant
            g == grid(*board),
            unit(dx as int, dy as int),
            -1 <= tx <= 10,
            -1 <= ty <= 10,
        ensures
            as_pairs(v@) == goal,
        decreases steps_left(tx as int, ty as int, dx as int, dy as int),
    {
        let ghost before = as_pairs(v@);
        let ghost rest = chariot_ray(g, is_ai, tx + dx, ty + dy, dx as int, dy as int);
        let m = movable_at(board, is_ai, tx, ty);
        push_if(v, m, tx, ty);
        if space_at(board, tx, ty) {
            proof {
                vstd::seq_lib::lemma_concat_associative(before, seq![(tx as int, ty as int)], rest);
            }
            tx = tx + dx;
            ty = ty + dy;
            continue;
        }
        assert(as_pairs(v@) =~= goal);
        break;
    }
}

/// Past the screen on `(x, y)`: appends the first occupied square beyond it
/// when it holds an enemy.
fn cannon_jump_moves(board: &Board, is_ai: bool, x: i16, y: i16, dx: i16, dy: i16, v: &mut Vec<Coord>)
    requires
        in_board(x as int, y as int),
        unit(dx as int, dy as int),
    ensures
        as_pairs(final(v)@) == as_pairs(old(v)@) + cannon_jump(
            grid(*board),
            is_ai,
            x + dx,
            y + dy,
            dx as int,
            dy as int,
        ),
{
    let ghost g = grid(*board);
    let ghost v0 = as_pairs(v@);
    let mut tx: i16 = x;
    let mut ty: i16 = y;
    loop
        invariant_except_break
            in_board(tx as int, ty as int),
            as_pairs(v@) == v0,
            cannon_jump(g, is_ai, x + dx, y + dy, dx as int, dy as int) == cannon_jump(
                g,
                is_ai,
                tx + dx,
                ty + dy,
                dx as int,
                dy as int,
            ),
        invariant
            g == grid(*board),
            unit(dx as int, dy as int),
        ensures
            as_pairs(v@) == v0 + cannon_jump(g, is_ai, x + dx, y + dy, dx as int, dy as int),
        decreases steps_left(tx as int, ty as int, dx as int, dy as int),
    {
        tx = tx + dx;
        ty = ty + dy;
        if tx >= 0 && ty >= 0 && tx < 9 && ty < 10 {
            if space_at(board, tx, ty) {
                continue;
            }
            let m = movable_at(board, is_ai, tx, ty);
            push_if(v, m, tx, ty);
        } else {
            assert(as_pairs(v@) =~= v0 + cannon_jump(g, is_ai, x + dx, y + dy, dx as int, dy as int));
        }
        break;
    }
}

fn cannon_ray_moves(board: &Board, is_ai: bool, x: i16, y: i16, dx: i16, dy: i16, v: &mut Vec<Coord>)
    requires
        in_board(x as int, y as int),
        unit(dx as int, dy as int),
    ensures
        as_pairs(final(v)@) == as_pairs(old(v)@) + cannon_ray(
            grid(*board),
            is_ai,
            x + dx,
            y + dy,
            dx as int,
            dy as int,
        ),
{
    let ghost g = grid(*board);
    let ghost goal = as_pairs(v@) + cannon_ray(g, is_ai, x + dx, y + dy, dx as int, dy as int);
    let mut tx: i16 = x + dx;
    let mut ty: i16 = y + dy;
    loop
        invariant_except_break
            as_pairs(v@) + cannon_ray(g, is_ai, tx as int, ty as int, dx as int, dy as int) == goal,
        invariant
            g == grid(*board),
            unit(dx as int, dy as int),
            -1 <= tx <= 10,
            -1 <= ty <= 10,
        ensures
            as_pairs(v@) == goal,
        decreases steps_left(tx as int, ty as int, dx as int, dy as int),
    {
        let ghost before = as_pairs(v@);
        if space_at(board, tx, ty) {
            let ghost rest = cannon_ray(g, is_ai, tx + dx, ty + dy, dx as int, dy as int);
            push_if(v, true, tx, ty);
            proof {
                vstd::seq_lib::lemma_concat_associative(before, seq![(tx as int, ty as int)], rest);
            }
            tx = tx + dx;
            ty = ty + dy;
        } else {
            if tx >= 0 && ty >= 0 && tx < 9 && ty < 10 {
                cannon_jump_moves(board, is_ai, tx, ty, dx, dy, v);
            } else {
                assert(as_pairs(v@) =~= goal);
            }
            break;
        }
    }
}

fn face_ray_moves(board: &Board, x: i16, y: i16, dy: i16, v: &mut Vec<Coord>)
    requires
        valid(grid(*board)),
        in_board(x as int, y as int),
        dy == 1 || dy == -1,
    ensures
        as_pairs(final(v)@) == as_pairs(old(v)@) + face_ray(grid(*board), x as int, y + dy, dy as int),
{
    let ghost g = grid(*board);
    let ghost v0 = as_pairs(v@);
    proof {
        lemma_grid_shaped(*board);
    }
    let mut ty: i16 = y;
    loop
        invariant_except_break
            in_board(x as int, ty as int),
            as_pairs(v@) == v0,
            face_ray(g, x as int, y + dy, dy as int) == face_ray(g, x as int, ty + dy, dy as int),
        invariant
            g == grid(*board),
            valid(g),
            dy == 1 || dy == -1,
            in_board(x as int, y as int),
        ensures
            as_pairs(v@) == v0 + face_ray(g, x as int, y + dy, dy as int),
        decreases steps_left(x as int, ty as int, 0, dy as int),
    {
        ty = ty + dy;
        if ty >= 0 && ty < 10 {
            if space_at(board, x, ty) {
                continue;
            }
            assert(is_piece_value(g[ty as int][x as int]));
            let c = abs(board[ty as usize][x as usize]) == 127;
            push_if(v, c, x, ty);
        } else {
            assert(as_pairs(v@) =~= v0 + face_ray(g, x as int, y + dy, dy as int));
        }
        break;
    }
}

fn cannon_moves(board: &Board, is_ai: bool, x: i16, y: i16, v: &mut Vec<Coord>)
    requires
        in_board(x as int, y as int),
    ensures
        as_pairs(final(v)@) == as_pairs(old(v)@) + cannon_targets(grid(*board), is_ai, x as int, y as int),
{
    let ghost g = grid(*board);
    let ghost v0 = as_pairs(v@);
    let ghost (xi, yi) = (x as int, y as int);
    let ghost h1 = cannon_ray(g, is_ai, xi + 1, yi, 1, 0);
    let ghost h2 = cannon_ray(g, is_ai, xi - 1, yi, -1, 0);
    let ghost h3 = cannon_ray(g, is_ai, xi, yi + 1, 0, 1);
    let ghost h4 = cannon_ray(g, is_ai, xi, yi - 1, 0, -1);
    cannon_ray_moves(board, is_ai, x, y, 1, 0, v);
    cannon_ray_moves(board, is_ai, x, y, -1, 0, v);
    proof {
        vstd::seq_lib::lemma_concat_associative(v0, h1, h2);
    }
    cannon_ray_moves(board, is_ai, x, y, 0, 1, v);
    proof {
        vstd::seq_lib::lemma_concat_associative(v0, h1 + h2, h3);
    }
    cannon_ray_moves(board, is_ai, x, y, 0, -1, v);
    proof {
        vstd::seq_lib::lemma_concat_associative(v0, h1 + h2 + h3, h4);
    }
}

fn chariot_moves(board: &Board, is_ai: bool, x: i16, y: i16, v: &mut Vec<Coord>)
    requires
        in_board(x as int, y as int),
    ensures
        as_pairs(final(v)@) == as_pairs(old(v)@) + chariot_targets(grid(*board), is_ai, x as int, y as int),
{
    let ghost g = grid(*board);
    let ghost v0 = as_pairs(v@);
    let ghost (xi, yi) = (x as int, y as int);
    let ghost h1 = chariot_ray(g, is_ai, xi + 1, yi, 1, 0);
    let ghost h2 = chariot_ray(g, is_ai, xi - 1, yi, -1, 0);
    let ghost h3 = chariot_ray(g, is_ai, xi, yi + 1, 0, 1);
    let ghost h4 = chariot_ray(g, is_ai, xi, yi - 1, 0, -1);
    chariot_ray_moves(board, is_ai, x, y, 1, 0, v);
    chariot_ray_moves(board, is_ai, x, y, -1, 0, v);
    proof {
        vstd::seq_lib::lemma_concat_associative(v0, h1, h2);
    }
    chariot_ray_moves(board, is_ai, x, y, 0, 1, v);
    proof {
        vstd::seq_lib::lemma_concat_associative(v0, h1 + h2, h3);
    }
    chariot_ray_moves(board, is_ai, x, y, 0, -1, v);
    proof {
        vstd::seq_lib::lemma_concat_associative(v0, h1 + h2 + h3, h4);
    }
}

fn general_moves(board: &Board, is_ai: bool, x: i16, y: i16, v: &mut Vec<Coord>)
    requires
        valid(grid(*board)),
        in_board(x as int, y as int),
    ensures
        as_pairs(final(v)@) == as_pairs(old(v)@) + general_targets(grid(*board), is_ai, x as int, y as int),
{
    let ghost g = grid(*board);
    let ghost v0 = as_pairs(v@);
    let ghost (xi, yi) = (x as int, y as int);
    let dy: i16 = if is_ai {
        -1
    } else {
        1
    };
    let ghost h1 = palace_step(g, is_ai, xi + 1, yi);
    let ghost h2 = palace_step(g, is_ai, xi - 1, yi);
    let ghost h3 = palace_step(g, is_ai, xi, yi + 1);
    let ghost h4 = palace_step(g, is_ai, xi, yi - 1);
    let ghost h5 = face_ray(g, xi, yi + dy, dy as int);
    push_palace_step(board, is_ai, v, x + 1, y);
    push_palace_step(board, is_ai, v, x - 1, y);
    proof {
        vstd::seq_lib::lemma_concat_associative(v0, h1, h2);
    }
    push_palace_step(board, is_ai, v, x, y + 1);
    proof {
        vstd::seq_lib::lemma_concat_associative(v0, h1 + h2, h3);
    }
    push_palace_step(board, is_ai, v, x, y - 1);
    proof {
        vstd::seq_lib::lemma_concat_associative(v0, h1 + h2 + h3, h4);
    }
    face_ray_moves(board, x, y, dy, v);
    proof {
        vstd::seq_lib::lemma_concat_associative(v0, h1 + h2 + h3 + h4, h5);
    }
}

/// The squares the side `is_ai` may move the piece on `(x, y)` to, in the
/// order they are tried; none unless the square holds one of its pieces.
pub fn gen_targets(board: &Board, is_ai: bool, x: u8, y: u8) -> (v: Vec<Coord>)
    requires
        valid(grid(*board)),
        in_board(x as int, y as int),
    ensures
        as_pairs(v@) == piece_targets(grid(*board), is_ai, x as int, y as int),
{
    let ghost g = grid(*board);
    proof {
        lemma_grid_shaped(*board);
    }
    reveal(targets);
    let mut v: Vec<Coord> = Vec::new();
    let p = board[y as usize][x as usize];
    assert(as_pairs(v@) =~= seq![]);
    if p != 0 && (p > 0) == is_ai {
        assert(is_piece_value(g[y as int][x as int]));
        let xi = x as i16;
        let yi = y as i16;
        match abs(p) {
            1 => soldier_moves(board, is_ai, xi, yi, &mut v),
            2 => advisor_moves(board, is_ai, xi, yi, &mut v),
            3 => elephant_moves(board, is_ai, xi, yi, &mut v),
            5 => horse_moves(board, is_ai, xi, yi, &mut v),
            6 => cannon_moves(board, is_ai, xi, yi, &mut v),
            10 => chariot_moves(board, is_ai, xi, yi, &mut v),
            _ => general_moves(board, is_ai, xi, yi, &mut v),
        }
        assert(as_pairs(v@) =~= piece_targets(g, is_ai, x as int, y as int));
    }
    v
}

/// A target the piece on `(x, y)` may go to: on the board, not its own
/// square, and empty or held by the other side, unless it holds a general
/// (the only other target, met along an open column).
pub open spec fn fair_target(g: Grid, is_ai: bool, x: int, y: int, t: (int, int)) -> bool {
    &&& in_board(t.0, t.1)
    &&& t != (x, y)
    &&& movable(g, is_ai, t.0, t.1) || abs_val(g[t.1][t.0] as int) == 127
}

/// Every target satisfies `fair_target`.
pub open spec fn all_fair(g: Grid, is_ai: bool, x: int, y: int, ts: Seq<(int, int)>) -> bool {
    forall|k: int| 0 <= k < ts.len() ==> fair_target(g, is_ai, x, y, #[trigger] ts[k])
}

/// `(cx, cy)` lies strictly beyond `(x, y)` in direction `(dx, dy)`.
pub open spec fn beyond(cx: int, cy: int, x: int, y: int, dx: int, dy: int) -> bool {
    &&& dx == 1 ==> cx > x && cy == y
    &&& dx == -1 ==> cx < x && cy == y
    &&& dy == 1 ==> cy > y && cx == x
    &&& dy == -1 ==> cy < y && cx == x
}

proof fn lemma_fair_concat(g: Grid, is_ai: bool, x: int, y: int, a: Seq<(int, int)>, b: Seq<(int, int)>)
    requires
        all_fair(g, is_ai, x, y, a),
        all_fair(g, is_ai, x, y, b),
    ensures
        all_fair(g, is_ai, x, y, a + b),
{
    assert forall|k: int| 0 <= k < (a + b).len() implies fair_target(g, is_ai, x, y, #[trigger] (a + b)[k]) by {
        if k < a.len() {
            assert((a + b)[k] == a[k]);
        } else {
            assert((a + b)[k] == b[k - a.len()]);
        }
    }
}

proof fn lemma_chariot_ray_fair(g: Grid, is_ai: bool, x: int, y: int, cx: int, cy: int, dx: int, dy: int)
    requires
        unit(dx, dy),
        beyond(cx, cy, x, y, dx, dy),
    ensures
        all_fair(g, is_ai, x, y, chariot_ray(g, is_ai, cx, cy, dx, dy)),
    decreases steps_left(cx, cy, dx, dy),
{
    if movable(g, is_ai, cx, cy) && space(g, cx, cy) {
        lemma_chariot_ray_fair(g, is_ai, x, y, cx + dx, cy + dy, dx, dy);
        lemma_fair_concat(g, is_ai, x, y, seq![(cx, cy)], chariot_ray(g, is_ai, cx + dx, cy + dy, dx, dy));
    }
}

proof fn lemma_cannon_jump_fair(g: Grid, is_ai: bool, x: int, y: int, cx: int, cy: int, dx: int, dy: int)
    requires
        unit(dx, dy),
        beyond(cx, cy, x, y, dx, dy),
    ensures
        all_fair(g, is_ai, x, y, cannon_jump(g, is_ai, cx, cy, dx, dy)),
    decreases steps_left(cx, cy, dx, dy),
{
    if in_board(cx, cy) && space(g, cx, cy) {
        lemma_cannon_jump_fair(g, is_ai, x, y, cx + dx, cy + dy, dx, dy);
    }
}

proof fn lemma_cannon_ray_fair(g: Grid, is_ai: bool, x: int, y: int, cx: int, cy: int, dx: int, dy: int)
    requires
        unit(dx, dy),
        beyond(cx, cy, x, y, dx, dy),
    ensures
        all_fair(g, is_ai, x, y, cannon_ray(g, is_ai, cx, cy, dx, dy)),
    decreases steps_left(cx, cy, dx, dy),
{
    if in_board(cx, cy) {
        if space(g, cx, cy) {
            lemma_cannon_ray_fair(g, is_ai, x, y, cx + dx, cy + dy, dx, dy);
            lemma_fair_concat(g, is_ai, x, y, seq![(cx, cy)], cannon_ray(g, is_ai, cx + dx, cy + dy, dx, dy));
        } else {
            lemma_cannon_jump_fair(g, is_ai, x, y, cx + dx, cy + dy, dx, dy);
        }
    }
}

proof fn lemma_face_ray_fair(g: Grid, is_ai: bool, x: int, y: int, cy: int, dy: int)
    requires
        dy == 1 || dy == -1,
        beyond(x, cy, x, y, 0, dy),
    ensures
        all_fair(g, is_ai, x, y, face_ray(g, x, cy, dy)),
    decreases steps_left(x, cy, 0, dy),
{
    if in_board(x, cy) && space(g, x, cy) {
        lemma_face_ray_fair(g, is_ai, x, y, cy + dy, dy);
    }
}

proof fn lemma_soldier_fair(g: Grid, is_ai: bool, x: int, y: int)
    ensures
        all_fair(g, is_ai, x, y, soldier_targets(g, is_ai, x, y)),
{
}

proof fn lemma_advisor_fair(g: Grid, is_ai: bool, x: int, y: int)
    ensures
        all_fair(g, is_ai, x, y, advisor_targets(g, is_ai, x, y)),
{
}

proof fn lemma_elephant_fair(g: Grid, is_ai: bool, x: int, y: int)
    ensures
        all_fair(g, is_ai, x, y, elephant_targets(g, is_ai, x, y)),
{
}

proof fn lemma_horse_fair(g: Grid, is_ai: bool, x: int, y: int)
    ensures
        all_fair(g, is_ai, x, y, horse_targets(g, is_ai, x, y)),
{
}

proof fn lemma_cannon_fair(g: Grid, is_ai: bool, x: int, y: int)
    ensures
        all_fair(g, is_ai, x, y, cannon_targets(g, is_ai, x, y)),
{
    lemma_cannon_ray_fair(g, is_ai, x, y, x + 1, y, 1, 0);
    lemma_cannon_ray_fair(g, is_ai, x, y, x - 1, y, -1, 0);
    lemma_cannon_ray_fair(g, is_ai, x, y, x, y + 1, 0, 1);
    lemma_cannon_ray_fair(g, is_ai, x, y, x, y - 1, 0, -1);
    let h1 = cannon_ray(g, is_ai, x + 1, y, 1, 0);
    let h2 = cannon_ray(g, is_ai, x - 1, y, -1, 0);
    let h3 = cannon_ray(g, is_ai, x, y + 1, 0, 1);
    let h4 = cannon_ray(g, is_ai, x, y - 1, 0, -1);
    lemma_fair_concat(g, is_ai, x, y, h1, h2);
    lemma_fair_concat(g, is_ai, x, y, h1 + h2, h3);
    lemma_fair_concat(g, is_ai, x, y, h1 + h2 + h3, h4);
}

proof fn lemma_chariot_fair(g: Grid, is_ai: bool, x: int, y: int)
    ensures
        all_fair(g, is_ai, x, y, chariot_targets(g, is_ai, x, y)),
{
    lemma_chariot_ray_fair(g, is_ai, x, y, x + 1, y, 1, 0);
    lemma_chariot_ray_fair(g, is_ai, x, y, x - 1, y, -1, 0);
    lemma_chariot_ray_fair(g, is_ai, x, y, x, y + 1, 0, 1);
    lemma_chariot_ray_fair(g, is_ai, x, y, x, y - 1, 0, -1);
    let h1 = chariot_ray(g, is_ai, x + 1, y, 1, 0);
    let h2 = chariot_ray(g, is_ai, x - 1, y, -1, 0);
    let h3 = chariot_ray(g, is_ai, x, y + 1, 0, 1);
    let h4 = chariot_ray(g, is_ai, x, y - 1, 0, -1);
    lemma_fair_concat(g, is_ai, x, y, h1, h2);
    lemma_fair_concat(g, is_ai, x, y, h1 + h2, h3);
    lemma_fair_concat(g, is_ai, x, y, h1 + h2 + h3, h4);
}

proof fn lemma_general_fair(g: Grid, is_ai: bool, x: int, y: int)
    ensures
        all_fair(g, is_ai, x, y, general_targets(g, is_ai, x, y)),
{
    let dy = if is_ai {
        -1
    } else {
        1
    };
    lemma_face_ray_fair(g, is_ai, x, y, y + dy, dy);
    let h1 = palace_step(g, is_ai, x + 1, y);
    let h2 = palace_step(g, is_ai, x - 1, y);
    let h3 = palace_step(g, is_ai, x, y + 1);
    let h4 = palace_step(g, is_ai, x, y - 1);
    let h5 = face_ray(g, x, y + dy, dy);
    assert(all_fair(g, is_ai, x, y, h1 + h2 + h3 + h4));
    lemma_fair_concat(g, is_ai, x, y, h1 + h2 + h3 + h4, h5);
}

/// Law: every square a piece is moved to lies on the board, differs from
/// its own square, and is empty or held by the other side, unless it holds
/// a general met along an open column.
pub proof fn lemma_targets_fair(g: Grid, is_ai: bool, x: int, y: int)
    ensures
        all_fair(g, is_ai, x, y, piece_targets(g, is_ai, x, y)),
{
    reveal(targets);
    lemma_soldier_fair(g, is_ai, x, y);
    lemma_advisor_fair(g, is_ai, x, y);
    lemma_elephant_fair(g, is_ai, x, y);
    lemma_horse_fair(g, is_ai, x, y);
    lemma_cannon_fair(g, is_ai, x, y);
    lemma_chariot_fair(g, is_ai, x, y);
    lemma_general_fair(g, is_ai, x, y);
}

} // verus!
