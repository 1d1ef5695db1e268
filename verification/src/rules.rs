use vstd::prelude::*;
use crate::board::{abs_val, in_board, movable, palace, space, Grid};
use crate::moves::{
    advisor_targets, cannon_jump, cannon_ray, cannon_targets, chariot_ray, chariot_targets,
    elephant_targets, face_ray, general_targets, horse_targets, own, piece_targets,
    soldier_targets, targets, opt, palace_step, elephant_step, horse_pair, steps_left, unit,
};

verus! {

// The rules of each piece stated geometrically, and proved to be exactly what
// the move generator produces.

/// The square `k` steps from `(x, y)` in the direction `(dx, dy)`.
pub open spec fn pt(x: int, y: int, dx: int, dy: int, k: int) -> (int, int) {
    (
        if dx == 1 {
            x + k
        } else if dx == -1 {
            x - k
        } else {
            x
        },
        if dy == 1 {
            y + k
        } else if dy == -1 {
            y - k
        } else {
            y
        },
    )
}

/// The squares `s..k` steps from `(x, y)` in direction `(dx, dy)` are all empty.
pub open spec fn clear(g: Grid, x: int, y: int, dx: int, dy: int, s: int, k: int) -> bool {
    forall|j: int|
        #![trigger pt(x, y, dx, dy, j)]
        s <= j < k ==> space(g, pt(x, y, dx, dy, j).0, pt(x, y, dx, dy, j).1)
}

/// The square is on the board and holds a piece.
pub open spec fn occupied(g: Grid, p: (int, int)) -> bool {
    in_board(p.0, p.1) && g[p.1][p.0] != 0
}

/// A chariot on `(x, y)` reaches `t`: `t` lies on its row or column, every
/// square strictly between is empty, and `t` is empty or an enemy.
pub open spec fn chariot_reach(g: Grid, is_ai: bool, x: int, y: int, t: (int, int)) -> bool {
    exists|dx: int, dy: int, k: int|
        #![trigger pt(x, y, dx, dy, k)]
        unit(dx, dy) && k >= 1 && t == pt(x, y, dx, dy, k) && movable(g, is_ai, t.0, t.1) && clear(
            g,
            x,
            y,
            dx,
            dy,
            1,
            k,
        )
}

/// The square `k` steps out is what a cannon starting its look at step `s`
/// may take: empty with every square from step `s` on empty, or an enemy
/// with exactly one piece (the screen) between step `s` and it.
pub open spec fn cannon_at(g: Grid, is_ai: bool, x: int, y: int, dx: int, dy: int, s: int, k: int) -> bool {
    let t = pt(x, y, dx, dy, k);
    ||| space(g, t.0, t.1) && clear(g, x, y, dx, dy, s, k)
    ||| occupied(g, t) && movable(g, is_ai, t.0, t.1) && exists|m: int|
        #![trigger pt(x, y, dx, dy, m)]
        s <= m < k && occupied(g, pt(x, y, dx, dy, m)) && clear(g, x, y, dx, dy, s, m) && clear(
            g,
            x,
            y,
            dx,
            dy,
            m + 1,
            k,
        )
}

/// A cannon on `(x, y)` reaches `t`: `t` lies on its row or column and is
/// either empty with every square between empty, or an enemy with exactly
/// one piece (the screen) strictly between.
pub open spec fn cannon_reach(g: Grid, is_ai: bool, x: int, y: int, t: (int, int)) -> bool {
    exists|dx: int, dy: int, k: int|
        #![trigger pt(x, y, dx, dy, k)]
        unit(dx, dy) && k >= 1 && t == pt(x, y, dx, dy, k) && cannon_at(g, is_ai, x, y, dx, dy, 1, k)
}

/// A general on `(x, y)` faces `t` along its column in direction `dy`:
/// `t` holds a general and every square between is empty.
pub open spec fn face_reach(g: Grid, x: int, y: int, dy: int, t: (int, int)) -> bool {
    exists|k: int|
        #![trigger pt(x, y, 0, dy, k)]
        k >= 1 && t == pt(x, y, 0, dy, k) && occupied(g, t) && abs_val(g[t.1][t.0] as int) == 127
            && clear(g, x, y, 0, dy, 1, k)
}

proof fn lemma_contains_concat(a: Seq<(int, int)>, b: Seq<(int, int)>, t: (int, int))
    ensures
        (a + b).contains(t) <==> a.contains(t) || b.contains(t),
{
    if (a + b).contains(t) {
        let i = choose|i: int| 0 <= i < (a + b).len() && (a + b)[i] == t;
        if i < a.len() {
            assert(a[i] == t);
        } else {
            assert(b[i - a.len()] == t);
        }
    }
    if a.contains(t) {
        let i = choose|i: int| 0 <= i < a.len() && a[i] == t;
        assert((a + b)[i] == t);
    }
    if b.contains(t) {
        let i = choose|i: int| 0 <= i < b.len() && b[i] == t;
        assert((a + b)[i + a.len()] == t);
    }
}

proof fn lemma_contains_single(c: (int, int), t: (int, int))
    ensures
        seq![c].contains(t) <==> t == c,
{
    if t == c {
        assert(seq![c][0] == t);
    }
}

proof fn lemma_contains_opt(c: bool, x: int, y: int, t: (int, int))
    ensures
        opt(c, x, y).contains(t) <==> c && t == (x, y),
{
    lemma_contains_single((x, y), t);
}

proof fn lemma_clear_step(g: Grid, x: int, y: int, dx: int, dy: int, s: int, k: int)
    requires
        s < k,
    ensures
        clear(g, x, y, dx, dy, s, k) <==> space(g, pt(x, y, dx, dy, s).0, pt(x, y, dx, dy, s).1)
            && clear(g, x, y, dx, dy, s + 1, k),
{
}

proof fn lemma_chariot_ray_iff(g: Grid, is_ai: bool, x: int, y: int, dx: int, dy: int, s: int, t: (int, int))
    requires
        unit(dx, dy),
        s >= 1,
    ensures
        chariot_ray(g, is_ai, pt(x, y, dx, dy, s).0, pt(x, y, dx, dy, s).1, dx, dy).contains(t)
            <==> exists|k: int|
            #![trigger pt(x, y, dx, dy, k)]
            k >= s && t == pt(x, y, dx, dy, k) && movable(g, is_ai, t.0, t.1) && clear(g, x, y, dx, dy, s, k),
    decreases steps_left(pt(x, y, dx, dy, s).0, pt(x, y, dx, dy, s).1, dx, dy),
{
    let c = pt(x, y, dx, dy, s);
    let n = pt(x, y, dx, dy, s + 1);
    assert(n == (c.0 + dx, c.1 + dy));
    let rest = chariot_ray(g, is_ai, n.0, n.1, dx, dy);
    if !movable(g, is_ai, c.0, c.1) {
        assert(!chariot_ray(g, is_ai, c.0, c.1, dx, dy).contains(t));
        if exists|k: int|
            #![trigger pt(x, y, dx, dy, k)]
            k >= s && t == pt(x, y, dx, dy, k) && movable(g, is_ai, t.0, t.1) && clear(g, x, y, dx, dy, s, k) {
            let k = choose|k: int|
                #![trigger pt(x, y, dx, dy, k)]
                k >= s && t == pt(x, y, dx, dy, k) && movable(g, is_ai, t.0, t.1) && clear(g, x, y, dx, dy, s, k);
            if k > s {
                lemma_clear_step(g, x, y, dx, dy, s, k);
            }
        }
    } else if space(g, c.0, c.1) {
        lemma_chariot_ray_iff(g, is_ai, x, y, dx, dy, s + 1, t);
        lemma_contains_concat(seq![c], rest, t);
        lemma_contains_single(c, t);
        if t == c {
            assert(clear(g, x, y, dx, dy, s, s));
        }
        if rest.contains(t) {
            let k = choose|k: int|
                #![trigger pt(x, y, dx, dy, k)]
                k >= s + 1 && t == pt(x, y, dx, dy, k) && movable(g, is_ai, t.0, t.1) && clear(g, x, y, dx, dy, s + 1, k);
            lemma_clear_step(g, x, y, dx, dy, s, k);
        }
        if exists|k: int|
            #![trigger pt(x, y, dx, dy, k)]
            k >= s && t == pt(x, y, dx, dy, k) && movable(g, is_ai, t.0, t.1) && clear(g, x, y, dx, dy, s, k) {
            let k = choose|k: int|
                #![trigger pt(x, y, dx, dy, k)]
                k >= s && t == pt(x, y, dx, dy, k) && movable(g, is_ai, t.0, t.1) && clear(g, x, y, dx, dy, s, k);
            if k > s {
                lemma_clear_step(g, x, y, dx, dy, s, k);
            }
        }
    } else {
        lemma_contains_single(c, t);
        if t == c {
            assert(clear(g, x, y, dx, dy, s, s));
        }
        if exists|k: int|
            #![trigger pt(x, y, dx, dy, k)]
            k >= s && t == pt(x, y, dx, dy, k) && movable(g, is_ai, t.0, t.1) && clear(g, x, y, dx, dy, s, k) {
            let k = choose|k: int|
                #![trigger pt(x, y, dx, dy, k)]
                k >= s && t == pt(x, y, dx, dy, k) && movable(g, is_ai, t.0, t.1) && clear(g, x, y, dx, dy, s, k);
            if k > s {
                lemma_clear_step(g, x, y, dx, dy, s, k);
            }
        }
    }
}

/// The chariot rule: a chariot's targets are exactly the squares it reaches
/// along its row and column.
pub proof fn lemma_chariot_rule(g: Grid, is_ai: bool, x: int, y: int, t: (int, int))
    ensures
        chariot_targets(g, is_ai, x, y).contains(t) <==> chariot_reach(g, is_ai, x, y, t),
{
    lemma_chariot_ray_iff(g, is_ai, x, y, 1, 0, 1, t);
    lemma_chariot_ray_iff(g, is_ai, x, y, -1, 0, 1, t);
    lemma_chariot_ray_iff(g, is_ai, x, y, 0, 1, 1, t);
    lemma_chariot_ray_iff(g, is_ai, x, y, 0, -1, 1, t);
    let h1 = chariot_ray(g, is_ai, x + 1, y, 1, 0);
    let h2 = chariot_ray(g, is_ai, x - 1, y, -1, 0);
    let h3 = chariot_ray(g, is_ai, x, y + 1, 0, 1);
    let h4 = chariot_ray(g, is_ai, x, y - 1, 0, -1);
    lemma_contains_concat(h1, h2, t);
    lemma_contains_concat(h1 + h2, h3, t);
    lemma_contains_concat(h1 + h2 + h3, h4, t);
    if chariot_reach(g, is_ai, x, y, t) {
        let (dx, dy, k) = choose|dx: int, dy: int, k: int|
            #![trigger pt(x, y, dx, dy, k)]
            unit(dx, dy) && k >= 1 && t == pt(x, y, dx, dy, k) && movable(g, is_ai, t.0, t.1) && clear(
                g,
                x,
                y,
                dx,
                dy,
                1,
                k,
            );
        assert(pt(x, y, dx, dy, k) == t);
    }
}

/// Past the screen: the first occupied square from step `s` on, if an enemy.
pub open spec fn jump_at(g: Grid, is_ai: bool, x: int, y: int, dx: int, dy: int, s: int, k: int) -> bool {
    let t = pt(x, y, dx, dy, k);
    occupied(g, t) && movable(g, is_ai, t.0, t.1) && clear(g, x, y, dx, dy, s, k)
}

proof fn lemma_cannon_jump_iff(g: Grid, is_ai: bool, x: int, y: int, dx: int, dy: int, s: int, t: (int, int))
    requires
        unit(dx, dy),
        s >= 1,
    ensures
        cannon_jump(g, is_ai, pt(x, y, dx, dy, s).0, pt(x, y, dx, dy, s).1, dx, dy).contains(t)
            <==> exists|k: int|
            #![trigger pt(x, y, dx, dy, k)]
            k >= s && t == pt(x, y, dx, dy, k) && jump_at(g, is_ai, x, y, dx, dy, s, k),
    decreases steps_left(pt(x, y, dx, dy, s).0, pt(x, y, dx, dy, s).1, dx, dy),
{
    let c = pt(x, y, dx, dy, s);
    let n = pt(x, y, dx, dy, s + 1);
    assert(n == (c.0 + dx, c.1 + dy));
    if in_board(c.0, c.1) && space(g, c.0, c.1) {
        lemma_cannon_jump_iff(g, is_ai, x, y, dx, dy, s + 1, t);
        if cannon_jump(g, is_ai, n.0, n.1, dx, dy).contains(t) {
            let k = choose|k: int|
                #![trigger pt(x, y, dx, dy, k)]
                k >= s + 1 && t == pt(x, y, dx, dy, k) && jump_at(g, is_ai, x, y, dx, dy, s + 1, k);
            lemma_clear_step(g, x, y, dx, dy, s, k);
        }
    } else if in_board(c.0, c.1) && movable(g, is_ai, c.0, c.1) {
        lemma_contains_single(c, t);
        if t == c {
            assert(clear(g, x, y, dx, dy, s, s));
        }
    }
    if exists|k: int|
        #![trigger pt(x, y, dx, dy, k)]
        k >= s && t == pt(x, y, dx, dy, k) && jump_at(g, is_ai, x, y, dx, dy, s, k) {
        let k = choose|k: int|
            #![trigger pt(x, y, dx, dy, k)]
            k >= s && t == pt(x, y, dx, dy, k) && jump_at(g, is_ai, x, y, dx, dy, s, k);
        if k > s {
            lemma_clear_step(g, x, y, dx, dy, s, k);
        }
    }
}

proof fn lemma_cannon_at_step(g: Grid, is_ai: bool, x: int, y: int, dx: int, dy: int, s: int, k: int)
    requires
        s < k,
    ensures
        cannon_at(g, is_ai, x, y, dx, dy, s, k) <==> if space(g, pt(x, y, dx, dy, s).0, pt(x, y, dx, dy, s).1) {
            cannon_at(g, is_ai, x, y, dx, dy, s + 1, k)
        } else if occupied(g, pt(x, y, dx, dy, s)) {
            jump_at(g, is_ai, x, y, dx, dy, s + 1, k)
        } else {
            false
        },
{
    let c = pt(x, y, dx, dy, s);
    lemma_clear_step(g, x, y, dx, dy, s, k);
    if cannon_at(g, is_ai, x, y, dx, dy, s, k) && !space(g, pt(x, y, dx, dy, k).0, pt(x, y, dx, dy, k).1) {
        let m = choose|m: int|
            #![trigger pt(x, y, dx, dy, m)]
            s <= m < k && occupied(g, pt(x, y, dx, dy, m)) && clear(g, x, y, dx, dy, s, m) && clear(
                g,
                x,
                y,
                dx,
                dy,
                m + 1,
                k,
            );
        if m > s {
            lemma_clear_step(g, x, y, dx, dy, s, m);
        }
        if space(g, c.0, c.1) {
            if m > s {
                assert(cannon_at(g, is_ai, x, y, dx, dy, s + 1, k));
            }
        }
    }
    if space(g, c.0, c.1) && cannon_at(g, is_ai, x, y, dx, dy, s + 1, k) && !space(
        g,
        pt(x, y, dx, dy, k).0,
        pt(x, y, dx, dy, k).1,
    ) {
        let m = choose|m: int|
            #![trigger pt(x, y, dx, dy, m)]
            s + 1 <= m < k && occupied(g, pt(x, y, dx, dy, m)) && clear(g, x, y, dx, dy, s + 1, m)
                && clear(g, x, y, dx, dy, m + 1, k);
        lemma_clear_step(g, x, y, dx, dy, s, m);
    }
    if occupied(g, c) && jump_at(g, is_ai, x, y, dx, dy, s + 1, k) {
        assert(clear(g, x, y, dx, dy, s, s));
        assert(pt(x, y, dx, dy, s) == c);
    }
}

proof fn lemma_cannon_ray_iff(g: Grid, is_ai: bool, x: int, y: int, dx: int, dy: int, s: int, t: (int, int))
    requires
        unit(dx, dy),
        s >= 1,
    ensures
        cannon_ray(g, is_ai, pt(x, y, dx, dy, s).0, pt(x, y, dx, dy, s).1, dx, dy).contains(t)
            <==> exists|k: int|
            #![trigger pt(x, y, dx, dy, k)]
            k >= s && t == pt(x, y, dx, dy, k) && cannon_at(g, is_ai, x, y, dx, dy, s, k),
    decreases steps_left(pt(x, y, dx, dy, s).0, pt(x, y, dx, dy, s).1, dx, dy),
{
    let c = pt(x, y, dx, dy, s);
    let n = pt(x, y, dx, dy, s + 1);
    assert(n == (c.0 + dx, c.1 + dy));
    assert(cannon_at(g, is_ai, x, y, dx, dy, s, s) <==> space(g, c.0, c.1)) by {
        assert(clear(g, x, y, dx, dy, s, s));
    }
    if in_board(c.0, c.1) {
        if space(g, c.0, c.1) {
            lemma_cannon_ray_iff(g, is_ai, x, y, dx, dy, s + 1, t);
            let rest = cannon_ray(g, is_ai, n.0, n.1, dx, dy);
            lemma_contains_concat(seq![c], rest, t);
            lemma_contains_single(c, t);
            if rest.contains(t) {
                let k = choose|k: int|
                    #![trigger pt(x, y, dx, dy, k)]
                    k >= s + 1 && t == pt(x, y, dx, dy, k) && cannon_at(g, is_ai, x, y, dx, dy, s + 1, k);
                lemma_cannon_at_step(g, is_ai, x, y, dx, dy, s, k);
            }
        } else {
            lemma_cannon_jump_iff(g, is_ai, x, y, dx, dy, s + 1, t);
            if cannon_jump(g, is_ai, n.0, n.1, dx, dy).contains(t) {
                let k = choose|k: int|
                    #![trigger pt(x, y, dx, dy, k)]
                    k >= s + 1 && t == pt(x, y, dx, dy, k) && jump_at(g, is_ai, x, y, dx, dy, s + 1, k);
                lemma_cannon_at_step(g, is_ai, x, y, dx, dy, s, k);
            }
        }
    }
    if exists|k: int|
        #![trigger pt(x, y, dx, dy, k)]
        k >= s && t == pt(x, y, dx, dy, k) && cannon_at(g, is_ai, x, y, dx, dy, s, k) {
        let k = choose|k: int|
            #![trigger pt(x, y, dx, dy, k)]
            k >= s && t == pt(x, y, dx, dy, k) && cannon_at(g, is_ai, x, y, dx, dy, s, k);
        if k > s {
            lemma_cannon_at_step(g, is_ai, x, y, dx, dy, s, k);
            if in_board(c.0, c.1) && space(g, c.0, c.1) {
                lemma_cannon_ray_iff(g, is_ai, x, y, dx, dy, s + 1, t);
            } else if in_board(c.0, c.1) {
                lemma_cannon_jump_iff(g, is_ai, x, y, dx, dy, s + 1, t);
            }
        }
    }
}

/// The cannon rule: a cannon's targets are exactly the squares it reaches
/// along its row and column, gliding over empty squares and capturing only
/// over exactly one screen.
pub proof fn lemma_cannon_rule(g: Grid, is_ai: bool, x: int, y: int, t: (int, int))
    ensures
        cannon_targets(g, is_ai, x, y).contains(t) <==> cannon_reach(g, is_ai, x, y, t),
{
    lemma_cannon_ray_iff(g, is_ai, x, y, 1, 0, 1, t);
    lemma_cannon_ray_iff(g, is_ai, x, y, -1, 0, 1, t);
    lemma_cannon_ray_iff(g, is_ai, x, y, 0, 1, 1, t);
    lemma_cannon_ray_iff(g, is_ai, x, y, 0, -1, 1, t);
    let h1 = cannon_ray(g, is_ai, x + 1, y, 1, 0);
    let h2 = cannon_ray(g, is_ai, x - 1, y, -1, 0);
    let h3 = cannon_ray(g, is_ai, x, y + 1, 0, 1);
    let h4 = cannon_ray(g, is_ai, x, y - 1, 0, -1);
    lemma_contains_concat(h1, h2, t);
    lemma_contains_concat(h1 + h2, h3, t);
    lemma_contains_concat(h1 + h2 + h3, h4, t);
    if cannon_reach(g, is_ai, x, y, t) {
        let (dx, dy, k) = choose|dx: int, dy: int, k: int|
            #![trigger pt(x, y, dx, dy, k)]
            unit(dx, dy) && k >= 1 && t == pt(x, y, dx, dy, k) && cannon_at(g, is_ai, x, y, dx, dy, 1, k);
        assert(pt(x, y, dx, dy, k) == t);
    }
}

proof fn lemma_face_ray_iff(g: Grid, x: int, y: int, dy: int, s: int, t: (int, int))
    requires
        dy == 1 || dy == -1,
        s >= 1,
    ensures
        face_ray(g, x, pt(x, y, 0, dy, s).1, dy).contains(t) <==> exists|k: int|
            #![trigger pt(x, y, 0, dy, k)]
            k >= s && t == pt(x, y, 0, dy, k) && occupied(g, t) && abs_val(g[t.1][t.0] as int) == 127
                && clear(g, x, y, 0, dy, s, k),
    decreases steps_left(x, pt(x, y, 0, dy, s).1, 0, dy),
{
    let c = pt(x, y, 0, dy, s);
    let n = pt(x, y, 0, dy, s + 1);
    assert(c.0 == x && n == (x, c.1 + dy));
    if in_board(c.0, c.1) && space(g, c.0, c.1) {
        lemma_face_ray_iff(g, x, y, dy, s + 1, t);
        if face_ray(g, x, n.1, dy).contains(t) {
            let k = choose|k: int|
                #![trigger pt(x, y, 0, dy, k)]
                k >= s + 1 && t == pt(x, y, 0, dy, k) && occupied(g, t) && abs_val(g[t.1][t.0] as int)
                    == 127 && clear(g, x, y, 0, dy, s + 1, k);
            lemma_clear_step(g, x, y, 0, dy, s, k);
        }
    } else if in_board(c.0, c.1) && abs_val(g[c.1][c.0] as int) == 127 {
        lemma_contains_single(c, t);
        if t == c {
            assert(clear(g, x, y, 0, dy, s, s));
        }
    }
    if exists|k: int|
        #![trigger pt(x, y, 0, dy, k)]
        k >= s && t == pt(x, y, 0, dy, k) && occupied(g, t) && abs_val(g[t.1][t.0] as int) == 127
            && clear(g, x, y, 0, dy, s, k) {
        let k = choose|k: int|
            #![trigger pt(x, y, 0, dy, k)]
            k >= s && t == pt(x, y, 0, dy, k) && occupied(g, t) && abs_val(g[t.1][t.0] as int) == 127
                && clear(g, x, y, 0, dy, s, k);
        if k > s {
            lemma_clear_step(g, x, y, 0, dy, s, k);
        }
    }
}

/// One orthogonal step from `(x, y)`.
pub open spec fn orthogonal_step(x: int, y: int, t: (int, int)) -> bool {
    t == (x + 1, y) || t == (x - 1, y) || t == (x, y + 1) || t == (x, y - 1)
}

/// One diagonal step from `(x, y)`.
pub open spec fn diagonal_step(x: int, y: int, t: (int, int)) -> bool {
    t == (x + 1, y + 1) || t == (x - 1, y + 1) || t == (x - 1, y - 1) || t == (x + 1, y - 1)
}

/// The general rule: one orthogonal step to an empty or enemy square inside
/// its palace, or the capture of a general facing it along an open column.
pub proof fn lemma_general_rule(g: Grid, is_ai: bool, x: int, y: int, t: (int, int))
    ensures
        general_targets(g, is_ai, x, y).contains(t) <==> (movable(g, is_ai, t.0, t.1) && palace(
            is_ai,
            t.0,
            t.1,
        ) && orthogonal_step(x, y, t)) || face_reach(
            g,
            x,
            y,
            if is_ai {
                -1
            } else {
                1
            },
            t,
        ),
{
    let dy: int = if is_ai {
        -1
    } else {
        1
    };
    lemma_face_ray_iff(g, x, y, dy, 1, t);
    assert(pt(x, y, 0, dy, 1).1 == y + dy);
    let h1 = palace_step(g, is_ai, x + 1, y);
    let h2 = palace_step(g, is_ai, x - 1, y);
    let h3 = palace_step(g, is_ai, x, y + 1);
    let h4 = palace_step(g, is_ai, x, y - 1);
    let h5 = face_ray(g, x, y + dy, dy);
    lemma_contains_opt(palace(is_ai, x + 1, y) && movable(g, is_ai, x + 1, y), x + 1, y, t);
    lemma_contains_opt(palace(is_ai, x - 1, y) && movable(g, is_ai, x - 1, y), x - 1, y, t);
    lemma_contains_opt(palace(is_ai, x, y + 1) && movable(g, is_ai, x, y + 1), x, y + 1, t);
    lemma_contains_opt(palace(is_ai, x, y - 1) && movable(g, is_ai, x, y - 1), x, y - 1, t);
    lemma_contains_concat(h1, h2, t);
    lemma_contains_concat(h1 + h2, h3, t);
    lemma_contains_concat(h1 + h2 + h3, h4, t);
    lemma_contains_concat(h1 + h2 + h3 + h4, h5, t);
}

/// The soldier rule: one step forward, and once past the river one step
/// sideways, onto an empty or enemy square.
pub proof fn lemma_soldier_rule(g: Grid, is_ai: bool, x: int, y: int, t: (int, int))
    ensures
        soldier_targets(g, is_ai, x, y).contains(t) <==> movable(g, is_ai, t.0, t.1) && (t == (
            x,
            if is_ai {
                y - 1
            } else {
                y + 1
            },
        ) || ((if is_ai {
            y < 5
        } else {
            y > 4
        }) && (t == (x - 1, y) || t == (x + 1, y)))),
{
    let fy = if is_ai {
        y - 1
    } else {
        y + 1
    };
    let a = opt(movable(g, is_ai, x, fy), x, fy);
    let b = opt(movable(g, is_ai, x - 1, y), x - 1, y);
    let c = opt(movable(g, is_ai, x + 1, y), x + 1, y);
    lemma_contains_opt(movable(g, is_ai, x, fy), x, fy, t);
    lemma_contains_opt(movable(g, is_ai, x - 1, y), x - 1, y, t);
    lemma_contains_opt(movable(g, is_ai, x + 1, y), x + 1, y, t);
    lemma_contains_concat(b, c, t);
    lemma_contains_concat(a, b + c, t);
    lemma_contains_concat(a, seq![], t);
}

/// The advisor rule: one diagonal step to an empty or enemy square inside its palace.
pub proof fn lemma_advisor_rule(g: Grid, is_ai: bool, x: int, y: int, t: (int, int))
    ensures
        advisor_targets(g, is_ai, x, y).contains(t) <==> movable(g, is_ai, t.0, t.1) && palace(
            is_ai,
            t.0,
            t.1,
        ) && diagonal_step(x, y, t),
{
    let h1 = palace_step(g, is_ai, x + 1, y + 1);
    let h2 = palace_step(g, is_ai, x - 1, y + 1);
    let h3 = palace_step(g, is_ai, x - 1, y - 1);
    let h4 = palace_step(g, is_ai, x + 1, y - 1);
    lemma_contains_opt(palace(is_ai, x + 1, y + 1) && movable(g, is_ai, x + 1, y + 1), x + 1, y + 1, t);
    lemma_contains_opt(palace(is_ai, x - 1, y + 1) && movable(g, is_ai, x - 1, y + 1), x - 1, y + 1, t);
    lemma_contains_opt(palace(is_ai, x - 1, y - 1) && movable(g, is_ai, x - 1, y - 1), x - 1, y - 1, t);
    lemma_contains_opt(palace(is_ai, x + 1, y - 1) && movable(g, is_ai, x + 1, y - 1), x + 1, y - 1, t);
    lemma_contains_concat(h1, h2, t);
    lemma_contains_concat(h1 + h2, h3, t);
    lemma_contains_concat(h1 + h2 + h3, h4, t);
}

/// The elephant may step two squares diagonally toward `(dx, dy)`: its
/// eye `(x + dx, y + dy)` is empty and the target is empty or an enemy.
pub open spec fn elephant_leap(g: Grid, is_ai: bool, x: int, y: int, dx: int, dy: int, t: (int, int)) -> bool {
    t == (x + 2 * dx, y + 2 * dy) && space(g, x + dx, y + dy) && movable(g, is_ai, t.0, t.1)
}

/// The elephant rule: two diagonal steps over an empty eye onto an empty or
/// enemy square; toward higher rows only for the engine's side or from
/// rows 0..=3, toward lower rows only for the opponent or from rows 6..=9.
pub proof fn lemma_elephant_rule(g: Grid, is_ai: bool, x: int, y: int, t: (int, int))
    ensures
        elephant_targets(g, is_ai, x, y).contains(t) <==> ((is_ai || y < 4) && (elephant_leap(
            g,
            is_ai,
            x,
            y,
            1,
            1,
            t,
        ) || elephant_leap(g, is_ai, x, y, -1, 1, t))) || ((y > 5 || !is_ai) && (elephant_leap(
            g,
            is_ai,
            x,
            y,
            1,
            -1,
            t,
        ) || elephant_leap(g, is_ai, x, y, -1, -1, t))),
{
    let e1 = elephant_step(g, is_ai, x, y, 1, 1);
    let e2 = elephant_step(g, is_ai, x, y, -1, 1);
    let e3 = elephant_step(g, is_ai, x, y, 1, -1);
    let e4 = elephant_step(g, is_ai, x, y, -1, -1);
    lemma_contains_opt(movable(g, is_ai, x + 2, y + 2), x + 2, y + 2, t);
    lemma_contains_opt(movable(g, is_ai, x - 2, y + 2), x - 2, y + 2, t);
    lemma_contains_opt(movable(g, is_ai, x + 2, y - 2), x + 2, y - 2, t);
    lemma_contains_opt(movable(g, is_ai, x - 2, y - 2), x - 2, y - 2, t);
    lemma_contains_concat(e1, e2, t);
    lemma_contains_concat(e3, e4, t);
    let up = if is_ai || y < 4 {
        e1 + e2
    } else {
        seq![]
    };
    let down = if y > 5 || !is_ai {
        e3 + e4
    } else {
        seq![]
    };
    lemma_contains_concat(up, down, t);
}

/// The horse may jump from `(x, y)` to `t` over the leg `(x + dx, y + dy)`:
/// the leg is empty, `t` is two steps along the leg's direction and one
/// step across it, and `t` is empty or an enemy.
pub open spec fn horse_leap(g: Grid, is_ai: bool, x: int, y: int, dx: int, dy: int, t: (int, int)) -> bool {
    &&& space(g, x + dx, y + dy)
    &&& movable(g, is_ai, t.0, t.1)
    &&& if dx != 0 {
        t == (x + 2 * dx, y + 1) || t == (x + 2 * dx, y - 1)
    } else {
        t == (x + 1, y + 2 * dy) || t == (x - 1, y + 2 * dy)
    }
}

/// The horse rule: one orthogonal step over an empty leg, then one diagonal
/// step outward, onto an empty or enemy square.
pub proof fn lemma_horse_rule(g: Grid, is_ai: bool, x: int, y: int, t: (int, int))
    ensures
        horse_targets(g, is_ai, x, y).contains(t) <==> horse_leap(g, is_ai, x, y, 1, 0, t) || horse_leap(
            g,
            is_ai,
            x,
            y,
            -1,
            0,
            t,
        ) || horse_leap(g, is_ai, x, y, 0, 1, t) || horse_leap(g, is_ai, x, y, 0, -1, t),
{
    lemma_horse_pair_rule(g, is_ai, x, y, 1, 0, t);
    lemma_horse_pair_rule(g, is_ai, x, y, -1, 0, t);
    lemma_horse_pair_rule(g, is_ai, x, y, 0, -1, t);
    lemma_horse_pair_rule(g, is_ai, x, y, 0, 1, t);
    let h1 = horse_pair(g, is_ai, x, y, 1, 0);
    let h2 = horse_pair(g, is_ai, x, y, -1, 0);
    let h3 = horse_pair(g, is_ai, x, y, 0, -1);
    let h4 = horse_pair(g, is_ai, x, y, 0, 1);
    lemma_contains_concat(h1, h2, t);
    lemma_contains_concat(h1 + h2, h3, t);
    lemma_contains_concat(h1 + h2 + h3, h4, t);
}

proof fn lemma_horse_pair_rule(g: Grid, is_ai: bool, x: int, y: int, dx: int, dy: int, t: (int, int))
    requires
        unit(dx, dy),
    ensures
        horse_pair(g, is_ai, x, y, dx, dy).contains(t) <==> horse_leap(g, is_ai, x, y, dx, dy, t),
{
    if dx != 0 {
        lemma_contains_opt(movable(g, is_ai, x + 2 * dx, y + 1), x + 2 * dx, y + 1, t);
        lemma_contains_opt(movable(g, is_ai, x + 2 * dx, y - 1), x + 2 * dx, y - 1, t);
        lemma_contains_concat(
            opt(movable(g, is_ai, x + 2 * dx, y + 1), x + 2 * dx, y + 1),
            opt(movable(g, is_ai, x + 2 * dx, y - 1), x + 2 * dx, y - 1),
            t,
        );
    } else {
        lemma_contains_opt(movable(g, is_ai, x + 1, y + 2 * dy), x + 1, y + 2 * dy, t);
        lemma_contains_opt(movable(g, is_ai, x - 1, y + 2 * dy), x - 1, y + 2 * dy, t);
        lemma_contains_concat(
            opt(movable(g, is_ai, x + 1, y + 2 * dy), x + 1, y + 2 * dy),
            opt(movable(g, is_ai, x - 1, y + 2 * dy), x - 1, y + 2 * dy),
            t,
        );
    }
}

/// The piece on `(x, y)` may go to `t` by the rule of its kind.
pub open spec fn follows_rule(g: Grid, is_ai: bool, x: int, y: int, t: (int, int)) -> bool {
    let p = abs_val(g[y][x] as int);
    if p == 1 {
        movable(g, is_ai, t.0, t.1) && (t == (
            x,
            if is_ai {
                y - 1
            } else {
                y + 1
            },
        ) || ((if is_ai {
            y < 5
        } else {
            y > 4
        }) && (t == (x - 1, y) || t == (x + 1, y))))
    } else if p == 2 {
        movable(g, is_ai, t.0, t.1) && palace(is_ai, t.0, t.1) && diagonal_step(x, y, t)
    } else if p == 3 {
        ((is_ai || y < 4) && (elephant_leap(g, is_ai, x, y, 1, 1, t) || elephant_leap(
            g,
            is_ai,
            x,
            y,
            -1,
            1,
            t,
        ))) || ((y > 5 || !is_ai) && (elephant_leap(g, is_ai, x, y, 1, -1, t) || elephant_leap(
            g,
            is_ai,
            x,
            y,
            -1,
            -1,
            t,
        )))
    } else if p == 5 {
        horse_leap(g, is_ai, x, y, 1, 0, t) || horse_leap(g, is_ai, x, y, -1, 0, t) || horse_leap(
            g,
            is_ai,
            x,
            y,
            0,
            1,
            t,
        ) || horse_leap(g, is_ai, x, y, 0, -1, t)
    } else if p == 6 {
        cannon_reach(g, is_ai, x, y, t)
    } else if p == 10 {
        chariot_reach(g, is_ai, x, y, t)
    } else if p == 127 {
        (movable(g, is_ai, t.0, t.1) && palace(is_ai, t.0, t.1) && orthogonal_step(x, y, t))
            || face_reach(
            g,
            x,
            y,
            if is_ai {
                -1
            } else {
                1
            },
            t,
        )
    } else {
        false
    }
}

/// Law: the squares the generator gives for `(x, y)` are exactly those the
/// piece standing there may go to by the rule of its kind, and none unless
/// the square is on the board and holds a piece of the side to move.
pub proof fn lemma_piece_rule(g: Grid, is_ai: bool, x: int, y: int, t: (int, int))
    ensures
        piece_targets(g, is_ai, x, y).contains(t) <==> in_board(x, y) && own(g, is_ai, x, y)
            && follows_rule(g, is_ai, x, y, t),
{
    reveal(targets);
    lemma_soldier_rule(g, is_ai, x, y, t);
    lemma_advisor_rule(g, is_ai, x, y, t);
    lemma_elephant_rule(g, is_ai, x, y, t);
    lemma_horse_rule(g, is_ai, x, y, t);
    lemma_cannon_rule(g, is_ai, x, y, t);
    lemma_chariot_rule(g, is_ai, x, y, t);
    lemma_general_rule(g, is_ai, x, y, t);
    let e: Seq<(int, int)> = seq![];
    assert(!e.contains(t));
}

} // verus!
