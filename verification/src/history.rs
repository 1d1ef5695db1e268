use vstd::prelude::*;
use crate::action::Action;
use crate::board::{applied, grid, in_board, lemma_revert_after_move, reverted, shaped, Board, Grid};

verus! {

/// How many moves a history can hold.
pub const HISTORY_CAPACITY: usize = 64;

/// Both squares of the move lie on the board.
pub open spec fn on_board(a: Action) -> bool {
    in_board(a.src.x as int, a.src.y as int) && in_board(a.tar.x as int, a.tar.y as int)
}

/// The moves made so far, oldest first, so that they can be taken back.
pub struct History {
    actions: Vec<Action>,
}

impl View for History {
    type V = Seq<Action>;

    closed spec fn view(&self) -> Seq<Action> {
        self.actions@
    }
}

impl History {
    /// At most `HISTORY_CAPACITY` moves, each with both squares on the board.
    pub closed spec fn wf(&self) -> bool {
        &&& self.actions@.len() <= HISTORY_CAPACITY
        &&& forall|i: int| 0 <= i < self.actions@.len() ==> on_board(#[trigger] self.actions@[i])
    }

    /// An empty history.
    pub fn new() -> (h: History)
        ensures
            h.wf(),
            h@ == Seq::<Action>::empty(),
    {
        History { actions: Vec::new() }
    }

    /// How many moves are recorded.
    pub fn len(&self) -> (n: usize)
        ensures
            n == self@.len(),
    {
        self.actions.len()
    }

    pub proof fn lemma_wf(&self)
        requires
            self.wf(),
        ensures
            self@.len() <= HISTORY_CAPACITY,
            forall|i: int| 0 <= i < self@.len() ==> on_board(#[trigger] self@[i]),
    {
    }
}

/// Moves the piece on `act.src` to `act.tar`, stores in `act.removed` what
/// stood on the target, and, when `record` holds, appends the move to `history`.
pub fn do_action(board: &mut Board, act: &mut Action, record: bool, history: &mut History)
    requires
        on_board(*old(act)),
        old(history).wf(),
        record ==> old(history)@.len() < HISTORY_CAPACITY,
    ensures
        final(act).src == old(act).src,
        final(act).tar == old(act).tar,
        final(act).removed == old(board)[old(act).tar.y as int][old(act).tar.x as int],
        grid(*final(board)) == applied(
            grid(*old(board)),
            old(act).src.x as int,
            old(act).src.y as int,
            old(act).tar.x as int,
            old(act).tar.y as int,
        ),
        final(history).wf(),
        record ==> final(history)@ == old(history)@.push(*final(act)),
        !record ==> final(history)@ == old(history)@,
{
    let ghost g = grid(*board);
    let tx = act.tar.x as usize;
    let ty = act.tar.y as usize;
    let sx = act.src.x as usize;
    let sy = act.src.y as usize;
    act.removed = board[ty][tx];
    board[ty][tx] = board[sy][sx];
    board[sy][sx] = 0;
    assert(grid(*board) =~~= applied(g, sx as int, sy as int, tx as int, ty as int));
    if record {
        history.actions.push(*act);
    }
}

/// Takes back the last recorded move: its piece returns to its source and
/// what it removed returns to its target.
pub fn undo(board: &mut Board, history: &mut History)
    requires
        old(history).wf(),
        old(history)@.len() > 0,
    ensures
        final(history).wf(),
        final(history)@ == old(history)@.drop_last(),
        grid(*final(board)) == reverted(
            grid(*old(board)),
            old(history)@.last().src.x as int,
            old(history)@.last().src.y as int,
            old(history)@.last().tar.x as int,
            old(history)@.last().tar.y as int,
            old(history)@.last().removed,
        ),
{
    let ghost g = grid(*board);
    let ghost h = history@;
    let last = history.actions.pop();
    let act = last.unwrap();
    assert(on_board(h[h.len() - 1]));
    let tx = act.tar.x as usize;
    let ty = act.tar.y as usize;
    let sx = act.src.x as usize;
    let sy = act.src.y as usize;
    board[sy][sx] = board[ty][tx];
    board[ty][tx] = act.removed;
    assert(grid(*board) =~~= reverted(g, sx as int, sy as int, tx as int, ty as int, act.removed));
}

/// Law: recording a move and taking it back leaves the history as it was.
pub proof fn lemma_record_then_undo(h: Seq<Action>, a: Action)
    ensures
        h.push(a).drop_last() == h,
        h.push(a).last() == a,
{
    assert(h.push(a).drop_last() =~= h);
}

/// The grid after the moves of `ms` are made in order.
pub open spec fn play(g: Grid, ms: Seq<Action>) -> Grid
    decreases ms.len(),
{
    if ms.len() == 0 {
        g
    } else {
        let a = ms.last();
        applied(play(g, ms.drop_last()), a.src.x as int, a.src.y as int, a.tar.x as int, a.tar.y as int)
    }
}

/// The moves of `ms` as `do_action` records them when made in order from
/// `g`: each remembers what stood on its target at its turn.
pub open spec fn recorded(g: Grid, ms: Seq<Action>) -> Seq<Action>
    decreases ms.len(),
{
    if ms.len() == 0 {
        seq![]
    } else {
        let a = ms.last();
        let before = play(g, ms.drop_last());
        recorded(g, ms.drop_last()).push(
            Action { removed: before[a.tar.y as int][a.tar.x as int], ..a },
        )
    }
}

/// The grid after the recorded moves `rs` are taken back, the last one first.
pub open spec fn take_back(g: Grid, rs: Seq<Action>) -> Grid
    decreases rs.len(),
{
    if rs.len() == 0 {
        g
    } else {
        let a = rs.last();
        take_back(
            reverted(g, a.src.x as int, a.src.y as int, a.tar.x as int, a.tar.y as int, a.removed),
            rs.drop_last(),
        )
    }
}

proof fn lemma_play_shaped(g: Grid, ms: Seq<Action>)
    requires
        shaped(g),
        forall|i: int| 0 <= i < ms.len() ==> on_board(#[trigger] ms[i]),
    ensures
        shaped(play(g, ms)),
    decreases ms.len(),
{
    if ms.len() > 0 {
        let rest = ms.drop_last();
        assert forall|i: int| 0 <= i < rest.len() implies on_board(#[trigger] rest[i]) by {
            assert(rest[i] == ms[i]);
        }
        lemma_play_shaped(g, rest);
        assert(on_board(ms[ms.len() - 1]));
    }
}

/// Law: making any number of moves with `do_action` and recording them, then
/// taking them all back with `undo` (last first), restores the board; the
/// history grows by the recorded moves, `undo` finds them on top in reverse
/// order, and taking them all off leaves the history as it was.
pub proof fn lemma_take_back_all(g: Grid, h: Seq<Action>, ms: Seq<Action>)
    requires
        shaped(g),
        forall|i: int| 0 <= i < ms.len() ==> on_board(#[trigger] ms[i]),
    ensures
        recorded(g, ms).len() == ms.len(),
        take_back(play(g, ms), recorded(g, ms)) == g,
        forall|j: int|
            1 <= j <= ms.len() ==> (#[trigger] (h + recorded(g, ms).take(j))).last() == recorded(
                g,
                ms,
            )[j - 1] && (h + recorded(g, ms).take(j)).drop_last() == h + recorded(g, ms).take(j - 1),
        (h + recorded(g, ms)).take(h.len() as int) == h,
    decreases ms.len(),
{
    let rs = recorded(g, ms);
    if ms.len() > 0 {
        let rest = ms.drop_last();
        assert forall|i: int| 0 <= i < rest.len() implies on_board(#[trigger] rest[i]) by {
            assert(rest[i] == ms[i]);
        }
        lemma_take_back_all(g, h, rest);
        lemma_play_shaped(g, rest);
        let a = ms.last();
        assert(on_board(ms[ms.len() - 1]));
        let p = play(g, rest);
        lemma_revert_after_move(p, a.src.x as int, a.src.y as int, a.tar.x as int, a.tar.y as int);
        assert(rs.drop_last() =~= recorded(g, rest));
        assert forall|j: int| 1 <= j <= ms.len() implies (#[trigger] (h + rs.take(j))).last() == rs[j - 1]
            && (h + rs.take(j)).drop_last() == h + rs.take(j - 1) by {
            assert((h + rs.take(j)).drop_last() =~= h + rs.take(j - 1));
        }
    }
    assert((h + rs).take(h.len() as int) =~= h);
}

} // verus!
