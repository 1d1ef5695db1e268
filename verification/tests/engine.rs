use chinese_chess::action::{Action, Coord};
use chinese_chess::board::{abs, can_move, get_score, is_in_board, Board};
use chinese_chess::history::{History, HISTORY_CAPACITY};
use chinese_chess::moves::gen_targets;
use chinese_chess::search::{run_ai, search};

fn opening() -> Board {
    [
        [-10, -5, -3, -2, -127, -2, -3, -5, -10],
        [0, 0, 0, 0, 0, 0, 0, 0, 0],
        [0, -6, 0, 0, 0, 0, 0, -6, 0],
        [-1, 0, -1, 0, -1, 0, -1, 0, -1],
        [0, 0, 0, 0, 0, 0, 0, 0, 0],
        [0, 0, 0, 0, 0, 0, 0, 0, 0],
        [1, 0, 1, 0, 1, 0, 1, 0, 1],
        [0, 6, 0, 0, 0, 0, 0, 6, 0],
        [0, 0, 0, 0, 0, 0, 0, 0, 0],
        [10, 5, 3, 2, 127, 2, 3, 5, 10],
    ]
}

fn squares(v: &[Coord]) -> Vec<(u8, u8)> {
    v.iter().map(|c| (c.x, c.y)).collect()
}

#[test]
fn opening_chariot_moves() {
    assert_eq!(squares(&gen_targets(&opening(), true, 0, 9)), vec![(0, 8), (0, 7)]);
}

#[test]
fn opening_cannon_moves_and_jump() {
    assert_eq!(
        squares(&gen_targets(&opening(), true, 1, 7)),
        vec![(2, 7), (3, 7), (4, 7), (5, 7), (6, 7), (0, 7), (1, 8), (1, 6), (1, 5), (1, 4), (1, 3), (1, 0)]
    );
}

#[test]
fn opening_soldier_horse_elephant_advisor_general() {
    let b = opening();
    assert_eq!(squares(&gen_targets(&b, true, 0, 6)), vec![(0, 5)]);
    assert_eq!(squares(&gen_targets(&b, true, 1, 9)), vec![(2, 7), (0, 7)]);
    assert_eq!(squares(&gen_targets(&b, true, 2, 9)), vec![(4, 7), (0, 7)]);
    assert_eq!(squares(&gen_targets(&b, true, 3, 9)), vec![(4, 8)]);
    assert_eq!(squares(&gen_targets(&b, true, 4, 9)), vec![(4, 8)]);
    // the other side, from the top of the board
    assert_eq!(squares(&gen_targets(&b, false, 0, 3)), vec![(0, 4)]);
    assert_eq!(squares(&gen_targets(&b, false, 4, 0)), vec![(4, 1)]);
}

#[test]
fn empty_or_foreign_square_has_no_moves() {
    let b = opening();
    assert!(gen_targets(&b, true, 4, 4).is_empty());
    assert!(gen_targets(&b, true, 4, 0).is_empty());
    assert!(gen_targets(&b, false, 4, 9).is_empty());
}

#[test]
fn soldier_past_the_river_moves_sideways() {
    let mut b: Board = [[0; 9]; 10];
    b[4][0] = 1;
    b[4][1] = -3;
    assert_eq!(squares(&gen_targets(&b, true, 0, 4)), vec![(0, 3), (1, 4)]);
    let mut c: Board = [[0; 9]; 10];
    c[5][8] = -1;
    assert_eq!(squares(&gen_targets(&c, false, 8, 5)), vec![(8, 6), (7, 5)]);
}

#[test]
fn horse_leg_blocked() {
    let mut b: Board = [[0; 9]; 10];
    b[5][4] = 5;
    b[5][5] = 1;
    assert_eq!(
        squares(&gen_targets(&b, true, 4, 5)),
        vec![(2, 6), (2, 4), (5, 3), (3, 3), (5, 7), (3, 7)]
    );
}

#[test]
fn generals_facing_on_open_column() {
    let mut b: Board = [[0; 9]; 10];
    b[9][4] = 127;
    b[0][4] = -127;
    assert_eq!(squares(&gen_targets(&b, true, 4, 9)), vec![(5, 9), (3, 9), (4, 8), (4, 0)]);
    assert_eq!(squares(&gen_targets(&b, false, 4, 0)), vec![(5, 0), (3, 0), (4, 1), (4, 9)]);
    b[5][4] = 1;
    assert_eq!(squares(&gen_targets(&b, true, 4, 9)), vec![(5, 9), (3, 9), (4, 8)]);
}

#[test]
fn search_depth_zero_is_the_score() {
    let mut b = opening();
    b[0][0] = 0;
    let mut slot = Some(Action::new(0, 0, 0, 0));
    assert_eq!(search(&mut slot, b, true, 0, -2000, 2000), 10);
    assert_eq!(slot, Some(Action::new(0, 0, 0, 0)));
}

fn lone_generals() -> Board {
    let mut b: Board = [[0; 9]; 10];
    b[9][4] = 127;
    b[0][3] = -127;
    b
}

#[test]
fn search_depth_one_with_quiet_moves() {
    // every move of the lone general leaves the score at 0
    let b = lone_generals();
    let mut slot = Some(Action::new(0, 0, 0, 0));
    let v = search(&mut slot, b, true, 1, -2000, 2000);
    assert_eq!(v, 0);
    let a = slot.unwrap();
    assert_eq!(a.src, Coord::new(4, 9));
    assert!([(5, 9), (3, 9), (4, 8)].contains(&(a.tar.x, a.tar.y)));
    assert_eq!(a.removed, 0);
}

#[test]
fn search_without_slot_leaves_it_empty() {
    let mut slot: Option<Action> = None;
    assert_eq!(search(&mut slot, lone_generals(), true, 1, -2000, 2000), 0);
    assert_eq!(slot, None);
}

#[test]
fn search_no_move_gives_alpha() {
    let mut b: Board = [[0; 9]; 10];
    b[0][3] = -127;
    let mut slot = Some(Action::new(0, 0, 0, 0));
    assert_eq!(search(&mut slot, b, true, 3, -500, 700), -500);
    assert_eq!(slot, Some(Action::new(0, 0, 0, 0)));
}

fn capture_board() -> Board {
    let mut b = lone_generals();
    b[5][3] = 10;
    b
}

#[test]
fn capture_of_general_at_odd_depth() {
    // a capture at odd depth is worth 255 times the score, wrapped to i16:
    // 255 * 137 wraps to -30601, so a quiet move (worth -10) is preferred
    let mut slot = Some(Action::new(0, 0, 0, 0));
    assert_eq!(search(&mut slot, capture_board(), true, 1, -2000, 2000), -10);
    let a = slot.unwrap();
    assert_ne!((a.tar.x, a.tar.y), (3, 0));
}

#[test]
fn capture_of_general_at_even_depth() {
    // at even depth the capture is worth the score after it, 137
    let mut slot = Some(Action::new(0, 0, 0, 0));
    let v = search(&mut slot, capture_board(), true, 2, -2000, 2000);
    assert!(v >= 137 && v <= 2000);
}

#[test]
fn search_value_fills_the_window() {
    // the value for a window is the open-window value clamped into it
    let b = capture_board();
    let v = search(&mut None, b, true, 2, -2000, 2000);
    assert_eq!(search(&mut None, b, true, 2, v - 1, v + 1), v);
    assert_eq!(search(&mut None, b, true, 2, v, v + 5), v);
    assert_eq!(search(&mut None, b, true, 2, v + 1, v + 9), v + 1);
    assert_eq!(search(&mut None, b, true, 2, v - 9, v - 1), v - 1);
}

#[test]
fn search_value_does_not_depend_on_the_draws() {
    let b = opening();
    let v = search(&mut None, b, true, 2, -2000, 2000);
    for _ in 0..5 {
        assert_eq!(search(&mut None, b, true, 2, -2000, 2000), v);
    }
}

#[test]
fn empty_window_gives_alpha_or_beta() {
    // with alpha >= beta the result is beta when some move reaches beta, else alpha
    let b = capture_board();
    assert_eq!(search(&mut None, b, true, 2, 1900, -1900), -1900);
    let r = search(&mut None, b, true, 2, 300, 250);
    assert!(r == 300 || r == 250);
    let mut lone: Board = [[0; 9]; 10];
    lone[0][3] = -127;
    assert_eq!(search(&mut None, lone, true, 3, 700, -500), 700);
}

#[test]
fn engine_plays_from_the_opening() {
    let mut b = opening();
    let mut h = History::new();
    let (v, a) = run_ai(&mut b, &mut h);
    assert!(v >= -2000 && v <= 2000);
    assert_eq!(h.len(), 1);
    let before = opening();
    assert_eq!(a.removed, before[a.tar.y as usize][a.tar.x as usize]);
    assert!(before[a.src.y as usize][a.src.x as usize] > 0);
    assert_eq!(b[a.tar.y as usize][a.tar.x as usize], before[a.src.y as usize][a.src.x as usize]);
    assert_eq!(b[a.src.y as usize][a.src.x as usize], 0);
    assert_eq!(get_score(b), get_score(before) - a.removed as i16);
    assert!(HISTORY_CAPACITY > h.len());
}

#[test]
fn every_target_is_fair() {
    let mut boards = vec![opening()];
    let mut g: Board = [[0; 9]; 10];
    g[9][4] = 127;
    g[0][4] = -127;
    g[4][4] = 6;
    g[6][4] = -10;
    g[2][4] = 5;
    boards.push(g);
    for b in boards {
        for side in [true, false] {
            for y in 0..10u8 {
                for x in 0..9u8 {
                    for t in gen_targets(&b, side, x, y) {
                        assert!(is_in_board(t.x, t.y));
                        assert!((t.x, t.y) != (x, y));
                        assert!(
                            can_move(b, side, t.x, t.y)
                                || abs(b[t.y as usize][t.x as usize]) == 127
                        );
                    }
                }
            }
        }
    }
}

#[test]
fn search_stays_in_its_window() {
    let b = capture_board();
    for (lo, hi) in [(-2000, 2000), (-5, 5), (150, 300), (-300, -150), (40, -40)] {
        let r = search(&mut None, b, true, 2, lo, hi);
        assert!(r >= lo.min(hi) && r <= lo.max(hi));
    }
}
