use chinese_chess::action::{Action, Coord};
use chinese_chess::board::{
    abs, can_move, copy_board, get_score, is_in_board, is_in_nine_palaces, is_space, Board,
};
use chinese_chess::history::{do_action, undo, History, HISTORY_CAPACITY};

fn opening() -> Board {
    [
        [-10, -5, -3, -2, -127, -2, -3, -5, -10],
        [0, 0, 0, 0, 0, 0, 0, 0, 0],
        [0, -6, 0, 0, 0, 0, 0, -6, 0],
        [-1, 0, -1, 0, -1, 0, -1, 0, -1],
        [0, 0, 0, 0, 0, 0, 0, 0, 0],
        [0, 0, 0, 0, 0, 0, 0, 0, 0],
        [1, 0, 1, 0, 1, 0, 1, 0, 1],
        [0, 6, 0, 0, 0, 0, 0, 6, 0],
        [0, 0, 0, 0, 0, 0, 0, 0, 0],
        [10, 5, 3, 2, 127, 2, 3, 5, 10],
    ]
}

#[test]
fn coord_new_keeps_fields() {
    let c = Coord::new(3, 7);
    assert_eq!(c.x, 3);
    assert_eq!(c.y, 7);
}

#[test]
fn action_new_has_nothing_removed() {
    let a = Action::new(1, 2, 3, 4);
    assert_eq!(a.src, Coord::new(1, 2));
    assert_eq!(a.tar, Coord::new(3, 4));
    assert_eq!(a.removed, 0);
}

#[test]
fn action_from_copies_every_field() {
    let mut a = Action::new(0, 0, 0, 0);
    let mut b = Action::new(8, 9, 7, 6);
    b.removed = -10;
    a.from(&b);
    assert_eq!(a, b);
    assert_eq!(a.removed, -10);
}

#[test]
fn copy_board_copies_all_cells() {
    let mut t: Board = [[0; 9]; 10];
    copy_board(&mut t, opening());
    assert_eq!(t, opening());
}

#[test]
fn score_of_opening_is_zero() {
    assert_eq!(get_score(opening()), 0);
}

#[test]
fn score_sums_cells() {
    let mut b: Board = [[0; 9]; 10];
    b[0][0] = 127;
    b[9][8] = -10;
    b[5][4] = 6;
    assert_eq!(get_score(b), 123);
    let mut full: Board = [[-128; 9]; 10];
    assert_eq!(get_score(full), -11520);
    full = [[127; 9]; 10];
    assert_eq!(get_score(full), 11430);
}

#[test]
fn abs_of_cells() {
    assert_eq!(abs(-127), 127);
    assert_eq!(abs(6), 6);
    assert_eq!(abs(0), 0);
    assert_eq!(abs(-1), 1);
}

#[test]
fn board_edges() {
    assert!(is_in_board(0, 0));
    assert!(is_in_board(8, 9));
    assert!(!is_in_board(9, 0));
    assert!(!is_in_board(0, 10));
    assert!(!is_in_board(255, 3));
}

#[test]
fn spaces_and_moves() {
    let b = opening();
    assert!(is_space(b, 4, 4));
    assert!(!is_space(b, 4, 9));
    assert!(!is_space(b, 9, 4));
    // the engine's side (positive pieces) may go to empty or negative cells
    assert!(can_move(b, true, 4, 4));
    assert!(can_move(b, true, 4, 0));
    assert!(!can_move(b, true, 4, 9));
    assert!(can_move(b, false, 4, 9));
    assert!(!can_move(b, false, 4, 0));
    assert!(!can_move(b, false, 9, 9));
}

#[test]
fn palaces() {
    assert!(is_in_nine_palaces(true, 4, 8));
    assert!(is_in_nine_palaces(true, 3, 7));
    assert!(!is_in_nine_palaces(true, 4, 6));
    assert!(!is_in_nine_palaces(true, 2, 8));
    assert!(is_in_nine_palaces(false, 5, 2));
    assert!(is_in_nine_palaces(false, 3, 0));
    assert!(!is_in_nine_palaces(false, 4, 3));
    assert!(!is_in_nine_palaces(false, 6, 1));
}

#[test]
fn do_action_moves_and_records() {
    let mut b = opening();
    let mut h = History::new();
    let mut a = Action::new(1, 7, 1, 0);
    do_action(&mut b, &mut a, true, &mut h);
    assert_eq!(a.removed, -5);
    assert_eq!(b[0][1], 6);
    assert_eq!(b[7][1], 0);
    assert_eq!(h.len(), 1);
    // the score drops by what was removed
    assert_eq!(get_score(b), get_score(opening()) - (-5));
}

#[test]
fn do_action_without_record_leaves_history() {
    let mut b = opening();
    let mut h = History::new();
    let mut a = Action::new(0, 6, 0, 5);
    do_action(&mut b, &mut a, false, &mut h);
    assert_eq!(h.len(), 0);
    assert_eq!(b[5][0], 1);
    assert_eq!(a.removed, 0);
}

#[test]
fn do_action_in_place_empties_the_square() {
    let mut b = opening();
    let mut h = History::new();
    let mut a = Action::new(0, 0, 0, 0);
    do_action(&mut b, &mut a, true, &mut h);
    assert_eq!(b[0][0], 0);
    assert_eq!(a.removed, -10);
    undo(&mut b, &mut h);
    assert_eq!(b, opening());
}

#[test]
fn undo_takes_back_moves_in_reverse_order() {
    let mut b = opening();
    let mut h = History::new();
    let mut a1 = Action::new(1, 7, 1, 0);
    do_action(&mut b, &mut a1, true, &mut h);
    let after_first = b;
    let mut a2 = Action::new(0, 0, 1, 0);
    do_action(&mut b, &mut a2, true, &mut h);
    assert_eq!(a2.removed, 6);
    assert_eq!(h.len(), 2);
    undo(&mut b, &mut h);
    assert_eq!(b, after_first);
    assert_eq!(h.len(), 1);
    undo(&mut b, &mut h);
    assert_eq!(b, opening());
    assert_eq!(h.len(), 0);
}

#[test]
fn history_holds_up_to_capacity() {
    let mut b = opening();
    let mut h = History::new();
    for _ in 0..HISTORY_CAPACITY {
        let mut a = Action::new(4, 4, 4, 5);
        do_action(&mut b, &mut a, true, &mut h);
    }
    assert_eq!(h.len(), 64);
    for _ in 0..HISTORY_CAPACITY {
        undo(&mut b, &mut h);
    }
    assert_eq!(b, opening());
}

#[test]
fn palaces_lie_on_the_board() {
    for side in [true, false] {
        for x in 0..=255u8 {
            for y in 0..=255u8 {
                if is_in_nine_palaces(side, x, y) {
                    assert!(is_in_board(x, y));
                }
            }
        }
    }
}

#[test]
fn every_move_keeps_the_score_law() {
    let b0 = opening();
    for sy in 0..10u8 {
        for sx in 0..9u8 {
            for ty in 0..10u8 {
                for tx in 0..9u8 {
                    let mut b = b0;
                    let mut h = History::new();
                    let mut a = Action::new(sx, sy, tx, ty);
                    do_action(&mut b, &mut a, true, &mut h);
                    assert_eq!(get_score(b), get_score(b0) - a.removed as i16);
                    undo(&mut b, &mut h);
                    assert_eq!(b, b0);
                }
            }
        }
    }
}

#[test]
fn many_moves_taken_back_in_reverse_restore_everything() {
    let mut b = opening();
    let mut h = History::new();
    let mut first = Action::new(4, 6, 4, 5);
    do_action(&mut b, &mut first, true, &mut h);
    let start = b;
    let moves = [(1, 7, 1, 0), (0, 0, 1, 0), (4, 9, 4, 8), (1, 0, 1, 9), (7, 2, 7, 9)];
    let mut made = Vec::new();
    for (x1, y1, x2, y2) in moves {
        let mut a = Action::new(x1, y1, x2, y2);
        do_action(&mut b, &mut a, true, &mut h);
        made.push(a);
    }
    assert_eq!(h.len(), 6);
    assert_eq!(made[1].removed, 6);
    assert_eq!(made[3].removed, 5);
    for _ in 0..moves.len() {
        undo(&mut b, &mut h);
    }
    assert_eq!(b, start);
    assert_eq!(h.len(), 1);
}
