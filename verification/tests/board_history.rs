//! Tests of the board state machine and the undo/redo history.

use greenboard::board::Board;
use greenboard::history::{Move, MoveStack};
use greenboard::magma::{Diagma, FailType};

fn fwd(x: usize, y: usize) -> Move {
    Move { x, y, d: 1 }
}

#[test]
fn move_inversion_and_location() {
    let m = Move::new(2, 3);
    assert_eq!((m.x, m.y, m.d), (2, 3, 1));
    assert_eq!(m.loc(), (2, 3));
    let i = m.inv();
    assert_eq!((i.x, i.y, i.d), (2, 3, -1));
    assert_eq!(i.inv().d, 1);
}

#[test]
fn stack_push_undo_redo() {
    let mut s = MoveStack::new();
    assert_eq!(s.undo(), None);
    assert_eq!(s.redo(), None);
    let a = fwd(0, 0);
    let b = fwd(1, 1);
    s.push(a);
    s.push(b);
    let u1 = s.undo().unwrap();
    assert_eq!((u1.x, u1.y), (1, 1));
    let r1 = s.redo().unwrap();
    assert_eq!((r1.x, r1.y), (1, 1));
    assert_eq!(s.redo(), None);
}

#[test]
fn stack_push_truncates_undone_tail() {
    let mut s = MoveStack::new();
    s.push(fwd(0, 0));
    s.push(fwd(1, 1));
    s.undo();
    s.push(fwd(2, 2));
    // the undone move at (1,1) is gone: undoing walks (2,2) then (0,0)
    let u1 = s.undo().unwrap();
    assert_eq!((u1.x, u1.y), (2, 2));
    let u2 = s.undo().unwrap();
    assert_eq!((u2.x, u2.y), (0, 0));
    assert_eq!(s.undo(), None);
}

#[test]
fn fresh_board_starts_at_init() {
    let b = Board::new(4, Diagma::Cyclic { order: 3 });
    assert_eq!(b.size, 4);
    assert_eq!(b.pieces, vec![vec![1; 4]; 4]);
    let t = Board::new(2, Diagma::Table { table: vec![vec![0, 1], vec![1, 0]] });
    assert_eq!(t.pieces, vec![vec![0; 2], vec![0; 2]]);
}

#[test]
fn press_updates_the_cross() {
    // a 4x4 board over the cyclic structure of order 3 starts all ones;
    // pressing (1,1) doubles the cell and its orthogonal neighbors
    let mut b = Board::new(4, Diagma::Cyclic { order: 3 });
    b.apply_move(fwd(1, 1)).unwrap();
    let expected = vec![
        vec![1, 2, 1, 1],
        vec![2, 2, 2, 1],
        vec![1, 2, 1, 1],
        vec![1, 1, 1, 1],
    ];
    assert_eq!(b.pieces, expected);
}

#[test]
fn press_skips_out_of_bounds_neighbors() {
    let mut b = Board::new(2, Diagma::Cyclic { order: 5 });
    b.apply_move(fwd(0, 0)).unwrap();
    assert_eq!(b.pieces, vec![vec![2, 2], vec![2, 1]]);
}

#[test]
fn forward_then_inverse_press_restores_grid() {
    let mut b = Board::new(3, Diagma::Cyclic { order: 5 });
    // reach a non-trivial state first
    b.press(fwd(0, 0)).unwrap();
    b.press(fwd(2, 1)).unwrap();
    let before = b.pieces.clone();
    b.press(Move { x: 1, y: 1, d: 1 }).unwrap();
    assert_ne!(b.pieces, before);
    b.press(Move { x: 1, y: 1, d: -1 }).unwrap();
    assert_eq!(b.pieces, before);
}

#[test]
fn undo_redo_round_trip() {
    let mut b = Board::new(3, Diagma::Cyclic { order: 3 });
    let initial = b.pieces.clone();
    b.apply_move(fwd(0, 0)).unwrap();
    b.apply_move(fwd(1, 2)).unwrap();
    b.apply_move(fwd(2, 1)).unwrap();
    let scrambled = b.pieces.clone();
    assert_ne!(scrambled, initial);
    b.undo().unwrap();
    b.undo().unwrap();
    b.undo().unwrap();
    assert_eq!(b.pieces, initial);
    // every recorded move is undone: the cursor sits at the full length
    assert_eq!(b.undo_stack.index, 3);
    assert_eq!(b.undo_stack.stack.len(), 3);
    assert!(matches!(b.undo(), Err(FailType::UndoEmpty)));
    b.redo().unwrap();
    b.redo().unwrap();
    b.redo().unwrap();
    assert_eq!(b.pieces, scrambled);
    assert_eq!(b.undo_stack.index, 0);
    assert!(matches!(b.redo(), Err(FailType::RedoEmpty)));
}

#[test]
fn inverse_move_applies_and_undoes() {
    let mut b = Board::new(3, Diagma::Cyclic { order: 5 });
    let initial = b.pieces.clone();
    b.apply_move(Move { x: 1, y: 1, d: -1 }).unwrap();
    let after = b.pieces.clone();
    assert_ne!(after, initial);
    b.undo().unwrap();
    assert_eq!(b.pieces, initial);
    b.redo().unwrap();
    assert_eq!(b.pieces, after);
}

#[test]
fn branch_truncation_forecloses_redo() {
    let mut b = Board::new(3, Diagma::Cyclic { order: 3 });
    b.apply_move(fwd(0, 0)).unwrap();
    b.apply_move(fwd(1, 1)).unwrap();
    b.undo().unwrap();
    b.apply_move(fwd(2, 2)).unwrap();
    assert!(matches!(b.redo(), Err(FailType::RedoEmpty)));
}

#[test]
fn zero_magnitude_move_is_never_recorded() {
    let mut b = Board::new(3, Diagma::Cyclic { order: 3 });
    let before = b.pieces.clone();
    b.apply_move(Move { x: 1, y: 1, d: 0 }).unwrap();
    assert_eq!(b.pieces, before);
    assert!(matches!(b.undo(), Err(FailType::UndoEmpty)));
}

#[test]
fn failed_press_leaves_board_untouched() {
    // column 1 of this table never takes the value 0, so a right quotient
    // by 1 of a cell holding 0 is undefined
    let t = Diagma::Table { table: vec![vec![0, 1], vec![0, 1]] };
    let mut b = Board::new(2, t);
    b.pieces[0][0] = 1;
    let before = b.pieces.clone();
    let r = b.press(Move { x: 0, y: 0, d: -1 });
    assert!(matches!(r, Err(FailType::NoDiv)));
    assert_eq!(b.pieces, before);
}

#[test]
fn failed_apply_is_not_recorded() {
    let t = Diagma::Table { table: vec![vec![0, 1], vec![0, 1]] };
    let mut b = Board::new(2, t);
    b.pieces[0][0] = 1;
    let r = b.apply_move(Move { x: 0, y: 0, d: -1 });
    assert!(matches!(r, Err(FailType::NoDiv)));
    assert!(matches!(b.undo(), Err(FailType::UndoEmpty)));
}

#[test]
fn failed_undo_keeps_cursor() {
    // column 1 of this table never takes the value 0, so the inverse press
    // that undoing the recorded forward move needs is undefined
    let t = Diagma::Table { table: vec![vec![0, 1], vec![0, 1]] };
    let mut b = Board::new(2, t);
    b.pieces[0][0] = 1;
    b.undo_stack.stack.push(Move { x: 0, y: 0, d: 1 });
    let before = b.pieces.clone();
    let r = b.undo();
    assert!(matches!(r, Err(FailType::NoDiv)));
    // full rollback: the grid and the cursor are exactly as before, so the
    // move is not marked undone and nothing became redoable
    assert_eq!(b.pieces, before);
    assert_eq!(b.undo_stack.index, 0);
    assert!(matches!(b.redo(), Err(FailType::RedoEmpty)));
}

#[test]
fn failed_redo_keeps_cursor() {
    let t = Diagma::Table { table: vec![vec![0, 1], vec![0, 1]] };
    let mut b = Board::new(2, t);
    b.pieces[0][0] = 1;
    b.undo_stack.stack.push(Move { x: 0, y: 0, d: -1 });
    b.undo_stack.index = 1;
    let before = b.pieces.clone();
    let r = b.redo();
    assert!(matches!(r, Err(FailType::NoDiv)));
    // full rollback: the cursor still counts the move as undone
    assert_eq!(b.pieces, before);
    assert_eq!(b.undo_stack.index, 1);
}

#[test]
fn magnitude_repeats_the_operation() {
    let mut b = Board::new(2, Diagma::Cyclic { order: 7 });
    b.apply_move(Move { x: 1, y: 1, d: 3 }).unwrap();
    // the pressed cell multiplies by its own value three times: 1 -> 4
    assert_eq!(b.pieces[1][1], 4);
    assert_eq!(b.pieces[0][1], 4);
    assert_eq!(b.pieces[1][0], 4);
    assert_eq!(b.pieces[0][0], 1);
}

#[test]
fn reset_refills_and_clears_history() {
    let mut b = Board::new(3, Diagma::Cyclic { order: 3 });
    b.apply_move(fwd(1, 1)).unwrap();
    b.reset();
    assert_eq!(b.pieces, vec![vec![1; 3]; 3]);
    assert!(matches!(b.undo(), Err(FailType::UndoEmpty)));
}

#[test]
fn set_table_swaps_structure_and_resets() {
    let mut b = Board::new(3, Diagma::Cyclic { order: 3 });
    b.apply_move(fwd(0, 0)).unwrap();
    b.set_table(Diagma::Table { table: vec![vec![0, 1], vec![1, 0]] });
    assert_eq!(b.size, 3);
    assert_eq!(b.pieces, vec![vec![0; 3], vec![0; 3], vec![0; 3]]);
    assert!(matches!(b.undo(), Err(FailType::UndoEmpty)));
}

#[test]
fn scramble_on_one_cell_board_is_deterministic() {
    // on a 1x1 board every random press lands on the only cell, so the
    // drawn positions must be 0 and the outcome is forced: 1 -> 2 -> 1
    let mut b = Board::new(1, Diagma::Cyclic { order: 3 });
    b.scramble(1);
    assert_eq!(b.pieces, vec![vec![2]]);
    b.scramble(2);
    assert_eq!(b.pieces, vec![vec![1]]);
    assert_eq!(b.undo_stack.stack.len(), 0);
}

#[test]
fn random_move_presses_somewhere() {
    let mut b = Board::new(4, Diagma::Cyclic { order: 3 });
    b.random_move();
    // exactly one cross was pressed: the grid differs from all-ones in
    // three to five cells, each holding 2
    let changed: usize = b
        .pieces
        .iter()
        .map(|row| row.iter().filter(|&&v| v == 2).count())
        .sum();
    assert!((3..=5).contains(&changed));
    // the history is untouched by scrambling presses
    assert!(matches!(b.undo(), Err(FailType::UndoEmpty)));
}
