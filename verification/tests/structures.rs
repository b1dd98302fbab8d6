//! Tests of the algebraic structures and their transforms.

use greenboard::magma::{Diagma, FailType};

fn cyclic(order: usize) -> Diagma {
    Diagma::Cyclic { order }
}

fn table(rows: Vec<Vec<usize>>) -> Diagma {
    Diagma::Table { table: rows }
}

#[test]
fn cyclic_closed_forms() {
    let t = cyclic(5);
    assert_eq!(t.mul(3, 4), 2);
    assert_eq!(t.rquot(2, 4), Some(3));
    assert_eq!(t.root(4), 2);
    assert_eq!(t.mul(2, 2), 4);
}

#[test]
fn cyclic_basics() {
    let t = cyclic(3);
    assert_eq!(t.order(), 3);
    assert_eq!(t.ident(), Some(0));
    assert_eq!(t.init(), 1);
    assert_eq!(t.mul(2, 2), 1);
    assert_eq!(t.lquot(2, 1), Some(2));
    assert!(t.has_root(0) && t.has_root(1) && t.has_root(2));
}

#[test]
fn table_lookup_and_quotients() {
    let t = table(vec![vec![1, 0, 2], vec![0, 2, 1], vec![2, 1, 0]]);
    assert_eq!(t.order(), 3);
    assert_eq!(t.ident(), None);
    assert_eq!(t.init(), 0);
    assert_eq!(t.mul(0, 2), 2);
    assert_eq!(t.mul(2, 0), 2);
    // first matching row of column 1 with value 2
    assert_eq!(t.rquot(2, 1), Some(1));
    // first matching column of row 0 with value 0
    assert_eq!(t.lquot(0, 0), Some(1));
    // the diagonal is 1, 2, 0
    assert_eq!(t.root(1), 0);
    assert_eq!(t.root(2), 1);
    assert_eq!(t.root(0), 2);
}

#[test]
fn table_missing_quotient() {
    // column 1 never takes the value 0
    let t = table(vec![vec![0, 1], vec![0, 1]]);
    assert_eq!(t.rquot(0, 1), None);
    // row 0 never takes the value 2
    let u = table(vec![vec![1, 0, 1], vec![0, 2, 1], vec![2, 1, 0]]);
    assert_eq!(u.lquot(0, 2), None);
}

#[test]
fn table_missing_root() {
    // the diagonal is 0, 0: nothing squares to 1
    let t = table(vec![vec![0, 1], vec![1, 0]]);
    assert!(t.has_root(0));
    assert!(!t.has_root(1));
}

#[test]
fn display_labels() {
    let c = cyclic(13);
    assert_eq!(c.rep(0), "0");
    assert_eq!(c.rep(3), "3");
    assert_eq!(c.rep(12), "12");
    let t = table(vec![vec![0, 1], vec![1, 0]]);
    assert_eq!(t.rep(0), "1");
    assert_eq!(t.rep(1), "2");
}

#[test]
fn modify_increments_one_cell() {
    let t = cyclic(3);
    let r = t.modify(0, 0);
    assert_eq!(r.order(), 3);
    // mul(0,0) was 0, incremented modulo 3
    assert_eq!(r.mul(0, 0), 1);
    // everything else is the cyclic table
    assert_eq!(r.mul(1, 2), 0);
    assert_eq!(r.mul(2, 2), 1);
    // incrementing wraps at the order
    let u = table(vec![vec![1, 0], vec![0, 1]]).modify(0, 0);
    assert_eq!(u.mul(0, 0), 0);
}

#[test]
fn row_and_column_swaps() {
    let t = table(vec![vec![1, 0, 2], vec![0, 2, 1], vec![2, 1, 0]]);
    let r = t.row_swap(0, 1);
    assert_eq!(r.mul(0, 0), 0);
    assert_eq!(r.mul(1, 0), 1);
    assert_eq!(r.mul(2, 1), 1);
    let c = t.col_swap(0, 2);
    assert_eq!(c.mul(0, 0), 2);
    assert_eq!(c.mul(0, 2), 1);
    assert_eq!(c.mul(1, 1), 2);
}

#[test]
fn transpose_twice_restores_table() {
    let t = table(vec![vec![1, 0, 2], vec![0, 2, 1], vec![2, 1, 0]]);
    let once = t.trans_all();
    for i in 0..3 {
        for j in 0..3 {
            assert_eq!(once.mul(i, j), t.mul(j, i));
        }
    }
    let twice = once.trans_all();
    assert_eq!(twice.order(), t.order());
    for i in 0..3 {
        for j in 0..3 {
            assert_eq!(twice.mul(i, j), t.mul(i, j));
        }
    }
}

#[test]
fn quotient_tables_of_cyclic() {
    let t = cyclic(5);
    let r = t.rquot_all().unwrap();
    for a in 0..5 {
        for b in 0..5 {
            assert_eq!(r.mul(a, b), (a + 5 - b) % 5);
        }
    }
    let l = t.lquot_all().unwrap();
    for a in 0..5 {
        for b in 0..5 {
            assert_eq!(l.mul(a, b), (b + 5 - a) % 5);
        }
    }
}

#[test]
fn quotient_table_fails_without_bijective_column() {
    // column 1 never takes the value 0
    let t = table(vec![vec![0, 1], vec![0, 1]]);
    let r = t.rquot_all();
    assert!(matches!(r, Err(FailType::NoDiv)));
    // the source structure is untouched by the failed transform
    assert_eq!(t.mul(0, 1), 1);
    assert_eq!(t.mul(1, 0), 0);
    // row 0 never takes the value 1 here
    let u = table(vec![vec![0, 0], vec![1, 1]]);
    assert!(matches!(u.lquot_all(), Err(FailType::NoDiv)));
}

#[test]
fn lights_out_table() {
    let t = Diagma::new_lights_out(3);
    assert_eq!(t.order(), 3);
    for a in 0..3 {
        for b in 0..3 {
            assert_eq!(t.mul(a, b), (a + 1) % 3);
        }
    }
}
