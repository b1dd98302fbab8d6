//! The engine's laws: quotient and root exactness of the cyclic structure,
//! round trips of presses, and the undo/redo discipline of the history.

use crate::board::{
    div_iter, grid_ok, in_cross, mul_iter, op_iter, press_grid, press_ok, press_val,
};
use crate::history::Move;
use crate::magma::{
    diagonal, full_table, right_cancellative, total_right_quotient, unique_square_roots, Diagma,
};
use vstd::arithmetic::div_mod::{
    lemma_div_multiples_vanish, lemma_fundamental_div_mod, lemma_mod_multiples_vanish,
    lemma_small_mod,
};
use vstd::prelude::*;
use vstd::relations::injective_on;
use vstd::set_lib::{lemma_int_range, lemma_len_subset, lemma_map_size, set_int_range};

verus! {

/// A first-match column scan that succeeds finds a row whose entry in the
/// scanned column is the sought value.
proof fn lemma_col_search_sound(t: Diagma, a: int, b: int, from: int)
    requires
        0 <= from,
        t.col_search(a, b, from) is Some,
    ensures
        ({
            let z = t.col_search(a, b, from)->Some_0;
            from <= z < t.spec_order() && t.spec_mul(z, b) == a
        }),
    decreases t.spec_order() - from,
{
    if from >= t.spec_order() {
    } else if t.spec_mul(from, b) == a {
    } else {
        lemma_col_search_sound(t, a, b, from + 1);
    }
}

/// Multiplication is closed over the carrier.
pub proof fn lemma_mul_in_range(t: Diagma, a: int, b: int)
    requires
        t.wf(),
        0 <= a < t.spec_order(),
        0 <= b < t.spec_order(),
    ensures
        0 <= t.spec_mul(a, b) < t.spec_order(),
{
    match t {
        Diagma::Cyclic { .. } => {
        },
        Diagma::Table { table } => {
            assert(table@[a]@[b] < table@.len());
        },
    }
}

/// A right quotient that exists is sound: multiplying it back by the
/// divisor yields the dividend.
pub proof fn lemma_rquot_sound(t: Diagma, a: int, b: int)
    requires
        t.wf(),
        0 <= a < t.spec_order(),
        0 <= b < t.spec_order(),
        t.spec_rquot(a, b) is Some,
    ensures
        ({
            let z = t.spec_rquot(a, b)->Some_0;
            0 <= z < t.spec_order() && t.spec_mul(z, b) == a
        }),
{
    match t {
        Diagma::Cyclic { order } => {
            let o = order as int;
            let z = (a + o - b) % o;
            let q = (a + o - b) / o;
            lemma_fundamental_div_mod(a + o - b, o);
            assert(z + b == o * (1 - q) + a) by (nonlinear_arith)
                requires
                    z == (a + o - b) - o * q,
            ;
            lemma_mod_multiples_vanish(1 - q, a, o);
            lemma_small_mod(a as nat, o as nat);
        },
        Diagma::Table { .. } => {
            lemma_col_search_sound(t, a, b, 0);
        },
    }
}

/// The cyclic structure cancels exactly on the right, whatever its order.
pub proof fn lemma_cyclic_right_cancellative(t: Diagma)
    requires
        t.wf(),
        t is Cyclic,
    ensures
        right_cancellative(t),
{
    let o = t.spec_order();
    assert forall|a: int, b: int| 0 <= a < o && 0 <= b < o implies t.spec_rquot(
        #[trigger] t.spec_mul(a, b),
        b,
    ) == Some(a) by {
        let s = (a + b) % o;
        let q = (a + b) / o;
        lemma_fundamental_div_mod(a + b, o);
        assert(s + o - b == o * (1 - q) + a) by (nonlinear_arith)
            requires
                s == (a + b) - o * q,
        ;
        lemma_mod_multiples_vanish(1 - q, a, o);
        lemma_small_mod(a as nat, o as nat);
    }
}

/// The cyclic structure of an odd order is a diagonal magma: its closed
/// form `a * (order + 1) / 2 mod order` is an exact square root, and the
/// root of a square recovers the squared element. (An even order has
/// elements without any square root, so the closed form is not exact
/// there.)
pub proof fn lemma_cyclic_diagonal(t: Diagma)
    requires
        t.wf(),
        t is Cyclic,
        t.spec_order() % 2 == 1,
    ensures
        diagonal(t),
{
    let o = t.spec_order();
    let k = (o + 1) / 2;
    lemma_fundamental_div_mod(o + 1, 2);
    assert(o + 1 == 2 * k);
    assert forall|a: int| 0 <= a < o && (#[trigger] t.spec_root(a)) is Some implies 0
        <= t.spec_root(a)->Some_0 < o && t.spec_mul(t.spec_root(a)->Some_0, t.spec_root(a)->Some_0)
        == a by {
        assert(a * (o + 1) == 2 * (a * k)) by (nonlinear_arith)
            requires
                o + 1 == 2 * k,
        ;
        lemma_div_multiples_vanish(a * k, 2);
        let w = (a * k) % o;
        let q = (a * k) / o;
        lemma_fundamental_div_mod(a * k, o);
        assert(w + w == o * (a - 2 * q) + a) by (nonlinear_arith)
            requires
                w == a * k - o * q,
                o + 1 == 2 * k,
        ;
        lemma_mod_multiples_vanish(a - 2 * q, a, o);
        lemma_small_mod(a as nat, o as nat);
        assert(t.spec_root(a)->Some_0 == w);
    }
    assert forall|c: int| 0 <= c < o implies t.spec_root(#[trigger] t.spec_mul(c, c)) == Some(
        c,
    ) by {
        let s = (c + c) % o;
        let q2 = (c + c) / o;
        lemma_fundamental_div_mod(c + c, o);
        assert(s * (o + 1) == 2 * (s * k)) by (nonlinear_arith)
            requires
                o + 1 == 2 * k,
        ;
        lemma_div_multiples_vanish(s * k, 2);
        assert(s * k == o * (c - q2 * k) + c) by (nonlinear_arith)
            requires
                s == c + c - o * q2,
                o + 1 == 2 * k,
        ;
        lemma_mod_multiples_vanish(c - q2 * k, c, o);
        lemma_small_mod(c as nat, o as nat);
    }
}

/// A press of magnitude 1 or -1 on a right-cancellative diagonal magma is
/// exactly undone by the inverse press at the same cell: the inverse press
/// is defined on the pressed grid, and it restores the grid that was
/// pressed.
pub proof fn lemma_press_round_trip(t: Diagma, g: Seq<Seq<usize>>, size: int, m: Move)
    requires
        t.wf(),
        grid_ok(t, g, size),
        1 <= size,
        m.x < size,
        m.y < size,
        m.d == 1 || m.d == -1,
        right_cancellative(t),
        diagonal(t),
        press_ok(t, g, m),
    ensures
        grid_ok(t, press_grid(t, g, m), size),
        press_ok(t, press_grid(t, g, m), m.spec_inv()),
        press_grid(t, press_grid(t, g, m), m.spec_inv()) == g,
{
    let o = t.spec_order();
    let x = m.x as int;
    let y = m.y as int;
    let a = g[y][x] as int;
    let v = press_val(t, g, m)->Some_0;
    let g1 = press_grid(t, g, m);
    let mi = m.spec_inv();
    let dd = m.d as int;
    crate::magma::lemma_order_fits(t);
    assert(mi.d as int == -dd);
    assert(in_cross(x, y, x, y));

    // The generator is a carrier element; for an inverse press its square
    // is the pressed cell's value.
    if m.d == 1 {
        assert(v == a);
    } else {
        assert(t.spec_root(a) is Some);
        assert(0 <= v < o && t.spec_mul(v, v) == a);
    }

    // The pressed cell of the pressed grid holds the square of `v` after a
    // forward press, and exactly `v` after an inverse press.
    if m.d == 1 {
        assert(mul_iter(t, a, v, 0) == a);
        assert(op_iter(t, a, v, 1) == Some(t.spec_mul(a, v)));
        assert(g1[y][x] == t.spec_mul(v, v));
        assert(0 <= t.spec_mul(v, v) < o);
        assert(t.spec_root(t.spec_mul(v, v)) == Some(v));
        assert(press_val(t, g1, mi) == Some(v));
    } else {
        assert(op_iter(t, a, v, -1) is Some);
        let z0 = t.spec_rquot(a, v)->Some_0;
        assert(div_iter(t, z0, v, 0) == Some(z0));
        assert(op_iter(t, a, v, -1) == Some(z0));
        assert(t.spec_rquot(t.spec_mul(v, v), v) == Some(v));
        assert(z0 == v);
        assert(g1[y][x] == v);
        assert(press_val(t, g1, mi) == Some(v));
    }

    // Each cross cell steps forward and back between the two grids.
    assert forall|cy: int, cx: int|
        0 <= cy < size && 0 <= cx < size && in_cross(x, y, cx, cy) implies (#[trigger] op_iter(
        t,
        g1[cy][cx] as int,
        v,
        -dd,
    )) is Some && op_iter(t, g1[cy][cx] as int, v, -dd)->Some_0 == g[cy][cx] as int && g1[cy][cx]
        < t.spec_order() by {
        let c = g[cy][cx] as int;
        assert(0 <= c < o);
        if m.d == 1 {
            lemma_mul_in_range(t, c, v);
            assert(mul_iter(t, c, v, 0) == c);
            assert(op_iter(t, c, v, 1) == Some(t.spec_mul(c, v)));
            assert(g1[cy][cx] as int == t.spec_mul(c, v));
            assert(t.spec_rquot(t.spec_mul(c, v), v) == Some(c));
            assert(div_iter(t, c, v, 0) == Some(c));
            assert(op_iter(t, t.spec_mul(c, v), v, -1) == Some(c));
        } else {
            assert(op_iter(t, c, v, -1) is Some);
            let z = t.spec_rquot(c, v)->Some_0;
            lemma_rquot_sound(t, c, v);
            assert(div_iter(t, z, v, 0) == Some(z));
            assert(op_iter(t, c, v, -1) == Some(z));
            assert(g1[cy][cx] as int == z);
            assert(t.spec_mul(z, v) == c);
            assert(mul_iter(t, z, v, 0) == z);
            assert(op_iter(t, z, v, 1) == Some(t.spec_mul(z, v)));
        }
    }

    assert(press_ok(t, g1, mi));
    assert forall|cy: int, cx: int| 0 <= cy < size && 0 <= cx < size implies (#[trigger] g1[cy][cx])
        < t.spec_order() by {
        if in_cross(x, y, cx, cy) {
            assert(op_iter(t, g1[cy][cx] as int, v, -dd) is Some);
        } else {
            assert(g1[cy][cx] == g[cy][cx]);
        }
    }
    assert(grid_ok(t, g1, size));
    assert forall|cy: int, cx: int| 0 <= cy < size && 0 <= cx < size implies press_grid(
        t,
        g1,
        mi,
    )[cy][cx] == g[cy][cx] by {
        if in_cross(x, y, cx, cy) {
            assert(op_iter(t, g1[cy][cx] as int, v, -dd) is Some && op_iter(
                t,
                g1[cy][cx] as int,
                v,
                -dd,
            )->Some_0 == g[cy][cx] as int);
        } else {
            assert(g1[cy][cx] == g[cy][cx]);
        }
    }
    assert(press_grid(t, g1, mi) =~~= g);
}

/// Forward/inverse round trip: on a right-cancellative diagonal magma, a
/// forward press of magnitude 1 anywhere on the grid is always defined,
/// and the inverse press at the same cell restores the exact prior grid.
pub proof fn lemma_forward_inverse_round_trip(
    t: Diagma,
    g: Seq<Seq<usize>>,
    size: int,
    x: usize,
    y: usize,
)
    requires
        t.wf(),
        grid_ok(t, g, size),
        1 <= size,
        x < size,
        y < size,
        right_cancellative(t),
        diagonal(t),
    ensures
        ({
            let m = (Move { x, y, d: 1 as isize });
            &&& press_ok(t, g, m)
            &&& press_ok(t, press_grid(t, g, m), m.spec_inv())
            &&& press_grid(t, press_grid(t, g, m), m.spec_inv()) == g
        }),
{
    let m = Move { x, y, d: 1 as isize };
    assert(press_ok(t, g, m)) by {
        assert forall|cy: int, cx: int|
            0 <= cy < g.len() && 0 <= cx < g[cy].len() && in_cross(
                m.x as int,
                m.y as int,
                cx,
                cy,
            ) implies (#[trigger] op_iter(
            t,
            g[cy][cx] as int,
            press_val(t, g, m)->Some_0,
            m.d as int,
        )) is Some by {}
    }
    lemma_press_round_trip(t, g, size, m);
}

/// A first-match diagonal scan that succeeds finds an index whose square
/// is the sought value.
proof fn lemma_diag_search_sound(t: Diagma, a: int, from: int)
    requires
        0 <= from,
        t.diag_search(a, from) is Some,
    ensures
        ({
            let z = t.diag_search(a, from)->Some_0;
            from <= z < t.spec_order() && t.spec_mul(z, z) == a
        }),
    decreases t.spec_order() - from,
{
    if from >= t.spec_order() {
    } else if t.spec_mul(from, from) == a {
    } else {
        lemma_diag_search_sound(t, a, from + 1);
    }
}

/// A diagonal scan succeeds when a witness lies at or past its start.
proof fn lemma_diag_search_complete(t: Diagma, a: int, c: int, from: int)
    requires
        0 <= from <= c < t.spec_order(),
        t.spec_mul(c, c) == a,
    ensures
        t.diag_search(a, from) is Some,
    decreases t.spec_order() - from,
{
    if t.spec_mul(from, from) == a {
    } else {
        lemma_diag_search_complete(t, a, c, from + 1);
    }
}

/// On a finite carrier, a total right quotient cancels exactly: a column
/// that reaches every value is a bijection, so the first-match scan of a
/// product finds the left factor itself.
pub proof fn lemma_total_rquot_right_cancellative(t: Diagma)
    requires
        t.wf(),
        total_right_quotient(t),
    ensures
        right_cancellative(t),
{
    let o = t.spec_order();
    assert forall|a: int, b: int| 0 <= a < o && 0 <= b < o implies t.spec_rquot(
        #[trigger] t.spec_mul(a, b),
        b,
    ) == Some(a) by {
        lemma_mul_in_range(t, a, b);
        let v = t.spec_mul(a, b);
        // the function taking each value to its first-match row
        let g = |w: int| t.spec_rquot(w, b)->Some_0;
        let vals = set_int_range(0, o);
        let rows = vals.map(g);
        lemma_int_range(0, o);
        // g is injective: the row it picks multiplies back to the value
        assert(injective_on(g, vals)) by {
            assert forall|w1: int, w2: int|
                vals.contains(w1) && vals.contains(w2) && #[trigger] g(w1) == #[trigger] g(
                    w2,
                ) implies w1 == w2 by {
                lemma_rquot_sound(t, w1, b);
                lemma_rquot_sound(t, w2, b);
            }
        }
        lemma_map_size(vals, rows, g);
        // the picked rows all lie in the carrier
        assert(rows.subset_of(vals)) by {
            assert forall|r: int| rows.contains(r) implies vals.contains(r) by {
                let w = choose|w: int| vals.contains(w) && #[trigger] g(w) == r;
                lemma_rquot_sound(t, w, b);
            }
        }
        // an injective image of the whole carrier inside the carrier misses
        // nothing, so row `a` is some value's first-match row
        if !rows.contains(a) {
            assert(rows.subset_of(vals.remove(a)));
            lemma_len_subset(rows, vals.remove(a));
            assert(false);
        }
        let w = choose|w: int| vals.contains(w) && #[trigger] g(w) == a;
        lemma_rquot_sound(t, w, b);
        assert(t.spec_mul(a, b) == w);
        assert(g(v) == a);
    }
}

/// Unique square roots make the structure diagonal: the root lookup of a
/// square returns the squared element, and any found root squares back.
/// For the cyclic variant uniqueness alone forces an odd order, where the
/// closed form is exact.
pub proof fn lemma_unique_roots_diagonal(t: Diagma)
    requires
        t.wf(),
        unique_square_roots(t),
    ensures
        diagonal(t),
{
    let o = t.spec_order();
    match t {
        Diagma::Cyclic { .. } => {
            // an even order would give 0 two square roots, 0 and half the order
            if o % 2 == 0 {
                let h = o / 2;
                lemma_fundamental_div_mod(o, 2);
                assert(t.spec_mul(h, h) == 0) by {
                    assert(h + h == o);
                };
                assert(t.spec_mul(0, 0) == 0);
                assert(false);
            }
            lemma_cyclic_diagonal(t);
        },
        Diagma::Table { .. } => {
            assert forall|c: int| 0 <= c < o implies t.spec_root(#[trigger] t.spec_mul(c, c))
                == Some(c) by {
                lemma_diag_search_complete(t, t.spec_mul(c, c), c, 0);
                lemma_diag_search_sound(t, t.spec_mul(c, c), 0);
            }
            assert forall|a: int| 0 <= a < o && (#[trigger] t.spec_root(a)) is Some implies 0
                <= t.spec_root(a)->Some_0 < o && t.spec_mul(
                t.spec_root(a)->Some_0,
                t.spec_root(a)->Some_0,
            ) == a by {
                lemma_diag_search_sound(t, a, 0);
            }
        },
    }
}

/// Forward/inverse round trip under the interface-level hypotheses: on a
/// structure with a total right quotient and unique square roots, a
/// forward press of magnitude 1 anywhere is defined, and the inverse press
/// at the same cell restores the exact prior grid.
pub proof fn lemma_forward_inverse_round_trip_total(
    t: Diagma,
    g: Seq<Seq<usize>>,
    size: int,
    x: usize,
    y: usize,
)
    requires
        t.wf(),
        grid_ok(t, g, size),
        1 <= size,
        x < size,
        y < size,
        total_right_quotient(t),
        unique_square_roots(t),
    ensures
        ({
            let m = (Move { x, y, d: 1 as isize });
            &&& press_ok(t, g, m)
            &&& press_ok(t, press_grid(t, g, m), m.spec_inv())
            &&& press_grid(t, press_grid(t, g, m), m.spec_inv()) == g
        }),
{
    lemma_total_rquot_right_cancellative(t);
    lemma_unique_roots_diagonal(t);
    lemma_forward_inverse_round_trip(t, g, size, x, y);
}

/// A board abstracted to the data the history laws speak of: the grid, the
/// recorded moves, and the undo cursor.
pub ghost struct BoardModel {
    pub grid: Seq<Seq<usize>>,
    pub stack: Seq<Move>,
    pub index: int,
}

/// The model of a board value.
pub open spec fn model_of(b: crate::board::Board) -> BoardModel {
    BoardModel { grid: b.grid(), stack: b.undo_stack.stack@, index: b.undo_stack.index as int }
}

/// A well-formed model: a well-formed grid, a cursor within the history,
/// and recorded moves that lie on the grid.
pub open spec fn model_ok(t: Diagma, bm: BoardModel, size: int) -> bool {
    &&& grid_ok(t, bm.grid, size)
    &&& 0 <= bm.index <= bm.stack.len()
    &&& forall|k: int|
        0 <= k < bm.stack.len() ==> {
            let m = #[trigger] bm.stack[k];
            m.x < size && m.y < size
        }
}

/// Moves of unit magnitude: the only magnitudes the input surface makes.
pub open spec fn unit_moves(ms: Seq<Move>) -> bool {
    forall|k: int| 0 <= k < ms.len() ==> ((#[trigger] ms[k]).d == 1 || ms[k].d == -1)
}

/// Moves whose positions lie on a grid of the given size.
pub open spec fn moves_on(ms: Seq<Move>, size: int) -> bool {
    forall|k: int| 0 <= k < ms.len() ==> (#[trigger] ms[k]).x < size && ms[k].y < size
}

/// What `apply_move` does, on the model: a zero magnitude changes nothing;
/// a defined press rewrites the grid, discards the undone tail, and
/// appends the move; an undefined press fails.
pub open spec fn m_apply(t: Diagma, bm: BoardModel, m: Move) -> Option<BoardModel> {
    if m.d == 0 {
        Some(bm)
    } else if press_ok(t, bm.grid, m) {
        Some(
            BoardModel {
                grid: press_grid(t, bm.grid, m),
                stack: bm.stack.take(bm.stack.len() - bm.index).push(m),
                index: 0,
            },
        )
    } else {
        None
    }
}

/// What a successful `undo` does, on the model: press the inverse of the
/// move before the cursor and step the cursor forward.
pub open spec fn m_undo(t: Diagma, bm: BoardModel) -> Option<BoardModel> {
    if bm.index < bm.stack.len() {
        let m = bm.stack[bm.stack.len() - bm.index - 1];
        if press_ok(t, bm.grid, m.spec_inv()) {
            Some(
                BoardModel {
                    grid: press_grid(t, bm.grid, m.spec_inv()),
                    stack: bm.stack,
                    index: bm.index + 1,
                },
            )
        } else {
            None
        }
    } else {
        None
    }
}

/// What a successful `redo` does, on the model: press the move past the
/// cursor again and step the cursor back.
pub open spec fn m_redo(t: Diagma, bm: BoardModel) -> Option<BoardModel> {
    if bm.index > 0 {
        let m = bm.stack[bm.stack.len() - bm.index];
        if press_ok(t, bm.grid, m) {
            Some(
                BoardModel {
                    grid: press_grid(t, bm.grid, m),
                    stack: bm.stack,
                    index: bm.index - 1,
                },
            )
        } else {
            None
        }
    } else {
        None
    }
}

/// A run of applies, first move first.
pub open spec fn m_apply_seq(t: Diagma, bm: BoardModel, ms: Seq<Move>) -> Option<BoardModel>
    decreases ms.len(),
{
    if ms.len() == 0 {
        Some(bm)
    } else {
        match m_apply(t, bm, ms[0]) {
            Some(b2) => m_apply_seq(t, b2, ms.subrange(1, ms.len() as int)),
            None => None,
        }
    }
}

/// `n` undos in a row.
pub open spec fn m_undo_n(t: Diagma, bm: BoardModel, n: nat) -> Option<BoardModel>
    decreases n,
{
    if n == 0 {
        Some(bm)
    } else {
        match m_undo(t, bm) {
            Some(b2) => m_undo_n(t, b2, (n - 1) as nat),
            None => None,
        }
    }
}

/// `n` redos in a row.
pub open spec fn m_redo_n(t: Diagma, bm: BoardModel, n: nat) -> Option<BoardModel>
    decreases n,
{
    if n == 0 {
        Some(bm)
    } else {
        match m_redo(t, bm) {
            Some(b2) => m_redo_n(t, b2, (n - 1) as nat),
            None => None,
        }
    }
}

/// A run of `n + 1` undos is a run of `n` undos followed by one more.
proof fn lemma_undo_n_snoc(t: Diagma, bm: BoardModel, n: nat)
    requires
        m_undo_n(t, bm, n) is Some,
    ensures
        m_undo_n(t, bm, n + 1) == m_undo(t, m_undo_n(t, bm, n)->Some_0),
    decreases n,
{
    if n == 0 {
        if m_undo(t, bm) is Some {
            assert(m_undo_n(t, m_undo(t, bm)->Some_0, 0) == Some(m_undo(t, bm)->Some_0));
        }
    } else {
        lemma_undo_n_snoc(t, m_undo(t, bm)->Some_0, (n - 1) as nat);
    }
}

/// A run of `n + 1` redos is a run of `n` redos followed by one more.
proof fn lemma_redo_n_snoc(t: Diagma, bm: BoardModel, n: nat)
    requires
        m_redo_n(t, bm, n) is Some,
    ensures
        m_redo_n(t, bm, n + 1) == m_redo(t, m_redo_n(t, bm, n)->Some_0),
    decreases n,
{
    if n == 0 {
        if m_redo(t, bm) is Some {
            assert(m_redo_n(t, m_redo(t, bm)->Some_0, 0) == Some(m_redo(t, bm)->Some_0));
        }
    } else {
        lemma_redo_n_snoc(t, m_redo(t, bm)->Some_0, (n - 1) as nat);
    }
}

/// A redo exactly reverses the immediately preceding undo when no apply
/// intervened: it presses the same move back and restores the exact state.
pub proof fn lemma_undo_then_redo(t: Diagma, size: int, bm: BoardModel)
    requires
        t.wf(),
        1 <= size,
        right_cancellative(t),
        diagonal(t),
        model_ok(t, bm, size),
        unit_moves(bm.stack),
        m_undo(t, bm) is Some,
    ensures
        model_ok(t, m_undo(t, bm)->Some_0, size),
        m_redo(t, m_undo(t, bm)->Some_0) == Some(bm),
{
    let m = bm.stack[bm.stack.len() - bm.index - 1];
    let mi = m.spec_inv();
    assert(mi.d == 1 || mi.d == -1);
    lemma_press_round_trip(t, bm.grid, size, mi);
    assert(mi.spec_inv() == m);
    let b2 = m_undo(t, bm)->Some_0;
    assert(b2.stack[b2.stack.len() - b2.index] == m);
    assert(press_grid(t, b2.grid, m) == bm.grid);
}

/// A run of redos exactly reverses a run of undos over a unit-magnitude
/// history.
proof fn lemma_undo_n_then_redo_n(t: Diagma, size: int, bm: BoardModel, n: nat)
    requires
        t.wf(),
        1 <= size,
        right_cancellative(t),
        diagonal(t),
        model_ok(t, bm, size),
        unit_moves(bm.stack),
        m_undo_n(t, bm, n) is Some,
    ensures
        model_ok(t, m_undo_n(t, bm, n)->Some_0, size),
        m_redo_n(t, m_undo_n(t, bm, n)->Some_0, n) == Some(bm),
    decreases n,
{
    if n == 0 {
    } else {
        lemma_undo_then_redo(t, size, bm);
        let b2 = m_undo(t, bm)->Some_0;
        lemma_undo_n_then_redo_n(t, size, b2, (n - 1) as nat);
        let bu = m_undo_n(t, bm, n)->Some_0;
        assert(bu == m_undo_n(t, b2, (n - 1) as nat)->Some_0);
        lemma_redo_n_snoc(t, bu, (n - 1) as nat);
        assert(m_redo_n(t, bu, (n - 1) as nat) == Some(b2));
        assert(m_redo(t, b2) == Some(bm));
    }
}

/// Applying a run of unit moves and then undoing each restores the
/// starting grid and leaves every applied move on the stack, all undone.
proof fn lemma_apply_seq_then_undo(t: Diagma, size: int, bm: BoardModel, ms: Seq<Move>)
    requires
        t.wf(),
        1 <= size,
        right_cancellative(t),
        diagonal(t),
        model_ok(t, bm, size),
        bm.index == 0,
        unit_moves(bm.stack),
        unit_moves(ms),
        moves_on(ms, size),
        m_apply_seq(t, bm, ms) is Some,
    ensures
        ({
            let bn = m_apply_seq(t, bm, ms)->Some_0;
            let r = m_undo_n(t, bn, ms.len());
            &&& bn.stack == bm.stack + ms
            &&& bn.index == 0
            &&& model_ok(t, bn, size)
            &&& unit_moves(bn.stack)
            &&& r is Some
            &&& r->Some_0.grid == bm.grid
            &&& r->Some_0.stack == bn.stack
            &&& r->Some_0.index == ms.len()
        }),
    decreases ms.len(),
{
    let bn = m_apply_seq(t, bm, ms)->Some_0;
    if ms.len() == 0 {
        assert(bn.stack =~= bm.stack + ms);
    } else {
        let m0 = ms[0];
        let rest = ms.subrange(1, ms.len() as int);
        let b1 = m_apply(t, bm, m0)->Some_0;
        assert(m0.d != 0);
        assert(press_ok(t, bm.grid, m0));
        lemma_press_round_trip(t, bm.grid, size, m0);
        assert(b1.stack =~= bm.stack.push(m0));
        assert(model_ok(t, b1, size));
        assert(unit_moves(rest) && moves_on(rest, size)) by {
            assert forall|k: int| 0 <= k < rest.len() implies ((#[trigger] rest[k]).d == 1
                || rest[k].d == -1) && rest[k].x < size && rest[k].y < size by {
                assert(rest[k] == ms[k + 1]);
            }
        }
        assert(unit_moves(b1.stack)) by {
            assert forall|k: int| 0 <= k < b1.stack.len() implies ((#[trigger] b1.stack[k]).d == 1
                || b1.stack[k].d == -1) by {
                if k < bm.stack.len() {
                    assert(b1.stack[k] == bm.stack[k]);
                } else {
                    assert(b1.stack[k] == m0);
                }
            }
        }
        lemma_apply_seq_then_undo(t, size, b1, rest);
        assert(bn == m_apply_seq(t, b1, rest)->Some_0);
        assert(bn.stack =~= bm.stack + ms) by {
            assert(bn.stack == b1.stack + rest);
        }
        let bu1 = m_undo_n(t, bn, rest.len())->Some_0;
        assert(bu1.grid == b1.grid && bu1.stack == bn.stack && bu1.index == rest.len());
        // one more undo takes back the first applied move
        let l = bu1.stack.len();
        assert(bu1.stack[l - bu1.index - 1] == m0) by {
            assert(l == bm.stack.len() + ms.len());
            assert((bm.stack + ms)[bm.stack.len() as int] == ms[0]);
        }
        assert(press_ok(t, bu1.grid, m0.spec_inv()));
        assert(m_undo(t, bu1) is Some);
        lemma_undo_n_snoc(t, bn, rest.len());
        assert(m_undo_n(t, bn, ms.len()) == m_undo(t, bu1));
        assert(m_undo(t, bu1)->Some_0.grid == bm.grid);
    }
}

/// Undo/redo round trip: starting from a board with an empty history, after
/// any run of successful unit-magnitude applies on a right-cancellative
/// diagonal magma, undoing as many times restores the initial grid with the
/// cursor at the history's length (no move left to undo), and redoing as
/// many times restores the final state exactly.
pub proof fn lemma_undo_redo_round_trip(t: Diagma, size: int, bm: BoardModel, ms: Seq<Move>)
    requires
        t.wf(),
        1 <= size,
        right_cancellative(t),
        diagonal(t),
        model_ok(t, bm, size),
        bm.stack.len() == 0,
        bm.index == 0,
        unit_moves(ms),
        moves_on(ms, size),
        m_apply_seq(t, bm, ms) is Some,
    ensures
        ({
            let bn = m_apply_seq(t, bm, ms)->Some_0;
            let r = m_undo_n(t, bn, ms.len());
            &&& bn.index == 0
            &&& r is Some
            &&& r->Some_0.grid == bm.grid
            &&& r->Some_0.index == r->Some_0.stack.len()
            &&& m_redo_n(t, r->Some_0, ms.len()) == Some(bn)
        }),
{
    lemma_apply_seq_then_undo(t, size, bm, ms);
    let bn = m_apply_seq(t, bm, ms)->Some_0;
    assert(bn.stack =~= ms);
    lemma_undo_n_then_redo_n(t, size, bn, ms.len());
}

/// Branch truncation: after applying two moves, undoing the second, and
/// applying a third nonzero move, the undone second move is unreachable;
/// an immediate redo fails.
pub proof fn lemma_branch_truncation(t: Diagma, bm: BoardModel, m1: Move, m2: Move, m3: Move)
    requires
        m3.d != 0,
        m_apply(t, bm, m1) is Some,
        m_apply(t, m_apply(t, bm, m1)->Some_0, m2) is Some,
        m_undo(t, m_apply(t, m_apply(t, bm, m1)->Some_0, m2)->Some_0) is Some,
        m_apply(
            t,
            m_undo(t, m_apply(t, m_apply(t, bm, m1)->Some_0, m2)->Some_0)->Some_0,
            m3,
        ) is Some,
    ensures
        m_redo(
            t,
            m_apply(
                t,
                m_undo(t, m_apply(t, m_apply(t, bm, m1)->Some_0, m2)->Some_0)->Some_0,
                m3,
            )->Some_0,
        ) is None,
{
}

/// Transform correctness: transposing twice restores the full
/// multiplication table. The hypotheses on the two derived structures are
/// exactly what `trans_all` ensures of its result.
pub proof fn lemma_transpose_involution(t: Diagma, r1: Diagma, r2: Diagma)
    requires
        t.wf(),
        r1.spec_order() == t.spec_order(),
        forall|i: int, j: int|
            0 <= i < t.spec_order() && 0 <= j < t.spec_order() ==> #[trigger] r1.spec_mul(i, j)
                == t.spec_mul(j, i),
        r2.spec_order() == r1.spec_order(),
        forall|i: int, j: int|
            0 <= i < r1.spec_order() && 0 <= j < r1.spec_order() ==> #[trigger] r2.spec_mul(i, j)
                == r1.spec_mul(j, i),
    ensures
        full_table(r2) == full_table(t),
{
    let o = t.spec_order();
    assert forall|i: int| 0 <= i < o implies full_table(r2)[i] == full_table(t)[i] by {
        assert forall|j: int| 0 <= j < o implies full_table(r2)[i][j] == full_table(t)[i][j] by {
            assert(r2.spec_mul(i, j) == r1.spec_mul(j, i));
            assert(r1.spec_mul(j, i) == t.spec_mul(i, j));
        }
        assert(full_table(r2)[i] =~= full_table(t)[i]);
    }
    assert(full_table(r2) =~= full_table(t));
}

/// A well-formed board's model is well-formed, with the same grid.
pub proof fn lemma_model_of_wf(b: crate::board::Board)
    requires
        b.wf(),
    ensures
        model_ok(b.table, model_of(b), b.size as int),
        model_of(b).grid == b.grid(),
{
    assert forall|y: int, x: int| 0 <= y < b.size && 0 <= x < b.size implies (#[trigger] b.grid(
    )[y][x]) < b.table.spec_order() by {
        assert(b.grid()[y][x] == b.pieces@[y]@[x]);
    }
    assert forall|y: int| 0 <= y < b.size implies (#[trigger] b.grid()[y]).len() == b.size by {
        assert(b.grid()[y] == b.pieces@[y]@);
    }
}

} // verus!
