//! The puzzle board: a square grid of carrier elements, the active
//! structure, and the move history, with all-or-nothing presses.

use crate::history::{Move, MoveStack};
use crate::magma::{Diagma, FailType};
use crate::rng::random_below;
use vstd::prelude::*;

verus! {

/// The grid as a sequence of rows of carrier elements.
pub open spec fn grid_view(g: Seq<Vec<usize>>) -> Seq<Seq<usize>> {
    Seq::new(g.len(), |y: int| g[y]@)
}

/// `val` multiplied onto `r` from the right, `times` times.
pub open spec fn mul_iter(t: Diagma, r: int, val: int, times: nat) -> int
    decreases times,
{
    if times == 0 {
        r
    } else {
        t.spec_mul(mul_iter(t, r, val, (times - 1) as nat), val)
    }
}

/// `r` right-divided by `val`, `times` times; nothing if any step lacks a
/// right quotient.
pub open spec fn div_iter(t: Diagma, r: int, val: int, times: nat) -> Option<int>
    decreases times,
{
    if times == 0 {
        Some(r)
    } else {
        match t.spec_rquot(r, val) {
            Some(z) => div_iter(t, z, val, (times - 1) as nat),
            None => None,
        }
    }
}

/// One cell's outcome under a press of magnitude `d` with generator `val`:
/// multiplied by `val` `d` times when `d` is nonnegative, right-divided by
/// `val` `|d|` times otherwise.
pub open spec fn op_iter(t: Diagma, r: int, val: int, d: int) -> Option<int> {
    if d >= 0 {
        Some(mul_iter(t, r, val, d as nat))
    } else {
        div_iter(t, r, val, (-d) as nat)
    }
}

/// Whether `(cx, cy)` is the cell at `(x, y)` or one of its orthogonal
/// neighbors.
pub open spec fn in_cross(x: int, y: int, cx: int, cy: int) -> bool {
    ||| (cx == x && cy == y)
    ||| (cx == x && (cy == y + 1 || cy + 1 == y))
    ||| (cy == y && (cx == x + 1 || cx + 1 == x))
}

/// The press generator: the pressed cell's current value for a forward
/// press, that value's square root for an inverse press.
pub open spec fn press_val(t: Diagma, g: Seq<Seq<usize>>, m: Move) -> Option<int> {
    if m.d >= 0 {
        Some(g[m.y as int][m.x as int] as int)
    } else {
        t.spec_root(g[m.y as int][m.x as int] as int)
    }
}

/// Whether the press has a defined outcome on every cell of its cross.
pub open spec fn press_ok(t: Diagma, g: Seq<Seq<usize>>, m: Move) -> bool {
    &&& press_val(t, g, m) is Some
    &&& forall|cy: int, cx: int|
        0 <= cy < g.len() && 0 <= cx < g[cy].len() && in_cross(m.x as int, m.y as int, cx, cy)
            ==> (#[trigger] op_iter(
            t,
            g[cy][cx] as int,
            press_val(t, g, m)->Some_0,
            m.d as int,
        )) is Some
}

/// The grid a successful press produces: every cross cell holds its
/// outcome, every other cell is unchanged.
pub open spec fn press_grid(t: Diagma, g: Seq<Seq<usize>>, m: Move) -> Seq<Seq<usize>> {
    Seq::new(
        g.len(),
        |cy: int|
            Seq::new(
                g[cy].len(),
                |cx: int|
                    if in_cross(m.x as int, m.y as int, cx, cy) {
                        op_iter(t, g[cy][cx] as int, press_val(t, g, m)->Some_0, m.d as int)->Some_0
                            as usize
                    } else {
                        g[cy][cx]
                    },
            ),
    )
}

/// The grid a fresh or reset board holds: every cell at the structure's
/// starting value.
pub open spec fn init_grid(t: Diagma, size: int) -> Seq<Seq<usize>> {
    Seq::new(size as nat, |y: int| Seq::new(size as nat, |x: int| (t.spec_init() as usize)))
}

/// The grid after a forward unit press at each listed position, in order.
pub open spec fn press_run(t: Diagma, g: Seq<Seq<usize>>, ps: Seq<(usize, usize)>) -> Seq<
    Seq<usize>,
>
    decreases ps.len(),
{
    if ps.len() == 0 {
        g
    } else {
        press_run(
            t,
            press_grid(t, g, (Move { x: ps[0].0, y: ps[0].1, d: 1 as isize })),
            ps.subrange(1, ps.len() as int),
        )
    }
}

/// Appending one more position to a run presses it last.
proof fn lemma_press_run_snoc(
    t: Diagma,
    g: Seq<Seq<usize>>,
    ps: Seq<(usize, usize)>,
    p: (usize, usize),
)
    ensures
        press_run(t, g, ps.push(p)) == press_grid(
            t,
            press_run(t, g, ps),
            (Move { x: p.0, y: p.1, d: 1 as isize }),
        ),
    decreases ps.len(),
{
    let whole = ps.push(p);
    if ps.len() == 0 {
        assert(whole.subrange(1, whole.len() as int) =~= Seq::<(usize, usize)>::empty());
        assert(press_run(
            t,
            press_grid(t, g, (Move { x: p.0, y: p.1, d: 1 as isize })),
            whole.subrange(1, whole.len() as int),
        ) == press_grid(t, g, (Move { x: p.0, y: p.1, d: 1 as isize })));
    } else {
        assert(whole[0] == ps[0]);
        assert(whole.subrange(1, whole.len() as int) =~= ps.subrange(1, ps.len() as int).push(p));
        lemma_press_run_snoc(
            t,
            press_grid(t, g, (Move { x: ps[0].0, y: ps[0].1, d: 1 as isize })),
            ps.subrange(1, ps.len() as int),
            p,
        );
    }
}

/// A well-formed grid for a structure: square of the given size, every
/// cell a carrier element.
pub open spec fn grid_ok(t: Diagma, g: Seq<Seq<usize>>, size: int) -> bool {
    &&& g.len() == size
    &&& forall|y: int| 0 <= y < size ==> (#[trigger] g[y]).len() == size
    &&& forall|y: int, x: int|
        0 <= y < size && 0 <= x < size ==> (#[trigger] g[y][x]) < t.spec_order()
}

/// Copy the grid cell by cell.
fn copy_grid(g: &Vec<Vec<usize>>) -> (r: Vec<Vec<usize>>)
    ensures
        r@.len() == g@.len(),
        forall|y: int| 0 <= y < g@.len() ==> (#[trigger] r@[y])@ == g@[y]@,
{
    let mut r: Vec<Vec<usize>> = Vec::new();
    for y in 0..g.len()
        invariant
            r@.len() == y,
            forall|yy: int| 0 <= yy < y ==> (#[trigger] r@[yy])@ == g@[yy]@,
    {
        let mut row: Vec<usize> = Vec::new();
        let n = g[y].len();
        for x in 0..n
            invariant
                y < g@.len(),
                n == g@[y as int]@.len(),
                row@.len() == x,
                forall|xx: int| 0 <= xx < x ==> (#[trigger] row@[xx]) == g@[y as int]@[xx],
        {
            row.push(g[y][x]);
        }
        proof {
            assert(row@ =~= g@[y as int]@);
        }
        r.push(row);
    }
    r
}

/// Build an `n` by `n` grid with every cell set to `v`.
fn fill_grid(n: usize, v: usize) -> (r: Vec<Vec<usize>>)
    ensures
        r@.len() == n,
        forall|y: int| 0 <= y < n ==> (#[trigger] r@[y])@.len() == n,
        forall|y: int, x: int| 0 <= y < n && 0 <= x < n ==> (#[trigger] r@[y]@[x]) == v,
{
    let mut r: Vec<Vec<usize>> = Vec::new();
    for y in 0..n
        invariant
            r@.len() == y,
            forall|yy: int| 0 <= yy < y ==> (#[trigger] r@[yy])@.len() == n,
            forall|yy: int, xx: int| 0 <= yy < y && 0 <= xx < n ==> (#[trigger] r@[yy]@[xx]) == v,
    {
        let mut row: Vec<usize> = Vec::new();
        for x in 0..n
            invariant
                row@.len() == x,
                forall|xx: int| 0 <= xx < x ==> (#[trigger] row@[xx]) == v,
        {
            row.push(v);
        }
        r.push(row);
    }
    r
}

/// The puzzle board.
pub struct Board {
    /// The grid, indexed row first: `pieces[y][x]`.
    pub pieces: Vec<Vec<usize>>,
    /// The active algebraic structure.
    pub table: Diagma,
    /// The side length of the square grid.
    pub size: usize,
    /// The undo/redo history of applied moves.
    pub undo_stack: MoveStack,
}

impl Board {
    /// The grid contents.
    pub open spec fn grid(self) -> Seq<Seq<usize>> {
        grid_view(self.pieces@)
    }

    /// Well-formedness: a square grid of carrier elements of a well-formed
    /// structure, and a history whose moves all lie on the grid, are never
    /// no-ops, and have negatable magnitudes.
    pub open spec fn wf(self) -> bool {
        &&& self.table.wf()
        &&& 1 <= self.size
        &&& self.pieces@.len() == self.size
        &&& forall|y: int| 0 <= y < self.size ==> (#[trigger] self.pieces@[y])@.len() == self.size
        &&& forall|y: int, x: int|
            0 <= y < self.size && 0 <= x < self.size ==> (#[trigger] self.pieces@[y]@[x])
                < self.table.spec_order()
        &&& self.undo_stack.wf()
        &&& forall|k: int|
            0 <= k < self.undo_stack.stack@.len() ==> {
                let m = #[trigger] self.undo_stack.stack@[k];
                m.x < self.size && m.y < self.size && m.d != 0 && m.d != isize::MIN
            }
    }

    /// Multiply the scratch cell `(x, y)` by `val`, `times` times.
    fn mul(&self, pieces: &mut Vec<Vec<usize>>, x: usize, y: usize, val: usize, times: usize)
        requires
            self.table.wf(),
            val < self.table.spec_order(),
            y < old(pieces)@.len(),
            x < old(pieces)@[y as int]@.len(),
            old(pieces)@[y as int]@[x as int] < self.table.spec_order(),
        ensures
            final(pieces)@.len() == old(pieces)@.len(),
            forall|yy: int|
                0 <= yy < old(pieces)@.len() && yy != y ==> (#[trigger] final(pieces)@[yy])@
                    == old(pieces)@[yy]@,
            final(pieces)@[y as int]@.len() == old(pieces)@[y as int]@.len(),
            forall|xx: int|
                0 <= xx < old(pieces)@[y as int]@.len() && xx != x ==> (#[trigger] final(pieces)@[y as int]@[xx]) == old(pieces)@[y as int]@[xx],
            final(pieces)@[y as int]@[x as int] == mul_iter(
                self.table,
                old(pieces)@[y as int]@[x as int] as int,
                val as int,
                times as nat,
            ),
            final(pieces)@[y as int]@[x as int] < self.table.spec_order(),
    {
        let mut r: usize = pieces[y][x];
        for k in 0..times
            invariant
                self.table.wf(),
                val < self.table.spec_order(),
                y < pieces@.len(),
                x < pieces@[y as int]@.len(),
                r < self.table.spec_order(),
                r == mul_iter(
                    self.table,
                    pieces@[y as int]@[x as int] as int,
                    val as int,
                    k as nat,
                ),
        {
            r = self.table.mul(r, val);
        }
        pieces[y][x] = r;
    }

    /// Right-divide the scratch cell `(x, y)` by `val`, `times` times. On a
    /// missing quotient the scratch grid is left unchanged.
    fn div(&self, pieces: &mut Vec<Vec<usize>>, x: usize, y: usize, val: usize, times: usize) -> (r:
        Result<(), FailType>)
        requires
            self.table.wf(),
            val < self.table.spec_order(),
            y < old(pieces)@.len(),
            x < old(pieces)@[y as int]@.len(),
            old(pieces)@[y as int]@[x as int] < self.table.spec_order(),
        ensures
            final(pieces)@.len() == old(pieces)@.len(),
            forall|yy: int|
                0 <= yy < old(pieces)@.len() && yy != y ==> (#[trigger] final(pieces)@[yy])@
                    == old(pieces)@[yy]@,
            final(pieces)@[y as int]@.len() == old(pieces)@[y as int]@.len(),
            forall|xx: int|
                0 <= xx < old(pieces)@[y as int]@.len() && xx != x ==> (#[trigger] final(pieces)@[y as int]@[xx]) == old(pieces)@[y as int]@[xx],
            r is Ok <==> div_iter(
                self.table,
                old(pieces)@[y as int]@[x as int] as int,
                val as int,
                times as nat,
            ) is Some,
            r is Ok ==> Some(final(pieces)@[y as int]@[x as int] as int) == div_iter(
                self.table,
                old(pieces)@[y as int]@[x as int] as int,
                val as int,
                times as nat,
            ) && final(pieces)@[y as int]@[x as int] < self.table.spec_order(),
            r is Err ==> final(pieces)@[y as int]@[x as int] == old(
                pieces,
            )@[y as int]@[x as int] && r == Err::<(), FailType>(FailType::NoDiv),
    {
        let mut r: usize = pieces[y][x];
        for k in 0..times
            invariant
                self.table.wf(),
                val < self.table.spec_order(),
                y < pieces@.len(),
                x < pieces@[y as int]@.len(),
                r < self.table.spec_order(),
                div_iter(
                    self.table,
                    pieces@[y as int]@[x as int] as int,
                    val as int,
                    times as nat,
                ) == div_iter(self.table, r as int, val as int, (times - k) as nat),
        {
            match self.table.rquot(r, val) {
                Some(z) => {
                    r = z;
                },
                None => {
                    return Err(FailType::NoDiv);
                },
            }
        }
        pieces[y][x] = r;
        Ok(())
    }

    /// Apply one cell's share of a press: multiply for a nonnegative
    /// magnitude, right-divide for a negative one.
    fn op(&self, pieces: &mut Vec<Vec<usize>>, x: usize, y: usize, val: usize, times: isize) -> (r:
        Result<(), FailType>)
        requires
            self.table.wf(),
            val < self.table.spec_order(),
            y < old(pieces)@.len(),
            x < old(pieces)@[y as int]@.len(),
            old(pieces)@[y as int]@[x as int] < self.table.spec_order(),
            times != isize::MIN,
        ensures
            final(pieces)@.len() == old(pieces)@.len(),
            forall|yy: int|
                0 <= yy < old(pieces)@.len() && yy != y ==> (#[trigger] final(pieces)@[yy])@
                    == old(pieces)@[yy]@,
            final(pieces)@[y as int]@.len() == old(pieces)@[y as int]@.len(),
            forall|xx: int|
                0 <= xx < old(pieces)@[y as int]@.len() && xx != x ==> (#[trigger] final(pieces)@[y as int]@[xx]) == old(pieces)@[y as int]@[xx],
            r is Ok <==> op_iter(
                self.table,
                old(pieces)@[y as int]@[x as int] as int,
                val as int,
                times as int,
            ) is Some,
            r is Ok ==> Some(final(pieces)@[y as int]@[x as int] as int) == op_iter(
                self.table,
                old(pieces)@[y as int]@[x as int] as int,
                val as int,
                times as int,
            ) && final(pieces)@[y as int]@[x as int] < self.table.spec_order(),
            r is Err ==> final(pieces)@[y as int]@[x as int] == old(
                pieces,
            )@[y as int]@[x as int] && r == Err::<(), FailType>(FailType::NoDiv),
    {
        if times >= 0 {
            self.mul(pieces, x, y, val, times as usize);
            Ok(())
        } else {
            self.div(pieces, x, y, val, (-times) as usize)
        }
    }

    /// Apply a press: compute the generator from the pressed cell (its value
    /// forward, its square root inverse), then recombine the cell and each
    /// in-bounds orthogonal neighbor on a scratch grid. The scratch grid
    /// replaces the live grid only when every outcome is defined; on a
    /// missing quotient the board is untouched.
    pub fn press(&mut self, m: Move) -> (r: Result<(), FailType>)
        requires
            old(self).wf(),
            m.x < old(self).size,
            m.y < old(self).size,
            m.d != isize::MIN,
            m.d < 0 ==> old(self).table.spec_root(
                old(self).grid()[m.y as int][m.x as int] as int,
            ) is Some,
        ensures
            final(self).wf(),
            final(self).table == old(self).table,
            final(self).size == old(self).size,
            final(self).undo_stack == old(self).undo_stack,
            r is Ok <==> press_ok(old(self).table, old(self).grid(), m),
            r is Ok ==> final(self).grid() == press_grid(old(self).table, old(self).grid(), m),
            r is Err ==> final(self).grid() == old(self).grid() && r == Err::<(), FailType>(
                FailType::NoDiv,
            ),
    {
        let x = m.x;
        let y = m.y;
        let d = m.d;
        let ghost g0 = self.grid();
        let ghost t = self.table;
        let ghost dd = m.d as int;
        let val: usize = if d >= 0 {
            self.pieces[y][x]
        } else {
            let cur: usize = self.pieces[y][x];
            self.table.root(cur)
        };
        let ghost vt = val as int;
        proof {
            assert(press_val(t, g0, m) == Some(vt));
        }
        let mut scratch = copy_grid(&self.pieces);
        match self.op(&mut scratch, x, y, val, d) {
            Ok(()) => {},
            Err(e) => {
                proof {
                    assert(op_iter(t, g0[y as int][x as int] as int, vt, dd) is None);
                    assert(!press_ok(t, g0, m));
                }
                return Err(e);
            },
        }
        if y < self.size - 1 {
            match self.op(&mut scratch, x, y + 1, val, d) {
                Ok(()) => {},
                Err(e) => {
                    proof {
                        assert(op_iter(t, g0[y + 1][x as int] as int, vt, dd) is None);
                        assert(!press_ok(t, g0, m));
                    }
                    return Err(e);
                },
            }
        }
        if y > 0 {
            match self.op(&mut scratch, x, y - 1, val, d) {
                Ok(()) => {},
                Err(e) => {
                    proof {
                        assert(op_iter(t, g0[y - 1][x as int] as int, vt, dd) is None);
                        assert(!press_ok(t, g0, m));
                    }
                    return Err(e);
                },
            }
        }
        if x < self.size - 1 {
            match self.op(&mut scratch, x + 1, y, val, d) {
                Ok(()) => {},
                Err(e) => {
                    proof {
                        assert(op_iter(t, g0[y as int][x + 1] as int, vt, dd) is None);
                        assert(!press_ok(t, g0, m));
                    }
                    return Err(e);
                },
            }
        }
        if x > 0 {
            match self.op(&mut scratch, x - 1, y, val, d) {
                Ok(()) => {},
                Err(e) => {
                    proof {
                        assert(op_iter(t, g0[y as int][x - 1] as int, vt, dd) is None);
                        assert(!press_ok(t, g0, m));
                    }
                    return Err(e);
                },
            }
        }
        self.pieces = scratch;
        proof {
            let n = old(self).size as int;
            assert forall|cy: int, cx: int|
                0 <= cy < n && 0 <= cx < n && in_cross(
                    m.x as int,
                    m.y as int,
                    cx,
                    cy,
                ) implies (#[trigger] op_iter(t, g0[cy][cx] as int, vt, dd)) is Some
                && self.grid()[cy][cx] == op_iter(t, g0[cy][cx] as int, vt, dd)->Some_0 by {
                assert(self.grid()[cy][cx] == self.pieces@[cy]@[cx]);
            }
            assert(press_ok(t, g0, m));
            assert forall|cy: int, cx: int|
                0 <= cy < n && 0 <= cx < n && !in_cross(
                    m.x as int,
                    m.y as int,
                    cx,
                    cy,
                ) implies self.grid()[cy][cx] == g0[cy][cx] by {
                assert(self.grid()[cy][cx] == self.pieces@[cy]@[cx]);
            }
            assert(self.grid() =~~= press_grid(t, g0, m));
        }
        Ok(())
    }

    /// A fresh board: an `n` by `n` grid filled with the structure's
    /// starting value and an empty history.
    pub fn new(n: usize, table: Diagma) -> (r: Board)
        requires
            1 <= n,
            table.wf(),
        ensures
            r.wf(),
            r.size == n,
            r.table == table,
            r.undo_stack.stack@.len() == 0,
            r.undo_stack.index == 0,
            forall|y: int, x: int|
                0 <= y < n && 0 <= x < n ==> (#[trigger] r.grid()[y][x]) == table.spec_init(),
    {
        let init = table.init();
        Board { pieces: fill_grid(n, init), table, size: n, undo_stack: MoveStack::new() }
    }

    /// Refill every cell with the structure's starting value and discard
    /// the whole history. Only the structure and the size are read, so this
    /// also (re)establishes a board whose grid belonged to another
    /// structure.
    pub fn reset(&mut self)
        requires
            old(self).table.wf(),
            1 <= old(self).size,
        ensures
            final(self).wf(),
            final(self).table == old(self).table,
            final(self).size == old(self).size,
            final(self).undo_stack.stack@.len() == 0,
            final(self).undo_stack.index == 0,
            forall|y: int, x: int|
                0 <= y < old(self).size && 0 <= x < old(self).size ==> (#[trigger] final(self).grid()[y][x]) == old(self).table.spec_init(),
    {
        let init = self.table.init();
        self.pieces = fill_grid(self.size, init);
        self.undo_stack = MoveStack::new();
    }

    /// Swap in a new structure and reset: the old cell values need not be
    /// meaningful under a structure of a different order.
    pub fn set_table(&mut self, table: Diagma)
        requires
            old(self).wf(),
            table.wf(),
        ensures
            final(self).wf(),
            final(self).table == table,
            final(self).size == old(self).size,
            final(self).undo_stack.stack@.len() == 0,
            final(self).undo_stack.index == 0,
            forall|y: int, x: int|
                0 <= y < old(self).size && 0 <= x < old(self).size ==> (#[trigger] final(self).grid()[y][x]) == table.spec_init(),
    {
        self.table = table;
        self.reset();
    }

    /// Apply a move: a zero magnitude is a guaranteed no-op that is never
    /// recorded; otherwise press, and record the move only on success.
    pub fn apply_move(&mut self, m: Move) -> (r: Result<(), FailType>)
        requires
            old(self).wf(),
            m.x < old(self).size,
            m.y < old(self).size,
            m.d != isize::MIN,
            m.d < 0 ==> old(self).table.spec_root(
                old(self).grid()[m.y as int][m.x as int] as int,
            ) is Some,
        ensures
            final(self).wf(),
            final(self).table == old(self).table,
            final(self).size == old(self).size,
            r is Ok <==> (m.d == 0 || press_ok(old(self).table, old(self).grid(), m)),
            m.d == 0 ==> r is Ok && *final(self) == *old(self),
            m.d != 0 && r is Ok ==> final(self).grid() == press_grid(
                old(self).table,
                old(self).grid(),
                m,
            ) && final(self).undo_stack.stack@ == old(self).undo_stack.kept().push(m) && final(self).undo_stack.index == 0,
            r is Err ==> final(self).grid() == old(self).grid() && final(self).undo_stack == old(self).undo_stack && r == Err::<(), FailType>(FailType::NoDiv),
    {
        if m.d != 0 {
            match self.press(m) {
                Ok(()) => {},
                Err(e) => {
                    return Err(e);
                },
            }
            self.undo_stack.push(m);
        }
        Ok(())
    }

    /// Undo the most recently applied move that is not yet undone by
    /// pressing its inverse. Fails with `UndoEmpty` when the history is
    /// exhausted, and with `NoDiv` when the inverse press itself lacks a
    /// quotient; either failure leaves the board, the cursor included,
    /// exactly as it was.
    pub fn undo(&mut self) -> (r: Result<(), FailType>)
        requires
            old(self).wf(),
            old(self).undo_stack.index < old(self).undo_stack.stack@.len() && old(self).undo_stack.peek_undo().d > 0 ==> old(self).table.spec_root(
                old(self).grid()[old(self).undo_stack.peek_undo().y as int][old(self).undo_stack.peek_undo().x as int] as int,
            ) is Some,
        ensures
            final(self).wf(),
            final(self).table == old(self).table,
            final(self).size == old(self).size,
            final(self).undo_stack.stack@ == old(self).undo_stack.stack@,
            old(self).undo_stack.index == old(self).undo_stack.stack@.len() ==> r == Err::<
                (),
                FailType,
            >(FailType::UndoEmpty) && *final(self) == *old(self),
            old(self).undo_stack.index < old(self).undo_stack.stack@.len() ==> {
                &&& (r is Ok <==> press_ok(
                    old(self).table,
                    old(self).grid(),
                    old(self).undo_stack.peek_undo().spec_inv(),
                ))
                &&& r is Ok ==> final(self).grid() == press_grid(
                    old(self).table,
                    old(self).grid(),
                    old(self).undo_stack.peek_undo().spec_inv(),
                ) && final(self).undo_stack.index == old(self).undo_stack.index + 1
                &&& r is Err ==> final(self).grid() == old(self).grid() && final(self).undo_stack == old(self).undo_stack && r == Err::<(), FailType>(FailType::NoDiv)
            },
    {
        match self.undo_stack.undo() {
            Some(m) => {
                let im = m.inv();
                match self.press(im) {
                    Ok(()) => Ok(()),
                    Err(e) => {
                        // full rollback: a failed inverse press must not
                        // leave the move marked as undone
                        let _ = self.undo_stack.redo();
                        Err(e)
                    },
                }
            },
            None => Err(FailType::UndoEmpty),
        }
    }

    /// Redo the most recently undone move by pressing it again. Fails with
    /// `RedoEmpty` when no move is undone, and with `NoDiv` when the press
    /// lacks a quotient; either failure leaves the board, the cursor
    /// included, exactly as it was.
    pub fn redo(&mut self) -> (r: Result<(), FailType>)
        requires
            old(self).wf(),
            old(self).undo_stack.index > 0 && old(self).undo_stack.peek_redo().d < 0 ==> old(self).table.spec_root(
                old(self).grid()[old(self).undo_stack.peek_redo().y as int][old(self).undo_stack.peek_redo().x as int] as int,
            ) is Some,
        ensures
            final(self).wf(),
            final(self).table == old(self).table,
            final(self).size == old(self).size,
            final(self).undo_stack.stack@ == old(self).undo_stack.stack@,
            old(self).undo_stack.index == 0 ==> r == Err::<(), FailType>(FailType::RedoEmpty)
                && *final(self) == *old(self),
            old(self).undo_stack.index > 0 ==> {
                &&& (r is Ok <==> press_ok(
                    old(self).table,
                    old(self).grid(),
                    old(self).undo_stack.peek_redo(),
                ))
                &&& r is Ok ==> final(self).grid() == press_grid(
                    old(self).table,
                    old(self).grid(),
                    old(self).undo_stack.peek_redo(),
                ) && final(self).undo_stack.index == old(self).undo_stack.index - 1
                &&& r is Err ==> final(self).grid() == old(self).grid() && final(self).undo_stack == old(self).undo_stack && r == Err::<(), FailType>(FailType::NoDiv)
            },
    {
        match self.undo_stack.redo() {
            Some(m) => {
                match self.press(m) {
                    Ok(()) => Ok(()),
                    Err(e) => {
                        // full rollback: a failed press must not leave the
                        // move marked as re-applied
                        let _ = self.undo_stack.undo();
                        Err(e)
                    },
                }
            },
            None => Err(FailType::RedoEmpty),
        }
    }

    /// Press a uniformly random cell forward once, as one scrambling step.
    /// The history is not touched. A forward press of magnitude 1 cannot
    /// lack a quotient, so the grid always takes the press.
    pub fn random_move(&mut self)
        requires
            old(self).wf(),
        ensures
            final(self).wf(),
            final(self).table == old(self).table,
            final(self).size == old(self).size,
            final(self).undo_stack == old(self).undo_stack,
            exists|x: usize, y: usize|
                x < old(self).size && y < old(self).size && final(self).grid()
                    == #[trigger] press_grid(
                    old(self).table,
                    old(self).grid(),
                    (Move { x, y, d: 1 as isize }),
                ),
    {
        let x = random_below(self.size);
        let y = random_below(self.size);
        let m = Move::new(x, y);
        let r = self.press(m);
        proof {
            assert(r is Ok);
            assert(self.grid() == press_grid(
                old(self).table,
                old(self).grid(),
                (Move { x, y, d: 1 as isize }),
            ));
        }
    }

    /// Scramble: reset, then take `count` random forward presses. The final
    /// grid is the freshly reset grid driven through some sequence of
    /// `count` in-bounds forward unit presses; the history ends empty, so a
    /// scramble cannot be undone move by move.
    pub fn scramble(&mut self, count: usize)
        requires
            old(self).wf(),
        ensures
            final(self).wf(),
            final(self).table == old(self).table,
            final(self).size == old(self).size,
            final(self).undo_stack.stack@.len() == 0,
            final(self).undo_stack.index == 0,
            exists|ps: Seq<(usize, usize)>|
                ps.len() == count && (forall|k: int|
                    0 <= k < ps.len() ==> (#[trigger] ps[k]).0 < old(self).size && ps[k].1 < old(
                        self,
                    ).size) && final(self).grid() == #[trigger] press_run(
                    old(self).table,
                    init_grid(old(self).table, old(self).size as int),
                    ps,
                ),
    {
        self.reset();
        proof {
            assert forall|y: int| 0 <= y < self.size implies (#[trigger] self.grid()[y]).len()
                == self.size by {
                assert(self.grid()[y] == self.pieces@[y]@);
            }
            assert(self.grid() =~~= init_grid(self.table, self.size as int));
        }
        let ghost base = self.grid();
        let ghost mut ps: Seq<(usize, usize)> = Seq::empty();
        for k in 0..count
            invariant
                self.wf(),
                self.table == old(self).table,
                self.size == old(self).size,
                self.undo_stack.stack@.len() == 0,
                self.undo_stack.index == 0,
                ps.len() == k,
                forall|kk: int|
                    0 <= kk < ps.len() ==> (#[trigger] ps[kk]).0 < self.size && ps[kk].1
                        < self.size,
                base == init_grid(self.table, self.size as int),
                self.grid() == press_run(self.table, base, ps),
        {
            let ghost g_prev = self.grid();
            self.random_move();
            proof {
                let p = choose|x: usize, y: usize|
                    x < self.size && y < self.size && self.grid() == #[trigger] press_grid(
                        self.table,
                        g_prev,
                        (Move { x, y, d: 1 as isize }),
                    );
                lemma_press_run_snoc(self.table, base, ps, (p.0, p.1));
                ps = ps.push((p.0, p.1));
            }
        }
        proof {
            assert(self.grid() == press_run(
                old(self).table,
                init_grid(old(self).table, old(self).size as int),
                ps,
            ));
        }
    }
}

} // verus!
