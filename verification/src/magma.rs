//! Finite algebraic structures the puzzle plays over.
//!
//! A structure is a binary operation on the carrier `[0, order)`, together
//! with partial one-sided quotients and a square-root lookup. Two variants
//! exist: a cyclic structure (addition modulo `order`) and a table-defined
//! structure (an explicit `order x order` matrix of carrier elements).

use vstd::prelude::*;

verus! {

/// Failure outcomes reported by board commands and table transforms.
#[derive(Clone, Copy, Debug, PartialEq, Eq, Structural)]
pub enum FailType {
    /// `undo` was called with no move left to undo.
    UndoEmpty,
    /// `redo` was called with no undone move left to redo.
    RedoEmpty,
    /// A required right or left quotient is not defined for the operands met.
    NoDiv,
}

/// A finite diagonal magma over the carrier `[0, order)`.
pub enum Diagma {
    /// Addition modulo `order`.
    Cyclic { order: usize },
    /// An explicit multiplication table: entry `[a][b]` is `mul(a, b)`.
    Table { table: Vec<Vec<usize>> },
}

impl Diagma {
    /// The carrier size.
    pub open spec fn spec_order(self) -> int {
        match self {
            Diagma::Cyclic { order } => order as int,
            Diagma::Table { table } => table@.len() as int,
        }
    }

    /// Well-formedness: a nonempty carrier; for the cyclic variant an order
    /// of at least 2 (its starting value is 1, which must lie in the
    /// carrier) small enough that closed-form arithmetic cannot overflow;
    /// for the table variant a square matrix with entries in the carrier.
    pub open spec fn wf(self) -> bool {
        match self {
            Diagma::Cyclic { order } => 2 <= order && order * order <= usize::MAX,
            Diagma::Table { table } => {
                &&& table@.len() >= 1
                &&& forall|i: int|
                    0 <= i < table@.len() ==> (#[trigger] table@[i])@.len() == table@.len()
                &&& forall|i: int, j: int|
                    0 <= i < table@.len() && 0 <= j < table@.len()
                        ==> (#[trigger] table@[i]@[j]) < table@.len()
            },
        }
    }

    /// The product of two carrier elements.
    pub open spec fn spec_mul(self, a: int, b: int) -> int {
        match self {
            Diagma::Cyclic { order } => (a + b) % (order as int),
            Diagma::Table { table } => table@[a]@[b] as int,
        }
    }

    /// First row index `i` in `[from, order)` with `mul(i, b) == a`.
    pub open spec fn col_search(self, a: int, b: int, from: int) -> Option<int>
        decreases self.spec_order() - from,
    {
        if from < 0 || from >= self.spec_order() {
            None
        } else if self.spec_mul(from, b) == a {
            Some(from)
        } else {
            self.col_search(a, b, from + 1)
        }
    }

    /// First column index `i` in `[from, order)` with `mul(a, i) == b`.
    pub open spec fn row_search(self, a: int, b: int, from: int) -> Option<int>
        decreases self.spec_order() - from,
    {
        if from < 0 || from >= self.spec_order() {
            None
        } else if self.spec_mul(a, from) == b {
            Some(from)
        } else {
            self.row_search(a, b, from + 1)
        }
    }

    /// First diagonal index `i` in `[from, order)` with `mul(i, i) == a`.
    pub open spec fn diag_search(self, a: int, from: int) -> Option<int>
        decreases self.spec_order() - from,
    {
        if from < 0 || from >= self.spec_order() {
            None
        } else if self.spec_mul(from, from) == a {
            Some(from)
        } else {
            self.diag_search(a, from + 1)
        }
    }

    /// The right quotient: the `c` with `mul(c, b) == a`, if any. The cyclic
    /// variant has the closed form `(a - b) mod order`; the table variant
    /// returns the first matching row of column `b`.
    pub open spec fn spec_rquot(self, a: int, b: int) -> Option<int> {
        match self {
            Diagma::Cyclic { order } => Some((a + order - b) % (order as int)),
            Diagma::Table { .. } => self.col_search(a, b, 0),
        }
    }

    /// The left quotient: the `c` with `mul(a, c) == b`, if any. The cyclic
    /// variant delegates to the right quotient; the table variant returns
    /// the first matching column of row `a`.
    pub open spec fn spec_lquot(self, a: int, b: int) -> Option<int> {
        match self {
            Diagma::Cyclic { .. } => self.spec_rquot(b, a),
            Diagma::Table { .. } => self.row_search(a, b, 0),
        }
    }

    /// The square root: a `c` with `mul(c, c) == a`. The cyclic variant has
    /// the closed form `a * (order + 1) / 2 mod order` (an exact root when
    /// `order` is odd); the table variant returns the first matching
    /// diagonal entry, and has no root when none matches.
    pub open spec fn spec_root(self, a: int) -> Option<int> {
        match self {
            Diagma::Cyclic { order } => Some((a * (order + 1) / 2) % (order as int)),
            Diagma::Table { .. } => self.diag_search(a, 0),
        }
    }

    /// The identity element, where the structure defines one.
    pub open spec fn spec_ident(self) -> Option<int> {
        match self {
            Diagma::Cyclic { .. } => Some(0),
            Diagma::Table { .. } => None,
        }
    }

    /// The value new grid cells start at: 1 for the cyclic variant (a
    /// deliberately non-identity start), 0 for table-defined structures.
    pub open spec fn spec_init(self) -> int {
        match self {
            Diagma::Cyclic { .. } => 1,
            Diagma::Table { .. } => 0,
        }
    }

    /// The carrier size.
    pub fn order(&self) -> (r: usize)
        ensures
            r == self.spec_order(),
    {
        match self {
            Diagma::Cyclic { order } => *order,
            Diagma::Table { table } => table.len(),
        }
    }

    /// Multiply two carrier elements; total, and closed over the carrier.
    pub fn mul(&self, a: usize, b: usize) -> (r: usize)
        requires
            self.wf(),
            a < self.spec_order(),
            b < self.spec_order(),
        ensures
            r == self.spec_mul(a as int, b as int),
            r < self.spec_order(),
    {
        match self {
            Diagma::Cyclic { order } => {
                let o: usize = *order;
                proof {
                    assert(a + b <= o * o) by (nonlinear_arith)
                        requires
                            2 <= o,
                            a < o,
                            b < o,
                    ;
                }
                (a + b) % o
            },
            Diagma::Table { table } => table[a][b],
        }
    }

    /// The identity element, where the structure defines one.
    pub fn ident(&self) -> (r: Option<usize>)
        ensures
            match r {
                Some(x) => self.spec_ident() == Some(x as int),
                None => self.spec_ident() is None,
            },
    {
        match self {
            Diagma::Cyclic { .. } => Some(0),
            Diagma::Table { .. } => None,
        }
    }

    /// Find the right quotient of `a` by `b`: the first row `c` (in scan
    /// order) with `mul(c, b) == a`, or nothing when column `b` never takes
    /// the value `a`. Total for the cyclic variant.
    pub fn rquot(&self, a: usize, b: usize) -> (r: Option<usize>)
        requires
            self.wf(),
            a < self.spec_order(),
            b < self.spec_order(),
        ensures
            match r {
                Some(x) => self.spec_rquot(a as int, b as int) == Some(x as int) && x
                    < self.spec_order(),
                None => self.spec_rquot(a as int, b as int) is None,
            },
    {
        match self {
            Diagma::Cyclic { order } => {
                let o: usize = *order;
                proof {
                    lemma_two_le_sq(o as int);
                }
                Some((a + o - b) % o)
            },
            Diagma::Table { .. } => {
                let n = self.order();
                for i in 0..n
                    invariant
                        self.wf(),
                        self is Table,
                        a < n,
                        b < n,
                        n == self.spec_order(),
                        self.col_search(a as int, b as int, 0) == self.col_search(
                            a as int,
                            b as int,
                            i as int,
                        ),
                {
                    if self.mul(i, b) == a {
                        return Some(i);
                    }
                }
                None
            },
        }
    }

    /// Find the left quotient: the first column `c` (in scan order) with
    /// `mul(a, c) == b`, or nothing when row `a` never takes the value `b`.
    /// Total for the cyclic variant.
    pub fn lquot(&self, a: usize, b: usize) -> (r: Option<usize>)
        requires
            self.wf(),
            a < self.spec_order(),
            b < self.spec_order(),
        ensures
            match r {
                Some(x) => self.spec_lquot(a as int, b as int) == Some(x as int) && x
                    < self.spec_order(),
                None => self.spec_lquot(a as int, b as int) is None,
            },
    {
        match self {
            Diagma::Cyclic { .. } => self.rquot(b, a),
            Diagma::Table { .. } => {
                let n = self.order();
                for i in 0..n
                    invariant
                        self.wf(),
                        self is Table,
                        a < n,
                        b < n,
                        n == self.spec_order(),
                        self.row_search(a as int, b as int, 0) == self.row_search(
                            a as int,
                            b as int,
                            i as int,
                        ),
                {
                    if self.mul(a, i) == b {
                        return Some(i);
                    }
                }
                None
            },
        }
    }

    /// The square root of `a`. The structure must provide one: the cyclic
    /// closed form is always computable, and a table-defined structure must
    /// have a diagonal entry equal to `a`.
    pub fn root(&self, a: usize) -> (r: usize)
        requires
            self.wf(),
            a < self.spec_order(),
            self.spec_root(a as int) is Some,
        ensures
            self.spec_root(a as int) == Some(r as int),
            r < self.spec_order(),
    {
        match self {
            Diagma::Cyclic { order } => {
                let o: usize = *order;
                proof {
                    lemma_two_le_sq(o as int);
                    assert(a * (o + 1) < o * o) by (nonlinear_arith)
                        requires
                            2 <= o,
                            a < o,
                    ;
                }
                (a * (o + 1) / 2) % o
            },
            Diagma::Table { .. } => {
                let n = self.order();
                for i in 0..n
                    invariant
                        self.wf(),
                        self is Table,
                        a < n,
                        n == self.spec_order(),
                        self.spec_root(a as int) is Some,
                        self.diag_search(a as int, 0) == self.diag_search(a as int, i as int),
                {
                    if self.mul(i, i) == a {
                        return i;
                    }
                }
                proof {
                    assert(false);
                }
                0
            },
        }
    }

    /// Whether `a` has a square root in this structure: always for the
    /// cyclic closed form, and exactly when some diagonal entry equals `a`
    /// for a table-defined structure.
    pub fn has_root(&self, a: usize) -> (r: bool)
        requires
            self.wf(),
            a < self.spec_order(),
        ensures
            r == (self.spec_root(a as int) is Some),
    {
        match self {
            Diagma::Cyclic { .. } => true,
            Diagma::Table { .. } => {
                let n = self.order();
                for i in 0..n
                    invariant
                        self.wf(),
                        self is Table,
                        a < n,
                        n == self.spec_order(),
                        self.diag_search(a as int, 0) == self.diag_search(a as int, i as int),
                {
                    if self.mul(i, i) == a {
                        return true;
                    }
                }
                false
            },
        }
    }

    /// The value new grid cells start at.
    pub fn init(&self) -> (r: usize)
        requires
            self.wf(),
        ensures
            r == self.spec_init(),
            r < self.spec_order(),
    {
        match self {
            Diagma::Cyclic { .. } => 1,
            Diagma::Table { .. } => 0,
        }
    }

    /// The label shown for carrier element `a`: its decimal digits, 1-indexed
    /// for table-defined structures and as-is for the cyclic variant.
    pub open spec fn spec_rep(self, a: int) -> Seq<char> {
        match self {
            Diagma::Cyclic { .. } => decimal(a),
            Diagma::Table { .. } => decimal(a + 1),
        }
    }

    /// Derive a table-defined structure with the `(a, b)` entry incremented
    /// modulo the order and every other product unchanged.
    pub fn modify(&self, a: usize, b: usize) -> (r: Diagma)
        requires
            self.wf(),
            a < self.spec_order(),
            b < self.spec_order(),
        ensures
            r.wf(),
            r is Table,
            r.spec_order() == self.spec_order(),
            forall|i: int, j: int|
                0 <= i < self.spec_order() && 0 <= j < self.spec_order()
                    ==> #[trigger] r.spec_mul(i, j) == if i == a && j == b {
                    (self.spec_mul(a as int, b as int) + 1) % self.spec_order()
                } else {
                    self.spec_mul(i, j)
                },
    {
        let n = self.order();
        let mut t: Vec<Vec<usize>> = Vec::new();
        for i in 0..n
            invariant
                self.wf(),
                a < n,
                b < n,
                n == self.spec_order(),
                t@.len() == i,
                forall|ii: int| 0 <= ii < i ==> (#[trigger] t@[ii])@.len() == n,
                forall|ii: int, jj: int|
                    0 <= ii < i && 0 <= jj < n
                        ==> (#[trigger] t@[ii]@[jj]) < n && t@[ii]@[jj] == if ii == a && jj == b {
                        (self.spec_mul(a as int, b as int) + 1) % (n as int)
                    } else {
                        self.spec_mul(ii, jj)
                    },
        {
            let mut row: Vec<usize> = Vec::new();
            for j in 0..n
                invariant
                    self.wf(),
                    a < n,
                    b < n,
                    i < n,
                    n == self.spec_order(),
                    row@.len() == j,
                    forall|jj: int|
                        0 <= jj < j ==> (#[trigger] row@[jj]) < n && row@[jj] == if i == a && jj
                            == b {
                            (self.spec_mul(a as int, b as int) + 1) % (n as int)
                        } else {
                            self.spec_mul(i as int, jj)
                        },
            {
                let v: usize = if i == a && j == b {
                    (self.mul(a, b) + 1) % n
                } else {
                    self.mul(i, j)
                };
                row.push(v);
            }
            t.push(row);
        }
        Diagma::Table { table: t }
    }

    /// Derive a table-defined structure with rows `a` and `b` exchanged.
    pub fn row_swap(&self, a: usize, b: usize) -> (r: Diagma)
        requires
            self.wf(),
            a < self.spec_order(),
            b < self.spec_order(),
        ensures
            r.wf(),
            r is Table,
            r.spec_order() == self.spec_order(),
            forall|i: int, j: int|
                0 <= i < self.spec_order() && 0 <= j < self.spec_order()
                    ==> #[trigger] r.spec_mul(i, j) == self.spec_mul(
                    swap_idx(a as int, b as int, i),
                    j,
                ),
    {
        let n = self.order();
        let mut t: Vec<Vec<usize>> = Vec::new();
        for i in 0..n
            invariant
                self.wf(),
                a < n,
                b < n,
                n == self.spec_order(),
                t@.len() == i,
                forall|ii: int| 0 <= ii < i ==> (#[trigger] t@[ii])@.len() == n,
                forall|ii: int, jj: int|
                    0 <= ii < i && 0 <= jj < n
                        ==> (#[trigger] t@[ii]@[jj]) < n && t@[ii]@[jj] == self.spec_mul(
                        swap_idx(a as int, b as int, ii),
                        jj,
                    ),
        {
            let src: usize = if i == a {
                b
            } else if i == b {
                a
            } else {
                i
            };
            let mut row: Vec<usize> = Vec::new();
            for j in 0..n
                invariant
                    self.wf(),
                    src < n,
                    i < n,
                    n == self.spec_order(),
                    src == swap_idx(a as int, b as int, i as int),
                    row@.len() == j,
                    forall|jj: int|
                        0 <= jj < j ==> (#[trigger] row@[jj]) < n && row@[jj] == self.spec_mul(
                            src as int,
                            jj,
                        ),
            {
                row.push(self.mul(src, j));
            }
            t.push(row);
        }
        Diagma::Table { table: t }
    }

    /// Derive a table-defined structure with columns `a` and `b` exchanged.
    pub fn col_swap(&self, a: usize, b: usize) -> (r: Diagma)
        requires
            self.wf(),
            a < self.spec_order(),
            b < self.spec_order(),
        ensures
            r.wf(),
            r is Table,
            r.spec_order() == self.spec_order(),
            forall|i: int, j: int|
                0 <= i < self.spec_order() && 0 <= j < self.spec_order()
                    ==> #[trigger] r.spec_mul(i, j) == self.spec_mul(
                    i,
                    swap_idx(a as int, b as int, j),
                ),
    {
        let n = self.order();
        let mut t: Vec<Vec<usize>> = Vec::new();
        for i in 0..n
            invariant
                self.wf(),
                a < n,
                b < n,
                n == self.spec_order(),
                t@.len() == i,
                forall|ii: int| 0 <= ii < i ==> (#[trigger] t@[ii])@.len() == n,
                forall|ii: int, jj: int|
                    0 <= ii < i && 0 <= jj < n
                        ==> (#[trigger] t@[ii]@[jj]) < n && t@[ii]@[jj] == self.spec_mul(
                        ii,
                        swap_idx(a as int, b as int, jj),
                    ),
        {
            let mut row: Vec<usize> = Vec::new();
            for j in 0..n
                invariant
                    self.wf(),
                    a < n,
                    b < n,
                    i < n,
                    n == self.spec_order(),
                    row@.len() == j,
                    forall|jj: int|
                        0 <= jj < j ==> (#[trigger] row@[jj]) < n && row@[jj] == self.spec_mul(
                            i as int,
                            swap_idx(a as int, b as int, jj),
                        ),
            {
                let src: usize = if j == a {
                    b
                } else if j == b {
                    a
                } else {
                    j
                };
                row.push(self.mul(i, src));
            }
            t.push(row);
        }
        Diagma::Table { table: t }
    }

    /// Derive the transposed structure: its product of `a` and `b` is the
    /// source's product of `b` and `a`.
    pub fn trans_all(&self) -> (r: Diagma)
        requires
            self.wf(),
        ensures
            r.wf(),
            r is Table,
            r.spec_order() == self.spec_order(),
            forall|i: int, j: int|
                0 <= i < self.spec_order() && 0 <= j < self.spec_order()
                    ==> #[trigger] r.spec_mul(i, j) == self.spec_mul(j, i),
    {
        let n = self.order();
        let mut t: Vec<Vec<usize>> = Vec::new();
        for i in 0..n
            invariant
                self.wf(),
                n == self.spec_order(),
                t@.len() == i,
                forall|ii: int| 0 <= ii < i ==> (#[trigger] t@[ii])@.len() == n,
                forall|ii: int, jj: int|
                    0 <= ii < i && 0 <= jj < n
                        ==> (#[trigger] t@[ii]@[jj]) < n && t@[ii]@[jj] == self.spec_mul(jj, ii),
        {
            let mut row: Vec<usize> = Vec::new();
            for j in 0..n
                invariant
                    self.wf(),
                    i < n,
                    n == self.spec_order(),
                    row@.len() == j,
                    forall|jj: int|
                        0 <= jj < j ==> (#[trigger] row@[jj]) < n && row@[jj] == self.spec_mul(
                            jj,
                            i as int,
                        ),
            {
                row.push(self.mul(j, i));
            }
            t.push(row);
        }
        Diagma::Table { table: t }
    }

    /// Derive the structure whose `(i, j)` entry is the source's right
    /// quotient of `i` by `j`. Fails with `NoDiv` exactly when some pair has
    /// no right quotient.
    pub fn rquot_all(&self) -> (r: Result<Diagma, FailType>)
        requires
            self.wf(),
        ensures
            match r {
                Ok(t) => {
                    &&& t.wf()
                    &&& t is Table
                    &&& t.spec_order() == self.spec_order()
                    &&& forall|i: int, j: int|
                        0 <= i < self.spec_order() && 0 <= j < self.spec_order()
                            ==> self.spec_rquot(i, j) == Some(#[trigger] t.spec_mul(i, j))
                },
                Err(e) => e == FailType::NoDiv,
            },
            r is Ok <==> forall|i: int, j: int|
                0 <= i < self.spec_order() && 0 <= j < self.spec_order()
                    ==> (#[trigger] self.spec_rquot(i, j)) is Some,
    {
        let n = self.order();
        let mut t: Vec<Vec<usize>> = Vec::new();
        for i in 0..n
            invariant
                self.wf(),
                n == self.spec_order(),
                t@.len() == i,
                forall|ii: int| 0 <= ii < i ==> (#[trigger] t@[ii])@.len() == n,
                forall|ii: int, jj: int|
                    0 <= ii < i && 0 <= jj < n
                        ==> (#[trigger] t@[ii]@[jj]) < n && self.spec_rquot(ii, jj) == Some(
                        t@[ii]@[jj] as int,
                    ),
        {
            let mut row: Vec<usize> = Vec::new();
            for j in 0..n
                invariant
                    self.wf(),
                    i < n,
                    n == self.spec_order(),
                    row@.len() == j,
                    forall|jj: int|
                        0 <= jj < j ==> (#[trigger] row@[jj]) < n && self.spec_rquot(i as int, jj)
                            == Some(row@[jj] as int),
            {
                match self.rquot(i, j) {
                    Some(z) => row.push(z),
                    None => {
                        return Err(FailType::NoDiv);
                    },
                }
            }
            t.push(row);
        }
        proof {
            assert forall|i: int, j: int|
                0 <= i < self.spec_order() && 0 <= j
                    < self.spec_order() implies (#[trigger] self.spec_rquot(i, j)) is Some by {
                assert(self.spec_rquot(i, j) == Some(t@[i]@[j] as int));
            }
        }
        Ok(Diagma::Table { table: t })
    }

    /// Derive the structure whose `(i, j)` entry is the source's left
    /// quotient of `i` by `j`. Fails with `NoDiv` exactly when some pair has
    /// no left quotient.
    pub fn lquot_all(&self) -> (r: Result<Diagma, FailType>)
        requires
            self.wf(),
        ensures
            match r {
                Ok(t) => {
                    &&& t.wf()
                    &&& t is Table
                    &&& t.spec_order() == self.spec_order()
                    &&& forall|i: int, j: int|
                        0 <= i < self.spec_order() && 0 <= j < self.spec_order()
                            ==> self.spec_lquot(i, j) == Some(#[trigger] t.spec_mul(i, j))
                },
                Err(e) => e == FailType::NoDiv,
            },
            r is Ok <==> forall|i: int, j: int|
                0 <= i < self.spec_order() && 0 <= j < self.spec_order()
                    ==> (#[trigger] self.spec_lquot(i, j)) is Some,
    {
        let n = self.order();
        let mut t: Vec<Vec<usize>> = Vec::new();
        for i in 0..n
            invariant
                self.wf(),
                n == self.spec_order(),
                t@.len() == i,
                forall|ii: int| 0 <= ii < i ==> (#[trigger] t@[ii])@.len() == n,
                forall|ii: int, jj: int|
                    0 <= ii < i && 0 <= jj < n
                        ==> (#[trigger] t@[ii]@[jj]) < n && self.spec_lquot(ii, jj) == Some(
                        t@[ii]@[jj] as int,
                    ),
        {
            let mut row: Vec<usize> = Vec::new();
            for j in 0..n
                invariant
                    self.wf(),
                    i < n,
                    n == self.spec_order(),
                    row@.len() == j,
                    forall|jj: int|
                        0 <= jj < j ==> (#[trigger] row@[jj]) < n && self.spec_lquot(i as int, jj)
                            == Some(row@[jj] as int),
            {
                match self.lquot(i, j) {
                    Some(z) => row.push(z),
                    None => {
                        return Err(FailType::NoDiv);
                    },
                }
            }
            t.push(row);
        }
        proof {
            assert forall|i: int, j: int|
                0 <= i < self.spec_order() && 0 <= j
                    < self.spec_order() implies (#[trigger] self.spec_lquot(i, j)) is Some by {
                assert(self.spec_lquot(i, j) == Some(t@[i]@[j] as int));
            }
        }
        Ok(Diagma::Table { table: t })
    }

    /// The classic Lights-Out table of a given order: every entry of row `a`
    /// is `(a + 1) mod n`, so multiplying by anything steps a cell forward.
    pub fn new_lights_out(n: usize) -> (r: Diagma)
        requires
            1 <= n,
        ensures
            r.wf(),
            r is Table,
            r.spec_order() == n,
            forall|i: int, j: int|
                0 <= i < n && 0 <= j < n ==> #[trigger] r.spec_mul(i, j) == (i + 1) % (n as int),
    {
        let mut t: Vec<Vec<usize>> = Vec::new();
        for i in 0..n
            invariant
                t@.len() == i,
                i <= n,
                forall|ii: int| 0 <= ii < i ==> (#[trigger] t@[ii])@.len() == n,
                forall|ii: int, jj: int|
                    0 <= ii < i && 0 <= jj < n
                        ==> (#[trigger] t@[ii]@[jj]) < n && t@[ii]@[jj] == (ii + 1) % (n as int),
        {
            let v: usize = (i + 1) % n;
            let mut row: Vec<usize> = Vec::new();
            for j in 0..n
                invariant
                    i < n,
                    v < n,
                    v == (i + 1) % (n as int),
                    row@.len() == j,
                    forall|jj: int| 0 <= jj < j ==> (#[trigger] row@[jj]) == v,
            {
                row.push(v);
            }
            t.push(row);
        }
        Diagma::Table { table: t }
    }

    /// Render the label for carrier element `a`.
    pub fn rep(&self, a: usize) -> (r: String)
        requires
            self.wf(),
            a < self.spec_order(),
        ensures
            r@ == self.spec_rep(a as int),
    {
        let n = self.order();
        let shown: usize = match self {
            Diagma::Cyclic { .. } => a,
            Diagma::Table { .. } => a + 1,
        };
        let mut s = String::new();
        push_decimal(&mut s, shown);
        proof {
            assert(s@ =~= self.spec_rep(a as int));
        }
        s
    }
}

/// For an order of at least 2, the sum of two carrier elements stays below
/// the square of the order, so cyclic arithmetic cannot overflow.
proof fn lemma_two_le_sq(o: int)
    requires
        o >= 2,
    ensures
        2 * o <= o * o,
{
    assert(2 * o <= o * o) by (nonlinear_arith)
        requires
            o >= 2,
    ;
}

/// The carrier size fits a machine word: a cyclic order is itself a
/// `usize`, and a table's order is the length of a vector.
pub proof fn lemma_order_fits(t: Diagma)
    ensures
        t.spec_order() <= usize::MAX,
{
    match t {
        Diagma::Cyclic { .. } => {
        },
        Diagma::Table { table } => {
            assert(vstd::std_specs::vec::spec_vec_len(&table) == table@.len());
        },
    }
}

/// A total right quotient: every pair of carrier elements has one.
pub open spec fn total_right_quotient(t: Diagma) -> bool {
    forall|a: int, b: int|
        0 <= a < t.spec_order() && 0 <= b < t.spec_order() ==> (#[trigger] t.spec_rquot(
            a,
            b,
        )) is Some
}

/// Unique square roots: distinct carrier elements have distinct squares,
/// so no element has more than one square root.
pub open spec fn unique_square_roots(t: Diagma) -> bool {
    forall|c1: int, c2: int|
        0 <= c1 < t.spec_order() && 0 <= c2 < t.spec_order() && #[trigger] t.spec_mul(c1, c1)
            == #[trigger] t.spec_mul(c2, c2) ==> c1 == c2
}

/// Exact right cancellation: the right quotient of any product by its right
/// factor recovers the left factor. This strengthens a merely total right
/// quotient by pinning which solution the first-match scan finds; every
/// structure whose columns are bijections has it.
pub open spec fn right_cancellative(t: Diagma) -> bool {
    forall|a: int, b: int|
        0 <= a < t.spec_order() && 0 <= b < t.spec_order() ==> t.spec_rquot(
            #[trigger] t.spec_mul(a, b),
            b,
        ) == Some(a)
}

/// A diagonal magma: squaring and the square root are mutually inverse.
/// The root of any square is the squared element, and any element with a
/// root is its root's square.
pub open spec fn diagonal(t: Diagma) -> bool {
    &&& forall|c: int|
        0 <= c < t.spec_order() ==> t.spec_root(#[trigger] t.spec_mul(c, c)) == Some(c)
    &&& forall|a: int|
        0 <= a < t.spec_order() && (#[trigger] t.spec_root(a)) is Some ==> 0 <= t.spec_root(
            a,
        )->Some_0 < t.spec_order() && t.spec_mul(t.spec_root(a)->Some_0, t.spec_root(a)->Some_0)
            == a
}

/// The full multiplication table of a structure: the `order x order`
/// matrix of all products.
pub open spec fn full_table(t: Diagma) -> Seq<Seq<usize>> {
    Seq::new(
        t.spec_order() as nat,
        |i: int| Seq::new(t.spec_order() as nat, |j: int| (t.spec_mul(i, j) as usize)),
    )
}

/// The index exchange behind a row or column swap: `a` and `b` trade places
/// and every other index stays put.
pub open spec fn swap_idx(a: int, b: int, i: int) -> int {
    if i == a {
        b
    } else if i == b {
        a
    } else {
        i
    }
}

/// The character for one decimal digit.
pub open spec fn digit_char(d: int) -> char {
    if d == 0 {
        '0'
    } else if d == 1 {
        '1'
    } else if d == 2 {
        '2'
    } else if d == 3 {
        '3'
    } else if d == 4 {
        '4'
    } else if d == 5 {
        '5'
    } else if d == 6 {
        '6'
    } else if d == 7 {
        '7'
    } else if d == 8 {
        '8'
    } else {
        '9'
    }
}

/// The decimal digit characters of `n`, most significant first.
pub open spec fn decimal(n: int) -> Seq<char>
    decreases n,
{
    if n < 10 {
        seq![digit_char(n)]
    } else {
        decimal(n / 10).push(digit_char(n % 10))
    }
}

/// Append the decimal digits of `n` to `s`.
fn push_decimal(s: &mut String, n: usize)
    ensures
        final(s)@ == old(s)@ + decimal(n as int),
    decreases n,
{
    if n >= 10 {
        push_decimal(s, n / 10);
    }
    let d: usize = n % 10;
    let digit: &str = if d == 0 {
        "0"
    } else if d == 1 {
        "1"
    } else if d == 2 {
        "2"
    } else if d == 3 {
        "3"
    } else if d == 4 {
        "4"
    } else if d == 5 {
        "5"
    } else if d == 6 {
        "6"
    } else if d == 7 {
        "7"
    } else if d == 8 {
        "8"
    } else {
        "9"
    };
    proof {
        reveal_strlit("0");
        reveal_strlit("1");
        reveal_strlit("2");
        reveal_strlit("3");
        reveal_strlit("4");
        reveal_strlit("5");
        reveal_strlit("6");
        reveal_strlit("7");
        reveal_strlit("8");
        reveal_strlit("9");
        assert(digit@ =~= seq![digit_char(d as int)]);
    }
    s.append(digit);
    proof {
        if n >= 10 {
            assert(old(s)@ + decimal(n as int) =~= old(s)@ + decimal(n as int / 10) + seq![
                digit_char(n as int % 10),
            ]);
        } else {
            assert(old(s)@ + decimal(n as int) =~= old(s)@ + seq![digit_char(n as int)]);
        }
    }
}

} // verus!
