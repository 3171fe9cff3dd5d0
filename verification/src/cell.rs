//! Hierarchical cell / table model.
//!
//! A `Cell` optionally owns a `Table`, a rectangular grid of child cells, to
//! unbounded depth. Every cell carries a `CellId` handed out by the
//! document-owned `IdGen`; identities strictly increase and are never
//! reused, so no two cells of a well-formed document ever share one.

use vstd::prelude::*;

verus! {

/// Globally unique, opaque, comparable identity of a cell; assigned at
/// creation time and never reused.
#[derive(Clone, Copy, PartialEq, Eq, Structural, Debug, Hash)]
pub struct CellId(pub u64);

/// Allocator of fresh cell identities, owned by the document.
pub struct IdGen {
    pub next: u64,
}

impl IdGen {
    pub fn new() -> (r: IdGen)
        ensures
            r.next == 0,
    {
        IdGen { next: 0 }
    }

    /// Hand out the next identity; identities strictly increase.
    pub fn fresh_id(&mut self) -> (r: CellId)
        requires
            old(self).next < u64::MAX,
        ensures
            r.0 == old(self).next,
            final(self).next == old(self).next + 1,
    {
        let id = CellId(self.next);
        self.next = self.next + 1;
        id
    }
}

impl CellId {
    /// A fresh identity drawn from the document's allocator.
    pub fn new(gen: &mut IdGen) -> (r: CellId)
        requires
            old(gen).next < u64::MAX,
        ensures
            r.0 == old(gen).next,
            final(gen).next == old(gen).next + 1,
    {
        gen.fresh_id()
    }
}

/// A node of the hierarchy; a cell without a table is a leaf.
pub struct Cell {
    pub id: CellId,
    pub title: String,
    pub table: Option<Table>,
    pub hierarchy_depth: usize,
}

/// A rectangular grid owned by exactly one cell.
pub struct Table {
    pub cells: RawCells,
}

pub struct RawCells {
    pub data: Vec<Vec<Cell>>,
    pub hierarchy_depth: usize,
}

// ---------------------------------------------------------------------
// Well-formedness: every row of a grid has the same length, the grid is
// nonempty, and nesting increases the depth by one.

/// The grid is rectangular with at least one row and one column.
pub open spec fn rows_rect(rows: Seq<Vec<Cell>>) -> bool {
    &&& rows.len() >= 1
    &&& rows[0]@.len() >= 1
    &&& forall|i: int| 0 <= i < rows.len() ==> (#[trigger] rows[i]@).len() == rows[0]@.len()
}

pub open spec fn cell_wf(c: Cell) -> bool
    decreases c,
{
    match c.table {
        None => true,
        Some(t) => {
            &&& t.cells.hierarchy_depth == c.hierarchy_depth + 1
            &&& rows_rect(t.cells.data@)
            &&& rows_cells_wf(t.cells.data@, t.cells.hierarchy_depth)
        },
    }
}

/// Every cell of the grid is well-formed and sits at the given depth.
pub open spec fn rows_cells_wf(rows: Seq<Vec<Cell>>, depth: usize) -> bool
    decreases rows,
{
    forall|i: int, j: int|
        0 <= i < rows.len() && 0 <= j < rows[i]@.len() ==> cell_wf(#[trigger] rows[i]@[j]) && rows[i]@[j].hierarchy_depth
            == depth
}

// ---------------------------------------------------------------------
// Identity occurrence and uniqueness.

/// `x` is the identity of some cell in the subtree rooted at `c`.
pub open spec fn id_in_cell(c: Cell, x: u64) -> bool
    decreases c,
{
    ||| c.id.0 == x
    ||| match c.table {
        None => false,
        Some(t) => rows_id_in(t.cells.data@, x),
    }
}

pub open spec fn rows_id_in(rows: Seq<Vec<Cell>>, x: u64) -> bool
    decreases rows,
{
    exists|i: int, j: int|
        0 <= i < rows.len() && 0 <= j < rows[i]@.len() && id_in_cell(#[trigger] rows[i]@[j], x)
}

/// No identity occurs in two different subtrees of the grid, and every
/// subtree is itself free of duplicates.
pub open spec fn rows_uniq(rows: Seq<Vec<Cell>>) -> bool
    decreases rows,
{
    &&& forall|i: int, j: int|
        0 <= i < rows.len() && 0 <= j < rows[i]@.len() ==> cell_uniq(#[trigger] rows[i]@[j])
    &&& forall|i: int, j: int, k: int, l: int, x: u64|
        #![trigger id_in_cell(rows[i]@[j], x), id_in_cell(rows[k]@[l], x)]
        0 <= i < rows.len() && 0 <= j < rows[i]@.len() && 0 <= k < rows.len() && 0 <= l
            < rows[k]@.len() && (i != k || j != l) && id_in_cell(rows[i]@[j], x) ==> !id_in_cell(
            rows[k]@[l],
            x,
        )
}

/// No two cells of the subtree rooted at `c` share an identity.
pub open spec fn cell_uniq(c: Cell) -> bool
    decreases c,
{
    match c.table {
        None => true,
        Some(t) => rows_uniq(t.cells.data@) && !rows_id_in(t.cells.data@, c.id.0),
    }
}

/// Every identity in the subtree is below the bound `n` (the allocator's
/// next identity).
pub open spec fn cell_ids_below(c: Cell, n: u64) -> bool {
    forall|x: u64| #[trigger] id_in_cell(c, x) ==> x < n
}

pub open spec fn rows_ids_below(rows: Seq<Vec<Cell>>, n: u64) -> bool {
    forall|x: u64| #[trigger] rows_id_in(rows, x) ==> x < n
}

/// A freshly created empty leaf cell.
pub open spec fn is_fresh_leaf(c: Cell, depth: usize, id: u64) -> bool {
    &&& c.id.0 == id
    &&& c.title@.len() == 0
    &&& c.table is None
    &&& c.hierarchy_depth == depth
}

// ---------------------------------------------------------------------
// Addressing.

/// The pair sequence addresses an existing cell when descending from `c`.
pub open spec fn pos_valid(c: Cell, path: Seq<(usize, usize)>) -> bool
    decreases path.len(),
{
    path.len() == 0 || (match c.table {
        None => false,
        Some(t) => {
            let rows = t.cells.data@;
            &&& (path[0].0 as int) < rows.len()
            &&& (path[0].1 as int) < rows[path[0].0 as int]@.len()
            &&& pos_valid(rows[path[0].0 as int]@[path[0].1 as int], path.skip(1))
        },
    })
}

/// The cell addressed by the pair sequence, descending from `c`.
pub open spec fn cell_at(c: Cell, path: Seq<(usize, usize)>) -> Cell
    decreases path.len(),
{
    if path.len() == 0 {
        c
    } else {
        match c.table {
            None => c,
            Some(t) => cell_at(
                t.cells.data@[path[0].0 as int]@[path[0].1 as int],
                path.skip(1),
            ),
        }
    }
}

/// A descent path through the hierarchy: an ordered sequence of
/// (row, column) pairs, whose first element addresses the root cell.
#[derive(Clone)]
pub struct CellPos(pub Vec<(usize, usize)>);

impl CellPos {
    /// The conventional root address `[(0, 0)]`.
    pub fn new() -> (r: CellPos)
        ensures
            r.0@.len() == 1,
            r.0@[0] == (0usize, 0usize),
    {
        let mut v: Vec<(usize, usize)> = Vec::new();
        v.push((0, 0));
        CellPos(v)
    }

    /// The first (root-selecting) pair.
    pub fn top(&self) -> (r: (usize, usize))
        requires
            self.0@.len() >= 1,
        ensures
            r == self.0@[0],
    {
        self.0[0]
    }

    /// The remaining pairs, which address a cell inside the root's table.
    pub fn lower(&self) -> (r: CellIdSlice<'_>)
        requires
            self.0@.len() >= 1,
        ensures
            r.wf(),
            r@ == self.0@.skip(1),
    {
        CellIdSlice { pairs: &self.0, start: 1 }
    }
}

/// A borrowed suffix view of a `CellPos`.
pub struct CellIdSlice<'a> {
    pub pairs: &'a Vec<(usize, usize)>,
    pub start: usize,
}

impl<'a> CellIdSlice<'a> {
    pub open spec fn wf(self) -> bool {
        self.start <= self.pairs@.len()
    }

    pub open spec fn view(self) -> Seq<(usize, usize)> {
        self.pairs@.skip(self.start as int)
    }

    pub fn top(&self) -> (r: (usize, usize))
        requires
            self.wf(),
            self@.len() >= 1,
        ensures
            r == self@[0],
    {
        self.pairs[self.start]
    }

    pub fn lower(&self) -> (r: CellIdSlice<'a>)
        requires
            self.wf(),
            self@.len() >= 1,
        ensures
            r.wf(),
            r@ == self@.skip(1),
    {
        let n = self.pairs.len();
        assert(self.start < n);
        let r = CellIdSlice { pairs: self.pairs, start: self.start + 1 };
        proof {
            assert(r@ =~= self@.skip(1));
        }
        r
    }

    pub fn is_empty(&self) -> (r: bool)
        requires
            self.wf(),
        ensures
            r == (self@.len() == 0),
    {
        self.start == self.pairs.len()
    }
}

impl Cell {
    /// A new cell with a fresh identity, an empty title and the given table.
    pub fn new(table: Option<Table>, hierarchy_depth: usize, gen: &mut IdGen) -> (r: Cell)
        requires
            old(gen).next < u64::MAX,
        ensures
            r.id.0 == old(gen).next,
            final(gen).next == old(gen).next + 1,
            r.title@.len() == 0,
            r.table == table,
            r.hierarchy_depth == hierarchy_depth,
    {
        Cell { id: CellId::new(gen), title: String::new(), table, hierarchy_depth }
    }

    /// Recursive descent: the cell addressed by `id_ref` relative to this
    /// cell. Addressing a cell that does not exist is a precondition
    /// violation, not a recoverable error.
    pub fn get_inner_cell<'a>(&'a self, id_ref: CellIdSlice<'_>) -> (r: &'a Cell)
        requires
            id_ref.wf(),
            pos_valid(*self, id_ref@),
        ensures
            *r == cell_at(*self, id_ref@),
        decreases id_ref@.len(),
    {
        if id_ref.is_empty() {
            return self;
        }
        let (row, col) = id_ref.top();
        match &self.table {
            Some(t) => {
                let row_vec: &Vec<Cell> = &t.cells.data[row];
                let child: &Cell = &row_vec[col];
                child.get_inner_cell(id_ref.lower())
            },
            None => {
                proof {
                    assert(false);
                }
                self
            },
        }
    }
}

impl RawCells {
    /// A one-by-one grid holding a single fresh leaf.
    pub fn new(hierarchy_depth: usize, gen: &mut IdGen) -> (r: RawCells)
        requires
            old(gen).next < u64::MAX,
        ensures
            r.hierarchy_depth == hierarchy_depth,
            r.data@.len() == 1,
            r.data@[0]@.len() == 1,
            is_fresh_leaf(r.data@[0]@[0], hierarchy_depth, old(gen).next),
            final(gen).next == old(gen).next + 1,
            rows_rect(r.data@),
    {
        let cell = Cell::new(None, hierarchy_depth, gen);
        let mut row: Vec<Cell> = Vec::new();
        row.push(cell);
        let mut data: Vec<Vec<Cell>> = Vec::new();
        data.push(row);
        RawCells { data, hierarchy_depth }
    }

    pub fn rows(&self) -> (r: usize)
        requires
            self.data@.len() >= 1,
        ensures
            r == self.data@.len(),
    {
        self.data.len()
    }

    pub fn cols(&self) -> (r: usize)
        requires
            self.data@.len() >= 1,
        ensures
            r == self.data@[0]@.len(),
    {
        self.data[0].len()
    }

    /// Read access to one row of the grid.
    pub fn borrow_row(&self, index: usize) -> (r: &Vec<Cell>)
        requires
            (index as int) < self.data@.len(),
        ensures
            r@ == self.data@[index as int]@,
    {
        &self.data[index]
    }
}

/// A fresh leaf holds exactly its own identity, and trivially satisfies
/// well-formedness and uniqueness.
proof fn lemma_fresh_leaf_ids(c: Cell, depth: usize, id: u64)
    requires
        is_fresh_leaf(c, depth, id),
    ensures
        forall|x: u64| #[trigger] id_in_cell(c, x) <==> x == id,
        cell_uniq(c),
        cell_wf(c),
{
    assert forall|x: u64| #[trigger] id_in_cell(c, x) <==> x == id by {
        assert(id_in_cell(c, id));
    }
}

/// Inserting a row of fresh leaves with identities `n0 ..= n1 - 1` into a
/// rectangular grid preserves rectangularity, well-formedness, identity
/// uniqueness and the identity bound.
proof fn lemma_rows_insert_fresh(
    d0: Seq<Vec<Cell>>,
    d1: Seq<Vec<Cell>>,
    row: Seq<Cell>,
    at: int,
    depth: usize,
    n0: u64,
    n1: u64,
)
    requires
        rows_rect(d0),
        0 <= at <= d0.len(),
        d1.len() == d0.len() + 1,
        forall|i: int| 0 <= i < at ==> (#[trigger] d1[i])@ == d0[i]@,
        forall|i: int| at < i < d1.len() ==> (#[trigger] d1[i])@ == d0[i - 1]@,
        d1[at]@ == row,
        row.len() == d0[0]@.len(),
        forall|j: int|
            0 <= j < row.len() ==> is_fresh_leaf(#[trigger] row[j], depth, (n0 + j) as u64),
        n1 as int == n0 as int + row.len(),
    ensures
        rows_rect(d1),
        rows_cells_wf(d0, depth) ==> rows_cells_wf(d1, depth),
        rows_uniq(d0) && rows_ids_below(d0, n0) ==> rows_uniq(d1) && rows_ids_below(d1, n1),
        forall|x: u64|
            #[trigger] rows_id_in(d1, x) ==> rows_id_in(d0, x) || n0 as int <= x < n1 as int,
{
    assert forall|i: int| 0 <= i < d1.len() implies (#[trigger] d1[i]@).len() == d1[0]@.len() by {
        if at == 0 {
            assert(d1[0]@ == row);
        } else {
            assert(d1[0]@ == d0[0]@);
        }
    }
    assert forall|x: u64|
        #[trigger] rows_id_in(d1, x) implies rows_id_in(d0, x) || n0 as int <= x < n1 as int by {
        let (i, j) = choose|i: int, j: int|
            0 <= i < d1.len() && 0 <= j < d1[i]@.len() && id_in_cell(#[trigger] d1[i]@[j], x);
        if i == at {
            lemma_fresh_leaf_ids(row[j], depth, (n0 + j) as u64);
        } else {
            let i0 = if i < at {
                i
            } else {
                i - 1
            };
            assert(id_in_cell(d0[i0]@[j], x));
            assert(rows_id_in(d0, x));
        }
    }
    if rows_cells_wf(d0, depth) {
        assert forall|i: int, j: int|
            0 <= i < d1.len() && 0 <= j < d1[i]@.len() implies cell_wf(#[trigger] d1[i]@[j])
                && d1[i]@[j].hierarchy_depth == depth by {
            if i == at {
                lemma_fresh_leaf_ids(row[j], depth, (n0 + j) as u64);
            } else if i < at {
                assert(d1[i]@[j] == d0[i]@[j]);
            } else {
                assert(d1[i]@[j] == d0[i - 1]@[j]);
            }
        }
    }
    if rows_uniq(d0) && rows_ids_below(d0, n0) {
        assert forall|i: int, j: int|
            0 <= i < d1.len() && 0 <= j < d1[i]@.len() implies cell_uniq(#[trigger] d1[i]@[j]) by {
            if i == at {
                lemma_fresh_leaf_ids(row[j], depth, (n0 + j) as u64);
            } else if i < at {
                assert(d1[i]@[j] == d0[i]@[j]);
            } else {
                assert(d1[i]@[j] == d0[i - 1]@[j]);
            }
        }
        assert forall|i: int, j: int, x: u64|
            #![trigger id_in_cell(d1[i]@[j], x)]
            0 <= i < d1.len() && 0 <= j < d1[i]@.len() && i != at && id_in_cell(
                d1[i]@[j],
                x,
            ) implies x < n0 by {
            let i0 = if i < at {
                i
            } else {
                i - 1
            };
            assert(id_in_cell(d0[i0]@[j], x));
            assert(rows_id_in(d0, x));
        }
        assert forall|j: int, x: u64|
            #![trigger id_in_cell(row[j], x)]
            0 <= j < row.len() && id_in_cell(row[j], x) implies x == n0 + j by {
            lemma_fresh_leaf_ids(row[j], depth, (n0 + j) as u64);
        }
        assert forall|i: int, j: int, k: int, l: int, x: u64|
            #![trigger id_in_cell(d1[i]@[j], x), id_in_cell(d1[k]@[l], x)]
            0 <= i < d1.len() && 0 <= j < d1[i]@.len() && 0 <= k < d1.len() && 0 <= l
                < d1[k]@.len() && (i != k || j != l) && id_in_cell(d1[i]@[j], x) implies !id_in_cell(
            d1[k]@[l],
            x,
        ) by {
            if id_in_cell(d1[k]@[l], x) {
                if i == at && k == at {
                    assert(x == n0 + j && x == n0 + l);
                } else if i == at {
                    assert(x == n0 + j);
                    assert(x < n0);
                } else if k == at {
                    assert(x == n0 + l);
                    assert(x < n0);
                } else {
                    let i0 = if i < at {
                        i
                    } else {
                        i - 1
                    };
                    let k0 = if k < at {
                        k
                    } else {
                        k - 1
                    };
                    assert(i0 != k0 || j != l);
                    assert(id_in_cell(d0[i0]@[j], x));
                    assert(id_in_cell(d0[k0]@[l], x));
                    assert(!id_in_cell(d0[k0]@[l], x));
                }
                assert(false);
            }
        }
        assert forall|x: u64| #[trigger] rows_id_in(d1, x) implies x < n1 by {
            let (i, j) = choose|i: int, j: int|
                0 <= i < d1.len() && 0 <= j < d1[i]@.len() && id_in_cell(#[trigger] d1[i]@[j], x);
            if i == at {
                assert(x == n0 + j);
            } else {
                assert(x < n0);
            }
        }
    }
}

/// Removing one row of a rectangular grid preserves rectangularity,
/// well-formedness and identity uniqueness, and introduces no identity.
proof fn lemma_rows_remove_row(d0: Seq<Vec<Cell>>, d1: Seq<Vec<Cell>>, at: int, depth: usize)
    requires
        rows_rect(d0),
        0 <= at < d0.len(),
        d0.len() >= 2,
        d1.len() == d0.len() - 1,
        forall|i: int| 0 <= i < at ==> (#[trigger] d1[i])@ == d0[i]@,
        forall|i: int| at <= i < d1.len() ==> (#[trigger] d1[i])@ == d0[i + 1]@,
    ensures
        rows_rect(d1),
        rows_cells_wf(d0, depth) ==> rows_cells_wf(d1, depth),
        forall|x: u64| #[trigger] rows_id_in(d1, x) ==> rows_id_in(d0, x),
        rows_uniq(d0) ==> rows_uniq(d1),
{
    assert forall|i: int| 0 <= i < d1.len() implies (#[trigger] d1[i]@).len() == d1[0]@.len() by {
        if at == 0 {
            assert(d1[0]@ == d0[1]@);
        } else {
            assert(d1[0]@ == d0[0]@);
        }
    }
    if rows_cells_wf(d0, depth) {
        assert forall|i: int, j: int|
            0 <= i < d1.len() && 0 <= j < d1[i]@.len() implies cell_wf(#[trigger] d1[i]@[j])
                && d1[i]@[j].hierarchy_depth == depth by {
            if i < at {
                assert(d1[i]@[j] == d0[i]@[j]);
            } else {
                assert(d1[i]@[j] == d0[i + 1]@[j]);
            }
        }
    }
    assert forall|x: u64| #[trigger] rows_id_in(d1, x) implies rows_id_in(d0, x) by {
        let (i, j) = choose|i: int, j: int|
            0 <= i < d1.len() && 0 <= j < d1[i]@.len() && id_in_cell(#[trigger] d1[i]@[j], x);
        let i0 = if i < at {
            i
        } else {
            i + 1
        };
        assert(id_in_cell(d0[i0]@[j], x));
    }
    if rows_uniq(d0) {
        assert forall|i: int, j: int|
            0 <= i < d1.len() && 0 <= j < d1[i]@.len() implies cell_uniq(#[trigger] d1[i]@[j]) by {
            if i < at {
                assert(d1[i]@[j] == d0[i]@[j]);
            } else {
                assert(d1[i]@[j] == d0[i + 1]@[j]);
            }
        }
        assert forall|i: int, j: int, k: int, l: int, x: u64|
            #![trigger id_in_cell(d1[i]@[j], x), id_in_cell(d1[k]@[l], x)]
            0 <= i < d1.len() && 0 <= j < d1[i]@.len() && 0 <= k < d1.len() && 0 <= l
                < d1[k]@.len() && (i != k || j != l) && id_in_cell(d1[i]@[j], x) implies !id_in_cell(
            d1[k]@[l],
            x,
        ) by {
            if id_in_cell(d1[k]@[l], x) {
                let i0 = if i < at {
                    i
                } else {
                    i + 1
                };
                let k0 = if k < at {
                    k
                } else {
                    k + 1
                };
                assert(i0 != k0 || j != l);
                assert(id_in_cell(d0[i0]@[j], x));
                assert(id_in_cell(d0[k0]@[l], x));
                assert(!id_in_cell(d0[k0]@[l], x));
                assert(false);
            }
        }
    }
}

/// Inserting one fresh leaf (identity `n0 + i` in row `i`) into every row
/// of a rectangular grid preserves rectangularity, well-formedness,
/// identity uniqueness and the identity bound.
proof fn lemma_rows_insert_col_fresh(
    d0: Seq<Vec<Cell>>,
    d1: Seq<Vec<Cell>>,
    at: int,
    depth: usize,
    n0: u64,
    n1: u64,
)
    requires
        rows_rect(d0),
        0 <= at <= d0[0]@.len(),
        d1.len() == d0.len(),
        forall|i: int| 0 <= i < d1.len() ==> (#[trigger] d1[i])@.len() == d0[i]@.len() + 1,
        forall|i: int, j: int|
            0 <= i < d1.len() && 0 <= j < at ==> (#[trigger] d1[i]@[j]) == d0[i]@[j],
        forall|i: int, j: int|
            0 <= i < d1.len() && at < j < d1[i]@.len() ==> (#[trigger] d1[i]@[j]) == d0[i]@[j - 1],
        forall|i: int|
            0 <= i < d1.len() ==> is_fresh_leaf(#[trigger] d1[i]@[at], depth, (n0 + i) as u64),
        n1 as int == n0 as int + d0.len(),
    ensures
        rows_rect(d1),
        rows_cells_wf(d0, depth) ==> rows_cells_wf(d1, depth),
        rows_uniq(d0) && rows_ids_below(d0, n0) ==> rows_uniq(d1) && rows_ids_below(d1, n1),
        forall|x: u64|
            #[trigger] rows_id_in(d1, x) ==> rows_id_in(d0, x) || n0 as int <= x < n1 as int,
{
    assert forall|i: int| 0 <= i < d1.len() implies (#[trigger] d1[i]@).len() == d1[0]@.len() by {
        assert(d0[i]@.len() == d0[0]@.len());
    }
    assert forall|x: u64|
        #[trigger] rows_id_in(d1, x) implies rows_id_in(d0, x) || n0 as int <= x < n1 as int by {
        let (i, j) = choose|i: int, j: int|
            0 <= i < d1.len() && 0 <= j < d1[i]@.len() && id_in_cell(#[trigger] d1[i]@[j], x);
        if j == at {
            lemma_fresh_leaf_ids(d1[i]@[at], depth, (n0 + i) as u64);
        } else {
            let j0 = if j < at {
                j
            } else {
                j - 1
            };
            assert(id_in_cell(d0[i]@[j0], x));
            assert(rows_id_in(d0, x));
        }
    }
    if rows_cells_wf(d0, depth) {
        assert forall|i: int, j: int|
            0 <= i < d1.len() && 0 <= j < d1[i]@.len() implies cell_wf(#[trigger] d1[i]@[j])
                && d1[i]@[j].hierarchy_depth == depth by {
            if j == at {
                lemma_fresh_leaf_ids(d1[i]@[at], depth, (n0 + i) as u64);
            } else if j < at {
                assert(d1[i]@[j] == d0[i]@[j]);
            } else {
                assert(d1[i]@[j] == d0[i]@[j - 1]);
            }
        }
    }
    if rows_uniq(d0) && rows_ids_below(d0, n0) {
        assert forall|i: int, j: int|
            0 <= i < d1.len() && 0 <= j < d1[i]@.len() implies cell_uniq(#[trigger] d1[i]@[j]) by {
            if j == at {
                lemma_fresh_leaf_ids(d1[i]@[at], depth, (n0 + i) as u64);
            } else if j < at {
                assert(d1[i]@[j] == d0[i]@[j]);
            } else {
                assert(d1[i]@[j] == d0[i]@[j - 1]);
            }
        }
        assert forall|i: int, j: int, x: u64|
            #![trigger id_in_cell(d1[i]@[j], x)]
            0 <= i < d1.len() && 0 <= j < d1[i]@.len() && j != at && id_in_cell(
                d1[i]@[j],
                x,
            ) implies x < n0 by {
            let j0 = if j < at {
                j
            } else {
                j - 1
            };
            assert(id_in_cell(d0[i]@[j0], x));
            assert(rows_id_in(d0, x));
        }
        assert forall|i: int, x: u64|
            #![trigger id_in_cell(d1[i]@[at], x)]
            0 <= i < d1.len() && id_in_cell(d1[i]@[at], x) implies x == n0 + i by {
            lemma_fresh_leaf_ids(d1[i]@[at], depth, (n0 + i) as u64);
        }
        assert forall|i: int, j: int, k: int, l: int, x: u64|
            #![trigger id_in_cell(d1[i]@[j], x), id_in_cell(d1[k]@[l], x)]
            0 <= i < d1.len() && 0 <= j < d1[i]@.len() && 0 <= k < d1.len() && 0 <= l
                < d1[k]@.len() && (i != k || j != l) && id_in_cell(d1[i]@[j], x) implies !id_in_cell(
            d1[k]@[l],
            x,
        ) by {
            if id_in_cell(d1[k]@[l], x) {
                if j == at && l == at {
                    assert(x == n0 + i && x == n0 + k);
                } else if j == at {
                    assert(x == n0 + i);
                    assert(x < n0);
                } else if l == at {
                    assert(x == n0 + k);
                    assert(x < n0);
                } else {
                    let j0 = if j < at {
                        j
                    } else {
                        j - 1
                    };
                    let l0 = if l < at {
                        l
                    } else {
                        l - 1
                    };
                    assert(i != k || j0 != l0);
                    assert(id_in_cell(d0[i]@[j0], x));
                    assert(id_in_cell(d0[k]@[l0], x));
                    assert(!id_in_cell(d0[k]@[l0], x));
                }
                assert(false);
            }
        }
        assert forall|x: u64| #[trigger] rows_id_in(d1, x) implies x < n1 by {
            let (i, j) = choose|i: int, j: int|
                0 <= i < d1.len() && 0 <= j < d1[i]@.len() && id_in_cell(#[trigger] d1[i]@[j], x);
            if j == at {
                assert(x == n0 + i);
            } else {
                assert(x < n0);
            }
        }
    }
}

/// Removing one column of a rectangular grid preserves rectangularity,
/// well-formedness and identity uniqueness, and introduces no identity.
proof fn lemma_rows_remove_col(d0: Seq<Vec<Cell>>, d1: Seq<Vec<Cell>>, at: int, depth: usize)
    requires
        rows_rect(d0),
        0 <= at < d0[0]@.len(),
        d0[0]@.len() >= 2,
        d1.len() == d0.len(),
        forall|i: int| 0 <= i < d1.len() ==> (#[trigger] d1[i])@.len() == d0[i]@.len() - 1,
        forall|i: int, j: int|
            0 <= i < d1.len() && 0 <= j < at ==> (#[trigger] d1[i]@[j]) == d0[i]@[j],
        forall|i: int, j: int|
            0 <= i < d1.len() && at <= j < d1[i]@.len() ==> (#[trigger] d1[i]@[j]) == d0[i]@[j + 1],
    ensures
        rows_rect(d1),
        rows_cells_wf(d0, depth) ==> rows_cells_wf(d1, depth),
        forall|x: u64| #[trigger] rows_id_in(d1, x) ==> rows_id_in(d0, x),
        rows_uniq(d0) ==> rows_uniq(d1),
{
    assert forall|i: int| 0 <= i < d1.len() implies (#[trigger] d1[i]@).len() == d1[0]@.len() by {
        assert(d0[i]@.len() == d0[0]@.len());
    }
    if rows_cells_wf(d0, depth) {
        assert forall|i: int, j: int|
            0 <= i < d1.len() && 0 <= j < d1[i]@.len() implies cell_wf(#[trigger] d1[i]@[j])
                && d1[i]@[j].hierarchy_depth == depth by {
            if j < at {
                assert(d1[i]@[j] == d0[i]@[j]);
            } else {
                assert(d1[i]@[j] == d0[i]@[j + 1]);
            }
        }
    }
    assert forall|x: u64| #[trigger] rows_id_in(d1, x) implies rows_id_in(d0, x) by {
        let (i, j) = choose|i: int, j: int|
            0 <= i < d1.len() && 0 <= j < d1[i]@.len() && id_in_cell(#[trigger] d1[i]@[j], x);
        let j0 = if j < at {
            j
        } else {
            j + 1
        };
        assert(id_in_cell(d0[i]@[j0], x));
    }
    if rows_uniq(d0) {
        assert forall|i: int, j: int|
            0 <= i < d1.len() && 0 <= j < d1[i]@.len() implies cell_uniq(#[trigger] d1[i]@[j]) by {
            if j < at {
                assert(d1[i]@[j] == d0[i]@[j]);
            } else {
                assert(d1[i]@[j] == d0[i]@[j + 1]);
            }
        }
        assert forall|i: int, j: int, k: int, l: int, x: u64|
            #![trigger id_in_cell(d1[i]@[j], x), id_in_cell(d1[k]@[l], x)]
            0 <= i < d1.len() && 0 <= j < d1[i]@.len() && 0 <= k < d1.len() && 0 <= l
                < d1[k]@.len() && (i != k || j != l) && id_in_cell(d1[i]@[j], x) implies !id_in_cell(
            d1[k]@[l],
            x,
        ) by {
            if id_in_cell(d1[k]@[l], x) {
                let j0 = if j < at {
                    j
                } else {
                    j + 1
                };
                let l0 = if l < at {
                    l
                } else {
                    l + 1
                };
                assert(i != k || j0 != l0);
                assert(id_in_cell(d0[i]@[j0], x));
                assert(id_in_cell(d0[k]@[l0], x));
                assert(!id_in_cell(d0[k]@[l0], x));
                assert(false);
            }
        }
    }
}

impl RawCells {
    /// Insert a new row of fresh leaf cells before row `index`.
    pub fn add_row(&mut self, index: usize, gen: &mut IdGen)
        requires
            rows_rect(old(self).data@),
            index <= old(self).data@.len(),
            old(gen).next as int + old(self).data@[0]@.len() <= u64::MAX as int,
        ensures
            final(self).hierarchy_depth == old(self).hierarchy_depth,
            final(self).data@.len() == old(self).data@.len() + 1,
            forall|i: int|
                0 <= i < index ==> (#[trigger] final(self).data@[i])@ == old(self).data@[i]@,
            forall|i: int|
                index < i < final(self).data@.len() ==> (#[trigger] final(self).data@[i])@ == old(
                    self,
                ).data@[i - 1]@,
            final(self).data@[index as int]@.len() == old(self).data@[0]@.len(),
            forall|j: int|
                0 <= j < old(self).data@[0]@.len() ==> is_fresh_leaf(
                    #[trigger] final(self).data@[index as int]@[j],
                    old(self).hierarchy_depth,
                    (old(gen).next + j) as u64,
                ),
            final(gen).next as int == old(gen).next as int + old(self).data@[0]@.len(),
            rows_rect(final(self).data@),
            rows_cells_wf(old(self).data@, old(self).hierarchy_depth) ==> rows_cells_wf(
                final(self).data@,
                old(self).hierarchy_depth,
            ),
            rows_uniq(old(self).data@) && rows_ids_below(old(self).data@, old(gen).next)
                ==> rows_uniq(final(self).data@) && rows_ids_below(
                final(self).data@,
                final(gen).next,
            ),
            forall|x: u64|
                #[trigger] rows_id_in(final(self).data@, x) ==> rows_id_in(old(self).data@, x) || (
                old(gen).next as int <= x < final(gen).next as int),
    {
        let ghost d0 = self.data@;
        let ghost n0 = gen.next;
        let cols = self.cols();
        let mut row: Vec<Cell> = Vec::new();
        let mut j: usize = 0;
        while j < cols
            invariant
                j <= cols,
                gen.next as int == n0 as int + j,
                n0 as int + cols <= u64::MAX as int,
                row@.len() == j,
                forall|jj: int|
                    0 <= jj < j ==> is_fresh_leaf(
                        #[trigger] row@[jj],
                        self.hierarchy_depth,
                        (n0 + jj) as u64,
                    ),
                self == old(self),
            decreases cols - j,
        {
            let c = Cell::new(None, self.hierarchy_depth, gen);
            row.push(c);
            j += 1;
        }
        let ghost rowg = row@;
        let ghost rowv: Vec<Cell> = row;
        self.data.insert(index, row);
        proof {
            d0.insert_ensures(index as int, rowv);
            let d1 = self.data@;
            assert(d1 == d0.insert(index as int, rowv));
            assert(d1[index as int]@ == rowg);
            lemma_rows_insert_fresh(d0, d1, rowg, index as int, self.hierarchy_depth, n0, gen.next);
        }
    }

    /// Insert a new column of fresh leaf cells before column `index`.
    pub fn add_col(&mut self, index: usize, gen: &mut IdGen)
        requires
            rows_rect(old(self).data@),
            index <= old(self).data@[0]@.len(),
            old(gen).next as int + old(self).data@.len() <= u64::MAX as int,
        ensures
            final(self).hierarchy_depth == old(self).hierarchy_depth,
            final(self).data@.len() == old(self).data@.len(),
            forall|i: int|
                0 <= i < final(self).data@.len() ==> (#[trigger] final(self).data@[i])@.len()
                    == old(self).data@[i]@.len() + 1,
            forall|i: int, j: int|
                0 <= i < final(self).data@.len() && 0 <= j < index ==> (
                #[trigger] final(self).data@[i]@[j]) == old(self).data@[i]@[j],
            forall|i: int, j: int|
                0 <= i < final(self).data@.len() && index < j < final(self).data@[i]@.len() ==> (
                #[trigger] final(self).data@[i]@[j]) == old(self).data@[i]@[j - 1],
            forall|i: int|
                0 <= i < final(self).data@.len() ==> is_fresh_leaf(
                    #[trigger] final(self).data@[i]@[index as int],
                    old(self).hierarchy_depth,
                    (old(gen).next + i) as u64,
                ),
            final(gen).next as int == old(gen).next as int + old(self).data@.len(),
            rows_rect(final(self).data@),
            rows_cells_wf(old(self).data@, old(self).hierarchy_depth) ==> rows_cells_wf(
                final(self).data@,
                old(self).hierarchy_depth,
            ),
            rows_uniq(old(self).data@) && rows_ids_below(old(self).data@, old(gen).next)
                ==> rows_uniq(final(self).data@) && rows_ids_below(
                final(self).data@,
                final(gen).next,
            ),
            forall|x: u64|
                #[trigger] rows_id_in(final(self).data@, x) ==> rows_id_in(old(self).data@, x) || (
                old(gen).next as int <= x < final(gen).next as int),
    {
        let ghost d0 = self.data@;
        let ghost n0 = gen.next;
        let rows = self.rows();
        let mut i: usize = 0;
        while i < rows
            invariant
                i <= rows,
                rows == self.data@.len(),
                self.data@.len() == d0.len(),
                self.hierarchy_depth == old(self).hierarchy_depth,
                rows_rect(d0),
                index <= d0[0]@.len(),
                d0 == old(self).data@,
                gen.next as int == n0 as int + i,
                n0 as int + rows <= u64::MAX as int,
                forall|ii: int| i <= ii < d0.len() ==> (#[trigger] self.data@[ii])@ == d0[ii]@,
                forall|ii: int|
                    0 <= ii < i ==> (#[trigger] self.data@[ii])@.len() == d0[ii]@.len() + 1,
                forall|ii: int, j: int|
                    0 <= ii < i && 0 <= j < index ==> (#[trigger] self.data@[ii]@[j])
                        == d0[ii]@[j],
                forall|ii: int, j: int|
                    0 <= ii < i && index < j < self.data@[ii]@.len() ==> (
                    #[trigger] self.data@[ii]@[j]) == d0[ii]@[j - 1],
                forall|ii: int|
                    0 <= ii < i ==> is_fresh_leaf(
                        #[trigger] self.data@[ii]@[index as int],
                        old(self).hierarchy_depth,
                        (n0 + ii) as u64,
                    ),
            decreases rows - i,
        {
            let c = Cell::new(None, self.hierarchy_depth, gen);
            let ghost before = self.data@[i as int]@;
            let row_ref = &mut self.data[i];
            row_ref.insert(index, c);
            proof {
                before.insert_ensures(index as int, c);
            }
            i += 1;
        }
        proof {
            lemma_rows_insert_col_fresh(
                d0,
                self.data@,
                index as int,
                old(self).hierarchy_depth,
                n0,
                gen.next,
            );
        }
    }

    /// Remove column `index`; the grid must keep at least one column.
    pub fn remove_col(&mut self, index: usize)
        requires
            rows_rect(old(self).data@),
            (index as int) < old(self).data@[0]@.len(),
            old(self).data@[0]@.len() >= 2,
        ensures
            final(self).hierarchy_depth == old(self).hierarchy_depth,
            final(self).data@.len() == old(self).data@.len(),
            forall|i: int|
                0 <= i < final(self).data@.len() ==> (#[trigger] final(self).data@[i])@.len()
                    == old(self).data@[i]@.len() - 1,
            forall|i: int, j: int|
                0 <= i < final(self).data@.len() && 0 <= j < index ==> (
                #[trigger] final(self).data@[i]@[j]) == old(self).data@[i]@[j],
            forall|i: int, j: int|
                0 <= i < final(self).data@.len() && index <= j < final(self).data@[i]@.len() ==> (
                #[trigger] final(self).data@[i]@[j]) == old(self).data@[i]@[j + 1],
            rows_rect(final(self).data@),
            rows_cells_wf(old(self).data@, old(self).hierarchy_depth) ==> rows_cells_wf(
                final(self).data@,
                old(self).hierarchy_depth,
            ),
            forall|x: u64|
                #[trigger] rows_id_in(final(self).data@, x) ==> rows_id_in(old(self).data@, x),
            rows_uniq(old(self).data@) ==> rows_uniq(final(self).data@),
    {
        let ghost d0 = self.data@;
        let rows = self.rows();
        let mut i: usize = 0;
        while i < rows
            invariant
                i <= rows,
                rows == self.data@.len(),
                self.data@.len() == d0.len(),
                self.hierarchy_depth == old(self).hierarchy_depth,
                rows_rect(d0),
                (index as int) < d0[0]@.len(),
                d0[0]@.len() >= 2,
                d0 == old(self).data@,
                forall|ii: int| i <= ii < d0.len() ==> (#[trigger] self.data@[ii])@ == d0[ii]@,
                forall|ii: int|
                    0 <= ii < i ==> (#[trigger] self.data@[ii])@.len() == d0[ii]@.len() - 1,
                forall|ii: int, j: int|
                    0 <= ii < i && 0 <= j < index ==> (#[trigger] self.data@[ii]@[j])
                        == d0[ii]@[j],
                forall|ii: int, j: int|
                    0 <= ii < i && index <= j < self.data@[ii]@.len() ==> (
                    #[trigger] self.data@[ii]@[j]) == d0[ii]@[j + 1],
            decreases rows - i,
        {
            let ghost before = self.data@[i as int]@;
            let row_ref = &mut self.data[i];
            row_ref.remove(index);
            proof {
                before.remove_ensures(index as int);
            }
            i += 1;
        }
        proof {
            lemma_rows_remove_col(d0, self.data@, index as int, old(self).hierarchy_depth);
        }
    }

    /// Remove row `index`; the grid must keep at least one row.
    pub fn remove_row(&mut self, index: usize)
        requires
            rows_rect(old(self).data@),
            (index as int) < old(self).data@.len(),
            old(self).data@.len() >= 2,
        ensures
            final(self).hierarchy_depth == old(self).hierarchy_depth,
            final(self).data@.len() == old(self).data@.len() - 1,
            forall|i: int|
                0 <= i < index ==> (#[trigger] final(self).data@[i])@ == old(self).data@[i]@,
            forall|i: int|
                index <= i < final(self).data@.len() ==> (#[trigger] final(self).data@[i])@ == old(
                    self,
                ).data@[i + 1]@,
            rows_rect(final(self).data@),
            rows_cells_wf(old(self).data@, old(self).hierarchy_depth) ==> rows_cells_wf(
                final(self).data@,
                old(self).hierarchy_depth,
            ),
            forall|x: u64|
                #[trigger] rows_id_in(final(self).data@, x) ==> rows_id_in(old(self).data@, x),
            rows_uniq(old(self).data@) ==> rows_uniq(final(self).data@),
    {
        let ghost d0 = self.data@;
        self.data.remove(index);
        proof {
            d0.remove_ensures(index as int);
            lemma_rows_remove_row(d0, self.data@, index as int, self.hierarchy_depth);
        }
    }
}

impl Table {
    /// A new one-by-one table whose cells sit at the given depth.
    pub fn new(hierarchy_depth: usize, gen: &mut IdGen) -> (r: Table)
        requires
            old(gen).next < u64::MAX,
        ensures
            r.cells.hierarchy_depth == hierarchy_depth,
            r.cells.data@.len() == 1,
            r.cells.data@[0]@.len() == 1,
            is_fresh_leaf(r.cells.data@[0]@[0], hierarchy_depth, old(gen).next),
            final(gen).next == old(gen).next + 1,
            rows_rect(r.cells.data@),
    {
        Table { cells: RawCells::new(hierarchy_depth, gen) }
    }
}

// ---------------------------------------------------------------------
// Structural edit commands.

/// A structural edit applied to the cell a descent path addresses.
pub enum EditOp {
    AddRow(usize),
    RemoveRow(usize),
    AddCol(usize),
    RemoveCol(usize),
    CreateTable,
    RemoveTable,
    SetTitle(String),
}

/// Whether the edit applies to the given target cell. Removing the last
/// row or column of a dimension, or descending where no table exists, is a
/// precondition violation rather than a recoverable error.
pub open spec fn edit_ok(c: Cell, op: EditOp) -> bool {
    match op {
        EditOp::AddRow(at) => match c.table {
            Some(t) => at <= t.cells.data@.len(),
            None => false,
        },
        EditOp::RemoveRow(at) => match c.table {
            Some(t) => (at as int) < t.cells.data@.len() && t.cells.data@.len() >= 2,
            None => false,
        },
        EditOp::AddCol(at) => match c.table {
            Some(t) => at <= t.cells.data@[0]@.len(),
            None => false,
        },
        EditOp::RemoveCol(at) => match c.table {
            Some(t) => (at as int) < t.cells.data@[0]@.len() && t.cells.data@[0]@.len() >= 2,
            None => false,
        },
        EditOp::CreateTable => c.table is None && c.hierarchy_depth < usize::MAX,
        EditOp::RemoveTable => c.table is Some,
        EditOp::SetTitle(_) => true,
    }
}

/// How many fresh identities the edit consumes at the given target.
pub open spec fn edit_budget(c: Cell, op: EditOp) -> int {
    match op {
        EditOp::AddRow(_) => match c.table {
            Some(t) => t.cells.data@[0]@.len() as int,
            None => 0,
        },
        EditOp::AddCol(_) => match c.table {
            Some(t) => t.cells.data@.len() as int,
            None => 0,
        },
        EditOp::CreateTable => 1,
        _ => 0,
    }
}

/// How the target cell after the edit relates to the one before it, with
/// `n0` the first fresh identity spent.
pub open spec fn op_rel(c0: Cell, c1: Cell, op: EditOp, n0: u64) -> bool {
    match op {
        EditOp::AddRow(at) => match (c0.table, c1.table) {
            (Some(t0), Some(t1)) => {
                let r0 = t0.cells.data@;
                let r1 = t1.cells.data@;
                &&& c1.id == c0.id
                &&& c1.title == c0.title
                &&& c1.hierarchy_depth == c0.hierarchy_depth
                &&& t1.cells.hierarchy_depth == t0.cells.hierarchy_depth
                &&& r1.len() == r0.len() + 1
                &&& forall|i: int| 0 <= i < at ==> (#[trigger] r1[i])@ == r0[i]@
                &&& forall|i: int| at < i < r1.len() ==> (#[trigger] r1[i])@ == r0[i - 1]@
                &&& r1[at as int]@.len() == r0[0]@.len()
                &&& forall|j: int|
                    0 <= j < r1[at as int]@.len() ==> is_fresh_leaf(
                        #[trigger] r1[at as int]@[j],
                        t0.cells.hierarchy_depth,
                        (n0 + j) as u64,
                    )
            },
            _ => false,
        },
        EditOp::RemoveRow(at) => match (c0.table, c1.table) {
            (Some(t0), Some(t1)) => {
                let r0 = t0.cells.data@;
                let r1 = t1.cells.data@;
                &&& c1.id == c0.id
                &&& c1.title == c0.title
                &&& c1.hierarchy_depth == c0.hierarchy_depth
                &&& t1.cells.hierarchy_depth == t0.cells.hierarchy_depth
                &&& r1.len() == r0.len() - 1
                &&& forall|i: int| 0 <= i < at ==> (#[trigger] r1[i])@ == r0[i]@
                &&& forall|i: int| at <= i < r1.len() ==> (#[trigger] r1[i])@ == r0[i + 1]@
            },
            _ => false,
        },
        EditOp::AddCol(at) => match (c0.table, c1.table) {
            (Some(t0), Some(t1)) => {
                let r0 = t0.cells.data@;
                let r1 = t1.cells.data@;
                &&& c1.id == c0.id
                &&& c1.title == c0.title
                &&& c1.hierarchy_depth == c0.hierarchy_depth
                &&& t1.cells.hierarchy_depth == t0.cells.hierarchy_depth
                &&& r1.len() == r0.len()
                &&& forall|i: int| 0 <= i < r1.len() ==> (#[trigger] r1[i])@.len() == r0[i]@.len() + 1
                &&& forall|i: int, j: int|
                    0 <= i < r1.len() && 0 <= j < at ==> (#[trigger] r1[i]@[j]) == r0[i]@[j]
                &&& forall|i: int, j: int|
                    0 <= i < r1.len() && at < j < r1[i]@.len() ==> (#[trigger] r1[i]@[j])
                        == r0[i]@[j - 1]
                &&& forall|i: int|
                    0 <= i < r1.len() ==> is_fresh_leaf(
                        #[trigger] r1[i]@[at as int],
                        t0.cells.hierarchy_depth,
                        (n0 + i) as u64,
                    )
            },
            _ => false,
        },
        EditOp::RemoveCol(at) => match (c0.table, c1.table) {
            (Some(t0), Some(t1)) => {
                let r0 = t0.cells.data@;
                let r1 = t1.cells.data@;
                &&& c1.id == c0.id
                &&& c1.title == c0.title
                &&& c1.hierarchy_depth == c0.hierarchy_depth
                &&& t1.cells.hierarchy_depth == t0.cells.hierarchy_depth
                &&& r1.len() == r0.len()
                &&& forall|i: int| 0 <= i < r1.len() ==> (#[trigger] r1[i])@.len() == r0[i]@.len() - 1
                &&& forall|i: int, j: int|
                    0 <= i < r1.len() && 0 <= j < at ==> (#[trigger] r1[i]@[j]) == r0[i]@[j]
                &&& forall|i: int, j: int|
                    0 <= i < r1.len() && at <= j < r1[i]@.len() ==> (#[trigger] r1[i]@[j])
                        == r0[i]@[j + 1]
            },
            _ => false,
        },
        EditOp::CreateTable => match c1.table {
            Some(t1) => {
                &&& c0.table is None
                &&& c1.id == c0.id
                &&& c1.title == c0.title
                &&& c1.hierarchy_depth == c0.hierarchy_depth
                &&& t1.cells.hierarchy_depth == c0.hierarchy_depth + 1
                &&& t1.cells.data@.len() == 1
                &&& t1.cells.data@[0]@.len() == 1
                &&& is_fresh_leaf(t1.cells.data@[0]@[0], (c0.hierarchy_depth + 1) as usize, n0)
            },
            None => false,
        },
        EditOp::RemoveTable => {
            &&& c1.table is None
            &&& c1.id == c0.id
            &&& c1.title == c0.title
            &&& c1.hierarchy_depth == c0.hierarchy_depth
        },
        EditOp::SetTitle(s) => {
            &&& c1.id == c0.id
            &&& c1.table == c0.table
            &&& c1.hierarchy_depth == c0.hierarchy_depth
            &&& c1.title@ == s@
        },
    }
}

/// The tree after the edit equals the tree before it except along the
/// descent path, where the addressed cell changed as `op_rel` describes.
pub open spec fn edited_at(c0: Cell, c1: Cell, path: Seq<(usize, usize)>, op: EditOp, n0: u64) -> bool
    decreases path.len(),
{
    if path.len() == 0 {
        op_rel(c0, c1, op, n0)
    } else {
        match (c0.table, c1.table) {
            (Some(t0), Some(t1)) => {
                let r0 = t0.cells.data@;
                let r1 = t1.cells.data@;
                let row = path[0].0 as int;
                let col = path[0].1 as int;
                &&& c1.id == c0.id
                &&& c1.title == c0.title
                &&& c1.hierarchy_depth == c0.hierarchy_depth
                &&& t1.cells.hierarchy_depth == t0.cells.hierarchy_depth
                &&& r1.len() == r0.len()
                &&& forall|i: int| 0 <= i < r1.len() && i != row ==> (#[trigger] r1[i])@ == r0[i]@
                &&& r1[row]@.len() == r0[row]@.len()
                &&& forall|j: int|
                    0 <= j < r1[row]@.len() && j != col ==> (#[trigger] r1[row]@[j]) == r0[row]@[j]
                &&& edited_at(r0[row]@[col], r1[row]@[col], path.skip(1), op, n0)
            },
            _ => false,
        }
    }
}

/// Replacing one subtree of a rectangular grid with a well-formed subtree
/// of the same depth, whose new identities are fresh, preserves the grid
/// invariants.
proof fn lemma_rows_child_update(
    d0: Seq<Vec<Cell>>,
    d1: Seq<Vec<Cell>>,
    row: int,
    col: int,
    depth: usize,
    n0: u64,
    n1: u64,
)
    requires
        rows_rect(d0),
        0 <= row < d0.len(),
        0 <= col < d0[row]@.len(),
        d1.len() == d0.len(),
        forall|i: int| 0 <= i < d1.len() && i != row ==> (#[trigger] d1[i])@ == d0[i]@,
        d1[row]@.len() == d0[row]@.len(),
        forall|j: int| 0 <= j < d1[row]@.len() && j != col ==> (#[trigger] d1[row]@[j]) == d0[row]@[j],
        cell_wf(d1[row]@[col]),
        cell_uniq(d1[row]@[col]),
        d1[row]@[col].hierarchy_depth == d0[row]@[col].hierarchy_depth,
        forall|x: u64|
            #[trigger] id_in_cell(d1[row]@[col], x) ==> id_in_cell(d0[row]@[col], x) || (
            n0 as int <= x < n1 as int),
        n0 <= n1,
        rows_rect(d0),
        rows_cells_wf(d0, depth),
        rows_uniq(d0),
        rows_ids_below(d0, n0),
    ensures
        rows_rect(d1),
        rows_cells_wf(d1, depth),
        rows_uniq(d1),
        rows_ids_below(d1, n1),
        forall|x: u64|
            #[trigger] rows_id_in(d1, x) ==> rows_id_in(d0, x) || (n0 as int <= x < n1 as int),
{
    assert forall|i: int| 0 <= i < d1.len() implies (#[trigger] d1[i]@).len() == d1[0]@.len() by {
        assert(d0[i]@.len() == d0[0]@.len());
        if i != row {
            assert(d1[i]@ == d0[i]@);
        }
        if row != 0 {
            assert(d1[0]@ == d0[0]@);
        }
    }
    assert forall|i: int, j: int|
        0 <= i < d1.len() && 0 <= j < d1[i]@.len() implies cell_wf(#[trigger] d1[i]@[j])
            && d1[i]@[j].hierarchy_depth == depth by {
        if i != row || j != col {
            assert(d1[i]@[j] == d0[i]@[j]);
        } else {
            assert(d0[row]@[col].hierarchy_depth == depth);
        }
    }
    // Identities elsewhere in the grid are bounded by `n0`.
    assert forall|i: int, j: int, x: u64|
        #![trigger id_in_cell(d1[i]@[j], x)]
        0 <= i < d1.len() && 0 <= j < d1[i]@.len() && (i != row || j != col) && id_in_cell(
            d1[i]@[j],
            x,
        ) implies x < n0 && id_in_cell(d0[i]@[j], x) by {
        assert(d1[i]@[j] == d0[i]@[j]);
        assert(rows_id_in(d0, x));
    }
    assert forall|i: int, j: int|
        0 <= i < d1.len() && 0 <= j < d1[i]@.len() implies cell_uniq(#[trigger] d1[i]@[j]) by {
        if i != row || j != col {
            assert(d1[i]@[j] == d0[i]@[j]);
        }
    }
    assert forall|i: int, j: int, k: int, l: int, x: u64|
        #![trigger id_in_cell(d1[i]@[j], x), id_in_cell(d1[k]@[l], x)]
        0 <= i < d1.len() && 0 <= j < d1[i]@.len() && 0 <= k < d1.len() && 0 <= l < d1[k]@.len()
            && (i != k || j != l) && id_in_cell(d1[i]@[j], x) implies !id_in_cell(
        d1[k]@[l],
        x,
    ) by {
        if id_in_cell(d1[k]@[l], x) {
            if (i == row && j == col) && !(k == row && l == col) {
                assert(x < n0);
                assert(id_in_cell(d0[row]@[col], x) || n0 as int <= x);
                assert(id_in_cell(d0[k]@[l], x));
                assert(!id_in_cell(d0[k]@[l], x));
            } else if !(i == row && j == col) && (k == row && l == col) {
                assert(x < n0);
                assert(id_in_cell(d0[row]@[col], x) || n0 as int <= x);
                assert(id_in_cell(d0[i]@[j], x));
                assert(!id_in_cell(d0[i]@[j], x));
            } else {
                assert(id_in_cell(d0[i]@[j], x));
                assert(id_in_cell(d0[k]@[l], x));
                assert(!id_in_cell(d0[k]@[l], x));
            }
            assert(false);
        }
    }
    assert forall|x: u64|
        #[trigger] rows_id_in(d1, x) implies (rows_id_in(d0, x) || (n0 as int <= x < n1 as int))
            && x < n1 by {
        let (i, j) = choose|i: int, j: int|
            0 <= i < d1.len() && 0 <= j < d1[i]@.len() && id_in_cell(#[trigger] d1[i]@[j], x);
        if i == row && j == col {
            if id_in_cell(d0[row]@[col], x) {
                assert(rows_id_in(d0, x));
                assert(x < n0);
            }
        } else {
            assert(x < n0);
        }
    }
}

impl Cell {
    /// Apply a structural edit to the cell the path addresses, spending
    /// fresh identities from `gen`. Preserves well-formedness, identity
    /// uniqueness and the identity bound of the whole subtree.
    pub fn apply_edit(&mut self, id_ref: CellIdSlice<'_>, op: &EditOp, gen: &mut IdGen)
        requires
            id_ref.wf(),
            pos_valid(*old(self), id_ref@),
            edit_ok(cell_at(*old(self), id_ref@), *op),
            cell_wf(*old(self)),
            cell_uniq(*old(self)),
            cell_ids_below(*old(self), old(gen).next),
            old(gen).next as int + edit_budget(cell_at(*old(self), id_ref@), *op)
                <= u64::MAX as int,
        ensures
            cell_wf(*final(self)),
            cell_uniq(*final(self)),
            cell_ids_below(*final(self), final(gen).next),
            final(gen).next as int == old(gen).next as int + edit_budget(
                cell_at(*old(self), id_ref@),
                *op,
            ),
            forall|x: u64|
                #[trigger] id_in_cell(*final(self), x) ==> id_in_cell(*old(self), x) || (old(
                    gen,
                ).next as int <= x < final(gen).next as int),
            edited_at(*old(self), *final(self), id_ref@, *op, old(gen).next),
        decreases id_ref@.len(),
    {
        let ghost n0 = gen.next;
        if id_ref.is_empty() {
            match op {
                EditOp::AddRow(at) => {
                    match &mut self.table {
                        Some(t) => {
                            t.cells.add_row(*at, gen);
                        },
                        None => {
                            proof {
                                assert(false);
                            }
                        },
                    }
                },
                EditOp::RemoveRow(at) => {
                    match &mut self.table {
                        Some(t) => {
                            t.cells.remove_row(*at);
                        },
                        None => {
                            proof {
                                assert(false);
                            }
                        },
                    }
                },
                EditOp::AddCol(at) => {
                    match &mut self.table {
                        Some(t) => {
                            t.cells.add_col(*at, gen);
                        },
                        None => {
                            proof {
                                assert(false);
                            }
                        },
                    }
                },
                EditOp::RemoveCol(at) => {
                    match &mut self.table {
                        Some(t) => {
                            t.cells.remove_col(*at);
                        },
                        None => {
                            proof {
                                assert(false);
                            }
                        },
                    }
                },
                EditOp::CreateTable => {
                    let t = Table::new(self.hierarchy_depth + 1, gen);
                    self.table = Some(t);
                },
                EditOp::RemoveTable => {
                    self.table = None;
                },
                EditOp::SetTitle(s) => {
                    self.title = s.clone();
                    proof {
                        assert(self.title@ == s@);
                    }
                },
            }
            proof {
                lemma_apply_local(*old(self), *self, *op, n0, gen.next);
            }
        } else {
            let (row, col) = id_ref.top();
            let rest = id_ref.lower();
            let ghost c0 = *self;
            match &mut self.table {
                Some(t) => {
                    let ghost d0 = t.cells.data@;
                    let row_ref = &mut t.cells.data[row];
                    let child_ref = &mut row_ref[col];
                    proof {
                        assert(cell_wf(d0[row as int]@[col as int]));
                        assert(cell_uniq(d0[row as int]@[col as int]));
                        assert forall|x: u64|
                            #[trigger] id_in_cell(d0[row as int]@[col as int], x) implies x
                            < n0 by {
                            assert(rows_id_in(d0, x));
                            assert(id_in_cell(c0, x));
                        }
                    }
                    child_ref.apply_edit(rest, op, gen);
                },
                None => {
                    proof {
                        assert(false);
                    }
                },
            }
            proof {
                let c1 = *self;
                let path = id_ref@;
                match (c0.table, c1.table) {
                    (Some(t0), Some(t1)) => {
                        lemma_grid_bounds(c0, n0);
                        lemma_rows_child_update(
                            t0.cells.data@,
                            t1.cells.data@,
                            row as int,
                            col as int,
                            t0.cells.hierarchy_depth,
                            n0,
                            gen.next,
                        );
                        assert(cell_wf(c1));
                        assert(cell_uniq(c1)) by {
                            assert(!rows_id_in(t0.cells.data@, c1.id.0));
                            if rows_id_in(t1.cells.data@, c1.id.0) {
                                assert(id_in_cell(c0, c1.id.0));
                                assert(c1.id.0 < n0);
                            }
                        }
                        assert forall|x: u64| #[trigger] id_in_cell(c1, x) implies id_in_cell(
                            c0,
                            x,
                        ) || (n0 as int <= x < gen.next as int) by {
                            if x != c1.id.0 {
                                assert(rows_id_in(t1.cells.data@, x));
                            }
                        }
                        assert(cell_ids_below(c1, gen.next)) by {
                            assert forall|x: u64| #[trigger] id_in_cell(c1, x) implies x
                                < gen.next by {
                                if id_in_cell(c0, x) {
                                    assert(x < n0);
                                }
                            }
                        }
                        assert(edited_at(c0, c1, path, *op, n0)) by {
                            assert(path.skip(1) == rest@);
                            assert(cell_at(c0, path) == cell_at(
                                t0.cells.data@[row as int]@[col as int],
                                rest@,
                            ));
                        }
                    },
                    _ => {
                        assert(false);
                    },
                }
            }
        }
    }
}

/// A locally applied edit satisfies its relation and preserves the cell
/// invariants.
proof fn lemma_apply_local(c0: Cell, c1: Cell, op: EditOp, n0: u64, n1: u64)
    requires
        edit_ok(c0, op),
        cell_wf(c0),
        cell_uniq(c0),
        cell_ids_below(c0, n0),
        n1 as int == n0 as int + edit_budget(c0, op),
        op_rel(c0, c1, op, n0),
    ensures
        cell_wf(c1),
        cell_uniq(c1),
        cell_ids_below(c1, n1),
        forall|x: u64|
            #[trigger] id_in_cell(c1, x) ==> id_in_cell(c0, x) || (n0 as int <= x < n1 as int),
{
    match op {
        EditOp::AddRow(at) => {
            let t0 = c0.table->Some_0;
            let t1 = c1.table->Some_0;
            let d0 = t0.cells.data@;
            let d1 = t1.cells.data@;
            lemma_grid_bounds(c0, n0);
            lemma_rows_insert_fresh(
                d0,
                d1,
                d1[at as int]@,
                at as int,
                t0.cells.hierarchy_depth,
                n0,
                n1,
            );
            lemma_rebuild(c0, c1, n0, n1);
        },
        EditOp::RemoveRow(at) => {
            let t0 = c0.table->Some_0;
            let t1 = c1.table->Some_0;
            lemma_grid_bounds(c0, n0);
            lemma_rows_remove_row(
                t0.cells.data@,
                t1.cells.data@,
                at as int,
                t0.cells.hierarchy_depth,
            );
            lemma_rebuild(c0, c1, n0, n1);
        },
        EditOp::AddCol(at) => {
            let t0 = c0.table->Some_0;
            let t1 = c1.table->Some_0;
            lemma_grid_bounds(c0, n0);
            lemma_rows_insert_col_fresh(
                t0.cells.data@,
                t1.cells.data@,
                at as int,
                t0.cells.hierarchy_depth,
                n0,
                n1,
            );
            lemma_rebuild(c0, c1, n0, n1);
        },
        EditOp::RemoveCol(at) => {
            let t0 = c0.table->Some_0;
            let t1 = c1.table->Some_0;
            lemma_grid_bounds(c0, n0);
            lemma_rows_remove_col(
                t0.cells.data@,
                t1.cells.data@,
                at as int,
                t0.cells.hierarchy_depth,
            );
            lemma_rebuild(c0, c1, n0, n1);
        },
        EditOp::CreateTable => {
            let t1 = c1.table->Some_0;
            let d1 = t1.cells.data@;
            lemma_fresh_leaf_ids(d1[0]@[0], t1.cells.hierarchy_depth, n0);
            assert(id_in_cell(c0, c0.id.0));
            assert forall|x: u64| #[trigger] rows_id_in(d1, x) implies x == n0 by {
                let (i, j) = choose|i: int, j: int|
                    0 <= i < d1.len() && 0 <= j < d1[i]@.len() && id_in_cell(
                        #[trigger] d1[i]@[j],
                        x,
                    );
            }
            assert(rows_id_in(d1, n0)) by {
                assert(id_in_cell(d1[0]@[0], n0));
            }
            assert forall|x: u64| #[trigger] id_in_cell(c1, x) implies id_in_cell(c0, x) || (
            n0 as int <= x < n1 as int) by {
                if x != c1.id.0 {
                    assert(rows_id_in(d1, x));
                }
            }
        },
        EditOp::RemoveTable => {
            assert(id_in_cell(c0, c0.id.0));
            assert forall|x: u64| #[trigger] id_in_cell(c1, x) implies id_in_cell(c0, x) by {
                assert(x == c1.id.0);
            }
        },
        EditOp::SetTitle(_) => {
            assert forall|x: u64| #[trigger] id_in_cell(c1, x) implies id_in_cell(c0, x) by {}
            assert forall|x: u64| #[trigger] id_in_cell(c0, x) implies id_in_cell(c1, x) by {}
            assert(cell_wf(c1));
            assert(cell_uniq(c1));
        },
    }
}

/// The identities of a cell's own grid are below the cell's identity
/// bound.
proof fn lemma_grid_bounds(c0: Cell, n0: u64)
    requires
        c0.table is Some,
        cell_wf(c0),
        cell_uniq(c0),
        cell_ids_below(c0, n0),
    ensures
        rows_rect(c0.table->Some_0.cells.data@),
        rows_cells_wf(c0.table->Some_0.cells.data@, c0.table->Some_0.cells.hierarchy_depth),
        rows_uniq(c0.table->Some_0.cells.data@),
        rows_ids_below(c0.table->Some_0.cells.data@, n0),
        c0.id.0 < n0,
{
    let d0 = c0.table->Some_0.cells.data@;
    assert(id_in_cell(c0, c0.id.0));
    assert forall|x: u64| #[trigger] rows_id_in(d0, x) implies x < n0 by {
        assert(id_in_cell(c0, x));
    }
}

/// Rebuild the cell-level invariants from the grid-level ones after a
/// grid edit that kept the cell's own fields.
proof fn lemma_rebuild(c0: Cell, c1: Cell, n0: u64, n1: u64)
    requires
        c0.table is Some,
        c1.table is Some,
        cell_wf(c0),
        cell_uniq(c0),
        cell_ids_below(c0, n0),
        n0 <= n1,
        c1.id == c0.id,
        c1.hierarchy_depth == c0.hierarchy_depth,
        c1.table->Some_0.cells.hierarchy_depth == c0.table->Some_0.cells.hierarchy_depth,
        rows_rect(c1.table->Some_0.cells.data@),
        rows_cells_wf(c1.table->Some_0.cells.data@, c1.table->Some_0.cells.hierarchy_depth),
        rows_uniq(c1.table->Some_0.cells.data@),
        rows_ids_below(c1.table->Some_0.cells.data@, n1),
        forall|x: u64|
            #[trigger] rows_id_in(c1.table->Some_0.cells.data@, x) ==> rows_id_in(
                c0.table->Some_0.cells.data@,
                x,
            ) || (n0 as int <= x < n1 as int),
    ensures
        cell_wf(c1),
        cell_uniq(c1),
        cell_ids_below(c1, n1),
        forall|x: u64|
            #[trigger] id_in_cell(c1, x) ==> id_in_cell(c0, x) || (n0 as int <= x < n1 as int),
{
    let d0 = c0.table->Some_0.cells.data@;
    let d1 = c1.table->Some_0.cells.data@;
    assert(id_in_cell(c0, c0.id.0));
    assert(c0.id.0 < n0);
    assert(!rows_id_in(d1, c1.id.0)) by {
        if rows_id_in(d1, c1.id.0) {
            assert(rows_id_in(d0, c1.id.0) || (n0 as int <= c1.id.0 < n1 as int));
            assert(!rows_id_in(d0, c0.id.0));
        }
    }
    assert forall|x: u64| #[trigger] id_in_cell(c1, x) implies id_in_cell(c0, x) || (
    n0 as int <= x < n1 as int) by {
        if x != c1.id.0 {
            assert(rows_id_in(d1, x));
            if rows_id_in(d0, x) {
                assert(id_in_cell(c0, x));
            }
        }
    }
    assert forall|x: u64| #[trigger] id_in_cell(c1, x) implies x < n1 by {
        if id_in_cell(c0, x) {
            assert(x < n0);
        }
    }
}

} // verus!
