//! The document: a single root cell, the layer store, the identity
//! allocator, and the transient view state driving interaction.

use vstd::prelude::*;

use crate::cell::{
    cell_at, cell_ids_below, cell_uniq, cell_wf, edit_budget, edit_ok, edited_at, id_in_cell,
    pos_valid, rows_id_in, rows_rect, Cell, CellId, CellPos, EditOp, IdGen,
};
use crate::store::{Arrow, Configuration};

verus! {

/// The main centralized storage: the hierarchy starts with a single cell.
pub struct Data {
    pub cell: Cell,
    pub configuration: Configuration,
    pub ids: IdGen,
}

/// The document invariant: the tree is well-formed, no two cells share an
/// identity, and every identity is below the allocator's next one.
pub open spec fn doc_wf(d: Data) -> bool {
    &&& cell_wf(d.cell)
    &&& cell_uniq(d.cell)
    &&& cell_ids_below(d.cell, d.ids.next)
}

/// A `CellPos` whose head is the root sentinel and whose tail addresses an
/// existing cell of the document.
pub open spec fn place_valid(d: Data, place: CellPos) -> bool {
    &&& place.0@.len() >= 1
    &&& place.0@[0] == (0usize, 0usize)
    &&& pos_valid(d.cell, place.0@.skip(1))
}

impl Data {
    /// A fresh document: one root leaf cell and a default configuration.
    pub fn new() -> (r: Data)
        ensures
            doc_wf(r),
            r.cell.id.0 == 0,
            r.cell.table is None,
            r.cell.hierarchy_depth == 0,
            r.cell.title@.len() == 0,
            r.configuration.show_border,
            r.configuration.layers@.len() == 1,
            crate::store::layer_default(r.configuration.layers@[0]),
            r.ids.next == 1,
    {
        let mut ids = IdGen::new();
        let cell = Cell::new(None, 0, &mut ids);
        proof {
            assert forall|x: u64| #[trigger] id_in_cell(cell, x) implies x < ids.next by {}
        }
        Data { cell, configuration: Configuration::new(), ids }
    }

    /// Resolve a structural path to the cell it addresses. The path's head
    /// must be the root sentinel `(0, 0)`; anything else is a
    /// programming-error-class precondition violation, as is addressing a
    /// cell that does not exist.
    pub fn get_cell<'a>(main_cell: &'a Cell, place: &CellPos) -> (r: &'a Cell)
        requires
            place.0@.len() >= 1,
            place.0@[0] == (0usize, 0usize),
            pos_valid(*main_cell, place.0@.skip(1)),
        ensures
            *r == cell_at(*main_cell, place.0@.skip(1)),
    {
        let first = place.top();
        proof {
            assert(first == (0usize, 0usize));
        }
        main_cell.get_inner_cell(place.lower())
    }

    /// Apply a structural edit to the cell `place` addresses. The document
    /// invariant is preserved; the tree changes only along the path.
    pub fn apply_edit(&mut self, place: &CellPos, op: &EditOp)
        requires
            doc_wf(*old(self)),
            place_valid(*old(self), *place),
            edit_ok(cell_at(old(self).cell, place.0@.skip(1)), *op),
            old(self).ids.next as int + edit_budget(cell_at(old(self).cell, place.0@.skip(1)), *op)
                <= u64::MAX as int,
        ensures
            doc_wf(*final(self)),
            final(self).configuration == old(self).configuration,
            old(self).ids.next <= final(self).ids.next,
            edited_at(
                old(self).cell,
                final(self).cell,
                place.0@.skip(1),
                *op,
                old(self).ids.next,
            ),
    {
        let rest = place.lower();
        self.cell.apply_edit(rest, op, &mut self.ids);
    }
}

/// Transient state that drives the view: which cell is displayed, and the
/// pending start endpoint of an arrow being drawn.
pub struct ViewData {
    /// The structural path of the cell currently displayed.
    pub displayed_cell: CellPos,
    /// The recorded start cell of an in-progress "draw arrow" gesture;
    /// a shared single slot, overwritable and cancelable.
    pub arrow_start_id: Option<CellId>,
}

impl ViewData {
    pub fn new() -> (r: ViewData)
        ensures
            r.displayed_cell.0@.len() == 1,
            r.displayed_cell.0@[0] == (0usize, 0usize),
            r.arrow_start_id is None,
    {
        ViewData { displayed_cell: CellPos::new(), arrow_start_id: None }
    }

    /// Return to the root view and drop any pending gesture.
    pub fn reset(&mut self)
        ensures
            final(self).displayed_cell.0@.len() == 1,
            final(self).displayed_cell.0@[0] == (0usize, 0usize),
            final(self).arrow_start_id is None,
    {
        self.displayed_cell = CellPos::new();
        self.arrow_start_id = None;
    }

    /// Record a cell as the pending start of an arrow.
    pub fn start_line(&mut self, id: CellId)
        ensures
            final(self).arrow_start_id == Some(id),
            final(self).displayed_cell == old(self).displayed_cell,
    {
        self.arrow_start_id = Some(id);
    }

    /// Drop the pending arrow start.
    pub fn cancel_line(&mut self)
        ensures
            final(self).arrow_start_id is None,
            final(self).displayed_cell == old(self).displayed_cell,
    {
        self.arrow_start_id = None;
    }
}

/// Finish an arrow gesture on `target`: when a different cell's identity
/// is pending, a new arrow from it to `target` is appended to every
/// enabled layer, the pending slot is cleared, and the arrow is returned;
/// otherwise nothing changes.
pub fn end_line(view: &mut ViewData, config: &mut Configuration, target: CellId) -> (r: Option<
    Arrow,
>)
    ensures
        r matches Some(a) ==> {
            &&& old(view).arrow_start_id matches Some(s) && s != target && a.from == s
            &&& a.to == target
            &&& 3 <= a.margin < 15
            &&& final(view).arrow_start_id is None
            &&& final(view).displayed_cell == old(view).displayed_cell
            &&& final(config).show_border == old(config).show_border
            &&& final(config).layers@.len() == old(config).layers@.len()
            &&& forall|i: int|
                0 <= i < final(config).layers@.len() ==> {
                    let l0 = old(config).layers@[i];
                    let l1 = #[trigger] final(config).layers@[i];
                    &&& l1.name == l0.name
                    &&& l1.enabled == l0.enabled
                    &&& l1.color == l0.color
                    &&& l1.arrows@ == if l0.enabled {
                        l0.arrows@.push(a)
                    } else {
                        l0.arrows@
                    }
                }
        },
        r is None ==> {
            &&& *final(view) == *old(view)
            &&& *final(config) == *old(config)
        },
        r is Some <==> (old(view).arrow_start_id matches Some(s) && s != target),
{
    let pending = view.arrow_start_id;
    match pending {
        Some(s) => {
            if s != target {
                let a = Arrow::new(s, target);
                let n = config.layers.len();
                let mut i: usize = 0;
                while i < n
                    invariant
                        i <= n,
                        n == config.layers@.len(),
                        config.layers@.len() == old(config).layers@.len(),
                        config.show_border == old(config).show_border,
                        forall|j: int|
                            i <= j < n ==> #[trigger] config.layers@[j] == old(config).layers@[j],
                        forall|j: int|
                            0 <= j < i ==> {
                                let l0 = old(config).layers@[j];
                                let l1 = #[trigger] config.layers@[j];
                                &&& l1.name == l0.name
                                &&& l1.enabled == l0.enabled
                                &&& l1.color == l0.color
                                &&& l1.arrows@ == if l0.enabled {
                                    l0.arrows@.push(a)
                                } else {
                                    l0.arrows@
                                }
                            },
                    decreases n - i,
                {
                    if config.layers[i].enabled {
                        let l = &mut config.layers[i];
                        l.arrows.push(a);
                    }
                    i += 1;
                }
                view.arrow_start_id = None;
                Some(a)
            } else {
                None
            }
        },
        None => None,
    }
}

// ---------------------------------------------------------------------
// Laws of the document invariant.

/// The cell a valid path addresses carries an identity of the tree.
proof fn lemma_cell_at_id_in(c: Cell, p: Seq<(usize, usize)>)
    requires
        pos_valid(c, p),
    ensures
        id_in_cell(c, cell_at(c, p).id.0),
    decreases p.len(),
{
    if p.len() == 0 {
    } else {
        let t = c.table->Some_0;
        let child = t.cells.data@[p[0].0 as int]@[p[0].1 as int];
        lemma_cell_at_id_in(child, p.skip(1));
        assert(rows_id_in(t.cells.data@, cell_at(child, p.skip(1)).id.0)) by {
            assert(id_in_cell(
                t.cells.data@[p[0].0 as int]@[p[0].1 as int],
                cell_at(child, p.skip(1)).id.0,
            ));
        }
    }
}

/// Every cell a valid path addresses in a well-formed tree is itself
/// well-formed.
pub proof fn lemma_cell_at_wf(c: Cell, p: Seq<(usize, usize)>)
    requires
        cell_wf(c),
        pos_valid(c, p),
    ensures
        cell_wf(cell_at(c, p)),
    decreases p.len(),
{
    if p.len() == 0 {
    } else {
        let t = c.table->Some_0;
        lemma_cell_at_wf(t.cells.data@[p[0].0 as int]@[p[0].1 as int], p.skip(1));
    }
}

/// Rectangularity: in a well-formed document, every table reachable by a
/// valid path has at least one row and one column, and all of its rows
/// have the same length — for all reachable states, since every edit
/// preserves `doc_wf`.
pub proof fn lemma_tables_rectangular(c: Cell, p: Seq<(usize, usize)>)
    requires
        cell_wf(c),
        pos_valid(c, p),
        cell_at(c, p).table is Some,
    ensures
        rows_rect(cell_at(c, p).table->Some_0.cells.data@),
        forall|i: int, j: int|
            0 <= i < cell_at(c, p).table->Some_0.cells.data@.len() && 0 <= j < cell_at(
                c,
                p,
            ).table->Some_0.cells.data@.len() ==> cell_at(
                c,
                p,
            ).table->Some_0.cells.data@[i]@.len() == cell_at(
                c,
                p,
            ).table->Some_0.cells.data@[j]@.len(),
{
    lemma_cell_at_wf(c, p);
}

/// Identity uniqueness: in a document whose identities are unique, two
/// different valid paths always address cells with different identities —
/// no two cells ever compare equal by id, in any reachable state, since
/// every edit preserves `doc_wf`.
pub proof fn lemma_cell_ids_unique(c: Cell, p1: Seq<(usize, usize)>, p2: Seq<(usize, usize)>)
    requires
        cell_uniq(c),
        pos_valid(c, p1),
        pos_valid(c, p2),
        p1 != p2,
    ensures
        cell_at(c, p1).id != cell_at(c, p2).id,
    decreases p1.len(),
{
    let rows = c.table->Some_0.cells.data@;
    if p1.len() == 0 {
        if p2.len() == 0 {
            assert(p1 =~= p2);
        }
        let child = rows[p2[0].0 as int]@[p2[0].1 as int];
        assert(pos_valid(child, p2.skip(1)));
        lemma_cell_at_id_in(child, p2.skip(1));
        assert(cell_at(c, p2) == cell_at(child, p2.skip(1)));
        if cell_at(c, p2).id == c.id {
            assert(rows_id_in(rows, c.id.0)) by {
                assert(id_in_cell(rows[p2[0].0 as int]@[p2[0].1 as int], c.id.0));
            }
        }
    } else if p2.len() == 0 {
        let child = rows[p1[0].0 as int]@[p1[0].1 as int];
        lemma_cell_at_id_in(child, p1.skip(1));
        if cell_at(c, p1).id == c.id {
            assert(rows_id_in(rows, c.id.0)) by {
                assert(id_in_cell(rows[p1[0].0 as int]@[p1[0].1 as int], c.id.0));
            }
        }
    } else if p1[0] == p2[0] {
        let child = rows[p1[0].0 as int]@[p1[0].1 as int];
        assert(p1.skip(1) != p2.skip(1)) by {
            if p1.skip(1) == p2.skip(1) {
                assert(p1.skip(1).len() == p1.len() - 1);
                assert(p2.skip(1).len() == p2.len() - 1);
                assert(p1.len() == p2.len());
                assert forall|i: int| 0 <= i < p1.len() implies p1[i] == p2[i] by {
                    if i > 0 {
                        assert(p1.skip(1)[i - 1] == p1[i]);
                        assert(p2.skip(1)[i - 1] == p2[i]);
                    }
                }
                assert(p1 =~= p2);
            }
        }
        lemma_cell_ids_unique(child, p1.skip(1), p2.skip(1));
    } else {
        let c1 = rows[p1[0].0 as int]@[p1[0].1 as int];
        let c2 = rows[p2[0].0 as int]@[p2[0].1 as int];
        lemma_cell_at_id_in(c1, p1.skip(1));
        lemma_cell_at_id_in(c2, p2.skip(1));
        if cell_at(c, p1).id == cell_at(c, p2).id {
            assert(id_in_cell(rows[p1[0].0 as int]@[p1[0].1 as int], cell_at(c, p1).id.0));
            assert(id_in_cell(rows[p2[0].0 as int]@[p2[0].1 as int], cell_at(c, p1).id.0));
            assert(false);
        }
    }
}

/// Resolver round-trip: resolving a one-step path inside a cell's table
/// returns exactly the cell that direct grid indexing yields.
pub proof fn lemma_resolve_direct(c: Cell, row: usize, col: usize, p: Seq<(usize, usize)>)
    requires
        c.table is Some,
        (row as int) < c.table->Some_0.cells.data@.len(),
        (col as int) < c.table->Some_0.cells.data@[row as int]@.len(),
        p == seq![(row, col)],
    ensures
        cell_at(c, p) == c.table->Some_0.cells.data@[row as int]@[col as int],
{
    assert(p.skip(1) =~= Seq::<(usize, usize)>::empty());
    let child = c.table->Some_0.cells.data@[row as int]@[col as int];
    assert(cell_at(child, p.skip(1)) == child);
}

} // verus!
