use graphyr::cell::{CellPos, EditOp};
use graphyr::data::Data;

fn root_pos() -> CellPos {
    CellPos::new()
}

fn pos(pairs: &[(usize, usize)]) -> CellPos {
    let mut v = vec![(0usize, 0usize)];
    v.extend_from_slice(pairs);
    CellPos(v)
}

#[test]
fn new_document_is_single_leaf() {
    let d = Data::new();
    assert!(d.cell.table.is_none());
    assert_eq!(d.cell.hierarchy_depth, 0);
    assert_eq!(d.cell.title, "");
    assert_eq!(d.configuration.layers.len(), 1);
    assert!(d.configuration.show_border);
}

#[test]
fn create_table_and_grow_grid_stays_rectangular() {
    // A sequence of structural edits; after each one every row of every
    // table keeps the same length.
    let mut d = Data::new();
    d.apply_edit(&root_pos(), &EditOp::CreateTable);
    let check = |d: &Data| {
        let t = d.cell.table.as_ref().unwrap();
        let cols = t.cells.data[0].len();
        assert!(t.cells.data.len() >= 1 && cols >= 1);
        for row in t.cells.data.iter() {
            assert_eq!(row.len(), cols);
        }
    };
    check(&d);
    d.apply_edit(&root_pos(), &EditOp::AddRow(1));
    check(&d);
    d.apply_edit(&root_pos(), &EditOp::AddCol(0));
    check(&d);
    d.apply_edit(&root_pos(), &EditOp::AddCol(2));
    check(&d);
    d.apply_edit(&root_pos(), &EditOp::AddRow(0));
    check(&d);
    let t = d.cell.table.as_ref().unwrap();
    assert_eq!(t.cells.data.len(), 3);
    assert_eq!(t.cells.data[0].len(), 3);
    d.apply_edit(&root_pos(), &EditOp::RemoveRow(1));
    check(&d);
    d.apply_edit(&root_pos(), &EditOp::RemoveCol(1));
    check(&d);
    let t = d.cell.table.as_ref().unwrap();
    assert_eq!(t.cells.data.len(), 2);
    assert_eq!(t.cells.data[0].len(), 2);
}

#[test]
fn cell_ids_stay_unique() {
    // Cells created through row and column insertions, including in a
    // nested table, never share an identity.
    let mut d = Data::new();
    d.apply_edit(&root_pos(), &EditOp::CreateTable);
    d.apply_edit(&root_pos(), &EditOp::AddRow(1));
    d.apply_edit(&root_pos(), &EditOp::AddCol(1));
    d.apply_edit(&pos(&[(0, 0)]), &EditOp::CreateTable);
    d.apply_edit(&pos(&[(0, 0)]), &EditOp::AddCol(1));

    let mut ids = vec![d.cell.id.0];
    fn collect(c: &graphyr::cell::Cell, ids: &mut Vec<u64>) {
        if let Some(t) = &c.table {
            for row in t.cells.data.iter() {
                for cell in row.iter() {
                    ids.push(cell.id.0);
                    collect(cell, ids);
                }
            }
        }
    }
    collect(&d.cell, &mut ids);
    assert_eq!(ids.len(), 1 + 4 + 2);
    for i in 0..ids.len() {
        for j in (i + 1)..ids.len() {
            assert_ne!(ids[i], ids[j], "two cells share an identity");
        }
    }
}

#[test]
fn resolver_round_trip() {
    // Resolving [(0,0), (0,1)] returns the cell at row 0, column 1 of the
    // root's table, matching direct indexing.
    let mut d = Data::new();
    d.apply_edit(&root_pos(), &EditOp::CreateTable);
    d.apply_edit(&root_pos(), &EditOp::AddCol(1));
    let resolved = Data::get_cell(&d.cell, &pos(&[(0, 1)]));
    let direct = &d.cell.table.as_ref().unwrap().cells.data[0][1];
    assert_eq!(resolved.id, direct.id);
}

#[test]
fn resolver_descends_nested_tables() {
    let mut d = Data::new();
    d.apply_edit(&root_pos(), &EditOp::CreateTable);
    d.apply_edit(&root_pos(), &EditOp::AddRow(1));
    d.apply_edit(&pos(&[(1, 0)]), &EditOp::CreateTable);
    d.apply_edit(&pos(&[(1, 0)]), &EditOp::AddRow(1));
    d.apply_edit(&pos(&[(1, 0), (1, 0)]), &EditOp::SetTitle("inner".to_string()));
    let inner = Data::get_cell(&d.cell, &pos(&[(1, 0), (1, 0)]));
    assert_eq!(inner.title, "inner");
    assert_eq!(inner.hierarchy_depth, 2);
    let outer = Data::get_cell(&d.cell, &pos(&[(1, 0)]));
    assert_eq!(outer.hierarchy_depth, 1);
    assert_eq!(outer.title, "");
}

#[test]
fn remove_table_detaches_subtree() {
    let mut d = Data::new();
    d.apply_edit(&root_pos(), &EditOp::CreateTable);
    d.apply_edit(&pos(&[(0, 0)]), &EditOp::CreateTable);
    assert!(Data::get_cell(&d.cell, &pos(&[(0, 0)])).table.is_some());
    d.apply_edit(&pos(&[(0, 0)]), &EditOp::RemoveTable);
    assert!(Data::get_cell(&d.cell, &pos(&[(0, 0)])).table.is_none());
    d.apply_edit(&root_pos(), &EditOp::RemoveTable);
    assert!(d.cell.table.is_none());
}

#[test]
fn new_cells_from_edits_are_empty_leaves() {
    let mut d = Data::new();
    d.apply_edit(&root_pos(), &EditOp::CreateTable);
    d.apply_edit(&root_pos(), &EditOp::AddRow(1));
    let t = d.cell.table.as_ref().unwrap();
    let fresh = &t.cells.data[1][0];
    assert!(fresh.table.is_none());
    assert_eq!(fresh.title, "");
    assert_eq!(fresh.hierarchy_depth, 1);
}

#[test]
fn cell_pos_top_and_lower() {
    let p = pos(&[(2, 3), (4, 5)]);
    assert_eq!(p.top(), (0, 0));
    let l = p.lower();
    assert!(!l.is_empty());
    assert_eq!(l.top(), (2, 3));
    let l2 = l.lower();
    assert_eq!(l2.top(), (4, 5));
    assert!(l2.lower().is_empty());
}
