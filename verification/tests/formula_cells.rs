use acord::cells::FormulaRef;
use acord::formulas::{
    collect_formula_cells, formula_body, formula_order, has_cell_formula, resolve_ref_key,
    table_keys, write_cell, FormulaCell, FormulaTable,
};
use acord::module::{TableNameAssignment, TableNameScope};

fn grid(rows: &[&[&str]]) -> Vec<Vec<String>> {
    rows.iter().map(|r| r.iter().map(|c| c.to_string()).collect()).collect()
}

fn cell(key: &str, col: u32, row: u32, body: &str) -> FormulaCell {
    FormulaCell { table_key: key.to_string(), col, row, block_id: 7, body: body.to_string() }
}

fn reference(block: Option<&str>, table: &str, col: u32, row: u32) -> FormulaRef {
    FormulaRef { block: block.map(|b| b.to_string()), table: table.to_string(), cell: (col, row) }
}

#[test]
fn formula_body_after_marker() {
    assert_eq!(formula_body("  /= A1 + 1"), Some(" A1 + 1".to_string()));
    assert_eq!(formula_body("/="), Some(String::new()));
    assert_eq!(formula_body("x /= 2"), None);
    assert_eq!(formula_body("/ = 2"), None);
    assert_eq!(formula_body(""), None);
}

#[test]
fn grid_formula_detection() {
    assert!(!has_cell_formula(&grid(&[&["a", "b"], &["1", "2"]])));
    assert!(has_cell_formula(&grid(&[&["a", "b"], &["1", " /=a1*2"]])));
    assert!(!has_cell_formula(&[]));
}

#[test]
fn formula_cells_in_reading_order() {
    let tables = vec![
        FormulaTable { block_id: 3, key: "t1".to_string(), rows: grid(&[&["x", "/=1"], &["/=2", "y"]]) },
        FormulaTable { block_id: 9, key: "prices".to_string(), rows: grid(&[&["/=3"]]) },
    ];
    let cells = collect_formula_cells(&tables);
    let got: Vec<(String, u32, u32, u64, String)> = cells
        .iter()
        .map(|c| (c.table_key.clone(), c.col, c.row, c.block_id, c.body.clone()))
        .collect();
    assert_eq!(
        got,
        vec![
            ("t1".to_string(), 1, 0, 3, "1".to_string()),
            ("t1".to_string(), 0, 1, 3, "2".to_string()),
            ("prices".to_string(), 0, 0, 9, "3".to_string()),
        ]
    );
}

#[test]
fn references_resolve_to_registered_keys() {
    let keys = vec!["t1".to_string(), "budget::t1".to_string()];
    assert_eq!(resolve_ref_key(&reference(Some("Budget"), "T1", 0, 0), &keys), Some("budget::t1".to_string()));
    assert_eq!(resolve_ref_key(&reference(None, "T1", 0, 0), &keys), Some("t1".to_string()));
    assert_eq!(resolve_ref_key(&reference(None, "T2", 0, 0), &keys), None);
    assert_eq!(resolve_ref_key(&reference(Some("other"), "t1", 0, 0), &keys), None);
}

#[test]
fn formulas_ordered_after_their_inputs() {
    let keys = vec!["t1".to_string()];
    let cells = vec![
        cell("t1", 0, 0, "B1 + 1"),
        cell("t1", 1, 0, "5"),
        cell("t1", 2, 0, "C1"),
        cell("t1", 3, 0, "E1"),
        cell("t1", 4, 0, "D1"),
    ];
    let refs = vec![
        vec![reference(None, "t1", 1, 0)],
        vec![],
        vec![reference(None, "t1", 2, 0)],
        vec![reference(None, "t1", 4, 0)],
        vec![reference(None, "t1", 3, 0)],
    ];
    let (order, placed) = formula_order(&cells, &keys, &refs);
    assert_eq!(order, vec![1, 2, 0, 3, 4]);
    assert_eq!(placed, 3);
}

#[test]
fn references_to_plain_cells_add_no_dependency() {
    let keys = vec!["t1".to_string(), "t2".to_string()];
    let cells = vec![cell("t1", 0, 0, "@t2:A1 + B1"), cell("t1", 1, 0, "A1")];
    let refs = vec![vec![reference(None, "t2", 0, 0)], vec![reference(None, "t1", 0, 0)]];
    let (order, placed) = formula_order(&cells, &keys, &refs);
    assert_eq!(order, vec![0, 1]);
    assert_eq!(placed, 2);
}

#[test]
fn write_cell_grows_grid() {
    let mut rows = grid(&[&["a"]]);
    write_cell(&mut rows, 2, 1, "z".to_string());
    assert_eq!(rows, grid(&[&["a"], &["", "", "z"]]));
    write_cell(&mut rows, 0, 0, "b".to_string());
    assert_eq!(rows, grid(&[&["b"], &["", "", "z"]]));
}

#[test]
fn table_keys_for_module_scoped_heading() {
    let heading = TableNameAssignment { table_id: 4, name: "Prices".to_string(), scope: TableNameScope::BlockScoped };
    let k = table_keys("Table1", Some(&heading), Some("shop"), Some("shop"));
    assert_eq!(k.canonical, "shop::prices");
    assert_eq!(k.keys, vec!["prices", "shop::prices", "shop::table1", "table1"]);
    let k = table_keys("Table1", Some(&heading), Some("shop"), Some("other"));
    assert_eq!(k.keys, vec!["shop::prices", "shop::table1", "table1"]);
}

#[test]
fn table_keys_without_heading() {
    let k = table_keys("Table2", None, None, None);
    assert_eq!(k.canonical, "table2");
    assert_eq!(k.keys, vec!["table2"]);
    let global = TableNameAssignment { table_id: 1, name: "  Tax Rates ".to_string(), scope: TableNameScope::Global };
    let k = table_keys("Table3", Some(&global), Some("m"), None);
    assert_eq!(k.canonical, "tax_rates");
    assert_eq!(k.keys, vec!["m::table3", "table3", "tax_rates"]);
}
