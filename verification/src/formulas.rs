//! Cell formulas of tables (`/=` cells): which cells hold one, the table
//! each reference of a formula resolves to, the order in which the
//! formulas are evaluated so that a cell is computed before the cells
//! reading it, and writing values back into a table grid.
use vstd::prelude::*;
use crate::cells::FormulaRef;
use crate::eval_order::{count_of, ints, kahn_order, lemma_count_of_push, lemma_ints_push, valid_order};
use crate::module::{normalize_name, normalized, opt_chars, TableNameAssignment, TableNameScope};
use crate::text::{
    chars_of, has_prefix_str, lowercase, push_str, starts_with, str_equal, string_of, string_views,
    sub_chars, to_lowercase_string, trim_start, trim_start_index,
};

verus! {

// ---------------------------------------------------------------------------
// Formula cells
// ---------------------------------------------------------------------------

/// Formula held by a cell: the text after `/=`, once leading white space
/// is dropped.
pub open spec fn formula_text(cell: Seq<char>) -> Option<Seq<char>> {
    let t = trim_start(cell);
    if starts_with(t, seq!['/', '=']) {
        Some(t.skip(2))
    } else {
        None
    }
}

/// The formula a cell holds, if it starts (after white space) with `/=`.
pub fn formula_body(cell: &str) -> (r: Option<String>)
    ensures
        match r {
            Some(b) => formula_text(cell@) == Some(b@),
            None => formula_text(cell@) is None,
        },
{
    let cs = chars_of(cell);
    let i = trim_start_index(cs.as_slice());
    let t = sub_chars(cs.as_slice(), i, cs.len());
    assert(t@ =~= cs@.skip(i as int));
    if has_prefix_str(t.as_slice(), "/=") {
        proof {
            reveal_strlit("/=");
            assert("/="@ =~= seq!['/', '=']);
        }
        let b = sub_chars(t.as_slice(), 2, t.len());
        assert(b@ =~= t@.skip(2));
        Some(string_of(b.as_slice()))
    } else {
        proof {
            reveal_strlit("/=");
            assert("/="@ =~= seq!['/', '=']);
        }
        None
    }
}

/// Some cell of the grid holds a formula.
pub open spec fn grid_has_formula(rows: Seq<Vec<String>>) -> bool {
    exists|r: int, c: int|
        0 <= r < rows.len() && 0 <= c < rows[r]@.len() && (#[trigger] formula_text(
            rows[r]@[c]@,
        )) is Some
}

/// Whether any cell of the grid holds a formula.
pub fn has_cell_formula(rows: &[Vec<String>]) -> (r: bool)
    ensures
        r == grid_has_formula(rows@),
{
    let mut r: usize = 0;
    while r < rows.len()
        invariant
            r <= rows.len(),
            forall|i: int, c: int|
                0 <= i < r && 0 <= c < rows@[i]@.len() ==> (#[trigger] formula_text(
                    rows@[i]@[c]@,
                )) is None,
        decreases rows.len() - r,
    {
        let row = &rows[r];
        let mut c: usize = 0;
        while c < row.len()
            invariant
                r < rows.len(),
                row == rows@[r as int],
                c <= row.len(),
                forall|i: int, k: int|
                    0 <= i < r && 0 <= k < rows@[i]@.len() ==> (#[trigger] formula_text(
                        rows@[i]@[k]@,
                    )) is None,
                forall|k: int| 0 <= k < c ==> (#[trigger] formula_text(row@[k]@)) is None,
            decreases row.len() - c,
        {
            if formula_body(row[c].as_str()).is_some() {
                assert(formula_text(rows@[r as int]@[c as int]@) is Some);
                return true;
            }
            c += 1;
        }
        r += 1;
    }
    false
}

/// A table whose formulas are collected: the block holding it, its
/// canonical key, and its cells row by row.
pub struct FormulaTable {
    pub block_id: u64,
    pub key: String,
    pub rows: Vec<Vec<String>>,
}

/// A formula cell: canonical key of its table, column, row, the block
/// holding the table, and the formula text.
pub struct FormulaCell {
    pub table_key: String,
    pub col: u32,
    pub row: u32,
    pub block_id: u64,
    pub body: String,
}

/// A formula cell as plain values.
pub open spec fn cell_view(c: FormulaCell) -> (Seq<char>, int, int, u64, Seq<char>) {
    (c.table_key@, c.col as int, c.row as int, c.block_id, c.body@)
}

/// The cells of a list as plain values.
pub open spec fn cells_view(cs: Seq<FormulaCell>) -> Seq<(Seq<char>, int, int, u64, Seq<char>)> {
    cs.map_values(|c: FormulaCell| cell_view(c))
}

/// Formula cells of row `r` of a table, left to right.
pub open spec fn row_formulas(key: Seq<char>, block: u64, r: int, row: Seq<String>) -> Seq<
    (Seq<char>, int, int, u64, Seq<char>),
>
    decreases row.len(),
{
    if row.len() == 0 {
        seq![]
    } else {
        let rest = row_formulas(key, block, r, row.drop_last());
        match formula_text(row.last()@) {
            Some(b) => rest.push((key, row.len() - 1, r, block, b)),
            None => rest,
        }
    }
}

/// Formula cells of a table, row by row.
pub open spec fn table_formulas(key: Seq<char>, block: u64, rows: Seq<Vec<String>>) -> Seq<
    (Seq<char>, int, int, u64, Seq<char>),
>
    decreases rows.len(),
{
    if rows.len() == 0 {
        seq![]
    } else {
        table_formulas(key, block, rows.drop_last()) + row_formulas(
            key,
            block,
            rows.len() - 1,
            rows.last()@,
        )
    }
}

/// Formula cells of the tables, table by table.
pub open spec fn all_formulas(tables: Seq<FormulaTable>) -> Seq<(Seq<char>, int, int, u64, Seq<char>)>
    decreases tables.len(),
{
    if tables.len() == 0 {
        seq![]
    } else {
        all_formulas(tables.drop_last()) + table_formulas(
            tables.last().key@,
            tables.last().block_id,
            tables.last().rows@,
        )
    }
}

/// Every formula cell of the tables, table by table, row by row, left to
/// right.
pub fn collect_formula_cells(tables: &[FormulaTable]) -> (r: Vec<FormulaCell>)
    requires
        forall|t: int|
            0 <= t < tables.len() ==> (#[trigger] tables@[t]).rows@.len() <= u32::MAX && forall|
                i: int,
            |
                0 <= i < tables@[t].rows@.len() ==> (#[trigger] tables@[t].rows@[i])@.len()
                    <= u32::MAX,
    ensures
        cells_view(r@) == all_formulas(tables@),
{
    let mut out: Vec<FormulaCell> = Vec::new();
    let mut t: usize = 0;
    while t < tables.len()
        invariant
            t <= tables.len(),
            cells_view(out@) == all_formulas(tables@.take(t as int)),
            forall|t: int|
                0 <= t < tables.len() ==> (#[trigger] tables@[t]).rows@.len() <= u32::MAX && forall|
                    i: int,
                |
                    0 <= i < tables@[t].rows@.len() ==> (#[trigger] tables@[t].rows@[i])@.len()
                        <= u32::MAX,
        decreases tables.len() - t,
    {
        let tb = &tables[t];
        let ghost before = cells_view(out@);
        let mut r: usize = 0;
        while r < tb.rows.len()
            invariant
                t < tables.len(),
                tb == tables@[t as int],
                r <= tb.rows@.len(),
                tb.rows@.len() <= u32::MAX,
                forall|i: int| 0 <= i < tb.rows@.len() ==> (#[trigger] tb.rows@[i])@.len() <= u32::MAX,
                cells_view(out@) == before + table_formulas(
                    tb.key@,
                    tb.block_id,
                    tb.rows@.take(r as int),
                ),
            decreases tb.rows@.len() - r,
        {
            let row = &tb.rows[r];
            let ghost mid = cells_view(out@);
            let mut c: usize = 0;
            while c < row.len()
                invariant
                    r < tb.rows@.len(),
                    row == tb.rows@[r as int],
                    c <= row@.len(),
                    row@.len() <= u32::MAX,
                    r < u32::MAX,
                    cells_view(out@) == mid + row_formulas(
                        tb.key@,
                        tb.block_id,
                        r as int,
                        row@.take(c as int),
                    ),
                decreases row@.len() - c,
            {
                let ghost pre = out@;
                assert(row@.take(c + 1).drop_last() =~= row@.take(c as int));
                match formula_body(row[c].as_str()) {
                    Some(b) => {
                        let cell = FormulaCell {
                            table_key: tb.key.clone(),
                            col: c as u32,
                            row: r as u32,
                            block_id: tb.block_id,
                            body: b,
                        };
                        out.push(cell);
                        assert(cells_view(out@) =~= cells_view(pre).push(cell_view(cell)));
                    },
                    None => {},
                }
                c += 1;
            }
            assert(row@.take(row@.len() as int) =~= row@);
            assert(tb.rows@.take(r + 1).drop_last() =~= tb.rows@.take(r as int));
            assert(cells_view(out@) =~= before + table_formulas(
                tb.key@,
                tb.block_id,
                tb.rows@.take(r + 1),
            ));
            r += 1;
        }
        assert(tb.rows@.take(tb.rows@.len() as int) =~= tb.rows@);
        assert(tables@.take(t + 1).drop_last() =~= tables@.take(t as int));
        t += 1;
    }
    assert(tables@.take(tables.len() as int) =~= tables@);
    out
}

// ---------------------------------------------------------------------------
// References
// ---------------------------------------------------------------------------

/// Registry key a reference names: the lower-cased table name, qualified
/// by the lower-cased module name when the reference gives one.
pub open spec fn ref_key(block: Option<Seq<char>>, table: Seq<char>) -> Seq<char> {
    match block {
        Some(b) => lowercase(b) + seq![':', ':'] + lowercase(table),
        None => lowercase(table),
    }
}

/// The key a reference resolves to, when that key is registered.
pub open spec fn resolved_key(r: FormulaRef, keys: Seq<Seq<char>>) -> Option<Seq<char>> {
    let k = ref_key(opt_chars(r.block), r.table@);
    if keys.contains(k) {
        Some(k)
    } else {
        None
    }
}

/// Whether `keys` holds `k`.
fn has_key(keys: &[String], k: &str) -> (r: bool)
    ensures
        r == string_views(keys@).contains(k@),
{
    let ghost ks = string_views(keys@);
    let mut i: usize = 0;
    while i < keys.len()
        invariant
            i <= keys.len(),
            ks == string_views(keys@),
            forall|j: int| 0 <= j < i ==> ks[j] != k@,
        decreases keys.len() - i,
    {
        if str_equal(keys[i].as_str(), k) {
            assert(ks[i as int] == k@);
            return true;
        }
        i += 1;
    }
    false
}

/// The registered key a formula reference resolves to.
pub fn resolve_ref_key(r: &FormulaRef, keys: &[String]) -> (res: Option<String>)
    ensures
        opt_chars(res) == resolved_key(*r, string_views(keys@)),
{
    let k = match &r.block {
        Some(b) => {
            let mut k = to_lowercase_string(b.as_str());
            push_str(&mut k, "::");
            let t = to_lowercase_string(r.table.as_str());
            push_str(&mut k, t.as_str());
            proof {
                reveal_strlit("::");
            }
            k
        },
        None => to_lowercase_string(r.table.as_str()),
    };
    assert(k@ == ref_key(opt_chars(r.block), r.table@));
    if has_key(keys, k.as_str()) {
        Some(k)
    } else {
        None
    }
}

// ---------------------------------------------------------------------------
// Evaluation order
// ---------------------------------------------------------------------------

/// Index of the last formula cell of table `key` at column `col`, row `row`.
pub open spec fn cell_named(
    cells: Seq<(Seq<char>, int, int, u64, Seq<char>)>,
    key: Seq<char>,
    col: int,
    row: int,
) -> Option<int>
    decreases cells.len(),
{
    if cells.len() == 0 {
        None
    } else if cells.last().0 == key && cells.last().1 == col && cells.last().2 == row {
        Some(cells.len() - 1)
    } else {
        cell_named(cells.drop_last(), key, col, row)
    }
}

/// Formula cells that formula `v` reads through its references `rs`: one
/// entry per reference naming another formula cell.
pub open spec fn ref_deps(
    cells: Seq<(Seq<char>, int, int, u64, Seq<char>)>,
    keys: Seq<Seq<char>>,
    rs: Seq<FormulaRef>,
    v: int,
) -> Seq<int>
    decreases rs.len(),
{
    if rs.len() == 0 {
        seq![]
    } else {
        let rest = ref_deps(cells, keys, rs.drop_last(), v);
        let r = rs.last();
        match resolved_key(r, keys) {
            Some(k) => match cell_named(cells, k, r.cell.0 as int, r.cell.1 as int) {
                Some(d) => if d != v {
                    rest.push(d)
                } else {
                    rest
                },
                None => rest,
            },
            None => rest,
        }
    }
}

/// Dependencies of every formula cell, given the references of each.
pub open spec fn formula_deps(
    cells: Seq<FormulaCell>,
    keys: Seq<String>,
    refs: Seq<Vec<FormulaRef>>,
) -> Seq<Seq<int>> {
    Seq::new(
        cells.len(),
        |v: int| ref_deps(cells_view(cells), string_views(keys), refs[v]@, v),
    )
}

proof fn lemma_cell_named_bounds(
    cells: Seq<(Seq<char>, int, int, u64, Seq<char>)>,
    key: Seq<char>,
    col: int,
    row: int,
)
    ensures
        match cell_named(cells, key, col, row) {
            Some(d) => 0 <= d < cells.len() && cells[d].0 == key && cells[d].1 == col && cells[d].2
                == row,
            None => true,
        },
    decreases cells.len(),
{
    if cells.len() > 0 && !(cells.last().0 == key && cells.last().1 == col && cells.last().2
        == row) {
        lemma_cell_named_bounds(cells.drop_last(), key, col, row);
    }
}

proof fn lemma_ref_deps_bounds(
    cells: Seq<(Seq<char>, int, int, u64, Seq<char>)>,
    keys: Seq<Seq<char>>,
    rs: Seq<FormulaRef>,
    v: int,
)
    ensures
        forall|j: int|
            0 <= j < ref_deps(cells, keys, rs, v).len() ==> 0 <= #[trigger] ref_deps(
                cells,
                keys,
                rs,
                v,
            )[j] < cells.len() && ref_deps(cells, keys, rs, v)[j] != v,
        ref_deps(cells, keys, rs, v).len() <= rs.len(),
    decreases rs.len(),
{
    if rs.len() > 0 {
        lemma_ref_deps_bounds(cells, keys, rs.drop_last(), v);
        let r = rs.last();
        match resolved_key(r, keys) {
            Some(k) => lemma_cell_named_bounds(cells, k, r.cell.0 as int, r.cell.1 as int),
            None => {},
        }
    }
}

/// Index of the last formula cell of table `key` at (`col`, `row`).
fn find_cell(cells: &[FormulaCell], key: &str, col: u32, row: u32) -> (r: Option<usize>)
    ensures
        cell_named(cells_view(cells@), key@, col as int, row as int) == match r {
            Some(i) => Some(i as int),
            None => None::<int>,
        },
{
    let ghost cv = cells_view(cells@);
    let mut i = cells.len();
    assert(cv.take(i as int) =~= cv);
    while i > 0
        invariant
            i <= cells.len(),
            cv == cells_view(cells@),
            cell_named(cv, key@, col as int, row as int) == cell_named(
                cv.take(i as int),
                key@,
                col as int,
                row as int,
            ),
        decreases i,
    {
        let ghost t = cv.take(i as int);
        assert(t.last() == cell_view(cells@[i - 1]));
        if cells[i - 1].col == col && cells[i - 1].row == row && str_equal(
            cells[i - 1].table_key.as_str(),
            key,
        ) {
            return Some(i - 1);
        }
        assert(t.drop_last() =~= cv.take(i - 1));
        i -= 1;
    }
    assert(cv.take(0) =~= Seq::<(Seq<char>, int, int, u64, Seq<char>)>::empty());
    None
}

/// Builds, for every formula cell, its number of dependencies and the
/// list of formula cells reading it (once per reference).
fn formula_graph(cells: &[FormulaCell], keys: &[String], refs: &[Vec<FormulaRef>]) -> (r: (
    Vec<usize>,
    Vec<Vec<usize>>,
))
    requires
        refs.len() == cells.len(),
    ensures
        r.0@.len() == cells.len(),
        r.1@.len() == cells.len(),
        forall|v: int|
            0 <= v < cells.len() ==> r.0@[v] == formula_deps(cells@, keys@, refs@)[v].len(),
        forall|u: int, v: int|
            0 <= u < cells.len() ==> #[trigger] count_of(ints(r.1@[u]@), v) == if 0 <= v
                < cells.len() {
                count_of(formula_deps(cells@, keys@, refs@)[v], u)
            } else {
                0
            },
        forall|u: int, k: int|
            0 <= u < cells.len() && 0 <= k < r.1@[u]@.len() ==> #[trigger] r.1@[u]@[k]
                < cells.len(),
{
    let n = cells.len();
    let ghost cv = cells_view(cells@);
    let ghost kv = string_views(keys@);
    let ghost deps = formula_deps(cells@, keys@, refs@);
    let mut in_degree: Vec<usize> = Vec::new();
    let mut dependents: Vec<Vec<usize>> = Vec::new();
    let mut i: usize = 0;
    while i < n
        invariant
            i <= n,
            n == cells.len(),
            in_degree@.len() == i,
            dependents@.len() == i,
            forall|u: int| 0 <= u < i ==> (#[trigger] dependents@[u])@.len() == 0,
            forall|u: int| 0 <= u < i ==> in_degree@[u] == 0,
        decreases n - i,
    {
        in_degree.push(0);
        dependents.push(Vec::new());
        i += 1;
    }
    assert forall|u: int, v: int| 0 <= u < n implies #[trigger] count_of(ints(dependents@[u]@), v)
        == 0 by {
        assert(ints(dependents@[u]@) =~= Seq::<int>::empty());
    }
    let mut i: usize = 0;
    while i < n
        invariant
            i <= n,
            n == cells.len(),
            refs.len() == n,
            cv == cells_view(cells@),
            kv == string_views(keys@),
            deps == formula_deps(cells@, keys@, refs@),
            in_degree@.len() == n,
            dependents@.len() == n,
            forall|v: int| 0 <= v < n ==> in_degree@[v] == if v < i { deps[v].len() } else { 0 },
            forall|u: int, v: int|
                0 <= u < n ==> #[trigger] count_of(ints(dependents@[u]@), v) == if 0 <= v < i {
                    count_of(deps[v], u)
                } else {
                    0
                },
            forall|u: int, k: int|
                0 <= u < n && 0 <= k < dependents@[u]@.len() ==> #[trigger] dependents@[u]@[k] < i,
        decreases n - i,
    {
        let ds = &refs[i];
        let mut j: usize = 0;
        while j < ds.len()
            invariant
                i < n,
                j <= ds.len(),
                n == cells.len(),
                refs.len() == n,
                ds == refs@[i as int],
                cv == cells_view(cells@),
            kv == string_views(keys@),
                deps == formula_deps(cells@, keys@, refs@),
                in_degree@.len() == n,
                dependents@.len() == n,
                forall|v: int|
                    0 <= v < n && v != i ==> in_degree@[v] == if v < i { deps[v].len() } else { 0 },
                in_degree@[i as int] == ref_deps(cv, kv, ds@.take(j as int), i as int).len(),
                forall|u: int, v: int|
                    0 <= u < n ==> #[trigger] count_of(ints(dependents@[u]@), v) == if 0 <= v < i {
                        count_of(deps[v], u)
                    } else if v == i {
                        count_of(ref_deps(cv, kv, ds@.take(j as int), i as int), u)
                    } else {
                        0
                    },
                forall|u: int, k: int|
                    0 <= u < n && 0 <= k < dependents@[u]@.len() ==> #[trigger] dependents@[u]@[k]
                        <= i,
                ref_deps(cv, kv, ds@.take(j as int), i as int).len() <= j,
            decreases ds.len() - j,
        {
            let ghost prev = ref_deps(cv, kv, ds@.take(j as int), i as int);
            assert(ds@.take(j + 1).drop_last() =~= ds@.take(j as int));
            assert(ds@.take(j + 1).last() == ds@[j as int]);
            let rr = &ds[j];
            let found = match resolve_ref_key(rr, keys) {
                Some(k) => {
                    proof {
                        lemma_cell_named_bounds(cv, k@, rr.cell.0 as int, rr.cell.1 as int);
                    }
                    find_cell(cells, k.as_str(), rr.cell.0, rr.cell.1)
                },
                None => None,
            };
            match found {
                Some(d) => {
                    if d != i {
                        let mut row: Vec<usize> = Vec::new();
                        dependents.set_and_swap(d, &mut row);
                        let ghost old_row = row@;
                        row.push(i);
                        proof {
                            lemma_ints_push(old_row, i);
                            assert forall|v: int| true implies count_of(ints(row@), v) == count_of(
                                ints(old_row),
                                v,
                            ) + if v == i { 1nat } else { 0nat } by {
                                lemma_count_of_push(ints(old_row), i as int, v);
                            }
                            assert forall|u: int| true implies count_of(
                                ref_deps(cv, kv, ds@.take(j + 1), i as int),
                                u,
                            ) == count_of(prev, u) + if u == d { 1nat } else { 0nat } by {
                                lemma_count_of_push(prev, d as int, u);
                            }
                        }
                        dependents.set(d, row);
                        in_degree.set(i, in_degree[i] + 1);
                    } else {
                        assert(ref_deps(cv, kv, ds@.take(j + 1), i as int) == prev);
                    }
                },
                None => {
                    assert(ref_deps(cv, kv, ds@.take(j + 1), i as int) == prev);
                },
            }
            j += 1;
        }
        assert(ds@.take(ds.len() as int) =~= ds@);
        assert(deps[i as int] == ref_deps(cv, kv, ds@, i as int));
        i += 1;
    }
    (in_degree, dependents)
}


/// Order in which to evaluate the formula cells, given the references of
/// each formula (`refs[i]` for `cells[i]`), and how many of them were
/// placed in dependency order; the rest, caught in reference cycles,
/// follow in index order.
pub fn formula_order(cells: &[FormulaCell], keys: &[String], refs: &[Vec<FormulaRef>]) -> (r: (
    Vec<usize>,
    usize,
))
    requires
        refs.len() == cells.len(),
    ensures
        valid_order(formula_deps(cells@, keys@, refs@), ints(r.0@), r.1 as int),
{
    let n = cells.len();
    let ghost deps = formula_deps(cells@, keys@, refs@);
    let (in_degree, dependents) = formula_graph(cells, keys, refs);
    let mut front: Vec<bool> = Vec::new();
    let mut i: usize = 0;
    while i < n
        invariant
            i <= n,
            front@.len() == i,
        decreases n - i,
    {
        front.push(false);
        i += 1;
    }
    proof {
        assert forall|v: int, j: int|
            0 <= v < n && 0 <= j < deps[v].len() implies 0 <= #[trigger] deps[v][j] < n by {
            lemma_ref_deps_bounds(cells_view(cells@), string_views(keys@), refs@[v]@, v);
        }
    }
    kahn_order(Ghost(deps), in_degree, &dependents, front.as_slice())
}

// ---------------------------------------------------------------------------
// Writing into a table
// ---------------------------------------------------------------------------

/// The text of cell `k` of row `i` of a grid, empty where the grid has no
/// such cell.
pub open spec fn grid_cell(rows: Seq<Vec<String>>, i: int, k: int) -> Seq<char> {
    if 0 <= i < rows.len() && 0 <= k < rows[i]@.len() {
        rows[i]@[k]@
    } else {
        seq![]
    }
}

/// Number of cells of row `i` of a grid, zero past its last row.
pub open spec fn row_len(rows: Seq<Vec<String>>, i: int) -> int {
    if 0 <= i < rows.len() {
        rows[i]@.len() as int
    } else {
        0
    }
}

/// Writes `value` into column `col` of row `row`, first growing the grid
/// with empty rows and the row with empty cells as far as needed.
pub fn write_cell(rows: &mut Vec<Vec<String>>, col: usize, row: usize, value: String)
    requires
        row < usize::MAX,
        col < usize::MAX,
    ensures
        final(rows)@.len() == if row < old(rows)@.len() {
            old(rows)@.len() as int
        } else {
            row + 1
        },
        forall|i: int|
            0 <= i < final(rows)@.len() && i != row ==> (#[trigger] final(rows)@[i])@.len()
                == row_len(old(rows)@, i),
        final(rows)@[row as int]@.len() == if col < row_len(old(rows)@, row as int) {
            row_len(old(rows)@, row as int)
        } else {
            col + 1
        },
        forall|i: int, k: int|
            0 <= i < final(rows)@.len() && 0 <= k < final(rows)@[i]@.len() ==> (
            #[trigger] final(rows)@[i]@[k])@ == if i == row && k == col {
                value@
            } else {
                grid_cell(old(rows)@, i, k)
            },
{
    let ghost g0 = rows@;
    while rows.len() <= row
        invariant
            row < usize::MAX,
            g0.len() <= rows@.len(),
            rows@.len() <= if row < g0.len() { g0.len() as int } else { row + 1 },
            forall|i: int| 0 <= i < g0.len() ==> #[trigger] rows@[i] == g0[i],
            forall|i: int| g0.len() <= i < rows@.len() ==> (#[trigger] rows@[i])@.len() == 0,
        decreases row + 1 - rows@.len(),
    {
        rows.push(Vec::new());
    }
    let ghost g1 = rows@;
    let mut cur: Vec<String> = Vec::new();
    rows.set_and_swap(row, &mut cur);
    let ghost r0 = cur@;
    assert(r0 == g1[row as int]@);
    while cur.len() <= col
        invariant
            col < usize::MAX,
            r0.len() <= cur@.len(),
            cur@.len() <= if col < r0.len() { r0.len() as int } else { col + 1 },
            forall|k: int| 0 <= k < r0.len() ==> #[trigger] cur@[k] == r0[k],
            forall|k: int| r0.len() <= k < cur@.len() ==> (#[trigger] cur@[k])@.len() == 0,
        decreases col + 1 - cur@.len(),
    {
        cur.push(String::new());
    }
    cur.set(col, value);
    rows.set(row, cur);
    proof {
        assert forall|i: int, k: int|
            0 <= i < rows@.len() && 0 <= k < rows@[i]@.len() implies (#[trigger] rows@[i]@[k])@
            == if i == row && k == col {
            value@
        } else {
            grid_cell(g0, i, k)
        } by {
            if i == row {
                if k != col && k >= r0.len() {
                    assert(rows@[i]@[k]@ =~= Seq::<char>::empty());
                }
            } else if i >= g0.len() {
                assert(rows@[i]@.len() == 0);
            }
        }
    }
}

// ---------------------------------------------------------------------------
// Keys of a table
// ---------------------------------------------------------------------------

/// Strict order of strings: lexicographic by code point, which is the
/// order of their UTF-8 bytes and so the order `String` sorts by.
pub open spec fn lex_lt(a: Seq<char>, b: Seq<char>) -> bool
    decreases a.len(),
{
    if a.len() == 0 {
        b.len() > 0
    } else if b.len() == 0 {
        false
    } else if a[0] != b[0] {
        (a[0] as u32) < (b[0] as u32)
    } else {
        lex_lt(a.drop_first(), b.drop_first())
    }
}

/// `s` is in strictly increasing order.
pub open spec fn strictly_sorted(s: Seq<Seq<char>>) -> bool {
    forall|i: int, j: int| 0 <= i < j < s.len() ==> lex_lt(#[trigger] s[i], #[trigger] s[j])
}

proof fn lemma_lex_irreflexive(a: Seq<char>)
    ensures
        !lex_lt(a, a),
    decreases a.len(),
{
    if a.len() > 0 {
        lemma_lex_irreflexive(a.drop_first());
    }
}

proof fn lemma_lex_total(a: Seq<char>, b: Seq<char>)
    ensures
        a == b || lex_lt(a, b) || lex_lt(b, a),
    decreases a.len(),
{
    if a.len() > 0 && b.len() > 0 && a[0] == b[0] {
        lemma_lex_total(a.drop_first(), b.drop_first());
        if a.drop_first() == b.drop_first() {
            assert(a =~= seq![a[0]] + a.drop_first());
            assert(b =~= seq![b[0]] + b.drop_first());
        }
    } else if a.len() > 0 && b.len() > 0 {
        let x = a[0] as u32;
        let y = b[0] as u32;
        vstd::utf8::char_u32_cast(a[0], x);
        vstd::utf8::char_u32_cast(b[0], y);
    } else if a.len() == 0 && b.len() == 0 {
        assert(a =~= b);
    }
}

proof fn lemma_lex_asym(a: Seq<char>, b: Seq<char>)
    ensures
        !(lex_lt(a, b) && lex_lt(b, a)),
    decreases a.len(),
{
    if a.len() > 0 && b.len() > 0 && a[0] == b[0] {
        lemma_lex_asym(a.drop_first(), b.drop_first());
    }
}

proof fn lemma_lex_trans(a: Seq<char>, b: Seq<char>, c: Seq<char>)
    requires
        lex_lt(a, b),
        lex_lt(b, c),
    ensures
        lex_lt(a, c),
    decreases a.len(),
{
    if a.len() > 0 && b.len() > 0 && c.len() > 0 && a[0] == b[0] && b[0] == c[0] {
        lemma_lex_trans(a.drop_first(), b.drop_first(), c.drop_first());
    }
}

/// Whether `a` comes before `b` in `lex_lt` order.
fn chars_lt(a: &[char], b: &[char]) -> (r: bool)
    ensures
        r == lex_lt(a@, b@),
{
    let mut i: usize = 0;
    assert(a@.skip(0) =~= a@ && b@.skip(0) =~= b@);
    while i < a.len() && i < b.len() && a[i] == b[i]
        invariant
            i <= a.len(),
            i <= b.len(),
            lex_lt(a@, b@) == lex_lt(a@.skip(i as int), b@.skip(i as int)),
        decreases a.len() - i,
    {
        proof {
            let x = a@.skip(i as int);
            let y = b@.skip(i as int);
            assert(x.drop_first() =~= a@.skip(i + 1));
            assert(y.drop_first() =~= b@.skip(i + 1));
        }
        i += 1;
    }
    let ghost x = a@.skip(i as int);
    let ghost y = b@.skip(i as int);
    if i == a.len() {
        i < b.len()
    } else if i == b.len() {
        false
    } else {
        assert(x[0] == a@[i as int] && y[0] == b@[i as int]);
        (a[i] as u32) < (b[i] as u32)
    }
}

/// Inserts `k` into a strictly sorted list unless it is already there.
fn insert_sorted(keys: &mut Vec<String>, k: String)
    requires
        strictly_sorted(string_views(old(keys)@)),
    ensures
        strictly_sorted(string_views(final(keys)@)),
        string_views(final(keys)@).to_set() == string_views(old(keys)@).to_set().insert(k@),
{
    let ghost old_v = string_views(keys@);
    let kc = chars_of(k.as_str());
    let mut p: usize = 0;
    let mut stop = false;
    while p < keys.len() && !stop
        invariant
            p <= keys@.len(),
            old_v == string_views(keys@),
            kc@ == k@,
            forall|i: int| 0 <= i < p ==> lex_lt(#[trigger] old_v[i], k@),
            stop ==> p < keys@.len() && !lex_lt(old_v[p as int], k@),
        decreases keys@.len() - p, if stop { 0int } else { 1int },
    {
        let c = chars_of(keys[p].as_str());
        if chars_lt(c.as_slice(), kc.as_slice()) {
            p += 1;
        } else {
            stop = true;
        }
    }
    if p < keys.len() {
        let c = chars_of(keys[p].as_str());
        if crate::text::chars_equal(c.as_slice(), kc.as_slice()) {
            proof {
                assert(old_v[p as int] == k@);
                assert(old_v.to_set().insert(k@) =~= old_v.to_set());
            }
            return;
        }
        proof {
            lemma_lex_total(old_v[p as int], k@);
        }
    }
    keys.insert(p, k);
    proof {
        let nv = string_views(keys@);
        assert(nv =~= old_v.take(p as int).push(k@) + old_v.skip(p as int));
        assert forall|i: int, j: int| 0 <= i < j < nv.len() implies lex_lt(
            #[trigger] nv[i],
            #[trigger] nv[j],
        ) by {
            if j < p {
                assert(nv[i] == old_v[i] && nv[j] == old_v[j]);
            } else if j == p {
                assert(nv[i] == old_v[i]);
            } else if i == p {
                assert(nv[j] == old_v[j - 1]);
                if j - 1 > p {
                    assert(lex_lt(old_v[p as int], old_v[j - 1]));
                    lemma_lex_trans(k@, old_v[p as int], old_v[j - 1]);
                }
            } else if i < p {
                assert(nv[i] == old_v[i] && nv[j] == old_v[j - 1]);
            } else {
                assert(nv[i] == old_v[i - 1] && nv[j] == old_v[j - 1]);
            }
        }
        assert forall|x: Seq<char>| nv.to_set().contains(x) <==> old_v.to_set().insert(
            k@,
        ).contains(x) by {
            if nv.to_set().contains(x) {
                let i = choose|i: int| 0 <= i < nv.len() && nv[i] == x;
                if i < p {
                    assert(old_v[i] == x);
                } else if i > p {
                    assert(old_v[i - 1] == x);
                }
            }
            if old_v.to_set().contains(x) {
                let i = choose|i: int| 0 <= i < old_v.len() && old_v[i] == x;
                if i < p {
                    assert(nv[i] == x);
                } else {
                    assert(nv[i + 1] == x);
                }
            }
            if x == k@ {
                assert(nv[p as int] == x);
            }
        }
        assert(nv.to_set() =~= old_v.to_set().insert(k@));
    }
}

/// Characters of an optional string slice.
pub open spec fn opt_str(o: Option<&str>) -> Option<Seq<char>> {
    match o {
        Some(s) => Some(s@),
        None => None,
    }
}

/// Name and scope given to a table by the heading above it.
pub open spec fn heading_view(h: Option<&TableNameAssignment>) -> Option<(Seq<char>, TableNameScope)> {
    match h {
        Some(a) => Some((a.name@, a.scope)),
        None => None,
    }
}

/// `a::b`.
pub open spec fn qualified(a: Seq<char>, b: Seq<char>) -> Seq<char> {
    a + seq![':', ':'] + b
}

/// Registry key of a table: the normalized name of its heading (qualified
/// by the module for a module-scoped name), else its lower-cased
/// positional name.
pub open spec fn canonical_key(
    pos: Seq<char>,
    heading: Option<(Seq<char>, TableNameScope)>,
    module: Option<Seq<char>>,
) -> Seq<char> {
    match heading {
        Some((h, scope)) => match scope {
            TableNameScope::Global => normalized(h),
            TableNameScope::BlockScoped => match module {
                Some(m) => qualified(m, normalized(h)),
                None => normalized(h),
            },
        },
        None => lowercase(pos),
    }
}

/// Every key a table is registered under: its lower-cased positional
/// name, its canonical key, the bare heading name of a module-scoped table
/// of the focused module, and the positional name qualified by its module.
pub open spec fn key_candidates(
    pos: Seq<char>,
    heading: Option<(Seq<char>, TableNameScope)>,
    module: Option<Seq<char>>,
    focused: Option<Seq<char>>,
) -> Seq<Seq<char>> {
    let base = seq![lowercase(pos), canonical_key(pos, heading, module)];
    let with_heading = match heading {
        Some((h, TableNameScope::BlockScoped)) => if module == focused {
            base.push(normalized(h))
        } else {
            base
        },
        _ => base,
    };
    match module {
        Some(m) => with_heading.push(qualified(m, lowercase(pos))),
        None => with_heading,
    }
}

/// The keys of a table: its canonical key, and all its keys in sorted
/// order, each once.
pub struct TableKeys {
    pub canonical: String,
    pub keys: Vec<String>,
}

fn qualify(a: &str, b: &str) -> (r: String)
    ensures
        r@ == qualified(a@, b@),
{
    let mut r = string_from_str(a);
    push_str(&mut r, "::");
    push_str(&mut r, b);
    proof {
        reveal_strlit("::");
        assert(r@ =~= qualified(a@, b@));
    }
    r
}

fn string_from_str(a: &str) -> (r: String)
    ensures
        r@ == a@,
{
    crate::text::string_from(a)
}

/// Keys under which a table is registered, given its positional name, the
/// heading naming it, the module holding it and the module in focus.
pub fn table_keys(
    pos_name: &str,
    heading: Option<&TableNameAssignment>,
    module: Option<&str>,
    focused: Option<&str>,
) -> (r: TableKeys)
    ensures
        r.canonical@ == canonical_key(pos_name@, heading_view(heading), opt_str(module)),
        strictly_sorted(string_views(r.keys@)),
        string_views(r.keys@).to_set() == key_candidates(
            pos_name@,
            heading_view(heading),
            opt_str(module),
            opt_str(focused),
        ).to_set(),
{
    let pos = to_lowercase_string(pos_name);
    let canonical = match heading {
        Some(h) => {
            let hname = normalize_name(h.name.as_str());
            match h.scope {
                TableNameScope::Global => hname,
                TableNameScope::BlockScoped => match module {
                    Some(m) => qualify(m, hname.as_str()),
                    None => hname,
                },
            }
        },
        None => crate::text::string_from(pos.as_str()),
    };
    let ghost cands = key_candidates(pos_name@, heading_view(heading), opt_str(module), opt_str(focused));
    let mut keys: Vec<String> = Vec::new();
    let ghost mut added: Seq<Seq<char>> = seq![];
    assert(string_views(keys@).to_set() =~= added.to_set());
    insert_sorted(&mut keys, crate::text::string_from(pos.as_str()));
    proof {
        added.lemma_push_to_set_commute(pos@);
        added = added.push(pos@);
    }
    insert_sorted(&mut keys, crate::text::string_from(canonical.as_str()));
    proof {
        added.lemma_push_to_set_commute(canonical@);
        added = added.push(canonical@);
    }
    let same_module = match (module, focused) {
        (Some(a), Some(b)) => str_equal(a, b),
        (None, None) => true,
        _ => false,
    };
    assert(same_module == (opt_str(module) == opt_str(focused)));
    match heading {
        Some(h) => {
            if h.scope == TableNameScope::BlockScoped && same_module {
                let hname = normalize_name(h.name.as_str());
                insert_sorted(&mut keys, hname);
                proof {
                    added.lemma_push_to_set_commute(normalized(h.name@));
                    added = added.push(normalized(h.name@));
                }
            }
        },
        None => {},
    }
    match module {
        Some(m) => {
            let q = qualify(m, pos.as_str());
            insert_sorted(&mut keys, q);
            proof {
                added.lemma_push_to_set_commute(qualified(m@, pos@));
                added = added.push(qualified(m@, pos@));
            }
        },
        None => {},
    }
    assert(added =~= cands);
    TableKeys { canonical, keys }
}

} // verus!
