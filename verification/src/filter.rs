//! The filter engine: one column/operator/literal predicate evaluated
//! against a table, producing the sub-table of matching rows in source
//! order.

use vstd::prelude::*;
use crate::error::EngineError;
use crate::table::{Column, ColumnModel, Table, duplicate_cells, has_col, is_first_col, table_height, table_wf};
use crate::value::{Value, ValueModel, parse_num, spec_parse_num};

verus! {

/// The predicate operators a filter supports. The five numeric operators
/// parse the literal as a number; `EqualStr` compares it as raw text; the
/// two null tests ignore it.
#[derive(Clone, Copy, Debug, PartialEq, Eq, Structural)]
pub enum FilterOps {
    EqualNum,
    EqualStr,
    GreaterThan,
    GreaterEqualThan,
    LowerThan,
    LowerEqualThan,
    IsNull,
    IsNotNull,
}

/// Pending filter selections of one container, plus the staged result and
/// the placement policy (`inplace`: replace the container's table, else
/// spawn a new container).
#[derive(Debug)]
pub struct DataFrameFilter {
    pub column: String,
    pub operation: FilterOps,
    pub value: String,
    pub inplace: bool,
    pub filtered_data: Option<Table>,
}

impl DataFrameFilter {
    /// Fresh configuration: no column, numeric equality, empty literal,
    /// results spawn a new container, nothing staged.
    pub open spec fn is_default(self) -> bool {
        &&& self.column@ == Seq::<char>::empty()
        &&& self.operation == FilterOps::EqualNum
        &&& self.value@ == Seq::<char>::empty()
        &&& self.inplace == false
        &&& self.filtered_data is None
    }
}

impl Default for DataFrameFilter {
    fn default() -> (r: Self)
        ensures
            r.is_default(),
    {
        DataFrameFilter {
            column: String::new(),
            operation: FilterOps::EqualNum,
            value: String::new(),
            inplace: false,
            filtered_data: None,
        }
    }
}

/// The operators that compare against the parsed number.
pub open spec fn is_numeric_op(op: FilterOps) -> bool {
    match op {
        FilterOps::EqualNum => true,
        FilterOps::GreaterThan => true,
        FilterOps::GreaterEqualThan => true,
        FilterOps::LowerThan => true,
        FilterOps::LowerEqualThan => true,
        _ => false,
    }
}

/// Whether one cell satisfies the predicate. A null cell satisfies only
/// `IsNull`; a numeric comparison holds only of integer cells and a string
/// equality only of text cells.
pub open spec fn cell_sat(v: ValueModel, op: FilterOps, num: int, lit: Seq<char>) -> bool {
    match op {
        FilterOps::EqualNum => v == ValueModel::Int(num),
        FilterOps::EqualStr => v == ValueModel::Str(lit),
        FilterOps::GreaterThan => v matches ValueModel::Int(x) && x > num,
        FilterOps::GreaterEqualThan => v matches ValueModel::Int(x) && x >= num,
        FilterOps::LowerThan => v matches ValueModel::Int(x) && x < num,
        FilterOps::LowerEqualThan => v matches ValueModel::Int(x) && x <= num,
        FilterOps::IsNull => v is Null,
        FilterOps::IsNotNull => !(v is Null),
    }
}

pub open spec fn col_no_str(cells: Seq<ValueModel>) -> bool {
    forall|i: int| 0 <= i < cells.len() ==> !((#[trigger] cells[i]) is Str)
}

pub open spec fn col_no_int(cells: Seq<ValueModel>) -> bool {
    forall|i: int| 0 <= i < cells.len() ==> !((#[trigger] cells[i]) is Int)
}

/// The operator fits the column's type: numeric comparisons refuse columns
/// holding text, string equality refuses columns holding numbers, and the
/// null tests accept every column.
pub open spec fn filter_type_ok(op: FilterOps, cells: Seq<ValueModel>) -> bool {
    if is_numeric_op(op) {
        col_no_str(cells)
    } else if op is EqualStr {
        col_no_int(cells)
    } else {
        true
    }
}

/// The row indices whose key-column cell satisfies the predicate, in
/// ascending order.
pub open spec fn sat_indices(key: Seq<ValueModel>, op: FilterOps, num: int, lit: Seq<char>) -> Seq<int>
    decreases key.len(),
{
    if key.len() == 0 {
        Seq::empty()
    } else {
        let pre = sat_indices(key.drop_last(), op, num, lit);
        if cell_sat(key.last(), op, num, lit) {
            pre.push(key.len() - 1)
        } else {
            pre
        }
    }
}

/// A cell sequence restricted to the given row indices.
pub open spec fn select_cells(cells: Seq<ValueModel>, idx: Seq<int>) -> Seq<ValueModel> {
    idx.map_values(|i: int| cells[i])
}

/// The filtered table: every column restricted to the rows whose cell in
/// key column `k` satisfies the predicate; row order preserved.
pub open spec fn spec_filter(t: Seq<ColumnModel>, k: int, op: FilterOps, num: int, lit: Seq<char>) -> Seq<ColumnModel> {
    t.map_values(
        |c: ColumnModel| ColumnModel {
            name: c.name,
            cells: select_cells(c.cells, sat_indices(t[k].cells, op, num, lit)),
        },
    )
}

/// Basic shape of the kept-row index list: all indices are rows of the key
/// column, each satisfies the predicate, they are strictly ascending, and
/// there are no more of them than rows.
pub proof fn lemma_sat_indices(key: Seq<ValueModel>, op: FilterOps, num: int, lit: Seq<char>)
    ensures
        forall|j: int| 0 <= j < sat_indices(key, op, num, lit).len() ==> {
            &&& 0 <= #[trigger] sat_indices(key, op, num, lit)[j] < key.len()
            &&& cell_sat(key[sat_indices(key, op, num, lit)[j]], op, num, lit)
        },
        forall|j1: int, j2: int| 0 <= j1 < j2 < sat_indices(key, op, num, lit).len()
            ==> sat_indices(key, op, num, lit)[j1] < sat_indices(key, op, num, lit)[j2],
        sat_indices(key, op, num, lit).len() <= key.len(),
    decreases key.len(),
{
    if key.len() > 0 {
        lemma_sat_indices(key.drop_last(), op, num, lit);
        assert(forall|j: int| 0 <= j < key.len() - 1 ==> key.drop_last()[j] == key[j]);
    }
}

/// Every row satisfying the predicate is kept: the index list of a column
/// where every cell satisfies the predicate is the identity.
pub proof fn lemma_sat_indices_all(key: Seq<ValueModel>, op: FilterOps, num: int, lit: Seq<char>)
    requires
        forall|i: int| 0 <= i < key.len() ==> cell_sat(#[trigger] key[i], op, num, lit),
    ensures
        sat_indices(key, op, num, lit) =~= Seq::new(key.len(), |i: int| i),
    decreases key.len(),
{
    if key.len() > 0 {
        assert(forall|i: int| 0 <= i < key.len() - 1 ==> cell_sat(#[trigger] key.drop_last()[i], op, num, lit));
        lemma_sat_indices_all(key.drop_last(), op, num, lit);
    }
}

/// Filter correctness: the result has the source's column names, is
/// well-formed, is no taller than the source, and every cell of its key
/// column satisfies the predicate — equality rows keep exactly the parsed
/// value, strict comparisons exceed it.
pub proof fn lemma_filter_correct(t: Seq<ColumnModel>, k: int, op: FilterOps, num: int, lit: Seq<char>)
    requires
        table_wf(t),
        0 <= k < t.len(),
    ensures
        spec_filter(t, k, op, num, lit).len() == t.len(),
        forall|j: int| 0 <= j < t.len() ==> (#[trigger] spec_filter(t, k, op, num, lit)[j].name) == t[j].name,
        table_wf(spec_filter(t, k, op, num, lit)),
        table_height(spec_filter(t, k, op, num, lit)) <= table_height(t),
        forall|r: int| 0 <= r < table_height(spec_filter(t, k, op, num, lit))
            ==> cell_sat(#[trigger] spec_filter(t, k, op, num, lit)[k].cells[r], op, num, lit),
{
    let f = spec_filter(t, k, op, num, lit);
    let si = sat_indices(t[k].cells, op, num, lit);
    lemma_sat_indices(t[k].cells, op, num, lit);
    assert(forall|j: int| 0 <= j < t.len() ==> (#[trigger] f[j].cells).len() == si.len());
    assert(table_height(f) == si.len());
    assert(si.len() <= t[k].cells.len());
    assert(t[k].cells.len() == table_height(t));
    assert(forall|r: int| 0 <= r < si.len() ==> #[trigger] f[k].cells[r] == t[k].cells[si[r]]);
}

/// Idempotence: filtering a filtered table by the same predicate changes
/// nothing — the once-filtered table is a fixed point.
pub proof fn lemma_filter_idempotent(t: Seq<ColumnModel>, k: int, op: FilterOps, num: int, lit: Seq<char>)
    requires
        table_wf(t),
        0 <= k < t.len(),
    ensures
        spec_filter(spec_filter(t, k, op, num, lit), k, op, num, lit) =~= spec_filter(t, k, op, num, lit),
{
    let f = spec_filter(t, k, op, num, lit);
    lemma_filter_correct(t, k, op, num, lit);
    assert(forall|i: int| 0 <= i < f[k].cells.len() ==> cell_sat(#[trigger] f[k].cells[i], op, num, lit)) by {
        assert(f[k].cells.len() == table_height(f));
    }
    lemma_sat_indices_all(f[k].cells, op, num, lit);
    let id = Seq::new(f[k].cells.len(), |i: int| i);
    assert(forall|j: int| 0 <= j < f.len() ==> #[trigger] spec_filter(f, k, op, num, lit)[j] == f[j]) by {
        assert(forall|j: int| 0 <= j < f.len() ==> (#[trigger] f[j].cells).len() == table_height(f));
        assert(forall|j: int| 0 <= j < f.len()
            ==> select_cells(#[trigger] f[j].cells, id) =~= f[j].cells);
    }
}

fn exec_cell_sat(v: &Value, op: &FilterOps, num: i64, lit: &String) -> (r: bool)
    ensures
        r == cell_sat(v@, *op, num as int, lit@),
{
    match op {
        FilterOps::EqualNum => match v {
            Value::Int(x) => *x == num,
            _ => false,
        },
        FilterOps::EqualStr => match v {
            Value::Str(s) => *s == *lit,
            _ => false,
        },
        FilterOps::GreaterThan => match v {
            Value::Int(x) => *x > num,
            _ => false,
        },
        FilterOps::GreaterEqualThan => match v {
            Value::Int(x) => *x >= num,
            _ => false,
        },
        FilterOps::LowerThan => match v {
            Value::Int(x) => *x < num,
            _ => false,
        },
        FilterOps::LowerEqualThan => match v {
            Value::Int(x) => *x <= num,
            _ => false,
        },
        FilterOps::IsNull => match v {
            Value::Null => true,
            _ => false,
        },
        FilterOps::IsNotNull => match v {
            Value::Null => false,
            _ => true,
        },
    }
}

fn filter_type_check(cells: &Vec<Value>, op: &FilterOps) -> (r: bool)
    ensures
        r == filter_type_ok(*op, cells.deep_view()),
{
    let numeric = match op {
        FilterOps::EqualNum
        | FilterOps::GreaterThan
        | FilterOps::GreaterEqualThan
        | FilterOps::LowerThan
        | FilterOps::LowerEqualThan => true,
        _ => false,
    };
    let textual = match op {
        FilterOps::EqualStr => true,
        _ => false,
    };
    if !numeric && !textual {
        return true;
    }
    let mut i: usize = 0;
    while i < cells.len()
        invariant
            i <= cells@.len(),
            cells.deep_view().len() == cells@.len(),
            numeric == is_numeric_op(*op),
            textual == (*op is EqualStr),
            numeric || textual,
            forall|j: int| 0 <= j < i ==> {
                &&& numeric ==> !((#[trigger] cells.deep_view()[j]) is Str)
                &&& textual ==> !(cells.deep_view()[j] is Int)
            },
        decreases cells@.len() - i,
    {
        proof {
            assert(cells.deep_view()[i as int] == cells@[i as int]@);
        }
        let bad = match (&cells[i], numeric) {
            (Value::Str(_), true) => true,
            (Value::Int(_), false) => true,
            _ => false,
        };
        if bad {
            return false;
        }
        i += 1;
    }
    true
}

/// Evaluates one predicate against a table: keeps exactly the rows whose
/// cell in the named column satisfies the operator against the literal
/// (numeric operators read the literal as a number, malformed literals
/// defaulting to 0). Unknown column: `ColumnNotFound`. Operator unfit for
/// the column's type: `BackendEvaluationError`. On any error the source
/// table is simply not consumed — the caller keeps its table unchanged.
pub fn apply_filter(table: &Table, column: &str, operation: &FilterOps, value: &str) -> (r: Result<
    Table,
    EngineError,
>)
    requires
        table_wf(table@),
    ensures
        match r {
            Ok(out) => exists|k: int|
                {
                    &&& #[trigger] is_first_col(table@, column@, k)
                    &&& filter_type_ok(*operation, table@[k].cells)
                    &&& out@ == spec_filter(table@, k, *operation, spec_parse_num(value@), value@)
                },
            Err(EngineError::ColumnNotFound) => !has_col(table@, column@),
            Err(EngineError::BackendEvaluationError) => exists|k: int|
                {
                    &&& #[trigger] is_first_col(table@, column@, k)
                    &&& !filter_type_ok(*operation, table@[k].cells)
                },
            Err(_) => false,
        },
{
    let k = match table.find_column(column) {
        Some(k) => k,
        None => {
            return Err(EngineError::ColumnNotFound);
        }
    };
    if !filter_type_check(&table.columns[k].cells, operation) {
        return Err(EngineError::BackendEvaluationError);
    }
    let num = parse_num(value);
    let lit: String = value.to_owned();
    let ghost key = table@[k as int].cells;
    let ghost si = sat_indices(key, *operation, num as int, value@);

    // Collect the matching row indices in ascending order.
    let height = table.columns[k].cells.len();
    let mut idx: Vec<usize> = Vec::new();
    let mut row: usize = 0;
    while row < height
        invariant
            row <= height,
            height == key.len(),
            key == table@[k as int].cells,
            k < table@.len(),
            table@[k as int].cells.len() == table.columns@[k as int].cells@.len(),
            idx@.map_values(|u: usize| u as int) == sat_indices(key.take(row as int), *operation, num as int, value@),
            lit@ == value@,
        decreases height - row,
    {
        let ghost pre = key.take(row as int);
        let ghost cur = key.take(row as int + 1);
        proof {
            assert(cur.drop_last() =~= pre);
            assert(table.columns@[k as int]@.cells == key);
            assert(key[row as int] == table.columns@[k as int].cells@[row as int]@);
        }
        if exec_cell_sat(&table.columns[k].cells[row], operation, num, &lit) {
            idx.push(row);
            proof {
                assert(idx@.map_values(|u: usize| u as int) =~= sat_indices(cur, *operation, num as int, value@));
            }
        } else {
            proof {
                assert(idx@.map_values(|u: usize| u as int) =~= sat_indices(cur, *operation, num as int, value@));
            }
        }
        row += 1;
    }
    proof {
        assert(key.take(height as int) =~= key);
        lemma_sat_indices(key, *operation, num as int, value@);
    }

    // Restrict every column to the kept rows.
    let mut columns: Vec<Column> = Vec::new();
    let mut j: usize = 0;
    while j < table.columns.len()
        invariant
            j <= table@.len(),
            table_wf(table@),
            k < table@.len(),
            key == table@[k as int].cells,
            si == sat_indices(key, *operation, num as int, value@),
            idx@.map_values(|u: usize| u as int) == si,
            forall|m: int| 0 <= m < si.len() ==> 0 <= #[trigger] si[m] < key.len(),
            columns@.len() == j,
            forall|jj: int| 0 <= jj < j
                ==> (#[trigger] columns@[jj])@ == spec_filter(table@, k as int, *operation, num as int, value@)[jj],
        decreases table@.len() - j,
    {
        let src = &table.columns[j];
        proof {
            assert(table@[j as int] == table.columns@[j as int].deep_view());
            assert(src@ == table@[j as int]);
            assert(src@.cells == src.cells.deep_view());
            assert(src.cells.deep_view().len() == src.cells@.len());
            assert(src.cells@.len() == table_height(table@));
            assert(key.len() == table_height(table@));
        }
        let mut cells: Vec<Value> = Vec::new();
        let mut m: usize = 0;
        while m < idx.len()
            invariant
                m <= idx@.len(),
                idx@.map_values(|u: usize| u as int) == si,
                forall|q: int| 0 <= q < si.len() ==> 0 <= #[trigger] si[q] < src.cells@.len(),
                cells@.len() == m,
                forall|q: int| 0 <= q < m ==> (#[trigger] cells@[q])@ == src.cells@[si[q]]@,
            decreases idx@.len() - m,
        {
            proof {
                assert(idx@.map_values(|u: usize| u as int)[m as int] == si[m as int]);
                assert(idx@[m as int] as int == si[m as int]);
            }
            cells.push(src.cells[idx[m]].duplicate());
            m += 1;
        }
        proof {
            assert(forall|q: int| 0 <= q < si.len() ==> #[trigger] cells.deep_view()[q] == cells@[q]@);
            assert(forall|q: int| 0 <= q < si.len()
                ==> #[trigger] select_cells(src.cells.deep_view(), si)[q] == src.cells@[si[q]]@);
            assert(cells.deep_view() =~= select_cells(src.cells.deep_view(), si));
        }
        columns.push(Column { name: src.name.clone(), cells });
        proof {
            assert(columns@[j as int]@ =~= spec_filter(table@, k as int, *operation, num as int, value@)[j as int]);
        }
        j += 1;
    }
    let out = Table { columns };
    proof {
        assert(forall|jj: int| 0 <= jj < out@.len() ==> #[trigger] out@[jj] == columns@[jj]@);
        assert(out@ =~= spec_filter(table@, k as int, *operation, num as int, value@));
    }
    Ok(out)
}

} // verus!
