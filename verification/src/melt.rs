//! The melt engine: wide-to-long reshape. The chosen value columns are
//! stacked into one `variable`/`value` pair of columns, the identifier
//! columns repeated once per value column.

use vstd::prelude::*;
use crate::error::EngineError;
use crate::table::{
    Column, ColumnModel, Table, first_col, has_col, is_first_col, lemma_first_col_exists,
    lemma_first_col_unique, table_height, table_wf,
};
use crate::value::{Value, ValueModel};

verus! {

/// Pending melt selections of one container: the identifier and value
/// column lists being assembled, plus the staged result.
#[derive(Debug)]
pub struct DataFrameMelt {
    pub id_selection: String,
    pub val_selection: String,
    pub id_vars: Vec<String>,
    pub value_vars: Vec<String>,
    pub meltdata: Option<Table>,
    pub display: bool,
}

impl DataFrameMelt {
    /// Fresh configuration: empty selections and lists, nothing staged.
    pub open spec fn is_default(self) -> bool {
        &&& self.id_selection@ == Seq::<char>::empty()
        &&& self.val_selection@ == Seq::<char>::empty()
        &&& self.id_vars@ == Seq::<String>::empty()
        &&& self.value_vars@ == Seq::<String>::empty()
        &&& self.meltdata is None
        &&& self.display == false
    }
}

impl Default for DataFrameMelt {
    fn default() -> (r: Self)
        ensures
            r.is_default(),
    {
        DataFrameMelt {
            id_selection: String::new(),
            val_selection: String::new(),
            id_vars: Vec::new(),
            value_vars: Vec::new(),
            meltdata: None,
            display: false,
        }
    }
}

/// A cell sequence repeated `n` times, end to end.
pub open spec fn repeat_cells(s: Seq<ValueModel>, n: nat) -> Seq<ValueModel>
    decreases n,
{
    if n == 0 {
        Seq::empty()
    } else {
        repeat_cells(s, (n - 1) as nat) + s
    }
}

/// The `variable` column: each value-column name, as text, repeated once
/// per source row, blocks in the order the caller listed the names.
pub open spec fn variable_cells(names: Seq<Seq<char>>, h: nat) -> Seq<ValueModel>
    decreases names.len(),
{
    if names.len() == 0 {
        Seq::empty()
    } else {
        variable_cells(names.drop_last(), h) + Seq::new(h, |i: int| ValueModel::Str(names.last()))
    }
}

/// The `value` column: the cells of each named value column (resolved by
/// first occurrence), stacked in listed order.
pub open spec fn melt_value_cells(t: Seq<ColumnModel>, names: Seq<Seq<char>>) -> Seq<ValueModel>
    decreases names.len(),
{
    if names.len() == 0 {
        Seq::empty()
    } else {
        melt_value_cells(t, names.drop_last()) + t[first_col(t, names.last())].cells
    }
}

pub proof fn lemma_repeat_cells_len(s: Seq<ValueModel>, n: nat)
    ensures
        repeat_cells(s, n).len() == n * s.len(),
    decreases n,
{
    if n > 0 {
        lemma_repeat_cells_len(s, (n - 1) as nat);
        assert(repeat_cells(s, n).len() == ((n - 1) as nat) * s.len() + s.len());
        assert(n * s.len() == ((n - 1) as nat) * s.len() + s.len()) by (nonlinear_arith)
            requires n > 0;
    } else {
        assert(repeat_cells(s, n).len() == 0);
        assert(n * s.len() == 0) by (nonlinear_arith)
            requires n == 0;
    }
}

pub proof fn lemma_variable_cells_len(names: Seq<Seq<char>>, h: nat)
    ensures
        variable_cells(names, h).len() == names.len() * h,
    decreases names.len(),
{
    if names.len() > 0 {
        lemma_variable_cells_len(names.drop_last(), h);
        assert(names.len() * h == (names.len() - 1) * h + h) by (nonlinear_arith);
    }
}

pub proof fn lemma_melt_value_cells_len(t: Seq<ColumnModel>, names: Seq<Seq<char>>)
    requires
        table_wf(t),
        forall|m: int| 0 <= m < names.len() ==> has_col(t, #[trigger] names[m]),
    ensures
        melt_value_cells(t, names).len() == names.len() * table_height(t),
    decreases names.len(),
{
    if names.len() > 0 {
        assert(forall|m: int| 0 <= m < names.len() - 1 ==> has_col(t, #[trigger] names.drop_last()[m]));
        lemma_melt_value_cells_len(t, names.drop_last());
        lemma_first_col_exists(t, names.last());
        assert(t[first_col(t, names.last())].cells.len() == table_height(t));
        assert(names.len() * table_height(t) == (names.len() - 1) * table_height(t) + table_height(t))
            by (nonlinear_arith);
    }
}

/// The names of a string list, as character sequences.
pub open spec fn name_views(names: Seq<String>) -> Seq<Seq<char>> {
    names.map_values(|s: String| s@)
}

/// Appends a deep copy of `src` to `dst`.
fn append_dup(dst: &mut Vec<Value>, src: &Vec<Value>)
    ensures
        final(dst).deep_view() == old(dst).deep_view() + src.deep_view(),
{
    let ghost orig = dst@;
    let mut i: usize = 0;
    while i < src.len()
        invariant
            i <= src@.len(),
            dst@.len() == orig.len() + i,
            forall|q: int| 0 <= q < orig.len() ==> #[trigger] dst@[q] == orig[q],
            forall|q: int| orig.len() <= q < dst@.len()
                ==> (#[trigger] dst@[q])@ == src@[q - orig.len()]@,
        decreases src@.len() - i,
    {
        dst.push(src[i].duplicate());
        i += 1;
    }
    proof {
        assert(forall|q: int| 0 <= q < dst@.len() ==> #[trigger] dst.deep_view()[q] == dst@[q]@);
        assert(forall|q: int| 0 <= q < orig.len() ==> #[trigger] old(dst).deep_view()[q] == orig[q]@);
        assert(forall|q: int| 0 <= q < src@.len() ==> #[trigger] src.deep_view()[q] == src@[q]@);
        assert(dst.deep_view() =~= old(dst).deep_view() + src.deep_view());
    }
}

/// Reshapes the table from wide to long: the result holds the identifier
/// columns (each repeated once per value column), a `variable` column
/// naming the source value column, and a `value` column with that column's
/// cells; its height is exactly the source height times the number of value
/// columns. A name absent from the table: `ColumnNotFound`. Overlapping
/// identifier and value lists are tolerated: each name independently
/// resolves to its first column.
pub fn melt_table(table: &Table, id_vars: &Vec<String>, value_vars: &Vec<String>) -> (r: Result<
    Table,
    EngineError,
>)
    requires
        table_wf(table@),
    ensures
        match r {
            Ok(out) => {
                &&& forall|m: int| 0 <= m < id_vars@.len() ==> has_col(table@, (#[trigger] id_vars@[m])@)
                &&& forall|m: int| 0 <= m < value_vars@.len() ==> has_col(table@, (#[trigger] value_vars@[m])@)
                &&& out@.len() == id_vars@.len() + 2
                &&& forall|m: int| 0 <= m < id_vars@.len() ==> (#[trigger] out@[m]) == (ColumnModel {
                    name: id_vars@[m]@,
                    cells: repeat_cells(table@[first_col(table@, id_vars@[m]@)].cells, value_vars@.len() as nat),
                })
                &&& out@[id_vars@.len() as int] == (ColumnModel {
                    name: "variable"@,
                    cells: variable_cells(name_views(value_vars@), table_height(table@)),
                })
                &&& out@[id_vars@.len() as int + 1] == (ColumnModel {
                    name: "value"@,
                    cells: melt_value_cells(table@, name_views(value_vars@)),
                })
                &&& table_wf(out@)
                &&& table_height(out@) == table_height(table@) * value_vars@.len()
            },
            Err(EngineError::ColumnNotFound) => {
                (exists|m: int| 0 <= m < id_vars@.len() && !has_col(table@, (#[trigger] id_vars@[m])@))
                || (exists|m: int|
                    0 <= m < value_vars@.len() && !has_col(table@, (#[trigger] value_vars@[m])@))
            },
            Err(_) => false,
        },
{
    let ghost t = table@;
    let ghost h = table_height(t);
    let ghost nv = value_vars@.len();

    // Resolve every name first; a single absence refuses the operation.
    let mut ididx: Vec<usize> = Vec::new();
    let mut m: usize = 0;
    while m < id_vars.len()
        invariant
            m <= id_vars@.len(),
            t == table@,
            ididx@.len() == m,
            forall|q: int| 0 <= q < m
                ==> is_first_col(t, (#[trigger] id_vars@[q])@, ididx@[q] as int),
        decreases id_vars@.len() - m,
    {
        match table.find_column(id_vars[m].as_str()) {
            Some(k) => {
                ididx.push(k);
            }
            None => {
                return Err(EngineError::ColumnNotFound);
            }
        }
        m += 1;
    }
    let mut vidx: Vec<usize> = Vec::new();
    let mut m: usize = 0;
    while m < value_vars.len()
        invariant
            m <= value_vars@.len(),
            t == table@,
            vidx@.len() == m,
            forall|q: int| 0 <= q < m
                ==> is_first_col(t, (#[trigger] value_vars@[q])@, vidx@[q] as int),
        decreases value_vars@.len() - m,
    {
        match table.find_column(value_vars[m].as_str()) {
            Some(k) => {
                vidx.push(k);
            }
            None => {
                return Err(EngineError::ColumnNotFound);
            }
        }
        m += 1;
    }
    proof {
        assert(forall|q: int| 0 <= q < id_vars@.len() ==> has_col(t, (#[trigger] id_vars@[q])@));
        assert(forall|q: int| 0 <= q < nv ==> has_col(t, (#[trigger] value_vars@[q])@));
    }

    let height = table.height();
    let mut columns: Vec<Column> = Vec::new();

    // Identifier columns: the source cells repeated once per value column.
    let mut m: usize = 0;
    while m < ididx.len()
        invariant
            m <= ididx@.len(),
            ididx@.len() == id_vars@.len(),
            t == table@,
            table_wf(t),
            nv == value_vars@.len(),
            vidx@.len() == nv,
            forall|q: int| 0 <= q < id_vars@.len()
                ==> is_first_col(t, (#[trigger] id_vars@[q])@, ididx@[q] as int),
            columns@.len() == m,
            forall|q: int| 0 <= q < m ==> (#[trigger] columns@[q])@ == (ColumnModel {
                name: id_vars@[q]@,
                cells: repeat_cells(t[first_col(t, id_vars@[q]@)].cells, nv as nat),
            }),
        decreases ididx@.len() - m,
    {
        proof {
            assert(is_first_col(t, id_vars@[m as int]@, ididx@[m as int] as int));
            assert(t.len() == table.columns@.len());
        }
        let src = &table.columns[ididx[m]];
        proof {
            lemma_first_col_unique(t, id_vars@[m as int]@, ididx@[m as int] as int);
            assert(src@ == t[ididx@[m as int] as int]);
            assert(src@.cells == src.cells.deep_view());
        }
        let mut cells: Vec<Value> = Vec::new();
        proof {
            assert(cells.deep_view() =~= repeat_cells(src.cells.deep_view(), 0nat));
        }
        let mut v: usize = 0;
        while v < vidx.len()
            invariant
                v <= vidx@.len(),
                cells.deep_view() == repeat_cells(src.cells.deep_view(), v as nat),
            decreases vidx@.len() - v,
        {
            append_dup(&mut cells, &src.cells);
            v += 1;
        }
        columns.push(Column { name: id_vars[m].clone(), cells });
        proof {
            assert(columns@[m as int]@ =~= (ColumnModel {
                name: id_vars@[m as int]@,
                cells: repeat_cells(t[first_col(t, id_vars@[m as int]@)].cells, nv as nat),
            }));
        }
        m += 1;
    }

    // The `variable` column: each value-column name repeated per source row.
    let mut var_cells: Vec<Value> = Vec::new();
    proof {
        assert(name_views(value_vars@.take(0)) =~= Seq::<Seq<char>>::empty());
        assert(var_cells.deep_view() =~= variable_cells(name_views(value_vars@.take(0)), h));
    }
    let mut v: usize = 0;
    while v < vidx.len()
        invariant
            v <= vidx@.len(),
            vidx@.len() == value_vars@.len(),
            t == table@,
            height == table_height(t),
            var_cells.deep_view() == variable_cells(name_views(value_vars@.take(v as int)), h),
            h == table_height(t),
        decreases vidx@.len() - v,
    {
        let ghost before = var_cells.deep_view();
        proof {
            assert(forall|q: int| 0 <= q < var_cells@.len()
                ==> #[trigger] var_cells.deep_view()[q] == var_cells@[q]@);
            assert(before.len() == var_cells@.len());
        }
        let mut r: usize = 0;
        while r < height
            invariant
                r <= height,
                v < value_vars@.len(),
                v < vidx@.len(),
                vidx@.len() == value_vars@.len(),
                var_cells@.len() == before.len() + r,
                forall|q: int| 0 <= q < before.len()
                    ==> (#[trigger] var_cells@[q])@ == before[q],
                forall|q: int| before.len() <= q < var_cells@.len()
                    ==> (#[trigger] var_cells@[q])@ == ValueModel::Str(value_vars@[v as int]@),
            decreases height - r,
        {
            var_cells.push(Value::Str(value_vars[v].clone()));
            r += 1;
        }
        proof {
            assert(forall|q: int| 0 <= q < var_cells@.len()
                ==> #[trigger] var_cells.deep_view()[q] == var_cells@[q]@);
        }
        proof {
            let names_pre = name_views(value_vars@.take(v as int));
            let names_cur = name_views(value_vars@.take(v as int + 1));
            assert(names_cur.drop_last() =~= names_pre);
            assert(names_cur.last() == value_vars@[v as int]@);
            assert(var_cells.deep_view() =~= variable_cells(names_cur, h));
        }
        v += 1;
    }
    proof {
        assert(value_vars@.take(nv as int) =~= value_vars@);
    }
    columns.push(Column { name: variable_name(), cells: var_cells });

    // The `value` column: the stacked cells of the value columns.
    let mut val_cells: Vec<Value> = Vec::new();
    proof {
        assert(name_views(value_vars@.take(0)) =~= Seq::<Seq<char>>::empty());
        assert(val_cells.deep_view() =~= melt_value_cells(t, name_views(value_vars@.take(0))));
    }
    let mut v: usize = 0;
    while v < vidx.len()
        invariant
            v <= vidx@.len(),
            vidx@.len() == value_vars@.len(),
            t == table@,
            table_wf(t),
            forall|q: int| 0 <= q < value_vars@.len()
                ==> is_first_col(t, (#[trigger] value_vars@[q])@, vidx@[q] as int),
            val_cells.deep_view() == melt_value_cells(t, name_views(value_vars@.take(v as int))),
        decreases vidx@.len() - v,
    {
        proof {
            assert(is_first_col(t, value_vars@[v as int]@, vidx@[v as int] as int));
            assert(t.len() == table.columns@.len());
        }
        let src = &table.columns[vidx[v]];
        proof {
            lemma_first_col_unique(t, value_vars@[v as int]@, vidx@[v as int] as int);
            assert(src@ == t[vidx@[v as int] as int]);
            assert(src@.cells == src.cells.deep_view());
        }
        append_dup(&mut val_cells, &src.cells);
        proof {
            let names_pre = name_views(value_vars@.take(v as int));
            let names_cur = name_views(value_vars@.take(v as int + 1));
            assert(names_cur.drop_last() =~= names_pre);
            assert(names_cur.last() == value_vars@[v as int]@);
            assert(val_cells.deep_view() =~= melt_value_cells(t, names_cur));
        }
        v += 1;
    }
    columns.push(Column { name: value_name(), cells: val_cells });

    let out = Table { columns };
    proof {
        assert(forall|jj: int| 0 <= jj < out@.len() ==> #[trigger] out@[jj] == columns@[jj]@);
        assert(out@.len() == id_vars@.len() + 2);
        assert(forall|q: int| 0 <= q < id_vars@.len() ==> (#[trigger] out@[q]) =~= (ColumnModel {
            name: id_vars@[q]@,
            cells: repeat_cells(t[first_col(t, id_vars@[q]@)].cells, nv as nat),
        }));
        assert(out@[id_vars@.len() as int] =~= (ColumnModel {
            name: "variable"@,
            cells: variable_cells(name_views(value_vars@), h),
        }));
        assert(out@[id_vars@.len() as int + 1] =~= (ColumnModel {
            name: "value"@,
            cells: melt_value_cells(t, name_views(value_vars@)),
        }));
        lemma_variable_cells_len(name_views(value_vars@), h);
        assert(forall|q: int| 0 <= q < nv ==> has_col(t, #[trigger] name_views(value_vars@)[q]));
        lemma_melt_value_cells_len(t, name_views(value_vars@));
        assert forall|q: int| 0 <= q < id_vars@.len() implies (#[trigger] out@[q]).cells.len()
            == nv * h by {
            lemma_first_col_exists_helper(t, id_vars@[q]@);
            lemma_repeat_cells_len(t[first_col(t, id_vars@[q]@)].cells, nv as nat);
        }
        assert(out@[id_vars@.len() as int].cells.len() == nv * h);
        assert(out@[id_vars@.len() as int + 1].cells.len() == nv * h);
        assert(out@[0].cells.len() == nv * h);
        assert(nv * h == h * nv) by (nonlinear_arith);
        assert(table_height(out@) == h * nv);
        assert(table_wf(out@)) by {
            assert(forall|q: int| 0 <= q < out@.len() ==> (#[trigger] out@[q].cells).len() == table_height(out@));
        }
    }
    Ok(out)
}

/// Proof-mode shim: the length of a repeated identifier column.
proof fn lemma_first_col_exists_helper(t: Seq<ColumnModel>, name: Seq<char>)
    requires
        table_wf(t),
        has_col(t, name),
    ensures
        is_first_col(t, name, first_col(t, name)),
        t[first_col(t, name)].cells.len() == table_height(t),
{
    lemma_first_col_exists(t, name);
}

fn variable_name() -> (r: String)
    ensures
        r@ == "variable"@,
{
    let r: String = "variable".to_owned();
    r
}

fn value_name() -> (r: String)
    ensures
        r@ == "value"@,
{
    let r: String = "value".to_owned();
    r
}

} // verus!
