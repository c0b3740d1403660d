//! The columnar table value: named columns of equal length.

use vstd::prelude::*;
use crate::value::{Value, ValueModel};

verus! {

/// One named column of cells.
#[derive(Debug)]
pub struct Column {
    pub name: String,
    pub cells: Vec<Value>,
}

/// The mathematical model of a column.
#[verifier::ext_equal]
pub struct ColumnModel {
    pub name: Seq<char>,
    pub cells: Seq<ValueModel>,
}

impl DeepView for Value {
    type V = ValueModel;

    open spec fn deep_view(&self) -> ValueModel {
        self@
    }
}

impl View for Column {
    type V = ColumnModel;

    open spec fn view(&self) -> ColumnModel {
        ColumnModel { name: self.name@, cells: self.cells.deep_view() }
    }
}

impl DeepView for Column {
    type V = ColumnModel;

    open spec fn deep_view(&self) -> ColumnModel {
        self@
    }
}

/// An immutable in-memory table: an ordered sequence of named columns, all
/// of the same length. Operations never change a table; they produce new
/// ones.
#[derive(Debug)]
pub struct Table {
    pub columns: Vec<Column>,
}

impl View for Table {
    type V = Seq<ColumnModel>;

    open spec fn view(&self) -> Seq<ColumnModel> {
        self.columns.deep_view()
    }
}

/// Number of rows: the length all columns share (0 for a table without
/// columns).
pub open spec fn table_height(t: Seq<ColumnModel>) -> nat {
    if t.len() == 0 {
        0
    } else {
        t[0].cells.len()
    }
}

/// Well-formed table: every column holds exactly one cell per row.
pub open spec fn table_wf(t: Seq<ColumnModel>) -> bool {
    forall|i: int| 0 <= i < t.len() ==> (#[trigger] t[i].cells.len()) == table_height(t)
}

/// Some column carries this name.
pub open spec fn has_col(t: Seq<ColumnModel>, name: Seq<char>) -> bool {
    exists|i: int| 0 <= i < t.len() && (#[trigger] t[i].name) == name
}

/// `k` is the first column carrying this name; name lookups resolve to it.
pub open spec fn is_first_col(t: Seq<ColumnModel>, name: Seq<char>, k: int) -> bool {
    &&& 0 <= k < t.len()
    &&& t[k].name == name
    &&& forall|j: int| 0 <= j < k ==> (#[trigger] t[j].name) != name
}

/// The index name lookups resolve to (meaningful only when `has_col`).
pub open spec fn first_col(t: Seq<ColumnModel>, name: Seq<char>) -> int {
    choose|k: int| is_first_col(t, name, k)
}

/// A present name has a first occurrence.
pub proof fn lemma_first_col_exists(t: Seq<ColumnModel>, name: Seq<char>)
    requires
        has_col(t, name),
    ensures
        is_first_col(t, name, first_col(t, name)),
    decreases t.len(),
{
    if t.len() > 0 {
        if t[0].name == name {
            assert(is_first_col(t, name, 0));
        } else {
            let rest = t.drop_first();
            assert(forall|j: int| 1 <= j < t.len() ==> #[trigger] t[j] == rest[j - 1]);
            assert(has_col(rest, name)) by {
                let i = choose|i: int| 0 <= i < t.len() && (#[trigger] t[i].name) == name;
                assert(rest[i - 1].name == name);
            }
            lemma_first_col_exists(rest, name);
            let k = first_col(rest, name);
            assert(is_first_col(t, name, k + 1)) by {
                assert(forall|j: int| 1 <= j < k + 1 ==> (#[trigger] t[j]).name == rest[j - 1].name);
            }
        }
    }
}

/// There is only one first occurrence.
pub proof fn lemma_first_col_unique(t: Seq<ColumnModel>, name: Seq<char>, k: int)
    requires
        is_first_col(t, name, k),
    ensures
        first_col(t, name) == k,
{
    assert(has_col(t, name));
    lemma_first_col_exists(t, name);
    let k2 = first_col(t, name);
    if k < k2 {
        assert(t[k].name != name);
    } else if k2 < k {
        assert(t[k2].name != name);
    }
}

impl Table {
    /// Row count.
    pub fn height(&self) -> (r: usize)
        ensures
            r == table_height(self@),
    {
        if self.columns.len() == 0 {
            0
        } else {
            self.columns[0].cells.len()
        }
    }

    /// Column count.
    pub fn width(&self) -> (r: usize)
        ensures
            r == self@.len(),
    {
        self.columns.len()
    }

    /// (rows, columns).
    pub fn shape(&self) -> (r: (usize, usize))
        ensures
            r.0 == table_height(self@),
            r.1 == self@.len(),
    {
        (self.height(), self.width())
    }

    /// The ordered column names.
    pub fn column_names(&self) -> (r: Vec<String>)
        ensures
            r@.len() == self@.len(),
            forall|i: int| 0 <= i < r@.len() ==> (#[trigger] r@[i])@ == self@[i].name,
    {
        let mut names: Vec<String> = Vec::new();
        let mut i: usize = 0;
        while i < self.columns.len()
            invariant
                i <= self.columns.len(),
                names@.len() == i,
                forall|j: int| 0 <= j < i ==> (#[trigger] names@[j])@ == self@[j].name,
            decreases self.columns.len() - i,
        {
            names.push(self.columns[i].name.clone());
            i += 1;
        }
        names
    }

    /// Index of the first column with this name, if any.
    pub fn find_column(&self, name: &str) -> (r: Option<usize>)
        ensures
            match r {
                Some(k) => is_first_col(self@, name@, k as int),
                None => !has_col(self@, name@),
            },
    {
        let key: String = name.to_owned();
        let mut i: usize = 0;
        while i < self.columns.len()
            invariant
                key@ == name@,
                forall|j: int| 0 <= j < i ==> (#[trigger] self@[j].name) != name@,
            decreases self.columns.len() - i,
        {
            if self.columns[i].name == key {
                return Some(i);
            }
            i += 1;
        }
        None
    }

    /// A deep copy of the table.
    pub fn duplicate(&self) -> (r: Table)
        ensures
            r@ == self@,
    {
        let mut columns: Vec<Column> = Vec::new();
        let mut i: usize = 0;
        while i < self.columns.len()
            invariant
                i <= self.columns.len(),
                columns.deep_view().len() == i,
                forall|j: int| 0 <= j < i ==> columns.deep_view()[j] == self@[j],
            decreases self.columns.len() - i,
        {
            columns.push(self.columns[i].duplicate());
            i += 1;
        }
        let r = Table { columns };
        proof {
            assert(r@ =~= self@);
        }
        r
    }
}

impl Column {
    /// A deep copy of the column.
    pub fn duplicate(&self) -> (r: Column)
        ensures
            r@ == self@,
    {
        let r = Column { name: self.name.clone(), cells: duplicate_cells(&self.cells) };
        proof {
            assert(r@.cells =~= self@.cells);
        }
        r
    }
}

/// A deep copy of a cell vector.
pub fn duplicate_cells(cells: &Vec<Value>) -> (r: Vec<Value>)
    ensures
        r.deep_view() == cells.deep_view(),
{
    let mut out: Vec<Value> = Vec::new();
    let mut i: usize = 0;
    while i < cells.len()
        invariant
            i <= cells.len(),
            out.deep_view().len() == i,
            forall|j: int| 0 <= j < i ==> out.deep_view()[j] == cells.deep_view()[j],
        decreases cells.len() - i,
    {
        out.push(cells[i].duplicate());
        i += 1;
    }
    proof {
        assert(out.deep_view() =~= cells.deep_view());
    }
    out
}

/// True exactly when two cell vectors model the same value sequence.
pub fn eq_cells(a: &Vec<Value>, b: &Vec<Value>) -> (r: bool)
    ensures
        r == (a.deep_view() == b.deep_view()),
{
    if a.len() != b.len() {
        proof {
            assert(a.deep_view().len() == a@.len());
            assert(b.deep_view().len() == b@.len());
        }
        return false;
    }
    let mut i: usize = 0;
    while i < a.len()
        invariant
            a.deep_view().len() == a@.len(),
            b.deep_view().len() == b@.len(),
            a@.len() == b@.len(),
            i <= a@.len(),
            forall|j: int| 0 <= j < i ==> a.deep_view()[j] == b.deep_view()[j],
        decreases a@.len() - i,
    {
        if !a[i].eq_value(&b[i]) {
            proof {
                assert(a.deep_view()[i as int] == a@[i as int]@);
                assert(b.deep_view()[i as int] == b@[i as int]@);
            }
            return false;
        }
        i += 1;
    }
    proof {
        assert(a.deep_view() =~= b.deep_view());
    }
    true
}

} // verus!
