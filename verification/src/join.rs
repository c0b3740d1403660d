//! The join engine: combines two tables on one key-column pair. Inner,
//! left and outer joins pair rows whose key cells are equal (a null key is
//! a value like any other: it matches only null); a cross join pairs every
//! row with every row and ignores the keys. Matches are emitted left-major,
//! in source order; an outer join appends the unmatched right rows last,
//! their key cell coalesced into the left key column.

use vstd::prelude::*;
use vstd::string::StringExecFns;
use crate::error::EngineError;
use crate::table::{
    Column, ColumnModel, Table, has_col, is_first_col, lemma_first_col_unique,
    table_height, table_wf,
};
use crate::value::{Value, ValueModel};

verus! {

/// The supported join kinds. `Outer` is the full outer join; `Cross` is
/// the cartesian product and ignores the key columns.
#[derive(Clone, Copy, Debug, PartialEq, Eq, Structural)]
pub enum JoinType {
    Inner,
    Left,
    Outer,
    Cross,
}

/// Pending join selections of one container: the target container's title,
/// the key columns on either side, the kind, the one-shot trigger, and the
/// placement policy.
#[derive(Debug)]
pub struct DataFrameJoin {
    pub df_selection: String,
    pub df_list: Vec<String>,
    pub left_on_selection: String,
    pub right_on_selection: String,
    pub right_on_cols: Vec<String>,
    pub how: JoinType,
    pub joindata: Option<Table>,
    pub join: bool,
    pub inplace: bool,
}

impl DataFrameJoin {
    /// Fresh configuration: no target, no keys, inner join, untriggered,
    /// results spawn a new container.
    pub open spec fn is_default(self) -> bool {
        &&& self.df_selection@ == Seq::<char>::empty()
        &&& self.df_list@ == Seq::<String>::empty()
        &&& self.left_on_selection@ == Seq::<char>::empty()
        &&& self.right_on_selection@ == Seq::<char>::empty()
        &&& self.right_on_cols@ == Seq::<String>::empty()
        &&& self.how == JoinType::Inner
        &&& self.joindata is None
        &&& self.join == false
        &&& self.inplace == false
    }
}

impl Default for DataFrameJoin {
    fn default() -> (r: Self)
        ensures
            r.is_default(),
    {
        DataFrameJoin {
            df_selection: String::new(),
            df_list: Vec::new(),
            left_on_selection: String::new(),
            right_on_selection: String::new(),
            right_on_cols: Vec::new(),
            how: JoinType::Inner,
            joindata: None,
            join: false,
            inplace: false,
        }
    }
}

/// The right-row indices whose key cell equals `lkey`, ascending.
pub open spec fn row_matches(lkey: ValueModel, rk: Seq<ValueModel>) -> Seq<int>
    decreases rk.len(),
{
    if rk.len() == 0 {
        Seq::empty()
    } else {
        let pre = row_matches(lkey, rk.drop_last());
        if rk.last() == lkey {
            pre.push(rk.len() - 1)
        } else {
            pre
        }
    }
}

/// One output row: the paired source rows (absent on the padded side).
pub open spec fn pairs_for_row(i: int, js: Seq<int>) -> Seq<(Option<int>, Option<int>)> {
    js.map_values(|j: int| (Some(i), Some(j)))
}

/// Inner join rows: for each left row in order, one pair per matching
/// right row, in right order.
pub open spec fn inner_pairs(lk: Seq<ValueModel>, rk: Seq<ValueModel>) -> Seq<(Option<int>, Option<int>)>
    decreases lk.len(),
{
    if lk.len() == 0 {
        Seq::empty()
    } else {
        inner_pairs(lk.drop_last(), rk) + pairs_for_row(lk.len() - 1, row_matches(lk.last(), rk))
    }
}

/// A left row's contribution to a left join: its matches, or one
/// null-padded row if it has none.
pub open spec fn left_row_pairs(i: int, js: Seq<int>) -> Seq<(Option<int>, Option<int>)> {
    if js.len() == 0 {
        seq![(Some(i), None)]
    } else {
        pairs_for_row(i, js)
    }
}

/// Left join rows.
pub open spec fn left_pairs(lk: Seq<ValueModel>, rk: Seq<ValueModel>) -> Seq<(Option<int>, Option<int>)>
    decreases lk.len(),
{
    if lk.len() == 0 {
        Seq::empty()
    } else {
        left_pairs(lk.drop_last(), rk) + left_row_pairs(lk.len() - 1, row_matches(lk.last(), rk))
    }
}

/// The rows an outer join appends after the left-join rows: one per right
/// row no left key matches.
pub open spec fn right_null_pairs(lk: Seq<ValueModel>, rk: Seq<ValueModel>) -> Seq<(Option<int>, Option<int>)>
    decreases rk.len(),
{
    if rk.len() == 0 {
        Seq::empty()
    } else {
        right_null_pairs(lk, rk.drop_last()) + if row_matches(rk.last(), lk).len() == 0 {
            seq![(None, Some(rk.len() - 1))]
        } else {
            Seq::empty()
        }
    }
}

/// Cross join rows: every (i, j), left-major.
pub open spec fn cross_pairs(lh: nat, rh: nat) -> Seq<(Option<int>, Option<int>)>
    decreases lh,
{
    if lh == 0 {
        Seq::empty()
    } else {
        cross_pairs((lh - 1) as nat, rh) + pairs_for_row(lh - 1, Seq::new(rh, |j: int| j))
    }
}

/// All the output rows of a join, as pairs of optional source rows.
pub open spec fn join_pairs(how: JoinType, lk: Seq<ValueModel>, rk: Seq<ValueModel>) -> Seq<(Option<int>, Option<int>)> {
    match how {
        JoinType::Inner => inner_pairs(lk, rk),
        JoinType::Left => left_pairs(lk, rk),
        JoinType::Outer => left_pairs(lk, rk) + right_null_pairs(lk, rk),
        JoinType::Cross => cross_pairs(lk.len(), rk.len()),
    }
}

/// The cell a left column contributes to one output row: its own cell when
/// a left row is present; on a right-only row, the right key cell if this
/// is the (coalescing) key column, else null.
pub open spec fn left_cell(cells: Seq<ValueModel>, coalesce: bool, rkc: Seq<ValueModel>, p: (Option<int>, Option<int>)) -> ValueModel {
    match p.0 {
        Some(i) => cells[i],
        None => match p.1 {
            Some(j) => if coalesce {
                rkc[j]
            } else {
                ValueModel::Null
            },
            None => ValueModel::Null,
        },
    }
}

/// The cell a right column contributes to one output row.
pub open spec fn right_cell(cells: Seq<ValueModel>, p: (Option<int>, Option<int>)) -> ValueModel {
    match p.1 {
        Some(j) => cells[j],
        None => ValueModel::Null,
    }
}

/// The name a right column carries in the result: suffixed when the left
/// table already has a column of that name.
pub open spec fn right_out_name(lt: Seq<ColumnModel>, name: Seq<char>) -> Seq<char> {
    if has_col(lt, name) {
        name + "_right"@
    } else {
        name
    }
}

/// The source index of the `m`-th right output column: a keyed join drops
/// the right key column, a cross join keeps every column.
pub open spec fn right_src(rk: int, cross: bool, m: int) -> int {
    if cross || m < rk {
        m
    } else {
        m + 1
    }
}

/// The key column's cells (the empty sequence for a table without columns,
/// as a cross join of an empty table uses).
pub open spec fn spec_key_cells(t: Seq<ColumnModel>, k: int) -> Seq<ValueModel> {
    if 0 <= k < t.len() {
        t[k].cells
    } else {
        Seq::empty()
    }
}

/// The joined table: all left columns, then the right columns (minus the
/// right key column, unless cross), one output row per join pair.
pub open spec fn spec_join(lt: Seq<ColumnModel>, rt: Seq<ColumnModel>, lk: int, rk: int, how: JoinType) -> Seq<ColumnModel> {
    let pairs = join_pairs(how, spec_key_cells(lt, lk), spec_key_cells(rt, rk));
    let cross = how is Cross;
    let rlen = if cross {
        rt.len() as int
    } else {
        rt.len() - 1
    };
    Seq::new(lt.len(), |j: int| ColumnModel {
        name: lt[j].name,
        cells: pairs.map_values(|p: (Option<int>, Option<int>)| left_cell(lt[j].cells, j == lk, spec_key_cells(rt, rk), p)),
    }) + Seq::new(rlen as nat, |m: int| ColumnModel {
        name: right_out_name(lt, rt[right_src(rk, cross, m)].name),
        cells: pairs.map_values(|p: (Option<int>, Option<int>)| right_cell(rt[right_src(rk, cross, m)].cells, p)),
    })
}

/// Shape of a row's match list: indices are right rows carrying the key,
/// they are ascending and complete, and there are no more than right rows.
pub proof fn lemma_row_matches(lkey: ValueModel, rk: Seq<ValueModel>)
    ensures
        forall|q: int| 0 <= q < row_matches(lkey, rk).len() ==> {
            &&& 0 <= #[trigger] row_matches(lkey, rk)[q] < rk.len()
            &&& rk[row_matches(lkey, rk)[q]] == lkey
        },
        forall|j: int| 0 <= j < rk.len() && rk[j] == lkey ==> row_matches(lkey, rk).contains(j),
        row_matches(lkey, rk).len() <= rk.len(),
    decreases rk.len(),
{
    if rk.len() > 0 {
        lemma_row_matches(lkey, rk.drop_last());
        assert(forall|j: int| 0 <= j < rk.len() - 1 ==> rk.drop_last()[j] == rk[j]);
        let list = row_matches(lkey, rk);
        let pre = row_matches(lkey, rk.drop_last());
        assert forall|j: int| 0 <= j < rk.len() && rk[j] == lkey implies list.contains(j) by {
            if j == rk.len() - 1 {
                assert(rk.last() == lkey);
                assert(list[list.len() - 1] == j);
            } else {
                assert(pre.contains(j));
                let q = choose|q: int| 0 <= q < pre.len() && pre[q] == j;
                assert(list[q] == j);
            }
        }
    }
}

/// Every join pair points at real rows of its two tables.
pub proof fn lemma_join_pairs_bounds(how: JoinType, lk: Seq<ValueModel>, rk: Seq<ValueModel>)
    ensures
        forall|q: int| 0 <= q < join_pairs(how, lk, rk).len() ==> {
            let p = #[trigger] join_pairs(how, lk, rk)[q];
            &&& (p.0 matches Some(i) ==> 0 <= i < lk.len())
            &&& (p.1 matches Some(j) ==> 0 <= j < rk.len())
            &&& (p.0 is Some || p.1 is Some)
        },
{
    match how {
        JoinType::Inner => lemma_inner_pairs_bounds(lk, rk),
        JoinType::Left => lemma_left_pairs_bounds(lk, rk),
        JoinType::Outer => {
            lemma_left_pairs_bounds(lk, rk);
            lemma_right_null_pairs_bounds(lk, rk);
        }
        JoinType::Cross => lemma_cross_pairs_bounds(lk.len(), rk.len()),
    }
}

proof fn lemma_inner_pairs_bounds(lk: Seq<ValueModel>, rk: Seq<ValueModel>)
    ensures
        forall|q: int| 0 <= q < inner_pairs(lk, rk).len() ==> {
            let p = #[trigger] inner_pairs(lk, rk)[q];
            &&& (p.0 matches Some(i) ==> 0 <= i < lk.len())
            &&& (p.1 matches Some(j) ==> 0 <= j < rk.len())
            &&& p.0 is Some
        },
    decreases lk.len(),
{
    if lk.len() > 0 {
        lemma_inner_pairs_bounds(lk.drop_last(), rk);
        lemma_row_matches(lk.last(), rk);
    }
}

proof fn lemma_left_pairs_bounds(lk: Seq<ValueModel>, rk: Seq<ValueModel>)
    ensures
        forall|q: int| 0 <= q < left_pairs(lk, rk).len() ==> {
            let p = #[trigger] left_pairs(lk, rk)[q];
            &&& (p.0 matches Some(i) ==> 0 <= i < lk.len())
            &&& (p.1 matches Some(j) ==> 0 <= j < rk.len())
            &&& p.0 is Some
        },
    decreases lk.len(),
{
    if lk.len() > 0 {
        lemma_left_pairs_bounds(lk.drop_last(), rk);
        lemma_row_matches(lk.last(), rk);
    }
}

proof fn lemma_right_null_pairs_bounds(lk: Seq<ValueModel>, rk: Seq<ValueModel>)
    ensures
        forall|q: int| 0 <= q < right_null_pairs(lk, rk).len() ==> {
            let p = #[trigger] right_null_pairs(lk, rk)[q];
            &&& p.0 is None
            &&& (p.1 matches Some(j) ==> 0 <= j < rk.len())
            &&& p.1 is Some
        },
    decreases rk.len(),
{
    if rk.len() > 0 {
        lemma_right_null_pairs_bounds(lk, rk.drop_last());
    }
}

proof fn lemma_cross_pairs_bounds(lh: nat, rh: nat)
    ensures
        forall|q: int| 0 <= q < cross_pairs(lh, rh).len() ==> {
            let p = #[trigger] cross_pairs(lh, rh)[q];
            &&& (p.0 matches Some(i) ==> 0 <= i < lh)
            &&& (p.1 matches Some(j) ==> 0 <= j < rh)
            &&& p.0 is Some
        },
    decreases lh,
{
    if lh > 0 {
        lemma_cross_pairs_bounds((lh - 1) as nat, rh);
    }
}

/// An inner join yields at most one row per pair of source rows.
pub proof fn lemma_inner_pairs_len(lk: Seq<ValueModel>, rk: Seq<ValueModel>)
    ensures
        inner_pairs(lk, rk).len() <= lk.len() * rk.len(),
    decreases lk.len(),
{
    if lk.len() > 0 {
        lemma_inner_pairs_len(lk.drop_last(), rk);
        lemma_row_matches(lk.last(), rk);
        assert(inner_pairs(lk, rk).len()
            <= (lk.len() - 1) * rk.len() + rk.len());
        assert((lk.len() - 1) * rk.len() + rk.len() == lk.len() * rk.len()) by (nonlinear_arith);
    } else {
        assert(lk.len() * rk.len() == 0) by (nonlinear_arith)
            requires lk.len() == 0;
    }
}

/// A cross join yields exactly one row per pair of source rows.
pub proof fn lemma_cross_pairs_len(lh: nat, rh: nat)
    ensures
        cross_pairs(lh, rh).len() == lh * rh,
    decreases lh,
{
    if lh > 0 {
        lemma_cross_pairs_len((lh - 1) as nat, rh);
        assert(((lh - 1) as nat) * rh + rh == lh * rh) by (nonlinear_arith)
            requires lh > 0;
    } else {
        assert(lh * rh == 0) by (nonlinear_arith)
            requires lh == 0;
    }
}

/// The model of one executable join pair.
pub open spec fn pair_view(p: (Option<usize>, Option<usize>)) -> (Option<int>, Option<int>) {
    (
        match p.0 {
            Some(u) => Some(u as int),
            None => None,
        },
        match p.1 {
            Some(u) => Some(u as int),
            None => None,
        },
    )
}

/// The models of all executable join pairs.
pub open spec fn pairs_view(ps: Seq<(Option<usize>, Option<usize>)>) -> Seq<(Option<int>, Option<int>)> {
    ps.map_values(|p: (Option<usize>, Option<usize>)| pair_view(p))
}

/// Emits the rows of a keyed (non-cross) join of the two key columns.
fn build_keyed_pairs(lkcol: &Vec<Value>, rkcol: &Vec<Value>, how: &JoinType) -> (pairs: Vec<(Option<usize>, Option<usize>)>)
    requires
        !(*how is Cross),
    ensures
        pairs_view(pairs@) == join_pairs(*how, lkcol.deep_view(), rkcol.deep_view()),
{
    let ghost lk = lkcol.deep_view();
    let ghost rk = rkcol.deep_view();
    proof {
        assert(lk.len() == lkcol@.len());
        assert(rk.len() == rkcol@.len());
    }
    let mut pairs: Vec<(Option<usize>, Option<usize>)> = Vec::new();
    proof {
        assert(lk.take(0) =~= Seq::<ValueModel>::empty());
        assert(pairs_view(pairs@) =~= Seq::<(Option<int>, Option<int>)>::empty());
    }
    let mut i: usize = 0;
    while i < lkcol.len()
        invariant
            i <= lkcol@.len(),
            lk == lkcol.deep_view(),
            rk == rkcol.deep_view(),
            lk.len() == lkcol@.len(),
            rk.len() == rkcol@.len(),
            !(*how is Cross),
            *how is Inner ==> pairs_view(pairs@) == inner_pairs(lk.take(i as int), rk),
            !(*how is Inner) ==> pairs_view(pairs@) == left_pairs(lk.take(i as int), rk),
        decreases lkcol@.len() - i,
    {
        let ghost base = pairs_view(pairs@);
        let ghost cell = lk[i as int];
        proof {
            assert(lkcol.deep_view()[i as int] == lkcol@[i as int]@);
        }
        let mut matched = false;
        let mut j: usize = 0;
        while j < rkcol.len()
            invariant
                j <= rkcol@.len(),
                i < lkcol@.len(),
                lk == lkcol.deep_view(),
                rk == rkcol.deep_view(),
                lk.len() == lkcol@.len(),
                rk.len() == rkcol@.len(),
                cell == lk[i as int],
                cell == lkcol@[i as int]@,
                pairs_view(pairs@) == base + pairs_for_row(i as int, row_matches(cell, rk.take(j as int))),
                matched == (row_matches(cell, rk.take(j as int)).len() > 0),
            decreases rkcol@.len() - j,
        {
            let ghost pre = rk.take(j as int);
            let ghost cur = rk.take(j as int + 1);
            proof {
                assert(cur.drop_last() =~= pre);
                assert(cur.last() == rk[j as int]);
                assert(rkcol.deep_view()[j as int] == rkcol@[j as int]@);
            }
            if lkcol[i].eq_value(&rkcol[j]) {
                let ghost oldmap = pairs_view(pairs@);
                pairs.push((Some(i), Some(j)));
                matched = true;
                proof {
                    assert(row_matches(cell, cur) == row_matches(cell, pre).push(j as int));
                    assert(pairs_for_row(i as int, row_matches(cell, cur))
                        =~= pairs_for_row(i as int, row_matches(cell, pre)).push((Some(i as int), Some(j as int))));
                    assert(pairs_view(pairs@) =~= oldmap.push(pair_view((Some(i), Some(j)))));
                    assert(pairs_view(pairs@) =~= base + pairs_for_row(i as int, row_matches(cell, cur)));
                }
            } else {
                proof {
                    assert(row_matches(cell, cur) == row_matches(cell, pre));
                    assert(pairs_view(pairs@) =~= base + pairs_for_row(i as int, row_matches(cell, cur)));
                }
            }
            j += 1;
        }
        proof {
            assert(rk.take(rk.len() as int) =~= rk);
        }
        let is_inner = match how {
            JoinType::Inner => true,
            _ => false,
        };
        if !is_inner && !matched {
            pairs.push((Some(i), None));
            proof {
                assert(pairs_view(pairs@) =~= base + left_row_pairs(i as int, row_matches(cell, rk)));
            }
        }
        proof {
            let ghost nxt = lk.take(i as int + 1);
            assert(nxt.drop_last() =~= lk.take(i as int));
            assert(nxt.last() == cell);
            if *how is Inner {
                assert(pairs_view(pairs@) =~= inner_pairs(nxt, rk));
            } else {
                if matched {
                    assert(left_row_pairs(i as int, row_matches(cell, rk))
                        == pairs_for_row(i as int, row_matches(cell, rk)));
                }
                assert(pairs_view(pairs@) =~= left_pairs(nxt, rk));
            }
        }
        i += 1;
    }
    proof {
        assert(lk.take(lk.len() as int) =~= lk);
    }
    if match how {
        JoinType::Outer => true,
        _ => false,
    } {
        // Append the right rows no left key matches.
        let ghost base = pairs_view(pairs@);
        let mut j: usize = 0;
        while j < rkcol.len()
            invariant
                j <= rkcol@.len(),
                lk == lkcol.deep_view(),
                rk == rkcol.deep_view(),
                lk.len() == lkcol@.len(),
                rk.len() == rkcol@.len(),
                pairs_view(pairs@) == base + right_null_pairs(lk, rk.take(j as int)),
            decreases rkcol@.len() - j,
        {
            let ghost pre = rk.take(j as int);
            let ghost cur = rk.take(j as int + 1);
            proof {
                assert(cur.drop_last() =~= pre);
                assert(cur.last() == rk[j as int]);
                assert(rkcol.deep_view()[j as int] == rkcol@[j as int]@);
            }
            let mut found = false;
            let mut i2: usize = 0;
            while i2 < lkcol.len()
                invariant
                    i2 <= lkcol@.len(),
                    j < rkcol@.len(),
                    lk == lkcol.deep_view(),
                    rk == rkcol.deep_view(),
                    lk.len() == lkcol@.len(),
                    rk.len() == rkcol@.len(),
                    found == (row_matches(rk[j as int], lk.take(i2 as int)).len() > 0),
                decreases lkcol@.len() - i2,
            {
                let ghost lpre = lk.take(i2 as int);
                let ghost lcur = lk.take(i2 as int + 1);
                proof {
                    assert(lcur.drop_last() =~= lpre);
                    assert(lcur.last() == lk[i2 as int]);
                    assert(lkcol.deep_view()[i2 as int] == lkcol@[i2 as int]@);
                    assert(rkcol.deep_view()[j as int] == rkcol@[j as int]@);
                }
                if lkcol[i2].eq_value(&rkcol[j]) {
                    found = true;
                }
                i2 += 1;
            }
            proof {
                assert(lk.take(lk.len() as int) =~= lk);
            }
            if !found {
                let ghost oldmap = pairs_view(pairs@);
                pairs.push((None, Some(j)));
                proof {
                    assert(row_matches(rk[j as int], lk).len() == 0);
                    assert(right_null_pairs(lk, cur)
                        =~= right_null_pairs(lk, pre).push((None, Some(j as int))));
                    assert(pairs_view(pairs@) =~= oldmap.push(pair_view((None, Some(j)))));
                    assert(pairs_view(pairs@) =~= base + right_null_pairs(lk, cur));
                }
            } else {
                proof {
                    assert(row_matches(rk[j as int], lk).len() > 0);
                    assert(right_null_pairs(lk, cur) =~= right_null_pairs(lk, pre));
                    assert(pairs_view(pairs@) =~= base + right_null_pairs(lk, cur));
                }
            }
            j += 1;
        }
        proof {
            assert(rk.take(rk.len() as int) =~= rk);
        }
    }
    pairs
}

/// Emits the rows of a cross join of the given heights.
fn build_cross_pairs(lh: usize, rh: usize) -> (pairs: Vec<(Option<usize>, Option<usize>)>)
    ensures
        pairs_view(pairs@) == cross_pairs(lh as nat, rh as nat),
{
    let mut pairs: Vec<(Option<usize>, Option<usize>)> = Vec::new();
    proof {
        assert(pairs_view(pairs@) =~= Seq::<(Option<int>, Option<int>)>::empty());
    }
    let mut i: usize = 0;
    while i < lh
        invariant
            i <= lh,
            pairs_view(pairs@) == cross_pairs(i as nat, rh as nat),
        decreases lh - i,
    {
        let ghost base = pairs_view(pairs@);
        let mut j: usize = 0;
        while j < rh
            invariant
                j <= rh,
                i < lh,
                pairs_view(pairs@) == base + pairs_for_row(i as int, Seq::new(j as nat, |q: int| q)),
            decreases rh - j,
        {
            let ghost oldmap = pairs_view(pairs@);
            pairs.push((Some(i), Some(j)));
            proof {
                assert(Seq::new(j as nat + 1, |q: int| q) =~= Seq::new(j as nat, |q: int| q).push(j as int));
                assert(pairs_for_row(i as int, Seq::new(j as nat + 1, |q: int| q))
                    =~= pairs_for_row(i as int, Seq::new(j as nat, |q: int| q)).push((Some(i as int), Some(j as int))));
                assert(pairs_view(pairs@) =~= oldmap.push(pair_view((Some(i), Some(j)))));
                assert(pairs_view(pairs@) =~= base + pairs_for_row(i as int, Seq::new(j as nat + 1, |q: int| q)));
            }
            j += 1;
        }
        proof {
            assert(pairs_view(pairs@) =~= cross_pairs(i as nat + 1, rh as nat));
        }
        i += 1;
    }
    pairs
}

/// Builds one left output column from the pair list.
fn build_left_cells(col: &Vec<Value>, coalesce: bool, rkcol: &Vec<Value>, pairs: &Vec<(Option<usize>, Option<usize>)>) -> (out: Vec<Value>)
    requires
        forall|q: int| 0 <= q < pairs@.len() ==> {
            let p = #[trigger] pairs@[q];
            &&& (p.0 matches Some(i) ==> 0 <= i < col@.len())
            &&& (p.0 is None ==> (p.1 matches Some(j) ==> 0 <= j < rkcol@.len()))
        },
    ensures
        out.deep_view() == pairs_view(pairs@).map_values(
            |p: (Option<int>, Option<int>)| left_cell(col.deep_view(), coalesce, rkcol.deep_view(), p),
        ),
{
    let ghost goal = pairs_view(pairs@).map_values(
        |p: (Option<int>, Option<int>)| left_cell(col.deep_view(), coalesce, rkcol.deep_view(), p),
    );
    let mut out: Vec<Value> = Vec::new();
    let mut q: usize = 0;
    while q < pairs.len()
        invariant
            q <= pairs@.len(),
            goal == pairs_view(pairs@).map_values(
                |p: (Option<int>, Option<int>)| left_cell(col.deep_view(), coalesce, rkcol.deep_view(), p),
            ),
            forall|w: int| 0 <= w < pairs@.len() ==> {
                let p = #[trigger] pairs@[w];
                &&& (p.0 matches Some(i) ==> 0 <= i < col@.len())
                &&& (p.0 is None ==> (p.1 matches Some(j) ==> 0 <= j < rkcol@.len()))
            },
            out@.len() == q,
            forall|w: int| 0 <= w < q ==> (#[trigger] out@[w])@ == goal[w],
        decreases pairs@.len() - q,
    {
        proof {
            assert(goal[q as int] == left_cell(col.deep_view(), coalesce, rkcol.deep_view(), pair_view(pairs@[q as int])));
            assert(forall|w: int| 0 <= w < col@.len() ==> #[trigger] col.deep_view()[w] == col@[w]@);
            assert(forall|w: int| 0 <= w < rkcol@.len() ==> #[trigger] rkcol.deep_view()[w] == rkcol@[w]@);
        }
        let cell = match pairs[q] {
            (Some(i), _) => col[i].duplicate(),
            (None, Some(j)) => if coalesce {
                rkcol[j].duplicate()
            } else {
                Value::Null
            },
            (None, None) => Value::Null,
        };
        out.push(cell);
        q += 1;
    }
    proof {
        assert(forall|w: int| 0 <= w < out@.len() ==> #[trigger] out.deep_view()[w] == out@[w]@);
        assert(out.deep_view() =~= goal);
    }
    out
}

/// Builds one right output column from the pair list.
fn build_right_cells(col: &Vec<Value>, pairs: &Vec<(Option<usize>, Option<usize>)>) -> (out: Vec<Value>)
    requires
        forall|q: int| 0 <= q < pairs@.len() ==> {
            let p = #[trigger] pairs@[q];
            p.1 matches Some(j) ==> 0 <= j < col@.len()
        },
    ensures
        out.deep_view() == pairs_view(pairs@).map_values(
            |p: (Option<int>, Option<int>)| right_cell(col.deep_view(), p),
        ),
{
    let ghost goal = pairs_view(pairs@).map_values(
        |p: (Option<int>, Option<int>)| right_cell(col.deep_view(), p),
    );
    let mut out: Vec<Value> = Vec::new();
    let mut q: usize = 0;
    while q < pairs.len()
        invariant
            q <= pairs@.len(),
            goal == pairs_view(pairs@).map_values(
                |p: (Option<int>, Option<int>)| right_cell(col.deep_view(), p),
            ),
            forall|w: int| 0 <= w < pairs@.len() ==> {
                let p = #[trigger] pairs@[w];
                p.1 matches Some(j) ==> 0 <= j < col@.len()
            },
            out@.len() == q,
            forall|w: int| 0 <= w < q ==> (#[trigger] out@[w])@ == goal[w],
        decreases pairs@.len() - q,
    {
        proof {
            assert(goal[q as int] == right_cell(col.deep_view(), pair_view(pairs@[q as int])));
            assert(forall|w: int| 0 <= w < col@.len() ==> #[trigger] col.deep_view()[w] == col@[w]@);
        }
        let cell = match pairs[q] {
            (_, Some(j)) => col[j].duplicate(),
            (_, None) => Value::Null,
        };
        out.push(cell);
        q += 1;
    }
    proof {
        assert(forall|w: int| 0 <= w < out@.len() ==> #[trigger] out.deep_view()[w] == out@[w]@);
        assert(out.deep_view() =~= goal);
    }
    out
}

/// Joins the two tables on one key-column pair. Success is owed whenever
/// the kind is cross (keys are ignored) or both named key columns exist;
/// a missing key column on either side is `ColumnNotFound`. Key cells are
/// compared as values: cells of different types, or null keys, simply never
/// match, so key typing never raises an error.
pub fn join_tables(left: &Table, right: &Table, left_on: &str, right_on: &str, how: &JoinType) -> (r: Result<Table, EngineError>)
    requires
        table_wf(left@),
        table_wf(right@),
    ensures
        r is Ok <==> (*how == JoinType::Cross
            || (has_col(left@, left_on@) && has_col(right@, right_on@))),
        match r {
            Ok(out) => {
                &&& (*how == JoinType::Cross ==> out@ == spec_join(left@, right@, 0, 0, JoinType::Cross))
                &&& (*how != JoinType::Cross ==> exists|lk: int, rk: int|
                    {
                        &&& #[trigger] is_first_col(left@, left_on@, lk)
                        &&& #[trigger] is_first_col(right@, right_on@, rk)
                        &&& out@ == spec_join(left@, right@, lk, rk, *how)
                    })
                &&& table_wf(out@)
            },
            Err(EngineError::ColumnNotFound) => !has_col(left@, left_on@) || !has_col(right@, right_on@),
            Err(_) => false,
        },
{
    let ghost lt = left@;
    let ghost rt = right@;
    let cross = match how {
        JoinType::Cross => true,
        _ => false,
    };
    let (lk, rk): (usize, usize) = if cross {
        (0, 0)
    } else {
        let lk = match left.find_column(left_on) {
            Some(k) => k,
            None => {
                return Err(EngineError::ColumnNotFound);
            }
        };
        let rk = match right.find_column(right_on) {
            Some(k) => k,
            None => {
                return Err(EngineError::ColumnNotFound);
            }
        };
        (lk, rk)
    };

    let ghost pairs_spec = join_pairs(*how, spec_key_cells(lt, lk as int), spec_key_cells(rt, rk as int));
    let pairs: Vec<(Option<usize>, Option<usize>)> = if cross {
        build_cross_pairs(left.height(), right.height())
    } else {
        proof {
            assert(lt.len() == left.columns@.len());
            assert(rt.len() == right.columns@.len());
        }
        build_keyed_pairs(&left.columns[lk].cells, &right.columns[rk].cells, how)
    };
    proof {
        if cross {
            assert(pairs_view(pairs@) == pairs_spec);
        } else {
            assert(left.columns@[lk as int].deep_view() == lt[lk as int]);
            assert(right.columns@[rk as int].deep_view() == rt[rk as int]);
            assert(left.columns@[lk as int].cells.deep_view() == spec_key_cells(lt, lk as int));
            assert(right.columns@[rk as int].cells.deep_view() == spec_key_cells(rt, rk as int));
            assert(pairs_view(pairs@) == pairs_spec);
        }
        assert(spec_key_cells(lt, lk as int).len() == table_height(lt));
        assert(spec_key_cells(rt, rk as int).len() == table_height(rt));
        lemma_join_pairs_bounds(*how, spec_key_cells(lt, lk as int), spec_key_cells(rt, rk as int));
        assert(forall|q: int| 0 <= q < pairs@.len()
            ==> pairs_view(pairs@)[q] == pair_view(#[trigger] pairs@[q]));
    }

    let mut columns: Vec<Column> = Vec::new();

    // Left columns.
    let mut j: usize = 0;
    while j < left.columns.len()
        invariant
            j <= lt.len(),
            lt == left@,
            rt == right@,
            table_wf(lt),
            table_wf(rt),
            lt.len() == left.columns@.len(),
            rt.len() == right.columns@.len(),
            cross == (*how is Cross),
            !cross ==> lk < lt.len() && rk < rt.len(),
            cross ==> lk == 0 && rk == 0,
            pairs_spec == join_pairs(*how, spec_key_cells(lt, lk as int), spec_key_cells(rt, rk as int)),
            pairs_view(pairs@) == pairs_spec,
            forall|q: int| 0 <= q < pairs_spec.len() ==> {
                let p = #[trigger] pairs_spec[q];
                &&& (p.0 matches Some(i) ==> 0 <= i < table_height(lt))
                &&& (p.1 matches Some(w) ==> 0 <= w < table_height(rt))
            },
            columns@.len() == j,
            forall|w: int| 0 <= w < j ==> (#[trigger] columns@[w])@ == (ColumnModel {
                name: lt[w].name,
                cells: pairs_spec.map_values(
                    |p: (Option<int>, Option<int>)| left_cell(lt[w].cells, w == lk as int, spec_key_cells(rt, rk as int), p),
                ),
            }),
        decreases lt.len() - j,
    {
        let src = &left.columns[j];
        proof {
            assert(src@ == lt[j as int]);
            assert(src.cells.deep_view() == lt[j as int].cells);
            assert(src.cells@.len() == src.cells.deep_view().len());
            assert(src.cells@.len() == table_height(lt));
            if !cross {
                assert(right.columns@[rk as int].cells.deep_view() == spec_key_cells(rt, rk as int));
                assert(right.columns@[rk as int].cells@.len() == table_height(rt));
            }
            assert(forall|q: int| 0 <= q < pairs@.len()
                ==> pairs_view(pairs@)[q] == pair_view(#[trigger] pairs@[q]));
            if cross {
                lemma_cross_pairs_bounds(spec_key_cells(lt, lk as int).len(), spec_key_cells(rt, rk as int).len());
                assert(forall|q: int| 0 <= q < pairs_spec.len()
                    ==> (#[trigger] pairs_spec[q]).0 is Some);
            }
        }
        let coalesce = j == lk && !cross;
        let cells = if cross {
            // A cross join emits no right-only rows; any left column works
            // as the (never-consulted) coalescing source.
            build_left_cells(&src.cells, false, &src.cells, &pairs)
        } else {
            build_left_cells(&src.cells, coalesce, &right.columns[rk].cells, &pairs)
        };
        columns.push(Column { name: src.name.clone(), cells });
        proof {
            let w = j as int;
            assert(columns@[w]@.cells =~= pairs_spec.map_values(
                |p: (Option<int>, Option<int>)| left_cell(lt[w].cells, w == lk as int, spec_key_cells(rt, rk as int), p),
            ));
            assert(columns@[w]@ =~= (ColumnModel {
                name: lt[w].name,
                cells: pairs_spec.map_values(
                    |p: (Option<int>, Option<int>)| left_cell(lt[w].cells, w == lk as int, spec_key_cells(rt, rk as int), p),
                ),
            }));
        }
        j += 1;
    }

    // Right columns, minus the right key column unless cross.
    let rlen = if cross {
        right.columns.len()
    } else {
        right.columns.len() - 1
    };
    let mut m: usize = 0;
    while m < rlen
        invariant
            m <= rlen,
            lt == left@,
            rt == right@,
            table_wf(lt),
            table_wf(rt),
            lt.len() == left.columns@.len(),
            rt.len() == right.columns@.len(),
            !cross ==> lk < lt.len() && rk < rt.len(),
            cross ==> lk == 0 && rk == 0,
            cross ==> rlen == rt.len(),
            !cross ==> rlen == rt.len() - 1 && rk < rt.len(),
            pairs_spec == join_pairs(*how, spec_key_cells(lt, lk as int), spec_key_cells(rt, rk as int)),
            pairs_view(pairs@) == pairs_spec,
            cross == (*how is Cross),
            forall|q: int| 0 <= q < pairs_spec.len() ==> {
                let p = #[trigger] pairs_spec[q];
                &&& (p.0 matches Some(i) ==> 0 <= i < table_height(lt))
                &&& (p.1 matches Some(w) ==> 0 <= w < table_height(rt))
            },
            columns@.len() == lt.len() + m,
            forall|w: int| 0 <= w < lt.len() ==> (#[trigger] columns@[w])@ == (ColumnModel {
                name: lt[w].name,
                cells: pairs_spec.map_values(
                    |p: (Option<int>, Option<int>)| left_cell(lt[w].cells, w == lk as int, spec_key_cells(rt, rk as int), p),
                ),
            }),
            forall|w: int| lt.len() <= w < columns@.len() ==> (#[trigger] columns@[w])@ == (ColumnModel {
                name: right_out_name(lt, rt[right_src(rk as int, cross, w - lt.len())].name),
                cells: pairs_spec.map_values(
                    |p: (Option<int>, Option<int>)| right_cell(rt[right_src(rk as int, cross, w - lt.len())].cells, p),
                ),
            }),
        decreases rlen - m,
    {
        let srci = if cross || m < rk {
            m
        } else {
            m + 1
        };
        let src = &right.columns[srci];
        proof {
            assert(srci as int == right_src(rk as int, cross, m as int));
            assert(src@ == rt[srci as int]);
            assert(src.cells.deep_view() == rt[srci as int].cells);
            assert(src.cells@.len() == src.cells.deep_view().len());
            assert(src.cells@.len() == table_height(rt));
            assert(forall|q: int| 0 <= q < pairs@.len()
                ==> pairs_view(pairs@)[q] == pair_view(#[trigger] pairs@[q]));
        }
        let name = match left.find_column(src.name.as_str()) {
            Some(_) => {
                let mut n = src.name.clone();
                n.append("_right");
                n
            }
            None => src.name.clone(),
        };
        proof {
            assert(name@ == right_out_name(lt, rt[srci as int].name));
        }
        let cells = build_right_cells(&src.cells, &pairs);
        columns.push(Column { name, cells });
        proof {
            let w = lt.len() as int + m as int;
            assert(columns@[w]@ =~= (ColumnModel {
                name: right_out_name(lt, rt[right_src(rk as int, cross, w - lt.len())].name),
                cells: pairs_spec.map_values(
                    |p: (Option<int>, Option<int>)| right_cell(rt[right_src(rk as int, cross, w - lt.len())].cells, p),
                ),
            }));
        }
        m += 1;
    }

    let out = Table { columns };
    proof {
        assert(forall|w: int| 0 <= w < out@.len() ==> #[trigger] out@[w] == columns@[w]@);
        assert(out@ =~= spec_join(lt, rt, lk as int, rk as int, *how));
        assert(table_wf(out@)) by {
            assert(forall|w: int| 0 <= w < out@.len()
                ==> (#[trigger] out@[w].cells).len() == pairs_spec.len());
        }
        if !cross {
            lemma_first_col_unique(lt, left_on@, lk as int);
            lemma_first_col_unique(rt, right_on@, rk as int);
        }
    }
    Ok(out)
}

/// The join row bound: an inner join is never taller than the product of
/// its sources' heights, and a cross join is exactly that tall.
pub proof fn lemma_join_row_bound(lt: Seq<ColumnModel>, rt: Seq<ColumnModel>, lk: int, rk: int)
    requires
        table_wf(lt),
        table_wf(rt),
        0 <= lk < lt.len(),
        0 <= rk < rt.len(),
    ensures
        table_height(spec_join(lt, rt, lk, rk, JoinType::Inner))
            <= table_height(lt) * table_height(rt),
        table_height(spec_join(lt, rt, lk, rk, JoinType::Cross))
            == table_height(lt) * table_height(rt),
{
    let lkc = lt[lk].cells;
    let rkc = rt[rk].cells;
    assert(lkc.len() == table_height(lt));
    assert(rkc.len() == table_height(rt));
    lemma_inner_pairs_len(lkc, rkc);
    lemma_cross_pairs_len(lkc.len(), rkc.len());
    assert(spec_join(lt, rt, lk, rk, JoinType::Inner)[0].cells.len()
        == inner_pairs(lkc, rkc).len());
    assert(spec_join(lt, rt, lk, rk, JoinType::Cross)[0].cells.len()
        == cross_pairs(lkc.len(), rkc.len()).len());
}

} // verus!
