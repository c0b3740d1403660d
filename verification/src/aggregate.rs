//! The aggregation engine: groups a table by key columns and reduces
//! target columns with one of six functions. Groups are the distinct key
//! tuples in first-occurrence order; `Count` counts every row of a group,
//! the five value reductions read the integer cells and skip nulls.

use vstd::prelude::*;
use crate::error::EngineError;
use crate::filter::select_cells;
use crate::table::{Column, ColumnModel, Table, first_col, table_height, table_wf};
use crate::value::{Value, ValueModel};

verus! {

/// The reduction functions.
#[derive(Clone, Copy, Debug, PartialEq, Eq, Structural)]
pub enum AggFunc {
    Count,
    Sum,
    Mean,
    Median,
    Min,
    Max,
}

/// Pending aggregation selections of one container: the key and target
/// column lists being assembled, the chosen function, and the staged
/// result.
#[derive(Debug)]
pub struct DataFrameAggregate {
    pub grp_selection: String,
    pub agg_selection: String,
    pub groupby: Vec<String>,
    pub aggcols: Vec<String>,
    pub aggfunc: AggFunc,
    pub aggdata: Option<Table>,
    pub display: bool,
}

impl DataFrameAggregate {
    /// Fresh configuration: empty selections and lists, counting, nothing
    /// staged.
    pub open spec fn is_default(self) -> bool {
        &&& self.grp_selection@ == Seq::<char>::empty()
        &&& self.agg_selection@ == Seq::<char>::empty()
        &&& self.groupby@ == Seq::<String>::empty()
        &&& self.aggcols@ == Seq::<String>::empty()
        &&& self.aggfunc == AggFunc::Count
        &&& self.aggdata is None
        &&& self.display == false
    }
}

impl Default for DataFrameAggregate {
    fn default() -> (r: Self)
        ensures
            r.is_default(),
    {
        DataFrameAggregate {
            grp_selection: String::new(),
            agg_selection: String::new(),
            groupby: Vec::new(),
            aggcols: Vec::new(),
            aggfunc: AggFunc::Count,
            aggdata: None,
            display: false,
        }
    }
}

/// The distinct elements of a sequence, in order of first occurrence.
pub open spec fn distinct_seq<A>(s: Seq<A>) -> Seq<A>
    decreases s.len(),
{
    if s.len() == 0 {
        Seq::empty()
    } else {
        let pre = distinct_seq(s.drop_last());
        if pre.contains(s.last()) {
            pre
        } else {
            pre.push(s.last())
        }
    }
}

/// The positions at which `x` occurs, ascending.
pub open spec fn occurrences<A>(s: Seq<A>, x: A) -> Seq<int>
    decreases s.len(),
{
    if s.len() == 0 {
        Seq::empty()
    } else {
        let pre = occurrences(s.drop_last(), x);
        if s.last() == x {
            pre.push(s.len() - 1)
        } else {
            pre
        }
    }
}

/// The sum of a sequence of integers.
pub open spec fn seq_sum(s: Seq<int>) -> int
    decreases s.len(),
{
    if s.len() == 0 {
        0
    } else {
        seq_sum(s.drop_last()) + s.last()
    }
}

/// The distinct elements are exactly the elements, without repetition.
pub proof fn lemma_distinct_seq<A>(s: Seq<A>)
    ensures
        forall|x: A| distinct_seq(s).contains(x) <==> s.contains(x),
        forall|i: int, j: int| 0 <= i < j < distinct_seq(s).len()
            ==> distinct_seq(s)[i] != distinct_seq(s)[j],
    decreases s.len(),
{
    if s.len() > 0 {
        lemma_distinct_seq(s.drop_last());
        let pre = distinct_seq(s.drop_last());
        let d = distinct_seq(s);
        assert forall|x: A| d.contains(x) implies s.contains(x) by {
            if pre.contains(x) {
                assert(s.drop_last().contains(x));
                let i = choose|i: int| 0 <= i < s.drop_last().len() && s.drop_last()[i] == x;
                assert(s[i] == x);
            } else {
                assert(x == s.last());
                assert(s[s.len() - 1] == x);
            }
        }
        assert forall|x: A| s.contains(x) implies d.contains(x) by {
            let i = choose|i: int| 0 <= i < s.len() && s[i] == x;
            if i < s.len() - 1 {
                assert(s.drop_last()[i] == x);
                assert(s.drop_last().contains(x));
                assert(pre.contains(x));
                if pre.contains(s.last()) {
                    assert(d.contains(x));
                } else {
                    let q = choose|q: int| 0 <= q < pre.len() && pre[q] == x;
                    assert(d[q] == x);
                }
            } else {
                assert(x == s.last());
                if pre.contains(x) {
                    let q = choose|q: int| 0 <= q < pre.len() && pre[q] == x;
                    assert(d[q] == x);
                } else {
                    assert(d.last() == x);
                }
            }
        }
        if !pre.contains(s.last()) {
            assert forall|i: int, j: int| 0 <= i < j < d.len() implies d[i] != d[j] by {
                if j < d.len() - 1 {
                    assert(pre[i] == d[i] && pre[j] == d[j]);
                } else {
                    assert(d[j] == s.last());
                    assert(pre[i] == d[i]);
                    assert(pre.contains(pre[i]));
                }
            }
        }
    }
}

/// As many distinct elements as the set of elements has.
pub proof fn lemma_distinct_seq_len<A>(s: Seq<A>)
    ensures
        distinct_seq(s).len() == s.to_set().len(),
    decreases s.len(),
{
    broadcast use vstd::seq_lib::seq_to_set_is_finite;
    broadcast use vstd::set::axiom_set_insert_len;

    if s.len() == 0 {
        assert(s.to_set() =~= Set::<A>::empty());
        assert(s.to_set().len() == 0);
    } else {
        let st = s.drop_last();
        lemma_distinct_seq_len(st);
        lemma_distinct_seq(st);
        assert(s =~= st.push(s.last()));
        Seq::lemma_push_to_set_commute(st, s.last());
        assert(s.to_set() == st.to_set().insert(s.last()));
        if distinct_seq(st).contains(s.last()) {
            assert(st.contains(s.last()));
            assert(st.to_set().contains(s.last()));
            assert(s.to_set().len() == st.to_set().len());
        } else {
            assert(!st.contains(s.last()));
            assert(!st.to_set().contains(s.last()));
            assert(s.to_set().len() == st.to_set().len() + 1);
        }
    }
}

/// `x` occurs somewhere exactly when it has an occurrence index.
pub proof fn lemma_occurrences<A>(s: Seq<A>, x: A)
    ensures
        s.contains(x) <==> occurrences(s, x).len() > 0,
        forall|q: int| 0 <= q < occurrences(s, x).len() ==> {
            &&& 0 <= #[trigger] occurrences(s, x)[q] < s.len()
            &&& s[occurrences(s, x)[q]] == x
        },
        occurrences(s, x).len() <= s.len(),
    decreases s.len(),
{
    if s.len() > 0 {
        lemma_occurrences(s.drop_last(), x);
        assert(forall|j: int| 0 <= j < s.len() - 1 ==> s.drop_last()[j] == s[j]);
        if s.contains(x) && s.last() != x {
            let i = choose|i: int| 0 <= i < s.len() && s[i] == x;
            assert(s.drop_last()[i] == x);
            assert(s.drop_last().contains(x));
        }
        if occurrences(s, x).len() > 0 && s.last() != x {
            assert(s.drop_last().contains(x));
            let i = choose|i: int| 0 <= i < s.drop_last().len() && s.drop_last()[i] == x;
            assert(s[i] == x);
        }
        if s.last() == x {
            assert(s[s.len() - 1] == x);
        }
    }
}

/// Sums agree on pointwise-equal sequences save one position, where they
/// differ by one.
proof fn lemma_seq_sum_delta(a: Seq<int>, b: Seq<int>, w: int)
    requires
        a.len() == b.len(),
        0 <= w < a.len(),
        forall|i: int| 0 <= i < a.len() ==> #[trigger] a[i] == b[i] + (if i == w {
            1int
        } else {
            0int
        }),
    ensures
        seq_sum(a) == seq_sum(b) + 1,
    decreases a.len(),
{
    if w == a.len() - 1 {
        assert(a.drop_last() =~= b.drop_last());
    } else {
        lemma_seq_sum_delta(a.drop_last(), b.drop_last(), w);
    }
}

proof fn lemma_seq_sum_congruence(a: Seq<int>, b: Seq<int>)
    requires
        a.len() == b.len(),
        forall|i: int| 0 <= i < a.len() ==> #[trigger] a[i] == b[i],
    ensures
        seq_sum(a) == seq_sum(b),
    decreases a.len(),
{
    if a.len() > 0 {
        lemma_seq_sum_congruence(a.drop_last(), b.drop_last());
    }
}

/// The per-group occurrence counts of the distinct elements sum to the
/// length: the groups partition the sequence.
pub proof fn lemma_group_counts_sum<A>(s: Seq<A>)
    ensures
        seq_sum(distinct_seq(s).map_values(|x: A| occurrences(s, x).len() as int)) == s.len(),
    decreases s.len(),
{
    let d = distinct_seq(s);
    let counts = d.map_values(|x: A| occurrences(s, x).len() as int);
    if s.len() == 0 {
        assert(counts =~= Seq::<int>::empty());
    } else {
        let st = s.drop_last();
        let last = s.last();
        lemma_group_counts_sum(st);
        lemma_distinct_seq(st);
        let dp = distinct_seq(st);
        let countsp = dp.map_values(|x: A| occurrences(st, x).len() as int);
        assert(seq_sum(countsp) == st.len());
        assert forall|x: A| true implies #[trigger] occurrences(s, x).len()
            == occurrences(st, x).len() + (if x == last {
            1int
        } else {
            0int
        }) by {
            assert(occurrences(s, x) == if s.last() == x {
                occurrences(st, x).push(s.len() - 1)
            } else {
                occurrences(st, x)
            });
        }
        if dp.contains(last) {
            assert(d == dp);
            let w = choose|w: int| 0 <= w < dp.len() && dp[w] == last;
            assert forall|i: int| 0 <= i < counts.len() implies #[trigger] counts[i] == countsp[i]
                + (if i == w {
                1int
            } else {
                0int
            }) by {
                if i != w {
                    assert(dp[i] != last) by {
                        if dp[i] == last {
                            assert(dp[i] == dp[w]);
                        }
                    }
                }
            }
            lemma_seq_sum_delta(counts, countsp, w);
        } else {
            assert(d == dp.push(last));
            assert(!st.contains(last));
            lemma_occurrences(st, last);
            assert(occurrences(st, last).len() == 0);
            assert(counts.len() == countsp.len() + 1);
            assert(counts.drop_last() =~= dp.map_values(|x: A| occurrences(s, x).len() as int));
            let mid = dp.map_values(|x: A| occurrences(s, x).len() as int);
            assert forall|i: int| 0 <= i < mid.len() implies #[trigger] mid[i] == countsp[i] by {
                assert(dp.contains(dp[i]));
                assert(st.contains(dp[i]));
                assert(dp[i] != last);
            }
            lemma_seq_sum_congruence(mid, countsp);
            assert(counts.last() == occurrences(s, last).len() as int);
            assert(occurrences(s, last).len() == 1);
            assert(seq_sum(counts) == seq_sum(mid) + 1);
        }
    }
}

/// The integer cells of a sequence, in order: nulls are skipped by every
/// value reduction.
pub open spec fn ints_of(cells: Seq<ValueModel>) -> Seq<int>
    decreases cells.len(),
{
    if cells.len() == 0 {
        Seq::empty()
    } else {
        let pre = ints_of(cells.drop_last());
        match cells.last() {
            ValueModel::Int(v) => pre.push(v),
            _ => pre,
        }
    }
}

pub open spec fn seq_min(s: Seq<int>) -> int
    decreases s.len(),
{
    if s.len() == 0 {
        0
    } else if s.len() == 1 {
        s[0]
    } else {
        let m = seq_min(s.drop_last());
        if s.last() < m {
            s.last()
        } else {
            m
        }
    }
}

pub open spec fn seq_max(s: Seq<int>) -> int
    decreases s.len(),
{
    if s.len() == 0 {
        0
    } else if s.len() == 1 {
        s[0]
    } else {
        let m = seq_max(s.drop_last());
        if s.last() > m {
            s.last()
        } else {
            m
        }
    }
}

/// Division truncating toward zero, as the engine's integer mean uses
/// (`b` positive).
pub open spec fn trunc_div(a: int, b: int) -> int {
    if a >= 0 {
        a / b
    } else {
        -((-a) / b)
    }
}

/// `x` inserted before the first element not below it.
pub open spec fn insert_sorted(x: int, s: Seq<int>) -> Seq<int>
    decreases s.len(),
{
    if s.len() == 0 {
        seq![x]
    } else if x <= s[0] {
        seq![x] + s
    } else {
        seq![s[0]] + insert_sorted(x, s.drop_first())
    }
}

/// Insertion sort of an integer sequence.
pub open spec fn sort_ints(s: Seq<int>) -> Seq<int>
    decreases s.len(),
{
    if s.len() == 0 {
        Seq::empty()
    } else {
        insert_sorted(s.last(), sort_ints(s.drop_last()))
    }
}

/// The median of a nonempty sequence: the middle of its sorted form, the
/// truncated mean of the two middles when the length is even.
pub open spec fn spec_median(s: Seq<int>) -> int {
    let ss = sort_ints(s);
    let n = s.len() as int;
    if n % 2 == 1 {
        ss[n / 2]
    } else {
        trunc_div(ss[n / 2 - 1] + ss[n / 2], 2)
    }
}

/// The suffix a reduced column's name carries.
pub open spec fn func_suffix(f: AggFunc) -> Seq<char> {
    match f {
        AggFunc::Count => "_count"@,
        AggFunc::Sum => "_sum"@,
        AggFunc::Mean => "_mean"@,
        AggFunc::Median => "_median"@,
        AggFunc::Min => "_min"@,
        AggFunc::Max => "_max"@,
    }
}

/// One group's reduced value over one target column's cells in the group.
/// `Count` counts every row of the group, nulls included; the five value
/// reductions read the integer cells only, yielding null on a group with
/// none.
pub open spec fn spec_reduce(f: AggFunc, cells: Seq<ValueModel>) -> ValueModel {
    let xs = ints_of(cells);
    match f {
        AggFunc::Count => ValueModel::Int(cells.len() as int),
        AggFunc::Sum => ValueModel::Int(seq_sum(xs)),
        AggFunc::Mean => if xs.len() == 0 {
            ValueModel::Null
        } else {
            ValueModel::Int(trunc_div(seq_sum(xs), xs.len() as int))
        },
        AggFunc::Median => if xs.len() == 0 {
            ValueModel::Null
        } else {
            ValueModel::Int(spec_median(xs))
        },
        AggFunc::Min => if xs.len() == 0 {
            ValueModel::Null
        } else {
            ValueModel::Int(seq_min(xs))
        },
        AggFunc::Max => if xs.len() == 0 {
            ValueModel::Null
        } else {
            ValueModel::Int(seq_max(xs))
        },
    }
}

pub open spec fn in_i64(v: int) -> bool {
    i64::MIN <= v <= i64::MAX
}

/// Whether the reduced value is storable in a 64-bit cell. Only a sum or a
/// mean of values can leave the range; the engine refuses such a group.
pub open spec fn reduce_in_range(f: AggFunc, cells: Seq<ValueModel>) -> bool {
    match spec_reduce(f, cells) {
        ValueModel::Int(v) => in_i64(v),
        _ => true,
    }
}

/// The key tuple of row `r`: its cells in the grouping columns.
pub open spec fn proj_row(t: Seq<ColumnModel>, kidx: Seq<int>, r: int) -> Seq<ValueModel> {
    kidx.map_values(|k: int| t[k].cells[r])
}

/// The projection of the whole table onto the grouping columns, row by row.
pub open spec fn proj(t: Seq<ColumnModel>, kidx: Seq<int>) -> Seq<Seq<ValueModel>> {
    Seq::new(table_height(t), |r: int| proj_row(t, kidx, r))
}

/// Aggregate grouping law: the groups of a table are the distinct key
/// tuples of its projection onto the grouping columns — there are exactly
/// as many groups as distinct tuples, and the per-group row counts sum to
/// the table's height.
pub proof fn lemma_aggregate_grouping(t: Seq<ColumnModel>, kidx: Seq<int>)
    ensures
        distinct_seq(proj(t, kidx)).len() == proj(t, kidx).to_set().len(),
        seq_sum(distinct_seq(proj(t, kidx)).map_values(
            |kv: Seq<ValueModel>| occurrences(proj(t, kidx), kv).len() as int,
        )) == table_height(t),
{
    lemma_distinct_seq_len(proj(t, kidx));
    lemma_group_counts_sum(proj(t, kidx));
    assert(proj(t, kidx).len() == table_height(t));
}

proof fn lemma_ints_of_all_int(xs: Seq<int>)
    ensures
        ints_of(xs.map_values(|v: int| ValueModel::Int(v))) == xs,
    decreases xs.len(),
{
    let cells = xs.map_values(|v: int| ValueModel::Int(v));
    if xs.len() == 0 {
        assert(cells =~= Seq::<ValueModel>::empty());
        assert(ints_of(cells) =~= xs);
    } else {
        lemma_ints_of_all_int(xs.drop_last());
        assert(cells.drop_last() =~= xs.drop_last().map_values(|v: int| ValueModel::Int(v)));
        assert(cells.last() == ValueModel::Int(xs.last()));
        assert(ints_of(cells) =~= xs);
    }
}

/// Aggregate grouping law, read off the counting aggregate itself: the
/// result has one row per distinct key tuple of the projection, and its
/// `count` column sums to the source height.
pub proof fn lemma_aggregate_count(t: Seq<ColumnModel>, kidx: Seq<int>)
    ensures
        table_height(spec_aggregate(t, kidx, Seq::empty(), AggFunc::Count))
            == proj(t, kidx).to_set().len(),
        seq_sum(ints_of(
            spec_aggregate(t, kidx, Seq::empty(), AggFunc::Count)[kidx.len() as int].cells,
        )) == table_height(t),
{
    let p = proj(t, kidx);
    let dk = distinct_seq(p);
    let out = spec_aggregate(t, kidx, Seq::empty(), AggFunc::Count);
    lemma_aggregate_grouping(t, kidx);
    let cnts = dk.map_values(|kv: Seq<ValueModel>| occurrences(p, kv).len() as int);
    assert(out[kidx.len() as int].cells
        == dk.map_values(|kv: Seq<ValueModel>| ValueModel::Int(occurrences(p, kv).len() as int)));
    assert(out[kidx.len() as int].cells =~= cnts.map_values(|v: int| ValueModel::Int(v)));
    lemma_ints_of_all_int(cnts);
    assert(seq_sum(ints_of(out[kidx.len() as int].cells)) == table_height(t));
    assert(out[0].cells.len() == dk.len());
    assert(table_height(out) == dk.len());
}

/// The mathematical values of a machine-integer vector.
pub open spec fn int_view(s: Seq<i64>) -> Seq<int> {
    s.map_values(|v: i64| v as int)
}

/// The sum of at most `2^63` 64-bit values: always representable in 128
/// bits.
fn sum128(xs: &Vec<i64>) -> (s: i128)
    requires
        xs@.len() < 0x8000000000000000,
    ensures
        s as int == seq_sum(int_view(xs@)),
{
    let mut acc: i128 = 0;
    let mut i: usize = 0;
    while i < xs.len()
        invariant
            i <= xs@.len(),
            xs@.len() < 0x8000000000000000,
            acc as int == seq_sum(int_view(xs@).take(i as int)),
            -(i as int) * 0x8000000000000000 <= acc as int <= (i as int) * 0x8000000000000000,
        decreases xs@.len() - i,
    {
        let ghost pre = int_view(xs@).take(i as int);
        let ghost cur = int_view(xs@).take(i as int + 1);
        proof {
            assert(cur.drop_last() =~= pre);
            assert(cur.last() == xs@[i as int] as int);
            assert((i as int + 1) * 0x8000000000000000
                == (i as int) * 0x8000000000000000 + 0x8000000000000000) by (nonlinear_arith);
            assert((i as int + 1) * 0x8000000000000000 <= 0x8000000000000000 * 0x8000000000000000)
                by (nonlinear_arith)
                requires i as int + 1 <= 0x8000000000000000;
        }
        acc = acc + xs[i] as i128;
        i += 1;
    }
    proof {
        assert(int_view(xs@).take(xs@.len() as int) =~= int_view(xs@));
    }
    acc
}

/// Truncating division of a 128-bit value by a positive divisor, refused
/// when the quotient does not fit a 64-bit cell.
fn trunc_div_i128(a: i128, b: u128) -> (r: Option<i64>)
    requires
        b > 0,
        -0x40000000000000000000000000000000 <= a <= 0x40000000000000000000000000000000,
    ensures
        match r {
            Some(v) => in_i64(trunc_div(a as int, b as int)) && v as int == trunc_div(a as int, b as int),
            None => !in_i64(trunc_div(a as int, b as int)),
        },
{
    if a >= 0 {
        let q = (a as u128) / b;
        if q <= 9223372036854775807 {
            Some(q as i64)
        } else {
            None
        }
    } else {
        let q = ((-a) as u128) / b;
        if q < 9223372036854775808 {
            Some(-(q as i64))
        } else if q == 9223372036854775808 {
            Some(i64::MIN)
        } else {
            None
        }
    }
}

/// Bridges the recursive insertion spec to insertion at a found position.
proof fn lemma_insert_sorted_pos(x: int, s: Seq<int>, p: int)
    requires
        0 <= p <= s.len(),
        forall|q: int| 0 <= q < p ==> s[q] < x,
        p < s.len() ==> x <= s[p],
    ensures
        insert_sorted(x, s) == s.insert(p, x),
    decreases s.len(),
{
    if s.len() == 0 {
        assert(insert_sorted(x, s) =~= s.insert(0, x));
    } else if p == 0 {
        assert(insert_sorted(x, s) == seq![x] + s);
        assert(seq![x] + s =~= s.insert(0, x));
    } else {
        assert(s[0] < x);
        let df = s.drop_first();
        assert(forall|q: int| 0 <= q < p - 1 ==> df[q] == s[q + 1]);
        assert(p - 1 < df.len() ==> x <= df[p - 1]) by {
            if p - 1 < df.len() {
                assert(df[p - 1] == s[p]);
            }
        }
        lemma_insert_sorted_pos(x, df, p - 1);
        assert(insert_sorted(x, s) == seq![s[0]] + df.insert(p - 1, x));
        assert(seq![s[0]] + df.insert(p - 1, x) =~= s.insert(p, x));
    }
}

/// Insertion sort of a vector of 64-bit values, mirroring the sorting
/// specification.
fn sort_i64s(xs: &Vec<i64>) -> (out: Vec<i64>)
    ensures
        int_view(out@) == sort_ints(int_view(xs@)),
{
    let mut out: Vec<i64> = Vec::new();
    proof {
        assert(int_view(xs@).take(0) =~= Seq::<int>::empty());
        assert(int_view(out@) =~= sort_ints(int_view(xs@).take(0)));
    }
    let mut i: usize = 0;
    while i < xs.len()
        invariant
            i <= xs@.len(),
            int_view(out@) == sort_ints(int_view(xs@).take(i as int)),
            out@.len() == i,
        decreases xs@.len() - i,
    {
        let x = xs[i];
        let mut pos: usize = 0;
        while pos < out.len() && out[pos] < x
            invariant
                pos <= out@.len(),
                forall|q: int| 0 <= q < pos ==> out@[q] < x,
            decreases out@.len() - pos,
        {
            pos += 1;
        }
        let ghost before = int_view(out@);
        out.insert(pos, x);
        proof {
            assert(forall|q: int| 0 <= q < pos ==> before[q] < x as int);
            assert(pos < before.len() ==> x as int <= before[pos as int]);
            lemma_insert_sorted_pos(x as int, before, pos as int);
            let ghost pre = int_view(xs@).take(i as int);
            let ghost cur = int_view(xs@).take(i as int + 1);
            assert(cur.drop_last() =~= pre);
            assert(cur.last() == xs@[i as int] as int);
            assert(int_view(out@) =~= before.insert(pos as int, x as int));
            assert(int_view(out@) == sort_ints(cur));
        }
        i += 1;
    }
    proof {
        assert(int_view(xs@).take(xs@.len() as int) =~= int_view(xs@));
    }
    out
}

/// Reduces one group of one target column. `xs` holds the group's integer
/// cells in order, `gcnt` the group's row count; `cells` is the group's
/// full cell sequence. `None` reports a reduced value outside the 64-bit
/// range.
fn exec_reduce(func: &AggFunc, xs: &Vec<i64>, gcnt: usize, Ghost(cells): Ghost<Seq<ValueModel>>) -> (r: Option<Value>)
    requires
        int_view(xs@) == ints_of(cells),
        gcnt == cells.len(),
        xs@.len() <= cells.len(),
        cells.len() < 0x8000000000000000,
    ensures
        match r {
            Some(v) => reduce_in_range(*func, cells) && v@ == spec_reduce(*func, cells),
            None => !reduce_in_range(*func, cells),
        },
{
    match func {
        AggFunc::Count => Some(Value::Int(gcnt as i64)),
        AggFunc::Sum => {
            let s = sum128(xs);
            if -9223372036854775808i128 <= s && s <= 9223372036854775807i128 {
                Some(Value::Int(s as i64))
            } else {
                None
            }
        }
        AggFunc::Mean => {
            if xs.len() == 0 {
                proof {
                    assert(ints_of(cells).len() == 0);
                }
                Some(Value::Null)
            } else {
                let s = sum128(xs);
                proof {
                    lemma_sum128_bound(int_view(xs@));
                }
                match trunc_div_i128(s, xs.len() as u128) {
                    Some(v) => Some(Value::Int(v)),
                    None => None,
                }
            }
        }
        AggFunc::Median => {
            if xs.len() == 0 {
                proof {
                    assert(ints_of(cells).len() == 0);
                }
                Some(Value::Null)
            } else {
                let ss = sort_i64s(xs);
                proof {
                    lemma_sort_ints_len(int_view(xs@));
                }
                let n = ss.len();
                if n % 2 == 1 {
                    Some(Value::Int(ss[n / 2]))
                } else {
                    let a = ss[n / 2 - 1];
                    let b = ss[n / 2];
                    let t = a as i128 + b as i128;
                    match trunc_div_i128(t, 2) {
                        Some(v) => Some(Value::Int(v)),
                        None => None,
                    }
                }
            }
        }
        AggFunc::Min => {
            if xs.len() == 0 {
                proof {
                    assert(ints_of(cells).len() == 0);
                }
                Some(Value::Null)
            } else {
                let mut cur = xs[0];
                let mut i: usize = 1;
                while i < xs.len()
                    invariant
                        1 <= i <= xs@.len(),
                        xs@.len() >= 1,
                        cur as int == seq_min(int_view(xs@).take(i as int)),
                    decreases xs@.len() - i,
                {
                    proof {
                        assert(int_view(xs@).take(i as int + 1).drop_last()
                            =~= int_view(xs@).take(i as int));
                        assert(int_view(xs@).take(i as int + 1).last() == xs@[i as int] as int);
                    }
                    if xs[i] < cur {
                        cur = xs[i];
                    }
                    i += 1;
                }
                proof {
                    assert(int_view(xs@).take(xs@.len() as int) =~= int_view(xs@));
                }
                Some(Value::Int(cur))
            }
        }
        AggFunc::Max => {
            if xs.len() == 0 {
                proof {
                    assert(ints_of(cells).len() == 0);
                }
                Some(Value::Null)
            } else {
                let mut cur = xs[0];
                let mut i: usize = 1;
                while i < xs.len()
                    invariant
                        1 <= i <= xs@.len(),
                        xs@.len() >= 1,
                        cur as int == seq_max(int_view(xs@).take(i as int)),
                    decreases xs@.len() - i,
                {
                    proof {
                        assert(int_view(xs@).take(i as int + 1).drop_last()
                            =~= int_view(xs@).take(i as int));
                        assert(int_view(xs@).take(i as int + 1).last() == xs@[i as int] as int);
                    }
                    if xs[i] > cur {
                        cur = xs[i];
                    }
                    i += 1;
                }
                proof {
                    assert(int_view(xs@).take(xs@.len() as int) =~= int_view(xs@));
                }
                Some(Value::Int(cur))
            }
        }
    }
}

/// A sum of fewer than `2^63` 64-bit values stays far inside 128 bits.
proof fn lemma_sum128_bound(s: Seq<int>)
    requires
        s.len() < 0x8000000000000000,
        forall|i: int| 0 <= i < s.len()
            ==> -0x8000000000000000 <= #[trigger] s[i] <= 0x7fffffffffffffff,
    ensures
        -0x40000000000000000000000000000000 <= seq_sum(s) <= 0x40000000000000000000000000000000,
    decreases s.len(),
{
    lemma_seq_sum_linear_bound(s);
    assert(s.len() * 0x8000000000000000 <= 0x8000000000000000 * 0x8000000000000000)
        by (nonlinear_arith)
        requires s.len() <= 0x8000000000000000;
}

proof fn lemma_seq_sum_linear_bound(s: Seq<int>)
    requires
        forall|i: int| 0 <= i < s.len()
            ==> -0x8000000000000000 <= #[trigger] s[i] <= 0x7fffffffffffffff,
    ensures
        -(s.len() as int) * 0x8000000000000000 <= seq_sum(s) <= (s.len() as int)
            * 0x8000000000000000,
    decreases s.len(),
{
    if s.len() == 0 {
        assert((0int) * 0x8000000000000000 == 0) by (nonlinear_arith);
    } else {
        assert(forall|i: int| 0 <= i < s.len() - 1 ==> s.drop_last()[i] == s[i]);
        lemma_seq_sum_linear_bound(s.drop_last());
        assert((s.len() as int) * 0x8000000000000000
            == (s.len() - 1) * 0x8000000000000000 + 0x8000000000000000) by (nonlinear_arith);
    }
}

proof fn lemma_sort_ints_len(s: Seq<int>)
    ensures
        sort_ints(s).len() == s.len(),
    decreases s.len(),
{
    if s.len() > 0 {
        lemma_sort_ints_len(s.drop_last());
        lemma_insert_sorted_len(s.last(), sort_ints(s.drop_last()));
    }
}

proof fn lemma_insert_sorted_len(x: int, s: Seq<int>)
    ensures
        insert_sorted(x, s).len() == s.len() + 1,
    decreases s.len(),
{
    if s.len() > 0 && !(x <= s[0]) {
        lemma_insert_sorted_len(x, s.drop_first());
    }
}

/// The grouping and target columns, resolved to their first-occurrence
/// indices.
pub open spec fn resolve_idx(t: Seq<ColumnModel>, names: Seq<String>) -> Seq<int> {
    names.map_values(|s: String| first_col(t, s@))
}

/// The aggregation is accepted: unless merely counting, no target column
/// holds text, and every group's reduced value fits a 64-bit cell.
pub open spec fn agg_ok(t: Seq<ColumnModel>, kidx: Seq<int>, aidx: Seq<int>, f: AggFunc) -> bool {
    let p = proj(t, kidx);
    let keys = distinct_seq(p);
    &&& (!(f is Count) ==> forall|x: int|
        0 <= x < aidx.len() ==> crate::filter::col_no_str(t[#[trigger] aidx[x]].cells))
    &&& (forall|x: int, g: int| 0 <= x < aidx.len() && 0 <= g < keys.len()
        ==> reduce_in_range(f, #[trigger] select_cells(t[aidx[x]].cells, occurrences(p, keys[g]))))
}

/// The aggregated table: one column per grouping key holding each group's
/// key cell, then one reduced column per target (or, for a bare count, a
/// single `count` column); one row per distinct key tuple, groups in
/// first-occurrence order.
pub open spec fn spec_aggregate(t: Seq<ColumnModel>, kidx: Seq<int>, aidx: Seq<int>, f: AggFunc) -> Seq<ColumnModel> {
    let p = proj(t, kidx);
    let keys = distinct_seq(p);
    let keycols = Seq::new(kidx.len(), |m: int| ColumnModel {
        name: t[kidx[m]].name,
        cells: keys.map_values(|kv: Seq<ValueModel>| kv[m]),
    });
    if aidx.len() == 0 && f is Count {
        keycols + seq![ColumnModel {
            name: "count"@,
            cells: keys.map_values(|kv: Seq<ValueModel>| ValueModel::Int(occurrences(p, kv).len() as int)),
        }]
    } else {
        keycols + Seq::new(aidx.len(), |x: int| ColumnModel {
            name: t[aidx[x]].name + func_suffix(f),
            cells: keys.map_values(
                |kv: Seq<ValueModel>| spec_reduce(f, select_cells(t[aidx[x]].cells, occurrences(p, kv))),
            ),
        })
    }
}

/// The index of a key among the distinct keys seen so far, if present.
fn find_key(keys: &Vec<Vec<Value>>, key: &Vec<Value>) -> (r: Option<usize>)
    ensures
        match r {
            Some(g) => 0 <= g < keys@.len() && keys@[g as int].deep_view() == key.deep_view(),
            None => forall|q: int|
                0 <= q < keys@.len() ==> (#[trigger] keys@[q]).deep_view() != key.deep_view(),
        },
{
    let mut g: usize = 0;
    while g < keys.len()
        invariant
            g <= keys@.len(),
            forall|q: int| 0 <= q < g ==> (#[trigger] keys@[q]).deep_view() != key.deep_view(),
        decreases keys@.len() - g,
    {
        if crate::table::eq_cells(&keys[g], key) {
            return Some(g);
        }
        g += 1;
    }
    None
}

fn suffix_of(f: &AggFunc) -> (r: &'static str)
    ensures
        r@ == func_suffix(*f),
{
    match f {
        AggFunc::Count => "_count",
        AggFunc::Sum => "_sum",
        AggFunc::Mean => "_mean",
        AggFunc::Median => "_median",
        AggFunc::Min => "_min",
        AggFunc::Max => "_max",
    }
}

/// Walks the rows once, collecting for one group the target column's
/// integer cells (in order) and the group's row count.
fn gather_group(rowkeys: &Vec<Vec<Value>>, key: &Vec<Value>, cells: &Vec<Value>, Ghost(p): Ghost<Seq<Seq<ValueModel>>>) -> (r: (Vec<i64>, usize))
    requires
        rowkeys@.len() == p.len(),
        forall|q: int| 0 <= q < p.len() ==> (#[trigger] rowkeys@[q]).deep_view() == p[q],
        cells@.len() == p.len(),
    ensures
        int_view(r.0@) == ints_of(select_cells(cells.deep_view(), occurrences(p, key.deep_view()))),
        r.1 == occurrences(p, key.deep_view()).len(),
        r.0@.len() <= r.1 <= p.len(),
{
    let ghost kv = key.deep_view();
    let ghost tcol = cells.deep_view();
    let mut xs: Vec<i64> = Vec::new();
    let mut gcnt: usize = 0;
    proof {
        assert(p.take(0) =~= Seq::<Seq<ValueModel>>::empty());
        assert(select_cells(tcol, occurrences(p.take(0), kv)) =~= Seq::<ValueModel>::empty());
        assert(int_view(xs@) =~= ints_of(select_cells(tcol, occurrences(p.take(0), kv))));
    }
    let mut row: usize = 0;
    while row < rowkeys.len()
        invariant
            row <= p.len(),
            rowkeys@.len() == p.len(),
            forall|q: int| 0 <= q < p.len() ==> (#[trigger] rowkeys@[q]).deep_view() == p[q],
            cells@.len() == p.len(),
            kv == key.deep_view(),
            tcol == cells.deep_view(),
            tcol.len() == p.len(),
            int_view(xs@) == ints_of(select_cells(tcol, occurrences(p.take(row as int), kv))),
            gcnt == occurrences(p.take(row as int), kv).len(),
            xs@.len() <= gcnt <= row,
        decreases p.len() - row,
    {
        let ghost pre = p.take(row as int);
        let ghost cur = p.take(row as int + 1);
        proof {
            assert(cur.drop_last() =~= pre);
            assert(cur.last() == p[row as int]);
            lemma_occurrences(pre, kv);
        }
        if crate::table::eq_cells(&rowkeys[row], key) {
            gcnt += 1;
            proof {
                assert(p[row as int] == kv);
                assert(occurrences(cur, kv) == occurrences(pre, kv).push(row as int));
                assert(select_cells(tcol, occurrences(cur, kv))
                    =~= select_cells(tcol, occurrences(pre, kv)).push(tcol[row as int]));
                assert(select_cells(tcol, occurrences(cur, kv)).drop_last()
                    =~= select_cells(tcol, occurrences(pre, kv)));
                assert(select_cells(tcol, occurrences(cur, kv)).last() == tcol[row as int]);
                assert(tcol[row as int] == cells@[row as int]@);
            }
            match &cells[row] {
                Value::Int(v) => {
                    xs.push(*v);
                    proof {
                        assert(ints_of(select_cells(tcol, occurrences(cur, kv)))
                            == ints_of(select_cells(tcol, occurrences(pre, kv))).push(*v as int));
                        assert(int_view(xs@) =~= ints_of(select_cells(tcol, occurrences(cur, kv))));
                    }
                }
                _ => {
                    proof {
                        assert(ints_of(select_cells(tcol, occurrences(cur, kv)))
                            == ints_of(select_cells(tcol, occurrences(pre, kv))));
                        assert(int_view(xs@) =~= ints_of(select_cells(tcol, occurrences(cur, kv))));
                    }
                }
            }
        } else {
            proof {
                assert(p[row as int] != kv);
                assert(occurrences(cur, kv) == occurrences(pre, kv));
            }
        }
        row += 1;
    }
    proof {
        assert(p.take(p.len() as int) =~= p);
    }
    (xs, gcnt)
}

/// Groups the table by the named key columns and reduces the named target
/// columns with the function: one output row per distinct key tuple (in
/// first-occurrence order), holding the group's keys and its reduced
/// values; an empty key list forms one global group per populated table,
/// and an empty target list yields the keys alone — plus a `count` column
/// when merely counting. An unknown name in either list: `ColumnNotFound`.
/// A non-counting reduction over a column holding text, or a reduced value
/// outside the 64-bit range: `BackendEvaluationError`. Repeated names are
/// tolerated and reduced redundantly.
pub fn aggregate_table(table: &Table, groupby: &Vec<String>, aggcols: &Vec<String>, aggfunc: &AggFunc) -> (r: Result<Table, EngineError>)
    requires
        table_wf(table@),
        table_height(table@) < 0x8000000000000000,
    ensures
        match r {
            Ok(out) => {
                &&& forall|m: int| 0 <= m < groupby@.len()
                    ==> crate::table::has_col(table@, (#[trigger] groupby@[m])@)
                &&& forall|m: int| 0 <= m < aggcols@.len()
                    ==> crate::table::has_col(table@, (#[trigger] aggcols@[m])@)
                &&& agg_ok(table@, resolve_idx(table@, groupby@), resolve_idx(table@, aggcols@), *aggfunc)
                &&& out@ == spec_aggregate(table@, resolve_idx(table@, groupby@), resolve_idx(table@, aggcols@), *aggfunc)
                &&& table_wf(out@)
            },
            Err(EngineError::ColumnNotFound) => {
                (exists|m: int| 0 <= m < groupby@.len()
                    && !crate::table::has_col(table@, (#[trigger] groupby@[m])@))
                || (exists|m: int| 0 <= m < aggcols@.len()
                    && !crate::table::has_col(table@, (#[trigger] aggcols@[m])@))
            },
            Err(EngineError::BackendEvaluationError) => {
                &&& forall|m: int| 0 <= m < groupby@.len()
                    ==> crate::table::has_col(table@, (#[trigger] groupby@[m])@)
                &&& forall|m: int| 0 <= m < aggcols@.len()
                    ==> crate::table::has_col(table@, (#[trigger] aggcols@[m])@)
                &&& !agg_ok(table@, resolve_idx(table@, groupby@), resolve_idx(table@, aggcols@), *aggfunc)
            },
            Err(_) => false,
        },
{
    let ghost t = table@;
    let ghost h = table_height(t);

    // Resolve both name lists; a single absence refuses the operation.
    let mut kidx: Vec<usize> = Vec::new();
    let mut m: usize = 0;
    while m < groupby.len()
        invariant
            m <= groupby@.len(),
            t == table@,
            kidx@.len() == m,
            forall|q: int| 0 <= q < m ==> {
                &&& crate::table::is_first_col(t, (#[trigger] groupby@[q])@, kidx@[q] as int)
                &&& kidx@[q] as int == resolve_idx(t, groupby@)[q]
            },
        decreases groupby@.len() - m,
    {
        match table.find_column(groupby[m].as_str()) {
            Some(k) => {
                proof {
                    crate::table::lemma_first_col_unique(t, groupby@[m as int]@, k as int);
                }
                kidx.push(k);
            }
            None => {
                return Err(EngineError::ColumnNotFound);
            }
        }
        m += 1;
    }
    let mut aidx: Vec<usize> = Vec::new();
    let mut m: usize = 0;
    while m < aggcols.len()
        invariant
            m <= aggcols@.len(),
            t == table@,
            aidx@.len() == m,
            forall|q: int| 0 <= q < m ==> {
                &&& crate::table::is_first_col(t, (#[trigger] aggcols@[q])@, aidx@[q] as int)
                &&& aidx@[q] as int == resolve_idx(t, aggcols@)[q]
            },
        decreases aggcols@.len() - m,
    {
        match table.find_column(aggcols[m].as_str()) {
            Some(k) => {
                proof {
                    crate::table::lemma_first_col_unique(t, aggcols@[m as int]@, k as int);
                }
                aidx.push(k);
            }
            None => {
                return Err(EngineError::ColumnNotFound);
            }
        }
        m += 1;
    }
    let ghost kidxs = resolve_idx(t, groupby@);
    let ghost aidxs = resolve_idx(t, aggcols@);
    proof {
        assert(kidx@.map_values(|u: usize| u as int) =~= kidxs);
        assert(aidx@.map_values(|u: usize| u as int) =~= aidxs);
    }

    // Unless merely counting, a target column holding text is refused.
    let counting = match aggfunc {
        AggFunc::Count => true,
        _ => false,
    };
    if !counting {
        let mut x: usize = 0;
        while x < aidx.len()
            invariant
                x <= aidx@.len(),
                t == table@,
                t.len() == table.columns@.len(),
                groupby@.len() == kidxs.len(),
                aggcols@.len() == aidxs.len(),
                aidx@.len() == aidxs.len(),
                kidxs == resolve_idx(t, groupby@),
                aidxs == resolve_idx(t, aggcols@),
                !(*aggfunc is Count),
                forall|q: int| 0 <= q < kidxs.len()
                    ==> crate::table::is_first_col(t, (#[trigger] groupby@[q])@, kidxs[q]),
                forall|q: int| 0 <= q < aidxs.len()
                    ==> crate::table::is_first_col(t, (#[trigger] aggcols@[q])@, aidxs[q]),
                forall|q: int| 0 <= q < aidx@.len()
                    ==> (#[trigger] aidx@[q]) as int == aidxs[q] && 0 <= aidxs[q] < t.len(),
                forall|q: int| 0 <= q < x
                    ==> crate::filter::col_no_str(t[#[trigger] aidxs[q]].cells),
            decreases aidx@.len() - x,
        {
            proof {
                assert(aidx@[x as int] as int == aidxs[x as int]);
            }
            let cells = &table.columns[aidx[x]].cells;
            proof {
                assert(table.columns@[aidx@[x as int] as int].deep_view()
                    == t[aidxs[x as int]]);
                assert(cells.deep_view() == t[aidxs[x as int]].cells);
            }
            let mut r: usize = 0;
            while r < cells.len()
                invariant
                    r <= cells@.len(),
                    x < aidxs.len(),
                    t == table@,
                    groupby@.len() == kidxs.len(),
                    aggcols@.len() == aidxs.len(),
                    kidxs == resolve_idx(t, groupby@),
                    aidxs == resolve_idx(t, aggcols@),
                    !(*aggfunc is Count),
                    forall|q: int| 0 <= q < kidxs.len()
                        ==> crate::table::is_first_col(t, (#[trigger] groupby@[q])@, kidxs[q]),
                    forall|q: int| 0 <= q < aidxs.len()
                        ==> crate::table::is_first_col(t, (#[trigger] aggcols@[q])@, aidxs[q]),
                    cells.deep_view() == t[aidxs[x as int]].cells,
                    cells@.len() == cells.deep_view().len(),
                    forall|q: int| 0 <= q < r ==> !((#[trigger] cells.deep_view()[q]) is Str),
                decreases cells@.len() - r,
            {
                proof {
                    assert(cells.deep_view()[r as int] == cells@[r as int]@);
                }
                match &cells[r] {
                    Value::Str(_) => {
                        proof {
                            assert(!crate::filter::col_no_str(t[aidxs[x as int]].cells));
                            assert(!agg_ok(t, kidxs, aidxs, *aggfunc));
                        }
                        return Err(EngineError::BackendEvaluationError);
                    }
                    _ => {}
                }
                r += 1;
            }
            proof {
                assert(crate::filter::col_no_str(t[aidxs[x as int]].cells));
            }
            x += 1;
        }
    }

    // The key tuple of every row, then the distinct tuples in order.
    let height = table.height();
    let ghost p = proj(t, kidxs);
    let mut rowkeys: Vec<Vec<Value>> = Vec::new();
    let mut row: usize = 0;
    while row < height
        invariant
            row <= h,
            t == table@,
            table_wf(t),
            h == table_height(t),
            height == h,
            t.len() == table.columns@.len(),
            p == proj(t, kidxs),
            kidx@.len() == kidxs.len(),
            forall|q: int| 0 <= q < kidxs.len() ==> {
                &&& 0 <= kidxs[q] < t.len()
                &&& kidx@[q] as int == kidxs[q]
            },
            rowkeys@.len() == row,
            forall|q: int| 0 <= q < row ==> (#[trigger] rowkeys@[q]).deep_view() == p[q],
            forall|q: int| 0 <= q < row ==> (#[trigger] rowkeys@[q])@.len() == kidxs.len(),
        decreases h - row,
    {
        let mut key: Vec<Value> = Vec::new();
        let mut m2: usize = 0;
        while m2 < kidx.len()
            invariant
                m2 <= kidx@.len(),
                row < h,
                t == table@,
                table_wf(t),
                h == table_height(t),
                t.len() == table.columns@.len(),
                kidx@.len() == kidxs.len(),
                forall|q: int| 0 <= q < kidxs.len() ==> {
                    &&& 0 <= kidxs[q] < t.len()
                    &&& kidx@[q] as int == kidxs[q]
                },
                key@.len() == m2,
                forall|q: int| 0 <= q < m2 ==> (#[trigger] key@[q])@ == t[kidxs[q]].cells[row as int],
            decreases kidx@.len() - m2,
        {
            proof {
                assert(kidx@[m2 as int] as int == kidxs[m2 as int]);
            }
            let c = &table.columns[kidx[m2]];
            proof {
                assert(table.columns@[kidx@[m2 as int] as int].deep_view() == t[kidxs[m2 as int]]);
                assert(c@ == t[kidxs[m2 as int]]);
                assert(c.cells@.len() == c.cells.deep_view().len());
                assert(c.cells.deep_view() == t[kidxs[m2 as int]].cells);
                assert(c.cells.deep_view().len() == table_height(t));
                assert(c.cells.deep_view()[row as int] == c.cells@[row as int]@);
            }
            key.push(c.cells[row].duplicate());
            m2 += 1;
        }
        rowkeys.push(key);
        proof {
            assert(rowkeys@[row as int].deep_view() =~= proj_row(t, kidxs, row as int));
            assert(p[row as int] == proj_row(t, kidxs, row as int));
        }
        row += 1;
    }

    let mut keys: Vec<Vec<Value>> = Vec::new();
    proof {
        assert(p.take(0) =~= Seq::<Seq<ValueModel>>::empty());
        assert(keys@.map_values(|k: Vec<Value>| k.deep_view()) =~= distinct_seq(p.take(0)));
    }
    let mut row: usize = 0;
    while row < rowkeys.len()
        invariant
            row <= p.len(),
            rowkeys@.len() == p.len(),
            p.len() == h,
            forall|q: int| 0 <= q < p.len() ==> (#[trigger] rowkeys@[q]).deep_view() == p[q],
            forall|q: int| 0 <= q < p.len() ==> (#[trigger] rowkeys@[q])@.len() == kidxs.len(),
            keys@.map_values(|k: Vec<Value>| k.deep_view()) == distinct_seq(p.take(row as int)),
            keys@.len() <= row,
            forall|q: int| 0 <= q < keys@.len() ==> (#[trigger] keys@[q])@.len() == kidxs.len(),
        decreases p.len() - row,
    {
        let ghost pre = p.take(row as int);
        let ghost cur = p.take(row as int + 1);
        proof {
            assert(cur.drop_last() =~= pre);
            assert(cur.last() == p[row as int]);
        }
        match find_key(&keys, &rowkeys[row]) {
            Some(_) => {
                proof {
                    let kd = keys@.map_values(|k: Vec<Value>| k.deep_view());
                    assert(kd.contains(p[row as int])) by {
                        let g = choose|g: int|
                            0 <= g < keys@.len() && keys@[g].deep_view() == rowkeys@[row as int].deep_view();
                        assert(kd[g] == p[row as int]);
                    }
                    assert(distinct_seq(cur) == distinct_seq(pre));
                }
            }
            None => {
                let fresh = crate::table::duplicate_cells(&rowkeys[row]);
                keys.push(fresh);
                proof {
                    let kd = keys@.map_values(|k: Vec<Value>| k.deep_view());
                    assert(!distinct_seq(pre).contains(p[row as int])) by {
                        if distinct_seq(pre).contains(p[row as int]) {
                            let g = choose|g: int|
                                0 <= g < distinct_seq(pre).len()
                                    && distinct_seq(pre)[g] == p[row as int];
                            assert(keys@[g].deep_view()
                                == keys@.map_values(|k: Vec<Value>| k.deep_view())[g]);
                        }
                    }
                    assert(kd =~= distinct_seq(cur));
                }
            }
        }
        row += 1;
    }
    proof {
        assert(p.take(p.len() as int) =~= p);
    }
    let ghost dk = distinct_seq(p);
    proof {
        assert(keys@.map_values(|k: Vec<Value>| k.deep_view()) == dk);
        assert(forall|g: int| 0 <= g < keys@.len()
            ==> (#[trigger] keys@[g]).deep_view() == dk[g]);
        lemma_distinct_seq(p);
    }

    // Assemble the output: key columns, then the reduced columns.
    let mut columns: Vec<Column> = Vec::new();
    let mut m: usize = 0;
    while m < kidx.len()
        invariant
            m <= kidx@.len(),
            t == table@,
            table_wf(t),
            t.len() == table.columns@.len(),
            kidx@.len() == kidxs.len(),
            kidxs == resolve_idx(t, groupby@),
            groupby@.len() == kidxs.len(),
            forall|q: int| 0 <= q < kidxs.len() ==> {
                &&& 0 <= kidxs[q] < t.len()
                &&& kidx@[q] as int == kidxs[q]
                &&& crate::table::is_first_col(t, groupby@[q]@, kidxs[q])
            },
            dk == distinct_seq(p),
            keys@.map_values(|k: Vec<Value>| k.deep_view()) == dk,
            keys@.len() == dk.len(),
            forall|g: int| 0 <= g < keys@.len() ==> (#[trigger] keys@[g]).deep_view() == dk[g],
            forall|g: int| 0 <= g < keys@.len() ==> (#[trigger] keys@[g])@.len() == kidxs.len(),
            columns@.len() == m,
            forall|w: int| 0 <= w < m ==> (#[trigger] columns@[w])@ == (ColumnModel {
                name: t[kidxs[w]].name,
                cells: dk.map_values(|kv: Seq<ValueModel>| kv[w]),
            }),
        decreases kidx@.len() - m,
    {
        let mut cells: Vec<Value> = Vec::new();
        let mut g: usize = 0;
        while g < keys.len()
            invariant
                g <= keys@.len(),
                m < kidxs.len(),
                keys@.len() == dk.len(),
                forall|q: int| 0 <= q < keys@.len() ==> (#[trigger] keys@[q]).deep_view() == dk[q],
                forall|q: int| 0 <= q < keys@.len() ==> (#[trigger] keys@[q])@.len() == kidxs.len(),
                cells@.len() == g,
                forall|q: int| 0 <= q < g ==> (#[trigger] cells@[q])@ == dk[q][m as int],
            decreases keys@.len() - g,
        {
            proof {
                assert(keys@[g as int].deep_view()[m as int] == keys@[g as int]@[m as int]@);
            }
            cells.push(keys[g][m].duplicate());
            g += 1;
        }
        columns.push(Column { name: groupby[m].clone(), cells });
        proof {
            assert(columns@[m as int]@.cells =~= dk.map_values(|kv: Seq<ValueModel>| kv[m as int]));
            assert(columns@[m as int]@ =~= (ColumnModel {
                name: t[kidxs[m as int]].name,
                cells: dk.map_values(|kv: Seq<ValueModel>| kv[m as int]),
            }));
        }
        m += 1;
    }

    if aggcols.len() == 0 && counting {
        // A bare count: the group keys plus each group's row count.
        let mut cells: Vec<Value> = Vec::new();
        let mut g: usize = 0;
        while g < keys.len()
            invariant
                g <= keys@.len(),
                rowkeys@.len() == p.len(),
                p.len() == h,
                height == h,
                h < 0x8000000000000000,
                forall|q: int| 0 <= q < p.len() ==> (#[trigger] rowkeys@[q]).deep_view() == p[q],
                keys@.len() == dk.len(),
                forall|q: int| 0 <= q < keys@.len() ==> (#[trigger] keys@[q]).deep_view() == dk[q],
                cells@.len() == g,
                forall|q: int| 0 <= q < g
                    ==> (#[trigger] cells@[q])@ == ValueModel::Int(occurrences(p, dk[q]).len() as int),
            decreases keys@.len() - g,
        {
            let nulls = none_cells(height);
            let (_, gcnt) = gather_group(&rowkeys, &keys[g], &nulls, Ghost(p));
            cells.push(Value::Int(gcnt as i64));
            g += 1;
        }
        columns.push(Column { name: count_name(), cells });
        proof {
            assert(columns@[kidxs.len() as int]@ =~= (ColumnModel {
                name: "count"@,
                cells: dk.map_values(
                    |kv: Seq<ValueModel>| ValueModel::Int(occurrences(p, kv).len() as int),
                ),
            }));
        }
    } else {
        let mut x: usize = 0;
        while x < aidx.len()
            invariant
                x <= aidx@.len(),
                t == table@,
                table_wf(t),
                t.len() == table.columns@.len(),
                h == table_height(t),
                h < 0x8000000000000000,
                aidx@.len() == aidxs.len(),
                aidxs == resolve_idx(t, aggcols@),
                kidxs == resolve_idx(t, groupby@),
                groupby@.len() == kidxs.len(),
                aggcols@.len() == aidxs.len(),
                forall|q: int| 0 <= q < kidxs.len()
                    ==> crate::table::is_first_col(t, (#[trigger] groupby@[q])@, kidxs[q]),
                forall|q: int| 0 <= q < aidxs.len()
                    ==> crate::table::is_first_col(t, (#[trigger] aggcols@[q])@, aidxs[q]),
                forall|q: int| 0 <= q < aidxs.len() ==> {
                    &&& 0 <= aidxs[q] < t.len()
                    &&& aidx@[q] as int == aidxs[q]
                },
                !counting ==> forall|q: int| 0 <= q < aidxs.len()
                    ==> crate::filter::col_no_str(t[#[trigger] aidxs[q]].cells),
                counting == (*aggfunc is Count),
                p == proj(t, kidxs),
                p.len() == h,
                rowkeys@.len() == p.len(),
                forall|q: int| 0 <= q < p.len() ==> (#[trigger] rowkeys@[q]).deep_view() == p[q],
                dk == distinct_seq(p),
                keys@.len() == dk.len(),
                forall|g: int| 0 <= g < keys@.len() ==> (#[trigger] keys@[g]).deep_view() == dk[g],
                columns@.len() == kidxs.len() + x,
                forall|w: int| 0 <= w < kidxs.len() ==> (#[trigger] columns@[w])@ == (ColumnModel {
                    name: t[kidxs[w]].name,
                    cells: dk.map_values(|kv: Seq<ValueModel>| kv[w]),
                }),
                forall|w: int| kidxs.len() <= w < columns@.len()
                    ==> (#[trigger] columns@[w])@ == (ColumnModel {
                    name: t[aidxs[w - kidxs.len()]].name + func_suffix(*aggfunc),
                    cells: dk.map_values(
                        |kv: Seq<ValueModel>| spec_reduce(
                            *aggfunc,
                            select_cells(t[aidxs[w - kidxs.len()]].cells, occurrences(p, kv)),
                        ),
                    ),
                }),
                forall|x2: int, g: int| 0 <= x2 < x && 0 <= g < dk.len()
                    ==> reduce_in_range(
                        *aggfunc,
                        #[trigger] select_cells(t[aidxs[x2]].cells, occurrences(p, dk[g])),
                    ),
            decreases aidx@.len() - x,
        {
            let tcolv = &table.columns[aidx[x]].cells;
            proof {
                assert(table.columns@[aidx@[x as int] as int].deep_view() == t[aidxs[x as int]]);
                assert(tcolv.deep_view() == t[aidxs[x as int]].cells);
                assert(tcolv@.len() == tcolv.deep_view().len());
                assert(tcolv@.len() == table_height(t));
            }
            let mut cells: Vec<Value> = Vec::new();
            let mut g: usize = 0;
            while g < keys.len()
                invariant
                    g <= keys@.len(),
                    x < aidxs.len(),
                    0 <= aidxs[x as int] < t.len(),
                    t == table@,
                    t.len() == table.columns@.len(),
                    h < 0x8000000000000000,
                    groupby@.len() == kidxs.len(),
                    aggcols@.len() == aidxs.len(),
                    kidxs == resolve_idx(t, groupby@),
                    aidxs == resolve_idx(t, aggcols@),
                    forall|q: int| 0 <= q < kidxs.len()
                        ==> crate::table::is_first_col(t, (#[trigger] groupby@[q])@, kidxs[q]),
                    forall|q: int| 0 <= q < aidxs.len()
                        ==> crate::table::is_first_col(t, (#[trigger] aggcols@[q])@, aidxs[q]),
                    p == proj(t, kidxs),
                    dk == distinct_seq(p),
                    tcolv.deep_view() == t[aidxs[x as int]].cells,
                    tcolv@.len() == p.len(),
                    p.len() == h,
                    rowkeys@.len() == p.len(),
                    forall|q: int| 0 <= q < p.len() ==> (#[trigger] rowkeys@[q]).deep_view() == p[q],
                    keys@.len() == dk.len(),
                    forall|q: int| 0 <= q < keys@.len() ==> (#[trigger] keys@[q]).deep_view() == dk[q],
                    cells@.len() == g,
                    forall|q: int| 0 <= q < g ==> (#[trigger] cells@[q])@ == spec_reduce(
                        *aggfunc,
                        select_cells(t[aidxs[x as int]].cells, occurrences(p, dk[q])),
                    ),
                    forall|q: int| 0 <= q < g ==> reduce_in_range(
                        *aggfunc,
                        #[trigger] select_cells(t[aidxs[x as int]].cells, occurrences(p, dk[q])),
                    ),
                decreases keys@.len() - g,
            {
                let (xs, gcnt) = gather_group(&rowkeys, &keys[g], tcolv, Ghost(p));
                let ghost gcells = select_cells(tcolv.deep_view(), occurrences(p, dk[g as int]));
                proof {
                    lemma_occurrences(p, dk[g as int]);
                    assert(gcells.len() == occurrences(p, dk[g as int]).len());
                }
                match exec_reduce(aggfunc, &xs, gcnt, Ghost(gcells)) {
                    Some(v) => {
                        cells.push(v);
                    }
                    None => {
                        proof {
                            assert(!reduce_in_range(
                                *aggfunc,
                                select_cells(t[aidxs[x as int]].cells, occurrences(p, dk[g as int])),
                            ));
                            assert(!agg_ok(t, kidxs, aidxs, *aggfunc));
                        }
                        return Err(EngineError::BackendEvaluationError);
                    }
                }
                g += 1;
            }
            let mut nm = table.columns[aidx[x]].name.clone();
            nm.append(suffix_of(aggfunc));
            columns.push(Column { name: nm, cells });
            proof {
                let w = kidxs.len() as int + x as int;
                assert(columns@[w]@.cells =~= dk.map_values(
                    |kv: Seq<ValueModel>| spec_reduce(
                        *aggfunc,
                        select_cells(t[aidxs[w - kidxs.len()]].cells, occurrences(p, kv)),
                    ),
                ));
                assert(columns@[w]@ =~= (ColumnModel {
                    name: t[aidxs[w - kidxs.len()]].name + func_suffix(*aggfunc),
                    cells: dk.map_values(
                        |kv: Seq<ValueModel>| spec_reduce(
                            *aggfunc,
                            select_cells(t[aidxs[w - kidxs.len()]].cells, occurrences(p, kv)),
                        ),
                    ),
                }));
            }
            x += 1;
        }
    }

    let out = Table { columns };
    proof {
        assert(forall|w: int| 0 <= w < out@.len() ==> #[trigger] out@[w] == columns@[w]@);
        assert(out@ =~= spec_aggregate(t, kidxs, aidxs, *aggfunc));
        assert(table_wf(out@)) by {
            assert(forall|w: int| 0 <= w < out@.len()
                ==> (#[trigger] out@[w].cells).len() == dk.len());
        }
    }
    Ok(out)
}

fn count_name() -> (r: String)
    ensures
        r@ == "count"@,
{
    let r: String = "count".to_owned();
    r
}

/// A column of nulls, standing in for the absent target column of a bare
/// count.
fn none_cells(n: usize) -> (r: Vec<Value>)
    ensures
        r@.len() == n,
{
    let mut out: Vec<Value> = Vec::new();
    let mut i: usize = 0;
    while i < n
        invariant
            i <= n,
            out@.len() == i,
        decreases n - i,
    {
        out.push(Value::Null);
        i += 1;
    }
    out
}

} // verus!
