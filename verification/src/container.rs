//! The managed table container: a titled binding to a current table, its
//! cached shape and column names, and the per-operation pending
//! configurations. Transformations never mutate a table; "in place" means
//! replacing the container's table binding.

use vstd::prelude::*;
use crate::aggregate::{AggFunc, DataFrameAggregate, agg_ok, aggregate_table, resolve_idx, spec_aggregate};
use crate::error::EngineError;
use crate::filter::{DataFrameFilter, FilterOps, apply_filter, filter_type_ok, spec_filter};
use crate::join::{DataFrameJoin, JoinType, join_tables, spec_join};
use crate::melt::{DataFrameMelt, melt_table};
use crate::summary::DataFrameSummary;
use crate::table::{ColumnModel, Table, has_col, is_first_col, table_height, table_wf};
use crate::value::spec_parse_num;

verus! {

/// One live table with its display state and pending operation
/// configurations.
#[derive(Debug)]
pub struct DataFrameContainer {
    pub title: String,
    pub shape: (usize, usize),
    pub data: Table,
    pub summary: DataFrameSummary,
    pub columns: Vec<String>,
    pub data_display: bool,
    pub is_open: bool,
    pub show_datatypes: bool,
    pub filter: DataFrameFilter,
    pub aggregate: DataFrameAggregate,
    pub melt: DataFrameMelt,
    pub join: DataFrameJoin,
}

impl DataFrameContainer {
    /// The container invariant: the cached shape and column names always
    /// agree with the current table, and the table is well-formed.
    pub open spec fn wf(self) -> bool {
        &&& table_wf(self.data@)
        &&& self.shape.0 == table_height(self.data@)
        &&& self.shape.1 == self.data@.len()
        &&& self.columns@.len() == self.data@.len()
        &&& forall|i: int| 0 <= i < self.columns@.len()
            ==> (#[trigger] self.columns@[i])@ == self.data@[i].name
        &&& (self.filter.filtered_data matches Some(t) ==> table_wf(t@))
        &&& (self.aggregate.aggdata matches Some(t) ==> table_wf(t@))
        &&& (self.melt.meltdata matches Some(t) ==> table_wf(t@))
        &&& (self.join.joindata matches Some(t) ==> table_wf(t@))
    }

    /// A fresh container around a table: caches derived, window open,
    /// every operation configuration at its default.
    pub fn new(df: Table, title: &str) -> (r: Self)
        requires
            table_wf(df@),
        ensures
            r.wf(),
            r.title@ == title@,
            r.data@ == df@,
            r.summary.is_default(),
            r.data_display == false,
            r.is_open == true,
            r.show_datatypes == false,
            r.filter.is_default(),
            r.aggregate.is_default(),
            r.melt.is_default(),
            r.join.is_default(),
    {
        let shape = df.shape();
        let columns = df.column_names();
        DataFrameContainer {
            title: title.to_owned(),
            shape,
            data: df,
            summary: DataFrameSummary::default(),
            columns,
            data_display: false,
            is_open: true,
            show_datatypes: false,
            filter: DataFrameFilter::default(),
            aggregate: DataFrameAggregate::default(),
            melt: DataFrameMelt::default(),
            join: DataFrameJoin::default(),
        }
    }

    /// The filter engine, reachable from a container: evaluates the
    /// predicate against the given table and returns the matching rows;
    /// the container itself is untouched (placement is the caller's).
    pub fn filter_dataframe(&mut self, df: Table, column: &str, operation: &FilterOps, value: &str) -> (r: Result<Table, EngineError>)
        requires
            table_wf(df@),
        ensures
            *final(self) == *old(self),
            match r {
                Ok(out) => exists|k: int|
                    {
                        &&& #[trigger] is_first_col(df@, column@, k)
                        &&& filter_type_ok(*operation, df@[k].cells)
                        &&& out@ == spec_filter(df@, k, *operation, spec_parse_num(value@), value@)
                    },
                Err(EngineError::ColumnNotFound) => !has_col(df@, column@),
                Err(EngineError::BackendEvaluationError) => exists|k: int|
                    {
                        &&& #[trigger] is_first_col(df@, column@, k)
                        &&& !filter_type_ok(*operation, df@[k].cells)
                    },
                Err(_) => false,
            },
    {
        apply_filter(&df, column, operation, value)
    }

    /// The aggregation engine, reachable from a container; the container
    /// itself is untouched.
    pub fn aggregate_dataframe(&mut self, df: Table, groupby: &Vec<String>, aggcols: &Vec<String>, aggfunc: &AggFunc) -> (r: Result<Table, EngineError>)
        requires
            table_wf(df@),
            table_height(df@) < 0x8000000000000000,
        ensures
            *final(self) == *old(self),
            match r {
                Ok(out) => {
                    &&& forall|m: int| 0 <= m < groupby@.len()
                        ==> has_col(df@, (#[trigger] groupby@[m])@)
                    &&& forall|m: int| 0 <= m < aggcols@.len()
                        ==> has_col(df@, (#[trigger] aggcols@[m])@)
                    &&& agg_ok(df@, resolve_idx(df@, groupby@), resolve_idx(df@, aggcols@), *aggfunc)
                    &&& out@ == spec_aggregate(df@, resolve_idx(df@, groupby@), resolve_idx(df@, aggcols@), *aggfunc)
                    &&& table_wf(out@)
                },
                Err(EngineError::ColumnNotFound) => {
                    (exists|m: int| 0 <= m < groupby@.len()
                        && !has_col(df@, (#[trigger] groupby@[m])@))
                    || (exists|m: int| 0 <= m < aggcols@.len()
                        && !has_col(df@, (#[trigger] aggcols@[m])@))
                },
                Err(EngineError::BackendEvaluationError) => {
                    &&& forall|m: int| 0 <= m < groupby@.len()
                        ==> has_col(df@, (#[trigger] groupby@[m])@)
                    &&& forall|m: int| 0 <= m < aggcols@.len()
                        ==> has_col(df@, (#[trigger] aggcols@[m])@)
                    &&& !agg_ok(df@, resolve_idx(df@, groupby@), resolve_idx(df@, aggcols@), *aggfunc)
                },
                Err(_) => false,
            },
    {
        aggregate_table(&df, groupby, aggcols, aggfunc)
    }

    /// Runs the pending filter against the container's own table and
    /// stages the result; on any error the container's table is left
    /// unchanged and nothing is staged.
    pub fn run_filter(&mut self) -> (r: Result<(), EngineError>)
        requires
            old(self).wf(),
        ensures
            final(self).wf(),
            final(self).data == old(self).data,
            final(self).title == old(self).title,
            match r {
                Ok(()) => {
                    &&& final(self).filter.filtered_data matches Some(out) && exists|k: int|
                        {
                            &&& #[trigger] is_first_col(old(self).data@, old(self).filter.column@, k)
                            &&& filter_type_ok(old(self).filter.operation, old(self).data@[k].cells)
                            &&& out@ == spec_filter(
                                old(self).data@,
                                k,
                                old(self).filter.operation,
                                spec_parse_num(old(self).filter.value@),
                                old(self).filter.value@,
                            )
                        }
                    &&& *final(self) == (DataFrameContainer {
                        filter: DataFrameFilter {
                            filtered_data: final(self).filter.filtered_data,
                            ..old(self).filter
                        },
                        ..*old(self)
                    })
                },
                Err(_) => *final(self) == *old(self),
            },
            r is Err ==> match r {
                Err(EngineError::ColumnNotFound) => !has_col(old(self).data@, old(self).filter.column@),
                Err(EngineError::BackendEvaluationError) => exists|k: int|
                    {
                        &&& #[trigger] is_first_col(old(self).data@, old(self).filter.column@, k)
                        &&& !filter_type_ok(old(self).filter.operation, old(self).data@[k].cells)
                    },
                _ => false,
            },
    {
        let r = apply_filter(&self.data, self.filter.column.as_str(), &self.filter.operation, self.filter.value.as_str());
        match r {
            Ok(out) => {
                proof {
                    let k = choose|k: int|
                        {
                            &&& #[trigger] is_first_col(old(self).data@, old(self).filter.column@, k)
                            &&& filter_type_ok(old(self).filter.operation, old(self).data@[k].cells)
                            &&& out@ == spec_filter(
                                old(self).data@,
                                k,
                                old(self).filter.operation,
                                spec_parse_num(old(self).filter.value@),
                                old(self).filter.value@,
                            )
                        };
                    crate::filter::lemma_filter_correct(
                        old(self).data@,
                        k,
                        old(self).filter.operation,
                        spec_parse_num(old(self).filter.value@),
                        old(self).filter.value@,
                    );
                }
                self.filter.filtered_data = Some(out);
                Ok(())
            }
            Err(e) => Err(e),
        }
    }
}

/// How a successful join's output relates to its two source tables.
#[verifier::opaque]
pub open spec fn join_result_is(lt: Seq<ColumnModel>, rt: Seq<ColumnModel>, lon: Seq<char>, ron: Seq<char>, how: JoinType, out: Seq<ColumnModel>) -> bool {
    if how is Cross {
        out == spec_join(lt, rt, 0, 0, JoinType::Cross)
    } else {
        exists|lk: int, rk: int|
            {
                &&& #[trigger] is_first_col(lt, lon, lk)
                &&& #[trigger] is_first_col(rt, ron, rk)
                &&& out == spec_join(lt, rt, lk, rk, how)
            }
    }
}

/// When a join is owed a result: always for cross, else when both key
/// columns exist.
pub open spec fn join_succeeds(lt: Seq<ColumnModel>, rt: Seq<ColumnModel>, lon: Seq<char>, ron: Seq<char>, how: JoinType) -> bool {
    how is Cross || (has_col(lt, lon) && has_col(rt, ron))
}

impl DataFrameContainer {
    /// One join attempt against a peer table, the edge-triggered heart of
    /// the join operation (the trigger flag is cleared by the caller once
    /// per click). `Ok(Some(t))`: a result to be spawned as a new
    /// container. `Ok(None)`: applied in place — the container's table,
    /// cached shape and columns are replaced and its summary invalidated.
    /// On every error the container is left unchanged.
    pub fn join_dataframe(&mut self, peer: &Table) -> (r: Result<Option<Table>, EngineError>)
        requires
            old(self).wf(),
            table_wf(peer@),
        ensures
            final(self).wf(),
            final(self).title == old(self).title,
            r is Ok <==> join_succeeds(
                old(self).data@,
                peer@,
                old(self).join.left_on_selection@,
                old(self).join.right_on_selection@,
                old(self).join.how,
            ),
            match r {
                Ok(Some(out)) => {
                    &&& !old(self).join.inplace
                    &&& join_result_is(
                        old(self).data@,
                        peer@,
                        old(self).join.left_on_selection@,
                        old(self).join.right_on_selection@,
                        old(self).join.how,
                        out@,
                    )
                    &&& table_wf(out@)
                    &&& *final(self) == *old(self)
                },
                Ok(None) => {
                    &&& old(self).join.inplace
                    &&& join_result_is(
                        old(self).data@,
                        peer@,
                        old(self).join.left_on_selection@,
                        old(self).join.right_on_selection@,
                        old(self).join.how,
                        final(self).data@,
                    )
                    &&& final(self).summary.summary_data is None
                    &&& final(self).filter == old(self).filter
                    &&& final(self).aggregate == old(self).aggregate
                    &&& final(self).melt == old(self).melt
                    &&& final(self).join == old(self).join
                },
                Err(EngineError::ColumnNotFound) => {
                    &&& *final(self) == *old(self)
                    &&& !(old(self).join.how is Cross)
                    &&& !has_col(old(self).data@, old(self).join.left_on_selection@)
                        || !has_col(peer@, old(self).join.right_on_selection@)
                },
                Err(_) => false,
            },
    {
        proof {
            reveal(join_result_is);
        }
        let r = join_tables(
            &self.data,
            peer,
            self.join.left_on_selection.as_str(),
            self.join.right_on_selection.as_str(),
            &self.join.how,
        );
        match r {
            Ok(out) => {
                if self.join.inplace {
                    self.data = out;
                    self.shape = self.data.shape();
                    self.columns = self.data.column_names();
                    self.summary.summary_data = None;
                    Ok(None)
                } else {
                    Ok(Some(out))
                }
            }
            Err(e) => Err(e),
        }
    }
}

} // verus!
