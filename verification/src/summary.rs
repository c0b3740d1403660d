//! The cached per-container summary view: a derived table of summary
//! statistics, invalidated whenever the container's table is replaced.

use vstd::prelude::*;
use crate::table::Table;

verus! {

/// A container's summary pane: the cached summary table (absent until
/// requested, dropped when the underlying table changes) and whether the
/// pane is shown.
#[derive(Debug)]
pub struct DataFrameSummary {
    pub summary_data: Option<Table>,
    pub display: bool,
}

impl DataFrameSummary {
    /// Fresh state: nothing cached, pane hidden.
    pub open spec fn is_default(self) -> bool {
        &&& self.summary_data is None
        &&& self.display == false
    }
}

impl Default for DataFrameSummary {
    fn default() -> (r: Self)
        ensures
            r.is_default(),
    {
        DataFrameSummary { summary_data: None, display: false }
    }
}

} // verus!
