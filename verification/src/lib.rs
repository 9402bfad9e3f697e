//! Uplift decision trees: binary trees grown so that each split separates the
//! rows on which a treatment helps from those on which it does not.
//!
//! A tree is fitted to a [`table::Table`]. The gain that ranks the splits is
//! handed in by the caller, and so is the seed of all that is drawn at
//! random.

pub mod candidates;
pub mod dataset;
pub mod laws;
pub mod model;
pub mod node;
pub mod params;
pub mod partition;
pub mod sampling;
pub mod search;
pub mod sorting;
pub mod summary;
pub mod table;

pub use dataset::{Dataset, FitError};
pub use model::UpliftTreeModel;
pub use node::{SplitValue, TreeNode};
pub use params::{EvalFunc, Params};
pub use partition::SplitError;
pub use summary::Summary;
pub use table::{Column, ColumnKind, Table, TableError};
