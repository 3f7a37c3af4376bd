//! A model tree over column matrices: a decision tree whose leaves are
//! fitted models.
//!
//! Matrices are stored column by column (`m[j][i]` is row `i` of column `j`).
//! The tree, the exhaustive split search, row selection and the write-back
//! of predictions are generic over the cell type; what compares two cells,
//! scores a split and fits or runs a leaf model comes in as closures.
//!
//! - `matrix`: shape checks and row and column selection.
//! - `split`: splitting rows at a threshold, and putting per-side results back.
//! - `table`: a table of named columns.
//! - `search`: the search for the best split of a node.
//! - `tree`: growth and routing decisions, and the tree itself.
//! - `zeror`: a baseline model that predicts one summary value per column.
//! - `error`: the error values.

pub mod error;
pub mod matrix;
pub mod search;
pub mod split;
pub mod table;
pub mod tree;
pub mod zeror;

pub use error::{CSVError, ShapeError};
pub use matrix::{all_rows, constant_columns, has_rows, row_count, select_columns, select_names, select_rows};
pub use search::{split_search, SplitChoice};
pub use split::{make_split, reassemble};
pub use table::CSV;
pub use tree::{child_depth, grows, route, split_is_usable, DecisionTree, NodeType, Route};
pub use zeror::ZeroRule;
