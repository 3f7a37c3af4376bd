use vstd::prelude::*;
use crate::error::ShapeError;
use crate::matrix::{columns, select_columns, select_names};

verus! {

/// A table of named columns, as loaded from delimited text.
#[allow(non_snake_case)]
pub struct CSV<T> {
    pub ncols: u32,
    pub nrows: u32,
    /// The columns, each a sequence of cells.
    pub cols: Vec<Vec<T>>,
    /// The column names, in column order.
    pub colNames: Vec<String>,
}

#[allow(non_snake_case)]
impl<T: Copy> CSV<T> {
    /// An empty table.
    pub fn new() -> (r: Self)
        ensures
            r.ncols == 0,
            r.nrows == 0,
            r.cols@.len() == 0,
            r.colNames@.len() == 0,
    {
        CSV { ncols: 0, nrows: 0, cols: Vec::new(), colNames: Vec::new() }
    }

    /// A new table holding copies of the columns `startCol .. endCol`, with
    /// their names and the same row count.
    pub fn clonePartial(&self, startCol: usize, endCol: usize) -> (r: Result<Self, ShapeError>)
        ensures
            r is Ok <==> (startCol <= endCol && endCol <= self.cols.len() && endCol <= self.colNames.len()),
            r matches Ok(t) ==> {
                &&& columns(t.cols@) == columns(self.cols@).subrange(startCol as int, endCol as int)
                &&& t.colNames@ == self.colNames@.subrange(startCol as int, endCol as int)
                &&& t.ncols == (endCol - startCol) as u32
                &&& t.nrows == self.nrows
            },
            r matches Err(e) ==> e == ShapeError::ColumnOutOfRange,
    {
        let cols = match select_columns(&self.cols, startCol, endCol) {
            Ok(c) => c,
            Err(e) => {
                return Err(e);
            },
        };
        let colNames = match select_names(&self.colNames, startCol, endCol) {
            Ok(n) => n,
            Err(e) => {
                return Err(e);
            },
        };
        Ok(CSV { ncols: (endCol - startCol) as u32, nrows: self.nrows, cols, colNames })
    }
}

} // verus!
