use vstd::prelude::*;
use crate::error::ShapeError;
use crate::matrix::{columns, constant_column, constant_columns, is_matrix, row_count};

verus! {

/// A baseline model that predicts, for every row, one summary value per
/// target column (the column mean, when fitted with a mean).
pub struct ZeroRule<T> {
    pub r: Vec<T>,
}

impl<T: Copy> ZeroRule<T> {
    /// An unfitted model, with no summary values.
    pub fn new() -> (z: Self)
        ensures
            z.r@.len() == 0,
    {
        ZeroRule { r: Vec::new() }
    }

    /// Replaces the summary values by `mean` of each target column, in
    /// column order. The features play no part.
    pub fn fit<F: Fn(&Vec<T>) -> T>(&mut self, _x: &Vec<Vec<T>>, y: &Vec<Vec<T>>, mean: F)
        requires
            forall|c: &Vec<T>| mean.requires((c,)),
        ensures
            final(self).r.len() == y.len(),
            forall|j: int| 0 <= j < y.len() ==> mean.ensures((&y[j],), #[trigger] final(self).r[j]),
    {
        let mut r: Vec<T> = Vec::new();
        let mut j: usize = 0;
        while j < y.len()
            invariant
                j <= y.len(),
                r.len() == j,
                forall|c: &Vec<T>| mean.requires((c,)),
                forall|a: int| 0 <= a < j ==> mean.ensures((&y[a],), #[trigger] r[a]),
            decreases y.len() - j,
        {
            let v = mean(&y[j]);
            r.push(v);
            j += 1;
        }
        self.r = r;
    }

    /// One column per summary value, repeating it once for every row of `x`.
    pub fn predict(&self, x: &Vec<Vec<T>>) -> (p: Result<Vec<Vec<T>>, ShapeError>)
        ensures
            p is Ok <==> (x.len() > 0 && is_matrix(columns(x@), x[0].len() as nat)),
            p matches Ok(m) ==> columns(m@) == self.r@.map_values(
                |v: T| constant_column(v, x[0].len() as nat),
            ),
            p matches Err(e) ==> (e == ShapeError::NoColumns || e == ShapeError::LengthMismatch),
    {
        match row_count(x) {
            Ok(n) => Ok(constant_columns(&self.r, n)),
            Err(e) => Err(e),
        }
    }
}

} // verus!
