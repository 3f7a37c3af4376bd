use vstd::prelude::*;
use crate::error::ShapeError;
use crate::matrix::{columns, has_rows, is_matrix, row_count, select_rows_spec};
use crate::search::{is_best_split, select_y, split_search, SplitChoice};
use crate::split::{is_partition, make_split, reassemble};

verus! {

/// Whether a side of a node at `depth` becomes an interior node when the
/// tree may grow to `max_depth` and the side received `side_rows` rows.
pub open spec fn grows_spec(depth: u32, max_depth: u32, side_rows: usize) -> bool {
    depth < max_depth && side_rows > 0
}

/// Decides whether a side of a node is replaced by a new interior node
/// (one level deeper) or stays a leaf model.
///
/// A side grows only while the depth limit is not reached and only when it
/// received at least one row.
pub fn grows(depth: u32, max_depth: u32, side_rows: usize) -> (r: bool)
    ensures
        r == grows_spec(depth, max_depth, side_rows),
{
    depth < max_depth && side_rows > 0
}

/// The depth of a child that `grows` allowed; it cannot overflow.
pub fn child_depth(depth: u32, max_depth: u32) -> (r: u32)
    requires
        depth < max_depth,
    ensures
        r == depth + 1,
{
    depth + 1
}

/// Selecting `idx` keeps the column count and gives every column
/// `idx.len()` cells.
proof fn lemma_selected_shape<T>(m: Seq<Seq<T>>, idx: Seq<usize>)
    ensures
        select_rows_spec(m, idx).len() == m.len(),
        is_matrix(select_rows_spec(m, idx), idx.len()),
{
}

/// The first column of a matrix with `n` rows has `n` cells.
proof fn lemma_first_column<T>(v: Vec<Vec<T>>, n: nat)
    requires
        v.len() > 0,
        is_matrix(columns(v@), n),
    ensures
        v[0].len() == n,
        columns(v@).len() == v.len(),
{
    assert(columns(v@)[0] == v[0]@);
}

/// How a node hands an input matrix to its children at prediction time.
#[derive(Debug, Clone, Copy, PartialEq, Eq, Structural)]
pub enum Route {
    /// Both sides received rows: each side predicts its own rows, and the
    /// results are written back in row order.
    Both,
    /// Only the left side received rows: it predicts the whole input.
    LeftOnly,
    /// Only the right side received rows: it predicts the whole input.
    RightOnly,
    /// The input has no rows.
    Empty,
}

/// Chooses the route from the number of rows on each side of the split.
pub fn route(left_rows: usize, right_rows: usize) -> (r: Route)
    ensures
        r == Route::Both <==> (left_rows > 0 && right_rows > 0),
        r == Route::LeftOnly <==> (left_rows > 0 && right_rows == 0),
        r == Route::RightOnly <==> (left_rows == 0 && right_rows > 0),
        r == Route::Empty <==> (left_rows == 0 && right_rows == 0),
{
    if left_rows > 0 && right_rows > 0 {
        Route::Both
    } else if left_rows > 0 {
        Route::LeftOnly
    } else if right_rows > 0 {
        Route::RightOnly
    } else {
        Route::Empty
    }
}

/// Whether a split's loss is a weighted impurity rather than infinite: it
/// is finite only when both sides hold at least one row.
pub fn split_is_usable(left_rows: usize, right_rows: usize) -> (r: bool)
    ensures
        r == (left_rows > 0 && right_rows > 0),
{
    left_rows > 0 && right_rows > 0
}

/// How many more levels a fit that starts at `depth` may still add, under
/// its own limit `own_max` and the limit `max_depth` given to new nodes.
pub open spec fn fit_measure(depth: u32, own_max: u32, max_depth: u32) -> nat {
    let top = if own_max >= max_depth {
        own_max
    } else {
        max_depth
    };
    if top > depth {
        (top - depth) as nat
    } else {
        0
    }
}

/// `(left, right)` splits the cells of `col` at `val`: a partition of its
/// rows in which `less(col[i], val)` answered `true` for the rows on the
/// left and `false` for those on the right.
pub open spec fn split_by<T, L: Fn(T, T) -> bool>(col: Seq<T>, val: T, less: L, left: Seq<usize>, right: Seq<usize>) -> bool {
    &&& is_partition(left, right, col.len())
    &&& forall|k: int| 0 <= k < left.len() ==> less.ensures((col[#[trigger] left[k] as int], val), true)
    &&& forall|k: int| 0 <= k < right.len() ==> less.ensures((col[#[trigger] right[k] as int], val), false)
}

/// `z` holds `zl[k]` at row `left[k]` and `zr[k]` at row `right[k]`, and
/// nothing else.
pub open spec fn placed<T>(z: Seq<T>, left: Seq<usize>, zl: Seq<T>, right: Seq<usize>, zr: Seq<T>) -> bool {
    &&& z.len() == left.len() + right.len()
    &&& zl.len() == left.len()
    &&& zr.len() == right.len()
    &&& forall|k: int| 0 <= k < left.len() ==> z[#[trigger] left[k] as int] == zl[k]
    &&& forall|k: int| 0 <= k < right.len() ==> z[#[trigger] right[k] as int] == zr[k]
}

/// Every node of the side `side` splits on a column below `ncols`.
pub open spec fn side_features_below<T, S, M>(side: NodeType<T, S, M>, ncols: nat) -> bool
    decreases side,
{
    match side {
        NodeType::Leaf(_) => true,
        NodeType::Node(t) => features_below(*t, ncols),
    }
}

/// Every node of the tree `t` splits on a column below `ncols`.
pub open spec fn features_below<T, S, M>(t: DecisionTree<T, S, M>, ncols: nat) -> bool
    decreases t,
{
    &&& (t.feat_index as nat) < ncols
    &&& side_features_below(t.left, ncols)
    &&& side_features_below(t.right, ncols)
}

/// A leaf predictor that succeeds on every matrix with at least one
/// column and equal-length columns, with one value per row.
pub open spec fn one_per_row<T, M, P: Fn(&M, &Vec<Vec<T>>) -> Result<Vec<T>, ShapeError>>(predict_leaf: P) -> bool {
    forall|m: &M, a: &Vec<Vec<T>>, r: Result<Vec<T>, ShapeError>|
        a.len() > 0 && is_matrix(columns(a@), a[0].len() as nat) && #[trigger] predict_leaf.ensures((m, a), r)
            ==> (r matches Ok(z) && z.len() == a[0].len())
}

/// `z` is what the side `side` predicts for `x`.
pub open spec fn side_predicts<T, S, M, L: Fn(T, T) -> bool, P: Fn(&M, &Vec<Vec<T>>) -> Result<Vec<T>, ShapeError>>(
    side: NodeType<T, S, M>,
    x: Vec<Vec<T>>,
    z: Vec<T>,
    less: L,
    predict_leaf: P,
) -> bool
    decreases side,
{
    match side {
        NodeType::Leaf(m) => predict_leaf.ensures((&m, &x), Ok(z)),
        NodeType::Node(t) => tree_predicts(*t, x, z, less, predict_leaf),
    }
}

/// `z` is what the node `t` predicts for `x`: the rows of `x` are split at
/// the node's threshold; when both sides receive rows, each side predicts
/// its own rows and the results stand at the rows they came from; when one
/// side receives all rows, it predicts the whole of `x`.
pub open spec fn tree_predicts<T, S, M, L: Fn(T, T) -> bool, P: Fn(&M, &Vec<Vec<T>>) -> Result<Vec<T>, ShapeError>>(
    t: DecisionTree<T, S, M>,
    x: Vec<Vec<T>>,
    z: Vec<T>,
    less: L,
    predict_leaf: P,
) -> bool
    decreases t,
{
    exists|l: Seq<usize>, r: Seq<usize>|
        #[trigger] split_by(columns(x@)[t.feat_index as int], t.feat_val, less, l, r) && if l.len() > 0
            && r.len() > 0 {
            exists|xl: Vec<Vec<T>>, xr: Vec<Vec<T>>, zl: Vec<T>, zr: Vec<T>|
                #![trigger placed(z@, l, zl@, r, zr@), columns(xl@), columns(xr@)]
                columns(xl@) == select_rows_spec(columns(x@), l) && columns(xr@) == select_rows_spec(
                    columns(x@),
                    r,
                ) && side_predicts(t.left, xl, zl, less, predict_leaf) && side_predicts(
                    t.right,
                    xr,
                    zr,
                    less,
                    predict_leaf,
                ) && placed(z@, l, zl@, r, zr@)
        } else if l.len() > 0 {
            side_predicts(t.left, x, z, less, predict_leaf)
        } else if r.len() > 0 {
            side_predicts(t.right, x, z, less, predict_leaf)
        } else {
            z.len() == 0
        }
}

/// `after` is the side `before` of a node at `depth` (under its own limit
/// `own_max`) once fitted on the rows `rows` of the features `x` and the
/// targets `y`.
///
/// A side that received no rows is left as it was. Above the depth limit a
/// side with rows becomes a new node one level deeper, with limit
/// `max_depth` and two fresh leaves from `new_leaf`, fitted on those rows.
/// At the limit it becomes the leaf that `fit_leaf` gives for those rows.
pub open spec fn side_fitted<T, S, M, L: Fn(T, T) -> bool, G: Fn(&Vec<Vec<T>>, &Vec<Vec<T>>) -> S, C: Fn(S, S) -> bool, N: Fn() -> M, F: Fn(&Vec<Vec<T>>, &Vec<Vec<T>>) -> M>(
    before: NodeType<T, S, M>,
    after: NodeType<T, S, M>,
    depth: u32,
    own_max: u32,
    max_depth: u32,
    x: Seq<Seq<T>>,
    y: Seq<Seq<T>>,
    rows: Seq<usize>,
    unset_val: T,
    unset_score: S,
    less: L,
    loss: G,
    better: C,
    new_leaf: N,
    fit_leaf: F,
) -> bool
    decreases after,
{
    if rows.len() == 0 {
        after == before
    } else if depth < own_max {
        match after {
            NodeType::Node(t) => {
                &&& t.depth == depth + 1
                &&& t.max_depth == max_depth
                &&& exists|l0: M, r0: M|
                    #![trigger new_leaf.ensures((), l0), new_leaf.ensures((), r0)]
                    new_leaf.ensures((), l0) && new_leaf.ensures((), r0) && tree_fitted(
                        NodeType::Leaf(l0),
                        NodeType::Leaf(r0),
                        *t,
                        max_depth,
                        select_rows_spec(x, rows),
                        select_rows_spec(y, rows),
                        rows.len(),
                        unset_val,
                        unset_score,
                        less,
                        loss,
                        better,
                        new_leaf,
                        fit_leaf,
                    )
            },
            NodeType::Leaf(_) => false,
        }
    } else {
        exists|xl: Vec<Vec<T>>, yl: Vec<Vec<T>>, m: M|
            #![trigger fit_leaf.ensures((&xl, &yl), m)]
            columns(xl@) == select_rows_spec(x, rows) && columns(yl@) == select_rows_spec(y, rows)
                && fit_leaf.ensures((&xl, &yl), m) && after == NodeType::<T, S, M>::Leaf(m)
    }
}

/// `after` is a node whose sides were `before_left` and `before_right`,
/// fitted on the features `x` and targets `y` with `nrows` rows: it holds
/// the column, threshold and loss of the split search (`unset_val` as the
/// threshold when no candidate was kept), and each side is fitted on the
/// rows the split sent there.
pub open spec fn tree_fitted<T, S, M, L: Fn(T, T) -> bool, G: Fn(&Vec<Vec<T>>, &Vec<Vec<T>>) -> S, C: Fn(S, S) -> bool, N: Fn() -> M, F: Fn(&Vec<Vec<T>>, &Vec<Vec<T>>) -> M>(
    before_left: NodeType<T, S, M>,
    before_right: NodeType<T, S, M>,
    after: DecisionTree<T, S, M>,
    max_depth: u32,
    x: Seq<Seq<T>>,
    y: Seq<Seq<T>>,
    nrows: nat,
    unset_val: T,
    unset_score: S,
    less: L,
    loss: G,
    better: C,
    new_leaf: N,
    fit_leaf: F,
) -> bool
    decreases after,
{
    exists|c: SplitChoice<S>|
        #[trigger] is_best_split(x, y, nrows, unset_score, less, loss, better, c) && after.feat_index
            == c.feat_index && after.score == c.score && after.feat_val == match c.threshold_row {
            Some(i) => x[c.feat_index as int][i as int],
            None => unset_val,
        } && side_fitted(
            before_left,
            after.left,
            after.depth,
            after.max_depth,
            max_depth,
            x,
            y,
            c.left@,
            unset_val,
            unset_score,
            less,
            loss,
            better,
            new_leaf,
            fit_leaf,
        ) && side_fitted(
            before_right,
            after.right,
            after.depth,
            after.max_depth,
            max_depth,
            x,
            y,
            c.right@,
            unset_val,
            unset_score,
            less,
            loss,
            better,
            new_leaf,
            fit_leaf,
        )
}

/// A node at the depth limit whose two sides are leaves still has two
/// leaves after fitting, whatever rows each side received: a side with rows
/// is refitted as a leaf, a side without rows is left as it was.
pub proof fn lemma_fit_at_limit_keeps_leaves<T, S, M, L: Fn(T, T) -> bool, G: Fn(&Vec<Vec<T>>, &Vec<Vec<T>>) -> S, C: Fn(S, S) -> bool, N: Fn() -> M, F: Fn(&Vec<Vec<T>>, &Vec<Vec<T>>) -> M>(
    before_left: NodeType<T, S, M>,
    before_right: NodeType<T, S, M>,
    after: DecisionTree<T, S, M>,
    max_depth: u32,
    x: Seq<Seq<T>>,
    y: Seq<Seq<T>>,
    nrows: nat,
    unset_val: T,
    unset_score: S,
    less: L,
    loss: G,
    better: C,
    new_leaf: N,
    fit_leaf: F,
)
    requires
        after.depth >= after.max_depth,
        before_left is Leaf,
        before_right is Leaf,
        tree_fitted(
            before_left,
            before_right,
            after,
            max_depth,
            x,
            y,
            nrows,
            unset_val,
            unset_score,
            less,
            loss,
            better,
            new_leaf,
            fit_leaf,
        ),
    ensures
        after.left is Leaf,
        after.right is Leaf,
{
}

/// One side of a tree node: a further node, or a leaf model.
pub enum NodeType<T, S, M> {
    Node(Box<DecisionTree<T, S, M>>),
    Leaf(M),
}

/// A decision tree whose leaves are models of type `M`.
///
/// `T` is the cell type of the feature and target matrices and `S` the type
/// of a split's loss. What a cell comparison, a loss, or a leaf model does is
/// handed to `fit` and `predict` as closures; the tree decides how rows are
/// split, where they go, and how results are put back together.
pub struct DecisionTree<T, S, M> {
    pub left: NodeType<T, S, M>,
    pub right: NodeType<T, S, M>,
    /// The column this node splits on.
    pub feat_index: usize,
    /// The threshold: rows whose value is less go left.
    pub feat_val: T,
    /// The loss of the chosen split.
    pub score: S,
    pub depth: u32,
    pub max_depth: u32,
}

impl<T: Copy, S: Copy, M> DecisionTree<T, S, M> {
    /// A node at `depth` of a tree limited to `max_depth`, with two leaves
    /// and split fields that hold the given placeholders until `fit` runs.
    pub fn new(depth: u32, max_depth: u32, left: M, right: M, feat_val: T, score: S) -> (r: Self)
        ensures
            r.left == NodeType::<T, S, M>::Leaf(left),
            r.right == NodeType::<T, S, M>::Leaf(right),
            r.feat_index == 0,
            r.feat_val == feat_val,
            r.score == score,
            r.depth == depth,
            r.max_depth == max_depth,
    {
        DecisionTree {
            left: NodeType::Leaf(left),
            right: NodeType::Leaf(right),
            feat_index: 0,
            feat_val,
            score,
            depth,
            max_depth,
        }
    }

    /// Fits the node to the features `x` and targets `y`.
    ///
    /// The split search picks this node's column, threshold and loss. While
    /// the node is above the depth limit, each side that received rows
    /// becomes a new node one level deeper and is fitted on its rows; at the
    /// limit each such side becomes a leaf fitted by `fit_leaf`. A side that
    /// received no rows is left as it was. `unset_val` is the threshold kept
    /// when no split beats `unset_score`, the starting loss.
    pub fn fit<L, G, C, N, F>(
        &mut self,
        x: &Vec<Vec<T>>,
        y: &Vec<Vec<T>>,
        max_depth: u32,
        unset_val: T,
        unset_score: S,
        less: L,
        loss: G,
        better: C,
        new_leaf: N,
        fit_leaf: F,
    ) -> (r: Result<(), ShapeError>) where
        L: Fn(T, T) -> bool + Copy,
        G: Fn(&Vec<Vec<T>>, &Vec<Vec<T>>) -> S + Copy,
        C: Fn(S, S) -> bool + Copy,
        N: Fn() -> M + Copy,
        F: Fn(&Vec<Vec<T>>, &Vec<Vec<T>>) -> M + Copy,

        requires
            forall|a: T, b: T| less.requires((a, b)),
            forall|a: &Vec<Vec<T>>, b: &Vec<Vec<T>>| loss.requires((a, b)),
            forall|a: S, b: S| better.requires((a, b)),
            new_leaf.requires(()),
            forall|a: &Vec<Vec<T>>, b: &Vec<Vec<T>>| fit_leaf.requires((a, b)),
        ensures
            r is Ok <==> (y.len() == 1 && x.len() > 0 && is_matrix(columns(x@), x[0].len() as nat)
                && is_matrix(columns(y@), x[0].len() as nat)),
            y.len() != 1 ==> r == Err::<(), ShapeError>(ShapeError::TargetColumns),
            y.len() == 1 && x.len() == 0 ==> r == Err::<(), ShapeError>(ShapeError::NoColumns),
            r matches Err(e) ==> (e == ShapeError::TargetColumns || e == ShapeError::NoColumns || e
                == ShapeError::LengthMismatch),
            final(self).depth == old(self).depth,
            final(self).max_depth == old(self).max_depth,
            r is Err ==> *final(self) == *old(self),
            r is Ok ==> tree_fitted(
                old(self).left,
                old(self).right,
                *final(self),
                max_depth,
                columns(x@),
                columns(y@),
                x[0].len() as nat,
                unset_val,
                unset_score,
                less,
                loss,
                better,
                new_leaf,
                fit_leaf,
            ),
    {
        if y.len() != 1 {
            return Err(ShapeError::TargetColumns);
        }
        let n = match row_count(x) {
            Ok(n) => n,
            Err(e) => {
                return Err(e);
            },
        };
        if !has_rows(y, n) {
            return Err(ShapeError::LengthMismatch);
        }
        self.fit_rows(x, y, n, max_depth, unset_val, unset_score, less, loss, better, new_leaf, fit_leaf);
        Ok(())
    }

    /// Predicts one value per row of `x`, in row order.
    ///
    /// The node splits the rows of `x` at its threshold exactly as during
    /// fitting. When both sides receive rows, each side predicts its own rows
    /// and the results are written back at the rows they came from. When
    /// only one side receives rows, that side predicts the whole of `x`.
    /// Leaves predict through `predict_leaf`, whose errors are passed on;
    /// `fill` only seeds the buffer that results are written into.
    pub fn predict<L, P>(&self, x: &Vec<Vec<T>>, fill: T, less: L, predict_leaf: P) -> (r: Result<
        Vec<T>,
        ShapeError,
    >) where L: Fn(T, T) -> bool + Copy, P: Fn(&M, &Vec<Vec<T>>) -> Result<Vec<T>, ShapeError> + Copy
        requires
            forall|a: T, b: T| less.requires((a, b)),
            forall|m: &M, a: &Vec<Vec<T>>| predict_leaf.requires((m, a)),
        ensures
            r matches Ok(z) ==> x.len() > 0 && is_matrix(columns(x@), x[0].len() as nat) && z.len()
                == x[0].len(),
            r matches Ok(z) ==> tree_predicts(*self, *x, z, less, predict_leaf),
            x.len() > 0 && is_matrix(columns(x@), x[0].len() as nat) && features_below(*self, x.len() as nat)
                && one_per_row(predict_leaf) ==> r is Ok,
            self.feat_index >= x.len() ==> r == Err::<Vec<T>, ShapeError>(ShapeError::FeatureCountMismatch),
            self.feat_index < x.len() && !is_matrix(columns(x@), x[0].len() as nat) ==> r == Err::<
                Vec<T>,
                ShapeError,
            >(ShapeError::LengthMismatch),
        decreases self,
    {
        if self.feat_index >= x.len() {
            return Err(ShapeError::FeatureCountMismatch);
        }
        let n = match row_count(x) {
            Ok(n) => n,
            Err(_) => {
                return Err(ShapeError::LengthMismatch);
            },
        };
        assert(columns(x@)[self.feat_index as int] == x[self.feat_index as int]@);
        let (l, r) = make_split(&x[self.feat_index], self.feat_val, less);
        assert(split_by(columns(x@)[self.feat_index as int], self.feat_val, less, l@, r@));
        match route(l.len(), r.len()) {
            Route::Both => {
                let xl = select_y(x, &l, n);
                proof {
                    lemma_selected_shape(columns(x@), l@);
                    lemma_first_column(*x, n as nat);
                    if x.len() > 0 {
                        lemma_first_column(xl, l@.len());
                    }
                }
                let zl = match &self.left {
                    NodeType::Node(node) => node.predict(&xl, fill, less, predict_leaf),
                    NodeType::Leaf(m) => predict_leaf(m, &xl),
                };
                let zl = match zl {
                    Ok(z) => z,
                    Err(e) => {
                        return Err(e);
                    },
                };
                assert(side_predicts(self.left, xl, zl, less, predict_leaf));
                let xr = select_y(x, &r, n);
                proof {
                    lemma_selected_shape(columns(x@), r@);
                    if x.len() > 0 {
                        lemma_first_column(xr, r@.len());
                    }
                }
                let zr = match &self.right {
                    NodeType::Node(node) => node.predict(&xr, fill, less, predict_leaf),
                    NodeType::Leaf(m) => predict_leaf(m, &xr),
                };
                let zr = match zr {
                    Ok(z) => z,
                    Err(e) => {
                        return Err(e);
                    },
                };
                assert(side_predicts(self.right, xr, zr, less, predict_leaf));
                match reassemble(n, fill, &l, &zl, &r, &zr) {
                    Ok(z) => {
                        assert(placed(z@, l@, zl@, r@, zr@));
                        assert(columns(xl@) == select_rows_spec(columns(x@), l@) && columns(xr@)
                            == select_rows_spec(columns(x@), r@) && side_predicts(
                            self.left,
                            xl,
                            zl,
                            less,
                            predict_leaf,
                        ) && side_predicts(self.right, xr, zr, less, predict_leaf) && placed(
                            z@,
                            l@,
                            zl@,
                            r@,
                            zr@,
                        ));
                        assert(tree_predicts(*self, *x, z, less, predict_leaf));
                        Ok(z)
                    },
                    Err(e) => Err(e),
                }
            },
            Route::LeftOnly => {
                let z = match &self.left {
                    NodeType::Node(node) => node.predict(x, fill, less, predict_leaf),
                    NodeType::Leaf(m) => predict_leaf(m, x),
                };
                match z {
                    Ok(z) => {
                        assert(side_predicts(self.left, *x, z, less, predict_leaf));
                        if z.len() != n {
                            Err(ShapeError::LengthMismatch)
                        } else {
                            Ok(z)
                        }
                    },
                    Err(e) => Err(e),
                }
            },
            Route::RightOnly => {
                let z = match &self.right {
                    NodeType::Node(node) => node.predict(x, fill, less, predict_leaf),
                    NodeType::Leaf(m) => predict_leaf(m, x),
                };
                match z {
                    Ok(z) => {
                        assert(side_predicts(self.right, *x, z, less, predict_leaf));
                        if z.len() != n {
                            Err(ShapeError::LengthMismatch)
                        } else {
                            Ok(z)
                        }
                    },
                    Err(e) => Err(e),
                }
            },
            Route::Empty => {
                let z: Vec<T> = Vec::new();
                assert(tree_predicts(*self, *x, z, less, predict_leaf));
                Ok(z)
            },
        }
    }

    fn fit_rows<L, G, C, N, F>(
        &mut self,
        x: &Vec<Vec<T>>,
        y: &Vec<Vec<T>>,
        nrows: usize,
        max_depth: u32,
        unset_val: T,
        unset_score: S,
        less: L,
        loss: G,
        better: C,
        new_leaf: N,
        fit_leaf: F,
    ) where
        L: Fn(T, T) -> bool + Copy,
        G: Fn(&Vec<Vec<T>>, &Vec<Vec<T>>) -> S + Copy,
        C: Fn(S, S) -> bool + Copy,
        N: Fn() -> M + Copy,
        F: Fn(&Vec<Vec<T>>, &Vec<Vec<T>>) -> M + Copy,

        requires
            is_matrix(columns(x@), nrows as nat),
            is_matrix(columns(y@), nrows as nat),
            forall|a: T, b: T| less.requires((a, b)),
            forall|a: &Vec<Vec<T>>, b: &Vec<Vec<T>>| loss.requires((a, b)),
            forall|a: S, b: S| better.requires((a, b)),
            new_leaf.requires(()),
            forall|a: &Vec<Vec<T>>, b: &Vec<Vec<T>>| fit_leaf.requires((a, b)),
        ensures
            final(self).depth == old(self).depth,
            final(self).max_depth == old(self).max_depth,
            tree_fitted(
                old(self).left,
                old(self).right,
                *final(self),
                max_depth,
                columns(x@),
                columns(y@),
                nrows as nat,
                unset_val,
                unset_score,
                less,
                loss,
                better,
                new_leaf,
                fit_leaf,
            ),
        decreases fit_measure(old(self).depth, old(self).max_depth, max_depth),
    {
        let ghost before = *self;
        let choice = split_search(x, y, nrows, unset_score, less, loss, better);
        let ghost c = choice;
        self.feat_index = choice.feat_index;
        self.feat_val = match choice.threshold_row {
            Some(i) => {
                assert(columns(x@)[choice.feat_index as int] == x[choice.feat_index as int]@);
                x[choice.feat_index][i]
            },
            None => unset_val,
        };
        self.score = choice.score;
        let left = choice.left;
        let right = choice.right;
        assert(left == c.left && right == c.right);
        if left.len() > 0 {
            let xl = select_y(x, &left, nrows);
            let yl = select_y(y, &left, nrows);
            if grows(self.depth, self.max_depth, left.len()) {
                let l0 = new_leaf();
                let r0 = new_leaf();
                let mut child = DecisionTree::new(
                    child_depth(self.depth, self.max_depth),
                    max_depth,
                    l0,
                    r0,
                    unset_val,
                    unset_score,
                );
                let ghost fresh = child;
                child.fit_rows(&xl, &yl, left.len(), max_depth, unset_val, unset_score, less, loss, better, new_leaf, fit_leaf);
                self.left = NodeType::Node(Box::new(child));
            } else {
                self.left = NodeType::Leaf(fit_leaf(&xl, &yl));
            }
        }
        if right.len() > 0 {
            let xr = select_y(x, &right, nrows);
            let yr = select_y(y, &right, nrows);
            if grows(self.depth, self.max_depth, right.len()) {
                let l0 = new_leaf();
                let r0 = new_leaf();
                let mut child = DecisionTree::new(
                    child_depth(self.depth, self.max_depth),
                    max_depth,
                    l0,
                    r0,
                    unset_val,
                    unset_score,
                );
                let ghost fresh = child;
                child.fit_rows(&xr, &yr, right.len(), max_depth, unset_val, unset_score, less, loss, better, new_leaf, fit_leaf);
                self.right = NodeType::Node(Box::new(child));
            } else {
                self.right = NodeType::Leaf(fit_leaf(&xr, &yr));
            }
        }
        assert(side_fitted(
            before.left,
            self.left,
            self.depth,
            self.max_depth,
            max_depth,
            columns(x@),
            columns(y@),
            c.left@,
            unset_val,
            unset_score,
            less,
            loss,
            better,
            new_leaf,
            fit_leaf,
        ));
        assert(side_fitted(
            before.right,
            self.right,
            self.depth,
            self.max_depth,
            max_depth,
            columns(x@),
            columns(y@),
            c.right@,
            unset_val,
            unset_score,
            less,
            loss,
            better,
            new_leaf,
            fit_leaf,
        ));
    }
}

} // verus!
