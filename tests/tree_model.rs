use model_tree::{split_is_usable, DecisionTree, NodeType, ShapeError};

/// A one-feature least-squares line, fitted in closed form.
#[derive(Debug, Clone, Copy)]
struct Line {
    slope: f64,
    intercept: f64,
    ncols: usize,
}

fn unfit() -> Line {
    Line { slope: 0.0, intercept: 0.0, ncols: 0 }
}

fn fit_line(x: &Vec<Vec<f64>>, y: &Vec<Vec<f64>>) -> Line {
    let xs = &x[0];
    let ys = &y[0];
    let n = xs.len() as f64;
    let mx = xs.iter().sum::<f64>() / n;
    let my = ys.iter().sum::<f64>() / n;
    let sxx: f64 = xs.iter().map(|v| (v - mx) * (v - mx)).sum();
    let sxy: f64 = xs.iter().zip(ys.iter()).map(|(a, b)| (a - mx) * (b - my)).sum();
    let slope = if sxx == 0.0 { 0.0 } else { sxy / sxx };
    Line { slope, intercept: my - slope * mx, ncols: x.len() }
}

fn predict_line(m: &Line, x: &Vec<Vec<f64>>) -> Result<Vec<f64>, ShapeError> {
    if x.len() != m.ncols {
        return Err(ShapeError::FeatureCountMismatch);
    }
    Ok(x[0].iter().map(|v| m.intercept + m.slope * v).collect())
}

fn less(a: f64, b: f64) -> bool {
    a < b
}

fn stdev(c: &Vec<f64>) -> f64 {
    let n = c.len() as f64;
    let mean = c.iter().sum::<f64>() / n;
    (c.iter().map(|v| (v - mean) * (v - mean)).sum::<f64>() / n).sqrt()
}

fn loss(y1: &Vec<Vec<f64>>, y2: &Vec<Vec<f64>>) -> f64 {
    let n1 = y1[0].len();
    let n2 = y2[0].len();
    if !split_is_usable(n1, n2) {
        return f64::INFINITY;
    }
    let total = (n1 + n2) as f64;
    stdev(&y1[0]) * (n1 as f64 / total) + stdev(&y2[0]) * (n2 as f64 / total)
}

fn tree(depth: u32, max_depth: u32) -> DecisionTree<f64, f64, Line> {
    DecisionTree::new(depth, max_depth, unfit(), unfit(), f64::NAN, f64::NAN)
}

fn fit(t: &mut DecisionTree<f64, f64, Line>, x: &Vec<Vec<f64>>, y: &Vec<Vec<f64>>, max_depth: u32) -> Result<(), ShapeError> {
    t.fit(x, y, max_depth, f64::INFINITY, f64::INFINITY, less, loss, less, unfit, fit_line)
}

fn predict(t: &DecisionTree<f64, f64, Line>, x: &Vec<Vec<f64>>) -> Result<Vec<f64>, ShapeError> {
    t.predict(x, 0.0, less, predict_line)
}

fn is_leaf(n: &NodeType<f64, f64, Line>) -> bool {
    matches!(n, NodeType::Leaf(_))
}

#[test]
fn depth_zero_root_has_two_leaves() {
    let x = vec![vec![1.0, 5.0, 2.0, 8.0, 3.0]];
    let y = vec![vec![2.0, 1.0, 7.0, 3.0, 3.0]];
    let mut t = tree(0, 0);
    assert_eq!(fit(&mut t, &x, &y, 0), Ok(()));
    assert!(is_leaf(&t.left));
    assert!(is_leaf(&t.right));
}

#[test]
fn single_training_row_is_reproduced() {
    let x = vec![vec![7.0], vec![-2.0]];
    let y = vec![vec![3.25]];
    let mut t = tree(0, 0);
    assert_eq!(fit(&mut t, &x, &y, 0), Ok(()));
    assert_eq!(t.feat_val, f64::INFINITY);
    assert_eq!(t.score, f64::INFINITY);
    assert_eq!(predict(&t, &x), Ok(vec![3.25]));
}

#[test]
fn linear_data_splits_into_two_pairs() {
    let x = vec![vec![1.0, 2.0, 3.0, 4.0]];
    let y = vec![vec![1.0, 2.0, 3.0, 4.0]];
    let mut t = tree(1, 1);
    assert_eq!(fit(&mut t, &x, &y, 1), Ok(()));
    assert_eq!(t.feat_index, 0);
    assert_eq!(t.feat_val, 3.0);
    assert!((t.score - 0.5).abs() < 1e-12);
    assert!(is_leaf(&t.left));
    assert!(is_leaf(&t.right));
    let z = predict(&t, &x).unwrap();
    let want = [1.0, 2.0, 3.0, 4.0];
    assert_eq!(z.len(), 4);
    for i in 0..4 {
        assert!((z[i] - want[i]).abs() < 1e-9);
    }
}

#[test]
fn sides_below_the_limit_become_nodes() {
    let x = vec![vec![1.0, 2.0, 3.0, 4.0]];
    let y = vec![vec![1.0, 2.0, 3.0, 4.0]];
    let mut t = tree(0, 1);
    assert_eq!(fit(&mut t, &x, &y, 1), Ok(()));
    match &t.left {
        NodeType::Node(n) => {
            assert_eq!(n.depth, 1);
            assert!(is_leaf(&n.left));
            assert!(is_leaf(&n.right));
        },
        NodeType::Leaf(_) => panic!("left side should be a node"),
    }
    assert!(!is_leaf(&t.right));
    let z = predict(&t, &x).unwrap();
    for i in 0..4 {
        assert!((z[i] - x[0][i]).abs() < 1e-9);
    }
}

#[test]
fn predict_routes_rows_back_in_order() {
    let x = vec![vec![1.0, 2.0, 10.0, 11.0]];
    let y = vec![vec![0.0, 0.0, 100.0, 100.0]];
    let mut t = tree(1, 1);
    assert_eq!(fit(&mut t, &x, &y, 1), Ok(()));
    let q = vec![vec![10.5, 1.5, 20.0, 0.0]];
    assert_eq!(predict(&t, &q), Ok(vec![100.0, 0.0, 100.0, 0.0]));
    let only_left = vec![vec![1.5, 0.0]];
    assert_eq!(predict(&t, &only_left), Ok(vec![0.0, 0.0]));
}

#[test]
fn shape_errors_are_reported() {
    let mut t = tree(0, 1);
    let x = vec![vec![1.0, 2.0]];
    assert_eq!(fit(&mut t, &x, &vec![vec![1.0]], 1), Err(ShapeError::LengthMismatch));
    assert_eq!(fit(&mut t, &vec![], &vec![vec![1.0]], 1), Err(ShapeError::NoColumns));
    assert_eq!(fit(&mut t, &x, &vec![], 1), Err(ShapeError::TargetColumns));
    assert_eq!(fit(&mut t, &x, &vec![vec![1.0, 2.0], vec![3.0, 4.0]], 1), Err(ShapeError::TargetColumns));
    assert!(is_leaf(&t.left) && is_leaf(&t.right));
    let mut t2 = tree(0, 0);
    t2.feat_index = 1;
    assert_eq!(predict(&t2, &x), Err(ShapeError::FeatureCountMismatch));
    t2.feat_index = 0;
    assert_eq!(predict(&t2, &vec![vec![1.0], vec![]]), Err(ShapeError::LengthMismatch));
}

#[test]
fn leaf_errors_are_passed_on() {
    let x = vec![vec![1.0, 2.0, 10.0, 11.0]];
    let y = vec![vec![0.0, 0.0, 100.0, 100.0]];
    let mut t = tree(1, 1);
    assert_eq!(fit(&mut t, &x, &y, 1), Ok(()));
    let wide = vec![vec![1.0, 10.5], vec![0.0, 0.0]];
    assert_eq!(predict(&t, &wide), Err(ShapeError::FeatureCountMismatch));
}

#[test]
fn one_sided_data_fits_a_node_on_all_rows() {
    let x = vec![vec![2.0, 2.0, 2.0]];
    let y = vec![vec![1.0, 2.0, 6.0]];
    let mut t = tree(0, 1);
    assert_eq!(fit(&mut t, &x, &y, 1), Ok(()));
    assert_eq!(t.feat_val, f64::INFINITY);
    assert!(is_leaf(&t.right));
    match &t.left {
        NodeType::Node(n) => {
            assert_eq!(n.depth, 1);
            assert_eq!(n.max_depth, 1);
            match &n.left {
                NodeType::Leaf(m) => assert!((m.intercept - 3.0).abs() < 1e-12),
                NodeType::Node(_) => panic!("a node at the limit has leaves"),
            }
        },
        NodeType::Leaf(_) => panic!("left side should be a node"),
    }
}
