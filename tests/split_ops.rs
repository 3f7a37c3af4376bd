use model_tree::{child_depth, grows, make_split, reassemble, route, split_is_usable, split_search, Route, ShapeError};

fn less(a: f64, b: f64) -> bool {
    a < b
}

fn stdev(c: &Vec<f64>) -> f64 {
    let n = c.len() as f64;
    let mean = c.iter().sum::<f64>() / n;
    (c.iter().map(|v| (v - mean) * (v - mean)).sum::<f64>() / n).sqrt()
}

fn deviation_loss(y1: &Vec<Vec<f64>>, y2: &Vec<Vec<f64>>) -> f64 {
    let n1 = y1[0].len();
    let n2 = y2[0].len();
    if !split_is_usable(n1, n2) {
        return f64::INFINITY;
    }
    let total = (n1 + n2) as f64;
    stdev(&y1[0]) * (n1 as f64 / total) + stdev(&y2[0]) * (n2 as f64 / total)
}

#[test]
fn make_split_partitions_every_row() {
    let feat = vec![5.0, 1.0, 3.0, 3.0, 9.0];
    let (l, r) = make_split(&feat, 3.0, less);
    assert_eq!(l, vec![1]);
    assert_eq!(r, vec![0, 2, 3, 4]);
    for i in &l {
        assert!(feat[*i] < 3.0);
    }
    for i in &r {
        assert!(feat[*i] >= 3.0);
    }
    assert_eq!(l.len() + r.len(), feat.len());
}

#[test]
fn make_split_at_the_maximum_sends_it_right() {
    let feat = vec![1.0, 4.0, 2.0];
    let (l, r) = make_split(&feat, 4.0, less);
    assert_eq!(l, vec![0, 2]);
    assert_eq!(r, vec![1]);
    let (l, r) = make_split(&feat, 1.0, less);
    assert!(l.is_empty());
    assert_eq!(r, vec![0, 1, 2]);
}

#[test]
fn reassemble_restores_row_order() {
    let z = reassemble(5, 0.0, &vec![1, 3], &vec![10.0, 30.0], &vec![0, 2, 4], &vec![0.5, 2.5, 4.5]);
    assert_eq!(z, Ok(vec![0.5, 10.0, 2.5, 30.0, 4.5]));
}

#[test]
fn reassemble_rejects_wrong_prediction_count() {
    let z = reassemble(3, 0.0, &vec![0], &vec![1.0, 2.0], &vec![1, 2], &vec![1.0, 2.0]);
    assert_eq!(z, Err(ShapeError::LengthMismatch));
}

#[test]
fn route_follows_side_sizes() {
    assert_eq!(route(2, 3), Route::Both);
    assert_eq!(route(2, 0), Route::LeftOnly);
    assert_eq!(route(0, 1), Route::RightOnly);
    assert_eq!(route(0, 0), Route::Empty);
}

#[test]
fn empty_side_makes_loss_infinite() {
    assert!(!split_is_usable(0, 4));
    assert!(!split_is_usable(4, 0));
    assert!(split_is_usable(1, 1));
    let y = vec![vec![1.0, 2.0]];
    let empty = vec![Vec::<f64>::new()];
    assert_eq!(deviation_loss(&empty, &y), f64::INFINITY);
    assert_eq!(deviation_loss(&y, &empty), f64::INFINITY);
}

#[test]
fn growth_stops_at_depth_limit_or_empty_side() {
    assert!(grows(0, 1, 3));
    assert!(!grows(0, 0, 3));
    assert!(!grows(1, 1, 3));
    assert!(!grows(0, 2, 0));
    assert_eq!(child_depth(0, 1), 1);
    assert_eq!(child_depth(4, 9), 5);
}

#[test]
fn split_search_finds_the_middle_threshold() {
    let x = vec![vec![1.0, 2.0, 3.0, 4.0]];
    let y = vec![vec![1.0, 2.0, 3.0, 4.0]];
    let c = split_search(&x, &y, 4, f64::INFINITY, less, deviation_loss, less);
    assert_eq!(c.feat_index, 0);
    assert_eq!(c.threshold_row, Some(2));
    assert_eq!(c.left, vec![0, 1]);
    assert_eq!(c.right, vec![2, 3]);
    assert!((c.score - 0.5).abs() < 1e-12);
}

#[test]
fn split_search_keeps_the_first_of_equal_losses() {
    let x = vec![vec![1.0, 2.0], vec![5.0, 6.0]];
    let y = vec![vec![0.0, 1.0]];
    let c = split_search(&x, &y, 2, f64::INFINITY, less, deviation_loss, less);
    assert_eq!(c.feat_index, 0);
    assert_eq!(c.threshold_row, Some(1));
    assert_eq!(c.left, vec![0]);
    assert_eq!(c.right, vec![1]);
    assert_eq!(c.score, 0.0);
}

#[test]
fn split_search_on_one_row_sends_all_left() {
    let x = vec![vec![7.0]];
    let y = vec![vec![3.0]];
    let c = split_search(&x, &y, 1, f64::INFINITY, less, deviation_loss, less);
    assert_eq!(c.threshold_row, None);
    assert_eq!(c.feat_index, 0);
    assert_eq!(c.left, vec![0]);
    assert!(c.right.is_empty());
    assert_eq!(c.score, f64::INFINITY);
}
