use model_tree::{
    all_rows, constant_columns, has_rows, row_count, select_columns, select_names, select_rows, ShapeError,
};

fn sample() -> Vec<Vec<f64>> {
    vec![vec![1.0, 2.0, 3.0], vec![10.0, 20.0, 30.0]]
}

#[test]
fn select_all_rows_gives_back_the_matrix() {
    let m = sample();
    let idx = all_rows(3);
    assert_eq!(idx, vec![0, 1, 2]);
    assert_eq!(select_rows(&m, &idx), Ok(m.clone()));
}

#[test]
fn select_rows_follows_index_order() {
    let m = sample();
    let r = select_rows(&m, &vec![2, 0, 2]).unwrap();
    assert_eq!(r, vec![vec![3.0, 1.0, 3.0], vec![30.0, 10.0, 30.0]]);
}

#[test]
fn select_rows_with_no_indices_keeps_columns() {
    let m = sample();
    let r = select_rows(&m, &vec![]).unwrap();
    assert_eq!(r, vec![Vec::<f64>::new(), Vec::new()]);
}

#[test]
fn select_rows_rejects_out_of_range_index() {
    let m = sample();
    assert_eq!(select_rows(&m, &vec![0, 3]), Err(ShapeError::RowOutOfRange));
    let ragged = vec![vec![1.0, 2.0], vec![1.0]];
    assert_eq!(select_rows(&ragged, &vec![1]), Err(ShapeError::RowOutOfRange));
}

#[test]
fn select_columns_copies_a_range() {
    let m = vec![vec![1.0], vec![2.0], vec![3.0]];
    assert_eq!(select_columns(&m, 0, 2), Ok(vec![vec![1.0], vec![2.0]]));
    assert_eq!(select_columns(&m, 2, 3), Ok(vec![vec![3.0]]));
    assert_eq!(select_columns(&m, 1, 1), Ok(vec![]));
    assert_eq!(select_columns(&m, 2, 1), Err(ShapeError::ColumnOutOfRange));
    assert_eq!(select_columns(&m, 0, 4), Err(ShapeError::ColumnOutOfRange));
}

#[test]
fn select_names_copies_a_range() {
    let names = vec!["a".to_string(), "b".to_string(), "c".to_string()];
    assert_eq!(select_names(&names, 1, 3), Ok(vec!["b".to_string(), "c".to_string()]));
    assert_eq!(select_names(&names, 0, 4), Err(ShapeError::ColumnOutOfRange));
}

#[test]
fn constant_columns_repeat_each_value() {
    let r = constant_columns(&vec![2.5, -1.0], 3);
    assert_eq!(r, vec![vec![2.5, 2.5, 2.5], vec![-1.0, -1.0, -1.0]]);
    assert_eq!(constant_columns(&vec![7.0], 0), vec![Vec::<f64>::new()]);
}

#[test]
fn row_count_checks_shape() {
    assert_eq!(row_count(&sample()), Ok(3));
    assert_eq!(row_count::<f64>(&vec![]), Err(ShapeError::NoColumns));
    assert_eq!(row_count(&vec![vec![1.0, 2.0], vec![1.0]]), Err(ShapeError::LengthMismatch));
    assert!(has_rows(&sample(), 3));
    assert!(!has_rows(&sample(), 2));
    assert!(has_rows::<f64>(&vec![], 5));
}

#[test]
fn zero_rule_predicts_column_means() {
    let x = vec![vec![1.0, 2.0, 3.0]];
    let y = vec![vec![2.0, 4.0, 9.0], vec![1.0, 1.0, 4.0]];
    let mut z = model_tree::ZeroRule::new();
    z.fit(&x, &y, |c: &Vec<f64>| c.iter().sum::<f64>() / c.len() as f64);
    assert_eq!(z.r, vec![5.0, 2.0]);
    let q = vec![vec![0.0, 0.0]];
    assert_eq!(z.predict(&q), Ok(vec![vec![5.0, 5.0], vec![2.0, 2.0]]));
    assert_eq!(z.predict(&vec![]), Err(ShapeError::NoColumns));
}

#[test]
fn table_clone_partial_keeps_names_and_rows() {
    let mut t = model_tree::CSV::<f64>::new();
    assert_eq!(t.ncols, 0);
    assert!(t.cols.is_empty());
    t.cols = vec![vec![1.0, 2.0], vec![3.0, 4.0], vec![5.0, 6.0]];
    t.colNames = vec!["a".to_string(), "b".to_string(), "q".to_string()];
    t.ncols = 3;
    t.nrows = 2;
    let x = t.clonePartial(0, 2).unwrap();
    assert_eq!(x.cols, vec![vec![1.0, 2.0], vec![3.0, 4.0]]);
    assert_eq!(x.colNames, vec!["a".to_string(), "b".to_string()]);
    assert_eq!(x.ncols, 2);
    assert_eq!(x.nrows, 2);
    let y = t.clonePartial(2, 3).unwrap();
    assert_eq!(y.cols, vec![vec![5.0, 6.0]]);
    assert!(matches!(t.clonePartial(2, 4), Err(ShapeError::ColumnOutOfRange)));
}
