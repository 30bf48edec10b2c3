use oxython::collections::{
    adjust_index, iter_step, normalize_index, range_values, slice_indices, IterStep,
};

#[test]
fn slice_whole_sequence() {
    assert_eq!(slice_indices(5, None, None, 1), Some(vec![0, 1, 2, 3, 4]));
}

#[test]
fn slice_with_bounds() {
    assert_eq!(slice_indices(5, Some(1), Some(4), 1), Some(vec![1, 2, 3]));
    assert_eq!(slice_indices(5, Some(-2), None, 1), Some(vec![3, 4]));
    assert_eq!(slice_indices(5, Some(10), None, 1), Some(vec![]));
    assert_eq!(slice_indices(5, Some(-10), Some(2), 1), Some(vec![0, 1]));
}

#[test]
fn slice_with_steps() {
    assert_eq!(slice_indices(5, None, None, 2), Some(vec![0, 2, 4]));
    assert_eq!(slice_indices(5, None, None, -1), Some(vec![4, 3, 2, 1, 0]));
    assert_eq!(slice_indices(5, Some(3), Some(0), -1), Some(vec![3, 2, 1]));
    assert_eq!(slice_indices(6, None, None, -2), Some(vec![5, 3, 1]));
}

#[test]
fn slice_with_extreme_steps() {
    assert_eq!(slice_indices(5, None, None, i64::MAX), Some(vec![0]));
    assert_eq!(slice_indices(5, None, None, i64::MIN), Some(vec![4]));
}

#[test]
fn slice_rejects_zero_step_and_handles_empty() {
    assert_eq!(slice_indices(5, None, None, 0), None);
    assert_eq!(slice_indices(0, None, None, 0), None);
    assert_eq!(slice_indices(0, Some(1), Some(3), 1), Some(vec![]));
}

#[test]
fn adjust_index_follows_python_rules() {
    assert_eq!(adjust_index(Some(-1), 5, false, true), 4);
    assert_eq!(adjust_index(Some(-10), 5, false, true), 0);
    assert_eq!(adjust_index(Some(10), 5, true, true), 5);
    assert_eq!(adjust_index(Some(10), 5, true, false), 4);
    assert_eq!(adjust_index(Some(-10), 5, false, false), -1);
    assert_eq!(adjust_index(None, 5, true, true), 5);
    assert_eq!(adjust_index(None, 5, false, true), 0);
    assert_eq!(adjust_index(None, 5, true, false), -1);
    assert_eq!(adjust_index(None, 5, false, false), 4);
    assert_eq!(adjust_index(None, 0, false, false), -1);
}

#[test]
fn negative_indices_count_from_the_end() {
    assert_eq!(normalize_index(-1, 3), Some(2));
    assert_eq!(normalize_index(0, 3), Some(0));
    assert_eq!(normalize_index(3, 3), None);
    assert_eq!(normalize_index(-4, 3), None);
    assert_eq!(normalize_index(0, 0), None);
}

#[test]
fn iteration_steps() {
    assert_eq!(iter_step(-1, 3), IterStep::Invalid);
    assert_eq!(iter_step(3, 3), IterStep::Finished);
    assert_eq!(iter_step(7, 3), IterStep::Finished);
    assert_eq!(iter_step(1, 3), IterStep::Element { position: 1, next: 2 });
}

#[test]
fn ranges() {
    assert_eq!(range_values(2, 5), vec![2, 3, 4]);
    assert_eq!(range_values(5, 2), Vec::<i64>::new());
    assert_eq!(range_values(-2, 1), vec![-2, -1, 0]);
    assert_eq!(range_values(3, 3), Vec::<i64>::new());
}
