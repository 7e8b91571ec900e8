use arff_reader::test_statistics::{ConfusionMatrix, RightVsWrong};

#[test]
fn right_vs_wrong_counts_each_kind() {
    let mut counts = RightVsWrong::default();
    assert_eq!(counts.get_right(), 0);
    assert_eq!(counts.get_wrong(), 0);
    counts.was_right();
    counts.was_right();
    counts.was_wrong();
    assert_eq!(counts.get_right(), 2);
    assert_eq!(counts.get_wrong(), 1);
}

#[test]
fn confusion_matrix_starts_empty_and_counts_predictions() {
    let mut matrix = ConfusionMatrix::new(3);
    for predicted in 0..3 {
        for actual in 0..3 {
            assert_eq!(matrix.get(predicted, actual), 0);
        }
    }
    matrix.add_prediction(0, 2);
    matrix.add_prediction(0, 2);
    matrix.add_prediction(2, 0);
    matrix.add_prediction(1, 1);
    assert_eq!(matrix.get(0, 2), 2);
    assert_eq!(matrix.get(2, 0), 1);
    assert_eq!(matrix.get(1, 1), 1);
    assert_eq!(matrix.get(2, 2), 0);
    assert_eq!(matrix.get(0, 0), 0);
}

#[test]
fn distance_cost_weighs_each_cell_by_the_distance_of_its_indices() {
    let mut matrix = ConfusionMatrix::new(4);
    // distance 3, twice
    matrix.add_prediction(0, 3);
    matrix.add_prediction(0, 3);
    // distance 2, once
    matrix.add_prediction(3, 1);
    // distance 1, three times
    matrix.add_prediction(1, 2);
    matrix.add_prediction(1, 2);
    matrix.add_prediction(1, 2);
    // on the diagonal: no cost
    matrix.add_prediction(2, 2);
    assert_eq!(matrix.distance_cost(), 2 * 3 + 2 + 3 * 1);
    assert_eq!(matrix.distance_squared_cost(), 2 * 9 + 4 + 3 * 1);
}

#[test]
fn costs_of_an_empty_matrix_are_zero() {
    let none = ConfusionMatrix::new(0);
    assert_eq!(none.distance_cost(), 0);
    assert_eq!(none.distance_squared_cost(), 0);
    let mut diagonal = ConfusionMatrix::new(2);
    diagonal.add_prediction(0, 0);
    diagonal.add_prediction(1, 1);
    assert_eq!(diagonal.distance_cost(), 0);
    assert_eq!(diagonal.distance_squared_cost(), 0);
}
