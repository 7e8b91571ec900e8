use arff_reader::data_set::DataSet;
use arff_reader::naive_bayes::NaiveBayes;

const HEAD: &str = "@relation weather\n@attribute outlook {sunny,rainy}\n@attribute windy {no,yes}\n@attribute play {no,yes}\n@data\n";

const DAYS: &str = "sunny,no,yes\nsunny,no,yes\nsunny,yes,no\nrainy,no,yes\nrainy,yes,no\nrainy,yes,no\n";

fn weather(rows: &str) -> DataSet {
    DataSet::import(&format!("{}{}", HEAD, rows)).unwrap()
}

#[test]
fn the_likeliest_target_value_is_answered() {
    let model = NaiveBayes::new(&weather(DAYS), 2, 1);
    // sunny and calm: 3 * 2 * 1 for no against 3 * 3 * 4 for yes, over the same denominators
    assert_eq!(model.query(&[0, 0, 0], 2), 1);
    assert_eq!(model.query(&[1, 1, 0], 2), 0);
    assert_eq!(model.query(&[0, 1, 0], 2), 0);
    assert_eq!(model.query(&[1, 0, 0], 2), 1);
    // the value of the target in the entry is not looked at
    assert_eq!(model.query(&[0, 0, 1], 2), 1);
    // an entry may stop before the last attributes
    assert_eq!(model.query(&[0], 2), 1);
    assert_eq!(model.query(&[1], 2), 0);
}

#[test]
fn without_smoothing_a_value_never_seen_rules_a_target_value_out() {
    let model = NaiveBayes::new(&weather(DAYS), 2, 0);
    // it was never calm when play was no
    assert_eq!(model.query(&[1, 0, 0], 2), 1);
    assert_eq!(model.query(&[0, 1, 0], 2), 0);
}

#[test]
fn smoothing_evens_out_the_counts() {
    let rows = "sunny,no,yes\nsunny,no,yes\nsunny,no,yes\nsunny,yes,no\n";
    // one day of no against three of yes: for yes and wind speak 3 * (3 + k) * (0 + k)
    // over (3 + 2k)^2, for no 1 * (1 + k) * (1 + k) over (1 + 2k)^2
    assert_eq!(NaiveBayes::new(&weather(rows), 2, 0).query(&[0, 1, 0], 2), 0);
    // with k = 1: 12 / 25 for yes against 4 / 9 for no
    assert_eq!(NaiveBayes::new(&weather(rows), 2, 1).query(&[0, 1, 0], 2), 1);
    assert_eq!(NaiveBayes::new(&weather(rows), 2, 5).query(&[0, 1, 0], 2), 1);
    assert_eq!(NaiveBayes::new(&weather(rows), 2, 1_000_000).query(&[0, 1, 0], 2), 1);
}

#[test]
fn of_equally_likely_target_values_the_last_is_answered() {
    let model = NaiveBayes::new(&weather("sunny,no,no\nsunny,no,yes\n"), 2, 1);
    assert_eq!(model.query(&[0, 0, 0], 2), 1);
    assert_eq!(model.query(&[1, 1, 0], 2), 1);
    let model = NaiveBayes::new(&weather("sunny,no,no\nsunny,no,yes\nrainy,no,no\n"), 2, 1);
    // no: 2 * 2 * 3 over 4 * 4; yes: 1 * 2 * 2 over 3 * 3
    assert_eq!(model.query(&[0, 0, 0], 2), 0);
}

#[test]
fn another_attribute_may_be_the_target() {
    let model = NaiveBayes::new(&weather(DAYS), 0, 1);
    // outlook is told from the wind and from play
    // sunny: 3 * (2 + 1) * (2 + 1); rainy: 3 * (1 + 1) * (1 + 1), over the same denominators
    assert_eq!(model.query(&[0, 0, 1], 0), 0);
    assert_eq!(model.query(&[0, 1, 0], 0), 1);
}

#[test]
fn test_fills_a_confusion_matrix() {
    let model = NaiveBayes::new(&weather(DAYS), 2, 1);
    let matrix = model.test(&weather(DAYS), 2, 1);
    assert_eq!(matrix.get(0, 0), 3);
    assert_eq!(matrix.get(1, 1), 3);
    assert_eq!(matrix.get(0, 1), 0);
    assert_eq!(matrix.get(1, 0), 0);
    assert_eq!(matrix.distance_cost(), 0);

    let matrix = model.test(&weather("sunny,yes,yes\nrainy,no,no\nrainy,no,no\nsunny,no,yes\n"), 2, 1);
    // predicted no for an actual yes once, predicted yes for an actual no twice
    assert_eq!(matrix.get(0, 1), 1);
    assert_eq!(matrix.get(1, 0), 2);
    assert_eq!(matrix.get(1, 1), 1);
    assert_eq!(matrix.get(0, 0), 0);
    assert_eq!(matrix.distance_cost(), 3);

    let matrix = model.test(&weather(""), 2, 1);
    assert_eq!(matrix.get(0, 0) + matrix.get(0, 1) + matrix.get(1, 0) + matrix.get(1, 1), 0);
}

#[test]
fn many_attributes_are_weighed_beyond_machine_words() {
    // thirty attributes that all speak for the same target value
    let mut head = String::from("@relation wide\n");
    for a in 0..30 {
        head.push_str(&format!("@attribute a{} {{x,y}}\n", a));
    }
    head.push_str("@attribute class {p,q}\n@data\n");
    let mut rows = String::new();
    for i in 0..200 {
        let (value, class) = if i % 2 == 0 { ("x", "p") } else { ("y", "q") };
        let mut cells = vec![value; 30];
        if i % 10 == 0 {
            cells[i % 30] = "y";
        }
        cells.push(class);
        rows.push_str(&cells.join(","));
        rows.push('\n');
    }
    let data = DataSet::import(&format!("{}{}", head, rows)).unwrap();
    let model = NaiveBayes::new(&data, 30, 3);
    let mut all_x = vec![0u8; 31];
    assert_eq!(model.query(&all_x, 30), 0);
    let all_y = vec![1u8; 31];
    assert_eq!(model.query(&all_y, 30), 1);
    // one voice for q among thirty for p changes nothing
    all_x[7] = 1;
    assert_eq!(model.query(&all_x, 30), 0);
    let matrix = model.test(&data, 30, 0);
    assert_eq!(matrix.get(0, 0), 100);
    assert_eq!(matrix.get(1, 1), 100);
}
