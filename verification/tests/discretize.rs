use arff_reader::data_set::{Attribute, Data, DataSet, Nominal};
use arff_reader::error::Error;
use arff_reader::id_3::{DataType, ProcessedData};

fn numeric(label: &str, values: &[i64]) -> Attribute {
    Attribute { label: label.to_string(), data: Data::Numeric(values.to_vec()) }
}

fn real_column(label: &str, values: &[i64]) -> Attribute {
    Attribute { label: label.to_string(), data: Data::Real(values.to_vec()) }
}

fn nominal(label: &str, fields: &[&str], values: &[&str]) -> Attribute {
    let mut column = Nominal::new(fields.iter().map(|f| f.to_string()).collect());
    for value in values {
        assert!(fields.contains(value));
        column.push(value);
    }
    Attribute { label: label.to_string(), data: Data::Nominal(Box::new(column)) }
}

fn data_set(attributes: Vec<Attribute>) -> DataSet {
    DataSet::new("relation".to_string(), attributes)
}

fn codes_of_numbers(values: &[i64]) -> Vec<u32> {
    let encoded = ProcessedData::import(&data_set(vec![numeric("x", values)]));
    encoded.get_attribute(0).to_vec()
}

#[test]
fn four_numbers_fall_into_two_buckets() {
    assert_eq!(codes_of_numbers(&[1, 2, 3, 4]), vec![0, 0, 1, 1]);
}

#[test]
fn nine_numbers_fall_into_three_buckets() {
    assert_eq!(
        codes_of_numbers(&[0, 1, 2, 3, 4, 5, 6, 7, 8]),
        vec![0, 0, 0, 1, 1, 1, 2, 2, 2]
    );
    // the order of the instances does not matter for the buckets
    assert_eq!(
        codes_of_numbers(&[8, 0, 4, 3, 6, 5, 2, 7, 1]),
        vec![2, 0, 1, 1, 2, 1, 0, 2, 0]
    );
}

#[test]
fn negative_numbers_are_measured_from_the_least() {
    assert_eq!(codes_of_numbers(&[-10, 0, 10, 20]), vec![0, 0, 1, 1]);
}

#[test]
fn the_whole_range_of_numbers_is_handled() {
    assert_eq!(codes_of_numbers(&[i64::MIN, i64::MAX, 0, 1]), vec![0, 1, 1, 1]);
    assert_eq!(codes_of_numbers(&[i64::MIN, i64::MAX, -1, -2]), vec![0, 1, 0, 0]);
}

#[test]
fn the_number_of_buckets_is_the_square_root_rounded_down() {
    for (len, buckets) in [
        (1usize, 1u32),
        (2, 1),
        (3, 1),
        (4, 2),
        (8, 2),
        (9, 3),
        (15, 3),
        (16, 4),
        (17, 4),
        (99, 9),
        (100, 10),
        (101, 10),
    ] {
        let values: Vec<i64> = (0..len as i64).collect();
        let codes = codes_of_numbers(&values);
        assert_eq!(codes.len(), len);
        assert_eq!(*codes.iter().max().unwrap(), buckets - 1);
        assert_eq!(codes[0], 0);
        // the codes never fall along rising numbers
        assert!(codes.windows(2).all(|pair| pair[0] <= pair[1]));
    }
}

#[test]
fn equal_numbers_all_fall_into_the_first_bucket() {
    assert_eq!(codes_of_numbers(&[7, 7, 7, 7]), vec![0, 0, 0, 0]);
    assert_eq!(codes_of_numbers(&[-3]), vec![0]);
}

#[test]
fn a_column_without_instances_has_no_codes() {
    let encoded = ProcessedData::import(&data_set(vec![numeric("x", &[])]));
    assert_eq!(encoded.attribute_len(), 1);
    assert_eq!(encoded.data_len(), 0);
    assert!(encoded.get_attribute(0).is_empty());
    // a layout without buckets encodes everything as zero
    let later = ProcessedData::import_test_data(
        &data_set(vec![numeric("x", &[5, -3, 0])]),
        encoded.layout(),
    )
    .unwrap();
    assert_eq!(later.get_attribute(0), &[0, 0, 0]);
}

#[test]
fn real_columns_are_encoded_like_numeric_ones() {
    let encoded = ProcessedData::import(&data_set(vec![real_column("x", &[1, 2, 3, 4])]));
    assert_eq!(encoded.get_attribute(0), &[0, 0, 1, 1]);
}

#[test]
fn later_numbers_are_clamped_to_the_fitted_range() {
    let training = ProcessedData::import(&data_set(vec![numeric("x", &[1, 2, 3, 4])]));
    let later = ProcessedData::import_test_data(
        &data_set(vec![numeric("x", &[0, 5, 100, -100, 3, 1, 4, 2])]),
        training.layout(),
    )
    .unwrap();
    assert_eq!(later.get_attribute(0), &[0, 1, 1, 0, 1, 0, 1, 0]);
}

#[test]
fn later_numbers_above_a_single_fitted_number_fall_into_the_last_bucket() {
    let training = ProcessedData::import(&data_set(vec![numeric("x", &[7, 7, 7, 7, 7, 7, 7, 7, 7])]));
    let later = ProcessedData::import_test_data(
        &data_set(vec![numeric("x", &[6, 7, 8, i64::MAX, i64::MIN])]),
        training.layout(),
    )
    .unwrap();
    assert_eq!(later.get_attribute(0), &[0, 0, 2, 2, 0]);
}

#[test]
fn names_are_coded_in_the_order_of_first_occurrence() {
    let encoded = ProcessedData::import(&data_set(vec![nominal(
        "colour",
        &["red", "green", "blue"],
        &["blue", "red", "blue", "green", "red"],
    )]));
    assert_eq!(encoded.get_attribute(0), &[0, 1, 0, 2, 1]);
    match &encoded.layout()[0] {
        DataType::Nominal(layout) => {
            assert_eq!(layout.convert("blue"), 0);
            assert_eq!(layout.convert("red"), 1);
            assert_eq!(layout.convert("green"), 2);
            assert_eq!(layout.lookup("green"), Some(2));
            assert_eq!(layout.lookup("purple"), None);
            assert_eq!(layout.lookup(""), None);
        }
        DataType::Numeric(_) => panic!("a nominal column has a nominal layout"),
    }
}

#[test]
fn a_field_that_never_occurs_gets_no_code() {
    let encoded = ProcessedData::import(&data_set(vec![nominal(
        "colour",
        &["red", "green", "blue"],
        &["green", "green"],
    )]));
    assert_eq!(encoded.get_attribute(0), &[0, 0]);
    match &encoded.layout()[0] {
        DataType::Nominal(layout) => {
            assert_eq!(layout.lookup("green"), Some(0));
            assert_eq!(layout.lookup("red"), None);
        }
        DataType::Numeric(_) => panic!("a nominal column has a nominal layout"),
    }
}

#[test]
fn later_names_get_the_codes_of_the_fitted_layout() {
    let training = ProcessedData::import(&data_set(vec![
        numeric("x", &[1, 2, 3, 4]),
        nominal("colour", &["red", "green", "blue"], &["blue", "red", "blue", "green"]),
    ]));
    // the later data set declares the fields in another order
    let later = ProcessedData::import_test_data(
        &data_set(vec![
            numeric("x", &[4, 1]),
            nominal("colour", &["green", "blue", "red"], &["green", "blue"]),
        ]),
        training.layout(),
    )
    .unwrap();
    assert_eq!(later.attribute_len(), 2);
    assert_eq!(later.data_len(), 2);
    assert_eq!(later.get_attribute(0), &[1, 0]);
    assert_eq!(later.get_attribute(1), &[2, 0]);
    assert_eq!(later.layout().len(), 2);
}

#[test]
fn a_later_name_that_was_never_fitted_is_reported() {
    let training = ProcessedData::import(&data_set(vec![
        numeric("x", &[1, 2, 3, 4]),
        nominal("colour", &["red", "green", "blue"], &["blue", "red", "blue", "green"]),
        nominal("shape", &["round", "square"], &["round", "round", "square", "round"]),
    ]));
    let later = ProcessedData::import_test_data(
        &data_set(vec![
            numeric("x", &[9, 9, 9]),
            nominal("colour", &["red", "purple", "pink"], &["red", "purple", "pink"]),
            nominal("shape", &["round", "oval"], &["oval", "round", "round"]),
        ]),
        training.layout(),
    );
    match later {
        Err(error) => assert_eq!(
            error,
            Error::UnknownCategory { attribute: 1, value: "purple".to_string() }
        ),
        Ok(_) => panic!("the name purple was never fitted"),
    }
}

#[test]
fn a_field_that_was_declared_but_never_fitted_is_reported() {
    let training = ProcessedData::import(&data_set(vec![nominal(
        "colour",
        &["red", "green"],
        &["red", "red"],
    )]));
    let later = ProcessedData::import_test_data(
        &data_set(vec![nominal("colour", &["red", "green"], &["red", "green"])]),
        training.layout(),
    );
    match later {
        Err(Error::UnknownCategory { attribute, value }) => {
            assert_eq!(attribute, 0);
            assert_eq!(value, "green");
        }
        _ => panic!("the name green was never fitted"),
    }
}

#[test]
fn attributes_beyond_the_layouts_are_left_out() {
    let training = ProcessedData::import(&data_set(vec![numeric("x", &[1, 2, 3, 4])]));
    let later = ProcessedData::import_test_data(
        &data_set(vec![numeric("x", &[4]), numeric("y", &[1])]),
        training.layout(),
    )
    .unwrap();
    assert_eq!(later.attribute_len(), 1);
    assert_eq!(later.get_attribute(0), &[1]);

    let wide = ProcessedData::import(&data_set(vec![
        numeric("x", &[1, 2, 3, 4]),
        numeric("y", &[4, 3, 2, 1]),
    ]));
    let narrow = ProcessedData::import_test_data(
        &data_set(vec![numeric("x", &[1, 4])]),
        wide.layout(),
    )
    .unwrap();
    assert_eq!(narrow.attribute_len(), 1);
    assert_eq!(narrow.layout().len(), 1);
    assert_eq!(narrow.get_attribute(0), &[0, 1]);
}

#[test]
fn values_are_read_by_attribute_and_instance() {
    let encoded = ProcessedData::import(&data_set(vec![
        numeric("x", &[1, 2, 3, 4]),
        nominal("colour", &["red", "green"], &["green", "red", "red", "green"]),
    ]));
    assert_eq!(encoded.attribute_len(), 2);
    assert_eq!(encoded.data_len(), 4);
    assert_eq!(encoded.get_value(0, 3), Ok(1));
    assert_eq!(encoded.get_value(1, 0), Ok(0));
    assert_eq!(encoded.get_value(1, 1), Ok(1));
    assert_eq!(
        encoded.get_value(2, 0),
        Err(Error::OutOfBounds(arff_reader::error::Position::Attribute(2)))
    );
    assert_eq!(
        encoded.get_value(1, 4),
        Err(Error::OutOfBounds(arff_reader::error::Position::Instance(4)))
    );
    assert_eq!(
        encoded.get_value(9, 9),
        Err(Error::OutOfBounds(arff_reader::error::Position::Attribute(9)))
    );
}

#[test]
fn a_data_set_without_attributes_is_encoded_to_nothing() {
    let encoded = ProcessedData::import(&data_set(vec![]));
    assert_eq!(encoded.attribute_len(), 0);
    assert_eq!(encoded.data_len(), 0);
    assert!(encoded.layout().is_empty());
}

#[test]
fn a_copy_of_a_layout_encodes_as_the_layout_does() {
    let training = ProcessedData::import(&data_set(vec![
        numeric("x", &[1, 2, 3, 4]),
        nominal("colour", &["red", "green", "blue"], &["blue", "red", "blue", "green"]),
    ]));
    let copy: Vec<DataType> = training.layout().to_vec();
    let later = ProcessedData::import_test_data(
        &data_set(vec![
            numeric("x", &[4, 1, 9]),
            nominal("colour", &["red", "green", "blue"], &["green", "blue", "red"]),
        ]),
        &copy,
    )
    .unwrap();
    assert_eq!(later.get_attribute(0), &[1, 0, 1]);
    assert_eq!(later.get_attribute(1), &[2, 0, 1]);
    match &copy[1] {
        DataType::Nominal(layout) => assert_eq!(layout.clone().lookup("red"), Some(1)),
        DataType::Numeric(_) => panic!("a nominal column has a nominal layout"),
    }
}

#[test]
fn codes_stay_below_the_number_of_buckets() {
    let values: Vec<i64> = (0..50).map(|i| (i * 37) % 101 - 50).collect();
    let encoded = ProcessedData::import(&data_set(vec![numeric("x", &values)]));
    // fifty numbers fall into seven buckets
    assert!(encoded.get_attribute(0).iter().all(|code| *code < 7));
    assert!(encoded.get_attribute(0).contains(&0));
    assert!(encoded.get_attribute(0).contains(&6));
}
