use arff_reader::data_set::{Attribute, Data, DataEntry, DataSet, Nominal};

fn fields(names: &[&str]) -> Vec<String> {
    names.iter().map(|name| name.to_string()).collect()
}

#[test]
fn nominal_gives_each_field_its_place_as_id() {
    let mut column = Nominal::new(fields(&["red", "green", "blue"]));
    assert_eq!(column.size(), 3);
    assert_eq!(column.get_fields(), &fields(&["red", "green", "blue"])[..]);
    assert!(column.get_data().is_empty());
    assert_eq!(column.get_map().get("red"), Some(&0));
    assert_eq!(column.get_map().get("green"), Some(&1));
    assert_eq!(column.get_map().get("blue"), Some(&2));
    assert_eq!(column.get_map().get("purple"), None);
    assert_eq!(column.get_map().len(), 3);

    column.push("blue");
    column.push("red");
    column.push("blue");
    assert_eq!(column.get_data(), &[2, 0, 2]);
    assert_eq!(column.get(0), "blue");
    assert_eq!(column.get(1), "red");
    assert_eq!(column.get(2), "blue");
    assert_eq!(column.size(), 3);
}

#[test]
fn nominal_counts_a_field_named_twice_once() {
    let mut column = Nominal::new(fields(&["a", "b", "a"]));
    assert_eq!(column.size(), 2);
    // the later place counts
    assert_eq!(column.get_map().get("a"), Some(&2));
    column.push("a");
    assert_eq!(column.get_data(), &[2]);
    assert_eq!(column.get(0), "a");
}

#[test]
fn nominal_ids_wrap_around_after_256_fields() {
    let names: Vec<String> = (0..300).map(|i| format!("f{}", i)).collect();
    let mut column = Nominal::new(names);
    assert_eq!(column.size(), 300);
    assert_eq!(column.get_map().get("f255"), Some(&255));
    assert_eq!(column.get_map().get("f256"), Some(&0));
    assert_eq!(column.get_map().get("f299"), Some(&43));
    column.push("f299");
    assert_eq!(column.get_data(), &[43]);
    assert_eq!(column.get(0), "f43");
}

#[test]
fn nominal_without_fields_is_empty() {
    let column = Nominal::new(Vec::new());
    assert_eq!(column.size(), 0);
    assert!(column.get_fields().is_empty());
    assert!(column.get_data().is_empty());
}

#[test]
fn data_set_hands_out_its_values() {
    let mut colour = Nominal::new(fields(&["red", "green"]));
    colour.push("green");
    colour.push("red");
    let data_set = DataSet::new(
        "things".to_string(),
        vec![
            Attribute { label: "size".to_string(), data: Data::Numeric(vec![15, -4]) },
            Attribute { label: "colour".to_string(), data: Data::Nominal(Box::new(colour)) },
            Attribute { label: "weight".to_string(), data: Data::Real(vec![250, 125]) },
        ],
    );
    assert_eq!(data_set.get_len(), 3);
    assert_eq!(data_set.get_data_len(), 2);
    assert_eq!(data_set.get_attributes().len(), 3);
    assert_eq!(data_set.get_attributes()[1].label, "colour");
    assert_eq!(data_set.get_value(0, 0), DataEntry::Numeric(15));
    assert_eq!(data_set.get_value(0, 1), DataEntry::Numeric(-4));
    assert_eq!(data_set.get_value(1, 0), DataEntry::Nominal(1));
    assert_eq!(data_set.get_value(1, 1), DataEntry::Nominal(0));
    assert_eq!(data_set.get_value(2, 1), DataEntry::Numeric(125));
    assert_eq!(data_set.get_value(0, 1).assume_numeric(), -4);
    assert_eq!(data_set.get_value(1, 0).assume_nominal(), 1);
    assert_eq!(data_set.get_attributes()[1].assume_nominal().get(0), "green");
    assert_eq!(data_set.get_attributes()[0].get_value(0), DataEntry::Numeric(15));
    assert!(matches!(data_set.get_attributes()[2].get_data(), Data::Real(_)));
}

#[test]
fn data_set_without_attributes_has_no_instances() {
    let empty = DataSet::new("nothing".to_string(), Vec::new());
    assert_eq!(empty.get_len(), 0);
    assert_eq!(empty.get_data_len(), 0);
    assert!(empty.get_attributes().is_empty());
}

#[test]
fn data_set_counts_the_instances_of_a_nominal_first_column() {
    let mut colour = Nominal::new(fields(&["red", "green"]));
    colour.push("green");
    colour.push("red");
    colour.push("red");
    let data_set = DataSet::new(
        "things".to_string(),
        vec![Attribute { label: "colour".to_string(), data: Data::Nominal(Box::new(colour)) }],
    );
    assert_eq!(data_set.get_data_len(), 3);
}
