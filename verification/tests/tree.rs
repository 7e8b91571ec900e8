use arff_reader::data_set::{Attribute, Data, DataSet, Nominal};
use arff_reader::error::{Error, Position};
use arff_reader::id_3::{ProcessedData, ID3};
use arff_reader::induction::Line;

// A data set of nominal columns whose codes are the given numbers. The
// numbers of a column must start at zero and rise by one with each new
// value, as the codes of a fitted column do.
fn encoded(columns: &[&[u32]]) -> ProcessedData {
    let attributes: Vec<Attribute> = columns
        .iter()
        .enumerate()
        .map(|(index, column)| {
            let fields: Vec<String> = (0..10).map(|code| format!("v{}", code)).collect();
            let mut nominal = Nominal::new(fields);
            for code in column.iter() {
                nominal.push(&format!("v{}", code));
            }
            Attribute { label: format!("a{}", index), data: Data::Nominal(Box::new(nominal)) }
        })
        .collect();
    let data = ProcessedData::import(&DataSet::new("test".to_string(), attributes));
    for (index, column) in columns.iter().enumerate() {
        assert_eq!(&data.get_attribute(index), column);
    }
    data
}

fn trained(columns: &[&[u32]], target: usize) -> ID3 {
    let mut id3 = ID3::new();
    assert_eq!(id3.train(&encoded(columns), target), Ok(()));
    id3
}

#[test]
fn an_attribute_that_determines_the_target_gives_a_tree_of_depth_one() {
    let a: &[u32] = &[0, 1, 0, 1];
    let noise: &[u32] = &[0, 0, 1, 1];
    let target: &[u32] = &[0, 1, 0, 1];
    let id3 = trained(&[a, noise, target], 2);
    assert_eq!(
        id3.display(),
        vec![
            Line::Indent(0),
            Line::Leaf { key: 0, value: 0 },
            Line::Leaf { key: 1, value: 1 },
            Line::Internal { category: 0, key: 0, depth: 0 },
        ]
    );
    assert_eq!(id3.query(&[0, 0, 0]), 0);
    assert_eq!(id3.query(&[0, 1, 1]), 0);
    assert_eq!(id3.query(&[1, 0, 0]), 1);
    assert_eq!(id3.query(&[1, 1, 1]), 1);
}

#[test]
fn leaves_hold_the_target_codes_that_go_with_the_attribute_codes() {
    // the attribute codes 0 and 2 go with the target code 0, the attribute code 1 with 1
    let a: &[u32] = &[0, 1, 2, 1, 2];
    let b: &[u32] = &[0, 1, 0, 1, 0];
    let target: &[u32] = &[0, 1, 0, 1, 0];
    // both attributes determine the target: the earlier one is split on
    let id3 = trained(&[a, b, target], 2);
    assert_eq!(
        id3.display(),
        vec![
            Line::Indent(0),
            Line::Leaf { key: 0, value: 0 },
            Line::Leaf { key: 1, value: 1 },
            Line::Leaf { key: 2, value: 0 },
            Line::Internal { category: 0, key: 0, depth: 0 },
        ]
    );
    assert_eq!(id3.query(&[2, 1, 1]), 0);
    let id3 = trained(&[b, a, target], 2);
    assert_eq!(
        id3.display(),
        vec![
            Line::Indent(0),
            Line::Leaf { key: 0, value: 0 },
            Line::Leaf { key: 1, value: 1 },
            Line::Internal { category: 0, key: 0, depth: 0 },
        ]
    );
    // the target may stand first
    let id3 = trained(&[target, a], 0);
    assert_eq!(
        id3.display(),
        vec![
            Line::Indent(0),
            Line::Leaf { key: 0, value: 0 },
            Line::Leaf { key: 1, value: 1 },
            Line::Leaf { key: 2, value: 0 },
            Line::Internal { category: 1, key: 0, depth: 0 },
        ]
    );
}

#[test]
fn a_code_that_was_never_seen_is_answered_with_the_fallback() {
    let a: &[u32] = &[0, 1, 0, 1];
    let target: &[u32] = &[0, 1, 0, 1];
    let id3 = trained(&[a, target], 1);
    // the codes 0 and 1 of the target are tied: the greater is the fallback
    assert_eq!(id3.query(&[2, 0]), 1);
    assert_eq!(id3.query(&[u32::MAX, 0]), 1);
    assert_eq!(id3.query(&[0, 0]), 0);

    let a: &[u32] = &[0, 1, 0, 1, 0];
    let target: &[u32] = &[0, 1, 0, 1, 0];
    let id3 = trained(&[a, target], 1);
    // now the code 0 of the target is the majority
    assert_eq!(id3.query(&[7, 1]), 0);
    assert_eq!(id3.query(&[1, 0]), 1);
}

#[test]
fn the_attribute_of_least_entropy_is_split_on() {
    let poor: &[u32] = &[0, 1, 0, 1, 0, 1, 0, 1];
    let good: &[u32] = &[0, 0, 0, 1, 1, 1, 1, 1];
    let target: &[u32] = &[0, 0, 0, 0, 1, 1, 1, 1];
    let id3 = trained(&[poor, good, target], 2);
    let lines = id3.display();
    assert_eq!(lines.last(), Some(&Line::Internal { category: 1, key: 0, depth: 0 }));
    // good = 0 is pure; good = 1 holds one instance of target 0 and four of target 1,
    // of which poor = 1 gets two of target 1 and the one of target 0
    assert_eq!(
        lines,
        vec![
            Line::Indent(0),
            Line::Leaf { key: 0, value: 0 },
            Line::Indent(1),
            Line::Leaf { key: 1, value: 1 },
            Line::Leaf { key: 0, value: 1 },
            Line::Internal { category: 0, key: 1, depth: 1 },
            Line::Internal { category: 1, key: 0, depth: 0 },
        ]
    );
    assert_eq!(id3.query(&[0, 0, 9]), 0);
    assert_eq!(id3.query(&[1, 0, 9]), 0);
    assert_eq!(id3.query(&[1, 1, 9]), 1);
    assert_eq!(id3.query(&[0, 1, 9]), 1);
    // below good = 1 an unseen code of poor is answered with that node's majority
    assert_eq!(id3.query(&[5, 1, 9]), 1);
    // an unseen code of good is answered with the majority of all: a tie, so the greater
    assert_eq!(id3.query(&[0, 2, 9]), 1);
}

#[test]
fn of_attributes_with_the_same_entropy_the_first_is_split_on() {
    let a: &[u32] = &[0, 0, 1, 1];
    let b: &[u32] = &[0, 1, 0, 1];
    let target: &[u32] = &[0, 1, 1, 0];
    let id3 = trained(&[a, b, target], 2);
    assert_eq!(
        id3.display(),
        vec![
            Line::Indent(0),
            Line::Indent(1),
            Line::Leaf { key: 0, value: 0 },
            Line::Leaf { key: 1, value: 1 },
            Line::Internal { category: 1, key: 0, depth: 1 },
            Line::Indent(1),
            Line::Leaf { key: 0, value: 1 },
            Line::Leaf { key: 1, value: 0 },
            Line::Internal { category: 1, key: 1, depth: 1 },
            Line::Internal { category: 0, key: 0, depth: 0 },
        ]
    );
    assert_eq!(id3.query(&[0, 0, 0]), 0);
    assert_eq!(id3.query(&[0, 1, 0]), 1);
    assert_eq!(id3.query(&[1, 0, 0]), 1);
    assert_eq!(id3.query(&[1, 1, 0]), 0);
    // every inner node saw a tie of the target codes 0 and 1: its fallback is 1
    assert_eq!(id3.query(&[0, 2, 0]), 1);
    assert_eq!(id3.query(&[1, 2, 0]), 1);
    assert_eq!(id3.query(&[2, 0, 0]), 1);

    // with the columns exchanged the other attribute comes first and is split on
    let id3 = trained(&[b, a, target], 2);
    assert_eq!(id3.display().last(), Some(&Line::Internal { category: 0, key: 0, depth: 0 }));
    assert_eq!(id3.query(&[0, 1, 0]), 1);
}

#[test]
fn the_last_candidate_takes_the_place_of_the_chosen_one() {
    let a: &[u32] = &[0, 0, 0, 0, 1, 1, 1, 1];
    let b: &[u32] = &[0, 0, 1, 1, 0, 0, 1, 1];
    let c: &[u32] = &[0, 0, 1, 1, 0, 0, 1, 1];
    let target: &[u32] = &[0, 0, 0, 1, 1, 1, 1, 0];
    let id3 = trained(&[a, b, c, target], 3);
    let lines = id3.display();
    // the root splits on a; below it b and c are tied, and c now comes first
    assert_eq!(lines.last(), Some(&Line::Internal { category: 0, key: 0, depth: 0 }));
    assert_eq!(
        lines,
        vec![
            Line::Indent(0),
            Line::Indent(1),
            Line::Leaf { key: 0, value: 0 },
            Line::Indent(2),
            Line::Leaf { key: 1, value: 1 },
            Line::Internal { category: 1, key: 1, depth: 2 },
            Line::Internal { category: 2, key: 0, depth: 1 },
            Line::Indent(1),
            Line::Leaf { key: 0, value: 1 },
            Line::Indent(2),
            Line::Leaf { key: 1, value: 1 },
            Line::Internal { category: 1, key: 1, depth: 2 },
            Line::Internal { category: 2, key: 1, depth: 1 },
            Line::Internal { category: 0, key: 0, depth: 0 },
        ]
    );
    // where the attributes run out, the majority decides, and a tie goes to the greater code
    assert_eq!(id3.query(&[0, 1, 1, 0]), 1);
    assert_eq!(id3.query(&[1, 1, 1, 0]), 1);
    assert_eq!(id3.query(&[0, 0, 0, 0]), 0);
    assert_eq!(id3.query(&[1, 0, 0, 0]), 1);
}

#[test]
fn every_answer_is_a_code_of_the_training_target() {
    let a: &[u32] = &[0, 1, 2, 0, 1, 2, 0, 1, 2, 3];
    let b: &[u32] = &[0, 0, 1, 1, 0, 0, 1, 1, 2, 2];
    let target: &[u32] = &[0, 1, 2, 2, 1, 0, 0, 1, 3, 3];
    let id3 = trained(&[a, b, target], 2);
    for x in 0..6 {
        for y in 0..6 {
            let answer = id3.query(&[x, y, 77]);
            assert!(target.contains(&answer));
        }
    }
    // the training instances that no other instance contradicts are answered as trained
    assert_eq!(id3.query(&[3, 2, 0]), 3);
    assert_eq!(id3.query(&[2, 2, 0]), 3);
}

#[test]
fn a_tree_without_candidates_answers_with_the_majority() {
    let target: &[u32] = &[0, 1, 1, 2];
    let id3 = trained(&[target], 0);
    assert_eq!(
        id3.display(),
        vec![Line::Indent(0), Line::Internal { category: 0, key: 0, depth: 0 }]
    );
    assert_eq!(id3.query(&[0]), 1);
    assert_eq!(id3.query(&[5]), 1);
}

#[test]
fn an_untrained_tree_answers_zero() {
    let id3 = ID3::new();
    assert_eq!(id3.query(&[3, 4]), 0);
    assert_eq!(
        id3.display(),
        vec![Line::Indent(0), Line::Internal { category: 0, key: 0, depth: 0 }]
    );
    let id3 = ID3::default();
    assert_eq!(id3.query(&[1]), 0);
    assert_eq!(id3.query(&[]), 0);
}

#[test]
fn an_instance_without_the_code_asked_for_is_answered_with_the_fallback() {
    let a: &[u32] = &[0, 0, 1, 1, 1];
    let b: &[u32] = &[0, 1, 0, 1, 1];
    let target: &[u32] = &[0, 1, 1, 0, 0];
    // neither attribute tells the target alone: the tree splits on a and then on b
    let id3 = trained(&[a, b, target], 2);
    assert_eq!(id3.query(&[0, 0, 0]), 0);
    assert_eq!(id3.query(&[1, 0, 0]), 1);
    assert_eq!(id3.query(&[0, 1, 0]), 1);
    assert_eq!(id3.query(&[1, 1, 0]), 0);
    // three of the five target codes are 0
    assert_eq!(id3.query(&[]), 0);
    // below a = 1 two of the three target codes are 0
    assert_eq!(id3.query(&[1]), 0);
    // below a = 0 the target codes 0 and 1 are tied
    assert_eq!(id3.query(&[0]), 1);
}

#[test]
fn training_on_no_instances_fails() {
    let empty: &[u32] = &[];
    let mut id3 = ID3::new();
    assert_eq!(id3.train(&encoded(&[empty, empty]), 1), Err(Error::EmptyDataset));
    assert_eq!(id3.train(&encoded(&[]), 0), Err(Error::EmptyDataset));
    // the tree is as it was
    assert_eq!(id3.query(&[3, 4]), 0);
}

#[test]
fn training_for_a_target_that_is_no_attribute_fails() {
    let a: &[u32] = &[0, 1];
    let mut id3 = trained(&[a, a], 1);
    assert_eq!(
        id3.train(&encoded(&[a, a]), 2),
        Err(Error::OutOfBounds(Position::Attribute(2)))
    );
    // the tree is as it was
    assert_eq!(id3.query(&[1, 0]), 1);
    assert_eq!(id3.query(&[0, 0]), 0);
}

#[test]
fn training_again_replaces_the_tree() {
    let a: &[u32] = &[0, 1, 0, 1];
    let b: &[u32] = &[0, 0, 1, 1];
    let mut id3 = trained(&[a, b], 1);
    assert_eq!(id3.train(&encoded(&[a, b]), 0), Ok(()));
    assert_eq!(id3.display().last(), Some(&Line::Internal { category: 1, key: 0, depth: 0 }));
}

#[test]
fn test_counts_the_right_and_the_wrong_answers() {
    let a: &[u32] = &[0, 1, 0, 1];
    let target: &[u32] = &[0, 1, 0, 1];
    let id3 = trained(&[a, target], 1);
    let seen: &[u32] = &[0, 1, 0, 1, 1, 0];
    let truth: &[u32] = &[0, 1, 1, 0, 1, 0];
    let score = id3.test(&encoded(&[seen, truth]), 1);
    assert_eq!(score.get_right(), 4);
    assert_eq!(score.get_wrong(), 2);
    let none: &[u32] = &[];
    let score = id3.test(&encoded(&[none, none]), 1);
    assert_eq!(score.get_right(), 0);
    assert_eq!(score.get_wrong(), 0);
}

#[test]
fn numeric_attributes_are_split_on_by_their_buckets() {
    // nine numbers in three buckets; the target follows the bucket
    let attributes = vec![
        Attribute { label: "x".to_string(), data: Data::Numeric(vec![0, 1, 2, 3, 4, 5, 6, 7, 8]) },
        Attribute { label: "y".to_string(), data: Data::Numeric(vec![5, 5, 5, 5, 5, 5, 5, 5, 5]) },
        Attribute {
            label: "class".to_string(),
            data: Data::Numeric(vec![10, 10, 10, 20, 20, 20, 30, 30, 30]),
        },
    ];
    let training = ProcessedData::import(&DataSet::new("numbers".to_string(), attributes));
    let mut id3 = ID3::new();
    assert_eq!(id3.train(&training, 2), Ok(()));
    let later = ProcessedData::import_test_data(
        &DataSet::new(
            "later".to_string(),
            vec![
                Attribute { label: "x".to_string(), data: Data::Numeric(vec![-5, 3, 100, 7]) },
                Attribute { label: "y".to_string(), data: Data::Numeric(vec![5, 9, 0, 5]) },
                Attribute {
                    label: "class".to_string(),
                    data: Data::Numeric(vec![10, 20, 30, 10]),
                },
            ],
        ),
        training.layout(),
    )
    .unwrap();
    let answers: Vec<u32> = (0..later.data_len())
        .map(|instance| {
            let entry: Vec<u32> = (0..later.attribute_len())
                .map(|attribute| later.get_value(attribute, instance).unwrap())
                .collect();
            id3.query(&entry)
        })
        .collect();
    assert_eq!(answers, vec![0, 1, 2, 2]);
    let score = id3.test(&later, 2);
    assert_eq!(score.get_right(), 3);
    assert_eq!(score.get_wrong(), 1);
}
