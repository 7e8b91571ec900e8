use arff_reader::data_set::DataEntry;
use arff_reader::{all_equal, majority_vote, majority_vote_ordered, swap_remove};

#[test]
fn majority_vote_ordered_breaks_ties_by_greatest_value() {
    assert_eq!(majority_vote_ordered(&[1, 1, 2, 2, 3]), 2);
}

#[test]
fn majority_vote_ordered_prefers_the_count_to_the_value() {
    assert_eq!(majority_vote_ordered(&[9, 1, 1, 8, 1, 9]), 1);
    assert_eq!(majority_vote_ordered(&[5]), 5);
    assert_eq!(majority_vote_ordered(&[0, u32::MAX]), u32::MAX);
    assert_eq!(majority_vote_ordered(&[3, 2, 1, 3, 2, 1]), 3);
}

#[test]
fn majority_vote_returns_the_first_of_the_most_frequent_values() {
    assert_eq!(majority_vote(&[4u32, 7, 7, 4, 9]), 4);
    assert_eq!(majority_vote(&[7u32, 4, 4, 7, 9]), 7);
    assert_eq!(majority_vote(&[5u32, 6, 6]), 6);
    assert_eq!(majority_vote(&[2u32]), 2);
    assert_eq!(majority_vote(&[1u32, 2, 3, 3, 2, 1, 3]), 3);
}

#[test]
fn majority_vote_counts_entries_of_a_data_set() {
    let votes = [
        DataEntry::Nominal(3),
        DataEntry::Numeric(3),
        DataEntry::Numeric(-1),
        DataEntry::Numeric(3),
        DataEntry::Nominal(3),
        DataEntry::Numeric(3),
    ];
    assert_eq!(majority_vote(&votes), DataEntry::Numeric(3));
    assert_eq!(majority_vote(&votes[..3]), DataEntry::Nominal(3));
}

#[test]
fn all_equal_compares_with_the_first() {
    assert!(all_equal(&[3, 3, 3]));
    assert!(!all_equal(&[3, 3, 4]));
    assert!(!all_equal(&[4, 3, 3]));
    assert!(all_equal(&[8]));
}

#[test]
fn swap_remove_moves_the_last_element_into_the_gap() {
    let mut data = [10, 20, 30, 40];
    {
        let rest = swap_remove(&mut data, 1);
        assert_eq!(rest, &mut [10, 40, 30]);
    }
    assert_eq!(data, [10, 40, 30, 20]);

    let mut letters = ['a', 'b'];
    assert_eq!(swap_remove(&mut letters, 1), &mut ['a']);
    assert_eq!(letters, ['a', 'b']);

    let mut one = [7u8];
    assert!(swap_remove(&mut one, 0).is_empty());
}
