use arff_reader::data_set::{DataEntry, DataSet};
use arff_reader::knn::{rank, KNN, UNIT};

const HEAD: &str = "@relation points\n@attribute x numeric\n@attribute colour {red,blue}\n@attribute class {a,b}\n@data\n";

fn points(rows: &str) -> DataSet {
    DataSet::import(&format!("{}{}", HEAD, rows)).unwrap()
}

#[test]
fn ranking_is_by_rising_key_and_keeps_the_order_of_equal_keys() {
    assert_eq!(rank(&vec![]), Vec::<usize>::new());
    assert_eq!(rank(&vec![5]), vec![0]);
    assert_eq!(rank(&vec![3, 1, 2]), vec![1, 2, 0]);
    assert_eq!(rank(&vec![25, 16, 16, 25]), vec![1, 2, 0, 3]);
    assert_eq!(rank(&vec![7, 7, 7]), vec![0, 1, 2]);
    assert_eq!(rank(&vec![u128::MAX, 0, u128::MAX, 1]), vec![1, 3, 0, 2]);
    assert_eq!(rank(&vec![9, 8, 7, 6, 5, 4, 3, 2, 1, 0]), vec![9, 8, 7, 6, 5, 4, 3, 2, 1, 0]);
}

#[test]
fn neighbours_are_ordered_by_their_distance() {
    let knn = KNN::new(points("1,red,a\n2,red,a\n10,red,b\n11,red,b\n"));
    let test = points("0,red,a\n12,red,b\n6,red,a\n10.4,red,a\n");
    assert_eq!(knn.nearest_neighbors(&test, 0, 2), vec![0, 1, 2, 3]);
    assert_eq!(knn.nearest_neighbors(&test, 1, 2), vec![3, 2, 1, 0]);
    // at the same distance the earlier instance comes first
    assert_eq!(knn.nearest_neighbors(&test, 2, 2), vec![1, 2, 0, 3]);
    assert_eq!(knn.nearest_neighbors(&test, 3, 2), vec![2, 3, 1, 0]);
}

#[test]
fn a_different_name_is_as_far_as_one_unit() {
    assert_eq!(UNIT, 1_000_000 * 1_000_000);
    // the first instance differs by the colour, the second by 1 in x, the third by 0.9,
    // the fourth by 1.1
    let knn = KNN::new(points("5,blue,a\n6,red,a\n5.9,red,b\n3.9,red,b\n"));
    let test = points("5,red,a\n");
    assert_eq!(knn.nearest_neighbors(&test, 0, 2), vec![2, 0, 1, 3]);
    // the target is left out of the distance, whichever attribute it is
    assert_eq!(knn.nearest_neighbors(&test, 0, 1), vec![0, 1, 2, 3]);
    assert_eq!(knn.nearest_neighbors(&test, 0, 0), vec![1, 0, 2, 3]);
}

#[test]
fn far_numbers_do_not_overflow() {
    let head = "@relation far\n@attribute x numeric\n@attribute y numeric\n@attribute class {a,b}\n@data\n";
    let train = DataSet::import(&format!(
        "{}{}",
        head, "9223372036854,9223372036854,a\n-9223372036854,-9223372036854,b\n0,0,a\n"
    ))
    .unwrap();
    let test = DataSet::import(&format!("{}{}", head, "-9223372036854,-9223372036854,a\n")).unwrap();
    let knn = KNN::new(train);
    assert_eq!(knn.nearest_neighbors(&test, 0, 2), vec![1, 2, 0]);
}

#[test]
fn the_nearest_vote_for_the_class() {
    let knn = KNN::new(points("1,red,a\n2,red,a\n10,red,b\n11,red,b\n"));
    let a = DataEntry::Nominal(0);
    let b = DataEntry::Nominal(1);
    assert_eq!(knn.query_k(&[1, 2, 0, 3], 1, 2), a);
    // a tie goes to the value of the nearest
    assert_eq!(knn.query_k(&[1, 2, 0, 3], 2, 2), a);
    assert_eq!(knn.query_k(&[2, 1, 0, 3], 2, 2), b);
    assert_eq!(knn.query_k(&[2, 3, 0], 3, 2), b);
    assert_eq!(knn.query_k(&[2, 0, 1], 3, 2), a);
    // more neighbours are asked for than there are
    assert_eq!(knn.query_k(&[2, 3, 0], 10, 2), b);
    // the vote may be on numbers
    assert_eq!(knn.query_k(&[3, 2, 3], 3, 0), DataEntry::Numeric(11_000_000));
}

#[test]
fn test_counts_for_every_number_of_neighbours() {
    let knn = KNN::new(points("1,red,a\n2,red,a\n10,red,b\n11,red,b\n"));
    let test = points("0,red,a\n12,red,b\n6,red,a\n10.4,red,a\n");
    let scores = knn.test(&test, 2);
    let right: Vec<u64> = scores.iter().map(|score| score.get_right()).collect();
    let wrong: Vec<u64> = scores.iter().map(|score| score.get_wrong()).collect();
    // the last instance lies among the instances of the class b
    assert_eq!(right, vec![3, 3, 3, 3]);
    assert_eq!(wrong, vec![1, 1, 1, 1]);

    let test = points("1.4,red,b\n");
    let scores = knn.test(&test, 2);
    let right: Vec<u64> = scores.iter().map(|score| score.get_right()).collect();
    assert_eq!(right, vec![0, 0, 0, 0]);

    // with three neighbours the two of the class b outvote the nearest
    let knn = KNN::new(points("1,red,a\n3,red,b\n4,red,b\n"));
    let test = points("0,red,a\n");
    let right: Vec<u64> = knn.test(&test, 2).iter().map(|score| score.get_right()).collect();
    assert_eq!(right, vec![1, 1, 0]);
}

#[test]
fn test_without_instances_counts_nothing() {
    let knn = KNN::new(points("1,red,a\n2,red,a\n"));
    let scores = knn.test(&points(""), 2);
    assert_eq!(scores.len(), 2);
    assert!(scores.iter().all(|score| score.get_right() == 0 && score.get_wrong() == 0));
    let knn = KNN::new(points(""));
    assert!(knn.test(&points("1,red,a\n"), 2).is_empty());
}
