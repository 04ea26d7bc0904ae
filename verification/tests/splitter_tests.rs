use dataset_pipeline::model::{ClassDir, Fraction, LabeledPath, PipelineError};
use dataset_pipeline::random::{counting_order, shuffled_order};
use dataset_pipeline::sampler::sample_classes;
use dataset_pipeline::splitter::{
    check_fractions, collect_in_order, floor_of_fraction, split, split_in_order,
};

fn numbered_paths(n: usize) -> Vec<LabeledPath> {
    (0..n)
        .map(|i| LabeledPath::new(format!("root/c{}/f{}.png", i % 3, i), format!("c{}", i % 3)))
        .collect()
}

fn frac(numerator: u32, denominator: u32) -> Fraction {
    Fraction { numerator, denominator }
}

fn sorted_path_names(items: &Vec<LabeledPath>) -> Vec<String> {
    let mut names: Vec<String> = items.iter().map(|p| p.path.clone()).collect();
    names.sort();
    names
}

#[test]
fn two_classes_of_ten_split_into_16_2_2() {
    let class = |name: &str| ClassDir {
        name: name.to_string(),
        files: (0..10).map(|i| format!("root/{}/{}.jpg", name, i)).collect(),
    };
    let sample = sample_classes(&vec![class("A"), class("B")], 10, 3);
    assert_eq!(sample.paths.len(), 20);
    let parts = split(&sample.paths, frac(8, 10), frac(1, 10), 3).unwrap();
    assert_eq!(parts.train.len(), 16);
    assert_eq!(parts.test.len(), 2);
    assert_eq!(parts.valid.len(), 2);
}

#[test]
fn split_in_given_order_cuts_where_the_floors_fall() {
    let paths = numbered_paths(20);
    let parts = split_in_order(&paths, &counting_order(20), frac(4, 5), frac(1, 10)).unwrap();
    assert_eq!(parts.train, paths[0..16].to_vec());
    assert_eq!(parts.test, paths[16..18].to_vec());
    assert_eq!(parts.valid, paths[18..20].to_vec());
}

#[test]
fn split_follows_the_order_it_is_given() {
    let paths = numbered_paths(4);
    let order = vec![3, 1, 0, 2];
    let parts = split_in_order(&paths, &order, frac(1, 2), frac(1, 4)).unwrap();
    assert_eq!(parts.train, vec![paths[3].clone(), paths[1].clone()]);
    assert_eq!(parts.test, vec![paths[0].clone()]);
    assert_eq!(parts.valid, vec![paths[2].clone()]);
}

#[test]
fn floors_leave_the_remainder_to_validation() {
    let paths = numbered_paths(10);
    let parts = split_in_order(&paths, &counting_order(10), frac(1, 3), frac(1, 3)).unwrap();
    assert_eq!(parts.train.len(), 3);
    assert_eq!(parts.test.len(), 3);
    assert_eq!(parts.valid.len(), 4);
}

#[test]
fn subsets_are_disjoint_and_cover_the_list() {
    let paths = numbered_paths(53);
    let parts = split(&paths, frac(7, 10), frac(2, 10), 99).unwrap();
    let mut all = parts.train.clone();
    all.extend(parts.test.iter().cloned());
    all.extend(parts.valid.iter().cloned());
    assert_eq!(all.len(), 53);
    let names = sorted_path_names(&all);
    for pair in names.windows(2) {
        assert_ne!(pair[0], pair[1]);
    }
    assert_eq!(names, sorted_path_names(&paths));
}

#[test]
fn split_uses_the_seeded_shuffle() {
    let paths = numbered_paths(30);
    let by_seed = split(&paths, frac(1, 2), frac(1, 4), 11).unwrap();
    let by_order = split_in_order(&paths, &shuffled_order(30, 11), frac(1, 2), frac(1, 4)).unwrap();
    assert_eq!(by_seed, by_order);
    assert_ne!(by_seed.train, paths[0..15].to_vec());
}

#[test]
fn same_seed_gives_the_same_split() {
    let paths = numbered_paths(40);
    let one = split(&paths, frac(8, 10), frac(1, 10), 5).unwrap();
    let other = split(&numbered_paths(40), frac(8, 10), frac(1, 10), 5).unwrap();
    assert_eq!(one, other);
}

#[test]
fn empty_list_splits_into_empty_subsets() {
    let parts = split(&Vec::new(), frac(8, 10), frac(1, 10), 0).unwrap();
    assert!(parts.train.is_empty() && parts.test.is_empty() && parts.valid.is_empty());
}

#[test]
fn fractions_outside_the_open_unit_interval_are_rejected() {
    let paths = numbered_paths(10);
    let good = frac(1, 10);
    for bad in [frac(0, 10), frac(10, 10), frac(11, 10), frac(1, 0), frac(0, 0)] {
        assert_eq!(
            split(&paths, bad, good, 1),
            Err(PipelineError::InvalidFraction { train: bad, test: good })
        );
        assert_eq!(
            split(&paths, good, bad, 1),
            Err(PipelineError::InvalidFraction { train: good, test: bad })
        );
    }
}

#[test]
fn fractions_that_reach_one_together_are_rejected() {
    let paths = numbered_paths(10);
    assert_eq!(
        split(&paths, frac(1, 2), frac(1, 2), 1),
        Err(PipelineError::InvalidFraction { train: frac(1, 2), test: frac(1, 2) })
    );
    assert!(split(&paths, frac(9, 10), frac(2, 10), 1).is_err());
    assert!(split(&paths, frac(9, 10), frac(1, 20), 1).is_ok());
}

#[test]
fn check_fractions_tells_valid_from_invalid() {
    assert!(check_fractions(frac(8, 10), frac(1, 10)));
    assert!(check_fractions(frac(4294967294, 4294967295), frac(1, 4294967295 - 1)) == false);
    assert!(check_fractions(frac(1, 4294967295), frac(1, 4294967295)));
    assert!(!check_fractions(frac(2, 3), frac(1, 3)));
    assert!(!check_fractions(frac(3, 3), frac(1, 3)));
}

#[test]
fn floor_of_fraction_truncates() {
    assert_eq!(floor_of_fraction(20, 8, 10), 16);
    assert_eq!(floor_of_fraction(7, 3, 6), 3);
    assert_eq!(floor_of_fraction(10, 1, 3), 3);
    assert_eq!(floor_of_fraction(0, 1, 2), 0);
    assert_eq!(floor_of_fraction(9, 9, 9), 9);
    assert_eq!(floor_of_fraction(usize::MAX, u64::MAX, u64::MAX), usize::MAX);
}

#[test]
fn collect_in_order_copies_the_named_positions() {
    let paths = numbered_paths(5);
    let order = vec![4, 0, 2, 1, 3];
    assert_eq!(collect_in_order(&paths, &order, 1, 3), vec![paths[0].clone(), paths[2].clone()]);
    assert_eq!(collect_in_order(&paths, &order, 2, 2), Vec::<LabeledPath>::new());
}
