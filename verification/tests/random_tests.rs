use dataset_pipeline::random::{counting_order, draw_positions, shuffled_order, MAX_POOL};

fn sorted_copy_of_positions(positions: &Vec<usize>) -> Vec<usize> {
    let mut copy = positions.clone();
    copy.sort();
    copy
}

#[test]
fn counting_order_counts_up_from_zero() {
    assert_eq!(counting_order(0), Vec::<usize>::new());
    assert_eq!(counting_order(4), vec![0, 1, 2, 3]);
}

#[test]
fn draw_takes_the_amount_asked_for() {
    let picks = draw_positions(10, 3, 42);
    assert_eq!(picks.len(), 3);
    for p in &picks {
        assert!(*p < 10);
    }
    let sorted = sorted_copy_of_positions(&picks);
    assert!(sorted[0] != sorted[1] && sorted[1] != sorted[2]);
}

#[test]
fn draw_takes_everything_from_a_short_pool() {
    let picks = draw_positions(5, 9, 7);
    assert_eq!(sorted_copy_of_positions(&picks), vec![0, 1, 2, 3, 4]);
}

#[test]
fn draw_from_an_empty_pool_is_empty() {
    assert_eq!(draw_positions(0, 3, 1), Vec::<usize>::new());
    assert_eq!(draw_positions(6, 0, 1), Vec::<usize>::new());
}

#[test]
fn shuffle_is_a_permutation_and_not_the_identity() {
    let order = shuffled_order(50, 1);
    assert_eq!(sorted_copy_of_positions(&order), counting_order(50));
    assert_ne!(order, counting_order(50));
}

#[test]
fn same_seed_gives_the_same_draw() {
    assert_eq!(draw_positions(100, 10, 2024), draw_positions(100, 10, 2024));
    assert_eq!(shuffled_order(30, 5), shuffled_order(30, 5));
}

#[test]
fn different_seeds_give_different_shuffles() {
    assert_ne!(shuffled_order(40, 1), shuffled_order(40, 2));
}

#[test]
fn blocks_of_a_pool_hold_up_to_the_largest_32_bit_number() {
    assert_eq!(MAX_POOL, 4294967295);
}
