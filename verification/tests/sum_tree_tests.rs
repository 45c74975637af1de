use tile_dqn::fixed::FIXED_ONE;
use tile_dqn::sum_tree::SumTree;

#[test]
fn initial_sum_is_zero() {
    let tree = SumTree::with_capacity(8);
    assert_eq!(tree.total(), 0);
}

#[test]
fn value_update_changes_total_sum() {
    let mut tree = SumTree::with_capacity(8);
    tree.update(0, FIXED_ONE);
    assert_eq!(tree.total(), FIXED_ONE);
    tree.update(1, FIXED_ONE);
    assert_eq!(tree.total(), 2 * FIXED_ONE);
    tree.update(2, FIXED_ONE);
    assert_eq!(tree.total(), 3 * FIXED_ONE);
}

#[test]
fn sampling() {
    let mut tree = SumTree::with_capacity(8);
    for i in 0..8 {
        tree.update(i, (i as u64 + 1) * FIXED_ONE);
    }

    let mut value = 0;
    for i in 0..8 {
        value += i as u64 * FIXED_ONE;
        assert_eq!(
            tree.sample_index(value),
            i,
            "Value {value} should be mapped to index {i}"
        );
    }
}

#[test]
fn sampling_respects_prefix_intervals() {
    let mut tree = SumTree::with_capacity(4);
    tree.update(0, 5);
    tree.update(1, 1);
    tree.update(2, 3);
    tree.update(3, 2);
    // Prefix sums are 0, 5, 6, 9, 11: every value selects the slot whose
    // interval contains it.
    let expected = [0, 0, 0, 0, 0, 1, 2, 2, 2, 3, 3];
    for (value, slot) in expected.iter().enumerate() {
        let (index, priority) = tree.sample(value as u64);
        assert_eq!(index, *slot);
        assert!(priority > 0);
    }
}

#[test]
fn updating_a_slot_twice_keeps_the_latest_value() {
    let mut tree = SumTree::with_capacity(4);
    tree.update(1, 7);
    tree.update(1, 2);
    tree.update(3, 4);
    assert_eq!(tree.total(), 6);
}
