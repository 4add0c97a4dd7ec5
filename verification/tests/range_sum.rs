use segment_tree::monoid::Monoid;
use segment_tree::segment_tree::SegmentTree;

/// Unsigned integers under addition.
#[derive(Clone)]
struct Am(usize);

impl Monoid for Am {
    fn combine(self, right: Self) -> Self {
        Am(self.0 + right.0)
    }

    fn unit() -> Self {
        Am(0)
    }

    fn associative(_a: Self, _b: Self, _c: Self) {}

    fn left_identity(_a: Self) {}

    fn right_identity(_a: Self) {}

    fn op(&self, right: &Self) -> Self {
        Am(self.0 + right.0)
    }

    fn identity() -> Self {
        Am(0)
    }
}

fn sums(values: &[usize]) -> SegmentTree<Am> {
    SegmentTree::init(values.iter().map(|v| Am(*v)).collect())
}

#[test]
fn rsq_test() {
    let seg = SegmentTree::init(vec![Am(1), Am(2), Am(3)]);
    assert!(seg.fold(0, 1).0 == 3);
    assert!(seg.fold(1, 1).0 == 2);
}

#[test]
fn corner_test() {
    let seg = SegmentTree::init(vec![Am(1)]);
    assert!(seg.fold(0, 0).0 == 1);
}

#[test]
fn sum_of_three_over_every_range() {
    let seg = SegmentTree::init(vec![Am(1), Am(2), Am(3)]);
    assert_eq!(seg.fold(0, 0).0, 1);
    assert_eq!(seg.fold(0, 1).0, 3);
    assert_eq!(seg.fold(0, 2).0, 6);
    assert_eq!(seg.fold(1, 1).0, 2);
    assert_eq!(seg.fold(1, 2).0, 5);
    assert_eq!(seg.fold(2, 2).0, 3);
}

#[test]
fn three_values_get_four_leaves() {
    // positions 0..=3 are valid; position 3 is padding
    let seg = SegmentTree::init(vec![Am(1), Am(2), Am(3)]);
    assert_eq!(seg.fold(3, 3).0, 0);
    assert_eq!(seg.fold(0, 3).0, 6);
    assert_eq!(seg.fold(1, 3).0, 5);
    assert_eq!(seg.fold(2, 3).0, 3);
}

#[test]
fn five_values_get_eight_leaves() {
    let seg = sums(&[10, 20, 30, 40, 50]);
    assert_eq!(seg.fold(0, 4).0, 150);
    for right in 5..8 {
        assert_eq!(seg.fold(0, right).0, 150);
        assert_eq!(seg.fold(3, right).0, 90);
        assert_eq!(seg.fold(5, right).0, 0);
    }
    assert_eq!(seg.fold(7, 7).0, 0);
}

#[test]
fn a_power_of_two_of_values_gets_no_padding() {
    let mut seg = sums(&[1, 2, 3, 4]);
    assert_eq!(seg.fold(0, 3).0, 10);
    assert_eq!(seg.fold(3, 3).0, 4);
    // the last leaf is a real position
    seg.update(3, Am(40));
    assert_eq!(seg.fold(0, 3).0, 46);
}

#[test]
fn no_values_give_one_neutral_leaf() {
    let mut seg = SegmentTree::init(Vec::<Am>::new());
    assert_eq!(seg.fold(0, 0).0, 0);
    seg.update(0, Am(9));
    assert_eq!(seg.fold(0, 0).0, 9);
}

#[test]
fn single_value_update() {
    let mut seg = SegmentTree::init(vec![Am(1)]);
    seg.update(0, Am(5));
    assert_eq!(seg.fold(0, 0).0, 5);
}

#[test]
fn update_overwrites_and_does_not_add() {
    let mut seg = sums(&[1, 2, 3]);
    seg.update(1, Am(10));
    assert_eq!(seg.fold(1, 1).0, 10);
    assert_eq!(seg.fold(0, 2).0, 14);
    seg.update(1, Am(0));
    assert_eq!(seg.fold(1, 1).0, 0);
    assert_eq!(seg.fold(0, 2).0, 4);
}

#[test]
fn update_changes_one_position_only() {
    let values = [7, 1, 8, 2, 8, 1];
    for i in 0..8 {
        let mut seg = sums(&values);
        let before: Vec<usize> = (0..8).map(|j| seg.fold(j, j).0).collect();
        seg.update(i, Am(100));
        for j in 0..8 {
            let expected = if j == i { 100 } else { before[j] };
            assert_eq!(seg.fold(j, j).0, expected);
        }
    }
}

#[test]
fn update_of_a_padding_position_is_seen_by_later_folds() {
    let mut seg = sums(&[1, 2, 3]);
    seg.update(3, Am(4));
    assert_eq!(seg.fold(0, 3).0, 10);
    assert_eq!(seg.fold(0, 2).0, 6);
}

#[test]
fn folds_agree_with_a_linear_scan_after_updates() {
    let mut values: Vec<usize> = (1..=11).map(|v| v * v).collect();
    let mut seg = sums(&values);
    values.resize(16, 0);
    let changes = [(0, 5), (15, 9), (7, 0), (8, 1000), (10, 3), (0, 1)];
    for (i, v) in changes {
        seg.update(i, Am(v));
        values[i] = v;
        for left in 0..16 {
            for right in left..16 {
                let expected: usize = values[left..=right].iter().sum();
                assert_eq!(seg.fold(left, right).0, expected);
            }
        }
    }
}
