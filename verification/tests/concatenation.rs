use segment_tree::monoid::Monoid;
use segment_tree::segment_tree::SegmentTree;

/// Strings under concatenation: associative, not commutative.
struct Text(String);

impl Monoid for Text {
    fn combine(self, right: Self) -> Self {
        Text(self.0 + &right.0)
    }

    fn unit() -> Self {
        Text(String::new())
    }

    fn associative(_a: Self, _b: Self, _c: Self) {}

    fn left_identity(_a: Self) {}

    fn right_identity(_a: Self) {}

    fn op(&self, right: &Self) -> Self {
        Text(format!("{}{}", self.0, right.0))
    }

    fn identity() -> Self {
        Text(String::new())
    }
}

fn texts(values: &[&str]) -> SegmentTree<Text> {
    SegmentTree::init(values.iter().map(|v| Text(v.to_string())).collect())
}

#[test]
fn concatenation_keeps_the_order() {
    let seg = texts(&["a", "b", "c"]);
    assert_eq!(seg.fold(0, 2).0, "abc");
    assert_eq!(seg.fold(0, 1).0, "ab");
    assert_eq!(seg.fold(1, 2).0, "bc");
    assert_eq!(seg.fold(1, 1).0, "b");
}

#[test]
fn concatenation_over_padding_adds_nothing() {
    let seg = texts(&["a", "b", "c"]);
    assert_eq!(seg.fold(0, 3).0, "abc");
    assert_eq!(seg.fold(3, 3).0, "");
}

#[test]
fn concatenation_over_every_range() {
    let letters = ["k", "l", "m", "n", "o", "p", "q", "r", "s", "t", "u"];
    let seg = texts(&letters);
    let mut leaves: Vec<&str> = letters.to_vec();
    leaves.resize(16, "");
    for left in 0..16 {
        for right in left..16 {
            let expected: String = leaves[left..=right].concat();
            assert_eq!(seg.fold(left, right).0, expected);
        }
    }
}

#[test]
fn concatenation_after_updates() {
    let mut seg = texts(&["a", "b", "c", "d", "e"]);
    seg.update(2, Text("XY".to_string()));
    assert_eq!(seg.fold(0, 4).0, "abXYde");
    assert_eq!(seg.fold(2, 2).0, "XY");
    assert_eq!(seg.fold(1, 3).0, "bXYd");
    seg.update(0, Text(String::new()));
    assert_eq!(seg.fold(0, 4).0, "bXYde");
    seg.update(7, Text("!".to_string()));
    assert_eq!(seg.fold(0, 7).0, "bXYde!");
    assert_eq!(seg.fold(5, 6).0, "");
}
