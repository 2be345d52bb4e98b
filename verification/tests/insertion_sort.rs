use merkle_tree::sort::insertion_sort;

#[test]
fn empty() {
    let mut a: Vec<i32> = vec![];
    insertion_sort(&mut a);
    assert_eq!(a, vec![]);
}

#[test]
fn one() {
    let mut a = vec![1];
    insertion_sort(&mut a);
    assert_eq!(a, vec![1]);
}

#[test]
fn two() {
    let mut a = vec![11, 1];
    insertion_sort(&mut a);
    assert_eq!(a, vec![1, 11]);
}

#[test]
fn repeating_terms() {
    let mut a = vec![11, 1, 51, 1, 5, 3];
    insertion_sort(&mut a);
    assert_eq!(a, vec![1, 1, 3, 5, 11, 51]);
}

#[test]
fn sorted() {
    let mut a = (0..50).collect::<Vec<_>>();
    insertion_sort(&mut a);
    assert_eq!(a, (0..50).collect::<Vec<_>>());
}

#[test]
fn reversed_sorted() {
    let mut a = (0..50).rev().collect::<Vec<_>>();
    insertion_sort(&mut a);
    assert_eq!(a, (0..50).collect::<Vec<_>>());
}

#[test]
fn negative_number() {
    let mut a = vec![1, 1, -5, 7];
    insertion_sort(&mut a);
    assert_eq!(a, vec![-5, 1, 1, 7]);
}

#[test]
fn float_number() {
    let mut a: Vec<f32> = vec![11.0, -4.0, 20.0, 15.9, 13.5, -20.0];
    insertion_sort(&mut a);
    assert_eq!(a, vec![-20.0, -4.0, 11.0, 13.5, 15.9, 20.0]);
}

#[derive(Debug, Clone, Copy, PartialEq)]
struct Ranked {
    rank: i32,
    tag: char,
}

impl PartialOrd for Ranked {
    fn partial_cmp(&self, other: &Self) -> Option<std::cmp::Ordering> {
        self.rank.partial_cmp(&other.rank)
    }
}

#[test]
fn equals_keep_their_order() {
    let mut a = vec![
        Ranked { rank: 2, tag: 'a' },
        Ranked { rank: 1, tag: 'b' },
        Ranked { rank: 2, tag: 'c' },
        Ranked { rank: 1, tag: 'd' },
        Ranked { rank: 0, tag: 'e' },
        Ranked { rank: 2, tag: 'f' },
    ];
    insertion_sort(&mut a);
    let tags: Vec<char> = a.iter().map(|r| r.tag).collect();
    assert_eq!(tags, vec!['e', 'b', 'd', 'a', 'c', 'f']);
}

#[test]
fn sorts_a_slice_of_an_array() {
    let mut a = [9u8, 7, 8, 0, 255, 3];
    insertion_sort(&mut a[1..5]);
    assert_eq!(a, [9, 0, 7, 8, 255, 3]);
}

#[test]
fn extremes_are_ordered() {
    let mut a = vec![i32::MAX, 0, i32::MIN, -1, 1];
    insertion_sort(&mut a);
    assert_eq!(a, vec![i32::MIN, -1, 0, 1, i32::MAX]);
}

#[test]
fn sorting_keeps_every_element() {
    let mut a: Vec<i64> = Vec::new();
    let mut next: i64 = 17;
    for _ in 0..200 {
        a.push(next % 23);
        next = (next * 7919 + 13) % 100_003;
    }
    let mut expected = a.clone();
    expected.sort();
    insertion_sort(&mut a);
    assert_eq!(a, expected);
}

#[test]
fn unordered_values_are_kept() {
    let mut a: Vec<f64> = vec![3.0, f64::NAN, 1.0, 2.0];
    insertion_sort(&mut a);
    assert_eq!(a.len(), 4);
    assert_eq!(a.iter().filter(|v| v.is_nan()).count(), 1);
    for value in [1.0, 2.0, 3.0] {
        assert_eq!(a.iter().filter(|v| **v == value).count(), 1);
    }
}
