use sorting::insertionsort::insertion_point;
use sorting::{InsertionSort, Sorter};

#[derive(Debug, Clone, Copy)]
struct Tagged(i32, char);

impl PartialEq for Tagged {
    fn eq(&self, other: &Self) -> bool {
        self.0 == other.0
    }
}

impl Eq for Tagged {}

impl PartialOrd for Tagged {
    fn partial_cmp(&self, other: &Self) -> Option<std::cmp::Ordering> {
        Some(self.cmp(other))
    }
}

impl Ord for Tagged {
    fn cmp(&self, other: &Self) -> std::cmp::Ordering {
        self.0.cmp(&other.0)
    }
}

fn tags(s: &[Tagged]) -> Vec<(i32, char)> {
    s.iter().map(|t| (t.0, t.1)).collect()
}

#[test]
fn sorts_naive() {
    let mut slice = [5, 4, 3, 2, 1];
    InsertionSort { naive: true }.sort(&mut slice);
    assert_eq!(slice, [1, 2, 3, 4, 5]);
}

#[test]
fn sorts_smart() {
    let mut slice = [5, 4, 3, 2, 1];
    InsertionSort { naive: false }.sort(&mut slice);
    assert_eq!(slice, [1, 2, 3, 4, 5]);
}

#[test]
fn insertion_empty_and_single() {
    for naive in [true, false] {
        let mut empty: [i32; 0] = [];
        InsertionSort { naive }.sort(&mut empty);
        assert_eq!(empty, []);
        let mut one = [1];
        InsertionSort { naive }.sort(&mut one);
        assert_eq!(one, [1]);
    }
}

#[test]
fn insertion_naive_keeps_equal_elements_in_order() {
    let mut slice = [Tagged(2, 'a'), Tagged(2, 'b'), Tagged(1, 'c'), Tagged(1, 'd')];
    InsertionSort { naive: true }.sort(&mut slice);
    assert_eq!(tags(&slice), vec![(1, 'c'), (1, 'd'), (2, 'a'), (2, 'b')]);
}

#[test]
fn insertion_smart_keeps_equal_elements_in_order() {
    let mut slice = [Tagged(2, 'a'), Tagged(2, 'b'), Tagged(1, 'c'), Tagged(1, 'd')];
    InsertionSort { naive: false }.sort(&mut slice);
    assert_eq!(tags(&slice), vec![(1, 'c'), (1, 'd'), (2, 'a'), (2, 'b')]);
}

#[test]
fn insertion_smart_keeps_many_equal_elements_in_order() {
    let mut slice = [
        Tagged(1, 'a'),
        Tagged(0, 'b'),
        Tagged(1, 'c'),
        Tagged(1, 'd'),
        Tagged(0, 'e'),
        Tagged(1, 'f'),
        Tagged(0, 'g'),
    ];
    InsertionSort { naive: false }.sort(&mut slice);
    assert_eq!(
        tags(&slice),
        vec![(0, 'b'), (0, 'e'), (0, 'g'), (1, 'a'), (1, 'c'), (1, 'd'), (1, 'f')]
    );
}

#[test]
fn insertion_sorted_input_unchanged() {
    for naive in [true, false] {
        let mut slice = [1, 2, 3, 4, 5];
        InsertionSort { naive }.sort(&mut slice);
        assert_eq!(slice, [1, 2, 3, 4, 5]);
    }
}

#[test]
fn insertion_with_duplicates() {
    for naive in [true, false] {
        let mut slice = vec![4, 1, 4, 0, 9, 1, -3];
        InsertionSort { naive }.sort(&mut slice);
        assert_eq!(slice, vec![-3, 0, 1, 1, 4, 4, 9]);
    }
}

#[test]
fn insertion_point_goes_past_equal_elements() {
    let slice = [1, 2, 2, 2, 5, 2];
    assert_eq!(insertion_point(&slice, 5), 4);
}

#[test]
fn insertion_point_at_front_and_end() {
    let slice = [3, 4, 5, 1];
    assert_eq!(insertion_point(&slice, 3), 0);
    let slice = [3, 4, 5, 9];
    assert_eq!(insertion_point(&slice, 3), 3);
    let slice = [7];
    assert_eq!(insertion_point(&slice, 0), 0);
}

#[test]
fn insertion_point_in_the_middle() {
    let slice = [10, 20, 30, 40, 25];
    assert_eq!(insertion_point(&slice, 4), 2);
}
