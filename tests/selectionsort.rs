use sorting::selectionsort::position_of_min;
use sorting::{SelectionSort, Sorter};

#[derive(Debug, Clone, Copy)]
struct Tagged(i32, char);

impl PartialEq for Tagged {
    fn eq(&self, other: &Self) -> bool {
        self.0 == other.0
    }
}

impl Eq for Tagged {}

impl PartialOrd for Tagged {
    fn partial_cmp(&self, other: &Self) -> Option<std::cmp::Ordering> {
        Some(self.cmp(other))
    }
}

impl Ord for Tagged {
    fn cmp(&self, other: &Self) -> std::cmp::Ordering {
        self.0.cmp(&other.0)
    }
}

#[test]
fn selection_sorts_reversed() {
    let mut slice = [5, 4, 3, 2, 1];
    SelectionSort.sort(&mut slice);
    assert_eq!(slice, [1, 2, 3, 4, 5]);
}

#[test]
fn selection_empty_and_single() {
    let mut empty: [i32; 0] = [];
    SelectionSort.sort(&mut empty);
    assert_eq!(empty, []);
    let mut one = [1];
    SelectionSort.sort(&mut one);
    assert_eq!(one, [1]);
}

#[test]
fn selection_sorted_input_unchanged() {
    let mut slice = [1, 2, 3, 4, 5];
    SelectionSort.sort(&mut slice);
    assert_eq!(slice, [1, 2, 3, 4, 5]);
}

#[test]
fn selection_with_duplicates() {
    let mut slice = vec![2, 2, 1, 1];
    SelectionSort.sort(&mut slice);
    assert_eq!(slice, vec![1, 1, 2, 2]);
    let mut slice = vec![0, -5, 12, 7, -5, 3];
    SelectionSort.sort(&mut slice);
    assert_eq!(slice, vec![-5, -5, 0, 3, 7, 12]);
}

#[test]
fn selection_may_reorder_equal_elements() {
    // Bringing (1, 'c') to the front exchanges it with (2, 'a'), which then
    // stands after (2, 'b').
    let mut slice = [Tagged(2, 'a'), Tagged(2, 'b'), Tagged(1, 'c')];
    SelectionSort.sort(&mut slice);
    let tags: Vec<(i32, char)> = slice.iter().map(|t| (t.0, t.1)).collect();
    assert_eq!(tags, vec![(1, 'c'), (2, 'b'), (2, 'a')]);
}

#[test]
fn min_position_takes_the_first_least() {
    let slice = [4, 1, 3, 1, 0, 0];
    assert_eq!(position_of_min(&slice, 0), 4);
    assert_eq!(position_of_min(&slice, 5), 5);
    let slice = [4, 1, 3, 1];
    assert_eq!(position_of_min(&slice, 0), 1);
    assert_eq!(position_of_min(&slice, 2), 3);
}
