use sorting::{BubbleSort, Sorter};

#[derive(Debug, Clone, Copy)]
struct Tagged(i32, char);

impl PartialEq for Tagged {
    fn eq(&self, other: &Self) -> bool {
        self.0 == other.0
    }
}

impl Eq for Tagged {}

impl PartialOrd for Tagged {
    fn partial_cmp(&self, other: &Self) -> Option<std::cmp::Ordering> {
        Some(self.cmp(other))
    }
}

impl Ord for Tagged {
    fn cmp(&self, other: &Self) -> std::cmp::Ordering {
        self.0.cmp(&other.0)
    }
}

fn tags(s: &[Tagged]) -> Vec<(i32, char)> {
    s.iter().map(|t| (t.0, t.1)).collect()
}

#[test]
fn sorts() {
    let mut slice = [5, 4, 3, 2, 1];
    BubbleSort.sort(&mut slice);
    assert_eq!(slice, [1, 2, 3, 4, 5]);
}

#[test]
fn bubble_empty() {
    let mut slice: [i32; 0] = [];
    BubbleSort.sort(&mut slice);
    assert_eq!(slice, []);
}

#[test]
fn bubble_single() {
    let mut slice = [1];
    BubbleSort.sort(&mut slice);
    assert_eq!(slice, [1]);
}

#[test]
fn bubble_keeps_equal_elements_in_order() {
    let mut slice = [Tagged(2, 'a'), Tagged(2, 'b'), Tagged(1, 'c'), Tagged(1, 'd')];
    BubbleSort.sort(&mut slice);
    assert_eq!(tags(&slice), vec![(1, 'c'), (1, 'd'), (2, 'a'), (2, 'b')]);
}

#[test]
fn bubble_sorted_input_takes_one_pass() {
    let mut slice = [1, 2, 3, 4, 5];
    let passes = BubbleSort.sort_counting_passes(&mut slice);
    assert_eq!(slice, [1, 2, 3, 4, 5]);
    assert_eq!(passes, 1);
}

#[test]
fn bubble_reversed_input_takes_several_passes() {
    let mut slice = [5, 4, 3, 2, 1];
    let passes = BubbleSort.sort_counting_passes(&mut slice);
    assert_eq!(slice, [1, 2, 3, 4, 5]);
    assert_eq!(passes, 5);
}

#[test]
fn bubble_empty_takes_one_pass() {
    let mut slice: [u8; 0] = [];
    assert_eq!(BubbleSort.sort_counting_passes(&mut slice), 1);
}

#[test]
fn bubble_with_duplicates_and_negatives() {
    let mut slice = vec![3, -1, 3, 0, -7, 2, 2];
    BubbleSort.sort(&mut slice);
    assert_eq!(slice, vec![-7, -1, 0, 2, 2, 3, 3]);
}

#[test]
fn bubble_sorting_twice_changes_nothing() {
    let mut slice = vec![9, 1, 8, 2, 7];
    BubbleSort.sort(&mut slice);
    let once = slice.clone();
    BubbleSort.sort(&mut slice);
    assert_eq!(slice, once);
}
