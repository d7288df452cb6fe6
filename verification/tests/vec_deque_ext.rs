use std::collections::VecDeque;
use wm::vec_deque_ext::VecDequeExt;

#[test]
fn shift_to_index_moves_existing_element_forward() {
    let mut deque: VecDeque<i32> = VecDeque::from(vec![1, 2, 3, 4, 5]);
    deque.shift_to_index(4, 1);
    assert_eq!(deque.into_iter().collect::<Vec<_>>(), vec![2, 3, 4, 5, 1]);
}

#[test]
fn shift_to_index_moves_existing_element_backward() {
    let mut deque: VecDeque<i32> = VecDeque::from(vec![1, 2, 3, 4, 5]);
    deque.shift_to_index(0, 5);
    assert_eq!(deque.into_iter().collect::<Vec<_>>(), vec![5, 1, 2, 3, 4]);
}

#[test]
fn shift_to_index_does_nothing_when_not_found() {
    let mut deque: VecDeque<i32> = VecDeque::from(vec![1, 2, 3]);
    deque.shift_to_index(1, 99);
    assert_eq!(deque.into_iter().collect::<Vec<_>>(), vec![1, 2, 3]);
}

#[test]
fn shift_to_index_handles_out_of_bounds() {
    let mut deque: VecDeque<i32> = VecDeque::from(vec![1, 2, 3]);
    deque.shift_to_index(100, 1);
    assert_eq!(deque.into_iter().collect::<Vec<_>>(), vec![2, 3, 1]);

    let mut deque2: VecDeque<i32> = VecDeque::from(vec![1, 2, 3]);
    deque2.shift_to_index(10, 1);
    assert_eq!(deque2.into_iter().collect::<Vec<_>>(), vec![2, 3, 1]);
}

#[test]
fn shift_to_index_handles_empty_deque() {
    let mut deque: VecDeque<i32> = VecDeque::new();
    deque.shift_to_index(0, 1);
    assert_eq!(deque.into_iter().collect::<Vec<_>>(), Vec::<i32>::new());
}

#[test]
fn shift_to_index_with_single_element() {
    let mut deque: VecDeque<i32> = VecDeque::from(vec![1]);
    deque.shift_to_index(0, 1);
    assert_eq!(deque.into_iter().collect::<Vec<_>>(), vec![1]);
}

#[test]
fn shift_to_index_preserves_other_elements() {
    let mut deque: VecDeque<i32> = VecDeque::from(vec![10, 20, 30, 40]);
    deque.shift_to_index(1, 30);
    assert_eq!(deque.into_iter().collect::<Vec<_>>(), vec![10, 30, 20, 40]);
}

#[test]
fn shift_to_index_moves_only_the_first_occurrence() {
    let mut deque: VecDeque<i32> = VecDeque::from(vec![7, 1, 7, 2]);
    deque.shift_to_index(3, 7);
    assert_eq!(deque.into_iter().collect::<Vec<_>>(), vec![1, 7, 2, 7]);
}

#[test]
fn shift_to_index_lands_at_last_position_past_the_end() {
    let mut deque: VecDeque<u64> = VecDeque::from(vec![4, 5, 6, 7]);
    deque.shift_to_index(9, 5);
    assert_eq!(deque.len(), 4);
    assert_eq!(deque[3], 5);
    assert_eq!(deque.into_iter().collect::<Vec<_>>(), vec![4, 6, 7, 5]);
}
