use sparkles::fifo::{can_pop, can_push};

#[test]
fn can_pop_test_1n() {
    let index_mask: usize = 3;
    assert_eq!(can_pop(0, 0, 1, index_mask), false); // from the truth table
    assert_eq!(can_pop(0, 1, 1, index_mask), true);
    assert_eq!(can_pop(0, 2, 1, index_mask), true);
    assert_eq!(can_pop(0, 3, 1, index_mask), true);
    assert_eq!(can_pop(1, 0, 1, index_mask), true);
    assert_eq!(can_pop(1, 1, 1, index_mask), false);
    assert_eq!(can_pop(1, 2, 1, index_mask), true);
    assert_eq!(can_pop(1, 3, 1, index_mask), true);
    assert_eq!(can_pop(2, 0, 1, index_mask), true);
    assert_eq!(can_pop(2, 1, 1, index_mask), true);
    assert_eq!(can_pop(2, 2, 1, index_mask), false);
    assert_eq!(can_pop(2, 3, 1, index_mask), true);
    assert_eq!(can_pop(3, 0, 1, index_mask), true);
    assert_eq!(can_pop(3, 1, 1, index_mask), true);
    assert_eq!(can_pop(3, 2, 1, index_mask), true);
    assert_eq!(can_pop(3, 3, 1, index_mask), false);
}

#[test]
fn can_pop_test_2n() {
    let index_mask: usize = 3;
    assert_eq!(can_pop(0, 0, 2, index_mask), false);
    assert_eq!(can_pop(0, 1, 2, index_mask), false);
    assert_eq!(can_pop(0, 2, 2, index_mask), true);
    assert_eq!(can_pop(0, 3, 2, index_mask), true);
    assert_eq!(can_pop(1, 0, 2, index_mask), true);
    assert_eq!(can_pop(1, 1, 2, index_mask), false);
    assert_eq!(can_pop(1, 2, 2, index_mask), false);
    assert_eq!(can_pop(1, 3, 2, index_mask), true);
    assert_eq!(can_pop(2, 0, 2, index_mask), true);
    assert_eq!(can_pop(2, 1, 2, index_mask), true);
    assert_eq!(can_pop(2, 2, 2, index_mask), false);
    assert_eq!(can_pop(2, 3, 2, index_mask), false);
    assert_eq!(can_pop(3, 0, 2, index_mask), false);
    assert_eq!(can_pop(3, 1, 2, index_mask), true);
    assert_eq!(can_pop(3, 2, 2, index_mask), true);
    assert_eq!(can_pop(3, 3, 2, index_mask), false);
}

#[test]
fn can_pop_test_3n() {
    let index_mask: usize = 3;
    assert_eq!(can_pop(0, 0, 3, index_mask), false);
    assert_eq!(can_pop(0, 1, 3, index_mask), false);
    assert_eq!(can_pop(0, 2, 3, index_mask), false);
    assert_eq!(can_pop(0, 3, 3, index_mask), true);
    assert_eq!(can_pop(1, 0, 3, index_mask), true);
    assert_eq!(can_pop(1, 1, 3, index_mask), false);
    assert_eq!(can_pop(1, 2, 3, index_mask), false);
    assert_eq!(can_pop(1, 3, 3, index_mask), false);
    assert_eq!(can_pop(2, 0, 3, index_mask), false);
    assert_eq!(can_pop(2, 1, 3, index_mask), true);
    assert_eq!(can_pop(2, 2, 3, index_mask), false);
    assert_eq!(can_pop(2, 3, 3, index_mask), false);
    assert_eq!(can_pop(3, 0, 3, index_mask), false);
    assert_eq!(can_pop(3, 1, 3, index_mask), false);
    assert_eq!(can_pop(3, 2, 3, index_mask), true);
    assert_eq!(can_pop(3, 3, 3, index_mask), false);
}

#[test]
fn can_push_test_1n() {
    let index_mask: usize = 3;
    assert_eq!(can_push(0, 0, 1, index_mask), true);
    assert_eq!(can_push(0, 1, 1, index_mask), true);
    assert_eq!(can_push(0, 2, 1, index_mask), true);
    assert_eq!(can_push(0, 3, 1, index_mask), false);
    assert_eq!(can_push(1, 0, 1, index_mask), false);
    assert_eq!(can_push(1, 1, 1, index_mask), true);
    assert_eq!(can_push(1, 2, 1, index_mask), true);
    assert_eq!(can_push(1, 3, 1, index_mask), true);
    assert_eq!(can_push(2, 0, 1, index_mask), true);
    assert_eq!(can_push(2, 1, 1, index_mask), false);
    assert_eq!(can_push(2, 2, 1, index_mask), true);
    assert_eq!(can_push(2, 3, 1, index_mask), true);
    assert_eq!(can_push(3, 0, 1, index_mask), true);
    assert_eq!(can_push(3, 1, 1, index_mask), true);
    assert_eq!(can_push(3, 2, 1, index_mask), false);
    assert_eq!(can_push(3, 3, 1, index_mask), true);
}

#[test]
fn can_push_test_2n() {
    let index_mask: usize = 3;
    assert_eq!(can_push(0, 0, 2, index_mask), true);
    assert_eq!(can_push(0, 1, 2, index_mask), true);
    assert_eq!(can_push(0, 2, 2, index_mask), false);
    assert_eq!(can_push(0, 3, 2, index_mask), false);
    assert_eq!(can_push(1, 0, 2, index_mask), false);
    assert_eq!(can_push(1, 1, 2, index_mask), true);
    assert_eq!(can_push(1, 2, 2, index_mask), true);
    assert_eq!(can_push(2, 0, 2, index_mask), false);
    assert_eq!(can_push(2, 1, 2, index_mask), false);
    assert_eq!(can_push(2, 2, 2, index_mask), true);
    assert_eq!(can_push(2, 3, 2, index_mask), true);
    assert_eq!(can_push(3, 0, 2, index_mask), true);
    assert_eq!(can_push(3, 1, 2, index_mask), false);
    assert_eq!(can_push(3, 2, 2, index_mask), false);
    assert_eq!(can_push(3, 3, 2, index_mask), true);
}
