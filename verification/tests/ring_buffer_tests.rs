use ring_buffer::RingBuffer;

/// The elements in logical order, collected through the immutable traversal.
fn logical_contents(buffer: &RingBuffer<i32>) -> Vec<i32> {
    let mut out = Vec::new();
    let mut it = buffer.iter();
    while let Some(element) = it.next() {
        out.push(*element);
    }
    out
}

#[test]
fn empty() {
    let buffer = RingBuffer::<i32>::new(0, 5);
    assert_eq!(buffer.len(), 0);
    assert_eq!(buffer.is_empty(), true);
}

#[test]
fn single_element() {
    let mut buffer = RingBuffer::<i32>::new(1, 5);
    assert_eq!(buffer.len(), 1);
    assert_eq!(buffer.is_empty(), false);
    assert_eq!(*buffer.index(0), 5);
    *buffer.index_mut(0) = 3;
    assert_eq!(*buffer.index(0), 3);
    assert_eq!(logical_contents(&buffer).iter().eq([3].iter()), true);
    buffer.assign(vec![7]);
    assert_eq!(logical_contents(&buffer).iter().eq([7].iter()), true);
}

#[test]
fn three_elements() {
    let mut buffer = RingBuffer::<i32>::new(3, 0);
    assert_eq!(buffer.len(), 3);
    assert_eq!(*buffer.index(0), 0);
    assert_eq!(*buffer.index(2), 0);
    buffer.assign(vec![1, 2, 3]);
    assert_eq!(logical_contents(&buffer).iter().eq([1, 2, 3].iter()), true);
    assert_eq!(*buffer.index(0), 1);
    assert_eq!(*buffer.index(2), 3);
}

#[test]
fn rotate_forwards() {
    let mut buffer = RingBuffer::<i32>::new(5, 0);
    buffer.assign(vec![1, 2, 3, 4, 5]);
    buffer.rotate(2);
    assert_eq!(*buffer.index(0), 3);
    assert_eq!(*buffer.index(4), 2);
    assert_eq!(
        logical_contents(&buffer).iter().eq([3, 4, 5, 1, 2].iter()),
        true
    );
    assert_eq!(*buffer.index(-2), 1);
    buffer.assign(vec![5, 6, 7, 8, 9]);
    assert_eq!(
        logical_contents(&buffer).iter().eq([5, 6, 7, 8, 9].iter()),
        true
    );
}

#[test]
fn rotate_backwards() {
    let mut buffer = RingBuffer::<i32>::new(3, 0);
    assert_eq!(logical_contents(&buffer).iter().eq([0, 0, 0].iter()), true);
    *buffer.index_mut(0) = 0;
    *buffer.index_mut(1) = 2;
    *buffer.index_mut(2) = 5;
    buffer.rotate(-1);
    assert_eq!(logical_contents(&buffer).iter().eq([5, 0, 2].iter()), true);
    assert_eq!(*buffer.index(-1), 2);
    buffer.assign(vec![5, 6, 7]);
    assert_eq!(logical_contents(&buffer).iter().eq([5, 6, 7].iter()), true);
}

#[test]
fn resize_bigger() {
    let mut buffer = RingBuffer::<i32>::new(3, 0);
    assert_eq!(logical_contents(&buffer).iter().eq([0, 0, 0].iter()), true);
    *buffer.index_mut(0) = 0;
    *buffer.index_mut(1) = 2;
    *buffer.index_mut(2) = 5;
    buffer.rotate(-1);
    buffer.resize(5, 7);
    assert_eq!(
        logical_contents(&buffer).iter().eq([5, 0, 2, 7, 7].iter()),
        true
    );
}

#[test]
fn resize_smaller() {
    let mut buffer = RingBuffer::<i32>::new(3, 0);
    assert_eq!(logical_contents(&buffer).iter().eq([0, 0, 0].iter()), true);
    *buffer.index_mut(0) = 0;
    *buffer.index_mut(1) = 2;
    *buffer.index_mut(2) = 5;
    buffer.rotate(1);
    buffer.resize(2, 7);
    assert_eq!(logical_contents(&buffer).iter().eq([2, 5].iter()), true);
}

#[test]
fn index_is_periodic() {
    let mut buffer = RingBuffer::<i32>::new(3, 0);
    buffer.assign(vec![10, 20, 30]);
    assert_eq!(*buffer.index(1), 20);
    assert_eq!(*buffer.index(4), 20);
    assert_eq!(*buffer.index(7), 20);
    assert_eq!(*buffer.index(-2), 20);
    assert_eq!(*buffer.index(-5), 20);
}

#[test]
fn negative_index_names_last_element() {
    let mut buffer = RingBuffer::<i32>::new(4, 0);
    buffer.assign(vec![1, 2, 3, 4]);
    assert_eq!(*buffer.index(-1), *buffer.index(3));
    assert_eq!(*buffer.index(-1), 4);
}

#[test]
fn new_fills_every_slot() {
    let buffer = RingBuffer::<i32>::new(4, 9);
    assert_eq!(buffer.len(), 4);
    assert_eq!(logical_contents(&buffer), vec![9, 9, 9, 9]);
}

#[test]
fn empty_buffer_iterates_nothing() {
    let buffer = RingBuffer::<i32>::new(0, 3);
    assert_eq!(buffer.is_empty(), true);
    let mut it = buffer.iter();
    assert_eq!(it.next(), None);
    assert_eq!(it.next(), None);
}

#[test]
fn rotation_is_logical_left_shift() {
    let mut buffer = RingBuffer::<i32>::new(5, 0);
    buffer.assign(vec![1, 2, 3, 4, 5]);
    // A delta beyond the capacity wraps: 7 acts as 2.
    buffer.rotate(7);
    assert_eq!(logical_contents(&buffer), vec![3, 4, 5, 1, 2]);
    // A negative delta rotates the other way: -7 acts as -2.
    buffer.rotate(-7);
    assert_eq!(logical_contents(&buffer), vec![1, 2, 3, 4, 5]);
}

#[test]
fn rotation_by_capacity_changes_nothing() {
    let mut buffer = RingBuffer::<i32>::new(3, 0);
    buffer.assign(vec![4, 5, 6]);
    buffer.rotate(3);
    assert_eq!(logical_contents(&buffer), vec![4, 5, 6]);
    buffer.rotate(-6);
    assert_eq!(logical_contents(&buffer), vec![4, 5, 6]);
}

#[test]
fn write_through_after_rotation() {
    let mut buffer = RingBuffer::<i32>::new(3, 0);
    buffer.assign(vec![1, 2, 3]);
    buffer.rotate(1);
    // Logical order is now [2, 3, 1]; write through a wrapped index.
    *buffer.index_mut(4) = 8;
    assert_eq!(*buffer.index(1), 8);
    assert_eq!(*buffer.index(-2), 8);
    assert_eq!(logical_contents(&buffer), vec![2, 8, 1]);
}

#[test]
fn resize_resets_rotation() {
    let mut buffer = RingBuffer::<i32>::new(3, 0);
    buffer.assign(vec![1, 2, 3]);
    buffer.rotate(2);
    let first = *buffer.index(0);
    buffer.resize(3, 7);
    assert_eq!(*buffer.index(0), first);
    assert_eq!(logical_contents(&buffer), vec![3, 1, 2]);
}

#[test]
fn resize_empty_buffer_pads_with_default() {
    let mut buffer = RingBuffer::<i32>::new(0, 1);
    buffer.rotate(5);
    buffer.resize(3, 4);
    assert_eq!(logical_contents(&buffer), vec![4, 4, 4]);
}

#[test]
fn mutable_cursor_visits_each_position_once() {
    let mut buffer = RingBuffer::<i32>::new(3, 0);
    buffer.assign(vec![1, 2, 3]);
    buffer.rotate(1);
    let mut it = buffer.iter_mut();
    let mut visited = Vec::new();
    while it.has_next(&buffer) {
        let element = it.next(&mut buffer);
        visited.push(*element);
        *element += 10;
    }
    assert_eq!(visited, vec![2, 3, 1]);
    assert_eq!(it.has_next(&buffer), false);
    assert_eq!(logical_contents(&buffer), vec![12, 13, 11]);
}
