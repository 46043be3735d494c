use flat_tree::Iterator;

#[test]
fn iterator() {
    let mut iterator = Iterator::default();
    assert_eq!(iterator.index(), 0);
    assert_eq!(iterator.parent(), 1);
    assert_eq!(iterator.parent(), 3);
    assert_eq!(iterator.parent(), 7);
    assert_eq!(iterator.right_child(), 11);
    assert_eq!(iterator.left_child(), 9);
    assert_eq!(iterator.next(), Some(13));
    assert_eq!(iterator.left_span(), 12);
}

#[test]
fn non_leaf_start() {
    let mut iterator = Iterator::new(1);
    assert_eq!(iterator.index(), 1);
    assert_eq!(iterator.parent(), 3);
    assert_eq!(iterator.parent(), 7);
    assert_eq!(iterator.right_child(), 11);
    assert_eq!(iterator.left_child(), 9);
    assert_eq!(iterator.next(), Some(13));
    assert_eq!(iterator.left_span(), 12);
}

#[test]
fn new_at_zero_is_the_first_leaf() {
    let mut fresh = Iterator::new(0);
    let mut default = Iterator::default();
    assert_eq!(fresh.index(), 0);
    assert_eq!(default.index(), 0);
    assert!(fresh.is_left());
    assert_eq!(fresh.next(), Some(2));
    assert_eq!(default.next(), Some(2));
    assert_eq!(fresh.next(), Some(4));
}

#[test]
fn seek_to_a_leaf() {
    let mut iterator = Iterator::new(1);
    iterator.seek(10);
    assert_eq!(iterator.index(), 10);
    assert!(iterator.is_right());
    assert_eq!(iterator.next(), Some(12));
    assert_eq!(iterator.prev(), 10);
    assert_eq!(iterator.parent(), 9);
}

#[test]
fn seek_to_an_inner_node() {
    let mut iterator = Iterator::default();
    iterator.seek(11);
    assert_eq!(iterator.index(), 11);
    assert!(iterator.is_right());
    assert_eq!(iterator.next(), Some(19));
    assert_eq!(iterator.prev(), 11);
    assert_eq!(iterator.prev(), 3);
    assert_eq!(iterator.parent(), 7);
}

#[test]
fn seek_past_the_single_shift() {
    let top: usize = (1usize << 40) - 1;
    let mut iterator = Iterator::new(top);
    assert_eq!(iterator.index(), top);
    assert_eq!(iterator.next(), Some(top + (1usize << 41)));
    assert_eq!(iterator.prev(), top);
    assert_eq!(iterator.right_span(), (1usize << 41) - 2);
    iterator.seek(top);
    assert_eq!(iterator.left_span(), 0);
    iterator.seek(top);
    assert_eq!(iterator.parent(), (1usize << 41) - 1);
    assert_eq!(iterator.left_child(), top);
}

#[test]
fn parents_from_a_leaf_with_odd_offset() {
    let mut iterator = Iterator::new(10);
    assert_eq!(iterator.index(), 10);
    assert!(iterator.is_right());
    assert_eq!(iterator.parent(), 9);
    assert!(iterator.is_left());
    assert_eq!(iterator.parent(), 11);
    assert!(iterator.is_right());
    assert_eq!(iterator.parent(), 7);
}

#[test]
fn offset_moves_the_cursor() {
    let mut iterator = Iterator::new(10);
    assert_eq!(iterator.offset(), 5);
    assert_eq!(iterator.index(), 5);
    assert!(iterator.is_right());
    assert_eq!(iterator.parent(), 3);
    assert_eq!(iterator.offset(), 0);
    assert_eq!(iterator.index(), 0);
    assert_eq!(iterator.next(), Some(2));
}

#[test]
fn offset_after_seek_is_the_offset_of_the_index() {
    let mut i: usize = 0;
    while i < 300 {
        let mut iterator = Iterator::new(i);
        assert_eq!(iterator.offset(), flat_tree::offset(i));
        assert_eq!(iterator.index(), flat_tree::offset(i));
        i += 1;
    }
}

#[test]
fn left_and_right() {
    let mut iterator = Iterator::new(0);
    assert!(iterator.is_left());
    assert!(!iterator.is_right());
    iterator.seek(2);
    assert!(!iterator.is_left());
    assert!(iterator.is_right());
    iterator.seek(1);
    assert!(iterator.is_left());
    iterator.seek(5);
    assert!(iterator.is_right());
    assert_eq!(iterator.index(), 5);
}

#[test]
fn prev_stops_at_the_first_node() {
    let mut iterator = Iterator::new(4);
    assert_eq!(iterator.prev(), 2);
    assert_eq!(iterator.prev(), 0);
    assert_eq!(iterator.prev(), 0);
    assert_eq!(iterator.index(), 0);
    iterator.seek(3);
    assert_eq!(iterator.prev(), 3);
    assert_eq!(iterator.next(), Some(11));
}

#[test]
fn sibling_goes_both_ways() {
    let mut iterator = Iterator::new(0);
    assert_eq!(iterator.sibling(), 2);
    assert_eq!(iterator.sibling(), 0);
    iterator.seek(5);
    assert_eq!(iterator.sibling(), 1);
    assert_eq!(iterator.sibling(), 5);
    iterator.seek(19);
    assert_eq!(iterator.sibling(), 27);
    assert_eq!(iterator.sibling(), 19);
}

#[test]
fn children_of_a_leaf_are_the_leaf() {
    let mut i: usize = 0;
    while i < 100 {
        let mut iterator = Iterator::new(i);
        assert_eq!(iterator.left_child(), i);
        assert_eq!(iterator.right_child(), i);
        assert_eq!(iterator.index(), i);
        assert_eq!(iterator.next(), Some(i + 2));
        i += 2;
    }
}

#[test]
fn children_of_inner_nodes() {
    let mut iterator = Iterator::new(7);
    assert_eq!(iterator.left_child(), 3);
    assert_eq!(iterator.left_child(), 1);
    assert_eq!(iterator.left_child(), 0);
    assert_eq!(iterator.left_child(), 0);
    iterator.seek(7);
    assert_eq!(iterator.right_child(), 11);
    assert_eq!(iterator.right_child(), 13);
    assert_eq!(iterator.right_child(), 14);
    assert_eq!(iterator.right_child(), 14);
    assert_eq!(iterator.prev(), 12);
}

#[test]
fn spans() {
    let mut iterator = Iterator::new(7);
    assert_eq!(iterator.left_span(), 0);
    assert_eq!(iterator.next(), Some(2));
    iterator.seek(7);
    assert_eq!(iterator.right_span(), 14);
    assert_eq!(iterator.prev(), 12);
    iterator.seek(11);
    assert_eq!(iterator.left_span(), 8);
    iterator.seek(11);
    assert_eq!(iterator.right_span(), 14);
    iterator.seek(6);
    assert_eq!(iterator.left_span(), 6);
    assert_eq!(iterator.right_span(), 6);
    iterator.seek(0);
    assert_eq!(iterator.left_span(), 0);
}

#[test]
fn parent_then_child_leads_back() {
    let mut i: usize = 0;
    while i < 300 {
        let mut iterator = Iterator::new(i);
        let left = iterator.is_left();
        iterator.parent();
        let back = if left { iterator.left_child() } else { iterator.right_child() };
        assert_eq!(back, i);
        assert_eq!(iterator.is_left(), left);
        assert_eq!(iterator.offset(), flat_tree::offset(i));
        i += 1;
    }
}

#[test]
fn next_then_prev_leads_back() {
    let mut i: usize = 0;
    while i < 300 {
        let mut iterator = Iterator::new(i);
        let left = iterator.is_left();
        let step = iterator.next().unwrap() - i;
        assert_eq!(step, 2usize << flat_tree::depth(i));
        assert_eq!(iterator.prev(), i);
        assert_eq!(iterator.is_left(), left);
        assert_eq!(iterator.next(), Some(i + step));
        i += 1;
    }
}

#[test]
fn moves_agree_with_a_fresh_seek() {
    let mut i: usize = 0;
    while i < 200 {
        let mut moved = Iterator::new(i);
        let parent = moved.parent();
        let mut sought = Iterator::new(parent);
        assert_eq!(moved.is_left(), sought.is_left());
        assert_eq!(moved.next(), sought.next());
        assert_eq!(moved.sibling(), sought.sibling());
        assert_eq!(moved.left_child(), sought.left_child());
        assert_eq!(moved.right_span(), sought.right_span());
        assert_eq!(moved.parent(), sought.parent());
        i += 1;
    }
}

#[test]
fn a_copy_moves_on_its_own() {
    let mut first = Iterator::new(3);
    let mut second = first;
    assert_eq!(first.parent(), 7);
    assert_eq!(second.index(), 3);
    assert_eq!(second.next(), Some(11));
    assert_eq!(first.index(), 7);
}
