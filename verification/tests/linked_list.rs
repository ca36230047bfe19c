use flex_algo::LinkedList;

#[test]
fn test_list_push() {
    let mut dl = LinkedList::new();
    dl.push_front(6);
    dl.push_back(5);
    dl.push_back(7);
}

#[test]
fn test_list_push_front_only() {
    let mut dl: LinkedList<i32> = LinkedList::new();
    dl.push_front(1);
    dl.push_front(2);
    dl.push_front(3);
}
