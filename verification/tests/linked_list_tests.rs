use learn_std::LinkedList;

#[test]
fn test_linked_list() {
    let mut linked_list = LinkedList::new();
    linked_list.push_back(1);
    linked_list.push_back(2);
    linked_list.push_back(3);
    assert_eq!(linked_list.len(), 3);
    linked_list.pop_back();
    assert_eq!(linked_list.len(), 2);
    assert_eq!(linked_list.pop_back(), Some(2));
    assert_eq!(linked_list.pop_back(), Some(1));
    assert_eq!(linked_list.pop_back(), None);
}

#[test]
fn linked_list_pop_back_after_push_back_gives_value_back() {
    let mut list = LinkedList::new();
    list.push_back("a");
    list.push_back("b");
    assert_eq!(list.pop_back(), Some("b"));
    assert_eq!(list.len(), 1);
    list.push_back("c");
    assert_eq!(list.pop_back(), Some("c"));
    assert_eq!(list.pop_back(), Some("a"));
    assert_eq!(list.len(), 0);
}

#[test]
fn linked_list_empty_pop_is_none() {
    let mut list: LinkedList<u8> = LinkedList::new();
    assert_eq!(list.len(), 0);
    assert_eq!(list.pop_back(), None);
    assert_eq!(list.len(), 0);
}

#[test]
fn linked_list_push_back_mut_hands_back_the_new_value() {
    let mut list = LinkedList::new();
    list.push_back(1);
    let last = list.push_back_mut(2);
    *last = 20;
    assert_eq!(list.len(), 2);
    assert_eq!(list.pop_back(), Some(20));
    assert_eq!(list.pop_back(), Some(1));
}

#[test]
fn linked_list_len_counts_pushes_less_returned_pops() {
    let mut list = LinkedList::new();
    let mut pushes = 0usize;
    let mut returned = 0usize;
    for step in 0..200usize {
        if step % 3 == 2 || step % 7 == 0 {
            if list.pop_back().is_some() {
                returned += 1;
            }
        } else if step % 2 == 0 {
            list.push_back(step);
            pushes += 1;
        } else {
            *list.push_back_mut(step) += 1;
            pushes += 1;
        }
        assert_eq!(list.len(), pushes - returned);
    }
    let left = list.len();
    for _ in 0..left {
        assert!(list.pop_back().is_some());
    }
    assert_eq!(list.pop_back(), None);
}
