use learn_std::Vec;

#[test]
fn test_vec() {
    let mut vec = Vec::new();
    vec.push(1);
    vec.push(2);
    vec.push(3);
    assert_eq!(&*vec, &[1, 2, 3]);
    assert_eq!(vec.pop(), Some(3));
    assert_eq!(&*vec, &[1, 2]);
    vec.insert(1, 4);
    assert_eq!(&*vec, &[1, 4, 2]);
    assert_eq!(vec.remove(0), 1);
    assert_eq!(&*vec, &[4, 2]);
    let mut vec = Vec::with_capacity(2);
    vec.push(5);
    vec.push(6);
    vec.push(7);
    assert_eq!(&*vec, &[5, 6, 7]);
}

#[test]
fn vec_pop_after_push_gives_value_back() {
    let mut vec = Vec::new();
    vec.push(10);
    vec.push(20);
    assert_eq!(vec.pop(), Some(20));
    assert_eq!(&*vec, &[10]);
}

#[test]
fn vec_pop_on_empty_is_none() {
    let mut vec: Vec<u8> = Vec::new();
    assert_eq!(vec.pop(), None);
    assert_eq!(vec.len(), 0);
}

#[test]
fn vec_remove_after_insert_restores() {
    let mut vec = Vec::new();
    vec.push('a');
    vec.push('b');
    vec.push('c');
    vec.insert(1, 'x');
    assert_eq!(&*vec, &['a', 'x', 'b', 'c']);
    assert_eq!(vec.remove(1), 'x');
    assert_eq!(&*vec, &['a', 'b', 'c']);
}

#[test]
fn vec_insert_at_both_ends() {
    let mut vec = Vec::with_capacity(1);
    vec.insert(0, 2);
    vec.insert(0, 1);
    vec.insert(2, 3);
    assert_eq!(&*vec, &[1, 2, 3]);
    assert_eq!(vec.remove(2), 3);
    assert_eq!(&*vec, &[1, 2]);
}

#[test]
fn vec_push_mut_hands_back_the_new_element() {
    let mut vec = Vec::new();
    vec.push(1);
    let last = vec.push_mut(2);
    *last = 7;
    assert_eq!(&*vec, &[1, 7]);
}

#[test]
fn vec_grows_past_many_pushes() {
    let mut vec = Vec::new();
    for i in 0..1000u32 {
        vec.push(i);
    }
    assert_eq!(vec.len(), 1000);
    assert_eq!(vec[999], 999);
    assert_eq!(vec[0], 0);
}

#[test]
fn vec_with_capacity_zero_then_push() {
    let mut vec = Vec::with_capacity(0);
    vec.push("a");
    assert_eq!(&*vec, &["a"]);
}
