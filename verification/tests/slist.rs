use embedded_async::intrusive::slist::{Link, Links, List};

fn pushed_four(links: &mut Links<i32>, list: &mut List<i32>) -> (usize, usize, usize, usize) {
    let l1 = links.add(Link::new());
    let l2 = links.add(Link::new());
    let l3 = links.add(Link::new());
    let l4 = links.add(Link::new());
    list.push(links, 10, l1);
    list.push(links, 10, l2);
    list.push(links, 10, l3);
    list.push(links, 10, l4);

    assert_eq!(list.head_ref(links), Some(l4));
    assert_eq!(links.next(l4), Some(l3));
    assert_eq!(links.next(l3), Some(l2));
    assert_eq!(links.next(l2), Some(l1));
    assert_eq!(links.next(l1), None);
    (l1, l2, l3, l4)
}

#[test]
fn slist_default_link_has_no_owner() {
    let link = Link::<i32>::new();
    assert!(link.owner().is_none());
}

#[test]
fn slist_new_list_is_empty() {
    let links = Links::<i32>::new();
    let list = List::<i32>::new();
    assert!(list.is_empty(&links));
}

#[test]
fn slist_push_to_empty() {
    let mut links = Links::<i32>::new();
    let mut list = List::<i32>::new();
    let link = links.add(Link::new());

    list.push(&mut links, 10, link);
    assert_eq!(links.owner(link), Some(&10));

    assert!(!list.is_empty(&links));
    assert!(links.next(link).is_none());
    assert_eq!(list.head_ref(&links), Some(link));
}

#[test]
fn slist_pop_single_item() {
    let mut links = Links::<i32>::new();
    let mut list = List::<i32>::new();
    let link = links.add(Link::new());

    list.push(&mut links, 10, link);
    assert!(!list.is_empty(&links));
    let popped = list.pop(&mut links);
    assert!(popped.is_some());
    assert!(list.is_empty(&links));
}

#[test]
fn take_list() {
    let mut links = Links::<i32>::new();
    let mut list = List::<i32>::new();
    let link = links.add(Link::new());

    list.push(&mut links, 10, link);
    assert!(!list.is_empty(&links));
    let list2 = list.take();
    assert!(!list2.is_empty(&links));
    assert!(list.is_empty(&links));
    assert_eq!(list2.head_ref(&links), Some(link));
}

#[test]
fn slist_remove_head_item() {
    let mut links = Links::<i32>::new();
    let mut list = List::<i32>::new();
    let (l1, l2, l3, l4) = pushed_four(&mut links, &mut list);

    assert!(list.remove(&mut links, l4));
    assert!(!list.remove(&mut links, l4));

    assert_eq!(list.head_ref(&links), Some(l3));
    assert_eq!(links.next(l3), Some(l2));
    assert_eq!(links.next(l2), Some(l1));
    assert_eq!(links.next(l1), None);
}

#[test]
fn slist_remove_next_to_head_item() {
    let mut links = Links::<i32>::new();
    let mut list = List::<i32>::new();
    let (l1, l2, l3, l4) = pushed_four(&mut links, &mut list);

    assert!(list.remove(&mut links, l3));
    assert_eq!(list.head_ref(&links), Some(l4));
    assert_eq!(links.next(l4), Some(l2));
    assert_eq!(links.next(l2), Some(l1));
    assert_eq!(links.next(l1), None);
    assert_eq!(links.next(l3), None);
}

#[test]
fn slist_remove_in_list_item() {
    let mut links = Links::<i32>::new();
    let mut list = List::<i32>::new();
    let (l1, l2, l3, l4) = pushed_four(&mut links, &mut list);

    assert!(list.remove(&mut links, l2));
    assert_eq!(list.head_ref(&links), Some(l4));
    assert_eq!(links.next(l4), Some(l3));
    assert_eq!(links.next(l3), Some(l1));
    assert_eq!(links.next(l1), None);

    assert_eq!(links.next(l2), None);
}

#[test]
fn slist_pop_is_last_in_first_out() {
    let mut links = Links::<i32>::new();
    let mut list = List::<i32>::new();
    let a = links.add(Link::new());
    let b = links.add(Link::new());
    list.push(&mut links, 1, a);
    list.push(&mut links, 2, b);
    assert_eq!(list.pop(&mut links), Some(b));
    assert_eq!(list.pop(&mut links), Some(a));
    assert_eq!(list.pop(&mut links), None);
}

#[test]
fn slist_remove_absent_link_changes_nothing() {
    let mut links = Links::<i32>::new();
    let mut list = List::<i32>::new();
    let a = links.add(Link::new());
    let b = links.add(Link::new());
    list.push(&mut links, 1, a);
    assert!(!list.remove(&mut links, b));
    assert_eq!(list.head_ref(&links), Some(a));
}
