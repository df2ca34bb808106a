use embedded_async::intrusive::double_list::{Link, Links, List, Node};

fn four_links(links: &mut Links<i32>) -> (usize, usize, usize, usize) {
    let l1 = links.add(Link::new());
    let l2 = links.add(Link::new());
    let l3 = links.add(Link::new());
    let l4 = links.add(Link::new());
    (l1, l2, l3, l4)
}

fn pushed_front(links: &mut Links<i32>, list: &mut List<i32>) -> (usize, usize, usize, usize) {
    let (l1, l2, l3, l4) = four_links(links);
    list.push_link_front(links, 10, l1);
    list.push_link_front(links, 10, l2);
    list.push_link_front(links, 10, l3);
    list.push_link_front(links, 10, l4);
    let head = list.head().unwrap();
    let tail = list.tail(links).unwrap();
    assert_eq!(links.next(head), Some(l4));
    assert_eq!(links.next(l4), Some(l3));
    assert_eq!(links.next(l3), Some(l2));
    assert_eq!(links.next(l2), Some(l1));
    assert_eq!(links.next(l1), Some(tail));
    (l1, l2, l3, l4)
}

#[test]
fn double_list_default_link_has_no_owner() {
    let link = Link::<i32>::new();
    assert!(link.owner().is_none());
}

#[test]
fn double_list_new_list_is_empty() {
    let links = Links::<i32>::new();
    let list = List::<i32>::new();
    assert!(list.is_empty(&links));
}

#[test]
fn double_list_push_to_empty() {
    let mut links = Links::<i32>::new();
    let mut list = List::<i32>::new();
    let link = links.add(Link::new());

    list.push_link_front(&mut links, 10, link);
    assert_eq!(links.owner(link), Some(&10));

    assert!(!list.is_empty(&links));
    let head = list.head().unwrap();
    let tail = list.tail(&links).unwrap();
    assert_eq!(links.next(link), Some(tail));
    assert_eq!(links.prev(tail), Some(link));
    assert_eq!(links.next(head), Some(link));
}

#[test]
fn push_front() {
    let mut links = Links::<i32>::new();
    let mut list = List::<i32>::new();
    pushed_front(&mut links, &mut list);
}

#[test]
fn push_back() {
    let mut links = Links::<i32>::new();
    let mut list = List::<i32>::new();
    let (l1, l2, l3, l4) = four_links(&mut links);
    list.push_link_back(&mut links, 10, l1);
    list.push_link_back(&mut links, 10, l2);
    list.push_link_back(&mut links, 10, l3);
    list.push_link_back(&mut links, 10, l4);

    let head = list.head().unwrap();
    let tail = list.tail(&links).unwrap();
    assert_eq!(links.next(head), Some(l1));
    assert_eq!(links.next(l1), Some(l2));
    assert_eq!(links.next(l2), Some(l3));
    assert_eq!(links.next(l3), Some(l4));
    assert_eq!(links.next(l4), Some(tail));
}

#[test]
fn double_list_pop_single_item() {
    let mut links = Links::<i32>::new();
    let mut list = List::<i32>::new();
    let link = links.add(Link::new());

    list.push_link_front(&mut links, 10, link);
    assert!(!list.is_empty(&links));
    let popped = list.pop_front(&mut links);
    assert!(popped.is_some());
    assert_eq!(links.owner(popped.unwrap()), Some(&10));
    assert!(list.is_empty(&links));
}

#[test]
fn pop_item() {
    let mut links = Links::<i32>::new();
    let mut list = List::<i32>::new();
    let (l1, l2, l3, l4) = four_links(&mut links);
    list.push_link_back(&mut links, 10, l1);
    list.push_link_back(&mut links, 10, l2);
    list.push_link_back(&mut links, 10, l3);
    list.push_link_back(&mut links, 10, l4);

    let head = list.head().unwrap();
    let tail = list.tail(&links).unwrap();
    assert_eq!(links.next(head), Some(l1));
    assert_eq!(links.next(l1), Some(l2));
    assert_eq!(links.next(l2), Some(l3));
    assert_eq!(links.next(l3), Some(l4));
    assert_eq!(links.next(l4), Some(tail));

    assert_eq!(list.pop_front(&mut links), Some(l1));
    assert_eq!(links.next(head), Some(l2));
    assert_eq!(links.next(l2), Some(l3));
    assert_eq!(links.next(l3), Some(l4));
    assert_eq!(links.next(l4), Some(tail));

    assert_eq!(links.prev(l1), None);
    assert_eq!(links.next(l1), None);
}

#[test]
fn move_to_empty() {
    let mut links = Links::<i32>::new();
    let mut list = List::<i32>::new();
    let mut list2 = List::<i32>::new();
    let (l1, l2, l3, l4) = four_links(&mut links);

    list.push_link_back(&mut links, 10, l1);
    list.push_link_back(&mut links, 10, l2);
    list2.push_link_back(&mut links, 10, l3);
    list2.push_link_back(&mut links, 10, l4);

    list.move_to_front_of(&mut links, &mut list2);

    assert!(list.is_empty(&links));
    assert!(!list2.is_empty(&links));

    let head2 = list2.head().unwrap();
    let tail2 = list2.tail(&links).unwrap();
    assert_eq!(links.next(head2), Some(l1));
    assert_eq!(links.prev(l1), Some(head2));
    assert_eq!(links.next(l1), Some(l2));
    assert_eq!(links.next(l2), Some(l3));
    assert_eq!(links.next(l3), Some(l4));
    assert_eq!(links.next(l4), Some(tail2));
}

#[test]
fn move_to_existing() {
    let mut links = Links::<i32>::new();
    let mut list = List::<i32>::new();
    let link = links.add(Link::new());

    list.push_link_front(&mut links, 10, link);
    assert!(!list.is_empty(&links));
    let mut list2 = List::<i32>::new();
    list.move_to_front_of(&mut links, &mut list2);
    assert!(!list2.is_empty(&links));
    assert!(list.is_empty(&links));
    let head2 = list2.head().unwrap();
    assert_eq!(links.next(head2), Some(link));
    assert_eq!(links.prev(link), Some(head2));
}

#[test]
fn double_list_remove_head_item() {
    let mut links = Links::<i32>::new();
    let mut list = List::<i32>::new();
    let (l1, l2, l3, l4) = pushed_front(&mut links, &mut list);

    links.unlink(l4);

    let head = list.head().unwrap();
    let tail = list.tail(&links).unwrap();
    assert_eq!(links.next(head), Some(l3));
    assert_eq!(links.next(l3), Some(l2));
    assert_eq!(links.next(l2), Some(l1));
    assert_eq!(links.next(l1), Some(tail));
}

#[test]
fn double_list_remove_next_to_head_item() {
    let mut links = Links::<i32>::new();
    let mut list = List::<i32>::new();
    let (l1, l2, l3, l4) = pushed_front(&mut links, &mut list);

    links.unlink(l3);

    let head = list.head().unwrap();
    let tail = list.tail(&links).unwrap();
    assert_eq!(links.next(head), Some(l4));
    assert_eq!(links.next(l4), Some(l2));
    assert_eq!(links.next(l2), Some(l1));
    assert_eq!(links.next(l1), Some(tail));

    assert_eq!(links.next(l3), None);
    assert_eq!(links.prev(l3), None);
}

#[test]
fn double_list_remove_in_list_item() {
    let mut links = Links::<i32>::new();
    let mut list = List::<i32>::new();
    let (l1, l2, l3, l4) = pushed_front(&mut links, &mut list);

    links.unlink(l2);

    let head = list.head().unwrap();
    let tail = list.tail(&links).unwrap();
    assert_eq!(links.next(head), Some(l4));
    assert_eq!(links.next(l4), Some(l3));
    assert_eq!(links.next(l3), Some(l1));
    assert_eq!(links.next(l1), Some(tail));

    assert_eq!(links.next(l2), None);
}

fn collect_owners(list: &List<usize>, links: &Links<usize>) -> Vec<usize> {
    let mut out = Vec::new();
    let mut it = list.iter(links);
    while let Some(l) = it.next(links) {
        out.push(*links.owner(l).unwrap());
    }
    out
}

#[test]
fn iter_test_push_front() {
    let items = [1usize, 2, 3, 4];
    let mut links = Links::<usize>::new();
    let mut list = List::<usize>::new();
    let l1 = links.add(Link::new());
    let l2 = links.add(Link::new());
    let l3 = links.add(Link::new());
    let l4 = links.add(Link::new());

    list.push_link_front(&mut links, items[3], l1);
    list.push_link_front(&mut links, items[2], l2);
    list.push_link_front(&mut links, items[1], l3);
    list.push_link_front(&mut links, items[0], l4);

    for (i, x) in collect_owners(&list, &links).into_iter().enumerate() {
        assert_eq!(i + 1, x);
    }
}

#[test]
fn iter_test_push_back() {
    let items = [1usize, 2, 3, 4];
    let mut links = Links::<usize>::new();
    let mut list = List::<usize>::new();
    let l1 = links.add(Link::new());
    let l2 = links.add(Link::new());
    let l3 = links.add(Link::new());
    let l4 = links.add(Link::new());

    list.push_link_back(&mut links, items[0], l1);
    list.push_link_back(&mut links, items[1], l2);
    list.push_link_back(&mut links, items[2], l3);
    list.push_link_back(&mut links, items[3], l4);

    for (i, x) in collect_owners(&list, &links).into_iter().enumerate() {
        assert_eq!(i + 1, x);
    }
}

#[test]
fn iter_visits_every_member_once() {
    let mut links = Links::<usize>::new();
    let mut list = List::<usize>::new();
    for v in 1..=5usize {
        let l = links.add(Link::new());
        list.push_link_back(&mut links, v, l);
    }
    assert_eq!(collect_owners(&list, &links), vec![1, 2, 3, 4, 5]);
}

#[test]
fn node_keeps_its_value_and_unlinks() {
    let mut links = Links::<i32>::new();
    let mut list = List::<i32>::new();
    let node = Node::new(&mut links, 7);
    assert_eq!(node.data(&links), Some(&7));
    list.push_node_back(&mut links, &node);
    assert!(!list.is_empty(&links));
    node.unlink(&mut links);
    assert!(list.is_empty(&links));
    assert_eq!(node.data(&links), Some(&7));
    assert!(!links.is_linked(node.link()));
}

#[test]
fn push_front_then_pop_front_gives_it_back() {
    let mut links = Links::<i32>::new();
    let mut list = List::<i32>::new();
    let a = links.add(Link::new());
    let b = links.add(Link::new());
    list.push_link_back(&mut links, 1, a);
    list.push_link_front(&mut links, 2, b);
    assert_eq!(list.pop_front(&mut links), Some(b));
    assert_eq!(list.pop_front(&mut links), Some(a));
    assert_eq!(list.pop_front(&mut links), None);
}

#[test]
fn push_node_front_puts_node_first() {
    let mut links = Links::<i32>::new();
    let mut list = List::<i32>::new();
    let a = Node::new(&mut links, 1);
    let b = Node::new(&mut links, 2);
    list.push_node_back(&mut links, &a);
    list.push_node_front(&mut links, &b);
    let head = list.head().unwrap();
    assert_eq!(links.next(head), Some(b.link()));
    assert_eq!(links.next(b.link()), Some(a.link()));
}

#[test]
fn arena_lists_keep_their_members_apart() {
    let mut links = Links::<i32>::new();
    let h1 = links.new_list();
    let h2 = links.new_list();
    let x = links.add(Link::new());
    let y = links.add(Link::new());
    links.push_back(h1, x, 1);
    links.push_front(h2, y, 2);
    assert!(!links.is_empty_list(h1));
    assert!(!links.is_empty_list(h2));
    links.move_all_to_front(h1, h2);
    assert!(links.is_empty_list(h1));
    assert_eq!(links.pop_front(h2), Some(x));
    assert_eq!(links.pop_front(h2), Some(y));
    assert_eq!(links.pop_front(h2), None);
    assert_eq!(links.owner(x), Some(&1));
}

#[test]
fn double_list_recycled_link_is_handed_out_again() {
    let mut links = Links::<i32>::new();
    let a = links.add(Link::new());
    let b = links.add(Link::new());
    links.recycle(a);
    assert_eq!(links.add(Link::new()), a);
    assert_eq!(links.add(Link::new()), b + 1);
}

#[test]
fn double_list_link_in_a_list_is_not_recycled() {
    let mut links = Links::<i32>::new();
    let mut list = List::<i32>::new();
    let a = links.add(Link::new());
    list.push_link_back(&mut links, 7, a);
    links.recycle(a);
    let b = links.add(Link::new());
    assert_ne!(b, a);
    assert_eq!(links.owner(a), Some(&7));
}
