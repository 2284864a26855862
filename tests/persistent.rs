use linked_lists::persistent::List;

fn collect(list: &List<i32>) -> Vec<i32> {
    let mut out = Vec::new();
    let mut it = list.iter();
    while let Some(x) = it.next() {
        out.push(*x);
    }
    out
}

fn build(elems: &[i32]) -> List<i32> {
    let mut list = List::new();
    for e in elems {
        list = list.prepend(*e);
    }
    list
}

#[test]
fn third_basics() {
    let list = List::new();
    assert!(list.headtail().is_none());

    let list = list.prepend(1).prepend(2).prepend(3);

    let (head, list) = list.headtail().unwrap();
    assert_eq!(head, &3);

    let (head, list) = list.headtail().unwrap();
    assert_eq!(head, &2);

    let (head, list) = list.headtail().unwrap();
    assert_eq!(head, &1);

    assert!(list.headtail().is_none());
}

#[test]
fn iter() {
    let list = List::new().prepend(1).prepend(2).prepend(3);

    let mut iter = list.iter();
    assert_eq!(iter.next(), Some(&3));
    assert_eq!(iter.next(), Some(&2));
    assert_eq!(iter.next(), Some(&1));
}

#[test]
fn drop_no_stack_overflow() {
    let mut list = List::new();
    for i in 1..20000 {
        list = list.prepend(i);
    }
}

#[test]
fn iter_yields_reverse_of_prepends() {
    let list = build(&[10, 20, 30, 40]);
    assert_eq!(collect(&list), vec![40, 30, 20, 10]);
}

#[test]
fn iter_ends_and_stays_ended() {
    let list = List::new().prepend(7);
    let mut it = list.iter();
    assert_eq!(it.next(), Some(&7));
    assert_eq!(it.next(), None);
    assert_eq!(it.next(), None);
}

#[test]
fn iter_on_empty_list() {
    let list: List<i32> = List::new();
    assert_eq!(list.iter().next(), None);
}

#[test]
fn headtail_tail_is_list_without_last_prepend() {
    let list = build(&[1, 2, 3, 4]);
    let (head, tail) = list.headtail().unwrap();
    assert_eq!(*head, 4);
    assert_eq!(collect(&tail), collect(&build(&[1, 2, 3])));
}

#[test]
fn headtail_on_empty_is_none_repeatedly() {
    let list: List<i32> = List::new();
    assert!(list.headtail().is_none());
    assert!(list.headtail().is_none());
    let (_, tail) = List::new().prepend(5).headtail().unwrap();
    assert!(tail.headtail().is_none());
}

#[test]
fn prepend_leaves_original_unchanged() {
    let list = build(&[1, 2, 3]);
    assert_eq!(collect(&list), vec![3, 2, 1]);
    let longer = list.prepend(9);
    assert_eq!(collect(&list), vec![3, 2, 1]);
    assert_eq!(collect(&longer), vec![9, 3, 2, 1]);
}

#[test]
fn shared_tail_survives_dropping_a_sibling() {
    let base = build(&[1, 2, 3]);
    let left = base.prepend(10);
    let right = base.prepend(20);
    drop(base);
    drop(left);
    assert_eq!(collect(&right), vec![20, 3, 2, 1]);

    let base = build(&[1, 2, 3]);
    let left = base.prepend(10);
    let right = base.prepend(20);
    drop(right);
    assert_eq!(collect(&left), vec![10, 3, 2, 1]);
    assert_eq!(collect(&base), vec![3, 2, 1]);
}

#[test]
fn long_shared_chain_drops_in_any_order() {
    let mut base = List::new();
    for i in 0..30000 {
        base = base.prepend(i);
    }
    let left = base.prepend(-1);
    let right = base.prepend(-2);
    drop(base);
    drop(left);
    let (head, tail) = right.headtail().unwrap();
    assert_eq!(*head, -2);
    assert_eq!(tail.headtail().map(|(h, _)| *h), Some(29999));
    drop(right);
    assert_eq!(collect(&tail).len(), 30000);
}

#[test]
fn headtail_round_trip_reverses_prepends() {
    let elems = [5, 6, 7, 8, 9];
    let mut list = build(&elems);
    let mut out = Vec::new();
    while let Some((head, tail)) = list.headtail() {
        out.push(*head);
        list = tail;
    }
    let mut expected = elems.to_vec();
    expected.reverse();
    assert_eq!(out, expected);
}
