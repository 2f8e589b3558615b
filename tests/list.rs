use lists_trees::list::List;

#[test]
fn basics() {
    let list = List::new();
    assert_eq!(list.head(), None);

    let list = list
        .append(String::from("a"))
        .append(String::from("b"))
        .append(String::from("c"));
    assert_eq!(list.head(), Some(&String::from("c")));

    let list = list.tail();
    assert_eq!(list.head(), Some(&String::from("b")));

    // Append some more just to make sure nothing's corrupted
    let list = list
        .tail()
        .append(String::from("z"))
        .append(String::from("y"));
    assert_eq!(list.head(), Some(&String::from("y")));
    let list = list.tail();
    assert_eq!(list.head(), Some(&String::from("z")));
    let list = list.tail();
    assert_eq!(list.head(), Some(&String::from("a")));
    let list = list.tail();
    assert_eq!(list.head(), None);
}

#[test]
fn iter() {
    let list = List::new().append(1).append(2).append(3);

    let mut iter = list.iter();
    assert_eq!(iter.next(), Some(&3));
    assert_eq!(iter.next(), Some(&2));
    assert_eq!(iter.next(), Some(&1));
}

#[test]
fn empty_list_has_no_head() {
    let list: List<i32> = List::new();
    assert_eq!(list.head(), None);
    assert_eq!(list.tail().head(), None);
    assert_eq!(list.iter().next(), None);
}

#[test]
fn three_appends_come_back_newest_first() {
    let list = List::new().append(10u8).append(20).append(30);
    assert_eq!(list.head(), Some(&30));
    assert_eq!(list.tail().head(), Some(&20));
    assert_eq!(list.tail().tail().head(), Some(&10));
    assert_eq!(list.tail().tail().tail().head(), None);
}

#[test]
fn strings_abc_scenario() {
    let list = List::new().append("a").append("b").append("c");
    assert_eq!(list.head(), Some(&"c"));
    assert_eq!(list.tail().head(), Some(&"b"));
    assert_eq!(list.tail().tail().head(), Some(&"a"));
    assert_eq!(list.tail().tail().tail().head(), None);
}

#[test]
fn earlier_handle_is_unchanged_by_append() {
    let l1 = List::new().append('a');
    let l2 = l1.append('b');
    assert_eq!(l1.head(), Some(&'a'));
    assert_eq!(l2.head(), Some(&'b'));
    assert_eq!(l2.tail().head(), Some(&'a'));
    assert_eq!(l1.tail().head(), None);
}

#[test]
fn branches_share_their_suffix() {
    let shared = List::new().append(1).append(2);
    let left = shared.append(7);
    let right = shared.append(8);
    assert_eq!(left.head(), Some(&7));
    assert_eq!(right.head(), Some(&8));
    assert_eq!(left.tail().head(), shared.head());
    assert_eq!(right.tail().head(), shared.head());
    drop(left);
    assert_eq!(right.tail().tail().head(), Some(&1));
}

#[test]
fn iteration_order_and_exhaustion() {
    let list = List::new().append(1).append(2).append(3);
    let mut it = list.iter();
    assert_eq!(it.next(), Some(&3));
    assert_eq!(it.next(), Some(&2));
    assert_eq!(it.next(), Some(&1));
    assert_eq!(it.next(), None);
    assert_eq!(it.next(), None);
    let mut again = list.iter();
    assert_eq!(again.next(), Some(&3));
}

#[test]
fn long_chain_drops_without_overflow() {
    for _ in 0..3 {
        let mut list = List::new();
        for i in 0..100_000u32 {
            list = list.append(i);
        }
        assert_eq!(list.head(), Some(&99_999));
        drop(list);
    }
}

#[test]
fn dropping_a_branch_keeps_the_shared_tail() {
    let mut base = List::new();
    for i in 0..100_000u64 {
        base = base.append(i);
    }
    let branch = base.append(1_000_000).append(2_000_000);
    drop(branch);
    assert_eq!(base.head(), Some(&99_999));
    assert_eq!(base.tail().head(), Some(&99_998));
    let mut count: u64 = 0;
    let mut it = base.iter();
    while it.next().is_some() {
        count += 1;
    }
    assert_eq!(count, 100_000);
    let middle = base.tail().tail();
    drop(base);
    assert_eq!(middle.head(), Some(&99_997));
}
