use links::list::ListNode;

/// A wrapper over i32 that doesn't implement any traits
struct Num(i32);

#[test]
pub fn test_impls_default_3() {
    let list: ListNode<Num> = ListNode::default();
    match list {
        ListNode::Nil => {}
        _ => {
            panic!("list is not Nil (see test case source in {} for details)", "tests/test_list.rs");
        }
    }
}

fn list3(a: i32, b: i32, c: i32) -> ListNode<i32> {
    ListNode::Cons(
        a,
        Box::new(ListNode::Cons(b, Box::new(ListNode::Cons(c, Box::new(ListNode::Nil))))),
    )
}

#[test]
fn insert_appends_and_returns_new_node() {
    let mut head = ListNode::default();
    let mut list = &mut head;
    list = list.insert(-10);
    list = list.insert(4);
    list.insert(1);
    assert_eq!(head, list3(-10, 4, 1));
}

#[test]
fn insert_on_head_walks_to_the_end() {
    let mut head = ListNode::new();
    head.insert(7);
    head.insert(8);
    let last = head.insert(9);
    assert_eq!(*last, ListNode::Cons(9, Box::new(ListNode::Nil)));
    assert_eq!(head, list3(7, 8, 9));
}

#[test]
fn reverse_in_place() {
    let mut l = list3(1, 2, 3);
    l.reverse();
    assert_eq!(l, list3(3, 2, 1));
    let mut e: ListNode<i32> = ListNode::new();
    e.reverse();
    assert_eq!(e, ListNode::Nil);
}

#[test]
fn delete_removes_head() {
    let mut l = list3(1, 2, 3);
    l.delete();
    assert_eq!(l.into_vec(), vec![2, 3]);
    let mut e: ListNode<i32> = ListNode::Nil;
    e.delete();
    assert_eq!(e, ListNode::Nil);
}

#[test]
fn list_vec_round_trip() {
    let v = vec![4, -1, 4, 0];
    let l: ListNode<i32> = ListNode::from(v.clone());
    assert_eq!(l.into_vec(), v);
    let l2 = ListNode::from_vec(vec![1, 2, 3]);
    assert_eq!(l2, list3(1, 2, 3));
    let n: ListNode<Num> = ListNode::from(vec![Num(1), Num(2)]);
    match n {
        ListNode::Cons(Num(1), next) => match *next {
            ListNode::Cons(Num(2), rest) => assert!(matches!(*rest, ListNode::Nil)),
            _ => panic!("second node is not 2"),
        },
        _ => panic!("first node is not 1"),
    }
}

#[test]
fn list_renders_with_arrows() {
    assert_eq!(list3(1, 2, 3).to_string(), "1 -> 2 -> 3 -> Nil");
    assert_eq!(list3(-1, 999, 0).to_string(), "-1 -> 999 -> 0 -> Nil");
    let e: ListNode<i32> = ListNode::Nil;
    assert_eq!(e.to_string(), "Nil");
}

#[test]
fn list_equality() {
    assert_eq!(list3(1, 2, 3), list3(1, 2, 3));
    assert_ne!(list3(1, 2, 3), list3(-1, 999, 0));
    assert_ne!(list3(1, 2, 3), ListNode::Nil);
    let short = ListNode::Cons(1, Box::new(ListNode::Cons(2, Box::new(ListNode::Nil))));
    assert_ne!(list3(1, 2, 3), short);
}
