use std::cell::Cell;
use std::rc::Rc;

use collections::linked_list::LinkedList;

fn drain_front<T>(list: &mut LinkedList<T>) -> Vec<T> {
    let mut out = Vec::new();
    while let Some(x) = list.pop_front() {
        out.push(x);
    }
    out
}

#[test]
fn mixed_pushes_keep_count_and_order() {
    let mut list: LinkedList<u32> = LinkedList::new();
    list.push_back(2);
    list.push_front(1);
    list.push_back(3);
    list.push_front(0);
    list.push_back(4);
    assert_eq!(list.len(), 5);
    assert_eq!(drain_front(&mut list), vec![0, 1, 2, 3, 4]);
}

#[test]
fn pop_front_on_single_element_then_empty() {
    let mut list: LinkedList<&str> = LinkedList::new();
    assert_eq!(list.pop_front(), None);
    list.push_back("only");
    assert_eq!(list.pop_front(), Some("only"));
    assert_eq!(list.pop_front(), None);
    assert_eq!(list.len(), 0);
    assert_eq!(list.back(), None);
}

#[test]
fn push_back_then_pop_front_is_fifo() {
    for n in 0..20u32 {
        let mut list: LinkedList<u32> = LinkedList::new();
        for i in 0..n {
            list.push_back(i);
        }
        for i in 0..n {
            assert_eq!(list.pop_front(), Some(i));
        }
        assert_eq!(list.pop_front(), None);
    }
}

#[test]
fn push_front_then_pop_front_is_lifo() {
    for n in 0..20u32 {
        let mut list: LinkedList<u32> = LinkedList::new();
        for i in 0..n {
            list.push_front(i);
        }
        for i in (0..n).rev() {
            assert_eq!(list.pop_front(), Some(i));
        }
        assert_eq!(list.pop_front(), None);
    }
}

#[test]
fn push_front_then_pop_back_is_fifo() {
    let mut list: LinkedList<u32> = LinkedList::new();
    for i in 0..10 {
        list.push_front(i);
    }
    for i in 0..10 {
        assert_eq!(list.pop_back(), Some(i));
    }
    assert_eq!(list.pop_back(), None);
    assert_eq!(list.front(), None);
}

#[test]
fn clear_empties_any_list() {
    for n in [0u32, 1, 2, 17] {
        let mut list: LinkedList<u32> = LinkedList::new();
        for i in 0..n {
            list.push_back(i);
        }
        list.clear();
        assert_eq!(list.len(), 0);
        assert_eq!(list.front(), None);
        assert_eq!(list.back(), None);
        list.push_back(5);
        assert_eq!(list.front(), Some(&5));
        assert_eq!(list.back(), Some(&5));
    }
}

#[test]
fn insert_at_ends_matches_pushes() {
    let mut a: LinkedList<u32> = LinkedList::new();
    let mut b: LinkedList<u32> = LinkedList::new();
    for i in 0..4 {
        a.push_back(i);
        b.push_back(i);
    }
    a.insert(0, 10);
    b.push_front(10);
    let len = a.len();
    a.insert(len, 20);
    b.push_back(20);
    assert_eq!(a.len(), 6);
    assert_eq!(drain_front(&mut a), drain_front(&mut b));
}

#[test]
fn insert_into_empty_and_middle() {
    let mut list: LinkedList<u32> = LinkedList::new();
    list.insert(0, 4);
    assert_eq!(list.len(), 1);
    assert_eq!(list.front(), Some(&4));
    list.insert(1, 2);
    list.insert(1, 7);
    assert_eq!(list.len(), 3);
    assert_eq!(list.front(), Some(&4));
    assert_eq!(list.back(), Some(&2));
    assert_eq!(drain_front(&mut list), vec![4, 7, 2]);
}

#[test]
fn scenario_push_back_insert_pop_back() {
    let mut list: LinkedList<u32> = LinkedList::new();
    list.push_back(1);
    list.push_back(3);
    assert_eq!(list.back(), Some(&3));
    list.insert(1, 2);
    assert_eq!(list.front(), Some(&1));
    assert_eq!(list.back(), Some(&3));
    assert_eq!(list.len(), 3);
    assert_eq!(list.pop_back(), Some(3));
    assert_eq!(list.len(), 2);
    assert_eq!(list.back(), Some(&2));
    assert_eq!(drain_front(&mut list), vec![1, 2]);
}

#[test]
fn scenario_push_front_pop_front() {
    let mut list: LinkedList<u32> = LinkedList::new();
    assert_eq!(list.pop_front(), None);
    list.push_front(1);
    list.push_front(3);
    assert_eq!(list.pop_front(), Some(3));
    assert_eq!(list.pop_front(), Some(1));
    assert_eq!(list.pop_front(), None);
}

#[test]
fn front_mut_and_back_mut_write_through() {
    let mut list: LinkedList<u32> = LinkedList::new();
    assert!(list.front_mut().is_none());
    assert!(list.back_mut().is_none());
    list.push_back(1);
    list.push_back(2);
    list.push_back(3);
    if let Some(x) = list.front_mut() {
        *x = 5;
    }
    if let Some(x) = list.back_mut() {
        *x = 9;
    }
    assert_eq!(list.front(), Some(&5));
    assert_eq!(list.back(), Some(&9));
    assert_eq!(drain_front(&mut list), vec![5, 2, 9]);
}

#[test]
fn freed_slots_are_reused_correctly() {
    let mut list: LinkedList<u32> = LinkedList::new();
    for round in 0..50u32 {
        list.push_back(round);
        list.push_front(round + 1000);
        list.insert(1, round + 2000);
        assert_eq!(list.pop_back(), Some(round));
        assert_eq!(list.pop_front(), Some(round + 1000));
    }
    assert_eq!(list.len(), 50);
    let got = drain_front(&mut list);
    let want: Vec<u32> = (0..50u32).rev().map(|r| r + 2000).collect();
    assert_eq!(got, want);
}

struct Counted {
    drops: Rc<Cell<usize>>,
}

impl Drop for Counted {
    fn drop(&mut self) {
        self.drops.set(self.drops.get() + 1);
    }
}

#[test]
fn dropping_a_long_list_drops_each_element_once() {
    let drops = Rc::new(Cell::new(0usize));
    let n = 100_000usize;
    {
        let mut list = LinkedList::new();
        for i in 0..n {
            let c = Counted { drops: drops.clone() };
            if i % 2 == 0 {
                list.push_back(c);
            } else {
                list.push_front(c);
            }
        }
        assert_eq!(list.len(), n);
        assert_eq!(drops.get(), 0);
    }
    assert_eq!(drops.get(), n);
}

#[test]
fn clear_drops_each_element_once() {
    let drops = Rc::new(Cell::new(0usize));
    let mut list = LinkedList::new();
    for _ in 0..1000 {
        list.push_back(Counted { drops: drops.clone() });
    }
    let popped = list.pop_front();
    drop(popped);
    assert_eq!(drops.get(), 1);
    list.clear();
    assert_eq!(drops.get(), 1000);
    assert_eq!(list.len(), 0);
}
