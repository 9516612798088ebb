use esperto::combo::types::{Combo, Group, Key, Queue, Range};
use frozen_collections::FzScalarSet;
use std::collections::VecDeque;
use tinyset::SetUsize;

fn key(groups: Range, combos: Range, immediate: bool) -> Key<u32> {
    Key {
        action: Some(7),
        latching: false,
        immediate,
        combos,
        groups,
        cache_counter: 0,
        open: false,
        active_combo: None,
    }
}

fn group(index: usize, greater: Vec<usize>, counter: usize, size: usize, active_greater: i32) -> Group {
    Group {
        index,
        mask: false,
        greater: FzScalarSet::new(greater),
        pred: Range::new(0, 0),
        intersect: Range::new(0, 0),
        keys: Range::new(0, size),
        size,
        active_combos: SetUsize::new(),
        counter,
        active_greater,
        mask_weight: 0,
    }
}

#[test]
fn range_basics() {
    let r = Range::new(2, 5);
    assert!(!r.is_empty());
    assert_eq!(r.len(), 3);
    assert_eq!(r.ind(0), 2);
    assert_eq!(r.ind(2), 4);
    assert_eq!(r.into_iter().collect::<Vec<usize>>(), vec![2, 3, 4]);
}

#[test]
fn range_empty_and_inverted() {
    assert!(Range::new(4, 4).is_empty());
    assert_eq!(Range::new(4, 4).len(), 0);
    assert!(Range::new(5, 3).is_empty());
}

#[test]
fn key_modifier_and_immediate() {
    let plain = key(Range::new(0, 0), Range::new(0, 0), false);
    assert!(!plain.is_modifier());
    assert!(plain.is_immediate());
    let delayed = key(Range::new(0, 2), Range::new(0, 0), false);
    assert!(delayed.is_modifier());
    assert!(!delayed.is_immediate());
    let immediate = key(Range::new(1, 2), Range::new(0, 0), true);
    assert!(immediate.is_modifier());
    assert!(immediate.is_immediate());
}

#[test]
fn key_packed_lists() {
    let k = key(Range::new(1, 3), Range::new(1, 3), false);
    assert_eq!(k.iter_groups(&[9, 4, 6, 8]), vec![4, 6]);
    let combos = [
        Combo { action: Some(1u32), group: 0 },
        Combo { action: Some(2), group: 1 },
        Combo { action: None, group: 2 },
        Combo { action: Some(4), group: 3 },
    ];
    let got = k.iter_combos(&combos);
    assert_eq!(got.len(), 2);
    assert_eq!(got[0].group, 1);
    assert_eq!(got[1].group, 2);
    assert_eq!(got[1].action, None);
    let c = k.get_combo(1, &combos);
    assert_eq!(c.group, 2);
    assert_eq!(k.get_combo(0, &combos).action, Some(2));
}

#[test]
fn key_open_close() {
    let mut k = key(Range::new(0, 0), Range::new(0, 0), false);
    k.open();
    assert!(k.open);
    k.close();
    assert!(!k.open);
    assert_eq!(k.action, Some(7));
}

#[test]
fn group_state_and_lists() {
    let g = group(0, vec![], 2, 2, 0);
    assert!(g.is_active());
    assert!(!g.is_shadowed());
    let h = group(1, vec![], 1, 2, 3);
    assert!(!h.is_active());
    assert!(h.is_shadowed());
    let mut p = group(2, vec![], 0, 0, 0);
    p.pred = Range::new(1, 3);
    p.intersect = Range::new(0, 1);
    p.keys = Range::new(2, 4);
    assert_eq!(p.iter_pred(&[5, 6, 7, 8]), vec![6, 7]);
    assert_eq!(p.iter_intersect(&[5, 6, 7, 8]), vec![5]);
    assert_eq!(p.iter_keys(&[5, 6, 7, 8]), vec![7, 8]);
}

#[test]
fn group_order() {
    let small = group(0, vec![1], 0, 1, 0);
    let big = group(1, vec![], 0, 2, 0);
    let other = group(2, vec![], 0, 1, 0);
    assert!(small == group(0, vec![], 0, 5, 0));
    assert!(small != big);
    assert_eq!(small.partial_cmp(&big), Some(std::cmp::Ordering::Less));
    assert_eq!(big.partial_cmp(&small), Some(std::cmp::Ordering::Greater));
    assert_eq!(small.partial_cmp(&small), Some(std::cmp::Ordering::Equal));
    assert_eq!(small.partial_cmp(&other), None);
    assert!(small <= big);
    assert!(!(big <= small));
    assert!(!(other <= small));
}

#[test]
fn queues_push_at_the_back() {
    let mut v: Vec<u32> = vec![1];
    Queue::push(&mut v, 2);
    Queue::push(&mut v, 3);
    assert_eq!(v, vec![1, 2, 3]);
    let mut d: VecDeque<u32> = VecDeque::new();
    Queue::push(&mut d, 4);
    Queue::push(&mut d, 5);
    assert_eq!(d.pop_front(), Some(4));
    assert_eq!(d.pop_front(), Some(5));
}
