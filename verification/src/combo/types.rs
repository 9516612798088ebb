//! The precomputed records of the handler: keys, modifier groups, combos and
//! index ranges into the packed arrays that hold their adjacency lists.
use vstd::prelude::*;
use std::cmp::Ordering;
use std::collections::VecDeque;
use frozen_collections::FzScalarSet;
use tinyset::SetUsize;
use vstd::std_specs::cmp::{PartialEqSpecImpl, PartialOrdSpecImpl};
use crate::combo::sets::{scalar_set_contains, scalar_set_contents};

verus! {

/// A modifier group.
pub struct Group {
    // precomputed
    /// Index of the group among all groups.
    pub index: usize,
    /// Whether the group masks unmodified actions while active.
    pub mask: bool,
    /// The groups whose key sets strictly contain this group's.
    pub greater: FzScalarSet<usize>,
    /// The greatest strict subgroups.
    pub pred: Range,
    /// The groups that share keys with this one without being ordered with it.
    pub intersect: Range,
    /// The modifier keys.
    pub keys: Range,
    /// The number of modifier keys.
    pub size: usize,
    /// The action keys whose combo with this group is currently down.
    pub active_combos: SetUsize,
    // dynamic
    /// The number of modifier keys currently down.
    pub counter: usize,
    /// The number of active groups of which this one is a greatest subgroup.
    pub active_greater: i32,
    /// One if the group masks, less the number of its masking greatest subgroups.
    pub mask_weight: i32,
}

/// Whether `a` comes before or is `b` in the order of groups by strict
/// inclusion of their key sets.
pub open spec fn group_le(a: Group, b: Group) -> bool {
    a.index == b.index || scalar_set_contents(a.greater).contains(b.index)
}

impl Group {
    /// A group is active when all its keys are down.
    pub fn is_active(&self) -> (b: bool)
        ensures
            b == (self.counter == self.size),
    {
        self.counter == self.size
    }

    /// A group is shadowed while one of its supergroups is active.
    pub fn is_shadowed(&self) -> (b: bool)
        ensures
            b == (self.active_greater > 0),
    {
        self.active_greater > 0
    }

    /// The intersecting groups, read from the packed array.
    pub fn iter_intersect(&self, groups_intersect: &[usize]) -> (r: Vec<usize>)
        requires
            self.intersect@.0 <= self.intersect@.1 <= groups_intersect@.len(),
        ensures
            r@ == groups_intersect@.subrange(self.intersect@.0 as int, self.intersect@.1 as int),
    {
        self.intersect.collect_from(groups_intersect)
    }

    /// The greatest strict subgroups, read from the packed array.
    pub fn iter_pred(&self, groups_pred: &[usize]) -> (r: Vec<usize>)
        requires
            self.pred@.0 <= self.pred@.1 <= groups_pred@.len(),
        ensures
            r@ == groups_pred@.subrange(self.pred@.0 as int, self.pred@.1 as int),
    {
        self.pred.collect_from(groups_pred)
    }

    /// The modifier keys, read from the packed array.
    pub fn iter_keys(&self, groups_keys: &[usize]) -> (r: Vec<usize>)
        requires
            self.keys@.0 <= self.keys@.1 <= groups_keys@.len(),
        ensures
            r@ == groups_keys@.subrange(self.keys@.0 as int, self.keys@.1 as int),
    {
        self.keys.collect_from(groups_keys)
    }
}

impl PartialEq for Group {
    fn eq(&self, other: &Self) -> (r: bool) {
        self.index == other.index
    }
}

impl PartialEqSpecImpl for Group {
    open spec fn obeys_eq_spec() -> bool {
        true
    }

    open spec fn eq_spec(&self, other: &Group) -> bool {
        self.index == other.index
    }
}

impl PartialOrd for Group {
    fn partial_cmp(&self, other: &Self) -> (r: Option<Ordering>) {
        if self.index == other.index {
            return Some(Ordering::Equal);
        }
        if scalar_set_contains(&self.greater, other.index) {
            return Some(Ordering::Less);
        }
        if scalar_set_contains(&other.greater, self.index) {
            return Some(Ordering::Greater);
        }
        None
    }
}

impl PartialOrdSpecImpl for Group {
    open spec fn obeys_partial_cmp_spec() -> bool {
        true
    }

    open spec fn partial_cmp_spec(&self, other: &Group) -> Option<Ordering> {
        if self.index == other.index {
            Some(Ordering::Equal)
        } else if scalar_set_contents(self.greater).contains(other.index) {
            Some(Ordering::Less)
        } else if scalar_set_contents(other.greater).contains(self.index) {
            Some(Ordering::Greater)
        } else {
            None
        }
    }
}

/// A key: an action key, a modifier key, or both.
pub struct Key<Z> {
    // precomputed
    /// Action key: the unmodified action.
    pub action: Option<Z>,
    /// Action key: the action survives the release of its modifier.
    pub latching: bool,
    /// Modifier key: acts on key down.
    pub immediate: bool,
    /// Action key: the modified mappings.
    pub combos: Range,
    /// Modifier key: the groups the key belongs to.
    pub groups: Range,
    /// Action key: the cache key of the last resolution.
    pub cache_counter: i32,
    // dynamic
    /// Whether the key still has to handle its key up.
    pub open: bool,
    /// Action key: the index of the active combo.
    pub active_combo: Option<usize>,
}

impl<Z: Copy> Key<Z> {
    /// Whether the key belongs to a modifier group.
    pub open spec fn spec_is_modifier(&self) -> bool {
        self.groups@.0 < self.groups@.1
    }

    /// Whether the key acts on key down.
    pub open spec fn spec_is_immediate(&self) -> bool {
        !self.spec_is_modifier() || self.immediate
    }

    pub fn is_modifier(&self) -> (b: bool)
        ensures
            b == self.spec_is_modifier(),
    {
        !self.groups.is_empty()
    }

    pub fn is_immediate(&self) -> (b: bool)
        ensures
            b == self.spec_is_immediate(),
    {
        !self.is_modifier() || self.immediate
    }

    /// The combos of the key, read from the packed array.
    pub fn iter_combos(&self, keys_combos: &[Combo<Z>]) -> (r: Vec<Combo<Z>>)
        requires
            self.combos@.0 <= self.combos@.1 <= keys_combos@.len(),
        ensures
            r@ == keys_combos@.subrange(self.combos@.0 as int, self.combos@.1 as int),
    {
        let rg = self.combos.into_iter();
        let mut r: Vec<Combo<Z>> = Vec::new();
        let mut i = rg.start;
        while i < rg.end
            invariant
                rg.start <= i <= rg.end <= keys_combos@.len(),
                rg.start == self.combos@.0,
                rg.end == self.combos@.1,
                r@ == keys_combos@.subrange(rg.start as int, i as int),
            decreases rg.end - i,
        {
            r.push(keys_combos[i]);
            i += 1;
        }
        r
    }

    /// The groups of the key, read from the packed array.
    pub fn iter_groups(&self, keys_groups: &[usize]) -> (r: Vec<usize>)
        requires
            self.groups@.0 <= self.groups@.1 <= keys_groups@.len(),
        ensures
            r@ == keys_groups@.subrange(self.groups@.0 as int, self.groups@.1 as int),
    {
        self.groups.collect_from(keys_groups)
    }

    /// The combo at the given position among the key's combos.
    pub fn get_combo(&self, index: usize, keys_combos: &[Combo<Z>]) -> (c: Combo<Z>)
        requires
            self.combos@.0 <= self.combos@.1 <= keys_combos@.len(),
            index < self.combos@.1 - self.combos@.0,
        ensures
            c == keys_combos@[self.combos@.0 + index],
    {
        keys_combos[self.combos.ind(index)]
    }

    pub fn close(&mut self)
        ensures
            *final(self) == (Key { open: false, ..*old(self) }),
    {
        self.open = false
    }

    pub fn open(&mut self)
        ensures
            *final(self) == (Key { open: true, ..*old(self) }),
    {
        self.open = true;
    }
}

/// A modified action: the action and the group that modifies it.
#[derive(Debug, Clone, Copy)]
pub struct Combo<Z> {
    pub action: Option<Z>,
    pub group: usize,
}

/// A half-open range of indices into a packed array.
#[derive(Debug, Clone, Copy)]
pub struct Range {
    start: usize,
    end: usize,
}

impl View for Range {
    type V = (usize, usize);

    closed spec fn view(&self) -> (usize, usize) {
        (self.start, self.end)
    }
}

impl Range {
    pub fn new(start: usize, end: usize) -> (r: Range)
        ensures
            r@ == (start, end),
    {
        Range { start, end }
    }

    pub fn is_empty(&self) -> (b: bool)
        ensures
            b == (self@.1 <= self@.0),
    {
        self.end <= self.start
    }

    pub fn len(&self) -> (n: usize)
        requires
            self@.0 <= self@.1,
        ensures
            n == self@.1 - self@.0,
    {
        self.end - self.start
    }

    pub fn ind(&self, index: usize) -> (i: usize)
        requires
            self@.0 <= self@.1,
            index < self@.1 - self@.0,
        ensures
            i == self@.0 + index,
    {
        self.start + index
    }

    /// The indices of the range, in increasing order.
    pub fn into_iter(self) -> (r: std::ops::Range<usize>)
        ensures
            r.start == self@.0,
            r.end == self@.1,
    {
        self.start..self.end
    }

    /// The entries of a packed array that the range covers.
    fn collect_from(&self, packed: &[usize]) -> (r: Vec<usize>)
        requires
            self@.0 <= self@.1 <= packed@.len(),
        ensures
            r@ == packed@.subrange(self@.0 as int, self@.1 as int),
    {
        let mut r: Vec<usize> = Vec::new();
        let mut i = self.start;
        while i < self.end
            invariant
                self@.0 <= i <= self@.1 <= packed@.len(),
                r@ == packed@.subrange(self@.0 as int, i as int),
            decreases self@.1 - i,
        {
            r.push(packed[i]);
            i += 1;
        }
        r
    }
}

/// The output event queue.
pub trait Queue<T> {
    /// The events in the queue, oldest first.
    spec fn items(&self) -> Seq<T>;

    /// Appends an event at the back.
    fn push(&mut self, value: T)
        ensures
            final(self).items() == old(self).items().push(value);
}

impl<T> Queue<T> for VecDeque<T> {
    open spec fn items(&self) -> Seq<T> {
        self@
    }

    fn push(&mut self, value: T) {
        self.push_back(value)
    }
}

impl<T> Queue<T> for Vec<T> {
    open spec fn items(&self) -> Seq<T> {
        self@
    }

    fn push(&mut self, value: T) {
        Vec::push(self, value)
    }
}

} // verus!
