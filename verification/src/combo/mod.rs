//! The combo handler: resolves key presses and releases into output events,
//! according to modifier groups and the combos of action keys.
use vstd::prelude::*;
use std::collections::VecDeque;
use frozen_collections::FzScalarMap;
use crate::combo::counting::{
    count_in, lemma_count_insert, lemma_count_le, lemma_count_missing, lemma_count_remove,
    lemma_sum_bounds, lemma_sum_pos, lemma_sum_update, sum_where,
};
use crate::combo::sets::{
    scalar_map_contents, scalar_map_get, set_usize_contents, set_usize_drain, set_usize_insert,
    set_usize_remove,
};
use crate::combo::types::{Combo, Group, Key, Range, group_le};
use crate::types::{Event, Kind};
use crate::config::Config;
use crate::combo::layout::{
    build_domain, build_edges, build_groups, build_keys, action_key_table, modifier_key_table,
    set_mask_weights, combos_named, lists, mod_keys, lemma_increasing_len, lemma_decl_combos_groups,
    fresh_group, fresh_key, mask_count, lemma_subrange_step, config_code, above_rel, pred_rel, inter_rel, last_decl,
    decl_combos, by_size, masking_count, lemma_mask_count_decl,
};
use crate::combo::sets::scalar_set_contents;
use crate::combo::counting::{lemma_count_empty, lemma_count_full, lemma_sum_none, lemma_sum_zero};

pub use types::Queue;

pub mod layout;
pub mod counting;
pub mod sets;
pub mod types;

verus! {

/// The largest number of modifier groups: the mask weight of a group, an
/// `i32`, can go down to minus the number of groups.
pub const MAX_GROUPS: usize = 2147483647;

/// This provides the main functionalities of the library.
///
/// Input keycodes are `u32` values; output keycodes are of any `Copy` type.
/// Output events are pushed on `events`.
pub struct ComboHandler<Z, Q: Queue<Event<Z>>> {
    // precomputed
    domain: FzScalarMap<u32, usize>,
    keys: Vec<Key<Z>>,
    keys_combos: Vec<Combo<Z>>,
    keys_groups: Vec<usize>,
    groups: Vec<Group>,
    groups_keys: Vec<usize>,
    groups_pred: Vec<usize>,
    groups_intersect: Vec<usize>,
    // dynamic
    masks: i64,
    cache_counter: i32,
    /// Output event queue, filled by [`ComboHandler::handle`].
    pub events: Q,
    /// The keys currently held down.
    down: Ghost<Set<usize>>,
}

/// A group is active when it has keys and all of them are down.
pub open spec fn live(g: Group) -> bool {
    g.size > 0 && g.counter == g.size
}

pub open spec fn live_seq(gs: Seq<Group>) -> Seq<bool> {
    Seq::new(gs.len(), |i: int| live(gs[i]))
}

/// The entries of a packed array that a range covers.
pub open spec fn packed(arr: Seq<usize>, r: Range) -> Seq<usize> {
    arr.subrange(r@.0 as int, r@.1 as int)
}

/// The precomputed part of a key.
pub open spec fn key_static_eq<Z>(a: Key<Z>, b: Key<Z>) -> bool {
    &&& a.action == b.action
    &&& a.combos == b.combos
    &&& a.groups == b.groups
}

/// The precomputed part of a group.
pub open spec fn group_static_eq(a: Group, b: Group) -> bool {
    &&& a.index == b.index
    &&& a.mask == b.mask
    &&& a.greater == b.greater
    &&& a.pred == b.pred
    &&& a.intersect == b.intersect
    &&& a.keys == b.keys
    &&& a.size == b.size
    &&& a.mask_weight == b.mask_weight
}

/// The keys after closing those listed.
pub open spec fn closed_keys<Z>(keys: Seq<Key<Z>>, ks: Seq<usize>) -> Seq<Key<Z>> {
    Seq::new(
        keys.len(),
        |i: int| if ks.contains(i as usize) { Key { open: false, ..keys[i] } } else { keys[i] },
    )
}

/// The action of the active combo of key `k`, if any.
pub open spec fn combo_action<Z>(keys: Seq<Key<Z>>, keys_combos: Seq<Combo<Z>>, k: int) -> Option<Z> {
    match keys[k].active_combo {
        Some(i) => keys_combos[keys[k].combos@.0 + i].action,
        None => None,
    }
}

/// The key up events sent when the listed keys lose their modifier.
pub open spec fn closing_events<Z>(
    keys: Seq<Key<Z>>,
    keys_combos: Seq<Combo<Z>>,
    ks: Seq<usize>,
) -> Seq<Event<Z>>
    decreases ks.len(),
{
    if ks.len() == 0 {
        Seq::empty()
    } else {
        let k = ks.last() as int;
        closing_events(keys, keys_combos, ks.drop_last()) + (if keys[k].groups@.0 >= keys[k].groups@.1
            || keys[k].immediate {
            match combo_action(keys, keys_combos, k) {
                Some(a) => seq![Event { keycode: a, kind: Kind::Up, value: 0i16 }],
                None => Seq::empty(),
            }
        } else {
            Seq::empty()
        })
    }
}

/// Whether every key is in bounds of the combos and has a valid active combo.
pub open spec fn keys_ok<Z>(keys: Seq<Key<Z>>, keys_combos: Seq<Combo<Z>>) -> bool {
    forall|k: int|
        0 <= k < keys.len() ==> {
            &&& (#[trigger] keys[k]).combos@.0 <= keys[k].combos@.1 <= keys_combos.len()
            &&& keys[k].active_combo matches Some(i) ==> i < keys[k].combos@.1 - keys[k].combos@.0
        }
}

/// The pairs of a group of `d` and a key whose active combo the group holds.
pub open spec fn combo_pairs(groups: Seq<Group>, d: Set<usize>) -> Set<(usize, usize)> {
    Set::new(
        |pr: (usize, usize)|
            d.contains(pr.0) && pr.0 < groups.len() && set_usize_contents(
                groups[pr.0 as int].active_combos,
            ).contains(pr.1),
    )
}

/// Key `x` has its active combo held by a group of `d`.
pub open spec fn held_by(groups: Seq<Group>, d: Set<usize>, x: usize) -> bool {
    exists|p: usize|
        d.contains(p) && p < groups.len() && #[trigger] set_usize_contents(
            groups[p as int].active_combos,
        ).contains(x)
}

/// The keys of a sequence of pairs.
pub open spec fn pair_keys(prs: Seq<(usize, usize)>) -> Seq<usize> {
    prs.map_values(|pr: (usize, usize)| pr.1)
}

/// The keys of `ks`, each paired with group `p`.
pub open spec fn tagged(p: usize, ks: Seq<usize>) -> Seq<(usize, usize)> {
    ks.map_values(|x: usize| (p, x))
}

/// The groups of `b` are those of `a`, except that the combo set of the
/// group `slot` names, if any, gains key `k`.
pub open spec fn groups_gain(a: Seq<Group>, b: Seq<Group>, slot: Option<usize>, k: usize) -> bool {
    &&& a.len() == b.len()
    &&& forall|h: int|
        0 <= h < a.len() ==> #[trigger] b[h] == (Group { active_combos: b[h].active_combos, ..a[h] })
    &&& forall|h: int|
        0 <= h < a.len() ==> set_usize_contents((#[trigger] b[h]).active_combos) == if slot == Some(
            h as usize,
        ) {
            set_usize_contents(a[h].active_combos).insert(k)
        } else {
            set_usize_contents(a[h].active_combos)
        }
}

/// The groups of `b` are those of `a`, except that the combo set of the
/// group `slot` names, if any, loses key `k`.
pub open spec fn groups_lose(a: Seq<Group>, b: Seq<Group>, slot: Option<usize>, k: usize) -> bool {
    &&& a.len() == b.len()
    &&& forall|h: int|
        0 <= h < a.len() ==> #[trigger] b[h] == (Group { active_combos: b[h].active_combos, ..a[h] })
    &&& forall|h: int|
        0 <= h < a.len() ==> set_usize_contents((#[trigger] b[h]).active_combos) == if slot == Some(
            h as usize,
        ) {
            set_usize_contents(a[h].active_combos).remove(k)
        } else {
            set_usize_contents(a[h].active_combos)
        }
}

proof fn lemma_closing_append<Z>(keys: Seq<Key<Z>>, kc: Seq<Combo<Z>>, a: Seq<usize>, b: Seq<usize>)
    ensures
        closing_events(keys, kc, a + b) == closing_events(keys, kc, a) + closing_events(keys, kc, b),
    decreases b.len(),
{
    if b.len() == 0 {
        assert(a + b =~= a);
        assert(closing_events(keys, kc, a) + closing_events(keys, kc, b) =~= closing_events(keys, kc, a));
    } else {
        lemma_closing_append(keys, kc, a, b.drop_last());
        assert((a + b).drop_last() =~= a + b.drop_last());
        assert((a + b).last() == b.last());
        assert(closing_events(keys, kc, a + b) =~= closing_events(keys, kc, a) + closing_events(keys, kc, b));
    }
}

proof fn lemma_closing_open<Z>(a: Seq<Key<Z>>, b: Seq<Key<Z>>, kc: Seq<Combo<Z>>, ks: Seq<usize>)
    requires
        keys_open_only(a, b),
        forall|i: int| 0 <= i < ks.len() ==> ks[i] < a.len(),
    ensures
        closing_events(a, kc, ks) == closing_events(b, kc, ks),
    decreases ks.len(),
{
    if ks.len() > 0 {
        lemma_closing_open(a, b, kc, ks.drop_last());
        let k = ks.last() as int;
        assert(b[k] == Key { open: b[k].open, ..a[k] });
    }
}

proof fn lemma_empty_set_seq(ks: Seq<usize>)
    requires
        ks.to_set() == Set::<usize>::empty(),
    ensures
        ks == Seq::<usize>::empty(),
{
    if ks.len() > 0 {
        assert(ks.to_set().contains(ks[0]));
    }
    assert(ks =~= Seq::<usize>::empty());
}

/// Draining the combos of group `p` extends the drained pairs of `d`.
proof fn lemma_drain_step(
    g0: Seq<Group>,
    d: Set<usize>,
    p: usize,
    ks: Seq<usize>,
    prs: Seq<(usize, usize)>,
)
    requires
        p < g0.len(),
        ks.no_duplicates(),
        ks.to_set() == (if d.contains(p) {
            Set::<usize>::empty()
        } else {
            set_usize_contents(g0[p as int].active_combos)
        }),
        prs.no_duplicates(),
        prs.to_set() == combo_pairs(g0, d),
    ensures
        (prs + tagged(p, ks)).no_duplicates(),
        (prs + tagged(p, ks)).to_set() == combo_pairs(g0, d.insert(p)),
        pair_keys(prs + tagged(p, ks)) == pair_keys(prs) + ks,
        forall|x: usize|
            #[trigger] held_by(g0, d.insert(p), x) == (held_by(g0, d, x) || ks.contains(x)),
{
    let t = tagged(p, ks);
    let q = prs + t;
    assert(pair_keys(q) =~= pair_keys(prs) + ks);
    if d.contains(p) {
        lemma_empty_set_seq(ks);
        assert(t =~= Seq::<(usize, usize)>::empty());
        assert(q =~= prs);
        assert(d.insert(p) =~= d);
        assert forall|x: usize| #[trigger] held_by(g0, d.insert(p), x) == (held_by(g0, d, x) || ks.contains(x)) by {
        }
    } else {
        assert forall|i: int, j: int| 0 <= i < q.len() && 0 <= j < q.len() && i != j implies q[i] != q[j] by {
            if i < prs.len() && j < prs.len() {
            } else if i >= prs.len() && j >= prs.len() {
                assert(ks[i - prs.len()] != ks[j - prs.len()]);
            } else if i < prs.len() {
                assert(prs.to_set().contains(prs[i]));
                assert(q[j].0 == p);
            } else {
                assert(prs.to_set().contains(prs[j]));
                assert(q[i].0 == p);
            }
        }
        assert forall|pr: (usize, usize)| #[trigger] q.to_set().contains(pr) == combo_pairs(
            g0,
            d.insert(p),
        ).contains(pr) by {
            if q.to_set().contains(pr) {
                let i = choose|i: int| 0 <= i < q.len() && q[i] == pr;
                if i < prs.len() {
                    assert(prs.to_set().contains(prs[i]));
                } else {
                    assert(ks.to_set().contains(ks[i - prs.len()]));
                }
            }
            if combo_pairs(g0, d.insert(p)).contains(pr) {
                if pr.0 == p {
                    assert(ks.to_set().contains(pr.1));
                    let i = choose|i: int| 0 <= i < ks.len() && ks[i] == pr.1;
                    assert(q[prs.len() + i] == pr);
                } else {
                    assert(prs.to_set().contains(pr));
                    let i = choose|i: int| 0 <= i < prs.len() && prs[i] == pr;
                    assert(q[i] == pr);
                }
            }
        }
        assert(q.to_set() =~= combo_pairs(g0, d.insert(p)));
        assert forall|x: usize| #[trigger] held_by(g0, d.insert(p), x) == (held_by(g0, d, x) || ks.contains(x)) by {
            if held_by(g0, d.insert(p), x) {
                let r = choose|r: usize|
                    d.insert(p).contains(r) && r < g0.len() && #[trigger] set_usize_contents(
                        g0[r as int].active_combos,
                    ).contains(x);
                if r == p {
                    assert(ks.to_set().contains(x));
                }
            }
            if ks.contains(x) {
                assert(ks.to_set().contains(x));
            }
        }
    }
}

/// `kss` lists, for each group of `ps` in turn, the keys whose combos the
/// group holds when its turn comes: those it holds in `groups`, or none if
/// the group came earlier in `ps` and was emptied then.
pub open spec fn drains_in_order(groups: Seq<Group>, ps: Seq<usize>, kss: Seq<Seq<usize>>) -> bool {
    &&& kss.len() == ps.len()
    &&& forall|i: int| 0 <= i < ps.len() ==> #[trigger] drain_entry(groups, ps, kss, i)
}

/// Entry `i` of an ordered drain: `kss[i]` lists, once each, the keys group
/// `ps[i]` holds at its turn.
pub open spec fn drain_entry(groups: Seq<Group>, ps: Seq<usize>, kss: Seq<Seq<usize>>, i: int) -> bool {
    &&& ps[i] < groups.len()
    &&& kss[i].no_duplicates()
    &&& kss[i].to_set() == if ps.subrange(0, i).contains(ps[i]) {
        Set::<usize>::empty()
    } else {
        set_usize_contents(groups[ps[i] as int].active_combos)
    }
}

/// The lists `part(g)` of the groups `g` of `gs` for which `pick(g)` holds,
/// one after the other in the order of `gs`.
pub open spec fn concat_where(
    gs: Seq<usize>,
    pick: spec_fn(int) -> bool,
    part: spec_fn(int) -> Seq<usize>,
) -> Seq<usize>
    decreases gs.len(),
{
    if gs.len() == 0 {
        Seq::empty()
    } else {
        concat_where(gs.drop_last(), pick, part) + if pick(gs.last() as int) {
            part(gs.last() as int)
        } else {
            Seq::<usize>::empty()
        }
    }
}

proof fn lemma_concat_where_step(
    gs: Seq<usize>,
    pick: spec_fn(int) -> bool,
    part: spec_fn(int) -> Seq<usize>,
    i: int,
)
    requires
        0 <= i < gs.len(),
    ensures
        concat_where(gs.subrange(0, i + 1), pick, part) == concat_where(gs.subrange(0, i), pick, part)
            + if pick(gs[i] as int) {
            part(gs[i] as int)
        } else {
            Seq::<usize>::empty()
        },
{
    assert(gs.subrange(0, i + 1).drop_last() =~= gs.subrange(0, i));
}

proof fn lemma_concat_where_none(gs: Seq<usize>, pick: spec_fn(int) -> bool, part: spec_fn(int) -> Seq<usize>)
    requires
        forall|h: int| !#[trigger] pick(h),
    ensures
        concat_where(gs, pick, part) == Seq::<usize>::empty(),
    decreases gs.len(),
{
    if gs.len() > 0 {
        lemma_concat_where_none(gs.drop_last(), pick, part);
        assert(concat_where(gs, pick, part) =~= Seq::<usize>::empty());
    }
}

/// Draining group `p` after the groups of `ps` extends the ordered drain.
proof fn lemma_drain_in_order_step(
    g0: Seq<Group>,
    ps: Seq<usize>,
    kss: Seq<Seq<usize>>,
    p: usize,
    ks: Seq<usize>,
)
    requires
        p < g0.len(),
        drains_in_order(g0, ps, kss),
        ks.no_duplicates(),
        ks.to_set() == (if ps.contains(p) {
            Set::<usize>::empty()
        } else {
            set_usize_contents(g0[p as int].active_combos)
        }),
    ensures
        drains_in_order(g0, ps.push(p), kss.push(ks)),
        kss.push(ks).flatten() == kss.flatten() + ks,
{
    kss.lemma_flatten_push(ks);
    let ps2 = ps.push(p);
    let kss2 = kss.push(ks);
    assert forall|i: int| 0 <= i < ps2.len() implies #[trigger] drain_entry(g0, ps2, kss2, i) by {
        if i < ps.len() {
            assert(ps2.subrange(0, i) =~= ps.subrange(0, i));
            assert(kss2[i] == kss[i]);
            assert(drain_entry(g0, ps, kss, i));
        } else {
            assert(ps2.subrange(0, i) =~= ps);
        }
    }
    assert(drains_in_order(g0, ps2, kss2));
}

/// Draining the groups of `qs` after those of `ps` extends the ordered drain.
proof fn lemma_drain_in_order_compose(
    g0: Seq<Group>,
    gb: Seq<Group>,
    ps: Seq<usize>,
    kss: Seq<Seq<usize>>,
    qs: Seq<usize>,
    lss: Seq<Seq<usize>>,
)
    requires
        gb.len() == g0.len(),
        forall|h: int|
            0 <= h < g0.len() ==> set_usize_contents((#[trigger] gb[h]).active_combos) == if ps.contains(
                h as usize,
            ) {
                Set::<usize>::empty()
            } else {
                set_usize_contents(g0[h].active_combos)
            },
        drains_in_order(g0, ps, kss),
        drains_in_order(gb, qs, lss),
    ensures
        drains_in_order(g0, ps + qs, kss + lss),
        (kss + lss).flatten() == kss.flatten() + lss.flatten(),
{
    vstd::seq_lib::lemma_flatten_concat(kss, lss);
    let ps2 = ps + qs;
    let kss2 = kss + lss;
    assert forall|i: int| 0 <= i < ps2.len() implies #[trigger] drain_entry(g0, ps2, kss2, i) by {
        if i < ps.len() {
            assert(ps2.subrange(0, i) =~= ps.subrange(0, i));
            assert(kss2[i] == kss[i]);
            assert(drain_entry(g0, ps, kss, i));
        } else {
            let j = i - ps.len();
            assert(drain_entry(gb, qs, lss, j));
            assert(kss2[i] == lss[j]);
            assert(ps2[i] == qs[j]);
            assert(ps2.subrange(0, i) =~= ps + qs.subrange(0, j));
            let q = qs[j];
            assert(lss[j].to_set() == if qs.subrange(0, j).contains(q) {
                Set::<usize>::empty()
            } else {
                set_usize_contents(gb[q as int].active_combos)
            });
            if (ps + qs.subrange(0, j)).contains(q) {
                let t = choose|t: int| 0 <= t < (ps + qs.subrange(0, j)).len() && (ps + qs.subrange(0, j))[t] == q;
                if t < ps.len() {
                    assert(ps.contains(q));
                } else {
                    assert(qs.subrange(0, j)[t - ps.len()] == q);
                }
            } else {
                assert forall|t: int| 0 <= t < ps.len() implies ps[t] != q by {
                    assert((ps + qs.subrange(0, j))[t] == ps[t]);
                }
                assert forall|t: int| 0 <= t < j implies qs.subrange(0, j)[t] != q by {
                    assert((ps + qs.subrange(0, j))[ps.len() + t] == qs.subrange(0, j)[t]);
                }
            }
        }
    }
    assert(drains_in_order(g0, ps2, kss2));
}

/// A key held by a group of `d` or of `e` once those of `d` are emptied is
/// held by a group of both.
proof fn lemma_held_compose(g0: Seq<Group>, gb: Seq<Group>, d: Set<usize>, e: Set<usize>)
    requires
        gb.len() == g0.len(),
        forall|h: int|
            0 <= h < g0.len() ==> set_usize_contents((#[trigger] gb[h]).active_combos) == if d.contains(
                h as usize,
            ) {
                Set::<usize>::empty()
            } else {
                set_usize_contents(g0[h].active_combos)
            },
    ensures
        forall|x: usize|
            #[trigger] held_by(g0, d.union(e), x) == (held_by(g0, d, x) || held_by(gb, e, x)),
{
    assert forall|x: usize| #[trigger] held_by(g0, d.union(e), x) == (held_by(g0, d, x) || held_by(gb, e, x)) by {
        if held_by(g0, d.union(e), x) {
            let r = choose|r: usize|
                d.union(e).contains(r) && r < g0.len() && #[trigger] set_usize_contents(
                    g0[r as int].active_combos,
                ).contains(x);
            if !d.contains(r) {
                assert(gb[r as int] == gb[r as int]);
                assert(set_usize_contents(gb[r as int].active_combos).contains(x));
            }
        }
        if held_by(gb, e, x) {
            let r = choose|r: usize|
                e.contains(r) && r < gb.len() && #[trigger] set_usize_contents(gb[r as int].active_combos).contains(
                    x,
                );
            assert(gb[r as int] == gb[r as int]);
            assert(set_usize_contents(g0[r as int].active_combos).contains(x));
        }
    }
}

proof fn lemma_concat_to_set(a: Seq<usize>, b: Seq<usize>)
    ensures
        (a + b).to_set() == a.to_set().union(b.to_set()),
{
    assert forall|x: usize| (a + b).to_set().contains(x) == a.to_set().union(b.to_set()).contains(x) by {
        if (a + b).contains(x) {
            let t = choose|t: int| 0 <= t < (a + b).len() && (a + b)[t] == x;
            if t < a.len() {
                assert(a.contains(x));
            } else {
                assert(b[t - a.len()] == x);
            }
        }
        if a.contains(x) {
            let t = choose|t: int| 0 <= t < a.len() && a[t] == x;
            assert((a + b)[t] == x);
        }
        if b.contains(x) {
            let t = choose|t: int| 0 <= t < b.len() && b[t] == x;
            assert((a + b)[a.len() + t] == x);
        }
    }
    assert((a + b).to_set() =~= a.to_set().union(b.to_set()));
}

/// The keys of an ordered drain are keys that the groups held.
proof fn lemma_drain_keys_bound(groups: Seq<Group>, ps: Seq<usize>, kss: Seq<Seq<usize>>, nk: nat)
    requires
        drains_in_order(groups, ps, kss),
        forall|h: int, x: usize|
            0 <= h < groups.len() && #[trigger] set_usize_contents(groups[h].active_combos).contains(x) ==> x
                < nk,
    ensures
        forall|t: int| 0 <= t < kss.flatten().len() ==> kss.flatten()[t] < nk,
    decreases kss.len(),
{
    if kss.len() > 0 {
        let n = kss.len() - 1;
        assert(drains_in_order(groups, ps.drop_last(), kss.drop_last())) by {
            assert forall|i: int| 0 <= i < ps.drop_last().len() implies #[trigger] drain_entry(
                groups,
                ps.drop_last(),
                kss.drop_last(),
                i,
            ) by {
                assert(drain_entry(groups, ps, kss, i));
                assert(ps.drop_last().subrange(0, i) =~= ps.subrange(0, i));
            }
        }
        lemma_drain_keys_bound(groups, ps.drop_last(), kss.drop_last(), nk);
        assert(kss.drop_last().push(kss[n]) =~= kss);
        kss.drop_last().lemma_flatten_push(kss[n]);
        assert(drain_entry(groups, ps, kss, n));
        assert forall|t: int| 0 <= t < kss.flatten().len() implies kss.flatten()[t] < nk by {
            let f0 = kss.drop_last().flatten();
            if t >= f0.len() {
                let x = kss[n][t - f0.len()];
                assert(kss[n].to_set().contains(x));
            }
        }
    }
}

/// Closes the combos that were modified by a group: each key whose combo
/// with the group is down loses its key up, and the action of an immediate
/// one is released.
fn close_active_combos<Z: Copy, Q: Queue<Event<Z>>>(
    group: &mut Group,
    keys: &mut Vec<Key<Z>>,
    keys_combos: &Vec<Combo<Z>>,
    events: &mut Q,
)
    requires
        keys_ok(old(keys)@, keys_combos@),
        forall|x: usize| set_usize_contents(old(group).active_combos).contains(x) ==> x < old(keys)@.len(),
    ensures
        *final(group) == (Group { active_combos: final(group).active_combos, ..*old(group) }),
        set_usize_contents(final(group).active_combos) == Set::<usize>::empty(),
        keys_open_only(old(keys)@, final(keys)@),
        prefix_of(old(events).items(), final(events).items()),
        exists|ks: Seq<usize>|
            {
                &&& ks.no_duplicates()
                &&& ks.to_set() == set_usize_contents(old(group).active_combos)
                &&& final(keys)@ == closed_keys(old(keys)@, ks)
                &&& final(events).items() == old(events).items() + closing_events(
                    old(keys)@,
                    keys_combos@,
                    ks,
                )
            },
{
    let drained = set_usize_drain(&mut group.active_combos);
    let ghost old_keys = keys@;
    let ghost old_events = events.items();
    let nk = keys.len();
    let mut i: usize = 0;
    proof {
        assert forall|j: int| 0 <= j < drained@.len() implies drained@[j] < old_keys.len() by {
            assert(drained@.to_set().contains(drained@[j]));
        }
    }
    while i < drained.len()
        invariant
            0 <= i <= drained@.len(),
            nk == old_keys.len(),
            keys_ok(old_keys, keys_combos@),
            forall|j: int| 0 <= j < drained@.len() ==> drained@[j] < old_keys.len(),
            keys@ == closed_keys(old_keys, drained@.subrange(0, i as int)),
            events.items() == old_events + closing_events(
                old_keys,
                keys_combos@,
                drained@.subrange(0, i as int),
            ),
        decreases drained@.len() - i,
    {
        let key = drained[i];
        proof {
            assert(drained@.to_set().contains(key));
        }
        let ghost pre = drained@.subrange(0, i as int);
        let ghost post = drained@.subrange(0, i + 1);
        assert(post.drop_last() =~= pre);
        assert forall|x: usize| post.contains(x) == (pre.contains(x) || x == key) by {
            if post.contains(x) {
                let j = choose|j: int| 0 <= j < post.len() && post[j] == x;
                if j < i {
                    assert(pre[j] == x);
                }
            }
            if pre.contains(x) {
                let j = choose|j: int| 0 <= j < pre.len() && pre[j] == x;
                assert(post[j] == x);
            }
            if x == key {
                assert(post[i as int] == x);
            }
        }
        let ghost before = keys@;
        keys[key].close();
        assert(keys@ == before.update(key as int, Key { open: false, ..before[key as int] }));
        assert forall|j: int| 0 <= j < keys@.len() implies keys@[j] == closed_keys(old_keys, post)[j] by {
            assert(post.contains(j as usize) == (pre.contains(j as usize) || j as usize == key));
        }
        assert(keys@ =~= closed_keys(old_keys, post));
        if keys[key].is_immediate() {
            if let Some(ci) = keys[key].active_combo {
                let c = keys[key].get_combo(ci, keys_combos.as_slice());
                if let Some(a) = c.action {
                    events.push(Event { keycode: a, kind: Kind::Up, value: 0 });
                }
            }
        }
        assert(events.items() =~= old_events + closing_events(old_keys, keys_combos@, post));
        i += 1;
    }
    assert(drained@.subrange(0, drained@.len() as int) =~= drained@);
    proof {
        lemma_closed_keys_open_only(old_keys, drained@);
        assert(events.items().subrange(0, old_events.len() as int) =~= old_events);
    }
}

/// `a` is an initial part of `b`.
pub open spec fn prefix_of<T>(a: Seq<T>, b: Seq<T>) -> bool {
    a.len() <= b.len() && b.subrange(0, a.len() as int) == a
}

proof fn lemma_prefix_trans<T>(a: Seq<T>, b: Seq<T>, c: Seq<T>)
    requires
        prefix_of(a, b),
        prefix_of(b, c),
    ensures
        prefix_of(a, c),
{
    assert(c.subrange(0, a.len() as int) =~= b.subrange(0, a.len() as int));
}

proof fn lemma_prefix_refl<T>(a: Seq<T>)
    ensures
        prefix_of(a, a),
{
    assert(a.subrange(0, a.len() as int) =~= a);
}

proof fn lemma_prefix_concat<T>(a: Seq<T>, b: Seq<T>)
    ensures
        prefix_of(a, a + b),
{
    assert((a + b).subrange(0, a.len() as int) =~= a);
}

proof fn lemma_suffix_step(s: Seq<usize>, i: int)
    requires
        0 <= i < s.len(),
        s.no_duplicates(),
    ensures
        forall|x: usize|
            #[trigger] s.subrange(i, s.len() as int).contains(x) == (s.subrange(i + 1, s.len() as int).contains(x)
                || x == s[i]),
        !s.subrange(i + 1, s.len() as int).contains(s[i]),
{
    let t = s.subrange(i, s.len() as int);
    let u = s.subrange(i + 1, s.len() as int);
    assert forall|x: usize| #[trigger] t.contains(x) == (u.contains(x) || x == s[i]) by {
        if t.contains(x) {
            let j = choose|j: int| 0 <= j < t.len() && t[j] == x;
            if j > 0 {
                assert(u[j - 1] == x);
            }
        }
        if u.contains(x) {
            let j = choose|j: int| 0 <= j < u.len() && u[j] == x;
            assert(t[j + 1] == x);
        }
        if x == s[i] {
            assert(t[0] == x);
        }
    }
    if u.contains(s[i]) {
        let j = choose|j: int| 0 <= j < u.len() && u[j] == s[i];
        assert(s[i + 1 + j] == s[i]);
    }
}

/// A group whose keys are all down (a group without keys always is).
pub open spec fn group_on(g: Group) -> bool {
    g.counter == g.size
}

/// The keys differ at most in whether they are open.
pub open spec fn keys_open_only<Z>(a: Seq<Key<Z>>, b: Seq<Key<Z>>) -> bool {
    &&& a.len() == b.len()
    &&& forall|k: int| 0 <= k < a.len() ==> #[trigger] b[k] == Key { open: b[k].open, ..a[k] }
}

/// The groups differ at most in their shadowing counts and active combos.
pub open spec fn groups_counts_same(a: Seq<Group>, b: Seq<Group>) -> bool {
    &&& a.len() == b.len()
    &&& forall|g: int|
        0 <= g < a.len() ==> group_static_eq(#[trigger] a[g], b[g]) && a[g].counter == b[g].counter
}

proof fn lemma_closed_keys_open_only<Z>(keys: Seq<Key<Z>>, ks: Seq<usize>)
    ensures
        keys_open_only(keys, closed_keys(keys, ks)),
{
}

proof fn lemma_open_only<Z>(a: Seq<Key<Z>>, b: Seq<Key<Z>>, c: Seq<Key<Z>>, kc: Seq<Combo<Z>>)
    requires
        keys_open_only(a, b),
    ensures
        keys_ok(a, kc) ==> keys_ok(b, kc),
        keys_open_only(b, c) ==> keys_open_only(a, c),
{
    if keys_ok(a, kc) {
        assert forall|k: int| 0 <= k < b.len() implies {
            &&& (#[trigger] b[k]).combos@.0 <= b[k].combos@.1 <= kc.len()
            &&& b[k].active_combo matches Some(i) ==> i < b[k].combos@.1 - b[k].combos@.0
        } by {
            assert(b[k] == Key { open: b[k].open, ..a[k] });
            assert(a[k].combos@.0 <= a[k].combos@.1 <= kc.len());
        }
    }
    if keys_open_only(b, c) {
        assert forall|k: int| 0 <= k < a.len() implies #[trigger] c[k] == Key { open: c[k].open, ..a[k] } by {
            assert(b[k] == Key { open: b[k].open, ..a[k] });
            assert(c[k] == Key { open: c[k].open, ..b[k] });
        }
    }
}

proof fn lemma_counts_same_live(a: Seq<Group>, b: Seq<Group>)
    requires
        groups_counts_same(a, b),
    ensures
        live_seq(a) == live_seq(b),
{
    assert forall|g: int| 0 <= g < a.len() implies live(a[g]) == live(b[g]) by {
        assert(group_static_eq(a[g], b[g]));
    }
    assert(live_seq(a) =~= live_seq(b));
}

impl<Z: Copy, Q: Queue<Event<Z>>> ComboHandler<Z, Q> {
    /// The key index of each configured keycode.
    pub closed spec fn domain_map(&self) -> Map<u32, usize> {
        scalar_map_contents(self.domain)
    }

    /// The keys currently held down.
    pub closed spec fn down_keys(&self) -> Set<usize> {
        self.down@
    }

    pub closed spec fn num_keys(&self) -> nat {
        self.keys@.len()
    }

    pub closed spec fn key_at(&self, k: int) -> Key<Z> {
        self.keys@[k]
    }

    pub closed spec fn num_groups(&self) -> nat {
        self.groups@.len()
    }

    pub closed spec fn group_at(&self, g: int) -> Group {
        self.groups@[g]
    }

    /// Whether unmodified actions are masked.
    pub closed spec fn masking(&self) -> bool {
        self.masks > 0
    }

    /// The groups that key `k` belongs to.
    pub closed spec fn key_groups(&self, k: int) -> Seq<usize> {
        packed(self.keys_groups@, self.keys@[k].groups)
    }

    /// The keys of group `g`.
    pub closed spec fn group_keys(&self, g: int) -> Seq<usize> {
        packed(self.groups_keys@, self.groups@[g].keys)
    }

    /// The greatest strict subgroups of group `g`.
    pub closed spec fn group_pred(&self, g: int) -> Seq<usize> {
        packed(self.groups_pred@, self.groups@[g].pred)
    }

    /// The groups that intersect group `g` without being ordered with it.
    pub closed spec fn group_intersect(&self, g: int) -> Seq<usize> {
        packed(self.groups_intersect@, self.groups@[g].intersect)
    }

    /// The combos of key `k`, most keys first.
    pub closed spec fn key_combos(&self, k: int) -> Seq<Combo<Z>> {
        self.keys_combos@.subrange(
            self.keys@[k].combos@.0 as int,
            self.keys@[k].combos@.1 as int,
        )
    }

    /// One for each group of which `p` is a greatest subgroup.
    spec fn above_vals(&self, p: int) -> Seq<int> {
        Seq::new(
            self.groups@.len(),
            |g: int| if self.group_pred(g).contains(p as usize) { 1int } else { 0int },
        )
    }

    spec fn weights(&self) -> Seq<int> {
        Seq::new(self.groups@.len(), |g: int| self.groups@[g].mask_weight as int)
    }

    /// The precomputed layout is consistent: every range lies in its packed
    /// array, every index is in bounds, a key lists a group exactly when the
    /// group lists the key, and no list repeats an entry.
    pub closed spec fn layout_wf(&self) -> bool {
        let nk = self.keys@.len();
        let ng = self.groups@.len();
        &&& ng <= MAX_GROUPS
        &&& forall|k: int|
            0 <= k < nk ==> (#[trigger] self.keys@[k]).groups@.0 <= self.keys@[k].groups@.1
                <= self.keys_groups@.len()
        &&& forall|g: int|
            0 <= g < ng ==> {
                &&& (#[trigger] self.groups@[g]).keys@.0 <= self.groups@[g].keys@.1
                    <= self.groups_keys@.len()
                &&& self.groups@[g].pred@.0 <= self.groups@[g].pred@.1 <= self.groups_pred@.len()
                &&& self.groups@[g].intersect@.0 <= self.groups@[g].intersect@.1
                    <= self.groups_intersect@.len()
                &&& self.groups@[g].index == g
                &&& self.groups@[g].size == self.group_keys(g).len()
                &&& self.group_keys(g).no_duplicates()
                &&& self.group_pred(g).no_duplicates()
                &&& -(ng as int) <= self.groups@[g].mask_weight <= 1
            }
        &&& forall|i: int| 0 <= i < self.keys_groups@.len() ==> #[trigger] self.keys_groups@[i] < ng
        &&& forall|i: int| 0 <= i < self.groups_keys@.len() ==> #[trigger] self.groups_keys@[i] < nk
        &&& forall|i: int| 0 <= i < self.groups_pred@.len() ==> #[trigger] self.groups_pred@[i] < ng
        &&& forall|i: int|
            0 <= i < self.groups_intersect@.len() ==> #[trigger] self.groups_intersect@[i] < ng
        &&& forall|i: int| 0 <= i < self.keys_combos@.len() ==> (#[trigger] self.keys_combos@[i]).group < ng
        &&& forall|c: u32| #[trigger] self.domain_map().contains_key(c) ==> self.domain_map()[c] < nk
        &&& forall|k: int| 0 <= k < nk ==> (#[trigger] self.key_groups(k)).no_duplicates()
        &&& forall|k: usize, g: usize|
            #![trigger self.key_groups(k as int).contains(g)]
            #![trigger self.group_keys(g as int).contains(k)]
            k < nk && g < ng ==> (self.key_groups(k as int).contains(g) <==> self.group_keys(
                g as int,
            ).contains(k))
    }

    /// Active combos and combo sets name valid keys and combos.
    closed spec fn aux_wf(&self) -> bool {
        &&& keys_ok(self.keys@, self.keys_combos@)
        &&& forall|g: int, x: usize|
            0 <= g < self.groups@.len() && #[trigger] set_usize_contents(
                self.groups@[g].active_combos,
            ).contains(x) ==> x < self.keys@.len()
    }

    /// Each group counts its keys that are down.
    closed spec fn count_wf(&self) -> bool {
        forall|g: int|
            0 <= g < self.groups@.len() ==> (#[trigger] self.groups@[g]).counter == count_in(
                self.group_keys(g),
                self.down@,
            )
    }

    /// Each group counts the active groups of which it is a greatest subgroup.
    closed spec fn shadow_wf(&self) -> bool {
        forall|p: int|
            0 <= p < self.groups@.len() ==> (#[trigger] self.groups@[p]).active_greater == sum_where(
                live_seq(self.groups@),
                self.above_vals(p),
            )
    }

    /// The mask count is the sum of the mask weights of the active groups.
    closed spec fn mask_wf(&self) -> bool {
        self.masks == sum_where(live_seq(self.groups@), self.weights())
    }

    /// The handler's invariant.
    pub closed spec fn wf(&self) -> bool {
        &&& self.layout_wf()
        &&& self.aux_wf()
        &&& self.count_wf()
        &&& self.shadow_wf()
        &&& self.mask_wf()
    }

    /// Two handlers built from the same configuration.
    pub closed spec fn layout_eq(&self, other: &Self) -> bool {
        &&& self.domain == other.domain
        &&& self.keys_combos@ == other.keys_combos@
        &&& self.keys_groups@ == other.keys_groups@
        &&& self.groups_keys@ == other.groups_keys@
        &&& self.groups_pred@ == other.groups_pred@
        &&& self.groups_intersect@ == other.groups_intersect@
        &&& self.keys@.len() == other.keys@.len()
        &&& self.groups@.len() == other.groups@.len()
        &&& forall|k: int|
            0 <= k < self.keys@.len() ==> key_static_eq(#[trigger] self.keys@[k], other.keys@[k])
        &&& forall|g: int|
            0 <= g < self.groups@.len() ==> group_static_eq(
                #[trigger] self.groups@[g],
                other.groups@[g],
            )
    }

    proof fn lemma_layout_eq(a: &Self, b: &Self)
        requires
            a.layout_eq(b),
        ensures
            forall|k: int| 0 <= k < a.keys@.len() ==> #[trigger] a.key_groups(k) == b.key_groups(k),
            forall|k: int| 0 <= k < a.keys@.len() ==> #[trigger] a.key_combos(k) == b.key_combos(k),
            forall|g: int| 0 <= g < a.groups@.len() ==> #[trigger] a.group_keys(g) == b.group_keys(g),
            forall|g: int| 0 <= g < a.groups@.len() ==> #[trigger] a.group_pred(g) == b.group_pred(g),
            forall|g: int|
                0 <= g < a.groups@.len() ==> #[trigger] a.group_intersect(g) == b.group_intersect(g),
            forall|p: int| #[trigger] a.above_vals(p) == b.above_vals(p),
            a.weights() == b.weights(),
            a.layout_wf() ==> b.layout_wf(),
            b.layout_eq(a),
    {
        assert forall|p: int| #[trigger] a.above_vals(p) == b.above_vals(p) by {
            assert forall|g: int| 0 <= g < a.groups@.len() implies a.group_pred(g) == b.group_pred(g) by {
                assert(a.groups@[g].pred == b.groups@[g].pred);
            }
            assert(a.above_vals(p) =~= b.above_vals(p));
        }
        assert(a.weights() =~= b.weights());
        assert forall|k: int| 0 <= k < a.keys@.len() implies #[trigger] a.key_groups(k) == b.key_groups(k) by {
            assert(a.keys@[k].groups == b.keys@[k].groups);
        }
        assert forall|g: int| 0 <= g < a.groups@.len() implies #[trigger] a.group_keys(g) == b.group_keys(g) by {
            assert(a.groups@[g].keys == b.groups@[g].keys);
        }
        if a.layout_wf() {
            assert forall|k: usize, g: usize|
                #![trigger b.key_groups(k as int).contains(g)]
                #![trigger b.group_keys(g as int).contains(k)]
                k < b.keys@.len() && g < b.groups@.len() implies (b.key_groups(k as int).contains(g)
                    <==> b.group_keys(g as int).contains(k)) by {
                assert(a.key_groups(k as int) == b.key_groups(k as int));
                assert(a.group_keys(g as int) == b.group_keys(g as int));
            }
            assert forall|k: int| 0 <= k < b.keys@.len() implies (#[trigger] b.key_groups(k)).no_duplicates() by {
                assert(a.key_groups(k) == b.key_groups(k));
            }
            assert forall|g: int| 0 <= g < b.groups@.len() implies b.group_pred(g) == a.group_pred(g) by {
                assert(a.groups@[g].pred == b.groups@[g].pred);
            }
            assert forall|k: int| 0 <= k < b.keys@.len() implies (#[trigger] b.keys@[k]).groups@.0 <= b.keys@[k].groups@.1
                <= b.keys_groups@.len() by {
                assert(key_static_eq(a.keys@[k], b.keys@[k]));
            }
            assert forall|g: int| 0 <= g < b.groups@.len() implies {
                &&& (#[trigger] b.groups@[g]).keys@.0 <= b.groups@[g].keys@.1 <= b.groups_keys@.len()
                &&& b.groups@[g].pred@.0 <= b.groups@[g].pred@.1 <= b.groups_pred@.len()
                &&& b.groups@[g].intersect@.0 <= b.groups@[g].intersect@.1 <= b.groups_intersect@.len()
                &&& b.groups@[g].index == g
                &&& b.groups@[g].size == b.group_keys(g).len()
                &&& b.group_keys(g).no_duplicates()
                &&& b.group_pred(g).no_duplicates()
                &&& -(b.groups@.len() as int) <= b.groups@[g].mask_weight <= 1
            } by {
                assert(group_static_eq(a.groups@[g], b.groups@[g]));
                assert(a.group_keys(g) == b.group_keys(g));
            }
            assert(a.domain_map() == b.domain_map());
        }
    }

    /// Closes the delayed modifier keys of a group that just became active.
    fn close_delayed(&mut self, g: usize)
        requires
            old(self).layout_wf(),
            g < old(self).groups@.len(),
        ensures
            *final(self) == (Self { keys: final(self).keys, ..*old(self) }),
            keys_open_only(old(self).keys@, final(self).keys@),
            forall|x: usize|
                x < old(self).keys@.len() ==> #[trigger] final(self).keys@[x as int] == (Key {
                    open: old(self).keys@[x as int].open && !(old(self).group_keys(g as int).contains(x)
                        && !old(self).keys@[x as int].spec_is_immediate()),
                    ..old(self).keys@[x as int]
                }),
    {
        let ghost s0 = *self;
        let ghost gk = s0.group_keys(g as int);
        let krg = self.groups[g].keys.into_iter();
        let mut m = krg.start;
        while m < krg.end
            invariant
                s0.layout_wf(),
                g < s0.groups@.len(),
                gk == s0.group_keys(g as int),
                krg.start == s0.groups@[g as int].keys@.0,
                krg.end == s0.groups@[g as int].keys@.1,
                krg.start <= m <= krg.end,
                *self == (Self { keys: self.keys, ..s0 }),
                keys_open_only(s0.keys@, self.keys@),
                forall|x: usize|
                    x < s0.keys@.len() ==> #[trigger] self.keys@[x as int] == (Key {
                        open: s0.keys@[x as int].open && !(gk.subrange(0, m - krg.start).contains(x)
                            && !s0.keys@[x as int].spec_is_immediate()),
                        ..s0.keys@[x as int]
                    }),
            decreases krg.end - m,
        {
            let k2 = self.groups_keys[m];
            let ghost i = m - krg.start;
            proof {
                assert(gk[i] == k2);
                lemma_subrange_step(gk, i);
            }
            let imm = self.keys[k2].is_immediate();
            let ghost before = self.keys@;
            self.keys[k2].open = self.keys[k2].open && imm;
            proof {
                lemma_open_only(s0.keys@, before, self.keys@, self.keys_combos@);
                assert forall|x: usize| x < s0.keys@.len() implies #[trigger] self.keys@[x as int] == Key {
                    open: s0.keys@[x as int].open && !(gk.subrange(0, i + 1).contains(x)
                        && !s0.keys@[x as int].spec_is_immediate()),
                    ..s0.keys@[x as int]
                } by {
                    assert(before[x as int] == Key {
                        open: s0.keys@[x as int].open && !(gk.subrange(0, i).contains(x)
                            && !s0.keys@[x as int].spec_is_immediate()),
                        ..s0.keys@[x as int]
                    });
                    if x == k2 {
                        assert(imm == s0.keys@[x as int].spec_is_immediate());
                    } else {
                        assert(self.keys@[x as int] == before[x as int]);
                    }
                }
            }
            m += 1;
        }
        proof {
            assert(gk.subrange(0, m - krg.start) =~= gk);
        }
    }

    /// Counts a newly active group in the shadowing counts of its greatest
    /// subgroups, closing the combos that those subgroups modified.
    fn raise_preds(&mut self, g: usize)
        requires
            old(self).layout_wf(),
            old(self).aux_wf(),
            g < old(self).groups@.len(),
            forall|p: int|
                0 <= p < old(self).groups@.len() ==> (#[trigger] old(self).groups@[p]).active_greater + (
                if old(self).group_pred(g as int).contains(p as usize) {
                    1int
                } else {
                    0int
                }) == sum_where(live_seq(old(self).groups@), old(self).above_vals(p)),
        ensures
            final(self).layout_eq(old(self)),
            final(self).layout_wf(),
            final(self).aux_wf(),
            final(self).shadow_wf(),
            groups_counts_same(old(self).groups@, final(self).groups@),
            final(self).down == old(self).down,
            final(self).masks == old(self).masks,
            final(self).cache_counter == old(self).cache_counter,
            prefix_of(old(self).events.items(), final(self).events.items()),
            keys_open_only(old(self).keys@, final(self).keys@),
            forall|h: int|
                0 <= h < old(self).groups@.len() ==> set_usize_contents(
                    (#[trigger] final(self).groups@[h]).active_combos,
                ) == if old(self).group_pred(g as int).contains(h as usize) {
                    Set::<usize>::empty()
                } else {
                    set_usize_contents(old(self).groups@[h].active_combos)
                },
            forall|x: usize|
                x < old(self).keys@.len() ==> #[trigger] final(self).keys@[x as int] == (Key {
                    open: old(self).keys@[x as int].open && !held_by(
                        old(self).groups@,
                        old(self).group_pred(g as int).to_set(),
                        x,
                    ),
                    ..old(self).keys@[x as int]
                }),
            exists|kss: Seq<Seq<usize>>|
                {
                    &&& drains_in_order(old(self).groups@, old(self).group_pred(g as int), kss)
                    &&& final(self).events.items() == old(self).events.items() + closing_events(
                        old(self).keys@,
                        old(self).keys_combos@,
                        kss.flatten(),
                    )
                },
    {
        let ghost s0 = *self;
        let ghost ng = s0.groups@.len();
        let ghost nk = s0.keys@.len();
        let ghost gp = s0.group_pred(g as int);
        let ghost mut prs: Seq<(usize, usize)> = Seq::empty();
        let ghost mut kss: Seq<Seq<usize>> = Seq::empty();
        let prg = self.groups[g].pred.into_iter();
        let mut m = prg.start;
        assert(pair_keys(prs) =~= kss.flatten());
        assert(drains_in_order(s0.groups@, gp.subrange(0, 0), kss));
        assert(gp.subrange(0, gp.len() as int) =~= gp);
        assert(s0.events.items().subrange(0, s0.events.items().len() as int) =~= s0.events.items());
        while m < prg.end
            invariant
                s0.layout_wf(),
                s0.aux_wf(),
                g < ng,
                ng == s0.groups@.len(),
                gp == s0.group_pred(g as int),
                prg.start == s0.groups@[g as int].pred@.0,
                prg.end == s0.groups@[g as int].pred@.1,
                prg.start <= m <= prg.end,
                self.layout_eq(&s0),
                self.layout_wf(),
                self.aux_wf(),
                groups_counts_same(s0.groups@, self.groups@),
                self.down == s0.down,
                self.masks == s0.masks,
                self.cache_counter == s0.cache_counter,
                prefix_of(s0.events.items(), self.events.items()),
                keys_open_only(s0.keys@, self.keys@),
                forall|p: int|
                    0 <= p < ng ==> (#[trigger] self.groups@[p]).active_greater + (if gp.subrange(
                        m - prg.start,
                        gp.len() as int,
                    ).contains(p as usize) {
                        1int
                    } else {
                        0int
                    }) == sum_where(live_seq(s0.groups@), s0.above_vals(p)),
                nk == s0.keys@.len(),
                forall|h: int|
                    0 <= h < ng ==> set_usize_contents((#[trigger] self.groups@[h]).active_combos)
                        == if gp.subrange(0, m - prg.start).contains(h as usize) {
                        Set::<usize>::empty()
                    } else {
                        set_usize_contents(s0.groups@[h].active_combos)
                    },
                forall|x: usize|
                    x < nk ==> #[trigger] self.keys@[x as int] == (Key {
                        open: s0.keys@[x as int].open && !held_by(
                            s0.groups@,
                            gp.subrange(0, m - prg.start).to_set(),
                            x,
                        ),
                        ..s0.keys@[x as int]
                    }),
                prs.no_duplicates(),
                prs.to_set() == combo_pairs(s0.groups@, gp.subrange(0, m - prg.start).to_set()),
                drains_in_order(s0.groups@, gp.subrange(0, m - prg.start), kss),
                pair_keys(prs) == kss.flatten(),
                forall|t: int| 0 <= t < pair_keys(prs).len() ==> pair_keys(prs)[t] < nk,
                self.events.items() == s0.events.items() + closing_events(
                    s0.keys@,
                    s0.keys_combos@,
                    pair_keys(prs),
                ),
            decreases prg.end - m,
        {
            let p = self.groups_pred[m];
            let ghost i = m - prg.start;
            proof {
                Self::lemma_layout_eq(self, &s0);
                lemma_subrange_step(gp, i);
                if gp.subrange(0, i).contains(p) {
                    let j = choose|j: int| 0 <= j < i && gp.subrange(0, i)[j] == p;
                    assert(gp[j] == gp[i]);
                }
                lemma_suffix_step(gp, i);
                assert(gp[i] == p);
                assert forall|q: int| 0 <= q < ng implies 0 <= #[trigger] s0.above_vals(p as int)[q] <= 1 by {
                }
                lemma_sum_bounds(live_seq(s0.groups@), s0.above_vals(p as int), 0, 1);
            }
            let ghost head = *self;
            self.groups[p].active_greater += 1;
            let ghost mid = *self;
            let ghost ev0 = self.events.items();
            close_active_combos(&mut self.groups[p], &mut self.keys, &self.keys_combos, &mut self.events);
            proof {
                let ks = choose|ks: Seq<usize>|
                    {
                        &&& ks.no_duplicates()
                        &&& ks.to_set() == set_usize_contents(mid.groups@[p as int].active_combos)
                        &&& self.keys@ == closed_keys(mid.keys@, ks)
                        &&& self.events.items() == mid.events.items() + closing_events(
                            mid.keys@,
                            mid.keys_combos@,
                            ks,
                        )
                    };
                let d = gp.subrange(0, i).to_set();
                assert(!d.contains(p));
                assert(gp.subrange(0, i + 1).to_set() =~= d.insert(p));
                assert forall|t: int| 0 <= t < ks.len() implies ks[t] < nk by {
                    assert(ks.to_set().contains(ks[t]));
                }
                lemma_drain_step(s0.groups@, d, p, ks, prs);
                lemma_drain_in_order_step(s0.groups@, gp.subrange(0, i), kss, p, ks);
                assert(gp.subrange(0, i).push(p) =~= gp.subrange(0, i + 1));
                lemma_closing_open(s0.keys@, mid.keys@, s0.keys_combos@, ks);
                lemma_closing_append(s0.keys@, s0.keys_combos@, pair_keys(prs), ks);
                assert forall|x: usize| x < nk implies #[trigger] self.keys@[x as int] == (Key {
                    open: s0.keys@[x as int].open && !held_by(s0.groups@, d.insert(p), x),
                    ..s0.keys@[x as int]
                }) by {
                    assert(mid.keys@[x as int] == head.keys@[x as int]);
                    assert(held_by(s0.groups@, d.insert(p), x) == (held_by(s0.groups@, d, x) || ks.contains(x)));
                }
                assert forall|h: int| 0 <= h < ng implies set_usize_contents((#[trigger] self.groups@[h]).active_combos)
                    == if d.insert(p).contains(h as usize) {
                    Set::<usize>::empty()
                } else {
                    set_usize_contents(s0.groups@[h].active_combos)
                } by {
                    if h != p {
                        assert(self.groups@[h] == mid.groups@[h]);
                        assert(mid.groups@[h] == head.groups@[h]);
                    }
                }
                prs = prs + tagged(p, ks);
                kss = kss.push(ks);
                assert forall|t: int| 0 <= t < pair_keys(prs).len() implies pair_keys(prs)[t] < nk by {
                }
                lemma_open_only(s0.keys@, mid.keys@, self.keys@, self.keys_combos@);
                lemma_prefix_trans(s0.events.items(), ev0, self.events.items());
                assert(self.layout_eq(&s0));
                Self::lemma_layout_eq(self, &s0);
                Self::lemma_layout_eq(&s0, self);
                assert forall|h: int, x: usize|
                    0 <= h < self.groups@.len() && #[trigger] set_usize_contents(
                        self.groups@[h].active_combos,
                    ).contains(x) implies x < self.keys@.len() by {
                    assert(self.keys@.len() == head.keys@.len());
                    if h != p {
                        assert(self.groups@[h] == mid.groups@[h]);
                        assert(mid.groups@[h] == head.groups@[h]);
                        assert(set_usize_contents(head.groups@[h].active_combos).contains(x));
                    } else {
                        assert(set_usize_contents(self.groups@[p as int].active_combos) == Set::<usize>::empty());
                    }
                }
            }
            m += 1;
        }
        proof {
            Self::lemma_layout_eq(self, &s0);
            lemma_counts_same_live(s0.groups@, self.groups@);
            assert forall|p: int| 0 <= p < self.groups@.len() implies (#[trigger] self.groups@[p]).active_greater
                == sum_where(live_seq(self.groups@), self.above_vals(p)) by {
                assert(gp.subrange(gp.len() as int, gp.len() as int) =~= Seq::<usize>::empty());
            }
            assert(gp.subrange(0, m - prg.start) =~= gp);
            assert(prs.to_set() == combo_pairs(s0.groups@, gp.to_set()));
            assert(drains_in_order(s0.groups@, gp, kss));
        }
    }

    /// Removes a group that is about to become inactive from the shadowing
    /// counts of its greatest subgroups.
    fn lower_preds(&mut self, g: usize)
        requires
            old(self).layout_wf(),
            old(self).shadow_wf(),
            g < old(self).groups@.len(),
            live(old(self).groups@[g as int]),
        ensures
            *final(self) == (Self { groups: final(self).groups, ..*old(self) }),
            groups_counts_same(old(self).groups@, final(self).groups@),
            forall|h: int|
                0 <= h < old(self).groups@.len() ==> set_usize_contents(
                    (#[trigger] final(self).groups@[h]).active_combos,
                ) == set_usize_contents(old(self).groups@[h].active_combos),
            forall|p: int|
                0 <= p < old(self).groups@.len() ==> (#[trigger] final(self).groups@[p]).active_greater + (
                if old(self).group_pred(g as int).contains(p as usize) {
                    1int
                } else {
                    0int
                }) == sum_where(live_seq(old(self).groups@), old(self).above_vals(p)),
    {
        let ghost s0 = *self;
        let ghost ng = s0.groups@.len();
        let ghost gp = s0.group_pred(g as int);
        let prg = self.groups[g].pred.into_iter();
        let mut m = prg.start;
        while m < prg.end
            invariant
                s0.layout_wf(),
                s0.shadow_wf(),
                g < ng,
                ng == s0.groups@.len(),
                live(s0.groups@[g as int]),
                gp == s0.group_pred(g as int),
                prg.start == s0.groups@[g as int].pred@.0,
                prg.end == s0.groups@[g as int].pred@.1,
                prg.start <= m <= prg.end,
                *self == (Self { groups: self.groups, ..s0 }),
                groups_counts_same(s0.groups@, self.groups@),
                forall|h: int|
                    0 <= h < ng ==> set_usize_contents((#[trigger] self.groups@[h]).active_combos)
                        == set_usize_contents(s0.groups@[h].active_combos),
                forall|p: int|
                    0 <= p < ng ==> (#[trigger] self.groups@[p]).active_greater + (if gp.subrange(
                        0,
                        m - prg.start,
                    ).contains(p as usize) {
                        1int
                    } else {
                        0int
                    }) == sum_where(live_seq(s0.groups@), s0.above_vals(p)),
            decreases prg.end - m,
        {
            let p = self.groups_pred[m];
            let ghost i = m - prg.start;
            proof {
                lemma_subrange_step(gp, i);
                assert(gp[i] == p);
                if gp.subrange(0, i).contains(p) {
                    let j = choose|j: int| 0 <= j < i && gp.subrange(0, i)[j] == p;
                    assert(gp[j] == gp[i]);
                }
                assert(gp.contains(p));
                assert(s0.above_vals(p as int)[g as int] == 1);
                assert forall|q: int| 0 <= q < ng implies 0 <= #[trigger] s0.above_vals(p as int)[q] by {
                }
                lemma_sum_pos(live_seq(s0.groups@), s0.above_vals(p as int), g as int);
            }
            self.groups[p].active_greater -= 1;
            m += 1;
            assert(gp.subrange(0, m - prg.start) == gp.subrange(0, i + 1));
        }
        assert(gp.subrange(0, gp.len() as int) =~= gp);
    }

    /// Group `g` becomes active from `self` to `after`.
    pub closed spec fn rises(&self, after: &Self, g: int) -> bool {
        0 <= g < self.groups@.len() && !live(self.groups@[g]) && live(after.groups@[g])
    }

    /// Group `g` stops being active from `self` to `after`.
    pub closed spec fn falls(&self, after: &Self, g: int) -> bool {
        0 <= g < self.groups@.len() && live(self.groups@[g]) && !live(after.groups@[g])
    }

    /// The greatest subgroups of the groups that become active.
    pub closed spec fn shadowed_anew(&self, after: &Self) -> Set<usize> {
        Set::new(
            |p: usize| exists|g: int| #[trigger] self.rises(after, g) && self.group_pred(g).contains(p),
        )
    }

    /// The groups that stop being active.
    pub closed spec fn fallen(&self, after: &Self) -> Set<usize> {
        Set::new(|g: usize| self.falls(after, g as int))
    }

    /// Key `x` is a delayed modifier key of a group of more than one key that
    /// becomes active.
    pub closed spec fn delayed_closed(&self, after: &Self, x: usize) -> bool {
        exists|g: int|
            #[trigger] self.rises(after, g) && self.groups@[g].size > 1 && self.group_keys(g).contains(x)
                && !self.keys@[x as int].spec_is_immediate()
    }

    /// Group `g` becomes active once the keys of `d` are down.
    spec fn rising_by(&self, d: Set<usize>, g: int) -> bool {
        &&& 0 <= g < self.groups@.len()
        &&& !live(self.groups@[g])
        &&& self.groups@[g].size > 0
        &&& count_in(self.group_keys(g), d) == self.groups@[g].size
    }

    /// The greatest subgroups of the first `n` groups of `kg` that rise.
    spec fn shadowed_upto(&self, d: Set<usize>, kg: Seq<usize>, n: int) -> Set<usize> {
        Set::new(
            |p: usize|
                exists|i: int|
                    0 <= i < n && #[trigger] self.rising_by(d, kg[i] as int) && self.group_pred(
                        kg[i] as int,
                    ).contains(p),
        )
    }

    /// The delayed keys of the first `n` groups of `kg` that rise with more
    /// than one key.
    spec fn delayed_upto(&self, d: Set<usize>, kg: Seq<usize>, n: int) -> Set<usize> {
        Set::new(
            |x: usize|
                exists|i: int|
                    0 <= i < n && #[trigger] self.rising_by(d, kg[i] as int) && self.groups@[kg[i] as int].size
                        > 1 && self.group_keys(kg[i] as int).contains(x)
                        && !self.keys@[x as int].spec_is_immediate(),
        )
    }

    /// The delayed keys of group `g`.
    spec fn delayed_keys(&self, g: int) -> Set<usize> {
        Set::new(
            |x: usize| self.group_keys(g).contains(x) && !self.keys@[x as int].spec_is_immediate(),
        )
    }

    proof fn lemma_upto_step(&self, d: Set<usize>, kg: Seq<usize>, i: int)
        requires
            0 <= i < kg.len(),
        ensures
            self.shadowed_upto(d, kg, i + 1) == self.shadowed_upto(d, kg, i).union(
                if self.rising_by(d, kg[i] as int) {
                    self.group_pred(kg[i] as int).to_set()
                } else {
                    Set::<usize>::empty()
                },
            ),
            self.delayed_upto(d, kg, i + 1) == self.delayed_upto(d, kg, i).union(
                if self.rising_by(d, kg[i] as int) && self.groups@[kg[i] as int].size > 1 {
                    self.delayed_keys(kg[i] as int)
                } else {
                    Set::<usize>::empty()
                },
            ),
            (exists|j: int| 0 <= j < i + 1 && #[trigger] self.rising_by(d, kg[j] as int)) == ((exists|j: int|
                0 <= j < i && #[trigger] self.rising_by(d, kg[j] as int)) || self.rising_by(d, kg[i] as int)),
    {
        let a = self.shadowed_upto(d, kg, i + 1);
        let b = self.shadowed_upto(d, kg, i).union(
            if self.rising_by(d, kg[i] as int) {
                self.group_pred(kg[i] as int).to_set()
            } else {
                Set::<usize>::empty()
            },
        );
        assert forall|p: usize| a.contains(p) == b.contains(p) by {
            if a.contains(p) {
                let j = choose|j: int|
                    0 <= j < i + 1 && #[trigger] self.rising_by(d, kg[j] as int) && self.group_pred(
                        kg[j] as int,
                    ).contains(p);
                if j < i {
                    assert(self.shadowed_upto(d, kg, i).contains(p));
                }
            }
            if self.shadowed_upto(d, kg, i).contains(p) {
                let j = choose|j: int|
                    0 <= j < i && #[trigger] self.rising_by(d, kg[j] as int) && self.group_pred(
                        kg[j] as int,
                    ).contains(p);
                assert(a.contains(p));
            }
        }
        assert(a =~= b);
        let a2 = self.delayed_upto(d, kg, i + 1);
        let b2 = self.delayed_upto(d, kg, i).union(
            if self.rising_by(d, kg[i] as int) && self.groups@[kg[i] as int].size > 1 {
                self.delayed_keys(kg[i] as int)
            } else {
                Set::<usize>::empty()
            },
        );
        assert forall|x: usize| a2.contains(x) == b2.contains(x) by {
            if a2.contains(x) {
                let j = choose|j: int|
                    0 <= j < i + 1 && #[trigger] self.rising_by(d, kg[j] as int) && self.groups@[kg[j] as int].size
                        > 1 && self.group_keys(kg[j] as int).contains(x)
                        && !self.keys@[x as int].spec_is_immediate();
                if j < i {
                    assert(self.delayed_upto(d, kg, i).contains(x));
                }
            }
            if self.delayed_upto(d, kg, i).contains(x) {
                let j = choose|j: int|
                    0 <= j < i && #[trigger] self.rising_by(d, kg[j] as int) && self.groups@[kg[j] as int].size
                        > 1 && self.group_keys(kg[j] as int).contains(x)
                        && !self.keys@[x as int].spec_is_immediate();
                assert(a2.contains(x));
            }
        }
        assert(a2 =~= b2);
        if exists|j: int| 0 <= j < i + 1 && #[trigger] self.rising_by(d, kg[j] as int) {
            let j = choose|j: int| 0 <= j < i + 1 && #[trigger] self.rising_by(d, kg[j] as int);
            if j < i {
                assert(exists|j: int| 0 <= j < i && #[trigger] self.rising_by(d, kg[j] as int));
            }
        }
        if exists|j: int| 0 <= j < i && #[trigger] self.rising_by(d, kg[j] as int) {
            let j = choose|j: int| 0 <= j < i && #[trigger] self.rising_by(d, kg[j] as int);
            assert(0 <= j < i + 1 && self.rising_by(d, kg[j] as int));
        }
        if self.rising_by(d, kg[i] as int) {
            assert(0 <= i < i + 1 && self.rising_by(d, kg[i] as int));
        }
    }

    /// A group that rises when `key` goes down holds `key`.
    proof fn lemma_rising_holds_key(&self, key: usize, g: int)
        requires
            self.wf(),
            key < self.keys@.len(),
            !self.down@.contains(key) || self.key_groups(key as int).len() == 0,
            self.rising_by(self.down@.insert(key), g),
        ensures
            self.key_groups(key as int).contains(g as usize),
    {
        let d0 = self.down@;
        let gk = self.group_keys(g);
        if d0.contains(key) {
            assert(d0.insert(key) =~= d0);
            assert(self.groups@[g].counter == count_in(gk, d0));
        } else {
            lemma_count_insert(gk, d0, key);
            assert(self.groups@[g].counter == count_in(gk, d0));
            assert(gk.contains(key));
            assert(self.group_keys(g as usize as int).contains(key));
        }
    }

    /// Once all groups of `key` are counted, what rose is what `after` shows.
    proof fn lemma_upto_full(&self, after: &Self, key: usize)
        requires
            self.wf(),
            key < self.keys@.len(),
            !self.down@.contains(key) || self.key_groups(key as int).len() == 0,
            forall|g: int| self.rises(after, g) == self.rising_by(self.down@.insert(key), g),
        ensures
            self.shadowed_anew(after) == self.shadowed_upto(
                self.down@.insert(key),
                self.key_groups(key as int),
                self.key_groups(key as int).len() as int,
            ),
            forall|x: usize|
                self.delayed_closed(after, x) == self.delayed_upto(
                    self.down@.insert(key),
                    self.key_groups(key as int),
                    self.key_groups(key as int).len() as int,
                ).contains(x),
            (exists|g: int| self.rises(after, g)) == (exists|i: int|
                0 <= i < self.key_groups(key as int).len() && #[trigger] self.rising_by(
                    self.down@.insert(key),
                    self.key_groups(key as int)[i] as int,
                )),
    {
        let d1 = self.down@.insert(key);
        let kg = self.key_groups(key as int);
        let n = kg.len() as int;
        assert forall|p: usize| self.shadowed_anew(after).contains(p) == self.shadowed_upto(d1, kg, n).contains(p) by {
            if self.shadowed_anew(after).contains(p) {
                let g = choose|g: int| #[trigger] self.rises(after, g) && self.group_pred(g).contains(p);
                self.lemma_rising_holds_key(key, g);
                let i = choose|i: int| 0 <= i < kg.len() && kg[i] == g as usize;
                assert(self.rising_by(d1, kg[i] as int));
            }
            if self.shadowed_upto(d1, kg, n).contains(p) {
                let i = choose|i: int|
                    0 <= i < n && #[trigger] self.rising_by(d1, kg[i] as int) && self.group_pred(
                        kg[i] as int,
                    ).contains(p);
                assert(self.rises(after, kg[i] as int));
            }
        }
        assert(self.shadowed_anew(after) =~= self.shadowed_upto(d1, kg, n));
        assert forall|x: usize| self.delayed_closed(after, x) == self.delayed_upto(d1, kg, n).contains(x) by {
            if self.delayed_closed(after, x) {
                let g = choose|g: int|
                    #[trigger] self.rises(after, g) && self.groups@[g].size > 1 && self.group_keys(g).contains(x)
                        && !self.keys@[x as int].spec_is_immediate();
                self.lemma_rising_holds_key(key, g);
                let i = choose|i: int| 0 <= i < kg.len() && kg[i] == g as usize;
                assert(self.rising_by(d1, kg[i] as int));
            }
            if self.delayed_upto(d1, kg, n).contains(x) {
                let i = choose|i: int|
                    0 <= i < n && #[trigger] self.rising_by(d1, kg[i] as int) && self.groups@[kg[i] as int].size
                        > 1 && self.group_keys(kg[i] as int).contains(x)
                        && !self.keys@[x as int].spec_is_immediate();
                assert(self.rises(after, kg[i] as int));
            }
        }
        if exists|g: int| self.rises(after, g) {
            let g = choose|g: int| self.rises(after, g);
            self.lemma_rising_holds_key(key, g);
            let i = choose|i: int| 0 <= i < kg.len() && kg[i] == g as usize;
            assert(self.rising_by(d1, kg[i] as int));
        }
        if exists|i: int| 0 <= i < n && #[trigger] self.rising_by(d1, kg[i] as int) {
            let i = choose|i: int| 0 <= i < n && #[trigger] self.rising_by(d1, kg[i] as int);
            assert(self.rises(after, kg[i] as int));
        }
    }

    /// Counts a key press in the groups of the key; the groups that become
    /// active mask, shadow their subgroups and close what those modified.
    /// Returns whether a group became active.
    #[verifier::rlimit(40)]
    fn activate(&mut self, key: usize) -> (invalidate: bool)
        requires
            old(self).wf(),
            key < old(self).keys@.len(),
            !old(self).down@.contains(key) || old(self).key_groups(key as int).len() == 0,
        ensures
            final(self).layout_eq(old(self)),
            final(self).wf(),
            final(self).down@ == old(self).down@.insert(key),
            final(self).cache_counter == old(self).cache_counter,
            prefix_of(old(self).events.items(), final(self).events.items()),
            keys_open_only(old(self).keys@, final(self).keys@),
            old(self).key_groups(key as int).len() == 0 ==> !invalidate && *final(self) == (Self {
                down: final(self).down,
                ..*old(self)
            }),
            invalidate == exists|g: int| old(self).rises(final(self), g),
            forall|h: int|
                0 <= h < old(self).groups@.len() ==> set_usize_contents(
                    (#[trigger] final(self).groups@[h]).active_combos,
                ) == if old(self).shadowed_anew(final(self)).contains(h as usize) {
                    Set::<usize>::empty()
                } else {
                    set_usize_contents(old(self).groups@[h].active_combos)
                },
            forall|x: usize|
                x < old(self).keys@.len() ==> #[trigger] final(self).keys@[x as int] == (Key {
                    open: old(self).keys@[x as int].open && !held_by(
                        old(self).groups@,
                        old(self).shadowed_anew(final(self)),
                        x,
                    ) && !old(self).delayed_closed(final(self), x),
                    ..old(self).keys@[x as int]
                }),
            exists|kss: Seq<Seq<usize>>|
                {
                    &&& drains_in_order(
                        old(self).groups@,
                        concat_where(
                            old(self).key_groups(key as int),
                            |h: int| old(self).rises(final(self), h),
                            |h: int| old(self).group_pred(h),
                        ),
                        kss,
                    )
                    &&& final(self).events.items() == old(self).events.items() + closing_events(
                        old(self).keys@,
                        old(self).keys_combos@,
                        kss.flatten(),
                    )
                },
    {
        let ghost s0 = *self;
        let ghost d0 = s0.down@;
        let ghost d1 = d0.insert(key);
        let ghost ng = s0.groups@.len();
        let ghost nk = s0.keys@.len();
        let ghost kg = s0.key_groups(key as int);
        let ghost mut dset: Set<usize> = Set::empty();
        let ghost mut dl: Set<usize> = Set::empty();
        let ghost mut ps: Seq<usize> = Seq::empty();
        let ghost mut kss: Seq<Seq<usize>> = Seq::empty();
        let ghost rise = |h: int| s0.rising_by(d1, h);
        let ghost part = |h: int| s0.group_pred(h);
        let mut invalidate = false;
        let rg = self.keys[key].groups.into_iter();
        let mut j = rg.start;
        assert(s0.events.items().subrange(0, s0.events.items().len() as int) =~= s0.events.items());
        assert(s0.shadowed_upto(d1, kg, 0) =~= Set::<usize>::empty());
        assert(s0.delayed_upto(d1, kg, 0) =~= Set::<usize>::empty());
        assert(s0.events.items() =~= s0.events.items() + closing_events(s0.keys@, s0.keys_combos@, kss.flatten()));
        assert(ps.to_set() =~= dset);
        assert(kg.subrange(0, 0) =~= Seq::<usize>::empty());
        while j < rg.end
            invariant
                s0.wf(),
                key < s0.keys@.len(),
                !d0.contains(key) || kg.len() == 0,
                d0 == s0.down@,
                d1 == d0.insert(key),
                ng == s0.groups@.len(),
                kg == s0.key_groups(key as int),
                rg.start == s0.keys@[key as int].groups@.0,
                rg.end == s0.keys@[key as int].groups@.1,
                rg.start <= j <= rg.end,
                self.layout_eq(&s0),
                self.layout_wf(),
                self.aux_wf(),
                self.down == s0.down,
                self.cache_counter == s0.cache_counter,
                prefix_of(s0.events.items(), self.events.items()),
                keys_open_only(s0.keys@, self.keys@),
                forall|g: int|
                    0 <= g < ng ==> (#[trigger] self.groups@[g]).counter == count_in(
                        s0.group_keys(g),
                        if kg.subrange(0, j - rg.start).contains(g as usize) {
                            d1
                        } else {
                            d0
                        },
                    ),
                self.shadow_wf(),
                self.mask_wf(),
                j == rg.start ==> !invalidate && *self == s0,
                nk == s0.keys@.len(),
                dset == s0.shadowed_upto(d1, kg, j - rg.start),
                dl == s0.delayed_upto(d1, kg, j - rg.start),
                invalidate == exists|i: int| 0 <= i < j - rg.start && #[trigger] s0.rising_by(d1, kg[i] as int),
                forall|h: int|
                    0 <= h < ng ==> set_usize_contents((#[trigger] self.groups@[h]).active_combos)
                        == if dset.contains(h as usize) {
                        Set::<usize>::empty()
                    } else {
                        set_usize_contents(s0.groups@[h].active_combos)
                    },
                forall|x: usize|
                    x < nk ==> #[trigger] self.keys@[x as int] == (Key {
                        open: s0.keys@[x as int].open && !held_by(s0.groups@, dset, x) && !dl.contains(x),
                        ..s0.keys@[x as int]
                    }),
                rise == (|h: int| s0.rising_by(d1, h)),
                part == (|h: int| s0.group_pred(h)),
                ps == concat_where(kg.subrange(0, j - rg.start), rise, part),
                ps.to_set() == dset,
                drains_in_order(s0.groups@, ps, kss),
                forall|t: int| 0 <= t < kss.flatten().len() ==> kss.flatten()[t] < nk,
                self.events.items() == s0.events.items() + closing_events(
                    s0.keys@,
                    s0.keys_combos@,
                    kss.flatten(),
                ),
            decreases rg.end - j,
        {
            let g = self.keys_groups[j];
            let ghost i = j - rg.start;
            let ghost top = *self;
            let ghost live0 = live_seq(self.groups@);
            proof {
                Self::lemma_layout_eq(self, &s0);
                Self::lemma_layout_eq(&s0, self);
                assert(kg[i] == g);
                assert(kg.contains(g));
                assert(!d0.contains(key));
                assert(s0.group_keys(g as int).contains(key));
                lemma_subrange_step(kg, i);
                if kg.subrange(0, i).contains(g) {
                    let k = choose|k: int| 0 <= k < i && kg.subrange(0, i)[k] == g;
                    assert(kg[k] == kg[i]);
                }
                lemma_count_missing(s0.group_keys(g as int), d0, key);
                lemma_count_insert(s0.group_keys(g as int), d0, key);
            }
            let ghost prev = *self;
            self.groups[g].counter += 1;
            proof {
                assert forall|h: int| 0 <= h < ng implies group_static_eq(
                    #[trigger] self.groups@[h],
                    s0.groups@[h],
                ) by {
                    if h != g {
                        assert(self.groups@[h] == prev.groups@[h]);
                    }
                }
                assert(self.layout_eq(&s0));
                Self::lemma_layout_eq(self, &s0);
                Self::lemma_layout_eq(&s0, self);
                assert forall|h: int| 0 <= h < ng implies set_usize_contents(
                    (#[trigger] self.groups@[h]).active_combos,
                ) == set_usize_contents(prev.groups@[h].active_combos) by {
                    if h != g {
                        assert(self.groups@[h] == prev.groups@[h]);
                    }
                }
                lemma_open_only(prev.keys@, prev.keys@, prev.keys@, prev.keys_combos@);
                Self::lemma_aux_frame(&prev, self);
            }
            if self.groups[g].is_active() {
                proof {
                    assert(s0.groups@[g as int].counter == count_in(s0.group_keys(g as int), d0));
                    assert(s0.rising_by(d1, g as int));
                }
                let ghost live1 = live_seq(self.groups@);
                proof {
                    assert(live1 =~= live0.update(g as int, true));
                    lemma_sum_update(live0, s0.weights(), g as int, true);
                    assert forall|q: int| 0 <= q < ng implies -(ng as int) <= #[trigger] s0.weights()[q] <= 1 by {
                    }
                    lemma_sum_bounds(live1, s0.weights(), -(ng as int), 1);
                    assert(ng * (-(ng as int)) >= -9223372036854775808) by (nonlinear_arith)
                        requires ng <= 2147483647;
                    assert forall|p: int| 0 <= p < ng implies (#[trigger] self.groups@[p]).active_greater + (
                        if self.group_pred(g as int).contains(p as usize) {
                            1int
                        } else {
                            0int
                        }) == sum_where(live_seq(self.groups@), self.above_vals(p)) by {
                        lemma_sum_update(live0, s0.above_vals(p), g as int, true);
                    }
                }
                let ghost pm = *self;
                self.masks = self.masks + self.groups[g].mask_weight as i64;
                proof {
                    assert(s0.layout_eq(self));
                    Self::lemma_layout_eq(&s0, self);
                    lemma_open_only(pm.keys@, pm.keys@, pm.keys@, pm.keys_combos@);
                    Self::lemma_aux_frame(&pm, self);
                }
                invalidate = true;
                let ghost pc0 = *self;
                if self.groups[g].keys.len() > 1 {
                    let ghost before = self.keys@;
                    let ghost pc = *self;
                    self.close_delayed(g);
                    proof {
                        lemma_open_only(s0.keys@, before, self.keys@, self.keys_combos@);
                        Self::lemma_aux_frame(&pc, self);
                    }
                }
                proof {
                    assert(s0.layout_eq(self));
                    Self::lemma_layout_eq(&s0, self);
                    Self::lemma_layout_eq(self, &s0);
                    assert(self.mask_wf());
                }
                let ghost before = *self;
                self.raise_preds(g);
                proof {
                    Self::lemma_layout_eq(self, &before);
                    lemma_open_only(s0.keys@, before.keys@, self.keys@, self.keys_combos@);
                    lemma_prefix_trans(s0.events.items(), before.events.items(), self.events.items());
                    lemma_counts_same_live(before.groups@, self.groups@);
                }
                proof {
                    Self::lemma_layout_eq(&before, &s0);
                    let e = s0.group_pred(g as int).to_set();
                    assert(before.group_pred(g as int) == s0.group_pred(g as int));
                    let kss_r = choose|kss_r: Seq<Seq<usize>>|
                        {
                            &&& drains_in_order(before.groups@, before.group_pred(g as int), kss_r)
                            &&& self.events.items() == before.events.items() + closing_events(
                                before.keys@,
                                before.keys_combos@,
                                kss_r.flatten(),
                            )
                        };
                    assert forall|h: int| 0 <= h < ng implies set_usize_contents(
                        (#[trigger] before.groups@[h]).active_combos,
                    ) == if dset.contains(h as usize) {
                        Set::<usize>::empty()
                    } else {
                        set_usize_contents(s0.groups@[h].active_combos)
                    } by {
                        assert(before.groups@[h].active_combos == top.groups@[h].active_combos);
                    }
                    lemma_held_compose(s0.groups@, before.groups@, dset, e);
                    lemma_drain_in_order_compose(
                        s0.groups@,
                        before.groups@,
                        ps,
                        kss,
                        before.group_pred(g as int),
                        kss_r,
                    );
                    lemma_drain_keys_bound(before.groups@, before.group_pred(g as int), kss_r, nk);
                    lemma_closing_open(s0.keys@, before.keys@, s0.keys_combos@, kss_r.flatten());
                    lemma_closing_append(s0.keys@, s0.keys_combos@, kss.flatten(), kss_r.flatten());
                    lemma_concat_where_step(kg, rise, part, i);
                    assert(rise(g as int));
                    let dl2 = if s0.groups@[g as int].size > 1 {
                        dl.union(s0.delayed_keys(g as int))
                    } else {
                        dl
                    };
                    assert forall|x: usize| x < nk implies #[trigger] self.keys@[x as int] == (Key {
                        open: s0.keys@[x as int].open && !held_by(s0.groups@, dset.union(e), x)
                            && !dl2.contains(x),
                        ..s0.keys@[x as int]
                    }) by {
                        assert(pc0.keys@ == top.keys@);
                        assert(held_by(s0.groups@, dset.union(e), x) == (held_by(s0.groups@, dset, x)
                            || held_by(before.groups@, e, x)));
                        if s0.groups@[g as int].size > 1 {
                            assert(pc0.group_keys(g as int) == s0.group_keys(g as int));
                            assert(pc0.keys@[x as int].spec_is_immediate() == s0.keys@[x as int].spec_is_immediate());
                        } else {
                            assert(before.keys@ == top.keys@);
                        }
                    }
                    assert forall|h: int| 0 <= h < ng implies set_usize_contents(
                        (#[trigger] self.groups@[h]).active_combos,
                    ) == if dset.union(e).contains(h as usize) {
                        Set::<usize>::empty()
                    } else {
                        set_usize_contents(s0.groups@[h].active_combos)
                    } by {
                    }
                    lemma_concat_to_set(ps, s0.group_pred(g as int));
                    ps = ps + s0.group_pred(g as int);
                    kss = kss + kss_r;
                    dset = dset.union(e);
                    dl = dl2;
                    assert forall|t: int| 0 <= t < kss.flatten().len() implies kss.flatten()[t] < nk by {
                    }
                }
            } else {
                proof {
                    assert(live_seq(self.groups@) =~= live0);
                    assert(!s0.rising_by(d1, g as int));
                    assert(dset.union(Set::<usize>::empty()) =~= dset);
                    lemma_concat_where_step(kg, rise, part, i);
                    assert(!rise(g as int));
                    assert(ps + Seq::<usize>::empty() =~= ps);
                    assert(dl.union(Set::<usize>::empty()) =~= dl);
                }
            }
            proof {
                s0.lemma_upto_step(d1, kg, i);
            }
            j += 1;
            assert(kg.subrange(0, j - rg.start) == kg.subrange(0, i + 1));
        }
        proof {
            Self::lemma_layout_eq(self, &s0);
            assert(j - rg.start == kg.len());
            assert(kg.subrange(0, kg.len() as int) =~= kg);
            assert forall|g: int| 0 <= g < ng implies (#[trigger] self.groups@[g]).counter == count_in(
                self.group_keys(g),
                d1,
            ) by {
                if d0.contains(key) {
                    assert(d1 =~= d0);
                } else {
                    lemma_count_insert(s0.group_keys(g), d0, key);
                }
            }
        }
        let ghost pre = *self;
        self.down = Ghost(d1);
        proof {
            assert(pre.layout_eq(self));
            Self::lemma_layout_eq(&pre, self);
            Self::lemma_layout_eq(self, &pre);
            assert(live_seq(self.groups@) == live_seq(pre.groups@));
            assert(self.aux_wf());
            assert(self.shadow_wf());
            assert(self.mask_wf());
            assert(self.count_wf());
        }
        proof {
            Self::lemma_layout_eq(self, &s0);
            assert forall|g: int| s0.rises(self, g) == s0.rising_by(d1, g) by {
                if 0 <= g < ng {
                    assert(self.groups@[g].counter == count_in(self.group_keys(g), d1));
                    assert(self.group_keys(g) == s0.group_keys(g));
                }
            }
            s0.lemma_upto_full(self, key);
            assert(j - rg.start == kg.len());
            assert(dset == s0.shadowed_anew(self));
            assert forall|x: usize| #[trigger] dl.contains(x) == s0.delayed_closed(self, x) by {
            }
            assert(kg.subrange(0, kg.len() as int) =~= kg);
            assert((|h: int| s0.rises(self, h)) =~= rise);
            assert(drains_in_order(
                s0.groups@,
                concat_where(kg, |h: int| s0.rises(self, h), |h: int| s0.group_pred(h)),
                kss,
            ));
        }
        invalidate
    }

    /// The first `n` groups of `kg` that are active.
    spec fn falling_upto(&self, kg: Seq<usize>, n: int) -> Set<usize> {
        Set::new(
            |g: usize| kg.subrange(0, n).contains(g) && (g as int) < self.groups@.len() && live(self.groups@[g as int]),
        )
    }

    /// Once all groups of `key` are counted down, what fell is what `after` shows.
    proof fn lemma_falling_full(&self, after: &Self, key: usize)
        requires
            self.wf(),
            key < self.keys@.len(),
            self.down@.contains(key) || self.key_groups(key as int).len() == 0,
            after.groups@.len() == self.groups@.len(),
            forall|g: int|
                0 <= g < self.groups@.len() ==> (#[trigger] after.groups@[g]).counter == count_in(
                    self.group_keys(g),
                    self.down@.remove(key),
                ) && after.groups@[g].size == self.groups@[g].size,
        ensures
            self.fallen(after) == self.falling_upto(
                self.key_groups(key as int),
                self.key_groups(key as int).len() as int,
            ),
            (exists|g: int| self.falls(after, g)) == (exists|i: int|
                0 <= i < self.key_groups(key as int).len() && live(
                    #[trigger] self.groups@[self.key_groups(key as int)[i] as int],
                )),
    {
        let d0 = self.down@;
        let d1 = d0.remove(key);
        let kg = self.key_groups(key as int);
        let n = kg.len() as int;
        assert(kg.subrange(0, n) =~= kg);
        assert forall|g: usize| self.fallen(after).contains(g) == self.falling_upto(kg, n).contains(g) by {
            if (g as int) < self.groups@.len() {
                let gk = self.group_keys(g as int);
                assert(self.groups@[g as int].counter == count_in(gk, d0));
                if d0.contains(key) {
                    lemma_count_remove(gk, d0, key);
                } else {
                    assert(d1 =~= d0);
                }
                if gk.contains(key) {
                    assert(self.key_groups(key as int).contains(g));
                }
                if kg.contains(g) {
                    assert(self.group_keys(g as int).contains(key));
                }
            }
        }
        assert(self.fallen(after) =~= self.falling_upto(kg, n));
        if exists|g: int| self.falls(after, g) {
            let g = choose|g: int| self.falls(after, g);
            assert(self.fallen(after).contains(g as usize));
            assert(kg.contains(g as usize));
            let i = choose|i: int| 0 <= i < kg.len() && kg[i] == g as usize;
            assert(live(self.groups@[kg[i] as int]));
        }
        if exists|i: int| 0 <= i < n && live(#[trigger] self.groups@[kg[i] as int]) {
            let i = choose|i: int| 0 <= i < n && live(#[trigger] self.groups@[kg[i] as int]);
            assert(self.falling_upto(kg, n).contains(kg[i]));
            assert(self.fallen(after).contains(kg[i]));
            assert(self.falls(after, kg[i] as int));
        }
    }

    /// Counts a key release in the groups of the key; the groups that stop
    /// being active stop masking and shadowing, and close what they modified.
    /// Returns whether a group stopped being active.
    #[verifier::rlimit(40)]
    fn deactivate(&mut self, key: usize) -> (invalidate: bool)
        requires
            old(self).wf(),
            key < old(self).keys@.len(),
            old(self).down@.contains(key) || old(self).key_groups(key as int).len() == 0,
        ensures
            final(self).layout_eq(old(self)),
            final(self).wf(),
            final(self).down@ == old(self).down@.remove(key),
            final(self).cache_counter == old(self).cache_counter,
            prefix_of(old(self).events.items(), final(self).events.items()),
            keys_open_only(old(self).keys@, final(self).keys@),
            old(self).key_groups(key as int).len() == 0 ==> !invalidate && *final(self) == (Self {
                down: final(self).down,
                ..*old(self)
            }),
            invalidate == exists|g: int| old(self).falls(final(self), g),
            forall|h: int|
                0 <= h < old(self).groups@.len() ==> set_usize_contents(
                    (#[trigger] final(self).groups@[h]).active_combos,
                ) == if old(self).fallen(final(self)).contains(h as usize) {
                    Set::<usize>::empty()
                } else {
                    set_usize_contents(old(self).groups@[h].active_combos)
                },
            forall|x: usize|
                x < old(self).keys@.len() ==> #[trigger] final(self).keys@[x as int] == (Key {
                    open: old(self).keys@[x as int].open && !held_by(
                        old(self).groups@,
                        old(self).fallen(final(self)),
                        x,
                    ),
                    ..old(self).keys@[x as int]
                }),
            exists|kss: Seq<Seq<usize>>|
                {
                    &&& drains_in_order(
                        old(self).groups@,
                        concat_where(
                            old(self).key_groups(key as int),
                            |h: int| live(old(self).groups@[h]),
                            |h: int| seq![h as usize],
                        ),
                        kss,
                    )
                    &&& final(self).events.items() == old(self).events.items() + closing_events(
                        old(self).keys@,
                        old(self).keys_combos@,
                        kss.flatten(),
                    )
                },
    {
        let ghost s0 = *self;
        let ghost d0 = s0.down@;
        let ghost d1 = d0.remove(key);
        let ghost ng = s0.groups@.len();
        let ghost nk = s0.keys@.len();
        let ghost kg = s0.key_groups(key as int);
        let ghost mut prs: Seq<(usize, usize)> = Seq::empty();
        let ghost mut ps: Seq<usize> = Seq::empty();
        let ghost mut kss: Seq<Seq<usize>> = Seq::empty();
        let ghost pick = |h: int| live(s0.groups@[h]);
        let ghost part = |h: int| seq![h as usize];
        let mut invalidate = false;
        let rg = self.keys[key].groups.into_iter();
        let mut j = rg.start;
        assert(s0.events.items().subrange(0, s0.events.items().len() as int) =~= s0.events.items());
        assert(s0.falling_upto(kg, 0) =~= Set::<usize>::empty());
        assert(s0.events.items() =~= s0.events.items() + closing_events(s0.keys@, s0.keys_combos@, pair_keys(prs)));
        assert(prs.to_set() =~= combo_pairs(s0.groups@, s0.falling_upto(kg, 0)));
        assert(pair_keys(prs) =~= kss.flatten());
        assert(ps.to_set() =~= s0.falling_upto(kg, 0));
        assert(kg.subrange(0, 0) =~= Seq::<usize>::empty());
        while j < rg.end
            invariant
                s0.wf(),
                key < s0.keys@.len(),
                d0.contains(key) || kg.len() == 0,
                d0 == s0.down@,
                d1 == d0.remove(key),
                ng == s0.groups@.len(),
                kg == s0.key_groups(key as int),
                rg.start == s0.keys@[key as int].groups@.0,
                rg.end == s0.keys@[key as int].groups@.1,
                rg.start <= j <= rg.end,
                self.layout_eq(&s0),
                self.layout_wf(),
                self.aux_wf(),
                self.down == s0.down,
                self.cache_counter == s0.cache_counter,
                prefix_of(s0.events.items(), self.events.items()),
                keys_open_only(s0.keys@, self.keys@),
                forall|g: int|
                    0 <= g < ng ==> (#[trigger] self.groups@[g]).counter == count_in(
                        s0.group_keys(g),
                        if kg.subrange(0, j - rg.start).contains(g as usize) {
                            d1
                        } else {
                            d0
                        },
                    ),
                self.shadow_wf(),
                self.mask_wf(),
                j == rg.start ==> !invalidate && *self == s0,
                nk == s0.keys@.len(),
                invalidate == exists|i: int|
                    0 <= i < j - rg.start && live(#[trigger] s0.groups@[kg[i] as int]),
                forall|h: int|
                    0 <= h < ng ==> set_usize_contents((#[trigger] self.groups@[h]).active_combos)
                        == if s0.falling_upto(kg, j - rg.start).contains(h as usize) {
                        Set::<usize>::empty()
                    } else {
                        set_usize_contents(s0.groups@[h].active_combos)
                    },
                forall|x: usize|
                    x < nk ==> #[trigger] self.keys@[x as int] == (Key {
                        open: s0.keys@[x as int].open && !held_by(
                            s0.groups@,
                            s0.falling_upto(kg, j - rg.start),
                            x,
                        ),
                        ..s0.keys@[x as int]
                    }),
                prs.no_duplicates(),
                prs.to_set() == combo_pairs(s0.groups@, s0.falling_upto(kg, j - rg.start)),
                pick == (|h: int| live(s0.groups@[h])),
                part == (|h: int| seq![h as usize]),
                ps == concat_where(kg.subrange(0, j - rg.start), pick, part),
                ps.to_set() == s0.falling_upto(kg, j - rg.start),
                drains_in_order(s0.groups@, ps, kss),
                pair_keys(prs) == kss.flatten(),
                forall|t: int| 0 <= t < pair_keys(prs).len() ==> pair_keys(prs)[t] < nk,
                self.events.items() == s0.events.items() + closing_events(
                    s0.keys@,
                    s0.keys_combos@,
                    pair_keys(prs),
                ),
            decreases rg.end - j,
        {
            let g = self.keys_groups[j];
            let ghost i = j - rg.start;
            let ghost top = *self;
            proof {
                Self::lemma_layout_eq(self, &s0);
                Self::lemma_layout_eq(&s0, self);
                assert(kg[i] == g);
                assert(kg.contains(g));
                assert(d0.contains(key));
                assert(s0.group_keys(g as int).contains(key));
                lemma_subrange_step(kg, i);
                if kg.subrange(0, i).contains(g) {
                    let k = choose|k: int| 0 <= k < i && kg.subrange(0, i)[k] == g;
                    assert(kg[k] == kg[i]);
                }
                lemma_count_remove(s0.group_keys(g as int), d0, key);
                lemma_count_le(s0.group_keys(g as int), d0);
            }
            let ghost live0 = live_seq(self.groups@);
            let ghost active_now = live(self.groups@[g as int]);
            if self.groups[g].is_active() {
                let ghost before = *self;
                self.lower_preds(g);
                proof {
                    assert(before.layout_eq(self));
                    Self::lemma_layout_eq(&before, self);
                    Self::lemma_layout_eq(self, &before);
                    lemma_counts_same_live(before.groups@, self.groups@);
                    assert(self.aux_wf());
                    lemma_sum_update(live0, s0.weights(), g as int, false);
                    assert forall|q: int| 0 <= q < ng implies -(ng as int) <= #[trigger] s0.weights()[q] <= 1 by {
                    }
                    lemma_sum_bounds(live0.update(g as int, false), s0.weights(), -(ng as int), 1);
                    assert(ng * (-(ng as int)) >= -9223372036854775808) by (nonlinear_arith)
                        requires ng <= 2147483647;
                }
                invalidate = true;
                self.masks = self.masks - self.groups[g].mask_weight as i64;
                let ghost mid = *self;
                close_active_combos(&mut self.groups[g], &mut self.keys, &self.keys_combos, &mut self.events);
                proof {
                    let ks = choose|ks: Seq<usize>|
                        {
                            &&& ks.no_duplicates()
                            &&& ks.to_set() == set_usize_contents(mid.groups@[g as int].active_combos)
                            &&& self.keys@ == closed_keys(mid.keys@, ks)
                            &&& self.events.items() == mid.events.items() + closing_events(
                                mid.keys@,
                                mid.keys_combos@,
                                ks,
                            )
                        };
                    let dd = s0.falling_upto(kg, i);
                    assert(!kg.subrange(0, i).contains(g));
                    assert(!dd.contains(g));
                    assert(set_usize_contents(mid.groups@[g as int].active_combos) == set_usize_contents(
                        top.groups@[g as int].active_combos));
                    assert forall|t: int| 0 <= t < ks.len() implies ks[t] < nk by {
                        assert(ks.to_set().contains(ks[t]));
                    }
                    lemma_drain_step(s0.groups@, dd, g, ks, prs);
                    lemma_drain_in_order_step(s0.groups@, ps, kss, g, ks);
                    lemma_closing_open(s0.keys@, mid.keys@, s0.keys_combos@, ks);
                    lemma_closing_append(s0.keys@, s0.keys_combos@, pair_keys(prs), ks);
                    assert(mid.keys@ == top.keys@);
                    assert forall|x: usize| x < nk implies #[trigger] self.keys@[x as int] == (Key {
                        open: s0.keys@[x as int].open && !held_by(s0.groups@, dd.insert(g), x),
                        ..s0.keys@[x as int]
                    }) by {
                        assert(held_by(s0.groups@, dd.insert(g), x) == (held_by(s0.groups@, dd, x) || ks.contains(x)));
                    }
                    assert forall|h: int| 0 <= h < ng implies set_usize_contents(
                        (#[trigger] self.groups@[h]).active_combos,
                    ) == if dd.insert(g).contains(h as usize) {
                        Set::<usize>::empty()
                    } else {
                        set_usize_contents(s0.groups@[h].active_combos)
                    } by {
                        if h != g {
                            assert(self.groups@[h] == mid.groups@[h]);
                            assert(set_usize_contents(mid.groups@[h].active_combos) == set_usize_contents(
                                top.groups@[h].active_combos));
                        }
                    }
                    prs = prs + tagged(g, ks);
                    lemma_concat_to_set(ps, seq![g]);
                    assert(ps.push(g) =~= ps + seq![g]);
                    assert(seq![g][0] == g);
                    assert(seq![g].to_set() =~= set![g]);
                    ps = ps.push(g);
                    kss = kss.push(ks);
                    assert(ps.to_set() =~= dd.insert(g));
                    assert forall|t: int| 0 <= t < pair_keys(prs).len() implies pair_keys(prs)[t] < nk by {
                    }
                }
                proof {
                    lemma_open_only(s0.keys@, mid.keys@, self.keys@, self.keys_combos@);
                    lemma_prefix_trans(s0.events.items(), mid.events.items(), self.events.items());
                    assert(mid.layout_eq(self));
                    Self::lemma_layout_eq(&mid, self);
                    Self::lemma_layout_eq(self, &mid);
                    assert forall|h: int, x: usize|
                        0 <= h < self.groups@.len() && #[trigger] set_usize_contents(
                            self.groups@[h].active_combos,
                        ).contains(x) implies x < self.keys@.len() by {
                        if h != g {
                            assert(self.groups@[h] == mid.groups@[h]);
                            assert(set_usize_contents(mid.groups@[h].active_combos) == set_usize_contents(
                                before.groups@[h].active_combos));
                        }
                    }
                    assert(groups_counts_same(before.groups@, self.groups@));
                    assert forall|p: int| 0 <= p < ng implies (#[trigger] self.groups@[p]).active_greater + (
                        if s0.group_pred(g as int).contains(p as usize) {
                            1int
                        } else {
                            0int
                        }) == sum_where(live0, s0.above_vals(p)) by {
                        assert(self.groups@[p].active_greater == mid.groups@[p].active_greater);
                    }
                    lemma_counts_same_live(before.groups@, self.groups@);
                }
            }
            proof {
                let dd = s0.falling_upto(kg, i);
                lemma_subrange_step(kg, i);
                assert(kg[i] == g);
                assert(top.groups@[g as int].counter == s0.groups@[g as int].counter);
                assert(active_now == live(s0.groups@[g as int]));
                let dn = if active_now {
                    dd.insert(g)
                } else {
                    dd
                };
                assert(s0.falling_upto(kg, i + 1) =~= dn);
                lemma_concat_where_step(kg, pick, part, i);
                assert(pick(g as int) == active_now);
                if active_now {
                    assert(ps =~= concat_where(kg.subrange(0, i), pick, part) + seq![g]);
                } else {
                    assert(ps =~= concat_where(kg.subrange(0, i), pick, part) + Seq::<usize>::empty());
                }
                if exists|i2: int| 0 <= i2 < i + 1 && live(#[trigger] s0.groups@[kg[i2] as int]) {
                    let i2 = choose|i2: int| 0 <= i2 < i + 1 && live(#[trigger] s0.groups@[kg[i2] as int]);
                    if i2 < i {
                        assert(exists|i3: int| 0 <= i3 < i && live(#[trigger] s0.groups@[kg[i3] as int]));
                    }
                }
                if exists|i2: int| 0 <= i2 < i && live(#[trigger] s0.groups@[kg[i2] as int]) {
                    let i2 = choose|i2: int| 0 <= i2 < i && live(#[trigger] s0.groups@[kg[i2] as int]);
                    assert(0 <= i2 < i + 1 && live(s0.groups@[kg[i2] as int]));
                }
                if active_now {
                    assert(0 <= i < i + 1 && live(s0.groups@[kg[i] as int]));
                }
            }
            let ghost prev = *self;
            let ghost live1 = live_seq(self.groups@);
            proof {
                assert(live1 == live0);
                assert forall|p: int| 0 <= p < ng implies (#[trigger] prev.groups@[p]).active_greater + (
                    if active_now && s0.group_pred(g as int).contains(p as usize) {
                        1int
                    } else {
                        0int
                    }) == sum_where(live1, s0.above_vals(p)) by {
                }
            }
            self.groups[g].counter -= 1;
            proof {
                assert forall|h: int| 0 <= h < ng implies group_static_eq(
                    #[trigger] self.groups@[h],
                    s0.groups@[h],
                ) by {
                    if h != g {
                        assert(self.groups@[h] == prev.groups@[h]);
                    }
                }
                assert(self.layout_eq(&s0));
                Self::lemma_layout_eq(self, &s0);
                Self::lemma_layout_eq(&s0, self);
                assert(live_seq(self.groups@) =~= live1.update(g as int, false));
                assert forall|p: int| 0 <= p < ng implies (#[trigger] self.groups@[p]).active_greater
                    == sum_where(live_seq(self.groups@), self.above_vals(p)) by {
                    lemma_sum_update(live1, s0.above_vals(p), g as int, false);
                    assert(self.groups@[p].active_greater == prev.groups@[p].active_greater);
                    assert(live1[g as int] == active_now);
                }
                lemma_sum_update(live1, s0.weights(), g as int, false);
                assert(self.aux_wf());
            }
            j += 1;
            assert(kg.subrange(0, j - rg.start) == kg.subrange(0, i + 1));
        }
        proof {
            Self::lemma_layout_eq(self, &s0);
            assert(j - rg.start == kg.len());
            assert(kg.subrange(0, kg.len() as int) =~= kg);
            assert forall|g: int| 0 <= g < ng implies (#[trigger] self.groups@[g]).counter == count_in(
                self.group_keys(g),
                d1,
            ) by {
                if d0.contains(key) {
                    lemma_count_remove(s0.group_keys(g), d0, key);
                } else {
                    assert(d1 =~= d0);
                }
            }
        }
        let ghost pre = *self;
        self.down = Ghost(d1);
        proof {
            assert(pre.layout_eq(self));
            Self::lemma_layout_eq(&pre, self);
            Self::lemma_layout_eq(self, &pre);
            assert(live_seq(self.groups@) == live_seq(pre.groups@));
            assert(self.aux_wf());
            assert(self.shadow_wf());
            assert(self.mask_wf());
            assert(self.count_wf());
        }
        proof {
            Self::lemma_layout_eq(self, &s0);
            assert forall|g: int| 0 <= g < ng implies (#[trigger] self.groups@[g]).counter == count_in(
                s0.group_keys(g),
                d0.remove(key),
            ) && self.groups@[g].size == s0.groups@[g].size by {
                assert(self.group_keys(g) == s0.group_keys(g));
            }
            s0.lemma_falling_full(self, key);
            assert(prs.to_set() == combo_pairs(s0.groups@, s0.fallen(self)));
            assert(kg.subrange(0, kg.len() as int) =~= kg);
        }
        invalidate
    }

    /// The group of combo `i` of key `k`.
    pub closed spec fn combo_group(&self, k: int, i: int) -> int {
        self.key_combos(k)[i].group as int
    }

    /// Combo `i` of key `k` is the first whose group is on.
    pub closed spec fn is_candidate(&self, k: int, i: int) -> bool {
        &&& 0 <= i < self.key_combos(k).len()
        &&& group_on(self.groups@[self.combo_group(k, i)])
        &&& forall|j: int| 0 <= j < i ==> !group_on(#[trigger] self.groups@[self.combo_group(k, j)])
    }

    /// Nothing contends with combo `c` of key `k`: every later combo whose
    /// group is on has a group included in its group, its group is not
    /// shadowed, and no group intersecting its group is on.
    pub closed spec fn unchallenged(&self, k: int, c: int) -> bool {
        let cg = self.combo_group(k, c);
        &&& forall|j: int|
            c < j < self.key_combos(k).len() && group_on(#[trigger] self.groups@[self.combo_group(k, j)])
                ==> group_le(self.groups@[self.combo_group(k, j)], self.groups@[cg])
        &&& self.groups@[cg].active_greater <= 0
        &&& forall|x: int|
            0 <= x < self.group_intersect(cg).len() ==> !group_on(
                #[trigger] self.groups@[self.group_intersect(cg)[x] as int],
            )
    }

    /// The combo that a press of key `k` activates, if any.
    pub closed spec fn chosen_combo(&self, k: int) -> Option<usize> {
        if exists|i: int| self.is_candidate(k, i) && self.unchallenged(k, i) {
            Some((choose|i: int| self.is_candidate(k, i) && self.unchallenged(k, i)) as usize)
        } else {
            None
        }
    }

    /// Whether an unmodified press of key `k` sends its action.
    pub closed spec fn fires_unmodified(&self, k: int) -> bool {
        !self.masking() && self.keys@[k].spec_is_immediate() && self.keys@[k].action is Some
    }

    /// What an unmodified press of key `k` sends.
    pub closed spec fn unmodified_events(&self, k: int, kind: Kind, value: i16) -> Seq<Event<Z>> {
        if self.fires_unmodified(k) {
            seq![Event { keycode: self.keys@[k].action.unwrap(), kind: kind, value: value }]
        } else {
            Seq::empty()
        }
    }

    /// What a press of key `k` sends when its resolution is computed anew.
    pub closed spec fn resolve_events(&self, k: int, kind: Kind, value: i16) -> Seq<Event<Z>> {
        match self.chosen_combo(k) {
            Some(c) => if self.keys@[k].spec_is_immediate() {
                match self.key_combos(k)[c as int].action {
                    Some(a) => seq![Event { keycode: a, kind: kind, value: value }],
                    None => Seq::empty(),
                }
            } else {
                Seq::empty()
            },
            None => self.unmodified_events(k, kind, value),
        }
    }

    /// What a press of an immediate key `k` sends when its last resolution
    /// still holds.
    pub closed spec fn cached_events(&self, k: int, kind: Kind, value: i16) -> Seq<Event<Z>> {
        let out = match self.keys@[k].active_combo {
            Some(i) => self.key_combos(k)[i as int].action,
            None => None,
        };
        let out = if out is Some {
            out
        } else if !self.masking() {
            self.keys@[k].action
        } else {
            None
        };
        match out {
            Some(a) => seq![Event { keycode: a, kind: kind, value: value }],
            None => Seq::empty(),
        }
    }

    /// What a release of key `k` sends, once its groups are counted down.
    pub closed spec fn release_events(&self, k: int) -> Seq<Event<Z>> {
        if self.keys@[k].open {
            let out = match self.keys@[k].active_combo {
                Some(i) => self.key_combos(k)[i as int].action,
                None => None,
            };
            let out = if out is Some {
                out
            } else {
                self.keys@[k].action
            };
            match out {
                Some(a) => if self.keys@[k].spec_is_immediate() {
                    seq![Event { keycode: a, kind: Kind::Up, value: 0i16 }]
                } else {
                    seq![
                        Event { keycode: a, kind: Kind::Down, value: 0i16 },
                        Event { keycode: a, kind: Kind::Up, value: 0i16 },
                    ]
                },
                None => Seq::empty(),
            }
        } else {
            Seq::empty()
        }
    }

    /// Sends the unmodified action of a key, unless masked, and clears its combo.
    fn maybe_action(&mut self, key: usize, kind: Kind, value: i16)
        requires
            key < old(self).keys@.len(),
        ensures
            *final(self) == (Self { keys: final(self).keys, events: final(self).events, ..*old(self) }),
            final(self).keys@ == old(self).keys@.update(
                key as int,
                Key {
                    open: if old(self).fires_unmodified(key as int) {
                        true
                    } else {
                        old(self).keys@[key as int].open
                    },
                    active_combo: None,
                    ..old(self).keys@[key as int]
                },
            ),
            final(self).events.items() == old(self).events.items() + old(self).unmodified_events(
                key as int,
                kind,
                value,
            ),
    {
        if !self.is_masking() && self.keys[key].is_immediate() {
            if let Some(action) = self.keys[key].action {
                self.events.push(Event { keycode: action, kind, value });
                self.keys[key].open();
            }
        }
        self.keys[key].active_combo = None;
        assert(self.events.items() =~= old(self).events.items() + old(self).unmodified_events(
            key as int,
            kind,
            value,
        ));
    }

    proof fn lemma_candidate_unique(&self, k: int, i: int, j: int)
        requires
            self.is_candidate(k, i),
            self.is_candidate(k, j),
        ensures
            i == j,
    {
        if i < j {
            assert(!group_on(self.groups@[self.combo_group(k, i)]));
        } else if j < i {
            assert(!group_on(self.groups@[self.combo_group(k, j)]));
        }
    }

    proof fn lemma_chosen(&self, k: int, c: int)
        requires
            self.is_candidate(k, c),
        ensures
            self.unchallenged(k, c) ==> self.chosen_combo(k) == Some(c as usize),
            !self.unchallenged(k, c) ==> self.chosen_combo(k) is None,
    {
        if exists|i: int| self.is_candidate(k, i) && self.unchallenged(k, i) {
            let i = choose|i: int| self.is_candidate(k, i) && self.unchallenged(k, i);
            self.lemma_candidate_unique(k, i, c);
        }
    }

    /// Whether the group of combo `i` of key `key` is on.
    fn combo_on(&self, key: usize, i: usize) -> (b: bool)
        requires
            self.layout_wf(),
            self.aux_wf(),
            key < self.keys@.len(),
            i < self.key_combos(key as int).len(),
        ensures
            b == group_on(self.groups@[self.combo_group(key as int, i as int)]),
    {
        let c = self.keys[key].get_combo(i, self.keys_combos.as_slice());
        proof {
            let j = self.keys@[key as int].combos@.0 + i;
            assert(self.keys_combos@[j].group < self.groups@.len());
        }
        self.groups[c.group].is_active()
    }

    /// Falls back to the unmodified action when no combo is chosen.
    fn fallback(&mut self, key: usize, kind: Kind, value: i16)
        requires
            old(self).wf(),
            key < old(self).keys@.len(),
            old(self).chosen_combo(key as int) is None,
            old(self).keys@[key as int].cache_counter == old(self).cache_counter,
        ensures
            final(self).layout_eq(old(self)),
            final(self).wf(),
            final(self).down == old(self).down,
            final(self).masks == old(self).masks,
            final(self).cache_counter == old(self).cache_counter,
            final(self).keys@[key as int].active_combo == old(self).chosen_combo(key as int),
            final(self).events.items() == old(self).events.items() + old(self).resolve_events(
                key as int,
                kind,
                value,
            ),
            *final(self) == (Self {
                keys: final(self).keys,
                groups: final(self).groups,
                events: final(self).events,
                ..*old(self)
            }),
            final(self).keys@ == Seq::new(
                old(self).keys@.len(),
                |x: int| old(self).resolved_key(key as int, x, old(self).keys@[key as int].open),
            ),
            groups_gain(old(self).groups@, final(self).groups@, old(self).resolve_slot(key as int), key),
    {
        let ghost s0 = *self;
        self.maybe_action(key, kind, value);
        proof {
            assert(self.keys@ =~= Seq::new(
                s0.keys@.len(),
                |x: int| s0.resolved_key(key as int, x, s0.keys@[key as int].open),
            ));
            assert(self.layout_eq(&s0));
            Self::lemma_layout_eq(self, &s0);
            Self::lemma_layout_eq(&s0, self);
            assert(self.aux_wf());
            assert(self.count_wf());
            assert(self.shadow_wf());
            assert(self.mask_wf());
        }
    }

    /// Activates the chosen combo of a key.
    #[verifier::rlimit(80)]
    fn commit(&mut self, key: usize, candidate: usize, cg: usize, kind: Kind, value: i16)
        requires
            old(self).wf(),
            key < old(self).keys@.len(),
            old(self).is_candidate(key as int, candidate as int),
            old(self).unchallenged(key as int, candidate as int),
            cg as int == old(self).combo_group(key as int, candidate as int),
            cg < old(self).groups@.len(),
            old(self).keys@[key as int].cache_counter == old(self).cache_counter,
        ensures
            final(self).layout_eq(old(self)),
            final(self).wf(),
            final(self).down == old(self).down,
            final(self).masks == old(self).masks,
            final(self).cache_counter == old(self).cache_counter,
            final(self).keys@[key as int].active_combo == old(self).chosen_combo(key as int),
            final(self).events.items() == old(self).events.items() + old(self).resolve_events(
                key as int,
                kind,
                value,
            ),
            *final(self) == (Self {
                keys: final(self).keys,
                groups: final(self).groups,
                events: final(self).events,
                ..*old(self)
            }),
            final(self).keys@ == Seq::new(
                old(self).keys@.len(),
                |x: int| old(self).resolved_key(key as int, x, old(self).keys@[key as int].open),
            ),
            groups_gain(old(self).groups@, final(self).groups@, old(self).resolve_slot(key as int), key),
    {
        let ghost s0 = *self;
        proof {
            s0.lemma_chosen(key as int, candidate as int);
        }
        if self.groups[cg].size == 1 {
            self.close_delayed(cg);
        }
        let ghost s1 = *self;
        proof {
            lemma_open_only(s0.keys@, s1.keys@, s1.keys@, s0.keys_combos@);
            assert(s1.layout_eq(&s0));
            Self::lemma_layout_eq(&s1, &s0);
            Self::lemma_layout_eq(&s0, &s1);
        }
        if !self.keys[key].latching {
            set_usize_insert(&mut self.groups[cg].active_combos, key);
        }
        let ghost s2 = *self;
        if self.keys[key].is_immediate() {
            let c = self.keys[key].get_combo(candidate, self.keys_combos.as_slice());
            if let Some(a) = c.action {
                self.events.push(Event { keycode: a, kind, value });
                self.keys[key].open();
            }
        }
        self.keys[key].active_combo = Some(candidate);
        proof {
            assert(self.events.items() =~= s0.events.items() + s0.resolve_events(key as int, kind, value));
            assert forall|h: int| 0 <= h < s0.groups@.len() implies group_static_eq(
                #[trigger] self.groups@[h],
                s0.groups@[h],
            ) && self.groups@[h].counter == s0.groups@[h].counter
                && self.groups@[h].active_greater == s0.groups@[h].active_greater by {
                assert(self.groups@[h] == s2.groups@[h]);
                if h != cg {
                    assert(s2.groups@[h] == s1.groups@[h]);
                }
            }
            assert(self.layout_eq(&s0));
            Self::lemma_layout_eq(self, &s0);
            Self::lemma_layout_eq(&s0, self);
            assert(live_seq(self.groups@) =~= live_seq(s0.groups@));
            assert forall|k: int| 0 <= k < self.keys@.len() implies {
                &&& (#[trigger] self.keys@[k]).combos@.0 <= self.keys@[k].combos@.1
                    <= self.keys_combos@.len()
                &&& self.keys@[k].active_combo matches Some(i) ==> i < self.keys@[k].combos@.1
                    - self.keys@[k].combos@.0
            } by {
                if k != key {
                    assert(self.keys@[k] == Key { open: self.keys@[k].open, ..s0.keys@[k] });
                }
            }
            assert forall|h: int, x: usize|
                0 <= h < self.groups@.len() && #[trigger] set_usize_contents(
                    self.groups@[h].active_combos,
                ).contains(x) implies x < self.keys@.len() by {
                assert(self.groups@[h] == s2.groups@[h]);
                assert(self.keys@.len() == s0.keys@.len());
                if h != cg {
                    assert(s2.groups@[h] == s1.groups@[h]);
                    assert(s1.groups@[h] == s0.groups@[h]);
                    assert(set_usize_contents(s0.groups@[h].active_combos).contains(x));
                } else if x != key {
                    assert(set_usize_contents(s1.groups@[h].active_combos).contains(x));
                    assert(s1.groups@[h] == s0.groups@[h]);
                    assert(set_usize_contents(s0.groups@[h].active_combos).contains(x));
                }
            }
            assert(self.aux_wf());
            assert(self.count_wf());
            assert(self.shadow_wf());
            assert(self.mask_wf());
            assert(s0.resolve_slot(key as int) == if !s0.keys@[key as int].latching {
                Some(cg)
            } else {
                None
            });
            assert forall|h: int| 0 <= h < s0.groups@.len() implies set_usize_contents(
                (#[trigger] self.groups@[h]).active_combos,
            ) == if s0.resolve_slot(key as int) == Some(h as usize) {
                set_usize_contents(s0.groups@[h].active_combos).insert(key)
            } else {
                set_usize_contents(s0.groups@[h].active_combos)
            } by {
                assert(self.groups@[h] == s2.groups@[h]);
                assert(s1.groups@ == s0.groups@);
            }
            assert forall|x: int| 0 <= x < s0.keys@.len() implies #[trigger] self.keys@[x] == s0.resolved_key(
                key as int,
                x,
                s0.keys@[key as int].open,
            ) by {
                assert(s0.group_keys(cg as int) == s0.group_keys(s0.combo_group(key as int, candidate as int)));
                if s0.groups@[cg as int].size == 1 {
                    let xu = x as usize;
                    assert(s0.keys.len() == s0.keys@.len());
                    assert(xu as int == x);
                    assert(s1.keys@[xu as int] == Key {
                        open: s0.keys@[xu as int].open && !(s0.group_keys(cg as int).contains(xu)
                            && !s0.keys@[xu as int].spec_is_immediate()),
                        ..s0.keys@[xu as int]
                    });
                } else {
                    assert(s1.keys@[x] == s0.keys@[x]);
                }
                if x != key as int {
                    assert(self.keys@[x] == s1.keys@[x]);
                }
            }
            assert(self.keys@ =~= Seq::new(
                s0.keys@.len(),
                |x: int| s0.resolved_key(key as int, x, s0.keys@[key as int].open),
            ));
        }
    }

    /// Resolves a press of an action key anew: activates the combo chosen by
    /// the groups that are on, or falls back to the unmodified action.
    fn resolve(&mut self, key: usize, kind: Kind, value: i16)
        requires
            old(self).wf(),
            key < old(self).keys@.len(),
            old(self).keys@[key as int].cache_counter == old(self).cache_counter,
        ensures
            final(self).layout_eq(old(self)),
            final(self).wf(),
            final(self).down == old(self).down,
            final(self).masks == old(self).masks,
            final(self).cache_counter == old(self).cache_counter,
            final(self).keys@[key as int].active_combo == old(self).chosen_combo(key as int),
            final(self).events.items() == old(self).events.items() + old(self).resolve_events(
                key as int,
                kind,
                value,
            ),
            *final(self) == (Self {
                keys: final(self).keys,
                groups: final(self).groups,
                events: final(self).events,
                ..*old(self)
            }),
            final(self).keys@ == Seq::new(
                old(self).keys@.len(),
                |x: int| old(self).resolved_key(key as int, x, old(self).keys@[key as int].open),
            ),
            groups_gain(old(self).groups@, final(self).groups@, old(self).resolve_slot(key as int), key),
    {
        let ghost s0 = *self;
        let combos = self.keys[key].combos.len();
        let mut i: usize = 0;
        while i < combos && !self.combo_on(key, i)
            invariant
                s0.wf(),
                *self == s0,
                key < s0.keys@.len(),
                combos == s0.key_combos(key as int).len(),
                i <= combos,
                forall|j: int| 0 <= j < i ==> !group_on(#[trigger] s0.groups@[s0.combo_group(key as int, j)]),
            decreases combos - i,
        {
            i += 1;
        }
        if i == combos {
            proof {
                if exists|c: int| s0.is_candidate(key as int, c) && s0.unchallenged(key as int, c) {
                    let c = choose|c: int| s0.is_candidate(key as int, c) && s0.unchallenged(key as int, c);
                    assert(!group_on(s0.groups@[s0.combo_group(key as int, c)]));
                }
            }
            self.fallback(key, kind, value);
            return;
        }
        let candidate = i;
        let cg = self.keys[key].get_combo(candidate, self.keys_combos.as_slice()).group;
        proof {
            assert(s0.is_candidate(key as int, candidate as int));
            assert(cg as int == s0.combo_group(key as int, candidate as int));
            let j = s0.keys@[key as int].combos@.0 + candidate;
            assert(s0.keys_combos@[j].group < s0.groups@.len());
        }
        let mut challenged = false;
        while !challenged && i < combos
            invariant
                s0.wf(),
                *self == s0,
                key < s0.keys@.len(),
                combos == s0.key_combos(key as int).len(),
                s0.is_candidate(key as int, candidate as int),
                cg as int == s0.combo_group(key as int, candidate as int),
                cg < s0.groups@.len(),
                candidate <= i <= combos,
                challenged ==> !s0.unchallenged(key as int, candidate as int),
                !challenged ==> forall|j: int|
                    candidate < j < i && group_on(#[trigger] s0.groups@[s0.combo_group(key as int, j)])
                        ==> group_le(s0.groups@[s0.combo_group(key as int, j)], s0.groups@[cg as int]),
            decreases combos - i,
        {
            let ig = self.keys[key].get_combo(i, self.keys_combos.as_slice()).group;
            proof {
                let j = s0.keys@[key as int].combos@.0 + i;
                assert(s0.keys_combos@[j].group < s0.groups@.len());
                assert(ig as int == s0.combo_group(key as int, i as int));
            }
            if self.groups[ig].is_active() && !(self.groups[ig] <= self.groups[cg]) {
                challenged = true;
            }
            i += 1;
        }
        if challenged {
            proof {
                s0.lemma_chosen(key as int, candidate as int);
            }
            self.fallback(key, kind, value);
            return;
        }
        let mut conflict = self.groups[cg].is_shadowed();
        let irg = self.groups[cg].intersect.into_iter();
        let mut m = irg.start;
        let ghost gi = s0.group_intersect(cg as int);
        while !conflict && m < irg.end
            invariant
                s0.wf(),
                *self == s0,
                cg < s0.groups@.len(),
                gi == s0.group_intersect(cg as int),
                irg.start == s0.groups@[cg as int].intersect@.0,
                irg.end == s0.groups@[cg as int].intersect@.1,
                irg.start <= m <= irg.end,
                conflict ==> (s0.groups@[cg as int].active_greater > 0 || (m > irg.start && group_on(
                    s0.groups@[gi[m - irg.start - 1] as int],
                ))),
                !conflict ==> s0.groups@[cg as int].active_greater <= 0 && forall|x: int|
                    0 <= x < m - irg.start ==> !group_on(#[trigger] s0.groups@[gi[x] as int]),
            decreases irg.end - m,
        {
            let x = self.groups_intersect[m];
            proof {
                assert(gi[m - irg.start] == x);
            }
            conflict = self.groups[x].is_active();
            m += 1;
        }
        if conflict {
            proof {
                assert(!s0.unchallenged(key as int, candidate as int));
                s0.lemma_chosen(key as int, candidate as int);
            }
            self.fallback(key, kind, value);
            return;
        }
        proof {
            assert(m - irg.start == gi.len());
            assert(s0.unchallenged(key as int, candidate as int));
        }
        self.commit(key, candidate, cg, kind, value);
    }

    /// The output events so far, oldest first: the items of `events`.
    pub closed spec fn output(&self) -> Seq<Event<Z>> {
        self.events.items()
    }

    /// The output queue, whose items are the output events so far.
    pub fn queue(&self) -> (q: &Q)
        ensures
            q.items() == self.output(),
    {
        &self.events
    }

    /// How the handler is laid out after being built from `config`: a key
    /// for each configured keycode; a group for each modifier, with its mask,
    /// keys, supergroups, greatest subgroups, intersecting groups and mask
    /// weight; and, for each key, the action, immediacy and latching of its
    /// last declaration, its groups, and its declared combos from the group
    /// with most keys to the group with fewest; nothing down, nothing open.
    pub open spec fn built_from(&self, config: &Config<Z>) -> bool {
        &&& forall|c: u32| #[trigger] self.domain_map().contains_key(c) <==> config_code(*config, c)
        &&& forall|c1: u32, c2: u32|
            #![trigger self.domain_map()[c1], self.domain_map()[c2]]
            self.domain_map().contains_key(c1) && self.domain_map().contains_key(c2) && self.domain_map()[c1]
                == self.domain_map()[c2] ==> c1 == c2
        &&& self.domain_map().dom().len() == self.num_keys()
        &&& forall|g: int|
            0 <= g < self.num_groups() ==> {
                let m = config.modifiers@[g];
                let ks = mod_keys(config.modifiers@);
                &&& (#[trigger] self.group_at(g)).mask == m.masking
                &&& self.group_keys(g).len() == m.keys@.len()
                &&& forall|j: int|
                    0 <= j < m.keys@.len() ==> #[trigger] self.group_keys(g)[j] == self.domain_map()[m.keys@[j]]
                &&& scalar_set_contents(self.group_at(g).greater) == Set::new(
                    |b: usize| b < self.num_groups() && above_rel(ks, g, b as int),
                )
                &&& lists(self.group_pred(g), self.num_groups(), |a: int| pred_rel(ks, a, g))
                &&& lists(self.group_intersect(g), self.num_groups(), |b: int| inter_rel(ks, g, b))
                &&& self.group_at(g).mask_weight == (if m.masking {
                    1int
                } else {
                    0int
                }) - masking_count(config.modifiers@, self.group_pred(g))
                &&& self.group_at(g).counter == 0
                &&& self.group_at(g).active_greater == 0
                &&& self.group_at(g).index == g
                &&& set_usize_contents(self.group_at(g).active_combos) == Set::<usize>::empty()
            }
        &&& self.cache_key() == 1
        &&& forall|c: u32|
            #[trigger] self.domain_map().contains_key(c) ==> {
                let k = self.domain_map()[c] as int;
                let t = last_decl(config.actions@, c);
                let ks = mod_keys(config.modifiers@);
                &&& self.key_at(k).action == (if t >= 0 {
                    config.actions@[t].action
                } else {
                    None
                })
                &&& self.key_at(k).immediate == (t >= 0 && config.actions@[t].immediate)
                &&& self.key_at(k).latching == (t >= 0 && config.actions@[t].latching)
                &&& lists(self.key_groups(k), self.num_groups(), |g: int| ks[g].contains(c))
                &&& self.key_combos(k).to_multiset() == decl_combos(
                    config.modifiers@,
                    config.actions@,
                    c,
                ).to_multiset()
                &&& by_size(config.modifiers@, self.key_combos(k))
                &&& !self.key_at(k).open
                &&& self.key_at(k).active_combo is None
                &&& self.key_at(k).cache_counter == 0
                &&& !self.cache_fresh(k)
            }
    }

    /// The part of `built_from` that handling events keeps: the keycodes, the
    /// groups with their keys, order, greatest subgroups, intersections and
    /// mask weights, and the actions, groups and combos of each key.
    pub open spec fn laid_out_from(&self, config: &Config<Z>) -> bool {
        &&& self.num_groups() == config.modifiers@.len()
        &&& forall|c: u32| #[trigger] self.domain_map().contains_key(c) <==> config_code(*config, c)
        &&& forall|c1: u32, c2: u32|
            #![trigger self.domain_map()[c1], self.domain_map()[c2]]
            self.domain_map().contains_key(c1) && self.domain_map().contains_key(c2) && self.domain_map()[c1]
                == self.domain_map()[c2] ==> c1 == c2
        &&& self.domain_map().dom().len() == self.num_keys()
        &&& forall|g: int|
            0 <= g < self.num_groups() ==> {
                let m = config.modifiers@[g];
                let ks = mod_keys(config.modifiers@);
                &&& (#[trigger] self.group_at(g)).mask == m.masking
                &&& self.group_at(g).index == g
                &&& self.group_keys(g).len() == m.keys@.len()
                &&& forall|j: int|
                    0 <= j < m.keys@.len() ==> #[trigger] self.group_keys(g)[j] == self.domain_map()[m.keys@[j]]
                &&& scalar_set_contents(self.group_at(g).greater) == Set::new(
                    |b: usize| b < self.num_groups() && above_rel(ks, g, b as int),
                )
                &&& lists(self.group_pred(g), self.num_groups(), |a: int| pred_rel(ks, a, g))
                &&& lists(self.group_intersect(g), self.num_groups(), |b: int| inter_rel(ks, g, b))
                &&& self.group_at(g).mask_weight == (if m.masking {
                    1int
                } else {
                    0int
                }) - masking_count(config.modifiers@, self.group_pred(g))
            }
        &&& forall|c: u32|
            #[trigger] self.domain_map().contains_key(c) ==> {
                let k = self.domain_map()[c] as int;
                let t = last_decl(config.actions@, c);
                let ks = mod_keys(config.modifiers@);
                &&& self.key_at(k).action == (if t >= 0 {
                    config.actions@[t].action
                } else {
                    None
                })
                &&& lists(self.key_groups(k), self.num_groups(), |g: int| ks[g].contains(c))
                &&& self.key_combos(k).to_multiset() == decl_combos(
                    config.modifiers@,
                    config.actions@,
                    c,
                ).to_multiset()
                &&& by_size(config.modifiers@, self.key_combos(k))
            }
    }

    /// A handler built from a configuration is laid out from it.
    pub proof fn lemma_built_is_laid_out(h: &Self, config: &Config<Z>)
        requires
            h.built_from(config),
            h.num_groups() == config.modifiers@.len(),
        ensures
            h.laid_out_from(config),
    {
    }

    /// Handling an event keeps the layout that the handler was built with.
    pub proof fn lemma_handling_keeps_layout(h: &Self, after: &Self, event: Event<u32>, config: &Config<Z>)
        requires
            h.wf(),
            h.laid_out_from(config),
            h.handles(after, event),
        ensures
            after.laid_out_from(config),
    {
        Self::lemma_handling_keeps_configuration(h, after, event);
        assert(after.domain_map() == h.domain_map());
        assert forall|c: u32| #[trigger] after.domain_map().contains_key(c) implies after.key_at(
            after.domain_map()[c] as int,
        ).action == h.key_at(h.domain_map()[c] as int).action by {
            assert(h.layout_wf());
            assert(h.domain_map()[c] < h.num_keys());
        }
    }

    /// Under a layout from `config`, the count of group `g` is the number of
    /// the modifier's keycodes whose key is held down, and the group is
    /// active exactly when all of them are held.
    pub proof fn lemma_group_counts_held_keycodes(h: &Self, config: &Config<Z>, g: int)
        requires
            h.wf(),
            h.laid_out_from(config),
            0 <= g < h.num_groups(),
        ensures
            h.group_at(g).counter == count_in(
                Seq::new(
                    config.modifiers@[g].keys@.len(),
                    |j: int| h.domain_map()[config.modifiers@[g].keys@[j]],
                ),
                h.down_keys(),
            ),
            h.group_at(g).counter <= config.modifiers@[g].keys@.len(),
            h.group_at(g).counter == h.group_at(g).size <==> forall|j: int|
                0 <= j < config.modifiers@[g].keys@.len() ==> h.down_keys().contains(
                    h.domain_map()[#[trigger] config.modifiers@[g].keys@[j]],
                ),
    {
        let m = config.modifiers@[g];
        let held = Seq::new(m.keys@.len(), |j: int| h.domain_map()[m.keys@[j]]);
        assert(h.group_at(g).mask == m.masking);
        assert(h.group_keys(g).len() == m.keys@.len());
        assert forall|j: int| 0 <= j < m.keys@.len() implies h.group_keys(g)[j] == held[j] by {
            assert(h.group_keys(g)[j] == h.domain_map()[m.keys@[j]]);
        }
        assert(h.group_keys(g) =~= held);
        Self::lemma_group_counts_down_keys(h, g);
        lemma_count_le(h.group_keys(g), h.down_keys());
        lemma_count_full(h.group_keys(g), h.down_keys());
        assert(h.group_at(g).size == h.group_keys(g).len());
        if h.group_at(g).counter == h.group_at(g).size {
            assert forall|j: int| 0 <= j < m.keys@.len() implies h.down_keys().contains(
                h.domain_map()[#[trigger] m.keys@[j]],
            ) by {
                assert(held[j] == h.group_keys(g)[j]);
            }
        }
        if forall|j: int|
            0 <= j < m.keys@.len() ==> h.down_keys().contains(h.domain_map()[#[trigger] m.keys@[j]]) {
            assert forall|j: int| 0 <= j < h.group_keys(g).len() implies h.down_keys().contains(
                #[trigger] h.group_keys(g)[j],
            ) by {
                assert(h.down_keys().contains(h.domain_map()[m.keys@[j]]));
            }
        }
    }

    /// Under a layout from `config`, groups are ordered by strict inclusion
    /// of their key sets. Since `partial_cmp` compares indices and then looks
    /// the other index up among the greater groups, it answers `Equal` for
    /// the same group, `Less` exactly when the first group's keys are a
    /// nonempty strict part of the second's, `Greater` for the converse, and
    /// nothing otherwise (two distinct groups with equal keys included).
    pub proof fn lemma_group_order(h: &Self, config: &Config<Z>, a: int, b: int)
        requires
            h.laid_out_from(config),
            0 <= a < h.num_groups(),
            0 <= b < h.num_groups(),
        ensures
            h.group_at(a).index == h.group_at(b).index <==> a == b,
            scalar_set_contents(h.group_at(a).greater).contains(h.group_at(b).index) <==> above_rel(
                mod_keys(config.modifiers@),
                a,
                b,
            ),
            group_le(h.group_at(a), h.group_at(b)) <==> (a == b || above_rel(
                mod_keys(config.modifiers@),
                a,
                b,
            )),
    {
        let ks = mod_keys(config.modifiers@);
        assert(h.group_at(b).index == b);
        if above_rel(ks, a, b) {
            assert(Set::new(|x: usize| x < h.num_groups() && above_rel(ks, a, x as int)).contains(
                h.group_at(b).index,
            ));
        }
    }

    /// Creates the handler from a configuration, with the given output queue.
    ///
    /// This does a lot of precomputation in order to speed up later calls to
    /// [`ComboHandler::handle`].
    pub fn with(config: &Config<Z>, queue: Q) -> (h: Self)
        requires
            config.modifiers@.len() <= MAX_GROUPS,
            forall|g: int|
                0 <= g < config.modifiers@.len() ==> (#[trigger] config.modifiers@[g]).keys@.no_duplicates(),
            combos_named(config.modifiers@, config.actions@),
        ensures
            h.wf(),
            h.output() == queue.items(),
            h.down_keys() == Set::<usize>::empty(),
            !h.masking(),
            h.num_groups() == config.modifiers@.len(),
            h.built_from(config),
            h.mask_total() == 0,
    {
        let mods = &config.modifiers;
        let ghost ks = mod_keys(mods@);
        let ghost n = mods@.len();
        let (above, below, inter) = build_edges(mods);
        let (mut codes, mut kgroups) = modifier_key_table(mods);
        let ghost codes_m = codes@;
        let ghost kgroups_m = kgroups@;
        proof {
            assert forall|g: int, j: int| 0 <= g < mods@.len() && 0 <= j < mods@[g].keys@.len() implies codes@.contains(
                #[trigger] mods@[g].keys@[j],
            ) by {
                assert(ks[g].contains(mods@[g].keys@[j]));
            }
        }
        proof {
            assert forall|g: int, i: int| 0 <= g < mods@.len() && 0 <= i < below@[g]@.len() implies #[trigger] below@[g]@[i]
                < mods@.len() by {
                assert(below@[g]@.contains(below@[g]@[i]));
            }
            assert forall|g: int, i: int| 0 <= g < mods@.len() && 0 <= i < inter@[g]@.len() implies #[trigger] inter@[g]@[i]
                < mods@.len() by {
                assert(inter@[g]@.contains(inter@[g]@[i]));
            }
        }
        let (mut groups, groups_keys, groups_pred, groups_intersect) = build_groups(
            mods,
            &codes,
            &above,
            &below,
            &inter,
        );
        let ghost groups0 = groups@;
        proof {
            assert forall|g: int| 0 <= g < groups@.len() implies {
                &&& (#[trigger] groups@[g]).pred@.0 <= groups@[g].pred@.1 <= groups_pred@.len()
                &&& packed(groups_pred@, groups@[g].pred).len() <= groups@.len()
            } by {
                assert(fresh_group(groups@[g], g, mods@[g], above@[g]@, groups_keys@, groups_pred@, groups_intersect@));
                assert(packed(groups_pred@, groups@[g].pred) == below@[g]@);
                lemma_increasing_len(below@[g]@, n);
            }

        }
        set_mask_weights(&mut groups, &groups_pred);
        let (act, imm, lat, cmb) = action_key_table(mods, &config.actions, &mut codes, &mut kgroups);
        proof {
            assert forall|k: int, i: int|
                0 <= k < cmb@.len() && 0 <= i < cmb@[k]@.len() implies (#[trigger] cmb@[k]@[i]).group < mods@.len() by {
                assert(act@[k] == act@[k]);
                assert(cmb@[k]@ == crate::combo::layout::decl_combos(mods@, config.actions@, codes@[k]));
                lemma_decl_combos_groups(mods@, config.actions@, codes@[k]);
            }
        }
        let ghost nk = codes@.len();
        proof {
            assert forall|k: int| 0 <= k < nk implies lists(
                #[trigger] kgroups@[k]@,
                n,
                |g: int| ks[g].contains(codes@[k]),
            ) by {
                if k < codes_m.len() {
                    assert(codes@.subrange(0, codes_m.len() as int)[k] == codes@[k]);
                    assert(codes@[k] == codes_m[k]);
                    assert(kgroups@[k] == kgroups_m[k]);
                } else {
                    assert(kgroups@[k]@.len() == 0);
                    assert(!codes_m.contains(codes@[k])) by {
                        if codes_m.contains(codes@[k]) {
                            let i = choose|i: int| 0 <= i < codes_m.len() && codes_m[i] == codes@[k];
                            assert(codes@.subrange(0, codes_m.len() as int)[i] == codes@[i]);
                            assert(codes@[i] == codes_m[i]);
                        }
                    }
                    assert forall|x: usize| #[trigger] kgroups@[k]@.contains(x) <==> x < n && ks[x as int].contains(
                        codes@[k],
                    ) by {
                        if x < n && ks[x as int].contains(codes@[k]) {
                            assert(codes_m.contains(codes@[k]));
                        }
                    }
                }
            }
            assert forall|k: int, i: int|
                0 <= k < kgroups@.len() && 0 <= i < kgroups@[k]@.len() implies #[trigger] kgroups@[k]@[i]
                < mods@.len() by {
                assert(lists(kgroups@[k]@, n, |g: int| ks[g].contains(codes@[k])));
            }
        }
        let (keys, keys_combos, keys_groups) = build_keys(mods, &kgroups, &act, &imm, &lat, &cmb);
        let domain = build_domain(&codes);
        let h = ComboHandler {
            domain,
            keys,
            keys_combos,
            keys_groups,
            groups,
            groups_keys,
            groups_pred,
            groups_intersect,
            masks: 0,
            cache_counter: 1,
            events: queue,
            down: Ghost(Set::empty()),
        };
        proof {
            let ng = h.groups@.len();
            assert(ng == n);
            assert forall|g: int| 0 <= g < ng implies #[trigger] h.groups@[g] == (Group {
                mask_weight: h.groups@[g].mask_weight,
                ..groups0[g]
            }) by {
            }
            // layout
            assert forall|g: int| 0 <= g < ng implies {
                &&& (#[trigger] h.groups@[g]).keys@.0 <= h.groups@[g].keys@.1 <= h.groups_keys@.len()
                &&& h.groups@[g].pred@.0 <= h.groups@[g].pred@.1 <= h.groups_pred@.len()
                &&& h.groups@[g].intersect@.0 <= h.groups@[g].intersect@.1 <= h.groups_intersect@.len()
                &&& h.groups@[g].index == g
                &&& h.groups@[g].size == h.group_keys(g).len()
                &&& h.group_keys(g).no_duplicates()
                &&& h.group_pred(g).no_duplicates()
                &&& -(ng as int) <= h.groups@[g].mask_weight <= 1
            } by {
                assert(fresh_group(groups0[g], g, mods@[g], above@[g]@, groups_keys@, groups_pred@, groups_intersect@));
                assert(h.group_pred(g) == below@[g]@);
                lemma_increasing_len(below@[g]@, n);
                crate::combo::layout::lemma_mask_count_bounds(groups0, below@[g]@);
                let gk = h.group_keys(g);
                assert(gk == packed(groups_keys@, groups0[g].keys));
                assert forall|i: int, j: int| 0 <= i < j < gk.len() implies gk[i] != gk[j] by {
                    assert(codes_m[gk[i] as int] == mods@[g].keys@[i]);
                    assert(codes_m[gk[j] as int] == mods@[g].keys@[j]);
                }
            }
            assert forall|k: int| 0 <= k < h.keys@.len() implies (#[trigger] h.keys@[k]).groups@.0
                <= h.keys@[k].groups@.1 <= h.keys_groups@.len() by {
            }
            assert forall|i: int| 0 <= i < h.groups_keys@.len() implies #[trigger] h.groups_keys@[i] < h.keys@.len() by {
            }
            assert forall|c: u32| #[trigger] h.domain_map().contains_key(c) implies h.domain_map()[c] < h.keys@.len() by {
                let k = choose|k: int| 0 <= k < codes@.len() && codes@[k] == c;
                assert(h.domain_map()[codes@[k]] == k);
            }
            assert forall|k: int| 0 <= k < h.keys@.len() implies (#[trigger] h.key_groups(k)).no_duplicates() by {
                assert(h.key_groups(k) == kgroups@[k]@);
                assert(lists(kgroups@[k]@, n, |g: int| ks[g].contains(codes@[k])));
                lemma_increasing_len(kgroups@[k]@, n);
            }
            assert forall|k: usize, g: usize|
                #![trigger h.key_groups(k as int).contains(g)]
                #![trigger h.group_keys(g as int).contains(k)]
                k < h.keys@.len() && g < ng implies (h.key_groups(k as int).contains(g) <==> h.group_keys(
                    g as int,
                ).contains(k)) by {
                assert(h.key_groups(k as int) == kgroups@[k as int]@);
                assert(lists(kgroups@[k as int]@, n, |x: int| ks[x].contains(codes@[k as int])));
                let gk = h.group_keys(g as int);
                assert(gk == packed(groups_keys@, groups0[g as int].keys));
                assert(fresh_group(groups0[g as int], g as int, mods@[g as int], above@[g as int]@, groups_keys@, groups_pred@, groups_intersect@));
                if gk.contains(k) {
                    let j = choose|j: int| 0 <= j < gk.len() && gk[j] == k;
                    assert(codes_m[gk[j] as int] == mods@[g as int].keys@[j]);
                    assert(codes@.subrange(0, codes_m.len() as int)[k as int] == codes@[k as int]);
                    assert(ks[g as int][j] == codes@[k as int]);
                }
                if ks[g as int].contains(codes@[k as int]) {
                    let j = choose|j: int| 0 <= j < ks[g as int].len() && ks[g as int][j] == codes@[k as int];
                    assert(codes_m[gk[j] as int] == mods@[g as int].keys@[j]);
                    assert(codes@.subrange(0, codes_m.len() as int)[gk[j] as int] == codes@[gk[j] as int]);
                    assert(codes@[gk[j] as int] == codes@[k as int]);
                    assert(gk[j] == k);
                }
            }
            assert(h.layout_wf());
            assert(h.aux_wf());
            assert forall|g: int| 0 <= g < ng implies (#[trigger] h.groups@[g]).counter == count_in(
                h.group_keys(g),
                h.down@,
            ) by {
                lemma_count_empty(h.group_keys(g));
            }
            assert forall|g: int| 0 <= g < ng implies !live_seq(h.groups@)[g] by {
            }
            assert forall|p: int| 0 <= p < ng implies (#[trigger] h.groups@[p]).active_greater == sum_where(
                live_seq(h.groups@),
                h.above_vals(p),
            ) by {
                lemma_sum_none(live_seq(h.groups@), h.above_vals(p));
            }
            lemma_sum_none(live_seq(h.groups@), h.weights());
            // description
            assert forall|c: u32| #[trigger] h.domain_map().contains_key(c) <==> config_code(*config, c) by {
                if codes@.contains(c) {
                    if codes_m.contains(c) {
                        let g = choose|g: int| 0 <= g < mods@.len() && #[trigger] ks[g].contains(c);
                        assert(config.modifiers@[g].keys@.contains(c));
                    }
                }
                if config_code(*config, c) {
                    if exists|g: int| 0 <= g < mods@.len() && #[trigger] config.modifiers@[g].keys@.contains(c) {
                        let g = choose|g: int| 0 <= g < mods@.len() && #[trigger] config.modifiers@[g].keys@.contains(c);
                        assert(ks[g].contains(c));
                        assert(codes_m.contains(c));
                    }
                }
            }
            assert forall|c1: u32, c2: u32|
                #![trigger h.domain_map()[c1], h.domain_map()[c2]]
                h.domain_map().contains_key(c1) && h.domain_map().contains_key(c2) && h.domain_map()[c1]
                    == h.domain_map()[c2] implies c1 == c2 by {
                let k1 = choose|k: int| 0 <= k < codes@.len() && codes@[k] == c1;
                let k2 = choose|k: int| 0 <= k < codes@.len() && codes@[k] == c2;
                assert(h.domain_map()[codes@[k1]] == k1);
                assert(h.domain_map()[codes@[k2]] == k2);
            }
            assert(h.domain_map().dom() =~= codes@.to_set());
            codes@.unique_seq_to_set();
            assert forall|g: int| 0 <= g < h.num_groups() implies {
                let m = config.modifiers@[g];
                &&& (#[trigger] h.group_at(g)).mask == m.masking
                &&& h.group_keys(g).len() == m.keys@.len()
                &&& forall|j: int|
                    0 <= j < m.keys@.len() ==> #[trigger] h.group_keys(g)[j] == h.domain_map()[m.keys@[j]]
                &&& scalar_set_contents(h.group_at(g).greater) == Set::new(
                    |b: usize| b < h.num_groups() && above_rel(ks, g, b as int),
                )
                &&& lists(h.group_pred(g), h.num_groups(), |a: int| pred_rel(ks, a, g))
                &&& lists(h.group_intersect(g), h.num_groups(), |b: int| inter_rel(ks, g, b))
                &&& h.group_at(g).mask_weight == (if m.masking {
                    1int
                } else {
                    0int
                }) - masking_count(config.modifiers@, h.group_pred(g))
                &&& h.group_at(g).counter == 0
                &&& h.group_at(g).active_greater == 0
            } by {
                let m = config.modifiers@[g];
                assert(fresh_group(groups0[g], g, mods@[g], above@[g]@, groups_keys@, groups_pred@, groups_intersect@));
                let gk = h.group_keys(g);
                assert(gk == packed(groups_keys@, groups0[g].keys));
                assert forall|j: int| 0 <= j < m.keys@.len() implies #[trigger] gk[j] == h.domain_map()[m.keys@[j]] by {
                    assert(codes_m[gk[j] as int] == m.keys@[j]);
                    assert(codes@.subrange(0, codes_m.len() as int)[gk[j] as int] == codes@[gk[j] as int]);
                    assert(h.domain_map()[codes@[gk[j] as int]] == gk[j]);
                }
                assert(scalar_set_contents(h.group_at(g).greater) =~= Set::new(
                    |b: usize| b < h.num_groups() && above_rel(ks, g, b as int),
                ));
                assert forall|i: int| 0 <= i < below@[g]@.len() implies groups0[#[trigger] below@[g]@[i] as int].mask
                    == mods@[below@[g]@[i] as int].masking by {
                    assert(below@[g]@.contains(below@[g]@[i]));
                    let p = below@[g]@[i] as int;
                    assert(fresh_group(groups0[p], p, mods@[p], above@[p]@, groups_keys@, groups_pred@, groups_intersect@));
                }
                lemma_mask_count_decl(groups0, mods@, below@[g]@);
                crate::combo::layout::lemma_mask_count_bounds(groups0, below@[g]@);
            }
            assert forall|c: u32| #[trigger] h.domain_map().contains_key(c) implies {
                let k = h.domain_map()[c] as int;
                let t = last_decl(config.actions@, c);
                &&& h.key_at(k).action == (if t >= 0 {
                    config.actions@[t].action
                } else {
                    None
                })
                &&& h.key_at(k).immediate == (t >= 0 && config.actions@[t].immediate)
                &&& h.key_at(k).latching == (t >= 0 && config.actions@[t].latching)
                &&& lists(h.key_groups(k), h.num_groups(), |g: int| ks[g].contains(c))
                &&& h.key_combos(k).to_multiset() == decl_combos(config.modifiers@, config.actions@, c).to_multiset()
                &&& by_size(config.modifiers@, h.key_combos(k))
                &&& !h.key_at(k).open
                &&& h.key_at(k).active_combo is None
                &&& !h.cache_fresh(k)
            } by {
                let k = choose|k: int| 0 <= k < codes@.len() && codes@[k] == c;
                assert(h.domain_map()[codes@[k]] == k);
                assert(act@[k] == act@[k]);
                assert(lists(kgroups@[k]@, n, |g: int| ks[g].contains(codes@[k])));
                assert(fresh_key(h.keys@[k], act@[k], imm@[k], lat@[k]));
            }
            let lv = Seq::new(h.num_groups(), |g: int| live(h.group_at(g)));
            assert forall|i: int| 0 <= i < lv.len() implies !lv[i] by {
                assert(h.group_at(i).counter == 0);
            }
            lemma_sum_none(lv, Seq::new(h.num_groups(), |g: int| h.group_at(g).mask_weight as int));
        }
        h
    }

    /// The current cache key: a key whose last resolution carries it still
    /// holds that resolution.
    pub closed spec fn cache_key(&self) -> i32 {
        self.cache_counter
    }

    /// Whether the last resolution of key `k` still holds.
    pub closed spec fn cache_fresh(&self, k: int) -> bool {
        self.keys@[k].cache_counter == self.cache_counter
    }

    /// Whether the handler can take the event: a modifier key is pressed
    /// only while up and released only while down.
    pub open spec fn accepts(&self, event: Event<u32>) -> bool {
        self.domain_map().contains_key(event.keycode) ==> {
            let k = self.domain_map()[event.keycode];
            self.key_groups(k as int).len() > 0 ==> {
                &&& event.kind == Kind::Down ==> !self.down_keys().contains(k)
                &&& event.kind == Kind::Up ==> self.down_keys().contains(k)
            }
        }
    }

    /// The bounds on active combos survive a change that only opens or closes
    /// keys and keeps the combo sets.
    proof fn lemma_aux_frame(a: &Self, b: &Self)
        requires
            a.aux_wf(),
            b.keys_combos@ == a.keys_combos@,
            keys_open_only(a.keys@, b.keys@),
            b.groups@.len() == a.groups@.len(),
            forall|h: int|
                0 <= h < a.groups@.len() ==> set_usize_contents((#[trigger] b.groups@[h]).active_combos)
                    == set_usize_contents(a.groups@[h].active_combos),
        ensures
            b.aux_wf(),
    {
        lemma_open_only(a.keys@, b.keys@, b.keys@, a.keys_combos@);
        assert forall|h: int, x: usize|
            0 <= h < b.groups@.len() && #[trigger] set_usize_contents(b.groups@[h].active_combos).contains(x)
                implies x < b.keys@.len() by {
            assert(set_usize_contents(a.groups@[h].active_combos).contains(x));
        }
    }

    /// The invariant survives a change of the dynamic state that keeps the
    /// group counts, the down keys and the mask count.
    proof fn lemma_wf_frame(a: &Self, b: &Self)
        requires
            a.wf(),
            b.layout_eq(a),
            b.aux_wf(),
            b.down == a.down,
            b.masks == a.masks,
            forall|g: int|
                0 <= g < a.groups@.len() ==> (#[trigger] b.groups@[g]).counter == a.groups@[g].counter
                    && b.groups@[g].active_greater == a.groups@[g].active_greater,
        ensures
            b.wf(),
    {
        Self::lemma_layout_eq(b, a);
        Self::lemma_layout_eq(a, b);
        assert(live_seq(b.groups@) =~= live_seq(a.groups@));
        assert(b.count_wf());
        assert(b.shadow_wf());
        assert(b.mask_wf());
    }

    /// The groups whose combos an event closes: on a release, the groups
    /// that stop being active; otherwise the greatest subgroups of the groups
    /// that become active.
    pub closed spec fn closed_by(&self, mid: &Self, kind: Kind) -> Set<usize> {
        if kind == Kind::Up {
            self.fallen(mid)
        } else {
            self.shadowed_anew(mid)
        }
    }

    /// Key `x` once an event of `kind` on key `k` is counted in the groups:
    /// a press opens `k`, and an axis motion makes it immediate and latching;
    /// a key loses its key up when the combo it holds is closed, or when it
    /// is a delayed key of a group of more than one key that becomes active.
    pub closed spec fn counted_key(&self, mid: &Self, k: int, kind: Kind, x: usize) -> Key<Z> {
        let key = self.keys@[x as int];
        let pressed = kind != Kind::Up && x as int == k;
        let moved = kind == Kind::Axis && x as int == k;
        Key {
            open: (pressed || key.open) && !held_by(self.groups@, self.closed_by(mid, kind), x) && !(kind
                != Kind::Up && self.delayed_closed(mid, x)),
            immediate: key.immediate || moved,
            latching: key.latching || moved,
            ..key
        }
    }

    /// The events sent while an event of `kind` on key `k` is counted in the
    /// groups: for each drained group in `closing_order`, a key up for each
    /// combo it still holds of an immediate key with an action; within one
    /// group the keys come in an order left open.
    pub closed spec fn closes_combos(&self, mid: &Self, k: int, kind: Kind) -> bool {
        exists|kss: Seq<Seq<usize>>|
            {
                &&& drains_in_order(self.groups@, self.closing_order(mid, k, kind), kss)
                &&& mid.output() == self.output() + closing_events(
                    self.keys@,
                    self.keys_combos@,
                    kss.flatten(),
                )
            }
    }

    /// The order in which an event on key `k` drains the combo sets: on a
    /// release, the active groups of `k` in the order of its groups; on a
    /// press, for each group of `k` in turn that becomes active, its
    /// greatest subgroups in their order.
    pub closed spec fn closing_order(&self, mid: &Self, k: int, kind: Kind) -> Seq<usize> {
        if kind == Kind::Up {
            concat_where(self.key_groups(k), |h: int| live(self.groups@[h]), |h: int| seq![h as usize])
        } else {
            concat_where(self.key_groups(k), |h: int| self.rises(mid, h), |h: int| self.group_pred(h))
        }
    }

    /// The first part of a press: opens the key and, for a key down, counts
    /// it in its groups; an axis motion makes the key immediate and latching.
    /// Returns whether a group became active.
    #[verifier::rlimit(30)]
    fn prepare(&mut self, key: usize, kind: Kind) -> (invalidate: bool)
        requires
            old(self).wf(),
            key < old(self).keys@.len(),
            kind != Kind::Up,
            kind == Kind::Down ==> !old(self).down@.contains(key) || old(self).key_groups(key as int).len()
                == 0,
        ensures
            final(self).layout_eq(old(self)),
            final(self).wf(),
            final(self).down@ == (if kind == Kind::Down {
                old(self).down@.insert(key)
            } else {
                old(self).down@
            }),
            final(self).cache_counter == old(self).cache_counter,
            prefix_of(old(self).events.items(), final(self).events.items()),
            old(self).key_groups(key as int).len() == 0 ==> {
                &&& !invalidate
                &&& *final(self) == (Self { keys: final(self).keys, down: final(self).down, ..*old(self) })
                &&& final(self).keys@ == old(self).keys@.update(
                    key as int,
                    Key {
                        open: true,
                        immediate: final(self).keys@[key as int].immediate,
                        latching: final(self).keys@[key as int].latching,
                        ..old(self).keys@[key as int]
                    },
                )
            },
            invalidate == (kind == Kind::Down && exists|g: int| old(self).rises(final(self), g)),
            forall|h: int|
                0 <= h < old(self).groups@.len() ==> set_usize_contents(
                    (#[trigger] final(self).groups@[h]).active_combos,
                ) == if old(self).closed_by(final(self), kind).contains(h as usize) {
                    Set::<usize>::empty()
                } else {
                    set_usize_contents(old(self).groups@[h].active_combos)
                },
            forall|x: usize|
                x < old(self).keys@.len() ==> #[trigger] final(self).keys@[x as int] == old(
                    self,
                ).counted_key(final(self), key as int, kind, x),
            old(self).closes_combos(final(self), key as int, kind),
    {
        let ghost s0 = *self;
        let ghost nk = s0.keys@.len();
        self.keys[key].open();
        proof {
            lemma_open_only(s0.keys@, self.keys@, self.keys@, s0.keys_combos@);
            assert(self.layout_eq(&s0));
            Self::lemma_wf_frame(&s0, self);
            lemma_prefix_refl(s0.events.items());
        }
        let ghost s1 = *self;
        let mut invalidate = false;
        match kind {
            Kind::Down => {
                invalidate = self.activate(key);
                proof {
                    Self::lemma_layout_eq(self, &s0);
                    assert(s1.groups@ == s0.groups@);
                    assert forall|g: int| #[trigger] s1.rises(self, g) == s0.rises(self, g) by {
                    }
                    assert forall|g: int| #[trigger] s1.group_pred(g) == s0.group_pred(g) by {
                    }
                    assert forall|p: usize| s1.shadowed_anew(self).contains(p) == s0.shadowed_anew(self).contains(p) by {
                        if s1.shadowed_anew(self).contains(p) {
                            let g = choose|g: int| #[trigger] s1.rises(self, g) && s1.group_pred(g).contains(p);
                            assert(s0.rises(self, g) && s0.group_pred(g).contains(p));
                        }
                        if s0.shadowed_anew(self).contains(p) {
                            let g = choose|g: int| #[trigger] s0.rises(self, g) && s0.group_pred(g).contains(p);
                            assert(s1.rises(self, g) && s1.group_pred(g).contains(p));
                        }
                    }
                    assert(s1.shadowed_anew(self) =~= s0.shadowed_anew(self));
                    if invalidate {
                        let g = choose|g: int| s1.rises(self, g);
                        assert(s0.rises(self, g));
                    }
                    if exists|g: int| s0.rises(self, g) {
                        let g = choose|g: int| s0.rises(self, g);
                        assert(s1.rises(self, g));
                    }
                    assert(invalidate == exists|g: int| s0.rises(self, g));
                    assert(s1.closed_by(self, kind) == s0.closed_by(self, kind));
                    assert forall|x: usize| #[trigger] s1.delayed_closed(self, x) == s0.delayed_closed(self, x) by {
                        if s1.delayed_closed(self, x) {
                            let g = choose|g: int|
                                #[trigger] s1.rises(self, g) && s1.groups@[g].size > 1 && s1.group_keys(
                                    g,
                                ).contains(x) && !s1.keys@[x as int].spec_is_immediate();
                            assert(s0.rises(self, g));
                        }
                        if s0.delayed_closed(self, x) {
                            let g = choose|g: int|
                                #[trigger] s0.rises(self, g) && s0.groups@[g].size > 1 && s0.group_keys(
                                    g,
                                ).contains(x) && !s0.keys@[x as int].spec_is_immediate();
                            assert(s1.rises(self, g));
                        }
                    }
                    assert forall|x: usize| x < nk implies #[trigger] self.keys@[x as int] == s0.counted_key(
                        self,
                        key as int,
                        kind,
                        x,
                    ) by {
                        if x == key {
                        } else {
                            assert(s1.keys@[x as int] == s0.keys@[x as int]);
                        }
                    }
                    let order = concat_where(
                        s1.key_groups(key as int),
                        |h: int| s1.rises(self, h),
                        |h: int| s1.group_pred(h),
                    );
                    let kss = choose|kss: Seq<Seq<usize>>|
                        {
                            &&& drains_in_order(s1.groups@, order, kss)
                            &&& self.events.items() == s1.events.items() + closing_events(
                                s1.keys@,
                                s1.keys_combos@,
                                kss.flatten(),
                            )
                        };
                    assert(s1.key_groups(key as int) == s0.key_groups(key as int));
                    assert((|h: int| s1.rises(self, h)) =~= (|h: int| s0.rises(self, h)));
                    assert((|h: int| s1.group_pred(h)) =~= (|h: int| s0.group_pred(h)));
                    assert(order == s0.closing_order(self, key as int, kind));
                    lemma_drain_keys_bound(s0.groups@, order, kss, nk);
                    lemma_closing_open(s0.keys@, s1.keys@, s0.keys_combos@, kss.flatten());
                    assert(s0.closes_combos(self, key as int, kind));
                }
            },
            _ => {
                self.keys[key].immediate = true;
                self.keys[key].latching = true;
                proof {
                    assert(keys_ok(self.keys@, self.keys_combos@)) by {
                        assert forall|k: int| 0 <= k < self.keys@.len() implies {
                            &&& (#[trigger] self.keys@[k]).combos@.0 <= self.keys@[k].combos@.1
                                <= self.keys_combos@.len()
                            &&& self.keys@[k].active_combo matches Some(i) ==> i
                                < self.keys@[k].combos@.1 - self.keys@[k].combos@.0
                        } by {
                            assert(s1.keys@[k].combos@.0 <= s1.keys@[k].combos@.1);
                        }
                    }
                    assert(self.layout_eq(&s1));
                    Self::lemma_wf_frame(&s1, self);
                    assert(self.groups@ == s0.groups@);
                    assert(s0.shadowed_anew(self) =~= Set::<usize>::empty());
                    assert(!exists|g: int| s0.rises(self, g));
                    assert forall|x: usize| x < nk implies #[trigger] self.keys@[x as int] == s0.counted_key(
                        self,
                        key as int,
                        kind,
                        x,
                    ) by {
                        assert(!s0.delayed_closed(self, x));
                        if x != key {
                            assert(s1.keys@[x as int] == s0.keys@[x as int]);
                        }
                    }
                    let kss = Seq::<Seq<usize>>::empty();
                    lemma_concat_where_none(
                        s0.key_groups(key as int),
                        |h: int| s0.rises(self, h),
                        |h: int| s0.group_pred(h),
                    );
                    assert(drains_in_order(s0.groups@, s0.closing_order(self, key as int, kind), kss));
                    assert(kss.flatten() =~= Seq::<usize>::empty());
                    assert(self.events.items() =~= s0.events.items() + closing_events(
                        s0.keys@,
                        s0.keys_combos@,
                        kss.flatten(),
                    ));
                    assert(s0.closes_combos(self, key as int, kind));
                }
            },
        }
        proof {
            lemma_prefix_refl(self.events.items());
            lemma_prefix_trans(s0.events.items(), s1.events.items(), self.events.items());
        }
        invalidate
    }

    /// The handler once an event of `kind` on key `k` is counted in the
    /// groups, before key `k` itself is settled: the key is counted down or
    /// up, the cache is invalidated when a group becomes or stops being
    /// active, the combos of the closed groups are closed, and the keys are
    /// as `counted_key` says.
    pub closed spec fn counts(&self, mid: &Self, k: int, kind: Kind) -> bool {
        &&& mid.wf()
        &&& mid.layout_eq(self)
        &&& mid.down@ == match kind {
            Kind::Down => self.down@.insert(k as usize),
            Kind::Up => self.down@.remove(k as usize),
            Kind::Axis => self.down@,
        }
        &&& mid.cache_counter == if (kind == Kind::Up && exists|g: int| self.falls(mid, g)) || (kind
            == Kind::Down && exists|g: int| self.rises(mid, g)) {
            self.cache_counter.wrapping_add(1)
        } else {
            self.cache_counter
        }
        &&& forall|h: int|
            0 <= h < self.groups@.len() ==> set_usize_contents((#[trigger] mid.groups@[h]).active_combos)
                == if self.closed_by(mid, kind).contains(h as usize) {
                Set::<usize>::empty()
            } else {
                set_usize_contents(self.groups@[h].active_combos)
            }
        &&& forall|x: usize|
            x < self.keys@.len() ==> #[trigger] mid.keys@[x as int] == self.counted_key(mid, k, kind, x)
        &&& self.closes_combos(mid, k, kind)
    }

    /// The group whose combo set a replay of key `k` adds the key to.
    pub closed spec fn replay_slot(&self, k: int) -> Option<usize> {
        match self.keys@[k].active_combo {
            Some(i) => if !self.keys@[k].latching {
                Some(self.key_combos(k)[i as int].group)
            } else {
                None
            },
            None => None,
        }
    }

    /// The group whose combo set a resolution of key `k` adds the key to.
    pub closed spec fn resolve_slot(&self, k: int) -> Option<usize> {
        match self.chosen_combo(k) {
            Some(c) => if !self.keys@[k].latching {
                Some(self.combo_group(k, c as int) as usize)
            } else {
                None
            },
            None => None,
        }
    }

    /// The group whose combo set a release of key `k` removes the key from.
    pub closed spec fn release_slot(&self, k: int) -> Option<usize> {
        if self.keys@[k].open {
            match self.keys@[k].active_combo {
                Some(i) => Some(self.key_combos(k)[i as int].group),
                None => None,
            }
        } else {
            None
        }
    }

    /// Activating a combo with the single-key group `cg` closes key `y` when
    /// it is a delayed key of that group.
    pub closed spec fn singleton_closes(&self, cg: int, y: int) -> bool {
        self.groups@[cg].size == 1 && self.group_keys(cg).contains(y as usize)
            && !self.keys@[y].spec_is_immediate()
    }

    /// Key `x` after key `k` is resolved anew, where `open` is whether `k`
    /// is open before: the chosen combo becomes active, or the unmodified
    /// action is sent; the cache key of `k` is the current one.
    pub closed spec fn resolved_key(&self, k: int, x: int, open: bool) -> Key<Z> {
        let key = self.keys@[k];
        match self.chosen_combo(k) {
            None => if x == k {
                Key {
                    open: open || self.fires_unmodified(k),
                    active_combo: None,
                    cache_counter: self.cache_counter,
                    ..key
                }
            } else {
                self.keys@[x]
            },
            Some(c) => {
                let cg = self.combo_group(k, c as int);
                if x == k {
                    Key {
                        open: if key.spec_is_immediate() && self.key_combos(k)[c as int].action is Some {
                            true
                        } else {
                            open && !self.singleton_closes(cg, k)
                        },
                        active_combo: Some(c),
                        cache_counter: self.cache_counter,
                        ..key
                    }
                } else if self.singleton_closes(cg, x) {
                    Key { open: false, ..self.keys@[x] }
                } else {
                    self.keys@[x]
                }
            },
        }
    }

    /// What a press of key `k` does once counted (from `self` to `after`):
    /// a closed delayed key does nothing; otherwise it is masked, and an
    /// immediate key whose last resolution holds replays it, while a key
    /// whose resolution is stale is resolved anew.
    pub closed spec fn settles(&self, after: &Self, k: int, kind: Kind, value: i16) -> bool {
        let key = self.keys@[k];
        let open = key.open && !self.masking();
        if !key.spec_is_immediate() && !key.open {
            *after == *self
        } else if self.cache_fresh(k) && key.spec_is_immediate() {
            &&& *after == (Self { keys: after.keys, groups: after.groups, events: after.events, ..*self })
            &&& after.keys@ == self.keys@.update(k, Key { open: true, ..key })
            &&& groups_gain(self.groups@, after.groups@, self.replay_slot(k), k as usize)
            &&& after.output() == self.output() + self.cached_events(k, kind, value)
        } else if self.cache_fresh(k) {
            &&& *after == (Self { keys: after.keys, ..*self })
            &&& after.keys@ == self.keys@.update(k, Key { open: open, ..key })
        } else {
            &&& *after == (Self { keys: after.keys, groups: after.groups, events: after.events, ..*self })
            &&& after.keys@ == Seq::new(self.keys@.len(), |x: int| self.resolved_key(k, x, open))
            &&& groups_gain(self.groups@, after.groups@, self.resolve_slot(k), k as usize)
            &&& after.output() == self.output() + self.resolve_events(k, kind, value)
        }
    }

    /// What a release of key `k` does once counted: an open key leaves the
    /// combo set of its active combo and sends its release events.
    pub closed spec fn releases(&self, after: &Self, k: int) -> bool {
        &&& *after == (Self { groups: after.groups, events: after.events, ..*self })
        &&& groups_lose(self.groups@, after.groups@, self.release_slot(k), k as usize)
        &&& after.output() == self.output() + self.release_events(k)
    }

    /// A press of an immediate key whose last resolution still holds sends
    /// the action of its combo again, or its unmodified action unless masked.
    fn replay(&mut self, key: usize, kind: Kind, value: i16)
        requires
            old(self).wf(),
            key < old(self).keys@.len(),
        ensures
            final(self).layout_eq(old(self)),
            final(self).wf(),
            final(self).down == old(self).down,
            final(self).events.items() == old(self).events.items() + old(self).cached_events(
                key as int,
                kind,
                value,
            ),
            *final(self) == (Self {
                keys: final(self).keys,
                groups: final(self).groups,
                events: final(self).events,
                ..*old(self)
            }),
            final(self).keys@ == old(self).keys@.update(
                key as int,
                Key { open: true, ..old(self).keys@[key as int] },
            ),
            groups_gain(old(self).groups@, final(self).groups@, old(self).replay_slot(key as int), key),
    {
        let ghost s4 = *self;
        let masking = self.is_masking();
        self.keys[key].open();
        proof {
            lemma_open_only(s4.keys@, self.keys@, self.keys@, s4.keys_combos@);
        }
        let ghost s5 = *self;
        let mut out: Option<Z> = None;
        if let Some(i) = self.keys[key].active_combo {
            let combo = self.keys[key].get_combo(i, self.keys_combos.as_slice());
            proof {
                let j = s5.keys@[key as int].combos@.0 + i;
                assert(s5.keys_combos@[j].group < s5.groups@.len());
            }
            if !self.keys[key].latching {
                set_usize_insert(&mut self.groups[combo.group].active_combos, key);
            }
            out = combo.action;
        }
        if out.is_none() && !masking {
            out = self.keys[key].action;
        }
        if let Some(a) = out {
            self.events.push(Event { keycode: a, kind, value });
        }
        proof {
            assert forall|h: int, x: usize|
                0 <= h < self.groups@.len() && #[trigger] set_usize_contents(
                    self.groups@[h].active_combos,
                ).contains(x) implies x < self.keys@.len() by {
                if set_usize_contents(s5.groups@[h].active_combos).contains(x) {
                } else {
                    assert(x == key);
                }
            }
            assert(self.layout_eq(&s4));
            Self::lemma_wf_frame(&s4, self);
            assert(self.events.items() =~= s4.events.items() + s4.cached_events(key as int, kind, value));
            assert forall|h: int| 0 <= h < s4.groups@.len() implies set_usize_contents(
                (#[trigger] self.groups@[h]).active_combos,
            ) == if s4.replay_slot(key as int) == Some(h as usize) {
                set_usize_contents(s4.groups@[h].active_combos).insert(key)
            } else {
                set_usize_contents(s4.groups@[h].active_combos)
            } by {
                assert(s5.groups@ == s4.groups@);
            }
            assert(self.keys@ =~= s4.keys@.update(key as int, Key { open: true, ..s4.keys@[key as int] }));
        }
    }

    /// A state that differs from `b` only in its cache counter counts an
    /// event the same way.
    proof fn lemma_counts_frame(s0: &Self, b: &Self, c: &Self, k: int, kind: Kind)
        requires
            c.groups@ == b.groups@,
            c.output() == b.output(),
        ensures
            forall|g: int| #[trigger] s0.rises(c, g) == s0.rises(b, g),
            forall|g: int| #[trigger] s0.falls(c, g) == s0.falls(b, g),
            s0.closed_by(c, kind) == s0.closed_by(b, kind),
            forall|x: usize| #[trigger] s0.counted_key(c, k, kind, x) == s0.counted_key(b, k, kind, x),
            s0.closes_combos(c, k, kind) == s0.closes_combos(b, k, kind),
    {
        assert forall|g: int| #[trigger] s0.rises(c, g) == s0.rises(b, g) by {
        }
        assert forall|g: int| #[trigger] s0.falls(c, g) == s0.falls(b, g) by {
        }
        assert forall|p: usize| s0.shadowed_anew(c).contains(p) == s0.shadowed_anew(b).contains(p) by {
            if s0.shadowed_anew(c).contains(p) {
                let g = choose|g: int| #[trigger] s0.rises(c, g) && s0.group_pred(g).contains(p);
                assert(s0.rises(b, g) && s0.group_pred(g).contains(p));
            }
            if s0.shadowed_anew(b).contains(p) {
                let g = choose|g: int| #[trigger] s0.rises(b, g) && s0.group_pred(g).contains(p);
                assert(s0.rises(c, g) && s0.group_pred(g).contains(p));
            }
        }
        assert(s0.shadowed_anew(c) =~= s0.shadowed_anew(b));
        assert(s0.fallen(c) =~= s0.fallen(b));
        assert((|h: int| s0.rises(c, h)) =~= (|h: int| s0.rises(b, h)));
        assert(s0.closing_order(c, k, kind) == s0.closing_order(b, k, kind));
        assert forall|x: usize| #[trigger] s0.delayed_closed(c, x) == s0.delayed_closed(b, x) by {
            if s0.delayed_closed(c, x) {
                let g = choose|g: int|
                    #[trigger] s0.rises(c, g) && s0.groups@[g].size > 1 && s0.group_keys(g).contains(x)
                        && !s0.keys@[x as int].spec_is_immediate();
                assert(s0.rises(b, g));
            }
            if s0.delayed_closed(b, x) {
                let g = choose|g: int|
                    #[trigger] s0.rises(b, g) && s0.groups@[g].size > 1 && s0.group_keys(g).contains(x)
                        && !s0.keys@[x as int].spec_is_immediate();
                assert(s0.rises(c, g));
            }
        }
    }

    /// Two states that differ at most in whether key `k` is open and in its
    /// cache key resolve it the same way.
    proof fn lemma_resolution_frame(a: &Self, b: &Self, k: int, kind: Kind, value: i16)
        requires
            a.layout_eq(b),
            a.layout_wf(),
            0 <= k < a.keys@.len(),
            a.groups@ == b.groups@,
            a.masks == b.masks,
            a.cache_counter == b.cache_counter,
            forall|x: int| 0 <= x < a.keys@.len() && x != k ==> a.keys@[x] == b.keys@[x],
            b.keys@[k] == (Key { open: b.keys@[k].open, cache_counter: b.keys@[k].cache_counter, ..a.keys@[k] }),
        ensures
            forall|x: int, open: bool|
                0 <= x < a.keys@.len() ==> #[trigger] a.resolved_key(k, x, open) == b.resolved_key(k, x, open),
            a.resolve_slot(k) == b.resolve_slot(k),
            a.resolve_events(k, kind, value) == b.resolve_events(k, kind, value),
            a.chosen_combo(k) == b.chosen_combo(k),
    {
        a.lemma_same_resolution(b, k, kind, value);
        Self::lemma_layout_eq(a, b);
        assert forall|x: int, open: bool|
            0 <= x < a.keys@.len() implies #[trigger] a.resolved_key(k, x, open) == b.resolved_key(k, x, open) by {
            assert(a.fires_unmodified(k) == b.fires_unmodified(k));
            assert(a.key_combos(k) == b.key_combos(k));
            assert forall|cg: int| #[trigger] a.singleton_closes(cg, x) == b.singleton_closes(cg, x) by {
                if x != k {
                    assert(a.keys@[x] == b.keys@[x]);
                }
            }
            assert forall|cg: int| #[trigger] a.singleton_closes(cg, k) == b.singleton_closes(cg, k) by {
            }
        }
    }

    /// Settles a press of key `key` once it is counted in the groups.
    fn settle(&mut self, key: usize, kind: Kind, value: i16)
        requires
            old(self).wf(),
            key < old(self).keys@.len(),
        ensures
            final(self).layout_eq(old(self)),
            final(self).wf(),
            final(self).down == old(self).down,
            prefix_of(old(self).events.items(), final(self).events.items()),
            old(self).settles(final(self), key as int, kind, value),
    {
        let ghost s3 = *self;
        proof {
            lemma_prefix_refl(s3.events.items());
        }
        if !self.keys[key].is_immediate() && !self.keys[key].open {
            return;
        }
        let masking = self.is_masking();
        self.keys[key].open = self.keys[key].open && !masking;
        proof {
            lemma_open_only(s3.keys@, self.keys@, self.keys@, s3.keys_combos@);
            assert(self.layout_eq(&s3));
            Self::lemma_wf_frame(&s3, self);
        }
        let ghost s4 = *self;
        let ghost open4 = s4.keys@[key as int].open;
        if self.keys[key].cache_counter == self.cache_counter {
            if self.keys[key].is_immediate() {
                self.replay(key, kind, value);
                proof {
                    lemma_prefix_concat(s4.events.items(), s4.cached_events(key as int, kind, value));
                    assert(s4.cached_events(key as int, kind, value) == s3.cached_events(key as int, kind, value));
                    assert(s4.replay_slot(key as int) == s3.replay_slot(key as int));
                    assert(self.keys@ =~= s3.keys@.update(
                        key as int,
                        Key { open: true, ..s3.keys@[key as int] },
                    ));
                }
            } else {
                proof {
                    lemma_prefix_refl(s4.events.items());
                    assert(self.keys@ =~= s3.keys@.update(
                        key as int,
                        Key { open: open4, ..s3.keys@[key as int] },
                    ));
                }
            }
            proof {
                lemma_prefix_trans(s3.events.items(), s4.events.items(), self.events.items());
            }
            return;
        }
        self.keys[key].cache_counter = self.cache_counter;
        proof {
            assert(keys_ok(self.keys@, self.keys_combos@)) by {
                assert forall|k: int| 0 <= k < self.keys@.len() implies {
                    &&& (#[trigger] self.keys@[k]).combos@.0 <= self.keys@[k].combos@.1
                        <= self.keys_combos@.len()
                    &&& self.keys@[k].active_combo matches Some(i) ==> i < self.keys@[k].combos@.1
                        - self.keys@[k].combos@.0
                } by {
                    assert(s4.keys@[k].combos@.0 <= s4.keys@[k].combos@.1);
                }
            }
            assert(self.layout_eq(&s4));
            Self::lemma_wf_frame(&s4, self);
        }
        let ghost s6 = *self;
        self.resolve(key, kind, value);
        proof {
            lemma_prefix_concat(s6.events.items(), s6.resolve_events(key as int, kind, value));
            lemma_prefix_trans(s3.events.items(), s6.events.items(), self.events.items());
            assert(s6.layout_eq(&s3));
            Self::lemma_resolution_frame(&s6, &s3, key as int, kind, value);
            assert(self.keys@ =~= Seq::new(
                s3.keys@.len(),
                |x: int| s3.resolved_key(key as int, x, open4),
            ));
        }
    }

    /// Handles a key press or an axis motion of key `key`.
    fn press(&mut self, key: usize, kind: Kind, value: i16)
        requires
            old(self).wf(),
            key < old(self).keys@.len(),
            kind != Kind::Up,
            kind == Kind::Down ==> !old(self).down@.contains(key) || old(self).key_groups(key as int).len()
                == 0,
        ensures
            final(self).layout_eq(old(self)),
            final(self).wf(),
            final(self).down@ == (if kind == Kind::Down {
                old(self).down@.insert(key)
            } else {
                old(self).down@
            }),
            prefix_of(old(self).events.items(), final(self).events.items()),
            old(self).key_groups(key as int).len() == 0 ==> final(self).events.items() == old(self).events.items() + (if old(self).cache_fresh(key as int) {
                old(self).cached_events(key as int, kind, value)
            } else {
                old(self).resolve_events(key as int, kind, value)
            }),
            old(self).key_groups(key as int).len() == 0 && !old(self).cache_fresh(key as int) ==> final(self).keys@[key as int].active_combo == old(self).chosen_combo(key as int),
            exists|mid: Self|
                old(self).counts(&mid, key as int, kind) && mid.settles(final(self), key as int, kind, value),
    {
        let ghost s0 = *self;
        let invalidate = self.prepare(key, kind);
        let ghost s2 = *self;
        self.invalidate_cache(invalidate);
        proof {
            assert(self.layout_eq(&s2));
            Self::lemma_wf_frame(&s2, self);
        }
        let ghost s3 = *self;
        proof {
            Self::lemma_counts_frame(&s0, &s2, &s3, key as int, kind);
            assert(s3.layout_eq(&s0));
            assert(s3.wf());
            assert(s3.down@ == match kind {
                Kind::Down => s0.down@.insert(key),
                Kind::Up => s0.down@.remove(key),
                Kind::Axis => s0.down@,
            });
            if exists|g: int| s0.rises(&s3, g) {
                let g = choose|g: int| s0.rises(&s3, g);
                assert(s0.rises(&s2, g));
            }
            if exists|g: int| s0.rises(&s2, g) {
                let g = choose|g: int| s0.rises(&s2, g);
                assert(s0.rises(&s3, g));
            }
            assert(s3.cache_counter == if (kind == Kind::Up && exists|g: int| s0.falls(&s3, g)) || (kind
                == Kind::Down && exists|g: int| s0.rises(&s3, g)) {
                s0.cache_counter.wrapping_add(1)
            } else {
                s0.cache_counter
            });
            assert(forall|h: int|
                0 <= h < s0.groups@.len() ==> set_usize_contents((#[trigger] s3.groups@[h]).active_combos)
                    == if s0.closed_by(&s3, kind).contains(h as usize) {
                    Set::<usize>::empty()
                } else {
                    set_usize_contents(s0.groups@[h].active_combos)
                });
            assert(forall|x: usize|
                x < s0.keys@.len() ==> #[trigger] s3.keys@[x as int] == s0.counted_key(&s3, key as int, kind, x));
            assert(s0.closes_combos(&s3, key as int, kind));
            assert(s0.counts(&s3, key as int, kind));
        }
        self.settle(key, kind, value);
        proof {
            lemma_prefix_trans(s0.events.items(), s3.events.items(), self.events.items());
            assert(self.layout_eq(&s0));
            if s0.key_groups(key as int).len() == 0 {
                assert(s3.groups@ == s0.groups@);
                assert(s3.masks == s0.masks);
                assert(s3.cache_counter == s0.cache_counter);
                assert(s3.events.items() == s0.events.items());
                assert(s3.keys@[key as int].spec_is_immediate());
                assert(s3.cache_fresh(key as int) == s0.cache_fresh(key as int));
                assert(s3.cached_events(key as int, kind, value) == s0.cached_events(key as int, kind, value));
                s3.lemma_same_resolution(&s0, key as int, kind, value);
                if !s0.cache_fresh(key as int) {
                    assert(self.keys@[key as int] == s3.resolved_key(
                        key as int,
                        key as int,
                        s3.keys@[key as int].open && !s3.masking(),
                    ));
                }
            }
        }
    }

    /// Two states that agree on the groups, the combos and the unmodified
    /// action of a key resolve it the same way.
    proof fn lemma_same_resolution(&self, other: &Self, k: int, kind: Kind, value: i16)
        requires
            self.layout_eq(other),
            self.layout_wf(),
            0 <= k < self.keys@.len(),
            self.groups@ == other.groups@,
            self.masks == other.masks,
            self.keys@[k].spec_is_immediate() == other.keys@[k].spec_is_immediate(),
        ensures
            self.chosen_combo(k) == other.chosen_combo(k),
            self.resolve_events(k, kind, value) == other.resolve_events(k, kind, value),
    {
        Self::lemma_layout_eq(self, other);
        assert(self.key_combos(k) == other.key_combos(k));
        assert forall|j: int| #[trigger] self.combo_group(k, j) == other.combo_group(k, j) by {
        }
        assert forall|g: int| #[trigger] self.group_intersect(g) == other.group_intersect(g) by {
        }
        assert forall|i: int| self.is_candidate(k, i) == other.is_candidate(k, i) by {
            if self.is_candidate(k, i) {
                assert forall|j: int| 0 <= j < i implies !group_on(
                    #[trigger] other.groups@[other.combo_group(k, j)],
                ) by {
                    assert(!group_on(self.groups@[self.combo_group(k, j)]));
                }
            }
            if other.is_candidate(k, i) {
                assert forall|j: int| 0 <= j < i implies !group_on(
                    #[trigger] self.groups@[self.combo_group(k, j)],
                ) by {
                    assert(!group_on(other.groups@[other.combo_group(k, j)]));
                }
            }
        }
        assert forall|i: int| self.unchallenged(k, i) == other.unchallenged(k, i) by {
            let cg = self.combo_group(k, i);
            assert(other.combo_group(k, i) == cg);
            if self.unchallenged(k, i) {
                assert forall|j: int|
                    i < j < other.key_combos(k).len() && group_on(
                        #[trigger] other.groups@[other.combo_group(k, j)],
                    ) implies group_le(other.groups@[other.combo_group(k, j)], other.groups@[cg]) by {
                    assert(self.combo_group(k, j) == other.combo_group(k, j));
                }
                assert forall|x: int| 0 <= x < other.group_intersect(cg).len() implies !group_on(
                    #[trigger] other.groups@[other.group_intersect(cg)[x] as int],
                ) by {
                    assert(!group_on(self.groups@[self.group_intersect(cg)[x] as int]));
                }
            }
            if other.unchallenged(k, i) {
                assert forall|j: int|
                    i < j < self.key_combos(k).len() && group_on(
                        #[trigger] self.groups@[self.combo_group(k, j)],
                    ) implies group_le(self.groups@[self.combo_group(k, j)], self.groups@[cg]) by {
                    assert(self.combo_group(k, j) == other.combo_group(k, j));
                }
                assert forall|x: int| 0 <= x < self.group_intersect(cg).len() implies !group_on(
                    #[trigger] self.groups@[self.group_intersect(cg)[x] as int],
                ) by {
                    assert(!group_on(other.groups@[other.group_intersect(cg)[x] as int]));
                }
            }
        }
        if exists|i: int| self.is_candidate(k, i) {
            let i = choose|i: int| self.is_candidate(k, i);
            self.lemma_chosen(k, i);
            other.lemma_chosen(k, i);
        } else {
            assert(!exists|i: int| self.is_candidate(k, i) && self.unchallenged(k, i));
            assert(!exists|i: int| other.is_candidate(k, i) && other.unchallenged(k, i));
        }
    }

    /// Handles a key release of key `key`.
    #[verifier::rlimit(60)]
    fn release(&mut self, key: usize)
        requires
            old(self).wf(),
            key < old(self).keys@.len(),
            old(self).down@.contains(key) || old(self).key_groups(key as int).len() == 0,
        ensures
            final(self).layout_eq(old(self)),
            final(self).wf(),
            final(self).down@ == old(self).down@.remove(key),
            prefix_of(old(self).events.items(), final(self).events.items()),
            old(self).key_groups(key as int).len() == 0 ==> final(self).events.items() == old(self).events.items() + old(self).release_events(key as int),
            exists|mid: Self| old(self).counts(&mid, key as int, Kind::Up) && mid.releases(final(self), key as int),
    {
        let ghost s0 = *self;
        let invalidate = self.deactivate(key);
        let ghost sd = *self;
        self.invalidate_cache(invalidate);
        let ghost s1 = *self;
        proof {
            assert(s1.layout_eq(&sd));
            Self::lemma_layout_eq(&s1, &sd);
            Self::lemma_wf_frame(&sd, &s1);
            lemma_prefix_refl(s1.events.items());
            Self::lemma_counts_frame(&s0, &sd, &s1, key as int, Kind::Up);
            Self::lemma_layout_eq(&sd, &s0);
            assert(s1.layout_eq(&s0));
            if exists|g: int| s0.falls(&s1, g) {
                let g = choose|g: int| s0.falls(&s1, g);
                assert(s0.falls(&sd, g));
            }
            if exists|g: int| s0.falls(&sd, g) {
                let g = choose|g: int| s0.falls(&sd, g);
                assert(s0.falls(&s1, g));
            }
            assert(s1.cache_counter == if (Kind::Up == Kind::Up && exists|g: int| s0.falls(&s1, g)) || (
            Kind::Up == Kind::Down && exists|g: int| s0.rises(&s1, g)) {
                s0.cache_counter.wrapping_add(1)
            } else {
                s0.cache_counter
            });
            assert(forall|x: usize|
                x < s0.keys@.len() ==> #[trigger] s1.keys@[x as int] == s0.counted_key(
                    &s1,
                    key as int,
                    Kind::Up,
                    x,
                ));
            assert(s0.closed_by(&sd, Kind::Up) == s0.fallen(&sd));
            let kss = choose|kss: Seq<Seq<usize>>|
                {
                    &&& drains_in_order(
                        s0.groups@,
                        concat_where(
                            s0.key_groups(key as int),
                            |h: int| live(s0.groups@[h]),
                            |h: int| seq![h as usize],
                        ),
                        kss,
                    )
                    &&& sd.events.items() == s0.events.items() + closing_events(
                        s0.keys@,
                        s0.keys_combos@,
                        kss.flatten(),
                    )
                };
            assert(drains_in_order(s0.groups@, s0.closing_order(&sd, key as int, Kind::Up), kss));
            assert(s0.closes_combos(&sd, key as int, Kind::Up));
            assert(s0.counts(&s1, key as int, Kind::Up));
        }
        if self.keys[key].open {
            let mut out: Option<Z> = None;
            if let Some(i) = self.keys[key].active_combo {
                let combo = self.keys[key].get_combo(i, self.keys_combos.as_slice());
                proof {
                    let j = s1.keys@[key as int].combos@.0 + i;
                    assert(s1.keys_combos@[j].group < s1.groups@.len());
                }
                set_usize_remove(&mut self.groups[combo.group].active_combos, key);
                out = combo.action;
            }
            if out.is_none() {
                out = self.keys[key].action;
            }
            if let Some(a) = out {
                if !self.keys[key].is_immediate() {
                    self.events.push(Event { keycode: a, kind: Kind::Down, value: 0 });
                }
                self.events.push(Event { keycode: a, kind: Kind::Up, value: 0 });
            }
            proof {
                assert forall|h: int, x: usize|
                    0 <= h < self.groups@.len() && #[trigger] set_usize_contents(
                        self.groups@[h].active_combos,
                    ).contains(x) implies x < self.keys@.len() by {
                    assert(set_usize_contents(s1.groups@[h].active_combos).contains(x));
                }
                assert(self.layout_eq(&s1));
                Self::lemma_wf_frame(&s1, self);
                assert(self.events.items() =~= s1.events.items() + s1.release_events(key as int));
                assert(groups_lose(s1.groups@, self.groups@, s1.release_slot(key as int), key));
            }
        } else {
            assert(self.events.items() =~= s1.events.items() + s1.release_events(key as int));
            assert(groups_lose(s1.groups@, self.groups@, s1.release_slot(key as int), key));
        }
        proof {
            assert(s1.releases(self, key as int));
        }
        proof {
            assert(prefix_of(s1.events.items(), self.events.items())) by {
                assert(self.events.items().subrange(0, s1.events.items().len() as int)
                    =~= s1.events.items());
            }
            lemma_prefix_trans(s0.events.items(), s1.events.items(), self.events.items());
            if s0.key_groups(key as int).len() == 0 {
                assert(s1.keys@ == s0.keys@);
                assert(s1.key_combos(key as int) == s0.key_combos(key as int));
                assert(s1.release_events(key as int) == s0.release_events(key as int));
            }
        }
    }

    /// What handling a configured event does: the layout stays, output
    /// events are only appended, the key is counted down or up, and for a
    /// key that belongs to no group the events sent and the combo chosen are
    /// exactly those of its resolution. In full: the event is first counted
    /// in the groups (`counts`), which closes the combos of the groups it
    /// shadows or deactivates, then the key is settled (`settles` for a
    /// press or an axis motion, `releases` for a release).
    pub open spec fn handles(&self, after: &Self, event: Event<u32>) -> bool {
        let k = self.domain_map()[event.keycode] as int;
        &&& exists|mid: Self|
            self.counts(&mid, k, event.kind) && if event.kind == Kind::Up {
                mid.releases(after, k)
            } else {
                mid.settles(after, k, event.kind, event.value)
            }
        &&& after.layout_eq(self)
        &&& prefix_of(self.output(), after.output())
        &&& after.down_keys() == match event.kind {
            Kind::Down => self.down_keys().insert(k as usize),
            Kind::Up => self.down_keys().remove(k as usize),
            Kind::Axis => self.down_keys(),
        }
        &&& self.key_groups(k).len() == 0 ==> after.output() == self.output() + match event.kind {
            Kind::Up => self.release_events(k),
            _ => if self.cache_fresh(k) {
                self.cached_events(k, event.kind, event.value)
            } else {
                self.resolve_events(k, event.kind, event.value)
            },
        }
        &&& self.key_groups(k).len() == 0 && event.kind != Kind::Up && !self.cache_fresh(k)
            ==> after.key_at(k).active_combo == self.chosen_combo(k)
    }

    /// Everything but the output queue is the same.
    pub closed spec fn same_but_output(&self, other: &Self) -> bool {
        *self == Self { events: self.events, ..*other }
    }

    /// Handles an input event. Returns whether the keycode is in the
    /// configuration; an event that is not handled changes nothing.
    ///
    /// The event sequence must be sane: a modifier key is pressed only while
    /// it is up and released only while it is down. Output events are
    /// pushed, in order, on `events`, which is never cleared.
    pub fn handle(&mut self, event: Event<u32>) -> (handled: bool)
        requires
            old(self).wf(),
            old(self).accepts(event),
        ensures
            final(self).wf(),
            handled == old(self).domain_map().contains_key(event.keycode),
            !handled ==> *final(self) == *old(self),
            handled ==> old(self).handles(final(self), event),
    {
        let key = match scalar_map_get(&self.domain, event.keycode) {
            Some(key) => key,
            None => {
                return false;
            },
        };
        match event.kind {
            Kind::Down | Kind::Axis => self.press(key, event.kind, event.value),
            Kind::Up => self.release(key),
        }
        true
    }

    /// A group counts exactly its keys that are down, and is active exactly
    /// when all its keys are down.
    pub proof fn lemma_group_counts_down_keys(h: &Self, g: int)
        requires
            h.wf(),
            0 <= g < h.num_groups(),
        ensures
            h.group_at(g).counter == count_in(h.group_keys(g), h.down_keys()),
            h.group_at(g).counter == h.group_at(g).size <==> forall|j: int|
                0 <= j < h.group_keys(g).len() ==> h.down_keys().contains(#[trigger] h.group_keys(g)[j]),
    {
        lemma_count_full(h.group_keys(g), h.down_keys());
    }

    /// A group is shadowed exactly when an active group has it among its
    /// greatest strict subgroups; its count of such groups is at most the
    /// number of groups.
    pub proof fn lemma_shadowed_iff(h: &Self, p: int)
        requires
            h.wf(),
            0 <= p < h.num_groups(),
        ensures
            h.group_at(p).active_greater > 0 <==> exists|g: int|
                0 <= g < h.num_groups() && live(h.group_at(g)) && #[trigger] h.group_pred(g).contains(
                    p as usize,
                ),
            0 <= h.group_at(p).active_greater <= h.num_groups(),
    {
        let lv = live_seq(h.groups@);
        let vals = h.above_vals(p);
        assert forall|q: int| 0 <= q < lv.len() implies 0 <= #[trigger] vals[q] <= 1 by {
        }
        crate::combo::counting::lemma_sum_bounds(lv, vals, 0, 1);
        if exists|g: int|
            0 <= g < h.num_groups() && live(h.group_at(g)) && #[trigger] h.group_pred(g).contains(p as usize) {
            let g = choose|g: int|
                0 <= g < h.num_groups() && live(h.group_at(g)) && #[trigger] h.group_pred(g).contains(p as usize);
            lemma_sum_pos(lv, vals, g);
        } else {
            assert forall|i: int| 0 <= i < lv.len() && lv[i] implies vals[i] == 0 by {
                if h.group_pred(i).contains(p as usize) {
                    assert(live(h.group_at(i)));
                }
            }
            lemma_sum_zero(lv, vals);
        }
    }

    /// The handler masks exactly when the mask weights of the active groups
    /// add up to more than zero.
    pub proof fn lemma_masking_iff(h: &Self)
        requires
            h.wf(),
        ensures
            h.masking() <==> h.mask_total() > 0,
    {
        assert(Seq::new(h.num_groups(), |g: int| live(h.group_at(g))) =~= live_seq(h.groups@));
        assert(Seq::new(h.num_groups(), |g: int| h.group_at(g).mask_weight as int) =~= h.weights());
    }

    /// Handling an event never changes the configuration: the keycodes that
    /// are handled, the keys, the groups and their members, subgroups and
    /// intersections, and the combos of each key stay the same.
    pub proof fn lemma_handling_keeps_configuration(h: &Self, after: &Self, event: Event<u32>)
        requires
            h.handles(after, event),
        ensures
            after.domain_map() == h.domain_map(),
            after.num_keys() == h.num_keys(),
            after.num_groups() == h.num_groups(),
            forall|k: int| 0 <= k < h.num_keys() ==> #[trigger] after.key_groups(k) == h.key_groups(k),
            forall|k: int| 0 <= k < h.num_keys() ==> #[trigger] after.key_combos(k) == h.key_combos(k),
            forall|k: int| 0 <= k < h.num_keys() ==> #[trigger] after.key_at(k).action == h.key_at(k).action,
            forall|g: int| 0 <= g < h.num_groups() ==> #[trigger] after.group_keys(g) == h.group_keys(g),
            forall|g: int| 0 <= g < h.num_groups() ==> #[trigger] after.group_pred(g) == h.group_pred(g),
            forall|g: int|
                0 <= g < h.num_groups() ==> #[trigger] after.group_intersect(g) == h.group_intersect(g),
            forall|g: int|
                0 <= g < h.num_groups() ==> group_static_eq(#[trigger] after.group_at(g), h.group_at(g)),
    {
        Self::lemma_layout_eq(after, h);
        assert forall|k: int| 0 <= k < h.num_keys() implies #[trigger] after.key_at(k).action == h.key_at(k).action by {
            assert(key_static_eq(after.keys@[k], h.keys@[k]));
        }
    }

    /// Pressing a key that is up and then releasing it restores the keys
    /// held down, and with them the count, the shadowing and the activity of
    /// every group and whether the handler masks.
    pub proof fn lemma_press_release_restores_groups(
        h: &Self,
        a: &Self,
        b: &Self,
        press: Event<u32>,
        release: Event<u32>,
    )
        requires
            h.wf(),
            a.wf(),
            b.wf(),
            press.kind == Kind::Down,
            release.kind == Kind::Up,
            release.keycode == press.keycode,
            h.domain_map().contains_key(press.keycode),
            !h.down_keys().contains(h.domain_map()[press.keycode]),
            h.handles(a, press),
            a.handles(b, release),
        ensures
            b.down_keys() == h.down_keys(),
            forall|g: int|
                0 <= g < h.num_groups() ==> (#[trigger] b.group_at(g)).counter == h.group_at(g).counter
                    && b.group_at(g).active_greater == h.group_at(g).active_greater && live(b.group_at(g))
                    == live(h.group_at(g)),
            b.masking() == h.masking(),
    {
        let k = h.domain_map()[press.keycode];
        assert(a.domain_map() == h.domain_map());
        assert(b.down@ =~= h.down@);
        Self::lemma_layout_eq(a, h);
        Self::lemma_layout_eq(b, a);
        assert forall|g: int| 0 <= g < h.groups@.len() implies (#[trigger] b.groups@[g]).counter
            == h.groups@[g].counter by {
            assert(b.group_keys(g) == h.group_keys(g));
        }
        assert(live_seq(b.groups@) =~= live_seq(h.groups@));
        assert(b.weights() == h.weights());
        assert forall|p: int| 0 <= p < h.groups@.len() implies (#[trigger] b.groups@[p]).active_greater
            == h.groups@[p].active_greater by {
            assert(b.above_vals(p) == h.above_vals(p));
        }
    }

    /// Counting a press of a key that belongs to no group changes no group
    /// and sends nothing; the key keeps its combo, its cache key and its
    /// immediacy, and latches after an axis motion.
    proof fn lemma_plain_counts(h: &Self, mid: &Self, k: int, kind: Kind)
        requires
            h.wf(),
            h.counts(mid, k, kind),
            kind != Kind::Up,
            0 <= k < h.keys@.len(),
            h.key_groups(k).len() == 0,
        ensures
            forall|g: int| 0 <= g < h.groups@.len() ==> !#[trigger] h.rises(mid, g),
            forall|g: int|
                0 <= g < h.groups@.len() ==> set_usize_contents((#[trigger] mid.groups@[g]).active_combos)
                    == set_usize_contents(h.groups@[g].active_combos),
            mid.cache_fresh(k) == h.cache_fresh(k),
            mid.keys@[k].active_combo == h.keys@[k].active_combo,
            mid.keys@[k].latching == (h.keys@[k].latching || kind == Kind::Axis),
            mid.keys@[k].spec_is_immediate(),
            mid.output() == h.output(),
    {
        let ku = k as usize;
        assert(h.keys.len() == h.keys@.len());
        assert(ku as int == k);
        Self::lemma_layout_eq(mid, h);
        assert forall|g: int| 0 <= g < h.groups@.len() implies !#[trigger] h.rises(mid, g) by {
            let gk = h.group_keys(g);
            let gu = g as usize;
            assert(h.groups.len() == h.groups@.len());
            assert(gu as int == g);
            assert(!h.key_groups(k).contains(gu));
            assert(!h.group_keys(gu as int).contains(ku));
            assert(mid.groups@[g].counter == count_in(mid.group_keys(g), mid.down@));
            assert(mid.group_keys(g) == gk);
            if h.down@.contains(ku) {
                assert(h.down@.insert(ku) =~= h.down@);
            } else {
                lemma_count_insert(gk, h.down@, ku);
            }
            assert(h.groups@[g].counter == count_in(gk, h.down@));
        }
        assert(h.shadowed_anew(mid) =~= Set::<usize>::empty());
        assert(!exists|g: int| h.rises(mid, g));
        lemma_concat_where_none(h.key_groups(k), |g: int| h.rises(mid, g), |g: int| h.group_pred(g));
        let kss = choose|kss: Seq<Seq<usize>>|
            {
                &&& drains_in_order(h.groups@, h.closing_order(mid, k, kind), kss)
                &&& mid.output() == h.output() + closing_events(h.keys@, h.keys_combos@, kss.flatten())
            };
        assert(kss =~= Seq::<Seq<usize>>::empty());
        assert(kss.flatten() =~= Seq::<usize>::empty());
        assert(mid.output() =~= h.output());
        assert(mid.keys@[ku as int] == h.counted_key(mid, k, kind, ku));
    }

    /// While the mask weights of the active groups add up to more than zero,
    /// a press or axis motion of a key that belongs to no group and is left
    /// without an active combo sends nothing, whether its last resolution is
    /// reused or computed anew.
    pub proof fn lemma_masked_press_sends_nothing(h: &Self, after: &Self, event: Event<u32>)
        requires
            h.wf(),
            event.kind != Kind::Up,
            h.domain_map().contains_key(event.keycode),
            h.key_groups(h.domain_map()[event.keycode] as int).len() == 0,
            h.masking(),
            h.handles(after, event),
            after.key_at(h.domain_map()[event.keycode] as int).active_combo is None,
        ensures
            after.output() == h.output(),
    {
        let k = h.domain_map()[event.keycode] as int;
        assert(h.layout_wf());
        let mid = choose|mid: Self|
            h.counts(&mid, k, event.kind) && mid.settles(after, k, event.kind, event.value);
        Self::lemma_plain_counts(h, &mid, k, event.kind);
        if h.cache_fresh(k) {
            assert(after.keys@[k].active_combo == mid.keys@[k].active_combo);
            assert(h.cached_events(k, event.kind, event.value) =~= Seq::<Event<Z>>::empty());
        } else {
            assert(h.chosen_combo(k) is None);
            assert(h.resolve_events(k, event.kind, event.value) =~= Seq::<Event<Z>>::empty());
        }
        assert(after.output() =~= h.output());
    }

    /// A press or axis motion of a key that belongs to no group, resolved
    /// anew, never activates a combo whose group is a greatest strict
    /// subgroup of an active group: the combo it leaves active, if any, is
    /// the first of the key's combos whose group has all its keys down, no
    /// active group shadows that group, no active group intersects it without
    /// being ordered with it, and every later combo whose group is active has
    /// a group included in it.
    pub proof fn lemma_press_avoids_shadowed_combo(h: &Self, after: &Self, event: Event<u32>, c: usize)
        requires
            h.wf(),
            event.kind != Kind::Up,
            h.domain_map().contains_key(event.keycode),
            h.key_groups(h.domain_map()[event.keycode] as int).len() == 0,
            !h.cache_fresh(h.domain_map()[event.keycode] as int),
            h.handles(after, event),
            after.key_at(h.domain_map()[event.keycode] as int).active_combo == Some(c),
        ensures
            c < h.key_combos(h.domain_map()[event.keycode] as int).len(),
            h.key_combos(h.domain_map()[event.keycode] as int)[c as int].group < h.num_groups(),
            ({
                let cg = h.key_combos(h.domain_map()[event.keycode] as int)[c as int].group;
                &&& h.group_at(cg as int).counter == h.group_at(cg as int).size
                &&& forall|g: int|
                    0 <= g < h.num_groups() && live(h.group_at(g)) ==> !#[trigger] h.group_pred(g).contains(cg)
                &&& forall|j: int|
                    0 <= j < c ==> (#[trigger] h.group_at(
                        h.key_combos(h.domain_map()[event.keycode] as int)[j].group as int,
                    )).counter != h.group_at(h.key_combos(h.domain_map()[event.keycode] as int)[j].group as int).size
                &&& forall|x: int|
                    0 <= x < h.group_intersect(cg as int).len() ==> (#[trigger] h.group_at(
                        h.group_intersect(cg as int)[x] as int,
                    )).counter != h.group_at(h.group_intersect(cg as int)[x] as int).size
                &&& forall|j: int|
                    c < j < h.key_combos(h.domain_map()[event.keycode] as int).len() && (#[trigger] h.group_at(
                        h.key_combos(h.domain_map()[event.keycode] as int)[j].group as int,
                    )).counter == h.group_at(h.key_combos(h.domain_map()[event.keycode] as int)[j].group as int).size
                        ==> group_le(
                        h.group_at(h.key_combos(h.domain_map()[event.keycode] as int)[j].group as int),
                        h.group_at(cg as int),
                    )
            }),
    {
        let k = h.domain_map()[event.keycode] as int;
        assert(h.layout_wf());
        assert(h.chosen_combo(k) == Some(c));
        let i = choose|i: int| h.is_candidate(k, i) && h.unchallenged(k, i);
        assert(i == c as int);
        let cg = h.key_combos(k)[c as int].group;
        let j = h.keys@[k].combos@.0 + c;
        assert(h.key_combos(k)[c as int] == h.keys_combos@[j]);
        assert(cg < h.groups@.len());
        Self::lemma_shadowed_iff(h, cg as int);
        assert forall|g: int| 0 <= g < h.num_groups() && live(h.group_at(g)) implies !#[trigger] h.group_pred(
            g,
        ).contains(cg) by {
            assert(cg as usize == cg);
        }
        let kc = h.key_combos(k);
        assert forall|j: int| 0 <= j < c implies (#[trigger] h.group_at(kc[j].group as int)).counter != h.group_at(
            kc[j].group as int,
        ).size by {
            assert(h.combo_group(k, j) == kc[j].group as int);
            assert(!group_on(h.groups@[h.combo_group(k, j)]));
        }
        assert forall|x: int| 0 <= x < h.group_intersect(cg as int).len() implies (#[trigger] h.group_at(
            h.group_intersect(cg as int)[x] as int,
        )).counter != h.group_at(h.group_intersect(cg as int)[x] as int).size by {
            assert(h.combo_group(k, c as int) == cg as int);
            assert(!group_on(h.groups@[h.group_intersect(cg as int)[x] as int]));
        }
        assert forall|j: int|
            c < j < kc.len() && (#[trigger] h.group_at(kc[j].group as int)).counter == h.group_at(
                kc[j].group as int,
            ).size implies group_le(h.group_at(kc[j].group as int), h.group_at(cg as int)) by {
            assert(h.combo_group(k, j) == kc[j].group as int);
            assert(h.combo_group(k, c as int) == cg as int);
            assert(group_on(h.groups@[h.combo_group(k, j)]));
        }
    }

    /// A press or axis motion of a latching key that belongs to no group never
    /// adds the key to the combo set of any group, so no later deactivation
    /// or shadowing of a group sends a key up for it.
    pub proof fn lemma_latching_press_not_recorded(h: &Self, after: &Self, event: Event<u32>)
        requires
            h.wf(),
            event.kind != Kind::Up,
            h.domain_map().contains_key(event.keycode),
            h.key_groups(h.domain_map()[event.keycode] as int).len() == 0,
            h.key_at(h.domain_map()[event.keycode] as int).latching || event.kind == Kind::Axis,
            h.handles(after, event),
        ensures
            forall|g: int|
                0 <= g < h.num_groups() && set_usize_contents(
                    (#[trigger] after.group_at(g)).active_combos,
                ).contains(h.domain_map()[event.keycode]) ==> set_usize_contents(
                    h.group_at(g).active_combos,
                ).contains(h.domain_map()[event.keycode]),
    {
        let k = h.domain_map()[event.keycode] as int;
        assert(h.layout_wf());
        let mid = choose|mid: Self|
            h.counts(&mid, k, event.kind) && mid.settles(after, k, event.kind, event.value);
        Self::lemma_plain_counts(h, &mid, k, event.kind);
        assert(mid.replay_slot(k) is None);
        assert(mid.resolve_slot(k) is None);
        assert forall|g: int|
            0 <= g < h.num_groups() && set_usize_contents((#[trigger] after.group_at(g)).active_combos).contains(
                k as usize,
            ) implies set_usize_contents(h.group_at(g).active_combos).contains(k as usize) by {
            assert(set_usize_contents(after.groups@[g].active_combos) == set_usize_contents(
                mid.groups@[g].active_combos,
            ));
        }
    }

    /// An event that makes a group become or stop being active invalidates
    /// every resolution that was current: the cache key moves on, and no key
    /// other than the event's own whose resolution held before still holds it
    /// after (the event's own key, when pressed, is resolved anew against the
    /// groups as they now are).
    pub proof fn lemma_group_change_invalidates(h: &Self, after: &Self, event: Event<u32>, g: int)
        requires
            h.wf(),
            h.domain_map().contains_key(event.keycode),
            h.handles(after, event),
            0 <= g < h.num_groups(),
            live(h.group_at(g)) != live(after.group_at(g)),
        ensures
            after.cache_key() == h.cache_key().wrapping_add(1),
            after.cache_key() != h.cache_key(),
            forall|x: int|
                0 <= x < h.num_keys() && x != h.domain_map()[event.keycode] && h.key_at(x).cache_counter
                    == h.cache_key() ==> !#[trigger] after.cache_fresh(x),
    {
        let k = h.domain_map()[event.keycode] as int;
        let ku = h.domain_map()[event.keycode];
        let gk = h.group_keys(g);
        assert(h.layout_wf());
        let mid = choose|mid: Self|
            h.counts(&mid, k, event.kind) && if event.kind == Kind::Up {
                mid.releases(after, k)
            } else {
                mid.settles(after, k, event.kind, event.value)
            };
        assert(after.groups@[g].counter == mid.groups@[g].counter);
        assert(after.groups@[g].size == mid.groups@[g].size);
        Self::lemma_layout_eq(&mid, h);
        assert(mid.groups@[g].counter == count_in(mid.group_keys(g), mid.down@));
        assert(mid.group_keys(g) == gk);
        assert(h.groups@[g].counter == count_in(gk, h.down@));
        lemma_count_le(gk, h.down@);
        assert(gk.no_duplicates());
        if event.kind == Kind::Up {
            if h.down@.contains(ku) {
                lemma_count_remove(gk, h.down@, ku);
            } else {
                assert(h.down@.remove(ku) =~= h.down@);
            }
            assert(h.falls(&mid, g));
        } else if event.kind == Kind::Down {
            if h.down@.contains(ku) {
                assert(h.down@.insert(ku) =~= h.down@);
            } else {
                lemma_count_insert(gk, h.down@, ku);
            }
            lemma_count_le(gk, h.down@.insert(ku));
            assert(h.rises(&mid, g));
        } else {
            assert(mid.down@ == h.down@);
            assert forall|q: int| 0 <= q < h.groups@.len() implies (#[trigger] mid.groups@[q]).counter
                == h.groups@[q].counter by {
                assert(mid.group_keys(q) == h.group_keys(q));
            }
            assert(false);
        }
        assert(mid.cache_counter == h.cache_counter.wrapping_add(1));
        assert(after.cache_counter == mid.cache_counter);
        assert forall|x: int|
            0 <= x < h.num_keys() && x != ku && h.key_at(x).cache_counter == h.cache_key() implies !#[trigger] after.cache_fresh(
                x,
            ) by {
            let xu = x as usize;
            assert(h.keys.len() == h.keys@.len());
            assert(xu as int == x);
            assert(mid.keys@[xu as int] == h.counted_key(&mid, k, event.kind, xu));
            if event.kind != Kind::Up {
                let key = mid.keys@[k];
                if !key.spec_is_immediate() && !key.open {
                } else if mid.cache_fresh(k) {
                    assert(after.keys@[x] == mid.keys@[x]);
                } else {
                    assert(after.keys@[x] == mid.resolved_key(k, x, key.open && !mid.masking()));
                }
            }
            assert(after.keys@[x].cache_counter == mid.keys@[x].cache_counter);
        }
    }

    /// A release of a key in no group sends at most one event: nothing if the
    /// key is not open, and otherwise a key up with value zero of the action
    /// of its active combo, or of its own action when the combo has none.
    pub proof fn lemma_plain_release_events(h: &Self, after: &Self, event: Event<u32>)
        requires
            h.wf(),
            event.kind == Kind::Up,
            h.domain_map().contains_key(event.keycode),
            h.key_groups(h.domain_map()[event.keycode] as int).len() == 0,
            h.handles(after, event),
        ensures
            after.output().len() <= h.output().len() + 1,
            !h.key_at(h.domain_map()[event.keycode] as int).open ==> after.output() == h.output(),
            forall|i: int|
                h.output().len() <= i < after.output().len() ==> {
                    let key = h.key_at(h.domain_map()[event.keycode] as int);
                    let combo_action = match key.active_combo {
                        Some(c) => h.key_combos(h.domain_map()[event.keycode] as int)[c as int].action,
                        None => None,
                    };
                    &&& (#[trigger] after.output()[i]).kind == Kind::Up
                    &&& after.output()[i].value == 0
                    &&& Some(after.output()[i].keycode) == if combo_action is Some {
                        combo_action
                    } else {
                        key.action
                    }
                },
    {
        let k = h.domain_map()[event.keycode] as int;
        assert(h.layout_wf());
        assert(h.keys@[k].spec_is_immediate());
        let added = h.release_events(k);
        assert(after.output() == h.output() + added);
        assert(added.len() <= 1);
        if !h.keys@[k].open {
            assert(after.output() =~= h.output());
        }
        assert forall|i: int| h.output().len() <= i < after.output().len() implies {
            let key = h.key_at(k);
            let combo_action = match key.active_combo {
                Some(c) => h.key_combos(k)[c as int].action,
                None => None,
            };
            &&& (#[trigger] after.output()[i]).kind == Kind::Up
            &&& after.output()[i].value == 0
            &&& Some(after.output()[i].keycode) == if combo_action is Some {
                combo_action
            } else {
                key.action
            }
        } by {
            assert(after.output()[i] == added[i - h.output().len()]);
        }
    }

    /// Every event that a press or axis motion of a key in no group sends
    /// carries the input's kind and analog value, whether the key's
    /// resolution is reused or computed anew.
    pub proof fn lemma_press_events_carry_input(h: &Self, after: &Self, event: Event<u32>)
        requires
            h.wf(),
            event.kind != Kind::Up,
            h.domain_map().contains_key(event.keycode),
            h.key_groups(h.domain_map()[event.keycode] as int).len() == 0,
            h.handles(after, event),
        ensures
            forall|i: int|
                h.output().len() <= i < after.output().len() ==> (#[trigger] after.output()[i]).kind == event.kind
                    && after.output()[i].value == event.value,
    {
        let k = h.domain_map()[event.keycode] as int;
        let added = if h.cache_fresh(k) {
            h.cached_events(k, event.kind, event.value)
        } else {
            h.resolve_events(k, event.kind, event.value)
        };
        assert(after.output() == h.output() + added);
        assert forall|i: int| h.output().len() <= i < after.output().len() implies (#[trigger] after.output()[i]).kind
            == event.kind && after.output()[i].value == event.value by {
            assert(after.output()[i] == added[i - h.output().len()]);
        }
    }

    /// Whether the handler masks unmodified actions: the mask weights of the
    /// active groups add up to more than zero.
    pub open spec fn mask_total(&self) -> int {
        sum_where(
            Seq::new(self.num_groups(), |g: int| live(self.group_at(g))),
            Seq::new(self.num_groups(), |g: int| self.group_at(g).mask_weight as int),
        )
    }

    fn is_masking(&self) -> (b: bool)
        ensures
            b == self.masking(),
    {
        self.masks > 0
    }

    fn invalidate_cache(&mut self, invalidate_cache: bool)
        ensures
            *final(self) == (Self {
                cache_counter: if invalidate_cache {
                    old(self).cache_counter.wrapping_add(1)
                } else {
                    old(self).cache_counter
                },
                ..*old(self)
            }),
    {
        let step: i32 = if invalidate_cache { 1 } else { 0 };
        self.cache_counter = self.cache_counter.wrapping_add(step);
    }
}

const EVENT_BUFFER_WARMUP: usize = 16;

impl<Z: Copy> ComboHandler<Z, VecDeque<Event<Z>>> {
    /// Creates the handler from a configuration, with an empty `VecDeque` as
    /// output queue that pre-allocates some capacity.
    pub fn new(config: &Config<Z>) -> (h: Self)
        requires
            config.modifiers@.len() <= MAX_GROUPS,
            forall|g: int|
                0 <= g < config.modifiers@.len() ==> (#[trigger] config.modifiers@[g]).keys@.no_duplicates(),
            combos_named(config.modifiers@, config.actions@),
        ensures
            h.wf(),
            h.output() == Seq::<Event<Z>>::empty(),
            h.down_keys() == Set::<usize>::empty(),
            !h.masking(),
            h.num_groups() == config.modifiers@.len(),
            h.built_from(config),
            h.mask_total() == 0,
    {
        ComboHandler::with(config, VecDeque::with_capacity(EVENT_BUFFER_WARMUP))
    }
}

impl<Q: Queue<Event<u32>>> ComboHandler<u32, Q> {
    /// Like [`ComboHandler::handle`], but an event that is not handled is
    /// pushed as it is on the output queue. Returns whether the event was
    /// handled.
    pub fn handle_passthrough(&mut self, event: Event<u32>) -> (handled: bool)
        requires
            old(self).wf(),
            old(self).accepts(event),
        ensures
            final(self).wf(),
            handled == old(self).domain_map().contains_key(event.keycode),
            !handled ==> final(self).same_but_output(old(self)) && final(self).output() == old(self).output().push(event),
            handled ==> old(self).handles(final(self), event),
    {
        let ghost s0 = *self;
        if !self.handle(event) {
            self.events.push(event);
            proof {
                assert(self.layout_eq(&s0));
                lemma_open_only(s0.keys@, s0.keys@, s0.keys@, s0.keys_combos@);
                Self::lemma_aux_frame(&s0, self);
                Self::lemma_wf_frame(&s0, self);
            }
            return false;
        }
        true
    }
}

} // verus!
