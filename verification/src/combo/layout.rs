//! The precomputation of the modifier groups: how their key sets relate.
use vstd::prelude::*;
use crate::config::{ActionDecl, Config, ModifierDecl};
use crate::combo::types::{Combo, Group, Key, Range};
use frozen_collections::FzScalarMap;
use crate::combo::packed;
use crate::combo::sets::{
    entries_map, scalar_map_contents, scalar_map_new, scalar_set_contents, scalar_set_new,
    set_usize_contents, set_usize_new,
};

verus! {

/// Every key of `a` is a key of `b`.
pub open spec fn within(a: Seq<u32>, b: Seq<u32>) -> bool {
    forall|i: int| 0 <= i < a.len() ==> b.contains(#[trigger] a[i])
}

/// `a` and `b` share a key.
pub open spec fn meets(a: Seq<u32>, b: Seq<u32>) -> bool {
    exists|i: int| 0 <= i < a.len() && b.contains(#[trigger] a[i])
}

/// The key set of `a` is strictly included in that of `b`.
pub open spec fn strictly_within(a: Seq<u32>, b: Seq<u32>) -> bool {
    within(a, b) && !within(b, a)
}

/// The key lists of the modifiers.
pub open spec fn mod_keys(mods: Seq<ModifierDecl>) -> Seq<Seq<u32>> {
    Seq::new(mods.len(), |i: int| mods[i].keys@)
}

/// Group `b` is a supergroup of group `a`.
pub open spec fn above_rel(ks: Seq<Seq<u32>>, a: int, b: int) -> bool {
    a != b && meets(ks[a], ks[b]) && strictly_within(ks[a], ks[b])
}

/// Groups `a` and `b` share keys without one including the other.
pub open spec fn inter_rel(ks: Seq<Seq<u32>>, a: int, b: int) -> bool {
    a != b && meets(ks[a], ks[b]) && !within(ks[a], ks[b]) && !within(ks[b], ks[a])
}

/// Group `a` is a greatest strict subgroup of group `b`: no group lies
/// strictly between them, and no earlier group has the same keys as `a`.
pub open spec fn pred_rel(ks: Seq<Seq<u32>>, a: int, b: int) -> bool {
    &&& above_rel(ks, a, b)
    &&& !exists|c: int|
        0 <= c < ks.len() && #[trigger] strictly_within(ks[a], ks[c]) && strictly_within(ks[c], ks[b])
    &&& !exists|c: int| 0 <= c < a && #[trigger] within(ks[c], ks[a]) && within(ks[a], ks[c])
}

proof fn lemma_meets_symmetric(a: Seq<u32>, b: Seq<u32>)
    ensures
        meets(a, b) == meets(b, a),
{
    if meets(a, b) {
        let i = choose|i: int| 0 <= i < a.len() && b.contains(#[trigger] a[i]);
        let j = choose|j: int| 0 <= j < b.len() && b[j] == a[i];
        assert(a.contains(b[j]));
    }
    if meets(b, a) {
        let i = choose|i: int| 0 <= i < b.len() && a.contains(#[trigger] b[i]);
        let j = choose|j: int| 0 <= j < a.len() && a[j] == b[i];
        assert(b.contains(a[j]));
    }
}

/// Supergroups are transitive: a supergroup of a supergroup of `a` is a supergroup of `a`.
pub proof fn lemma_above_transitive(ks: Seq<Seq<u32>>, a: int, b: int, c: int)
    requires
        0 <= a < ks.len(),
        0 <= b < ks.len(),
        0 <= c < ks.len(),
        above_rel(ks, a, b),
        above_rel(ks, b, c),
    ensures
        above_rel(ks, a, c),
{
    lemma_within_trans(ks[a], ks[b], ks[c]);
    if within(ks[c], ks[a]) {
        lemma_within_trans(ks[c], ks[a], ks[b]);
    }
    lemma_meets_symmetric(ks[a], ks[b]);
    lemma_meets_within(ks[b], ks[a], ks[c]);
    lemma_meets_symmetric(ks[c], ks[a]);
}

/// No two groups are supergroups of each other, and no group is its own.
pub proof fn lemma_above_asymmetric(ks: Seq<Seq<u32>>, a: int, b: int)
    requires
        above_rel(ks, a, b),
    ensures
        !above_rel(ks, b, a),
        !above_rel(ks, a, a),
{
}

/// Two groups meet without order symmetrically.
pub proof fn lemma_inter_symmetric(ks: Seq<Seq<u32>>, a: int, b: int)
    ensures
        inter_rel(ks, a, b) == inter_rel(ks, b, a),
{
    lemma_meets_symmetric(ks[a], ks[b]);
}

/// The greatest strict subgroups of a group are pairwise unordered: none
/// has all the keys of another.
pub proof fn lemma_pred_antichain(ks: Seq<Seq<u32>>, a: int, b: int, g: int)
    requires
        0 <= a < ks.len(),
        0 <= b < ks.len(),
        0 <= g < ks.len(),
        pred_rel(ks, a, g),
        pred_rel(ks, b, g),
        a != b,
    ensures
        !within(ks[a], ks[b]),
{
    if within(ks[a], ks[b]) {
        if within(ks[b], ks[a]) {
            if a < b {
                assert(within(ks[a], ks[b]) && within(ks[b], ks[a]));
                assert(exists|c: int| 0 <= c < b && #[trigger] within(ks[c], ks[b]) && within(ks[b], ks[c]));
            } else {
                assert(exists|c: int| 0 <= c < a && #[trigger] within(ks[c], ks[a]) && within(ks[a], ks[c]));
            }
        } else {
            assert(strictly_within(ks[a], ks[b]) && strictly_within(ks[b], ks[g]));
            assert(exists|c: int|
                0 <= c < ks.len() && #[trigger] strictly_within(ks[a], ks[c]) && strictly_within(ks[c], ks[g]));
        }
    }
}

/// Strictly increasing.
pub open spec fn increasing(s: Seq<usize>) -> bool {
    forall|i: int, j: int| 0 <= i < j < s.len() ==> s[i] < s[j]
}

/// `s` lists, in increasing order, the indices below `n` that `p` holds of.
pub open spec fn lists(s: Seq<usize>, n: nat, p: spec_fn(int) -> bool) -> bool {
    &&& increasing(s)
    &&& forall|i: int| 0 <= i < s.len() ==> s[i] < n
    &&& forall|x: usize| #[trigger] s.contains(x) <==> x < n && p(x as int)
}

pub proof fn lemma_increasing_len(s: Seq<usize>, n: nat)
    requires
        increasing(s),
        forall|i: int| 0 <= i < s.len() ==> s[i] < n,
    ensures
        s.len() <= n,
        s.no_duplicates(),
{
    if s.len() > 0 {
        assert forall|i: int| 0 <= i < s.len() implies s[i] >= i by {
            lemma_increasing_ge(s, i);
        }
        assert(s[s.len() - 1] >= s.len() - 1);
    }
}

proof fn lemma_increasing_ge(s: Seq<usize>, i: int)
    requires
        increasing(s),
        0 <= i < s.len(),
    ensures
        s[i] >= i,
    decreases i,
{
    if i > 0 {
        lemma_increasing_ge(s, i - 1);
    }
}

/// Whether the keycode is among the keys.
pub fn contains_code(keys: &Vec<u32>, c: u32) -> (r: bool)
    ensures
        r == keys@.contains(c),
{
    let mut i: usize = 0;
    while i < keys.len()
        invariant
            i <= keys@.len(),
            forall|j: int| 0 <= j < i ==> keys@[j] != c,
        decreases keys@.len() - i,
    {
        if keys[i] == c {
            return true;
        }
        i += 1;
    }
    false
}

/// Whether every key of `a` is a key of `b`.
pub fn is_within(a: &Vec<u32>, b: &Vec<u32>) -> (r: bool)
    ensures
        r == within(a@, b@),
{
    let mut i: usize = 0;
    while i < a.len()
        invariant
            i <= a@.len(),
            forall|j: int| 0 <= j < i ==> b@.contains(#[trigger] a@[j]),
        decreases a@.len() - i,
    {
        if !contains_code(b, a[i]) {
            return false;
        }
        i += 1;
    }
    true
}

/// Whether `a` and `b` share no key.
pub fn is_disjoint(a: &Vec<u32>, b: &Vec<u32>) -> (r: bool)
    ensures
        r == !meets(a@, b@),
{
    let mut i: usize = 0;
    while i < a.len()
        invariant
            i <= a@.len(),
            forall|j: int| 0 <= j < i ==> !b@.contains(#[trigger] a@[j]),
        decreases a@.len() - i,
    {
        if contains_code(b, a[i]) {
            return false;
        }
        i += 1;
    }
    true
}

pub proof fn lemma_subrange_step(s: Seq<usize>, i: int)
    requires
        0 <= i < s.len(),
    ensures
        forall|x: usize|
            #[trigger] s.subrange(0, i + 1).contains(x) == (s.subrange(0, i).contains(x) || x == s[i]),
{
    let t = s.subrange(0, i + 1);
    let u = s.subrange(0, i);
    assert forall|x: usize| #[trigger] t.contains(x) == (u.contains(x) || x == s[i]) by {
        if t.contains(x) {
            let j = choose|j: int| 0 <= j < t.len() && t[j] == x;
            if j < i {
                assert(u[j] == x);
            }
        }
        if u.contains(x) {
            let j = choose|j: int| 0 <= j < u.len() && u[j] == x;
            assert(t[j] == x);
        }
        if x == s[i] {
            assert(t[i] == x);
        }
    }
}

/// Some entry of `col` has all the keys of group `c`.
pub open spec fn covered(ks: Seq<Seq<u32>>, col: Seq<usize>, c: int) -> bool {
    exists|i: int| 0 <= i < col.len() && within(ks[c], ks[col[i] as int])
}

/// What the list of greatest subgroups of group `b` keeps while the groups
/// below `n` have been looked at: it lists, increasingly, strict subgroups of
/// `b`, none within another, the first of its key set, and together they
/// cover every strict subgroup of `b` seen so far.
pub open spec fn below_inv(ks: Seq<Seq<u32>>, col: Seq<usize>, b: int, n: int) -> bool {
    &&& increasing(col)
    &&& forall|i: int| 0 <= i < col.len() ==> col[i] < n
    &&& forall|i: int| 0 <= i < col.len() ==> above_rel(ks, #[trigger] col[i] as int, b)
    &&& forall|i: int, j: int|
        0 <= i < col.len() && 0 <= j < col.len() && i != j ==> !#[trigger] within(
            ks[col[i] as int],
            ks[col[j] as int],
        )
    &&& forall|c: int| 0 <= c < n && above_rel(ks, c, b) ==> #[trigger] covered(ks, col, c)
    &&& forall|i: int, c: int|
        0 <= i < col.len() && 0 <= c < col[i] ==> !(#[trigger] within(ks[c], ks[col[i] as int]) && within(
            ks[col[i] as int],
            ks[c],
        ))
}

proof fn lemma_within_trans(a: Seq<u32>, b: Seq<u32>, c: Seq<u32>)
    requires
        within(a, b),
        within(b, c),
    ensures
        within(a, c),
{
    assert forall|i: int| 0 <= i < a.len() implies c.contains(#[trigger] a[i]) by {
        assert(b.contains(a[i]));
        let j = choose|j: int| 0 <= j < b.len() && b[j] == a[i];
        assert(c.contains(b[j]));
    }
}

proof fn lemma_meets_within(a: Seq<u32>, b: Seq<u32>, c: Seq<u32>)
    requires
        meets(a, b),
        within(a, c),
    ensures
        meets(c, b),
{
    let i = choose|i: int| 0 <= i < a.len() && b.contains(#[trigger] a[i]);
    assert(c.contains(a[i]));
    let j = choose|j: int| 0 <= j < c.len() && c[j] == a[i];
    assert(b.contains(c[j]));
}

/// At the end, the invariant describes exactly the greatest strict subgroups.
pub proof fn lemma_below_final(ks: Seq<Seq<u32>>, col: Seq<usize>, b: int)
    requires
        below_inv(ks, col, b, ks.len() as int),
        0 <= b < ks.len(),
    ensures
        lists(col, ks.len(), |a: int| pred_rel(ks, a, b)),
{
    let n = ks.len() as int;
    assert forall|x: usize| #[trigger] col.contains(x) <==> x < n && pred_rel(ks, x as int, b) by {
        if col.contains(x) {
            let i = choose|i: int| 0 <= i < col.len() && col[i] == x;
            assert(above_rel(ks, col[i] as int, b));
            if exists|c: int|
                0 <= c < ks.len() && #[trigger] strictly_within(ks[x as int], ks[c]) && strictly_within(
                    ks[c],
                    ks[b],
                ) {
                let c = choose|c: int|
                    0 <= c < ks.len() && #[trigger] strictly_within(ks[x as int], ks[c]) && strictly_within(
                        ks[c],
                        ks[b],
                    );
                lemma_meets_within(ks[x as int], ks[b], ks[c]);
                assert(c != b);
                assert(above_rel(ks, c, b));
                assert(covered(ks, col, c));
                let j = choose|j: int| 0 <= j < col.len() && within(ks[c], ks[col[j] as int]);
                lemma_within_trans(ks[x as int], ks[c], ks[col[j] as int]);
                if j == i {
                    assert(within(ks[c], ks[x as int]));
                }
                assert(!within(ks[col[i] as int], ks[col[j] as int]));
            }
            if exists|c: int| 0 <= c < x && #[trigger] within(ks[c], ks[x as int]) && within(ks[x as int], ks[c]) {
                let c = choose|c: int| 0 <= c < x && #[trigger] within(ks[c], ks[x as int]) && within(ks[x as int], ks[c]);
                assert(within(ks[c], ks[col[i] as int]));
            }
        }
        if x < n && pred_rel(ks, x as int, b) {
            assert(covered(ks, col, x as int));
            let j = choose|j: int| 0 <= j < col.len() && within(ks[x as int], ks[col[j] as int]);
            let y = col[j] as int;
            assert(above_rel(ks, y, b));
            if !within(ks[y], ks[x as int]) {
                assert(strictly_within(ks[x as int], ks[y]));
                assert(strictly_within(ks[y], ks[b]));
            }
            if y < x {
                assert(within(ks[y], ks[x as int]) && within(ks[x as int], ks[y]));
            } else if y > x {
                assert(within(ks[x as int], ks[col[j] as int]));
            }
            assert(col[j] == x);
        }
    }
}

/// The entries of `col` that group `a` does not include, in order.
fn drop_within(mods: &Vec<ModifierDecl>, col: &Vec<usize>, a: usize) -> (r: Vec<usize>)
    requires
        a < mods@.len(),
        forall|i: int| 0 <= i < col@.len() ==> col@[i] < mods@.len(),
        increasing(col@),
    ensures
        increasing(r@),
        forall|i: int| 0 <= i < r@.len() ==> col@.contains(#[trigger] r@[i]),
        forall|x: usize|
            #[trigger] r@.contains(x) <==> col@.contains(x) && !within(
                mod_keys(mods@)[x as int],
                mod_keys(mods@)[a as int],
            ),
{
    let ghost ks = mod_keys(mods@);
    let mut r: Vec<usize> = Vec::new();
    let mut i: usize = 0;
    while i < col.len()
        invariant
            i <= col@.len(),
            a < mods@.len(),
            ks == mod_keys(mods@),
            forall|j: int| 0 <= j < col@.len() ==> col@[j] < mods@.len(),
            increasing(col@),
            increasing(r@),
            forall|j: int| 0 <= j < r@.len() ==> col@.subrange(0, i as int).contains(#[trigger] r@[j]),
            i < col@.len() ==> forall|j: int| 0 <= j < r@.len() ==> #[trigger] r@[j] < col@[i as int],
            forall|x: usize|
                #[trigger] r@.contains(x) <==> col@.subrange(0, i as int).contains(x) && !within(
                    ks[x as int],
                    ks[a as int],
                ),
        decreases col@.len() - i,
    {
        let y = col[i];
        proof {
            lemma_subrange_step(col@, i as int);
        }
        let ghost r0 = r@;
        if !is_within(&mods[y].keys, &mods[a].keys) {
            r.push(y);
            proof {
                assert forall|x: usize| #[trigger] r@.contains(x) <==> r0.contains(x) || x == y by {
                    if r@.contains(x) {
                        let j = choose|j: int| 0 <= j < r@.len() && r@[j] == x;
                        if j < r0.len() {
                            assert(r0[j] == x);
                        }
                    }
                    if r0.contains(x) {
                        let j = choose|j: int| 0 <= j < r0.len() && r0[j] == x;
                        assert(r@[j] == x);
                    }
                    if x == y {
                        assert(r@[r0.len() as int] == x);
                    }
                }
            }
        }
        proof {
            assert forall|j: int| 0 <= j < r@.len() implies col@.subrange(0, i + 1).contains(
                #[trigger] r@[j],
            ) by {
                if j < r0.len() {
                    assert(r@[j] == r0[j]);
                    assert(col@.subrange(0, i as int).contains(r0[j]));
                }
            }
            if i + 1 < col@.len() {
                assert forall|j: int| 0 <= j < r@.len() implies #[trigger] r@[j] < col@[i + 1] by {
                    if j < r0.len() {
                        assert(r@[j] == r0[j]);
                    }
                }
            }
        }
        i += 1;
    }
    proof {
        assert(col@.subrange(0, col@.len() as int) =~= col@);
        assert forall|j: int| 0 <= j < r@.len() implies col@.contains(#[trigger] r@[j]) by {
            assert(col@.subrange(0, i as int).contains(r@[j]));
        }
    }
    r
}

/// Whether some entry of `col` has all the keys of group `a`.
fn any_covers(mods: &Vec<ModifierDecl>, col: &Vec<usize>, a: usize) -> (r: bool)
    requires
        a < mods@.len(),
        forall|i: int| 0 <= i < col@.len() ==> col@[i] < mods@.len(),
    ensures
        r == covered(mod_keys(mods@), col@, a as int),
{
    let ghost ks = mod_keys(mods@);
    let mut i: usize = 0;
    while i < col.len()
        invariant
            i <= col@.len(),
            a < mods@.len(),
            ks == mod_keys(mods@),
            forall|j: int| 0 <= j < col@.len() ==> col@[j] < mods@.len(),
            forall|j: int| 0 <= j < i ==> !within(ks[a as int], #[trigger] ks[col@[j] as int]),
        decreases col@.len() - i,
    {
        if is_within(&mods[a].keys, &mods[col[i]].keys) {
            return true;
        }
        i += 1;
    }
    false
}

/// Looking at group `a` keeps the invariant of the list of `b`: the list is
/// unchanged when `a` is not a strict subgroup of `b` or is covered already;
/// otherwise the entries within `a` leave and `a` joins at the end.
pub proof fn lemma_below_step(ks: Seq<Seq<u32>>, col: Seq<usize>, b: int, a: int, col2: Seq<usize>)
    requires
        below_inv(ks, col, b, a),
        0 <= a < ks.len(),
        0 <= b < ks.len(),
        !above_rel(ks, a, b) || covered(ks, col, a) ==> col2 == col,
        above_rel(ks, a, b) && !covered(ks, col, a) ==> {
            &&& col2.len() > 0
            &&& col2.last() == a
            &&& increasing(col2.drop_last())
            &&& forall|i: int| 0 <= i < col2.drop_last().len() ==> col.contains(#[trigger] col2.drop_last()[i])
            &&& forall|x: usize|
                #[trigger] col2.drop_last().contains(x) <==> col.contains(x) && !within(ks[x as int], ks[a])
        },
    ensures
        below_inv(ks, col2, b, a + 1),
{
    if above_rel(ks, a, b) && !covered(ks, col, a) {
        let d = col2.drop_last();
        let m = d.len() as int;
        assert(col2 =~= d.push(a as usize));
        assert forall|i: int| 0 <= i < m implies d[i] < a && above_rel(ks, #[trigger] d[i] as int, b)
            && !within(ks[d[i] as int], ks[a]) by {
            assert(col.contains(d[i]));
            assert(d.contains(d[i]));
        }
        assert forall|i: int, j: int| 0 <= i < j < col2.len() implies col2[i] < col2[j] by {
            if j == m {
                assert(col2[i] == d[i]);
            } else {
                assert(col2[i] == d[i] && col2[j] == d[j]);
            }
        }
        assert forall|i: int, j: int|
            0 <= i < col2.len() && 0 <= j < col2.len() && i != j implies !#[trigger] within(
            ks[col2[i] as int],
            ks[col2[j] as int],
        ) by {
            if i == m {
                if within(ks[a], ks[col2[j] as int]) {
                    assert(col2[j] == d[j]);
                    assert(col.contains(d[j]));
                    let k = choose|k: int| 0 <= k < col.len() && col[k] == d[j];
                    assert(within(ks[a], ks[col[k] as int]));
                }
            } else if j == m {
                assert(col2[i] == d[i]);
            } else {
                assert(col2[i] == d[i] && col2[j] == d[j]);
                assert(col.contains(d[i]) && col.contains(d[j]));
                let ii = choose|k: int| 0 <= k < col.len() && col[k] == d[i];
                let jj = choose|k: int| 0 <= k < col.len() && col[k] == d[j];
                assert(d[i] != d[j]);
                assert(!within(ks[col[ii] as int], ks[col[jj] as int]));
            }
        }
        assert forall|c: int| 0 <= c < a + 1 && above_rel(ks, c, b) implies #[trigger] covered(ks, col2, c) by {
            if c == a {
                assert(within(ks[a], ks[col2[m] as int]));
            } else {
                assert(covered(ks, col, c));
                let k = choose|k: int| 0 <= k < col.len() && within(ks[c], ks[col[k] as int]);
                let y = col[k];
                assert(col.contains(y));
                if within(ks[y as int], ks[a]) {
                    lemma_within_trans(ks[c], ks[y as int], ks[a]);
                    assert(within(ks[c], ks[col2[m] as int]));
                } else {
                    assert(d.contains(y));
                    let l = choose|l: int| 0 <= l < d.len() && d[l] == y;
                    assert(col2[l] == y);
                    assert(within(ks[c], ks[col2[l] as int]));
                }
            }
        }
        assert forall|i: int, c: int|
            0 <= i < col2.len() && 0 <= c < col2[i] implies !(#[trigger] within(ks[c], ks[col2[i] as int])
            && within(ks[col2[i] as int], ks[c])) by {
            if i == m {
                if within(ks[c], ks[a]) && within(ks[a], ks[c]) {
                    lemma_within_trans(ks[c], ks[a], ks[b]);
                    if within(ks[b], ks[c]) {
                        lemma_within_trans(ks[b], ks[c], ks[a]);
                    }
                    lemma_meets_within(ks[a], ks[b], ks[c]);
                    assert(above_rel(ks, c, b));
                    assert(covered(ks, col, c));
                    let k = choose|k: int| 0 <= k < col.len() && within(ks[c], ks[col[k] as int]);
                    lemma_within_trans(ks[a], ks[c], ks[col[k] as int]);
                    assert(covered(ks, col, a));
                }
            } else {
                assert(col2[i] == d[i]);
                assert(col.contains(d[i]));
                let k = choose|k: int| 0 <= k < col.len() && col[k] == d[i];
                assert(!(within(ks[c], ks[col[k] as int]) && within(ks[col[k] as int], ks[c])));
            }
        }
    } else {
        assert forall|c: int| 0 <= c < a + 1 && above_rel(ks, c, b) implies #[trigger] covered(ks, col2, c) by {
            if c < a {
                assert(covered(ks, col, c));
            }
        }
    }
}

proof fn lemma_lists_push(s: Seq<usize>, n: nat, p: spec_fn(int) -> bool, b: usize)
    requires
        lists(s, b as nat, p),
        b < n,
    ensures
        p(b as int) ==> lists(s.push(b), (b + 1) as nat, p),
        !p(b as int) ==> lists(s, (b + 1) as nat, p),
{
    if p(b as int) {
        let t = s.push(b);
        assert forall|x: usize| #[trigger] t.contains(x) <==> x < b + 1 && p(x as int) by {
            if t.contains(x) {
                let j = choose|j: int| 0 <= j < t.len() && t[j] == x;
                if j < s.len() {
                    assert(s[j] == x);
                    assert(s.contains(x));
                }
            }
            if x < b + 1 && p(x as int) {
                if x < b {
                    assert(s.contains(x));
                    let j = choose|j: int| 0 <= j < s.len() && s[j] == x;
                    assert(t[j] == x);
                } else {
                    assert(t[s.len() as int] == x);
                }
            }
        }
    } else {
        assert forall|x: usize| #[trigger] s.contains(x) <==> x < b + 1 && p(x as int) by {
            if s.contains(x) {
                let j = choose|j: int| 0 <= j < s.len() && s[j] == x;
            }
        }
    }
}

/// For each group: its supergroups, its greatest strict subgroups and the
/// groups it meets without order, each as an increasing list of indices.
pub fn build_edges(mods: &Vec<ModifierDecl>) -> (r: (Vec<Vec<usize>>, Vec<Vec<usize>>, Vec<Vec<usize>>))
    ensures
        r.0@.len() == mods@.len(),
        r.1@.len() == mods@.len(),
        r.2@.len() == mods@.len(),
        forall|g: int|
            0 <= g < mods@.len() ==> lists(
                #[trigger] r.0@[g]@,
                mods@.len(),
                |b: int| above_rel(mod_keys(mods@), g, b),
            ),
        forall|g: int|
            0 <= g < mods@.len() ==> lists(
                #[trigger] r.1@[g]@,
                mods@.len(),
                |a: int| pred_rel(mod_keys(mods@), a, g),
            ),
        forall|g: int|
            0 <= g < mods@.len() ==> lists(
                #[trigger] r.2@[g]@,
                mods@.len(),
                |b: int| inter_rel(mod_keys(mods@), g, b),
            ),
{
    let ghost ks = mod_keys(mods@);
    let n = mods.len();
    let mut above: Vec<Vec<usize>> = Vec::new();
    let mut below: Vec<Vec<usize>> = Vec::new();
    let mut inter: Vec<Vec<usize>> = Vec::new();
    let mut i: usize = 0;
    while i < n
        invariant
            i <= n,
            n == mods@.len(),
            above@.len() == i,
            below@.len() == i,
            inter@.len() == i,
            forall|g: int| 0 <= g < i ==> (#[trigger] above@[g])@.len() == 0,
            forall|g: int| 0 <= g < i ==> (#[trigger] below@[g])@.len() == 0,
            forall|g: int| 0 <= g < i ==> (#[trigger] inter@[g])@.len() == 0,
        decreases n - i,
    {
        above.push(Vec::new());
        below.push(Vec::new());
        inter.push(Vec::new());
        i += 1;
    }
    proof {
        assert forall|c: int| 0 <= c < n implies below_inv(ks, #[trigger] below@[c]@, c, 0) by {
            assert(below@[c]@.len() == 0);
        }
    }
    let mut a: usize = 0;
    while a < n
        invariant
            a <= n,
            n == mods@.len(),
            ks == mod_keys(mods@),
            above@.len() == n,
            below@.len() == n,
            inter@.len() == n,
            forall|g: int|
                0 <= g < a ==> lists(#[trigger] above@[g]@, n as nat, |b: int| above_rel(ks, g, b)),
            forall|g: int|
                0 <= g < a ==> lists(#[trigger] inter@[g]@, n as nat, |b: int| inter_rel(ks, g, b)),
            forall|g: int| a <= g < n ==> (#[trigger] above@[g])@.len() == 0,
            forall|g: int| a <= g < n ==> (#[trigger] inter@[g])@.len() == 0,
            forall|c: int| 0 <= c < n ==> below_inv(ks, #[trigger] below@[c]@, c, a as int),
        decreases n - a,
    {
        let mut b: usize = 0;
        proof {
            assert(lists(above@[a as int]@, 0, |x: int| above_rel(ks, a as int, x)));
            assert(lists(inter@[a as int]@, 0, |x: int| inter_rel(ks, a as int, x)));
        }
        while b < n
            invariant
                a < n,
                b <= n,
                n == mods@.len(),
                ks == mod_keys(mods@),
                above@.len() == n,
                below@.len() == n,
                inter@.len() == n,
                forall|g: int|
                    0 <= g < a ==> lists(#[trigger] above@[g]@, n as nat, |x: int| above_rel(ks, g, x)),
                forall|g: int|
                    0 <= g < a ==> lists(#[trigger] inter@[g]@, n as nat, |x: int| inter_rel(ks, g, x)),
                forall|g: int| a < g < n ==> (#[trigger] above@[g])@.len() == 0,
                forall|g: int| a < g < n ==> (#[trigger] inter@[g])@.len() == 0,
                lists(above@[a as int]@, b as nat, |x: int| above_rel(ks, a as int, x)),
                lists(inter@[a as int]@, b as nat, |x: int| inter_rel(ks, a as int, x)),
                forall|c: int|
                    0 <= c < n ==> below_inv(
                        ks,
                        #[trigger] below@[c]@,
                        c,
                        if c < b {
                            a + 1
                        } else {
                            a as int
                        },
                    ),
            decreases n - b,
        {
            let ghost above0 = above@;
            let ghost inter0 = inter@;
            let ghost below0 = below@;
            let ghost col = below@[b as int]@;
            proof {
                lemma_lists_push(above0[a as int]@, n as nat, |x: int| above_rel(ks, a as int, x), b);
                lemma_lists_push(inter0[a as int]@, n as nat, |x: int| inter_rel(ks, a as int, x), b);
                assert(below_inv(ks, col, b as int, a as int));
                assert forall|i: int| 0 <= i < col.len() implies col[i] < mods@.len() by {
                }
            }
            if a != b && !is_disjoint(&mods[a].keys, &mods[b].keys) && !is_within(&mods[b].keys, &mods[a].keys) {
                if is_within(&mods[a].keys, &mods[b].keys) {
                    assert(above_rel(ks, a as int, b as int));
                    above[a].push(b);
                    if !any_covers(mods, &below[b], a) {
                        let mut d = drop_within(mods, &below[b], a);
                        let ghost dd = d@;
                        d.push(a);
                        assert(d@.drop_last() =~= dd);
                        proof {
                            lemma_below_step(ks, col, b as int, a as int, d@);
                        }
                        below.set(b, d);
                    } else {
                        proof {
                            lemma_below_step(ks, col, b as int, a as int, col);
                        }
                    }
                } else {
                    assert(inter_rel(ks, a as int, b as int));
                    inter[a].push(b);
                    proof {
                        lemma_below_step(ks, col, b as int, a as int, col);
                    }
                }
            } else {
                proof {
                    lemma_below_step(ks, col, b as int, a as int, col);
                }
            }
            proof {
                assert forall|c: int| 0 <= c < n implies below_inv(
                    ks,
                    #[trigger] below@[c]@,
                    c,
                    if c < b + 1 {
                        a + 1
                    } else {
                        a as int
                    },
                ) by {
                    if c != b {
                        assert(below@[c] == below0[c]);
                    }
                }
            }
            b += 1;
        }
        a += 1;
    }
    proof {
        assert forall|g: int| 0 <= g < n implies lists(
            #[trigger] below@[g]@,
            n as nat,
            |x: int| pred_rel(ks, x, g),
        ) by {
            lemma_below_final(ks, below@[g]@, g);
        }
    }
    (above, below, inter)
}

/// The index of the keycode among the known keycodes, if it is known.
pub fn find_code(codes: &Vec<u32>, c: u32) -> (r: Option<usize>)
    ensures
        match r {
            Some(k) => k < codes@.len() && codes@[k as int] == c,
            None => !codes@.contains(c),
        },
{
    let mut i: usize = 0;
    while i < codes.len()
        invariant
            i <= codes@.len(),
            forall|j: int| 0 <= j < i ==> codes@[j] != c,
        decreases codes@.len() - i,
    {
        if codes[i] == c {
            return Some(i);
        }
        i += 1;
    }
    None
}

/// Some group below `i`, or one of the first `j` keys of group `i`, has the keycode.
pub open spec fn seen(ks: Seq<Seq<u32>>, i: int, j: int, c: u32, g: int) -> bool {
    (0 <= g < i && ks[g].contains(c)) || (g == i && ks[i].subrange(0, j).contains(c))
}

/// The keycodes of the modifier groups, each once, with the increasing list
/// of the groups that each belongs to.
pub fn modifier_key_table(mods: &Vec<ModifierDecl>) -> (r: (Vec<u32>, Vec<Vec<usize>>))
    requires
        forall|g: int| 0 <= g < mods@.len() ==> (#[trigger] mods@[g]).keys@.no_duplicates(),
    ensures
        r.0@.no_duplicates(),
        r.0@.len() == r.1@.len(),
        forall|c: u32|
            #[trigger] r.0@.contains(c) <==> exists|g: int|
                0 <= g < mods@.len() && #[trigger] mod_keys(mods@)[g].contains(c),
        forall|k: int|
            0 <= k < r.0@.len() ==> lists(
                #[trigger] r.1@[k]@,
                mods@.len(),
                |g: int| mod_keys(mods@)[g].contains(r.0@[k]),
            ),
{
    let ghost ks = mod_keys(mods@);
    let n = mods.len();
    let mut codes: Vec<u32> = Vec::new();
    let mut kgroups: Vec<Vec<usize>> = Vec::new();
    let mut i: usize = 0;
    while i < n
        invariant
            i <= n,
            n == mods@.len(),
            ks == mod_keys(mods@),
            forall|g: int| 0 <= g < n ==> (#[trigger] ks[g]).no_duplicates(),
            codes@.no_duplicates(),
            codes@.len() == kgroups@.len(),
            forall|c: u32|
                #[trigger] codes@.contains(c) <==> exists|g: int| 0 <= g < i && #[trigger] ks[g].contains(c),
            forall|k: int|
                0 <= k < codes@.len() ==> lists(
                    #[trigger] kgroups@[k]@,
                    i as nat,
                    |g: int| ks[g].contains(codes@[k]),
                ),
        decreases n - i,
    {
        let keys = &mods[i].keys;
        let mut j: usize = 0;
        proof {
            assert(ks[i as int] == keys@);
            assert forall|k: int| 0 <= k < codes@.len() implies lists(
                #[trigger] kgroups@[k]@,
                (i + 1) as nat,
                |g: int| seen(ks, i as int, 0, codes@[k], g),
            ) by {
                assert(ks[i as int].subrange(0, 0) =~= Seq::<u32>::empty());
                assert forall|x: usize| #[trigger] kgroups@[k]@.contains(x) implies x < i by {
                    let l = choose|l: int| 0 <= l < kgroups@[k]@.len() && kgroups@[k]@[l] == x;
                }
            }
        }
        while j < keys.len()
            invariant
                i < n,
                j <= keys@.len(),
                n == mods@.len(),
                ks == mod_keys(mods@),
                keys@ == ks[i as int],
                forall|g: int| 0 <= g < n ==> (#[trigger] ks[g]).no_duplicates(),
                codes@.no_duplicates(),
                codes@.len() == kgroups@.len(),
                forall|c: u32|
                    #[trigger] codes@.contains(c) <==> (exists|g: int| 0 <= g < i && #[trigger] ks[g].contains(c))
                        || keys@.subrange(0, j as int).contains(c),
                forall|k: int|
                    0 <= k < codes@.len() ==> lists(
                        #[trigger] kgroups@[k]@,
                        (i + 1) as nat,
                        |g: int| seen(ks, i as int, j as int, codes@[k], g),
                    ),
            decreases keys@.len() - j,
        {
            let c = keys[j];
            let ghost codes0 = codes@;
            let ghost kg0 = kgroups@;
            proof {
                assert forall|x: u32| #[trigger] keys@.subrange(0, j + 1).contains(x) == (keys@.subrange(
                    0,
                    j as int,
                ).contains(x) || x == c) by {
                    let t = keys@.subrange(0, j + 1);
                    let u = keys@.subrange(0, j as int);
                    if t.contains(x) {
                        let l = choose|l: int| 0 <= l < t.len() && t[l] == x;
                        if l < j {
                            assert(u[l] == x);
                        }
                    }
                    if u.contains(x) {
                        let l = choose|l: int| 0 <= l < u.len() && u[l] == x;
                        assert(t[l] == x);
                    }
                    if x == c {
                        assert(t[j as int] == x);
                    }
                }
                assert(!keys@.subrange(0, j as int).contains(c)) by {
                    if keys@.subrange(0, j as int).contains(c) {
                        let l = choose|l: int| 0 <= l < j && keys@.subrange(0, j as int)[l] == c;
                        assert(keys@[l] == keys@[j as int]);
                    }
                }
            }
            match find_code(&codes, c) {
                Some(k) => {
                    proof {
                        let p = |g: int| seen(ks, i as int, j as int, codes@[k as int], g);
                        assert(!kg0[k as int]@.contains(i)) by {
                            if kg0[k as int]@.contains(i) {
                                assert(p(i as int));
                            }
                        }
                        assert forall|l: int| 0 <= l < kg0[k as int]@.len() implies kg0[k as int]@[l] < i by {
                            assert(kg0[k as int]@.contains(kg0[k as int]@[l]));
                        }
                    }
                    kgroups[k].push(i);
                    proof {
                        assert forall|m: int| 0 <= m < codes@.len() implies lists(
                            #[trigger] kgroups@[m]@,
                            (i + 1) as nat,
                            |g: int| seen(ks, i as int, (j + 1) as int, codes@[m], g),
                        ) by {
                            if m == k {
                                let s = kgroups@[m]@;
                                assert(s == kg0[m]@.push(i));
                                assert forall|x: usize| #[trigger] s.contains(x) <==> x < i + 1 && seen(
                                    ks,
                                    i as int,
                                    (j + 1) as int,
                                    codes@[m],
                                    x as int,
                                ) by {
                                    if s.contains(x) {
                                        let l = choose|l: int| 0 <= l < s.len() && s[l] == x;
                                        if l < kg0[m]@.len() {
                                            assert(kg0[m]@[l] == x);
                                            assert(kg0[m]@.contains(x));
                                        }
                                    }
                                    if x < i + 1 && seen(ks, i as int, (j + 1) as int, codes@[m], x as int) {
                                        if x < i {
                                            assert(seen(ks, i as int, j as int, codes@[m], x as int));
                                            assert(kg0[m]@.contains(x));
                                            let l = choose|l: int| 0 <= l < kg0[m]@.len() && kg0[m]@[l] == x;
                                            assert(s[l] == x);
                                        } else {
                                            assert(s[kg0[m]@.len() as int] == x);
                                        }
                                    }
                                }
                            } else {
                                assert(kgroups@[m] == kg0[m]);
                                assert(codes@[m] != c);
                                let s = kgroups@[m]@;
                                assert forall|x: usize| #[trigger] s.contains(x) <==> x < i + 1 && seen(
                                    ks,
                                    i as int,
                                    (j + 1) as int,
                                    codes@[m],
                                    x as int,
                                ) by {
                                    assert(seen(ks, i as int, (j + 1) as int, codes@[m], x as int) == seen(
                                        ks,
                                        i as int,
                                        j as int,
                                        codes@[m],
                                        x as int,
                                    ));
                                }
                            }
                        }
                        assert forall|x: u32| #[trigger] codes@.contains(x) <==> (exists|g: int|
                            0 <= g < i && #[trigger] ks[g].contains(x)) || keys@.subrange(0, j + 1).contains(x) by {
                            if x == c {
                                assert(codes@[k as int] == c);
                            }
                        }
                    }
                },
                None => {
                    codes.push(c);
                    let mut v: Vec<usize> = Vec::new();
                    v.push(i);
                    kgroups.push(v);
                    proof {
                        assert(codes@.no_duplicates()) by {
                            assert forall|a: int, b: int| 0 <= a < b < codes@.len() implies codes@[a] != codes@[b] by {
                                if b == codes0.len() {
                                    assert(codes0.contains(codes0[a]));
                                } else {
                                    assert(codes0[a] != codes0[b]);
                                }
                            }
                        }
                        assert forall|x: u32| #[trigger] codes@.contains(x) <==> (exists|g: int|
                            0 <= g < i && #[trigger] ks[g].contains(x)) || keys@.subrange(0, j + 1).contains(x) by {
                            if codes@.contains(x) && x != c {
                                let l = choose|l: int| 0 <= l < codes@.len() && codes@[l] == x;
                                assert(codes0[l] == x);
                                assert(codes0.contains(x));
                            }
                            if codes0.contains(x) {
                                let l = choose|l: int| 0 <= l < codes0.len() && codes0[l] == x;
                                assert(codes@[l] == x);
                            }
                            if x == c {
                                assert(codes@[codes0.len() as int] == c);
                            }
                        }
                        assert forall|m: int| 0 <= m < codes@.len() implies lists(
                            #[trigger] kgroups@[m]@,
                            (i + 1) as nat,
                            |g: int| seen(ks, i as int, (j + 1) as int, codes@[m], g),
                        ) by {
                            if m == codes0.len() {
                                let s = kgroups@[m]@;
                                assert(s =~= seq![i]);
                                assert forall|x: usize| #[trigger] s.contains(x) <==> x < i + 1 && seen(
                                    ks,
                                    i as int,
                                    (j + 1) as int,
                                    c,
                                    x as int,
                                ) by {
                                    if x < i && ks[x as int].contains(c) {
                                        assert(codes0.contains(c));
                                    }
                                    if x == i {
                                        assert(s[0] == x);
                                    }
                                }
                            } else {
                                assert(kgroups@[m] == kg0[m]);
                                assert(codes@[m] == codes0[m]);
                                assert(codes0[m] != c) by {
                                    assert(codes0.contains(codes0[m]));
                                }
                                let s = kgroups@[m]@;
                                assert forall|x: usize| #[trigger] s.contains(x) <==> x < i + 1 && seen(
                                    ks,
                                    i as int,
                                    (j + 1) as int,
                                    codes@[m],
                                    x as int,
                                ) by {
                                    assert(seen(ks, i as int, (j + 1) as int, codes@[m], x as int) == seen(
                                        ks,
                                        i as int,
                                        j as int,
                                        codes@[m],
                                        x as int,
                                    ));
                                }
                            }
                        }
                    }
                },
            }
            j += 1;
        }
        proof {
            assert(keys@.subrange(0, keys@.len() as int) =~= keys@);
            assert forall|c: u32| #[trigger] codes@.contains(c) <==> exists|g: int|
                0 <= g < i + 1 && #[trigger] ks[g].contains(c) by {
                if codes@.contains(c) && !(exists|g: int| 0 <= g < i && #[trigger] ks[g].contains(c)) {
                    assert(ks[i as int].contains(c));
                }
                if exists|g: int| 0 <= g < i + 1 && #[trigger] ks[g].contains(c) {
                    let g = choose|g: int| 0 <= g < i + 1 && #[trigger] ks[g].contains(c);
                    if g < i {
                    } else {
                        assert(keys@.subrange(0, j as int).contains(c));
                    }
                }
            }
            assert forall|k: int| 0 <= k < codes@.len() implies lists(
                #[trigger] kgroups@[k]@,
                (i + 1) as nat,
                |g: int| ks[g].contains(codes@[k]),
            ) by {
                let s = kgroups@[k]@;
                assert forall|x: usize| #[trigger] s.contains(x) <==> x < i + 1 && ks[x as int].contains(codes@[k]) by {
                    assert(seen(ks, i as int, j as int, codes@[k], x as int) == (x < i + 1 && ks[x as int].contains(codes@[k])));
                }
            }
        }
        i += 1;
    }
    (codes, kgroups)
}

/// The index of the last modifier named `id`, or -1 when none is.
pub open spec fn named_group(mods: Seq<ModifierDecl>, id: Seq<char>) -> int
    decreases mods.len(),
{
    if mods.len() == 0 {
        -1
    } else if mods.last().id@ == id {
        mods.len() - 1
    } else {
        named_group(mods.drop_last(), id)
    }
}

pub proof fn lemma_named_group_bounds(mods: Seq<ModifierDecl>, id: Seq<char>)
    ensures
        -1 <= named_group(mods, id) < mods.len(),
        named_group(mods, id) >= 0 ==> mods[named_group(mods, id)].id@ == id,
    decreases mods.len(),
{
    if mods.len() > 0 {
        lemma_named_group_bounds(mods.drop_last(), id);
    }
}

/// The index of the last action declared for keycode `c`, or -1 when none is.
pub open spec fn last_decl<Z>(actions: Seq<ActionDecl<Z>>, c: u32) -> int
    decreases actions.len(),
{
    if actions.len() == 0 {
        -1
    } else if actions.last().key == c {
        actions.len() - 1
    } else {
        last_decl(actions.drop_last(), c)
    }
}

/// The combos that an action declaration adds.
pub open spec fn decl_combos_of<Z>(mods: Seq<ModifierDecl>, a: ActionDecl<Z>) -> Seq<Combo<Z>> {
    Seq::new(
        a.modified@.len(),
        |i: int|
            Combo {
                action: a.modified@[i].action,
                group: named_group(mods, a.modified@[i].modifier@) as usize,
            },
    )
}

/// The combos declared for keycode `c`, in the order of their declarations.
pub open spec fn decl_combos<Z>(mods: Seq<ModifierDecl>, actions: Seq<ActionDecl<Z>>, c: u32) -> Seq<
    Combo<Z>,
>
    decreases actions.len(),
{
    if actions.len() == 0 {
        Seq::empty()
    } else {
        decl_combos(mods, actions.drop_last(), c) + (if actions.last().key == c {
            decl_combos_of(mods, actions.last())
        } else {
            Seq::empty()
        })
    }
}

/// Every combo names a declared modifier.
pub open spec fn combos_named<Z>(mods: Seq<ModifierDecl>, actions: Seq<ActionDecl<Z>>) -> bool {
    forall|t: int, i: int|
        0 <= t < actions.len() && 0 <= i < actions[t].modified@.len() ==> named_group(
            mods,
            #[trigger] actions[t].modified@[i].modifier@,
        ) >= 0
}

proof fn lemma_last_decl_absent<Z>(actions: Seq<ActionDecl<Z>>, c: u32)
    requires
        forall|u: int| 0 <= u < actions.len() ==> #[trigger] actions[u].key != c,
    ensures
        last_decl(actions, c) == -1,
    decreases actions.len(),
{
    if actions.len() > 0 {
        lemma_last_decl_absent(actions.drop_last(), c);
    }
}

proof fn lemma_decl_combos_absent<Z>(mods: Seq<ModifierDecl>, actions: Seq<ActionDecl<Z>>, c: u32)
    requires
        forall|u: int| 0 <= u < actions.len() ==> #[trigger] actions[u].key != c,
    ensures
        decl_combos(mods, actions, c) == Seq::<Combo<Z>>::empty(),
    decreases actions.len(),
{
    if actions.len() > 0 {
        lemma_decl_combos_absent(mods, actions.drop_last(), c);
    }
}

pub proof fn lemma_decl_combos_groups<Z>(mods: Seq<ModifierDecl>, actions: Seq<ActionDecl<Z>>, c: u32)
    requires
        combos_named(mods, actions),
    ensures
        forall|i: int|
            0 <= i < decl_combos(mods, actions, c).len() ==> (#[trigger] decl_combos(mods, actions, c)[i]).group
                < mods.len(),
    decreases actions.len(),
{
    if actions.len() > 0 {
        let d = actions.drop_last();
        assert(combos_named(mods, d)) by {
            assert forall|t: int, i: int| 0 <= t < d.len() && 0 <= i < d[t].modified@.len() implies named_group(
                mods,
                #[trigger] d[t].modified@[i].modifier@,
            ) >= 0 by {
                assert(d[t] == actions[t]);
            }
        }
        lemma_decl_combos_groups(mods, d, c);
        let a = actions.last();
        let x = decl_combos(mods, d, c);
        let y = if a.key == c {
            decl_combos_of(mods, a)
        } else {
            Seq::empty()
        };
        assert(decl_combos(mods, actions, c) == x + y);
        assert forall|i: int| 0 <= i < (x + y).len() implies (#[trigger] (x + y)[i]).group < mods.len() by {
            if i >= x.len() {
                let q = i - x.len();
                assert(named_group(mods, a.modified@[q].modifier@) >= 0);
                lemma_named_group_bounds(mods, a.modified@[q].modifier@);
            }
        }
    }
}

/// The index of the last modifier named `id`.
pub fn find_group(mods: &Vec<ModifierDecl>, id: &String) -> (r: usize)
    requires
        named_group(mods@, id@) >= 0,
    ensures
        r as int == named_group(mods@, id@),
{
    let mut found: usize = 0;
    let mut i: usize = 0;
    while i < mods.len()
        invariant
            i <= mods@.len(),
            named_group(mods@, id@) >= 0,
            named_group(mods@.subrange(0, i as int), id@) >= 0 ==> found as int == named_group(
                mods@.subrange(0, i as int),
                id@,
            ),
        decreases mods@.len() - i,
    {
        proof {
            assert(mods@.subrange(0, i + 1).drop_last() =~= mods@.subrange(0, i as int));
        }
        if mods[i].id == *id {
            found = i;
        }
        i += 1;
    }
    proof {
        assert(mods@.subrange(0, mods@.len() as int) =~= mods@);
    }
    found
}

/// Adds the action keys to the key table: keycodes not seen yet get a new
/// index, and each key takes the action, immediacy and latching of its last
/// declaration and the combos of all its declarations.
pub fn action_key_table<Z: Copy>(
    mods: &Vec<ModifierDecl>,
    actions: &Vec<ActionDecl<Z>>,
    codes: &mut Vec<u32>,
    kgroups: &mut Vec<Vec<usize>>,
) -> (r: (Vec<Option<Z>>, Vec<bool>, Vec<bool>, Vec<Vec<Combo<Z>>>))
    requires
        old(codes)@.no_duplicates(),
        old(codes)@.len() == old(kgroups)@.len(),
        combos_named(mods@, actions@),
    ensures
        final(codes)@.no_duplicates(),
        final(codes)@.len() == final(kgroups)@.len(),
        final(codes)@.len() >= old(codes)@.len(),
        final(codes)@.subrange(0, old(codes)@.len() as int) == old(codes)@,
        forall|c: u32|
            #[trigger] final(codes)@.contains(c) <==> old(codes)@.contains(c) || exists|t: int|
                0 <= t < actions@.len() && #[trigger] actions@[t].key == c,
        forall|k: int| 0 <= k < old(kgroups)@.len() ==> #[trigger] final(kgroups)@[k] == old(kgroups)@[k],
        forall|k: int|
            old(kgroups)@.len() <= k < final(kgroups)@.len() ==> (#[trigger] final(kgroups)@[k])@.len() == 0,
        r.0@.len() == final(codes)@.len(),
        r.1@.len() == final(codes)@.len(),
        r.2@.len() == final(codes)@.len(),
        r.3@.len() == final(codes)@.len(),
        forall|k: int|
            0 <= k < final(codes)@.len() ==> {
                let t = last_decl(actions@, final(codes)@[k]);
                &&& #[trigger] r.0@[k] == (if t >= 0 {
                    actions@[t].action
                } else {
                    None
                })
                &&& r.1@[k] == (t >= 0 && actions@[t].immediate)
                &&& r.2@[k] == (t >= 0 && actions@[t].latching)
                &&& r.3@[k]@ == decl_combos(mods@, actions@, final(codes)@[k])
            },
{
    let n0 = codes.len();
    let ghost codes0 = codes@;
    let ghost kg0 = kgroups@;
    let mut act: Vec<Option<Z>> = Vec::new();
    let mut imm: Vec<bool> = Vec::new();
    let mut lat: Vec<bool> = Vec::new();
    let mut cmb: Vec<Vec<Combo<Z>>> = Vec::new();
    let mut k: usize = 0;
    while k < n0
        invariant
            k <= n0,
            n0 == codes@.len(),
            codes@ == codes0,
            kgroups@ == kg0,
            act@.len() == k,
            imm@.len() == k,
            lat@.len() == k,
            cmb@.len() == k,
            forall|m: int|
                0 <= m < k ==> #[trigger] act@[m] == None::<Z> && !imm@[m] && !lat@[m] && cmb@[m]@.len() == 0,
        decreases n0 - k,
    {
        act.push(None);
        imm.push(false);
        lat.push(false);
        cmb.push(Vec::new());
        k += 1;
    }
    let mut t: usize = 0;
    assert(actions@.subrange(0, 0) =~= Seq::<ActionDecl<Z>>::empty());
    assert(codes@.subrange(0, n0 as int) =~= codes0);
    assert forall|m: int| 0 <= m < codes@.len() implies {
        let u = last_decl(actions@.subrange(0, 0), codes@[m]);
        &&& #[trigger] act@[m] == (if u >= 0 {
            actions@[u].action
        } else {
            None
        })
        &&& imm@[m] == (u >= 0 && actions@[u].immediate)
        &&& lat@[m] == (u >= 0 && actions@[u].latching)
        &&& cmb@[m]@ == decl_combos(mods@, actions@.subrange(0, 0), codes@[m])
    } by {
        assert(last_decl(actions@.subrange(0, 0), codes@[m]) == -1);
        assert(act@[m] == None::<Z> && cmb@[m]@.len() == 0);
        assert(cmb@[m]@ =~= decl_combos(mods@, actions@.subrange(0, 0), codes@[m]));
    }
    while t < actions.len()
        invariant
            t <= actions@.len(),
            n0 == codes0.len(),
            codes@.len() >= n0,
            codes0.no_duplicates(),
            codes0.len() == kg0.len(),
            combos_named(mods@, actions@),
            codes@.no_duplicates(),
            codes@.len() == kgroups@.len(),
            codes@.subrange(0, n0 as int) == codes0,
            forall|c: u32|
                #[trigger] codes@.contains(c) <==> codes0.contains(c) || exists|u: int|
                    0 <= u < t && #[trigger] actions@[u].key == c,
            forall|m: int| 0 <= m < n0 ==> #[trigger] kgroups@[m] == kg0[m],
            forall|m: int| n0 <= m < kgroups@.len() ==> (#[trigger] kgroups@[m])@.len() == 0,
            act@.len() == codes@.len(),
            imm@.len() == codes@.len(),
            lat@.len() == codes@.len(),
            cmb@.len() == codes@.len(),
            forall|m: int|
                0 <= m < codes@.len() ==> {
                    let u = last_decl(actions@.subrange(0, t as int), codes@[m]);
                    &&& #[trigger] act@[m] == (if u >= 0 {
                        actions@[u].action
                    } else {
                        None
                    })
                    &&& imm@[m] == (u >= 0 && actions@[u].immediate)
                    &&& lat@[m] == (u >= 0 && actions@[u].latching)
                    &&& cmb@[m]@ == decl_combos(mods@, actions@.subrange(0, t as int), codes@[m])
                },
        decreases actions@.len() - t,
    {
        let decl = &actions[t];
        let ghost pre = actions@.subrange(0, t as int);
        let ghost post = actions@.subrange(0, t + 1);
        proof {
            assert(post.drop_last() =~= pre);
            assert(post.last() == actions@[t as int]);
        }
        let ghost codes1 = codes@;
        let ghost act_h = act@;
        let ghost imm_h = imm@;
        let ghost lat_h = lat@;
        let ghost cmb_h = cmb@;
        let i = match find_code(codes, decl.key) {
            Some(i) => {
                proof {
                    assert(act_h[i as int] == act@[i as int]);
                    assert(cmb@[i as int]@ == decl_combos(mods@, pre, codes@[i as int]));
                }
                i
            },
            None => {
                let i = codes.len();
                codes.push(decl.key);
                kgroups.push(Vec::new());
                act.push(None);
                imm.push(false);
                lat.push(false);
                cmb.push(Vec::new());
                proof {
                    assert(codes@.no_duplicates()) by {
                        assert forall|a: int, b: int| 0 <= a < b < codes@.len() implies codes@[a] != codes@[b] by {
                            if b == codes1.len() {
                                assert(codes1.contains(codes1[a]));
                            } else {
                                assert(codes1[a] != codes1[b]);
                            }
                        }
                    }
                    assert(codes@.subrange(0, n0 as int) =~= codes1.subrange(0, n0 as int));
                    assert forall|c: u32| #[trigger] codes@.contains(c) <==> codes1.contains(c) || c == decl.key by {
                        if codes@.contains(c) && c != decl.key {
                            let l = choose|l: int| 0 <= l < codes@.len() && codes@[l] == c;
                            assert(codes1[l] == c);
                        }
                        if codes1.contains(c) {
                            let l = choose|l: int| 0 <= l < codes1.len() && codes1[l] == c;
                            assert(codes@[l] == c);
                        }
                        if c == decl.key {
                            assert(codes@[i as int] == c);
                        }
                    }
                    assert forall|u: int| 0 <= u < pre.len() implies #[trigger] pre[u].key != decl.key by {
                        if pre[u].key == decl.key {
                            assert(actions@[u].key == decl.key);
                            assert(codes1.contains(decl.key));
                        }
                    }
                    assert(last_decl(pre, decl.key) == -1) by {
                        lemma_last_decl_absent(pre, decl.key);
                    }
                    assert(decl_combos(mods@, pre, decl.key) =~= Seq::<Combo<Z>>::empty()) by {
                        lemma_decl_combos_absent(mods@, pre, decl.key);
                    }
                }
                i
            },
        };
        act.set(i, decl.action);
        imm.set(i, decl.immediate);
        lat.set(i, decl.latching);
        let mut q: usize = 0;
        let ghost c0 = cmb@[i as int]@;
        let ghost cmb0 = cmb@;
        let ghost act0 = act@;
        assert(c0 == decl_combos(mods@, pre, codes@[i as int]));
        assert(codes@[i as int] == decl.key);
        while q < decl.modified.len()
            invariant
                i < cmb@.len(),
                q <= decl.modified@.len(),
                decl == actions@[t as int],
                combos_named(mods@, actions@),
                t < actions@.len(),
                cmb@[i as int]@ == c0 + decl_combos_of(mods@, *decl).subrange(0, q as int),
                cmb@.len() == cmb0.len(),
                forall|m: int| 0 <= m < cmb@.len() && m != i ==> #[trigger] cmb@[m] == cmb0[m],
            decreases decl.modified@.len() - q,
        {
            let g = find_group(mods, &decl.modified[q].modifier);
            cmb[i].push(Combo { action: decl.modified[q].action, group: g });
            proof {
                assert(cmb@[i as int]@ =~= c0 + decl_combos_of(mods@, *decl).subrange(0, q + 1));
            }
            q += 1;
        }
        proof {
            assert(decl_combos_of(mods@, *decl).subrange(0, q as int) =~= decl_combos_of(mods@, *decl));
            assert(codes@[i as int] == decl.key);
            assert forall|c: u32| #[trigger] codes@.contains(c) <==> codes0.contains(c) || exists|u: int|
                0 <= u < t + 1 && #[trigger] actions@[u].key == c by {
                if c == decl.key {
                    assert(codes@.contains(c));
                }
            }
            assert forall|m: int| 0 <= m < codes@.len() implies {
                let u = last_decl(actions@.subrange(0, t + 1), codes@[m]);
                &&& #[trigger] act@[m] == (if u >= 0 {
                    actions@[u].action
                } else {
                    None
                })
                &&& imm@[m] == (u >= 0 && actions@[u].immediate)
                &&& lat@[m] == (u >= 0 && actions@[u].latching)
                &&& cmb@[m]@ == decl_combos(mods@, actions@.subrange(0, t + 1), codes@[m])
            } by {
                assert(post.drop_last() == pre);
                if m != i {
                    assert(m < codes1.len());
                    assert(codes@[m] == codes1[m]);
                    assert(act@[m] == act_h[m]);
                    assert(imm@[m] == imm_h[m]);
                    assert(lat@[m] == lat_h[m]);
                    assert(cmb@[m] == cmb_h[m]);
                    assert(codes@[m] != decl.key);
                    assert(last_decl(post, codes@[m]) == last_decl(pre, codes@[m]));
                    assert(decl_combos(mods@, post, codes@[m]) =~= decl_combos(mods@, pre, codes@[m]));
                    assert(cmb@[m] == cmb0[m]);
                } else {
                    assert(last_decl(post, codes@[m]) == t);
                    assert(decl_combos(mods@, post, codes@[m]) == decl_combos(mods@, pre, codes@[m])
                        + decl_combos_of(mods@, *decl));
                }
            }
        }
        t += 1;
    }
    proof {
        assert(actions@.subrange(0, t as int) =~= actions@);
        assert forall|k: int| 0 <= k < codes@.len() implies {
            let u = last_decl(actions@, codes@[k]);
            &&& #[trigger] act@[k] == (if u >= 0 {
                actions@[u].action
            } else {
                None
            })
            &&& imm@[k] == (u >= 0 && actions@[u].immediate)
            &&& lat@[k] == (u >= 0 && actions@[u].latching)
            &&& cmb@[k]@ == decl_combos(mods@, actions@, codes@[k])
        } by {
            assert(act@[k] == act@[k]);
        }
    }
    (act, imm, lat, cmb)
}

/// The number of keys of the group of a combo.
pub open spec fn combo_size<Z>(mods: Seq<ModifierDecl>, c: Combo<Z>) -> int {
    mods[c.group as int].keys@.len() as int
}

/// The combos go from the group with most keys to the group with fewest.
pub open spec fn by_size<Z>(mods: Seq<ModifierDecl>, cs: Seq<Combo<Z>>) -> bool {
    forall|i: int, j: int| 0 <= i < j < cs.len() ==> combo_size(mods, cs[i]) >= combo_size(mods, cs[j])
}

/// Sorts combos from the group with most keys to the group with fewest;
/// the order among groups of equal size is left open.
pub fn sort_combos<Z: Copy>(mods: &Vec<ModifierDecl>, cs: &Vec<Combo<Z>>) -> (r: Vec<Combo<Z>>)
    requires
        forall|i: int| 0 <= i < cs@.len() ==> (#[trigger] cs@[i]).group < mods@.len(),
    ensures
        r@.to_multiset() == cs@.to_multiset(),
        r@.len() == cs@.len(),
        by_size(mods@, r@),
        forall|i: int| 0 <= i < r@.len() ==> (#[trigger] r@[i]).group < mods@.len(),
{
    broadcast use vstd::seq_lib::group_to_multiset_ensures;

    let mut r: Vec<Combo<Z>> = Vec::new();
    let mut i: usize = 0;
    while i < cs.len()
        invariant
            i <= cs@.len(),
            forall|j: int| 0 <= j < cs@.len() ==> (#[trigger] cs@[j]).group < mods@.len(),
            r@.to_multiset() == cs@.subrange(0, i as int).to_multiset(),
            r@.len() == i,
            by_size(mods@, r@),
            forall|j: int| 0 <= j < r@.len() ==> (#[trigger] r@[j]).group < mods@.len(),
        decreases cs@.len() - i,
    {
        let x = cs[i];
        let sx = mods[x.group].keys.len();
        let mut p: usize = 0;
        while p < r.len() && mods[r[p].group].keys.len() >= sx
            invariant
                p <= r@.len(),
                forall|j: int| 0 <= j < r@.len() ==> (#[trigger] r@[j]).group < mods@.len(),
                sx == mods@[x.group as int].keys@.len(),
                forall|j: int| 0 <= j < p ==> combo_size(mods@, #[trigger] r@[j]) >= sx,
            decreases r@.len() - p,
        {
            p += 1;
        }
        let ghost r0 = r@;
        r.insert(p, x);
        proof {
            assert(cs@.subrange(0, i + 1) =~= cs@.subrange(0, i as int).push(x));
            assert(r@ == r0.insert(p as int, x));
            vstd::seq_lib::to_multiset_insert(r0, p as int, x);
            vstd::seq_lib::to_multiset_build(cs@.subrange(0, i as int), x);
            assert forall|a: int, b: int| 0 <= a < b < r@.len() implies combo_size(mods@, r@[a])
                >= combo_size(mods@, r@[b]) by {
                if b < p {
                    assert(r@[a] == r0[a] && r@[b] == r0[b]);
                } else if b == p {
                    assert(r@[a] == r0[a]);
                } else if a == p {
                    assert(r@[b] == r0[b - 1]);
                    assert(combo_size(mods@, r0[p as int]) < sx);
                    if b - 1 > p {
                        assert(combo_size(mods@, r0[p as int]) >= combo_size(mods@, r0[b - 1]));
                    }
                } else if a < p {
                    assert(r@[a] == r0[a] && r@[b] == r0[b - 1]);
                } else {
                    assert(r@[a] == r0[a - 1] && r@[b] == r0[b - 1]);
                }
            }
            assert forall|j: int| 0 <= j < r@.len() implies (#[trigger] r@[j]).group < mods@.len() by {
                if j < p {
                    assert(r@[j] == r0[j]);
                } else if j > p {
                    assert(r@[j] == r0[j - 1]);
                }
            }
        }
        i += 1;
    }
    proof {
        assert(cs@.subrange(0, cs@.len() as int) =~= cs@);
    }
    r
}

/// Appends the entries of `src` to `dst`.
fn append_all(dst: &mut Vec<usize>, src: &Vec<usize>)
    ensures
        final(dst)@ == old(dst)@ + src@,
{
    let ghost d0 = dst@;
    let mut i: usize = 0;
    while i < src.len()
        invariant
            i <= src@.len(),
            dst@ == d0 + src@.subrange(0, i as int),
        decreases src@.len() - i,
    {
        dst.push(src[i]);
        assert(dst@ =~= d0 + src@.subrange(0, i + 1));
        i += 1;
    }
    assert(src@.subrange(0, src@.len() as int) =~= src@);
}

/// The key indices of the modifier keys of a group, in the order of the group's keys.
fn key_indices(codes: &Vec<u32>, keys: &Vec<u32>, dst: &mut Vec<usize>)
    requires
        forall|j: int| 0 <= j < keys@.len() ==> codes@.contains(#[trigger] keys@[j]),
    ensures
        final(dst)@.len() == old(dst)@.len() + keys@.len(),
        final(dst)@.subrange(0, old(dst)@.len() as int) == old(dst)@,
        forall|j: int|
            0 <= j < keys@.len() ==> {
                let k = #[trigger] final(dst)@[old(dst)@.len() + j];
                k < codes@.len() && codes@[k as int] == keys@[j]
            },
{
    let ghost d0 = dst@;
    let mut j: usize = 0;
    while j < keys.len()
        invariant
            j <= keys@.len(),
            forall|l: int| 0 <= l < keys@.len() ==> codes@.contains(#[trigger] keys@[l]),
            dst@.len() == d0.len() + j,
            dst@.subrange(0, d0.len() as int) == d0,
            forall|l: int|
                0 <= l < j ==> {
                    let k = #[trigger] dst@[d0.len() + l];
                    k < codes@.len() && codes@[k as int] == keys@[l]
                },
        decreases keys@.len() - j,
    {
        let found = find_code(codes, keys[j]);
        let k = found.unwrap();
        let ghost before = dst@;
        dst.push(k);
        proof {
            assert(dst@.subrange(0, d0.len() as int) =~= before.subrange(0, d0.len() as int));
            assert forall|l: int| 0 <= l < j + 1 implies {
                let k = #[trigger] dst@[d0.len() + l];
                k < codes@.len() && codes@[k as int] == keys@[l]
            } by {
                if l < j {
                    assert(dst@[d0.len() + l] == before[d0.len() + l]);
                }
            }
        }
        j += 1;
    }
}

/// What a group of a fresh handler holds: its index, mask, supergroups and
/// ranges into the packed arrays, with no key down and no combo active.
pub open spec fn fresh_group(
    g: Group,
    index: int,
    m: ModifierDecl,
    above: Seq<usize>,
    groups_keys: Seq<usize>,
    groups_pred: Seq<usize>,
    groups_intersect: Seq<usize>,
) -> bool {
    &&& g.index == index
    &&& g.mask == m.masking
    &&& scalar_set_contents(g.greater) == above.to_set()
    &&& g.keys@.0 <= g.keys@.1 <= groups_keys.len()
    &&& g.pred@.0 <= g.pred@.1 <= groups_pred.len()
    &&& g.intersect@.0 <= g.intersect@.1 <= groups_intersect.len()
    &&& g.size == m.keys@.len()
    &&& g.keys@.1 - g.keys@.0 == m.keys@.len()
    &&& set_usize_contents(g.active_combos) == Set::<usize>::empty()
    &&& g.counter == 0
    &&& g.active_greater == 0
}

/// Builds the groups and their packed lists of keys, greatest subgroups and
/// intersecting groups.
pub fn build_groups(
    mods: &Vec<ModifierDecl>,
    codes: &Vec<u32>,
    above: &Vec<Vec<usize>>,
    below: &Vec<Vec<usize>>,
    inter: &Vec<Vec<usize>>,
) -> (r: (Vec<Group>, Vec<usize>, Vec<usize>, Vec<usize>))
    requires
        above@.len() == mods@.len(),
        below@.len() == mods@.len(),
        inter@.len() == mods@.len(),
        forall|g: int, j: int|
            0 <= g < mods@.len() && 0 <= j < mods@[g].keys@.len() ==> codes@.contains(
                #[trigger] mods@[g].keys@[j],
            ),
        forall|g: int, i: int|
            0 <= g < mods@.len() && 0 <= i < below@[g]@.len() ==> #[trigger] below@[g]@[i] < mods@.len(),
        forall|g: int, i: int|
            0 <= g < mods@.len() && 0 <= i < inter@[g]@.len() ==> #[trigger] inter@[g]@[i] < mods@.len(),
    ensures
        r.0@.len() == mods@.len(),
        forall|i: int| 0 <= i < r.1@.len() ==> #[trigger] r.1@[i] < codes@.len(),
        forall|i: int| 0 <= i < r.2@.len() ==> #[trigger] r.2@[i] < mods@.len(),
        forall|i: int| 0 <= i < r.3@.len() ==> #[trigger] r.3@[i] < mods@.len(),
        forall|g: int|
            0 <= g < mods@.len() ==> fresh_group(
                #[trigger] r.0@[g],
                g,
                mods@[g],
                above@[g]@,
                r.1@,
                r.2@,
                r.3@,
            ),
        forall|g: int|
            0 <= g < mods@.len() ==> {
                let ks = #[trigger] packed(r.1@, r.0@[g].keys);
                &&& ks.len() == mods@[g].keys@.len()
                &&& forall|j: int|
                    0 <= j < ks.len() ==> #[trigger] ks[j] < codes@.len() && codes@[ks[j] as int]
                        == mods@[g].keys@[j]
            },
        forall|g: int| 0 <= g < mods@.len() ==> #[trigger] packed(r.2@, r.0@[g].pred) == below@[g]@,
        forall|g: int| 0 <= g < mods@.len() ==> #[trigger] packed(r.3@, r.0@[g].intersect) == inter@[g]@,
{
    let n = mods.len();
    let mut groups: Vec<Group> = Vec::new();
    let mut gkeys: Vec<usize> = Vec::new();
    let mut gpred: Vec<usize> = Vec::new();
    let mut ginter: Vec<usize> = Vec::new();
    let mut g: usize = 0;
    while g < n
        invariant
            g <= n,
            n == mods@.len(),
            above@.len() == n,
            below@.len() == n,
            inter@.len() == n,
            forall|h: int, j: int|
                0 <= h < mods@.len() && 0 <= j < mods@[h].keys@.len() ==> codes@.contains(
                    #[trigger] mods@[h].keys@[j],
                ),
            forall|h: int, i: int|
                0 <= h < mods@.len() && 0 <= i < below@[h]@.len() ==> #[trigger] below@[h]@[i] < mods@.len(),
            forall|h: int, i: int|
                0 <= h < mods@.len() && 0 <= i < inter@[h]@.len() ==> #[trigger] inter@[h]@[i] < mods@.len(),
            forall|i: int| 0 <= i < gkeys@.len() ==> #[trigger] gkeys@[i] < codes@.len(),
            forall|i: int| 0 <= i < gpred@.len() ==> #[trigger] gpred@[i] < mods@.len(),
            forall|i: int| 0 <= i < ginter@.len() ==> #[trigger] ginter@[i] < mods@.len(),
            groups@.len() == g,
            forall|h: int|
                0 <= h < g ==> fresh_group(
                    #[trigger] groups@[h],
                    h,
                    mods@[h],
                    above@[h]@,
                    gkeys@,
                    gpred@,
                    ginter@,
                ),
            forall|h: int|
                0 <= h < g ==> {
                    let ks = #[trigger] packed(gkeys@, groups@[h].keys);
                    &&& ks.len() == mods@[h].keys@.len()
                    &&& forall|j: int|
                        0 <= j < ks.len() ==> #[trigger] ks[j] < codes@.len() && codes@[ks[j] as int]
                            == mods@[h].keys@[j]
                },
            forall|h: int| 0 <= h < g ==> #[trigger] packed(gpred@, groups@[h].pred) == below@[h]@,
            forall|h: int| 0 <= h < g ==> #[trigger] packed(ginter@, groups@[h].intersect) == inter@[h]@,
        decreases n - g,
    {
        let ghost k0 = gkeys@;
        let ghost p0 = gpred@;
        let ghost i0 = ginter@;
        let ks = gkeys.len();
        key_indices(codes, &mods[g].keys, &mut gkeys);
        let ke = gkeys.len();
        let ps = gpred.len();
        append_all(&mut gpred, &below[g]);
        let pe = gpred.len();
        let is = ginter.len();
        append_all(&mut ginter, &inter[g]);
        let ie = ginter.len();
        let mut greater: Vec<usize> = Vec::new();
        append_all(&mut greater, &above[g]);
        assert(greater@ =~= above@[g as int]@);
        let keys = Range::new(ks, ke);
        let grp = Group {
            index: g,
            mask: mods[g].masking,
            greater: scalar_set_new(greater),
            pred: Range::new(ps, pe),
            intersect: Range::new(is, ie),
            keys,
            size: keys.len(),
            active_combos: set_usize_new(),
            counter: 0,
            active_greater: 0,
            mask_weight: 0,
        };
        groups.push(grp);
        proof {
            assert forall|i: int| 0 <= i < gkeys@.len() implies #[trigger] gkeys@[i] < codes@.len() by {
                if i >= k0.len() {
                    assert(gkeys@[k0.len() + (i - k0.len())] < codes@.len());
                } else {
                    assert(gkeys@.subrange(0, k0.len() as int)[i] == k0[i]);
                }
            }
            assert forall|i: int| 0 <= i < gpred@.len() implies #[trigger] gpred@[i] < mods@.len() by {
                if i >= p0.len() {
                    assert(gpred@[i] == below@[g as int]@[i - p0.len()]);
                }
            }
            assert forall|i: int| 0 <= i < ginter@.len() implies #[trigger] ginter@[i] < mods@.len() by {
                if i >= i0.len() {
                    assert(ginter@[i] == inter@[g as int]@[i - i0.len()]);
                }
            }
            assert forall|h: int| 0 <= h < g + 1 implies {
                let kk = #[trigger] packed(gkeys@, groups@[h].keys);
                &&& kk.len() == mods@[h].keys@.len()
                &&& forall|j: int|
                    0 <= j < kk.len() ==> #[trigger] kk[j] < codes@.len() && codes@[kk[j] as int]
                        == mods@[h].keys@[j]
            } by {
                if h < g {
                    assert(groups@[h].keys@.1 <= k0.len());
                    assert(packed(gkeys@, groups@[h].keys) =~= packed(k0, groups@[h].keys));
                } else {
                    let kk = packed(gkeys@, groups@[h].keys);
                    assert forall|j: int| 0 <= j < kk.len() implies #[trigger] kk[j] < codes@.len()
                        && codes@[kk[j] as int] == mods@[h].keys@[j] by {
                        assert(kk[j] == gkeys@[k0.len() + j]);
                    }
                }
            }
            assert forall|h: int| 0 <= h < g + 1 implies #[trigger] packed(gpred@, groups@[h].pred)
                == below@[h]@ by {
                if h < g {
                    assert(packed(gpred@, groups@[h].pred) =~= packed(p0, groups@[h].pred));
                } else {
                    assert(packed(gpred@, groups@[h].pred) =~= below@[h]@);
                }
            }
            assert forall|h: int| 0 <= h < g + 1 implies #[trigger] packed(ginter@, groups@[h].intersect)
                == inter@[h]@ by {
                if h < g {
                    assert(packed(ginter@, groups@[h].intersect) =~= packed(i0, groups@[h].intersect));
                } else {
                    assert(packed(ginter@, groups@[h].intersect) =~= inter@[h]@);
                }
            }
        }
        g += 1;
    }
    (groups, gkeys, gpred, ginter)
}

/// The keycode is a key of a modifier or an action key of the configuration.
pub open spec fn config_code<Z>(config: Config<Z>, c: u32) -> bool {
    ||| exists|g: int| 0 <= g < config.modifiers@.len() && #[trigger] config.modifiers@[g].keys@.contains(c)
    ||| exists|t: int| 0 <= t < config.actions@.len() && #[trigger] config.actions@[t].key == c
}

/// The number of masking modifiers among those listed.
pub open spec fn masking_count(mods: Seq<ModifierDecl>, ps: Seq<usize>) -> int
    decreases ps.len(),
{
    if ps.len() == 0 {
        0
    } else {
        masking_count(mods, ps.drop_last()) + (if mods[ps.last() as int].masking {
            1int
        } else {
            0int
        })
    }
}

pub proof fn lemma_mask_count_decl(groups: Seq<Group>, mods: Seq<ModifierDecl>, ps: Seq<usize>)
    requires
        forall|i: int| 0 <= i < ps.len() ==> groups[#[trigger] ps[i] as int].mask == mods[ps[i] as int].masking,
    ensures
        mask_count(groups, ps) == masking_count(mods, ps),
    decreases ps.len(),
{
    if ps.len() > 0 {
        let d = ps.drop_last();
        assert forall|i: int| 0 <= i < d.len() implies groups[#[trigger] d[i] as int].mask == mods[d[i] as int].masking by {
            assert(d[i] == ps[i]);
        }
        lemma_mask_count_decl(groups, mods, d);
        assert(groups[ps[ps.len() - 1] as int].mask == mods[ps[ps.len() - 1] as int].masking);
    }
}

/// The number of masking groups among those listed.
pub open spec fn mask_count(groups: Seq<Group>, ps: Seq<usize>) -> int
    decreases ps.len(),
{
    if ps.len() == 0 {
        0
    } else {
        mask_count(groups, ps.drop_last()) + (if groups[ps.last() as int].mask {
            1int
        } else {
            0int
        })
    }
}

pub proof fn lemma_mask_count_bounds(groups: Seq<Group>, ps: Seq<usize>)
    ensures
        0 <= mask_count(groups, ps) <= ps.len(),
    decreases ps.len(),
{
    if ps.len() > 0 {
        lemma_mask_count_bounds(groups, ps.drop_last());
    }
}

/// Gives each group its mask weight: one if it masks, less the number of its
/// masking greatest subgroups.
pub fn set_mask_weights(groups: &mut Vec<Group>, gpred: &Vec<usize>)
    requires
        old(groups)@.len() <= 2147483647,
        forall|g: int|
            0 <= g < old(groups)@.len() ==> {
                &&& (#[trigger] old(groups)@[g]).pred@.0 <= old(groups)@[g].pred@.1 <= gpred@.len()
                &&& packed(gpred@, old(groups)@[g].pred).len() <= old(groups)@.len()
            },
        forall|i: int| 0 <= i < gpred@.len() ==> #[trigger] gpred@[i] < old(groups)@.len(),
    ensures
        final(groups)@.len() == old(groups)@.len(),
        forall|g: int|
            0 <= g < old(groups)@.len() ==> #[trigger] final(groups)@[g] == (Group {
                mask_weight: ((if old(groups)@[g].mask {
                    1int
                } else {
                    0int
                }) - mask_count(old(groups)@, packed(gpred@, old(groups)@[g].pred))) as i32,
                ..old(groups)@[g]
            }),
{
    let ghost g0 = groups@;
    let n = groups.len();
    let mut g: usize = 0;
    while g < n
        invariant
            g <= n,
            n == g0.len(),
            n <= 2147483647,
            groups@.len() == n,
            forall|h: int|
                0 <= h < n ==> {
                    &&& (#[trigger] g0[h]).pred@.0 <= g0[h].pred@.1 <= gpred@.len()
                    &&& packed(gpred@, g0[h].pred).len() <= n
                },
            forall|i: int| 0 <= i < gpred@.len() ==> #[trigger] gpred@[i] < n,
            forall|h: int| g <= h < n ==> #[trigger] groups@[h] == g0[h],
            forall|h: int|
                0 <= h < g ==> #[trigger] groups@[h] == (Group {
                    mask_weight: ((if g0[h].mask {
                        1int
                    } else {
                        0int
                    }) - mask_count(g0, packed(gpred@, g0[h].pred))) as i32,
                    ..g0[h]
                }),
            forall|h: int| 0 <= h < n ==> (#[trigger] groups@[h]).mask == g0[h].mask,
        decreases n - g,
    {
        let prg = groups[g].pred.into_iter();
        let ghost ps = packed(gpred@, g0[g as int].pred);
        let mut sum: i32 = 0;
        let mut m = prg.start;
        while m < prg.end
            invariant
                g < n,
                n == g0.len(),
                n <= 2147483647,
                groups@.len() == n,
                prg.start == g0[g as int].pred@.0,
                prg.end == g0[g as int].pred@.1,
                prg.end <= gpred@.len(),
                prg.start <= m <= prg.end,
                ps == packed(gpred@, g0[g as int].pred),
                ps.len() <= n,
                forall|i: int| 0 <= i < gpred@.len() ==> #[trigger] gpred@[i] < n,
                forall|h: int| 0 <= h < n ==> (#[trigger] groups@[h]).mask == g0[h].mask,
                sum == mask_count(g0, ps.subrange(0, m - prg.start)),
                0 <= sum <= m - prg.start,
            decreases prg.end - m,
        {
            let p = gpred[m];
            proof {
                assert(ps.subrange(0, m + 1 - prg.start).drop_last() =~= ps.subrange(0, m - prg.start));
                assert(ps[m - prg.start] == p);
            }
            if groups[p].mask {
                sum += 1;
            }
            m += 1;
        }
        proof {
            assert(ps.subrange(0, ps.len() as int) =~= ps);
            lemma_mask_count_bounds(g0, ps);
        }
        let base: i32 = if groups[g].mask { 1 } else { 0 };
        groups[g].mask_weight = base - sum;
        g += 1;
    }
}

/// What a key of a fresh handler holds: its declared action, immediacy and
/// latching, closed, with no combo and no resolution cached.
pub open spec fn fresh_key<Z>(k: Key<Z>, action: Option<Z>, immediate: bool, latching: bool) -> bool {
    &&& k.action == action
    &&& k.immediate == immediate
    &&& k.latching == latching
    &&& k.cache_counter == 0
    &&& !k.open
    &&& k.active_combo is None
}

/// Appends the combos of `src` to `dst`.
fn append_combos<Z: Copy>(dst: &mut Vec<Combo<Z>>, src: &Vec<Combo<Z>>)
    ensures
        final(dst)@ == old(dst)@ + src@,
{
    let ghost d0 = dst@;
    let mut i: usize = 0;
    while i < src.len()
        invariant
            i <= src@.len(),
            dst@ == d0 + src@.subrange(0, i as int),
        decreases src@.len() - i,
    {
        dst.push(src[i]);
        assert(dst@ =~= d0 + src@.subrange(0, i + 1));
        i += 1;
    }
    assert(src@.subrange(0, src@.len() as int) =~= src@);
}

/// Builds the keys and their packed lists of combos, sorted by group size,
/// and of groups.
pub fn build_keys<Z: Copy>(
    mods: &Vec<ModifierDecl>,
    kgroups: &Vec<Vec<usize>>,
    act: &Vec<Option<Z>>,
    imm: &Vec<bool>,
    lat: &Vec<bool>,
    cmb: &Vec<Vec<Combo<Z>>>,
) -> (r: (Vec<Key<Z>>, Vec<Combo<Z>>, Vec<usize>))
    requires
        act@.len() == kgroups@.len(),
        imm@.len() == kgroups@.len(),
        lat@.len() == kgroups@.len(),
        cmb@.len() == kgroups@.len(),
        forall|k: int, i: int|
            0 <= k < cmb@.len() && 0 <= i < cmb@[k]@.len() ==> (#[trigger] cmb@[k]@[i]).group
                < mods@.len(),
        forall|k: int, i: int|
            0 <= k < kgroups@.len() && 0 <= i < kgroups@[k]@.len() ==> #[trigger] kgroups@[k]@[i]
                < mods@.len(),
    ensures
        r.0@.len() == kgroups@.len(),
        forall|i: int| 0 <= i < r.2@.len() ==> #[trigger] r.2@[i] < mods@.len(),
        forall|k: int|
            0 <= k < kgroups@.len() ==> {
                &&& fresh_key(#[trigger] r.0@[k], act@[k], imm@[k], lat@[k])
                &&& r.0@[k].groups@.0 <= r.0@[k].groups@.1 <= r.2@.len()
                &&& r.0@[k].combos@.0 <= r.0@[k].combos@.1 <= r.1@.len()
                &&& packed(r.2@, r.0@[k].groups) == kgroups@[k]@
                &&& r.1@.subrange(r.0@[k].combos@.0 as int, r.0@[k].combos@.1 as int).to_multiset()
                    == cmb@[k]@.to_multiset()
                &&& by_size(mods@, r.1@.subrange(r.0@[k].combos@.0 as int, r.0@[k].combos@.1 as int))
            },
        forall|i: int| 0 <= i < r.1@.len() ==> (#[trigger] r.1@[i]).group < mods@.len(),
{
    let n = kgroups.len();
    let mut keys: Vec<Key<Z>> = Vec::new();
    let mut kc: Vec<Combo<Z>> = Vec::new();
    let mut kg: Vec<usize> = Vec::new();
    let mut k: usize = 0;
    while k < n
        invariant
            k <= n,
            n == kgroups@.len(),
            act@.len() == n,
            imm@.len() == n,
            lat@.len() == n,
            cmb@.len() == n,
            forall|h: int, i: int|
                0 <= h < cmb@.len() && 0 <= i < cmb@[h]@.len() ==> (#[trigger] cmb@[h]@[i]).group
                    < mods@.len(),
            forall|h: int, i: int|
                0 <= h < kgroups@.len() && 0 <= i < kgroups@[h]@.len() ==> #[trigger] kgroups@[h]@[i]
                    < mods@.len(),
            forall|i: int| 0 <= i < kg@.len() ==> #[trigger] kg@[i] < mods@.len(),
            keys@.len() == k,
            forall|h: int|
                0 <= h < k ==> {
                    &&& fresh_key(#[trigger] keys@[h], act@[h], imm@[h], lat@[h])
                    &&& keys@[h].groups@.0 <= keys@[h].groups@.1 <= kg@.len()
                    &&& keys@[h].combos@.0 <= keys@[h].combos@.1 <= kc@.len()
                    &&& packed(kg@, keys@[h].groups) == kgroups@[h]@
                    &&& kc@.subrange(keys@[h].combos@.0 as int, keys@[h].combos@.1 as int).to_multiset()
                        == cmb@[h]@.to_multiset()
                    &&& by_size(mods@, kc@.subrange(keys@[h].combos@.0 as int, keys@[h].combos@.1 as int))
                },
            forall|i: int| 0 <= i < kc@.len() ==> (#[trigger] kc@[i]).group < mods@.len(),
        decreases n - k,
    {
        let ghost kc0 = kc@;
        let ghost kg0 = kg@;
        let sorted = sort_combos(mods, &cmb[k]);
        let cs = kc.len();
        append_combos(&mut kc, &sorted);
        let ce = kc.len();
        let gs = kg.len();
        append_all(&mut kg, &kgroups[k]);
        let ge = kg.len();
        keys.push(Key {
            action: act[k],
            latching: lat[k],
            immediate: imm[k],
            combos: Range::new(cs, ce),
            groups: Range::new(gs, ge),
            cache_counter: 0,
            open: false,
            active_combo: None,
        });
        proof {
            assert(kc@.subrange(cs as int, ce as int) =~= sorted@);
            assert(packed(kg@, keys@[k as int].groups) =~= kgroups@[k as int]@);
            assert forall|h: int| 0 <= h < k + 1 implies {
                &&& fresh_key(#[trigger] keys@[h], act@[h], imm@[h], lat@[h])
                &&& keys@[h].groups@.0 <= keys@[h].groups@.1 <= kg@.len()
                &&& keys@[h].combos@.0 <= keys@[h].combos@.1 <= kc@.len()
                &&& packed(kg@, keys@[h].groups) == kgroups@[h]@
                &&& kc@.subrange(keys@[h].combos@.0 as int, keys@[h].combos@.1 as int).to_multiset()
                    == cmb@[h]@.to_multiset()
                &&& by_size(mods@, kc@.subrange(keys@[h].combos@.0 as int, keys@[h].combos@.1 as int))
            } by {
                if h < k {
                    assert(kc@.subrange(keys@[h].combos@.0 as int, keys@[h].combos@.1 as int) =~= kc0.subrange(
                        keys@[h].combos@.0 as int,
                        keys@[h].combos@.1 as int,
                    ));
                    assert(packed(kg@, keys@[h].groups) =~= packed(kg0, keys@[h].groups));
                }
            }
            assert forall|i: int| 0 <= i < kc@.len() implies (#[trigger] kc@[i]).group < mods@.len() by {
                if i >= kc0.len() {
                    assert(kc@[i] == sorted@[i - kc0.len()]);
                }
            }
            assert forall|i: int| 0 <= i < kg@.len() implies #[trigger] kg@[i] < mods@.len() by {
                if i >= kg0.len() {
                    assert(kg@[i] == kgroups@[k as int]@[i - kg0.len()]);
                }
            }
        }
        k += 1;
    }
    (keys, kc, kg)
}

proof fn lemma_entries_map(e: Seq<(u32, usize)>)
    requires
        forall|i: int, j: int| 0 <= i < j < e.len() ==> e[i].0 != e[j].0,
    ensures
        forall|c: u32|
            #[trigger] entries_map(e).contains_key(c) <==> exists|i: int| 0 <= i < e.len() && e[i].0 == c,
        forall|i: int| 0 <= i < e.len() ==> entries_map(e)[#[trigger] e[i].0] == e[i].1,
    decreases e.len(),
{
    if e.len() > 0 {
        let d = e.drop_last();
        lemma_entries_map(d);
        assert forall|c: u32|
            #[trigger] entries_map(e).contains_key(c) <==> exists|i: int| 0 <= i < e.len() && e[i].0 == c by {
            if entries_map(d).contains_key(c) {
                let i = choose|i: int| 0 <= i < d.len() && d[i].0 == c;
                assert(e[i].0 == c);
            }
            if exists|i: int| 0 <= i < e.len() && e[i].0 == c {
                let i = choose|i: int| 0 <= i < e.len() && e[i].0 == c;
                if i < d.len() {
                    assert(d[i].0 == c);
                }
            }
        }
        assert forall|i: int| 0 <= i < e.len() implies entries_map(e)[#[trigger] e[i].0] == e[i].1 by {
            if i < d.len() {
                assert(d[i] == e[i]);
                assert(e[i].0 != e.last().0);
            }
        }
    }
}

/// The frozen map from each keycode to its key index.
pub fn build_domain(codes: &Vec<u32>) -> (m: FzScalarMap<u32, usize>)
    requires
        codes@.no_duplicates(),
    ensures
        forall|c: u32| #[trigger] scalar_map_contents(m).contains_key(c) <==> codes@.contains(c),
        forall|k: int| 0 <= k < codes@.len() ==> scalar_map_contents(m)[#[trigger] codes@[k]] == k,
{
    let mut entries: Vec<(u32, usize)> = Vec::new();
    let mut k: usize = 0;
    while k < codes.len()
        invariant
            k <= codes@.len(),
            entries@.len() == k,
            forall|i: int| 0 <= i < k ==> #[trigger] entries@[i] == (codes@[i], i as usize),
        decreases codes@.len() - k,
    {
        entries.push((codes[k], k));
        k += 1;
    }
    let ghost e = entries@;
    proof {
        assert forall|i: int, j: int| 0 <= i < j < e.len() implies e[i].0 != e[j].0 by {
            assert(e[i] == (codes@[i], i as usize));
            assert(e[j] == (codes@[j], j as usize));
        }
        lemma_entries_map(e);
        assert forall|c: u32| #[trigger] entries_map(e).contains_key(c) <==> codes@.contains(c) by {
            if codes@.contains(c) {
                let i = choose|i: int| 0 <= i < codes@.len() && codes@[i] == c;
                assert(e[i] == (codes@[i], i as usize));
            }
            if entries_map(e).contains_key(c) {
                let i = choose|i: int| 0 <= i < e.len() && e[i].0 == c;
                assert(e[i] == (codes@[i], i as usize));
            }
        }
        assert forall|k: int| 0 <= k < codes@.len() implies entries_map(e)[#[trigger] codes@[k]] == k by {
            assert(e[k] == (codes@[k], k as usize));
        }
    }
    scalar_map_new(entries)
}

} // verus!
