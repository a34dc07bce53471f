//! The mathematical model of the store and of the consumption pass.
//!
//! A store is modelled as a map from a price to the sequence of entries
//! resting at that price, each entry a pair of a size and a payload.  The
//! consumption pass is modelled level by level: `taken_from`, `kept_from`
//! and `consumed_through` describe one level under a running size
//! accumulator, and `out_over`, `rem_over` and `consumed_over` fold them
//! over the participating price levels in ascending order.

use vstd::multiset::Multiset;
use vstd::prelude::*;

verus! {

/// The model of one entry: its size and its payload.
pub type EntryModel = (u64, Seq<char>);

/// The model of one price level: its entries in insertion order.
pub type LevelModel = Seq<EntryModel>;

/// The model of a whole store: each price key maps to its level.
pub type StoreModel = Map<u64, LevelModel>;

/// The model of a store that holds no keys at all.
pub open spec fn empty_store() -> StoreModel {
    Map::empty()
}

/// The model of an executable level, a vector of (size, payload) pairs.
pub open spec fn entries_view(s: Seq<(u64, String)>) -> LevelModel {
    s.map_values(|e: (u64, String)| (e.0, e.1@))
}

/// The level resting at key `p`, or the empty level when the key is
/// absent.
pub open spec fn level_at(m: StoreModel, p: u64) -> LevelModel {
    if m.dom().contains(p) {
        m[p]
    } else {
        Seq::empty()
    }
}

/// The store after appending the entry `(sz, d)` at key `p`, the level
/// being created first when the key is absent.
pub open spec fn add_model(m: StoreModel, p: u64, sz: u64, d: Seq<char>) -> StoreModel {
    m.insert(p, level_at(m, p).push((sz, d)))
}

/// Whether some entry of `s` has size `z`.
pub open spec fn has_size(s: LevelModel, z: u64) -> bool {
    exists|i: int| 0 <= i < s.len() && s[i].0 == z
}

/// The position of the first entry of `s` with size `z`.
pub open spec fn first_size_at(s: LevelModel, z: u64) -> int
    decreases s.len(),
{
    if s.len() == 0 {
        0
    } else if s[0].0 == z {
        0
    } else {
        1 + first_size_at(s.drop_first(), z)
    }
}

/// The store after removing, at key `p`, the first entry of size `z`; a
/// miss on the key or on the size changes nothing.
pub open spec fn without_model(m: StoreModel, p: u64, z: u64) -> StoreModel {
    if m.dom().contains(p) && has_size(m[p], z) {
        m.insert(p, m[p].remove(first_size_at(m[p], z)))
    } else {
        m
    }
}

/// The price keys that participate in a consumption pass: those of `dom`
/// strictly below the ceiling.
pub open spec fn scope(dom: Set<u64>, ceiling: u64) -> Set<u64> {
    dom.filter(|k: u64| k < ceiling)
}

/// A strictly ascending sequence of keys.
pub open spec fn is_ascending(ks: Seq<u64>) -> bool {
    forall|i: int, j: int| 0 <= i < j < ks.len() ==> ks[i] < ks[j]
}

/// The keys of `s` listed in ascending order.  For a finite `s` such a
/// listing exists and is unique (`lemma_level_order`).
pub open spec fn level_order(s: Set<u64>) -> Seq<u64> {
    choose|ks: Seq<u64>| is_ascending(ks) && ks.to_set() == s
}

/// The entries of one level that a pass starting at accumulator `c`
/// consumes: each entry, in order, is taken exactly when its size still
/// fits into the budget on top of what was consumed so far.
pub open spec fn taken_from(s: LevelModel, budget: u64, c: int) -> LevelModel
    decreases s.len(),
{
    if s.len() == 0 {
        Seq::empty()
    } else if c + s[0].0 <= budget {
        seq![s[0]] + taken_from(s.drop_first(), budget, c + s[0].0)
    } else {
        taken_from(s.drop_first(), budget, c)
    }
}

/// The entries of one level that the same pass leaves in place.
pub open spec fn kept_from(s: LevelModel, budget: u64, c: int) -> LevelModel
    decreases s.len(),
{
    if s.len() == 0 {
        Seq::empty()
    } else if c + s[0].0 <= budget {
        kept_from(s.drop_first(), budget, c + s[0].0)
    } else {
        seq![s[0]] + kept_from(s.drop_first(), budget, c)
    }
}

/// The accumulator after the same pass over one level.
pub open spec fn consumed_through(s: LevelModel, budget: u64, c: int) -> int
    decreases s.len(),
{
    if s.len() == 0 {
        c
    } else if c + s[0].0 <= budget {
        consumed_through(s.drop_first(), budget, c + s[0].0)
    } else {
        consumed_through(s.drop_first(), budget, c)
    }
}

/// The accumulator after visiting the levels of `m` named by `ks`, in
/// that order, starting from `c`.
pub open spec fn consumed_over(m: StoreModel, ks: Seq<u64>, budget: u64, c: int) -> int
    decreases ks.len(),
{
    if ks.len() == 0 {
        c
    } else {
        consumed_over(m, ks.drop_first(), budget, consumed_through(m[ks[0]], budget, c))
    }
}

/// The store of consumed entries built by visiting the levels of `m`
/// named by `ks`, in that order: a key appears exactly when at least one
/// of its entries was consumed.
pub open spec fn out_over(m: StoreModel, ks: Seq<u64>, budget: u64, c: int) -> StoreModel
    decreases ks.len(),
{
    if ks.len() == 0 {
        Map::empty()
    } else {
        let t = taken_from(m[ks[0]], budget, c);
        let rest = out_over(m, ks.drop_first(), budget, consumed_through(m[ks[0]], budget, c));
        if t.len() > 0 {
            rest.insert(ks[0], t)
        } else {
            rest
        }
    }
}

/// The source store after the same visit: each visited key holds what the
/// pass kept; every key stays present, even with an empty level.
pub open spec fn rem_over(m: StoreModel, ks: Seq<u64>, budget: u64, c: int) -> StoreModel
    decreases ks.len(),
{
    if ks.len() == 0 {
        m
    } else {
        rem_over(
            m.insert(ks[0], kept_from(m[ks[0]], budget, c)),
            ks.drop_first(),
            budget,
            consumed_through(m[ks[0]], budget, c),
        )
    }
}

/// The sum of the entry sizes of one level.
pub open spec fn level_sum(s: LevelModel) -> int
    decreases s.len(),
{
    if s.len() == 0 {
        0
    } else {
        s[0].0 + level_sum(s.drop_first())
    }
}

/// The sum of the entry sizes of the levels of `sm` named by `ks`; a key
/// absent from `sm` contributes nothing.
pub open spec fn total_over(sm: StoreModel, ks: Seq<u64>) -> int
    decreases ks.len(),
{
    if ks.len() == 0 {
        0
    } else {
        (if sm.dom().contains(ks[0]) {
            level_sum(sm[ks[0]])
        } else {
            0
        }) + total_over(sm, ks.drop_first())
    }
}

/// The entries at key `k` of `sm` as a multiset; empty when the key is
/// absent.  Conservation of entries is stated with it.
pub open spec fn level_mset(sm: StoreModel, k: u64) -> Multiset<EntryModel> {
    if sm.dom().contains(k) {
        sm[k].to_multiset()
    } else {
        Multiset::empty()
    }
}

/// Two strictly ascending listings of the same keys are the same
/// sequence.
pub proof fn lemma_ascending_unique(a: Seq<u64>, b: Seq<u64>)
    requires
        is_ascending(a),
        is_ascending(b),
        a.to_set() == b.to_set(),
    ensures
        a == b,
    decreases a.len(),
{
    if a.len() == 0 {
        if b.len() > 0 {
            assert(b.to_set().contains(b[0]));
            assert(a.contains(b[0]));
        }
        assert(a =~= b);
    } else {
        if b.len() == 0 {
            assert(a.to_set().contains(a[0]));
            assert(b.contains(a[0]));
        }
        assert(b.to_set().contains(a[0]));
        let i = choose|i: int| 0 <= i < b.len() && b[i] == a[0];
        assert(b[0] <= b[i]);
        assert(a.to_set().contains(b[0]));
        let j = choose|j: int| 0 <= j < a.len() && a[j] == b[0];
        assert(a[0] <= a[j]);
        assert(a[0] == b[0]);
        let at = a.drop_first();
        let bt = b.drop_first();
        assert forall|x: u64| at.to_set().contains(x) implies bt.to_set().contains(x) by {
            let ia = choose|ia: int| 0 <= ia < at.len() && at[ia] == x;
            assert(a[ia + 1] == x);
            assert(a[0] < x);
            assert(b.to_set().contains(x));
            let ib = choose|ib: int| 0 <= ib < b.len() && b[ib] == x;
            assert(ib > 0);
            assert(bt[ib - 1] == x);
        }
        assert forall|x: u64| bt.to_set().contains(x) implies at.to_set().contains(x) by {
            let ib = choose|ib: int| 0 <= ib < bt.len() && bt[ib] == x;
            assert(b[ib + 1] == x);
            assert(b[0] < x);
            assert(a.to_set().contains(x));
            let ia = choose|ia: int| 0 <= ia < a.len() && a[ia] == x;
            assert(ia > 0);
            assert(at[ia - 1] == x);
        }
        assert(at.to_set() =~= bt.to_set());
        lemma_ascending_unique(at, bt);
        assert(a.len() == b.len());
        assert forall|i: int| 0 <= i < a.len() implies a[i] == b[i] by {
            if i > 0 {
                assert(at[i - 1] == a[i]);
                assert(bt[i - 1] == b[i]);
            }
        }
        assert(a =~= b);
    }
}

/// A finite, non-empty set of keys has a greatest element.
pub proof fn lemma_set_max(s: Set<u64>)
    requires
        s.finite(),
        s.len() > 0,
    ensures
        exists|x: u64| s.contains(x) && (forall|y: u64| s.contains(y) ==> y <= x),
    decreases s.len(),
{
    broadcast use vstd::set::group_set_axioms;

    if !(exists|x: u64| s.contains(x)) {
        assert(s =~= Set::empty());
    }
    let x0 = choose|x: u64| s.contains(x);
    let t = s.remove(x0);
    if t.len() == 0 {
        assert forall|y: u64| s.contains(y) implies y <= x0 by {
            if y != x0 {
                assert(t.contains(y));
                assert(exists|x: u64| t.contains(x));
                if !(exists|x: u64| t.contains(x)) {
                }
                assert(t =~= Set::empty());
            }
        }
        assert(s.contains(x0) && (forall|y: u64| s.contains(y) ==> y <= x0));
    } else {
        lemma_set_max(t);
        let mx = choose|x: u64| t.contains(x) && (forall|y: u64| t.contains(y) ==> y <= x);
        let top: u64 = if x0 > mx {
            x0
        } else {
            mx
        };
        assert forall|y: u64| s.contains(y) implies y <= top by {
            if y != x0 {
                assert(t.contains(y));
            }
        }
        assert(s.contains(top) && (forall|y: u64| s.contains(y) ==> y <= top));
    }
}

/// A finite set of keys has a strictly ascending listing.
pub proof fn lemma_ascending_exists(s: Set<u64>)
    requires
        s.finite(),
    ensures
        exists|ks: Seq<u64>| is_ascending(ks) && ks.to_set() == s,
    decreases s.len(),
{
    broadcast use vstd::set::group_set_axioms;

    if s.len() == 0 {
        let ks = Seq::<u64>::empty();
        if !(exists|x: u64| s.contains(x)) {
            assert(s =~= Set::empty());
        }
        assert(ks.to_set() =~= s);
        assert(is_ascending(ks) && ks.to_set() == s);
    } else {
        lemma_set_max(s);
        let mx = choose|x: u64| s.contains(x) && (forall|y: u64| s.contains(y) ==> y <= x);
        let t = s.remove(mx);
        lemma_ascending_exists(t);
        let prefix = choose|ks: Seq<u64>| is_ascending(ks) && ks.to_set() == t;
        let ks = prefix.push(mx);
        assert forall|i: int, j: int| 0 <= i < j < ks.len() implies ks[i] < ks[j] by {
            if j < ks.len() - 1 {
                assert(prefix[i] < prefix[j]);
            } else {
                assert(ks[i] == prefix[i]);
                assert(prefix.to_set().contains(prefix[i]));
                assert(t.contains(prefix[i]));
                assert(prefix[i] <= mx && prefix[i] != mx);
            }
        }
        assert forall|x: u64| ks.to_set().contains(x) implies s.contains(x) by {
            let i = choose|i: int| 0 <= i < ks.len() && ks[i] == x;
            if i < ks.len() - 1 {
                assert(prefix.to_set().contains(x));
            }
        }
        assert forall|x: u64| s.contains(x) implies ks.to_set().contains(x) by {
            if x == mx {
                assert(ks[ks.len() - 1] == x);
            } else {
                assert(t.contains(x));
                let i = choose|i: int| 0 <= i < prefix.len() && prefix[i] == x;
                assert(ks[i] == x);
            }
        }
        assert(ks.to_set() =~= s);
        assert(is_ascending(ks) && ks.to_set() == s);
    }
}

/// `level_order` of a finite key set is its strictly ascending listing.
pub proof fn lemma_level_order(s: Set<u64>)
    requires
        s.finite(),
    ensures
        is_ascending(level_order(s)),
        level_order(s).to_set() == s,
{
    lemma_ascending_exists(s);
    let ks = choose|ks: Seq<u64>| is_ascending(ks) && ks.to_set() == s;
    assert(is_ascending(level_order(s)) && level_order(s).to_set() == s);
}

/// The output of a consumption pass holds no key outside the visited
/// ones.
pub proof fn lemma_out_over_dom(m: StoreModel, ks: Seq<u64>, budget: u64, c: int)
    ensures
        forall|k: u64| out_over(m, ks, budget, c).dom().contains(k) ==> ks.contains(k),
    decreases ks.len(),
{
    if ks.len() > 0 {
        let rest = out_over(m, ks.drop_first(), budget, consumed_through(m[ks[0]], budget, c));
        lemma_out_over_dom(m, ks.drop_first(), budget, consumed_through(m[ks[0]], budget, c));
        assert forall|k: u64| out_over(m, ks, budget, c).dom().contains(k) implies ks.contains(
            k,
        ) by {
            if k == ks[0] {
                assert(ks[0] == k);
            } else {
                assert(rest.dom().contains(k));
                assert(ks.drop_first().contains(k));
                let i = choose|i: int| 0 <= i < ks.drop_first().len() && ks.drop_first()[i] == k;
                assert(ks[i + 1] == k);
            }
        }
    }
}

/// `first_size_at` finds exactly the first position whose entry has size
/// `z`.
pub proof fn lemma_first_size_at(s: LevelModel, z: u64, i: int)
    requires
        0 <= i < s.len(),
        s[i].0 == z,
        forall|j: int| 0 <= j < i ==> s[j].0 != z,
    ensures
        has_size(s, z),
        first_size_at(s, z) == i,
    decreases i,
{
    assert(has_size(s, z));
    if s[0].0 == z {
        assert(i == 0);
    } else {
        let t = s.drop_first();
        assert(t[i - 1] == s[i]);
        assert(forall|j: int| 0 <= j < i - 1 ==> t[j] == s[j + 1] && s[j + 1].0 != z);
        lemma_first_size_at(t, z, i - 1);
    }
}

/// `a` is `b` with zero or more elements removed, order kept.
pub open spec fn subsequence_of(a: LevelModel, b: LevelModel) -> bool
    decreases a.len() + b.len(),
{
    if a.len() == 0 {
        true
    } else if b.len() == 0 {
        false
    } else if a[0] == b[0] {
        subsequence_of(a.drop_first(), b.drop_first())
    } else {
        subsequence_of(a, b.drop_first())
    }
}

} // verus!
