//! What a consumption pass preserves, proved once over the model that
//! `Container::process` is specified with: no entry is invented, lost or
//! duplicated; the consumed sizes stay within the budget; only levels
//! below the ceiling are touched; surviving and consumed entries keep
//! their relative order; and a pass that can consume nothing changes
//! nothing.

use crate::model::consumed_over;
use crate::model::consumed_through;
use crate::model::empty_store;
use crate::model::is_ascending;
use crate::model::kept_from;
use crate::model::lemma_level_order;
use crate::model::lemma_out_over_dom;
use crate::model::level_at;
use crate::model::level_mset;
use crate::model::level_order;
use crate::model::level_sum;
use crate::model::out_over;
use crate::model::rem_over;
use crate::model::scope;
use crate::model::subsequence_of;
use crate::model::taken_from;
use crate::model::total_over;
use crate::model::LevelModel;
use crate::model::StoreModel;
use vstd::multiset::Multiset;
use vstd::prelude::*;
use vstd::seq_lib::lemma_multiset_commutative;

verus! {

/// One level's pass splits its entries exactly in two: together, the
/// taken and the kept entries are the level's entries.
proof fn lemma_level_partition(s: LevelModel, budget: u64, c: int)
    ensures
        taken_from(s, budget, c).to_multiset().add(kept_from(s, budget, c).to_multiset())
            == s.to_multiset(),
    decreases s.len(),
{
    broadcast use vstd::seq_lib::group_to_multiset_ensures;

    if s.len() == 0 {
        assert(taken_from(s, budget, c).to_multiset().add(
            kept_from(s, budget, c).to_multiset(),
        ) =~= s.to_multiset());
    } else {
        let rest = s.drop_first();
        let head = seq![s[0]];
        assert(s =~= head + rest);
        lemma_multiset_commutative(head, rest);
        if c + s[0].0 <= budget {
            lemma_level_partition(rest, budget, c + s[0].0);
            let t2 = taken_from(rest, budget, c + s[0].0);
            lemma_multiset_commutative(head, t2);
            assert((head + t2).to_multiset().add(kept_from(rest, budget, c + s[0].0).to_multiset())
                =~= s.to_multiset());
        } else {
            lemma_level_partition(rest, budget, c);
            let k2 = kept_from(rest, budget, c);
            lemma_multiset_commutative(head, k2);
            assert(taken_from(rest, budget, c).to_multiset().add((head + k2).to_multiset())
                =~= s.to_multiset());
        }
    }
}

/// One level's pass never pushes the accumulator past the budget, and
/// what it takes sums to exactly the accumulator's advance.
proof fn lemma_level_sum(s: LevelModel, budget: u64, c: int)
    requires
        0 <= c <= budget,
    ensures
        c <= consumed_through(s, budget, c) <= budget,
        level_sum(taken_from(s, budget, c)) == consumed_through(s, budget, c) - c,
    decreases s.len(),
{
    if s.len() == 0 {
    } else {
        let rest = s.drop_first();
        if c + s[0].0 <= budget {
            lemma_level_sum(rest, budget, c + s[0].0);
            let t2 = taken_from(rest, budget, c + s[0].0);
            let t = seq![s[0]] + t2;
            assert(t.drop_first() =~= t2);
            assert(t[0] == s[0]);
        } else {
            lemma_level_sum(rest, budget, c);
        }
    }
}

/// No entry of a level with every entry oversized is taken: the level is
/// kept whole and the accumulator does not move.
proof fn lemma_level_noop(s: LevelModel, budget: u64, c: int)
    requires
        forall|i: int| 0 <= i < s.len() ==> c + s[i].0 > budget,
    ensures
        taken_from(s, budget, c).len() == 0,
        kept_from(s, budget, c) == s,
        consumed_through(s, budget, c) == c,
    decreases s.len(),
{
    if s.len() > 0 {
        let rest = s.drop_first();
        assert(c + s[0].0 > budget);
        assert(forall|i: int| 0 <= i < rest.len() ==> rest[i] == s[i + 1]);
        lemma_level_noop(rest, budget, c);
        assert(kept_from(s, budget, c) =~= s);
    }
}

/// Every sequence is a subsequence of itself.
proof fn lemma_subseq_refl(a: LevelModel)
    ensures
        subsequence_of(a, a),
    decreases a.len(),
{
    if a.len() > 0 {
        lemma_subseq_refl(a.drop_first());
    }
}

/// A subsequence of a sequence's tail is a subsequence of the sequence.
proof fn lemma_subseq_skip_head(a: LevelModel, b: LevelModel)
    requires
        b.len() > 0,
        subsequence_of(a, b.drop_first()),
    ensures
        subsequence_of(a, b),
    decreases a.len() + b.len(),
{
    if a.len() > 0 && a[0] == b[0] {
        lemma_subseq_drop_first(a, b.drop_first());
    }
}

/// Dropping a subsequence's first element leaves a subsequence.
proof fn lemma_subseq_drop_first(a: LevelModel, c: LevelModel)
    requires
        a.len() > 0,
        subsequence_of(a, c),
    ensures
        subsequence_of(a.drop_first(), c),
    decreases a.len() + c.len(),
{
    if c.len() > 0 {
        if a[0] == c[0] {
            lemma_subseq_skip_head(a.drop_first(), c);
        } else {
            lemma_subseq_drop_first(a, c.drop_first());
            lemma_subseq_skip_head(a.drop_first(), c);
        }
    }
}

/// Both halves of one level's pass keep the level's relative order.
proof fn lemma_level_subseq(s: LevelModel, budget: u64, c: int)
    ensures
        subsequence_of(taken_from(s, budget, c), s),
        subsequence_of(kept_from(s, budget, c), s),
    decreases s.len(),
{
    if s.len() > 0 {
        let rest = s.drop_first();
        if c + s[0].0 <= budget {
            lemma_level_subseq(rest, budget, c + s[0].0);
            let t = seq![s[0]] + taken_from(rest, budget, c + s[0].0);
            assert(t[0] == s[0]);
            assert(t.drop_first() =~= taken_from(rest, budget, c + s[0].0));
            lemma_subseq_skip_head(kept_from(rest, budget, c + s[0].0), s);
        } else {
            lemma_level_subseq(rest, budget, c);
            let k = seq![s[0]] + kept_from(rest, budget, c);
            assert(k[0] == s[0]);
            assert(k.drop_first() =~= kept_from(rest, budget, c));
            lemma_subseq_skip_head(taken_from(rest, budget, c), s);
        }
    }
}

/// The accumulator's path depends only on the visited levels.
proof fn lemma_consumed_agree(m1: StoreModel, m2: StoreModel, ks: Seq<u64>, budget: u64, c: int)
    requires
        forall|j: int| 0 <= j < ks.len() ==> m1[ks[j]] == m2[ks[j]],
    ensures
        consumed_over(m1, ks, budget, c) == consumed_over(m2, ks, budget, c),
    decreases ks.len(),
{
    if ks.len() > 0 {
        let tail = ks.drop_first();
        assert(forall|j: int| 0 <= j < tail.len() ==> tail[j] == ks[j + 1]);
        assert(m1[ks[0]] == m2[ks[0]]);
        lemma_consumed_agree(
            m1,
            m2,
            tail,
            budget,
            consumed_through(m1[ks[0]], budget, c),
        );
    }
}

/// A key never visited keeps its level and its presence through a pass.
proof fn lemma_rem_untouched(m: StoreModel, ks: Seq<u64>, budget: u64, c: int, k: u64)
    requires
        !ks.contains(k),
    ensures
        rem_over(m, ks, budget, c).dom().contains(k) <==> m.dom().contains(k),
        m.dom().contains(k) ==> rem_over(m, ks, budget, c)[k] == m[k],
    decreases ks.len(),
{
    if ks.len() > 0 {
        let tail = ks.drop_first();
        assert(ks[0] != k);
        assert forall|j: int| 0 <= j < tail.len() implies tail[j] != k by {
            assert(ks[j + 1] == tail[j]);
        }
        assert(!tail.contains(k));
        lemma_rem_untouched(
            m.insert(ks[0], kept_from(m[ks[0]], budget, c)),
            tail,
            budget,
            consumed_through(m[ks[0]], budget, c),
            k,
        );
    }
}

/// What a pass leaves and what it returns at the `i`-th visited key: the
/// kept and the taken half of that level, under the accumulator reached
/// over the earlier visited levels.
proof fn lemma_store_level(m: StoreModel, ks: Seq<u64>, budget: u64, c: int, i: int)
    requires
        ks.no_duplicates(),
        0 <= i < ks.len(),
    ensures
        ({
            let ci = consumed_over(m, ks.take(i), budget, c);
            let rem = rem_over(m, ks, budget, c);
            let out = out_over(m, ks, budget, c);
            rem.dom().contains(ks[i]) && rem[ks[i]] == kept_from(m[ks[i]], budget, ci) && (
            out.dom().contains(ks[i]) <==> taken_from(m[ks[i]], budget, ci).len() > 0) && (
            out.dom().contains(ks[i]) ==> out[ks[i]] == taken_from(m[ks[i]], budget, ci))
        }),
    decreases ks.len(),
{
    let k0 = ks[0];
    let kept0 = kept_from(m[k0], budget, c);
    let ct = consumed_through(m[k0], budget, c);
    let m2 = m.insert(k0, kept0);
    let tail = ks.drop_first();
    let rest = out_over(m, tail, budget, ct);
    assert(forall|j: int| 0 <= j < tail.len() ==> tail[j] == ks[j + 1]);
    assert forall|a: int, b2: int|
        0 <= a < tail.len() && 0 <= b2 < tail.len() && a != b2 implies tail[a] != tail[b2] by {
        assert(ks[a + 1] != ks[b2 + 1]);
    }
    assert(tail.no_duplicates());
    assert forall|j: int| 0 <= j < tail.len() implies tail[j] != k0 by {
        assert(ks[j + 1] != ks[0]);
    }
    lemma_out_over_dom(m, tail, budget, ct);
    if rest.dom().contains(k0) {
        assert(tail.contains(k0));
    }
    if i == 0 {
        assert(ks.take(0) =~= Seq::<u64>::empty());
        assert(consumed_over(m, ks.take(0), budget, c) == c);
        assert(!tail.contains(k0));
        lemma_rem_untouched(m2, tail, budget, ct, k0);
        assert(m2.dom().contains(k0) && m2[k0] == kept0);
    } else {
        assert(ks[i] == tail[i - 1]);
        assert(ks[i] != k0);
        // The accumulator over the first `i` keys advances through the
        // head level first.
        let front = ks.take(i);
        assert(front[0] == k0);
        assert(front.drop_first() =~= tail.take(i - 1));
        assert(consumed_over(m, front, budget, c) == consumed_over(
            m,
            tail.take(i - 1),
            budget,
            ct,
        ));
        let front_tail = tail.take(i - 1);
        assert forall|j: int| 0 <= j < front_tail.len() implies m2[#[trigger] front_tail[j]]
            == m[front_tail[j]] by {
            assert(front_tail[j] == tail[j]);
            assert(tail[j] != k0);
        }
        lemma_consumed_agree(m2, m, tail.take(i - 1), budget, ct);
        lemma_store_level(m2, tail, budget, ct, i - 1);
        assert(m2[tail[i - 1]] == m[ks[i]]);
        lemma_store_level(m, tail, budget, ct, i - 1);
    }
}

/// The total size a pass returns, level by level, is what its
/// accumulator advanced by, and the accumulator never passes the budget.
proof fn lemma_budget_rec(m: StoreModel, ks: Seq<u64>, budget: u64, c: int)
    requires
        ks.no_duplicates(),
        0 <= c <= budget,
    ensures
        c <= consumed_over(m, ks, budget, c) <= budget,
        total_over(out_over(m, ks, budget, c), ks) == consumed_over(m, ks, budget, c) - c,
    decreases ks.len(),
{
    if ks.len() > 0 {
        let k0 = ks[0];
        let ct = consumed_through(m[k0], budget, c);
        let t0 = taken_from(m[k0], budget, c);
        let tail = ks.drop_first();
        let rest = out_over(m, tail, budget, ct);
        let out = out_over(m, ks, budget, c);
        assert(forall|j: int| 0 <= j < tail.len() ==> tail[j] == ks[j + 1]);
        assert forall|a: int, b2: int|
            0 <= a < tail.len() && 0 <= b2 < tail.len() && a != b2 implies tail[a] != tail[b2] by {
            assert(ks[a + 1] != ks[b2 + 1]);
        }
        assert(tail.no_duplicates());
        assert forall|j: int| 0 <= j < tail.len() implies tail[j] != k0 by {
            assert(ks[j + 1] != ks[0]);
        }
        lemma_level_sum(m[k0], budget, c);
        lemma_budget_rec(m, tail, budget, ct);
        lemma_out_over_dom(m, tail, budget, ct);
        if rest.dom().contains(k0) {
            assert(tail.contains(k0));
        }
        assert(!rest.dom().contains(k0));
        assert forall|j: int|
            0 <= j < tail.len() implies (out.dom().contains(tail[j]) <==> rest.dom().contains(
            tail[j],
        )) && (rest.dom().contains(tail[j]) ==> out[tail[j]] == rest[tail[j]]) by {
            assert(tail[j] != k0);
        }
        lemma_total_agree(out, rest, tail);
        if t0.len() > 0 {
            assert(out == rest.insert(k0, t0));
            assert(out.dom().contains(k0) && out[k0] == t0);
        } else {
            assert(out == rest);
            if out.dom().contains(k0) {
                assert(tail.contains(k0));
            }
            assert(!out.dom().contains(k0));
            assert(level_sum(t0) == 0);
        }
    }
}

/// Summing levels over given keys reads only those keys.
proof fn lemma_total_agree(sm1: StoreModel, sm2: StoreModel, ks: Seq<u64>)
    requires
        forall|j: int|
            0 <= j < ks.len() ==> (sm1.dom().contains(ks[j]) <==> sm2.dom().contains(ks[j])) && (
            sm2.dom().contains(ks[j]) ==> sm1[ks[j]] == sm2[ks[j]]),
    ensures
        total_over(sm1, ks) == total_over(sm2, ks),
    decreases ks.len(),
{
    if ks.len() > 0 {
        let tail = ks.drop_first();
        assert(forall|j: int| 0 <= j < tail.len() ==> tail[j] == ks[j + 1]);
        lemma_total_agree(sm1, sm2, tail);
    }
}

/// A strictly ascending key listing repeats no key.
proof fn lemma_ascending_no_duplicates(ks: Seq<u64>)
    requires
        is_ascending(ks),
    ensures
        ks.no_duplicates(),
{
    assert forall|a: int, b2: int|
        0 <= a < ks.len() && 0 <= b2 < ks.len() && a != b2 implies ks[a] != ks[b2] by {
        if a < b2 {
            assert(ks[a] < ks[b2]);
        } else {
            assert(ks[b2] < ks[a]);
        }
    }
}

/// A pass neither invents, loses nor duplicates an entry: at every price
/// key, the entries of the returned store and of the source store after
/// the pass are together exactly the entries of the source store before
/// it.
pub proof fn law_conservation(m: StoreModel, ceiling: u64, budget: u64)
    requires
        m.dom().finite(),
    ensures
        ({
            let ks = level_order(scope(m.dom(), ceiling));
            forall|k: u64|
                #![trigger level_mset(m, k)]
                level_mset(out_over(m, ks, budget, 0), k).add(
                    level_mset(rem_over(m, ks, budget, 0), k),
                ) == level_mset(m, k)
        }),
{
    broadcast use vstd::set::group_set_axioms;
    broadcast use vstd::seq_lib::group_to_multiset_ensures;

    lemma_level_order(scope(m.dom(), ceiling));
    let ks = level_order(scope(m.dom(), ceiling));
    lemma_ascending_no_duplicates(ks);
    let out = out_over(m, ks, budget, 0);
    let rem = rem_over(m, ks, budget, 0);
    lemma_out_over_dom(m, ks, budget, 0);
    assert forall|k: u64|
        level_mset(out, k).add(level_mset(rem, k)) == #[trigger] level_mset(m, k) by {
        if ks.contains(k) {
            assert(ks.to_set().contains(k));
            assert(scope(m.dom(), ceiling).contains(k));
            assert(m.dom().contains(k));
            let i = choose|i: int| 0 <= i < ks.len() && ks[i] == k;
            lemma_store_level(m, ks, budget, 0, i);
            let ci = consumed_over(m, ks.take(i), budget, 0);
            lemma_level_partition(m[k], budget, ci);
            let t = taken_from(m[k], budget, ci);
            if t.len() == 0 {
                assert forall|e: (u64, Seq<char>)| t.to_multiset().count(e) == 0nat by {
                    assert(!t.contains(e));
                }
                assert(t.to_multiset() =~= Multiset::empty());
                assert(level_mset(out, k) =~= t.to_multiset());
            }
            assert(level_mset(out, k).add(level_mset(rem, k)) =~= level_mset(m, k));
        } else {
            lemma_rem_untouched(m, ks, budget, 0, k);
            if out.dom().contains(k) {
                assert(ks.contains(k));
            }
            assert(level_mset(out, k) =~= Multiset::empty());
            assert(level_mset(out, k).add(level_mset(rem, k)) =~= level_mset(m, k));
        }
    }
}

/// The sizes of the entries a pass returns sum to at most the budget.
pub proof fn law_budget_bound(m: StoreModel, ceiling: u64, budget: u64)
    requires
        m.dom().finite(),
    ensures
        ({
            let ks = level_order(scope(m.dom(), ceiling));
            total_over(out_over(m, ks, budget, 0), ks) == consumed_over(m, ks, budget, 0)
                && 0 <= consumed_over(m, ks, budget, 0) <= budget
        }),
{
    lemma_level_order(scope(m.dom(), ceiling));
    let ks = level_order(scope(m.dom(), ceiling));
    lemma_ascending_no_duplicates(ks);
    lemma_budget_rec(m, ks, budget, 0);
}

/// A pass reaches no level at or above the ceiling: every returned key
/// is strictly below it, every key stays present, and every level at or
/// above the ceiling is left exactly as it was.
pub proof fn law_price_scope(m: StoreModel, ceiling: u64, budget: u64)
    requires
        m.dom().finite(),
    ensures
        ({
            let ks = level_order(scope(m.dom(), ceiling));
            let out = out_over(m, ks, budget, 0);
            let rem = rem_over(m, ks, budget, 0);
            (forall|k: u64| #[trigger] out.dom().contains(k) ==> k < ceiling && m.dom().contains(k))
                && rem.dom() == m.dom() && (forall|k: u64|
                #[trigger] m.dom().contains(k) && k >= ceiling ==> rem[k] == m[k])
        }),
{
    broadcast use vstd::set::group_set_axioms;

    lemma_level_order(scope(m.dom(), ceiling));
    let ks = level_order(scope(m.dom(), ceiling));
    lemma_ascending_no_duplicates(ks);
    let out = out_over(m, ks, budget, 0);
    let rem = rem_over(m, ks, budget, 0);
    lemma_out_over_dom(m, ks, budget, 0);
    assert forall|k: u64| #[trigger] out.dom().contains(k) implies k < ceiling
        && m.dom().contains(k) by {
        assert(ks.contains(k));
        assert(ks.to_set().contains(k));
        assert(scope(m.dom(), ceiling).contains(k));
    }
    assert forall|k: u64| rem.dom().contains(k) implies m.dom().contains(k) by {
        if !ks.contains(k) {
            lemma_rem_untouched(m, ks, budget, 0, k);
        } else {
            assert(ks.to_set().contains(k));
            assert(scope(m.dom(), ceiling).contains(k));
        }
    }
    assert forall|k: u64| m.dom().contains(k) implies rem.dom().contains(k) by {
        if !ks.contains(k) {
            lemma_rem_untouched(m, ks, budget, 0, k);
        } else {
            let i = choose|i: int| 0 <= i < ks.len() && ks[i] == k;
            lemma_store_level(m, ks, budget, 0, i);
        }
    }
    assert(rem.dom() =~= m.dom());
    assert forall|k: u64| #[trigger] m.dom().contains(k) && k >= ceiling implies rem[k] == m[k] by {
        if ks.contains(k) {
            assert(ks.to_set().contains(k));
            assert(scope(m.dom(), ceiling).contains(k));
        }
        lemma_rem_untouched(m, ks, budget, 0, k);
    }
}

/// Within every level, both what stays and what is returned keep the
/// relative order the entries had before the pass.
pub proof fn law_order_preservation(m: StoreModel, ceiling: u64, budget: u64)
    requires
        m.dom().finite(),
    ensures
        ({
            let ks = level_order(scope(m.dom(), ceiling));
            let out = out_over(m, ks, budget, 0);
            let rem = rem_over(m, ks, budget, 0);
            (forall|k: u64|
                #[trigger] rem.dom().contains(k) ==> subsequence_of(rem[k], level_at(m, k))) && (
            forall|k: u64|
                #[trigger] out.dom().contains(k) ==> subsequence_of(out[k], level_at(m, k)))
        }),
{
    broadcast use vstd::set::group_set_axioms;

    lemma_level_order(scope(m.dom(), ceiling));
    let ks = level_order(scope(m.dom(), ceiling));
    lemma_ascending_no_duplicates(ks);
    let out = out_over(m, ks, budget, 0);
    let rem = rem_over(m, ks, budget, 0);
    lemma_out_over_dom(m, ks, budget, 0);
    assert forall|k: u64| #[trigger] rem.dom().contains(k) implies subsequence_of(
        rem[k],
        level_at(m, k),
    ) by {
        if ks.contains(k) {
            assert(ks.to_set().contains(k));
            assert(scope(m.dom(), ceiling).contains(k));
            let i = choose|i: int| 0 <= i < ks.len() && ks[i] == k;
            lemma_store_level(m, ks, budget, 0, i);
            lemma_level_subseq(m[k], budget, consumed_over(m, ks.take(i), budget, 0));
        } else {
            lemma_rem_untouched(m, ks, budget, 0, k);
            lemma_subseq_refl(m[k]);
        }
    }
    assert forall|k: u64| #[trigger] out.dom().contains(k) implies subsequence_of(
        out[k],
        level_at(m, k),
    ) by {
        assert(ks.contains(k));
        assert(ks.to_set().contains(k));
        assert(scope(m.dom(), ceiling).contains(k));
        let i = choose|i: int| 0 <= i < ks.len() && ks[i] == k;
        lemma_store_level(m, ks, budget, 0, i);
        lemma_level_subseq(m[k], budget, consumed_over(m, ks.take(i), budget, 0));
    }
}

/// A pass over only oversized or absent work changes nothing: on a store
/// whose levels are all empty, under a ceiling of zero, or under a zero
/// budget with no zero-sized entry in reach, the returned store is empty
/// and the source store keeps every level as it was.  (A zero-sized
/// entry below the ceiling is consumed even under a zero budget, so that
/// case is excluded here.)
pub proof fn law_empty_result(m: StoreModel, ceiling: u64, budget: u64)
    requires
        m.dom().finite(),
        (forall|k: u64| #[trigger] m.dom().contains(k) ==> m[k].len() == 0) || ceiling == 0 || (
        budget == 0 && forall|k: u64, i: int|
            m.dom().contains(k) && k < ceiling && 0 <= i < m[k].len() ==> (#[trigger] m[k][i]).0
                > 0),
    ensures
        ({
            let ks = level_order(scope(m.dom(), ceiling));
            out_over(m, ks, budget, 0) == empty_store() && rem_over(m, ks, budget, 0) == m
        }),
{
    broadcast use vstd::set::group_set_axioms;

    lemma_level_order(scope(m.dom(), ceiling));
    let ks = level_order(scope(m.dom(), ceiling));
    if ceiling == 0 {
        assert forall|x: u64| !(scope(m.dom(), ceiling).contains(x)) by {}
        assert(scope(m.dom(), ceiling) =~= Set::<u64>::empty());
        if ks.len() > 0 {
            assert(ks.to_set().contains(ks[0]));
        }
        assert(ks =~= Seq::<u64>::empty());
        assert(out_over(m, ks, budget, 0) =~= empty_store());
    } else {
        assert forall|j: int, i: int|
            0 <= j < ks.len() && 0 <= i < m[ks[j]].len() implies 0 + (#[trigger] m[ks[j]][i]).0
            > budget by {
            assert(ks.to_set().contains(ks[j]));
            assert(scope(m.dom(), ceiling).contains(ks[j]));
            assert(m.dom().contains(ks[j]) && ks[j] < ceiling);
            if forall|k: u64| #[trigger] m.dom().contains(k) ==> m[k].len() == 0 {
                assert(m[ks[j]].len() == 0);
            } else {
                assert(m[ks[j]][i].0 > 0);
            }
        }
        assert forall|j: int| 0 <= j < ks.len() implies m.dom().contains(#[trigger] ks[j]) by {
            assert(ks.to_set().contains(ks[j]));
            assert(scope(m.dom(), ceiling).contains(ks[j]));
        }
        lemma_noop_rec(m, ks, budget, 0);
    }
}

/// A pass over levels whose every entry is oversized for the remaining
/// budget returns nothing and changes nothing.
proof fn lemma_noop_rec(m: StoreModel, ks: Seq<u64>, budget: u64, c: int)
    requires
        forall|j: int| 0 <= j < ks.len() ==> m.dom().contains(#[trigger] ks[j]),
        forall|j: int, i: int|
            0 <= j < ks.len() && 0 <= i < m[ks[j]].len() ==> c + (#[trigger] m[ks[j]][i]).0
                > budget,
    ensures
        out_over(m, ks, budget, c) == empty_store(),
        rem_over(m, ks, budget, c) == m,
    decreases ks.len(),
{
    if ks.len() == 0 {
        assert(out_over(m, ks, budget, c) =~= empty_store());
    } else {
        let k0 = ks[0];
        let tail = ks.drop_first();
        assert(forall|i: int| 0 <= i < m[k0].len() ==> c + m[k0][i].0 > budget);
        lemma_level_noop(m[k0], budget, c);
        assert(m.insert(k0, kept_from(m[k0], budget, c)) =~= m);
        assert(forall|j: int| 0 <= j < tail.len() ==> tail[j] == ks[j + 1]);
        assert forall|j: int, i: int|
            0 <= j < tail.len() && 0 <= i < m[tail[j]].len() implies c + (#[trigger] m[tail[j]][i]).0
            > budget by {
            assert(tail[j] == ks[j + 1]);
            assert(c + m[ks[j + 1]][i].0 > budget);
        }
        lemma_noop_rec(m, tail, budget, c);
    }
}

} // verus!
