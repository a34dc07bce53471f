//! The semantic wrapper types and the price-level store.

use crate::ext_map::mm_get_level;
use crate::ext_map::mm_insert;
use crate::ext_map::mm_insert_level;
use crate::ext_map::mm_keys;
use crate::ext_map::mm_new;
use crate::ext_map::mm_set_level;
use crate::ext_map::mm_view;
use crate::model::add_model;
use crate::model::consumed_through;
use crate::model::empty_store;
use crate::model::entries_view;
use crate::model::has_size;
use crate::model::is_ascending;
use crate::model::kept_from;
use crate::model::lemma_ascending_unique;
use crate::model::lemma_first_size_at;
use crate::model::lemma_out_over_dom;
use crate::model::level_order;
use crate::model::out_over;
use crate::model::rem_over;
use crate::model::scope;
use crate::model::taken_from;
use crate::model::without_model;
use crate::model::LevelModel;
use crate::model::StoreModel;
use vstd::prelude::*;

verus! {

/// An unsigned price; the key of a price level.
#[derive(Default, Debug, Copy, Clone, PartialEq, Eq, Ord, PartialOrd, Hash, Structural)]
pub struct Price(pub u64);

/// An unsigned quantity; both a per-entry magnitude and a consumption budget.
#[derive(Default, Debug, Copy, Clone, PartialEq, Eq, Ord, PartialOrd, Structural)]
pub struct Size(pub u64);

/// An opaque payload carried with an entry; never inspected by the algorithms.
#[derive(Default, Debug, Clone, PartialEq, Eq)]
pub struct Meta(pub String);

impl From<u64> for Price {
    fn from(num: u64) -> (r: Price) {
        Price(num)
    }
}

impl vstd::std_specs::convert::FromSpecImpl<u64> for Price {
    open spec fn obeys_from_spec() -> bool {
        true
    }

    open spec fn from_spec(num: u64) -> Price {
        Price(num)
    }
}

impl From<u64> for Size {
    fn from(num: u64) -> (r: Size) {
        Size(num)
    }
}

impl vstd::std_specs::convert::FromSpecImpl<u64> for Size {
    open spec fn obeys_from_spec() -> bool {
        true
    }

    open spec fn from_spec(num: u64) -> Size {
        Size(num)
    }
}

impl From<String> for Meta {
    fn from(meta: String) -> (r: Meta) {
        Meta(meta)
    }
}

impl vstd::std_specs::convert::FromSpecImpl<String> for Meta {
    open spec fn obeys_from_spec() -> bool {
        true
    }

    open spec fn from_spec(meta: String) -> Meta {
        Meta(meta)
    }
}

/// The backing container: a multi-valued map from a raw price to the
/// (size, payload) pairs resting at it, in insertion order.
pub type ContainerData = multimap::MultiMap<u64, (u64, String)>;

/// A price-level store: each price key holds its entries in the order
/// they were appended.
#[derive(Debug, Clone)]
pub struct Container {
    pub data: ContainerData,
}

impl View for Container {
    type V = StoreModel;

    open spec fn view(&self) -> StoreModel {
        mm_view(self.data)
    }
}

impl Default for Container {
    /// The default store is the empty store.
    fn default() -> (r: Self)
        ensures
            r@ == empty_store(),
    {
        Container { data: mm_new() }
    }
}

impl Container {
    /// An empty store.
    pub fn new() -> (r: Self)
        ensures
            r@ == empty_store(),
    {
        Container { data: mm_new() }
    }

    /// A store over a pre-built mapping.
    pub fn new_with_data(cd: ContainerData) -> (r: Self)
        ensures
            r@ == mm_view(cd),
    {
        Container { data: cd }
    }

    /// Appends one entry at `price`, creating the level when absent.
    pub fn add(&mut self, price: Price, size: Size, meta: Meta)
        ensures
            final(self)@ == add_model(old(self)@, price.0, size.0, meta.0@),
    {
        let ghost m0 = self@;
        mm_insert(&mut self.data, price.0, size.0, meta.0);
        proof {
            if !m0.dom().contains(price.0) {
                assert(seq![(size.0, meta.0@)] =~= Seq::<(u64, Seq<char>)>::empty().push(
                    (size.0, meta.0@),
                ));
            }
        }
    }

    /// Consumes, in ascending price order over the levels strictly below
    /// `price`, every entry that still fits into the running size budget
    /// `size`, removing it from this store.  The consumed entries come
    /// back as a new store keyed by their original prices; a level that
    /// loses all its entries stays behind as a key with an empty level.
    pub fn process(&mut self, price: Price, size: Size) -> (r: Container)
        ensures
            old(self)@.dom().finite(),
            r@ == out_over(
                old(self)@,
                level_order(scope(old(self)@.dom(), price.0)),
                size.0,
                0,
            ),
            final(self)@ == rem_over(
                old(self)@,
                level_order(scope(old(self)@.dom(), price.0)),
                size.0,
                0,
            ),
    {
        let ghost m0 = self@;
        let keys = mm_keys(&self.data);
        let mut sel: Vec<u64> = Vec::new();
        let nk = keys.len();
        let mut t: usize = 0;
        proof {
            assert(keys@.take(0) =~= Seq::<u64>::empty());
            assert(sel@.to_set() =~= scope(keys@.take(0).to_set(), price.0));
        }
        while t < nk
            invariant
                m0 == old(self)@,
                self@ == m0,
                nk == keys@.len(),
                0 <= t <= nk,
                keys@.no_duplicates(),
                keys@.to_set() == m0.dom(),
                is_ascending(sel@),
                sel@.to_set() == scope(keys@.take(t as int).to_set(), price.0),
            decreases nk - t,
        {
            let k = keys[t];
            if k < price.0 {
                proof {
                    if sel@.contains(k) {
                        assert(sel@.to_set().contains(k));
                        assert(keys@.take(t as int).to_set().contains(k));
                        let j = choose|j: int|
                            0 <= j < keys@.take(t as int).len() && keys@.take(t as int)[j] == k;
                        assert(keys@[j] == keys@[t as int]);
                    }
                }
                insert_ascending(&mut sel, k);
            }
            proof {
                assert(keys@.take(t as int + 1) =~= keys@.take(t as int).push(keys@[t as int]));
                broadcast use vstd::set::group_set_axioms;

                assert forall|x: u64|
                    keys@.take(t as int + 1).to_set().contains(x) implies keys@.take(
                    t as int,
                ).to_set().contains(x) || x == k by {
                    let taken_keys = keys@.take(t as int + 1);
                    let j = choose|j: int| 0 <= j < taken_keys.len() && taken_keys[j] == x;
                    if j < t as int {
                        assert(keys@.take(t as int)[j] == x);
                    }
                }
                assert forall|x: u64|
                    keys@.take(t as int).to_set().contains(x) implies keys@.take(
                    t as int + 1,
                ).to_set().contains(x) by {
                    let head = keys@.take(t as int);
                    let j = choose|j: int| 0 <= j < head.len() && head[j] == x;
                    assert(keys@.take(t as int + 1)[j] == x);
                }
                assert(keys@.take(t as int + 1)[t as int] == k);
                assert(keys@.take(t as int + 1).to_set().contains(k));
                assert(keys@.take(t as int + 1).to_set() =~= keys@.take(t as int).to_set().insert(
                    k,
                ));
                assert(sel@.to_set() =~= scope(keys@.take(t as int + 1).to_set(), price.0));
            }
            t = t + 1;
        }
        let ghost pk = scope(m0.dom(), price.0);
        proof {
            broadcast use vstd::seq_lib::seq_to_set_is_finite;

            assert(keys@.take(nk as int) =~= keys@);
            assert(sel@.to_set() == pk);
            assert(m0.dom().finite());
        }
        let mut out = Container { data: mm_new() };
        let mut consumed: u64 = 0;
        let ns = sel.len();
        let mut i: usize = 0;
        proof {
            assert(sel@.skip(0) =~= sel@);
            assert(Map::<u64, LevelModel>::empty().union_prefer_right(
                out_over(m0, sel@, size.0, 0),
            ) =~= out_over(m0, sel@, size.0, 0));
            assert(Map::<u64, LevelModel>::empty().dom() =~= Set::<u64>::empty());
            assert forall|j: int| 0 <= j < ns implies m0.dom().contains(sel@[j]) by {
                assert(sel@.to_set().contains(sel@[j]));
            }
        }
        while i < ns
            invariant
                m0 == old(self)@,
                ns == sel@.len(),
                0 <= i <= ns,
                is_ascending(sel@),
                sel@.to_set() == pk,
                pk == scope(m0.dom(), price.0),
                m0.dom().finite(),
                0 <= consumed <= size.0,
                forall|j: int|
                    i <= j < ns ==> m0.dom().contains(sel@[j]) && self@.dom().contains(sel@[j])
                        && self@[sel@[j]] == m0[sel@[j]],
                mm_view(out.data).dom().subset_of(sel@.take(i as int).to_set()),
                out_over(m0, sel@, size.0, 0) == mm_view(out.data).union_prefer_right(
                    out_over(m0, sel@.skip(i as int), size.0, consumed as int),
                ),
                rem_over(m0, sel@, size.0, 0) == rem_over(
                    self@,
                    sel@.skip(i as int),
                    size.0,
                    consumed as int,
                ),
            decreases ns - i,
        {
            let k = sel[i];
            let ghost mcur = self@;
            proof {
                assert(sel@.skip(i as int)[0] == k);
                assert(sel@.skip(i as int).drop_first() =~= sel@.skip(i as int + 1));
            }
            let level = mm_get_level(&self.data, k).unwrap();
            let (tk, kp, c2) = split_level(&level, size.0, consumed);
            proof {
                assert(entries_view(level@) == mcur[k]);
                assert(mcur[k] == m0[k]);
            }
            mm_set_level(&mut self.data, k, kp);
            let ghost tkn = taken_from(m0[k], size.0, consumed as int);
            let ghost ct = consumed_through(m0[k], size.0, consumed as int);
            let ghost ov = mm_view(out.data);
            let ghost rest_next = out_over(m0, sel@.skip(i as int + 1), size.0, ct);
            proof {
                assert(c2 as int == ct);
                assert(entries_view(tk@).len() == tk@.len());
                assert(out_over(m0, sel@.skip(i as int), size.0, consumed as int) == (if tkn.len()
                    > 0 {
                    rest_next.insert(k, tkn)
                } else {
                    rest_next
                }));
                lemma_out_over_dom(m0, sel@.skip(i as int + 1), size.0, ct);
                if rest_next.dom().contains(k) {
                    let tail_keys = sel@.skip(i as int + 1);
                    assert(tail_keys.contains(k));
                    let j = choose|j: int| 0 <= j < tail_keys.len() && tail_keys[j] == k;
                    assert(sel@[j + i + 1] == k);
                    assert(sel@[i as int] < sel@[j + i + 1]);
                }
                assert(!rest_next.dom().contains(k));
                if mm_view(out.data).dom().contains(k) {
                    let head_keys = sel@.take(i as int);
                    assert(head_keys.to_set().contains(k));
                    let j = choose|j: int| 0 <= j < head_keys.len() && head_keys[j] == k;
                    assert(sel@[j] < sel@[i as int]);
                }
                assert(!mm_view(out.data).dom().contains(k));
            }
            if tk.len() > 0 {
                mm_insert_level(&mut out.data, k, tk);
                proof {
                    assert(mm_view(out.data) == ov.insert(k, tkn));
                    assert(ov.union_prefer_right(rest_next.insert(k, tkn)) =~= ov.insert(
                        k,
                        tkn,
                    ).union_prefer_right(rest_next));
                }
            } else {
                proof {
                    assert(tkn.len() == 0);
                }
            }
            proof {
                assert(sel@.take(i as int + 1) =~= sel@.take(i as int).push(sel@[i as int]));
                broadcast use vstd::set::group_set_axioms;

                assert forall|x: u64|
                    sel@.take(i as int).to_set().contains(x) implies sel@.take(
                    i as int + 1,
                ).to_set().contains(x) by {
                    let head_keys = sel@.take(i as int);
                    let j = choose|j: int| 0 <= j < head_keys.len() && head_keys[j] == x;
                    assert(sel@.take(i as int + 1)[j] == x);
                }
                assert(sel@.take(i as int + 1)[i as int] == k);
                assert(sel@.take(i as int + 1).to_set().contains(k));
                assert(mm_view(out.data).dom().subset_of(sel@.take(i as int + 1).to_set()));
                assert(rem_over(mcur, sel@.skip(i as int), size.0, consumed as int) == rem_over(
                    self@,
                    sel@.skip(i as int + 1),
                    size.0,
                    ct,
                ));
            }
            consumed = c2;
            i = i + 1;
        }
        proof {
            assert(sel@.skip(ns as int) =~= Seq::<u64>::empty());
            assert(out_over(m0, sel@.skip(ns as int), size.0, consumed as int) =~= Map::<
                u64,
                LevelModel,
            >::empty());
            assert(mm_view(out.data).union_prefer_right(
                Map::<u64, LevelModel>::empty(),
            ) =~= mm_view(out.data));
            assert(rem_over(self@, sel@.skip(ns as int), size.0, consumed as int) == self@);
            assert(is_ascending(sel@) && sel@.to_set() == pk);
            lemma_ascending_unique(level_order(pk), sel@);
        }
        out
    }

    /// Removes the first entry of exactly `size` at `price`, when there
    /// is one; a miss on the key or on the size is a no-op.
    pub fn without(self, price: Price, size: Size) -> (r: Self)
        ensures
            r@ == without_model(self@, price.0, size.0),
    {
        let mut this = self;
        let level = mm_get_level(&this.data, price.0);
        match level {
            None => this,
            Some(v) => {
                let ghost lv = mm_view(this.data)[price.0];
                let n = v.len();
                let mut i: usize = 0;
                while i < n
                    invariant
                        this == self,
                        self@.dom().contains(price.0),
                        lv == self@[price.0],
                        n == v.len(),
                        0 <= i <= n,
                        entries_view(v@) == lv,
                        forall|j: int| 0 <= j < i ==> lv[j].0 != size.0,
                    decreases n - i,
                {
                    if v[i].0 == size.0 {
                        proof {
                            assert(lv[i as int].0 == size.0);
                            lemma_first_size_at(lv, size.0, i as int);
                        }
                        let mut v2 = v;
                        v2.remove(i);
                        proof {
                            assert(entries_view(v2@) =~= lv.remove(i as int));
                        }
                        mm_set_level(&mut this.data, price.0, v2);
                        return this;
                    }
                    i = i + 1;
                }
                proof {
                    assert(!has_size(lv, size.0));
                }
                this
            },
        }
    }
}

/// Inserts a fresh key into a strictly ascending vector, keeping it
/// strictly ascending.
fn insert_ascending(v: &mut Vec<u64>, k: u64)
    requires
        is_ascending(old(v)@),
        !old(v)@.contains(k),
    ensures
        is_ascending(final(v)@),
        final(v)@.to_set() == old(v)@.to_set().insert(k),
{
    let ghost s0 = v@;
    let n = v.len();
    let mut pos: usize = 0;
    while pos < n && v[pos] < k
        invariant
            v@ == s0,
            n == s0.len(),
            0 <= pos <= n,
            forall|j: int| 0 <= j < pos ==> s0[j] < k,
        decreases n - pos,
    {
        pos = pos + 1;
    }
    v.insert(pos, k);
    proof {
        broadcast use vstd::set::group_set_axioms;

        s0.insert_ensures(pos as int, k);
        assert(!s0.contains(k));
        assert forall|i: int, j: int| 0 <= i < j < v@.len() implies v@[i] < v@[j] by {
            if pos < s0.len() {
                assert(s0[pos as int] != k);
                assert(s0[pos as int] > k);
            }
            if j < pos {
                assert(v@[i] == s0[i] && v@[j] == s0[j]);
            } else if j == pos {
                assert(v@[i] == s0[i] && s0[i] < k);
            } else {
                assert(v@[j] == s0[j - 1] && s0[j - 1] >= s0[pos as int]);
                if i < pos {
                    assert(v@[i] == s0[i] && s0[i] < k);
                } else if i == pos {
                    assert(v@[i] == k);
                } else {
                    assert(v@[i] == s0[i - 1] && s0[i - 1] < s0[j - 1]);
                }
            }
        }
        assert forall|x: u64| v@.to_set().contains(x) implies s0.to_set().insert(k).contains(
            x,
        ) by {
            let i = choose|i: int| 0 <= i < v@.len() && v@[i] == x;
            if i < pos {
                assert(s0[i] == x);
            } else if i > pos {
                assert(s0[i - 1] == x);
            }
        }
        assert forall|x: u64| s0.to_set().insert(k).contains(x) implies v@.to_set().contains(
            x,
        ) by {
            if x == k {
                assert(v@[pos as int] == x);
            } else {
                let i = choose|i: int| 0 <= i < s0.len() && s0[i] == x;
                if i < pos {
                    assert(v@[i] == x);
                } else {
                    assert(v@[i + 1] == x);
                }
            }
        }
        assert(v@.to_set() =~= s0.to_set().insert(k));
    }
}

/// One pass over one level: each entry, in order, is moved to the taken
/// vector exactly when its size still fits into the budget on top of the
/// running total, and to the kept vector otherwise.
fn split_level(v: &Vec<(u64, String)>, budget: u64, start: u64) -> (r: (
    Vec<(u64, String)>,
    Vec<(u64, String)>,
    u64,
))
    requires
        start <= budget,
    ensures
        entries_view(r.0@) == taken_from(entries_view(v@), budget, start as int),
        entries_view(r.1@) == kept_from(entries_view(v@), budget, start as int),
        r.2 as int == consumed_through(entries_view(v@), budget, start as int),
        start <= r.2 <= budget,
{
    let ghost ev = entries_view(v@);
    let mut taken: Vec<(u64, String)> = Vec::new();
    let mut kept: Vec<(u64, String)> = Vec::new();
    let mut c: u64 = start;
    let n = v.len();
    let mut i: usize = 0;
    proof {
        assert(ev.skip(0) =~= ev);
        assert(entries_view(taken@) =~= Seq::<(u64, Seq<char>)>::empty());
        assert(entries_view(kept@) =~= Seq::<(u64, Seq<char>)>::empty());
    }
    while i < n
        invariant
            n == v@.len(),
            ev == entries_view(v@),
            0 <= i <= n,
            start <= c <= budget,
            taken_from(ev, budget, start as int) == entries_view(taken@) + taken_from(
                ev.skip(i as int),
                budget,
                c as int,
            ),
            kept_from(ev, budget, start as int) == entries_view(kept@) + kept_from(
                ev.skip(i as int),
                budget,
                c as int,
            ),
            consumed_through(ev, budget, start as int) == consumed_through(
                ev.skip(i as int),
                budget,
                c as int,
            ),
        decreases n - i,
    {
        let sz = v[i].0;
        let payload = v[i].1.clone();
        proof {
            assert(ev.skip(i as int)[0] == ev[i as int]);
            assert(ev[i as int] == (v@[i as int].0, v@[i as int].1@));
            assert(ev.skip(i as int).drop_first() =~= ev.skip(i as int + 1));
        }
        let ghost taken0 = taken@;
        let ghost kept0 = kept@;
        if sz <= budget - c {
            taken.push((sz, payload));
            proof {
                assert(entries_view(taken@) =~= entries_view(taken0).push((sz, v@[i as int].1@)));
                assert(entries_view(taken0) + (seq![ev[i as int]] + taken_from(
                    ev.skip(i as int + 1),
                    budget,
                    c + sz,
                )) =~= entries_view(taken@) + taken_from(ev.skip(i as int + 1), budget, c + sz));
            }
            c = c + sz;
        } else {
            kept.push((sz, payload));
            proof {
                assert(entries_view(kept@) =~= entries_view(kept0).push((sz, v@[i as int].1@)));
                assert(entries_view(kept0) + (seq![ev[i as int]] + kept_from(
                    ev.skip(i as int + 1),
                    budget,
                    c as int,
                )) =~= entries_view(kept@) + kept_from(ev.skip(i as int + 1), budget, c as int));
            }
        }
        i = i + 1;
    }
    proof {
        assert(ev.skip(n as int) =~= Seq::<(u64, Seq<char>)>::empty());
        assert(entries_view(taken@) + Seq::<(u64, Seq<char>)>::empty() =~= entries_view(taken@));
        assert(entries_view(kept@) + Seq::<(u64, Seq<char>)>::empty() =~= entries_view(kept@));
    }
    (taken, kept, c)
}

} // verus!
