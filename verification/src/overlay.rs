//! The overlay store: pending, not-yet-saved edits, keyed by byte offset
//! into the original file and held in ascending key order.

use crate::event::{Event, EventData, EventModel};
use vstd::prelude::*;

verus! {

/// The edits anchored at one byte offset: events to render immediately
/// before the original line there, in order, and a flag suppressing that
/// original line.
#[derive(Debug)]
pub struct ModificationChain {
    pub modifications: Vec<Event>,
    original_deleted: bool,
}

/// The mathematical image of a [`ModificationChain`].
#[verifier::ext_equal]
pub struct ChainModel {
    pub mods: Seq<EventModel>,
    pub original_deleted: bool,
}

impl View for ModificationChain {
    type V = ChainModel;

    closed spec fn view(&self) -> ChainModel {
        ChainModel {
            mods: self.modifications@.map_values(|e: Event| e@),
            original_deleted: self.original_deleted,
        }
    }
}

/// A chain with no insertions and the original line kept.
pub open spec fn empty_chain() -> ChainModel {
    ChainModel { mods: Seq::empty(), original_deleted: false }
}

impl ModificationChain {
    /// A fresh chain: nothing inserted, the original line kept.
    pub fn new() -> (r: Self)
        ensures
            r@ == empty_chain(),
    {
        let r = ModificationChain { modifications: Vec::new(), original_deleted: false };
        proof {
            assert(r@ =~= empty_chain());
        }
        r
    }

    pub fn len(&self) -> (r: usize)
        ensures
            r == self@.mods.len(),
    {
        self.modifications.len()
    }

    pub fn original_deleted(&self) -> (r: bool)
        ensures
            r == self@.original_deleted,
    {
        self.original_deleted
    }

    pub fn get_event(&self, order: usize) -> (r: &Event)
        requires
            order < self@.mods.len(),
        ensures
            r@ == self@.mods[order as int],
    {
        &self.modifications[order]
    }

    /// Insert an event before position `order`.
    pub fn insert_event(&mut self, order: usize, e: Event)
        requires
            order <= old(self)@.mods.len(),
        ensures
            final(self)@.mods == old(self)@.mods.insert(order as int, e@),
            final(self)@.original_deleted == old(self)@.original_deleted,
    {
        let ghost before = self.modifications@;
        self.modifications.insert(order, e);
        proof {
            assert(self.modifications@.map_values(|ev: Event| ev@) =~= before.map_values(
                |ev: Event| ev@,
            ).insert(order as int, self.modifications@[order as int]@));
        }
    }

    /// Remove the event at position `order`.
    pub fn remove_event(&mut self, order: usize)
        requires
            order < old(self)@.mods.len(),
        ensures
            final(self)@.mods == old(self)@.mods.remove(order as int),
            final(self)@.original_deleted == old(self)@.original_deleted,
    {
        let ghost before = self.modifications@;
        self.modifications.remove(order);
        proof {
            assert(self.modifications@.map_values(|ev: Event| ev@) =~= before.map_values(
                |ev: Event| ev@,
            ).remove(order as int));
        }
    }

    /// Flip whether the original line at this offset is suppressed.
    pub fn toggle_original(&mut self)
        ensures
            final(self)@.mods == old(self)@.mods,
            final(self)@.original_deleted == !old(self)@.original_deleted,
    {
        self.original_deleted = !self.original_deleted;
    }

    /// Replace only the data of the event at `order`; its time stays.
    pub fn set_data(&mut self, order: usize, d: EventData)
        requires
            order < old(self)@.mods.len(),
        ensures
            final(self)@.mods == old(self)@.mods.update(
                order as int,
                EventModel { time: old(self)@.mods[order as int].time, data: d@ },
            ),
            final(self)@.original_deleted == old(self)@.original_deleted,
    {
        let ghost before = self.modifications@;
        let mut e = self.modifications.remove(order);
        e.data = d;
        self.modifications.insert(order, e);
        proof {
            assert(self.modifications@.map_values(|ev: Event| ev@) =~= before.map_values(
                |ev: Event| ev@,
            ).update(
                order as int,
                EventModel { time: before.map_values(|ev: Event| ev@)[order as int].time, data: d@ },
            ));
        }
    }
}

/// The whole overlay: entries sorted by ascending byte offset, one chain
/// per offset.
#[derive(Debug)]
pub struct Overlay {
    entries: Vec<(usize, ModificationChain)>,
}

impl View for Overlay {
    type V = Seq<(int, ChainModel)>;

    closed spec fn view(&self) -> Seq<(int, ChainModel)> {
        self.entries@.map_values(|p: (usize, ModificationChain)| (p.0 as int, p.1@))
    }
}

/// Keys strictly ascend.
pub open spec fn overlay_sorted(ov: Seq<(int, ChainModel)>) -> bool {
    forall|i: int, j: int| 0 <= i < j < ov.len() ==> ov[i].0 < ov[j].0
}

/// The chain stored at `loc`, if any.
pub open spec fn spec_chain_at(ov: Seq<(int, ChainModel)>, loc: int) -> Option<ChainModel>
    decreases ov.len(),
{
    if ov.len() == 0 {
        None
    } else if ov[0].0 == loc {
        Some(ov[0].1)
    } else {
        spec_chain_at(ov.drop_first(), loc)
    }
}

/// The overlay after making sure an entry exists at `loc`: unchanged if one
/// is there, else with an empty chain spliced in at its sorted position.
pub open spec fn spec_ensure(ov: Seq<(int, ChainModel)>, loc: int) -> Seq<(int, ChainModel)>
    decreases ov.len(),
{
    if ov.len() == 0 {
        seq![(loc, empty_chain())]
    } else if ov[0].0 < loc {
        seq![ov[0]] + spec_ensure(ov.drop_first(), loc)
    } else if ov[0].0 == loc {
        ov
    } else {
        seq![(loc, empty_chain())] + ov
    }
}

impl Overlay {
    pub open spec fn wf(self) -> bool {
        overlay_sorted(self@)
    }

    /// An empty overlay.
    pub fn new() -> (r: Self)
        ensures
            r@ =~= Seq::<(int, ChainModel)>::empty(),
            r.wf(),
    {
        Overlay { entries: Vec::new() }
    }

    pub fn len(&self) -> (r: usize)
        ensures
            r == self@.len(),
    {
        self.entries.len()
    }

    pub fn key_at(&self, idx: usize) -> (r: usize)
        requires
            idx < self@.len(),
        ensures
            r as int == self@[idx as int].0,
    {
        self.entries[idx].0
    }

    pub fn chain_at_idx(&self, idx: usize) -> (r: &ModificationChain)
        requires
            idx < self@.len(),
        ensures
            r@ == self@[idx as int].1,
    {
        &self.entries[idx].1
    }

    /// Index of the first entry at or after `loc`.
    pub fn lower_bound(&self, loc: usize) -> (r: usize)
        requires
            self.wf(),
        ensures
            r <= self@.len(),
            forall|k: int| 0 <= k < r ==> #[trigger] self@[k].0 < loc,
            r < self@.len() ==> self@[r as int].0 >= loc,
    {
        let n = self.entries.len();
        let mut i: usize = 0;
        while i < n && self.entries[i].0 < loc
            invariant
                0 <= i <= n,
                n == self@.len(),
                forall|k: int| 0 <= k < i ==> #[trigger] self@[k].0 < loc,
            decreases n - i,
        {
            i += 1;
        }
        i
    }

    /// Look up the chain at `loc`.
    pub fn get(&self, loc: usize) -> (r: Option<&ModificationChain>)
        requires
            self.wf(),
        ensures
            match r {
                Some(c) => spec_chain_at(self@, loc as int) == Some(c@),
                None => spec_chain_at(self@, loc as int) is None,
            },
    {
        let i = self.lower_bound(loc);
        proof {
            if i < self@.len() && self@[i as int].0 == loc {
                lemma_chain_at_found(self@, loc as int, i as int);
            } else {
                lemma_chain_at_absent(self@, loc as int);
            }
        }
        if i < self.entries.len() && self.entries[i].0 == loc {
            Some(&self.entries[i].1)
        } else {
            None
        }
    }

    /// Make sure an entry exists at `loc`; hand back its index.
    pub fn ensure(&mut self, loc: usize) -> (idx: usize)
        requires
            old(self).wf(),
        ensures
            final(self).wf(),
            final(self)@ == spec_ensure(old(self)@, loc as int),
            idx < final(self)@.len(),
            final(self)@[idx as int].0 == loc,
            forall|k: int| 0 <= k < idx ==> #[trigger] final(self)@[k].0 < loc,
    {
        let ghost before = self@;
        let i = self.lower_bound(loc);
        if i < self.entries.len() && self.entries[i].0 == loc {
            proof {
                lemma_ensure_found(before, loc as int, i as int);
            }
            i
        } else {
            self.entries.insert(i, (loc, ModificationChain::new()));
            proof {
                assert(self@ =~= before.insert(i as int, (loc as int, empty_chain())));
                lemma_ensure_inserts(before, loc as int, i as int);
                assert(overlay_sorted(self@)) by {
                    assert forall|a: int, b: int| 0 <= a < b < self@.len() implies self@[a].0
                        < self@[b].0 by {
                        if a < i && b == i {
                        } else if a == i && b > i {
                        } else if a < i && b > i {
                            assert(before[a].0 < loc);
                        }
                    }
                }
            }
            i
        }
    }

    /// Replace the chain at an existing entry, keeping its key.
    pub fn replace_chain(&mut self, idx: usize, chain: ModificationChain)
        requires
            old(self).wf(),
            idx < old(self)@.len(),
        ensures
            final(self).wf(),
            final(self)@ == old(self)@.update(
                idx as int,
                (old(self)@[idx as int].0, chain@),
            ),
    {
        let ghost before = self@;
        let k = self.entries[idx].0;
        self.entries.remove(idx);
        self.entries.insert(idx, (k, chain));
        proof {
            assert(self@ =~= before.update(idx as int, (before[idx as int].0, chain@)));
        }
    }

    /// An owned copy of the chain at an existing entry.
    pub fn chain_copy(&self, idx: usize) -> (r: ModificationChain)
        requires
            idx < self@.len(),
        ensures
            r@ == self@[idx as int].1,
    {
        let src = &self.entries[idx].1;
        let n = src.modifications.len();
        let mut mods: Vec<Event> = Vec::new();
        let mut i: usize = 0;
        while i < n
            invariant
                0 <= i <= n,
                n == src.modifications@.len(),
                mods@.len() == i,
                forall|k: int| 0 <= k < i ==> #[trigger] mods@[k]@ == src.modifications@[k]@,
            decreases n - i,
        {
            mods.push(src.modifications[i].duplicate());
            i += 1;
        }
        let r = ModificationChain { modifications: mods, original_deleted: src.original_deleted };
        proof {
            assert(r@.mods =~= self@[idx as int].1.mods);
            assert(r@ =~= self@[idx as int].1);
        }
        r
    }
}

/// The overlay with the chain at `loc` replaced (unchanged where no entry
/// holds that key).
pub open spec fn sp_set_chain(ov: Seq<(int, ChainModel)>, loc: int, c: ChainModel) -> Seq<
    (int, ChainModel),
>
    decreases ov.len(),
{
    if ov.len() == 0 {
        ov
    } else if ov[0].0 == loc {
        seq![(loc, c)] + ov.drop_first()
    } else {
        seq![ov[0]] + sp_set_chain(ov.drop_first(), loc, c)
    }
}

/// Updating the entry whose key is `loc` in place is the same as
/// `sp_set_chain`.
pub proof fn lemma_set_chain_update(ov: Seq<(int, ChainModel)>, loc: int, i: int, c: ChainModel)
    requires
        0 <= i < ov.len(),
        ov[i].0 == loc,
        forall|k: int| 0 <= k < i ==> #[trigger] ov[k].0 != loc,
    ensures
        sp_set_chain(ov, loc, c) == ov.update(i, (loc, c)),
    decreases i,
{
    if i == 0 {
        assert(sp_set_chain(ov, loc, c) =~= ov.update(0, (loc, c)));
    } else {
        let t = ov.drop_first();
        assert(forall|k: int| 0 <= k < i - 1 ==> #[trigger] t[k].0 != loc);
        lemma_set_chain_update(t, loc, i - 1, c);
        assert(seq![ov[0]] + t.update(i - 1, (loc, c)) =~= ov.update(i, (loc, c)));
    }
}

/// `sp_set_chain` stores the chain where the key exists.
pub proof fn lemma_chain_at_set(ov: Seq<(int, ChainModel)>, loc: int, c: ChainModel)
    requires
        spec_chain_at(ov, loc) is Some,
    ensures
        spec_chain_at(sp_set_chain(ov, loc, c), loc) == Some(c),
    decreases ov.len(),
{
    if ov.len() > 0 {
        if ov[0].0 == loc {
            let r = sp_set_chain(ov, loc, c);
            assert(r[0] == (loc, c));
        } else {
            lemma_chain_at_set(ov.drop_first(), loc, c);
            let r = sp_set_chain(ov, loc, c);
            assert(r[0] == ov[0]);
            assert(r.drop_first() =~= sp_set_chain(ov.drop_first(), loc, c));
        }
    }
}

/// Making sure an entry exists leaves an overlay unchanged when the key is
/// already present.
pub proof fn lemma_ensure_present(ov: Seq<(int, ChainModel)>, loc: int)
    requires
        overlay_sorted(ov),
        spec_chain_at(ov, loc) is Some,
    ensures
        spec_ensure(ov, loc) == ov,
    decreases ov.len(),
{
    if ov.len() > 0 {
        if ov[0].0 == loc {
        } else if ov[0].0 < loc {
            let t = ov.drop_first();
            assert(overlay_sorted(t)) by {
                assert(forall|a: int, b: int|
                    0 <= a < b < t.len() ==> t[a] == ov[a + 1] && t[b] == ov[b + 1]);
            }
            lemma_ensure_present(t, loc);
            assert(spec_ensure(ov, loc) =~= ov);
        } else {
            assert(forall|k: int| 0 <= k < ov.len() ==> #[trigger] ov[k].0 != loc) by {
                assert(forall|k: int| 0 < k < ov.len() ==> ov[0].0 < #[trigger] ov[k].0);
            }
            lemma_chain_at_absent(ov, loc);
        }
    }
}

/// After making sure an entry exists, the chain at `loc` is the one that was
/// there, or a fresh one.
pub proof fn lemma_chain_at_ensure(ov: Seq<(int, ChainModel)>, loc: int)
    requires
        overlay_sorted(ov),
    ensures
        spec_chain_at(spec_ensure(ov, loc), loc) == Some(
            match spec_chain_at(ov, loc) {
                Some(c) => c,
                None => empty_chain(),
            },
        ),
    decreases ov.len(),
{
    if ov.len() == 0 {
    } else if ov[0].0 < loc {
        let t = ov.drop_first();
        assert(overlay_sorted(t)) by {
            assert(forall|a: int, b: int|
                0 <= a < b < t.len() ==> t[a] == ov[a + 1] && t[b] == ov[b + 1]);
        }
        lemma_chain_at_ensure(t, loc);
        let r = spec_ensure(ov, loc);
        assert(r[0] == ov[0]);
        assert(r.drop_first() =~= spec_ensure(t, loc));
    } else if ov[0].0 == loc {
    } else {
        let r = spec_ensure(ov, loc);
        assert(r[0] == (loc, empty_chain()));
        assert(forall|k: int| 0 <= k < ov.len() ==> #[trigger] ov[k].0 != loc) by {
            assert(forall|k: int| 0 < k < ov.len() ==> ov[0].0 < #[trigger] ov[k].0);
        }
        lemma_chain_at_absent(ov, loc);
    }
}

proof fn lemma_ensure_keys_ge(ov: Seq<(int, ChainModel)>, loc: int, lo: int)
    requires
        forall|k: int| 0 <= k < ov.len() ==> #[trigger] ov[k].0 >= lo,
        loc >= lo,
    ensures
        forall|i: int|
            0 <= i < spec_ensure(ov, loc).len() ==> #[trigger] spec_ensure(ov, loc)[i].0 >= lo,
    decreases ov.len(),
{
    if ov.len() == 0 {
    } else if ov[0].0 < loc {
        let t = ov.drop_first();
        assert(forall|k: int| 0 <= k < t.len() ==> #[trigger] t[k].0 >= lo) by {
            assert(forall|k: int| 0 <= k < t.len() ==> t[k] == ov[k + 1]);
        }
        lemma_ensure_keys_ge(t, loc, lo);
        let r = spec_ensure(ov, loc);
        assert(forall|i: int| 0 < i < r.len() ==> r[i] == spec_ensure(t, loc)[i - 1]);
    } else {
    }
}

/// Making sure an entry exists keeps the overlay sorted.
pub proof fn lemma_ensure_sorted(ov: Seq<(int, ChainModel)>, loc: int)
    requires
        overlay_sorted(ov),
    ensures
        overlay_sorted(spec_ensure(ov, loc)),
    decreases ov.len(),
{
    if ov.len() == 0 {
    } else if ov[0].0 < loc {
        let t = ov.drop_first();
        assert(overlay_sorted(t)) by {
            assert(forall|a: int, b: int|
                0 <= a < b < t.len() ==> t[a] == ov[a + 1] && t[b] == ov[b + 1]);
        }
        lemma_ensure_sorted(t, loc);
        assert(forall|k: int| 0 <= k < t.len() ==> #[trigger] t[k].0 >= ov[0].0 + 1) by {
            assert(forall|k: int| 0 <= k < t.len() ==> t[k] == ov[k + 1]);
        }
        lemma_ensure_keys_ge(t, loc, ov[0].0 + 1);
        let r = spec_ensure(ov, loc);
        assert forall|a: int, b: int| 0 <= a < b < r.len() implies r[a].0 < r[b].0 by {
            assert(forall|i: int| 0 < i < r.len() ==> r[i] == spec_ensure(t, loc)[i - 1]);
            if a == 0 {
                assert(spec_ensure(t, loc)[b - 1].0 >= ov[0].0 + 1);
            }
        }
    } else if ov[0].0 == loc {
    } else {
        let r = spec_ensure(ov, loc);
        assert forall|a: int, b: int| 0 <= a < b < r.len() implies r[a].0 < r[b].0 by {
            assert(forall|i: int| 0 < i < r.len() ==> r[i] == ov[i - 1]);
            assert(forall|k: int| 0 < k < ov.len() ==> ov[0].0 < #[trigger] ov[k].0);
        }
    }
}

/// Replacing a chain keeps every key in place.
pub proof fn lemma_set_chain_keys(ov: Seq<(int, ChainModel)>, loc: int, c: ChainModel)
    ensures
        sp_set_chain(ov, loc, c).len() == ov.len(),
        forall|i: int|
            0 <= i < ov.len() ==> #[trigger] sp_set_chain(ov, loc, c)[i].0 == ov[i].0,
    decreases ov.len(),
{
    if ov.len() == 0 {
    } else if ov[0].0 == loc {
        let r = sp_set_chain(ov, loc, c);
        assert(forall|i: int| 0 < i < r.len() ==> r[i] == ov.drop_first()[i - 1]);
    } else {
        lemma_set_chain_keys(ov.drop_first(), loc, c);
        let r = sp_set_chain(ov, loc, c);
        assert(forall|i: int| 0 < i < r.len() ==> r[i] == sp_set_chain(
            ov.drop_first(),
            loc,
            c,
        )[i - 1]);
        assert(forall|i: int| 0 < i < ov.len() ==> ov.drop_first()[i - 1] == ov[i]);
    }
}

/// Replacing a chain keeps the overlay sorted.
pub proof fn lemma_set_chain_sorted(ov: Seq<(int, ChainModel)>, loc: int, c: ChainModel)
    requires
        overlay_sorted(ov),
    ensures
        overlay_sorted(sp_set_chain(ov, loc, c)),
{
    lemma_set_chain_keys(ov, loc, c);
}

pub proof fn lemma_chain_at_found(ov: Seq<(int, ChainModel)>, loc: int, i: int)
    requires
        overlay_sorted(ov),
        0 <= i < ov.len(),
        ov[i].0 == loc,
        forall|k: int| 0 <= k < i ==> #[trigger] ov[k].0 < loc,
    ensures
        spec_chain_at(ov, loc) == Some(ov[i].1),
    decreases i,
{
    if i == 0 {
    } else {
        assert(ov[0].0 < loc);
        let t = ov.drop_first();
        assert(forall|k: int| 0 <= k < i - 1 ==> #[trigger] t[k].0 < loc);
        lemma_chain_at_found(t, loc, i - 1);
    }
}

proof fn lemma_chain_at_absent(ov: Seq<(int, ChainModel)>, loc: int)
    requires
        overlay_sorted(ov),
        forall|k: int| 0 <= k < ov.len() ==> #[trigger] ov[k].0 != loc,
    ensures
        spec_chain_at(ov, loc) is None,
    decreases ov.len(),
{
    if ov.len() > 0 {
        lemma_chain_at_absent(ov.drop_first(), loc);
    }
}

proof fn lemma_ensure_found(ov: Seq<(int, ChainModel)>, loc: int, i: int)
    requires
        overlay_sorted(ov),
        0 <= i < ov.len(),
        ov[i].0 == loc,
        forall|k: int| 0 <= k < i ==> #[trigger] ov[k].0 < loc,
    ensures
        spec_ensure(ov, loc) == ov,
    decreases i,
{
    if i == 0 {
    } else {
        let t = ov.drop_first();
        assert(forall|k: int| 0 <= k < i - 1 ==> #[trigger] t[k].0 < loc);
        lemma_ensure_found(t, loc, i - 1);
        assert(spec_ensure(ov, loc) =~= seq![ov[0]] + t);
        assert(seq![ov[0]] + t =~= ov);
    }
}

proof fn lemma_ensure_inserts(ov: Seq<(int, ChainModel)>, loc: int, i: int)
    requires
        overlay_sorted(ov),
        0 <= i <= ov.len(),
        forall|k: int| 0 <= k < i ==> #[trigger] ov[k].0 < loc,
        i < ov.len() ==> ov[i].0 > loc,
    ensures
        spec_ensure(ov, loc) == ov.insert(i, (loc, empty_chain())),
    decreases i,
{
    if i == 0 {
        if ov.len() == 0 {
            assert(spec_ensure(ov, loc) =~= ov.insert(0, (loc, empty_chain())));
        } else {
            assert(ov[0].0 > loc);
            assert(spec_ensure(ov, loc) =~= ov.insert(0, (loc, empty_chain())));
        }
    } else {
        let t = ov.drop_first();
        assert(forall|k: int| 0 <= k < i - 1 ==> #[trigger] t[k].0 < loc);
        lemma_ensure_inserts(t, loc, i - 1);
        assert(spec_ensure(ov, loc) == seq![ov[0]] + t.insert(i - 1, (loc, empty_chain())));
        assert(seq![ov[0]] + t.insert(i - 1, (loc, empty_chain())) =~= ov.insert(
            i,
            (loc, empty_chain()),
        ));
    }
}

} // verus!
