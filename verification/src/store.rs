//! Generic keyed record store: an ordered mapping from identifier to record.
//!
//! Entries are held sorted strictly ascending by key, and every stored
//! record's self-reported identifier equals its key. The store's abstract
//! view is a `Map<u64, T>`; the entry sequence is additionally exposed so
//! callers can reason about ascending-order iteration.

use vstd::prelude::*;

verus! {

/// A record that carries its own identifier.
pub trait HasUid: Sized {
    /// The identifier, at the specification level.
    spec fn uid_spec(&self) -> u64;

    /// The identifier.
    fn uid(&self) -> (r: u64)
        ensures
            r == self.uid_spec(),
    ;

    /// The same record carrying another identifier.
    fn with_uid(self, uid: u64) -> (r: Self)
        ensures
            r.uid_spec() == uid,
    ;
}

/// Abstract the entry sequence of a store as a finite map.
pub open spec fn seq_to_map<T>(s: Seq<(u64, T)>) -> Map<u64, T>
    decreases s.len(),
{
    if s.len() == 0 {
        Map::empty()
    } else {
        seq_to_map(s.drop_last()).insert(s.last().0, s.last().1)
    }
}

/// Some entry of `s` carries key `k`.
pub open spec fn key_in_seq<T>(s: Seq<(u64, T)>, k: u64) -> bool {
    exists|i: int| 0 <= i < s.len() && (#[trigger] s[i]).0 == k
}

/// No two entries of `s` share a key.
pub open spec fn keys_distinct<T>(s: Seq<(u64, T)>) -> bool {
    forall|i: int, j: int| 0 <= i < j < s.len() ==> (#[trigger] s[i]).0 != (#[trigger] s[j]).0
}

/// Entry keys are strictly ascending.
pub open spec fn keys_sorted<T>(s: Seq<(u64, T)>) -> bool {
    forall|i: int, j: int| 0 <= i < j < s.len() ==> (#[trigger] s[i]).0 < (#[trigger] s[j]).0
}

pub proof fn lemma_sorted_implies_distinct<T>(s: Seq<(u64, T)>)
    requires
        keys_sorted(s),
    ensures
        keys_distinct(s),
{
}

pub proof fn lemma_seq_to_map_finite<T>(s: Seq<(u64, T)>)
    ensures
        seq_to_map(s).dom().finite(),
    decreases s.len(),
{
    if s.len() > 0 {
        lemma_seq_to_map_finite(s.drop_last());
    }
}

/// A key is in the map exactly when some entry carries it.
pub proof fn lemma_seq_to_map_dom<T>(s: Seq<(u64, T)>, k: u64)
    ensures
        seq_to_map(s).contains_key(k) <==> key_in_seq(s, k),
    decreases s.len(),
{
    if s.len() > 0 {
        lemma_seq_to_map_dom(s.drop_last(), k);
        if key_in_seq(s.drop_last(), k) {
            let i = choose|i: int| 0 <= i < s.drop_last().len() && (#[trigger] s.drop_last()[i]).0 == k;
            assert(s[i].0 == k);
        }
        if key_in_seq(s, k) && s.last().0 != k {
            let i = choose|i: int| 0 <= i < s.len() && (#[trigger] s[i]).0 == k;
            assert(i < s.len() - 1);
            assert(s.drop_last()[i].0 == k);
        }
    }
}

/// With distinct keys, the entry at any index gives the map's value there.
pub proof fn lemma_seq_to_map_index<T>(s: Seq<(u64, T)>, i: int)
    requires
        keys_distinct(s),
        0 <= i < s.len(),
    ensures
        seq_to_map(s).contains_key(s[i].0),
        seq_to_map(s)[s[i].0] == s[i].1,
    decreases s.len(),
{
    if i == s.len() - 1 {
        lemma_seq_to_map_dom(s, s[i].0);
    } else {
        assert(keys_distinct(s.drop_last()));
        assert(s.drop_last()[i] == s[i]);
        lemma_seq_to_map_index(s.drop_last(), i);
        assert(s[s.len() - 1].0 != s[i].0);
    }
}

/// With distinct keys the map has exactly one entry per sequence element.
pub proof fn lemma_seq_to_map_len<T>(s: Seq<(u64, T)>)
    requires
        keys_distinct(s),
    ensures
        seq_to_map(s).dom().finite(),
        seq_to_map(s).dom().len() == s.len(),
    decreases s.len(),
{
    lemma_seq_to_map_finite(s);
    if s.len() > 0 {
        let t = s.drop_last();
        assert(keys_distinct(t));
        lemma_seq_to_map_len(t);
        lemma_seq_to_map_dom(t, s.last().0);
        assert(!key_in_seq(t, s.last().0)) by {
            if key_in_seq(t, s.last().0) {
                let i = choose|i: int| 0 <= i < t.len() && (#[trigger] t[i]).0 == s.last().0;
                assert(s[i].0 == s[s.len() - 1].0);
            }
        }
        assert(seq_to_map(s).dom() =~= seq_to_map(t).dom().insert(s.last().0));
    }
}

/// Inserting a fresh entry at position `p` (all keys before it smaller, the
/// key absent elsewhere) inserts into the map.
proof fn lemma_seq_to_map_insert_at<T>(s: Seq<(u64, T)>, p: int, k: u64, v: T)
    requires
        0 <= p <= s.len(),
        !key_in_seq(s, k),
    ensures
        seq_to_map(s.insert(p, (k, v))) =~= seq_to_map(s).insert(k, v),
    decreases s.len(),
{
    let s2 = s.insert(p, (k, v));
    if p == s.len() {
        assert(s2.drop_last() =~= s);
        assert(s2.last() == (k, v));
    } else {
        let t = s.drop_last();
        assert(!key_in_seq(t, k)) by {
            if key_in_seq(t, k) {
                let i = choose|i: int| 0 <= i < t.len() && (#[trigger] t[i]).0 == k;
                assert(s[i].0 == k);
            }
        }
        lemma_seq_to_map_insert_at(t, p, k, v);
        assert(s2.drop_last() =~= t.insert(p, (k, v)));
        assert(s2.last() == s.last());
        assert(s.last().0 != k) by {
            assert(s[s.len() - 1].0 == s.last().0);
        }
        assert(seq_to_map(s2) == seq_to_map(t.insert(p, (k, v))).insert(s.last().0, s.last().1));
        assert(seq_to_map(s2) =~= seq_to_map(s).insert(k, v));
    }
}

/// Overwriting the entry at position `p` with the same key updates the map.
proof fn lemma_seq_to_map_update_at<T>(s: Seq<(u64, T)>, p: int, v: T)
    requires
        keys_distinct(s),
        0 <= p < s.len(),
    ensures
        seq_to_map(s.update(p, (s[p].0, v))) =~= seq_to_map(s).insert(s[p].0, v),
    decreases s.len(),
{
    let k = s[p].0;
    let s2 = s.update(p, (k, v));
    if p == s.len() - 1 {
        assert(s2.drop_last() =~= s.drop_last());
        assert(s2.last() == (k, v));
    } else {
        let t = s.drop_last();
        assert(keys_distinct(t));
        assert(t[p] == s[p]);
        lemma_seq_to_map_update_at(t, p, v);
        assert(s2.drop_last() =~= t.update(p, (k, v)));
        assert(s2.last() == s.last());
        assert(s.last().0 != k) by {
            assert(s[s.len() - 1].0 == s.last().0);
        }
        assert(seq_to_map(s2) =~= seq_to_map(s).insert(k, v));
    }
}

/// Removing the entry at position `p` removes its key from the map.
proof fn lemma_seq_to_map_remove_at<T>(s: Seq<(u64, T)>, p: int)
    requires
        keys_distinct(s),
        0 <= p < s.len(),
    ensures
        seq_to_map(s.remove(p)) =~= seq_to_map(s).remove(s[p].0),
    decreases s.len(),
{
    let k = s[p].0;
    let s2 = s.remove(p);
    if p == s.len() - 1 {
        assert(s2 =~= s.drop_last());
        lemma_seq_to_map_dom(s2, k);
        assert(!key_in_seq(s2, k)) by {
            if key_in_seq(s2, k) {
                let i = choose|i: int| 0 <= i < s2.len() && (#[trigger] s2[i]).0 == k;
                assert(s[i].0 == k);
            }
        }
        assert(seq_to_map(s2) =~= seq_to_map(s).remove(k));
    } else {
        let t = s.drop_last();
        assert(keys_distinct(t));
        assert(t[p] == s[p]);
        lemma_seq_to_map_remove_at(t, p);
        assert(s2.drop_last() =~= t.remove(p));
        assert(s2.last() == s.last());
        assert(s.last().0 != k) by {
            assert(s[s.len() - 1].0 == s.last().0);
        }
        assert(seq_to_map(s2) == seq_to_map(t.remove(p)).insert(s.last().0, s.last().1));
        assert(seq_to_map(s2) =~= seq_to_map(s).remove(k));
    }
}

/// Bulk insertion, first element first; a later duplicate key wins.
pub open spec fn insert_all<T: HasUid>(m: Map<u64, T>, items: Seq<T>) -> Map<u64, T>
    decreases items.len(),
{
    if items.len() == 0 {
        m
    } else {
        insert_all(m.insert(items[0].uid_spec(), items[0]), items.drop_first())
    }
}

/// One step of a batch update: replace the value under `k` if present.
pub open spec fn update_step<T: HasUid>(m: Map<u64, T>, k: u64, out: (T, bool)) -> Map<u64, T> {
    if m.contains_key(k) {
        m.insert(k, out.0)
    } else {
        m
    }
}

/// Apply per-identifier update outcomes in order; absent identifiers are
/// skipped.
pub open spec fn apply_updates<T: HasUid>(
    m: Map<u64, T>,
    uids: Seq<u64>,
    outs: Seq<(T, bool)>,
) -> Map<u64, T>
    decreases uids.len(),
{
    if uids.len() == 0 {
        m
    } else {
        apply_updates(update_step(m, uids[0], outs[0]), uids.drop_first(), outs.drop_first())
    }
}

/// How many update outcomes reported a change, counting only identifiers
/// that were present when their turn came.
pub open spec fn count_updates<T: HasUid>(m: Map<u64, T>, uids: Seq<u64>, outs: Seq<(T, bool)>) -> nat
    decreases uids.len(),
{
    if uids.len() == 0 {
        0
    } else {
        let here: nat = if m.contains_key(uids[0]) && outs[0].1 {
            1
        } else {
            0
        };
        here + count_updates(update_step(m, uids[0], outs[0]), uids.drop_first(), outs.drop_first())
    }
}

/// Each outcome is a possible result of the update function on the value
/// that was stored when its turn came.
pub open spec fn updates_valid<T: HasUid, F: Fn(T) -> (T, bool)>(
    f: F,
    m: Map<u64, T>,
    uids: Seq<u64>,
    outs: Seq<(T, bool)>,
) -> bool
    decreases uids.len(),
{
    &&& outs.len() == uids.len()
    &&& uids.len() > 0 ==> {
        &&& (m.contains_key(uids[0]) ==> f.ensures((m[uids[0]],), outs[0]))
        &&& updates_valid(f, update_step(m, uids[0], outs[0]), uids.drop_first(), outs.drop_first())
    }
}

/// Appending one identifier to a batch applies one more step at the end.
proof fn lemma_updates_snoc<T: HasUid, F: Fn(T) -> (T, bool)>(
    f: F,
    m: Map<u64, T>,
    uids: Seq<u64>,
    outs: Seq<(T, bool)>,
    u: u64,
    o: (T, bool),
)
    requires
        outs.len() == uids.len(),
    ensures
        apply_updates(m, uids.push(u), outs.push(o)) == update_step(
            apply_updates(m, uids, outs),
            u,
            o,
        ),
        count_updates(m, uids.push(u), outs.push(o)) == count_updates(m, uids, outs) + (
        if apply_updates(m, uids, outs).contains_key(u) && o.1 {
            1nat
        } else {
            0nat
        }),
        updates_valid(f, m, uids, outs) && (apply_updates(m, uids, outs).contains_key(u)
            ==> f.ensures((apply_updates(m, uids, outs)[u],), o)) ==> updates_valid(
            f,
            m,
            uids.push(u),
            outs.push(o),
        ),
    decreases uids.len(),
{
    if uids.len() == 0 {
        assert(uids.push(u).drop_first() =~= Seq::<u64>::empty());
        assert(outs.push(o).drop_first() =~= Seq::<(T, bool)>::empty());
        assert(uids.push(u)[0] == u);
        assert(outs.push(o)[0] == o);
        assert(apply_updates(m, uids.push(u), outs.push(o)) == apply_updates(
            update_step(m, u, o),
            uids.push(u).drop_first(),
            outs.push(o).drop_first(),
        ));
        assert(apply_updates(update_step(m, u, o), Seq::<u64>::empty(), Seq::<(T, bool)>::empty())
            == update_step(m, u, o));
        assert(count_updates(update_step(m, u, o), Seq::<u64>::empty(), Seq::<(T, bool)>::empty())
            == 0);
        assert(updates_valid(
            f,
            update_step(m, u, o),
            Seq::<u64>::empty(),
            Seq::<(T, bool)>::empty(),
        ));
        assert(apply_updates(m, uids, outs) == m);
        assert(count_updates(m, uids, outs) == 0);
    } else {
        let m2 = update_step(m, uids[0], outs[0]);
        lemma_updates_snoc(f, m2, uids.drop_first(), outs.drop_first(), u, o);
        assert(uids.push(u)[0] == uids[0]);
        assert(outs.push(o)[0] == outs[0]);
        assert(uids.push(u).drop_first() =~= uids.drop_first().push(u));
        assert(outs.push(o).drop_first() =~= outs.drop_first().push(o));
    }
}

/// A batch update never changes which identifiers are present.
pub proof fn lemma_apply_updates_dom<T: HasUid>(m: Map<u64, T>, uids: Seq<u64>, outs: Seq<(T, bool)>)
    ensures
        apply_updates(m, uids, outs).dom() =~= m.dom(),
    decreases uids.len(),
{
    if uids.len() > 0 {
        lemma_apply_updates_dom(update_step(m, uids[0], outs[0]), uids.drop_first(), outs.drop_first());
    }
}

/// Identifiers outside the batch keep their records through a batch update.
pub proof fn lemma_apply_updates_untouched<T: HasUid>(
    m: Map<u64, T>,
    uids: Seq<u64>,
    outs: Seq<(T, bool)>,
    k: u64,
)
    requires
        !uids.contains(k),
        m.contains_key(k),
    ensures
        apply_updates(m, uids, outs).contains_key(k),
        apply_updates(m, uids, outs)[k] == m[k],
    decreases uids.len(),
{
    if uids.len() > 0 {
        assert(uids[0] != k);
        assert(!uids.drop_first().contains(k)) by {
            if uids.drop_first().contains(k) {
                let i = choose|i: int|
                    0 <= i < uids.drop_first().len() && uids.drop_first()[i] == k;
                assert(uids[i + 1] == k);
            }
        }
        lemma_apply_updates_untouched(
            update_step(m, uids[0], outs[0]),
            uids.drop_first(),
            outs.drop_first(),
            k,
        );
    }
}

/// Ordered mapping from identifier to record.
pub struct RecordStore<T> {
    /// The entries, ascending by key. Exposed for callers that build on the
    /// store; anyone writing it directly owes the well-formedness invariant
    /// before calling back into the store's operations.
    pub entries: Vec<(u64, T)>,
}

impl<T: HasUid> RecordStore<T> {
    /// The entries, ascending by key; this is what iteration yields.
    pub open spec fn entries_seq(&self) -> Seq<(u64, T)> {
        self.entries@
    }

    /// Well-formed: keys strictly ascending, every record keyed by its own
    /// identifier.
    pub open spec fn wf(&self) -> bool {
        &&& keys_sorted(self.entries_seq())
        &&& forall|i: int|
            0 <= i < self.entries_seq().len() ==> (#[trigger] self.entries_seq()[i]).1.uid_spec()
                == self.entries_seq()[i].0
    }

    /// The abstract contents.
    pub open spec fn view(&self) -> Map<u64, T> {
        seq_to_map(self.entries@)
    }

    /// Every key of the view is carried by some entry.
    pub proof fn lemma_view_key_in_entries(&self, k: u64)
        ensures
            self.view().contains_key(k) <==> key_in_seq(self.entries_seq(), k),
    {
        lemma_seq_to_map_dom(self.entries_seq(), k);
    }

    /// A fresh, empty store.
    pub fn new() -> (r: Self)
        ensures
            r.wf(),
            r@ =~= Map::<u64, T>::empty(),
            r.entries_seq() =~= Seq::<(u64, T)>::empty(),
    {
        RecordStore { entries: Vec::new() }
    }
}

impl<T: HasUid> Default for RecordStore<T> {
    /// The empty store.
    fn default() -> (r: Self)
        ensures
            r.wf(),
            r@ =~= Map::<u64, T>::empty(),
            r.entries_seq() =~= Seq::<(u64, T)>::empty(),
    {
        RecordStore::new()
    }
}

impl<T: HasUid> RecordStore<T> {

    /// First position whose key is not below `uid`.
    fn position_of(&self, uid: u64) -> (r: usize)
        requires
            self.wf(),
        ensures
            r <= self.entries_seq().len(),
            forall|i: int| 0 <= i < r ==> (#[trigger] self.entries_seq()[i]).0 < uid,
            r < self.entries_seq().len() ==> self.entries_seq()[r as int].0 >= uid,
    {
        let n = self.entries.len();
        let mut i: usize = 0;
        while i < n
            invariant
                0 <= i <= n,
                n == self.entries_seq().len(),
                forall|j: int| 0 <= j < i ==> (#[trigger] self.entries_seq()[j]).0 < uid,
            decreases n - i,
        {
            if self.entries[i].0 >= uid {
                return i;
            }
            i = i + 1;
        }
        i
    }

    /// Number of records stored.
    pub fn len(&self) -> (r: usize)
        requires
            self.wf(),
        ensures
            r == self.entries_seq().len(),
            r == self@.dom().len(),
    {
        proof {
            lemma_sorted_implies_distinct(self.entries_seq());
            lemma_seq_to_map_len(self.entries_seq());
        }
        self.entries.len()
    }

    /// Is the store empty?
    pub fn is_empty(&self) -> (r: bool)
        requires
            self.wf(),
        ensures
            r == self@.dom().is_empty(),
            r == (self.entries_seq().len() == 0),
    {
        proof {
            lemma_sorted_implies_distinct(self.entries_seq());
            lemma_seq_to_map_len(self.entries_seq());
            if self.entries_seq().len() == 0 {
                assert(self@.dom().len() == 0);
                assert(self@.dom().is_empty());
            } else {
                assert(self@.dom().len() > 0);
                assert(!self@.dom().is_empty());
            }
        }
        self.entries.len() == 0
    }

    /// Look a record up by identifier; no side effects.
    pub fn get(&self, uid: &u64) -> (r: Option<&T>)
        requires
            self.wf(),
        ensures
            match r {
                Some(t) => self@.contains_key(*uid) && *t == self@[*uid],
                None => !self@.contains_key(*uid),
            },
    {
        let p = self.position_of(*uid);
        if p < self.entries.len() && self.entries[p].0 == *uid {
            proof {
                lemma_sorted_implies_distinct(self.entries_seq());
                lemma_seq_to_map_index(self.entries_seq(), p as int);
            }
            Some(&self.entries[p].1)
        } else {
            proof {
                self.lemma_view_key_in_entries(*uid);
                if key_in_seq(self.entries_seq(), *uid) {
                    let i = choose|i: int|
                        0 <= i < self.entries_seq().len() && (#[trigger] self.entries_seq()[i]).0
                            == *uid;
                    assert(i >= p);
                    if p < self.entries_seq().len() {
                        assert(self.entries_seq()[p as int].0 > *uid || self.entries_seq()[
                            p as int
                        ].0 == *uid);
                    }
                }
            }
            None
        }
    }

    /// Insert or overwrite by the record's own identifier; no error.
    pub fn insert(&mut self, item: T)
        requires
            old(self).wf(),
        ensures
            final(self).wf(),
            final(self)@ =~= old(self)@.insert(item.uid_spec(), item),
    {
        let uid = item.uid();
        let p = self.position_of(uid);
        let ghost s0 = self.entries@;
        if p < self.entries.len() && self.entries[p].0 == uid {
            self.entries.remove(p);
            self.entries.insert(p, (uid, item));
            proof {
                lemma_sorted_implies_distinct(s0);
                assert(self.entries@ =~= s0.update(p as int, (uid, item)));
                lemma_seq_to_map_update_at(s0, p as int, item);
                assert(final(self).wf());
            }
        } else {
            self.entries.insert(p, (uid, item));
            proof {
                assert(self.entries@ =~= s0.insert(p as int, (uid, item)));
                lemma_seq_to_map_dom(s0, uid);
                assert(!key_in_seq(s0, uid)) by {
                    if key_in_seq(s0, uid) {
                        let i = choose|i: int| 0 <= i < s0.len() && (#[trigger] s0[i]).0 == uid;
                        assert(i >= p);
                        if p < s0.len() {
                            assert(s0[p as int].0 >= uid);
                            assert(s0[p as int].0 != uid);
                            assert(i > p);
                            assert(s0[p as int].0 < s0[i].0);
                        }
                    }
                }
                lemma_seq_to_map_insert_at(s0, p as int, uid, item);
                assert forall|i: int, j: int|
                    0 <= i < j < self.entries@.len() implies (#[trigger] self.entries@[i]).0 < (
                #[trigger] self.entries@[j]).0 by {
                    if p < s0.len() {
                        assert(s0[p as int].0 > uid);
                    }
                }
                assert(final(self).wf());
            }
        }
    }

    /// Remove by identifier; an absent identifier is not an error.
    pub fn remove(&mut self, uid: &u64) -> (r: Option<T>)
        requires
            old(self).wf(),
        ensures
            final(self).wf(),
            final(self)@ =~= old(self)@.remove(*uid),
            match r {
                Some(t) => old(self)@.contains_key(*uid) && t == old(self)@[*uid],
                None => !old(self)@.contains_key(*uid),
            },
    {
        let p = self.position_of(*uid);
        let ghost s0 = self.entries@;
        if p < self.entries.len() && self.entries[p].0 == *uid {
            let (_, t) = self.entries.remove(p);
            proof {
                lemma_sorted_implies_distinct(s0);
                lemma_seq_to_map_index(s0, p as int);
                lemma_seq_to_map_remove_at(s0, p as int);
                assert(self.entries@ =~= s0.remove(p as int));
                assert(final(self).wf());
            }
            Some(t)
        } else {
            proof {
                self.lemma_view_key_in_entries(*uid);
                if key_in_seq(s0, *uid) {
                    let i = choose|i: int| 0 <= i < s0.len() && (#[trigger] s0[i]).0 == *uid;
                    assert(i >= p);
                    if p < s0.len() {
                        assert(s0[p as int].0 >= *uid);
                    }
                }
                assert(!old(self)@.contains_key(*uid));
                assert(final(self)@ =~= old(self)@.remove(*uid));
            }
            None
        }
    }

    /// Insert records in order; returns how many were processed. A later
    /// duplicate identifier overwrites an earlier one.
    pub fn insert_batch(&mut self, items: Vec<T>) -> (r: usize)
        requires
            old(self).wf(),
        ensures
            final(self).wf(),
            final(self)@ == insert_all(old(self)@, items@),
            r == items@.len(),
    {
        let ghost m0 = self@;
        let ghost all = items@;
        let total = items.len();
        let mut items = items;
        let mut count: usize = 0;
        while !items.is_empty()
            invariant
                self.wf(),
                all.len() == total,
                count == all.len() - items@.len(),
                items@.len() <= all.len(),
                insert_all(m0, all) == insert_all(self@, items@),
            decreases items@.len(),
        {
            let ghost before = items@;
            let item = items.remove(0);
            proof {
                assert(items@ =~= before.drop_first());
                assert(insert_all(self@, before) == insert_all(
                    self@.insert(item.uid_spec(), item),
                    items@,
                ));
            }
            self.insert(item);
            count = count + 1;
        }
        proof {
            assert(items@.len() == 0);
            assert(insert_all(self@, items@) == self@);
        }
        count
    }

    /// Remove each listed identifier; absent ones are skipped, not errors.
    /// Returns the number actually removed.
    pub fn remove_batch(&mut self, uids: &[u64]) -> (r: usize)
        requires
            old(self).wf(),
        ensures
            final(self).wf(),
            final(self)@ =~= old(self)@.remove_keys(uids@.to_set()),
            r == old(self)@.dom().intersect(uids@.to_set()).len(),
    {
        let ghost m0 = self@;
        proof {
            lemma_seq_to_map_finite(old(self).entries_seq());
            assert(uids@.subrange(0, 0).to_set() =~= Set::<u64>::empty());
            assert(m0.dom().intersect(Set::<u64>::empty()) =~= Set::<u64>::empty());
            assert(m0.remove_keys(uids@.subrange(0, 0).to_set()) =~= m0);
        }
        let mut count: usize = 0;
        let mut i: usize = 0;
        while i < uids.len()
            invariant
                0 <= i <= uids@.len(),
                self.wf(),
                m0.dom().finite(),
                self@ =~= m0.remove_keys(uids@.subrange(0, i as int).to_set()),
                count == m0.dom().intersect(uids@.subrange(0, i as int).to_set()).len(),
                count <= i,
            decreases uids@.len() - i,
        {
            let uid = uids[i];
            let ghost prefix = uids@.subrange(0, i as int);
            let ghost prefix1 = uids@.subrange(0, i + 1);
            proof {
                assert forall|x: u64| #[trigger] prefix1.contains(x) <==> (prefix.contains(x) || x
                    == uid) by {
                    if prefix1.contains(x) {
                        let j = choose|j: int| 0 <= j < prefix1.len() && prefix1[j] == x;
                        if j < i {
                            assert(prefix[j] == x);
                        } else {
                            assert(prefix1[j] == uids@[i as int]);
                        }
                    }
                    if prefix.contains(x) {
                        let j = choose|j: int| 0 <= j < prefix.len() && prefix[j] == x;
                        assert(prefix1[j] == x);
                    }
                    if x == uid {
                        assert(prefix1[i as int] == x);
                    }
                }
                assert(prefix1.to_set() =~= prefix.to_set().insert(uid));
            }
            let removed = self.remove(&uid);
            proof {
                assert(self@ =~= m0.remove_keys(prefix1.to_set()));
                let inter = m0.dom().intersect(prefix.to_set());
                let inter1 = m0.dom().intersect(prefix1.to_set());
                vstd::set_lib::lemma_len_intersect(m0.dom(), prefix.to_set());
                vstd::set_lib::lemma_len_intersect(m0.dom(), prefix1.to_set());
                if removed is Some {
                    assert(!prefix.to_set().contains(uid));
                    assert(inter1 =~= inter.insert(uid));
                    assert(!inter.contains(uid));
                } else {
                    assert(inter1 =~= inter);
                }
            }
            if removed.is_some() {
                count = count + 1;
            }
            i = i + 1;
        }
        proof {
            assert(uids@.subrange(0, uids@.len() as int) =~= uids@);
        }
        count
    }

    /// For each present identifier, in order, replace the stored record with
    /// what the update function returns for it; the function also reports
    /// whether it changed the record, and the count of reported changes is
    /// returned. The update function must keep the record's identifier.
    pub fn update_batch<F: Fn(T) -> (T, bool)>(&mut self, uids: &[u64], f: F) -> (r: usize)
        requires
            old(self).wf(),
            forall|t: T| #[trigger] f.requires((t,)),
            forall|t: T, o: (T, bool)| #[trigger] f.ensures((t,), o) ==> o.0.uid_spec()
                == t.uid_spec(),
        ensures
            final(self).wf(),
            final(self)@.dom() =~= old(self)@.dom(),
            r <= uids@.len(),
            exists|outs: Seq<(T, bool)>|
                {
                    &&& #[trigger] updates_valid(f, old(self)@, uids@, outs)
                    &&& final(self)@ == apply_updates(old(self)@, uids@, outs)
                    &&& r == count_updates(old(self)@, uids@, outs)
                },
    {
        let ghost m0 = self@;
        let ghost mut outs: Seq<(T, bool)> = Seq::empty();
        let mut count: usize = 0;
        let mut i: usize = 0;
        proof {
            assert(uids@.subrange(0, 0) =~= Seq::<u64>::empty());
        }
        while i < uids.len()
            invariant
                0 <= i <= uids@.len(),
                self.wf(),
                forall|t: T| #[trigger] f.requires((t,)),
                forall|t: T, o: (T, bool)| #[trigger] f.ensures((t,), o) ==> o.0.uid_spec()
                    == t.uid_spec(),
                outs.len() == i,
                updates_valid(f, m0, uids@.subrange(0, i as int), outs),
                self@ == apply_updates(m0, uids@.subrange(0, i as int), outs),
                count == count_updates(m0, uids@.subrange(0, i as int), outs),
                count <= i,
            decreases uids@.len() - i,
        {
            let uid = uids[i];
            let ghost prefix = uids@.subrange(0, i as int);
            let ghost prefix1 = uids@.subrange(0, i + 1);
            proof {
                assert(prefix1 =~= prefix.push(uid));
            }
            let p = self.position_of(uid);
            let n = self.entries.len();
            if p < n && self.entries[p].0 == uid {
                let ghost s0 = self.entries@;
                proof {
                    lemma_sorted_implies_distinct(s0);
                    lemma_seq_to_map_index(s0, p as int);
                }
                let (_, t) = self.entries.remove(p);
                let ghost told = t;
                let (t2, changed) = f(t);
                self.entries.insert(p, (uid, t2));
                if changed {
                    count = count + 1;
                }
                proof {
                    assert(f.ensures((told,), (t2, changed)));
                    assert(t2.uid_spec() == told.uid_spec());
                    assert(self.entries@ =~= s0.update(p as int, (uid, t2)));
                    lemma_seq_to_map_update_at(s0, p as int, t2);
                    let ghost mid = apply_updates(m0, prefix, outs);
                    assert(mid.contains_key(uid) && mid[uid] == told);
                    lemma_updates_snoc(f, m0, prefix, outs, uid, (t2, changed));
                    outs = outs.push((t2, changed));
                    assert(self@ == apply_updates(m0, prefix1, outs));
                    assert(self.wf());
                }
            } else {
                proof {
                    let ghost s0 = self.entries@;
                    self.lemma_view_key_in_entries(uid);
                    if key_in_seq(s0, uid) {
                        let j = choose|j: int| 0 <= j < s0.len() && (#[trigger] s0[j]).0 == uid;
                        assert(j >= p);
                        if p < s0.len() {
                            assert(s0[p as int].0 >= uid);
                        }
                    }
                    assert(!self@.contains_key(uid));
                    lemma_updates_snoc(f, m0, prefix, outs, uid, (vstd::pervasive::arbitrary(), false));
                    outs = outs.push((vstd::pervasive::arbitrary(), false));
                }
            }
            i = i + 1;
        }
        proof {
            assert(uids@.subrange(0, uids@.len() as int) =~= uids@);
            lemma_apply_updates_dom(m0, uids@, outs);
        }
        count
    }

    /// Move a record to a new identifier, as one store-level transaction:
    /// the record leaves its old key and reappears, re-identified, under
    /// the new key, but only after checking that the new key is unused.
    /// A taken key is reported as an error and nothing changes.
    pub fn reassign(&mut self, old_uid: u64, new_uid: u64) -> (r: Result<
        (),
        crate::error::Error,
    >)
        requires
            old(self).wf(),
        ensures
            final(self).wf(),
            if !old(self)@.contains_key(old_uid) {
                &&& r matches Err(e) && e is NotFound
                &&& *final(self) == *old(self)
            } else if new_uid != old_uid && old(self)@.contains_key(new_uid) {
                &&& r matches Err(e) && e is InvalidInput
                &&& *final(self) == *old(self)
            } else {
                &&& r is Ok
                &&& final(self)@.contains_key(new_uid)
                &&& final(self)@[new_uid].uid_spec() == new_uid
                &&& final(self)@ =~= old(self)@.remove(old_uid).insert(
                    new_uid,
                    final(self)@[new_uid],
                )
            },
    {
        if self.get(&old_uid).is_none() {
            return Err(crate::error::Error::NotFound(crate::text::msg("no record under the old identifier")));
        }
        if new_uid != old_uid && self.get(&new_uid).is_some() {
            return Err(crate::error::Error::InvalidInput(crate::text::msg("identifier already in use")));
        }
        if new_uid == old_uid {
            proof {
                self.lemma_value_uid(new_uid);
                assert(final(self)@ =~= old(self)@.remove(old_uid).insert(
                    new_uid,
                    final(self)@[new_uid],
                ));
            }
            return Ok(());
        }
        let rec = match self.remove(&old_uid) {
            Some(t) => t,
            None => {
                proof {
                    assert(false);
                }
                return Err(crate::error::Error::NotFound(crate::text::msg("no record under the old identifier")));
            },
        };
        let rec2 = rec.with_uid(new_uid);
        self.insert(rec2);
        Ok(())
    }

    /// Every stored record carries the key it is stored under.
    pub proof fn lemma_value_uid(&self, k: u64)
        requires
            self.wf(),
            self@.contains_key(k),
        ensures
            self@[k].uid_spec() == k,
    {
        lemma_seq_to_map_dom(self.entries_seq(), k);
        let i = choose|i: int|
            0 <= i < self.entries_seq().len() && (#[trigger] self.entries_seq()[i]).0 == k;
        lemma_sorted_implies_distinct(self.entries_seq());
        lemma_seq_to_map_index(self.entries_seq(), i);
    }

    /// The highest identifier stored, if any.
    pub fn max_uid(&self) -> (r: Option<u64>)
        requires
            self.wf(),
        ensures
            match r {
                Some(m) => {
                    &&& self.entries_seq().len() > 0
                    &&& m == self.entries_seq().last().0
                    &&& forall|k: u64| self@.contains_key(k) ==> k <= m
                },
                None => self.entries_seq().len() == 0,
            },
    {
        let n = self.entries.len();
        if n == 0 {
            None
        } else {
            proof {
                assert forall|k: u64| self@.contains_key(k) implies k <= self.entries_seq()[n
                    - 1].0 by {
                    lemma_seq_to_map_dom(self.entries_seq(), k);
                    let i = choose|i: int|
                        0 <= i < self.entries_seq().len() && (#[trigger] self.entries_seq()[i]).0
                            == k;
                    if i < n - 1 {
                        assert(self.entries_seq()[i].0 < self.entries_seq()[n - 1].0);
                    }
                }
            }
            Some(self.entries[n - 1].0)
        }
    }

    /// All entries, ascending by key: a snapshot of the moment of the call.
    pub fn iter(&self) -> (r: Vec<(u64, &T)>)
        requires
            self.wf(),
        ensures
            r@.len() == self.entries_seq().len(),
            forall|i: int|
                0 <= i < r@.len() ==> (#[trigger] r@[i]).0 == self.entries_seq()[i].0 && *r@[i].1
                    == self.entries_seq()[i].1,
    {
        let n = self.entries.len();
        let mut out: Vec<(u64, &T)> = Vec::new();
        let mut i: usize = 0;
        while i < n
            invariant
                0 <= i <= n,
                n == self.entries_seq().len(),
                out@.len() == i,
                forall|j: int|
                    0 <= j < i ==> (#[trigger] out@[j]).0 == self.entries_seq()[j].0 && *out@[j].1
                        == self.entries_seq()[j].1,
            decreases n - i,
        {
            out.push((self.entries[i].0, &self.entries[i].1));
            i = i + 1;
        }
        out
    }
}

} // verus!
