//! The replicated sequence.
//!
//! A `SyncedList` owns an ordered store of identified elements plus the tape
//! of operations it generated locally since the last extraction.  Index-based
//! mutations allocate a fresh identity between the identities of the visible
//! neighbours, apply the operation locally and record it on the tape;
//! `replay` merges a remote batch by identity alone, so delivery order,
//! duplication and interleaving with local edits cannot drive two replicas
//! apart once they have seen the same set of operations.

use vstd::assert_sets_equal;
use vstd::map::*;
use vstd::prelude::*;

use crate::SyncError;
use crate::entries::{
    Entry, ListOp, ListOpView, ListModel, entries_model, entries_elems, entries_tombs,
    entries_sorted, entries_formed, entries_wf, ids_distinct, has_val_at, has_tomb_at, is_live,
    live_vals, live_ids, list_step, list_op_ok, op_id, op_is_insert, op_value, lemma_model_empty,
    lemma_model_insert, lemma_model_fill, lemma_model_kill, lemma_live_at, lemma_live_insert,
    lemma_live_remove, lemma_live_split, lemma_live_take_step, lemma_live_count_mono,
    lemma_live_lens, lemma_sorted_insert, lemma_sorted_distinct, lemma_elems_val,
    lemma_elems_absent, entries_similar, lemma_live_congr, lemma_model_congr,
};
use crate::ident::{
    Branch, ElemId, IdOrder, id_cmp, id_lt, id_wf, alloc_between, lemma_id_lt_irrefl,
    lemma_id_lt_asym, lemma_id_lt_trans, lemma_sorted_ids_canonical,
};
use crate::taped::Taped;
use crate::values::Value;

verus! {

/// A replicated, ordered sequence of values with stable per-element
/// identities.
///
/// Replicas fork from one another; each fork takes a distinct actor
/// identifier.  Every local mutation is applied immediately and recorded on
/// the tape; tapes are exchanged and replayed, and replicas that have seen
/// the same set of operations show the same sequence.
pub struct SyncedList<T: Value> {
    entries: Vec<Entry<T>>,
    actor: u64,
    ctr: u64,
    tape: Vec<ListOp<T>>,
}

impl<T: Value> SyncedList<T> {
    /// Structural well-formedness: the store is ordered by identity, every
    /// entry is sound, and every identity this replica stamped carries a
    /// counter below the replica's own.
    pub closed spec fn wf(&self) -> bool {
        &&& entries_wf(self.entries@)
        &&& forall|i: int|
            0 <= i < self.entries@.len() && (#[trigger] self.entries@[i]).id@.last().actor
                == self.actor ==> self.entries@[i].id@.last().ctr < self.ctr
    }

    /// The visible sequence of values: live elements in identity order.
    pub closed spec fn visible(&self) -> Seq<T::V> {
        live_vals(self.entries@)
    }

    /// The identities behind the visible positions.
    pub closed spec fn visible_ids(&self) -> Seq<Seq<Branch>> {
        live_ids(self.entries@)
    }

    /// The mathematical state of this replica.
    pub closed spec fn model(&self) -> ListModel<T::V> {
        entries_model(self.entries@)
    }

    /// The operations generated locally since the last extraction.
    pub closed spec fn pending(&self) -> Seq<ListOp<T>> {
        self.tape@
    }

    /// This replica's actor identifier.
    pub closed spec fn actor_id(&self) -> u64 {
        self.actor
    }

    /// This replica's logical counter; each insertion consumes one value.
    pub closed spec fn counter(&self) -> u64 {
        self.ctr
    }

    /// A fresh, empty replica with actor identifier `0`.
    pub fn new() -> (r: SyncedList<T>)
        ensures
            r.wf(),
            r.visible() == Seq::<T::V>::empty(),
            r.model() == ListModel::<T::V>::empty(),
            r.pending() == Seq::<ListOp<T>>::empty(),
            r.actor_id() == 0,
            r.counter() == 0,
    {
        let r = SyncedList { entries: Vec::new(), actor: 0, ctr: 0, tape: Vec::new() };
        proof {
            lemma_model_empty::<T>();
        }
        r
    }

    /// The number of visible elements.
    pub fn len(&self) -> (n: usize)
        ensures
            n == self.visible().len(),
    {
        let mut n: usize = 0;
        let mut i: usize = 0;
        while i < self.entries.len()
            invariant
                i <= self.entries@.len(),
                n <= i,
                n == live_vals(self.entries@.take(i as int)).len(),
            decreases self.entries@.len() - i,
        {
            proof {
                lemma_live_take_step(self.entries@, i as int);
            }
            let live = self.entries[i].val.is_some() && !self.entries[i].dead;
            if live {
                n = n + 1;
            }
            i = i + 1;
        }
        proof {
            assert(self.entries@.take(self.entries@.len() as int) =~= self.entries@);
        }
        n
    }

    /// Finds the storage position of the `idx`-th visible element.
    fn find_live(&self, idx: usize) -> (k: usize)
        requires
            idx < self.visible().len(),
        ensures
            k < self.entries@.len(),
            is_live(self.entries@[k as int]),
            live_vals(self.entries@.take(k as int)).len() == idx,
            self.entries@[k as int].val->0@ == self.visible()[idx as int],
            self.entries@[k as int].id@ == self.visible_ids()[idx as int],
    {
        let mut n: usize = 0;
        let mut i: usize = 0;
        while i < self.entries.len()
            invariant
                i <= self.entries@.len(),
                n <= i,
                n <= idx,
                idx < self.visible().len(),
                n == live_vals(self.entries@.take(i as int)).len(),
            decreases self.entries@.len() - i,
        {
            proof {
                lemma_live_take_step(self.entries@, i as int);
            }
            let live = self.entries[i].val.is_some() && !self.entries[i].dead;
            if live {
                if n == idx {
                    proof {
                        lemma_live_at(self.entries@, i as int);
                    }
                    return i;
                }
                n = n + 1;
            }
            i = i + 1;
        }
        proof {
            assert(self.entries@.take(self.entries@.len() as int) =~= self.entries@);
            assert(false);
        }
        0
    }

    /// A copy of the value at visible position `idx`, which must exist.
    pub fn index(&self, idx: usize) -> (r: T)
        requires
            idx < self.visible().len(),
        ensures
            r@ == self.visible()[idx as int],
    {
        let k = self.find_live(idx);
        match &self.entries[k].val {
            Some(v) => v.dup(),
            None => vstd::pervasive::unreached(),
        }
    }

    /// Finds the storage position where `id` belongs: every entry before it
    /// sorts strictly below `id` and, unless `id` itself is found there,
    /// every entry from it on sorts strictly above.
    fn find_slot(&self, id: &ElemId) -> (r: (usize, bool))
        requires
            entries_sorted(self.entries@),
        ensures
            r.0 <= self.entries@.len(),
            forall|j: int| 0 <= j < r.0 ==> id_lt((#[trigger] self.entries@[j]).id@, id@),
            r.1 ==> r.0 < self.entries@.len() && self.entries@[r.0 as int].id@ == id@,
            !r.1 ==> forall|j: int|
                r.0 <= j < self.entries@.len() ==> id_lt(id@, (#[trigger] self.entries@[j]).id@),
    {
        let mut k: usize = 0;
        while k < self.entries.len()
            invariant
                k <= self.entries@.len(),
                entries_sorted(self.entries@),
                forall|j: int| 0 <= j < k ==> id_lt((#[trigger] self.entries@[j]).id@, id@),
            decreases self.entries@.len() - k,
        {
            match id_cmp(&self.entries[k].id, id) {
                IdOrder::Before => {
                    k = k + 1;
                },
                IdOrder::Same => {
                    return (k, true);
                },
                IdOrder::After => {
                    proof {
                        assert forall|j: int|
                            k <= j < self.entries@.len() implies id_lt(
                            id@,
                            (#[trigger] self.entries@[j]).id@,
                        ) by {
                            if j > k {
                                lemma_id_lt_trans(
                                    id@,
                                    self.entries@[k as int].id@,
                                    self.entries@[j].id@,
                                );
                            }
                        }
                    }
                    return (k, false);
                },
            }
        }
        (k, false)
    }

    /// Inserts `element` at visible position `index`, which may be at most
    /// the visible length; the insertion is applied locally and recorded on
    /// the tape.
    pub fn insert(&mut self, index: usize, element: T) -> (r: Result<(), SyncError>)
        requires
            old(self).wf(),
            old(self).counter() < u64::MAX,
        ensures
            final(self).wf(),
            final(self).actor_id() == old(self).actor_id(),
            r is Ok <==> index <= old(self).visible().len(),
            r is Err ==> *final(self) == *old(self) && r->Err_0 == SyncError::OutOfRange,
            r is Ok ==> ({
                &&& final(self).counter() == old(self).counter() + 1
                &&& final(self).visible() == old(self).visible().insert(index as int, element@)
                &&& final(self).pending().len() == old(self).pending().len() + 1
                &&& final(self).pending().take(old(self).pending().len() as int) == old(
                    self,
                ).pending()
                &&& op_is_insert(final(self).pending().last()@)
                &&& op_value(final(self).pending().last()@) == element@
                &&& list_op_ok(final(self).pending().last()@)
                &&& !old(self).model().elems.contains_key(op_id(final(self).pending().last()@))
                &&& final(self).model() == list_step(
                    old(self).model(),
                    final(self).pending().last()@,
                )
            }),
    {
        let n = self.len();
        if index > n {
            return Err(SyncError::OutOfRange);
        }
        let ghost s = self.entries@;

        // the identities of the two visible neighbours bound the new identity
        let lo_k: Option<usize> = if index > 0 {
            Some(self.find_live(index - 1))
        } else {
            None
        };
        let hi_k: Option<usize> = if index < n {
            Some(self.find_live(index))
        } else {
            None
        };
        proof {
            if lo_k is Some && hi_k is Some {
                let a = lo_k->Some_0 as int;
                let b = hi_k->Some_0 as int;
                lemma_live_take_step(s, a);
                if b <= a {
                    lemma_live_count_mono(s, b, a);
                    assert(false);
                }
            }
        }
        let lo_ref: Option<&ElemId> = match lo_k {
            Some(k) => Some(&self.entries[k].id),
            None => None,
        };
        let hi_ref: Option<&ElemId> = match hi_k {
            Some(k) => Some(&self.entries[k].id),
            None => None,
        };
        let new_id = alloc_between(lo_ref, hi_ref, self.actor, self.ctr);
        let (pos, found) = self.find_slot(&new_id);
        proof {
            // the fresh identity cannot already be stored: its final branch
            // carries this replica's actor and current counter
            if found {
                assert(self.entries@[pos as int].id@.last() == new_id@.last());
                assert(false);
            }
        }
        proof {
            // exactly `index` live entries stand before `pos`
            let p = pos as int;
            if index > 0 {
                let a = lo_k->Some_0 as int;
                lemma_live_take_step(s, a);
                if p <= a {
                    assert(id_lt(new_id@, s[a].id@));
                    lemma_id_lt_asym(s[a].id@, new_id@);
                    assert(false);
                }
                lemma_live_count_mono(s, a + 1, p);
            }
            if index < n {
                let b = hi_k->Some_0 as int;
                if p > b {
                    assert(id_lt(s[b].id@, new_id@));
                    lemma_id_lt_asym(new_id@, s[b].id@);
                    assert(false);
                }
                lemma_live_count_mono(s, p, b);
            } else {
                lemma_live_count_mono(s, p, s.len() as int);
                assert(s.take(s.len() as int) =~= s);
            }
            assert(live_vals(s.take(p)).len() == index);
        }
        let op_id_c = new_id.dup();
        let value_c = element.dup();
        let e = Entry { id: new_id, val: Some(element), dead: false };
        proof {
            assert forall|i: int| 0 <= i < s.len() implies (#[trigger] s[i]).id@ != e.id@ by {
                if s[i].id@ == e.id@ {
                    if i < pos as int {
                        lemma_id_lt_irrefl(e.id@);
                    } else {
                        lemma_id_lt_irrefl(e.id@);
                    }
                }
            }
            assert forall|i: int| !has_val_at(s, e.id@, i) by {}
            lemma_sorted_distinct(s);
            lemma_elems_absent(s, e.id@);
        }
        self.entries.insert(pos, e);
        self.tape.push(ListOp::Insert { id: op_id_c, value: value_c });
        self.ctr = self.ctr + 1;
        proof {
            let s2 = self.entries@;
            assert(s2 == s.insert(pos as int, e));
            lemma_sorted_insert(s, pos as int, e);
            lemma_model_insert(s, pos as int, e);
            lemma_live_insert(s, pos as int, e, index as int);
            assert(s2 =~= s.take(pos as int) + seq![e] + s.skip(pos as int));
            assert forall|i: int|
                0 <= i < s2.len() implies id_wf((#[trigger] s2[i]).id@) && (s2[i].val is Some
                || s2[i].dead) by {
                if i < pos as int {
                    assert(s2[i] == s[i]);
                } else if i > pos as int {
                    assert(s2[i] == s[i - 1]);
                }
            }
            assert forall|i: int|
                0 <= i < s2.len() && (#[trigger] s2[i]).id@.last().actor
                    == self.actor implies s2[i].id@.last().ctr < self.ctr by {
                if i < pos as int {
                    assert(s2[i] == s[i]);
                } else if i > pos as int {
                    assert(s2[i] == s[i - 1]);
                }
            }
            assert(self.tape@.take(old(self).tape@.len() as int) =~= old(self).tape@);
            assert(self.tape@.last()@ == (ListOpView::Insert::<T::V> {
                id: e.id@,
                value: element@,
            }));
            assert(final(self).model() == list_step(
                old(self).model(),
                final(self).pending().last()@,
            ));
        }
        Ok(())
    }

    /// Appends `element` at the end of the sequence.
    pub fn push(&mut self, element: T)
        requires
            old(self).wf(),
            old(self).counter() < u64::MAX,
        ensures
            final(self).wf(),
            final(self).actor_id() == old(self).actor_id(),
            final(self).counter() == old(self).counter() + 1,
            final(self).visible() == old(self).visible().push(element@),
            final(self).pending().len() == old(self).pending().len() + 1,
            final(self).pending().take(old(self).pending().len() as int) == old(self).pending(),
            op_is_insert(final(self).pending().last()@),
            op_value(final(self).pending().last()@) == element@,
            list_op_ok(final(self).pending().last()@),
            !old(self).model().elems.contains_key(op_id(final(self).pending().last()@)),
            final(self).model() == list_step(old(self).model(), final(self).pending().last()@),
    {
        let n = self.len();
        let r = self.insert(n, element);
        proof {
            assert(r is Ok);
            assert(old(self).visible().insert(old(self).visible().len() as int, element@)
                =~= old(self).visible().push(element@));
        }
    }

    /// Deletes the element at visible position `index`, recording the
    /// deletion on the tape.
    pub fn remove(&mut self, index: usize) -> (r: Result<(), SyncError>)
        requires
            old(self).wf(),
        ensures
            final(self).wf(),
            final(self).actor_id() == old(self).actor_id(),
            final(self).counter() == old(self).counter(),
            r is Ok <==> index < old(self).visible().len(),
            r is Err ==> *final(self) == *old(self) && r->Err_0 == SyncError::OutOfRange,
            r is Ok ==> ({
                &&& final(self).visible() == old(self).visible().remove(index as int)
                &&& final(self).pending().len() == old(self).pending().len() + 1
                &&& final(self).pending().take(old(self).pending().len() as int) == old(
                    self,
                ).pending()
                &&& final(self).pending().last()@ == (ListOpView::Delete::<T::V> {
                    id: old(self).visible_ids()[index as int],
                })
                &&& final(self).model() == list_step(
                    old(self).model(),
                    final(self).pending().last()@,
                )
            }),
    {
        let n = self.len();
        if index >= n {
            return Err(SyncError::OutOfRange);
        }
        let ghost s = self.entries@;
        let k = self.find_live(index);
        let id_c = self.entries[k].id.dup();
        self.entries[k].dead = true;
        let ghost e2 = self.entries@[k as int];
        self.tape.push(ListOp::Delete { id: id_c });
        proof {
            assert(self.entries@ == s.update(k as int, e2));
            lemma_sorted_distinct(s);
            lemma_model_kill(s, k as int, e2);
            lemma_live_remove(s, k as int, e2, index as int);
            let s2 = self.entries@;
            assert forall|i: int| 0 <= i < s2.len() implies (#[trigger] s2[i]).id@ == s[i].id@
                && s2[i].val == s[i].val by {}
            assert(entries_sorted(s2)) by {
                assert forall|i: int, j: int|
                    #![trigger s2[i].id@, s2[j].id@]
                    0 <= i < j < s2.len() implies id_lt(s2[i].id@, s2[j].id@) by {
                    assert(s2[i].id@ == s[i].id@ && s2[j].id@ == s[j].id@);
                }
            }
            assert(self.tape@.take(old(self).tape@.len() as int) =~= old(self).tape@);
            assert(self.tape@.last()@ == (ListOpView::Delete::<T::V> { id: e2.id@ }));
            lemma_live_at(s, k as int);
        }
        Ok(())
    }

    /// Merges one remote operation into local state by identity alone.
    fn apply_one(&mut self, op: &ListOp<T>)
        requires
            old(self).wf(),
            list_op_ok(op@),
            op_id(op@).last().actor == old(self).actor_id() ==> op_id(op@).last().ctr < old(
                self,
            ).counter(),
        ensures
            final(self).wf(),
            final(self).actor_id() == old(self).actor_id(),
            final(self).counter() == old(self).counter(),
            final(self).pending() == old(self).pending(),
            final(self).model() == list_step(old(self).model(), op@),
    {
        let ghost s = self.entries@;
        proof {
            lemma_sorted_distinct(s);
        }
        match op {
            ListOp::Insert { id, value } => {
                let (pos, found) = self.find_slot(id);
                if found {
                    let fill = self.entries[pos].val.is_none();
                    if fill {
                        self.entries[pos].val = Some(value.dup());
                        proof {
                            let e2 = self.entries@[pos as int];
                            assert(self.entries@ == s.update(pos as int, e2));
                            lemma_model_fill(s, pos as int, e2);
                            let s2 = self.entries@;
                            assert(entries_sorted(s2)) by {
                                assert forall|i: int, j: int|
                                    #![trigger s2[i].id@, s2[j].id@]
                                    0 <= i < j < s2.len() implies id_lt(
                                    s2[i].id@,
                                    s2[j].id@,
                                ) by {
                                    assert(s[i].id@ == s2[i].id@ && s[j].id@ == s2[j].id@);
                                }
                            }
                            assert forall|i: int|
                                0 <= i < s2.len() implies id_wf((#[trigger] s2[i]).id@) && (
                            s2[i].val is Some || s2[i].dead) by {
                                if i != pos as int {
                                    assert(s2[i] == s[i]);
                                }
                            }
                            assert forall|i: int|
                                0 <= i < s2.len() && (#[trigger] s2[i]).id@.last().actor
                                    == self.actor implies s2[i].id@.last().ctr < self.ctr by {
                                if i != pos as int {
                                    assert(s2[i] == s[i]);
                                } else {
                                    assert(s2[i].id@ == s[i].id@);
                                }
                            }
                        }
                    } else {
                        proof {
                            assert(has_val_at(s, op_id(op@), pos as int));
                            lemma_elems_val(s, op_id(op@), pos as int);
                        }
                    }
                } else {
                    let e = Entry { id: id.dup(), val: Some(value.dup()), dead: false };
                    proof {
                        assert forall|i: int|
                            0 <= i < s.len() implies (#[trigger] s[i]).id@ != e.id@ by {
                            if s[i].id@ == e.id@ {
                                lemma_id_lt_irrefl(e.id@);
                            }
                        }
                        lemma_elems_absent(s, e.id@);
                    }
                    self.entries.insert(pos, e);
                    proof {
                        lemma_sorted_insert(s, pos as int, e);
                        lemma_model_insert(s, pos as int, e);
                        let s2 = self.entries@;
                        assert(s2 =~= s.take(pos as int) + seq![e] + s.skip(pos as int));
                        assert forall|i: int|
                            0 <= i < s2.len() implies id_wf((#[trigger] s2[i]).id@) && (s2[i].val
                             is Some || s2[i].dead) by {
                            if i < pos as int {
                                assert(s2[i] == s[i]);
                            } else if i > pos as int {
                                assert(s2[i] == s[i - 1]);
                            }
                        }
                        assert forall|i: int|
                            0 <= i < s2.len() && (#[trigger] s2[i]).id@.last().actor
                                == self.actor implies s2[i].id@.last().ctr < self.ctr by {
                            if i < pos as int {
                                assert(s2[i] == s[i]);
                            } else if i > pos as int {
                                assert(s2[i] == s[i - 1]);
                            }
                        }
                    }
                }
            },
            ListOp::Delete { id } => {
                let (pos, found) = self.find_slot(id);
                if found {
                    self.entries[pos].dead = true;
                    proof {
                        let e2 = self.entries@[pos as int];
                        assert(self.entries@ == s.update(pos as int, e2));
                        lemma_model_kill(s, pos as int, e2);
                        let s2 = self.entries@;
                        assert(entries_sorted(s2)) by {
                            assert forall|i: int, j: int|
                                #![trigger s2[i].id@, s2[j].id@]
                                0 <= i < j < s2.len() implies id_lt(s2[i].id@, s2[j].id@) by {
                                assert(s[i].id@ == s2[i].id@ && s[j].id@ == s2[j].id@);
                            }
                        }
                        assert forall|i: int|
                            0 <= i < s2.len() implies id_wf((#[trigger] s2[i]).id@) && (s2[i].val
                             is Some || s2[i].dead) by {
                            if i != pos as int {
                                assert(s2[i] == s[i]);
                            }
                        }
                        assert forall|i: int|
                            0 <= i < s2.len() && (#[trigger] s2[i]).id@.last().actor
                                == self.actor implies s2[i].id@.last().ctr < self.ctr by {
                            if i != pos as int {
                                assert(s2[i] == s[i]);
                            } else {
                                assert(s2[i].id@ == s[i].id@);
                            }
                        }
                    }
                } else {
                    let e = Entry { id: id.dup(), val: None, dead: true };
                    proof {
                        assert forall|i: int|
                            0 <= i < s.len() implies (#[trigger] s[i]).id@ != e.id@ by {
                            if s[i].id@ == e.id@ {
                                lemma_id_lt_irrefl(e.id@);
                            }
                        }
                    }
                    self.entries.insert(pos, e);
                    proof {
                        lemma_sorted_insert(s, pos as int, e);
                        lemma_model_insert(s, pos as int, e);
                        let s2 = self.entries@;
                        assert(s2 =~= s.take(pos as int) + seq![e] + s.skip(pos as int));
                        assert forall|i: int|
                            0 <= i < s2.len() implies id_wf((#[trigger] s2[i]).id@) && (s2[i].val
                             is Some || s2[i].dead) by {
                            if i < pos as int {
                                assert(s2[i] == s[i]);
                            } else if i > pos as int {
                                assert(s2[i] == s[i - 1]);
                            }
                        }
                        assert forall|i: int|
                            0 <= i < s2.len() && (#[trigger] s2[i]).id@.last().actor
                                == self.actor implies s2[i].id@.last().ctr < self.ctr by {
                            if i < pos as int {
                                assert(s2[i] == s[i]);
                            } else if i > pos as int {
                                assert(s2[i] == s[i - 1]);
                            }
                        }
                    }
                }
            },
        }
    }

    /// Forks this replica: the copy carries the same state under the next
    /// actor identifier, with an empty tape.
    pub fn fork(&self) -> (r: SyncedList<T>)
        requires
            self.wf(),
            self.actor_id() < u64::MAX,
        ensures
            r.wf(),
            r.model() == self.model(),
            r.visible() == self.visible(),
            r.visible_ids() == self.visible_ids(),
            r.actor_id() == self.actor_id() + 1,
            r.pending() == Seq::<ListOp<T>>::empty(),
    {
        let new_actor = self.actor + 1;
        let mut entries: Vec<Entry<T>> = Vec::new();
        let mut ctr: u64 = 0;
        let mut i: usize = 0;
        while i < self.entries.len()
            invariant
                self.wf(),
                i <= self.entries@.len(),
                entries@.len() == i,
                forall|j: int|
                    0 <= j < i ==> (#[trigger] entries@[j]).id@ == self.entries@[j].id@
                        && entries@[j].dead == self.entries@[j].dead && (entries@[j].val is Some
                        <==> self.entries@[j].val is Some) && (self.entries@[j].val is Some
                        ==> entries@[j].val->0@ == self.entries@[j].val->0@),
                forall|j: int|
                    0 <= j < i && (#[trigger] entries@[j]).id@.last().actor == new_actor
                        ==> entries@[j].id@.last().ctr < ctr,
            decreases self.entries@.len() - i,
        {
            let e = &self.entries[i];
            let plen = e.id.path.len();
            let b = e.id.path[plen - 1];
            if b.actor == new_actor && b.ctr >= ctr {
                ctr = b.ctr + 1;
            }
            let id2 = e.id.dup();
            let val2: Option<T> = match &e.val {
                Some(v) => Some(v.dup()),
                None => None,
            };
            entries.push(Entry { id: id2, val: val2, dead: e.dead });
            i = i + 1;
        }
        let r = SyncedList { entries, actor: new_actor, ctr, tape: Vec::new() };
        proof {
            assert(entries_similar(self.entries@, r.entries@));
            lemma_sorted_distinct(self.entries@);
            lemma_live_congr(self.entries@, r.entries@);
            lemma_model_congr(self.entries@, r.entries@);
        }
        r
    }

    /// Copies of the visible elements, in order.
    pub fn to_vec(&self) -> (r: Vec<T>)
        ensures
            r@.len() == self.visible().len(),
            forall|i: int| 0 <= i < r@.len() ==> (#[trigger] r@[i])@ == self.visible()[i],
    {
        let mut out: Vec<T> = Vec::new();
        let mut i: usize = 0;
        while i < self.entries.len()
            invariant
                i <= self.entries@.len(),
                out@.len() == live_vals(self.entries@.take(i as int)).len(),
                forall|j: int|
                    0 <= j < out@.len() ==> (#[trigger] out@[j])@ == live_vals(
                        self.entries@.take(i as int),
                    )[j],
            decreases self.entries@.len() - i,
        {
            proof {
                lemma_live_take_step(self.entries@, i as int);
            }
            if !self.entries[i].dead {
                match &self.entries[i].val {
                    Some(v) => {
                        out.push(v.dup());
                    },
                    None => {},
                }
            }
            i = i + 1;
        }
        proof {
            assert(self.entries@.take(self.entries@.len() as int) =~= self.entries@);
        }
        out
    }
}

/// The model after applying each operation of `ops`, in order, to `m`.
pub open spec fn list_fold<T: Value>(m: ListModel<T::V>, ops: Seq<ListOp<T>>) -> ListModel<T::V>
    decreases ops.len(),
{
    if ops.len() == 0 {
        m
    } else {
        list_fold(list_step(m, ops[0]@), ops.drop_first())
    }
}

/// Folding one more operation at the end applies it to the folded model.
pub proof fn lemma_list_fold_push<T: Value>(m: ListModel<T::V>, ops: Seq<ListOp<T>>, op: ListOp<T>)
    ensures
        list_fold(m, ops.push(op)) == list_step(list_fold(m, ops), op@),
    decreases ops.len(),
{
    let s = ops.push(op);
    if ops.len() == 0 {
        assert(s.drop_first() =~= Seq::<ListOp<T>>::empty());
        assert(s[0] == op);
        assert(list_fold(m, s) == list_fold(list_step(m, op@), s.drop_first()));
    } else {
        assert(s.drop_first() =~= ops.drop_first().push(op));
        assert(s[0] == ops[0]);
        assert(list_fold(m, s) == list_fold(list_step(m, ops[0]@), s.drop_first()));
        lemma_list_fold_push(list_step(m, ops[0]@), ops.drop_first(), op);
    }
}

/// Checks the internal consistency of a sequence operation.
fn op_check<T: Value>(op: &ListOp<T>) -> (r: bool)
    ensures
        r == list_op_ok(op@),
{
    let id: &ElemId = match op {
        ListOp::Insert { id, value } => id,
        ListOp::Delete { id } => id,
    };
    if id.path.len() == 0 {
        return false;
    }
    let b = id.path[id.path.len() - 1];
    b.digit >= 1 && b.ctr < u64::MAX
}

impl<T: Value> Taped for SyncedList<T> {
    type Operation = ListOp<T>;

    type Model = ListModel<T::V>;

    open spec fn inv(&self) -> bool {
        self.wf()
    }

    open spec fn model(&self) -> ListModel<T::V> {
        SyncedList::model(self)
    }

    open spec fn pending(&self) -> Seq<ListOp<T>> {
        SyncedList::pending(self)
    }

    open spec fn op_ok(op: ListOp<T>) -> bool {
        list_op_ok(op@)
    }

    open spec fn step(m: ListModel<T::V>, op: ListOp<T>) -> ListModel<T::V> {
        list_step(m, op@)
    }

    open spec fn fold(m: ListModel<T::V>, ops: Seq<ListOp<T>>) -> ListModel<T::V> {
        list_fold(m, ops)
    }

    proof fn fold_unfolds(m: ListModel<T::V>, ops: Seq<ListOp<T>>) {
    }

    fn replay(&mut self, tape: Vec<ListOp<T>>) -> (r: Result<(), SyncError>) {
        let mut i: usize = 0;
        while i < tape.len()
            invariant
                i <= tape@.len(),
                *self == *old(self),
                old(self).wf(),
                forall|j: int| 0 <= j < i ==> list_op_ok((#[trigger] tape@[j])@),
            decreases tape@.len() - i,
        {
            if !op_check(&tape[i]) {
                proof {
                    assert(!(forall|j: int|
                        0 <= j < tape@.len() ==> #[trigger] Self::op_ok(tape@[j]))) by {
                        assert(!Self::op_ok(tape@[i as int]));
                    }
                }
                return Err(SyncError::MalformedOperation);
            }
            i = i + 1;
        }
        let ghost m0 = SyncedList::model(self);
        let mut i: usize = 0;
        while i < tape.len()
            invariant
                i <= tape@.len(),
                self.wf(),
                forall|j: int| 0 <= j < tape@.len() ==> list_op_ok((#[trigger] tape@[j])@),
                self.actor_id() == old(self).actor_id(),
                SyncedList::pending(self) == SyncedList::pending(old(self)),
                SyncedList::model(self) == list_fold(m0, tape@.take(i as int)),
                m0 == SyncedList::model(old(self)),
            decreases tape@.len() - i,
        {
            let op = &tape[i];
            let id: &ElemId = match op {
                ListOp::Insert { id, value } => id,
                ListOp::Delete { id } => id,
            };
            let b = id.path[id.path.len() - 1];
            if b.actor == self.actor && b.ctr >= self.ctr {
                let ghost before = *self;
                self.ctr = b.ctr + 1;
                proof {
                    assert forall|k: int|
                        0 <= k < self.entries@.len() && (#[trigger] self.entries@[k]).id@.last().actor
                            == self.actor implies self.entries@[k].id@.last().ctr < self.ctr by {
                        assert(before.entries@[k].id@.last().ctr < before.ctr);
                    }
                }
            }
            self.apply_one(op);
            proof {
                lemma_list_fold_push(m0, tape@.take(i as int), tape@[i as int]);
                assert(tape@.take(i as int + 1) =~= tape@.take(i as int).push(tape@[i as int]));
            }
            i = i + 1;
        }
        proof {
            assert(tape@.take(tape@.len() as int) =~= tape@);
        }
        Ok(())
    }

    fn tape(&mut self) -> (r: Vec<ListOp<T>>) {
        let mut out: Vec<ListOp<T>> = Vec::new();
        core::mem::swap(&mut self.tape, &mut out);
        out
    }
}

/// A scoped accessor for one sequence element: it reads the value at lock
/// time and, only if written through, commits the edit on release as a
/// delete-then-insert pair at the same visible position.
pub struct SyncedListGuard<T: Value> {
    idx: usize,
    value: T,
    written: bool,
    target: Ghost<Seq<Branch>>,
}

impl<T: Value> SyncedListGuard<T> {
    /// The visible position this guard was locked on.
    pub closed spec fn index_of(&self) -> usize {
        self.idx
    }

    /// The denotation of the value currently held by the guard.
    pub closed spec fn value_view(&self) -> T::V {
        self.value@
    }

    /// Whether a value was written through the guard.
    pub closed spec fn is_written(&self) -> bool {
        self.written
    }

    /// The identity of the element the guard was locked on.
    pub closed spec fn target_id(&self) -> Seq<Branch> {
        self.target@
    }

    /// Reads the value held by the guard.
    pub fn value(&self) -> (r: &T)
        ensures
            r@ == self.value_view(),
    {
        &self.value
    }

    /// Writes a value through the guard; it is committed on release.
    pub fn set(&mut self, v: T)
        ensures
            final(self).value_view() == v@,
            final(self).is_written(),
            final(self).index_of() == old(self).index_of(),
            final(self).target_id() == old(self).target_id(),
    {
        self.value = v;
        self.written = true;
    }
}

impl<T: Value> SyncedList<T> {
    /// Locks visible position `idx` for a scoped edit.  Fails with
    /// `OutOfRange` when no live element occupies `idx`.
    pub fn lock(&self, idx: usize) -> (r: Result<SyncedListGuard<T>, SyncError>)
        ensures
            r is Ok <==> idx < self.visible().len(),
            r is Err ==> r->Err_0 == SyncError::OutOfRange,
            r is Ok ==> r->Ok_0.index_of() == idx && r->Ok_0.value_view() == self.visible()[idx as int]
                && !r->Ok_0.is_written() && r->Ok_0.target_id() == self.visible_ids()[idx as int],
    {
        let n = self.len();
        if idx >= n {
            return Err(SyncError::OutOfRange);
        }
        let k = self.find_live(idx);
        let v = match &self.entries[k].val {
            Some(v) => v.dup(),
            None => vstd::pervasive::unreached(),
        };
        Ok(
            SyncedListGuard {
                idx,
                value: v,
                written: false,
                target: Ghost(self.entries@[k as int].id@),
            },
        )
    }

    /// Releases a guard.  A guard never written through commits nothing and
    /// generates no operation; a written guard commits a deletion of the old
    /// element and an insertion of the new value at the same visible
    /// position, both recorded on the tape.  Committing a guard whose target
    /// was invalidated by another local operation since `lock` violates the
    /// serialization contract and is excluded by precondition.
    pub fn commit(&mut self, guard: SyncedListGuard<T>)
        requires
            old(self).wf(),
            old(self).counter() < u64::MAX,
            guard.is_written() ==> guard.index_of() < old(self).visible().len() && old(
                self,
            ).visible_ids()[guard.index_of() as int] == guard.target_id(),
        ensures
            final(self).wf(),
            final(self).actor_id() == old(self).actor_id(),
            !guard.is_written() ==> *final(self) == *old(self),
            guard.is_written() ==> ({
                &&& final(self).visible() == old(self).visible().update(
                    guard.index_of() as int,
                    guard.value_view(),
                )
                &&& final(self).pending().len() == old(self).pending().len() + 2
                &&& final(self).pending().take(old(self).pending().len() as int) == old(
                    self,
                ).pending()
                &&& final(self).pending()[old(self).pending().len() as int]@ == (
                ListOpView::Delete::<T::V> { id: guard.target_id() })
                &&& op_is_insert(final(self).pending().last()@)
                &&& op_value(final(self).pending().last()@) == guard.value_view()
            }),
    {
        let SyncedListGuard { idx, value, written, target } = guard;
        if !written {
            return ;
        }
        let ghost p0 = self.tape@;
        let ghost vis0 = self.visible();
        let r1 = self.remove(idx);
        proof {
            assert(r1 is Ok);
        }
        let ghost p1 = self.tape@;
        let r2 = self.insert(idx, value);
        proof {
            assert(r2 is Ok);
            let p2 = self.tape@;
            assert(p2.take(p1.len() as int).take(p0.len() as int) =~= p2.take(p0.len() as int));
            assert(p2[p0.len() as int] == p1.last());
            assert(vis0.remove(idx as int).insert(idx as int, guard.value_view()) =~= vis0.update(
                idx as int,
                guard.value_view(),
            ));
        }
    }
}

/// Applying the same sequence operation twice leaves the same model as
/// applying it once.
pub proof fn lemma_list_apply_idempotent<TV>(m: ListModel<TV>, op: ListOpView<TV>)
    ensures
        list_step(list_step(m, op), op) == list_step(m, op),
{
    match op {
        ListOpView::Insert { id, value } => {
            if !m.elems.contains_key(id) {
                assert(list_step(m, op).elems.contains_key(id));
            }
        },
        ListOpView::Delete { id } => {
            assert(m.tombs.insert(id).insert(id) =~= m.tombs.insert(id));
            assert(list_step(list_step(m, op), op) =~= list_step(m, op));
        },
    }
}

/// Two sequence operations cannot disagree: if both insert the same
/// identity they carry the same value.
pub open spec fn list_ops_compat<TV>(op1: ListOpView<TV>, op2: ListOpView<TV>) -> bool {
    op1 is Insert && op2 is Insert && op_id(op1) == op_id(op2) ==> op_value(op1) == op_value(op2)
}

/// Operations stamped by different actors never insert the same identity,
/// so they cannot disagree.
pub proof fn lemma_distinct_actors_compat<TV>(op1: ListOpView<TV>, op2: ListOpView<TV>)
    requires
        list_op_ok(op1),
        list_op_ok(op2),
        op_id(op1).last().actor != op_id(op2).last().actor,
    ensures
        list_ops_compat(op1, op2),
{
    assert(op_id(op1) != op_id(op2));
}

/// Sequence operations that cannot disagree commute: either order of
/// application yields the same model.
pub proof fn lemma_list_apply_commutes<TV>(m: ListModel<TV>, op1: ListOpView<TV>, op2: ListOpView<
    TV,
>)
    requires
        list_ops_compat(op1, op2),
    ensures
        list_step(list_step(m, op1), op2) == list_step(list_step(m, op2), op1),
{
    let a = list_step(list_step(m, op1), op2);
    let b = list_step(list_step(m, op2), op1);
    match (op1, op2) {
        (ListOpView::Insert { id: id1, value: v1 }, ListOpView::Insert { id: id2, value: v2 }) => {
            if id1 == id2 {
                assert(a.elems =~= b.elems);
            } else {
                assert(a.elems =~= b.elems);
            }
            assert(a =~= b);
        },
        (ListOpView::Insert { id: id1, value: v1 }, ListOpView::Delete { id: id2 }) => {
            assert(a =~= b);
        },
        (ListOpView::Delete { id: id1 }, ListOpView::Insert { id: id2, value: v2 }) => {
            assert(a =~= b);
        },
        (ListOpView::Delete { id: id1 }, ListOpView::Delete { id: id2 }) => {
            assert(a.tombs =~= b.tombs);
            assert(a =~= b);
        },
    }
}

/// The denotations of a batch of operations.
pub open spec fn op_views<T: Value>(ops: Seq<ListOp<T>>) -> Seq<ListOpView<T::V>> {
    ops.map_values(|op: ListOp<T>| op@)
}

/// The model after applying each operation denotation of `ops`, in order.
pub open spec fn list_fold_v<TV>(m: ListModel<TV>, ops: Seq<ListOpView<TV>>) -> ListModel<TV>
    decreases ops.len(),
{
    if ops.len() == 0 {
        m
    } else {
        list_fold_v(list_step(m, ops[0]), ops.drop_first())
    }
}

/// Folding a batch is folding its denotations.
pub proof fn lemma_list_fold_views<T: Value>(m: ListModel<T::V>, ops: Seq<ListOp<T>>)
    ensures
        list_fold(m, ops) == list_fold_v(m, op_views(ops)),
    decreases ops.len(),
{
    if ops.len() > 0 {
        assert(op_views(ops)[0] == ops[0]@);
        assert(op_views(ops).drop_first() =~= op_views(ops.drop_first()));
        lemma_list_fold_views(list_step(m, ops[0]@), ops.drop_first());
    }
}

/// Whether some operation of the batch inserts identity `x`.
pub open spec fn has_insert<TV>(ops: Seq<ListOpView<TV>>, x: Seq<Branch>) -> bool {
    exists|i: int| 0 <= i < ops.len() && (#[trigger] ops[i]) is Insert && op_id(ops[i]) == x
}

/// Whether some operation of the batch deletes identity `x`.
pub open spec fn has_delete<TV>(ops: Seq<ListOpView<TV>>, x: Seq<Branch>) -> bool {
    exists|i: int| 0 <= i < ops.len() && (#[trigger] ops[i]) is Delete && op_id(ops[i]) == x
}

/// A batch that cannot disagree, with itself or with the base model: any
/// two insertions of one identity carry the same value, and an insertion of
/// an identity the model already binds carries the bound value.  Batches
/// produced by correct replicas satisfy this: an identity is inserted once,
/// and duplicated deliveries repeat the same operation.
pub open spec fn list_ops_agree<TV>(m0: ListModel<TV>, ops: Seq<ListOpView<TV>>) -> bool {
    &&& forall|i: int, j: int|
        #![trigger ops[i], ops[j]]
        0 <= i < ops.len() && 0 <= j < ops.len() && ops[i] is Insert && ops[j] is Insert && op_id(
            ops[i],
        ) == op_id(ops[j]) ==> op_value(ops[i]) == op_value(ops[j])
    &&& forall|i: int|
        0 <= i < ops.len() && (#[trigger] ops[i]) is Insert && m0.elems.contains_key(
            op_id(ops[i]),
        ) ==> op_value(ops[i]) == m0.elems[op_id(ops[i])]
}

/// What a fold of an agreeing batch leaves behind, key by key: the folded
/// model is a function of the base model and of the set of operation
/// denotations alone, not of their order or multiplicity.
pub proof fn lemma_list_fold_char<TV>(m0: ListModel<TV>, ops: Seq<ListOpView<TV>>)
    requires
        list_ops_agree(m0, ops),
    ensures
        forall|x: Seq<Branch>|
            #![trigger list_fold_v(m0, ops).elems.contains_key(x)]
            list_fold_v(m0, ops).elems.contains_key(x) <==> (m0.elems.contains_key(x) || has_insert(
                ops,
                x,
            )),
        forall|x: Seq<Branch>|
            m0.elems.contains_key(x) ==> #[trigger] list_fold_v(m0, ops).elems[x] == m0.elems[x],
        forall|i: int|
            0 <= i < ops.len() && (#[trigger] ops[i]) is Insert ==> list_fold_v(
                m0,
                ops,
            ).elems[op_id(ops[i])] == op_value(ops[i]),
        forall|x: Seq<Branch>|
            #![trigger list_fold_v(m0, ops).tombs.contains(x)]
            list_fold_v(m0, ops).tombs.contains(x) <==> (m0.tombs.contains(x) || has_delete(
                ops,
                x,
            )),
    decreases ops.len(),
{
    if ops.len() > 0 {
        let op0 = ops[0];
        let m1 = list_step(m0, op0);
        let rest = ops.drop_first();
        assert forall|i: int| 0 <= i < rest.len() implies #[trigger] rest[i] == ops[i + 1] by {}
        assert(list_ops_agree(m1, rest)) by {
            assert forall|i: int|
                0 <= i < rest.len() && (#[trigger] rest[i]) is Insert && m1.elems.contains_key(
                    op_id(rest[i]),
                ) implies op_value(rest[i]) == m1.elems[op_id(rest[i])] by {
                if m0.elems.contains_key(op_id(rest[i])) {
                    assert(m1.elems[op_id(rest[i])] == m0.elems[op_id(rest[i])]);
                } else {
                    assert(op0 is Insert && op_id(op0) == op_id(rest[i]));
                }
            }
        }
        lemma_list_fold_char(m1, rest);
        let m = list_fold_v(m0, ops);
        assert(m == list_fold_v(m1, rest));
        assert forall|x: Seq<Branch>|
            #![trigger m.elems.contains_key(x)]
            m.elems.contains_key(x) <==> (m0.elems.contains_key(x) || has_insert(ops, x)) by {
            if m.elems.contains_key(x) {
                if !m0.elems.contains_key(x) {
                    if m1.elems.contains_key(x) && !has_insert(rest, x) {
                        assert(op0 is Insert && op_id(op0) == x);
                        assert(has_insert(ops, x));
                    } else {
                        let i = choose|i: int|
                            0 <= i < rest.len() && (#[trigger] rest[i]) is Insert && op_id(rest[i])
                                == x;
                        assert(ops[i + 1] is Insert && op_id(ops[i + 1]) == x);
                        assert(has_insert(ops, x));
                    }
                }
            }
            if m0.elems.contains_key(x) {
                assert(m1.elems.contains_key(x));
            }
            if has_insert(ops, x) {
                let i = choose|i: int|
                    0 <= i < ops.len() && (#[trigger] ops[i]) is Insert && op_id(ops[i]) == x;
                if i == 0 {
                    assert(m1.elems.contains_key(x));
                } else {
                    assert(rest[i - 1] is Insert && op_id(rest[i - 1]) == x);
                    assert(has_insert(rest, x));
                }
            }
        }
        assert forall|i: int|
            0 <= i < ops.len() && (#[trigger] ops[i]) is Insert implies m.elems[op_id(ops[i])]
            == op_value(ops[i]) by {
            let x = op_id(ops[i]);
            if i == 0 {
                assert(m1.elems.contains_key(x));
                assert(m1.elems[x] == op_value(op0));
            } else {
                assert(rest[i - 1] is Insert && op_id(rest[i - 1]) == x);
            }
        }
        assert forall|x: Seq<Branch>|
            #![trigger m.tombs.contains(x)]
            m.tombs.contains(x) <==> (m0.tombs.contains(x) || has_delete(ops, x)) by {
            if m.tombs.contains(x) && !m0.tombs.contains(x) {
                if m1.tombs.contains(x) {
                    assert(op0 is Delete && op_id(op0) == x);
                    assert(has_delete(ops, x));
                } else {
                    let i = choose|i: int|
                        0 <= i < rest.len() && (#[trigger] rest[i]) is Delete && op_id(rest[i])
                            == x;
                    assert(ops[i + 1] is Delete && op_id(ops[i + 1]) == x);
                    assert(has_delete(ops, x));
                }
            }
            if m0.tombs.contains(x) {
                assert(m1.tombs.contains(x));
            }
            if has_delete(ops, x) {
                let i = choose|i: int|
                    0 <= i < ops.len() && (#[trigger] ops[i]) is Delete && op_id(ops[i]) == x;
                if i == 0 {
                    assert(m1.tombs.contains(x));
                } else {
                    assert(rest[i - 1] is Delete && op_id(rest[i - 1]) == x);
                    assert(has_delete(rest, x));
                }
            }
        }
    }
}

/// Convergence of the sequence model: two replicas that start from the same
/// model and fold batches holding the same set of operation denotations, in
/// whatever order and however often repeated, reach the same model.
pub proof fn lemma_list_convergence<TV>(
    m0: ListModel<TV>,
    ops1: Seq<ListOpView<TV>>,
    ops2: Seq<ListOpView<TV>>,
)
    requires
        list_ops_agree(m0, ops1),
        forall|op: ListOpView<TV>| ops1.contains(op) <==> ops2.contains(op),
    ensures
        list_fold_v(m0, ops1) == list_fold_v(m0, ops2),
{
    assert(list_ops_agree(m0, ops2)) by {
        assert forall|i: int, j: int|
            #![trigger ops2[i], ops2[j]]
            0 <= i < ops2.len() && 0 <= j < ops2.len() && ops2[i] is Insert && ops2[j] is Insert
                && op_id(ops2[i]) == op_id(ops2[j]) implies op_value(ops2[i]) == op_value(
            ops2[j],
        ) by {
            assert(ops2.contains(ops2[i]) && ops2.contains(ops2[j]));
            assert(ops1.contains(ops2[i]) && ops1.contains(ops2[j]));
            let a = choose|a: int| 0 <= a < ops1.len() && ops1[a] == ops2[i];
            let b = choose|b: int| 0 <= b < ops1.len() && ops1[b] == ops2[j];
            assert(op_value(ops1[a]) == op_value(ops1[b]));
        }
        assert forall|i: int|
            0 <= i < ops2.len() && (#[trigger] ops2[i]) is Insert && m0.elems.contains_key(
                op_id(ops2[i]),
            ) implies op_value(ops2[i]) == m0.elems[op_id(ops2[i])] by {
            assert(ops2.contains(ops2[i]));
            assert(ops1.contains(ops2[i]));
            let a = choose|a: int| 0 <= a < ops1.len() && ops1[a] == ops2[i];
            assert(op_value(ops1[a]) == m0.elems[op_id(ops1[a])]);
        }
    }
    lemma_list_fold_char(m0, ops1);
    lemma_list_fold_char(m0, ops2);
    let ma = list_fold_v(m0, ops1);
    let mb = list_fold_v(m0, ops2);
    assert forall|x: Seq<Branch>| has_insert(ops1, x) <==> has_insert(ops2, x) by {
        if has_insert(ops1, x) {
            let i = choose|i: int|
                0 <= i < ops1.len() && (#[trigger] ops1[i]) is Insert && op_id(ops1[i]) == x;
            assert(ops1.contains(ops1[i]));
            assert(ops2.contains(ops1[i]));
            let j = choose|j: int| 0 <= j < ops2.len() && ops2[j] == ops1[i];
            assert(ops2[j] is Insert && op_id(ops2[j]) == x);
        }
        if has_insert(ops2, x) {
            let i = choose|i: int|
                0 <= i < ops2.len() && (#[trigger] ops2[i]) is Insert && op_id(ops2[i]) == x;
            assert(ops2.contains(ops2[i]));
            assert(ops1.contains(ops2[i]));
            let j = choose|j: int| 0 <= j < ops1.len() && ops1[j] == ops2[i];
            assert(ops1[j] is Insert && op_id(ops1[j]) == x);
        }
    }
    assert forall|x: Seq<Branch>| has_delete(ops1, x) <==> has_delete(ops2, x) by {
        if has_delete(ops1, x) {
            let i = choose|i: int|
                0 <= i < ops1.len() && (#[trigger] ops1[i]) is Delete && op_id(ops1[i]) == x;
            assert(ops1.contains(ops1[i]));
            assert(ops2.contains(ops1[i]));
            let j = choose|j: int| 0 <= j < ops2.len() && ops2[j] == ops1[i];
            assert(ops2[j] is Delete && op_id(ops2[j]) == x);
        }
        if has_delete(ops2, x) {
            let i = choose|i: int|
                0 <= i < ops2.len() && (#[trigger] ops2[i]) is Delete && op_id(ops2[i]) == x;
            assert(ops2.contains(ops2[i]));
            assert(ops1.contains(ops2[i]));
            let j = choose|j: int| 0 <= j < ops1.len() && ops1[j] == ops2[i];
            assert(ops1[j] is Delete && op_id(ops1[j]) == x);
        }
    }
    assert_maps_equal!(ma.elems, mb.elems, x => {
        if ma.elems.contains_key(x) {
            if !m0.elems.contains_key(x) {
                let i = choose|i: int|
                    0 <= i < ops1.len() && (#[trigger] ops1[i]) is Insert && op_id(ops1[i]) == x;
                let j = choose|j: int|
                    0 <= j < ops2.len() && (#[trigger] ops2[j]) is Insert && op_id(ops2[j]) == x;
                assert(ma.elems[x] == op_value(ops1[i]));
                assert(mb.elems[x] == op_value(ops2[j]));
                assert(ops1.contains(ops1[i]));
                assert(ops2.contains(ops2[j]));
                assert(ops1.contains(ops2[j]));
                let k = choose|k: int| 0 <= k < ops1.len() && ops1[k] == ops2[j];
                assert(op_value(ops1[i]) == op_value(ops1[k]));
            }
        }
    });
    assert_sets_equal!(ma.tombs, mb.tombs, x => {});
    assert(ma =~= mb);
}

/// Canonical display: well-formed replicas holding the same model show the
/// same visible sequence, whatever order their stores were assembled in.
pub proof fn lemma_list_replicas_converge<T: Value>(a: &SyncedList<T>, b: &SyncedList<T>)
    requires
        a.wf(),
        b.wf(),
        a.model() == b.model(),
    ensures
        a.visible() == b.visible(),
        a.visible_ids() == b.visible_ids(),
{
    let s1 = a.entries@;
    let s2 = b.entries@;
    lemma_sorted_distinct(s1);
    lemma_sorted_distinct(s2);
    let m = entries_model(s1);
    let ids1 = s1.map_values(|e: Entry<T>| e.id@);
    let ids2 = s2.map_values(|e: Entry<T>| e.id@);
    assert forall|i: int, j: int|
        #![trigger ids1[i], ids1[j]]
        0 <= i < j < ids1.len() implies id_lt(ids1[i], ids1[j]) by {
        assert(id_lt(s1[i].id@, s1[j].id@));
    }
    assert forall|i: int, j: int|
        #![trigger ids2[i], ids2[j]]
        0 <= i < j < ids2.len() implies id_lt(ids2[i], ids2[j]) by {
        assert(id_lt(s2[i].id@, s2[j].id@));
    }
    assert forall|x: Seq<Branch>| ids1.contains(x) implies ids2.contains(x) by {
        let i = choose|i: int| 0 <= i < ids1.len() && ids1[i] == x;
        assert(s1[i].id@ == x);
        if s1[i].val is Some {
            assert(has_val_at(s1, x, i));
            lemma_elems_val(s1, x, i);
            assert(entries_elems(s2).contains_key(x));
            let j = choose|j: int| has_val_at(s2, x, j);
            assert(has_val_at(s2, x, j));
            assert(ids2[j] == x);
        } else {
            assert(s1[i].dead);
            assert(has_tomb_at(s1, x, i));
            assert(entries_tombs(s1).contains(x));
            assert(entries_tombs(s2).contains(x));
            let j = choose|j: int| has_tomb_at(s2, x, j);
            assert(has_tomb_at(s2, x, j));
            assert(ids2[j] == x);
        }
    }
    assert forall|x: Seq<Branch>| ids2.contains(x) implies ids1.contains(x) by {
        let i = choose|i: int| 0 <= i < ids2.len() && ids2[i] == x;
        assert(s2[i].id@ == x);
        if s2[i].val is Some {
            assert(has_val_at(s2, x, i));
            lemma_elems_val(s2, x, i);
            assert(entries_elems(s1).contains_key(x));
            let j = choose|j: int| has_val_at(s1, x, j);
            assert(has_val_at(s1, x, j));
            assert(ids1[j] == x);
        } else {
            assert(s2[i].dead);
            assert(has_tomb_at(s2, x, i));
            assert(entries_tombs(s2).contains(x));
            assert(entries_tombs(s1).contains(x));
            let j = choose|j: int| has_tomb_at(s1, x, j);
            assert(has_tomb_at(s1, x, j));
            assert(ids1[j] == x);
        }
    }
    lemma_sorted_ids_canonical(ids1, ids2);
    assert(s1.len() == s2.len());
    assert forall|i: int|
        0 <= i < s1.len() implies (#[trigger] s2[i]).id@ == s1[i].id@ && s2[i].dead == s1[i].dead
        && (s2[i].val is Some <==> s1[i].val is Some) && (s1[i].val is Some ==> s2[i].val->0@
        == s1[i].val->0@) by {
        assert(ids1[i] == ids2[i]);
        let x = s1[i].id@;
        assert(s2[i].id@ == x);
        if s1[i].val is Some {
            assert(has_val_at(s1, x, i));
            lemma_elems_val(s1, x, i);
            assert(entries_elems(s2).contains_key(x));
            let j = choose|j: int| has_val_at(s2, x, j);
            assert(has_val_at(s2, x, j));
            assert(j == i);
            lemma_elems_val(s2, x, i);
        }
        if s2[i].val is Some {
            assert(has_val_at(s2, x, i));
            lemma_elems_val(s2, x, i);
            assert(entries_elems(s1).contains_key(x));
            let j = choose|j: int| has_val_at(s1, x, j);
            assert(has_val_at(s1, x, j));
            assert(j == i);
        }
        if s1[i].dead {
            assert(has_tomb_at(s1, x, i));
            assert(entries_tombs(s2).contains(x));
            let j = choose|j: int| has_tomb_at(s2, x, j);
            assert(has_tomb_at(s2, x, j));
            assert(j == i);
        }
        if s2[i].dead {
            assert(has_tomb_at(s2, x, i));
            assert(entries_tombs(s1).contains(x));
            let j = choose|j: int| has_tomb_at(s1, x, j);
            assert(has_tomb_at(s1, x, j));
            assert(j == i);
        }
    }
    assert(entries_similar(s1, s2));
    lemma_live_congr(s1, s2);
}

} // verus!
