use std::collections::HashMap;
use vstd::prelude::*;
use vstd::std_specs::iter::IteratorSpec;

verus! {

broadcast use vstd::std_specs::hash::group_hash_axioms;

/// A handle naming one object held by a [`Storage`].
#[derive(Clone, Copy, PartialEq, Eq, Hash, Debug, Structural)]
pub struct ID(pub usize);

impl ID {
    /// The raw number behind the handle.
    pub fn index(&self) -> (r: usize)
        ensures
            r == self.0,
    {
        self.0
    }
}

/// A densely packed collection of objects, each reachable through the [`ID`]
/// that `create` handed out for it.
///
/// Objects live contiguously in `entries`; `ids[i]` is the handle of
/// `entries[i]`, and `ids_to_inds` maps each live handle back to its slot.
/// Handles of removed objects are kept in `unused_ids` and handed out again,
/// most recently freed first, before any never-used handle.
pub struct Storage<T> {
    entries: Vec<T>,
    ids: Vec<ID>,
    ids_to_inds: HashMap<usize, usize>,
    next_unallocated_id: ID,
    unused_ids: Vec<ID>,
}

impl<T> Storage<T> {
    /// The handles of the live objects, in storage order.
    pub closed spec fn id_seq(&self) -> Seq<ID> {
        self.ids@
    }

    /// The live objects, in storage order (`entry_seq()[i]` belongs to `id_seq()[i]`).
    pub closed spec fn entry_seq(&self) -> Seq<T> {
        self.entries@
    }

    /// Handles that were freed and will be handed out again, the last one first.
    pub closed spec fn free_seq(&self) -> Seq<ID> {
        self.unused_ids@
    }

    /// The smallest handle number never handed out.
    pub closed spec fn next_fresh(&self) -> usize {
        self.next_unallocated_id.0
    }

    /// The slot of a live handle.
    pub closed spec fn slot_of(&self, id: ID) -> int {
        self.ids_to_inds@[id.0] as int
    }

    /// The objects by handle.
    pub closed spec fn view(&self) -> Map<ID, T> {
        Map::new(
            |id: ID| self.ids_to_inds@.contains_key(id.0),
            |id: ID| self.entries@[self.ids_to_inds@[id.0] as int],
        )
    }

    spec fn table_matches_ids(&self) -> bool {
        &&& forall|i: int|
            0 <= i < self.ids@.len() ==> #[trigger] self.ids_to_inds@.contains_key(self.ids@[i].0)
                && self.ids_to_inds@[self.ids@[i].0] == i
        &&& forall|k: usize| #[trigger]
            self.ids_to_inds@.contains_key(k) ==> self.ids_to_inds@[k] < self.ids@.len()
                && self.ids@[self.ids_to_inds@[k] as int].0 == k
    }

    spec fn handles_accounted(&self) -> bool {
        &&& forall|i: int|
            0 <= i < self.ids@.len() ==> (#[trigger] self.ids@[i]).0 < self.next_unallocated_id.0
        &&& forall|i: int|
            0 <= i < self.unused_ids@.len() ==> (#[trigger] self.unused_ids@[i]).0
                < self.next_unallocated_id.0 && !self.ids_to_inds@.contains_key(
                self.unused_ids@[i].0,
            )
        &&& self.unused_ids@.no_duplicates()
        &&& forall|k: usize|
            k < self.next_unallocated_id.0 ==> #[trigger] self.ids_to_inds@.contains_key(k)
                || self.unused_ids@.contains(ID(k))
    }

    /// The storage's internal invariant.
    pub closed spec fn wf(&self) -> bool {
        &&& self.ids@.len() == self.entries@.len()
        &&& self.table_matches_ids()
        &&& self.handles_accounted()
    }

    /// `after` is `before` with `stored` added under the handle `id`, as
    /// `create` leaves it once the returned reference is released with
    /// `stored` in it.
    pub open spec fn creates(before: Self, after: Self, stored: T, id: ID) -> bool {
        &&& after.wf()
        &&& !before@.contains_key(id)
        &&& after@ =~= before@.insert(id, stored)
        &&& after.id_seq() =~= before.id_seq().push(id)
        &&& after.entry_seq() =~= before.entry_seq().push(stored)
        &&& if before.free_seq().len() > 0 {
            &&& id == before.free_seq().last()
            &&& after.free_seq() =~= before.free_seq().drop_last()
            &&& after.next_fresh() == before.next_fresh()
        } else {
            &&& id == ID(before.next_fresh())
            &&& after.free_seq() =~= before.free_seq()
            &&& after.next_fresh() == before.next_fresh() + 1
        }
    }

    /// `after` is `before` with the object named by `id` removed, as `remove`
    /// leaves it: the handle joins the free handles and the last object in
    /// storage order fills the freed slot.
    pub open spec fn removes(before: Self, after: Self, id: ID) -> bool {
        &&& after.wf()
        &&& after@ =~= before@.remove(id)
        &&& after.free_seq() =~= before.free_seq().push(id)
        &&& after.next_fresh() == before.next_fresh()
        &&& after.id_seq() =~= before.id_seq().update(
            before.slot_of(id),
            before.id_seq().last(),
        ).drop_last()
        &&& after.entry_seq() =~= before.entry_seq().update(
            before.slot_of(id),
            before.entry_seq().last(),
        ).drop_last()
    }

    /// The handle that the `i`-th next `create` hands out, counting from 0,
    /// if nothing is removed in between: the freed handles from the most
    /// recently freed back, then never-used ones in increasing order.
    pub open spec fn handle_after(&self, i: int) -> ID {
        if i < self.free_seq().len() {
            self.free_seq()[self.free_seq().len() - 1 - i]
        } else {
            ID((self.next_fresh() + (i - self.free_seq().len())) as usize)
        }
    }

    /// At least `k` more objects can be created before the handle numbers run out.
    pub open spec fn can_create(&self, k: int) -> bool {
        self.free_seq().len() + (usize::MAX - self.next_fresh()) >= k
    }

    /// `create` hands out `handle_after(0)`, and the handles after it move up
    /// by one.
    pub proof fn lemma_create_advances(before: Self, after: Self, stored: T, id: ID)
        requires
            Self::creates(before, after, stored, id),
        ensures
            id == before.handle_after(0),
            forall|j: int| 0 <= j ==> #[trigger] after.handle_after(j) == before.handle_after(j + 1),
            forall|k: int| 1 <= k && #[trigger] before.can_create(k) ==> after.can_create(k - 1),
    {
    }

    /// `after`'s free handles and fresh-handle counter are what `k` creations
    /// leave behind when they start from `before`: the `k` most recently
    /// freed handles are used up first, then never-used ones.
    pub open spec fn handles_used(before: Self, after: Self, k: int) -> bool {
        let f = before.free_seq().len() as int;
        if k <= f {
            &&& after.free_seq() == before.free_seq().take(f - k)
            &&& after.next_fresh() == before.next_fresh()
        } else {
            &&& after.free_seq() == Seq::<ID>::empty()
            &&& after.next_fresh() == before.next_fresh() + (k - f)
        }
    }

    /// One more creation after `k` leaves what `k + 1` creations leave.
    pub proof fn lemma_handles_used_step(s0: Self, s1: Self, s2: Self, k: int, stored: T, id: ID)
        requires
            0 <= k,
            Self::handles_used(s0, s1, k),
            Self::creates(s1, s2, stored, id),
        ensures
            Self::handles_used(s0, s2, k + 1),
            id == s0.handle_after(k),
    {
        let f = s0.free_seq().len() as int;
        if k < f {
            assert(s2.free_seq() =~= s0.free_seq().take(f - (k + 1)));
        } else {
            assert(s2.free_seq() =~= Seq::<ID>::empty());
        }
    }

    /// After `k` creations the next handles are the ones that came after the
    /// first `k`, and `k` fewer objects can still be created.
    pub proof fn lemma_handles_used_shift(s0: Self, s1: Self, k: int)
        requires
            0 <= k,
            Self::handles_used(s0, s1, k),
        ensures
            forall|j: int| 0 <= j ==> #[trigger] s1.handle_after(j) == s0.handle_after(j + k),
            forall|c: int| #[trigger] s0.can_create(c + k) ==> s1.can_create(c),
    {
    }

    fn get_next_id(&mut self) -> (id: ID)
        requires
            old(self).wf(),
            old(self).free_seq().len() > 0 || old(self).next_fresh() < usize::MAX,
        ensures
            final(self).entries == old(self).entries,
            final(self).ids == old(self).ids,
            final(self).ids_to_inds == old(self).ids_to_inds,
            old(self).free_seq().len() > 0 ==> {
                &&& id == old(self).free_seq().last()
                &&& final(self).free_seq() == old(self).free_seq().drop_last()
                &&& final(self).next_fresh() == old(self).next_fresh()
            },
            old(self).free_seq().len() == 0 ==> {
                &&& id == ID(old(self).next_fresh())
                &&& final(self).free_seq() == old(self).free_seq()
                &&& final(self).next_fresh() == old(self).next_fresh() + 1
            },
    {
        if let Some(id) = self.unused_ids.pop() {
            return id;
        }
        let new_id = self.next_unallocated_id;
        self.next_unallocated_id = ID(self.next_unallocated_id.0 + 1);
        return new_id;
    }
    /// Stores `obj` under a handle that is not live: the most recently freed
    /// handle if there is one, else the next never-used one. The object goes to
    /// the end of the storage order; a mutable reference to it is returned
    /// together with its handle.
    pub fn create(&mut self, obj: T) -> (r: (&mut T, ID))
        requires
            old(self).wf(),
            old(self).free_seq().len() > 0 || old(self).next_fresh() < usize::MAX,
        ensures
            *r.0 == obj,
            Self::creates(*old(self), *final(self), *final(r.0), r.1),
    {
        let id = self.get_next_id();
        self.entries.push(obj);
        self.ids.push(id);
        let ind = self.entries.len() - 1;
        self.ids_to_inds.insert(id.0, ind);
        proof {
            let pre = old(self);
            assert(self.table_matches_ids()) by {
                assert forall|i: int| 0 <= i < self.ids@.len() implies #[trigger] self.ids_to_inds@.contains_key(self.ids@[i].0)
                    && self.ids_to_inds@[self.ids@[i].0] == i by {
                    if i < pre.ids@.len() {
                        assert(pre.ids@[i] == self.ids@[i]);
                    }
                }
            }
            assert(self.handles_accounted()) by {
                assert forall|k: usize| k < self.next_unallocated_id.0 implies #[trigger] self.ids_to_inds@.contains_key(k)
                    || self.unused_ids@.contains(ID(k)) by {
                    if k != id.0 {
                        assert(k < pre.next_unallocated_id.0);
                        if pre.unused_ids@.contains(ID(k)) {
                            let j = choose|j: int| 0 <= j < pre.unused_ids@.len() && pre.unused_ids@[j] == ID(k);
                            if pre.unused_ids@.len() > 0 {
                                assert(j != pre.unused_ids@.len() - 1);
                                assert(self.unused_ids@[j] == ID(k));
                            }
                        }
                    }
                }
                assert forall|i: int| 0 <= i < self.unused_ids@.len() implies (#[trigger] self.unused_ids@[i]).0
                    < self.next_unallocated_id.0 && !self.ids_to_inds@.contains_key(self.unused_ids@[i].0) by {
                    assert(self.unused_ids@[i] == pre.unused_ids@[i]);
                    if pre.unused_ids@.len() > 0 {
                        assert(pre.unused_ids@[i] != pre.unused_ids@.last());
                    }
                }
            }
        }
        (&mut self.entries[ind], id)
    }
    /// Removes the object named by `id`. Its handle joins the free handles; the
    /// last object in storage order moves into the freed slot.
    pub fn remove(&mut self, id: ID)
        requires
            old(self).wf(),
            old(self)@.contains_key(id),
        ensures
            Self::removes(*old(self), *final(self), id),
    {
        let ghost pre = *self;
        let ind = self.ids_to_inds.remove(&id.0).unwrap();
        self.unused_ids.push(id);
        assert(pre.ids@[ind as int] == id);
        if ind == self.entries.len() - 1 {
            self.entries.pop();
            self.ids.pop();
            proof {
                assert(self.ids@ =~= pre.ids@.update(ind as int, pre.ids@.last()).drop_last());
                assert(self.entries@ =~= pre.entries@.update(ind as int, pre.entries@.last()).drop_last());
                self.lemma_remove_keeps_wf(pre, id);
            }
            return;
        }
        let node_to_move = self.entries.pop().unwrap();
        let id_to_update = self.ids.pop().unwrap();
        self.ids_to_inds.insert(id_to_update.0, ind);
        self.entries.set(ind, node_to_move);
        self.ids.set(ind, id_to_update);
        proof {
            assert(self.ids@ =~= pre.ids@.update(ind as int, pre.ids@.last()).drop_last());
            assert(self.entries@ =~= pre.entries@.update(ind as int, pre.entries@.last()).drop_last());
            self.lemma_remove_keeps_wf(pre, id);
        }
    }

    proof fn lemma_remove_keeps_wf(&self, pre: Self, id: ID)
        requires
            pre.wf(),
            pre@.contains_key(id),
            self.next_unallocated_id == pre.next_unallocated_id,
            self.unused_ids@ == pre.unused_ids@.push(id),
            self.ids@ == pre.ids@.update(pre.slot_of(id), pre.ids@.last()).drop_last(),
            self.entries@ == pre.entries@.update(pre.slot_of(id), pre.entries@.last()).drop_last(),
            pre.slot_of(id) == pre.ids@.len() - 1 ==> self.ids_to_inds@ == pre.ids_to_inds@.remove(id.0),
            pre.slot_of(id) != pre.ids@.len() - 1 ==> self.ids_to_inds@ == pre.ids_to_inds@.remove(id.0).insert(
                pre.ids@.last().0,
                pre.slot_of(id) as usize,
            ),
        ensures
            self.wf(),
            self@ == pre@.remove(id),
    {
        let s = pre.slot_of(id);
        let last = pre.ids@.len() - 1;
        assert(pre.ids@[s] == id);
        assert(pre.ids_to_inds@.contains_key(pre.ids@[last].0));
        assert forall|i: int| 0 <= i < self.ids@.len() implies #[trigger] self.ids_to_inds@.contains_key(self.ids@[i].0)
            && self.ids_to_inds@[self.ids@[i].0] == i by {
            if i == s {
                assert(self.ids@[i] == pre.ids@[last]);
                assert(pre.ids_to_inds@[pre.ids@[last].0] == last);
            } else {
                assert(self.ids@[i] == pre.ids@[i]);
                assert(pre.ids_to_inds@.contains_key(pre.ids@[i].0));
                assert(pre.ids_to_inds@[pre.ids@[i].0] == i);
                assert(pre.ids@[i].0 != id.0);
                if s != last {
                    assert(pre.ids_to_inds@[pre.ids@[last].0] == last);
                }
            }
        }
        assert forall|k: usize| #[trigger] self.ids_to_inds@.contains_key(k) implies self.ids_to_inds@[k] < self.ids@.len()
            && self.ids@[self.ids_to_inds@[k] as int].0 == k by {
            if s != last && k == pre.ids@.last().0 {
            } else {
                assert(pre.ids_to_inds@.contains_key(k));
                let j = pre.ids_to_inds@[k] as int;
                assert(pre.ids@[j].0 == k);
                assert(j != s);
                if j == last {
                    assert(k == pre.ids@.last().0);
                }
            }
        }
        assert(self.table_matches_ids());
        assert forall|i: int| 0 <= i < self.ids@.len() implies (#[trigger] self.ids@[i]).0 < self.next_unallocated_id.0 by {
            if i == s {
                assert(pre.ids@[last].0 < pre.next_unallocated_id.0);
            } else {
                assert(pre.ids@[i].0 < pre.next_unallocated_id.0);
            }
        }
        assert forall|i: int| 0 <= i < self.unused_ids@.len() implies (#[trigger] self.unused_ids@[i]).0
            < self.next_unallocated_id.0 && !self.ids_to_inds@.contains_key(self.unused_ids@[i].0) by {
            if i < pre.unused_ids@.len() {
                assert(self.unused_ids@[i] == pre.unused_ids@[i]);
                assert(!pre.ids_to_inds@.contains_key(pre.unused_ids@[i].0));
                if s != last {
                    assert(pre.ids_to_inds@.contains_key(pre.ids@[last].0));
                }
            } else {
                assert(pre.ids@[s].0 < pre.next_unallocated_id.0);
            }
        }
        assert(self.unused_ids@.no_duplicates()) by {
            assert forall|i: int| 0 <= i < pre.unused_ids@.len() implies pre.unused_ids@[i] != id by {
                assert(!pre.ids_to_inds@.contains_key(pre.unused_ids@[i].0));
            }
        }
        assert forall|k: usize| k < self.next_unallocated_id.0 implies #[trigger] self.ids_to_inds@.contains_key(k)
            || self.unused_ids@.contains(ID(k)) by {
            if k == id.0 {
                assert(self.unused_ids@[self.unused_ids@.len() - 1] == ID(k));
            } else if pre.ids_to_inds@.contains_key(k) {
            } else {
                assert(pre.unused_ids@.contains(ID(k)));
                let j = choose|j: int| 0 <= j < pre.unused_ids@.len() && pre.unused_ids@[j] == ID(k);
                assert(self.unused_ids@[j] == ID(k));
            }
        }
        assert(self.handles_accounted());
        assert(self@ =~= pre@.remove(id)) by {
            assert forall|x: ID| #[trigger] self@.contains_key(x) implies self@[x] == pre@.remove(id)[x] by {
                if s != last && x.0 == pre.ids@.last().0 {
                    assert(pre.ids_to_inds@[x.0] == last);
                } else {
                    let j = pre.ids_to_inds@[x.0] as int;
                    assert(pre.ids@[j].0 == x.0);
                    assert(j != s);
                    if j == last {
                        assert(x.0 == pre.ids@.last().0);
                    }
                }
            }
        }
    }

    /// The object named by `id`.
    pub fn get(&self, id: ID) -> (r: &T)
        requires
            self.wf(),
            self@.contains_key(id),
        ensures
            *r == self@[id],
    {
        &self.entries[*self.ids_to_inds.get(&id.0).unwrap()]
    }

    /// A mutable reference to the object named by `id`; nothing else changes.
    pub fn get_mut(&mut self, id: ID) -> (r: &mut T)
        requires
            old(self).wf(),
            old(self)@.contains_key(id),
        ensures
            *r == old(self)@[id],
            final(self).wf(),
            final(self)@ == old(self)@.insert(id, *final(r)),
            final(self).id_seq() == old(self).id_seq(),
            final(self).entry_seq() == old(self).entry_seq().update(old(self).slot_of(id), *final(r)),
            final(self).free_seq() == old(self).free_seq(),
            final(self).next_fresh() == old(self).next_fresh(),
    {
        let ind = *self.ids_to_inds.get(&id.0).unwrap();
        &mut self.entries[ind]
    }

    /// Whether `id` names a live object.
    pub fn contains(&self, id: ID) -> (r: bool)
        requires
            self.wf(),
        ensures
            r == self@.contains_key(id),
    {
        self.ids_to_inds.contains_key(&id.0)
    }

    /// Iterates over the objects in storage order.
    pub fn iter(&self) -> (r: std::slice::Iter<'_, T>)
        ensures
            r.remaining() == self.entry_seq().as_ref(),
    {
        self.entries.as_slice().iter()
    }

    /// Consumes the storage, yielding the objects in storage order.
    pub fn into_iter(self) -> (r: std::vec::IntoIter<T>)
        ensures
            r.remaining() == self.entry_seq(),
    {
        self.entries.into_iter()
    }

    /// The objects in storage order, to be changed in place.
    pub fn iter_mut(&mut self) -> (r: &mut [T])
        requires
            old(self).wf(),
        ensures
            r@ == old(self).entry_seq(),
            final(self).entry_seq() == final(r)@,
            final(r)@.len() == r@.len() ==> final(self).wf(),
            final(self).id_seq() == old(self).id_seq(),
            final(self).free_seq() == old(self).free_seq(),
            final(self).next_fresh() == old(self).next_fresh(),
    {
        self.entries.as_mut_slice()
    }

    /// The handles of the live objects, in storage order.
    pub fn ids(&self) -> (r: &Vec<ID>)
        ensures
            r@ == self.id_seq(),
    {
        &self.ids
    }

    /// The handles and the objects, side by side in storage order.
    pub fn with_ids(&self) -> (r: (&[ID], &[T]))
        ensures
            r.0@ == self.id_seq(),
            r.1@ == self.entry_seq(),
    {
        (self.ids.as_slice(), self.entries.as_slice())
    }

    /// The handles, side by side with the objects to be changed in place.
    pub fn with_ids_mut(&mut self) -> (r: (&[ID], &mut [T]))
        requires
            old(self).wf(),
        ensures
            r.0@ == old(self).id_seq(),
            r.1@ == old(self).entry_seq(),
            final(self).entry_seq() == final(r.1)@,
            final(r.1)@.len() == r.1@.len() ==> final(self).wf(),
            final(self).id_seq() == old(self).id_seq(),
            final(self).free_seq() == old(self).free_seq(),
            final(self).next_fresh() == old(self).next_fresh(),
    {
        (self.ids.as_slice(), self.entries.as_mut_slice())
    }
    /// The number of live objects.
    pub fn len(&self) -> (r: usize)
        requires
            self.wf(),
        ensures
            r == self.id_seq().len(),
            r == self@.len(),
    {
        proof {
            self.lemma_structure();
        }
        self.ids.len()
    }

    /// What every well-formed storage satisfies: handles and objects line up
    /// slot by slot, no handle is live twice, the live handles are exactly the
    /// keys of the view, freed handles are not live, and every handle number
    /// below `next_fresh()` is either live or free while none above it is.
    pub proof fn lemma_structure(&self)
        requires
            self.wf(),
        ensures
            self.id_seq().len() == self.entry_seq().len(),
            self.id_seq().no_duplicates(),
            self.free_seq().no_duplicates(),
            self@.dom().finite(),
            self@.len() == self.id_seq().len(),
            forall|i: int|
                0 <= i < self.id_seq().len() ==> #[trigger] self@.contains_key(self.id_seq()[i])
                    && self@[self.id_seq()[i]] == self.entry_seq()[i] && self.slot_of(self.id_seq()[i]) == i,
            forall|id: ID| #[trigger]
                self@.contains_key(id) ==> 0 <= self.slot_of(id) < self.id_seq().len()
                    && self.id_seq()[self.slot_of(id)] == id,
            forall|id: ID| #[trigger] self@.contains_key(id) <==> self.id_seq().contains(id),
            forall|id: ID| #[trigger]
                self.free_seq().contains(id) ==> !self@.contains_key(id) && id.0 < self.next_fresh(),
            forall|id: ID| #[trigger] self@.contains_key(id) ==> id.0 < self.next_fresh(),
            forall|k: usize|
                k < self.next_fresh() <==> (self@.contains_key(ID(k)) || #[trigger] self.free_seq().contains(ID(k))),
    {
        assert forall|i: int, j: int| 0 <= i < self.ids@.len() && 0 <= j < self.ids@.len() && i != j implies
            self.ids@[i] != self.ids@[j] by {
            assert(self.ids_to_inds@.contains_key(self.ids@[i].0));
            assert(self.ids_to_inds@.contains_key(self.ids@[j].0));
        }
        assert forall|id: ID| #[trigger] self@.contains_key(id) <==> self.id_seq().contains(id) by {
            if self@.contains_key(id) {
                let j = self.ids_to_inds@[id.0] as int;
                assert(self.ids@[j] == id);
            }
            if self.id_seq().contains(id) {
                let j = choose|j: int| 0 <= j < self.ids@.len() && self.ids@[j] == id;
                assert(self.ids_to_inds@.contains_key(self.ids@[j].0));
            }
        }
        assert forall|i: int| 0 <= i < self.id_seq().len() implies #[trigger] self@.contains_key(self.id_seq()[i])
            && self@[self.id_seq()[i]] == self.entry_seq()[i] && self.slot_of(self.id_seq()[i]) == i by {
            assert(self.ids_to_inds@.contains_key(self.ids@[i].0));
        }
        assert forall|id: ID| #[trigger] self.free_seq().contains(id) implies !self@.contains_key(id)
            && id.0 < self.next_fresh() by {
            let j = choose|j: int| 0 <= j < self.unused_ids@.len() && self.unused_ids@[j] == id;
            assert(self.unused_ids@[j] == id);
        }
        assert forall|id: ID| #[trigger] self@.contains_key(id) implies id.0 < self.next_fresh() by {
            let j = self.ids_to_inds@[id.0] as int;
            assert(self.ids@[j].0 == id.0);
        }
        assert forall|k: usize| k < self.next_fresh() <==> (self@.contains_key(ID(k)) || #[trigger] self.free_seq().contains(ID(k))) by {
            if self@.contains_key(ID(k)) {
                let j = self.ids_to_inds@[k] as int;
                assert(self.ids@[j].0 == k);
            }
            if self.free_seq().contains(ID(k)) {
                let j = choose|j: int| 0 <= j < self.unused_ids@.len() && self.unused_ids@[j] == ID(k);
                assert(self.unused_ids@[j] == ID(k));
            }
            if k < self.next_fresh() {
                assert(self.ids_to_inds@.contains_key(k) || self.unused_ids@.contains(ID(k)));
            }
        }
        assert(self@.dom() =~= self.ids@.to_set());
        self.ids@.unique_seq_to_set();
    }
}

impl<T: Clone> Clone for Storage<T> {
    /// A storage with the same handles in the same slots, each object cloned.
    fn clone(&self) -> (r: Self)
        ensures
            self.wf() ==> r.wf(),
            r.id_seq() == self.id_seq(),
            r.free_seq() == self.free_seq(),
            r.next_fresh() == self.next_fresh(),
            r.entry_seq().len() == self.entry_seq().len(),
            forall|i: int| 0 <= i < self.entry_seq().len() ==> cloned(self.entry_seq()[i], #[trigger] r.entry_seq()[i]),
    {
        let mut entries: Vec<T> = Vec::new();
        let mut i: usize = 0;
        while i < self.entries.len()
            invariant
                i <= self.entries@.len(),
                entries@.len() == i,
                forall|j: int| 0 <= j < i ==> cloned(self.entries@[j], #[trigger] entries@[j]),
            decreases self.entries@.len() - i,
        {
            entries.push(self.entries[i].clone());
            i = i + 1;
        }
        let mut ids: Vec<ID> = Vec::new();
        let mut i: usize = 0;
        while i < self.ids.len()
            invariant
                i <= self.ids@.len(),
                ids@ == self.ids@.take(i as int),
            decreases self.ids@.len() - i,
        {
            ids.push(self.ids[i]);
            proof {
                assert(self.ids@.take(i as int).push(self.ids@[i as int]) =~= self.ids@.take(i + 1));
            }
            i = i + 1;
        }
        assert(self.ids@.take(i as int) =~= self.ids@);
        let mut unused_ids: Vec<ID> = Vec::new();
        let mut i: usize = 0;
        while i < self.unused_ids.len()
            invariant
                i <= self.unused_ids@.len(),
                unused_ids@ == self.unused_ids@.take(i as int),
            decreases self.unused_ids@.len() - i,
        {
            unused_ids.push(self.unused_ids[i]);
            proof {
                assert(self.unused_ids@.take(i as int).push(self.unused_ids@[i as int]) =~= self.unused_ids@.take(i + 1));
            }
            i = i + 1;
        }
        assert(self.unused_ids@.take(i as int) =~= self.unused_ids@);
        Storage {
            entries,
            ids,
            ids_to_inds: self.ids_to_inds.clone(),
            next_unallocated_id: self.next_unallocated_id,
            unused_ids,
        }
    }
}

impl<T> Default for Storage<T> {
    /// An empty storage whose first handle will be `ID(0)`.
    fn default() -> (r: Self)
        ensures
            r.wf(),
            r@ == Map::<ID, T>::empty(),
            r.id_seq() == Seq::<ID>::empty(),
            r.entry_seq() == Seq::<T>::empty(),
            r.free_seq() == Seq::<ID>::empty(),
            r.next_fresh() == 0,
    {
        let r = Self {
            entries: Vec::new(),
            ids: Vec::new(),
            ids_to_inds: HashMap::new(),
            next_unallocated_id: ID(0),
            unused_ids: Vec::new(),
        };
        assert(r@ =~= Map::<ID, T>::empty());
        r
    }
}

/// Creating an object and reading its handle gives the object back; every
/// other object stays live and unchanged.
pub proof fn law_read_after_create<T>(before: Storage<T>, after: Storage<T>, stored: T, id: ID)
    requires
        Storage::creates(before, after, stored, id),
    ensures
        after@.contains_key(id),
        after@[id] == stored,
        forall|other: ID|
            other != id && #[trigger] before@.contains_key(other) ==> after@.contains_key(other)
                && after@[other] == before@[other],
{
}

/// A handle that `create` hands out is not live before and is live after.
pub proof fn law_create_hands_out_fresh_handle<T>(
    before: Storage<T>,
    after: Storage<T>,
    stored: T,
    id: ID,
)
    requires
        before.wf(),
        Storage::creates(before, after, stored, id),
    ensures
        !before@.contains_key(id),
        !before.id_seq().contains(id),
        after.id_seq().contains(id),
        after@.len() == before@.len() + 1,
{
    before.lemma_structure();
    after.lemma_structure();
    assert(after.id_seq()[after.id_seq().len() - 1] == id);
}

/// Two creations in a row hand out two different handles.
pub proof fn law_successive_creates_differ<T>(
    s0: Storage<T>,
    s1: Storage<T>,
    s2: Storage<T>,
    a: T,
    b: T,
    id_a: ID,
    id_b: ID,
)
    requires
        Storage::creates(s0, s1, a, id_a),
        Storage::creates(s1, s2, b, id_b),
    ensures
        id_a != id_b,
{
    assert(s1@.contains_key(id_a));
}

/// The handles and objects that `with_ids` returns line up slot by slot: each
/// handle is live and names the object beside it, and no handle comes twice.
pub proof fn law_with_ids_pairs_handles_with_objects<T>(s: Storage<T>, ids: Seq<ID>, objs: Seq<T>)
    requires
        s.wf(),
        ids == s.id_seq(),
        objs == s.entry_seq(),
    ensures
        ids.len() == objs.len(),
        ids.len() == s@.len(),
        ids.no_duplicates(),
        forall|i: int| 0 <= i < ids.len() ==> #[trigger] s@.contains_key(ids[i]) && s@[ids[i]] == objs[i],
        forall|id: ID| #[trigger] s@.contains_key(id) ==> ids.contains(id),
{
    s.lemma_structure();
    assert forall|i: int| 0 <= i < ids.len() implies #[trigger] s@.contains_key(ids[i]) && s@[ids[i]] == objs[i] by {
        assert(s@.contains_key(s.id_seq()[i]));
    }
}

/// Removing an object makes its handle dead and leaves every other object as
/// it was.
pub proof fn law_remove_forgets_only_that_handle<T>(before: Storage<T>, after: Storage<T>, id: ID)
    requires
        Storage::removes(before, after, id),
    ensures
        !after@.contains_key(id),
        forall|other: ID|
            other != id && #[trigger] before@.contains_key(other) ==> after@.contains_key(other)
                && after@[other] == before@[other],
        forall|other: ID| #[trigger] after@.contains_key(other) ==> before@.contains_key(other),
{
}

/// Removing the object just created restores the objects, their order and
/// their handles.
pub proof fn law_remove_undoes_create<T>(
    s0: Storage<T>,
    s1: Storage<T>,
    s2: Storage<T>,
    stored: T,
    id: ID,
)
    requires
        s0.wf(),
        Storage::creates(s0, s1, stored, id),
        Storage::removes(s1, s2, id),
    ensures
        s2@ == s0@,
        s2.id_seq() == s0.id_seq(),
        s2.entry_seq() == s0.entry_seq(),
        s2.handle_after(0) == id,
{
    s1.lemma_structure();
    let last = s1.id_seq().len() - 1;
    assert(s1.id_seq()[last] == id);
    assert(s1.slot_of(id) == last);
    assert(s2@ =~= s0@);
    assert(s2.id_seq() =~= s0.id_seq());
    assert(s2.entry_seq() =~= s0.entry_seq());
}

/// The handle freed last is the next one handed out.
pub proof fn law_freed_handle_is_reused_first<T>(
    s0: Storage<T>,
    s1: Storage<T>,
    s2: Storage<T>,
    removed: ID,
    stored: T,
    created: ID,
)
    requires
        Storage::removes(s0, s1, removed),
        Storage::creates(s1, s2, stored, created),
    ensures
        created == removed,
        s2.free_seq() == s0.free_seq(),
{
    assert(s2.free_seq() =~= s0.free_seq());
}

/// One step in the life of a storage: an object stored under a handle by
/// `create`, or a handle given up by `remove`.
pub enum StorageStep<T> {
    Created(T, ID),
    Removed(ID),
}

/// The handles given up by the removals of `steps` and not handed out again,
/// each creation taking back the most recently given up one.
pub open spec fn freed_stack<T>(steps: Seq<StorageStep<T>>) -> Seq<ID>
    decreases steps.len(),
{
    if steps.len() == 0 {
        Seq::empty()
    } else {
        let prev = freed_stack(steps.drop_last());
        match steps.last() {
            StorageStep::Created(_, _) => if prev.len() > 0 {
                prev.drop_last()
            } else {
                prev
            },
            StorageStep::Removed(id) => prev.push(id),
        }
    }
}

/// How many creations of `steps` found no given-up handle to take back, and
/// so used a new one.
pub open spec fn fresh_count<T>(steps: Seq<StorageStep<T>>) -> nat
    decreases steps.len(),
{
    if steps.len() == 0 {
        0
    } else {
        let prev = fresh_count(steps.drop_last());
        match steps.last() {
            StorageStep::Created(_, _) => if freed_stack(steps.drop_last()).len() > 0 {
                prev
            } else {
                prev + 1
            },
            StorageStep::Removed(_) => prev,
        }
    }
}

/// `states[i + 1]` is what the `i`-th step of `steps` makes of `states[i]`.
pub open spec fn follows<T>(states: Seq<Storage<T>>, steps: Seq<StorageStep<T>>) -> bool {
    &&& states.len() == steps.len() + 1
    &&& forall|i: int| 0 <= i < steps.len() ==> match #[trigger] steps[i] {
        StorageStep::Created(v, id) => Storage::creates(states[i], states[i + 1], v, id),
        StorageStep::Removed(id) => Storage::removes(states[i], states[i + 1], id),
    }
}

/// Starting from an empty storage, handles are handed out in one fixed way
/// whatever happens in between: a creation takes back the most recently
/// removed handle not yet taken back; if there is none, it takes the next
/// new one, `ID(0)`, `ID(1)`, `ID(2)`, ..., never skipping one.
pub proof fn law_handles_follow_history<T>(states: Seq<Storage<T>>, steps: Seq<StorageStep<T>>)
    requires
        follows(states, steps),
        states[0].wf(),
        states[0].free_seq() == Seq::<ID>::empty(),
        states[0].next_fresh() == 0,
    ensures
        forall|i: int|
            0 <= i <= steps.len() ==> (#[trigger] states[i]).free_seq() == freed_stack(steps.take(i))
                && states[i].next_fresh() == fresh_count(steps.take(i)),
        forall|i: int|
            0 <= i < steps.len() ==> (#[trigger] steps[i] matches StorageStep::Created(_, id) ==> id == if freed_stack(
                steps.take(i),
            ).len() > 0 {
                freed_stack(steps.take(i)).last()
            } else {
                ID(fresh_count(steps.take(i)) as usize)
            }),
{
    assert forall|i: int| 0 <= i <= steps.len() implies (#[trigger] states[i]).free_seq() == freed_stack(
        steps.take(i),
    ) && states[i].next_fresh() == fresh_count(steps.take(i)) by {
        lemma_history_prefix(states, steps, i);
    }
    assert forall|i: int| 0 <= i < steps.len() implies (#[trigger] steps[i] matches StorageStep::Created(
        _,
        id,
    ) ==> id == if freed_stack(steps.take(i)).len() > 0 {
        freed_stack(steps.take(i)).last()
    } else {
        ID(fresh_count(steps.take(i)) as usize)
    }) by {
        lemma_history_prefix(states, steps, i);
    }
}

proof fn lemma_history_prefix<T>(states: Seq<Storage<T>>, steps: Seq<StorageStep<T>>, i: int)
    requires
        follows(states, steps),
        states[0].free_seq() == Seq::<ID>::empty(),
        states[0].next_fresh() == 0,
        0 <= i <= steps.len(),
    ensures
        states[i].free_seq() == freed_stack(steps.take(i)),
        states[i].next_fresh() == fresh_count(steps.take(i)),
    decreases i,
{
    if i == 0 {
        assert(steps.take(0) =~= Seq::<StorageStep<T>>::empty());
    } else {
        lemma_history_prefix(states, steps, i - 1);
        let pre = steps.take(i);
        assert(pre.drop_last() =~= steps.take(i - 1));
        assert(pre.last() == steps[i - 1]);
        match steps[i - 1] {
            StorageStep::Created(v, id) => {
                assert(Storage::creates(states[i - 1], states[i], v, id));
            },
            StorageStep::Removed(id) => {
                assert(Storage::removes(states[i - 1], states[i], id));
            },
        }
    }
}

} // verus!
