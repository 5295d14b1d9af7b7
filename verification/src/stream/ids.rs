//! Bookkeeping of objects in transit: the set of objects a porter is currently receiving and the
//! set of objects scheduled for deletion. The sets make sure that two requests never receive, or
//! delete, the same object at the same time.

use crate::stream::request::{ObjectId, ids_view};
use vstd::prelude::*;

verus! {

/// Returns true when the two object IDs are equal.
pub fn ids_equal(a: &ObjectId, b: &ObjectId) -> (r: bool)
    ensures
        r == (a@ == b@),
{
    let mut k: usize = 0;
    while k < 20
        invariant
            k <= 20,
            a@.len() == 20,
            b@.len() == 20,
            forall|j: int| 0 <= j < k ==> a@[j] == b@[j],
        decreases 20 - k,
    {
        if a[k] != b[k] {
            return false;
        }
        k = k + 1;
    }
    assert(a@ =~= b@);
    true
}

/// A finite set of object IDs, held as a vector in which no ID occurs twice. vstd specifies
/// `HashSet` only for keys whose hashing and equality it models (integers, `bool` and boxes of
/// them), and an object ID is a 20-byte array, so a hash set of IDs could not be reasoned about.
pub struct ObjectIdSet {
    ids: Vec<ObjectId>,
}

impl View for ObjectIdSet {
    type V = Set<Seq<u8>>;

    open spec fn view(&self) -> Set<Seq<u8>> {
        Set::new(|x: Seq<u8>| self.contents().contains(x))
    }
}

impl ObjectIdSet {
    /// The IDs in the set, in the order they were added.
    pub closed spec fn contents(&self) -> Seq<Seq<u8>> {
        ids_view(self.ids@)
    }

    /// No ID is stored twice.
    pub closed spec fn wf(&self) -> bool {
        self.contents().no_duplicates()
    }

    /// Creates an empty set.
    pub fn new() -> (s: Self)
        ensures
            s.wf(),
            s@ == Set::<Seq<u8>>::empty(),
    {
        let s = ObjectIdSet { ids: Vec::new() };
        assert(s.contents() =~= Seq::<Seq<u8>>::empty());
        assert(s@ =~= Set::<Seq<u8>>::empty());
        s
    }

    /// Number of IDs in the set.
    pub fn len(&self) -> (n: usize)
        requires
            self.wf(),
        ensures
            n == self@.len(),
            self@.finite(),
    {
        proof {
            assert(self@ =~= self.contents().to_set());
            self.contents().unique_seq_to_set();
        }
        self.ids.len()
    }

    /// Returns true when `id` is in the set.
    pub fn contains(&self, id: &ObjectId) -> (r: bool)
        ensures
            r == self@.contains(id@),
    {
        let mut i: usize = 0;
        while i < self.ids.len()
            invariant
                i <= self.ids@.len(),
                forall|j: int| 0 <= j < i ==> self.ids@[j]@ != id@,
            decreases self.ids.len() - i,
        {
            if ids_equal(&self.ids[i], id) {
                assert(self.contents()[i as int] == id@);
                return true;
            }
            i = i + 1;
        }
        assert(!self.contents().contains(id@)) by {
            if self.contents().contains(id@) {
                let j = choose|j: int| 0 <= j < self.contents().len() && self.contents()[j] == id@;
                assert(self.contents()[j] == self.ids@[j]@);
            }
        }
        false
    }

    /// Adds `id` to the set.
    pub fn insert(&mut self, id: ObjectId)
        requires
            old(self).wf(),
        ensures
            final(self).wf(),
            final(self)@ == old(self)@.insert(id@),
    {
        if !self.contains(&id) {
            let ghost before = self.contents();
            self.ids.push(id);
            proof {
                assert(self.contents() =~= before.push(id@));
                assert forall|x: Seq<u8>| #[trigger] self@.contains(x) <==> old(self)@.insert(id@).contains(x) by {
                    if self.contents().contains(x) {
                        let j = choose|j: int| 0 <= j < self.contents().len() && self.contents()[j] == x;
                        if j < before.len() {
                            assert(before[j] == x);
                        }
                    }
                    if before.contains(x) {
                        let j = choose|j: int| 0 <= j < before.len() && before[j] == x;
                        assert(self.contents()[j] == x);
                    }
                    if x == id@ {
                        assert(self.contents()[before.len() as int] == x);
                    }
                }
                assert(self@ =~= old(self)@.insert(id@));
            }
        } else {
            assert(self@ =~= old(self)@.insert(id@));
        }
    }

    /// Removes `id` from the set.
    pub fn remove(&mut self, id: &ObjectId)
        requires
            old(self).wf(),
        ensures
            final(self).wf(),
            final(self)@ == old(self)@.remove(id@),
    {
        let mut i: usize = 0;
        while i < self.ids.len()
            invariant
                i <= self.ids@.len(),
                self.ids@ == old(self).ids@,
                old(self).wf(),
                forall|j: int| 0 <= j < i ==> self.ids@[j]@ != id@,
            decreases self.ids.len() - i,
        {
            if ids_equal(&self.ids[i], id) {
                let ghost before = self.contents();
                self.ids.remove(i);
                proof {
                    assert(self.contents() =~= before.remove(i as int));
                    assert(before[i as int] == id@);
                    assert(self.contents().no_duplicates()) by {
                        assert forall|a: int, b: int| 0 <= a < b < self.contents().len() implies self.contents()[a] != self.contents()[b] by {
                            let a1 = if a < i { a } else { a + 1 };
                            let b1 = if b < i { b } else { b + 1 };
                            assert(self.contents()[a] == before[a1]);
                            assert(self.contents()[b] == before[b1]);
                        }
                    }
                    assert forall|x: Seq<u8>| #[trigger] self@.contains(x) <==> old(self)@.remove(id@).contains(x) by {
                        if self.contents().contains(x) {
                            let j = choose|j: int| 0 <= j < self.contents().len() && self.contents()[j] == x;
                            let j1 = if j < i { j } else { j + 1 };
                            assert(before[j1] == x);
                            assert(j1 != i);
                            assert(x != id@);
                            assert(before.contains(x));
                        }
                        if old(self)@.remove(id@).contains(x) {
                            let j = choose|j: int| 0 <= j < before.len() && before[j] == x;
                            assert(j != i);
                            if j < i {
                                assert(self.contents()[j] == x);
                            } else {
                                assert(self.contents()[j - 1] == x);
                            }
                        }
                    }
                    assert(self@ =~= old(self)@.remove(id@));
                }
                return;
            }
            i = i + 1;
        }
        proof {
            assert(!self.contents().contains(id@)) by {
                if self.contents().contains(id@) {
                    let j = choose|j: int| 0 <= j < self.contents().len() && self.contents()[j] == id@;
                    assert(self.contents()[j] == self.ids@[j]@);
                }
            }
            assert(self@ =~= old(self)@.remove(id@));
        }
    }
}

/// The IDs of `ids` that are in `set`, in order (with repetitions as in `ids`).
pub open spec fn present(set: Set<Seq<u8>>, ids: Seq<Seq<u8>>) -> Seq<Seq<u8>>
    decreases ids.len(),
{
    if ids.len() == 0 {
        Seq::empty()
    } else if set.contains(ids.last()) {
        present(set, ids.drop_last()).push(ids.last())
    } else {
        present(set, ids.drop_last())
    }
}

/// The set of IDs in a sequence.
pub open spec fn id_set(ids: Seq<Seq<u8>>) -> Set<Seq<u8>> {
    Set::new(|x: Seq<u8>| ids.contains(x))
}

/// No ID of a list is in a set exactly when none of them is reported present.
pub proof fn lemma_present_empty(set: Set<Seq<u8>>, ids: Seq<Seq<u8>>)
    ensures
        present(set, ids).len() == 0 <==> forall|i: int| 0 <= i < ids.len() ==> !set.contains(
            #[trigger] ids[i],
        ),
    decreases ids.len(),
{
    if ids.len() > 0 {
        lemma_present_empty(set, ids.drop_last());
        if present(set, ids).len() == 0 {
            assert forall|i: int| 0 <= i < ids.len() implies !set.contains(#[trigger] ids[i]) by {
                if i < ids.len() - 1 {
                    assert(ids.drop_last()[i] == ids[i]);
                }
            }
        }
        if forall|i: int| 0 <= i < ids.len() ==> !set.contains(#[trigger] ids[i]) {
            assert forall|i: int| 0 <= i < ids.drop_last().len() implies !set.contains(
                #[trigger] ids.drop_last()[i],
            ) by {
                assert(ids.drop_last()[i] == ids[i]);
            }
            assert(!set.contains(ids[ids.len() - 1]));
        }
    }
}

/// Finds the IDs of `object_ids` that are in `set`.
fn find_present(set: &ObjectIdSet, object_ids: &[ObjectId]) -> (r: Vec<ObjectId>)
    ensures
        ids_view(r@) == present(set@, ids_view(object_ids@)),
{
    let mut result: Vec<ObjectId> = Vec::new();
    let mut i: usize = 0;
    assert(ids_view(object_ids@.take(0)) =~= Seq::<Seq<u8>>::empty());
    assert(ids_view(result@) =~= Seq::<Seq<u8>>::empty());
    while i < object_ids.len()
        invariant
            i <= object_ids@.len(),
            ids_view(result@) == present(set@, ids_view(object_ids@.take(i as int))),
        decreases object_ids.len() - i,
    {
        let ghost before = result@;
        let ghost next = ids_view(object_ids@.take(i + 1));
        proof {
            assert(next.drop_last() =~= ids_view(object_ids@.take(i as int)));
            assert(next.last() == object_ids@[i as int]@);
        }
        if set.contains(&object_ids[i]) {
            result.push(object_ids[i]);
            assert(ids_view(result@) =~= ids_view(before).push(object_ids@[i as int]@));
        }
        i = i + 1;
    }
    assert(object_ids@.take(i as int) =~= object_ids@);
    result
}

/// Adds all of `object_ids` to `set`.
fn insert_all(set: &mut ObjectIdSet, object_ids: &[ObjectId])
    requires
        old(set).wf(),
    ensures
        final(set).wf(),
        final(set)@ == old(set)@.union(id_set(ids_view(object_ids@))),
{
    let mut i: usize = 0;
    while i < object_ids.len()
        invariant
            i <= object_ids@.len(),
            set.wf(),
            set@ == old(set)@.union(id_set(ids_view(object_ids@.take(i as int)))),
        decreases object_ids.len() - i,
    {
        set.insert(object_ids[i]);
        proof {
            let prev = ids_view(object_ids@.take(i as int));
            let next = ids_view(object_ids@.take(i + 1));
            assert(next =~= prev.push(object_ids@[i as int]@));
            assert(id_set(next) =~= id_set(prev).insert(object_ids@[i as int]@)) by {
                assert forall|x: Seq<u8>| id_set(next).contains(x) <==> id_set(prev).insert(
                    object_ids@[i as int]@,
                ).contains(x) by {
                    if next.contains(x) {
                        let j = choose|j: int| 0 <= j < next.len() && next[j] == x;
                        if j < prev.len() {
                            assert(prev[j] == x);
                        }
                    }
                    if prev.contains(x) {
                        let j = choose|j: int| 0 <= j < prev.len() && prev[j] == x;
                        assert(next[j] == x);
                    }
                    assert(next[prev.len() as int] == object_ids@[i as int]@);
                }
            }
            assert(set@ =~= old(set)@.union(id_set(next)));
        }
        i = i + 1;
    }
    assert(object_ids@.take(i as int) =~= object_ids@);
}

/// Removes all of `object_ids` from `set`.
fn remove_all(set: &mut ObjectIdSet, object_ids: &[ObjectId])
    requires
        old(set).wf(),
    ensures
        final(set).wf(),
        final(set)@ == old(set)@.difference(id_set(ids_view(object_ids@))),
{
    let mut i: usize = 0;
    while i < object_ids.len()
        invariant
            i <= object_ids@.len(),
            set.wf(),
            set@ == old(set)@.difference(id_set(ids_view(object_ids@.take(i as int)))),
        decreases object_ids.len() - i,
    {
        set.remove(&object_ids[i]);
        proof {
            let prev = ids_view(object_ids@.take(i as int));
            let next = ids_view(object_ids@.take(i + 1));
            assert(next =~= prev.push(object_ids@[i as int]@));
            assert forall|x: Seq<u8>| id_set(next).contains(x) <==> (id_set(prev).contains(x) || x
                == object_ids@[i as int]@) by {
                if next.contains(x) {
                    let j = choose|j: int| 0 <= j < next.len() && next[j] == x;
                    if j < prev.len() {
                        assert(prev[j] == x);
                    }
                }
                if prev.contains(x) {
                    let j = choose|j: int| 0 <= j < prev.len() && prev[j] == x;
                    assert(next[j] == x);
                }
                assert(next[prev.len() as int] == object_ids@[i as int]@);
            }
            assert(set@ =~= old(set)@.difference(id_set(next)));
        }
        i = i + 1;
    }
    assert(object_ids@.take(i as int) =~= object_ids@);
}

/// Returns the IDs of `object_ids` that are scheduled for deletion. When there are none and
/// `will_delete` is set, all of `object_ids` are scheduled for deletion.
pub fn check_deleting(deleting: &mut ObjectIdSet, object_ids: &[ObjectId], will_delete: bool) -> (r:
    Vec<ObjectId>)
    requires
        old(deleting).wf(),
    ensures
        final(deleting).wf(),
        ids_view(r@) == present(old(deleting)@, ids_view(object_ids@)),
        final(deleting)@ == if r@.len() == 0 && will_delete {
            old(deleting)@.union(id_set(ids_view(object_ids@)))
        } else {
            old(deleting)@
        },
{
    let result = find_present(deleting, object_ids);
    if result.len() == 0 && will_delete {
        insert_all(deleting, object_ids);
    }
    result
}

/// Removes `object_ids` from the set of objects scheduled for deletion.
pub fn remove_from_deleting(deleting: &mut ObjectIdSet, object_ids: &[ObjectId])
    requires
        old(deleting).wf(),
    ensures
        final(deleting).wf(),
        final(deleting)@ == old(deleting)@.difference(id_set(ids_view(object_ids@))),
{
    remove_all(deleting, object_ids)
}

/// Ends a send: when the send scheduled `object_ids` for deletion (`delete_after_send`), they
/// are no longer scheduled, whether the send failed or the objects were deleted; a send without
/// deletion leaves the set as it is.
pub fn finish_send(deleting: &mut ObjectIdSet, object_ids: &[ObjectId], delete_after_send: bool)
    requires
        old(deleting).wf(),
    ensures
        final(deleting).wf(),
        final(deleting)@ == if delete_after_send {
            old(deleting)@.difference(id_set(ids_view(object_ids@)))
        } else {
            old(deleting)@
        },
{
    if delete_after_send {
        remove_from_deleting(deleting, object_ids);
    }
}

/// The objects, in order, when every requested object was found.
pub open spec fn found_objects<T>(objects: Seq<Option<T>>) -> Seq<T> {
    Seq::new(objects.len(), |i: int| objects[i]->Some_0)
}

/// The indexes, in ascending order, of the first `n` requested objects that were not found.
pub open spec fn missing_indexes<T>(objects: Seq<Option<T>>, n: nat) -> Seq<usize>
    decreases n,
{
    if n == 0 {
        Seq::empty()
    } else {
        let prev = missing_indexes(objects, (n - 1) as nat);
        if objects[n - 1] is None {
            prev.push((n - 1) as usize)
        } else {
            prev
        }
    }
}

/// Checks that every requested object was found: returns the objects, in order, when all of them
/// were; otherwise the indexes of those that were not, in ascending order.
pub fn retrieved_objects<T>(objects: Vec<Option<T>>) -> (r: Result<Vec<T>, Vec<usize>>)
    ensures
        r is Ok <==> forall|i: int| 0 <= i < objects@.len() ==> objects@[i] is Some,
        match r {
            Ok(found) => found@ == found_objects(objects@),
            Err(missing) => missing@.len() > 0 && missing@ == missing_indexes(objects@, objects@.len()),
        },
{
    let ghost all = objects@;
    let n = objects.len();
    let mut missing: Vec<usize> = Vec::new();
    let mut i: usize = 0;
    while i < n
        invariant
            n == all.len(),
            objects@ == all,
            i <= n,
            missing@ == missing_indexes(all, i as nat),
            missing@.len() == 0 <==> forall|j: int| 0 <= j < i ==> all[j] is Some,
        decreases n - i,
    {
        if objects[i].is_none() {
            missing.push(i);
        }
        i = i + 1;
    }
    if missing.len() > 0 {
        return Err(missing);
    }
    let mut rest = objects;
    let mut found: Vec<T> = Vec::new();
    while rest.len() > 0
        invariant
            forall|j: int| 0 <= j < all.len() ==> all[j] is Some,
            found@.len() + rest@.len() == all.len(),
            rest@ == all.skip(found@.len() as int),
            found@ == found_objects(all).take(found@.len() as int),
        decreases rest@.len(),
    {
        let ghost k = found@.len() as int;
        let first = rest.remove(0);
        proof {
            assert(all.skip(k + 1) =~= all.skip(k).drop_first());
        }
        match first {
            Some(o) => {
                found.push(o);
                proof {
                    assert(found@ =~= found_objects(all).take(k + 1));
                }
            },
            None => {
                assert(false);
            },
        }
    }
    assert(found@ =~= found_objects(all));
    Ok(found)
}

/// Marks all of `object_ids` as being received. If any of them is already being received,
/// nothing changes and those IDs are returned as the error.
pub fn add_to_receiving(receiving: &mut ObjectIdSet, object_ids: &[ObjectId]) -> (r: Result<
    (),
    Vec<ObjectId>,
>)
    requires
        old(receiving).wf(),
    ensures
        final(receiving).wf(),
        match r {
            Ok(()) => present(old(receiving)@, ids_view(object_ids@)).len() == 0 && final(receiving)@
                == old(receiving)@.union(id_set(ids_view(object_ids@))),
            Err(dups) => dups@.len() > 0 && ids_view(dups@) == present(
                old(receiving)@,
                ids_view(object_ids@),
            ) && final(receiving)@ == old(receiving)@,
        },
{
    let duplicates = find_present(receiving, object_ids);
    if duplicates.len() > 0 {
        return Err(duplicates);
    }
    insert_all(receiving, object_ids);
    Ok(())
}

/// Removes `object_ids` from the set of objects being received.
pub fn remove_from_receiving(receiving: &mut ObjectIdSet, object_ids: &[ObjectId])
    requires
        old(receiving).wf(),
    ensures
        final(receiving).wf(),
        final(receiving)@ == old(receiving)@.difference(id_set(ids_view(object_ids@))),
{
    remove_all(receiving, object_ids)
}

/// Marking objects as in transit and then clearing them restores the set: when no ID of `ids`
/// is in `set` (which is when marking succeeds), adding the IDs and then removing them gives
/// back `set`.
pub proof fn lemma_mark_then_clear(set: Set<Seq<u8>>, ids: Seq<Seq<u8>>)
    requires
        present(set, ids).len() == 0,
    ensures
        set.union(id_set(ids)).difference(id_set(ids)) == set,
{
    lemma_present_empty(set, ids);
    assert forall|x: Seq<u8>| set.contains(x) implies !id_set(ids).contains(x) by {
        if ids.contains(x) {
            let j = choose|j: int| 0 <= j < ids.len() && ids[j] == x;
            assert(!set.contains(ids[j]));
        }
    }
    assert(set.union(id_set(ids)).difference(id_set(ids)) =~= set);
}

/// Objects being received cannot be marked again: after marking `first`, marking any list that
/// shares an ID with `first` reports that ID.
pub proof fn lemma_marked_ids_conflict(set: Set<Seq<u8>>, first: Seq<Seq<u8>>, second: Seq<Seq<u8>>, i: int)
    requires
        0 <= i < second.len(),
        first.contains(second[i]),
    ensures
        present(set.union(id_set(first)), second).len() > 0,
{
    lemma_present_empty(set.union(id_set(first)), second);
    assert(set.union(id_set(first)).contains(second[i]));
}

} // verus!
