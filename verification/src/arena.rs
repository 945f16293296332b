use vstd::prelude::*;

verus! {

/// Stable identifier of a slot in an [`Arena`].
///
/// An id is never zero, so an optional id costs no more than an id. The view
/// of an id is the index of the slot it names.
#[derive(Clone, Copy, Debug, PartialEq, Eq, Hash, Structural)]
pub struct Id {
    raw: u64,
}

impl View for Id {
    type V = int;

    closed spec fn view(&self) -> int {
        self.raw - 1
    }
}

impl Id {
    /// Id that names the slot at `index`.
    fn id(index: usize) -> (r: Id)
        requires
            index < usize::MAX,
        ensures
            r@ == index,
    {
        Id { raw: index as u64 + 1 }
    }

    /// Index of the slot this id names.
    fn index(&self) -> (r: usize)
        requires
            0 <= self@ < usize::MAX,
        ensures
            r == self@,
    {
        (self.raw - 1) as usize
    }
}

/// Filling the slot popped off the free list keeps every dead slot
/// remembered.
proof fn lemma_pop_keeps_dead_remembered<T>(pre: Arena<T>, post: Arena<T>, id: Id)
    requires
        pre.wf(),
        pre.unused@.len() > 0,
        id == pre.unused@[pre.unused@.len() - 1],
        post.unused@ == pre.unused@.drop_last(),
        post.items@ == pre.items@.update(id@, post.items@[id@]),
        post.items@.len() == pre.items@.len(),
        post.items@[id@] is Some,
    ensures
        forall|k: int|
            0 <= k < post.items@.len() && post.items@[k] is None ==> exists|j: int|
                0 <= j < post.unused@.len() && #[trigger] post.unused@[j]@ == k,
        forall|j: int|
            0 <= j < post.unused@.len() ==> {
                &&& 0 <= #[trigger] post.unused@[j]@ < post.items@.len()
                &&& post.items@[post.unused@[j]@] is None
            },
        forall|j1: int, j2: int|
            0 <= j1 < j2 < post.unused@.len() ==> post.unused@[j1]@ != post.unused@[j2]@,
{
    assert forall|k: int|
        0 <= k < post.items@.len() && post.items@[k] is None implies exists|j: int|
        0 <= j < post.unused@.len() && #[trigger] post.unused@[j]@ == k by {
        assert(pre.items@[k] is None);
        let j = choose|j: int|
            0 <= j < pre.unused@.len() && #[trigger] pre.unused@[j]@ == k;
        if j == pre.unused@.len() - 1 {
            assert(k == id@);
        } else {
            assert(post.unused@[j]@ == k);
        }
    }
    assert forall|j: int| 0 <= j < post.unused@.len() implies {
        &&& 0 <= #[trigger] post.unused@[j]@ < post.items@.len()
        &&& post.items@[post.unused@[j]@] is None
    } by {
        assert(pre.unused@[j]@ == post.unused@[j]@);
        assert(pre.unused@[j]@ != id@);
    }
}

/// Two ids are equal exactly when they name the same slot.
pub proof fn lemma_id_view_injective(a: Id, b: Id)
    ensures
        (a@ == b@) <==> (a == b),
{
}

/// Whether `i` names a live slot of `s`.
pub open spec fn slot_live<T>(s: Seq<Option<T>>, i: int) -> bool {
    0 <= i < s.len() && s[i] is Some
}

/// The value stored in the live slot `i` of `s`.
pub open spec fn slot_val<T>(s: Seq<Option<T>>, i: int) -> T
    recommends
        slot_live(s, i),
{
    s[i]->0
}

/// Append-only storage with stable ids and reuse of vacated slots.
///
/// The view of an arena is the sequence of its slots; a removed slot holds
/// `None` and may be handed out again by a later insertion.
#[derive(Debug)]
pub struct Arena<T> {
    items: Vec<Option<T>>,
    unused: Vec<Id>,
}

impl<T> Arena<T> {
    /// Internal consistency of the free list: every remembered unused slot is
    /// a dead slot, and no slot is remembered twice.
    pub closed spec fn wf(self) -> bool {
        &&& forall|j: int|
            0 <= j < self.unused@.len() ==> {
                &&& 0 <= #[trigger] self.unused@[j]@ < self.items@.len()
                &&& self.items@[self.unused@[j]@] is None
            }
        &&& forall|j1: int, j2: int|
            0 <= j1 < j2 < self.unused@.len() ==> self.unused@[j1]@ != self.unused@[j2]@
        &&& forall|k: int|
            0 <= k < self.items@.len() && self.items@[k] is None ==> exists|j: int|
                0 <= j < self.unused@.len() && #[trigger] self.unused@[j]@ == k
    }
}

impl<T> View for Arena<T> {
    type V = Seq<Option<T>>;

    closed spec fn view(&self) -> Seq<Option<T>> {
        self.items@
    }
}

impl<T> Arena<T> {
    /// Checks whether given id names a live slot.
    pub fn contains(&self, id: Id) -> (r: bool)
        ensures
            r == slot_live(self@, id@),
    {
        self.try_get(id).is_some()
    }

    /// Returns a shared reference to an item if id is valid.
    pub fn try_get(&self, id: Id) -> (r: Option<&T>)
        ensures
            match r {
                Some(t) => slot_live(self@, id@) && *t == slot_val(self@, id@),
                None => !slot_live(self@, id@),
            },
    {
        if id.raw >= 1 && id.raw - 1 < self.items.len() as u64 {
            let i: usize = id.index();
            self.items[i].as_ref()
        } else {
            None
        }
    }

    /// Returns a shared reference to the item stored under a live id.
    pub fn get(&self, id: Id) -> (r: &T)
        requires
            slot_live(self@, id@),
        ensures
            *r == slot_val(self@, id@),
    {
        match self.try_get(id) {
            Some(t) => t,
            None => vstd::pervasive::unreached(),
        }
    }

    /// Returns a mutable reference to an item if id is valid.
    pub fn try_get_mut(&mut self, id: Id) -> (r: Option<&mut T>)
        requires
            old(self).wf(),
        ensures
            final(self).wf(),
            match r {
                Some(t) => {
                    &&& slot_live(old(self)@, id@)
                    &&& *t == slot_val(old(self)@, id@)
                    &&& final(self)@ == old(self)@.update(id@, Some(*final(t)))
                },
                None => !slot_live(old(self)@, id@) && final(self)@ == old(self)@,
            },
    {
        if id.raw >= 1 && id.raw - 1 < self.items.len() as u64 {
            let i: usize = id.index();
            if self.items[i].is_some() {
                self.items[i].as_mut()
            } else {
                None
            }
        } else {
            None
        }
    }

    /// Returns a mutable reference to the item stored under a live id.
    pub fn get_mut(&mut self, id: Id) -> (r: &mut T)
        requires
            old(self).wf(),
            slot_live(old(self)@, id@),
        ensures
            final(self).wf(),
            *r == slot_val(old(self)@, id@),
            final(self)@ == old(self)@.update(id@, Some(*final(r))),
    {
        match self.try_get_mut(id) {
            Some(t) => t,
            None => vstd::pervasive::unreached(),
        }
    }

    /// Adds a new item and returns its id.
    ///
    /// The returned id names a slot that was not live before the call; it may
    /// equal an id whose item was removed earlier.
    pub fn put(&mut self, item: T) -> (id: Id)
        requires
            old(self).wf(),
        ensures
            final(self).wf(),
            !slot_live(old(self)@, id@),
            0 <= id@ < final(self)@.len(),
            old(self)@.len() <= final(self)@.len() <= old(self)@.len() + 1,
            id@ < old(self)@.len() ==> final(self)@.len() == old(self)@.len(),
            id@ >= old(self)@.len() ==> id@ == old(self)@.len(),
            (exists|k: int| 0 <= k < old(self)@.len() && old(self)@[k] is None) ==> id@ < old(
                self,
            )@.len(),
            final(self)@[id@] == Some(item),
            forall|j: int|
                0 <= j < old(self)@.len() && j != id@ ==> final(self)@[j] == old(self)@[j],
    {
        if let Some(id) = self.unused.pop() {
            let n: usize = self.items.len();
            proof {
                assert(id == old(self).unused@[old(self).unused@.len() - 1]);
                assert(id@ < n);
            }
            let i: usize = id.index();
            self.items[i] = Some(item);
            proof {
                lemma_pop_keeps_dead_remembered(*old(self), *self, id);
            }
            id
        } else {
            self.items.push(Some(item));
            proof {
                assert(self@[self@.len() - 1] == Some(item));
                if exists|k: int| 0 <= k < old(self)@.len() && old(self)@[k] is None {
                    let k = choose|k: int| 0 <= k < old(self)@.len() && old(self)@[k] is None;
                    assert(false);
                }
            }
            Id::id(self.items.len() - 1)
        }
    }

    /// Adds a new item built by a supplier that is handed the item's id.
    ///
    /// The returned id names a slot that was not live before the call; it may
    /// equal an id whose item was removed earlier.
    pub fn put_with_id<F: FnOnce(Id) -> T>(&mut self, supplier: F) -> (id: Id)
        requires
            old(self).wf(),
            old(self)@.len() < usize::MAX,
            forall|i: Id| #[trigger] call_requires(supplier, (i,)),
        ensures
            final(self).wf(),
            !slot_live(old(self)@, id@),
            0 <= id@ < final(self)@.len(),
            old(self)@.len() <= final(self)@.len() <= old(self)@.len() + 1,
            id@ < old(self)@.len() ==> final(self)@.len() == old(self)@.len(),
            id@ >= old(self)@.len() ==> id@ == old(self)@.len(),
            final(self)@[id@] is Some,
            call_ensures(supplier, (id,), final(self)@[id@]->0),
            (exists|k: int| 0 <= k < old(self)@.len() && old(self)@[k] is None) ==> id@ < old(
                self,
            )@.len(),
            forall|j: int|
                0 <= j < old(self)@.len() && j != id@ ==> final(self)@[j] == old(self)@[j],
    {
        if let Some(id) = self.unused.pop() {
            let n: usize = self.items.len();
            proof {
                assert(id == old(self).unused@[old(self).unused@.len() - 1]);
                assert(id@ < n);
            }
            let item = supplier(id);
            let i: usize = id.index();
            self.items[i] = Some(item);
            proof {
                lemma_pop_keeps_dead_remembered(*old(self), *self, id);
            }
            id
        } else {
            let id = Id::id(self.items.len());
            let item = supplier(id);
            self.items.push(Some(item));
            proof {
                assert(self@[self@.len() - 1] == Some(item));
                if exists|k: int| 0 <= k < old(self)@.len() && old(self)@[k] is None {
                    let k = choose|k: int| 0 <= k < old(self)@.len() && old(self)@[k] is None;
                    assert(false);
                }
            }
            id
        }
    }

    /// Removes the item with the given id.
    ///
    /// The vacated slot is kept for reuse, so the same id may be handed out
    /// by a later insertion.
    pub fn remove(&mut self, id: Id) -> (r: Option<T>)
        requires
            old(self).wf(),
        ensures
            final(self).wf(),
            match r {
                Some(t) => {
                    &&& slot_live(old(self)@, id@)
                    &&& t == slot_val(old(self)@, id@)
                    &&& final(self)@ == old(self)@.update(id@, None)
                },
                None => !slot_live(old(self)@, id@) && final(self)@ == old(self)@,
            },
    {
        if id.raw >= 1 && id.raw - 1 < self.items.len() as u64 {
            let i: usize = id.index();
            let old_item = self.items[i].take();
            match old_item {
                Some(t) => {
                    self.unused.push(id);
                    proof {
                        assert forall|k: int|
                            0 <= k < self.items@.len() && self.items@[k] is None implies exists|
                            j: int,
                        |
                            0 <= j < self.unused@.len() && #[trigger] self.unused@[j]@ == k by {
                            if k == id@ {
                                assert(self.unused@[self.unused@.len() - 1]@ == k);
                            } else {
                                assert(old(self).items@[k] is None);
                                let j = choose|j: int|
                                    0 <= j < old(self).unused@.len() && #[trigger] old(
                                        self,
                                    ).unused@[j]@ == k;
                                assert(self.unused@[j]@ == k);
                            }
                        }
                    }
                    Some(t)
                },
                None => {
                    proof {
                        assert(self@ =~= old(self)@);
                    }
                    None
                },
            }
        } else {
            None
        }
    }
}

impl<T> Default for Arena<T> {
    /// An arena with no slots.
    fn default() -> (r: Self)
        ensures
            r.wf(),
            r@ == Seq::<Option<T>>::empty(),
    {
        Arena { items: Vec::new(), unused: Vec::new() }
    }
}

} // verus!
