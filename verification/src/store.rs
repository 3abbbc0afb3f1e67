//! A growable store whose handles stay valid: a handle is the position of a
//! slot, removing an element empties its slot, and new elements always get a
//! fresh slot at the end.

use vstd::prelude::*;

verus! {

/// How many of the slots in `s` hold an element.
pub open spec fn live_count<T>(s: Seq<Option<T>>) -> nat
    decreases s.len(),
{
    if s.len() == 0 {
        0
    } else {
        live_count(s.drop_last()) + if s.last().is_some() {
            1nat
        } else {
            0nat
        }
    }
}

/// The slots that wrapping each of `items` gives, in the same order.
pub open spec fn filled<T>(items: Seq<T>) -> Seq<Option<T>> {
    Seq::new(items.len(), |i: int| Some(items[i]))
}

/// What `retain` may leave in a slot that held `before`: an empty slot stays
/// empty, an element stays exactly where the predicate accepted it and is
/// gone exactly where the predicate refused it.
pub open spec fn slot_kept<T, F: Fn(&T) -> bool>(
    before: Option<T>,
    after: Option<T>,
    keep: F,
) -> bool {
    match before {
        None => after.is_none(),
        Some(x) => (after == Some(x) && keep.ensures((&x,), true)) || (after.is_none()
            && keep.ensures((&x,), false)),
    }
}

/// Counting over a sequence grown by one slot.
pub proof fn lemma_live_count_push<T>(s: Seq<Option<T>>, slot: Option<T>)
    ensures
        live_count(s.push(slot)) == live_count(s) + if slot.is_some() {
            1nat
        } else {
            0nat
        },
{
    assert(s.push(slot).drop_last() =~= s);
}

/// Elements behind stable handles.
#[derive(Clone, Debug, PartialEq)]
pub struct StableVec<T> {
    slots: Vec<Option<T>>,
}

impl<T> View for StableVec<T> {
    type V = Seq<Option<T>>;

    /// The slots in handle order; an emptied slot is `None`.
    closed spec fn view(&self) -> Seq<Option<T>> {
        self.slots@
    }
}

impl<T> StableVec<T> {
    /// Whether `handle` names an element.
    pub open spec fn is_live(&self, handle: int) -> bool {
        0 <= handle < self@.len() && self@[handle].is_some()
    }

    /// A store without slots.
    pub fn new() -> (r: Self)
        ensures
            r@ == Seq::<Option<T>>::empty(),
    {
        StableVec { slots: Vec::new() }
    }

    /// A store without slots, with room for `capacity` of them.
    pub fn with_capacity(capacity: usize) -> (r: Self)
        ensures
            r@ == Seq::<Option<T>>::empty(),
    {
        StableVec { slots: Vec::with_capacity(capacity) }
    }

    /// A store over the given slots.
    pub fn from_inner(slots: Vec<Option<T>>) -> (r: Self)
        ensures
            r@ == slots@,
    {
        StableVec { slots }
    }

    /// The slots, handed out.
    pub fn into_inner(self) -> (r: Vec<Option<T>>)
        ensures
            r@ == self@,
    {
        self.slots
    }

    /// The slots, for reading.
    pub fn inner(&self) -> (r: &Vec<Option<T>>)
        ensures
            r@ == self@,
    {
        &self.slots
    }

    /// The number of slots, live or emptied. Every handle is below it.
    pub fn slot_count(&self) -> (r: usize)
        ensures
            r == self@.len(),
    {
        self.slots.len()
    }

    /// The number of elements.
    pub fn len(&self) -> (r: usize)
        ensures
            r == live_count(self@),
    {
        let mut count: usize = 0;
        let mut i: usize = 0;
        while i < self.slots.len()
            invariant
                i <= self.slots.len(),
                count == live_count(self.slots@.take(i as int)),
                count <= i,
            decreases self.slots.len() - i,
        {
            proof {
                assert(self.slots@.take(i + 1).drop_last() =~= self.slots@.take(i as int));
            }
            if self.slots[i].is_some() {
                count += 1;
            }
            i += 1;
        }
        proof {
            assert(self.slots@.take(i as int) =~= self.slots@);
        }
        count
    }

    /// The element behind `handle`, if the handle names one.
    pub fn get(&self, handle: usize) -> (r: Option<&T>)
        ensures
            self.is_live(handle as int) ==> r == Some(&self@[handle as int].unwrap()),
            !self.is_live(handle as int) ==> r.is_none(),
    {
        if handle < self.slots.len() {
            self.slots[handle].as_ref()
        } else {
            None
        }
    }

    /// Adds an element in a fresh slot at the end and gives its handle.
    pub fn push(&mut self, value: T) -> (handle: usize)
        ensures
            final(self)@ == old(self)@.push(Some(value)),
            handle == old(self)@.len(),
            live_count(final(self)@) == live_count(old(self)@) + 1,
    {
        proof {
            lemma_live_count_push(self@, Some(value));
        }
        let handle = self.slots.len();
        self.slots.push(Some(value));
        handle
    }

    /// Puts `value` in the slot of a live `handle` and says whether it did.
    /// Every other slot stays as it was; with a handle that names no element
    /// nothing changes.
    pub fn put(&mut self, handle: usize, value: T) -> (done: bool)
        ensures
            done == old(self).is_live(handle as int),
            done ==> final(self)@ == old(self)@.update(handle as int, Some(value)),
            !done ==> final(self)@ == old(self)@,
            forall|j: int|
                0 <= j < old(self)@.len() && j != handle ==> final(self)@[j] == old(self)@[j],
            final(self)@.len() == old(self)@.len(),
    {
        if handle < self.slots.len() && self.slots[handle].is_some() {
            self.slots.set(handle, Some(value));
            true
        } else {
            false
        }
    }

    /// Adds each of `items` in a fresh slot at the end, in their order.
    pub fn extend(&mut self, items: Vec<T>)
        ensures
            final(self)@ == old(self)@ + filled(items@),
    {
        let ghost before = self@;
        for item in it: items.into_iter()
            invariant
                it.seq() == items@,
                self@ == before + filled(items@.take(it.index() as int)),
        {
            proof {
                let k = it.index() as int;
                assert(before + filled(items@.take(k + 1)) =~= (before + filled(
                    items@.take(k),
                )).push(Some(items@[k])));
            }
            self.slots.push(Some(item));
        }
        proof {
            assert(items@.take(items@.len() as int) =~= items@);
        }
    }

    /// Empties the slot of every element that `keep` refuses. Handles of the
    /// elements that stay do not change.
    pub fn retain<F: Fn(&T) -> bool>(&mut self, keep: F)
        requires
            forall|i: int|
                0 <= i < old(self)@.len() && old(self)@[i].is_some() ==> keep.requires(
                    (&old(self)@[i].unwrap(),),
                ),
        ensures
            final(self)@.len() == old(self)@.len(),
            forall|i: int|
                0 <= i < old(self)@.len() ==> slot_kept(
                    old(self)@[i],
                    #[trigger] final(self)@[i],
                    keep,
                ),
    {
        let ghost before = self@;
        let mut i: usize = 0;
        while i < self.slots.len()
            invariant
                i <= self.slots.len(),
                self@.len() == before.len(),
                forall|j: int| 0 <= j < i ==> slot_kept(before[j], #[trigger] self@[j], keep),
                forall|j: int| i <= j < before.len() ==> self@[j] == before[j],
                forall|j: int|
                    0 <= j < before.len() && before[j].is_some() ==> keep.requires(
                        (&before[j].unwrap(),),
                    ),
            decreases self.slots.len() - i,
        {
            assert(self@[i as int] == before[i as int]);
            let stays = match &self.slots[i] {
                Some(x) => {
                    assert(keep.requires((&before[i as int].unwrap(),)));
                    keep(x)
                },
                None => true,
            };
            if !stays {
                self.slots.set(i, None);
            }
            i += 1;
        }
    }

    /// The handles of the elements, ascending.
    pub fn live_handles(&self) -> (r: Vec<usize>)
        ensures
            forall|k: int| 0 <= k < r@.len() ==> self.is_live(#[trigger] r@[k] as int),
            forall|k: int, l: int| 0 <= k < l < r@.len() ==> r@[k] < r@[l],
            forall|h: int| self.is_live(h) ==> exists|k: int| 0 <= k < r@.len() && r@[k] == h,
            r@.len() == live_count(self@),
    {
        let mut handles: Vec<usize> = Vec::new();
        let mut i: usize = 0;
        while i < self.slots.len()
            invariant
                i <= self.slots.len(),
                forall|k: int| 0 <= k < handles@.len() ==> self.is_live(#[trigger] handles@[k] as int),
                forall|k: int| 0 <= k < handles@.len() ==> #[trigger] handles@[k] < i,
                forall|k: int, l: int| 0 <= k < l < handles@.len() ==> handles@[k] < handles@[l],
                forall|h: int|
                    self.is_live(h) && h < i ==> exists|k: int|
                        0 <= k < handles@.len() && handles@[k] == h,
                handles@.len() == live_count(self.slots@.take(i as int)),
            decreases self.slots.len() - i,
        {
            proof {
                assert(self.slots@.take(i + 1).drop_last() =~= self.slots@.take(i as int));
            }
            if self.slots[i].is_some() {
                let ghost prev = handles@;
                handles.push(i);
                proof {
                    assert forall|h: int| self.is_live(h) && h < i + 1 implies exists|k: int|
                        0 <= k < handles@.len() && handles@[k] == h by {
                        if h < i {
                            let k = choose|k: int| 0 <= k < prev.len() && prev[k] == h;
                            assert(handles@[k] == h);
                        } else {
                            assert(handles@[prev.len() as int] == h);
                        }
                    }
                }
            }
            i += 1;
        }
        proof {
            assert(self.slots@.take(i as int) =~= self.slots@);
        }
        handles
    }
}

} // verus!
