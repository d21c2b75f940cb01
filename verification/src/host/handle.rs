//! Generational handles for host-owned objects.
//!
//! A [`Handle`] is a slot index plus a generation, dereferenced only through the table that
//! minted it. Releasing a slot bumps its generation, so a handle from before the release
//! resolves to stale, never to whatever reuses the slot afterwards.
use vstd::prelude::*;

use crate::host::fault::HostFault;

verus! {

/// A handle to a value owned by the host: a slot index plus the generation it was minted in.
#[derive(Debug, Clone, Copy, PartialEq, Eq, Hash)]
pub struct Handle {
    index: usize,
    generation: u32,
}

impl Handle {
    /// A handle naming slot `index` in generation `generation`, as a table would mint it.
    pub fn from_parts(index: usize, generation: u32) -> (handle: Handle)
        ensures
            handle.slot() == index as nat,
            handle.stamp() == generation as nat,
    {
        Handle { index, generation }
    }

    /// The slot index, for host-side diagnostics and tests.
    pub fn index(self) -> (index: usize)
        ensures
            index as nat == self.slot(),
    {
        self.index
    }

    /// The generation this handle was minted in.
    pub fn generation(self) -> (generation: u32)
        ensures
            generation as nat == self.stamp(),
    {
        self.generation
    }

    /// The slot index of the handle.
    pub closed spec fn slot(self) -> nat {
        self.index as nat
    }

    /// The generation of the handle.
    pub closed spec fn stamp(self) -> nat {
        self.generation as nat
    }

    /// Handles are equal exactly when slot and generation are.
    pub proof fn lemma_identity(self, other: Handle)
        ensures
            (self == other) <==> (self.slot() == other.slot() && self.stamp() == other.stamp()),
    {
    }
}

/// One slot: the generation currently occupying it and its value when live.
#[derive(Debug)]
struct Slot<T> {
    generation: u32,
    value: Option<T>,
}

/// Whether a slot holds a live value.
spec fn is_live<T>(slot: Option<Slot<T>>) -> bool {
    slot matches Some(s) && s.value is Some
}

/// Number of live slots.
spec fn live_count<T>(slots: Seq<Option<Slot<T>>>) -> nat
    decreases slots.len(),
{
    if slots.len() == 0 {
        0
    } else {
        live_count(slots.drop_last()) + if is_live(slots.last()) {
            1nat
        } else {
            0nat
        }
    }
}

proof fn lemma_live_count_push<T>(slots: Seq<Option<Slot<T>>>, slot: Option<Slot<T>>)
    ensures
        live_count(slots.push(slot)) == live_count(slots) + if is_live(slot) {
            1nat
        } else {
            0nat
        },
{
    assert(slots.push(slot).drop_last() =~= slots);
}

proof fn lemma_live_count_update<T>(slots: Seq<Option<Slot<T>>>, i: int, slot: Option<Slot<T>>)
    requires
        0 <= i < slots.len(),
    ensures
        live_count(slots.update(i, slot)) + (if is_live(slots[i]) {
            1nat
        } else {
            0nat
        }) == live_count(slots) + if is_live(slot) {
            1nat
        } else {
            0nat
        },
    decreases slots.len(),
{
    if i < slots.len() - 1 {
        assert(slots.update(i, slot).drop_last() =~= slots.drop_last().update(i, slot));
        lemma_live_count_update(slots.drop_last(), i, slot);
    } else {
        assert(slots.update(i, slot).drop_last() =~= slots.drop_last());
    }
}

proof fn lemma_rewrite_live_slot<T>(slots: Seq<Option<Slot<T>>>, i: int)
    requires
        0 <= i < slots.len(),
        is_live(slots[i]),
    ensures
        forall|x: T, g: u32| #[trigger] live_count(slots.update(i, Some(Slot { generation: g, value: Some(x) }))) == live_count(slots),
{
    assert forall|x: T, g: u32| #[trigger] live_count(slots.update(i, Some(Slot { generation: g, value: Some(x) }))) == live_count(slots) by {
        lemma_live_count_update(slots, i, Some(Slot { generation: g, value: Some(x) }));
    }
}

proof fn lemma_live_count_none<T>(slots: Seq<Option<Slot<T>>>)
    requires
        forall|i: int| 0 <= i < slots.len() ==> !is_live(#[trigger] slots[i]),
    ensures
        live_count(slots) == 0,
    decreases slots.len(),
{
    if slots.len() > 0 {
        assert(!is_live(slots[slots.len() - 1]));
        lemma_live_count_none(slots.drop_last());
    }
}

/// A generational table of host values.
///
/// A stale or unknown handle resolves to nothing. When a slot's generation space is
/// exhausted the slot is retired instead of wrapping.
#[derive(Debug)]
pub struct HandleTable<T> {
    slots: Vec<Option<Slot<T>>>,
    free: Vec<usize>,
    live: usize,
}

impl<T> HandleTable<T> {
    /// The value a handle resolves to, if any.
    pub closed spec fn lookup(&self, handle: Handle) -> Option<T> {
        if handle.slot() < self.slots@.len() {
            match self.slots@[handle.slot() as int] {
                Some(slot) => if slot.generation as nat == handle.stamp() {
                    slot.value
                } else {
                    None
                },
                None => None,
            }
        } else {
            None
        }
    }

    /// Whether `handle` addresses a slot of this table that has moved past its generation or
    /// been retired, so that it can never resolve again.
    pub closed spec fn stale(&self, handle: Handle) -> bool {
        &&& handle.slot() < self.slots@.len()
        &&& match self.slots@[handle.slot() as int] {
            Some(slot) => slot.generation as nat > handle.stamp(),
            None => true,
        }
    }

    /// The slot the next insert takes: the one freed last that is still reusable, else a
    /// new one at the end.
    pub closed spec fn next_slot(&self) -> nat {
        if self.free@.len() > 0 {
            self.free@.last() as nat
        } else {
            self.slots@.len()
        }
    }

    /// The generation the next insert hands out: that of the reusable slot it takes, which
    /// its release already moved on, or 1 for a new slot.
    pub closed spec fn next_stamp(&self) -> nat {
        if self.free@.len() > 0 && self.free@.last() < self.slots@.len() {
            match self.slots@[self.free@.last() as int] {
                Some(s) => s.generation as nat,
                None => 1,
            }
        } else {
            1
        }
    }

    /// Number of live values.
    pub closed spec fn count(&self) -> nat {
        self.live as nat
    }

    /// The table's internal invariant: the live counter matches the slots, and the reuse
    /// list names distinct vacant slots.
    pub closed spec fn wf(&self) -> bool {
        &&& self.live as nat == live_count(self.slots@)
        &&& forall|i: int|
            0 <= i < self.slots@.len() ==> (#[trigger] self.slots@[i] matches Some(s)
                ==> s.generation >= 1)
        &&& forall|k: int|
            0 <= k < self.free@.len() ==> {
                &&& #[trigger] self.free@[k] < self.slots@.len()
                &&& self.slots@[self.free@[k] as int] matches Some(s) && s.value is None
            }
        &&& forall|k: int, l: int|
            0 <= k < l < self.free@.len() ==> #[trigger] self.free@[k] != #[trigger] self.free@[l]
    }

    /// A stale handle never resolves to a value.
    pub proof fn law_stale_never_resolves(&self, handle: Handle)
        requires
            self.stale(handle),
        ensures
            self.lookup(handle) is None,
    {
    }

    /// An empty table.
    pub fn new() -> (table: HandleTable<T>)
        ensures
            table.wf(),
            table.count() == 0,
            forall|h: Handle| table.lookup(h) is None,
            table.next_slot() == 0,
            table.next_stamp() == 1,
    {
        let table = HandleTable { slots: Vec::new(), free: Vec::new(), live: 0 };
        assert(live_count(table.slots@) == 0);
        table
    }

    /// Stores a host value and returns its handle.
    ///
    /// A reused slot keeps the generation its release already bumped, so every handle minted
    /// before that release stays stale.
    pub fn insert(&mut self, value: T) -> (handle: Handle)
        requires
            old(self).wf(),
            old(self).count() < usize::MAX,
        ensures
            final(self).wf(),
            final(self).count() == old(self).count() + 1,
            old(self).lookup(handle) is None,
            !old(self).stale(handle),
            final(self).lookup(handle) == Some(value),
            handle.slot() == old(self).next_slot(),
            handle.stamp() == old(self).next_stamp(),
            forall|h: Handle| h.slot() == handle.slot() && old(self).stale(h) ==> h.stamp() < handle.stamp(),
            forall|h: Handle| h != handle ==> final(self).lookup(h) == old(self).lookup(h),
            forall|h: Handle| old(self).stale(h) ==> final(self).stale(h),
    {
        let ghost before = self.slots@;
        match self.free.pop() {
            Some(index) => {
                let ghost k = self.free@.len() as int;
                assert(old(self).free@[k] == index);
                let generation = match &self.slots[index] {
                    Some(slot) => slot.generation,
                    None => 1,
                };
                let handle = Handle { index, generation };
                self.slots.set(index, Some(Slot { generation, value: Some(value) }));
                proof {
                    lemma_live_count_update(before, index as int, self.slots@[index as int]);
                    assert forall|k2: int| 0 <= k2 < self.free@.len() implies {
                        &&& #[trigger] self.free@[k2] < self.slots@.len()
                        &&& self.slots@[self.free@[k2] as int] matches Some(s) && s.value is None
                    } by {
                        assert(old(self).free@[k2] == self.free@[k2]);
                        assert(self.free@[k2] != index);
                    }
                    assert forall|h: Handle| h != handle implies self.lookup(h) == old(self).lookup(h) by {
                        if h.slot() == index as nat {
                            assert(h.stamp() != handle.stamp()) by {
                                h.lemma_identity(handle);
                            }
                        }
                    }
                }
                self.live = self.live + 1;
                handle
            },
            None => {
                let index = self.slots.len();
                let handle = Handle { index, generation: 1 };
                self.slots.push(Some(Slot { generation: 1, value: Some(value) }));
                proof {
                    lemma_live_count_push(before, self.slots@[index as int]);
                    assert forall|h: Handle| h != handle implies self.lookup(h) == old(self).lookup(h) by {
                        if h.slot() == index as nat {
                            assert(h.stamp() != handle.stamp()) by {
                                h.lemma_identity(handle);
                            }
                        }
                    }
                }
                self.live = self.live + 1;
                handle
            },
        }
    }

    /// The value behind `handle`, or `None` when the handle is stale or unknown.
    pub fn get(&self, handle: Handle) -> (value: Option<&T>)
        ensures
            match value {
                Some(v) => self.lookup(handle) == Some(*v),
                None => self.lookup(handle) is None,
            },
    {
        if handle.index >= self.slots.len() {
            return None;
        }
        match &self.slots[handle.index] {
            Some(slot) => {
                if slot.generation != handle.generation {
                    return None;
                }
                slot.value.as_ref()
            },
            None => None,
        }
    }

    /// Whether `handle` currently addresses a live value.
    pub fn contains(&self, handle: Handle) -> (live: bool)
        ensures
            live == self.lookup(handle) is Some,
    {
        self.get(handle).is_some()
    }

    /// The value behind `handle`, or the stale-handle fault.
    pub fn require(&self, handle: Handle) -> (value: Result<&T, HostFault>)
        ensures
            match value {
                Ok(v) => self.lookup(handle) == Some(*v),
                Err(fault) => self.lookup(handle) is None && fault == HostFault::StaleHandle { handle },
            },
    {
        match self.get(handle) {
            Some(v) => Ok(v),
            None => Err(HostFault::StaleHandle { handle }),
        }
    }

    /// Takes the value out of `handle` and invalidates every handle minted for that slot.
    ///
    /// A stale handle yields `None`, so a double release is harmless. An exhausted
    /// generation retires the slot instead of wrapping.
    pub fn remove(&mut self, handle: Handle) -> (removed: Option<T>)
        requires
            old(self).wf(),
        ensures
            final(self).wf(),
            removed == old(self).lookup(handle),
            removed is Some ==> final(self).count() + 1 == old(self).count() && final(self).stale(handle),
            removed is None ==> *final(self) == *old(self),
            removed is Some && handle.stamp() < u32::MAX ==> final(self).next_slot() == handle.slot()
                && final(self).next_stamp() == handle.stamp() + 1,
            forall|h: Handle| h != handle ==> final(self).lookup(h) == old(self).lookup(h),
            final(self).lookup(handle) is None,
            forall|h: Handle| old(self).stale(h) ==> final(self).stale(h),
    {
        if handle.index >= self.slots.len() {
            return None;
        }
        let index = handle.index;
        let ghost before = self.slots@;
        let live_here = match &self.slots[index] {
            Some(slot) => slot.generation == handle.generation && slot.value.is_some(),
            None => false,
        };
        if !live_here {
            return None;
        }
        assert(before[index as int] is Some);
        let mut taken: Option<Slot<T>> = None;
        std::mem::swap(&mut taken, &mut self.slots[index]);
        assert(taken == before[index as int]);
        {
            {
                let slot = taken.unwrap();
                let generation = slot.generation;
                let value = slot.value;
                proof {
                    lemma_live_count_update(before, index as int, None);
                }
                if generation == u32::MAX {
                    self.slots.set(index, None);
                    assert(self.slots@ =~= before.update(index as int, None));
                } else {
                    self.slots.set(index, Some(Slot { generation: generation + 1, value: None }));
                    assert(self.slots@ =~= before.update(index as int, self.slots@[index as int]));
                    proof {
                        lemma_live_count_update(before, index as int, self.slots@[index as int]);
                    }
                    // The slot was live, so it was not on the reuse list.
                    proof {
                        assert forall|k: int| 0 <= k < self.free@.len() implies #[trigger] self.free@[k] != index by {
                            assert(before[self.free@[k] as int] matches Some(s) && s.value is None);
                        }
                    }
                    self.free.push(index);
                }
                proof {
                    assert forall|k: int| 0 <= k < old(self).free@.len() implies #[trigger] old(self).free@[k] != index by {
                        assert(before[old(self).free@[k] as int] matches Some(s) && s.value is None);
                    }
                    assert forall|h: Handle| h != handle implies self.lookup(h) == old(self).lookup(h) by {
                        if h.slot() == index as nat {
                            assert(h.stamp() != handle.stamp()) by {
                                h.lemma_identity(handle);
                            }
                        }
                    }
                }
                self.live = self.live - 1;
                assert(self.live as nat == live_count(self.slots@));
                assert(self.wf());
                value
            }
        }
    }

    /// Number of live values.
    pub fn len(&self) -> (count: usize)
        ensures
            count as nat == self.count(),
    {
        self.live
    }

    /// Whether the table holds no live value.
    pub fn is_empty(&self) -> (empty: bool)
        ensures
            empty == (self.count() == 0),
    {
        self.live == 0
    }
}


impl<T> HandleTable<T> {
    /// Drops every value and invalidates every handle.
    ///
    /// Each slot moves to a new generation; a slot whose generation space is exhausted is
    /// retired, as a release would retire it.
    pub fn clear(&mut self)
        requires
            old(self).wf(),
        ensures
            final(self).wf(),
            final(self).count() == 0,
            forall|h: Handle| final(self).lookup(h) is None,
            forall|h: Handle| old(self).lookup(h) is Some ==> final(self).stale(h),
            forall|h: Handle| old(self).stale(h) ==> final(self).stale(h),
    {
        let ghost before = self.slots@;
        let mut slots: Vec<Option<Slot<T>>> = Vec::new();
        std::mem::swap(&mut slots, &mut self.slots);
        let n = slots.len();
        let mut rebuilt: Vec<Option<Slot<T>>> = Vec::new();
        let mut i: usize = 0;
        for slot in it: slots
            invariant
                it.seq() == before,
                n == before.len(),
                i == it.index(),
                rebuilt@.len() == i,
                forall|j: int| 0 <= j < i ==> !is_live(#[trigger] rebuilt@[j]),
                forall|j: int| 0 <= j < i ==> match (#[trigger] rebuilt@[j], before[j]) {
                    (Some(r), Some(b)) => r.generation as nat == b.generation as nat + 1,
                    (None, Some(b)) => b.generation == u32::MAX,
                    (None, None) => true,
                    (Some(_), None) => false,
                },
        {
            assert(slot == before[i as int]);
            match slot {
                Some(s) => {
                    if s.generation == u32::MAX {
                        rebuilt.push(None);
                    } else {
                        rebuilt.push(Some(Slot { generation: s.generation + 1, value: None }));
                    }
                },
                None => {
                    rebuilt.push(None);
                },
            }
            i = i + 1;
        }
        proof {
            lemma_live_count_none(rebuilt@);
        }
        self.slots = rebuilt;
        self.free = Vec::new();
        self.live = 0;
    }

    /// Live handles and their values, in slot order.
    pub fn iter(&self) -> (entries: Vec<(Handle, &T)>)
        ensures
            forall|k: int| 0 <= k < entries@.len() ==> self.lookup((#[trigger] entries@[k]).0) == Some(*entries@[k].1),
            forall|k: int, l: int| 0 <= k < l < entries@.len() ==> (#[trigger] entries@[k]).0.slot() < (#[trigger] entries@[l]).0.slot(),
            forall|h: Handle| self.lookup(h) is Some ==> exists|k: int| 0 <= k < entries@.len() && (#[trigger] entries@[k]).0 == h,
    {
        let mut entries: Vec<(Handle, &T)> = Vec::new();
        let mut i: usize = 0;
        while i < self.slots.len()
            invariant
                i <= self.slots@.len(),
                forall|k: int| 0 <= k < entries@.len() ==> self.lookup((#[trigger] entries@[k]).0) == Some(*entries@[k].1),
                forall|k: int| 0 <= k < entries@.len() ==> (#[trigger] entries@[k]).0.slot() < i,
                forall|k: int, l: int| 0 <= k < l < entries@.len() ==> (#[trigger] entries@[k]).0.slot() < (#[trigger] entries@[l]).0.slot(),
                forall|h: Handle| h.slot() < i && self.lookup(h) is Some ==> exists|k: int| 0 <= k < entries@.len() && (#[trigger] entries@[k]).0 == h,
            decreases self.slots.len() - i,
        {
            match &self.slots[i] {
                Some(slot) => {
                    match &slot.value {
                        Some(value) => {
                            let handle = Handle { index: i, generation: slot.generation };
                            let ghost before = entries@;
                            entries.push((handle, value));
                            proof {
                                assert forall|h: Handle| h.slot() < i + 1 && self.lookup(h) is Some implies exists|k: int| 0 <= k < entries@.len() && (#[trigger] entries@[k]).0 == h by {
                                    if h.slot() == i as nat {
                                        h.lemma_identity(handle);
                                        assert(entries@[before.len() as int].0 == h);
                                    } else {
                                        let k = choose|k: int| 0 <= k < before.len() && (#[trigger] before[k]).0 == h;
                                        assert(entries@[k] == before[k]);
                                    }
                                }
                            }
                        },
                        None => {},
                    }
                },
                None => {},
            }
            i = i + 1;
        }
        entries
    }

    /// Moves a live handle's slot to a later generation with a new value, as repeated
    /// release cycles of that slot would, and returns the handle that now addresses it.
    ///
    /// Returns `None`, changing nothing, when `handle` is not live or `generation` is not
    /// later than the handle's own.
    pub fn advance_generation(&mut self, handle: Handle, generation: u32, value: T) -> (advanced: Option<Handle>)
        requires
            old(self).wf(),
        ensures
            final(self).wf(),
            final(self).count() == old(self).count(),
            match advanced {
                Some(fresh) => {
                    &&& old(self).lookup(handle) is Some
                    &&& generation as nat > handle.stamp()
                    &&& fresh.slot() == handle.slot()
                    &&& fresh.stamp() == generation as nat
                    &&& final(self).lookup(fresh) == Some(value)
                    &&& final(self).stale(handle)
                    &&& forall|h: Handle| h.slot() != handle.slot() ==> final(self).lookup(h) == old(self).lookup(h)
                },
                None => (old(self).lookup(handle) is None || generation as nat <= handle.stamp())
                    && forall|h: Handle| final(self).lookup(h) == old(self).lookup(h),
            },
            forall|h: Handle| old(self).stale(h) ==> final(self).stale(h),
    {
        if handle.index >= self.slots.len() || generation <= handle.generation {
            return None;
        }
        let index = handle.index;
        let live_here = match &self.slots[index] {
            Some(slot) => slot.generation == handle.generation && slot.value.is_some(),
            None => false,
        };
        if !live_here {
            return None;
        }
        let ghost before = self.slots@;
        self.slots.set(index, Some(Slot { generation, value: Some(value) }));
        proof {
            lemma_live_count_update(before, index as int, self.slots@[index as int]);
            assert forall|k: int| 0 <= k < self.free@.len() implies #[trigger] self.free@[k] != index by {
                assert(before[self.free@[k] as int] matches Some(s) && s.value is None);
            }
        }
        Some(Handle { index, generation })
    }
}

impl<T> HandleTable<T> {
    /// The value behind `handle` mutably, or `None` when the handle is stale or unknown.
    pub fn get_mut(&mut self, handle: Handle) -> (value: Option<&mut T>)
        requires
            old(self).wf(),
        ensures
            match value {
                Some(v) => {
                    &&& old(self).lookup(handle) == Some(*v)
                    &&& final(self).wf()
                    &&& final(self).count() == old(self).count()
                    &&& final(self).lookup(handle) == Some(*final(v))
                    &&& forall|h: Handle| h != handle ==> final(self).lookup(h) == old(self).lookup(h)
                    &&& forall|h: Handle| old(self).stale(h) ==> final(self).stale(h)
                },
                None => old(self).lookup(handle) is None && *final(self) == *old(self),
            },
    {
        if handle.index >= self.slots.len() {
            return None;
        }
        let live_here = match &self.slots[handle.index] {
            Some(slot) => slot.generation == handle.generation && slot.value.is_some(),
            None => false,
        };
        if !live_here {
            return None;
        }
        let ghost before = self.slots@;
        let ghost generation = before[handle.index as int]->0.generation;
        proof {
            assert forall|h: Handle| h != handle && h.slot() == handle.slot() implies h.stamp() != handle.stamp() by {
                h.lemma_identity(handle);
            }
            lemma_rewrite_live_slot(before, handle.index as int);
            assert forall|k: int| 0 <= k < self.free@.len() implies #[trigger] self.free@[k] != handle.index by {
                assert(before[self.free@[k] as int] matches Some(s) && s.value is None);
            }
        }
        self.live_value_mut(handle.index)
    }

    fn live_value_mut(&mut self, index: usize) -> (value: Option<&mut T>)
        requires
            old(self).wf(),
            index < old(self).slots@.len(),
            old(self).slots@[index as int] matches Some(s) && s.value is Some,
        ensures
            value matches Some(v) && {
                &&& old(self).slots@[index as int]->0.value == Some(*v)
                &&& final(self).slots@ == old(self).slots@.update(index as int, Some(Slot { generation: old(self).slots@[index as int]->0.generation, value: Some(*final(v)) }))
                &&& final(self).free@ == old(self).free@
                &&& final(self).live == old(self).live
            },
    {
        match &mut self.slots[index] {
            Some(slot) => slot.value.as_mut(),
            None => None,
        }
    }
}

/// A stale handle stays stale whatever the table does next. Over any run of tables in
/// which each step keeps stale handles stale (as `insert`, `remove` and `clear` each
/// state), a handle stale at the start is stale, and resolves to nothing, throughout.
pub proof fn law_stale_stays_stale<T>(tables: Seq<HandleTable<T>>, h: Handle, i: int)
    requires
        forall|k: int, g: Handle| #![trigger tables[k].stale(g)] 0 <= k < tables.len() - 1 && tables[k].stale(g) ==> tables[k + 1].stale(g),
        0 < tables.len(),
        tables[0].stale(h),
        0 <= i < tables.len(),
    ensures
        tables[i].stale(h),
        tables[i].lookup(h) is None,
    decreases i,
{
    if i > 0 {
        law_stale_stays_stale(tables, h, i - 1);
        assert(tables[i - 1].stale(h));
    }
    tables[i].law_stale_never_resolves(h);
}

/// A handle made stale is never handed out again. `clear` makes every handle minted
/// before it stale and `remove` the handle it releases; an insert hands out only a handle
/// that was not stale just before it; so over any run of tables that keeps stale handles
/// stale, nothing minted later equals a handle stale at the start.
pub proof fn law_stale_never_reissued<T>(tables: Seq<HandleTable<T>>, h: Handle, i: int, minted: Handle)
    requires
        forall|k: int, g: Handle| #![trigger tables[k].stale(g)] 0 <= k < tables.len() - 1 && tables[k].stale(g) ==> tables[k + 1].stale(g),
        0 < tables.len(),
        tables[0].stale(h),
        0 <= i < tables.len(),
        !tables[i].stale(minted),
    ensures
        minted != h,
{
    law_stale_stays_stale(tables, h, i);
}

} // verus!
