//! Generational entity handles and the registry that issues them.
//!
//! A handle names a slot and the generation the slot had when the handle was
//! issued. Despawning bumps the generation, so old handles to a reused slot
//! are told apart from the new one. A slot whose generation can no longer be
//! bumped is retired instead of being reused.

use vstd::prelude::*;

verus! {

/// A handle to a scene object: a slot index and the generation of the slot
/// at the time the handle was issued.
#[derive(Clone, Copy, Debug, PartialEq, Eq, Structural, Hash)]
pub struct Entity {
    pub index: u32,
    pub generation: u32,
}

impl Entity {
    /// Builds a handle from its two parts.
    pub fn new(index: u32, generation: u32) -> (e: Entity)
        ensures
            e.index == index,
            e.generation == generation,
    {
        Entity { index, generation }
    }
}

/// What a slot of the registry currently is.
#[derive(Clone, Copy, Debug, PartialEq, Eq, Structural)]
pub enum SlotState {
    /// Occupied by the entity with the slot's generation.
    Live,
    /// Vacant and waiting to be handed out again.
    Free,
    /// Vacant for good: its generation counter is used up.
    Retired,
}

/// One slot of the registry.
#[derive(Clone, Copy, Debug, PartialEq, Eq, Structural)]
pub struct Slot {
    pub generation: u32,
    pub state: SlotState,
}

/// The handle `e` names the current occupant of its slot.
pub open spec fn slot_alive(slots: Seq<Slot>, e: Entity) -> bool {
    &&& (e.index as int) < slots.len()
    &&& slots[e.index as int].state is Live
    &&& slots[e.index as int].generation == e.generation
}

/// The handle `e` can never again name a live entity: its slot has moved on
/// to a later generation, or has been retired.
pub open spec fn slot_stale(slots: Seq<Slot>, e: Entity) -> bool {
    &&& (e.index as int) < slots.len()
    &&& (e.generation < slots[e.index as int].generation
        || slots[e.index as int].state is Retired)
}

/// The lowest index at or above `from` whose slot is free, or the number of
/// slots if there is none.
pub open spec fn first_free_from(slots: Seq<Slot>, from: int) -> int
    decreases slots.len() - from,
{
    if from >= slots.len() {
        slots.len() as int
    } else if slots[from].state is Free {
        from
    } else {
        first_free_from(slots, from + 1)
    }
}

/// The lowest free index, or the number of slots if none is free.
pub open spec fn first_free(slots: Seq<Slot>) -> int {
    first_free_from(slots, 0)
}

/// A spawn can be served: a slot is free, or the table can still grow.
pub open spec fn has_room(slots: Seq<Slot>) -> bool {
    first_free(slots) < slots.len() || slots.len() < u32::MAX
}

/// The handle that a spawn returns.
pub open spec fn spawned(slots: Seq<Slot>) -> Entity {
    let i = first_free(slots);
    if i < slots.len() {
        Entity { index: i as u32, generation: slots[i].generation }
    } else {
        Entity { index: i as u32, generation: 0 }
    }
}

/// The slots after a spawn.
pub open spec fn after_spawn(slots: Seq<Slot>) -> Seq<Slot> {
    let i = first_free(slots);
    if i < slots.len() {
        slots.update(i, Slot { generation: slots[i].generation, state: SlotState::Live })
    } else {
        slots.push(Slot { generation: 0, state: SlotState::Live })
    }
}

/// The slots after `despawn(e)`: unchanged if `e` is not alive.
pub open spec fn after_despawn(slots: Seq<Slot>, e: Entity) -> Seq<Slot> {
    if !slot_alive(slots, e) {
        slots
    } else if e.generation < u32::MAX {
        slots.update(
            e.index as int,
            Slot { generation: (e.generation + 1) as u32, state: SlotState::Free },
        )
    } else {
        slots.update(
            e.index as int,
            Slot { generation: e.generation, state: SlotState::Retired },
        )
    }
}

/// The index `i` occurs in the free list.
spec fn listed(free: Seq<u32>, i: int) -> bool {
    exists|k: int| 0 <= k < free.len() && free[k] == i
}

/// Returned by `despawn` for a handle that names no live entity.
#[derive(Clone, Copy, Debug, PartialEq, Eq, Structural)]
pub struct InvalidHandle;

/// Issues entity handles and tells live ones from stale ones.
pub struct EntityRegistry {
    slots: Vec<Slot>,
    /// The free slots, highest index first, so that the lowest is popped.
    free: Vec<u32>,
}

impl View for EntityRegistry {
    type V = Seq<Slot>;

    closed spec fn view(&self) -> Seq<Slot> {
        self.slots@
    }
}

impl EntityRegistry {
    /// The free list holds exactly the free slots, in falling order.
    pub closed spec fn wf(&self) -> bool {
        &&& self.slots@.len() <= u32::MAX
        &&& forall|k: int|
            0 <= k < self.free@.len() ==> (#[trigger] self.free@[k] as int) < self.slots@.len()
                && self.slots@[self.free@[k] as int].state is Free
        &&& forall|a: int, b: int|
            0 <= a < b < self.free@.len() ==> self.free@[a] > self.free@[b]
        &&& forall|i: int|
            0 <= i < self.slots@.len() && (#[trigger] self.slots@[i]).state is Free ==> listed(
                self.free@,
                i,
            )
    }

    /// `e` names a live entity of this registry.
    pub open spec fn alive(&self, e: Entity) -> bool {
        slot_alive(self@, e)
    }

    /// A spawn can be served.
    pub open spec fn can_spawn(&self) -> bool {
        has_room(self@)
    }

    /// An empty registry.
    pub fn new() -> (r: EntityRegistry)
        ensures
            r.wf(),
            r@ == Seq::<Slot>::empty(),
    {
        EntityRegistry { slots: Vec::new(), free: Vec::new() }
    }

    /// The number of slots ever allocated.
    pub fn slot_count(&self) -> (n: usize)
        ensures
            n == self@.len(),
    {
        self.slots.len()
    }

    /// True when no spawn can be served: no slot is free and the table has
    /// reached the largest size an index can address.
    pub fn is_full(&self) -> (full: bool)
        requires
            self.wf(),
        ensures
            full == !self.can_spawn(),
    {
        proof {
            self.lemma_first_free();
        }
        self.free.len() == 0 && self.slots.len() >= u32::MAX as usize
    }

    /// Generation-matching liveness check.
    pub fn is_alive(&self, e: Entity) -> (b: bool)
        ensures
            b == self.alive(e),
    {
        let i: usize = e.index as usize;
        if i < self.slots.len() {
            let s: Slot = self.slots[i];
            match s.state {
                SlotState::Live => s.generation == e.generation,
                _ => false,
            }
        } else {
            false
        }
    }

    /// Creates an entity in the lowest free slot, or in a new slot when none
    /// is free.
    pub fn spawn(&mut self) -> (e: Entity)
        requires
            old(self).wf(),
            old(self).can_spawn(),
        ensures
            final(self).wf(),
            final(self)@ == after_spawn(old(self)@),
            e == spawned(old(self)@),
            final(self).alive(e),
            !old(self).alive(e),
            forall|h: Entity| old(self).alive(h) ==> final(self).alive(h) && h.index != e.index,
    {
        proof {
            self.lemma_first_free();
        }
        if self.free.len() > 0 {
            let ghost old_free = self.free@;
            let ghost old_slots = self.slots@;
            let idx: u32 = self.free.pop().unwrap();
            let i: usize = idx as usize;
            let s: Slot = self.slots[i];
            self.slots.set(i, Slot { generation: s.generation, state: SlotState::Live });
            proof {
                assert(self.free@ == old_free.drop_last());
                assert forall|j: int|
                    0 <= j < self.slots@.len() && (#[trigger] self.slots@[j]).state is Free implies listed(
                    self.free@,
                    j,
                ) by {
                    assert(old_slots[j].state is Free);
                    assert(listed(old_free, j));
                    let k = choose|k: int| 0 <= k < old_free.len() && old_free[k] == j;
                    assert(k < old_free.len() - 1);
                    assert(self.free@[k] == j);
                }
            }
            Entity { index: idx, generation: s.generation }
        } else {
            let n: usize = self.slots.len();
            self.slots.push(Slot { generation: 0, state: SlotState::Live });
            Entity { index: n as u32, generation: 0 }
        }
    }

    /// Destroys the entity that `e` names. A handle that names no live entity
    /// is reported and changes nothing.
    pub fn despawn(&mut self, e: Entity) -> (r: Result<(), InvalidHandle>)
        requires
            old(self).wf(),
        ensures
            final(self).wf(),
            r is Ok <==> old(self).alive(e),
            final(self)@ == after_despawn(old(self)@, e),
            !final(self).alive(e),
            r is Ok ==> slot_stale(final(self)@, e),
            forall|h: Entity| h != e ==> (final(self).alive(h) <==> old(self).alive(h)),
    {
        if !self.is_alive(e) {
            return Err(InvalidHandle);
        }
        let i: usize = e.index as usize;
        if e.generation < u32::MAX {
            let ghost old_free = self.free@;
            let mut pos: usize = 0;
            while pos < self.free.len() && self.free[pos] > e.index
                invariant
                    pos <= self.free@.len(),
                    self.free@ == old_free,
                    forall|k: int| 0 <= k < pos ==> self.free@[k] > e.index,
                decreases self.free@.len() - pos,
            {
                pos = pos + 1;
            }
            self.free.insert(pos, e.index);
            self.slots.set(i, Slot { generation: e.generation + 1, state: SlotState::Free });
            proof {
                let new_free = self.free@;
                assert(new_free == old_free.insert(pos as int, e.index));
                assert forall|k: int| pos <= k < old_free.len() implies old_free[k] < e.index by {
                    assert(old_free[k] != e.index);
                    if k > pos {
                        assert(old_free[pos as int] > old_free[k]);
                    }
                }
                assert forall|j: int|
                    0 <= j < self.slots@.len() && (#[trigger] self.slots@[j]).state is Free implies listed(
                    new_free,
                    j,
                ) by {
                    if j == e.index {
                        assert(new_free[pos as int] == j);
                    } else {
                        assert(old(self).slots@[j].state is Free);
                        assert(listed(old_free, j));
                        let k = choose|k: int| 0 <= k < old_free.len() && old_free[k] == j;
                        if k < pos {
                            assert(new_free[k] == j);
                        } else {
                            assert(new_free[k + 1] == j);
                        }
                    }
                }
            }
        } else {
            self.slots.set(i, Slot { generation: e.generation, state: SlotState::Retired });
        }
        Ok(())
    }

    /// A live entity's index lies within the table, and so below the largest
    /// value an index can take.
    pub proof fn lemma_alive_in_range(&self, e: Entity)
        requires
            self.wf(),
            self.alive(e),
        ensures
            e.index < self@.len() <= u32::MAX,
    {
    }

    /// With a well-formed free list, the lowest free slot is the last entry
    /// of the list, and an empty list means that no slot is free.
    proof fn lemma_first_free(&self)
        requires
            self.wf(),
        ensures
            self.free@.len() == 0 ==> first_free(self@) == self@.len(),
            self.free@.len() > 0 ==> first_free(self@) == self.free@.last(),
    {
        if self.free@.len() == 0 {
            assert forall|j: int| 0 <= j < self@.len() implies !(self@[j].state is Free) by {
                if self.slots@[j].state is Free {
                    assert(listed(self.free@, j));
                }
            }
            lemma_first_free_none(self@, 0);
        } else {
            let m = self.free@.last() as int;
            assert(self.free@[self.free@.len() - 1] == m);
            assert forall|j: int| 0 <= j < m implies !(self@[j].state is Free) by {
                if self.slots@[j].state is Free {
                    assert(listed(self.free@, j));
                    let k = choose|k: int| 0 <= k < self.free@.len() && self.free@[k] == j;
                    if k < self.free@.len() - 1 {
                        assert(self.free@[k] > self.free@[self.free@.len() - 1]);
                    }
                }
            }
            lemma_first_free_at(self@, 0, m);
        }
    }
}

/// If no slot at or above `from` is free, the search runs off the end.
pub proof fn lemma_first_free_none(slots: Seq<Slot>, from: int)
    requires
        0 <= from,
        forall|j: int| from <= j < slots.len() ==> !(slots[j].state is Free),
    ensures
        first_free_from(slots, from) == slots.len(),
    decreases slots.len() - from,
{
    if from < slots.len() {
        lemma_first_free_none(slots, from + 1);
    }
}

/// If `i` is free and nothing in `from..i` is, the search stops at `i`.
pub proof fn lemma_first_free_at(slots: Seq<Slot>, from: int, i: int)
    requires
        0 <= from <= i < slots.len(),
        slots[i].state is Free,
        forall|j: int| from <= j < i ==> !(slots[j].state is Free),
    ensures
        first_free_from(slots, from) == i,
    decreases i - from,
{
    if from < i {
        lemma_first_free_at(slots, from + 1, i);
    }
}

/// One request to the registry.
pub enum RegistryOp {
    Spawn,
    Despawn(Entity),
}

/// The slots after one request.
pub open spec fn step(slots: Seq<Slot>, op: RegistryOp) -> Seq<Slot> {
    match op {
        RegistryOp::Spawn => after_spawn(slots),
        RegistryOp::Despawn(e) => after_despawn(slots, e),
    }
}

/// The slots after a sequence of requests, served in order.
pub open spec fn run(slots: Seq<Slot>, ops: Seq<RegistryOp>) -> Seq<Slot>
    decreases ops.len(),
{
    if ops.len() == 0 {
        slots
    } else {
        step(run(slots, ops.drop_last()), ops.last())
    }
}

/// Every spawn in the sequence finds room.
pub open spec fn run_has_room(slots: Seq<Slot>, ops: Seq<RegistryOp>) -> bool
    decreases ops.len(),
{
    ops.len() == 0 || (run_has_room(slots, ops.drop_last()) && (ops.last() is Spawn ==> has_room(
        run(slots, ops.drop_last()),
    )))
}

/// Two live handles with the same index are the same handle: no two live
/// entities share a slot.
pub proof fn lemma_live_handles_unique(slots: Seq<Slot>, a: Entity, b: Entity)
    requires
        slot_alive(slots, a),
        slot_alive(slots, b),
        a.index == b.index,
    ensures
        a == b,
{
}

/// The lowest free index lies within the table, or is its length; below it
/// no slot is free.
pub proof fn lemma_first_free_bounds(slots: Seq<Slot>, from: int)
    requires
        0 <= from <= slots.len(),
    ensures
        from <= first_free_from(slots, from) <= slots.len(),
        first_free_from(slots, from) < slots.len() ==> slots[first_free_from(
            slots,
            from,
        )].state is Free,
        forall|j: int| from <= j < first_free_from(slots, from) ==> !(slots[j].state is Free),
    decreases slots.len() - from,
{
    if from < slots.len() && !(slots[from].state is Free) {
        lemma_first_free_bounds(slots, from + 1);
    }
}

/// A spawn hands out a slot that no live entity occupies, the new handle is
/// alive, and every handle that was alive stays alive.
pub proof fn lemma_spawn_is_fresh(slots: Seq<Slot>, h: Entity)
    requires
        slots.len() <= u32::MAX,
        has_room(slots),
    ensures
        slot_alive(after_spawn(slots), spawned(slots)),
        !slot_alive(slots, spawned(slots)),
        after_spawn(slots).len() <= u32::MAX,
        slot_alive(slots, h) ==> slot_alive(after_spawn(slots), h) && h.index != spawned(
            slots,
        ).index,
{
    lemma_first_free_bounds(slots, 0);
}

/// One request never revives a stale handle.
pub proof fn lemma_step_keeps_stale(slots: Seq<Slot>, op: RegistryOp, h: Entity)
    requires
        slot_stale(slots, h),
    ensures
        slot_stale(step(slots, op), h),
        !slot_alive(step(slots, op), h),
{
    lemma_first_free_bounds(slots, 0);
}

/// Whatever is spawned and despawned afterwards, a stale handle stays stale
/// and is never alive again.
pub proof fn lemma_stale_forever(slots: Seq<Slot>, ops: Seq<RegistryOp>, h: Entity)
    requires
        slot_stale(slots, h),
    ensures
        slot_stale(run(slots, ops), h),
        !slot_alive(run(slots, ops), h),
    decreases ops.len(),
{
    if ops.len() > 0 {
        lemma_stale_forever(slots, ops.drop_last(), h);
        lemma_step_keeps_stale(run(slots, ops.drop_last()), ops.last(), h);
    }
}

/// A handle that was despawned is rejected ever after, also when its slot
/// has been handed out again.
pub proof fn lemma_despawned_handle_stays_dead(slots: Seq<Slot>, e: Entity, ops: Seq<RegistryOp>)
    requires
        slot_alive(slots, e),
    ensures
        !slot_alive(run(after_despawn(slots, e), ops), e),
        forall|h: Entity|
            slot_alive(run(after_despawn(slots, e), ops), h) && h.index == e.index ==> h != e,
{
    lemma_stale_forever(after_despawn(slots, e), ops, e);
}

/// Starting from a table within the index range and serving only spawns that
/// find room, the table stays within the index range.
pub proof fn lemma_run_stays_in_range(slots: Seq<Slot>, ops: Seq<RegistryOp>)
    requires
        slots.len() <= u32::MAX,
        run_has_room(slots, ops),
    ensures
        run(slots, ops).len() <= u32::MAX,
    decreases ops.len(),
{
    if ops.len() > 0 {
        lemma_run_stays_in_range(slots, ops.drop_last());
        lemma_first_free_bounds(run(slots, ops.drop_last()), 0);
    }
}

} // verus!
