//! The transform store: per-entity local transforms, parent links, cached
//! world matrices and dirty marks.
//!
//! Changing a local transform and marking it dirty are two steps, so that a
//! caller can batch several edits before one mark. World matrices are only
//! ever written by propagation.

use vstd::prelude::*;
use crate::entity::{Entity, EntityRegistry};
use crate::hierarchy::{
    acyclic, ancestor_at, dangling, inserted, lemma_attach_acyclic, lemma_chain_stays_ended,
    lemma_walk_in_submap, lemma_without_acyclic, marked, parent_of, ranked, reaches,
    rival, without, would_cycle, TransformNode,
};

verus! {

/// Why an entity could not be attached.
#[derive(Clone, Copy, Debug, PartialEq, Eq, Structural)]
pub enum TransformError {
    /// The entity is not alive.
    DeadEntity,
    /// The entity has no transform in this store.
    MissingTransform,
    /// The requested parent is not alive.
    DeadParent,
    /// The requested parent is the entity itself or one of its descendants.
    Cycle,
}

/// The data in one occupied slot: the node and the generation of the entity
/// it belongs to.
pub(crate) struct Occupant<L, W> {
    pub(crate) generation: u32,
    pub(crate) node: TransformNode<L, W>,
}

/// Per-entity transform data, indexed by the entity's slot.
pub struct TransformStore<L, W> {
    pub(crate) slots: Vec<Option<Occupant<L, W>>>,
    /// False only while no entity is dirty, so that a propagation over an
    /// unchanged scene costs nothing.
    pub(crate) any_dirty: bool,
}

/// The node of `e` with its dirty mark set.
pub open spec fn with_mark<L, W>(m: Map<Entity, TransformNode<L, W>>, e: Entity) -> Map<
    Entity,
    TransformNode<L, W>,
> {
    m.insert(
        e,
        TransformNode { local: m[e].local, world: m[e].world, parent: m[e].parent, dirty: true },
    )
}

/// The node of `e` with another local transform.
pub open spec fn with_local<L, W>(m: Map<Entity, TransformNode<L, W>>, e: Entity, local: L) -> Map<
    Entity,
    TransformNode<L, W>,
> {
    m.insert(
        e,
        TransformNode { local, world: m[e].world, parent: m[e].parent, dirty: m[e].dirty },
    )
}

/// The node of `e` with another parent link, and marked dirty.
pub open spec fn with_parent<L, W>(
    m: Map<Entity, TransformNode<L, W>>,
    e: Entity,
    parent: Option<Entity>,
) -> Map<Entity, TransformNode<L, W>> {
    m.insert(e, TransformNode { local: m[e].local, world: m[e].world, parent, dirty: true })
}

/// The hierarchy has no cycle, and every entity that is not dirty has a
/// world matrix and a parent link that leads somewhere.
pub open spec fn sound<L, W>(m: Map<Entity, TransformNode<L, W>>) -> bool {
    &&& acyclic(m)
    &&& forall|e: Entity| #[trigger]
        m.dom().contains(e) && !m[e].dirty ==> m[e].world is Some && !dangling(m, e)
}

/// `b` has the entities and the parent links of `a`, has a world matrix
/// wherever `a` has one, and is dirty wherever `a` is.
pub open spec fn keeps_links<L, W>(
    a: Map<Entity, TransformNode<L, W>>,
    b: Map<Entity, TransformNode<L, W>>,
) -> bool {
    &&& a.dom() =~= b.dom()
    &&& forall|e: Entity| #[trigger]
        a.dom().contains(e) ==> a[e].parent == b[e].parent && (a[e].dirty ==> b[e].dirty) && (
        a[e].world is Some ==> b[e].world is Some)
}

/// Edits that keep the links keep the hierarchy sound.
pub proof fn lemma_keeps_links_sound<L, W>(
    a: Map<Entity, TransformNode<L, W>>,
    b: Map<Entity, TransformNode<L, W>>,
)
    requires
        sound(a),
        keeps_links(a, b),
    ensures
        sound(b),
{
    let rank = choose|rank: spec_fn(Entity) -> nat| ranked(a, rank);
    assert(ranked(b, rank)) by {
        assert forall|c: Entity| #[trigger]
            b.dom().contains(c) && b[c].parent is Some implies rank(c) > rank(
            b[c].parent.unwrap(),
        ) by {
            assert(a.dom().contains(c));
        }
    }
    assert forall|c: Entity| #[trigger] b.dom().contains(c) && !b[c].dirty implies b[c].world is Some
        && !dangling(b, c) by {
        assert(a.dom().contains(c));
        assert(!dangling(a, c));
    }
}

impl<L, W> TransformStore<L, W> {
    /// Slot `i` holds data.
    pub open(crate) spec fn occupied(&self, i: int) -> bool {
        0 <= i < self.slots@.len() && self.slots@[i] is Some
    }

    /// The store holds data for exactly the handle `e`.
    pub open(crate) spec fn holds(&self, e: Entity) -> bool {
        self.occupied(e.index as int) && self.slots@[e.index as int].unwrap().generation
            == e.generation
    }

    /// The store as a map from entities to their nodes.
    pub open(crate) spec fn view(&self) -> Map<Entity, TransformNode<L, W>> {
        Map::new(
            |e: Entity| self.holds(e),
            |e: Entity| self.slots@[e.index as int].unwrap().node,
        )
    }

    /// The hierarchy has no cycle, and every entity that is not dirty has a
    /// world matrix and a parent link that leads somewhere.
    pub open(crate) spec fn wf(&self) -> bool {
        &&& self.slots@.len() <= u32::MAX
        &&& sound(self@)
        &&& !self.any_dirty ==> forall|e: Entity| !marked(self@, e)
    }

    /// What well-formedness says of the store as a map.
    pub proof fn lemma_wf_is_sound(&self)
        requires
            self.wf(),
        ensures
            sound(self@),
            forall|a: Entity, b: Entity|
                self@.dom().contains(a) && self@.dom().contains(b) && a.index == b.index ==> a == b,
    {
        assert forall|a: Entity, b: Entity|
            self@.dom().contains(a) && self@.dom().contains(b) && a.index == b.index implies a
            == b by {
            assert(self.holds(a) && self.holds(b));
        }
    }

    /// An empty store.
    pub fn new() -> (s: Self)
        ensures
            s.wf(),
            s@ == Map::<Entity, TransformNode<L, W>>::empty(),
    {
        let s = TransformStore { slots: Vec::new(), any_dirty: false };
        proof {
            assert(s@ =~= Map::<Entity, TransformNode<L, W>>::empty());
            let rank = |e: Entity| 0nat;
            assert(ranked(s@, rank));
        }
        s
    }

    /// The occupant stored for exactly the handle `e`, if any.
    pub(crate) fn occupant(&self, e: Entity) -> (r: Option<&Occupant<L, W>>)
        ensures
            r is Some <==> self@.dom().contains(e),
            r is Some ==> r.unwrap().node == self@[e] && r.unwrap().generation == e.generation
                && Some(*r.unwrap()) == self.slots@[e.index as int],
    {
        let i: usize = e.index as usize;
        if i < self.slots.len() {
            match &self.slots[i] {
                Some(o) => {
                    if o.generation == e.generation {
                        Some(o)
                    } else {
                        None
                    }
                },
                None => None,
            }
        } else {
            None
        }
    }

    /// True if the store holds a transform for `e`.
    pub fn contains(&self, e: Entity) -> (b: bool)
        ensures
            b == self@.dom().contains(e),
    {
        self.occupant(e).is_some()
    }

    /// The local transform of `e`; none if `e` is not alive or has no
    /// transform here.
    pub fn get(&self, registry: &EntityRegistry, e: Entity) -> (r: Option<&L>)
        ensures
            r is Some <==> registry.alive(e) && self@.dom().contains(e),
            r is Some ==> *r.unwrap() == self@[e].local,
    {
        if !registry.is_alive(e) {
            return None;
        }
        match self.occupant(e) {
            Some(o) => Some(&o.node.local),
            None => None,
        }
    }

    /// The world matrix that the last propagation gave `e`. It lags behind
    /// the local transform until the next propagation. None if `e` is not
    /// alive, has no transform here, or was never reached by a propagation.
    pub fn world_matrix(&self, registry: &EntityRegistry, e: Entity) -> (r: Option<&W>)
        ensures
            r is Some <==> registry.alive(e) && self@.dom().contains(e) && self@[e].world is Some,
            r is Some ==> Some(*r.unwrap()) == self@[e].world,
    {
        if !registry.is_alive(e) {
            return None;
        }
        match self.occupant(e) {
            Some(o) => o.node.world.as_ref(),
            None => None,
        }
    }

    /// The parent link of `e`; none if `e` is a root, is not alive or has no
    /// transform here.
    pub fn parent(&self, registry: &EntityRegistry, e: Entity) -> (r: Option<Entity>)
        ensures
            r == if registry.alive(e) {
                parent_of(self@, e)
            } else {
                None
            },
    {
        if !registry.is_alive(e) {
            return None;
        }
        match self.occupant(e) {
            Some(o) => o.node.parent,
            None => None,
        }
    }

    /// True if `e` is alive, has a transform here and is marked dirty.
    pub fn is_dirty(&self, registry: &EntityRegistry, e: Entity) -> (b: bool)
        ensures
            b == (registry.alive(e) && marked(self@, e)),
    {
        if !registry.is_alive(e) {
            return false;
        }
        match self.occupant(e) {
            Some(o) => o.node.dirty,
            None => false,
        }
    }

    /// Mutable access to the local transform of `e`; none if `e` is not
    /// alive or has no transform here. Writing through the reference does
    /// not mark `e` dirty: that is a step of its own.
    pub fn get_mut(&mut self, registry: &EntityRegistry, e: Entity) -> (r: Option<&mut L>)
        requires
            old(self).wf(),
        ensures
            r is Some <==> registry.alive(e) && old(self)@.dom().contains(e),
            match r {
                Some(l) => *l == old(self)@[e].local && final(self)@ == with_local(
                    old(self)@,
                    e,
                    *final(l),
                ) && final(self).wf(),
                None => final(self)@ == old(self)@ && final(self).wf(),
            },
    {
        if !registry.is_alive(e) || !self.contains(e) {
            return None;
        }
        let i: usize = e.index as usize;
        proof {
            let before = *self;
            assert forall|b: Self| before.only_local_differs(b, i as int) implies #[trigger] b.wf()
                && b@ == with_local(before@, e, b.slots@[i as int].unwrap().node.local) by {
                before.lemma_local_edit(b, e);
            }
        }
        match &mut self.slots[i] {
            Some(o) => Some(&mut o.node.local),
            None => None,
        }
    }

    /// `b` is this store with, at most, another local transform in slot `i`.
    pub(crate) open spec fn only_local_differs(&self, b: Self, i: int) -> bool {
        &&& self.occupied(i)
        &&& b.any_dirty == self.any_dirty
        &&& b.slots@.len() == self.slots@.len()
        &&& forall|j: int| 0 <= j < self.slots@.len() && j != i ==> b.slots@[j] == self.slots@[j]
        &&& b.slots@[i] is Some
        &&& b.slots@[i].unwrap().generation == self.slots@[i].unwrap().generation
        &&& b.slots@[i].unwrap().node.world == self.slots@[i].unwrap().node.world
        &&& b.slots@[i].unwrap().node.parent == self.slots@[i].unwrap().node.parent
        &&& b.slots@[i].unwrap().node.dirty == self.slots@[i].unwrap().node.dirty
    }

    /// Editing a local transform keeps the store well formed.
    pub(crate) proof fn lemma_local_edit(&self, b: Self, e: Entity)
        requires
            self.wf(),
            self@.dom().contains(e),
            self.only_local_differs(b, e.index as int),
        ensures
            b.wf(),
            b@ == with_local(self@, e, b.slots@[e.index as int].unwrap().node.local),
    {
        let i = e.index as int;
        assert(b@ =~= with_local(self@, e, b.slots@[i].unwrap().node.local)) by {
            assert forall|c: Entity| b@.dom().contains(c) <==> self@.dom().contains(c) by {
                if c.index as int != i && (c.index as int) < self.slots@.len() {
                    assert(b.slots@[c.index as int] == self.slots@[c.index as int]);
                }
            }
        }
        lemma_keeps_links_sound(self@, b@);
        if !b.any_dirty {
            assert forall|c: Entity| !marked(b@, c) by {
                assert(!marked(self@, c));
            }
        }
    }

    /// Marks `e` as changed since the last propagation. Does nothing if `e`
    /// is not alive or has no transform here; marking twice is the same as
    /// marking once.
    pub fn mark_dirty(&mut self, registry: &EntityRegistry, e: Entity)
        requires
            old(self).wf(),
        ensures
            final(self).wf(),
            final(self)@ == if registry.alive(e) && old(self)@.dom().contains(e) {
                with_mark(old(self)@, e)
            } else {
                old(self)@
            },
    {
        if !registry.is_alive(e) || !self.contains(e) {
            return ;
        }
        let i: usize = e.index as usize;
        match &mut self.slots[i] {
            Some(o) => {
                o.node.dirty = true;
            },
            None => {},
        }
        self.any_dirty = true;
        proof {
            assert(self@ =~= with_mark(old(self)@, e));
            lemma_keeps_links_sound(old(self)@, self@);
        }
    }
}

/// A slot with its occupant cut loose from `x`, if `x` was its parent.
pub open(crate) spec fn cut_loose<L, W>(s: Option<Occupant<L, W>>, x: Entity) -> Option<
    Occupant<L, W>,
> {
    match s {
        Some(o) => if o.node.parent == Some(x) {
            Some(
                Occupant {
                    generation: o.generation,
                    node: TransformNode {
                        local: o.node.local,
                        world: o.node.world,
                        parent: None,
                        dirty: true,
                    },
                },
            )
        } else {
            s
        },
        None => None,
    }
}

impl<L, W> TransformStore<L, W> {
    /// Walks up from `from` and tells whether the walk arrives at `target`.
    pub fn has_ancestor_or_self(&self, from: Entity, target: Entity) -> (b: bool)
        requires
            self.wf(),
        ensures
            b == reaches(self@, from, target),
    {
        let ghost rank = choose|rank: spec_fn(Entity) -> nat| ranked(self@, rank);
        let ghost mut k: nat = 0;
        let mut cur: Entity = from;
        loop
            invariant
                ranked(self@, rank),
                ancestor_at(self@, from, k) == Some(cur),
                forall|j: nat| j < k ==> ancestor_at(self@, from, j) != Some(target),
            decreases rank(cur),
        {
            if cur == target {
                return true;
            }
            let next: Option<Entity> = match self.occupant(cur) {
                Some(o) => o.node.parent,
                None => None,
            };
            match next {
                Some(q) => {
                    proof {
                        assert(self@.dom().contains(cur));
                        assert(ancestor_at(self@, from, k + 1) == Some(q));
                        k = k + 1;
                    }
                    cur = q;
                },
                None => {
                    proof {
                        assert(parent_of(self@, cur) is None);
                        assert(ancestor_at(self@, from, k + 1) is None);
                        assert forall|j: nat| ancestor_at(self@, from, j) != Some(target) by {
                            if j > k {
                                lemma_chain_stays_ended(self@, from, k + 1, j);
                            }
                        }
                    }
                    return false;
                },
            }
        }
    }

    /// The children of `e`, by rising index: the entities whose parent link
    /// names `e`. The list is worked out from the parent links at every call;
    /// the links are the only record of the hierarchy.
    pub fn children(&self, e: Entity) -> (kids: Vec<Entity>)
        requires
            self.wf(),
        ensures
            forall|c: Entity|
                kids@.contains(c) <==> self@.dom().contains(c) && self@[c].parent == Some(e),
            forall|a: int, b: int|
                0 <= a < b < kids@.len() ==> kids@[a].index < kids@[b].index,
    {
        let mut kids: Vec<Entity> = Vec::new();
        let mut j: usize = 0;
        while j < self.slots.len()
            invariant
                j <= self.slots@.len() <= u32::MAX,
                forall|c: Entity|
                    kids@.contains(c) <==> self@.dom().contains(c) && self@[c].parent == Some(e)
                        && c.index < j,
                forall|a: int| 0 <= a < kids@.len() ==> (#[trigger] kids@[a]).index < j,
                forall|a: int, b: int|
                    0 <= a < b < kids@.len() ==> kids@[a].index < kids@[b].index,
            decreases self.slots@.len() - j,
        {
            let ghost before = kids@;
            let hit: Option<u32> = match &self.slots[j] {
                Some(o) => match o.node.parent {
                    Some(p) => if p == e {
                        Some(o.generation)
                    } else {
                        None
                    },
                    None => None,
                },
                None => None,
            };
            match hit {
                Some(generation) => {
                    let c = Entity { index: j as u32, generation };
                    kids.push(c);
                    proof {
                        assert(self.holds(c));
                        assert(kids@[before.len() as int] == c);
                        assert forall|x: Entity| kids@.contains(x) <==> (before.contains(x) || x
                            == c) by {
                            if before.contains(x) {
                                let a = choose|a: int| 0 <= a < before.len() && before[a] == x;
                                assert(kids@[a] == x);
                            }
                            if kids@.contains(x) {
                                let a = choose|a: int| 0 <= a < kids@.len() && kids@[a] == x;
                                if a < before.len() {
                                    assert(before[a] == x);
                                }
                            }
                        }
                        assert forall|x: Entity|
                            self@.dom().contains(x) && x.index == j implies x == c by {
                            assert(self.holds(x));
                        }
                        assert(self@.dom().contains(c) && self@[c].parent == Some(e));
                        assert forall|x: Entity|
                            kids@.contains(x) <==> self@.dom().contains(x) && self@[x].parent
                                == Some(e) && x.index < j + 1 by {
                            assert(kids@.contains(x) <==> (before.contains(x) || x == c));
                            assert(before.contains(x) <==> self@.dom().contains(x)
                                && self@[x].parent == Some(e) && x.index < j);
                            if self@.dom().contains(x) && x.index == j {
                                assert(x == c);
                            }
                        }
                    }
                },
                None => {
                    proof {
                        assert forall|x: Entity|
                            self@.dom().contains(x) && x.index == j implies self@[x].parent
                            != Some(e) by {
                            assert(self.holds(x));
                        }
                        assert forall|x: Entity|
                            kids@.contains(x) <==> self@.dom().contains(x) && self@[x].parent
                                == Some(e) && x.index < j + 1 by {}
                    }
                },
            }
            j = j + 1;
        }
        proof {
            assert forall|c: Entity|
                self@.dom().contains(c) implies c.index < self.slots@.len() by {
                assert(self.holds(c));
            }
        }
        kids
    }

    /// Discards the transform of `e` and tells whether there was one. The
    /// children of `e` are not removed with it: they become roots and are
    /// marked dirty.
    pub fn remove(&mut self, e: Entity) -> (removed: bool)
        requires
            old(self).wf(),
        ensures
            final(self).wf(),
            removed == old(self)@.dom().contains(e),
            final(self)@ == without(old(self)@, e),
    {
        if !self.contains(e) {
            return false;
        }
        let i: usize = e.index as usize;
        let ghost before = self.slots@;
        self.slots.set(i, None);
        let ghost base = self.slots@;
        let mut j: usize = 0;
        let mut touched: bool = false;
        while j < self.slots.len()
            invariant
                j <= self.slots@.len(),
                self.slots@.len() == base.len(),
                base == before.update(i as int, None),
                forall|t: int| 0 <= t < j ==> self.slots@[t] == cut_loose(base[t], e),
                forall|t: int| j <= t < base.len() ==> self.slots@[t] == base[t],
                self.any_dirty == old(self).any_dirty,
                !touched ==> forall|t: int| 0 <= t < j ==> self.slots@[t] == base[t],
            decreases self.slots@.len() - j,
        {
            let hit: bool = match &self.slots[j] {
                Some(o) => match o.node.parent {
                    Some(p) => p == e,
                    None => false,
                },
                None => false,
            };
            if hit {
                match &mut self.slots[j] {
                    Some(o) => {
                        o.node.parent = None;
                        o.node.dirty = true;
                    },
                    None => {},
                }
                touched = true;
            }
            j = j + 1;
        }
        if touched {
            self.any_dirty = true;
        }
        proof {
            let m = old(self)@;
            assert(self@ =~= without(m, e)) by {
                assert forall|c: Entity| self@.dom().contains(c) <==> without(m, e).dom().contains(
                    c,
                ) by {
                    if (c.index as int) < base.len() {
                        assert(self.slots@[c.index as int] == cut_loose(base[c.index as int], e));
                    }
                }
                assert forall|c: Entity| self@.dom().contains(c) implies self@[c] == without(
                    m,
                    e,
                )[c] by {
                    assert(self.slots@[c.index as int] == cut_loose(base[c.index as int], e));
                }
            }
            lemma_without_acyclic(m, e);
            assert forall|c: Entity| #[trigger]
                self@.dom().contains(c) && !self@[c].dirty implies self@[c].world is Some
                && !dangling(self@, c) by {
                assert(m.dom().contains(c));
                assert(!dangling(m, c));
            }
            if !self.any_dirty {
                assert forall|c: Entity| !marked(self@, c) by {
                    assert(!marked(m, c));
                    if self@.dom().contains(c) {
                        assert(self.slots@[c.index as int] == base[c.index as int]);
                    }
                }
            }
        }
        true
    }

    /// The entity whose data sits in the slot of `e` without being `e`.
    fn rival_of(&self, e: Entity) -> (r: Option<Entity>)
        ensures
            r == rival(self@, e),
    {
        let i: usize = e.index as usize;
        if i < self.slots.len() {
            match &self.slots[i] {
                Some(o) => {
                    if o.generation != e.generation {
                        let x = Entity { index: e.index, generation: o.generation };
                        proof {
                            assert(self@.dom().contains(x) && x.index == e.index && x != e);
                            let y = choose|y: Entity|
                                self@.dom().contains(y) && y.index == e.index && y != e;
                            assert(y == x);
                        }
                        Some(x)
                    } else {
                        None
                    }
                },
                None => None,
            }
        } else {
            None
        }
    }

    /// Attaches transform data to `e`, below `parent` if one is given, and
    /// marks `e` dirty. Refused, with nothing changed, if `e` is not alive,
    /// if `parent` is not alive, or if `e` is `parent` or one of its
    /// ancestors. Data left behind in the slot by an earlier entity is
    /// dropped as `remove` would.
    pub fn insert(
        &mut self,
        registry: &EntityRegistry,
        e: Entity,
        local: L,
        parent: Option<Entity>,
    ) -> (r: Result<(), TransformError>)
        requires
            old(self).wf(),
            registry.wf(),
        ensures
            final(self).wf(),
            match r {
                Ok(_) => registry.alive(e) && (parent is Some ==> registry.alive(parent.unwrap()))
                    && !would_cycle(old(self)@, e, parent) && final(self)@ == inserted(
                    old(self)@,
                    e,
                    local,
                    parent,
                ),
                Err(TransformError::DeadEntity) => !registry.alive(e),
                Err(TransformError::DeadParent) => registry.alive(e) && parent is Some
                    && !registry.alive(parent.unwrap()),
                Err(TransformError::Cycle) => registry.alive(e) && parent is Some
                    && registry.alive(parent.unwrap()) && would_cycle(old(self)@, e, parent),
                Err(TransformError::MissingTransform) => false,
            },
            r is Err ==> final(self)@ == old(self)@,
    {
        if !registry.is_alive(e) {
            return Err(TransformError::DeadEntity);
        }
        match parent {
            Some(p) => {
                if !registry.is_alive(p) {
                    return Err(TransformError::DeadParent);
                }
                if self.has_ancestor_or_self(p, e) {
                    return Err(TransformError::Cycle);
                }
            },
            None => {},
        }
        proof {
            registry.lemma_alive_in_range(e);
        }
        let ghost m = self@;
        let ghost start = *self;
        match self.rival_of(e) {
            Some(x) => {
                self.remove(x);
                proof {
                    lemma_without_acyclic(m, x);
                    assert forall|y: Entity|
                        self@.dom().contains(y) && y.index == e.index implies y == e by {
                        assert(start.holds(y) && start.holds(x));
                    }
                    if parent is Some && reaches(self@, parent.unwrap(), e) {
                        let k = choose|k: nat| ancestor_at(self@, parent.unwrap(), k) == Some(e);
                        lemma_walk_in_submap(self@, m, parent.unwrap(), k);
                    }
                }
            },
            None => {},
        }
        let ghost base = self@;
        assert(forall|y: Entity| base.dom().contains(y) && y.index == e.index ==> y == e);
        let i: usize = e.index as usize;
        while self.slots.len() <= i
            invariant
                self.wf(),
                self@ == base,
                i < u32::MAX,
            decreases i + 1 - self.slots@.len(),
        {
            let ghost prev = *self;
            self.slots.push(None);
            proof {
                assert(self@ =~= prev@) by {
                    assert forall|c: Entity| self@.dom().contains(c) <==> prev@.dom().contains(
                        c,
                    ) by {}
                }
            }
        }
        let ghost grown = *self;
        let slot: &mut Option<Occupant<L, W>> = &mut self.slots[i];
        let world: Option<W> = match slot.take() {
            Some(o) => {
                proof {
                    let y = Entity { index: e.index, generation: o.generation };
                    assert(grown.holds(y));
                    assert(base.dom().contains(y));
                }
                o.node.world
            },
            None => None,
        };
        *slot = Some(
            Occupant {
                generation: e.generation,
                node: TransformNode { local, world, parent, dirty: true },
            },
        );
        self.any_dirty = true;
        proof {
            let node = TransformNode { local, world, parent, dirty: true };
            assert(self@ =~= base.insert(e, node)) by {
                assert forall|c: Entity| self@.dom().contains(c) <==> base.insert(
                    e,
                    node,
                ).dom().contains(c) by {}
            }
            assert(self@ == inserted(m, e, local, parent));
            lemma_attach_acyclic(base, e, node);
            assert forall|c: Entity| #[trigger]
                self@.dom().contains(c) && !self@[c].dirty implies self@[c].world is Some
                && !dangling(self@, c) by {
                assert(base.dom().contains(c));
                assert(!dangling(base, c));
            }
        }
        Ok(())
    }

    /// Gives `e` another parent, or none, and marks `e` dirty. Refused, with
    /// nothing changed, if `e` is not alive or has no transform here, if
    /// `parent` is not alive, or if `e` is `parent` or one of its ancestors.
    pub fn set_parent(&mut self, registry: &EntityRegistry, e: Entity, parent: Option<Entity>) -> (r:
        Result<(), TransformError>)
        requires
            old(self).wf(),
        ensures
            final(self).wf(),
            match r {
                Ok(_) => registry.alive(e) && old(self)@.dom().contains(e) && (parent is Some
                    ==> registry.alive(parent.unwrap())) && !would_cycle(old(self)@, e, parent)
                    && final(self)@ == with_parent(old(self)@, e, parent),
                Err(TransformError::DeadEntity) => !registry.alive(e),
                Err(TransformError::MissingTransform) => registry.alive(e) && !old(
                    self,
                )@.dom().contains(e),
                Err(TransformError::DeadParent) => registry.alive(e) && old(self)@.dom().contains(e)
                    && parent is Some && !registry.alive(parent.unwrap()),
                Err(TransformError::Cycle) => registry.alive(e) && old(self)@.dom().contains(e)
                    && parent is Some && registry.alive(parent.unwrap()) && would_cycle(
                    old(self)@,
                    e,
                    parent,
                ),
            },
            r is Err ==> final(self)@ == old(self)@,
    {
        if !registry.is_alive(e) {
            return Err(TransformError::DeadEntity);
        }
        if !self.contains(e) {
            return Err(TransformError::MissingTransform);
        }
        match parent {
            Some(p) => {
                if !registry.is_alive(p) {
                    return Err(TransformError::DeadParent);
                }
                if self.has_ancestor_or_self(p, e) {
                    return Err(TransformError::Cycle);
                }
            },
            None => {},
        }
        let i: usize = e.index as usize;
        match &mut self.slots[i] {
            Some(o) => {
                o.node.parent = parent;
                o.node.dirty = true;
            },
            None => {},
        }
        self.any_dirty = true;
        proof {
            let m = old(self)@;
            assert(self@ =~= with_parent(m, e, parent)) by {
                assert forall|c: Entity| self@.dom().contains(c) <==> with_parent(
                    m,
                    e,
                    parent,
                ).dom().contains(c) by {}
            }
            lemma_attach_acyclic(m, e, self@[e]);
            assert forall|c: Entity| #[trigger]
                self@.dom().contains(c) && !self@[c].dirty implies self@[c].world is Some
                && !dangling(self@, c) by {
                assert(m.dom().contains(c));
                assert(!dangling(m, c));
            }
        }
        Ok(())
    }
}

/// Once `a` hangs below `b`, hanging `b` below `a` would close a cycle. So
/// `set_parent` and `insert` refuse it, and both links stay as they are.
pub proof fn lemma_reverse_link_closes_cycle<L, W>(
    m: Map<Entity, TransformNode<L, W>>,
    a: Entity,
    b: Entity,
)
    requires
        m.dom().contains(a),
    ensures
        would_cycle(with_parent(m, a, Some(b)), b, Some(a)),
{
    let linked = with_parent(m, a, Some(b));
    assert(ancestor_at(linked, a, 0) == Some(a));
    assert(parent_of(linked, a) == Some(b));
    assert(ancestor_at(linked, a, 1) == Some(b));
}

/// No entity can be its own parent.
pub proof fn lemma_self_link_closes_cycle<L, W>(m: Map<Entity, TransformNode<L, W>>, a: Entity)
    ensures
        would_cycle(m, a, Some(a)),
{
    assert(ancestor_at(m, a, 0) == Some(a));
}

} // verus!
