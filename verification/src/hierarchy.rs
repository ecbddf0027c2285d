//! The mathematical model of the transform hierarchy: a map from entities to
//! their nodes, and what it means to walk up parent links in it.

use vstd::prelude::*;
use crate::entity::Entity;

verus! {

/// What the store keeps for one entity.
pub struct TransformNode<L, W> {
    /// The transform relative to the parent, or to the world for a root.
    pub local: L,
    /// The world matrix of the last propagation that reached this entity.
    pub world: Option<W>,
    /// The entity this one is attached to.
    pub parent: Option<Entity>,
    /// The local transform was marked as changed since the last propagation.
    pub dirty: bool,
}

/// The parent link of `e`; none if `e` has no node.
pub open spec fn parent_of<L, W>(m: Map<Entity, TransformNode<L, W>>, e: Entity) -> Option<Entity> {
    if m.dom().contains(e) {
        m[e].parent
    } else {
        None
    }
}

/// The entity reached from `e` by following `k` parent links, if the chain
/// is that long. The last entity of a chain need not have a node itself.
pub open spec fn ancestor_at<L, W>(m: Map<Entity, TransformNode<L, W>>, e: Entity, k: nat) -> Option<
    Entity,
>
    decreases k,
{
    if k == 0 {
        Some(e)
    } else {
        match ancestor_at(m, e, (k - 1) as nat) {
            Some(c) => parent_of(m, c),
            None => None,
        }
    }
}

/// Walking up from `from` arrives at `to` (after zero or more links).
pub open spec fn reaches<L, W>(m: Map<Entity, TransformNode<L, W>>, from: Entity, to: Entity) -> bool {
    exists|k: nat| ancestor_at(m, from, k) == Some(to)
}

/// Attaching `e` below `parent` would close a cycle: `e` is `parent` itself
/// or one of its ancestors.
pub open spec fn would_cycle<L, W>(
    m: Map<Entity, TransformNode<L, W>>,
    e: Entity,
    parent: Option<Entity>,
) -> bool {
    parent is Some && reaches(m, parent.unwrap(), e)
}

/// `rank` falls strictly along every parent link.
pub open spec fn ranked<L, W>(m: Map<Entity, TransformNode<L, W>>, rank: spec_fn(Entity) -> nat) -> bool {
    forall|c: Entity| #[trigger]
        m.dom().contains(c) && m[c].parent is Some ==> rank(c) > rank(m[c].parent.unwrap())
}

/// The parent links form no cycle.
pub open spec fn acyclic<L, W>(m: Map<Entity, TransformNode<L, W>>) -> bool {
    exists|rank: spec_fn(Entity) -> nat| ranked(m, rank)
}

/// `e` has a node whose parent link names an entity without a node.
pub open spec fn dangling<L, W>(m: Map<Entity, TransformNode<L, W>>, e: Entity) -> bool {
    m.dom().contains(e) && m[e].parent is Some && !m.dom().contains(m[e].parent.unwrap())
}

/// Every parent link names an entity that has a node.
pub open spec fn consistent<L, W>(m: Map<Entity, TransformNode<L, W>>) -> bool {
    forall|e: Entity| !dangling(m, e)
}

/// `e` has a node and is dirty.
pub open spec fn marked<L, W>(m: Map<Entity, TransformNode<L, W>>, e: Entity) -> bool {
    m.dom().contains(e) && m[e].dirty
}

/// `e` must be recomputed: it has a node, and it or one of its ancestors is
/// dirty.
pub open spec fn needs_recompute<L, W>(m: Map<Entity, TransformNode<L, W>>, e: Entity) -> bool {
    m.dom().contains(e) && exists|k: nat|
        (#[trigger] ancestor_at(m, e, k)) is Some && marked(m, ancestor_at(m, e, k).unwrap())
}

/// No entity is dirty.
pub open spec fn all_clean<L, W>(m: Map<Entity, TransformNode<L, W>>) -> bool {
    forall|e: Entity| !marked(m, e)
}

/// Following one more link from the far end of a chain is the same as
/// starting one link further up.
pub proof fn lemma_ancestor_shift<L, W>(m: Map<Entity, TransformNode<L, W>>, e: Entity, k: nat)
    ensures
        ancestor_at(m, e, k + 1) == match parent_of(m, e) {
            Some(p) => ancestor_at(m, p, k),
            None => None,
        },
    decreases k,
{
    reveal_with_fuel(ancestor_at, 2);
    if k > 0 {
        lemma_ancestor_shift(m, e, (k - 1) as nat);
        match parent_of(m, e) {
            Some(p) => {
                assert(ancestor_at(m, e, k) == ancestor_at(m, p, (k - 1) as nat));
            },
            None => {},
        }
    }
}

/// Once a chain has ended it stays ended.
pub proof fn lemma_chain_stays_ended<L, W>(
    m: Map<Entity, TransformNode<L, W>>,
    e: Entity,
    k: nat,
    j: nat,
)
    requires
        ancestor_at(m, e, k) is None,
        k <= j,
    ensures
        ancestor_at(m, e, j) is None,
    decreases j,
{
    if k < j {
        lemma_chain_stays_ended(m, e, k, (j - 1) as nat);
    }
}

/// What `reaches` means one link at a time: `from` is `to`, or the parent of
/// `from` reaches `to`.
pub proof fn lemma_reaches_unfold<L, W>(m: Map<Entity, TransformNode<L, W>>, from: Entity, to: Entity)
    ensures
        reaches(m, from, to) <==> (from == to || (parent_of(m, from) is Some && reaches(
            m,
            parent_of(m, from).unwrap(),
            to,
        ))),
{
    if reaches(m, from, to) {
        let k = choose|k: nat| ancestor_at(m, from, k) == Some(to);
        if k > 0 {
            lemma_ancestor_shift(m, from, (k - 1) as nat);
            assert(parent_of(m, from) is Some);
            assert(ancestor_at(m, parent_of(m, from).unwrap(), (k - 1) as nat) == Some(to));
        }
    }
    if from == to {
        assert(ancestor_at(m, from, 0) == Some(to));
    }
    if parent_of(m, from) is Some && reaches(m, parent_of(m, from).unwrap(), to) {
        let p = parent_of(m, from).unwrap();
        let k = choose|k: nat| ancestor_at(m, p, k) == Some(to);
        lemma_ancestor_shift(m, from, k);
        assert(ancestor_at(m, from, k + 1) == Some(to));
    }
}

/// What `needs_recompute` means one link at a time: an entity with a node
/// must be recomputed exactly if it is dirty or its parent must be.
pub proof fn lemma_needs_recompute_unfold<L, W>(m: Map<Entity, TransformNode<L, W>>, e: Entity)
    requires
        m.dom().contains(e),
    ensures
        needs_recompute(m, e) <==> (m[e].dirty || (m[e].parent is Some && needs_recompute(
            m,
            m[e].parent.unwrap(),
        ))),
{
    if needs_recompute(m, e) {
        let k = choose|k: nat|
            (#[trigger] ancestor_at(m, e, k)) is Some && marked(m, ancestor_at(m, e, k).unwrap());
        if k > 0 {
            lemma_ancestor_shift(m, e, (k - 1) as nat);
            let p = m[e].parent.unwrap();
            assert(ancestor_at(m, p, (k - 1) as nat) is Some);
            lemma_chain_start_has_node(m, p, (k - 1) as nat);
        } else {
            assert(ancestor_at(m, e, 0) == Some(e));
        }
    }
    if m[e].dirty {
        assert(ancestor_at(m, e, 0) == Some(e));
    }
    if m[e].parent is Some && needs_recompute(m, m[e].parent.unwrap()) {
        let p = m[e].parent.unwrap();
        let k = choose|k: nat|
            (#[trigger] ancestor_at(m, p, k)) is Some && marked(m, ancestor_at(m, p, k).unwrap());
        lemma_ancestor_shift(m, e, k);
        assert(ancestor_at(m, e, k + 1) == ancestor_at(m, p, k));
    }
}

/// A chain that ends at an entity with a node starts at one: either no link
/// was followed, or the first link left a node.
pub proof fn lemma_chain_start_has_node<L, W>(m: Map<Entity, TransformNode<L, W>>, e: Entity, k: nat)
    requires
        ancestor_at(m, e, k) is Some,
        m.dom().contains(ancestor_at(m, e, k).unwrap()),
    ensures
        m.dom().contains(e),
    decreases k,
{
    if k > 0 {
        lemma_ancestor_shift(m, e, (k - 1) as nat);
    }
}

/// With nothing dirty, nothing needs to be recomputed.
pub proof fn lemma_clean_needs_nothing<L, W>(m: Map<Entity, TransformNode<L, W>>, e: Entity)
    requires
        all_clean(m),
    ensures
        !needs_recompute(m, e),
{
    if needs_recompute(m, e) {
        let k = choose|k: nat|
            (#[trigger] ancestor_at(m, e, k)) is Some && marked(m, ancestor_at(m, e, k).unwrap());
        assert(!marked(m, ancestor_at(m, e, k).unwrap()));
    }
}

/// The map with every child of `x` cut loose: it becomes a root and is
/// marked dirty, since its chain of ancestors changed.
pub open spec fn orphaned<L, W>(m: Map<Entity, TransformNode<L, W>>, x: Entity) -> Map<
    Entity,
    TransformNode<L, W>,
> {
    Map::new(
        |c: Entity| m.dom().contains(c),
        |c: Entity|
            if m[c].parent == Some(x) {
                TransformNode { local: m[c].local, world: m[c].world, parent: None, dirty: true }
            } else {
                m[c]
            },
    )
}

/// The map without the node of `x`; the children of `x` become roots.
/// Unchanged if `x` has no node.
pub open spec fn without<L, W>(m: Map<Entity, TransformNode<L, W>>, x: Entity) -> Map<
    Entity,
    TransformNode<L, W>,
> {
    if m.dom().contains(x) {
        orphaned(m, x).remove(x)
    } else {
        m
    }
}

/// An entity other than `e` that has a node in the slot of `e`: data left
/// behind by an earlier occupant of the slot.
pub open spec fn rival<L, W>(m: Map<Entity, TransformNode<L, W>>, e: Entity) -> Option<Entity> {
    if exists|x: Entity| m.dom().contains(x) && x.index == e.index && x != e {
        Some(choose|x: Entity| m.dom().contains(x) && x.index == e.index && x != e)
    } else {
        None
    }
}

/// The map after `insert(e, local, parent)` went through: data left behind
/// in the slot of `e` is dropped, and `e` gets a node that is marked dirty.
/// A world matrix that `e` already had is kept until the next propagation.
pub open spec fn inserted<L, W>(
    m: Map<Entity, TransformNode<L, W>>,
    e: Entity,
    local: L,
    parent: Option<Entity>,
) -> Map<Entity, TransformNode<L, W>> {
    let base = match rival(m, e) {
        Some(x) => without(m, x),
        None => m,
    };
    base.insert(
        e,
        TransformNode {
            local,
            world: if base.dom().contains(e) {
                base[e].world
            } else {
                None
            },
            parent,
            dirty: true,
        },
    )
}

/// Giving `e` a node with parent link `parent` keeps the hierarchy free of
/// cycles, provided `e` is neither `parent` nor one of its ancestors.
pub proof fn lemma_attach_acyclic<L, W>(
    m: Map<Entity, TransformNode<L, W>>,
    e: Entity,
    node: TransformNode<L, W>,
)
    requires
        acyclic(m),
        !would_cycle(m, e, node.parent),
    ensures
        acyclic(m.insert(e, node)),
{
    let rank = choose|rank: spec_fn(Entity) -> nat| ranked(m, rank);
    let lift: nat = match node.parent {
        Some(p) => rank(p) + 1,
        None => 0,
    };
    let after = m.insert(e, node);
    let rank2 = |d: Entity|
        if reaches(m, d, e) {
            rank(d) + lift
        } else {
            rank(d)
        };
    assert(ranked(after, rank2)) by {
        assert forall|c: Entity| #[trigger]
            after.dom().contains(c) && after[c].parent is Some implies rank2(c) > rank2(
            after[c].parent.unwrap(),
        ) by {
            let q = after[c].parent.unwrap();
            if c == e {
                assert(ancestor_at(m, e, 0) == Some(e));
                assert(reaches(m, e, e));
                assert(!reaches(m, q, e));
            } else {
                assert(m.dom().contains(c));
                lemma_reaches_unfold(m, c, e);
            }
        }
    }
}

/// Removing nodes and parent links adds no way to walk up: whatever a walk
/// reaches in the smaller map, it reaches in the larger one.
pub proof fn lemma_walk_in_submap<L, W>(
    small: Map<Entity, TransformNode<L, W>>,
    big: Map<Entity, TransformNode<L, W>>,
    from: Entity,
    k: nat,
)
    requires
        forall|c: Entity| #[trigger]
            small.dom().contains(c) && small[c].parent is Some ==> big.dom().contains(c)
                && big[c].parent == small[c].parent,
        ancestor_at(small, from, k) is Some,
    ensures
        ancestor_at(big, from, k) == ancestor_at(small, from, k),
    decreases k,
{
    if k > 0 {
        let c = ancestor_at(small, from, (k - 1) as nat);
        lemma_walk_in_submap(small, big, from, (k - 1) as nat);
        assert(small.dom().contains(c.unwrap()));
    }
}

/// Dropping a node, with its children cut loose, keeps the hierarchy free of
/// cycles: every link that is left was there before.
pub proof fn lemma_without_acyclic<L, W>(m: Map<Entity, TransformNode<L, W>>, x: Entity)
    requires
        acyclic(m),
    ensures
        acyclic(without(m, x)),
        forall|c: Entity| #[trigger]
            without(m, x).dom().contains(c) && without(m, x)[c].parent is Some ==> m.dom().contains(
                c,
            ) && m[c].parent == without(m, x)[c].parent,
{
    let rank = choose|rank: spec_fn(Entity) -> nat| ranked(m, rank);
    let after = without(m, x);
    assert forall|c: Entity| #[trigger]
        after.dom().contains(c) && after[c].parent is Some implies m.dom().contains(c)
        && m[c].parent == after[c].parent by {}
    assert(ranked(after, rank)) by {
        assert forall|c: Entity| #[trigger]
            after.dom().contains(c) && after[c].parent is Some implies rank(c) > rank(
            after[c].parent.unwrap(),
        ) by {
            assert(m.dom().contains(c));
        }
    }
}

} // verus!
