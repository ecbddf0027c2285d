//! Propagation: recomputes the world matrix of every entity that is dirty or
//! has a dirty ancestor, parents before children, and clears the dirty marks.
//!
//! The arithmetic is the caller's: `to_matrix` turns a local transform into
//! a matrix, `combine` multiplies a parent's world matrix by a child's local
//! matrix. What is guaranteed here holds whatever the two compute.

use vstd::prelude::*;
use crate::entity::Entity;
use crate::hierarchy::{
    all_clean, ancestor_at, consistent, dangling, lemma_clean_needs_nothing,
    lemma_needs_recompute_unfold, marked, needs_recompute, ranked, reaches, TransformNode,
};
use crate::transform::{sound, TransformStore};

verus! {

/// Returned by `propagate` when a parent link names an entity that has no
/// transform in the store.
#[derive(Clone, Copy, Debug, PartialEq, Eq, Structural)]
pub struct InconsistentStore {
    /// The entity whose parent link leads nowhere; of several, the one with
    /// the lowest index.
    pub entity: Entity,
}

/// `lm` is a local matrix of `e`, and the world matrix of `e` in `m` is that
/// matrix for a root, or the parent's world matrix in `m` combined with it.
pub open spec fn fresh_from<L, W, F: Fn(&L) -> W, G: Fn(&W, &W) -> W>(
    m: Map<Entity, TransformNode<L, W>>,
    e: Entity,
    lm: W,
    to_matrix: F,
    combine: G,
) -> bool {
    &&& m.dom().contains(e)
    &&& m[e].world is Some
    &&& to_matrix.ensures((&m[e].local,), lm)
    &&& match m[e].parent {
        None => m[e].world.unwrap() == lm,
        Some(p) => m.dom().contains(p) && m[p].world is Some && combine.ensures(
            (&m[p].world.unwrap(), &lm),
            m[e].world.unwrap(),
        ),
    }
}

/// The world matrix of `e` in `m` is up to date with the local transform of
/// `e` and with the world matrix that its parent has in `m`.
pub open spec fn fresh<L, W, F: Fn(&L) -> W, G: Fn(&W, &W) -> W>(
    m: Map<Entity, TransformNode<L, W>>,
    e: Entity,
    to_matrix: F,
    combine: G,
) -> bool {
    exists|lm: W| fresh_from(m, e, lm, to_matrix, combine)
}

/// What a propagation does to the store: nothing is added, removed or
/// re-parented, every dirty mark is cleared, every entity that had to be
/// recomputed is up to date with its parent's new world matrix, and every
/// other world matrix is untouched.
pub open spec fn propagated<L, W, F: Fn(&L) -> W, G: Fn(&W, &W) -> W>(
    pre: Map<Entity, TransformNode<L, W>>,
    post: Map<Entity, TransformNode<L, W>>,
    to_matrix: F,
    combine: G,
) -> bool {
    &&& post.dom() =~= pre.dom()
    &&& forall|e: Entity| #[trigger]
        pre.dom().contains(e) ==> post[e].local == pre[e].local && post[e].parent
            == pre[e].parent && !post[e].dirty
    &&& forall|e: Entity| #[trigger]
        pre.dom().contains(e) && !needs_recompute(pre, e) ==> post[e].world == pre[e].world
    &&& forall|e: Entity| #[trigger]
        pre.dom().contains(e) && needs_recompute(pre, e) ==> fresh(post, e, to_matrix, combine)
}

/// The entity whose data sits in slot `t`.
pub(crate) open spec fn entity_at<L, W>(s: TransformStore<L, W>, t: int) -> Entity {
    Entity { index: t as u32, generation: s.slots@[t].unwrap().generation }
}

/// Slot `t` has been settled: its dirty mark is cleared, it was recomputed
/// exactly if it had to be, and its parent was settled before it.
pub(crate) open spec fn settled<L, W, F: Fn(&L) -> W, G: Fn(&W, &W) -> W>(
    s0: TransformStore<L, W>,
    cur: TransformStore<L, W>,
    done: Seq<bool>,
    rec: Seq<bool>,
    t: int,
    to_matrix: F,
    combine: G,
) -> bool {
    let o = cur.slots@[t].unwrap();
    &&& !o.node.dirty
    &&& rec[t] == needs_recompute(s0@, entity_at(s0, t))
    &&& rec[t] ==> fresh(cur@, entity_at(s0, t), to_matrix, combine)
    &&& !rec[t] ==> o.node.world == s0.slots@[t].unwrap().node.world
    &&& o.node.parent is Some ==> done[o.node.parent.unwrap().index as int]
}

/// What holds of the store while a propagation is under way.
pub(crate) open spec fn sweeping<L, W, F: Fn(&L) -> W, G: Fn(&W, &W) -> W>(
    s0: TransformStore<L, W>,
    cur: TransformStore<L, W>,
    done: Seq<bool>,
    rec: Seq<bool>,
    to_matrix: F,
    combine: G,
) -> bool {
    &&& cur.slots@.len() == s0.slots@.len()
    &&& done.len() == s0.slots@.len()
    &&& rec.len() == s0.slots@.len()
    &&& cur.any_dirty == s0.any_dirty
    &&& forall|t: int|
        0 <= t < s0.slots@.len() ==> ((#[trigger] cur.slots@[t]) is Some <==> s0.slots@[t] is Some)
    &&& forall|t: int| #[trigger]
        s0.occupied(t) ==> cur.slots@[t].unwrap().generation == s0.slots@[t].unwrap().generation
            && cur.slots@[t].unwrap().node.local == s0.slots@[t].unwrap().node.local
            && cur.slots@[t].unwrap().node.parent == s0.slots@[t].unwrap().node.parent
    &&& forall|t: int| #[trigger] s0.occupied(t) && !done[t] ==> cur.slots@[t] == s0.slots@[t]
    &&& forall|t: int| #[trigger]
        s0.occupied(t) && done[t] ==> settled(s0, cur, done, rec, t, to_matrix, combine)
}

/// The store has the same occupied slots and the same parent links as at
/// the start of the propagation.
pub(crate) open spec fn same_links<L, W>(s0: TransformStore<L, W>, cur: TransformStore<L, W>) -> bool {
    &&& cur.slots@.len() == s0.slots@.len()
    &&& forall|t: int| #[trigger]
        s0.occupied(t) ==> cur.slots@[t] is Some && cur.slots@[t].unwrap().node.parent
            == s0.slots@[t].unwrap().node.parent
}

/// A chain of unsettled slots, each the parent of the one before it.
pub(crate) open spec fn chain_ok<L, W>(
    s0: TransformStore<L, W>,
    done: Seq<bool>,
    chain: Seq<usize>,
    rank: spec_fn(Entity) -> nat,
) -> bool {
    &&& forall|j: int| 0 <= j < chain.len() ==> s0.occupied(#[trigger] chain[j] as int) && !done[chain[j] as int]
    &&& forall|j: int|
        0 <= j < chain.len() - 1 ==> s0.slots@[(#[trigger] chain[j]) as int].unwrap().node.parent
            == Some(entity_at(s0, chain[j + 1] as int))
    &&& forall|a: int, b: int|
        0 <= a < b < chain.len() ==> rank(entity_at(s0, #[trigger] chain[a] as int)) > rank(
            entity_at(s0, #[trigger] chain[b] as int),
        )
}

/// The parent of slot `x`, if it has one, is settled.
pub(crate) open spec fn parent_settled<L, W>(s0: TransformStore<L, W>, done: Seq<bool>, x: int) -> bool {
    s0.slots@[x].unwrap().node.parent is Some ==> done[s0.slots@[x].unwrap().node.parent.unwrap().index as int]
}

/// In a consistent store, the parent link of an occupied slot names the
/// occupant of another slot.
pub(crate) proof fn lemma_parent_slot<L, W>(s0: TransformStore<L, W>, t: int)
    requires
        consistent(s0@),
        s0.occupied(t),
        s0.slots@.len() <= u32::MAX,
        s0.slots@[t].unwrap().node.parent is Some,
    ensures
        s0.occupied(s0.slots@[t].unwrap().node.parent.unwrap().index as int),
        entity_at(s0, s0.slots@[t].unwrap().node.parent.unwrap().index as int)
            == s0.slots@[t].unwrap().node.parent.unwrap(),
        s0@.dom().contains(entity_at(s0, t)),
        s0@[entity_at(s0, t)] == s0.slots@[t].unwrap().node,
{
    let e = entity_at(s0, t);
    assert(s0.holds(e));
    assert(!dangling(s0@, e));
    let p = s0.slots@[t].unwrap().node.parent.unwrap();
    assert(s0.holds(p));
}

/// Whether an entity is up to date depends on its own node and on its
/// parent's node only.
pub(crate) proof fn lemma_fresh_stable<L, W, F: Fn(&L) -> W, G: Fn(&W, &W) -> W>(
    a: Map<Entity, TransformNode<L, W>>,
    b: Map<Entity, TransformNode<L, W>>,
    e: Entity,
    to_matrix: F,
    combine: G,
)
    requires
        fresh(a, e, to_matrix, combine),
        b.dom().contains(e),
        b[e] == a[e],
        a[e].parent is Some ==> b.dom().contains(a[e].parent.unwrap()) && b[a[e].parent.unwrap()]
            == a[a[e].parent.unwrap()],
    ensures
        fresh(b, e, to_matrix, combine),
{
    let lm = choose|lm: W| fresh_from(a, e, lm, to_matrix, combine);
    assert(fresh_from(b, e, lm, to_matrix, combine));
}

/// Settles slot `x`, whose parent is settled already: recomputes its world
/// matrix if it is dirty or its parent was recomputed, and clears its mark.
fn settle<L, W, F: Fn(&L) -> W, G: Fn(&W, &W) -> W>(
    store: &mut TransformStore<L, W>,
    done: &mut Vec<bool>,
    rec: &mut Vec<bool>,
    x: usize,
    s0: Ghost<TransformStore<L, W>>,
    to_matrix: &F,
    combine: &G,
)
    requires
        s0@.wf(),
        consistent(s0@@),
        sweeping(s0@, *old(store), old(done)@, old(rec)@, *to_matrix, *combine),
        s0@.occupied(x as int),
        !old(done)@[x as int],
        parent_settled(s0@, old(done)@, x as int),
        forall|l: &L| to_matrix.requires((l,)),
        forall|a: &W, b: &W| combine.requires((a, b)),
    ensures
        sweeping(s0@, *final(store), final(done)@, final(rec)@, *to_matrix, *combine),
        final(done)@ == old(done)@.update(x as int, true),
{
    let ghost before = *store;
    let ghost done0 = done@;
    let ghost rec0 = rec@;
    let ghost e = entity_at(s0@, x as int);
    let ghost m0 = s0@@;
    proof {
        assert(s0@.holds(e));
        assert(m0.dom().contains(e));
        assert(before.slots@[x as int] == s0@.slots@[x as int]);
        lemma_needs_recompute_unfold(m0, e);
    }
    let parent: Option<Entity> = store.slots[x].as_ref().unwrap().node.parent;
    let dirty: bool = store.slots[x].as_ref().unwrap().node.dirty;
    let parent_recomputed: bool = match parent {
        Some(p) => {
            proof {
                lemma_parent_slot(s0@, x as int);
                assert(s0@.occupied(p.index as int));
                assert(settled(s0@, before, done0, rec0, p.index as int, *to_matrix, *combine));
            }
            rec[p.index as usize]
        },
        None => false,
    };
    let needs: bool = dirty || parent_recomputed;
    assert(needs == needs_recompute(m0, e));
    if needs {
        let lm: W = to_matrix(&store.slots[x].as_ref().unwrap().node.local);
        let w: W = match parent {
            Some(p) => {
                proof {
                    lemma_parent_slot(s0@, x as int);
                    let pi = p.index as int;
                    assert(s0@.occupied(pi));
                    assert(settled(s0@, before, done0, rec0, pi, *to_matrix, *combine));
                    assert(before.holds(p));
                    if !rec0[pi] {
                        assert(s0@.holds(p));
                        assert(!needs_recompute(m0, p));
                        assert(ancestor_at(m0, p, 0) == Some(p));
                        assert(m0.dom().contains(p) && !m0[p].dirty);
                        assert(m0[p].world is Some);
                    }
                }
                let pw: &W = store.slots[p.index as usize].as_ref().unwrap().node.world.as_ref().unwrap();
                combine(pw, &lm)
            },
            None => lm,
        };
        let ghost lm0 = lm;
        match &mut store.slots[x] {
            Some(o) => {
                o.node.world = Some(w);
                o.node.dirty = false;
            },
            None => {},
        }
        done.set(x, true);
        rec.set(x, true);
        proof {
            let cur = *store;
            assert(cur.holds(e));
            assert(cur@[e] == cur.slots@[x as int].unwrap().node);
            if parent is Some {
                let p = parent.unwrap();
                assert(p.index as int != x as int);
                assert(cur.slots@[p.index as int] == before.slots@[p.index as int]);
                assert(cur.holds(p));
            }
            assert(fresh_from(cur@, e, lm0, *to_matrix, *combine));
            lemma_settle_keeps(s0@, before, cur, done0, rec0, x as int, true, *to_matrix, *combine);
        }
    } else {
        done.set(x, true);
        rec.set(x, false);
        proof {
            let cur = *store;
            assert(ancestor_at(m0, e, 0) == Some(e));
            lemma_settle_keeps(s0@, before, cur, done0, rec0, x as int, false, *to_matrix, *combine);
        }
    }
}

/// Settling one slot leaves every slot settled earlier as it was.
pub(crate) proof fn lemma_settle_keeps<L, W, F: Fn(&L) -> W, G: Fn(&W, &W) -> W>(
    s0: TransformStore<L, W>,
    before: TransformStore<L, W>,
    cur: TransformStore<L, W>,
    done0: Seq<bool>,
    rec0: Seq<bool>,
    x: int,
    r: bool,
    to_matrix: F,
    combine: G,
)
    requires
        s0.wf(),
        consistent(s0@),
        sweeping(s0, before, done0, rec0, to_matrix, combine),
        s0.occupied(x),
        !done0[x],
        parent_settled(s0, done0, x),
        cur.any_dirty == before.any_dirty,
        cur.slots@.len() == before.slots@.len(),
        forall|t: int| 0 <= t < before.slots@.len() && t != x ==> cur.slots@[t] == before.slots@[t],
        cur.slots@[x] is Some,
        cur.slots@[x].unwrap().generation == before.slots@[x].unwrap().generation,
        cur.slots@[x].unwrap().node.local == before.slots@[x].unwrap().node.local,
        cur.slots@[x].unwrap().node.parent == before.slots@[x].unwrap().node.parent,
        !cur.slots@[x].unwrap().node.dirty,
        r == needs_recompute(s0@, entity_at(s0, x)),
        r ==> fresh(cur@, entity_at(s0, x), to_matrix, combine),
        !r ==> cur.slots@[x].unwrap().node.world == before.slots@[x].unwrap().node.world,
    ensures
        sweeping(s0, cur, done0.update(x, true), rec0.update(x, r), to_matrix, combine),
{
    let done1 = done0.update(x, true);
    let rec1 = rec0.update(x, r);
    assert(before.slots@[x] == s0.slots@[x]);
    assert forall|t: int| #[trigger] s0.occupied(t) && done1[t] implies settled(
        s0,
        cur,
        done1,
        rec1,
        t,
        to_matrix,
        combine,
    ) by {
        if t == x {
            if s0.slots@[x].unwrap().node.parent is Some {
                lemma_parent_slot(s0, x);
            }
        } else {
            assert(settled(s0, before, done0, rec0, t, to_matrix, combine));
            let e = entity_at(s0, t);
            assert(before.holds(e));
            assert(cur.holds(e));
            assert(cur.slots@[t] == before.slots@[t]);
            let o = cur.slots@[t].unwrap();
            if o.node.parent is Some {
                lemma_parent_slot(s0, t);
                let p = o.node.parent.unwrap();
                assert(p.index as int != x);
                assert(cur.slots@[p.index as int] == before.slots@[p.index as int]);
                assert(before.holds(p));
                assert(cur.holds(p));
            }
            if rec0[t] {
                lemma_fresh_stable(before@, cur@, e, to_matrix, combine);
            }
        }
    }
    assert forall|t: int| #[trigger] s0.occupied(t) implies cur.slots@[t].unwrap().generation
        == s0.slots@[t].unwrap().generation && cur.slots@[t].unwrap().node.local
        == s0.slots@[t].unwrap().node.local && cur.slots@[t].unwrap().node.parent
        == s0.slots@[t].unwrap().node.parent by {
        if t != x {
            assert(cur.slots@[t] == before.slots@[t]);
        }
    }
    assert forall|t: int| 0 <= t < s0.slots@.len() implies ((#[trigger] cur.slots@[t]) is Some
        <==> s0.slots@[t] is Some) by {
        if t != x {
            assert(cur.slots@[t] == before.slots@[t]);
            assert(before.slots@[t] is Some <==> s0.slots@[t] is Some);
        }
    }
    assert forall|t: int| #[trigger] s0.occupied(t) && !done1[t] implies cur.slots@[t]
        == s0.slots@[t] by {
        assert(cur.slots@[t] == before.slots@[t]);
    }
}

/// Collects the unsettled slots from `i` upwards: `i`, its parent, and so on
/// until a slot whose parent is settled or which has none.
fn climb<L, W>(
    store: &TransformStore<L, W>,
    done: &Vec<bool>,
    i: usize,
    s0: Ghost<TransformStore<L, W>>,
    rank: Ghost<spec_fn(Entity) -> nat>,
) -> (chain: Vec<usize>)
    requires
        s0@.wf(),
        consistent(s0@@),
        ranked(s0@@, rank@),
        same_links(s0@, *store),
        done@.len() == s0@.slots@.len(),
        s0@.occupied(i as int),
        !done@[i as int],
    ensures
        chain@.len() >= 1,
        chain@[0] == i,
        chain_ok(s0@, done@, chain@, rank@),
        parent_settled(s0@, done@, chain@.last() as int),
{
    let mut chain: Vec<usize> = Vec::new();
    chain.push(i);
    let mut cur: usize = i;
    let mut climbing: bool = true;
    while climbing
        invariant
            s0@.wf(),
            consistent(s0@@),
            ranked(s0@@, rank@),
            same_links(s0@, *store),
            done@.len() == s0@.slots@.len(),
            chain@.len() >= 1,
            chain@[0] == i,
            chain@.last() == cur,
            chain_ok(s0@, done@, chain@, rank@),
            !climbing ==> parent_settled(s0@, done@, cur as int),
        decreases
            rank@(entity_at(s0@, cur as int)) + if climbing {
                1nat
            } else {
                0nat
            },
    {
        assert(s0@.occupied(chain@[chain@.len() - 1] as int));
        let parent: Option<Entity> = store.slots[cur].as_ref().unwrap().node.parent;
        match parent {
            Some(p) => {
                let pi: usize = p.index as usize;
                proof {
                    lemma_parent_slot(s0@, cur as int);
                }
                if done[pi] {
                    climbing = false;
                } else {
                    proof {
                        let old_chain = chain@;
                        let new_chain = old_chain.push(pi);
                        let ec = entity_at(s0@, cur as int);
                        assert(s0@@.dom().contains(ec));
                        assert(rank@(ec) > rank@(p));
                        assert forall|a: int, b: int|
                            0 <= a < b < new_chain.len() implies rank@(
                            entity_at(s0@, #[trigger] new_chain[a] as int),
                        ) > rank@(entity_at(s0@, #[trigger] new_chain[b] as int)) by {
                            if b == old_chain.len() {
                                if a < old_chain.len() - 1 {
                                    assert(rank@(entity_at(s0@, old_chain[a] as int)) > rank@(
                                        entity_at(s0@, old_chain[old_chain.len() - 1] as int),
                                    ));
                                }
                            } else {
                                assert(rank@(entity_at(s0@, old_chain[a] as int)) > rank@(
                                    entity_at(s0@, old_chain[b] as int),
                                ));
                            }
                        }
                        assert forall|j: int| 0 <= j < new_chain.len() - 1 implies s0@.slots@[(
                        #[trigger] new_chain[j]) as int].unwrap().node.parent == Some(
                            entity_at(s0@, new_chain[j + 1] as int),
                        ) by {
                            if j < old_chain.len() - 1 {
                                assert(s0@.slots@[old_chain[j] as int].unwrap().node.parent == Some(
                                    entity_at(s0@, old_chain[j + 1] as int),
                                ));
                            }
                        }
                        assert forall|j: int| 0 <= j < new_chain.len() implies s0@.occupied(
                            #[trigger] new_chain[j] as int,
                        ) && !done@[new_chain[j] as int] by {
                            if j < old_chain.len() {
                                assert(s0@.occupied(old_chain[j] as int));
                            }
                        }
                    }
                    chain.push(pi);
                    cur = pi;
                }
            },
            None => {
                climbing = false;
            },
        }
    }
    chain
}

/// Settles the slots of a chain, from its far end down to its start.
fn settle_chain<L, W, F: Fn(&L) -> W, G: Fn(&W, &W) -> W>(
    store: &mut TransformStore<L, W>,
    done: &mut Vec<bool>,
    rec: &mut Vec<bool>,
    chain: Vec<usize>,
    s0: Ghost<TransformStore<L, W>>,
    rank: Ghost<spec_fn(Entity) -> nat>,
    to_matrix: &F,
    combine: &G,
)
    requires
        s0@.wf(),
        consistent(s0@@),
        sweeping(s0@, *old(store), old(done)@, old(rec)@, *to_matrix, *combine),
        chain@.len() >= 1,
        chain_ok(s0@, old(done)@, chain@, rank@),
        parent_settled(s0@, old(done)@, chain@.last() as int),
        forall|l: &L| to_matrix.requires((l,)),
        forall|a: &W, b: &W| combine.requires((a, b)),
    ensures
        sweeping(s0@, *final(store), final(done)@, final(rec)@, *to_matrix, *combine),
        final(done)@[chain@[0] as int],
        forall|t: int| 0 <= t < old(done)@.len() && old(done)@[t] ==> final(done)@[t],
{
    let mut chain = chain;
    let ghost first = chain@[0];
    while chain.len() > 0
        invariant
            s0@.wf(),
            consistent(s0@@),
            sweeping(s0@, *store, done@, rec@, *to_matrix, *combine),
            chain_ok(s0@, done@, chain@, rank@),
            chain@.len() > 0 ==> parent_settled(s0@, done@, chain@.last() as int),
            chain@.len() > 0 ==> chain@[0] == first,
            chain@.len() == 0 ==> done@[first as int],
            0 <= first < done@.len(),
            done@.len() == old(done)@.len(),
            forall|t: int| 0 <= t < old(done)@.len() && old(done)@[t] ==> done@[t],
            forall|l: &L| to_matrix.requires((l,)),
            forall|a: &W, b: &W| combine.requires((a, b)),
        decreases chain@.len(),
    {
        let ghost full = chain@;
        let ghost done0 = done@;
        let x: usize = chain.pop().unwrap();
        assert(s0@.occupied(full[full.len() - 1] as int));
        settle(store, done, rec, x, s0, to_matrix, combine);
        proof {
            let rest = chain@;
            assert(rest == full.drop_last());
            assert forall|j: int| 0 <= j < rest.len() implies s0@.occupied(
                #[trigger] rest[j] as int,
            ) && !done@[rest[j] as int] by {
                assert(s0@.occupied(full[j] as int) && !done0[full[j] as int]);
                assert(rank@(entity_at(s0@, full[j] as int)) > rank@(
                    entity_at(s0@, full[full.len() - 1] as int),
                ));
            }
            assert forall|j: int| 0 <= j < rest.len() - 1 implies s0@.slots@[(
            #[trigger] rest[j]) as int].unwrap().node.parent == Some(
                entity_at(s0@, rest[j + 1] as int),
            ) by {
                assert(s0@.slots@[full[j] as int].unwrap().node.parent == Some(
                    entity_at(s0@, full[j + 1] as int),
                ));
            }
            assert forall|a: int, b: int| 0 <= a < b < rest.len() implies rank@(
                entity_at(s0@, #[trigger] rest[a] as int),
            ) > rank@(entity_at(s0@, #[trigger] rest[b] as int)) by {
                assert(rank@(entity_at(s0@, full[a] as int)) > rank@(
                    entity_at(s0@, full[b] as int),
                ));
            }
            if rest.len() > 0 {
                assert(s0@.slots@[full[full.len() - 2] as int].unwrap().node.parent == Some(
                    entity_at(s0@, full[full.len() - 1] as int),
                ));
            }
        }
    }
}

/// Once every occupied slot is settled, the store is what a propagation
/// promises, and it is sound with every dirty mark cleared.
pub(crate) proof fn lemma_sweep_done<L, W, F: Fn(&L) -> W, G: Fn(&W, &W) -> W>(
    s0: TransformStore<L, W>,
    cur: TransformStore<L, W>,
    done: Seq<bool>,
    rec: Seq<bool>,
    to_matrix: F,
    combine: G,
)
    requires
        s0.wf(),
        consistent(s0@),
        sweeping(s0, cur, done, rec, to_matrix, combine),
        forall|t: int| #[trigger] s0.occupied(t) ==> done[t],
    ensures
        propagated(s0@, cur@, to_matrix, combine),
        sound(cur@),
        all_clean(cur@),
{
    let m0 = s0@;
    let m1 = cur@;
    assert forall|e: Entity| m1.dom().contains(e) <==> m0.dom().contains(e) by {
        if (e.index as int) < s0.slots@.len() {
            let t = e.index as int;
            assert(cur.slots@[t] is Some <==> s0.slots@[t] is Some);
            if s0.occupied(t) {
            }
        }
    }
    assert(m1.dom() =~= m0.dom());
    assert forall|e: Entity| m0.dom().contains(e) implies m1[e].local == m0[e].local
        && m1[e].parent == m0[e].parent && !m1[e].dirty && (!needs_recompute(m0, e) ==> m1[e].world
        == m0[e].world) && (needs_recompute(m0, e) ==> fresh(m1, e, to_matrix, combine))
        && m1[e].world is Some by {
        let t = e.index as int;
        assert(s0.holds(e));
        assert(s0.occupied(t));
        assert(entity_at(s0, t) == e);
        assert(settled(s0, cur, done, rec, t, to_matrix, combine));
        if !needs_recompute(m0, e) {
            assert(ancestor_at(m0, e, 0) == Some(e));
            assert(!marked(m0, e));
        }
    }
    let rank = choose|rank: spec_fn(Entity) -> nat| ranked(m0, rank);
    assert(ranked(m1, rank)) by {
        assert forall|c: Entity| #[trigger]
            m1.dom().contains(c) && m1[c].parent is Some implies rank(c) > rank(
            m1[c].parent.unwrap(),
        ) by {
            assert(m0.dom().contains(c));
        }
    }
    assert forall|c: Entity| #[trigger] m1.dom().contains(c) && !m1[c].dirty implies m1[c].world is Some
        && !dangling(m1, c) by {
        assert(m0.dom().contains(c));
        assert(!dangling(m0, c));
    }
    assert forall|e: Entity| !marked(m1, e) by {
        if m1.dom().contains(e) {
            assert(m0.dom().contains(e));
        }
    }
}

/// Recomputes the world matrix of every entity that is dirty or has a dirty
/// ancestor, each after its parent, and clears every dirty mark. World
/// matrices of other entities are not touched, so a second call in a row
/// changes nothing.
///
/// A parent link that names an entity without a transform is reported; the
/// store is then left as it was.
pub fn propagate<L, W, F: Fn(&L) -> W, G: Fn(&W, &W) -> W>(
    store: &mut TransformStore<L, W>,
    to_matrix: F,
    combine: G,
) -> (r: Result<(), InconsistentStore>)
    requires
        old(store).wf(),
        forall|l: &L| to_matrix.requires((l,)),
        forall|a: &W, b: &W| combine.requires((a, b)),
    ensures
        final(store).wf(),
        match r {
            Ok(_) => consistent(old(store)@) && propagated(
                old(store)@,
                final(store)@,
                to_matrix,
                combine,
            ),
            Err(x) => dangling(old(store)@, x.entity) && final(store)@ == old(store)@ && forall|
                c: Entity,
            | dangling(old(store)@, c) ==> x.entity.index <= c.index,
        },
{
    let ghost s0 = *store;
    let ghost m0 = store@;
    if !store.any_dirty {
        proof {
            assert(all_clean(m0));
            assert forall|e: Entity| #[trigger] m0.dom().contains(e) implies !m0[e].dirty
                && !dangling(m0, e) && !needs_recompute(m0, e) by {
                assert(!marked(m0, e));
                lemma_clean_needs_nothing(m0, e);
            }
        }
        return Ok(());
    }
    let n: usize = store.slots.len();
    let mut j: usize = 0;
    while j < n
        invariant
            j <= n,
            n == store.slots@.len(),
            *store == s0,
            s0.wf(),
            forall|c: Entity| dangling(m0, c) ==> c.index >= j,
            m0 == s0@,
        decreases n - j,
    {
        match &store.slots[j] {
            Some(o) => {
                let ghost c = Entity { index: j as u32, generation: o.generation };
                proof {
                    assert(s0.holds(c));
                    assert forall|d: Entity| m0.dom().contains(d) && d.index == j implies d == c by {
                        assert(s0.holds(d));
                    }
                }
                match o.node.parent {
                    Some(p) => {
                        if !store.contains(p) {
                            return Err(
                                InconsistentStore {
                                    entity: Entity { index: j as u32, generation: o.generation },
                                },
                            );
                        }
                    },
                    None => {},
                }
            },
            None => {
                proof {
                    assert forall|d: Entity| m0.dom().contains(d) implies d.index != j by {
                        assert(s0.holds(d));
                    }
                }
            },
        }
        j = j + 1;
    }
    proof {
        assert forall|c: Entity| !dangling(m0, c) by {
            if dangling(m0, c) {
                assert(s0.holds(c));
            }
        }
    }
    let mut done: Vec<bool> = Vec::new();
    let mut rec: Vec<bool> = Vec::new();
    while done.len() < n
        invariant
            done@.len() == rec@.len(),
            done@.len() <= n,
            forall|t: int| 0 <= t < done@.len() ==> !done@[t],
        decreases n - done@.len(),
    {
        done.push(false);
        rec.push(false);
    }
    let rank: Ghost<spec_fn(Entity) -> nat> = Ghost(
        choose|rank: spec_fn(Entity) -> nat| ranked(m0, rank),
    );
    let mut i: usize = 0;
    while i < n
        invariant
            i <= n,
            n == s0.slots@.len(),
            s0.wf(),
            m0 == s0@,
            consistent(m0),
            ranked(m0, rank@),
            sweeping(s0, *store, done@, rec@, to_matrix, combine),
            forall|t: int| 0 <= t < i && #[trigger] s0.occupied(t) ==> done@[t],
            forall|l: &L| to_matrix.requires((l,)),
            forall|a: &W, b: &W| combine.requires((a, b)),
        decreases n - i,
    {
        if store.slots[i].is_some() && !done[i] {
            assert(s0.occupied(i as int));
            let chain = climb(store, &done, i, Ghost(s0), rank);
            settle_chain(store, &mut done, &mut rec, chain, Ghost(s0), rank, &to_matrix, &combine);
        }
        i = i + 1;
    }
    let ghost swept = *store;
    store.any_dirty = false;
    proof {
        lemma_sweep_done(s0, swept, done@, rec@, to_matrix, combine);
        assert(store@ =~= swept@);
    }
    Ok(())
}

/// An entity below a dirty one must be recomputed, whether or not it was
/// marked itself.
pub proof fn lemma_descendant_of_dirty_needs_recompute<L, W>(
    m: Map<Entity, TransformNode<L, W>>,
    ancestor: Entity,
    e: Entity,
)
    requires
        m.dom().contains(e),
        reaches(m, e, ancestor),
        marked(m, ancestor),
    ensures
        needs_recompute(m, e),
{
    let k = choose|k: nat| ancestor_at(m, e, k) == Some(ancestor);
    assert(ancestor_at(m, e, k) is Some && marked(m, ancestor_at(m, e, k).unwrap()));
}

/// After a propagation, the child of an entity that was dirty has a world
/// matrix computed from its parent's new world matrix, also when the child
/// itself was never marked.
pub proof fn lemma_child_follows_dirty_parent<L, W, F: Fn(&L) -> W, G: Fn(&W, &W) -> W>(
    pre: Map<Entity, TransformNode<L, W>>,
    post: Map<Entity, TransformNode<L, W>>,
    to_matrix: F,
    combine: G,
    parent: Entity,
    child: Entity,
)
    requires
        propagated(pre, post, to_matrix, combine),
        pre.dom().contains(child),
        pre[child].parent == Some(parent),
        marked(pre, parent),
    ensures
        fresh(post, parent, to_matrix, combine),
        fresh(post, child, to_matrix, combine),
        post[child].parent == Some(parent),
        exists|lm: W|
            to_matrix.ensures((&pre[child].local,), lm) && combine.ensures(
                (&post[parent].world.unwrap(), &lm),
                post[child].world.unwrap(),
            ),
{
    assert(ancestor_at(pre, parent, 0) == Some(parent));
    assert(needs_recompute(pre, parent));
    lemma_needs_recompute_unfold(pre, child);
    assert(needs_recompute(pre, child));
    let lm = choose|lm: W| fresh_from(post, child, lm, to_matrix, combine);
    assert(to_matrix.ensures((&pre[child].local,), lm) && combine.ensures(
        (&post[parent].world.unwrap(), &lm),
        post[child].world.unwrap(),
    ));
}

/// A propagation over a store in which nothing is dirty changes nothing.
pub proof fn lemma_clean_store_is_left_alone<L, W, F: Fn(&L) -> W, G: Fn(&W, &W) -> W>(
    pre: Map<Entity, TransformNode<L, W>>,
    post: Map<Entity, TransformNode<L, W>>,
    to_matrix: F,
    combine: G,
)
    requires
        all_clean(pre),
        propagated(pre, post, to_matrix, combine),
    ensures
        post == pre,
{
    assert forall|e: Entity| pre.dom().contains(e) implies post[e] == pre[e] by {
        lemma_clean_needs_nothing(pre, e);
        assert(!marked(pre, e));
    }
    assert(post =~= pre);
}

/// A propagation leaves nothing dirty.
pub proof fn lemma_propagation_cleans<L, W, F: Fn(&L) -> W, G: Fn(&W, &W) -> W>(
    pre: Map<Entity, TransformNode<L, W>>,
    post: Map<Entity, TransformNode<L, W>>,
    to_matrix: F,
    combine: G,
)
    requires
        propagated(pre, post, to_matrix, combine),
    ensures
        all_clean(post),
{
    assert forall|e: Entity| !marked(post, e) by {
        if post.dom().contains(e) {
            assert(pre.dom().contains(e));
        }
    }
}

/// A propagation that follows another, with nothing marked in between,
/// changes nothing: not a world matrix, not a mark, not a link.
pub proof fn lemma_second_propagation_changes_nothing<L, W, F: Fn(&L) -> W, G: Fn(&W, &W) -> W>(
    start: Map<Entity, TransformNode<L, W>>,
    once: Map<Entity, TransformNode<L, W>>,
    twice: Map<Entity, TransformNode<L, W>>,
    to_matrix: F,
    combine: G,
)
    requires
        propagated(start, once, to_matrix, combine),
        propagated(once, twice, to_matrix, combine),
    ensures
        twice == once,
{
    lemma_propagation_cleans(start, once, to_matrix, combine);
    lemma_clean_store_is_left_alone(once, twice, to_matrix, combine);
}

} // verus!
