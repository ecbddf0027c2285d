//! The orbit camera controller.
//!
//! A camera circles a target point at a distance, turned by a yaw and tilted
//! by a pitch. The orbit state is the source of truth: at every update the
//! camera's local transform is derived from it anew, by a function that the
//! caller hands in, and written to the transform store.
//!
//! Angles are counted in thousandths of a degree and lengths in thousandths
//! of a world unit, so that wrapping and clamping are exact.

use vstd::prelude::*;
use vstd::arithmetic::div_mod::{lemma_mod_multiples_vanish, lemma_mod_bound};
use crate::entity::{after_spawn, spawned, Entity, EntityRegistry};
use crate::hierarchy::inserted;
use crate::transform::{with_local, with_mark, TransformStore};

verus! {

/// A full turn, in thousandths of a degree.
pub const FULL_TURN: i32 = 360_000;

/// A quarter turn: the pitch of the poles, where the orbit would flip over.
pub const QUARTER_TURN: i32 = 90_000;

/// The largest pitch, up or down, that the camera is allowed: one degree
/// short of the poles.
pub const PITCH_LIMIT: i32 = 89_000;

/// The smallest distance between camera and target, in thousandths of a
/// world unit.
pub const MIN_DISTANCE: u32 = 100;

/// A point, in thousandths of a world unit.
#[derive(Clone, Copy, Debug, PartialEq, Eq, Structural)]
pub struct Point {
    pub x: i32,
    pub y: i32,
    pub z: i32,
}

/// Where an orbit camera is, relative to its target.
#[derive(Clone, Copy, Debug, PartialEq, Eq, Structural)]
pub struct OrbitState {
    pub target: Point,
    /// From `MIN_DISTANCE` up.
    pub distance: u32,
    /// From zero up to, but not including, `FULL_TURN`.
    pub yaw: i32,
    /// Between `-PITCH_LIMIT` and `PITCH_LIMIT`.
    pub pitch: i32,
}

/// What the pointer and the scroll wheel asked for since the last update.
#[derive(Clone, Copy, Debug, PartialEq, Eq, Structural)]
pub struct OrbitInput {
    pub yaw_delta: i32,
    pub pitch_delta: i32,
    /// How far to move towards the target; negative to move away.
    pub zoom_delta: i32,
}

/// The angle brought into one full turn, counted from zero.
pub open spec fn wrap_turn(angle: int) -> int {
    angle % (FULL_TURN as int)
}

/// The pitch held within the limit on either side.
pub open spec fn clamp_pitch(pitch: int) -> int {
    if pitch < -PITCH_LIMIT {
        -PITCH_LIMIT as int
    } else if pitch > PITCH_LIMIT {
        PITCH_LIMIT as int
    } else {
        pitch
    }
}

/// The distance held at or above the minimum, and within what a distance
/// can hold.
pub open spec fn clamp_distance(distance: int) -> int {
    if distance < MIN_DISTANCE {
        MIN_DISTANCE as int
    } else if distance > u32::MAX {
        u32::MAX as int
    } else {
        distance
    }
}

/// The orbit state for the values asked for: yaw wrapped, pitch and
/// distance clamped.
pub open spec fn normalized(target: Point, distance: u32, yaw: i32, pitch: i32) -> OrbitState {
    OrbitState {
        target,
        distance: clamp_distance(distance as int) as u32,
        yaw: wrap_turn(yaw as int) as i32,
        pitch: clamp_pitch(pitch as int) as i32,
    }
}

/// The orbit state after one update: yaw turned and wrapped, pitch tilted
/// and clamped, distance shortened by the zoom and clamped.
pub open spec fn advanced(state: OrbitState, input: OrbitInput) -> OrbitState {
    OrbitState {
        target: state.target,
        distance: clamp_distance(state.distance - input.zoom_delta) as u32,
        yaw: wrap_turn(state.yaw + input.yaw_delta) as i32,
        pitch: clamp_pitch(state.pitch + input.pitch_delta) as i32,
    }
}

/// Whole turns enough to lift any sum of two angles above zero.
const LIFT_TURNS: i64 = 11931;

/// Wrapping an angle into a full turn.
fn wrap(angle: i64) -> (r: i32)
    requires
        -0x1_0000_0000 <= angle <= 0x1_0000_0000,
    ensures
        r == wrap_turn(angle as int),
        0 <= r < FULL_TURN,
{
    let turn: i64 = FULL_TURN as i64;
    let lifted: i64 = angle + LIFT_TURNS * turn;
    let r: i64 = lifted % turn;
    proof {
        lemma_mod_multiples_vanish(LIFT_TURNS as int, angle as int, turn as int);
        lemma_mod_bound(angle as int, turn as int);
    }
    r as i32
}

/// Clamping a pitch to the limit.
fn clamp_tilt(pitch: i64) -> (r: i32)
    ensures
        r == clamp_pitch(pitch as int),
        -PITCH_LIMIT <= r <= PITCH_LIMIT,
{
    if pitch < -(PITCH_LIMIT as i64) {
        -PITCH_LIMIT
    } else if pitch > PITCH_LIMIT as i64 {
        PITCH_LIMIT
    } else {
        pitch as i32
    }
}

/// Clamping a distance to what is allowed.
fn clamp_reach(distance: i64) -> (r: u32)
    ensures
        r == clamp_distance(distance as int),
        r >= MIN_DISTANCE,
{
    if distance < MIN_DISTANCE as i64 {
        MIN_DISTANCE
    } else if distance > u32::MAX as i64 {
        u32::MAX
    } else {
        distance as u32
    }
}

impl OrbitState {
    /// Yaw lies in one turn, pitch off the poles, distance off the target.
    pub open spec fn within_limits(&self) -> bool {
        &&& self.distance >= MIN_DISTANCE
        &&& 0 <= self.yaw < FULL_TURN
        &&& -PITCH_LIMIT <= self.pitch <= PITCH_LIMIT
    }

    /// The orbit state for the values asked for, brought within limits.
    pub fn new(target: Point, distance: u32, yaw: i32, pitch: i32) -> (s: OrbitState)
        ensures
            s == normalized(target, distance, yaw, pitch),
            s.within_limits(),
    {
        OrbitState {
            target,
            distance: clamp_reach(distance as i64),
            yaw: wrap(yaw as i64),
            pitch: clamp_tilt(pitch as i64),
        }
    }

    /// The orbit state after one update with `input`.
    pub fn advance(&self, input: OrbitInput) -> (s: OrbitState)
        ensures
            s == advanced(*self, input),
            s.within_limits(),
            -QUARTER_TURN < s.pitch < QUARTER_TURN,
            s.distance > 0,
    {
        OrbitState {
            target: self.target,
            distance: clamp_reach(self.distance as i64 - input.zoom_delta as i64),
            yaw: wrap(self.yaw as i64 + input.yaw_delta as i64),
            pitch: clamp_tilt(self.pitch as i64 + input.pitch_delta as i64),
        }
    }
}

/// Whatever tilt is asked for, from whatever state, the pitch after an
/// update lies strictly between the poles.
pub proof fn lemma_pitch_stays_off_the_poles(state: OrbitState, input: OrbitInput)
    ensures
        -QUARTER_TURN < advanced(state, input).pitch < QUARTER_TURN,
        -PITCH_LIMIT <= advanced(state, input).pitch <= PITCH_LIMIT,
{
}

/// Whatever turn is asked for, the yaw after an update lies within one full
/// turn, and differs from the sum by whole turns only.
pub proof fn lemma_yaw_wraps(state: OrbitState, input: OrbitInput)
    ensures
        0 <= advanced(state, input).yaw < FULL_TURN,
        (state.yaw + input.yaw_delta - advanced(state, input).yaw) % (FULL_TURN as int) == 0,
{
    let a = state.yaw + input.yaw_delta;
    lemma_mod_bound(a, FULL_TURN as int);
    vstd::arithmetic::div_mod::lemma_fundamental_div_mod(a, FULL_TURN as int);
    let q = a / (FULL_TURN as int);
    assert(a - a % (FULL_TURN as int) == (FULL_TURN as int) * q);
    lemma_mod_multiples_vanish(q, 0, FULL_TURN as int);
}

/// Whatever zoom is asked for, the camera keeps off its target.
pub proof fn lemma_distance_stays_positive(state: OrbitState, input: OrbitInput)
    ensures
        advanced(state, input).distance >= MIN_DISTANCE > 0,
{
}

/// An update without input leaves a state within limits as it is.
pub proof fn lemma_no_input_no_change(state: OrbitState)
    requires
        state.within_limits(),
    ensures
        advanced(state, (OrbitInput { yaw_delta: 0, pitch_delta: 0, zoom_delta: 0 })) == state,
{
    vstd::arithmetic::div_mod::lemma_small_mod(state.yaw as nat, FULL_TURN as nat);
}

/// The orbit state kept for one camera, with the generation of its entity.
struct CameraSlot {
    generation: u32,
    state: OrbitState,
}

/// The cameras with `e` registered in state `state`. A camera left behind in
/// the slot of `e` by an earlier entity is dropped.
pub open spec fn registered(m: Map<Entity, OrbitState>, e: Entity, state: OrbitState) -> Map<
    Entity,
    OrbitState,
> {
    Map::new(
        |x: Entity| x == e || (m.dom().contains(x) && x.index != e.index),
        |x: Entity|
            if x == e {
                state
            } else {
                m[x]
            },
    )
}

/// Keeps the orbit state of every camera and moves the cameras.
pub struct OrbitCameraController {
    cameras: Vec<Option<CameraSlot>>,
}

impl OrbitCameraController {
    /// The controller holds a camera for exactly the handle `e`.
    closed spec fn holds(&self, e: Entity) -> bool {
        &&& (e.index as int) < self.cameras@.len()
        &&& self.cameras@[e.index as int] is Some
        &&& self.cameras@[e.index as int].unwrap().generation == e.generation
    }

    /// The controller as a map from camera entities to their orbit states.
    pub closed spec fn view(&self) -> Map<Entity, OrbitState> {
        Map::new(
            |e: Entity| self.holds(e),
            |e: Entity| self.cameras@[e.index as int].unwrap().state,
        )
    }

    /// Every camera's state is within limits.
    pub closed spec fn wf(&self) -> bool {
        forall|e: Entity| #[trigger] self@.dom().contains(e) ==> self@[e].within_limits()
    }

    /// A controller without cameras.
    pub fn new() -> (c: Self)
        ensures
            c.wf(),
            c@ == Map::<Entity, OrbitState>::empty(),
    {
        let c = OrbitCameraController { cameras: Vec::new() };
        proof {
            assert(c@ =~= Map::<Entity, OrbitState>::empty());
        }
        c
    }

    /// The orbit state of camera `e`; none if `e` is not alive or is not a
    /// camera of this controller.
    pub fn orbit_state(&self, registry: &EntityRegistry, e: Entity) -> (r: Option<OrbitState>)
        ensures
            r == if registry.alive(e) && self@.dom().contains(e) {
                Some(self@[e])
            } else {
                None
            },
    {
        if !registry.is_alive(e) {
            return None;
        }
        let i: usize = e.index as usize;
        if i < self.cameras.len() {
            match &self.cameras[i] {
                Some(c) => {
                    if c.generation == e.generation {
                        Some(c.state)
                    } else {
                        None
                    }
                },
                None => None,
            }
        } else {
            None
        }
    }

    /// Registers `e` as a camera in state `state`.
    fn register(&mut self, e: Entity, state: OrbitState)
        requires
            old(self).wf(),
            state.within_limits(),
        ensures
            final(self).wf(),
            final(self)@ == registered(old(self)@, e, state),
    {
        let i: usize = e.index as usize;
        while self.cameras.len() <= i
            invariant
                self.wf(),
                self@ == old(self)@,
            decreases i + 1 - self.cameras@.len(),
        {
            let ghost prev = *self;
            self.cameras.push(None);
            proof {
                assert forall|x: Entity| self.holds(x) <==> prev.holds(x) by {}
                assert(self@ =~= prev@);
            }
        }
        let ghost grown = *self;
        self.cameras.set(i, Some(CameraSlot { generation: e.generation, state }));
        proof {
            assert forall|x: Entity| self.holds(x) <==> (x == e || (grown.holds(x) && x.index
                != e.index)) by {}
            assert(self@ =~= registered(old(self)@, e, state));
        }
    }

    /// Stops steering `e` and tells whether it was a camera. Its entity and
    /// its transform stay as they are.
    pub fn detach(&mut self, e: Entity) -> (was_camera: bool)
        requires
            old(self).wf(),
        ensures
            final(self).wf(),
            was_camera == old(self)@.dom().contains(e),
            final(self)@ == old(self)@.remove(e),
    {
        let i: usize = e.index as usize;
        let found: bool = if i < self.cameras.len() {
            match &self.cameras[i] {
                Some(c) => c.generation == e.generation,
                None => false,
            }
        } else {
            false
        };
        if found {
            let ghost prev = *self;
            self.cameras.set(i, None);
            proof {
                assert forall|x: Entity| self.holds(x) <==> (prev.holds(x) && x != e) by {}
                assert(self@ =~= old(self)@.remove(e));
            }
        } else {
            proof {
                assert(self@ =~= old(self)@.remove(e));
            }
        }
        found
    }

    /// Creates an entity and makes it an orbit camera: the orbit state is the
    /// one asked for, brought within limits, and the entity gets a root
    /// transform that `pose` derives from that state.
    pub fn spawn_orbit_camera<L, W, F: Fn(&OrbitState) -> L>(
        &mut self,
        registry: &mut EntityRegistry,
        store: &mut TransformStore<L, W>,
        target: Point,
        distance: u32,
        yaw: i32,
        pitch: i32,
        pose: F,
    ) -> (e: Entity)
        requires
            old(self).wf(),
            old(registry).wf(),
            old(registry).can_spawn(),
            old(store).wf(),
            forall|s: &OrbitState| pose.requires((s,)),
        ensures
            final(self).wf(),
            final(registry).wf(),
            final(store).wf(),
            e == spawned(old(registry)@),
            final(registry)@ == after_spawn(old(registry)@),
            final(self)@ == registered(old(self)@, e, normalized(target, distance, yaw, pitch)),
            exists|local: L|
                pose.ensures((&normalized(target, distance, yaw, pitch),), local) && final(store)@
                    == inserted(old(store)@, e, local, None),
    {
        let e: Entity = registry.spawn();
        let state: OrbitState = OrbitState::new(target, distance, yaw, pitch);
        let local: L = pose(&state);
        let ghost l0 = local;
        let r = store.insert(registry, e, local, None);
        assert(r is Ok);
        self.register(e, state);
        proof {
            assert(pose.ensures((&normalized(target, distance, yaw, pitch),), l0) && store@
                == inserted(old(store)@, e, l0, None));
        }
        e
    }

    /// One step of camera `e`: the input is applied to its orbit state, the
    /// local transform that `pose` derives from the new state is written to
    /// the store, and `e` is marked dirty. Returns the new state.
    ///
    /// Nothing happens, and none is returned, if `e` is not alive, is not a
    /// camera of this controller, or has no transform in the store.
    pub fn update<L, W, F: Fn(&OrbitState) -> L>(
        &mut self,
        registry: &EntityRegistry,
        store: &mut TransformStore<L, W>,
        e: Entity,
        input: OrbitInput,
        pose: F,
    ) -> (r: Option<OrbitState>)
        requires
            old(self).wf(),
            old(store).wf(),
            forall|s: &OrbitState| pose.requires((s,)),
        ensures
            final(self).wf(),
            final(store).wf(),
            r is Some <==> registry.alive(e) && old(self)@.dom().contains(e) && old(
                store,
            )@.dom().contains(e),
            r is None ==> final(self)@ == old(self)@ && final(store)@ == old(store)@,
            r is Some ==> r.unwrap() == advanced(old(self)@[e], input) && final(self)@ == old(
                self,
            )@.insert(e, r.unwrap()) && exists|local: L|
                pose.ensures((&r.unwrap(),), local) && final(store)@ == with_mark(
                    with_local(old(store)@, e, local),
                    e,
                ),
    {
        let current: OrbitState = match self.orbit_state(registry, e) {
            Some(s) => s,
            None => {
                return None;
            },
        };
        if !store.contains(e) {
            return None;
        }
        let next: OrbitState = current.advance(input);
        let local: L = pose(&next);
        let ghost l0 = local;
        match store.get_mut(registry, e) {
            Some(l) => {
                *l = local;
            },
            None => {},
        }
        assert(store@ == with_local(old(store)@, e, l0));
        store.mark_dirty(registry, e);
        let ghost prev = *self;
        self.cameras.set(e.index as usize, Some(CameraSlot { generation: e.generation, state: next }));
        proof {
            assert forall|x: Entity| self.holds(x) <==> prev.holds(x) by {}
            assert(self@ =~= old(self)@.insert(e, next));
            assert(pose.ensures((&next,), l0) && store@ == with_mark(
                with_local(old(store)@, e, l0),
                e,
            ));
        }
        Some(next)
    }
}

} // verus!
