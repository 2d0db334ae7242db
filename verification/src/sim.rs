//! The intensity simulation engine.
//!
//! The engine owns the effector set, the active event list and the floor
//! table. Events raise per-motor floors when they are added and lower them
//! again when they expire; every tick decays each vibration intensity and
//! clamps it back up to its floor. The whole state is mirrored by the
//! ghost [`SimModel`], and every operation's contract says exactly which
//! model the new state equals.

use vstd::math::max;
use vstd::prelude::*;
use vstd::seq_lib::*;

use crate::decay::{decay_factor, lemma_decay_bounds, spec_decay};
use crate::effector::{BPEffector, BPEffectorType};
use crate::event::{BPActionType, BPSimEvent};
use crate::units::{clamp0_sat, HALF_LIFE_US, LINEAR_REDUCTION, SCALE, THRESHOLD};

verus! {

/// One entry of the floor table: the motor it belongs to and the floor the
/// active events currently demand of it, in steps of `SCALE`.
#[derive(Clone, Copy, Debug, PartialEq, Eq, Structural)]
pub struct FloorEntry {
    pub motor: i8,
    pub floor: i64,
}

/// The mathematical state of the engine: the active events, the effector
/// set, the floor table and the instant of the last processed tick.
pub ghost struct SimModel {
    pub events: Seq<BPSimEvent>,
    pub effectors: Seq<BPEffector>,
    pub floors: Seq<FloorEntry>,
    pub last_sim_us: u64,
}

/// Whether some entry of the floor table belongs to `motor`.
pub open spec fn spec_has_floor(floors: Seq<FloorEntry>, motor: i8) -> bool {
    exists|i: int| 0 <= i < floors.len() && #[trigger] floors[i].motor == motor
}

/// The floor the table holds for `motor`, zero if the table has no entry
/// for it.
pub open spec fn spec_floor_of(floors: Seq<FloorEntry>, motor: i8) -> int {
    if spec_has_floor(floors, motor) {
        let i = choose|i: int| 0 <= i < floors.len() && #[trigger] floors[i].motor == motor;
        floors[i].floor as int
    } else {
        0
    }
}

/// The floor table after adding `delta` onto one motor's floor — or onto
/// every floor when `motor` is `-1` — clamped to stay non-negative. A
/// motor without an entry leaves the table unchanged.
pub open spec fn spec_update_floor(floors: Seq<FloorEntry>, motor: i8, delta: int) -> Seq<
    FloorEntry,
> {
    if motor == -1i8 {
        floors.map_values(
            |e: FloorEntry|
                (FloorEntry { motor: e.motor, floor: clamp0_sat(e.floor + delta) as i64 }),
        )
    } else if spec_has_floor(floors, motor) {
        floors.map_values(
            |e: FloorEntry|
                if e.motor == motor {
                    (FloorEntry { motor: e.motor, floor: clamp0_sat(e.floor + delta) as i64 })
                } else {
                    e
                },
        )
    } else {
        floors
    }
}

/// The floor table with every floor reset to zero.
pub open spec fn spec_zero_floors(floors: Seq<FloorEntry>) -> Seq<FloorEntry> {
    floors.map_values(|e: FloorEntry| (FloorEntry { motor: e.motor, floor: 0i64 }))
}

/// The floor table after registering `motor`: an existing entry is reset
/// to zero, a missing one is appended with floor zero.
pub open spec fn spec_floor_insert(floors: Seq<FloorEntry>, motor: i8) -> Seq<FloorEntry> {
    if spec_has_floor(floors, motor) {
        floors.map_values(
            |e: FloorEntry|
                if e.motor == motor {
                    (FloorEntry { motor: e.motor, floor: 0i64 })
                } else {
                    e
                },
        )
    } else {
        floors.push(FloorEntry { motor: motor, floor: 0i64 })
    }
}

impl SimModel {
    /// No two floor entries belong to the same motor.
    pub open spec fn floors_unique(self) -> bool {
        forall|i: int, j: int|
            0 <= i < j < self.floors.len() ==> #[trigger] self.floors[i].motor != (
            #[trigger] self.floors[j].motor)
    }

    /// Every floor is non-negative.
    pub open spec fn floors_nonneg(self) -> bool {
        forall|i: int| 0 <= i < self.floors.len() ==> (#[trigger] self.floors[i].floor) >= 0
    }

    /// Every vibration effector has a floor entry for its motor.
    pub open spec fn vib_effectors_have_floors(self) -> bool {
        forall|i: int|
            0 <= i < self.effectors.len() && (#[trigger] self.effectors[i].effector_type)
                is Vibrates ==> spec_has_floor(self.floors, self.effectors[i].index)
    }

    /// Every vibration intensity is non-negative.
    pub open spec fn intensities_nonneg(self) -> bool {
        forall|i: int|
            0 <= i < self.effectors.len() ==> match (#[trigger] self.effectors[i].effector_type) {
                BPEffectorType::Vibrates { intensity } => intensity >= 0,
                BPEffectorType::Strokes { .. } => true,
            }
    }

    /// A stop event is never tracked as active: adding one force-stops the
    /// engine instead of appending it.
    pub open spec fn no_stop_events(self) -> bool {
        forall|i: int| 0 <= i < self.events.len() ==> !((#[trigger] self.events[i].action) is Stop)
    }

    /// The engine invariant: constructors establish it and every operation
    /// preserves it. In particular the floor for any motor is never
    /// negative, whatever sequence of additions and retirements produced
    /// it.
    pub open spec fn wf(self) -> bool {
        &&& self.floors_unique()
        &&& self.floors_nonneg()
        &&& self.vib_effectors_have_floors()
        &&& self.intensities_nonneg()
        &&& self.no_stop_events()
    }
}

/// The model with its floor table replaced.
pub open spec fn spec_with_floors(m: SimModel, floors: Seq<FloorEntry>) -> SimModel {
    SimModel { events: m.events, effectors: m.effectors, floors: floors, last_sim_us: m.last_sim_us }
}

/// The model after a force stop: no active events, every floor zero, the
/// effectors and their current intensities untouched.
pub open spec fn spec_force_stop(m: SimModel) -> SimModel {
    SimModel {
        events: Seq::empty(),
        effectors: m.effectors,
        floors: spec_zero_floors(m.floors),
        last_sim_us: m.last_sim_us,
    }
}

/// The model after adding one event: a vibrate or power event raises its
/// motor's floor by its strength and joins the active list; a stop event
/// force-stops the engine and is not tracked; a stroke event joins the
/// list with no further effect.
pub open spec fn spec_add_event(m: SimModel, ev: BPSimEvent) -> SimModel {
    match ev.action {
        BPActionType::Vibrate { strength, motor } => SimModel {
            events: m.events.push(ev),
            effectors: m.effectors,
            floors: spec_update_floor(m.floors, motor, strength as int),
            last_sim_us: m.last_sim_us,
        },
        BPActionType::Power { strength, motor } => SimModel {
            events: m.events.push(ev),
            effectors: m.effectors,
            floors: spec_update_floor(m.floors, motor, strength as int),
            last_sim_us: m.last_sim_us,
        },
        BPActionType::Stop => spec_force_stop(m),
        BPActionType::Stroke => SimModel {
            events: m.events.push(ev),
            effectors: m.effectors,
            floors: m.floors,
            last_sim_us: m.last_sim_us,
        },
    }
}

/// The model after registering one effector: a vibration effector also
/// gets a zero floor entry for its motor.
pub open spec fn spec_add_effector(m: SimModel, effector: BPEffector) -> SimModel {
    SimModel {
        events: m.events,
        effectors: m.effectors.push(effector),
        floors: match effector.effector_type {
            BPEffectorType::Vibrates { .. } => spec_floor_insert(m.floors, effector.index),
            BPEffectorType::Strokes { .. } => m.floors,
        },
        last_sim_us: m.last_sim_us,
    }
}

/// The model after bulk-adding `count` fresh vibration effectors indexed
/// `0..count` in order (indices wrap at the `i8` range as the narrowing
/// cast does).
pub open spec fn spec_add_vib_effectors(m: SimModel, count: int) -> SimModel
    decreases count,
{
    if count <= 0 {
        m
    } else {
        spec_add_effector(
            spec_add_vib_effectors(m, count - 1),
            BPEffector {
                effector_type: BPEffectorType::Vibrates { intensity: 0i64 },
                index: (count - 1) as i8,
            },
        )
    }
}

/// The model after adding a whole queue of events, first to last.
pub open spec fn spec_add_events(m: SimModel, evs: Seq<BPSimEvent>) -> SimModel
    decreases evs.len(),
{
    if evs.len() == 0 {
        m
    } else {
        spec_add_events(spec_add_event(m, evs[0]), evs.skip(1))
    }
}

/// Updating a floor table keeps its length and its motors, and every
/// changed entry holds the clamped sum, so non-negativity and uniqueness
/// are preserved.
pub proof fn lemma_update_floor_shape(floors: Seq<FloorEntry>, motor: i8, delta: int)
    ensures
        spec_update_floor(floors, motor, delta).len() == floors.len(),
        forall|k: int|
            0 <= k < floors.len() ==> (#[trigger] spec_update_floor(floors, motor, delta)[k]).motor
                == floors[k].motor,
        forall|k: int|
            0 <= k < floors.len() ==> (#[trigger] spec_update_floor(floors, motor, delta)[k]).floor
                == floors[k].floor || spec_update_floor(floors, motor, delta)[k].floor == clamp0_sat(
                floors[k].floor + delta,
            ),
{
}

/// A floor table whose motors are unchanged entry for entry keeps the
/// uniqueness of its motors and keeps a floor entry for every vibration
/// effector.
proof fn lemma_floors_same_motors_wf(m: SimModel, m2: SimModel)
    requires
        m.floors_unique(),
        m.vib_effectors_have_floors(),
        m2.effectors == m.effectors,
        m2.floors.len() == m.floors.len(),
        forall|k: int|
            0 <= k < m.floors.len() ==> (#[trigger] m2.floors[k]).motor == m.floors[k].motor,
    ensures
        m2.floors_unique(),
        m2.vib_effectors_have_floors(),
{
    assert forall|i: int, j: int|
        0 <= i < j < m2.floors.len() implies #[trigger] m2.floors[i].motor != (
    #[trigger] m2.floors[j].motor) by {
        assert(m.floors[i].motor != m.floors[j].motor);
    }
    assert forall|i: int|
        0 <= i < m2.effectors.len() && (#[trigger] m2.effectors[i].effector_type)
            is Vibrates implies spec_has_floor(m2.floors, m2.effectors[i].index) by {
        assert(spec_has_floor(m.floors, m.effectors[i].index));
        let j = choose|j: int|
            0 <= j < m.floors.len() && #[trigger] m.floors[j].motor == m.effectors[i].index;
        assert(m2.floors[j].motor == m2.effectors[i].index);
    }
}

/// Two models with the same events, effectors and floors are equally
/// well-formed: the invariant does not depend on the tick instant.
proof fn lemma_wf_transfer(a: SimModel, b: SimModel)
    requires
        a.wf(),
        b.events == a.events,
        b.effectors == a.effectors,
        b.floors == a.floors,
    ensures
        b.wf(),
{
    assert forall|i: int, j: int|
        0 <= i < j < b.floors.len() implies #[trigger] b.floors[i].motor != (
    #[trigger] b.floors[j].motor) by {
        assert(a.floors[i].motor != a.floors[j].motor);
    }
    assert forall|i: int| 0 <= i < b.floors.len() implies (#[trigger] b.floors[i].floor) >= 0 by {
        assert(a.floors[i].floor >= 0);
    }
    assert forall|i: int|
        0 <= i < b.effectors.len() && (#[trigger] b.effectors[i].effector_type)
            is Vibrates implies spec_has_floor(b.floors, b.effectors[i].index) by {
        assert(a.effectors[i].effector_type is Vibrates);
        assert(spec_has_floor(a.floors, a.effectors[i].index));
    }
    assert forall|i: int|
        0 <= i < b.effectors.len() implies match (#[trigger] b.effectors[i].effector_type) {
            BPEffectorType::Vibrates { intensity } => intensity >= 0,
            BPEffectorType::Strokes { .. } => true,
        } by {
        assert(match a.effectors[i].effector_type {
            BPEffectorType::Vibrates { intensity } => intensity >= 0,
            BPEffectorType::Strokes { .. } => true,
        });
    }
    assert forall|i: int| 0 <= i < b.events.len() implies !((#[trigger] b.events[i].action)
        is Stop) by {
        assert(!(a.events[i].action is Stop));
    }
}

/// Every event the retain pass keeps stood in the list it was taken from.
pub proof fn lemma_retain_membership(evs: Seq<BPSimEvent>, k: int)
    requires
        0 <= k < spec_retain_unfinished(evs).len(),
    ensures
        exists|j: int| 0 <= j < evs.len() && #[trigger] evs[j] == spec_retain_unfinished(evs)[k],
    decreases evs.len(),
{
    reveal(Seq::filter);
    if evs.len() > 0 {
        let kept = spec_retain_unfinished(evs);
        let rest = spec_retain_unfinished(evs.drop_last());
        if !evs.last().finished && k == kept.len() - 1 {
            assert(evs[evs.len() - 1] == kept[k]);
        } else {
            lemma_retain_membership(evs.drop_last(), k);
            let j = choose|j: int|
                0 <= j < evs.drop_last().len() && #[trigger] evs.drop_last()[j] == rest[k];
            assert(evs[j] == rest[k]);
        }
    }
}

/// The engine. All mutable state — events, effectors and the floor table —
/// is owned here and changed only through the operations below.
pub struct BPSimulator {
    events: Vec<BPSimEvent>,
    effectors: Vec<BPEffector>,
    last_sim_us: u64,
    formula_floor_cache: Vec<FloorEntry>,
}

impl View for BPSimulator {
    type V = SimModel;

    closed spec fn view(&self) -> SimModel {
        SimModel {
            events: self.events@,
            effectors: self.effectors@,
            floors: self.formula_floor_cache@,
            last_sim_us: self.last_sim_us,
        }
    }
}

/// Adds a change onto a floor value, negating it first when `negate` is
/// set; the result saturates at the `i64` limits and is clamped to stay
/// non-negative.
fn floor_apply_signed(floor: i64, change: i64, negate: bool) -> (r: i64)
    requires
        floor >= 0,
    ensures
        r == clamp0_sat(floor + (if negate { -(change as int) } else { change as int })),
{
    if !negate {
        crate::units::floor_apply(floor, change)
    } else if change == i64::MIN {
        i64::MAX
    } else {
        crate::units::floor_apply(floor, -change)
    }
}

/// Looks a motor's floor up in the table.
fn floor_lookup(floors: &Vec<FloorEntry>, motor: i8) -> (r: Option<i64>)
    requires
        forall|i: int, j: int|
            0 <= i < j < floors@.len() ==> #[trigger] floors@[i].motor != (
            #[trigger] floors@[j].motor),
    ensures
        r is Some <==> spec_has_floor(floors@, motor),
        r is Some ==> r->0 == spec_floor_of(floors@, motor),
{
    let n = floors.len();
    let mut i: usize = 0;
    while i < n
        invariant
            n == floors@.len(),
            i <= n,
            forall|k: int| 0 <= k < i ==> (#[trigger] floors@[k].motor) != motor,
            forall|p: int, q: int|
                0 <= p < q < floors@.len() ==> #[trigger] floors@[p].motor != (
                #[trigger] floors@[q].motor),
        decreases n - i,
    {
        let e = floors[i];
        if e.motor == motor {
            proof {
                let j = choose|j: int|
                    0 <= j < floors@.len() && #[trigger] floors@[j].motor == motor;
                assert(floors@[i as int].motor == motor);
                assert(j == i as int);
            }
            return Some(e.floor);
        }
        i = i + 1;
    }
    proof {
        assert(!spec_has_floor(floors@, motor));
    }
    None
}

impl BPSimulator {
    /// A fresh engine with no effectors, no events and zeroed floors,
    /// whose last processed tick is the given instant.
    pub fn new(now_us: u64) -> (sim: BPSimulator)
        ensures
            sim@ == (SimModel {
                events: Seq::<BPSimEvent>::empty(),
                effectors: Seq::<BPEffector>::empty(),
                floors: Seq::<FloorEntry>::empty(),
                last_sim_us: now_us,
            }),
            sim@.wf(),
    {
        BPSimulator {
            events: Vec::new(),
            effectors: Vec::new(),
            last_sim_us: now_us,
            formula_floor_cache: Vec::new(),
        }
    }

    /// Adds `change` (negated when `negate` is set) onto one motor's floor,
    /// or onto every floor when `index` is `-1`, clamped to stay
    /// non-negative. A motor without a floor entry changes nothing.
    fn update_intensity_floor(&mut self, index: i8, change: i64, negate: bool)
        requires
            old(self)@.floors_unique(),
            old(self)@.floors_nonneg(),
        ensures
            final(self)@ == spec_with_floors(
                old(self)@,
                spec_update_floor(
                    old(self)@.floors,
                    index,
                    if negate {
                        -(change as int)
                    } else {
                        change as int
                    },
                ),
            ),
    {
        let ghost delta: int = if negate {
            -(change as int)
        } else {
            change as int
        };
        let ghost floors0 = self.formula_floor_cache@;
        if index == -1i8 {
            let n = self.formula_floor_cache.len();
            let mut i: usize = 0;
            while i < n
                invariant
                    delta == (if negate { -(change as int) } else { change as int }),
                    n == self.formula_floor_cache@.len(),
                    i <= n,
                    floors0.len() == n,
                    self@.events == old(self)@.events,
                    self@.effectors == old(self)@.effectors,
                    self@.last_sim_us == old(self)@.last_sim_us,
                    floors0 == old(self)@.floors,
                    old(self)@.floors_nonneg(),
                    forall|k: int|
                        i <= k < floors0.len() ==> #[trigger] self.formula_floor_cache@[k]
                            == floors0[k],
                    forall|k: int|
                        0 <= k < i ==> #[trigger] self.formula_floor_cache@[k] == (FloorEntry {
                            motor: floors0[k].motor,
                            floor: clamp0_sat(floors0[k].floor + delta) as i64,
                        }),
                decreases n - i,
            {
                let e = self.formula_floor_cache[i];
                proof {
                    assert(e == old(self)@.floors[i as int]);
                    assert(old(self)@.floors[i as int].floor >= 0);
                }
                let nf = floor_apply_signed(e.floor, change, negate);
                self.formula_floor_cache[i] = FloorEntry { motor: e.motor, floor: nf };
                i = i + 1;
            }
            proof {
                assert(self.formula_floor_cache@ =~= spec_update_floor(floors0, index, delta));
            }
        } else {
            let n = self.formula_floor_cache.len();
            let mut i: usize = 0;
            while i < n
                invariant
                    delta == (if negate { -(change as int) } else { change as int }),
                    index != -1i8,
                    n == self.formula_floor_cache@.len(),
                    i <= n,
                    self@ == old(self)@,
                    floors0 == old(self)@.floors,
                    old(self)@.floors_unique(),
                    old(self)@.floors_nonneg(),
                    forall|k: int| 0 <= k < i ==> (#[trigger] floors0[k].motor) != index,
                decreases n - i,
            {
                let e = self.formula_floor_cache[i];
                if e.motor == index {
                    let nf = floor_apply_signed(e.floor, change, negate);
                    self.formula_floor_cache[i] = FloorEntry { motor: e.motor, floor: nf };
                    proof {
                        assert(spec_has_floor(floors0, index));
                        assert forall|k: int| 0 <= k < floors0.len() && k != i implies floors0[k].motor
                            != index by {
                            if k < i as int {
                            } else {
                                assert(floors0[i as int].motor == index);
                            }
                        }
                        assert(self.formula_floor_cache@ =~= spec_update_floor(
                            floors0,
                            index,
                            delta,
                        ));
                    }
                    return ;
                }
                i = i + 1;
            }
            proof {
                assert(!spec_has_floor(floors0, index));
                assert(self.formula_floor_cache@ =~= spec_update_floor(floors0, index, delta));
            }
        }
    }

    /// Applies an event's immediate effect — raising floors for a vibrate
    /// or power event, force-stopping for a stop event — and appends it to
    /// the active list unless it was a stop.
    pub fn add_event(&mut self, event: BPSimEvent)
        requires
            old(self)@.wf(),
        ensures
            final(self)@ == spec_add_event(old(self)@, event),
            final(self)@.wf(),
    {
        match event.action {
            BPActionType::Vibrate { strength, motor } => {
                self.update_intensity_floor(motor, strength, false);
                proof {
                    lemma_update_floor_shape(old(self)@.floors, motor, strength as int);
                }
            },
            BPActionType::Power { strength, motor } => {
                self.update_intensity_floor(motor, strength, false);
                proof {
                    lemma_update_floor_shape(old(self)@.floors, motor, strength as int);
                }
            },
            BPActionType::Stop => {
                self.force_stop();
                return ;
            },
            BPActionType::Stroke => {},
        }
        self.events.push(event);
        proof {
            let m0 = old(self)@;
            let m1 = self@;
            assert(m1.floors_nonneg());
            lemma_floors_same_motors_wf(
                m0,
                SimModel {
                    events: m1.events,
                    effectors: m0.effectors,
                    floors: m1.floors,
                    last_sim_us: m0.last_sim_us,
                },
            );
            assert forall|i: int| 0 <= i < m1.events.len() implies !((
            #[trigger] m1.events[i].action) is Stop) by {
                if i < m0.events.len() {
                    assert(!(m0.events[i].action is Stop));
                }
            }
        }
    }

    /// Registers a new output channel; a vibration effector also gets a
    /// zero floor entry for its motor.
    pub fn add_effector(&mut self, effector: BPEffector)
        requires
            old(self)@.wf(),
            effector.wf(),
        ensures
            final(self)@ == spec_add_effector(old(self)@, effector),
            final(self)@.wf(),
    {
        match effector.effector_type {
            BPEffectorType::Vibrates { .. } => {
                let ghost floors0 = self.formula_floor_cache@;
                let n = self.formula_floor_cache.len();
                let mut i: usize = 0;
                let mut found = false;
                while i < n && !found
                    invariant
                        n == self.formula_floor_cache@.len(),
                        i <= n,
                        floors0 == old(self)@.floors,
                        old(self)@.wf(),
                        !found ==> self@ == old(self)@,
                        !found ==> forall|k: int|
                            0 <= k < i ==> (#[trigger] floors0[k].motor) != effector.index,
                        found ==> spec_has_floor(floors0, effector.index)
                            && self.formula_floor_cache@ == spec_floor_insert(
                            floors0,
                            effector.index,
                        ) && self@.events == old(self)@.events && self@.effectors == old(
                            self,
                        )@.effectors && self@.last_sim_us == old(self)@.last_sim_us,
                    decreases n - i,
                {
                    let e = self.formula_floor_cache[i];
                    if e.motor == effector.index {
                        self.formula_floor_cache[i] = FloorEntry { motor: e.motor, floor: 0 };
                        found = true;
                        proof {
                            assert(spec_has_floor(floors0, effector.index));
                            assert forall|k: int|
                                0 <= k < floors0.len() && k != i implies floors0[k].motor
                                != effector.index by {
                                if k > i as int {
                                    assert(floors0[i as int].motor == effector.index);
                                }
                            }
                            assert(self.formula_floor_cache@ =~= spec_floor_insert(
                                floors0,
                                effector.index,
                            ));
                        }
                    }
                    i = i + 1;
                }
                if !found {
                    proof {
                        assert(!spec_has_floor(floors0, effector.index));
                    }
                    self.formula_floor_cache.push(FloorEntry { motor: effector.index, floor: 0 });
                }
            },
            BPEffectorType::Strokes { .. } => {},
        }
        self.effectors.push(effector);
        proof {
            let m0 = old(self)@;
            let m1 = self@;
            assert(m1.floors =~= spec_add_effector(m0, effector).floors);
            assert(m1 == spec_add_effector(m0, effector));
            assert(m1.floors_nonneg());
            assert forall|i: int, j: int|
                0 <= i < j < m1.floors.len() implies #[trigger] m1.floors[i].motor != (
            #[trigger] m1.floors[j].motor) by {
                if j < m0.floors.len() {
                    assert(m0.floors[i].motor != m0.floors[j].motor);
                } else {
                    // the appended entry's motor was not in the table
                    assert(m1.floors[i].motor == m0.floors[i].motor);
                }
            }
            assert forall|i: int|
                0 <= i < m1.effectors.len() && (#[trigger] m1.effectors[i].effector_type)
                    is Vibrates implies spec_has_floor(m1.floors, m1.effectors[i].index) by {
                if i < m0.effectors.len() {
                    assert(spec_has_floor(m0.floors, m0.effectors[i].index));
                    let j = choose|j: int|
                        0 <= j < m0.floors.len() && #[trigger] m0.floors[j].motor
                            == m0.effectors[i].index;
                    assert(m1.floors[j].motor == m1.effectors[i].index);
                } else {
                    if spec_has_floor(m0.floors, effector.index) {
                        let j = choose|j: int|
                            0 <= j < m0.floors.len() && #[trigger] m0.floors[j].motor
                                == effector.index;
                        assert(m1.floors[j].motor == effector.index);
                    } else {
                        assert(m1.floors[m0.floors.len() as int].motor == effector.index);
                    }
                }
            }
        }
    }

    /// Bulk-creates `num_motors` vibration effectors indexed `0..num_motors`
    /// in order.
    pub fn add_multiple_vib_effectors(&mut self, num_motors: usize)
        requires
            old(self)@.wf(),
        ensures
            final(self)@ == spec_add_vib_effectors(old(self)@, num_motors as int),
            final(self)@.wf(),
    {
        let mut vib_index: usize = 0;
        while vib_index < num_motors
            invariant
                vib_index <= num_motors,
                self@ == spec_add_vib_effectors(old(self)@, vib_index as int),
                self@.wf(),
            decreases num_motors - vib_index,
        {
            #[verifier::truncate]
            let idx = vib_index as i8;
            self.add_effector(
                BPEffector::new(BPEffectorType::Vibrates { intensity: 0 }, idx),
            );
            vib_index = vib_index + 1;
        }
    }

    /// Clears the active event list and resets every floor to zero; the
    /// effectors keep their current intensities and decay naturally from
    /// the next tick on.
    pub fn force_stop(&mut self)
        ensures
            final(self)@ == spec_force_stop(old(self)@),
            old(self)@.wf() ==> final(self)@.wf(),
    {
        self.events.clear();
        let ghost floors0 = self.formula_floor_cache@;
        let n = self.formula_floor_cache.len();
        let mut i: usize = 0;
        while i < n
            invariant
                n == self.formula_floor_cache@.len(),
                i <= n,
                floors0.len() == n,
                self@.events == Seq::<BPSimEvent>::empty(),
                self@.effectors == old(self)@.effectors,
                self@.last_sim_us == old(self)@.last_sim_us,
                floors0 == old(self)@.floors,
                forall|k: int|
                    i <= k < floors0.len() ==> #[trigger] self.formula_floor_cache@[k]
                        == floors0[k],
                forall|k: int|
                    0 <= k < i ==> #[trigger] self.formula_floor_cache@[k] == (FloorEntry {
                        motor: floors0[k].motor,
                        floor: 0i64,
                    }),
            decreases n - i,
        {
            let e = self.formula_floor_cache[i];
            self.formula_floor_cache[i] = FloorEntry { motor: e.motor, floor: 0 };
            i = i + 1;
        }
        proof {
            assert(self.formula_floor_cache@ =~= spec_zero_floors(floors0));
            if old(self)@.wf() {
                lemma_floors_same_motors_wf(old(self)@, self@);
                assert forall|k: int|
                    0 <= k < self@.floors.len() implies (#[trigger] self@.floors[k].floor)
                    >= 0 by {}
            }
        }
    }

    /// Force-stops, then drops the effectors and their floor entries: the
    /// clean slate used whenever the bound device changes.
    pub fn reset_for_new_device(&mut self)
        ensures
            final(self)@ == (SimModel {
                events: Seq::<BPSimEvent>::empty(),
                effectors: Seq::<BPEffector>::empty(),
                floors: Seq::<FloorEntry>::empty(),
                last_sim_us: old(self)@.last_sim_us,
            }),
            final(self)@.wf(),
    {
        self.force_stop();
        self.effectors.clear();
        self.formula_floor_cache.clear();
    }

    /// Drains an ordered queue of events into [`Self::add_event`] one at a
    /// time, preserving order.
    pub fn add_event_queue(&mut self, event_queue: std::collections::VecDeque<BPSimEvent>)
        requires
            old(self)@.wf(),
        ensures
            final(self)@ == spec_add_events(old(self)@, event_queue@),
            final(self)@.wf(),
    {
        let mut queue = event_queue;
        let ghost m0 = self@;
        let ghost q0 = queue@;
        while queue.len() > 0
            invariant
                self@.wf(),
                spec_add_events(m0, q0) == spec_add_events(self@, queue@),
            decreases queue@.len(),
        {
            let ghost qpre = queue@;
            let ev = queue.pop_front().unwrap();
            proof {
                assert(queue@ =~= qpre.skip(1));
            }
            self.add_event(ev);
        }
    }
}


/// The intensity a vibration effector currently holds.
pub open spec fn spec_vib_intensity(e: BPEffector) -> int
    recommends
        e.effector_type is Vibrates,
{
    match e.effector_type {
        BPEffectorType::Vibrates { intensity } => intensity as int,
        BPEffectorType::Strokes { amplitude } => amplitude as int,
    }
}

/// One tick's effect on one effector: a vibration intensity is decayed,
/// clamped up to its motor's floor, and snapped to zero when it falls
/// below the threshold; a stroking effector is left untouched.
pub open spec fn spec_effector_tick(e: BPEffector, floors: Seq<FloorEntry>, elapsed_us: u64) -> BPEffector {
    match e.effector_type {
        BPEffectorType::Vibrates { intensity } => {
            let decayed = spec_decay(
                intensity as int,
                elapsed_us as int,
                LINEAR_REDUCTION as int,
                HALF_LIFE_US as int,
            );
            let floor = spec_floor_of(floors, e.index);
            let raised = if decayed < floor {
                floor
            } else {
                decayed
            };
            let snapped = if raised < THRESHOLD {
                0
            } else {
                raised
            };
            BPEffector {
                effector_type: BPEffectorType::Vibrates { intensity: snapped as i64 },
                index: e.index,
            }
        },
        BPEffectorType::Strokes { .. } => e,
    }
}

/// One tick's effect on the whole effector set.
pub open spec fn spec_tick_effectors(
    effs: Seq<BPEffector>,
    floors: Seq<FloorEntry>,
    elapsed_us: u64,
) -> Seq<BPEffector> {
    effs.map_values(|e: BPEffector| spec_effector_tick(e, floors, elapsed_us))
}

/// The whole event list after elapsed time has been subtracted from every
/// event.
pub open spec fn spec_pass_all(evs: Seq<BPSimEvent>, elapsed_us: u64) -> Seq<BPSimEvent> {
    evs.map_values(|ev: BPSimEvent| ev.spec_pass_time(elapsed_us))
}

/// The event list with the finished events dropped.
pub open spec fn spec_retain_unfinished(evs: Seq<BPSimEvent>) -> Seq<BPSimEvent> {
    evs.filter(|ev: BPSimEvent| !ev.finished)
}

/// The floor table after the removal side effects of the finished events
/// from position `i` on have been applied in order: each finished vibrate
/// or power event lowers its motor's floor by its strength, clamped to
/// stay non-negative.
pub open spec fn spec_cull_from(
    floors: Seq<FloorEntry>,
    evs: Seq<BPSimEvent>,
    i: int,
) -> Seq<FloorEntry>
    decreases evs.len() - i,
{
    if i < 0 || i >= evs.len() {
        floors
    } else {
        let ev = evs[i];
        let f2 = if ev.finished {
            match ev.action {
                BPActionType::Vibrate { strength, motor } => spec_update_floor(
                    floors,
                    motor,
                    -(strength as int),
                ),
                BPActionType::Power { strength, motor } => spec_update_floor(
                    floors,
                    motor,
                    -(strength as int),
                ),
                _ => floors,
            }
        } else {
            floors
        };
        spec_cull_from(f2, evs, i + 1)
    }
}

/// The floor table after every finished event's removal side effect.
pub open spec fn spec_cull_floors(floors: Seq<FloorEntry>, evs: Seq<BPSimEvent>) -> Seq<
    FloorEntry,
> {
    spec_cull_from(floors, evs, 0)
}

/// The model after one tick at `now_us`. A tick that would go backward in
/// time is skipped outright; otherwise the effectors decay against the
/// floors as they stood at the start of the tick, then the elapsed time is
/// taken from every event, and finally the finished events apply their
/// removal side effects and leave the list.
pub open spec fn spec_process_tick(m: SimModel, now_us: u64) -> SimModel {
    if now_us < m.last_sim_us {
        m
    } else {
        let elapsed = (now_us - m.last_sim_us) as u64;
        let passed = spec_pass_all(m.events, elapsed);
        SimModel {
            events: spec_retain_unfinished(passed),
            effectors: spec_tick_effectors(m.effectors, m.floors, elapsed),
            floors: spec_cull_floors(m.floors, passed),
            last_sim_us: now_us,
        }
    }
}

/// The intensity vector: one value per vibration effector, placed at the
/// effector's own index. An effector whose index would leave a gap — it
/// lies beyond the next insertion slot — is skipped, as is any negative
/// index.
pub open spec fn spec_gather_intensities(
    effs: Seq<BPEffector>,
    i: int,
    acc: Seq<i64>,
) -> Seq<i64>
    decreases effs.len() - i,
{
    if i < 0 || i >= effs.len() {
        acc
    } else {
        let acc2 = match effs[i].effector_type {
            BPEffectorType::Vibrates { intensity } => if effs[i].index < 0 || effs[i].index
                as int > acc.len() {
                acc
            } else {
                acc.insert(effs[i].index as int, intensity)
            },
            BPEffectorType::Strokes { .. } => acc,
        };
        spec_gather_intensities(effs, i + 1, acc2)
    }
}

/// The ordered intensity vector of the whole effector set.
pub open spec fn spec_vibrator_intensities(effs: Seq<BPEffector>) -> Seq<i64> {
    spec_gather_intensities(effs, 0, Seq::empty())
}

impl BPSimulator {
    /// The decay formula: the intensity shrinks by the half-life
    /// multiplier, loses the linear reduction, and is clamped at zero —
    /// `max(current * 0.5^(elapsed / half_life) - linear, 0)` in fixed
    /// point. The result never exceeds the current intensity.
    pub fn calc_intensity_decay(
        time_passed_us: u64,
        current_intensity: i64,
        linear_reduction: i64,
        half_life_us: u64,
    ) -> (r: i64)
        requires
            current_intensity >= 0,
            linear_reduction >= 0,
            half_life_us >= 1,
        ensures
            r == spec_decay(
                current_intensity as int,
                time_passed_us as int,
                linear_reduction as int,
                half_life_us as int,
            ),
            0 <= r <= current_intensity,
    {
        proof {
            lemma_decay_bounds(
                current_intensity as int,
                time_passed_us as int,
                linear_reduction as int,
                half_life_us as int,
            );
        }
        let factor: u64 = decay_factor(time_passed_us, half_life_us);
        proof {
            vstd::arithmetic::mul::lemma_mul_upper_bound(
                current_intensity as int,
                i64::MAX as int,
                factor as int,
                SCALE as int,
            );
            crate::decay::lemma_scale_le(current_intensity as int, factor as int);
        }
        let prod: u128 = (current_intensity as u128) * (factor as u128);
        let scaled_w: u128 = prod / (SCALE as u128);
        let scaled: i64 = scaled_w as i64;
        if scaled <= linear_reduction {
            0
        } else {
            scaled - linear_reduction
        }
    }

    /// The decay pass: every vibration intensity is decayed, clamped up to
    /// its floor, and snapped to zero below the threshold.
    fn update_effectors(&mut self, time_passed_us: u64)
        requires
            old(self)@.wf(),
        ensures
            final(self)@.effectors == spec_tick_effectors(
                old(self)@.effectors,
                old(self)@.floors,
                time_passed_us,
            ),
            final(self)@.events == old(self)@.events,
            final(self)@.floors == old(self)@.floors,
            final(self)@.last_sim_us == old(self)@.last_sim_us,
            final(self)@.wf(),
    {
        let ghost m0 = self@;
        let ghost effs0 = self.effectors@;
        let n = self.effectors.len();
        let mut i: usize = 0;
        while i < n
            invariant
                m0 == old(self)@,
                m0.wf(),
                n == self.effectors@.len(),
                i <= n,
                effs0 == m0.effectors,
                effs0.len() == n,
                self@.events == m0.events,
                self@.floors == m0.floors,
                self@.last_sim_us == m0.last_sim_us,
                forall|k: int| i <= k < n ==> #[trigger] self.effectors@[k] == effs0[k],
                forall|k: int|
                    0 <= k < i ==> #[trigger] self.effectors@[k] == spec_effector_tick(
                        effs0[k],
                        m0.floors,
                        time_passed_us,
                    ),
            decreases n - i,
        {
            let eff = self.effectors[i];
            match eff.effector_type {
                BPEffectorType::Vibrates { intensity } => {
                    proof {
                        assert(eff == m0.effectors[i as int]);
                        assert(m0.effectors[i as int].effector_type is Vibrates);
                        assert(intensity >= 0);
                        assert(spec_has_floor(m0.floors, eff.index));
                    }
                    let ni = BPSimulator::calc_intensity_decay(
                        time_passed_us,
                        intensity,
                        LINEAR_REDUCTION,
                        HALF_LIFE_US,
                    );
                    let fl = floor_lookup(&self.formula_floor_cache, eff.index).unwrap();
                    proof {
                        let j = choose|j: int|
                            0 <= j < m0.floors.len() && #[trigger] old(
                                self,
                            )@.floors[j].motor == eff.index;
                        assert(m0.floors[j].floor >= 0);
                        assert(fl >= 0);
                    }
                    let raised = if ni < fl {
                        fl
                    } else {
                        ni
                    };
                    let snapped = if raised < THRESHOLD {
                        0
                    } else {
                        raised
                    };
                    self.effectors[i] = BPEffector {
                        effector_type: BPEffectorType::Vibrates { intensity: snapped },
                        index: eff.index,
                    };
                },
                BPEffectorType::Strokes { .. } => {},
            }
            i = i + 1;
        }
        proof {
            assert(self.effectors@ =~= spec_tick_effectors(
                effs0,
                m0.floors,
                time_passed_us,
            ));
            assert forall|k: int|
                0 <= k < self@.effectors.len() && (#[trigger] self@.effectors[k].effector_type)
                    is Vibrates implies spec_has_floor(self@.floors, self@.effectors[k].index) by {
                assert(self@.effectors[k] == spec_effector_tick(
                    effs0[k],
                    m0.floors,
                    time_passed_us,
                ));
                assert(m0.effectors[k].effector_type is Vibrates);
                assert(spec_has_floor(m0.floors, m0.effectors[k].index));
            }
            assert forall|k: int|
                0 <= k < self@.effectors.len() implies match (
            #[trigger] self@.effectors[k].effector_type) {
                BPEffectorType::Vibrates { intensity } => intensity >= 0,
                BPEffectorType::Strokes { .. } => true,
            } by {
                assert(self@.effectors[k] == spec_effector_tick(
                    effs0[k],
                    m0.floors,
                    time_passed_us,
                ));
                match m0.effectors[k].effector_type {
                    BPEffectorType::Vibrates { intensity } => {
                        assert(intensity >= 0);
                        lemma_decay_bounds(
                            intensity as int,
                            time_passed_us as int,
                            LINEAR_REDUCTION as int,
                            HALF_LIFE_US as int,
                        );
                        if spec_has_floor(m0.floors, m0.effectors[k].index) {
                            let j = choose|j: int|
                                0 <= j < m0.floors.len() && #[trigger] old(
                                    self,
                                )@.floors[j].motor == m0.effectors[k].index;
                            assert(m0.floors[j].floor >= 0);
                        }
                    },
                    BPEffectorType::Strokes { .. } => {},
                }
            }
            assert forall|i: int, j: int|
                0 <= i < j < self@.floors.len() implies #[trigger] self@.floors[i].motor != (
            #[trigger] self@.floors[j].motor) by {
                assert(m0.floors[i].motor != m0.floors[j].motor);
            }
            assert forall|k: int|
                0 <= k < self@.floors.len() implies (#[trigger] self@.floors[k].floor) >= 0 by {
                assert(m0.floors[k].floor >= 0);
            }
            assert forall|k: int|
                0 <= k < self@.events.len() implies !((#[trigger] self@.events[k].action)
                is Stop) by {
                assert(!(m0.events[k].action is Stop));
            }
        }
    }

    /// The time pass: the elapsed time is subtracted from every active
    /// event's remaining lifetime.
    fn progress_event_times(&mut self, time_passed_us: u64)
        ensures
            final(self)@.events == spec_pass_all(old(self)@.events, time_passed_us),
            final(self)@.effectors == old(self)@.effectors,
            final(self)@.floors == old(self)@.floors,
            final(self)@.last_sim_us == old(self)@.last_sim_us,
    {
        let ghost evs0 = self.events@;
        let n = self.events.len();
        let mut i: usize = 0;
        while i < n
            invariant
                n == self.events@.len(),
                i <= n,
                evs0 == old(self)@.events,
                self@.effectors == old(self)@.effectors,
                self@.floors == old(self)@.floors,
                self@.last_sim_us == old(self)@.last_sim_us,
                forall|k: int| i <= k < n ==> #[trigger] self.events@[k] == evs0[k],
                forall|k: int|
                    0 <= k < i ==> #[trigger] self.events@[k] == evs0[k].spec_pass_time(
                        time_passed_us,
                    ),
            decreases n - i,
        {
            let mut ev = self.events[i];
            ev.pass_time(time_passed_us);
            self.events[i] = ev;
            i = i + 1;
        }
        proof {
            assert(self.events@ =~= spec_pass_all(evs0, time_passed_us));
        }
    }

    /// The retire pass: every finished event applies its removal side
    /// effect exactly once — lowering its motor's floor by its strength —
    /// and then all finished events are dropped from the list in one pass.
    fn cull_old_events(&mut self)
        requires
            old(self)@.floors_unique(),
            old(self)@.floors_nonneg(),
        ensures
            final(self)@.floors == spec_cull_floors(old(self)@.floors, old(self)@.events),
            final(self)@.events == spec_retain_unfinished(old(self)@.events),
            final(self)@.effectors == old(self)@.effectors,
            final(self)@.last_sim_us == old(self)@.last_sim_us,
            final(self)@.floors_unique(),
            final(self)@.floors_nonneg(),
            final(self)@.floors.len() == old(self)@.floors.len(),
            forall|k: int|
                0 <= k < old(self)@.floors.len() ==> (#[trigger] final(self)@.floors[k]).motor
                    == old(self)@.floors[k].motor,
    {
        let ghost evs0 = self.events@;
        let ghost floors0 = self.formula_floor_cache@;
        let n = self.events.len();
        let mut index: usize = 0;
        while index < n
            invariant
                n == self.events@.len(),
                index <= n,
                evs0 == old(self)@.events,
                floors0 == old(self)@.floors,
                self@.events == evs0,
                self@.effectors == old(self)@.effectors,
                self@.last_sim_us == old(self)@.last_sim_us,
                self@.floors_unique(),
                self@.floors_nonneg(),
                self@.floors.len() == floors0.len(),
                forall|k: int|
                    0 <= k < floors0.len() ==> (#[trigger] self@.floors[k]).motor
                        == floors0[k].motor,
                spec_cull_from(floors0, evs0, 0) == spec_cull_from(
                    self@.floors,
                    evs0,
                    index as int,
                ),
            decreases n - index,
        {
            let ghost floors_pre = self@.floors;
            let ev = self.events[index];
            if ev.finished {
                match ev.action {
                    BPActionType::Vibrate { strength, motor } => {
                        self.update_intensity_floor(motor, strength, true);
                        proof {
                            lemma_update_floor_shape(floors_pre, motor, -(strength as int));
                        }
                    },
                    BPActionType::Power { strength, motor } => {
                        self.update_intensity_floor(motor, strength, true);
                        proof {
                            lemma_update_floor_shape(floors_pre, motor, -(strength as int));
                        }
                    },
                    BPActionType::Stop => {
                        // never reached while the engine owns the list:
                        // adding a stop event force-stops instead of
                        // appending it
                    },
                    BPActionType::Stroke => {},
                }
            }
            index = index + 1;
        }
        let mut kept: Vec<BPSimEvent> = Vec::new();
        let mut i: usize = 0;
        proof {
            reveal(Seq::filter);
            assert(evs0.take(0) =~= Seq::<BPSimEvent>::empty());
        }
        while i < n
            invariant
                n == self.events@.len(),
                i <= n,
                self@.events == evs0,
                kept@ == spec_retain_unfinished(evs0.take(i as int)),
            decreases n - i,
        {
            let ev = self.events[i];
            proof {
                reveal(Seq::filter);
                assert(evs0.take(i + 1).drop_last() =~= evs0.take(i as int));
                assert(evs0.take(i + 1).last() == ev);
                assert(spec_retain_unfinished(evs0.take(i + 1)) == if !ev.finished {
                    spec_retain_unfinished(evs0.take(i as int)).push(ev)
                } else {
                    spec_retain_unfinished(evs0.take(i as int))
                });
            }
            if !ev.finished {
                kept.push(ev);
            }
            i = i + 1;
        }
        proof {
            assert(evs0.take(n as int) =~= evs0);
        }
        self.events = kept;
    }

    /// One tick: compute the elapsed time — skipping the whole tick if the
    /// clock went backward — then run the decay pass, the time pass and
    /// the retire pass in that fixed order.
    pub fn process_tick(&mut self, current_instant_us: u64)
        requires
            old(self)@.wf(),
        ensures
            final(self)@ == spec_process_tick(old(self)@, current_instant_us),
            final(self)@.wf(),
    {
        if current_instant_us < self.last_sim_us {
            // the clock went backward: skip the tick, leaving all state
            // untouched
            return ;
        }
        let ghost m0 = old(self)@;
        let time_passed = current_instant_us - self.last_sim_us;
        self.last_sim_us = current_instant_us;
        proof {
            lemma_wf_transfer(m0, self@);
        }
        self.update_effectors(time_passed);
        let ghost m2 = self@;
        self.progress_event_times(time_passed);
        let ghost m3 = self@;
        proof {
            assert(m3.floors_unique()) by {
                assert forall|i: int, j: int|
                    0 <= i < j < m3.floors.len() implies #[trigger] m3.floors[i].motor != (
                #[trigger] m3.floors[j].motor) by {
                    assert(m2.floors[i].motor != m2.floors[j].motor);
                }
            }
            assert(m3.floors_nonneg()) by {
                assert forall|k: int|
                    0 <= k < m3.floors.len() implies (#[trigger] m3.floors[k].floor) >= 0 by {
                    assert(m2.floors[k].floor >= 0);
                }
            }
        }
        self.cull_old_events();
        proof {
            let mf = self@;
            let passed = spec_pass_all(m0.events, time_passed);
            assert(mf.events == spec_retain_unfinished(passed));
            assert forall|k: int|
                0 <= k < mf.events.len() implies !((#[trigger] mf.events[k].action) is Stop) by {
                lemma_retain_membership(passed, k);
                let j = choose|j: int|
                    0 <= j < passed.len() && #[trigger] passed[j] == spec_retain_unfinished(
                        passed,
                    )[k];
                assert(passed[j] == m0.events[j].spec_pass_time(time_passed));
                assert(!(m0.events[j].action is Stop));
            }
            assert forall|k: int|
                0 <= k < mf.effectors.len() && (#[trigger] mf.effectors[k].effector_type)
                    is Vibrates implies spec_has_floor(mf.floors, mf.effectors[k].index) by {
                assert(m2.effectors[k].effector_type is Vibrates);
                assert(spec_has_floor(m2.floors, m2.effectors[k].index));
                let j = choose|j: int|
                    0 <= j < m2.floors.len() && #[trigger] m2.floors[j].motor
                        == m2.effectors[k].index;
                assert(mf.floors[j].motor == m3.floors[j].motor);
                assert(mf.floors[j].motor == mf.effectors[k].index);
            }
            assert forall|k: int|
                0 <= k < mf.effectors.len() implies match (
            #[trigger] mf.effectors[k].effector_type) {
                BPEffectorType::Vibrates { intensity } => intensity >= 0,
                BPEffectorType::Strokes { .. } => true,
            } by {
                assert(match m2.effectors[k].effector_type {
                    BPEffectorType::Vibrates { intensity } => intensity >= 0,
                    BPEffectorType::Strokes { .. } => true,
                });
            }
        }
    }

    /// The ordered per-motor intensity vector: one value per vibration
    /// effector at the effector's own index. An effector whose index would
    /// leave a gap is skipped rather than causing a fault.
    pub fn get_vibrator_intensities(&self) -> (intensities: Vec<i64>)
        ensures
            intensities@ == spec_vibrator_intensities(self@.effectors),
    {
        let mut intensities: Vec<i64> = Vec::new();
        let n = self.effectors.len();
        let mut i: usize = 0;
        while i < n
            invariant
                n == self@.effectors.len(),
                i <= n,
                spec_vibrator_intensities(self@.effectors) == spec_gather_intensities(
                    self@.effectors,
                    i as int,
                    intensities@,
                ),
            decreases n - i,
        {
            let eff = self.effectors[i];
            match eff.effector_type {
                BPEffectorType::Vibrates { intensity } => {
                    if eff.index >= 0 && (eff.index as usize) <= intensities.len() {
                        intensities.insert(eff.index as usize, intensity);
                    }
                    // otherwise the effectors are out of order: inserting
                    // would leave a gap, so this one is skipped
                },
                BPEffectorType::Strokes { .. } => {},
            }
            i = i + 1;
        }
        intensities
    }
}

/// Decay is monotonically non-increasing absent new events: over one tick
/// a vibration intensity never rises above the larger of its previous
/// value and its floor — in particular it never rises at all while the
/// floor is at or below it — and it never ends below its floor except by
/// snapping to exactly zero under the threshold.
pub proof fn lemma_tick_decay_monotone(m: SimModel, now_us: u64, i: int)
    requires
        m.wf(),
        m.last_sim_us <= now_us,
        0 <= i < m.effectors.len(),
        m.effectors[i].effector_type is Vibrates,
    ensures
        ({
            let before = spec_vib_intensity(m.effectors[i]);
            let floor = spec_floor_of(m.floors, m.effectors[i].index);
            let after = spec_vib_intensity(spec_process_tick(m, now_us).effectors[i]);
            &&& after <= max(before, floor)
            &&& floor <= before ==> after <= before
            &&& after == 0 || after >= floor
        }),
{
    let elapsed = (now_us - m.last_sim_us) as u64;
    let before = spec_vib_intensity(m.effectors[i]);
    let floor = spec_floor_of(m.floors, m.effectors[i].index);
    assert(before >= 0);
    assert(floor >= 0) by {
        if spec_has_floor(m.floors, m.effectors[i].index) {
            let j = choose|j: int|
                0 <= j < m.floors.len() && #[trigger] m.floors[j].motor == m.effectors[i].index;
            assert(m.floors[j].floor >= 0);
        }
    }
    lemma_decay_bounds(before, elapsed as int, LINEAR_REDUCTION as int, HALF_LIFE_US as int);
    assert(spec_process_tick(m, now_us).effectors[i] == spec_effector_tick(
        m.effectors[i],
        m.floors,
        elapsed,
    ));
}

/// A stop clears everything: force-stopping — or adding any stop event,
/// which force-stops — empties the active set and zeroes every floor, and
/// a following tick with no new events keeps the set empty and the floors
/// at zero.
pub proof fn lemma_stop_clears(m: SimModel, stop_event: BPSimEvent, now_us: u64)
    requires
        stop_event.action is Stop,
        m.last_sim_us <= now_us,
    ensures
        spec_add_event(m, stop_event) == spec_force_stop(m),
        spec_force_stop(m).events.len() == 0,
        forall|k: int|
            0 <= k < spec_force_stop(m).floors.len() ==> (#[trigger] spec_force_stop(
                m,
            ).floors[k]).floor == 0,
        ({
            let after = spec_process_tick(spec_force_stop(m), now_us);
            &&& after.events.len() == 0
            &&& after.floors.len() == spec_force_stop(m).floors.len()
            &&& forall|k: int|
                0 <= k < after.floors.len() ==> (#[trigger] after.floors[k]).floor == 0
        }),
{
    let s = spec_force_stop(m);
    let after = spec_process_tick(s, now_us);
    let elapsed = (now_us - s.last_sim_us) as u64;
    reveal(Seq::filter);
    assert(spec_pass_all(s.events, elapsed) =~= Seq::<BPSimEvent>::empty());
    assert(spec_retain_unfinished(Seq::<BPSimEvent>::empty()) =~= Seq::<BPSimEvent>::empty());
    assert(spec_cull_from(s.floors, Seq::<BPSimEvent>::empty(), 0) == s.floors);
}

} // verus!
