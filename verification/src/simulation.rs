//! The simulation as a whole: designating origins, ticking, and the global
//! completion flag.

use crate::config::GameConfig;
use crate::grid::{
    lemma_snap_idempotent, position_on_lattice, snap_position, snap_to_grid, Position,
};
use crate::origins::{
    all_bounded, all_complete, expanded_all, lemma_expanded_all, GrowthOrigin, OriginId,
    OriginRegistry,
};
use crate::patches::{
    all_capped, all_mature, inserted, lemma_inserted, lemma_matured_all, matured_all, occupied,
    separated, GrowthPatch, GrowthPatchStore,
};
use crate::spread::{
    after_starvation, committed, lemma_candidate_on_lattice, lemma_committed,
    lemma_seedings_sound, seeded_patch, seedings_upto, seeds, spread, Seeding,
};
use vstd::prelude::*;

verus! {

/// The global completion flag.
#[derive(Clone, Copy, Debug, PartialEq, Eq, Structural)]
pub struct GrowthState {
    /// True when, at the end of the last tick, every origin had finished
    /// expanding and every patch was fully mature.
    pub is_complete: bool,
}

/// What a simulation holds at one instant.
pub struct Snapshot {
    pub config: GameConfig,
    pub origins: Seq<GrowthOrigin>,
    pub patches: Seq<GrowthPatch>,
    pub is_complete: bool,
}

/// What can happen to a simulation.
pub enum Step {
    /// An origin is designated at a world position.
    Designate(Position),
    /// One tick passes.
    Tick,
}

/// The position raised by `offset`, as far as an `i64` goes.
pub open spec fn lifted(position: Position, offset: u32) -> Position {
    Position {
        y: if position.y + offset <= i64::MAX {
            (position.y + offset) as i64
        } else {
            i64::MAX
        },
        ..position
    }
}

/// Where an origin designated at `world` is put: on the lattice, raised by
/// the configured height offset.
pub open spec fn origin_position(world: Position, config: GameConfig) -> Position {
    lifted(snap_position(world, config.cell_size), config.height_offset)
}

impl Snapshot {
    /// The state before anything was designated.
    pub open spec fn initial(config: GameConfig) -> Snapshot {
        Snapshot { config, origins: Seq::empty(), patches: Seq::empty(), is_complete: false }
    }

    /// Whether every origin has finished expanding and every patch is
    /// fully mature.
    pub open spec fn finished(self) -> bool {
        all_complete(self.origins) && all_mature(self.patches, self.config.max_age)
    }

    /// What holds of a simulation at every instant.
    pub open spec fn wf(self) -> bool {
        &&& self.config.is_valid()
        &&& all_bounded(self.origins)
        &&& all_capped(self.patches, self.config.max_age)
        &&& separated(self.patches, self.config.tolerance)
        &&& forall|i: int|
            0 <= i < self.origins.len() ==> position_on_lattice(
                (#[trigger] self.origins[i]).position,
                self.config.cell_size,
            )
        &&& forall|j: int|
            0 <= j < self.patches.len() ==> position_on_lattice(
                (#[trigger] self.patches[j]).position,
                self.config.cell_size,
            )
        &&& forall|j: int|
            0 <= j < self.patches.len() ==> (#[trigger] self.patches[j]).origin.0
                < self.origins.len()
        &&& self.is_complete ==> self.finished()
    }

    /// The state after an origin has been designated at `world`: the origin
    /// is registered, its first patch is seeded at its position unless that
    /// is occupied, and the completion flag is down.
    pub open spec fn designated(self, world: Position) -> Snapshot {
        let position = origin_position(world, self.config);
        Snapshot {
            config: self.config,
            origins: self.origins.push(
                GrowthOrigin::fresh(
                    position,
                    self.config.initial_radius,
                    self.config.expansion_rate,
                    self.config.max_radius,
                ),
            ),
            patches: inserted(
                self.patches,
                GrowthPatch::fresh(
                    position,
                    self.config.initial_age,
                    self.config.maturation_rate,
                    OriginId(self.origins.len() as usize),
                    self.config.max_age,
                ),
                self.config.tolerance,
            ),
            is_complete: false,
        }
    }

    /// The state after one step.
    pub open spec fn stepped(self, step: Step) -> Snapshot {
        match step {
            Step::Designate(world) => self.designated(world),
            Step::Tick => self.ticked(),
        }
    }

    /// The state after a run of steps, taken in order.
    pub open spec fn run(self, steps: Seq<Step>) -> Snapshot
        decreases steps.len(),
    {
        if steps.len() == 0 {
            self
        } else {
            self.run(steps.drop_last()).stepped(steps.last())
        }
    }

    /// The origins after the expansion step of a tick.
    pub open spec fn expanded(self) -> Seq<GrowthOrigin> {
        expanded_all(self.origins, self.config.tick_duration)
    }

    /// The patches after the spread step of a tick.
    pub open spec fn seeded(self) -> Seq<GrowthPatch> {
        committed(
            self.patches,
            seedings_upto(
                self.expanded(),
                self.expanded().len() as int,
                self.config,
                self.patches,
                self.config.tolerance,
            ),
            self.config,
            self.config.tolerance,
            self.config.max_age,
        )
    }

    /// The state after one tick: the radii are advanced, growth is spread
    /// and starved origins are finished, the patches are aged, and the
    /// completion flag is computed afresh, in this order.
    pub open spec fn ticked(self) -> Snapshot {
        let origins = after_starvation(
            self.expanded(),
            self.seeded(),
            self.patches.len() as int,
            self.config,
        );
        let patches = matured_all(self.seeded(), self.config.tick_duration, self.config.max_age);
        Snapshot {
            config: self.config,
            origins,
            patches,
            is_complete: all_complete(origins) && all_mature(patches, self.config.max_age),
        }
    }
}

/// Designating an origin keeps the simulation well formed.
pub proof fn lemma_designated_wf(s: Snapshot, world: Position)
    requires
        s.wf(),
    ensures
        s.designated(world).wf(),
{
    let t = s.designated(world);
    let position = origin_position(world, s.config);
    let patch = GrowthPatch::fresh(
        position,
        s.config.initial_age,
        s.config.maturation_rate,
        OriginId(s.origins.len() as usize),
        s.config.max_age,
    );
    lemma_snap_idempotent(world, s.config.cell_size);
    lemma_inserted(s.patches, patch, s.config.tolerance);
    assert forall|i: int| 0 <= i < t.origins.len() implies position_on_lattice(
        (#[trigger] t.origins[i]).position,
        t.config.cell_size,
    ) by {
        if i < s.origins.len() {
            assert(t.origins[i] == s.origins[i]);
        }
    }
    assert forall|j: int| 0 <= j < t.patches.len() implies position_on_lattice(
        (#[trigger] t.patches[j]).position,
        t.config.cell_size,
    ) && t.patches[j].origin.0 < t.origins.len() by {
        if j < s.patches.len() {
            assert(t.patches[j] == s.patches[j]);
        }
    }
}

/// Every patch that the spread step of a tick adds sits on a cell that was
/// placeable, when the tick began, for an origin that still expanded; it
/// names that origin, and is as the configuration says a new patch is.
pub proof fn lemma_seeded_sound(s: Snapshot, j: int)
    requires
        s.wf(),
        s.patches.len() <= j < s.seeded().len(),
    ensures
        exists|i: int, offset: (int, int)| #[trigger]
            seeds(
                s.expanded(),
                i,
                offset,
                s.config,
                s.patches,
                s.config.tolerance,
                Seeding { position: s.seeded()[j].position, origin: s.seeded()[j].origin },
            ),
        s.seeded()[j] == GrowthPatch::fresh(
            s.seeded()[j].position,
            s.config.initial_age,
            s.config.maturation_rate,
            s.seeded()[j].origin,
            s.config.max_age,
        ),
        position_on_lattice(s.seeded()[j].position, s.config.cell_size),
        s.seeded()[j].origin.0 < s.origins.len(),
{
    let expanded = s.expanded();
    let pending = seedings_upto(
        expanded,
        expanded.len() as int,
        s.config,
        s.patches,
        s.config.tolerance,
    );
    lemma_expanded_all(s.origins, s.config.tick_duration);
    lemma_committed(s.patches, pending, s.config, s.config.tolerance, s.config.max_age);
    let k = choose|k: int|
        0 <= k < pending.len() && s.seeded()[j] == seeded_patch(
            #[trigger] pending[k],
            s.config,
            s.config.max_age,
        ) && !occupied(s.patches, pending[k].position, s.config.tolerance);
    let seeding = pending[k];
    assert(pending.contains(seeding));
    lemma_seedings_sound(
        expanded,
        expanded.len() as int,
        s.config,
        s.patches,
        s.config.tolerance,
        seeding,
    );
    let (i, offset) = choose|i: int, offset: (int, int)|
        0 <= i < expanded.len() && #[trigger] seeds(
            expanded,
            i,
            offset,
            s.config,
            s.patches,
            s.config.tolerance,
            seeding,
        );
    assert(seeding == Seeding { position: s.seeded()[j].position, origin: s.seeded()[j].origin });
    assert(expanded[i].position == s.origins[i].position);
    lemma_candidate_on_lattice(expanded[i].position, offset, s.config);
}

/// A tick keeps the simulation well formed.
pub proof fn lemma_ticked_wf(s: Snapshot)
    requires
        s.wf(),
    ensures
        s.ticked().wf(),
{
    let t = s.ticked();
    let expanded = s.expanded();
    let seeded = s.seeded();
    let pending = seedings_upto(
        expanded,
        expanded.len() as int,
        s.config,
        s.patches,
        s.config.tolerance,
    );
    lemma_expanded_all(s.origins, s.config.tick_duration);
    lemma_committed(s.patches, pending, s.config, s.config.tolerance, s.config.max_age);
    lemma_matured_all(seeded, s.config.tick_duration, s.config.max_age);
    assert forall|i: int| 0 <= i < t.origins.len() implies (#[trigger] t.origins[i]).bounded()
        && position_on_lattice(t.origins[i].position, t.config.cell_size) by {
        assert(expanded[i].bounded());
        assert(expanded[i].position == s.origins[i].position);
    }
    assert forall|j: int| 0 <= j < t.patches.len() implies position_on_lattice(
        (#[trigger] t.patches[j]).position,
        t.config.cell_size,
    ) && t.patches[j].origin.0 < t.origins.len() by {
        crate::patches::lemma_matured(seeded[j], s.config.tick_duration, s.config.max_age);
        if j < s.patches.len() {
            assert(seeded[j] == s.patches[j]);
        } else {
            lemma_seeded_sound(s, j);
        }
    }
}

/// Raises a position by `offset`, as far as an `i64` goes.
fn lift(position: Position, offset: u32) -> (raised: Position)
    ensures
        raised == lifted(position, offset),
{
    let y: i128 = position.y as i128 + offset as i128;
    Position {
        x: position.x,
        y: if y <= i64::MAX as i128 {
            y as i64
        } else {
            i64::MAX
        },
        z: position.z,
    }
}

/// A simulation: its configuration, its origins, its patches and the
/// completion flag. The caller owns it and hands it to every step.
pub struct GrowthSimulation {
    config: GameConfig,
    origins: OriginRegistry,
    patches: GrowthPatchStore,
    state: GrowthState,
}

impl View for GrowthSimulation {
    type V = Snapshot;

    closed spec fn view(&self) -> Snapshot {
        Snapshot {
            config: self.config,
            origins: self.origins@,
            patches: self.patches@,
            is_complete: self.state.is_complete,
        }
    }
}

impl GrowthSimulation {
    /// The patch store works to the configured tolerance and age cap.
    pub closed spec fn consistent(&self) -> bool {
        &&& self.patches.tolerance() == self.config.tolerance
        &&& self.patches.max_age() == self.config.max_age
    }

    /// What holds of a simulation between any two calls.
    pub open spec fn wf(&self) -> bool {
        self@.wf() && self.consistent()
    }

    /// Starts a simulation with nothing designated. There is none for a
    /// configuration without a lattice.
    pub fn new(config: GameConfig) -> (simulation: Option<GrowthSimulation>)
        ensures
            simulation is Some <==> config.is_valid(),
            simulation matches Some(s) ==> s.wf() && s@ == Snapshot::initial(config),
    {
        if !config.validate() {
            return None;
        }
        Some(
            GrowthSimulation {
                config,
                origins: OriginRegistry::new(),
                patches: GrowthPatchStore::new(config.tolerance, config.max_age),
                state: GrowthState { is_complete: false },
            },
        )
    }

    /// The configuration that the simulation was started with.
    pub fn config(&self) -> (config: GameConfig)
        ensures
            config == self@.config,
    {
        self.config
    }

    /// The origins, for reading.
    pub fn origins(&self) -> (origins: &OriginRegistry)
        ensures
            origins@ == self@.origins,
    {
        &self.origins
    }

    /// The patches, for reading.
    pub fn patches(&self) -> (patches: &GrowthPatchStore)
        ensures
            patches@ == self@.patches,
            self.wf() ==> patches.tolerance() == self@.config.tolerance && patches.max_age()
                == self@.config.max_age,
    {
        &self.patches
    }

    /// The completion flag.
    pub fn state(&self) -> (state: GrowthState)
        ensures
            state.is_complete == self@.is_complete,
    {
        self.state
    }

    /// Designates an origin at a world position. The position is snapped to
    /// the lattice and raised by the height offset; the origin is
    /// registered there with the configured radius, rate and cap; its first
    /// patch is seeded at the same place unless that is occupied; and the
    /// completion flag goes down.
    pub fn designate_origin(&mut self, world: Position) -> (id: OriginId)
        requires
            old(self).wf(),
        ensures
            final(self).wf(),
            final(self)@ == old(self)@.designated(world),
            id.0 == old(self)@.origins.len(),
    {
        proof {
            lemma_designated_wf(self@, world);
        }
        let position = lift(snap_to_grid(world, self.config.cell_size), self.config.height_offset);
        let id = self.origins.register(
            position,
            self.config.initial_radius,
            self.config.expansion_rate,
            self.config.max_radius,
        );
        self.state = GrowthState { is_complete: false };
        self.patches.insert(position, self.config.initial_age, self.config.maturation_rate, id);
        id
    }

    /// Advances the simulation by one tick of the configured duration: the
    /// radii grow, growth spreads and starved origins are finished, the
    /// patches age, and the completion flag is computed afresh.
    pub fn tick(&mut self)
        requires
            old(self).wf(),
        ensures
            final(self).wf(),
            final(self)@ == old(self)@.ticked(),
            final(self)@.is_complete <==> final(self)@.finished(),
    {
        proof {
            lemma_ticked_wf(self@);
        }
        let config = self.config;
        self.origins.advance_radii(config.tick_duration);
        spread(&mut self.origins, &mut self.patches, &config);
        self.patches.advance_ages(config.tick_duration);
        let done = self.origins.all_complete() && self.patches.all_mature(config.max_age);
        self.state = GrowthState { is_complete: done };
    }
}

} // verus!
