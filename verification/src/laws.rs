//! What holds of every run of a simulation.

use crate::config::GameConfig;
use crate::grid::{lemma_lattice_apart, within, Position};
use crate::origins::{all_complete, lemma_expanded_all, OriginId};
use crate::patches::{
    all_mature, inserted, lemma_inserted, lemma_matured, lemma_matured_all, lemma_occupied_for_good,
    occupied, positions_kept, GrowthPatch,
};
use crate::simulation::{
    lemma_designated_wf, lemma_ticked_wf, origin_position, Snapshot, Step,
};
use crate::spread::{
    candidate, covered, in_bounds, in_ring, lemma_candidate_on_lattice, lemma_committed,
    lemma_complete_origins_seed_nothing, lemma_seedings_complete, placeable, seedings_upto, seeds,
    Seeding,
};
use vstd::prelude::*;

verus! {

/// Whether `later` can have come of `earlier`: the configuration is the
/// same; every origin and every patch of `earlier` is still in its place,
/// with the position, rates and cap that it had; no radius and no age is
/// smaller than it was; and an origin that was complete is as it was.
pub open spec fn follows(earlier: Snapshot, later: Snapshot) -> bool {
    &&& later.config == earlier.config
    &&& earlier.origins.len() <= later.origins.len()
    &&& earlier.patches.len() <= later.patches.len()
    &&& forall|i: int|
        0 <= i < earlier.origins.len() ==> {
            let before = earlier.origins[i];
            let after = #[trigger] later.origins[i];
            &&& after.position == before.position
            &&& after.expansion_rate == before.expansion_rate
            &&& after.max_radius == before.max_radius
            &&& before.radius <= after.radius
            &&& before.expansion_complete ==> after == before
        }
    &&& forall|j: int|
        0 <= j < earlier.patches.len() ==> {
            let before = earlier.patches[j];
            let after = #[trigger] later.patches[j];
            &&& after.position == before.position
            &&& after.maturation_rate == before.maturation_rate
            &&& after.origin == before.origin
            &&& before.age <= after.age
        }
}

/// A step keeps the simulation well formed, and what comes of it follows
/// what was: whatever the step and however long the tick, every radius and
/// every age stays under its cap, and none decreases.
pub proof fn lemma_step(s: Snapshot, step: Step)
    requires
        s.wf(),
    ensures
        s.stepped(step).wf(),
        follows(s, s.stepped(step)),
{
    let t = s.stepped(step);
    match step {
        Step::Designate(world) => {
            lemma_designated_wf(s, world);
            let patch = GrowthPatch::fresh(
                origin_position(world, s.config),
                s.config.initial_age,
                s.config.maturation_rate,
                OriginId(s.origins.len() as usize),
                s.config.max_age,
            );
            lemma_inserted(s.patches, patch, s.config.tolerance);
            assert forall|i: int| 0 <= i < s.origins.len() implies (#[trigger] t.origins[i])
                == s.origins[i] by {}
        },
        Step::Tick => {
            lemma_ticked_wf(s);
            let expanded = s.expanded();
            let seeded = s.seeded();
            let pending = seedings_upto(
                expanded,
                expanded.len() as int,
                s.config,
                s.patches,
                s.config.tolerance,
            );
            lemma_expanded_all(s.origins, s.config.tick_duration);
            lemma_committed(s.patches, pending, s.config, s.config.tolerance, s.config.max_age);
            lemma_matured_all(seeded, s.config.tick_duration, s.config.max_age);
            assert forall|i: int| 0 <= i < s.origins.len() implies {
                let before = s.origins[i];
                let after = #[trigger] t.origins[i];
                &&& after.position == before.position
                &&& after.expansion_rate == before.expansion_rate
                &&& after.max_radius == before.max_radius
                &&& before.radius <= after.radius
                &&& before.expansion_complete ==> after == before
            } by {
                assert(expanded[i].radius >= s.origins[i].radius);
                assert(expanded[i].position == s.origins[i].position);
            }
            assert forall|j: int| 0 <= j < s.patches.len() implies {
                let before = s.patches[j];
                let after = #[trigger] t.patches[j];
                &&& after.position == before.position
                &&& after.maturation_rate == before.maturation_rate
                &&& after.origin == before.origin
                &&& before.age <= after.age
            } by {
                assert(seeded[j] == s.patches[j]);
                lemma_matured(seeded[j], s.config.tick_duration, s.config.max_age);
            }
        },
    }
}

/// Following is transitive.
pub proof fn lemma_follows_transitive(a: Snapshot, b: Snapshot, c: Snapshot)
    requires
        follows(a, b),
        follows(b, c),
    ensures
        follows(a, c),
{
    assert forall|i: int| 0 <= i < a.origins.len() implies {
        let before = a.origins[i];
        let after = #[trigger] c.origins[i];
        &&& after.position == before.position
        &&& after.expansion_rate == before.expansion_rate
        &&& after.max_radius == before.max_radius
        &&& before.radius <= after.radius
        &&& before.expansion_complete ==> after == before
    } by {
        let mid = b.origins[i];
    }
    assert forall|j: int| 0 <= j < a.patches.len() implies {
        let before = a.patches[j];
        let after = #[trigger] c.patches[j];
        &&& after.position == before.position
        &&& after.maturation_rate == before.maturation_rate
        &&& after.origin == before.origin
        &&& before.age <= after.age
    } by {
        let mid = b.patches[j];
    }
}

/// Over any run of steps the simulation stays well formed, and the end
/// follows the start.
pub proof fn lemma_run(s: Snapshot, steps: Seq<Step>)
    requires
        s.wf(),
    ensures
        s.run(steps).wf(),
        follows(s, s.run(steps)),
    decreases steps.len(),
{
    if steps.len() > 0 {
        let mid = s.run(steps.drop_last());
        lemma_run(s, steps.drop_last());
        lemma_step(mid, steps.last());
        lemma_follows_transitive(s, mid, mid.stepped(steps.last()));
    }
}

/// A simulation starts out well formed.
pub proof fn lemma_initial_wf(config: GameConfig)
    requires
        config.is_valid(),
    ensures
        Snapshot::initial(config).wf(),
{
}

/// Bounded growth: whatever is designated and however many ticks pass, of
/// whatever duration, no radius is past its cap and no age is past the age
/// cap.
pub proof fn lemma_bounded_growth(config: GameConfig, steps: Seq<Step>)
    requires
        config.is_valid(),
    ensures
        ({
            let end = Snapshot::initial(config).run(steps);
            &&& forall|i: int|
                0 <= i < end.origins.len() ==> (#[trigger] end.origins[i]).radius
                    <= end.origins[i].max_radius
            &&& forall|j: int|
                0 <= j < end.patches.len() ==> (#[trigger] end.patches[j]).age <= config.max_age
        }),
{
    let end = Snapshot::initial(config).run(steps);
    lemma_run(Snapshot::initial(config), steps);
    assert forall|i: int| 0 <= i < end.origins.len() implies (#[trigger] end.origins[i]).radius
        <= end.origins[i].max_radius by {
        assert(end.origins[i].bounded());
    }
}

/// Monotonic non-decrease: over any run of steps no radius and no age gets
/// smaller, and an origin that had finished expanding keeps its radius.
pub proof fn lemma_never_decreasing(s: Snapshot, steps: Seq<Step>)
    requires
        s.wf(),
    ensures
        ({
            let end = s.run(steps);
            &&& forall|i: int|
                0 <= i < s.origins.len() ==> s.origins[i].radius <= (#[trigger] end.origins[i])
                    .radius
            &&& forall|i: int|
                0 <= i < s.origins.len() && s.origins[i].expansion_complete
                    ==> (#[trigger] end.origins[i]) == s.origins[i]
            &&& forall|j: int|
                0 <= j < s.patches.len() ==> s.patches[j].age <= (#[trigger] end.patches[j]).age
        }),
{
    lemma_run(s, steps);
}

/// Occupancy is for good: once a patch lies closer to a position than the
/// tolerance, every attempt to add a patch at that position is turned down,
/// whatever has happened to the simulation in between.
pub proof fn lemma_occupancy_persists(
    s: Snapshot,
    steps: Seq<Step>,
    j: int,
    patch: GrowthPatch,
)
    requires
        s.wf(),
        0 <= j < s.patches.len(),
        within(s.patches[j].position, patch.position, s.config.tolerance),
    ensures
        occupied(s.run(steps).patches, patch.position, s.config.tolerance),
        inserted(s.run(steps).patches, patch, s.config.tolerance) == s.run(steps).patches,
{
    lemma_run(s, steps);
    assert(positions_kept(s.patches, s.run(steps).patches));
    lemma_occupied_for_good(s.patches, s.run(steps).patches, patch, s.config.tolerance);
}

/// The completion flag is right after every tick: it is up if and only if
/// every origin has finished expanding and every patch is fully mature.
pub proof fn lemma_completion_correct(s: Snapshot)
    ensures
        s.ticked().is_complete <==> all_complete(s.ticked().origins) && all_mature(
            s.ticked().patches,
            s.config.max_age,
        ),
{
}

/// Designating an origin takes the completion flag down, and rightly so:
/// the new origin has not finished expanding.
pub proof fn lemma_designate_reopens(s: Snapshot, world: Position)
    ensures
        !s.designated(world).is_complete,
        !s.designated(world).finished(),
        s.designated(world).origins.len() == s.origins.len() + 1,
{
    let t = s.designated(world);
    assert(!t.origins[s.origins.len() as int].expansion_complete);
}

/// A complete simulation is at rest: a tick changes nothing of it, until an
/// origin is designated.
pub proof fn lemma_complete_is_terminal(s: Snapshot)
    requires
        s.wf(),
        s.is_complete,
    ensures
        s.ticked() == s,
{
    let t = s.ticked();
    let expanded = s.expanded();
    lemma_expanded_all(s.origins, s.config.tick_duration);
    assert(expanded =~= s.origins);
    lemma_complete_origins_seed_nothing(
        expanded,
        expanded.len() as int,
        s.config,
        s.patches,
        s.config.tolerance,
    );
    assert(s.seeded() == s.patches);
    assert(t.origins =~= s.origins);
    assert forall|j: int| 0 <= j < s.patches.len() implies (#[trigger] t.patches[j])
        == s.patches[j] by {
        lemma_matured(s.patches[j], s.config.tick_duration, s.config.max_age);
    }
    assert(t.patches =~= s.patches);
}

/// A tick leaves no room inside a frontier: every cell that lies inside the
/// world and inside the ring of an origin that still expands after the
/// expansion step has, when the tick is over, a patch on it or closer to it
/// than the tolerance.
pub proof fn lemma_tick_covers(s: Snapshot, i: int, offset: (int, int))
    requires
        s.wf(),
        0 <= i < s.origins.len(),
        !s.expanded()[i].expansion_complete,
        in_bounds(s.expanded()[i].position, offset, s.config),
        in_ring(s.expanded()[i], offset, s.config.cell_size),
    ensures
        covered(
            s.ticked().patches,
            candidate(s.expanded()[i].position, offset, s.config.cell_size),
            s.config.tolerance,
        ),
{
    let t = s.ticked();
    let expanded = s.expanded();
    let seeded = s.seeded();
    let cell = candidate(expanded[i].position, offset, s.config.cell_size);
    let pending = seedings_upto(
        expanded,
        expanded.len() as int,
        s.config,
        s.patches,
        s.config.tolerance,
    );
    lemma_expanded_all(s.origins, s.config.tick_duration);
    lemma_committed(s.patches, pending, s.config, s.config.tolerance, s.config.max_age);
    lemma_matured_all(seeded, s.config.tick_duration, s.config.max_age);
    if occupied(s.patches, cell, s.config.tolerance) {
        let j = choose|j: int|
            0 <= j < s.patches.len() && within(
                (#[trigger] s.patches[j]).position,
                cell,
                s.config.tolerance,
            );
        assert(seeded[j] == s.patches[j]);
        assert(t.patches[j].position == seeded[j].position);
    } else {
        let seeding = Seeding { position: cell, origin: OriginId(i as usize) };
        assert(placeable(expanded[i], offset, s.config, s.patches, s.config.tolerance));
        assert(seeds(expanded, i, offset, s.config, s.patches, s.config.tolerance, seeding));
        lemma_seedings_complete(
            expanded,
            expanded.len() as int,
            s.config,
            s.patches,
            s.config.tolerance,
            i,
            offset,
            seeding,
        );
        let k = choose|k: int| 0 <= k < pending.len() && pending[k] == seeding;
        assert(covered(seeded, pending[k].position, s.config.tolerance));
        let j = choose|j: int|
            0 <= j < seeded.len() && ((#[trigger] seeded[j]).position == cell || within(
                seeded[j].position,
                cell,
                s.config.tolerance,
            ));
        assert(t.patches[j].position == seeded[j].position);
    }
}

/// Whether some patch of the sequence sits on the lattice cell of
/// `position`, at whatever height.
pub open spec fn on_cell(patches: Seq<GrowthPatch>, position: Position) -> bool {
    exists|j: int|
        0 <= j < patches.len() && (#[trigger] patches[j]).position.x == position.x
            && patches[j].position.z == position.z
}

/// Where the tolerance is no more than a cell, a tick fills the frontier
/// cell by cell, in whatever order the origins are scanned: every cell that
/// lies inside the world and inside the ring of an origin that still expands
/// after the expansion step has, when the tick is over, a patch on it.
pub proof fn lemma_tick_fills(s: Snapshot, i: int, offset: (int, int))
    requires
        s.wf(),
        s.config.tolerance <= s.config.cell_size,
        0 <= i < s.origins.len(),
        !s.expanded()[i].expansion_complete,
        in_bounds(s.expanded()[i].position, offset, s.config),
        in_ring(s.expanded()[i], offset, s.config.cell_size),
    ensures
        on_cell(
            s.ticked().patches,
            candidate(s.expanded()[i].position, offset, s.config.cell_size),
        ),
{
    let t = s.ticked();
    let cell = candidate(s.expanded()[i].position, offset, s.config.cell_size);
    lemma_tick_covers(s, i, offset);
    lemma_ticked_wf(s);
    lemma_expanded_all(s.origins, s.config.tick_duration);
    lemma_candidate_on_lattice(s.expanded()[i].position, offset, s.config);
    let j = choose|j: int|
        0 <= j < t.patches.len() && ((#[trigger] t.patches[j]).position == cell || within(
            t.patches[j].position,
            cell,
            s.config.tolerance,
        ));
    if t.patches[j].position.x != cell.x || t.patches[j].position.z != cell.z {
        lemma_lattice_apart(t.patches[j].position, cell, s.config.cell_size);
        assert(s.config.tolerance * s.config.tolerance <= s.config.cell_size
            * s.config.cell_size) by (nonlinear_arith)
            requires
                s.config.tolerance <= s.config.cell_size,
        ;
    }
}

} // verus!
