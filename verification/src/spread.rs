//! The spread of growth: which cells an origin may seed, in which order
//! they are tried, and when an origin that finds no room is finished early.

use crate::config::GameConfig;
use crate::grid::{dist_sq, position_on_lattice, within, Position};
use crate::origins::{GrowthOrigin, OriginId, OriginRegistry};
use crate::patches::{
    all_capped, inserted, lemma_inserted, lemma_occupied_for_good, occupied, positions_kept,
    separated, GrowthPatch, GrowthPatchStore,
};
use vstd::prelude::*;

verus! {

/// A cell that an origin is about to seed.
#[derive(Clone, Copy, Debug, PartialEq, Eq, Structural)]
pub struct Seeding {
    pub position: Position,
    pub origin: OriginId,
}

/// How many cells a radius reaches along one axis.
pub open spec fn reach(radius: u32, cell: u32) -> int {
    radius as int / cell as int
}

/// The cell offsets that a scan visits, in its order: every pair between
/// `-reach` and `reach`, the first component slowest.
pub open spec fn offsets(reach: int) -> Seq<(int, int)> {
    let side = 2 * reach + 1;
    Seq::new((side * side) as nat, |n: int| (n / side - reach, n % side - reach))
}

/// The coordinate `cells` cells away from `v`.
pub open spec fn shifted(v: i64, cells: int, cell: u32) -> int {
    v + cells * cell
}

/// The lattice cell at `offset` from `origin`, at the origin's height.
pub open spec fn candidate(origin: Position, offset: (int, int), cell: u32) -> Position {
    Position {
        x: shifted(origin.x, offset.0, cell) as i64,
        y: origin.y,
        z: shifted(origin.z, offset.1, cell) as i64,
    }
}

/// Whether the cell at `offset` from `origin` lies inside the world.
pub open spec fn in_bounds(origin: Position, offset: (int, int), config: GameConfig) -> bool {
    &&& -config.half_extent <= shifted(origin.x, offset.0, config.cell_size) <= config.half_extent
    &&& -config.half_extent <= shifted(origin.z, offset.1, config.cell_size) <= config.half_extent
}

/// Whether the cell at `offset` lies inside the origin's frontier and at
/// least one cell away from the origin itself.
pub open spec fn in_ring(origin: GrowthOrigin, offset: (int, int), cell: u32) -> bool {
    let d = dist_sq(candidate(origin.position, offset, cell), origin.position);
    cell * cell <= d <= origin.radius * origin.radius
}

/// Whether an origin may seed the cell at `offset`, given the patches that
/// `taken` holds: the cell is inside the world, inside the ring, and free.
pub open spec fn placeable(
    origin: GrowthOrigin,
    offset: (int, int),
    config: GameConfig,
    taken: Seq<GrowthPatch>,
    tolerance: u32,
) -> bool {
    &&& in_bounds(origin.position, offset, config)
    &&& in_ring(origin, offset, config.cell_size)
    &&& !occupied(taken, candidate(origin.position, offset, config.cell_size), tolerance)
}

/// What a scan makes of one offset: a seeding where the cell is placeable,
/// nothing where it is not.
pub open spec fn seeding_at(
    origin: GrowthOrigin,
    id: OriginId,
    config: GameConfig,
    taken: Seq<GrowthPatch>,
    tolerance: u32,
) -> spec_fn((int, int)) -> Option<Seeding> {
    |offset: (int, int)|
        if placeable(origin, offset, config, taken, tolerance) {
            Some(
                Seeding {
                    position: candidate(origin.position, offset, config.cell_size),
                    origin: id,
                },
            )
        } else {
            None
        }
}

/// The cells that one origin is about to seed, in scanning order.
pub open spec fn origin_seedings(
    origin: GrowthOrigin,
    id: OriginId,
    config: GameConfig,
    taken: Seq<GrowthPatch>,
    tolerance: u32,
) -> Seq<Seeding> {
    offsets(reach(origin.radius, config.cell_size)).filter_map(
        seeding_at(origin, id, config, taken, tolerance),
    )
}

/// The cells that the first `n` origins are about to seed: origin by origin
/// in the order of registration, complete origins left out.
pub open spec fn seedings_upto(
    origins: Seq<GrowthOrigin>,
    n: int,
    config: GameConfig,
    taken: Seq<GrowthPatch>,
    tolerance: u32,
) -> Seq<Seeding>
    decreases n,
{
    if n <= 0 {
        Seq::empty()
    } else {
        let earlier = seedings_upto(origins, n - 1, config, taken, tolerance);
        if origins[n - 1].expansion_complete {
            earlier
        } else {
            earlier + origin_seedings(
                origins[n - 1],
                OriginId((n - 1) as usize),
                config,
                taken,
                tolerance,
            )
        }
    }
}

/// The patch that a seeding turns into.
pub open spec fn seeded_patch(seeding: Seeding, config: GameConfig, max_age: u32) -> GrowthPatch {
    GrowthPatch::fresh(
        seeding.position,
        config.initial_age,
        config.maturation_rate,
        seeding.origin,
        max_age,
    )
}

/// One step of committing: the attempt to add the patch of one seeding.
pub open spec fn commit_step(config: GameConfig, tolerance: u32, max_age: u32) -> spec_fn(
    Seq<GrowthPatch>,
    Seeding,
) -> Seq<GrowthPatch> {
    |patches: Seq<GrowthPatch>, seeding: Seeding|
        inserted(patches, seeded_patch(seeding, config, max_age), tolerance)
}

/// The patches after the seedings have been committed one by one, each
/// against everything stored before it.
pub open spec fn committed(
    patches: Seq<GrowthPatch>,
    pending: Seq<Seeding>,
    config: GameConfig,
    tolerance: u32,
    max_age: u32,
) -> Seq<GrowthPatch> {
    pending.fold_left(patches, commit_step(config, tolerance, max_age))
}

/// Whether none of the patches from index `from` on was seeded by `id`.
pub open spec fn seeded_none(patches: Seq<GrowthPatch>, from: int, id: OriginId) -> bool {
    forall|j: int| from <= j < patches.len() ==> (#[trigger] patches[j]).origin != id
}

/// Whether an origin has run out of room: it still expands, its radius has
/// reached the starvation radius, and none of the patches from index `from`
/// on is its own.
pub open spec fn starved(
    origin: GrowthOrigin,
    id: OriginId,
    patches: Seq<GrowthPatch>,
    from: int,
    config: GameConfig,
) -> bool {
    &&& !origin.expansion_complete
    &&& origin.radius >= config.starvation_radius
    &&& seeded_none(patches, from, id)
}

/// The origins after the starved ones have been declared complete.
pub open spec fn after_starvation(
    origins: Seq<GrowthOrigin>,
    patches: Seq<GrowthPatch>,
    from: int,
    config: GameConfig,
) -> Seq<GrowthOrigin> {
    Seq::new(
        origins.len(),
        |i: int|
            if starved(origins[i], OriginId(i as usize), patches, from, config) {
                origins[i].completed()
            } else {
                origins[i]
            },
    )
}

/// Whether some patch of the sequence lies at `position` or closer to it
/// than `tolerance`.
pub open spec fn covered(patches: Seq<GrowthPatch>, position: Position, tolerance: u32) -> bool {
    exists|j: int|
        0 <= j < patches.len() && ((#[trigger] patches[j]).position == position || within(
            patches[j].position,
            position,
            tolerance,
        ))
}

/// Whether `seeding` is what origin `i` makes of the cell at `offset`: the
/// origin still expands, the cell is placeable for it, and the seeding names
/// that cell and that origin.
pub open spec fn seeds(
    origins: Seq<GrowthOrigin>,
    i: int,
    offset: (int, int),
    config: GameConfig,
    taken: Seq<GrowthPatch>,
    tolerance: u32,
    seeding: Seeding,
) -> bool {
    &&& 0 <= i < origins.len()
    &&& !origins[i].expansion_complete
    &&& placeable(origins[i], offset, config, taken, tolerance)
    &&& seeding.position == candidate(origins[i].position, offset, config.cell_size)
    &&& seeding.origin == OriginId(i as usize)
}

/// The offset at a given place of the scanning order.
proof fn lemma_offset_at(reach: int, dx: int, dz: int)
    requires
        reach >= 0,
        -reach <= dx <= reach,
        -reach <= dz <= reach,
    ensures
        0 <= (dx + reach) * (2 * reach + 1) + (dz + reach) < offsets(reach).len(),
        offsets(reach)[(dx + reach) * (2 * reach + 1) + (dz + reach)] == (dx, dz),
        (dx + reach + 1) * (2 * reach + 1) == (dx + reach) * (2 * reach + 1) + (2 * reach + 1),
        offsets(reach).len() == (2 * reach + 1) * (2 * reach + 1),
{
    let side = 2 * reach + 1;
    let n = (dx + reach) * side + (dz + reach);
    assert(0 <= (dx + reach) * side <= 2 * reach * side) by (nonlinear_arith)
        requires
            0 <= dx + reach <= 2 * reach,
            side > 0,
    ;
    assert(side * side == 2 * reach * side + side) by (nonlinear_arith)
        requires
            side == 2 * reach + 1,
    ;
    assert((dx + reach + 1) * side == (dx + reach) * side + side) by (nonlinear_arith);
    assert(n == side * (dx + reach) + (dz + reach)) by (nonlinear_arith)
        requires
            n == (dx + reach) * side + (dz + reach),
    ;
    vstd::arithmetic::div_mod::lemma_fundamental_div_mod_converse(n, side, dx + reach, dz + reach);
}

/// Tries one cell for an origin.
fn probe(
    origin: &GrowthOrigin,
    id: OriginId,
    dx: i64,
    dz: i64,
    config: &GameConfig,
    store: &GrowthPatchStore,
) -> (found: Option<Seeding>)
    requires
        config.is_valid(),
        -reach(origin.radius, config.cell_size) <= dx <= reach(origin.radius, config.cell_size),
        -reach(origin.radius, config.cell_size) <= dz <= reach(origin.radius, config.cell_size),
    ensures
        found == seeding_at(*origin, id, *config, store@, store.tolerance())(
            (dx as int, dz as int),
        ),
{
    let cell: i128 = config.cell_size as i128;
    let radius: i128 = origin.radius as i128;
    let half: i128 = config.half_extent as i128;
    proof {
        let k = reach(origin.radius, config.cell_size);
        vstd::arithmetic::div_mod::lemma_fundamental_div_mod(radius as int, cell as int);
        vstd::arithmetic::div_mod::lemma_mod_bound(radius as int, cell as int);
        assert(0 <= k * cell <= radius) by (nonlinear_arith)
            requires
                radius == cell * k + (radius % cell),
                0 <= radius % cell,
                cell > 0,
                radius >= 0,
        ;
        assert(-(k * cell) <= dx * cell <= k * cell) by (nonlinear_arith)
            requires
                -k <= dx <= k,
                cell > 0,
        ;
        assert(-(k * cell) <= dz * cell <= k * cell) by (nonlinear_arith)
            requires
                -k <= dz <= k,
                cell > 0,
        ;
    }
    let ox: i128 = dx as i128 * cell;
    let oz: i128 = dz as i128 * cell;
    let sx: i128 = origin.position.x as i128 + ox;
    let sz: i128 = origin.position.z as i128 + oz;
    if sx < -half || sx > half || sz < -half || sz > half {
        return None;
    }
    proof {
        assert(0 <= ox * ox <= 0xffff_ffff * 0xffff_ffff) by (nonlinear_arith)
            requires
                -0xffff_ffff <= ox <= 0xffff_ffff,
        ;
        assert(0 <= oz * oz <= 0xffff_ffff * 0xffff_ffff) by (nonlinear_arith)
            requires
                -0xffff_ffff <= oz <= 0xffff_ffff,
        ;
        assert(0 <= cell * cell <= 0xffff_ffff * 0xffff_ffff) by (nonlinear_arith)
            requires
                0 <= cell <= 0xffff_ffff,
        ;
        assert(0 <= radius * radius <= 0xffff_ffff * 0xffff_ffff) by (nonlinear_arith)
            requires
                0 <= radius <= 0xffff_ffff,
        ;
    }
    let position = Position { x: sx as i64, y: origin.position.y, z: sz as i64 };
    let d: i128 = ox * ox + oz * oz;
    proof {
        let c = candidate(origin.position, (dx as int, dz as int), config.cell_size);
        assert(c == position);
        let gx = c.x - origin.position.x;
        let gy = c.y - origin.position.y;
        let gz = c.z - origin.position.z;
        assert(gx == ox && gy == 0 && gz == oz);
        assert(gx * gx == ox * ox && gy * gy == 0 && gz * gz == oz * oz) by (nonlinear_arith)
            requires
                gx == ox,
                gy == 0,
                gz == oz,
        ;
        assert(dist_sq(c, origin.position) == d);
    }
    if d < cell * cell || d > radius * radius {
        return None;
    }
    if store.is_occupied(position, store.tolerance()) {
        return None;
    }
    Some(Seeding { position, origin: id })
}

/// Scans the cells in reach of one origin and appends those it may seed.
fn scan_origin(
    origin: &GrowthOrigin,
    id: OriginId,
    config: &GameConfig,
    store: &GrowthPatchStore,
    pending: &mut Vec<Seeding>,
)
    requires
        config.is_valid(),
    ensures
        final(pending)@ == old(pending)@ + origin_seedings(
            *origin,
            id,
            *config,
            store@,
            store.tolerance(),
        ),
{
    let k: i64 = (origin.radius / config.cell_size) as i64;
    let ghost all = offsets(k as int);
    let ghost side = 2 * k + 1;
    let ghost f = seeding_at(*origin, id, *config, store@, store.tolerance());
    let ghost mut n: int = 0;
    let mut dx: i64 = -k;
    proof {
        lemma_offset_at(k as int, -k, -k);
        assert((dx + k) * side == 0) by (nonlinear_arith)
            requires
                dx + k == 0,
        ;
        assert(all.take(0).filter_map(f) =~= Seq::<Seeding>::empty());
        assert(pending@ =~= old(pending)@ + all.take(0).filter_map(f));
    }
    while dx <= k
        invariant
            config.is_valid(),
            0 <= k <= u32::MAX,
            k == reach(origin.radius, config.cell_size),
            all == offsets(k as int),
            all.len() == side * side,
            side == 2 * k + 1,
            f == seeding_at(*origin, id, *config, store@, store.tolerance()),
            -k <= dx <= k + 1,
            n == (dx + k) * side,
            0 <= n <= all.len(),
            pending@ == old(pending)@ + all.take(n).filter_map(f),
        decreases k + 1 - dx,
    {
        let mut dz: i64 = -k;
        proof {
            lemma_offset_at(k as int, dx as int, -k);
        }
        while dz <= k
            invariant
                config.is_valid(),
                0 <= k <= u32::MAX,
                k == reach(origin.radius, config.cell_size),
                all == offsets(k as int),
                all.len() == side * side,
                side == 2 * k + 1,
                f == seeding_at(*origin, id, *config, store@, store.tolerance()),
                -k <= dx <= k,
                -k <= dz <= k + 1,
                n == (dx + k) * side + (dz + k),
                0 <= n <= all.len(),
                pending@ == old(pending)@ + all.take(n).filter_map(f),
            decreases k + 1 - dz,
        {
            proof {
                lemma_offset_at(k as int, dx as int, dz as int);
                all.lemma_filter_map_take_succ(f, n);
            }
            match probe(origin, id, dx, dz, config, store) {
                Some(seeding) => {
                    pending.push(seeding);
                },
                None => {},
            }
            proof {
                n = n + 1;
                assert(pending@ =~= old(pending)@ + all.take(n).filter_map(f));
            }
            dz += 1;
        }
        dx += 1;
    }
    proof {
        assert(n == side * side) by (nonlinear_arith)
            requires
                n == (dx + k) * side,
                dx == k + 1,
                side == 2 * k + 1,
        ;
        assert(all.take(n) =~= all);
    }
}

/// Scans every origin that still expands, in the order of registration.
fn scan_all(origins: &OriginRegistry, config: &GameConfig, store: &GrowthPatchStore) -> (pending:
    Vec<Seeding>)
    requires
        config.is_valid(),
    ensures
        pending@ == seedings_upto(
            origins@,
            origins@.len() as int,
            *config,
            store@,
            store.tolerance(),
        ),
{
    let mut pending: Vec<Seeding> = Vec::new();
    let n = origins.len();
    let mut i: usize = 0;
    while i < n
        invariant
            config.is_valid(),
            i <= n,
            n == origins@.len(),
            pending@ == seedings_upto(origins@, i as int, *config, store@, store.tolerance()),
        decreases n - i,
    {
        match origins.get(OriginId(i)) {
            Some(origin) => {
                if !origin.expansion_complete {
                    scan_origin(&origin, OriginId(i), config, store, &mut pending);
                }
            },
            None => {},
        }
        i += 1;
    }
    pending
}

/// Commits the seedings one by one and counts, origin by origin, the
/// patches that came of them.
fn commit(
    store: &mut GrowthPatchStore,
    pending: &Vec<Seeding>,
    config: &GameConfig,
    origins: usize,
) -> (counts: Vec<usize>)
    requires
        old(store).wf(),
    ensures
        final(store).wf(),
        final(store).tolerance() == old(store).tolerance(),
        final(store).max_age() == old(store).max_age(),
        final(store)@ == committed(
            old(store)@,
            pending@,
            *config,
            old(store).tolerance(),
            old(store).max_age(),
        ),
        counts@.len() == origins,
        forall|i: int|
            0 <= i < origins ==> ((#[trigger] counts@[i]) == 0 <==> seeded_none(
                final(store)@,
                old(store)@.len() as int,
                OriginId(i as usize),
            )),
{
    let mut counts: Vec<usize> = Vec::new();
    while counts.len() < origins
        invariant
            counts@.len() <= origins,
            forall|i: int| 0 <= i < counts@.len() ==> counts@[i] == 0,
        decreases origins - counts@.len(),
    {
        counts.push(0);
    }
    let ghost before = store@;
    let ghost step = commit_step(*config, store.tolerance(), store.max_age());
    let n = pending.len();
    let mut j: usize = 0;
    assert(pending@.take(0) =~= Seq::<Seeding>::empty());
    while j < n
        invariant
            j <= n,
            n == pending@.len(),
            store.wf(),
            store.tolerance() == old(store).tolerance(),
            store.max_age() == old(store).max_age(),
            before == old(store)@,
            step == commit_step(*config, old(store).tolerance(), old(store).max_age()),
            store@ == pending@.take(j as int).fold_left(before, step),
            before.len() <= store@.len(),
            counts@.len() == origins,
            forall|i: int|
                0 <= i < origins ==> (#[trigger] counts@[i]) <= store@.len() - before.len(),
            forall|i: int|
                0 <= i < origins ==> ((#[trigger] counts@[i]) == 0 <==> seeded_none(
                    store@,
                    before.len() as int,
                    OriginId(i as usize),
                )),
        decreases n - j,
    {
        let seeding = pending[j];
        let ghost earlier = store@;
        proof {
            assert(pending@.take(j + 1).drop_last() =~= pending@.take(j as int));
        }
        let added = store.insert(
            seeding.position,
            config.initial_age,
            config.maturation_rate,
            seeding.origin,
        );
        if added.is_some() {
            let ghost at = earlier.len() as int;
            assert(store@[at].origin == seeding.origin);
            assert forall|id: OriginId| id != seeding.origin implies (#[trigger] seeded_none(
                store@,
                before.len() as int,
                id,
            ) <==> seeded_none(earlier, before.len() as int, id)) by {
                if seeded_none(earlier, before.len() as int, id) {
                    assert forall|m: int| before.len() <= m < store@.len() implies
                        (#[trigger] store@[m]).origin != id by {
                        if m < at {
                            assert(earlier[m].origin != id);
                        }
                    }
                } else {
                    let m = choose|m: int|
                        before.len() <= m < earlier.len() && (#[trigger] earlier[m]).origin == id;
                    assert(store@[m].origin == id);
                }
            }
            if seeding.origin.0 < origins {
                proof {
                    store.lemma_len_fits();
                }
                let count = counts[seeding.origin.0];
                counts.set(seeding.origin.0, count + 1);
            }
        }
        j += 1;
    }
    assert(pending@.take(n as int) =~= pending@);
    counts
}

/// Whether an origin with this count of new patches has run out of room.
spec fn out_of_room(origin: GrowthOrigin, count: usize, config: GameConfig) -> bool {
    &&& !origin.expansion_complete
    &&& origin.radius >= config.starvation_radius
    &&& count == 0
}

/// Declares complete every origin that still expands, has reached the
/// starvation radius, and has a count of zero.
fn finish_starved(origins: &mut OriginRegistry, counts: &Vec<usize>, config: &GameConfig)
    requires
        old(origins).wf(),
        counts@.len() == old(origins)@.len(),
    ensures
        final(origins).wf(),
        final(origins)@.len() == old(origins)@.len(),
        forall|i: int|
            0 <= i < old(origins)@.len() ==> (#[trigger] final(origins)@[i]) == if out_of_room(
                old(origins)@[i],
                counts@[i],
                *config,
            ) {
                old(origins)@[i].completed()
            } else {
                old(origins)@[i]
            },
{
    let n = origins.len();
    let mut i: usize = 0;
    while i < n
        invariant
            i <= n,
            n == old(origins)@.len(),
            origins@.len() == n,
            counts@.len() == n,
            origins.wf(),
            forall|j: int| i <= j < n ==> (#[trigger] origins@[j]) == old(origins)@[j],
            forall|j: int|
                0 <= j < i ==> (#[trigger] origins@[j]) == if out_of_room(
                    old(origins)@[j],
                    counts@[j],
                    *config,
                ) {
                    old(origins)@[j].completed()
                } else {
                    old(origins)@[j]
                },
        decreases n - i,
    {
        if counts[i] == 0 {
            match origins.get(OriginId(i)) {
                Some(origin) => {
                    if !origin.expansion_complete && origin.radius >= config.starvation_radius {
                        origins.mark_complete(OriginId(i));
                    }
                },
                None => {},
            }
        }
        i += 1;
    }
}

/// Runs one spread tick. Every origin that still expands is scanned against
/// the patches as they stand; then the cells found are seeded one by one,
/// each unless something stored by then lies too close; then every origin
/// that seeded nothing, though its radius has reached the starvation radius,
/// is declared complete.
pub fn spread(origins: &mut OriginRegistry, patches: &mut GrowthPatchStore, config: &GameConfig)
    requires
        old(origins).wf(),
        old(patches).wf(),
        config.is_valid(),
    ensures
        final(origins).wf(),
        final(patches).wf(),
        final(patches).tolerance() == old(patches).tolerance(),
        final(patches).max_age() == old(patches).max_age(),
        final(patches)@ == committed(
            old(patches)@,
            seedings_upto(
                old(origins)@,
                old(origins)@.len() as int,
                *config,
                old(patches)@,
                old(patches).tolerance(),
            ),
            *config,
            old(patches).tolerance(),
            old(patches).max_age(),
        ),
        final(origins)@ == after_starvation(
            old(origins)@,
            final(patches)@,
            old(patches)@.len() as int,
            *config,
        ),
{
    let pending = scan_all(origins, config, patches);
    let counts = commit(patches, &pending, config, origins.len());
    finish_starved(origins, &counts, config);
    assert(origins@ =~= after_starvation(
        old(origins)@,
        patches@,
        old(patches)@.len() as int,
        *config,
    ));
}

/// A cell at whole cells from a lattice position is on the lattice.
pub proof fn lemma_candidate_on_lattice(origin: Position, offset: (int, int), config: GameConfig)
    requires
        config.is_valid(),
        position_on_lattice(origin, config.cell_size),
        in_bounds(origin, offset, config),
    ensures
        position_on_lattice(candidate(origin, offset, config.cell_size), config.cell_size),
{
    let cell = config.cell_size as int;
    vstd::arithmetic::div_mod::lemma_mod_multiples_vanish(offset.0, origin.x as int, cell);
    vstd::arithmetic::div_mod::lemma_mod_multiples_vanish(offset.1, origin.z as int, cell);
    assert(cell * offset.0 == offset.0 * cell && cell * offset.1 == offset.1 * cell)
        by (nonlinear_arith);
}

/// A cell inside an origin's ring is within the origin's reach.
pub proof fn lemma_ring_in_reach(origin: GrowthOrigin, offset: (int, int), config: GameConfig)
    requires
        config.is_valid(),
        in_bounds(origin.position, offset, config),
        in_ring(origin, offset, config.cell_size),
    ensures
        -reach(origin.radius, config.cell_size) <= offset.0 <= reach(
            origin.radius,
            config.cell_size,
        ),
        -reach(origin.radius, config.cell_size) <= offset.1 <= reach(
            origin.radius,
            config.cell_size,
        ),
        offset != (0int, 0int),
{
    let cell = config.cell_size as int;
    let radius = origin.radius as int;
    let k = reach(origin.radius, config.cell_size);
    let c = candidate(origin.position, offset, config.cell_size);
    let gx = c.x - origin.position.x;
    let gy = c.y - origin.position.y;
    let gz = c.z - origin.position.z;
    let (dx, dz) = offset;
    assert(gx == dx * cell && gy == 0 && gz == dz * cell);
    vstd::arithmetic::div_mod::lemma_fundamental_div_mod(radius, cell);
    vstd::arithmetic::div_mod::lemma_mod_bound(radius, cell);
    assert(radius < (k + 1) * cell) by (nonlinear_arith)
        requires
            radius == cell * k + radius % cell,
            radius % cell < cell,
    ;
    assert(-k <= dx <= k && -k <= dz <= k && (dx != 0 || dz != 0)) by (nonlinear_arith)
        requires
            cell * cell <= gx * gx + gy * gy + gz * gz <= radius * radius,
            gx == dx * cell,
            gy == 0,
            gz == dz * cell,
            0 <= radius < (k + 1) * cell,
            cell > 0,
            k >= 0,
    ;
}

/// Every seeding of one origin names a cell that is placeable for it.
pub proof fn lemma_origin_seedings_sound(
    origin: GrowthOrigin,
    id: OriginId,
    config: GameConfig,
    taken: Seq<GrowthPatch>,
    tolerance: u32,
    seeding: Seeding,
)
    requires
        origin_seedings(origin, id, config, taken, tolerance).contains(seeding),
    ensures
        seeding.origin == id,
        exists|offset: (int, int)|
            #[trigger] placeable(origin, offset, config, taken, tolerance) && seeding.position
                == candidate(origin.position, offset, config.cell_size),
{
    let all = offsets(reach(origin.radius, config.cell_size));
    let f = seeding_at(origin, id, config, taken, tolerance);
    all.lemma_filter_map_contains(f, seeding);
    let offset = choose|offset: (int, int)| #[trigger]
        all.contains(offset) && f(offset) == Some(seeding);
    assert(placeable(origin, offset, config, taken, tolerance));
}

/// Every cell that is placeable for an origin is among its seedings.
pub proof fn lemma_origin_seedings_complete(
    origin: GrowthOrigin,
    id: OriginId,
    config: GameConfig,
    taken: Seq<GrowthPatch>,
    tolerance: u32,
    offset: (int, int),
)
    requires
        config.is_valid(),
        placeable(origin, offset, config, taken, tolerance),
    ensures
        origin_seedings(origin, id, config, taken, tolerance).contains(
            Seeding {
                position: candidate(origin.position, offset, config.cell_size),
                origin: id,
            },
        ),
{
    let k = reach(origin.radius, config.cell_size);
    let all = offsets(k);
    let f = seeding_at(origin, id, config, taken, tolerance);
    lemma_ring_in_reach(origin, offset, config);
    lemma_offset_at(k, offset.0, offset.1);
    let n = (offset.0 + k) * (2 * k + 1) + (offset.1 + k);
    assert(all[n] == offset);
    lemma_filter_map_keeps(all, f, n);
}

/// What `filter_map` makes of an element is in its result.
proof fn lemma_filter_map_keeps<A, B>(s: Seq<A>, f: spec_fn(A) -> Option<B>, i: int)
    requires
        0 <= i < s.len(),
        f(s[i]) is Some,
    ensures
        s.filter_map(f).contains(f(s[i])->0),
    decreases s.len(),
{
    let rest = s.drop_last();
    let out = s.filter_map(f);
    if i == s.len() - 1 {
        assert(out == rest.filter_map(f) + seq![f(s[i])->0]);
        assert(out[out.len() - 1] == f(s[i])->0);
    } else {
        lemma_filter_map_keeps(rest, f, i);
        let inner = rest.filter_map(f);
        let j = choose|j: int| 0 <= j < inner.len() && inner[j] == f(s[i])->0;
        assert(out[j] == inner[j]);
    }
}

/// Every seeding of a tick is what some origin that still expands makes of
/// a cell that is placeable for it.
pub proof fn lemma_seedings_sound(
    origins: Seq<GrowthOrigin>,
    n: int,
    config: GameConfig,
    taken: Seq<GrowthPatch>,
    tolerance: u32,
    seeding: Seeding,
)
    requires
        0 <= n <= origins.len(),
        seedings_upto(origins, n, config, taken, tolerance).contains(seeding),
    ensures
        exists|i: int, offset: (int, int)|
            0 <= i < n && #[trigger] seeds(origins, i, offset, config, taken, tolerance, seeding),
    decreases n,
{
    if n > 0 {
        let earlier = seedings_upto(origins, n - 1, config, taken, tolerance);
        let id = OriginId((n - 1) as usize);
        let own = origin_seedings(origins[n - 1], id, config, taken, tolerance);
        if earlier.contains(seeding) {
            lemma_seedings_sound(origins, n - 1, config, taken, tolerance, seeding);
            let (i, offset) = choose|i: int, offset: (int, int)|
                0 <= i < n - 1 && #[trigger] seeds(
                    origins,
                    i,
                    offset,
                    config,
                    taken,
                    tolerance,
                    seeding,
                );
            assert(0 <= i < n && seeds(origins, i, offset, config, taken, tolerance, seeding));
        } else {
            let all = seedings_upto(origins, n, config, taken, tolerance);
            let at = choose|at: int| 0 <= at < all.len() && all[at] == seeding;
            if at < earlier.len() {
                assert(earlier[at] == seeding);
            }
            assert(!origins[n - 1].expansion_complete);
            assert(own[at - earlier.len()] == seeding);
            lemma_origin_seedings_sound(origins[n - 1], id, config, taken, tolerance, seeding);
            let offset = choose|offset: (int, int)|
                #[trigger] placeable(origins[n - 1], offset, config, taken, tolerance)
                    && seeding.position == candidate(
                    origins[n - 1].position,
                    offset,
                    config.cell_size,
                );
            assert(seeds(origins, n - 1, offset, config, taken, tolerance, seeding));
        }
    }
}

/// Whatever an origin that still expands makes of a placeable cell is among
/// the seedings of the tick.
pub proof fn lemma_seedings_complete(
    origins: Seq<GrowthOrigin>,
    n: int,
    config: GameConfig,
    taken: Seq<GrowthPatch>,
    tolerance: u32,
    i: int,
    offset: (int, int),
    seeding: Seeding,
)
    requires
        config.is_valid(),
        0 <= i < n <= origins.len(),
        seeds(origins, i, offset, config, taken, tolerance, seeding),
    ensures
        seedings_upto(origins, n, config, taken, tolerance).contains(seeding),
    decreases n,
{
    let earlier = seedings_upto(origins, n - 1, config, taken, tolerance);
    let all = seedings_upto(origins, n, config, taken, tolerance);
    if i < n - 1 {
        lemma_seedings_complete(origins, n - 1, config, taken, tolerance, i, offset, seeding);
        let at = choose|at: int| 0 <= at < earlier.len() && earlier[at] == seeding;
        assert(all[at] == seeding);
    } else {
        let id = OriginId(i as usize);
        let own = origin_seedings(origins[i], id, config, taken, tolerance);
        lemma_origin_seedings_complete(origins[i], id, config, taken, tolerance, offset);
        let at = choose|at: int| 0 <= at < own.len() && own[at] == seeding;
        assert(all[earlier.len() + at] == seeding);
    }
}

/// Committing keeps every earlier patch as it was, keeps the patches apart
/// and under the age cap, adds nothing but patches of seedings whose cell
/// was free, and leaves the cell of every seeding covered.
pub proof fn lemma_committed(
    patches: Seq<GrowthPatch>,
    pending: Seq<Seeding>,
    config: GameConfig,
    tolerance: u32,
    max_age: u32,
)
    ensures
        positions_kept(patches, committed(patches, pending, config, tolerance, max_age)),
        forall|i: int|
            0 <= i < patches.len() ==> (#[trigger] committed(
                patches,
                pending,
                config,
                tolerance,
                max_age,
            )[i]) == patches[i],
        separated(patches, tolerance) ==> separated(
            committed(patches, pending, config, tolerance, max_age),
            tolerance,
        ),
        all_capped(patches, max_age) ==> all_capped(
            committed(patches, pending, config, tolerance, max_age),
            max_age,
        ),
        forall|j: int|
            patches.len() <= j < committed(patches, pending, config, tolerance, max_age).len()
                ==> exists|k: int|
                0 <= k < pending.len() && (#[trigger] committed(
                    patches,
                    pending,
                    config,
                    tolerance,
                    max_age,
                )[j]) == seeded_patch(#[trigger] pending[k], config, max_age) && !occupied(
                    patches,
                    pending[k].position,
                    tolerance,
                ),
        forall|k: int|
            0 <= k < pending.len() ==> covered(
                committed(patches, pending, config, tolerance, max_age),
                (#[trigger] pending[k]).position,
                tolerance,
            ),
    decreases pending.len(),
{
    let after = committed(patches, pending, config, tolerance, max_age);
    if pending.len() > 0 {
        let rest = pending.drop_last();
        let last = pending.last();
        let patch = seeded_patch(last, config, max_age);
        let prev = committed(patches, rest, config, tolerance, max_age);
        lemma_committed(patches, rest, config, tolerance, max_age);
        lemma_inserted(prev, patch, tolerance);
        assert(after == inserted(prev, patch, tolerance));
        assert forall|j: int| patches.len() <= j < after.len() implies exists|k: int|
            0 <= k < pending.len() && (#[trigger] after[j]) == seeded_patch(
                #[trigger] pending[k],
                config,
                max_age,
            ) && !occupied(patches, pending[k].position, tolerance) by {
            if j < prev.len() {
                let k = choose|k: int|
                    0 <= k < rest.len() && prev[j] == seeded_patch(
                        #[trigger] rest[k],
                        config,
                        max_age,
                    ) && !occupied(patches, rest[k].position, tolerance);
                assert(pending[k] == rest[k]);
            } else {
                if occupied(patches, last.position, tolerance) {
                    lemma_occupied_for_good(patches, prev, patch, tolerance);
                }
                assert(pending[pending.len() - 1] == last);
            }
        }
        assert forall|k: int| 0 <= k < pending.len() implies covered(
            after,
            (#[trigger] pending[k]).position,
            tolerance,
        ) by {
            if k < rest.len() {
                assert(rest[k] == pending[k]);
                let j = choose|j: int|
                    0 <= j < prev.len() && ((#[trigger] prev[j]).position == rest[k].position
                        || within(prev[j].position, rest[k].position, tolerance));
                assert(after[j] == prev[j]);
            } else {
                if occupied(prev, last.position, tolerance) {
                    let j = choose|j: int|
                        0 <= j < prev.len() && within(
                            (#[trigger] prev[j]).position,
                            last.position,
                            tolerance,
                        );
                    assert(after[j] == prev[j]);
                } else {
                    assert(after[prev.len() as int].position == last.position);
                }
            }
        }
    }
}

/// Origins that have all finished expanding seed nothing.
pub proof fn lemma_complete_origins_seed_nothing(
    origins: Seq<GrowthOrigin>,
    n: int,
    config: GameConfig,
    taken: Seq<GrowthPatch>,
    tolerance: u32,
)
    requires
        n <= origins.len(),
        forall|i: int| 0 <= i < origins.len() ==> (#[trigger] origins[i]).expansion_complete,
    ensures
        seedings_upto(origins, n, config, taken, tolerance) == Seq::<Seeding>::empty(),
    decreases n,
{
    if n > 0 {
        lemma_complete_origins_seed_nothing(origins, n - 1, config, taken, tolerance);
    }
}

} // verus!
