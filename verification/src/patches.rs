//! Growth patches, the store that holds them, and their maturation.

use crate::grid::{within, Position};
use crate::origins::OriginId;
use vstd::prelude::*;

verus! {

/// Identifies a patch by the order in which it was stored.
#[derive(Clone, Copy, Debug, PartialEq, Eq, Structural)]
pub struct PatchId(pub usize);

/// One cell of growth, maturing on its own.
#[derive(Clone, Copy, Debug, PartialEq, Eq, Structural)]
pub struct GrowthPatch {
    pub position: Position,
    /// Progress of maturation, from the initial age up to the cap.
    pub age: u32,
    /// Age gained per unit of time.
    pub maturation_rate: u32,
    /// The origin that seeded this patch. It names that origin and no more:
    /// the patch lives on whatever becomes of the origin.
    pub origin: OriginId,
}

impl GrowthPatch {
    /// A fresh patch: its age the initial one capped at `max_age`.
    pub open spec fn fresh(
        position: Position,
        initial_age: u32,
        maturation_rate: u32,
        origin: OriginId,
        max_age: u32,
    ) -> GrowthPatch {
        GrowthPatch {
            position,
            age: if initial_age <= max_age {
                initial_age
            } else {
                max_age
            },
            maturation_rate,
            origin,
        }
    }

    /// The age after `dt` more units of time, for a patch under the cap: the
    /// rate times `dt` is added, and the sum is capped at `max_age`.
    pub open spec fn grown_age(self, dt: u32, max_age: u32) -> int {
        let grown = self.age + self.maturation_rate * dt;
        if grown <= max_age {
            grown
        } else {
            max_age as int
        }
    }

    /// The patch after `dt` more units of time. A patch at or past the cap
    /// stays as it is.
    pub open spec fn matured(self, dt: u32, max_age: u32) -> GrowthPatch {
        if self.age < max_age {
            GrowthPatch { age: self.grown_age(dt, max_age) as u32, ..self }
        } else {
            self
        }
    }

    /// Makes a fresh patch.
    pub fn new(
        position: Position,
        initial_age: u32,
        maturation_rate: u32,
        origin: OriginId,
        max_age: u32,
    ) -> (patch: GrowthPatch)
        ensures
            patch == GrowthPatch::fresh(position, initial_age, maturation_rate, origin, max_age),
            patch.age <= max_age,
    {
        GrowthPatch {
            position,
            age: if initial_age <= max_age {
                initial_age
            } else {
                max_age
            },
            maturation_rate,
            origin,
        }
    }

    /// Ages the patch by `dt` units of time.
    pub fn mature(self, dt: u32, max_age: u32) -> (next: GrowthPatch)
        ensures
            next == self.matured(dt, max_age),
    {
        if self.age >= max_age {
            return self;
        }
        proof {
            assert(self.maturation_rate * dt <= 0xffff_ffff * 0xffff_ffff) by (nonlinear_arith)
                requires
                    self.maturation_rate <= 0xffff_ffff,
                    dt <= 0xffff_ffff,
            ;
        }
        let grown: u128 = self.age as u128 + self.maturation_rate as u128 * dt as u128;
        GrowthPatch {
            position: self.position,
            age: if grown <= max_age as u128 {
                grown as u32
            } else {
                max_age
            },
            maturation_rate: self.maturation_rate,
            origin: self.origin,
        }
    }
}

/// Maturation never lowers an age, never takes an age under the cap past it,
/// and changes nothing but the age.
pub proof fn lemma_matured(patch: GrowthPatch, dt: u32, max_age: u32)
    ensures
        patch.age <= patch.matured(dt, max_age).age,
        patch.age <= max_age ==> patch.matured(dt, max_age).age <= max_age,
        patch.age >= max_age ==> patch.matured(dt, max_age) == patch,
        patch.matured(dt, max_age).position == patch.position,
        patch.matured(dt, max_age).maturation_rate == patch.maturation_rate,
        patch.matured(dt, max_age).origin == patch.origin,
{
    assert(patch.maturation_rate * dt >= 0) by (nonlinear_arith);
}

/// Whether some patch of the sequence lies closer to `position` than
/// `tolerance`.
pub open spec fn occupied(patches: Seq<GrowthPatch>, position: Position, tolerance: u32) -> bool {
    exists|i: int|
        0 <= i < patches.len() && within((#[trigger] patches[i]).position, position, tolerance)
}

/// Whether no two patches of the sequence lie closer to each other than
/// `tolerance`.
pub open spec fn separated(patches: Seq<GrowthPatch>, tolerance: u32) -> bool {
    forall|i: int, j: int|
        0 <= i < j < patches.len() ==> !within(
            (#[trigger] patches[i]).position,
            (#[trigger] patches[j]).position,
            tolerance,
        )
}

/// Whether every patch of the sequence has reached `max_age`.
pub open spec fn all_mature(patches: Seq<GrowthPatch>, max_age: u32) -> bool {
    forall|i: int| 0 <= i < patches.len() ==> (#[trigger] patches[i]).age >= max_age
}

/// Whether no patch of the sequence is older than `max_age`.
pub open spec fn all_capped(patches: Seq<GrowthPatch>, max_age: u32) -> bool {
    forall|i: int| 0 <= i < patches.len() ==> (#[trigger] patches[i]).age <= max_age
}

/// Every patch of the sequence, aged by `dt` units of time.
pub open spec fn matured_all(patches: Seq<GrowthPatch>, dt: u32, max_age: u32) -> Seq<GrowthPatch> {
    patches.map_values(|p: GrowthPatch| p.matured(dt, max_age))
}

/// The sequence after an attempt to add `patch`: unchanged where its
/// position is occupied, longer by `patch` where it is free.
pub open spec fn inserted(patches: Seq<GrowthPatch>, patch: GrowthPatch, tolerance: u32) -> Seq<
    GrowthPatch,
> {
    if occupied(patches, patch.position, tolerance) {
        patches
    } else {
        patches.push(patch)
    }
}

/// Whether `after` still holds every patch of `before`, each in its place
/// and at its position.
pub open spec fn positions_kept(before: Seq<GrowthPatch>, after: Seq<GrowthPatch>) -> bool {
    &&& before.len() <= after.len()
    &&& forall|i: int|
        0 <= i < before.len() ==> (#[trigger] after[i]).position == before[i].position
}

/// Across one maturation step every age stays under the cap and none
/// decreases, whatever the length of the step; positions stay.
pub proof fn lemma_matured_all(patches: Seq<GrowthPatch>, dt: u32, max_age: u32)
    ensures
        matured_all(patches, dt, max_age).len() == patches.len(),
        all_capped(patches, max_age) ==> all_capped(matured_all(patches, dt, max_age), max_age),
        forall|i: int|
            0 <= i < patches.len() ==> patches[i].age <= (#[trigger] matured_all(
                patches,
                dt,
                max_age,
            )[i]).age,
        positions_kept(patches, matured_all(patches, dt, max_age)),
        forall|tolerance: u32|
            separated(patches, tolerance) ==> #[trigger] separated(
                matured_all(patches, dt, max_age),
                tolerance,
            ),
{
    let after = matured_all(patches, dt, max_age);
    assert forall|i: int| 0 <= i < patches.len() implies {
        let m = #[trigger] after[i];
        &&& patches[i].age <= m.age
        &&& (patches[i].age <= max_age ==> m.age <= max_age)
        &&& m.position == patches[i].position
    } by {
        lemma_matured(patches[i], dt, max_age);
    }
    assert forall|tolerance: u32| separated(patches, tolerance) implies #[trigger] separated(
        after,
        tolerance,
    ) by {
        assert forall|i: int, j: int| 0 <= i < j < after.len() implies !within(
            (#[trigger] after[i]).position,
            (#[trigger] after[j]).position,
            tolerance,
        ) by {
            assert(!within(patches[i].position, patches[j].position, tolerance));
        }
    }
}

/// Once a position is occupied it stays occupied for as long as patches
/// keep their places: every later attempt to add a patch there is turned
/// down.
pub proof fn lemma_occupied_for_good(
    before: Seq<GrowthPatch>,
    after: Seq<GrowthPatch>,
    patch: GrowthPatch,
    tolerance: u32,
)
    requires
        positions_kept(before, after),
        occupied(before, patch.position, tolerance),
    ensures
        occupied(after, patch.position, tolerance),
        inserted(after, patch, tolerance) == after,
{
    let i = choose|i: int|
        0 <= i < before.len() && within((#[trigger] before[i]).position, patch.position, tolerance);
    assert(within(after[i].position, patch.position, tolerance));
}

/// An attempt to add a patch keeps every earlier patch as it was, keeps the
/// patches apart, and leaves the position of the attempt occupied whenever
/// the tolerance is positive.
pub proof fn lemma_inserted(patches: Seq<GrowthPatch>, patch: GrowthPatch, tolerance: u32)
    ensures
        positions_kept(patches, inserted(patches, patch, tolerance)),
        forall|i: int|
            0 <= i < patches.len() ==> (#[trigger] inserted(patches, patch, tolerance)[i])
                == patches[i],
        separated(patches, tolerance) ==> separated(inserted(patches, patch, tolerance), tolerance),
        tolerance > 0 ==> occupied(inserted(patches, patch, tolerance), patch.position, tolerance),
        forall|max_age: u32|
            all_capped(patches, max_age) && patch.age <= max_age ==> #[trigger] all_capped(
                inserted(patches, patch, tolerance),
                max_age,
            ),
{
    let after = inserted(patches, patch, tolerance);
    if !occupied(patches, patch.position, tolerance) {
        if separated(patches, tolerance) {
            assert forall|i: int, j: int| 0 <= i < j < after.len() implies !within(
                (#[trigger] after[i]).position,
                (#[trigger] after[j]).position,
                tolerance,
            ) by {
                if j == patches.len() {
                    assert(!within(patches[i].position, patch.position, tolerance));
                } else {
                    assert(!within(patches[i].position, patches[j].position, tolerance));
                }
            }
        }
        if tolerance > 0 {
            crate::grid::lemma_within_symmetric(patch.position, patch.position, tolerance);
            assert(within(after[patches.len() as int].position, patch.position, tolerance));
        }
    }
}

/// The patches of a simulation, in the order in which they were seeded.
/// Patches are only ever added, never closer to an earlier patch than the
/// store's tolerance, and never older than the store's age cap.
pub struct GrowthPatchStore {
    patches: Vec<GrowthPatch>,
    tolerance: u32,
    max_age: u32,
}

impl View for GrowthPatchStore {
    type V = Seq<GrowthPatch>;

    closed spec fn view(&self) -> Seq<GrowthPatch> {
        self.patches@
    }
}

impl GrowthPatchStore {
    /// The distance under which a new patch counts as colliding with an
    /// old one.
    pub closed spec fn spec_tolerance(&self) -> u32 {
        self.tolerance
    }

    /// The age at which a patch is fully mature.
    pub closed spec fn spec_max_age(&self) -> u32 {
        self.max_age
    }

    /// No patch is older than the cap, and no two are closer to each other
    /// than the tolerance.
    pub open spec fn wf(&self) -> bool {
        &&& all_capped(self@, self.max_age())
        &&& separated(self@, self.tolerance())
    }

    /// A store holds no more patches than a `usize` can count.
    pub proof fn lemma_len_fits(&self)
        ensures
            self@.len() <= usize::MAX,
    {
        assert(self.patches.len() == self.patches@.len());
    }

    /// An empty store.
    pub fn new(tolerance: u32, max_age: u32) -> (store: GrowthPatchStore)
        ensures
            store@ == Seq::<GrowthPatch>::empty(),
            store.tolerance() == tolerance,
            store.max_age() == max_age,
            store.wf(),
    {
        GrowthPatchStore { patches: Vec::new(), tolerance, max_age }
    }

    /// The distance under which a new patch counts as colliding with an
    /// old one.
    #[verifier::when_used_as_spec(spec_tolerance)]
    pub fn tolerance(&self) -> (tolerance: u32)
        ensures
            tolerance == self.tolerance(),
    {
        self.tolerance
    }

    /// The age at which a patch is fully mature.
    #[verifier::when_used_as_spec(spec_max_age)]
    pub fn max_age(&self) -> (max_age: u32)
        ensures
            max_age == self.max_age(),
    {
        self.max_age
    }

    /// Number of stored patches.
    pub fn len(&self) -> (n: usize)
        ensures
            n == self@.len(),
    {
        self.patches.len()
    }

    /// The patch stored under `id`, if there is one.
    pub fn get(&self, id: PatchId) -> (patch: Option<GrowthPatch>)
        ensures
            patch == if id.0 < self@.len() {
                Some(self@[id.0 as int])
            } else {
                None
            },
    {
        if id.0 < self.patches.len() {
            Some(self.patches[id.0])
        } else {
            None
        }
    }

    /// Whether some stored patch lies closer to `position` than `tolerance`.
    pub fn is_occupied(&self, position: Position, tolerance: u32) -> (taken: bool)
        ensures
            taken == occupied(self@, position, tolerance),
    {
        let n = self.patches.len();
        let mut i: usize = 0;
        while i < n
            invariant
                i <= n,
                n == self.patches@.len(),
                forall|j: int|
                    0 <= j < i ==> !within(
                        (#[trigger] self.patches@[j]).position,
                        position,
                        tolerance,
                    ),
            decreases n - i,
        {
            if self.patches[i].position.is_within(&position, tolerance) {
                return true;
            }
            i += 1;
        }
        false
    }

    /// Adds a patch at `position` unless a stored patch lies closer to it
    /// than the store's tolerance. The initial age is capped at the store's
    /// age cap. Returns the new patch's identifier, or `None` where the
    /// position was occupied and nothing was added.
    pub fn insert(
        &mut self,
        position: Position,
        initial_age: u32,
        maturation_rate: u32,
        origin: OriginId,
    ) -> (id: Option<PatchId>)
        requires
            old(self).wf(),
        ensures
            final(self).wf(),
            final(self).tolerance() == old(self).tolerance(),
            final(self).max_age() == old(self).max_age(),
            final(self)@ == inserted(
                old(self)@,
                GrowthPatch::fresh(
                    position,
                    initial_age,
                    maturation_rate,
                    origin,
                    old(self).max_age(),
                ),
                old(self).tolerance(),
            ),
            match id {
                Some(id) => !occupied(old(self)@, position, old(self).tolerance()) && id.0
                    == old(self)@.len(),
                None => occupied(old(self)@, position, old(self).tolerance()),
            },
    {
        if self.is_occupied(position, self.tolerance) {
            return None;
        }
        let patch = GrowthPatch::new(position, initial_age, maturation_rate, origin, self.max_age);
        proof {
            lemma_inserted(self@, patch, self.tolerance);
        }
        let id = PatchId(self.patches.len());
        self.patches.push(patch);
        Some(id)
    }

    /// Ages every patch by `dt` units of time: a patch under the age cap
    /// gains its rate times `dt`, capped at the age cap.
    pub fn advance_ages(&mut self, dt: u32)
        requires
            old(self).wf(),
        ensures
            final(self).wf(),
            final(self).tolerance() == old(self).tolerance(),
            final(self).max_age() == old(self).max_age(),
            final(self)@ == matured_all(old(self)@, dt, old(self).max_age()),
            final(self)@.len() == old(self)@.len(),
            forall|i: int|
                0 <= i < old(self)@.len() ==> old(self)@[i].age <= (#[trigger] final(self)@[i]).age,
    {
        let n = self.patches.len();
        let max_age = self.max_age;
        let mut i: usize = 0;
        proof {
            lemma_matured_all(old(self)@, dt, max_age);
        }
        while i < n
            invariant
                i <= n,
                n == old(self)@.len(),
                self.patches@.len() == n,
                self.tolerance == old(self).tolerance,
                self.max_age == old(self).max_age,
                max_age == self.max_age,
                forall|j: int|
                    0 <= j < i ==> self.patches@[j] == old(self)@[j].matured(dt, max_age),
                forall|j: int| i <= j < n ==> self.patches@[j] == old(self)@[j],
            decreases n - i,
        {
            let next = self.patches[i].mature(dt, max_age);
            self.patches.set(i, next);
            i += 1;
        }
        assert(self@ =~= matured_all(old(self)@, dt, max_age));
    }

    /// Whether every stored patch has reached `max_age`. True of an empty
    /// store.
    pub fn all_mature(&self, max_age: u32) -> (done: bool)
        ensures
            done == all_mature(self@, max_age),
    {
        let n = self.patches.len();
        let mut i: usize = 0;
        while i < n
            invariant
                i <= n,
                n == self.patches@.len(),
                forall|j: int| 0 <= j < i ==> (#[trigger] self.patches@[j]).age >= max_age,
            decreases n - i,
        {
            if self.patches[i].age < max_age {
                return false;
            }
            i += 1;
        }
        true
    }
}

} // verus!
