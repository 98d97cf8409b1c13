//! Growth origins, their registry, and the expansion of their radii.

use crate::grid::Position;
use vstd::prelude::*;

verus! {

/// Identifies an origin by the order in which it was registered.
#[derive(Clone, Copy, Debug, PartialEq, Eq, Structural)]
pub struct OriginId(pub usize);

/// A designated source of growth with an expanding radius.
#[derive(Clone, Copy, Debug, PartialEq, Eq, Structural)]
pub struct GrowthOrigin {
    pub position: Position,
    /// Current radius of the frontier.
    pub radius: u32,
    /// Radius gained per unit of time.
    pub expansion_rate: u32,
    /// Cap of the radius.
    pub max_radius: u32,
    /// Set once the origin has stopped expanding, for good.
    pub expansion_complete: bool,
}

impl GrowthOrigin {
    /// The radius stays under its cap.
    pub open spec fn bounded(self) -> bool {
        self.radius <= self.max_radius
    }

    /// A fresh origin: not complete, its radius the initial one capped at
    /// `max_radius`.
    pub open spec fn fresh(
        position: Position,
        initial_radius: u32,
        expansion_rate: u32,
        max_radius: u32,
    ) -> GrowthOrigin {
        GrowthOrigin {
            position,
            radius: if initial_radius <= max_radius {
                initial_radius
            } else {
                max_radius
            },
            expansion_rate,
            max_radius,
            expansion_complete: false,
        }
    }

    /// The radius after `dt` more units of time: the rate times `dt` is
    /// added, and the sum is capped at `max_radius`.
    pub open spec fn grown_radius(self, dt: u32) -> int {
        let grown = self.radius + self.expansion_rate * dt;
        if grown <= self.max_radius {
            grown
        } else {
            self.max_radius as int
        }
    }

    /// The origin after `dt` more units of time. A complete origin stays as
    /// it is; any other grows, and is complete once it is at its cap.
    pub open spec fn expanded(self, dt: u32) -> GrowthOrigin {
        if self.expansion_complete {
            self
        } else {
            GrowthOrigin {
                radius: self.grown_radius(dt) as u32,
                expansion_complete: self.grown_radius(dt) == self.max_radius,
                ..self
            }
        }
    }

    /// The origin with its expansion declared complete.
    pub open spec fn completed(self) -> GrowthOrigin {
        GrowthOrigin { expansion_complete: true, ..self }
    }

    /// Makes a fresh origin.
    pub fn new(position: Position, initial_radius: u32, expansion_rate: u32, max_radius: u32) -> (origin:
        GrowthOrigin)
        ensures
            origin == GrowthOrigin::fresh(position, initial_radius, expansion_rate, max_radius),
            origin.bounded(),
            !origin.expansion_complete,
    {
        GrowthOrigin {
            position,
            radius: if initial_radius <= max_radius {
                initial_radius
            } else {
                max_radius
            },
            expansion_rate,
            max_radius,
            expansion_complete: false,
        }
    }

    /// Advances the origin by `dt` units of time.
    pub fn expand(self, dt: u32) -> (next: GrowthOrigin)
        ensures
            next == self.expanded(dt),
    {
        if self.expansion_complete {
            return self;
        }
        proof {
            assert(self.expansion_rate * dt <= 0xffff_ffff * 0xffff_ffff) by (nonlinear_arith)
                requires
                    self.expansion_rate <= 0xffff_ffff,
                    dt <= 0xffff_ffff,
            ;
        }
        let grown: u128 = self.radius as u128 + self.expansion_rate as u128 * dt as u128;
        let radius: u32 = if grown <= self.max_radius as u128 {
            grown as u32
        } else {
            self.max_radius
        };
        GrowthOrigin {
            position: self.position,
            radius,
            expansion_rate: self.expansion_rate,
            max_radius: self.max_radius,
            expansion_complete: radius == self.max_radius,
        }
    }
}

/// Expansion never shrinks a bounded radius, never takes it past the cap,
/// never touches a complete origin and never reopens one.
pub proof fn lemma_expanded(origin: GrowthOrigin, dt: u32)
    requires
        origin.bounded(),
    ensures
        origin.expanded(dt).bounded(),
        origin.radius <= origin.expanded(dt).radius,
        origin.expansion_complete ==> origin.expanded(dt) == origin,
        origin.expanded(dt).expansion_complete <==> origin.expansion_complete || origin.expanded(
            dt,
        ).radius == origin.max_radius,
        origin.expanded(dt).position == origin.position,
        origin.expanded(dt).max_radius == origin.max_radius,
        origin.expanded(dt).expansion_rate == origin.expansion_rate,
{
    assert(origin.expansion_rate * dt >= 0) by (nonlinear_arith);
}

/// Whether every origin of the sequence has finished expanding.
pub open spec fn all_complete(origins: Seq<GrowthOrigin>) -> bool {
    forall|i: int| 0 <= i < origins.len() ==> (#[trigger] origins[i]).expansion_complete
}

/// Whether every origin of the sequence has its radius under its cap.
pub open spec fn all_bounded(origins: Seq<GrowthOrigin>) -> bool {
    forall|i: int| 0 <= i < origins.len() ==> (#[trigger] origins[i]).bounded()
}

/// Every origin of the sequence, advanced by `dt` units of time.
pub open spec fn expanded_all(origins: Seq<GrowthOrigin>, dt: u32) -> Seq<GrowthOrigin> {
    origins.map_values(|o: GrowthOrigin| o.expanded(dt))
}

/// Across one expansion step every radius stays bounded and none decreases,
/// whatever the length of the step; complete origins are left untouched, and
/// nothing but radius and completion changes.
pub proof fn lemma_expanded_all(origins: Seq<GrowthOrigin>, dt: u32)
    requires
        all_bounded(origins),
    ensures
        expanded_all(origins, dt).len() == origins.len(),
        all_bounded(expanded_all(origins, dt)),
        forall|i: int|
            0 <= i < origins.len() ==> origins[i].radius <= (#[trigger] expanded_all(
                origins,
                dt,
            )[i]).radius,
        forall|i: int|
            0 <= i < origins.len() && origins[i].expansion_complete ==> (#[trigger] expanded_all(
                origins,
                dt,
            )[i]) == origins[i],
        forall|i: int|
            0 <= i < origins.len() ==> {
                let e = #[trigger] expanded_all(origins, dt)[i];
                &&& e.position == origins[i].position
                &&& e.max_radius == origins[i].max_radius
                &&& e.expansion_rate == origins[i].expansion_rate
            },
{
    assert forall|i: int| 0 <= i < origins.len() implies {
        let e = #[trigger] expanded_all(origins, dt)[i];
        &&& e.bounded()
        &&& origins[i].radius <= e.radius
        &&& (origins[i].expansion_complete ==> e == origins[i])
        &&& e.position == origins[i].position
        &&& e.max_radius == origins[i].max_radius
        &&& e.expansion_rate == origins[i].expansion_rate
    } by {
        lemma_expanded(origins[i], dt);
    }
}

/// The origins of a simulation, in the order of their registration. Origins
/// are only ever added.
pub struct OriginRegistry {
    origins: Vec<GrowthOrigin>,
}

impl View for OriginRegistry {
    type V = Seq<GrowthOrigin>;

    closed spec fn view(&self) -> Seq<GrowthOrigin> {
        self.origins@
    }
}

impl OriginRegistry {
    /// Every registered origin has its radius under its cap.
    pub open spec fn wf(&self) -> bool {
        all_bounded(self@)
    }

    /// An empty registry.
    pub fn new() -> (registry: OriginRegistry)
        ensures
            registry@ == Seq::<GrowthOrigin>::empty(),
            registry.wf(),
    {
        OriginRegistry { origins: Vec::new() }
    }

    /// Number of registered origins.
    pub fn len(&self) -> (n: usize)
        ensures
            n == self@.len(),
    {
        self.origins.len()
    }

    /// The origin registered under `id`, if there is one.
    pub fn get(&self, id: OriginId) -> (origin: Option<GrowthOrigin>)
        ensures
            origin == if id.0 < self@.len() {
                Some(self@[id.0 as int])
            } else {
                None
            },
    {
        if id.0 < self.origins.len() {
            Some(self.origins[id.0])
        } else {
            None
        }
    }

    /// Appends a fresh origin and returns its identifier. The initial radius
    /// is capped at `max_radius`.
    pub fn register(
        &mut self,
        position: Position,
        initial_radius: u32,
        expansion_rate: u32,
        max_radius: u32,
    ) -> (id: OriginId)
        requires
            old(self).wf(),
        ensures
            final(self).wf(),
            id.0 == old(self)@.len(),
            final(self)@ == old(self)@.push(
                GrowthOrigin::fresh(position, initial_radius, expansion_rate, max_radius),
            ),
    {
        let id = OriginId(self.origins.len());
        self.origins.push(GrowthOrigin::new(position, initial_radius, expansion_rate, max_radius));
        id
    }

    /// Advances every origin by `dt` units of time: an origin that is not
    /// complete gains its rate times `dt`, capped at its maximum radius, and
    /// is complete once it is at the cap.
    pub fn advance_radii(&mut self, dt: u32)
        requires
            old(self).wf(),
        ensures
            final(self).wf(),
            final(self)@ == expanded_all(old(self)@, dt),
            final(self)@.len() == old(self)@.len(),
            forall|i: int|
                0 <= i < old(self)@.len() ==> old(self)@[i].radius <= (#[trigger] final(self)@[i])
                    .radius,
    {
        let n = self.origins.len();
        let mut i: usize = 0;
        proof {
            lemma_expanded_all(old(self)@, dt);
        }
        while i < n
            invariant
                i <= n,
                n == old(self)@.len(),
                self.origins@.len() == n,
                forall|j: int| 0 <= j < i ==> self.origins@[j] == old(self)@[j].expanded(dt),
                forall|j: int| i <= j < n ==> self.origins@[j] == old(self)@[j],
            decreases n - i,
        {
            let next = self.origins[i].expand(dt);
            self.origins.set(i, next);
            i += 1;
        }
        assert(self@ =~= expanded_all(old(self)@, dt));
    }

    /// Declares the origin under `id` complete. An identifier that was never
    /// handed out changes nothing.
    pub fn mark_complete(&mut self, id: OriginId)
        requires
            old(self).wf(),
        ensures
            final(self).wf(),
            final(self)@ == if id.0 < old(self)@.len() {
                old(self)@.update(id.0 as int, old(self)@[id.0 as int].completed())
            } else {
                old(self)@
            },
    {
        if id.0 < self.origins.len() {
            let origin = self.origins[id.0];
            self.origins.set(
                id.0,
                GrowthOrigin {
                    position: origin.position,
                    radius: origin.radius,
                    expansion_rate: origin.expansion_rate,
                    max_radius: origin.max_radius,
                    expansion_complete: true,
                },
            );
        }
    }

    /// Whether every registered origin has finished expanding. True of an
    /// empty registry.
    pub fn all_complete(&self) -> (done: bool)
        ensures
            done == all_complete(self@),
    {
        let n = self.origins.len();
        let mut i: usize = 0;
        while i < n
            invariant
                i <= n,
                n == self.origins@.len(),
                forall|j: int| 0 <= j < i ==> (#[trigger] self.origins@[j]).expansion_complete,
            decreases n - i,
        {
            if !self.origins[i].expansion_complete {
                return false;
            }
            i += 1;
        }
        true
    }
}

} // verus!
