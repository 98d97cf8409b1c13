//! The configuration surface of the simulation and its stock profiles.

use vstd::prelude::*;

verus! {

/// Everything that tunes a simulation. Lengths, times and ages are integers
/// in units of the caller's choosing; the stock profiles use thousandths of a
/// world unit, milliseconds, and millionths of full maturity.
#[derive(Clone, Copy, Debug, PartialEq, Eq, Structural)]
pub struct GameConfig {
    /// Spacing of the lattice that patches sit on.
    pub cell_size: u32,
    /// Two patches may not lie closer to each other than this.
    pub tolerance: u32,
    /// Patches are seeded only where both horizontal coordinates lie within
    /// this distance of zero.
    pub half_extent: u32,
    /// How far above the designated point an origin is put.
    pub height_offset: u32,
    /// Age of a patch when it is seeded.
    pub initial_age: u32,
    /// Age that a patch gains per unit of time.
    pub maturation_rate: u32,
    /// Age at which a patch is fully mature.
    pub max_age: u32,
    /// Radius of an origin when it is designated.
    pub initial_radius: u32,
    /// Radius that an origin gains per unit of time.
    pub expansion_rate: u32,
    /// Radius at which an origin stops expanding.
    pub max_radius: u32,
    /// An origin that seeds nothing in a tick is finished early only once its
    /// radius has reached this.
    pub starvation_radius: u32,
    /// Time that one tick advances the simulation by.
    pub tick_duration: u32,
}

/// The stock configurations.
#[derive(Clone, Copy, Debug, PartialEq, Eq, Structural)]
pub enum Profile {
    /// Slow colonies that grow until their radius is capped.
    CrimsonSprawl,
    /// Fast growth that also finishes an origin once it finds no room.
    GrowthOverlay,
}

impl GameConfig {
    /// A configuration can drive a simulation if it has a lattice to snap to.
    pub open spec fn is_valid(self) -> bool {
        self.cell_size > 0
    }

    /// Whether this configuration can drive a simulation.
    pub fn validate(&self) -> (ok: bool)
        ensures
            ok == self.is_valid(),
    {
        self.cell_size > 0
    }
}

impl Profile {
    /// The configuration that this profile stands for.
    pub open spec fn config_of(self) -> GameConfig {
        match self {
            Profile::CrimsonSprawl => GameConfig {
                cell_size: 2_000,
                tolerance: 1_000,
                half_extent: 100_000,
                height_offset: 10,
                initial_age: 0,
                maturation_rate: 500,
                max_age: 1_000_000,
                initial_radius: 0,
                expansion_rate: 1,
                max_radius: 120_000,
                starvation_radius: u32::MAX,
                tick_duration: 200,
            },
            Profile::GrowthOverlay => GameConfig {
                cell_size: 2_000,
                tolerance: 1_000,
                half_extent: 100_000,
                height_offset: 10,
                initial_age: 0,
                maturation_rate: 5_000,
                max_age: 1_000_000,
                initial_radius: 0,
                expansion_rate: 10,
                max_radius: 120_000,
                starvation_radius: 4_000,
                tick_duration: 200,
            },
        }
    }

    /// The configuration that this profile stands for.
    pub fn config(self) -> (config: GameConfig)
        ensures
            config == self.config_of(),
            config.is_valid(),
    {
        let shared = GameConfig {
            cell_size: 2_000,
            tolerance: 1_000,
            half_extent: 100_000,
            height_offset: 10,
            initial_age: 0,
            maturation_rate: 500,
            max_age: 1_000_000,
            initial_radius: 0,
            expansion_rate: 1,
            max_radius: 120_000,
            starvation_radius: u32::MAX,
            tick_duration: 200,
        };
        match self {
            Profile::CrimsonSprawl => shared,
            Profile::GrowthOverlay => GameConfig {
                maturation_rate: 5_000,
                expansion_rate: 10,
                starvation_radius: 2 * shared.cell_size,
                ..shared
            },
        }
    }
}

impl Default for GameConfig {
    /// The configuration of the growth overlay profile.
    fn default() -> (config: Self)
        ensures
            config == Profile::GrowthOverlay.config_of(),
    {
        Profile::GrowthOverlay.config()
    }
}

} // verus!
