use resurgence::config::{GameConfig, Profile};

#[test]
fn growth_overlay_profile() {
    assert_eq!(
        Profile::GrowthOverlay.config(),
        GameConfig {
            cell_size: 2_000,
            tolerance: 1_000,
            half_extent: 100_000,
            height_offset: 10,
            initial_age: 0,
            maturation_rate: 5_000,
            max_age: 1_000_000,
            initial_radius: 0,
            expansion_rate: 10,
            max_radius: 120_000,
            starvation_radius: 4_000,
            tick_duration: 200,
        }
    );
}

#[test]
fn crimson_sprawl_profile() {
    assert_eq!(
        Profile::CrimsonSprawl.config(),
        GameConfig {
            cell_size: 2_000,
            tolerance: 1_000,
            half_extent: 100_000,
            height_offset: 10,
            initial_age: 0,
            maturation_rate: 500,
            max_age: 1_000_000,
            initial_radius: 0,
            expansion_rate: 1,
            max_radius: 120_000,
            starvation_radius: u32::MAX,
            tick_duration: 200,
        }
    );
}

#[test]
fn default_is_the_growth_overlay_profile() {
    assert_eq!(GameConfig::default(), Profile::GrowthOverlay.config());
}

#[test]
fn validity_asks_for_a_lattice() {
    assert!(Profile::CrimsonSprawl.config().validate());
    assert!(GameConfig { cell_size: 1, ..GameConfig::default() }.validate());
    assert!(!GameConfig { cell_size: 0, ..GameConfig::default() }.validate());
}
