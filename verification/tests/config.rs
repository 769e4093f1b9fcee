use evolution_simulator::config::{
    batch_size, next_power_of_two, validate_settings, SettingsCheck, SettingsError,
};

fn sound() -> SettingsCheck {
    SettingsCheck {
        population: 1000,
        duration_ok: true,
        mutation_ok: true,
        gravity_ok: true,
        air_retention_ok: true,
        ground_friction_ok: true,
        terrain: 0,
        muscle_energy_ok: true,
        muscle_recovery_ok: true,
        slope_ok: true,
        wind_ok: true,
        mud_ok: true,
        gaps_ok: true,
        hurdles_ok: true,
        quake_ok: true,
        seasons: 0,
        node_sizes_ok: true,
        node_friction_ok: true,
        max_nodes: 16,
        max_muscles: 32,
        gpu_budget_mib: 512,
        ram_budget_mib: 2048,
    }
}

#[test]
fn sound_settings_pass() {
    assert_eq!(validate_settings(&sound()), Ok(()));
    let edge = SettingsCheck {
        population: 2,
        terrain: 4,
        seasons: 3,
        max_nodes: 64,
        max_muscles: 64,
        gpu_budget_mib: 32,
        ram_budget_mib: 64,
        ..sound()
    };
    assert_eq!(validate_settings(&edge), Ok(()));
}

#[test]
fn each_failed_check_is_reported() {
    let cases: Vec<(SettingsCheck, SettingsError)> = vec![
        (SettingsCheck { population: 3, ..sound() }, SettingsError::Population),
        (SettingsCheck { population: 0, ..sound() }, SettingsError::Population),
        (SettingsCheck { population: 20_000_002, ..sound() }, SettingsError::Population),
        (SettingsCheck { duration_ok: false, ..sound() }, SettingsError::Duration),
        (SettingsCheck { mutation_ok: false, ..sound() }, SettingsError::Mutation),
        (SettingsCheck { gravity_ok: false, ..sound() }, SettingsError::Gravity),
        (SettingsCheck { air_retention_ok: false, ..sound() }, SettingsError::AirRetention),
        (SettingsCheck { ground_friction_ok: false, ..sound() }, SettingsError::GroundFriction),
        (SettingsCheck { terrain: 5, ..sound() }, SettingsError::Terrain),
        (SettingsCheck { muscle_energy_ok: false, ..sound() }, SettingsError::MuscleEnergy),
        (SettingsCheck { muscle_recovery_ok: false, ..sound() }, SettingsError::MuscleRecovery),
        (SettingsCheck { slope_ok: false, ..sound() }, SettingsError::Slope),
        (SettingsCheck { wind_ok: false, ..sound() }, SettingsError::Wind),
        (SettingsCheck { mud_ok: false, ..sound() }, SettingsError::Mud),
        (SettingsCheck { gaps_ok: false, ..sound() }, SettingsError::Gaps),
        (SettingsCheck { hurdles_ok: false, ..sound() }, SettingsError::Hurdles),
        (SettingsCheck { quake_ok: false, ..sound() }, SettingsError::Quake),
        (SettingsCheck { seasons: 4, ..sound() }, SettingsError::Seasons),
        (SettingsCheck { node_sizes_ok: false, ..sound() }, SettingsError::NodeSizes),
        (SettingsCheck { node_friction_ok: false, ..sound() }, SettingsError::NodeFriction),
        (SettingsCheck { max_nodes: 65, max_muscles: 80, ..sound() }, SettingsError::BodyLimits),
        (SettingsCheck { max_nodes: 20, max_muscles: 19, ..sound() }, SettingsError::BodyLimits),
        (SettingsCheck { max_muscles: 257, ..sound() }, SettingsError::BodyLimits),
        (SettingsCheck { gpu_budget_mib: 31, ..sound() }, SettingsError::GpuBudget),
        (SettingsCheck { ram_budget_mib: 24577, ..sound() }, SettingsError::RamBudget),
        (
            SettingsCheck { population: 20_000_000, ram_budget_mib: 64, ..sound() },
            SettingsError::PopulationMemory,
        ),
    ];
    for (check, error) in cases {
        assert_eq!(validate_settings(&check), Err(error));
    }
    // The first failing check wins.
    let both = SettingsCheck { population: 1, gravity_ok: false, ..sound() };
    assert_eq!(validate_settings(&both), Err(SettingsError::Population));
}

#[test]
fn settings_messages() {
    assert_eq!(
        SettingsError::Population.message(),
        "Population must be even, between 2 and 20,000,000"
    );
    assert_eq!(SettingsError::Gravity.message(), "Gravity must be 0–100 m/s²");
    assert_eq!(
        SettingsError::PopulationMemory.message(),
        "Population requires more RAM; increase the budget or reduce population"
    );
}

#[test]
fn powers_of_two() {
    assert_eq!(next_power_of_two(0), 1);
    assert_eq!(next_power_of_two(1), 1);
    assert_eq!(next_power_of_two(3), 4);
    assert_eq!(next_power_of_two(16), 16);
    assert_eq!(next_power_of_two(17), 32);
}

#[test]
fn gpu_batches_fit_a_quarter_of_the_budget() {
    assert_eq!(batch_size(None, false, 16, 32, 512), 8192);
    assert_eq!(batch_size(None, true, 16, 32, 512), 41734);
    assert_eq!(batch_size(None, false, 16, 32, 32), 2608);
    assert_eq!(batch_size(None, true, 3, 3, 32), 12865);
    assert_eq!(batch_size(None, true, 64, 256, 6144), 73746);
    assert_eq!(batch_size(Some("100"), true, 64, 256, 32), 100);
    assert_eq!(batch_size(Some("1000"), true, 64, 256, 32), 384);
    assert_eq!(batch_size(Some("0"), false, 5, 5, 32), 8192);
    assert_eq!(batch_size(Some("lots"), true, 5, 5, 32), 10230);
    assert_eq!(batch_size(None, false, 64, 256, 0), 1);
}
