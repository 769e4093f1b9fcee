use evolution_simulator::physics::{rate, sample_interval, settle, solver_passes, Fidelity};

#[test]
fn rate_defaults_to_sixty_steps() {
    assert_eq!(rate(None), 60);
}

#[test]
fn rate_keeps_settings_within_range() {
    assert_eq!(rate(Some("120")), 120);
    assert_eq!(rate(Some("15")), 15);
    assert_eq!(rate(Some("480")), 480);
    assert_eq!(rate(Some("+30")), 30);
}

#[test]
fn rate_ignores_settings_out_of_range_or_unreadable() {
    assert_eq!(rate(Some("14")), 60);
    assert_eq!(rate(Some("481")), 60);
    assert_eq!(rate(Some("abc")), 60);
    assert_eq!(rate(Some("")), 60);
    assert_eq!(rate(Some(" 120")), 60);
    assert_eq!(rate(Some("-30")), 60);
    assert_eq!(rate(Some("99999999999")), 60);
}

#[test]
fn solver_passes_read_their_settings() {
    assert_eq!(solver_passes(None, None), (2, 1));
    assert_eq!(solver_passes(Some("3"), Some("x")), (3, 1));
    assert_eq!(solver_passes(Some("0"), Some("5")), (0, 5));
}

#[test]
fn standard_fidelity_follows_the_settings() {
    let f = Fidelity::standard(None, None, None);
    assert_eq!(f, Fidelity { rate: 60, bone_passes: 2, velocity_passes: 1 });
    let g = Fidelity::standard(Some("90"), Some("4"), Some("2"));
    assert_eq!(g, Fidelity { rate: 90, bone_passes: 4, velocity_passes: 2 });
}

#[test]
fn fine_fidelity_is_four_times_standard() {
    let f = Fidelity::standard(None, None, None).fine();
    assert_eq!(f, Fidelity { rate: 240, bone_passes: 8, velocity_passes: 4 });
}

#[test]
fn fine_rate_is_four_times_any_standard_rate() {
    let f = Fidelity { rate: 480, bone_passes: 1, velocity_passes: 1 }.fine();
    assert_eq!(f.rate, 1920);
    assert_eq!(f.bone_passes, 4);
}

#[test]
fn settling_lasts_five_thirds_of_a_second() {
    let at = |rate: u32| Fidelity { rate, bone_passes: 2, velocity_passes: 1 };
    assert_eq!(at(60).settle(), 100);
    assert_eq!(at(120).settle(), 200);
    assert_eq!(at(45).settle(), 75);
    assert_eq!(at(50).settle(), 84);
    assert_eq!(settle(None), 100);
    assert_eq!(settle(Some("90")), 150);
}

#[test]
fn sampling_takes_thirty_samples_per_second() {
    let at = |rate: u32| Fidelity { rate, bone_passes: 2, velocity_passes: 1 };
    assert_eq!(at(60).sample_interval(), 2);
    assert_eq!(at(240).sample_interval(), 8);
    assert_eq!(at(15).sample_interval(), 1);
    assert_eq!(at(0).sample_interval(), 1);
    assert_eq!(sample_interval(None), 2);
    assert_eq!(sample_interval(Some("480")), 16);
}
