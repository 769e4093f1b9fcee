//! Experiment settings without floating point: the checks a settings record
//! must pass, in order, and how many creatures one GPU batch holds. The
//! checks of the real-valued settings enter as their outcomes.
use crate::physics::text_of;
use crate::text::{parse_unsigned, parsed_unsigned};
use vstd::prelude::*;

verus! {

/// Ground roughness levels.
pub const TERRAIN_LEVELS: usize = 5;

/// Seasons levels: off, slow, normal and fast.
pub const SEASON_LEVELS: usize = 4;

/// The settings as the checks see them: the integer settings, and for each
/// real-valued setting whether it is finite and within its range.
#[derive(Clone, Copy, Debug)]
pub struct SettingsCheck {
    pub population: usize,
    pub duration_ok: bool,
    pub mutation_ok: bool,
    pub gravity_ok: bool,
    pub air_retention_ok: bool,
    pub ground_friction_ok: bool,
    pub terrain: u8,
    pub muscle_energy_ok: bool,
    pub muscle_recovery_ok: bool,
    pub slope_ok: bool,
    pub wind_ok: bool,
    pub mud_ok: bool,
    pub gaps_ok: bool,
    pub hurdles_ok: bool,
    pub quake_ok: bool,
    pub seasons: u8,
    pub node_sizes_ok: bool,
    pub node_friction_ok: bool,
    pub max_nodes: usize,
    pub max_muscles: usize,
    pub gpu_budget_mib: usize,
    pub ram_budget_mib: usize,
}

/// The first check a settings record fails.
#[derive(Clone, Copy, Debug, PartialEq, Eq, Structural)]
pub enum SettingsError {
    Population,
    Duration,
    Mutation,
    Gravity,
    AirRetention,
    GroundFriction,
    Terrain,
    MuscleEnergy,
    MuscleRecovery,
    Slope,
    Wind,
    Mud,
    Gaps,
    Hurdles,
    Quake,
    Seasons,
    NodeSizes,
    NodeFriction,
    BodyLimits,
    GpuBudget,
    RamBudget,
    PopulationMemory,
}

impl SettingsError {
    /// What the player is told.
    pub fn message(self) -> (r: &'static str)
        ensures
            r@ == match self {
                SettingsError::Population => "Population must be even, between 2 and 20,000,000"@,
                SettingsError::Duration => "Trial duration must be 0.1–300 seconds"@,
                SettingsError::Mutation => "Mutation must be 0–10"@,
                SettingsError::Gravity => "Gravity must be 0–100 m/s²"@,
                SettingsError::AirRetention => "Air retention must be 0–1.02"@,
                SettingsError::GroundFriction => "Ground friction must be 0–20"@,
                SettingsError::Terrain => "Unknown ground roughness level"@,
                SettingsError::MuscleEnergy => "Muscle energy multiplier must be 0.05–2"@,
                SettingsError::MuscleRecovery => "Muscle recovery multiplier must be 0.05–2"@,
                SettingsError::Slope => "Slope must be -0.6–0.6 rise over run"@,
                SettingsError::Wind => "Wind must be -20–20 m/s²"@,
                SettingsError::Mud => "Mud sink depth must be 0–0.5 m"@,
                SettingsError::Gaps => "Gap width must be 0–3 m"@,
                SettingsError::Hurdles => "Hurdle height must be 0–1 m"@,
                SettingsError::Quake => "Quake bump height must be 0–1 m"@,
                SettingsError::Seasons => "Unknown seasons level"@,
                SettingsError::NodeSizes => "Node diameters must be ordered within 0.01–1 m"@,
                SettingsError::NodeFriction => "Node friction bounds must be ordered within 0–1"@,
                SettingsError::BodyLimits => "Body limits: 3–64 nodes; at least as many muscles, up to 256"@,
                SettingsError::GpuBudget => "GPU budget must be 32–6144 MiB"@,
                SettingsError::RamBudget => "RAM budget must be 64–24576 MiB"@,
                SettingsError::PopulationMemory => "Population requires more RAM; increase the budget or reduce population"@,
            },
    {
        match self {
            SettingsError::Population => "Population must be even, between 2 and 20,000,000",
            SettingsError::Duration => "Trial duration must be 0.1–300 seconds",
            SettingsError::Mutation => "Mutation must be 0–10",
            SettingsError::Gravity => "Gravity must be 0–100 m/s²",
            SettingsError::AirRetention => "Air retention must be 0–1.02",
            SettingsError::GroundFriction => "Ground friction must be 0–20",
            SettingsError::Terrain => "Unknown ground roughness level",
            SettingsError::MuscleEnergy => "Muscle energy multiplier must be 0.05–2",
            SettingsError::MuscleRecovery => "Muscle recovery multiplier must be 0.05–2",
            SettingsError::Slope => "Slope must be -0.6–0.6 rise over run",
            SettingsError::Wind => "Wind must be -20–20 m/s²",
            SettingsError::Mud => "Mud sink depth must be 0–0.5 m",
            SettingsError::Gaps => "Gap width must be 0–3 m",
            SettingsError::Hurdles => "Hurdle height must be 0–1 m",
            SettingsError::Quake => "Quake bump height must be 0–1 m",
            SettingsError::Seasons => "Unknown seasons level",
            SettingsError::NodeSizes => "Node diameters must be ordered within 0.01–1 m",
            SettingsError::NodeFriction => "Node friction bounds must be ordered within 0–1",
            SettingsError::BodyLimits => "Body limits: 3–64 nodes; at least as many muscles, up to 256",
            SettingsError::GpuBudget => "GPU budget must be 32–6144 MiB",
            SettingsError::RamBudget => "RAM budget must be 64–24576 MiB",
            SettingsError::PopulationMemory => "Population requires more RAM; increase the budget or reduce population",
        }
    }
}

/// Whether the body limits hold: 3 to 64 nodes, 3 to 256 muscles, and at
/// least as many muscles as nodes.
pub open spec fn body_limits_ok(max_nodes: int, max_muscles: int) -> bool {
    3 <= max_nodes <= 64 && 3 <= max_muscles <= 256 && max_muscles >= max_nodes
}

/// The first check that `c` fails, in the order the checks run.
pub open spec fn settings_error(c: SettingsCheck) -> Option<SettingsError> {
    if !(2 <= c.population <= 20_000_000 && c.population % 2 == 0) {
        Some(SettingsError::Population)
    } else if !c.duration_ok {
        Some(SettingsError::Duration)
    } else if !c.mutation_ok {
        Some(SettingsError::Mutation)
    } else if !c.gravity_ok {
        Some(SettingsError::Gravity)
    } else if !c.air_retention_ok {
        Some(SettingsError::AirRetention)
    } else if !c.ground_friction_ok {
        Some(SettingsError::GroundFriction)
    } else if c.terrain >= TERRAIN_LEVELS {
        Some(SettingsError::Terrain)
    } else if !c.muscle_energy_ok {
        Some(SettingsError::MuscleEnergy)
    } else if !c.muscle_recovery_ok {
        Some(SettingsError::MuscleRecovery)
    } else if !c.slope_ok {
        Some(SettingsError::Slope)
    } else if !c.wind_ok {
        Some(SettingsError::Wind)
    } else if !c.mud_ok {
        Some(SettingsError::Mud)
    } else if !c.gaps_ok {
        Some(SettingsError::Gaps)
    } else if !c.hurdles_ok {
        Some(SettingsError::Hurdles)
    } else if !c.quake_ok {
        Some(SettingsError::Quake)
    } else if c.seasons >= SEASON_LEVELS {
        Some(SettingsError::Seasons)
    } else if !c.node_sizes_ok {
        Some(SettingsError::NodeSizes)
    } else if !c.node_friction_ok {
        Some(SettingsError::NodeFriction)
    } else if !body_limits_ok(c.max_nodes as int, c.max_muscles as int) {
        Some(SettingsError::BodyLimits)
    } else if !(32 <= c.gpu_budget_mib <= 6144) {
        Some(SettingsError::GpuBudget)
    } else if !(64 <= c.ram_budget_mib <= 24576) {
        Some(SettingsError::RamBudget)
    } else if !(c.population * 1200 < c.ram_budget_mib * 1024 * 1024) {
        Some(SettingsError::PopulationMemory)
    } else {
        None
    }
}

/// Whether a settings record passes every check: an even population of 2
/// to 20,000,000, every float setting within its range, known terrain and
/// seasons levels, 3 to 64 nodes and 3 to 256 muscles with at least as many
/// muscles as nodes, budgets of 32 to 6144 MiB of GPU memory and 64 to
/// 24576 MiB of RAM, and 1200 bytes per creature within the RAM budget.
pub open spec fn settings_sound(c: SettingsCheck) -> bool {
    &&& 2 <= c.population <= 20_000_000
    &&& c.population % 2 == 0
    &&& c.duration_ok && c.mutation_ok && c.gravity_ok && c.air_retention_ok
    &&& c.ground_friction_ok && c.muscle_energy_ok && c.muscle_recovery_ok
    &&& c.slope_ok && c.wind_ok && c.mud_ok && c.gaps_ok && c.hurdles_ok && c.quake_ok
    &&& c.node_sizes_ok && c.node_friction_ok
    &&& c.terrain < 5
    &&& c.seasons < 4
    &&& 3 <= c.max_nodes <= 64
    &&& 3 <= c.max_muscles <= 256
    &&& c.max_nodes <= c.max_muscles
    &&& 32 <= c.gpu_budget_mib <= 6144
    &&& 64 <= c.ram_budget_mib <= 24576
    &&& c.population * 1200 < c.ram_budget_mib * 1048576
}

/// A settings record passes the checks exactly when it meets all of them
/// (see `settings_sound`), and each error names a check it fails.
pub proof fn lemma_settings_checks(c: SettingsCheck)
    ensures
        settings_error(c) is None <==> settings_sound(c),
        settings_error(c) == Some(SettingsError::Population) ==> !(2 <= c.population <= 20_000_000
            && c.population % 2 == 0),
        settings_error(c) == Some(SettingsError::Duration) ==> !c.duration_ok,
        settings_error(c) == Some(SettingsError::Mutation) ==> !c.mutation_ok,
        settings_error(c) == Some(SettingsError::Gravity) ==> !c.gravity_ok,
        settings_error(c) == Some(SettingsError::AirRetention) ==> !c.air_retention_ok,
        settings_error(c) == Some(SettingsError::GroundFriction) ==> !c.ground_friction_ok,
        settings_error(c) == Some(SettingsError::Terrain) ==> c.terrain >= 5,
        settings_error(c) == Some(SettingsError::MuscleEnergy) ==> !c.muscle_energy_ok,
        settings_error(c) == Some(SettingsError::MuscleRecovery) ==> !c.muscle_recovery_ok,
        settings_error(c) == Some(SettingsError::Slope) ==> !c.slope_ok,
        settings_error(c) == Some(SettingsError::Wind) ==> !c.wind_ok,
        settings_error(c) == Some(SettingsError::Mud) ==> !c.mud_ok,
        settings_error(c) == Some(SettingsError::Gaps) ==> !c.gaps_ok,
        settings_error(c) == Some(SettingsError::Hurdles) ==> !c.hurdles_ok,
        settings_error(c) == Some(SettingsError::Quake) ==> !c.quake_ok,
        settings_error(c) == Some(SettingsError::Seasons) ==> c.seasons >= 4,
        settings_error(c) == Some(SettingsError::NodeSizes) ==> !c.node_sizes_ok,
        settings_error(c) == Some(SettingsError::NodeFriction) ==> !c.node_friction_ok,
        settings_error(c) == Some(SettingsError::BodyLimits) ==> !(3 <= c.max_nodes <= 64 && 3
            <= c.max_muscles <= 256 && c.max_nodes <= c.max_muscles),
        settings_error(c) == Some(SettingsError::GpuBudget) ==> !(32 <= c.gpu_budget_mib <= 6144),
        settings_error(c) == Some(SettingsError::RamBudget) ==> !(64 <= c.ram_budget_mib <= 24576),
        settings_error(c) == Some(SettingsError::PopulationMemory) ==> !(c.population * 1200
            < c.ram_budget_mib * 1048576),
{
}

/// Checks a settings record: Ok exactly when it passes every check, else
/// the first check it fails.
pub fn validate_settings(c: &SettingsCheck) -> (r: Result<(), SettingsError>)
    ensures
        r == match settings_error(*c) {
            Some(e) => Err(e),
            None => Ok(()),
        },
        r is Ok <==> settings_sound(*c),
{
    if !(2 <= c.population && c.population <= 20_000_000 && c.population % 2 == 0) {
        return Err(SettingsError::Population);
    }
    if !c.duration_ok {
        return Err(SettingsError::Duration);
    }
    if !c.mutation_ok {
        return Err(SettingsError::Mutation);
    }
    if !c.gravity_ok {
        return Err(SettingsError::Gravity);
    }
    if !c.air_retention_ok {
        return Err(SettingsError::AirRetention);
    }
    if !c.ground_friction_ok {
        return Err(SettingsError::GroundFriction);
    }
    if c.terrain as usize >= TERRAIN_LEVELS {
        return Err(SettingsError::Terrain);
    }
    if !c.muscle_energy_ok {
        return Err(SettingsError::MuscleEnergy);
    }
    if !c.muscle_recovery_ok {
        return Err(SettingsError::MuscleRecovery);
    }
    if !c.slope_ok {
        return Err(SettingsError::Slope);
    }
    if !c.wind_ok {
        return Err(SettingsError::Wind);
    }
    if !c.mud_ok {
        return Err(SettingsError::Mud);
    }
    if !c.gaps_ok {
        return Err(SettingsError::Gaps);
    }
    if !c.hurdles_ok {
        return Err(SettingsError::Hurdles);
    }
    if !c.quake_ok {
        return Err(SettingsError::Quake);
    }
    if c.seasons as usize >= SEASON_LEVELS {
        return Err(SettingsError::Seasons);
    }
    if !c.node_sizes_ok {
        return Err(SettingsError::NodeSizes);
    }
    if !c.node_friction_ok {
        return Err(SettingsError::NodeFriction);
    }
    if !(3 <= c.max_nodes && c.max_nodes <= 64 && 3 <= c.max_muscles && c.max_muscles <= 256
        && c.max_muscles >= c.max_nodes) {
        return Err(SettingsError::BodyLimits);
    }
    if !(32 <= c.gpu_budget_mib && c.gpu_budget_mib <= 6144) {
        return Err(SettingsError::GpuBudget);
    }
    if !(64 <= c.ram_budget_mib && c.ram_budget_mib <= 24576) {
        return Err(SettingsError::RamBudget);
    }
    let need: u64 = c.population as u64 * 1200;
    let room: u64 = c.ram_budget_mib as u64 * 1024 * 1024;
    if !(need < room) {
        return Err(SettingsError::PopulationMemory);
    }
    Ok(())
}

/// Two to the `e`.
pub open spec fn two_to(e: nat) -> nat
    decreases e,
{
    if e == 0 {
        1
    } else {
        2 * two_to((e - 1) as nat)
    }
}

/// The least power of two no smaller than `n` (1 for 0).
pub open spec fn power_at_least(n: nat) -> nat
    decreases n,
{
    if n <= 1 {
        1
    } else {
        2 * power_at_least(((n + 1) / 2) as nat)
    }
}

/// A power of two that reaches `n` while its half does not is the least.
proof fn lemma_power_at_least(n: nat, e: nat)
    requires
        two_to(e) >= n,
        two_to(e) == 1 || two_to(e) / 2 < n,
    ensures
        two_to(e) == power_at_least(n),
    decreases e,
{
    lemma_two_to_positive(e);
    if n <= 1 {
        if e > 0 {
            lemma_two_to_positive((e - 1) as nat);
        }
    } else {
        assert(e > 0);
        let half = ((n + 1) / 2) as nat;
        lemma_two_to_positive((e - 1) as nat);
        lemma_power_at_least(half, (e - 1) as nat);
    }
}

/// The least power of two no smaller than `n`.
pub fn next_power_of_two(n: usize) -> (r: usize)
    requires
        n <= usize::MAX / 2 + 1,
    ensures
        r == power_at_least(n as nat),
        r >= n,
        r == 1 || r / 2 < n,
{
    let mut p: usize = 1;
    let ghost mut e: nat = 0;
    while p < n
        invariant
            n <= usize::MAX / 2 + 1,
            p == two_to(e),
            p >= 1,
            p == 1 || p / 2 < n,
        decreases usize::MAX - p,
    {
        p = p * 2;
        proof {
            e = e + 1;
        }
    }
    proof {
        lemma_power_at_least(n as nat, e);
    }
    p
}

/// The most creatures a GPU batch holds when the setting text asks for
/// none: many for throughput, fewer so that pausing stays responsive.
pub open spec fn default_batch(throughput: bool) -> nat {
    if throughput {
        100_000
    } else {
        8192
    }
}

/// The batch ceiling the setting text chooses: the positive `usize` it
/// spells, else the default.
pub open spec fn batch_ceiling(setting: Option<Seq<char>>, throughput: bool) -> nat {
    match setting {
        Some(s) => match parsed_unsigned(s, usize::MAX as nat) {
            Some(v) => if v > 0 {
                v
            } else {
                default_batch(throughput)
            },
            None => default_batch(throughput),
        },
        None => default_batch(throughput),
    }
}

/// Creatures per GPU batch: the ceiling that the setting text chooses
/// (see `batch_ceiling`), and no more than a quarter of the GPU budget
/// holds, at `bytes` per creature (the padded nodes' state, the muscle
/// genomes, the node references and a fixed part), but at least one.
pub fn batch_size(
    setting: Option<&str>,
    throughput: bool,
    max_nodes: usize,
    max_muscles: usize,
    gpu_budget_mib: usize,
) -> (r: usize)
    requires
        max_nodes <= 64,
        max_muscles <= 256,
        gpu_budget_mib * 1024 * 1024 <= usize::MAX,
    ensures
        ({
            let power = power_at_least(max_nodes as nat);
            let padded = if power < 8 {
                8
            } else {
                power
            };
            let bytes = padded * 40 + max_muscles * 72 + max_nodes * 12 + 80;
            let fits = (gpu_budget_mib * 1024 * 1024) / (bytes * 4);
            let ceiling = batch_ceiling(text_of(setting), throughput);
            let capped = if ceiling < fits {
                ceiling as int
            } else {
                fits
            };
            r == if capped < 1 {
                1
            } else {
                capped
            }
        }),
        r >= 1,
{
    let maximum: usize = match setting {
        Some(s) => match parse_unsigned(s, usize::MAX as u64) {
            Some(v) => if v > 0 {
                v as usize
            } else if throughput {
                100_000
            } else {
                8192
            },
            None => if throughput {
                100_000
            } else {
                8192
            },
        },
        None => if throughput {
            100_000
        } else {
            8192
        },
    };
    let power = next_power_of_two(max_nodes);
    let padded = if power < 8 {
        8
    } else {
        power
    };
    let bytes = padded * 40 + max_muscles * 72 + max_nodes * 12 + 80;
    let fits = gpu_budget_mib * 1024 * 1024 / (bytes * 4);
    let capped = if maximum < fits {
        maximum
    } else {
        fits
    };
    if capped < 1 {
        1
    } else {
        capped
    }
}

/// Every power of two is positive.
proof fn lemma_two_to_positive(e: nat)
    ensures
        two_to(e) >= 1,
    decreases e,
{
    if e > 0 {
        lemma_two_to_positive((e - 1) as nat);
    }
}

} // verus!
