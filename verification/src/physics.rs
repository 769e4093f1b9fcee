//! How finely an evaluation resolves the physics: steps per second and solver
//! passes per step, chosen from the optional settings text.
use crate::text::{parse_unsigned, parsed_unsigned};
use vstd::prelude::*;

verus! {

/// Steps per second when no valid rate is set.
pub const DEFAULT_RATE: u32 = 60;

/// Fewest steps per second a setting may choose.
pub const MIN_RATE: u32 = 15;

/// Most steps per second a setting may choose.
pub const MAX_RATE: u32 = 480;

/// Position-projection passes per step when none is set.
pub const DEFAULT_BONE_PASSES: usize = 2;

/// Velocity-constraint passes per step when none is set.
pub const DEFAULT_VELOCITY_PASSES: usize = 1;

/// The rate that the setting text chooses: the number it spells when that is
/// a `u32` within `MIN_RATE..=MAX_RATE`, else `DEFAULT_RATE`.
pub open spec fn rate_of(setting: Option<Seq<char>>) -> u32 {
    match setting {
        Some(s) => match parsed_unsigned(s, u32::MAX as nat) {
            Some(v) => if MIN_RATE <= v && v <= MAX_RATE {
                v as u32
            } else {
                DEFAULT_RATE
            },
            None => DEFAULT_RATE,
        },
        None => DEFAULT_RATE,
    }
}

/// The pass count that the setting text chooses: the `usize` it spells, else
/// `default`.
pub open spec fn passes_of(setting: Option<Seq<char>>, default: usize) -> usize {
    match setting {
        Some(s) => match parsed_unsigned(s, usize::MAX as nat) {
            Some(v) => v as usize,
            None => default,
        },
        None => default,
    }
}

/// The text of an optional setting.
pub open spec fn text_of(setting: Option<&str>) -> Option<Seq<char>> {
    match setting {
        Some(s) => Some(s@),
        None => None,
    }
}

/// Steps of pose settling (1.67 s, rounded up) at `rate` steps per second.
pub open spec fn settle_steps(rate: int) -> int {
    (200 * rate + 119) / 120
}

/// Gait sampling interval in steps (30 samples per second, at least one step).
pub open spec fn sample_steps(rate: int) -> int {
    if rate / 30 >= 1 {
        rate / 30
    } else {
        1
    }
}

/// Physics steps per second chosen by the rate setting.
pub fn rate(setting: Option<&str>) -> (r: u32)
    ensures
        r == rate_of(text_of(setting)),
        MIN_RATE <= r <= MAX_RATE,
{
    match setting {
        Some(s) => match parse_unsigned(s, 0xffff_ffffu64) {
            Some(v) => {
                if 15 <= v && v <= 480 {
                    v as u32
                } else {
                    DEFAULT_RATE
                }
            },
            None => DEFAULT_RATE,
        },
        None => DEFAULT_RATE,
    }
}

/// One solver pass count chosen by its setting, or `default`.
fn passes(setting: Option<&str>, default: usize) -> (r: usize)
    ensures
        r == passes_of(text_of(setting), default),
{
    match setting {
        Some(s) => match parse_unsigned(s, usize::MAX as u64) {
            Some(v) => v as usize,
            None => default,
        },
        None => default,
    }
}

/// Position-projection and velocity-constraint passes per step, from their
/// settings or their defaults (2 and 1).
pub fn solver_passes(bone: Option<&str>, velocity: Option<&str>) -> (r: (usize, usize))
    ensures
        r.0 == passes_of(text_of(bone), DEFAULT_BONE_PASSES),
        r.1 == passes_of(text_of(velocity), DEFAULT_VELOCITY_PASSES),
{
    (passes(bone, DEFAULT_BONE_PASSES), passes(velocity, DEFAULT_VELOCITY_PASSES))
}

/// Steps of pose settling at the rate that the setting chooses.
pub fn settle(rate_setting: Option<&str>) -> (r: u32)
    ensures
        r == settle_steps(rate_of(text_of(rate_setting)) as int),
{
    let f = Fidelity::standard(rate_setting, None, None);
    f.settle()
}

/// Gait sampling interval at the rate that the setting chooses.
pub fn sample_interval(rate_setting: Option<&str>) -> (r: u32)
    ensures
        r == sample_steps(rate_of(text_of(rate_setting)) as int),
{
    let f = Fidelity::standard(rate_setting, None, None);
    f.sample_interval()
}

/// Steps per second and solver passes per step of one evaluation.
#[derive(Clone, Copy, Debug, PartialEq, Eq, Hash)]
pub struct Fidelity {
    pub rate: u32,
    pub bone_passes: usize,
    pub velocity_passes: usize,
}

impl Fidelity {
    /// The configured physics: the rate and pass settings, or their defaults.
    pub fn standard(rate_setting: Option<&str>, bone: Option<&str>, velocity: Option<&str>) -> (f:
        Fidelity)
        ensures
            f.rate == rate_of(text_of(rate_setting)),
            f.bone_passes == passes_of(text_of(bone), DEFAULT_BONE_PASSES),
            f.velocity_passes == passes_of(text_of(velocity), DEFAULT_VELOCITY_PASSES),
    {
        let (bone_passes, velocity_passes) = solver_passes(bone, velocity);
        Fidelity { rate: rate(rate_setting), bone_passes, velocity_passes }
    }

    /// Four times this rate and four times the solver passes.
    pub fn fine(self) -> (f: Fidelity)
        requires
            self.rate * 4 <= u32::MAX,
            self.bone_passes * 4 <= usize::MAX,
            self.velocity_passes * 4 <= usize::MAX,
        ensures
            f.rate == self.rate * 4,
            f.bone_passes == self.bone_passes * 4,
            f.velocity_passes == self.velocity_passes * 4,
    {
        Fidelity {
            rate: self.rate * 4,
            bone_passes: self.bone_passes * 4,
            velocity_passes: self.velocity_passes * 4,
        }
    }

    /// Steps of pose settling (1.67 s, rounded up) before the timed trial.
    pub fn settle(self) -> (r: u32)
        requires
            200 * self.rate <= u32::MAX,
        ensures
            r == settle_steps(self.rate as int),
    {
        let n: u64 = 200 * (self.rate as u64);
        ((n + 119) / 120) as u32
    }

    /// Gait sampling interval in steps (30 samples per second).
    pub fn sample_interval(self) -> (r: u32)
        ensures
            r == sample_steps(self.rate as int),
            r >= 1,
    {
        let q = self.rate / 30;
        if q >= 1 {
            q
        } else {
            1
        }
    }
}

} // verus!
