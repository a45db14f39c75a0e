//! The discrete (non-numeric) choices among the simulation parameters.
//!
//! All numeric parameters are SI (metres, kilograms, seconds, Pascal-seconds, radians); the
//! choices below select how some of them are interpreted.

use vstd::prelude::*;

verus! {

/// How the mill's rotation speed is specified.
#[derive(Debug, Clone, Copy, PartialEq, Eq, Structural)]
pub enum SpeedMode {
    /// The speed value is an absolute rotation speed in rpm.
    Rpm,
    /// The speed value is a percentage of critical speed (e.g. `70.0` for 70% Nc).
    PercentCritical,
}

/// Drum rotation direction, viewed from the standard (right-handed, +x right / +y up) 2D frame.
#[derive(Debug, Clone, Copy, PartialEq, Eq, Structural)]
pub enum Direction {
    CounterClockwise,
    Clockwise,
}

/// Slurry rheology model. Only `Newtonian` is simulated; `Bingham` is reserved for a yield-stress
/// extension.
#[derive(Debug, Clone, Copy, PartialEq, Eq, Structural)]
pub enum Rheology {
    Newtonian,
    Bingham,
}

/// Initial dye tracer pattern, used to visualize and measure mixing.
#[derive(Debug, Clone, Copy, PartialEq, Eq, Structural)]
pub enum DyePattern {
    LeftRight,
    TopBottom,
    /// No dye: every particle starts undyed (serialized as `"none"`).
    Undyed,
}

/// A simulation parameter outside its accepted range.
#[derive(Debug, Clone, Copy, PartialEq, Eq, Structural)]
pub enum SimulationLimit {
    /// The resolution (fluid particles across the drum radius) is not in `[4, 200]`.
    Resolution,
    /// The sub-steps per frame are not in `[1, 16]`.
    Substeps,
    /// The fluid solver iterations are not in `[1, 20]`.
    PbfIterations,
    /// The ball solver iterations are not in `[1, 20]`.
    DemIterations,
    /// The time scale is not a finite positive number.
    TimeScale,
    /// The frame budget is not a finite positive number of milliseconds.
    FrameBudget,
    /// The ball-count cap is not in `[10, 50000]`.
    MaxBalls,
}

/// The first simulation parameter out of range, checked in the order resolution, sub-steps,
/// fluid iterations, ball iterations, time scale, frame budget, ball-count cap; none if all are
/// in range. `time_scale_ok` and `frame_budget_ok` say whether those two real-valued
/// parameters are finite and positive.
pub open spec fn first_out_of_range_of(
    resolution: u32,
    substeps: u32,
    pbf_iterations: u32,
    dem_iterations: u32,
    time_scale_ok: bool,
    frame_budget_ok: bool,
    max_balls: u32,
) -> Option<SimulationLimit> {
    if !(4 <= resolution <= 200) {
        Some(SimulationLimit::Resolution)
    } else if !(1 <= substeps <= 16) {
        Some(SimulationLimit::Substeps)
    } else if !(1 <= pbf_iterations <= 20) {
        Some(SimulationLimit::PbfIterations)
    } else if !(1 <= dem_iterations <= 20) {
        Some(SimulationLimit::DemIterations)
    } else if !time_scale_ok {
        Some(SimulationLimit::TimeScale)
    } else if !frame_budget_ok {
        Some(SimulationLimit::FrameBudget)
    } else if !(10 <= max_balls <= 50_000) {
        Some(SimulationLimit::MaxBalls)
    } else {
        None
    }
}

/// Validates the simulation parameters: the first one out of range (see
/// [`first_out_of_range_of`]), or none.
pub fn first_out_of_range(
    resolution: u32,
    substeps: u32,
    pbf_iterations: u32,
    dem_iterations: u32,
    time_scale_ok: bool,
    frame_budget_ok: bool,
    max_balls: u32,
) -> (r: Option<SimulationLimit>)
    ensures
        r == first_out_of_range_of(
            resolution,
            substeps,
            pbf_iterations,
            dem_iterations,
            time_scale_ok,
            frame_budget_ok,
            max_balls,
        ),
        r is None <==> (4 <= resolution <= 200 && 1 <= substeps <= 16 && 1 <= pbf_iterations <= 20
            && 1 <= dem_iterations <= 20 && time_scale_ok && frame_budget_ok && 10 <= max_balls
            <= 50_000),
{
    if resolution < 4 || resolution > 200 {
        Some(SimulationLimit::Resolution)
    } else if substeps < 1 || substeps > 16 {
        Some(SimulationLimit::Substeps)
    } else if pbf_iterations < 1 || pbf_iterations > 20 {
        Some(SimulationLimit::PbfIterations)
    } else if dem_iterations < 1 || dem_iterations > 20 {
        Some(SimulationLimit::DemIterations)
    } else if !time_scale_ok {
        Some(SimulationLimit::TimeScale)
    } else if !frame_budget_ok {
        Some(SimulationLimit::FrameBudget)
    } else if max_balls < 10 || max_balls > 50_000 {
        Some(SimulationLimit::MaxBalls)
    } else {
        None
    }
}

/// Validation reports exactly the first parameter out of its range: it accepts the parameters
/// exactly when resolution is in `[4, 200]`, sub-steps in `[1, 16]`, both solvers' iterations in
/// `[1, 20]`, the time scale and frame budget are finite and positive, and the ball-count cap is
/// in `[10, 50000]`; otherwise it names the first of these, in that order, that fails.
pub proof fn lemma_first_out_of_range_bounds(
    resolution: u32,
    substeps: u32,
    pbf_iterations: u32,
    dem_iterations: u32,
    time_scale_ok: bool,
    frame_budget_ok: bool,
    max_balls: u32,
)
    ensures
        ({
            let r = first_out_of_range_of(
                resolution,
                substeps,
                pbf_iterations,
                dem_iterations,
                time_scale_ok,
                frame_budget_ok,
                max_balls,
            );
            let res_ok = 4 <= resolution <= 200;
            let sub_ok = 1 <= substeps <= 16;
            let pbf_ok = 1 <= pbf_iterations <= 20;
            let dem_ok = 1 <= dem_iterations <= 20;
            let balls_ok = 10 <= max_balls <= 50_000;
            &&& r is None <==> (res_ok && sub_ok && pbf_ok && dem_ok && time_scale_ok
                && frame_budget_ok && balls_ok)
            &&& r == Some(SimulationLimit::Resolution) <==> !res_ok
            &&& r == Some(SimulationLimit::Substeps) <==> (res_ok && !sub_ok)
            &&& r == Some(SimulationLimit::PbfIterations) <==> (res_ok && sub_ok && !pbf_ok)
            &&& r == Some(SimulationLimit::DemIterations) <==> (res_ok && sub_ok && pbf_ok
                && !dem_ok)
            &&& r == Some(SimulationLimit::TimeScale) <==> (res_ok && sub_ok && pbf_ok && dem_ok
                && !time_scale_ok)
            &&& r == Some(SimulationLimit::FrameBudget) <==> (res_ok && sub_ok && pbf_ok && dem_ok
                && time_scale_ok && !frame_budget_ok)
            &&& r == Some(SimulationLimit::MaxBalls) <==> (res_ok && sub_ok && pbf_ok && dem_ok
                && time_scale_ok && frame_budget_ok && !balls_ok)
        }),
{
}

} // verus!
