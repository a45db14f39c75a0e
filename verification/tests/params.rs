use mill_core::params::{first_out_of_range, SimulationLimit};

#[test]
fn default_simulation_parameters_are_in_range() {
    assert_eq!(first_out_of_range(40, 8, 3, 2, true, true, 600), None);
    assert_eq!(first_out_of_range(4, 1, 1, 1, true, true, 10), None);
    assert_eq!(first_out_of_range(200, 16, 20, 20, true, true, 50_000), None);
}

#[test]
fn each_simulation_limit_is_reported() {
    assert_eq!(first_out_of_range(3, 8, 3, 2, true, true, 600), Some(SimulationLimit::Resolution));
    assert_eq!(first_out_of_range(201, 8, 3, 2, true, true, 600), Some(SimulationLimit::Resolution));
    assert_eq!(first_out_of_range(40, 0, 3, 2, true, true, 600), Some(SimulationLimit::Substeps));
    assert_eq!(first_out_of_range(40, 17, 3, 2, true, true, 600), Some(SimulationLimit::Substeps));
    assert_eq!(first_out_of_range(40, 8, 0, 2, true, true, 600), Some(SimulationLimit::PbfIterations));
    assert_eq!(first_out_of_range(40, 8, 21, 2, true, true, 600), Some(SimulationLimit::PbfIterations));
    assert_eq!(first_out_of_range(40, 8, 3, 0, true, true, 600), Some(SimulationLimit::DemIterations));
    assert_eq!(first_out_of_range(40, 8, 3, 2, false, true, 600), Some(SimulationLimit::TimeScale));
    assert_eq!(first_out_of_range(40, 8, 3, 2, true, false, 600), Some(SimulationLimit::FrameBudget));
    assert_eq!(first_out_of_range(40, 8, 3, 2, true, true, 9), Some(SimulationLimit::MaxBalls));
    assert_eq!(first_out_of_range(40, 8, 3, 2, true, true, 50_001), Some(SimulationLimit::MaxBalls));
}

#[test]
fn the_first_failing_simulation_limit_wins() {
    assert_eq!(first_out_of_range(0, 0, 0, 0, false, false, 0), Some(SimulationLimit::Resolution));
    assert_eq!(first_out_of_range(40, 8, 0, 0, false, false, 0), Some(SimulationLimit::PbfIterations));
    assert_eq!(first_out_of_range(40, 8, 3, 2, false, false, 0), Some(SimulationLimit::TimeScale));
    assert_eq!(first_out_of_range(40, 8, 3, 2, true, false, 0), Some(SimulationLimit::FrameBudget));
}
