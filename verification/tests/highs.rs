use ferrox::highs::{HighsModelStatus, HighsReturnStatus};
use ferrox::mip::suggestor::mip_status_name;

#[test]
fn status_values() {
    assert_eq!(HighsModelStatus::Optimal.code(), 7);
    assert!(HighsModelStatus::Optimal.is_success());
    assert!(!HighsModelStatus::Infeasible.is_success());
}

#[test]
fn status_codes_round_trip() {
    let all = [
        HighsModelStatus::NotSet,
        HighsModelStatus::LoadError,
        HighsModelStatus::ModelError,
        HighsModelStatus::Infeasible,
        HighsModelStatus::Optimal,
        HighsModelStatus::Unbounded,
        HighsModelStatus::SolutionLimit,
        HighsModelStatus::TimeLimit,
    ];
    for s in all {
        assert_eq!(HighsModelStatus::from_code(s.code()), Some(s));
    }
    assert_eq!(HighsModelStatus::from_code(3), None);
    assert_eq!(HighsModelStatus::TimeLimit.code(), 12);
    assert_eq!(HighsReturnStatus::Error.code(), 2);
}

#[test]
fn success_and_optimal() {
    assert!(HighsModelStatus::SolutionLimit.is_success());
    assert!(HighsModelStatus::TimeLimit.is_success());
    assert!(!HighsModelStatus::TimeLimit.is_optimal());
    assert!(HighsModelStatus::Optimal.is_optimal());
    assert!(!HighsModelStatus::NotSet.is_success());
}

#[test]
fn mip_status_names() {
    assert_eq!(mip_status_name(HighsModelStatus::Optimal), "optimal");
    assert_eq!(mip_status_name(HighsModelStatus::TimeLimit), "feasible");
    assert_eq!(mip_status_name(HighsModelStatus::SolutionLimit), "feasible");
    assert_eq!(mip_status_name(HighsModelStatus::Infeasible), "infeasible");
    assert_eq!(mip_status_name(HighsModelStatus::Unbounded), "unbounded");
    assert_eq!(mip_status_name(HighsModelStatus::ModelError), "error");
}
