use reina::arbiter::assess_governance_proposal;
use reina::chain_manager::ChainManager;
use reina::forge::verify_hpc_result;
use reina::pocup::{needs_slashing, perform_useful_work, stake, trivial_puzzle, Validator};

#[test]
fn test_add_and_run() {
    let mut cm = ChainManager::new();
    cm.add_validator("validator1".to_string(), 1000);
    assert_eq!(cm.validators.len(), 1);
    assert!(!cm.validators[0].puzzle_passed);
    cm.run_pocup_tasks();
    assert!(cm.validators[0].puzzle_passed);
}

#[test]
fn test_trivial_puzzle() {
    assert!(trivial_puzzle());
}

#[test]
fn test_stake_and_work() {
    let mut v = Validator {
        id: "validator1".to_string(),
        stake_amount: 100,
        puzzle_passed: false,
    };
    stake(&mut v, 50);
    assert_eq!(v.stake_amount, 150);
    perform_useful_work(&mut v);
    assert!(v.puzzle_passed);
}

#[test]
fn slashing_decision() {
    let mut v = Validator {
        id: "validator2".to_string(),
        stake_amount: 200,
        puzzle_passed: false,
    };
    assert!(needs_slashing(&v));
    perform_useful_work(&mut v);
    assert!(!needs_slashing(&v));
}

#[test]
fn chain_manager_keeps_order_and_stakes() {
    let mut cm = ChainManager::new();
    cm.add_validator("a".to_string(), 1);
    cm.add_validator("b".to_string(), 2);
    cm.run_pocup_tasks();
    assert_eq!(cm.validators[0].id, "a");
    assert_eq!(cm.validators[1].stake_amount, 2);
    assert!(cm.validators.iter().all(|v| v.puzzle_passed));
}

#[test]
fn stubs_accept() {
    assert!(assess_governance_proposal());
    assert!(verify_hpc_result());
}
