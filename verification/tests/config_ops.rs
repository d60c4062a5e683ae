use bridge_core::config::{withdraw_fee, ConfigInfo};
use bridge_core::errors::ErrorCode;

fn id(seed: u8) -> [u8; 20] {
    [seed; 20]
}

#[test]
fn initialize_starts_with_threshold_one() {
    let config = ConfigInfo::initialize([7; 32], 254);
    assert_eq!(config.admin, [7; 32]);
    assert!(config.signers.is_empty());
    assert_eq!(config.threshold, 1);
    assert_eq!(config.bridge_fee, 0);
    assert_eq!(config.bump, 254);
}

#[test]
fn change_admin_and_fee() {
    let mut config = ConfigInfo::initialize([7; 32], 0);
    config.change_admin([8; 32]);
    assert_eq!(config.admin, [8; 32]);
    config.set_bridge_fee(1000);
    assert_eq!(config.bridge_fee, 1000);
}

#[test]
fn add_signers_skips_duplicates() {
    let mut config = ConfigInfo::initialize([7; 32], 0);
    assert_eq!(config.add_signers(&vec![id(1), id(2), id(1)]), Ok(()));
    assert_eq!(config.signers, vec![id(1), id(2)]);
    // Re-adding an existing identity is a no-op.
    assert_eq!(config.add_signers(&vec![id(2), id(3)]), Ok(()));
    assert_eq!(config.signers, vec![id(1), id(2), id(3)]);
}

#[test]
fn add_signers_rejects_more_than_twelve() {
    let mut config = ConfigInfo::initialize([7; 32], 0);
    let twelve: Vec<[u8; 20]> = (1..=12).map(id).collect();
    assert_eq!(config.add_signers(&twelve), Ok(()));
    assert_eq!(config.signers.len(), 12);
    // A thirteenth is refused and nothing changes.
    assert_eq!(config.add_signers(&vec![id(13)]), Err(ErrorCode::ValidatorOver12));
    assert_eq!(config.signers, twelve);
    // Adding an already-present identity still succeeds at capacity.
    assert_eq!(config.add_signers(&vec![id(5)]), Ok(()));
    assert_eq!(config.signers.len(), 12);
}

#[test]
fn remove_signers_clamps_threshold() {
    let mut config = ConfigInfo::initialize([7; 32], 0);
    config.add_signers(&vec![id(1), id(2), id(3)]).unwrap();
    config.set_threshold(3).unwrap();
    assert_eq!(config.remove_signers(&vec![id(2), id(3)]), Ok(()));
    assert_eq!(config.signers, vec![id(1)]);
    // Threshold was silently lowered to the remaining count.
    assert_eq!(config.threshold, 1);
}

#[test]
fn remove_signers_refuses_emptying_the_set() {
    let mut config = ConfigInfo::initialize([7; 32], 0);
    config.add_signers(&vec![id(1), id(2)]).unwrap();
    assert_eq!(config.remove_signers(&vec![id(1), id(2)]), Err(ErrorCode::InvalidThreshold));
    // Nothing changed.
    assert_eq!(config.signers, vec![id(1), id(2)]);
    // Removing an identity that is not present is a quiet no-op.
    assert_eq!(config.remove_signers(&vec![id(9)]), Ok(()));
    assert_eq!(config.signers, vec![id(1), id(2)]);
}

#[test]
fn set_threshold_bounds() {
    let mut config = ConfigInfo::initialize([7; 32], 0);
    config.add_signers(&vec![id(1), id(2), id(3)]).unwrap();
    assert_eq!(config.set_threshold(0), Err(ErrorCode::InvalidThreshold));
    assert_eq!(config.set_threshold(4), Err(ErrorCode::InvalidThreshold));
    assert_eq!(config.threshold, 1);
    assert_eq!(config.set_threshold(3), Ok(()));
    assert_eq!(config.threshold, 3);
}

#[test]
fn withdraw_fee_checks_balance() {
    assert_eq!(withdraw_fee(100, 40), Ok(60));
    assert_eq!(withdraw_fee(100, 100), Ok(0));
    assert_eq!(withdraw_fee(100, 101), Err(ErrorCode::InsufficientFee));
    assert_eq!(withdraw_fee(0, 1), Err(ErrorCode::InsufficientFee));
}
