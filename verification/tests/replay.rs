use bridge_core::errors::ErrorCode;
use bridge_core::nonce::FromChainNonce;

#[test]
fn first_nonce_always_admitted() {
    let mut state = FromChainNonce::new();
    assert_eq!(state.admit_nonce(7), Ok(()));
    assert_eq!(state.last_nonce, 7);

    let mut state = FromChainNonce::new();
    assert_eq!(state.admit_nonce(0), Ok(()));

    let mut state = FromChainNonce::new();
    assert_eq!(state.admit_nonce(u64::MAX), Ok(()));
}

#[test]
fn duplicate_nonce_rejected() {
    let mut state = FromChainNonce::new();
    assert_eq!(state.admit_nonce(7), Ok(()));
    assert_eq!(state.admit_nonce(7), Err(ErrorCode::NonceConsumed));
    // The rejection changed nothing: a fresh nonce still goes through.
    assert_eq!(state.admit_nonce(8), Ok(()));
    assert_eq!(state.admit_nonce(8), Err(ErrorCode::NonceConsumed));
    // And the older accepted nonce stays rejected too.
    assert_eq!(state.admit_nonce(7), Err(ErrorCode::NonceConsumed));
}

#[test]
fn fresh_key_nonce_ten_then_nine() {
    let mut state = FromChainNonce::new();
    assert_eq!(state.admit_nonce(10), Ok(()));
    assert_eq!(state.admit_nonce(10), Err(ErrorCode::NonceConsumed));
    // The window floor is 10, so 9 is below anything remembered.
    assert_eq!(state.admit_nonce(9), Err(ErrorCode::NonceInvalid));
}

#[test]
fn reordering_tolerated_above_floor() {
    let mut state = FromChainNonce::new();
    // Out-of-numeric-order arrival is fine as long as nothing falls below
    // the window floor, which the first accepted nonce sets.
    for nonce in [2u64, 5, 3, 4, 6] {
        assert_eq!(state.admit_nonce(nonce), Ok(()), "nonce {} should be admitted", nonce);
    }
    assert_eq!(state.window, vec![2, 3, 4, 5, 6]);
    // Each of them is now consumed.
    for nonce in [2u64, 5, 3, 4, 6] {
        assert_eq!(state.admit_nonce(nonce), Err(ErrorCode::NonceConsumed));
    }
}

#[test]
fn nonce_below_floor_rejected_even_if_never_seen() {
    // The floor is the smallest value the window remembers: anything below
    // it cannot be told apart from an already-evicted nonce and is refused,
    // even when it was in fact never accepted.
    let mut state = FromChainNonce::new();
    assert_eq!(state.admit_nonce(5), Ok(()));
    assert_eq!(state.admit_nonce(3), Err(ErrorCode::NonceInvalid));
    // The rejection did not disturb the window.
    assert_eq!(state.window, vec![5]);
    assert_eq!(state.admit_nonce(6), Ok(()));
}

#[test]
fn window_eviction_after_fifty_one() {
    let mut state = FromChainNonce::new();
    // 51 distinct nonces, the first strictly smallest.
    for nonce in 1u64..=51 {
        assert_eq!(state.admit_nonce(nonce), Ok(()));
    }
    assert_eq!(state.window.len(), 50);
    // Nonce 1 was evicted: it is now below the window floor.
    assert_eq!(state.admit_nonce(1), Err(ErrorCode::NonceInvalid));
    // Nonces 2..=51 are still remembered and rejected as consumed.
    for nonce in 2u64..=51 {
        assert_eq!(state.admit_nonce(nonce), Err(ErrorCode::NonceConsumed));
    }
}

#[test]
fn window_floor_advances_only_by_eviction() {
    let mut state = FromChainNonce::new();
    // Fill out of order; the floor stays at the smallest accepted value.
    assert_eq!(state.admit_nonce(100), Ok(()));
    for nonce in 101u64..150 {
        assert_eq!(state.admit_nonce(nonce), Ok(()));
    }
    assert_eq!(state.window.len(), 50);
    // Still room for nothing: the next admit evicts 100.
    assert_eq!(state.admit_nonce(150), Ok(()));
    assert_eq!(state.admit_nonce(100), Err(ErrorCode::NonceInvalid));
}

#[test]
fn last_nonce_fast_path_survives_eviction() {
    // A record restored from storage may hold a last nonce that the window
    // no longer remembers; an exact repeat of it is still consumed, not
    // merely invalid.
    let mut state = FromChainNonce {
        chain: bridge_core::chain::Chain { chain_type: 0, chain_id: 1 },
        last_nonce: 7,
        window: vec![10, 20],
    };
    assert_eq!(state.admit_nonce(7), Err(ErrorCode::NonceConsumed));
    // Whereas another nonce below the floor is invalid.
    assert_eq!(state.admit_nonce(8), Err(ErrorCode::NonceInvalid));
}

#[test]
fn check_and_store_accepts_into_empty_window() {
    let mut state = FromChainNonce::new();
    assert_eq!(state.check_and_store_nonce(42), Ok(true));
    assert_eq!(state.window, vec![42]);
    // The window part alone does not update the last stored nonce.
    assert_eq!(state.last_nonce, 0);
}

#[test]
fn check_and_store_keeps_window_sorted() {
    let mut state = FromChainNonce::new();
    assert_eq!(state.check_and_store_nonce(10), Ok(true));
    assert_eq!(state.check_and_store_nonce(30), Ok(true));
    assert_eq!(state.check_and_store_nonce(20), Ok(true));
    assert_eq!(state.window, vec![10, 20, 30]);
    assert_eq!(state.check_and_store_nonce(20), Err(ErrorCode::NonceConsumed));
    assert_eq!(state.check_and_store_nonce(9), Err(ErrorCode::NonceInvalid));
    assert_eq!(state.window, vec![10, 20, 30]);
}
