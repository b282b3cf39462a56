use token_lockup::errors::TokenLockupError;
use token_lockup::types::Unlock;
use token_lockup::validation::require_valid_unlocks;

fn u(time: u64, percent: u32) -> Unlock {
    Unlock { time, percent }
}

#[test]
fn test_require_valid_unlocks_first_time() {
    let unlocks = vec![u(100, 5000), u(200, 2500), u(500, 10000)];
    assert_eq!(require_valid_unlocks(&unlocks, None, 0), Ok(()));
}

#[test]
fn test_require_valid_unlocks_empty() {
    let unlocks: Vec<Unlock> = vec![];
    assert_eq!(
        require_valid_unlocks(&unlocks, None, 0),
        Err(TokenLockupError::InvalidUnlocks)
    );
}

#[test]
fn test_require_valid_unlocks_over_48() {
    let unlocks: Vec<Unlock> = vec![];
    assert_eq!(
        require_valid_unlocks(&unlocks, None, 0),
        Err(TokenLockupError::InvalidUnlocks)
    );
}

#[test]
fn test_require_valid_unlocks_more_than_max_checkpoints() {
    let mut unlocks: Vec<Unlock> = Vec::new();
    for i in 0..48 {
        unlocks.push(u(100 + i, 100));
    }
    unlocks.push(u(1000, 10000));
    assert_eq!(unlocks.len(), 49);
    assert_eq!(
        require_valid_unlocks(&unlocks, None, 0),
        Err(TokenLockupError::InvalidUnlocks)
    );
}

#[test]
fn test_require_valid_unlocks_does_not_end_with_100_percent() {
    let unlocks = vec![u(100, 5000), u(200, 2500), u(500, 10000 - 1)];
    assert_eq!(
        require_valid_unlocks(&unlocks, None, 0),
        Err(TokenLockupError::InvalidUnlocks)
    );
}

#[test]
fn test_require_valid_unlocks_invalid_percent() {
    let unlocks = vec![u(100, 5000), u(200, 2500), u(500, 10000 + 1)];
    assert_eq!(
        require_valid_unlocks(&unlocks, None, 0),
        Err(TokenLockupError::InvalidUnlocks)
    );
}

#[test]
fn test_require_valid_unlocks_zero_percent() {
    let unlocks = vec![u(100, 0), u(200, 2500), u(500, 10000)];
    assert_eq!(
        require_valid_unlocks(&unlocks, None, 0),
        Err(TokenLockupError::InvalidUnlocks)
    );
}

#[test]
fn test_require_valid_unlocks_out_of_order() {
    let unlocks = vec![u(100, 5000), u(200, 2500), u(195, 100), u(500, 10000)];
    assert_eq!(
        require_valid_unlocks(&unlocks, None, 0),
        Err(TokenLockupError::InvalidUnlocks)
    );
}

#[test]
fn test_require_valid_unlocks_duplicate_unlock_time() {
    let unlocks = vec![u(100, 5000), u(200, 2500), u(200, 100), u(500, 10000)];
    assert_eq!(
        require_valid_unlocks(&unlocks, None, 0),
        Err(TokenLockupError::InvalidUnlocks)
    );
}

#[test]
fn test_require_valid_unlocks_replaces() {
    let now = 300;
    let old_unlocks = vec![u(100, 5000), u(200, 2500), u(500, 10000)];
    let new_unlocks = vec![u(100, 5000), u(200, 2500), u(250, 2500), u(800, 10000)];
    assert_eq!(
        require_valid_unlocks(&new_unlocks, Some(&old_unlocks), now),
        Ok(())
    );
}

#[test]
fn test_require_valid_unlocks_replaces_changes_old() {
    let now = 300;
    let old_unlocks = vec![u(100, 5000), u(200, 2500), u(500, 10000)];
    let new_unlocks = vec![u(100, 5000), u(350, 2500), u(800, 10000)];
    assert_eq!(
        require_valid_unlocks(&new_unlocks, Some(&old_unlocks), now),
        Err(TokenLockupError::AlreadyUnlocked)
    );
}

#[test]
fn test_require_valid_unlocks_replaces_fully_unlocked() {
    let now = 500;
    let old_unlocks = vec![u(100, 5000), u(200, 2500), u(500, 10000)];
    let new_unlocks = vec![u(100, 5000), u(200, 2500), u(500, 10000), u(800, 10000)];
    assert_eq!(
        require_valid_unlocks(&new_unlocks, Some(&old_unlocks), now),
        Err(TokenLockupError::AlreadyUnlocked)
    );
}

#[test]
fn test_require_valid_unlocks_replaces_drops_past_checkpoint() {
    let now = 25;
    let old_unlocks = vec![u(10, 10000), u(20, 5000), u(1000, 10000)];
    let new_unlocks = vec![u(10, 10000)];
    assert_eq!(
        require_valid_unlocks(&new_unlocks, Some(&old_unlocks), now),
        Err(TokenLockupError::AlreadyUnlocked)
    );
}

#[test]
fn test_require_valid_unlocks_first_time_after_now() {
    let unlocks = vec![u(100, 5000), u(200, 2500), u(500, 10000)];
    assert_eq!(require_valid_unlocks(&unlocks, None, 400), Ok(()));
}
