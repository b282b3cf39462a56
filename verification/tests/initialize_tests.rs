use token_lockup::contract::TokenLockup;
use token_lockup::errors::TokenLockupError;
use token_lockup::types::{Address, Unlock};

fn addr(id: u64) -> Address {
    Address { id }
}

fn u(time: u64, percent: u32) -> Unlock {
    Unlock { time, percent }
}

#[test]
fn test_lockup_initialize_validates_unlocks() {
    let bombadil = addr(1);
    let frodo = addr(2);
    let now: u64 = 1441065600;
    let unlocks = vec![u(now + 10000, 5000), u(now + 20000, 10000 - 1)];

    let mut lockup = TokenLockup::new();
    let result = lockup.initialize(bombadil, frodo, unlocks, now);
    assert_eq!(result, Err(TokenLockupError::InvalidUnlocks));
}

#[test]
fn test_lockup_initialize_once() {
    let bombadil = addr(1);
    let frodo = addr(2);
    let now: u64 = 1441065600;
    let unlocks = vec![u(now + 10000, 5000), u(now + 20000, 10000)];

    let mut lockup = TokenLockup::new();
    assert_eq!(lockup.initialize(bombadil, frodo, unlocks, now), Ok(()));

    let new_unlocks = vec![u(now, 10000)];
    let result = lockup.initialize(bombadil, frodo, new_unlocks, now);
    assert_eq!(result, Err(TokenLockupError::AlreadyInitializedError));
    assert_eq!(lockup.admin(), bombadil);
    assert_eq!(lockup.owner(), frodo);
}
