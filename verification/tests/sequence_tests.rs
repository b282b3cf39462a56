use token_lockup::errors::TokenLockupError;
use token_lockup::sequence::TokenLockup;
use token_lockup::types::Address;
use token_lockup::unlocks::find_unlock_with_sequence;

fn addr(id: u64) -> Address {
    Address { id }
}

fn standard_lockup(admin: Address, owner: Address) -> TokenLockup {
    let mut lockup = TokenLockup::new();
    lockup.initialize(admin, owner).unwrap();
    lockup
}

#[test]
fn test_initialize_test_initalize() {
    let admin = addr(1);
    let owner = addr(2);
    let mut lockup = standard_lockup(admin, owner);
    assert_eq!(lockup.get_admin(), admin);
    assert_eq!(lockup.get_owner(), owner);

    let result = lockup.initialize(admin, owner);
    assert_eq!(result, Err(TokenLockupError::AlreadyInitializedError));
}

#[test]
fn test_set_admin() {
    let admin = addr(1);
    let owner = addr(2);
    let mut lockup = standard_lockup(admin, owner);
    assert_eq!(lockup.get_admin(), admin);

    let new_admin = addr(3);
    lockup.update_admin(admin, new_admin).unwrap();
    assert_eq!(lockup.get_admin(), new_admin);

    // the old admin lost its rights
    let result = lockup.update_admin(admin, addr(4));
    assert_eq!(result, Err(TokenLockupError::UnauthorizedError));
}

#[test]
fn test_set_owner() {
    let admin = addr(1);
    let owner = addr(2);
    let mut lockup = standard_lockup(admin, owner);
    assert_eq!(lockup.get_owner(), owner);

    let new_owner = addr(3);
    lockup.update_owner(admin, new_owner).unwrap();
    assert_eq!(lockup.get_owner(), new_owner);

    // only the admin may update the owner
    let result = lockup.update_owner(new_owner, addr(4));
    assert_eq!(result, Err(TokenLockupError::UnauthorizedError));
}

#[test]
fn test_add_unlock() {
    let admin = addr(1);
    let owner = addr(2);
    let mut lockup = standard_lockup(admin, owner);

    let current_sequence: u32 = 100;
    let sequence = current_sequence + 100;
    let percent_unlocked: u64 = 500;
    lockup.add_unlock(admin, sequence, percent_unlocked).unwrap();
    assert_eq!(lockup.get_unlock(sequence), Some(percent_unlocked));

    let changed_percent_unlocked: u64 = 1000;
    lockup.add_unlock(admin, sequence, changed_percent_unlocked).unwrap();
    assert_eq!(lockup.get_unlock(sequence), Some(changed_percent_unlocked));

    let percent_unlocked: u64 = 10001;
    let result = lockup.add_unlock(admin, sequence, percent_unlocked);
    assert_eq!(result, Err(TokenLockupError::InvalidPercentError));

    // only the admin may add unlocks
    let result = lockup.add_unlock(owner, sequence, 500);
    assert_eq!(result, Err(TokenLockupError::UnauthorizedError));
}

#[test]
fn test_remove_unlock() {
    let admin = addr(1);
    let owner = addr(2);
    let mut lockup = standard_lockup(admin, owner);

    let sequence: u32 = 200;
    let percent_unlocked: u64 = 500;
    lockup.add_unlock(admin, sequence, percent_unlocked).unwrap();
    assert_eq!(lockup.get_unlock(sequence), Some(percent_unlocked));

    lockup.remove_unlock(admin, sequence).unwrap();
    assert_eq!(lockup.get_unlock(sequence), None);

    let invalid_seq: u32 = 10001;
    let result = lockup.remove_unlock(admin, invalid_seq);
    assert_eq!(result, Err(TokenLockupError::InvalidUnlockSequenceError));
}

#[test]
fn single_token_single_unlock() {
    let admin = addr(1);
    let owner = addr(2);
    let token = addr(10);
    let mut lockup = standard_lockup(admin, owner);

    let token_amount: i128 = 1_000_000 * 10i128.pow(7);
    let start_sequence: u32 = 100;
    let sequence = start_sequence + 100;
    let percent_unlocked: u64 = 500;
    lockup.add_unlock(admin, sequence, percent_unlocked).unwrap();

    let current_sequence = start_sequence + 100;
    let claim_amount = token_amount * percent_unlocked as i128 / 10000;
    let amounts = lockup
        .claim(owner, sequence, &vec![token], &vec![token_amount], current_sequence)
        .unwrap();
    assert_eq!(amounts, vec![claim_amount]);
    assert_eq!(lockup.get_unlock(sequence), None);
}

#[test]
fn single_token_multi_unlock() {
    let admin = addr(1);
    let owner = addr(2);
    let token = addr(10);
    let mut lockup = standard_lockup(admin, owner);

    let token_amount: i128 = 1_000_000 * 10i128.pow(7);
    let start_sequence: u32 = 100;
    let first_sequence = start_sequence + 100;
    let first_percent_unlocked: u64 = 500;
    lockup.add_unlock(admin, first_sequence, first_percent_unlocked).unwrap();

    let second_sequence = start_sequence + 200;
    let second_percent_unlocked: u64 = 500;
    lockup.add_unlock(admin, second_sequence, second_percent_unlocked).unwrap();

    let current_sequence = start_sequence + second_sequence;
    let first_claim_amount = token_amount * first_percent_unlocked as i128 / 10000;
    let second_claim_amount =
        (token_amount - first_claim_amount) * second_percent_unlocked as i128 / 10000;
    let amounts = lockup
        .claim(owner, second_sequence, &vec![token], &vec![token_amount], current_sequence)
        .unwrap();
    assert_eq!(amounts, vec![first_claim_amount + second_claim_amount]);
    assert_eq!(lockup.get_unlock(first_sequence), None);
    assert_eq!(lockup.get_unlock(second_sequence), None);
}

#[test]
fn multi_token_single_unlock() {
    let admin = addr(1);
    let owner = addr(2);
    let x_token = addr(10);
    let y_token = addr(11);
    let mut lockup = standard_lockup(admin, owner);

    let token_amount: i128 = 1_000_000 * 10i128.pow(7);
    let start_sequence: u32 = 100;
    let sequence = start_sequence + 100;
    let percent_unlocked: u64 = 500;
    lockup.add_unlock(admin, sequence, percent_unlocked).unwrap();

    let current_sequence = start_sequence + 100;
    let claim_amount = token_amount * percent_unlocked as i128 / 10000;
    let amounts = lockup
        .claim(
            owner,
            sequence,
            &vec![x_token, y_token],
            &vec![token_amount, token_amount],
            current_sequence,
        )
        .unwrap();
    assert_eq!(amounts, vec![claim_amount, claim_amount]);
    assert_eq!(lockup.get_unlock(sequence), None);
}

#[test]
fn test_claim_early() {
    let admin = addr(1);
    let owner = addr(2);
    let x_token = addr(10);
    let mut lockup = standard_lockup(admin, owner);

    let token_amount: i128 = 1_000_000 * 10i128.pow(7);
    let start_sequence: u32 = 100;
    let sequence = start_sequence + 100;
    let percent_unlocked: u64 = 500;
    lockup.add_unlock(admin, sequence, percent_unlocked).unwrap();

    let current_sequence = start_sequence + 99;
    let result = lockup.claim(owner, sequence, &vec![x_token], &vec![token_amount], current_sequence);
    assert_eq!(result, Err(TokenLockupError::InvalidUnlockSequenceError));
    assert_eq!(lockup.get_unlock(sequence), Some(percent_unlocked));
}

#[test]
fn test_claim_invalid_sequence() {
    let admin = addr(1);
    let owner = addr(2);
    let x_token = addr(10);
    let mut lockup = standard_lockup(admin, owner);

    let token_amount: i128 = 1_000_000 * 10i128.pow(7);
    let start_sequence: u32 = 100;
    let sequence = start_sequence + 100;
    let percent_unlocked: u64 = 500;
    lockup.add_unlock(admin, sequence, percent_unlocked).unwrap();

    let current_sequence = start_sequence + 100;
    let result = lockup.claim(
        owner,
        sequence - 1,
        &vec![x_token],
        &vec![token_amount],
        current_sequence,
    );
    assert_eq!(result, Err(TokenLockupError::InvalidUnlockSequenceError));
}

#[test]
fn test_find_unlock_with_sequence() {
    let sequences: Vec<u32> = vec![1, 3, 5, 7, 9];

    let index = find_unlock_with_sequence(0, &sequences);
    assert_eq!(index, None);

    let index = find_unlock_with_sequence(1, &sequences);
    assert_eq!(index, Some(0));

    let index = find_unlock_with_sequence(8, &sequences);
    assert_eq!(index, Some(3));

    let index = find_unlock_with_sequence(9, &sequences);
    assert_eq!(index, Some(4));

    let index = find_unlock_with_sequence(20, &sequences);
    assert_eq!(index, Some(4));
}

#[test]
fn consuming_a_checkpoint_is_shared_across_assets() {
    let admin = addr(1);
    let owner = addr(2);
    let token = addr(10);
    let left_out = addr(11);
    let mut lockup = standard_lockup(admin, owner);

    lockup.add_unlock(admin, 150, 5000).unwrap();
    let amounts = lockup.claim(owner, 150, &vec![token], &vec![1_000_000], 200).unwrap();
    assert_eq!(amounts, vec![500_000]);

    // the prefix is consumed for every asset, claimed or not
    let result = lockup.claim(owner, 150, &vec![left_out], &vec![1_000_000], 200);
    assert_eq!(result, Err(TokenLockupError::InvalidUnlockSequenceError));
}

#[test]
fn two_checkpoints_claimed_in_turn() {
    let admin = addr(1);
    let owner = addr(2);
    let asset = addr(10);
    let mut lockup = standard_lockup(admin, owner);

    lockup.add_unlock(admin, 100, 5000).unwrap();
    lockup.add_unlock(admin, 200, 5000).unwrap();

    let mut balance: i128 = 1_000_000;
    let amounts = lockup.claim(owner, 100, &vec![asset], &vec![balance], 100).unwrap();
    assert_eq!(amounts, vec![500_000]);
    balance -= amounts[0];
    assert_eq!(lockup.get_unlock(100), None);
    assert_eq!(lockup.get_unlock(200), Some(5000));

    let amounts = lockup.claim(owner, 200, &vec![asset], &vec![balance], 250).unwrap();
    assert_eq!(amounts, vec![250_000]);
    balance -= amounts[0];
    assert_eq!(lockup.get_unlock(200), None);

    // no schedule remains, so the rest stays uncollected in the contract
    assert_eq!(balance, 250_000);
}

#[test]
fn claim_requires_the_owner() {
    let admin = addr(1);
    let owner = addr(2);
    let token = addr(10);
    let mut lockup = standard_lockup(admin, owner);
    lockup.add_unlock(admin, 150, 5000).unwrap();

    let result = lockup.claim(admin, 150, &vec![token], &vec![1_000_000], 200);
    assert_eq!(result, Err(TokenLockupError::UnauthorizedError));
    assert_eq!(lockup.get_unlock(150), Some(5000));
}
