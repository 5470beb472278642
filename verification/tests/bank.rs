use solana_pda::account::BankError;
use solana_pda::account::Pubkey;
use solana_pda::ledger::Create;
use solana_pda::ledger::Deposit;
use solana_pda::ledger::Ledger;
use solana_pda::ledger::Withdraw;

fn key(b: u8) -> Pubkey {
    Pubkey::new(vec![b; 32])
}

fn padded(name: &[u8]) -> Vec<u8> {
    let mut out = vec![0u8; 32];
    let n: usize = if name.len() > 32 { 32 } else { name.len() };
    out[..n].copy_from_slice(&name[..n]);
    out
}

#[test]
fn create_stores_name_balance_owner() {
    let alice = key(1);
    let mut l = Ledger::new();
    l.airdrop(&alice, 1_000);
    assert_eq!(l.create(&Create { user: alice.duplicate() }, &b"Alice".to_vec(), 100), Ok(()));
    assert_eq!(l.bank_name(&alice), Some(padded(b"Alice")));
    assert_eq!(l.bank_balance(&alice), Some(0));
    assert_eq!(l.bank_owner(&alice).unwrap().bytes, alice.bytes);
    assert_eq!(l.bank_lamports(&alice), Some(100));
    assert_eq!(l.user_lamports(&alice), 900);
}

#[test]
fn create_pads_empty_name() {
    let alice = key(1);
    let mut l = Ledger::new();
    assert_eq!(l.create(&Create { user: alice.duplicate() }, &Vec::new(), 0), Ok(()));
    assert_eq!(l.bank_name(&alice), Some(vec![0u8; 32]));
}

#[test]
fn create_truncates_long_name() {
    let alice = key(1);
    let mut l = Ledger::new();
    let long: Vec<u8> = (0u8..40u8).collect();
    assert_eq!(l.create(&Create { user: alice.duplicate() }, &long, 0), Ok(()));
    let first_32: Vec<u8> = (0u8..32u8).collect();
    assert_eq!(l.bank_name(&alice), Some(first_32));
}

#[test]
fn create_twice_fails_and_leaves_account_unchanged() {
    let alice = key(1);
    let mut l = Ledger::new();
    l.airdrop(&alice, 1_000);
    assert_eq!(l.create(&Create { user: alice.duplicate() }, &b"Alice".to_vec(), 100), Ok(()));
    assert_eq!(
        l.create(&Create { user: alice.duplicate() }, &b"Other".to_vec(), 200),
        Err(BankError::AlreadyInitialized)
    );
    assert_eq!(l.bank_name(&alice), Some(padded(b"Alice")));
    assert_eq!(l.bank_balance(&alice), Some(0));
    assert_eq!(l.bank_lamports(&alice), Some(100));
    assert_eq!(l.user_lamports(&alice), 900);
}

#[test]
fn create_fails_when_payer_cannot_fund_rent() {
    let alice = key(1);
    let mut l = Ledger::new();
    l.airdrop(&alice, 50);
    assert_eq!(
        l.create(&Create { user: alice.duplicate() }, &b"Alice".to_vec(), 100),
        Err(BankError::TransferFailed)
    );
    assert!(!l.has_bank(&alice));
    assert_eq!(l.user_lamports(&alice), 50);
}

#[test]
fn deposits_accumulate_in_balance_and_lamports() {
    let alice = key(1);
    let mut l = Ledger::new();
    l.airdrop(&alice, 10_000);
    assert_eq!(l.create(&Create { user: alice.duplicate() }, &b"Alice".to_vec(), 100), Ok(()));
    assert_eq!(l.deposit(&Deposit { bank: alice.duplicate(), user: alice.duplicate() }, 3_000), Ok(()));
    assert_eq!(l.deposit(&Deposit { bank: alice.duplicate(), user: alice.duplicate() }, 4_000), Ok(()));
    assert_eq!(l.bank_balance(&alice), Some(7_000));
    assert_eq!(l.bank_lamports(&alice), Some(7_100));
    assert_eq!(l.user_lamports(&alice), 2_900);
}

#[test]
fn anyone_may_deposit_into_any_bank() {
    let alice = key(1);
    let bob = key(2);
    let mut l = Ledger::new();
    l.airdrop(&bob, 5_000);
    assert_eq!(l.create(&Create { user: alice.duplicate() }, &b"Alice".to_vec(), 0), Ok(()));
    assert_eq!(l.deposit(&Deposit { bank: alice.duplicate(), user: bob.duplicate() }, 2_000), Ok(()));
    assert_eq!(l.bank_balance(&alice), Some(2_000));
    assert_eq!(l.user_lamports(&bob), 3_000);
}

#[test]
fn deposit_fails_when_depositor_cannot_cover_amount() {
    let alice = key(1);
    let bob = key(2);
    let mut l = Ledger::new();
    l.airdrop(&bob, 1_000);
    assert_eq!(l.create(&Create { user: alice.duplicate() }, &b"Alice".to_vec(), 0), Ok(()));
    assert_eq!(l.deposit(&Deposit { bank: alice.duplicate(), user: bob.duplicate() }, 1_001), Err(BankError::TransferFailed));
    assert_eq!(l.bank_balance(&alice), Some(0));
    assert_eq!(l.user_lamports(&bob), 1_000);
}

#[test]
fn deposit_into_missing_bank_fails() {
    let alice = key(1);
    let bob = key(2);
    let mut l = Ledger::new();
    l.airdrop(&bob, 1_000);
    assert_eq!(l.deposit(&Deposit { bank: alice.duplicate(), user: bob.duplicate() }, 100), Err(BankError::AccountNotFound));
    assert_eq!(l.user_lamports(&bob), 1_000);
}

#[test]
fn zero_deposit_succeeds_and_changes_nothing() {
    let alice = key(1);
    let bob = key(2);
    let mut l = Ledger::new();
    assert_eq!(l.create(&Create { user: alice.duplicate() }, &b"Alice".to_vec(), 0), Ok(()));
    assert_eq!(l.deposit(&Deposit { bank: alice.duplicate(), user: bob.duplicate() }, 0), Ok(()));
    assert_eq!(l.bank_balance(&alice), Some(0));
    assert_eq!(l.bank_lamports(&alice), Some(0));
    assert_eq!(l.user_lamports(&bob), 0);
}

#[test]
fn withdraw_by_non_owner_fails_and_changes_nothing() {
    let alice = key(1);
    let mallory = key(2);
    let mut l = Ledger::new();
    l.airdrop(&alice, 10_000);
    assert_eq!(l.create(&Create { user: alice.duplicate() }, &b"Alice".to_vec(), 100), Ok(()));
    assert_eq!(l.deposit(&Deposit { bank: alice.duplicate(), user: alice.duplicate() }, 5_000), Ok(()));
    assert_eq!(
        l.withdraw(&Withdraw { bank: alice.duplicate(), user: mallory.duplicate() }, 100, 1_000),
        Err(BankError::IllegalOwner)
    );
    assert_eq!(l.bank_lamports(&alice), Some(5_100));
    assert_eq!(l.bank_balance(&alice), Some(5_000));
    assert_eq!(l.user_lamports(&mallory), 0);
}

#[test]
fn withdraw_above_rent_floor_fails() {
    let alice = key(1);
    let mut l = Ledger::new();
    l.airdrop(&alice, 10_000);
    assert_eq!(l.create(&Create { user: alice.duplicate() }, &b"Alice".to_vec(), 100), Ok(()));
    assert_eq!(l.deposit(&Deposit { bank: alice.duplicate(), user: alice.duplicate() }, 5_000), Ok(()));
    // 5_100 held, 100 reserved for rent: 5_001 is one too many.
    assert_eq!(
        l.withdraw(&Withdraw { bank: alice.duplicate(), user: alice.duplicate() }, 100, 5_001),
        Err(BankError::InsufficientFunds)
    );
    assert_eq!(l.bank_lamports(&alice), Some(5_100));
    assert_eq!(l.user_lamports(&alice), 4_900);
}

#[test]
fn withdraw_exactly_to_rent_floor_succeeds() {
    let alice = key(1);
    let mut l = Ledger::new();
    l.airdrop(&alice, 10_000);
    assert_eq!(l.create(&Create { user: alice.duplicate() }, &b"Alice".to_vec(), 100), Ok(()));
    assert_eq!(l.deposit(&Deposit { bank: alice.duplicate(), user: alice.duplicate() }, 5_000), Ok(()));
    assert_eq!(l.withdraw(&Withdraw { bank: alice.duplicate(), user: alice.duplicate() }, 100, 5_000), Ok(()));
    assert_eq!(l.bank_lamports(&alice), Some(100));
    // The recorded balance is never decremented by a withdrawal.
    assert_eq!(l.bank_balance(&alice), Some(5_000));
    assert_eq!(l.user_lamports(&alice), 9_900);
}

#[test]
fn withdraw_when_account_holds_less_than_rent_fails() {
    let alice = key(1);
    let mut l = Ledger::new();
    assert_eq!(l.create(&Create { user: alice.duplicate() }, &b"Alice".to_vec(), 0), Ok(()));
    // The host now reports a higher rent minimum than the account holds.
    assert_eq!(
        l.withdraw(&Withdraw { bank: alice.duplicate(), user: alice.duplicate() }, 10, 0),
        Err(BankError::InsufficientFunds)
    );
}

#[test]
fn withdraw_from_missing_bank_fails() {
    let alice = key(1);
    let mut l = Ledger::new();
    assert_eq!(l.withdraw(&Withdraw { bank: alice.duplicate(), user: alice.duplicate() }, 0, 1), Err(BankError::AccountNotFound));
}

#[test]
fn balance_counter_overflow_aborts_deposit() {
    let alice = key(1);
    let mut l = Ledger::new();
    l.airdrop(&alice, u64::MAX);
    assert_eq!(l.create(&Create { user: alice.duplicate() }, &b"Alice".to_vec(), 0), Ok(()));
    assert_eq!(l.deposit(&Deposit { bank: alice.duplicate(), user: alice.duplicate() }, u64::MAX), Ok(()));
    assert_eq!(l.bank_balance(&alice), Some(u64::MAX));
    // Pull the lamports back out; the recorded balance stays at the top.
    assert_eq!(l.withdraw(&Withdraw { bank: alice.duplicate(), user: alice.duplicate() }, 0, u64::MAX), Ok(()));
    assert_eq!(l.user_lamports(&alice), u64::MAX);
    assert_eq!(
        l.deposit(&Deposit { bank: alice.duplicate(), user: alice.duplicate() }, 1),
        Err(BankError::BalanceOverflow)
    );
    assert_eq!(l.bank_balance(&alice), Some(u64::MAX));
    assert_eq!(l.bank_lamports(&alice), Some(0));
}

#[test]
fn alice_session() {
    let alice = key(1);
    let rent: u64 = 890_880;
    let mut l = Ledger::new();
    l.airdrop(&alice, 10_000_000);
    assert_eq!(l.create(&Create { user: alice.duplicate() }, &b"Alice".to_vec(), rent), Ok(()));
    assert_eq!(l.deposit(&Deposit { bank: alice.duplicate(), user: alice.duplicate() }, 1_000_000), Ok(()));
    assert_eq!(l.withdraw(&Withdraw { bank: alice.duplicate(), user: alice.duplicate() }, rent, 500_000), Ok(()));
    assert_eq!(l.bank_lamports(&alice), Some(rent + 1_000_000 - 500_000));
    assert_eq!(l.bank_balance(&alice), Some(1_000_000));
    assert_eq!(l.user_lamports(&alice), 10_000_000 - rent - 1_000_000 + 500_000);
}
