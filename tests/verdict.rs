use token_buy_lock::entry::verify_transaction;
use token_buy_lock::error::Error;
use token_buy_lock::requirement::aggregate_requirements;
use token_buy_lock::tx::{OutputCell, Transaction};

const ESCROW_LOCK: [u8; 32] = [0x40; 32];
const OWNER_A: [u8; 32] = [0xA1; 32];
const OWNER_B: [u8; 32] = [0xB2; 32];
const SELLER: [u8; 32] = [0x20; 32];
const TOKEN: [u8; 32] = [0x30; 32];
const OTHER_TOKEN: [u8; 32] = [0x31; 32];

fn escrow_data(owner: [u8; 32], amount: u128) -> Vec<u8> {
    let mut data = owner.to_vec();
    data.extend(amount.to_le_bytes().to_vec());
    data
}

fn token_output(lock: [u8; 32], token: [u8; 32], amount: u128) -> OutputCell {
    OutputCell { lock_hash: lock, type_hash: Some(token), data: amount.to_le_bytes().to_vec() }
}

fn purchase(group: Vec<Vec<u8>>, outputs: Vec<OutputCell>) -> Transaction {
    let mut input_lock_hashes = vec![ESCROW_LOCK; group.len()];
    input_lock_hashes.push(SELLER);
    Transaction { args: TOKEN.to_vec(), group_data: group, input_lock_hashes, outputs }
}

#[test]
fn args_of_wrong_length_are_rejected_first() {
    for len in [0usize, 16, 31, 33, 64] {
        let mut tx = purchase(vec![vec![1, 2, 3]], Vec::new());
        tx.args = vec![0x30; len];
        assert_eq!(verify_transaction(&tx), Err(Error::ArgsLength));
    }
}

#[test]
fn signing_owners_withdraw_whatever_the_outputs() {
    let mut short = token_output(OWNER_A, TOKEN, 0);
    short.data = vec![1];
    let mut tx = purchase(vec![escrow_data(OWNER_A, 100), escrow_data(OWNER_B, 50)], vec![short]);
    tx.input_lock_hashes.push(OWNER_B);
    tx.input_lock_hashes.push(OWNER_A);
    assert_eq!(verify_transaction(&tx), Ok(()));
    tx.outputs = Vec::new();
    assert_eq!(verify_transaction(&tx), Ok(()));
}

#[test]
fn short_record_fails_even_when_owner_signs() {
    let mut tx = purchase(vec![escrow_data(OWNER_A, 100), vec![0u8; 40]], Vec::new());
    tx.input_lock_hashes.push(OWNER_A);
    assert_eq!(verify_transaction(&tx), Err(Error::DataLength));
}

#[test]
fn empty_group_is_accepted() {
    let tx = purchase(Vec::new(), Vec::new());
    assert_eq!(verify_transaction(&tx), Ok(()));
}

#[test]
fn payment_summed_over_cells_meets_summed_requirement() {
    let group = vec![escrow_data(OWNER_A, 70), escrow_data(OWNER_A, 30)];
    let paid = vec![token_output(OWNER_A, TOKEN, 50), token_output(OWNER_A, TOKEN, 50)];
    assert_eq!(verify_transaction(&purchase(group.clone(), paid)), Ok(()));
    let short = vec![token_output(OWNER_A, TOKEN, 50), token_output(OWNER_A, TOKEN, 49)];
    assert_eq!(verify_transaction(&purchase(group, short)), Err(Error::Amount));
}

#[test]
fn amounts_beyond_u128_are_compared_exactly() {
    let group = vec![escrow_data(OWNER_A, u128::MAX), escrow_data(OWNER_A, 1)];
    let paid = vec![token_output(OWNER_A, TOKEN, u128::MAX), token_output(OWNER_A, TOKEN, 1)];
    assert_eq!(verify_transaction(&purchase(group.clone(), paid)), Ok(()));
    let short = vec![token_output(OWNER_A, TOKEN, u128::MAX), token_output(OWNER_A, TOKEN, 0)];
    assert_eq!(verify_transaction(&purchase(group, short)), Err(Error::Amount));
}

#[test]
fn unreadable_payment_is_encoding() {
    let mut short = token_output(OWNER_A, TOKEN, 0);
    short.data = vec![0u8; 15];
    let tx = purchase(vec![escrow_data(OWNER_A, 1)], vec![token_output(OWNER_A, TOKEN, 5), short]);
    assert_eq!(verify_transaction(&tx), Err(Error::Encoding));
}

#[test]
fn order_of_escrow_cells_does_not_matter() {
    let cells = vec![escrow_data(OWNER_A, 40), escrow_data(OWNER_B, 100), escrow_data(OWNER_A, 60)];
    let mut reversed = cells.clone();
    reversed.reverse();
    let outputs = vec![token_output(OWNER_A, TOKEN, 100), token_output(OWNER_B, TOKEN, 99)];

    let forward = aggregate_requirements(&cells).unwrap();
    let backward = aggregate_requirements(&reversed).unwrap();
    for entry in forward.entries.iter() {
        let other = backward.entries.iter().find(|e| e.owner == entry.owner).unwrap();
        assert_eq!(other.total, entry.total);
    }
    assert_eq!(forward.entries.len(), backward.entries.len());

    let a = verify_transaction(&purchase(cells, outputs.clone()));
    let b = verify_transaction(&purchase(reversed, outputs));
    assert_eq!(a, Err(Error::Amount));
    assert_eq!(a, b);
}

#[test]
fn unrelated_outputs_never_pay() {
    let group = vec![escrow_data(OWNER_A, 100)];
    let wrong_token = token_output(OWNER_A, OTHER_TOKEN, 1_000);
    let wrong_owner = token_output(SELLER, TOKEN, 1_000);
    let mut untyped = token_output(OWNER_A, TOKEN, 1_000);
    untyped.type_hash = None;
    let unpaid = vec![token_output(OWNER_A, TOKEN, 99)];
    let mut padded = unpaid.clone();
    padded.insert(0, wrong_token.clone());
    padded.push(wrong_owner);
    padded.push(untyped);
    assert_eq!(verify_transaction(&purchase(group.clone(), unpaid)), Err(Error::Amount));
    assert_eq!(verify_transaction(&purchase(group.clone(), padded)), Err(Error::Amount));

    let paid = vec![token_output(OWNER_A, TOKEN, 100), wrong_token];
    assert_eq!(verify_transaction(&purchase(group, paid)), Ok(()));
}

#[test]
fn exact_payment_is_accepted() {
    let outputs = vec![token_output(OWNER_A, TOKEN, 100), token_output(SELLER, TOKEN, 8_900)];
    assert_eq!(verify_transaction(&purchase(vec![escrow_data(OWNER_A, 100)], outputs)), Ok(()));
}

#[test]
fn overpayment_is_accepted() {
    let outputs = vec![token_output(OWNER_A, TOKEN, 1_000), token_output(SELLER, TOKEN, 8_000)];
    assert_eq!(verify_transaction(&purchase(vec![escrow_data(OWNER_A, 100)], outputs)), Ok(()));
}

#[test]
fn underpayment_is_amount() {
    let outputs = vec![token_output(OWNER_A, TOKEN, 99), token_output(SELLER, TOKEN, 8_901)];
    assert_eq!(verify_transaction(&purchase(vec![escrow_data(OWNER_A, 100)], outputs)), Err(Error::Amount));
}

#[test]
fn two_owners_each_paid() {
    let group = vec![escrow_data(OWNER_A, 100), escrow_data(OWNER_B, 100)];
    let both = vec![token_output(OWNER_A, TOKEN, 100), token_output(OWNER_B, TOKEN, 100)];
    assert_eq!(verify_transaction(&purchase(group.clone(), both)), Ok(()));
    let a_short = vec![token_output(OWNER_A, TOKEN, 99), token_output(OWNER_B, TOKEN, 100)];
    assert_eq!(verify_transaction(&purchase(group.clone(), a_short)), Err(Error::Amount));
    let b_short = vec![token_output(OWNER_A, TOKEN, 100), token_output(OWNER_B, TOKEN, 99)];
    assert_eq!(verify_transaction(&purchase(group, b_short)), Err(Error::Amount));
}

#[test]
fn owner_cosigns_without_token_outputs() {
    let mut tx = purchase(vec![escrow_data(OWNER_A, 100)], Vec::new());
    tx.input_lock_hashes.push(OWNER_A);
    assert_eq!(verify_transaction(&tx), Ok(()));
}
