//! The lock's decision on a whole transaction.
use vstd::prelude::*;

use crate::codec::HASH_LEN;
use crate::error::Error;
use crate::owner::{check_owner_mode, escrow_well_formed, owner_mode};
use crate::requirement::{aggregate_requirements, requirement_map};
use crate::settlement::{settlement_verdict, verify_settlement};
use crate::tx::{Transaction, TransactionView};

verus! {

/// The verdict on `tx`, in the order the checks are made: the arguments must
/// be one hash; every escrow record must be whole; if every escrow owner signs
/// the transaction it is accepted outright; otherwise each owner must be paid
/// what the escrow cells promise, in the token that the arguments name.
pub open spec fn verdict(tx: TransactionView) -> Result<(), Error> {
    if tx.args.len() != HASH_LEN {
        Err(Error::ArgsLength)
    } else if !escrow_well_formed(tx.group) {
        Err(Error::DataLength)
    } else if owner_mode(tx.group, tx.input_locks) {
        Ok(())
    } else {
        settlement_verdict(requirement_map(tx.group), tx.outputs, tx.args)
    }
}

/// Decides whether `tx` may spend the escrow cells of the executing group.
pub fn verify_transaction(tx: &Transaction) -> (r: Result<(), Error>)
    ensures
        r == verdict(tx@),
{
    if tx.args.len() != HASH_LEN {
        return Err(Error::ArgsLength);
    }
    match check_owner_mode(&tx.group_data, &tx.input_lock_hashes) {
        Ok(true) => {
            return Ok(());
        },
        Ok(false) => {},
        Err(e) => {
            return Err(e);
        },
    }
    match aggregate_requirements(&tx.group_data) {
        Ok(req) => verify_settlement(&req, &tx.outputs, tx.args.as_slice()),
        Err(e) => Err(e),
    }
}

} // verus!
