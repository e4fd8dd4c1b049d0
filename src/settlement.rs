//! Settlement: each owner is paid, in outputs of the expected token, at least
//! what the escrow cells promise that owner.
use vstd::prelude::*;

use crate::amount::TokenSum;
use crate::codec::{load_token_balance, same_bytes, token_balance, AMOUNT_LEN};
use crate::error::Error;
use crate::requirement::RequirementMap;
use crate::tx::{output_views, OutputCell, OutputView};

verus! {

/// The output is a cell of token `token` locked by `owner`.
pub open spec fn pays(out: OutputView, token: Seq<u8>, owner: Seq<u8>) -> bool {
    out.type_hash == Some(token) && out.lock == owner
}

/// The token balance that `outs` deliver to `owner`.
pub open spec fn delivered_total(outs: Seq<OutputView>, token: Seq<u8>, owner: Seq<u8>) -> nat
    decreases outs.len(),
{
    if outs.len() == 0 {
        0
    } else {
        delivered_total(outs.drop_last(), token, owner) + if pays(outs.last(), token, owner) {
            token_balance(outs.last().data)
        } else {
            0
        }
    }
}

/// Some output that pays `owner` in `token` is too short to hold a balance.
pub open spec fn delivery_malformed(outs: Seq<OutputView>, token: Seq<u8>, owner: Seq<u8>) -> bool {
    exists|j: int|
        0 <= j < outs.len() && pays(#[trigger] outs[j], token, owner) && outs[j].data.len() < AMOUNT_LEN
}

/// The outcome of settling the requirements `req` against `outs`: an output
/// that pays some owner but cannot be read fails with `Encoding`; otherwise
/// an owner paid less than owed fails with `Amount`.
pub open spec fn settlement_verdict(
    req: Map<Seq<u8>, nat>,
    outs: Seq<OutputView>,
    token: Seq<u8>,
) -> Result<(), Error> {
    if exists|o: Seq<u8>| req.dom().contains(o) && #[trigger] delivery_malformed(outs, token, o) {
        Err(Error::Encoding)
    } else if exists|o: Seq<u8>|
        req.dom().contains(o) && #[trigger] delivered_total(outs, token, o) < req[o] {
        Err(Error::Amount)
    } else {
        Ok(())
    }
}

/// Whether `out` is a cell of token `token` locked by `owner`.
fn output_pays(out: &OutputCell, token: &[u8], owner: &[u8]) -> (r: bool)
    ensures
        r == pays(out@, token@, owner@),
{
    match &out.type_hash {
        Some(h) => same_bytes(h.as_slice(), token) && same_bytes(out.lock_hash.as_slice(), owner),
        None => false,
    }
}

/// Sums the balances of the outputs of token `type_hash` locked by
/// `lock_hash`; an unreadable one fails with `Encoding`.
pub fn determine_token_amount(outputs: &Vec<OutputCell>, lock_hash: &[u8], type_hash: &[u8]) -> (r: Result<TokenSum, Error>)
    ensures
        match r {
            Ok(s) => {
                &&& !delivery_malformed(output_views(outputs@), type_hash@, lock_hash@)
                &&& s.value() == delivered_total(output_views(outputs@), type_hash@, lock_hash@)
            },
            Err(e) => delivery_malformed(output_views(outputs@), type_hash@, lock_hash@) && e
                == Error::Encoding,
        },
{
    let ghost outs = output_views(outputs@);
    let n = outputs.len();
    let mut total = TokenSum::zero();
    let mut i: usize = 0;
    while i < n
        invariant
            n == outputs@.len(),
            outs == output_views(outputs@),
            i <= n,
            total.hi <= i,
            total.value() == delivered_total(outs.take(i as int), type_hash@, lock_hash@),
            forall|j: int|
                0 <= j < i ==> !(pays(#[trigger] outs[j], type_hash@, lock_hash@) && outs[j].data.len()
                    < AMOUNT_LEN),
        decreases n - i,
    {
        let ghost next = outs.take(i + 1);
        proof {
            assert(next.drop_last() =~= outs.take(i as int));
            assert(next.last() == outs[i as int]);
        }
        if output_pays(&outputs[i], type_hash, lock_hash) {
            match load_token_balance(outputs[i].data.as_slice()) {
                Ok(v) => {
                    total.add(v);
                },
                Err(e) => {
                    assert(outs[i as int].data.len() < AMOUNT_LEN);
                    return Err(e);
                },
            }
        }
        i = i + 1;
    }
    assert(outs.take(n as int) =~= outs);
    Ok(total)
}

/// Checks every owner in `req` against what `outputs` deliver in token
/// `token`.
pub fn verify_settlement(req: &RequirementMap, outputs: &Vec<OutputCell>, token: &[u8]) -> (r: Result<(), Error>)
    requires
        req.wf(),
    ensures
        r == settlement_verdict(req@, output_views(outputs@), token@),
{
    let ghost outs = output_views(outputs@);
    let n = req.entries.len();
    let mut short = false;
    let mut k: usize = 0;
    while k < n
        invariant
            n == req.entries@.len(),
            outs == output_views(outputs@),
            k <= n,
            forall|j: int|
                0 <= j < k ==> !delivery_malformed(outs, token@, (#[trigger] req.entries@[j]).owner@),
            short == exists|j: int|
                0 <= j < k && delivered_total(outs, token@, (#[trigger] req.entries@[j]).owner@)
                    < req.entries@[j].total.value(),
        decreases n - k,
    {
        let entry = &req.entries[k];
        match determine_token_amount(outputs, entry.owner.as_slice(), token) {
            Ok(delivered) => {
                if !delivered.covers(&entry.total) {
                    short = true;
                }
            },
            Err(e) => {
                proof {
                    let o = req.entries@[k as int].owner@;
                    assert(req@.dom().contains(o));
                }
                return Err(e);
            },
        }
        k = k + 1;
    }
    proof {
        assert forall|o: Seq<u8>| #[trigger] req@.dom().contains(o) implies req@[o]
            == req.entries@[req.index_of(o)].total.value() && !delivery_malformed(outs, token@, o) by {
            let j = req.index_of(o);
            assert(req.entries@[j].owner@ == o);
        }
        if short {
            let j = choose|j: int|
                0 <= j < n && delivered_total(outs, token@, (#[trigger] req.entries@[j]).owner@)
                    < req.entries@[j].total.value();
            let o = req.entries@[j].owner@;
            assert(req@.dom().contains(o));
            assert(req.index_of(o) == j);
        } else {
            assert forall|o: Seq<u8>| #[trigger] req@.dom().contains(o) implies !(delivered_total(
                outs,
                token@,
                o,
            ) < req@[o]) by {
                let j = req.index_of(o);
                assert(req.entries@[j].owner@ == o);
            }
        }
    }
    if short {
        Err(Error::Amount)
    } else {
        Ok(())
    }
}

} // verus!
