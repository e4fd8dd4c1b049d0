//! Properties of the verdict that hold for every transaction.
use vstd::prelude::*;

use crate::codec::{escrow_amount, escrow_owner, token_balance, AMOUNT_LEN, ESCROW_DATA_LEN, HASH_LEN};
use crate::entry::verdict;
use crate::error::Error;
use crate::owner::{escrow_well_formed, owner_mode, owner_set};
use crate::requirement::{required_total, requirement_map};
use crate::settlement::{delivered_total, delivery_malformed, pays, settlement_verdict};
use crate::tx::{OutputView, TransactionView};

verus! {

broadcast use vstd::seq_lib::group_seq_properties, vstd::multiset::group_multiset_axioms;

/// `tx` with its escrow group replaced by `group`.
pub open spec fn with_group(tx: TransactionView, group: Seq<Seq<u8>>) -> TransactionView {
    TransactionView { args: tx.args, group, input_locks: tx.input_locks, outputs: tx.outputs }
}

/// `tx` with its outputs replaced by `outputs`.
pub open spec fn with_outputs(tx: TransactionView, outputs: Seq<OutputView>) -> TransactionView {
    TransactionView { args: tx.args, group: tx.group, input_locks: tx.input_locks, outputs }
}

/// Arguments that are not exactly one hash long reject the transaction with
/// `ArgsLength`, whatever the cells hold.
pub proof fn lemma_args_length_rejected(tx: TransactionView)
    requires
        tx.args.len() != HASH_LEN,
    ensures
        verdict(tx) == Err::<(), Error>(Error::ArgsLength),
{
}

/// When every escrow owner is the lock of some input, a well-formed
/// transaction is accepted, and stays accepted whatever its outputs are.
pub proof fn lemma_owner_withdrawal(tx: TransactionView, outputs: Seq<OutputView>)
    requires
        tx.args.len() == HASH_LEN,
        escrow_well_formed(tx.group),
        owner_set(tx.group).subset_of(tx.input_locks.to_set()),
    ensures
        verdict(tx) == Ok::<(), Error>(()),
        verdict(with_outputs(tx, outputs)) == Ok::<(), Error>(()),
{
}

/// Outside owner mode, with every paying output readable, a well-formed
/// transaction is accepted exactly when each owner is delivered at least the
/// total of that owner's escrow cells, and is rejected with `Amount` exactly
/// when some owner is delivered less.
pub proof fn lemma_settlement_per_owner(tx: TransactionView)
    requires
        tx.args.len() == HASH_LEN,
        escrow_well_formed(tx.group),
        !owner_mode(tx.group, tx.input_locks),
        forall|o: Seq<u8>|
            owner_set(tx.group).contains(o) ==> !#[trigger] delivery_malformed(tx.outputs, tx.args, o),
    ensures
        (verdict(tx) == Ok::<(), Error>(())) <==> (forall|o: Seq<u8>|
            owner_set(tx.group).contains(o) ==> #[trigger] delivered_total(tx.outputs, tx.args, o)
                >= required_total(tx.group, o)),
        (verdict(tx) == Err::<(), Error>(Error::Amount)) <==> (exists|o: Seq<u8>|
            owner_set(tx.group).contains(o) && #[trigger] delivered_total(tx.outputs, tx.args, o)
                < required_total(tx.group, o)),
{
    let req = requirement_map(tx.group);
    assert(!exists|o: Seq<u8>| req.dom().contains(o) && #[trigger] delivery_malformed(tx.outputs, tx.args, o));
}

/// What `cell` adds to `owner`'s requirement.
pub open spec fn escrow_share(cell: Seq<u8>, owner: Seq<u8>) -> nat {
    if escrow_owner(cell) == owner {
        escrow_amount(cell)
    } else {
        0
    }
}

proof fn lemma_required_total_remove(group: Seq<Seq<u8>>, k: int, owner: Seq<u8>)
    requires
        0 <= k < group.len(),
    ensures
        required_total(group, owner) == required_total(group.remove(k), owner) + escrow_share(
            group[k],
            owner,
        ),
    decreases group.len(),
{
    if k == group.len() - 1 {
        assert(group.remove(k) =~= group.drop_last());
    } else {
        let rest = group.drop_last();
        lemma_required_total_remove(rest, k, owner);
        assert(group.remove(k).drop_last() =~= rest.remove(k));
        assert(group.remove(k).last() == group.last());
    }
}

proof fn lemma_required_total_permutation(g1: Seq<Seq<u8>>, g2: Seq<Seq<u8>>, owner: Seq<u8>)
    requires
        g1.to_multiset() == g2.to_multiset(),
    ensures
        required_total(g1, owner) == required_total(g2, owner),
    decreases g2.len(),
{
    g1.to_multiset_ensures();
    g2.to_multiset_ensures();
    if g2.len() > 0 {
        let x = g2.last();
        let rest = g2.drop_last();
        assert(rest.push(x) =~= g2);
        rest.to_multiset_ensures();
        assert(g2.to_multiset() =~= rest.to_multiset().insert(x));
        assert(g2.to_multiset().count(x) > 0);
        assert(g1.contains(x));
        let k = choose|k: int| 0 <= k < g1.len() && g1[k] == x;
        assert(g1.remove(k).to_multiset() =~= g1.to_multiset().remove(x));
        assert(rest.to_multiset() =~= rest.to_multiset().insert(x).remove(x));
        lemma_required_total_permutation(g1.remove(k), rest, owner);
        lemma_required_total_remove(g1, k, owner);
    } else {
        assert(g1.len() == 0);
    }
}

proof fn lemma_same_elements(g1: Seq<Seq<u8>>, g2: Seq<Seq<u8>>)
    requires
        g1.to_multiset() == g2.to_multiset(),
    ensures
        owner_set(g1) == owner_set(g2),
        escrow_well_formed(g1) == escrow_well_formed(g2),
{
    g1.to_multiset_ensures();
    g2.to_multiset_ensures();
    assert forall|a: Seq<Seq<u8>>, b: Seq<Seq<u8>>, o: Seq<u8>|
        a.to_multiset() == b.to_multiset() && #[trigger] owner_set(a).contains(o) implies #[trigger] owner_set(
        b,
    ).contains(o) by {
        a.to_multiset_ensures();
        b.to_multiset_ensures();
        let i = choose|i: int| 0 <= i < a.len() && escrow_owner(a[i]) == o;
        assert(a.contains(a[i]));
        assert(a.to_multiset().count(a[i]) > 0);
        assert(b.to_multiset().count(a[i]) > 0);
        assert(b.contains(a[i]));
    }
    assert(owner_set(g1) =~= owner_set(g2));
    assert forall|a: Seq<Seq<u8>>, b: Seq<Seq<u8>>|
        a.to_multiset() == b.to_multiset() && #[trigger] escrow_well_formed(a) implies #[trigger] escrow_well_formed(b) by {
        a.to_multiset_ensures();
        b.to_multiset_ensures();
        assert forall|j: int| 0 <= j < b.len() implies #[trigger] b[j].len() >= ESCROW_DATA_LEN by {
            assert(b.contains(b[j]));
            assert(b.to_multiset().count(b[j]) > 0);
            assert(a.to_multiset().count(b[j]) > 0);
            assert(a.contains(b[j]));
        }
    }
}

/// The requirement map does not depend on the order of the escrow cells.
pub proof fn lemma_requirements_order_independent(g1: Seq<Seq<u8>>, g2: Seq<Seq<u8>>)
    requires
        g1.to_multiset() == g2.to_multiset(),
    ensures
        requirement_map(g1) == requirement_map(g2),
{
    lemma_same_elements(g1, g2);
    assert forall|o: Seq<u8>| #[trigger] owner_set(g1).contains(o) implies required_total(g1, o)
        == required_total(g2, o) by {
        lemma_required_total_permutation(g1, g2, o);
    }
    assert(requirement_map(g1) =~= requirement_map(g2));
}

/// Reordering the escrow cells of a transaction does not change its verdict.
pub proof fn lemma_verdict_order_independent(tx: TransactionView, group: Seq<Seq<u8>>)
    requires
        tx.group.to_multiset() == group.to_multiset(),
    ensures
        verdict(with_group(tx, group)) == verdict(tx),
{
    lemma_same_elements(tx.group, group);
    lemma_requirements_order_independent(tx.group, group);
}

/// What `out` adds to `owner`'s delivered balance.
pub open spec fn delivery_share(out: OutputView, token: Seq<u8>, owner: Seq<u8>) -> nat {
    if pays(out, token, owner) {
        token_balance(out.data)
    } else {
        0
    }
}

proof fn lemma_delivered_total_insert(outs: Seq<OutputView>, k: int, x: OutputView, token: Seq<u8>, owner: Seq<u8>)
    requires
        0 <= k <= outs.len(),
    ensures
        delivered_total(outs.insert(k, x), token, owner) == delivered_total(outs, token, owner)
            + delivery_share(x, token, owner),
    decreases outs.len(),
{
    let ins = outs.insert(k, x);
    if k == outs.len() {
        assert(ins.drop_last() =~= outs);
    } else {
        let rest = outs.drop_last();
        lemma_delivered_total_insert(rest, k, x, token, owner);
        assert(ins.drop_last() =~= rest.insert(k, x));
        assert(ins.last() == outs.last());
    }
}

/// An output that is not of the expected token, or whose lock is no escrow
/// owner, adds nothing to any owner's delivered balance: inserting it anywhere
/// among the outputs leaves every owner's balance, and the verdict, unchanged.
pub proof fn lemma_unrelated_output_ignored(tx: TransactionView, k: int, x: OutputView)
    requires
        0 <= k <= tx.outputs.len(),
        x.type_hash != Some(tx.args) || !owner_set(tx.group).contains(x.lock),
    ensures
        forall|o: Seq<u8>|
            owner_set(tx.group).contains(o) ==> #[trigger] delivered_total(tx.outputs.insert(k, x), tx.args, o)
                == delivered_total(tx.outputs, tx.args, o),
        verdict(with_outputs(tx, tx.outputs.insert(k, x))) == verdict(tx),
{
    let outs = tx.outputs;
    let ins = outs.insert(k, x);
    assert forall|o: Seq<u8>| owner_set(tx.group).contains(o) implies {
        &&& #[trigger] delivered_total(ins, tx.args, o) == delivered_total(outs, tx.args, o)
        &&& delivery_malformed(ins, tx.args, o) == delivery_malformed(outs, tx.args, o)
    } by {
        assert(!pays(x, tx.args, o));
        lemma_delivered_total_insert(outs, k, x, tx.args, o);
        if delivery_malformed(outs, tx.args, o) {
            let j = choose|j: int|
                0 <= j < outs.len() && pays(#[trigger] outs[j], tx.args, o) && outs[j].data.len() < AMOUNT_LEN;
            if j < k {
                assert(ins[j] == outs[j]);
            } else {
                assert(ins[j + 1] == outs[j]);
            }
        }
        if delivery_malformed(ins, tx.args, o) {
            let j = choose|j: int|
                0 <= j < ins.len() && pays(#[trigger] ins[j], tx.args, o) && ins[j].data.len() < AMOUNT_LEN;
            if j < k {
                assert(ins[j] == outs[j]);
            } else {
                assert(j != k);
                assert(ins[j] == outs[j - 1]);
            }
        }
    }
    let req = requirement_map(tx.group);
    let t = tx.args;
    if exists|o: Seq<u8>| req.dom().contains(o) && #[trigger] delivery_malformed(ins, t, o) {
        let o = choose|o: Seq<u8>| req.dom().contains(o) && #[trigger] delivery_malformed(ins, t, o);
        assert(delivery_malformed(outs, t, o));
    }
    if exists|o: Seq<u8>| req.dom().contains(o) && #[trigger] delivery_malformed(outs, t, o) {
        let o = choose|o: Seq<u8>| req.dom().contains(o) && #[trigger] delivery_malformed(outs, t, o);
        assert(delivered_total(ins, t, o) == delivered_total(outs, t, o));
        assert(delivery_malformed(ins, t, o));
    }
    if exists|o: Seq<u8>| req.dom().contains(o) && #[trigger] delivered_total(ins, t, o) < req[o] {
        let o = choose|o: Seq<u8>| req.dom().contains(o) && #[trigger] delivered_total(ins, t, o) < req[o];
        assert(delivered_total(outs, t, o) < req[o]);
    }
    if exists|o: Seq<u8>| req.dom().contains(o) && #[trigger] delivered_total(outs, t, o) < req[o] {
        let o = choose|o: Seq<u8>| req.dom().contains(o) && #[trigger] delivered_total(outs, t, o) < req[o];
        assert(delivered_total(ins, t, o) < req[o]);
    }
    assert(settlement_verdict(req, ins, t) == settlement_verdict(req, outs, t));
}

} // verus!
