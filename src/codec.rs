//! Reading the fixed binary records carried in cell payloads.
use vstd::prelude::*;

use crate::error::Error;

verus! {

/// Bytes in a script hash.
pub const HASH_LEN: usize = 32;

/// Bytes in a little-endian token amount.
pub const AMOUNT_LEN: usize = 16;

/// Bytes in an escrow record: the owner's lock hash, then the amount owed.
pub const ESCROW_DATA_LEN: usize = 48;

/// The unsigned number whose little-endian bytes are `bytes`.
pub open spec fn le_value(bytes: Seq<u8>) -> nat
    decreases bytes.len(),
{
    if bytes.len() == 0 {
        0
    } else {
        bytes[0] as nat + 256 * le_value(bytes.drop_first())
    }
}

/// `256` raised to `n`.
pub open spec fn byte_base(n: nat) -> nat
    decreases n,
{
    if n == 0 {
        1
    } else {
        256 * byte_base((n - 1) as nat)
    }
}

proof fn lemma_byte_base_monotone(a: nat, b: nat)
    requires
        a <= b,
    ensures
        byte_base(a) <= byte_base(b),
    decreases b,
{
    if a < b {
        lemma_byte_base_monotone(a, (b - 1) as nat);
    }
}

proof fn lemma_le_value_bound(bytes: Seq<u8>)
    ensures
        le_value(bytes) < byte_base(bytes.len()),
    decreases bytes.len(),
{
    if bytes.len() > 0 {
        let rest = bytes.drop_first();
        lemma_le_value_bound(rest);
        let r = le_value(rest);
        let b = byte_base(rest.len());
        assert(r + 1 <= b);
        assert(256 * (r + 1) <= 256 * b) by (nonlinear_arith)
            requires
                r + 1 <= b,
        ;
    }
}

/// The 16 bytes from `start` on, read as a little-endian number.
pub fn read_le_u128(data: &[u8], start: usize) -> (r: u128)
    requires
        start + AMOUNT_LEN <= data@.len(),
    ensures
        r as nat == le_value(data@.subrange(start as int, start + AMOUNT_LEN)),
{
    let len = data.len();
    assert(start + AMOUNT_LEN <= len);
    let end = start + AMOUNT_LEN;
    let mut acc: u128 = 0;
    let mut i: usize = AMOUNT_LEN;
    proof {
        assert(data@.subrange(end as int, end as int).len() == 0);
        reveal_with_fuel(byte_base, 17);
    }
    while i > 0
        invariant
            i <= AMOUNT_LEN,
            end == start + AMOUNT_LEN,
            end <= data@.len(),
            acc as nat == le_value(data@.subrange(start + i, end as int)),
            byte_base(16) == 0x1_0000_0000_0000_0000_0000_0000_0000_0000,
        decreases i,
    {
        i = i - 1;
        let b = data[start + i];
        let ghost tail = data@.subrange(start + i + 1, end as int);
        let ghost whole = data@.subrange(start + i, end as int);
        proof {
            assert(whole.drop_first() =~= tail);
            assert(whole[0] == b);
            lemma_le_value_bound(whole);
            lemma_byte_base_monotone(whole.len(), 16);
        }
        acc = acc * 256 + b as u128;
    }
    acc
}

/// The owner's lock hash at the head of an escrow record.
pub open spec fn escrow_owner(data: Seq<u8>) -> Seq<u8> {
    data.subrange(0, HASH_LEN as int)
}

/// The amount owed to the owner, right after the owner's lock hash.
pub open spec fn escrow_amount(data: Seq<u8>) -> nat {
    le_value(data.subrange(HASH_LEN as int, ESCROW_DATA_LEN as int))
}

/// The token balance at the head of a token cell's payload.
pub open spec fn token_balance(data: Seq<u8>) -> nat {
    le_value(data.subrange(0, AMOUNT_LEN as int))
}

/// What one escrow cell promises: who is to be paid, and how much.
#[derive(Debug, Clone, Copy)]
pub struct EscrowTerms {
    pub owner: [u8; 32],
    pub amount: u128,
}

/// Whether two byte strings are equal.
pub fn same_bytes(a: &[u8], b: &[u8]) -> (r: bool)
    ensures
        r == (a@ == b@),
{
    let n = a.len();
    if n != b.len() {
        return false;
    }
    let mut i: usize = 0;
    while i < n
        invariant
            n == a@.len(),
            n == b@.len(),
            i <= n,
            forall|k: int| 0 <= k < i ==> a@[k] == b@[k],
        decreases n - i,
    {
        if a[i] != b[i] {
            return false;
        }
        i = i + 1;
    }
    assert(a@ =~= b@);
    true
}

/// The amount owed by an escrow record of full length.
pub fn load_expected_token_amount(data: &[u8]) -> (r: u128)
    requires
        data@.len() >= ESCROW_DATA_LEN,
    ensures
        r as nat == escrow_amount(data@),
{
    read_le_u128(data, HASH_LEN)
}

/// Reads an escrow record; fails with `DataLength` when the payload is too short.
pub fn load_escrow_terms(data: &[u8]) -> (r: Result<EscrowTerms, Error>)
    ensures
        match r {
            Ok(t) => {
                &&& data@.len() >= ESCROW_DATA_LEN
                &&& t.owner@ == escrow_owner(data@)
                &&& t.amount as nat == escrow_amount(data@)
            },
            Err(e) => data@.len() < ESCROW_DATA_LEN && e == Error::DataLength,
        },
{
    if data.len() < ESCROW_DATA_LEN {
        return Err(Error::DataLength);
    }
    let mut owner = [0u8; 32];
    let mut i: usize = 0;
    while i < HASH_LEN
        invariant
            i <= HASH_LEN,
            data@.len() >= ESCROW_DATA_LEN,
            forall|k: int| 0 <= k < i ==> owner@[k] == data@[k],
        decreases HASH_LEN - i,
    {
        owner[i] = data[i];
        i = i + 1;
    }
    assert(owner@ =~= escrow_owner(data@));
    let amount = load_expected_token_amount(data);
    Ok(EscrowTerms { owner, amount })
}

/// Reads a token cell's balance; fails with `Encoding` when the payload is too short.
pub fn load_token_balance(data: &[u8]) -> (r: Result<u128, Error>)
    ensures
        match r {
            Ok(v) => data@.len() >= AMOUNT_LEN && v as nat == token_balance(data@),
            Err(e) => data@.len() < AMOUNT_LEN && e == Error::Encoding,
        },
{
    if data.len() < AMOUNT_LEN {
        return Err(Error::Encoding);
    }
    Ok(read_le_u128(data, 0))
}

} // verus!
