//! Owner mode: every escrow owner co-signs the transaction.
use vstd::prelude::*;

use crate::codec::{escrow_owner, load_escrow_terms, same_bytes, ESCROW_DATA_LEN};
use crate::error::Error;
use crate::tx::{hashes, payloads};

verus! {

/// Every escrow payload holds a full record.
pub open spec fn escrow_well_formed(group: Seq<Seq<u8>>) -> bool {
    forall|i: int| 0 <= i < group.len() ==> #[trigger] group[i].len() >= ESCROW_DATA_LEN
}

/// The distinct owners named by the escrow cells.
pub open spec fn owner_set(group: Seq<Seq<u8>>) -> Set<Seq<u8>> {
    Set::new(|o: Seq<u8>| exists|i: int| 0 <= i < group.len() && escrow_owner(group[i]) == o)
}

/// Every escrow owner is the lock of some input of the transaction.
pub open spec fn owner_mode(group: Seq<Seq<u8>>, input_locks: Seq<Seq<u8>>) -> bool {
    owner_set(group).subset_of(input_locks.to_set())
}

/// Whether `hash` is among `locks`.
pub fn contains_hash(locks: &Vec<[u8; 32]>, hash: &[u8; 32]) -> (r: bool)
    ensures
        r == hashes(locks@).contains(hash@),
{
    let n = locks.len();
    let mut j: usize = 0;
    while j < n
        invariant
            n == locks@.len(),
            j <= n,
            forall|k: int| 0 <= k < j ==> locks@[k]@ != hash@,
        decreases n - j,
    {
        if same_bytes(locks[j].as_slice(), hash.as_slice()) {
            assert(hashes(locks@)[j as int] == hash@);
            return true;
        }
        j = j + 1;
    }
    assert(!hashes(locks@).contains(hash@)) by {
        if hashes(locks@).contains(hash@) {
            let k = choose|k: int| 0 <= k < n && hashes(locks@)[k] == hash@;
            assert(locks@[k]@ == hash@);
        }
    }
    false
}

/// Decides owner mode: whether every owner named by the escrow cells in
/// `group` is the lock of some input. A short escrow payload is an error even
/// where owner mode would hold.
pub fn check_owner_mode(group: &Vec<Vec<u8>>, input_locks: &Vec<[u8; 32]>) -> (r: Result<bool, Error>)
    ensures
        match r {
            Ok(b) => {
                &&& escrow_well_formed(payloads(group@))
                &&& b == owner_mode(payloads(group@), hashes(input_locks@))
            },
            Err(e) => !escrow_well_formed(payloads(group@)) && e == Error::DataLength,
        },
{
    let ghost g = payloads(group@);
    let ghost locks = hashes(input_locks@);
    let n = group.len();
    let mut all_signed = true;
    let mut i: usize = 0;
    while i < n
        invariant
            n == group@.len(),
            g == payloads(group@),
            locks == hashes(input_locks@),
            i <= n,
            forall|k: int| 0 <= k < i ==> #[trigger] g[k].len() >= ESCROW_DATA_LEN,
            all_signed == (forall|k: int| 0 <= k < i ==> locks.contains(escrow_owner(#[trigger] g[k]))),
        decreases n - i,
    {
        match load_escrow_terms(group[i].as_slice()) {
            Ok(terms) => {
                if all_signed && !contains_hash(input_locks, &terms.owner) {
                    all_signed = false;
                }
            },
            Err(e) => {
                assert(!escrow_well_formed(g)) by {
                    assert(g[i as int].len() < ESCROW_DATA_LEN);
                }
                return Err(e);
            },
        }
        i = i + 1;
    }
    assert(all_signed == owner_mode(g, locks)) by {
        if all_signed {
            assert forall|o: Seq<u8>| owner_set(g).contains(o) implies locks.to_set().contains(o) by {
                let k = choose|k: int| 0 <= k < g.len() && escrow_owner(g[k]) == o;
                assert(locks.contains(escrow_owner(g[k])));
            }
        } else {
            let k = choose|k: int| 0 <= k < n && !locks.contains(escrow_owner(#[trigger] g[k]));
            assert(owner_set(g).contains(escrow_owner(g[k])));
        }
    }
    Ok(all_signed)
}

} // verus!
