//! The requirement map: what each escrow owner is owed in total.
use vstd::prelude::*;

use crate::amount::TokenSum;
use crate::codec::{escrow_amount, escrow_owner, load_escrow_terms, same_bytes, ESCROW_DATA_LEN};
use crate::error::Error;
use crate::owner::{escrow_well_formed, owner_set};
use crate::tx::payloads;

verus! {

/// What `owner` is owed over all escrow records in `group`.
pub open spec fn required_total(group: Seq<Seq<u8>>, owner: Seq<u8>) -> nat
    decreases group.len(),
{
    if group.len() == 0 {
        0
    } else {
        required_total(group.drop_last(), owner) + if escrow_owner(group.last()) == owner {
            escrow_amount(group.last())
        } else {
            0
        }
    }
}

/// Each owner named in `group`, mapped to what that owner is owed in total.
pub open spec fn requirement_map(group: Seq<Seq<u8>>) -> Map<Seq<u8>, nat> {
    Map::new(|o: Seq<u8>| owner_set(group).contains(o), |o: Seq<u8>| required_total(group, o))
}

proof fn lemma_required_total_absent(group: Seq<Seq<u8>>, owner: Seq<u8>)
    requires
        forall|j: int| 0 <= j < group.len() ==> escrow_owner(#[trigger] group[j]) != owner,
    ensures
        required_total(group, owner) == 0,
    decreases group.len(),
{
    if group.len() > 0 {
        let rest = group.drop_last();
        assert forall|j: int| 0 <= j < rest.len() implies escrow_owner(#[trigger] rest[j]) != owner by {
            assert(rest[j] == group[j]);
        }
        lemma_required_total_absent(rest, owner);
    }
}

/// One owner and the total the owner is owed.
#[derive(Debug, Clone, Copy)]
pub struct Requirement {
    pub owner: [u8; 32],
    pub total: TokenSum,
}

/// Owners with what each is owed, in the order in which they were first seen.
#[derive(Debug)]
pub struct RequirementMap {
    pub entries: Vec<Requirement>,
}

impl RequirementMap {
    /// No owner appears twice.
    pub open spec fn wf(&self) -> bool {
        forall|a: int, b: int|
            0 <= a < self.entries@.len() && 0 <= b < self.entries@.len() && a != b
                ==> (#[trigger] self.entries@[a]).owner@ != (#[trigger] self.entries@[b]).owner@
    }

    /// Whether `o` has an entry.
    pub open spec fn has_owner(&self, o: Seq<u8>) -> bool {
        exists|k: int| 0 <= k < self.entries@.len() && (#[trigger] self.entries@[k]).owner@ == o
    }

    /// The position of `o`'s entry.
    pub open spec fn index_of(&self, o: Seq<u8>) -> int {
        choose|k: int| 0 <= k < self.entries@.len() && (#[trigger] self.entries@[k]).owner@ == o
    }
}

impl View for RequirementMap {
    type V = Map<Seq<u8>, nat>;

    open spec fn view(&self) -> Map<Seq<u8>, nat> {
        Map::new(
            |o: Seq<u8>| self.has_owner(o),
            |o: Seq<u8>| self.entries@[self.index_of(o)].total.value(),
        )
    }
}

/// The position of `owner`'s entry, if it has one.
fn find_owner(entries: &Vec<Requirement>, owner: &[u8; 32]) -> (r: Option<usize>)
    ensures
        match r {
            Some(k) => k < entries@.len() && entries@[k as int].owner@ == owner@,
            None => forall|k: int| 0 <= k < entries@.len() ==> (#[trigger] entries@[k]).owner@ != owner@,
        },
{
    let n = entries.len();
    let mut k: usize = 0;
    while k < n
        invariant
            n == entries@.len(),
            k <= n,
            forall|j: int| 0 <= j < k ==> (#[trigger] entries@[j]).owner@ != owner@,
        decreases n - k,
    {
        if same_bytes(entries[k].owner.as_slice(), owner.as_slice()) {
            return Some(k);
        }
        k = k + 1;
    }
    None
}

/// Sums, per owner, what the escrow cells in `group` promise. A short escrow
/// payload aborts with `DataLength`.
pub fn aggregate_requirements(group: &Vec<Vec<u8>>) -> (r: Result<RequirementMap, Error>)
    ensures
        match r {
            Ok(m) => {
                &&& escrow_well_formed(payloads(group@))
                &&& m.wf()
                &&& m@ == requirement_map(payloads(group@))
            },
            Err(e) => !escrow_well_formed(payloads(group@)) && e == Error::DataLength,
        },
{
    let ghost g = payloads(group@);
    let n = group.len();
    let mut entries: Vec<Requirement> = Vec::new();
    let mut i: usize = 0;
    while i < n
        invariant
            n == group@.len(),
            g == payloads(group@),
            i <= n,
            forall|k: int| 0 <= k < i ==> #[trigger] g[k].len() >= ESCROW_DATA_LEN,
            (RequirementMap { entries }).wf(),
            forall|k: int|
                0 <= k < entries@.len() ==> {
                    &&& (#[trigger] entries@[k]).total.hi <= i
                    &&& entries@[k].total.value() == required_total(g.take(i as int), entries@[k].owner@)
                    &&& owner_set(g.take(i as int)).contains(entries@[k].owner@)
                },
            forall|j: int|
                0 <= j < i ==> (RequirementMap { entries }).has_owner(escrow_owner(#[trigger] g[j])),
        decreases n - i,
    {
        let terms = match load_escrow_terms(group[i].as_slice()) {
            Ok(t) => t,
            Err(e) => {
                assert(g[i as int].len() < ESCROW_DATA_LEN);
                return Err(e);
            },
        };
        let ghost before = entries@;
        let ghost prefix = g.take(i as int);
        let ghost next = g.take(i + 1);
        proof {
            assert(next.drop_last() =~= prefix);
            assert(next.last() == g[i as int]);
            assert forall|o: Seq<u8>| #[trigger] owner_set(prefix).contains(o) implies owner_set(next).contains(o) by {
                let j = choose|j: int| 0 <= j < prefix.len() && escrow_owner(prefix[j]) == o;
                assert(next[j] == prefix[j]);
            }
            assert(owner_set(next).contains(terms.owner@)) by {
                assert(escrow_owner(next[i as int]) == terms.owner@);
            }
        }
        let ghost mut idx: int = 0;
        match find_owner(&entries, &terms.owner) {
            Some(k) => {
                let mut e = entries[k];
                e.total.add(terms.amount);
                entries.set(k, e);
                proof {
                    idx = k as int;
                }
            },
            None => {
                proof {
                    assert forall|j: int| 0 <= j < prefix.len() implies escrow_owner(#[trigger] prefix[j])
                        != terms.owner@ by {
                        assert(prefix[j] == g[j]);
                        let k = choose|k: int|
                            0 <= k < before.len() && (#[trigger] before[k]).owner@ == escrow_owner(g[j]);
                    }
                    lemma_required_total_absent(prefix, terms.owner@);
                    idx = before.len() as int;
                }
                let mut total = TokenSum::zero();
                total.add(terms.amount);
                entries.push(Requirement { owner: terms.owner, total });
            },
        }
        proof {
            assert(0 <= idx < entries@.len());
            assert(entries@[idx].owner@ == terms.owner@);
            assert forall|k: int| 0 <= k < entries@.len() implies {
                &&& (#[trigger] entries@[k]).total.hi <= i + 1
                &&& entries@[k].total.value() == required_total(next, entries@[k].owner@)
                &&& owner_set(next).contains(entries@[k].owner@)
            } by {
                if k != idx {
                    assert(entries@[k] == before[k]);
                    assert(before[k].owner@ != terms.owner@);
                }
            }
            let ghost m = RequirementMap { entries };
            assert forall|j: int| 0 <= j < i + 1 implies m.has_owner(escrow_owner(#[trigger] g[j])) by {
                if j < i {
                    let k = choose|k: int|
                        0 <= k < before.len() && (#[trigger] before[k]).owner@ == escrow_owner(g[j]);
                    if k != idx {
                        assert(entries@[k] == before[k]);
                        assert(m.entries@[k].owner@ == escrow_owner(g[j]));
                    } else {
                        assert(m.entries@[idx].owner@ == escrow_owner(g[j]));
                    }
                } else {
                    assert(m.entries@[idx].owner@ == escrow_owner(g[j]));
                }
            }
        }
        i = i + 1;
    }
    let m = RequirementMap { entries };
    proof {
        assert(g.take(n as int) =~= g);
        assert forall|o: Seq<u8>| m.has_owner(o) <==> #[trigger] owner_set(g).contains(o) by {
            if owner_set(g).contains(o) {
                let j = choose|j: int| 0 <= j < g.len() && escrow_owner(g[j]) == o;
                assert(m.has_owner(escrow_owner(g[j])));
            }
        }
        assert(m@ =~= requirement_map(g));
    }
    Ok(m)
}

} // verus!
