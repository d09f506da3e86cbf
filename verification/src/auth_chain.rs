//! The difference of the auth chains of the state sets.

use vstd::prelude::*;
use crate::assoc::{Key, VecSet};

verus! {

/// A set of event ids.
pub type EventIdSet = VecSet<String>;

/// Whether some chain holds the id.
pub open spec fn in_some_chain(chains: Seq<Set<Seq<char>>>, id: Seq<char>) -> bool {
    exists|i: int| 0 <= i < chains.len() && (#[trigger] chains[i]).contains(id)
}

/// Whether every chain holds the id.
pub open spec fn in_every_chain(chains: Seq<Set<Seq<char>>>, id: Seq<char>) -> bool {
    forall|i: int| 0 <= i < chains.len() ==> (#[trigger] chains[i]).contains(id)
}

/// The ids that appear in some auth chains but not in all of them.
pub open spec fn auth_chain_diff(chains: Seq<Set<Seq<char>>>) -> Set<Seq<char>> {
    Set::new(|id: Seq<char>| in_some_chain(chains, id) && !in_every_chain(chains, id))
}

fn is_in_every_chain(auth_chain_sets: &Vec<EventIdSet>, id: &String) -> (b: bool)
    ensures
        b == in_every_chain(auth_chain_sets.deep_view(), id@),
{
    let ghost chains = auth_chain_sets.deep_view();
    let mut i: usize = 0;
    while i < auth_chain_sets.len()
        invariant
            i <= auth_chain_sets@.len(),
            chains == auth_chain_sets.deep_view(),
            forall|t: int| 0 <= t < i ==> (#[trigger] chains[t]).contains(id@),
        decreases auth_chain_sets@.len() - i,
    {
        assert(chains[i as int] == auth_chain_sets@[i as int]@);
        if !auth_chain_sets[i].contains(id) {
            return false;
        }
        i += 1;
    }
    true
}

/// Returns the set of event ids that appear in some chains but not others.
pub fn get_auth_chain_diff(auth_chain_sets: &Vec<EventIdSet>) -> (r: EventIdSet)
    ensures
        r@ == auth_chain_diff(auth_chain_sets.deep_view()),
{
    let ghost chains = auth_chain_sets.deep_view();
    let mut diff: EventIdSet = VecSet::new();
    let mut i: usize = 0;
    while i < auth_chain_sets.len()
        invariant
            i <= auth_chain_sets@.len(),
            chains == auth_chain_sets.deep_view(),
            diff@.subset_of(auth_chain_diff(chains)),
            forall|t: int, id: Seq<char>|
                0 <= t < i && (#[trigger] chains[t]).contains(id) && !in_every_chain(chains, id)
                    ==> #[trigger] diff@.contains(id),
        decreases auth_chain_sets@.len() - i,
    {
        let chain = &auth_chain_sets[i];
        let n = chain.len();
        assert(chains[i as int] == chain@);
        let mut j: usize = 0;
        while j < n
            invariant
                j <= n,
                i < auth_chain_sets@.len(),
                n == chain.elements().len(),
                chains == auth_chain_sets.deep_view(),
                chains[i as int] == chain@,
                diff@.subset_of(auth_chain_diff(chains)),
                forall|t: int, id: Seq<char>|
                    0 <= t < i && (#[trigger] chains[t]).contains(id) && !in_every_chain(
                        chains,
                        id,
                    ) ==> #[trigger] diff@.contains(id),
                forall|t: int|
                    0 <= t < j && !in_every_chain(chains, #[trigger] chain.elements()[t])
                        ==> diff@.contains(chain.elements()[t]),
            decreases n - j,
        {
            let id = chain.get(j);
            if !is_in_every_chain(auth_chain_sets, id) {
                proof {
                    assert(chain@.contains(chain.elements()[j as int]));
                    assert(in_some_chain(chains, id@));
                }
                diff.insert(id.key_clone());
            }
            j += 1;
        }
        proof {
            assert forall|id: Seq<char>|
                (#[trigger] chains[i as int]).contains(id) && !in_every_chain(
                    chains,
                    id,
                ) implies #[trigger] diff@.contains(id) by {
                let t = choose|t: int| 0 <= t < n && chain.elements()[t] == id;
                assert(diff@.contains(chain.elements()[t]));
            }
        }
        i += 1;
    }
    proof {
        assert forall|id: Seq<char>| auth_chain_diff(chains).contains(id) implies diff@.contains(
            id,
        ) by {
            let t = choose|t: int| 0 <= t < chains.len() && (#[trigger] chains[t]).contains(id);
            assert(chains[t].contains(id));
        }
        assert(diff@ =~= auth_chain_diff(chains));
    }
    diff
}

} // verus!
