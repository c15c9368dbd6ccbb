use vstd::prelude::*;
use crate::fund_module::{insert_sorted_unique, strictly_increasing, lemma_push_contains};

verus! {

/// Most users that one operation may report as affected.
pub const MAX_AFFECTED_USERS: usize = 10000;

/// Sorts the ids and removes repetitions.
pub fn affected_users_sort_dedup(affected_users: &mut Vec<usize>)
    ensures
        strictly_increasing(final(affected_users)@),
        forall|x: usize| final(affected_users)@.contains(x) <==> old(affected_users)@.contains(x),
{
    let mut result: Vec<usize> = Vec::new();
    let mut i: usize = 0;
    while i < affected_users.len()
        invariant
            i <= affected_users@.len(),
            affected_users@ == old(affected_users)@,
            strictly_increasing(result@),
            forall|x: usize| result@.contains(x) <==> affected_users@.take(i as int).contains(x),
        decreases affected_users@.len() - i,
    {
        let x = affected_users[i];
        insert_sorted_unique(&mut result, x);
        proof {
            assert(affected_users@.take(i + 1) =~= affected_users@.take(i as int).push(x));
            lemma_push_contains(affected_users@.take(i as int), x);
        }
        i = i + 1;
    }
    proof {
        assert(affected_users@.take(affected_users@.len() as int) =~= affected_users@);
    }
    *affected_users = result;
}

} // verus!
