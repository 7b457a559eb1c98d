use vstd::prelude::*;
use std::collections::HashMap;

verus! {

broadcast use vstd::std_specs::hash::group_hash_axioms;

/// The number of users that each experiment setup runs with.
pub open spec fn setup_users(setup: nat) -> Option<usize> {
    if setup == 1 {
        Some(5)
    } else if setup == 2 {
        Some(10)
    } else if setup == 3 {
        Some(20)
    } else if setup == 4 {
        Some(40)
    } else if setup == 5 {
        Some(80)
    } else if setup == 6 {
        Some(100)
    } else {
        None
    }
}

/// Retrieves the number of users of the setup configuration `rdr_setup`;
/// nothing for a setup that does not exist.
pub fn rdr_retrieve_users(rdr_setup: usize) -> (r: Option<usize>)
    ensures
        r == setup_users(rdr_setup as nat),
{
    let mut map: HashMap<usize, usize> = HashMap::new();
    map.insert(1, 5);
    map.insert(2, 10);
    map.insert(3, 20);
    map.insert(4, 40);
    map.insert(5, 80);
    map.insert(6, 100);
    assert(map@ =~= map![1usize => 5usize, 2usize => 10usize, 3usize => 20usize, 4usize => 40usize,
        5usize => 80usize, 6usize => 100usize]);
    map.remove(&rdr_setup)
}

/// A larger setup runs with more users.
pub proof fn lemma_setup_users_increase(a: nat, b: nat)
    requires
        setup_users(a) is Some,
        setup_users(b) is Some,
        a < b,
    ensures
        setup_users(a).unwrap() < setup_users(b).unwrap(),
{
}

} // verus!
