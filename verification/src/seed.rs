use vstd::prelude::*;

use crate::json::{JsonValue, is_decimal_text, decimal_text_value, lemma_decimal_is_the_decimal_text, TextError, parse_json, parsed_json, json_array, json_get, json_i64, decimal, decimal_key};

verus! {

/// What the random seed file holds for a number of users and an iteration.
pub enum SeedLookup {
    /// The seed: the users to run with.
    Found(Vec<i64>),
    /// The file has no `rdr` member.
    NoRdrData,
    /// The `rdr` member has nothing for this number of users.
    NoUsersData,
    /// There is nothing for this iteration.
    NoIterData,
}

/// The characters of the key `rdr`.
pub open spec fn rdr_key() -> Seq<char> {
    seq!['r', 'd', 'r']
}

/// `json["rdr"]`.
pub open spec fn rdr_data(json: JsonValue) -> Option<JsonValue> {
    json_get(json, rdr_key())
}

/// `json["rdr"][num_of_users]`.
pub open spec fn users_data(json: JsonValue, num_of_users: nat) -> Option<JsonValue> {
    match rdr_data(json) {
        Some(d) => json_get(d, decimal(num_of_users)),
        None => None,
    }
}

/// `json["rdr"][num_of_users][iter]`.
pub open spec fn iter_data(json: JsonValue, num_of_users: nat, iter: nat) -> Option<JsonValue> {
    match users_data(json, num_of_users) {
        Some(d) => json_get(d, decimal(iter)),
        None => None,
    }
}

/// The seed can be read: where the entry for the iteration exists, it is an
/// array of integers that fit in an `i64`.
pub open spec fn seed_ok(json: JsonValue, num_of_users: nat, iter: nat) -> bool {
    match iter_data(json, num_of_users, iter) {
        Some(data) => match json_array(data) {
            Some(items) => forall|i: int| 0 <= i < items.len() ==> #[trigger] json_i64(items[i]) is Some,
            None => false,
        },
        None => true,
    }
}

/// The integers of an array of integers.
pub open spec fn seed_values(items: Seq<JsonValue>) -> Seq<i64> {
    items.map_values(|x: JsonValue| json_i64(x).unwrap())
}

/// The seed holds one value per element of the array, in order, each the
/// integer that element holds.
pub proof fn lemma_seed_values(items: Seq<JsonValue>)
    requires
        forall|i: int| 0 <= i < items.len() ==> #[trigger] json_i64(items[i]) is Some,
    ensures
        seed_values(items).len() == items.len(),
        forall|i: int|
            0 <= i < items.len() ==> json_i64(items[i]) == Some(#[trigger] seed_values(items)[i]),
{
}

/// The seed of `num_of_users` and `iter` is read at the members whose keys
/// are the decimal texts of those numbers (`to_string()`).
pub proof fn lemma_seed_keys(json: JsonValue, num_of_users: nat, iter: nat, k1: Seq<char>, k2: Seq<char>)
    requires
        is_decimal_text(k1),
        decimal_text_value(k1) == num_of_users,
        is_decimal_text(k2),
        decimal_text_value(k2) == iter,
    ensures
        users_data(json, num_of_users) == match json_get(json, seq!['r', 'd', 'r']) {
            Some(d) => json_get(d, k1),
            None => None,
        },
        iter_data(json, num_of_users, iter) == match users_data(json, num_of_users) {
            Some(d) => json_get(d, k2),
            None => None,
        },
{
    lemma_decimal_is_the_decimal_text(num_of_users, k1);
    lemma_decimal_is_the_decimal_text(iter, k2);
}

fn rdr_key_chars() -> (r: Vec<char>)
    ensures
        r@ == rdr_key(),
{
    let r = vec!['r', 'd', 'r'];
    assert(r@ =~= rdr_key());
    r
}

/// Whether the seed for `num_of_users` and `iter` can be read; where this is
/// false, reading the seed fails.
pub fn rand_seed_well_formed(json: &JsonValue, num_of_users: usize, iter: usize) -> (r: bool)
    ensures
        r == seed_ok(*json, num_of_users as nat, iter as nat),
{
    let rdr = match json.get(&rdr_key_chars()) {
        Some(d) => d,
        None => return true,
    };
    let setup = match rdr.get(&decimal_key(num_of_users as u64)) {
        Some(d) => d,
        None => return true,
    };
    let data = match setup.get(&decimal_key(iter as u64)) {
        Some(d) => d,
        None => return true,
    };
    match data.as_array() {
        Some(items) => {
            let mut i: usize = 0;
            while i < items.len()
                invariant
                    iter_data(*json, num_of_users as nat, iter as nat) == Some(*data),
                    json_array(*data) == Some(items@),
                    0 <= i <= items@.len(),
                    forall|j: int| 0 <= j < i ==> #[trigger] json_i64(items@[j]) is Some,
                decreases items@.len() - i,
            {
                if items[i].as_i64().is_none() {
                    return false;
                }
                i = i + 1;
            }
            true
        },
        None => false,
    }
}

/// `r` is what the seed lookup for `num_of_users` and `iter` gives in `json`.
pub open spec fn seed_lookup_of(json: JsonValue, num_of_users: nat, iter: nat, r: SeedLookup) -> bool {
    match r {
        SeedLookup::NoRdrData => rdr_data(json) is None,
        SeedLookup::NoUsersData => rdr_data(json) is Some && users_data(json, num_of_users) is None,
        SeedLookup::NoIterData => users_data(json, num_of_users) is Some && iter_data(
            json,
            num_of_users,
            iter,
        ) is None,
        SeedLookup::Found(v) => iter_data(json, num_of_users, iter) is Some && v@ == seed_values(
            json_array(iter_data(json, num_of_users, iter).unwrap()).unwrap(),
        ),
    }
}

/// Looks up the seed `json["rdr"][num_of_users][iter]`: the users to run
/// with, or which level of the lookup found nothing.
pub fn rdr_extract_rand_seed(json: &JsonValue, num_of_users: usize, iter: usize) -> (r: SeedLookup)
    requires
        seed_ok(*json, num_of_users as nat, iter as nat),
    ensures
        match r {
            SeedLookup::NoRdrData => rdr_data(*json) is None,
            SeedLookup::NoUsersData => rdr_data(*json) is Some && users_data(
                *json,
                num_of_users as nat,
            ) is None,
            SeedLookup::NoIterData => users_data(*json, num_of_users as nat) is Some && iter_data(
                *json,
                num_of_users as nat,
                iter as nat,
            ) is None,
            SeedLookup::Found(v) => iter_data(*json, num_of_users as nat, iter as nat) is Some
                && v@ == seed_values(
                json_array(iter_data(*json, num_of_users as nat, iter as nat).unwrap()).unwrap(),
            ),
        },
{
    let rdr = match json.get(&rdr_key_chars()) {
        Some(d) => d,
        None => return SeedLookup::NoRdrData,
    };
    let setup = match rdr.get(&decimal_key(num_of_users as u64)) {
        Some(d) => d,
        None => return SeedLookup::NoUsersData,
    };
    let data = match setup.get(&decimal_key(iter as u64)) {
        Some(d) => d,
        None => return SeedLookup::NoIterData,
    };
    let mut rand_vec: Vec<i64> = Vec::new();
    match data.as_array() {
        Some(items) => {
            let mut i: usize = 0;
            while i < items.len()
                invariant
                    iter_data(*json, num_of_users as nat, iter as nat) == Some(*data),
                    json_array(*data) == Some(items@),
                    0 <= i <= items@.len(),
                    forall|j: int| 0 <= j < items@.len() ==> #[trigger] json_i64(items@[j]) is Some,
                    rand_vec@ == seed_values(items@.take(i as int)),
                decreases items@.len() - i,
            {
                match items[i].as_i64() {
                    Some(x) => rand_vec.push(x),
                    None => {},
                }
                assert(seed_values(items@.take(i + 1)) =~= seed_values(items@.take(i as int)).push(
                    json_i64(items@[i as int]).unwrap(),
                ));
                i = i + 1;
            }
            assert(items@.take(items@.len() as int) =~= items@);
        },
        None => {},
    }
    SeedLookup::Found(rand_vec)
}

/// Reads the seed from the text of the random seed file: parses it as JSON
/// and looks up `["rdr"][num_of_users][iter]`. Fails where the text is not
/// JSON, or where the entry found is not an array of integers.
pub fn read_rand_seed_text(text: &[u8], num_of_users: usize, iter: usize) -> (r: Result<
    SeedLookup,
    TextError,
>)
    ensures
        match r {
            Ok(lookup) => {
                &&& parsed_json(text@) is Some
                &&& seed_ok(parsed_json(text@).unwrap(), num_of_users as nat, iter as nat)
                &&& seed_lookup_of(parsed_json(text@).unwrap(), num_of_users as nat, iter as nat, lookup)
            },
            Err(TextError::NotJson) => parsed_json(text@) is None,
            Err(TextError::Unreadable) => {
                &&& parsed_json(text@) is Some
                &&& !seed_ok(parsed_json(text@).unwrap(), num_of_users as nat, iter as nat)
            },
        },
{
    let json = match parse_json(text) {
        Some(j) => j,
        None => return Err(TextError::NotJson),
    };
    if !rand_seed_well_formed(&json, num_of_users, iter) {
        return Err(TextError::Unreadable);
    }
    Ok(rdr_extract_rand_seed(&json, num_of_users, iter))
}

} // verus!
