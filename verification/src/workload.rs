use vstd::prelude::*;
use std::collections::HashMap;

use crate::hosts::HostSet;
use crate::json::{JsonValue, JsonNumber, is_decimal_text, decimal_text_value, lemma_decimal_is_the_decimal_text, is_signed_decimal_text, signed_decimal_text_value, lemma_signed_decimal_is_the_text, TextError, parse_json, parsed_json, json_array, json_get, json_u64, decimal, signed_decimal, decimal_key, signed_decimal_key};
use crate::order::{Entry, entries_sorted, entry_keys, lemma_sorted_unique, sort_entries};

verus! {

broadcast use {vstd::std_specs::hash::group_hash_axioms, vstd::seq_lib::group_to_multiset_ensures};

/// The host of a request `[milli, host]`.
pub open spec fn request_host(request: JsonValue) -> String {
    match json_array(request) {
        Some(items) => match items[1] {
            JsonValue::Str(s) => s,
            _ => arbitrary(),
        },
        None => arbitrary(),
    }
}

/// The millisecond of a request `[milli, host]`.
pub open spec fn request_milli(request: JsonValue) -> u64 {
    match json_array(request) {
        Some(items) => match json_u64(items[0]) {
            Some(m) => m,
            None => arbitrary(),
        },
        None => arbitrary(),
    }
}

/// A request can be read: it is an array of at least two elements whose
/// second is a string, and whose first is a non-negative integer unless the
/// host is broken (a broken host's millisecond is never read).
pub open spec fn request_ok(request: JsonValue, broken: Set<Seq<char>>) -> bool {
    match json_array(request) {
        Some(items) => {
            &&& items.len() >= 2
            &&& items[1] is Str
            &&& (broken.contains(request_host(request)@) || json_u64(items[0]) is Some)
        },
        None => false,
    }
}

/// The request of `user` in the requests of one second, if there is one.
pub open spec fn user_request(requests: JsonValue, user: i64) -> Option<JsonValue> {
    json_get(requests, signed_decimal(user as int))
}

/// Every request that the users make in this second can be read.
pub open spec fn second_ok(requests: JsonValue, users: Seq<i64>, broken: Set<Seq<char>>) -> bool {
    forall|i: int|
        0 <= i < users.len() ==> match #[trigger] user_request(requests, users[i]) {
            Some(request) => request_ok(request, broken),
            None => true,
        }
}

/// The requests of the second `sec`, if the workload has that second.
pub open spec fn second_requests(json: JsonValue, sec: nat) -> Option<JsonValue> {
    json_get(json, decimal(sec))
}

/// Every request of the first `num_of_secs` seconds can be read.
pub open spec fn workload_ok(
    json: JsonValue,
    num_of_secs: nat,
    users: Seq<i64>,
    broken: Set<Seq<char>>,
) -> bool {
    forall|sec: nat|
        sec < num_of_secs ==> match #[trigger] second_requests(json, sec) {
            Some(requests) => second_ok(requests, users, broken),
            None => true,
        }
}

/// The visits of one second, in the order of `users`: one for each user that
/// has a request whose host is not broken.
pub open spec fn second_entries(
    requests: JsonValue,
    users: Seq<i64>,
    broken: Set<Seq<char>>,
) -> Seq<Entry>
    decreases users.len(),
{
    if users.len() == 0 {
        Seq::empty()
    } else {
        let before = second_entries(requests, users.drop_last(), broken);
        let user = users.last();
        match user_request(requests, user) {
            Some(request) => if broken.contains(request_host(request)@) {
                before
            } else {
                before.push((request_milli(request), request_host(request), user))
            },
            None => before,
        }
    }
}

/// `w` is the workload of the first `num_of_secs` seconds of `json`: it has
/// the seconds that the document has, each with its visits sorted.
pub open spec fn workload_of(
    json: JsonValue,
    num_of_secs: nat,
    users: Seq<i64>,
    broken: Set<Seq<char>>,
    w: Map<usize, Vec<Entry>>,
) -> bool {
    &&& forall|sec: usize|
        #[trigger] w.contains_key(sec) <==> (sec < num_of_secs && second_requests(json, sec as nat)
            is Some)
    &&& forall|sec: usize|
        #[trigger] w.contains_key(sec) ==> {
            &&& entries_sorted(w[sec]@)
            &&& w[sec]@.to_multiset() == second_entries(
                second_requests(json, sec as nat).unwrap(),
                users,
                broken,
            ).to_multiset()
        }
}

/// The requests of second `sec` are the document's member whose key is the
/// decimal text of `sec` itself (`sec.to_string()`).
pub proof fn lemma_second_requests_key(json: JsonValue, sec: nat, key: Seq<char>)
    requires
        is_decimal_text(key),
        decimal_text_value(key) == sec,
    ensures
        second_requests(json, sec) == json_get(json, key),
{
    lemma_decimal_is_the_decimal_text(sec, key);
}

/// The request of `user` is the member whose key is the decimal text of the
/// user itself (`user.to_string()`).
pub proof fn lemma_user_request_key(requests: JsonValue, user: i64, key: Seq<char>)
    requires
        is_signed_decimal_text(key),
        signed_decimal_text_value(key) == user,
    ensures
        user_request(requests, user) == json_get(requests, key),
{
    lemma_signed_decimal_is_the_text(user as int, key);
}

/// A request `[m, host, ..]` whose first element is any non-negative integer
/// `m` and whose second is a string can be read, whatever `m` is and whether
/// or not the host is broken; its visit is at `m`, to `host`.
pub proof fn lemma_request_readable(
    request: JsonValue,
    items: Vec<JsonValue>,
    m: u64,
    host: String,
    broken: Set<Seq<char>>,
)
    requires
        request == JsonValue::Array(items),
        items@.len() >= 2,
        items@[0] == JsonValue::Number(JsonNumber::PosInt(m)),
        items@[1] == JsonValue::Str(host),
    ensures
        request_ok(request, broken),
        request_milli(request) == m,
        request_host(request) == host,
{
}

/// A request can be read only where it is an array of at least two elements
/// whose second is a string, and whose first is a non-negative integer
/// unless the host is broken.
pub proof fn lemma_request_readable_only(request: JsonValue, broken: Set<Seq<char>>)
    requires
        request_ok(request, broken),
    ensures
        request is Array,
        request->Array_0@.len() >= 2,
        request->Array_0@[1] is Str,
        !broken.contains(request_host(request)@) ==> request->Array_0@[0] is Number
            && request->Array_0@[0]->Number_0 is PosInt,
{
}

/// The visit of a listed user whose request is `[m, host]` with a host that
/// is not broken is `(m, host, user)`.
pub proof fn lemma_user_visit(
    requests: JsonValue,
    user: i64,
    items: Vec<JsonValue>,
    m: u64,
    host: String,
    broken: Set<Seq<char>>,
)
    requires
        user_request(requests, user) == Some(JsonValue::Array(items)),
        items@.len() >= 2,
        items@[0] == JsonValue::Number(JsonNumber::PosInt(m)),
        items@[1] == JsonValue::Str(host),
        !broken.contains(host@),
    ensures
        user_visit(requests, user, broken) == seq![(m, host, user)],
{
}

/// Every listed user whose request `[m, host, ..]` has a host that is not
/// broken has the visit `(m, host, user)` among the visits of the second.
pub proof fn lemma_second_holds_visit(
    requests: JsonValue,
    users: Seq<i64>,
    broken: Set<Seq<char>>,
    user: i64,
    items: Vec<JsonValue>,
    m: u64,
    host: String,
)
    requires
        users.contains(user),
        user_request(requests, user) == Some(JsonValue::Array(items)),
        items@.len() >= 2,
        items@[0] == JsonValue::Number(JsonNumber::PosInt(m)),
        items@[1] == JsonValue::Str(host),
        !broken.contains(host@),
    ensures
        second_entries(requests, users, broken).contains((m, host, user)),
{
    let k = choose|k: int| 0 <= k < users.len() && users[k] == user;
    lemma_second_entries_remove(requests, users, broken, k);
    lemma_user_visit(requests, user, items, m, host, broken);
    let v = user_visit(requests, user, broken);
    assert(v[0] == (m, host, user));
    assert(v.to_multiset().count((m, host, user)) > 0);
    assert(second_entries(requests, users, broken).to_multiset().count((m, host, user)) > 0);
}

/// A second holds at most one visit per listed user, each of a listed user
/// and to a host that is not broken.
pub proof fn lemma_second_entries(requests: JsonValue, users: Seq<i64>, broken: Set<Seq<char>>)
    ensures
        second_entries(requests, users, broken).len() <= users.len(),
        forall|i: int|
            0 <= i < second_entries(requests, users, broken).len() ==> {
                &&& !broken.contains(#[trigger] second_entries(requests, users, broken)[i].1@)
                &&& users.contains(second_entries(requests, users, broken)[i].2)
            },
    decreases users.len(),
{
    if users.len() > 0 {
        let before = second_entries(requests, users.drop_last(), broken);
        lemma_second_entries(requests, users.drop_last(), broken);
        let all = second_entries(requests, users, broken);
        assert forall|i: int| 0 <= i < all.len() implies {
            &&& !broken.contains(#[trigger] all[i].1@)
            &&& users.contains(all[i].2)
        } by {
            if i < before.len() {
                assert(all[i] == before[i]);
                assert(!broken.contains(before[i].1@));
                assert(users.drop_last().contains(before[i].2));
                let k = choose|k: int| 0 <= k < users.drop_last().len() && users.drop_last()[k] == before[i].2;
                assert(users[k] == before[i].2);
            } else {
                assert(users[users.len() - 1] == users.last());
            }
        }
    }
}

/// The visit of `user` in a second: none, or one.
pub open spec fn user_visit(requests: JsonValue, user: i64, broken: Set<Seq<char>>) -> Seq<Entry> {
    match user_request(requests, user) {
        Some(request) => if broken.contains(request_host(request)@) {
            Seq::empty()
        } else {
            seq![(request_milli(request), request_host(request), user)]
        },
        None => Seq::empty(),
    }
}

proof fn lemma_second_entries_last(requests: JsonValue, users: Seq<i64>, broken: Set<Seq<char>>)
    requires
        users.len() > 0,
    ensures
        second_entries(requests, users, broken).to_multiset() == second_entries(
            requests,
            users.drop_last(),
            broken,
        ).to_multiset().add(user_visit(requests, users.last(), broken).to_multiset()),
{
    let before = second_entries(requests, users.drop_last(), broken);
    let v = user_visit(requests, users.last(), broken);
    assert(second_entries(requests, users, broken) =~= before + v);
    vstd::seq_lib::lemma_multiset_commutative(before, v);
}

proof fn lemma_second_entries_remove(
    requests: JsonValue,
    users: Seq<i64>,
    broken: Set<Seq<char>>,
    k: int,
)
    requires
        0 <= k < users.len(),
    ensures
        second_entries(requests, users, broken).to_multiset() == second_entries(
            requests,
            users.remove(k),
            broken,
        ).to_multiset().add(user_visit(requests, users[k], broken).to_multiset()),
    decreases users.len(),
{
    lemma_second_entries_last(requests, users, broken);
    if k == users.len() - 1 {
        assert(users.remove(k) =~= users.drop_last());
    } else {
        let rest = users.remove(k);
        assert(rest.drop_last() =~= users.drop_last().remove(k));
        assert(rest.last() == users.last());
        lemma_second_entries_remove(requests, users.drop_last(), broken, k);
        lemma_second_entries_last(requests, rest, broken);
        assert(users.drop_last()[k] == users[k]);
        let p = second_entries(requests, rest.drop_last(), broken).to_multiset();
        let u = user_visit(requests, users[k], broken).to_multiset();
        let l = user_visit(requests, users.last(), broken).to_multiset();
        assert(p.add(u).add(l) =~= p.add(l).add(u));
    }
}

/// The visits of a second do not depend on the order of the users: users
/// with the same elements give visits with the same elements.
pub proof fn lemma_second_entries_permutation(
    requests: JsonValue,
    users1: Seq<i64>,
    users2: Seq<i64>,
    broken: Set<Seq<char>>,
)
    requires
        users1.to_multiset() == users2.to_multiset(),
    ensures
        second_entries(requests, users1, broken).to_multiset() == second_entries(
            requests,
            users2,
            broken,
        ).to_multiset(),
    decreases users1.len(),
{
    assert(users1.len() == users1.to_multiset().len());
    assert(users2.len() == users2.to_multiset().len());
    if users1.len() == 0 {
        assert(users2 =~= users1);
        return;
    }
    let x = users1.last();
    assert(users1.contains(users1[users1.len() - 1]));
    assert(users1.to_multiset().count(x) > 0);
    assert(users2.contains(x));
    let k = choose|k: int| 0 <= k < users2.len() && users2[k] == x;
    assert(users1.remove(users1.len() - 1) =~= users1.drop_last());
    vstd::seq_lib::to_multiset_remove(users1, users1.len() - 1);
    vstd::seq_lib::to_multiset_remove(users2, k);
    lemma_second_entries_permutation(requests, users1.drop_last(), users2.remove(k), broken);
    lemma_second_entries_last(requests, users1, broken);
    lemma_second_entries_remove(requests, users2, broken, k);
}

/// Loading fewer seconds gives the same workload cut to those seconds: every
/// second of the smaller workload is a second of the larger with the same
/// visits in the same order, and every second of the larger below the
/// smaller limit is a second of the smaller.
pub proof fn lemma_workload_prefix(
    json: JsonValue,
    n1: nat,
    n2: nat,
    users: Seq<i64>,
    broken: Set<Seq<char>>,
    w1: Map<usize, Vec<Entry>>,
    w2: Map<usize, Vec<Entry>>,
)
    requires
        n1 <= n2,
        workload_of(json, n1, users, broken, w1),
        workload_of(json, n2, users, broken, w2),
    ensures
        forall|sec: usize| #[trigger] w1.contains_key(sec) <==> (w2.contains_key(sec) && sec < n1),
        forall|sec: usize|
            #[trigger] w1.contains_key(sec) ==> entry_keys(w1[sec]@) == entry_keys(w2[sec]@),
{
    assert forall|sec: usize| #[trigger] w1.contains_key(sec) implies entry_keys(w1[sec]@)
        == entry_keys(w2[sec]@) by {
        assert(w2.contains_key(sec));
        lemma_sorted_unique(w1[sec]@, w2[sec]@);
    }
    assert forall|sec: usize| #[trigger] w1.contains_key(sec) <==> (w2.contains_key(sec) && sec
        < n1) by {}
}

/// The workload does not depend on the order of the users: loading with the
/// users in another order gives the same seconds, each with the same visits
/// in the same order.
pub proof fn lemma_workload_user_order(
    json: JsonValue,
    num_of_secs: nat,
    users1: Seq<i64>,
    users2: Seq<i64>,
    broken: Set<Seq<char>>,
    w1: Map<usize, Vec<Entry>>,
    w2: Map<usize, Vec<Entry>>,
)
    requires
        users1.to_multiset() == users2.to_multiset(),
        workload_of(json, num_of_secs, users1, broken, w1),
        workload_of(json, num_of_secs, users2, broken, w2),
    ensures
        forall|sec: usize| #[trigger] w1.contains_key(sec) <==> w2.contains_key(sec),
        forall|sec: usize|
            #[trigger] w1.contains_key(sec) ==> entry_keys(w1[sec]@) == entry_keys(w2[sec]@),
{
    assert forall|sec: usize| #[trigger] w1.contains_key(sec) implies entry_keys(w1[sec]@)
        == entry_keys(w2[sec]@) by {
        assert(w2.contains_key(sec));
        lemma_second_entries_permutation(
            second_requests(json, sec as nat).unwrap(),
            users1,
            users2,
            broken,
        );
        lemma_sorted_unique(w1[sec]@, w2[sec]@);
    }
    assert forall|sec: usize| #[trigger] w1.contains_key(sec) <==> w2.contains_key(sec) by {}
}

/// Whether `request` can be read.
fn check_request(request: &JsonValue, broken: &HostSet) -> (r: bool)
    ensures
        r == request_ok(*request, broken@),
{
    match request.as_array() {
        Some(items) => {
            if items.len() < 2 {
                return false;
            }
            match items[1].as_str() {
                Some(host) => broken.contains(host) || items[0].as_u64().is_some(),
                None => false,
            }
        },
        None => false,
    }
}

/// Whether every request of the second can be read.
fn check_second(requests: &JsonValue, users: &Vec<i64>, broken: &HostSet) -> (r: bool)
    ensures
        r == second_ok(*requests, users@, broken@),
{
    let mut j: usize = 0;
    while j < users.len()
        invariant
            0 <= j <= users@.len(),
            forall|i: int|
                0 <= i < j ==> match #[trigger] user_request(*requests, users@[i]) {
                    Some(request) => request_ok(request, broken@),
                    None => true,
                },
        decreases users@.len() - j,
    {
        let key = signed_decimal_key(users[j]);
        match requests.get(&key) {
            Some(request) => {
                if !check_request(request, broken) {
                    assert(user_request(*requests, users@[j as int]) == Some(*request));
                    return false;
                }
            },
            None => {},
        }
        assert(user_request(*requests, users@[j as int]) == json_get(*requests, key@));
        j = j + 1;
    }
    true
}

/// Whether every request of the first `num_of_secs` seconds of the workload
/// can be read; where this is false, loading the workload fails.
pub fn rdr_workload_well_formed(
    json: &JsonValue,
    num_of_secs: usize,
    rdr_users: &Vec<i64>,
    broken: &HostSet,
) -> (r: bool)
    ensures
        r == workload_ok(*json, num_of_secs as nat, rdr_users@, broken@),
{
    let mut sec: usize = 0;
    while sec < num_of_secs
        invariant
            0 <= sec <= num_of_secs,
            forall|s: nat|
                s < sec ==> match #[trigger] second_requests(*json, s) {
                    Some(requests) => second_ok(requests, rdr_users@, broken@),
                    None => true,
                },
        decreases num_of_secs - sec,
    {
        let key = decimal_key(sec as u64);
        assert(second_requests(*json, sec as nat) == json_get(*json, key@));
        match json.get(&key) {
            Some(requests) => {
                if !check_second(requests, rdr_users, broken) {
                    return false;
                }
            },
            None => {},
        }
        sec = sec + 1;
    }
    true
}

/// The visits of one second, in the order of `users`.
fn collect_second(requests: &JsonValue, users: &Vec<i64>, broken: &HostSet) -> (r: Vec<Entry>)
    requires
        second_ok(*requests, users@, broken@),
    ensures
        r@ == second_entries(*requests, users@, broken@),
{
    let mut millis: Vec<Entry> = Vec::new();
    let mut j: usize = 0;
    assert(users@.take(0) =~= Seq::<i64>::empty());
    while j < users.len()
        invariant
            0 <= j <= users@.len(),
            second_ok(*requests, users@, broken@),
            millis@ == second_entries(*requests, users@.take(j as int), broken@),
        decreases users@.len() - j,
    {
        let user = users[j];
        let key = signed_decimal_key(user);
        let ghost prefix = users@.take(j + 1);
        assert(prefix.drop_last() =~= users@.take(j as int));
        assert(prefix.last() == user);
        assert(user_request(*requests, users@[j as int]) == json_get(*requests, key@));
        match requests.get(&key) {
            Some(request) => {
                assert(request_ok(*request, broken@));
                match request.as_array() {
                    Some(items) => {
                        match items[1].as_str() {
                            Some(host) => {
                                if !broken.contains(host) {
                                    match items[0].as_u64() {
                                        Some(milli) => {
                                            millis.push((milli, host.clone(), user));
                                        },
                                        None => {},
                                    }
                                }
                            },
                            None => {},
                        }
                    },
                    None => {},
                }
            },
            None => {},
        }
        j = j + 1;
    }
    assert(users@.take(users@.len() as int) =~= users@);
    millis
}

/// The workload of the first `num_of_secs` seconds: for each second that the
/// workload file has, the visits of the users in `rdr_users` whose hosts are
/// not broken, sorted.
pub fn rdr_build_workload(
    json: &JsonValue,
    num_of_secs: usize,
    rdr_users: &Vec<i64>,
    broken: &HostSet,
) -> (w: HashMap<usize, Vec<Entry>>)
    requires
        workload_ok(*json, num_of_secs as nat, rdr_users@, broken@),
    ensures
        workload_of(*json, num_of_secs as nat, rdr_users@, broken@, w@),
        forall|sec: usize| #[trigger] w@.contains_key(sec) ==> w@[sec]@.len() <= rdr_users@.len(),
        forall|sec: usize, e: Entry|
            #[trigger] w@.contains_key(sec) && #[trigger] w@[sec]@.contains(e) ==> {
                &&& !broken@.contains(e.1@)
                &&& rdr_users@.contains(e.2)
            },
{
    let mut workload: HashMap<usize, Vec<Entry>> = HashMap::with_capacity(rdr_users.len());
    let mut sec: usize = 0;
    while sec < num_of_secs
        invariant
            0 <= sec <= num_of_secs,
            workload_ok(*json, num_of_secs as nat, rdr_users@, broken@),
            forall|s: usize|
                #[trigger] workload@.contains_key(s) <==> (s < sec && second_requests(
                    *json,
                    s as nat,
                ) is Some),
            forall|s: usize|
                #[trigger] workload@.contains_key(s) ==> {
                    &&& entries_sorted(workload@[s]@)
                    &&& workload@[s]@.to_multiset() == second_entries(
                        second_requests(*json, s as nat).unwrap(),
                        rdr_users@,
                        broken@,
                    ).to_multiset()
                },
        decreases num_of_secs - sec,
    {
        let key = decimal_key(sec as u64);
        assert(second_requests(*json, sec as nat) == json_get(*json, key@));
        match json.get(&key) {
            Some(requests) => {
                assert(second_ok(*requests, rdr_users@, broken@));
                let mut millis = collect_second(requests, rdr_users, broken);
                sort_entries(&mut millis);
                workload.insert(sec, millis);
            },
            None => {},
        }
        sec = sec + 1;
    }
    proof {
        assert forall|s: usize, e: Entry|
            #[trigger] workload@.contains_key(s) && #[trigger] workload@[s]@.contains(e) implies {
            &&& !broken@.contains(e.1@)
            &&& rdr_users@.contains(e.2)
        } by {
            let entries = second_entries(second_requests(*json, s as nat).unwrap(), rdr_users@, broken@);
            lemma_second_entries(second_requests(*json, s as nat).unwrap(), rdr_users@, broken@);
            assert(workload@[s]@.to_multiset().count(e) > 0);
            assert(entries.to_multiset().count(e) > 0);
            assert(entries.contains(e));
            let k = choose|k: int| 0 <= k < entries.len() && entries[k] == e;
            assert(!broken@.contains(entries[k].1@));
        }
        assert forall|s: usize| #[trigger] workload@.contains_key(s) implies workload@[s]@.len()
            <= rdr_users@.len() by {
            let entries = second_entries(second_requests(*json, s as nat).unwrap(), rdr_users@, broken@);
            lemma_second_entries(second_requests(*json, s as nat).unwrap(), rdr_users@, broken@);
            assert(workload@[s]@.to_multiset().len() == entries.to_multiset().len());
        }
    }
    workload
}

/// Loads the workload from the text of the session file: parses it as JSON
/// and builds the workload of the first `num_of_secs` seconds. Fails where
/// the text is not JSON, or where a request that is read cannot be read.
pub fn load_workload_text(
    text: &[u8],
    num_of_secs: usize,
    rdr_users: &Vec<i64>,
    broken: &HostSet,
) -> (r: Result<HashMap<usize, Vec<Entry>>, TextError>)
    ensures
        match r {
            Ok(w) => {
                &&& parsed_json(text@) is Some
                &&& workload_ok(parsed_json(text@).unwrap(), num_of_secs as nat, rdr_users@, broken@)
                &&& workload_of(
                    parsed_json(text@).unwrap(),
                    num_of_secs as nat,
                    rdr_users@,
                    broken@,
                    w@,
                )
            },
            Err(TextError::NotJson) => parsed_json(text@) is None,
            Err(TextError::Unreadable) => {
                &&& parsed_json(text@) is Some
                &&& !workload_ok(parsed_json(text@).unwrap(), num_of_secs as nat, rdr_users@, broken@)
            },
        },
{
    let json = match parse_json(text) {
        Some(j) => j,
        None => return Err(TextError::NotJson),
    };
    if !rdr_workload_well_formed(&json, num_of_secs, rdr_users, broken) {
        return Err(TextError::Unreadable);
    }
    Ok(rdr_build_workload(&json, num_of_secs, rdr_users, broken))
}

} // verus!
