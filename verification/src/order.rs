use vstd::prelude::*;
use vstd::multiset::Multiset;
use vstd::utf8::encode_utf8;

verus! {

broadcast use vstd::seq_lib::group_to_multiset_ensures;

/// One scheduled visit: the millisecond within its second, the host to
/// browse and the user who browses it.
pub type Entry = (u64, String, i64);

/// Strict lexicographic order on byte strings; a proper prefix comes first.
pub open spec fn bytes_lt(a: Seq<u8>, b: Seq<u8>) -> bool
    decreases a.len(),
{
    if a.len() == 0 {
        b.len() > 0
    } else if b.len() == 0 {
        false
    } else if a[0] != b[0] {
        a[0] < b[0]
    } else {
        bytes_lt(a.drop_first(), b.drop_first())
    }
}

/// What an entry is ordered by: the millisecond, the host's UTF-8 bytes (the
/// order of `String`), then the user.
pub open spec fn entry_key(e: Entry) -> (u64, Seq<u8>, i64) {
    (e.0, encode_utf8(e.1@), e.2)
}

/// Strict lexicographic order on entry keys.
pub open spec fn key_lt(x: (u64, Seq<u8>, i64), y: (u64, Seq<u8>, i64)) -> bool {
    ||| x.0 < y.0
    ||| x.0 == y.0 && bytes_lt(x.1, y.1)
    ||| x.0 == y.0 && x.1 == y.1 && x.2 < y.2
}

/// `a` comes strictly before `b` in the order of `(u64, String, i64)`.
pub open spec fn entry_lt(a: Entry, b: Entry) -> bool {
    key_lt(entry_key(a), entry_key(b))
}

/// `a` does not come after `b`.
pub open spec fn entry_le(a: Entry, b: Entry) -> bool {
    !entry_lt(b, a)
}

/// The entries are in ascending order.
pub open spec fn entries_sorted(s: Seq<Entry>) -> bool {
    forall|i: int, j: int| 0 <= i < j < s.len() ==> entry_le(#[trigger] s[i], #[trigger] s[j])
}

/// The byte order is plain lexicographic order: where `a` and `b` agree
/// before index `i`, and `i` is where they first differ, `a` comes first
/// exactly when its byte there is smaller; where one ends at `i`, the shorter
/// one comes first, whatever the lengths.
pub proof fn lemma_bytes_lt_first_difference(a: Seq<u8>, b: Seq<u8>, i: int)
    requires
        0 <= i <= a.len(),
        i <= b.len(),
        forall|k: int| 0 <= k < i ==> a[k] == b[k],
    ensures
        i < a.len() && i < b.len() && a[i] != b[i] ==> (bytes_lt(a, b) <==> a[i] < b[i]),
        i == a.len() ==> (bytes_lt(a, b) <==> i < b.len()),
        i == b.len() && i < a.len() ==> !bytes_lt(a, b),
    decreases i,
{
    if i > 0 {
        let (a2, b2) = (a.drop_first(), b.drop_first());
        assert forall|k: int| 0 <= k < i - 1 implies a2[k] == b2[k] by {
            assert(a[k + 1] == b[k + 1]);
        }
        lemma_bytes_lt_first_difference(a2, b2, i - 1);
        assert(a[0] == b[0]);
        if i < a.len() {
            assert(a2[i - 1] == a[i]);
        }
        if i < b.len() {
            assert(b2[i - 1] == b[i]);
        }
    }
}

/// Entries are ordered as tuples are: first by millisecond, then by host,
/// then by user.
pub proof fn lemma_entry_order_by_fields(a: Entry, b: Entry)
    ensures
        a.0 < b.0 ==> entry_lt(a, b),
        a.0 == b.0 && bytes_lt(encode_utf8(a.1@), encode_utf8(b.1@)) ==> entry_lt(a, b),
        a.0 == b.0 && encode_utf8(a.1@) == encode_utf8(b.1@) ==> (entry_lt(a, b) <==> a.2 < b.2),
{
    lemma_bytes_lt_irreflexive(encode_utf8(a.1@));
}

/// No byte string comes before itself.
pub proof fn lemma_bytes_lt_irreflexive(a: Seq<u8>)
    ensures
        !bytes_lt(a, a),
    decreases a.len(),
{
    if a.len() > 0 {
        lemma_bytes_lt_irreflexive(a.drop_first());
    }
}

/// The byte order is transitive.
pub proof fn lemma_bytes_lt_transitive(a: Seq<u8>, b: Seq<u8>, c: Seq<u8>)
    requires
        bytes_lt(a, b),
        bytes_lt(b, c),
    ensures
        bytes_lt(a, c),
    decreases a.len(),
{
    if a.len() > 0 && b.len() > 0 && c.len() > 0 && a[0] == b[0] && b[0] == c[0] {
        lemma_bytes_lt_transitive(a.drop_first(), b.drop_first(), c.drop_first());
    }
}

/// Of two distinct byte strings, one comes before the other.
pub proof fn lemma_bytes_lt_total(a: Seq<u8>, b: Seq<u8>)
    ensures
        bytes_lt(a, b) || a == b || bytes_lt(b, a),
    decreases a.len(),
{
    if a.len() == 0 {
        if b.len() == 0 {
            assert(a =~= b);
        }
    } else if b.len() > 0 && a[0] == b[0] {
        lemma_bytes_lt_total(a.drop_first(), b.drop_first());
        if a.drop_first() == b.drop_first() {
            assert(a.drop_first().len() == b.drop_first().len());
            assert(a.len() == b.len());
            assert forall|i: int| 0 <= i < a.len() implies a[i] == b[i] by {
                if i > 0 {
                    assert(a[i] == a.drop_first()[i - 1]);
                    assert(b[i] == b.drop_first()[i - 1]);
                }
            }
            assert(a =~= b);
        }
    }
}

/// The entry order is a strict weak order whose ties are equal keys.
pub proof fn lemma_entry_order(a: Entry, b: Entry, c: Entry)
    ensures
        !entry_lt(a, a),
        entry_lt(a, b) && entry_lt(b, c) ==> entry_lt(a, c),
        entry_lt(a, b) || entry_key(a) == entry_key(b) || entry_lt(b, a),
{
    lemma_bytes_lt_irreflexive(entry_key(a).1);
    if entry_lt(a, b) && entry_lt(b, c) {
        if bytes_lt(entry_key(a).1, entry_key(b).1) && bytes_lt(entry_key(b).1, entry_key(c).1) {
            lemma_bytes_lt_transitive(entry_key(a).1, entry_key(b).1, entry_key(c).1);
        }
    }
    lemma_bytes_lt_total(entry_key(a).1, entry_key(b).1);
}

/// The keys of the entries, in order: what `==` on `(u64, String, i64)`
/// compares.
pub open spec fn entry_keys(s: Seq<Entry>) -> Seq<(u64, Seq<u8>, i64)> {
    s.map_values(|e: Entry| entry_key(e))
}

/// Two sorted sequences with the same elements hold the same keys in the
/// same order: the sorted order of a collection of entries is unique.
pub proof fn lemma_sorted_unique(a: Seq<Entry>, b: Seq<Entry>)
    requires
        entries_sorted(a),
        entries_sorted(b),
        a.to_multiset() == b.to_multiset(),
    ensures
        entry_keys(a) == entry_keys(b),
    decreases a.len(),
{
    assert(a.len() == a.to_multiset().len());
    assert(b.len() == b.to_multiset().len());
    if a.len() == 0 {
        assert(entry_keys(a) =~= entry_keys(b));
        return;
    }
    let x = a[0];
    let y = b[0];
    assert(a.contains(x));
    assert(a.to_multiset().count(x) > 0);
    assert(b.contains(x));
    let k = choose|k: int| 0 <= k < b.len() && b[k] == x;
    assert(b.to_multiset().count(y) > 0);
    assert(a.contains(y));
    let m = choose|m: int| 0 <= m < a.len() && a[m] == y;
    if m > 0 {
        assert(entry_le(a[0], a[m]));
    }
    if k > 0 {
        assert(entry_le(b[0], b[k]));
    }
    lemma_entry_order(x, y, x);
    lemma_entry_order(y, x, y);
    assert(entry_key(x) == entry_key(y));
    // Every entry of `b` up to `x` has the key of `x`.
    assert forall|j: int| 0 <= j <= k implies entry_key(#[trigger] b[j]) == entry_key(x) by {
        if 0 < j {
            assert(entry_le(b[0], b[j]));
        }
        if j < k {
            assert(entry_le(b[j], b[k]));
        }
        lemma_entry_order(b[j], x, b[j]);
        lemma_entry_order(y, b[j], y);
    }
    let a2 = a.drop_first();
    let b2 = b.remove(k);
    assert(a.remove(0) =~= a2);
    vstd::seq_lib::to_multiset_remove(a, 0);
    vstd::seq_lib::to_multiset_remove(b, k);
    assert forall|i: int, j: int| 0 <= i < j < a2.len() implies entry_le(#[trigger] a2[i], #[trigger] a2[j]) by {
        assert(a2[i] == a[i + 1] && a2[j] == a[j + 1]);
    }
    assert forall|i: int, j: int| 0 <= i < j < b2.len() implies entry_le(#[trigger] b2[i], #[trigger] b2[j]) by {
        let ii = if i < k { i } else { i + 1 };
        let jj = if j < k { j } else { j + 1 };
        assert(b2[i] == b[ii] && b2[j] == b[jj]);
    }
    lemma_sorted_unique(a2, b2);
    assert forall|j: int| 0 <= j < a.len() implies #[trigger] entry_keys(a)[j] == entry_keys(b)[j] by {
        if j == 0 {
        } else {
            assert(entry_keys(a)[j] == entry_key(a2[j - 1]));
            assert(entry_keys(a2)[j - 1] == entry_keys(b2)[j - 1]);
            if j <= k {
                assert(b2[j - 1] == b[j - 1]);
                assert(entry_key(b[j - 1]) == entry_key(x));
            } else {
                assert(b2[j - 1] == b[j]);
            }
        }
    }
    assert(entry_keys(a) =~= entry_keys(b));
}

/// `a` before `b`, and `b` not after `c`, puts `a` before `c`.
proof fn lemma_lt_le(a: Entry, b: Entry, c: Entry)
    requires
        entry_lt(a, b),
        entry_le(b, c),
    ensures
        entry_lt(a, c),
{
    lemma_entry_order(b, c, a);
    lemma_entry_order(a, b, c);
}

/// Inserting into a sequence adds the element to its multiset.
proof fn lemma_insert_to_multiset<A>(s: Seq<A>, k: int, a: A)
    requires
        0 <= k <= s.len(),
    ensures
        s.insert(k, a).to_multiset() =~= s.to_multiset().insert(a),
{
    let t = s.insert(k, a);
    assert(t.remove(k) =~= s);
    vstd::seq_lib::to_multiset_remove(t, k);
    assert(t[k] == a);
    assert(t.contains(a));
    assert(t.to_multiset().count(a) > 0);
}

/// Whether `a` comes strictly before `b` as byte strings.
pub fn bytes_less(a: &[u8], b: &[u8]) -> (r: bool)
    ensures
        r == bytes_lt(a@, b@),
{
    let mut i: usize = 0;
    assert(a@.skip(0) =~= a@);
    assert(b@.skip(0) =~= b@);
    while i < a.len() && i < b.len()
        invariant
            0 <= i <= a@.len(),
            i <= b@.len(),
            bytes_lt(a@, b@) == bytes_lt(a@.skip(i as int), b@.skip(i as int)),
        decreases a@.len() - i,
    {
        assert(a@.skip(i as int)[0] == a@[i as int]);
        assert(b@.skip(i as int)[0] == b@[i as int]);
        if a[i] != b[i] {
            return a[i] < b[i];
        }
        assert(a@.skip(i as int).drop_first() =~= a@.skip(i + 1));
        assert(b@.skip(i as int).drop_first() =~= b@.skip(i + 1));
        i = i + 1;
    }
    i == a.len() && i < b.len()
}

/// Whether entry `a` comes strictly before entry `b`.
pub fn entry_less(a: &Entry, b: &Entry) -> (r: bool)
    ensures
        r == entry_lt(*a, *b),
{
    if a.0 != b.0 {
        return a.0 < b.0;
    }
    let ab = a.1.as_str().as_bytes();
    let bb = b.1.as_str().as_bytes();
    if bytes_less(ab, bb) {
        return true;
    }
    if bytes_less(bb, ab) {
        proof {
            lemma_bytes_lt_irreflexive(ab@);
        }
        return false;
    }
    proof {
        lemma_bytes_lt_total(ab@, bb@);
    }
    a.2 < b.2
}

/// Sorts the entries in ascending order, as `slice::sort` does for
/// `(u64, String, i64)`; entries that compare equal keep their order.
pub fn sort_entries(v: &mut Vec<Entry>)
    ensures
        entries_sorted(final(v)@),
        final(v)@.to_multiset() == old(v)@.to_multiset(),
{
    let ghost all = v@.to_multiset();
    let mut out: Vec<Entry> = Vec::new();
    assert(out@.to_multiset() =~= Multiset::<Entry>::empty());
    while v.len() > 0
        invariant
            entries_sorted(out@),
            out@.to_multiset().add(v@.to_multiset()) == all,
        decreases v@.len(),
    {
        let ghost rest = v@;
        let e = v.remove(0);
        proof {
            vstd::seq_lib::to_multiset_remove(rest, 0);
            assert(rest[0] == e);
        }
        let mut k: usize = 0;
        while k < out.len() && !entry_less(&e, &out[k])
            invariant
                0 <= k <= out@.len(),
                forall|j: int| 0 <= j < k ==> entry_le(#[trigger] out@[j], e),
            decreases out@.len() - k,
        {
            k = k + 1;
        }
        let ghost before = out@;
        out.insert(k, e);
        proof {
            lemma_insert_to_multiset(before, k as int, e);
            assert forall|i: int, j: int| 0 <= i < j < out@.len() implies entry_le(
                #[trigger] out@[i],
                #[trigger] out@[j],
            ) by {
                if j < k {
                    assert(out@[i] == before[i] && out@[j] == before[j]);
                } else if j == k {
                    assert(out@[i] == before[i]);
                } else if i == k {
                    assert(out@[j] == before[j - 1]);
                    assert(entry_lt(e, before[k as int]));
                    if j - 1 > k {
                        assert(entry_le(before[k as int], before[j - 1]));
                        lemma_lt_le(e, before[k as int], before[j - 1]);
                    }
                    lemma_entry_order(before[j - 1], e, before[j - 1]);
                } else if i < k {
                    assert(out@[i] == before[i] && out@[j] == before[j - 1]);
                } else {
                    assert(out@[i] == before[i - 1] && out@[j] == before[j - 1]);
                }
            }
            assert(out@.to_multiset().add(v@.to_multiset()) =~= all);
        }
    }
    proof {
        assert(v@.to_multiset() =~= Multiset::<Entry>::empty());
        assert(out@.to_multiset() =~= all);
    }
    *v = out;
}

} // verus!
