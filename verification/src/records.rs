//! Ordering of records for canonicalization.
//!
//! Before signing, the records of a collection are sorted by the canonical
//! serialization of their `id` field, in lexicographic byte order, with ties
//! kept in input order. The sorted order is defined by the spec functions
//! here and computed as a permutation of indices, so the records themselves
//! never move.

use vstd::prelude::*;

use crate::canon::canon;
use crate::canon::to_canonical_bytes;
use crate::json::Json;
use crate::json::json_get;

verus! {

broadcast use vstd::std_specs::vec::group_vec_axioms;

/// The id of a record: the value under `"id"` when the record is an object
/// containing it, otherwise null.
pub open spec fn id_value(r: Json) -> Json {
    match json_get(r, "id"@) {
        Option::Some(v) => v,
        Option::None => Json::Null,
    }
}

/// The key a record is ordered by: the canonical serialization of its id.
pub open spec fn sort_key(r: Json) -> Seq<u8> {
    canon(id_value(r))
}

/// Strict lexicographic order on byte strings.
pub open spec fn bytes_lt(a: Seq<u8>, b: Seq<u8>) -> bool
    decreases a.len(),
{
    if b.len() == 0 {
        false
    } else if a.len() == 0 {
        true
    } else if a[0] != b[0] {
        a[0] < b[0]
    } else {
        bytes_lt(a.drop_first(), b.drop_first())
    }
}

/// Where a record inserted after the others lands: behind every record whose
/// key is not greater, in front of the first whose key is greater.
pub open spec fn insert_sorted(x: Json, s: Seq<Json>) -> Seq<Json>
    decreases s.len(),
{
    if s.len() == 0 {
        seq![x]
    } else if bytes_lt(sort_key(x), sort_key(s[0])) {
        seq![x] + s
    } else {
        seq![s[0]] + insert_sorted(x, s.drop_first())
    }
}

/// Stable insertion sort of records by key, processing input left to right.
pub open spec fn sorted_records(s: Seq<Json>) -> Seq<Json>
    decreases s.len(),
{
    if s.len() == 0 {
        Seq::empty()
    } else {
        insert_sorted(s.last(), sorted_records(s.drop_last()))
    }
}

pub proof fn lemma_bytes_lt_trans(a: Seq<u8>, b: Seq<u8>, c: Seq<u8>)
    requires
        bytes_lt(a, b),
        bytes_lt(b, c),
    ensures
        bytes_lt(a, c),
    decreases a.len(),
{
    if c.len() == 0 || b.len() == 0 || a.len() == 0 {
    } else {
        if a[0] == b[0] && b[0] == c[0] {
            lemma_bytes_lt_trans(a.drop_first(), b.drop_first(), c.drop_first());
        }
    }
}

/// Two byte strings neither of which is below the other are equal.
pub proof fn lemma_bytes_lt_connex(a: Seq<u8>, b: Seq<u8>)
    requires
        !bytes_lt(a, b),
        !bytes_lt(b, a),
    ensures
        a == b,
    decreases a.len(),
{
    if a.len() == 0 || b.len() == 0 {
        assert(a =~= b);
    } else {
        lemma_bytes_lt_connex(a.drop_first(), b.drop_first());
        assert(a =~= seq![a[0]] + a.drop_first());
        assert(b =~= seq![b[0]] + b.drop_first());
    }
}

fn bytes_less(a: &Vec<u8>, b: &Vec<u8>) -> (r: bool)
    ensures
        r == bytes_lt(a@, b@),
{
    let alen: usize = a.len();
    let blen: usize = b.len();
    let mut i: usize = 0;
    proof {
        assert(a@.skip(0) =~= a@);
        assert(b@.skip(0) =~= b@);
    }
    loop
        invariant
            alen == a@.len(),
            blen == b@.len(),
            0 <= i <= alen,
            i <= blen,
            bytes_lt(a@, b@) == bytes_lt(a@.skip(i as int), b@.skip(i as int)),
        decreases alen - i,
    {
        if i == alen || i == blen {
            return i == alen && i < blen;
        }
        let ca: u8 = a[i];
        let cb: u8 = b[i];
        if ca != cb {
            return ca < cb;
        }
        proof {
            assert(a@.skip(i as int).drop_first() =~= a@.skip(i + 1));
            assert(b@.skip(i as int).drop_first() =~= b@.skip(i + 1));
            assert(a@.skip(i as int)[0] == a@[i as int]);
            assert(b@.skip(i as int)[0] == b@[i as int]);
        }
        i += 1;
    }
}

/// Inserting an element at the position bounded by the first strictly
/// greater key is what [`insert_sorted`] does.
proof fn lemma_insert_at(x: Json, s: Seq<Json>, p: int)
    requires
        0 <= p <= s.len(),
        forall|q: int| 0 <= q < p ==> !bytes_lt(sort_key(x), sort_key(#[trigger] s[q])),
        p < s.len() ==> bytes_lt(sort_key(x), sort_key(s[p])),
    ensures
        insert_sorted(x, s) == s.take(p) + seq![x] + s.skip(p),
    decreases p,
{
    if s.len() == 0 {
        assert(insert_sorted(x, s) =~= s.take(p) + seq![x] + s.skip(p));
    } else if p == 0 {
        assert(bytes_lt(sort_key(x), sort_key(s[0])));
        assert(s.take(0) + seq![x] + s.skip(0) =~= seq![x] + s);
    } else {
        assert(!bytes_lt(sort_key(x), sort_key(s[0])));
        let sd = s.drop_first();
        assert(forall|q: int|
            0 <= q < p - 1 ==> !bytes_lt(sort_key(x), sort_key(#[trigger] sd[q])));
        lemma_insert_at(x, sd, p - 1);
        assert(seq![s[0]] + (sd.take(p - 1) + seq![x] + sd.skip(p - 1)) =~= s.take(p) + seq![x]
            + s.skip(p));
    }
}

/// The records of `records`, each serialized by its position, in sorted
/// order: position `i` of the result holds the index of the record that
/// comes `i`-th in [`sorted_records`].
pub fn sorted_record_order(records: &Vec<Json>) -> (idx: Vec<usize>)
    ensures
        idx@.len() == records@.len(),
        forall|i: int| 0 <= i < idx@.len() ==> (#[trigger] idx@[i]) < records@.len(),
        Seq::new(idx@.len() as nat, |i: int| records@[idx@[i] as int]) == sorted_records(
            records@,
        ),
{
    let n: usize = records.len();
    let mut keys: Vec<Vec<u8>> = Vec::new();
    let mut k: usize = 0;
    while k < n
        invariant
            n == records@.len(),
            keys@.len() == k,
            0 <= k <= n,
            forall|i: int| 0 <= i < k ==> (#[trigger] keys@[i])@ == sort_key(records@[i]),
        decreases n - k,
    {
        let key: Vec<u8> = match crate::json::obj_get(&records[k], "id") {
            Option::Some(v) => to_canonical_bytes(v),
            Option::None => to_canonical_bytes(&Json::Null),
        };
        keys.push(key);
        k += 1;
    }
    let mut idx: Vec<usize> = Vec::new();
    let mut k: usize = 0;
    proof {
        assert(records@.take(0) =~= Seq::<Json>::empty());
        assert(Seq::new(0, |i: int| records@[idx@[i] as int]) =~= Seq::<Json>::empty());
    }
    while k < n
        invariant
            n == records@.len(),
            keys@.len() == n,
            forall|i: int| 0 <= i < n ==> (#[trigger] keys@[i])@ == sort_key(records@[i]),
            0 <= k <= n,
            idx@.len() == k,
            forall|i: int| 0 <= i < k ==> (#[trigger] idx@[i]) < n,
            Seq::new(idx@.len() as nat, |i: int| records@[idx@[i] as int]) == sorted_records(
                records@.take(k as int),
            ),
        decreases n - k,
    {
        let ghost prev = Seq::new(idx@.len() as nat, |i: int| records@[idx@[i] as int]);
        let mut p: usize = 0;
        while p < k && !bytes_less(&keys[k], &keys[idx[p]])
            invariant
                n == records@.len(),
                keys@.len() == n,
                forall|i: int| 0 <= i < n ==> (#[trigger] keys@[i])@ == sort_key(records@[i]),
                0 <= k < n,
                idx@.len() == k,
                forall|i: int| 0 <= i < k ==> (#[trigger] idx@[i]) < n,
                0 <= p <= k,
                forall|q: int|
                    0 <= q < p ==> !bytes_lt(
                        sort_key(records@[k as int]),
                        sort_key(records@[(#[trigger] idx@[q]) as int]),
                    ),
            decreases k - p,
        {
            p += 1;
        }
        let ghost oldidx = idx@;
        idx.insert(p, k);
        k += 1;
        proof {
            assert(forall|q: int|
                0 <= q < p ==> !bytes_lt(sort_key(records@[k - 1]), sort_key(#[trigger] prev[q])));
            assert(p < k - 1 ==> bytes_lt(sort_key(records@[k - 1]), sort_key(prev[p as int])));
            lemma_insert_at(records@[k - 1], prev, p as int);
            assert(idx@ == oldidx.insert(p as int, (k - 1) as usize));
            let cur = Seq::new(idx@.len() as nat, |i: int| records@[idx@[i] as int]);
            assert(cur =~= prev.take(p as int) + seq![records@[k - 1]] + prev.skip(p as int)) by {
                assert(forall|i: int| 0 <= i < p ==> idx@[i] == oldidx[i]);
                assert(idx@[p as int] == (k - 1) as usize);
                assert(forall|i: int| p < i < idx@.len() ==> idx@[i] == oldidx[i - 1]);
            }
            assert(records@.take(k as int).drop_last() =~= records@.take(k - 1));
            assert(records@.take(k as int).last() == records@[k - 1]);
            assert(cur == sorted_records(records@.take(k as int)));
        }
    }
    proof {
        assert(records@.take(n as int) =~= records@);
    }
    idx
}

} // verus!
