//! Ordering laws of the canonicalization.
//!
//! The stored order of records does not matter: two collections holding the
//! same records, with pairwise distinct ids, canonicalize to the same signed
//! bytes whatever order the records came in. The proof goes through the
//! sorted order being the unique sorted arrangement of the record multiset.

use vstd::prelude::*;

use crate::json::Json;
use crate::records::bytes_lt;
use crate::records::insert_sorted;
use crate::records::lemma_bytes_lt_connex;
use crate::records::lemma_bytes_lt_trans;
use crate::records::sort_key;
use crate::records::sorted_records;
use crate::canon::canon_elems;
use crate::canon::dec_digits;
use crate::verification::content_signature_prefix;
use crate::verification::message_bytes;
use crate::verification::payload_close;
use crate::verification::payload_mid;
use crate::verification::payload_open;

verus! {

broadcast use {
    vstd::std_specs::vec::group_vec_axioms,
    vstd::seq_lib::group_to_multiset_ensures,
    vstd::multiset::group_multiset_axioms,
};

/// No two records share a sort key.
pub open spec fn keys_distinct(s: Seq<Json>) -> bool {
    forall|i: int, k: int|
        #![trigger sort_key(s[i]), sort_key(s[k])]
        0 <= i < k < s.len() ==> sort_key(s[i]) != sort_key(s[k])
}

/// No later record has a strictly smaller key.
pub open spec fn sorted_by_key(s: Seq<Json>) -> bool {
    forall|i: int, k: int|
        #![trigger s[i], s[k]]
        0 <= i <= k < s.len() ==> !bytes_lt(sort_key(s[k]), sort_key(s[i]))
}

pub proof fn lemma_bytes_lt_irrefl(a: Seq<u8>)
    ensures
        !bytes_lt(a, a),
    decreases a.len(),
{
    if a.len() > 0 {
        lemma_bytes_lt_irrefl(a.drop_first());
    }
}

/// Every element of an insertion result is the inserted record or one of
/// the records already there.
proof fn lemma_insert_sorted_membership(x: Json, s: Seq<Json>)
    ensures
        insert_sorted(x, s).len() == s.len() + 1,
        forall|i: int|
            0 <= i < s.len() + 1 ==> ((#[trigger] insert_sorted(x, s)[i]) == x || s.contains(
                insert_sorted(x, s)[i],
            )),
    decreases s.len(),
{
    let r = insert_sorted(x, s);
    if s.len() == 0 {
        assert(r =~= seq![x]);
    } else if bytes_lt(sort_key(x), sort_key(s[0])) {
        assert(r =~= seq![x] + s);
        assert forall|i: int| 0 <= i < s.len() + 1 implies ((#[trigger] r[i]) == x || s.contains(
            r[i],
        )) by {
            if i > 0 {
                assert(r[i] == s[i - 1]);
                assert(s.contains(s[i - 1]));
            }
        }
    } else {
        let sd = s.drop_first();
        lemma_insert_sorted_membership(x, sd);
        assert(r =~= seq![s[0]] + insert_sorted(x, sd));
        assert forall|i: int| 0 <= i < s.len() + 1 implies ((#[trigger] r[i]) == x || s.contains(
            r[i],
        )) by {
            if i == 0 {
                assert(s.contains(s[0]));
            } else {
                let e = insert_sorted(x, sd)[i - 1];
                assert(r[i] == e);
                if e != x {
                    assert(sd.contains(e));
                    let q = choose|q: int| 0 <= q < sd.len() && sd[q] == e;
                    assert(s[q + 1] == e);
                    assert(s.contains(e));
                }
            }
        }
    }
}

/// Insertion adds exactly the inserted record to the multiset of records.
proof fn lemma_insert_sorted_multiset(x: Json, s: Seq<Json>)
    ensures
        insert_sorted(x, s).to_multiset() == s.to_multiset().insert(x),
    decreases s.len(),
{
    broadcast use vstd::seq_lib::lemma_multiset_commutative;

    let r = insert_sorted(x, s);
    if s.len() == 0 {
        assert(r =~= Seq::<Json>::empty().push(x));
        assert(Seq::<Json>::empty().push(x).to_multiset() =~= Seq::<Json>::empty().to_multiset()
            .insert(x));
        assert(r.to_multiset() =~= s.to_multiset().insert(x));
    } else if bytes_lt(sort_key(x), sort_key(s[0])) {
        assert(r =~= seq![x] + s);
        assert(seq![x] =~= Seq::<Json>::empty().push(x));
        assert(r.to_multiset() =~= s.to_multiset().insert(x));
    } else {
        let sd = s.drop_first();
        lemma_insert_sorted_multiset(x, sd);
        assert(r =~= seq![s[0]] + insert_sorted(x, sd));
        assert(s =~= seq![s[0]] + sd);
        assert(seq![s[0]] =~= Seq::<Json>::empty().push(s[0]));
        assert(r.to_multiset() =~= s.to_multiset().insert(x));
    }
}

/// Insertion keeps the records sorted by key.
proof fn lemma_insert_sorted_sorted(x: Json, s: Seq<Json>)
    requires
        sorted_by_key(s),
    ensures
        sorted_by_key(insert_sorted(x, s)),
    decreases s.len(),
{
    let r = insert_sorted(x, s);
    if s.len() == 0 {
        assert forall|i: int, k: int|
            #![trigger r[i], r[k]]
            0 <= i <= k < r.len() implies !bytes_lt(sort_key(r[k]), sort_key(r[i])) by {
            lemma_bytes_lt_irrefl(sort_key(x));
        }
    } else if bytes_lt(sort_key(x), sort_key(s[0])) {
        assert(r =~= seq![x] + s);
        assert forall|i: int, k: int|
            #![trigger r[i], r[k]]
            0 <= i <= k < r.len() implies !bytes_lt(sort_key(r[k]), sort_key(r[i])) by {
            if i == 0 {
                if k == 0 {
                    lemma_bytes_lt_irrefl(sort_key(x));
                } else {
                    assert(r[k] == s[k - 1]);
                    if bytes_lt(sort_key(s[k - 1]), sort_key(x)) {
                        lemma_bytes_lt_trans(sort_key(s[k - 1]), sort_key(x), sort_key(s[0]));
                        assert(!bytes_lt(sort_key(s[k - 1]), sort_key(s[0])));
                        assert(false);
                    }
                }
            } else {
                assert(r[i] == s[i - 1]);
                assert(r[k] == s[k - 1]);
            }
        }
    } else {
        let sd = s.drop_first();
        assert forall|i: int, k: int|
            #![trigger sd[i], sd[k]]
            0 <= i <= k < sd.len() implies !bytes_lt(sort_key(sd[k]), sort_key(sd[i])) by {
            assert(sd[i] == s[i + 1]);
            assert(sd[k] == s[k + 1]);
        }
        lemma_insert_sorted_sorted(x, sd);
        lemma_insert_sorted_membership(x, sd);
        let t = insert_sorted(x, sd);
        assert(r =~= seq![s[0]] + t);
        assert forall|i: int, k: int|
            #![trigger r[i], r[k]]
            0 <= i <= k < r.len() implies !bytes_lt(sort_key(r[k]), sort_key(r[i])) by {
            if i == 0 {
                if k == 0 {
                    lemma_bytes_lt_irrefl(sort_key(s[0]));
                } else {
                    let e = t[k - 1];
                    assert(r[k] == e);
                    if e == x {
                        assert(!bytes_lt(sort_key(x), sort_key(s[0])));
                    } else {
                        assert(sd.contains(e));
                        let q = choose|q: int| 0 <= q < sd.len() && sd[q] == e;
                        assert(s[q + 1] == e);
                    }
                }
            } else {
                assert(r[i] == t[i - 1]);
                assert(r[k] == t[k - 1]);
            }
        }
    }
}

/// Insertion of a record with a fresh key keeps keys pairwise distinct.
proof fn lemma_insert_sorted_distinct(x: Json, s: Seq<Json>)
    requires
        keys_distinct(s),
        forall|i: int| 0 <= i < s.len() ==> sort_key(#[trigger] s[i]) != sort_key(x),
    ensures
        keys_distinct(insert_sorted(x, s)),
    decreases s.len(),
{
    let r = insert_sorted(x, s);
    if s.len() == 0 {
    } else if bytes_lt(sort_key(x), sort_key(s[0])) {
        assert(r =~= seq![x] + s);
        assert forall|i: int, k: int|
            #![trigger sort_key(r[i]), sort_key(r[k])]
            0 <= i < k < r.len() implies sort_key(r[i]) != sort_key(r[k]) by {
            if i == 0 {
                assert(r[k] == s[k - 1]);
            } else {
                assert(r[i] == s[i - 1]);
                assert(r[k] == s[k - 1]);
            }
        }
    } else {
        let sd = s.drop_first();
        assert forall|i: int, k: int|
            #![trigger sort_key(sd[i]), sort_key(sd[k])]
            0 <= i < k < sd.len() implies sort_key(sd[i]) != sort_key(sd[k]) by {
            assert(sd[i] == s[i + 1]);
            assert(sd[k] == s[k + 1]);
        }
        assert(forall|i: int| 0 <= i < sd.len() ==> sort_key(#[trigger] sd[i]) != sort_key(x))
            by {
            assert(forall|i: int| 0 <= i < sd.len() ==> sd[i] == s[i + 1]);
        }
        lemma_insert_sorted_distinct(x, sd);
        lemma_insert_sorted_membership(x, sd);
        let t = insert_sorted(x, sd);
        assert(r =~= seq![s[0]] + t);
        assert forall|i: int, k: int|
            #![trigger sort_key(r[i]), sort_key(r[k])]
            0 <= i < k < r.len() implies sort_key(r[i]) != sort_key(r[k]) by {
            if i == 0 {
                let e = t[k - 1];
                assert(r[k] == e);
                if e == x {
                    assert(sort_key(s[0]) != sort_key(x));
                } else {
                    assert(sd.contains(e));
                    let q = choose|q: int| 0 <= q < sd.len() && sd[q] == e;
                    assert(s[q + 1] == e);
                    assert(sort_key(s[0]) != sort_key(s[q + 1]));
                }
            } else {
                assert(r[i] == t[i - 1]);
                assert(r[k] == t[k - 1]);
            }
        }
    }
}

/// The sorted records are the input records: same length, same multiset,
/// sorted by key, and every sorted record occurs in the input.
pub proof fn lemma_sorted_records_props(s: Seq<Json>)
    ensures
        sorted_records(s).len() == s.len(),
        sorted_records(s).to_multiset() == s.to_multiset(),
        sorted_by_key(sorted_records(s)),
        forall|i: int| 0 <= i < s.len() ==> s.contains(#[trigger] sorted_records(s)[i]),
    decreases s.len(),
{
    if s.len() == 0 {
        assert(sorted_records(s) =~= Seq::<Json>::empty());
    } else {
        let sd = s.drop_last();
        let x = s.last();
        let t = sorted_records(sd);
        lemma_sorted_records_props(sd);
        lemma_insert_sorted_multiset(x, t);
        lemma_insert_sorted_sorted(x, t);
        lemma_insert_sorted_membership(x, t);
        assert(s =~= sd.push(x));
        assert(sd.push(x).to_multiset() =~= sd.to_multiset().insert(x));
        assert(sorted_records(s).to_multiset() =~= s.to_multiset());
        assert forall|i: int| 0 <= i < s.len() implies s.contains(
            #[trigger] sorted_records(s)[i],
        ) by {
            let e = sorted_records(s)[i];
            if e == x {
                assert(s[s.len() - 1] == x);
                assert(s.contains(e));
            } else {
                assert(t.contains(e));
                let q = choose|q: int| 0 <= q < t.len() && t[q] == e;
                assert(sd.contains(t[q]));
                let w = choose|w: int| 0 <= w < sd.len() && sd[w] == e;
                assert(s[w] == e);
                assert(s.contains(e));
            }
        }
    }
}

/// Sorting records with pairwise distinct keys keeps the keys distinct.
pub proof fn lemma_sorted_records_distinct(s: Seq<Json>)
    requires
        keys_distinct(s),
    ensures
        keys_distinct(sorted_records(s)),
    decreases s.len(),
{
    if s.len() > 0 {
        let sd = s.drop_last();
        let x = s.last();
        let t = sorted_records(sd);
        assert forall|i: int, k: int|
            #![trigger sort_key(sd[i]), sort_key(sd[k])]
            0 <= i < k < sd.len() implies sort_key(sd[i]) != sort_key(sd[k]) by {
            assert(sd[i] == s[i]);
            assert(sd[k] == s[k]);
        }
        lemma_sorted_records_distinct(sd);
        lemma_sorted_records_props(sd);
        assert forall|i: int| 0 <= i < t.len() implies sort_key(#[trigger] t[i]) != sort_key(
            x,
        ) by {
            assert(sd.contains(t[i]));
            let q = choose|q: int| 0 <= q < sd.len() && sd[q] == t[i];
            assert(s[q] == t[i]);
            assert(s[s.len() - 1] == x);
            assert(sort_key(s[q]) != sort_key(s[s.len() - 1]));
        }
        lemma_insert_sorted_distinct(x, t);
    }
}

/// Two sorted sequences of the same record multiset are identical when the
/// first has pairwise distinct keys.
pub proof fn lemma_sorted_unique(s1: Seq<Json>, s2: Seq<Json>)
    requires
        sorted_by_key(s1),
        sorted_by_key(s2),
        keys_distinct(s1),
        s1.to_multiset() == s2.to_multiset(),
    ensures
        s1 == s2,
    decreases s1.len(),
{
    assert(s1.to_multiset().len() == s1.len());
    assert(s2.to_multiset().len() == s2.len());
    if s1.len() == 0 {
        assert(s1 =~= s2);
    } else {
        assert(s2.contains(s2[0]));
        assert(s1.to_multiset().count(s2[0]) > 0);
        assert(s1.contains(s2[0]));
        let i = choose|i: int| 0 <= i < s1.len() && s1[i] == s2[0];
        assert(s1.contains(s1[0]));
        assert(s2.to_multiset().count(s1[0]) > 0);
        assert(s2.contains(s1[0]));
        let k = choose|k: int| 0 <= k < s2.len() && s2[k] == s1[0];
        assert(!bytes_lt(sort_key(s1[i]), sort_key(s1[0])));
        assert(!bytes_lt(sort_key(s2[k]), sort_key(s2[0])));
        lemma_bytes_lt_connex(sort_key(s1[0]), sort_key(s2[0]));
        assert(sort_key(s1[0]) == sort_key(s2[0]));
        if i != 0 {
            assert(sort_key(s1[0]) != sort_key(s1[i]));
            assert(false);
        }
        assert(s1[0] == s2[0]);
        let t1 = s1.drop_first();
        let t2 = s2.drop_first();
        assert(s1.remove(0) =~= t1);
        assert(s2.remove(0) =~= t2);
        assert(t1.to_multiset() =~= s1.to_multiset().remove(s1[0]));
        assert(t2.to_multiset() =~= s2.to_multiset().remove(s2[0]));
        assert(t1.to_multiset() == t2.to_multiset());
        assert forall|a: int, b: int|
            #![trigger t1[a], t1[b]]
            0 <= a <= b < t1.len() implies !bytes_lt(sort_key(t1[b]), sort_key(t1[a])) by {
            assert(t1[a] == s1[a + 1]);
            assert(t1[b] == s1[b + 1]);
        }
        assert forall|a: int, b: int|
            #![trigger t2[a], t2[b]]
            0 <= a <= b < t2.len() implies !bytes_lt(sort_key(t2[b]), sort_key(t2[a])) by {
            assert(t2[a] == s2[a + 1]);
            assert(t2[b] == s2[b + 1]);
        }
        assert forall|a: int, b: int|
            #![trigger sort_key(t1[a]), sort_key(t1[b])]
            0 <= a < b < t1.len() implies sort_key(t1[a]) != sort_key(t1[b]) by {
            assert(t1[a] == s1[a + 1]);
            assert(t1[b] == s1[b + 1]);
        }
        lemma_sorted_unique(t1, t2);
        assert(s1 =~= seq![s1[0]] + t1);
        assert(s2 =~= seq![s2[0]] + t2);
    }
}

/// Order invariance: collections holding the same records — as a multiset,
/// with pairwise distinct ids — canonicalize to the same signed message,
/// whatever order the records came in.
pub proof fn lemma_order_invariance(r1: Seq<Json>, r2: Seq<Json>, timestamp: u64)
    requires
        r1.to_multiset() == r2.to_multiset(),
        keys_distinct(r1),
    ensures
        message_bytes(r1, timestamp) == message_bytes(r2, timestamp),
{
    lemma_sorted_records_props(r1);
    lemma_sorted_records_props(r2);
    lemma_sorted_records_distinct(r1);
    lemma_sorted_unique(sorted_records(r1), sorted_records(r2));
}

proof fn lemma_dec_digits_len(x: nat)
    ensures
        dec_digits(x).len() >= 1,
    decreases x,
{
    if x >= 10 {
        lemma_dec_digits_len(x / 10);
    }
}

/// Decimal renderings are injective: equal digit strings mean equal numbers.
proof fn lemma_dec_digits_inj(a: nat, b: nat)
    requires
        dec_digits(a) == dec_digits(b),
    ensures
        a == b,
    decreases a,
{
    lemma_dec_digits_len(a);
    lemma_dec_digits_len(b);
    if a < 10 && b < 10 {
        assert(dec_digits(a)[0] == (0x30 + a) as u8);
        assert(dec_digits(b)[0] == (0x30 + b) as u8);
        assert(0x30 + a < 256);
        assert(0x30 + b < 256);
        assert(a == b);
    } else if a < 10 {
        assert(dec_digits(b).len() >= 2) by {
            lemma_dec_digits_len(b / 10);
        }
    } else if b < 10 {
        assert(dec_digits(a).len() >= 2) by {
            lemma_dec_digits_len(a / 10);
        }
    } else {
        let da = dec_digits(a);
        let db = dec_digits(b);
        assert(da == dec_digits(a / 10) + seq![(0x30 + a % 10) as u8]);
        assert(db == dec_digits(b / 10) + seq![(0x30 + b % 10) as u8]);
        assert(da.last() == (0x30 + a % 10) as u8);
        assert(db.last() == (0x30 + b % 10) as u8);
        assert(a % 10 < 10);
        assert(b % 10 < 10);
        assert(a % 10 == b % 10);
        assert(da.drop_last() =~= dec_digits(a / 10));
        assert(db.drop_last() =~= dec_digits(b / 10));
        lemma_dec_digits_inj(a / 10, b / 10);
        assert(a / 10 == b / 10);
        assert(a == (a / 10) * 10 + a % 10) by (nonlinear_arith);
        assert(b == (b / 10) * 10 + b % 10) by (nonlinear_arith);
        assert(a == b);
    }
}

/// Tampering with the timestamp always changes the signed message.
pub proof fn lemma_timestamp_distinguishes(records: Seq<Json>, t1: u64, t2: u64)
    requires
        t1 != t2,
    ensures
        message_bytes(records, t1) != message_bytes(records, t2),
{
    let pre = content_signature_prefix() + payload_open() + canon_elems(sorted_records(records))
        + payload_mid();
    let d1 = dec_digits(t1 as nat);
    let d2 = dec_digits(t2 as nat);
    let m1 = message_bytes(records, t1);
    let m2 = message_bytes(records, t2);
    assert(m1 =~= pre + d1 + payload_close());
    assert(m2 =~= pre + d2 + payload_close());
    if m1 == m2 {
        assert(m1.len() == pre.len() + d1.len() + 2);
        assert(m2.len() == pre.len() + d2.len() + 2);
        assert(d1.len() == d2.len());
        assert(d1 =~= m1.subrange(pre.len() as int, (pre.len() + d1.len()) as int));
        assert(d2 =~= m2.subrange(pre.len() as int, (pre.len() + d2.len()) as int));
        lemma_dec_digits_inj(t1 as nat, t2 as nat);
        assert(false);
    }
}

} // verus!
