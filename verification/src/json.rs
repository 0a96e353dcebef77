//! JSON values as plain data.
//!
//! Records and signature metadata are JSON documents. This module models them
//! as a recursive enum over plain values: integers, strings, arrays and
//! objects. Objects keep their entries sorted strictly by key (the
//! well-formedness predicate [`wf`]), which is exactly the shape a map-backed
//! JSON document has and what canonical serialization requires.

use vstd::prelude::*;

verus! {

broadcast use vstd::std_specs::vec::group_vec_axioms;

/// A JSON value with integer numbers.
///
/// Objects are entry lists; a well-formed object ([`wf`]) keeps its keys
/// strictly sorted, so an entry list uniquely represents a key-value map.
pub enum Json {
    Null,
    Bool(bool),
    Int(i64),
    Str(String),
    Arr(Vec<Json>),
    Obj(Vec<(String, Json)>),
}

/// Strict lexicographic order on strings, by Unicode code point.
pub open spec fn str_lt(a: Seq<char>, b: Seq<char>) -> bool
    decreases a.len(),
{
    if b.len() == 0 {
        false
    } else if a.len() == 0 {
        true
    } else if a[0] != b[0] {
        (a[0] as u32) < (b[0] as u32)
    } else {
        str_lt(a.drop_first(), b.drop_first())
    }
}

/// Well-formed values: every object in the tree has strictly increasing keys.
pub open spec fn wf(j: Json) -> bool
    decreases j,
{
    match j {
        Json::Arr(v) => forall|i: int| 0 <= i < v@.len() ==> wf(#[trigger] v@[i]),
        Json::Obj(m) => {
            &&& forall|i: int| 0 <= i < m@.len() ==> wf(#[trigger] m@[i].1)
            &&& forall|i: int, k: int|
                #![trigger m@[i], m@[k]]
                0 <= i < k < m@.len() ==> str_lt(m@[i].0@, m@[k].0@)
        },
        _ => true,
    }
}

/// The value under `key` in an entry list, first match.
pub open spec fn entries_get(m: Seq<(String, Json)>, key: Seq<char>) -> Option<Json>
    decreases m.len(),
{
    if m.len() == 0 {
        Option::None
    } else if m[0].0@ == key {
        Option::Some(m[0].1)
    } else {
        entries_get(m.drop_first(), key)
    }
}

/// The value under `key` if `j` is an object containing it.
pub open spec fn json_get(j: Json, key: Seq<char>) -> Option<Json> {
    match j {
        Json::Obj(m) => entries_get(m@, key),
        _ => Option::None,
    }
}

pub proof fn lemma_str_lt_trans(a: Seq<char>, b: Seq<char>, c: Seq<char>)
    requires
        str_lt(a, b),
        str_lt(b, c),
    ensures
        str_lt(a, c),
    decreases a.len(),
{
    if c.len() == 0 {
        // str_lt(b, c) is false: contradiction.
    } else if b.len() == 0 {
        // str_lt(a, b) is false: contradiction.
    } else if a.len() == 0 {
        // a empty, c nonempty.
    } else {
        if a[0] == b[0] && b[0] == c[0] {
            lemma_str_lt_trans(a.drop_first(), b.drop_first(), c.drop_first());
        }
    }
}

proof fn lemma_entries_get_skip(m: Seq<(String, Json)>, key: Seq<char>, i: int)
    requires
        0 <= i <= m.len(),
        forall|k: int| 0 <= k < i ==> (#[trigger] m[k].0@) != key,
    ensures
        entries_get(m, key) == entries_get(m.skip(i), key),
    decreases i,
{
    if i > 0 {
        lemma_entries_get_skip(m.drop_first(), key, i - 1);
        assert(m.drop_first().skip(i - 1) =~= m.skip(i));
    } else {
        assert(m.skip(0) =~= m);
    }
}

/// Character-by-character string equality check.
pub fn str_eq(a: &str, b: &str) -> (r: bool)
    ensures
        r == (a@ == b@),
{
    let alen: usize = a.unicode_len();
    let blen: usize = b.unicode_len();
    if alen != blen {
        return false;
    }
    let mut i: usize = 0;
    while i < alen
        invariant
            alen == a@.len(),
            blen == b@.len(),
            alen == blen,
            0 <= i <= alen,
            forall|k: int| 0 <= k < i ==> a@[k] == b@[k],
        decreases alen - i,
    {
        if a.get_char(i) != b.get_char(i) {
            return false;
        }
        i += 1;
    }
    proof {
        assert(a@ =~= b@);
    }
    true
}

/// Character-by-character strict lexicographic comparison.
pub fn str_less(a: &str, b: &str) -> (r: bool)
    ensures
        r == str_lt(a@, b@),
{
    let alen: usize = a.unicode_len();
    let blen: usize = b.unicode_len();
    let mut i: usize = 0;
    proof {
        assert(a@.skip(0) =~= a@);
        assert(b@.skip(0) =~= b@);
    }
    loop
        invariant
            alen == a@.len(),
            blen == b@.len(),
            0 <= i <= alen,
            i <= blen,
            forall|k: int| 0 <= k < i ==> a@[k] == b@[k],
            str_lt(a@, b@) == str_lt(a@.skip(i as int), b@.skip(i as int)),
        decreases alen - i,
    {
        if i == alen || i == blen {
            return i == alen && i < blen;
        }
        let ca = a.get_char(i);
        let cb = b.get_char(i);
        if ca != cb {
            return (ca as u32) < (cb as u32);
        }
        proof {
            lemma_str_lt_step(a@, b@, i as int);
        }
        i += 1;
    }
}

proof fn lemma_str_lt_step(a: Seq<char>, b: Seq<char>, i: int)
    requires
        0 <= i < a.len(),
        i < b.len(),
        a[i] == b[i],
    ensures
        str_lt(a.skip(i), b.skip(i)) == str_lt(a.skip(i + 1), b.skip(i + 1)),
{
    assert(a.skip(i).drop_first() =~= a.skip(i + 1));
    assert(b.skip(i).drop_first() =~= b.skip(i + 1));
    assert(a.skip(i)[0] == a[i]);
    assert(b.skip(i)[0] == b[i]);
}

/// Looks `key` up in `j`, returning the value when `j` is an object that
/// contains it.
pub fn obj_get<'a>(j: &'a Json, key: &str) -> (r: Option<&'a Json>)
    ensures
        match r {
            Option::Some(v) => json_get(*j, key@) == Option::Some(*v),
            Option::None => json_get(*j, key@) is None,
        },
{
    match j {
        Json::Obj(m) => {
            let n: usize = m.len();
            let mut i: usize = 0;
            while i < n
                invariant
                    *j == Json::Obj(*m),
                    n == m@.len(),
                    0 <= i <= n,
                    forall|k: int| 0 <= k < i ==> (#[trigger] m@[k].0@) != key@,
                decreases n - i,
            {
                if str_eq(m[i].0.as_str(), key) {
                    proof {
                        assert(*j == Json::Obj(*m));
                        lemma_entries_get_skip(m@, key@, i as int);
                        assert(m@.skip(i as int).len() == n - i);
                        assert(m@.skip(i as int)[0] == m@[i as int]);
                        assert(entries_get(m@.skip(i as int), key@) == Option::Some(
                            m@[i as int].1,
                        ));
                    }
                    return Option::Some(&m[i].1);
                }
                i += 1;
            }
            proof {
                lemma_entries_get_skip(m@, key@, n as int);
            }
            Option::None
        },
        _ => Option::None,
    }
}

/// Decides [`wf`]: every object in the tree has strictly increasing keys.
pub fn is_wf(j: &Json) -> (r: bool)
    ensures
        r == wf(*j),
    decreases *j,
{
    match j {
        Json::Arr(v) => {
            let n: usize = v.len();
            let mut i: usize = 0;
            while i < n
                invariant
                    *j == Json::Arr(*v),
                    n == v@.len(),
                    0 <= i <= n,
                    forall|k: int| 0 <= k < i ==> wf(#[trigger] v@[k]),
                decreases n - i,
            {
                proof {
                    let jv = *j;
                    assert(jv->Arr_0 == *v);
                    assert(decreases_to!(jv => jv->Arr_0));
                    assert(decreases_to!(jv->Arr_0 => jv->Arr_0@));
                    assert(decreases_to!(jv->Arr_0@ => jv->Arr_0@[i as int]));
                    assert(decreases_to!(jv => v@[i as int]));
                }
                if !is_wf(&v[i]) {
                    proof {
                        assert(!wf(v@[i as int]));
                        assert(!wf(Json::Arr(*v)));
                    }
                    return false;
                }
                i += 1;
            }
            true
        },
        Json::Obj(m) => {
            let n: usize = m.len();
            let mut i: usize = 0;
            while i < n
                invariant
                    *j == Json::Obj(*m),
                    n == m@.len(),
                    0 <= i <= n,
                    forall|k: int| 0 <= k < i ==> wf(#[trigger] m@[k].1),
                decreases n - i,
            {
                proof {
                    let jv = *j;
                    assert(jv->Obj_0 == *m);
                    assert(decreases_to!(jv => jv->Obj_0));
                    assert(decreases_to!(jv->Obj_0 => jv->Obj_0@));
                    assert(decreases_to!(jv->Obj_0@ => jv->Obj_0@[i as int]));
                    assert(decreases_to!(jv->Obj_0@[i as int] => jv->Obj_0@[i as int].1));
                    assert(decreases_to!(jv => m@[i as int].1));
                }
                if !is_wf(&m[i].1) {
                    proof {
                        assert(!wf(m@[i as int].1));
                        assert((Json::Obj(*m))->Obj_0 == *m);
                        assert(!wf(Json::Obj(*m)));
                    }
                    return false;
                }
                i += 1;
            }
            let mut p: usize = 1;
            while p < n
                invariant
                    *j == Json::Obj(*m),
                    n == m@.len(),
                    1 <= p <= n || n == 0,
                    forall|k: int| 0 <= k < n ==> wf(#[trigger] m@[k].1),
                    forall|i2: int, k: int|
                        #![trigger m@[i2], m@[k]]
                        0 <= i2 < k < p ==> str_lt(m@[i2].0@, m@[k].0@),
                decreases n - p,
            {
                if !str_less(m[p - 1].0.as_str(), m[p].0.as_str()) {
                    proof {
                        assert(!str_lt(m@[p as int - 1].0@, m@[p as int].0@));
                        assert((Json::Obj(*m))->Obj_0 == *m);
                        assert(!wf(Json::Obj(*m)));
                    }
                    return false;
                }
                proof {
                    assert forall|i2: int|
                        0 <= i2 < p implies str_lt((#[trigger] m@[i2]).0@, m@[p as int].0@) by {
                        if i2 < p - 1 {
                            lemma_str_lt_trans(m@[i2].0@, m@[p - 1].0@, m@[p as int].0@);
                        }
                    }
                }
                p += 1;
            }
            true
        },
        _ => true,
    }
}

} // verus!
