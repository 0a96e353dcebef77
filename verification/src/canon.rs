//! Canonical JSON serialization.
//!
//! The byte layout signed by Content-Signature must be bit-for-bit
//! reproducible: object keys strictly sorted, no insignificant whitespace,
//! integers in plain decimal, strings minimally escaped with lowercase
//! hexadecimal `\u` escapes for control and non-ASCII characters. The spec
//! functions here define that layout exactly, and the exec serializer is
//! proved to produce it.

use vstd::prelude::*;

use crate::json::Json;

verus! {

broadcast use vstd::std_specs::vec::group_vec_axioms;

/// Lowercase hexadecimal digit as an ASCII byte.
pub open spec fn hex_digit(d: nat) -> u8
    recommends
        d < 16,
{
    if d < 10 {
        (0x30 + d) as u8
    } else {
        (0x57 + d) as u8
    }
}

/// Four lowercase hexadecimal digits of a code unit below 0x10000.
pub open spec fn hex4(x: nat) -> Seq<u8>
    recommends
        x < 0x10000,
{
    seq![
        hex_digit(x / 0x1000 % 16),
        hex_digit(x / 0x100 % 16),
        hex_digit(x / 0x10 % 16),
        hex_digit(x % 16),
    ]
}

/// The escaped form of one character inside a canonical JSON string: quote
/// and backslash escaped, the named control escapes, other control
/// characters as `\u00..`, printable ASCII kept literal, and every other
/// character as a `\u....` escape (a surrogate pair beyond the basic plane).
pub open spec fn escape_char(c: char) -> Seq<u8> {
    let n = c as u32;
    if n == 0x22 {
        seq![0x5cu8, 0x22u8]
    } else if n == 0x5c {
        seq![0x5cu8, 0x5cu8]
    } else if n == 0x08 {
        seq![0x5cu8, 0x62u8]
    } else if n == 0x09 {
        seq![0x5cu8, 0x74u8]
    } else if n == 0x0a {
        seq![0x5cu8, 0x6eu8]
    } else if n == 0x0c {
        seq![0x5cu8, 0x66u8]
    } else if n == 0x0d {
        seq![0x5cu8, 0x72u8]
    } else if n < 0x20 {
        seq![0x5cu8, 0x75u8, 0x30u8, 0x30u8] + seq![
            hex_digit((n as nat) / 16),
            hex_digit((n as nat) % 16),
        ]
    } else if n < 0x7f {
        seq![n as u8]
    } else if n < 0x10000 {
        seq![0x5cu8, 0x75u8] + hex4(n as nat)
    } else {
        let r = (n - 0x10000) as nat;
        seq![0x5cu8, 0x75u8] + hex4(0xd800 + r / 0x400) + seq![0x5cu8, 0x75u8] + hex4(
            0xdc00 + r % 0x400,
        )
    }
}

/// Escaped form of a whole string, character by character.
pub open spec fn escaped(s: Seq<char>) -> Seq<u8>
    decreases s.len(),
{
    if s.len() == 0 {
        Seq::empty()
    } else {
        escaped(s.drop_last()) + escape_char(s.last())
    }
}

/// A canonical JSON string: the escaped characters between double quotes.
pub open spec fn quoted(s: Seq<char>) -> Seq<u8> {
    seq![0x22u8] + escaped(s) + seq![0x22u8]
}

/// Decimal digits of an unsigned integer, most significant first.
pub open spec fn dec_digits(x: nat) -> Seq<u8>
    decreases x,
{
    if x < 10 {
        seq![(0x30 + x) as u8]
    } else {
        dec_digits(x / 10) + seq![(0x30 + x % 10) as u8]
    }
}

/// Canonical decimal form of a signed integer.
pub open spec fn dec_int(x: int) -> Seq<u8> {
    if x < 0 {
        seq![0x2du8] + dec_digits((-x) as nat)
    } else {
        dec_digits(x as nat)
    }
}

/// Canonical serialization of a JSON value. Objects are serialized in stored
/// entry order; a well-formed value keeps that order strictly sorted by key.
pub open spec fn canon(j: Json) -> Seq<u8>
    decreases j,
    via canon_decreases
{
    match j {
        Json::Null => seq![0x6eu8, 0x75u8, 0x6cu8, 0x6cu8],
        Json::Bool(b) => if b {
            seq![0x74u8, 0x72u8, 0x75u8, 0x65u8]
        } else {
            seq![0x66u8, 0x61u8, 0x6cu8, 0x73u8, 0x65u8]
        },
        Json::Int(x) => dec_int(x as int),
        Json::Str(s) => quoted(s@),
        Json::Arr(v) => seq![0x5bu8] + canon_elems(v@) + seq![0x5du8],
        Json::Obj(m) => seq![0x7bu8] + canon_members(m@) + seq![0x7du8],
    }
}

/// Comma-separated canonical serializations of array elements.
pub open spec fn canon_elems(s: Seq<Json>) -> Seq<u8>
    decreases s,
    via canon_elems_decreases
{
    if s.len() == 0 {
        Seq::empty()
    } else if s.len() == 1 {
        canon(s[0])
    } else {
        canon_elems(s.drop_last()) + seq![0x2cu8] + canon(s.last())
    }
}

/// Comma-separated `"key":value` serializations of object entries.
pub open spec fn canon_members(ms: Seq<(String, Json)>) -> Seq<u8>
    decreases ms,
    via canon_members_decreases
{
    if ms.len() == 0 {
        Seq::empty()
    } else if ms.len() == 1 {
        quoted(ms[0].0@) + seq![0x3au8] + canon(ms[0].1)
    } else {
        canon_members(ms.drop_last()) + seq![0x2cu8] + quoted(ms.last().0@) + seq![0x3au8]
            + canon(ms.last().1)
    }
}

#[via_fn]
proof fn canon_decreases(j: Json) {
    match j {
        Json::Arr(v) => {
            assert(decreases_to!(j => j->Arr_0));
            assert(decreases_to!(j->Arr_0 => j->Arr_0@));
            assert(decreases_to!(j => v@));
        },
        Json::Obj(m) => {
            assert(decreases_to!(j => j->Obj_0));
            assert(decreases_to!(j->Obj_0 => j->Obj_0@));
            assert(decreases_to!(j => m@));
        },
        _ => {},
    }
}

#[via_fn]
proof fn canon_elems_decreases(s: Seq<Json>) {
    if s.len() > 1 {
        assert(decreases_to!(s => s[s.len() - 1]));
        assert(s.drop_last() == s.subrange(0, s.len() - 1));
        assert(decreases_to!(s => s.subrange(0, s.len() - 1)));
    }
}

#[via_fn]
proof fn canon_members_decreases(ms: Seq<(String, Json)>) {
    if ms.len() == 1 {
        assert(decreases_to!(ms => ms[0]));
        assert(decreases_to!(ms[0] => ms[0].1));
    } else if ms.len() > 1 {
        assert(decreases_to!(ms => ms[ms.len() - 1]));
        assert(decreases_to!(ms[ms.len() - 1] => ms[ms.len() - 1].1));
        assert(ms.drop_last() == ms.subrange(0, ms.len() - 1));
        assert(decreases_to!(ms => ms.subrange(0, ms.len() - 1)));
    }
}

fn hex_digit_byte(d: u8) -> (r: u8)
    requires
        d < 16,
    ensures
        r == hex_digit(d as nat),
{
    if d < 10 {
        0x30 + d
    } else {
        0x57 + d
    }
}

fn push_hex4(out: &mut Vec<u8>, x: u32)
    requires
        x < 0x10000,
    ensures
        final(out)@ == old(out)@ + seq![0x5cu8, 0x75u8] + hex4(x as nat),
{
    out.push(0x5c);
    out.push(0x75);
    out.push(hex_digit_byte((x / 0x1000 % 16) as u8));
    out.push(hex_digit_byte((x / 0x100 % 16) as u8));
    out.push(hex_digit_byte((x / 0x10 % 16) as u8));
    out.push(hex_digit_byte((x % 16) as u8));
    proof {
        assert(out@ =~= old(out)@ + seq![0x5cu8, 0x75u8] + hex4(x as nat));
    }
}

/// Appends the escaped form of one character.
fn push_escaped_char(out: &mut Vec<u8>, c: char)
    ensures
        final(out)@ == old(out)@ + escape_char(c),
{
    let n: u32 = c as u32;
    if n == 0x22 {
        out.push(0x5c);
        out.push(0x22);
    } else if n == 0x5c {
        out.push(0x5c);
        out.push(0x5c);
    } else if n == 0x08 {
        out.push(0x5c);
        out.push(0x62);
    } else if n == 0x09 {
        out.push(0x5c);
        out.push(0x74);
    } else if n == 0x0a {
        out.push(0x5c);
        out.push(0x6e);
    } else if n == 0x0c {
        out.push(0x5c);
        out.push(0x66);
    } else if n == 0x0d {
        out.push(0x5c);
        out.push(0x72);
    } else if n < 0x20 {
        out.push(0x5c);
        out.push(0x75);
        out.push(0x30);
        out.push(0x30);
        out.push(hex_digit_byte((n / 16) as u8));
        out.push(hex_digit_byte((n % 16) as u8));
    } else if n < 0x7f {
        out.push(n as u8);
    } else if n < 0x10000 {
        push_hex4(out, n);
    } else {
        let r: u32 = n - 0x10000;
        push_hex4(out, 0xd800 + r / 0x400);
        push_hex4(out, 0xdc00 + r % 0x400);
    }
    proof {
        assert(out@ =~= old(out)@ + escape_char(c));
    }
}

/// Appends a canonical JSON string: quotes around the escaped characters.
pub fn push_quoted(out: &mut Vec<u8>, s: &str)
    ensures
        final(out)@ == old(out)@ + quoted(s@),
{
    out.push(0x22);
    let n: usize = s.unicode_len();
    let mut i: usize = 0;
    while i < n
        invariant
            n == s@.len(),
            0 <= i <= n,
            out@ == old(out)@ + seq![0x22u8] + escaped(s@.take(i as int)),
        decreases n - i,
    {
        let c = s.get_char(i);
        push_escaped_char(out, c);
        proof {
            assert(s@.take(i + 1).drop_last() =~= s@.take(i as int));
            assert(s@.take(i + 1).last() == s@[i as int]);
            assert(out@ =~= old(out)@ + seq![0x22u8] + escaped(s@.take(i + 1)));
        }
        i += 1;
    }
    out.push(0x22);
    proof {
        assert(s@.take(n as int) =~= s@);
        assert(out@ =~= old(out)@ + quoted(s@));
    }
}

/// Appends the decimal digits of an unsigned integer.
pub fn push_u64_decimal(out: &mut Vec<u8>, x: u64)
    ensures
        final(out)@ == old(out)@ + dec_digits(x as nat),
{
    let mut digits: Vec<u8> = Vec::new();
    let mut m: u64 = x;
    while m >= 10
        invariant
            dec_digits(x as nat) == dec_digits(m as nat) + digits@,
        decreases m,
    {
        let ghost pre = digits@;
        let d: u8 = 0x30 + (m % 10) as u8;
        digits.insert(0, d);
        proof {
            assert(digits@ =~= seq![d] + pre);
            assert(dec_digits(m as nat) == dec_digits((m as nat) / 10) + seq![d]);
            assert(dec_digits((m as nat) / 10) + (seq![d] + pre) =~= (dec_digits((m as nat) / 10)
                + seq![d]) + pre);
            assert((m / 10) as nat == (m as nat) / 10);
        }
        m = m / 10;
    }
    let ghost pre = digits@;
    let d: u8 = 0x30 + (m % 10) as u8;
    digits.insert(0, d);
    proof {
        assert(m < 10);
        assert(dec_digits(m as nat) == seq![d]);
        assert(digits@ =~= seq![d] + pre);
        assert(dec_digits(x as nat) =~= digits@);
    }
    out.append(&mut digits);
}

/// Appends the canonical decimal form of a signed integer.
pub fn push_i64_decimal(out: &mut Vec<u8>, x: i64)
    ensures
        final(out)@ == old(out)@ + dec_int(x as int),
{
    if x >= 0 {
        push_u64_decimal(out, x as u64);
    } else {
        out.push(0x2d);
        let ghost mid = out@;
        let m: u64 = if x == i64::MIN {
            9223372036854775808u64
        } else {
            (-x) as u64
        };
        proof {
            assert(m as nat == (-(x as int)) as nat);
        }
        push_u64_decimal(out, m);
        proof {
            assert(mid =~= old(out)@ + seq![0x2du8]);
            assert(out@ =~= old(out)@ + dec_int(x as int));
        }
    }
}

/// Appends the canonical serialization of a JSON value.
pub fn push_canon(out: &mut Vec<u8>, j: &Json)
    ensures
        final(out)@ == old(out)@ + canon(*j),
    decreases *j,
{
    match j {
        Json::Null => {
            out.push(0x6e);
            out.push(0x75);
            out.push(0x6c);
            out.push(0x6c);
            proof {
                assert(out@ =~= old(out)@ + canon(*j));
            }
        },
        Json::Bool(b) => {
            if *b {
                out.push(0x74);
                out.push(0x72);
                out.push(0x75);
                out.push(0x65);
            } else {
                out.push(0x66);
                out.push(0x61);
                out.push(0x6c);
                out.push(0x73);
                out.push(0x65);
            }
            proof {
                assert(out@ =~= old(out)@ + canon(*j));
            }
        },
        Json::Int(x) => {
            push_i64_decimal(out, *x);
        },
        Json::Str(s) => {
            push_quoted(out, s.as_str());
        },
        Json::Arr(v) => {
            out.push(0x5b);
            let n: usize = v.len();
            let mut i: usize = 0;
            while i < n
                invariant
                    *j == Json::Arr(*v),
                    n == v@.len(),
                    0 <= i <= n,
                    out@ == old(out)@ + seq![0x5bu8] + canon_elems(v@.take(i as int)),
                decreases n - i,
            {
                if i > 0 {
                    out.push(0x2c);
                }
                proof {
                    let jv = *j;
                    assert(jv->Arr_0 == *v);
                    assert(decreases_to!(jv => jv->Arr_0));
                    assert(decreases_to!(jv->Arr_0 => jv->Arr_0@));
                    assert(decreases_to!(jv->Arr_0@ => jv->Arr_0@[i as int]));
                    assert(decreases_to!(jv => v@[i as int]));
                }
                push_canon(out, &v[i]);
                proof {
                    assert(v@.take(i + 1).drop_last() =~= v@.take(i as int));
                    assert(v@.take(i + 1).last() == v@[i as int]);
                    assert(out@ =~= old(out)@ + seq![0x5bu8] + canon_elems(v@.take(i + 1)));
                }
                i += 1;
            }
            out.push(0x5d);
            proof {
                assert(v@.take(n as int) =~= v@);
                assert(out@ =~= old(out)@ + canon(*j));
            }
        },
        Json::Obj(m) => {
            out.push(0x7b);
            let n: usize = m.len();
            let mut i: usize = 0;
            while i < n
                invariant
                    *j == Json::Obj(*m),
                    n == m@.len(),
                    0 <= i <= n,
                    out@ == old(out)@ + seq![0x7bu8] + canon_members(m@.take(i as int)),
                decreases n - i,
            {
                if i > 0 {
                    out.push(0x2c);
                }
                push_quoted(out, m[i].0.as_str());
                out.push(0x3a);
                proof {
                    let jv = *j;
                    assert(jv->Obj_0 == *m);
                    assert(decreases_to!(jv => jv->Obj_0));
                    assert(decreases_to!(jv->Obj_0 => jv->Obj_0@));
                    assert(decreases_to!(jv->Obj_0@ => jv->Obj_0@[i as int]));
                    assert(decreases_to!(jv->Obj_0@[i as int] => jv->Obj_0@[i as int].1));
                    assert(decreases_to!(jv => m@[i as int].1));
                }
                push_canon(out, &m[i].1);
                proof {
                    assert(m@.take(i + 1).drop_last() =~= m@.take(i as int));
                    assert(m@.take(i + 1).last() == m@[i as int]);
                    assert(out@ =~= old(out)@ + seq![0x7bu8] + canon_members(m@.take(i + 1)));
                }
                i += 1;
            }
            out.push(0x7d);
            proof {
                assert(m@.take(n as int) =~= m@);
                assert(out@ =~= old(out)@ + canon(*j));
            }
        },
    }
}

/// The canonical serialization of a JSON value as a fresh byte vector.
pub fn to_canonical_bytes(j: &Json) -> (out: Vec<u8>)
    ensures
        out@ == canon(*j),
{
    let mut out: Vec<u8> = Vec::new();
    push_canon(&mut out, j);
    proof {
        assert(out@ =~= canon(*j));
    }
    out
}

} // verus!
