//! The protobuf wire form of a `Value`, as a stored value is kept in bytes.
use vstd::prelude::*;
use vstd::string::StringExecFns;
use crate::error::KvError;
use crate::pb::abi::{Value, ValueView};
use crate::pb::abi::value;

verus! {

/// The base-128 little-endian varint of `v`, as protobuf writes it.
pub open spec fn varint(v: u64) -> Seq<u8>
    decreases v,
{
    if v < 128 {
        seq![v as u8]
    } else {
        seq![(v % 128 + 128) as u8] + varint(v / 128)
    }
}

/// The number that base-128 digits stand for, low digit first; the high bit of
/// each byte is ignored.
pub open spec fn base128(s: Seq<u8>) -> nat
    decreases s.len(),
{
    if s.len() == 0 {
        0
    } else {
        (s[0] % 128) as nat + 128 * base128(s.drop_first())
    }
}

/// `128` to the power `k`.
pub open spec fn pow128(k: nat) -> nat
    decreases k,
{
    if k == 0 {
        1
    } else {
        128 * pow128((k - 1) as nat)
    }
}

/// The protobuf encoding of a `Value`: the set field of its oneof, or nothing.
pub open spec fn value_bytes(v: Option<ValueView>) -> Seq<u8> {
    match v {
        None => Seq::empty(),
        Some(ValueView::String(s)) => {
            let u = vstd::utf8::encode_utf8(s);
            seq![10u8] + varint(u.len() as u64) + u
        },
        Some(ValueView::Binary(b)) => seq![18u8] + varint(b.len() as u64) + b,
        Some(ValueView::Integer(i)) => seq![24u8] + varint(i as u64),
        Some(ValueView::Float(f)) => seq![33u8] + vstd::bytes::spec_u64_to_le_bytes(f),
        Some(ValueView::Bool(b)) => seq![40u8, if b { 1u8 } else { 0u8 }],
    }
}

/// Where the varint at the start of `b` ends, looking on from its `k`-th
/// byte: just after the first byte below 128, if one comes among the first ten.
pub open spec fn varint_end(b: Seq<u8>, k: nat) -> Option<nat>
    decreases 10 - k,
{
    if k >= 10 || k >= b.len() {
        None
    } else if b[k as int] < 128 {
        Some(k + 1)
    } else {
        varint_end(b, k + 1)
    }
}

/// The varint at the start of `b` as protobuf readers take it: its value and
/// how many bytes it takes. It is at most ten bytes long, and its tenth byte
/// may only carry the top bit of the value.
pub open spec fn varint_at(b: Seq<u8>) -> Option<(u64, nat)> {
    match varint_end(b, 0) {
        None => None,
        Some(n) => if n == 10 && b[9] >= 2 {
            None
        } else {
            Some((base128(b.take(n as int)) as u64, n))
        },
    }
}

/// What is left of `data` once prost's `skip_field` has passed over one field
/// of wire type `wire` and number `tag` at its start (a group with all that it
/// nests), as the length of the rest; none where prost finds no such field.
pub uninterp spec fn prost_skip_rest(wire: u64, tag: u32, data: Seq<u8>) -> Option<usize>;

/// One field of a `Value` with number `tag` (one to five) and wire type
/// `wire`, read from the start of `rest` as prost reads it: the value it sets
/// and how many bytes it takes.
pub open spec fn field_at(tag: u64, wire: u64, rest: Seq<u8>) -> Option<(ValueView, nat)> {
    if tag == 1 || tag == 2 {
        if wire != 2 {
            None
        } else {
            match varint_at(rest) {
                None => None,
                Some((len, k)) => if k + len > rest.len() {
                    None
                } else {
                    let data = rest.subrange(k as int, k + len);
                    if tag == 2 {
                        Some((ValueView::Binary(data), k + len as nat))
                    } else if vstd::utf8::valid_utf8(data) {
                        Some((ValueView::String(vstd::utf8::decode_utf8(data)), k + len as nat))
                    } else {
                        None
                    }
                },
            }
        }
    } else if tag == 3 || tag == 5 {
        if wire != 0 {
            None
        } else {
            match varint_at(rest) {
                None => None,
                Some((x, k)) => if tag == 3 {
                    Some((ValueView::Integer(x as i64), k))
                } else {
                    Some((ValueView::Bool(x != 0), k))
                },
            }
        }
    } else if wire != 1 || rest.len() < 8 {
        None
    } else {
        Some((ValueView::Float(vstd::bytes::spec_u64_from_le_bytes(rest.take(8))), 8))
    }
}

/// The value that the fields in `b` leave, starting from `acc`, as prost's
/// decoder reads a `Value`: each field key is a varint of at most 32 bits
/// with a known wire type and a field number above zero; each field of the
/// oneof replaces the value so far; any other field is skipped; and bytes
/// that do not read so give none.
pub open spec fn decode_fields(b: Seq<u8>, acc: Option<ValueView>) -> Option<Option<ValueView>>
    decreases b.len(),
{
    if b.len() == 0 {
        Some(acc)
    } else {
        match varint_at(b) {
            None => None,
            Some((key, n)) => {
                proof {
                    lemma_varint_at_bounds(b);
                }
                let rest = b.skip(n as int);
                let wire = key % 8;
                let tag = key / 8;
                if key > 0xffff_ffff || wire >= 6 || tag == 0 {
                    None
                } else if tag <= 5 {
                    match field_at(tag, wire, rest) {
                        None => None,
                        Some((v, m)) => {
                            proof {
                                lemma_field_at_bounds(tag, wire, rest);
                            }
                            decode_fields(rest.skip(m as int), Some(v))
                        },
                    }
                } else {
                    match prost_skip_rest(wire, tag as u32, rest) {
                        None => None,
                        Some(left) => if left <= rest.len() {
                            decode_fields(rest.skip(rest.len() - left), acc)
                        } else {
                            None
                        },
                    }
                }
            },
        }
    }
}

/// The value that `b` decodes to as a `Value` message, if it decodes.
pub open spec fn decoded(b: Seq<u8>) -> Option<Option<ValueView>> {
    decode_fields(b, None)
}

/// The value that stored bytes stand for: the value they decode to, or the
/// empty value where they do not decode.
pub open spec fn stored_value(b: Seq<u8>) -> Option<ValueView> {
    match decoded(b) {
        Some(v) => v,
        None => None,
    }
}

/// Whether `b` decodes to a value.
pub open spec fn is_value_bytes(b: Seq<u8>) -> bool {
    decoded(b) is Some
}

/// A varint that reads takes at least one byte and at most ten, all in `b`.
pub proof fn lemma_varint_at_bounds(b: Seq<u8>)
    ensures
        varint_at(b) matches Some((v, n)) ==> 1 <= n <= b.len() && n <= 10,
{
    lemma_varint_end_bounds(b, 0);
}

pub proof fn lemma_varint_end_bounds(b: Seq<u8>, k: nat)
    ensures
        varint_end(b, k) matches Some(n) ==> k < n <= b.len() && n <= 10 && b[n - 1] < 128 && forall|j: int|
            k <= j < n - 1 ==> b[j] >= 128,
    decreases 10 - k,
{
    if k < 10 && k < b.len() && b[k as int] >= 128 {
        lemma_varint_end_bounds(b, k + 1);
    }
}

/// A field that reads takes no more than the bytes there are.
pub proof fn lemma_field_at_bounds(tag: u64, wire: u64, rest: Seq<u8>)
    ensures
        field_at(tag, wire, rest) matches Some((v, m)) ==> m <= rest.len(),
{
    lemma_varint_at_bounds(rest);
}

proof fn lemma_varint_shape(v: u64)
    ensures
        1 <= varint(v).len(),
        forall|k: int| 0 <= k < varint(v).len() - 1 ==> #[trigger] varint(v)[k] >= 128,
        varint(v)[varint(v).len() - 1] < 128,
        v < pow128((varint(v).len() - 1) as nat) * 128,
        v >= 128 ==> v >= pow128((varint(v).len() - 1) as nat),
    decreases v,
{
    if v >= 128 {
        lemma_varint_shape(v / 128);
        let t = varint(v / 128);
        assert(varint(v) == seq![(v % 128 + 128) as u8] + t);
        assert forall|k: int| 0 <= k < varint(v).len() - 1 implies #[trigger] varint(v)[k] >= 128 by {
            if k > 0 {
                assert(varint(v)[k] == t[k - 1]);
            }
        }
        let n = (t.len() - 1) as nat;
        assert(pow128(n + 1) == 128 * pow128(n));
        if v / 128 >= 128 {
        } else {
            assert(n == 0);
        }
    }
}

proof fn lemma_varint_len(v: u64)
    ensures
        varint(v).len() <= 10,
{
    lemma_varint_shape(v);
    let n = (varint(v).len() - 1) as nat;
    if n >= 10 {
        reveal_with_fuel(pow128, 11);
        lemma_pow128_mono(10, n);
        assert(pow128(10) == 1180591620717411303424);
    }
}

proof fn lemma_pow128_mono(a: nat, b: nat)
    requires
        a <= b,
    ensures
        pow128(a) <= pow128(b),
    decreases b,
{
    if a < b {
        lemma_pow128_mono(a, (b - 1) as nat);
        assert(pow128(b) == 128 * pow128((b - 1) as nat));
    }
}

proof fn lemma_base128_varint(v: u64)
    ensures
        base128(varint(v)) == v,
    decreases v,
{
    if v < 128 {
        assert(varint(v).drop_first() =~= Seq::<u8>::empty());
        assert(base128(Seq::<u8>::empty()) == 0);
    } else {
        lemma_base128_varint(v / 128);
        let s = varint(v);
        assert(s.drop_first() == varint(v / 128));
        assert(s[0] == (v % 128 + 128) as u8);
        assert((s[0] % 128) as nat == v % 128);
        assert(v == v % 128 + 128 * (v / 128));
    }
}

/// No varint is a proper start of another: a varint followed by anything
/// determines both the number and what follows.
proof fn lemma_varint_prefix_free(a: u64, b: u64, x: Seq<u8>, y: Seq<u8>)
    requires
        varint(a) + x == varint(b) + y,
    ensures
        a == b,
        x == y,
    decreases a,
{
    let l = varint(a) + x;
    let r = varint(b) + y;
    assert(l[0] == varint(a)[0]);
    assert(r[0] == varint(b)[0]);
    if a < 128 {
        if b >= 128 {
            assert(varint(b)[0] >= 128);
        }
        assert(x =~= l.drop_first());
        assert(y =~= r.drop_first());
    } else {
        if b < 128 {
            assert(varint(a)[0] >= 128);
        }
        assert(varint(a) == seq![(a % 128 + 128) as u8] + varint(a / 128));
        assert(varint(b) == seq![(b % 128 + 128) as u8] + varint(b / 128));
        assert(l.drop_first() =~= varint(a / 128) + x);
        assert(r.drop_first() =~= varint(b / 128) + y);
        lemma_varint_prefix_free(a / 128, b / 128, x, y);
        assert(a % 128 == b % 128);
    }
}

/// The first byte of the encoding of a set value.
pub open spec fn tag_of(v: ValueView) -> u8 {
    match v {
        ValueView::String(_) => 10,
        ValueView::Binary(_) => 18,
        ValueView::Integer(_) => 24,
        ValueView::Float(_) => 33,
        ValueView::Bool(_) => 40,
    }
}

/// Different values have different encodings.
pub proof fn lemma_value_bytes_injective(a: Option<ValueView>, b: Option<ValueView>)
    requires
        value_bytes(a) == value_bytes(b),
    ensures
        a == b,
{
    let ea = value_bytes(a);
    let eb = value_bytes(b);
    if a is None || b is None {
        if a is Some {
            assert(ea.len() > 0);
        }
        if b is Some {
            assert(eb.len() > 0);
        }
    } else {
        assert(ea[0] == eb[0]);
        assert(ea[0] == tag_of(a.unwrap()));
        assert(eb[0] == tag_of(b.unwrap()));
        match (a.unwrap(), b.unwrap()) {
            (ValueView::String(s), ValueView::String(t)) => {
                let us = vstd::utf8::encode_utf8(s);
                let ut = vstd::utf8::encode_utf8(t);
                assert(ea.drop_first() =~= varint(us.len() as u64) + us);
                assert(eb.drop_first() =~= varint(ut.len() as u64) + ut);
                lemma_varint_prefix_free(us.len() as u64, ut.len() as u64, us, ut);
                vstd::utf8::encode_utf8_decode_utf8(s);
                vstd::utf8::encode_utf8_decode_utf8(t);
                assert(s == t);
            },
            (ValueView::Binary(s), ValueView::Binary(t)) => {
                assert(ea.drop_first() =~= varint(s.len() as u64) + s);
                assert(eb.drop_first() =~= varint(t.len() as u64) + t);
                lemma_varint_prefix_free(s.len() as u64, t.len() as u64, s, t);
                assert(s == t);
            },
            (ValueView::Integer(i), ValueView::Integer(j)) => {
                assert(ea.drop_first() =~= varint(i as u64) + Seq::<u8>::empty());
                assert(eb.drop_first() =~= varint(j as u64) + Seq::<u8>::empty());
                lemma_varint_prefix_free(i as u64, j as u64, Seq::empty(), Seq::empty());
                assert((i as u64) == (j as u64) ==> i == j) by (bit_vector);
                assert(i == j);
            },
            (ValueView::Float(f), ValueView::Float(g)) => {
                assert(ea.drop_first() =~= vstd::bytes::spec_u64_to_le_bytes(f));
                assert(eb.drop_first() =~= vstd::bytes::spec_u64_to_le_bytes(g));
                vstd::bytes::lemma_auto_spec_u64_to_from_le_bytes();
                assert(f == g);
            },
            (ValueView::Bool(x), ValueView::Bool(y)) => {
                assert(ea[1] == eb[1]);
                assert(x == y);
            },
            _ => {},
        }
    }
}

/// Appends the varint of `v`.
fn push_varint(out: &mut Vec<u8>, v: u64)
    ensures
        final(out)@ == old(out)@ + varint(v),
{
    let mut x = v;
    while x >= 128
        invariant
            old(out)@ + varint(v) == out@ + varint(x),
        decreases x,
    {
        let ghost before = out@;
        out.push((x % 128 + 128) as u8);
        assert(varint(x) == seq![(x % 128 + 128) as u8] + varint(x / 128));
        assert(before + varint(x) =~= out@ + varint(x / 128));
        x = x / 128;
    }
    let ghost before = out@;
    out.push(x as u8);
    assert(before + varint(x) =~= out@);
}

/// Each byte adds its low seven bits, weighted by its place, to the number.
proof fn lemma_base128_take(s: Seq<u8>, k: int)
    requires
        0 <= k < s.len(),
    ensures
        base128(s.take(k + 1)) == base128(s.take(k)) + (s[k] % 128) as nat * pow128(k as nat),
    decreases k,
{
    let t = s.take(k + 1);
    assert(t.drop_first() =~= s.drop_first().take(k));
    assert(t[0] == s[0]);
    assert(base128(t) == (t[0] % 128) as nat + 128 * base128(t.drop_first()));
    if k == 0 {
        assert(s.take(0) =~= Seq::<u8>::empty());
        assert(s.drop_first().take(0) =~= Seq::<u8>::empty());
        assert(base128(Seq::<u8>::empty()) == 0);
        assert(pow128(0) == 1);
        let d0 = (s[k] % 128) as nat;
        assert(d0 * pow128(0) == d0) by (nonlinear_arith)
            requires
                pow128(0) == 1,
        ;
    } else {
        let s1 = s.drop_first();
        lemma_base128_take(s1, k - 1);
        let u = s.take(k);
        assert(u.drop_first() =~= s1.take(k - 1));
        assert(u[0] == s[0]);
        assert(base128(u) == (u[0] % 128) as nat + 128 * base128(u.drop_first()));
        let d = (s[k] % 128) as nat;
        assert(s1[k - 1] == s[k]);
        let p = pow128((k - 1) as nat);
        assert(pow128(k as nat) == 128 * p);
        assert(base128(s1.take(k)) == base128(s1.take(k - 1)) + d * p);
        assert(128 * (base128(s1.take(k - 1)) + d * p) == 128 * base128(s1.take(k - 1)) + d * (128 * p))
            by (nonlinear_arith);
        assert(d * pow128(k as nat) == d * (128 * p));
    }
}

/// The number that `t` stands for has fewer digits than `t` has bytes.
proof fn lemma_base128_bound(t: Seq<u8>)
    ensures
        base128(t) < pow128(t.len()),
    decreases t.len(),
{
    if t.len() > 0 {
        lemma_base128_bound(t.drop_first());
        let x = base128(t.drop_first());
        let p = pow128((t.len() - 1) as nat);
        assert(pow128(t.len()) == 128 * p);
        assert((t[0] % 128) as nat + 128 * x < 128 * p) by (nonlinear_arith)
            requires
                x < p,
                (t[0] % 128) < 128,
        ;
    }
}

/// Reads the varint that starts at `start`, as `varint_at` takes it.
fn read_varint(b: &[u8], start: usize) -> (r: Option<(u64, usize)>)
    requires
        start <= b@.len(),
    ensures
        match varint_at(b@.skip(start as int)) {
            None => r is None,
            Some((v, n)) => r == Some((v, n as usize)),
        },
{
    let ghost s = b@.skip(start as int);
    let mut k: usize = 0;
    let mut value: u64 = 0;
    let mut scale: u64 = 1;
    proof {
        reveal_with_fuel(pow128, 10);
        assert(s.take(0) =~= Seq::<u8>::empty());
        assert(base128(Seq::<u8>::empty()) == 0);
    }
    while k < 10 && k < b.len() - start
        invariant
            k <= 10,
            start <= b@.len(),
            s == b@.skip(start as int),
            forall|j: int| 0 <= j < k ==> s[j] >= 128,
            value as nat == base128(s.take(k as int)),
            k <= 9 ==> scale as nat == pow128(k as nat),
            varint_end(s, 0) == varint_end(s, k as nat),
            pow128(9) == 9223372036854775808,
            pow128(8) == 72057594037927936,
        decreases 10 - k,
    {
        let byte = b[start + k];
        let d = (byte % 128) as u64;
        proof {
            assert(s[k as int] == byte);
            lemma_base128_take(s, k as int);
            assert(s.take(k as int).len() == k);
            lemma_base128_bound(s.take(k as int));
            lemma_pow128_mono(k as nat, 9);
            assert(value < scale);
        }
        if k == 9 && byte >= 2 {
            return None;
        }
        if k == 9 {
            assert(value + d * scale < 18446744073709551616) by (nonlinear_arith)
                requires
                    value < 9223372036854775808u64,
                    d < 2,
                    scale == 9223372036854775808u64,
            ;
        } else {
            proof { lemma_pow128_mono(k as nat, 8); }
            assert(value + d * scale < 128 * scale) by (nonlinear_arith)
                requires
                    value < scale,
                    d < 128,
            ;
            assert(128 * scale <= 9223372036854775808);
        }
        assert(d * scale <= value + d * scale);
        let v = value + d * scale;
        if byte < 128 {
            assert(s.take((k + 1) as int).len() == k + 1);
            return Some((v, k + 1));
        }
        value = v;
        if k < 9 {
            proof {
                assert(pow128((k + 1) as nat) == 128 * pow128(k as nat));
            }
            scale = scale * 128;
        }
        k += 1;
    }
    None
}

/// A varint reads back as the number it was written for, from its whole length.
proof fn lemma_varint_at_varint(x: u64, rest: Seq<u8>)
    ensures
        varint_at(varint(x) + rest) == Some((x, varint(x).len())),
{
    let b = varint(x) + rest;
    let l = varint(x).len();
    lemma_varint_shape(x);
    lemma_varint_len(x);
    lemma_varint_end_exact(b, 0, l);
    assert(b.take(l as int) =~= varint(x));
    lemma_base128_varint(x);
    if l == 10 {
        reveal_with_fuel(pow128, 10);
        lemma_varint_last_byte(x, 2, 9);
        assert(b[9] == varint(x)[9]);
    }
}

proof fn lemma_varint_end_exact(b: Seq<u8>, k: nat, l: nat)
    requires
        k < l <= 10,
        l <= b.len(),
        forall|j: int| k <= j < l - 1 ==> b[j] >= 128,
        b[l - 1] < 128,
    ensures
        varint_end(b, k) == Some(l),
    decreases l - k,
{
    if k + 1 < l {
        lemma_varint_end_exact(b, k + 1, l);
    }
}

/// The last byte of a varint is below `bound` when the number is below
/// `bound` times the weight of that byte.
proof fn lemma_varint_last_byte(v: u64, bound: nat, j: nat)
    requires
        varint(v).len() == j + 1,
        v < bound * pow128(j),
    ensures
        varint(v)[j as int] < bound,
    decreases j,
{
    lemma_varint_shape(v);
    if j == 0 {
        assert(pow128(0) == 1);
        assert(bound * pow128(0) == bound) by (nonlinear_arith)
            requires
                pow128(0) == 1,
        ;
        assert(v < 128);
        assert(varint(v) == seq![v as u8]);
        assert(varint(v)[0] == v);
    } else {
        let w = v / 128;
        assert(varint(v) == seq![(v % 128 + 128) as u8] + varint(w));
        let p = pow128((j - 1) as nat);
        assert(pow128(j) == 128 * p);
        assert(w < bound * p) by (nonlinear_arith)
            requires
                v < bound * (128 * p),
                w == v / 128,
        ;
        lemma_varint_last_byte(w, bound, (j - 1) as nat);
        assert(varint(v)[j as int] == varint(w)[j - 1]);
    }
}

/// Calls `std::str::from_utf8`. Claimed, as its documentation says: it
/// answers `Some` exactly when `b` is valid UTF-8, and then the text that `b`
/// encodes (both as vstd's UTF-8 model defines them).
#[verifier::external_body]
pub(crate) fn utf8_text<'a>(b: &'a [u8]) -> (r: Option<&'a str>)
    ensures
        r is Some <==> vstd::utf8::valid_utf8(b@),
        r matches Some(s) ==> s@ == vstd::utf8::decode_utf8(b@),
{
    std::str::from_utf8(b).ok()
}

/// The encoding of `v`.
pub fn encode_value(v: &Value) -> (r: Vec<u8>)
    ensures
        r@ == value_bytes(v@),
{
    let mut out: Vec<u8> = Vec::new();
    match &v.value {
        None => {},
        Some(value::Value::String(s)) => {
            let bytes = s.as_str().as_bytes();
            out.push(10u8);
            push_varint(&mut out, bytes.len() as u64);
            let mut tail = vstd::slice::slice_to_vec(bytes);
            out.append(&mut tail);
        },
        Some(value::Value::Binary(b)) => {
            out.push(18u8);
            push_varint(&mut out, b.len() as u64);
            let mut tail = vstd::slice::slice_to_vec(b.as_slice());
            out.append(&mut tail);
        },
        Some(value::Value::Integer(i)) => {
            out.push(24u8);
            push_varint(&mut out, *i as u64);
        },
        Some(value::Value::Float(f)) => {
            out.push(33u8);
            let mut tail = vstd::bytes::u64_to_le_bytes(*f);
            out.append(&mut tail);
        },
        Some(value::Value::Bool(b)) => {
            out.push(40u8);
            out.push(if *b { 1u8 } else { 0u8 });
        },
    }
    assert(out@ =~= value_bytes(v@));
    out
}

/// The error for bytes that hold no value.
fn bad_value_bytes() -> (e: KvError)
    ensures
        e is DecodeError,
{
    KvError::DecodeError(String::from_str("invalid Value bytes"))
}

/// Calls `prost::encoding::skip_field` on `data` with a fresh decode
/// context, as prost's message decoder does for a field it does not know.
/// Claimed: the answer is `prost_skip_rest(wire, tag, data)`, a result of the
/// arguments alone, and what is left is no longer than `data`.
#[verifier::external_body]
fn skip_unknown_field(wire: u64, tag: u32, data: &[u8]) -> (r: Option<usize>)
    requires
        wire < 6,
    ensures
        r == prost_skip_rest(wire, tag, data@),
        r matches Some(left) ==> left <= data@.len(),
{
    let mut rest = data;
    let wire_type = prost::encoding::WireType::try_from(wire).ok()?;
    match prost::encoding::skip_field(wire_type, tag, &mut rest, prost::encoding::DecodeContext::default()) {
        Ok(()) => Some(rest.len()),
        Err(_) => None,
    }
}

/// Reads the field with number `tag` and wire type `wire` at `start`.
fn read_field(b: &[u8], start: usize, tag: u64, wire: u64) -> (r: Option<(Value, usize)>)
    requires
        start <= b@.len(),
        1 <= tag <= 5,
    ensures
        match field_at(tag, wire, b@.skip(start as int)) {
            None => r is None,
            Some((v, m)) => r matches Some((x, k)) && x@ == Some(v) && k == m,
        },
{
    let ghost rest = b@.skip(start as int);
    if tag == 1 || tag == 2 {
        if wire != 2 {
            return None;
        }
        let (len, k) = match read_varint(b, start) {
            Some(x) => x,
            None => {
                return None;
            },
        };
        proof {
            lemma_varint_at_bounds(rest);
        }
        let avail = b.len() - start - k;
        if len > avail as u64 {
            return None;
        }
        let end = start + k + len as usize;
        let data = vstd::slice::slice_subrange(b, start + k, end);
        assert(data@ =~= rest.subrange(k as int, k + len));
        if tag == 2 {
            let x = Value { value: Some(value::Value::Binary(vstd::slice::slice_to_vec(data))) };
            return Some((x, k + len as usize));
        }
        match utf8_text(data) {
            None => None,
            Some(text) => {
                let x = Value { value: Some(value::Value::String(text.to_owned())) };
                Some((x, k + len as usize))
            },
        }
    } else if tag == 3 || tag == 5 {
        if wire != 0 {
            return None;
        }
        proof {
            lemma_varint_at_bounds(rest);
        }
        match read_varint(b, start) {
            None => None,
            Some((x, k)) => if tag == 3 {
                Some((Value { value: Some(value::Value::Integer(x as i64)) }, k))
            } else {
                Some((Value { value: Some(value::Value::Bool(x != 0)) }, k))
            },
        }
    } else {
        if wire != 1 || b.len() - start < 8 {
            return None;
        }
        let bytes = vstd::slice::slice_subrange(b, start, start + 8);
        assert(bytes@ =~= rest.take(8));
        let x = vstd::bytes::u64_from_le_bytes(bytes);
        Some((Value { value: Some(value::Value::Float(x)) }, 8))
    }
}

/// The value that `b` decodes to as a `Value` message, read as prost reads
/// it, or an error where it does not decode.
pub fn decode_value(b: &[u8]) -> (r: Result<Value, KvError>)
    ensures
        r is Ok <==> decoded(b@) is Some,
        r matches Ok(v) ==> decoded(b@) == Some(v@),
        r matches Err(e) ==> e is DecodeError,
{
    let mut acc = Value { value: None };
    let mut pos: usize = 0;
    assert(b@.skip(0) =~= b@);
    while pos < b.len()
        invariant
            pos <= b@.len(),
            decoded(b@) == decode_fields(b@.skip(pos as int), acc@),
        decreases b@.len() - pos,
    {
        let ghost cur = b@.skip(pos as int);
        let (key, n) = match read_varint(b, pos) {
            Some(kn) => kn,
            None => {
                return Err(bad_value_bytes());
            },
        };
        proof {
            lemma_varint_at_bounds(cur);
        }
        if key > 0xffff_ffff || key % 8 >= 6 || key / 8 == 0 {
            return Err(bad_value_bytes());
        }
        let start = pos + n;
        let ghost rest = cur.skip(n as int);
        assert(rest =~= b@.skip(start as int));
        let tag = key / 8;
        let wire = key % 8;
        if tag <= 5 {
            match read_field(b, start, tag, wire) {
                Some((v, m)) => {
                    proof {
                        lemma_field_at_bounds(tag, wire, rest);
                    }
                    acc = v;
                    pos = start + m;
                    assert(b@.skip(pos as int) =~= rest.skip(m as int));
                },
                None => {
                    return Err(bad_value_bytes());
                },
            }
        } else {
            let tail = vstd::slice::slice_subrange(b, start, b.len());
            assert(tail@ =~= rest);
            match skip_unknown_field(wire, tag as u32, tail) {
                Some(left) => {
                    pos = b.len() - left;
                    assert(b@.skip(pos as int) =~= rest.skip(rest.len() - left));
                },
                None => {
                    return Err(bad_value_bytes());
                },
            }
        }
    }
    assert(b@.skip(pos as int) =~= Seq::<u8>::empty());
    Ok(acc)
}

/// The fields that follow a one-byte key: reading them from the encoding of
/// `v`, whatever follows it, gives `v` and uses exactly the encoding's bytes.
proof fn lemma_field_of_value(v: ValueView, tail: Seq<u8>)
    requires
        value_bytes(Some(v)).len() <= usize::MAX,
    ensures
        field_at((tag_of(v) / 8) as u64, (tag_of(v) % 8) as u64, value_bytes(Some(v)).drop_first() + tail)
            == Some((v, value_bytes(Some(v)).drop_first().len())),
{
    let body = value_bytes(Some(v)).drop_first();
    let rest = body + tail;
    match v {
        ValueView::String(s) => {
            let u = vstd::utf8::encode_utf8(s);
            let l = u.len() as u64;
            assert(body =~= varint(l) + u);
            assert(rest =~= varint(l) + (u + tail));
            lemma_varint_at_varint(l, u + tail);
            let k = varint(l).len();
            assert(l == u.len());
            assert(rest.subrange(k as int, k + l) =~= u);
            vstd::utf8::encode_utf8_valid_utf8(s);
            vstd::utf8::encode_utf8_decode_utf8(s);
        },
        ValueView::Binary(d) => {
            let l = d.len() as u64;
            assert(body =~= varint(l) + d);
            assert(rest =~= varint(l) + (d + tail));
            lemma_varint_at_varint(l, d + tail);
            let k = varint(l).len();
            assert(l == d.len());
            assert(rest.subrange(k as int, k + l) =~= d);
        },
        ValueView::Integer(i) => {
            let x = i as u64;
            assert(body =~= varint(x));
            assert(rest =~= varint(x) + tail);
            lemma_varint_at_varint(x, tail);
            assert(((i as u64) as i64) == i) by (bit_vector);
        },
        ValueView::Float(f) => {
            vstd::bytes::lemma_auto_spec_u64_to_from_le_bytes();
            assert(body =~= vstd::bytes::spec_u64_to_le_bytes(f));
            assert(rest.take(8) =~= body);
        },
        ValueView::Bool(c) => {
            let y: u64 = if c { 1 } else { 0 };
            assert(body =~= varint(y));
            assert(rest =~= varint(y) + tail);
            lemma_varint_at_varint(y, tail);
        },
    }
}

/// Decoding the encoding of `v` followed by `tail` reads `v` and then goes on
/// with `tail`, holding `v`.
proof fn lemma_decode_value_then(v: Option<ValueView>, tail: Seq<u8>)
    requires
        value_bytes(v).len() <= usize::MAX,
    ensures
        decode_fields(value_bytes(v) + tail, None) == decode_fields(tail, v),
{
    let b = value_bytes(v);
    if v is None {
        assert(b + tail =~= tail);
    } else {
        let x = v.unwrap();
        let t = tag_of(x) as u64;
        let body = b.drop_first();
        let rest = body + tail;
        lemma_varint_at_varint(t, rest);
        assert(varint(t) =~= seq![t as u8]);
        assert(b + tail =~= varint(t) + rest);
        assert((b + tail).skip(1) =~= rest);
        lemma_field_of_value(x, tail);
        assert(rest.skip(body.len() as int) =~= tail);
    }
}

/// A field that a reader of `Value` does not know: a key with a field number
/// above five and a wire type there is, then what prost's `skip_field` passes
/// over in full.
pub open spec fn unknown_field(key: u64, body: Seq<u8>) -> bool {
    &&& key / 8 > 5
    &&& key <= 0xffff_ffff
    &&& key % 8 < 6
    &&& prost_skip_rest(key % 8, (key / 8) as u32, body) == Some(0usize)
}

/// A field that the reader does not know changes nothing: the encoding of a
/// value followed by any such field still decodes to that value.
pub proof fn law_unknown_field_is_skipped(v: Option<ValueView>, key: u64, body: Seq<u8>)
    requires
        value_bytes(v).len() <= usize::MAX,
        unknown_field(key, body),
    ensures
        decoded(value_bytes(v) + (varint(key) + body)) == Some(v),
        stored_value(value_bytes(v) + (varint(key) + body)) == v,
{
    let u = varint(key) + body;
    lemma_decode_value_then(v, u);
    lemma_varint_at_varint(key, body);
    lemma_varint_len(key);
    lemma_varint_shape(key);
    assert(u.skip(varint(key).len() as int) =~= body);
    assert(body.skip(body.len() - 0) =~= Seq::<u8>::empty());
    assert(decode_fields(Seq::<u8>::empty(), v) == Some(v));
}

/// A value is read back from its encoding.
pub proof fn law_value_roundtrip(v: Option<ValueView>)
    requires
        value_bytes(v).len() <= usize::MAX,
    ensures
        decoded(value_bytes(v)) == Some(v),
        is_value_bytes(value_bytes(v)),
        stored_value(value_bytes(v)) == v,
{
    lemma_decode_value_then(v, Seq::<u8>::empty());
    assert(value_bytes(v) + Seq::<u8>::empty() =~= value_bytes(v));
    assert(decode_fields(Seq::<u8>::empty(), v) == Some(v));
}

} // verus!
