//! Writing a GGUF header: strings, metadata values, tensor infos.

use vstd::prelude::*;
use vstd::utf8::*;

use crate::gguf::Value;
use crate::text::owned;

verus! {

/// The low `n` bytes of `x`, lowest first; a negative number in two's
/// complement.
pub open spec fn le_bytes(x: int, n: int) -> Seq<u8>
    decreases n,
{
    if n <= 0 {
        Seq::empty()
    } else {
        seq![(x % 256) as u8] + le_bytes(x / 256, n - 1)
    }
}

/// A string: its length in bytes, then its bytes.
pub open spec fn string_bytes(s: Seq<char>) -> Seq<u8> {
    le_bytes(encode_utf8(s).len() as int, 8) + encode_utf8(s)
}

/// Appends the low `n` bytes of `x`, lowest first.
pub fn push_le(out: &mut Vec<u8>, x: u64, n: usize)
    ensures
        final(out)@ == old(out)@ + le_bytes(x as int, n as int),
{
    let mut rest: u64 = x;
    let mut i: usize = 0;
    while i < n
        invariant
            i <= n,
            out@ + le_bytes(rest as int, n - i) == old(out)@ + le_bytes(x as int, n as int),
        decreases n - i,
    {
        let ghost before = out@;
        assert(rest as int % 256 == rest % 256);
        out.push((rest % 256) as u8);
        assert(out@ + le_bytes(rest as int / 256, n - i - 1) =~= before + le_bytes(
            rest as int,
            n - i,
        ));
        rest = rest / 256;
        i += 1;
    }
    assert(out@ + le_bytes(rest as int, 0) =~= out@);
}

/// Appends a string.
pub fn write_string(out: &mut Vec<u8>, s: &str)
    ensures
        final(out)@ == old(out)@ + string_bytes(s@),
{
    let bytes: &[u8] = s.as_bytes();
    push_le(out, bytes.len() as u64, 8);
    out.extend_from_slice(bytes);
    assert(out@ =~= old(out)@ + string_bytes(s@));
}

pub open spec fn type_id(v: Value) -> u32 {
    match v {
        Value::U8(_) => 0,
        Value::I8(_) => 1,
        Value::U16(_) => 2,
        Value::I16(_) => 3,
        Value::U32(_) => 4,
        Value::I32(_) => 5,
        Value::F32(_) => 6,
        Value::Bool(_) => 7,
        Value::String(_) => 8,
        Value::Array(_) => 9,
        Value::U64(_) => 10,
        Value::I64(_) => 11,
        Value::F64(_) => 12,
    }
}

/// The number by which a file names the type of a value.
pub fn value_type_id(v: &Value) -> (id: u32)
    ensures
        id == type_id(*v),
{
    match v {
        Value::U8(_) => 0,
        Value::I8(_) => 1,
        Value::U16(_) => 2,
        Value::I16(_) => 3,
        Value::U32(_) => 4,
        Value::I32(_) => 5,
        Value::F32(_) => 6,
        Value::Bool(_) => 7,
        Value::String(_) => 8,
        Value::Array(_) => 9,
        Value::U64(_) => 10,
        Value::I64(_) => 11,
        Value::F64(_) => 12,
    }
}

/// The type that an array is written under: that of its first item, and u32
/// for an empty one.
pub open spec fn item_type(items: Seq<Value>) -> u32 {
    if items.len() == 0 {
        4
    } else {
        type_id(items[0])
    }
}

/// Whether all items have the same type.
pub open spec fn same_type(items: Seq<Value>) -> bool {
    forall|i: int| 0 <= i < items.len() ==> type_id(#[trigger] items[i]) == item_type(items)
}

/// Whether a value can be written: every array in it, itself included, holds
/// items of one type.
pub open spec fn writable(v: Value) -> bool
    decreases v,
{
    match v {
        Value::Array(items) => {
            &&& same_type(items@)
            &&& forall|i: int| 0 <= i < items@.len() ==> writable(#[trigger] items@[i])
        },
        _ => true,
    }
}

/// The bytes that a write of `v` appends. Where `v` cannot be written, those
/// that come before the array that stops it.
pub open spec fn payload(v: Value) -> Seq<u8>
    decreases v, 0int,
{
    match v {
        Value::U8(x) => le_bytes(x as int, 1),
        Value::I8(x) => le_bytes(x as int, 1),
        Value::U16(x) => le_bytes(x as int, 2),
        Value::I16(x) => le_bytes(x as int, 2),
        Value::U32(x) => le_bytes(x as int, 4),
        Value::I32(x) => le_bytes(x as int, 4),
        Value::F32(bits) => le_bytes(bits as int, 4),
        Value::Bool(x) => le_bytes(if x {
            1
        } else {
            0
        }, 1),
        Value::String(s) => string_bytes(s@),
        Value::U64(x) => le_bytes(x as int, 8),
        Value::I64(x) => le_bytes(x as int, 8),
        Value::F64(bits) => le_bytes(bits as int, 8),
        Value::Array(items) => if same_type(items@) {
            le_bytes(item_type(items@) as int, 4) + le_bytes(items@.len() as int, 8) + payloads(
                items@,
                0,
            )
        } else {
            Seq::empty()
        },
    }
}

/// The bytes of the items from position `i` on, up to one that cannot be
/// written.
pub open spec fn payloads(items: Seq<Value>, i: int) -> Seq<u8>
    decreases items, items.len() - i,
{
    if i < 0 || i >= items.len() {
        Seq::empty()
    } else if writable(items[i]) {
        payload(items[i]) + payloads(items, i + 1)
    } else {
        payload(items[i])
    }
}

/// How many numbers `n` bytes tell apart.
pub open spec fn pow256(n: int) -> int
    decreases n,
{
    if n <= 0 {
        1
    } else {
        256 * pow256(n - 1)
    }
}

proof fn lemma_le_bytes_wrap(x: int, n: int)
    requires
        n >= 0,
    ensures
        le_bytes(x + pow256(n), n) == le_bytes(x, n),
    decreases n,
{
    if n > 0 {
        lemma_le_bytes_wrap(x / 256, n - 1);
        assert((x + 256 * pow256(n - 1)) / 256 == x / 256 + pow256(n - 1));
    }
}

/// Appends a metadata value, without its type.
pub fn write_value_payload(out: &mut Vec<u8>, v: &Value) -> (r: Result<(), String>)
    ensures
        final(out)@ == old(out)@ + payload(*v),
        r is Ok <==> writable(*v),
        r matches Err(e) ==> e@ == "heterogeneous metadata array"@,
    decreases v,
{
    proof {
        reveal_with_fuel(pow256, 9);
    }
    match v {
        Value::U8(x) => push_le(out, *x as u64, 1),
        Value::I8(x) => {
            proof {
                lemma_le_bytes_wrap(*x as int, 1);
            }
            push_le(
                out,
                if *x < 0 {
                    (*x as i16 + 256) as u64
                } else {
                    *x as u64
                },
                1,
            )
        },
        Value::U16(x) => push_le(out, *x as u64, 2),
        Value::I16(x) => {
            proof {
                lemma_le_bytes_wrap(*x as int, 2);
            }
            push_le(
                out,
                if *x < 0 {
                    (*x as i32 + 0x1_0000) as u64
                } else {
                    *x as u64
                },
                2,
            )
        },
        Value::U32(x) => push_le(out, *x as u64, 4),
        Value::I32(x) => {
            proof {
                lemma_le_bytes_wrap(*x as int, 4);
            }
            push_le(
                out,
                if *x < 0 {
                    (*x as i64 + 0x1_0000_0000) as u64
                } else {
                    *x as u64
                },
                4,
            )
        },
        Value::F32(bits) => push_le(out, *bits as u64, 4),
        Value::Bool(x) => push_le(
            out,
            if *x {
                1
            } else {
                0
            },
            1,
        ),
        Value::String(s) => write_string(out, s.as_str()),
        Value::U64(x) => push_le(out, *x, 8),
        Value::I64(x) => {
            proof {
                lemma_le_bytes_wrap(*x as int, 8);
            }
            push_le(
                out,
                if *x < 0 {
                    (*x as i128 + 0x1_0000_0000_0000_0000) as u64
                } else {
                    *x as u64
                },
                8,
            )
        },
        Value::F64(bits) => push_le(out, *bits, 8),
        Value::Array(items) => {
            let elem_ty: u32 = if items.len() == 0 {
                4
            } else {
                value_type_id(&items[0])
            };
            let mut i: usize = 0;
            while i < items.len()
                invariant
                    i <= items@.len(),
                    elem_ty == item_type(items@),
                    out@ == old(out)@,
                    *v == Value::Array(*items),
                    forall|k: int| 0 <= k < i ==> type_id(#[trigger] items@[k]) == elem_ty,
                decreases items@.len() - i,
            {
                if value_type_id(&items[i]) != elem_ty {
                    assert(!same_type(items@));
                    assert(out@ =~= old(out)@ + payload(*v));
                    return Err(owned("heterogeneous metadata array"));
                }
                i += 1;
            }
            push_le(out, elem_ty as u64, 4);
            push_le(out, items.len() as u64, 8);
            i = 0;
            let ghost whole = payload(*v);
            assert(out@ + payloads(items@, 0) =~= old(out)@ + whole);
            while i < items.len()
                invariant
                    i <= items@.len(),
                    *v == Value::Array(*items),
                    same_type(items@),
                    whole == payload(*v),
                    out@ + payloads(items@, i as int) == old(out)@ + whole,
                    forall|k: int| 0 <= k < i ==> writable(#[trigger] items@[k]),
                decreases items@.len() - i,
            {
                let ghost before = out@;
                assert(decreases_to!(v => items@[i as int]));
                match write_value_payload(out, &items[i]) {
                    Ok(_) => {
                        assert(out@ + payloads(items@, i + 1) =~= before + payloads(
                            items@,
                            i as int,
                        ));
                    },
                    Err(e) => {
                        return Err(e);
                    },
                }
                i += 1;
            }
            assert(out@ + payloads(items@, i as int) =~= out@);
        },
    }
    Ok(())
}

/// Whether two values hold the same.
pub open spec fn same_value(v: Value, w: Value) -> bool
    decreases v,
{
    match (v, w) {
        (Value::String(a), Value::String(b)) => a@ == b@,
        (Value::Array(a), Value::Array(b)) => {
            &&& a@.len() == b@.len()
            &&& forall|i: int| 0 <= i < a@.len() ==> same_value(#[trigger] a@[i], b@[i])
        },
        (Value::String(_), _) => false,
        (Value::Array(_), _) => false,
        _ => v == w,
    }
}

/// Whether the length of every string in a value fits in the 64 bits that it
/// is written in.
pub open spec fn lengths_fit(v: Value) -> bool
    decreases v,
{
    match v {
        Value::String(s) => encode_utf8(s@).len() <= u64::MAX,
        Value::Array(items) => forall|i: int|
            0 <= i < items@.len() ==> lengths_fit(#[trigger] items@[i]),
        _ => true,
    }
}

proof fn lemma_le_bytes_len(x: int, n: int)
    requires
        n >= 0,
    ensures
        le_bytes(x, n).len() == n,
    decreases n,
{
    if n > 0 {
        lemma_le_bytes_len(x / 256, n - 1);
    }
}

proof fn lemma_le_bytes_injective(x: int, y: int, n: int)
    requires
        n >= 0,
        le_bytes(x, n) == le_bytes(y, n),
        -pow256(n) < x - y < pow256(n),
    ensures
        x == y,
    decreases n,
{
    if n > 0 {
        let a = le_bytes(x, n);
        let b = le_bytes(y, n);
        assert(a[0] == (x % 256) as u8 && b[0] == (y % 256) as u8);
        assert(a.skip(1) =~= le_bytes(x / 256, n - 1));
        assert(b.skip(1) =~= le_bytes(y / 256, n - 1));
        lemma_le_bytes_injective(x / 256, y / 256, n - 1);
    }
}

/// Two sequences that are equal are so part by part.
pub proof fn lemma_split_equal<T>(a: Seq<T>, r: Seq<T>, b: Seq<T>, s: Seq<T>)
    requires
        a.len() == b.len(),
        a + r == b + s,
    ensures
        a == b,
        r == s,
{
    assert(a =~= (a + r).take(a.len() as int));
    assert(b =~= (b + s).take(b.len() as int));
    assert(r =~= (a + r).skip(a.len() as int));
    assert(s =~= (b + s).skip(b.len() as int));
}

/// A number is read back from its bytes, whatever follows them: two numbers
/// that are closer than `n` bytes tell apart and are written alike are the
/// same.
pub proof fn number_reads_back(x: int, y: int, n: int, r: Seq<u8>, s: Seq<u8>)
    requires
        n >= 0,
        le_bytes(x, n) + r == le_bytes(y, n) + s,
        -pow256(n) < x - y < pow256(n),
    ensures
        x == y,
        r == s,
{
    lemma_le_bytes_len(x, n);
    lemma_le_bytes_len(y, n);
    lemma_split_equal(le_bytes(x, n), r, le_bytes(y, n), s);
    lemma_le_bytes_injective(x, y, n);
}

/// A string is read back from its bytes, whatever follows it.
pub proof fn string_reads_back(a: Seq<char>, b: Seq<char>, r: Seq<u8>, s: Seq<u8>)
    requires
        encode_utf8(a).len() <= u64::MAX,
        encode_utf8(b).len() <= u64::MAX,
        string_bytes(a) + r == string_bytes(b) + s,
    ensures
        a == b,
        r == s,
{
    reveal_with_fuel(pow256, 9);
    let x = encode_utf8(a);
    let y = encode_utf8(b);
    assert(string_bytes(a) + r =~= le_bytes(x.len() as int, 8) + (x + r));
    assert(string_bytes(b) + s =~= le_bytes(y.len() as int, 8) + (y + s));
    number_reads_back(x.len() as int, y.len() as int, 8, x + r, y + s);
    lemma_split_equal(x, r, y, s);
    encode_utf8_decode_utf8(a);
    encode_utf8_decode_utf8(b);
}

/// A value is read back from its bytes and its type, whatever follows it: two
/// values of one type that are written alike are the same.
pub proof fn value_reads_back(v: Value, w: Value, r: Seq<u8>, s: Seq<u8>)
    requires
        type_id(v) == type_id(w),
        writable(v),
        writable(w),
        lengths_fit(v),
        lengths_fit(w),
        payload(v) + r == payload(w) + s,
    ensures
        same_value(v, w),
        r == s,
    decreases v, 0int,
{
    reveal_with_fuel(pow256, 9);
    match (v, w) {
        (Value::U8(x), Value::U8(y)) => number_reads_back(x as int, y as int, 1, r, s),
        (Value::I8(x), Value::I8(y)) => number_reads_back(x as int, y as int, 1, r, s),
        (Value::U16(x), Value::U16(y)) => number_reads_back(x as int, y as int, 2, r, s),
        (Value::I16(x), Value::I16(y)) => number_reads_back(x as int, y as int, 2, r, s),
        (Value::U32(x), Value::U32(y)) => number_reads_back(x as int, y as int, 4, r, s),
        (Value::I32(x), Value::I32(y)) => number_reads_back(x as int, y as int, 4, r, s),
        (Value::F32(x), Value::F32(y)) => number_reads_back(x as int, y as int, 4, r, s),
        (Value::Bool(x), Value::Bool(y)) => number_reads_back(
            if x {
                1
            } else {
                0
            },
            if y {
                1
            } else {
                0
            },
            1,
            r,
            s,
        ),
        (Value::String(x), Value::String(y)) => string_reads_back(x@, y@, r, s),
        (Value::U64(x), Value::U64(y)) => number_reads_back(x as int, y as int, 8, r, s),
        (Value::I64(x), Value::I64(y)) => number_reads_back(x as int, y as int, 8, r, s),
        (Value::F64(x), Value::F64(y)) => number_reads_back(x as int, y as int, 8, r, s),
        (Value::Array(a), Value::Array(b)) => {
            let x = item_type(a@) as int;
            let y = item_type(b@) as int;
            let m = a.len() as int;
            let n = b.len() as int;
            let pa = payloads(a@, 0);
            let pb = payloads(b@, 0);
            assert(payload(v) + r =~= le_bytes(x, 4) + (le_bytes(m, 8) + (pa + r)));
            assert(payload(w) + s =~= le_bytes(y, 4) + (le_bytes(n, 8) + (pb + s)));
            number_reads_back(x, y, 4, le_bytes(m, 8) + (pa + r), le_bytes(n, 8) + (pb + s));
            number_reads_back(m, n, 8, pa + r, pb + s);
            lemma_items_read_back(a@, b@, 0, r, s);
        },
        _ => {},
    }
}

proof fn lemma_items_read_back(a: Seq<Value>, b: Seq<Value>, i: int, r: Seq<u8>, s: Seq<u8>)
    requires
        0 <= i <= a.len() == b.len(),
        item_type(a) == item_type(b),
        same_type(a),
        same_type(b),
        forall|k: int| 0 <= k < a.len() ==> writable(#[trigger] a[k]) && lengths_fit(a[k]),
        forall|k: int| 0 <= k < b.len() ==> writable(#[trigger] b[k]) && lengths_fit(b[k]),
        payloads(a, i) + r == payloads(b, i) + s,
    ensures
        forall|k: int| i <= k < a.len() ==> same_value(#[trigger] a[k], b[k]),
        r == s,
    decreases a, a.len() - i,
{
    if i < a.len() {
        let ra = payloads(a, i + 1) + r;
        let rb = payloads(b, i + 1) + s;
        assert(payloads(a, i) + r =~= payload(a[i]) + ra);
        assert(payloads(b, i) + s =~= payload(b[i]) + rb);
        value_reads_back(a[i], b[i], ra, rb);
        lemma_items_read_back(a, b, i + 1, r, s);
    } else {
        assert(payloads(a, i) + r =~= r);
        assert(payloads(b, i) + s =~= s);
    }
}

/// Byte `i` of a number is its `i`th digit in base 256.
pub proof fn bytes_are_digits(x: int, n: int, i: int)
    requires
        0 <= i < n,
    ensures
        le_bytes(x, n).len() == n,
        le_bytes(x, n)[i] == x / vstd::arithmetic::power::pow(256, i as nat) % 256,
    decreases i,
{
    lemma_le_bytes_len(x, n);
    lemma_le_bytes_len(x / 256, n - 1);
    if i == 0 {
        vstd::arithmetic::power::lemma_pow0(256);
    } else {
        bytes_are_digits(x / 256, n - 1, i - 1);
        let p = vstd::arithmetic::power::pow(256, (i - 1) as nat);
        reveal(vstd::arithmetic::power::pow);
        assert(vstd::arithmetic::power::pow(256, i as nat) == 256 * p);
        vstd::arithmetic::power::lemma_pow_positive(256, (i - 1) as nat);
        let a = x / 256 / p;
        let b = x / 256 % p;
        vstd::arithmetic::div_mod::lemma_fundamental_div_mod(x / 256, p);
        assert(x == a * (256 * p) + (256 * b + x % 256)) by (nonlinear_arith)
            requires
                x == 256 * (p * a + b) + x % 256,
        ;
        assert(0 <= b < p);
        vstd::arithmetic::div_mod::lemma_fundamental_div_mod_converse(
            x,
            256 * p,
            a,
            256 * b + x % 256,
        );
        assert(le_bytes(x, n)[i] == le_bytes(x / 256, n - 1)[i - 1]);
    }
}

/// `n` bytes tell 256 times as many numbers apart as one byte fewer does.
pub proof fn a_byte_more_tells_256_times_as_many(n: int)
    requires
        n >= 0,
    ensures
        pow256(0) == 1,
        pow256(n + 1) == 256 * pow256(n),
{
}

/// A string is the number of its bytes, in eight bytes, and its bytes in
/// UTF-8.
pub proof fn a_string_is_counted_bytes(s: Seq<char>, i: int)
    ensures
        string_bytes(s).len() == 8 + encode_utf8(s).len(),
        0 <= i < 8 ==> string_bytes(s)[i] == le_bytes(encode_utf8(s).len() as int, 8)[i],
        0 <= i < encode_utf8(s).len() ==> string_bytes(s)[8 + i] == encode_utf8(s)[i],
{
    lemma_le_bytes_len(encode_utf8(s).len() as int, 8);
}

/// The numbers of the types.
pub proof fn types_have_these_numbers(v: Value)
    ensures
        v is U8 <==> type_id(v) == 0,
        v is I8 <==> type_id(v) == 1,
        v is U16 <==> type_id(v) == 2,
        v is I16 <==> type_id(v) == 3,
        v is U32 <==> type_id(v) == 4,
        v is I32 <==> type_id(v) == 5,
        v is F32 <==> type_id(v) == 6,
        v is Bool <==> type_id(v) == 7,
        v is String <==> type_id(v) == 8,
        v is Array <==> type_id(v) == 9,
        v is U64 <==> type_id(v) == 10,
        v is I64 <==> type_id(v) == 11,
        v is F64 <==> type_id(v) == 12,
{
}

/// A number is written in as many bytes as its type has, a truth value in
/// one, a string counted.
pub proof fn scalars_have_the_width_of_their_type(v: Value)
    ensures
        match v {
            Value::U8(x) => payload(v) == seq![x],
            Value::I8(x) => payload(v) == le_bytes(x as int, 1) && payload(v).len() == 1,
            Value::U16(x) => payload(v) == le_bytes(x as int, 2) && payload(v).len() == 2,
            Value::I16(x) => payload(v) == le_bytes(x as int, 2) && payload(v).len() == 2,
            Value::U32(x) => payload(v) == le_bytes(x as int, 4) && payload(v).len() == 4,
            Value::I32(x) => payload(v) == le_bytes(x as int, 4) && payload(v).len() == 4,
            Value::F32(x) => payload(v) == le_bytes(x as int, 4) && payload(v).len() == 4,
            Value::U64(x) => payload(v) == le_bytes(x as int, 8) && payload(v).len() == 8,
            Value::I64(x) => payload(v) == le_bytes(x as int, 8) && payload(v).len() == 8,
            Value::F64(x) => payload(v) == le_bytes(x as int, 8) && payload(v).len() == 8,
            Value::Bool(x) => payload(v) == seq![
                if x {
                    1u8
                } else {
                    0
                },
            ],
            Value::String(s) => payload(v) == string_bytes(s@),
            Value::Array(_) => true,
        },
        !(v is Array) ==> writable(v),
{
    reveal_with_fuel(le_bytes, 2);
    match v {
        Value::U8(x) => {
            lemma_le_bytes_len(x as int, 1);
            assert(payload(v) =~= seq![x]);
        },
        Value::I8(x) => lemma_le_bytes_len(x as int, 1),
        Value::U16(x) => lemma_le_bytes_len(x as int, 2),
        Value::I16(x) => lemma_le_bytes_len(x as int, 2),
        Value::U32(x) => lemma_le_bytes_len(x as int, 4),
        Value::I32(x) => lemma_le_bytes_len(x as int, 4),
        Value::F32(x) => lemma_le_bytes_len(x as int, 4),
        Value::U64(x) => lemma_le_bytes_len(x as int, 8),
        Value::I64(x) => lemma_le_bytes_len(x as int, 8),
        Value::F64(x) => lemma_le_bytes_len(x as int, 8),
        Value::Bool(x) => {
            assert(payload(v) =~= seq![
                if x {
                    1u8
                } else {
                    0
                },
            ]);
        },
        _ => {},
    }
}

/// An array can be written exactly if its items have one type and can be
/// written. It is the number of that type in four bytes, u32's where there
/// are no items, then the number of items in eight, then the items; with items
/// of several types it is nothing.
pub proof fn an_array_is_counted_items(v: Value, i: int)
    requires
        v is Array,
    ensures
        ({
            let items = v->Array_0@;
            let one = forall|j: int|
                0 <= j < items.len() ==> type_id(#[trigger] items[j]) == type_id(items[0]);
            let ty = if items.len() == 0 {
                4
            } else {
                type_id(items[0])
            };
            &&& writable(v) <==> one && forall|j: int|
                0 <= j < items.len() ==> writable(#[trigger] items[j])
            &&& one ==> payload(v) == le_bytes(ty as int, 4) + le_bytes(items.len() as int, 8)
                + payloads(items, 0)
            &&& !one ==> payload(v).len() == 0
            &&& payloads(items, items.len() as int).len() == 0
            &&& 0 <= i < items.len() && writable(items[i]) ==> payloads(items, i) == payload(
                items[i],
            ) + payloads(items, i + 1)
            &&& 0 <= i < items.len() && !writable(items[i]) ==> payloads(items, i) == payload(
                items[i],
            )
        }),
{
    let items = v->Array_0@;
    assert(same_type(items) <==> forall|j: int|
        0 <= j < items.len() ==> type_id(#[trigger] items[j]) == type_id(items[0]));
}

} // verus!
