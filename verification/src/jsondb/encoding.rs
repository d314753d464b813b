//! How stores, documents and index entries are laid out as engine keys.
//!
//! ```text
//! Document:  D\0{store}\0{primary_key}
//! Index:     I\0{store}\0{index}\0{encoded_value}\0{primary_key}
//! Schema:    S\0{store}
//! Counter:   C\0{store}
//! ```

use vstd::prelude::*;
use vstd::utf8::encode_utf8;

use crate::bytes::{push_bytes, str_bytes};
use crate::error::{
    decimal, decimal_text, signed_decimal, signed_decimal_text, string_of, text3, FlowError,
    FlowErrorView, Result,
};
use crate::jsondb::value::{
    encode_doc, encoded_doc, field_at, follow, json_seq, lemma_array_view, Json, JsonNumber,
    JsonValue, NumberView,
};
use crate::record::{ScanRange, ScanRangeView};

verus! {

/// Separates the parts of a key.
pub const SEP: u8 = 0;

/// No byte of `s` is zero.
pub open spec fn zero_free(s: Seq<u8>) -> bool {
    forall|i: int| 0 <= i < s.len() ==> #[trigger] s[i] != 0
}

pub open spec fn doc_prefix_of(store: Seq<u8>) -> Seq<u8> {
    seq![68u8, 0] + store + seq![0u8]
}

pub open spec fn doc_key_of(store: Seq<u8>, pk: Seq<u8>) -> Seq<u8> {
    doc_prefix_of(store) + pk
}

pub open spec fn idx_prefix_of(store: Seq<u8>, index: Seq<u8>) -> Seq<u8> {
    seq![73u8, 0] + store + seq![0u8] + index + seq![0u8]
}

pub open spec fn idx_value_prefix_of(store: Seq<u8>, index: Seq<u8>, value: Seq<u8>) -> Seq<u8> {
    idx_prefix_of(store, index) + value + seq![0u8]
}

pub open spec fn idx_key_of(
    store: Seq<u8>,
    index: Seq<u8>,
    value: Seq<u8>,
    pk: Seq<u8>,
) -> Seq<u8> {
    idx_value_prefix_of(store, index, value) + pk
}

pub open spec fn schema_prefix_of() -> Seq<u8> {
    seq![83u8, 0]
}

pub open spec fn schema_key_of(store: Seq<u8>) -> Seq<u8> {
    schema_prefix_of() + store
}

pub open spec fn counter_key_of(store: Seq<u8>) -> Seq<u8> {
    seq![67u8, 0] + store
}

/// The prefix of the keys of a store's documents.
pub fn doc_prefix(store: &str) -> (r: Vec<u8>)
    ensures
        r@ == doc_prefix_of(encode_utf8(store@)),
{
    let mut key: Vec<u8> = Vec::new();
    key.push(68);
    key.push(SEP);
    push_bytes(&mut key, store.as_bytes());
    key.push(SEP);
    assert(key@ =~= doc_prefix_of(encode_utf8(store@)));
    key
}

/// The key of a document.
pub fn doc_key(store: &str, pk: &[u8]) -> (r: Vec<u8>)
    ensures
        r@ == doc_key_of(encode_utf8(store@), pk@),
{
    let mut key = doc_prefix(store);
    push_bytes(&mut key, pk);
    key
}

/// The prefix of the keys of an index's entries.
pub fn idx_prefix(store: &str, index: &str) -> (r: Vec<u8>)
    ensures
        r@ == idx_prefix_of(encode_utf8(store@), encode_utf8(index@)),
{
    let mut key: Vec<u8> = Vec::new();
    key.push(73);
    key.push(SEP);
    push_bytes(&mut key, store.as_bytes());
    key.push(SEP);
    push_bytes(&mut key, index.as_bytes());
    key.push(SEP);
    assert(key@ =~= idx_prefix_of(encode_utf8(store@), encode_utf8(index@)));
    key
}

/// The prefix of the keys of an index's entries for one value.
pub fn idx_value_prefix(store: &str, index: &str, value: &[u8]) -> (r: Vec<u8>)
    ensures
        r@ == idx_value_prefix_of(encode_utf8(store@), encode_utf8(index@), value@),
{
    let mut key = idx_prefix(store, index);
    push_bytes(&mut key, value);
    key.push(SEP);
    assert(key@ =~= idx_value_prefix_of(encode_utf8(store@), encode_utf8(index@), value@));
    key
}

/// The key of an index entry.
pub fn idx_key(store: &str, index: &str, value: &[u8], pk: &[u8]) -> (r: Vec<u8>)
    ensures
        r@ == idx_key_of(encode_utf8(store@), encode_utf8(index@), value@, pk@),
{
    let mut key = idx_value_prefix(store, index, value);
    push_bytes(&mut key, pk);
    key
}

/// The prefix of the keys of schemas.
pub fn schema_prefix() -> (r: Vec<u8>)
    ensures
        r@ == schema_prefix_of(),
{
    let mut key: Vec<u8> = Vec::new();
    key.push(83);
    key.push(SEP);
    assert(key@ =~= schema_prefix_of());
    key
}

/// The key of a store's schema.
pub fn schema_key(store: &str) -> (r: Vec<u8>)
    ensures
        r@ == schema_key_of(encode_utf8(store@)),
{
    let mut key = schema_prefix();
    push_bytes(&mut key, store.as_bytes());
    key
}

/// The key of a store's auto-increment counter.
pub fn counter_key(store: &str) -> (r: Vec<u8>)
    ensures
        r@ == counter_key_of(encode_utf8(store@)),
{
    let mut key: Vec<u8> = Vec::new();
    key.push(67);
    key.push(SEP);
    push_bytes(&mut key, store.as_bytes());
    assert(key@ =~= counter_key_of(encode_utf8(store@)));
    key
}

/// The scan of all keys with a prefix.
pub fn prefix_range(prefix: &[u8]) -> (r: ScanRange)
    ensures
        r@ == ScanRangeView::of_prefix(prefix@),
{
    ScanRange::prefix_bytes(prefix)
}

/// Whether a byte may occur in the name of a store or an index.
pub open spec fn is_name_byte(b: u8) -> bool {
    (48 <= b <= 57) || (65 <= b <= 90) || (97 <= b <= 122) || b == 95 || b == 45
}

/// A name is not empty, and made of letters, digits, `_` and `-`.
pub open spec fn is_name(s: Seq<u8>) -> bool {
    s.len() > 0 && forall|i: int| 0 <= i < s.len() ==> is_name_byte(#[trigger] s[i])
}

/// What is said of a name that is none.
pub open spec fn name_error(name: Seq<char>) -> FlowErrorView {
    if encode_utf8(name).len() == 0 {
        FlowErrorView::JsonDb("name cannot be empty"@)
    } else {
        FlowErrorView::JsonDb("invalid name '"@ + name + "'"@)
    }
}

/// Checks the name of a store or an index.
pub fn validate_name(name: &str) -> (r: Result<()>)
    ensures
        r is Ok <==> is_name(encode_utf8(name@)),
        r is Err ==> r->Err_0@ == name_error(name@),
{
    let bytes = name.as_bytes();
    if bytes.len() == 0 {
        return Err(FlowError::JsonDb(string_of("name cannot be empty")));
    }
    let mut i: usize = 0;
    while i < bytes.len()
        invariant
            i <= bytes.len(),
            bytes@ == encode_utf8(name@),
            bytes@.len() > 0,
            forall|j: int| 0 <= j < i ==> is_name_byte(#[trigger] bytes@[j]),
        decreases bytes.len() - i,
    {
        let b: u8 = bytes[i];
        let ok = (48 <= b && b <= 57) || (65 <= b && b <= 90) || (97 <= b && b <= 122) || b == 95
            || b == 45;
        if !ok {
            assert(!is_name_byte(bytes@[i as int]));
            return Err(FlowError::JsonDb(text3("invalid name '", name, "'")));
        }
        i = i + 1;
    }
    Ok(())
}

/// A name has no zero byte.
pub proof fn lemma_name_zero_free(s: Seq<u8>)
    requires
        is_name(s),
    ensures
        zero_free(s),
{
    assert forall|i: int| 0 <= i < s.len() implies #[trigger] s[i] != 0 by {
        assert(is_name_byte(s[i]));
    }
}

fn has_zero(s: &[u8]) -> (r: bool)
    ensures
        r == !zero_free(s@),
{
    let mut i: usize = 0;
    while i < s.len()
        invariant
            i <= s.len(),
            forall|j: int| 0 <= j < i ==> #[trigger] s@[j] != 0,
        decreases s.len() - i,
    {
        if s[i] == 0 {
            assert(s@[i as int] == 0);
            return true;
        }
        i = i + 1;
    }
    false
}

/// The text of a key value, before it is checked.
pub open spec fn key_text(v: Json) -> core::result::Result<Seq<u8>, FlowErrorView> {
    match v {
        Json::Null => Ok(encode_utf8("null"@)),
        Json::Bool(b) => Ok(
            encode_utf8(
                if b {
                    "true"@
                } else {
                    "false"@
                },
            ),
        ),
        Json::Number(n) => Ok(number_text(n)),
        Json::Text(s) => Ok(s),
        _ => encoded_doc(v),
    }
}

pub open spec fn number_text(n: NumberView) -> Seq<u8> {
    match n {
        NumberView::PosInt(n) => encode_utf8(decimal(n as nat)),
        NumberView::NegInt(n) => encode_utf8(signed_decimal(n as int)),
        NumberView::Float { bits, text } => text,
    }
}

/// The bytes that a value is as a primary key: its text, which must not hold a
/// zero byte. An array or an object is its JSON text.
pub open spec fn primary_key(v: Json) -> core::result::Result<Seq<u8>, FlowErrorView> {
    match key_text(v) {
        Err(e) => Err(e),
        Ok(s) => if zero_free(s) {
            Ok(s)
        } else {
            Err(FlowErrorView::JsonDb("primary key must not contain a null byte"@))
        },
    }
}

fn number_key_text(n: &JsonNumber) -> (r: Vec<u8>)
    ensures
        r@ == number_text(n@),
{
    match n {
        JsonNumber::PosInt(u) => str_bytes(decimal_text(*u).as_str()),
        JsonNumber::NegInt(i) => str_bytes(signed_decimal_text(*i).as_str()),
        JsonNumber::Float { bits, text } => str_bytes(text.as_str()),
    }
}

/// Encodes a primary key.
pub fn encode_primary_key(v: &JsonValue) -> (r: Result<Vec<u8>>)
    ensures
        r is Ok <==> primary_key(v@) is Ok,
        match r {
            Ok(pk) => pk@ == primary_key(v@)->Ok_0 && zero_free(pk@),
            Err(e) => e@ == primary_key(v@)->Err_0,
        },
{
    let text = match v {
        JsonValue::Null => str_bytes("null"),
        JsonValue::Bool(b) => if *b {
            str_bytes("true")
        } else {
            str_bytes("false")
        },
        JsonValue::Number(n) => number_key_text(n),
        JsonValue::String(s) => str_bytes(s.as_str()),
        _ => match encode_doc(v) {
            Ok(bytes) => bytes,
            Err(e) => {
                return Err(e);
            },
        },
    };
    if has_zero(&text) {
        return Err(FlowError::JsonDb(string_of("primary key must not contain a null byte")));
    }
    Ok(text)
}

/// `s` with its zero and one bytes replaced by pairs, so that no zero byte is
/// left and the order of byte strings stays.
pub open spec fn escaped(s: Seq<u8>) -> Seq<u8>
    decreases s.len(),
{
    if s.len() == 0 {
        Seq::empty()
    } else {
        escaped(s.drop_last()) + escaped_byte(s.last())
    }
}

pub open spec fn escaped_byte(b: u8) -> Seq<u8> {
    if b == 0 {
        seq![1u8, 1]
    } else if b == 1 {
        seq![1u8, 2]
    } else {
        seq![b]
    }
}

fn push_escaped(buf: &mut Vec<u8>, s: &[u8])
    ensures
        final(buf)@ == old(buf)@ + escaped(s@),
{
    let mut i: usize = 0;
    let ghost start = buf@;
    assert(s@.subrange(0, 0) =~= Seq::<u8>::empty());
    assert(start + Seq::<u8>::empty() =~= start);
    while i < s.len()
        invariant
            i <= s.len(),
            start == old(buf)@,
            buf@ == start + escaped(s@.subrange(0, i as int)),
        decreases s.len() - i,
    {
        let b: u8 = s[i];
        let ghost before = buf@;
        proof {
            assert(s@.subrange(0, i + 1).drop_last() =~= s@.subrange(0, i as int));
        }
        if b == 0 {
            buf.push(1);
            buf.push(1);
        } else if b == 1 {
            buf.push(1);
            buf.push(2);
        } else {
            buf.push(b);
        }
        assert(buf@ =~= before + escaped_byte(b));
        assert(buf@ =~= start + escaped(s@.subrange(0, i + 1)));
        i = i + 1;
    }
    assert(s@.subrange(0, s@.len() as int) =~= s@);
}

/// A hexadecimal digit.
pub open spec fn hex_digit(d: nat) -> u8 {
    if d < 10 {
        (48 + d) as u8
    } else {
        (87 + d) as u8
    }
}

/// The last `w` hexadecimal digits of `n`.
pub open spec fn hex(n: nat, w: nat) -> Seq<u8>
    decreases w,
{
    if w == 0 {
        Seq::empty()
    } else {
        hex(n / 16, (w - 1) as nat).push(hex_digit(n % 16))
    }
}

fn push_hex(buf: &mut Vec<u8>, n: u64, w: usize)
    ensures
        final(buf)@ == old(buf)@ + hex(n as nat, w as nat),
    decreases w,
{
    if w > 0 {
        push_hex(buf, n / 16, w - 1);
        let d: u8 = (n % 16) as u8;
        if d < 10 {
            buf.push(48 + d);
        } else {
            buf.push(87 + d);
        }
        assert(buf@ =~= old(buf)@ + hex(n as nat, w as nat));
    } else {
        assert(buf@ =~= old(buf)@ + hex(n as nat, w as nat));
    }
}

/// The number of binary digits of `m`, and `m` shifted left to fill 64 of them.
pub open spec fn normalized(m: nat) -> (int, nat)
    decreases 0x1_0000_0000_0000_0000 - m,
    when 0 < m < 0x1_0000_0000_0000_0000
{
    if m >= 0x8000_0000_0000_0000 {
        (64, m)
    } else {
        (normalized(2 * m).0 - 1, normalized(2 * m).1)
    }
}

fn normalize(m: u64) -> (r: (u64, u64))
    requires
        m > 0,
    ensures
        r.0 as int == normalized(m as nat).0,
        r.1 as nat == normalized(m as nat).1,
        1 <= r.0 <= 64,
{
    let mut x: u64 = m;
    let mut len: u64 = 64;
    proof {
        lemma_normalized(m as nat);
    }
    while x < 0x8000_0000_0000_0000
        invariant
            0 < x,
            0 < m,
            normalized(m as nat).0 == normalized(x as nat).0 - (64 - len),
            normalized(m as nat).1 == normalized(x as nat).1,
            normalized(m as nat).0 >= 1,
            len <= 64,
        decreases 0x1_0000_0000_0000_0000 - x,
    {
        proof {
            lemma_normalized(x as nat);
            lemma_normalized(2 * x as nat);
        }
        x = x * 2;
        len = len - 1;
    }
    (len, x)
}

/// A normalized number fills 64 digits, and shifting it back gives the number.
pub proof fn lemma_normalized(m: nat)
    requires
        0 < m < 0x1_0000_0000_0000_0000,
    ensures
        1 <= normalized(m).0 <= 64,
        m >= 2 ==> normalized(m).0 >= 2,
        0x8000_0000_0000_0000 <= normalized(m).1 < 0x1_0000_0000_0000_0000,
        normalized(m).1 == m * pow2((64 - normalized(m).0) as nat),
    decreases 0x1_0000_0000_0000_0000 - m,
{
    assert(pow2(0) == 1);
    assert(pow2(1) == 2 * pow2(0));
    lemma_steps(m, 0);
    if m >= 2 {
        lemma_steps(m, 1);
    }
    if m < 0x8000_0000_0000_0000 {
        lemma_normalized(2 * m);
        let k = (64 - normalized(2 * m).0) as nat;
        assert(pow2(k + 1) == 2 * pow2(k));
        assert((2 * m) * pow2(k) == m * (2 * pow2(k))) by (nonlinear_arith);
    } else {
        assert(m * 1 == m);
    }
}

/// Doubling a number at most 63 times fills 64 digits.
proof fn lemma_steps(m: nat, k: nat)
    requires
        0 < m < 0x1_0000_0000_0000_0000,
        k <= 63,
        m >= pow2(k),
    ensures
        normalized(m).0 >= k + 1,
    decreases 0x1_0000_0000_0000_0000 - m,
{
    lemma_pow2_63();
    if m < 0x8000_0000_0000_0000 {
        if k == 63 {
            assert(false);
        }
        assert(pow2(k + 1) == 2 * pow2(k));
        lemma_steps(2 * m, k + 1);
    }
}

/// 2 to the power `k`.
pub open spec fn pow2(k: nat) -> nat
    decreases k,
{
    if k == 0 {
        1
    } else {
        2 * pow2((k - 1) as nat)
    }
}

pub proof fn lemma_pow2_63()
    ensures
        pow2(63) == 0x8000_0000_0000_0000,
        pow2(64) == 0x1_0000_0000_0000_0000,
{
    reveal_with_fuel(pow2, 65);
}

/// What is added to an exponent so that it is never negative.
pub const EXPONENT_BIAS: u64 = 1100;

/// The exponent of the leading binary digit of `m * 2^base`, biased, and the
/// digits from there on.
pub open spec fn magnitude(m: nat, base: int) -> (nat, nat) {
    ((base + normalized(m).0 - 1 + EXPONENT_BIAS) as nat, normalized(m).1)
}

/// The sortable form of `m * 2^base`: a sign, then exponent and digits, which
/// are turned around for negative numbers.
pub open spec fn sortable(negative: bool, m: nat, base: int) -> Seq<u8> {
    if m == 0 {
        seq![50u8]
    } else {
        let (e, d) = magnitude(m, base);
        if negative {
            seq![49u8] + hex((0xffff - e) as nat, 4) + hex((0xffff_ffff_ffff_ffff - d) as nat, 16)
        } else {
            seq![51u8] + hex(e, 4) + hex(d, 16)
        }
    }
}

/// A number's sign, digits and exponent: the number is `digits * 2^exponent`.
pub open spec fn parts(n: NumberView) -> (bool, nat, int) {
    match n {
        NumberView::PosInt(n) => (false, n as nat, 0),
        NumberView::NegInt(n) => if n < 0 {
            (true, (-n) as nat, 0)
        } else {
            (false, n as nat, 0)
        },
        NumberView::Float { bits, text } => {
            let negative = bits >= 0x8000_0000_0000_0000;
            let e = (bits as int / 0x10_0000_0000_0000) % 2048;
            let f = bits as int % 0x10_0000_0000_0000;
            if e == 0 {
                (negative, f as nat, -1074)
            } else {
                (negative, (0x10_0000_0000_0000 + f) as nat, e - 1075)
            }
        },
    }
}

/// The bytes that a number sorts by.
pub open spec fn number_key(n: NumberView) -> Seq<u8> {
    sortable(parts(n).0, parts(n).1, parts(n).2)
}

/// The bytes that a value sorts by in an index: first by its type, then by the
/// value. No byte is zero.
pub open spec fn index_value(v: Json) -> Seq<u8> {
    match v {
        Json::Null => seq![16u8],
        Json::Bool(b) => seq![
            32u8,
            if b {
                2
            } else {
                1
            },
        ],
        Json::Number(n) => seq![48u8] + number_key(n),
        Json::Text(s) => seq![64u8] + escaped(s),
        Json::Array(a) => seq![80u8] + escaped(text_or_nothing(v)),
        Json::Object(fs) => seq![96u8] + escaped(text_or_nothing(v)),
    }
}

/// The JSON text of a value; nothing where it has none.
pub open spec fn text_or_nothing(v: Json) -> Seq<u8> {
    match encoded_doc(v) {
        Ok(s) => s,
        Err(_) => Seq::empty(),
    }
}

/// The sign, digits and exponent of a number. The exponent comes with 1075 added.
fn number_parts(n: &JsonNumber) -> (r: (bool, u64, u64))
    ensures
        r.0 == parts(n@).0,
        r.1 as nat == parts(n@).1,
        r.2 as int == parts(n@).2 + 1075,
        r.2 <= 2047,
{
    match n {
        JsonNumber::PosInt(u) => (false, *u, 1075),
        JsonNumber::NegInt(i) => {
            let i: i64 = *i;
            if i < 0 {
                (true, (-(i + 1)) as u64 + 1, 1075)
            } else {
                (false, i as u64, 1075)
            }
        },
        JsonNumber::Float { bits, text } => {
            let b: u64 = *bits;
            let negative = b >= 0x8000_0000_0000_0000;
            let e: u64 = (b / 0x10_0000_0000_0000) % 2048;
            let f: u64 = b % 0x10_0000_0000_0000;
            if e == 0 {
                (negative, f, 1)
            } else {
                (negative, 0x10_0000_0000_0000 + f, e)
            }
        },
    }
}

fn push_number(buf: &mut Vec<u8>, n: &JsonNumber)
    ensures
        final(buf)@ == old(buf)@ + number_key(n@),
{
    let ghost start = buf@;
    let (negative, m, base) = number_parts(n);
    if m == 0 {
        buf.push(50);
        assert(buf@ =~= start + number_key(n@));
        return;
    }
    let (len, d) = normalize(m);
    proof {
        lemma_normalized(m as nat);
    }
    let e: u64 = base + len + (EXPONENT_BIAS - 1076);
    if negative {
        buf.push(49);
        push_hex(buf, 0xffff - e, 4);
        push_hex(buf, 0xffff_ffff_ffff_ffff - d, 16);
    } else {
        buf.push(51);
        push_hex(buf, e, 4);
        push_hex(buf, d, 16);
    }
    assert(buf@ =~= start + number_key(n@));
}

/// Encodes a value so that the order of the bytes is the order of the values.
pub fn encode_index_value(v: &JsonValue) -> (r: Vec<u8>)
    ensures
        r@ == index_value(v@),
{
    let mut buf: Vec<u8> = Vec::new();
    match v {
        JsonValue::Null => {
            buf.push(16);
        },
        JsonValue::Bool(b) => {
            buf.push(32);
            if *b {
                buf.push(2);
            } else {
                buf.push(1);
            }
        },
        JsonValue::Number(n) => {
            buf.push(48);
            push_number(&mut buf, n);
        },
        JsonValue::String(s) => {
            buf.push(64);
            push_escaped(&mut buf, s.as_str().as_bytes());
        },
        JsonValue::Array(_) => {
            buf.push(80);
            if let Ok(text) = encode_doc(v) {
                push_escaped(&mut buf, &text);
            }
        },
        JsonValue::Object(_) => {
            buf.push(96);
            if let Ok(text) = encode_doc(v) {
                push_escaped(&mut buf, &text);
            }
        },
    }
    assert(buf@ =~= index_value(v@));
    buf
}

/// The values of a composite index entry, separated.
pub open spec fn composite_value(vals: Seq<Json>) -> Seq<u8>
    decreases vals.len(),
{
    if vals.len() == 0 {
        Seq::empty()
    } else if vals.len() == 1 {
        index_value(vals.last())
    } else {
        composite_value(vals.drop_last()) + seq![0u8] + index_value(vals.last())
    }
}

/// Encodes the values of an index entry, one after the other.
pub fn encode_composite_value(vals: &Vec<JsonValue>) -> (r: Vec<u8>)
    ensures
        r@ == composite_value(json_seq(vals@)),
{
    let ghost all = json_seq(vals@);
    let mut buf: Vec<u8> = Vec::new();
    let mut i: usize = 0;
    assert(all.subrange(0, 0) =~= Seq::<Json>::empty());
    while i < vals.len()
        invariant
            i <= vals.len(),
            all == json_seq(vals@),
            buf@ == composite_value(all.subrange(0, i as int)),
        decreases vals.len() - i,
    {
        let ghost before = buf@;
        proof {
            assert(all.subrange(0, i + 1).drop_last() =~= all.subrange(0, i as int));
            assert(all.subrange(0, i + 1).last() == vals@[i as int]@);
        }
        if i > 0 {
            buf.push(SEP);
        }
        push_bytes(&mut buf, &encode_index_value(&vals[i]));
        if i == 0 {
            assert(buf@ =~= composite_value(all.subrange(0, i + 1)));
        } else {
            assert(buf@ =~= before + seq![0u8] + index_value(vals@[i as int]@));
        }
        i = i + 1;
    }
    assert(all.subrange(0, all.len() as int) =~= all);
    buf
}

/// The values at several paths, if all of them are there.
pub open spec fn fields_at(doc: Json, paths: Seq<Seq<u8>>) -> Option<Seq<Json>>
    decreases paths.len(),
{
    if paths.len() == 0 {
        Some(Seq::empty())
    } else {
        match (fields_at(doc, paths.drop_last()), field_at(doc, paths.last())) {
            (Some(s), Some(v)) => Some(s.push(v)),
            _ => None,
        }
    }
}

/// The value lists that a document is entered under in an index: the values at
/// the index's paths, if all are there. A multi-entry index over one path that
/// leads to an array enters the document under each element.
pub open spec fn index_entries(doc: Json, paths: Seq<Seq<u8>>, multi: bool) -> Seq<Seq<Json>> {
    match fields_at(doc, paths) {
        None => Seq::empty(),
        Some(vals) => if multi && vals.len() == 1 && vals[0] is Array {
            vals[0]->Array_0.map_values(|v: Json| seq![v])
        } else {
            seq![vals]
        },
    }
}

/// The lists of values in a sequence.
pub open spec fn json_lists(s: Seq<Vec<JsonValue>>) -> Seq<Seq<Json>> {
    s.map_values(|v: Vec<JsonValue>| json_seq(v@))
}

/// The UTF-8 bytes of each text.
pub open spec fn path_bytes(s: Seq<String>) -> Seq<Seq<u8>> {
    s.map_values(|p: String| encode_utf8(p@))
}

/// Collects the value lists that a document is entered under in an index.
pub fn index_values_of(doc: &JsonValue, paths: &Vec<String>, multi: bool) -> (r: Vec<
    Vec<JsonValue>,
>)
    ensures
        json_lists(r@) == index_entries(doc@, path_bytes(paths@), multi),
{
    let ghost all = path_bytes(paths@);
    let mut vals: Vec<JsonValue> = Vec::new();
    let mut out: Vec<Vec<JsonValue>> = Vec::new();
    let mut i: usize = 0;
    assert(all.subrange(0, 0) =~= Seq::<Seq<u8>>::empty());
    assert(json_seq(vals@) =~= Seq::<Json>::empty());
    assert(json_lists(out@) =~= Seq::<Seq<Json>>::empty());
    while i < paths.len()
        invariant
            i <= paths.len(),
            all == path_bytes(paths@),
            json_lists(out@) == Seq::<Seq<Json>>::empty(),
            fields_at(doc@, all.subrange(0, i as int)) == Some(json_seq(vals@)),
        decreases paths.len() - i,
    {
        let ghost before = json_seq(vals@);
        proof {
            assert(all.subrange(0, i + 1).drop_last() =~= all.subrange(0, i as int));
            assert(all.subrange(0, i + 1).last() == encode_utf8(paths@[i as int]@));
        }
        match follow(doc, paths[i].as_str().as_bytes()) {
            Some(v) => {
                let c = v.copy();
                let ghost j = c@;
                vals.push(c);
                assert(json_seq(vals@) =~= before.push(j));
            },
            None => {
                proof {
                    lemma_missing_field(doc@, all, i as int);
                }
                return out;
            },
        }
        i = i + 1;
    }
    assert(all.subrange(0, all.len() as int) =~= all);
    let ghost want = json_seq(vals@);
    if multi && vals.len() == 1 {
        assert(want[0] == vals@[0]@);
        if let JsonValue::Array(a) = &vals[0] {
            proof {
                lemma_array_view(*a);
            }
            let ghost elems = json_seq(a@);
            let ghost singles = elems.map_values(|v: Json| seq![v]);
            let mut k: usize = 0;
            assert(json_lists(out@) =~= singles.subrange(0, 0));
            while k < a.len()
                invariant
                    k <= a.len(),
                    elems == json_seq(a@),
                    singles == elems.map_values(|v: Json| seq![v]),
                    json_lists(out@) == singles.subrange(0, k as int),
                decreases a.len() - k,
            {
                let ghost before = json_lists(out@);
                let mut one: Vec<JsonValue> = Vec::new();
                one.push(a[k].copy());
                let ghost ov = json_seq(one@);
                assert(ov =~= seq![elems[k as int]]);
                out.push(one);
                assert(json_lists(out@) =~= before.push(ov));
                assert(json_lists(out@) =~= singles.subrange(0, k + 1));
                k = k + 1;
            }
            assert(singles.subrange(0, singles.len() as int) =~= singles);
            return out;
        }
    }
    out.push(vals);
    assert(json_lists(out@) =~= seq![want]);
    out
}

/// One missing field is enough.
proof fn lemma_missing_field(doc: Json, paths: Seq<Seq<u8>>, i: int)
    requires
        0 <= i < paths.len(),
        field_at(doc, paths[i]) is None,
    ensures
        fields_at(doc, paths) is None,
    decreases paths.len(),
{
    if i < paths.len() - 1 {
        assert(paths.drop_last()[i] == paths[i]);
        lemma_missing_field(doc, paths.drop_last(), i);
    }
}

} // verus!
