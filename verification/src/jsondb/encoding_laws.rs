//! What holds of the encodings: index values sort as the values do, and no
//! value is taken for another.

use vstd::prelude::*;

use crate::bytes::{
    has_prefix, lemma_lex_asymmetric, lemma_lex_irreflexive, lemma_lex_not_le, lemma_lex_total,
    lemma_prefix_range, less_at, lex_le, lex_lt, prefix_successor,
};
use crate::jsondb::encoding::{
    composite_value, doc_key_of, doc_prefix_of, escaped, escaped_byte, hex, hex_digit, idx_key_of,
    idx_prefix_of, index_value, lemma_normalized, lemma_pow2_63, magnitude, normalized, number_key,
    parts, pow2, primary_key, sortable, text_or_nothing, zero_free,
};
use crate::jsondb::key_laws::lemma_last_zero;
use crate::jsondb::keyrange::KeyRangeView;
use crate::jsondb::value::{Json, NumberView};
use crate::record::{Bound, ScanRangeView};

verus! {

proof fn lemma_zero_free_add(a: Seq<u8>, b: Seq<u8>)
    requires
        zero_free(a),
        zero_free(b),
    ensures
        zero_free(a + b),
{
    assert forall|i: int| 0 <= i < (a + b).len() implies #[trigger] (a + b)[i] != 0 by {
        if i < a.len() {
            assert((a + b)[i] == a[i]);
        } else {
            assert((a + b)[i] == b[i - a.len()]);
        }
    }
}

proof fn lemma_escaped_zero_free(s: Seq<u8>)
    ensures
        zero_free(escaped(s)),
    decreases s.len(),
{
    if s.len() > 0 {
        lemma_escaped_zero_free(s.drop_last());
        lemma_zero_free_add(escaped(s.drop_last()), escaped_byte(s.last()));
    }
}

proof fn lemma_hex_zero_free(n: nat, w: nat)
    ensures
        zero_free(hex(n, w)),
        hex(n, w).len() == w,
    decreases w,
{
    if w > 0 {
        lemma_hex_zero_free(n / 16, (w - 1) as nat);
        let a = hex(n / 16, (w - 1) as nat);
        let d = hex_digit(n % 16);
        assert forall|i: int| 0 <= i < a.push(d).len() implies #[trigger] a.push(d)[i] != 0 by {
            if i < a.len() {
                assert(a.push(d)[i] == a[i]);
            }
        }
    }
}

/// No index value holds a zero byte.
pub proof fn law_index_values_are_zero_free(v: Json)
    ensures
        zero_free(index_value(v)),
        index_value(v).len() > 0,
{
    match v {
        Json::Number(n) => {
            let (neg, m, base) = parts(n);
            if m != 0 {
                let (e, d) = magnitude(m, base);
                if neg {
                    lemma_hex_zero_free((0xffff - e) as nat, 4);
                    lemma_hex_zero_free((0xffff_ffff_ffff_ffff - d) as nat, 16);
                    lemma_zero_free_add(seq![49u8], hex((0xffff - e) as nat, 4));
                    lemma_zero_free_add(
                        seq![49u8] + hex((0xffff - e) as nat, 4),
                        hex((0xffff_ffff_ffff_ffff - d) as nat, 16),
                    );
                } else {
                    lemma_hex_zero_free(e, 4);
                    lemma_hex_zero_free(d, 16);
                    lemma_zero_free_add(seq![51u8], hex(e, 4));
                    lemma_zero_free_add(seq![51u8] + hex(e, 4), hex(d, 16));
                }
            }
            lemma_zero_free_add(seq![48u8], number_key(n));
        },
        Json::Text(s) => {
            lemma_escaped_zero_free(s);
            lemma_zero_free_add(seq![64u8], escaped(s));
        },
        Json::Array(a) => {
            lemma_escaped_zero_free(text_or_nothing(v));
            lemma_zero_free_add(seq![80u8], escaped(text_or_nothing(v)));
        },
        Json::Object(fs) => {
            lemma_escaped_zero_free(text_or_nothing(v));
            lemma_zero_free_add(seq![96u8], escaped(text_or_nothing(v)));
        },
        _ => {},
    }
}

/// The number of zero bytes.
pub open spec fn zeros(s: Seq<u8>) -> nat
    decreases s.len(),
{
    if s.len() == 0 {
        0
    } else {
        zeros(s.drop_last()) + if s.last() == 0 {
            1nat
        } else {
            0nat
        }
    }
}

pub proof fn lemma_zeros_add(a: Seq<u8>, b: Seq<u8>)
    ensures
        zeros(a + b) == zeros(a) + zeros(b),
    decreases b.len(),
{
    if b.len() == 0 {
        assert(a + b =~= a);
    } else {
        assert((a + b).drop_last() =~= a + b.drop_last());
        assert((a + b).last() == b.last());
        lemma_zeros_add(a, b.drop_last());
    }
}

pub proof fn lemma_zeros_none(s: Seq<u8>)
    ensures
        zeros(s) == 0 <==> zero_free(s),
    decreases s.len(),
{
    if s.len() > 0 {
        let t = s.drop_last();
        lemma_zeros_none(t);
        if zero_free(s) {
            assert forall|i: int| 0 <= i < t.len() implies #[trigger] t[i] != 0 by {
                assert(t[i] == s[i]);
            }
            assert(s[s.len() - 1] != 0);
        }
        if zeros(s) == 0 {
            assert forall|i: int| 0 <= i < s.len() implies #[trigger] s[i] != 0 by {
                if i < t.len() {
                    assert(s[i] == t[i]);
                }
            }
        }
    }
}

pub proof fn lemma_zeros_of_separator()
    ensures
        zeros(seq![0u8]) == 1,
{
    assert(seq![0u8].drop_last() =~= Seq::<u8>::empty());
    assert(zeros(Seq::<u8>::empty()) == 0);
}

/// The values of an index entry are separated by zero bytes.
pub proof fn lemma_zeros_composite(vals: Seq<Json>)
    requires
        vals.len() > 0,
    ensures
        zeros(composite_value(vals)) == vals.len() - 1,
    decreases vals.len(),
{
    law_index_values_are_zero_free(vals.last());
    lemma_zeros_none(index_value(vals.last()));
    if vals.len() > 1 {
        lemma_zeros_composite(vals.drop_last());
        lemma_zeros_of_separator();
        let a = composite_value(vals.drop_last());
        lemma_zeros_add(a, seq![0u8]);
        lemma_zeros_add(a + seq![0u8], index_value(vals.last()));
    }
}

/// Two lists of equally many values have the same encoding only where their
/// values have, one by one.
pub proof fn law_composite_values_are_exact(a: Seq<Json>, b: Seq<Json>)
    requires
        a.len() == b.len(),
    ensures
        composite_value(a) == composite_value(b) <==> forall|i: int|
            0 <= i < a.len() ==> index_value(#[trigger] a[i]) == index_value(b[i]),
    decreases a.len(),
{
    if a.len() > 0 {
        let c = a.drop_last();
        let d = b.drop_last();
        law_composite_values_are_exact(c, d);
        law_index_values_are_zero_free(a.last());
        law_index_values_are_zero_free(b.last());
        if composite_value(a) == composite_value(b) {
            if a.len() > 1 {
                lemma_last_zero(
                    composite_value(c),
                    index_value(a.last()),
                    composite_value(d),
                    index_value(b.last()),
                );
            } else {
                assert(c =~= d);
            }
            assert forall|i: int| 0 <= i < a.len() implies index_value(#[trigger] a[i])
                == index_value(b[i]) by {
                if i < c.len() {
                    assert(a[i] == c[i] && b[i] == d[i]);
                    assert(index_value(c[i]) == index_value(d[i]));
                }
            }
        }
        if forall|i: int| 0 <= i < a.len() ==> index_value(#[trigger] a[i]) == index_value(b[i]) {
            assert forall|i: int| 0 <= i < c.len() implies index_value(#[trigger] c[i])
                == index_value(d[i]) by {
                assert(a[i] == c[i] && b[i] == d[i]);
            }
            assert(index_value(a[a.len() - 1]) == index_value(b[a.len() - 1]));
        }
    } else {
        assert(a =~= b);
    }
}

/// A common beginning does not matter for the order.
pub proof fn lemma_lex_add(p: Seq<u8>, a: Seq<u8>, b: Seq<u8>)
    ensures
        lex_lt(p + a, p + b) <==> lex_lt(a, b),
{
    if lex_lt(a, b) {
        let i = choose|i: int| less_at(a, b, i);
        assert(less_at(p + a, p + b, p.len() + i)) by {
            assert forall|j: int| 0 <= j < p.len() + i implies (p + a)[j] == (p + b)[j] by {
                if j >= p.len() {
                    assert(a[j - p.len()] == b[j - p.len()]);
                }
            }
        }
    }
    if lex_lt(p + a, p + b) {
        let i = choose|i: int| less_at(p + a, p + b, i);
        if i < p.len() {
            assert((p + a)[i] == (p + b)[i]);
        }
        let k = i - p.len();
        assert(less_at(a, b, k)) by {
            assert forall|j: int| 0 <= j < k implies a[j] == b[j] by {
                assert((p + a)[p.len() + j] == (p + b)[p.len() + j]);
            }
        }
    }
}

/// What is decided within strings of one length stays so, whatever follows.
pub proof fn lemma_lex_extend(a: Seq<u8>, b: Seq<u8>, x: Seq<u8>, y: Seq<u8>)
    requires
        a.len() == b.len(),
        lex_lt(a, b),
    ensures
        lex_lt(a + x, b + y),
{
    let i = choose|i: int| less_at(a, b, i);
    assert(less_at(a + x, b + y, i));
}

proof fn lemma_escaped_add(a: Seq<u8>, b: Seq<u8>)
    ensures
        escaped(a + b) == escaped(a) + escaped(b),
    decreases b.len(),
{
    if b.len() == 0 {
        assert(a + b =~= a);
        assert(escaped(a) + escaped(b) =~= escaped(a));
    } else {
        assert((a + b).drop_last() =~= a + b.drop_last());
        assert((a + b).last() == b.last());
        lemma_escaped_add(a, b.drop_last());
        assert(escaped(a) + escaped(b.drop_last()) + escaped_byte(b.last()) =~= escaped(a) + (
        escaped(b.drop_last()) + escaped_byte(b.last())));
    }
}

proof fn lemma_escaped_first(s: Seq<u8>)
    requires
        s.len() > 0,
    ensures
        escaped(s) == escaped_byte(s[0]) + escaped(s.skip(1)),
{
    assert(s =~= seq![s[0]] + s.skip(1));
    lemma_escaped_add(seq![s[0]], s.skip(1));
    assert(seq![s[0]].drop_last() =~= Seq::<u8>::empty());
    assert(escaped(Seq::<u8>::empty()) =~= Seq::<u8>::empty());
    assert(escaped(seq![s[0]]) =~= escaped_byte(s[0]));
}

/// The order of byte strings stays when they are escaped.
proof fn lemma_escaped_order(s: Seq<u8>, t: Seq<u8>)
    requires
        lex_lt(s, t),
    ensures
        lex_lt(escaped(s), escaped(t)),
{
    let i = choose|i: int| less_at(s, t, i);
    let c = s.subrange(0, i);
    let a = s.skip(i);
    let b = t.skip(i);
    assert(t.subrange(0, i) =~= c);
    assert(s =~= c + a);
    assert(t =~= c + b);
    lemma_escaped_add(c, a);
    lemma_escaped_add(c, b);
    lemma_escaped_first(b);
    let eb = escaped(b);
    if a.len() == 0 {
        assert(escaped(a) =~= Seq::<u8>::empty());
        assert(less_at(escaped(a), eb, 0));
    } else {
        lemma_escaped_first(a);
        let ea = escaped(a);
        assert(a[0] == s[i] && b[0] == t[i]);
        if a[0] == 0 && b[0] == 1 {
            assert(ea[0] == 1 && ea[1] == 1);
            assert(eb[0] == 1 && eb[1] == 2);
            assert(less_at(ea, eb, 1));
        } else {
            assert(ea[0] < eb[0]);
            assert(less_at(ea, eb, 0));
        }
    }
    lemma_lex_add(escaped(c), escaped(a), escaped(b));
}

/// Texts sort by their bytes.
pub proof fn law_texts_sort_by_bytes(s: Seq<u8>, t: Seq<u8>)
    ensures
        lex_lt(index_value(Json::Text(s)), index_value(Json::Text(t))) <==> lex_lt(s, t),
        index_value(Json::Text(s)) == index_value(Json::Text(t)) <==> s == t,
{
    let a = index_value(Json::Text(s));
    let b = index_value(Json::Text(t));
    lemma_lex_add(seq![64u8], escaped(s), escaped(t));
    lemma_lex_total(s, t);
    if lex_lt(s, t) {
        lemma_escaped_order(s, t);
        lemma_lex_asymmetric(a, b);
    }
    if lex_lt(t, s) {
        lemma_escaped_order(t, s);
        lemma_lex_add(seq![64u8], escaped(t), escaped(s));
        lemma_lex_asymmetric(b, a);
        lemma_lex_asymmetric(t, s);
    }
    if s == t {
        lemma_lex_irreflexive(a);
        lemma_lex_irreflexive(s);
    }
}

/// How the types of values sort.
pub open spec fn type_rank(v: Json) -> int {
    match v {
        Json::Null => 0,
        Json::Bool(_) => 1,
        Json::Number(_) => 2,
        Json::Text(_) => 3,
        Json::Array(_) => 4,
        Json::Object(_) => 5,
    }
}

/// Values of different types sort by their types: null, booleans, numbers,
/// texts, arrays, objects.
pub proof fn law_types_sort_apart(a: Json, b: Json)
    requires
        type_rank(a) < type_rank(b),
    ensures
        lex_lt(index_value(a), index_value(b)),
{
    let x = index_value(a);
    let y = index_value(b);
    law_index_values_are_zero_free(a);
    law_index_values_are_zero_free(b);
    assert(x[0] < y[0]);
    assert(less_at(x, y, 0));
}

/// `false` sorts before `true`.
pub proof fn law_false_sorts_before_true()
    ensures
        lex_lt(index_value(Json::Bool(false)), index_value(Json::Bool(true))),
{
    assert(less_at(index_value(Json::Bool(false)), index_value(Json::Bool(true)), 1));
}

/// 16 to the power `w`.
pub open spec fn pow16(w: nat) -> nat
    decreases w,
{
    if w == 0 {
        1
    } else {
        16 * pow16((w - 1) as nat)
    }
}

/// Hexadecimal digits of one number sort as the numbers do.
proof fn lemma_hex_order(n: nat, m: nat, w: nat)
    requires
        n < m < pow16(w),
    ensures
        lex_lt(hex(n, w), hex(m, w)),
    decreases w,
{
    if w > 0 {
        let v = (w - 1) as nat;
        lemma_hex_zero_free(n / 16, v);
        lemma_hex_zero_free(m / 16, v);
        let a = hex(n / 16, v);
        let b = hex(m / 16, v);
        assert(m / 16 < pow16(v));
        if n / 16 < m / 16 {
            lemma_hex_order(n / 16, m / 16, v);
            lemma_lex_extend(a, b, seq![hex_digit(n % 16)], seq![hex_digit(m % 16)]);
            assert(hex(n, w) =~= a + seq![hex_digit(n % 16)]);
            assert(hex(m, w) =~= b + seq![hex_digit(m % 16)]);
        } else {
            assert(n / 16 == m / 16);
            assert(n % 16 < m % 16);
            assert(less_at(hex(n, w), hex(m, w), v as int));
        }
    }
}

proof fn lemma_pow16_values()
    ensures
        pow16(4) == 0x1_0000,
        pow16(16) == 0x1_0000_0000_0000_0000,
{
    reveal_with_fuel(pow16, 17);
}

pub proof fn lemma_pow2_add(a: nat, b: nat)
    ensures
        pow2(a + b) == pow2(a) * pow2(b),
    decreases b,
{
    if b == 0 {
        assert(pow2(a) * 1 == pow2(a));
    } else {
        lemma_pow2_add(a, (b - 1) as nat);
        assert(pow2(a + b) == 2 * pow2((a + b - 1) as nat));
        assert(2 * (pow2(a) * pow2((b - 1) as nat)) == pow2(a) * (2 * pow2((b - 1) as nat)))
            by (nonlinear_arith);
    }
}

pub proof fn lemma_pow2_positive(a: nat)
    ensures
        pow2(a) > 0,
    decreases a,
{
    if a > 0 {
        lemma_pow2_positive((a - 1) as nat);
    }
}

/// The size of `m * 2^base`, in units so small that it is a whole number for
/// every number of a document.
pub open spec fn scaled(m: nat, base: int) -> nat {
    m * pow2((base + 1074) as nat)
}

/// A number's value in those units.
pub open spec fn number_value(n: NumberView) -> int {
    let (negative, m, base) = parts(n);
    if negative {
        -(scaled(m, base) as int)
    } else {
        scaled(m, base) as int
    }
}

/// What the parts of a number are.
proof fn lemma_parts(n: NumberView)
    ensures
        parts(n).1 < 0x1_0000_0000_0000_0000,
        -1074 <= parts(n).2 <= 972,
{
}

/// Exponent and digits make up the size of a number.
proof fn lemma_magnitude(m: nat, base: int)
    requires
        0 < m < 0x1_0000_0000_0000_0000,
        -1074 <= base <= 972,
    ensures
        25 < magnitude(m, base).0 < 0xffff,
        0x8000_0000_0000_0000 <= magnitude(m, base).1 < 0x1_0000_0000_0000_0000,
        scaled(m, base) * pow2(64) == magnitude(m, base).1 * pow2(
            (magnitude(m, base).0 - 25) as nat,
        ),
{
    lemma_normalized(m);
    let (e, d) = magnitude(m, base);
    let len = normalized(m).0 as nat;
    let p = pow2((base + 1074) as nat);
    lemma_pow2_add((64 - len) as nat, len);
    lemma_pow2_add((base + 1074) as nat, len);
    assert((e - 25) as nat == (base + 1074) as nat + len);
    let a = pow2((64 - len) as nat);
    let b = pow2(len);
    assert((m * p) * (a * b) == (m * a) * (p * b)) by (nonlinear_arith);
}

/// A greater size has a greater exponent, or the same and greater digits.
proof fn lemma_size_order(m: nat, base: int, m2: nat, base2: int)
    requires
        0 < m < 0x1_0000_0000_0000_0000,
        -1074 <= base <= 972,
        0 < m2 < 0x1_0000_0000_0000_0000,
        -1074 <= base2 <= 972,
    ensures
        scaled(m, base) < scaled(m2, base2) ==> magnitude(m, base).0 < magnitude(m2, base2).0 || (
        magnitude(m, base).0 == magnitude(m2, base2).0 && magnitude(m, base).1 < magnitude(
            m2,
            base2,
        ).1),
        scaled(m, base) == scaled(m2, base2) ==> magnitude(m, base) == magnitude(m2, base2),
{
    lemma_magnitude(m, base);
    lemma_magnitude(m2, base2);
    let s = scaled(m, base);
    let t = scaled(m2, base2);
    let (e, d) = magnitude(m, base);
    let (f, c) = magnitude(m2, base2);
    lemma_pow2_63();
    lemma_pow2_positive(64);
    if e > f {
        lemma_greater_exponent(c, (f - 25) as nat, d, (e - 25) as nat);
        assert(s > t) by (nonlinear_arith)
            requires
                s * pow2(64) > t * pow2(64),
                pow2(64) > 0,
        ;
    }
    if e < f {
        lemma_greater_exponent(d, (e - 25) as nat, c, (f - 25) as nat);
        assert(s < t) by (nonlinear_arith)
            requires
                s * pow2(64) < t * pow2(64),
                pow2(64) > 0,
        ;
    }
    if e == f {
        let p = pow2((e - 25) as nat);
        lemma_pow2_positive((e - 25) as nat);
        if d > c {
            assert(s > t) by (nonlinear_arith)
                requires
                    s * pow2(64) == d * p,
                    t * pow2(64) == c * p,
                    d > c,
                    p > 0,
                    pow2(64) > 0,
            ;
        }
        if d < c {
            assert(s < t) by (nonlinear_arith)
                requires
                    s * pow2(64) == d * p,
                    t * pow2(64) == c * p,
                    d < c,
                    p > 0,
                    pow2(64) > 0,
            ;
        }
        if d == c {
            assert(s == t) by (nonlinear_arith)
                requires
                    s * pow2(64) == d * p,
                    t * pow2(64) == d * p,
                    pow2(64) > 0,
            ;
        }
    }
}

/// Of two numbers of 64 digits the one with the greater exponent is greater.
proof fn lemma_greater_exponent(d: nat, e: nat, c: nat, f: nat)
    requires
        d < 0x1_0000_0000_0000_0000,
        0x8000_0000_0000_0000 <= c,
        e < f,
    ensures
        d * pow2(e) < c * pow2(f),
{
    lemma_pow2_add(e, (f - e) as nat);
    lemma_pow2_positive(e);
    lemma_pow2_positive((f - e - 1) as nat);
    let g = pow2((f - e) as nat);
    assert(g == 2 * pow2((f - e - 1) as nat));
    assert(g >= 2);
    let p = pow2(e);
    assert(d * p < c * (p * g)) by (nonlinear_arith)
        requires
            d < 0x1_0000_0000_0000_0000,
            0x8000_0000_0000_0000 <= c,
            g >= 2,
            p > 0,
    ;
}

/// Sizes in their sortable form.
proof fn lemma_positive_order(m: nat, base: int, m2: nat, base2: int)
    requires
        0 < m < 0x1_0000_0000_0000_0000,
        -1074 <= base <= 972,
        0 < m2 < 0x1_0000_0000_0000_0000,
        -1074 <= base2 <= 972,
        scaled(m, base) < scaled(m2, base2),
    ensures
        lex_lt(sortable(false, m, base), sortable(false, m2, base2)),
        lex_lt(sortable(true, m2, base2), sortable(true, m, base)),
{
    lemma_size_order(m, base, m2, base2);
    lemma_magnitude(m, base);
    lemma_magnitude(m2, base2);
    lemma_pow16_values();
    let (e, d) = magnitude(m, base);
    let (f, c) = magnitude(m2, base2);
    let ne = (0xffff - e) as nat;
    let nf = (0xffff - f) as nat;
    let nd = (0xffff_ffff_ffff_ffff - d) as nat;
    let nc = (0xffff_ffff_ffff_ffff - c) as nat;
    lemma_hex_zero_free(e, 4);
    lemma_hex_zero_free(f, 4);
    lemma_hex_zero_free(ne, 4);
    lemma_hex_zero_free(nf, 4);
    if e < f {
        lemma_hex_order(e, f, 4);
        lemma_hex_order(nf, ne, 4);
        lemma_lex_extend(hex(e, 4), hex(f, 4), hex(d, 16), hex(c, 16));
        lemma_lex_extend(hex(nf, 4), hex(ne, 4), hex(nc, 16), hex(nd, 16));
    } else {
        lemma_hex_order(d, c, 16);
        lemma_hex_order(nc, nd, 16);
        lemma_lex_add(hex(e, 4), hex(d, 16), hex(c, 16));
        lemma_lex_add(hex(ne, 4), hex(nc, 16), hex(nd, 16));
    }
    lemma_lex_add(seq![51u8], hex(e, 4) + hex(d, 16), hex(f, 4) + hex(c, 16));
    lemma_lex_add(seq![49u8], hex(nf, 4) + hex(nc, 16), hex(ne, 4) + hex(nd, 16));
    assert(sortable(false, m, base) =~= seq![51u8] + (hex(e, 4) + hex(d, 16)));
    assert(sortable(false, m2, base2) =~= seq![51u8] + (hex(f, 4) + hex(c, 16)));
    assert(sortable(true, m, base) =~= seq![49u8] + (hex(ne, 4) + hex(nd, 16)));
    assert(sortable(true, m2, base2) =~= seq![49u8] + (hex(nf, 4) + hex(nc, 16)));
}

proof fn lemma_scaled_positive(m: nat, base: int)
    ensures
        scaled(m, base) == 0 <==> m == 0,
{
    lemma_pow2_positive((base + 1074) as nat);
    let p = pow2((base + 1074) as nat);
    if m > 0 {
        assert(m * p > 0) by (nonlinear_arith)
            requires
                m > 0,
                p > 0,
        ;
    } else {
        assert(0 * p == 0);
    }
}

/// Smaller numbers have smaller keys, and equal numbers have the same.
proof fn lemma_number_order(a: NumberView, b: NumberView)
    ensures
        number_value(a) < number_value(b) ==> lex_lt(number_key(a), number_key(b)),
        number_value(a) == number_value(b) ==> number_key(a) == number_key(b),
{
    lemma_parts(a);
    lemma_parts(b);
    let (na, m, base) = parts(a);
    let (nb, m2, base2) = parts(b);
    lemma_scaled_positive(m, base);
    lemma_scaled_positive(m2, base2);
    let x = number_key(a);
    let y = number_key(b);
    if m > 0 && m2 > 0 {
        lemma_size_order(m, base, m2, base2);
        if scaled(m, base) < scaled(m2, base2) {
            lemma_positive_order(m, base, m2, base2);
        }
        if scaled(m2, base2) < scaled(m, base) {
            lemma_positive_order(m2, base2, m, base);
        }
    }
    if number_value(a) < number_value(b) && !(m > 0 && m2 > 0 && na == nb) {
        assert(x[0] < y[0]);
        assert(less_at(x, y, 0));
    }
}

/// Numbers sort by value, whole and fractional ones alike.
pub proof fn law_numbers_sort_by_value(a: NumberView, b: NumberView)
    ensures
        lex_lt(index_value(Json::Number(a)), index_value(Json::Number(b))) <==> number_value(a)
            < number_value(b),
        index_value(Json::Number(a)) == index_value(Json::Number(b)) <==> number_value(a)
            == number_value(b),
{
    let x = number_key(a);
    let y = number_key(b);
    lemma_number_order(a, b);
    lemma_number_order(b, a);
    lemma_lex_add(seq![48u8], x, y);
    let i = index_value(Json::Number(a));
    let j = index_value(Json::Number(b));
    if number_value(a) < number_value(b) {
        lemma_lex_asymmetric(i, j);
    } else if number_value(b) < number_value(a) {
        lemma_lex_add(seq![48u8], y, x);
        lemma_lex_asymmetric(j, i);
    } else {
        lemma_lex_irreflexive(i);
    }
}

/// The whole number that is meant.
pub open spec fn whole(n: NumberView) -> Option<int> {
    match n {
        NumberView::PosInt(u) => Some(u as int),
        NumberView::NegInt(i) => Some(i as int),
        NumberView::Float { bits, text } => None,
    }
}

proof fn lemma_whole_value(n: NumberView, x: int)
    requires
        whole(n) == Some(x),
    ensures
        number_value(n) == x * pow2(1074),
{
    let p = pow2(1074) as int;
    let m = parts(n).1 as int;
    assert(parts(n).2 == 0);
    assert(scaled(parts(n).1, 0) == m * p);
    if parts(n).0 {
        assert(x == -m);
        assert((-m) * p == -(m * p)) by (nonlinear_arith);
    }
}

proof fn lemma_times(x: int, y: int, p: int)
    by (nonlinear_arith)
    requires
        p > 0,
    ensures
        x * p < y * p <==> x < y,
{
}

/// Whole numbers sort as they do in arithmetic.
pub proof fn law_whole_numbers_sort(a: NumberView, b: NumberView)
    requires
        whole(a) is Some,
        whole(b) is Some,
    ensures
        lex_lt(index_value(Json::Number(a)), index_value(Json::Number(b))) <==> whole(a)->0 < whole(
            b,
        )->0,
        index_value(Json::Number(a)) == index_value(Json::Number(b)) <==> whole(a)->0 == whole(
            b,
        )->0,
{
    law_numbers_sort_by_value(a, b);
    law_numbers_sort_by_value(b, a);
    lemma_pow2_positive(1074);
    let p = pow2(1074) as int;
    lemma_whole_value(a, whole(a)->0);
    lemma_whole_value(b, whole(b)->0);
    lemma_times(whole(a)->0, whole(b)->0, p);
    lemma_times(whole(b)->0, whole(a)->0, p);
}

/// A prefix that does not begin with the greatest byte has a successor.
pub proof fn lemma_has_successor(p: Seq<u8>)
    requires
        p.len() > 0,
        p[0] < 255,
    ensures
        prefix_successor(p) is Some,
    decreases p.len(),
{
    if p.last() == 255 {
        assert(p.len() > 1);
        lemma_has_successor(p.drop_last());
    }
}

/// The keys that a range admits are those between its bounds.
pub proof fn lemma_admits_between(range: ScanRangeView, key: Seq<u8>)
    requires
        match range.key_start {
            Bound::Included(s) => s.len() > 0 && s[0] < 255,
            _ => true,
        },
    ensures
        range.admits_key(key) <==> range.between_bounds(key),
{
    if let Bound::Included(s) = range.key_start {
        lemma_has_successor(s);
        lemma_prefix_range(s, key);
    }
}

/// A value and what comes before the entries of another one.
pub proof fn lemma_against_entry(l: Seq<u8>, v: Seq<u8>, rest: Seq<u8>)
    requires
        zero_free(l),
        zero_free(v),
        rest.len() > 0,
        rest[0] == 0,
    ensures
        lex_le(l, v + rest) <==> lex_le(l, v),
        lex_le(l + seq![1u8], v + rest) <==> lex_lt(l, v),
{
    let x = v + rest;
    let m = l + seq![1u8];
    lemma_lex_total(l, v);
    if lex_lt(l, v) {
        let i = choose|i: int| less_at(l, v, i);
        assert(less_at(l, x, i));
        if i < l.len() {
            assert(less_at(m, x, i));
        } else {
            assert(v[i] != 0);
            if v[i] > 1 {
                assert(less_at(m, x, i));
            } else {
                assert(m.len() < x.len());
                assert forall|j: int| 0 <= j < m.len() implies m[j] == x[j] by {
                    if j < l.len() {
                        assert(l[j] == v[j]);
                    }
                }
                assert(less_at(m, x, m.len() as int));
            }
        }
        lemma_lex_asymmetric(l, v);
    } else if l == v {
        assert(less_at(l, x, l.len() as int));
        assert(less_at(x, m, l.len() as int));
        lemma_lex_asymmetric(x, m);
        lemma_lex_irreflexive(l);
    } else {
        let i = choose|i: int| less_at(v, l, i);
        if i < v.len() {
            assert(less_at(x, l, i));
            assert(less_at(x, m, i));
        } else {
            assert(l[i] != 0);
            assert(x[i] == rest[0]);
            assert(less_at(x, l, i));
            assert(less_at(x, m, i));
        }
        lemma_lex_asymmetric(x, l);
        lemma_lex_asymmetric(x, m);
        lemma_lex_asymmetric(v, l);
    }
}

/// The scan that a key range becomes over an index finds the entries of exactly
/// the values in the range.
pub proof fn law_key_range_is_exact(
    kr: KeyRangeView,
    store: Seq<u8>,
    index: Seq<u8>,
    v: Json,
    pk: Seq<u8>,
)
    ensures
        kr.index_scan(store, index).admits(idx_key_of(store, index, index_value(v), pk), 0)
            <==> kr.includes(v),
{
    let p = idx_prefix_of(store, index);
    let iv = index_value(v);
    let rest = seq![0u8] + pk;
    let key = idx_key_of(store, index, iv, pk);
    let range = kr.index_scan(store, index);
    law_index_values_are_zero_free(v);
    assert(key =~= p + (iv + rest));
    assert(p[0] == 73);
    assert(has_prefix(key, p)) by {
        assert(key.subrange(0, p.len() as int) =~= p);
    }
    lemma_has_successor(p);
    lemma_prefix_range(p, key);
    match kr.lower {
        Some(l) => {
            let lv = index_value(l);
            law_index_values_are_zero_free(l);
            lemma_against_entry(lv, iv, rest);
            lemma_lex_add(p, lv, iv + rest);
            lemma_lex_add(p, lv + seq![1u8], iv + rest);
            assert((p + lv)[0] == 73);
            assert(p + lv + seq![1u8] =~= p + (lv + seq![1u8]));
            assert((p + lv + seq![1u8])[0] == 73);
            lemma_equal_after(p, lv, iv + rest);
            lemma_equal_after(p, lv + seq![1u8], iv + rest);
        },
        None => {},
    }
    match kr.upper {
        Some(u) => {
            let uv = index_value(u);
            law_index_values_are_zero_free(u);
            lemma_against_entry(uv, iv, rest);
            lemma_lex_add(p, iv + rest, uv);
            lemma_lex_add(p, iv + rest, uv + seq![1u8]);
            assert(p + uv + seq![1u8] =~= p + (uv + seq![1u8]));
            lemma_lex_not_le(uv, iv + rest);
            lemma_lex_not_le(uv + seq![1u8], iv + rest);
            lemma_lex_not_le(uv, iv);
            lemma_lex_not_le(iv, uv);
        },
        None => {},
    }
    lemma_admits_between(range, key);
}

pub proof fn lemma_equal_after(p: Seq<u8>, a: Seq<u8>, b: Seq<u8>)
    ensures
        p + a == p + b <==> a == b,
{
    if p + a == p + b {
        assert((p + a).skip(p.len() as int) =~= a);
        assert((p + b).skip(p.len() as int) =~= b);
    }
}

/// The primary key `pk` lies between the bounds of a key range.
pub open spec fn key_in_range(kr: KeyRangeView, pk: Seq<u8>) -> bool {
    &&& match kr.lower {
        Some(l) => if kr.lower_open {
            lex_lt(primary_key(l)->Ok_0, pk)
        } else {
            lex_le(primary_key(l)->Ok_0, pk)
        },
        None => true,
    }
    &&& match kr.upper {
        Some(u) => if kr.upper_open {
            lex_lt(pk, primary_key(u)->Ok_0)
        } else {
            lex_le(pk, primary_key(u)->Ok_0)
        },
        None => true,
    }
}

/// The scan that a key range becomes over documents finds exactly those whose
/// primary key is in the range.
pub proof fn law_document_range_is_exact(kr: KeyRangeView, store: Seq<u8>, pk: Seq<u8>)
    requires
        kr.doc_scan(store) is Ok,
    ensures
        kr.doc_scan(store)->Ok_0.admits(doc_key_of(store, pk), 0)
            <==> key_in_range(kr, pk),
{
    let p = doc_prefix_of(store);
    let key = p + pk;
    let range = kr.doc_scan(store)->Ok_0;
    assert(p[0] == 68);
    assert(has_prefix(key, p)) by {
        assert(key.subrange(0, p.len() as int) =~= p);
    }
    lemma_has_successor(p);
    lemma_prefix_range(p, key);
    if let Some(l) = kr.lower {
        let lk = primary_key(l)->Ok_0;
        lemma_lex_add(p, lk, pk);
        lemma_equal_after(p, lk, pk);
        assert((p + lk)[0] == 68);
    }
    if let Some(u) = kr.upper {
        let uk = primary_key(u)->Ok_0;
        lemma_lex_add(p, pk, uk);
        lemma_equal_after(p, pk, uk);
    }
    lemma_admits_between(range, key);
}

} // verus!
