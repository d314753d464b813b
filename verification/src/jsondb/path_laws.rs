//! What paths lead to in a value, how fields are set, and which keys values
//! have.

use vstd::prelude::*;
use vstd::utf8::{encode_utf8, is_ascii_chars, is_ascii_chars_encode_utf8};

use crate::bytes::{lemma_lex_irreflexive, lemma_lex_total, lemma_lex_transitive, lex_lt};
use crate::error::{decimal, digit, FlowErrorView};
use crate::jsondb::consistency_laws::lemma_decimal_zero_free;
use crate::jsondb::documents::{integer_json, with_id};
use crate::jsondb::encoding::{primary_key, zero_free};
use crate::jsondb::value::{
    digits_value, field_at, field_named, fields_in_order, first_dot, json_equal, lemma_first_dot,
    with_field, Json, NumberView,
};

verus! {

/// The path is one segment.
pub open spec fn is_segment(path: Seq<u8>) -> bool {
    !path.contains(46)
}

proof fn lemma_segment(path: Seq<u8>)
    requires
        is_segment(path),
    ensures
        first_dot(path) == path.len(),
{
    assert forall|j: int| 0 <= j < path.len() implies #[trigger] path[j] != 46 by {
        assert(path.contains(path[j]));
    }
    lemma_first_dot(path, path.len() as int);
}

/// A path leads where what stands behind its first dot leads from where its
/// first segment does.
pub proof fn law_path_goes_step_by_step(v: Json, first: Seq<u8>, rest: Seq<u8>)
    requires
        is_segment(first),
    ensures
        field_at(v, first + seq![46u8] + rest) == match field_at(v, first) {
            Some(w) => field_at(w, rest),
            None => None,
        },
{
    let path = first + seq![46u8] + rest;
    let n = first.len() as int;
    lemma_segment(first);
    assert forall|j: int| 0 <= j < n implies #[trigger] path[j] != 46 by {
        assert(first.contains(first[j]));
    }
    lemma_first_dot(path, n);
    assert(path.subrange(0, n) =~= first);
    assert(path.subrange(n + 1, path.len() as int) =~= rest);
}

proof fn lemma_field_named(fs: Seq<(Seq<u8>, Json)>, name: Seq<u8>)
    ensures
        field_named(fs, name) is None <==> forall|i: int|
            0 <= i < fs.len() ==> (#[trigger] fs[i]).0 != name,
        field_named(fs, name) is Some ==> exists|i: int|
            0 <= i < fs.len() && (#[trigger] fs[i]).0 == name && fs[i].1 == field_named(
                fs,
                name,
            )->0 && forall|j: int| 0 <= j < i ==> (#[trigger] fs[j]).0 != name,
    decreases fs.len(),
{
    if fs.len() > 0 && fs.first().0 != name {
        let t = fs.drop_first();
        lemma_field_named(t, name);
        if field_named(t, name) is Some {
            let i = choose|i: int|
                0 <= i < t.len() && (#[trigger] t[i]).0 == name && t[i].1 == field_named(
                    t,
                    name,
                )->0 && forall|j: int| 0 <= j < i ==> (#[trigger] t[j]).0 != name;
            assert(fs[i + 1] == t[i]);
            assert forall|j: int| 0 <= j < i + 1 implies (#[trigger] fs[j]).0 != name by {
                if j > 0 {
                    assert(fs[j] == t[j - 1]);
                }
            }
        } else {
            assert forall|i: int| 0 <= i < fs.len() implies (#[trigger] fs[i]).0 != name by {
                if i > 0 {
                    assert(fs[i] == t[i - 1]);
                }
            }
        }
    } else if fs.len() > 0 {
        assert(fs[0].0 == name);
    }
}

/// A segment leads from an object to the first of its fields with that name, and
/// nowhere where none has it.
pub proof fn law_segment_leads_to_the_field(fs: Seq<(Seq<u8>, Json)>, name: Seq<u8>)
    requires
        is_segment(name),
    ensures
        field_at(Json::Object(fs), name) is None <==> forall|i: int|
            0 <= i < fs.len() ==> (#[trigger] fs[i]).0 != name,
        forall|i: int|
            0 <= i < fs.len() && (#[trigger] fs[i]).0 == name && (forall|j: int|
                0 <= j < i ==> (#[trigger] fs[j]).0 != name) ==> field_at(Json::Object(fs), name)
                == Some(fs[i].1),
{
    lemma_segment(name);
    lemma_field_named(fs, name);
    assert forall|i: int|
        0 <= i < fs.len() && (#[trigger] fs[i]).0 == name && (forall|j: int|
            0 <= j < i ==> (#[trigger] fs[j]).0 != name) implies field_at(Json::Object(fs), name)
        == Some(fs[i].1) by {
        let k = choose|k: int|
            0 <= k < fs.len() && (#[trigger] fs[k]).0 == name && fs[k].1 == field_named(
                fs,
                name,
            )->0 && forall|j: int| 0 <= j < k ==> (#[trigger] fs[j]).0 != name;
        if k < i {
            assert(fs[k].0 != name);
        } else if i < k {
            assert(fs[i].0 != name);
        }
    }
}

/// No path leads anywhere from a value that is no object and no array.
pub proof fn law_scalars_have_no_fields(v: Json, path: Seq<u8>)
    requires
        !(v is Object) && !(v is Array),
    ensures
        field_at(v, path) is None,
{
}

/// One digit as a byte.
proof fn lemma_digit(d: nat)
    requires
        d < 10,
    ensures
        digit(d).len() == 1,
        digit(d)[0] as u32 == 48 + d,
        '0' <= digit(d)[0] <= '9',
{
    reveal_strlit("0");
    reveal_strlit("1");
    reveal_strlit("2");
    reveal_strlit("3");
    reveal_strlit("4");
    reveal_strlit("5");
    reveal_strlit("6");
    reveal_strlit("7");
    reveal_strlit("8");
    reveal_strlit("9");
}

/// The digits of a number, as bytes.
proof fn lemma_decimal_digits(n: nat)
    ensures
        decimal(n).len() > 0,
        forall|i: int| 0 <= i < decimal(n).len() ==> '0' <= (#[trigger] decimal(n)[i]) <= '9',
        n >= 10 ==> decimal(n).len() > 1 && decimal(n).drop_last() == decimal(n / 10),
        decimal(n).last() as u32 == 48 + n % 10,
        n < 10 ==> decimal(n).len() == 1,
    decreases n,
{
    lemma_digit(n % 10);
    if n >= 10 {
        lemma_decimal_digits(n / 10);
        let a = decimal(n / 10);
        let b = digit(n % 10);
        assert(decimal(n) == a + b);
        assert((a + b).drop_last() =~= a);
        assert forall|i: int| 0 <= i < (a + b).len() implies '0' <= (#[trigger] (a + b)[i])
            <= '9' by {
            if i < a.len() {
                assert((a + b)[i] == a[i]);
            }
        }
    }
}

/// The digits of a number are read back as the number.
pub proof fn law_decimal_is_read_back(n: nat)
    ensures
        digits_value(encode_utf8(decimal(n))) == Some(n),
    decreases n,
{
    let c = decimal(n);
    let s = encode_utf8(c);
    lemma_decimal_digits(n);
    assert(is_ascii_chars(c)) by {
        assert forall|i: int| 0 <= i < c.len() implies '\0' <= #[trigger] c[i] <= '\u{7f}' by {
            assert('0' <= c[i] <= '9');
        }
    }
    is_ascii_chars_encode_utf8(c);
    assert(s.last() == s[s.len() - 1]);
    assert(c[c.len() - 1] as u8 == s[s.len() - 1]);
    assert(s.last() == 48 + n % 10);
    if n >= 10 {
        let d = decimal(n / 10);
        law_decimal_is_read_back(n / 10);
        lemma_decimal_digits(n / 10);
        assert(is_ascii_chars(d)) by {
            assert forall|i: int| 0 <= i < d.len() implies '\0' <= #[trigger] d[i] <= '\u{7f}' by {
                assert('0' <= d[i] <= '9');
            }
        }
        is_ascii_chars_encode_utf8(d);
        assert(s.drop_last() =~= encode_utf8(d)) by {
            assert forall|i: int| 0 <= i < d.len() implies s.drop_last()[i] == encode_utf8(
                d,
            )[i] by {
                assert(c.drop_last()[i] == d[i]);
                assert(c[i] as u8 == s[i]);
                assert(d[i] as u8 == encode_utf8(d)[i]);
            }
        }
        assert(n / 10 * 10 + n % 10 == n);
    }
}

/// A segment of digits leads from an array to the element at that position, and
/// nowhere where there is none.
pub proof fn law_position_leads_to_the_element(a: Seq<Json>, n: nat)
    ensures
        field_at(Json::Array(a), encode_utf8(decimal(n))) == if n < a.len() {
            Some(a[n as int])
        } else {
            None
        },
{
    let s = encode_utf8(decimal(n));
    let c = decimal(n);
    lemma_decimal_digits(n);
    assert(is_ascii_chars(c)) by {
        assert forall|i: int| 0 <= i < c.len() implies '\0' <= #[trigger] c[i] <= '\u{7f}' by {
            assert('0' <= c[i] <= '9');
        }
    }
    is_ascii_chars_encode_utf8(c);
    assert(is_segment(s)) by {
        if s.contains(46) {
            let i = choose|i: int| 0 <= i < s.len() && s[i] == 46;
            assert(c[i] as u8 == s[i]);
            assert('0' <= c[i] <= '9');
        }
    }
    lemma_segment(s);
    law_decimal_is_read_back(n);
}

/// A segment that is not made of digits leads nowhere from an array.
pub proof fn law_only_digits_lead_into_arrays(a: Seq<Json>, segment: Seq<u8>)
    requires
        is_segment(segment),
        segment.len() == 0 || exists|i: int|
            0 <= i < segment.len() && !(48 <= #[trigger] segment[i] <= 57),
    ensures
        field_at(Json::Array(a), segment) is None,
{
    lemma_segment(segment);
    lemma_no_digits(segment);
}

proof fn lemma_no_digits(s: Seq<u8>)
    requires
        s.len() == 0 || exists|i: int| 0 <= i < s.len() && !(48 <= #[trigger] s[i] <= 57),
    ensures
        digits_value(s) is None,
    decreases s.len(),
{
    if s.len() > 0 {
        let i = choose|i: int| 0 <= i < s.len() && !(48 <= #[trigger] s[i] <= 57);
        if i < s.len() - 1 {
            assert(s.drop_last()[i] == s[i]);
            lemma_no_digits(s.drop_last());
        }
    }
}

/// A field that was set has the value, and all other fields are as they were.
pub proof fn law_field_is_set(fs: Seq<(Seq<u8>, Json)>, name: Seq<u8>, v: Json, other: Seq<u8>)
    ensures
        field_named(with_field(fs, name, v), other) == if other == name {
            Some(v)
        } else {
            field_named(fs, other)
        },
    decreases fs.len(),
{
    let out = with_field(fs, name, v);
    if fs.len() == 0 || lex_lt(name, fs.first().0) {
        assert(out.first() == (name, v));
        assert(out.drop_first() =~= fs);
    } else if fs.first().0 == name {
        assert(out.first() == (name, v));
        assert(out.drop_first() =~= fs.drop_first());
    } else {
        law_field_is_set(fs.drop_first(), name, v, other);
        assert(out.first() == fs.first());
        assert(out.drop_first() =~= with_field(fs.drop_first(), name, v));
    }
}

/// Setting a field keeps the names in order, and adds one where none had the
/// name.
pub proof fn law_set_field_keeps_the_order(fs: Seq<(Seq<u8>, Json)>, name: Seq<u8>, v: Json)
    requires
        fields_in_order(fs),
    ensures
        fields_in_order(with_field(fs, name, v)),
        with_field(fs, name, v).len() == fs.len() + if field_named(fs, name) is Some {
            0nat
        } else {
            1nat
        },
        forall|i: int|
            0 <= i < with_field(fs, name, v).len() ==> (#[trigger] with_field(fs, name, v)[i]).0
                == name || exists|j: int|
                0 <= j < fs.len() && (#[trigger] fs[j]).0 == with_field(fs, name, v)[i].0,
    decreases fs.len(),
{
    let out = with_field(fs, name, v);
    lemma_field_named(fs, name);
    if fs.len() == 0 || lex_lt(name, fs.first().0) {
        assert forall|j: int| 0 <= j < fs.len() implies lex_lt(name, (#[trigger] fs[j]).0) by {
            if j > 0 {
                assert(lex_lt(fs[0].0, fs[j].0));
                lemma_lex_transitive(name, fs[0].0, fs[j].0);
            }
        }
        if field_named(fs, name) is Some {
            let k = choose|k: int| 0 <= k < fs.len() && (#[trigger] fs[k]).0 == name;
            lemma_lex_irreflexive(name);
        }
        assert forall|i: int, j: int| 0 <= i < j < out.len() implies lex_lt(
            (#[trigger] out[i]).0,
            (#[trigger] out[j]).0,
        ) by {
            assert(out[j] == fs[j - 1]);
            if i > 0 {
                assert(out[i] == fs[i - 1]);
            }
        }
        assert forall|i: int| 0 <= i < out.len() implies (#[trigger] out[i]).0 == name || exists|
            j: int,
        | 0 <= j < fs.len() && (#[trigger] fs[j]).0 == out[i].0 by {
            if i > 0 {
                assert(fs[i - 1].0 == out[i].0);
            }
        }
    } else if fs.first().0 == name {
        assert forall|i: int, j: int| 0 <= i < j < out.len() implies lex_lt(
            (#[trigger] out[i]).0,
            (#[trigger] out[j]).0,
        ) by {
            assert(out[j].0 == fs[j].0);
            assert(out[i].0 == fs[i].0);
        }
        assert forall|i: int| 0 <= i < out.len() implies (#[trigger] out[i]).0 == name || exists|
            j: int,
        | 0 <= j < fs.len() && (#[trigger] fs[j]).0 == out[i].0 by {
            assert(fs[i].0 == out[i].0);
        }
    } else {
        let t = fs.drop_first();
        assert(fields_in_order(t)) by {
            assert forall|i: int, j: int| 0 <= i < j < t.len() implies lex_lt(
                (#[trigger] t[i]).0,
                (#[trigger] t[j]).0,
            ) by {
                assert(t[i] == fs[i + 1] && t[j] == fs[j + 1]);
            }
        }
        law_set_field_keeps_the_order(t, name, v);
        let rest = with_field(t, name, v);
        lemma_lex_total(name, fs.first().0);
        assert forall|i: int, j: int| 0 <= i < j < out.len() implies lex_lt(
            (#[trigger] out[i]).0,
            (#[trigger] out[j]).0,
        ) by {
            assert(out[j] == rest[j - 1]);
            if i > 0 {
                assert(out[i] == rest[i - 1]);
            } else if rest[j - 1].0 != name {
                let k = choose|k: int| 0 <= k < t.len() && (#[trigger] t[k]).0 == rest[j - 1].0;
                assert(t[k] == fs[k + 1]);
                assert(lex_lt(fs[0].0, fs[k + 1].0));
            }
        }
        assert forall|i: int| 0 <= i < out.len() implies (#[trigger] out[i]).0 == name || exists|
            j: int,
        | 0 <= j < fs.len() && (#[trigger] fs[j]).0 == out[i].0 by {
            if i == 0 {
                assert(fs[0].0 == out[0].0);
            } else {
                assert(out[i] == rest[i - 1]);
                if rest[i - 1].0 != name {
                    let k = choose|k: int| 0 <= k < t.len() && (#[trigger] t[k]).0 == rest[i - 1].0;
                    assert(fs[k + 1].0 == out[i].0);
                }
            }
        }
    }
}

/// A document with its id set has it in the key field, as a whole number, and
/// all other fields as they were.
pub proof fn law_id_is_set(fs: Seq<(Seq<u8>, Json)>, key_path: Seq<char>, id: u64, other: Seq<u8>)
    requires
        is_segment(encode_utf8(key_path)),
        is_segment(other),
        other != encode_utf8(key_path),
    ensures
        field_at(with_id(Json::Object(fs), key_path, id), encode_utf8(key_path)) == Some(
            Json::Number(NumberView::PosInt(id)),
        ),
        field_at(with_id(Json::Object(fs), key_path, id), other) == field_at(
            Json::Object(fs),
            other,
        ),
{
    let name = encode_utf8(key_path);
    let v = Json::Number(NumberView::PosInt(id));
    lemma_segment(name);
    lemma_segment(other);
    law_field_is_set(fs, name, v, name);
    law_field_is_set(fs, name, v, other);
}

/// The primary key of a text is the text; one that holds a zero byte is none.
/// The keys of two whole numbers that are not negative differ where the numbers
/// do.
pub proof fn law_keys_of_values(s: Seq<u8>, a: u64, b: u64)
    ensures
        primary_key(Json::Text(s)) is Ok <==> !s.contains(0),
        !s.contains(0) ==> primary_key(Json::Text(s)) == Ok::<Seq<u8>, FlowErrorView>(s),
        primary_key(Json::Number(NumberView::PosInt(a))) is Ok,
        primary_key(Json::Number(NumberView::PosInt(a))) == primary_key(
            Json::Number(NumberView::PosInt(b)),
        ) <==> a == b,
        digits_value(primary_key(Json::Number(NumberView::PosInt(a)))->Ok_0) == Some(a as nat),
{
    if s.contains(0) {
        let i = choose|i: int| 0 <= i < s.len() && s[i] == 0;
        assert(!zero_free(s));
    } else {
        assert(zero_free(s)) by {
            assert forall|i: int| 0 <= i < s.len() implies #[trigger] s[i] != 0 by {
                assert(s.contains(s[i]));
            }
        }
    }
    law_decimal_is_read_back(a as nat);
    law_decimal_is_read_back(b as nat);
    lemma_decimal_zero_free(a as nat);
    lemma_decimal_zero_free(b as nat);
}

/// Of two equal values the one equals the other also the other way round, and
/// what equals one of them equals both.
pub proof fn law_equality_is_an_equivalence(a: Json, b: Json, c: Json)
    requires
        json_equal(a, b),
    ensures
        json_equal(b, a),
        json_equal(b, c) ==> json_equal(a, c),
    decreases a,
{
    match (a, b) {
        (Json::Array(x), Json::Array(y)) => {
            assert forall|i: int| #![trigger y[i]] 0 <= i < y.len() implies json_equal(y[i], x[i]) by {
                assert(json_equal(x[i], y[i]));
                law_equality_is_an_equivalence(x[i], y[i], y[i]);
            }
            if json_equal(b, c) {
                let z = c->Array_0;
                assert forall|i: int| #![trigger x[i]] 0 <= i < x.len() implies json_equal(
                    x[i],
                    z[i],
                ) by {
                    assert(json_equal(y[i], z[i]));
                    law_equality_is_an_equivalence(x[i], y[i], z[i]);
                }
            }
        },
        (Json::Object(x), Json::Object(y)) => {
            assert forall|i: int| #![trigger y[i]] 0 <= i < y.len() implies y[i].0 == x[i].0
                && json_equal(y[i].1, x[i].1) by {
                assert(json_equal(x[i].1, y[i].1));
                law_equality_is_an_equivalence(x[i].1, y[i].1, y[i].1);
            }
            if json_equal(b, c) {
                let z = c->Object_0;
                assert forall|i: int| #![trigger x[i]] 0 <= i < x.len() implies x[i].0 == z[i].0
                    && json_equal(x[i].1, z[i].1) by {
                    assert(y[i].0 == z[i].0);
                    law_equality_is_an_equivalence(x[i].1, y[i].1, z[i].1);
                }
            }
        },
        _ => {},
    }
}

/// Texts, booleans and whole numbers equal only themselves. Fractional numbers
/// equal each other by their bits, or where both are zero.
pub proof fn law_scalars_equal_themselves(a: Json, b: Json)
    requires
        a is Null || a is Bool || a is Text || a is Number,
    ensures
        a == b ==> json_equal(a, b),
        json_equal(a, b) && !(a is Number && a->Number_0 is Float) ==> a == b,
        json_equal(a, b) && a is Number && a->Number_0 is Float ==> b is Number
            && b->Number_0 is Float && (a->Number_0->bits == b->Number_0->bits || (
        a->Number_0->bits % 0x8000_0000_0000_0000 == 0 && b->Number_0->bits
            % 0x8000_0000_0000_0000 == 0)),
        a is Number && a->Number_0 is Float && b is Number && b->Number_0 is Float && (
        a->Number_0->bits == b->Number_0->bits || (a->Number_0->bits % 0x8000_0000_0000_0000 == 0
            && b->Number_0->bits % 0x8000_0000_0000_0000 == 0)) ==> json_equal(a, b),
{
}

/// Lists equal each other element by element, and objects field by field.
pub proof fn law_equal_values_have_equal_parts(
    a: Seq<Json>,
    b: Seq<Json>,
    x: Seq<(Seq<u8>, Json)>,
    y: Seq<(Seq<u8>, Json)>,
)
    ensures
        json_equal(Json::Array(a), Json::Array(b)) <==> a.len() == b.len() && forall|i: int|
            0 <= i < a.len() ==> json_equal(#[trigger] a[i], b[i]),
        json_equal(Json::Object(x), Json::Object(y)) <==> x.len() == y.len() && forall|i: int|
            0 <= i < x.len() ==> (#[trigger] x[i]).0 == y[i].0 && json_equal(x[i].1, y[i].1),
        !json_equal(Json::Array(a), Json::Object(x)),
        !json_equal(Json::Object(x), Json::Array(a)),
{
}

/// A whole number is written as what it is.
pub proof fn law_integer_is_written_as_it_is(n: i64)
    ensures
        n >= 0 ==> integer_json(n as int) == Json::Number(NumberView::PosInt(n as u64)) && n as u64
            == n,
        n < 0 ==> integer_json(n as int) == Json::Number(NumberView::NegInt(n)),
{
}

} // verus!
