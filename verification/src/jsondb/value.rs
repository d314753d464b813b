//! JSON values.

use vstd::prelude::*;
use vstd::utf8::encode_utf8;
use vstd::slice::slice_subrange;

use crate::bytes::{
    bytes_eq, compare_bytes, lemma_lex_asymmetric, lemma_lex_irreflexive, lex_lt, Order,
};
use crate::error::{bracketed, bracketed_text, FlowError, FlowErrorView};

verus! {

/// A JSON number. A number that is no integer is kept with the bits of its
/// double-precision value and with its text.
#[derive(Debug)]
pub enum JsonNumber {
    /// A non-negative integer.
    PosInt(u64),
    /// A negative integer.
    NegInt(i64),
    /// Any other number.
    Float { bits: u64, text: String },
}

/// A JSON value. The fields of an object are in the order of their names.
#[derive(Debug)]
pub enum JsonValue {
    Null,
    Bool(bool),
    Number(JsonNumber),
    String(String),
    Array(Vec<JsonValue>),
    Object(Vec<Field>),
}

/// A named field of an object.
#[derive(Debug)]
pub struct Field {
    pub name: String,
    pub value: JsonValue,
}

/// A number with its text as bytes.
pub enum NumberView {
    PosInt(u64),
    NegInt(i64),
    Float { bits: u64, text: Seq<u8> },
}

/// A JSON value with every text as its UTF-8 bytes.
pub enum Json {
    Null,
    Bool(bool),
    Number(NumberView),
    Text(Seq<u8>),
    Array(Seq<Json>),
    Object(Seq<(Seq<u8>, Json)>),
}

impl View for JsonNumber {
    type V = NumberView;

    open spec fn view(&self) -> NumberView {
        match self {
            JsonNumber::PosInt(n) => NumberView::PosInt(*n),
            JsonNumber::NegInt(n) => NumberView::NegInt(*n),
            JsonNumber::Float { bits, text } => NumberView::Float {
                bits: *bits,
                text: encode_utf8(text@),
            },
        }
    }
}

/// The value as it is meant.
pub open spec fn json_of(v: JsonValue) -> Json
    decreases v,
{
    match v {
        JsonValue::Null => Json::Null,
        JsonValue::Bool(b) => Json::Bool(b),
        JsonValue::Number(n) => Json::Number(n@),
        JsonValue::String(s) => Json::Text(encode_utf8(s@)),
        JsonValue::Array(a) => Json::Array(json_list(a, a.len() as nat)),
        JsonValue::Object(fs) => Json::Object(json_fields(fs, fs.len() as nat)),
    }
}

/// The first `n` values of a list.
pub open spec fn json_list(a: Vec<JsonValue>, n: nat) -> Seq<Json>
    decreases a, n,
{
    if n == 0 || n > a.len() {
        Seq::empty()
    } else {
        json_list(a, (n - 1) as nat).push(json_of(a[n - 1]))
    }
}

/// The first `n` fields of an object.
pub open spec fn json_fields(fs: Vec<Field>, n: nat) -> Seq<(Seq<u8>, Json)>
    decreases fs, n,
{
    if n == 0 || n > fs.len() {
        Seq::empty()
    } else {
        json_fields(fs, (n - 1) as nat).push(
            (encode_utf8(fs[n - 1].name@), json_of(fs[n - 1].value)),
        )
    }
}

impl View for JsonValue {
    type V = Json;

    open spec fn view(&self) -> Json {
        json_of(*self)
    }
}

/// A JSON value of the `serde_json` crate.
#[verifier::external_type_specification]
#[verifier::external_body]
pub struct ExOutsideValue(serde_json::Value);

/// A JSON number of the `serde_json` crate.
#[verifier::external_type_specification]
#[verifier::external_body]
pub struct ExOutsideNumber(serde_json::Number);

/// What `serde_json::from_slice` makes of `bytes`: a value, or the text of its error.
pub uninterp spec fn json_parsed(bytes: Seq<u8>) -> Result<Json, Seq<char>>;

/// What `serde_json::to_vec` makes of a value: its text, or the text of its error.
pub uninterp spec fn json_rendered(v: Json) -> Result<Seq<u8>, Seq<char>>;

/// Moves a number of `serde_json` into one of this library.
#[verifier::external_body]
fn number_from_outside(n: serde_json::Number) -> (r: JsonNumber) {
    match (n.as_u64(), n.as_i64(), n.as_f64()) {
        (Some(u), _, _) => JsonNumber::PosInt(u),
        (None, Some(i), _) => JsonNumber::NegInt(i),
        (None, None, f) => JsonNumber::Float {
            bits: f.unwrap_or_default().to_bits(),
            text: n.to_string(),
        },
    }
}

/// Moves a value of `serde_json` into one of this library, variant by variant.
#[verifier::external_body]
fn from_outside(v: serde_json::Value) -> (r: JsonValue) {
    match v {
        serde_json::Value::Null => JsonValue::Null,
        serde_json::Value::Bool(b) => JsonValue::Bool(b),
        serde_json::Value::Number(n) => JsonValue::Number(number_from_outside(n)),
        serde_json::Value::String(s) => JsonValue::String(s),
        serde_json::Value::Array(a) => JsonValue::Array(a.into_iter().map(from_outside).collect()),
        serde_json::Value::Object(m) => JsonValue::Object(
            m.into_iter().map(|(name, v)| Field { name, value: from_outside(v) }).collect(),
        ),
    }
}

/// Copies a number of this library into one of `serde_json`.
#[verifier::external_body]
fn number_to_outside(n: &JsonNumber) -> (r: serde_json::Value) {
    match n {
        JsonNumber::PosInt(u) => serde_json::Value::from(*u),
        JsonNumber::NegInt(i) => serde_json::Value::from(*i),
        JsonNumber::Float { text, .. } => text.parse::<serde_json::Number>().map_or(
            serde_json::Value::Null,
            serde_json::Value::Number,
        ),
    }
}

/// Copies a value of this library into one of `serde_json`, variant by variant.
#[verifier::external_body]
fn to_outside(v: &JsonValue) -> (r: serde_json::Value) {
    match v {
        JsonValue::Null => serde_json::Value::Null,
        JsonValue::Bool(b) => serde_json::Value::Bool(*b),
        JsonValue::Number(n) => number_to_outside(n),
        JsonValue::String(s) => serde_json::Value::String(s.clone()),
        JsonValue::Array(a) => serde_json::Value::Array(a.iter().map(to_outside).collect()),
        JsonValue::Object(fs) => serde_json::Value::Object(
            fs.iter().map(|f| (f.name.clone(), to_outside(&f.value))).collect(),
        ),
    }
}

/// Calls `serde_json::from_slice` for a `serde_json::Value`. What comes out is
/// a function of the bytes.
#[verifier::external_body]
fn parse_bytes(bytes: &[u8]) -> (r: Result<JsonValue, String>)
    ensures
        r is Ok <==> json_parsed(bytes@) is Ok,
        r is Ok ==> r->Ok_0@ == json_parsed(bytes@)->Ok_0,
        r is Err ==> r->Err_0@ == json_parsed(bytes@)->Err_0,
{
    match serde_json::from_slice::<serde_json::Value>(bytes) {
        Ok(v) => Ok(from_outside(v)),
        Err(e) => Err(e.to_string()),
    }
}

/// Calls `serde_json::to_vec`. What comes out is a function of the value. A
/// value without fractional numbers, whose objects have their fields in order
/// and which is nested no deeper than the parser goes, is written without an
/// error and parsed back as it was. Nothing is claimed of fractional numbers:
/// the parser may miss them by their last digit.
#[verifier::external_body]
fn render_bytes(v: &JsonValue) -> (r: Result<Vec<u8>, String>)
    ensures
        r is Ok <==> json_rendered(v@) is Ok,
        r is Ok ==> r->Ok_0@ == json_rendered(v@)->Ok_0,
        r is Err ==> r->Err_0@ == json_rendered(v@)->Err_0,
        is_plain(v@) ==> r is Ok,
        is_plain(v@) ==> json_parsed(r->Ok_0@) is Ok && json_parsed(r->Ok_0@)->Ok_0 == v@,
{
    match serde_json::to_vec(&to_outside(v)) {
        Ok(bytes) => Ok(bytes),
        Err(e) => Err(e.to_string()),
    }
}

/// What the `Debug` of `serde_json::Value` makes of a value.
pub uninterp spec fn json_debug(v: Json) -> Seq<char>;

/// Calls `format!` with the `Debug` of `serde_json::Value`. What comes out is a
/// function of the value.
#[verifier::external_body]
pub(crate) fn debug_text(v: &JsonValue) -> (r: String)
    ensures
        r@ == json_debug(v@),
{
    format!("{:?}", to_outside(v))
}

/// Values in brackets, as error texts show them.
pub open spec fn list_debug(vs: Seq<Json>) -> Seq<char> {
    bracketed(vs.map_values(|v: Json| json_debug(v)))
}

/// Computes [`list_debug`].
pub fn list_debug_text(vs: &Vec<JsonValue>) -> (r: String)
    ensures
        r@ == list_debug(json_seq(vs@)),
{
    let ghost all = json_seq(vs@).map_values(|v: Json| json_debug(v));
    let mut parts: Vec<String> = Vec::new();
    let mut i: usize = 0;
    while i < vs.len()
        invariant
            i <= vs.len(),
            all == json_seq(vs@).map_values(|v: Json| json_debug(v)),
            parts@.len() == i,
            forall|j: int| 0 <= j < i ==> (#[trigger] parts@[j])@ == all[j],
        decreases vs.len() - i,
    {
        assert(all[i as int] == json_debug(vs@[i as int]@));
        parts.push(debug_text(&vs[i]));
        i = i + 1;
    }
    assert(parts@.map_values(|t: String| t@) =~= all);
    bracketed_text(&parts)
}

/// How deep arrays and objects are nested in a value.
pub open spec fn depth(v: Json) -> nat
    decreases v,
{
    match v {
        Json::Array(a) => 1 + list_depth(a, a.len()),
        Json::Object(fs) => 1 + fields_depth(fs, fs.len()),
        _ => 0,
    }
}

pub open spec fn list_depth(a: Seq<Json>, n: nat) -> nat
    decreases a, n,
{
    if n == 0 || n > a.len() {
        0
    } else {
        let rest = list_depth(a, (n - 1) as nat);
        let here = depth(a[n - 1]);
        if here > rest {
            here
        } else {
            rest
        }
    }
}

pub open spec fn fields_depth(fs: Seq<(Seq<u8>, Json)>, n: nat) -> nat
    decreases fs, n,
{
    if n == 0 || n > fs.len() {
        0
    } else {
        let rest = fields_depth(fs, (n - 1) as nat);
        let here = depth(fs[n - 1].1);
        if here > rest {
            here
        } else {
            rest
        }
    }
}

/// The fields are in strictly rising order of their names.
pub open spec fn fields_in_order(fs: Seq<(Seq<u8>, Json)>) -> bool {
    forall|i: int, j: int|
        0 <= i < j < fs.len() ==> lex_lt((#[trigger] fs[i]).0, (#[trigger] fs[j]).0)
}

/// No number in the value is fractional, and every object has its fields in order.
pub open spec fn is_regular(v: Json) -> bool
    decreases v,
{
    match v {
        Json::Number(n) => match n {
            NumberView::PosInt(_) => true,
            NumberView::NegInt(i) => i < 0,
            NumberView::Float { bits, text } => false,
        },
        Json::Array(a) => list_is_regular(a, a.len()),
        Json::Object(fs) => fields_in_order(fs) && fields_are_regular(fs, fs.len()),
        _ => true,
    }
}

pub open spec fn list_is_regular(a: Seq<Json>, n: nat) -> bool
    decreases a, n,
{
    n == 0 || n > a.len() || (list_is_regular(a, (n - 1) as nat) && is_regular(a[n - 1]))
}

pub open spec fn fields_are_regular(fs: Seq<(Seq<u8>, Json)>, n: nat) -> bool
    decreases fs, n,
{
    n == 0 || n > fs.len() || (fields_are_regular(fs, (n - 1) as nat) && is_regular(fs[n - 1].1))
}

/// The value is written and parsed back as it is.
pub open spec fn is_plain(v: Json) -> bool {
    is_regular(v) && depth(v) <= 127
}

/// The values of a list, each as it is meant.
pub open spec fn json_seq(s: Seq<JsonValue>) -> Seq<Json> {
    s.map_values(|v: JsonValue| v@)
}

/// The fields of an object, each as it is meant.
pub open spec fn field_seq(s: Seq<Field>) -> Seq<(Seq<u8>, Json)> {
    s.map_values(|f: Field| (encode_utf8(f.name@), f.value@))
}

pub proof fn lemma_json_list(a: Vec<JsonValue>, n: nat)
    requires
        n <= a.len(),
    ensures
        json_list(a, n) == json_seq(a@).subrange(0, n as int),
    decreases n,
{
    if n == 0 {
        assert(json_list(a, n) =~= json_seq(a@).subrange(0, 0));
    } else {
        lemma_json_list(a, (n - 1) as nat);
        assert(json_list(a, n) =~= json_seq(a@).subrange(0, n as int));
    }
}

pub proof fn lemma_json_fields(fs: Vec<Field>, n: nat)
    requires
        n <= fs.len(),
    ensures
        json_fields(fs, n) == field_seq(fs@).subrange(0, n as int),
    decreases n,
{
    if n == 0 {
        assert(json_fields(fs, n) =~= field_seq(fs@).subrange(0, 0));
    } else {
        lemma_json_fields(fs, (n - 1) as nat);
        assert(json_fields(fs, n) =~= field_seq(fs@).subrange(0, n as int));
    }
}

/// An array means the list of its values.
pub proof fn lemma_array_view(a: Vec<JsonValue>)
    ensures
        JsonValue::Array(a)@ == Json::Array(json_seq(a@)),
{
    lemma_json_list(a, a.len() as nat);
    assert(json_seq(a@).subrange(0, a@.len() as int) =~= json_seq(a@));
}

/// An object means the list of its fields.
pub proof fn lemma_object_view(fs: Vec<Field>)
    ensures
        JsonValue::Object(fs)@ == Json::Object(field_seq(fs@)),
{
    lemma_json_fields(fs, fs.len() as nat);
    assert(field_seq(fs@).subrange(0, fs@.len() as int) =~= field_seq(fs@));
}

/// The bits of the double-precision number minus zero.
pub const NEGATIVE_ZERO: u64 = 0x8000_0000_0000_0000;

/// The bits are those of a zero.
pub open spec fn is_zero(bits: u64) -> bool {
    bits == 0 || bits == NEGATIVE_ZERO
}

/// Two numbers are equal: integers by value, others by their bits, but for the
/// two zeros. An integer equals no number of the other kind.
pub open spec fn numbers_equal(a: NumberView, b: NumberView) -> bool {
    match (a, b) {
        (NumberView::PosInt(x), NumberView::PosInt(y)) => x == y,
        (NumberView::NegInt(x), NumberView::NegInt(y)) => x == y,
        (NumberView::Float { bits: x, text: _ }, NumberView::Float { bits: y, text: _ }) => x == y
            || (is_zero(x) && is_zero(y)),
        _ => false,
    }
}

/// Two values are equal.
pub open spec fn json_equal(a: Json, b: Json) -> bool
    decreases a,
{
    match (a, b) {
        (Json::Null, Json::Null) => true,
        (Json::Bool(x), Json::Bool(y)) => x == y,
        (Json::Number(x), Json::Number(y)) => numbers_equal(x, y),
        (Json::Text(x), Json::Text(y)) => x == y,
        (Json::Array(x), Json::Array(y)) => x.len() == y.len() && forall|i: int|
            #![trigger x[i]]
            0 <= i < x.len() ==> json_equal(x[i], y[i]),
        (Json::Object(x), Json::Object(y)) => x.len() == y.len() && forall|i: int|
            #![trigger x[i]]
            0 <= i < x.len() ==> x[i].0 == y[i].0 && json_equal(x[i].1, y[i].1),
        _ => false,
    }
}

/// A value equals itself.
pub proof fn lemma_json_equal_reflexive(a: Json)
    ensures
        json_equal(a, a),
    decreases a,
{
    match a {
        Json::Array(x) => {
            assert forall|i: int| #![trigger x[i]] 0 <= i < x.len() implies json_equal(
                x[i],
                x[i],
            ) by {
                lemma_json_equal_reflexive(x[i]);
            }
        },
        Json::Object(x) => {
            assert forall|i: int| #![trigger x[i]] 0 <= i < x.len() implies json_equal(
                x[i].1,
                x[i].1,
            ) by {
                lemma_json_equal_reflexive(x[i].1);
            }
        },
        _ => {},
    }
}

impl JsonNumber {
    /// An equal number.
    pub fn copy(&self) -> (r: JsonNumber)
        ensures
            r@ == self@,
    {
        match self {
            JsonNumber::PosInt(n) => JsonNumber::PosInt(*n),
            JsonNumber::NegInt(n) => JsonNumber::NegInt(*n),
            JsonNumber::Float { bits, text } => JsonNumber::Float {
                bits: *bits,
                text: text.clone(),
            },
        }
    }

    /// Whether two numbers are equal.
    pub fn same(&self, other: &JsonNumber) -> (r: bool)
        ensures
            r == numbers_equal(self@, other@),
    {
        match (self, other) {
            (JsonNumber::PosInt(a), JsonNumber::PosInt(b)) => *a == *b,
            (JsonNumber::NegInt(a), JsonNumber::NegInt(b)) => *a == *b,
            (
                JsonNumber::Float { bits: a, text: _ },
                JsonNumber::Float { bits: b, text: _ },
            ) => *a == *b || ((*a == 0 || *a == NEGATIVE_ZERO) && (*b == 0 || *b
                == NEGATIVE_ZERO)),
            _ => false,
        }
    }
}

impl Field {
    /// An equal field.
    fn copy(&self) -> (r: Field)
        ensures
            encode_utf8(r.name@) == encode_utf8(self.name@),
            r.value@ == self.value@,
        decreases self,
    {
        Field { name: self.name.clone(), value: self.value.copy() }
    }
}

impl JsonValue {
    /// An equal value.
    pub fn copy(&self) -> (r: JsonValue)
        ensures
            r@ == self@,
        decreases self,
    {
        match self {
            JsonValue::Null => JsonValue::Null,
            JsonValue::Bool(b) => JsonValue::Bool(*b),
            JsonValue::Number(n) => JsonValue::Number(n.copy()),
            JsonValue::String(s) => JsonValue::String(s.clone()),
            JsonValue::Array(a) => {
                let mut out: Vec<JsonValue> = Vec::new();
                let mut i: usize = 0;
                assert(json_seq(out@) =~= json_seq(a@).subrange(0, 0));
                while i < a.len()
                    invariant
                        i <= a.len(),
                        self matches JsonValue::Array(b) && *a == b,
                        json_seq(out@) == json_seq(a@).subrange(0, i as int),
                    decreases a.len() - i,
                {
                    let ghost before = json_seq(out@);
                    let v = a[i].copy();
                    let ghost j = v@;
                    out.push(v);
                    assert(json_seq(out@) =~= before.push(j));
                    assert(json_seq(out@) =~= json_seq(a@).subrange(0, i + 1));
                    i = i + 1;
                }
                proof {
                    assert(json_seq(a@).subrange(0, a@.len() as int) =~= json_seq(a@));
                    lemma_array_view(*a);
                    lemma_array_view(out);
                }
                JsonValue::Array(out)
            },
            JsonValue::Object(fs) => {
                let mut out: Vec<Field> = Vec::new();
                let mut i: usize = 0;
                assert(field_seq(out@) =~= field_seq(fs@).subrange(0, 0));
                while i < fs.len()
                    invariant
                        i <= fs.len(),
                        self matches JsonValue::Object(b) && *fs == b,
                        field_seq(out@) == field_seq(fs@).subrange(0, i as int),
                    decreases fs.len() - i,
                {
                    let ghost before = field_seq(out@);
                    let f = fs[i].copy();
                    let ghost j = (encode_utf8(f.name@), f.value@);
                    out.push(f);
                    assert(field_seq(out@) =~= before.push(j));
                    assert(field_seq(out@) =~= field_seq(fs@).subrange(0, i + 1));
                    i = i + 1;
                }
                proof {
                    assert(field_seq(fs@).subrange(0, fs@.len() as int) =~= field_seq(fs@));
                    lemma_object_view(*fs);
                    lemma_object_view(out);
                }
                JsonValue::Object(out)
            },
        }
    }

    /// Whether two values are equal.
    pub fn same(&self, other: &JsonValue) -> (r: bool)
        ensures
            r == json_equal(self@, other@),
        decreases self,
    {
        match (self, other) {
            (JsonValue::Null, JsonValue::Null) => true,
            (JsonValue::Bool(a), JsonValue::Bool(b)) => *a == *b,
            (JsonValue::Number(a), JsonValue::Number(b)) => a.same(b),
            (JsonValue::String(a), JsonValue::String(b)) => bytes_eq(
                a.as_str().as_bytes(),
                b.as_str().as_bytes(),
            ),
            (JsonValue::Array(a), JsonValue::Array(b)) => {
                proof {
                    lemma_array_view(*a);
                    lemma_array_view(*b);
                }
                let ghost x = json_seq(a@);
                let ghost y = json_seq(b@);
                if a.len() != b.len() {
                    assert(x.len() != y.len());
                    return false;
                }
                let mut i: usize = 0;
                while i < a.len()
                    invariant
                        i <= a.len(),
                        a.len() == b.len(),
                        self matches JsonValue::Array(c) && *a == c,
                        x == json_seq(a@),
                        y == json_seq(b@),
                        self@ == Json::Array(x),
                        other@ == Json::Array(y),
                        forall|j: int| #![trigger x[j]] 0 <= j < i ==> json_equal(x[j], y[j]),
                    decreases a.len() - i,
                {
                    assert(x[i as int] == a@[i as int]@);
                    assert(y[i as int] == b@[i as int]@);
                    if !a[i].same(&b[i]) {
                        assert(!json_equal(x[i as int], y[i as int]));
                        return false;
                    }
                    i = i + 1;
                }
                true
            },
            (JsonValue::Object(a), JsonValue::Object(b)) => {
                proof {
                    lemma_object_view(*a);
                    lemma_object_view(*b);
                }
                let ghost x = field_seq(a@);
                let ghost y = field_seq(b@);
                if a.len() != b.len() {
                    assert(x.len() != y.len());
                    return false;
                }
                let mut i: usize = 0;
                while i < a.len()
                    invariant
                        i <= a.len(),
                        a.len() == b.len(),
                        self matches JsonValue::Object(c) && *a == c,
                        x == field_seq(a@),
                        y == field_seq(b@),
                        self@ == Json::Object(x),
                        other@ == Json::Object(y),
                        forall|j: int|
                            #![trigger x[j]]
                            0 <= j < i ==> x[j].0 == y[j].0 && json_equal(x[j].1, y[j].1),
                    decreases a.len() - i,
                {
                    assert(x[i as int].1 == a@[i as int].value@);
                    assert(y[i as int].1 == b@[i as int].value@);
                    if !bytes_eq(a[i].name.as_str().as_bytes(), b[i].name.as_str().as_bytes())
                        || !a[i].value.same(&b[i].value) {
                        assert(!(x[i as int].0 == y[i as int].0 && json_equal(
                            x[i as int].1,
                            y[i as int].1,
                        )));
                        return false;
                    }
                    i = i + 1;
                }
                true
            },
            _ => false,
        }
    }
}

impl PartialEq for JsonNumber {
    fn eq(&self, other: &JsonNumber) -> (r: bool) {
        self.same(other)
    }
}

impl vstd::std_specs::cmp::PartialEqSpecImpl for JsonNumber {
    open spec fn obeys_eq_spec() -> bool {
        true
    }

    open spec fn eq_spec(&self, other: &JsonNumber) -> bool {
        numbers_equal(self@, other@)
    }
}

impl PartialEq for JsonValue {
    fn eq(&self, other: &JsonValue) -> (r: bool) {
        self.same(other)
    }
}

impl vstd::std_specs::cmp::PartialEqSpecImpl for JsonValue {
    open spec fn obeys_eq_spec() -> bool {
        true
    }

    open spec fn eq_spec(&self, other: &JsonValue) -> bool {
        json_equal(self@, other@)
    }
}

/// What is stored for a document.
pub open spec fn encoded_doc(doc: Json) -> Result<Seq<u8>, FlowErrorView> {
    match json_rendered(doc) {
        Ok(bytes) => Ok(bytes),
        Err(text) => Err(FlowErrorView::Json(text)),
    }
}

/// The document that was stored as `bytes`.
pub open spec fn decoded_doc(bytes: Seq<u8>) -> Result<Json, FlowErrorView> {
    match json_parsed(bytes) {
        Ok(doc) => Ok(doc),
        Err(text) => Err(FlowErrorView::Json(text)),
    }
}

/// The bytes that a document is stored as. What has no fractional number and
/// is not nested too deep is read back as it was.
pub fn encode_doc(doc: &JsonValue) -> (r: crate::error::Result<Vec<u8>>)
    ensures
        r is Ok <==> encoded_doc(doc@) is Ok,
        match r {
            Ok(bytes) => bytes@ == encoded_doc(doc@)->Ok_0,
            Err(e) => e@ == encoded_doc(doc@)->Err_0,
        },
        is_plain(doc@) ==> reads_back(doc@),
{
    match render_bytes(doc) {
        Ok(bytes) => Ok(bytes),
        Err(text) => Err(FlowError::Json(text)),
    }
}

/// The document can be stored, and what is stored is read back as it was.
pub open spec fn reads_back(doc: Json) -> bool {
    &&& encoded_doc(doc) is Ok
    &&& decoded_doc(encoded_doc(doc)->Ok_0) is Ok
    &&& decoded_doc(encoded_doc(doc)->Ok_0)->Ok_0 == doc
}

/// Reads a stored document.
pub fn decode_doc(bytes: &[u8]) -> (r: crate::error::Result<JsonValue>)
    ensures
        r is Ok <==> decoded_doc(bytes@) is Ok,
        match r {
            Ok(doc) => doc@ == decoded_doc(bytes@)->Ok_0,
            Err(e) => e@ == decoded_doc(bytes@)->Err_0,
        },
{
    match parse_bytes(bytes) {
        Ok(doc) => Ok(doc),
        Err(text) => Err(FlowError::Json(text)),
    }
}

/// The value of the first field with a name.
pub open spec fn field_named(fs: Seq<(Seq<u8>, Json)>, name: Seq<u8>) -> Option<Json>
    decreases fs.len(),
{
    if fs.len() == 0 {
        None
    } else if fs.first().0 == name {
        Some(fs.first().1)
    } else {
        field_named(fs.drop_first(), name)
    }
}

/// The fields with `name` set to `v`: in place of the field with that name, or
/// before the first field with a greater one.
pub open spec fn with_field(fs: Seq<(Seq<u8>, Json)>, name: Seq<u8>, v: Json) -> Seq<
    (Seq<u8>, Json),
>
    decreases fs.len(),
{
    if fs.len() == 0 || lex_lt(name, fs.first().0) {
        seq![(name, v)] + fs
    } else if fs.first().0 == name {
        seq![(name, v)] + fs.drop_first()
    } else {
        seq![fs.first()] + with_field(fs.drop_first(), name, v)
    }
}

/// Finds the first field with a name; gives the number of fields where there is none.
pub fn find_field(fs: &Vec<Field>, name: &[u8]) -> (r: usize)
    ensures
        r <= fs@.len(),
        r < fs@.len() ==> field_named(field_seq(fs@), name@) == Some(fs@[r as int].value@),
        r == fs@.len() ==> field_named(field_seq(fs@), name@) is None,
{
    let ghost all = field_seq(fs@);
    let mut i: usize = 0;
    assert(all.subrange(0, all.len() as int) =~= all);
    while i < fs.len()
        invariant
            i <= fs.len(),
            all == field_seq(fs@),
            field_named(all, name@) == field_named(
                all.subrange(i as int, all.len() as int),
                name@,
            ),
        decreases fs.len() - i,
    {
        let ghost rest = all.subrange(i as int, all.len() as int);
        assert(rest.first() == (encode_utf8(fs@[i as int].name@), fs@[i as int].value@));
        assert(rest.drop_first() =~= all.subrange(i + 1, all.len() as int));
        if bytes_eq(fs[i].name.as_str().as_bytes(), name) {
            return i;
        }
        i = i + 1;
    }
    i
}

/// Sets a field of an object.
pub fn set_field(fs: &mut Vec<Field>, name: String, value: JsonValue)
    ensures
        field_seq(final(fs)@) == with_field(field_seq(old(fs)@), encode_utf8(name@), value@),
{
    let ghost all = field_seq(fs@);
    let ghost key = encode_utf8(name@);
    let mut i: usize = 0;
    assert(all.subrange(0, all.len() as int) =~= all);
    assert(all.subrange(0, 0) + with_field(all, key, value@) =~= with_field(all, key, value@));
    while i < fs.len()
        invariant
            i <= fs.len(),
            fs@ == old(fs)@,
            all == field_seq(fs@),
            key == encode_utf8(name@),
            with_field(all, key, value@) == all.subrange(0, i as int) + with_field(
                all.subrange(i as int, all.len() as int),
                key,
                value@,
            ),
        decreases fs.len() - i,
    {
        let ghost rest = all.subrange(i as int, all.len() as int);
        let ghost v = value@;
        proof {
            assert(rest.first() == (encode_utf8(fs@[i as int].name@), fs@[i as int].value@));
            assert(rest.drop_first() =~= all.subrange(i + 1, all.len() as int));
        }
        match compare_bytes(name.as_str().as_bytes(), fs[i].name.as_str().as_bytes()) {
            Order::Less => {
                fs.insert(i, Field { name, value });
                assert(field_seq(fs@) =~= all.subrange(0, i as int) + (seq![(key, v)] + rest));
                return;
            },
            Order::Equal => {
                proof {
                    lemma_lex_irreflexive(key);
                }
                fs.set(i, Field { name, value });
                assert(field_seq(fs@) =~= all.subrange(0, i as int) + (seq![(key, v)]
                    + rest.drop_first()));
                return;
            },
            Order::Greater => {
                proof {
                    lemma_lex_asymmetric(rest.first().0, key);
                    assert(all.subrange(0, i as int) + (seq![rest.first()] + with_field(
                        rest.drop_first(),
                        key,
                        v,
                    )) =~= all.subrange(0, i + 1) + with_field(rest.drop_first(), key, v));
                }
            },
        }
        i = i + 1;
    }
    let ghost v = value@;
    fs.push(Field { name, value });
    assert(field_seq(fs@) =~= all.push((key, v)));
    assert(all.subrange(0, i as int) =~= all);
    assert(with_field(Seq::<(Seq<u8>, Json)>::empty(), key, v) =~= seq![(key, v)]);
    assert(all.subrange(i as int, all.len() as int) =~= Seq::<(Seq<u8>, Json)>::empty());
    assert(all.push((key, v)) =~= all + seq![(key, v)]);
}

/// The position of the first `.` in a path, or its length.
pub open spec fn first_dot(path: Seq<u8>) -> int
    decreases path.len(),
{
    if path.len() == 0 || path.first() == 46 {
        0
    } else {
        1 + first_dot(path.drop_first())
    }
}

pub proof fn lemma_first_dot(path: Seq<u8>, i: int)
    requires
        0 <= i <= path.len(),
        forall|j: int| 0 <= j < i ==> #[trigger] path[j] != 46,
        i < path.len() ==> path[i] == 46,
    ensures
        first_dot(path) == i,
    decreases path.len(),
{
    if i > 0 {
        let t = path.drop_first();
        assert(path[0] != 46);
        assert forall|j: int| 0 <= j < i - 1 implies #[trigger] t[j] != 46 by {
            assert(t[j] == path[j + 1]);
        }
        lemma_first_dot(t, i - 1);
    }
}

/// The number that decimal digits spell; none where they are no digits, or none at all.
pub open spec fn digits_value(s: Seq<u8>) -> Option<nat>
    decreases s.len(),
{
    if s.len() == 0 || !(48 <= s.last() <= 57) {
        None
    } else if s.len() == 1 {
        Some((s.last() - 48) as nat)
    } else {
        match digits_value(s.drop_last()) {
            Some(n) => Some(n * 10 + (s.last() - 48) as nat),
            None => None,
        }
    }
}

/// What one segment of a path leads to: a field of an object by its name, an
/// element of an array by its position.
pub open spec fn step_into(v: Json, segment: Seq<u8>) -> Option<Json> {
    match v {
        Json::Object(fs) => field_named(fs, segment),
        Json::Array(a) => match digits_value(segment) {
            Some(n) => if n < a.len() {
                Some(a[n as int])
            } else {
                None
            },
            None => None,
        },
        _ => None,
    }
}

/// What a dotted path leads to.
pub open spec fn field_at(v: Json, path: Seq<u8>) -> Option<Json>
    decreases path.len(),
{
    let i = first_dot(path);
    if i < 0 || i >= path.len() {
        step_into(v, path)
    } else {
        match step_into(v, path.subrange(0, i)) {
            Some(w) => field_at(w, path.subrange(i + 1, path.len() as int)),
            None => None,
        }
    }
}

/// The position that a segment names, where it is below `len`.
fn position_of(segment: &[u8], len: usize) -> (r: Option<usize>)
    ensures
        match r {
            Some(n) => digits_value(segment@) == Some(n as nat) && n < len,
            None => digits_value(segment@) is None || digits_value(segment@)->0 >= len,
        },
{
    if segment.len() == 0 {
        return None;
    }
    let mut n: usize = 0;
    let mut over: bool = false;
    let mut i: usize = 0;
    while i < segment.len()
        invariant
            i <= segment.len(),
            i > 0 ==> digits_value(segment@.subrange(0, i as int)) is Some,
            i > 0 && !over ==> digits_value(segment@.subrange(0, i as int)) == Some(n as nat),
            i == 0 ==> n == 0 && !over,
            over ==> digits_value(segment@.subrange(0, i as int))->0 >= len,
        decreases segment.len() - i,
    {
        let b: u8 = segment[i];
        let ghost s = segment@.subrange(0, i + 1);
        proof {
            assert(s.drop_last() =~= segment@.subrange(0, i as int));
            assert(s.last() == b);
        }
        if b < 48 || b > 57 {
            proof {
                lemma_bad_digit(segment@, i as int);
            }
            return None;
        }
        let d: usize = (b - 48) as usize;
        if !over {
            if n > (usize::MAX - d) / 10 {
                over = true;
                assert(n * 10 + d > usize::MAX);
            } else {
                n = n * 10 + d;
            }
        }
        i = i + 1;
    }
    assert(segment@.subrange(0, i as int) =~= segment@);
    if over || n >= len {
        None
    } else {
        Some(n)
    }
}

/// A byte that is no digit spoils the number.
proof fn lemma_bad_digit(s: Seq<u8>, i: int)
    requires
        0 <= i < s.len(),
        !(48 <= s[i] <= 57),
    ensures
        digits_value(s) is None,
    decreases s.len(),
{
    if i < s.len() - 1 {
        assert(s.drop_last()[i] == s[i]);
        lemma_bad_digit(s.drop_last(), i);
    }
}

/// Goes one segment of a path.
fn step<'a>(v: &'a JsonValue, segment: &[u8]) -> (r: Option<&'a JsonValue>)
    ensures
        match r {
            Some(w) => step_into(v@, segment@) == Some(w@),
            None => step_into(v@, segment@) is None,
        },
{
    match v {
        JsonValue::Object(fs) => {
            proof {
                lemma_object_view(*fs);
            }
            let i: usize = find_field(fs, segment);
            if i < fs.len() {
                Some(&fs[i].value)
            } else {
                None
            }
        },
        JsonValue::Array(a) => {
            proof {
                lemma_array_view(*a);
            }
            match position_of(segment, a.len()) {
                Some(n) => {
                    assert(json_seq(a@)[n as int] == a@[n as int]@);
                    Some(&a[n])
                },
                None => None,
            }
        },
        _ => None,
    }
}

/// Follows a dotted path.
pub fn follow<'a>(v: &'a JsonValue, path: &[u8]) -> (r: Option<&'a JsonValue>)
    ensures
        match r {
            Some(w) => field_at(v@, path@) == Some(w@),
            None => field_at(v@, path@) is None,
        },
    decreases path@.len(),
{
    let mut i: usize = 0;
    while i < path.len() && path[i] != 46
        invariant
            i <= path.len(),
            forall|j: int| 0 <= j < i ==> #[trigger] path@[j] != 46,
        decreases path.len() - i,
    {
        i = i + 1;
    }
    proof {
        lemma_first_dot(path@, i as int);
    }
    if i == path.len() {
        return step(v, path);
    }
    match step(v, slice_subrange(path, 0, i)) {
        Some(w) => follow(w, slice_subrange(path, i + 1, path.len())),
        None => None,
    }
}

/// The value that a dotted path leads to in a document.
pub fn extract_field(doc: &JsonValue, path: &str) -> (r: Option<JsonValue>)
    ensures
        match r {
            Some(w) => field_at(doc@, encode_utf8(path@)) == Some(w@),
            None => field_at(doc@, encode_utf8(path@)) is None,
        },
{
    match follow(doc, path.as_bytes()) {
        Some(w) => Some(w.copy()),
        None => None,
    }
}

} // verus!
