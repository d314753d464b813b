//! The errors of the engine and of the document layer.

use vstd::prelude::*;
use vstd::string::*;

verus! {

/// What can go wrong.
#[derive(Debug)]
pub enum FlowError {
    /// A configuration value is out of range.
    Config(String),
    /// Stored data does not have the shape it was written with.
    Corruption { file: String, msg: String },
    /// A block does not start with the magic number.
    InvalidMagic { expected: u32, actual: u32 },
    /// An SST has no block of that index.
    BlockNotFound { sst_id: u32, block_idx: u32 },
    /// The document layer refused a request.
    JsonDb(String),
    /// A text is no JSON, or a value has no JSON text.
    Json(String),
    /// Anything else.
    Other(String),
}

pub type Result<T> = core::result::Result<T, FlowError>;

/// An error with its texts as character sequences.
pub enum FlowErrorView {
    Config(Seq<char>),
    Corruption { file: Seq<char>, msg: Seq<char> },
    InvalidMagic { expected: u32, actual: u32 },
    BlockNotFound { sst_id: u32, block_idx: u32 },
    JsonDb(Seq<char>),
    Json(Seq<char>),
    Other(Seq<char>),
}

impl View for FlowError {
    type V = FlowErrorView;

    open spec fn view(&self) -> FlowErrorView {
        match self {
            FlowError::Config(m) => FlowErrorView::Config(m@),
            FlowError::Corruption { file, msg } => FlowErrorView::Corruption {
                file: file@,
                msg: msg@,
            },
            FlowError::InvalidMagic { expected, actual } => FlowErrorView::InvalidMagic {
                expected: *expected,
                actual: *actual,
            },
            FlowError::BlockNotFound { sst_id, block_idx } => FlowErrorView::BlockNotFound {
                sst_id: *sst_id,
                block_idx: *block_idx,
            },
            FlowError::JsonDb(m) => FlowErrorView::JsonDb(m@),
            FlowError::Json(m) => FlowErrorView::Json(m@),
            FlowError::Other(m) => FlowErrorView::Other(m@),
        }
    }
}

/// The decimal digits of `n`.
pub open spec fn decimal(n: nat) -> Seq<char>
    decreases n,
{
    if n < 10 {
        digit(n)
    } else {
        decimal(n / 10) + digit(n % 10)
    }
}

/// One decimal digit.
pub open spec fn digit(d: nat) -> Seq<char> {
    if d == 0 {
        "0"@
    } else if d == 1 {
        "1"@
    } else if d == 2 {
        "2"@
    } else if d == 3 {
        "3"@
    } else if d == 4 {
        "4"@
    } else if d == 5 {
        "5"@
    } else if d == 6 {
        "6"@
    } else if d == 7 {
        "7"@
    } else if d == 8 {
        "8"@
    } else {
        "9"@
    }
}

fn digit_text(d: u64) -> (r: &'static str)
    ensures
        r@ == digit(d as nat),
{
    match d {
        0 => "0",
        1 => "1",
        2 => "2",
        3 => "3",
        4 => "4",
        5 => "5",
        6 => "6",
        7 => "7",
        8 => "8",
        _ => "9",
    }
}

/// The decimal representation of `n`.
pub fn decimal_text(n: u64) -> (r: String)
    ensures
        r@ == decimal(n as nat),
    decreases n,
{
    if n < 10 {
        string_of(digit_text(n))
    } else {
        decimal_text(n / 10).concat(digit_text(n % 10))
    }
}

/// The decimal representation of a signed number.
pub open spec fn signed_decimal(n: int) -> Seq<char> {
    if n < 0 {
        "-"@ + decimal((-n) as nat)
    } else {
        decimal(n as nat)
    }
}

/// Computes [`signed_decimal`].
pub fn signed_decimal_text(n: i64) -> (r: String)
    ensures
        r@ == signed_decimal(n as int),
{
    if n < 0 {
        let m: u64 = (-(n + 1)) as u64 + 1;
        text2("-", &decimal_text(m))
    } else {
        decimal_text(n as u64)
    }
}

/// An owned copy of `s`.
pub fn string_of(s: &str) -> (r: String)
    ensures
        r@ == s@,
{
    s.to_owned()
}

/// `a` followed by `b`.
pub fn text2(a: &str, b: &str) -> (r: String)
    ensures
        r@ == a@ + b@,
{
    s_cat(string_of(a), b)
}

/// `a`, `b` and `c` in a row.
pub fn text3(a: &str, b: &str, c: &str) -> (r: String)
    ensures
        r@ == a@ + b@ + c@,
{
    s_cat(text2(a, b), c)
}

/// Four pieces of text in a row.
pub fn text4(a: &str, b: &str, c: &str, d: &str) -> (r: String)
    ensures
        r@ == a@ + b@ + c@ + d@,
{
    s_cat(text3(a, b, c), d)
}

/// Five pieces of text in a row.
pub fn text5(a: &str, b: &str, c: &str, d: &str, e: &str) -> (r: String)
    ensures
        r@ == a@ + b@ + c@ + d@ + e@,
{
    s_cat(text4(a, b, c, d), e)
}

/// The first `n` texts, separated by commas.
pub open spec fn listed(parts: Seq<Seq<char>>, n: nat) -> Seq<char>
    decreases n,
{
    if n == 0 || n > parts.len() {
        Seq::empty()
    } else if n == 1 {
        parts[0]
    } else {
        listed(parts, (n - 1) as nat) + ", "@ + parts[n - 1]
    }
}

/// Texts in brackets, separated by commas.
pub open spec fn bracketed(parts: Seq<Seq<char>>) -> Seq<char> {
    "["@ + listed(parts, parts.len()) + "]"@
}

/// Computes [`bracketed`].
pub fn bracketed_text(parts: &Vec<String>) -> (r: String)
    ensures
        r@ == bracketed(parts@.map_values(|t: String| t@)),
{
    let ghost all = parts@.map_values(|t: String| t@);
    let mut out = string_of("[");
    let mut i: usize = 0;
    assert(out@ =~= "["@ + listed(all, 0));
    while i < parts.len()
        invariant
            i <= parts.len(),
            all == parts@.map_values(|t: String| t@),
            out@ == "["@ + listed(all, i as nat),
        decreases parts.len() - i,
    {
        let ghost before = listed(all, i as nat);
        if i > 0 {
            out = s_cat(out, ", ");
        }
        out = s_cat(out, parts[i].as_str());
        assert(all[i as int] == parts@[i as int]@);
        assert(out@ =~= "["@ + listed(all, (i + 1) as nat));
        i = i + 1;
    }
    s_cat(out, "]")
}

/// What the `Debug` of `str` makes of a text.
pub uninterp spec fn quoted(s: Seq<char>) -> Seq<char>;

/// Calls `format!` with the `Debug` of `str`, which puts the text in quotes and
/// escapes what needs it. The result is a function of the text.
#[verifier::external_body]
pub(crate) fn quoted_text(s: &str) -> (r: String)
    ensures
        r@ == quoted(s@),
{
    format!("{:?}", s)
}

fn s_cat(s: String, t: &str) -> (r: String)
    ensures
        r@ == s@ + t@,
{
    s.concat(t)
}

impl FlowError {
    /// The text that describes the error.
    pub open spec fn message_text(self) -> Seq<char> {
        match self@ {
            FlowErrorView::Config(m) => m,
            FlowErrorView::Corruption { file, msg } => file + ": "@ + msg,
            FlowErrorView::InvalidMagic { expected, actual } => "invalid magic: expected "@
                + decimal(expected as nat) + ", found "@ + decimal(actual as nat),
            FlowErrorView::BlockNotFound { sst_id, block_idx } => "block "@ + decimal(
                block_idx as nat,
            ) + " not found in sst "@ + decimal(sst_id as nat),
            FlowErrorView::JsonDb(m) => m,
            FlowErrorView::Json(m) => m,
            FlowErrorView::Other(m) => m,
        }
    }

    /// Describes the error in words.
    pub fn message(&self) -> (r: String)
        ensures
            r@ == self.message_text(),
    {
        match self {
            FlowError::Config(m) => m.clone(),
            FlowError::Corruption { file, msg } => text3(file, ": ", msg),
            FlowError::InvalidMagic { expected, actual } => text4(
                "invalid magic: expected ",
                &decimal_text(*expected as u64),
                ", found ",
                &decimal_text(*actual as u64),
            ),
            FlowError::BlockNotFound { sst_id, block_idx } => text4(
                "block ",
                &decimal_text(*block_idx as u64),
                " not found in sst ",
                &decimal_text(*sst_id as u64),
            ),
            FlowError::JsonDb(m) => m.clone(),
            FlowError::Json(m) => m.clone(),
            FlowError::Other(m) => m.clone(),
        }
    }
}

} // verus!
