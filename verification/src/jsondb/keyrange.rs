//! Ranges of keys.

use vstd::prelude::*;
use vstd::utf8::encode_utf8;

use crate::bytes::{
    bytes_le, bytes_lt, copy_bytes, increment_prefix_bytes, incremented, lex_le, lex_lt, push_bytes,
};
use crate::error::{FlowErrorView, Result};
use crate::jsondb::encoding::{
    doc_prefix, doc_prefix_of, encode_index_value, encode_primary_key, idx_prefix, idx_prefix_of,
    index_value, primary_key,
};
use crate::jsondb::value::{Json, JsonValue};
use crate::record::{Bound, ScanRange, ScanRangeView};

verus! {

/// An IndexedDB-compatible key range for filtering documents or index entries.
#[derive(Debug)]
pub struct KeyRange {
    pub lower: Option<JsonValue>,
    pub upper: Option<JsonValue>,
    pub lower_open: bool,
    pub upper_open: bool,
}

/// A key range with its bounds as they are meant.
pub struct KeyRangeView {
    pub lower: Option<Json>,
    pub upper: Option<Json>,
    pub lower_open: bool,
    pub upper_open: bool,
}

pub open spec fn bound_view(b: Option<JsonValue>) -> Option<Json> {
    match b {
        Some(v) => Some(v@),
        None => None,
    }
}

impl View for KeyRange {
    type V = KeyRangeView;

    open spec fn view(&self) -> KeyRangeView {
        KeyRangeView {
            lower: bound_view(self.lower),
            upper: bound_view(self.upper),
            lower_open: self.lower_open,
            upper_open: self.upper_open,
        }
    }
}

impl KeyRangeView {
    /// `key` is in the range, in the order of index values.
    pub open spec fn includes(self, key: Json) -> bool {
        &&& match self.lower {
            Some(l) => if self.lower_open {
                lex_lt(index_value(l), index_value(key))
            } else {
                lex_le(index_value(l), index_value(key))
            },
            None => true,
        }
        &&& match self.upper {
            Some(u) => if self.upper_open {
                lex_lt(index_value(key), index_value(u))
            } else {
                lex_le(index_value(key), index_value(u))
            },
            None => true,
        }
    }

    /// Where the range starts among keys that begin with `prefix`.
    pub open spec fn doc_start(self, prefix: Seq<u8>) -> core::result::Result<
        Bound<Seq<u8>>,
        FlowErrorView,
    > {
        match self.lower {
            None => Ok(Bound::Included(prefix)),
            Some(v) => match primary_key(v) {
                Err(e) => Err(e),
                Ok(pk) => Ok(
                    if self.lower_open {
                        Bound::Excluded(prefix + pk)
                    } else {
                        Bound::Included(prefix + pk)
                    },
                ),
            },
        }
    }

    /// Where the range ends among keys that begin with `prefix`.
    pub open spec fn doc_end(self, prefix: Seq<u8>) -> core::result::Result<
        Bound<Seq<u8>>,
        FlowErrorView,
    > {
        match self.upper {
            None => Ok(Bound::Excluded(incremented(prefix))),
            Some(v) => match primary_key(v) {
                Err(e) => Err(e),
                Ok(pk) => Ok(
                    if self.upper_open {
                        Bound::Excluded(prefix + pk)
                    } else {
                        Bound::Included(prefix + pk)
                    },
                ),
            },
        }
    }

    /// The scan over a store's documents.
    pub open spec fn doc_scan(self, store: Seq<u8>) -> core::result::Result<
        ScanRangeView,
        FlowErrorView,
    > {
        let prefix = doc_prefix_of(store);
        match (self.doc_start(prefix), self.doc_end(prefix)) {
            (Err(e), _) => Err(e),
            (_, Err(e)) => Err(e),
            (Ok(s), Ok(e)) => Ok(
                ScanRangeView {
                    key_start: s,
                    key_end: e,
                    ts_start: Bound::Unbounded,
                    ts_end: Bound::Unbounded,
                },
            ),
        }
    }

    /// The scan over an index's entries. The entries of one value follow its
    /// encoding and a zero byte, and no value's encoding has a zero byte: so
    /// the encoding and a one byte separate a value from greater ones.
    pub open spec fn index_scan(self, store: Seq<u8>, index: Seq<u8>) -> ScanRangeView {
        let prefix = idx_prefix_of(store, index);
        ScanRangeView {
            key_start: match self.lower {
                None => Bound::Included(prefix),
                Some(v) => if self.lower_open {
                    Bound::Included(prefix + index_value(v) + seq![1u8])
                } else {
                    Bound::Included(prefix + index_value(v))
                },
            },
            key_end: match self.upper {
                None => Bound::Excluded(incremented(prefix)),
                Some(v) => if self.upper_open {
                    Bound::Excluded(prefix + index_value(v))
                } else {
                    Bound::Excluded(prefix + index_value(v) + seq![1u8])
                },
            },
            ts_start: Bound::Unbounded,
            ts_end: Bound::Unbounded,
        }
    }
}

impl Default for KeyRange {
    fn default() -> (r: KeyRange)
        ensures
            r@ == (KeyRangeView { lower: None, upper: None, lower_open: false, upper_open: false }),
    {
        KeyRange { lower: None, upper: None, lower_open: false, upper_open: false }
    }
}

/// `a` followed by `b`.
fn joined(a: &[u8], b: &[u8]) -> (r: Vec<u8>)
    ensures
        r@ == a@ + b@,
{
    let mut v = copy_bytes(a);
    push_bytes(&mut v, b);
    v
}

impl KeyRange {
    /// Match exactly one key.
    pub fn only(key: JsonValue) -> (r: KeyRange)
        ensures
            r@ == (KeyRangeView {
                lower: Some(key@),
                upper: Some(key@),
                lower_open: false,
                upper_open: false,
            }),
    {
        KeyRange {
            lower: Some(key.copy()),
            upper: Some(key),
            lower_open: false,
            upper_open: false,
        }
    }

    /// Match keys in `[lower, upper]` (or with open bounds).
    pub fn bound(lower: JsonValue, upper: JsonValue, lower_open: bool, upper_open: bool) -> (r:
        KeyRange)
        ensures
            r@ == (KeyRangeView {
                lower: Some(lower@),
                upper: Some(upper@),
                lower_open,
                upper_open,
            }),
    {
        KeyRange { lower: Some(lower), upper: Some(upper), lower_open, upper_open }
    }

    /// Match keys `>= lower` (or `> lower` when `open` is true).
    pub fn lower_bound(key: JsonValue, open: bool) -> (r: KeyRange)
        ensures
            r@ == (KeyRangeView {
                lower: Some(key@),
                upper: None,
                lower_open: open,
                upper_open: false,
            }),
    {
        KeyRange { lower: Some(key), upper: None, lower_open: open, upper_open: false }
    }

    /// Match keys `<= upper` (or `< upper` when `open` is true).
    pub fn upper_bound(key: JsonValue, open: bool) -> (r: KeyRange)
        ensures
            r@ == (KeyRangeView {
                lower: None,
                upper: Some(key@),
                lower_open: false,
                upper_open: open,
            }),
    {
        KeyRange { lower: None, upper: Some(key), lower_open: false, upper_open: open }
    }

    /// Check whether a key falls within this range.
    pub fn includes(&self, key: &JsonValue) -> (r: bool)
        ensures
            r == self@.includes(key@),
    {
        let k = encode_index_value(key);
        if let Some(lower) = &self.lower {
            let l = encode_index_value(lower);
            let ok = if self.lower_open {
                bytes_lt(&l, &k)
            } else {
                bytes_le(&l, &k)
            };
            if !ok {
                return false;
            }
        }
        if let Some(upper) = &self.upper {
            let u = encode_index_value(upper);
            let ok = if self.upper_open {
                bytes_lt(&k, &u)
            } else {
                bytes_le(&k, &u)
            };
            if !ok {
                return false;
            }
        }
        true
    }

    pub fn is_unbounded(&self) -> (r: bool)
        ensures
            r == (self@.lower is None && self@.upper is None),
    {
        self.lower.is_none() && self.upper.is_none()
    }

    /// Convert to a [`ScanRange`] over the **primary-key space** of a store.
    pub fn to_doc_scan_range(&self, store: &str) -> (r: Result<ScanRange>)
        ensures
            r is Ok <==> self@.doc_scan(encode_utf8(store@)) is Ok,
            match r {
                Ok(s) => s@ == self@.doc_scan(encode_utf8(store@))->Ok_0,
                Err(e) => e@ == self@.doc_scan(encode_utf8(store@))->Err_0,
            },
    {
        let pfx = doc_prefix(store);
        let key_start = match &self.lower {
            None => Bound::Included(copy_bytes(&pfx)),
            Some(val) => match encode_primary_key(val) {
                Err(e) => {
                    return Err(e);
                },
                Ok(pk) => {
                    let full = joined(&pfx, &pk);
                    if self.lower_open {
                        Bound::Excluded(full)
                    } else {
                        Bound::Included(full)
                    }
                },
            },
        };
        let key_end = match &self.upper {
            None => Bound::Excluded(increment_prefix_bytes(&pfx)),
            Some(val) => match encode_primary_key(val) {
                Err(e) => {
                    return Err(e);
                },
                Ok(pk) => {
                    let full = joined(&pfx, &pk);
                    if self.upper_open {
                        Bound::Excluded(full)
                    } else {
                        Bound::Included(full)
                    }
                },
            },
        };
        Ok(
            ScanRange {
                key_start,
                key_end,
                ts_start: Bound::Unbounded,
                ts_end: Bound::Unbounded,
            },
        )
    }

    /// Convert to a [`ScanRange`] over the **index-value space** of an index.
    pub fn to_index_scan_range(&self, store: &str, index: &str) -> (r: Result<ScanRange>)
        ensures
            r is Ok,
            r->Ok_0@ == self@.index_scan(encode_utf8(store@), encode_utf8(index@)),
    {
        let pfx = idx_prefix(store, index);
        let key_start = match &self.lower {
            None => Bound::Included(copy_bytes(&pfx)),
            Some(val) => {
                let mut full = joined(&pfx, &encode_index_value(val));
                if self.lower_open {
                    let ghost before = full@;
                    full.push(1);
                    assert(full@ =~= before + seq![1u8]);
                }
                Bound::Included(full)
            },
        };
        let key_end = match &self.upper {
            None => Bound::Excluded(increment_prefix_bytes(&pfx)),
            Some(val) => {
                let mut full = joined(&pfx, &encode_index_value(val));
                if !self.upper_open {
                    let ghost before = full@;
                    full.push(1);
                    assert(full@ =~= before + seq![1u8]);
                }
                Bound::Excluded(full)
            },
        };
        Ok(
            ScanRange {
                key_start,
                key_end,
                ts_start: Bound::Unbounded,
                ts_end: Bound::Unbounded,
            },
        )
    }
}

} // verus!
