//! What a binding for another language hands over, as plain values: settings,
//! key ranges, cursor feeds, and transactions whose operations are collected
//! first and carried out at the commit.

use vstd::prelude::*;
use vstd::utf8::encode_utf8;

use crate::error::{string_of, FlowError, FlowErrorView, Result};
use crate::jsondb::cursor::{doc_items, first_items, Cursor, CursorDirection, IndexCursor, Item};
use crate::jsondb::db::{comes_to, DbView, JsonDB};
use crate::jsondb::documents::{integer_json, json_of_i64, range_view};
use crate::jsondb::keyrange::{bound_view, KeyRange, KeyRangeView};
use crate::jsondb::schema::texts_eq;
use crate::jsondb::transaction::{tx_reads, Transaction, TransactionMode, TxView};
use crate::jsondb::value::{
    extract_field, field_at, field_named, field_seq, find_field, json_equal, lemma_object_view,
    set_field, with_field, Field, Json, JsonValue,
};
use crate::record::{Config, RecordView};

verus! {

/// The mode that a text names, if it names one.
pub open spec fn mode_named(s: Seq<char>) -> Option<TransactionMode> {
    if s == "readonly"@ {
        Some(TransactionMode::ReadOnly)
    } else if s == "readwrite"@ {
        Some(TransactionMode::ReadWrite)
    } else {
        None
    }
}

/// The transaction mode that a text names.
pub fn parse_mode(s: &str) -> (r: Result<TransactionMode>)
    ensures
        match mode_named(s@) {
            Some(m) => r is Ok && r->Ok_0 == m,
            None => r is Err && r->Err_0@ == FlowErrorView::Other(
                "mode must be 'readonly' or 'readwrite'"@,
            ),
        },
{
    if texts_eq(s, "readonly") {
        Ok(TransactionMode::ReadOnly)
    } else if texts_eq(s, "readwrite") {
        Ok(TransactionMode::ReadWrite)
    } else {
        Err(FlowError::Other(string_of("mode must be 'readonly' or 'readwrite'")))
    }
}

/// Microseconds in whole milliseconds, towards zero.
pub open spec fn millis_of(us: i64) -> int {
    if us >= 0 {
        us as int / 1000
    } else {
        -((-(us as int)) / 1000)
    }
}

/// Microseconds in whole milliseconds, towards zero.
fn millis(us: i64) -> (r: i64)
    ensures
        r as int == millis_of(us),
{
    if us >= 0 {
        (us as u64 / 1000) as i64
    } else {
        let m: u64 = (-(us + 1)) as u64 + 1;
        -((m / 1000) as i64)
    }
}

/// A document with its time and its expiry, in milliseconds. One that never
/// expires has null there. Something that is no object stays as it is.
pub open spec fn with_meta(doc: Json, ts: i64, expire_at: i64) -> Json {
    match doc {
        Json::Object(fs) => Json::Object(
            with_field(
                with_field(fs, encode_utf8("_tsMs"@), integer_json(millis_of(ts))),
                encode_utf8("_expireAtMs"@),
                if expire_at == i64::MAX {
                    Json::Null
                } else {
                    integer_json(millis_of(expire_at))
                },
            ),
        ),
        _ => doc,
    }
}

/// Puts a document's time and expiry into it.
pub fn inject_meta(doc: JsonValue, ts: i64, expire_at: i64) -> (r: JsonValue)
    ensures
        r@ == with_meta(doc@, ts, expire_at),
{
    match doc {
        JsonValue::Object(fs) => {
            proof {
                lemma_object_view(fs);
            }
            let mut fs = fs;
            set_field(&mut fs, string_of("_tsMs"), json_of_i64(millis(ts)));
            let expiry = if expire_at == i64::MAX {
                JsonValue::Null
            } else {
                json_of_i64(millis(expire_at))
            };
            set_field(&mut fs, string_of("_expireAtMs"), expiry);
            proof {
                lemma_object_view(fs);
            }
            JsonValue::Object(fs)
        },
        _ => doc,
    }
}

/// A bound of a key range: a field that is there and not null.
pub open spec fn bound_in(fs: Seq<(Seq<u8>, Json)>, name: Seq<char>) -> Option<Json> {
    match field_named(fs, encode_utf8(name)) {
        Some(Json::Null) => None,
        other => other,
    }
}

/// A flag: a field that is there and true.
pub open spec fn flag_in(fs: Seq<(Seq<u8>, Json)>, name: Seq<char>) -> bool {
    field_named(fs, encode_utf8(name)) == Some(Json::Bool(true))
}

/// The key range that a value describes.
pub open spec fn described_range(v: Json) -> core::result::Result<KeyRangeView, FlowErrorView> {
    match v {
        Json::Object(fs) => Ok(
            KeyRangeView {
                lower: bound_in(fs, "lower"@),
                upper: bound_in(fs, "upper"@),
                lower_open: flag_in(fs, "lowerOpen"@),
                upper_open: flag_in(fs, "upperOpen"@),
            },
        ),
        _ => Err(FlowErrorView::Other("KeyRange must be an object"@)),
    }
}

fn read_bound(fs: &Vec<Field>, name: &str) -> (r: Option<JsonValue>)
    ensures
        bound_view(r) == bound_in(field_seq(fs@), name@),
{
    let i: usize = find_field(fs, name.as_bytes());
    if i >= fs.len() {
        return None;
    }
    match &fs[i].value {
        JsonValue::Null => None,
        v => Some(v.copy()),
    }
}

fn read_flag(fs: &Vec<Field>, name: &str) -> (r: bool)
    ensures
        r == flag_in(field_seq(fs@), name@),
{
    let i: usize = find_field(fs, name.as_bytes());
    if i >= fs.len() {
        return false;
    }
    match &fs[i].value {
        JsonValue::Bool(b) => *b,
        _ => false,
    }
}

/// The key range that a value describes, where there is one.
pub fn parse_key_range(val: &Option<JsonValue>) -> (r: Result<Option<KeyRange>>)
    ensures
        match val {
            None => r is Ok && r->Ok_0 is None,
            Some(v) => match described_range(v@) {
                Ok(k) => r is Ok && r->Ok_0 is Some && (r->Ok_0->0)@ == k,
                Err(e) => r is Err && r->Err_0@ == e,
            },
        },
{
    match val {
        None => Ok(None),
        Some(JsonValue::Object(fs)) => {
            proof {
                lemma_object_view(*fs);
            }
            Ok(
                Some(
                    KeyRange {
                        lower: read_bound(fs, "lower"),
                        upper: read_bound(fs, "upper"),
                        lower_open: read_flag(fs, "lowerOpen"),
                        upper_open: read_flag(fs, "upperOpen"),
                    },
                ),
            )
        },
        Some(_) => Err(FlowError::Other(string_of("KeyRange must be an object"))),
    }
}

/// The settings that can be given from outside. What is not given keeps its
/// default.
#[derive(Debug)]
pub struct ConfigRequest {
    pub data_dir: String,
    pub create_if_missing: Option<bool>,
    pub default_ttl_secs: Option<i64>,
    pub memtable_size_mb: Option<i64>,
    pub block_cache_capacity_mb: Option<i64>,
    pub bloom_bits_per_key: Option<i64>,
    pub compaction_interval_ms: Option<i64>,
}

/// A number is given that is not greater than `bound`.
pub open spec fn at_most(v: Option<i64>, bound: int) -> bool {
    v is Some && v->0 <= bound
}

impl ConfigRequest {
    /// The complaint about the first setting that is out of range, if one is.
    pub open spec fn complaint(self) -> Option<Seq<char>> {
        if at_most(self.default_ttl_secs, -1) {
            Some("default_ttl_secs cannot be negative"@)
        } else if at_most(self.memtable_size_mb, 0) {
            Some("memtable_size_mb must be > 0"@)
        } else if at_most(self.block_cache_capacity_mb, -1) {
            Some("block_cache_capacity_mb cannot be negative"@)
        } else if at_most(self.bloom_bits_per_key, 0) {
            Some("bloom_bits_per_key must be > 0"@)
        } else if at_most(self.compaction_interval_ms, 0) {
            Some("compaction_interval_ms must be > 0"@)
        } else {
            None
        }
    }

    /// The configuration that is asked for.
    pub fn into_config(self) -> (r: Result<Config>)
        ensures
            match self.complaint() {
                Some(m) => r is Err && r->Err_0@ == FlowErrorView::Other(m),
                None => r is Ok && {
                    let c = r->Ok_0;
                    &&& c.data_dir@ == self.data_dir@
                    &&& c.create_if_missing == (match self.create_if_missing {
                        Some(b) => b,
                        None => true,
                    })
                    &&& c.default_ttl_secs == (match self.default_ttl_secs {
                        Some(v) => Some(v as u64),
                        None => None,
                    })
                    &&& c.memtable_size_mb == (match self.memtable_size_mb {
                        Some(v) => v as usize,
                        None => 64,
                    })
                    &&& c.block_cache_capacity_mb == (match self.block_cache_capacity_mb {
                        Some(v) => v as usize,
                        None => 128,
                    })
                    &&& c.bloom_bits_per_key == (match self.bloom_bits_per_key {
                        Some(v) => v as usize,
                        None => 10,
                    })
                    &&& c.compaction_interval_ms == (match self.compaction_interval_ms {
                        Some(v) => v as u64,
                        None => 60_000,
                    })
                },
            },
    {
        let mut cfg = Config::default();
        cfg.data_dir = self.data_dir;
        if let Some(v) = self.create_if_missing {
            cfg.create_if_missing = v;
        }
        if let Some(v) = self.default_ttl_secs {
            if v < 0 {
                return Err(FlowError::Other(string_of("default_ttl_secs cannot be negative")));
            }
            cfg.default_ttl_secs = Some(v as u64);
        }
        if let Some(v) = self.memtable_size_mb {
            if v <= 0 {
                return Err(FlowError::Other(string_of("memtable_size_mb must be > 0")));
            }
            cfg.memtable_size_mb = v as usize;
        }
        if let Some(v) = self.block_cache_capacity_mb {
            if v < 0 {
                return Err(
                    FlowError::Other(string_of("block_cache_capacity_mb cannot be negative")),
                );
            }
            cfg.block_cache_capacity_mb = v as usize;
        }
        if let Some(v) = self.bloom_bits_per_key {
            if v <= 0 {
                return Err(FlowError::Other(string_of("bloom_bits_per_key must be > 0")));
            }
            cfg.bloom_bits_per_key = v as usize;
        }
        if let Some(v) = self.compaction_interval_ms {
            if v <= 0 {
                return Err(FlowError::Other(string_of("compaction_interval_ms must be > 0")));
            }
            cfg.compaction_interval_ms = v as u64;
        }
        Ok(cfg)
    }
}

/// What a cursor feed hands over: a key and a document, with the primary key
/// where the cursor walks an index; or that it is done.
#[derive(Debug)]
pub struct CursorItem {
    pub key: JsonValue,
    pub primary_key: Option<JsonValue>,
    pub value: JsonValue,
    pub done: bool,
}

/// A cursor item with its values as they are meant.
pub struct CursorItemView {
    pub key: Json,
    pub primary_key: Option<Json>,
    pub value: Json,
    pub done: bool,
}

impl View for CursorItem {
    type V = CursorItemView;

    open spec fn view(&self) -> CursorItemView {
        CursorItemView {
            key: self.key@,
            primary_key: bound_view(self.primary_key),
            value: self.value@,
            done: self.done,
        }
    }
}

/// How far a feed has come.
#[derive(Debug, Clone, Copy, PartialEq, Eq, Structural)]
pub enum FeedState {
    /// Items are handed over.
    Feeding,
    /// The last item was not taken: what is left is to say that it is done.
    Refused,
    /// It was said that it is done.
    Done,
}

/// Walks a store or an index.
enum Walk {
    Docs(Cursor),
    Entries(IndexCursor),
}

/// Hands the items of a cursor over one by one, and says in the end that it is
/// done. It stops early where an item is not taken.
pub struct CursorFeed {
    walk: Walk,
    state: FeedState,
}

/// The state of a feed.
pub struct FeedView {
    /// The items that are still to come.
    pub items: Seq<Item>,
    pub on_index: bool,
    pub state: FeedState,
}

pub open spec fn done_item() -> CursorItemView {
    CursorItemView { key: Json::Null, primary_key: None, value: Json::Null, done: true }
}

impl FeedView {
    /// What is handed over for an item.
    pub open spec fn shown(self, t: Item) -> CursorItemView {
        CursorItemView {
            key: t.0,
            primary_key: if self.on_index {
                Some(t.1)
            } else {
                None
            },
            value: t.2,
            done: false,
        }
    }

    /// What is handed over next, and the state after it.
    pub open spec fn step(self) -> (Option<CursorItemView>, FeedView) {
        match self.state {
            FeedState::Done => (None, self),
            FeedState::Refused => (
                Some(done_item()),
                FeedView { state: FeedState::Done, ..self },
            ),
            FeedState::Feeding => if self.items.len() == 0 {
                (Some(done_item()), FeedView { state: FeedState::Done, ..self })
            } else {
                (
                    Some(self.shown(self.items.first())),
                    FeedView { items: self.items.drop_first(), ..self },
                )
            },
        }
    }
}

impl View for CursorFeed {
    type V = FeedView;

    closed spec fn view(&self) -> FeedView {
        FeedView {
            items: match self.walk {
                Walk::Docs(c) => c@.items.skip(c@.pos as int),
                Walk::Entries(c) => c@.items.skip(c@.pos as int),
            },
            on_index: self.walk is Entries,
            state: self.state,
        }
    }
}

impl DbView {
    /// The items that a cursor feed is asked for.
    pub open spec fn feed(
        self,
        store: Seq<char>,
        index: Option<Seq<char>>,
        query: Option<Json>,
        direction: Seq<char>,
    ) -> core::result::Result<Seq<Item>, FlowErrorView> {
        let range = match query {
            None => Ok(None),
            Some(v) => match described_range(v) {
                Ok(k) => Ok(Some(k)),
                Err(e) => Err(e),
            },
        };
        match (range, CursorDirection::named(direction)) {
            (Err(e), _) => Err(e),
            (_, None) => Err(
                FlowErrorView::JsonDb(
                    "invalid cursor direction '"@ + direction
                        + "'; expected next/prev/nextunique/prevunique"@,
                ),
            ),
            (Ok(r), Some(d)) => match index {
                Some(i) => self.index_cursor(store, i, r, d),
                None => self.cursor(store, r, d),
            },
        }
    }
}

pub open spec fn text_view(s: Option<&str>) -> Option<Seq<char>> {
    match s {
        Some(t) => Some(t@),
        None => None,
    }
}

impl CursorFeed {
    pub closed spec fn well_formed(self) -> bool {
        match self.walk {
            Walk::Docs(c) => c.well_formed() && c@.pos <= c@.items.len() && forall|i: int|
                0 <= i < c@.items.len() ==> (#[trigger] c@.items[i]).0 == c@.items[i].1,
            Walk::Entries(c) => c.well_formed() && c@.pos <= c@.items.len(),
        }
    }

    /// Opens a feed over a store, or over one of its indexes.
    pub fn open(
        db: &JsonDB,
        store: &str,
        index: Option<&str>,
        query: &Option<JsonValue>,
        direction: &str,
    ) -> (r: Result<CursorFeed>)
        requires
            db.well_formed(),
        ensures
            match db@.feed(store@, text_view(index), bound_view(*query), direction@) {
                Ok(items) => r is Ok && r->Ok_0.well_formed() && r->Ok_0@ == (FeedView {
                    items,
                    on_index: index is Some,
                    state: FeedState::Feeding,
                }),
                Err(e) => r is Err && r->Err_0@ == e,
            },
    {
        let range = match parse_key_range(query) {
            Ok(k) => k,
            Err(e) => {
                return Err(e);
            },
        };
        let dir = match CursorDirection::parse(direction) {
            Ok(d) => d,
            Err(e) => {
                return Err(e);
            },
        };
        let range_ref = range.as_ref();
        let walk = match index {
            Some(i) => match db.open_cursor_on_index(store, i, range_ref, dir) {
                Ok(c) => {
                    assert(c@.items.skip(0) =~= c@.items);
                    Walk::Entries(c)
                },
                Err(e) => {
                    return Err(e);
                },
            },
            None => match db.open_cursor(store, range_ref, dir) {
                Ok(c) => {
                    proof {
                        assert(c@.items.skip(0) =~= c@.items);
                        lemma_doc_cursor_keys(
                            db@,
                            store@,
                            range_view(range_ref),
                            dir,
                        );
                    }
                    Walk::Docs(c)
                },
                Err(e) => {
                    return Err(e);
                },
            },
        };
        Ok(CursorFeed { walk, state: FeedState::Feeding })
    }

    /// What is to be handed over next.
    pub fn next(&mut self) -> (r: Option<CursorItem>)
        requires
            old(self).well_formed(),
        ensures
            final(self).well_formed(),
            final(self)@ == old(self)@.step().1,
            match r {
                Some(t) => old(self)@.step().0 == Some(t@),
                None => old(self)@.step().0 is None,
            },
    {
        match self.state {
            FeedState::Done => {
                return None;
            },
            FeedState::Refused => {},
            FeedState::Feeding => {
                match &mut self.walk {
                    Walk::Docs(c) => {
                        let ghost before = c@;
                        if let Some((key, doc)) = c.next_value() {
                            proof {
                                assert(before.items.skip(before.pos as int).drop_first()
                                    =~= before.items.skip(before.pos as int + 1));
                                assert(before.items.skip(before.pos as int).first()
                                    == before.items[before.pos as int]);
                            }
                            return Some(
                                CursorItem { key, primary_key: None, value: doc, done: false },
                            );
                        }
                        assert(before.items.skip(before.pos as int).len() == 0);
                    },
                    Walk::Entries(c) => {
                        let ghost before = c@;
                        if let Some((key, pk, doc)) = c.next_value() {
                            proof {
                                assert(before.items.skip(before.pos as int).drop_first()
                                    =~= before.items.skip(before.pos as int + 1));
                                assert(before.items.skip(before.pos as int).first()
                                    == before.items[before.pos as int]);
                            }
                            return Some(
                                CursorItem { key, primary_key: Some(pk), value: doc, done: false },
                            );
                        }
                        assert(before.items.skip(before.pos as int).len() == 0);
                    },
                }
            },
        }
        self.state = FeedState::Done;
        Some(
            CursorItem {
                key: JsonValue::Null,
                primary_key: None,
                value: JsonValue::Null,
                done: true,
            },
        )
    }

    /// Tells that the last item was not taken.
    pub fn refused(&mut self)
        requires
            old(self).well_formed(),
        ensures
            final(self).well_formed(),
            final(self)@ == (FeedView {
                state: if old(self)@.state is Feeding {
                    FeedState::Refused
                } else {
                    old(self)@.state
                },
                ..old(self)@
            }),
    {
        if let FeedState::Feeding = self.state {
            self.state = FeedState::Refused;
        }
    }
}

/// A cursor over documents shows each under its primary key.
proof fn lemma_doc_cursor_keys(
    db: DbView,
    store: Seq<char>,
    range: Option<KeyRangeView>,
    dir: CursorDirection,
)
    ensures
        db.cursor(store, range, dir) is Ok ==> forall|i: int|
            0 <= i < db.cursor(store, range, dir)->Ok_0.len() ==> (#[trigger] db.cursor(
                store,
                range,
                dir,
            )->Ok_0[i]).0 == db.cursor(store, range, dir)->Ok_0[i].1,
{
    if db.cursor(store, range, dir) is Ok {
        let records = db.records(db.doc_range(store, range)->Ok_0);
        let kp = encode_utf8(db.store(store)->0.key_path);
        let items = doc_items(records, kp)->Ok_0;
        lemma_doc_items_keys(records, kp);
        let order = if dir.reverse() {
            items.reverse()
        } else {
            items
        };
        assert(same_keys(order));
        lemma_first_items_keys(order);
    }
}

spec fn same_keys(items: Seq<Item>) -> bool {
    forall|i: int| 0 <= i < items.len() ==> (#[trigger] items[i]).0 == items[i].1
}

proof fn lemma_doc_items_keys(records: Seq<RecordView>, kp: Seq<u8>)
    requires
        doc_items(records, kp) is Ok,
    ensures
        same_keys(doc_items(records, kp)->Ok_0),
    decreases records.len(),
{
    if records.len() > 0 {
        lemma_doc_items_keys(records.drop_last(), kp);
    }
}

proof fn lemma_first_items_keys(items: Seq<Item>)
    requires
        same_keys(items),
    ensures
        same_keys(first_items(items)),
    decreases items.len(),
{
    if items.len() > 0 {
        assert(same_keys(items.drop_last()));
        lemma_first_items_keys(items.drop_last());
    }
}

/// An operation of a transaction that is carried out at the commit.
#[derive(Debug)]
pub enum TxOp {
    Put { store: String, value: JsonValue },
    PutAuto { store: String, value: JsonValue },
    Delete { store: String, key: JsonValue },
}

/// An operation with its texts and values as they are meant.
pub enum TxOpView {
    Put { store: Seq<char>, value: Json },
    PutAuto { store: Seq<char>, value: Json },
    Delete { store: Seq<char>, key: Json },
}

impl View for TxOp {
    type V = TxOpView;

    open spec fn view(&self) -> TxOpView {
        match self {
            TxOp::Put { store, value } => TxOpView::Put { store: store@, value: value@ },
            TxOp::PutAuto { store, value } => TxOpView::PutAuto { store: store@, value: value@ },
            TxOp::Delete { store, key } => TxOpView::Delete { store: store@, key: key@ },
        }
    }
}

/// The operations of a sequence.
pub open spec fn ops_of(s: Seq<TxOp>) -> Seq<TxOpView> {
    s.map_values(|o: TxOp| o@)
}

impl TxOpView {
    /// What the operation makes of a document: its new content, or that it is
    /// gone; nothing where it is about another document.
    pub open spec fn leaves(self, store: Seq<char>, key_path: Seq<char>, key: Json) -> Option<
        Option<Json>,
    > {
        match self {
            TxOpView::Put { store: s, value } => put_leaves(s, value, store, key_path, key),
            TxOpView::PutAuto { store: s, value } => put_leaves(s, value, store, key_path, key),
            TxOpView::Delete { store: s, key: k } => if s == store && json_equal(k, key) {
                Some(None)
            } else {
                None
            },
        }
    }

    /// The transaction once the operation was added.
    pub open spec fn added(self, tx: TxView, db: DbView) -> (TxView, Option<FlowErrorView>) {
        match self {
            TxOpView::Put { store, value } => match tx.put(db, store, value) {
                Ok((t, _)) => (t, None),
                Err(e) => (tx, Some(e)),
            },
            TxOpView::PutAuto { store, value } => match tx.put_auto(db, store, value) {
                Ok((t, _)) => (t, None),
                Err(e) => (tx, Some(e)),
            },
            TxOpView::Delete { store, key } => tx.delete(db, store, key),
        }
    }
}

pub open spec fn put_leaves(
    s: Seq<char>,
    value: Json,
    store: Seq<char>,
    key_path: Seq<char>,
    key: Json,
) -> Option<Option<Json>> {
    match field_at(value, encode_utf8(key_path)) {
        Some(k) => if s == store && json_equal(k, key) {
            Some(Some(value))
        } else {
            None
        },
        None => None,
    }
}

/// What the operations make of a document. The last one about it decides.
pub open spec fn pending(
    ops: Seq<TxOpView>,
    store: Seq<char>,
    key_path: Seq<char>,
    key: Json,
) -> Option<Option<Json>>
    decreases ops.len(),
{
    if ops.len() == 0 {
        None
    } else {
        match ops.last().leaves(store, key_path, key) {
            Some(v) => Some(v),
            None => pending(ops.drop_last(), store, key_path, key),
        }
    }
}

/// What a put makes of a document.
fn put_leaves_value(
    s: &str,
    value: &JsonValue,
    store: &str,
    key_path: &str,
    key: &JsonValue,
) -> (r: Option<Option<JsonValue>>)
    ensures
        match put_leaves(s@, value@, store@, key_path@, key@) {
            None => r is None,
            Some(v) => r is Some && bound_view(r->0) == v,
        },
{
    match extract_field(value, key_path) {
        Some(k) => if texts_eq(s, store) && k.same(key) {
            Some(Some(value.copy()))
        } else {
            None
        },
        None => None,
    }
}

/// Looks for what the operations make of a document.
pub fn find_pending(ops: &Vec<TxOp>, store: &str, key_path: &str, key: &JsonValue) -> (r: Option<
    Option<JsonValue>,
>)
    ensures
        match pending(ops_of(ops@), store@, key_path@, key@) {
            None => r is None,
            Some(v) => r is Some && bound_view(r->0) == v,
        },
{
    let ghost all = ops_of(ops@);
    let mut i: usize = ops.len();
    assert(all.take(all.len() as int) =~= all);
    while i > 0
        invariant
            i <= ops.len(),
            all == ops_of(ops@),
            pending(all, store@, key_path@, key@) == pending(
                all.take(i as int),
                store@,
                key_path@,
                key@,
            ),
        decreases i,
    {
        proof {
            assert(all.take(i as int).last() == ops@[i - 1]@);
            assert(all.take(i as int).drop_last() =~= all.take(i - 1));
        }
        i = i - 1;
        let found = match &ops[i] {
            TxOp::Put { store: s, value } => put_leaves_value(
                s.as_str(),
                value,
                store,
                key_path,
                key,
            ),
            TxOp::PutAuto { store: s, value } => put_leaves_value(
                s.as_str(),
                value,
                store,
                key_path,
                key,
            ),
            TxOp::Delete { store: s, key: k } => if texts_eq(s.as_str(), store) && k.same(key) {
                Some(None)
            } else {
                None
            },
        };
        if found.is_some() {
            return found;
        }
    }
    None
}

impl DbView {
    /// The transaction that the first `n` operations come to.
    pub open spec fn replayed(self, tx: TxView, ops: Seq<TxOpView>, n: nat) -> (
        TxView,
        Option<FlowErrorView>,
    )
        decreases n,
    {
        if n == 0 || n > ops.len() {
            (tx, None)
        } else {
            match self.replayed(tx, ops, (n - 1) as nat) {
                (t, Some(e)) => (t, Some(e)),
                (t, None) => ops[n - 1].added(t, self),
            }
        }
    }
}

proof fn lemma_replay_stops(db: DbView, tx: TxView, ops: Seq<TxOpView>, k: nat, n: nat)
    requires
        k <= n <= ops.len(),
        db.replayed(tx, ops, k).1 is Some,
    ensures
        db.replayed(tx, ops, n) == db.replayed(tx, ops, k),
    decreases n,
{
    if n > k {
        lemma_replay_stops(db, tx, ops, k, (n - 1) as nat);
    }
}

/// Reads inside a collected transaction.
pub fn tx_get(
    db: &JsonDB,
    tx: &mut Transaction,
    ops: &Vec<TxOp>,
    store: &str,
    key: &JsonValue,
) -> (r: Result<Option<JsonValue>>)
    requires
        db.well_formed(),
    ensures
        match pending(
            ops_of(ops@),
            store@,
            match db@.store(store@) {
                Some(d) => d.key_path,
                None => ""@,
            },
            key@,
        ) {
            Some(v) => final(tx)@ == old(tx)@ && r is Ok && bound_view(r->Ok_0) == v,
            None => final(tx)@ == old(tx)@.get(db@, store@, key@).0
                && tx_reads(
                old(tx)@.get(db@, store@, key@).1,
                r,
            ),
        },
{
    let key_path = match db.get_store(store) {
        Some(d) => d.key_path,
        None => string_of(""),
    };
    match find_pending(ops, store, key_path.as_str(), key) {
        Some(v) => Ok(v),
        None => tx.get(db, store, key),
    }
}

/// Adds an operation to a transaction.
fn add_op(tx: &mut Transaction, db: &JsonDB, op: &TxOp) -> (r: Result<()>)
    requires
        db.well_formed(),
    ensures
        final(tx)@ == op@.added(old(tx)@, db@).0,
        match r {
            Ok(_) => op@.added(old(tx)@, db@).1 is None,
            Err(e) => op@.added(old(tx)@, db@).1 == Some(e@),
        },
{
    match op {
        TxOp::Put { store, value } => match tx.put(db, store.as_str(), value.copy()) {
            Ok(_) => Ok(()),
            Err(e) => Err(e),
        },
        TxOp::PutAuto { store, value } => match tx.put_auto(db, store.as_str(), value.copy()) {
            Ok(_) => Ok(()),
            Err(e) => Err(e),
        },
        TxOp::Delete { store, key } => tx.delete(db, store.as_str(), key),
    }
}

/// Carries out the operations of a collected transaction.
fn replay(db: &JsonDB, tx: Transaction, ops: &Vec<TxOp>) -> (r: Result<Transaction>)
    requires
        db.well_formed(),
    ensures
        ({
            let spec = db@.replayed(tx@, ops_of(ops@), ops@.len());
            match r {
                Ok(t) => spec == (t@, None::<FlowErrorView>),
                Err(e) => spec.1 == Some(e@),
            }
        }),
{
    let ghost start = tx@;
    let ghost all = ops_of(ops@);
    let mut current = tx;
    let mut i: usize = 0;
    while i < ops.len()
        invariant
            i <= ops.len(),
            db.well_formed(),
            start == tx@,
            all == ops_of(ops@),
            db@.replayed(start, all, i as nat) == (current@, None::<FlowErrorView>),
        decreases ops.len() - i,
    {
        assert(all[i as int] == ops@[i as int]@);
        match add_op(&mut current, db, &ops[i]) {
            Ok(_) => {},
            Err(e) => {
                proof {
                    lemma_replay_stops(db@, start, all, (i + 1) as nat, all.len());
                }
                return Err(e);
            },
        }
        i = i + 1;
    }
    Ok(current)
}

/// Carries out the operations of a collected transaction and commits it.
pub fn commit_ops(db: &mut JsonDB, tx: Transaction, ops: Vec<TxOp>) -> (r: Result<()>)
    requires
        old(db).well_formed(),
    ensures
        final(db).well_formed(),
        final(db).settings() == old(db).settings(),
        match old(db)@.replayed(tx@, ops_of(ops@), ops@.len()) {
            (_, Some(e)) => final(db)@ == old(db)@ && r is Err && r->Err_0@ == e,
            (t, None) => comes_to(t.commit(old(db)@), final(db)@, r),
        },
{
    match replay(db, tx, &ops) {
        Ok(t) => t.commit(db),
        Err(e) => Err(e),
    }
}

} // verus!
