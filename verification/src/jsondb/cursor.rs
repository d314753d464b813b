//! Cursors over documents and over index entries.

use vstd::prelude::*;
use vstd::utf8::encode_utf8;

use crate::engine::EngineView;
use crate::error::{text3, FlowError, FlowErrorView, Result};
use crate::jsondb::db::{key_or_null, DbView, JsonDB};
use crate::jsondb::documents::range_view;
use crate::jsondb::encoding::{doc_key, doc_key_of, idx_prefix, idx_prefix_of, prefix_range};
use crate::jsondb::keyrange::{KeyRange, KeyRangeView};
use crate::jsondb::schema::{texts_eq, IndexDef, IndexDefView, StoreDef};
use crate::jsondb::value::{
    decode_doc, decoded_doc, extract_field, json_equal, json_seq, lemma_array_view, Json, JsonValue,
};
use crate::record::{records_of, Record, RecordView, ScanRangeView};

verus! {

/// Cursor direction, mirroring IndexedDB cursor direction values.
#[derive(Debug, Clone, Copy, PartialEq, Eq, Structural)]
pub enum CursorDirection {
    Next,
    NextUnique,
    Prev,
    PrevUnique,
}

impl CursorDirection {
    /// The direction that a text names, if it names one.
    pub open spec fn named(s: Seq<char>) -> Option<CursorDirection> {
        if s == "next"@ {
            Some(CursorDirection::Next)
        } else if s == "nextunique"@ {
            Some(CursorDirection::NextUnique)
        } else if s == "prev"@ {
            Some(CursorDirection::Prev)
        } else if s == "prevunique"@ {
            Some(CursorDirection::PrevUnique)
        } else {
            None
        }
    }

    pub open spec fn reverse(self) -> bool {
        self is Prev || self is PrevUnique
    }

    pub open spec fn unique(self) -> bool {
        self is NextUnique || self is PrevUnique
    }

    pub fn is_reverse(&self) -> (r: bool)
        ensures
            r == self.reverse(),
    {
        match self {
            CursorDirection::Prev => true,
            CursorDirection::PrevUnique => true,
            _ => false,
        }
    }

    pub fn is_unique(&self) -> (r: bool)
        ensures
            r == self.unique(),
    {
        match self {
            CursorDirection::NextUnique => true,
            CursorDirection::PrevUnique => true,
            _ => false,
        }
    }

    /// The direction that a text names.
    pub fn parse(s: &str) -> (r: Result<CursorDirection>)
        ensures
            match CursorDirection::named(s@) {
                Some(d) => r is Ok && r->Ok_0 == d,
                None => r is Err && r->Err_0@ == FlowErrorView::JsonDb(
                    "invalid cursor direction '"@ + s@
                        + "'; expected next/prev/nextunique/prevunique"@,
                ),
            },
    {
        if texts_eq(s, "next") {
            Ok(CursorDirection::Next)
        } else if texts_eq(s, "nextunique") {
            Ok(CursorDirection::NextUnique)
        } else if texts_eq(s, "prev") {
            Ok(CursorDirection::Prev)
        } else if texts_eq(s, "prevunique") {
            Ok(CursorDirection::PrevUnique)
        } else {
            Err(
                FlowError::JsonDb(
                    text3(
                        "invalid cursor direction '",
                        s,
                        "'; expected next/prev/nextunique/prevunique",
                    ),
                ),
            )
        }
    }
}

/// A key equals one of a sequence.
pub open spec fn seen(keys: Seq<Json>, key: Json) -> bool {
    exists|i: int| 0 <= i < keys.len() && json_equal(#[trigger] keys[i], key)
}

/// An item of a cursor: its index value, its primary key and its document.
pub type Item = (Json, Json, Json);

/// The items whose primary key comes for the first time.
pub open spec fn first_items(items: Seq<Item>) -> Seq<Item>
    decreases items.len(),
{
    if items.len() == 0 {
        items
    } else {
        let before = first_items(items.drop_last());
        if seen(before.map_values(|t: Item| t.1), items.last().1) {
            before
        } else {
            before.push(items.last())
        }
    }
}

/// The items in the order in which a cursor gives them.
pub open spec fn directed(items: Seq<Item>, dir: CursorDirection) -> Seq<Item> {
    let order = if dir.reverse() {
        items.reverse()
    } else {
        items
    };
    if dir.unique() {
        first_items(order)
    } else {
        order
    }
}

/// The items for the documents of records, which come under their keys.
pub open spec fn doc_items(records: Seq<RecordView>, key_path: Seq<u8>) -> core::result::Result<
    Seq<Item>,
    FlowErrorView,
>
    decreases records.len(),
{
    if records.len() == 0 {
        Ok(Seq::empty())
    } else {
        match doc_items(records.drop_last(), key_path) {
            Err(e) => Err(e),
            Ok(items) => match decoded_doc(records.last().value) {
                Err(e) => Err(e),
                Ok(doc) => {
                    let key = key_or_null(doc, key_path);
                    Ok(items.push((key, key, doc)))
                },
            },
        }
    }
}

/// The value of a document in an index, as it is shown: that of the one field,
/// or an array with those of all.
pub open spec fn shown_value(doc: Json, d: IndexDefView) -> Json {
    if d.key_paths.len() == 1 {
        key_or_null(doc, encode_utf8(d.key_paths[0]))
    } else {
        Json::Array(
            d.key_paths.map_values(|p: Seq<char>| key_or_null(doc, encode_utf8(p))),
        )
    }
}

/// The items for the documents that index entries lead to. An entry whose
/// document is gone is passed over.
pub open spec fn entry_items(
    v: EngineView,
    records: Seq<RecordView>,
    store: Seq<u8>,
    key_path: Seq<u8>,
    d: IndexDefView,
) -> core::result::Result<Seq<Item>, FlowErrorView>
    decreases records.len(),
{
    if records.len() == 0 {
        Ok(Seq::empty())
    } else {
        match entry_items(v, records.drop_last(), store, key_path, d) {
            Err(e) => Err(e),
            Ok(items) => match v.point(doc_key_of(store, records.last().value), 0) {
                None => Ok(items),
                Some(rec) => match decoded_doc(rec.value) {
                    Err(e) => Err(e),
                    Ok(doc) => Ok(
                        items.push((shown_value(doc, d), key_or_null(doc, key_path), doc)),
                    ),
                },
            },
        }
    }
}

/// Once a record could not be read, no items come of more.
proof fn lemma_doc_items_fail(records: Seq<RecordView>, key_path: Seq<u8>, k: int)
    requires
        0 <= k <= records.len(),
        doc_items(records.take(k), key_path) is Err,
    ensures
        doc_items(records, key_path) is Err,
        doc_items(records, key_path)->Err_0 == doc_items(records.take(k), key_path)->Err_0,
    decreases records.len(),
{
    if k == records.len() {
        assert(records.take(k) =~= records);
    } else {
        assert(records.drop_last().take(k) =~= records.take(k));
        lemma_doc_items_fail(records.drop_last(), key_path, k);
    }
}

/// Once an entry's document could not be read, no items come of more.
proof fn lemma_entry_items_fail(
    v: EngineView,
    records: Seq<RecordView>,
    store: Seq<u8>,
    key_path: Seq<u8>,
    d: IndexDefView,
    k: int,
)
    requires
        0 <= k <= records.len(),
        entry_items(v, records.take(k), store, key_path, d) is Err,
    ensures
        entry_items(v, records, store, key_path, d) is Err,
        entry_items(v, records, store, key_path, d)->Err_0 == entry_items(
            v,
            records.take(k),
            store,
            key_path,
            d,
        )->Err_0,
    decreases records.len(),
{
    if k == records.len() {
        assert(records.take(k) =~= records);
    } else {
        assert(records.drop_last().take(k) =~= records.take(k));
        lemma_entry_items_fail(v, records.drop_last(), store, key_path, d, k);
    }
}

impl DbView {
    /// What a cursor over a store's documents gives.
    pub open spec fn cursor(
        self,
        store: Seq<char>,
        range: Option<KeyRangeView>,
        dir: CursorDirection,
    ) -> core::result::Result<Seq<Item>, FlowErrorView> {
        match self.doc_range(store, range) {
            Err(e) => Err(e),
            Ok(s) => match doc_items(
                self.records(s),
                encode_utf8(self.store(store)->0.key_path),
            ) {
                Err(e) => Err(e),
                Ok(items) => Ok(directed(items, dir)),
            },
        }
    }

    /// What a cursor over an index gives.
    pub open spec fn index_cursor(
        self,
        store: Seq<char>,
        index: Seq<char>,
        range: Option<KeyRangeView>,
        dir: CursorDirection,
    ) -> core::result::Result<Seq<Item>, FlowErrorView> {
        match self.index(store, index) {
            Err(e) => Err(e),
            Ok(d) => {
                let sb = encode_utf8(store);
                let ib = encode_utf8(index);
                let part = match range {
                    Some(kr) => kr.index_scan(sb, ib),
                    None => ScanRangeView::of_prefix(idx_prefix_of(sb, ib)),
                };
                match entry_items(
                    self.engine,
                    self.records(part),
                    sb,
                    encode_utf8(self.store(store)->0.key_path),
                    d,
                ) {
                    Err(e) => Err(e),
                    Ok(items) => Ok(directed(items, dir)),
                }
            },
        }
    }
}

/// What a walk has to go through and where it stands.
pub struct WalkView {
    pub items: Seq<Item>,
    pub pos: nat,
}

impl WalkView {
    /// The walk at its start.
    pub open spec fn at_start(items: Seq<Item>) -> WalkView {
        WalkView { items, pos: 0 }
    }

    /// The item that comes next.
    pub open spec fn item(self) -> Option<Item> {
        if self.pos < self.items.len() {
            Some(self.items[self.pos as int])
        } else {
            None
        }
    }

    /// The walk once the next item was given.
    pub open spec fn stepped(self) -> WalkView {
        if self.pos < self.items.len() {
            WalkView { pos: self.pos + 1, ..self }
        } else {
            self
        }
    }

    /// The walk once `n` items were passed over.
    pub open spec fn skipped(self, n: nat) -> WalkView {
        if self.pos + n <= self.items.len() {
            WalkView { pos: self.pos + n, ..self }
        } else {
            WalkView { pos: self.items.len(), ..self }
        }
    }
}

/// The items of a sequence.
pub open spec fn items_of(s: Seq<(JsonValue, JsonValue, JsonValue)>) -> Seq<Item> {
    s.map_values(|t: (JsonValue, JsonValue, JsonValue)| (t.0@, t.1@, t.2@))
}

/// A copy of an item.
fn copy_item(t: &(JsonValue, JsonValue, JsonValue)) -> (r: (JsonValue, JsonValue, JsonValue))
    ensures
        r.0@ == t.0@,
        r.1@ == t.1@,
        r.2@ == t.2@,
{
    (t.0.copy(), t.1.copy(), t.2.copy())
}

/// Brings items into the order in which a cursor gives them.
fn direct(items: Vec<(JsonValue, JsonValue, JsonValue)>, dir: CursorDirection) -> (r: Vec<
    (JsonValue, JsonValue, JsonValue),
>)
    ensures
        items_of(r@) == directed(items_of(items@), dir),
{
    let ghost all = items_of(items@);
    let mut order = items;
    if dir.is_reverse() {
        let mut back: Vec<(JsonValue, JsonValue, JsonValue)> = Vec::new();
        while order.len() > 0
            invariant
                items_of(order@).len() <= all.len(),
                items_of(order@) == all.take(items_of(order@).len() as int),
                items_of(back@) == all.skip(items_of(order@).len() as int).reverse(),
            decreases order.len(),
        {
            let ghost n = order@.len();
            let ghost shorter = order@.drop_last();
            let ghost before = items_of(back@);
            assert(items_of(order@).len() == n);
            assert(items_of(order@)[n - 1] == all[n - 1]);
            if let Some(t) = order.pop() {
                let ghost tv = (t.0@, t.1@, t.2@);
                back.push(t);
                proof {
                    assert(tv == all[n - 1]);
                    assert(items_of(order@) =~= all.take(n - 1));
                    assert(items_of(back@) =~= before.push(tv));
                    assert(items_of(back@) =~= all.skip(n - 1).reverse());
                }
            }
        }
        assert(all.skip(0) =~= all);
        order = back;
    }
    if !dir.is_unique() {
        return order;
    }
    let ghost list = items_of(order@);
    let mut out: Vec<(JsonValue, JsonValue, JsonValue)> = Vec::new();
    let mut i: usize = 0;
    assert(items_of(out@) =~= first_items(list.take(0)));
    while i < order.len()
        invariant
            i <= order.len(),
            list == items_of(order@),
            items_of(out@) == first_items(list.take(i as int)),
        decreases order.len() - i,
    {
        let ghost before = items_of(out@);
        let ghost keys = before.map_values(|t: Item| t.1);
        let ghost key = list[i as int].1;
        proof {
            assert(list.take(i + 1).drop_last() =~= list.take(i as int));
            assert(list.take(i + 1).last() == list[i as int]);
        }
        let mut known = false;
        let mut k: usize = 0;
        while k < out.len() && !known
            invariant
                i < order.len(),
                list == items_of(order@),
                key == list[i as int].1,
                k <= out.len(),
                before == items_of(out@),
                keys == before.map_values(|t: Item| t.1),
                known ==> seen(keys, key),
                !known ==> forall|j: int| 0 <= j < k ==> !json_equal(#[trigger] keys[j], key),
            decreases out.len() - k,
        {
            assert(keys[k as int] == out@[k as int].1@);
            if out[k].1.same(&order[i].1) {
                assert(json_equal(keys[k as int], key));
                known = true;
            }
            k = k + 1;
        }
        assert(known == seen(keys, key));
        if !known {
            let t = copy_item(&order[i]);
            let ghost tv = (t.0@, t.1@, t.2@);
            out.push(t);
            assert(tv == list[i as int]);
            assert(items_of(out@) =~= before.push(tv));
        }
        i = i + 1;
    }
    assert(list.take(list.len() as int) =~= list);
    out
}

/// A field of a document; null where it is not there.
fn field_or_null(doc: &JsonValue, path: &str) -> (r: JsonValue)
    ensures
        r@ == key_or_null(doc@, encode_utf8(path@)),
{
    match extract_field(doc, path) {
        Some(v) => v,
        None => JsonValue::Null,
    }
}

/// The value of a document in an index, as it is shown.
fn show_value(doc: &JsonValue, d: &IndexDef) -> (r: JsonValue)
    ensures
        r@ == shown_value(doc@, d@),
{
    if d.key_paths.len() == 1 {
        assert(d@.key_paths[0] == d.key_paths@[0]@);
        return field_or_null(doc, d.key_paths[0].as_str());
    }
    let ghost want = d@.key_paths.map_values(|p: Seq<char>| key_or_null(doc@, encode_utf8(p)));
    let mut vals: Vec<JsonValue> = Vec::new();
    let mut i: usize = 0;
    assert(json_seq(vals@) =~= want.take(0));
    while i < d.key_paths.len()
        invariant
            i <= d.key_paths.len(),
            want == d@.key_paths.map_values(
                |p: Seq<char>| key_or_null(doc@, encode_utf8(p)),
            ),
            json_seq(vals@) == want.take(i as int),
        decreases d.key_paths.len() - i,
    {
        let ghost before = json_seq(vals@);
        assert(d@.key_paths[i as int] == d.key_paths@[i as int]@);
        let v = field_or_null(doc, d.key_paths[i].as_str());
        let ghost vv = v@;
        vals.push(v);
        assert(json_seq(vals@) =~= before.push(vv));
        assert(json_seq(vals@) =~= want.take(i + 1));
        i = i + 1;
    }
    proof {
        assert(want.take(want.len() as int) =~= want);
        lemma_array_view(vals);
    }
    JsonValue::Array(vals)
}

/// Makes the items for the documents of records.
fn collect_docs(records: &Vec<Record>, def: &StoreDef) -> (r: Result<
    Vec<(JsonValue, JsonValue, JsonValue)>,
>)
    ensures
        ({
            let spec = doc_items(records_of(records@), encode_utf8(def@.key_path));
            match r {
                Ok(v) => spec is Ok && items_of(v@) == spec->Ok_0,
                Err(e) => spec is Err && e@ == spec->Err_0,
            }
        }),
{
    let ghost all = records_of(records@);
    let ghost kp = encode_utf8(def@.key_path);
    let mut out: Vec<(JsonValue, JsonValue, JsonValue)> = Vec::new();
    let mut i: usize = 0;
    assert(items_of(out@) =~= Seq::<Item>::empty());
    while i < records.len()
        invariant
            i <= records.len(),
            all == records_of(records@),
            kp == encode_utf8(def@.key_path),
            doc_items(all.take(i as int), kp) is Ok,
            doc_items(all.take(i as int), kp)->Ok_0 == items_of(out@),
        decreases records.len() - i,
    {
        let ghost before = items_of(out@);
        proof {
            assert(all.take(i + 1).drop_last() =~= all.take(i as int));
            assert(all.take(i + 1).last() == records@[i as int]@);
        }
        match decode_doc(&records[i].value) {
            Ok(doc) => {
                let key = field_or_null(&doc, def.key_path.as_str());
                let t = (key.copy(), key, doc);
                let ghost tv = (t.0@, t.1@, t.2@);
                out.push(t);
                assert(items_of(out@) =~= before.push(tv));
            },
            Err(e) => {
                proof {
                    lemma_doc_items_fail(all, kp, i + 1);
                }
                return Err(e);
            },
        }
        i = i + 1;
    }
    assert(all.take(all.len() as int) =~= all);
    Ok(out)
}

/// Makes the items for the documents that index entries lead to.
fn collect_entries(
    db: &JsonDB,
    records: &Vec<Record>,
    store: &str,
    def: &StoreDef,
    idx: &IndexDef,
) -> (r: Result<Vec<(JsonValue, JsonValue, JsonValue)>>)
    requires
        db.well_formed(),
    ensures
        ({
            let spec = entry_items(
                db@.engine,
                records_of(records@),
                encode_utf8(store@),
                encode_utf8(def@.key_path),
                idx@,
            );
            match r {
                Ok(v) => spec is Ok && items_of(v@) == spec->Ok_0,
                Err(e) => spec is Err && e@ == spec->Err_0,
            }
        }),
{
    let ghost all = records_of(records@);
    let ghost sb = encode_utf8(store@);
    let ghost kp = encode_utf8(def@.key_path);
    let ghost ev = db@.engine;
    let mut out: Vec<(JsonValue, JsonValue, JsonValue)> = Vec::new();
    let mut i: usize = 0;
    assert(items_of(out@) =~= Seq::<Item>::empty());
    while i < records.len()
        invariant
            i <= records.len(),
            db.well_formed(),
            all == records_of(records@),
            sb == encode_utf8(store@),
            kp == encode_utf8(def@.key_path),
            ev == db@.engine,
            entry_items(ev, all.take(i as int), sb, kp, idx@) is Ok,
            entry_items(ev, all.take(i as int), sb, kp, idx@)->Ok_0 == items_of(out@),
        decreases records.len() - i,
    {
        let ghost before = items_of(out@);
        proof {
            assert(all.take(i + 1).drop_last() =~= all.take(i as int));
            assert(all.take(i + 1).last() == records@[i as int]@);
        }
        if let Some(rec) = db.engine().get_bytes(&doc_key(store, &records[i].value), 0) {
            match decode_doc(&rec.value) {
                Ok(doc) => {
                    let shown = show_value(&doc, idx);
                    let pk = field_or_null(&doc, def.key_path.as_str());
                    let t = (shown, pk, doc);
                    let ghost tv = (t.0@, t.1@, t.2@);
                    out.push(t);
                    assert(items_of(out@) =~= before.push(tv));
                },
                Err(e) => {
                    proof {
                        lemma_entry_items_fail(ev, all, sb, kp, idx@, i + 1);
                    }
                    return Err(e);
                },
            }
        }
        i = i + 1;
    }
    assert(all.take(all.len() as int) =~= all);
    Ok(out)
}

/// A cursor over documents in primary-key order.
pub struct Cursor {
    items: Vec<(JsonValue, JsonValue, JsonValue)>,
    pos: usize,
}

impl View for Cursor {
    type V = WalkView;

    closed spec fn view(&self) -> WalkView {
        WalkView { items: items_of(self.items@), pos: self.pos as nat }
    }
}

/// `r` is the key and the document of an item.
pub open spec fn gives_doc(item: Option<Item>, r: Option<(JsonValue, JsonValue)>) -> bool {
    match item {
        None => r is None,
        Some(t) => r is Some && (r->0).0@ == t.1 && (r->0).1@ == t.2,
    }
}

/// `r` is an item.
pub open spec fn gives_item(
    item: Option<Item>,
    r: Option<(JsonValue, JsonValue, JsonValue)>,
) -> bool {
    match item {
        None => r is None,
        Some(t) => r is Some && (r->0).0@ == t.0 && (r->0).1@ == t.1 && (r->0).2@ == t.2,
    }
}

impl Cursor {
    /// The cursor stands on an item or behind the last.
    pub closed spec fn well_formed(self) -> bool {
        self.pos <= self.items@.len()
    }

    /// Opens a cursor over a store.
    pub fn open(
        db: &JsonDB,
        store: &str,
        range: Option<&KeyRange>,
        direction: CursorDirection,
    ) -> (r: Result<Cursor>)
        requires
            db.well_formed(),
        ensures
            match db@.cursor(store@, range_view(range), direction) {
                Ok(items) => r is Ok && r->Ok_0.well_formed() && r->Ok_0@ == WalkView::at_start(
                    items,
                ),
                Err(e) => r is Err && r->Err_0@ == e,
            },
    {
        let def = match db.require_store(store) {
            Ok(d) => d,
            Err(e) => {
                return Err(e);
            },
        };
        let scan_range = match db.doc_scan_range(store, range) {
            Ok(s) => s,
            Err(e) => {
                return Err(e);
            },
        };
        let records = db.engine().scan_all(scan_range);
        match collect_docs(&records, &def) {
            Ok(items) => Ok(Cursor { items: direct(items, direction), pos: 0 }),
            Err(e) => Err(e),
        }
    }

    /// Gives the next key and document.
    pub fn next_value(&mut self) -> (r: Option<(JsonValue, JsonValue)>)
        requires
            old(self).well_formed(),
        ensures
            final(self).well_formed(),
            final(self)@ == old(self)@.stepped(),
            gives_doc(old(self)@.item(), r),
    {
        if self.pos >= self.items.len() {
            return None;
        }
        assert(self@.items[self.pos as int].1 == self.items@[self.pos as int].1@);
        let t = copy_item(&self.items[self.pos]);
        self.pos = self.pos + 1;
        Some((t.1, t.2))
    }

    /// Passes over `count` items, then gives the next.
    pub fn advance(&mut self, count: usize) -> (r: Option<(JsonValue, JsonValue)>)
        requires
            old(self).well_formed(),
        ensures
            final(self).well_formed(),
            final(self)@ == old(self)@.skipped(count as nat).stepped(),
            gives_doc(old(self)@.skipped(count as nat).item(), r),
    {
        let left: usize = self.items.len() - self.pos;
        if count <= left {
            self.pos = self.pos + count;
        } else {
            self.pos = self.items.len();
        }
        self.next_value()
    }

    /// How many items are still to come.
    pub fn remaining(&self) -> (r: usize)
        requires
            self.well_formed(),
        ensures
            r == self@.items.len() - self@.pos,
    {
        self.items.len() - self.pos
    }

    /// The key of the item that was given last.
    pub fn current_key(&self) -> (r: Option<&JsonValue>)
        requires
            self.well_formed(),
        ensures
            self@.pos == 0 ==> r is None,
            self@.pos > 0 ==> r is Some && (r->0)@ == self@.items[self@.pos - 1].1,
    {
        if self.pos == 0 {
            None
        } else {
            assert(self@.items[self.pos - 1].1 == self.items@[self.pos - 1].1@);
            Some(&self.items[self.pos - 1].1)
        }
    }
}

/// A cursor over an index, yielding (index_value, primary_key, doc) triples.
pub struct IndexCursor {
    items: Vec<(JsonValue, JsonValue, JsonValue)>,
    pos: usize,
}

impl View for IndexCursor {
    type V = WalkView;

    closed spec fn view(&self) -> WalkView {
        WalkView { items: items_of(self.items@), pos: self.pos as nat }
    }
}

impl IndexCursor {
    /// The cursor stands on an item or behind the last.
    pub closed spec fn well_formed(self) -> bool {
        self.pos <= self.items@.len()
    }

    /// Opens a cursor over an index.
    pub fn open(
        db: &JsonDB,
        store: &str,
        index: &str,
        range: Option<&KeyRange>,
        direction: CursorDirection,
    ) -> (r: Result<IndexCursor>)
        requires
            db.well_formed(),
        ensures
            match db@.index_cursor(store@, index@, range_view(range), direction) {
                Ok(items) => r is Ok && r->Ok_0.well_formed() && r->Ok_0@ == WalkView::at_start(
                    items,
                ),
                Err(e) => r is Err && r->Err_0@ == e,
            },
    {
        let def = match db.require_store(store) {
            Ok(d) => d,
            Err(e) => {
                return Err(e);
            },
        };
        let idx = match db.require_index(store, index) {
            Ok(d) => d,
            Err(e) => {
                return Err(e);
            },
        };
        let scan_range = match range {
            Some(kr) => match kr.to_index_scan_range(store, index) {
                Ok(s) => s,
                Err(e) => {
                    return Err(e);
                },
            },
            None => prefix_range(&idx_prefix(store, index)),
        };
        let records = db.engine().scan_all(scan_range);
        match collect_entries(db, &records, store, &def, &idx) {
            Ok(items) => Ok(IndexCursor { items: direct(items, direction), pos: 0 }),
            Err(e) => Err(e),
        }
    }

    /// Gives the next index value, key and document.
    pub fn next_value(&mut self) -> (r: Option<(JsonValue, JsonValue, JsonValue)>)
        requires
            old(self).well_formed(),
        ensures
            final(self).well_formed(),
            final(self)@ == old(self)@.stepped(),
            gives_item(old(self)@.item(), r),
    {
        if self.pos >= self.items.len() {
            return None;
        }
        assert(self@.items[self.pos as int].1 == self.items@[self.pos as int].1@);
        let t = copy_item(&self.items[self.pos]);
        self.pos = self.pos + 1;
        Some(t)
    }

    /// Passes over `count` items, then gives the next.
    pub fn advance(&mut self, count: usize) -> (r: Option<(JsonValue, JsonValue, JsonValue)>)
        requires
            old(self).well_formed(),
        ensures
            final(self).well_formed(),
            final(self)@ == old(self)@.skipped(count as nat).stepped(),
            gives_item(old(self)@.skipped(count as nat).item(), r),
    {
        let left: usize = self.items.len() - self.pos;
        if count <= left {
            self.pos = self.pos + count;
        } else {
            self.pos = self.items.len();
        }
        self.next_value()
    }

    /// How many items are still to come.
    pub fn remaining(&self) -> (r: usize)
        requires
            self.well_formed(),
        ensures
            r == self@.items.len() - self@.pos,
    {
        self.items.len() - self.pos
    }
}

impl JsonDB {
    /// Opens a [`Cursor`] over a store's primary-key space, optionally filtered
    /// by a [`KeyRange`], with the given [`CursorDirection`].
    pub fn open_cursor(
        &self,
        store: &str,
        range: Option<&KeyRange>,
        direction: CursorDirection,
    ) -> (r: Result<Cursor>)
        requires
            self.well_formed(),
        ensures
            match self@.cursor(store@, range_view(range), direction) {
                Ok(items) => r is Ok && r->Ok_0.well_formed() && r->Ok_0@ == WalkView::at_start(
                    items,
                ),
                Err(e) => r is Err && r->Err_0@ == e,
            },
    {
        Cursor::open(self, store, range, direction)
    }

    /// Opens an [`IndexCursor`] over an index's value space.
    pub fn open_cursor_on_index(
        &self,
        store: &str,
        index: &str,
        range: Option<&KeyRange>,
        direction: CursorDirection,
    ) -> (r: Result<IndexCursor>)
        requires
            self.well_formed(),
        ensures
            match self@.index_cursor(store@, index@, range_view(range), direction) {
                Ok(items) => r is Ok && r->Ok_0.well_formed() && r->Ok_0@ == WalkView::at_start(
                    items,
                ),
                Err(e) => r is Err && r->Err_0@ == e,
            },
    {
        IndexCursor::open(self, store, index, range, direction)
    }
}

} // verus!
