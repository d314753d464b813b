//! Reading and writing documents.

use vstd::prelude::*;
use vstd::utf8::encode_utf8;

use crate::bytes::{push_bytes, str_bytes};
use crate::engine::{Engine, EngineView};
use crate::error::{
    decimal, decimal_text, string_of, text3, text5, FlowError, FlowErrorView, Result,
};
use crate::jsondb::db::{comes_to, content_deletions, no_index, no_key, no_store, DbView, JsonDB};
use crate::jsondb::encoding::{
    composite_value, doc_key, doc_key_of, doc_prefix, doc_prefix_of, encode_composite_value,
    encode_index_value, encode_primary_key, idx_prefix, idx_prefix_of, idx_value_prefix,
    idx_value_prefix_of, index_value, prefix_range, primary_key,
};
use crate::jsondb::helpers::{
    build_delete_batch, build_put_batch, counter_put, delete_batch, next_id, prepare_counter,
    put_batch, records_under,
};
use crate::jsondb::keyrange::{KeyRange, KeyRangeView};
use crate::jsondb::schema::{index_named, IndexDef, IndexDefView, StoreDef, StoreDefView};
use crate::jsondb::value::{
    debug_text, decode_doc, decoded_doc, encode_doc, encoded_doc, extract_field, field_at,
    json_debug, json_seq, lemma_array_view, lemma_object_view, set_field, with_field, Json,
    JsonNumber, JsonValue, NumberView,
};
use crate::record::{
    entries, records_of, Bound, Entry, InternalRecord, Record, RecordView, ScanRange, ScanRangeView,
};

verus! {

/// What a change comes to before it is written: a value to give back and the
/// entries to write, or a complaint.
pub type Plan = core::result::Result<(Json, Seq<Entry>), FlowErrorView>;

/// `r` and `after` are what carrying out a plan comes to: nothing changes on a
/// complaint, and all entries are written otherwise.
pub open spec fn carried_out(plan: Plan, before: DbView, after: DbView, r: Result<JsonValue>) -> bool {
    match plan {
        Err(e) => after == before && r is Err && r->Err_0@ == e,
        Ok((v, es)) => {
            let (w, complaint) = before.committed(es, before.schema);
            after == w && match complaint {
                Some(e) => r is Err && r->Err_0@ == e,
                None => r is Ok && r->Ok_0@ == v,
            }
        },
    }
}

impl DbView {
    /// What putting a document comes to.
    pub open spec fn put_plan(self, store: Seq<char>, doc: Json) -> Plan {
        match self.store(store) {
            None => Err(no_store(store)),
            Some(def) => match field_at(doc, encode_utf8(def.key_path)) {
                None => Err(no_key(def.key_path, store)),
                Some(key) => match primary_key(key) {
                    Err(e) => Err(e),
                    Ok(pk) => self.put_at(def, store, key, pk, doc),
                },
            },
        }
    }

    /// What putting a document under a key comes to.
    pub open spec fn put_at(
        self,
        def: StoreDefView,
        store: Seq<char>,
        key: Json,
        pk: Seq<u8>,
        doc: Json,
    ) -> Plan {
        match encoded_doc(doc) {
            Err(e) => Err(e),
            Ok(bytes) => match put_batch(self.engine, def, encode_utf8(store), pk, bytes, doc) {
                Err(e) => Err(e),
                Ok(es) => Ok((key, es)),
            },
        }
    }

    /// What adding a document comes to: it must not be there yet.
    pub open spec fn add_plan(self, store: Seq<char>, doc: Json) -> Plan {
        match self.store(store) {
            None => Err(no_store(store)),
            Some(def) => match field_at(doc, encode_utf8(def.key_path)) {
                None => Err(no_key(def.key_path, store)),
                Some(key) => match primary_key(key) {
                    Err(e) => Err(e),
                    Ok(pk) => if self.engine.point(doc_key_of(encode_utf8(store), pk), 0) is Some {
                        Err(key_exists(key, store))
                    } else {
                        self.put_at(def, store, key, pk, doc)
                    },
                },
            },
        }
    }

    /// What putting a document under the next id comes to.
    pub open spec fn auto_plan(self, store: Seq<char>, doc: Json) -> Plan {
        match self.store(store) {
            None => Err(no_store(store)),
            Some(def) => if !def.auto_increment {
                Err(not_auto(store))
            } else {
                let sb = encode_utf8(store);
                match next_id(self.engine, sb) {
                    Err(e) => Err(e),
                    Ok(id) => match self.put_at(
                        def,
                        store,
                        id_json(id),
                        encode_utf8(decimal(id as nat)),
                        with_id(doc, def.key_path, id),
                    ) {
                        Err(e) => Err(e),
                        Ok((key, es)) => Ok((key, es.push(counter_put(sb, id)))),
                    },
                }
            },
        }
    }

    /// What a read of a document gives.
    pub open spec fn read(self, store: Seq<char>, key: Json, max_seq: u64) -> core::result::Result<
        Option<(Json, RecordView)>,
        FlowErrorView,
    > {
        match self.store(store) {
            None => Err(no_store(store)),
            Some(_) => match primary_key(key) {
                Err(e) => Err(e),
                Ok(pk) => match self.engine.point_at(
                    doc_key_of(encode_utf8(store), pk),
                    0,
                    max_seq,
                ) {
                    None => Ok(None),
                    Some(rec) => match decoded_doc(rec.value) {
                        Err(e) => Err(e),
                        Ok(doc) => Ok(Some((doc, rec))),
                    },
                },
            },
        }
    }

    /// The scan of a store's documents, all or those in a range.
    pub open spec fn doc_range(self, store: Seq<char>, range: Option<KeyRangeView>) -> core::result::Result<
        ScanRangeView,
        FlowErrorView,
    > {
        match self.store(store) {
            None => Err(no_store(store)),
            Some(_) => match range {
                Some(kr) => kr.doc_scan(encode_utf8(store)),
                None => Ok(ScanRangeView::of_prefix(doc_prefix_of(encode_utf8(store)))),
            },
        }
    }

    /// The records that a scan gives.
    pub open spec fn records(self, range: ScanRangeView) -> Seq<RecordView> {
        self.engine.range_scan(range).records()
    }

    /// An index of a store.
    pub open spec fn index(self, store: Seq<char>, index: Seq<char>) -> core::result::Result<
        IndexDefView,
        FlowErrorView,
    > {
        match self.store(store) {
            None => Err(no_store(store)),
            Some(def) => match index_named(def.indexes, index) {
                None => Err(no_index(index, store)),
                Some(d) => Ok(d),
            },
        }
    }
}

pub open spec fn key_exists(key: Json, store: Seq<char>) -> FlowErrorView {
    FlowErrorView::JsonDb(
        "a record with key '"@ + json_debug(key) + "' already exists in store '"@ + store + "'"@,
    )
}

pub open spec fn not_auto(store: Seq<char>) -> FlowErrorView {
    FlowErrorView::JsonDb("store '"@ + store + "' is not auto-increment"@)
}

pub open spec fn id_json(id: u64) -> Json {
    Json::Number(NumberView::PosInt(id))
}

/// A document with its id set; something that is no object stays as it is.
pub open spec fn with_id(doc: Json, key_path: Seq<char>, id: u64) -> Json {
    match doc {
        Json::Object(fs) => Json::Object(with_field(fs, encode_utf8(key_path), id_json(id))),
        _ => doc,
    }
}

/// Sets the id of a document.
pub fn inject_id(doc: JsonValue, key_path: &str, id: u64) -> (r: JsonValue)
    ensures
        r@ == with_id(doc@, key_path@, id),
{
    match doc {
        JsonValue::Object(fs) => {
            proof {
                lemma_object_view(fs);
            }
            let mut fs = fs;
            set_field(&mut fs, string_of(key_path), JsonValue::Number(JsonNumber::PosInt(id)));
            proof {
                lemma_object_view(fs);
            }
            JsonValue::Object(fs)
        },
        _ => doc,
    }
}

/// The documents of the records, up to a limit. The first record that holds no
/// document decides.
pub open spec fn docs_in(records: Seq<RecordView>, limit: Option<nat>) -> core::result::Result<
    Seq<Json>,
    FlowErrorView,
>
    decreases records.len(),
{
    if records.len() == 0 || limit == Some(0nat) {
        Ok(Seq::empty())
    } else {
        match decoded_doc(records.first().value) {
            Err(e) => Err(e),
            Ok(doc) => match docs_in(records.drop_first(), one_less(limit)) {
                Err(e) => Err(e),
                Ok(rest) => Ok(seq![doc] + rest),
            },
        }
    }
}

/// A limit once one place is taken.
pub open spec fn one_less(limit: Option<nat>) -> Option<nat> {
    match limit {
        Some(n) => if n == 0 {
            Some(0)
        } else {
            Some((n - 1) as nat)
        },
        None => None,
    }
}

/// The keys of the documents of the records, up to a limit. A document without
/// a key is passed over.
pub open spec fn keys_in(records: Seq<RecordView>, key_path: Seq<u8>, limit: Option<nat>) -> core::result::Result<
    Seq<Json>,
    FlowErrorView,
>
    decreases records.len(),
{
    if records.len() == 0 || limit == Some(0nat) {
        Ok(Seq::empty())
    } else {
        match decoded_doc(records.first().value) {
            Err(e) => Err(e),
            Ok(doc) => match field_at(doc, key_path) {
                None => keys_in(records.drop_first(), key_path, limit),
                Some(key) => match keys_in(records.drop_first(), key_path, one_less(limit)) {
                    Err(e) => Err(e),
                    Ok(rest) => Ok(seq![key] + rest),
                },
            },
        }
    }
}

/// The documents that index entries lead to. An entry whose document is gone
/// is passed over.
pub open spec fn docs_of_entries(
    v: EngineView,
    records: Seq<RecordView>,
    store: Seq<u8>,
) -> core::result::Result<Seq<Json>, FlowErrorView>
    decreases records.len(),
{
    if records.len() == 0 {
        Ok(Seq::empty())
    } else {
        match v.point(doc_key_of(store, records.first().value), 0) {
            None => docs_of_entries(v, records.drop_first(), store),
            Some(rec) => match decoded_doc(rec.value) {
                Err(e) => Err(e),
                Ok(doc) => match docs_of_entries(v, records.drop_first(), store) {
                    Err(e) => Err(e),
                    Ok(rest) => Ok(seq![doc] + rest),
                },
            },
        }
    }
}

/// `r` is the list that `spec` says.
pub open spec fn gives_list(
    spec: core::result::Result<Seq<Json>, FlowErrorView>,
    r: Result<Vec<JsonValue>>,
) -> bool {
    match r {
        Ok(v) => spec is Ok && json_seq(v@) == spec->Ok_0,
        Err(e) => spec is Err && e@ == spec->Err_0,
    }
}

/// Where several results are put together: a prefix, and the rest of a list or
/// a complaint.
pub open spec fn followed_by(
    head: Seq<Json>,
    tail: core::result::Result<Seq<Json>, FlowErrorView>,
) -> core::result::Result<Seq<Json>, FlowErrorView> {
    match tail {
        Ok(t) => Ok(head + t),
        Err(e) => Err(e),
    }
}

pub open spec fn as_limit(count: Option<usize>) -> Option<nat> {
    match count {
        Some(n) => Some(n as nat),
        None => None,
    }
}

/// Decodes the documents of the records, up to a limit.
pub fn decode_docs(records: &Vec<Record>, count: Option<usize>) -> (r: Result<Vec<JsonValue>>)
    ensures
        gives_list(docs_in(records_of(records@), as_limit(count)), r),
{
    let ghost all = records_of(records@);
    let mut out: Vec<JsonValue> = Vec::new();
    let mut left = count;
    let mut i: usize = 0;
    let ghost whole = docs_in(all, as_limit(count));
    proof {
        assert(all.subrange(0, all.len() as int) =~= all);
        assert(json_seq(out@) =~= Seq::<Json>::empty());
        if whole is Ok {
            assert(Seq::<Json>::empty() + whole->Ok_0 =~= whole->Ok_0);
        }
    }
    while i < records.len()
        invariant
            i <= records.len(),
            all == records_of(records@),
            whole == docs_in(all, as_limit(count)),
            whole == followed_by(
                json_seq(out@),
                docs_in(all.subrange(i as int, all.len() as int), as_limit(left)),
            ),
        decreases records.len() - i,
    {
        let ghost rest = all.subrange(i as int, all.len() as int);
        let ghost before = json_seq(out@);
        proof {
            assert(rest.first() == records@[i as int]@);
            assert(rest.drop_first() =~= all.subrange(i + 1, all.len() as int));
        }
        if let Some(n) = left {
            if n == 0 {
                assert(before + Seq::<Json>::empty() =~= before);
                return Ok(out);
            }
            left = Some(n - 1);
        }
        match decode_doc(&records[i].value) {
            Ok(doc) => {
                let ghost d = doc@;
                out.push(doc);
                proof {
                    assert(json_seq(out@) =~= before.push(d));
                    let tail = docs_in(rest.drop_first(), as_limit(left));
                    if tail is Ok {
                        assert(before + (seq![d] + tail->Ok_0) =~= before.push(d) + tail->Ok_0);
                    }
                }
            },
            Err(e) => {
                return Err(e);
            },
        }
        i = i + 1;
    }
    assert(json_seq(out@) + Seq::<Json>::empty() =~= json_seq(out@));
    Ok(out)
}

/// Decodes the documents that index entries lead to.
pub fn decode_entries(engine: &Engine, records: &Vec<Record>, store: &str) -> (r: Result<
    Vec<JsonValue>,
>)
    requires
        engine.well_formed(),
    ensures
        gives_list(docs_of_entries(engine@, records_of(records@), encode_utf8(store@)), r),
{
    let ghost all = records_of(records@);
    let ghost sb = encode_utf8(store@);
    let mut out: Vec<JsonValue> = Vec::new();
    let mut i: usize = 0;
    let ghost whole = docs_of_entries(engine@, all, sb);
    proof {
        assert(all.subrange(0, all.len() as int) =~= all);
        assert(json_seq(out@) =~= Seq::<Json>::empty());
        if whole is Ok {
            assert(Seq::<Json>::empty() + whole->Ok_0 =~= whole->Ok_0);
        }
    }
    while i < records.len()
        invariant
            i <= records.len(),
            engine.well_formed(),
            all == records_of(records@),
            sb == encode_utf8(store@),
            whole == docs_of_entries(engine@, all, sb),
            whole == followed_by(
                json_seq(out@),
                docs_of_entries(engine@, all.subrange(i as int, all.len() as int), sb),
            ),
        decreases records.len() - i,
    {
        let ghost rest = all.subrange(i as int, all.len() as int);
        let ghost before = json_seq(out@);
        proof {
            assert(rest.first() == records@[i as int]@);
            assert(rest.drop_first() =~= all.subrange(i + 1, all.len() as int));
        }
        if let Some(rec) = engine.get_bytes(&doc_key(store, &records[i].value), 0) {
            match decode_doc(&rec.value) {
                Ok(doc) => {
                    let ghost d = doc@;
                    out.push(doc);
                    proof {
                        assert(json_seq(out@) =~= before.push(d));
                        let tail = docs_of_entries(engine@, rest.drop_first(), sb);
                        if tail is Ok {
                            assert(before + (seq![d] + tail->Ok_0) =~= before.push(d)
                                + tail->Ok_0);
                        }
                    }
                },
                Err(e) => {
                    return Err(e);
                },
            }
        }
        i = i + 1;
    }
    assert(json_seq(out@) + Seq::<Json>::empty() =~= json_seq(out@));
    Ok(out)
}

fn missing_store(store: &str) -> (r: FlowError)
    ensures
        r@ == no_store(store@),
{
    FlowError::JsonDb(text3("store '", store, "' not found"))
}

impl JsonDB {
    /// The definition of a store, or the complaint that there is none.
    pub fn require_store(&self, store: &str) -> (r: Result<StoreDef>)
        ensures
            match r {
                Ok(d) => self@.store(store@) == Some(d@),
                Err(e) => self@.store(store@) is None && e@ == no_store(store@),
            },
    {
        match self.get_store(store) {
            Some(d) => Ok(d),
            None => Err(missing_store(store)),
        }
    }

    /// Puts a document under a key.
    fn put_under(
        &mut self,
        def: &StoreDef,
        store: &str,
        key: JsonValue,
        pk: &[u8],
        doc: &JsonValue,
        last: Option<InternalRecord>,
    ) -> (r: Result<JsonValue>)
        requires
            old(self).well_formed(),
        ensures
            final(self).well_formed(),
            final(self).settings() == old(self).settings(),
            carried_out(
                match (old(self)@.put_at(def@, store@, key@, pk@, doc@), last) {
                    (Ok((k, es)), Some(rec)) => Ok((k, es.push(rec@))),
                    (p, _) => p,
                },
                old(self)@,
                final(self)@,
                r,
            ),
    {
        let doc_bytes = match encode_doc(doc) {
            Ok(b) => b,
            Err(e) => {
                return Err(e);
            },
        };
        match build_put_batch(def, store, pk, &doc_bytes, doc, self.engine()) {
            Ok(batch) => {
                let mut batch = batch;
                let ghost es = entries(batch@);
                if let Some(rec) = last {
                    let ghost e = rec@;
                    batch.push(rec);
                    assert(entries(batch@) =~= es.push(e));
                }
                match self.write_records(batch) {
                    Ok(_) => Ok(key),
                    Err(e) => Err(e),
                }
            },
            Err(e) => Err(e),
        }
    }

    /// Inserts or updates a document.
    ///
    /// The document **must** contain the store's `key_path` field.
    /// Returns the extracted primary key value.
    pub fn put(&mut self, store: &str, doc: JsonValue) -> (r: Result<JsonValue>)
        requires
            old(self).well_formed(),
        ensures
            final(self).well_formed(),
            final(self).settings() == old(self).settings(),
            carried_out(old(self)@.put_plan(store@, doc@), old(self)@, final(self)@, r),
    {
        let def = match self.require_store(store) {
            Ok(d) => d,
            Err(e) => {
                return Err(e);
            },
        };
        match extract_field(&doc, def.key_path.as_str()) {
            None => Err(missing_key(&def, store)),
            Some(key) => match encode_primary_key(&key) {
                Err(e) => Err(e),
                Ok(pk) => self.put_under(&def, store, key, &pk, &doc, None),
            },
        }
    }

    /// Inserts a document only if the key does not already exist.
    ///
    /// Returns an error if a document with the same primary key already exists
    /// (IndexedDB `add()` semantics).
    pub fn add(&mut self, store: &str, doc: JsonValue) -> (r: Result<JsonValue>)
        requires
            old(self).well_formed(),
        ensures
            final(self).well_formed(),
            final(self).settings() == old(self).settings(),
            carried_out(old(self)@.add_plan(store@, doc@), old(self)@, final(self)@, r),
    {
        let def = match self.require_store(store) {
            Ok(d) => d,
            Err(e) => {
                return Err(e);
            },
        };
        match extract_field(&doc, def.key_path.as_str()) {
            None => Err(missing_key(&def, store)),
            Some(key) => match encode_primary_key(&key) {
                Err(e) => Err(e),
                Ok(pk) => {
                    if self.engine().get_bytes(&doc_key(store, &pk), 0).is_some() {
                        return Err(
                            FlowError::JsonDb(
                                text5(
                                    "a record with key '",
                                    &debug_text(&key),
                                    "' already exists in store '",
                                    store,
                                    "'",
                                ),
                            ),
                        );
                    }
                    self.put_under(&def, store, key, &pk, &doc, None)
                },
            },
        }
    }

    /// Inserts a document with auto-generated key (for auto-increment stores).
    ///
    /// Returns the assigned key value.
    pub fn put_auto(&mut self, store: &str, doc: JsonValue) -> (r: Result<JsonValue>)
        requires
            old(self).well_formed(),
        ensures
            final(self).well_formed(),
            final(self).settings() == old(self).settings(),
            carried_out(old(self)@.auto_plan(store@, doc@), old(self)@, final(self)@, r),
    {
        let def = match self.require_store(store) {
            Ok(d) => d,
            Err(e) => {
                return Err(e);
            },
        };
        if !def.auto_increment {
            return Err(FlowError::JsonDb(text3("store '", store, "' is not auto-increment")));
        }
        match prepare_counter(self.engine(), store) {
            Err(e) => Err(e),
            Ok((id, counter)) => {
                let key = JsonValue::Number(JsonNumber::PosInt(id));
                let pk = str_bytes(decimal_text(id).as_str());
                let doc = inject_id(doc, def.key_path.as_str(), id);
                self.put_under(&def, store, key, &pk, &doc, Some(counter))
            },
        }
    }

    /// Deletes a document by primary key (and all associated index entries).
    pub fn delete(&mut self, store: &str, key: &JsonValue) -> (r: Result<()>)
        requires
            old(self).well_formed(),
        ensures
            final(self).well_formed(),
            final(self).settings() == old(self).settings(),
            comes_to(
                old(self)@.delete_doc(store@, key@),
                final(self)@,
                r,
            ),
    {
        let def = match self.require_store(store) {
            Ok(d) => d,
            Err(e) => {
                return Err(e);
            },
        };
        match encode_primary_key(key) {
            Err(e) => Err(e),
            Ok(pk) => {
                let batch = build_delete_batch(&def, store, &pk, self.engine());
                self.write_records(batch)
            },
        }
    }

    /// Reads a stored document, as of the write numbered `max_seq`.
    fn read_doc(&self, store: &str, key: &JsonValue, max_seq: u64) -> (r: Result<
        Option<(JsonValue, Record)>,
    >)
        requires
            self.well_formed(),
        ensures
            match r {
                Ok(Some((doc, rec))) => self@.read(store@, key@, max_seq) == Ok::<
                    Option<(Json, RecordView)>,
                    FlowErrorView,
                >(Some((doc@, rec@))),
                Ok(None) => self@.read(store@, key@, max_seq) == Ok::<
                    Option<(Json, RecordView)>,
                    FlowErrorView,
                >(None),
                Err(e) => self@.read(store@, key@, max_seq) == Err::<
                    Option<(Json, RecordView)>,
                    FlowErrorView,
                >(e@),
            },
    {
        match self.require_store(store) {
            Ok(_) => {},
            Err(e) => {
                return Err(e);
            },
        }
        match encode_primary_key(key) {
            Err(e) => Err(e),
            Ok(pk) => match self.engine().get_bytes_seq(&doc_key(store, &pk), 0, max_seq) {
                None => Ok(None),
                Some(rec) => match decode_doc(&rec.value) {
                    Ok(doc) => Ok(Some((doc, rec))),
                    Err(e) => Err(e),
                },
            },
        }
    }

    /// Retrieves a document by primary key.
    pub fn get(&self, store: &str, key: &JsonValue) -> (r: Result<Option<JsonValue>>)
        requires
            self.well_formed(),
        ensures
            reads(self@.read(store@, key@, u64::MAX), r),
    {
        match self.read_doc(store, key, u64::MAX) {
            Ok(Some((doc, _))) => Ok(Some(doc)),
            Ok(None) => Ok(None),
            Err(e) => Err(e),
        }
    }

    /// MVCC point read: like `get` but of the records in memory only sees those
    /// with `seq <= max_seq`. What has been flushed is seen by every snapshot.
    /// Used for transaction reads.
    pub fn get_snapshot(&self, store: &str, key: &JsonValue, max_seq: u64) -> (r: Result<
        Option<JsonValue>,
    >)
        requires
            self.well_formed(),
        ensures
            reads(self@.read(store@, key@, max_seq), r),
    {
        match self.read_doc(store, key, max_seq) {
            Ok(Some((doc, _))) => Ok(Some(doc)),
            Ok(None) => Ok(None),
            Err(e) => Err(e),
        }
    }

    /// Retrieves a document by primary key, including its internal timestamp
    /// (`ts`) and expiry (`expire_at`) in microseconds since epoch.
    ///
    /// Returns `None` if the document does not exist.
    pub fn get_with_meta(&self, store: &str, key: &JsonValue) -> (r: Result<
        Option<(JsonValue, i64, i64)>,
    >)
        requires
            self.well_formed(),
        ensures
            match r {
                Ok(Some((doc, ts, expire_at))) => self@.read(store@, key@, u64::MAX) is Ok
                    && self@.read(store@, key@, u64::MAX)->Ok_0 is Some && {
                    let (d, rec) = self@.read(store@, key@, u64::MAX)->Ok_0->0;
                    doc@ == d && ts == rec.ts && expire_at == rec.expire_at
                },
                Ok(None) => self@.read(store@, key@, u64::MAX) == Ok::<
                    Option<(Json, RecordView)>,
                    FlowErrorView,
                >(None),
                Err(e) => self@.read(store@, key@, u64::MAX) == Err::<
                    Option<(Json, RecordView)>,
                    FlowErrorView,
                >(e@),
            },
    {
        match self.read_doc(store, key, u64::MAX) {
            Ok(Some((doc, rec))) => Ok(Some((doc, rec.ts, rec.expire_at))),
            Ok(None) => Ok(None),
            Err(e) => Err(e),
        }
    }

    /// Checks whether a key exists and returns the key value (IndexedDB `getKey`).
    /// Returns `None` if no document with the given key exists.
    pub fn get_key(&self, store: &str, key: &JsonValue) -> (r: Result<Option<JsonValue>>)
        requires
            self.well_formed(),
        ensures
            match self@.store(store@) {
                None => r is Err && r->Err_0@ == no_store(store@),
                Some(_) => match primary_key(key@) {
                    Err(e) => r is Err && r->Err_0@ == e,
                    Ok(pk) => if self@.engine.point(
                        doc_key_of(encode_utf8(store@), pk),
                        0,
                    ) is Some {
                        r is Ok && r->Ok_0 is Some && (r->Ok_0->0)@ == key@
                    } else {
                        r is Ok && r->Ok_0 is None
                    },
                },
            },
    {
        match self.require_store(store) {
            Ok(_) => {},
            Err(e) => {
                return Err(e);
            },
        }
        match encode_primary_key(key) {
            Err(e) => Err(e),
            Ok(pk) => if self.engine().get_bytes(&doc_key(store, &pk), 0).is_some() {
                Ok(Some(key.copy()))
            } else {
                Ok(None)
            },
        }
    }
}

/// `r` is what a read gives.
pub open spec fn reads(
    spec: core::result::Result<Option<(Json, RecordView)>, FlowErrorView>,
    r: Result<Option<JsonValue>>,
) -> bool {
    match r {
        Ok(Some(doc)) => spec is Ok && spec->Ok_0 is Some && doc@ == (spec->Ok_0->0).0,
        Ok(None) => spec is Ok && spec->Ok_0 is None,
        Err(e) => spec is Err && e@ == spec->Err_0,
    }
}

impl DbView {
    /// What deleting a document comes to.
    pub open spec fn delete_doc(self, store: Seq<char>, key: Json) -> (
        DbView,
        Option<FlowErrorView>,
    ) {
        match self.store(store) {
            None => (self, Some(no_store(store))),
            Some(def) => match primary_key(key) {
                Err(e) => (self, Some(e)),
                Ok(pk) => self.committed(
                    delete_batch(self.engine, def, encode_utf8(store), pk),
                    self.schema,
                ),
            },
        }
    }
}

pub fn missing_key(def: &StoreDef, store: &str) -> (r: FlowError)
    ensures
        r@ == no_key(def@.key_path, store@),
{
    FlowError::JsonDb(
        text5(
            "document missing key_path '",
            def.key_path.as_str(),
            "' for store '",
            store,
            "'",
        ),
    )
}

impl DbView {
    /// What the removal of all documents of a store comes to, and how many go.
    pub open spec fn clear(self, store: Seq<char>) -> (
        DbView,
        core::result::Result<nat, FlowErrorView>,
    ) {
        match self.store(store) {
            None => (self, Err(no_store(store))),
            Some(def) => {
                let sb = encode_utf8(store);
                match self.committed(content_deletions(self.engine, def, sb), self.schema) {
                    (v, Some(e)) => (v, Err(e)),
                    (v, None) => (v, Ok(records_under(self.engine, doc_prefix_of(sb)).len())),
                }
            },
        }
    }

    /// What a listing of a store's documents gives.
    pub open spec fn listed(
        self,
        store: Seq<char>,
        range: Option<KeyRangeView>,
        limit: Option<nat>,
    ) -> core::result::Result<Seq<Json>, FlowErrorView> {
        match self.doc_range(store, range) {
            Err(e) => Err(e),
            Ok(s) => docs_in(self.records(s), limit),
        }
    }

    /// What a listing of a store's keys gives.
    pub open spec fn listed_keys(
        self,
        store: Seq<char>,
        range: Option<KeyRangeView>,
        limit: Option<nat>,
    ) -> core::result::Result<Seq<Json>, FlowErrorView> {
        match self.doc_range(store, range) {
            Err(e) => Err(e),
            Ok(s) => keys_in(
                self.records(s),
                encode_utf8(self.store(store)->0.key_path),
                limit,
            ),
        }
    }

    /// The documents that an index holds for exactly a value.
    pub open spec fn indexed(self, store: Seq<char>, index: Seq<char>, value: Json) -> core::result::Result<
        Seq<Json>,
        FlowErrorView,
    > {
        match self.index(store, index) {
            Err(e) => Err(e),
            Ok(d) => {
                let sb = encode_utf8(store);
                docs_of_entries(
                    self.engine,
                    records_under(
                        self.engine,
                        idx_value_prefix_of(sb, encode_utf8(index), looked_up(d, value)),
                    ),
                    sb,
                )
            },
        }
    }

    /// The documents that an index holds for the values from `start` to before
    /// `end`.
    pub open spec fn indexed_range(
        self,
        store: Seq<char>,
        index: Seq<char>,
        start: Json,
        end: Json,
    ) -> core::result::Result<Seq<Json>, FlowErrorView> {
        match self.index(store, index) {
            Err(e) => Err(e),
            Ok(d) => {
                let sb = encode_utf8(store);
                docs_of_entries(
                    self.engine,
                    self.records(
                        entry_range(
                            sb,
                            encode_utf8(index),
                            looked_up(d, start),
                            looked_up(d, end),
                        ),
                    ),
                    sb,
                )
            },
        }
    }
}

/// The encoding under which a value is looked up in an index: in one over
/// several fields an array stands for all of them, anything else for the first.
pub open spec fn looked_up(d: IndexDefView, value: Json) -> Seq<u8> {
    match value {
        Json::Array(vs) => if d.key_paths.len() > 1 {
            composite_value(vs)
        } else {
            index_value(value)
        },
        _ => index_value(value),
    }
}

/// The scan of the entries of an index with encodings from `start` to before
/// `end`.
pub open spec fn entry_range(store: Seq<u8>, index: Seq<u8>, start: Seq<u8>, end: Seq<u8>) -> ScanRangeView {
    ScanRangeView {
        key_start: Bound::Included(idx_prefix_of(store, index) + start),
        key_end: Bound::Excluded(idx_prefix_of(store, index) + end),
        ts_start: Bound::Unbounded,
        ts_end: Bound::Unbounded,
    }
}

/// The encoding under which a value is looked up in an index.
pub fn encode_lookup(d: &IndexDef, value: &JsonValue) -> (r: Vec<u8>)
    ensures
        r@ == looked_up(d@, value@),
{
    if d.key_paths.len() > 1 {
        if let JsonValue::Array(vs) = value {
            proof {
                lemma_array_view(*vs);
            }
            return encode_composite_value(vs);
        }
    }
    encode_index_value(value)
}

/// The scan of a stretch of an index.
pub fn index_stretch(store: &str, index: &str, start: &[u8], end: &[u8]) -> (r: ScanRange)
    ensures
        r@ == entry_range(encode_utf8(store@), encode_utf8(index@), start@, end@),
{
    let mut from = idx_prefix(store, index);
    push_bytes(&mut from, start);
    let mut to = idx_prefix(store, index);
    push_bytes(&mut to, end);
    ScanRange {
        key_start: Bound::Included(from),
        key_end: Bound::Excluded(to),
        ts_start: Bound::Unbounded,
        ts_end: Bound::Unbounded,
    }
}

/// A key range as it is meant, where there is one.
pub open spec fn range_view(r: Option<&KeyRange>) -> Option<KeyRangeView> {
    match r {
        Some(k) => Some(k@),
        None => None,
    }
}

/// Documents that can all be decoded are as many as their records.
pub proof fn lemma_docs_in_len(records: Seq<RecordView>)
    requires
        docs_in(records, None) is Ok,
    ensures
        docs_in(records, None)->Ok_0.len() == records.len(),
    decreases records.len(),
{
    if records.len() > 0 {
        lemma_docs_in_len(records.drop_first());
    }
}

/// Collects the keys of the documents of the records, up to a limit.
pub fn decode_keys(records: &Vec<Record>, key_path: &str, count: Option<usize>) -> (r: Result<
    Vec<JsonValue>,
>)
    ensures
        gives_list(
            keys_in(records_of(records@), encode_utf8(key_path@), as_limit(count)),
            r,
        ),
{
    let ghost all = records_of(records@);
    let ghost kp = encode_utf8(key_path@);
    let mut out: Vec<JsonValue> = Vec::new();
    let mut left = count;
    let mut i: usize = 0;
    let ghost whole = keys_in(all, kp, as_limit(count));
    proof {
        assert(all.subrange(0, all.len() as int) =~= all);
        assert(json_seq(out@) =~= Seq::<Json>::empty());
        if whole is Ok {
            assert(Seq::<Json>::empty() + whole->Ok_0 =~= whole->Ok_0);
        }
    }
    while i < records.len()
        invariant
            i <= records.len(),
            all == records_of(records@),
            kp == encode_utf8(key_path@),
            whole == keys_in(all, kp, as_limit(count)),
            whole == followed_by(
                json_seq(out@),
                keys_in(all.subrange(i as int, all.len() as int), kp, as_limit(left)),
            ),
        decreases records.len() - i,
    {
        let ghost rest = all.subrange(i as int, all.len() as int);
        let ghost before = json_seq(out@);
        proof {
            assert(rest.first() == records@[i as int]@);
            assert(rest.drop_first() =~= all.subrange(i + 1, all.len() as int));
        }
        if let Some(n) = left {
            if n == 0 {
                assert(before + Seq::<Json>::empty() =~= before);
                return Ok(out);
            }
        }
        match decode_doc(&records[i].value) {
            Ok(doc) => {
                if let Some(key) = extract_field(&doc, key_path) {
                    if let Some(n) = left {
                        left = Some(n - 1);
                    }
                    let ghost k = key@;
                    out.push(key);
                    proof {
                        assert(json_seq(out@) =~= before.push(k));
                        let tail = keys_in(rest.drop_first(), kp, as_limit(left));
                        if tail is Ok {
                            assert(before + (seq![k] + tail->Ok_0) =~= before.push(k)
                                + tail->Ok_0);
                        }
                    }
                }
            },
            Err(e) => {
                return Err(e);
            },
        }
        i = i + 1;
    }
    assert(json_seq(out@) + Seq::<Json>::empty() =~= json_seq(out@));
    Ok(out)
}

impl JsonDB {
    /// The scan of a store's documents, all or those in a range.
    pub fn doc_scan_range(&self, store: &str, query: Option<&KeyRange>) -> (r: Result<ScanRange>)
        ensures
            match r {
                Ok(s) => self@.doc_range(store@, range_view(query)) is Ok && s@ == self@.doc_range(
                    store@,
                    range_view(query),
                )->Ok_0,
                Err(e) => self@.doc_range(store@, range_view(query)) is Err && e@
                    == self@.doc_range(store@, range_view(query))->Err_0,
            },
    {
        match self.require_store(store) {
            Ok(_) => {},
            Err(e) => {
                return Err(e);
            },
        }
        match query {
            Some(kr) => kr.to_doc_scan_range(store),
            None => Ok(prefix_range(&doc_prefix(store))),
        }
    }

    /// An index of a store, or the complaint that there is none.
    pub fn require_index(&self, store: &str, index: &str) -> (r: Result<IndexDef>)
        ensures
            match r {
                Ok(d) => self@.index(store@, index@) is Ok && d@ == self@.index(
                    store@,
                    index@,
                )->Ok_0,
                Err(e) => self@.index(store@, index@) is Err && e@ == self@.index(
                    store@,
                    index@,
                )->Err_0,
            },
    {
        let def = match self.require_store(store) {
            Ok(d) => d,
            Err(e) => {
                return Err(e);
            },
        };
        let pos: usize = def.find_index(index);
        if pos >= def.indexes.len() {
            return Err(
                FlowError::JsonDb(text5("index '", index, "' not found on '", store, "'")),
            );
        }
        Ok(def.indexes[pos].copy())
    }

    /// Counts documents in a store.
    pub fn count(&self, store: &str) -> (r: Result<usize>)
        requires
            self.well_formed(),
        ensures
            match self@.doc_range(store@, None) {
                Ok(s) => r is Ok && r->Ok_0 == self@.records(s).len(),
                Err(e) => r is Err && r->Err_0@ == e,
            },
    {
        self.count_with_query(store, None)
    }

    /// Counts documents, optionally filtered by a [`KeyRange`]
    /// (IndexedDB `store.count(query)`).
    pub fn count_with_query(&self, store: &str, query: Option<&KeyRange>) -> (r: Result<usize>)
        requires
            self.well_formed(),
        ensures
            match self@.doc_range(store@, range_view(query)) {
                Ok(s) => r is Ok && r->Ok_0 == self@.records(s).len(),
                Err(e) => r is Err && r->Err_0@ == e,
            },
    {
        match self.doc_scan_range(store, query) {
            Ok(range) => Ok(self.engine().scan_all(range).len()),
            Err(e) => Err(e),
        }
    }

    /// Retrieves all documents in a store.
    pub fn scan(&self, store: &str) -> (r: Result<Vec<JsonValue>>)
        requires
            self.well_formed(),
        ensures
            gives_list(self@.listed(store@, None, None), r),
    {
        self.get_all(store, None, None)
    }

    /// Retrieves all documents in a store, including internal timestamps
    /// (`ts`, `expire_at`) for each document.
    ///
    /// Returns a vector of `(document, ts, expire_at)` tuples.
    pub fn scan_with_meta(&self, store: &str) -> (r: Result<Vec<(JsonValue, i64, i64)>>)
        requires
            self.well_formed(),
        ensures
            match self@.listed(store@, None, None) {
                Err(e) => r is Err && r->Err_0@ == e,
                Ok(docs) => r is Ok && r->Ok_0@.len() == docs.len() && forall|i: int|
                    #![trigger docs[i]]
                    0 <= i < docs.len() ==> {
                        let rec = self@.records(self@.doc_range(store@, None)->Ok_0)[i];
                        let (doc, ts, expire_at) = r->Ok_0@[i];
                        doc@ == docs[i] && ts == rec.ts && expire_at == rec.expire_at
                    },
            },
    {
        let range = match self.doc_scan_range(store, None) {
            Ok(s) => s,
            Err(e) => {
                return Err(e);
            },
        };
        let records = self.engine().scan_all(range);
        let mut docs = match decode_docs(&records, None) {
            Ok(d) => d,
            Err(e) => {
                return Err(e);
            },
        };
        let ghost all = json_seq(docs@);
        let ghost recs = records_of(records@);
        let mut out: Vec<(JsonValue, i64, i64)> = Vec::new();
        let mut i: usize = 0;
        proof {
            lemma_docs_in_len(recs);
        }
        while i < records.len()
            invariant
                i <= records.len(),
                docs@.len() == records@.len(),
                all.len() == records@.len(),
                recs == records_of(records@),
                json_seq(docs@) == all,
                out@.len() == i,
                forall|j: int|
                    #![trigger all[j]]
                    0 <= j < i ==> out@[j].0@ == all[j] && out@[j].1 == recs[j].ts && out@[j].2
                        == recs[j].expire_at,
            decreases records.len() - i,
        {
            assert(all[i as int] == docs@[i as int]@);
            assert(recs[i as int] == records@[i as int]@);
            let ghost before = out@;
            out.push((docs[i].copy(), records[i].ts, records[i].expire_at));
            assert(out@[i as int].0@ == all[i as int]);
            assert forall|j: int| #![trigger all[j]] 0 <= j < i + 1 implies out@[j].0@ == all[j]
                && out@[j].1 == recs[j].ts && out@[j].2 == recs[j].expire_at by {
                if j < i {
                    assert(out@[j] == before[j]);
                }
            }
            i = i + 1;
        }
        Ok(out)
    }

    /// Retrieves documents in primary-key order, optionally filtered by a
    /// [`KeyRange`] and limited to `count` results (IndexedDB `getAll`).
    pub fn get_all(&self, store: &str, query: Option<&KeyRange>, count: Option<usize>) -> (r:
        Result<Vec<JsonValue>>)
        requires
            self.well_formed(),
        ensures
            gives_list(self@.listed(store@, range_view(query), as_limit(count)), r),
    {
        match self.doc_scan_range(store, query) {
            Ok(range) => decode_docs(&self.engine().scan_all(range), count),
            Err(e) => Err(e),
        }
    }

    /// Retrieves only the primary keys of documents, optionally filtered by a
    /// [`KeyRange`] and limited to `count` results (IndexedDB `getAllKeys`).
    pub fn get_all_keys(&self, store: &str, query: Option<&KeyRange>, count: Option<usize>) -> (r:
        Result<Vec<JsonValue>>)
        requires
            self.well_formed(),
        ensures
            gives_list(self@.listed_keys(store@, range_view(query), as_limit(count)), r),
    {
        let def = match self.require_store(store) {
            Ok(d) => d,
            Err(e) => {
                return Err(e);
            },
        };
        match self.doc_scan_range(store, query) {
            Ok(range) => decode_keys(
                &self.engine().scan_all(range),
                def.key_path.as_str(),
                count,
            ),
            Err(e) => Err(e),
        }
    }

    /// Removes all documents (and their index entries) from a store, preserving
    /// the store schema. Returns the number of documents removed.
    pub fn clear(&mut self, store: &str) -> (r: Result<usize>)
        requires
            old(self).well_formed(),
        ensures
            final(self).well_formed(),
            final(self).settings() == old(self).settings(),
            final(self)@ == old(self)@.clear(store@).0,
            match old(self)@.clear(store@).1 {
                Ok(n) => r is Ok && r->Ok_0 == n,
                Err(e) => r is Err && r->Err_0@ == e,
            },
    {
        let def = match self.require_store(store) {
            Ok(d) => d,
            Err(e) => {
                return Err(e);
            },
        };
        let (records, count) = self.build_content_deletions(&def, store);
        match self.write_records(records) {
            Ok(_) => Ok(count),
            Err(e) => Err(e),
        }
    }

    /// Looks up documents by an exact index value.
    ///
    /// An index over several fields takes an array for all of them, or a
    /// single value for the first.
    pub fn get_by_index(&self, store: &str, index: &str, value: &JsonValue) -> (r: Result<
        Vec<JsonValue>,
    >)
        requires
            self.well_formed(),
        ensures
            gives_list(self@.indexed(store@, index@, value@), r),
    {
        let idx = match self.require_index(store, index) {
            Ok(d) => d,
            Err(e) => {
                return Err(e);
            },
        };
        let encoded = encode_lookup(&idx, value);
        let prefix = idx_value_prefix(store, index, &encoded);
        let records = self.engine().scan_all(prefix_range(&prefix));
        decode_entries(self.engine(), &records, store)
    }

    /// Looks up documents by a range of index values `[start, end)`.
    ///
    /// The range is **exclusive** of `end`.
    pub fn range_by_index(&self, store: &str, index: &str, start: &JsonValue, end: &JsonValue) -> (r:
        Result<Vec<JsonValue>>)
        requires
            self.well_formed(),
        ensures
            gives_list(self@.indexed_range(store@, index@, start@, end@), r),
    {
        let idx = match self.require_index(store, index) {
            Ok(d) => d,
            Err(e) => {
                return Err(e);
            },
        };
        let enc_start = encode_lookup(&idx, start);
        let enc_end = encode_lookup(&idx, end);
        let range = index_stretch(store, index, &enc_start, &enc_end);
        let records = self.engine().scan_all(range);
        decode_entries(self.engine(), &records, store)
    }

    /// Deletes a document by primary key, accepting any [`KeyArg`] type.
    pub fn delete_doc<K: KeyArg>(&mut self, store: &str, key: K) -> (r: Result<()>)
        requires
            old(self).well_formed(),
        ensures
            final(self).well_formed(),
            final(self).settings() == old(self).settings(),
            comes_to(old(self)@.delete_doc(store@, key.key()), final(self)@, r),
    {
        let key = key.into_value();
        self.delete(store, &key)
    }
}

/// Types that can be used as a primary key argument.
pub trait KeyArg: Sized {
    /// The key that is meant.
    spec fn key(self) -> Json;

    /// Converts `self` into a value suitable for use as a document key.
    fn into_value(self) -> (r: JsonValue)
        ensures
            r@ == self.key(),
    ;
}

/// An integer as a JSON number.
pub open spec fn integer_json(n: int) -> Json {
    if n >= 0 {
        Json::Number(NumberView::PosInt(n as u64))
    } else {
        Json::Number(NumberView::NegInt(n as i64))
    }
}

pub fn json_of_i64(n: i64) -> (r: JsonValue)
    ensures
        r@ == integer_json(n as int),
{
    if n >= 0 {
        JsonValue::Number(JsonNumber::PosInt(n as u64))
    } else {
        JsonValue::Number(JsonNumber::NegInt(n))
    }
}

impl<'a> KeyArg for &'a str {
    open spec fn key(self) -> Json {
        Json::Text(encode_utf8(self@))
    }

    fn into_value(self) -> (r: JsonValue) {
        JsonValue::String(string_of(self))
    }
}

impl KeyArg for String {
    open spec fn key(self) -> Json {
        Json::Text(encode_utf8(self@))
    }

    fn into_value(self) -> (r: JsonValue) {
        JsonValue::String(self)
    }
}

impl KeyArg for i64 {
    open spec fn key(self) -> Json {
        integer_json(self as int)
    }

    fn into_value(self) -> (r: JsonValue) {
        json_of_i64(self)
    }
}

impl KeyArg for i32 {
    open spec fn key(self) -> Json {
        integer_json(self as int)
    }

    fn into_value(self) -> (r: JsonValue) {
        json_of_i64(self as i64)
    }
}

impl KeyArg for u64 {
    open spec fn key(self) -> Json {
        integer_json(self as int)
    }

    fn into_value(self) -> (r: JsonValue) {
        JsonValue::Number(JsonNumber::PosInt(self))
    }
}

impl KeyArg for u32 {
    open spec fn key(self) -> Json {
        integer_json(self as int)
    }

    fn into_value(self) -> (r: JsonValue) {
        JsonValue::Number(JsonNumber::PosInt(self as u64))
    }
}

impl KeyArg for JsonValue {
    open spec fn key(self) -> Json {
        self@
    }

    fn into_value(self) -> (r: JsonValue) {
        self
    }
}

impl<'a> KeyArg for &'a JsonValue {
    open spec fn key(self) -> Json {
        self@
    }

    fn into_value(self) -> (r: JsonValue) {
        self.copy()
    }
}

} // verus!
