//! The document database: stores, indexes and documents on one engine.

use vstd::prelude::*;
use vstd::utf8::encode_utf8;

use crate::bytes::copy_bytes;
use crate::engine::{flush_fails, flushes_to, no_more_seqs, sequenced, Engine, EngineView};
use crate::error::{string_of, text3, text5, FlowError, FlowErrorView, Result};
use crate::jsondb::encoding::{
    counter_key, counter_key_of, doc_prefix, doc_prefix_of, encode_primary_key, idx_prefix,
    idx_prefix_of, is_name, name_error, prefix_range, primary_key, schema_key_of, schema_prefix,
    schema_prefix_of,
};
use crate::jsondb::helpers::{
    entered_under, entry_puts, extract_index_values, push_entry_puts, records_under,
};
use crate::jsondb::schema::{
    index_named, index_position, load_schemas, loaded, own_texts, paths_ok, schema_delete_record,
    schema_put, schema_record, store_defs, store_named, stores_with, stores_without, texts,
    texts_eq, validate_index_def, validate_store_def, IndexDef, IndexDefView, Schema, StoreDef,
    StoreDefView,
};
use crate::jsondb::value::{decode_doc, decoded_doc, extract_field, field_at, Json, JsonValue};
use crate::read_laws::law_empty_engine_is_in_step;
use crate::record::{
    entries, records_of, Config, Entry, InternalRecord, Record, RecordView, ScanRangeView,
};

verus! {

/// The state of a database: that of its engine, the stores' definitions, and
/// the entries that wait for the log.
pub struct DbView {
    pub engine: EngineView,
    pub schema: Seq<StoreDefView>,
    pub log: Seq<Entry>,
}

pub open spec fn no_store(store: Seq<char>) -> FlowErrorView {
    FlowErrorView::JsonDb("store '"@ + store + "' not found"@)
}

pub open spec fn no_index(index: Seq<char>, store: Seq<char>) -> FlowErrorView {
    FlowErrorView::JsonDb("index '"@ + index + "' not found on '"@ + store + "'"@)
}

pub open spec fn no_key(key_path: Seq<char>, store: Seq<char>) -> FlowErrorView {
    FlowErrorView::JsonDb(
        "document missing key_path '"@ + key_path + "' for store '"@ + store + "'"@,
    )
}

impl DbView {
    /// The state of a database with nothing in it.
    pub open spec fn fresh() -> DbView {
        DbView { engine: EngineView::fresh(), schema: Seq::empty(), log: Seq::empty() }
    }

    /// The state once entries were written and the stores' definitions set,
    /// and the complaint where no numbers are left for the entries.
    pub open spec fn committed(self, es: Seq<Entry>, schema: Seq<StoreDefView>) -> (
        DbView,
        Option<FlowErrorView>,
    ) {
        if self.engine.next_seq + es.len() <= u64::MAX {
            let numbered = sequenced(es, self.engine.next_seq);
            (
                DbView {
                    engine: self.engine.written(numbered),
                    schema,
                    log: self.log + numbered,
                },
                None,
            )
        } else {
            (self, Some(no_more_seqs()))
        }
    }

    /// The definition of a store.
    pub open spec fn store(self, name: Seq<char>) -> Option<StoreDefView> {
        store_named(self.schema, name)
    }

    /// What the creation of a store comes to.
    pub open spec fn create_store(self, name: Seq<char>, key_path: Seq<char>) -> (
        DbView,
        Option<FlowErrorView>,
    ) {
        if !is_name(encode_utf8(name)) {
            (self, Some(name_error(name)))
        } else if encode_utf8(key_path).len() == 0 {
            (self, Some(FlowErrorView::JsonDb("key_path cannot be empty"@)))
        } else {
            match self.store(name) {
                Some(d) => if d.key_path != key_path {
                    (
                        self,
                        Some(
                            FlowErrorView::JsonDb(
                                "store '"@ + name
                                    + "' already exists with a different key_path"@,
                            ),
                        ),
                    )
                } else {
                    (self, None)
                },
                None => self.put_schema(
                    StoreDefView {
                        name,
                        key_path,
                        auto_increment: false,
                        indexes: Seq::empty(),
                        next_auto_id: 0,
                    },
                    Seq::empty(),
                ),
            }
        }
    }

    /// What storing a definition, followed by other entries, comes to.
    pub open spec fn put_schema(self, def: StoreDefView, more: Seq<Entry>) -> (
        DbView,
        Option<FlowErrorView>,
    ) {
        match schema_put(def) {
            Err(e) => (self, Some(e)),
            Ok(rec) => self.committed(
                seq![Entry::put(rec, 0)] + more,
                stores_with(self.schema, def),
            ),
        }
    }
}

/// The entries of an index for the documents of the first `n` records.
pub open spec fn backfill(
    records: Seq<RecordView>,
    n: nat,
    index: IndexDefView,
    store: Seq<u8>,
    key_path: Seq<u8>,
) -> core::result::Result<Seq<Entry>, FlowErrorView>
    decreases n,
{
    if n == 0 || n > records.len() {
        Ok(Seq::empty())
    } else {
        match backfill(records, (n - 1) as nat, index, store, key_path) {
            Err(e) => Err(e),
            Ok(s) => match backfill_one(records[n - 1], index, store, key_path) {
                Err(e) => Err(e),
                Ok(t) => Ok(s + t),
            },
        }
    }
}

/// The value of a document's key; null where it has none.
pub open spec fn key_or_null(doc: Json, key_path: Seq<u8>) -> Json {
    match field_at(doc, key_path) {
        Some(v) => v,
        None => Json::Null,
    }
}

/// The entries of an index for the document of a record.
pub open spec fn backfill_one(
    rec: RecordView,
    index: IndexDefView,
    store: Seq<u8>,
    key_path: Seq<u8>,
) -> core::result::Result<Seq<Entry>, FlowErrorView> {
    match decoded_doc(rec.value) {
        Err(e) => Err(e),
        Ok(doc) => {
            let lists = entered_under(doc, index);
            if lists.len() == 0 {
                Ok(Seq::empty())
            } else {
                match primary_key(key_or_null(doc, key_path)) {
                    Err(e) => Err(e),
                    Ok(pk) => Ok(entry_puts(store, encode_utf8(index.name), lists, pk)),
                }
            }
        },
    }
}

/// The deletions of the records of all keys with a prefix.
pub open spec fn deletions_under(v: EngineView, prefix: Seq<u8>) -> Seq<Entry> {
    records_under(v, prefix).map_values(|r: RecordView| Entry::deletion(r.key, r.ts, 0))
}

/// The deletions of all entries of the first `n` indexes of a store.
pub open spec fn index_deletions(
    v: EngineView,
    indexes: Seq<IndexDefView>,
    n: nat,
    store: Seq<u8>,
) -> Seq<Entry>
    decreases n,
{
    if n == 0 || n > indexes.len() {
        Seq::empty()
    } else {
        index_deletions(v, indexes, (n - 1) as nat, store) + deletions_under(
            v,
            idx_prefix_of(store, encode_utf8(indexes[n - 1].name)),
        )
    }
}

/// The deletions of all documents of a store and of their index entries.
pub open spec fn content_deletions(v: EngineView, def: StoreDefView, store: Seq<u8>) -> Seq<Entry> {
    index_deletions(v, def.indexes, def.indexes.len(), store) + deletions_under(
        v,
        doc_prefix_of(store),
    )
}

impl DbView {
    /// What the deletion of a store comes to: its documents, index entries,
    /// definition and counter go.
    pub open spec fn delete_store(self, name: Seq<char>) -> (DbView, Option<FlowErrorView>) {
        match self.store(name) {
            None => (self, Some(no_store(name))),
            Some(def) => {
                let store = encode_utf8(name);
                self.committed(
                    content_deletions(self.engine, def, store).push(
                        Entry::deletion(schema_key_of(store), 0, 0),
                    ).push(Entry::deletion(counter_key_of(store), 0, 0)),
                    stores_without(self.schema, name),
                )
            },
        }
    }

    /// What the creation of an index comes to: it is filled from the documents
    /// that are there.
    pub open spec fn create_idx(self, store: Seq<char>, index: IndexDefView) -> (
        DbView,
        Option<FlowErrorView>,
    ) {
        match self.store(store) {
            None => (self, Some(no_store(store))),
            Some(def) => if !is_name(encode_utf8(index.name)) {
                (self, Some(name_error(index.name)))
            } else if !paths_ok(index.key_paths) {
                (self, Some(FlowErrorView::JsonDb("index key_paths cannot be empty"@)))
            } else if index_named(def.indexes, index.name) is Some {
                (
                    self,
                    Some(
                        FlowErrorView::JsonDb(
                            "index '"@ + index.name + "' already exists in store '"@ + def.name
                                + "'"@,
                        ),
                    ),
                )
            } else {
                let sb = encode_utf8(store);
                let docs = records_under(self.engine, doc_prefix_of(sb));
                match backfill(docs, docs.len(), index, sb, encode_utf8(def.key_path)) {
                    Err(e) => match schema_put(with_index_def(def, index)) {
                        Err(e2) => (self, Some(e2)),
                        Ok(_) => (self, Some(e)),
                    },
                    Ok(more) => self.put_schema(with_index_def(def, index), more),
                }
            },
        }
    }

    /// What the deletion of an index comes to.
    pub open spec fn delete_idx(self, store: Seq<char>, name: Seq<char>) -> (
        DbView,
        Option<FlowErrorView>,
    ) {
        match self.store(store) {
            None => (self, Some(no_store(store))),
            Some(def) => {
                let i = index_position(def.indexes, name);
                if !(0 <= i < def.indexes.len()) {
                    (
                        self,
                        Some(
                            FlowErrorView::JsonDb(
                                "index '"@ + name + "' not found on store '"@ + store + "'"@,
                            ),
                        ),
                    )
                } else {
                    let less = StoreDefView { indexes: def.indexes.remove(i), ..def };
                    match schema_put(less) {
                        Err(e) => (self, Some(e)),
                        Ok(rec) => self.committed(
                            deletions_under(
                                self.engine,
                                idx_prefix_of(encode_utf8(store), encode_utf8(name)),
                            ).push(Entry::put(rec, 0)),
                            stores_with(self.schema, less),
                        ),
                    }
                }
            },
        }
    }
}

/// A definition with one index more.
pub open spec fn with_index_def(def: StoreDefView, index: IndexDefView) -> StoreDefView {
    StoreDefView { indexes: def.indexes.push(index), ..def }
}

/// A JSON document database built on top of a single engine.
///
/// Every document operation is atomic: document writes and secondary-index
/// updates are applied together. Explicit transactions group several
/// operations into a single atomic batch.
pub struct JsonDB {
    engine: Engine,
    schema: Schema,
}

impl View for JsonDB {
    type V = DbView;

    closed spec fn view(&self) -> DbView {
        DbView { engine: self.engine@, schema: self.schema@, log: self.engine.pending_log() }
    }
}

/// `r` and `after` are what an operation comes to that gives nothing.
pub open spec fn comes_to(spec: (DbView, Option<FlowErrorView>), after: DbView, r: Result<()>) -> bool {
    &&& after == spec.0
    &&& match r {
        Ok(_) => spec.1 is None,
        Err(e) => spec.1 == Some(e@),
    }
}

impl JsonDB {
    pub closed spec fn well_formed(self) -> bool {
        self.engine.well_formed()
    }

    /// The configuration of the engine.
    pub closed spec fn settings(self) -> Config {
        self.engine.settings()
    }

    /// A database with nothing in it.
    pub fn open(config: Config) -> (r: Result<JsonDB>)
        ensures
            r is Ok <==> config.is_valid(),
            match r {
                Ok(db) => {
                    &&& db.well_formed()
                    &&& db.settings() == config
                    &&& db@ == DbView::fresh()
                },
                Err(e) => config.complaint() is Some && e@ == FlowErrorView::Config(
                    config.complaint()->0,
                ),
            },
    {
        match Engine::open(config) {
            Ok(engine) => {
                proof {
                    law_empty_engine_is_in_step(engine@);
                    let stored = records_under(engine@, schema_prefix_of());
                    assert(stored == engine@.range_scan(
                        ScanRangeView::of_prefix(schema_prefix_of()),
                    ).records());
                    assert(stored =~= Seq::<RecordView>::empty());
                }
                JsonDB::from_engine(engine)
            },
            Err(e) => Err(e),
        }
    }

    /// Every entry in memory was numbered before the next one.
    pub proof fn lemma_numbers_rise(self)
        requires
            self.well_formed(),
        ensures
            self@.engine.seqs_below(),
    {
        self.engine.lemma_numbers_rise();
    }

    /// Wraps an engine with the document layer.
    ///
    /// Existing schemas (stores and indexes) are recovered from
    /// the engine's stored schema records. New ones can be added by
    /// [`JsonDB::create_object_store`].
    pub fn from_engine(engine: Engine) -> (r: Result<JsonDB>)
        requires
            engine.well_formed(),
        ensures
            r is Ok <==> loaded(records_under(engine@, schema_prefix_of())) is Ok,
            match r {
                Ok(db) => {
                    &&& db.well_formed()
                    &&& db.settings() == engine.settings()
                    &&& db@.engine == engine@
                    &&& db@.schema == loaded(records_under(engine@, schema_prefix_of()))->Ok_0
                    &&& db@.log == engine.pending_log()
                },
                Err(e) => e@ == loaded(records_under(engine@, schema_prefix_of()))->Err_0,
            },
    {
        let records = engine.scan_all(prefix_range(&schema_prefix()));
        match load_schemas(&records) {
            Ok(schema) => Ok(JsonDB { engine, schema }),
            Err(e) => Err(e),
        }
    }

    /// The underlying engine.
    pub fn engine(&self) -> (r: &Engine)
        ensures
            r@ == self@.engine,
            self.well_formed() ==> r.well_formed(),
            r.settings() == self.settings(),
            r.pending_log() == self@.log,
    {
        &self.engine
    }

    /// The underlying engine, to be maintained.
    pub fn engine_mut(&mut self) -> (r: &mut Engine)
        ensures
            r@ == old(self)@.engine,
            old(self).well_formed() ==> r.well_formed(),
            r.settings() == old(self).settings(),
            r.pending_log() == old(self)@.log,
            final(self)@ == (DbView {
                engine: final(r)@,
                schema: old(self)@.schema,
                log: final(r).pending_log(),
            }),
            final(r).well_formed() ==> final(self).well_formed(),
            final(self).settings() == final(r).settings(),
    {
        &mut self.engine
    }

    /// The definitions of the stores.
    pub fn schema(&self) -> (r: &Schema)
        ensures
            r@ == self@.schema,
    {
        &self.schema
    }

    /// Flushes what is in memory.
    pub fn close(&mut self) -> (r: Result<()>)
        requires
            old(self).well_formed(),
        ensures
            final(self).well_formed(),
            final(self).settings() == old(self).settings(),
            final(self)@.schema == old(self)@.schema,
            final(self)@.log == old(self)@.log,
            match r {
                Ok(_) => final(self)@.engine.tables_to_flush() == 0 && flushes_to(
                    old(self)@.engine,
                    final(self)@.engine,
                    old(self).settings(),
                ),
                Err(e) => exists|mid: EngineView| #[trigger]
                    flushes_to(old(self)@.engine, mid, old(self).settings()) && flush_fails(
                        mid,
                        final(self)@.engine,
                        old(self).settings(),
                        e@,
                    ),
            },
    {
        let ghost before = self.engine;
        let r = self.engine.flush();
        proof {
            if r is Err {
                let mid = choose|mid: EngineView| #[trigger]
                    flushes_to(before@, mid, before.settings()) && flush_fails(
                        mid,
                        self.engine@,
                        before.settings(),
                        r->Err_0@,
                    );
                assert(flushes_to(old(self)@.engine, mid, old(self).settings()));
            }
        }
        r
    }

    /// The sequence number of the last committed write. A transaction takes it
    /// as its snapshot.
    pub fn last_seq(&self) -> (r: u64)
        ensures
            r == if self@.engine.next_seq == 0 {
                0
            } else {
                (self@.engine.next_seq - 1) as u64
            },
    {
        self.engine.last_seq()
    }

    /// Writes a batch of records, all or none.
    pub fn write_records(&mut self, records: Vec<InternalRecord>) -> (r: Result<()>)
        requires
            old(self).well_formed(),
        ensures
            final(self).well_formed(),
            final(self).settings() == old(self).settings(),
            comes_to(
                old(self)@.committed(entries(records@), old(self)@.schema),
                final(self)@,
                r,
            ),
    {
        let ghost n = entries(records@).len();
        assert(sequenced(entries(records@), self@.engine.next_seq).len() == n);
        self.engine.write_internal(records)
    }

    /// Writes a batch of records and sets a store's definition, all or nothing.
    fn write_with_def(&mut self, records: Vec<InternalRecord>, def: StoreDef) -> (r: Result<()>)
        requires
            old(self).well_formed(),
        ensures
            final(self).well_formed(),
            final(self).settings() == old(self).settings(),
            comes_to(
                old(self)@.committed(
                    entries(records@),
                    stores_with(old(self)@.schema, def@),
                ),
                final(self)@,
                r,
            ),
    {
        match self.write_records(records) {
            Ok(_) => {
                self.schema.insert(def);
                Ok(())
            },
            Err(e) => Err(e),
        }
    }

    /// Creates a new object store.
    ///
    /// `key_path` is a dotted field path (e.g. `"id"` or `"user.id"`) that
    /// identifies the primary key within each document.
    pub fn create_object_store(&mut self, name: &str, key_path: &str) -> (r: Result<()>)
        requires
            old(self).well_formed(),
        ensures
            final(self).well_formed(),
            final(self).settings() == old(self).settings(),
            comes_to(old(self)@.create_store(name@, key_path@), final(self)@, r),
    {
        match validate_store_def(name, key_path) {
            Ok(_) => {},
            Err(e) => {
                return Err(e);
            },
        }
        if let Some(d) = self.schema.find(name) {
            if !texts_eq(d.key_path.as_str(), key_path) {
                return Err(
                    FlowError::JsonDb(
                        text3("store '", name, "' already exists with a different key_path"),
                    ),
                );
            }
            return Ok(());
        }
        self.store_definition(StoreDef::new(name, key_path))
    }

    /// Stores a definition.
    pub fn store_definition(&mut self, def: StoreDef) -> (r: Result<()>)
        requires
            old(self).well_formed(),
        ensures
            final(self).well_formed(),
            final(self).settings() == old(self).settings(),
            comes_to(old(self)@.put_schema(def@, Seq::empty()), final(self)@, r),
    {
        let mut batch: Vec<InternalRecord> = Vec::new();
        match schema_record(&def) {
            Ok(rec) => {
                let irec = InternalRecord::from_record(&rec, 0);
                let ghost e = irec@;
                batch.push(irec);
                assert(entries(batch@) =~= seq![e] + Seq::<Entry>::empty());
            },
            Err(e) => {
                return Err(e);
            },
        }
        self.write_with_def(batch, def)
    }

    /// Appends the deletions of the records of all keys with a prefix. Gives
    /// their number.
    fn push_deletions(&self, out: &mut Vec<InternalRecord>, prefix: &[u8]) -> (r: usize)
        requires
            self.well_formed(),
        ensures
            entries(final(out)@) == entries(old(out)@) + deletions_under(self@.engine, prefix@),
            r == records_under(self@.engine, prefix@).len(),
    {
        let found = self.engine.scan_all(prefix_range(prefix));
        let ghost all = records_of(found@);
        let ghost want = deletions_under(self@.engine, prefix@);
        let ghost start = entries(out@);
        let mut i: usize = 0;
        assert(start + want.subrange(0, 0) =~= start);
        while i < found.len()
            invariant
                i <= found.len(),
                all == records_of(found@),
                all == records_under(self@.engine, prefix@),
                want == deletions_under(self@.engine, prefix@),
                start == entries(old(out)@),
                entries(out@) == start + want.subrange(0, i as int),
            decreases found.len() - i,
        {
            let ghost before = entries(out@);
            let rec = InternalRecord::delete(
                copy_bytes(&found[i].key),
                found[i].ts,
                0,
            );
            let ghost e = rec@;
            out.push(rec);
            proof {
                assert(all[i as int] == found@[i as int]@);
                assert(e == want[i as int]);
                assert(entries(out@) =~= before.push(e));
                assert(entries(out@) =~= start + want.subrange(0, i + 1));
            }
            i = i + 1;
        }
        assert(want.subrange(0, want.len() as int) =~= want);
        found.len()
    }

    /// The deletions of a store's index entries and documents, and the number
    /// of documents.
    pub fn build_content_deletions(&self, def: &StoreDef, store: &str) -> (r: (
        Vec<InternalRecord>,
        usize,
    ))
        requires
            self.well_formed(),
        ensures
            entries(r.0@) == content_deletions(self@.engine, def@, encode_utf8(store@)),
            r.1 == records_under(self@.engine, doc_prefix_of(encode_utf8(store@))).len(),
    {
        let mut out: Vec<InternalRecord> = Vec::new();
        let ghost all = def@.indexes;
        let ghost sb = encode_utf8(store@);
        let mut i: usize = 0;
        assert(entries(out@) =~= index_deletions(self@.engine, all, 0, sb));
        while i < def.indexes.len()
            invariant
                i <= def.indexes.len(),
                self.well_formed(),
                all == def@.indexes,
                sb == encode_utf8(store@),
                entries(out@) == index_deletions(self@.engine, all, i as nat, sb),
            decreases def.indexes.len() - i,
        {
            assert(all[i as int] == def.indexes@[i as int]@);
            let prefix = idx_prefix(store, def.indexes[i].name.as_str());
            let _n: usize = self.push_deletions(&mut out, &prefix);
            i = i + 1;
        }
        let count: usize = self.push_deletions(&mut out, &doc_prefix(store));
        (out, count)
    }

    /// Deletes an object store (all documents, indexes, and schema).
    pub fn delete_object_store(&mut self, name: &str) -> (r: Result<()>)
        requires
            old(self).well_formed(),
        ensures
            final(self).well_formed(),
            final(self).settings() == old(self).settings(),
            comes_to(old(self)@.delete_store(name@), final(self)@, r),
    {
        let def = match self.schema.get(name) {
            Some(d) => d,
            None => {
                return Err(FlowError::JsonDb(text3("store '", name, "' not found")));
            },
        };
        let (mut records, _count) = self.build_content_deletions(&def, name);
        let ghost content = entries(records@);
        let schema_gone = schema_delete_record(name);
        let counter_gone = InternalRecord::delete(counter_key(name), 0, 0);
        let ghost e1 = schema_gone@;
        let ghost e2 = counter_gone@;
        records.push(schema_gone);
        records.push(counter_gone);
        assert(entries(records@) =~= content.push(e1).push(e2));
        match self.write_records(records) {
            Ok(_) => {
                let _gone = self.schema.remove(name);
                Ok(())
            },
            Err(e) => Err(e),
        }
    }

    /// Collects the entries of a new index for the documents of a store.
    fn build_backfill(&self, def: &StoreDef, store: &str, index: &IndexDef) -> (r: Result<
        Vec<InternalRecord>,
    >)
        requires
            self.well_formed(),
        ensures
            ({
                let sb = encode_utf8(store@);
                let docs = records_under(self@.engine, doc_prefix_of(sb));
                let b = backfill(docs, docs.len(), index@, sb, encode_utf8(def@.key_path));
                match r {
                    Ok(v) => b is Ok && entries(v@) == b->Ok_0,
                    Err(e) => b is Err && e@ == b->Err_0,
                }
            }),
    {
        let found = self.engine.scan_all(prefix_range(&doc_prefix(store)));
        let ghost sb = encode_utf8(store@);
        let ghost kp = encode_utf8(def@.key_path);
        let ghost docs = records_of(found@);
        let mut out: Vec<InternalRecord> = Vec::new();
        let mut i: usize = 0;
        assert(entries(out@) =~= Seq::<Entry>::empty());
        while i < found.len()
            invariant
                i <= found.len(),
                sb == encode_utf8(store@),
                kp == encode_utf8(def@.key_path),
                docs == records_of(found@),
                docs == records_under(self@.engine, doc_prefix_of(sb)),
                backfill(docs, i as nat, index@, sb, kp) == Ok::<Seq<Entry>, FlowErrorView>(
                    entries(out@),
                ),
            decreases found.len() - i,
        {
            assert(docs[i as int] == found@[i as int]@);
            let ghost before = entries(out@);
            match index_record(&found[i], def, store, index) {
                Ok(more) => {
                    let mut more = more;
                    let ghost m = entries(more@);
                    out.append(&mut more);
                    assert(entries(out@) =~= before + m);
                },
                Err(e) => {
                    proof {
                        lemma_backfill_fails(docs, i as nat, docs.len(), index@, sb, kp);
                    }
                    return Err(e);
                },
            }
            i = i + 1;
        }
        Ok(out)
    }

    /// Creates a secondary index on an existing object store.
    ///
    /// `key_paths` can be one or more field paths (e.g. `&["email"]` for a
    /// single-field index or `&["city", "age"]` for a composite index).
    pub fn create_index(
        &mut self,
        store: &str,
        name: &str,
        key_paths: &[&str],
        unique: bool,
        multi_entry: bool,
    ) -> (r: Result<()>)
        requires
            old(self).well_formed(),
        ensures
            final(self).well_formed(),
            final(self).settings() == old(self).settings(),
            comes_to(
                old(self)@.create_idx(
                    store@,
                    IndexDefView {
                        key_paths: key_paths@.map_values(|s: &str| s@),
                        name: name@,
                        unique,
                        multi_entry,
                    },
                ),
                final(self)@,
                r,
            ),
    {
        let mut def = match self.schema.get(store) {
            Some(d) => d,
            None => {
                return Err(FlowError::JsonDb(text3("store '", store, "' not found")));
            },
        };
        let ghost old_def = def@;
        match validate_index_def(&def, name, key_paths) {
            Ok(_) => {},
            Err(e) => {
                return Err(e);
            },
        }
        let index = IndexDef {
            name: string_of(name),
            key_paths: own_texts(key_paths),
            unique,
            multi_entry,
        };
        let ghost iv = index@;
        def.indexes.push(index.copy());
        assert(def@.indexes =~= old_def.indexes.push(iv));
        let mut batch: Vec<InternalRecord> = Vec::new();
        let ghost mut head: Entry = arbitrary();
        match schema_record(&def) {
            Ok(rec) => {
                let irec = InternalRecord::from_record(&rec, 0);
                proof {
                    head = irec@;
                }
                batch.push(irec);
                assert(entries(batch@) =~= seq![head]);
            },
            Err(e) => {
                return Err(e);
            },
        }
        match self.build_backfill(&def, store, &index) {
            Ok(more) => {
                let mut more = more;
                let ghost m = entries(more@);
                batch.append(&mut more);
                assert(entries(batch@) =~= seq![head] + m);
            },
            Err(e) => {
                return Err(e);
            },
        }
        self.write_with_def(batch, def)
    }

    /// Convenience: create a single-field index.  Equivalent to
    /// `create_index(store, name, &[key_path], unique, false)`.
    pub fn create_index_on(&mut self, store: &str, name: &str, key_path: &str, unique: bool) -> (r:
        Result<()>)
        requires
            old(self).well_formed(),
        ensures
            final(self).well_formed(),
            final(self).settings() == old(self).settings(),
            comes_to(
                old(self)@.create_idx(
                    store@,
                    IndexDefView {
                        key_paths: seq![key_path@],
                        name: name@,
                        unique,
                        multi_entry: false,
                    },
                ),
                final(self)@,
                r,
            ),
    {
        let paths: [&str; 1] = [key_path];
        assert(paths@.map_values(|s: &str| s@) =~= seq![key_path@]);
        self.create_index(store, name, &paths, unique, false)
    }

    /// Deletes a secondary index (removes all index entries).
    pub fn delete_index(&mut self, store: &str, name: &str) -> (r: Result<()>)
        requires
            old(self).well_formed(),
        ensures
            final(self).well_formed(),
            final(self).settings() == old(self).settings(),
            comes_to(old(self)@.delete_idx(store@, name@), final(self)@, r),
    {
        let mut def = match self.schema.get(store) {
            Some(d) => d,
            None => {
                return Err(FlowError::JsonDb(text3("store '", store, "' not found")));
            },
        };
        let ghost old_def = def@;
        let pos: usize = def.find_index(name);
        if pos >= def.indexes.len() {
            return Err(
                FlowError::JsonDb(text5("index '", name, "' not found on store '", store, "'")),
            );
        }
        let _gone = def.indexes.remove(pos);
        assert(def@.indexes =~= old_def.indexes.remove(pos as int));
        let mut batch: Vec<InternalRecord> = Vec::new();
        let ghost none = entries(batch@);
        let _n: usize = self.push_deletions(&mut batch, &idx_prefix(store, name));
        let ghost dels = entries(batch@);
        assert(none + deletions_under(
            self@.engine,
            idx_prefix_of(encode_utf8(store@), encode_utf8(name@)),
        ) =~= deletions_under(
            self@.engine,
            idx_prefix_of(encode_utf8(store@), encode_utf8(name@)),
        ));
        match schema_record(&def) {
            Ok(rec) => {
                let irec = InternalRecord::from_record(&rec, 0);
                let ghost e = irec@;
                batch.push(irec);
                assert(entries(batch@) =~= dels.push(e));
            },
            Err(e) => {
                return Err(e);
            },
        }
        self.write_with_def(batch, def)
    }

    /// Lists all store names.
    pub fn store_names(&self) -> (r: Vec<String>)
        ensures
            texts(r@) == self@.schema.map_values(|d: StoreDefView| d.name),
    {
        let list = self.schema.list();
        let ghost want = self@.schema.map_values(|d: StoreDefView| d.name);
        let mut out: Vec<String> = Vec::new();
        let mut i: usize = 0;
        assert(texts(out@) =~= want.subrange(0, 0));
        while i < list.len()
            invariant
                i <= list.len(),
                store_defs(list@) == self@.schema,
                want == self@.schema.map_values(|d: StoreDefView| d.name),
                texts(out@) == want.subrange(0, i as int),
            decreases list.len() - i,
        {
            let ghost before = texts(out@);
            assert(self@.schema[i as int] == list@[i as int]@);
            out.push(list[i].name.clone());
            assert(texts(out@) =~= before.push(list@[i as int].name@));
            assert(texts(out@) =~= want.subrange(0, i + 1));
            i = i + 1;
        }
        assert(want.subrange(0, want.len() as int) =~= want);
        out
    }

    /// Gets a store definition.
    pub fn get_store(&self, name: &str) -> (r: Option<StoreDef>)
        ensures
            match r {
                Some(d) => self@.store(name@) == Some(d@),
                None => self@.store(name@) is None,
            },
    {
        self.schema.get(name)
    }
}

/// One document that cannot be indexed spoils the index.
proof fn lemma_backfill_fails(
    records: Seq<RecordView>,
    k: nat,
    n: nat,
    index: IndexDefView,
    store: Seq<u8>,
    key_path: Seq<u8>,
)
    requires
        k < n <= records.len(),
        backfill(records, k, index, store, key_path) is Ok,
        backfill_one(records[k as int], index, store, key_path) is Err,
    ensures
        backfill(records, n, index, store, key_path) is Err,
        backfill(records, n, index, store, key_path)->Err_0 == backfill_one(
            records[k as int],
            index,
            store,
            key_path,
        )->Err_0,
    decreases n,
{
    if n > k + 1 {
        lemma_backfill_fails(records, k, (n - 1) as nat, index, store, key_path);
    }
}

/// The entries of an index for the document of a record.
fn index_record(rec: &Record, def: &StoreDef, store: &str, index: &IndexDef) -> (r: Result<
    Vec<InternalRecord>,
>)
    ensures
        ({
            let b = backfill_one(
                rec@,
                index@,
                encode_utf8(store@),
                encode_utf8(def@.key_path),
            );
            match r {
                Ok(v) => b is Ok && entries(v@) == b->Ok_0,
                Err(e) => b is Err && e@ == b->Err_0,
            }
        }),
{
    let mut out: Vec<InternalRecord> = Vec::new();
    assert(entries(out@) =~= Seq::<Entry>::empty());
    let doc = match decode_doc(&rec.value) {
        Ok(d) => d,
        Err(e) => {
            return Err(e);
        },
    };
    let lists = extract_index_values(&doc, index);
    if lists.len() == 0 {
        return Ok(out);
    }
    let key_val = match extract_field(&doc, def.key_path.as_str()) {
        Some(v) => v,
        None => JsonValue::Null,
    };
    match encode_primary_key(&key_val) {
        Ok(pk) => {
            push_entry_puts(
                &mut out,
                store,
                index.name.as_str(),
                &lists,
                &pk,
            );
            assert(Seq::<Entry>::empty() + entry_puts(
                encode_utf8(store@),
                encode_utf8(index@.name),
                entered_under(doc@, index@),
                pk@,
            ) =~= entry_puts(
                encode_utf8(store@),
                encode_utf8(index@.name),
                entered_under(doc@, index@),
                pk@,
            ));
            Ok(out)
        },
        Err(e) => Err(e),
    }
}

} // verus!
