//! What reads give back of what was written to a document database.

use vstd::prelude::*;
use vstd::utf8::{encode_utf8, encode_utf8_decode_utf8};

use crate::bytes::{lemma_be_len, lemma_be_value_of_bytes, lemma_pow256_values};
use crate::engine::{sequenced, shown, EngineView};
use crate::engine_laws::{
    last_for, law_batch_decides_point_reads, law_snapshot_reads_are_repeatable, lemma_last_for,
    lemma_last_for_add, lemma_written_seqs_below,
};
use crate::error::{decimal, FlowErrorView};
use crate::jsondb::db::{with_index_def, DbView};
use crate::jsondb::documents::{id_json, key_exists, with_id};
use crate::jsondb::encoding::{
    composite_value, counter_key_of, doc_key_of, idx_key_of, is_name, lemma_name_zero_free,
    primary_key, zero_free,
};
use crate::jsondb::helpers::{
    all_deletions, all_puts, any_taken, counter_put, delete_batch, entered_under, entry_deletions,
    entry_puts, last_id, next_id, old_entries, plain_record, put_batch, stored_doc, taken_by_other,
    unique_complaint,
};
use crate::jsondb::key_laws::{law_document_keys_differ, law_kinds_of_keys_differ};
use crate::jsondb::schema::{
    index_named, index_position, lemma_store_position, store_position, stores_with, stores_without,
    IndexDefView, StoreDefView,
};
use crate::jsondb::value::{decoded_doc, encoded_doc, field_at, reads_back, Json};
use crate::record::{Entry, RecordView};

verus! {

/// The names of a store and of its indexes are valid, and no two of its indexes
/// share one.
pub open spec fn has_valid_names(d: StoreDefView) -> bool {
    &&& is_name(encode_utf8(d.name))
    &&& forall|i: int| 0 <= i < d.indexes.len() ==> is_name(encode_utf8((#[trigger] d.indexes[i]).name))
    &&& forall|i: int, j: int|
        0 <= i < j < d.indexes.len() ==> (#[trigger] d.indexes[i]).name != (#[trigger] d.indexes[j]).name
}

/// The names in a schema are valid, and no two stores share one.
pub open spec fn names_ok(schema: Seq<StoreDefView>) -> bool {
    &&& forall|i: int| 0 <= i < schema.len() ==> has_valid_names(#[trigger] schema[i])
    &&& forall|i: int, j: int|
        0 <= i < j < schema.len() ==> (#[trigger] schema[i]).name != (#[trigger] schema[j]).name
}

impl DbView {
    /// The names of all stores and indexes are valid, and no two stores share one.
    pub open spec fn names_valid(self) -> bool {
        names_ok(self.schema)
    }
}

/// What the validity of names says of one store.
pub proof fn lemma_store_names(db: DbView, store: Seq<char>)
    requires
        db.names_valid(),
        db.store(store) is Some,
    ensures
        has_valid_names(db.store(store)->0),
        db.store(store)->0.name == store,
        zero_free(encode_utf8(store)),
{
    lemma_store_position(db.schema, store);
    lemma_name_zero_free(encode_utf8(store));
}

/// Every entry is one of a database: without a time, and never expiring.
pub open spec fn plain(es: Seq<Entry>) -> bool {
    forall|i: int| 0 <= i < es.len() ==> is_plain_entry(#[trigger] es[i])
}

pub open spec fn is_plain_entry(e: Entry) -> bool {
    e.ts == 0 && e.expire_at == i64::MAX && e.range_end is None && !(e.op is DeleteRange)
}

/// `e` is an entry of an index of a store.
pub open spec fn is_index_entry(e: Entry, store: Seq<u8>, pk: Seq<u8>) -> bool {
    &&& is_plain_entry(e)
    &&& exists|index: Seq<u8>, value: Seq<u8>| e.key == #[trigger] idx_key_of(store, index, value, pk)
}

pub open spec fn index_entries_only(es: Seq<Entry>, store: Seq<u8>, pk: Seq<u8>) -> bool {
    forall|i: int| 0 <= i < es.len() ==> is_index_entry(#[trigger] es[i], store, pk)
}

proof fn lemma_add_index_entries(a: Seq<Entry>, b: Seq<Entry>, store: Seq<u8>, pk: Seq<u8>)
    requires
        index_entries_only(a, store, pk),
        index_entries_only(b, store, pk),
    ensures
        index_entries_only(a + b, store, pk),
{
    assert forall|i: int| 0 <= i < (a + b).len() implies is_index_entry(
        #[trigger] (a + b)[i],
        store,
        pk,
    ) by {
        if i < a.len() {
            assert((a + b)[i] == a[i]);
        } else {
            assert((a + b)[i] == b[i - a.len()]);
        }
    }
}

/// What the entries of a document in its indexes are.
pub proof fn lemma_entries_of_document(
    indexes: Seq<IndexDefView>,
    n: nat,
    doc: Json,
    store: Seq<u8>,
    pk: Seq<u8>,
)
    requires
        n <= indexes.len(),
    ensures
        index_entries_only(all_deletions(indexes, n, doc, store, pk), store, pk),
        index_entries_only(all_puts(indexes, n, doc, store, pk), store, pk),
    decreases n,
{
    if n > 0 {
        lemma_entries_of_document(indexes, (n - 1) as nat, doc, store, pk);
        let d = indexes[n - 1];
        let lists = entered_under(doc, d);
        let name = encode_utf8(d.name);
        let dels = entry_deletions(store, name, lists, pk);
        let puts = entry_puts(store, name, lists, pk);
        assert forall|i: int| 0 <= i < dels.len() implies is_index_entry(
            #[trigger] dels[i],
            store,
            pk,
        ) by {
            assert(dels[i].key == idx_key_of(store, name, composite_value(lists[i]), pk));
        }
        assert forall|i: int| 0 <= i < puts.len() implies is_index_entry(
            #[trigger] puts[i],
            store,
            pk,
        ) by {
            assert(puts[i].key == idx_key_of(store, name, composite_value(lists[i]), pk));
        }
        lemma_add_index_entries(
            all_deletions(indexes, (n - 1) as nat, doc, store, pk),
            dels,
            store,
            pk,
        );
        lemma_add_index_entries(all_puts(indexes, (n - 1) as nat, doc, store, pk), puts, store, pk);
    }
}

/// Index entries say nothing of a document or a counter.
pub proof fn lemma_index_entries_say_nothing(
    es: Seq<Entry>,
    store: Seq<u8>,
    pk: Seq<u8>,
    other: Seq<u8>,
    key: Seq<u8>,
)
    requires
        index_entries_only(es, store, pk),
    ensures
        plain(es),
        last_for(es, doc_key_of(other, key), 0) is None,
        last_for(es, counter_key_of(other), 0) is None,
{
    let i = lemma_last_for(es, doc_key_of(other, key), 0);
    if last_for(es, doc_key_of(other, key), 0) is Some {
        assert(is_index_entry(es[i], store, pk));
        let (index, value) = choose|index: Seq<u8>, value: Seq<u8>|
            es[i].key == #[trigger] idx_key_of(store, index, value, pk);
        law_kinds_of_keys_differ(other, key, store, index, value, pk);
    }
    let j = lemma_last_for(es, counter_key_of(other), 0);
    if last_for(es, counter_key_of(other), 0) is Some {
        assert(is_index_entry(es[j], store, pk));
        let (index, value) = choose|index: Seq<u8>, value: Seq<u8>|
            es[j].key == #[trigger] idx_key_of(store, index, value, pk);
        law_kinds_of_keys_differ(store, pk, other, index, value, key);
    }
    assert forall|k: int| 0 <= k < es.len() implies is_plain_entry(#[trigger] es[k]) by {
        assert(is_index_entry(es[k], store, pk));
    }
}

/// What a change of one document says of documents and counters: index entries
/// around one entry for the document.
pub proof fn lemma_change_of_document(
    before: Seq<Entry>,
    e: Entry,
    after: Seq<Entry>,
    store: Seq<u8>,
    pk: Seq<u8>,
    other: Seq<u8>,
    key: Seq<u8>,
)
    requires
        index_entries_only(before, store, pk),
        index_entries_only(after, store, pk),
        e.key == doc_key_of(store, pk),
        is_plain_entry(e),
        zero_free(store),
        zero_free(other),
    ensures
        plain(before.push(e) + after),
        last_for(before.push(e) + after, doc_key_of(other, key), 0) == if other == store && key
            == pk {
            Some(e)
        } else {
            None
        },
        last_for(before.push(e) + after, counter_key_of(other), 0) is None,
{
    let es = before.push(e);
    lemma_index_entries_say_nothing(before, store, pk, other, key);
    lemma_index_entries_say_nothing(after, store, pk, other, key);
    assert(es.drop_last() =~= before);
    lemma_last_for_add(es, after, doc_key_of(other, key), 0);
    lemma_last_for_add(es, after, counter_key_of(other), 0);
    if doc_key_of(other, key) == e.key {
        law_document_keys_differ(other, key, store, pk);
    }
    law_kinds_of_keys_differ(store, pk, other, Seq::empty(), Seq::empty(), pk);
    assert forall|k: int| 0 <= k < (es + after).len() implies is_plain_entry(
        #[trigger] (es + after)[k],
    ) by {
        if k < before.len() {
            assert((es + after)[k] == before[k]);
        } else if k > before.len() {
            assert((es + after)[k] == after[k - es.len()]);
        }
    }
}

/// What a put of a document says of documents and counters.
pub proof fn lemma_put_batch(
    v: EngineView,
    def: StoreDefView,
    store: Seq<u8>,
    pk: Seq<u8>,
    bytes: Seq<u8>,
    doc: Json,
    other: Seq<u8>,
    key: Seq<u8>,
)
    requires
        put_batch(v, def, store, pk, bytes, doc) is Ok,
        zero_free(store),
        zero_free(other),
    ensures
        ({
            let es = put_batch(v, def, store, pk, bytes, doc)->Ok_0;
            &&& plain(es)
            &&& last_for(es, doc_key_of(other, key), 0) == if other == store && key == pk {
                Some(Entry::put(plain_record(doc_key_of(store, pk), bytes), 0))
            } else {
                None
            }
            &&& last_for(es, counter_key_of(other), 0) is None
        }),
{
    let old = old_entries(v, def, store, pk);
    lemma_old_entries(v, def, store, pk);
    lemma_entries_of_document(def.indexes, def.indexes.len(), doc, store, pk);
    lemma_change_of_document(
        old,
        Entry::put(plain_record(doc_key_of(store, pk), bytes), 0),
        all_puts(def.indexes, def.indexes.len(), doc, store, pk),
        store,
        pk,
        other,
        key,
    );
}

pub proof fn lemma_old_entries(v: EngineView, def: StoreDefView, store: Seq<u8>, pk: Seq<u8>)
    ensures
        index_entries_only(old_entries(v, def, store, pk), store, pk),
{
    if let Some(old) = stored_doc(v, store, pk) {
        lemma_entries_of_document(def.indexes, def.indexes.len(), old, store, pk);
    }
}

/// What a deletion of a document says of documents and counters.
pub proof fn lemma_delete_batch(
    v: EngineView,
    def: StoreDefView,
    store: Seq<u8>,
    pk: Seq<u8>,
    other: Seq<u8>,
    key: Seq<u8>,
)
    requires
        zero_free(store),
        zero_free(other),
    ensures
        plain(delete_batch(v, def, store, pk)),
        last_for(delete_batch(v, def, store, pk), doc_key_of(other, key), 0) == if other == store
            && key == pk {
            Some(Entry::deletion(doc_key_of(store, pk), 0, 0))
        } else {
            None
        },
        last_for(delete_batch(v, def, store, pk), counter_key_of(other), 0) is None,
{
    let e = Entry::deletion(doc_key_of(store, pk), 0, 0);
    let old = old_entries(v, def, store, pk);
    lemma_old_entries(v, def, store, pk);
    lemma_change_of_document(old, e, Seq::empty(), store, pk, other, key);
    assert(old.push(e) + Seq::<Entry>::empty() =~= delete_batch(v, def, store, pk));
}

/// Texts with the same bytes are the same.
pub proof fn lemma_same_bytes(a: Seq<char>, b: Seq<char>)
    requires
        encode_utf8(a) == encode_utf8(b),
    ensures
        a == b,
{
    encode_utf8_decode_utf8(a);
    encode_utf8_decode_utf8(b);
}

/// What point reads at any time give once plain entries were written.
pub proof fn lemma_committed_points(
    db: DbView,
    es: Seq<Entry>,
    schema: Seq<StoreDefView>,
    key: Seq<u8>,
    ts: i64,
)
    requires
        db.engine.seqs_below(),
        plain(es),
        db.committed(es, schema).1 is None,
    ensures
        db.committed(es, schema).0.engine.point(key, ts) == match last_for(es, key, ts) {
            Some(e) => shown(e),
            None => db.engine.point(key, ts),
        },
        ts != 0 ==> last_for(es, key, ts) is None,
{
    let i = lemma_last_for(es, key, ts);
    if last_for(es, key, ts) is Some {
        assert(is_plain_entry(es[i]));
    }
    law_batch_decides_point_reads(db.engine, es, key, ts);
}

/// What point reads give once plain entries were written.
pub proof fn lemma_committed_reads(db: DbView, es: Seq<Entry>, schema: Seq<StoreDefView>, key: Seq<u8>)
    requires
        db.engine.seqs_below(),
        plain(es),
        db.committed(es, schema).1 is None,
    ensures
        db.committed(es, schema).0.engine.point(key, 0) == match last_for(es, key, 0) {
            Some(e) => shown(e),
            None => db.engine.point(key, 0),
        },
        db.committed(es, schema).0.engine.seqs_below(),
{
    let i = lemma_last_for(es, key, 0);
    if last_for(es, key, 0) is Some {
        assert(is_plain_entry(es[i]));
    }
    law_batch_decides_point_reads(db.engine, es, key, 0);
    lemma_written_seqs_below(db.engine, es);
}

/// A document that was put is what the next read under its key gives, as it was
/// put wherever it can be stored unchanged.
pub proof fn law_put_is_read_back(db: DbView, store: Seq<char>, doc: Json)
    requires
        db.engine.seqs_below(),
        db.names_valid(),
        db.put_plan(store, doc) is Ok,
        db.committed((db.put_plan(store, doc)->Ok_0).1, db.schema).1 is None,
    ensures
        ({
            let (key, es) = db.put_plan(store, doc)->Ok_0;
            let after = db.committed(es, db.schema).0;
            let bytes = encoded_doc(doc)->Ok_0;
            let rec = plain_record(
                doc_key_of(encode_utf8(store), primary_key(key)->Ok_0),
                bytes,
            );
            &&& after.read(store, key, u64::MAX) == match decoded_doc(bytes) {
                Ok(d) => Ok(Some((d, rec))),
                Err(e) => Err(e),
            }
            &&& reads_back(doc) ==> after.read(store, key, u64::MAX) == Ok::<
                Option<(Json, RecordView)>,
                FlowErrorView,
            >(Some((doc, rec)))
        }),
{
    let (key, es) = db.put_plan(store, doc)->Ok_0;
    let sb = encode_utf8(store);
    let def = db.store(store)->0;
    lemma_store_names(db, store);
    let pk = primary_key(key)->Ok_0;
    let bytes = encoded_doc(doc)->Ok_0;
    lemma_put_batch(db.engine, def, sb, pk, bytes, doc, sb, pk);
    lemma_committed_reads(db, es, db.schema, doc_key_of(sb, pk));
}

/// Putting a document changes no other document.
pub proof fn law_put_leaves_other_documents(
    db: DbView,
    store: Seq<char>,
    doc: Json,
    other: Seq<char>,
    key: Json,
)
    requires
        db.engine.seqs_below(),
        db.names_valid(),
        db.put_plan(store, doc) is Ok,
        db.committed((db.put_plan(store, doc)->Ok_0).1, db.schema).1 is None,
        other != store || primary_key(key) != primary_key((db.put_plan(store, doc)->Ok_0).0),
    ensures
        db.committed((db.put_plan(store, doc)->Ok_0).1, db.schema).0.read(other, key, u64::MAX)
            == db.read(other, key, u64::MAX),
{
    let (k, es) = db.put_plan(store, doc)->Ok_0;
    let sb = encode_utf8(store);
    let ob = encode_utf8(other);
    let def = db.store(store)->0;
    let pk = primary_key(k)->Ok_0;
    if sb == ob {
        lemma_same_bytes(store, other);
    }
    lemma_store_names(db, store);
    if db.store(other) is Some && primary_key(key) is Ok {
        lemma_store_names(db, other);
        let pk2 = primary_key(key)->Ok_0;
        lemma_put_batch(db.engine, def, sb, pk, encoded_doc(doc)->Ok_0, doc, ob, pk2);
        lemma_committed_reads(db, es, db.schema, doc_key_of(ob, pk2));
    }
}

/// A deleted document is gone.
pub proof fn law_deleted_document_is_gone(db: DbView, store: Seq<char>, key: Json)
    requires
        db.engine.seqs_below(),
        db.names_valid(),
        db.delete_doc(store, key).1 is None,
    ensures
        db.delete_doc(store, key).0.read(store, key, u64::MAX) == Ok::<
            Option<(Json, RecordView)>,
            FlowErrorView,
        >(None),
{
    let sb = encode_utf8(store);
    let def = db.store(store)->0;
    lemma_store_names(db, store);
    let pk = primary_key(key)->Ok_0;
    lemma_delete_batch(db.engine, def, sb, pk, sb, pk);
    lemma_committed_reads(db, delete_batch(db.engine, def, sb, pk), db.schema, doc_key_of(sb, pk));
}

/// Deleting a document changes no other document.
pub proof fn law_delete_leaves_other_documents(
    db: DbView,
    store: Seq<char>,
    key: Json,
    other: Seq<char>,
    key2: Json,
)
    requires
        db.engine.seqs_below(),
        db.names_valid(),
        db.delete_doc(store, key).1 is None,
        other != store || primary_key(key) != primary_key(key2),
    ensures
        db.delete_doc(store, key).0.read(other, key2, u64::MAX) == db.read(other, key2, u64::MAX),
{
    let sb = encode_utf8(store);
    let ob = encode_utf8(other);
    let def = db.store(store)->0;
    let pk = primary_key(key)->Ok_0;
    if sb == ob {
        lemma_same_bytes(store, other);
    }
    lemma_store_names(db, store);
    if db.store(other) is Some && primary_key(key2) is Ok {
        lemma_store_names(db, other);
        let pk2 = primary_key(key2)->Ok_0;
        lemma_delete_batch(db.engine, def, sb, pk, ob, pk2);
        lemma_committed_reads(
            db,
            delete_batch(db.engine, def, sb, pk),
            db.schema,
            doc_key_of(ob, pk2),
        );
    }
}

/// A document that is there is not added again.
pub proof fn law_add_refuses_a_key_that_is_there(db: DbView, store: Seq<char>, doc: Json)
    requires
        db.store(store) is Some,
        field_at(doc, encode_utf8(db.store(store)->0.key_path)) is Some,
        ({
            let key = field_at(doc, encode_utf8(db.store(store)->0.key_path))->0;
            let r = db.read(store, key, u64::MAX);
            r is Ok && r->Ok_0 is Some
        }),
    ensures
        db.add_plan(store, doc) == Err::<(Json, Seq<Entry>), FlowErrorView>(
            key_exists(field_at(doc, encode_utf8(db.store(store)->0.key_path))->0, store),
        ),
{
}

/// A document that is not there is added exactly as it would be put.
pub proof fn law_add_is_put_where_nothing_is_there(db: DbView, store: Seq<char>, doc: Json)
    requires
        db.store(store) is Some,
        field_at(doc, encode_utf8(db.store(store)->0.key_path)) is Some,
        ({
            let key = field_at(doc, encode_utf8(db.store(store)->0.key_path))->0;
            let r = db.read(store, key, u64::MAX);
            r is Ok && r->Ok_0 is None
        }),
    ensures
        db.add_plan(store, doc) == db.put_plan(store, doc),
{
}

/// The ids that a store gives out rise by one: the put of an id makes it the
/// last one.
pub proof fn law_ids_rise_by_one(db: DbView, store: Seq<char>, doc: Json)
    requires
        db.engine.seqs_below(),
        db.names_valid(),
        db.auto_plan(store, doc) is Ok,
        db.committed((db.auto_plan(store, doc)->Ok_0).1, db.schema).1 is None,
    ensures
        ({
            let before = last_id(db.engine, encode_utf8(store));
            let (key, es) = db.auto_plan(store, doc)->Ok_0;
            let after = db.committed(es, db.schema).0;
            &&& before is Ok
            &&& before->Ok_0 < u64::MAX
            &&& key == id_json((before->Ok_0 + 1) as u64)
            &&& last_id(after.engine, encode_utf8(store)) == Ok::<
                u64,
                FlowErrorView,
            >((before->Ok_0 + 1) as u64)
        }),
{
    let (key, es) = db.auto_plan(store, doc)->Ok_0;
    let sb = encode_utf8(store);
    lemma_store_names(db, store);
    let id = next_id(db.engine, sb)->Ok_0;
    let c = counter_put(sb, id);
    let batch = es.drop_last();
    assert(batch.push(c) =~= es);
    assert(es.last() == c);
    let def = db.store(store)->0;
    let pk = encode_utf8(decimal(id as nat));
    let with = with_id(doc, def.key_path, id);
    let plan = db.put_at(def, store, id_json(id), pk, with);
    assert((plan->Ok_0).1 =~= batch);
    lemma_put_batch(db.engine, def, sb, pk, encoded_doc(with)->Ok_0, with, sb, pk);
    assert(plain(es)) by {
        assert forall|i: int| 0 <= i < es.len() implies is_plain_entry(#[trigger] es[i]) by {
            if i < batch.len() {
                assert(es[i] == batch[i]);
            }
        }
    }
    lemma_committed_reads(db, es, db.schema, counter_key_of(sb));
    lemma_pow256_values();
    lemma_be_len(id as nat, 8);
    lemma_be_value_of_bytes(id as nat, 8);
}

/// A put or a deletion leaves the ids of every store as they are.
pub proof fn law_changes_leave_ids(db: DbView, store: Seq<char>, doc: Json, key: Json, other: Seq<char>)
    requires
        db.engine.seqs_below(),
        db.names_valid(),
        db.store(other) is Some,
    ensures
        db.put_plan(store, doc) is Ok && db.committed(
            (db.put_plan(store, doc)->Ok_0).1,
            db.schema,
        ).1 is None ==> last_id(
            db.committed((db.put_plan(store, doc)->Ok_0).1, db.schema).0.engine,
            encode_utf8(other),
        ) == last_id(db.engine, encode_utf8(other)),
        db.delete_doc(store, key).1 is None ==> last_id(
            db.delete_doc(store, key).0.engine,
            encode_utf8(other),
        ) == last_id(db.engine, encode_utf8(other)),
{
    let sb = encode_utf8(store);
    let ob = encode_utf8(other);
    lemma_store_names(db, other);
    if db.put_plan(store, doc) is Ok && db.committed(
        (db.put_plan(store, doc)->Ok_0).1,
        db.schema,
    ).1 is None {
        let (k, es) = db.put_plan(store, doc)->Ok_0;
        let def = db.store(store)->0;
        lemma_store_names(db, store);
        let pk = primary_key(k)->Ok_0;
        lemma_put_batch(db.engine, def, sb, pk, encoded_doc(doc)->Ok_0, doc, ob, pk);
        lemma_committed_reads(db, es, db.schema, counter_key_of(ob));
    }
    if db.delete_doc(store, key).1 is None {
        let def = db.store(store)->0;
        lemma_store_names(db, store);
        let pk = primary_key(key)->Ok_0;
        lemma_delete_batch(db.engine, def, sb, pk, ob, pk);
        lemma_committed_reads(
            db,
            delete_batch(db.engine, def, sb, pk),
            db.schema,
            counter_key_of(ob),
        );
    }
}

/// A read as of an earlier write is not affected by anything that is written
/// later.
pub proof fn law_earlier_reads_are_repeatable(
    db: DbView,
    es: Seq<Entry>,
    store: Seq<char>,
    key: Json,
    max_seq: u64,
)
    requires
        max_seq < db.engine.next_seq,
        db.committed(es, db.schema).1 is None,
    ensures
        db.committed(es, db.schema).0.read(store, key, max_seq) == db.read(store, key, max_seq),
{
    if primary_key(key) is Ok {
        law_snapshot_reads_are_repeatable(
            db.engine,
            sequenced(es, db.engine.next_seq),
            doc_key_of(encode_utf8(store), primary_key(key)->Ok_0),
            0,
            max_seq,
        );
    }
}

/// A document is not put where a unique index holds one of its values for
/// another document.
pub proof fn law_unique_value_is_refused(
    db: DbView,
    store: Seq<char>,
    doc: Json,
    i: int,
    k: int,
)
    requires
        db.store(store) is Some,
        0 <= i < db.store(store)->0.indexes.len(),
        db.store(store)->0.indexes[i].unique,
        field_at(doc, encode_utf8(db.store(store)->0.key_path)) is Some,
        0 <= k < entered_under(doc, db.store(store)->0.indexes[i]).len(),
        ({
            let def = db.store(store)->0;
            let d = def.indexes[i];
            let pk = primary_key(field_at(doc, encode_utf8(def.key_path))->0);
            pk is Ok && taken_by_other(
                db.engine,
                encode_utf8(store),
                encode_utf8(d.name),
                entered_under(doc, d)[k],
                pk->Ok_0,
            )
        }),
    ensures
        db.put_plan(store, doc) is Err,
        db.add_plan(store, doc) is Err,
{
    let def = db.store(store)->0;
    let pk = primary_key(field_at(doc, encode_utf8(def.key_path))->0)->Ok_0;
    lemma_unique_complaint(db.engine, def.indexes, def.indexes.len(), doc, encode_utf8(store), pk, i);
}

proof fn lemma_unique_complaint(
    v: EngineView,
    indexes: Seq<IndexDefView>,
    n: nat,
    doc: Json,
    store: Seq<u8>,
    pk: Seq<u8>,
    i: int,
)
    requires
        0 <= i < n <= indexes.len(),
        indexes[i].unique,
        any_taken(v, store, encode_utf8(indexes[i].name), entered_under(doc, indexes[i]), pk),
    ensures
        unique_complaint(v, indexes, n, doc, store, pk) is Some,
    decreases n,
{
    if i < n - 1 {
        lemma_unique_complaint(v, indexes, (n - 1) as nat, doc, store, pk, i);
    }
}

/// A definition put among others leaves the names valid.
pub proof fn lemma_stores_with_valid(db: DbView, def: StoreDefView)
    requires
        db.names_valid(),
        has_valid_names(def),
    ensures
        names_ok(stores_with(db.schema, def)),
{
    let p = store_position(db.schema, def.name);
    lemma_store_position(db.schema, def.name);
    let s = stores_with(db.schema, def);
    assert forall|i: int| 0 <= i < s.len() implies has_valid_names(#[trigger] s[i]) by {
        if i < db.schema.len() && i != p {
            assert(s[i] == db.schema[i]);
        }
    }
    assert forall|i: int, j: int| 0 <= i < j < s.len() implies (#[trigger] s[i]).name != (
    #[trigger] s[j]).name by {
        if p < db.schema.len() {
            assert(s[i].name == db.schema[i].name);
            assert(s[j].name == db.schema[j].name);
        } else {
            assert(s[i] == db.schema[i]);
            if j < db.schema.len() {
                assert(s[j] == db.schema[j]);
            } else {
                lemma_no_store_named(db.schema, def.name, i);
            }
        }
    }
}

/// Where a position is the end, no store has the name.
pub proof fn lemma_no_store_named(s: Seq<StoreDefView>, name: Seq<char>, i: int)
    requires
        store_position(s, name) >= s.len(),
        0 <= i < s.len(),
    ensures
        s[i].name != name,
    decreases s.len(),
{
    if i > 0 {
        lemma_no_store_named(s.drop_first(), name, i - 1);
    }
}

/// The position of an index is one with the name, and none where there is none.
pub proof fn lemma_index_position(s: Seq<IndexDefView>, name: Seq<char>)
    ensures
        0 <= index_position(s, name) <= s.len(),
        index_position(s, name) < s.len() ==> s[index_position(s, name)].name == name,
        index_position(s, name) == s.len() ==> forall|i: int|
            0 <= i < s.len() ==> (#[trigger] s[i]).name != name,
    decreases s.len(),
{
    if s.len() > 0 && s.first().name != name {
        let t = s.drop_first();
        lemma_index_position(t, name);
        assert forall|i: int|
            index_position(s, name) == s.len() && 0 <= i < s.len() implies (#[trigger] s[i]).name
            != name by {
            if i > 0 {
                assert(t[i - 1] == s[i]);
            }
        }
    }
}

/// Creating and deleting stores and indexes leaves all names valid.
pub proof fn law_definitions_keep_names_valid(
    db: DbView,
    store: Seq<char>,
    key_path: Seq<char>,
    index: IndexDefView,
)
    requires
        db.names_valid(),
    ensures
        db.create_store(store, key_path).0.names_valid(),
        db.delete_store(store).0.names_valid(),
        db.create_idx(store, index).0.names_valid(),
        db.delete_idx(store, index.name).0.names_valid(),
{
    let fresh = StoreDefView {
        name: store,
        key_path,
        auto_increment: false,
        indexes: Seq::empty(),
        next_auto_id: 0,
    };
    if is_name(encode_utf8(store)) {
        lemma_stores_with_valid(db, fresh);
    }
    let p = store_position(db.schema, store);
    lemma_store_position(db.schema, store);
    let less = stores_without(db.schema, store);
    assert forall|i: int, j: int| 0 <= i < j < less.len() implies (#[trigger] less[i]).name != (
    #[trigger] less[j]).name by {
        let a = if p < db.schema.len() && i >= p {
            i + 1
        } else {
            i
        };
        let b = if p < db.schema.len() && j >= p {
            j + 1
        } else {
            j
        };
        assert(less[i] == db.schema[a]);
        assert(less[j] == db.schema[b]);
    }
    assert forall|i: int| 0 <= i < less.len() implies has_valid_names(#[trigger] less[i]) by {
        if p < db.schema.len() && i >= p {
            assert(less[i] == db.schema[i + 1]);
        } else {
            assert(less[i] == db.schema[i]);
        }
    }
    if db.store(store) is Some {
        let def = db.store(store)->0;
        lemma_store_names(db, store);
        lemma_index_position(def.indexes, index.name);
        let more = with_index_def(def, index);
        if is_name(encode_utf8(index.name)) && index_named(def.indexes, index.name) is None {
            assert(has_valid_names(more)) by {
                assert forall|i: int| 0 <= i < more.indexes.len() implies is_name(
                    encode_utf8((#[trigger] more.indexes[i]).name),
                ) by {
                    if i < def.indexes.len() {
                        assert(more.indexes[i] == def.indexes[i]);
                    }
                }
                assert forall|i: int, j: int| 0 <= i < j < more.indexes.len() implies (
                #[trigger] more.indexes[i]).name != (#[trigger] more.indexes[j]).name by {
                    assert(more.indexes[i] == def.indexes[i]);
                    if j < def.indexes.len() {
                        assert(more.indexes[j] == def.indexes[j]);
                    }
                }
            }
            lemma_stores_with_valid(db, more);
        }
        let k = index_position(def.indexes, index.name);
        if k < def.indexes.len() {
            let fewer = StoreDefView { indexes: def.indexes.remove(k), ..def };
            assert(has_valid_names(fewer)) by {
                assert forall|i: int| 0 <= i < fewer.indexes.len() implies is_name(
                    encode_utf8((#[trigger] fewer.indexes[i]).name),
                ) by {
                    let at = if i < k {
                        i
                    } else {
                        i + 1
                    };
                    assert(fewer.indexes[i] == def.indexes[at]);
                }
                assert forall|i: int, j: int| 0 <= i < j < fewer.indexes.len() implies (
                #[trigger] fewer.indexes[i]).name != (#[trigger] fewer.indexes[j]).name by {
                    let a = if i < k {
                        i
                    } else {
                        i + 1
                    };
                    let b = if j < k {
                        j
                    } else {
                        j + 1
                    };
                    assert(fewer.indexes[i] == def.indexes[a]);
                    assert(fewer.indexes[j] == def.indexes[b]);
                }
            }
            lemma_stores_with_valid(db, fewer);
        }
    }
}

} // verus!
