//! Creating, clearing and deleting stores and indexes keeps documents and
//! indexes consistent.

use vstd::prelude::*;
use vstd::utf8::encode_utf8;

use crate::bytes::has_prefix;
use crate::engine::EngineView;
use crate::engine_laws::{last_for, lemma_last_for, lemma_last_for_add, lemma_written_seqs_below};
use crate::error::FlowErrorView;
use crate::jsondb::consistency_laws::{
    keys_known, law_changes_keep_reads_in_step, lemma_batches_together, lemma_keys_known_add,
    lemma_no_content, lemma_plain_add, lemma_store_at, no_content,
};
use crate::jsondb::db::{content_deletions, deletions_under, index_deletions, DbView};
use crate::jsondb::document_laws::{
    has_valid_names, is_plain_entry, law_definitions_keep_names_valid, lemma_committed_points,
    lemma_no_store_named, lemma_same_bytes, lemma_store_names, plain,
};
use crate::jsondb::encoding::{
    counter_key_of, doc_key_of, doc_prefix_of, idx_key_of, idx_prefix_of, is_name,
    lemma_name_zero_free, primary_key, schema_key_of, zero_free,
};
use crate::jsondb::helpers::{records_under, stored_doc};
use crate::jsondb::index_laws::{
    document_key, entered, entered_in, entry_key, index_agrees, is_content_key, known_key, leaves,
    lemma_batch_keeps_consistent, lemma_entered_in, lemma_store_after_batch, name_of, old_entered,
    replaces, store_agrees, whole_documents,
};
use crate::jsondb::key_laws::{law_document_keys_differ, lemma_prefixes_differ};
use crate::jsondb::schema::{
    lemma_store_position, schema_put, store_position, IndexDefView, StoreDefView,
};
use crate::jsondb::transaction::entered_as;
use crate::jsondb::value::Json;
use crate::read_laws::lemma_point_is_of_key;
use crate::record::{law_prefix_scan_is_exact, Entry, RecordView, ScanRangeView};

verus! {

/// What the deletion of all keys with a prefix says.
pub proof fn lemma_deletions_under(v: EngineView, p: Seq<u8>, key: Seq<u8>)
    requires
        v.in_step(),
        forall|k: Seq<u8>, ts: i64|
            (#[trigger] v.point(k, ts)) is Some && has_prefix(k, p) ==> ts == 0,
    ensures
        plain(deletions_under(v, p)),
        last_for(deletions_under(v, p), key, 0) == if has_prefix(key, p) && v.point(key, 0) is Some {
            Some(Entry::deletion(key, 0, 0))
        } else {
            None
        },
        forall|j: int|
            0 <= j < deletions_under(v, p).len() ==> has_prefix(
                (#[trigger] deletions_under(v, p)[j]).key,
                p,
            ) && v.point(deletions_under(v, p)[j].key, 0) is Some,
{
    let range = ScanRangeView::of_prefix(p);
    assert(v.scan_agrees(range));
    let recs = records_under(v, p);
    let es = deletions_under(v, p);
    assert forall|j: int| 0 <= j < es.len() implies has_prefix((#[trigger] es[j]).key, p)
        && v.point(es[j].key, 0) is Some && is_plain_entry(es[j]) by {
        assert(recs.contains(recs[j]));
        law_prefix_scan_is_exact(p, recs[j].key, recs[j].ts);
        assert(v.point(recs[j].key, recs[j].ts) == Some(recs[j]));
    }
    let i = lemma_last_for(es, key, 0);
    if has_prefix(key, p) && v.point(key, 0) is Some {
        let r = v.point(key, 0)->0;
        lemma_point_is_of_key(v, key, 0);
        law_prefix_scan_is_exact(p, key, 0);
        assert(recs.contains(r));
        let j = choose|j: int| 0 <= j < recs.len() && recs[j] == r;
        assert(es[j].key == key && es[j].ts == 0);
    }
    if last_for(es, key, 0) is Some {
        assert(es[i] == Entry::deletion(recs[i].key, recs[i].ts, 0));
    }
}

/// What the deletion of all entries of the first `n` indexes says.
proof fn lemma_index_deletions(
    v: EngineView,
    indexes: Seq<IndexDefView>,
    n: nat,
    store: Seq<u8>,
    key: Seq<u8>,
)
    requires
        v.in_step(),
        n <= indexes.len(),
        forall|k: Seq<u8>, ts: i64|
            (#[trigger] v.point(k, ts)) is Some && is_content_key(k) ==> ts == 0,
    ensures
        plain(index_deletions(v, indexes, n, store)),
        last_for(index_deletions(v, indexes, n, store), key, 0) == if v.point(key, 0) is Some
            && under_some(indexes, n, store, key) {
            Some(Entry::deletion(key, 0, 0))
        } else {
            None
        },
        forall|j: int|
            0 <= j < index_deletions(v, indexes, n, store).len() ==> is_content_key(
                (#[trigger] index_deletions(v, indexes, n, store)[j]).key,
            ) && v.point(index_deletions(v, indexes, n, store)[j].key, 0) is Some,
    decreases n,
{
    if n > 0 {
        let m = (n - 1) as nat;
        let p = idx_prefix_of(store, encode_utf8(indexes[n - 1].name));
        let a = index_deletions(v, indexes, m, store);
        let b = deletions_under(v, p);
        lemma_index_deletions(v, indexes, m, store, key);
        assert(p[0] == 73);
        assert forall|k: Seq<u8>, ts: i64|
            (#[trigger] v.point(k, ts)) is Some && has_prefix(k, p) implies ts == 0 by {
            assert(k.subrange(0, p.len() as int)[0] == k[0]);
        }
        lemma_deletions_under(v, p, key);
        lemma_plain_add(a, b);
        lemma_last_for_add(a, b, key, 0);
        if under_some(indexes, m, store, key) {
            let k = choose|k: int|
                0 <= k < m && has_prefix(
                    key,
                    idx_prefix_of(store, encode_utf8((#[trigger] indexes[k]).name)),
                );
            assert(0 <= k < n && has_prefix(
                key,
                idx_prefix_of(store, encode_utf8(indexes[k].name)),
            ));
        }
        if has_prefix(key, p) {
            assert(under_some(indexes, n, store, key));
        }
        if under_some(indexes, n, store, key) {
            let k = choose|k: int|
                0 <= k < n && has_prefix(
                    key,
                    idx_prefix_of(store, encode_utf8((#[trigger] indexes[k]).name)),
                );
            if k < m {
                assert(under_some(indexes, m, store, key));
            }
        }
        assert forall|j: int| 0 <= j < (a + b).len() implies is_content_key(
            (#[trigger] (a + b)[j]).key,
        ) && v.point((a + b)[j].key, 0) is Some by {
            if j < a.len() {
                assert((a + b)[j] == a[j]);
            } else {
                let e = b[j - a.len()];
                assert((a + b)[j] == e);
                assert(has_prefix(e.key, p));
                assert(e.key.subrange(0, p.len() as int)[0] == e.key[0]);
            }
        }
    }
}

/// A key is under the prefix of one of the first `n` indexes.
pub open spec fn under_some(
    indexes: Seq<IndexDefView>,
    n: nat,
    store: Seq<u8>,
    key: Seq<u8>,
) -> bool {
    exists|k: int|
        0 <= k < n && has_prefix(
            key,
            idx_prefix_of(store, encode_utf8((#[trigger] indexes[k]).name)),
        )
}

/// An entry's key is under the prefix of its index.
pub proof fn lemma_entry_prefix(store: Seq<u8>, name: Seq<u8>, value: Seq<u8>, pk: Seq<u8>)
    ensures
        has_prefix(idx_key_of(store, name, value, pk), idx_prefix_of(store, name)),
        idx_key_of(store, name, value, pk)[0] == 73,
{
    let p = idx_prefix_of(store, name);
    assert(idx_key_of(store, name, value, pk).subrange(0, p.len() as int) =~= p);
}

/// A document's key is under the prefix of its store.
pub proof fn lemma_document_prefix(store: Seq<u8>, pk: Seq<u8>)
    ensures
        has_prefix(doc_key_of(store, pk), doc_prefix_of(store)),
        doc_key_of(store, pk)[0] == 68,
{
    let p = doc_prefix_of(store);
    assert(doc_key_of(store, pk).subrange(0, p.len() as int) =~= p);
}

/// What the deletion of a store's content says: everything of it goes.
pub proof fn lemma_content_deletions(v: EngineView, def: StoreDefView, store: Seq<u8>, key: Seq<u8>)
    requires
        v.in_step(),
        forall|k: Seq<u8>, ts: i64|
            (#[trigger] v.point(k, ts)) is Some && is_content_key(k) ==> ts == 0,
    ensures
        plain(content_deletions(v, def, store)),
        last_for(content_deletions(v, def, store), key, 0) == if v.point(key, 0) is Some && (
        has_prefix(key, doc_prefix_of(store)) || under_some(
            def.indexes,
            def.indexes.len(),
            store,
            key,
        )) {
            Some(Entry::deletion(key, 0, 0))
        } else {
            None
        },
        forall|j: int|
            0 <= j < content_deletions(v, def, store).len() ==> is_content_key(
                (#[trigger] content_deletions(v, def, store)[j]).key,
            ) && v.point(content_deletions(v, def, store)[j].key, 0) is Some,
{
    let p = doc_prefix_of(store);
    let a = index_deletions(v, def.indexes, def.indexes.len(), store);
    let b = deletions_under(v, p);
    assert(p[0] == 68);
    assert forall|k: Seq<u8>, ts: i64|
        (#[trigger] v.point(k, ts)) is Some && has_prefix(k, p) implies ts == 0 by {
        assert(k.subrange(0, p.len() as int)[0] == k[0]);
    }
    lemma_index_deletions(v, def.indexes, def.indexes.len(), store, key);
    lemma_deletions_under(v, p, key);
    lemma_plain_add(a, b);
    lemma_last_for_add(a, b, key, 0);
    assert forall|j: int| 0 <= j < (a + b).len() implies is_content_key((#[trigger] (a + b)[j]).key)
        && v.point((a + b)[j].key, 0) is Some by {
        if j < a.len() {
            assert((a + b)[j] == a[j]);
        } else {
            let e = b[j - a.len()];
            assert((a + b)[j] == e);
            assert(has_prefix(e.key, p));
            assert(e.key.subrange(0, p.len() as int)[0] == e.key[0]);
        }
    }
}

/// What clearing a store says of an index entry.
proof fn lemma_cleared_entry(
    db: DbView,
    store: Seq<char>,
    i: int,
    pk: Seq<u8>,
    name: Seq<u8>,
    value: Seq<u8>,
)
    requires
        db.consistent(),
        db.engine.in_step(),
        db.store(store) is Some,
        0 <= i < db.schema.len(),
        zero_free(pk),
        zero_free(name),
    ensures
        last_for(
            content_deletions(db.engine, db.store(store)->0, encode_utf8(store)),
            idx_key_of(name_of(db.schema[i]), name, value, pk),
            0,
        ) == if db.schema[i].name == store && old_entered(
            db.engine,
            db.schema[i],
            name_of(db.schema[i]),
            pk,
            name,
            value,
        ) {
            Some(Entry::deletion(idx_key_of(name_of(db.schema[i]), name, value, pk), 0, 0))
        } else {
            None
        },
{
    let v = db.engine;
    let def = db.store(store)->0;
    let sb = encode_utf8(store);
    let d = db.schema[i];
    let ob = name_of(d);
    let at = lemma_store_at(db, store);
    lemma_store_names(db, store);
    assert(has_valid_names(d));
    lemma_name_zero_free(ob);
    assert(store_agrees(v, d));
    if ob == sb {
        lemma_same_bytes(d.name, store);
    }
    let ik = idx_key_of(ob, name, value, pk);
    lemma_content_deletions(v, def, sb, ik);
    lemma_entry_prefix(ob, name, value, pk);
    let dp = doc_prefix_of(sb);
    assert(!has_prefix(ik, dp)) by {
        if has_prefix(ik, dp) {
            assert(ik.subrange(0, dp.len() as int)[0] == ik[0]);
            assert(dp[0] == 68);
        }
    }
    if under_some(def.indexes, def.indexes.len(), sb, ik) {
        let k = choose|k: int|
            0 <= k < def.indexes.len() && has_prefix(
                ik,
                idx_prefix_of(sb, encode_utf8((#[trigger] def.indexes[k]).name)),
            );
        let kn = encode_utf8(def.indexes[k].name);
        lemma_under_index(def, sb, k, ob, name, value, pk);
        assert(index_agrees(v, ob, d.indexes[k]));
        if let Some(doc) = stored_doc(v, ob, pk) {
            lemma_entered_in(d, k, doc, value);
        }
        assert(v.point(ik, 0) is Some <==> entered(v, ob, pk, d.indexes[k], value));
    } else if d.name == store {
        if let Some(doc) = stored_doc(v, ob, pk) {
            if entered_in(d.indexes, d.indexes.len(), doc, name, value) {
                let k = choose|k: int|
                    0 <= k < d.indexes.len() && encode_utf8((#[trigger] d.indexes[k]).name) == name
                        && entered_as(doc, d.indexes[k], value);
                assert(under_some(def.indexes, def.indexes.len(), sb, ik));
            }
        }
    }
}

/// A key under the prefix of an index is that of one of its entries.
pub proof fn lemma_under_index(
    def: StoreDefView,
    store: Seq<u8>,
    k: int,
    other: Seq<u8>,
    name: Seq<u8>,
    value: Seq<u8>,
    pk: Seq<u8>,
)
    requires
        has_valid_names(def),
        0 <= k < def.indexes.len(),
        zero_free(store),
        zero_free(other),
        zero_free(name),
        has_prefix(
            idx_key_of(other, name, value, pk),
            idx_prefix_of(store, encode_utf8(def.indexes[k].name)),
        ),
    ensures
        other == store,
        name == encode_utf8(def.indexes[k].name),
{
    let kn = encode_utf8(def.indexes[k].name);
    let ik = idx_key_of(other, name, value, pk);
    assert(is_name(kn));
    lemma_name_zero_free(kn);
    let p = idx_prefix_of(store, kn);
    let rest = value + seq![0u8] + pk;
    assert(ik =~= idx_prefix_of(other, name) + rest);
    assert(ik =~= p + ik.skip(p.len() as int));
    lemma_prefixes_differ(other, name, rest, store, kn, ik.skip(p.len() as int));
}

/// What clearing a store says of a document.
proof fn lemma_cleared_document(db: DbView, store: Seq<char>, i: int, pk: Seq<u8>)
    requires
        db.consistent(),
        db.engine.in_step(),
        db.store(store) is Some,
        0 <= i < db.schema.len(),
    ensures
        last_for(
            content_deletions(db.engine, db.store(store)->0, encode_utf8(store)),
            doc_key_of(name_of(db.schema[i]), pk),
            0,
        ) == if db.schema[i].name == store && stored_doc(
            db.engine,
            name_of(db.schema[i]),
            pk,
        ) is Some {
            Some(Entry::deletion(doc_key_of(name_of(db.schema[i]), pk), 0, 0))
        } else {
            None
        },
{
    let v = db.engine;
    let def = db.store(store)->0;
    let sb = encode_utf8(store);
    let d = db.schema[i];
    let ob = name_of(d);
    lemma_store_names(db, store);
    assert(has_valid_names(d));
    lemma_name_zero_free(ob);
    assert(store_agrees(v, d));
    if ob == sb {
        lemma_same_bytes(d.name, store);
    }
    let dk = doc_key_of(ob, pk);
    lemma_content_deletions(v, def, sb, dk);
    lemma_document_prefix(ob, pk);
    if under_some(def.indexes, def.indexes.len(), sb, dk) {
        let k = choose|k: int|
            0 <= k < def.indexes.len() && has_prefix(
                dk,
                idx_prefix_of(sb, encode_utf8((#[trigger] def.indexes[k]).name)),
            );
        let p = idx_prefix_of(sb, encode_utf8(def.indexes[k].name));
        assert(dk.subrange(0, p.len() as int)[0] == dk[0]);
        assert(p[0] == 73);
    }
    if has_prefix(dk, doc_prefix_of(sb)) {
        let r = dk.skip(doc_prefix_of(sb).len() as int);
        assert(dk =~= doc_key_of(sb, r));
        law_document_keys_differ(ob, pk, sb, r);
    }
    if v.point(dk, 0) is Some {
        assert(stored_doc(v, ob, pk) is Some);
    }
}

/// Clearing a store deals with whole documents.
proof fn lemma_clear_is_whole(db: DbView, store: Seq<char>, i: int, pk: Seq<u8>)
    requires
        db.consistent(),
        db.engine.in_step(),
        db.store(store) is Some,
        0 <= i < db.schema.len(),
        zero_free(pk),
    ensures
        ({
            let es = content_deletions(db.engine, db.store(store)->0, encode_utf8(store));
            let d = db.schema[i];
            if d.name == store && stored_doc(db.engine, name_of(d), pk) is Some {
                replaces(es, db.engine, d, pk, None)
            } else {
                leaves(es, name_of(d), pk)
            }
        }),
{
    let v = db.engine;
    let es = content_deletions(v, db.store(store)->0, encode_utf8(store));
    let d = db.schema[i];
    let ob = name_of(d);
    lemma_cleared_document(db, store, i, pk);
    assert forall|name: Seq<u8>, value: Seq<u8>| zero_free(name) implies last_for(
        es,
        #[trigger] idx_key_of(ob, name, value, pk),
        0,
    ) == if d.name == store && old_entered(v, d, ob, pk, name, value) {
        Some(Entry::deletion(idx_key_of(ob, name, value, pk), 0, 0))
    } else {
        None
    } by {
        lemma_cleared_entry(db, store, i, pk, name, value);
    }
}

/// Clearing a store keeps documents and indexes consistent, and leaves nothing
/// in the store.
pub proof fn law_clear_keeps_consistent(db: DbView, store: Seq<char>)
    requires
        db.consistent(),
        db.engine.in_step(),
        db.clear(store).1 is Ok,
    ensures
        db.clear(store).0.consistent(),
        db.clear(store).0.engine.in_step(),
        forall|key: Json| primary_key(key) is Ok ==> #[trigger] db.clear(store).0.read(
            store,
            key,
            u64::MAX,
        ) == Ok::<Option<(Json, RecordView)>, FlowErrorView>(None),
{
    let v = db.engine;
    let def = db.store(store)->0;
    let sb = encode_utf8(store);
    let es = content_deletions(v, def, sb);
    let after = db.clear(store).0;
    lemma_content_deletions(v, def, sb, sb);
    assert forall|j: int| 0 <= j < es.len() implies known_key(db.schema, (#[trigger] es[j]).key) by {
        assert(v.point(es[j].key, 0) is Some);
    }
    assert forall|i: int| 0 <= i < db.schema.len() implies whole_documents(
        es,
        v,
        #[trigger] db.schema[i],
    ) by {
        let d = db.schema[i];
        assert forall|pk: Seq<u8>| zero_free(pk) implies #[trigger] leaves(es, name_of(d), pk)
            || exists|new: Option<Json>| replaces(es, v, d, pk, new) by {
            lemma_clear_is_whole(db, store, i, pk);
        }
    }
    lemma_batch_keeps_consistent(db, es);
    law_changes_keep_reads_in_step(db, es, db.schema);
    assert forall|key: Json| primary_key(key) is Ok implies #[trigger] after.read(
        store,
        key,
        u64::MAX,
    ) == Ok::<Option<(Json, RecordView)>, FlowErrorView>(None) by {
        let pk = primary_key(key)->Ok_0;
        let dk = doc_key_of(sb, pk);
        lemma_committed_points(db, es, db.schema, dk, 0);
        lemma_content_deletions(v, def, sb, dk);
        lemma_document_prefix(sb, pk);
    }
}

/// A cleared store has no documents to count.
pub proof fn law_cleared_store_is_empty(db: DbView, store: Seq<char>)
    requires
        db.consistent(),
        db.engine.in_step(),
        db.clear(store).1 is Ok,
    ensures
        records_under(db.clear(store).0.engine, doc_prefix_of(encode_utf8(store))).len() == 0,
{
    let v = db.engine;
    let sb = encode_utf8(store);
    let def = db.store(store)->0;
    let es = content_deletions(v, def, sb);
    let after = db.clear(store).0;
    let p = doc_prefix_of(sb);
    law_clear_keeps_consistent(db, store);
    lemma_content_deletions(v, def, sb, sb);
    let recs = records_under(after.engine, p);
    if recs.len() > 0 {
        let r = recs[0];
        assert(recs.contains(r));
        assert(after.engine.scan_agrees(ScanRangeView::of_prefix(p)));
        law_prefix_scan_is_exact(p, r.key, r.ts);
        assert(r.key.subrange(0, p.len() as int)[0] == r.key[0]);
        assert(p[0] == 68);
        assert(after.engine.point(r.key, r.ts) is Some);
        lemma_committed_points(db, es, db.schema, r.key, 0);
        lemma_content_deletions(v, def, sb, r.key);
    }
}

/// What is no content says nothing of a document and its entries.
pub proof fn lemma_no_content_leaves(es: Seq<Entry>, store: Seq<u8>, pk: Seq<u8>)
    requires
        no_content(es),
    ensures
        leaves(es, store, pk),
{
    lemma_document_prefix(store, pk);
    lemma_no_content(es, doc_key_of(store, pk));
    assert forall|name: Seq<u8>, value: Seq<u8>| zero_free(name) implies last_for(
        es,
        #[trigger] idx_key_of(store, name, value, pk),
        0,
    ) is None by {
        lemma_entry_prefix(store, name, value, pk);
        lemma_no_content(es, idx_key_of(store, name, value, pk));
    }
}

pub proof fn lemma_no_content_plain(schema: Seq<StoreDefView>, es: Seq<Entry>)
    requires
        no_content(es),
    ensures
        plain(es),
        keys_known(schema, es),
{
    assert forall|j: int| 0 <= j < es.len() implies is_plain_entry(#[trigger] es[j]) by {
        assert(is_plain_entry(es[j]) && !is_content_key(es[j].key));
    }
    assert forall|j: int| 0 <= j < es.len() implies known_key(schema, (#[trigger] es[j]).key) by {
        assert(is_plain_entry(es[j]) && !is_content_key(es[j].key));
    }
}

/// The put of a definition is no content.
pub proof fn lemma_schema_entry(rec: RecordView, name: Seq<char>)
    requires
        rec.key == schema_key_of(encode_utf8(name)),
        rec.ts == 0,
        rec.expire_at == i64::MAX,
    ensures
        no_content(seq![Entry::put(rec, 0)]),
{
    assert(rec.key[0] == 83);
}

/// Creating a store keeps documents and indexes consistent.
pub proof fn law_create_store_keeps_consistent(db: DbView, name: Seq<char>, key_path: Seq<char>)
    requires
        db.consistent(),
        db.create_store(name, key_path).1 is None,
    ensures
        db.create_store(name, key_path).0.consistent(),
        db.engine.in_step() ==> db.create_store(name, key_path).0.engine.in_step(),
{
    let after = db.create_store(name, key_path).0;
    let empty = IndexDefView { name, key_paths: Seq::empty(), unique: false, multi_entry: false };
    law_definitions_keep_names_valid(db, name, key_path, empty);
    if db.store(name) is None {
        let def = StoreDefView {
            name,
            key_path,
            auto_increment: false,
            indexes: Seq::empty(),
            next_auto_id: 0,
        };
        let rec = schema_put(def)->Ok_0;
        let es = seq![Entry::put(rec, 0)] + Seq::<Entry>::empty();
        assert(es =~= seq![Entry::put(rec, 0)]);
        lemma_schema_entry(rec, name);
        lemma_no_content_plain(db.schema, es);
        lemma_written_seqs_below(db.engine, es);
        if db.engine.in_step() {
            law_changes_keep_reads_in_step(
                db,
                es,
                after.schema,
            );
        }
        lemma_store_position(db.schema, name);
        assert(after.schema =~= db.schema.push(def));
        let w = after.engine;
        assert forall|i: int| 0 <= i < after.schema.len() implies store_agrees(
            w,
            #[trigger] after.schema[i],
        ) by {
            if i < db.schema.len() {
                assert(after.schema[i] == db.schema[i]);
                assert forall|pk: Seq<u8>| zero_free(pk) implies #[trigger] leaves(
                    es,
                    name_of(db.schema[i]),
                    pk,
                ) by {
                    lemma_no_content_leaves(es, name_of(db.schema[i]), pk);
                }
                lemma_store_after_batch(db, es, i);
            } else {
                assert forall|pk: Seq<u8>| (#[trigger] w.point(
                    doc_key_of(name_of(def), pk),
                    0,
                )) is None by {
                    let dk = doc_key_of(name_of(def), pk);
                    lemma_committed_points(db, es, after.schema, dk, 0);
                    lemma_no_content_leaves(es, name_of(def), pk);
                    lemma_document_prefix(name_of(def), pk);
                    if db.engine.point(dk, 0) is Some {
                        let (j, pk2) = choose|j: int, pk2: Seq<u8>|
                            0 <= j < db.schema.len() && zero_free(pk2) && dk
                                == #[trigger] document_key(db.schema, j, pk2);
                        assert(has_valid_names(db.schema[j]));
                        lemma_name_zero_free(name_of(db.schema[j]));
                        lemma_name_zero_free(name_of(def));
                        law_document_keys_differ(name_of(def), pk, name_of(db.schema[j]), pk2);
                        lemma_same_bytes(name, db.schema[j].name);
                        lemma_no_store_named(db.schema, name, j);
                    }
                }
            }
        }
        assert forall|key: Seq<u8>, ts: i64|
            (#[trigger] w.point(key, ts)) is Some && is_content_key(key) implies ts == 0
            && known_key(after.schema, key) by {
            lemma_committed_points(db, es, after.schema, key, ts);
            lemma_no_content(es, key);
            assert(db.engine.point(key, ts) is Some);
            lemma_known_in_more(db.schema, after.schema, key);
        }
    }
}

/// What is known in a schema is known in one with more stores at its end.
proof fn lemma_known_in_more(a: Seq<StoreDefView>, b: Seq<StoreDefView>, key: Seq<u8>)
    requires
        known_key(a, key),
        a.len() <= b.len(),
        forall|i: int| 0 <= i < a.len() ==> #[trigger] a[i] == b[i],
    ensures
        known_key(b, key),
{
    if key.len() > 0 && key[0] == 68 {
        let (i, pk) = choose|i: int, pk: Seq<u8>|
            0 <= i < a.len() && zero_free(pk) && key == #[trigger] document_key(a, i, pk);
        assert(key == document_key(b, i, pk));
    }
    if key.len() > 0 && key[0] == 73 {
        let (i, k, value, pk) = choose|i: int, k: int, value: Seq<u8>, pk: Seq<u8>|
            0 <= i < a.len() && 0 <= k < a[i].indexes.len() && zero_free(pk) && key
                == #[trigger] entry_key(a[i], name_of(a[i]), k, value, pk);
        assert(a[i] == b[i]);
        assert(key == entry_key(b[i], name_of(b[i]), k, value, pk));
    }
}

/// The deletion of a store is plain, and deals with whole documents.
pub proof fn lemma_delete_store_batch(db: DbView, store: Seq<char>) -> (es: Seq<Entry>)
    requires
        db.consistent(),
        db.engine.in_step(),
        db.store(store) is Some,
    ensures
        es == content_deletions(db.engine, db.store(store)->0, encode_utf8(store)).push(
            Entry::deletion(schema_key_of(encode_utf8(store)), 0, 0),
        ).push(Entry::deletion(counter_key_of(encode_utf8(store)), 0, 0)),
        plain(es),
        keys_known(db.schema, es),
        forall|i: int| 0 <= i < db.schema.len() ==> whole_documents(es, db.engine, #[trigger] db.schema[i]),
        forall|key: Seq<u8>| is_content_key(key) ==> #[trigger] last_for(es, key, 0) == last_for(
            content_deletions(db.engine, db.store(store)->0, encode_utf8(store)),
            key,
            0,
        ),
{
    let v = db.engine;
    let sb = encode_utf8(store);
    let def = db.store(store)->0;
    let a = content_deletions(v, def, sb);
    let b = seq![
        Entry::deletion(schema_key_of(sb), 0, 0),
        Entry::deletion(counter_key_of(sb), 0, 0),
    ];
    let es = a.push(b[0]).push(b[1]);
    assert(es =~= a + b);
    assert(b[0].key[0] == 83 && b[1].key[0] == 67);
    assert(no_content(b));
    lemma_no_content_plain(db.schema, b);
    lemma_content_deletions(v, def, sb, sb);
    assert(keys_known(db.schema, a)) by {
        assert forall|j: int| 0 <= j < a.len() implies known_key(db.schema, (#[trigger] a[j]).key) by {
            assert(v.point(a[j].key, 0) is Some);
        }
    }
    lemma_plain_add(a, b);
    lemma_keys_known_add(db.schema, a, b);
    assert forall|i: int| 0 <= i < db.schema.len() implies whole_documents(
        es,
        v,
        #[trigger] db.schema[i],
    ) by {
        let d = db.schema[i];
        assert forall|pk: Seq<u8>| zero_free(pk) implies #[trigger] leaves(es, name_of(d), pk)
            || exists|new: Option<Json>| replaces(es, v, d, pk, new) by {
            lemma_clear_is_whole(db, store, i, pk);
            lemma_no_content_leaves(b, name_of(d), pk);
            lemma_batches_together(a, b, v, d, pk, None);
            if replaces(a, v, d, pk, None) {
                assert(replaces(es, v, d, pk, None));
            }
        }
    }
    assert forall|key: Seq<u8>| is_content_key(key) implies #[trigger] last_for(es, key, 0)
        == last_for(a, key, 0) by {
        lemma_last_for_add(a, b, key, 0);
        lemma_no_content(b, key);
    }
    es
}

/// Deleting a store keeps documents and indexes consistent: nothing of the store
/// is left.
pub proof fn law_delete_store_keeps_consistent(db: DbView, store: Seq<char>)
    requires
        db.consistent(),
        db.engine.in_step(),
        db.delete_store(store).1 is None,
    ensures
        db.delete_store(store).0.consistent(),
        db.delete_store(store).0.engine.in_step(),
{
    let after = db.delete_store(store).0;
    let v = db.engine;
    let w = after.engine;
    let sb = encode_utf8(store);
    let def = db.store(store)->0;
    let es = lemma_delete_store_batch(db, store);
    let empty = IndexDefView {
        name: store,
        key_paths: Seq::empty(),
        unique: false,
        multi_entry: false,
    };
    law_definitions_keep_names_valid(db, store, store, empty);
    lemma_written_seqs_below(v, es);
    law_changes_keep_reads_in_step(db, es, after.schema);
    let at = store_position(db.schema, store);
    lemma_store_position(db.schema, store);
    lemma_store_names(db, store);
    assert forall|i: int| 0 <= i < after.schema.len() implies store_agrees(
        w,
        #[trigger] after.schema[i],
    ) by {
        let j = if i < at {
            i
        } else {
            i + 1
        };
        assert(after.schema[i] == db.schema[j]);
        assert(whole_documents(es, v, db.schema[j]));
        lemma_store_after_batch(db, es, j);
    }
    assert forall|key: Seq<u8>, ts: i64|
        (#[trigger] w.point(key, ts)) is Some && is_content_key(key) implies ts == 0 && known_key(
        after.schema,
        key,
    ) by {
        lemma_committed_points(db, es, after.schema, key, ts);
        lemma_content_deletions(v, def, sb, key);
        assert(v.point(key, ts) is Some);
        lemma_known_in_fewer(db.schema, at, key);
    }
}

/// What is known in a schema, and not of one of its stores, is known without
/// that store.
proof fn lemma_known_in_fewer(a: Seq<StoreDefView>, at: int, key: Seq<u8>)
    requires
        known_key(a, key),
        0 <= at < a.len(),
        !has_prefix(key, doc_prefix_of(name_of(a[at]))),
        !under_some(a[at].indexes, a[at].indexes.len(), name_of(a[at]), key),
    ensures
        known_key(a.remove(at), key),
{
    let b = a.remove(at);
    let sb = name_of(a[at]);
    if key.len() > 0 && key[0] == 68 {
        let (i, pk) = choose|i: int, pk: Seq<u8>|
            0 <= i < a.len() && zero_free(pk) && key == #[trigger] document_key(a, i, pk);
        lemma_document_prefix(sb, pk);
        let j = if i < at {
            i
        } else {
            i - 1
        };
        assert(b[j] == a[i]);
        assert(key == document_key(b, j, pk));
    }
    if key.len() > 0 && key[0] == 73 {
        let (i, k, value, pk) = choose|i: int, k: int, value: Seq<u8>, pk: Seq<u8>|
            0 <= i < a.len() && 0 <= k < a[i].indexes.len() && zero_free(pk) && key
                == #[trigger] entry_key(a[i], name_of(a[i]), k, value, pk);
        if i == at {
            lemma_entry_prefix(sb, encode_utf8(a[at].indexes[k].name), value, pk);
            assert(under_some(a[at].indexes, a[at].indexes.len(), sb, key));
        }
        let j = if i < at {
            i
        } else {
            i - 1
        };
        assert(b[j] == a[i]);
        assert(key == entry_key(b[j], name_of(b[j]), k, value, pk));
    }
}

} // verus!
