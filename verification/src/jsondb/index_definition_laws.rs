//! Creating an index fills it from the documents that are there; deleting one
//! leaves nothing of it.

use vstd::prelude::*;
use vstd::utf8::encode_utf8;

use crate::bytes::has_prefix;
use crate::engine::EngineView;
use crate::engine_laws::{last_for, lemma_last_for, lemma_last_for_add, lemma_written_seqs_below};
use crate::error::FlowErrorView;
use crate::jsondb::consistency_laws::{
    law_changes_keep_reads_in_step, lemma_no_content, lemma_plain_add, lemma_store_at, no_content,
};
use crate::jsondb::db::{
    backfill, backfill_one, deletions_under, key_or_null, with_index_def, DbView,
};
use crate::jsondb::definition_laws::{
    lemma_deletions_under, lemma_document_prefix, lemma_entry_prefix, lemma_no_content_plain,
    lemma_schema_entry,
};
use crate::jsondb::document_laws::{
    has_valid_names, is_plain_entry, law_definitions_keep_names_valid, lemma_committed_points,
    lemma_index_position, lemma_put_batch, lemma_same_bytes, lemma_store_names, plain,
};
use crate::jsondb::encoding::{
    composite_value, doc_key_of, doc_prefix_of, idx_key_of, idx_prefix_of, is_name,
    lemma_name_zero_free, primary_key, zero_free,
};
use crate::jsondb::helpers::{entered_under, entry_puts, plain_record, records_under, stored_doc};
use crate::jsondb::index_laws::{
    document_key, entered, entry_key, index_agrees, is_content_key, known_key, lemma_one_index,
    name_of, store_agrees,
};
use crate::jsondb::key_laws::{law_entry_keys_differ, lemma_prefixes_differ};
use crate::jsondb::schema::{
    index_named, index_position, lemma_store_position, schema_put, stores_with, IndexDefView,
    StoreDefView,
};
use crate::jsondb::transaction::entered_as;
use crate::jsondb::value::{decoded_doc, encoded_doc, reads_back, Json};
use crate::read_laws::lemma_point_is_of_key;
use crate::record::{law_prefix_scan_is_exact, Entry, RecordView, ScanRangeView};

verus! {

/// Every document of a store lies under the key that it has at the key path.
pub open spec fn keyed(v: EngineView, def: StoreDefView) -> bool {
    forall|pk: Seq<u8>|
        (#[trigger] stored_doc(v, name_of(def), pk)) is Some ==> primary_key(
            key_or_null(stored_doc(v, name_of(def), pk)->0, encode_utf8(def.key_path)),
        ) == Ok::<Seq<u8>, FlowErrorView>(pk)
}

/// The document of a record has the key and is entered under the value.
pub open spec fn fills(
    r: RecordView,
    index: IndexDefView,
    key_path: Seq<u8>,
    value: Seq<u8>,
    pk: Seq<u8>,
) -> bool {
    match decoded_doc(r.value) {
        Ok(doc) => primary_key(key_or_null(doc, key_path)) == Ok::<Seq<u8>, FlowErrorView>(pk)
            && entered_as(doc, index, value),
        Err(_) => false,
    }
}

/// One of the first `n` records fills an entry.
pub open spec fn filled(
    records: Seq<RecordView>,
    n: nat,
    index: IndexDefView,
    key_path: Seq<u8>,
    value: Seq<u8>,
    pk: Seq<u8>,
) -> bool {
    exists|j: int| 0 <= j < n && fills(#[trigger] records[j], index, key_path, value, pk)
}

/// The entries of one index only.
pub open spec fn only_in(es: Seq<Entry>, store: Seq<u8>, name: Seq<u8>) -> bool {
    forall|j: int| 0 <= j < es.len() ==> is_entry_of(#[trigger] es[j], store, name)
}

pub open spec fn is_entry_of(e: Entry, store: Seq<u8>, name: Seq<u8>) -> bool {
    is_plain_entry(e) && exists|value: Seq<u8>, pk: Seq<u8>|
        zero_free(pk) && e.key == #[trigger] idx_key_of(store, name, value, pk)
}

/// What the entries of one document say.
proof fn lemma_backfill_one(
    r: RecordView,
    index: IndexDefView,
    store: Seq<u8>,
    key_path: Seq<u8>,
    value: Seq<u8>,
    pk: Seq<u8>,
)
    requires
        backfill_one(r, index, store, key_path) is Ok,
        zero_free(store),
        zero_free(encode_utf8(index.name)),
        zero_free(pk),
    ensures
        ({
            let es = backfill_one(r, index, store, key_path)->Ok_0;
            let name = encode_utf8(index.name);
            let key = idx_key_of(store, name, value, pk);
            &&& only_in(es, store, name)
            &&& last_for(es, key, 0) == if fills(r, index, key_path, value, pk) {
                Some(Entry::put(plain_record(key, pk), 0))
            } else {
                None
            }
        }),
{
    let es = backfill_one(r, index, store, key_path)->Ok_0;
    let name = encode_utf8(index.name);
    let key = idx_key_of(store, name, value, pk);
    let doc = decoded_doc(r.value)->Ok_0;
    let lists = entered_under(doc, index);
    if lists.len() == 0 {
        assert(!entered_as(doc, index, value));
    } else {
        let own = primary_key(key_or_null(doc, key_path))->Ok_0;
        assert(es == entry_puts(store, name, lists, own));
        assert forall|j: int| 0 <= j < es.len() implies is_entry_of(#[trigger] es[j], store, name) by {
            assert(es[j].key == idx_key_of(store, name, composite_value(lists[j]), own));
        }
        if own == pk {
            lemma_one_index(store, index, doc, pk, name, value);
        } else {
            let i = lemma_last_for(es, key, 0);
            if last_for(es, key, 0) is Some {
                law_entry_keys_differ(
                    store,
                    name,
                    value,
                    pk,
                    store,
                    name,
                    composite_value(lists[i]),
                    own,
                );
            }
        }
    }
}

/// What the entries of the documents of the first `n` records say.
pub proof fn lemma_backfill(
    records: Seq<RecordView>,
    n: nat,
    index: IndexDefView,
    store: Seq<u8>,
    key_path: Seq<u8>,
    value: Seq<u8>,
    pk: Seq<u8>,
)
    requires
        n <= records.len(),
        backfill(records, n, index, store, key_path) is Ok,
        zero_free(store),
        zero_free(encode_utf8(index.name)),
        zero_free(pk),
    ensures
        ({
            let es = backfill(records, n, index, store, key_path)->Ok_0;
            let name = encode_utf8(index.name);
            let key = idx_key_of(store, name, value, pk);
            &&& only_in(es, store, name)
            &&& last_for(es, key, 0) == if filled(records, n, index, key_path, value, pk) {
                Some(Entry::put(plain_record(key, pk), 0))
            } else {
                None
            }
        }),
    decreases n,
{
    if n > 0 {
        let m = (n - 1) as nat;
        let name = encode_utf8(index.name);
        let key = idx_key_of(store, name, value, pk);
        let a = backfill(records, m, index, store, key_path)->Ok_0;
        let b = backfill_one(records[n - 1], index, store, key_path)->Ok_0;
        lemma_backfill(records, m, index, store, key_path, value, pk);
        lemma_backfill_one(records[n - 1], index, store, key_path, value, pk);
        lemma_last_for_add(a, b, key, 0);
        assert forall|j: int| 0 <= j < (a + b).len() implies is_entry_of(
            #[trigger] (a + b)[j],
            store,
            name,
        ) by {
            if j < a.len() {
                assert((a + b)[j] == a[j]);
            } else {
                assert((a + b)[j] == b[j - a.len()]);
            }
        }
        if filled(records, m, index, key_path, value, pk) {
            let j = choose|j: int|
                0 <= j < m && fills(#[trigger] records[j], index, key_path, value, pk);
            assert(0 <= j < n && fills(records[j], index, key_path, value, pk));
        }
        if fills(records[n - 1], index, key_path, value, pk) {
            assert(filled(records, n, index, key_path, value, pk));
        }
        if filled(records, n, index, key_path, value, pk) {
            let j = choose|j: int|
                0 <= j < n && fills(#[trigger] records[j], index, key_path, value, pk);
            if j < m {
                assert(filled(records, m, index, key_path, value, pk));
            }
        }
    }
}

/// The records of a store are its documents.
proof fn lemma_filled_by_documents(
    db: DbView,
    store: Seq<char>,
    index: IndexDefView,
    value: Seq<u8>,
    pk: Seq<u8>,
)
    requires
        db.consistent(),
        db.engine.in_step(),
        db.store(store) is Some,
        keyed(db.engine, db.store(store)->0),
        zero_free(pk),
    ensures
        ({
            let sb = encode_utf8(store);
            let docs = records_under(db.engine, doc_prefix_of(sb));
            filled(
                docs,
                docs.len(),
                index,
                encode_utf8(db.store(store)->0.key_path),
                value,
                pk,
            ) <==> entered(db.engine, sb, pk, index, value)
        }),
{
    let v = db.engine;
    let sb = encode_utf8(store);
    let def = db.store(store)->0;
    let kp = encode_utf8(def.key_path);
    let p = doc_prefix_of(sb);
    let docs = records_under(v, p);
    lemma_store_names(db, store);
    let range = ScanRangeView::of_prefix(p);
    assert(v.scan_agrees(range));
    if filled(docs, docs.len(), index, kp, value, pk) {
        let j = choose|j: int|
            0 <= j < docs.len() && fills(#[trigger] docs[j], index, kp, value, pk);
        let r = docs[j];
        assert(docs.contains(r));
        law_prefix_scan_is_exact(p, r.key, r.ts);
        assert(v.point(r.key, r.ts) == Some(r));
        assert(r.key.subrange(0, p.len() as int)[0] == r.key[0]);
        let own = r.key.skip(p.len() as int);
        assert(r.key =~= doc_key_of(sb, own));
        assert(is_content_key(r.key));
        assert(stored_doc(v, name_of(def), own) is Some);
        assert(own == pk);
    }
    if entered(v, sb, pk, index, value) {
        let dk = doc_key_of(sb, pk);
        let r = v.point(dk, 0)->0;
        lemma_point_is_of_key(v, dk, 0);
        lemma_document_prefix(sb, pk);
        law_prefix_scan_is_exact(p, dk, 0);
        assert(docs.contains(r));
        let j = choose|j: int| 0 <= j < docs.len() && docs[j] == r;
        assert(stored_doc(v, name_of(def), pk) is Some);
        assert(fills(docs[j], index, kp, value, pk));
    }
}

/// Where only entries of one index are written, everything else stays.
proof fn lemma_other_content_stays(
    db: DbView,
    es: Seq<Entry>,
    schema: Seq<StoreDefView>,
    store: Seq<u8>,
    name: Seq<u8>,
    def: StoreDefView,
    skip: int,
)
    requires
        db.consistent(),
        plain(es),
        db.committed(es, schema).1 is None,
        has_valid_names(def),
        store_agrees(db.engine, def),
        zero_free(store),
        zero_free(name),
        forall|key: Seq<u8>|
            is_content_key(key) && !has_prefix(key, idx_prefix_of(store, name)) ==> #[trigger] last_for(es, key, 0) is None,
        name_of(def) != store || forall|k: int|
            0 <= k < def.indexes.len() && k != skip ==> encode_utf8((#[trigger] def.indexes[k]).name) != name,
    ensures
        ({
            let w = db.committed(es, schema).0.engine;
            &&& forall|pk: Seq<u8>|
                #![trigger stored_doc(w, name_of(def), pk)]
                stored_doc(w, name_of(def), pk) == stored_doc(db.engine, name_of(def), pk)
            &&& forall|pk: Seq<u8>|
                (#[trigger] w.point(doc_key_of(name_of(def), pk), 0)) is Some ==> stored_doc(
                    w,
                    name_of(def),
                    pk,
                ) is Some
            &&& forall|k: int|
                0 <= k < def.indexes.len() && (name_of(def) != store || k != skip) ==> index_agrees(
                    w,
                    name_of(def),
                    #[trigger] def.indexes[k],
                )
        }),
{
    let v = db.engine;
    let w = db.committed(es, schema).0.engine;
    let sb = name_of(def);
    lemma_name_zero_free(sb);
    let p = idx_prefix_of(store, name);
    assert forall|pk: Seq<u8>| #[trigger] w.point(doc_key_of(sb, pk), 0) == v.point(
        doc_key_of(sb, pk),
        0,
    ) by {
        let dk = doc_key_of(sb, pk);
        lemma_committed_points(db, es, schema, dk, 0);
        lemma_document_prefix(sb, pk);
        if has_prefix(dk, p) {
            assert(dk.subrange(0, p.len() as int)[0] == dk[0]);
            assert(p[0] == 73);
        }
    }
    assert forall|pk: Seq<u8>|
        #![trigger stored_doc(w, sb, pk)]
        stored_doc(w, sb, pk) == stored_doc(v, sb, pk) by {
        assert(w.point(doc_key_of(sb, pk), 0) == v.point(doc_key_of(sb, pk), 0));
    }
    assert forall|k: int|
        0 <= k < def.indexes.len() && (sb != store || k != skip) implies index_agrees(
        w,
        sb,
        #[trigger] def.indexes[k],
    ) by {
        let kn = encode_utf8(def.indexes[k].name);
        assert(is_name(kn));
        lemma_name_zero_free(kn);
        assert(index_agrees(v, sb, def.indexes[k]));
        assert forall|value: Seq<u8>, pk: Seq<u8>| zero_free(pk) implies #[trigger] w.point(
            idx_key_of(sb, kn, value, pk),
            0,
        ) == if entered(w, sb, pk, def.indexes[k], value) {
            Some(plain_record(idx_key_of(sb, kn, value, pk), pk))
        } else {
            None
        } by {
            let ik = idx_key_of(sb, kn, value, pk);
            lemma_committed_points(db, es, schema, ik, 0);
            lemma_entry_prefix(sb, kn, value, pk);
            if has_prefix(ik, p) {
                let rest = value + seq![0u8] + pk;
                assert(ik =~= idx_prefix_of(sb, kn) + rest);
                assert(ik =~= p + ik.skip(p.len() as int));
                lemma_prefixes_differ(sb, kn, rest, store, name, ik.skip(p.len() as int));
            }
            assert(v.point(ik, 0) == if entered(v, sb, pk, def.indexes[k], value) {
                Some(plain_record(ik, pk))
            } else {
                None
            });
        }
    }
}

/// The batch that creates an index says nothing outside it.
proof fn lemma_creation_batch(
    first: Seq<Entry>,
    more: Seq<Entry>,
    store: Seq<u8>,
    name: Seq<u8>,
    key: Seq<u8>,
)
    requires
        no_content(first),
        only_in(more, store, name),
        is_content_key(key),
    ensures
        last_for(first + more, key, 0) == last_for(more, key, 0),
        !has_prefix(key, idx_prefix_of(store, name)) ==> last_for(more, key, 0) is None,
{
    lemma_last_for_add(first, more, key, 0);
    lemma_no_content(first, key);
    let i = lemma_last_for(more, key, 0);
    if last_for(more, key, 0) is Some {
        assert(is_entry_of(more[i], store, name));
        let (value, pk) = choose|value: Seq<u8>, pk: Seq<u8>|
            zero_free(pk) && more[i].key == #[trigger] idx_key_of(store, name, value, pk);
        lemma_entry_prefix(store, name, value, pk);
    }
}

/// Nothing is there of an index that is not.
proof fn lemma_no_entries_yet(
    db: DbView,
    store: Seq<char>,
    index: Seq<char>,
    value: Seq<u8>,
    pk: Seq<u8>,
)
    requires
        db.consistent(),
        db.store(store) is Some,
        index_named(db.store(store)->0.indexes, index) is None,
        is_name(encode_utf8(index)),
        zero_free(pk),
    ensures
        db.engine.point(idx_key_of(encode_utf8(store), encode_utf8(index), value, pk), 0) is None,
{
    let sb = encode_utf8(store);
    let ib = encode_utf8(index);
    let key = idx_key_of(sb, ib, value, pk);
    lemma_store_names(db, store);
    lemma_name_zero_free(ib);
    lemma_entry_prefix(sb, ib, value, pk);
    let at = lemma_store_at(db, store);
    if db.engine.point(key, 0) is Some {
        let (i, k, val, pk2) = choose|i: int, k: int, val: Seq<u8>, pk2: Seq<u8>|
            0 <= i < db.schema.len() && 0 <= k < db.schema[i].indexes.len() && zero_free(pk2) && key
                == #[trigger] entry_key(db.schema[i], name_of(db.schema[i]), k, val, pk2);
        let d = db.schema[i];
        assert(has_valid_names(d));
        let kn = encode_utf8(d.indexes[k].name);
        assert(is_name(kn));
        lemma_name_zero_free(kn);
        lemma_name_zero_free(name_of(d));
        law_entry_keys_differ(sb, ib, value, pk, name_of(d), kn, val, pk2);
        lemma_same_bytes(store, d.name);
        lemma_same_bytes(index, d.indexes[k].name);
        lemma_index_position(d.indexes, index);
    }
}

/// Creating an index keeps documents and indexes consistent: the new one holds
/// the entries of all documents that are there.
#[verifier::rlimit(40)]
pub proof fn law_create_index_keeps_consistent(db: DbView, store: Seq<char>, index: IndexDefView)
    requires
        db.consistent(),
        db.engine.in_step(),
        db.create_idx(store, index).1 is None,
        keyed(db.engine, db.store(store)->0),
    ensures
        db.create_idx(store, index).0.consistent(),
        db.create_idx(store, index).0.engine.in_step(),
{
    let v = db.engine;
    let after = db.create_idx(store, index).0;
    let w = after.engine;
    let def = db.store(store)->0;
    let sb = encode_utf8(store);
    let ib = encode_utf8(index.name);
    let kp = encode_utf8(def.key_path);
    let docs = records_under(v, doc_prefix_of(sb));
    let more = backfill(docs, docs.len(), index, sb, kp)->Ok_0;
    let def2 = with_index_def(def, index);
    let rec = schema_put(def2)->Ok_0;
    let first = seq![Entry::put(rec, 0)];
    let es = first + more;
    let at = lemma_store_at(db, store);
    lemma_store_names(db, store);
    lemma_name_zero_free(ib);
    law_definitions_keep_names_valid(db, store, store, index);
    lemma_schema_entry(rec, def2.name);
    lemma_no_content_plain(db.schema, first);
    lemma_backfill(docs, docs.len(), index, sb, kp, sb, sb);
    assert(plain(more)) by {
        assert forall|j: int| 0 <= j < more.len() implies is_plain_entry(#[trigger] more[j]) by {
            assert(is_entry_of(more[j], sb, ib));
        }
    }
    lemma_plain_add(first, more);
    lemma_written_seqs_below(v, es);
    law_changes_keep_reads_in_step(db, es, after.schema);
    assert(after.schema == stores_with(db.schema, def2));
    assert(after.schema =~= db.schema.update(at, def2)) by {
        lemma_store_position(db.schema, store);
    }
    assert forall|key: Seq<u8>|
        is_content_key(key) && !has_prefix(key, idx_prefix_of(sb, ib)) implies #[trigger] last_for(
        es,
        key,
        0,
    ) is None by {
        lemma_creation_batch(first, more, sb, ib, key);
    }
    lemma_index_position(def.indexes, index.name);
    assert forall|k: int| 0 <= k < def.indexes.len() implies encode_utf8(
        (#[trigger] def.indexes[k]).name,
    ) != ib by {
        if encode_utf8(def.indexes[k].name) == ib {
            lemma_same_bytes(def.indexes[k].name, index.name);
        }
    }
    assert forall|i: int| 0 <= i < after.schema.len() implies store_agrees(
        w,
        #[trigger] after.schema[i],
    ) by {
        let d = db.schema[i];
        assert(has_valid_names(d));
        assert(store_agrees(v, d));
        if name_of(d) == sb {
            lemma_same_bytes(d.name, store);
        }
        lemma_other_content_stays(db, es, after.schema, sb, ib, d, -1);
        if i == at {
            assert(index_agrees(w, sb, index)) by {
                assert forall|value: Seq<u8>, pk: Seq<u8>| zero_free(pk) implies #[trigger] w.point(
                    idx_key_of(sb, ib, value, pk),
                    0,
                ) == if entered(w, sb, pk, index, value) {
                    Some(plain_record(idx_key_of(sb, ib, value, pk), pk))
                } else {
                    None
                } by {
                    lemma_new_entry(db, store, index, es, value, pk);
                    assert(stored_doc(w, name_of(d), pk) == stored_doc(v, name_of(d), pk));
                }
            }
            assert forall|k: int| 0 <= k < def2.indexes.len() implies index_agrees(
                w,
                sb,
                #[trigger] def2.indexes[k],
            ) by {
                if k < def.indexes.len() {
                    assert(def2.indexes[k] == def.indexes[k]);
                }
            }
        }
    }
    assert forall|key: Seq<u8>, ts: i64|
        (#[trigger] w.point(key, ts)) is Some && is_content_key(key) implies ts == 0 && known_key(
        after.schema,
        key,
    ) by {
        lemma_committed_points(db, es, after.schema, key, ts);
        lemma_known_after_creation(db, after.schema, at, index, es, key, ts);
    }
}

/// What the creation of an index says of one of its entries.
proof fn lemma_new_entry(
    db: DbView,
    store: Seq<char>,
    index: IndexDefView,
    es: Seq<Entry>,
    value: Seq<u8>,
    pk: Seq<u8>,
)
    requires
        db.consistent(),
        db.engine.in_step(),
        db.create_idx(store, index).1 is None,
        keyed(db.engine, db.store(store)->0),
        zero_free(pk),
        plain(es),
        db.create_idx(store, index).0 == db.committed(
            es,
            db.create_idx(store, index).0.schema,
        ).0,
        db.committed(es, db.create_idx(store, index).0.schema).1 is None,
        ({
            let docs = records_under(db.engine, doc_prefix_of(encode_utf8(store)));
            let def = db.store(store)->0;
            es == seq![Entry::put(schema_put(with_index_def(def, index))->Ok_0, 0)] + backfill(
                docs,
                docs.len(),
                index,
                encode_utf8(store),
                encode_utf8(def.key_path),
            )->Ok_0
        }),
    ensures
        ({
            let key = idx_key_of(encode_utf8(store), encode_utf8(index.name), value, pk);
            db.create_idx(store, index).0.engine.point(key, 0) == if entered(
                db.engine,
                encode_utf8(store),
                pk,
                index,
                value,
            ) {
                Some(plain_record(key, pk))
            } else {
                None
            }
        }),
{
    let sb = encode_utf8(store);
    let ib = encode_utf8(index.name);
    let def = db.store(store)->0;
    let kp = encode_utf8(def.key_path);
    let docs = records_under(db.engine, doc_prefix_of(sb));
    let more = backfill(docs, docs.len(), index, sb, kp)->Ok_0;
    let rec = schema_put(with_index_def(def, index))->Ok_0;
    let key = idx_key_of(sb, ib, value, pk);
    lemma_store_names(db, store);
    lemma_name_zero_free(ib);
    lemma_schema_entry(rec, with_index_def(def, index).name);
    lemma_backfill(docs, docs.len(), index, sb, kp, value, pk);
    lemma_entry_prefix(sb, ib, value, pk);
    lemma_creation_batch(seq![Entry::put(rec, 0)], more, sb, ib, key);
    lemma_filled_by_documents(db, store, index, value, pk);
    lemma_no_entries_yet(db, store, index.name, value, pk);
    lemma_committed_points(db, es, db.create_idx(store, index).0.schema, key, 0);
}

/// What is there after an index was created is known.
proof fn lemma_known_after_creation(
    db: DbView,
    schema: Seq<StoreDefView>,
    at: int,
    index: IndexDefView,
    es: Seq<Entry>,
    key: Seq<u8>,
    ts: i64,
)
    requires
        db.consistent(),
        0 <= at < db.schema.len(),
        schema == db.schema.update(at, with_index_def(db.schema[at], index)),
        is_content_key(key),
        last_for(es, key, ts) is Some || db.engine.point(key, ts) is Some,
        plain(es),
        forall|j: int|
            0 <= j < es.len() && is_content_key((#[trigger] es[j]).key) ==> is_entry_of(
                es[j],
                name_of(db.schema[at]),
                encode_utf8(index.name),
            ),
    ensures
        ts == 0,
        known_key(schema, key),
{
    let j = lemma_last_for(es, key, ts);
    let def2 = with_index_def(db.schema[at], index);
    if last_for(es, key, ts) is Some {
        assert(is_plain_entry(es[j]));
        assert(is_entry_of(es[j], name_of(db.schema[at]), encode_utf8(index.name)));
        let (value, pk) = choose|value: Seq<u8>, pk: Seq<u8>|
            zero_free(pk) && es[j].key == #[trigger] idx_key_of(
                name_of(db.schema[at]),
                encode_utf8(index.name),
                value,
                pk,
            );
        let k = db.schema[at].indexes.len() as int;
        assert(def2.indexes[k] == index);
        assert(key == entry_key(schema[at], name_of(schema[at]), k, value, pk));
        assert(key[0] == 73);
    } else {
        assert(known_key(db.schema, key));
        if key[0] == 68 {
            let (i, pk) = choose|i: int, pk: Seq<u8>|
                0 <= i < db.schema.len() && zero_free(pk) && key == #[trigger] document_key(
                    db.schema,
                    i,
                    pk,
                );
            assert(key == document_key(schema, i, pk));
        } else {
            let (i, k, value, pk) = choose|i: int, k: int, value: Seq<u8>, pk: Seq<u8>|
                0 <= i < db.schema.len() && 0 <= k < db.schema[i].indexes.len() && zero_free(pk)
                    && key == #[trigger] entry_key(
                    db.schema[i],
                    name_of(db.schema[i]),
                    k,
                    value,
                    pk,
                );
            assert(schema[i].indexes[k] == db.schema[i].indexes[k]);
            assert(key == entry_key(schema[i], name_of(schema[i]), k, value, pk));
        }
    }
}

/// What is there after an index was deleted is known.
proof fn lemma_known_after_deletion(
    db: DbView,
    schema: Seq<StoreDefView>,
    at: int,
    k: int,
    key: Seq<u8>,
)
    requires
        db.names_valid(),
        0 <= at < db.schema.len(),
        0 <= k < db.schema[at].indexes.len(),
        schema == db.schema.update(
            at,
            (StoreDefView { indexes: db.schema[at].indexes.remove(k), ..db.schema[at] }),
        ),
        is_content_key(key),
        known_key(db.schema, key),
        !has_prefix(
            key,
            idx_prefix_of(name_of(db.schema[at]), encode_utf8(db.schema[at].indexes[k].name)),
        ),
    ensures
        known_key(schema, key),
{
    if key[0] == 68 {
        let (i, pk) = choose|i: int, pk: Seq<u8>|
            0 <= i < db.schema.len() && zero_free(pk) && key == #[trigger] document_key(
                db.schema,
                i,
                pk,
            );
        assert(key == document_key(schema, i, pk));
    } else {
        let (i, q, value, pk) = choose|i: int, q: int, value: Seq<u8>, pk: Seq<u8>|
            0 <= i < db.schema.len() && 0 <= q < db.schema[i].indexes.len() && zero_free(pk) && key
                == #[trigger] entry_key(db.schema[i], name_of(db.schema[i]), q, value, pk);
        let d = db.schema[i];
        if i == at {
            lemma_entry_prefix(name_of(d), encode_utf8(d.indexes[q].name), value, pk);
            let r = if q < k {
                q
            } else {
                q - 1
            };
            assert(schema[i].indexes[r] == d.indexes[q]);
            assert(key == entry_key(schema[i], name_of(schema[i]), r, value, pk));
        } else {
            assert(schema[i] == d);
            assert(key == entry_key(schema[i], name_of(schema[i]), q, value, pk));
        }
    }
}

/// Deleting an index keeps documents and indexes consistent: none of its
/// entries is left.
#[verifier::rlimit(40)]
pub proof fn law_delete_index_keeps_consistent(db: DbView, store: Seq<char>, index: IndexDefView)
    requires
        db.consistent(),
        db.engine.in_step(),
        db.delete_idx(store, index.name).1 is None,
    ensures
        db.delete_idx(store, index.name).0.consistent(),
        db.delete_idx(store, index.name).0.engine.in_step(),
{
    let v = db.engine;
    let after = db.delete_idx(store, index.name).0;
    let w = after.engine;
    let def = db.store(store)->0;
    let sb = encode_utf8(store);
    let ib = encode_utf8(index.name);
    let p = idx_prefix_of(sb, ib);
    let at = lemma_store_at(db, store);
    let k = index_position(def.indexes, index.name);
    lemma_index_position(def.indexes, index.name);
    let less = StoreDefView { indexes: def.indexes.remove(k), ..def };
    let rec = schema_put(less)->Ok_0;
    let gone = deletions_under(v, p);
    let last = seq![Entry::put(rec, 0)];
    let es = gone.push(Entry::put(rec, 0));
    assert(es =~= gone + last);
    lemma_store_names(db, store);
    assert(is_name(encode_utf8(def.indexes[k].name)));
    lemma_name_zero_free(ib);
    law_definitions_keep_names_valid(db, store, store, index);
    lemma_schema_entry(rec, less.name);
    lemma_no_content_plain(db.schema, last);
    assert(p[0] == 73);
    assert forall|key: Seq<u8>, ts: i64|
        (#[trigger] v.point(key, ts)) is Some && has_prefix(key, p) implies ts == 0 by {
        assert(key.subrange(0, p.len() as int)[0] == key[0]);
    }
    lemma_deletions_under(v, p, sb);
    lemma_plain_add(gone, last);
    lemma_written_seqs_below(v, es);
    law_changes_keep_reads_in_step(db, es, after.schema);
    assert(after.schema =~= db.schema.update(at, less)) by {
        lemma_store_position(db.schema, store);
    }
    assert forall|key: Seq<u8>| is_content_key(key) implies #[trigger] last_for(es, key, 0) == if has_prefix(
        key,
        p,
    ) && v.point(key, 0) is Some {
        Some(Entry::deletion(key, 0, 0))
    } else {
        None
    } by {
        lemma_deletions_under(v, p, key);
        lemma_last_for_add(gone, last, key, 0);
        lemma_no_content(last, key);
    }
    assert forall|i: int| 0 <= i < after.schema.len() implies store_agrees(
        w,
        #[trigger] after.schema[i],
    ) by {
        let d = db.schema[i];
        assert(has_valid_names(d));
        assert(store_agrees(v, d));
        if name_of(d) == sb {
            lemma_same_bytes(d.name, store);
            assert forall|q: int| 0 <= q < d.indexes.len() && q != k implies encode_utf8(
                (#[trigger] d.indexes[q]).name,
            ) != ib by {
                if encode_utf8(d.indexes[q].name) == ib {
                    lemma_same_bytes(d.indexes[q].name, index.name);
                    if q < k {
                        assert(d.indexes[q].name != d.indexes[k].name);
                    } else {
                        assert(d.indexes[k].name != d.indexes[q].name);
                    }
                }
            }
        }
        lemma_other_content_stays(db, es, after.schema, sb, ib, d, k);
        if i == at {
            assert forall|q: int| 0 <= q < less.indexes.len() implies index_agrees(
                w,
                sb,
                #[trigger] less.indexes[q],
            ) by {
                let r = if q < k {
                    q
                } else {
                    q + 1
                };
                assert(less.indexes[q] == def.indexes[r]);
            }
        }
    }
    assert forall|key: Seq<u8>, ts: i64|
        (#[trigger] w.point(key, ts)) is Some && is_content_key(key) implies ts == 0 && known_key(
        after.schema,
        key,
    ) by {
        lemma_committed_points(db, es, after.schema, key, ts);
        assert(v.point(key, ts) is Some);
        lemma_known_after_deletion(db, after.schema, at, k, key);
    }
}

/// Putting a document keeps every document under the key that it has.
pub proof fn law_put_keeps_documents_keyed(db: DbView, store: Seq<char>, doc: Json, i: int)
    requires
        db.consistent(),
        0 <= i < db.schema.len(),
        keyed(db.engine, db.schema[i]),
        db.put_plan(store, doc) is Ok,
        reads_back(doc),
        db.committed((db.put_plan(store, doc)->Ok_0).1, db.schema).1 is None,
    ensures
        keyed(db.committed((db.put_plan(store, doc)->Ok_0).1, db.schema).0.engine, db.schema[i]),
{
    let (key, es) = db.put_plan(store, doc)->Ok_0;
    let after = db.committed(es, db.schema).0;
    let def = db.schema[i];
    let sb = encode_utf8(store);
    let pk = primary_key(key)->Ok_0;
    let bytes = encoded_doc(doc)->Ok_0;
    assert(has_valid_names(def));
    lemma_name_zero_free(name_of(def));
    lemma_store_names(db, store);
    let at = lemma_store_at(db, store);
    assert forall|key2: Seq<u8>|
        (#[trigger] stored_doc(after.engine, name_of(def), key2)) is Some implies primary_key(
        key_or_null(stored_doc(after.engine, name_of(def), key2)->0, encode_utf8(def.key_path)),
    ) == Ok::<Seq<u8>, FlowErrorView>(key2) by {
        lemma_put_batch(
            db.engine,
            db.store(store)->0,
            sb,
            pk,
            bytes,
            doc,
            name_of(def),
            key2,
        );
        lemma_committed_points(db, es, db.schema, doc_key_of(name_of(def), key2), 0);
        if name_of(def) == sb {
            lemma_same_bytes(def.name, store);
        }
        if !(name_of(def) == sb && key2 == pk) {
            assert(stored_doc(db.engine, name_of(def), key2) is Some);
        }
    }
}

} // verus!
