//! Bringing stores in line with definitions keeps the database sound.

use vstd::prelude::*;
use vstd::utf8::encode_utf8;

use crate::bytes::has_prefix;
use crate::engine_laws::{last_for, lemma_last_for, lemma_written_seqs_below};
use crate::error::FlowErrorView;
use crate::jsondb::consistency_laws::{
    law_changes_keep_reads_in_step, lemma_no_content, lemma_plain_add, lemma_store_at,
};
use crate::jsondb::db::{backfill, deletions_under, key_or_null, with_index_def, DbView};
use crate::jsondb::definition_laws::{
    law_create_store_keeps_consistent, lemma_deletions_under, lemma_document_prefix,
    lemma_entry_prefix, lemma_no_content_plain, lemma_schema_entry,
};
use crate::jsondb::document_laws::{
    has_valid_names, is_plain_entry, lemma_committed_points, lemma_no_store_named, lemma_same_bytes,
    lemma_store_names, lemma_stores_with_valid, plain,
};
use crate::jsondb::encoding::{
    doc_key_of, doc_prefix_of, idx_key_of, idx_prefix_of, is_name, lemma_name_zero_free,
    primary_key, zero_free,
};
use crate::jsondb::helpers::{plain_record, records_under, stored_doc};
use crate::jsondb::index_definition_laws::{
    is_entry_of, keyed, law_create_index_keeps_consistent, law_delete_index_keeps_consistent,
    lemma_backfill,
};
use crate::jsondb::index_laws::{
    document_key, entered, entry_key, index_agrees, is_content_key, known_key, name_of,
    store_agrees,
};
use crate::jsondb::key_laws::law_document_keys_differ;
use crate::jsondb::schema::{
    index_position, lemma_store_named_with, lemma_store_position, schema_put, IndexDefView,
    StoreDefView,
};
use crate::record::Entry;

verus! {

impl DbView {
    /// Documents and indexes agree, scans and point reads agree, and every
    /// document lies under its key.
    pub open spec fn sound(self) -> bool {
        &&& self.consistent()
        &&& self.engine.in_step()
        &&& forall|i: int|
            0 <= i < self.schema.len() ==> keyed(self.engine, #[trigger] self.schema[i])
    }
}

/// The documents of two databases are the same.
pub open spec fn same_documents(a: DbView, b: DbView) -> bool {
    forall|store: Seq<u8>, pk: Seq<u8>| #[trigger]
        stored_doc(a.engine, store, pk) == stored_doc(b.engine, store, pk)
}

/// A batch that names no document leaves the documents as they are.
proof fn lemma_documents_stay(
    db: DbView,
    es: Seq<Entry>,
    schema: Seq<StoreDefView>,
    store: Seq<u8>,
    pk: Seq<u8>,
)
    requires
        db.engine.seqs_below(),
        plain(es),
        db.committed(es, schema).1 is None,
        forall|j: int|
            0 <= j < es.len() ==> (#[trigger] es[j]).key.len() > 0 && es[j].key[0] != 68,
    ensures
        stored_doc(db.committed(es, schema).0.engine, store, pk) == stored_doc(
            db.engine,
            store,
            pk,
        ),
{
    let key = doc_key_of(store, pk);
    lemma_document_prefix(store, pk);
    lemma_committed_points(db, es, schema, key, 0);
    let i = lemma_last_for(es, key, 0);
    if last_for(es, key, 0) is Some {
        assert(es[i].key == key);
    }
}

/// Documents that stay keep their keys.
proof fn lemma_keyed_stays(
    db: DbView,
    es: Seq<Entry>,
    schema: Seq<StoreDefView>,
    a: StoreDefView,
    b: StoreDefView,
)
    requires
        db.engine.seqs_below(),
        plain(es),
        db.committed(es, schema).1 is None,
        forall|j: int|
            0 <= j < es.len() ==> (#[trigger] es[j]).key.len() > 0 && es[j].key[0] != 68,
        keyed(db.engine, a),
        a.name == b.name,
        a.key_path == b.key_path,
    ensures
        keyed(db.committed(es, schema).0.engine, b),
{
    let w = db.committed(es, schema).0.engine;
    assert forall|pk: Seq<u8>| (#[trigger] stored_doc(w, name_of(b), pk)) is Some implies stored_doc(
        db.engine,
        name_of(a),
        pk,
    ) == stored_doc(w, name_of(b), pk) by {
        lemma_documents_stay(db, es, schema, name_of(b), pk);
    }
}

/// Creating an index, or failing to, keeps the database sound, and all documents
/// as they are.
pub proof fn law_create_index_keeps_sound(db: DbView, store: Seq<char>, index: IndexDefView)
    requires
        db.sound(),
    ensures
        db.create_idx(store, index).0.sound(),
        same_documents(db.create_idx(store, index).0, db),
{
    let (after, e) = db.create_idx(store, index);
    if e is None {
        let def = db.store(store)->0;
        let at = lemma_store_at(db, store);
        assert(keyed(db.engine, db.schema[at]));
        law_create_index_keeps_consistent(db, store, index);
        let sb = encode_utf8(store);
        let ib = encode_utf8(index.name);
        let kp = encode_utf8(def.key_path);
        let docs = records_under(db.engine, doc_prefix_of(sb));
        let more = backfill(docs, docs.len(), index, sb, kp)->Ok_0;
        let def2 = with_index_def(def, index);
        let rec = schema_put(def2)->Ok_0;
        let first = seq![Entry::put(rec, 0)];
        let es = first + more;
        lemma_store_names(db, store);
        lemma_name_zero_free(ib);
        lemma_schema_entry(rec, def2.name);
        lemma_no_content_plain(db.schema, first);
        lemma_backfill(docs, docs.len(), index, sb, kp, sb, sb);
        assert forall|j: int| 0 <= j < more.len() implies is_plain_entry(#[trigger] more[j])
            && more[j].key.len() > 0 && more[j].key[0] == 73 by {
            assert(is_entry_of(more[j], sb, ib));
            let (value, pk) = choose|value: Seq<u8>, pk: Seq<u8>|
                zero_free(pk) && more[j].key == #[trigger] idx_key_of(sb, ib, value, pk);
            lemma_entry_prefix(sb, ib, value, pk);
        }
        lemma_plain_add(first, more);
        assert forall|j: int| 0 <= j < es.len() implies (#[trigger] es[j]).key.len() > 0
            && es[j].key[0] != 68 by {
            if j == 0 {
                assert(es[0] == first[0]);
                assert(rec.key[0] == 83);
            } else {
                assert(es[j] == more[j - 1]);
            }
        }
        lemma_store_position(db.schema, store);
        assert forall|i: int| 0 <= i < after.schema.len() implies keyed(
            after.engine,
            #[trigger] after.schema[i],
        ) by {
            assert(keyed(db.engine, db.schema[i]));
            lemma_keyed_stays(db, es, after.schema, db.schema[i], after.schema[i]);
        }
        assert forall|name: Seq<u8>, pk: Seq<u8>| #[trigger]
            stored_doc(after.engine, name, pk) == stored_doc(db.engine, name, pk) by {
            lemma_documents_stay(db, es, after.schema, name, pk);
        }
    }
}

/// Deleting an index, or failing to, keeps the database sound, and all documents
/// as they are.
pub proof fn law_delete_index_keeps_sound(db: DbView, store: Seq<char>, index: IndexDefView)
    requires
        db.sound(),
    ensures
        db.delete_idx(store, index.name).0.sound(),
        same_documents(db.delete_idx(store, index.name).0, db),
{
    let (after, e) = db.delete_idx(store, index.name);
    if e is None {
        let def = db.store(store)->0;
        let at = lemma_store_at(db, store);
        law_delete_index_keeps_consistent(db, store, index);
        let p = idx_prefix_of(encode_utf8(store), encode_utf8(index.name));
        let less = StoreDefView {
            indexes: def.indexes.remove(index_position(def.indexes, index.name)),
            ..def
        };
        let rec = schema_put(less)->Ok_0;
        let gone = deletions_under(db.engine, p);
        let last = seq![Entry::put(rec, 0)];
        let es = gone.push(Entry::put(rec, 0));
        assert(es =~= gone + last);
        assert(p[0] == 73);
        assert forall|k: Seq<u8>, ts: i64|
            (#[trigger] db.engine.point(k, ts)) is Some && has_prefix(k, p) implies ts == 0 by {
            assert(k.subrange(0, p.len() as int)[0] == k[0]);
            assert(is_content_key(k));
        }
        lemma_deletions_under(db.engine, p, p);
        lemma_schema_entry(rec, less.name);
        lemma_no_content_plain(db.schema, last);
        lemma_plain_add(gone, last);
        assert forall|j: int| 0 <= j < es.len() implies (#[trigger] es[j]).key.len() > 0
            && es[j].key[0] != 68 by {
            if j < gone.len() {
                let k = gone[j].key;
                assert(has_prefix(k, p));
                assert(k.subrange(0, p.len() as int)[0] == k[0]);
            } else {
                assert(rec.key[0] == 83);
            }
        }
        lemma_store_position(db.schema, store);
        assert forall|i: int| 0 <= i < after.schema.len() implies keyed(
            after.engine,
            #[trigger] after.schema[i],
        ) by {
            assert(keyed(db.engine, db.schema[i]));
            lemma_keyed_stays(db, es, after.schema, db.schema[i], after.schema[i]);
        }
        assert forall|name: Seq<u8>, pk: Seq<u8>| #[trigger]
            stored_doc(after.engine, name, pk) == stored_doc(db.engine, name, pk) by {
            lemma_documents_stay(db, es, after.schema, name, pk);
        }
    }
}

/// Creating a store, or failing to, keeps the database sound, and all documents
/// as they are.
pub proof fn law_create_store_keeps_sound(db: DbView, name: Seq<char>, key_path: Seq<char>)
    requires
        db.sound(),
    ensures
        db.create_store(name, key_path).0.sound(),
        same_documents(db.create_store(name, key_path).0, db),
{
    let (after, e) = db.create_store(name, key_path);
    if e is None && db.store(name) is None {
        law_create_store_keeps_consistent(db, name, key_path);
        let def = StoreDefView {
            name,
            key_path,
            auto_increment: false,
            indexes: Seq::empty(),
            next_auto_id: 0,
        };
        let rec = schema_put(def)->Ok_0;
        let es = seq![Entry::put(rec, 0)] + Seq::<Entry>::empty();
        assert(es =~= seq![Entry::put(rec, 0)]);
        assert(rec.key[0] == 83);
        lemma_schema_entry(rec, name);
        lemma_no_content_plain(db.schema, es);
        lemma_store_position(db.schema, name);
        assert(after.schema =~= db.schema.push(def));
        assert forall|i: int| 0 <= i < after.schema.len() implies keyed(
            after.engine,
            #[trigger] after.schema[i],
        ) by {
            if i < db.schema.len() {
                assert(keyed(db.engine, db.schema[i]));
                lemma_keyed_stays(db, es, after.schema, db.schema[i], after.schema[i]);
            } else {
                assert forall|pk: Seq<u8>| (#[trigger] stored_doc(
                    after.engine,
                    name_of(def),
                    pk,
                )) is None by {
                    lemma_documents_stay(db, es, after.schema, name_of(def), pk);
                    lemma_no_documents(db, name, pk);
                }
            }
        }
        assert forall|store: Seq<u8>, pk: Seq<u8>| #[trigger]
            stored_doc(after.engine, store, pk) == stored_doc(db.engine, store, pk) by {
            lemma_documents_stay(db, es, after.schema, store, pk);
        }
    }
}

/// There are no documents of a store that is not there.
proof fn lemma_no_documents(db: DbView, name: Seq<char>, pk: Seq<u8>)
    requires
        db.consistent(),
        db.store(name) is None,
        is_name(encode_utf8(name)),
    ensures
        stored_doc(db.engine, encode_utf8(name), pk) is None,
{
    let sb = encode_utf8(name);
    let key = doc_key_of(sb, pk);
    lemma_document_prefix(sb, pk);
    lemma_store_position(db.schema, name);
    if db.engine.point(key, 0) is Some {
        assert(known_key(db.schema, key));
        let (j, pk2) = choose|j: int, pk2: Seq<u8>|
            0 <= j < db.schema.len() && zero_free(pk2) && key == #[trigger] document_key(
                db.schema,
                j,
                pk2,
            );
        assert(has_valid_names(db.schema[j]));
        lemma_name_zero_free(name_of(db.schema[j]));
        lemma_name_zero_free(sb);
        law_document_keys_differ(sb, pk, name_of(db.schema[j]), pk2);
        lemma_same_bytes(name, db.schema[j].name);
        lemma_no_store_named(db.schema, name, j);
    }
}

/// Storing a definition that differs in what the documents do not depend on
/// keeps the database sound.
pub proof fn lemma_redefined(db: DbView, def: StoreDefView, new: StoreDefView)
    requires
        db.sound(),
        db.store(def.name) == Some(def),
        new.name == def.name,
        new.key_path == def.key_path,
        new.indexes == def.indexes,
    ensures
        db.put_schema(new, Seq::empty()).0.sound(),
        same_documents(db.put_schema(new, Seq::empty()).0, db),
{
    let (after, e) = db.put_schema(new, Seq::empty());
    if e is None {
        let at = lemma_store_at(db, def.name);
        let rec = schema_put(new)->Ok_0;
        let es = seq![Entry::put(rec, 0)] + Seq::<Entry>::empty();
        let v = db.engine;
        let w = after.engine;
        assert(es =~= seq![Entry::put(rec, 0)]);
        assert(rec.key[0] == 83);
        lemma_schema_entry(rec, new.name);
        lemma_no_content_plain(db.schema, es);
        lemma_written_seqs_below(v, es);
        law_changes_keep_reads_in_step(db, es, after.schema);
        assert(has_valid_names(db.schema[at]));
        lemma_stores_with_valid(db, new);
        lemma_store_position(db.schema, def.name);
        assert(after.schema =~= db.schema.update(at, new));
        assert forall|key: Seq<u8>, ts: i64| is_content_key(key) implies #[trigger] w.point(key, ts)
            == v.point(key, ts) by {
            lemma_committed_points(db, es, after.schema, key, ts);
            lemma_no_content(es, key);
        }
        assert forall|store: Seq<u8>, pk: Seq<u8>| #[trigger] stored_doc(w, store, pk)
            == stored_doc(v, store, pk) by {
            lemma_documents_stay(db, es, after.schema, store, pk);
        }
        assert forall|i: int| 0 <= i < after.schema.len() implies store_agrees(
            w,
            #[trigger] after.schema[i],
        ) && keyed(w, after.schema[i]) by {
            let d = db.schema[i];
            assert(store_agrees(v, d));
            assert(keyed(v, d));
            lemma_keyed_stays(db, es, after.schema, d, after.schema[i]);
            assert forall|pk: Seq<u8>|
                (#[trigger] w.point(doc_key_of(name_of(d), pk), 0)) is Some implies stored_doc(
                w,
                name_of(d),
                pk,
            ) is Some by {
                lemma_document_prefix(name_of(d), pk);
                assert(v.point(doc_key_of(name_of(d), pk), 0) is Some);
            }
            assert forall|k: int| 0 <= k < d.indexes.len() implies index_agrees(
                w,
                name_of(d),
                #[trigger] d.indexes[k],
            ) by {
                assert(index_agrees(v, name_of(d), d.indexes[k]));
                assert forall|value: Seq<u8>, pk: Seq<u8>| zero_free(pk) implies #[trigger] w.point(
                    idx_key_of(name_of(d), encode_utf8(d.indexes[k].name), value, pk),
                    0,
                ) == if entered(w, name_of(d), pk, d.indexes[k], value) {
                    Some(
                        plain_record(
                            idx_key_of(name_of(d), encode_utf8(d.indexes[k].name), value, pk),
                            pk,
                        ),
                    )
                } else {
                    None
                } by {
                    let ib = encode_utf8(d.indexes[k].name);
                    lemma_entry_prefix(name_of(d), ib, value, pk);
                    assert(v.point(idx_key_of(name_of(d), ib, value, pk), 0) == w.point(
                        idx_key_of(name_of(d), ib, value, pk),
                        0,
                    ));
                    assert(stored_doc(w, name_of(d), pk) == stored_doc(v, name_of(d), pk));
                }
            }
        }
        assert forall|key: Seq<u8>, ts: i64|
            (#[trigger] w.point(key, ts)) is Some && is_content_key(key) implies ts == 0
            && known_key(after.schema, key) by {
            assert(v.point(key, ts) is Some);
            lemma_known_redefined(db.schema, after.schema, key);
        }
    }
}

/// What is known goes by the names of the stores and of their indexes.
proof fn lemma_known_redefined(a: Seq<StoreDefView>, b: Seq<StoreDefView>, key: Seq<u8>)
    requires
        known_key(a, key),
        a.len() == b.len(),
        forall|i: int|
            0 <= i < a.len() ==> (#[trigger] a[i]).name == b[i].name && a[i].indexes
                == b[i].indexes,
    ensures
        known_key(b, key),
{
    if key.len() > 0 && key[0] == 68 {
        let (i, pk) = choose|i: int, pk: Seq<u8>|
            0 <= i < a.len() && zero_free(pk) && key == #[trigger] document_key(a, i, pk);
        assert(a[i].name == b[i].name);
        assert(key == document_key(b, i, pk));
    }
    if key.len() > 0 && key[0] == 73 {
        let (i, k, value, pk) = choose|i: int, k: int, value: Seq<u8>, pk: Seq<u8>|
            0 <= i < a.len() && 0 <= k < a[i].indexes.len() && zero_free(pk) && key
                == #[trigger] entry_key(a[i], name_of(a[i]), k, value, pk);
        assert(a[i].name == b[i].name);
        assert(key == entry_key(b[i], name_of(b[i]), k, value, pk));
    }
}

pub proof fn lemma_create_missing(
    db: DbView,
    store: Seq<char>,
    have: Seq<IndexDefView>,
    want: Seq<IndexDefView>,
    n: nat,
)
    requires
        db.sound(),
    ensures
        db.create_missing(store, have, want, n).0.sound(),
        same_documents(db.create_missing(store, have, want, n).0, db),
    decreases n,
{
    if 0 < n <= want.len() {
        lemma_create_missing(db, store, have, want, (n - 1) as nat);
        let v = db.create_missing(store, have, want, (n - 1) as nat).0;
        law_create_index_keeps_sound(v, store, want[n - 1]);
    }
}

pub proof fn lemma_delete_extra(
    db: DbView,
    store: Seq<char>,
    have: Seq<IndexDefView>,
    want: Seq<IndexDefView>,
    n: nat,
)
    requires
        db.sound(),
    ensures
        db.delete_extra(store, have, want, n).0.sound(),
        same_documents(db.delete_extra(store, have, want, n).0, db),
    decreases n,
{
    if 0 < n <= have.len() {
        lemma_delete_extra(db, store, have, want, (n - 1) as nat);
        let v = db.delete_extra(store, have, want, (n - 1) as nat).0;
        law_delete_index_keeps_sound(v, store, have[n - 1]);
    }
}

/// Bringing a store in line with a definition, or failing on the way, keeps the
/// database sound, and all documents as they are.
pub proof fn law_apply_keeps_sound(db: DbView, def: StoreDefView)
    requires
        db.sound(),
    ensures
        db.apply(def).0.sound(),
        same_documents(db.apply(def).0, db),
{
    match db.store(def.name) {
        None => {
            law_create_store_keeps_sound(db, def.name, def.key_path);
            let v = db.create_store(def.name, def.key_path).0;
            if db.create_store(def.name, def.key_path).1 is None {
                let bare = StoreDefView {
                    name: def.name,
                    key_path: def.key_path,
                    auto_increment: false,
                    indexes: Seq::empty(),
                    next_auto_id: 0,
                };
                lemma_store_named_with(db.schema, bare);
                assert(v.store(def.name) == Some(bare));
                lemma_redefined(v, bare, StoreDefView { auto_increment: true, ..bare });
            }
            let w = db.create_as(def).0;
            lemma_create_missing(w, def.name, Seq::empty(), def.indexes, def.indexes.len());
        },
        Some(there) => {
            lemma_create_missing(db, def.name, there.indexes, def.indexes, def.indexes.len());
            let v = db.create_missing(
                def.name,
                there.indexes,
                def.indexes,
                def.indexes.len(),
            ).0;
            lemma_delete_extra(v, def.name, there.indexes, def.indexes, there.indexes.len());
        },
    }
}

/// Bringing stores in line with definitions, or failing on the way, keeps the
/// database sound, and all documents as they are.
pub proof fn law_applying_schemas_keeps_sound(db: DbView, defs: Seq<StoreDefView>, n: nat)
    requires
        db.sound(),
    ensures
        db.apply_all(defs, n).0.sound(),
        same_documents(db.apply_all(defs, n).0, db),
    decreases n,
{
    if 0 < n <= defs.len() {
        law_applying_schemas_keeps_sound(db, defs, (n - 1) as nat);
        law_apply_keeps_sound(db.apply_all(defs, (n - 1) as nat).0, defs[n - 1]);
    }
}

/// Whatever the engine did in between: where it gives the same reads, the
/// database is as sound as it was.
pub proof fn law_same_reads_keep_sound(db: DbView, after: DbView)
    requires
        db.sound(),
        after.schema == db.schema,
        after.engine.in_step(),
        forall|key: Seq<u8>, ts: i64| #[trigger]
            after.engine.point(key, ts) == db.engine.point(key, ts),
    ensures
        after.sound(),
{
    let v = db.engine;
    let w = after.engine;
    assert forall|store: Seq<u8>, pk: Seq<u8>| #[trigger] stored_doc(w, store, pk) == stored_doc(
        v,
        store,
        pk,
    ) by {}
    assert forall|i: int| 0 <= i < after.schema.len() implies store_agrees(
        w,
        #[trigger] after.schema[i],
    ) && keyed(w, after.schema[i]) by {
        let d = db.schema[i];
        assert(store_agrees(v, d));
        assert(keyed(v, d));
        assert forall|pk: Seq<u8>|
            (#[trigger] w.point(doc_key_of(name_of(d), pk), 0)) is Some implies stored_doc(
            w,
            name_of(d),
            pk,
        ) is Some by {
            assert(v.point(doc_key_of(name_of(d), pk), 0) is Some);
        }
        assert forall|k: int| 0 <= k < d.indexes.len() implies index_agrees(
            w,
            name_of(d),
            #[trigger] d.indexes[k],
        ) by {
            assert(index_agrees(v, name_of(d), d.indexes[k]));
        }
        assert forall|pk: Seq<u8>|
            (#[trigger] stored_doc(w, name_of(d), pk)) is Some implies primary_key(
            key_or_null(stored_doc(w, name_of(d), pk)->0, encode_utf8(d.key_path)),
        ) == Ok::<Seq<u8>, FlowErrorView>(pk) by {
            assert(stored_doc(v, name_of(d), pk) is Some);
        }
    }
    assert forall|key: Seq<u8>, ts: i64|
        (#[trigger] w.point(key, ts)) is Some && is_content_key(key) implies ts == 0 && known_key(
        after.schema,
        key,
    ) by {
        assert(v.point(key, ts) is Some);
    }
}

} // verus!
