//! Whatever is done to a database keeps it sound.

use vstd::prelude::*;
use vstd::utf8::encode_utf8;

use crate::engine::EngineView;
use crate::engine_laws::last_for;
use crate::error::{decimal, FlowErrorView};
use crate::jsondb::consistency_laws::{
    law_auto_put_keeps_consistent, law_changes_keep_reads_in_step, law_commit_keeps_consistent,
    law_delete_keeps_consistent, law_put_keeps_consistent, lemma_decimal_zero_free, lemma_store_at,
    sound_writes,
};
use crate::jsondb::db::{content_deletions, key_or_null, DbView};
use crate::jsondb::definition_laws::{
    law_clear_keeps_consistent, law_delete_store_keeps_consistent, lemma_content_deletions,
};
use crate::jsondb::document_laws::{
    has_valid_names, lemma_committed_points, lemma_delete_batch, lemma_no_store_named,
    lemma_put_batch, lemma_same_bytes, lemma_store_names, plain,
};
use crate::jsondb::documents::with_id;
use crate::jsondb::encoding::{
    counter_key_of, doc_key_of, doc_prefix_of, lemma_name_zero_free, primary_key, schema_key_of,
    zero_free,
};
use crate::jsondb::helpers::{delete_batch, next_id, put_batch, records_under, stored_doc};
use crate::jsondb::index_definition_laws::{keyed, law_put_keeps_documents_keyed};
use crate::jsondb::index_laws::{is_content_key, name_of};
use crate::jsondb::key_laws::law_kinds_of_keys_differ;
use crate::jsondb::query_laws::lemma_store_is_readable;
use crate::jsondb::schema::{lemma_store_position, store_position, stores_without, StoreDefView};
use crate::jsondb::schema_laws::law_fresh_database_is_consistent;
use crate::jsondb::transaction::{
    decoded_value, emptied, held, lemma_slot_position, removing, slot_position, snapshot_value,
    stored_keys, with_slot, SlotView, TxView,
};
use crate::jsondb::transaction_laws::{law_commit_takes_effect, lemma_with_slot_distinct};
use crate::jsondb::value::{encoded_doc, reads_back, Json};
use crate::record::{Entry, ScanRangeView};

verus! {

/// A database with nothing in it is sound.
pub proof fn law_fresh_database_is_sound()
    ensures
        DbView::fresh().sound(),
{
    law_fresh_database_is_consistent();
}

/// Putting a document keeps the database sound.
pub proof fn law_put_keeps_sound(db: DbView, store: Seq<char>, doc: Json)
    requires
        db.sound(),
        db.put_plan(store, doc) is Ok,
        reads_back(doc),
        db.committed((db.put_plan(store, doc)->Ok_0).1, db.schema).1 is None,
    ensures
        db.committed((db.put_plan(store, doc)->Ok_0).1, db.schema).0.sound(),
{
    let es = (db.put_plan(store, doc)->Ok_0).1;
    let after = db.committed(es, db.schema).0;
    law_put_keeps_consistent(db, store, doc);
    law_changes_keep_reads_in_step(db, es, db.schema);
    assert forall|i: int| 0 <= i < after.schema.len() implies keyed(
        after.engine,
        #[trigger] after.schema[i],
    ) by {
        assert(keyed(db.engine, db.schema[i]));
        law_put_keeps_documents_keyed(db, store, doc, i);
    }
}

/// The entry, if there is one, is a deletion.
spec fn is_deletion_at_most(e: Option<Entry>) -> bool {
    match e {
        Some(e) => e.op is Delete,
        None => true,
    }
}

/// A batch that at most deletes documents of a store leaves the others under
/// their keys.
proof fn lemma_deletions_keep_keyed(
    db: DbView,
    es: Seq<Entry>,
    schema: Seq<StoreDefView>,
    def: StoreDefView,
)
    requires
        db.engine.seqs_below(),
        plain(es),
        db.committed(es, schema).1 is None,
        keyed(db.engine, def),
        forall|pk: Seq<u8>|
            is_deletion_at_most(#[trigger] last_for(es, doc_key_of(name_of(def), pk), 0)),
    ensures
        keyed(db.committed(es, schema).0.engine, def),
{
    let w = db.committed(es, schema).0.engine;
    assert forall|pk: Seq<u8>| (#[trigger] stored_doc(w, name_of(def), pk)) is Some implies stored_doc(
        db.engine,
        name_of(def),
        pk,
    ) == stored_doc(w, name_of(def), pk) by {
        lemma_committed_points(db, es, schema, doc_key_of(name_of(def), pk), 0);
    }
}

/// Deleting a document keeps the database sound.
pub proof fn law_delete_keeps_sound(db: DbView, store: Seq<char>, key: Json)
    requires
        db.sound(),
        db.delete_doc(store, key).1 is None,
    ensures
        db.delete_doc(store, key).0.sound(),
{
    let def = db.store(store)->0;
    let sb = encode_utf8(store);
    let pk = primary_key(key)->Ok_0;
    let es = delete_batch(db.engine, def, sb, pk);
    let after = db.delete_doc(store, key).0;
    law_delete_keeps_consistent(db, store, key);
    lemma_store_names(db, store);
    lemma_delete_batch(db.engine, def, sb, pk, sb, pk);
    law_changes_keep_reads_in_step(db, es, db.schema);
    assert forall|i: int| 0 <= i < after.schema.len() implies keyed(
        after.engine,
        #[trigger] after.schema[i],
    ) by {
        let d = db.schema[i];
        assert(keyed(db.engine, d));
        assert(has_valid_names(d));
        lemma_name_zero_free(name_of(d));
        assert forall|x: Seq<u8>|
            is_deletion_at_most(#[trigger] last_for(es, doc_key_of(name_of(d), x), 0)) by {
            lemma_delete_batch(db.engine, def, sb, pk, name_of(d), x);
        }
        lemma_deletions_keep_keyed(db, es, db.schema, d);
    }
}

/// Putting a document under the next id keeps the database sound, where the id
/// is found at the key path again. It is not in a document that is no object, or
/// where the key path leads through several fields.
pub proof fn law_auto_put_keeps_sound(db: DbView, store: Seq<char>, doc: Json)
    requires
        db.sound(),
        db.auto_plan(store, doc) is Ok,
        db.committed((db.auto_plan(store, doc)->Ok_0).1, db.schema).1 is None,
        ({
            let id = next_id(db.engine, encode_utf8(store))->Ok_0;
            let path = db.store(store)->0.key_path;
            let with = with_id(doc, path, id);
            &&& reads_back(with)
            &&& primary_key(key_or_null(with, encode_utf8(path))) == Ok::<Seq<u8>, FlowErrorView>(
                encode_utf8(decimal(id as nat)),
            )
        }),
    ensures
        db.committed((db.auto_plan(store, doc)->Ok_0).1, db.schema).0.sound(),
{
    let (key, es) = db.auto_plan(store, doc)->Ok_0;
    let after = db.committed(es, db.schema).0;
    let sb = encode_utf8(store);
    let def = db.store(store)->0;
    let id = next_id(db.engine, sb)->Ok_0;
    let pk = encode_utf8(decimal(id as nat));
    let with = with_id(doc, def.key_path, id);
    let bytes = encoded_doc(with)->Ok_0;
    let batch = put_batch(db.engine, def, sb, pk, bytes, with)->Ok_0;
    law_auto_put_keeps_consistent(db, store, doc);
    lemma_store_names(db, store);
    lemma_put_batch(db.engine, def, sb, pk, bytes, with, sb, pk);
    assert(plain(es)) by {
        assert(es.drop_last() =~= batch);
    }
    law_changes_keep_reads_in_step(db, es, db.schema);
    let at = lemma_store_at(db, store);
    assert forall|i: int| 0 <= i < after.schema.len() implies keyed(
        after.engine,
        #[trigger] after.schema[i],
    ) by {
        let d = db.schema[i];
        assert(keyed(db.engine, d));
        assert(has_valid_names(d));
        lemma_name_zero_free(name_of(d));
        assert forall|x: Seq<u8>|
            (#[trigger] stored_doc(after.engine, name_of(d), x)) is Some implies primary_key(
            key_or_null(stored_doc(after.engine, name_of(d), x)->0, encode_utf8(d.key_path)),
        ) == Ok::<Seq<u8>, FlowErrorView>(x) by {
            let dk = doc_key_of(name_of(d), x);
            lemma_put_batch(db.engine, def, sb, pk, bytes, with, name_of(d), x);
            assert(last_for(es, dk, 0) == last_for(batch, dk, 0)) by {
                assert(es.drop_last() =~= batch);
                law_kinds_of_keys_differ(name_of(d), x, sb, Seq::empty(), Seq::empty(), x);
            }
            lemma_committed_points(db, es, db.schema, dk, 0);
            if name_of(d) == sb {
                lemma_same_bytes(d.name, store);
            }
            if !(name_of(d) == sb && x == pk) {
                assert(stored_doc(db.engine, name_of(d), x) is Some);
            }
        }
    }
}

/// Clearing a store keeps the database sound.
pub proof fn law_clear_keeps_sound(db: DbView, store: Seq<char>)
    requires
        db.sound(),
        db.clear(store).1 is Ok,
    ensures
        db.clear(store).0.sound(),
{
    let def = db.store(store)->0;
    let sb = encode_utf8(store);
    let es = content_deletions(db.engine, def, sb);
    let after = db.clear(store).0;
    law_clear_keeps_consistent(db, store);
    lemma_content_deletions(db.engine, def, sb, sb);
    assert forall|i: int| 0 <= i < after.schema.len() implies keyed(
        after.engine,
        #[trigger] after.schema[i],
    ) by {
        let d = db.schema[i];
        assert(keyed(db.engine, d));
        assert forall|x: Seq<u8>|
            is_deletion_at_most(#[trigger] last_for(es, doc_key_of(name_of(d), x), 0)) by {
            lemma_content_deletions(db.engine, def, sb, doc_key_of(name_of(d), x));
        }
        lemma_deletions_keep_keyed(db, es, db.schema, d);
    }
}

/// The entries that the deletion of a store writes.
spec fn store_deletions(v: EngineView, def: StoreDefView, store: Seq<u8>) -> Seq<Entry> {
    content_deletions(v, def, store).push(Entry::deletion(schema_key_of(store), 0, 0)).push(
        Entry::deletion(counter_key_of(store), 0, 0),
    )
}

proof fn lemma_store_deletions(v: EngineView, def: StoreDefView, store: Seq<u8>, key: Seq<u8>)
    requires
        v.in_step(),
        forall|k: Seq<u8>, ts: i64|
            (#[trigger] v.point(k, ts)) is Some && is_content_key(k) ==> ts == 0,
    ensures
        plain(store_deletions(v, def, store)),
        is_deletion_at_most(last_for(store_deletions(v, def, store), key, 0)),
{
    let content = content_deletions(v, def, store);
    let a = Entry::deletion(schema_key_of(store), 0, 0);
    let b = Entry::deletion(counter_key_of(store), 0, 0);
    lemma_content_deletions(v, def, store, key);
    assert(content.push(a).push(b).drop_last() =~= content.push(a));
    assert(content.push(a).drop_last() =~= content);
    reveal_with_fuel(last_for, 3);
}

/// Deleting a store keeps the database sound.
pub proof fn law_delete_store_keeps_sound(db: DbView, store: Seq<char>)
    requires
        db.sound(),
        db.delete_store(store).1 is None,
    ensures
        db.delete_store(store).0.sound(),
{
    let def = db.store(store)->0;
    let sb = encode_utf8(store);
    let es = store_deletions(db.engine, def, sb);
    let less = stores_without(db.schema, store);
    let after = db.delete_store(store).0;
    law_delete_store_keeps_consistent(db, store);
    lemma_store_deletions(db.engine, def, sb, sb);
    lemma_store_position(db.schema, store);
    let at = store_position(db.schema, store);
    assert forall|i: int| 0 <= i < after.schema.len() implies keyed(
        after.engine,
        #[trigger] after.schema[i],
    ) by {
        let d = less[i];
        if i < at {
            assert(d == db.schema[i]);
        } else {
            assert(d == db.schema[i + 1]);
        }
        assert(keyed(db.engine, d));
        assert forall|x: Seq<u8>|
            is_deletion_at_most(#[trigger] last_for(es, doc_key_of(name_of(d), x), 0)) by {
            lemma_store_deletions(db.engine, def, sb, doc_key_of(name_of(d), x));
        }
        lemma_deletions_keep_keyed(db, es, less, d);
    }
}

/// The slot holds no document, or one that has the slot's key.
pub open spec fn keyed_slot(db: DbView, w: SlotView) -> bool {
    db.store(w.store) matches Some(def) ==> (decoded_value(w.value) matches Ok(Some(doc))
        ==> primary_key(key_or_null(doc, encode_utf8(def.key_path))) == Ok::<
        Seq<u8>,
        FlowErrorView,
    >(w.key))
}

/// What a transaction keeps back can be committed: it is at most one write per
/// document, under a key that can be stored, and every document lies under the
/// key that it has.
pub open spec fn can_be_committed(db: DbView, writes: Seq<SlotView>) -> bool {
    &&& sound_writes(writes)
    &&& forall|i: int| 0 <= i < writes.len() ==> keyed_slot(db, #[trigger] writes[i])
}

/// Committing a transaction keeps the database sound.
pub proof fn law_commit_keeps_sound(tx: TxView, db: DbView)
    requires
        db.sound(),
        can_be_committed(db, tx.writes),
        tx.commit(db).1 is None,
    ensures
        tx.commit(db).0.sound(),
{
    let es = tx.commit_plan(db)->Ok_0;
    let after = tx.commit(db).0;
    law_commit_keeps_consistent(tx, db);
    if es.len() > 0 {
        law_changes_keep_reads_in_step(db, es, db.schema);
    }
    assert forall|i: int| 0 <= i < after.schema.len() implies keyed(
        after.engine,
        #[trigger] after.schema[i],
    ) by {
        let d = db.schema[i];
        assert(keyed(db.engine, d));
        lemma_named_itself(db, i);
        assert forall|x: Seq<u8>|
            (#[trigger] stored_doc(after.engine, name_of(d), x)) is Some implies primary_key(
            key_or_null(stored_doc(after.engine, name_of(d), x)->0, encode_utf8(d.key_path)),
        ) == Ok::<Seq<u8>, FlowErrorView>(x) by {
            law_commit_takes_effect(tx, db, d.name, x);
            let p = slot_position(tx.writes, d.name, x);
            lemma_slot_position(tx.writes, d.name, x);
            if p < tx.writes.len() {
                let w = tx.writes[p];
                assert(keyed_slot(db, w));
                assert(held(tx.writes, d.name, x) == Some(w.value));
                assert(snapshot_value(after.engine, name_of(d), x, u64::MAX) == w.value);
                assert(decoded_value(w.value) == Ok::<Option<Json>, FlowErrorView>(
                    stored_doc(after.engine, name_of(d), x),
                ));
            } else {
                assert(stored_doc(db.engine, name_of(d), x) is Some);
            }
        }
    }
}

/// A store is found under its name.
proof fn lemma_named_itself(db: DbView, i: int)
    requires
        db.names_valid(),
        0 <= i < db.schema.len(),
    ensures
        db.store(db.schema[i].name) == Some(db.schema[i]),
{
    let name = db.schema[i].name;
    lemma_store_position(db.schema, name);
    if db.store(name) is Some {
        let at = lemma_store_at(db, name);
    } else {
        lemma_no_store_named(db.schema, name, i);
    }
}

/// One write more.
proof fn lemma_write_added(db: DbView, s: Seq<SlotView>, slot: SlotView)
    requires
        can_be_committed(db, s),
        zero_free(slot.key),
        keyed_slot(db, slot),
    ensures
        can_be_committed(db, with_slot(s, slot)),
{
    let t = with_slot(s, slot);
    let p = slot_position(s, slot.store, slot.key);
    lemma_slot_position(s, slot.store, slot.key);
    lemma_with_slot_distinct(s, slot);
    assert forall|i: int| 0 <= i < t.len() implies zero_free((#[trigger] t[i]).key) && keyed_slot(
        db,
        t[i],
    ) by {
        if i != p {
            assert(t[i] == s[i]);
            assert(keyed_slot(db, s[i]));
        }
    }
}

/// Several deletions more.
proof fn lemma_deletions_added(
    db: DbView,
    s: Seq<SlotView>,
    store: Seq<char>,
    keys: Seq<Seq<u8>>,
)
    requires
        can_be_committed(db, s),
        forall|i: int| 0 <= i < keys.len() ==> zero_free(#[trigger] keys[i]),
    ensures
        can_be_committed(db, removing(s, store, keys)),
    decreases keys.len(),
{
    if keys.len() > 0 {
        let t = keys.drop_last();
        assert forall|i: int| 0 <= i < t.len() implies zero_free(#[trigger] t[i]) by {
            assert(t[i] == keys[i]);
        }
        lemma_deletions_added(db, s, store, t);
        assert(zero_free(keys[keys.len() - 1]));
        lemma_write_added(
            db,
            removing(s, store, t),
            SlotView { store, key: keys.last(), value: None },
        );
    }
}

/// The keys of stored documents can be stored.
proof fn lemma_stored_keys(db: DbView, store: Seq<char>, i: int)
    requires
        db.sound(),
        db.store(store) is Some,
        0 <= i < stored_keys(db.engine, encode_utf8(store)).len(),
    ensures
        zero_free(stored_keys(db.engine, encode_utf8(store))[i]),
{
    let sb = encode_utf8(store);
    let p = doc_prefix_of(sb);
    let recs = records_under(db.engine, p);
    let own = recs[i].key.skip(p.len() as int);
    let at = lemma_store_at(db, store);
    lemma_store_is_readable(db, store);
    assert(db.engine.scan_agrees(ScanRangeView::of_prefix(p)));
    assert(recs.contains(recs[i]));
    assert(stored_doc(db.engine, sb, own) is Some);
    assert(keyed(db.engine, db.schema[at]));
    assert(stored_keys(db.engine, sb)[i] == own);
}

/// Whatever a transaction puts, adds, deletes, clears or reads: what it keeps
/// back can be committed.
pub proof fn law_transaction_can_be_committed(
    tx: TxView,
    db: DbView,
    store: Seq<char>,
    doc: Json,
    key: Json,
)
    requires
        db.sound(),
        can_be_committed(db, tx.writes),
        reads_back(doc),
    ensures
        tx.put(db, store, doc) is Ok ==> can_be_committed(
            db,
            (tx.put(db, store, doc)->Ok_0).0.writes,
        ),
        tx.add(db, store, doc) is Ok ==> can_be_committed(
            db,
            (tx.add(db, store, doc)->Ok_0).0.writes,
        ),
        can_be_committed(db, tx.delete(db, store, key).0.writes),
        can_be_committed(db, tx.clear(db, store).0.writes),
        can_be_committed(db, tx.get(db, store, key).0.writes),
{
    if tx.keyed(db, store, doc) is Ok && encoded_doc(doc) is Ok {
        let pk = (tx.keyed(db, store, doc)->Ok_0).1;
        let slot = SlotView { store, key: pk, value: Some(encoded_doc(doc)->Ok_0) };
        assert(keyed_slot(db, slot));
        lemma_write_added(db, tx.writes, slot);
    }
    if primary_key(key) is Ok {
        let slot = SlotView { store, key: primary_key(key)->Ok_0, value: None };
        lemma_write_added(db, tx.writes, slot);
    }
    if db.store(store) is Some {
        let keys = stored_keys(db.engine, encode_utf8(store));
        assert forall|i: int| 0 <= i < keys.len() implies zero_free(#[trigger] keys[i]) by {
            lemma_stored_keys(db, store, i);
        }
        lemma_deletions_added(db, tx.writes, store, keys);
        let r = removing(tx.writes, store, keys);
        let t = emptied(r, store);
        assert forall|i: int| 0 <= i < t.len() implies zero_free((#[trigger] t[i]).key)
            && keyed_slot(db, t[i]) && t[i].store == r[i].store && t[i].key == r[i].key by {
            assert(keyed_slot(db, r[i]));
        }
    }
}

/// What a transaction puts under the next id can be committed, where the id is
/// found at the key path again.
pub proof fn law_automatic_ids_can_be_committed(
    tx: TxView,
    db: DbView,
    store: Seq<char>,
    doc: Json,
)
    requires
        can_be_committed(db, tx.writes),
        tx.put_auto(db, store, doc) is Ok,
        ({
            let id = tx.next_id(db, store)->Ok_0;
            let path = db.store(store)->0.key_path;
            let with = with_id(doc, path, id);
            &&& reads_back(with)
            &&& primary_key(key_or_null(with, encode_utf8(path))) == Ok::<Seq<u8>, FlowErrorView>(
                encode_utf8(decimal(id as nat)),
            )
        }),
    ensures
        can_be_committed(db, (tx.put_auto(db, store, doc)->Ok_0).0.writes),
{
    let id = tx.next_id(db, store)->Ok_0;
    let with = with_id(doc, db.store(store)->0.key_path, id);
    let slot = SlotView {
        store,
        key: encode_utf8(decimal(id as nat)),
        value: Some(encoded_doc(with)->Ok_0),
    };
    lemma_decimal_zero_free(id as nat);
    lemma_write_added(db, tx.writes, slot);
}

} // verus!
