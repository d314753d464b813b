//! Which changes are accepted, what they give back, and what a transaction shows
//! of them.

use vstd::prelude::*;
use vstd::utf8::encode_utf8;

use crate::bytes::{lemma_be_len, lemma_be_value_of_bytes, lemma_pow256_values};
use crate::engine_laws::{last_for, lemma_last_for, lemma_last_for_add};
use crate::error::decimal;
use crate::jsondb::consistency_laws::{lemma_docs_of_writes, lemma_store_at, sound_writes};
use crate::jsondb::db::DbView;
use crate::jsondb::definition_laws::lemma_document_prefix;
use crate::jsondb::document_laws::{
    is_plain_entry, lemma_committed_points, lemma_put_batch, lemma_same_bytes, lemma_store_names,
    plain,
};
use crate::jsondb::documents::with_id;
use crate::jsondb::encoding::{
    composite_value, counter_key_of, doc_key_of, doc_prefix_of, idx_key_of, idx_value_prefix_of,
    index_value, primary_key, zero_free,
};
use crate::jsondb::encoding_laws::law_composite_values_are_exact;
use crate::jsondb::entry_laws::{
    has_values, law_document_is_entered_under_its_values, lemma_entered_as,
};
use crate::jsondb::helpers::{
    any_taken, counter_put, entered_under, last_id, next_id, plain_record, put_batch, records_under,
    stored_doc, taken_by_other, unique_complaint,
};
use crate::jsondb::index_laws::{entered, store_agrees};
use crate::jsondb::lookup_laws::law_lookup_finds_entries;
use crate::jsondb::schema::IndexDefView;
use crate::jsondb::schema_laws::has_paths;
use crate::jsondb::transaction::{
    all_entries, emptied, entered_as, entry_complaint, first_changed, held, id_in,
    lemma_slot_position, lemma_with_slot, removing, slot_position, snapshot_value, stored_keys,
    taken_in_tx, with_last_id, write_complaint, write_entries, written_docs, SlotView, TxView,
};
use crate::jsondb::transaction_laws::{lemma_all_entries, lemma_written_docs};
use crate::jsondb::transaction_read_laws::{readable, shown};
use crate::jsondb::value::{encoded_doc, field_at, reads_back, Json, NumberView};
use crate::read_laws::lemma_point_is_of_key;
use crate::record::{law_prefix_scan_is_exact, ScanRangeView};

verus! {

/// Two documents have values in an index that sort alike.
pub open spec fn share_values(a: Json, b: Json, d: IndexDefView) -> bool {
    exists|x: Seq<Json>, y: Seq<Json>|
        #[trigger] has_values(a, d, x) && #[trigger] has_values(b, d, y) && forall|i: int|
            0 <= i < x.len() ==> index_value(#[trigger] x[i]) == index_value(y[i])
}

/// Another document than that of `pk` is stored that shares its values in a
/// unique index with the document.
pub open spec fn clashes(db: DbView, store: Seq<char>, d: IndexDefView, doc: Json, pk: Seq<u8>) -> bool {
    exists|other: Seq<u8>|
        zero_free(other) && other != pk && (#[trigger] stored_doc(
            db.engine,
            encode_utf8(store),
            other,
        )) is Some && share_values(
            doc,
            stored_doc(db.engine, encode_utf8(store), other)->0,
            d,
        )
}

/// Documents share values exactly where one is entered under an encoding of the
/// values of the other.
proof fn lemma_share_values(a: Json, b: Json, d: IndexDefView)
    requires
        d.key_paths.len() > 0,
    ensures
        share_values(a, b, d) <==> exists|x: Seq<Json>| #[trigger]
            has_values(a, d, x) && entered_as(b, d, composite_value(x)),
{
    if share_values(a, b, d) {
        let (x, y) = choose|x: Seq<Json>, y: Seq<Json>|
            #[trigger] has_values(a, d, x) && #[trigger] has_values(b, d, y) && forall|i: int|
                0 <= i < x.len() ==> index_value(#[trigger] x[i]) == index_value(y[i]);
        law_composite_values_are_exact(x, y);
        lemma_entered_as(b, d, composite_value(x));
        assert(has_values(b, d, y) && composite_value(y) == composite_value(x));
    }
    if exists|x: Seq<Json>| #[trigger] has_values(a, d, x) && entered_as(b, d, composite_value(x)) {
        let x = choose|x: Seq<Json>| #[trigger]
            has_values(a, d, x) && entered_as(b, d, composite_value(x));
        lemma_entered_as(b, d, composite_value(x));
        let y = choose|y: Seq<Json>| #[trigger]
            has_values(b, d, y) && composite_value(y) == composite_value(x);
        law_composite_values_are_exact(x, y);
    }
}

/// Values are taken in an index exactly where another document is entered under
/// them.
proof fn lemma_taken_values(db: DbView, store: Seq<char>, k: int, vals: Seq<Json>, pk: Seq<u8>)
    requires
        db.consistent(),
        db.engine.in_step(),
        db.store(store) is Some,
        0 <= k < db.store(store)->0.indexes.len(),
        vals.len() == db.store(store)->0.indexes[k].key_paths.len(),
        vals.len() > 0,
    ensures
        ({
            let sb = encode_utf8(store);
            let d = db.store(store)->0.indexes[k];
            taken_by_other(db.engine, sb, encode_utf8(d.name), vals, pk) <==> exists|other: Seq<u8>|
                zero_free(other) && other != pk && #[trigger] entered(
                    db.engine,
                    sb,
                    other,
                    d,
                    composite_value(vals),
                )
        }),
{
    let v = db.engine;
    let sb = encode_utf8(store);
    let d = db.store(store)->0.indexes[k];
    let ib = encode_utf8(d.name);
    let enc = composite_value(vals);
    let found = records_under(v, idx_value_prefix_of(sb, ib, enc));
    if taken_by_other(v, sb, ib, vals, pk) {
        let i = choose|i: int| 0 <= i < found.len() && (#[trigger] found[i]).value != pk;
        assert(found.contains(found[i]));
        law_lookup_finds_entries(db, store, k, vals, found[i]);
        let other = choose|other: Seq<u8>|
            zero_free(other) && found[i] == plain_record(
                #[trigger] idx_key_of(sb, ib, enc, other),
                other,
            ) && entered(v, sb, other, d, enc);
        assert(entered(v, sb, other, d, enc));
    }
    if exists|other: Seq<u8>|
        zero_free(other) && other != pk && #[trigger] entered(v, sb, other, d, enc) {
        let other = choose|other: Seq<u8>|
            zero_free(other) && other != pk && #[trigger] entered(v, sb, other, d, enc);
        let r = plain_record(idx_key_of(sb, ib, enc, other), other);
        law_lookup_finds_entries(db, store, k, vals, r);
        assert(found.contains(r));
        let i = choose|i: int| 0 <= i < found.len() && found[i] == r;
        assert(found[i].value != pk);
    }
}

/// One of a document's values is taken exactly where the document clashes.
pub proof fn lemma_any_taken(db: DbView, store: Seq<char>, k: int, doc: Json, pk: Seq<u8>)
    requires
        db.consistent(),
        db.engine.in_step(),
        db.store(store) is Some,
        0 <= k < db.store(store)->0.indexes.len(),
        db.store(store)->0.indexes[k].key_paths.len() > 0,
    ensures
        ({
            let d = db.store(store)->0.indexes[k];
            any_taken(
                db.engine,
                encode_utf8(store),
                encode_utf8(d.name),
                entered_under(doc, d),
                pk,
            ) <==> clashes(db, store, d, doc, pk)
        }),
{
    let v = db.engine;
    let sb = encode_utf8(store);
    let d = db.store(store)->0.indexes[k];
    let ib = encode_utf8(d.name);
    let all = entered_under(doc, d);
    law_document_is_entered_under_its_values(doc, d);
    if any_taken(v, sb, ib, all, pk) {
        let i = choose|i: int|
            0 <= i < all.len() && taken_by_other(v, sb, ib, #[trigger] all[i], pk);
        assert(all.contains(all[i]));
        assert(has_values(doc, d, all[i]));
        lemma_taken_values(db, store, k, all[i], pk);
        let other = choose|other: Seq<u8>|
            zero_free(other) && other != pk && #[trigger] entered(
                v,
                sb,
                other,
                d,
                composite_value(all[i]),
            );
        lemma_share_values(doc, stored_doc(v, sb, other)->0, d);
    }
    if clashes(db, store, d, doc, pk) {
        let other = choose|other: Seq<u8>|
            zero_free(other) && other != pk && (#[trigger] stored_doc(v, sb, other)) is Some
                && share_values(doc, stored_doc(v, sb, other)->0, d);
        let there = stored_doc(v, sb, other)->0;
        lemma_share_values(doc, there, d);
        let x = choose|x: Seq<Json>| #[trigger]
            has_values(doc, d, x) && entered_as(there, d, composite_value(x));
        assert(all.contains(x));
        let i = choose|i: int| 0 <= i < all.len() && all[i] == x;
        lemma_taken_values(db, store, k, x, pk);
        assert(entered(v, sb, other, d, composite_value(x)));
        assert(taken_by_other(v, sb, ib, all[i], pk));
    }
}

pub proof fn lemma_unique_complaint(
    db: DbView,
    store: Seq<char>,
    n: nat,
    doc: Json,
    pk: Seq<u8>,
)
    requires
        db.consistent(),
        db.engine.in_step(),
        db.store(store) is Some,
        n <= db.store(store)->0.indexes.len(),
        forall|k: int|
            0 <= k < db.store(store)->0.indexes.len() ==> (
            #[trigger] db.store(store)->0.indexes[k]).key_paths.len() > 0,
    ensures
        unique_complaint(
            db.engine,
            db.store(store)->0.indexes,
            n,
            doc,
            encode_utf8(store),
            pk,
        ) is None <==> forall|k: int|
            0 <= k < n && (#[trigger] db.store(store)->0.indexes[k]).unique ==> !clashes(
                db,
                store,
                db.store(store)->0.indexes[k],
                doc,
                pk,
            ),
    decreases n,
{
    if n > 0 {
        lemma_unique_complaint(db, store, (n - 1) as nat, doc, pk);
        assert(db.store(store)->0.indexes[n - 1].key_paths.len() > 0);
        lemma_any_taken(db, store, n - 1, doc, pk);
    }
}

/// A document is put exactly where the store is there, the document has a key
/// that can be one, it can be written as JSON, and no other document of the
/// store shares its values in a unique index. What is given back is the key.
pub proof fn law_put_is_accepted(db: DbView, store: Seq<char>, doc: Json)
    requires
        db.consistent(),
        db.engine.in_step(),
        db.store(store) is Some ==> forall|k: int|
            0 <= k < db.store(store)->0.indexes.len() ==> (
            #[trigger] db.store(store)->0.indexes[k]).key_paths.len() > 0,
    ensures
        ({
            let def = db.store(store)->0;
            let key = field_at(doc, encode_utf8(def.key_path));
            &&& db.put_plan(store, doc) is Ok <==> db.store(store) is Some && key is Some
                && primary_key(key->0) is Ok && encoded_doc(doc) is Ok && forall|k: int|
                0 <= k < def.indexes.len() && (#[trigger] def.indexes[k]).unique ==> !clashes(
                    db,
                    store,
                    def.indexes[k],
                    doc,
                    primary_key(key->0)->Ok_0,
                )
            &&& db.put_plan(store, doc) is Ok ==> Some((db.put_plan(store, doc)->Ok_0).0) == key
        }),
{
    if db.store(store) is Some {
        let def = db.store(store)->0;
        let key = field_at(doc, encode_utf8(def.key_path));
        if key is Some && primary_key(key->0) is Ok {
            let pk = primary_key(key->0)->Ok_0;
            lemma_unique_complaint(db, store, def.indexes.len(), doc, pk);
        }
    }
}

/// Ids are given out only by stores that are made for it, the first being 1 and
/// each one more than the last.
pub proof fn law_ids_start_at_one(db: DbView, store: Seq<char>, doc: Json)
    ensures
        db.store(store) is Some && !db.store(store)->0.auto_increment ==> db.auto_plan(
            store,
            doc,
        ) is Err,
        db.store(store) is None ==> db.auto_plan(store, doc) is Err,
        db.auto_plan(store, doc) is Ok && db.engine.point(
            counter_key_of(encode_utf8(store)),
            0,
        ) is None ==> (db.auto_plan(store, doc)->Ok_0).0 == Json::Number(NumberView::PosInt(1)),
{
}

/// A document that was put under an id is stored under it, with the id in its
/// key field, and no other document is changed.
pub proof fn law_put_under_an_id_is_stored(
    db: DbView,
    store: Seq<char>,
    doc: Json,
    other: Seq<char>,
    pk: Seq<u8>,
)
    requires
        db.consistent(),
        db.auto_plan(store, doc) is Ok,
        db.committed((db.auto_plan(store, doc)->Ok_0).1, db.schema).1 is None,
        db.store(other) is Some,
    ensures
        ({
            let (key, es) = db.auto_plan(store, doc)->Ok_0;
            let after = db.committed(es, db.schema).0;
            let id = next_id(db.engine, encode_utf8(store))->Ok_0;
            let with = with_id(doc, db.store(store)->0.key_path, id);
            &&& key == Json::Number(NumberView::PosInt(id))
            &&& reads_back(with) ==> stored_doc(
                after.engine,
                encode_utf8(store),
                encode_utf8(decimal(id as nat)),
            ) == Some(with)
            &&& other != store || pk != encode_utf8(decimal(id as nat)) ==> stored_doc(
                after.engine,
                encode_utf8(other),
                pk,
            ) == stored_doc(db.engine, encode_utf8(other), pk)
        }),
{
    let (key, es) = db.auto_plan(store, doc)->Ok_0;
    let sb = encode_utf8(store);
    let ob = encode_utf8(other);
    let def = db.store(store)->0;
    let id = next_id(db.engine, sb)->Ok_0;
    let own = encode_utf8(decimal(id as nat));
    let with = with_id(doc, def.key_path, id);
    let bytes = encoded_doc(with)->Ok_0;
    let c = counter_put(sb, id);
    let first = es.drop_last();
    assert(es.last() == c);
    assert(first =~= put_batch(db.engine, def, sb, own, bytes, with)->Ok_0);
    assert(c.key[0] == 67);
    lemma_store_names(db, store);
    lemma_store_names(db, other);
    lemma_put_batch(db.engine, def, sb, own, bytes, with, sb, own);
    lemma_put_batch(db.engine, def, sb, own, bytes, with, ob, pk);
    assert(doc_key_of(sb, own)[0] == 68 && doc_key_of(ob, pk)[0] == 68);
    assert(plain(es)) by {
        assert forall|j: int| 0 <= j < es.len() implies
            is_plain_entry(#[trigger] es[j]) by {
            if j < first.len() {
                assert(es[j] == first[j]);
                assert(is_plain_entry(first[j]));
            }
        }
    }
    assert(last_for(es, doc_key_of(sb, own), 0) == last_for(first, doc_key_of(sb, own), 0));
    assert(last_for(es, doc_key_of(ob, pk), 0) == last_for(first, doc_key_of(ob, pk), 0));
    lemma_committed_points(db, es, db.schema, doc_key_of(sb, own), 0);
    lemma_committed_points(db, es, db.schema, doc_key_of(ob, pk), 0);
    if sb == ob {
        lemma_same_bytes(store, other);
    }
}

/// A transaction shows a document that it has put, and all others as before.
pub proof fn law_transaction_shows_its_puts(
    tx: TxView,
    db: DbView,
    store: Seq<char>,
    doc: Json,
    other: Seq<char>,
    pk: Seq<u8>,
)
    requires
        tx.put(db, store, doc) is Ok,
    ensures
        ({
            let (after, key) = tx.put(db, store, doc)->Ok_0;
            &&& Some(key) == field_at(doc, encode_utf8(db.store(store)->0.key_path))
            &&& reads_back(doc) ==> shown(after, db, store, primary_key(key)->Ok_0) == Some(doc)
            &&& other != store || pk != primary_key(key)->Ok_0 ==> shown(after, db, other, pk)
                == shown(tx, db, other, pk)
        }),
{
    let (after, key) = tx.put(db, store, doc)->Ok_0;
    let own = primary_key(key)->Ok_0;
    let slot = SlotView { store, key: own, value: Some(encoded_doc(doc)->Ok_0) };
    lemma_with_slot(tx.writes, slot, store, own);
    lemma_with_slot(tx.writes, slot, other, pk);
}

/// A transaction that may write puts a document exactly where the store is
/// there, the document has a key that can be one, and it can be written as JSON.
pub proof fn law_transaction_put_is_accepted(tx: TxView, db: DbView, store: Seq<char>, doc: Json)
    ensures
        ({
            let key = field_at(doc, encode_utf8(db.store(store)->0.key_path));
            tx.put(db, store, doc) is Ok <==> !(tx.mode is ReadOnly) && db.store(store) is Some
                && key is Some && primary_key(key->0) is Ok && encoded_doc(doc) is Ok
        }),
{
}

/// A document is added where the transaction shows none under its key, as if it
/// were put, and is refused where it shows one.
pub proof fn law_transaction_adds_what_is_not_there(
    tx: TxView,
    db: DbView,
    store: Seq<char>,
    doc: Json,
)
    requires
        db.consistent(),
        readable(tx),
        tx.put(db, store, doc) is Ok,
    ensures
        ({
            let pk = primary_key((tx.put(db, store, doc)->Ok_0).1)->Ok_0;
            &&& shown(tx, db, store, pk) is Some ==> tx.add(db, store, doc) is Err
            &&& shown(tx, db, store, pk) is None ==> tx.add(db, store, doc) == tx.put(
                db,
                store,
                doc,
            )
        }),
{
    let pk = primary_key((tx.put(db, store, doc)->Ok_0).1)->Ok_0;
    let sb = encode_utf8(store);
    lemma_slot_position(tx.writes, store, pk);
    if held(tx.writes, store, pk) is Some {
        lemma_docs_of_writes(tx.writes, tx.writes.len(), slot_position(tx.writes, store, pk));
    } else {
        let at = lemma_store_at(db, store);
        assert(store_agrees(db.engine, db.schema[at]));
        if db.engine.point(doc_key_of(sb, pk), 0) is Some {
            assert(stored_doc(db.engine, sb, pk) is Some);
        }
    }
}

/// A transaction shows nothing of a document that it has deleted, and all others
/// as before.
pub proof fn law_transaction_shows_its_deletions(
    tx: TxView,
    db: DbView,
    store: Seq<char>,
    key: Json,
    other: Seq<char>,
    pk: Seq<u8>,
)
    requires
        tx.delete(db, store, key).1 is None,
    ensures
        ({
            let after = tx.delete(db, store, key).0;
            &&& shown(after, db, store, primary_key(key)->Ok_0) is None
            &&& other != store || pk != primary_key(key)->Ok_0 ==> shown(after, db, other, pk)
                == shown(tx, db, other, pk)
        }),
{
    let own = primary_key(key)->Ok_0;
    let slot = SlotView { store, key: own, value: None };
    lemma_with_slot(tx.writes, slot, store, own);
    lemma_with_slot(tx.writes, slot, other, pk);
}

/// What is held once keys were removed.
proof fn lemma_removed(
    s: Seq<SlotView>,
    store: Seq<char>,
    keys: Seq<Seq<u8>>,
    other: Seq<char>,
    pk: Seq<u8>,
)
    ensures
        held(removing(s, store, keys), other, pk) == if other == store && keys.contains(pk) {
            Some(None)
        } else {
            held(s, other, pk)
        },
    decreases keys.len(),
{
    if keys.len() > 0 {
        let t = keys.drop_last();
        let slot = SlotView { store, key: keys.last(), value: None };
        lemma_removed(s, store, t, other, pk);
        lemma_with_slot(removing(s, store, t), slot, other, pk);
        if keys.contains(pk) && pk != keys.last() {
            let i = choose|i: int| 0 <= i < keys.len() && keys[i] == pk;
            assert(t[i] == pk);
        }
        if t.contains(pk) {
            let i = choose|i: int| 0 <= i < t.len() && t[i] == pk;
            assert(keys[i] == pk);
        }
        if pk == keys.last() {
            assert(keys[keys.len() - 1] == pk);
        }
    }
}

/// What is held once nothing is put in a store.
proof fn lemma_emptied(s: Seq<SlotView>, store: Seq<char>, other: Seq<char>, pk: Seq<u8>)
    ensures
        held(emptied(s, store), other, pk) == match held(s, other, pk) {
            Some(v) => if other == store {
                Some(None)
            } else {
                Some(v)
            },
            None => None,
        },
    decreases s.len(),
{
    let t = emptied(s, store);
    lemma_slot_position(s, other, pk);
    lemma_slot_position(t, other, pk);
    if s.len() > 0 {
        let a = s.drop_first();
        lemma_emptied(a, store, other, pk);
        lemma_slot_position(a, other, pk);
        lemma_slot_position(emptied(a, store), other, pk);
        assert(t.drop_first() =~= emptied(a, store));
        assert(t.first().store == s.first().store && t.first().key == s.first().key);
        if !(s.first().store == other && s.first().key == pk) {
            let i = slot_position(a, other, pk);
            if i < a.len() {
                assert(a[i] == s[i + 1]);
            }
            let j = slot_position(emptied(a, store), other, pk);
            if j < a.len() {
                assert(emptied(a, store)[j] == t[j + 1]);
            }
        }
    }
}

/// A transaction shows nothing of a store that it has cleared, and all other
/// stores as before.
pub proof fn law_transaction_shows_a_cleared_store_empty(
    tx: TxView,
    db: DbView,
    store: Seq<char>,
    other: Seq<char>,
    pk: Seq<u8>,
)
    requires
        db.consistent(),
        db.engine.in_step(),
        tx.clear(db, store).1 is None,
    ensures
        shown(tx.clear(db, store).0, db, store, pk) is None,
        other != store ==> shown(tx.clear(db, store).0, db, other, pk) == shown(
            tx,
            db,
            other,
            pk,
        ),
{
    let sb = encode_utf8(store);
    let keys = stored_keys(db.engine, sb);
    let less = removing(tx.writes, store, keys);
    lemma_removed(tx.writes, store, keys, store, pk);
    lemma_emptied(less, store, store, pk);
    lemma_removed(tx.writes, store, keys, other, pk);
    lemma_emptied(less, store, other, pk);
    if stored_doc(db.engine, sb, pk) is Some {
        let v = db.engine;
        let p = doc_prefix_of(sb);
        let key = doc_key_of(sb, pk);
        let r = v.point(key, 0)->0;
        let recs = records_under(v, p);
        lemma_point_is_of_key(v, key, 0);
        lemma_document_prefix(sb, pk);
        law_prefix_scan_is_exact(p, key, 0);
        assert(v.scan_agrees(ScanRangeView::of_prefix(p)));
        assert(recs.contains(r));
        let i = choose|i: int| 0 <= i < recs.len() && recs[i] == r;
        assert(keys[i] =~= pk);
        assert(keys.contains(pk));
    }
}

proof fn lemma_last_id_set(ids: Seq<(Seq<char>, u64)>, store: Seq<char>, id: u64, other: Seq<char>)
    ensures
        id_in(with_last_id(ids, store, id), other) == if other == store {
            Some(id)
        } else {
            id_in(ids, other)
        },
    decreases ids.len(),
{
    let out = with_last_id(ids, store, id);
    if ids.len() == 0 {
        assert(out.drop_first() =~= ids);
    } else if ids.first().0 == store {
        assert(out.first() == (store, id));
        assert(out.drop_first() =~= ids.drop_first());
    } else {
        lemma_last_id_set(ids.drop_first(), store, id, other);
        assert(out.first() == ids.first());
        assert(out.drop_first() =~= with_last_id(ids.drop_first(), store, id));
    }
}

/// In a transaction, too, each id is one more than the last that the store has
/// given out; the transaction shows the document under it, with the id in its
/// key field.
pub proof fn law_transaction_ids_rise_by_one(tx: TxView, db: DbView, store: Seq<char>, doc: Json)
    requires
        tx.put_auto(db, store, doc) is Ok,
    ensures
        ({
            let (after, key) = tx.put_auto(db, store, doc)->Ok_0;
            let before: int = match id_in(tx.ids, store) {
                Some(n) => n as int,
                None => last_id(db.engine, encode_utf8(store))->Ok_0 as int,
            };
            let id = (before + 1) as u64;
            let with = with_id(doc, db.store(store)->0.key_path, id);
            &&& db.store(store) is Some && db.store(store)->0.auto_increment
            &&& before < u64::MAX
            &&& key == Json::Number(NumberView::PosInt(id))
            &&& id_in(after.ids, store) == Some(id)
            &&& forall|other: Seq<char>|
                other != store ==> #[trigger] id_in(after.ids, other) == id_in(tx.ids, other)
            &&& reads_back(with) ==> shown(after, db, store, encode_utf8(decimal(id as nat)))
                == Some(with)
        }),
{
    let (after, key) = tx.put_auto(db, store, doc)->Ok_0;
    let id = tx.next_id(db, store)->Ok_0;
    let own = encode_utf8(decimal(id as nat));
    let with = with_id(doc, db.store(store)->0.key_path, id);
    let slot = SlotView { store, key: own, value: Some(encoded_doc(with)->Ok_0) };
    lemma_with_slot(tx.writes, slot, store, own);
    lemma_last_id_set(tx.ids, store, id, store);
    assert forall|other: Seq<char>| other != store implies #[trigger] id_in(after.ids, other)
        == id_in(tx.ids, other) by {
        lemma_last_id_set(tx.ids, store, id, other);
    }
}

/// A write of a transaction clashes: another document that is stored, or that
/// another write puts in the same store, shares its values in a unique index.
pub open spec fn write_clashes(
    tx: TxView,
    db: DbView,
    docs: Seq<Option<Json>>,
    k: int,
    d: IndexDefView,
) -> bool {
    ||| clashes(db, tx.writes[k].store, d, docs[k]->0, tx.writes[k].key)
    ||| exists|j: int|
        #![trigger docs[j]]
        0 <= j < docs.len() && docs[j] is Some && tx.writes[j].store == tx.writes[k].store
            && tx.writes[j].key != tx.writes[k].key && share_values(docs[k]->0, docs[j]->0, d)
}

proof fn lemma_entry_complaint(
    db: DbView,
    writes: Seq<SlotView>,
    docs: Seq<Option<Json>>,
    k: int,
    d: IndexDefView,
    lists: Seq<Seq<Json>>,
    n: nat,
)
    requires
        n <= lists.len(),
    ensures
        entry_complaint(db.engine, writes, docs, k, d, lists, n) is None <==> forall|i: int|
            0 <= i < n ==> !taken_by_other(
                db.engine,
                encode_utf8(writes[k].store),
                encode_utf8(d.name),
                #[trigger] lists[i],
                writes[k].key,
            ) && !taken_in_tx(writes, docs, k, d, composite_value(lists[i])),
    decreases n,
{
    if n > 0 {
        lemma_entry_complaint(db, writes, docs, k, d, lists, (n - 1) as nat);
    }
}

/// One unique index takes the document of a write exactly where it does not
/// clash.
proof fn lemma_write_clashes(tx: TxView, db: DbView, docs: Seq<Option<Json>>, k: int, m: int)
    requires
        db.consistent(),
        db.engine.in_step(),
        0 <= k < tx.writes.len(),
        docs.len() == tx.writes.len(),
        docs[k] is Some,
        db.store(tx.writes[k].store) is Some,
        0 <= m < db.store(tx.writes[k].store)->0.indexes.len(),
        db.store(tx.writes[k].store)->0.indexes[m].key_paths.len() > 0,
    ensures
        ({
            let d = db.store(tx.writes[k].store)->0.indexes[m];
            let lists = entered_under(docs[k]->0, d);
            entry_complaint(db.engine, tx.writes, docs, k, d, lists, lists.len()) is None
                <==> !write_clashes(tx, db, docs, k, d)
        }),
{
    let store = tx.writes[k].store;
    let pk = tx.writes[k].key;
    let sb = encode_utf8(store);
    let d = db.store(store)->0.indexes[m];
    let ib = encode_utf8(d.name);
    let doc = docs[k]->0;
    let lists = entered_under(doc, d);
    lemma_entry_complaint(db, tx.writes, docs, k, d, lists, lists.len());
    lemma_any_taken(db, store, m, doc, pk);
    law_document_is_entered_under_its_values(doc, d);
    if entry_complaint(db.engine, tx.writes, docs, k, d, lists, lists.len()) is None {
        if clashes(db, store, d, doc, pk) {
            let i = choose|i: int|
                0 <= i < lists.len() && taken_by_other(db.engine, sb, ib, #[trigger] lists[i], pk);
            assert(false);
        }
        if write_clashes(tx, db, docs, k, d) {
            let j = choose|j: int|
                #![trigger docs[j]]
                0 <= j < docs.len() && docs[j] is Some && tx.writes[j].store == store
                    && tx.writes[j].key != pk && share_values(doc, docs[j]->0, d);
            lemma_share_values(doc, docs[j]->0, d);
            let x = choose|x: Seq<Json>| #[trigger]
                has_values(doc, d, x) && entered_as(docs[j]->0, d, composite_value(x));
            assert(lists.contains(x));
            let i = choose|i: int| 0 <= i < lists.len() && lists[i] == x;
            assert(taken_in_tx(tx.writes, docs, k, d, composite_value(lists[i])));
        }
    }
    if !write_clashes(tx, db, docs, k, d) {
        assert forall|i: int| 0 <= i < lists.len() implies !taken_by_other(
            db.engine,
            sb,
            ib,
            #[trigger] lists[i],
            pk,
        ) && !taken_in_tx(tx.writes, docs, k, d, composite_value(lists[i])) by {
            assert(lists.contains(lists[i]));
            if taken_by_other(db.engine, sb, ib, lists[i], pk) {
                assert(any_taken(db.engine, sb, ib, lists, pk));
            }
            if taken_in_tx(tx.writes, docs, k, d, composite_value(lists[i])) {
                let j = choose|j: int|
                    #![trigger docs[j]]
                    0 <= j < docs.len() && docs[j] is Some && tx.writes[j].store == store
                        && tx.writes[j].key != pk && entered_as(
                        docs[j]->0,
                        d,
                        composite_value(lists[i]),
                    );
                assert(has_values(doc, d, lists[i]));
                lemma_share_values(doc, docs[j]->0, d);
            }
        }
    }
}

proof fn lemma_write_complaint(
    tx: TxView,
    db: DbView,
    docs: Seq<Option<Json>>,
    k: int,
    n: nat,
)
    requires
        db.consistent(),
        db.engine.in_step(),
        0 <= k < tx.writes.len(),
        docs.len() == tx.writes.len(),
        docs[k] is Some,
        db.store(tx.writes[k].store) is Some,
        n <= db.store(tx.writes[k].store)->0.indexes.len(),
        forall|m: int|
            0 <= m < db.store(tx.writes[k].store)->0.indexes.len() ==> (#[trigger] db.store(
                tx.writes[k].store,
            )->0.indexes[m]).key_paths.len() > 0,
    ensures
        write_complaint(
            db.engine,
            tx.writes,
            docs,
            k,
            db.store(tx.writes[k].store)->0.indexes,
            n,
        ) is None <==> forall|m: int|
            0 <= m < n && (#[trigger] db.store(tx.writes[k].store)->0.indexes[m]).unique
                ==> !write_clashes(tx, db, docs, k, db.store(tx.writes[k].store)->0.indexes[m]),
    decreases n,
{
    if n > 0 {
        lemma_write_complaint(tx, db, docs, k, (n - 1) as nat);
        assert(db.store(tx.writes[k].store)->0.indexes[n - 1].key_paths.len() > 0);
        lemma_write_clashes(tx, db, docs, k, n - 1);
    }
}

/// A write can be carried out: its store is there, and where it puts a document
/// this clashes in no unique index.
pub open spec fn can_be_written(tx: TxView, db: DbView, docs: Seq<Option<Json>>, k: int) -> bool {
    db.store(tx.writes[k].store) is Some && (docs[k] is Some ==> forall|m: int|
        0 <= m < db.store(tx.writes[k].store)->0.indexes.len() && (#[trigger] db.store(
            tx.writes[k].store,
        )->0.indexes[m]).unique ==> !write_clashes(
            tx,
            db,
            docs,
            k,
            db.store(tx.writes[k].store)->0.indexes[m],
        ))
}

proof fn lemma_writes_accepted(tx: TxView, db: DbView, docs: Seq<Option<Json>>, n: nat)
    requires
        db.consistent(),
        db.engine.in_step(),
        docs.len() == tx.writes.len(),
        n <= tx.writes.len(),
        all_paths(db),
    ensures
        all_entries(db, tx.writes, docs, n) is Ok <==> forall|k: int|
            0 <= k < n ==> #[trigger] can_be_written(tx, db, docs, k),
    decreases n,
{
    if n > 0 {
        let k = n - 1;
        lemma_writes_accepted(tx, db, docs, (n - 1) as nat);
        assert(can_be_written(tx, db, docs, k) <==> write_entries(
            db,
            tx.writes,
            docs,
            k,
        ) is Ok) by {
            if db.store(tx.writes[k].store) is Some && docs[k] is Some {
                let def = db.store(tx.writes[k].store)->0;
                let at = lemma_store_at(db, tx.writes[k].store);
                assert forall|m: int| 0 <= m < def.indexes.len() implies (
                #[trigger] def.indexes[m]).key_paths.len() > 0 by {
                    assert(has_paths(db.schema[at]));
                }
                lemma_write_complaint(tx, db, docs, k, def.indexes.len());
            }
        }
    }
}

/// Every index of every store has a path.
pub open spec fn all_paths(db: DbView) -> bool {
    forall|i: int|
        0 <= i < db.schema.len() ==> has_paths(#[trigger] db.schema[i])
}

/// A transaction can be committed exactly where no document that it has read
/// was changed since, what it has written can be read, and each of its writes
/// can be carried out.
pub proof fn law_commit_is_accepted(tx: TxView, db: DbView)
    requires
        db.consistent(),
        db.engine.in_step(),
        all_paths(db),
    ensures
        tx.commit_plan(db) is Ok <==> (forall|i: int|
            0 <= i < tx.reads.len() ==> snapshot_value(
                db.engine,
                encode_utf8((#[trigger] tx.reads[i]).store),
                tx.reads[i].key,
                u64::MAX,
            ) == tx.reads[i].value) && readable(tx) && forall|k: int|
            0 <= k < tx.writes.len() ==> #[trigger] can_be_written(
                tx,
                db,
                written_docs(tx.writes, tx.writes.len())->Ok_0,
                k,
            ),
{
    lemma_reads_unchanged(tx.reads, db, 0);
    if readable(tx) {
        let docs = written_docs(tx.writes, tx.writes.len())->Ok_0;
        if tx.writes.len() > 0 {
            lemma_docs_of_writes(tx.writes, tx.writes.len(), 0);
        }
        lemma_writes_accepted(tx, db, docs, tx.writes.len());
    }
}

proof fn lemma_reads_unchanged(reads: Seq<SlotView>, db: DbView, from: int)
    requires
        0 <= from <= reads.len(),
    ensures
        from <= first_changed(reads, db.engine, from) <= reads.len(),
        first_changed(reads, db.engine, from) == reads.len() <==> forall|i: int|
            from <= i < reads.len() ==> snapshot_value(
                db.engine,
                encode_utf8((#[trigger] reads[i]).store),
                reads[i].key,
                u64::MAX,
            ) == reads[i].value,
    decreases reads.len() - from,
{
    if from < reads.len() && snapshot_value(
        db.engine,
        encode_utf8(reads[from].store),
        reads[from].key,
        u64::MAX,
    ) == reads[from].value {
        lemma_reads_unchanged(reads, db, from + 1);
    }
}

/// No store has given out two last ids.
pub open spec fn distinct_ids(ids: Seq<(Seq<char>, u64)>) -> bool {
    forall|i: int, j: int| 0 <= i < j < ids.len() ==> (#[trigger] ids[i]).0 != (#[trigger] ids[j]).0
}

/// The ids that a transaction gives out are those of different stores.
pub proof fn law_one_last_id_per_store(ids: Seq<(Seq<char>, u64)>, store: Seq<char>, id: u64)
    requires
        distinct_ids(ids),
    ensures
        distinct_ids(with_last_id(ids, store, id)),
        forall|i: int|
            0 <= i < with_last_id(ids, store, id).len() ==> (#[trigger] with_last_id(
                ids,
                store,
                id,
            )[i]).0 == store || exists|j: int|
                0 <= j < ids.len() && (#[trigger] ids[j]).0 == with_last_id(ids, store, id)[i].0,
    decreases ids.len(),
{
    let out = with_last_id(ids, store, id);
    if ids.len() > 0 && ids.first().0 == store {
        assert forall|i: int| 0 <= i < out.len() implies (#[trigger] out[i]).0 == ids[i].0 by {}
        assert forall|i: int, j: int| 0 <= i < j < out.len() implies (#[trigger] out[i]).0 != (
        #[trigger] out[j]).0 by {
            assert(ids[i].0 != ids[j].0);
        }
        assert forall|i: int| 0 <= i < out.len() implies (#[trigger] out[i]).0 == store || exists|
            j: int,
        | 0 <= j < ids.len() && (#[trigger] ids[j]).0 == out[i].0 by {
            assert(ids[i].0 == out[i].0);
        }
    } else if ids.len() > 0 {
        let t = ids.drop_first();
        assert(distinct_ids(t)) by {
            assert forall|i: int, j: int| 0 <= i < j < t.len() implies (#[trigger] t[i]).0 != (
            #[trigger] t[j]).0 by {
                assert(t[i] == ids[i + 1] && t[j] == ids[j + 1]);
            }
        }
        law_one_last_id_per_store(t, store, id);
        let rest = with_last_id(t, store, id);
        assert forall|i: int| 0 <= i < rest.len() implies (#[trigger] rest[i]).0 == store || exists|
            j: int,
        | 1 <= j < ids.len() && (#[trigger] ids[j]).0 == rest[i].0 by {
            if rest[i].0 != store {
                let j = choose|j: int| 0 <= j < t.len() && (#[trigger] t[j]).0 == rest[i].0;
                assert(ids[j + 1].0 == rest[i].0);
            }
        }
        assert forall|i: int, j: int| 0 <= i < j < out.len() implies (#[trigger] out[i]).0 != (
        #[trigger] out[j]).0 by {
            assert(out[j] == rest[j - 1]);
            if i > 0 {
                assert(out[i] == rest[i - 1]);
            } else if rest[j - 1].0 != store {
                let k = choose|k: int|
                    1 <= k < ids.len() && (#[trigger] ids[k]).0 == rest[j - 1].0;
                assert(ids[0].0 != ids[k].0);
            }
        }
        assert forall|i: int| 0 <= i < out.len() implies (#[trigger] out[i]).0 == store || exists|
            j: int,
        | 0 <= j < ids.len() && (#[trigger] ids[j]).0 == out[i].0 by {
            if i == 0 {
                assert(ids[0].0 == out[0].0);
            } else {
                assert(out[i] == rest[i - 1]);
            }
        }
    }
}

proof fn lemma_id_in(ids: Seq<(Seq<char>, u64)>, store: Seq<char>)
    ensures
        match id_in(ids, store) {
            Some(n) => exists|i: int|
                0 <= i < ids.len() && #[trigger] ids[i] == (store, n),
            None => forall|i: int| 0 <= i < ids.len() ==> (#[trigger] ids[i]).0 != store,
        },
    decreases ids.len(),
{
    if ids.len() > 0 && ids.first().0 != store {
        let t = ids.drop_first();
        lemma_id_in(t, store);
        if let Some(n) = id_in(t, store) {
            let i = choose|i: int| 0 <= i < t.len() && #[trigger] t[i] == (store, n);
            assert(ids[i + 1] == (store, n));
        } else {
            assert forall|i: int| 0 <= i < ids.len() implies (#[trigger] ids[i]).0 != store by {
                if i > 0 {
                    assert(ids[i] == t[i - 1]);
                }
            }
        }
    } else if ids.len() > 0 {
        assert(ids[0] == (store, ids.first().1));
    }
}

/// Once a transaction is committed, the last id of a store is the last one that
/// it has given out there, and that of every other store is as it was.
pub proof fn law_commit_stores_the_ids(tx: TxView, db: DbView, store: Seq<char>)
    requires
        db.consistent(),
        sound_writes(tx.writes),
        distinct_ids(tx.ids),
        tx.commit(db).1 is None,
        db.store(store) is Some,
    ensures
        last_id(tx.commit(db).0.engine, encode_utf8(store)) == match id_in(tx.ids, store) {
            Some(n) => Ok(n),
            None => last_id(db.engine, encode_utf8(store)),
        },
{
    let n = tx.writes.len();
    let docs = written_docs(tx.writes, n)->Ok_0;
    let sb = encode_utf8(store);
    let ck = counter_key_of(sb);
    lemma_written_docs(tx.writes, n);
    let es = all_entries(db, tx.writes, docs, n)->Ok_0;
    let ids = tx.id_puts();
    let all = ids + es;
    lemma_all_entries(db, tx.writes, docs, n, store, sb);
    lemma_last_for_add(ids, es, ck, 0);
    lemma_id_in(tx.ids, store);
    let c = lemma_last_for(ids, ck, 0);
    assert forall|i: int| 0 <= i < ids.len() implies #[trigger] ids[i] == counter_put(
        encode_utf8(tx.ids[i].0),
        tx.ids[i].1,
    ) by {}
    assert forall|i: int| 0 <= i < ids.len() && (#[trigger] ids[i]).key == ck implies tx.ids[i].0
        == store by {
        let ob = encode_utf8(tx.ids[i].0);
        assert(ids[i].key == counter_key_of(ob));
        assert(counter_key_of(ob).skip(2) =~= ob);
        assert(ck.skip(2) =~= sb);
        lemma_same_bytes(tx.ids[i].0, store);
    }
    assert(plain(all)) by {
        assert forall|i: int| 0 <= i < all.len() implies is_plain_entry(#[trigger] all[i]) by {
            if i < ids.len() {
                assert(all[i] == ids[i]);
            } else {
                assert(all[i] == es[i - ids.len()]);
                assert(is_plain_entry(es[i - ids.len()]));
            }
        }
    }
    if all.len() > 0 {
        lemma_committed_points(db, all, db.schema, ck, 0);
    } else {
        assert(last_for(all, ck, 0) is None);
    }
    match id_in(tx.ids, store) {
        Some(id) => {
            let i = choose|i: int| 0 <= i < tx.ids.len() && #[trigger] tx.ids[i] == (store, id);
            assert(ids[i].key == ck && ids[i].ts == 0);
            assert(last_for(ids, ck, 0) is Some);
            assert(tx.ids[c].0 == store);
            assert(c == i) by {
                if c < i {
                    assert(tx.ids[c].0 != tx.ids[i].0);
                } else if i < c {
                    assert(tx.ids[i].0 != tx.ids[c].0);
                }
            }
            lemma_pow256_values();
            lemma_be_len(id as nat, 8);
            lemma_be_value_of_bytes(id as nat, 8);
        },
        None => {
            if last_for(ids, ck, 0) is Some {
                assert(ids[c].key == ck);
            }
        },
    }
}

} // verus!
