//! An index finds exactly the documents that are entered under a value, and a
//! unique index never holds a value for two of them.

use vstd::prelude::*;
use vstd::utf8::encode_utf8;

use crate::bytes::has_prefix;
use crate::engine::EngineView;
use crate::jsondb::consistency_laws::{lemma_docs_of_writes, lemma_store_at, sound_writes};
use crate::jsondb::db::DbView;
use crate::jsondb::definition_laws::lemma_under_index;
use crate::jsondb::document_laws::{
    has_valid_names, lemma_committed_points, lemma_index_position, lemma_put_batch,
    lemma_same_bytes, lemma_store_names,
};
use crate::jsondb::documents::{docs_of_entries, looked_up};
use crate::jsondb::encoding::{
    composite_value, doc_key_of, fields_at, idx_key_of, idx_prefix_of, idx_value_prefix_of, is_name,
    lemma_name_zero_free, primary_key, zero_free,
};
use crate::jsondb::encoding_laws::{lemma_zeros_add, lemma_zeros_composite, lemma_zeros_none, zeros};
use crate::jsondb::helpers::{
    any_taken, entered_under, paths_utf8, plain_record, records_under, stored_doc, taken_by_other,
    unique_complaint,
};
use crate::jsondb::index_laws::{entered, entry_key, index_agrees, name_of, store_agrees};
use crate::jsondb::key_laws::lemma_last_zero;
use crate::jsondb::schema::{index_position, IndexDefView};
use crate::jsondb::transaction::{
    all_entries, entered_as, entry_complaint, held, lemma_slot_position, slot_position, taken_in_tx,
    write_complaint, write_entries, written_docs, SlotView, TxView,
};
use crate::jsondb::transaction_laws::law_commit_takes_effect;
use crate::jsondb::value::{decoded_doc, encoded_doc, reads_back, Json};
use crate::record::{law_prefix_scan_is_exact, RecordView, ScanRangeView};

verus! {

proof fn lemma_fields_len(doc: Json, paths: Seq<Seq<u8>>)
    ensures
        fields_at(doc, paths) is Some ==> fields_at(doc, paths)->0.len() == paths.len(),
    decreases paths.len(),
{
    if paths.len() > 0 {
        lemma_fields_len(doc, paths.drop_last());
    }
}

/// Every value list of an index has one value for each of its paths.
pub proof fn lemma_list_len(doc: Json, d: IndexDefView, i: int)
    requires
        0 <= i < entered_under(doc, d).len(),
    ensures
        entered_under(doc, d)[i].len() == d.key_paths.len(),
{
    lemma_fields_len(doc, paths_utf8(d));
}

/// The entries that a lookup of values finds are those of the documents that
/// are entered under them.
pub proof fn law_lookup_finds_entries(
    db: DbView,
    store: Seq<char>,
    k: int,
    vals: Seq<Json>,
    r: RecordView,
)
    requires
        db.consistent(),
        db.engine.in_step(),
        db.store(store) is Some,
        0 <= k < db.store(store)->0.indexes.len(),
        vals.len() == db.store(store)->0.indexes[k].key_paths.len(),
        vals.len() > 0,
    ensures
        ({
            let sb = encode_utf8(store);
            let d = db.store(store)->0.indexes[k];
            let ib = encode_utf8(d.name);
            let enc = composite_value(vals);
            records_under(db.engine, idx_value_prefix_of(sb, ib, enc)).contains(r) <==> exists|
                pk: Seq<u8>,
            |
                zero_free(pk) && r == plain_record(#[trigger] idx_key_of(sb, ib, enc, pk), pk)
                    && entered(db.engine, sb, pk, d, enc)
        }),
{
    let v = db.engine;
    let sb = encode_utf8(store);
    let def = db.store(store)->0;
    let d = def.indexes[k];
    let ib = encode_utf8(d.name);
    let enc = composite_value(vals);
    let p = idx_value_prefix_of(sb, ib, enc);
    lemma_store_names(db, store);
    let at = lemma_store_at(db, store);
    assert(store_agrees(v, db.schema[at]));
    assert(index_agrees(v, sb, d));
    assert(is_name(ib));
    lemma_name_zero_free(ib);
    assert(v.scan_agrees(ScanRangeView::of_prefix(p)));
    law_prefix_scan_is_exact(p, r.key, r.ts);
    if records_under(v, p).contains(r) {
        lemma_found_entry(db, store, k, vals, r);
        let pk = r.value;
        assert(r == plain_record(idx_key_of(sb, ib, enc, pk), pk));
    }
    if exists|pk: Seq<u8>|
        zero_free(pk) && r == plain_record(#[trigger] idx_key_of(sb, ib, enc, pk), pk) && entered(
            v,
            sb,
            pk,
            d,
            enc,
        ) {
        let pk = choose|pk: Seq<u8>|
            zero_free(pk) && r == plain_record(#[trigger] idx_key_of(sb, ib, enc, pk), pk)
                && entered(v, sb, pk, d, enc);
        let key = idx_key_of(sb, ib, enc, pk);
        assert(v.point(key, 0) == Some(plain_record(key, pk)));
        assert(key.subrange(0, p.len() as int) =~= p);
    }
}

/// What a lookup of values finds is an entry under just these.
#[verifier::rlimit(40)]
proof fn lemma_found_entry(db: DbView, store: Seq<char>, k: int, vals: Seq<Json>, r: RecordView)
    requires
        db.consistent(),
        db.store(store) is Some,
        0 <= k < db.store(store)->0.indexes.len(),
        vals.len() == db.store(store)->0.indexes[k].key_paths.len(),
        vals.len() > 0,
        db.engine.point(r.key, r.ts) == Some(r),
        has_prefix(
            r.key,
            idx_value_prefix_of(
                encode_utf8(store),
                encode_utf8(db.store(store)->0.indexes[k].name),
                composite_value(vals),
            ),
        ),
    ensures
        ({
            let sb = encode_utf8(store);
            let d = db.store(store)->0.indexes[k];
            let ib = encode_utf8(d.name);
            let enc = composite_value(vals);
            &&& zero_free(r.value)
            &&& r == plain_record(idx_key_of(sb, ib, enc, r.value), r.value)
            &&& entered(db.engine, sb, r.value, d, enc)
        }),
{
    let v = db.engine;
    let sb = encode_utf8(store);
    let def = db.store(store)->0;
    let d = def.indexes[k];
    let ib = encode_utf8(d.name);
    let enc = composite_value(vals);
    let p = idx_value_prefix_of(sb, ib, enc);
    let ip = idx_prefix_of(sb, ib);
    lemma_store_names(db, store);
    let at = lemma_store_at(db, store);
    assert(is_name(ib));
    lemma_name_zero_free(ib);
    assert(r.key.subrange(0, p.len() as int)[0] == r.key[0]);
    assert(p[0] == 73);
    let (i, q, value, pk) = choose|i: int, q: int, value: Seq<u8>, pk: Seq<u8>|
        0 <= i < db.schema.len() && 0 <= q < db.schema[i].indexes.len() && zero_free(pk) && r.key
            == #[trigger] entry_key(db.schema[i], name_of(db.schema[i]), q, value, pk);
    let d2 = db.schema[i];
    let qn = encode_utf8(d2.indexes[q].name);
    assert(has_valid_names(d2));
    assert(is_name(qn));
    lemma_name_zero_free(qn);
    lemma_name_zero_free(name_of(d2));
    assert(has_prefix(r.key, ip)) by {
        assert(p.subrange(0, ip.len() as int) =~= ip);
        assert(r.key.subrange(0, ip.len() as int) =~= r.key.subrange(0, p.len() as int).subrange(
            0,
            ip.len() as int,
        ));
    }
    lemma_under_index(def, sb, k, name_of(d2), qn, value, pk);
    lemma_same_bytes(d2.name, store);
    assert(index_agrees(v, sb, d)) by {
        assert(store_agrees(v, db.schema[at]));
    }
    assert(v.point(idx_key_of(sb, ib, value, pk), 0) is Some);
    let doc = stored_doc(v, sb, pk)->0;
    let l = choose|l: int|
        0 <= l < entered_under(doc, d).len() && composite_value(#[trigger] entered_under(doc, d)[l])
            == value;
    lemma_list_len(doc, d, l);
    lemma_zeros_composite(vals);
    lemma_zeros_composite(entered_under(doc, d)[l]);
    lemma_zeros_none(pk);
    let rest = r.key.skip(p.len() as int);
    assert(r.key =~= p + rest);
    let x = enc + seq![0u8] + rest;
    let y = value + seq![0u8] + pk;
    assert(r.key.skip(ip.len() as int) =~= x);
    assert(r.key.skip(ip.len() as int) =~= y);
    lemma_zeros_add(enc, seq![0u8]);
    lemma_zeros_add(enc + seq![0u8], rest);
    lemma_zeros_add(value, seq![0u8]);
    lemma_zeros_add(value + seq![0u8], pk);
    assert(zeros(rest) == 0);
    lemma_zeros_none(rest);
    lemma_last_zero(enc, rest, value, pk);
}

/// The documents that entries lead to, where all are there.
pub proof fn lemma_docs_of_entries(v: EngineView, records: Seq<RecordView>, store: Seq<u8>)
    requires
        forall|j: int|
            0 <= j < records.len() ==> (#[trigger] stored_doc(v, store, records[j].value)) is Some,
    ensures
        docs_of_entries(v, records, store) is Ok,
        docs_of_entries(v, records, store)->Ok_0.len() == records.len(),
        forall|j: int|
            0 <= j < records.len() ==> #[trigger] docs_of_entries(v, records, store)->Ok_0[j]
                == stored_doc(v, store, records[j].value)->0,
    decreases records.len(),
{
    if records.len() > 0 {
        let t = records.drop_first();
        assert(stored_doc(v, store, records[0].value) is Some);
        assert forall|j: int| 0 <= j < t.len() implies (#[trigger] stored_doc(
            v,
            store,
            t[j].value,
        )) is Some by {
            assert(t[j] == records[j + 1]);
            assert(stored_doc(v, store, records[j + 1].value) is Some);
        }
        lemma_docs_of_entries(v, t, store);
        let all = docs_of_entries(v, records, store)->Ok_0;
        let rest = docs_of_entries(v, t, store)->Ok_0;
        assert(all == seq![stored_doc(v, store, records[0].value)->0] + rest);
        assert forall|j: int| 0 <= j < records.len() implies #[trigger] all[j] == stored_doc(
            v,
            store,
            records[j].value,
        )->0 by {
            if j > 0 {
                assert(all[j] == rest[j - 1]);
                assert(t[j - 1] == records[j]);
            }
        }
    }
}

/// A lookup by an index gives exactly the documents that are entered under the
/// value, each as it is stored.
pub proof fn law_index_lookup_is_exact(
    db: DbView,
    store: Seq<char>,
    index: Seq<char>,
    value: Json,
    vals: Seq<Json>,
)
    requires
        db.consistent(),
        db.engine.in_step(),
        db.index(store, index) is Ok,
        vals.len() == db.index(store, index)->Ok_0.key_paths.len(),
        vals.len() > 0,
        looked_up(db.index(store, index)->Ok_0, value) == composite_value(vals),
    ensures
        db.indexed(store, index, value) is Ok,
        forall|doc: Json| #[trigger]
            db.indexed(store, index, value)->Ok_0.contains(doc) <==> exists|pk: Seq<u8>|
                zero_free(pk) && #[trigger] stored_doc(db.engine, encode_utf8(store), pk) == Some(
                    doc,
                ) && entered_as(doc, db.index(store, index)->Ok_0, composite_value(vals)),
{
    let v = db.engine;
    let sb = encode_utf8(store);
    let def = db.store(store)->0;
    let d = db.index(store, index)->Ok_0;
    let k = index_position(def.indexes, index);
    lemma_index_position(def.indexes, index);
    let ib = encode_utf8(d.name);
    assert(d == def.indexes[k]);
    let enc = composite_value(vals);
    let recs = records_under(v, idx_value_prefix_of(sb, ib, enc));
    assert forall|j: int| 0 <= j < recs.len() implies (#[trigger] stored_doc(
        v,
        sb,
        recs[j].value,
    )) is Some by {
        assert(recs.contains(recs[j]));
        law_lookup_finds_entries(db, store, k, vals, recs[j]);
        let pk = choose|pk: Seq<u8>|
            zero_free(pk) && recs[j] == plain_record(#[trigger] idx_key_of(sb, ib, enc, pk), pk)
                && entered(v, sb, pk, d, enc);
    }
    lemma_docs_of_entries(v, recs, sb);
    let docs = db.indexed(store, index, value)->Ok_0;
    assert forall|doc: Json| #[trigger] docs.contains(doc) <==> exists|pk: Seq<u8>|
        zero_free(pk) && #[trigger] stored_doc(v, sb, pk) == Some(doc) && entered_as(doc, d, enc) by {
        if docs.contains(doc) {
            let j = choose|j: int| 0 <= j < docs.len() && docs[j] == doc;
            assert(recs.contains(recs[j]));
            law_lookup_finds_entries(db, store, k, vals, recs[j]);
            let pk = choose|pk: Seq<u8>|
                zero_free(pk) && recs[j] == plain_record(#[trigger] idx_key_of(sb, ib, enc, pk), pk)
                    && entered(v, sb, pk, d, enc);
            assert(stored_doc(v, sb, pk) == Some(doc));
        }
        if exists|pk: Seq<u8>|
            zero_free(pk) && #[trigger] stored_doc(v, sb, pk) == Some(doc) && entered_as(
                doc,
                d,
                enc,
            ) {
            let pk = choose|pk: Seq<u8>|
                zero_free(pk) && #[trigger] stored_doc(v, sb, pk) == Some(doc) && entered_as(
                    doc,
                    d,
                    enc,
                );
            let r = plain_record(idx_key_of(sb, ib, enc, pk), pk);
            law_lookup_finds_entries(db, store, k, vals, r);
            assert(recs.contains(r));
            let j = choose|j: int| 0 <= j < recs.len() && recs[j] == r;
            assert(docs[j] == doc);
        }
    }
}

/// No two documents of a store are entered in an index under one value.
pub open spec fn values_unique(v: EngineView, store: Seq<u8>, d: IndexDefView) -> bool {
    forall|a: Seq<u8>, b: Seq<u8>, value: Seq<u8>|
        zero_free(a) && zero_free(b) && #[trigger] entered(v, store, a, d, value)
            && #[trigger] entered(v, store, b, d, value) ==> a == b
}

/// A value that another document has is taken.
proof fn lemma_taken(
    db: DbView,
    store: Seq<char>,
    k: int,
    vals: Seq<Json>,
    pk: Seq<u8>,
    other: Seq<u8>,
)
    requires
        db.consistent(),
        db.engine.in_step(),
        db.store(store) is Some,
        0 <= k < db.store(store)->0.indexes.len(),
        vals.len() == db.store(store)->0.indexes[k].key_paths.len(),
        vals.len() > 0,
        zero_free(other),
        other != pk,
        entered(
            db.engine,
            encode_utf8(store),
            other,
            db.store(store)->0.indexes[k],
            composite_value(vals),
        ),
    ensures
        taken_by_other(
            db.engine,
            encode_utf8(store),
            encode_utf8(db.store(store)->0.indexes[k].name),
            vals,
            pk,
        ),
{
    let sb = encode_utf8(store);
    let d = db.store(store)->0.indexes[k];
    let ib = encode_utf8(d.name);
    let enc = composite_value(vals);
    let r = plain_record(idx_key_of(sb, ib, enc, other), other);
    law_lookup_finds_entries(db, store, k, vals, r);
    let found = records_under(db.engine, idx_value_prefix_of(sb, ib, enc));
    assert(found.contains(r));
    let i = choose|i: int| 0 <= i < found.len() && found[i] == r;
    assert(found[i].value != pk);
}

proof fn lemma_no_complaint(
    v: EngineView,
    indexes: Seq<IndexDefView>,
    n: nat,
    doc: Json,
    store: Seq<u8>,
    pk: Seq<u8>,
    k: int,
)
    requires
        n <= indexes.len(),
        0 <= k < n,
        indexes[k].unique,
        unique_complaint(v, indexes, n, doc, store, pk) is None,
    ensures
        !any_taken(v, store, encode_utf8(indexes[k].name), entered_under(doc, indexes[k]), pk),
    decreases n,
{
    if k < n - 1 {
        lemma_no_complaint(v, indexes, (n - 1) as nat, doc, store, pk, k);
    }
}

/// Putting a document keeps the values of a unique index unique.
pub proof fn law_put_keeps_values_unique(db: DbView, store: Seq<char>, doc: Json, k: int)
    requires
        db.consistent(),
        db.engine.in_step(),
        db.put_plan(store, doc) is Ok,
        reads_back(doc),
        db.committed((db.put_plan(store, doc)->Ok_0).1, db.schema).1 is None,
        0 <= k < db.store(store)->0.indexes.len(),
        db.store(store)->0.indexes[k].unique,
        db.store(store)->0.indexes[k].key_paths.len() > 0,
        values_unique(db.engine, encode_utf8(store), db.store(store)->0.indexes[k]),
    ensures
        values_unique(
            db.committed((db.put_plan(store, doc)->Ok_0).1, db.schema).0.engine,
            encode_utf8(store),
            db.store(store)->0.indexes[k],
        ),
{
    let (key, es) = db.put_plan(store, doc)->Ok_0;
    let v = db.engine;
    let w = db.committed(es, db.schema).0.engine;
    let sb = encode_utf8(store);
    let def = db.store(store)->0;
    let d = def.indexes[k];
    let pk = primary_key(key)->Ok_0;
    let bytes = encoded_doc(doc)->Ok_0;
    lemma_store_names(db, store);
    lemma_no_complaint(v, def.indexes, def.indexes.len(), doc, sb, pk, k);
    assert forall|a: Seq<u8>| zero_free(a) implies #[trigger] stored_doc(w, sb, a) == if a == pk {
        Some(doc)
    } else {
        stored_doc(v, sb, a)
    } by {
        lemma_put_batch(v, def, sb, pk, bytes, doc, sb, a);
        lemma_committed_points(db, es, db.schema, doc_key_of(sb, a), 0);
    }
    assert forall|a: Seq<u8>, b: Seq<u8>, value: Seq<u8>|
        zero_free(a) && zero_free(b) && #[trigger] entered(w, sb, a, d, value)
            && #[trigger] entered(w, sb, b, d, value) implies a == b by {
        assert(stored_doc(w, sb, a) is Some && stored_doc(w, sb, b) is Some);
        if a != b {
            if a != pk && b != pk {
                assert(entered(v, sb, a, d, value) && entered(v, sb, b, d, value));
            } else {
                let other = if a == pk {
                    b
                } else {
                    a
                };
                assert(entered(v, sb, other, d, value));
                assert(entered_as(doc, d, value));
                let l = choose|l: int|
                    0 <= l < entered_under(doc, d).len() && composite_value(
                        #[trigger] entered_under(doc, d)[l],
                    ) == value;
                lemma_list_len(doc, d, l);
                lemma_taken(db, store, k, entered_under(doc, d)[l], pk, other);
            }
        }
    }
}

proof fn lemma_no_entry_complaint(
    v: EngineView,
    writes: Seq<SlotView>,
    docs: Seq<Option<Json>>,
    k: int,
    d: IndexDefView,
    lists: Seq<Seq<Json>>,
    n: nat,
    l: int,
)
    requires
        n <= lists.len(),
        0 <= l < n,
        entry_complaint(v, writes, docs, k, d, lists, n) is None,
    ensures
        !taken_by_other(
            v,
            encode_utf8(writes[k].store),
            encode_utf8(d.name),
            lists[l],
            writes[k].key,
        ),
        !taken_in_tx(writes, docs, k, d, composite_value(lists[l])),
    decreases n,
{
    if l < n - 1 {
        lemma_no_entry_complaint(v, writes, docs, k, d, lists, (n - 1) as nat, l);
    }
}

proof fn lemma_no_write_complaint(
    v: EngineView,
    writes: Seq<SlotView>,
    docs: Seq<Option<Json>>,
    k: int,
    indexes: Seq<IndexDefView>,
    n: nat,
    i: int,
)
    requires
        n <= indexes.len(),
        0 <= i < n,
        indexes[i].unique,
        write_complaint(v, writes, docs, k, indexes, n) is None,
    ensures
        entry_complaint(
            v,
            writes,
            docs,
            k,
            indexes[i],
            entered_under(docs[k]->0, indexes[i]),
            entered_under(docs[k]->0, indexes[i]).len(),
        ) is None,
    decreases n,
{
    if i < n - 1 {
        lemma_no_write_complaint(v, writes, docs, k, indexes, (n - 1) as nat, i);
    }
}

proof fn lemma_each_write_ok(
    db: DbView,
    writes: Seq<SlotView>,
    docs: Seq<Option<Json>>,
    n: nat,
    k: int,
)
    requires
        0 <= k < n <= writes.len(),
        all_entries(db, writes, docs, n) is Ok,
    ensures
        write_entries(db, writes, docs, k) is Ok,
    decreases n,
{
    if k < n - 1 {
        lemma_each_write_ok(db, writes, docs, (n - 1) as nat, k);
    }
}

/// The document under a key after a commit.
pub proof fn lemma_committed_document(tx: TxView, db: DbView, store: Seq<char>, pk: Seq<u8>)
    requires
        db.consistent(),
        sound_writes(tx.writes),
        tx.commit(db).1 is None,
        db.store(store) is Some,
    ensures
        stored_doc(tx.commit(db).0.engine, encode_utf8(store), pk) == match held(
            tx.writes,
            store,
            pk,
        ) {
            Some(Some(bytes)) => match decoded_doc(bytes) {
                Ok(doc) => Some(doc),
                Err(_) => None,
            },
            Some(None) => None,
            None => stored_doc(db.engine, encode_utf8(store), pk),
        },
{
    law_commit_takes_effect(tx, db, store, pk);
}

/// Committing a transaction keeps the values of a unique index unique.
pub proof fn law_commit_keeps_values_unique(tx: TxView, db: DbView, store: Seq<char>, k: int)
    requires
        db.consistent(),
        db.engine.in_step(),
        sound_writes(tx.writes),
        tx.commit(db).1 is None,
        db.store(store) is Some,
        0 <= k < db.store(store)->0.indexes.len(),
        db.store(store)->0.indexes[k].unique,
        db.store(store)->0.indexes[k].key_paths.len() > 0,
        values_unique(db.engine, encode_utf8(store), db.store(store)->0.indexes[k]),
    ensures
        values_unique(
            tx.commit(db).0.engine,
            encode_utf8(store),
            db.store(store)->0.indexes[k],
        ),
{
    let v = db.engine;
    let w = tx.commit(db).0.engine;
    let sb = encode_utf8(store);
    let d = db.store(store)->0.indexes[k];
    assert forall|a: Seq<u8>, b: Seq<u8>, value: Seq<u8>|
        zero_free(a) && zero_free(b) && #[trigger] entered(w, sb, a, d, value)
            && #[trigger] entered(w, sb, b, d, value) implies a == b by {
        lemma_committed_document(tx, db, store, a);
        lemma_committed_document(tx, db, store, b);
        if a != b {
            if held(tx.writes, store, a) is Some {
                lemma_written_value_is_free(tx, db, store, k, a, b, value);
            } else if held(tx.writes, store, b) is Some {
                lemma_written_value_is_free(tx, db, store, k, b, a, value);
            } else {
                assert(entered(v, sb, a, d, value) && entered(v, sb, b, d, value));
            }
        }
    }
}

/// A value that a transaction writes is one that no other document has after
/// the commit.
proof fn lemma_written_value_is_free(
    tx: TxView,
    db: DbView,
    store: Seq<char>,
    k: int,
    a: Seq<u8>,
    b: Seq<u8>,
    value: Seq<u8>,
)
    requires
        db.consistent(),
        db.engine.in_step(),
        sound_writes(tx.writes),
        tx.commit(db).1 is None,
        db.store(store) is Some,
        0 <= k < db.store(store)->0.indexes.len(),
        db.store(store)->0.indexes[k].unique,
        db.store(store)->0.indexes[k].key_paths.len() > 0,
        zero_free(a),
        zero_free(b),
        a != b,
        held(tx.writes, store, a) is Some,
        entered(
            tx.commit(db).0.engine,
            encode_utf8(store),
            a,
            db.store(store)->0.indexes[k],
            value,
        ),
    ensures
        !entered(
            tx.commit(db).0.engine,
            encode_utf8(store),
            b,
            db.store(store)->0.indexes[k],
            value,
        ),
{
    let v = db.engine;
    let sb = encode_utf8(store);
    let def = db.store(store)->0;
    let d = def.indexes[k];
    let n = tx.writes.len();
    let docs = written_docs(tx.writes, n)->Ok_0;
    let i = slot_position(tx.writes, store, a);
    lemma_slot_position(tx.writes, store, a);
    lemma_committed_document(tx, db, store, a);
    lemma_committed_document(tx, db, store, b);
    lemma_docs_of_writes(tx.writes, n, i);
    lemma_each_write_ok(db, tx.writes, docs, n, i);
    let doc = docs[i]->0;
    assert(docs[i] is Some && entered_as(doc, d, value));
    lemma_no_write_complaint(v, tx.writes, docs, i, def.indexes, def.indexes.len(), k);
    let lists = entered_under(doc, d);
    let l = choose|l: int| 0 <= l < lists.len() && composite_value(#[trigger] lists[l]) == value;
    lemma_no_entry_complaint(v, tx.writes, docs, i, d, lists, lists.len(), l);
    lemma_list_len(doc, d, l);
    if entered(tx.commit(db).0.engine, sb, b, d, value) {
        if held(tx.writes, store, b) is Some {
            let j = slot_position(tx.writes, store, b);
            lemma_slot_position(tx.writes, store, b);
            lemma_docs_of_writes(tx.writes, n, j);
            assert(docs[j] is Some && entered_as(docs[j]->0, d, value));
            assert(taken_in_tx(tx.writes, docs, i, d, value));
        } else {
            assert(entered(v, sb, b, d, value));
            lemma_taken(db, store, k, lists[l], a, b);
        }
    }
}

} // verus!
