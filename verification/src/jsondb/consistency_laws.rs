//! Every change of a database keeps documents and indexes consistent.

use vstd::prelude::*;
use vstd::utf8::encode_utf8;

use crate::engine::EngineView;
use crate::engine_laws::{last_for, lemma_last_for, lemma_last_for_add};
use crate::error::{decimal, digit, FlowErrorView};
use crate::jsondb::db::DbView;
use crate::jsondb::document_laws::{
    has_valid_names, is_plain_entry, lemma_change_of_document, lemma_entries_of_document,
    lemma_old_entries, lemma_same_bytes, lemma_store_names, plain,
};
use crate::jsondb::documents::with_id;
use crate::jsondb::encoding::{doc_key_of, idx_key_of, lemma_name_zero_free, primary_key, zero_free};
use crate::jsondb::helpers::{
    all_puts, counter_put, delete_batch, next_id, old_entries, plain_record, stored_doc,
};
use crate::jsondb::index_laws::{
    change, document_key, entry_key, is_content_key, known_entry, known_key, leaves,
    lemma_batch_keeps_consistent, lemma_change_of_entries, lemma_known_entries, name_of,
    new_entered, old_entered, replaces, whole_documents,
};
use crate::jsondb::schema::{lemma_store_position, store_position, StoreDefView};
use crate::jsondb::transaction::{
    all_entries, decoded_value, write_entries, written_docs, SlotView, TxView,
};
use crate::jsondb::transaction_laws::{distinct_slots, slot_entry};
use crate::jsondb::value::{decoded_doc, encoded_doc, reads_back, Json};
use crate::read_laws::law_writes_keep_reads_in_step;
use crate::record::{live_at, Entry};

verus! {

/// A written batch of a database keeps scans and point reads in step.
pub proof fn law_changes_keep_reads_in_step(db: DbView, es: Seq<Entry>, schema: Seq<StoreDefView>)
    requires
        db.engine.in_step(),
        plain(es),
        db.committed(es, schema).1 is None,
    ensures
        db.committed(es, schema).0.engine.in_step(),
{
    assert forall|i: int| 0 <= i < es.len() implies live_at(
        (#[trigger] es[i]).expire_at,
        db.engine.now,
    ) && !(es[i].op is DeleteRange) by {
        assert(is_plain_entry(es[i]));
    }
    law_writes_keep_reads_in_step(db.engine, es);
}

/// The entries are no documents and no index entries.
pub open spec fn no_content(es: Seq<Entry>) -> bool {
    forall|i: int|
        0 <= i < es.len() ==> is_plain_entry(#[trigger] es[i]) && !is_content_key(es[i].key)
}

/// Entries that are no content say nothing of content.
pub proof fn lemma_no_content(es: Seq<Entry>, key: Seq<u8>)
    requires
        no_content(es),
        is_content_key(key),
    ensures
        last_for(es, key, 0) is None,
{
    let i = lemma_last_for(es, key, 0);
    if last_for(es, key, 0) is Some {
        assert(is_plain_entry(es[i]) && !is_content_key(es[i].key));
    }
}

pub proof fn lemma_plain_add(a: Seq<Entry>, b: Seq<Entry>)
    requires
        plain(a),
        plain(b),
    ensures
        plain(a + b),
{
    assert forall|i: int| 0 <= i < (a + b).len() implies is_plain_entry(#[trigger] (a + b)[i]) by {
        if i < a.len() {
            assert((a + b)[i] == a[i]);
        } else {
            assert((a + b)[i] == b[i - a.len()]);
        }
    }
}

/// All keys of a batch are known.
pub open spec fn keys_known(schema: Seq<StoreDefView>, es: Seq<Entry>) -> bool {
    forall|j: int| 0 <= j < es.len() ==> known_key(schema, (#[trigger] es[j]).key)
}

pub proof fn lemma_keys_known_add(schema: Seq<StoreDefView>, a: Seq<Entry>, b: Seq<Entry>)
    requires
        keys_known(schema, a),
        keys_known(schema, b),
    ensures
        keys_known(schema, a + b),
{
    assert forall|j: int| 0 <= j < (a + b).len() implies known_key(
        schema,
        (#[trigger] (a + b)[j]).key,
    ) by {
        if j < a.len() {
            assert((a + b)[j] == a[j]);
        } else {
            assert((a + b)[j] == b[j - a.len()]);
        }
    }
}

/// Where a store stands in the schema.
pub proof fn lemma_store_at(db: DbView, store: Seq<char>) -> (i: int)
    requires
        db.names_valid(),
        db.store(store) is Some,
    ensures
        0 <= i < db.schema.len(),
        db.schema[i] == db.store(store)->0,
        db.schema[i].name == store,
        forall|j: int| 0 <= j < db.schema.len() && (#[trigger] db.schema[j]).name == store ==> j == i,
{
    let i = store_position(db.schema, store);
    lemma_store_position(db.schema, store);
    assert forall|j: int| 0 <= j < db.schema.len() && (#[trigger] db.schema[j]).name == store implies j
        == i by {
        if j < i {
            assert(db.schema[j].name != db.schema[i].name);
        } else if i < j {
            assert(db.schema[i].name != db.schema[j].name);
        }
    }
    i
}

/// The keys of the change of a document are known.
proof fn lemma_change_keys(db: DbView, store: Seq<char>, pk: Seq<u8>, e: Entry, new: Option<Json>)
    requires
        db.names_valid(),
        db.store(store) is Some,
        zero_free(pk),
        e.key == doc_key_of(encode_utf8(store), pk),
    ensures
        keys_known(
            db.schema,
            change(db.engine, db.store(store)->0, encode_utf8(store), pk, e, new),
        ),
{
    let def = db.store(store)->0;
    let sb = encode_utf8(store);
    let i = lemma_store_at(db, store);
    let es = change(db.engine, def, sb, pk, e, new);
    let old = old_entries(db.engine, def, sb, pk);
    if let Some(doc) = new {
        lemma_known_entries(def, def.indexes.len(), doc, sb, pk);
    }
    if let Some(doc) = stored_doc(db.engine, sb, pk) {
        lemma_known_entries(def, def.indexes.len(), doc, sb, pk);
    }
    assert forall|j: int| 0 <= j < es.len() implies known_key(db.schema, (#[trigger] es[j]).key) by {
        if j == old.len() {
            assert(es[j] == e);
            assert(e.key == document_key(db.schema, i, pk));
            assert(e.key[0] == 68);
        } else {
            assert(known_entry(es[j], def, sb, pk)) by {
                if j < old.len() {
                    assert(es[j] == old[j]);
                } else {
                    let puts = all_puts(def.indexes, def.indexes.len(), new->0, sb, pk);
                    assert(es[j] == puts[j - old.len() - 1]);
                }
            }
            let (k, value) = choose|k: int, value: Seq<u8>|
                0 <= k < def.indexes.len() && es[j].key == #[trigger] entry_key(
                    def,
                    sb,
                    k,
                    value,
                    pk,
                );
            assert(es[j].key == entry_key(db.schema[i], name_of(db.schema[i]), k, value, pk));
            assert(es[j].key[0] == 73);
        }
    }
}

/// What is stored for a document after its change.
pub open spec fn says(e: Entry, new: Option<Json>) -> bool {
    match new {
        Some(doc) => e.op is Put && decoded_doc(e.value) == Ok::<Json, FlowErrorView>(doc),
        None => e.op is Delete,
    }
}

/// The change of a document replaces it, and leaves every other one.
proof fn lemma_change_is_whole(
    db: DbView,
    store: Seq<char>,
    pk: Seq<u8>,
    e: Entry,
    new: Option<Json>,
    i: int,
    key: Seq<u8>,
)
    requires
        db.names_valid(),
        db.store(store) is Some,
        zero_free(pk),
        zero_free(key),
        e.key == doc_key_of(encode_utf8(store), pk),
        is_plain_entry(e),
        says(e, new),
        0 <= i < db.schema.len(),
    ensures
        ({
            let es = change(db.engine, db.store(store)->0, encode_utf8(store), pk, e, new);
            if db.schema[i].name == store && key == pk {
                replaces(es, db.engine, db.schema[i], pk, new)
            } else {
                leaves(es, name_of(db.schema[i]), key)
            }
        }),
{
    let def = db.store(store)->0;
    let sb = encode_utf8(store);
    let es = change(db.engine, def, sb, pk, e, new);
    let at = lemma_store_at(db, store);
    lemma_store_names(db, store);
    let other = name_of(db.schema[i]);
    assert(has_valid_names(db.schema[i]));
    lemma_name_zero_free(other);
    if other == sb {
        lemma_same_bytes(db.schema[i].name, store);
    }
    let old = old_entries(db.engine, def, sb, pk);
    let puts = match new {
        Some(doc) => {
            lemma_entries_of_document(def.indexes, def.indexes.len(), doc, sb, pk);
            all_puts(def.indexes, def.indexes.len(), doc, sb, pk)
        },
        None => Seq::empty(),
    };
    lemma_old_entries(db.engine, def, sb, pk);
    lemma_change_of_document(old, e, puts, sb, pk, other, key);
    assert forall|name: Seq<u8>, value: Seq<u8>| zero_free(name) implies last_for(
        es,
        #[trigger] idx_key_of(other, name, value, key),
        0,
    ) == if other == sb && key == pk {
        if new_entered(def, new, name, value) {
            Some(Entry::put(plain_record(idx_key_of(sb, name, value, pk), pk), 0))
        } else if old_entered(db.engine, def, sb, pk, name, value) {
            Some(Entry::deletion(idx_key_of(sb, name, value, pk), 0, 0))
        } else {
            None
        }
    } else {
        None
    } by {
        lemma_change_of_entries(db.engine, def, sb, pk, e, new, other, name, value, key);
    }
}

/// What is left or replaced stays so where entries that are no content follow.
proof fn lemma_with_no_content(
    es: Seq<Entry>,
    extra: Seq<Entry>,
    v: EngineView,
    def: StoreDefView,
    pk: Seq<u8>,
)
    requires
        no_content(extra),
    ensures
        leaves(es, name_of(def), pk) ==> leaves(es + extra, name_of(def), pk),
        forall|new: Option<Json>|
            replaces(es, v, def, pk, new) ==> #[trigger] replaces(es + extra, v, def, pk, new),
{
    let store = name_of(def);
    let dk = doc_key_of(store, pk);
    assert(dk[0] == 68);
    lemma_no_content(extra, dk);
    lemma_last_for_add(es, extra, dk, 0);
    assert forall|name: Seq<u8>, value: Seq<u8>| last_for(
        es + extra,
        #[trigger] idx_key_of(store, name, value, pk),
        0,
    ) == last_for(es, idx_key_of(store, name, value, pk), 0) by {
        let ik = idx_key_of(store, name, value, pk);
        assert(ik[0] == 73);
        lemma_no_content(extra, ik);
        lemma_last_for_add(es, extra, ik, 0);
    }
}

/// The change of one document, with entries that are no content after it, keeps
/// a database consistent.
proof fn lemma_change_keeps_consistent(
    db: DbView,
    store: Seq<char>,
    pk: Seq<u8>,
    e: Entry,
    new: Option<Json>,
    extra: Seq<Entry>,
)
    requires
        db.consistent(),
        db.store(store) is Some,
        zero_free(pk),
        e.key == doc_key_of(encode_utf8(store), pk),
        is_plain_entry(e),
        says(e, new),
        no_content(extra),
        db.committed(
            change(db.engine, db.store(store)->0, encode_utf8(store), pk, e, new) + extra,
            db.schema,
        ).1 is None,
    ensures
        db.committed(
            change(db.engine, db.store(store)->0, encode_utf8(store), pk, e, new) + extra,
            db.schema,
        ).0.consistent(),
        plain(change(db.engine, db.store(store)->0, encode_utf8(store), pk, e, new) + extra),
{
    let def = db.store(store)->0;
    let sb = encode_utf8(store);
    let es = change(db.engine, def, sb, pk, e, new);
    let all = es + extra;
    lemma_store_names(db, store);
    lemma_change_of_entries(db.engine, def, sb, pk, e, new, sb, sb, sb, pk);
    lemma_change_keys(db, store, pk, e, new);
    assert(plain(extra)) by {
        assert forall|i: int| 0 <= i < extra.len() implies is_plain_entry(#[trigger] extra[i]) by {
            assert(is_plain_entry(extra[i]) && !is_content_key(extra[i].key));
        }
    }
    assert(keys_known(db.schema, extra)) by {
        assert forall|j: int| 0 <= j < extra.len() implies known_key(
            db.schema,
            (#[trigger] extra[j]).key,
        ) by {
            assert(is_plain_entry(extra[j]) && !is_content_key(extra[j].key));
        }
    }
    lemma_plain_add(es, extra);
    lemma_keys_known_add(db.schema, es, extra);
    assert forall|i: int| 0 <= i < db.schema.len() implies whole_documents(
        all,
        db.engine,
        #[trigger] db.schema[i],
    ) by {
        let d = db.schema[i];
        assert forall|key: Seq<u8>| zero_free(key) implies #[trigger] leaves(all, name_of(d), key)
            || exists|n: Option<Json>| replaces(all, db.engine, d, key, n) by {
            lemma_change_is_whole(db, store, pk, e, new, i, key);
            lemma_with_no_content(es, extra, db.engine, d, key);
            if d.name == store && key == pk {
                assert(replaces(all, db.engine, d, key, new));
            }
        }
    }
    lemma_batch_keeps_consistent(db, all);
}

/// Putting a document keeps documents and indexes consistent.
pub proof fn law_put_keeps_consistent(db: DbView, store: Seq<char>, doc: Json)
    requires
        db.consistent(),
        db.put_plan(store, doc) is Ok,
        reads_back(doc),
        db.committed((db.put_plan(store, doc)->Ok_0).1, db.schema).1 is None,
    ensures
        db.committed((db.put_plan(store, doc)->Ok_0).1, db.schema).0.consistent(),
        plain((db.put_plan(store, doc)->Ok_0).1),
{
    let (key, es) = db.put_plan(store, doc)->Ok_0;
    let def = db.store(store)->0;
    let pk = primary_key(key)->Ok_0;
    lemma_put_keeps_consistent(db, store, pk, doc, Seq::empty());
    let e = Entry::put(
        plain_record(doc_key_of(encode_utf8(store), pk), encoded_doc(doc)->Ok_0),
        0,
    );
    let c = change(db.engine, def, encode_utf8(store), pk, e, Some(doc));
    assert(es =~= c + Seq::<Entry>::empty());
}

proof fn lemma_put_keeps_consistent(
    db: DbView,
    store: Seq<char>,
    pk: Seq<u8>,
    doc: Json,
    extra: Seq<Entry>,
)
    requires
        db.consistent(),
        db.store(store) is Some,
        zero_free(pk),
        reads_back(doc),
        no_content(extra),
        ({
            let e = Entry::put(
                plain_record(doc_key_of(encode_utf8(store), pk), encoded_doc(doc)->Ok_0),
                0,
            );
            db.committed(
                change(db.engine, db.store(store)->0, encode_utf8(store), pk, e, Some(doc)) + extra,
                db.schema,
            ).1 is None
        }),
    ensures
        ({
            let e = Entry::put(
                plain_record(doc_key_of(encode_utf8(store), pk), encoded_doc(doc)->Ok_0),
                0,
            );
            let es = change(
                db.engine,
                db.store(store)->0,
                encode_utf8(store),
                pk,
                e,
                Some(doc),
            ) + extra;
            db.committed(es, db.schema).0.consistent() && plain(es)
        }),
{
    let e = Entry::put(
        plain_record(doc_key_of(encode_utf8(store), pk), encoded_doc(doc)->Ok_0),
        0,
    );
    lemma_change_keeps_consistent(db, store, pk, e, Some(doc), extra);
}

/// Deleting a document keeps documents and indexes consistent.
pub proof fn law_delete_keeps_consistent(db: DbView, store: Seq<char>, key: Json)
    requires
        db.consistent(),
        db.delete_doc(store, key).1 is None,
    ensures
        db.delete_doc(store, key).0.consistent(),
{
    let def = db.store(store)->0;
    let sb = encode_utf8(store);
    let pk = primary_key(key)->Ok_0;
    let e = Entry::deletion(doc_key_of(sb, pk), 0, 0);
    let c = change(db.engine, def, sb, pk, e, None);
    assert(delete_batch(db.engine, def, sb, pk) =~= c + Seq::<Entry>::empty());
    lemma_change_keeps_consistent(db, store, pk, e, None, Seq::empty());
}

/// Putting a document under the next id keeps documents and indexes consistent.
pub proof fn law_auto_put_keeps_consistent(db: DbView, store: Seq<char>, doc: Json)
    requires
        db.consistent(),
        db.auto_plan(store, doc) is Ok,
        db.committed((db.auto_plan(store, doc)->Ok_0).1, db.schema).1 is None,
        ({
            let id = next_id(db.engine, encode_utf8(store))->Ok_0;
            reads_back(
                with_id(doc, db.store(store)->0.key_path, id),
            )
        }),
    ensures
        db.committed((db.auto_plan(store, doc)->Ok_0).1, db.schema).0.consistent(),
{
    let (key, es) = db.auto_plan(store, doc)->Ok_0;
    let sb = encode_utf8(store);
    let def = db.store(store)->0;
    let id = next_id(db.engine, sb)->Ok_0;
    let pk = encode_utf8(decimal(id as nat));
    let with = with_id(doc, def.key_path, id);
    let c = counter_put(sb, id);
    lemma_decimal_zero_free(id as nat);
    assert(c.key[0] == 67);
    assert(no_content(seq![c]));
    let e = Entry::put(plain_record(doc_key_of(sb, pk), encoded_doc(with)->Ok_0), 0);
    let batch = change(db.engine, def, sb, pk, e, Some(with));
    assert(es =~= batch + seq![c]);
    lemma_put_keeps_consistent(db, store, pk, with, seq![c]);
}

/// The decimal digits of a number hold no zero byte.
pub proof fn lemma_decimal_zero_free(n: nat)
    ensures
        zero_free(encode_utf8(decimal(n))),
{
    lemma_decimal_chars(n);
    lemma_ascii_zero_free(decimal(n));
}

proof fn lemma_decimal_chars(n: nat)
    ensures
        forall|i: int|
            0 <= i < decimal(n).len() ==> 0 < (
            #[trigger] decimal(n)[i]) as u32 && (decimal(n)[i] as u32)
                < 128,
    decreases n,
{
    lemma_digit_chars(n % 10);
    if n >= 10 {
        lemma_decimal_chars(n / 10);
        let a = decimal(n / 10);
        let b = digit(n % 10);
        assert forall|i: int| 0 <= i < (a + b).len() implies 0 < (#[trigger] (a + b)[i]) as u32 && ((
        a + b)[i] as u32) < 128 by {
            if i < a.len() {
                assert((a + b)[i] == a[i]);
            } else {
                assert((a + b)[i] == b[i - a.len()]);
            }
        }
        assert(decimal(n) == a + b);
    } else {
        lemma_digit_chars(n);
    }
}

proof fn lemma_digit_chars(d: nat)
    ensures
        forall|i: int|
            0 <= i < digit(d).len() ==> 0 < (#[trigger] digit(d)[i]) as u32
                && (digit(d)[i] as u32) < 128,
{
    reveal_strlit("0");
    reveal_strlit("1");
    reveal_strlit("2");
    reveal_strlit("3");
    reveal_strlit("4");
    reveal_strlit("5");
    reveal_strlit("6");
    reveal_strlit("7");
    reveal_strlit("8");
    reveal_strlit("9");
}

proof fn lemma_ascii_zero_free(s: Seq<char>)
    requires
        forall|i: int| 0 <= i < s.len() ==> 0 < (#[trigger] s[i]) as u32 && (s[i] as u32) < 128,
    ensures
        zero_free(encode_utf8(s)),
    decreases s.len(),
{
    if s.len() > 0 {
        assert(s[0] as u32 > 0);
        let t = s.drop_first();
        assert forall|i: int| 0 <= i < t.len() implies 0 < (#[trigger] t[i]) as u32 && (t[i] as u32)
            < 128 by {
            assert(t[i] == s[i + 1]);
        }
        lemma_ascii_zero_free(t);
        let c = s[0] as u32;
        let b = vstd::utf8::encode_scalar(c);
        assert(c & 0x7f == c) by (bit_vector)
            requires
                c < 128,
        ;
        assert(zero_free(b));
        assert(encode_utf8(s) =~= b + encode_utf8(t));
        assert forall|i: int| 0 <= i < encode_utf8(s).len() implies #[trigger] encode_utf8(s)[i]
            != 0 by {
            if i < b.len() {
                assert(encode_utf8(s)[i] == b[i]);
            } else {
                assert(encode_utf8(s)[i] == encode_utf8(t)[i - b.len()]);
            }
        }
    }
}

/// The documents of the writes are those in their bytes.
pub proof fn lemma_docs_of_writes(writes: Seq<SlotView>, n: nat, i: int)
    requires
        0 <= i < n <= writes.len(),
        written_docs(writes, n) is Ok,
    ensures
        written_docs(writes, n)->Ok_0.len() == n,
        decoded_value(writes[i].value) == Ok::<Option<Json>, FlowErrorView>(
            written_docs(writes, n)->Ok_0[i],
        ),
    decreases n,
{
    if n > 1 {
        let m = (n - 1) as nat;
        if i < m {
            lemma_docs_of_writes(writes, m, i);
        } else {
            lemma_docs_of_writes(writes, m, 0);
        }
    } else {
        assert(written_docs(writes, 0)->Ok_0 =~= Seq::<Option<Json>>::empty());
    }
}

/// The writes of a transaction are of different documents, under proper keys.
pub open spec fn sound_writes(writes: Seq<SlotView>) -> bool {
    distinct_slots(writes) && forall|i: int|
        0 <= i < writes.len() ==> zero_free((#[trigger] writes[i]).key)
}

/// A write of a transaction is the change of a document.
proof fn lemma_write_is_change(db: DbView, writes: Seq<SlotView>, docs: Seq<Option<Json>>, k: int)
    requires
        0 <= k < writes.len(),
        write_entries(db, writes, docs, k) is Ok,
        decoded_value(writes[k].value) == Ok::<Option<Json>, FlowErrorView>(docs[k]),
    ensures
        db.store(writes[k].store) is Some,
        write_entries(db, writes, docs, k)->Ok_0 == change(
            db.engine,
            db.store(writes[k].store)->0,
            encode_utf8(writes[k].store),
            writes[k].key,
            slot_entry(writes[k]),
            docs[k],
        ),
        says(slot_entry(writes[k]), docs[k]),
{
    let es = write_entries(db, writes, docs, k)->Ok_0;
    let def = db.store(writes[k].store)->0;
    assert(es =~= change(
        db.engine,
        def,
        encode_utf8(writes[k].store),
        writes[k].key,
        slot_entry(writes[k]),
        docs[k],
    ));
}

/// What two batches say together of a document.
pub proof fn lemma_batches_together(
    a: Seq<Entry>,
    b: Seq<Entry>,
    v: EngineView,
    def: StoreDefView,
    pk: Seq<u8>,
    new: Option<Json>,
)
    ensures
        leaves(a, name_of(def), pk) && leaves(b, name_of(def), pk) ==> leaves(
            a + b,
            name_of(def),
            pk,
        ),
        replaces(a, v, def, pk, new) && leaves(b, name_of(def), pk) ==> replaces(
            a + b,
            v,
            def,
            pk,
            new,
        ),
        leaves(a, name_of(def), pk) && replaces(b, v, def, pk, new) ==> replaces(
            a + b,
            v,
            def,
            pk,
            new,
        ),
{
    let store = name_of(def);
    lemma_last_for_add(a, b, doc_key_of(store, pk), 0);
    assert forall|name: Seq<u8>, value: Seq<u8>| last_for(
        a + b,
        #[trigger] idx_key_of(store, name, value, pk),
        0,
    ) == match last_for(b, idx_key_of(store, name, value, pk), 0) {
        Some(e) => Some(e),
        None => last_for(a, idx_key_of(store, name, value, pk), 0),
    } by {
        lemma_last_for_add(a, b, idx_key_of(store, name, value, pk), 0);
    }
}

/// What the first `n` writes of a transaction say of a document.
proof fn lemma_writes_are_whole(
    db: DbView,
    writes: Seq<SlotView>,
    docs: Seq<Option<Json>>,
    n: nat,
    i: int,
    key: Seq<u8>,
)
    requires
        db.names_valid(),
        n <= writes.len(),
        docs.len() == writes.len(),
        forall|k: int|
            0 <= k < writes.len() ==> decoded_value((#[trigger] writes[k]).value) == Ok::<
                Option<Json>,
                FlowErrorView,
            >(docs[k]),
        all_entries(db, writes, docs, n) is Ok,
        sound_writes(writes),
        0 <= i < db.schema.len(),
        zero_free(key),
    ensures
        plain(all_entries(db, writes, docs, n)->Ok_0),
        keys_known(db.schema, all_entries(db, writes, docs, n)->Ok_0),
        (forall|k: int|
            0 <= k < n ==> !((#[trigger] writes[k]).store == db.schema[i].name && writes[k].key
                == key)) ==> leaves(
            all_entries(db, writes, docs, n)->Ok_0,
            name_of(db.schema[i]),
            key,
        ),
        forall|k: int|
            0 <= k < n && (#[trigger] writes[k]).store == db.schema[i].name && writes[k].key == key
                ==> replaces(
                all_entries(db, writes, docs, n)->Ok_0,
                db.engine,
                db.schema[i],
                key,
                docs[k],
            ),
    decreases n,
{
    let all = all_entries(db, writes, docs, n)->Ok_0;
    if n == 0 {
        assert(leaves(all, name_of(db.schema[i]), key));
    } else {
        let m = (n - 1) as nat;
        let k = n - 1;
        let a = all_entries(db, writes, docs, m)->Ok_0;
        let b = write_entries(db, writes, docs, k)->Ok_0;
        lemma_writes_are_whole(db, writes, docs, m, i, key);
        assert(decoded_value(writes[k].value) == Ok::<Option<Json>, FlowErrorView>(docs[k]));
        lemma_write_is_change(db, writes, docs, k);
        let store = writes[k].store;
        let pk = writes[k].key;
        let def = db.store(store)->0;
        lemma_store_names(db, store);
        assert(zero_free(pk));
        lemma_change_of_entries(
            db.engine,
            def,
            encode_utf8(store),
            pk,
            slot_entry(writes[k]),
            docs[k],
            encode_utf8(store),
            encode_utf8(store),
            pk,
            pk,
        );
        lemma_change_keys(db, store, pk, slot_entry(writes[k]), docs[k]);
        lemma_plain_add(a, b);
        lemma_keys_known_add(db.schema, a, b);
        lemma_change_is_whole(db, store, pk, slot_entry(writes[k]), docs[k], i, key);
        let d = db.schema[i];
        if store == d.name && pk == key {
            assert forall|j: int| 0 <= j < m implies !((#[trigger] writes[j]).store == d.name
                && writes[j].key == key) by {
                assert(!(writes[j].store == writes[k].store && writes[j].key == writes[k].key));
            }
            lemma_batches_together(a, b, db.engine, d, key, docs[k]);
        } else {
            assert forall|j: int|
                0 <= j < n && (#[trigger] writes[j]).store == d.name && writes[j].key == key implies replaces(
                all,
                db.engine,
                d,
                key,
                docs[j],
            ) by {
                assert(j < m);
                lemma_batches_together(a, b, db.engine, d, key, docs[j]);
            }
            if forall|j: int|
                0 <= j < n ==> !((#[trigger] writes[j]).store == d.name && writes[j].key == key) {
                lemma_batches_together(a, b, db.engine, d, key, None);
            }
        }
    }
}

/// Committing a transaction keeps documents and indexes consistent.
pub proof fn law_commit_keeps_consistent(tx: TxView, db: DbView)
    requires
        db.consistent(),
        sound_writes(tx.writes),
        tx.commit(db).1 is None,
    ensures
        tx.commit(db).0.consistent(),
        plain(tx.commit_plan(db)->Ok_0),
{
    let n = tx.writes.len();
    let docs = written_docs(tx.writes, n)->Ok_0;
    let es = all_entries(db, tx.writes, docs, n)->Ok_0;
    let ids = tx.id_puts();
    assert forall|k: int| 0 <= k < n implies decoded_value((#[trigger] tx.writes[k]).value) == Ok::<
        Option<Json>,
        FlowErrorView,
    >(docs[k]) by {
        lemma_docs_of_writes(tx.writes, n, k);
    }
    if n > 0 {
        lemma_docs_of_writes(tx.writes, n, 0);
    } else {
        assert(docs.len() == 0);
    }
    assert(no_content(ids)) by {
        assert forall|j: int| 0 <= j < ids.len() implies is_plain_entry(#[trigger] ids[j])
            && !is_content_key(ids[j].key) by {
            assert(ids[j] == counter_put(encode_utf8(tx.ids[j].0), tx.ids[j].1));
            assert(ids[j].key[0] == 67);
        }
    }
    assert(plain(ids)) by {
        assert forall|j: int| 0 <= j < ids.len() implies is_plain_entry(#[trigger] ids[j]) by {
            assert(is_plain_entry(ids[j]) && !is_content_key(ids[j].key));
        }
    }
    assert(keys_known(db.schema, ids)) by {
        assert forall|j: int| 0 <= j < ids.len() implies known_key(
            db.schema,
            (#[trigger] ids[j]).key,
        ) by {
            assert(is_plain_entry(ids[j]) && !is_content_key(ids[j].key));
        }
    }
    if db.schema.len() > 0 {
        lemma_writes_are_whole(db, tx.writes, docs, n, 0, Seq::empty());
    } else if n > 0 {
        lemma_first_write_has_store(db, tx.writes, docs, n);
        lemma_store_position(db.schema, tx.writes[0].store);
    } else {
        assert(es.len() == 0);
    }
    lemma_plain_add(ids, es);
    lemma_keys_known_add(db.schema, ids, es);
    let all = ids + es;
    assert forall|i: int| 0 <= i < db.schema.len() implies whole_documents(
        all,
        db.engine,
        #[trigger] db.schema[i],
    ) by {
        let d = db.schema[i];
        assert forall|key: Seq<u8>| zero_free(key) implies #[trigger] leaves(all, name_of(d), key)
            || exists|new: Option<Json>| replaces(all, db.engine, d, key, new) by {
            lemma_writes_are_whole(db, tx.writes, docs, n, i, key);
            assert(leaves(ids, name_of(d), key)) by {
                let dk = doc_key_of(name_of(d), key);
                assert(dk[0] == 68);
                lemma_no_content(ids, dk);
                assert forall|name: Seq<u8>, value: Seq<u8>| zero_free(name) implies last_for(
                    ids,
                    #[trigger] idx_key_of(name_of(d), name, value, key),
                    0,
                ) is None by {
                    assert(idx_key_of(name_of(d), name, value, key)[0] == 73);
                    lemma_no_content(ids, idx_key_of(name_of(d), name, value, key));
                }
            }
            if exists|k: int|
                0 <= k < n && (#[trigger] tx.writes[k]).store == d.name && tx.writes[k].key == key {
                let k = choose|k: int|
                    0 <= k < n && (#[trigger] tx.writes[k]).store == d.name && tx.writes[k].key
                        == key;
                lemma_batches_together(ids, es, db.engine, d, key, docs[k]);
                assert(replaces(all, db.engine, d, key, docs[k]));
            } else {
                lemma_batches_together(ids, es, db.engine, d, key, None);
            }
        }
    }
    if all.len() > 0 {
        lemma_batch_keeps_consistent(db, all);
    }
}

/// Where writes can be made, their stores are there.
proof fn lemma_first_write_has_store(
    db: DbView,
    writes: Seq<SlotView>,
    docs: Seq<Option<Json>>,
    n: nat,
)
    requires
        0 < n <= writes.len(),
        all_entries(db, writes, docs, n) is Ok,
    ensures
        db.store(writes[0].store) is Some,
    decreases n,
{
    if n > 1 {
        lemma_first_write_has_store(db, writes, docs, (n - 1) as nat);
    }
}

} // verus!
