//! What holds of transactions: isolation, conflicts, and commits as a whole.

use vstd::prelude::*;
use vstd::utf8::encode_utf8;

use crate::engine::{sequenced, EngineView};
use crate::engine_laws::{
    last_for, law_snapshot_reads_are_repeatable, lemma_last_for, lemma_last_for_add,
};
use crate::error::FlowErrorView;
use crate::jsondb::db::DbView;
use crate::jsondb::document_laws::{
    is_plain_entry, lemma_change_of_document, lemma_committed_reads, lemma_entries_of_document,
    lemma_old_entries, lemma_same_bytes, lemma_store_names, plain,
};
use crate::jsondb::encoding::{counter_key_of, doc_key_of, primary_key};
use crate::jsondb::helpers::{all_puts, counter_put, old_entries, plain_record};
use crate::jsondb::key_laws::law_kinds_of_keys_differ;
use crate::jsondb::transaction::{
    all_entries, conflict_error, emptied, first_changed, held, lemma_slot_position, lemma_with_slot,
    read_only_error, removing, slot_position, snapshot_value, stored_keys, with_slot, write_entries,
    written_docs, SlotView, TxView,
};
use crate::jsondb::value::{encoded_doc, reads_back, Json};
use crate::record::Entry;

verus! {

/// A transaction reads the document that it has put.
pub proof fn law_transaction_reads_its_puts(tx: TxView, db: DbView, store: Seq<char>, doc: Json)
    requires
        tx.put(db, store, doc) is Ok,
        reads_back(doc),
    ensures
        ({
            let (after, key) = tx.put(db, store, doc)->Ok_0;
            after.get(db, store, key) == (after, Ok::<Option<Json>, FlowErrorView>(Some(doc)))
        }),
{
    let (after, key) = tx.put(db, store, doc)->Ok_0;
    let pk = primary_key(key)->Ok_0;
    let slot = SlotView { store, key: pk, value: Some(encoded_doc(doc)->Ok_0) };
    lemma_with_slot(tx.writes, slot, store, pk);
}

/// A transaction does not read the document that it has deleted.
pub proof fn law_transaction_reads_its_deletions(tx: TxView, db: DbView, store: Seq<char>, key: Json)
    requires
        tx.delete(db, store, key).1 is None,
    ensures
        ({
            let after = tx.delete(db, store, key).0;
            after.get(db, store, key) == (after, Ok::<Option<Json>, FlowErrorView>(None))
        }),
{
    let pk = primary_key(key)->Ok_0;
    lemma_with_slot(tx.writes, SlotView { store, key: pk, value: None }, store, pk);
}

/// What a transaction has put or deleted changes no read of another document.
pub proof fn law_transaction_writes_leave_other_documents(
    tx: TxView,
    db: DbView,
    store: Seq<char>,
    pk: Seq<u8>,
    value: Option<Seq<u8>>,
    other: Seq<char>,
    key: Json,
)
    requires
        other != store || primary_key(key) != Ok::<Seq<u8>, FlowErrorView>(pk),
    ensures
        tx.holding(store, pk, value).get(db, other, key).1 == tx.get(db, other, key).1,
{
    if primary_key(key) is Ok {
        lemma_with_slot(
            tx.writes,
            SlotView { store, key: pk, value },
            other,
            primary_key(key)->Ok_0,
        );
    }
}

/// A read-only transaction refuses every write, and stays as it is.
pub proof fn law_read_only_refuses_writes(
    tx: TxView,
    db: DbView,
    store: Seq<char>,
    doc: Json,
    key: Json,
)
    requires
        tx.mode is ReadOnly,
    ensures
        tx.put(db, store, doc) == Err::<(TxView, Json), FlowErrorView>(read_only_error()),
        tx.add(db, store, doc) == Err::<(TxView, Json), FlowErrorView>(read_only_error()),
        tx.put_auto(db, store, doc) == Err::<(TxView, Json), FlowErrorView>(read_only_error()),
        tx.delete(db, store, key) == (tx, Some(read_only_error())),
        tx.clear(db, store) == (tx, Some(read_only_error())),
{
}

/// What others write after a transaction began does not change what it reads.
pub proof fn law_transaction_reads_are_repeatable(
    tx: TxView,
    db: DbView,
    es: Seq<Entry>,
    store: Seq<char>,
    key: Json,
)
    requires
        tx.snapshot_seq < db.engine.next_seq,
        db.committed(es, db.schema).1 is None,
    ensures
        tx.get(db.committed(es, db.schema).0, store, key) == tx.get(db, store, key),
{
    if primary_key(key) is Ok {
        law_snapshot_reads_are_repeatable(
            db.engine,
            sequenced(es, db.engine.next_seq),
            doc_key_of(encode_utf8(store), primary_key(key)->Ok_0),
            0,
            tx.snapshot_seq,
        );
    }
}

/// A document that a transaction has read reads the same ever after, whatever
/// was written, flushed or merged meanwhile, as long as its store is there.
pub proof fn law_repeated_read_gives_the_same(
    tx: TxView,
    db: DbView,
    later: DbView,
    store: Seq<char>,
    key: Json,
)
    requires
        db.store(store) is Some,
        later.store(store) is Some,
    ensures
        tx.get(db, store, key).0.get(later, store, key) == (
            tx.get(db, store, key).0,
            tx.get(db, store, key).1,
        ),
{
    if primary_key(key) is Ok {
        let pk = primary_key(key)->Ok_0;
        if held(tx.writes, store, pk) is None && held(tx.reads, store, pk) is None {
            law_reads_are_noted(tx, db, store, key);
        }
    }
}

/// Reading a document notes what was found, unless the transaction has written
/// the document or noted an earlier read.
pub proof fn law_reads_are_noted(tx: TxView, db: DbView, store: Seq<char>, key: Json)
    requires
        db.store(store) is Some,
        primary_key(key) is Ok,
        held(tx.writes, store, primary_key(key)->Ok_0) is None,
        held(tx.reads, store, primary_key(key)->Ok_0) is None,
    ensures
        held(tx.get(db, store, key).0.reads, store, primary_key(key)->Ok_0) == Some(
            snapshot_value(
                db.engine,
                encode_utf8(store),
                primary_key(key)->Ok_0,
                tx.snapshot_seq,
            ),
        ),
{
    let pk = primary_key(key)->Ok_0;
    let v = snapshot_value(db.engine, encode_utf8(store), pk, tx.snapshot_seq);
    let slot = SlotView { store, key: pk, value: v };
    lemma_slot_position(tx.reads, store, pk);
    assert(with_slot(tx.reads, slot) =~= tx.reads.push(slot));
    lemma_with_slot(tx.reads, slot, store, pk);
}

proof fn lemma_first_changed(
    reads: Seq<SlotView>,
    v: EngineView,
    from: int,
    i: int,
)
    requires
        0 <= from <= i < reads.len(),
        snapshot_value(v, encode_utf8(reads[i].store), reads[i].key, u64::MAX) != reads[i].value,
    ensures
        from <= first_changed(reads, v, from) <= i,
    decreases reads.len() - from,
{
    if snapshot_value(v, encode_utf8(reads[from].store), reads[from].key, u64::MAX)
        == reads[from].value {
        lemma_first_changed(reads, v, from + 1, i);
    }
}

/// A transaction is refused, and changes nothing, where a document that it has
/// read was changed since.
pub proof fn law_conflict_is_refused(tx: TxView, db: DbView, i: int)
    requires
        0 <= i < tx.reads.len(),
        snapshot_value(
            db.engine,
            encode_utf8(tx.reads[i].store),
            tx.reads[i].key,
            u64::MAX,
        ) != tx.reads[i].value,
    ensures
        tx.commit(db).0 == db,
        exists|k: int|
            0 <= k < tx.reads.len() && tx.commit(db).1 == Some(
                conflict_error((#[trigger] tx.reads[k]).store),
            ),
{
    lemma_first_changed(tx.reads, db.engine, 0, i);
    let k = first_changed(tx.reads, db.engine, 0);
    assert(tx.commit(db).1 == Some(conflict_error(tx.reads[k].store)));
}

proof fn lemma_none_changed(reads: Seq<SlotView>, v: EngineView, from: int)
    requires
        0 <= from <= reads.len(),
        forall|i: int|
            0 <= i < reads.len() ==> snapshot_value(
                v,
                encode_utf8((#[trigger] reads[i]).store),
                reads[i].key,
                u64::MAX,
            ) == reads[i].value,
    ensures
        first_changed(reads, v, from) == reads.len(),
    decreases reads.len() - from,
{
    if from < reads.len() {
        assert(snapshot_value(v, encode_utf8(reads[from].store), reads[from].key, u64::MAX)
            == reads[from].value);
        lemma_none_changed(reads, v, from + 1);
    }
}

/// A transaction that has written nothing commits without a change unless one
/// of its reads was changed since.
pub proof fn law_reads_alone_commit(tx: TxView, db: DbView)
    requires
        tx.writes.len() == 0,
        tx.ids.len() == 0,
        forall|i: int|
            0 <= i < tx.reads.len() ==> snapshot_value(
                db.engine,
                encode_utf8((#[trigger] tx.reads[i]).store),
                tx.reads[i].key,
                u64::MAX,
            ) == tx.reads[i].value,
    ensures
        tx.commit(db) == (db, None::<FlowErrorView>),
{
    lemma_none_changed(tx.reads, db.engine, 0);
    assert(tx.id_puts() + Seq::<Entry>::empty() =~= Seq::<Entry>::empty());
}

/// A commit that is refused leaves the database as it was, whatever the reason.
pub proof fn law_refused_commit_changes_nothing(tx: TxView, db: DbView)
    requires
        tx.commit(db).1 is Some,
    ensures
        tx.commit(db).0 == db,
{
}

/// No two slots are for the same document.
pub open spec fn distinct_slots(s: Seq<SlotView>) -> bool {
    forall|i: int, j: int|
        0 <= i < j < s.len() ==> !((#[trigger] s[i]).store == (#[trigger] s[j]).store && s[i].key
            == s[j].key)
}

pub proof fn lemma_no_slot(s: Seq<SlotView>, store: Seq<char>, key: Seq<u8>, i: int)
    requires
        slot_position(s, store, key) >= s.len(),
        0 <= i < s.len(),
    ensures
        !(s[i].store == store && s[i].key == key),
    decreases s.len(),
{
    if i > 0 {
        lemma_no_slot(s.drop_first(), store, key, i - 1);
    }
}

pub proof fn lemma_with_slot_distinct(s: Seq<SlotView>, slot: SlotView)
    requires
        distinct_slots(s),
    ensures
        distinct_slots(with_slot(s, slot)),
{
    let p = slot_position(s, slot.store, slot.key);
    lemma_slot_position(s, slot.store, slot.key);
    let t = with_slot(s, slot);
    assert forall|i: int, j: int| 0 <= i < j < t.len() implies !((#[trigger] t[i]).store == (
    #[trigger] t[j]).store && t[i].key == t[j].key) by {
        if p < s.len() {
            assert(t[i].store == s[i].store && t[i].key == s[i].key);
            assert(t[j].store == s[j].store && t[j].key == s[j].key);
        } else {
            assert(t[i] == s[i]);
            if j < s.len() {
                assert(t[j] == s[j]);
            } else {
                lemma_no_slot(s, slot.store, slot.key, i);
            }
        }
    }
}

proof fn lemma_removing_distinct(s: Seq<SlotView>, store: Seq<char>, keys: Seq<Seq<u8>>)
    requires
        distinct_slots(s),
    ensures
        distinct_slots(removing(s, store, keys)),
    decreases keys.len(),
{
    if keys.len() > 0 {
        lemma_removing_distinct(s, store, keys.drop_last());
        lemma_with_slot_distinct(
            removing(s, store, keys.drop_last()),
            SlotView { store, key: keys.last(), value: None },
        );
    }
}

/// However a transaction is used, it keeps back at most one write per document.
pub proof fn law_one_write_per_document(
    tx: TxView,
    db: DbView,
    store: Seq<char>,
    doc: Json,
    key: Json,
)
    requires
        distinct_slots(tx.writes),
    ensures
        tx.put(db, store, doc) is Ok ==> distinct_slots((tx.put(db, store, doc)->Ok_0).0.writes),
        tx.add(db, store, doc) is Ok ==> distinct_slots((tx.add(db, store, doc)->Ok_0).0.writes),
        tx.put_auto(db, store, doc) is Ok ==> distinct_slots(
            (tx.put_auto(db, store, doc)->Ok_0).0.writes,
        ),
        distinct_slots(tx.delete(db, store, key).0.writes),
        distinct_slots(tx.clear(db, store).0.writes),
        distinct_slots(tx.get(db, store, key).0.writes),
{
    assert forall|slot: SlotView| distinct_slots(#[trigger] with_slot(tx.writes, slot)) by {
        lemma_with_slot_distinct(tx.writes, slot);
    }
    let keys = stored_keys(db.engine, encode_utf8(store));
    lemma_removing_distinct(tx.writes, store, keys);
    let r = removing(tx.writes, store, keys);
    let t = emptied(r, store);
    assert forall|i: int, j: int| 0 <= i < j < t.len() implies !((#[trigger] t[i]).store == (
    #[trigger] t[j]).store && t[i].key == t[j].key) by {
        assert(t[i].store == r[i].store && t[i].key == r[i].key);
        assert(t[j].store == r[j].store && t[j].key == r[j].key);
    }
}

/// The entry that a write comes to for its document.
pub open spec fn slot_entry(s: SlotView) -> Entry {
    let key = doc_key_of(encode_utf8(s.store), s.key);
    match s.value {
        Some(bytes) => Entry::put(plain_record(key, bytes), 0),
        None => Entry::deletion(key, 0, 0),
    }
}

/// What one write says of documents.
proof fn lemma_write_entries(
    db: DbView,
    writes: Seq<SlotView>,
    docs: Seq<Option<Json>>,
    k: int,
    store: Seq<char>,
    key: Seq<u8>,
)
    requires
        0 <= k < writes.len(),
        write_entries(db, writes, docs, k) is Ok,
        docs[k] is Some <==> writes[k].value is Some,
        db.names_valid(),
        db.store(store) is Some,
    ensures
        plain(write_entries(db, writes, docs, k)->Ok_0),
        last_for(
            write_entries(db, writes, docs, k)->Ok_0,
            doc_key_of(encode_utf8(store), key),
            0,
        ) == if writes[k].store == store && writes[k].key == key {
            Some(slot_entry(writes[k]))
        } else {
            None
        },
        last_for(
            write_entries(db, writes, docs, k)->Ok_0,
            counter_key_of(encode_utf8(store)),
            0,
        ) is None,
{
    let es = write_entries(db, writes, docs, k)->Ok_0;
    let def = db.store(writes[k].store)->0;
    let sb = encode_utf8(writes[k].store);
    let pk = writes[k].key;
    let old = old_entries(db.engine, def, sb, pk);
    lemma_store_names(db, writes[k].store);
    lemma_store_names(db, store);
    lemma_old_entries(db.engine, def, sb, pk);
    if sb == encode_utf8(store) {
        lemma_same_bytes(writes[k].store, store);
    }
    let after = match docs[k] {
        None => Seq::empty(),
        Some(doc) => {
            lemma_entries_of_document(def.indexes, def.indexes.len(), doc, sb, pk);
            all_puts(def.indexes, def.indexes.len(), doc, sb, pk)
        },
    };
    lemma_change_of_document(old, slot_entry(writes[k]), after, sb, pk, encode_utf8(store), key);
    assert(es =~= old.push(slot_entry(writes[k])) + after);
}

/// The documents of the writes match them.
pub proof fn lemma_written_docs(writes: Seq<SlotView>, n: nat)
    requires
        n <= writes.len(),
        written_docs(writes, n) is Ok,
    ensures
        written_docs(writes, n)->Ok_0.len() == n,
        forall|i: int|
            0 <= i < n ==> (#[trigger] written_docs(writes, n)->Ok_0[i] is Some <==> writes[i].value is Some),
    decreases n,
{
    if n > 0 {
        lemma_written_docs(writes, (n - 1) as nat);
        let docs = written_docs(writes, n)->Ok_0;
        let less = written_docs(writes, (n - 1) as nat)->Ok_0;
        assert forall|i: int| 0 <= i < n implies (#[trigger] docs[i] is Some
            <==> writes[i].value is Some) by {
            if i < n - 1 {
                assert(docs[i] == less[i]);
            }
        }
    }
}

/// What the first `n` writes say of a document.
pub proof fn lemma_all_entries(
    db: DbView,
    writes: Seq<SlotView>,
    docs: Seq<Option<Json>>,
    n: nat,
    store: Seq<char>,
    key: Seq<u8>,
)
    requires
        n <= writes.len(),
        docs.len() == writes.len(),
        forall|i: int| 0 <= i < docs.len() ==> (#[trigger] docs[i] is Some <==> writes[i].value is Some),
        all_entries(db, writes, docs, n) is Ok,
        distinct_slots(writes),
        db.names_valid(),
        db.store(store) is Some,
    ensures
        plain(all_entries(db, writes, docs, n)->Ok_0),
        ({
            let last = last_for(
                all_entries(db, writes, docs, n)->Ok_0,
                doc_key_of(encode_utf8(store), key),
                0,
            );
            &&& forall|i: int|
                0 <= i < n && (#[trigger] writes[i]).store == store && writes[i].key == key ==> last
                    == Some(slot_entry(writes[i]))
            &&& (forall|i: int|
                0 <= i < n ==> !((#[trigger] writes[i]).store == store && writes[i].key == key))
                ==> last is None
        }),
        last_for(
            all_entries(db, writes, docs, n)->Ok_0,
            counter_key_of(encode_utf8(store)),
            0,
        ) is None,
    decreases n,
{
    if n > 0 {
        let m = (n - 1) as nat;
        lemma_all_entries(db, writes, docs, m, store, key);
        let a = all_entries(db, writes, docs, m)->Ok_0;
        let b = write_entries(db, writes, docs, n - 1)->Ok_0;
        assert(docs[n - 1] is Some <==> writes[n - 1].value is Some);
        lemma_write_entries(db, writes, docs, n - 1, store, key);
        lemma_last_for_add(a, b, doc_key_of(encode_utf8(store), key), 0);
        lemma_last_for_add(a, b, counter_key_of(encode_utf8(store)), 0);
        assert forall|i: int| 0 <= i < (a + b).len() implies is_plain_entry(
            #[trigger] (a + b)[i],
        ) by {
            if i < a.len() {
                assert((a + b)[i] == a[i]);
            } else {
                assert((a + b)[i] == b[i - a.len()]);
            }
        }
    }
}

/// After a commit every document that the transaction has written reads as it
/// was written, and every other one reads as before: all writes take effect.
pub proof fn law_commit_takes_effect(tx: TxView, db: DbView, store: Seq<char>, key: Seq<u8>)
    requires
        db.engine.seqs_below(),
        db.names_valid(),
        distinct_slots(tx.writes),
        tx.commit(db).1 is None,
        db.store(store) is Some,
    ensures
        snapshot_value(tx.commit(db).0.engine, encode_utf8(store), key, u64::MAX) == match held(
            tx.writes,
            store,
            key,
        ) {
            Some(v) => v,
            None => snapshot_value(db.engine, encode_utf8(store), key, u64::MAX),
        },
{
    let docs = written_docs(tx.writes, tx.writes.len())->Ok_0;
    lemma_written_docs(tx.writes, tx.writes.len());
    let es = all_entries(db, tx.writes, docs, tx.writes.len())->Ok_0;
    let ids = tx.id_puts();
    let dk = doc_key_of(encode_utf8(store), key);
    lemma_all_entries(db, tx.writes, docs, tx.writes.len(), store, key);
    lemma_last_for_add(ids, es, dk, 0);
    let c = lemma_last_for(ids, dk, 0);
    if last_for(ids, dk, 0) is Some {
        assert(ids[c] == counter_put(encode_utf8(tx.ids[c].0), tx.ids[c].1));
        law_kinds_of_keys_differ(
            encode_utf8(store),
            key,
            encode_utf8(tx.ids[c].0),
            Seq::empty(),
            Seq::empty(),
            key,
        );
    }
    assert(plain(ids + es)) by {
        assert forall|i: int| 0 <= i < (ids + es).len() implies is_plain_entry(
            #[trigger] (ids + es)[i],
        ) by {
            if i < ids.len() {
                assert((ids + es)[i] == counter_put(encode_utf8(tx.ids[i].0), tx.ids[i].1));
            } else {
                assert((ids + es)[i] == es[i - ids.len()]);
            }
        }
    }
    if (ids + es).len() > 0 {
        lemma_committed_reads(db, ids + es, db.schema, dk);
    } else {
        assert(last_for(ids + es, dk, 0) is None);
    }
    let p = slot_position(tx.writes, store, key);
    lemma_slot_position(tx.writes, store, key);
    if p < tx.writes.len() {
        assert(last_for(ids + es, dk, 0) == Some(slot_entry(tx.writes[p])));
    } else {
        assert forall|i: int| 0 <= i < tx.writes.len() implies !((#[trigger] tx.writes[i]).store
            == store && tx.writes[i].key == key) by {
            lemma_no_slot(tx.writes, store, key, i);
        }
    }
}

} // verus!
