//! Indexes hold exactly the entries of the documents that are there.

use vstd::prelude::*;
use vstd::utf8::encode_utf8;

use crate::engine::EngineView;
use crate::engine_laws::{last_for, lemma_last_for, lemma_last_for_add, lemma_written_seqs_below};
use crate::error::FlowErrorView;
use crate::jsondb::db::DbView;
use crate::jsondb::document_laws::{
    has_valid_names, index_entries_only, is_plain_entry, lemma_change_of_document,
    lemma_committed_points, lemma_entries_of_document, lemma_old_entries, lemma_same_bytes, plain,
};
use crate::jsondb::encoding::{
    composite_value, doc_key_of, idx_key_of, is_name, lemma_name_zero_free, zero_free,
};
use crate::jsondb::helpers::{
    all_deletions, all_puts, entered_under, entry_deletions, entry_puts, old_entries, plain_record,
    stored_doc,
};
use crate::jsondb::key_laws::{
    law_document_keys_differ, law_entry_keys_differ, law_kinds_of_keys_differ,
};
use crate::jsondb::schema::{IndexDefView, StoreDefView};
use crate::jsondb::transaction::entered_as;
use crate::jsondb::value::{decoded_doc, Json};
use crate::record::Entry;

verus! {

/// A document is entered under a value in one of the first `n` indexes, that
/// with the name.
pub open spec fn entered_in(
    indexes: Seq<IndexDefView>,
    n: nat,
    doc: Json,
    name: Seq<u8>,
    value: Seq<u8>,
) -> bool {
    exists|i: int|
        0 <= i < n && encode_utf8((#[trigger] indexes[i]).name) == name && entered_as(
            doc,
            indexes[i],
            value,
        )
}

/// The entries of one index among the puts and deletions of a document.
pub proof fn lemma_one_index(
    store: Seq<u8>,
    d: IndexDefView,
    doc: Json,
    pk: Seq<u8>,
    name: Seq<u8>,
    value: Seq<u8>,
)
    requires
        zero_free(store),
        zero_free(encode_utf8(d.name)),
        zero_free(name),
        zero_free(pk),
    ensures
        ({
            let key = idx_key_of(store, name, value, pk);
            let lists = entered_under(doc, d);
            let dn = encode_utf8(d.name);
            let there = dn == name && entered_as(doc, d, value);
            &&& last_for(entry_puts(store, dn, lists, pk), key, 0) == if there {
                Some(Entry::put(plain_record(key, pk), 0))
            } else {
                None
            }
            &&& last_for(entry_deletions(store, dn, lists, pk), key, 0) == if there {
                Some(Entry::deletion(key, 0, 0))
            } else {
                None
            }
        }),
{
    let key = idx_key_of(store, name, value, pk);
    let lists = entered_under(doc, d);
    let dn = encode_utf8(d.name);
    let puts = entry_puts(store, dn, lists, pk);
    let dels = entry_deletions(store, dn, lists, pk);
    let i = lemma_last_for(puts, key, 0);
    let j = lemma_last_for(dels, key, 0);
    if last_for(puts, key, 0) is Some {
        law_entry_keys_differ(
            store,
            name,
            value,
            pk,
            store,
            dn,
            composite_value(lists[i]),
            pk,
        );
        assert(entered_as(doc, d, value));
    }
    if last_for(dels, key, 0) is Some {
        law_entry_keys_differ(
            store,
            name,
            value,
            pk,
            store,
            dn,
            composite_value(lists[j]),
            pk,
        );
        assert(entered_as(doc, d, value));
    }
    if dn == name && entered_as(doc, d, value) {
        let k = choose|k: int|
            0 <= k < entered_under(doc, d).len() && composite_value(
                #[trigger] entered_under(doc, d)[k],
            ) == value;
        assert(puts[k].key == key);
        assert(dels[k].key == key);
    }
}

/// The entries of the first `n` indexes among the puts and deletions of a document.
proof fn lemma_all_indexes(
    indexes: Seq<IndexDefView>,
    n: nat,
    doc: Json,
    store: Seq<u8>,
    pk: Seq<u8>,
    name: Seq<u8>,
    value: Seq<u8>,
)
    requires
        n <= indexes.len(),
        zero_free(store),
        forall|i: int| 0 <= i < indexes.len() ==> zero_free(encode_utf8((#[trigger] indexes[i]).name)),
        zero_free(name),
        zero_free(pk),
    ensures
        ({
            let key = idx_key_of(store, name, value, pk);
            let there = entered_in(indexes, n, doc, name, value);
            &&& last_for(all_puts(indexes, n, doc, store, pk), key, 0) == if there {
                Some(Entry::put(plain_record(key, pk), 0))
            } else {
                None
            }
            &&& last_for(all_deletions(indexes, n, doc, store, pk), key, 0) == if there {
                Some(Entry::deletion(key, 0, 0))
            } else {
                None
            }
        }),
    decreases n,
{
    if n > 0 {
        let m = (n - 1) as nat;
        let d = indexes[n - 1];
        let key = idx_key_of(store, name, value, pk);
        let lists = entered_under(doc, d);
        let dn = encode_utf8(d.name);
        lemma_all_indexes(indexes, m, doc, store, pk, name, value);
        lemma_one_index(store, d, doc, pk, name, value);
        lemma_last_for_add(
            all_puts(indexes, m, doc, store, pk),
            entry_puts(store, dn, lists, pk),
            key,
            0,
        );
        lemma_last_for_add(
            all_deletions(indexes, m, doc, store, pk),
            entry_deletions(store, dn, lists, pk),
            key,
            0,
        );
        if entered_in(indexes, m, doc, name, value) {
            let i = choose|i: int|
                0 <= i < m && encode_utf8((#[trigger] indexes[i]).name) == name && entered_as(
                    doc,
                    indexes[i],
                    value,
                );
            assert(0 <= i < n && encode_utf8(indexes[i].name) == name);
        }
        if dn == name && entered_as(doc, d, value) {
            assert(entered_in(indexes, n, doc, name, value));
        }
        if entered_in(indexes, n, doc, name, value) {
            let i = choose|i: int|
                0 <= i < n && encode_utf8((#[trigger] indexes[i]).name) == name && entered_as(
                    doc,
                    indexes[i],
                    value,
                );
            if i < m {
                assert(entered_in(indexes, m, doc, name, value));
            }
        }
    }
}

/// The entries that a change of one document comes to: those of the old
/// document go, then comes what is said of the document, then its entries.
pub open spec fn change(
    v: EngineView,
    def: StoreDefView,
    store: Seq<u8>,
    pk: Seq<u8>,
    e: Entry,
    new: Option<Json>,
) -> Seq<Entry> {
    old_entries(v, def, store, pk).push(e) + match new {
        Some(doc) => all_puts(def.indexes, def.indexes.len(), doc, store, pk),
        None => Seq::empty(),
    }
}

/// The old document has an entry in the index with the name.
pub open spec fn old_entered(
    v: EngineView,
    def: StoreDefView,
    store: Seq<u8>,
    pk: Seq<u8>,
    name: Seq<u8>,
    value: Seq<u8>,
) -> bool {
    match stored_doc(v, store, pk) {
        Some(old) => entered_in(def.indexes, def.indexes.len(), old, name, value),
        None => false,
    }
}

/// The new document has an entry in the index with the name.
pub open spec fn new_entered(
    def: StoreDefView,
    new: Option<Json>,
    name: Seq<u8>,
    value: Seq<u8>,
) -> bool {
    match new {
        Some(doc) => entered_in(def.indexes, def.indexes.len(), doc, name, value),
        None => false,
    }
}

/// What a change of one document says of index entries.
pub proof fn lemma_change_of_entries(
    v: EngineView,
    def: StoreDefView,
    store: Seq<u8>,
    pk: Seq<u8>,
    e: Entry,
    new: Option<Json>,
    other: Seq<u8>,
    name: Seq<u8>,
    value: Seq<u8>,
    key: Seq<u8>,
)
    requires
        has_valid_names(def),
        zero_free(store),
        zero_free(pk),
        zero_free(other),
        zero_free(name),
        zero_free(key),
        e.key == doc_key_of(store, pk),
        is_plain_entry(e),
    ensures
        plain(change(v, def, store, pk, e, new)),
        last_for(change(v, def, store, pk, e, new), idx_key_of(other, name, value, key), 0) == if other
            == store && key == pk {
            if new_entered(def, new, name, value) {
                Some(Entry::put(plain_record(idx_key_of(store, name, value, pk), pk), 0))
            } else if old_entered(v, def, store, pk, name, value) {
                Some(Entry::deletion(idx_key_of(store, name, value, pk), 0, 0))
            } else {
                None
            }
        } else {
            None
        },
{
    let ik = idx_key_of(other, name, value, key);
    let old = old_entries(v, def, store, pk);
    let puts = match new {
        Some(doc) => {
            lemma_entries_of_document(def.indexes, def.indexes.len(), doc, store, pk);
            all_puts(def.indexes, def.indexes.len(), doc, store, pk)
        },
        None => Seq::empty(),
    };
    lemma_old_entries(v, def, store, pk);
    lemma_change_of_document(old, e, puts, store, pk, store, pk);
    lemma_last_for_add(old.push(e), puts, ik, 0);
    assert(change(v, def, store, pk, e, new) == old.push(e) + puts);
    assert(last_for(old.push(e), ik, 0) == last_for(old, ik, 0)) by {
        assert(old.push(e).drop_last() =~= old);
        law_kinds_of_keys_differ(store, pk, other, name, value, key);
    }
    assert forall|i: int| 0 <= i < def.indexes.len() implies zero_free(
        encode_utf8((#[trigger] def.indexes[i]).name),
    ) by {
        lemma_name_zero_free(encode_utf8(def.indexes[i].name));
    }
    if other == store && key == pk {
        if let Some(doc) = new {
            lemma_all_indexes(def.indexes, def.indexes.len(), doc, store, pk, name, value);
        }
        match stored_doc(v, store, pk) {
            Some(doc) => {
                lemma_all_indexes(def.indexes, def.indexes.len(), doc, store, pk, name, value);
            },
            None => {
                assert(last_for(old, ik, 0) is None);
            },
        }
        if new is None {
            assert(last_for(puts, ik, 0) is None);
        }
    } else {
        if let Some(doc) = new {
            lemma_known_entries(def, def.indexes.len(), doc, store, pk);
        }
        if let Some(doc) = stored_doc(v, store, pk) {
            lemma_known_entries(def, def.indexes.len(), doc, store, pk);
        }
        lemma_foreign_entries(old, store, pk, def, other, name, value, key);
        lemma_foreign_entries(puts, store, pk, def, other, name, value, key);
    }
}

/// The entries of a document are not those of another one.
proof fn lemma_foreign_entries(
    es: Seq<Entry>,
    store: Seq<u8>,
    pk: Seq<u8>,
    def: StoreDefView,
    other: Seq<u8>,
    name: Seq<u8>,
    value: Seq<u8>,
    key: Seq<u8>,
)
    requires
        index_entries_only(es, store, pk),
        forall|i: int| 0 <= i < es.len() ==> known_entry(#[trigger] es[i], def, store, pk),
        has_valid_names(def),
        zero_free(store),
        zero_free(pk),
        zero_free(other),
        zero_free(name),
        zero_free(key),
        !(other == store && key == pk),
    ensures
        last_for(es, idx_key_of(other, name, value, key), 0) is None,
{
    let ik = idx_key_of(other, name, value, key);
    let i = lemma_last_for(es, ik, 0);
    if last_for(es, ik, 0) is Some {
        assert(known_entry(es[i], def, store, pk));
        let (k, val) = choose|k: int, val: Seq<u8>|
            0 <= k < def.indexes.len() && es[i].key == #[trigger] entry_key(def, store, k, val, pk);
        lemma_name_zero_free(encode_utf8(def.indexes[k].name));
        law_entry_keys_differ(
            other,
            name,
            value,
            key,
            store,
            encode_utf8(def.indexes[k].name),
            val,
            pk,
        );
    }
}

/// The key of an entry in the index at position `k`.
pub open spec fn entry_key(
    def: StoreDefView,
    store: Seq<u8>,
    k: int,
    value: Seq<u8>,
    pk: Seq<u8>,
) -> Seq<u8> {
    idx_key_of(store, encode_utf8(def.indexes[k].name), value, pk)
}

/// `e` is about an entry of a document in one of the store's indexes.
pub open spec fn known_entry(e: Entry, def: StoreDefView, store: Seq<u8>, pk: Seq<u8>) -> bool {
    exists|k: int, value: Seq<u8>|
        0 <= k < def.indexes.len() && e.key == #[trigger] entry_key(def, store, k, value, pk)
}

/// The entries of a document are in the store's indexes.
pub proof fn lemma_known_entries(def: StoreDefView, n: nat, doc: Json, store: Seq<u8>, pk: Seq<u8>)
    requires
        n <= def.indexes.len(),
    ensures
        forall|i: int|
            0 <= i < all_puts(def.indexes, n, doc, store, pk).len() ==> known_entry(
                #[trigger] all_puts(def.indexes, n, doc, store, pk)[i],
                def,
                store,
                pk,
            ),
        forall|i: int|
            0 <= i < all_deletions(def.indexes, n, doc, store, pk).len() ==> known_entry(
                #[trigger] all_deletions(def.indexes, n, doc, store, pk)[i],
                def,
                store,
                pk,
            ),
    decreases n,
{
    if n > 0 {
        let m = (n - 1) as nat;
        lemma_known_entries(def, m, doc, store, pk);
        let d = def.indexes[n - 1];
        let lists = entered_under(doc, d);
        let a = all_puts(def.indexes, m, doc, store, pk);
        let b = all_deletions(def.indexes, m, doc, store, pk);
        let p = all_puts(def.indexes, n, doc, store, pk);
        let q = all_deletions(def.indexes, n, doc, store, pk);
        assert forall|i: int| 0 <= i < p.len() implies known_entry(#[trigger] p[i], def, store, pk) by {
            if i < a.len() {
                assert(p[i] == a[i]);
            } else {
                let val = composite_value(lists[i - a.len()]);
                assert(p[i].key == entry_key(def, store, n - 1, val, pk));
            }
        }
        assert forall|i: int| 0 <= i < q.len() implies known_entry(#[trigger] q[i], def, store, pk) by {
            if i < b.len() {
                assert(q[i] == b[i]);
            } else {
                let val = composite_value(lists[i - b.len()]);
                assert(q[i].key == entry_key(def, store, n - 1, val, pk));
            }
        }
    }
}

/// The bytes of a store's name.
pub open spec fn name_of(def: StoreDefView) -> Seq<u8> {
    encode_utf8(def.name)
}

/// The document under a key is entered in an index under a value.
pub open spec fn entered(
    v: EngineView,
    store: Seq<u8>,
    pk: Seq<u8>,
    d: IndexDefView,
    value: Seq<u8>,
) -> bool {
    match stored_doc(v, store, pk) {
        Some(doc) => entered_as(doc, d, value),
        None => false,
    }
}

/// An index holds exactly the entries of the documents that are there.
pub open spec fn index_agrees(v: EngineView, store: Seq<u8>, d: IndexDefView) -> bool {
    forall|value: Seq<u8>, pk: Seq<u8>|
        zero_free(pk) ==> #[trigger] v.point(idx_key_of(store, encode_utf8(d.name), value, pk), 0)
            == if entered(v, store, pk, d, value) {
            Some(plain_record(idx_key_of(store, encode_utf8(d.name), value, pk), pk))
        } else {
            None
        }
}

/// Every document of a store can be read, and every index agrees with them.
pub open spec fn store_agrees(v: EngineView, def: StoreDefView) -> bool {
    &&& forall|pk: Seq<u8>|
        (#[trigger] v.point(doc_key_of(name_of(def), pk), 0)) is Some ==> stored_doc(
            v,
            name_of(def),
            pk,
        ) is Some
    &&& forall|k: int|
        0 <= k < def.indexes.len() ==> index_agrees(v, name_of(def), #[trigger] def.indexes[k])
}

/// The key of a document in the store at position `i`.
pub open spec fn document_key(schema: Seq<StoreDefView>, i: int, pk: Seq<u8>) -> Seq<u8> {
    doc_key_of(name_of(schema[i]), pk)
}

/// A key among those of documents and index entries is one of a store that is
/// there.
pub open spec fn known_key(schema: Seq<StoreDefView>, key: Seq<u8>) -> bool {
    &&& key.len() > 0 && key[0] == 68 ==> exists|i: int, pk: Seq<u8>|
        0 <= i < schema.len() && zero_free(pk) && key == #[trigger] document_key(schema, i, pk)
    &&& key.len() > 0 && key[0] == 73 ==> exists|i: int, k: int, value: Seq<u8>, pk: Seq<u8>|
        0 <= i < schema.len() && 0 <= k < schema[i].indexes.len() && zero_free(pk) && key
            == #[trigger] entry_key(schema[i], name_of(schema[i]), k, value, pk)
}

/// A key is one of documents or index entries.
pub open spec fn is_content_key(key: Seq<u8>) -> bool {
    key.len() > 0 && (key[0] == 68 || key[0] == 73)
}

impl DbView {
    /// The documents and the indexes agree, and there is nothing of stores and
    /// indexes that do not exist.
    pub open spec fn consistent(self) -> bool {
        &&& self.names_valid()
        &&& self.engine.seqs_below()
        &&& forall|i: int|
            0 <= i < self.schema.len() ==> store_agrees(self.engine, #[trigger] self.schema[i])
        &&& forall|key: Seq<u8>, ts: i64|
            (#[trigger] self.engine.point(key, ts)) is Some && is_content_key(key) ==> ts == 0
                && known_key(self.schema, key)
    }
}

/// A batch says nothing of a document and its entries.
pub open spec fn leaves(es: Seq<Entry>, store: Seq<u8>, pk: Seq<u8>) -> bool {
    &&& last_for(es, doc_key_of(store, pk), 0) is None
    &&& forall|name: Seq<u8>, value: Seq<u8>|
        zero_free(name) ==> last_for(es, #[trigger] idx_key_of(store, name, value, pk), 0) is None
}

/// A batch puts or deletes a document, together with its entries.
pub open spec fn replaces(
    es: Seq<Entry>,
    v: EngineView,
    def: StoreDefView,
    pk: Seq<u8>,
    new: Option<Json>,
) -> bool {
    let store = name_of(def);
    &&& match last_for(es, doc_key_of(store, pk), 0) {
        Some(e) => match new {
            Some(doc) => e.op is Put && decoded_doc(e.value) == Ok::<
                Json,
                FlowErrorView,
            >(doc),
            None => e.op is Delete,
        },
        None => false,
    }
    &&& forall|name: Seq<u8>, value: Seq<u8>|
        zero_free(name) ==> last_for(es, #[trigger] idx_key_of(store, name, value, pk), 0)
            == if new_entered(def, new, name, value) {
            Some(Entry::put(plain_record(idx_key_of(store, name, value, pk), pk), 0))
        } else if old_entered(v, def, store, pk, name, value) {
            Some(Entry::deletion(idx_key_of(store, name, value, pk), 0, 0))
        } else {
            None
        }
}

/// A batch deals with every document of a store as a whole.
pub open spec fn whole_documents(es: Seq<Entry>, v: EngineView, def: StoreDefView) -> bool {
    forall|pk: Seq<u8>|
        zero_free(pk) ==> #[trigger] leaves(es, name_of(def), pk) || exists|new: Option<Json>|
            replaces(es, v, def, pk, new)
}

/// A document is entered in a store's index at position `k` where it is entered
/// in the index of that name.
pub proof fn lemma_entered_in(def: StoreDefView, k: int, doc: Json, value: Seq<u8>)
    requires
        has_valid_names(def),
        0 <= k < def.indexes.len(),
    ensures
        entered_in(
            def.indexes,
            def.indexes.len(),
            doc,
            encode_utf8(def.indexes[k].name),
            value,
        ) <==> entered_as(doc, def.indexes[k], value),
{
    let name = encode_utf8(def.indexes[k].name);
    if entered_in(def.indexes, def.indexes.len(), doc, name, value) {
        let i = choose|i: int|
            0 <= i < def.indexes.len() && encode_utf8((#[trigger] def.indexes[i]).name) == name
                && entered_as(doc, def.indexes[i], value);
        lemma_same_bytes(def.indexes[i].name, def.indexes[k].name);
        if i < k {
            assert(def.indexes[i].name != def.indexes[k].name);
        } else if k < i {
            assert(def.indexes[k].name != def.indexes[i].name);
        }
    }
}

/// What a batch of whole documents leaves in a store.
pub proof fn lemma_store_after_batch(db: DbView, es: Seq<Entry>, i: int)
    requires
        db.consistent(),
        plain(es),
        db.committed(es, db.schema).1 is None,
        0 <= i < db.schema.len(),
        whole_documents(es, db.engine, db.schema[i]),
        forall|j: int|
            0 <= j < es.len() ==> known_key(db.schema, (#[trigger] es[j]).key),
    ensures
        store_agrees(db.committed(es, db.schema).0.engine, db.schema[i]),
{
    let w = db.committed(es, db.schema).0.engine;
    let v = db.engine;
    let def = db.schema[i];
    let store = name_of(def);
    assert(has_valid_names(def));
    lemma_name_zero_free(store);
    assert(store_agrees(v, def));
    assert forall|pk: Seq<u8>| (#[trigger] w.point(doc_key_of(store, pk), 0)) is Some implies stored_doc(
        w,
        store,
        pk,
    ) is Some by {
        let key = doc_key_of(store, pk);
        lemma_committed_points(db, es, db.schema, key, 0);
        let j = lemma_last_for(es, key, 0);
        assert(key[0] == 68);
        if last_for(es, key, 0) is Some {
            assert(known_key(db.schema, es[j].key));
            let (i2, pk2) = choose|i2: int, pk2: Seq<u8>|
                0 <= i2 < db.schema.len() && zero_free(pk2) && key == #[trigger] document_key(
                    db.schema,
                    i2,
                    pk2,
                );
            assert(has_valid_names(db.schema[i2]));
            lemma_name_zero_free(name_of(db.schema[i2]));
            law_document_keys_differ(store, pk, name_of(db.schema[i2]), pk2);
            assert(!leaves(es, store, pk));
            let new = choose|new: Option<Json>| replaces(es, v, def, pk, new);
            assert(replaces(es, v, def, pk, new));
        } else {
            assert(v.point(key, 0) is Some);
        }
    }
    assert forall|k: int| 0 <= k < def.indexes.len() implies index_agrees(
        w,
        store,
        #[trigger] def.indexes[k],
    ) by {
        let d = def.indexes[k];
        let name = encode_utf8(d.name);
        assert(is_name(name));
        lemma_name_zero_free(name);
        assert(index_agrees(v, store, d));
        assert forall|value: Seq<u8>, pk: Seq<u8>| zero_free(pk) implies #[trigger] w.point(
            idx_key_of(store, name, value, pk),
            0,
        ) == if entered(w, store, pk, d, value) {
            Some(plain_record(idx_key_of(store, name, value, pk), pk))
        } else {
            None
        } by {
            let key = idx_key_of(store, name, value, pk);
            lemma_committed_points(db, es, db.schema, key, 0);
            lemma_committed_points(db, es, db.schema, doc_key_of(store, pk), 0);
            assert(v.point(key, 0) == if entered(v, store, pk, d, value) {
                Some(plain_record(key, pk))
            } else {
                None
            });
            if !leaves(es, store, pk) {
                let new = choose|new: Option<Json>| replaces(es, v, def, pk, new);
                assert(replaces(es, v, def, pk, new));
                if let Some(doc) = new {
                    lemma_entered_in(def, k, doc, value);
                }
                if let Some(doc) = stored_doc(v, store, pk) {
                    lemma_entered_in(def, k, doc, value);
                }
                assert(stored_doc(w, store, pk) == new);
            }
        }
    }
}

/// A batch that deals with whole documents keeps a database consistent.
pub proof fn lemma_batch_keeps_consistent(db: DbView, es: Seq<Entry>)
    requires
        db.consistent(),
        plain(es),
        db.committed(es, db.schema).1 is None,
        forall|i: int|
            0 <= i < db.schema.len() ==> whole_documents(
                es,
                db.engine,
                #[trigger] db.schema[i],
            ),
        forall|j: int| 0 <= j < es.len() ==> known_key(db.schema, (#[trigger] es[j]).key),
    ensures
        db.committed(es, db.schema).0.consistent(),
{
    let after = db.committed(es, db.schema).0;
    lemma_written_seqs_below(db.engine, es);
    assert forall|i: int| 0 <= i < after.schema.len() implies store_agrees(
        after.engine,
        #[trigger] after.schema[i],
    ) by {
        assert(whole_documents(es, db.engine, db.schema[i]));
        lemma_store_after_batch(db, es, i);
    }
    assert forall|key: Seq<u8>, ts: i64|
        (#[trigger] after.engine.point(key, ts)) is Some && is_content_key(key) implies ts == 0
        && known_key(after.schema, key) by {
        lemma_committed_points(db, es, db.schema, key, ts);
        let j = lemma_last_for(es, key, ts);
        if last_for(es, key, ts) is Some {
            assert(known_key(db.schema, es[j].key));
        } else {
            assert(db.engine.point(key, ts) is Some);
        }
    }
}

} // verus!
