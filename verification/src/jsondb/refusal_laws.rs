//! What is said of what is refused.

use vstd::prelude::*;
use vstd::utf8::encode_utf8;

use crate::error::FlowErrorView;
use crate::jsondb::change_laws::{clashes, lemma_any_taken, lemma_unique_complaint};
use crate::jsondb::db::{no_index, no_key, no_store, DbView};
use crate::jsondb::documents::{key_exists, not_auto};
use crate::jsondb::encoding::primary_key;
use crate::jsondb::helpers::{entered_under, first_taken, unique_complaint, unique_error};
use crate::jsondb::schema::IndexDefView;
use crate::jsondb::transaction::{conflict_error, tx_key_exists, tx_unique_error};
use crate::jsondb::value::{encoded_doc, field_at, json_debug, Json};

verus! {

/// The text of an error of the database has the part in it.
pub open spec fn names(e: FlowErrorView, part: Seq<char>) -> bool {
    e is JsonDb && exists|a: Seq<char>, b: Seq<char>| e->JsonDb_0 == #[trigger] (a + part + b)
}

proof fn lemma_names(e: FlowErrorView, a: Seq<char>, part: Seq<char>, b: Seq<char>)
    requires
        e is JsonDb,
        e->JsonDb_0 == a + part + b,
    ensures
        names(e, part),
{
}

/// What is not there, or is there already, is named: the store, and the index or
/// the field that it is about.
pub proof fn law_refusal_names_what_it_is_about(
    store: Seq<char>,
    index: Seq<char>,
    path: Seq<char>,
    key: Json,
    vals: Seq<Json>,
)
    ensures
        names(no_store(store), store),
        names(no_index(index, store), index),
        names(no_index(index, store), store),
        names(no_key(path, store), path),
        names(no_key(path, store), store),
        names(key_exists(key, store), store),
        names(not_auto(store), store),
        names(unique_error(index, vals), index),
        names(tx_unique_error(index, vals), index),
        names(tx_key_exists(store), store),
        names(conflict_error(store), store),
{
    let none = Seq::<char>::empty();
    lemma_names(no_store(store), "store '"@, store, "' not found"@);
    let t = no_index(index, store)->JsonDb_0;
    assert(t =~= "index '"@ + index + ("' not found on '"@ + store + "'"@));
    lemma_names(no_index(index, store), "index '"@, index, "' not found on '"@ + store + "'"@);
    lemma_names(no_index(index, store), "index '"@ + index + "' not found on '"@, store, "'"@);
    let t = no_key(path, store)->JsonDb_0;
    let a = "document missing key_path '"@;
    assert(t =~= a + path + ("' for store '"@ + store + "'"@));
    lemma_names(no_key(path, store), a, path, "' for store '"@ + store + "'"@);
    lemma_names(no_key(path, store), a + path + "' for store '"@, store, "'"@);
    lemma_names(
        key_exists(key, store),
        "a record with key '"@ + json_debug(key) + "' already exists in store '"@,
        store,
        "'"@,
    );
    lemma_names(not_auto(store), "store '"@, store, "' is not auto-increment"@);
    lemma_error_names_index(unique_error(index, vals), index);
    lemma_error_names_index(tx_unique_error(index, vals), index);
    lemma_names(tx_key_exists(store), "key already exists in store '"@, store, "'"@);
    lemma_names(
        conflict_error(store),
        "transaction conflict: a document read from store '"@,
        store,
        "' was changed by another writer"@,
    );
}

proof fn lemma_error_names_index(e: FlowErrorView, index: Seq<char>)
    requires
        exists|vals: Seq<Json>|
            e == #[trigger] unique_error(index, vals) || e == tx_unique_error(index, vals),
    ensures
        names(e, index),
{
    let vals = choose|vals: Seq<Json>|
        e == #[trigger] unique_error(index, vals) || e == tx_unique_error(index, vals);
    let t = e->JsonDb_0;
    let a = if e == unique_error(index, vals) {
        "unique constraint violation: index '"@
    } else {
        "unique constraint violation in transaction: index '"@
    };
    let b = t.skip((a.len() + index.len()) as int);
    assert(t =~= a + index + b);
}

/// The index at position `k` is the first unique one in which a document has
/// values of another.
pub open spec fn first_clash(
    db: DbView,
    store: Seq<char>,
    indexes: Seq<IndexDefView>,
    doc: Json,
    pk: Seq<u8>,
    k: int,
) -> bool {
    &&& 0 <= k < indexes.len()
    &&& indexes[k].unique
    &&& clashes(db, store, indexes[k], doc, pk)
    &&& forall|j: int|
        0 <= j < k && (#[trigger] indexes[j]).unique ==> !clashes(db, store, indexes[j], doc, pk)
}

proof fn lemma_first_clash(db: DbView, store: Seq<char>, n: nat, doc: Json, pk: Seq<u8>)
    requires
        db.consistent(),
        db.engine.in_step(),
        db.store(store) is Some,
        n <= db.store(store)->0.indexes.len(),
        forall|k: int|
            0 <= k < db.store(store)->0.indexes.len() ==> (
            #[trigger] db.store(store)->0.indexes[k]).key_paths.len() > 0,
        unique_complaint(
            db.engine,
            db.store(store)->0.indexes,
            n,
            doc,
            encode_utf8(store),
            pk,
        ) is Some,
    ensures
        exists|k: int| #[trigger]
            first_clash(db, store, db.store(store)->0.indexes, doc, pk, k) && k < n && names(
                unique_complaint(
                    db.engine,
                    db.store(store)->0.indexes,
                    n,
                    doc,
                    encode_utf8(store),
                    pk,
                )->0,
                db.store(store)->0.indexes[k].name,
            ),
    decreases n,
{
    let ix = db.store(store)->0.indexes;
    let sb = encode_utf8(store);
    let m = (n - 1) as nat;
    let before = unique_complaint(db.engine, ix, m, doc, sb, pk);
    if before is Some {
        lemma_first_clash(db, store, m, doc, pk);
    } else {
        lemma_unique_complaint(db, store, m, doc, pk);
        assert(ix[n - 1].key_paths.len() > 0);
        lemma_any_taken(db, store, n - 1, doc, pk);
        let d = ix[n - 1];
        let vals = first_taken(db.engine, sb, encode_utf8(d.name), entered_under(doc, d), pk);
        law_refusal_names_what_it_is_about(store, d.name, Seq::empty(), doc, vals);
        assert(first_clash(db, store, ix, doc, pk, n - 1));
    }
}

/// A put into a store that is not there names the store, and one of a document
/// without a key the field that the key is in.
pub proof fn law_put_names_what_is_missing(db: DbView, store: Seq<char>, doc: Json)
    ensures
        db.store(store) is None ==> db.put_plan(store, doc) is Err && names(
            db.put_plan(store, doc)->Err_0,
            store,
        ),
        db.store(store) is Some && field_at(
            doc,
            encode_utf8(db.store(store)->0.key_path),
        ) is None ==> db.put_plan(store, doc) is Err && names(
            db.put_plan(store, doc)->Err_0,
            store,
        ) && names(db.put_plan(store, doc)->Err_0, db.store(store)->0.key_path),
{
    let path = db.store(store)->0.key_path;
    law_refusal_names_what_it_is_about(store, Seq::empty(), path, doc, Seq::empty());
}

/// A put that is refused for the values of the document names the first unique
/// index in which another document has them.
pub proof fn law_put_names_the_index_that_refuses(
    db: DbView,
    store: Seq<char>,
    doc: Json,
    key: Json,
    pk: Seq<u8>,
    at: int,
)
    requires
        db.consistent(),
        db.engine.in_step(),
        db.store(store) is Some,
        forall|k: int|
            0 <= k < db.store(store)->0.indexes.len() ==> (
            #[trigger] db.store(store)->0.indexes[k]).key_paths.len() > 0,
        field_at(doc, encode_utf8(db.store(store)->0.key_path)) == Some(key),
        primary_key(key) is Ok,
        primary_key(key)->Ok_0 == pk,
        encoded_doc(doc) is Ok,
        first_clash(db, store, db.store(store)->0.indexes, doc, pk, at),
    ensures
        db.put_plan(store, doc) is Err,
        names(db.put_plan(store, doc)->Err_0, db.store(store)->0.indexes[at].name),
{
    let ix = db.store(store)->0.indexes;
    lemma_unique_complaint(db, store, ix.len(), doc, pk);
    assert(ix[at].unique);
    lemma_first_clash(db, store, ix.len(), doc, pk);
    let k = choose|k: int| #[trigger]
        first_clash(db, store, ix, doc, pk, k) && k < ix.len() && names(
            unique_complaint(db.engine, ix, ix.len(), doc, encode_utf8(store), pk)->0,
            ix[k].name,
        );
    if k < at {
        assert(ix[k].unique);
    }
    if at < k {
        assert(ix[at].unique);
    }
}

} // verus!
