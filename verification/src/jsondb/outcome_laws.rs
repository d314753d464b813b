//! What the operations on a database answer.

use vstd::prelude::*;
use vstd::utf8::encode_utf8;

use crate::engine_laws::law_current_snapshot_sees_everything;
use crate::error::{decimal, FlowErrorView, Result};
use crate::jsondb::change_laws::law_put_under_an_id_is_stored;
use crate::jsondb::cursor::{gives_doc, gives_item};
use crate::jsondb::db::{comes_to, DbView};
use crate::jsondb::document_laws::{law_deleted_document_is_gone, law_put_is_read_back};
use crate::jsondb::documents::{as_limit, carried_out, gives_list, with_id};
use crate::jsondb::encoding::{doc_key_of, primary_key};
use crate::jsondb::helpers::{next_id, stored_doc};
use crate::jsondb::transaction::tx_reads;
use crate::jsondb::value::{field_at, reads_back, Json, JsonValue, NumberView};

verus! {

/// The document that a read of a key gives.
pub open spec fn reads_as(db: DbView, store: Seq<char>, key: Json, doc: Json) -> bool {
    let r = db.read(store, key, u64::MAX);
    r is Ok && r->Ok_0 is Some && (r->Ok_0->0).0 == doc
}

/// A put that is answered with a key has stored the document under it: it is the
/// key that the document holds, and a read of it gives the document. One that is
/// answered with an error has changed nothing.
pub proof fn law_put_answers_with_the_key(
    before: DbView,
    after: DbView,
    store: Seq<char>,
    doc: Json,
    r: Result<JsonValue>,
)
    requires
        before.engine.seqs_below(),
        before.names_valid(),
        carried_out(before.put_plan(store, doc), before, after, r),
    ensures
        r is Err ==> after == before,
        r is Ok ==> before.store(store) is Some && field_at(
            doc,
            encode_utf8(before.store(store)->0.key_path),
        ) == Some(r->Ok_0@),
        r is Ok && reads_back(doc) ==> reads_as(after, store, r->Ok_0@, doc),
{
    if r is Ok {
        law_put_is_read_back(before, store, doc);
    }
}

/// An add that is answered with a key found nothing under it and has stored the
/// document there. One that is answered with an error has changed nothing.
pub proof fn law_add_answers_with_the_key(
    before: DbView,
    after: DbView,
    store: Seq<char>,
    doc: Json,
    r: Result<JsonValue>,
)
    requires
        before.engine.seqs_below(),
        before.names_valid(),
        carried_out(before.add_plan(store, doc), before, after, r),
    ensures
        r is Err ==> after == before,
        r is Ok ==> before.store(store) is Some && field_at(
            doc,
            encode_utf8(before.store(store)->0.key_path),
        ) == Some(r->Ok_0@),
        r is Ok ==> primary_key(r->Ok_0@) is Ok && stored_doc(
            before.engine,
            encode_utf8(store),
            primary_key(r->Ok_0@)->Ok_0,
        ) is None,
        r is Ok && reads_back(doc) ==> reads_as(after, store, r->Ok_0@, doc),
{
    if r is Ok {
        assert(before.add_plan(store, doc) == before.put_plan(store, doc));
        law_put_is_read_back(before, store, doc);
        let pk = primary_key(r->Ok_0@)->Ok_0;
        assert(before.engine.point(doc_key_of(encode_utf8(store), pk), 0) is None);
    }
}

/// A put under an id is answered with the id, one more than the last, and has
/// stored the document under it. One that is answered with an error has changed
/// nothing.
pub proof fn law_put_answers_with_the_id(
    before: DbView,
    after: DbView,
    store: Seq<char>,
    doc: Json,
    r: Result<JsonValue>,
)
    requires
        before.consistent(),
        carried_out(before.auto_plan(store, doc), before, after, r),
    ensures
        r is Err ==> after == before,
        r is Ok ==> ({
            let sb = encode_utf8(store);
            let id = next_id(before.engine, sb)->Ok_0;
            let with = with_id(doc, before.store(store)->0.key_path, id);
            &&& next_id(before.engine, sb) is Ok
            &&& r->Ok_0@ == Json::Number(NumberView::PosInt(id))
            &&& reads_back(with) ==> stored_doc(
                after.engine,
                sb,
                encode_utf8(decimal(id as nat)),
            ) == Some(with)
        }),
{
    if r is Ok {
        law_put_under_an_id_is_stored(before, store, doc, store, Seq::empty());
    }
}

/// A deletion that is answered without an error leaves nothing under the key.
pub proof fn law_deletion_is_answered(
    before: DbView,
    after: DbView,
    store: Seq<char>,
    key: Json,
    r: Result<()>,
)
    requires
        before.engine.seqs_below(),
        before.names_valid(),
        comes_to(before.delete_doc(store, key), after, r),
    ensures
        r is Ok ==> after.read(store, key, u64::MAX) is Ok && after.read(
            store,
            key,
            u64::MAX,
        )->Ok_0 is None,
        r is Err ==> after == before,
{
    if r is Ok {
        law_deleted_document_is_gone(before, store, key);
    }
}

/// A transaction that begins sees all that has been written, and nothing that is
/// written later has a number that it sees.
pub proof fn law_beginning_transaction_sees_everything(db: DbView, store: Seq<char>, key: Json)
    requires
        db.engine.seqs_below(),
        db.engine.next_seq > 0,
    ensures
        db.read(store, key, db.last_seq()) == db.read(store, key, u64::MAX),
        db.last_seq() < db.engine.next_seq,
{
    if primary_key(key) is Ok {
        let k = doc_key_of(encode_utf8(store), primary_key(key)->Ok_0);
        law_current_snapshot_sees_everything(db.engine, k, 0, db.last_seq());
        law_current_snapshot_sees_everything(db.engine, k, 0, u64::MAX);
    }
}

/// A list is answered document by document, in order; an error is answered where
/// there is no list.
pub proof fn law_list_is_answered(
    found: core::result::Result<Seq<Json>, FlowErrorView>,
    r: Result<Vec<JsonValue>>,
)
    requires
        gives_list(found, r),
    ensures
        r is Ok <==> found is Ok,
        r is Ok ==> r->Ok_0@.len() == found->Ok_0.len(),
        r is Ok ==> forall|i: int|
            0 <= i < found->Ok_0.len() ==> (#[trigger] r->Ok_0@[i])@ == found->Ok_0[i],
        r is Err ==> r->Err_0@ == found->Err_0,
{
}

/// A limit is taken as it is given.
pub proof fn law_limit_is_as_given(n: usize)
    ensures
        as_limit(Some(n)) == Some(n as nat),
        as_limit(None) is None,
{
}

/// A read in a transaction is answered with the document that it finds, with
/// none where it finds none, and with an error where there is one.
pub proof fn law_transaction_read_is_answered(
    found: core::result::Result<Option<Json>, FlowErrorView>,
    r: Result<Option<JsonValue>>,
)
    requires
        tx_reads(found, r),
    ensures
        r is Ok <==> found is Ok,
        r is Ok ==> (r->Ok_0 is Some <==> found->Ok_0 is Some),
        r is Ok && found->Ok_0 is Some ==> (r->Ok_0->0)@ == found->Ok_0->0,
        r is Err ==> r->Err_0@ == found->Err_0,
{
}

/// A cursor over a store shows the primary key and the document of its item; one
/// over an index shows the index value before them.
pub proof fn law_cursor_shows_its_item(
    value: Json,
    key: Json,
    doc: Json,
    a: Option<(JsonValue, JsonValue)>,
    b: Option<(JsonValue, JsonValue, JsonValue)>,
)
    ensures
        gives_doc(Some((value, key, doc)), a) <==> a is Some && (a->0).0@ == key && (a->0).1@
            == doc,
        gives_item(Some((value, key, doc)), b) <==> b is Some && (b->0).0@ == value && (b->0).1@
            == key && (b->0).2@ == doc,
        gives_doc(None, a) <==> a is None,
        gives_item(None, b) <==> b is None,
{
}

} // verus!
