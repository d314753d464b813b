//! Which documents listings and cursors give, and in which order.

use vstd::prelude::*;
use vstd::utf8::encode_utf8;

use crate::bytes::{
    has_prefix, lemma_lex_le_transitive, lemma_prefix_range, less_at, lex_le, lex_lt,
};
use crate::engine_laws::law_scan_is_ascending;
use crate::error::FlowErrorView;
use crate::jsondb::consistency_laws::lemma_store_at;
use crate::jsondb::cursor::{directed, doc_items, entry_items, CursorDirection, Item};
use crate::jsondb::db::{key_or_null, DbView};
use crate::jsondb::definition_laws::lemma_document_prefix;
use crate::jsondb::document_laws::{has_valid_names, lemma_index_position, lemma_store_names};
use crate::jsondb::documents::{docs_in, docs_of_entries, keys_in, one_less};
use crate::jsondb::encoding::{
    composite_value, doc_key_of, doc_prefix_of, idx_key_of, idx_prefix_of, index_value,
    lemma_name_zero_free, primary_key, zero_free,
};
use crate::jsondb::encoding_laws::{
    key_in_range, law_document_range_is_exact, law_index_values_are_zero_free,
    law_key_range_is_exact, law_whole_numbers_sort, lemma_admits_between, lemma_against_entry,
    lemma_has_successor, lemma_lex_add, whole,
};
use crate::jsondb::entry_laws::{
    entered_within, first_field, has_values, lemma_between_begins, lemma_docs_within,
    lemma_entered_as, lemma_index_scan, within_index,
};
use crate::jsondb::helpers::{plain_record, stored_doc};
use crate::jsondb::index_laws::{
    document_key, entered, is_content_key, known_key, name_of, store_agrees,
};
use crate::jsondb::key_laws::law_document_keys_differ;
use crate::jsondb::keyrange::KeyRangeView;
use crate::jsondb::query_laws::{lemma_composite_add, lemma_docs_in};
use crate::jsondb::schema::{index_position, IndexDefView};
use crate::jsondb::value::{decoded_doc, field_at, Json, NumberView};
use crate::read_laws::lemma_point_is_of_key;
use crate::record::{law_prefix_scan_is_exact, RecordView, ScanRangeView};
use crate::scan_laws::lemma_scan_has_result;

verus! {

/// A document of a database stands under a key without zero bytes.
pub proof fn lemma_stored_key(db: DbView, store: Seq<char>, pk: Seq<u8>)
    requires
        db.consistent(),
        db.store(store) is Some,
        stored_doc(db.engine, encode_utf8(store), pk) is Some,
    ensures
        zero_free(pk),
{
    let sb = encode_utf8(store);
    let key = doc_key_of(sb, pk);
    lemma_store_names(db, store);
    lemma_document_prefix(sb, pk);
    assert(db.engine.point(key, 0) is Some);
    assert(is_content_key(key));
    assert(known_key(db.schema, key));
    let (i, own) = choose|i: int, own: Seq<u8>|
        0 <= i < db.schema.len() && zero_free(own) && key == #[trigger] document_key(
            db.schema,
            i,
            own,
        );
    assert(has_valid_names(db.schema[i]));
    lemma_name_zero_free(name_of(db.schema[i]));
    law_document_keys_differ(sb, pk, name_of(db.schema[i]), own);
}

/// The keys of the records that a scan gives rise, with their times.
pub proof fn lemma_records_rise(db: DbView, range: ScanRangeView, i: int, j: int)
    requires
        0 <= i < j < db.records(range).len(),
    ensures
        lex_lt(db.records(range)[i].key, db.records(range)[j].key) || (db.records(range)[i].key
            == db.records(range)[j].key && db.records(range)[i].ts < db.records(range)[j].ts),
{
    let s = db.engine.range_scan(range);
    lemma_scan_has_result(s);
    law_scan_is_ascending(s, s.result(), i, j);
}

/// The key lies in the range, where there is one.
pub open spec fn within_keys(range: Option<KeyRangeView>, pk: Seq<u8>) -> bool {
    range matches Some(kr) ==> key_in_range(kr, pk)
}

/// The scan of a store's documents stays among them.
proof fn lemma_doc_range_within(db: DbView, store: Seq<char>, range: Option<KeyRangeView>, key: Seq<u8>)
    requires
        db.doc_range(store, range) is Ok,
        db.doc_range(store, range)->Ok_0.admits_key(key),
    ensures
        has_prefix(key, doc_prefix_of(encode_utf8(store))),
{
    let p = doc_prefix_of(encode_utf8(store));
    let none = Seq::<u8>::empty();
    let s = db.doc_range(store, range)->Ok_0;
    assert(p[0] == 68);
    assert(p + none =~= p);
    lemma_has_successor(p);
    lemma_prefix_range(p, key);
    match range {
        None => {
            law_prefix_scan_is_exact(p, key, 0);
            assert(s.admits(key, 0));
        },
        Some(kr) => {
            let low = match kr.lower {
                Some(l) => primary_key(l)->Ok_0,
                None => none,
            };
            assert((p + low)[0] == 68);
            lemma_admits_between(s, key);
            assert(lex_le(p + low, key));
            assert(lex_le(p, p + low)) by {
                lemma_lex_add(p, none, low);
                if low.len() > 0 {
                    assert(less_at(none, low, 0));
                } else {
                    assert(low =~= none);
                }
            }
            lemma_lex_le_transitive(p, p + low, key);
            match kr.upper {
                None => {},
                Some(u) => {
                    let up = primary_key(u)->Ok_0;
                    if key == p + up {
                        assert(key.subrange(0, p.len() as int) =~= p);
                    } else {
                        lemma_between_begins(p, none, up, key);
                    }
                },
            }
        },
    }
}

/// What a scan of a store's documents gives: those whose key is in the range, in
/// the order of their keys.
pub proof fn lemma_document_scan(db: DbView, store: Seq<char>, range: Option<KeyRangeView>) -> (pks: Seq<
    Seq<u8>,
>)
    requires
        db.consistent(),
        db.engine.in_step(),
        db.doc_range(store, range) is Ok,
    ensures
        ({
            let sb = encode_utf8(store);
            let recs = db.records(db.doc_range(store, range)->Ok_0);
            &&& pks.len() == recs.len()
            &&& forall|i: int|
                0 <= i < recs.len() ==> decoded_doc((#[trigger] recs[i]).value) is Ok && stored_doc(
                    db.engine,
                    sb,
                    pks[i],
                ) == Some(decoded_doc(recs[i].value)->Ok_0)
            &&& forall|i: int, j: int|
                0 <= i < j < pks.len() ==> lex_lt(#[trigger] pks[i], #[trigger] pks[j])
            &&& forall|pk: Seq<u8>| #[trigger]
                pks.contains(pk) <==> stored_doc(db.engine, sb, pk) is Some && within_keys(range, pk)
        }),
{
    let v = db.engine;
    let sb = encode_utf8(store);
    let p = doc_prefix_of(sb);
    let s = db.doc_range(store, range)->Ok_0;
    let recs = db.records(s);
    let pks = Seq::new(recs.len(), |i: int| recs[i].key.skip(p.len() as int));
    let at = lemma_store_at(db, store);
    lemma_store_names(db, store);
    assert(store_agrees(v, db.schema[at]));
    assert(v.scan_agrees(s));
    assert forall|i: int| 0 <= i < recs.len() implies (#[trigger] recs[i]).key == doc_key_of(
        sb,
        pks[i],
    ) && recs[i].ts == 0 && v.point(recs[i].key, 0) == Some(recs[i]) && decoded_doc(
        recs[i].value,
    ) is Ok && stored_doc(v, sb, pks[i]) == Some(decoded_doc(recs[i].value)->Ok_0) by {
        let r = recs[i];
        assert(recs.contains(r));
        lemma_doc_range_within(db, store, range, r.key);
        assert(r.key.subrange(0, p.len() as int)[0] == r.key[0]);
        assert(p[0] == 68);
        assert(r.key =~= doc_key_of(sb, pks[i]));
        assert(v.point(r.key, r.ts) == Some(r));
        assert(is_content_key(r.key));
        assert(stored_doc(v, sb, pks[i]) is Some);
    }
    assert forall|i: int, j: int| 0 <= i < j < pks.len() implies lex_lt(
        #[trigger] pks[i],
        #[trigger] pks[j],
    ) by {
        lemma_records_rise(db, s, i, j);
        assert(recs[i].ts == 0 && recs[j].ts == 0);
        assert(recs[i].key == p + pks[i]);
        assert(recs[j].key == p + pks[j]);
        lemma_lex_add(p, pks[i], pks[j]);
    }
    assert forall|pk: Seq<u8>| #[trigger] pks.contains(pk) <==> stored_doc(v, sb, pk) is Some
        && within_keys(range, pk) by {
        let key = doc_key_of(sb, pk);
        lemma_document_prefix(sb, pk);
        match range {
            Some(kr) => {
                law_document_range_is_exact(kr, sb, pk);
            },
            None => {
                law_prefix_scan_is_exact(p, key, 0);
            },
        }
        if pks.contains(pk) {
            let i = choose|i: int| 0 <= i < pks.len() && pks[i] == pk;
            assert(recs[i].key == key);
            assert(recs.contains(recs[i]));
        }
        if stored_doc(v, sb, pk) is Some && within_keys(range, pk) {
            let r = v.point(key, 0)->0;
            assert(r.key == key && r.ts == 0) by {
                lemma_point_is_of_key(v, key, 0);
            }
            assert(recs.contains(r));
            let i = choose|i: int| 0 <= i < recs.len() && recs[i] == r;
            assert(pks[i] =~= pk);
        }
    }
    pks
}

/// The documents under the keys.
pub open spec fn stands_under(db: DbView, store: Seq<char>, docs: Seq<Json>, pks: Seq<Seq<u8>>) -> bool {
    &&& docs.len() == pks.len()
    &&& forall|i: int|
        0 <= i < docs.len() ==> stored_doc(db.engine, encode_utf8(store), #[trigger] pks[i])
            == Some(docs[i])
}

/// The keys are those of all documents of a store with a key in the range, in
/// rising order.
pub open spec fn all_keys(db: DbView, store: Seq<char>, range: Option<KeyRangeView>, pks: Seq<Seq<u8>>) -> bool {
    &&& forall|i: int, j: int|
        0 <= i < j < pks.len() ==> lex_lt(#[trigger] pks[i], #[trigger] pks[j])
    &&& forall|pk: Seq<u8>| #[trigger]
        pks.contains(pk) <==> stored_doc(db.engine, encode_utf8(store), pk) is Some && within_keys(
            range,
            pk,
        )
}

/// A listing gives the document under every key of the store in the range, once
/// each and in the order of the keys.
pub proof fn law_listing_gives_the_documents_in_range(
    db: DbView,
    store: Seq<char>,
    range: Option<KeyRangeView>,
) -> (pks: Seq<Seq<u8>>)
    requires
        db.consistent(),
        db.engine.in_step(),
        db.doc_range(store, range) is Ok,
    ensures
        db.listed(store, range, None) is Ok,
        stands_under(db, store, db.listed(store, range, None)->Ok_0, pks),
        all_keys(db, store, range, pks),
{
    let recs = db.records(db.doc_range(store, range)->Ok_0);
    let pks = lemma_document_scan(db, store, range);
    lemma_docs_in(recs);
    let docs = docs_in(recs, None)->Ok_0;
    assert forall|i: int| 0 <= i < docs.len() implies stored_doc(
        db.engine,
        encode_utf8(store),
        #[trigger] pks[i],
    ) == Some(docs[i]) by {
        assert(decoded_doc(recs[i].value) is Ok);
    }
    pks
}

/// The documents of records up to a limit are the first of all of them.
proof fn lemma_limited(recs: Seq<RecordView>, n: nat)
    requires
        forall|j: int| 0 <= j < recs.len() ==> decoded_doc((#[trigger] recs[j]).value) is Ok,
    ensures
        docs_in(recs, Some(n)) is Ok,
        docs_in(recs, Some(n))->Ok_0.len() == if n <= recs.len() {
            n
        } else {
            recs.len()
        },
        forall|i: int|
            0 <= i < docs_in(recs, Some(n))->Ok_0.len() ==> #[trigger] docs_in(
                recs,
                Some(n),
            )->Ok_0[i] == decoded_doc(recs[i].value)->Ok_0,
    decreases recs.len(),
{
    if recs.len() > 0 && n > 0 {
        let t = recs.drop_first();
        assert forall|j: int| 0 <= j < t.len() implies decoded_doc((#[trigger] t[j]).value) is Ok by {
            assert(t[j] == recs[j + 1]);
        }
        let m = (n - 1) as nat;
        lemma_limited(t, m);
        assert(one_less(Some(n)) == Some(m));
        assert(decoded_doc(recs[0].value) is Ok);
        let all = docs_in(recs, Some(n))->Ok_0;
        let rest = docs_in(t, Some(m))->Ok_0;
        assert(all == seq![decoded_doc(recs[0].value)->Ok_0] + rest);
        assert forall|i: int| 0 <= i < all.len() implies #[trigger] all[i] == decoded_doc(
            recs[i].value,
        )->Ok_0 by {
            if i > 0 {
                assert(all[i] == rest[i - 1]);
                assert(t[i - 1] == recs[i]);
            }
        }
    }
}

/// A listing with a limit gives the first documents of the listing without one,
/// as many as the limit says or as there are.
pub proof fn law_limited_listing_is_the_first_part(
    db: DbView,
    store: Seq<char>,
    range: Option<KeyRangeView>,
    n: nat,
)
    requires
        db.consistent(),
        db.engine.in_step(),
        db.doc_range(store, range) is Ok,
    ensures
        db.listed(store, range, Some(n)) is Ok,
        db.listed(store, range, Some(n))->Ok_0.len() == if n <= db.listed(
            store,
            range,
            None,
        )->Ok_0.len() {
            n
        } else {
            db.listed(store, range, None)->Ok_0.len()
        },
        forall|i: int|
            0 <= i < db.listed(store, range, Some(n))->Ok_0.len() ==> #[trigger] db.listed(
                store,
                range,
                Some(n),
            )->Ok_0[i] == db.listed(store, range, None)->Ok_0[i],
{
    let recs = db.records(db.doc_range(store, range)->Ok_0);
    let pks = lemma_document_scan(db, store, range);
    lemma_docs_in(recs);
    lemma_limited(recs, n);
}

/// The keys of records are those of the documents that have one.
proof fn lemma_listed_keys(recs: Seq<RecordView>, kp: Seq<u8>, limit: Option<nat>)
    requires
        forall|j: int|
            0 <= j < recs.len() ==> decoded_doc((#[trigger] recs[j]).value) is Ok && field_at(
                decoded_doc(recs[j].value)->Ok_0,
                kp,
            ) is Some,
    ensures
        keys_in(recs, kp, limit) is Ok,
        docs_in(recs, limit) is Ok,
        keys_in(recs, kp, limit)->Ok_0.len() == docs_in(recs, limit)->Ok_0.len(),
        forall|i: int|
            0 <= i < docs_in(recs, limit)->Ok_0.len() ==> field_at(
                #[trigger] docs_in(recs, limit)->Ok_0[i],
                kp,
            ) == Some(keys_in(recs, kp, limit)->Ok_0[i]),
    decreases recs.len(),
{
    if recs.len() > 0 && limit != Some(0nat) {
        let t = recs.drop_first();
        assert forall|j: int| 0 <= j < t.len() implies decoded_doc((#[trigger] t[j]).value) is Ok
            && field_at(decoded_doc(t[j].value)->Ok_0, kp) is Some by {
            assert(t[j] == recs[j + 1]);
        }
        let m = one_less(limit);
        lemma_listed_keys(t, kp, m);
        let doc = decoded_doc(recs[0].value)->Ok_0;
        let key = field_at(doc, kp)->0;
        assert(decoded_doc(recs[0].value) is Ok);
        let all = docs_in(recs, limit)->Ok_0;
        let keys = keys_in(recs, kp, limit)->Ok_0;
        assert(all == seq![doc] + docs_in(t, m)->Ok_0);
        assert(keys == seq![key] + keys_in(t, kp, m)->Ok_0);
        assert forall|i: int| 0 <= i < all.len() implies field_at(#[trigger] all[i], kp) == Some(
            keys[i],
        ) by {
            if i > 0 {
                assert(all[i] == docs_in(t, m)->Ok_0[i - 1]);
            }
        }
    }
}

/// A listing of keys gives the key of each document that the listing of
/// documents gives, where all have one.
pub proof fn law_listed_keys_are_those_of_the_documents(
    db: DbView,
    store: Seq<char>,
    range: Option<KeyRangeView>,
    limit: Option<nat>,
)
    requires
        db.consistent(),
        db.engine.in_step(),
        db.doc_range(store, range) is Ok,
        forall|pk: Seq<u8>|
            (#[trigger] stored_doc(db.engine, encode_utf8(store), pk)) is Some ==> field_at(
                stored_doc(db.engine, encode_utf8(store), pk)->0,
                encode_utf8(db.store(store)->0.key_path),
            ) is Some,
    ensures
        db.listed_keys(store, range, limit) is Ok,
        db.listed(store, range, limit) is Ok,
        db.listed_keys(store, range, limit)->Ok_0.len() == db.listed(
            store,
            range,
            limit,
        )->Ok_0.len(),
        forall|i: int|
            0 <= i < db.listed(store, range, limit)->Ok_0.len() ==> field_at(
                #[trigger] db.listed(store, range, limit)->Ok_0[i],
                encode_utf8(db.store(store)->0.key_path),
            ) == Some(db.listed_keys(store, range, limit)->Ok_0[i]),
{
    let recs = db.records(db.doc_range(store, range)->Ok_0);
    let kp = encode_utf8(db.store(store)->0.key_path);
    let pks = lemma_document_scan(db, store, range);
    assert forall|j: int| 0 <= j < recs.len() implies decoded_doc((#[trigger] recs[j]).value) is Ok
        && field_at(decoded_doc(recs[j].value)->Ok_0, kp) is Some by {
        assert(stored_doc(db.engine, encode_utf8(store), pks[j]) is Some);
    }
    lemma_listed_keys(recs, kp, limit);
}

proof fn lemma_doc_items(recs: Seq<RecordView>, kp: Seq<u8>)
    requires
        forall|j: int| 0 <= j < recs.len() ==> decoded_doc((#[trigger] recs[j]).value) is Ok,
    ensures
        doc_items(recs, kp) is Ok,
        doc_items(recs, kp)->Ok_0.len() == recs.len(),
        forall|i: int|
            0 <= i < recs.len() ==> #[trigger] doc_items(recs, kp)->Ok_0[i] == (
                key_or_null(decoded_doc(recs[i].value)->Ok_0, kp),
                key_or_null(decoded_doc(recs[i].value)->Ok_0, kp),
                decoded_doc(recs[i].value)->Ok_0,
            ),
    decreases recs.len(),
{
    if recs.len() > 0 {
        let t = recs.drop_last();
        assert forall|j: int| 0 <= j < t.len() implies decoded_doc((#[trigger] t[j]).value) is Ok by {
            assert(t[j] == recs[j]);
        }
        lemma_doc_items(t, kp);
        assert(decoded_doc(recs[recs.len() - 1].value) is Ok);
        let items = doc_items(t, kp)->Ok_0;
        let all = doc_items(recs, kp)->Ok_0;
        assert forall|i: int| 0 <= i < recs.len() implies #[trigger] all[i] == (
            key_or_null(decoded_doc(recs[i].value)->Ok_0, kp),
            key_or_null(decoded_doc(recs[i].value)->Ok_0, kp),
            decoded_doc(recs[i].value)->Ok_0,
        ) by {
            if i < t.len() {
                assert(all[i] == items[i]);
                assert(t[i] == recs[i]);
            }
        }
    }
}

/// A cursor over a store gives the documents of the listing in the same range,
/// each under its key, in the same order.
pub proof fn law_cursor_gives_the_listing(
    db: DbView,
    store: Seq<char>,
    range: Option<KeyRangeView>,
)
    requires
        db.consistent(),
        db.engine.in_step(),
        db.doc_range(store, range) is Ok,
    ensures
        ({
            let items = db.cursor(store, range, CursorDirection::Next);
            let docs = db.listed(store, range, None);
            let kp = encode_utf8(db.store(store)->0.key_path);
            &&& items is Ok
            &&& docs is Ok
            &&& items->Ok_0.len() == docs->Ok_0.len()
            &&& forall|i: int|
                0 <= i < docs->Ok_0.len() ==> (#[trigger] items->Ok_0[i]).2 == docs->Ok_0[i]
                    && items->Ok_0[i].0 == items->Ok_0[i].1 && (field_at(docs->Ok_0[i], kp) is Some
                    ==> field_at(docs->Ok_0[i], kp) == Some(items->Ok_0[i].1))
        }),
{
    let recs = db.records(db.doc_range(store, range)->Ok_0);
    let kp = encode_utf8(db.store(store)->0.key_path);
    let pks = lemma_document_scan(db, store, range);
    lemma_docs_in(recs);
    lemma_doc_items(recs, kp);
}

/// A cursor that runs backwards gives what one that runs forwards does, in the
/// opposite order.
pub proof fn law_backward_cursor_reverses(
    db: DbView,
    store: Seq<char>,
    index: Seq<char>,
    range: Option<KeyRangeView>,
)
    ensures
        match db.cursor(store, range, CursorDirection::Next) {
            Ok(items) => db.cursor(store, range, CursorDirection::Prev) == Ok::<
                Seq<Item>,
                FlowErrorView,
            >(items.reverse()),
            Err(e) => db.cursor(store, range, CursorDirection::Prev) == Err::<
                Seq<Item>,
                FlowErrorView,
            >(e),
        },
        match db.index_cursor(store, index, range, CursorDirection::Next) {
            Ok(items) => db.index_cursor(store, index, range, CursorDirection::Prev) == Ok::<
                Seq<Item>,
                FlowErrorView,
            >(items.reverse()),
            Err(e) => db.index_cursor(store, index, range, CursorDirection::Prev) == Err::<
                Seq<Item>,
                FlowErrorView,
            >(e),
        },
{
}

/// A unique cursor gives those of the items of the plain one, in the order of
/// its direction, that come first with their primary key.
pub proof fn law_unique_cursor_is_of_the_plain_one(
    db: DbView,
    store: Seq<char>,
    index: Seq<char>,
    range: Option<KeyRangeView>,
    dir: CursorDirection,
)
    ensures
        match db.cursor(store, range, CursorDirection::Next) {
            Ok(items) => db.cursor(store, range, dir) == Ok::<Seq<Item>, FlowErrorView>(
                directed(items, dir),
            ),
            Err(e) => db.cursor(store, range, dir) == Err::<Seq<Item>, FlowErrorView>(e),
        },
        match db.index_cursor(store, index, range, CursorDirection::Next) {
            Ok(items) => db.index_cursor(store, index, range, dir) == Ok::<
                Seq<Item>,
                FlowErrorView,
            >(directed(items, dir)),
            Err(e) => db.index_cursor(store, index, range, dir) == Err::<Seq<Item>, FlowErrorView>(
                e,
            ),
        },
{
}

/// The value lies in the range, where there is one.
pub open spec fn within_values(range: Option<KeyRangeView>, v: Json) -> bool {
    range matches Some(kr) ==> kr.includes(v)
}

/// The scan of an index for a range.
pub open spec fn part_of_index(store: Seq<u8>, index: Seq<u8>, range: Option<KeyRangeView>) -> ScanRangeView {
    match range {
        Some(kr) => kr.index_scan(store, index),
        None => ScanRangeView::of_prefix(idx_prefix_of(store, index)),
    }
}

/// The scan of an index for a range stays in the index.
proof fn lemma_index_part_within(store: Seq<u8>, index: Seq<u8>, range: Option<KeyRangeView>)
    ensures
        within_index(part_of_index(store, index, range), store, index),
{
    let p = idx_prefix_of(store, index);
    let none = Seq::<u8>::empty();
    let s = part_of_index(store, index, range);
    assert(p[0] == 73);
    assert(p + none =~= p);
    lemma_has_successor(p);
    assert forall|key: Seq<u8>, ts: i64| #[trigger] s.admits(key, ts) implies has_prefix(key, p) by {
        lemma_prefix_range(p, key);
        match range {
            None => {
                law_prefix_scan_is_exact(p, key, ts);
            },
            Some(kr) => {
                let low = match kr.lower {
                    Some(l) => if kr.lower_open {
                        index_value(l) + seq![1u8]
                    } else {
                        index_value(l)
                    },
                    None => none,
                };
                if let Some(l) = kr.lower {
                    assert(p + index_value(l) + seq![1u8] =~= p + (index_value(l) + seq![1u8]));
                }
                assert((p + low)[0] == 73);
                lemma_admits_between(s, key);
                assert(lex_le(p + low, key));
                assert(lex_le(p, p + low)) by {
                    lemma_lex_add(p, none, low);
                    if low.len() > 0 {
                        assert(less_at(none, low, 0));
                    } else {
                        assert(low =~= none);
                    }
                }
                lemma_lex_le_transitive(p, p + low, key);
                match kr.upper {
                    None => {},
                    Some(u) => {
                        assert(p + index_value(u) + seq![1u8] =~= p + (index_value(u) + seq![1u8]));
                        if kr.upper_open {
                            lemma_between_begins(p, none, index_value(u), key);
                        } else {
                            lemma_between_begins(p, none, index_value(u) + seq![1u8], key);
                        }
                    },
                }
            },
        }
    }
}

/// The first value of an entry decides whether it is in the range.
proof fn lemma_first_value_decides(
    store: Seq<u8>,
    index: Seq<u8>,
    range: Option<KeyRangeView>,
    vals: Seq<Json>,
    pk: Seq<u8>,
)
    requires
        vals.len() > 0,
    ensures
        part_of_index(store, index, range).admits(
            idx_key_of(store, index, composite_value(vals), pk),
            0,
        ) <==> within_values(range, vals[0]),
{
    let p = idx_prefix_of(store, index);
    let key = idx_key_of(store, index, composite_value(vals), pk);
    let one = seq![vals[0]];
    let rest = vals.skip(1);
    assert(one.drop_last() =~= Seq::<Json>::empty());
    assert(vals =~= one + rest);
    let own = if rest.len() == 0 {
        pk
    } else {
        composite_value(rest) + seq![0u8] + pk
    };
    assert(key =~= idx_key_of(store, index, index_value(vals[0]), own)) by {
        if rest.len() == 0 {
            assert(vals =~= one);
        } else {
            lemma_composite_add(one, rest);
        }
    }
    match range {
        Some(kr) => {
            law_key_range_is_exact(kr, store, index, vals[0], own);
        },
        None => {
            assert(key.subrange(0, p.len() as int) =~= p);
            law_prefix_scan_is_exact(p, key, 0);
        },
    }
}

/// The value is an array with what the document has in each field of the index,
/// null where it has nothing.
pub open spec fn shows_all_fields(v: Json, doc: Json, d: IndexDefView) -> bool {
    &&& v is Array
    &&& v->Array_0.len() == d.key_paths.len()
    &&& forall|i: int|
        0 <= i < d.key_paths.len() ==> match field_at(doc, encode_utf8(#[trigger] d.key_paths[i])) {
            Some(x) => v->Array_0[i] == x,
            None => v->Array_0[i] is Null,
        }
}

proof fn lemma_entry_items(db: DbView, recs: Seq<RecordView>, store: Seq<u8>, kp: Seq<u8>, d: IndexDefView)
    requires
        forall|j: int|
            0 <= j < recs.len() ==> (#[trigger] stored_doc(
                db.engine,
                store,
                recs[j].value,
            )) is Some,
    ensures
        entry_items(db.engine, recs, store, kp, d) is Ok,
        entry_items(db.engine, recs, store, kp, d)->Ok_0.len() == recs.len(),
        forall|i: int|
            0 <= i < recs.len() ==> {
                let doc = stored_doc(db.engine, store, recs[i].value)->0;
                let item = #[trigger] entry_items(db.engine, recs, store, kp, d)->Ok_0[i];
                &&& item.2 == doc
                &&& item.1 == key_or_null(doc, kp)
                &&& d.key_paths.len() == 1 && first_field(doc, d) is Some ==> Some(item.0)
                    == first_field(doc, d)
                &&& d.key_paths.len() != 1 ==> shows_all_fields(item.0, doc, d)
            },
    decreases recs.len(),
{
    if recs.len() > 0 {
        let t = recs.drop_last();
        assert forall|j: int| 0 <= j < t.len() implies (#[trigger] stored_doc(
            db.engine,
            store,
            t[j].value,
        )) is Some by {
            assert(t[j] == recs[j]);
        }
        lemma_entry_items(db, t, store, kp, d);
        assert(stored_doc(db.engine, store, recs[recs.len() - 1].value) is Some);
        let items = entry_items(db.engine, t, store, kp, d)->Ok_0;
        let all = entry_items(db.engine, recs, store, kp, d)->Ok_0;
        assert forall|i: int| 0 <= i < recs.len() implies ({
            let doc = stored_doc(db.engine, store, recs[i].value)->0;
            let item = #[trigger] all[i];
            &&& item.2 == doc
            &&& item.1 == key_or_null(doc, kp)
            &&& d.key_paths.len() == 1 && first_field(doc, d) is Some ==> Some(item.0)
                == first_field(doc, d)
            &&& d.key_paths.len() != 1 ==> shows_all_fields(item.0, doc, d)
        }) by {
            if i < t.len() {
                assert(all[i] == items[i]);
                assert(t[i] == recs[i]);
            }
        }
    }
}

/// A document has a value in the range where an index looks first.
pub open spec fn has_value_within(doc: Json, d: IndexDefView, range: Option<KeyRangeView>) -> bool {
    exists|vals: Seq<Json>| #[trigger] has_values(doc, d, vals) && within_values(range, vals[0])
}

/// One of the items is for the document.
pub open spec fn gives_item_for(items: Seq<Item>, doc: Json) -> bool {
    exists|i: int| 0 <= i < items.len() && (#[trigger] items[i]).2 == doc
}

/// A cursor over an index gives an item for a document exactly where the
/// document is entered in the index under a value that the range includes. The
/// item shows the value of the field, the primary key and the document.
pub proof fn law_index_cursor_gives_the_documents_in_range(
    db: DbView,
    store: Seq<char>,
    index: Seq<char>,
    range: Option<KeyRangeView>,
)
    requires
        db.consistent(),
        db.engine.in_step(),
        db.index(store, index) is Ok,
        db.index(store, index)->Ok_0.key_paths.len() > 0,
    ensures
        ({
            let d = db.index(store, index)->Ok_0;
            let items = db.index_cursor(store, index, range, CursorDirection::Next);
            let kp = encode_utf8(db.store(store)->0.key_path);
            &&& items is Ok
            &&& forall|doc: Json| #[trigger]
                gives_item_for(items->Ok_0, doc) <==> exists|pk: Seq<u8>|
                    zero_free(pk) && #[trigger] stored_doc(db.engine, encode_utf8(store), pk)
                        == Some(doc) && has_value_within(doc, d, range)
            &&& forall|i: int|
                0 <= i < items->Ok_0.len() ==> {
                    let item = #[trigger] items->Ok_0[i];
                    &&& field_at(item.2, kp) is Some ==> field_at(item.2, kp) == Some(item.1)
                    &&& d.key_paths.len() == 1 && first_field(item.2, d) is Some ==> first_field(
                        item.2,
                        d,
                    ) == Some(item.0)
                    &&& d.key_paths.len() > 1 ==> shows_all_fields(item.0, item.2, d)
                }
        }),
{
    let v = db.engine;
    let sb = encode_utf8(store);
    let ib = encode_utf8(index);
    let def = db.store(store)->0;
    let d = db.index(store, index)->Ok_0;
    let k = index_position(def.indexes, index);
    lemma_index_position(def.indexes, index);
    let s = part_of_index(sb, ib, range);
    let recs = db.records(s);
    let kp = encode_utf8(def.key_path);
    lemma_index_part_within(sb, ib, range);
    lemma_docs_within(db, store, k, s);
    let docs = docs_of_entries(v, recs, sb)->Ok_0;
    assert forall|j: int| 0 <= j < recs.len() implies (#[trigger] stored_doc(
        v,
        sb,
        recs[j].value,
    )) is Some by {
        assert(stored_doc(v, sb, recs[j].value) == Some(docs[j]));
    }
    lemma_entry_items(db, recs, sb, kp, d);
    let items = entry_items(v, recs, sb, kp, d)->Ok_0;
    assert(db.index_cursor(store, index, range, CursorDirection::Next)->Ok_0 == items);
    assert forall|i: int| 0 <= i < items.len() implies (#[trigger] items[i]).2 == docs[i] by {
        assert(stored_doc(v, sb, recs[i].value) == Some(docs[i]));
    }
    assert forall|doc: Json| #[trigger] gives_item_for(items, doc) <==> exists|pk: Seq<u8>|
        zero_free(pk) && #[trigger] stored_doc(v, sb, pk) == Some(doc) && has_value_within(
            doc,
            d,
            range,
        ) by {
        assert(gives_item_for(items, doc) <==> docs.contains(doc)) by {
            if gives_item_for(items, doc) {
                let i = choose|i: int| 0 <= i < items.len() && (#[trigger] items[i]).2 == doc;
                assert(docs[i] == doc);
            }
            if docs.contains(doc) {
                let i = choose|i: int| 0 <= i < docs.len() && docs[i] == doc;
                assert(items[i].2 == doc);
            }
        }
        if docs.contains(doc) {
            let pk = choose|pk: Seq<u8>|
                zero_free(pk) && #[trigger] stored_doc(v, sb, pk) == Some(doc) && entered_within(
                    doc,
                    d,
                    sb,
                    pk,
                    s,
                );
            let vals = choose|vals: Seq<Json>| #[trigger]
                has_values(doc, d, vals) && s.admits(
                    idx_key_of(sb, ib, composite_value(vals), pk),
                    0,
                );
            lemma_first_value_decides(sb, ib, range, vals, pk);
            assert(has_value_within(doc, d, range));
        }
        if exists|pk: Seq<u8>|
            zero_free(pk) && #[trigger] stored_doc(v, sb, pk) == Some(doc) && has_value_within(
                doc,
                d,
                range,
            ) {
            let pk = choose|pk: Seq<u8>|
                zero_free(pk) && #[trigger] stored_doc(v, sb, pk) == Some(doc)
                    && has_value_within(doc, d, range);
            let vals = choose|vals: Seq<Json>| #[trigger]
                has_values(doc, d, vals) && within_values(range, vals[0]);
            lemma_first_value_decides(sb, ib, range, vals, pk);
            assert(entered_within(doc, d, sb, pk, s));
        }
    }
}

/// Of two entries of an index the one with the smaller value stands first, and
/// of two with one value that with the smaller key.
proof fn lemma_entry_order(p: Seq<u8>, a: Json, k: Seq<u8>, b: Json, l: Seq<u8>)
    requires
        lex_lt(p + index_value(a) + seq![0u8] + k, p + index_value(b) + seq![0u8] + l),
    ensures
        lex_lt(index_value(a), index_value(b)) || (index_value(a) == index_value(b) && lex_lt(
            k,
            l,
        )),
{
    let x = index_value(a);
    let y = index_value(b);
    let s = x + (seq![0u8] + k);
    let t = y + (seq![0u8] + l);
    law_index_values_are_zero_free(a);
    law_index_values_are_zero_free(b);
    assert(p + x + seq![0u8] + k =~= p + s);
    assert(p + y + seq![0u8] + l =~= p + t);
    lemma_lex_add(p, s, t);
    assert(less_at(x, s, x.len() as int));
    lemma_lex_le_transitive(x, s, t);
    lemma_against_entry(x, y, seq![0u8] + l);
    if x == y {
        assert(s =~= (x + seq![0u8]) + k);
        assert(t =~= (x + seq![0u8]) + l);
        lemma_lex_add(x + seq![0u8], k, l);
    }
}

/// A forward cursor over an index on one field gives its items in the order of
/// the values that they are entered under, and those of one value in the order
/// of the primary keys, one item for each entry.
pub proof fn law_index_cursor_goes_by_value(
    db: DbView,
    store: Seq<char>,
    index: Seq<char>,
    range: Option<KeyRangeView>,
) -> (places: Seq<(Json, Seq<u8>)>)
    requires
        db.consistent(),
        db.engine.in_step(),
        db.index(store, index) is Ok,
        db.index(store, index)->Ok_0.key_paths.len() == 1,
    ensures
        ({
            let d = db.index(store, index)->Ok_0;
            let items = db.index_cursor(store, index, range, CursorDirection::Next)->Ok_0;
            &&& items.len() == places.len()
            &&& forall|i: int|
                0 <= i < items.len() ==> stored_doc(
                    db.engine,
                    encode_utf8(store),
                    (#[trigger] places[i]).1,
                ) == Some(items[i].2) && has_values(items[i].2, d, seq![places[i].0])
            &&& forall|i: int, j: int|
                0 <= i < j < places.len() ==> lex_lt(
                    index_value((#[trigger] places[i]).0),
                    index_value((#[trigger] places[j]).0),
                ) || (index_value(places[i].0) == index_value(places[j].0) && lex_lt(
                    places[i].1,
                    places[j].1,
                ))
        }),
{
    let v = db.engine;
    let sb = encode_utf8(store);
    let ib = encode_utf8(index);
    let p = idx_prefix_of(sb, ib);
    let def = db.store(store)->0;
    let d = db.index(store, index)->Ok_0;
    let k = index_position(def.indexes, index);
    lemma_index_position(def.indexes, index);
    let s = part_of_index(sb, ib, range);
    let recs = db.records(s);
    let kp = encode_utf8(def.key_path);
    lemma_index_part_within(sb, ib, range);
    let fits = |r: RecordView, w: Json, pk: Seq<u8>|
        zero_free(pk) && r == plain_record(idx_key_of(sb, ib, index_value(w), pk), pk)
            && stored_doc(v, sb, pk) is Some && has_values(
            stored_doc(v, sb, pk)->0,
            d,
            seq![w],
        );
    let places = Seq::new(
        recs.len(),
        |i: int|
            {
                let c = choose|w: Json, pk: Seq<u8>| #[trigger] fits(recs[i], w, pk);
                c
            },
    );
    assert forall|i: int| 0 <= i < recs.len() implies fits(
        recs[i],
        (#[trigger] places[i]).0,
        places[i].1,
    ) by {
        assert(recs.contains(recs[i]));
        lemma_index_scan(db, store, k, s, recs[i]);
        let (value, pk) = choose|value: Seq<u8>, pk: Seq<u8>|
            zero_free(pk) && recs[i] == plain_record(
                #[trigger] idx_key_of(sb, ib, value, pk),
                pk,
            ) && entered(v, sb, pk, d, value) && s.admits(idx_key_of(sb, ib, value, pk), 0);
        let doc = stored_doc(v, sb, pk)->0;
        lemma_entered_as(doc, d, value);
        let vals = choose|vals: Seq<Json>| #[trigger]
            has_values(doc, d, vals) && composite_value(vals) == value;
        assert(vals =~= seq![vals[0]]);
        assert(fits(recs[i], vals[0], pk));
    }
    assert forall|j: int| 0 <= j < recs.len() implies (#[trigger] stored_doc(
        v,
        sb,
        recs[j].value,
    )) is Some by {
        assert(fits(recs[j], places[j].0, places[j].1));
    }
    lemma_entry_items(db, recs, sb, kp, d);
    let items = entry_items(v, recs, sb, kp, d)->Ok_0;
    assert(db.index_cursor(store, index, range, CursorDirection::Next)->Ok_0 == items);
    assert forall|i: int| 0 <= i < items.len() implies stored_doc(
        v,
        sb,
        (#[trigger] places[i]).1,
    ) == Some(items[i].2) && has_values(items[i].2, d, seq![places[i].0]) by {
        assert(fits(recs[i], places[i].0, places[i].1));
        assert(items[i].2 == stored_doc(v, sb, recs[i].value)->0);
    }
    assert forall|i: int, j: int| 0 <= i < j < places.len() implies lex_lt(
        index_value((#[trigger] places[i]).0),
        index_value((#[trigger] places[j]).0),
    ) || (index_value(places[i].0) == index_value(places[j].0) && lex_lt(
        places[i].1,
        places[j].1,
    )) by {
        assert(fits(recs[i], places[i].0, places[i].1));
        assert(fits(recs[j], places[j].0, places[j].1));
        lemma_records_rise(db, s, i, j);
        lemma_entry_order(p, places[i].0, places[i].1, places[j].0, places[j].1);
    }
    places
}

/// A number lies over the lower bound, where there is one.
pub open spec fn over(n: int, bound: Option<int>, open: bool) -> bool {
    bound matches Some(l) ==> if open {
        l < n
    } else {
        l <= n
    }
}

/// A number lies under the upper bound, where there is one.
pub open spec fn under(n: int, bound: Option<int>, open: bool) -> bool {
    bound matches Some(u) ==> if open {
        n < u
    } else {
        n <= u
    }
}

/// The bound is a whole number, or there is none.
pub open spec fn is_whole_bound(b: Option<Json>, n: Option<int>) -> bool {
    match b {
        None => n is None,
        Some(Json::Number(x)) => n is Some && whole(x) == n,
        _ => false,
    }
}

/// A key range with whole numbers for its bounds includes the whole numbers
/// between them, a bound itself exactly where it is not open.
pub proof fn law_range_of_whole_numbers(
    kr: KeyRangeView,
    lower: Option<int>,
    upper: Option<int>,
    n: NumberView,
)
    requires
        is_whole_bound(kr.lower, lower),
        is_whole_bound(kr.upper, upper),
        whole(n) is Some,
    ensures
        kr.includes(Json::Number(n)) <==> over(whole(n)->0, lower, kr.lower_open) && under(
            whole(n)->0,
            upper,
            kr.upper_open,
        ),
{
    if let Some(Json::Number(l)) = kr.lower {
        law_whole_numbers_sort(l, n);
    }
    if let Some(Json::Number(u)) = kr.upper {
        law_whole_numbers_sort(n, u);
    }
}

} // verus!
