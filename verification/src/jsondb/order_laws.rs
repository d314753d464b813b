//! In which order lookups give documents.

use vstd::prelude::*;
use vstd::utf8::encode_utf8;

use crate::bytes::lex_lt;
use crate::jsondb::db::DbView;
use crate::jsondb::document_laws::lemma_index_position;
use crate::jsondb::documents::{docs_of_entries, entry_range, looked_up};
use crate::jsondb::encoding::{composite_value, idx_key_of, idx_value_prefix_of, zero_free};
use crate::jsondb::entry_laws::{
    has_values, lemma_docs_within, lemma_entered_as, lemma_entry_range_within, lemma_index_scan,
    lemma_value_prefix_within, within_index,
};
use crate::jsondb::helpers::{plain_record, stored_doc};
use crate::jsondb::index_laws::entered;
use crate::jsondb::listing_laws::lemma_records_rise;
use crate::jsondb::schema::{index_position, IndexDefView};
use crate::jsondb::value::Json;
use crate::record::{RecordView, ScanRangeView};

verus! {

/// The documents stand in the order of their places: each has the values of its
/// place in the index and is stored under the key of it, and the places rise by
/// the encoded values and then by the keys.
pub open spec fn in_places(
    db: DbView,
    store: Seq<u8>,
    d: IndexDefView,
    docs: Seq<Json>,
    places: Seq<(Seq<Json>, Seq<u8>)>,
) -> bool {
    let ib = encode_utf8(d.name);
    &&& docs.len() == places.len()
    &&& forall|i: int|
        0 <= i < docs.len() ==> zero_free((#[trigger] places[i]).1) && stored_doc(
            db.engine,
            store,
            places[i].1,
        ) == Some(docs[i]) && has_values(docs[i], d, places[i].0)
    &&& forall|i: int, j: int|
        0 <= i < j < places.len() ==> lex_lt(
            idx_key_of(store, ib, composite_value((#[trigger] places[i]).0), places[i].1),
            idx_key_of(store, ib, composite_value((#[trigger] places[j]).0), places[j].1),
        )
}

/// The record is the entry of a document under values.
pub open spec fn is_entry_at(
    r: RecordView,
    store: Seq<u8>,
    d: IndexDefView,
    doc: Json,
    vals: Seq<Json>,
) -> bool {
    has_values(doc, d, vals) && r.key == idx_key_of(
        store,
        encode_utf8(d.name),
        composite_value(vals),
        r.value,
    )
}

proof fn lemma_place(
    db: DbView,
    store: Seq<char>,
    k: int,
    range: ScanRangeView,
    r: RecordView,
    doc: Json,
) -> (vals: Seq<Json>)
    requires
        db.consistent(),
        db.engine.in_step(),
        db.store(store) is Some,
        0 <= k < db.store(store)->0.indexes.len(),
        db.store(store)->0.indexes[k].key_paths.len() > 0,
        within_index(
            range,
            encode_utf8(store),
            encode_utf8(db.store(store)->0.indexes[k].name),
        ),
        db.records(range).contains(r),
        stored_doc(db.engine, encode_utf8(store), r.value) == Some(doc),
    ensures
        is_entry_at(r, encode_utf8(store), db.store(store)->0.indexes[k], doc, vals),
        zero_free(r.value),
        r.ts == 0,
{
    let sb = encode_utf8(store);
    let d = db.store(store)->0.indexes[k];
    let ib = encode_utf8(d.name);
    lemma_index_scan(db, store, k, range, r);
    let (value, pk) = choose|value: Seq<u8>, pk: Seq<u8>|
        zero_free(pk) && r == plain_record(#[trigger] idx_key_of(sb, ib, value, pk), pk) && entered(
            db.engine,
            sb,
            pk,
            d,
            value,
        ) && range.admits(idx_key_of(sb, ib, value, pk), 0);
    lemma_entered_as(doc, d, value);
    choose|vals: Seq<Json>| #[trigger] has_values(doc, d, vals) && composite_value(vals) == value
}

proof fn lemma_in_places(db: DbView, store: Seq<char>, k: int, range: ScanRangeView) -> (places: Seq<
    (Seq<Json>, Seq<u8>),
>)
    requires
        db.consistent(),
        db.engine.in_step(),
        db.store(store) is Some,
        0 <= k < db.store(store)->0.indexes.len(),
        db.store(store)->0.indexes[k].key_paths.len() > 0,
        within_index(
            range,
            encode_utf8(store),
            encode_utf8(db.store(store)->0.indexes[k].name),
        ),
    ensures
        docs_of_entries(db.engine, db.records(range), encode_utf8(store)) is Ok,
        in_places(
            db,
            encode_utf8(store),
            db.store(store)->0.indexes[k],
            docs_of_entries(db.engine, db.records(range), encode_utf8(store))->Ok_0,
            places,
        ),
{
    let sb = encode_utf8(store);
    let d = db.store(store)->0.indexes[k];
    let recs = db.records(range);
    lemma_docs_within(db, store, k, range);
    let docs = docs_of_entries(db.engine, recs, sb)->Ok_0;
    let places = Seq::new(
        recs.len(),
        |i: int|
            (
                choose|vals: Seq<Json>| is_entry_at(recs[i], sb, d, docs[i], vals),
                recs[i].value,
            ),
    );
    assert forall|i: int| 0 <= i < recs.len() implies is_entry_at(
        #[trigger] recs[i],
        sb,
        d,
        docs[i],
        places[i].0,
    ) && zero_free(recs[i].value) && recs[i].ts == 0 && stored_doc(db.engine, sb, recs[i].value)
        == Some(docs[i]) by {
        assert(recs.contains(recs[i]));
        assert(stored_doc(db.engine, sb, recs[i].value) == Some(docs[i]));
        let vals = lemma_place(db, store, k, range, recs[i], docs[i]);
        assert(is_entry_at(recs[i], sb, d, docs[i], vals));
    }
    assert forall|i: int, j: int| 0 <= i < j < places.len() implies lex_lt(
        (#[trigger] recs[i]).key,
        (#[trigger] recs[j]).key,
    ) by {
        lemma_records_rise(db, range, i, j);
    }
    lemma_placed(db, sb, d, docs, recs, places);
    places
}

proof fn lemma_placed(
    db: DbView,
    store: Seq<u8>,
    d: IndexDefView,
    docs: Seq<Json>,
    recs: Seq<RecordView>,
    places: Seq<(Seq<Json>, Seq<u8>)>,
)
    requires
        docs.len() == recs.len(),
        places.len() == recs.len(),
        forall|i: int| 0 <= i < recs.len() ==> (#[trigger] places[i]).1 == recs[i].value,
        forall|i: int|
            0 <= i < recs.len() ==> is_entry_at(
                #[trigger] recs[i],
                store,
                d,
                docs[i],
                places[i].0,
            ) && zero_free(recs[i].value) && stored_doc(db.engine, store, recs[i].value) == Some(
                docs[i],
            ),
        forall|i: int, j: int|
            0 <= i < j < places.len() ==> lex_lt(
                (#[trigger] recs[i]).key,
                (#[trigger] recs[j]).key,
            ),
    ensures
        in_places(db, store, d, docs, places),
{
    assert forall|i: int| 0 <= i < docs.len() implies zero_free((#[trigger] places[i]).1)
        && stored_doc(db.engine, store, places[i].1) == Some(docs[i]) && has_values(
        docs[i],
        d,
        places[i].0,
    ) by {
        assert(is_entry_at(recs[i], store, d, docs[i], places[i].0));
    }
    let ib = encode_utf8(d.name);
    assert forall|i: int, j: int| 0 <= i < j < places.len() implies lex_lt(
        idx_key_of(store, ib, composite_value((#[trigger] places[i]).0), places[i].1),
        idx_key_of(store, ib, composite_value((#[trigger] places[j]).0), places[j].1),
    ) by {
        assert(is_entry_at(recs[i], store, d, docs[i], places[i].0));
        assert(is_entry_at(recs[j], store, d, docs[j], places[j].0));
        assert(lex_lt(recs[i].key, recs[j].key));
    }
}

/// A lookup in an index gives the documents in the order of their entries: by the
/// encoded values of the fields, then by the keys, and each entry once.
pub proof fn law_lookup_goes_by_entry(
    db: DbView,
    store: Seq<char>,
    index: Seq<char>,
    value: Json,
) -> (places: Seq<(Seq<Json>, Seq<u8>)>)
    requires
        db.consistent(),
        db.engine.in_step(),
        db.index(store, index) is Ok,
        db.index(store, index)->Ok_0.key_paths.len() > 0,
    ensures
        db.indexed(store, index, value) is Ok,
        in_places(
            db,
            encode_utf8(store),
            db.index(store, index)->Ok_0,
            db.indexed(store, index, value)->Ok_0,
            places,
        ),
{
    let def = db.store(store)->0;
    let d = db.index(store, index)->Ok_0;
    let k = index_position(def.indexes, index);
    lemma_index_position(def.indexes, index);
    let sb = encode_utf8(store);
    let ib = encode_utf8(index);
    let enc = looked_up(d, value);
    lemma_value_prefix_within(sb, ib, enc);
    lemma_in_places(db, store, k, ScanRangeView::of_prefix(idx_value_prefix_of(sb, ib, enc)))
}

/// A range lookup in an index gives the documents in the order of their entries:
/// by the encoded values of the fields, then by the keys, and each entry once.
pub proof fn law_range_lookup_goes_by_entry(
    db: DbView,
    store: Seq<char>,
    index: Seq<char>,
    start: Json,
    end: Json,
) -> (places: Seq<(Seq<Json>, Seq<u8>)>)
    requires
        db.consistent(),
        db.engine.in_step(),
        db.index(store, index) is Ok,
        db.index(store, index)->Ok_0.key_paths.len() > 0,
    ensures
        db.indexed_range(store, index, start, end) is Ok,
        in_places(
            db,
            encode_utf8(store),
            db.index(store, index)->Ok_0,
            db.indexed_range(store, index, start, end)->Ok_0,
            places,
        ),
{
    let def = db.store(store)->0;
    let d = db.index(store, index)->Ok_0;
    let k = index_position(def.indexes, index);
    lemma_index_position(def.indexes, index);
    let sb = encode_utf8(store);
    let ib = encode_utf8(index);
    let from = looked_up(d, start);
    let to = looked_up(d, end);
    lemma_entry_range_within(sb, ib, from, to);
    lemma_in_places(db, store, k, entry_range(sb, ib, from, to))
}

} // verus!
