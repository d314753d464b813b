//! Which documents the reads of a transaction give: those that its own writes
//! and what is stored show together, which are those of the database once it
//! is committed.

use vstd::prelude::*;
use vstd::utf8::encode_utf8;

use crate::bytes::lemma_lex_irreflexive;
use crate::engine_laws::law_current_snapshot_sees_everything;
use crate::error::FlowErrorView;
use crate::jsondb::consistency_laws::{
    law_changes_keep_reads_in_step, law_commit_keeps_consistent, lemma_docs_of_writes,
    lemma_store_at, sound_writes,
};
use crate::jsondb::db::DbView;
use crate::jsondb::definition_laws::lemma_document_prefix;
use crate::jsondb::document_laws::lemma_index_position;
use crate::jsondb::documents::{entry_range, looked_up};
use crate::jsondb::encoding::{
    composite_value, doc_key_of, doc_prefix_of, idx_key_of, idx_prefix_of, idx_value_prefix_of,
    primary_key, zero_free, SEP,
};
use crate::jsondb::encoding_laws::{lemma_admits_between, lemma_equal_after, lemma_lex_add};
use crate::jsondb::entry_laws::{
    asked_for, begins_with, entered_within, has_values, has_values_between,
    law_document_is_entered_under_its_values, law_lookup_gives_the_documents_with_the_value,
    law_range_lookup_gives_the_documents_between, lemma_entered_as, lemma_entry_range_within,
    lemma_index_scan, lemma_looked_up, lemma_prefix_after, lemma_value_prefix_within,
    lemma_within_begins, lemma_within_is_between, within_index,
};
use crate::jsondb::helpers::{entered_under, plain_record, records_under, stored_doc};
use crate::jsondb::index_laws::{entered, store_agrees};
use crate::jsondb::listing_laws::{lemma_document_scan, lemma_records_rise, lemma_stored_key};
use crate::jsondb::lookup_laws::lemma_committed_document;
use crate::jsondb::query_laws::lemma_store_is_readable;
use crate::jsondb::schema::{index_position, IndexDefView};
use crate::jsondb::transaction::{
    doc_hits, entry_hits, entry_tail, gathered, held, is_hit_key, lemma_slot_position,
    slot_position, written_docs, Found, HitView, TxView, WantView,
};
use crate::jsondb::transaction_laws::{distinct_slots, lemma_no_slot};
use crate::jsondb::value::{decoded_doc, Json};
use crate::read_laws::lemma_point_is_of_key;
use crate::record::{law_prefix_scan_is_exact, ScanRangeView};

verus! {

/// What a transaction shows of a document: what it has written, else what is
/// stored.
pub open spec fn shown(tx: TxView, db: DbView, store: Seq<char>, pk: Seq<u8>) -> Option<Json> {
    match held(tx.writes, store, pk) {
        Some(Some(bytes)) => match decoded_doc(bytes) {
            Ok(doc) => Some(doc),
            Err(_) => None,
        },
        Some(None) => None,
        None => stored_doc(db.engine, encode_utf8(store), pk),
    }
}

/// What the transaction has written can be read.
pub open spec fn readable(tx: TxView) -> bool {
    written_docs(tx.writes, tx.writes.len()) is Ok
}

/// What is shown of a document is what reading it by its key gives, where it
/// was not read before and nothing was committed since the transaction began.
pub proof fn law_shown_is_what_a_read_gives(tx: TxView, db: DbView, store: Seq<char>, key: Json)
    requires
        db.consistent(),
        readable(tx),
        db.store(store) is Some,
        primary_key(key) is Ok,
        held(tx.reads, store, primary_key(key)->Ok_0) is None,
        tx.snapshot_seq + 1 >= db.engine.next_seq,
    ensures
        tx.get(db, store, key).1 == Ok::<Option<Json>, FlowErrorView>(
            shown(tx, db, store, primary_key(key)->Ok_0),
        ),
{
    let pk = primary_key(key)->Ok_0;
    let sb = encode_utf8(store);
    law_current_snapshot_sees_everything(db.engine, doc_key_of(sb, pk), 0, tx.snapshot_seq);
    lemma_slot_position(tx.writes, store, pk);
    if held(tx.writes, store, pk) is Some {
        lemma_docs_of_writes(tx.writes, tx.writes.len(), slot_position(tx.writes, store, pk));
    } else {
        let at = lemma_store_at(db, store);
        assert(store_agrees(db.engine, db.schema[at]));
        if db.engine.point(doc_key_of(sb, pk), 0) is Some {
            assert(stored_doc(db.engine, sb, pk) is Some);
        }
    }
}

/// Steps without a complaint give the documents of all of them.
proof fn lemma_gathered(steps: Seq<Found>)
    requires
        forall|i: int| 0 <= i < steps.len() ==> (#[trigger] steps[i]) is Ok,
    ensures
        gathered(steps) is Ok,
        forall|doc: Json| #[trigger]
            gathered(steps)->Ok_0.contains(doc) <==> exists|i: int|
                0 <= i < steps.len() && (#[trigger] steps[i])->Ok_0.contains(doc),
    decreases steps.len(),
{
    if steps.len() > 0 {
        let t = steps.drop_first();
        assert forall|i: int| 0 <= i < t.len() implies (#[trigger] t[i]) is Ok by {
            assert(t[i] == steps[i + 1]);
        }
        lemma_gathered(t);
        let head = steps[0]->Ok_0;
        let tail = gathered(t)->Ok_0;
        let all = gathered(steps)->Ok_0;
        assert(all == head + tail);
        assert forall|doc: Json| #[trigger] all.contains(doc) <==> exists|i: int|
            0 <= i < steps.len() && (#[trigger] steps[i])->Ok_0.contains(doc) by {
            if all.contains(doc) {
                let j = choose|j: int| 0 <= j < all.len() && all[j] == doc;
                if j < head.len() {
                    assert(head[j] == doc);
                    assert(steps[0]->Ok_0.contains(doc));
                } else {
                    assert(tail[j - head.len()] == doc);
                    assert(gathered(t)->Ok_0.contains(doc));
                    let i = choose|i: int| 0 <= i < t.len() && (#[trigger] t[i])->Ok_0.contains(doc);
                    assert(steps[i + 1]->Ok_0.contains(doc));
                }
            }
            if exists|i: int| 0 <= i < steps.len() && (#[trigger] steps[i])->Ok_0.contains(doc) {
                let i = choose|i: int|
                    0 <= i < steps.len() && (#[trigger] steps[i])->Ok_0.contains(doc);
                if i == 0 {
                    let j = choose|j: int| 0 <= j < head.len() && head[j] == doc;
                    assert(all[j] == doc);
                } else {
                    assert(t[i - 1]->Ok_0.contains(doc));
                    assert(tail.contains(doc));
                    let j = choose|j: int| 0 <= j < tail.len() && tail[j] == doc;
                    assert(all[head.len() + j] == doc);
                }
            }
        }
    }
}

/// A write is what is held of its document.
proof fn lemma_write_is_held(tx: TxView, i: int)
    requires
        distinct_slots(tx.writes),
        0 <= i < tx.writes.len(),
    ensures
        held(tx.writes, tx.writes[i].store, tx.writes[i].key) == Some(tx.writes[i].value),
{
    let w = tx.writes[i];
    let j = slot_position(tx.writes, w.store, w.key);
    lemma_slot_position(tx.writes, w.store, w.key);
    if j >= tx.writes.len() {
        lemma_no_slot(tx.writes, w.store, w.key, i);
    } else if j < i {
        assert(tx.writes[j].store == w.store);
    } else if i < j {
        assert(tx.writes[j].store == w.store);
    }
}

/// The hits are the stored documents that the read looks for.
pub open spec fn hits_agree(
    db: DbView,
    store: Seq<char>,
    hits: Seq<HitView>,
    want: WantView,
) -> bool {
    let sb = encode_utf8(store);
    &&& forall|i: int|
        0 <= i < hits.len() ==> {
            let hit = #[trigger] hits[i];
            &&& zero_free(hit.pk)
            &&& hit.value is Some
            &&& decoded_doc(hit.value->0) is Ok
            &&& stored_doc(db.engine, sb, hit.pk) == Some(decoded_doc(hit.value->0)->Ok_0)
            &&& want.accepts(decoded_doc(hit.value->0)->Ok_0, hit.pk)
        }
    &&& forall|pk: Seq<u8>|
        zero_free(pk) && (#[trigger] stored_doc(db.engine, sb, pk)) is Some && want.accepts(
            stored_doc(db.engine, sb, pk)->0,
            pk,
        ) ==> is_hit_key(hits, pk)
}

/// The steps of a read: none complains, and each gives what is shown of its
/// document where the read looks for it.
proof fn lemma_steps(
    tx: TxView,
    db: DbView,
    store: Seq<char>,
    hits: Seq<HitView>,
    want: WantView,
    i: int,
)
    requires
        sound_writes(tx.writes),
        readable(tx),
        hits_agree(db, store, hits, want),
        0 <= i < tx.steps(store, hits, want).len(),
    ensures
        ({
            let step = tx.steps(store, hits, want)[i];
            let pk = if i < hits.len() {
                hits[i].pk
            } else {
                tx.writes[i - hits.len()].key
            };
            &&& step is Ok
            &&& zero_free(pk)
            &&& i < hits.len() || tx.is_new(i - hits.len(), store, hits) ==> step->Ok_0
                == match shown(tx, db, store, pk) {
                Some(doc) => if want.accepts(doc, pk) {
                    seq![doc]
                } else {
                    Seq::<Json>::empty()
                },
                None => Seq::<Json>::empty(),
            }
            &&& i >= hits.len() && !tx.is_new(i - hits.len(), store, hits) ==> step->Ok_0.len()
                == 0
        }),
{
    let steps = tx.steps(store, hits, want);
    if i < hits.len() {
        let hit = hits[i];
        assert(steps[i] == tx.hit_docs(store, hit, want));
        lemma_slot_position(tx.writes, store, hit.pk);
        if held(tx.writes, store, hit.pk) is Some {
            lemma_docs_of_writes(
                tx.writes,
                tx.writes.len(),
                slot_position(tx.writes, store, hit.pk),
            );
        }
    } else {
        let k = i - hits.len();
        assert(steps[i] == tx.new_docs(k, store, hits, want));
        lemma_docs_of_writes(tx.writes, tx.writes.len(), k);
        lemma_write_is_held(tx, k);
        assert(zero_free(tx.writes[k].key));
    }
}

/// A read gives the documents that are shown and looked for.
proof fn lemma_found(
    tx: TxView,
    db: DbView,
    store: Seq<char>,
    hits: Seq<HitView>,
    want: WantView,
)
    requires
        sound_writes(tx.writes),
        readable(tx),
        hits_agree(db, store, hits, want),
    ensures
        tx.found(store, hits, want) is Ok,
        forall|doc: Json| #[trigger]
            tx.found(store, hits, want)->Ok_0.contains(doc) <==> exists|pk: Seq<u8>|
                zero_free(pk) && #[trigger] shown(tx, db, store, pk) == Some(doc) && want.accepts(
                    doc,
                    pk,
                ),
{
    let steps = tx.steps(store, hits, want);
    assert forall|i: int| 0 <= i < steps.len() implies (#[trigger] steps[i]) is Ok by {
        lemma_steps(tx, db, store, hits, want, i);
    }
    lemma_gathered(steps);
    let docs = tx.found(store, hits, want)->Ok_0;
    assert forall|doc: Json| #[trigger] docs.contains(doc) <==> exists|pk: Seq<u8>|
        zero_free(pk) && #[trigger] shown(tx, db, store, pk) == Some(doc) && want.accepts(doc, pk) by {
        if docs.contains(doc) {
            let i = choose|i: int|
                0 <= i < steps.len() && (#[trigger] steps[i])->Ok_0.contains(doc);
            lemma_steps(tx, db, store, hits, want, i);
            let pk = if i < hits.len() {
                hits[i].pk
            } else {
                tx.writes[i - hits.len()].key
            };
            assert(shown(tx, db, store, pk) == Some(doc) && want.accepts(doc, pk));
        }
        if exists|pk: Seq<u8>|
            zero_free(pk) && #[trigger] shown(tx, db, store, pk) == Some(doc) && want.accepts(
                doc,
                pk,
            ) {
            let pk = choose|pk: Seq<u8>|
                zero_free(pk) && #[trigger] shown(tx, db, store, pk) == Some(doc) && want.accepts(
                    doc,
                    pk,
                );
            let i = if is_hit_key(hits, pk) {
                choose|i: int| 0 <= i < hits.len() && (#[trigger] hits[i]).pk == pk
            } else {
                assert(held(tx.writes, store, pk) is Some);
                lemma_slot_position(tx.writes, store, pk);
                hits.len() + slot_position(tx.writes, store, pk)
            };
            lemma_steps(tx, db, store, hits, want, i);
            assert(steps[i]->Ok_0 == seq![doc]);
            assert(steps[i]->Ok_0[0] == doc);
            assert(steps[i]->Ok_0.contains(doc));
        }
    }
}

/// A read that looks in an index.
pub open spec fn looks_in(want: WantView, d: IndexDefView) -> bool {
    match want {
        WantView::Any => false,
        WantView::Exactly(e, _) => e == d,
        WantView::Between(e, _, _) => e == d,
    }
}

/// A document is looked for exactly where it has an entry in the range.
proof fn lemma_accepts_within(
    doc: Json,
    d: IndexDefView,
    store: Seq<u8>,
    pk: Seq<u8>,
    want: WantView,
    range: ScanRangeView,
)
    requires
        looks_in(want, d),
        d.key_paths.len() > 0,
        forall|vals: Seq<Json>| #[trigger]
            want.takes(vals, pk) == range.admits(
                idx_key_of(store, encode_utf8(d.name), composite_value(vals), pk),
                0,
            ),
    ensures
        want.accepts(doc, pk) == entered_within(doc, d, store, pk, range),
{
    let all = entered_under(doc, d);
    law_document_is_entered_under_its_values(doc, d);
    assert(want.entries_of(doc) == all);
    if want.accepts(doc, pk) {
        let i = choose|i: int|
            0 <= i < want.entries_of(doc).len() && want.takes(
                #[trigger] want.entries_of(doc)[i],
                pk,
            );
        assert(all.contains(all[i]));
        assert(has_values(doc, d, all[i]));
    }
    if entered_within(doc, d, store, pk, range) {
        let vals = choose|vals: Seq<Json>| #[trigger]
            has_values(doc, d, vals) && range.admits(
                idx_key_of(store, encode_utf8(d.name), composite_value(vals), pk),
                0,
            );
        assert(all.contains(vals));
        let i = choose|i: int| 0 <= i < all.len() && all[i] == vals;
        assert(want.takes(want.entries_of(doc)[i], pk));
    }
}

/// The hits of a lookup are those that it looks for.
proof fn lemma_index_hits(
    db: DbView,
    store: Seq<char>,
    k: int,
    range: ScanRangeView,
    want: WantView,
)
    requires
        db.consistent(),
        db.engine.in_step(),
        db.store(store) is Some,
        0 <= k < db.store(store)->0.indexes.len(),
        db.store(store)->0.indexes[k].key_paths.len() > 0,
        looks_in(want, db.store(store)->0.indexes[k]),
        within_index(
            range,
            encode_utf8(store),
            encode_utf8(db.store(store)->0.indexes[k].name),
        ),
        forall|vals: Seq<Json>, pk: Seq<u8>| #[trigger]
            want.takes(vals, pk) == range.admits(
                idx_key_of(
                    encode_utf8(store),
                    encode_utf8(db.store(store)->0.indexes[k].name),
                    composite_value(vals),
                    pk,
                ),
                0,
            ),
    ensures
        hits_agree(
            db,
            store,
            entry_hits(db.engine, encode_utf8(store), db.records(range)),
            want,
        ),
{
    let v = db.engine;
    let sb = encode_utf8(store);
    let d = db.store(store)->0.indexes[k];
    let ib = encode_utf8(d.name);
    let recs = db.records(range);
    let hits = entry_hits(v, sb, recs);
    assert forall|i: int| 0 <= i < hits.len() implies ({
        let hit = #[trigger] hits[i];
        &&& zero_free(hit.pk)
        &&& hit.value is Some
        &&& decoded_doc(hit.value->0) is Ok
        &&& stored_doc(v, sb, hit.pk) == Some(decoded_doc(hit.value->0)->Ok_0)
        &&& want.accepts(decoded_doc(hit.value->0)->Ok_0, hit.pk)
    }) by {
        let r = recs[i];
        assert(recs.contains(r));
        lemma_index_scan(db, store, k, range, r);
        let (value, pk) = choose|value: Seq<u8>, pk: Seq<u8>|
            zero_free(pk) && r == plain_record(#[trigger] idx_key_of(sb, ib, value, pk), pk)
                && entered(v, sb, pk, d, value) && range.admits(idx_key_of(sb, ib, value, pk), 0);
        let doc = stored_doc(v, sb, pk)->0;
        lemma_entered_as(doc, d, value);
        let vals = choose|vals: Seq<Json>| #[trigger]
            has_values(doc, d, vals) && composite_value(vals) == value;
        assert(entered_within(doc, d, sb, pk, range));
        lemma_accepts_within(doc, d, sb, pk, want, range);
    }
    assert forall|pk: Seq<u8>|
        zero_free(pk) && (#[trigger] stored_doc(v, sb, pk)) is Some && want.accepts(
            stored_doc(v, sb, pk)->0,
            pk,
        ) implies is_hit_key(hits, pk) by {
        let doc = stored_doc(v, sb, pk)->0;
        lemma_accepts_within(doc, d, sb, pk, want, range);
        let vals = choose|vals: Seq<Json>| #[trigger]
            has_values(doc, d, vals) && range.admits(
                idx_key_of(sb, ib, composite_value(vals), pk),
                0,
            );
        let value = composite_value(vals);
        lemma_entered_as(doc, d, value);
        let r = plain_record(idx_key_of(sb, ib, value, pk), pk);
        lemma_index_scan(db, store, k, range, r);
        assert(recs.contains(r));
        let i = choose|i: int| 0 <= i < recs.len() && recs[i] == r;
        assert(hits[i].pk == pk);
    }
}

/// An exact lookup takes the entries that its scan does.
proof fn lemma_exact_takes(store: Seq<u8>, d: IndexDefView, enc: Seq<u8>, vals: Seq<Json>, pk: Seq<u8>)
    ensures
        WantView::Exactly(d, enc).takes(vals, pk) == ScanRangeView::of_prefix(
            idx_value_prefix_of(store, encode_utf8(d.name), enc),
        ).admits(idx_key_of(store, encode_utf8(d.name), composite_value(vals), pk), 0),
{
    let ip = idx_prefix_of(store, encode_utf8(d.name));
    let p = idx_value_prefix_of(store, encode_utf8(d.name), enc);
    let key = idx_key_of(store, encode_utf8(d.name), composite_value(vals), pk);
    law_prefix_scan_is_exact(p, key, 0);
    assert(key =~= ip + entry_tail(vals, pk));
    assert(p =~= ip + enc.push(SEP));
    lemma_prefix_after(ip, entry_tail(vals, pk), enc.push(SEP));
}

/// A lookup of a range takes the entries that its scan does.
proof fn lemma_range_takes(
    store: Seq<u8>,
    d: IndexDefView,
    from: Seq<u8>,
    to: Seq<u8>,
    vals: Seq<Json>,
    pk: Seq<u8>,
)
    ensures
        WantView::Between(d, from, to).takes(vals, pk) == entry_range(
            store,
            encode_utf8(d.name),
            from,
            to,
        ).admits(idx_key_of(store, encode_utf8(d.name), composite_value(vals), pk), 0),
{
    let p = idx_prefix_of(store, encode_utf8(d.name));
    let range = entry_range(store, encode_utf8(d.name), from, to);
    let key = idx_key_of(store, encode_utf8(d.name), composite_value(vals), pk);
    let tail = entry_tail(vals, pk);
    assert(key =~= p + tail);
    assert((p + from)[0] == 73);
    lemma_admits_between(range, key);
    lemma_lex_add(p, from, tail);
    lemma_equal_after(p, from, tail);
    lemma_lex_add(p, tail, to);
}

/// A lookup in a transaction gives a document exactly where the transaction
/// shows it and the document has the values that are asked for.
pub proof fn law_transaction_lookup_gives_what_is_shown(
    tx: TxView,
    db: DbView,
    store: Seq<char>,
    index: Seq<char>,
    value: Json,
)
    requires
        db.consistent(),
        db.engine.in_step(),
        sound_writes(tx.writes),
        readable(tx),
        db.index(store, index) is Ok,
        0 < asked_for(db.index(store, index)->Ok_0, value).len() <= db.index(
            store,
            index,
        )->Ok_0.key_paths.len(),
    ensures
        tx.indexed(db, store, index, value) is Ok,
        forall|doc: Json| #[trigger]
            tx.indexed(db, store, index, value)->Ok_0.contains(doc) <==> exists|pk: Seq<u8>|
                zero_free(pk) && #[trigger] shown(tx, db, store, pk) == Some(doc) && begins_with(
                    doc,
                    db.index(store, index)->Ok_0,
                    asked_for(db.index(store, index)->Ok_0, value),
                ),
{
    let sb = encode_utf8(store);
    let ib = encode_utf8(index);
    let d = db.index(store, index)->Ok_0;
    let k = index_position(db.store(store)->0.indexes, index);
    lemma_index_position(db.store(store)->0.indexes, index);
    let asked = asked_for(d, value);
    let enc = looked_up(d, value);
    lemma_looked_up(d, value);
    let range = ScanRangeView::of_prefix(idx_value_prefix_of(sb, ib, enc));
    let want = WantView::Exactly(d, enc);
    lemma_value_prefix_within(sb, ib, enc);
    assert forall|vals: Seq<Json>, pk: Seq<u8>| #[trigger]
        want.takes(vals, pk) == range.admits(
            idx_key_of(sb, ib, composite_value(vals), pk),
            0,
        ) by {
        lemma_exact_takes(sb, d, enc, vals, pk);
    }
    let hits = entry_hits(db.engine, sb, db.records(range));
    lemma_index_hits(db, store, k, range, want);
    lemma_found(tx, db, store, hits, want);
    assert forall|doc: Json, pk: Seq<u8>| zero_free(pk) implies #[trigger] want.accepts(doc, pk)
        == begins_with(doc, d, asked) by {
        lemma_accepts_within(doc, d, sb, pk, want, range);
        lemma_within_begins(doc, d, sb, pk, asked);
    }
    let docs = tx.indexed(db, store, index, value)->Ok_0;
    assert forall|doc: Json| #[trigger] docs.contains(doc) <==> exists|pk: Seq<u8>|
        zero_free(pk) && #[trigger] shown(tx, db, store, pk) == Some(doc) && begins_with(
            doc,
            d,
            asked,
        ) by {
        if docs.contains(doc) {
            let pk = choose|pk: Seq<u8>|
                zero_free(pk) && #[trigger] shown(tx, db, store, pk) == Some(doc) && want.accepts(
                    doc,
                    pk,
                );
            assert(begins_with(doc, d, asked));
        }
        if exists|pk: Seq<u8>|
            zero_free(pk) && #[trigger] shown(tx, db, store, pk) == Some(doc) && begins_with(
                doc,
                d,
                asked,
            ) {
            let pk = choose|pk: Seq<u8>|
                zero_free(pk) && #[trigger] shown(tx, db, store, pk) == Some(doc) && begins_with(
                    doc,
                    d,
                    asked,
                );
            assert(want.accepts(doc, pk));
        }
    }
}

/// A range lookup in a transaction gives a document exactly where the
/// transaction shows it and the document has values in the index that do not
/// come before the start and come before the end.
pub proof fn law_transaction_range_gives_what_is_shown(
    tx: TxView,
    db: DbView,
    store: Seq<char>,
    index: Seq<char>,
    start: Json,
    end: Json,
)
    requires
        db.consistent(),
        db.engine.in_step(),
        sound_writes(tx.writes),
        readable(tx),
        db.index(store, index) is Ok,
        0 < asked_for(db.index(store, index)->Ok_0, start).len() <= db.index(
            store,
            index,
        )->Ok_0.key_paths.len(),
        0 < asked_for(db.index(store, index)->Ok_0, end).len() <= db.index(
            store,
            index,
        )->Ok_0.key_paths.len(),
    ensures
        tx.indexed_range(db, store, index, start, end) is Ok,
        forall|doc: Json| #[trigger]
            tx.indexed_range(db, store, index, start, end)->Ok_0.contains(doc) <==> exists|
                pk: Seq<u8>,
            |
                zero_free(pk) && #[trigger] shown(tx, db, store, pk) == Some(doc)
                    && has_values_between(
                    doc,
                    db.index(store, index)->Ok_0,
                    asked_for(db.index(store, index)->Ok_0, start),
                    asked_for(db.index(store, index)->Ok_0, end),
                ),
{
    let sb = encode_utf8(store);
    let ib = encode_utf8(index);
    let d = db.index(store, index)->Ok_0;
    let k = index_position(db.store(store)->0.indexes, index);
    lemma_index_position(db.store(store)->0.indexes, index);
    let a = asked_for(d, start);
    let b = asked_for(d, end);
    let from = looked_up(d, start);
    let to = looked_up(d, end);
    lemma_looked_up(d, start);
    lemma_looked_up(d, end);
    let range = entry_range(sb, ib, from, to);
    let want = WantView::Between(d, from, to);
    lemma_entry_range_within(sb, ib, from, to);
    assert forall|vals: Seq<Json>, pk: Seq<u8>| #[trigger]
        want.takes(vals, pk) == range.admits(
            idx_key_of(sb, ib, composite_value(vals), pk),
            0,
        ) by {
        lemma_range_takes(sb, d, from, to, vals, pk);
    }
    let hits = entry_hits(db.engine, sb, db.records(range));
    lemma_index_hits(db, store, k, range, want);
    lemma_found(tx, db, store, hits, want);
    assert forall|doc: Json, pk: Seq<u8>| #[trigger]
        want.accepts(doc, pk) == has_values_between(doc, d, a, b) by {
        lemma_accepts_within(doc, d, sb, pk, want, range);
        lemma_within_is_between(doc, d, sb, pk, a, b);
    }
    let docs = tx.indexed_range(db, store, index, start, end)->Ok_0;
    assert forall|doc: Json| #[trigger] docs.contains(doc) <==> exists|pk: Seq<u8>|
        zero_free(pk) && #[trigger] shown(tx, db, store, pk) == Some(doc) && has_values_between(
            doc,
            d,
            a,
            b,
        ) by {
        if docs.contains(doc) {
            let pk = choose|pk: Seq<u8>|
                zero_free(pk) && #[trigger] shown(tx, db, store, pk) == Some(doc) && want.accepts(
                    doc,
                    pk,
                );
            assert(has_values_between(doc, d, a, b));
        }
        if exists|pk: Seq<u8>|
            zero_free(pk) && #[trigger] shown(tx, db, store, pk) == Some(doc)
                && has_values_between(doc, d, a, b) {
            let pk = choose|pk: Seq<u8>|
                zero_free(pk) && #[trigger] shown(tx, db, store, pk) == Some(doc)
                    && has_values_between(doc, d, a, b);
            assert(want.accepts(doc, pk));
        }
    }
}

/// The hits of a scan are all stored documents.
proof fn lemma_scan_hits(db: DbView, store: Seq<char>)
    requires
        db.consistent(),
        db.engine.in_step(),
        db.store(store) is Some,
    ensures
        ({
            let hits = doc_hits(db.engine, encode_utf8(store));
            &&& hits_agree(db, store, hits, WantView::Any)
            &&& forall|i: int, j: int|
                0 <= i < j < hits.len() ==> (#[trigger] hits[i]).pk != (#[trigger] hits[j]).pk
        }),
{
    let v = db.engine;
    let sb = encode_utf8(store);
    let p = doc_prefix_of(sb);
    let recs = records_under(v, p);
    let hits = doc_hits(v, sb);
    lemma_store_is_readable(db, store);
    assert(v.scan_agrees(ScanRangeView::of_prefix(p)));
    assert forall|doc: Json, pk: Seq<u8>| #[trigger] WantView::Any.accepts(doc, pk) by {
        assert(WantView::Any.takes(WantView::Any.entries_of(doc)[0], pk));
    }
    assert forall|i: int| 0 <= i < hits.len() implies ({
        let hit = #[trigger] hits[i];
        &&& zero_free(hit.pk)
        &&& hit.value is Some
        &&& decoded_doc(hit.value->0) is Ok
        &&& stored_doc(v, sb, hit.pk) == Some(decoded_doc(hit.value->0)->Ok_0)
        &&& WantView::Any.accepts(decoded_doc(hit.value->0)->Ok_0, hit.pk)
    }) by {
        let r = recs[i];
        assert(recs.contains(r));
        law_prefix_scan_is_exact(p, r.key, r.ts);
        assert(hits[i].pk == r.key.skip(p.len() as int));
        assert(v.point(r.key, r.ts) == Some(r));
        assert(stored_doc(v, sb, hits[i].pk) is Some);
        lemma_stored_key(db, store, hits[i].pk);
    }
    let pks = lemma_document_scan(db, store, None);
    assert forall|pk: Seq<u8>|
        zero_free(pk) && (#[trigger] stored_doc(v, sb, pk)) is Some && WantView::Any.accepts(
            stored_doc(v, sb, pk)->0,
            pk,
        ) implies is_hit_key(hits, pk) by {
        let key = doc_key_of(sb, pk);
        let r = v.point(key, 0)->0;
        lemma_point_is_of_key(v, key, 0);
        lemma_document_prefix(sb, pk);
        law_prefix_scan_is_exact(p, key, 0);
        assert(recs.contains(r));
        let i = choose|i: int| 0 <= i < recs.len() && recs[i] == r;
        assert(hits[i].pk =~= pk);
    }
    assert forall|i: int, j: int| 0 <= i < j < hits.len() implies (#[trigger] hits[i]).pk != (
    #[trigger] hits[j]).pk by {
        assert(recs[i].ts == 0 && recs[j].ts == 0);
        assert(recs[i].key == doc_key_of(sb, hits[i].pk));
        assert(recs[j].key == doc_key_of(sb, hits[j].pk));
        lemma_records_rise(db, ScanRangeView::of_prefix(p), i, j);
        lemma_lex_irreflexive(recs[i].key);
    }
}

/// A scan in a transaction gives a document exactly where the transaction shows
/// it.
pub proof fn law_transaction_scan_gives_what_is_shown(tx: TxView, db: DbView, store: Seq<char>)
    requires
        db.consistent(),
        db.engine.in_step(),
        sound_writes(tx.writes),
        readable(tx),
        db.store(store) is Some,
    ensures
        tx.scan(db, store) is Ok,
        forall|doc: Json| #[trigger]
            tx.scan(db, store)->Ok_0.contains(doc) <==> exists|pk: Seq<u8>|
                zero_free(pk) && #[trigger] shown(tx, db, store, pk) == Some(doc),
{
    lemma_scan_hits(db, store);
    assert forall|doc: Json, pk: Seq<u8>| #[trigger] WantView::Any.accepts(doc, pk) by {
        assert(WantView::Any.takes(WantView::Any.entries_of(doc)[0], pk));
    }
    lemma_found(tx, db, store, doc_hits(db.engine, encode_utf8(store)), WantView::Any);
}

/// What the transaction shows is what is stored once it is committed, and the
/// database is as sound as before.
pub proof fn law_shown_is_stored_by_the_commit(tx: TxView, db: DbView, store: Seq<char>, pk: Seq<u8>)
    requires
        db.consistent(),
        db.engine.in_step(),
        sound_writes(tx.writes),
        tx.commit(db).1 is None,
        db.store(store) is Some,
    ensures
        stored_doc(tx.commit(db).0.engine, encode_utf8(store), pk) == shown(tx, db, store, pk),
        tx.commit(db).0.consistent(),
        tx.commit(db).0.engine.in_step(),
        tx.commit(db).0.schema == db.schema,
        readable(tx),
{
    lemma_committed_document(tx, db, store, pk);
    law_commit_keeps_consistent(tx, db);
    let es = tx.commit_plan(db)->Ok_0;
    if es.len() > 0 {
        law_changes_keep_reads_in_step(db, es, db.schema);
    }
}

/// A lookup in a transaction gives the documents that the same lookup gives in
/// the database once the transaction is committed.
pub proof fn law_transaction_lookup_is_that_after_the_commit(
    tx: TxView,
    db: DbView,
    store: Seq<char>,
    index: Seq<char>,
    value: Json,
)
    requires
        db.consistent(),
        db.engine.in_step(),
        sound_writes(tx.writes),
        tx.commit(db).1 is None,
        db.index(store, index) is Ok,
        0 < asked_for(db.index(store, index)->Ok_0, value).len() <= db.index(
            store,
            index,
        )->Ok_0.key_paths.len(),
    ensures
        tx.indexed(db, store, index, value) is Ok,
        tx.commit(db).0.indexed(store, index, value) is Ok,
        forall|doc: Json| #[trigger]
            tx.indexed(db, store, index, value)->Ok_0.contains(doc) <==> tx.commit(db).0.indexed(
                store,
                index,
                value,
            )->Ok_0.contains(doc),
{
    let after = tx.commit(db).0;
    let sb = encode_utf8(store);
    let d = db.index(store, index)->Ok_0;
    let asked = asked_for(d, value);
    law_shown_is_stored_by_the_commit(tx, db, store, Seq::empty());
    assert(after.index(store, index) == db.index(store, index));
    law_transaction_lookup_gives_what_is_shown(tx, db, store, index, value);
    law_lookup_gives_the_documents_with_the_value(after, store, index, value);
    assert forall|pk: Seq<u8>| #[trigger]
        shown(tx, db, store, pk) == stored_doc(after.engine, sb, pk) by {
        law_shown_is_stored_by_the_commit(tx, db, store, pk);
    }
    assert forall|doc: Json| #[trigger]
        tx.indexed(db, store, index, value)->Ok_0.contains(doc) <==> after.indexed(
            store,
            index,
            value,
        )->Ok_0.contains(doc) by {
        if tx.indexed(db, store, index, value)->Ok_0.contains(doc) {
            let pk = choose|pk: Seq<u8>|
                zero_free(pk) && #[trigger] shown(tx, db, store, pk) == Some(doc) && begins_with(
                    doc,
                    d,
                    asked,
                );
            assert(stored_doc(after.engine, sb, pk) == Some(doc));
        }
        if after.indexed(store, index, value)->Ok_0.contains(doc) {
            let pk = choose|pk: Seq<u8>|
                zero_free(pk) && #[trigger] stored_doc(after.engine, sb, pk) == Some(doc)
                    && begins_with(doc, d, asked);
            assert(shown(tx, db, store, pk) == Some(doc));
        }
    }
}

/// A range lookup in a transaction gives the documents that the same lookup
/// gives in the database once the transaction is committed.
pub proof fn law_transaction_range_is_that_after_the_commit(
    tx: TxView,
    db: DbView,
    store: Seq<char>,
    index: Seq<char>,
    start: Json,
    end: Json,
)
    requires
        db.consistent(),
        db.engine.in_step(),
        sound_writes(tx.writes),
        tx.commit(db).1 is None,
        db.index(store, index) is Ok,
        0 < asked_for(db.index(store, index)->Ok_0, start).len() <= db.index(
            store,
            index,
        )->Ok_0.key_paths.len(),
        0 < asked_for(db.index(store, index)->Ok_0, end).len() <= db.index(
            store,
            index,
        )->Ok_0.key_paths.len(),
    ensures
        tx.indexed_range(db, store, index, start, end) is Ok,
        tx.commit(db).0.indexed_range(store, index, start, end) is Ok,
        forall|doc: Json| #[trigger]
            tx.indexed_range(db, store, index, start, end)->Ok_0.contains(doc) <==> tx.commit(
                db,
            ).0.indexed_range(store, index, start, end)->Ok_0.contains(doc),
{
    let after = tx.commit(db).0;
    let sb = encode_utf8(store);
    let d = db.index(store, index)->Ok_0;
    let a = asked_for(d, start);
    let b = asked_for(d, end);
    law_shown_is_stored_by_the_commit(tx, db, store, Seq::empty());
    assert(after.index(store, index) == db.index(store, index));
    law_transaction_range_gives_what_is_shown(tx, db, store, index, start, end);
    law_range_lookup_gives_the_documents_between(after, store, index, start, end);
    assert forall|pk: Seq<u8>| #[trigger]
        shown(tx, db, store, pk) == stored_doc(after.engine, sb, pk) by {
        law_shown_is_stored_by_the_commit(tx, db, store, pk);
    }
    assert forall|doc: Json| #[trigger]
        tx.indexed_range(db, store, index, start, end)->Ok_0.contains(doc)
            <==> after.indexed_range(store, index, start, end)->Ok_0.contains(doc) by {
        if tx.indexed_range(db, store, index, start, end)->Ok_0.contains(doc) {
            let pk = choose|pk: Seq<u8>|
                zero_free(pk) && #[trigger] shown(tx, db, store, pk) == Some(doc)
                    && has_values_between(doc, d, a, b);
            assert(stored_doc(after.engine, sb, pk) == Some(doc));
        }
        if after.indexed_range(store, index, start, end)->Ok_0.contains(doc) {
            let pk = choose|pk: Seq<u8>|
                zero_free(pk) && #[trigger] stored_doc(after.engine, sb, pk) == Some(doc)
                    && has_values_between(doc, d, a, b);
            assert(shown(tx, db, store, pk) == Some(doc));
        }
    }
}

/// What the steps of a read give, step by step, under the keys `ks`: one
/// document for each step that gives one.
proof fn lemma_gathered_keys(steps: Seq<Found>, ks: Seq<Seq<u8>>) -> (pks: Seq<Seq<u8>>)
    requires
        ks.len() == steps.len(),
        forall|i: int|
            0 <= i < steps.len() ==> (#[trigger] steps[i]) is Ok && steps[i]->Ok_0.len() <= 1,
        forall|i: int, j: int|
            0 <= i < j < steps.len() && (#[trigger] steps[i])->Ok_0.len() == 1 && (
            #[trigger] steps[j])->Ok_0.len() == 1 ==> ks[i] != ks[j],
    ensures
        gathered(steps) is Ok,
        pks.len() == gathered(steps)->Ok_0.len(),
        pks.no_duplicates(),
        forall|n: int|
            0 <= n < pks.len() ==> exists|i: int|
                0 <= i < steps.len() && ks[i] == #[trigger] pks[n] && (#[trigger] steps[i])->Ok_0
                    == seq![gathered(steps)->Ok_0[n]],
        forall|i: int|
            0 <= i < steps.len() && (#[trigger] steps[i])->Ok_0.len() == 1 ==> pks.contains(ks[i]),
    decreases steps.len(),
{
    if steps.len() == 0 {
        Seq::empty()
    } else {
        let t = steps.drop_first();
        let kt = ks.drop_first();
        assert forall|i: int| 0 <= i < t.len() implies (#[trigger] t[i]) is Ok && t[i]->Ok_0.len()
            <= 1 by {
            assert(t[i] == steps[i + 1]);
        }
        assert forall|i: int, j: int|
            0 <= i < j < t.len() && (#[trigger] t[i])->Ok_0.len() == 1 && (
            #[trigger] t[j])->Ok_0.len() == 1 implies kt[i] != kt[j] by {
            assert(t[i] == steps[i + 1]);
            assert(t[j] == steps[j + 1]);
        }
        let rest = lemma_gathered_keys(t, kt);
        let head = steps[0]->Ok_0;
        let tail = gathered(t)->Ok_0;
        let all = gathered(steps)->Ok_0;
        assert(all == head + tail);
        let pks = if head.len() == 1 {
            seq![ks[0]] + rest
        } else {
            rest
        };
        assert forall|n: int| 0 <= n < rest.len() implies exists|i: int|
            0 < i < steps.len() && ks[i] == #[trigger] rest[n] && (#[trigger] steps[i])->Ok_0
                == seq![tail[n]] by {
            assert(rest[n] == rest[n]);
            let i = choose|i: int|
                0 <= i < t.len() && kt[i] == rest[n] && (#[trigger] t[i])->Ok_0
                    == seq![gathered(t)->Ok_0[n]];
            assert(steps[i + 1] == t[i]);
        }
        assert forall|n: int| 0 <= n < pks.len() implies exists|i: int|
            0 <= i < steps.len() && ks[i] == #[trigger] pks[n] && (#[trigger] steps[i])->Ok_0
                == seq![all[n]] by {
            if head.len() == 1 {
                if n == 0 {
                    assert(steps[0]->Ok_0 =~= seq![all[0]]);
                } else {
                    assert(pks[n] == rest[n - 1]);
                    assert(all[n] == tail[n - 1]);
                }
            } else {
                assert(all =~= tail);
            }
        }
        assert forall|i: int|
            0 <= i < steps.len() && (#[trigger] steps[i])->Ok_0.len() == 1 implies pks.contains(
            ks[i],
        ) by {
            if i == 0 {
                assert(pks[0] == ks[0]);
            } else {
                assert(t[i - 1] == steps[i]);
                assert(rest.contains(kt[i - 1]));
                let n = choose|n: int| 0 <= n < rest.len() && rest[n] == ks[i];
                if head.len() == 1 {
                    assert(pks[n + 1] == ks[i]);
                }
            }
        }
        assert(pks.no_duplicates()) by {
            if head.len() == 1 {
                assert forall|m: int, n: int|
                    0 <= m < n < pks.len() implies #[trigger] pks[m] != #[trigger] pks[n] by {
                    assert(pks[n] == rest[n - 1]);
                    if m > 0 {
                        assert(pks[m] == rest[m - 1]);
                    } else {
                        let i = choose|i: int|
                            0 < i < steps.len() && ks[i] == rest[n - 1] && (
                            #[trigger] steps[i])->Ok_0 == seq![tail[n - 1]];
                        assert(steps[0]->Ok_0.len() == 1 && steps[i]->Ok_0.len() == 1);
                    }
                }
            }
        }
        pks
    }
}

/// A scan in a transaction gives the document of every key that it shows one
/// of, once each.
pub proof fn law_transaction_scan_gives_each_once(tx: TxView, db: DbView, store: Seq<char>) -> (pks: Seq<
    Seq<u8>,
>)
    requires
        db.consistent(),
        db.engine.in_step(),
        sound_writes(tx.writes),
        readable(tx),
        db.store(store) is Some,
    ensures
        tx.scan(db, store) is Ok,
        pks.len() == tx.scan(db, store)->Ok_0.len(),
        pks.no_duplicates(),
        forall|n: int|
            0 <= n < pks.len() ==> shown(tx, db, store, #[trigger] pks[n]) == Some(
                tx.scan(db, store)->Ok_0[n],
            ),
        forall|pk: Seq<u8>|
            zero_free(pk) && (#[trigger] shown(tx, db, store, pk)) is Some ==> pks.contains(pk),
{
    let hits = doc_hits(db.engine, encode_utf8(store));
    let want = WantView::Any;
    lemma_scan_hits(db, store);
    assert forall|doc: Json, pk: Seq<u8>| #[trigger] want.accepts(doc, pk) by {
        assert(want.takes(want.entries_of(doc)[0], pk));
    }
    let steps = tx.steps(store, hits, want);
    let ks = Seq::new(
        steps.len(),
        |i: int|
            if i < hits.len() {
                hits[i].pk
            } else {
                tx.writes[i - hits.len()].key
            },
    );
    assert forall|i: int| 0 <= i < steps.len() implies (#[trigger] steps[i]) is Ok
        && steps[i]->Ok_0.len() <= 1 by {
        lemma_steps(tx, db, store, hits, want, i);
    }
    assert forall|i: int, j: int|
        0 <= i < j < steps.len() && (#[trigger] steps[i])->Ok_0.len() == 1 && (
        #[trigger] steps[j])->Ok_0.len() == 1 implies ks[i] != ks[j] by {
        lemma_steps(tx, db, store, hits, want, i);
        lemma_steps(tx, db, store, hits, want, j);
        if j < hits.len() {
            assert(hits[i].pk != hits[j].pk);
        } else if i < hits.len() {
            if ks[i] == ks[j] {
                assert(is_hit_key(hits, hits[i].pk));
            }
        } else {
            let a = tx.writes[i - hits.len()];
            let b = tx.writes[j - hits.len()];
            assert(a.store == store && b.store == store);
        }
    }
    let pks = lemma_gathered_keys(steps, ks);
    let docs = tx.scan(db, store)->Ok_0;
    assert forall|n: int| 0 <= n < pks.len() implies shown(tx, db, store, #[trigger] pks[n])
        == Some(docs[n]) by {
        let i = choose|i: int|
            0 <= i < steps.len() && ks[i] == pks[n] && (#[trigger] steps[i])->Ok_0
                == seq![gathered(steps)->Ok_0[n]];
        lemma_steps(tx, db, store, hits, want, i);
        assert(steps[i]->Ok_0[0] == docs[n]);
    }
    assert forall|pk: Seq<u8>|
        zero_free(pk) && (#[trigger] shown(tx, db, store, pk)) is Some implies pks.contains(pk) by {
        let i = if is_hit_key(hits, pk) {
            choose|i: int| 0 <= i < hits.len() && (#[trigger] hits[i]).pk == pk
        } else {
            assert(held(tx.writes, store, pk) is Some);
            lemma_slot_position(tx.writes, store, pk);
            hits.len() + slot_position(tx.writes, store, pk)
        };
        lemma_steps(tx, db, store, hits, want, i);
        assert(steps[i]->Ok_0.len() == 1);
        assert(ks[i] == pk);
    }
    pks
}

/// How many documents the first `n` steps of a read give.
spec fn given(steps: Seq<Found>, n: nat) -> nat
    decreases n,
{
    if n == 0 || n > steps.len() {
        0
    } else {
        given(steps, (n - 1) as nat) + steps[n - 1]->Ok_0.len()
    }
}

proof fn lemma_given_first(steps: Seq<Found>, n: nat)
    requires
        0 < n <= steps.len(),
    ensures
        given(steps, n) == steps[0]->Ok_0.len() + given(steps.drop_first(), (n - 1) as nat),
    decreases n,
{
    if n > 1 {
        lemma_given_first(steps, (n - 1) as nat);
        assert(steps.drop_first()[n - 2] == steps[n - 1]);
    } else {
        assert(given(steps, 0) == 0);
        assert(given(steps.drop_first(), 0) == 0);
    }
}

proof fn lemma_given(steps: Seq<Found>)
    requires
        forall|i: int| 0 <= i < steps.len() ==> (#[trigger] steps[i]) is Ok,
    ensures
        gathered(steps) is Ok,
        gathered(steps)->Ok_0.len() == given(steps, steps.len()),
    decreases steps.len(),
{
    if steps.len() > 0 {
        let t = steps.drop_first();
        assert forall|i: int| 0 <= i < t.len() implies (#[trigger] t[i]) is Ok by {
            assert(t[i] == steps[i + 1]);
        }
        lemma_given(t);
        lemma_given_first(steps, steps.len());
        assert(steps[0] is Ok);
    }
}

/// The count of a transaction's documents is the number of those that its scan
/// gives.
pub proof fn law_transaction_count_is_that_of_the_scan(tx: TxView, db: DbView, store: Seq<char>)
    requires
        db.consistent(),
        db.engine.in_step(),
        sound_writes(tx.writes),
        readable(tx),
        db.store(store) is Some,
    ensures
        tx.scan(db, store) is Ok,
        tx.count(db, store) == Ok::<nat, FlowErrorView>(tx.scan(db, store)->Ok_0.len()),
{
    let hits = doc_hits(db.engine, encode_utf8(store));
    let want = WantView::Any;
    lemma_scan_hits(db, store);
    assert forall|doc: Json, pk: Seq<u8>| #[trigger] want.accepts(doc, pk) by {
        assert(want.takes(want.entries_of(doc)[0], pk));
    }
    let steps = tx.steps(store, hits, want);
    assert forall|i: int| 0 <= i < steps.len() implies (#[trigger] steps[i]) is Ok by {
        lemma_steps(tx, db, store, hits, want, i);
    }
    lemma_given(steps);
    lemma_kept_is_given(tx, db, store, hits, hits.len());
    lemma_added_is_given(tx, db, store, hits, tx.writes.len());
}

proof fn lemma_kept_is_given(tx: TxView, db: DbView, store: Seq<char>, hits: Seq<HitView>, n: nat)
    requires
        sound_writes(tx.writes),
        readable(tx),
        hits_agree(db, store, hits, WantView::Any),
        forall|doc: Json, pk: Seq<u8>| #[trigger] WantView::Any.accepts(doc, pk),
        n <= hits.len(),
    ensures
        tx.kept(store, hits, n) == given(tx.steps(store, hits, WantView::Any), n),
    decreases n,
{
    if n > 0 {
        let pk = hits[n - 1].pk;
        lemma_kept_is_given(tx, db, store, hits, (n - 1) as nat);
        lemma_steps(tx, db, store, hits, WantView::Any, n - 1);
        lemma_slot_position(tx.writes, store, pk);
        if held(tx.writes, store, pk) is Some {
            lemma_docs_of_writes(tx.writes, tx.writes.len(), slot_position(tx.writes, store, pk));
        }
    }
}

proof fn lemma_added_is_given(tx: TxView, db: DbView, store: Seq<char>, hits: Seq<HitView>, n: nat)
    requires
        sound_writes(tx.writes),
        readable(tx),
        hits_agree(db, store, hits, WantView::Any),
        forall|doc: Json, pk: Seq<u8>| #[trigger] WantView::Any.accepts(doc, pk),
        n <= tx.writes.len(),
    ensures
        given(tx.steps(store, hits, WantView::Any), hits.len()) + tx.added(store, hits, n)
            == given(tx.steps(store, hits, WantView::Any), hits.len() + n),
    decreases n,
{
    if n > 0 {
        lemma_added_is_given(tx, db, store, hits, (n - 1) as nat);
        lemma_steps(tx, db, store, hits, WantView::Any, hits.len() + n - 1);
        lemma_docs_of_writes(tx.writes, tx.writes.len(), n - 1);
        lemma_write_is_held(tx, n - 1);
    }
}

} // verus!
