//! What a transaction that has written nothing to a store reads there.

use vstd::prelude::*;
use vstd::utf8::encode_utf8;

use crate::engine::EngineView;
use crate::error::FlowErrorView;
use crate::jsondb::db::DbView;
use crate::jsondb::documents::{docs_in, docs_of_entries, entry_range, looked_up};
use crate::jsondb::encoding::{doc_key_of, doc_prefix_of, idx_value_prefix_of};
use crate::jsondb::helpers::records_under;
use crate::jsondb::transaction::{
    doc_hits, entry_hits, gathered, held, slot_position, Found, HitView, SlotView, TxView, WantView,
};
use crate::jsondb::value::{decoded_doc, Json};
use crate::record::RecordView;

verus! {

/// The transaction has written nothing to the store.
pub open spec fn untouched(tx: TxView, store: Seq<char>) -> bool {
    forall|i: int| 0 <= i < tx.writes.len() ==> (#[trigger] tx.writes[i]).store != store
}

proof fn lemma_not_held(s: Seq<SlotView>, store: Seq<char>, key: Seq<u8>)
    requires
        forall|i: int| 0 <= i < s.len() ==> (#[trigger] s[i]).store != store,
    ensures
        slot_position(s, store, key) == s.len(),
        held(s, store, key) is None,
    decreases s.len(),
{
    if s.len() > 0 {
        let t = s.drop_first();
        assert(s[0].store != store);
        assert forall|i: int| 0 <= i < t.len() implies (#[trigger] t[i]).store != store by {
            assert(t[i] == s[i + 1]);
        }
        lemma_not_held(t, store, key);
    }
}

/// What is found where a document was stored in bytes, or none was.
pub open spec fn doc_in(value: Option<Seq<u8>>) -> Found {
    match value {
        None => Ok(Seq::empty()),
        Some(bytes) => match decoded_doc(bytes) {
            Err(e) => Err(e),
            Ok(doc) => Ok(seq![doc]),
        },
    }
}

proof fn lemma_nothing_gathered(steps: Seq<Found>)
    requires
        forall|i: int|
            0 <= i < steps.len() ==> (#[trigger] steps[i]) == Ok::<
                Seq<Json>,
                FlowErrorView,
            >(Seq::empty()),
    ensures
        gathered(steps) is Ok,
        gathered(steps)->Ok_0 == Seq::<Json>::empty(),
    decreases steps.len(),
{
    if steps.len() > 0 {
        let t = steps.drop_first();
        assert(steps[0] is Ok);
        assert forall|i: int| 0 <= i < t.len() implies (#[trigger] t[i]) == Ok::<
            Seq<Json>,
            FlowErrorView,
        >(Seq::empty()) by {
            assert(t[i] == steps[i + 1]);
        }
        lemma_nothing_gathered(t);
        assert(gathered(steps)->Ok_0 =~= Seq::<Json>::empty());
    }
}

proof fn lemma_steps(tx: TxView, store: Seq<char>, hits: Seq<HitView>, want: WantView) -> (blank:
    Seq<Found>)
    requires
        untouched(tx, store),
    ensures
        tx.steps(store, hits, want) == Seq::new(hits.len(), |i: int| doc_in(hits[i].value)) + blank,
        forall|i: int|
            0 <= i < blank.len() ==> (#[trigger] blank[i]) == Ok::<
                Seq<Json>,
                FlowErrorView,
            >(Seq::empty()),
{
    let blank = Seq::new(tx.writes.len(), |i: int| tx.new_docs(i, store, hits, want));
    assert forall|i: int| 0 <= i < blank.len() implies (#[trigger] blank[i]) == Ok::<
        Seq<Json>,
        FlowErrorView,
    >(Seq::empty()) by {
        assert(tx.writes[i].store != store);
    }
    let a = Seq::new(hits.len(), |i: int| tx.hit_docs(store, hits[i], want));
    let b = Seq::new(hits.len(), |i: int| doc_in(hits[i].value));
    assert forall|i: int| 0 <= i < hits.len() implies a[i] == b[i] by {
        lemma_not_held(tx.writes, store, hits[i].pk);
    }
    assert(a =~= b);
    blank
}

proof fn lemma_gathered_docs(records: Seq<RecordView>, steps: Seq<Found>, blank: Seq<Found>)
    requires
        steps.len() == records.len(),
        forall|i: int|
            0 <= i < records.len() ==> (#[trigger] steps[i]) == doc_in(Some(records[i].value)),
        forall|i: int|
            0 <= i < blank.len() ==> (#[trigger] blank[i]) == Ok::<
                Seq<Json>,
                FlowErrorView,
            >(Seq::empty()),
    ensures
        gathered(steps + blank) == docs_in(records, None),
    decreases records.len(),
{
    let all = steps + blank;
    if records.len() == 0 {
        assert(all =~= blank);
        lemma_nothing_gathered(blank);
    } else {
        let rest = records.drop_first();
        let t = steps.drop_first();
        assert(all.drop_first() =~= t + blank);
        assert(all.first() == steps[0]);
        assert forall|i: int| 0 <= i < rest.len() implies (#[trigger] t[i]) == doc_in(
            Some(rest[i].value),
        ) by {
            assert(t[i] == steps[i + 1]);
        }
        lemma_gathered_docs(rest, t, blank);
    }
}

proof fn lemma_gathered_entries(
    v: EngineView,
    records: Seq<RecordView>,
    store: Seq<u8>,
    steps: Seq<Found>,
    blank: Seq<Found>,
)
    requires
        steps.len() == records.len(),
        forall|i: int|
            0 <= i < records.len() ==> (#[trigger] steps[i]) == doc_in(
                match v.point(doc_key_of(store, records[i].value), 0) {
                    Some(rec) => Some(rec.value),
                    None => None,
                },
            ),
        forall|i: int|
            0 <= i < blank.len() ==> (#[trigger] blank[i]) == Ok::<
                Seq<Json>,
                FlowErrorView,
            >(Seq::empty()),
    ensures
        gathered(steps + blank) == docs_of_entries(v, records, store),
    decreases records.len(),
{
    let all = steps + blank;
    if records.len() == 0 {
        assert(all =~= blank);
        lemma_nothing_gathered(blank);
    } else {
        let rest = records.drop_first();
        let t = steps.drop_first();
        assert(all.drop_first() =~= t + blank);
        assert(all.first() == steps[0]);
        assert forall|i: int| 0 <= i < rest.len() implies (#[trigger] t[i]) == doc_in(
            match v.point(doc_key_of(store, rest[i].value), 0) {
                Some(rec) => Some(rec.value),
                None => None,
            },
        ) by {
            assert(t[i] == steps[i + 1]);
        }
        lemma_gathered_entries(v, rest, store, t, blank);
        let found = docs_of_entries(v, rest, store);
        if found is Ok {
            assert(Seq::<Json>::empty() + found->Ok_0 =~= found->Ok_0);
        }
    }
}

/// A scan in a transaction that has written nothing to the store gives the same
/// documents in the same order as the listing of the store.
pub proof fn law_untouched_scan_is_the_listing(tx: TxView, db: DbView, store: Seq<char>)
    requires
        untouched(tx, store),
    ensures
        tx.scan(db, store) == db.listed(store, None, None),
{
    if db.store(store) is Some {
        let sb = encode_utf8(store);
        let records = records_under(db.engine, doc_prefix_of(sb));
        let hits = doc_hits(db.engine, sb);
        let blank = lemma_steps(tx, store, hits, WantView::Any);
        let steps = Seq::new(hits.len(), |i: int| doc_in(hits[i].value));
        lemma_gathered_docs(records, steps, blank);
    }
}

/// A lookup in a transaction that has written nothing to the store gives the same
/// documents in the same order as that of the database.
pub proof fn law_untouched_lookup_is_that_of_the_database(
    tx: TxView,
    db: DbView,
    store: Seq<char>,
    index: Seq<char>,
    value: Json,
)
    requires
        untouched(tx, store),
    ensures
        tx.indexed(db, store, index, value) == db.indexed(store, index, value),
{
    if db.index(store, index) is Ok {
        let d = db.index(store, index)->Ok_0;
        let sb = encode_utf8(store);
        let enc = looked_up(d, value);
        let part = records_under(db.engine, idx_value_prefix_of(sb, encode_utf8(index), enc));
        lemma_untouched_entries(tx, db, store, part, WantView::Exactly(d, enc));
    }
}

/// A range lookup in a transaction that has written nothing to the store gives
/// the same documents in the same order as that of the database.
pub proof fn law_untouched_range_is_that_of_the_database(
    tx: TxView,
    db: DbView,
    store: Seq<char>,
    index: Seq<char>,
    start: Json,
    end: Json,
)
    requires
        untouched(tx, store),
    ensures
        tx.indexed_range(db, store, index, start, end) == db.indexed_range(
            store,
            index,
            start,
            end,
        ),
{
    if db.index(store, index) is Ok {
        let d = db.index(store, index)->Ok_0;
        let sb = encode_utf8(store);
        let from = looked_up(d, start);
        let to = looked_up(d, end);
        let part = db.records(entry_range(sb, encode_utf8(index), from, to));
        lemma_untouched_entries(tx, db, store, part, WantView::Between(d, from, to));
    }
}

proof fn lemma_untouched_entries(
    tx: TxView,
    db: DbView,
    store: Seq<char>,
    part: Seq<RecordView>,
    want: WantView,
)
    requires
        untouched(tx, store),
    ensures
        tx.found(store, entry_hits(db.engine, encode_utf8(store), part), want) == docs_of_entries(
            db.engine,
            part,
            encode_utf8(store),
        ),
{
    let sb = encode_utf8(store);
    let hits = entry_hits(db.engine, sb, part);
    let blank = lemma_steps(tx, store, hits, want);
    let steps = Seq::new(hits.len(), |i: int| doc_in(hits[i].value));
    lemma_gathered_entries(db.engine, part, sb, steps, blank);
}

} // verus!
