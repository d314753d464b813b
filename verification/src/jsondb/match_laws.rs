//! What a query gives: which documents meet its conditions, in which order and
//! how many of them.

use vstd::prelude::*;
use vstd::utf8::encode_utf8;

use crate::bytes::{
    has_prefix, lemma_lex_irreflexive, lemma_lex_le_transitive, lemma_lex_not_le, lemma_lex_total,
    lex_le, lex_lt,
};
use crate::jsondb::db::DbView;
use crate::jsondb::documents::{docs_in, docs_of_entries};
use crate::jsondb::encoding::{
    composite_value, doc_prefix_of, idx_key_of, idx_prefix_of, index_value, zero_free,
};
use crate::jsondb::encoding_laws::{
    law_texts_sort_by_bytes, law_types_sort_apart, law_whole_numbers_sort, type_rank, whole,
};
use crate::jsondb::entry_laws::{
    by_element, has_values, lemma_docs_within, lemma_entered_as, lemma_entry_range_within,
    lemma_index_scan, within_index,
};
use crate::jsondb::helpers::{plain_record, records_under, stored_doc};
use crate::jsondb::index_laws::entered;
use crate::jsondb::listing_laws::{lemma_document_scan, lemma_records_rise, lemma_stored_key};
use crate::jsondb::query::{
    best_index, first_on, fixed_start, fixed_values, index_part, key_before, lemma_place, meets,
    ordered, pins, place, sort_key, usable, FilterView, QueryView, SortDir,
};
use crate::jsondb::query_laws::{
    in_order, law_query_finds_every_match, law_query_results, law_sorting_keeps_documents,
    law_sorting_sorts, law_window_is_a_part, left_over, lemma_best_index, lemma_docs_in,
};
use crate::jsondb::schema::IndexDefView;
use crate::jsondb::value::{decoded_doc, field_at, lemma_json_equal_reflexive, Json, NumberView};
use crate::record::{law_prefix_scan_is_exact, RecordView, ScanRangeView};

verus! {

/// The query without its offset and its limit.
pub open spec fn unlimited(q: QueryView) -> QueryView {
    QueryView { offset: 0, limit: None, ..q }
}

/// The query without its order, its offset and its limit.
pub open spec fn unordered(q: QueryView) -> QueryView {
    QueryView { order_field: None, offset: 0, limit: None, ..q }
}

/// A query gives a page of what it gives without offset and limit: the
/// documents behind the first few, all that are left or as many as the limit
/// says.
pub proof fn law_query_gives_a_page(db: DbView, q: QueryView)
    ensures
        db.queried(q) is Ok <==> db.queried(unlimited(q)) is Ok,
        db.queried(q) is Ok ==> db.queried(q)->Ok_0.len() == left_over(
            db.queried(unlimited(q))->Ok_0.len(),
            q.offset,
            q.limit,
        ),
        db.queried(q) is Ok ==> forall|i: int|
            0 <= i < db.queried(q)->Ok_0.len() ==> #[trigger] db.queried(q)->Ok_0[i] == db.queried(
                unlimited(q),
            )->Ok_0[q.offset + i],
{
    if db.candidates(q.store, q.filters) is Ok {
        let found = db.candidates(q.store, q.filters)->Ok_0.filter(
            |d: Json| meets(d, q.filters),
        );
        let sorted = match q.order_field {
            Some(f) => ordered(found, encode_utf8(f), q.order_dir),
            None => found,
        };
        law_window_is_a_part(sorted, q.offset, q.limit);
        law_window_is_a_part(sorted, 0, None);
    }
}

/// The stretch of an index in which a query looks lies in the index.
proof fn lemma_query_part_within(filters: Seq<FilterView>, store: Seq<u8>, d: IndexDefView)
    ensures
        within_index(index_part(filters, store, d), store, encode_utf8(d.name)),
{
    let fixed = fixed_values(filters, d.key_paths);
    let ib = encode_utf8(d.name);
    let ip = idx_prefix_of(store, ib);
    let p = ip + composite_value(fixed);
    assert forall|key: Seq<u8>, ts: i64| #[trigger]
        ScanRangeView::of_prefix(p).admits(key, ts) implies has_prefix(key, ip) by {
        law_prefix_scan_is_exact(p, key, ts);
        assert(p.subrange(0, ip.len() as int) =~= ip);
        assert(key.subrange(0, ip.len() as int) =~= key.subrange(0, p.len() as int).subrange(
            0,
            ip.len() as int,
        ));
    }
    let next = if fixed.len() < d.key_paths.len() {
        first_on(filters, d.key_paths[fixed.len() as int])
    } else {
        None
    };
    if let Some(FilterView::Range(_, start, end)) = next {
        lemma_entry_range_within(
            store,
            ib,
            fixed_start(fixed) + index_value(start),
            fixed_start(fixed) + index_value(end),
        );
    }
}

/// A document that meets the conditions has one entry at most in an index that
/// the query can use.
proof fn lemma_one_entry(doc: Json, filters: Seq<FilterView>, d: IndexDefView)
    requires
        usable(filters, d),
        meets(doc, filters),
    ensures
        !by_element(doc, d),
{
    if by_element(doc, d) {
        let field = d.key_paths[0];
        assert(pins(filters, field, true));
        lemma_first_on(filters, field);
        let f = first_on(filters, field)->0;
        assert(f.matches(doc));
    }
}

/// The first condition on a field is one of the conditions, and on the field.
proof fn lemma_first_on(filters: Seq<FilterView>, field: Seq<char>)
    ensures
        match first_on(filters, field) {
            Some(f) => f.field() == field && exists|i: int|
                0 <= i < filters.len() && #[trigger] filters[i] == f,
            None => true,
        },
    decreases filters.len(),
{
    if filters.len() > 0 && filters.first().field() != field {
        lemma_first_on(filters.drop_first(), field);
        if let Some(f) = first_on(filters, field) {
            let i = choose|i: int|
                0 <= i < filters.drop_first().len() && #[trigger] filters.drop_first()[i] == f;
            assert(filters[i + 1] == f);
        }
    } else if filters.len() > 0 {
        assert(filters[0] == filters.first());
    }
}

/// The documents that a query looks at, under their keys: each is stored, and
/// those that meet the conditions come once.
proof fn lemma_candidates(db: DbView, q: QueryView) -> (pks: Seq<Seq<u8>>)
    requires
        db.consistent(),
        db.engine.in_step(),
        db.store(q.store) is Some,
    ensures
        ({
            let docs = db.candidates(q.store, q.filters);
            &&& docs is Ok
            &&& pks.len() == docs->Ok_0.len()
            &&& forall|i: int|
                0 <= i < pks.len() ==> stored_doc(
                    db.engine,
                    encode_utf8(q.store),
                    #[trigger] pks[i],
                ) == Some(docs->Ok_0[i])
            &&& forall|i: int, j: int|
                0 <= i < j < pks.len() && meets(docs->Ok_0[i], q.filters) ==> #[trigger] pks[i]
                    != #[trigger] pks[j]
        }),
{
    let v = db.engine;
    let sb = encode_utf8(q.store);
    let def = db.store(q.store)->0;
    lemma_best_index(q.filters, def.indexes, def.indexes.len());
    match best_index(q.filters, def.indexes, def.indexes.len()) {
        None => {
            let pks = lemma_document_scan(db, q.store, None);
            let recs = records_under(v, doc_prefix_of(sb));
            lemma_docs_in(recs);
            assert forall|i: int, j: int| 0 <= i < j < pks.len() implies #[trigger] pks[i]
                != #[trigger] pks[j] by {
                lemma_lex_irreflexive(pks[i]);
            }
            assert forall|i: int| 0 <= i < pks.len() implies stored_doc(v, sb, #[trigger] pks[i])
                == Some(docs_in(recs, None)->Ok_0[i]) by {
                assert(decoded_doc(recs[i].value) is Ok);
            }
            pks
        },
        Some(k) => {
            let d = def.indexes[k];
            let ib = encode_utf8(d.name);
            let range = index_part(q.filters, sb, d);
            let recs = db.records(range);
            lemma_query_part_within(q.filters, sb, d);
            lemma_docs_within(db, q.store, k, range);
            let docs = docs_of_entries(v, recs, sb)->Ok_0;
            let pks = recs.map_values(|r: RecordView| r.value);
            assert forall|i: int| 0 <= i < pks.len() implies stored_doc(v, sb, #[trigger] pks[i])
                == Some(docs[i]) by {
                assert(stored_doc(v, sb, recs[i].value) == Some(docs[i]));
            }
            assert forall|i: int, j: int|
                0 <= i < j < pks.len() && meets(docs[i], q.filters) implies #[trigger] pks[i]
                != #[trigger] pks[j] by {
                if pks[i] == pks[j] {
                    let doc = docs[i];
                    assert(docs[j] == doc);
                    let a = lemma_entry_of(db, q.store, k, range, recs[i]);
                    let b = lemma_entry_of(db, q.store, k, range, recs[j]);
                    lemma_one_entry(doc, q.filters, d);
                    assert forall|m: int| 0 <= m < a.len() implies a[m] == b[m] by {
                        let own = field_at(doc, encode_utf8(d.key_paths[m]));
                        assert(own == Some(a[m]) && own == Some(b[m]));
                    }
                    assert(a =~= b);
                    lemma_records_rise(db, range, i, j);
                    lemma_lex_irreflexive(recs[i].key);
                }
            }
            pks
        },
    }
}

/// The values that an entry in a part of an index is for.
proof fn lemma_entry_of(db: DbView, store: Seq<char>, k: int, range: ScanRangeView, r: RecordView) -> (vals: Seq<
    Json,
>)
    requires
        db.consistent(),
        db.engine.in_step(),
        db.store(store) is Some,
        0 <= k < db.store(store)->0.indexes.len(),
        db.store(store)->0.indexes[k].key_paths.len() > 0,
        within_index(
            range,
            encode_utf8(store),
            encode_utf8(db.store(store)->0.indexes[k].name),
        ),
        db.records(range).contains(r),
    ensures
        ({
            let sb = encode_utf8(store);
            let d = db.store(store)->0.indexes[k];
            &&& r == plain_record(
                idx_key_of(sb, encode_utf8(d.name), composite_value(vals), r.value),
                r.value,
            )
            &&& stored_doc(db.engine, sb, r.value) is Some
            &&& has_values(stored_doc(db.engine, sb, r.value)->0, d, vals)
        }),
{
    let v = db.engine;
    let sb = encode_utf8(store);
    let d = db.store(store)->0.indexes[k];
    let ib = encode_utf8(d.name);
    lemma_index_scan(db, store, k, range, r);
    let (value, pk) = choose|value: Seq<u8>, pk: Seq<u8>|
        zero_free(pk) && r == plain_record(#[trigger] idx_key_of(sb, ib, value, pk), pk)
            && entered(v, sb, pk, d, value) && range.admits(idx_key_of(sb, ib, value, pk), 0);
    let doc = stored_doc(v, sb, pk)->0;
    lemma_entered_as(doc, d, value);
    choose|vals: Seq<Json>| #[trigger] has_values(doc, d, vals) && composite_value(vals) == value
}

/// A document that is kept of a list stands there under a key.
pub open spec fn stands_at(
    docs: Seq<Json>,
    pks: Seq<Seq<u8>>,
    p: spec_fn(Json) -> bool,
    doc: Json,
    pk: Seq<u8>,
) -> bool {
    p(doc) && exists|i: int| 0 <= i < docs.len() && #[trigger] pks[i] == pk && docs[i] == doc
}

/// What is kept of a list, under the keys of the list.
proof fn lemma_filtered(docs: Seq<Json>, pks: Seq<Seq<u8>>, p: spec_fn(Json) -> bool) -> (kept: Seq<
    Seq<u8>,
>)
    requires
        pks.len() == docs.len(),
        forall|i: int, j: int|
            0 <= i < j < pks.len() && p(docs[i]) ==> #[trigger] pks[i] != #[trigger] pks[j],
    ensures
        kept.len() == docs.filter(p).len(),
        kept.no_duplicates(),
        forall|n: int|
            0 <= n < kept.len() ==> stands_at(docs, pks, p, docs.filter(p)[n], #[trigger] kept[n]),
    decreases docs.len(),
{
    reveal(Seq::filter);
    if docs.len() == 0 {
        Seq::empty()
    } else {
        let t = docs.drop_last();
        let kt = pks.drop_last();
        assert forall|i: int, j: int| 0 <= i < j < kt.len() && p(t[i]) implies #[trigger] kt[i]
            != #[trigger] kt[j] by {
            assert(kt[i] == pks[i] && kt[j] == pks[j]);
        }
        let rest = lemma_filtered(t, kt, p);
        let all = docs.filter(p);
        let kept = if p(docs.last()) {
            rest.push(pks.last())
        } else {
            rest
        };
        assert forall|n: int| 0 <= n < kept.len() implies stands_at(
            docs,
            pks,
            p,
            all[n],
            #[trigger] kept[n],
        ) by {
            if n < rest.len() {
                assert(kept[n] == rest[n]);
                assert(all[n] == t.filter(p)[n]);
                let i = choose|i: int|
                    0 <= i < t.len() && #[trigger] kt[i] == rest[n] && t[i] == t.filter(p)[n];
                assert(pks[i] == rest[n]);
                assert(docs[i] == all[n]);
            } else {
                assert(pks[docs.len() - 1] == kept[n]);
            }
        }
        assert(kept.no_duplicates()) by {
            if p(docs.last()) {
                assert forall|m: int, n: int| 0 <= m < n < kept.len() implies #[trigger] kept[m]
                    != #[trigger] kept[n] by {
                    assert(stands_at(t, kt, p, t.filter(p)[m], rest[m]));
                    let i = choose|i: int|
                        0 <= i < t.len() && #[trigger] kt[i] == rest[m] && t[i] == t.filter(p)[m];
                    assert(kt[i] == pks[i]);
                    if n == rest.len() {
                        assert(p(docs[i]));
                        assert(pks[i] != pks[docs.len() - 1]);
                    } else {
                        assert(rest[m] != rest[n]);
                    }
                }
            }
        }
        kept
    }
}

/// A query without order, offset and limit gives the document under every key
/// whose document meets the conditions, once each.
pub proof fn law_query_gives_each_match_once(db: DbView, q: QueryView) -> (pks: Seq<Seq<u8>>)
    requires
        db.consistent(),
        db.engine.in_step(),
        db.store(q.store) is Some,
    ensures
        db.queried(unordered(q)) is Ok,
        pks.len() == db.queried(unordered(q))->Ok_0.len(),
        pks.no_duplicates(),
        forall|n: int|
            0 <= n < pks.len() ==> stored_doc(
                db.engine,
                encode_utf8(q.store),
                #[trigger] pks[n],
            ) == Some(db.queried(unordered(q))->Ok_0[n]) && meets(
                db.queried(unordered(q))->Ok_0[n],
                q.filters,
            ),
        forall|doc: Json| #[trigger]
            db.queried(unordered(q))->Ok_0.contains(doc) <==> meets(doc, q.filters) && exists|
                pk: Seq<u8>,
            | #[trigger] stored_doc(db.engine, encode_utf8(q.store), pk) == Some(doc),
{
    let u = unordered(q);
    let docs = db.candidates(q.store, q.filters)->Ok_0;
    let p = |d: Json| meets(d, q.filters);
    let ks = lemma_candidates(db, q);
    let found = docs.filter(p);
    let pks = lemma_filtered(docs, ks, p);
    law_window_is_a_part(found, 0, None);
    assert(db.queried(u)->Ok_0 == found);
    assert forall|n: int| 0 <= n < pks.len() implies stored_doc(
        db.engine,
        encode_utf8(q.store),
        #[trigger] pks[n],
    ) == Some(found[n]) && meets(found[n], q.filters) by {
        assert(stands_at(docs, ks, p, found[n], pks[n]));
        let i = choose|i: int| 0 <= i < docs.len() && #[trigger] ks[i] == pks[n] && docs[i] == found[n];
        assert(stored_doc(db.engine, encode_utf8(q.store), ks[i]) == Some(docs[i]));
    }
    assert forall|doc: Json| #[trigger] found.contains(doc) <==> meets(doc, q.filters) && exists|
        pk: Seq<u8>,
    | #[trigger] stored_doc(db.engine, encode_utf8(q.store), pk) == Some(doc) by {
        if found.contains(doc) {
            let n = choose|n: int| 0 <= n < found.len() && found[n] == doc;
            assert(stored_doc(db.engine, encode_utf8(q.store), pks[n]) == Some(doc));
        }
        if meets(doc, q.filters) && exists|pk: Seq<u8>| #[trigger]
            stored_doc(db.engine, encode_utf8(q.store), pk) == Some(doc) {
            let pk = choose|pk: Seq<u8>| #[trigger]
                stored_doc(db.engine, encode_utf8(q.store), pk) == Some(doc);
            lemma_stored_key(db, q.store, pk);
            law_query_finds_every_match(db, u, pk, doc);
        }
    }
    pks
}

/// An order changes the order alone: the documents are those of the query
/// without one, and those with the same key stay in the same order.
pub proof fn law_order_keeps_the_documents(db: DbView, q: QueryView)
    requires
        db.queried(unlimited(q)) is Ok,
    ensures
        db.queried(unordered(q)) is Ok,
        db.queried(unlimited(q))->Ok_0.to_multiset() == db.queried(
            unordered(q),
        )->Ok_0.to_multiset(),
        q.order_field is Some ==> in_order(
            db.queried(unlimited(q))->Ok_0,
            encode_utf8(q.order_field->0),
            q.order_dir,
        ),
        q.order_field is Some ==> forall|key: Seq<u8>|
            with_key(
                db.queried(unlimited(q))->Ok_0,
                encode_utf8(q.order_field->0),
                key,
            ) == #[trigger] with_key(
                db.queried(unordered(q))->Ok_0,
                encode_utf8(q.order_field->0),
                key,
            ),
{
    let found = db.candidates(q.store, q.filters)->Ok_0.filter(|d: Json| meets(d, q.filters));
    law_window_is_a_part(found, 0, None);
    if let Some(f) = q.order_field {
        let fb = encode_utf8(f);
        let sorted = ordered(found, fb, q.order_dir);
        law_window_is_a_part(sorted, 0, None);
        law_sorting_keeps_documents(found, fb, q.order_dir);
        law_sorting_sorts(found, fb, q.order_dir);
        assert(db.queried(unlimited(q))->Ok_0 == sorted);
        assert forall|key: Seq<u8>| with_key(sorted, fb, key) == #[trigger] with_key(
            found,
            fb,
            key,
        ) by {
            law_sorting_is_stable(found, fb, q.order_dir, key);
        }
    }
    assert(db.queried(unordered(q))->Ok_0 == found);
}

/// The documents that sort under a key.
pub open spec fn with_key(docs: Seq<Json>, field: Seq<u8>, key: Seq<u8>) -> Seq<Json> {
    docs.filter(|d: Json| sort_key(d, field) == key)
}

/// Nothing is kept of a list in which nothing fits.
proof fn lemma_none_kept(docs: Seq<Json>, p: spec_fn(Json) -> bool)
    requires
        forall|i: int| 0 <= i < docs.len() ==> !p(#[trigger] docs[i]),
    ensures
        docs.filter(p).len() == 0,
    decreases docs.len(),
{
    reveal(Seq::filter);
    if docs.len() > 0 {
        let t = docs.drop_last();
        assert forall|i: int| 0 <= i < t.len() implies !p(#[trigger] t[i]) by {
            assert(t[i] == docs[i]);
        }
        lemma_none_kept(t, p);
        assert(!p(docs[docs.len() - 1]));
    }
}

/// Sorting keeps the order of the documents with the same key.
pub proof fn law_sorting_is_stable(docs: Seq<Json>, field: Seq<u8>, dir: SortDir, key: Seq<u8>)
    ensures
        with_key(ordered(docs, field, dir), field, key) == with_key(docs, field, key),
    decreases docs.len(),
{
    let p = |d: Json| sort_key(d, field) == key;
    if docs.len() > 0 {
        let t = docs.drop_last();
        let x = docs.last();
        let s = ordered(t, field, dir);
        let at = place(s, x, field, dir);
        law_sorting_is_stable(t, field, dir, key);
        lemma_place(s, x, field, dir);
        let a = s.take(at);
        let b = s.skip(at);
        let out = s.insert(at, x);
        let one = seq![x];
        assert(s =~= a + b);
        assert(out =~= (a + one) + b);
        assert(docs =~= t + one);
        Seq::filter_distributes_over_add(a, b, p);
        Seq::filter_distributes_over_add(a + one, b, p);
        Seq::filter_distributes_over_add(a, one, p);
        Seq::filter_distributes_over_add(t, one, p);
        if p(x) {
            assert forall|i: int| 0 <= i < b.len() implies !p(#[trigger] b[i]) by {
                assert(b[i] == s[at + i]);
                assert(key_before(sort_key(x, field), sort_key(s[at + i], field), dir));
                lemma_lex_irreflexive(key);
            }
            lemma_none_kept(b, p);
        } else {
            lemma_none_kept(one, p);
        }
        assert((a.filter(p) + one.filter(p)) + b.filter(p) =~= (a.filter(p) + b.filter(p))
            + one.filter(p));
        assert(out.filter(p) == docs.filter(p));
    } else {
        assert(ordered(docs, field, dir) == docs);
    }
}

/// Of two documents of an ordered query with whole numbers in the field the one
/// with the smaller number comes first, with the larger where the order is
/// turned round. Documents without the field, or with null, come first, or
/// last.
pub proof fn law_query_orders_by_value(db: DbView, q: QueryView, i: int, j: int)
    requires
        db.queried(q) is Ok,
        q.order_field is Some,
        0 <= i < j < db.queried(q)->Ok_0.len(),
    ensures
        ({
            let a = field_at(db.queried(q)->Ok_0[i], encode_utf8(q.order_field->0));
            let b = field_at(db.queried(q)->Ok_0[j], encode_utf8(q.order_field->0));
            let x = a->0->Number_0;
            let y = b->0->Number_0;
            let s = a->0->Text_0;
            let t = b->0->Text_0;
            &&& a is Some && a->0 is Number && whole(x) is Some && b is Some && b->0 is Number
                && whole(y) is Some ==> match q.order_dir {
                SortDir::Asc => whole(x)->0 <= whole(y)->0,
                SortDir::Desc => whole(x)->0 >= whole(y)->0,
            }
            &&& a is Some && a->0 is Text && b is Some && b->0 is Text ==> match q.order_dir {
                SortDir::Asc => lex_le(s, t),
                SortDir::Desc => lex_le(t, s),
            }
            &&& b is None && q.order_dir is Asc ==> a is None || a->0 is Null
            &&& a is None && q.order_dir is Desc ==> b is None || b->0 is Null
        }),
{
    let out = db.queried(q)->Ok_0;
    let fb = encode_utf8(q.order_field->0);
    let a = field_at(out[i], fb);
    let b = field_at(out[j], fb);
    law_query_results(db, q);
    assert(!key_before(sort_key(out[j], fb), sort_key(out[i], fb), q.order_dir));
    if a is Some && a->0 is Number && b is Some && b->0 is Number {
        let x = a->0->Number_0;
        let y = b->0->Number_0;
        if whole(x) is Some && whole(y) is Some {
            law_whole_numbers_sort(x, y);
            law_whole_numbers_sort(y, x);
        }
    }
    if a is Some && a->0 is Text && b is Some && b->0 is Text {
        let s = a->0->Text_0;
        let t = b->0->Text_0;
        law_texts_sort_by_bytes(s, t);
        law_texts_sort_by_bytes(t, s);
        lemma_lex_total(s, t);
    }
    if b is None && a is Some && !(a->0 is Null) {
        law_types_sort_apart(Json::Null, a->0);
    }
    if a is None && b is Some && !(b->0 is Null) {
        law_types_sort_apart(Json::Null, b->0);
    }
}

/// What the document has in the field of a condition.
pub open spec fn field_of(doc: Json, field: Seq<char>) -> Option<Json> {
    field_at(doc, encode_utf8(field))
}

/// A document without the field meets no condition on it.
pub proof fn law_no_field_meets_no_condition(f: FilterView, doc: Json)
    requires
        field_of(doc, f.field()) is None,
    ensures
        !f.matches(doc),
{
}

/// An equality is met by the value itself, and by no value of another type.
pub proof fn law_equality_is_met_by_the_value(field: Seq<char>, want: Json, doc: Json)
    ensures
        field_of(doc, field) == Some(want) ==> FilterView::Eq(field, want).matches(doc),
        field_of(doc, field) is Some && type_rank(field_of(doc, field)->0) != type_rank(want)
            ==> !FilterView::Eq(field, want).matches(doc),
        want is Text && field_of(doc, field) is Some && field_of(doc, field)->0 != want
            ==> !FilterView::Eq(field, want).matches(doc),
        want is Bool && field_of(doc, field) is Some && field_of(doc, field)->0 != want
            ==> !FilterView::Eq(field, want).matches(doc),
        want is Number && want->Number_0 is PosInt && field_of(doc, field) is Some && field_of(
            doc,
            field,
        )->0 != want ==> !FilterView::Eq(field, want).matches(doc),
        want is Number && want->Number_0 is NegInt && field_of(doc, field) is Some && field_of(
            doc,
            field,
        )->0 != want ==> !FilterView::Eq(field, want).matches(doc),
{
    lemma_json_equal_reflexive(want);
}

/// A range of whole numbers is met by the whole numbers from its start to
/// before its end.
pub proof fn law_range_is_met_by_the_numbers_in_it(
    field: Seq<char>,
    start: NumberView,
    end: NumberView,
    doc: Json,
    n: NumberView,
)
    requires
        whole(start) is Some,
        whole(end) is Some,
        whole(n) is Some,
        field_of(doc, field) == Some(Json::Number(n)),
    ensures
        FilterView::Range(field, Json::Number(start), Json::Number(end)).matches(doc) <==> whole(
            start,
        )->0 <= whole(n)->0 < whole(end)->0,
{
    law_whole_numbers_sort(start, n);
    law_whole_numbers_sort(n, end);
}

/// A range of texts is met by the texts from its start to before its end, in
/// the order of their bytes.
pub proof fn law_range_is_met_by_the_texts_in_it(
    field: Seq<char>,
    start: Seq<u8>,
    end: Seq<u8>,
    doc: Json,
    t: Seq<u8>,
)
    requires
        field_of(doc, field) == Some(Json::Text(t)),
    ensures
        FilterView::Range(field, Json::Text(start), Json::Text(end)).matches(doc) <==> lex_le(
            start,
            t,
        ) && lex_lt(t, end),
{
    law_texts_sort_by_bytes(start, t);
    law_texts_sort_by_bytes(t, end);
}

/// Two ranges that meet are one: a document is in the first or the second
/// exactly where it is in the range from the start of the one to the end of the
/// other.
pub proof fn law_adjoining_ranges_are_one(
    field: Seq<char>,
    a: Json,
    b: Json,
    c: Json,
    doc: Json,
)
    requires
        lex_le(index_value(a), index_value(b)),
        lex_le(index_value(b), index_value(c)),
    ensures
        FilterView::Range(field, a, c).matches(doc) <==> FilterView::Range(field, a, b).matches(doc)
            || FilterView::Range(field, b, c).matches(doc),
        !(FilterView::Range(field, a, b).matches(doc) && FilterView::Range(field, b, c).matches(
            doc,
        )),
{
    if field_of(doc, field) is Some {
        let v = index_value(field_of(doc, field)->0);
        let x = index_value(a);
        let y = index_value(b);
        let z = index_value(c);
        lemma_lex_not_le(y, v);
        if lex_le(y, v) {
            lemma_lex_le_transitive(x, y, v);
        }
        if lex_lt(v, y) {
            lemma_lex_le_transitive(v, y, z);
        }
    }
}

proof fn lemma_in_matches(field: Seq<char>, values: Seq<Json>, doc: Json, i: int)
    requires
        field_of(doc, field) is Some,
        0 <= i < values.len(),
        index_value(values[i]) == index_value(field_of(doc, field)->0),
    ensures
        FilterView::In(field, values).matches(doc),
{
    let f = FilterView::In(field, values);
    assert(f.field() == field);
    assert(index_value(f->In_1[i]) == index_value(field_of(doc, field)->0));
}

/// One of the values is the whole number.
pub open spec fn lists_number(values: Seq<Json>, n: int) -> bool {
    exists|i: int|
        0 <= i < values.len() && (#[trigger] values[i]) is Number && whole(values[i]->Number_0)
            == Some(n)
}

/// The values are whole numbers.
pub open spec fn are_whole(values: Seq<Json>) -> bool {
    forall|i: int|
        0 <= i < values.len() ==> (#[trigger] values[i]) is Number && whole(
            values[i]->Number_0,
        ) is Some
}

/// A choice of whole numbers is met by each of them and by no other number.
pub proof fn law_choice_is_met_by_its_numbers(
    field: Seq<char>,
    values: Seq<Json>,
    doc: Json,
    n: NumberView,
)
    requires
        are_whole(values),
        whole(n) is Some,
        field_of(doc, field) == Some(Json::Number(n)),
    ensures
        FilterView::In(field, values).matches(doc) <==> lists_number(values, whole(n)->0),
{
    assert forall|i: int| 0 <= i < values.len() implies (index_value(#[trigger] values[i])
        == index_value(Json::Number(n)) <==> whole(values[i]->Number_0)->0 == whole(n)->0) by {
        law_whole_numbers_sort(values[i]->Number_0, n);
    }
    if FilterView::In(field, values).matches(doc) {
        let i = choose|i: int|
            0 <= i < values.len() && index_value(#[trigger] values[i]) == index_value(
                Json::Number(n),
            );
        assert(values[i] is Number && whole(values[i]->Number_0) == Some(whole(n)->0));
    }
    if lists_number(values, whole(n)->0) {
        let i = choose|i: int|
            0 <= i < values.len() && (#[trigger] values[i]) is Number && whole(values[i]->Number_0)
                == Some(whole(n)->0);
        assert(index_value(values[i]) == index_value(Json::Number(n)));
        lemma_in_matches(field, values, doc, i);
    }
}

/// A choice of texts is met by each of them and by no other text.
pub proof fn law_choice_is_met_by_its_texts(
    field: Seq<char>,
    values: Seq<Json>,
    doc: Json,
    t: Seq<u8>,
)
    requires
        forall|i: int| 0 <= i < values.len() ==> (#[trigger] values[i]) is Text,
        field_of(doc, field) == Some(Json::Text(t)),
    ensures
        FilterView::In(field, values).matches(doc) <==> values.contains(Json::Text(t)),
{
    assert forall|i: int| 0 <= i < values.len() implies (index_value(#[trigger] values[i])
        == index_value(Json::Text(t)) <==> values[i] == Json::Text(t)) by {
        law_texts_sort_by_bytes(values[i]->Text_0, t);
    }
    if FilterView::In(field, values).matches(doc) {
        let i = choose|i: int|
            0 <= i < values.len() && index_value(#[trigger] values[i]) == index_value(
                Json::Text(t),
            );
        assert(values[i] == Json::Text(t));
    }
    if values.contains(Json::Text(t)) {
        let i = choose|i: int| 0 <= i < values.len() && values[i] == Json::Text(t);
        assert(index_value(values[i]) == index_value(Json::Text(t)));
        lemma_in_matches(field, values, doc, i);
    }
}

/// A choice of more values is met by what meets one of its parts.
pub proof fn law_choice_is_met_by_its_parts(
    field: Seq<char>,
    a: Seq<Json>,
    b: Seq<Json>,
    doc: Json,
)
    ensures
        FilterView::In(field, a + b).matches(doc) <==> FilterView::In(field, a).matches(doc)
            || FilterView::In(field, b).matches(doc),
        !FilterView::In(field, Seq::empty()).matches(doc),
        forall|v: Json|
            field_of(doc, field) == Some(v) ==> #[trigger] FilterView::In(
                field,
                seq![v],
            ).matches(doc),
{
    if field_of(doc, field) is Some {
        let w = index_value(field_of(doc, field)->0);
        let all = a + b;
        if FilterView::In(field, all).matches(doc) {
            let i = choose|i: int|
                0 <= i < all.len() && index_value(#[trigger] all[i]) == w;
            if i < a.len() {
                assert(index_value(a[i]) == w);
                lemma_in_matches(field, a, doc, i);
            } else {
                assert(index_value(b[i - a.len()]) == w);
                lemma_in_matches(field, b, doc, i - a.len());
            }
        }
        if FilterView::In(field, a).matches(doc) {
            let i = choose|i: int| 0 <= i < a.len() && index_value(#[trigger] a[i]) == w;
            assert(index_value(all[i]) == w);
            lemma_in_matches(field, all, doc, i);
        }
        if FilterView::In(field, b).matches(doc) {
            let i = choose|i: int| 0 <= i < b.len() && index_value(#[trigger] b[i]) == w;
            assert(index_value(all[a.len() + i]) == w);
            lemma_in_matches(field, all, doc, a.len() + i);
        }
        assert forall|v: Json|
            field_of(doc, field) == Some(v) implies #[trigger] FilterView::In(
            field,
            seq![v],
        ).matches(doc) by {
            assert(index_value(seq![v][0]) == w);
            lemma_in_matches(field, seq![v], doc, 0);
        }
    }
}

/// More conditions are met where each of them is, and no condition always is.
pub proof fn law_conditions_are_met_together(a: Seq<FilterView>, b: Seq<FilterView>, doc: Json)
    ensures
        meets(doc, a + b) <==> meets(doc, a) && meets(doc, b),
        meets(doc, Seq::empty()),
        forall|f: FilterView| #[trigger] meets(doc, seq![f]) <==> f.matches(doc),
{
    let all = a + b;
    if meets(doc, all) {
        assert forall|i: int| 0 <= i < a.len() implies (#[trigger] a[i]).matches(doc) by {
            assert(all[i] == a[i]);
        }
        assert forall|i: int| 0 <= i < b.len() implies (#[trigger] b[i]).matches(doc) by {
            assert(all[a.len() + i] == b[i]);
        }
    }
    assert forall|f: FilterView| #[trigger] meets(doc, seq![f]) <==> f.matches(doc) by {
        if meets(doc, seq![f]) {
            assert(seq![f][0].matches(doc));
        }
    }
}

} // verus!
