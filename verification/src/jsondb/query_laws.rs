//! What holds of the results of queries.

use vstd::prelude::*;
use vstd::utf8::encode_utf8;

use crate::bytes::{has_prefix, lemma_lex_asymmetric, lemma_lex_le_transitive, lemma_lex_not_le};
use crate::engine::EngineView;
use crate::jsondb::consistency_laws::lemma_store_at;
use crate::jsondb::db::DbView;
use crate::jsondb::definition_laws::lemma_document_prefix;
use crate::jsondb::document_laws::lemma_store_names;
use crate::jsondb::documents::{docs_in, docs_of_entries, entry_range};
use crate::jsondb::encoding::{
    composite_value, doc_key_of, doc_prefix_of, fields_at, idx_key_of, idx_prefix_of, index_value,
    parts, pow2, zero_free,
};
use crate::jsondb::encoding_laws::{
    law_composite_values_are_exact, law_index_values_are_zero_free, law_numbers_sort_by_value,
    lemma_admits_between, lemma_against_entry, lemma_equal_after, lemma_lex_add, number_value,
};
use crate::jsondb::helpers::{entered_under, paths_utf8, plain_record, records_under, stored_doc};
use crate::jsondb::index_laws::{index_agrees, is_content_key, store_agrees};
use crate::jsondb::query::{
    best_index, first_on, fixed_start, fixed_values, index_part, is_scalar, key_before, lemma_place,
    meets, ordered, pins, place, sort_key, usable, window, FilterView, QueryView, SortDir,
};
use crate::jsondb::schema::IndexDefView;
use crate::jsondb::transaction::entered_as;
use crate::jsondb::value::{decoded_doc, field_at, json_equal, Json, NumberView};
use crate::order::lemma_filter_contains;
use crate::read_laws::lemma_point_is_of_key;
use crate::record::{law_prefix_scan_is_exact, RecordView, ScanRangeView};

verus! {

/// Sorting neither loses nor adds a document.
pub proof fn law_sorting_keeps_documents(docs: Seq<Json>, field: Seq<u8>, dir: SortDir)
    ensures
        ordered(docs, field, dir).len() == docs.len(),
        ordered(docs, field, dir).to_multiset() == docs.to_multiset(),
    decreases docs.len(),
{
    broadcast use vstd::seq_lib::group_to_multiset_ensures;

    if docs.len() > 0 {
        let t = docs.drop_last();
        let x = docs.last();
        let s = ordered(t, field, dir);
        law_sorting_keeps_documents(t, field, dir);
        lemma_place(s, x, field, dir);
        let p = place(s, x, field, dir);
        assert(docs =~= t.push(x));
        vstd::seq_lib::to_multiset_insert(s, p, x);
    }
}

/// The documents are in the order that is asked for.
pub open spec fn in_order(docs: Seq<Json>, field: Seq<u8>, dir: SortDir) -> bool {
    forall|i: int, j: int|
        0 <= i < j < docs.len() ==> !key_before(
            sort_key(#[trigger] docs[j], field),
            sort_key(#[trigger] docs[i], field),
            dir,
        )
}

proof fn lemma_not_before_transitive(a: Seq<u8>, b: Seq<u8>, c: Seq<u8>, dir: SortDir)
    requires
        !key_before(b, a, dir),
        !key_before(c, b, dir),
    ensures
        !key_before(c, a, dir),
{
    lemma_lex_not_le(a, b);
    lemma_lex_not_le(b, a);
    lemma_lex_not_le(b, c);
    lemma_lex_not_le(c, b);
    lemma_lex_not_le(a, c);
    lemma_lex_not_le(c, a);
    match dir {
        SortDir::Asc => {
            lemma_lex_le_transitive(a, b, c);
        },
        SortDir::Desc => {
            lemma_lex_le_transitive(c, b, a);
        },
    }
}

/// Sorting puts documents in order.
pub proof fn law_sorting_sorts(docs: Seq<Json>, field: Seq<u8>, dir: SortDir)
    ensures
        in_order(ordered(docs, field, dir), field, dir),
    decreases docs.len(),
{
    if docs.len() > 0 {
        let t = docs.drop_last();
        let x = docs.last();
        let s = ordered(t, field, dir);
        law_sorting_sorts(t, field, dir);
        lemma_place(s, x, field, dir);
        let p = place(s, x, field, dir);
        let out = s.insert(p, x);
        let k = sort_key(x, field);
        assert forall|i: int, j: int| 0 <= i < j < out.len() implies !key_before(
            sort_key(#[trigger] out[j], field),
            sort_key(#[trigger] out[i], field),
            dir,
        ) by {
            if j < p {
                assert(out[i] == s[i] && out[j] == s[j]);
            } else if j == p {
                assert(out[i] == s[i]);
                if i < p - 1 {
                    assert(!key_before(sort_key(s[p - 1], field), sort_key(s[i], field), dir));
                    lemma_not_before_transitive(
                        sort_key(s[i], field),
                        sort_key(s[p - 1], field),
                        k,
                        dir,
                    );
                }
            } else if i == p {
                assert(out[j] == s[j - 1]);
                lemma_before_is_strict(k, sort_key(s[j - 1], field), dir);
            } else {
                assert(out[j] == s[j - 1]);
                if i < p {
                    assert(out[i] == s[i]);
                } else {
                    assert(out[i] == s[i - 1]);
                }
            }
        }
    }
}

proof fn lemma_before_is_strict(a: Seq<u8>, b: Seq<u8>, dir: SortDir)
    requires
        key_before(a, b, dir),
    ensures
        !key_before(b, a, dir),
{
    match dir {
        SortDir::Asc => {
            lemma_lex_asymmetric(a, b);
        },
        SortDir::Desc => {
            lemma_lex_asymmetric(b, a);
        },
    }
}

pub proof fn lemma_ordered_contains(docs: Seq<Json>, field: Seq<u8>, dir: SortDir, d: Json)
    ensures
        ordered(docs, field, dir).contains(d) <==> docs.contains(d),
{
    broadcast use vstd::seq_lib::group_to_multiset_ensures;

    law_sorting_keeps_documents(docs, field, dir);
    assert(ordered(docs, field, dir).contains(d) <==> ordered(docs, field, dir).to_multiset().count(
        d,
    ) > 0);
    assert(docs.contains(d) <==> docs.to_multiset().count(d) > 0);
}

/// How many documents stand behind the first `offset`, up to a limit.
pub open spec fn left_over(n: nat, offset: nat, limit: Option<nat>) -> nat {
    let rest = if offset <= n {
        (n - offset) as nat
    } else {
        0
    };
    match limit {
        Some(l) => if l < rest {
            l
        } else {
            rest
        },
        None => rest,
    }
}

/// A window shows the documents of the whole behind the first few, in their
/// order: all that are left, or as many as the limit says.
pub proof fn law_window_is_a_part(docs: Seq<Json>, offset: nat, limit: Option<nat>)
    ensures
        window(docs, offset, limit).len() == left_over(docs.len(), offset, limit),
        limit is Some ==> window(docs, offset, limit).len() <= limit->0,
        forall|i: int|
            0 <= i < window(docs, offset, limit).len() ==> offset + i < docs.len()
                && #[trigger] window(docs, offset, limit)[i] == docs[offset + i],
        limit is None && offset == 0 ==> window(docs, offset, limit) == docs,
        limit is Some && offset + limit->0 <= docs.len() ==> window(docs, offset, limit).len()
            == limit->0,
{
    if limit is None && offset == 0 {
        assert(window(docs, 0, None) =~= docs);
    }
}

/// Every document that a query gives meets all its conditions, in the order
/// that was asked for, and there are no more than its limit.
pub proof fn law_query_results(db: DbView, q: QueryView)
    requires
        db.queried(q) is Ok,
    ensures
        ({
            let out = db.queried(q)->Ok_0;
            &&& forall|i: int| 0 <= i < out.len() ==> meets(#[trigger] out[i], q.filters)
            &&& q.limit is Some ==> out.len() <= q.limit->0
            &&& q.order_field is Some ==> in_order(out, encode_utf8(q.order_field->0), q.order_dir)
        }),
{
    let docs = db.candidates(q.store, q.filters)->Ok_0;
    let p = |d: Json| meets(d, q.filters);
    let found = docs.filter(p);
    let sorted = match q.order_field {
        Some(f) => ordered(found, encode_utf8(f), q.order_dir),
        None => found,
    };
    let out = window(sorted, q.offset, q.limit);
    assert(out == db.queried(q)->Ok_0);
    law_window_is_a_part(sorted, q.offset, q.limit);
    assert forall|i: int| 0 <= i < out.len() implies meets(#[trigger] out[i], q.filters) by {
        let d = out[i];
        assert(sorted[q.offset + i] == d);
        assert(sorted.contains(d));
        if let Some(f) = q.order_field {
            lemma_ordered_contains(found, encode_utf8(f), q.order_dir, d);
        }
        assert(found.contains(d));
        lemma_filter_contains(docs, p, d);
    }
    if let Some(f) = q.order_field {
        let fb = encode_utf8(f);
        law_sorting_sorts(found, fb, q.order_dir);
        assert forall|i: int, j: int| 0 <= i < j < out.len() implies !key_before(
            sort_key(#[trigger] out[j], fb),
            sort_key(#[trigger] out[i], fb),
            q.order_dir,
        ) by {
            assert(out[i] == sorted[q.offset + i]);
            assert(out[j] == sorted[q.offset + j]);
        }
    }
}

/// What comes first of a list of values comes first of its encoding.
pub proof fn lemma_composite_add(a: Seq<Json>, b: Seq<Json>)
    requires
        a.len() > 0,
        b.len() > 0,
    ensures
        composite_value(a + b) == composite_value(a) + seq![0u8] + composite_value(b),
    decreases b.len(),
{
    assert((a + b).last() == b.last());
    assert((a + b).drop_last() =~= a + b.drop_last());
    if b.len() == 1 {
        assert(a + b.drop_last() =~= a);
    } else {
        lemma_composite_add(a, b.drop_last());
        assert(composite_value(a) + seq![0u8] + composite_value(b.drop_last()) + seq![0u8]
            + index_value(b.last()) =~= composite_value(a) + seq![0u8] + (composite_value(
            b.drop_last(),
        ) + seq![0u8] + index_value(b.last())));
    }
}

/// Equal values that are no arrays or objects have the same index value.
pub proof fn law_equal_values_sort_alike(a: Json, b: Json)
    requires
        json_equal(a, b),
        is_scalar(b),
    ensures
        index_value(a) == index_value(b),
{
    match (a, b) {
        (Json::Number(x), Json::Number(y)) => {
            assert(number_value(x) == number_value(y)) by {
                match (x, y) {
                    (
                        NumberView::Float { bits: p, text: _ },
                        NumberView::Float { bits: q, text: _ },
                    ) => {
                        if p != q {
                            let z = pow2(0);
                            assert(parts(x).1 == 0);
                            assert(parts(y).1 == 0);
                            assert(0 * z == 0);
                        }
                    },
                    _ => {},
                }
            }
            law_numbers_sort_by_value(x, y);
        },
        _ => {},
    }
}

/// Equalities with the fields of an index are with values that are no arrays and
/// no objects.
spec fn pinned(filters: Seq<FilterView>, paths: Seq<Seq<char>>) -> bool {
    forall|j: int|
        0 <= j < paths.len() && first_on(filters, #[trigger] paths[j]) is Some && first_on(
            filters,
            paths[j],
        )->0 is Eq ==> is_scalar(first_on(filters, paths[j])->0->Eq_1)
}

/// The first condition on a field is one of all.
proof fn lemma_first_on(filters: Seq<FilterView>, field: Seq<char>)
    ensures
        first_on(filters, field) is Some ==> exists|i: int|
            0 <= i < filters.len() && #[trigger] filters[i] == first_on(filters, field)->0
                && filters[i].field() == field,
    decreases filters.len(),
{
    if filters.len() > 0 && filters.first().field() != field {
        let t = filters.drop_first();
        lemma_first_on(t, field);
        if first_on(t, field) is Some {
            let i = choose|i: int|
                0 <= i < t.len() && #[trigger] t[i] == first_on(t, field)->0 && t[i].field()
                    == field;
            assert(filters[i + 1] == t[i]);
        }
    } else if filters.len() > 0 {
        assert(filters[0] == first_on(filters, field)->0);
    }
}

/// A document that meets all conditions meets the first one on a field.
proof fn lemma_meets_first(doc: Json, filters: Seq<FilterView>, field: Seq<char>)
    requires
        meets(doc, filters),
        first_on(filters, field) is Some,
    ensures
        first_on(filters, field)->0.matches(doc),
        first_on(filters, field)->0.field() == field,
{
    lemma_first_on(filters, field);
    let i = choose|i: int|
        0 <= i < filters.len() && #[trigger] filters[i] == first_on(filters, field)->0
            && filters[i].field() == field;
    assert(filters[i].matches(doc));
}

/// The values at an index's paths, one by one.
pub proof fn lemma_fields_at(doc: Json, paths: Seq<Seq<u8>>, i: int)
    requires
        fields_at(doc, paths) is Some,
        0 <= i < paths.len(),
    ensures
        fields_at(doc, paths)->0.len() == paths.len(),
        field_at(doc, paths[i]) == Some(fields_at(doc, paths)->0[i]),
    decreases paths.len(),
{
    let t = paths.drop_last();
    if t.len() > 0 {
        if i < t.len() {
            lemma_fields_at(doc, t, i);
        } else {
            lemma_fields_at(doc, t, 0);
        }
    } else {
        assert(fields_at(doc, t)->0 =~= Seq::<Json>::empty());
    }
}

/// The fixed values of a query are those of a document that meets it.
proof fn lemma_fixed_values(
    doc: Json,
    filters: Seq<FilterView>,
    paths: Seq<Seq<char>>,
    vals: Seq<Json>,
    i: int,
)
    requires
        meets(doc, filters),
        pinned(filters, paths),
        vals.len() == paths.len(),
        forall|j: int|
            0 <= j < paths.len() ==> field_at(doc, encode_utf8(#[trigger] paths[j])) == Some(
                vals[j],
            ),
        0 <= i < fixed_values(filters, paths).len(),
    ensures
        fixed_values(filters, paths).len() <= paths.len(),
        index_value(fixed_values(filters, paths)[i]) == index_value(vals[i]),
    decreases paths.len(),
{
    let f = first_on(filters, paths.first());
    lemma_meets_first(doc, filters, paths.first());
    let t = paths.drop_first();
    let u = vals.drop_first();
    lemma_fixed_len(filters, t);
    assert(field_at(doc, encode_utf8(paths[0])) == Some(vals[0]));
    if i == 0 {
        assert(is_scalar(first_on(filters, paths[0])->0->Eq_1));
        law_equal_values_sort_alike(vals[0], f->0->Eq_1);
    } else {
        assert(pinned(filters, t)) by {
            assert forall|j: int|
                0 <= j < t.len() && first_on(filters, #[trigger] t[j]) is Some && first_on(
                    filters,
                    t[j],
                )->0 is Eq implies is_scalar(first_on(filters, t[j])->0->Eq_1) by {
                assert(t[j] == paths[j + 1]);
            }
        }
        assert forall|j: int| 0 <= j < t.len() implies field_at(doc, encode_utf8(#[trigger] t[j]))
            == Some(u[j]) by {
            assert(t[j] == paths[j + 1]);
        }
        lemma_fixed_values(doc, filters, t, u, i - 1);
    }
}

proof fn lemma_fixed_len(filters: Seq<FilterView>, paths: Seq<Seq<char>>)
    ensures
        fixed_values(filters, paths).len() <= paths.len(),
    decreases paths.len(),
{
    if paths.len() > 0 {
        lemma_fixed_len(filters, paths.drop_first());
    }
}

/// A list of values and what follows its first part.
proof fn lemma_split_values(vals: Seq<Json>, m: int) -> (rest: Seq<u8>)
    requires
        0 <= m < vals.len(),
    ensures
        composite_value(vals) + seq![0u8] == fixed_start(vals.take(m)) + (index_value(vals[m])
            + rest),
        rest.len() > 0,
        rest[0] == 0,
{
    let a = vals.take(m);
    let b = vals.skip(m);
    let c = vals.skip(m + 1);
    let one = seq![vals[m]];
    assert(vals =~= a + b);
    assert(b =~= one + c);
    assert(one.drop_last() =~= Seq::<Json>::empty());
    assert(composite_value(one) == index_value(vals[m]));
    let rest = if c.len() == 0 {
        seq![0u8]
    } else {
        seq![0u8] + composite_value(c) + seq![0u8]
    };
    if c.len() == 0 {
        assert(b =~= one);
    } else {
        lemma_composite_add(one, c);
    }
    assert(composite_value(b) + seq![0u8] =~= index_value(vals[m]) + rest);
    if a.len() > 0 {
        lemma_composite_add(a, b);
        assert(composite_value(vals) + seq![0u8] =~= composite_value(a) + seq![0u8] + (
        composite_value(b) + seq![0u8]));
        assert(fixed_start(a) =~= composite_value(a) + seq![0u8]);
        assert(composite_value(a) + seq![0u8] + (index_value(vals[m]) + rest) =~= fixed_start(a) + (
        index_value(vals[m]) + rest));
    } else {
        assert(vals =~= b);
        assert(fixed_start(a) + (index_value(vals[m]) + rest) =~= index_value(vals[m]) + rest);
    }
    rest
}

/// The fixed values of a query encode like those of a document that meets it.
proof fn lemma_fixed_composite(
    doc: Json,
    filters: Seq<FilterView>,
    paths: Seq<Seq<char>>,
    vals: Seq<Json>,
)
    requires
        meets(doc, filters),
        pinned(filters, paths),
        vals.len() == paths.len(),
        forall|j: int|
            0 <= j < paths.len() ==> field_at(doc, encode_utf8(#[trigger] paths[j])) == Some(
                vals[j],
            ),
    ensures
        fixed_values(filters, paths).len() <= vals.len(),
        composite_value(fixed_values(filters, paths)) == composite_value(
            vals.take(fixed_values(filters, paths).len() as int),
        ),
        fixed_start(fixed_values(filters, paths)) == fixed_start(
            vals.take(fixed_values(filters, paths).len() as int),
        ),
{
    let fixed = fixed_values(filters, paths);
    lemma_fixed_len(filters, paths);
    let first = vals.take(fixed.len() as int);
    assert forall|i: int| 0 <= i < fixed.len() implies index_value(#[trigger] fixed[i])
        == index_value(first[i]) by {
        lemma_fixed_values(doc, filters, paths, vals, i);
    }
    law_composite_values_are_exact(fixed, first);
}

/// The entry of a document that meets a query is in the part of the index that
/// the query looks at.
#[verifier::rlimit(40)]
proof fn lemma_entry_is_looked_at(
    doc: Json,
    filters: Seq<FilterView>,
    store: Seq<u8>,
    d: IndexDefView,
    vals: Seq<Json>,
    pk: Seq<u8>,
)
    requires
        meets(doc, filters),
        pinned(filters, d.key_paths),
        vals.len() == d.key_paths.len(),
        vals.len() > 0,
        forall|j: int|
            0 <= j < d.key_paths.len() ==> field_at(
                doc,
                encode_utf8(#[trigger] d.key_paths[j]),
            ) == Some(vals[j]),
    ensures
        index_part(filters, store, d).admits(
            idx_key_of(store, encode_utf8(d.name), composite_value(vals), pk),
            0,
        ),
{
    let ib = encode_utf8(d.name);
    let p = idx_prefix_of(store, ib);
    let key = idx_key_of(store, ib, composite_value(vals), pk);
    let fixed = fixed_values(filters, d.key_paths);
    let m = fixed.len() as int;
    lemma_fixed_composite(doc, filters, d.key_paths, vals);
    let next = if m < d.key_paths.len() {
        first_on(filters, d.key_paths[m])
    } else {
        None
    };
    match next {
        Some(FilterView::Range(f, start, end)) => {
            lemma_meets_first(doc, filters, d.key_paths[m]);
            let rest = lemma_split_values(vals, m);
            let fs = fixed_start(fixed);
            let iv = index_value(vals[m]);
            let tail = rest + pk;
            assert(field_at(doc, encode_utf8(d.key_paths[m])) == Some(vals[m]));
            law_index_values_are_zero_free(vals[m]);
            law_index_values_are_zero_free(start);
            law_index_values_are_zero_free(end);
            lemma_against_entry(index_value(start), iv, tail);
            lemma_against_entry(index_value(end), iv, tail);
            let base = p + fs;
            let lo = p + (fs + index_value(start));
            let hi = p + (fs + index_value(end));
            assert(key =~= p + (composite_value(vals) + seq![0u8]) + pk);
            assert(key =~= base + (iv + tail));
            assert(lo =~= base + index_value(start));
            assert(hi =~= base + index_value(end));
            lemma_lex_add(base, index_value(start), iv + tail);
            lemma_equal_after(base, index_value(start), iv + tail);
            lemma_lex_add(base, iv + tail, index_value(end));
            lemma_lex_not_le(index_value(end), iv + tail);
            lemma_lex_not_le(index_value(end), iv);
            assert(lo[0] == 73);
            let range = index_part(filters, store, d);
            assert(range == entry_range(store, ib, fs + index_value(start), fs + index_value(end)));
            lemma_admits_between(range, key);
        },
        _ => {
            let q = p + composite_value(fixed);
            law_prefix_scan_is_exact(q, key, 0);
            let first = vals.take(m);
            let last = vals.skip(m);
            assert(vals =~= first + last);
            assert(has_prefix(key, q)) by {
                if m == 0 {
                    assert(key.subrange(0, q.len() as int) =~= q);
                } else if m == vals.len() {
                    assert(first =~= vals);
                    assert(key.subrange(0, q.len() as int) =~= q);
                } else {
                    lemma_composite_add(first, last);
                    assert(key.subrange(0, q.len() as int) =~= q);
                }
            }
        },
    }
}

/// Documents that can all be read are all given.
pub proof fn lemma_docs_in(records: Seq<RecordView>)
    requires
        forall|j: int| 0 <= j < records.len() ==> decoded_doc((#[trigger] records[j]).value) is Ok,
    ensures
        docs_in(records, None) is Ok,
        docs_in(records, None)->Ok_0.len() == records.len(),
        forall|j: int|
            0 <= j < records.len() ==> #[trigger] docs_in(records, None)->Ok_0[j] == decoded_doc(
                records[j].value,
            )->Ok_0,
    decreases records.len(),
{
    if records.len() > 0 {
        let t = records.drop_first();
        assert forall|j: int| 0 <= j < t.len() implies decoded_doc((#[trigger] t[j]).value) is Ok by {
            assert(t[j] == records[j + 1]);
        }
        lemma_docs_in(t);
        assert(decoded_doc(records[0].value) is Ok);
        let all = docs_in(records, None)->Ok_0;
        let rest = docs_in(t, None)->Ok_0;
        assert(all == seq![decoded_doc(records[0].value)->Ok_0] + rest);
        assert forall|j: int| 0 <= j < records.len() implies #[trigger] all[j] == decoded_doc(
            records[j].value,
        )->Ok_0 by {
            if j > 0 {
                assert(all[j] == rest[j - 1]);
                assert(t[j - 1] == records[j]);
            }
        }
    }
}

/// The document that an entry leads to is given.
proof fn lemma_entry_leads_to(
    v: EngineView,
    records: Seq<RecordView>,
    store: Seq<u8>,
    j: int,
    doc: Json,
)
    requires
        forall|pk: Seq<u8>|
            (#[trigger] v.point(doc_key_of(store, pk), 0)) is Some ==> stored_doc(v, store, pk) is Some,
        0 <= j < records.len(),
        stored_doc(v, store, records[j].value) == Some(doc),
    ensures
        docs_of_entries(v, records, store) is Ok,
        docs_of_entries(v, records, store)->Ok_0.contains(doc),
    decreases records.len(),
{
    let t = records.drop_first();
    let first = records.first().value;
    if v.point(doc_key_of(store, first), 0) is Some {
        assert(stored_doc(v, store, first) is Some);
    }
    if j == 0 {
        lemma_entries_can_be_read(v, t, store);
        let all = docs_of_entries(v, records, store)->Ok_0;
        assert(all[0] == doc);
    } else {
        assert(t[j - 1] == records[j]);
        lemma_entry_leads_to(v, t, store, j - 1, doc);
        let rest = docs_of_entries(v, t, store)->Ok_0;
        let all = docs_of_entries(v, records, store)->Ok_0;
        let k = choose|k: int| 0 <= k < rest.len() && rest[k] == doc;
        if v.point(doc_key_of(store, first), 0) is Some {
            assert(all[k + 1] == doc);
        } else {
            assert(all[k] == doc);
        }
    }
}

proof fn lemma_entries_can_be_read(v: EngineView, records: Seq<RecordView>, store: Seq<u8>)
    requires
        forall|pk: Seq<u8>|
            (#[trigger] v.point(doc_key_of(store, pk), 0)) is Some ==> stored_doc(v, store, pk) is Some,
    ensures
        docs_of_entries(v, records, store) is Ok,
    decreases records.len(),
{
    if records.len() > 0 {
        lemma_entries_can_be_read(v, records.drop_first(), store);
        let first = records.first().value;
        if v.point(doc_key_of(store, first), 0) is Some {
            assert(stored_doc(v, store, first) is Some);
        }
    }
}

/// An index that a query can use enters every document that meets it, under the
/// values of its fields.
proof fn lemma_usable_enters(doc: Json, filters: Seq<FilterView>, d: IndexDefView)
    requires
        meets(doc, filters),
        usable(filters, d),
    ensures
        fields_at(doc, paths_utf8(d)) is Some,
        fields_at(doc, paths_utf8(d))->0.len() == d.key_paths.len(),
        entered_under(doc, d) == seq![fields_at(doc, paths_utf8(d))->0],
        pinned(filters, d.key_paths),
{
    let paths = paths_utf8(d);
    let by_element = d.multi_entry && d.key_paths.len() == 1;
    assert forall|j: int| 0 <= j < paths.len() implies field_at(doc, #[trigger] paths[j]) is Some by {
        assert(pins(filters, d.key_paths[j], by_element));
        lemma_meets_first(doc, filters, d.key_paths[j]);
    }
    lemma_all_fields(doc, paths);
    let vals = fields_at(doc, paths)->0;
    lemma_fields_at(doc, paths, 0);
    assert(pins(filters, d.key_paths[0], by_element));
    lemma_meets_first(doc, filters, d.key_paths[0]);
    if by_element {
        let want = first_on(filters, d.key_paths[0])->0->Eq_1;
        assert(json_equal(vals[0], want));
        assert(!(vals[0] is Array));
    }
    assert forall|j: int|
        0 <= j < d.key_paths.len() && first_on(filters, #[trigger] d.key_paths[j]) is Some
            && first_on(filters, d.key_paths[j])->0 is Eq implies is_scalar(
        first_on(filters, d.key_paths[j])->0->Eq_1,
    ) by {
        assert(pins(filters, d.key_paths[j], by_element));
    }
}

/// Where every field is there, so are all.
pub proof fn lemma_all_fields(doc: Json, paths: Seq<Seq<u8>>)
    requires
        forall|j: int| 0 <= j < paths.len() ==> field_at(doc, #[trigger] paths[j]) is Some,
    ensures
        fields_at(doc, paths) is Some,
    decreases paths.len(),
{
    if paths.len() > 0 {
        let t = paths.drop_last();
        assert forall|j: int| 0 <= j < t.len() implies field_at(doc, #[trigger] t[j]) is Some by {
            assert(t[j] == paths[j]);
        }
        lemma_all_fields(doc, t);
        assert(field_at(doc, paths[paths.len() - 1]) is Some);
    }
}

pub proof fn lemma_best_index(filters: Seq<FilterView>, indexes: Seq<IndexDefView>, n: nat)
    ensures
        best_index(filters, indexes, n) is Some ==> 0 <= best_index(filters, indexes, n)->0 < n
            && n <= indexes.len() && usable(filters, indexes[best_index(filters, indexes, n)->0]),
    decreases n,
{
    if n > 0 && n <= indexes.len() {
        lemma_best_index(filters, indexes, (n - 1) as nat);
    }
}

/// A query finds every document that meets its conditions, whichever index it
/// uses.
pub proof fn law_query_finds_every_match(
    db: DbView,
    q: QueryView,
    pk: Seq<u8>,
    doc: Json,
)
    requires
        db.consistent(),
        db.engine.in_step(),
        db.store(q.store) is Some,
        zero_free(pk),
        stored_doc(db.engine, encode_utf8(q.store), pk) == Some(doc),
        meets(doc, q.filters),
    ensures
        db.candidates(q.store, q.filters) is Ok,
        db.candidates(q.store, q.filters)->Ok_0.contains(doc),
        q.limit is None && q.offset == 0 ==> db.queried(q)->Ok_0.contains(doc),
{
    let v = db.engine;
    let sb = encode_utf8(q.store);
    let def = db.store(q.store)->0;
    let at = lemma_store_at(db, q.store);
    lemma_store_names(db, q.store);
    assert(store_agrees(v, db.schema[at]));
    lemma_best_index(q.filters, def.indexes, def.indexes.len());
    match best_index(q.filters, def.indexes, def.indexes.len()) {
        None => {
            lemma_every_document_is_listed(db, q.store, pk, doc);
        },
        Some(k) => {
            let d = def.indexes[k];
            let ib = encode_utf8(d.name);
            let paths = paths_utf8(d);
            let vals = fields_at(doc, paths)->0;
            lemma_usable_enters(doc, q.filters, d);
            assert forall|j: int| 0 <= j < d.key_paths.len() implies field_at(
                doc,
                encode_utf8(#[trigger] d.key_paths[j]),
            ) == Some(vals[j]) by {
                lemma_fields_at(doc, paths, j);
            }
            lemma_entry_is_looked_at(doc, q.filters, sb, d, vals, pk);
            assert(entered_under(doc, d)[0] == vals);
            assert(entered_as(doc, d, composite_value(vals)));
            assert(index_agrees(v, sb, d));
            let key = idx_key_of(sb, ib, composite_value(vals), pk);
            let r = plain_record(key, pk);
            assert(v.point(key, 0) == Some(r));
            let range = index_part(q.filters, sb, d);
            assert(v.scan_agrees(range));
            let recs = db.records(range);
            assert(recs.contains(r));
            let j = choose|j: int| 0 <= j < recs.len() && recs[j] == r;
            lemma_entry_leads_to(v, recs, sb, j, doc);
        },
    }
    let docs = db.candidates(q.store, q.filters)->Ok_0;
    let p = |x: Json| meets(x, q.filters);
    lemma_filter_contains(docs, p, doc);
    let found = docs.filter(p);
    if q.limit is None && q.offset == 0 {
        let sorted = match q.order_field {
            Some(f) => {
                lemma_ordered_contains(found, encode_utf8(f), q.order_dir, doc);
                ordered(found, encode_utf8(f), q.order_dir)
            },
            None => found,
        };
        law_window_is_a_part(sorted, q.offset, q.limit);
    }
}

/// A listing of a store gives every document.
pub proof fn lemma_every_document_is_listed(db: DbView, store: Seq<char>, pk: Seq<u8>, doc: Json)
    requires
        db.consistent(),
        db.engine.in_step(),
        db.store(store) is Some,
        stored_doc(db.engine, encode_utf8(store), pk) == Some(doc),
    ensures
        docs_in(records_under(db.engine, doc_prefix_of(encode_utf8(store))), None) is Ok,
        docs_in(
            records_under(db.engine, doc_prefix_of(encode_utf8(store))),
            None,
        )->Ok_0.contains(doc),
{
    let v = db.engine;
    let sb = encode_utf8(store);
    let p = doc_prefix_of(sb);
    let recs = records_under(v, p);
    lemma_store_is_readable(db, store);
    lemma_docs_in(recs);
    let dk = doc_key_of(sb, pk);
    let r = v.point(dk, 0)->0;
    lemma_point_is_of_key(v, dk, 0);
    lemma_document_prefix(sb, pk);
    law_prefix_scan_is_exact(p, dk, 0);
    assert(v.scan_agrees(ScanRangeView::of_prefix(p)));
    assert(recs.contains(r));
    let j = choose|j: int| 0 <= j < recs.len() && recs[j] == r;
    let docs = docs_in(recs, None)->Ok_0;
    assert(docs[j] == doc);
}

/// Every record of a store is a document that can be read.
pub proof fn lemma_store_is_readable(db: DbView, store: Seq<char>)
    requires
        db.consistent(),
        db.engine.in_step(),
        db.store(store) is Some,
    ensures
        ({
            let sb = encode_utf8(store);
            let recs = records_under(db.engine, doc_prefix_of(sb));
            forall|j: int|
                0 <= j < recs.len() ==> decoded_doc((#[trigger] recs[j]).value) is Ok && recs[j].ts
                    == 0 && recs[j].key == doc_key_of(
                    sb,
                    recs[j].key.skip(doc_prefix_of(sb).len() as int),
                )
        }),
{
    let v = db.engine;
    let sb = encode_utf8(store);
    let p = doc_prefix_of(sb);
    let recs = records_under(v, p);
    let at = lemma_store_at(db, store);
    assert(store_agrees(v, db.schema[at]));
    assert(v.scan_agrees(ScanRangeView::of_prefix(p)));
    assert forall|j: int| 0 <= j < recs.len() implies decoded_doc((#[trigger] recs[j]).value) is Ok
        && recs[j].ts == 0 && recs[j].key == doc_key_of(sb, recs[j].key.skip(p.len() as int)) by {
        let r = recs[j];
        assert(recs.contains(r));
        law_prefix_scan_is_exact(p, r.key, r.ts);
        assert(v.point(r.key, r.ts) == Some(r));
        assert(r.key.subrange(0, p.len() as int)[0] == r.key[0]);
        assert(p[0] == 68);
        let own = r.key.skip(p.len() as int);
        assert(r.key =~= doc_key_of(sb, own));
        assert(is_content_key(r.key));
        assert(stored_doc(v, sb, own) is Some);
    }
}

/// Listing a store gives exactly its documents.
pub proof fn law_listing_gives_every_document(db: DbView, store: Seq<char>)
    requires
        db.consistent(),
        db.engine.in_step(),
        db.store(store) is Some,
    ensures
        db.listed(store, None, None) is Ok,
        forall|doc: Json| #[trigger]
            db.listed(store, None, None)->Ok_0.contains(doc) <==> exists|pk: Seq<u8>|
                #[trigger] stored_doc(db.engine, encode_utf8(store), pk) == Some(doc),
{
    let v = db.engine;
    let sb = encode_utf8(store);
    let p = doc_prefix_of(sb);
    let recs = records_under(v, p);
    lemma_store_is_readable(db, store);
    lemma_docs_in(recs);
    let docs = docs_in(recs, None)->Ok_0;
    assert(db.listed(store, None, None)->Ok_0 == docs);
    assert(v.scan_agrees(ScanRangeView::of_prefix(p)));
    assert forall|doc: Json| #[trigger] docs.contains(doc) <==> exists|pk: Seq<u8>|
        #[trigger] stored_doc(v, sb, pk) == Some(doc) by {
        if docs.contains(doc) {
            let j = choose|j: int| 0 <= j < docs.len() && docs[j] == doc;
            let own = recs[j].key.skip(p.len() as int);
            assert(recs.contains(recs[j]));
            assert(stored_doc(v, sb, own) == Some(doc));
        }
        if exists|pk: Seq<u8>| #[trigger] stored_doc(v, sb, pk) == Some(doc) {
            let pk = choose|pk: Seq<u8>| #[trigger] stored_doc(v, sb, pk) == Some(doc);
            lemma_every_document_is_listed(db, store, pk, doc);
        }
    }
}

} // verus!
