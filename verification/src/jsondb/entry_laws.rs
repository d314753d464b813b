//! Under which values an index holds a document, and which documents a lookup
//! by value or by a range of values gives.

use vstd::prelude::*;
use vstd::utf8::encode_utf8;

use crate::bytes::{
    has_prefix, lemma_lex_asymmetric, lemma_lex_not_le, lemma_lex_total, less_at, lex_le, lex_lt,
};
use crate::jsondb::consistency_laws::lemma_store_at;
use crate::jsondb::db::DbView;
use crate::jsondb::definition_laws::lemma_under_index;
use crate::jsondb::document_laws::{
    has_valid_names, lemma_index_position, lemma_same_bytes, lemma_store_names,
};
use crate::jsondb::documents::{docs_of_entries, entry_range, looked_up};
use crate::jsondb::encoding::{
    composite_value, fields_at, idx_key_of, idx_prefix_of, idx_value_prefix_of, index_value,
    is_name, lemma_name_zero_free, zero_free,
};
use crate::jsondb::encoding_laws::{
    law_composite_values_are_exact, law_index_values_are_zero_free, lemma_admits_between,
    lemma_equal_after, lemma_lex_add, lemma_zeros_add, lemma_zeros_composite, lemma_zeros_none,
    lemma_zeros_of_separator, zeros,
};
use crate::jsondb::helpers::{entered_under, paths_utf8, plain_record, stored_doc};
use crate::jsondb::index_laws::{entered, entry_key, index_agrees, name_of, store_agrees};
use crate::jsondb::lookup_laws::lemma_docs_of_entries;
use crate::jsondb::query_laws::{lemma_all_fields, lemma_composite_add, lemma_fields_at};
use crate::jsondb::schema::{index_position, IndexDefView};
use crate::jsondb::transaction::entered_as;
use crate::jsondb::value::{field_at, Json};
use crate::record::{law_prefix_scan_is_exact, RecordView, ScanRangeView};

verus! {

/// What a document has at the first field of an index.
pub open spec fn first_field(doc: Json, d: IndexDefView) -> Option<Json> {
    field_at(doc, encode_utf8(d.key_paths[0]))
}

/// The index takes the document apart: it enters it under each element of the
/// array in its one field.
pub open spec fn by_element(doc: Json, d: IndexDefView) -> bool {
    d.multi_entry && d.key_paths.len() == 1 && first_field(doc, d) is Some && first_field(
        doc,
        d,
    )->0 is Array
}

/// The document has these values where the index looks: one element of the array
/// in its one field where it takes arrays apart, else the value of each field.
pub open spec fn has_values(doc: Json, d: IndexDefView, vals: Seq<Json>) -> bool {
    if by_element(doc, d) {
        vals.len() == 1 && exists|j: int|
            0 <= j < first_field(doc, d)->0->Array_0.len() && #[trigger] first_field(
                doc,
                d,
            )->0->Array_0[j] == vals[0]
    } else {
        &&& vals.len() == d.key_paths.len()
        &&& forall|i: int|
            0 <= i < d.key_paths.len() ==> field_at(
                doc,
                encode_utf8(#[trigger] d.key_paths[i]),
            ) == Some(vals[i])
    }
}

/// An index enters a document under the values that the document has where the
/// index looks, under each of them and nothing else. Each element of an array
/// that it takes apart counts, in its place.
pub proof fn law_document_is_entered_under_its_values(doc: Json, d: IndexDefView)
    requires
        d.key_paths.len() > 0,
    ensures
        forall|vals: Seq<Json>| #[trigger]
            entered_under(doc, d).contains(vals) <==> has_values(doc, d, vals),
        by_element(doc, d) ==> entered_under(doc, d).len() == first_field(
            doc,
            d,
        )->0->Array_0.len() && forall|j: int|
            0 <= j < entered_under(doc, d).len() ==> #[trigger] entered_under(doc, d)[j]
                == seq![first_field(doc, d)->0->Array_0[j]],
        !by_element(doc, d) ==> entered_under(doc, d).len() <= 1,
{
    let paths = paths_utf8(d);
    let all = entered_under(doc, d);
    if forall|j: int| 0 <= j < paths.len() ==> field_at(doc, #[trigger] paths[j]) is Some {
        lemma_all_fields(doc, paths);
        let own = fields_at(doc, paths)->0;
        lemma_fields_at(doc, paths, 0);
        assert forall|i: int| 0 <= i < d.key_paths.len() implies field_at(
            doc,
            encode_utf8(#[trigger] d.key_paths[i]),
        ) == Some(own[i]) by {
            lemma_fields_at(doc, paths, i);
        }
        if by_element(doc, d) {
            let elems = first_field(doc, d)->0->Array_0;
            assert(own[0] == first_field(doc, d)->0) by {
                assert(field_at(doc, encode_utf8(d.key_paths[0])) == Some(own[0]));
            }
            assert forall|vals: Seq<Json>| #[trigger] all.contains(vals) <==> has_values(
                doc,
                d,
                vals,
            ) by {
                if all.contains(vals) {
                    let j = choose|j: int| 0 <= j < all.len() && all[j] == vals;
                    assert(elems[j] == vals[0]);
                }
                if has_values(doc, d, vals) {
                    let j = choose|j: int| 0 <= j < elems.len() && #[trigger] elems[j] == vals[0];
                    assert(vals =~= seq![elems[j]]);
                    assert(all[j] == vals);
                }
            }
        } else {
            assert(!(d.multi_entry && own.len() == 1 && own[0] is Array)) by {
                assert(field_at(doc, encode_utf8(d.key_paths[0])) == Some(own[0]));
            }
            assert(all == seq![own]);
            assert forall|vals: Seq<Json>| #[trigger] all.contains(vals) <==> has_values(
                doc,
                d,
                vals,
            ) by {
                if has_values(doc, d, vals) {
                    assert forall|i: int| 0 <= i < vals.len() implies vals[i] == own[i] by {
                        assert(field_at(doc, encode_utf8(d.key_paths[i])) == Some(vals[i]));
                    }
                    assert(vals =~= own);
                    assert(all[0] == vals);
                }
            }
        }
    } else {
        let i = choose|i: int|
            0 <= i < paths.len() && !((#[trigger] field_at(doc, paths[i])) is Some);
        assert(fields_at(doc, paths) is None) by {
            if fields_at(doc, paths) is Some {
                lemma_fields_at(doc, paths, i);
            }
        }
        assert(all =~= Seq::<Seq<Json>>::empty());
        assert(field_at(doc, encode_utf8(d.key_paths[i])) is None);
        assert forall|vals: Seq<Json>| !#[trigger] all.contains(vals) && !has_values(
            doc,
            d,
            vals,
        ) by {
            if has_values(doc, d, vals) && !by_element(doc, d) {
                assert(field_at(doc, encode_utf8(d.key_paths[i])) == Some(vals[i]));
            }
        }
    }
}

/// What stands in the part of a store for an index is an entry of a document.
pub proof fn lemma_index_record(db: DbView, store: Seq<char>, k: int, r: RecordView)
    requires
        db.consistent(),
        db.store(store) is Some,
        0 <= k < db.store(store)->0.indexes.len(),
        db.engine.point(r.key, r.ts) == Some(r),
        has_prefix(
            r.key,
            idx_prefix_of(encode_utf8(store), encode_utf8(db.store(store)->0.indexes[k].name)),
        ),
    ensures
        ({
            let sb = encode_utf8(store);
            let d = db.store(store)->0.indexes[k];
            exists|value: Seq<u8>, pk: Seq<u8>|
                zero_free(pk) && r == plain_record(
                    #[trigger] idx_key_of(sb, encode_utf8(d.name), value, pk),
                    pk,
                ) && entered(db.engine, sb, pk, d, value)
        }),
{
    let v = db.engine;
    let sb = encode_utf8(store);
    let def = db.store(store)->0;
    let d = def.indexes[k];
    let ib = encode_utf8(d.name);
    let ip = idx_prefix_of(sb, ib);
    lemma_store_names(db, store);
    let at = lemma_store_at(db, store);
    assert(is_name(ib));
    lemma_name_zero_free(ib);
    assert(r.key.subrange(0, ip.len() as int)[0] == r.key[0]);
    assert(ip[0] == 73);
    let (i, q, value, pk) = choose|i: int, q: int, value: Seq<u8>, pk: Seq<u8>|
        0 <= i < db.schema.len() && 0 <= q < db.schema[i].indexes.len() && zero_free(pk) && r.key
            == #[trigger] entry_key(db.schema[i], name_of(db.schema[i]), q, value, pk);
    let d2 = db.schema[i];
    let qn = encode_utf8(d2.indexes[q].name);
    assert(has_valid_names(d2));
    assert(is_name(qn));
    lemma_name_zero_free(qn);
    lemma_name_zero_free(name_of(d2));
    lemma_under_index(def, sb, k, name_of(d2), qn, value, pk);
    lemma_same_bytes(d2.name, store);
    assert(index_agrees(v, sb, d)) by {
        assert(store_agrees(v, db.schema[at]));
    }
    assert(v.point(idx_key_of(sb, ib, value, pk), 0) is Some);
    assert(r == plain_record(idx_key_of(sb, ib, value, pk), pk));
}

/// The range lies in the part of a store for an index.
pub open spec fn within_index(range: ScanRangeView, store: Seq<u8>, index: Seq<u8>) -> bool {
    forall|key: Seq<u8>, ts: i64| #[trigger]
        range.admits(key, ts) ==> has_prefix(key, idx_prefix_of(store, index))
}

/// What a scan of a part of an index gives: the entries there, and no others.
pub proof fn lemma_index_scan(db: DbView, store: Seq<char>, k: int, range: ScanRangeView, r: RecordView)
    requires
        db.consistent(),
        db.engine.in_step(),
        db.store(store) is Some,
        0 <= k < db.store(store)->0.indexes.len(),
        within_index(
            range,
            encode_utf8(store),
            encode_utf8(db.store(store)->0.indexes[k].name),
        ),
    ensures
        ({
            let sb = encode_utf8(store);
            let d = db.store(store)->0.indexes[k];
            let ib = encode_utf8(d.name);
            db.records(range).contains(r) <==> exists|value: Seq<u8>, pk: Seq<u8>|
                zero_free(pk) && r == plain_record(#[trigger] idx_key_of(sb, ib, value, pk), pk)
                    && entered(db.engine, sb, pk, d, value) && range.admits(
                    idx_key_of(sb, ib, value, pk),
                    0,
                )
        }),
{
    let v = db.engine;
    let sb = encode_utf8(store);
    let def = db.store(store)->0;
    let d = def.indexes[k];
    let ib = encode_utf8(d.name);
    let at = lemma_store_at(db, store);
    assert(store_agrees(v, db.schema[at]));
    assert(index_agrees(v, sb, d));
    assert(v.scan_agrees(range));
    if db.records(range).contains(r) {
        assert(range.admits(r.key, r.ts));
        lemma_index_record(db, store, k, r);
        let (value, pk) = choose|value: Seq<u8>, pk: Seq<u8>|
            zero_free(pk) && r == plain_record(#[trigger] idx_key_of(sb, ib, value, pk), pk)
                && entered(v, sb, pk, d, value);
        assert(range.admits(idx_key_of(sb, ib, value, pk), 0));
    }
    if exists|value: Seq<u8>, pk: Seq<u8>|
        zero_free(pk) && r == plain_record(#[trigger] idx_key_of(sb, ib, value, pk), pk)
            && entered(v, sb, pk, d, value) && range.admits(idx_key_of(sb, ib, value, pk), 0) {
        let (value, pk) = choose|value: Seq<u8>, pk: Seq<u8>|
            zero_free(pk) && r == plain_record(#[trigger] idx_key_of(sb, ib, value, pk), pk)
                && entered(v, sb, pk, d, value) && range.admits(idx_key_of(sb, ib, value, pk), 0);
        assert(v.point(idx_key_of(sb, ib, value, pk), 0) == Some(r));
    }
}

/// The document under `pk` has an entry in the range.
pub open spec fn entered_within(
    doc: Json,
    d: IndexDefView,
    store: Seq<u8>,
    pk: Seq<u8>,
    range: ScanRangeView,
) -> bool {
    exists|vals: Seq<Json>| #[trigger]
        has_values(doc, d, vals) && range.admits(
            idx_key_of(store, encode_utf8(d.name), composite_value(vals), pk),
            0,
        )
}

/// A document is entered under the encodings of the values that it has.
pub proof fn lemma_entered_as(doc: Json, d: IndexDefView, value: Seq<u8>)
    requires
        d.key_paths.len() > 0,
    ensures
        entered_as(doc, d, value) <==> exists|vals: Seq<Json>| #[trigger]
            has_values(doc, d, vals) && composite_value(vals) == value,
{
    law_document_is_entered_under_its_values(doc, d);
    let all = entered_under(doc, d);
    if entered_as(doc, d, value) {
        let i = choose|i: int|
            0 <= i < all.len() && composite_value(#[trigger] all[i]) == value;
        assert(all.contains(all[i]));
        assert(has_values(doc, d, all[i]));
    }
    if exists|vals: Seq<Json>| #[trigger]
        has_values(doc, d, vals) && composite_value(vals) == value {
        let vals = choose|vals: Seq<Json>| #[trigger]
            has_values(doc, d, vals) && composite_value(vals) == value;
        assert(all.contains(vals));
        let i = choose|i: int| 0 <= i < all.len() && all[i] == vals;
        assert(composite_value(all[i]) == value);
    }
}

/// The documents that the entries in a part of an index lead to.
pub proof fn lemma_docs_within(db: DbView, store: Seq<char>, k: int, range: ScanRangeView)
    requires
        db.consistent(),
        db.engine.in_step(),
        db.store(store) is Some,
        0 <= k < db.store(store)->0.indexes.len(),
        db.store(store)->0.indexes[k].key_paths.len() > 0,
        within_index(
            range,
            encode_utf8(store),
            encode_utf8(db.store(store)->0.indexes[k].name),
        ),
    ensures
        ({
            let sb = encode_utf8(store);
            let d = db.store(store)->0.indexes[k];
            let found = docs_of_entries(db.engine, db.records(range), sb);
            &&& found is Ok
            &&& found->Ok_0.len() == db.records(range).len()
            &&& forall|j: int|
                0 <= j < db.records(range).len() ==> (#[trigger] stored_doc(
                    db.engine,
                    sb,
                    db.records(range)[j].value,
                )) == Some(found->Ok_0[j])
            &&& forall|doc: Json| #[trigger]
                found->Ok_0.contains(doc) <==> exists|pk: Seq<u8>|
                    zero_free(pk) && #[trigger] stored_doc(db.engine, sb, pk) == Some(doc)
                        && entered_within(doc, d, sb, pk, range)
        }),
{
    let v = db.engine;
    let sb = encode_utf8(store);
    let d = db.store(store)->0.indexes[k];
    let ib = encode_utf8(d.name);
    let recs = db.records(range);
    assert forall|j: int| 0 <= j < recs.len() implies (#[trigger] stored_doc(
        v,
        sb,
        recs[j].value,
    )) is Some by {
        assert(recs.contains(recs[j]));
        lemma_index_scan(db, store, k, range, recs[j]);
    }
    lemma_docs_of_entries(v, recs, sb);
    let docs = docs_of_entries(v, recs, sb)->Ok_0;
    assert forall|doc: Json| #[trigger] docs.contains(doc) <==> exists|pk: Seq<u8>|
        zero_free(pk) && #[trigger] stored_doc(v, sb, pk) == Some(doc) && entered_within(
            doc,
            d,
            sb,
            pk,
            range,
        ) by {
        if docs.contains(doc) {
            let j = choose|j: int| 0 <= j < docs.len() && docs[j] == doc;
            assert(recs.contains(recs[j]));
            lemma_index_scan(db, store, k, range, recs[j]);
            let (value, pk) = choose|value: Seq<u8>, pk: Seq<u8>|
                zero_free(pk) && recs[j] == plain_record(
                    #[trigger] idx_key_of(sb, ib, value, pk),
                    pk,
                ) && entered(v, sb, pk, d, value) && range.admits(
                    idx_key_of(sb, ib, value, pk),
                    0,
                );
            assert(stored_doc(v, sb, recs[j].value) == Some(doc));
            lemma_entered_as(doc, d, value);
            let vals = choose|vals: Seq<Json>| #[trigger]
                has_values(doc, d, vals) && composite_value(vals) == value;
            assert(entered_within(doc, d, sb, pk, range));
        }
        if exists|pk: Seq<u8>|
            zero_free(pk) && #[trigger] stored_doc(v, sb, pk) == Some(doc) && entered_within(
                doc,
                d,
                sb,
                pk,
                range,
            ) {
            let pk = choose|pk: Seq<u8>|
                zero_free(pk) && #[trigger] stored_doc(v, sb, pk) == Some(doc) && entered_within(
                    doc,
                    d,
                    sb,
                    pk,
                    range,
                );
            let vals = choose|vals: Seq<Json>| #[trigger]
                has_values(doc, d, vals) && range.admits(
                    idx_key_of(sb, ib, composite_value(vals), pk),
                    0,
                );
            let value = composite_value(vals);
            lemma_entered_as(doc, d, value);
            let r = plain_record(idx_key_of(sb, ib, value, pk), pk);
            lemma_index_scan(db, store, k, range, r);
            assert(recs.contains(r));
            let j = choose|j: int| 0 <= j < recs.len() && recs[j] == r;
            assert(stored_doc(v, sb, recs[j].value) == Some(docs[j]));
            assert(docs[j] == doc);
        }
    }
}

/// Two beginnings of one string that end in their last of equally many zero bytes
/// are the same.
proof fn lemma_same_beginning(s: Seq<u8>, a: Seq<u8>, b: Seq<u8>)
    requires
        has_prefix(s, a),
        has_prefix(s, b),
        a.len() <= b.len(),
        b.len() > 0,
        b.last() == 0,
        zeros(a) == zeros(b),
    ensures
        a == b,
{
    let c = b.skip(a.len() as int);
    assert(b =~= a + c) by {
        assert(s.subrange(0, b.len() as int).subrange(0, a.len() as int) =~= s.subrange(
            0,
            a.len() as int,
        ));
        assert forall|i: int| 0 <= i < a.len() implies a[i] == b[i] by {
            assert(s.subrange(0, a.len() as int)[i] == s[i]);
            assert(s.subrange(0, b.len() as int)[i] == s[i]);
        }
    }
    lemma_zeros_add(a, c);
    if c.len() > 0 {
        assert(c.last() == 0);
        lemma_zeros_none(c);
    } else {
        assert(a =~= b);
    }
}

/// An entry begins with the encodings of some values exactly where its first
/// values have these encodings.
pub proof fn lemma_begins_with_values(vals: Seq<Json>, pk: Seq<u8>, want: Seq<Json>)
    requires
        0 < want.len() <= vals.len(),
        zero_free(pk),
    ensures
        has_prefix(composite_value(vals) + seq![0u8] + pk, composite_value(want) + seq![0u8])
            <==> forall|i: int|
            0 <= i < want.len() ==> index_value(#[trigger] want[i]) == index_value(vals[i]),
{
    let m = want.len() as int;
    let first = vals.take(m);
    let last = vals.skip(m);
    let s = composite_value(vals) + seq![0u8] + pk;
    let a = composite_value(want) + seq![0u8];
    let b = composite_value(first) + seq![0u8];
    assert(vals =~= first + last);
    assert(has_prefix(s, b)) by {
        if last.len() == 0 {
            assert(first =~= vals);
            assert(s.subrange(0, b.len() as int) =~= b);
        } else {
            lemma_composite_add(first, last);
            assert(s.subrange(0, b.len() as int) =~= b);
        }
    }
    law_composite_values_are_exact(want, first);
    lemma_zeros_composite(want);
    lemma_zeros_composite(first);
    lemma_zeros_of_separator();
    lemma_zeros_add(composite_value(want), seq![0u8]);
    lemma_zeros_add(composite_value(first), seq![0u8]);
    assert(a.last() == 0 && b.last() == 0);
    if has_prefix(s, a) {
        if a.len() <= b.len() {
            lemma_same_beginning(s, a, b);
        } else {
            lemma_same_beginning(s, b, a);
        }
        assert(composite_value(want) =~= a.drop_last());
        assert(composite_value(first) =~= b.drop_last());
        assert forall|i: int| 0 <= i < want.len() implies index_value(#[trigger] want[i])
            == index_value(vals[i]) by {
            assert(first[i] == vals[i]);
        }
    }
    if forall|i: int|
        0 <= i < want.len() ==> index_value(#[trigger] want[i]) == index_value(vals[i]) {
        assert forall|i: int| 0 <= i < want.len() implies index_value(#[trigger] want[i])
            == index_value(first[i]) by {
            assert(first[i] == vals[i]);
        }
        assert(a == b);
    }
}

/// The values that a lookup asks for: in an index over several fields those of
/// an array, one for each of the first fields, else the one value.
pub open spec fn asked_for(d: IndexDefView, value: Json) -> Seq<Json> {
    if d.key_paths.len() > 1 && value is Array {
        value->Array_0
    } else {
        seq![value]
    }
}

/// The document has the values, in the order of index values, in the first
/// fields of an index.
pub open spec fn begins_with(doc: Json, d: IndexDefView, want: Seq<Json>) -> bool {
    exists|vals: Seq<Json>| #[trigger]
        has_values(doc, d, vals) && want.len() <= vals.len() && forall|i: int|
            0 <= i < want.len() ==> index_value(#[trigger] want[i]) == index_value(vals[i])
}

/// The entries with an encoded value lie in the part for the index.
pub proof fn lemma_value_prefix_within(store: Seq<u8>, index: Seq<u8>, value: Seq<u8>)
    ensures
        within_index(
            ScanRangeView::of_prefix(idx_value_prefix_of(store, index, value)),
            store,
            index,
        ),
{
    let ip = idx_prefix_of(store, index);
    let p = idx_value_prefix_of(store, index, value);
    let range = ScanRangeView::of_prefix(p);
    assert forall|key: Seq<u8>, ts: i64| #[trigger] range.admits(key, ts) implies has_prefix(
        key,
        ip,
    ) by {
        law_prefix_scan_is_exact(p, key, ts);
        assert(p.subrange(0, ip.len() as int) =~= ip);
        assert(key.subrange(0, ip.len() as int) =~= key.subrange(0, p.len() as int).subrange(
            0,
            ip.len() as int,
        ));
    }
}

/// A document has an entry that begins with some values exactly where it has
/// these values in the first fields.
pub proof fn lemma_within_begins(
    doc: Json,
    d: IndexDefView,
    store: Seq<u8>,
    pk: Seq<u8>,
    want: Seq<Json>,
)
    requires
        zero_free(pk),
        0 < want.len() <= d.key_paths.len(),
    ensures
        entered_within(
            doc,
            d,
            store,
            pk,
            ScanRangeView::of_prefix(
                idx_value_prefix_of(store, encode_utf8(d.name), composite_value(want)),
            ),
        ) == begins_with(doc, d, want),
{
    let ib = encode_utf8(d.name);
    let ip = idx_prefix_of(store, ib);
    let p = idx_value_prefix_of(store, ib, composite_value(want));
    let range = ScanRangeView::of_prefix(p);
    assert forall|vals: Seq<Json>| #[trigger] has_values(doc, d, vals) implies (range.admits(
        idx_key_of(store, ib, composite_value(vals), pk),
        0,
    ) <==> forall|i: int|
        0 <= i < want.len() ==> index_value(#[trigger] want[i]) == index_value(vals[i])) by {
        let key = idx_key_of(store, ib, composite_value(vals), pk);
        let tail = composite_value(vals) + seq![0u8] + pk;
        law_prefix_scan_is_exact(p, key, 0);
        lemma_begins_with_values(vals, pk, want);
        assert(key =~= ip + tail);
        assert(p =~= ip + (composite_value(want) + seq![0u8]));
        lemma_prefix_after(ip, tail, composite_value(want) + seq![0u8]);
    }
    if entered_within(doc, d, store, pk, range) {
        let vals = choose|vals: Seq<Json>| #[trigger]
            has_values(doc, d, vals) && range.admits(
                idx_key_of(store, ib, composite_value(vals), pk),
                0,
            );
        assert(has_values(doc, d, vals));
    }
    if begins_with(doc, d, want) {
        let vals = choose|vals: Seq<Json>| #[trigger]
            has_values(doc, d, vals) && want.len() <= vals.len() && forall|i: int|
                0 <= i < want.len() ==> index_value(#[trigger] want[i]) == index_value(vals[i]);
        assert(has_values(doc, d, vals));
    }
}

/// A lookup gives a document exactly where the document has the values that are
/// asked for: the value itself, one of its elements in a multi-entry index, or
/// those of the first fields of an index over several.
pub proof fn law_lookup_gives_the_documents_with_the_value(
    db: DbView,
    store: Seq<char>,
    index: Seq<char>,
    value: Json,
)
    requires
        db.consistent(),
        db.engine.in_step(),
        db.index(store, index) is Ok,
        0 < asked_for(db.index(store, index)->Ok_0, value).len() <= db.index(
            store,
            index,
        )->Ok_0.key_paths.len(),
    ensures
        db.indexed(store, index, value) is Ok,
        forall|doc: Json| #[trigger]
            db.indexed(store, index, value)->Ok_0.contains(doc) <==> exists|pk: Seq<u8>|
                zero_free(pk) && #[trigger] stored_doc(db.engine, encode_utf8(store), pk) == Some(
                    doc,
                ) && begins_with(
                    doc,
                    db.index(store, index)->Ok_0,
                    asked_for(db.index(store, index)->Ok_0, value),
                ),
{
    let sb = encode_utf8(store);
    let ib = encode_utf8(index);
    let def = db.store(store)->0;
    let d = db.index(store, index)->Ok_0;
    let k = index_position(def.indexes, index);
    lemma_index_position(def.indexes, index);
    let want = asked_for(d, value);
    lemma_looked_up(d, value);
    let range = ScanRangeView::of_prefix(idx_value_prefix_of(sb, ib, composite_value(want)));
    lemma_value_prefix_within(sb, ib, composite_value(want));
    lemma_docs_within(db, store, k, range);
    let docs = db.indexed(store, index, value)->Ok_0;
    assert forall|doc: Json| #[trigger] docs.contains(doc) <==> exists|pk: Seq<u8>|
        zero_free(pk) && #[trigger] stored_doc(db.engine, sb, pk) == Some(doc) && begins_with(
            doc,
            d,
            want,
        ) by {
        if docs.contains(doc) {
            let pk = choose|pk: Seq<u8>|
                zero_free(pk) && #[trigger] stored_doc(db.engine, sb, pk) == Some(doc)
                    && entered_within(doc, d, sb, pk, range);
            lemma_within_begins(doc, d, sb, pk, want);
        }
        if exists|pk: Seq<u8>|
            zero_free(pk) && #[trigger] stored_doc(db.engine, sb, pk) == Some(doc) && begins_with(
                doc,
                d,
                want,
            ) {
            let pk = choose|pk: Seq<u8>|
                zero_free(pk) && #[trigger] stored_doc(db.engine, sb, pk) == Some(doc)
                    && begins_with(doc, d, want);
            lemma_within_begins(doc, d, sb, pk, want);
        }
    }
}

/// A common beginning does not matter for what follows it.
pub proof fn lemma_prefix_after(p: Seq<u8>, s: Seq<u8>, q: Seq<u8>)
    ensures
        has_prefix(p + s, p + q) <==> has_prefix(s, q),
{
    if q.len() <= s.len() {
        let a = (p + s).subrange(0, (p + q).len() as int);
        let b = s.subrange(0, q.len() as int);
        assert(a =~= p + b);
        lemma_equal_after(p, b, q);
    }
}

/// What lies between two strings with a common beginning has it too.
pub proof fn lemma_between_begins(p: Seq<u8>, a: Seq<u8>, b: Seq<u8>, key: Seq<u8>)
    requires
        lex_le(p + a, key),
        lex_lt(key, p + b),
    ensures
        has_prefix(key, p),
{
    let i = choose|i: int| less_at(key, p + b, i);
    if i < p.len() {
        assert(less_at(key, p + a, i));
        assert(lex_lt(key, p + a));
        lemma_lex_asymmetric(key, p + a);
        if p + a != key {
            lemma_lex_asymmetric(p + a, key);
        }
    } else {
        assert(key.subrange(0, p.len() as int) =~= p) by {
            assert forall|j: int| 0 <= j < p.len() implies key[j] == p[j] by {
                assert(key[j] == (p + b)[j]);
            }
        }
    }
}

/// The values `vals` come before those of `want`: at the first place at which
/// they differ in the order of index values, theirs is the smaller.
pub open spec fn comes_before(vals: Seq<Json>, want: Seq<Json>) -> bool {
    exists|k: int|
        0 <= k < vals.len() && k < want.len() && lex_lt(
            index_value(#[trigger] vals[k]),
            index_value(want[k]),
        ) && forall|j: int|
            0 <= j < k ==> index_value(#[trigger] vals[j]) == index_value(want[j])
}

/// The first place at which two lists of values differ.
proof fn lemma_first_unlike(vals: Seq<Json>, want: Seq<Json>, n: nat) -> (k: int)
    requires
        n <= vals.len(),
        n <= want.len(),
    ensures
        0 <= k <= n,
        forall|j: int| 0 <= j < k ==> index_value(#[trigger] vals[j]) == index_value(want[j]),
        k < n ==> index_value(vals[k]) != index_value(want[k]),
    decreases n,
{
    if n == 0 {
        0
    } else {
        let k = lemma_first_unlike(vals, want, (n - 1) as nat);
        if k < n - 1 {
            k
        } else if index_value(vals[k]) == index_value(want[k]) {
            n as int
        } else {
            k
        }
    }
}

/// Different values decide the order of what begins with them.
proof fn lemma_values_decide(a: Seq<u8>, ra: Seq<u8>, b: Seq<u8>, rb: Seq<u8>)
    requires
        zero_free(a),
        zero_free(b),
        ra.len() > 0 ==> ra[0] == 0,
        rb.len() > 0 ==> rb[0] == 0,
        lex_lt(a, b),
    ensures
        lex_lt(a + ra, b + rb),
{
    let i = choose|i: int| less_at(a, b, i);
    let x = a + ra;
    let y = b + rb;
    if i >= a.len() && ra.len() > 0 {
        assert(x[i] == ra[0]);
        assert(b[i] != 0);
    }
    assert(less_at(x, y, i));
}

/// The encoding of a list from one of its places on.
proof fn lemma_composite_at(vals: Seq<Json>, k: int) -> (r: (Seq<u8>, Seq<u8>))
    requires
        0 <= k < vals.len(),
    ensures
        composite_value(vals) == r.0 + (index_value(vals[k]) + r.1),
        r.0 == if k == 0 {
            Seq::<u8>::empty()
        } else {
            composite_value(vals.take(k)) + seq![0u8]
        },
        r.1.len() > 0 ==> r.1[0] == 0,
        r.1.len() == 0 ==> k == vals.len() - 1,
{
    let from = vals.skip(k);
    let one = seq![vals[k]];
    let rest = vals.skip(k + 1);
    let before = if k == 0 {
        Seq::<u8>::empty()
    } else {
        composite_value(vals.take(k)) + seq![0u8]
    };
    assert(vals =~= vals.take(k) + from);
    if k > 0 {
        lemma_composite_add(vals.take(k), from);
    } else {
        assert(from =~= vals);
    }
    assert(composite_value(vals) =~= before + composite_value(from));
    assert(one.drop_last() =~= Seq::<Json>::empty());
    let after = if rest.len() == 0 {
        Seq::<u8>::empty()
    } else {
        seq![0u8] + composite_value(rest)
    };
    assert(from =~= one + rest);
    if rest.len() > 0 {
        lemma_composite_add(one, rest);
        assert(composite_value(from) =~= index_value(vals[k]) + after);
    } else {
        assert(from =~= one);
        assert(composite_value(from) =~= index_value(vals[k]) + after);
    }
    (before, after)
}

/// An entry stands before the encoding of some values exactly where its values
/// come before them.
pub proof fn lemma_entry_before_values(vals: Seq<Json>, pk: Seq<u8>, want: Seq<Json>)
    requires
        0 < want.len() <= vals.len(),
    ensures
        lex_lt(composite_value(vals) + seq![0u8] + pk, composite_value(want)) <==> comes_before(
            vals,
            want,
        ),
{
    let t = composite_value(vals) + seq![0u8] + pk;
    let c = composite_value(want);
    let tail = seq![0u8] + pk;
    let k = lemma_first_unlike(vals, want, want.len());
    if k == want.len() {
        let first = vals.take(k);
        law_composite_values_are_exact(want, first);
        assert forall|i: int| 0 <= i < want.len() implies index_value(#[trigger] want[i])
            == index_value(first[i]) by {
            assert(first[i] == vals[i]);
        }
        let last = vals.skip(k);
        assert(vals =~= first + last);
        if last.len() == 0 {
            assert(first =~= vals);
        } else {
            lemma_composite_add(first, last);
        }
        assert(less_at(c, t, c.len() as int));
        lemma_lex_asymmetric(c, t);
        if comes_before(vals, want) {
            let i = choose|i: int|
                0 <= i < vals.len() && i < want.len() && lex_lt(
                    index_value(#[trigger] vals[i]),
                    index_value(want[i]),
                ) && forall|j: int|
                    0 <= j < i ==> index_value(#[trigger] vals[j]) == index_value(want[j]);
            lemma_lex_asymmetric(index_value(vals[i]), index_value(want[i]));
        }
    } else {
        let a = index_value(vals[k]);
        let b = index_value(want[k]);
        let (p, ra) = lemma_composite_at(vals, k);
        let (q, rb) = lemma_composite_at(want, k);
        law_composite_values_are_exact(vals.take(k), want.take(k));
        assert forall|i: int| 0 <= i < k implies index_value(#[trigger] vals.take(k)[i])
            == index_value(want.take(k)[i]) by {
            assert(vals.take(k)[i] == vals[i]);
        }
        assert(p == q);
        law_index_values_are_zero_free(vals[k]);
        law_index_values_are_zero_free(want[k]);
        let re = ra + tail;
        assert(re[0] == 0) by {
            if ra.len() > 0 {
                assert(re[0] == ra[0]);
            }
        }
        assert(t =~= p + (a + re));
        lemma_lex_add(p, a + re, b + rb);
        lemma_lex_total(a, b);
        if lex_lt(a, b) {
            lemma_values_decide(a, re, b, rb);
            assert(lex_lt(index_value(vals[k]), index_value(want[k])));
        } else {
            lemma_values_decide(b, rb, a, re);
            lemma_lex_asymmetric(b + rb, a + re);
            lemma_lex_asymmetric(b, a);
            if comes_before(vals, want) {
                let i = choose|i: int|
                    0 <= i < vals.len() && i < want.len() && lex_lt(
                        index_value(#[trigger] vals[i]),
                        index_value(want[i]),
                    ) && forall|j: int|
                        0 <= j < i ==> index_value(#[trigger] vals[j]) == index_value(want[j]);
                lemma_lex_asymmetric(index_value(vals[i]), index_value(want[i]));
                assert(i == k) by {
                    if k < i {
                        assert(index_value(vals[k]) == index_value(want[k]));
                    }
                    if i < k {
                        assert(index_value(vals[i]) == index_value(want[i]));
                    }
                }
            }
        }
    }
}

/// The document has values that do not come before the start and come before
/// the end where the index looks.
pub open spec fn has_values_between(doc: Json, d: IndexDefView, start: Seq<Json>, end: Seq<Json>) -> bool {
    exists|vals: Seq<Json>| #[trigger]
        has_values(doc, d, vals) && !comes_before(vals, start) && comes_before(vals, end)
}

/// The entries that a range of values of an index admits.
pub proof fn lemma_entry_between(
    store: Seq<u8>,
    index: Seq<u8>,
    start: Seq<Json>,
    end: Seq<Json>,
    vals: Seq<Json>,
    pk: Seq<u8>,
)
    requires
        0 < start.len() <= vals.len(),
        0 < end.len() <= vals.len(),
    ensures
        entry_range(store, index, composite_value(start), composite_value(end)).admits(
            idx_key_of(store, index, composite_value(vals), pk),
            0,
        ) <==> !comes_before(vals, start) && comes_before(vals, end),
        ({
            let tail = composite_value(vals).push(0u8) + pk;
            lex_le(composite_value(start), tail) && lex_lt(tail, composite_value(end))
                <==> !comes_before(vals, start) && comes_before(vals, end)
        }),
{
    let p = idx_prefix_of(store, index);
    let a = composite_value(start);
    let b = composite_value(end);
    let tail = composite_value(vals) + seq![0u8] + pk;
    let key = idx_key_of(store, index, composite_value(vals), pk);
    let range = entry_range(store, index, a, b);
    lemma_entry_before_values(vals, pk, start);
    lemma_entry_before_values(vals, pk, end);
    lemma_lex_not_le(a, tail);
    assert(composite_value(vals).push(0u8) + pk =~= tail);
    assert(key =~= p + tail);
    lemma_lex_add(p, a, tail);
    lemma_equal_after(p, a, tail);
    lemma_lex_add(p, tail, b);
    assert((p + a)[0] == 73);
    lemma_admits_between(range, key);
}

/// A range of encodings lies in the part for the index.
pub proof fn lemma_entry_range_within(store: Seq<u8>, index: Seq<u8>, start: Seq<u8>, end: Seq<u8>)
    ensures
        within_index(entry_range(store, index, start, end), store, index),
{
    let p = idx_prefix_of(store, index);
    let range = entry_range(store, index, start, end);
    assert forall|key: Seq<u8>, ts: i64| #[trigger] range.admits(key, ts) implies has_prefix(
        key,
        p,
    ) by {
        assert((p + start)[0] == 73);
        lemma_admits_between(range, key);
        lemma_between_begins(p, start, end, key);
    }
}

/// A document has an entry in a range of values exactly where it has values
/// there.
pub proof fn lemma_within_is_between(
    doc: Json,
    d: IndexDefView,
    store: Seq<u8>,
    pk: Seq<u8>,
    start: Seq<Json>,
    end: Seq<Json>,
)
    requires
        0 < start.len() <= d.key_paths.len(),
        0 < end.len() <= d.key_paths.len(),
    ensures
        entered_within(
            doc,
            d,
            store,
            pk,
            entry_range(store, encode_utf8(d.name), composite_value(start), composite_value(end)),
        ) == has_values_between(doc, d, start, end),
{
    let ib = encode_utf8(d.name);
    let range = entry_range(store, ib, composite_value(start), composite_value(end));
    if entered_within(doc, d, store, pk, range) {
        let vals = choose|vals: Seq<Json>| #[trigger]
            has_values(doc, d, vals) && range.admits(
                idx_key_of(store, ib, composite_value(vals), pk),
                0,
            );
        lemma_entry_between(store, ib, start, end, vals, pk);
        assert(has_values(doc, d, vals));
    }
    if has_values_between(doc, d, start, end) {
        let vals = choose|vals: Seq<Json>| #[trigger]
            has_values(doc, d, vals) && !comes_before(vals, start) && comes_before(vals, end);
        lemma_entry_between(store, ib, start, end, vals, pk);
    }
}

/// The encoding that is looked up is that of the values that are asked for.
pub proof fn lemma_looked_up(d: IndexDefView, value: Json)
    ensures
        looked_up(d, value) == composite_value(asked_for(d, value)),
{
    assert(seq![value].drop_last() =~= Seq::<Json>::empty());
}

/// A lookup of a range of values gives a document exactly where the document
/// has values in the index, an element of its array among them where the index
/// takes arrays apart, that do not come before the start and come before the
/// end.
pub proof fn law_range_lookup_gives_the_documents_between(
    db: DbView,
    store: Seq<char>,
    index: Seq<char>,
    start: Json,
    end: Json,
)
    requires
        db.consistent(),
        db.engine.in_step(),
        db.index(store, index) is Ok,
        0 < asked_for(db.index(store, index)->Ok_0, start).len() <= db.index(
            store,
            index,
        )->Ok_0.key_paths.len(),
        0 < asked_for(db.index(store, index)->Ok_0, end).len() <= db.index(
            store,
            index,
        )->Ok_0.key_paths.len(),
    ensures
        db.indexed_range(store, index, start, end) is Ok,
        forall|doc: Json| #[trigger]
            db.indexed_range(store, index, start, end)->Ok_0.contains(doc) <==> exists|pk: Seq<u8>|
                zero_free(pk) && #[trigger] stored_doc(db.engine, encode_utf8(store), pk) == Some(
                    doc,
                ) && has_values_between(
                    doc,
                    db.index(store, index)->Ok_0,
                    asked_for(db.index(store, index)->Ok_0, start),
                    asked_for(db.index(store, index)->Ok_0, end),
                ),
{
    let sb = encode_utf8(store);
    let ib = encode_utf8(index);
    let def = db.store(store)->0;
    let d = db.index(store, index)->Ok_0;
    let k = index_position(def.indexes, index);
    lemma_index_position(def.indexes, index);
    let a = asked_for(d, start);
    let b = asked_for(d, end);
    lemma_looked_up(d, start);
    lemma_looked_up(d, end);
    let range = entry_range(sb, ib, composite_value(a), composite_value(b));
    lemma_entry_range_within(sb, ib, composite_value(a), composite_value(b));
    lemma_docs_within(db, store, k, range);
    let docs = db.indexed_range(store, index, start, end)->Ok_0;
    assert forall|doc: Json| #[trigger] docs.contains(doc) <==> exists|pk: Seq<u8>|
        zero_free(pk) && #[trigger] stored_doc(db.engine, sb, pk) == Some(doc)
            && has_values_between(doc, d, a, b) by {
        if docs.contains(doc) {
            let pk = choose|pk: Seq<u8>|
                zero_free(pk) && #[trigger] stored_doc(db.engine, sb, pk) == Some(doc)
                    && entered_within(doc, d, sb, pk, range);
            lemma_within_is_between(doc, d, sb, pk, a, b);
        }
        if exists|pk: Seq<u8>|
            zero_free(pk) && #[trigger] stored_doc(db.engine, sb, pk) == Some(doc)
                && has_values_between(doc, d, a, b) {
            let pk = choose|pk: Seq<u8>|
                zero_free(pk) && #[trigger] stored_doc(db.engine, sb, pk) == Some(doc)
                    && has_values_between(doc, d, a, b);
            lemma_within_is_between(doc, d, sb, pk, a, b);
        }
    }
}

/// In an index over one field a document has values in a range exactly where it
/// has a value, or an element, that is not before the start and before the end.
pub proof fn law_values_between_of_one_field(doc: Json, d: IndexDefView, start: Json, end: Json)
    requires
        d.key_paths.len() == 1,
    ensures
        has_values_between(doc, d, asked_for(d, start), asked_for(d, end)) <==> exists|v: Json|
            #[trigger] has_values(doc, d, seq![v]) && lex_le(index_value(start), index_value(v))
                && lex_lt(index_value(v), index_value(end)),
{
    assert forall|v: Json, w: Json| comes_before(#[trigger] seq![v], #[trigger] seq![w])
        <==> lex_lt(index_value(v), index_value(w)) by {
        let a = seq![v];
        let b = seq![w];
        if lex_lt(index_value(v), index_value(w)) {
            assert(lex_lt(index_value(a[0]), index_value(b[0])));
            assert(comes_before(a, b));
        }
    }
    assert forall|v: Json| lex_le(index_value(start), #[trigger] index_value(v)) <==> !lex_lt(
        index_value(v),
        index_value(start),
    ) by {
        lemma_lex_not_le(index_value(start), index_value(v));
    }
    if has_values_between(doc, d, asked_for(d, start), asked_for(d, end)) {
        let vals = choose|vals: Seq<Json>| #[trigger]
            has_values(doc, d, vals) && !comes_before(vals, asked_for(d, start)) && comes_before(
                vals,
                asked_for(d, end),
            );
        assert(vals =~= seq![vals[0]]);
        assert(has_values(doc, d, seq![vals[0]]));
    }
    if exists|v: Json| #[trigger]
        has_values(doc, d, seq![v]) && lex_le(index_value(start), index_value(v)) && lex_lt(
            index_value(v),
            index_value(end),
        ) {
        let v = choose|v: Json| #[trigger]
            has_values(doc, d, seq![v]) && lex_le(index_value(start), index_value(v)) && lex_lt(
                index_value(v),
                index_value(end),
            );
        assert(comes_before(seq![v], seq![end]));
        assert(!comes_before(seq![v], seq![start]));
    }
}

} // verus!
