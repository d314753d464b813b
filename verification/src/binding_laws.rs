//! What the functions for other languages hand over, collect and accept.

use vstd::prelude::*;
use vstd::utf8::{encode_utf8, encode_utf8_decode_utf8};

use crate::bindings::{
    described_range, millis_of, mode_named, pending, with_meta, FeedState, FeedView, TxOpView,
};
use crate::error::FlowErrorView;
use crate::jsondb::cursor::CursorDirection;
use crate::jsondb::db::DbView;
use crate::jsondb::documents::integer_json;
use crate::jsondb::encoding_laws::whole;
use crate::jsondb::path_laws::law_field_is_set;
use crate::jsondb::transaction::{TransactionMode, TxView};
use crate::jsondb::value::{
    field_at, field_named, json_equal, lemma_json_equal_reflexive, with_field, Json,
};

verus! {

/// Microseconds in milliseconds lose what is no whole millisecond, on both sides
/// of zero.
pub proof fn law_millis_are_whole(us: i64)
    ensures
        us >= 0 ==> millis_of(us) * 1000 <= us < millis_of(us) * 1000 + 1000,
        us < 0 ==> millis_of(us) * 1000 - 1000 < us <= millis_of(us) * 1000,
{
}

/// The text stands for a whole number.
pub open spec fn is_whole_number(v: Option<Json>, n: int) -> bool {
    v is Some && v->0 is Number && whole(v->0->Number_0) == Some(n)
}

/// A document with its times has its time and its expiry in milliseconds, null
/// where it never expires, and all other fields as they were.
pub proof fn law_meta_is_set(fs: Seq<(Seq<u8>, Json)>, ts: i64, expire_at: i64, other: Seq<u8>)
    ensures
        ({
            let out = with_meta(Json::Object(fs), ts, expire_at);
            &&& out is Object
            &&& is_whole_number(
                field_named(out->Object_0, encode_utf8("_tsMs"@)),
                millis_of(ts),
            )
            &&& expire_at == i64::MAX ==> field_named(
                out->Object_0,
                encode_utf8("_expireAtMs"@),
            ) == Some(Json::Null)
            &&& expire_at < i64::MAX ==> is_whole_number(
                field_named(out->Object_0, encode_utf8("_expireAtMs"@)),
                millis_of(expire_at),
            )
            &&& other != encode_utf8("_tsMs"@) && other != encode_utf8("_expireAtMs"@)
                ==> field_named(out->Object_0, other) == field_named(fs, other)
        }),
{
    let a = encode_utf8("_tsMs"@);
    let b = encode_utf8("_expireAtMs"@);
    let t = integer_json(millis_of(ts));
    let e = if expire_at == i64::MAX {
        Json::Null
    } else {
        integer_json(millis_of(expire_at))
    };
    let one = with_field(fs, a, t);
    reveal_strlit("_tsMs");
    reveal_strlit("_expireAtMs");
    encode_utf8_decode_utf8("_tsMs"@);
    encode_utf8_decode_utf8("_expireAtMs"@);
    assert("_tsMs"@.len() != "_expireAtMs"@.len());
    assert(a != b);
    law_field_is_set(fs, a, t, a);
    law_field_is_set(fs, a, t, other);
    law_field_is_set(one, b, e, a);
    law_field_is_set(one, b, e, b);
    law_field_is_set(one, b, e, other);
}

/// What is no object has no times.
pub proof fn law_only_objects_get_meta(doc: Json, ts: i64, expire_at: i64)
    requires
        !(doc is Object),
    ensures
        with_meta(doc, ts, expire_at) == doc,
{
}

/// An object describes the key range from its lower to its upper bound; a bound
/// that is not there, or null, is none, and one is open exactly where the flag
/// is true. Nothing else describes a key range.
pub proof fn law_range_is_as_described(v: Json)
    ensures
        described_range(v) is Ok <==> v is Object,
        v is Object ==> {
            let r = described_range(v)->Ok_0;
            let fs = v->Object_0;
            let lower = field_named(fs, encode_utf8("lower"@));
            let upper = field_named(fs, encode_utf8("upper"@));
            &&& r.lower is None <==> lower is None || lower == Some(Json::Null)
            &&& r.lower is Some ==> r.lower == lower
            &&& r.upper is None <==> upper is None || upper == Some(Json::Null)
            &&& r.upper is Some ==> r.upper == upper
            &&& r.lower_open <==> field_named(fs, encode_utf8("lowerOpen"@)) == Some(
                Json::Bool(true),
            )
            &&& r.upper_open <==> field_named(fs, encode_utf8("upperOpen"@)) == Some(
                Json::Bool(true),
            )
        },
{
}

/// The two modes are named by their names, and nothing else names one.
pub proof fn law_modes_are_named(s: Seq<char>)
    ensures
        mode_named(s) == Some(TransactionMode::ReadOnly) <==> s == "readonly"@,
        mode_named(s) == Some(TransactionMode::ReadWrite) <==> s == "readwrite"@,
        mode_named(s) is None <==> s != "readonly"@ && s != "readwrite"@,
{
    reveal_strlit("readonly");
    reveal_strlit("readwrite");
    assert("readonly"@.len() != "readwrite"@.len());
}

/// The four directions are named by their names, and nothing else names one.
pub proof fn law_directions_are_named(s: Seq<char>)
    ensures
        CursorDirection::named(s) == Some(CursorDirection::Next) <==> s == "next"@,
        CursorDirection::named(s) == Some(CursorDirection::NextUnique) <==> s == "nextunique"@,
        CursorDirection::named(s) == Some(CursorDirection::Prev) <==> s == "prev"@,
        CursorDirection::named(s) == Some(CursorDirection::PrevUnique) <==> s == "prevunique"@,
        CursorDirection::Prev.reverse() && CursorDirection::PrevUnique.reverse(),
        !CursorDirection::Next.reverse() && !CursorDirection::NextUnique.reverse(),
        CursorDirection::NextUnique.unique() && CursorDirection::PrevUnique.unique(),
        !CursorDirection::Next.unique() && !CursorDirection::Prev.unique(),
{
    reveal_strlit("next");
    reveal_strlit("nextunique");
    reveal_strlit("prev");
    reveal_strlit("prevunique");
    assert("next"@[0] == 'n' && "prev"@[0] == 'p');
    assert("nextunique"@.len() == 10 && "prevunique"@.len() == 10);
    assert("nextunique"@[0] == 'n' && "prevunique"@[0] == 'p');
}

/// The feed after `n` items were asked for.
pub open spec fn asked_often(f: FeedView, n: nat) -> FeedView
    decreases n,
{
    if n == 0 {
        f
    } else {
        asked_often(f, (n - 1) as nat).step().1
    }
}

proof fn lemma_feed(f: FeedView, n: nat)
    requires
        f.state == FeedState::Feeding,
    ensures
        n <= f.items.len() ==> asked_often(f, n) == (FeedView { items: f.items.skip(n as int), ..f }),
        n > f.items.len() ==> asked_often(f, n).state == FeedState::Done,
    decreases n,
{
    if n > 0 {
        lemma_feed(f, (n - 1) as nat);
        if n <= f.items.len() {
            assert(f.items.skip(n - 1).drop_first() =~= f.items.skip(n as int));
        }
    } else {
        assert(f.items.skip(0) =~= f.items);
    }
}

/// A feed hands every item over in turn: its key, its document and, from an
/// index, its primary key; then that it is done, and then nothing more.
pub proof fn law_feed_hands_every_item_over(f: FeedView, n: nat)
    requires
        f.state == FeedState::Feeding,
    ensures
        ({
            let out = asked_often(f, n).step().0;
            &&& n < f.items.len() ==> {
                let item = f.items[n as int];
                &&& out is Some
                &&& !out->0.done
                &&& out->0.key == item.0
                &&& out->0.value == item.2
                &&& f.on_index ==> out->0.primary_key == Some(item.1)
                &&& !f.on_index ==> out->0.primary_key is None
            }
            &&& n == f.items.len() ==> out is Some && out->0.done
            &&& n > f.items.len() ==> out is None
        }),
{
    lemma_feed(f, n);
}

/// A feed that was refused an item says that it is done, and then nothing more.
pub proof fn law_refused_feed_is_done(f: FeedView)
    requires
        f.state == FeedState::Refused,
    ensures
        f.step().0 is Some,
        f.step().0->0.done,
        f.step().1.step().0 is None,
{
}

/// A put that was collected last decides what is shown of its document: the
/// value that was put.
pub proof fn law_last_put_is_pending(
    ops: Seq<TxOpView>,
    store: Seq<char>,
    key_path: Seq<char>,
    value: Json,
)
    requires
        field_at(value, encode_utf8(key_path)) is Some,
    ensures
        pending(
            ops.push(TxOpView::Put { store, value }),
            store,
            key_path,
            field_at(value, encode_utf8(key_path))->0,
        ) == Some(Some(value)),
        pending(
            ops.push(TxOpView::PutAuto { store, value }),
            store,
            key_path,
            field_at(value, encode_utf8(key_path))->0,
        ) == Some(Some(value)),
{
    let key = field_at(value, encode_utf8(key_path))->0;
    lemma_json_equal_reflexive(key);
}

/// A deletion that was collected last decides what is shown of its document:
/// nothing.
pub proof fn law_last_deletion_is_pending(
    ops: Seq<TxOpView>,
    store: Seq<char>,
    key_path: Seq<char>,
    key: Json,
)
    ensures
        pending(ops.push(TxOpView::Delete { store, key }), store, key_path, key) == Some(
            None::<Json>,
        ),
{
    lemma_json_equal_reflexive(key);
}

/// An operation that was collected for another document, or for another store,
/// changes nothing of what is shown of a document.
pub proof fn law_other_operations_are_not_pending(
    ops: Seq<TxOpView>,
    op: TxOpView,
    store: Seq<char>,
    key_path: Seq<char>,
    key: Json,
)
    requires
        match op {
            TxOpView::Put { store: s, value } => s != store || field_at(
                value,
                encode_utf8(key_path),
            ) is None || !json_equal(field_at(value, encode_utf8(key_path))->0, key),
            TxOpView::PutAuto { store: s, value } => s != store || field_at(
                value,
                encode_utf8(key_path),
            ) is None || !json_equal(field_at(value, encode_utf8(key_path))->0, key),
            TxOpView::Delete { store: s, key: k } => s != store || !json_equal(k, key),
        },
    ensures
        pending(ops.push(op), store, key_path, key) == pending(ops, store, key_path, key),
        pending(Seq::<TxOpView>::empty(), store, key_path, key) is None,
{
    assert(ops.push(op).drop_last() =~= ops);
}

/// Operations are carried out in the order in which they were collected, each on
/// what the ones before it came to, up to the first that is refused.
pub proof fn law_operations_are_replayed_in_order(
    db: DbView,
    tx: TxView,
    ops: Seq<TxOpView>,
    op: TxOpView,
)
    ensures
        ({
            let before = db.replayed(tx, ops, ops.len());
            let after = db.replayed(tx, ops.push(op), (ops.len() + 1) as nat);
            &&& before.1 is Some ==> after == before
            &&& before.1 is None ==> match op {
                TxOpView::Put { store, value } => match before.0.put(db, store, value) {
                    Ok((t, _)) => after == (t, None::<FlowErrorView>),
                    Err(e) => after == (before.0, Some(e)),
                },
                TxOpView::PutAuto { store, value } => match before.0.put_auto(db, store, value) {
                    Ok((t, _)) => after == (t, None::<FlowErrorView>),
                    Err(e) => after == (before.0, Some(e)),
                },
                TxOpView::Delete { store, key } => after == before.0.delete(db, store, key),
            }
            &&& db.replayed(tx, ops, 0) == (tx, None::<FlowErrorView>)
        }),
{
    lemma_replayed_prefix(db, tx, ops, op, ops.len());
}

proof fn lemma_replayed_prefix(
    db: DbView,
    tx: TxView,
    ops: Seq<TxOpView>,
    op: TxOpView,
    n: nat,
)
    requires
        n <= ops.len(),
    ensures
        db.replayed(tx, ops.push(op), n) == db.replayed(tx, ops, n),
    decreases n,
{
    if n > 0 {
        lemma_replayed_prefix(db, tx, ops, op, (n - 1) as nat);
        assert(ops.push(op)[n - 1] == ops[n - 1]);
    }
}

/// A feed gives what the cursor gives that is asked for: over the index, where
/// one is named, in the described range and the named direction.
pub proof fn law_feed_is_that_of_the_cursor(
    db: DbView,
    store: Seq<char>,
    index: Option<Seq<char>>,
    query: Option<Json>,
    direction: Seq<char>,
)
    ensures
        query is Some && !(query->0 is Object) ==> db.feed(store, index, query, direction) is Err,
        CursorDirection::named(direction) is None ==> db.feed(
            store,
            index,
            query,
            direction,
        ) is Err,
        CursorDirection::named(direction) is Some && query is None ==> db.feed(
            store,
            index,
            query,
            direction,
        ) == match index {
            Some(i) => db.index_cursor(store, i, None, CursorDirection::named(direction)->0),
            None => db.cursor(store, None, CursorDirection::named(direction)->0),
        },
        CursorDirection::named(direction) is Some && query is Some && query->0 is Object
            ==> db.feed(store, index, query, direction) == match index {
            Some(i) => db.index_cursor(
                store,
                i,
                Some(described_range(query->0)->Ok_0),
                CursorDirection::named(direction)->0,
            ),
            None => db.cursor(
                store,
                Some(described_range(query->0)->Ok_0),
                CursorDirection::named(direction)->0,
            ),
        },
{
}

} // verus!
