//! How long what was written is read: until its time to live is over.

use vstd::prelude::*;

use crate::engine::{stamped, Engine, EngineView};
use crate::engine_laws::{
    last_of_version, law_point_read_gives_last_write, lemma_written_in_memory, numbered_from,
};
use crate::error::Result;
use crate::memtable::{lemma_newest, newest};
use crate::memtables::{best_version, lemma_best_version, lemma_flatten_contains, offers};
use crate::order::same_version;
use crate::ranges::{covered, covers_at};
use crate::record::{live_at, Entry, Op, RecordView};
use crate::time_laws::law_no_expired_record_is_read;

verus! {

/// The entries of a batch of puts, one by one.
proof fn lemma_stamped(v: EngineView, recs: Seq<RecordView>, ttl: Option<u64>)
    requires
        v.next_seq + recs.len() <= u64::MAX,
    ensures
        ({
            let es = stamped(recs, ttl, v.next_seq);
            &&& es.len() == recs.len()
            &&& numbered_from(es, v.next_seq)
            &&& forall|i: int|
                0 <= i < recs.len() ==> (#[trigger] es[i]).key == recs[i].key && es[i].ts
                    == recs[i].ts && es[i].op == Op::Put && es[i].value == recs[i].value
            &&& forall|key: Seq<u8>, after: Option<u64>| !#[trigger]
                covered(es, key, after, u64::MAX)
        }),
{
    let es = stamped(recs, ttl, v.next_seq);
    assert forall|key: Seq<u8>, after: Option<u64>| !#[trigger]
        covered(es, key, after, u64::MAX) by {
        assert forall|i: int| 0 <= i < es.len() implies !covers_at(
            #[trigger] es[i],
            key,
            after,
            u64::MAX,
        ) by {
            assert(es[i].op == Op::Put);
        }
    }
}

/// What is read of the last record of a batch for its `(key, ts)`, at a time at
/// which it is live.
proof fn lemma_batch_is_read(
    v: EngineView,
    recs: Seq<RecordView>,
    ttl: Option<u64>,
    i: int,
    later: i64,
)
    requires
        v.seqs_below(),
        v.next_seq + recs.len() <= u64::MAX,
        0 <= i < recs.len(),
        forall|j: int|
            i < j < recs.len() ==> !((#[trigger] recs[j]).key == recs[i].key && recs[j].ts
                == recs[i].ts),
        live_at(stamped(recs, ttl, v.next_seq)[i].expire_at, later),
    ensures
        (EngineView { now: later, ..v.written(stamped(recs, ttl, v.next_seq)) }).point(
            recs[i].key,
            recs[i].ts,
        ) == Some(stamped(recs, ttl, v.next_seq)[i].record()),
{
    let u = EngineView { now: later, ..v };
    let es = stamped(recs, ttl, v.next_seq);
    lemma_stamped(v, recs, ttl);
    assert(u.seqs_below());
    assert(last_of_version(es, i)) by {
        assert forall|j: int| i < j < es.len() implies !same_version(#[trigger] es[j], es[i]) by {
            assert(!(recs[j].key == recs[i].key && recs[j].ts == recs[i].ts));
        }
    }
    law_point_read_gives_last_write(u, es, i);
    assert(u.written(es) == (EngineView { now: later, ..v.written(es) }));
}

/// Nothing is read of a `(key, ts)` all versions of which have expired, where
/// nothing is stored of it either.
proof fn lemma_all_expired(v: EngineView, key: Seq<u8>, ts: i64)
    requires
        forall|e: Entry| #[trigger]
            v.mem.all().contains(e) && e.key == key && e.ts == ts ==> !live_at(e.expire_at, v.now),
        v.stored_version(key, ts) is None,
    ensures
        v.point(key, ts) is None,
{
    let t = v.mem.tables();
    let b = best_version(t, key, ts, v.now, u64::MAX);
    if b is Some {
        lemma_best_version(t, key, ts, v.now, u64::MAX);
        let k = choose|k: int| #[trigger]
            offers(t, k, key, ts, v.now, u64::MAX) && newest(t[k], key, ts, u64::MAX) == b;
        lemma_newest(t[k], key, ts, u64::MAX);
        lemma_flatten_contains(t, b->0);
        assert(t[k].contains(b->0));
        assert(v.mem.all().contains(b->0));
    }
}

/// Once the last record of a batch has expired nothing is read of it, where
/// there was nothing of its `(key, ts)` before.
proof fn lemma_batch_is_gone(
    v: EngineView,
    recs: Seq<RecordView>,
    ttl: Option<u64>,
    i: int,
    later: i64,
)
    requires
        v.next_seq + recs.len() <= u64::MAX,
        0 <= i < recs.len(),
        forall|j: int|
            0 <= j < recs.len() && (#[trigger] recs[j]).key == recs[i].key && recs[j].ts
                == recs[i].ts ==> !live_at(stamped(recs, ttl, v.next_seq)[j].expire_at, later),
        forall|e: Entry| #[trigger]
            v.mem.all().contains(e) ==> !(e.key == recs[i].key && e.ts == recs[i].ts),
        (EngineView { now: later, ..v }).stored_version(recs[i].key, recs[i].ts) is None,
    ensures
        (EngineView { now: later, ..v.written(stamped(recs, ttl, v.next_seq)) }).point(
            recs[i].key,
            recs[i].ts,
        ) is None,
{
    let es = stamped(recs, ttl, v.next_seq);
    let w = EngineView { now: later, ..v.written(es) };
    lemma_stamped(v, recs, ttl);
    assert forall|e: Entry| #[trigger]
        w.mem.all().contains(e) && e.key == recs[i].key && e.ts == recs[i].ts implies !live_at(
        e.expire_at,
        w.now,
    ) by {
        lemma_written_in_memory(v, es, e);
        if es.contains(e) {
            let j = choose|j: int| 0 <= j < es.len() && es[j] == e;
            assert(recs[j].key == recs[i].key && recs[j].ts == recs[i].ts);
        }
    }
    assert(w.stored_version(recs[i].key, recs[i].ts) == (EngineView {
        now: later,
        ..v
    }).stored_version(recs[i].key, recs[i].ts));
    lemma_all_expired(w, recs[i].key, recs[i].ts);
}

/// A record that is written with a time to live of its own is read, with its
/// value, until that many seconds after its time, and not from then on, whatever
/// time to live the engine gives to others.
pub proof fn law_ttl_of_a_batch_decides(
    e: Engine,
    recs: Seq<RecordView>,
    ttl_secs: u64,
    after: Engine,
    r: Result<()>,
    i: int,
    later: i64,
)
    requires
        e@.seqs_below(),
        e.writes(recs, Some(ttl_secs), after, r),
        r is Ok,
        0 <= i < recs.len(),
        forall|j: int|
            i < j < recs.len() ==> !((#[trigger] recs[j]).key == recs[i].key && recs[j].ts
                == recs[i].ts),
        recs[i].ts + ttl_secs * 1_000_000 <= i64::MAX,
        ttl_secs * 1_000_000 <= i64::MAX,
    ensures
        ({
            let end = recs[i].ts + ttl_secs * 1_000_000;
            let read = (EngineView { now: later, ..after@ }).point(recs[i].key, recs[i].ts);
            &&& later < end ==> read == Some(RecordView { expire_at: end as i64, ..recs[i] })
            &&& later >= end && end < i64::MAX ==> read != Some(
                RecordView { expire_at: end as i64, ..recs[i] },
            )
            &&& later >= end && end < i64::MAX && (forall|x: Entry| #[trigger]
                e@.mem.all().contains(x) ==> !(x.key == recs[i].key && x.ts == recs[i].ts))
                && (EngineView { now: later, ..e@ }).stored_version(recs[i].key, recs[i].ts) is None
                ==> read is None
        }),
{
    lemma_ttl_decides(e@, recs, Some(ttl_secs), ttl_secs, i, later);
    if e@.next_seq + recs.len() > u64::MAX {
        assert(r is Err);
    }
}

/// A record that is written without a time to live of its own gets the engine's,
/// where the engine has one: it is read until that many seconds after its time,
/// and not from then on.
pub proof fn law_default_ttl_decides_where_none_is_given(
    e: Engine,
    recs: Seq<RecordView>,
    default_secs: u64,
    after: Engine,
    r: Result<()>,
    i: int,
    later: i64,
)
    requires
        e@.seqs_below(),
        e.settings().default_ttl_secs == Some(default_secs),
        e.writes(recs, None, after, r),
        r is Ok,
        0 <= i < recs.len(),
        forall|j: int|
            i < j < recs.len() ==> !((#[trigger] recs[j]).key == recs[i].key && recs[j].ts
                == recs[i].ts),
        recs[i].ts + default_secs * 1_000_000 <= i64::MAX,
        default_secs * 1_000_000 <= i64::MAX,
    ensures
        ({
            let end = recs[i].ts + default_secs * 1_000_000;
            let read = (EngineView { now: later, ..after@ }).point(recs[i].key, recs[i].ts);
            &&& later < end ==> read == Some(RecordView { expire_at: end as i64, ..recs[i] })
            &&& later >= end && end < i64::MAX ==> read != Some(
                RecordView { expire_at: end as i64, ..recs[i] },
            )
            &&& later >= end && end < i64::MAX && (forall|x: Entry| #[trigger]
                e@.mem.all().contains(x) ==> !(x.key == recs[i].key && x.ts == recs[i].ts))
                && (EngineView { now: later, ..e@ }).stored_version(recs[i].key, recs[i].ts) is None
                ==> read is None
        }),
{
    lemma_ttl_decides(e@, recs, Some(default_secs), default_secs, i, later);
    if e@.next_seq + recs.len() > u64::MAX {
        assert(r is Err);
    }
}

proof fn lemma_ttl_decides(
    v: EngineView,
    recs: Seq<RecordView>,
    ttl: Option<u64>,
    secs: u64,
    i: int,
    later: i64,
)
    requires
        v.seqs_below(),
        ttl == Some(secs),
        0 <= i < recs.len(),
        forall|j: int|
            i < j < recs.len() ==> !((#[trigger] recs[j]).key == recs[i].key && recs[j].ts
                == recs[i].ts),
        recs[i].ts + secs * 1_000_000 <= i64::MAX,
        secs * 1_000_000 <= i64::MAX,
    ensures
        v.next_seq + recs.len() <= u64::MAX ==> {
            let end = recs[i].ts + secs * 1_000_000;
            let read = (EngineView {
                now: later,
                ..v.written(stamped(recs, ttl, v.next_seq))
            }).point(recs[i].key, recs[i].ts);
            &&& later < end ==> read == Some(RecordView { expire_at: end as i64, ..recs[i] })
            &&& later >= end && end < i64::MAX ==> read != Some(
                RecordView { expire_at: end as i64, ..recs[i] },
            )
            &&& later >= end && end < i64::MAX && (forall|x: Entry| #[trigger]
                v.mem.all().contains(x) ==> !(x.key == recs[i].key && x.ts == recs[i].ts)) && (
            EngineView { now: later, ..v }).stored_version(recs[i].key, recs[i].ts) is None
                ==> read is None
        },
{
    if v.next_seq + recs.len() <= u64::MAX {
        let es = stamped(recs, ttl, v.next_seq);
        let end = recs[i].ts + secs * 1_000_000;
        let w = EngineView { now: later, ..v.written(es) };
        lemma_stamped(v, recs, ttl);
        assert(es[i].expire_at == end);
        if later < end {
            lemma_batch_is_read(v, recs, ttl, i, later);
        } else if end < i64::MAX {
            if w.point(recs[i].key, recs[i].ts) is Some {
                law_no_expired_record_is_read(
                    w,
                    recs[i].key,
                    recs[i].ts,
                    w.point(recs[i].key, recs[i].ts)->0,
                );
            }
            if (forall|x: Entry| #[trigger]
                v.mem.all().contains(x) ==> !(x.key == recs[i].key && x.ts == recs[i].ts)) && (
            EngineView { now: later, ..v }).stored_version(recs[i].key, recs[i].ts) is None {
                assert forall|j: int|
                    0 <= j < recs.len() && (#[trigger] recs[j]).key == recs[i].key && recs[j].ts
                        == recs[i].ts implies !live_at(es[j].expire_at, later) by {
                    assert(es[j].expire_at == end);
                }
                lemma_batch_is_gone(v, recs, ttl, i, later);
            }
        }
    }
}

/// Without any time to live a record expires when it says.
pub proof fn law_without_ttl_a_record_expires_as_it_says(
    e: Engine,
    recs: Seq<RecordView>,
    after: Engine,
    r: Result<()>,
    i: int,
    later: i64,
)
    requires
        e@.seqs_below(),
        e.settings().default_ttl_secs is None,
        e.writes(recs, None, after, r),
        r is Ok,
        0 <= i < recs.len(),
        forall|j: int|
            i < j < recs.len() ==> !((#[trigger] recs[j]).key == recs[i].key && recs[j].ts
                == recs[i].ts),
    ensures
        ({
            let read = (EngineView { now: later, ..after@ }).point(recs[i].key, recs[i].ts);
            &&& later < recs[i].expire_at || recs[i].expire_at == i64::MAX ==> read == Some(recs[i])
            &&& recs[i].expire_at <= later && recs[i].expire_at < i64::MAX ==> read != Some(recs[i])
        }),
{
    let v = e@;
    let es = stamped(recs, None, v.next_seq);
    let w = EngineView { now: later, ..after@ };
    if v.next_seq + recs.len() > u64::MAX {
        assert(r is Err);
    } else {
        lemma_stamped(v, recs, None);
        assert(es[i].record() == recs[i]);
        if live_at(recs[i].expire_at, later) {
            lemma_batch_is_read(v, recs, None, i, later);
        } else if w.point(recs[i].key, recs[i].ts) is Some {
            law_no_expired_record_is_read(
                w,
                recs[i].key,
                recs[i].ts,
                w.point(recs[i].key, recs[i].ts)->0,
            );
        }
    }
}

/// A time to live that reaches past the last time there is never ends.
pub proof fn law_ttl_past_all_time_never_ends(
    e: Engine,
    recs: Seq<RecordView>,
    ttl_secs: u64,
    after: Engine,
    r: Result<()>,
    i: int,
    later: i64,
)
    requires
        e@.seqs_below(),
        e.writes(recs, Some(ttl_secs), after, r),
        r is Ok,
        0 <= i < recs.len(),
        forall|j: int|
            i < j < recs.len() ==> !((#[trigger] recs[j]).key == recs[i].key && recs[j].ts
                == recs[i].ts),
        0 <= recs[i].ts,
        ttl_secs <= i64::MAX,
        recs[i].ts + ttl_secs * 1_000_000 >= i64::MAX,
    ensures
        (EngineView { now: later, ..after@ }).point(recs[i].key, recs[i].ts) == Some(
            RecordView { expire_at: i64::MAX, ..recs[i] },
        ),
{
    let v = e@;
    if v.next_seq + recs.len() > u64::MAX {
        assert(r is Err);
    } else {
        lemma_stamped(v, recs, Some(ttl_secs));
        lemma_batch_is_read(v, recs, Some(ttl_secs), i, later);
    }
}

/// A patched record keeps its key and time; it has the new value where one is
/// given, and the new time to live where one is given.
pub proof fn law_patch_changes_what_it_says(
    rec: RecordView,
    value: Option<Seq<u8>>,
    ttl_secs: Option<u64>,
)
    ensures
        ({
            let p = Engine::patched(rec, value, ttl_secs);
            &&& p.key == rec.key
            &&& p.ts == rec.ts
            &&& value is Some ==> p.value == value->0
            &&& value is None ==> p.value == rec.value
            &&& ttl_secs is None ==> p.expire_at == rec.expire_at
            &&& ttl_secs is Some && ttl_secs->0 * 1_000_000 <= i64::MAX && rec.ts + ttl_secs->0
                * 1_000_000 <= i64::MAX ==> p.expire_at == rec.ts + ttl_secs->0 * 1_000_000
        }),
{
}

} // verus!
