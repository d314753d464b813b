//! What memory, the manifest, the log and the maintenance of an engine hold and
//! do, in terms of what they are given.

use vstd::prelude::*;

use crate::bytes::lex_le;
use crate::compaction::{
    from_lowest, ids_of, is_by_size, picks, widened, CompactionPlan, CompactionRunner,
};
use crate::engine::{compaction_planned, expired_ids, first_seq, max_seq_of, EngineView};
use crate::error::{decimal, FlowError, FlowErrorView, Result};
use crate::manifest::{
    lemma_max_of, other_than, BlockInfoView, EntryView, ManifestView, SstInfoView,
};
use crate::memtable::{
    is_live_put, latest, latest_of, not_later, passes, removed, removes, selected,
};
use crate::memtables::{grown_size, lemma_flatten_contains, MemView};
use crate::operation_laws::law_prefix_is_a_beginning;
use crate::order::lemma_filter_contains;
use crate::ranges::covers;
use crate::record::{entry_size, Config, Entry, KeyFilterView, Op};
use crate::sstable::chunks;
use crate::wal::{numbered_above, replayed};

verus! {

/// The SSTs that are collected are the active ones whose last record expires at
/// the time given or before; what never expires is not collected.
pub proof fn law_collected_is_what_has_expired(m: ManifestView, now: i64, id: u32)
    ensures
        expired_ids(m, now, m.active.len() as int).contains(id) <==> m.active.contains(id)
            && m.sstables.contains_key(id) && m.sstables[id].max_expire <= now
            && m.sstables[id].max_expire < i64::MAX,
{
    lemma_expired_ids(m, now, m.active.len() as int, id);
    assert(m.active.take(m.active.len() as int) =~= m.active);
}

proof fn lemma_expired_ids(m: ManifestView, now: i64, k: int, id: u32)
    requires
        0 <= k <= m.active.len(),
    ensures
        expired_ids(m, now, k).contains(id) <==> m.active.take(k).contains(id)
            && m.sstables.contains_key(id) && m.sstables[id].max_expire <= now
            && m.sstables[id].max_expire < i64::MAX,
    decreases k,
{
    if k > 0 {
        let x = m.active[k - 1];
        let before = expired_ids(m, now, k - 1);
        let all = expired_ids(m, now, k);
        lemma_expired_ids(m, now, k - 1, id);
        assert(m.active.take(k) =~= m.active.take(k - 1).push(x));
        let a = m.active.take(k - 1);
        let b = m.active.take(k);
        assert(b.contains(id) <==> a.contains(id) || id == x) by {
            if a.contains(id) {
                let i = choose|i: int| 0 <= i < a.len() && a[i] == id;
                assert(b[i] == id);
            }
            if id == x {
                assert(b[k - 1] == id);
            }
            if b.contains(id) {
                let i = choose|i: int| 0 <= i < b.len() && b[i] == id;
                if i < k - 1 {
                    assert(a[i] == id);
                }
            }
        }
        if all != before {
            assert(all == before.push(x));
            assert(all.contains(id) <==> before.contains(id) || id == x) by {
                if before.contains(id) {
                    let i = choose|i: int| 0 <= i < before.len() && before[i] == id;
                    assert(all[i] == id);
                }
                assert(all[all.len() - 1] == x);
                if all.contains(id) {
                    let i = choose|i: int| 0 <= i < all.len() && all[i] == id;
                    if i < before.len() {
                        assert(before[i] == id);
                    }
                }
            }
        }
    }
}

/// A flush that has nothing left to write leaves nothing in memory that is not
/// being flushed.
pub proof fn law_flushed_engine_has_nothing_left(v: EngineView)
    ensures
        v.tables_to_flush() == 0 <==> v.mem.active.len() == 0 && v.mem.frozen.len() == 0,
{
}

/// The greatest number of entries is that of one of them, and that of none is
/// greater.
pub proof fn law_greatest_number(s: Seq<Entry>)
    ensures
        forall|i: int| 0 <= i < s.len() ==> (#[trigger] s[i]).seq <= max_seq_of(s),
        s.len() > 0 ==> exists|i: int| 0 <= i < s.len() && (#[trigger] s[i]).seq == max_seq_of(s),
        s.len() == 0 ==> max_seq_of(s) == 0,
    decreases s.len(),
{
    if s.len() > 0 {
        let t = s.drop_last();
        law_greatest_number(t);
        assert forall|i: int| 0 <= i < s.len() implies (#[trigger] s[i]).seq <= max_seq_of(s) by {
            if i < t.len() {
                assert(t[i] == s[i]);
            }
        }
        if s.last().seq > max_seq_of(t) {
            assert(s[s.len() - 1].seq == max_seq_of(s));
        } else if t.len() > 0 {
            let i = choose|i: int| 0 <= i < t.len() && (#[trigger] t[i]).seq == max_seq_of(t);
            assert(s[i].seq == max_seq_of(s));
        } else {
            assert(s[0].seq == max_seq_of(s));
        }
    }
}

/// The first number after a restart is greater than every number in the log and
/// than all that was flushed, and starts the million of the next SST where that
/// is more.
pub proof fn law_numbers_go_on_after_a_restart(m: ManifestView, log: Seq<Entry>)
    ensures
        forall|i: int| 0 <= i < log.len() ==> (#[trigger] log[i]).seq < first_seq(m, log),
        m.last_flushed_seq < first_seq(m, log),
        first_seq(m, log) >= (m.max_id() + 1) * 1_000_000,
        first_seq(m, log) == (m.max_id() + 1) * 1_000_000 || first_seq(m, log)
            == m.last_flushed_seq + 1 || first_seq(m, log) == max_seq_of(log) + 1,
{
    law_greatest_number(log);
}

/// The highest number of an SST is that of one of them, and that of none is
/// higher; without any it is zero. So the next number belongs to none.
pub proof fn law_highest_number_of_an_sst(m: ManifestView)
    ensures
        forall|id: u32| #[trigger] m.active.contains(id) ==> id <= m.max_id(),
        m.max_id() > 0 ==> m.active.contains(m.max_id()),
        m.max_id() < u32::MAX ==> !m.active.contains((m.max_id() + 1) as u32),
{
    lemma_max_of(m.active);
}

/// A compaction is not made before there are as many SSTs as the threshold says.
pub proof fn law_compaction_waits_for_the_threshold(
    v: EngineView,
    config: Config,
    r: Result<Option<CompactionPlan>>,
)
    requires
        v.manifest.max_id() < u32::MAX,
        v.manifest.active.len() < config.compaction_threshold,
        compaction_planned(v, config, r),
    ensures
        r is Ok,
        r->Ok_0 is None,
{
}

/// A plan for a compaction removes what it merges, in an SST with the next
/// number where anything is left.
pub proof fn law_plan_is_made_at_the_threshold(
    v: EngineView,
    config: Config,
    plan: CompactionPlan,
)
    requires
        v.manifest.max_id() < u32::MAX,
        compaction_planned(v, config, Ok(Some(plan))),
    ensures
        v.manifest.active.len() >= config.compaction_threshold,
        plan.removed@.len() > 0,
        forall|id: u32| #[trigger] plan.removed@.contains(id) ==> v.manifest.active.contains(id),
        plan.added is Some ==> plan.added->0.info.id == v.manifest.max_id() + 1,
{
    let runner = CompactionRunner {
        block_size: config.block_size,
        bloom_bits_per_key: config.bloom_bits_per_key,
        compaction_threshold: config.compaction_threshold,
    };
    let (sized, n) = choose|sized: Seq<(u32, u64)>, n: int| #[trigger]
        picks(sized, n) && is_by_size(sized, v.manifest) && runner.comes_to(
            widened(v.manifest.active, ids_of(sized.subrange(0, n))),
            v.manifest,
            v.readers,
            (v.manifest.max_id() + 1) as u32,
            v.now,
            Ok(Some(plan)),
        );
    let picked = ids_of(sized.subrange(0, n));
    assert(plan.removed@ == widened(v.manifest.active, picked));
    assert forall|id: u32| #[trigger] plan.removed@.contains(id) implies v.manifest.active.contains(
        id,
    ) by {
        lemma_filter_contains(
            v.manifest.active,
            from_lowest(picked),
            id,
        );
    }
}

proof fn lemma_latest_of(s: Seq<Entry>, stands: spec_fn(Entry) -> bool, key: Seq<u8>, now: i64)
    ensures
        match latest_of(s, stands, key, now) {
            Some(e) => s.contains(e) && is_live_put(e, key, now) && stands(e) && forall|i: int|
                0 <= i < s.len() && is_live_put(#[trigger] s[i], key, now) && stands(s[i])
                    ==> not_later(s[i], e),
            None => forall|i: int|
                0 <= i < s.len() ==> !(is_live_put(#[trigger] s[i], key, now) && stands(s[i])),
        },
    decreases s.len(),
{
    if s.len() > 0 {
        let t = s.drop_last();
        let x = s.last();
        lemma_latest_of(t, stands, key, now);
        let rest = latest_of(t, stands, key, now);
        assert(s[s.len() - 1] == x);
        if let Some(e) = latest_of(s, stands, key, now) {
            if rest == Some(e) && t.contains(e) {
                let i = choose|i: int| 0 <= i < t.len() && t[i] == e;
                assert(s[i] == e);
            }
            assert forall|i: int|
                0 <= i < s.len() && is_live_put(#[trigger] s[i], key, now) && stands(s[i]) implies
                not_later(s[i], e) by {
                if i < t.len() {
                    assert(t[i] == s[i]);
                }
            }
        } else {
            assert forall|i: int| 0 <= i < s.len() implies !(is_live_put(
                #[trigger] s[i],
                key,
                now,
            ) && stands(s[i])) by {
                if i < t.len() {
                    assert(t[i] == s[i]);
                }
            }
        }
    }
}

/// A later entry deletes a version: it is a deletion of the same key and time,
/// or of a range with the key in it.
pub open spec fn is_deleted_by(e: Entry, d: Entry) -> bool {
    d.seq > e.seq && (d.op == Op::Delete && d.key == e.key && d.ts == e.ts || covers(d, e.key))
}

/// The latest of a key in a memtable is a put of the key that has not expired and
/// that no later entry deletes, and no other such put has a greater time. There
/// is none exactly where there is no such put.
pub proof fn law_latest_in_a_memtable(s: Seq<Entry>, key: Seq<u8>, now: i64)
    ensures
        match latest(s, key, now) {
            Some(e) => {
                &&& s.contains(e)
                &&& e.op == Op::Put && e.key == key && (e.expire_at > now || e.expire_at
                    == i64::MAX)
                &&& forall|i: int| 0 <= i < s.len() ==> !is_deleted_by(e, #[trigger] s[i])
                &&& forall|f: Entry| #[trigger]
                    s.contains(f) && f.op == Op::Put && f.key == key && (f.expire_at > now
                        || f.expire_at == i64::MAX) && (forall|i: int|
                        0 <= i < s.len() ==> !is_deleted_by(f, #[trigger] s[i])) ==> f.ts < e.ts
                        || (f.ts == e.ts && f.seq <= e.seq)
            },
            None => forall|f: Entry| #[trigger]
                s.contains(f) && f.op == Op::Put && f.key == key && (f.expire_at > now
                    || f.expire_at == i64::MAX) ==> exists|i: int|
                    0 <= i < s.len() && is_deleted_by(f, #[trigger] s[i]),
        },
{
    let stands = |e: Entry| !removed(s, e);
    lemma_latest_of(s, stands, key, now);
    assert forall|e: Entry| #[trigger] removed(s, e) <==> exists|i: int|
        0 <= i < s.len() && is_deleted_by(e, #[trigger] s[i]) by {
        if removed(s, e) {
            let i = choose|i: int|
                0 <= i < s.len() && removes(#[trigger] s[i], e);
            assert(is_deleted_by(e, s[i]));
        }
        if exists|i: int| 0 <= i < s.len() && is_deleted_by(e, #[trigger] s[i]) {
            let i = choose|i: int| 0 <= i < s.len() && is_deleted_by(e, #[trigger] s[i]);
            assert(removes(s[i], e));
        }
    }
    match latest(s, key, now) {
        Some(e) => {
            assert(!removed(s, e));
            assert forall|f: Entry| #[trigger]
                s.contains(f) && f.op == Op::Put && f.key == key && (f.expire_at > now
                    || f.expire_at == i64::MAX) && (forall|i: int|
                    0 <= i < s.len() ==> !is_deleted_by(f, #[trigger] s[i])) implies f.ts < e.ts
                || (f.ts == e.ts && f.seq <= e.seq) by {
                let i = choose|i: int| 0 <= i < s.len() && s[i] == f;
                assert(!removed(s, f));
                assert(is_live_put(s[i], key, now) && stands(s[i]));
            }
        },
        None => {
            assert forall|f: Entry| #[trigger]
                s.contains(f) && f.op == Op::Put && f.key == key && (f.expire_at > now
                    || f.expire_at == i64::MAX) implies exists|i: int|
                0 <= i < s.len() && is_deleted_by(f, #[trigger] s[i]) by {
                let i = choose|i: int| 0 <= i < s.len() && s[i] == f;
                assert(is_live_put(s[i], key, now));
                assert(removed(s, f));
            }
        },
    }
}

/// The latest of a key in memory is a put of the key that has not expired and
/// that no later entry of any memtable deletes, and no other such put has a
/// greater time. There is none exactly where there is no such put.
pub proof fn law_latest_in_memory(m: MemView, key: Seq<u8>, now: i64)
    ensures
        match m.latest(key, now) {
            Some(e) => {
                &&& m.all().contains(e)
                &&& e.op == Op::Put && e.key == key && (e.expire_at > now || e.expire_at
                    == i64::MAX)
                &&& forall|d: Entry| #[trigger] m.all().contains(d) ==> !is_deleted_by(e, d)
                &&& forall|f: Entry| #[trigger]
                    m.all().contains(f) && f.op == Op::Put && f.key == key && (f.expire_at > now
                        || f.expire_at == i64::MAX) && (forall|d: Entry| #[trigger]
                        m.all().contains(d) ==> !is_deleted_by(f, d)) ==> f.ts < e.ts || (f.ts
                        == e.ts && f.seq <= e.seq)
            },
            None => forall|f: Entry| #[trigger]
                m.all().contains(f) && f.op == Op::Put && f.key == key && (f.expire_at > now
                    || f.expire_at == i64::MAX) ==> exists|d: Entry| #[trigger]
                    m.all().contains(d) && is_deleted_by(f, d),
        },
{
    let s = m.all();
    lemma_latest_of(s, m.stands(), key, now);
    assert forall|e: Entry| #[trigger] m.removes(e) <==> exists|d: Entry| #[trigger]
        s.contains(d) && is_deleted_by(e, d) by {
        if m.removes(e) {
            let i = choose|i: int| 0 <= i < m.tables().len() && removed(#[trigger] m.tables()[i], e);
            let t = m.tables()[i];
            let j = choose|j: int| 0 <= j < t.len() && removes(#[trigger] t[j], e);
            assert(t.contains(t[j]));
            lemma_flatten_contains(m.tables(), t[j]);
            assert(s.contains(t[j]) && is_deleted_by(e, t[j]));
        }
        if exists|d: Entry| #[trigger] s.contains(d) && is_deleted_by(e, d) {
            let d = choose|d: Entry| #[trigger] s.contains(d) && is_deleted_by(e, d);
            lemma_flatten_contains(m.tables(), d);
            let i = choose|i: int| 0 <= i < m.tables().len() && (#[trigger] m.tables()[i]).contains(
                d,
            );
            let t = m.tables()[i];
            let j = choose|j: int| 0 <= j < t.len() && t[j] == d;
            assert(removes(t[j], e));
            assert(removed(m.tables()[i], e));
        }
    }
    match m.latest(key, now) {
        Some(e) => {
            assert(!m.removes(e));
            assert forall|f: Entry| #[trigger]
                s.contains(f) && f.op == Op::Put && f.key == key && (f.expire_at > now
                    || f.expire_at == i64::MAX) && (forall|d: Entry| #[trigger]
                    s.contains(d) ==> !is_deleted_by(f, d)) implies f.ts < e.ts || (f.ts == e.ts
                && f.seq <= e.seq) by {
                let i = choose|i: int| 0 <= i < s.len() && s[i] == f;
                assert(!m.removes(f));
                assert(is_live_put(s[i], key, now) && (m.stands())(s[i]));
            }
        },
        None => {
            assert forall|f: Entry| #[trigger]
                s.contains(f) && f.op == Op::Put && f.key == key && (f.expire_at > now
                    || f.expire_at == i64::MAX) implies exists|d: Entry| #[trigger]
                s.contains(d) && is_deleted_by(f, d) by {
                let i = choose|i: int| 0 <= i < s.len() && s[i] == f;
                assert(is_live_put(s[i], key, now));
                assert(m.removes(f));
            }
        },
    }
}

/// A query of a memtable gives an entry exactly if it is there, its key is let
/// through, its time is in the range and it has not expired.
pub proof fn law_memtable_query_gives_what_is_asked_for(
    s: Seq<Entry>,
    filter: KeyFilterView,
    times: Option<(i64, i64)>,
    now: i64,
    e: Entry,
)
    ensures
        selected(s, filter, times, now).contains(e) <==> s.contains(e) && (match filter {
            KeyFilterView::Prefix(p) => exists|rest: Seq<u8>| e.key == #[trigger] (p + rest),
            KeyFilterView::Range { start, end } => lex_le(start, e.key) && lex_le(e.key, end),
            KeyFilterView::All => true,
        }) && (match times {
            Some((from, to)) => from <= e.ts && e.ts <= to,
            None => true,
        }) && (e.expire_at > now || e.expire_at == i64::MAX),
{
    lemma_filter_contains(s, |e: Entry| passes(e, filter, times, now), e);
    if let KeyFilterView::Prefix(p) = filter {
        law_prefix_is_a_beginning(e.key, p);
    }
}

/// What an entry is taken to occupy: 31 bytes with its key and its value, and
/// with two bytes more its range end.
pub proof fn law_size_of_an_entry(e: Entry)
    ensures
        e.range_end is None ==> entry_size(e) == e.key.len() + e.value.len() + 31,
        e.range_end is Some ==> entry_size(e) == e.key.len() + e.value.len()
            + e.range_end->0.len() + 33,
{
}

/// The sum of the sizes of entries.
pub open spec fn sum_of_sizes(s: Seq<Entry>) -> int
    decreases s.len(),
{
    if s.len() == 0 {
        0
    } else {
        entry_size(s.first()) + sum_of_sizes(s.drop_first())
    }
}

proof fn lemma_sizes_push(s: Seq<Entry>, e: Entry)
    ensures
        sum_of_sizes(s.push(e)) == sum_of_sizes(s) + entry_size(e),
        sum_of_sizes(s) >= 0,
    decreases s.len(),
{
    if s.len() == 0 {
        assert(s.push(e).drop_first() =~= s);
        assert(s.push(e).first() == e);
    } else {
        lemma_sizes_push(s.drop_first(), e);
        assert(s.push(e).drop_first() =~= s.drop_first().push(e));
        assert(s.push(e).first() == s.first());
    }
}

/// A memtable grows by the sizes of the entries that it gets, as far as a size
/// can be counted.
pub proof fn law_memtable_grows_by_its_entries(size: usize, s: Seq<Entry>)
    ensures
        grown_size(size, s) as int == if size + sum_of_sizes(s) <= usize::MAX {
            size + sum_of_sizes(s)
        } else {
            usize::MAX as int
        },
    decreases s.len(),
{
    if s.len() > 0 {
        let t = s.drop_last();
        law_memtable_grows_by_its_entries(size, t);
        lemma_sizes_push(t, s.last());
        assert(s =~= t.push(s.last()));
    }
}

/// The pieces of a list make up the list; all are as long as they may be but the
/// last, and none is empty.
pub proof fn law_pieces_make_up_the_whole(s: Seq<Entry>, n: int)
    requires
        n > 0,
    ensures
        chunks(s, n).flatten() == s,
        forall|i: int| 0 <= i < chunks(s, n).len() ==> 0 < (#[trigger] chunks(s, n)[i]).len() <= n,
        forall|i: int| 0 <= i < chunks(s, n).len() - 1 ==> (#[trigger] chunks(s, n)[i]).len() == n,
    decreases s.len(),
{
    let c = chunks(s, n);
    if s.len() == 0 {
        assert(c.flatten() =~= s);
    } else if s.len() <= n {
        assert(c.drop_first().flatten() =~= Seq::<Entry>::empty());
        assert(c.flatten() == c.first() + c.drop_first().flatten());
        assert(c.flatten() =~= s);
    } else {
        let a = s.subrange(0, n);
        let b = s.subrange(n, s.len() as int);
        law_pieces_make_up_the_whole(b, n);
        let rest = chunks(b, n);
        assert(c.first() == a);
        assert(c.drop_first() =~= rest);
        assert(c.flatten() == c.first() + c.drop_first().flatten());
        assert(c.flatten() =~= s);
        assert forall|i: int| 0 <= i < c.len() implies 0 < (#[trigger] c[i]).len() <= n by {
            if i > 0 {
                assert(c[i] == rest[i - 1]);
            }
        }
        assert forall|i: int| 0 <= i < c.len() - 1 implies (#[trigger] c[i]).len() == n by {
            if i > 0 {
                assert(c[i] == rest[i - 1]);
            }
        }
    }
}

/// A flush adds its SST to the manifest with its blocks, and leaves all others
/// as they are.
pub proof fn law_manifest_knows_what_was_flushed(
    m: ManifestView,
    seq: u64,
    sst: SstInfoView,
    blocks: Seq<BlockInfoView>,
    id: u32,
)
    ensures
        ({
            let after = m.applied(EntryView::Flush { seq, sst, blocks });
            &&& after.active.contains(sst.id)
            &&& after.sstables.contains_key(sst.id) && after.sstables[sst.id] == sst
            &&& after.block_infos.contains_key(sst.id) && after.block_infos[sst.id] == blocks
            &&& after.last_flushed_seq >= seq && after.last_flushed_seq >= m.last_flushed_seq
            &&& after.last_flushed_seq == seq || after.last_flushed_seq == m.last_flushed_seq
            &&& id != sst.id ==> (after.active.contains(id) <==> m.active.contains(id))
            &&& id != sst.id ==> (after.sstables.contains_key(id) <==> m.sstables.contains_key(id))
            &&& id != sst.id && m.sstables.contains_key(id) ==> after.sstables[id]
                == m.sstables[id]
        }),
{
    let after = m.applied(EntryView::Flush { seq, sst, blocks });
    if !m.active.contains(sst.id) {
        let t = m.active.push(sst.id);
        assert(after.active == t);
        assert(t[t.len() - 1] == sst.id);
        if m.active.contains(id) {
            let i = choose|i: int| 0 <= i < m.active.len() && m.active[i] == id;
            assert(t[i] == id);
        }
        if t.contains(id) && id != sst.id {
            let i = choose|i: int| 0 <= i < t.len() && t[i] == id;
            assert(m.active[i] == id);
        }
    }
}

/// A removal takes its SST out of the manifest, and leaves all others as they
/// are.
pub proof fn law_manifest_forgets_what_was_removed(m: ManifestView, gone: u32, id: u32)
    ensures
        forall|e: EntryView|
            e == (EntryView::DeleteSst { sst_id: gone }) || e == (EntryView::GcDeleteSst {
                sst_id: gone,
            }) ==> {
                let after = #[trigger] m.applied(e);
                &&& !after.active.contains(gone)
                &&& !after.sstables.contains_key(gone)
                &&& !after.block_infos.contains_key(gone)
                &&& after.last_flushed_seq == m.last_flushed_seq
                &&& id != gone ==> (after.active.contains(id) <==> m.active.contains(id))
                &&& id != gone ==> (after.sstables.contains_key(id) <==> m.sstables.contains_key(
                    id,
                ))
                &&& id != gone && m.sstables.contains_key(id) ==> after.sstables[id]
                    == m.sstables[id]
            },
{
    lemma_filter_contains(m.active, other_than(gone), gone);
    lemma_filter_contains(m.active, other_than(gone), id);
}

proof fn lemma_without_all(m: ManifestView, ids: Seq<u32>, id: u32)
    ensures
        m.without_all(ids).active.contains(id) <==> m.active.contains(id) && !ids.contains(id),
        m.without_all(ids).sstables.contains_key(id) <==> m.sstables.contains_key(id)
            && !ids.contains(id),
        m.without_all(ids).sstables.contains_key(id) ==> m.without_all(ids).sstables[id]
            == m.sstables[id],
        m.without_all(ids).last_flushed_seq == m.last_flushed_seq,
    decreases ids.len(),
{
    if ids.len() > 0 {
        let t = ids.drop_last();
        let x = ids.last();
        lemma_without_all(m, t, id);
        lemma_filter_contains(m.without_all(t).active, other_than(x), id);
        assert(ids.contains(id) <==> t.contains(id) || id == x) by {
            assert(ids[ids.len() - 1] == x);
            if t.contains(id) {
                let i = choose|i: int| 0 <= i < t.len() && t[i] == id;
                assert(ids[i] == id);
            }
            if ids.contains(id) && id != x {
                let i = choose|i: int| 0 <= i < ids.len() && ids[i] == id;
                assert(t[i] == id);
            }
        }
    }
}

/// A compaction takes the SSTs that it merged out of the manifest and puts the
/// new one in, and leaves all others as they are.
pub proof fn law_manifest_knows_what_was_merged(
    m: ManifestView,
    gone: Seq<u32>,
    sst: SstInfoView,
    blocks: Seq<BlockInfoView>,
    id: u32,
)
    ensures
        ({
            let after = m.applied(
                EntryView::Compaction {
                    removed: gone,
                    added: seq![sst],
                    blocks: seq![(sst.id, blocks)],
                },
            );
            &&& after.active.contains(id) <==> id == sst.id || m.active.contains(id)
                && !gone.contains(id)
            &&& after.sstables.contains_key(sst.id) && after.sstables[sst.id] == sst
            &&& after.block_infos.contains_key(sst.id) && after.block_infos[sst.id] == blocks
            &&& id != sst.id ==> (after.sstables.contains_key(id) <==> m.sstables.contains_key(id)
                && !gone.contains(id))
            &&& id != sst.id && after.sstables.contains_key(id) ==> after.sstables[id]
                == m.sstables[id]
            &&& after.last_flushed_seq == m.last_flushed_seq
        }),
{
    let less = m.without_all(gone);
    lemma_without_all(m, gone, id);
    let one = seq![sst];
    let lists = seq![(sst.id, blocks)];
    assert(one.drop_last() =~= Seq::<SstInfoView>::empty());
    assert(lists.drop_last() =~= Seq::<(u32, Seq<BlockInfoView>)>::empty());
    assert(less.with_ssts(one.drop_last()) == less);
    let more = less.with_sst(sst);
    assert(less.with_ssts(one) == more);
    assert(more.with_block_lists(lists.drop_last()) == more);
    let after = more.with_blocks(sst.id, blocks);
    assert(more.with_block_lists(lists) == after);
    if !less.active.contains(sst.id) {
        let t = less.active.push(sst.id);
        assert(t[t.len() - 1] == sst.id);
        if less.active.contains(id) {
            let i = choose|i: int| 0 <= i < less.active.len() && less.active[i] == id;
            assert(t[i] == id);
        }
        if t.contains(id) && id != sst.id {
            let i = choose|i: int| 0 <= i < t.len() && t[i] == id;
            assert(less.active[i] == id);
        }
    }
}

/// A new filter replaces that of its SST alone; a checkpoint raises the number
/// up to which everything is flushed, and never lowers it.
pub proof fn law_manifest_keeps_its_ssts(m: ManifestView, e: EntryView, id: u32)
    requires
        e is UpdateBloom || e is Checkpoint,
    ensures
        m.applied(e).active == m.active,
        m.applied(e).block_infos == m.block_infos,
        m.applied(e).sstables.contains_key(id) <==> m.sstables.contains_key(id),
        m.sstables.contains_key(id) && !(e is UpdateBloom && e->UpdateBloom_sst_id == id)
            ==> m.applied(e).sstables[id] == m.sstables[id],
        e is UpdateBloom && m.sstables.contains_key(e->UpdateBloom_sst_id) ==> m.applied(
            e,
        ).sstables[e->UpdateBloom_sst_id] == (SstInfoView {
            bloom: Some(e->bloom),
            ..m.sstables[e->UpdateBloom_sst_id]
        }),
        e is Checkpoint ==> m.applied(e).last_flushed_seq >= m.last_flushed_seq && m.applied(
            e,
        ).last_flushed_seq >= e->last_flushed_seq && (m.applied(e).last_flushed_seq
            == m.last_flushed_seq || m.applied(e).last_flushed_seq == e->last_flushed_seq),
{
}

/// What is replayed of a log from a number on is what has a greater number, in
/// the order of the log.
pub proof fn law_replay_starts_after_the_number(data: Seq<u8>, after: u64, e: Entry)
    ensures
        replayed(data, 0).filter(numbered_above(after)).contains(e) <==> replayed(
            data,
            0,
        ).contains(e) && e.seq > after,
{
    lemma_filter_contains(replayed(data, 0), numbered_above(after), e);
}

/// What is said of an error: what was noted with it; of a damaged file its name
/// and what is wrong with it.
pub proof fn law_message_says_what_is_wrong(e: FlowError)
    ensures
        match e@ {
            FlowErrorView::Config(m) => e.message_text() == m,
            FlowErrorView::JsonDb(m) => e.message_text() == m,
            FlowErrorView::Json(m) => e.message_text() == m,
            FlowErrorView::Other(m) => e.message_text() == m,
            FlowErrorView::Corruption { file, msg } => exists|between: Seq<char>|
                e.message_text() == #[trigger] (file + between + msg),
            FlowErrorView::InvalidMagic { expected, actual } => exists|
                a: Seq<char>,
                b: Seq<char>,
            |
                e.message_text() == #[trigger] (a + decimal(expected as nat) + b + decimal(
                    actual as nat,
                )),
            FlowErrorView::BlockNotFound { sst_id, block_idx } => exists|
                a: Seq<char>,
                b: Seq<char>,
            |
                e.message_text() == #[trigger] (a + decimal(block_idx as nat) + b + decimal(
                    sst_id as nat,
                )),
        },
{
    match e@ {
        FlowErrorView::Corruption { file, msg } => {
            assert(e.message_text() == file + ": "@ + msg);
        },
        FlowErrorView::InvalidMagic { expected, actual } => {
            let a = "invalid magic: expected "@;
            assert(e.message_text() == a + decimal(expected as nat) + ", found "@ + decimal(
                actual as nat,
            ));
        },
        FlowErrorView::BlockNotFound { sst_id, block_idx } => {
            let a = "block "@;
            assert(e.message_text() == a + decimal(block_idx as nat) + " not found in sst "@
                + decimal(sst_id as nat));
        },
        _ => {},
    }
}

} // verus!
