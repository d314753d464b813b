//! Garbage collection changes no read.

use vstd::prelude::*;

use crate::compaction::sums_up;
use crate::compaction_laws::{law_collecting_expired_ssts_keeps_reads_in_step, ranges_agree};
use crate::engine::{expired_ids, EngineView};
use crate::manifest::{BlockInfoView, ManifestView, SstInfoView};
use crate::memtables::lemma_flatten_contains;
use crate::record::{live_at, Entry, RecordView, ScanRangeView};
use crate::sst_laws::ssts_hold;
use crate::sstable::{chunks, is_sst, lemma_chunks_flatten};

verus! {

/// `info` sums up the blocks of the SST that holds the entries `s`.
pub open spec fn is_summary(
    info: SstInfoView,
    s: Seq<Entry>,
    cap: int,
    bs: Seq<BlockInfoView>,
    data: Seq<u8>,
) -> bool {
    cap > 0 && is_sst(s, cap, bs, data) && sums_up(info, bs)
}

/// The manifest sums up every SST.
pub open spec fn summed_up(m: ManifestView, c: Map<u32, Seq<Entry>>) -> bool {
    forall|id: u32| #[trigger]
        c.contains_key(id) ==> m.sstables.contains_key(id) && exists|
            cap: int,
            bs: Seq<BlockInfoView>,
            data: Seq<u8>,
        | #[trigger]
            is_summary(m.sstables[id], c[id], cap, bs, data)
}

/// Where the summary of an SST has expired, so has everything in it.
pub proof fn law_expired_summary_covers_every_entry(
    info: SstInfoView,
    s: Seq<Entry>,
    cap: int,
    bs: Seq<BlockInfoView>,
    data: Seq<u8>,
    now: i64,
    e: Entry,
)
    requires
        is_summary(info, s, cap, bs, data),
        !live_at(info.max_expire, now),
        s.contains(e),
    ensures
        !live_at(e.expire_at, now),
{
    let blocks = chunks(s, cap);
    lemma_chunks_flatten(s, cap);
    lemma_flatten_contains(blocks, e);
    let k = choose|k: int| 0 <= k < blocks.len() && #[trigger] blocks[k].contains(e);
    let i = choose|i: int| 0 <= i < blocks[k].len() && blocks[k][i] == e;
    assert(e.expire_at <= bs[k].max_expire);
    assert(bs[k].max_expire <= info.max_expire);
}

/// `b` gives the reads that `a` gives.
pub open spec fn same_reads(a: EngineView, b: EngineView) -> bool {
    &&& forall|key: Seq<u8>, ts: i64| #[trigger] b.point(key, ts) == a.point(key, ts)
    &&& forall|range: ScanRangeView, r: RecordView| #[trigger]
        b.range_scan(range).records().contains(r) <==> a.range_scan(range).records().contains(r)
}

/// Several SSTs in which everything has expired are dropped one after another.
proof fn lemma_drop_expired(v: EngineView, c: Map<u32, Seq<Entry>>, ids: Seq<u32>)
    requires
        v.in_step(),
        ssts_hold(v, c),
        ids.no_duplicates(),
        forall|id: u32| #[trigger] ids.contains(id) ==> c.contains_key(id),
        forall|id: u32, e: Entry|
            ids.contains(id) && #[trigger] c[id].contains(e) ==> !live_at(e.expire_at, v.now),
        forall|id: u32, key: Seq<u8>| #[trigger] v.index.deletes(id, key) ==> !ids.contains(id),
    ensures
        forall|id: u32, key: Seq<u8>| #[trigger]
            v.without_ssts(ids).index.deletes(id, key) ==> v.index.deletes(id, key),
        v.without_ssts(ids).in_step(),
        ssts_hold(v.without_ssts(ids), c.remove_keys(ids.to_set())),
        same_reads(v, v.without_ssts(ids)),
        v.without_ssts(ids).now == v.now,
    decreases ids.len(),
{
    if ids.len() == 0 {
        assert(c.remove_keys(ids.to_set()) =~= c);
    } else {
        let t = ids.drop_last();
        let x = ids.last();
        assert forall|id: u32| #[trigger] t.contains(id) implies ids.contains(id) by {
            let i = choose|i: int| 0 <= i < t.len() && t[i] == id;
            assert(ids[i] == id);
        }
        lemma_drop_expired(v, c, t);
        let w = v.without_ssts(t);
        let d = c.remove_keys(t.to_set());
        assert(ids[ids.len() - 1] == x);
        assert(ids.contains(x));
        assert(!t.contains(x)) by {
            if t.contains(x) {
                let i = choose|i: int| 0 <= i < t.len() && t[i] == x;
                assert(ids[i] == ids[ids.len() - 1]);
            }
        }
        assert(d.contains_key(x) && d[x] == c[x]);
        law_collecting_expired_ssts_keeps_reads_in_step(w, d, x);
        assert(v.without_ssts(ids) == w.without_sst(x));
        assert forall|id: u32, key: Seq<u8>| #[trigger]
            v.without_ssts(ids).index.deletes(id, key) implies v.index.deletes(id, key) by {
            assert(w.index.deletes(id, key));
        }
        assert(d.remove(x) =~= c.remove_keys(ids.to_set())) by {
            assert forall|id: u32| #[trigger] ids.contains(id) <==> t.contains(id) || id == x by {
                if ids.contains(id) {
                    let i = choose|i: int| 0 <= i < ids.len() && ids[i] == id;
                    if i < t.len() {
                        assert(t[i] == id);
                    }
                }
            }
        }
    }
}

/// The expired SSTs are among the active ones, each once.
proof fn lemma_expired_ids(m: ManifestView, now: i64, k: int)
    requires
        0 <= k <= m.active.len(),
        m.active.no_duplicates(),
    ensures
        expired_ids(m, now, k).no_duplicates(),
        forall|id: u32| #[trigger]
            expired_ids(m, now, k).contains(id) ==> m.active.subrange(0, k).contains(id)
                && m.sstables.contains_key(id) && !live_at(m.sstables[id].max_expire, now),
    decreases k,
{
    if k > 0 {
        let id = m.active[k - 1];
        let before = expired_ids(m, now, k - 1);
        let prev = m.active.subrange(0, k - 1);
        let first = m.active.subrange(0, k);
        lemma_expired_ids(m, now, k - 1);
        assert forall|x: u32| prev.contains(x) implies #[trigger] first.contains(x) && x != id by {
            let j = choose|j: int| 0 <= j < prev.len() && prev[j] == x;
            assert(first[j] == x);
            assert(m.active[j] == x);
        }
        assert(first[k - 1] == id);
        assert(!before.contains(id)) by {
            if before.contains(id) {
                assert(prev.contains(id));
                assert(first.contains(id));
            }
        }
        let now_ids = expired_ids(m, now, k);
        assert forall|x: u32| #[trigger] now_ids.contains(x) implies before.contains(x) || (x == id
            && m.sstables.contains_key(id) && !live_at(m.sstables[id].max_expire, now)) by {
            let j = choose|j: int| 0 <= j < now_ids.len() && now_ids[j] == x;
            if j < before.len() {
                assert(before[j] == x);
            }
        }
        assert forall|x: u32| #[trigger] now_ids.contains(x) implies first.contains(x) by {
            if before.contains(x) {
                assert(prev.contains(x));
            }
        }
    }
}

/// Garbage collection drops only SSTs in which everything has expired, and
/// changes no read.
pub proof fn law_garbage_collection_keeps_reads_in_step(v: EngineView, c: Map<u32, Seq<Entry>>)
    requires
        v.in_step(),
        ssts_hold(v, c),
        ranges_agree(v.index, v.manifest),
        summed_up(v.manifest, c),
        v.manifest.active.no_duplicates(),
        forall|id: u32| #[trigger] v.manifest.active.contains(id) ==> c.contains_key(id),
    ensures
        ({
            let ids = expired_ids(v.manifest, v.now, v.manifest.active.len() as int);
            let w = v.without_ssts(ids);
            &&& w.in_step()
            &&& ssts_hold(w, c.remove_keys(ids.to_set()))
            &&& same_reads(v, w)
        }),
{
    let m = v.manifest;
    let ids = expired_ids(m, v.now, m.active.len() as int);
    lemma_expired_ids(m, v.now, m.active.len() as int);
    assert(m.active.subrange(0, m.active.len() as int) =~= m.active);
    assert forall|id: u32| #[trigger] ids.contains(id) implies c.contains_key(id) by {
        assert(m.active.contains(id));
    }
    assert forall|id: u32, e: Entry|
        ids.contains(id) && #[trigger] c[id].contains(e) implies !live_at(e.expire_at, v.now) by {
        assert(c.contains_key(id));
        let (cap, bs, data) = choose|cap: int, bs: Seq<BlockInfoView>, data: Seq<u8>| #[trigger]
            is_summary(m.sstables[id], c[id], cap, bs, data);
        law_expired_summary_covers_every_entry(m.sstables[id], c[id], cap, bs, data, v.now, e);
    }
    assert forall|id: u32, key: Seq<u8>| #[trigger] v.index.deletes(id, key) implies !ids.contains(
        id,
    ) by {
        assert(m.deletes(id, key));
        if ids.contains(id) {
            assert(c.contains_key(id));
            let (cap, bs, data) = choose|cap: int, bs: Seq<BlockInfoView>, data: Seq<u8>| #[trigger]
                is_summary(m.sstables[id], c[id], cap, bs, data);
            assert(m.sstables[id].ranges.len() > 0);
        }
    }
    lemma_drop_expired(v, c, ids);
}

} // verus!
