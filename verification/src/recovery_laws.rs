//! What was made durable is there again when an engine starts.

use vstd::prelude::*;

use crate::block_meta_index::MetaView;
use crate::bloom::{
    at_least_one, holds_keys, law_no_false_negatives, BloomView, CURRENT_HASH_VERSION,
};
use crate::bytes::{lex_le, lex_lt};
use crate::compaction::{known_records, CompactionPlan, CompactionRunner};
use crate::compaction_laws::{
    compacted, compacts_by, left, lemma_can_be_opened, lemma_hold_with, lemma_left,
    lemma_same_reads, lemma_same_ssts, merged_of, ranges_agree, same_found, shown_of,
};
use crate::engine::{
    filter_settled, flushed, found_in, index_of, is_stale, noted, readers_match, reads_file,
    stays_in, usable_file, with_found, EngineView, FlushJob, SstFile,
};
use crate::flush_laws::{can_be_stored, lemma_flushed};
use crate::flush_scan_laws::flushes_plainly;
use crate::manifest::{
    infos, lemma_max_of, other_than, BlockInfoView, EntryView, ManifestView, SstInfoView,
};
use crate::memtables::MemView;
use crate::order::{lemma_filter_contains, strictly_sorted};
use crate::ranges::masked;
use crate::read_laws::{law_replayed_log_restores_reads, live_on_top};
use crate::record::{live_at, Config, Entry, RecordView, ScanRangeView};
use crate::scan::readable;
use crate::sst_laws::{bare, finds, holds_sst, is_listed, lemma_finds_one, ssts_hold, stored_as};
use crate::sstable::{
    block_capacity, block_starts, chunks, is_sst, key_runs, keys_of, law_sst_reads_back,
    lemma_key_runs_complete, lemma_no_ranges_in, SstReader,
};
use crate::time_laws::{
    law_time_keeps_reads_in_step, law_what_is_live_is_read_later, law_what_is_live_is_scanned_later,
};

verus! {

/// SST `id` is on disk with the entries `s`: its file holds their bytes, and
/// the manifest lists its blocks and a filter that excludes none of their keys.
pub open spec fn kept_as(
    m: ManifestView,
    files: Seq<SstFile>,
    id: u32,
    s: Seq<Entry>,
    cap: int,
    bs: Seq<BlockInfoView>,
    data: Seq<u8>,
) -> bool {
    &&& cap > 0
    &&& strictly_sorted(s)
    &&& forall|e: Entry| #[trigger] s.contains(e) ==> !(e.op is DeleteRange)
    &&& is_sst(s, cap, bs, data)
    &&& can_be_stored(s, cap)
    &&& m.sstables.contains_key(id)
    &&& m.block_infos.contains_key(id)
    &&& m.block_infos[id] == bs
    &&& !is_stale(m, id)
    &&& m.sstables[id].bloom matches Some(b) ==> forall|e: Entry| #[trigger]
        s.contains(e) ==> b.reports(e.key)
    &&& block_starts(data, 0) is Ok
    &&& exists|i: int| #[trigger] usable_file(files, i, id)
    &&& forall|i: int| #[trigger] usable_file(files, i, id) ==> files[i].data@ == data
}

/// SST `id` is on disk with the entries `s`.
pub open spec fn is_kept(m: ManifestView, files: Seq<SstFile>, id: u32, s: Seq<Entry>) -> bool {
    exists|cap: int, bs: Seq<BlockInfoView>, data: Seq<u8>| #[trigger]
        kept_as(m, files, id, s, cap, bs, data)
}

/// In strictly rising order.
pub open spec fn rising(ids: Seq<u32>) -> bool {
    forall|i: int, j: int| 0 <= i < j < ids.len() ==> #[trigger] ids[i] < #[trigger] ids[j]
}

/// The SSTs on disk are those of `c`, and each holds what `c` says.
pub open spec fn disk_holds(
    m: ManifestView,
    files: Seq<SstFile>,
    c: Map<u32, Seq<Entry>>,
) -> bool {
    &&& rising(m.active)
    &&& forall|id: u32| #[trigger] c.contains_key(id) <==> m.active.contains(id)
    &&& forall|id: u32| #[trigger] c.contains_key(id) ==> is_kept(m, files, id, c[id])
}

/// The SSTs of `c` among the first `k` that are active.
spec fn among_first(c: Map<u32, Seq<Entry>>, ids: Seq<u32>, k: int) -> Map<u32, Seq<Entry>> {
    c.restrict(ids.subrange(0, k).to_set())
}

/// The first `k` SSTs are the first `k - 1` and the one after them.
proof fn lemma_among_first(c: Map<u32, Seq<Entry>>, ids: Seq<u32>, k: int)
    requires
        0 < k <= ids.len(),
        c.contains_key(ids[k - 1]),
    ensures
        among_first(c, ids, k) == among_first(c, ids, k - 1).insert(ids[k - 1], c[ids[k - 1]]),
{
    let id = ids[k - 1];
    let prev = ids.subrange(0, k - 1);
    let first = ids.subrange(0, k);
    assert forall|x: u32| #[trigger] first.contains(x) <==> prev.contains(x) || x == id by {
        if first.contains(x) {
            let j = choose|j: int| 0 <= j < first.len() && first[j] == x;
            if j < k - 1 {
                assert(prev[j] == x);
            }
        }
        if prev.contains(x) {
            let j = choose|j: int| 0 <= j < prev.len() && prev[j] == x;
            assert(first[j] == x);
        }
        assert(first[k - 1] == id);
    }
    assert(among_first(c, ids, k) =~= among_first(c, ids, k - 1).insert(id, c[id]));
}

/// Filters are kept for the SSTs that are in the index.
proof fn lemma_filters_are_listed(m: ManifestView, k: int, x: u32)
    requires
        0 <= k <= m.active.len(),
        index_of(m, k).blooms.contains_key(x),
    ensures
        m.active.subrange(0, k).contains(x),
    decreases k,
{
    if k > 0 {
        let first = m.active.subrange(0, k);
        assert(first[k - 1] == m.active[k - 1]);
        if x != m.active[k - 1] {
            lemma_filters_are_listed(m, k - 1, x);
            let prev = m.active.subrange(0, k - 1);
            let j = choose|j: int| 0 <= j < prev.len() && prev[j] == x;
            assert(first[j] == x);
        }
    }
}

/// The reader of an SST on disk reads the SST's bytes.
proof fn lemma_reader(
    readers: Map<u32, SstReader>,
    m: ManifestView,
    files: Seq<SstFile>,
    id: u32,
    s: Seq<Entry>,
    cap: int,
    bs: Seq<BlockInfoView>,
    data: Seq<u8>,
)
    requires
        readers_match(readers, files),
        kept_as(m, files, id, s, cap, bs, data),
    ensures
        readers.contains_key(id),
        EngineView::reads_sst(readers[id], id, data),
{
    let f = choose|f: int| #[trigger] usable_file(files, f, id);
    assert(readers.contains_key(id));
    let r = choose|r: int| reads_file(readers[id], files, r, id);
    assert(usable_file(files, r, id));
    assert(block_starts(data, 0)->Ok_0.len() == chunks(s, cap).len()) by {
        if chunks(s, cap).len() > 0 {
            law_sst_reads_back(s, cap, bs, data, id, 0);
        } else {
            assert(data =~= Seq::<u8>::empty());
        }
    }
    lemma_no_ranges_in(s, cap, bs, data, id, chunks(s, cap).len() as u32);
}

/// Where the SSTs on disk are of puts and deletions of single keys, no deleted key
/// range is found in them, and the manifest stays as it is.
pub proof fn law_recovered_manifest_is_the_one_on_disk(
    readers: Map<u32, SstReader>,
    m: ManifestView,
    files: Seq<SstFile>,
    c: Map<u32, Seq<Entry>>,
)
    requires
        disk_holds(m, files, c),
        m.well_formed(),
        readers_match(readers, files),
    ensures
        with_found(m, readers) == m,
{
    assert forall|id: u32| #[trigger] m.sstables.contains_key(id) implies noted(
        m.sstables[id],
        found_in(readers, id),
    ) == m.sstables[id] by {
        assert(m.active.contains(id));
        assert(c.contains_key(id));
        assert(is_kept(m, files, id, c[id]));
        let (cap, bs, data) = choose|cap: int, bs: Seq<BlockInfoView>, data: Seq<u8>| #[trigger]
            kept_as(m, files, id, c[id], cap, bs, data);
        lemma_reader(readers, m, files, id, c[id], cap, bs, data);
    }
    assert(with_found(m, readers).sstables =~= m.sstables);
}

/// The index that is built over the first `k` SSTs holds what they hold.
proof fn lemma_index_of(
    w: EngineView,
    m: ManifestView,
    files: Seq<SstFile>,
    c: Map<u32, Seq<Entry>>,
    k: int,
)
    requires
        disk_holds(m, files, c),
        readers_match(w.readers, files),
        0 <= k <= m.active.len(),
    ensures
        ssts_hold(EngineView { index: index_of(m, k), ..w }, among_first(c, m.active, k)),
    decreases k,
{
    if k == 0 {
        lemma_index_of_none(w, m, c);
    } else {
        let id = m.active[k - 1];
        assert(m.active.contains(id));
        assert(c.contains_key(id));
        assert(is_kept(m, files, id, c[id]));
        let (cap, bs, data) = choose|cap: int, bs: Seq<BlockInfoView>, data: Seq<u8>| #[trigger]
            kept_as(m, files, id, c[id], cap, bs, data);
        lemma_index_of(w, m, files, c, k - 1);
        lemma_index_of_next(w, m, files, c, k, cap, bs, data);
    }
}

proof fn lemma_index_of_none(w: EngineView, m: ManifestView, c: Map<u32, Seq<Entry>>)
    ensures
        ssts_hold(EngineView { index: index_of(m, 0), ..w }, among_first(c, m.active, 0)),
{
    let u = EngineView { index: index_of(m, 0), ..w };
    let d = among_first(c, m.active, 0);
    assert forall|id: u32| !(#[trigger] d.contains_key(id)) by {
        assert(m.active.subrange(0, 0).len() == 0);
    }
    assert(u.index.ssts.len() == 0);
    assert(u.index.blocks.len() == 0);
    assert forall|id: u32| #[trigger] d.contains_key(id) <==> is_listed(u.index.ssts, id) by {}
}

proof fn lemma_index_of_next(
    w: EngineView,
    m: ManifestView,
    files: Seq<SstFile>,
    c: Map<u32, Seq<Entry>>,
    k: int,
    cap: int,
    bs: Seq<BlockInfoView>,
    data: Seq<u8>,
)
    requires
        rising(m.active),
        readers_match(w.readers, files),
        0 < k <= m.active.len(),
        c.contains_key(m.active[k - 1]),
        kept_as(m, files, m.active[k - 1], c[m.active[k - 1]], cap, bs, data),
        ssts_hold(EngineView { index: index_of(m, k - 1), ..w }, among_first(c, m.active, k - 1)),
    ensures
        ssts_hold(EngineView { index: index_of(m, k), ..w }, among_first(c, m.active, k)),
{
    let id = m.active[k - 1];
    let s = c[id];
    let before = EngineView { index: index_of(m, k - 1), ..w };
    let u = EngineView { index: index_of(m, k), ..w };
    let prev = m.active.subrange(0, k - 1);
    let e = among_first(c, m.active, k - 1);
    assert forall|x: u32| prev.contains(x) implies x < id by {
        let j = choose|j: int| 0 <= j < prev.len() && prev[j] == x;
        assert(m.active[j] < m.active[k - 1]);
    }
    assert forall|x: u32| #[trigger] e.contains_key(x) implies x < id by {
        assert(prev.contains(x));
    }
    lemma_reader(w.readers, m, files, id, s, cap, bs, data);
    assert(w.readers =~= w.readers.insert(id, w.readers[id]));
    lemma_among_first(c, m.active, k);
    if before.index.blooms.contains_key(id) {
        lemma_filters_are_listed(m, k - 1, id);
    }
    assert forall|x: Entry| #[trigger] s.contains(x) implies u.index.may_hold(id, x.key) by {}
    lemma_hold_with(before, u, e, id, s, cap, bs, data);
}

/// The deleted key ranges of the first `k` SSTs are in the index over them.
proof fn lemma_ranges_at(m: ManifestView, k: int, j: u32)
    requires
        0 <= k <= m.active.len(),
        forall|id: u32| #[trigger]
            m.active.contains(id) ==> m.sstables.contains_key(id) && m.block_infos.contains_key(id),
    ensures
        index_of(m, k).ranges.contains_key(j) <==> m.active.subrange(0, k).contains(j)
            && m.sstables[j].ranges.len() > 0,
        index_of(m, k).ranges.contains_key(j) ==> index_of(m, k).ranges[j] == m.sstables[j].ranges,
    decreases k,
{
    if k > 0 {
        let id = m.active[k - 1];
        assert(m.active.contains(id));
        lemma_ranges_at(m, k - 1, j);
        let s = m.active.subrange(0, k);
        let t = m.active.subrange(0, k - 1);
        assert(s[k - 1] == id);
        if t.contains(j) {
            let i = choose|i: int| 0 <= i < t.len() && t[i] == j;
            assert(s[i] == j);
        }
        if s.contains(j) {
            let i = choose|i: int| 0 <= i < s.len() && s[i] == j;
            if i < k - 1 {
                assert(t[i] == j);
            }
        }
    }
}

proof fn lemma_recovered_ranges(
    m: ManifestView,
    files: Seq<SstFile>,
    c: Map<u32, Seq<Entry>>,
    k: int,
)
    requires
        disk_holds(m, files, c),
        m.well_formed(),
        k == m.active.len(),
    ensures
        ranges_agree(index_of(m, k), m),
{
    assert forall|id: u32| #[trigger] m.active.contains(id) implies m.sstables.contains_key(id)
        && m.block_infos.contains_key(id) by {
        assert(c.contains_key(id));
        assert(is_kept(m, files, id, c[id]));
    }
    assert(m.active.subrange(0, k) =~= m.active);
    assert forall|j: u32, key: Seq<u8>| #[trigger] index_of(m, k).deletes(j, key) == m.deletes(
        j,
        key,
    ) by {
        lemma_ranges_at(m, k, j);
        if m.deletes(j, key) {
            assert(m.active.contains(j));
        }
    }
}

/// An engine that starts from what is on disk has the SSTs that are there.
pub proof fn law_recovered_engine_has_the_ssts(
    w: EngineView,
    m: ManifestView,
    files: Seq<SstFile>,
    c: Map<u32, Seq<Entry>>,
    bits: usize,
)
    requires
        disk_holds(m, files, c),
        m.well_formed(),
        readers_match(w.readers, files),
        w.index.blocks == index_of(with_found(m, w.readers), m.active.len() as int).blocks,
        w.index.ssts == index_of(with_found(m, w.readers), m.active.len() as int).ssts,
        w.index.ranges == index_of(with_found(m, w.readers), m.active.len() as int).ranges,
        forall|id: u32|
            #![trigger w.index.blooms.contains_key(id)]
            filter_settled(
                index_of(with_found(m, w.readers), m.active.len() as int).blooms,
                w.index.blooms,
                with_found(m, w.readers),
                w.readers,
                bits,
                id,
            ),
    ensures
        ssts_hold(w, c),
        ranges_agree(w.index, m),
{
    law_recovered_manifest_is_the_one_on_disk(w.readers, m, files, c);
    lemma_recovered_ranges(m, files, c, m.active.len() as int);
    assert forall|j: u32, key: Seq<u8>| #[trigger] w.index.deletes(j, key) == m.deletes(j, key) by {
        assert(index_of(m, m.active.len() as int).deletes(j, key) == m.deletes(j, key));
    }
    let n = m.active.len() as int;
    let u = EngineView { index: index_of(m, n), ..w };
    lemma_index_of(w, m, files, c, n);
    assert(m.active.subrange(0, n) =~= m.active);
    assert(among_first(c, m.active, n) =~= c) by {
        assert forall|id: u32| #[trigger] among_first(c, m.active, n).contains_key(id)
            <==> c.contains_key(id) by {}
    }
    assert forall|id: u32| #[trigger] c.contains_key(id) implies holds_sst(w, id, c[id]) by {
        assert(holds_sst(u, id, c[id]));
        let (cap, bs, data) = choose|cap: int, bs: Seq<BlockInfoView>, data: Seq<u8>| #[trigger]
            stored_as(u, id, c[id], cap, bs, data);
        assert(is_kept(m, files, id, c[id]));
        assert(!is_stale(m, id));
        assert(w.index.blooms.contains_key(id) == u.index.blooms.contains_key(id));
        assert(stored_as(w, id, c[id], cap, bs, data)) by {
            assert forall|e: Entry| #[trigger] c[id].contains(e) implies w.index.may_hold(
                id,
                e.key,
            ) by {
                assert(u.index.may_hold(id, e.key));
            }
        }
    }
}

/// A key range that was found deleted in a block of an SST is deleted from the
/// older SSTs, and from what the SST itself holds.
pub proof fn law_range_deletion_in_a_block_hides_its_keys(
    w: EngineView,
    m: ManifestView,
    id: u32,
    key: Seq<u8>,
)
    requires
        m.well_formed(),
        forall|j: u32| #[trigger] m.active.contains(j) ==> m.block_infos.contains_key(j),
        w.index.ranges == index_of(with_found(m, w.readers), m.active.len() as int).ranges,
        m.active.contains(id),
        masked(found_in(w.readers, id), key),
    ensures
        w.index.deletes(id, key),
        forall|j: u32| j < id ==> #[trigger] w.index.covers_above(j, key),
        forall|b: MetaView, e: Entry|
            b.sst_id == id && #[trigger] readable(w.readers, b).contains(e) ==> e.key != key,
{
    let found = found_in(w.readers, id);
    let n = with_found(m, w.readers);
    let k = m.active.len() as int;
    assert(m.sstables.contains_key(id));
    assert forall|j: u32| #[trigger] n.active.contains(j) implies n.sstables.contains_key(j)
        && n.block_infos.contains_key(j) by {
        assert(m.sstables.contains_key(j));
    }
    lemma_ranges_at(n, k, id);
    assert(n.active.subrange(0, k) =~= n.active);
    let ranges = n.sstables[id].ranges;
    let i = choose|i: int|
        0 <= i < found.len() && lex_le((#[trigger] found[i]).0, key) && lex_lt(key, found[i].1);
    if m.sstables[id].ranges == found {
        assert(ranges[i] == found[i]);
    } else {
        assert(ranges[m.sstables[id].ranges.len() + i] == found[i]);
    }
    assert(w.index.deletes(id, key));
    assert forall|b: MetaView, e: Entry|
        b.sst_id == id && #[trigger] readable(w.readers, b).contains(e) implies e.key != key by {
        let reader = w.readers[id];
        if reader.block(b.block_idx) is Ok {
            lemma_filter_contains(
                reader.block(b.block_idx)->Ok_0.1,
                |e: Entry| !masked(reader.found(), e.key),
                e,
            );
        }
    }
}

/// An engine that starts from the SSTs and from the log of what was not flushed
/// gives the reads that were given before, as long as no expired version stands
/// over a live one.
pub proof fn law_recovery_restores_reads(
    v: EngineView,
    w: EngineView,
    c: Map<u32, Seq<Entry>>,
    log: Seq<Entry>,
)
    requires
        v.in_step(),
        ssts_hold(v, c),
        ssts_hold(w, c),
        forall|j: u32, key: Seq<u8>| #[trigger]
            w.index.deletes(j, key) == v.index.deletes(j, key),
        w.seqs_below(),
        w.mem == (MemView { active: log, ..MemView::empty() }),
        w.now == v.now,
        forall|e: Entry| #[trigger] log.contains(e) <==> v.mem.all().contains(e),
        live_on_top(log, v.now),
    ensures
        w.in_step(),
        forall|key: Seq<u8>, ts: i64| #[trigger] w.point(key, ts) == v.point(key, ts),
        forall|range: ScanRangeView, r: RecordView| #[trigger]
            w.range_scan(range).records().contains(r) <==> v.range_scan(range).records().contains(r),
{
    let u = EngineView { mem: w.mem, next_seq: w.next_seq, ..v };
    assert(u.seqs_below());
    law_replayed_log_restores_reads(v, u, log);
    lemma_same_ssts(v, u, c);
    assert forall|id: u32| #[trigger] c.contains_key(id) implies strictly_sorted(c[id]) by {
        assert(holds_sst(v, id, c[id]));
    }
    assert forall|key: Seq<u8>, ts: i64| #[trigger]
        same_found(bare(c, u.index, key), bare(c, w.index, key), key, ts, u.now) by {
        let c0 = bare(c, u.index, key);
        let d0 = bare(c, w.index, key);
        assert forall|k: u32| #[trigger] w.index.covers_above(k, key) == u.index.covers_above(k, key) by {
            if u.index.covers_above(k, key) {
                let j = choose|j: u32| j > k && #[trigger] u.index.deletes(j, key);
                assert(w.index.deletes(j, key));
            }
            if w.index.covers_above(k, key) {
                let j = choose|j: u32| j > k && #[trigger] w.index.deletes(j, key);
                assert(v.index.deletes(j, key));
            }
        }
        assert(c0 =~= d0);
        assert forall|k: u32| #[trigger] c0.contains_key(k) implies strictly_sorted(c0[k]) by {
            assert(c.contains_key(k));
        }
        assert forall|a: Option<Entry>, b: Option<Entry>| #[trigger]
            finds(c0, key, ts, u.now, a) && #[trigger] finds(d0, key, ts, u.now, b) implies shown_of(
            a,
        ) == shown_of(b) by {
            lemma_finds_one(c0, key, ts, u.now, a, b);
        }
    }
    lemma_same_reads(u, w, c, c);
}

/// An engine that starts again later, from the SSTs and from the log of what was
/// not flushed, gives every record that was given before and has not expired
/// since.
pub proof fn law_restart_gives_back_what_is_live(
    v: EngineView,
    w: EngineView,
    c: Map<u32, Seq<Entry>>,
    log: Seq<Entry>,
)
    requires
        v.in_step(),
        ssts_hold(v, c),
        ssts_hold(w, c),
        forall|j: u32, key: Seq<u8>| #[trigger]
            w.index.deletes(j, key) == v.index.deletes(j, key),
        w.seqs_below(),
        w.mem == (MemView { active: log, ..MemView::empty() }),
        v.now <= w.now,
        forall|e: Entry| #[trigger] log.contains(e) <==> v.mem.all().contains(e),
        live_on_top(log, v.now),
    ensures
        forall|key: Seq<u8>, ts: i64, r: RecordView|
            #![trigger v.point(key, ts), live_at(r.expire_at, w.now)]
            v.point(key, ts) == Some(r) && live_at(r.expire_at, w.now) ==> w.point(key, ts)
                == Some(r),
        forall|range: ScanRangeView, r: RecordView| #[trigger]
            v.range_scan(range).records().contains(r) && live_at(r.expire_at, w.now)
                ==> w.range_scan(range).records().contains(r),
        live_on_top(log, w.now) ==> w.in_step(),
{
    let u = EngineView { now: v.now, ..w };
    lemma_same_ssts(w, u, c);
    law_recovery_restores_reads(v, u, c, log);
    assert(EngineView { now: w.now, ..u } == w);
    assert forall|key: Seq<u8>, ts: i64, r: RecordView|
        #![trigger v.point(key, ts), live_at(r.expire_at, w.now)]
        v.point(key, ts) == Some(r) && live_at(r.expire_at, w.now) implies w.point(key, ts)
        == Some(r) by {
        assert(u.point(key, ts) == v.point(key, ts));
        law_what_is_live_is_read_later(u, c, w.now, key, ts, r);
    }
    assert forall|range: ScanRangeView, r: RecordView| #[trigger]
        v.range_scan(range).records().contains(r) && live_at(r.expire_at, w.now) implies w.range_scan(
        range,
    ).records().contains(r) by {
        assert(u.range_scan(range).records().contains(r));
        law_what_is_live_is_scanned_later(u, c, w.now, range, r);
    }
    if live_on_top(log, w.now) {
        assert(w.mem.live_on_top(w.now)) by {
            assert(w.mem.tables() =~= seq![log]);
        }
        law_time_keeps_reads_in_step(u, c, w.now);
    }
}

/// A filter keeps the version of its hash.
proof fn lemma_hash_version(start: BloomView, keys: Seq<Seq<u8>>, filter: BloomView)
    requires
        holds_keys(start, keys, filter),
    ensures
        filter.hash_version == start.hash_version,
    decreases keys.len(),
{
    if keys.len() > 0 {
        let before = choose|before: BloomView|
            holds_keys(start, keys.drop_last(), before) && #[trigger] before.adds(
                keys.last(),
                filter,
            );
        lemma_hash_version(start, keys.drop_last(), before);
    }
}

/// A file more, and changes of the manifest that concern other SSTs, leave an
/// SST on disk as it is.
proof fn lemma_still_kept(
    m: ManifestView,
    n: ManifestView,
    files: Seq<SstFile>,
    new: SstFile,
    id: u32,
    s: Seq<Entry>,
)
    requires
        is_kept(m, files, id, s),
        new.id != id,
        n.sstables.contains_key(id),
        n.sstables[id] == m.sstables[id],
        n.block_infos.contains_key(id),
        n.block_infos[id] == m.block_infos[id],
    ensures
        is_kept(n, files.push(new), id, s),
{
    let (cap, bs, data) = choose|cap: int, bs: Seq<BlockInfoView>, data: Seq<u8>| #[trigger]
        kept_as(m, files, id, s, cap, bs, data);
    let more = files.push(new);
    let i = choose|i: int| #[trigger] usable_file(files, i, id);
    assert(more[i] == files[i]);
    assert(usable_file(more, i, id));
    assert forall|j: int| #[trigger] usable_file(more, j, id) implies more[j].data@ == data by {
        assert(j < files.len());
        assert(usable_file(files, j, id));
    }
    assert(kept_as(n, more, id, s, cap, bs, data));
}

/// A new SST is on disk once its file and its manifest entry are.
proof fn lemma_newly_kept(
    n: ManifestView,
    files: Seq<SstFile>,
    new: SstFile,
    s: Seq<Entry>,
    cap: int,
    bs: Seq<BlockInfoView>,
)
    requires
        forall|i: int| 0 <= i < files.len() ==> (#[trigger] files[i]).id != new.id,
        cap > 0,
        strictly_sorted(s),
        forall|e: Entry| #[trigger] s.contains(e) ==> !(e.op is DeleteRange),
        is_sst(s, cap, bs, new.data@),
        can_be_stored(s, cap),
        n.sstables.contains_key(new.id),
        n.sstables[new.id].bloom matches Some(b) ==> b.hash_version == CURRENT_HASH_VERSION && (
        forall|e: Entry| #[trigger] s.contains(e) ==> b.reports(e.key)),
        n.block_infos.contains_key(new.id),
        n.block_infos[new.id] == bs,
    ensures
        is_kept(n, files.push(new), new.id, s),
{
    let more = files.push(new);
    lemma_can_be_opened(s, cap, bs, new.data@, new.id);
    assert(more[files.len() as int] == new);
    assert(usable_file(more, files.len() as int, new.id));
    assert forall|j: int| #[trigger] usable_file(more, j, new.id) implies more[j].data@
        == new.data@ by {
        if j < files.len() {
            assert(files[j].id != new.id);
        }
    }
    assert(kept_as(n, more, new.id, s, cap, bs, new.data@));
}

/// Once the file of a flushed memtable is written and the manifest has its
/// entry, the SST is on disk together with those that were.
pub proof fn law_flush_is_durable(
    f: EngineView,
    files: Seq<SstFile>,
    c: Map<u32, Seq<Entry>>,
    job: FlushJob,
    config: Config,
    new: SstFile,
)
    requires
        disk_holds(f.manifest, files, c),
        flushes_plainly(f),
        f.manifest.max_id() < u32::MAX,
        job.writes_table(f.mem.frozen.first(), (f.manifest.max_id() + 1) as u32, config),
        can_be_stored(flushed(f.mem.frozen.first()), block_capacity(config.block_size)),
        new.id == job.sst.info.id,
        new.data@ == job.sst.data@,
        forall|i: int| 0 <= i < files.len() ==> (#[trigger] files[i]).id != new.id,
    ensures
        disk_holds(
            f.manifest.applied(
                EntryView::Flush {
                    seq: job.seq,
                    sst: job.sst.info@,
                    blocks: infos(job.sst.blocks@),
                },
            ),
            files.push(new),
            c.insert(job.sst.info.id, flushed(f.mem.frozen.first())),
        ),
{
    let table = f.mem.frozen.first();
    let s = flushed(table);
    let cap = block_capacity(config.block_size);
    let id = job.sst.info.id;
    let bs = infos(job.sst.blocks@);
    let m = f.manifest;
    let n = m.applied(EntryView::Flush { seq: job.seq, sst: job.sst.info@, blocks: bs });
    let bloom = job.sst.info.bloom->0@;
    lemma_flushed(table);
    lemma_max_of(m.active);
    assert(!m.active.contains(id));
    assert(n.active =~= m.active.push(id));
    assert(n.sstables[id] == job.sst.info@);
    let start = BloomView::blank(
        at_least_one(key_runs(s).len() as int),
        config.bloom_bits_per_key as int,
    );
    lemma_hash_version(start, key_runs(s), bloom);
    assert forall|e: Entry| #[trigger] s.contains(e) implies bloom.reports(e.key) by {
        let i = choose|i: int| 0 <= i < s.len() && s[i] == e;
        lemma_key_runs_complete(s, i);
        law_no_false_negatives(start, key_runs(s), bloom, e.key);
    }
    assert forall|e: Entry| #[trigger] s.contains(e) implies !(e.op is DeleteRange) by {
        assert(stays_in(table)(e));
    }
    lemma_newly_kept(n, files, new, s, cap, bs);
    lemma_disk_gains(m, n, files, new, c, s);
}

/// The disk holds one SST more.
proof fn lemma_disk_gains(
    m: ManifestView,
    n: ManifestView,
    files: Seq<SstFile>,
    new: SstFile,
    c: Map<u32, Seq<Entry>>,
    s: Seq<Entry>,
)
    requires
        disk_holds(m, files, c),
        n.active == m.active.push(new.id),
        forall|k: u32| #[trigger] m.active.contains(k) ==> k < new.id,
        forall|k: u32|
            #[trigger] c.contains_key(k) ==> n.sstables.contains_key(k) && n.sstables[k]
                == m.sstables[k] && n.block_infos.contains_key(k) && n.block_infos[k]
                == m.block_infos[k],
        is_kept(n, files.push(new), new.id, s),
    ensures
        disk_holds(n, files.push(new), c.insert(new.id, s)),
{
    let d = c.insert(new.id, s);
    assert(rising(n.active)) by {
        assert forall|i: int, j: int| 0 <= i < j < n.active.len() implies #[trigger] n.active[i]
            < #[trigger] n.active[j] by {
            if j == m.active.len() {
                assert(m.active.contains(m.active[i]));
            } else {
                assert(m.active[i] < m.active[j]);
            }
        }
    }
    assert forall|k: u32| #[trigger] d.contains_key(k) <==> n.active.contains(k) by {
        if m.active.contains(k) {
            let i = choose|i: int| 0 <= i < m.active.len() && m.active[i] == k;
            assert(n.active[i] == k);
        }
        if n.active.contains(k) {
            let i = choose|i: int| 0 <= i < n.active.len() && n.active[i] == k;
            if i < m.active.len() {
                assert(m.active[i] == k);
            }
        }
        assert(n.active[m.active.len() as int] == new.id);
    }
    assert forall|k: u32| #[trigger] d.contains_key(k) implies is_kept(
        n,
        files.push(new),
        k,
        d[k],
    ) by {
        if k != new.id {
            assert(c.contains_key(k));
            lemma_still_kept(m, n, files, new, k, c[k]);
        }
    }
}

/// The manifest without several SSTs.
proof fn lemma_manifest_without(m: ManifestView, ids: Seq<u32>, k: u32)
    requires
        rising(m.active),
    ensures
        ({
            let w = m.without_all(ids);
            &&& rising(w.active)
            &&& w.active.contains(k) <==> m.active.contains(k) && !ids.contains(k)
            &&& !ids.contains(k) ==> (w.sstables.contains_key(k) <==> m.sstables.contains_key(k))
                && w.sstables[k] == m.sstables[k]
            &&& !ids.contains(k) ==> (w.block_infos.contains_key(k) <==> m.block_infos.contains_key(
                k,
            )) && w.block_infos[k] == m.block_infos[k]
        }),
    decreases ids.len(),
{
    if ids.len() > 0 {
        let t = ids.drop_last();
        let x = ids.last();
        lemma_manifest_without(m, t, k);
        let u = m.without_all(t);
        lemma_filter_rising(u.active, other_than(x));
        lemma_filter_contains(u.active, other_than(x), k);
        if ids.contains(k) {
            let i = choose|i: int| 0 <= i < ids.len() && ids[i] == k;
            if i < t.len() {
                assert(t[i] == k);
            }
        }
        if t.contains(k) {
            let i = choose|i: int| 0 <= i < t.len() && t[i] == k;
            assert(ids[i] == k);
        }
        assert(ids[ids.len() - 1] == x);
    }
}

proof fn lemma_filter_rising(s: Seq<u32>, p: spec_fn(u32) -> bool)
    requires
        rising(s),
    ensures
        rising(s.filter(p)),
    decreases s.len(),
{
    reveal_with_fuel(Seq::filter, 1);
    if s.len() > 0 {
        let t = s.drop_last();
        let x = s.last();
        assert(s =~= t.push(x));
        assert forall|i: int, j: int| 0 <= i < j < t.len() implies #[trigger] t[i] < #[trigger] t[j] by {
            assert(t[i] == s[i] && t[j] == s[j]);
        }
        lemma_filter_rising(t, p);
        t.lemma_filter_push(x, p);
        let f = s.filter(p);
        let g = t.filter(p);
        assert forall|i: int, j: int| 0 <= i < j < f.len() implies #[trigger] f[i] < #[trigger] f[j] by {
            if j == g.len() {
                assert(g.contains(g[i]));
                lemma_filter_contains(t, p, g[i]);
                let k = choose|k: int| 0 <= k < t.len() && t[k] == g[i];
                assert(s[k] < s[s.len() - 1]);
            } else {
                assert(f[i] == g[i] && f[j] == g[j]);
            }
        }
    }
}

/// Once the manifest says that SSTs are gone, the SSTs on disk are the others.
pub proof fn law_removal_is_durable(
    m: ManifestView,
    files: Seq<SstFile>,
    c: Map<u32, Seq<Entry>>,
    ids: Seq<u32>,
)
    requires
        disk_holds(m, files, c),
    ensures
        disk_holds(m.without_all(ids), files, left(c, ids)),
{
    let w = m.without_all(ids);
    let rest = left(c, ids);
    lemma_manifest_without(m, ids, 0);
    assert forall|k: u32| #[trigger] rest.contains_key(k) <==> w.active.contains(k) by {
        lemma_left(c, ids, k);
        lemma_manifest_without(m, ids, k);
        assert(c.contains_key(k) <==> m.active.contains(k));
    }
    assert forall|k: u32| #[trigger] rest.contains_key(k) implies is_kept(w, files, k, rest[k]) by {
        lemma_left(c, ids, k);
        lemma_manifest_without(m, ids, k);
        assert(is_kept(m, files, k, c[k]));
        let (cap, bs, data) = choose|cap: int, bs: Seq<BlockInfoView>, data: Seq<u8>| #[trigger]
            kept_as(m, files, k, c[k], cap, bs, data);
        assert(kept_as(w, files, k, c[k], cap, bs, data));
    }
}

/// Once the file of a compaction is written and the manifest has its entry, the
/// SSTs on disk are those that stay and the new one.
pub proof fn law_compaction_is_durable(
    v: EngineView,
    files: Seq<SstFile>,
    c: Map<u32, Seq<Entry>>,
    ids: Seq<u32>,
    new_id: u32,
    plan: CompactionPlan,
    after: EngineView,
    runner: CompactionRunner,
    new: SstFile,
)
    requires
        disk_holds(v.manifest, files, c),
        compacts_by(v, c, ids, new_id, plan, after, runner),
        plan.added is Some,
        new.id == new_id,
        new.data@ == plan.added->0.data@,
        forall|i: int| 0 <= i < files.len() ==> (#[trigger] files[i]).id != new.id,
    ensures
        disk_holds(
            after.manifest,
            files.push(new),
            compacted(c, ids, new_id, plan, merged_of(v, ids)),
        ),
{
    let out = merged_of(v, ids);
    let cap = block_capacity(runner.block_size);
    let m = v.manifest;
    let w = m.without_all(ids);
    let n = after.manifest;
    let sst = plan.added->0;
    let bs = infos(sst.blocks@);
    let bloom = sst.info.bloom->0@;
    let rest = left(c, ids);
    assert(plan.removed@ == ids);
    assert forall|k: u32| #[trigger] w.active.contains(k) implies k < new_id by {
        lemma_manifest_without(m, ids, k);
        assert(c.contains_key(k));
    }
    lemma_manifest_without(m, ids, new_id);
    assert(!w.active.contains(new_id));
    let one = seq![sst.info@];
    let lists = seq![(new_id, bs)];
    assert(one.drop_last() =~= Seq::<SstInfoView>::empty());
    assert(lists.drop_last() =~= Seq::<(u32, Seq<BlockInfoView>)>::empty());
    assert(w.with_ssts(one) == w.with_sst(sst.info@)) by {
        assert(w.with_ssts(one.drop_last()) == w);
    }
    let x = w.with_sst(sst.info@);
    assert(x.with_block_lists(lists) == x.with_blocks(new_id, bs)) by {
        assert(x.with_block_lists(lists.drop_last()) == x);
    }
    assert(n == w.with_sst(sst.info@).with_blocks(new_id, bs));
    assert(n.active =~= w.active.push(new_id));
    law_removal_is_durable(m, files, c, ids);
    let start = BloomView::blank(
        at_least_one(known_records(ids, m) as int),
        runner.bloom_bits_per_key as int,
    );
    lemma_hash_version(start, keys_of(out), bloom);
    assert forall|e: Entry| #[trigger] out.contains(e) implies bloom.reports(e.key) by {
        let i = choose|i: int| 0 <= i < out.len() && out[i] == e;
        assert(keys_of(out)[i] == e.key);
        assert(keys_of(out).contains(e.key));
        law_no_false_negatives(start, keys_of(out), bloom, e.key);
    }
    lemma_newly_kept(n, files, new, out, cap, bs);
    assert forall|k: u32| #[trigger] rest.contains_key(k) implies n.sstables.contains_key(k)
        && n.sstables[k] == w.sstables[k] && n.block_infos.contains_key(k) && n.block_infos[k]
        == w.block_infos[k] by {
        assert(is_kept(w, files, k, rest[k]));
        assert(w.active.contains(k));
    }
    lemma_disk_gains(w, n, files, new, rest, out);
}

} // verus!
