//! A compaction keeps every live record, each as often as it was there.

use vstd::prelude::*;
use vstd::multiset::Multiset;

use crate::compaction::{ids_of, is_by_size, picks, widened, CompactionPlan, CompactionRunner};
use crate::compaction_laws::{
    compacted, compacts_by, law_compaction_keeps_each_live_record, law_compaction_keeps_ssts,
    law_planned_compaction_takes_newest, lemma_ids_known, lemma_left, merged_of, ranges_agree,
};
use crate::engine::{compaction_planned, EngineView};
use crate::flush_laws::can_be_stored;
use crate::manifest::{
    infos, law_changes_keep_manifest_consistent, lemma_max_of, other_than, BlockInfoView, EntryView,
    ManifestView, SstInfoView,
};
use crate::order::{
    entry_before, lemma_before_asymmetric, lemma_filter_contains, same_version, strictly_sorted,
};
use crate::record::{live_at, Config, Entry, Op, RecordView};
use crate::scan::live_entries;
use crate::sst_laws::{holds_sst, is_listed, ssts_hold};
use crate::sstable::block_capacity;

verus! {

/// The live records among the entries, each as often as it is there.
pub open spec fn records_in(s: Seq<Entry>, now: i64) -> Multiset<RecordView> {
    live_entries(s, now).map_values(|e: Entry| e.record()).to_multiset()
}

/// The live records that the SSTs `ids` hold, each as often as it is there.
pub open spec fn live_records(c: Map<u32, Seq<Entry>>, ids: Seq<u32>, now: i64) -> Multiset<
    RecordView,
>
    decreases ids.len(),
{
    if ids.len() == 0 {
        Multiset::empty()
    } else {
        live_records(c, ids.drop_last(), now).add(records_in(c[ids.last()], now))
    }
}

/// `r` is a live record among the entries.
pub open spec fn is_live_record(s: Seq<Entry>, now: i64, r: RecordView) -> bool {
    exists|e: Entry| #[trigger] s.contains(e) && live_at(e.expire_at, now) && e.record() == r
}

/// `r` is a live record in one of the SSTs.
pub open spec fn is_held(c: Map<u32, Seq<Entry>>, ids: Seq<u32>, now: i64, r: RecordView) -> bool {
    exists|id: u32| #[trigger] ids.contains(id) && is_live_record(c[id], now, r)
}

/// Live versions of one `(key, ts)` stand in one SST only.
pub open spec fn each_in_one(c: Map<u32, Seq<Entry>>, ids: Seq<u32>, now: i64) -> bool {
    forall|i: u32, j: u32, e: Entry, f: Entry|
        #![trigger c[i].contains(e), c[j].contains(f)]
        ids.contains(i) && ids.contains(j) && c[i].contains(e) && c[j].contains(f) && live_at(
            e.expire_at,
            now,
        ) && live_at(f.expire_at, now) && same_version(e, f) ==> i == j
}

/// An SST holds each live record once.
proof fn lemma_records_in(s: Seq<Entry>, now: i64, r: RecordView)
    requires
        strictly_sorted(s),
    ensures
        records_in(s, now).count(r) == if is_live_record(s, now, r) {
            1nat
        } else {
            0
        },
    decreases s.len(),
{
    broadcast use vstd::seq_lib::group_to_multiset_ensures;

    let p = |e: Entry| live_at(e.expire_at, now);
    let g = |e: Entry| e.record();
    if s.len() == 0 {
        assert(s.filter(p) =~= Seq::<Entry>::empty());
        assert(s.filter(p).map_values(g) =~= Seq::<RecordView>::empty());
    } else {
        let t = s.drop_last();
        let x = s.last();
        assert(s =~= t.push(x));
        assert(strictly_sorted(t)) by {
            assert forall|i: int, j: int| 0 <= i < j < t.len() implies entry_before(
                #[trigger] t[i],
                #[trigger] t[j],
            ) by {
                assert(s[i] == t[i] && s[j] == t[j]);
            }
        }
        lemma_records_in(t, now, r);
        t.lemma_filter_push(x, p);
        assert forall|e: Entry| #[trigger] s.contains(e) <==> t.contains(e) || e == x by {
            assert(s[s.len() - 1] == x);
            if t.contains(e) {
                let i = choose|i: int| 0 <= i < t.len() && t[i] == e;
                assert(s[i] == e);
            }
            if s.contains(e) {
                let i = choose|i: int| 0 <= i < s.len() && s[i] == e;
                if i < t.len() {
                    assert(t[i] == e);
                }
            }
        }
        if p(x) {
            let before = t.filter(p).map_values(g);
            assert(s.filter(p).map_values(g) =~= before.push(g(x)));
            assert(before.push(g(x)).to_multiset() =~= before.to_multiset().insert(g(x)));
            if x.record() == r {
                assert(!is_live_record(t, now, r)) by {
                    if is_live_record(t, now, r) {
                        let e = choose|e: Entry| #[trigger]
                            t.contains(e) && live_at(e.expire_at, now) && e.record() == r;
                        let i = choose|i: int| 0 <= i < t.len() && t[i] == e;
                        assert(entry_before(s[i], s[s.len() - 1]));
                        assert(same_version(e, x));
                        lemma_before_asymmetric(e, x);
                    }
                }
                assert(s.contains(x));
            }
        }
        if is_live_record(t, now, r) {
            let e = choose|e: Entry| #[trigger]
                t.contains(e) && live_at(e.expire_at, now) && e.record() == r;
            assert(s.contains(e));
        }
        if is_live_record(s, now, r) {
            let e = choose|e: Entry| #[trigger]
                s.contains(e) && live_at(e.expire_at, now) && e.record() == r;
            assert(t.contains(e) || e == x);
        }
    }
}

/// The SSTs together hold each live record once.
proof fn lemma_live_records(c: Map<u32, Seq<Entry>>, ids: Seq<u32>, now: i64, r: RecordView)
    requires
        ids.no_duplicates(),
        forall|id: u32| #[trigger] ids.contains(id) ==> strictly_sorted(c[id]),
        each_in_one(c, ids, now),
    ensures
        live_records(c, ids, now).count(r) == if is_held(c, ids, now, r) {
            1nat
        } else {
            0
        },
    decreases ids.len(),
{
    if ids.len() > 0 {
        let t = ids.drop_last();
        let x = ids.last();
        assert forall|id: u32| #[trigger] ids.contains(id) <==> t.contains(id) || id == x by {
            assert(ids[ids.len() - 1] == x);
            if t.contains(id) {
                let i = choose|i: int| 0 <= i < t.len() && t[i] == id;
                assert(ids[i] == id);
            }
            if ids.contains(id) {
                let i = choose|i: int| 0 <= i < ids.len() && ids[i] == id;
                if i < t.len() {
                    assert(t[i] == id);
                }
            }
        }
        assert(!t.contains(x)) by {
            if t.contains(x) {
                let i = choose|i: int| 0 <= i < t.len() && t[i] == x;
                assert(ids[i] == ids[ids.len() - 1]);
            }
        }
        assert(each_in_one(c, t, now)) by {
            assert forall|i: u32, j: u32, e: Entry, f: Entry|
                #![trigger c[i].contains(e), c[j].contains(f)]
                t.contains(i) && t.contains(j) && c[i].contains(e) && c[j].contains(f) && live_at(
                    e.expire_at,
                    now,
                ) && live_at(f.expire_at, now) && same_version(e, f) implies i == j by {
                assert(ids.contains(i) && ids.contains(j));
            }
        }
        assert forall|id: u32| #[trigger] t.contains(id) implies strictly_sorted(c[id]) by {
            assert(ids.contains(id));
        }
        lemma_live_records(c, t, now, r);
        assert(ids.contains(x));
        lemma_records_in(c[x], now, r);
        if is_held(c, t, now, r) {
            let id = choose|id: u32| #[trigger] t.contains(id) && is_live_record(c[id], now, r);
            assert(ids.contains(id));
            if is_live_record(c[x], now, r) {
                let e = choose|e: Entry| #[trigger]
                    c[id].contains(e) && live_at(e.expire_at, now) && e.record() == r;
                let f = choose|f: Entry| #[trigger]
                    c[x].contains(f) && live_at(f.expire_at, now) && f.record() == r;
                assert(same_version(e, f));
                assert(id == x);
            }
        }
        if is_held(c, ids, now, r) {
            let id = choose|id: u32| #[trigger] ids.contains(id) && is_live_record(c[id], now, r);
            if id != x {
                assert(t.contains(id));
            }
        }
    }
}

/// The SSTs that a manifest lists without several of them.
proof fn lemma_listed_without(m: ManifestView, ids: Seq<u32>, k: u32)
    ensures
        m.without_all(ids).active.contains(k) <==> m.active.contains(k) && !ids.contains(k),
    decreases ids.len(),
{
    if ids.len() > 0 {
        let t = ids.drop_last();
        lemma_listed_without(m, t, k);
        lemma_filter_contains(m.without_all(t).active, other_than(ids.last()), k);
        assert(ids[ids.len() - 1] == ids.last());
        if t.contains(k) {
            let i = choose|i: int| 0 <= i < t.len() && t[i] == k;
            assert(ids[i] == k);
        }
        if ids.contains(k) {
            let i = choose|i: int| 0 <= i < ids.len() && ids[i] == k;
            if i < t.len() {
                assert(t[i] == k);
            }
        }
    }
}

/// The manifest once several SSTs were dropped one by one.
proof fn lemma_manifest_of_dropped(v: EngineView, ids: Seq<u32>)
    ensures
        v.without_ssts(ids).manifest == v.manifest.without_all(ids),
    decreases ids.len(),
{
    if ids.len() > 0 {
        lemma_manifest_of_dropped(v, ids.drop_last());
    }
}

/// The SSTs that the manifest lists after a compaction: those that stay, and the
/// new one, if there is one.
proof fn lemma_listed_after(v: EngineView, plan: CompactionPlan, after: EngineView, k: u32)
    requires
        v.manifest.well_formed(),
        v.compacts_to(plan, after),
    ensures
        after.manifest.active.no_duplicates(),
        after.manifest.active.contains(k) <==> (v.manifest.active.contains(k)
            && !plan.removed@.contains(k)) || (plan.added is Some && k == plan.added->0.info.id),
{
    let ids = plan.removed@;
    let m = v.manifest;
    let w = m.without_all(ids);
    lemma_listed_without(m, ids, k);
    match plan.added {
        Some(new) => {
            let id = new.info.id;
            let one = seq![new.info@];
            let lists = seq![(id, infos(new.blocks@))];
            law_changes_keep_manifest_consistent(
                m,
                EntryView::Compaction { removed: ids, added: one, blocks: lists },
            );
            assert(one.drop_last() =~= Seq::<SstInfoView>::empty());
            assert(lists.drop_last() =~= Seq::<(u32, Seq<BlockInfoView>)>::empty());
            assert(w.with_ssts(one) == w.with_sst(new.info@)) by {
                assert(w.with_ssts(one.drop_last()) == w);
            }
            let x = w.with_sst(new.info@);
            assert(x.with_block_lists(lists) == x.with_blocks(id, infos(new.blocks@))) by {
                assert(x.with_block_lists(lists.drop_last()) == x);
            }
            assert(after.manifest.active == x.active);
            if !w.active.contains(id) {
                let s = w.active;
                assert(x.active == s.push(id));
                assert(s.push(id)[s.len() as int] == id);
                if s.contains(k) {
                    let i = choose|i: int| 0 <= i < s.len() && s[i] == k;
                    assert(s.push(id)[i] == k);
                }
            }
        },
        None => {
            lemma_manifest_of_dropped(v, ids);
            lemma_without_all_is_consistent(m, ids);
        },
    }
}

proof fn lemma_without_all_is_consistent(m: ManifestView, ids: Seq<u32>)
    requires
        m.well_formed(),
    ensures
        m.without_all(ids).well_formed(),
    decreases ids.len(),
{
    if ids.len() > 0 {
        lemma_without_all_is_consistent(m, ids.drop_last());
        law_changes_keep_manifest_consistent(
            m.without_all(ids.drop_last()),
            EntryView::GcDeleteSst { sst_id: ids.last() },
        );
    }
}

/// A compaction keeps every live record, where the SSTs hold puts of distinct
/// `(key, ts)`: the live records that the SSTs hold afterwards are those that
/// they held before, each as often. The merged SSTs are gone from the manifest
/// and from the index, and at most one is new, under the next number.
pub proof fn law_compaction_keeps_the_live_records(
    v: EngineView,
    c: Map<u32, Seq<Entry>>,
    config: Config,
    plan: CompactionPlan,
    after: EngineView,
)
    requires
        v.manifest.well_formed(),
        v.manifest.max_id() < u32::MAX,
        ssts_hold(v, c),
        ranges_agree(v.index, v.manifest),
        forall|id: u32| #[trigger] c.contains_key(id) <==> v.manifest.active.contains(id),
        compaction_planned(v, config, Ok(Some(plan))),
        v.compacts_to(plan, after),
        can_be_stored(merged_of(v, plan.removed@), block_capacity(config.block_size)),
        forall|j: u32, key: Seq<u8>| !#[trigger] v.index.deletes(j, key),
        forall|id: u32, e: Entry|
            c.contains_key(id) && #[trigger] c[id].contains(e) && live_at(e.expire_at, v.now)
                ==> e.op == Op::Put,
        each_in_one(c, v.manifest.active, v.now),
    ensures
        ({
            let next = (v.manifest.max_id() + 1) as u32;
            let d = compacted(c, plan.removed@, next, plan, merged_of(v, plan.removed@));
            &&& ssts_hold(after, d)
            &&& live_records(d, after.manifest.active, v.now) == live_records(
                c,
                v.manifest.active,
                v.now,
            )
            &&& after.manifest.active.no_duplicates()
            &&& forall|id: u32| #[trigger]
                after.manifest.active.contains(id) <==> (v.manifest.active.contains(id)
                    && !plan.removed@.contains(id)) || (plan.added is Some && id == next)
            &&& forall|id: u32| #[trigger]
                is_listed(after.index.ssts, id) <==> after.manifest.active.contains(id)
            &&& plan.added is Some ==> plan.added->0.info.id == next
        }),
{
    let next = (v.manifest.max_id() + 1) as u32;
    let ids = plan.removed@;
    let now = v.now;
    let out = merged_of(v, ids);
    let d = compacted(c, ids, next, plan, out);
    let old_ids = v.manifest.active;
    let new_ids = after.manifest.active;
    let runner = CompactionRunner {
        block_size: config.block_size,
        bloom_bits_per_key: config.bloom_bits_per_key,
        compaction_threshold: config.compaction_threshold,
    };
    let (sized, n) = choose|sized: Seq<(u32, u64)>, n: int| #[trigger]
        picks(sized, n) && is_by_size(sized, v.manifest) && runner.comes_to(
            widened(v.manifest.active, ids_of(sized.subrange(0, n))),
            v.manifest,
            v.readers,
            next,
            v.now,
            Ok(Some(plan)),
        );
    law_planned_compaction_takes_newest(v, config, plan);
    lemma_max_of(old_ids);
    assert(compacts_by(v, c, ids, next, plan, after, runner));
    law_compaction_keeps_ssts(v, c, ids, next, plan, after, runner);
    lemma_ids_known(old_ids, ids);
    assert forall|id: u32| #[trigger] new_ids.contains(id) <==> (old_ids.contains(id)
        && !ids.contains(id)) || (plan.added is Some && id == next) by {
        lemma_listed_after(v, plan, after, id);
    }
    lemma_listed_after(v, plan, after, 0);
    assert forall|id: u32| #[trigger] d.contains_key(id) <==> new_ids.contains(id) by {
        lemma_left(c, ids, id);
    }
    assert forall|id: u32| #[trigger] is_listed(after.index.ssts, id) <==> new_ids.contains(id) by {
        assert(d.contains_key(id) <==> is_listed(after.index.ssts, id));
    }
    assert forall|id: u32| #[trigger] old_ids.contains(id) implies strictly_sorted(c[id]) by {
        assert(c.contains_key(id));
        assert(holds_sst(v, id, c[id]));
    }
    assert forall|id: u32| #[trigger] new_ids.contains(id) implies strictly_sorted(d[id]) by {
        assert(d.contains_key(id));
        assert(holds_sst(after, id, d[id]));
    }
    assert forall|id: u32| #[trigger] ids.contains(id) implies old_ids.contains(id)
        && c.contains_key(id) by {}
    assert forall|id: u32| new_ids.contains(id) && id != next implies #[trigger] d[id] == c[id] by {
        lemma_left(c, ids, id);
    }
    assert(!old_ids.contains(next));
    assert forall|h: Entry| #[trigger] out.contains(h) && live_at(h.expire_at, now) implies exists|
        id: u32,
        e: Entry,
    |
        ids.contains(id) && #[trigger] c[id].contains(e) && live_at(e.expire_at, now) && e.record()
            == h.record() by {
        law_compaction_keeps_each_live_record(v, c, ids, next, plan, after, runner, h.record());
    }
    assert(plan.added is None ==> out.len() == 0);
    assert(each_in_one(d, new_ids, now)) by {
        assert forall|i: u32, j: u32, e: Entry, f: Entry|
            #![trigger d[i].contains(e), d[j].contains(f)]
            new_ids.contains(i) && new_ids.contains(j) && d[i].contains(e) && d[j].contains(f)
                && live_at(e.expire_at, now) && live_at(f.expire_at, now) && same_version(
                e,
                f,
            ) implies i == j by {
            if i != j {
                if i == next {
                    assert(out.contains(e));
                    let (x, g) = choose|x: u32, g: Entry|
                        ids.contains(x) && #[trigger] c[x].contains(g) && live_at(
                            g.expire_at,
                            now,
                        ) && g.record() == e.record();
                    assert(c[j].contains(f));
                    assert(same_version(g, f));
                    assert(x == j);
                } else if j == next {
                    assert(out.contains(f));
                    let (x, g) = choose|x: u32, g: Entry|
                        ids.contains(x) && #[trigger] c[x].contains(g) && live_at(
                            g.expire_at,
                            now,
                        ) && g.record() == f.record();
                    assert(c[i].contains(e));
                    assert(same_version(g, e));
                    assert(x == i);
                } else {
                    assert(c[i].contains(e) && c[j].contains(f));
                }
            }
        }
    }
    let a = live_records(c, old_ids, now);
    let b = live_records(d, new_ids, now);
    assert forall|r: RecordView| #[trigger] a.count(r) == b.count(r) by {
        lemma_live_records(c, old_ids, now, r);
        lemma_live_records(d, new_ids, now, r);
        law_compaction_keeps_each_live_record(v, c, ids, next, plan, after, runner, r);
        if is_held(c, old_ids, now, r) {
            let id = choose|id: u32| #[trigger] old_ids.contains(id) && is_live_record(c[id], now, r);
            let e = choose|e: Entry| #[trigger]
                c[id].contains(e) && live_at(e.expire_at, now) && e.record() == r;
            if ids.contains(id) {
                let h = choose|h: Entry| #[trigger] out.contains(h) && h.record() == r;
                assert(h.expire_at == r.expire_at && e.expire_at == r.expire_at);
                assert(new_ids.contains(next));
                assert(d[next] == out);
                assert(is_live_record(d[next], now, r));
            } else {
                assert(new_ids.contains(id));
                assert(d[id] == c[id]);
                assert(is_live_record(d[id], now, r));
            }
        }
        if is_held(d, new_ids, now, r) {
            let id = choose|id: u32| #[trigger] new_ids.contains(id) && is_live_record(d[id], now, r);
            let h = choose|h: Entry| #[trigger]
                d[id].contains(h) && live_at(h.expire_at, now) && h.record() == r;
            if id == next {
                assert(out.contains(h));
                let (x, e) = choose|x: u32, e: Entry|
                    ids.contains(x) && #[trigger] c[x].contains(e) && live_at(e.expire_at, now)
                        && e.record() == r;
                assert(old_ids.contains(x));
                assert(is_live_record(c[x], now, r));
            } else {
                assert(d[id] == c[id]);
                assert(old_ids.contains(id));
                assert(is_live_record(c[id], now, r));
            }
        }
    }
    assert(a =~= b);
}

} // verus!
