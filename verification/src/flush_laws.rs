//! Flushing a memtable changes where its records are, not what reads give.

use vstd::prelude::*;

use crate::block_meta_index::MetaView;
use crate::codec::fits_format;
use crate::engine::{block_hit, first_hit, first_versions, flushed, is_hit, stays_in};
use crate::memtable::{is_version, lemma_newest, newest};
use crate::memtables::{best_version, lemma_best_version};
use crate::order::{
    entry_before, entry_le, lemma_before_asymmetric, lemma_filter_contains, lemma_le_transitive,
    same_rank, same_version, sorted_entries, strictly_sorted,
};
use crate::record::{live_at, Entry};
use crate::scan::readable;
use crate::sstable::{chunks, SstReader};

verus! {

/// No two entries agree in key, time and sequence number.
pub open spec fn distinct_ranks(s: Seq<Entry>) -> bool {
    forall|i: int, j: int|
        0 <= i < j < s.len() ==> !same_rank(#[trigger] s[i], #[trigger] s[j])
}

/// `e` has the highest sequence number of its `(key, ts)` in `s`.
pub open spec fn is_top(s: Seq<Entry>, e: Entry) -> bool {
    &&& s.contains(e)
    &&& forall|i: int| 0 <= i < s.len() && same_version(#[trigger] s[i], e) ==> s[i].seq <= e.seq
}

/// The first versions of a sorted sequence are in strictly rising order, and
/// are those with the highest sequence numbers.
pub proof fn lemma_first_versions(s: Seq<Entry>)
    requires
        sorted_entries(s),
        distinct_ranks(s),
    ensures
        strictly_sorted(first_versions(s)),
        forall|e: Entry| #[trigger] first_versions(s).contains(e) <==> is_top(s, e),
    decreases s.len(),
{
    let fv = first_versions(s);
    if s.len() == 0 {
        assert forall|e: Entry| #[trigger] fv.contains(e) <==> is_top(s, e) by {}
    } else {
        let t = s.drop_last();
        let n = s.len() - 1;
        let x = s.last();
        assert forall|i: int, j: int| 0 <= i < j < t.len() implies entry_le(
            #[trigger] t[i],
            #[trigger] t[j],
        ) by {
            assert(t[i] == s[i] && t[j] == s[j]);
        }
        assert forall|i: int, j: int| 0 <= i < j < t.len() implies !same_rank(
            #[trigger] t[i],
            #[trigger] t[j],
        ) by {
            assert(t[i] == s[i] && t[j] == s[j]);
        }
        lemma_first_versions(t);
        let ft = first_versions(t);
        if n > 0 && same_version(s[n - 1], x) {
            assert(fv == ft);
            assert forall|e: Entry| #[trigger] fv.contains(e) <==> is_top(s, e) by {
                assert(entry_le(s[n - 1], s[n]));
                if entry_before(s[n - 1], x) {
                    lemma_before_asymmetric(s[n - 1], x);
                }
                assert(!same_rank(s[n - 1], s[n]));
                assert(s[n - 1].seq > x.seq);
                if is_top(t, e) {
                    let i = choose|i: int| 0 <= i < t.len() && t[i] == e;
                    assert(s[i] == e);
                    assert forall|j: int| 0 <= j < s.len() && same_version(
                        #[trigger] s[j],
                        e,
                    ) implies s[j].seq <= e.seq by {
                        if j < n {
                            assert(t[j] == s[j]);
                        } else {
                            assert(t[n - 1] == s[n - 1]);
                        }
                    }
                }
                if is_top(s, e) {
                    let i = choose|i: int| 0 <= i < s.len() && s[i] == e;
                    if i == n {
                        assert(s[n - 1].seq <= e.seq);
                    }
                    assert(t[i] == e);
                    assert forall|j: int| 0 <= j < t.len() && same_version(
                        #[trigger] t[j],
                        e,
                    ) implies t[j].seq <= e.seq by {
                        assert(t[j] == s[j]);
                    }
                }
                assert(ft.contains(e) <==> is_top(t, e));
            }
        } else {
            assert(fv == ft.push(x));
            // Nothing before the last entry is a version of its `(key, ts)`.
            assert forall|j: int| 0 <= j < n implies entry_before(#[trigger] s[j], x) by {
                assert(entry_le(s[j], s[n]));
                if !entry_before(s[j], x) {
                    if j < n - 1 {
                        assert(entry_le(s[j], s[n - 1]));
                        assert(entry_le(s[n - 1], s[n]));
                        if entry_before(s[n - 1], x) {
                            lemma_le_transitive(s[j], s[n - 1], x);
                        }
                    }
                }
            }
            assert forall|i: int, j: int| 0 <= i < j < fv.len() implies entry_before(
                #[trigger] fv[i],
                #[trigger] fv[j],
            ) by {
                if j == ft.len() {
                    assert(ft.contains(ft[i]));
                    assert(is_top(t, ft[i]));
                    let k = choose|k: int| 0 <= k < t.len() && t[k] == ft[i];
                    assert(s[k] == ft[i]);
                } else {
                    assert(fv[i] == ft[i] && fv[j] == ft[j]);
                }
            }
            assert forall|e: Entry| #[trigger] fv.contains(e) <==> is_top(s, e) by {
                assert(ft.contains(e) <==> is_top(t, e));
                assert(fv[ft.len() as int] == x);
                if fv.contains(e) {
                    let i = choose|i: int| 0 <= i < fv.len() && fv[i] == e;
                    if i < ft.len() {
                        assert(ft[i] == e);
                        assert(is_top(t, e));
                        let k = choose|k: int| 0 <= k < t.len() && t[k] == e;
                        assert(s[k] == e);
                        lemma_before_asymmetric(s[k], x);
                        assert forall|j: int| 0 <= j < s.len() && same_version(
                            #[trigger] s[j],
                            e,
                        ) implies s[j].seq <= e.seq by {
                            if j < n {
                                assert(t[j] == s[j]);
                            }
                        }
                    } else {
                        assert(s[n] == e);
                        assert forall|j: int| 0 <= j < s.len() && same_version(
                            #[trigger] s[j],
                            e,
                        ) implies s[j].seq <= e.seq by {
                            if j < n {
                                lemma_before_asymmetric(s[j], x);
                            }
                        }
                    }
                }
                if is_top(s, e) {
                    let i = choose|i: int| 0 <= i < s.len() && s[i] == e;
                    if i < n {
                        assert(t[i] == e);
                        assert forall|j: int| 0 <= j < t.len() && same_version(
                            #[trigger] t[j],
                            e,
                        ) implies t[j].seq <= e.seq by {
                            assert(t[j] == s[j]);
                        }
                        assert(is_top(t, e));
                        let k = choose|k: int| 0 <= k < ft.len() && ft[k] == e;
                        assert(fv[k] == e);
                    }
                }
            }
        }
    }
}

/// The newest version in a table without duplicate ranks is the top one.
pub proof fn lemma_newest_is_top(s: Seq<Entry>, key: Seq<u8>, ts: i64, e: Entry)
    requires
        distinct_ranks(s),
        is_top(s, e),
        e.key == key,
        e.ts == ts,
    ensures
        newest(s, key, ts, u64::MAX) == Some(e),
{
    lemma_newest(s, key, ts, u64::MAX);
    let i = choose|i: int| 0 <= i < s.len() && s[i] == e;
    assert(is_version(s[i], key, ts, u64::MAX));
    let f = newest(s, key, ts, u64::MAX)->0;
    let j = choose|j: int| 0 <= j < s.len() && s[j] == f;
    assert(same_version(s[j], e));
    if i < j {
        assert(!same_rank(s[i], s[j]));
    } else if j < i {
        assert(!same_rank(s[j], s[i]));
    }
}

pub proof fn lemma_block_hit_add(
    a: Seq<MetaView>,
    b: Seq<MetaView>,
    readers: Map<u32, SstReader>,
    key: Seq<u8>,
    ts: i64,
    now: i64,
)
    ensures
        block_hit(a + b, readers, key, ts, now) == match block_hit(a, readers, key, ts, now) {
            Some(e) => Some(e),
            None => block_hit(b, readers, key, ts, now),
        },
    decreases a.len(),
{
    if a.len() == 0 {
        assert(a + b =~= b);
    } else {
        assert((a + b).drop_first() =~= a.drop_first() + b);
        lemma_block_hit_add(a.drop_first(), b, readers, key, ts, now);
    }
}

/// A hit is a live version of `(key, ts)` in the block.
pub proof fn lemma_first_hit(s: Seq<Entry>, key: Seq<u8>, ts: i64, now: i64)
    ensures
        match first_hit(s, key, ts, now) {
            Some(e) => s.contains(e) && is_hit(e, key, ts, now),
            None => forall|i: int| 0 <= i < s.len() ==> !is_hit(#[trigger] s[i], key, ts, now),
        },
    decreases s.len(),
{
    if s.len() > 0 {
        let t = s.drop_first();
        lemma_first_hit(t, key, ts, now);
        if is_hit(s.first(), key, ts, now) {
            assert(s[0] == s.first());
        } else {
            match first_hit(t, key, ts, now) {
                Some(e) => {
                    let i = choose|i: int| 0 <= i < t.len() && t[i] == e;
                    assert(s[i + 1] == e);
                },
                None => {
                    assert forall|i: int| 0 <= i < s.len() implies !is_hit(
                        #[trigger] s[i],
                        key,
                        ts,
                        now,
                    ) by {
                        if i > 0 {
                            assert(t[i - 1] == s[i]);
                        }
                    }
                },
            }
        }
    }
}

/// A hit in a list of blocks is a hit in one of them; and where some block has
/// one, the list has one.
pub proof fn lemma_block_hit(
    blocks: Seq<MetaView>,
    readers: Map<u32, SstReader>,
    key: Seq<u8>,
    ts: i64,
    now: i64,
)
    ensures
        match block_hit(blocks, readers, key, ts, now) {
            Some(e) => exists|i: int|
                0 <= i < blocks.len() && first_hit(
                    readable(readers, #[trigger] blocks[i]),
                    key,
                    ts,
                    now,
                ) == Some(e),
            None => forall|i: int|
                0 <= i < blocks.len() ==> first_hit(
                    readable(readers, #[trigger] blocks[i]),
                    key,
                    ts,
                    now,
                ) is None,
        },
    decreases blocks.len(),
{
    if blocks.len() > 0 {
        let t = blocks.drop_first();
        lemma_block_hit(t, readers, key, ts, now);
        match first_hit(readable(readers, blocks.first()), key, ts, now) {
            Some(e) => {
                assert(blocks[0] == blocks.first());
            },
            None => match block_hit(t, readers, key, ts, now) {
                Some(e) => {
                    let i = choose|i: int|
                        0 <= i < t.len() && first_hit(
                            readable(readers, #[trigger] t[i]),
                            key,
                            ts,
                            now,
                        ) == Some(e);
                    assert(blocks[i + 1] == t[i]);
                },
                None => {
                    assert forall|i: int| 0 <= i < blocks.len() implies first_hit(
                        readable(readers, #[trigger] blocks[i]),
                        key,
                        ts,
                        now,
                    ) is None by {
                        if i > 0 {
                            assert(t[i - 1] == blocks[i]);
                        }
                    }
                },
            },
        }
    }
}

/// What stands at a position of the whole stands in one of its pieces.
pub proof fn lemma_piece_of(s: Seq<Entry>, n: int, k: int) -> (r: (int, int))
    requires
        n > 0,
        0 <= k < s.len(),
    ensures
        0 <= r.0 < chunks(s, n).len(),
        0 <= r.1 < chunks(s, n)[r.0].len(),
        chunks(s, n)[r.0][r.1] == s[k],
    decreases s.len(),
{
    if s.len() <= n {
        assert(chunks(s, n)[0] == s);
        (0, k)
    } else if k < n {
        assert(chunks(s, n)[0] == s.subrange(0, n));
        (0, k)
    } else {
        let rest = s.subrange(n, s.len() as int);
        let (c, o) = lemma_piece_of(rest, n, k - n);
        assert(chunks(s, n)[c + 1] == chunks(rest, n)[c]);
        (c + 1, o)
    }
}

/// The keys, values and range ends are short enough for the block format, and
/// the blocks few enough to be numbered.
pub open spec fn can_be_stored(s: Seq<Entry>, cap: int) -> bool {
    &&& forall|i: int| 0 <= i < s.len() ==> fits_format(#[trigger] s[i])
    &&& chunks(s, cap).len() <= u32::MAX
}

/// What a flush writes: the versions with the highest numbers, of puts and
/// deletions that no later range deletion covers.
pub proof fn lemma_flushed(table: Seq<Entry>)
    requires
        sorted_entries(table),
        distinct_ranks(table),
    ensures
        strictly_sorted(flushed(table)),
        forall|e: Entry| #[trigger]
            flushed(table).contains(e) <==> is_top(table, e) && stays_in(table)(e),
{
    let s = first_versions(table);
    let p = stays_in(table);
    lemma_first_versions(table);
    lemma_filter_strict(s, p);
    assert forall|e: Entry| #[trigger] flushed(table).contains(e) <==> is_top(table, e) && p(e) by {
        lemma_filter_contains(s, p, e);
    }
}

/// Leaving entries out keeps a sequence in strictly rising order.
proof fn lemma_filter_strict(s: Seq<Entry>, p: spec_fn(Entry) -> bool)
    requires
        strictly_sorted(s),
    ensures
        strictly_sorted(s.filter(p)),
    decreases s.len(),
{
    reveal_with_fuel(Seq::filter, 1);
    if s.len() > 0 {
        let t = s.drop_last();
        let f = t.filter(p);
        assert(strictly_sorted(t)) by {
            assert forall|i: int, j: int| 0 <= i < j < t.len() implies entry_before(
                #[trigger] t[i],
                #[trigger] t[j],
            ) by {
                assert(t[i] == s[i] && t[j] == s[j]);
            }
        }
        lemma_filter_strict(t, p);
        if p(s.last()) {
            let g = s.filter(p);
            assert(g == f.push(s.last()));
            assert forall|i: int, j: int| 0 <= i < j < g.len() implies entry_before(
                #[trigger] g[i],
                #[trigger] g[j],
            ) by {
                assert(g[i] == f[i]);
                if j < f.len() {
                    assert(g[j] == f[j]);
                } else {
                    lemma_filter_contains(t, p, f[i]);
                    assert(f.contains(f[i]));
                    let k = choose|k: int| 0 <= k < t.len() && t[k] == f[i];
                    assert(s[k] == t[k]);
                    assert(s[s.len() - 1] == s.last());
                }
            }
        }
    }
}

/// The best version of the first tables, with and without the one at position 1.
pub proof fn lemma_leave_out(
    t0: Seq<Seq<Entry>>,
    t1: Seq<Seq<Entry>>,
    k: int,
    key: Seq<u8>,
    ts: i64,
    now: i64,
)
    requires
        t0.len() == t1.len() + 1,
        1 <= k <= t1.len(),
        t0[0] == t1[0],
        forall|i: int| 1 <= i < t1.len() ==> #[trigger] t1[i] == t0[i + 1],
        forall|i: int|
            0 <= i < t0.len() && i != 1 && newest(#[trigger] t0[i], key, ts, u64::MAX) is Some
                && newest(t0[1], key, ts, u64::MAX) is Some ==> newest(
                t0[1],
                key,
                ts,
                u64::MAX,
            )->0.seq < newest(t0[i], key, ts, u64::MAX)->0.seq,
    ensures
        ({
            let x = best_version(t0.subrange(0, k + 1), key, ts, now, u64::MAX);
            let y = best_version(t1.subrange(0, k), key, ts, now, u64::MAX);
            let n = newest(t0[1], key, ts, u64::MAX);
            if y is Some {
                x == y
            } else if n is Some && live_at(n->0.expire_at, now) {
                x == n
            } else {
                x is None
            }
        }),
    decreases k,
{
    let a = t0.subrange(0, k + 1);
    let b = t1.subrange(0, k);
    if k == 1 {
        reveal_with_fuel(best_version, 3);
        assert(b.drop_last() =~= Seq::<Seq<Entry>>::empty());
        assert(a.drop_last() =~= b);
        assert(b.last() == t0[0]);
        assert(a.last() == t0[1]);
    } else {
        lemma_leave_out(t0, t1, k - 1, key, ts, now);
        assert(a.drop_last() =~= t0.subrange(0, k));
        assert(b.drop_last() =~= t1.subrange(0, k - 1));
        assert(a.last() == t0[k]);
        assert(b.last() == t1[k - 1]);
        assert(t1[k - 1] == t0[k]);
        lemma_best_version(b.drop_last(), key, ts, now, u64::MAX);
    }
}

} // verus!
