//! Merging sorted runs of records into one stream with a single record per
//! `(key, ts)`.

use vstd::prelude::*;

use crate::bytes::{bytes_eq, copy_bytes, Order};
use crate::order::{
    compare_versions, entry_before, lemma_before_asymmetric, lemma_before_transitive, same_version,
    version_lt, version_sorted,
};
use crate::record::{entries, Entry, InternalRecord};

verus! {

/// What is left of a run, and how it ranks among the others.
pub struct RunView {
    pub rank: u64,
    pub rest: Seq<Entry>,
}

/// The runs of a merge, and the `(key, ts)` that was taken last.
pub struct MergeView {
    pub runs: Seq<RunView>,
    pub last: Option<(Seq<u8>, i64)>,
}

impl MergeView {
    /// `e` is a version of the `(key, ts)` that was taken last.
    pub open spec fn seen(self, e: Entry) -> bool {
        self.last == Some((e.key, e.ts))
    }

    /// Run `j` takes precedence over run `i`.
    pub open spec fn outranks(self, j: int, i: int) -> bool {
        self.runs[j].rank > self.runs[i].rank || (self.runs[j].rank == self.runs[i].rank && j < i)
    }

    /// `e` stands at position `p` of run `i` and is the version to take of its
    /// `(key, ts)`: none of them was taken, none stands before it in its run,
    /// and no run that takes precedence has one.
    pub open spec fn wins_at(self, i: int, p: int, e: Entry) -> bool {
        &&& 0 <= i < self.runs.len()
        &&& 0 <= p < self.runs[i].rest.len()
        &&& self.runs[i].rest[p] == e
        &&& !self.seen(e)
        &&& forall|q: int| 0 <= q < p ==> !same_version(#[trigger] self.runs[i].rest[q], e)
        &&& forall|j: int, q: int|
            0 <= j < self.runs.len() && self.outranks(j, i) && 0 <= q < self.runs[j].rest.len()
                ==> !same_version(#[trigger] self.runs[j].rest[q], e)
    }

    /// `e` is the version to take of its `(key, ts)`.
    pub open spec fn wins(self, e: Entry) -> bool {
        exists|i: int, p: int| #[trigger] self.wins_at(i, p, e)
    }

    /// Every run is sorted, and nothing that is left comes before what was taken.
    pub open spec fn well_formed(self) -> bool {
        &&& forall|i: int|
            0 <= i < self.runs.len() ==> version_sorted((#[trigger] self.runs[i]).rest)
        &&& forall|i: int, p: int|
            0 <= i < self.runs.len() && 0 <= p < self.runs[i].rest.len() ==> self.not_before_last(
                #[trigger] self.runs[i].rest[p],
            )
    }

    pub open spec fn not_before_last(self, e: Entry) -> bool {
        match self.last {
            Some((k, t)) => !version_lt(e.key, e.ts, k, t),
            None => true,
        }
    }

    /// The head of run `i` comes first among all heads.
    pub open spec fn leads(self, i: int) -> bool {
        &&& 0 <= i < self.runs.len()
        &&& self.runs[i].rest.len() > 0
        &&& forall|j: int|
            0 <= j < self.runs.len() && (#[trigger] self.runs[j]).rest.len() > 0 && j != i
                ==> entry_before(self.runs[i].rest[0], self.runs[j].rest[0]) || (same_version(
                self.runs[i].rest[0],
                self.runs[j].rest[0],
            ) && self.outranks(i, j))
    }

    /// The merge with the head of run `i` dropped.
    pub open spec fn dropped(self, i: int, last: Option<(Seq<u8>, i64)>) -> MergeView {
        MergeView {
            runs: self.runs.update(
                i,
                RunView { rank: self.runs[i].rank, rest: self.runs[i].rest.drop_first() },
            ),
            last,
        }
    }

    /// `after` is what is left once the first of the winning entries, `e`, was taken.
    pub open spec fn yields(self, e: Entry, after: MergeView) -> bool {
        &&& self.wins(e)
        &&& forall|f: Entry| #[trigger] self.wins(f) && f != e ==> entry_before(e, f)
        &&& forall|f: Entry| #[trigger] after.wins(f) <==> self.wins(f) && f != e
    }
}

/// The head of a leading run is not after anything that is left.
proof fn lemma_leader_is_first(v: MergeView, i: int, j: int, q: int)
    requires
        v.well_formed(),
        v.leads(i),
        0 <= j < v.runs.len(),
        0 <= q < v.runs[j].rest.len(),
    ensures
        entry_before(v.runs[i].rest[0], v.runs[j].rest[q]) || same_version(
            v.runs[i].rest[0],
            v.runs[j].rest[q],
        ),
        same_version(v.runs[i].rest[0], v.runs[j].rest[q]) ==> same_version(
            v.runs[i].rest[0],
            v.runs[j].rest[0],
        ),
{
    let e = v.runs[i].rest[0];
    let h = v.runs[j].rest[0];
    let f = v.runs[j].rest[q];
    assert(version_sorted(v.runs[j].rest));
    if q > 0 {
        assert(entry_before(v.runs[j].rest[0], v.runs[j].rest[q]) || same_version(h, f));
    }
    if j != i {
        assert(v.runs[j].rest.len() > 0);
    }
    if entry_before(e, h) && entry_before(h, f) {
        lemma_before_transitive(e, h, f);
    }
    if same_version(e, f) {
        if entry_before(e, h) {
            if entry_before(h, f) {
                lemma_before_asymmetric(e, f);
            } else {
                lemma_before_asymmetric(e, h);
            }
        }
    }
}

/// Dropping a head whose `(key, ts)` was taken changes nothing.
proof fn lemma_drop_seen(v: MergeView, i: int)
    requires
        v.well_formed(),
        0 <= i < v.runs.len(),
        v.runs[i].rest.len() > 0,
        v.seen(v.runs[i].rest[0]),
    ensures
        v.dropped(i, v.last).well_formed(),
        forall|f: Entry| #[trigger] v.dropped(i, v.last).wins(f) <==> v.wins(f),
{
    let w = v.dropped(i, v.last);
    lemma_dropped_well_formed(v, i, v.last);
    assert forall|f: Entry| #[trigger] w.wins(f) <==> v.wins(f) by {
        if v.wins(f) {
            let (a, p) = choose|a: int, p: int| #[trigger] v.wins_at(a, p, f);
            lemma_wins_survives(v, i, v.last, a, p, f);
        }
        if w.wins(f) {
            let (a, p) = choose|a: int, p: int| #[trigger] w.wins_at(a, p, f);
            lemma_wins_came_from(v, i, v.last, a, p, f);
        }
    }
}

proof fn lemma_dropped_well_formed(v: MergeView, i: int, last: Option<(Seq<u8>, i64)>)
    requires
        v.well_formed(),
        0 <= i < v.runs.len(),
        v.runs[i].rest.len() > 0,
        last == v.last || (last is Some && forall|j: int, q: int|
            0 <= j < v.runs.len() && 0 <= q < v.runs[j].rest.len() ==> !version_lt(
                (#[trigger] v.runs[j].rest[q]).key,
                v.runs[j].rest[q].ts,
                (last->0).0,
                (last->0).1,
            )),
    ensures
        v.dropped(i, last).well_formed(),
{
    let w = v.dropped(i, last);
    assert forall|j: int| 0 <= j < w.runs.len() implies version_sorted(
        (#[trigger] w.runs[j]).rest,
    ) by {
        assert(version_sorted(v.runs[j].rest));
        if j == i {
            let s = v.runs[i].rest;
            let t = w.runs[j].rest;
            assert forall|a: int, b: int| 0 <= a < b < t.len() implies entry_before(
                #[trigger] t[a],
                #[trigger] t[b],
            ) || same_version(t[a], t[b]) by {
                assert(t[a] == s[a + 1] && t[b] == s[b + 1]);
            }
        }
    }
    assert forall|j: int, q: int| 0 <= j < w.runs.len() && 0 <= q < w.runs[j].rest.len() implies w.not_before_last(
        #[trigger] w.runs[j].rest[q],
    ) by {
        let k = if j == i {
            q + 1
        } else {
            q
        };
        assert(w.runs[j].rest[q] == v.runs[j].rest[k]);
        assert(v.not_before_last(v.runs[j].rest[k]));
    }
}

/// A winning entry of another `(key, ts)` than the dropped head still wins.
proof fn lemma_wins_survives(
    v: MergeView,
    i: int,
    last: Option<(Seq<u8>, i64)>,
    a: int,
    p: int,
    f: Entry,
)
    requires
        0 <= i < v.runs.len(),
        v.runs[i].rest.len() > 0,
        v.wins_at(a, p, f),
        !same_version(v.runs[i].rest[0], f),
        last != Some((f.key, f.ts)),
    ensures
        v.dropped(i, last).wins(f),
{
    let w = v.dropped(i, last);
    let k = if a == i {
        p - 1
    } else {
        p
    };
    if a == i {
        assert(p > 0);
    }
    assert forall|q: int| 0 <= q < k implies !same_version(#[trigger] w.runs[a].rest[q], f) by {
        if a == i {
            assert(w.runs[a].rest[q] == v.runs[a].rest[q + 1]);
        } else {
            assert(w.runs[a].rest[q] == v.runs[a].rest[q]);
        }
    }
    assert forall|j: int, q: int|
        0 <= j < w.runs.len() && w.outranks(j, a) && 0 <= q < w.runs[j].rest.len() implies !same_version(
        #[trigger] w.runs[j].rest[q],
        f,
    ) by {
        assert(v.outranks(j, a));
        if j == i {
            assert(w.runs[j].rest[q] == v.runs[j].rest[q + 1]);
        } else {
            assert(w.runs[j].rest[q] == v.runs[j].rest[q]);
        }
    }
    assert(w.wins_at(a, k, f));
}

/// What wins after a head was dropped won before, unless it is a version of
/// what had been taken or of the head.
proof fn lemma_wins_came_from(
    v: MergeView,
    i: int,
    last: Option<(Seq<u8>, i64)>,
    a: int,
    p: int,
    f: Entry,
)
    requires
        0 <= i < v.runs.len(),
        v.runs[i].rest.len() > 0,
        v.dropped(i, last).wins_at(a, p, f),
        !v.seen(f),
        !same_version(v.runs[i].rest[0], f),
    ensures
        v.wins(f),
{
    let w = v.dropped(i, last);
    let k = if a == i {
        p + 1
    } else {
        p
    };
    assert(v.runs[a].rest[k] == f);
    assert forall|q: int| 0 <= q < k implies !same_version(#[trigger] v.runs[a].rest[q], f) by {
        if a == i {
            if q > 0 {
                assert(w.runs[a].rest[q - 1] == v.runs[a].rest[q]);
            }
        } else {
            assert(w.runs[a].rest[q] == v.runs[a].rest[q]);
        }
    }
    assert forall|j: int, q: int|
        0 <= j < v.runs.len() && v.outranks(j, a) && 0 <= q < v.runs[j].rest.len() implies !same_version(
        #[trigger] v.runs[j].rest[q],
        f,
    ) by {
        assert(w.outranks(j, a));
        if j == i {
            if q > 0 {
                assert(w.runs[j].rest[q - 1] == v.runs[j].rest[q]);
            }
        } else {
            assert(w.runs[j].rest[q] == v.runs[j].rest[q]);
        }
    }
    assert(v.wins_at(a, k, f));
}

/// Taking the head of the leading run yields the first winning entry.
proof fn lemma_take_leader(v: MergeView, i: int)
    requires
        v.well_formed(),
        v.leads(i),
        !v.seen(v.runs[i].rest[0]),
    ensures
        ({
            let e = v.runs[i].rest[0];
            let w = v.dropped(i, Some((e.key, e.ts)));
            w.well_formed() && v.yields(e, w)
        }),
{
    let e = v.runs[i].rest[0];
    let last = Some((e.key, e.ts));
    let w = v.dropped(i, last);
    assert forall|j: int, q: int| 0 <= j < v.runs.len() && 0 <= q < v.runs[j].rest.len() implies !version_lt(
        (#[trigger] v.runs[j].rest[q]).key,
        v.runs[j].rest[q].ts,
        e.key,
        e.ts,
    ) by {
        lemma_leader_is_first(v, i, j, q);
        let f = v.runs[j].rest[q];
        if entry_before(e, f) {
            lemma_before_asymmetric(e, f);
        } else if entry_before(f, e) {
            lemma_before_asymmetric(f, e);
        }
    }
    lemma_dropped_well_formed(v, i, last);
    assert(v.wins_at(i, 0, e)) by {
        assert forall|j: int, q: int|
            0 <= j < v.runs.len() && v.outranks(j, i) && 0 <= q < v.runs[j].rest.len() implies !same_version(
            #[trigger] v.runs[j].rest[q],
            e,
        ) by {
            if same_version(v.runs[j].rest[q], e) {
                lemma_leader_is_first(v, i, j, q);
                assert(j != i);
                assert(v.runs[j].rest.len() > 0);
                if entry_before(e, v.runs[j].rest[0]) {
                    lemma_before_asymmetric(e, v.runs[j].rest[0]);
                }
            }
        }
    }
    // An entry of the head's version wins only if it is the head.
    assert forall|f: Entry| #[trigger] v.wins(f) && same_version(e, f) implies f == e by {
        let (a, p) = choose|a: int, p: int| #[trigger] v.wins_at(a, p, f);
        lemma_leader_is_first(v, i, a, p);
        if a == i {
            if p > 0 {
                assert(!same_version(v.runs[i].rest[0], f));
            }
        } else {
            assert(v.runs[a].rest.len() > 0);
            if entry_before(e, v.runs[a].rest[0]) {
                lemma_before_asymmetric(e, v.runs[a].rest[0]);
            }
            assert(v.outranks(i, a));
            assert(!same_version(v.runs[i].rest[0], f));
        }
    }
    assert forall|f: Entry| #[trigger] v.wins(f) && f != e implies entry_before(e, f) by {
        let (a, p) = choose|a: int, p: int| #[trigger] v.wins_at(a, p, f);
        lemma_leader_is_first(v, i, a, p);
    }
    assert forall|f: Entry| #[trigger] w.wins(f) <==> v.wins(f) && f != e by {
        if v.wins(f) && f != e {
            let (a, p) = choose|a: int, p: int| #[trigger] v.wins_at(a, p, f);
            assert(!same_version(e, f));
            lemma_wins_survives(v, i, last, a, p, f);
        }
        if w.wins(f) {
            let (a, p) = choose|a: int, p: int| #[trigger] w.wins_at(a, p, f);
            assert(!same_version(e, f));
            // `f` stands after the head, and the head after what was taken before.
            let k = if a == i {
                p + 1
            } else {
                p
            };
            assert(v.runs[a].rest[k] == f);
            lemma_leader_is_first(v, i, a, k);
            assert(v.not_before_last(v.runs[i].rest[0]));
            if v.seen(f) {
                assert(entry_before(e, f));
            }
            lemma_wins_came_from(v, i, last, a, p, f);
        }
    }
}

/// A sorted run of records that is consumed from the front.
pub struct Run {
    records: Vec<InternalRecord>,
    pos: usize,
    rank: u64,
}

impl Run {
    pub closed spec fn view(&self) -> RunView {
        RunView {
            rank: self.rank,
            rest: entries(self.records@).subrange(self.pos as int, self.records@.len() as int),
        }
    }

    pub closed spec fn well_formed(&self) -> bool {
        self.pos <= self.records@.len()
    }

    pub fn new(records: Vec<InternalRecord>, rank: u64) -> (r: Run)
        ensures
            r.well_formed(),
            r@ == (RunView { rank, rest: entries(records@) }),
    {
        let r = Run { records, pos: 0, rank };
        assert(r@.rest =~= entries(records@));
        r
    }
}

pub open spec fn run_views(s: Seq<Run>) -> Seq<RunView> {
    s.map_values(|r: Run| r@)
}

/// Merges runs into a stream with one record per `(key, ts)`, in rising order.
/// Of several versions the one in the run of the highest rank is taken.
pub struct Merger {
    runs: Vec<Run>,
    last: Option<(Vec<u8>, i64)>,
}

impl Merger {
    pub closed spec fn view(&self) -> MergeView {
        MergeView {
            runs: run_views(self.runs@),
            last: match self.last {
                Some((k, t)) => Some((k@, t)),
                None => None,
            },
        }
    }

    pub closed spec fn well_formed(&self) -> bool {
        &&& self@.well_formed()
        &&& forall|i: int| 0 <= i < self.runs@.len() ==> (#[trigger] self.runs@[i]).well_formed()
    }

    pub fn new(runs: Vec<Run>) -> (r: Merger)
        requires
            forall|i: int|
                0 <= i < runs@.len() ==> (#[trigger] runs@[i]).well_formed() && version_sorted(
                    runs@[i]@.rest,
                ),
        ensures
            r.well_formed(),
            r@ == (MergeView { runs: run_views(runs@), last: None }),
    {
        let m = Merger { runs, last: None };
        proof {
            assert forall|i: int| 0 <= i < m@.runs.len() implies version_sorted(
                (#[trigger] m@.runs[i]).rest,
            ) by {
                assert(m@.runs[i] == runs@[i]@);
            }
        }
        m
    }

    /// The run whose head comes first.
    fn leader(&self) -> (r: Option<usize>)
        requires
            self.well_formed(),
        ensures
            match r {
                Some(i) => self@.leads(i as int),
                None => forall|i: int|
                    0 <= i < self@.runs.len() ==> (#[trigger] self@.runs[i]).rest.len() == 0,
            },
    {
        let mut best: Option<usize> = None;
        let mut i: usize = 0;
        while i < self.runs.len()
            invariant
                i <= self.runs.len(),
                self.well_formed(),
                match best {
                    Some(b) => {
                        &&& b < i
                        &&& self@.runs[b as int].rest.len() > 0
                        &&& forall|j: int|
                            0 <= j < i && (#[trigger] self@.runs[j]).rest.len() > 0 && j != b
                                ==> entry_before(
                                self@.runs[b as int].rest[0],
                                self@.runs[j].rest[0],
                            ) || (same_version(
                                self@.runs[b as int].rest[0],
                                self@.runs[j].rest[0],
                            ) && self@.outranks(b as int, j))
                    },
                    None => forall|j: int|
                        0 <= j < i ==> (#[trigger] self@.runs[j]).rest.len() == 0,
                },
            decreases self.runs.len() - i,
        {
            let run = &self.runs[i];
            assert(self@.runs[i as int] == run@);
            assert(run.well_formed());
            if run.pos < run.records.len() {
                match best {
                    Some(b) => {
                        let top = &self.runs[b];
                        assert(self@.runs[b as int] == top@);
                        assert(top.well_formed());
                        let x = &top.records[top.pos];
                        let y = &run.records[run.pos];
                        let ghost e = self@.runs[b as int].rest[0];
                        let ghost f = self@.runs[i as int].rest[0];
                        assert(e == x@);
                        assert(f == y@);
                        let replace = match compare_versions(&x.key, x.ts, &y.key, y.ts) {
                            Order::Less => false,
                            Order::Equal => run.rank > top.rank,
                            Order::Greater => true,
                        };
                        if replace {
                            proof {
                                assert forall|j: int|
                                    0 <= j < i + 1 && (#[trigger] self@.runs[j]).rest.len() > 0 && j
                                        != i implies entry_before(f, self@.runs[j].rest[0]) || (
                                same_version(f, self@.runs[j].rest[0]) && self@.outranks(
                                    i as int,
                                    j,
                                )) by {
                                    let h = self@.runs[j].rest[0];
                                    if j != b {
                                        if entry_before(f, e) && entry_before(e, h) {
                                            lemma_before_transitive(f, e, h);
                                        }
                                    }
                                }
                            }
                            best = Some(i);
                        }
                    },
                    None => {
                        best = Some(i);
                    },
                }
            }
            i = i + 1;
        }
        best
    }

    /// Drops the head of run `i` and gives it.
    fn pop_run(&mut self, i: usize) -> (r: InternalRecord)
        requires
            i < old(self)@.runs.len(),
            old(self)@.runs[i as int].rest.len() > 0,
            old(self).well_formed(),
        ensures
            r@ == old(self)@.runs[i as int].rest[0],
            final(self)@ == old(self)@.dropped(i as int, old(self)@.last),
            forall|j: int|
                0 <= j < final(self).runs@.len() ==> (#[trigger] final(self).runs@[j]).well_formed(),
    {
        let ghost before = *self;
        assert(before@.runs[i as int] == before.runs@[i as int]@);
        assert(before.runs@[i as int].well_formed());
        let run = &mut self.runs[i];
        let len: usize = run.records.len();
        assert(run.pos < len);
        let r = run.records[run.pos].copy();
        run.pos = run.pos + 1;
        proof {
            let s = entries(before.runs@[i as int].records@);
            let p = before.runs@[i as int].pos as int;
            assert(s.subrange(p, s.len() as int).drop_first() =~= s.subrange(p + 1, s.len() as int));
            assert(self@.runs =~= before@.dropped(i as int, before@.last).runs);
        }
        r
    }

    /// Takes the next record: the first in order whose `(key, ts)` was not taken yet.
    pub fn next_version(&mut self) -> (r: Option<InternalRecord>)
        requires
            old(self).well_formed(),
        ensures
            final(self).well_formed(),
            match r {
                Some(rec) => old(self)@.yields(rec@, final(self)@),
                None => forall|f: Entry| !#[trigger] old(self)@.wins(f),
            },
            r is None ==> forall|f: Entry| !#[trigger] final(self)@.wins(f),
            final(self)@.left() < old(self)@.left() || r is None,
    {
        let ghost start = self@;
        loop
            invariant
                self.well_formed(),
                start == old(self)@,
                self@.left() <= start.left(),
                forall|f: Entry| #[trigger] self@.wins(f) <==> start.wins(f),
            decreases self@.left(),
        {
            match self.leader() {
                None => {
                    proof {
                        assert forall|f: Entry| !#[trigger] self@.wins(f) by {
                            if self@.wins(f) {
                                let (a, p) = choose|a: int, p: int| #[trigger]
                                    self@.wins_at(a, p, f);
                                assert(self@.runs[a].rest.len() == 0);
                            }
                        }
                        assert forall|f: Entry| !#[trigger] start.wins(f) by {
                            assert(self@.wins(f) <==> start.wins(f));
                        }
                    }
                    return None;
                },
                Some(i) => {
                    let ghost before = self@;
                    let rec = self.pop_run(i);
                    proof {
                        lemma_left_drops(before, i as int, before.last);
                    }
                    let taken = match &self.last {
                        Some((k, t)) => *t == rec.ts && bytes_eq(k, &rec.key),
                        None => false,
                    };
                    if taken {
                        proof {
                            lemma_drop_seen(before, i as int);
                        }
                    } else {
                        self.last = Some((copy_bytes(&rec.key), rec.ts));
                        proof {
                            lemma_take_leader(before, i as int);
                            assert(self@ == before.dropped(i as int, Some((rec@.key, rec@.ts))));
                            assert(before.yields(rec@, self@));
                            assert forall|f: Entry| #[trigger] self@.wins(f) <==> start.wins(f) && f
                                != rec@ by {
                                assert(before.wins(f) <==> start.wins(f));
                            }
                            assert forall|f: Entry| #[trigger] start.wins(f) && f
                                != rec@ implies entry_before(rec@, f) by {
                                assert(before.wins(f));
                            }
                            assert(start.wins(rec@));
                        }
                        return Some(rec);
                    }
                },
            }
        }
    }
}

impl MergeView {
    /// The number of entries that are left.
    pub open spec fn left(self) -> nat {
        total_rest(self.runs)
    }
}

pub open spec fn total_rest(runs: Seq<RunView>) -> nat
    decreases runs.len(),
{
    if runs.len() == 0 {
        0
    } else {
        total_rest(runs.drop_last()) + runs.last().rest.len()
    }
}

proof fn lemma_total_rest_update(runs: Seq<RunView>, i: int, r: RunView)
    requires
        0 <= i < runs.len(),
        r.rest.len() + 1 == runs[i].rest.len(),
    ensures
        total_rest(runs.update(i, r)) + 1 == total_rest(runs),
    decreases runs.len(),
{
    let n = runs.len() - 1;
    if i == n {
        assert(runs.update(i, r).drop_last() =~= runs.drop_last());
    } else {
        assert(runs.update(i, r).drop_last() =~= runs.drop_last().update(i, r));
        lemma_total_rest_update(runs.drop_last(), i, r);
    }
}

proof fn lemma_left_drops(v: MergeView, i: int, last: Option<(Seq<u8>, i64)>)
    requires
        0 <= i < v.runs.len(),
        v.runs[i].rest.len() > 0,
    ensures
        v.dropped(i, last).left() + 1 == v.left(),
{
    lemma_total_rest_update(
        v.runs,
        i,
        RunView { rank: v.runs[i].rank, rest: v.runs[i].rest.drop_first() },
    );
}

} // verus!
