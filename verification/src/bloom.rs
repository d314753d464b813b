//! A bloom filter over keys: a set that may report a key it does not hold, but
//! never misses one it does.

use vstd::prelude::*;

verus! {

/// The version of the hash that filters are built with today. A filter with
/// another version answers by another hash and has to be rebuilt.
pub const CURRENT_HASH_VERSION: u32 = 1;

/// The most words a filter takes, however many keys are announced.
pub const MAX_WORDS: usize = 0x0200_0000;

/// The most bits that one key sets.
pub const MAX_HASHES: u32 = 30;

/// A 64-bit FNV-1a hash that starts from `basis`.
pub open spec fn fnv(basis: u64, s: Seq<u8>) -> u64
    decreases s.len(),
{
    if s.len() == 0 {
        basis
    } else {
        vstd::wrapping::u64_specs::wrapping_mul(
            fnv(basis, s.drop_last()) ^ (s.last() as u64),
            0x100000001b3,
        )
    }
}

pub fn fnv_hash(basis: u64, s: &[u8]) -> (h: u64)
    ensures
        h == fnv(basis, s@),
{
    let mut h: u64 = basis;
    let mut i: usize = 0;
    assert(s@.subrange(0, 0) =~= Seq::<u8>::empty());
    while i < s.len()
        invariant
            i <= s.len(),
            h == fnv(basis, s@.subrange(0, i as int)),
        decreases s.len() - i,
    {
        assert(s@.subrange(0, i + 1).drop_last() =~= s@.subrange(0, i as int));
        h = (h ^ (s[i] as u64)).wrapping_mul(0x100000001b3);
        i = i + 1;
    }
    assert(s@.subrange(0, s@.len() as int) =~= s@);
    h
}

/// The bit that the `i`-th hash of `key` picks among `m`.
pub open spec fn bit_position(key: Seq<u8>, i: u32, m: int) -> int {
    let h1 = fnv(0xcbf29ce484222325, key);
    let h2 = fnv(0x9e3779b97f4a7c15, key);
    let step = vstd::wrapping::u64_specs::wrapping_mul(i as u64, h2);
    vstd::wrapping::u64_specs::wrapping_add(h1, step) as int % m
}

/// Whether bit `p` is set.
pub open spec fn bit_at(bits: Seq<u64>, p: int) -> bool {
    (bits[p / 64] >> ((p % 64) as u64)) & 1 == 1
}

/// A bloom filter.
#[derive(Debug)]
pub struct BloomFilter {
    pub bits: Vec<u64>,
    pub num_hashes: u32,
    pub hash_version: u32,
}

/// A bloom filter with its words as a sequence.
pub struct BloomView {
    pub bits: Seq<u64>,
    pub num_hashes: u32,
    pub hash_version: u32,
}

impl View for BloomFilter {
    type V = BloomView;

    open spec fn view(&self) -> BloomView {
        BloomView {
            bits: self.bits@,
            num_hashes: self.num_hashes,
            hash_version: self.hash_version,
        }
    }
}

/// The number of words for `n` keys at `per_key` bits each.
pub open spec fn word_count(n: int, per_key: int) -> int {
    let words = (n * per_key + 63) / 64;
    if words < 1 {
        1
    } else if words > MAX_WORDS {
        MAX_WORDS as int
    } else {
        words
    }
}

/// The number of hashes that suits `per_key` bits per key.
pub open spec fn hash_count(per_key: int) -> u32 {
    let k = per_key * 69 / 100;
    if k < 1 {
        1
    } else if k > MAX_HASHES {
        MAX_HASHES
    } else {
        k as u32
    }
}

impl BloomView {
    pub open spec fn bit_len(self) -> int {
        self.bits.len() as int * 64
    }

    /// Whether the filter reports `key`: all bits that the key picks are set.
    /// A filter without bits, or with more than any filter is built with,
    /// reports every key.
    pub open spec fn reports(self, key: Seq<u8>) -> bool {
        self.bits.len() == 0 || self.bits.len() > MAX_WORDS || forall|i: u32|
            i < self.num_hashes ==> bit_at(
                self.bits,
                #[trigger] bit_position(key, i, self.bit_len()),
            )
    }

    /// `key` picks bit `p`.
    pub open spec fn picks(self, key: Seq<u8>, p: int) -> bool {
        exists|i: u32| i < self.num_hashes && p == #[trigger] bit_position(key, i, self.bit_len())
    }

    /// `after` is this filter with `key` added: exactly the bits that the key
    /// picks have been set.
    pub open spec fn adds(self, key: Seq<u8>, after: BloomView) -> bool {
        &&& after.bits.len() == self.bits.len()
        &&& after.num_hashes == self.num_hashes
        &&& after.hash_version == self.hash_version
        &&& forall|p: int|
            0 <= p < self.bit_len() ==> (#[trigger] bit_at(after.bits, p) <==> bit_at(self.bits, p)
                || self.picks(key, p))
    }

    pub open spec fn blank(n: int, per_key: int) -> BloomView {
        BloomView {
            bits: Seq::new(word_count(n, per_key) as nat, |i: int| 0u64),
            num_hashes: hash_count(per_key),
            hash_version: CURRENT_HASH_VERSION,
        }
    }
}

/// A filter reports a key that was just added, and still reports what it
/// reported before.
pub proof fn lemma_added_is_reported(before: BloomView, key: Seq<u8>, after: BloomView)
    requires
        before.adds(key, after),
    ensures
        after.reports(key),
        forall|k: Seq<u8>| before.reports(k) ==> #[trigger] after.reports(k),
{
    if 0 < before.bits.len() <= MAX_WORDS {
        assert forall|i: u32| i < after.num_hashes implies bit_at(
            after.bits,
            #[trigger] bit_position(key, i, after.bit_len()),
        ) by {
            assert(before.picks(key, bit_position(key, i, before.bit_len())));
        }
        assert forall|k: Seq<u8>| before.reports(k) implies #[trigger] after.reports(k) by {
            assert forall|i: u32| i < after.num_hashes implies bit_at(
                after.bits,
                #[trigger] bit_position(k, i, after.bit_len()),
            ) by {
                assert(bit_at(before.bits, bit_position(k, i, before.bit_len())));
            }
        }
    }
}

proof fn lemma_set_bit(w: u64, b: u64, c: u64)
    requires
        b < 64,
        c < 64,
    ensures
        ((w | (1u64 << b)) >> c) & 1 == 1 <==> (w >> c) & 1 == 1 || b == c,
{
    assert(((w | (1u64 << b)) >> c) & 1 == 1 <==> (w >> c) & 1 == 1 || b == c) by (bit_vector)
        requires
            b < 64,
            c < 64,
    ;
}

/// Computes [`bit_position`].
fn pick(key: &[u8], i: u32, m: u64) -> (p: u64)
    requires
        m > 0,
    ensures
        p as int == bit_position(key@, i, m as int),
        p < m,
{
    let h1 = fnv_hash(0xcbf29ce484222325, key);
    let h2 = fnv_hash(0x9e3779b97f4a7c15, key);
    h1.wrapping_add((i as u64).wrapping_mul(h2)) % m
}

impl BloomFilter {
    /// The number of bits fits in a word.
    pub open spec fn well_formed(self) -> bool {
        self.bits@.len() <= MAX_WORDS
    }

    /// An empty filter for about `n` keys.
    pub fn with_bits_per_key(n: usize, per_key: usize) -> (r: BloomFilter)
        ensures
            r@ == BloomView::blank(n as int, per_key as int),
            r.well_formed(),
    {
        let words: usize = match n.checked_mul(per_key) {
            Some(total) => {
                let w: usize = if total % 64 == 0 {
                    total / 64
                } else {
                    total / 64 + 1
                };
                if w < 1 {
                    1
                } else if w > MAX_WORDS {
                    MAX_WORDS
                } else {
                    w
                }
            },
            None => MAX_WORDS,
        };
        let mut bits: Vec<u64> = Vec::new();
        let mut i: usize = 0;
        while i < words
            invariant
                i <= words,
                bits@ == Seq::new(i as nat, |j: int| 0u64),
            decreases words - i,
        {
            bits.push(0);
            i = i + 1;
            assert(bits@ =~= Seq::new(i as nat, |j: int| 0u64));
        }
        let hashes: u32 = if per_key >= 44 {
            MAX_HASHES
        } else {
            let k: u32 = (per_key as u32) * 69 / 100;
            if k < 1 {
                1
            } else {
                k
            }
        };
        BloomFilter { bits, num_hashes: hashes, hash_version: CURRENT_HASH_VERSION }
    }

    /// A filter that holds `keys`.
    pub fn from_keys_with_bits(keys: &Vec<Vec<u8>>, per_key: usize) -> (r: BloomFilter)
        ensures
            holds_keys(
                BloomView::blank(at_least_one(keys@.len() as int), per_key as int),
                key_views(keys@),
                r@,
            ),
            r.well_formed(),
    {
        let n: usize = if keys.len() == 0 {
            1
        } else {
            keys.len()
        };
        let mut filter = BloomFilter::with_bits_per_key(n, per_key);
        let ghost start = filter@;
        let mut i: usize = 0;
        assert(key_views(keys@).subrange(0, 0) =~= Seq::<Seq<u8>>::empty());
        while i < keys.len()
            invariant
                i <= keys.len(),
                filter.well_formed(),
                holds_keys(start, key_views(keys@).subrange(0, i as int), filter@),
            decreases keys.len() - i,
        {
            let ghost before = filter@;
            filter.insert(&keys[i]);
            proof {
                let done = key_views(keys@).subrange(0, i + 1);
                assert(done.drop_last() =~= key_views(keys@).subrange(0, i as int));
                assert(done.last() == keys@[i as int]@);
                assert(before.adds(done.last(), filter@));
                assert(holds_keys(start, done, filter@));
            }
            i = i + 1;
        }
        assert(key_views(keys@).subrange(0, keys@.len() as int) =~= key_views(keys@));
        filter
    }

    /// Adds a key.
    pub fn insert(&mut self, key: &[u8])
        requires
            old(self).well_formed(),
        ensures
            old(self)@.adds(key@, final(self)@),
            final(self).well_formed(),
    {
        if self.bits.len() == 0 {
            return;
        }
        let m: u64 = (self.bits.len() as u64) * 64;
        let ghost before = self@;
        let mut i: u32 = 0;
        while i < self.num_hashes
            invariant
                before == old(self)@,
                self.well_formed(),
                self.bits@.len() == before.bits.len() > 0,
                self.num_hashes == before.num_hashes,
                self.hash_version == before.hash_version,
                m == before.bits.len() * 64,
                i <= self.num_hashes,
                forall|p: int|
                    0 <= p < before.bit_len() ==> (#[trigger] bit_at(self.bits@, p) <==> bit_at(
                        before.bits,
                        p,
                    ) || exists|k: u32|
                        k < i && p == #[trigger] bit_position(key@, k, before.bit_len())),
            decreases self.num_hashes - i,
        {
            let p = pick(key, i, m);
            let w: usize = (p / 64) as usize;
            let b: u64 = p % 64;
            let ghost words = self.bits@;
            let word: u64 = self.bits[w] | (1u64 << b);
            self.bits.set(w, word);
            proof {
                assert forall|q: int| 0 <= q < before.bit_len() implies (#[trigger] bit_at(
                    self.bits@,
                    q,
                ) <==> bit_at(before.bits, q) || exists|k: u32|
                    k < i + 1 && q == #[trigger] bit_position(key@, k, before.bit_len())) by {
                    assert(bit_at(words, q) <==> bit_at(before.bits, q) || exists|k: u32|
                        k < i && q == #[trigger] bit_position(key@, k, before.bit_len()));
                    if q / 64 == w {
                        lemma_set_bit(words[w as int], b, (q % 64) as u64);
                    }
                    assert(bit_at(self.bits@, q) <==> bit_at(words, q) || q == p);
                    assert(p as int == bit_position(key@, i, before.bit_len()));
                }
            }
            i = i + 1;
        }
    }

    /// Whether the key may have been added. `false` means that it was not.
    pub fn may_contain(&self, key: &[u8]) -> (r: bool)
        ensures
            r == self@.reports(key@),
    {
        if self.bits.len() == 0 || self.bits.len() > MAX_WORDS {
            return true;
        }
        let m: u64 = (self.bits.len() as u64) * 64;
        let mut i: u32 = 0;
        while i < self.num_hashes
            invariant
                self.well_formed(),
                self.bits@.len() > 0,
                m == self@.bit_len(),
                i <= self.num_hashes,
                forall|k: u32|
                    k < i ==> bit_at(self.bits@, #[trigger] bit_position(key@, k, self@.bit_len())),
            decreases self.num_hashes - i,
        {
            let p = pick(key, i, m);
            let w: usize = (p / 64) as usize;
            if (self.bits[w] >> (p % 64)) & 1 != 1 {
                assert(!bit_at(self.bits@, bit_position(key@, i, self@.bit_len())));
                return false;
            }
            i = i + 1;
        }
        true
    }

    /// Whether the filter was built with today's hash.
    pub fn is_current(&self) -> (r: bool)
        ensures
            r == (self.hash_version == CURRENT_HASH_VERSION),
    {
        self.hash_version == CURRENT_HASH_VERSION
    }

    /// An equal filter.
    pub fn copy(&self) -> (r: BloomFilter)
        ensures
            r@ == self@,
            r.well_formed() == self.well_formed(),
    {
        BloomFilter {
            bits: vstd::slice::slice_to_vec(self.bits.as_slice()),
            num_hashes: self.num_hashes,
            hash_version: self.hash_version,
        }
    }
}

pub open spec fn at_least_one(n: int) -> int {
    if n < 1 {
        1
    } else {
        n
    }
}

/// The byte strings of a sequence of vectors.
pub open spec fn key_views(keys: Seq<Vec<u8>>) -> Seq<Seq<u8>> {
    keys.map_values(|k: Vec<u8>| k@)
}

/// `filter` is what `start` becomes when `keys` are added in turn.
pub open spec fn holds_keys(start: BloomView, keys: Seq<Seq<u8>>, filter: BloomView) -> bool
    decreases keys.len(),
{
    if keys.len() == 0 {
        filter == start
    } else {
        exists|before: BloomView|
            holds_keys(start, keys.drop_last(), before) && #[trigger] before.adds(
                keys.last(),
                filter,
            )
    }
}

/// A filter never misses a key that was added to it.
pub proof fn law_no_false_negatives(
    start: BloomView,
    keys: Seq<Seq<u8>>,
    filter: BloomView,
    key: Seq<u8>,
)
    requires
        holds_keys(start, keys, filter),
        keys.contains(key),
    ensures
        filter.reports(key),
    decreases keys.len(),
{
    let before = choose|before: BloomView|
        holds_keys(start, keys.drop_last(), before) && #[trigger] before.adds(keys.last(), filter);
    lemma_added_is_reported(before, keys.last(), filter);
    let i = choose|i: int| 0 <= i < keys.len() && keys[i] == key;
    if i < keys.len() - 1 {
        assert(keys.drop_last()[i] == key);
        law_no_false_negatives(start, keys.drop_last(), before, key);
    }
}

} // verus!
