//! Byte strings: their lexicographic order, prefixes, and fixed-width
//! big-endian integers.

use vstd::prelude::*;
use vstd::slice::slice_subrange;
use vstd::slice::slice_to_vec;
use vstd::utf8::encode_utf8;

verus! {

/// The outcome of comparing two values of a total order.
#[derive(Clone, Copy, Debug, PartialEq, Eq, Structural)]
pub enum Order {
    Less,
    Equal,
    Greater,
}

/// `a` and `b` agree before position `i`, and `a` is the smaller one there:
/// it has ended, or its byte is smaller.
pub open spec fn less_at(a: Seq<u8>, b: Seq<u8>, i: int) -> bool {
    &&& 0 <= i <= a.len()
    &&& i < b.len()
    &&& forall|j: int| 0 <= j < i ==> a[j] == b[j]
    &&& (i == a.len() || a[i] < b[i])
}

/// The lexicographic order of byte strings.
pub open spec fn lex_lt(a: Seq<u8>, b: Seq<u8>) -> bool {
    exists|i: int| less_at(a, b, i)
}

pub open spec fn lex_le(a: Seq<u8>, b: Seq<u8>) -> bool {
    a == b || lex_lt(a, b)
}

/// `s` begins with `p`.
pub open spec fn has_prefix(s: Seq<u8>, p: Seq<u8>) -> bool {
    p.len() <= s.len() && s.subrange(0, p.len() as int) == p
}

pub proof fn lemma_lex_irreflexive(a: Seq<u8>)
    ensures
        !lex_lt(a, a),
{
}

pub proof fn lemma_lex_transitive(a: Seq<u8>, b: Seq<u8>, c: Seq<u8>)
    requires
        lex_lt(a, b),
        lex_lt(b, c),
    ensures
        lex_lt(a, c),
{
    let i = choose|i: int| less_at(a, b, i);
    let j = choose|j: int| less_at(b, c, j);
    let k = if i < j {
        i
    } else {
        j
    };
    assert(less_at(a, c, k));
}

pub proof fn lemma_lex_asymmetric(a: Seq<u8>, b: Seq<u8>)
    requires
        lex_lt(a, b),
    ensures
        !lex_lt(b, a),
        a != b,
{
    if lex_lt(b, a) {
        lemma_lex_transitive(a, b, a);
    }
    lemma_lex_irreflexive(a);
}

/// The first position at which two byte strings differ, or at which one ends.
proof fn lemma_first_difference(a: Seq<u8>, b: Seq<u8>) -> (i: int)
    ensures
        0 <= i <= a.len(),
        i <= b.len(),
        forall|j: int| 0 <= j < i ==> a[j] == b[j],
        i == a.len() || i == b.len() || a[i] != b[i],
    decreases a.len(),
{
    if a.len() == 0 || b.len() == 0 || a[0] != b[0] {
        0
    } else {
        let i = lemma_first_difference(a.drop_first(), b.drop_first());
        assert forall|j: int| 0 <= j < i + 1 implies a[j] == b[j] by {
            if j > 0 {
                assert(a.drop_first()[j - 1] == b.drop_first()[j - 1]);
            }
        }
        i + 1
    }
}

pub proof fn lemma_lex_total(a: Seq<u8>, b: Seq<u8>)
    ensures
        lex_lt(a, b) || a == b || lex_lt(b, a),
{
    let i = lemma_first_difference(a, b);
    if i == a.len() && i == b.len() {
        assert(a =~= b);
    } else if i == a.len() || (i < b.len() && a[i] < b[i]) {
        assert(less_at(a, b, i));
    } else {
        assert(less_at(b, a, i));
    }
}

pub proof fn lemma_lex_le_transitive(a: Seq<u8>, b: Seq<u8>, c: Seq<u8>)
    requires
        lex_le(a, b),
        lex_le(b, c),
    ensures
        lex_le(a, c),
        lex_lt(a, b) || lex_lt(b, c) ==> lex_lt(a, c),
{
    if lex_lt(a, b) && lex_lt(b, c) {
        lemma_lex_transitive(a, b, c);
    }
}

/// `!(a <= b)` is `b < a`.
pub proof fn lemma_lex_not_le(a: Seq<u8>, b: Seq<u8>)
    ensures
        !lex_le(a, b) <==> lex_lt(b, a),
{
    lemma_lex_total(a, b);
    if lex_lt(b, a) {
        lemma_lex_asymmetric(b, a);
    }
}

/// A string that extends a prefix is not below it.
pub proof fn lemma_prefix_le(s: Seq<u8>, p: Seq<u8>)
    requires
        has_prefix(s, p),
    ensures
        lex_le(p, s),
{
    if p.len() == s.len() {
        assert(s =~= p);
    } else {
        assert forall|j: int| 0 <= j < p.len() implies p[j] == s[j] by {
            assert(s.subrange(0, p.len() as int)[j] == s[j]);
        }
        assert(less_at(p, s, p.len() as int));
    }
}

pub fn compare_bytes(a: &[u8], b: &[u8]) -> (r: Order)
    ensures
        r == Order::Less <==> lex_lt(a@, b@),
        r == Order::Equal <==> a@ == b@,
        r == Order::Greater <==> lex_lt(b@, a@),
{
    let mut i: usize = 0;
    while i < a.len() && i < b.len()
        invariant
            i <= a.len(),
            i <= b.len(),
            forall|j: int| 0 <= j < i ==> a@[j] == b@[j],
        decreases a.len() - i,
    {
        if a[i] < b[i] {
            proof {
                assert(less_at(a@, b@, i as int));
                lemma_lex_asymmetric(a@, b@);
            }
            return Order::Less;
        }
        if b[i] < a[i] {
            proof {
                assert(less_at(b@, a@, i as int));
                lemma_lex_asymmetric(b@, a@);
            }
            return Order::Greater;
        }
        i = i + 1;
    }
    if i < b.len() {
        proof {
            assert(less_at(a@, b@, i as int));
            lemma_lex_asymmetric(a@, b@);
        }
        return Order::Less;
    }
    if i < a.len() {
        proof {
            assert(less_at(b@, a@, i as int));
            lemma_lex_asymmetric(b@, a@);
        }
        return Order::Greater;
    }
    proof {
        assert(a@ =~= b@);
        lemma_lex_irreflexive(a@);
    }
    Order::Equal
}

pub fn bytes_eq(a: &[u8], b: &[u8]) -> (r: bool)
    ensures
        r == (a@ == b@),
{
    matches!(compare_bytes(a, b), Order::Equal)
}

pub fn bytes_lt(a: &[u8], b: &[u8]) -> (r: bool)
    ensures
        r == lex_lt(a@, b@),
{
    matches!(compare_bytes(a, b), Order::Less)
}

pub fn bytes_le(a: &[u8], b: &[u8]) -> (r: bool)
    ensures
        r == lex_le(a@, b@),
{
    proof {
        lemma_lex_total(a@, b@);
        if lex_lt(b@, a@) {
            lemma_lex_asymmetric(b@, a@);
        }
    }
    !matches!(compare_bytes(a, b), Order::Greater)
}

pub fn bytes_start_with(s: &[u8], p: &[u8]) -> (r: bool)
    ensures
        r == has_prefix(s@, p@),
{
    if p.len() > s.len() {
        return false;
    }
    bytes_eq(slice_subrange(s, 0, p.len()), p)
}

pub fn copy_bytes(s: &[u8]) -> (r: Vec<u8>)
    ensures
        r@ == s@,
{
    slice_to_vec(s)
}

/// Appends `s` to `buf`.
pub fn push_bytes(buf: &mut Vec<u8>, s: &[u8])
    ensures
        final(buf)@ == old(buf)@ + s@,
{
    buf.extend_from_slice(s);
    assert(buf@ =~= old(buf)@ + s@);
}

/// The bytes of a string's UTF-8 encoding.
pub fn str_bytes(s: &str) -> (r: Vec<u8>)
    ensures
        r@ == encode_utf8(s@),
{
    slice_to_vec(s.as_bytes())
}

/// The byte string that follows every string with prefix `p`, as far as there
/// is one: trailing `0xff` bytes go, and the last remaining byte is raised by
/// one. Where no byte remains, `p` followed by a zero byte.
pub open spec fn incremented(p: Seq<u8>) -> Seq<u8> {
    match prefix_successor(p) {
        Some(s) => s,
        None => p.push(0),
    }
}

/// The least byte string above every string with prefix `p`; none exists for
/// the empty prefix and for one made of `0xff` alone.
pub open spec fn prefix_successor(p: Seq<u8>) -> Option<Seq<u8>>
    decreases p.len(),
{
    if p.len() == 0 {
        None
    } else if p.last() < 255 {
        Some(p.drop_last().push((p.last() + 1) as u8))
    } else {
        prefix_successor(p.drop_last())
    }
}

/// Where a prefix has a successor, the strings with that prefix are exactly
/// those from the prefix itself up to the successor.
pub proof fn lemma_prefix_range(p: Seq<u8>, s: Seq<u8>)
    requires
        prefix_successor(p) is Some,
    ensures
        has_prefix(s, p) <==> lex_le(p, s) && lex_lt(s, prefix_successor(p)->0),
    decreases p.len(),
{
    let e = prefix_successor(p)->0;
    let n = (p.len() - 1) as int;
    if p.last() < 255 {
        if has_prefix(s, p) {
            lemma_prefix_le(s, p);
            assert forall|j: int| 0 <= j < n implies s[j] == e[j] by {
                assert(s.subrange(0, p.len() as int)[j] == s[j]);
            }
            assert(s.subrange(0, p.len() as int)[n] == s[n]);
            assert(less_at(s, e, n));
        }
        if lex_le(p, s) && lex_lt(s, e) {
            let i = choose|i: int| less_at(s, e, i);
            assert(i == n) by {
                if i < n {
                    assert(e[i] == p[i]);
                    assert(less_at(s, p, i)) by {
                        assert forall|j: int| 0 <= j < i implies s[j] == p[j] by {
                            assert(s[j] == e[j]);
                        }
                    }
                    lemma_lex_asymmetric(s, p);
                }
            }
            assert(forall|j: int| 0 <= j < n ==> s[j] == p[j]) by {
                assert(forall|j: int| 0 <= j < n ==> e[j] == p[j]);
            }
            if s.len() == n {
                assert(less_at(s, p, n));
                lemma_lex_asymmetric(s, p);
            } else if s[n] < p[n] {
                assert(less_at(s, p, n));
                lemma_lex_asymmetric(s, p);
            }
            assert(s.subrange(0, p.len() as int) =~= p);
        }
    } else {
        let q = p.drop_last();
        lemma_prefix_range(q, s);
        if has_prefix(s, p) {
            lemma_prefix_le(s, p);
            assert(s.subrange(0, q.len() as int) =~= q) by {
                assert forall|j: int| 0 <= j < q.len() implies s[j] == q[j] by {
                    assert(s.subrange(0, p.len() as int)[j] == s[j]);
                }
            }
        }
        if lex_le(p, s) && lex_lt(s, e) {
            assert(p.subrange(0, q.len() as int) =~= q);
            lemma_prefix_le(p, q);
            lemma_lex_le_transitive(q, p, s);
            assert(has_prefix(s, q));
            assert forall|j: int| 0 <= j < n implies s[j] == p[j] by {
                assert(s.subrange(0, q.len() as int)[j] == s[j]);
            }
            if s.len() == n {
                assert(less_at(s, p, n));
                lemma_lex_asymmetric(s, p);
            } else if s[n] < p[n] {
                assert(less_at(s, p, n));
                lemma_lex_asymmetric(s, p);
            }
            assert(s.subrange(0, p.len() as int) =~= p);
        }
    }
}

/// Computes [`prefix_successor`].
pub fn successor_of_prefix(p: &[u8]) -> (r: Option<Vec<u8>>)
    ensures
        match r {
            Some(v) => prefix_successor(p@) == Some(v@),
            None => prefix_successor(p@) is None,
        },
{
    let mut n: usize = p.len();
    assert(p@.subrange(0, n as int) =~= p@);
    while n > 0
        invariant
            n <= p.len(),
            prefix_successor(p@) == prefix_successor(p@.subrange(0, n as int)),
        decreases n,
    {
        let ghost q = p@.subrange(0, n as int);
        if p[n - 1] < 255 {
            let mut v = slice_to_vec(slice_subrange(p, 0, n - 1));
            v.push(p[n - 1] + 1);
            assert(q.drop_last() =~= p@.subrange(0, n - 1));
            return Some(v);
        }
        assert(q.drop_last() =~= p@.subrange(0, n - 1));
        n = n - 1;
    }
    None
}

/// Computes [`incremented`].
pub fn increment_prefix_bytes(key: &[u8]) -> (r: Vec<u8>)
    ensures
        r@ == incremented(key@),
{
    match successor_of_prefix(key) {
        Some(v) => v,
        None => {
            let mut sentinel = slice_to_vec(key);
            sentinel.push(0);
            sentinel
        },
    }
}

/// `n` in `w` bytes, most significant byte first.
pub open spec fn be_bytes(n: nat, w: nat) -> Seq<u8>
    decreases w,
{
    if w == 0 {
        Seq::empty()
    } else {
        be_bytes(n / 256, (w - 1) as nat).push((n % 256) as u8)
    }
}

/// The number that a byte string spells, most significant byte first.
pub open spec fn be_value(s: Seq<u8>) -> nat
    decreases s.len(),
{
    if s.len() == 0 {
        0
    } else {
        be_value(s.drop_last()) * 256 + s.last() as nat
    }
}

/// 256 to the power `w`.
pub open spec fn pow256(w: nat) -> nat
    decreases w,
{
    if w == 0 {
        1
    } else {
        256 * pow256((w - 1) as nat)
    }
}

pub proof fn lemma_be_len(n: nat, w: nat)
    ensures
        be_bytes(n, w).len() == w,
    decreases w,
{
    if w > 0 {
        lemma_be_len(n / 256, (w - 1) as nat);
    }
}

pub proof fn lemma_pow256_values()
    ensures
        pow256(2) == 0x1_0000,
        pow256(4) == 0x1_0000_0000,
        pow256(8) == 0x1_0000_0000_0000_0000,
{
    reveal_with_fuel(pow256, 9);
}

/// Reading what was written gives the number back.
pub proof fn lemma_be_value_of_bytes(n: nat, w: nat)
    requires
        n < pow256(w),
    ensures
        be_value(be_bytes(n, w)) == n,
    decreases w,
{
    if w > 0 {
        lemma_be_value_of_bytes(n / 256, (w - 1) as nat);
        let s = be_bytes(n, w);
        assert(s.drop_last() =~= be_bytes(n / 256, (w - 1) as nat));
    }
}

pub proof fn lemma_be_value_bound(s: Seq<u8>)
    ensures
        be_value(s) < pow256(s.len()),
    decreases s.len(),
{
    if s.len() > 0 {
        lemma_be_value_bound(s.drop_last());
    }
}

/// Appends the low `w` bytes of `n`, most significant byte first.
pub fn push_be(buf: &mut Vec<u8>, n: u64, w: usize)
    ensures
        final(buf)@ == old(buf)@ + be_bytes(n as nat, w as nat),
    decreases w,
{
    if w > 0 {
        push_be(buf, n / 256, w - 1);
        buf.push((n % 256) as u8);
        assert(buf@ =~= old(buf)@ + be_bytes(n as nat, w as nat));
    } else {
        assert(buf@ =~= old(buf)@ + be_bytes(n as nat, w as nat));
    }
}

/// Reads the `w` bytes of `data` at `pos` as one number.
pub fn read_be(data: &[u8], pos: usize, w: usize) -> (n: u64)
    requires
        w <= 8,
        pos + w <= data@.len(),
    ensures
        n as nat == be_value(data@.subrange(pos as int, pos + w)),
        n < pow256(w as nat),
{
    let mut n: u64 = 0;
    let mut i: usize = 0;
    assert(data@.subrange(pos as int, pos as int) =~= Seq::<u8>::empty());
    while i < w
        invariant
            i <= w <= 8,
            pos + w <= data.len(),
            n as nat == be_value(data@.subrange(pos as int, pos + i)),
            n < pow256(i as nat),
        decreases w - i,
    {
        proof {
            let s = data@.subrange(pos as int, pos + i + 1);
            assert(s.drop_last() =~= data@.subrange(pos as int, pos + i));
            assert(pow256(i as nat + 1) == 256 * pow256(i as nat));
            lemma_pow256_monotone(i as nat + 1, 8);
            lemma_pow256_values();
            lemma_be_value_bound(s);
        }
        n = n * 256 + data[pos + i] as u64;
        i = i + 1;
    }
    n
}

proof fn lemma_pow256_monotone(a: nat, b: nat)
    requires
        a <= b,
    ensures
        pow256(a) <= pow256(b),
    decreases b - a,
{
    if a < b {
        lemma_pow256_monotone(a + 1, b);
    }
}

/// The two's complement representation of `x` as an unsigned number.
pub open spec fn i64_bits(x: i64) -> nat {
    if x >= 0 {
        x as nat
    } else {
        (x + 0x1_0000_0000_0000_0000) as nat
    }
}

/// The signed number with the two's complement representation `n`.
pub open spec fn bits_i64(n: nat) -> i64 {
    if n < 0x8000_0000_0000_0000 {
        n as i64
    } else {
        (n - 0x1_0000_0000_0000_0000) as i64
    }
}

pub fn i64_to_bits(x: i64) -> (n: u64)
    ensures
        n as nat == i64_bits(x),
{
    if x >= 0 {
        x as u64
    } else {
        u64::MAX - ((-(x + 1)) as u64)
    }
}

pub fn i64_from_bits(n: u64) -> (x: i64)
    ensures
        x == bits_i64(n as nat),
{
    if n < 0x8000_0000_0000_0000 {
        n as i64
    } else {
        -((u64::MAX - n) as i64) - 1
    }
}

} // verus!
