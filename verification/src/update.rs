//! The data model of the trace: keys ordered by stashed hash, update tuples,
//! the wrapping ring of differences, and the weight function that gives a
//! sequence of updates its meaning as a signed multiset of (key, time) pairs.
use vstd::prelude::*;
use vstd::arithmetic::div_mod::{
    lemma_add_mod_noop_right, lemma_fundamental_div_mod_converse_mod,
};

verus! {

/// A key as the trie orders it: by its stashed hash, then by the key itself.
#[derive(Clone, Copy, PartialEq, Eq, Structural, Debug)]
pub struct Key {
    /// The fixed-width hash under which the key is filed.
    pub hash: u64,
    /// The key proper; two keys with equal hashes are told apart by it.
    pub word: u64,
}

/// One update tuple: a key, a logical time and a ring-valued difference.
#[derive(Clone, Copy, PartialEq, Eq, Structural, Debug)]
pub struct Update {
    pub key: Key,
    pub time: u64,
    pub diff: i64,
}

/// Strict order on keys: hash first, the key word second.
pub open spec fn key_lt(a: Key, b: Key) -> bool {
    a.hash < b.hash || (a.hash == b.hash && a.word < b.word)
}

/// Strict order on the (key, time) coordinates of two updates.
pub open spec fn upd_lt(a: Update, b: Update) -> bool {
    key_lt(a.key, b.key) || (a.key == b.key && a.time < b.time)
}

/// Equal (key, time) coordinates; the differences may differ.
pub open spec fn upd_eq(a: Update, b: Update) -> bool {
    a.key == b.key && a.time == b.time
}

/// Non-strict order on (key, time) coordinates.
pub open spec fn upd_le(a: Update, b: Update) -> bool {
    upd_lt(a, b) || upd_eq(a, b)
}

pub open spec fn two_63() -> int {
    0x8000_0000_0000_0000
}

pub open spec fn two_64() -> int {
    0x1_0000_0000_0000_0000
}

/// The ring of differences is the integers wrapping at the width of `i64`.
pub open spec fn wrap(x: int) -> int {
    (x + two_63()) % two_64() - two_63()
}

/// A value already in `i64` range is its own wrap.
pub proof fn lemma_wrap_fixed(x: int)
    requires
        i64::MIN <= x <= i64::MAX,
    ensures
        wrap(x) == x,
{
    lemma_fundamental_div_mod_converse_mod(x + two_63(), two_64(), 0, x + two_63());
}

/// Wrapping one summand first does not change a wrapped sum.
pub proof fn lemma_wrap_add_right(x: int, y: int)
    ensures
        wrap(x + wrap(y)) == wrap(x + y),
{
    lemma_add_mod_noop_right(x, y + two_63(), two_64());
    assert(x + wrap(y) + two_63() == x + (y + two_63()) % two_64());
}

/// Sums that wrap alike keep wrapping alike when anything is added to both.
pub proof fn lemma_wrap_congruence(a: int, b: int, c: int)
    requires
        wrap(a) == wrap(b),
    ensures
        wrap(a + c) == wrap(b + c),
{
    lemma_wrap_add_right(c, a);
    lemma_wrap_add_right(c, b);
    assert(c + a == a + c);
    assert(c + b == b + c);
}

/// Ring addition of differences: wrapping addition on `i64`.
pub fn diff_add(a: i64, b: i64) -> (r: i64)
    ensures
        r as int == wrap(a as int + b as int),
{
    proof {
        lemma_diff_add(a, b);
    }
    a.wrapping_add(b)
}

proof fn lemma_diff_add(a: i64, b: i64)
    ensures
        (vstd::wrapping::i64_specs::wrapping_add(a, b)) as int == wrap(a as int + b as int),
{
    let s = a as int + b as int;
    if s > i64::MAX {
        lemma_fundamental_div_mod_converse_mod(s + two_63(), two_64(), 1, s + two_63() - two_64());
    } else if s < i64::MIN {
        lemma_fundamental_div_mod_converse_mod(s + two_63(), two_64(), -1, s + two_63() + two_64());
    } else {
        lemma_wrap_fixed(s);
    }
}

/// The weight that a sequence of updates assigns to key `k` at the image of
/// each update's time under `g`: the plain integer sum of the matching
/// differences. The map `g` lets one statement cover both the sequence as it
/// stands (`g` the identity) and the sequence with its times coarsened.
pub open spec fn gweight(s: Seq<Update>, g: spec_fn(u64) -> u64, k: Key, t: u64) -> int
    decreases s.len(),
{
    if s.len() == 0 {
        0
    } else {
        gweight(s.drop_last(), g, k, t) + if s.last().key == k && g(s.last().time) == t {
            s.last().diff as int
        } else {
            0
        }
    }
}

/// The identity time map.
pub open spec fn tid() -> spec_fn(u64) -> u64 {
    |x: u64| x
}

/// The weight of a sequence of updates at (key, time), times as they stand.
pub open spec fn weight(s: Seq<Update>, k: Key, t: u64) -> int {
    gweight(s, tid(), k, t)
}

/// The weight of a single update to the weight at (k, t) under `g`.
pub open spec fn one_weight(u: Update, g: spec_fn(u64) -> u64, k: Key, t: u64) -> int {
    if u.key == k && g(u.time) == t {
        u.diff as int
    } else {
        0
    }
}

pub proof fn lemma_gweight_push(s: Seq<Update>, u: Update, g: spec_fn(u64) -> u64, k: Key, t: u64)
    ensures
        gweight(s.push(u), g, k, t) == gweight(s, g, k, t) + one_weight(u, g, k, t),
{
    assert(s.push(u).drop_last() =~= s);
    assert(s.push(u).last() == u);
}

pub proof fn lemma_gweight_concat(a: Seq<Update>, b: Seq<Update>, g: spec_fn(u64) -> u64, k: Key, t: u64)
    ensures
        gweight(a + b, g, k, t) == gweight(a, g, k, t) + gweight(b, g, k, t),
    decreases b.len(),
{
    if b.len() == 0 {
        assert(a + b =~= a);
    } else {
        assert((a + b).drop_last() =~= a + b.drop_last());
        assert((a + b).last() == b.last());
        lemma_gweight_concat(a, b.drop_last(), g, k, t);
    }
}

/// A sequence with no update at (k, t) under `g` weighs nothing there.
pub proof fn lemma_gweight_absent(s: Seq<Update>, g: spec_fn(u64) -> u64, k: Key, t: u64)
    requires
        forall|j: int| 0 <= j < s.len() ==> !(s[j].key == k && g(s[j].time) == t),
    ensures
        gweight(s, g, k, t) == 0,
    decreases s.len(),
{
    if s.len() > 0 {
        assert(s.drop_last() =~= s.subrange(0, s.len() - 1));
        lemma_gweight_absent(s.drop_last(), g, k, t);
    }
}

/// Two time maps that agree on every time in the sequence give equal weights.
pub proof fn lemma_gweight_pointwise(
    s: Seq<Update>,
    g1: spec_fn(u64) -> u64,
    g2: spec_fn(u64) -> u64,
    k: Key,
    t: u64,
)
    requires
        forall|j: int| 0 <= j < s.len() ==> g1(#[trigger] s[j].time) == g2(s[j].time),
    ensures
        gweight(s, g1, k, t) == gweight(s, g2, k, t),
    decreases s.len(),
{
    if s.len() > 0 {
        assert(s.drop_last() =~= s.subrange(0, s.len() - 1));
        lemma_gweight_pointwise(s.drop_last(), g1, g2, k, t);
        assert(g1(s.last().time) == g2(s.last().time));
    }
}

} // verus!
