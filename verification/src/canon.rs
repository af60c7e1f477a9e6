//! The canonical form of a batch: updates strictly ordered by (key, time)
//! with no zero differences. Canonical sequences are exactly the batches the
//! trie layers store; the weight function determines them uniquely.
use vstd::prelude::*;
use vstd::seq_lib::group_to_multiset_ensures;

use crate::update::{
    gweight, lemma_gweight_absent, lemma_wrap_fixed, wrap, lemma_gweight_concat, lemma_gweight_push, one_weight,
    tid, upd_eq, upd_le, upd_lt, weight, Key, Update,
};

verus! {

/// Strictly ordered by (key, time): each coordinate pair appears at most once.
pub open spec fn sorted_lt(s: Seq<Update>) -> bool {
    forall|i: int, j: int| 0 <= i < j < s.len() ==> upd_lt(#[trigger] s[i], #[trigger] s[j])
}

/// Ordered by (key, time), repetitions allowed.
pub open spec fn sorted_le(s: Seq<Update>) -> bool {
    forall|i: int, j: int| 0 <= i < j < s.len() ==> upd_le(#[trigger] s[i], #[trigger] s[j])
}

/// The canonical form: strictly ordered and free of zero differences.
pub open spec fn canonical(s: Seq<Update>) -> bool {
    sorted_lt(s) && forall|i: int| 0 <= i < s.len() ==> #[trigger] s[i].diff != 0
}

/// In a strictly ordered sequence the weight at (k, t) is concentrated in the
/// one update that carries those coordinates.
pub proof fn lemma_weight_at(s: Seq<Update>, g: spec_fn(u64) -> u64, i: int, k: Key, t: u64)
    requires
        sorted_lt(s),
        0 <= i < s.len(),
        s[i].key == k,
        s[i].time == t,
        forall|x: u64| #[trigger] g(x) == x,
    ensures
        gweight(s, g, k, t) == s[i].diff as int,
    decreases s.len(),
{
    if i == s.len() - 1 {
        assert forall|j: int| 0 <= j < s.drop_last().len() implies !(#[trigger] s.drop_last()[j].key
            == k && g(s.drop_last()[j].time) == t) by {
            assert(upd_lt(s[j], s[i]));
        }
        lemma_gweight_absent(s.drop_last(), g, k, t);
    } else {
        assert(upd_lt(s[i], s.last()));
        assert(s.drop_last()[i] == s[i]);
        lemma_weight_at(s.drop_last(), g, i, k, t);
    }
}

/// The weight of a canonical sequence is already wrapped: it is a single
/// difference or zero.
pub proof fn lemma_canonical_wrap(s: Seq<Update>, k: Key, t: u64)
    requires
        canonical(s),
    ensures
        wrap(weight(s, k, t)) == weight(s, k, t),
{
    assert forall|x: u64| #[trigger] tid()(x) == x by {}
    if exists|i: int| 0 <= i < s.len() && #[trigger] s[i].key == k && s[i].time == t {
        let i = choose|i: int| 0 <= i < s.len() && #[trigger] s[i].key == k && s[i].time == t;
        lemma_weight_at(s, tid(), i, k, t);
        lemma_wrap_fixed(s[i].diff as int);
    } else {
        lemma_gweight_absent(s, tid(), k, t);
        lemma_wrap_fixed(0);
    }
}

/// Two canonical sequences with the same weight at every (key, time) are the
/// same sequence: the canonical form of a signed multiset is unique.
pub proof fn lemma_canonical_unique(a: Seq<Update>, b: Seq<Update>)
    requires
        canonical(a),
        canonical(b),
        forall|k: Key, t: u64| #[trigger] weight(a, k, t) == weight(b, k, t),
    ensures
        a == b,
    decreases a.len() + b.len(),
{
    assert forall|x: u64| #[trigger] tid()(x) == x by {}
    if a.len() == 0 {
        if b.len() > 0 {
            let ub = b.last();
            assert(b[b.len() - 1].diff != 0);
            lemma_weight_at(b, tid(), b.len() - 1, ub.key, ub.time);
            lemma_gweight_absent(a, tid(), ub.key, ub.time);
            assert(weight(a, ub.key, ub.time) == weight(b, ub.key, ub.time));
            assert(false);
        }
        assert(a =~= b);
    } else if b.len() == 0 {
        let ua = a.last();
        assert(a[a.len() - 1].diff != 0);
        lemma_weight_at(a, tid(), a.len() - 1, ua.key, ua.time);
        lemma_gweight_absent(b, tid(), ua.key, ua.time);
        assert(weight(a, ua.key, ua.time) == weight(b, ua.key, ua.time));
        assert(false);
    } else {
        let ua = a.last();
        let ub = b.last();
        assert(a[a.len() - 1].diff != 0);
        assert(b[b.len() - 1].diff != 0);
        lemma_weight_at(a, tid(), a.len() - 1, ua.key, ua.time);
        lemma_weight_at(b, tid(), b.len() - 1, ub.key, ub.time);
        assert(weight(a, ua.key, ua.time) == weight(b, ua.key, ua.time));
        assert(weight(a, ub.key, ub.time) == weight(b, ub.key, ub.time));
        // The weight of a's last coordinates is nonzero in b, so b holds them.
        if forall|i: int| 0 <= i < b.len() ==> !(#[trigger] b[i].key == ua.key && b[i].time
            == ua.time) {
            lemma_gweight_absent(b, tid(), ua.key, ua.time);
            assert(false);
        }
        let ia = choose|i: int| 0 <= i < b.len() && #[trigger] b[i].key == ua.key && b[i].time
            == ua.time;
        if ia < b.len() - 1 {
            assert(upd_lt(b[ia], ub));
        }
        assert(upd_le(ua, ub));
        if forall|i: int| 0 <= i < a.len() ==> !(#[trigger] a[i].key == ub.key && a[i].time
            == ub.time) {
            lemma_gweight_absent(a, tid(), ub.key, ub.time);
            assert(false);
        }
        let ib = choose|i: int| 0 <= i < a.len() && #[trigger] a[i].key == ub.key && a[i].time
            == ub.time;
        if ib < a.len() - 1 {
            assert(upd_lt(a[ib], ua));
        }
        assert(upd_le(ub, ua));
        assert(upd_eq(ua, ub));
        lemma_weight_at(b, tid(), b.len() - 1, ua.key, ua.time);
        assert(ua.diff == ub.diff);
        assert(ua == ub);
        let ad = a.drop_last();
        let bd = b.drop_last();
        assert forall|k: Key, t: u64| #[trigger] weight(ad, k, t) == weight(bd, k, t) by {
            if ua.key == k && tid()(ua.time) == t {
                assert forall|j: int| 0 <= j < ad.len() implies !(#[trigger] ad[j].key == k
                    && ad[j].time == t) by {
                    assert(upd_lt(a[j], ua));
                }
                lemma_gweight_absent(ad, tid(), k, t);
                assert forall|j: int| 0 <= j < bd.len() implies !(#[trigger] bd[j].key == k
                    && bd[j].time == t) by {
                    assert(upd_lt(b[j], ub));
                }
                lemma_gweight_absent(bd, tid(), k, t);
            } else {
                assert(weight(a, k, t) == weight(ad, k, t) + one_weight(ua, tid(), k, t));
                assert(one_weight(ua, tid(), k, t) == 0);
                assert(weight(b, k, t) == weight(bd, k, t) + one_weight(ub, tid(), k, t));
            }
        }
        lemma_canonical_unique(ad, bd);
        assert(a =~= ad.push(ua));
        assert(b =~= bd.push(ub));
    }
}

/// Sequences that agree as multisets agree in weight: reordering the updates
/// never changes what they mean.
pub proof fn lemma_gweight_multiset(
    a: Seq<Update>,
    b: Seq<Update>,
    g: spec_fn(u64) -> u64,
    k: Key,
    t: u64,
)
    requires
        a.to_multiset() == b.to_multiset(),
    ensures
        gweight(a, g, k, t) == gweight(b, g, k, t),
    decreases a.len(),
{
    broadcast use group_to_multiset_ensures;

    if a.len() == 0 {
        assert(b.to_multiset().len() == 0);
        assert(b.len() == 0);
    } else {
        let u = a.last();
        assert(a.contains(u));
        assert(a.to_multiset().count(u) > 0);
        assert(b.to_multiset().count(u) > 0);
        assert(b.contains(u));
        let j = choose|j: int| 0 <= j < b.len() && b[j] == u;
        let ad = a.drop_last();
        let br = b.remove(j);
        assert(a =~= ad.push(u));
        assert(a.to_multiset() == ad.to_multiset().insert(u));
        assert(br.to_multiset() == b.to_multiset().remove(u));
        assert(ad.to_multiset() =~= br.to_multiset()) by {
            assert forall|v: Update| ad.to_multiset().count(v) == br.to_multiset().count(v) by {
                assert(a.to_multiset().count(v) == ad.to_multiset().insert(u).count(v));
            }
        }
        lemma_gweight_multiset(ad, br, g, k, t);
        assert(b =~= b.subrange(0, j) + seq![u] + b.subrange(j + 1, b.len() as int));
        assert(br =~= b.subrange(0, j) + b.subrange(j + 1, b.len() as int));
        lemma_gweight_concat(b.subrange(0, j) + seq![u], b.subrange(j + 1, b.len() as int), g, k, t);
        lemma_gweight_concat(b.subrange(0, j), seq![u], g, k, t);
        lemma_gweight_concat(b.subrange(0, j), b.subrange(j + 1, b.len() as int), g, k, t);
        assert(gweight(seq![u], g, k, t) == one_weight(u, g, k, t)) by {
            lemma_gweight_push(Seq::<Update>::empty(), u, g, k, t);
            assert(Seq::<Update>::empty().push(u) =~= seq![u]);
        }
        lemma_gweight_push(ad, u, g, k, t);
    }
}

} // verus!
