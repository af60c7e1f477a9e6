//! The algebra of the engine, proved from the contracts of its operations:
//! consolidation is idempotent, merging is commutative and associative,
//! advancement is idempotent and monotone, sealing partitions the buffered
//! updates, and a cursor over many batches reads the same consolidated
//! multiset as one batch merging them all.
use vstd::prelude::*;

use crate::canon::{lemma_canonical_unique, lemma_canonical_wrap};
use crate::consolidate::{consolidate_rel, lemma_consolidate_weight};
use crate::frontier::{frontier_le, in_interval, lemma_adv_time_chain, adv_time};
use crate::layer::{advance_rel, gadv, merge_rel, Layer};
use crate::spine::lsum;
use crate::update::{
    gweight, lemma_gweight_concat, lemma_gweight_pointwise, lemma_wrap_add_right, tid, weight,
    wrap, Key, Update,
};

verus! {

/// Consolidation is idempotent: consolidating a consolidated batch gives the
/// batch back unchanged.
pub proof fn lemma_consolidate_idempotent(x: Seq<Update>, y: Seq<Update>, z: Seq<Update>)
    requires
        consolidate_rel(x, y),
        consolidate_rel(y, z),
    ensures
        z == y,
{
    assert forall|k: Key, t: u64| #[trigger] weight(z, k, t) == weight(y, k, t) by {
        lemma_consolidate_weight(y, z, k, t);
        lemma_canonical_wrap(y, k, t);
    }
    lemma_canonical_unique(z, y);
}

/// Merging is commutative: the batches merging A with B and B with A are the
/// same batch.
pub proof fn lemma_merge_commutative(
    a: Seq<Update>,
    b: Seq<Update>,
    m1: Seq<Update>,
    m2: Seq<Update>,
)
    requires
        merge_rel(a, b, m1),
        merge_rel(b, a, m2),
    ensures
        m1 == m2,
{
    assert forall|x: u64| #[trigger] tid()(x) == x by {}
    assert forall|k: Key, t: u64| #[trigger] weight(m1, k, t) == weight(m2, k, t) by {
        lemma_canonical_wrap(m1, k, t);
        lemma_canonical_wrap(m2, k, t);
        assert(wrap(gweight(m1, tid(), k, t)) == wrap(gweight(a, tid(), k, t) + gweight(
            b,
            tid(),
            k,
            t,
        )));
        assert(wrap(gweight(m2, tid(), k, t)) == wrap(gweight(b, tid(), k, t) + gweight(
            a,
            tid(),
            k,
            t,
        )));
    }
    lemma_canonical_unique(m1, m2);
}

/// Merging is associative: merging (A with B) with C gives the same batch as
/// merging A with (B with C).
pub proof fn lemma_merge_associative(
    a: Seq<Update>,
    b: Seq<Update>,
    c: Seq<Update>,
    ab: Seq<Update>,
    bc: Seq<Update>,
    m1: Seq<Update>,
    m2: Seq<Update>,
)
    requires
        merge_rel(a, b, ab),
        merge_rel(ab, c, m1),
        merge_rel(b, c, bc),
        merge_rel(a, bc, m2),
    ensures
        m1 == m2,
{
    assert forall|x: u64| #[trigger] tid()(x) == x by {}
    assert forall|k: Key, t: u64| #[trigger] weight(m1, k, t) == weight(m2, k, t) by {
        let wa = gweight(a, tid(), k, t);
        let wb = gweight(b, tid(), k, t);
        let wc = gweight(c, tid(), k, t);
        lemma_canonical_wrap(m1, k, t);
        lemma_canonical_wrap(m2, k, t);
        lemma_canonical_wrap(ab, k, t);
        lemma_canonical_wrap(bc, k, t);
        assert(weight(ab, k, t) == wrap(wa + wb));
        assert(weight(bc, k, t) == wrap(wb + wc));
        assert(wrap(weight(m1, k, t)) == wrap(weight(ab, k, t) + wc));
        assert(wrap(weight(m2, k, t)) == wrap(wa + weight(bc, k, t)));
        lemma_wrap_add_right(wc, wa + wb);
        assert(wc + wrap(wa + wb) == wrap(wa + wb) + wc);
        lemma_wrap_add_right(wa, wb + wc);
        assert(wrap(wc + (wa + wb)) == wrap(wa + (wb + wc)));
    }
    lemma_canonical_unique(m1, m2);
}

/// Advancing a batch by a frontier twice is advancing it once.
pub proof fn lemma_advance_idempotent(l: Seq<Update>, f: Seq<u64>, a: Seq<Update>, b: Seq<Update>)
    requires
        f.len() > 0,
        advance_rel(l, f, a),
        advance_rel(a, f, b),
    ensures
        b == a,
{
    assert forall|x: u64| #[trigger] tid()(x) == x by {}
    assert forall|k: Key, t: u64| #[trigger] weight(b, k, t) == weight(a, k, t) by {
        assert(wrap(gweight(b, tid(), k, t)) == wrap(gweight(a, gadv(tid(), f), k, t)));
        assert forall|j: int|
            0 <= j < a.len() implies gadv(tid(), f)(#[trigger] a[j].time) == tid()(a[j].time) by {
            assert(adv_time(a[j].time, f) == a[j].time);
            assert(gadv(tid(), f)(a[j].time) == tid()(adv_time(a[j].time, f)));
        }
        lemma_gweight_pointwise(a, gadv(tid(), f), tid(), k, t);
        lemma_canonical_wrap(a, k, t);
        lemma_canonical_wrap(b, k, t);
    }
    lemma_canonical_unique(b, a);
}

/// One frontier lies at or before another when every element of the later one
/// is beyond the earlier one.
pub open spec fn frontier_precedes(f: Seq<u64>, g: Seq<u64>) -> bool {
    forall|i: int| 0 <= i < g.len() ==> frontier_le(f, #[trigger] g[i])
}

/// Advancement is monotone: advancing by an earlier frontier and then by a
/// later one is advancing by the later one alone.
pub proof fn lemma_advance_monotone(
    l: Seq<Update>,
    f: Seq<u64>,
    g: Seq<u64>,
    a: Seq<Update>,
    b: Seq<Update>,
    c: Seq<Update>,
)
    requires
        f.len() > 0,
        g.len() > 0,
        frontier_precedes(f, g),
        advance_rel(l, f, a),
        advance_rel(a, g, b),
        advance_rel(l, g, c),
    ensures
        b == c,
{
    assert forall|x: u64| #[trigger] tid()(x) == x by {}
    assert forall|k: Key, t: u64| #[trigger] weight(b, k, t) == weight(c, k, t) by {
        // b reads a under advancement by g, and a reads l under advancement
        // by f, so b reads l under advancement by f then g — which is
        // advancement by g alone.
        assert(wrap(gweight(b, tid(), k, t)) == wrap(gweight(a, gadv(tid(), g), k, t)));
        assert(wrap(gweight(a, gadv(tid(), g), k, t)) == wrap(gweight(
            l,
            gadv(gadv(tid(), g), f),
            k,
            t,
        )));
        assert forall|j: int|
            0 <= j < l.len() implies gadv(gadv(tid(), g), f)(#[trigger] l[j].time) == gadv(
            tid(),
            g,
        )(l[j].time) by {
            let x = l[j].time;
            lemma_adv_time_chain(x, f, g);
            assert(gadv(gadv(tid(), g), f)(x) == gadv(tid(), g)(adv_time(x, f)));
            assert(gadv(tid(), g)(adv_time(x, f)) == tid()(adv_time(adv_time(x, f), g)));
            assert(gadv(tid(), g)(x) == tid()(adv_time(x, g)));
        }
        lemma_gweight_pointwise(l, gadv(gadv(tid(), g), f), gadv(tid(), g), k, t);
        assert(wrap(gweight(c, tid(), k, t)) == wrap(gweight(l, gadv(tid(), g), k, t)));
        lemma_canonical_wrap(b, k, t);
        lemma_canonical_wrap(c, k, t);
    }
    lemma_canonical_unique(b, c);
}

/// Sealing partitions what was buffered: at every (key, time), the sealed
/// batch and the retained remainder together weigh exactly what the batcher
/// held.
pub proof fn lemma_seal_partition(
    held: Seq<Update>,
    lower: Seq<u64>,
    upper: Seq<u64>,
    batch: Seq<Update>,
    rest: Seq<Update>,
    k: Key,
    t: u64,
)
    requires
        forall|k0: Key, t0: u64|
            in_interval(lower, upper, t0) ==> #[trigger] weight(batch, k0, t0) == wrap(
                weight(held, k0, t0),
            ),
        forall|k0: Key, t0: u64|
            !in_interval(lower, upper, t0) ==> #[trigger] weight(batch, k0, t0) == 0,
        rest == held.filter((|u: Update| !in_interval(lower, upper, u.time))),
    ensures
        wrap(weight(batch, k, t) + weight(rest, k, t)) == wrap(weight(held, k, t)),
{
    crate::batcher::lemma_weight_time_filter(
        held,
        (|u: Update| !in_interval(lower, upper, u.time)),
        (|x: u64| !in_interval(lower, upper, x)),
        k,
        t,
    );
    if in_interval(lower, upper, t) {
        assert(weight(rest, k, t) == 0);
        lemma_wrap_add_right(0, weight(held, k, t));
    } else {
        assert(weight(batch, k, t) == 0);
        assert(weight(rest, k, t) == weight(held, k, t));
    }
}

/// Sealing two disjoint intervals in turn: each batch captures the held
/// weight of its own interval, and what neither captured is retained
/// verbatim. The union of the sealed batches over disjoint intervals is the
/// pushed collection, modulo consolidation.
pub proof fn lemma_seal_disjoint(
    held: Seq<Update>,
    l1: Seq<u64>,
    u1: Seq<u64>,
    b1: Seq<Update>,
    r1: Seq<Update>,
    l2: Seq<u64>,
    u2: Seq<u64>,
    b2: Seq<Update>,
    k: Key,
    t: u64,
)
    requires
        forall|k0: Key, t0: u64|
            in_interval(l1, u1, t0) ==> #[trigger] weight(b1, k0, t0) == wrap(weight(held, k0, t0)),
        forall|k0: Key, t0: u64|
            !in_interval(l1, u1, t0) ==> #[trigger] weight(b1, k0, t0) == 0,
        r1 == held.filter((|u: Update| !in_interval(l1, u1, u.time))),
        forall|k0: Key, t0: u64|
            in_interval(l2, u2, t0) ==> #[trigger] weight(b2, k0, t0) == wrap(weight(r1, k0, t0)),
    ensures
        in_interval(l1, u1, t) ==> weight(b1, k, t) == wrap(weight(held, k, t)),
        in_interval(l2, u2, t) && !in_interval(l1, u1, t) ==> weight(b2, k, t) == wrap(
            weight(held, k, t),
        ),
{
    crate::batcher::lemma_weight_time_filter(
        held,
        (|u: Update| !in_interval(l1, u1, u.time)),
        (|x: u64| !in_interval(l1, u1, x)),
        k,
        t,
    );
}

/// The concatenation of a stack of batches, which is what a cursor list over
/// the stack enumerates.
pub open spec fn cat_layers(ls: Seq<Layer>) -> Seq<Update>
    decreases ls.len(),
{
    if ls.len() == 0 {
        Seq::<Update>::empty()
    } else {
        cat_layers(ls.drop_last()) + ls.last().tuples@
    }
}

/// Cursor equivalence, weight half: enumerating all batches of a stack
/// together yields, at every (key, time), exactly the summed weight of the
/// batches — the consolidated multiset that one batch merging the whole stack
/// would hold, since a merge weighs the wrapped sum of its inputs.
pub proof fn lemma_cursor_equivalence(ls: Seq<Layer>, k: Key, t: u64)
    ensures
        weight(cat_layers(ls), k, t) == lsum(ls, tid(), k, t),
    decreases ls.len(),
{
    if ls.len() == 0 {
    } else {
        lemma_cursor_equivalence(ls.drop_last(), k, t);
        lemma_gweight_concat(cat_layers(ls.drop_last()), ls.last().tuples@, tid(), k, t);
    }
}

/// Cursor equivalence, reading half: fresh cursors over the batches of a
/// stack have the whole stack left to read, so draining their merged view
/// yields at every (key, time) exactly the stack's summed weight.
pub proof fn lemma_fresh_cursors_weight(
    cs: Seq<crate::cursor::LayerCursor>,
    ls: Seq<Layer>,
    k: Key,
    t: u64,
)
    requires
        cs.len() == ls.len(),
        forall|i: int|
            0 <= i < cs.len() ==> (#[trigger] cs[i]).pos == 0 && cs[i].tuples() == ls[i].tuples@,
    ensures
        crate::cursor::rest_sum(cs, k, t) == lsum(ls, tid(), k, t),
    decreases cs.len(),
{
    if cs.len() > 0 {
        let a = cs.drop_last();
        let b = ls.drop_last();
        assert(forall|i: int| 0 <= i < a.len() ==> a[i] == cs[i] && #[trigger] b[i] == ls[i]);
        lemma_fresh_cursors_weight(a, b, k, t);
        assert(cs[cs.len() - 1] == cs.last());
        assert(ls[cs.len() - 1] == ls.last());
        assert(cs.last().tuples().skip(0) =~= ls.last().tuples@);
    }
}

/// Cursor equivalence, merge half: a batch that merges two batches weighs the
/// wrapped sum of their weights at every (key, time).
pub proof fn lemma_merge_weight(a: Seq<Update>, b: Seq<Update>, m: Seq<Update>, k: Key, t: u64)
    requires
        merge_rel(a, b, m),
    ensures
        weight(m, k, t) == wrap(weight(a, k, t) + weight(b, k, t)),
{
    assert forall|x: u64| #[trigger] tid()(x) == x by {}
    lemma_canonical_wrap(m, k, t);
    assert(wrap(gweight(m, tid(), k, t)) == wrap(gweight(a, tid(), k, t) + gweight(b, tid(), k, t)));
}

} // verus!
