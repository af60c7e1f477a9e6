//! The spine: an append-only stack of immutable batches, newest and smallest
//! on top, merged under a size-tiered discipline. After every insert, each
//! batch below another is at least twice its size, and the batch
//! descriptions chain into a gapless interval of logical time. The merge
//! that produces the bottommost batch has its times advanced by the spine's
//! frontier.
use vstd::prelude::*;

use crate::frontier::{adv_time, lemma_adv_time};
use crate::layer::{advance_rel, advfn, gadv, merge_rel, Description, Layer};
use crate::update::{gweight, lemma_gweight_pointwise, lemma_wrap_congruence, wrap, Key, Update};

verus! {

/// The summed weight of a stack of batches at (k, t) under the coarsening `g`.
pub open spec fn lsum(ls: Seq<Layer>, g: spec_fn(u64) -> u64, k: Key, t: u64) -> int
    decreases ls.len(),
{
    if ls.len() == 0 {
        0
    } else {
        lsum(ls.drop_last(), g, k, t) + gweight(ls.last().tuples@, g, k, t)
    }
}

pub proof fn lemma_lsum_push(ls: Seq<Layer>, l: Layer, g: spec_fn(u64) -> u64, k: Key, t: u64)
    ensures
        lsum(ls.push(l), g, k, t) == lsum(ls, g, k, t) + gweight(l.tuples@, g, k, t),
{
    assert(ls.push(l).drop_last() =~= ls);
    assert(ls.push(l).last() == l);
}

/// The summed weight reads only the batches' updates, never their
/// descriptions.
pub proof fn lemma_lsum_tuples(a: Seq<Layer>, b: Seq<Layer>, g: spec_fn(u64) -> u64, k: Key, t: u64)
    requires
        a.len() == b.len(),
        forall|i: int| 0 <= i < a.len() ==> (#[trigger] b[i]).tuples@ == a[i].tuples@,
    ensures
        lsum(a, g, k, t) == lsum(b, g, k, t),
    decreases a.len(),
{
    if a.len() > 0 {
        let ad = a.drop_last();
        let bd = b.drop_last();
        assert(forall|i: int| 0 <= i < ad.len() ==> ad[i] == a[i] && #[trigger] bd[i] == b[i]);
        lemma_lsum_tuples(ad, bd, g, k, t);
        assert(a[a.len() - 1] == a.last());
        assert(b[a.len() - 1] == b.last());
    }
}

/// Every batch strictly below position `hi` is at least twice the size of the
/// batch above it.
pub open spec fn tiered_below(ls: Seq<Layer>, hi: int) -> bool {
    forall|i: int|
        1 <= i < hi ==> (#[trigger] ls[i - 1]).tuples@.len() >= 2 * ls[i].tuples@.len()
}

/// The size-tiered invariant over the whole stack.
pub open spec fn tiered(ls: Seq<Layer>) -> bool {
    tiered_below(ls, ls.len() as int)
}

/// Adjacent batch descriptions chain: each batch's upper bound is the next
/// one's lower bound, so the stack covers a gapless interval of logical time.
pub open spec fn chained(ls: Seq<Layer>) -> bool {
    forall|i: int|
        0 <= i < ls.len() - 1 ==> (#[trigger] ls[i]).desc.upper@ == ls[i + 1].desc.lower@
}

/// A batch seen as its mathematical content: its updates, then the lower,
/// upper and since frontiers of its description.
pub type BatchView = (Seq<Update>, Seq<u64>, Seq<u64>, Seq<u64>);

pub open spec fn bview(l: Layer) -> BatchView {
    (l.tuples@, l.desc.lower@, l.desc.upper@, l.desc.since@)
}

pub open spec fn bviews(ls: Seq<Layer>) -> Seq<BatchView> {
    ls.map(|i: int, l: Layer| bview(l))
}

/// The batch `m` merging a newer batch atop an older one: its updates merge
/// theirs; it covers the union interval, from the older's lower bound to the
/// newer's upper, compacted no further than its own lower bound.
pub open spec fn merged_view(newer: BatchView, older: BatchView, m: BatchView) -> bool {
    &&& merge_rel(newer.0, older.0, m.0)
    &&& m.1 == older.1
    &&& m.2 == newer.2
    &&& m.3 == older.1
}

/// The batch `mm` advancing `m` by the frontier `f`: its times advanced, its
/// interval kept, its compaction frontier raised to `f`.
pub open spec fn advanced_view(m: BatchView, f: Seq<u64>, mm: BatchView) -> bool {
    &&& advance_rel(m.0, f, mm.0)
    &&& mm.1 == m.1
    &&& mm.2 == m.2
    &&& mm.3 == f
}

/// Advancement by `f` applies exactly when the merged batch is about to be
/// the bottommost of the stack: when the pair it merged was the whole stack.
pub open spec fn maybe_advanced(count: int, m: BatchView, f: Seq<u64>, mm: BatchView) -> bool {
    if count == 2 {
        advanced_view(m, f, mm)
    } else {
        mm == m
    }
}

/// The stack after its top two batches merged into `m`: `m` replaces them
/// when it holds any updates. When everything cancelled, the merged batch is
/// discarded and the interval it covered is folded into the upper bound of
/// the batch below (if one stands), so the descriptions stay gapless.
pub open spec fn after_merge(rest: Seq<BatchView>, m: BatchView) -> Seq<BatchView> {
    if m.0.len() > 0 {
        rest.push(m)
    } else if rest.len() > 0 {
        rest.update(rest.len() - 1, (rest.last().0, rest.last().1, m.2, rest.last().3))
    } else {
        rest
    }
}

/// The pre-insert draining phase: while at least two batches stand and the
/// second-from-top is smaller than the incoming batch, the top two merge.
pub open spec fn drain_rel(pre: Seq<BatchView>, blen: int, post: Seq<BatchView>) -> bool
    decreases pre.len(),
{
    if pre.len() >= 2 && pre[pre.len() - 2].0.len() < blen {
        exists|m: BatchView|
            #[trigger] merged_view(pre.last(), pre[pre.len() - 2], m) && drain_rel(
                after_merge(pre.drop_last().drop_last(), m),
                blen,
                post,
            )
    } else {
        post == pre
    }
}

/// The post-insert cascade: while the second-from-top batch is smaller than
/// twice the top one, the top two merge; the merge whose result becomes the
/// only batch left is advanced by the frontier before it is reinserted.
pub open spec fn cascade_rel(pre: Seq<BatchView>, f: Seq<u64>, post: Seq<BatchView>) -> bool
    decreases pre.len(),
{
    if pre.len() >= 2 && pre[pre.len() - 2].0.len() < 2 * pre.last().0.len() {
        exists|m: BatchView|
            #[trigger] merged_view(pre.last(), pre[pre.len() - 2], m) && (exists|mm: BatchView|
                #[trigger] maybe_advanced(pre.len() as int, m, f, mm) && cascade_rel(
                    after_merge(pre.drop_last().drop_last(), mm),
                    f,
                    post,
                ))
    } else {
        post == pre
    }
}

/// The whole insertion of a nonempty batch `b`: drain smaller batches, push
/// `b`, then cascade merges until the stack is size-tiered again.
pub open spec fn insert_rel(
    pre: Seq<BatchView>,
    b: BatchView,
    f: Seq<u64>,
    post: Seq<BatchView>,
) -> bool {
    exists|mid: Seq<BatchView>|
        #[trigger] drain_rel(pre, b.0.len() as int, mid) && cascade_rel(mid.push(b), f, post)
}

pub proof fn lemma_bviews_push(ls: Seq<Layer>, l: Layer)
    ensures
        bviews(ls.push(l)) == bviews(ls).push(bview(l)),
{
    assert(bviews(ls.push(l)) =~= bviews(ls).push(bview(l)));
}

pub proof fn lemma_bviews_drop2(ls: Seq<Layer>)
    requires
        ls.len() >= 2,
    ensures
        bviews(ls.drop_last().drop_last()) == bviews(ls).drop_last().drop_last(),
{
    assert(bviews(ls.drop_last().drop_last()) =~= bviews(ls).drop_last().drop_last());
}

/// An append-only trace of batches with size-tiered merging.
pub struct Spine {
    /// Times after which the times in the trace need not be distinguished.
    pub frontier: Vec<u64>,
    /// The batches, oldest and largest first; the top of the stack is last.
    pub layers: Vec<Layer>,
}

impl Spine {
    /// Well-formed: a nonempty frontier; every batch canonical and nonempty,
    /// at least twice the size of the batch above it, and the descriptions
    /// chained into a gapless interval.
    pub open spec fn wf(self) -> bool {
        &&& self.frontier@.len() > 0
        &&& (forall|i: int| 0 <= i < self.layers@.len() ==> (#[trigger] self.layers@[i]).wf())
        &&& (forall|i: int|
            0 <= i < self.layers@.len() ==> (#[trigger] self.layers@[i]).tuples@.len() > 0)
        &&& tiered(self.layers@)
        &&& chained(self.layers@)
    }

    /// The spine's content at (k, t), read with every time advanced by the
    /// spine's frontier: what any reader of the trace can still distinguish.
    pub open spec fn reading(self, k: Key, t: u64) -> int {
        lsum(self.layers@, advfn(self.frontier@), k, t)
    }

    /// An empty trace whose frontier holds the default time.
    pub fn new(default: u64) -> (r: Self)
        ensures
            r.wf(),
            r.layers@.len() == 0,
            r.frontier@ =~= seq![default],
    {
        Spine { frontier: vec![default], layers: Vec::new() }
    }

    /// Replaces the spine's frontier; the next merge that reaches the bottom
    /// of the stack will materialise the coarsening.
    pub fn advance_by(&mut self, frontier: &Vec<u64>)
        requires
            old(self).wf(),
            frontier@.len() > 0,
        ensures
            final(self).wf(),
            final(self).layers@ == old(self).layers@,
            final(self).frontier@ == frontier@,
    {
        self.frontier = crate::layer::copy_times(frontier);
    }

    fn need_drain(&self, blen: usize) -> (r: bool)
        ensures
            r == (self.layers@.len() >= 2 && self.layers@[self.layers@.len() - 2].tuples@.len()
                < blen),
    {
        let n = self.layers.len();
        n >= 2 && self.layers[n - 2].tuples.len() < blen
    }

    fn need_merge(&self) -> (r: bool)
        ensures
            r == (self.layers@.len() >= 2 && self.layers@[self.layers@.len() - 2].tuples@.len()
                < 2 * self.layers@[self.layers@.len() - 1].tuples@.len()),
    {
        let n = self.layers.len();
        if n < 2 {
            return false;
        }
        let a = self.layers[n - 2].tuples.len();
        let b = self.layers[n - 1].tuples.len();
        if a < b {
            true
        } else {
            a - b < b
        }
    }

    /// Widens the top batch's upper bound to `upper`, leaving its updates and
    /// everything below untouched: when a merge cancels to nothing, the
    /// interval it covered is folded into the batch below, so the stack's
    /// descriptions stay gapless.
    fn widen_top(&mut self, upper: &Vec<u64>)
        requires
            old(self).layers@.len() > 0,
        ensures
            final(self).frontier@ == old(self).frontier@,
            final(self).layers@.len() == old(self).layers@.len(),
            forall|i: int|
                0 <= i < final(self).layers@.len() - 1 ==> #[trigger] final(self).layers@[i]
                    == old(self).layers@[i],
            final(self).layers@.last().tuples@ == old(self).layers@.last().tuples@,
            final(self).layers@.last().desc.lower@ == old(self).layers@.last().desc.lower@,
            final(self).layers@.last().desc.since@ == old(self).layers@.last().desc.since@,
            final(self).layers@.last().desc.upper@ == upper@,
    {
        let ghost before = self.layers@;
        let top = self.layers.pop().unwrap();
        let d = Description::new(&top.desc.lower, upper, &top.desc.since);
        self.layers.push(Layer { tuples: top.tuples, desc: d });
        proof {
            assert forall|i: int|
                0 <= i < self.layers@.len() - 1 implies #[trigger] self.layers@[i]
                == before[i] by {
                assert(self.layers@[i] == before.drop_last()[i]);
            }
        }
    }

    /// Inserts a batch, draining smaller batches into it and cascading merges
    /// until each batch is at least twice the size of the one above it; the
    /// merge that produces the bottommost batch is advanced by the frontier.
    /// The inserted batch continues the covered interval where the stack
    /// ends. The trace's reading — its content as coarsened by the frontier —
    /// grows by exactly the inserted batch's; an empty batch leaves every
    /// batch's updates in place and at most extends the covered interval. The
    /// final stack relates to the old one by exactly the drain-push-cascade
    /// discipline.
    pub fn insert(&mut self, layer: Layer)
        requires
            old(self).wf(),
            layer.wf(),
            old(self).layers@.len() > 0 ==> layer.desc.lower@ == old(self).layers@.last().desc.upper@,
        ensures
            final(self).wf(),
            final(self).frontier@ == old(self).frontier@,
            forall|k: Key, t: u64|
                wrap(#[trigger] final(self).reading(k, t)) == wrap(
                    old(self).reading(k, t) + gweight(
                        layer.tuples@,
                        advfn(old(self).frontier@),
                        k,
                        t,
                    ),
                ),
            layer.tuples@.len() == 0 ==> final(self).layers@.len() == old(self).layers@.len(),
            layer.tuples@.len() == 0 ==> (forall|i: int|
                0 <= i < final(self).layers@.len() - 1 ==> #[trigger] final(self).layers@[i]
                    == old(self).layers@[i]),
            layer.tuples@.len() == 0 && final(self).layers@.len() > 0 ==> ({
                let nl = final(self).layers@.last();
                let ol = old(self).layers@.last();
                nl.tuples@ == ol.tuples@ && nl.desc.lower@ == ol.desc.lower@ && nl.desc.since@
                    == ol.desc.since@ && nl.desc.upper@ == layer.desc.upper@
            }),
            layer.tuples@.len() > 0 ==> insert_rel(
                bviews(old(self).layers@),
                bview(layer),
                old(self).frontier@,
                bviews(final(self).layers@),
            ),
    {
        let ghost ls0 = old(self).layers@;
        let ghost fr = old(self).frontier@;

        if layer.tuples.len() == 0 {
            // an empty batch adds nothing to read; its interval is folded
            // into the top batch so the covered prefix stays gapless
            if self.layers.len() > 0 {
                let ghost before = self.layers@;
                self.widen_top(&layer.desc.upper);
                proof {
                    assert forall|i: int|
                        0 <= i < self.layers@.len() implies (#[trigger] self.layers@[i]).tuples@
                        == before[i].tuples@ by {
                        if i < self.layers@.len() - 1 {
                            assert(self.layers@[i] == before[i]);
                        } else {
                            assert(before[i] == before.last());
                        }
                    }
                    assert forall|i: int|
                        0 <= i < self.layers@.len() implies (#[trigger] self.layers@[i]).wf()
                        && self.layers@[i].tuples@.len() > 0 by {
                        assert(before[i].wf());
                        assert(self.layers@[i].tuples@ == before[i].tuples@);
                    }
                    assert forall|i: int|
                        1 <= i < self.layers@.len() implies (#[trigger] self.layers@[i
                        - 1]).tuples@.len() >= 2 * self.layers@[i].tuples@.len() by {
                        assert(self.layers@[i - 1].tuples@ == before[i - 1].tuples@);
                        assert(self.layers@[i].tuples@ == before[i].tuples@);
                    }
                    assert forall|i: int|
                        0 <= i < self.layers@.len() - 1 implies (#[trigger] self.layers@[i
                        ]).desc.upper@ == self.layers@[i + 1].desc.lower@ by {
                        assert(self.layers@[i] == before[i]);
                        if i + 1 < self.layers@.len() - 1 {
                            assert(self.layers@[i + 1] == before[i + 1]);
                        } else {
                            assert(before[i + 1] == before.last());
                        }
                    }
                    assert forall|k: Key, t: u64|
                        wrap(#[trigger] lsum(self.layers@, advfn(fr), k, t)) == wrap(
                            lsum(ls0, advfn(fr), k, t) + gweight(layer.tuples@, advfn(fr), k, t),
                        ) by {
                        lemma_lsum_tuples(ls0, self.layers@, advfn(fr), k, t);
                        assert(gweight(layer.tuples@, advfn(fr), k, t) == 0);
                    }
                }
            }
            return;
        }
        let blen = layer.tuples.len();
        let ghost mut drained = false;
        let ghost mut xb: int = 0;
        while self.need_drain(blen)
            invariant
                self.frontier@ == fr,
                fr.len() > 0,
                blen == layer.tuples@.len(),
                blen > 0,
                forall|i: int|
                    0 <= i < self.layers@.len() ==> (#[trigger] self.layers@[i]).wf(),
                forall|i: int|
                    0 <= i < self.layers@.len() ==> (#[trigger] self.layers@[i]).tuples@.len() > 0,
                tiered_below(self.layers@, self.layers@.len() - 1),
                chained(self.layers@),
                self.layers@.len() > 0 ==> ls0.len() > 0 && self.layers@[self.layers@.len()
                    - 1].desc.upper@ == ls0.last().desc.upper@,
                !drained ==> tiered(self.layers@),
                drained ==> self.layers@.len() >= 1 && self.layers@[self.layers@.len()
                    - 1].tuples@.len() <= 2 * xb && 0 < xb < blen && (self.layers@.len() >= 2
                    ==> self.layers@[self.layers@.len() - 2].tuples@.len() >= 2 * xb),
                forall|k: Key, t: u64|
                    wrap(#[trigger] lsum(self.layers@, advfn(fr), k, t)) == wrap(lsum(ls0, advfn(fr), k, t)),
                forall|post: Seq<BatchView>|
                    #[trigger] drain_rel(bviews(self.layers@), blen as int, post) ==> drain_rel(
                        bviews(ls0),
                        blen as int,
                        post,
                    ),
            decreases self.layers@.len(),
        {
            let ghost ls = self.layers@;
            let ghost n = ls.len() as int;
            let layer1 = self.layers.pop().unwrap();
            let layer2 = self.layers.pop().unwrap();
            proof {
                assert(self.layers@ =~= ls.drop_last().drop_last());
                assert(ls.drop_last().last() == layer2);
                assert(ls[n - 2] == layer2);
                assert(ls[n - 1] == layer1);
            }
            let ghost x_sz = layer2.tuples@.len() as int;
            let ghost rest = self.layers@;
            let result = layer1.merge(&layer2);
            let ghost bm = bview(result);
            proof {
                // the merged size stays within twice the drained batch's size
                if drained {
                    assert(layer1.tuples@.len() <= 2 * xb);
                    assert(x_sz >= 2 * xb);
                } else {
                    assert(tiered(ls));
                    assert(ls[n - 2].tuples@.len() >= 2 * ls[n - 1].tuples@.len());
                }
                assert(result.tuples@.len() <= 2 * x_sz);
                assert(merged_view(bview(layer1), bview(layer2), bm));
                assert(bviews(ls)[n - 1] == bview(layer1));
                assert(bviews(ls)[n - 2] == bview(layer2));
                assert(bviews(ls).last() == bview(layer1));
                lemma_bviews_drop2(ls);
                assert forall|k: Key, t: u64|
                    wrap(#[trigger] lsum(self.layers@.push(result), advfn(fr), k, t)) == wrap(
                        lsum(ls0, advfn(fr), k, t),
                    ) by {
                    let base = lsum(self.layers@, advfn(fr), k, t);
                    let ga = gweight(layer1.tuples@, advfn(fr), k, t);
                    let gb = gweight(layer2.tuples@, advfn(fr), k, t);
                    let gm = gweight(result.tuples@, advfn(fr), k, t);
                    assert(lsum(ls, advfn(fr), k, t) == base + gb + ga) by {
                        assert(ls.drop_last().drop_last() == self.layers@);
                        assert(lsum(ls, advfn(fr), k, t) == lsum(ls.drop_last(), advfn(fr), k, t) + gweight(
                            ls.last().tuples@,
                            advfn(fr),
                            k,
                            t,
                        ));
                        assert(lsum(ls.drop_last(), advfn(fr), k, t) == lsum(
                            ls.drop_last().drop_last(),
                            advfn(fr),
                            k,
                            t,
                        ) + gweight(ls.drop_last().last().tuples@, advfn(fr), k, t));
                    }
                    lemma_lsum_push(self.layers@, result, advfn(fr), k, t);
                    assert(wrap(gm) == wrap(ga + gb));
                    lemma_wrap_congruence(gm, ga + gb, base);
                    assert(gm + base == base + gm);
                    assert(ga + gb + base == base + gb + ga);
                    assert(wrap(lsum(ls, advfn(fr), k, t)) == wrap(lsum(ls0, advfn(fr), k, t)));
                }
            }
            if result.tuples.len() > 0 {
                let ghost before = self.layers@;
                self.layers.push(result);
                proof {
                    drained = true;
                    xb = x_sz;
                    assert(self.layers@ =~= before.push(result));
                    assert forall|i: int|
                        1 <= i < self.layers@.len() - 1 implies (#[trigger] self.layers@[i
                        - 1]).tuples@.len() >= 2 * self.layers@[i].tuples@.len() by {
                        assert(ls[i - 1] == self.layers@[i - 1]);
                        assert(ls[i] == self.layers@[i]);
                    }
                    if self.layers@.len() >= 2 {
                        assert(self.layers@[self.layers@.len() - 2] == ls[n - 3]);
                        let i = n - 2;
                        assert(1 <= i < n - 1);
                        assert(ls[i - 1].tuples@.len() >= 2 * ls[i].tuples@.len());
                        assert(ls[i - 1] == ls[n - 3]);
                    }
                    // descriptions stay chained: the merged batch covers the
                    // union of the pair it replaced
                    assert forall|i: int|
                        0 <= i < self.layers@.len() - 1 implies (#[trigger] self.layers@[i
                        ]).desc.upper@ == self.layers@[i + 1].desc.lower@ by {
                        assert(self.layers@[i] == ls[i]);
                        if i + 1 < self.layers@.len() - 1 {
                            assert(self.layers@[i + 1] == ls[i + 1]);
                        } else {
                            assert(ls[i].desc.upper@ == ls[i + 1].desc.lower@);
                            assert(ls[i + 1] == layer2);
                        }
                    }
                    lemma_bviews_push(before, result);
                    assert(bviews(self.layers@) == after_merge(bviews(rest), bm));
                }
            } else {
                proof {
                    drained = false;
                    assert forall|k: Key, t: u64|
                        wrap(#[trigger] lsum(self.layers@.push(result), advfn(fr), k, t)) == wrap(
                            lsum(self.layers@, advfn(fr), k, t),
                        ) by {
                        lemma_lsum_push(self.layers@, result, advfn(fr), k, t);
                        assert(gweight(result.tuples@, advfn(fr), k, t) == 0);
                        crate::update::lemma_wrap_fixed(0);
                        lemma_wrap_congruence(0, 0, lsum(self.layers@, advfn(fr), k, t));
                    }
                }
                if self.layers.len() > 0 {
                    let ghost before = self.layers@;
                    self.widen_top(&result.desc.upper);
                    proof {
                        assert forall|i: int|
                            0 <= i < self.layers@.len() implies (#[trigger] self.layers@[i]).tuples@
                            == before[i].tuples@ && self.layers@[i].wf()
                            && self.layers@[i].tuples@.len() > 0 by {
                            if i < self.layers@.len() - 1 {
                                assert(self.layers@[i] == before[i]);
                            } else {
                                assert(before[i] == before.last());
                            }
                            assert(before[i].wf());
                        }
                        assert forall|i: int|
                            1 <= i < self.layers@.len() implies (#[trigger] self.layers@[i
                            - 1]).tuples@.len() >= 2 * self.layers@[i].tuples@.len() by {
                            assert(self.layers@[i - 1].tuples@ == before[i - 1].tuples@);
                            assert(self.layers@[i].tuples@ == before[i].tuples@);
                            assert(ls[i - 1] == before[i - 1]);
                            assert(ls[i] == before[i]);
                        }
                        assert forall|i: int|
                            0 <= i < self.layers@.len() - 1 implies (#[trigger] self.layers@[i
                            ]).desc.upper@ == self.layers@[i + 1].desc.lower@ by {
                            assert(self.layers@[i] == before[i]);
                            assert(before[i] == ls[i]);
                            if i + 1 < self.layers@.len() - 1 {
                                assert(self.layers@[i + 1] == before[i + 1]);
                                assert(before[i + 1] == ls[i + 1]);
                            } else {
                                assert(before[i + 1] == before.last());
                                assert(before.last() == ls[i + 1]);
                            }
                        }
                        assert forall|k: Key, t: u64|
                            wrap(#[trigger] lsum(self.layers@, advfn(fr), k, t)) == wrap(
                                lsum(ls0, advfn(fr), k, t),
                            ) by {
                            lemma_lsum_tuples(before, self.layers@, advfn(fr), k, t);
                            lemma_lsum_push(before, result, advfn(fr), k, t);
                            assert(gweight(result.tuples@, advfn(fr), k, t) == 0);
                            assert(wrap(lsum(before.push(result), advfn(fr), k, t)) == wrap(
                                lsum(ls0, advfn(fr), k, t),
                            ));
                        }
                        assert(bviews(self.layers@) == after_merge(bviews(rest), bm)) by {
                            assert(bviews(self.layers@) =~= bviews(rest).update(
                                bviews(rest).len() - 1,
                                (
                                    bviews(rest).last().0,
                                    bviews(rest).last().1,
                                    bm.2,
                                    bviews(rest).last().3,
                                ),
                            ));
                        }
                    }
                } else {
                    proof {
                        assert(bviews(self.layers@) == after_merge(bviews(rest), bm)) by {
                            assert(bviews(self.layers@) =~= bviews(rest));
                        }
                        assert forall|k: Key, t: u64|
                            wrap(#[trigger] lsum(self.layers@, advfn(fr), k, t)) == wrap(
                                lsum(ls0, advfn(fr), k, t),
                            ) by {
                            assert(wrap(lsum(self.layers@.push(result), advfn(fr), k, t)) == wrap(
                                lsum(ls0, advfn(fr), k, t),
                            ));
                            assert(wrap(lsum(self.layers@.push(result), advfn(fr), k, t)) == wrap(
                                lsum(self.layers@, advfn(fr), k, t),
                            ));
                        }
                    }
                }
            }
            proof {
                assert forall|post: Seq<BatchView>|
                    #[trigger] drain_rel(bviews(self.layers@), blen as int, post) implies drain_rel(
                    bviews(ls0),
                    blen as int,
                    post,
                ) by {
                    assert(bviews(ls).len() >= 2);
                    assert(bviews(ls)[bviews(ls).len() - 2].0.len() < blen);
                    assert(drain_rel(
                        after_merge(bviews(ls).drop_last().drop_last(), bm),
                        blen as int,
                        post,
                    ));
                    assert(merged_view(bviews(ls).last(), bviews(ls)[bviews(ls).len() - 2], bm));
                    assert(drain_rel(bviews(ls), blen as int, post));
                }
            }
        }
        proof {
            // the drain has run out: what stands now is its result
            assert(drain_rel(bviews(self.layers@), blen as int, bviews(self.layers@))) by {
                if bviews(self.layers@).len() >= 2 {
                    let m = bviews(self.layers@).len() - 2;
                    assert(bviews(self.layers@)[m].0 == self.layers@[m].tuples@);
                }
            }
            assert(drain_rel(bviews(ls0), blen as int, bviews(self.layers@)));
        }
        // push the inserted batch itself: it continues the covered interval
        let ghost mid = bviews(self.layers@);
        let ghost lsd = self.layers@;
        self.layers.push(layer);
        proof {
            assert(self.layers@ =~= lsd.push(layer));
            lemma_bviews_push(lsd, layer);
            assert(bviews(self.layers@) == mid.push(bview(layer)));
            assert forall|k: Key, t: u64|
                wrap(#[trigger] lsum(self.layers@, advfn(fr), k, t)) == wrap(
                    lsum(ls0, advfn(fr), k, t) + gweight(layer.tuples@, advfn(fr), k, t),
                ) by {
                lemma_lsum_push(lsd, layer, advfn(fr), k, t);
                lemma_wrap_congruence(
                    lsum(lsd, advfn(fr), k, t),
                    lsum(ls0, advfn(fr), k, t),
                    gweight(layer.tuples@, advfn(fr), k, t),
                );
            }
            // the pushed batch chains onto what the drain left
            assert forall|i: int|
                0 <= i < self.layers@.len() - 1 implies (#[trigger] self.layers@[i]).desc.upper@
                == self.layers@[i + 1].desc.lower@ by {
                assert(self.layers@[i] == lsd[i]);
                if i + 1 < self.layers@.len() - 1 {
                    assert(self.layers@[i + 1] == lsd[i + 1]);
                } else {
                    assert(lsd[i] == lsd.last());
                }
            }
            // entering the cascade: every pair but the top one is tiered, or
            // every pair but the top two is and the top pair will merge
            if drained {
                assert forall|i: int|
                    1 <= i < self.layers@.len() - 2 implies (#[trigger] self.layers@[i
                    - 1]).tuples@.len() >= 2 * self.layers@[i].tuples@.len() by {
                    assert(lsd[i - 1] == self.layers@[i - 1]);
                    assert(lsd[i] == self.layers@[i]);
                }
                assert(self.layers@[self.layers@.len() - 2].tuples@.len() <= 2 * xb);
                assert(self.layers@[self.layers@.len() - 1].tuples@.len() == blen);
            } else {
                assert forall|i: int|
                    1 <= i < self.layers@.len() - 1 implies (#[trigger] self.layers@[i
                    - 1]).tuples@.len() >= 2 * self.layers@[i].tuples@.len() by {
                    assert(lsd[i - 1] == self.layers@[i - 1]);
                    assert(lsd[i] == self.layers@[i]);
                }
            }
        }
        let ghost start = mid.push(bview(layer));
        while self.need_merge()
            invariant
                self.frontier@ == fr,
                fr.len() > 0,
                forall|i: int|
                    0 <= i < self.layers@.len() ==> (#[trigger] self.layers@[i]).wf(),
                forall|i: int|
                    0 <= i < self.layers@.len() ==> (#[trigger] self.layers@[i]).tuples@.len() > 0,
                tiered_below(self.layers@, self.layers@.len() - 1) || (tiered_below(
                    self.layers@,
                    self.layers@.len() - 2,
                ) && self.layers@.len() >= 2 && self.layers@[self.layers@.len()
                    - 2].tuples@.len() < 2 * self.layers@[self.layers@.len() - 1].tuples@.len()),
                chained(self.layers@),
                forall|k: Key, t: u64|
                    wrap(#[trigger] lsum(self.layers@, advfn(fr), k, t)) == wrap(
                        lsum(ls0, advfn(fr), k, t) + gweight(layer.tuples@, advfn(fr), k, t),
                    ),
                forall|post: Seq<BatchView>|
                    #[trigger] cascade_rel(bviews(self.layers@), fr, post) ==> cascade_rel(
                        start,
                        fr,
                        post,
                    ),
            decreases self.layers@.len(),
        {
            let ghost ls = self.layers@;
            let ghost n = ls.len() as int;
            let layer1 = self.layers.pop().unwrap();
            let layer2 = self.layers.pop().unwrap();
            proof {
                assert(self.layers@ =~= ls.drop_last().drop_last());
                assert(ls.drop_last().last() == layer2);
                assert(ls[n - 2] == layer2);
                assert(ls[n - 1] == layer1);
            }
            let ghost rest = self.layers@;
            let mut result = layer1.merge(&layer2);
            let ghost merged = result;
            if self.layers.len() == 0 {
                // the merge produced the bottommost batch: advance its times
                result = Layer::advance_by(&result, &self.frontier);
            }
            let ghost bm = bview(merged);
            let ghost bmm = bview(result);
            proof {
                assert(merged_view(bview(layer1), bview(layer2), bm));
                assert(bviews(ls)[n - 1] == bview(layer1));
                assert(bviews(ls)[n - 2] == bview(layer2));
                assert(bviews(ls).last() == bview(layer1));
                lemma_bviews_drop2(ls);
                assert(maybe_advanced(bviews(ls).len() as int, bm, fr, bmm)) by {
                    if n == 2 {
                        assert(advanced_view(bm, fr, bmm));
                    } else {
                        assert(result == merged);
                    }
                }
                assert forall|k: Key, t: u64|
                    wrap(#[trigger] lsum(self.layers@.push(result), advfn(fr), k, t)) == wrap(
                        lsum(ls0, advfn(fr), k, t) + gweight(layer.tuples@, advfn(fr), k, t),
                    ) by {
                    let base = lsum(self.layers@, advfn(fr), k, t);
                    let ga = gweight(layer1.tuples@, advfn(fr), k, t);
                    let gb = gweight(layer2.tuples@, advfn(fr), k, t);
                    let gm = gweight(merged.tuples@, advfn(fr), k, t);
                    let gr = gweight(result.tuples@, advfn(fr), k, t);
                    assert(lsum(ls, advfn(fr), k, t) == base + gb + ga) by {
                        assert(ls.drop_last().drop_last() == self.layers@);
                        assert(lsum(ls, advfn(fr), k, t) == lsum(ls.drop_last(), advfn(fr), k, t) + gweight(
                            ls.last().tuples@,
                            advfn(fr),
                            k,
                            t,
                        ));
                        assert(lsum(ls.drop_last(), advfn(fr), k, t) == lsum(
                            ls.drop_last().drop_last(),
                            advfn(fr),
                            k,
                            t,
                        ) + gweight(ls.drop_last().last().tuples@, advfn(fr), k, t));
                    }
                    lemma_lsum_push(self.layers@, result, advfn(fr), k, t);
                    assert(wrap(gm) == wrap(ga + gb));
                    if self.layers@.len() == 0 {
                        // advancement keeps the reading: the coarsening is
                        // idempotent under a further advance by the frontier
                        assert(wrap(gr) == wrap(gweight(merged.tuples@, gadv(advfn(fr), fr), k, t)));
                        assert(gweight(merged.tuples@, gadv(advfn(fr), fr), k, t) == gm) by {
                            assert forall|j: int|
                                0 <= j < merged.tuples@.len() implies gadv(advfn(fr), fr)(
                                #[trigger] merged.tuples@[j].time) == advfn(fr)(merged.tuples@[j].time) by {
                                let x = merged.tuples@[j].time;
                                lemma_adv_time(x, fr);
                                assert(gadv(advfn(fr), fr)(x) == advfn(fr)(adv_time(x, fr)));
                                assert(advfn(fr)(adv_time(x, fr)) == adv_time(
                                    adv_time(x, fr),
                                    fr,
                                ));
                                assert(advfn(fr)(x) == adv_time(x, fr));
                            }
                            lemma_gweight_pointwise(merged.tuples@, gadv(advfn(fr), fr), advfn(fr), k, t);
                        }
                    } else {
                        assert(result == merged);
                    }
                    assert(wrap(gr) == wrap(ga + gb)) by {
                        lemma_wrap_congruence(gr, gm, 0);
                        lemma_wrap_congruence(gm, ga + gb, 0);
                    }
                    lemma_wrap_congruence(gr, ga + gb, base);
                    assert(gr + base == base + gr);
                    assert(ga + gb + base == base + gb + ga);
                    assert(wrap(lsum(ls, advfn(fr), k, t)) == wrap(
                        lsum(ls0, advfn(fr), k, t) + gweight(layer.tuples@, advfn(fr), k, t),
                    ));
                }
                assert forall|i: int|
                    1 <= i < self.layers@.len() implies (#[trigger] self.layers@[i
                    - 1]).tuples@.len() >= 2 * self.layers@[i].tuples@.len() by {
                    assert(ls[i - 1] == self.layers@[i - 1]);
                    assert(ls[i] == self.layers@[i]);
                }
            }
            if result.tuples.len() > 0 {
                let ghost before = self.layers@;
                self.layers.push(result);
                proof {
                    assert(self.layers@ =~= before.push(result));
                    assert forall|i: int|
                        1 <= i < self.layers@.len() - 1 implies (#[trigger] self.layers@[i
                        - 1]).tuples@.len() >= 2 * self.layers@[i].tuples@.len() by {
                        assert(before[i - 1] == self.layers@[i - 1]);
                        assert(before[i] == self.layers@[i]);
                    }
                    assert forall|i: int|
                        0 <= i < self.layers@.len() - 1 implies (#[trigger] self.layers@[i
                        ]).desc.upper@ == self.layers@[i + 1].desc.lower@ by {
                        assert(self.layers@[i] == ls[i]);
                        if i + 1 < self.layers@.len() - 1 {
                            assert(self.layers@[i + 1] == ls[i + 1]);
                        } else {
                            assert(ls[i].desc.upper@ == ls[i + 1].desc.lower@);
                            assert(ls[i + 1] == layer2);
                        }
                    }
                    lemma_bviews_push(before, result);
                    assert(bviews(self.layers@) == after_merge(bviews(rest), bmm));
                }
            } else {
                proof {
                    assert forall|k: Key, t: u64|
                        wrap(#[trigger] lsum(self.layers@.push(result), advfn(fr), k, t)) == wrap(
                            lsum(self.layers@, advfn(fr), k, t),
                        ) by {
                        lemma_lsum_push(self.layers@, result, advfn(fr), k, t);
                        assert(gweight(result.tuples@, advfn(fr), k, t) == 0);
                        crate::update::lemma_wrap_fixed(0);
                        lemma_wrap_congruence(0, 0, lsum(self.layers@, advfn(fr), k, t));
                    }
                }
                if self.layers.len() > 0 {
                    let ghost before = self.layers@;
                    self.widen_top(&result.desc.upper);
                    proof {
                        assert forall|i: int|
                            0 <= i < self.layers@.len() implies (#[trigger] self.layers@[i]).tuples@
                            == before[i].tuples@ && self.layers@[i].wf()
                            && self.layers@[i].tuples@.len() > 0 by {
                            if i < self.layers@.len() - 1 {
                                assert(self.layers@[i] == before[i]);
                            } else {
                                assert(before[i] == before.last());
                            }
                            assert(before[i].wf());
                        }
                        assert forall|i: int|
                            1 <= i < self.layers@.len() implies (#[trigger] self.layers@[i
                            - 1]).tuples@.len() >= 2 * self.layers@[i].tuples@.len() by {
                            assert(self.layers@[i - 1].tuples@ == before[i - 1].tuples@);
                            assert(self.layers@[i].tuples@ == before[i].tuples@);
                            assert(ls[i - 1] == before[i - 1]);
                            assert(ls[i] == before[i]);
                        }
                        assert forall|i: int|
                            0 <= i < self.layers@.len() - 1 implies (#[trigger] self.layers@[i
                            ]).desc.upper@ == self.layers@[i + 1].desc.lower@ by {
                            assert(self.layers@[i] == before[i]);
                            assert(before[i] == ls[i]);
                            if i + 1 < self.layers@.len() - 1 {
                                assert(self.layers@[i + 1] == before[i + 1]);
                                assert(before[i + 1] == ls[i + 1]);
                            } else {
                                assert(before[i + 1] == before.last());
                                assert(before.last() == ls[i + 1]);
                            }
                        }
                        assert forall|k: Key, t: u64|
                            wrap(#[trigger] lsum(self.layers@, advfn(fr), k, t)) == wrap(
                                lsum(ls0, advfn(fr), k, t) + gweight(layer.tuples@, advfn(fr), k, t),
                            ) by {
                            lemma_lsum_tuples(before, self.layers@, advfn(fr), k, t);
                            lemma_lsum_push(before, result, advfn(fr), k, t);
                            assert(gweight(result.tuples@, advfn(fr), k, t) == 0);
                            assert(wrap(lsum(before.push(result), advfn(fr), k, t)) == wrap(
                                lsum(ls0, advfn(fr), k, t) + gweight(layer.tuples@, advfn(fr), k, t),
                            ));
                        }
                        assert(bviews(self.layers@) == after_merge(bviews(rest), bmm)) by {
                            assert(bviews(self.layers@) =~= bviews(rest).update(
                                bviews(rest).len() - 1,
                                (
                                    bviews(rest).last().0,
                                    bviews(rest).last().1,
                                    bmm.2,
                                    bviews(rest).last().3,
                                ),
                            ));
                        }
                    }
                } else {
                    proof {
                        assert(bviews(self.layers@) == after_merge(bviews(rest), bmm)) by {
                            assert(bviews(self.layers@) =~= bviews(rest));
                        }
                        assert forall|k: Key, t: u64|
                            wrap(#[trigger] lsum(self.layers@, advfn(fr), k, t)) == wrap(
                                lsum(ls0, advfn(fr), k, t) + gweight(layer.tuples@, advfn(fr), k, t),
                            ) by {
                            assert(wrap(lsum(self.layers@.push(result), advfn(fr), k, t)) == wrap(
                                lsum(ls0, advfn(fr), k, t) + gweight(layer.tuples@, advfn(fr), k, t),
                            ));
                            assert(wrap(lsum(self.layers@.push(result), advfn(fr), k, t)) == wrap(
                                lsum(self.layers@, advfn(fr), k, t),
                            ));
                        }
                    }
                }
            }
            proof {
                assert forall|post: Seq<BatchView>|
                    #[trigger] cascade_rel(bviews(self.layers@), fr, post) implies cascade_rel(
                    start,
                    fr,
                    post,
                ) by {
                    assert(bviews(ls).len() >= 2);
                    assert(bviews(ls)[bviews(ls).len() - 2].0.len() < 2 * bviews(ls).last().0.len());
                    assert(cascade_rel(
                        after_merge(bviews(ls).drop_last().drop_last(), bmm),
                        fr,
                        post,
                    ));
                    assert(merged_view(bviews(ls).last(), bviews(ls)[bviews(ls).len() - 2], bm));
                    assert(maybe_advanced(bviews(ls).len() as int, bm, fr, bmm));
                    assert(cascade_rel(bviews(ls), fr, post));
                }
            }
        }
        proof {
            // on exit the top pair is tiered or fewer than two batches stand,
            // so the whole stack is tiered, and the cascade has run out
            if self.layers@.len() >= 2 {
                assert(tiered_below(self.layers@, self.layers@.len() - 1));
            }
            assert(cascade_rel(bviews(self.layers@), fr, bviews(self.layers@))) by {
                if bviews(self.layers@).len() >= 2 {
                    let m = bviews(self.layers@).len() - 2;
                    assert(bviews(self.layers@)[m].0 == self.layers@[m].tuples@);
                    assert(bviews(self.layers@)[m + 1].0 == self.layers@[m + 1].tuples@);
                }
            }
            assert(cascade_rel(start, fr, bviews(self.layers@)));
            assert(bview(layer).0.len() as int == blen as int);
            assert(drain_rel(bviews(ls0), bview(layer).0.len() as int, mid));
            assert(insert_rel(bviews(ls0), bview(layer), fr, bviews(self.layers@)));
        }
    }
}

} // verus!
