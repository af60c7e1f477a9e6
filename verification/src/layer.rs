//! Immutable batches: a sorted, consolidated sequence of updates together
//! with a description of the logical interval it covers. Batches merge into
//! batches, and their times can be advanced wholesale by a frontier.
use vstd::prelude::*;

use crate::canon::canonical;
use crate::consolidate::{consolidate, kt_supported};
use crate::frontier::adv_time;
use crate::consolidate::upd_before;
use crate::update::{
    gweight, lemma_gweight_push, lemma_wrap_add_right, lemma_wrap_congruence, one_weight, upd_eq,
    upd_lt, wrap, Key, Update,
};

verus! {

/// Three frontiers describing a batch: it covers the updates of the logical
/// interval bounded below by `lower` and above by `upper`, with times
/// coarsened up to `since`.
pub struct Description {
    pub lower: Vec<u64>,
    pub upper: Vec<u64>,
    pub since: Vec<u64>,
}

/// Copies a borrowed frontier into an owned one.
pub fn copy_times(xs: &Vec<u64>) -> (v: Vec<u64>)
    ensures
        v@ == xs@,
{
    let mut v: Vec<u64> = Vec::new();
    let mut i: usize = 0;
    while i < xs.len()
        invariant
            i <= xs@.len(),
            v@ == xs@.take(i as int),
        decreases xs@.len() - i,
    {
        v.push(xs[i]);
        proof {
            assert(xs@.take(i as int + 1) =~= xs@.take(i as int).push(xs@[i as int]));
        }
        i += 1;
    }
    proof {
        assert(xs@.take(xs@.len() as int) =~= xs@);
    }
    v
}

impl Description {
    pub fn new(lower: &Vec<u64>, upper: &Vec<u64>, since: &Vec<u64>) -> (d: Self)
        ensures
            d.lower@ == lower@,
            d.upper@ == upper@,
            d.since@ == since@,
    {
        Description { lower: copy_times(lower), upper: copy_times(upper), since: copy_times(since) }
    }
}

/// What a merge promises: the output is canonical, no longer than the two
/// inputs together, weighs the wrapped sum of their weights at every
/// (key, time) under every coarsening of times, and holds no coordinates
/// that neither input holds.
pub open spec fn merge_rel(a: Seq<Update>, b: Seq<Update>, out: Seq<Update>) -> bool {
    &&& canonical(out)
    &&& out.len() <= a.len() + b.len()
    &&& (forall|g: spec_fn(u64) -> u64, k: Key, t: u64|
        wrap(#[trigger] gweight(out, g, k, t)) == wrap(gweight(a, g, k, t) + gweight(b, g, k, t)))
    &&& (forall|j: int| 0 <= j < out.len() ==> #[trigger] kt_supported(out, a + b, j))
}

/// The map that advancement by frontier `f` applies to every time, composed
/// with a further coarsening `g`.
pub open spec fn gadv(g: spec_fn(u64) -> u64, f: Seq<u64>) -> spec_fn(u64) -> u64 {
    |x: u64| g(adv_time(x, f))
}

/// The identity coarsening composed with advancement by `f`.
pub open spec fn advfn(f: Seq<u64>) -> spec_fn(u64) -> u64 {
    |x: u64| adv_time(x, f)
}

/// One update with its time advanced by `f`.
pub open spec fn adv_upd(u: Update, f: Seq<u64>) -> Update {
    Update { key: u.key, time: adv_time(u.time, f), diff: u.diff }
}

/// A whole sequence with every time advanced by `f`.
pub open spec fn adv_seq(s: Seq<Update>, f: Seq<u64>) -> Seq<Update> {
    s.map(|j: int, u: Update| adv_upd(u, f))
}

/// Weighing an advanced sequence is weighing the sequence it came from
/// under the composed coarsening.
pub proof fn lemma_gweight_adv_seq(s: Seq<Update>, f: Seq<u64>, g: spec_fn(u64) -> u64, k: Key, t: u64)
    ensures
        gweight(adv_seq(s, f), g, k, t) == gweight(s, gadv(g, f), k, t),
    decreases s.len(),
{
    if s.len() > 0 {
        assert(adv_seq(s, f).drop_last() =~= adv_seq(s.drop_last(), f));
        assert(adv_seq(s, f).last() == adv_upd(s.last(), f));
        lemma_gweight_adv_seq(s.drop_last(), f, g, k, t);
    } else {
        assert(adv_seq(s, f) =~= Seq::<Update>::empty());
    }
}

/// What advancement promises: the output is the consolidation of the input
/// with every time advanced by `f`; every output time is already beyond `f`
/// (a fixed point of further advancement by `f`).
pub open spec fn advance_rel(inp: Seq<Update>, f: Seq<u64>, out: Seq<Update>) -> bool {
    &&& canonical(out)
    &&& out.len() <= inp.len()
    &&& (forall|g: spec_fn(u64) -> u64, k: Key, t: u64|
        wrap(#[trigger] gweight(out, g, k, t)) == wrap(gweight(inp, gadv(g, f), k, t)))
    &&& (forall|j: int|
        0 <= j < out.len() ==> adv_time(#[trigger] out[j].time, f) == out[j].time)
    &&& (forall|j: int| 0 <= j < out.len() ==> #[trigger] kt_supported(out, adv_seq(inp, f), j))
}

/// Linear merge of two canonical runs: one pass over both, combining the
/// differences of equal (key, time) coordinates by ring addition and
/// dropping the sums that cancel to zero.
fn merge_sorted(a: &Vec<Update>, b: &Vec<Update>) -> (out: Vec<Update>)
    requires
        canonical(a@),
        canonical(b@),
    ensures
        merge_rel(a@, b@, out@),
{
    let mut out: Vec<Update> = Vec::new();
    let mut i: usize = 0;
    let mut j: usize = 0;
    proof {
        assert(a@.take(0) =~= Seq::<Update>::empty());
        assert(b@.take(0) =~= Seq::<Update>::empty());
    }
    while i < a.len() || j < b.len()
        invariant
            canonical(a@),
            canonical(b@),
            i <= a@.len(),
            j <= b@.len(),
            canonical(out@),
            out@.len() <= i + j,
            forall|p: int, q: int|
                0 <= p < out@.len() && i <= q < a@.len() ==> upd_lt(
                    #[trigger] out@[p],
                    #[trigger] a@[q],
                ),
            forall|p: int, q: int|
                0 <= p < out@.len() && j <= q < b@.len() ==> upd_lt(
                    #[trigger] out@[p],
                    #[trigger] b@[q],
                ),
            forall|g: spec_fn(u64) -> u64, k: Key, t: u64|
                wrap(#[trigger] gweight(out@, g, k, t)) == wrap(
                    gweight(a@.take(i as int), g, k, t) + gweight(b@.take(j as int), g, k, t),
                ),
            forall|l: int| 0 <= l < out@.len() ==> #[trigger] kt_supported(out@, a@ + b@, l),
        decreases a@.len() + b@.len() - i - j,
    {
        let ghost out0 = out@;
        let ghost ti = i as int;
        let ghost tj = j as int;
        let take_a = i < a.len() && (j >= b.len() || upd_before(&a[i], &b[j]));
        let take_b = !take_a && j < b.len() && (i >= a.len() || upd_before(&b[j], &a[i]));
        if take_a {
            let u = a[i];
            out.push(u);
            proof {
                assert(a@.take(ti + 1) =~= a@.take(ti).push(u));
                assert forall|g: spec_fn(u64) -> u64, k: Key, t: u64|
                    wrap(#[trigger] gweight(out@, g, k, t)) == wrap(
                        gweight(a@.take(ti + 1), g, k, t) + gweight(b@.take(tj), g, k, t),
                    ) by {
                    lemma_gweight_push(out0, u, g, k, t);
                    lemma_gweight_push(a@.take(ti), u, g, k, t);
                    let x = gweight(out0, g, k, t);
                    let ta = gweight(a@.take(ti), g, k, t);
                    let tb = gweight(b@.take(tj), g, k, t);
                    let ow = one_weight(u, g, k, t);
                    lemma_wrap_congruence(x, ta + tb, ow);
                    assert(ta + tb + ow == ta + ow + tb);
                }
                assert forall|p: int, q: int|
                    0 <= p < out@.len() && ti + 1 <= q < a@.len() implies upd_lt(
                    #[trigger] out@[p],
                    #[trigger] a@[q],
                ) by {
                    if p < out0.len() {
                        assert(out@[p] == out0[p]);
                    } else {
                        assert(out@[p] == u);
                        assert(upd_lt(a@[ti], a@[q]));
                    }
                }
                assert forall|p: int, q: int|
                    0 <= p < out@.len() && tj <= q < b@.len() implies upd_lt(
                    #[trigger] out@[p],
                    #[trigger] b@[q],
                ) by {
                    if p < out0.len() {
                        assert(out@[p] == out0[p]);
                    } else {
                        assert(out@[p] == u);
                        assert(upd_lt(a@[ti], b@[tj]));
                        if q > tj {
                            assert(upd_lt(b@[tj], b@[q]));
                        }
                    }
                }
                assert forall|p: int, q: int| 0 <= p < q < out@.len() implies upd_lt(
                    #[trigger] out@[p],
                    #[trigger] out@[q],
                ) by {
                    if q == out0.len() {
                        assert(out@[p] == out0[p]);
                        assert(out@[q] == u);
                        assert(upd_lt(out0[p], a@[ti]));
                    }
                }
                assert forall|l: int| 0 <= l < out@.len() implies #[trigger] kt_supported(
                    out@,
                    a@ + b@,
                    l,
                ) by {
                    if l < out0.len() {
                        assert(kt_supported(out0, a@ + b@, l));
                        let w = choose|w: int|
                            0 <= w < (a@ + b@).len() && upd_eq(out0[l], #[trigger] (a@ + b@)[w]);
                        assert(out@[l] == out0[l]);
                        assert(upd_eq(out@[l], (a@ + b@)[w]));
                    } else {
                        assert((a@ + b@)[ti] == a@[ti]);
                        assert(upd_eq(out@[l], (a@ + b@)[ti]));
                    }
                }
            }
            i += 1;
        } else if take_b {
            let u = b[j];
            out.push(u);
            proof {
                assert(b@.take(tj + 1) =~= b@.take(tj).push(u));
                assert forall|g: spec_fn(u64) -> u64, k: Key, t: u64|
                    wrap(#[trigger] gweight(out@, g, k, t)) == wrap(
                        gweight(a@.take(ti), g, k, t) + gweight(b@.take(tj + 1), g, k, t),
                    ) by {
                    lemma_gweight_push(out0, u, g, k, t);
                    lemma_gweight_push(b@.take(tj), u, g, k, t);
                    let x = gweight(out0, g, k, t);
                    let ta = gweight(a@.take(ti), g, k, t);
                    let tb = gweight(b@.take(tj), g, k, t);
                    let ow = one_weight(u, g, k, t);
                    lemma_wrap_congruence(x, ta + tb, ow);
                }
                assert forall|p: int, q: int|
                    0 <= p < out@.len() && tj + 1 <= q < b@.len() implies upd_lt(
                    #[trigger] out@[p],
                    #[trigger] b@[q],
                ) by {
                    if p < out0.len() {
                        assert(out@[p] == out0[p]);
                    } else {
                        assert(out@[p] == u);
                        assert(upd_lt(b@[tj], b@[q]));
                    }
                }
                assert forall|p: int, q: int|
                    0 <= p < out@.len() && ti <= q < a@.len() implies upd_lt(
                    #[trigger] out@[p],
                    #[trigger] a@[q],
                ) by {
                    if p < out0.len() {
                        assert(out@[p] == out0[p]);
                    } else {
                        assert(out@[p] == u);
                        assert(upd_lt(b@[tj], a@[ti]));
                        if q > ti {
                            assert(upd_lt(a@[ti], a@[q]));
                        }
                    }
                }
                assert forall|p: int, q: int| 0 <= p < q < out@.len() implies upd_lt(
                    #[trigger] out@[p],
                    #[trigger] out@[q],
                ) by {
                    if q == out0.len() {
                        assert(out@[p] == out0[p]);
                        assert(out@[q] == u);
                        assert(upd_lt(out0[p], b@[tj]));
                    }
                }
                assert forall|l: int| 0 <= l < out@.len() implies #[trigger] kt_supported(
                    out@,
                    a@ + b@,
                    l,
                ) by {
                    if l < out0.len() {
                        assert(kt_supported(out0, a@ + b@, l));
                        let w = choose|w: int|
                            0 <= w < (a@ + b@).len() && upd_eq(out0[l], #[trigger] (a@ + b@)[w]);
                        assert(out@[l] == out0[l]);
                        assert(upd_eq(out@[l], (a@ + b@)[w]));
                    } else {
                        assert((a@ + b@)[a@.len() + tj] == b@[tj]);
                        assert(upd_eq(out@[l], (a@ + b@)[a@.len() + tj]));
                    }
                }
            }
            j += 1;
        } else {
            // both runs stand at the same (key, time): combine the diffs
            let ua = a[i];
            let ub = b[j];
            proof {
                assert(upd_eq(ua, ub));
            }
            let d = crate::update::diff_add(ua.diff, ub.diff);
            let ghost w = Update { key: ua.key, time: ua.time, diff: d };
            if d != 0 {
                out.push(Update { key: ua.key, time: ua.time, diff: d });
            }
            proof {
                assert(a@.take(ti + 1) =~= a@.take(ti).push(ua));
                assert(b@.take(tj + 1) =~= b@.take(tj).push(ub));
                assert forall|g: spec_fn(u64) -> u64, k: Key, t: u64|
                    wrap(#[trigger] gweight(out@, g, k, t)) == wrap(
                        gweight(a@.take(ti + 1), g, k, t) + gweight(b@.take(tj + 1), g, k, t),
                    ) by {
                    lemma_gweight_push(a@.take(ti), ua, g, k, t);
                    lemma_gweight_push(b@.take(tj), ub, g, k, t);
                    let x = gweight(out0, g, k, t);
                    let ta = gweight(a@.take(ti), g, k, t);
                    let tb = gweight(b@.take(tj), g, k, t);
                    let owa = one_weight(ua, g, k, t);
                    let owb = one_weight(ub, g, k, t);
                    lemma_wrap_congruence(x, ta + tb, owa + owb);
                    assert(ta + tb + (owa + owb) == ta + owa + (tb + owb));
                    if d != 0 {
                        lemma_gweight_push(out0, w, g, k, t);
                        let oww = one_weight(w, g, k, t);
                        if ua.key == k && g(ua.time) == t {
                            assert(oww == wrap(owa + owb));
                            lemma_wrap_add_right(x, owa + owb);
                            assert(x + oww == x + wrap(owa + owb));
                        } else {
                            assert(oww == 0 && owa == 0 && owb == 0);
                        }
                    } else {
                        assert(out@ == out0);
                        if ua.key == k && g(ua.time) == t {
                            assert(wrap(owa + owb) == 0);
                            lemma_wrap_add_right(x, owa + owb);
                            assert(wrap(x + wrap(owa + owb)) == wrap(x + 0));
                        }
                    }
                }
                if d != 0 {
                    assert forall|p: int, q: int|
                        0 <= p < out@.len() && ti + 1 <= q < a@.len() implies upd_lt(
                        #[trigger] out@[p],
                        #[trigger] a@[q],
                    ) by {
                        if p < out0.len() {
                            assert(out@[p] == out0[p]);
                        } else {
                            assert(out@[p] == w);
                            assert(upd_lt(a@[ti], a@[q]));
                        }
                    }
                    assert forall|p: int, q: int|
                        0 <= p < out@.len() && tj + 1 <= q < b@.len() implies upd_lt(
                        #[trigger] out@[p],
                        #[trigger] b@[q],
                    ) by {
                        if p < out0.len() {
                            assert(out@[p] == out0[p]);
                        } else {
                            assert(out@[p] == w);
                            assert(upd_lt(b@[tj], b@[q]));
                        }
                    }
                    assert forall|p: int, q: int| 0 <= p < q < out@.len() implies upd_lt(
                        #[trigger] out@[p],
                        #[trigger] out@[q],
                    ) by {
                        if q == out0.len() {
                            assert(out@[p] == out0[p]);
                            assert(out@[q] == w);
                            assert(upd_lt(out0[p], a@[ti]));
                        }
                    }
                    assert forall|l: int| 0 <= l < out@.len() implies #[trigger] kt_supported(
                        out@,
                        a@ + b@,
                        l,
                    ) by {
                        if l < out0.len() {
                            assert(kt_supported(out0, a@ + b@, l));
                            let v = choose|v: int|
                                0 <= v < (a@ + b@).len() && upd_eq(
                                    out0[l],
                                    #[trigger] (a@ + b@)[v],
                                );
                            assert(out@[l] == out0[l]);
                            assert(upd_eq(out@[l], (a@ + b@)[v]));
                        } else {
                            assert((a@ + b@)[ti] == a@[ti]);
                            assert(upd_eq(out@[l], (a@ + b@)[ti]));
                        }
                    }
                } else {
                    assert forall|p: int, q: int|
                        0 <= p < out@.len() && ti + 1 <= q < a@.len() implies upd_lt(
                        #[trigger] out@[p],
                        #[trigger] a@[q],
                    ) by {
                        assert(out@[p] == out0[p]);
                    }
                    assert forall|p: int, q: int|
                        0 <= p < out@.len() && tj + 1 <= q < b@.len() implies upd_lt(
                        #[trigger] out@[p],
                        #[trigger] b@[q],
                    ) by {
                        assert(out@[p] == out0[p]);
                    }
                }
            }
            i += 1;
            j += 1;
        }
    }
    proof {
        assert(a@.take(a@.len() as int) =~= a@);
        assert(b@.take(b@.len() as int) =~= b@);
    }
    out
}

/// An immutable batch: consolidated updates plus their description.
pub struct Layer {
    /// The updates, in strictly ascending (key, time) order, no zeros.
    pub tuples: Vec<Update>,
    /// The logical interval the batch covers and its compaction frontier.
    pub desc: Description,
}

impl Layer {
    /// A batch is well formed when its updates are canonical.
    pub open spec fn wf(self) -> bool {
        canonical(self.tuples@)
    }

    /// The number of update tuples the batch holds.
    pub fn len(&self) -> (n: usize)
        ensures
            n == self.tuples@.len(),
    {
        self.tuples.len()
    }

    /// Conducts a full merge, right away; times are not advanced. Callers
    /// hand the newer batch as `self` and the older as `other`: the result
    /// covers the union interval, from the older batch's lower bound to the
    /// newer one's upper, and its times are compacted no further than its
    /// own lower bound (`since = lower`).
    pub fn merge(&self, other: &Self) -> (out: Self)
        requires
            self.wf(),
            other.wf(),
        ensures
            out.wf(),
            merge_rel(self.tuples@, other.tuples@, out.tuples@),
            out.desc.lower@ == other.desc.lower@,
            out.desc.upper@ == self.desc.upper@,
            out.desc.since@ == other.desc.lower@,
    {
        let merged = merge_sorted(&self.tuples, &other.tuples);
        Layer {
            tuples: merged,
            desc: Description::new(&other.desc.lower, &self.desc.upper, &other.desc.lower),
        }
    }

    /// Advances every time in `layer` by the frontier and consolidates the
    /// differences of times that collide; the result records the frontier as
    /// its `since`.
    pub fn advance_by(layer: &Layer, frontier: &Vec<u64>) -> (out: Layer)
        requires
            frontier@.len() > 0,
        ensures
            out.wf(),
            advance_rel(layer.tuples@, frontier@, out.tuples@),
            out.desc.lower@ == layer.desc.lower@,
            out.desc.upper@ == layer.desc.upper@,
            out.desc.since@ == frontier@,
    {
        let ghost f = frontier@;
        let mut moved: Vec<Update> = Vec::new();
        let mut i: usize = 0;
        while i < layer.tuples.len()
            invariant
                i <= layer.tuples@.len(),
                f == frontier@,
                f.len() > 0,
                moved@ == adv_seq(layer.tuples@.take(i as int), f),
            decreases layer.tuples@.len() - i,
        {
            let u = layer.tuples[i];
            let t2 = crate::frontier::adv_time_exec(u.time, frontier);
            moved.push(Update { key: u.key, time: t2, diff: u.diff });
            proof {
                assert(moved@ =~= adv_seq(layer.tuples@.take(i as int + 1), f));
            }
            i += 1;
        }
        proof {
            assert(layer.tuples@.take(layer.tuples@.len() as int) =~= layer.tuples@);
            assert(moved@ == adv_seq(layer.tuples@, f));
        }
        let out = consolidate(&moved);
        proof {
            assert forall|g: spec_fn(u64) -> u64, k: Key, t: u64|
                wrap(#[trigger] gweight(out@, g, k, t)) == wrap(
                    gweight(layer.tuples@, gadv(g, f), k, t),
                ) by {
                lemma_gweight_adv_seq(layer.tuples@, f, g, k, t);
                assert(wrap(gweight(out@, g, k, t)) == wrap(gweight(moved@, g, k, t)));
            }
            assert forall|j: int| 0 <= j < out@.len() implies adv_time(
                #[trigger] out@[j].time,
                f,
            ) == out@[j].time by {
                assert(kt_supported(out@, moved@, j));
                let l = choose|l: int| 0 <= l < moved@.len() && upd_eq(out@[j], #[trigger] moved@[l]);
                assert(moved@[l].time == adv_time(layer.tuples@[l].time, f));
                crate::frontier::lemma_adv_time(layer.tuples@[l].time, f);
            }
        }
        Layer {
            tuples: out,
            desc: Description::new(&layer.desc.lower, &layer.desc.upper, frontier),
        }
    }
}

/// A builder for creating batches from sorted, consolidated update tuples.
pub struct LayerBuilder {
    /// What has been pushed so far, in strictly ascending (key, time) order.
    pub tuples: Vec<Update>,
}

impl LayerBuilder {
    pub fn new() -> (r: Self)
        ensures
            r.tuples@.len() == 0,
    {
        LayerBuilder { tuples: Vec::new() }
    }

    /// Accepts the next tuple; the caller hands tuples in strictly ascending
    /// (key, time) order and never a zero difference.
    pub fn push(&mut self, u: Update)
        requires
            u.diff != 0,
            old(self).tuples@.len() > 0 ==> crate::update::upd_lt(
                old(self).tuples@.last(),
                u,
            ),
        ensures
            final(self).tuples@ == old(self).tuples@.push(u),
    {
        self.tuples.push(u);
    }

    /// Finishes the batch with its interval bounds; `since` starts at `lower`.
    pub fn done(self, lower: &Vec<u64>, upper: &Vec<u64>) -> (out: Layer)
        requires
            canonical(self.tuples@),
        ensures
            out.wf(),
            out.tuples@ == self.tuples@,
            out.desc.lower@ == lower@,
            out.desc.upper@ == upper@,
            out.desc.since@ == lower@,
    {
        Layer { tuples: self.tuples, desc: Description::new(lower, upper, lower) }
    }
}

} // verus!
