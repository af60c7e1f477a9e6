//! The batcher: it accepts unsorted pushes of updates, buffers them,
//! periodically compacts the buffered tuples by consolidation, and on demand
//! seals a batch holding exactly the buffered updates whose times lie in a
//! requested logical interval, keeping the rest for a later seal.
use vstd::prelude::*;
use vstd::multiset::Multiset;
use vstd::seq_lib::group_to_multiset_ensures;

use timely_sort::LSBRadixSorter;

use crate::canon::{canonical, lemma_canonical_unique, lemma_canonical_wrap, lemma_gweight_multiset};
use crate::consolidate::{consolidate, lemma_consolidate_weight};
use crate::frontier::{frontier_le, frontier_le_exec, in_interval, Antichain};
use crate::layer::{Layer, LayerBuilder};
use crate::sorter::{blocks, sorter_contents, sorter_finish, sorter_new, sorter_push, sorter_sort};
use crate::update::{
    gweight, lemma_gweight_concat, lemma_gweight_push, lemma_wrap_congruence, tid, upd_lt, weight,
    wrap, Key, Update,
};

verus! {

pub proof fn lemma_blocks_push(bs: Seq<Vec<Update>>, b: Vec<Update>)
    ensures
        blocks(bs.push(b)) == blocks(bs) + b@,
{
    assert(bs.push(b).drop_last() =~= bs);
    assert(bs.push(b).last() == b);
}

pub proof fn lemma_blocks_take(bs: Seq<Vec<Update>>, i: int)
    requires
        0 <= i < bs.len(),
    ensures
        blocks(bs.take(i + 1)) == blocks(bs.take(i)) + bs[i]@,
{
    assert(bs.take(i + 1) =~= bs.take(i).push(bs[i]));
    lemma_blocks_push(bs.take(i), bs[i]);
}

/// Filtering commutes with appending one element.
pub proof fn lemma_filter_push(s: Seq<Update>, p: spec_fn(Update) -> bool, u: Update)
    ensures
        s.push(u).filter(p) == if p(u) {
            s.filter(p).push(u)
        } else {
            s.filter(p)
        },
{
    reveal(Seq::filter);
    assert(s.push(u).drop_last() =~= s);
    assert(s.push(u).last() == u);
}

/// A filter that tests only the time of an update keeps the whole weight at
/// times it accepts and none at times it rejects.
pub proof fn lemma_weight_time_filter(
    s: Seq<Update>,
    q: spec_fn(Update) -> bool,
    p: spec_fn(u64) -> bool,
    k: Key,
    t: u64,
)
    requires
        forall|u: Update| #[trigger] q(u) == p(u.time),
    ensures
        weight(s.filter(q), k, t) == if p(t) {
            weight(s, k, t)
        } else {
            0
        },
    decreases s.len(),
{
    reveal(Seq::filter);
    assert forall|x: u64| #[trigger] tid()(x) == x by {}
    if s.len() == 0 {
        assert(s.filter(q) =~= Seq::<Update>::empty());
    } else {
        lemma_weight_time_filter(s.drop_last(), q, p, k, t);
        let fd = s.drop_last().filter(q);
        if q(s.last()) {
            assert(s.filter(q) == fd.push(s.last()));
            lemma_gweight_push(fd, s.last(), tid(), k, t);
        } else {
            assert(s.filter(q) == fd);
            if s.last().key == k && s.last().time == t {
                assert(!p(t));
            }
        }
    }
}

/// Some update in `ts` carries the time `x`.
pub open spec fn time_held(ts: Seq<Update>, x: u64) -> bool {
    exists|j: int| 0 <= j < ts.len() && x == (#[trigger] ts[j]).time
}

/// A builder for batches out of unsorted update tuples.
pub struct LayerBatcher {
    /// The active buffer of incoming updates.
    buffer: Vec<Update>,
    /// Filled buffers awaiting compaction or a seal.
    buffers: Vec<Vec<Update>>,
    /// How many buffers stood here right after the last compaction.
    sorted: usize,
    /// The radix sorter that groups updates by key hash.
    sorter: LSBRadixSorter<Update>,
    /// Spent buffers kept for reuse.
    stash: Vec<Vec<Update>>,
    /// The cached antichain of minimal held times.
    minima: Antichain,
}

impl LayerBatcher {
    /// Everything pushed and not yet sealed away, in arrival order up to
    /// compaction.
    pub closed spec fn contents(self) -> Seq<Update> {
        blocks(self.buffers@) + self.buffer@
    }

    /// Every stashed buffer is empty, every filled buffer holds at least one
    /// update (the radix sorter recycles only buffers with capacity), and the
    /// cached antichain is minimal.
    closed spec fn stash_ok(self) -> bool {
        &&& (forall|i: int|
            0 <= i < self.stash@.len() ==> (#[trigger] self.stash@[i])@.len() == 0)
        &&& (forall|i: int|
            0 <= i < self.buffers@.len() ==> (#[trigger] self.buffers@[i])@.len() > 0)
        &&& self.minima.wf()
    }

    /// Between operations the sorter holds nothing, every stashed buffer is
    /// empty, and the cached antichain is minimal.
    pub closed spec fn wf(self) -> bool {
        &&& self.stash_ok()
        &&& sorter_contents(self.sorter) == Multiset::<Update>::empty()
    }

    /// A new batcher holding nothing.
    pub fn new() -> (r: Self)
        ensures
            r.wf(),
            r.contents().len() == 0,
    {
        let r = LayerBatcher {
            buffer: Vec::new(),
            buffers: Vec::new(),
            sorted: 0,
            sorter: sorter_new(),
            stash: Vec::new(),
            minima: Antichain::new(),
        };
        proof {
            assert(r.contents() =~= Seq::<Update>::empty());
        }
        r
    }

    /// An empty buffer, reused from the stash when one is there.
    fn empty(&mut self) -> (r: Vec<Update>)
        requires
            old(self).stash_ok(),
        ensures
            final(self).stash_ok(),
            r@.len() == 0,
            final(self).buffer@ == old(self).buffer@,
            final(self).buffers@ == old(self).buffers@,
            final(self).sorter == old(self).sorter,
            final(self).minima == old(self).minima,
            final(self).sorted == old(self).sorted,
    {
        match self.stash.pop() {
            Some(b) => b,
            None => Vec::new(),
        }
    }

    /// Moves the nonempty active buffer to the filled list, replacing it with
    /// an empty one; the contents are unchanged.
    fn spill(&mut self)
        requires
            old(self).stash_ok(),
            old(self).buffer@.len() > 0,
        ensures
            final(self).stash_ok(),
            final(self).contents() == old(self).contents(),
            final(self).buffer@.len() == 0,
            final(self).sorter == old(self).sorter,
            final(self).minima == old(self).minima,
            final(self).sorted == old(self).sorted,
    {
        let ghost c0 = self.contents();
        let mut e = self.empty();
        core::mem::swap(&mut self.buffer, &mut e);
        let ghost prev = self.buffers@;
        let ghost moved_buf = e;
        self.buffers.push(e);
        proof {
            lemma_blocks_push(prev, moved_buf);
            assert(self.buffers@ == prev.push(moved_buf));
            assert(self.contents() =~= c0);
        }
    }

    /// Accepts one update. The batcher may compact what it holds: the
    /// contents afterwards carry the same weight at every (key, time), under
    /// every coarsening of times, as the old contents plus the new update.
    pub fn push(&mut self, u: Update)
        requires
            old(self).wf(),
        ensures
            final(self).wf(),
            final(self).contents().len() <= old(self).contents().len() + 1,
            forall|g: spec_fn(u64) -> u64, k: Key, t: u64|
                wrap(#[trigger] gweight(final(self).contents(), g, k, t)) == wrap(
                    gweight(old(self).contents().push(u), g, k, t),
                ),
    {
        let ghost c1 = old(self).contents().push(u);
        self.buffer.push(u);
        proof {
            assert(self.contents() =~= c1);
        }
        if self.buffer.len() >= 1024 {
            self.spill();
            let more = self.buffers.len() > 1000 && self.sorted < self.buffers.len()
                && self.buffers.len() - self.sorted > self.sorted;
            if more {
                self.compact();
            }
        }
    }

    /// Consolidates the filled buffers: afterwards they hold one canonical
    /// run — every (key, time) once, zero differences gone — with the same
    /// weight everywhere, under every coarsening, as before. On buffers that
    /// already hold a canonical run it changes nothing: compaction is
    /// idempotent.
    fn compact(&mut self)
        requires
            old(self).wf(),
        ensures
            final(self).wf(),
            final(self).buffer@ == old(self).buffer@,
            canonical(blocks(final(self).buffers@)),
            canonical(blocks(old(self).buffers@)) ==> blocks(final(self).buffers@) == blocks(
                old(self).buffers@,
            ),
            final(self).contents().len() <= old(self).contents().len(),
            forall|g: spec_fn(u64) -> u64, k: Key, t: u64|
                wrap(#[trigger] gweight(final(self).contents(), g, k, t)) == wrap(
                    gweight(old(self).contents(), g, k, t),
                ),
    {
        broadcast use group_to_multiset_ensures;

        let ghost c0 = old(self).contents();
        let mut bufs: Vec<Vec<Update>> = Vec::new();
        core::mem::swap(&mut self.buffers, &mut bufs);
        let ghost taken = bufs@;
        sorter_sort(&mut self.sorter, &mut bufs);
        let staged = flatten_buffers(&bufs);
        let ghost held = self.buffer@;
        // return the spent buffers to the stash
        loop
            invariant
                self.stash_ok(),
                sorter_contents(self.sorter) == Multiset::<Update>::empty(),
                self.buffers@.len() == 0,
                self.buffer@ == held,
            decreases bufs@.len(),
        {
            match bufs.pop() {
                Some(mut b) => {
                    b.clear();
                    self.stash.push(b);
                },
                None => {
                    break ;
                },
            }
        }
        let consolidated = consolidate(&staged);
        let ghost cv = consolidated@;
        // a consolidation that cancelled away entirely leaves no buffer: the
        // filled list holds only nonempty buffers
        if consolidated.len() > 0 {
            self.buffers.push(consolidated);
        }
        self.sorted = self.buffers.len();
        proof {
            assert(blocks(self.buffers@) =~= cv) by {
                if cv.len() > 0 {
                    assert(self.buffers@.drop_last() =~= Seq::<Vec<Update>>::empty());
                    assert(blocks(self.buffers@) == blocks(self.buffers@.drop_last())
                        + self.buffers@.last()@);
                }
            }
            assert(self.contents() =~= cv + held);
            assert(c0 =~= blocks(taken) + held);
            assert(staged@.to_multiset() == blocks(taken).to_multiset());
            assert(cv.len() <= blocks(taken).len()) by {
                assert(staged@.to_multiset().len() == staged@.len());
                assert(blocks(taken).to_multiset().len() == blocks(taken).len());
            }
            assert forall|g: spec_fn(u64) -> u64, k: Key, t: u64|
                wrap(#[trigger] gweight(self.contents(), g, k, t)) == wrap(
                    gweight(c0, g, k, t),
                ) by {
                lemma_gweight_concat(cv, held, g, k, t);
                lemma_gweight_concat(blocks(taken), held, g, k, t);
                lemma_gweight_multiset(staged@, blocks(taken), g, k, t);
                assert(wrap(gweight(cv, g, k, t)) == wrap(gweight(staged@, g, k, t)));
                lemma_wrap_congruence(
                    gweight(cv, g, k, t),
                    gweight(blocks(taken), g, k, t),
                    gweight(held, g, k, t),
                );
            }
            if canonical(blocks(taken)) {
                // already-canonical buffers come back unchanged: the
                // canonical form of their weights is unique
                assert forall|x: u64| #[trigger] tid()(x) == x by {}
                assert forall|k: Key, t: u64|
                    #[trigger] weight(cv, k, t) == weight(blocks(taken), k, t) by {
                    lemma_consolidate_weight(staged@, cv, k, t);
                    lemma_gweight_multiset(staged@, blocks(taken), tid(), k, t);
                    lemma_canonical_wrap(blocks(taken), k, t);
                }
                lemma_canonical_unique(cv, blocks(taken));
            }
        }
    }

    /// Seals a batch for the interval bounded by `lower` and `upper`: the
    /// batch holds, consolidated, exactly the buffered updates whose times
    /// lie in the interval; the updates outside it stay buffered, in order.
    pub fn seal(&mut self, lower: &Vec<u64>, upper: &Vec<u64>) -> (out: Layer)
        requires
            old(self).wf(),
        ensures
            final(self).wf(),
            out.wf(),
            out.desc.lower@ == lower@,
            out.desc.upper@ == upper@,
            out.desc.since@ == lower@,
            forall|k: Key, t: u64|
                in_interval(lower@, upper@, t) ==> #[trigger] weight(out.tuples@, k, t) == wrap(
                    weight(old(self).contents(), k, t),
                ),
            forall|k: Key, t: u64|
                !in_interval(lower@, upper@, t) ==> #[trigger] weight(out.tuples@, k, t) == 0,
            final(self).contents() == old(self).contents().filter(
                (|u: Update| !in_interval(lower@, upper@, u.time)),
            ),
    {
        broadcast use group_to_multiset_ensures;

        let ghost c0 = old(self).contents();
        let ghost pin = (|u: Update| in_interval(lower@, upper@, u.time));
        let ghost pnot = (|u: Update| !in_interval(lower@, upper@, u.time));
        // move any active updates to the filled list
        if self.buffer.len() > 0 {
            self.spill();
        }
        let mut bufs: Vec<Vec<Update>> = Vec::new();
        core::mem::swap(&mut self.buffers, &mut bufs);
        proof {
            assert(blocks(bufs@) =~= c0) by {
                assert(self.buffer@.len() == 0);
                assert(blocks(bufs@) + self.buffer@ =~= blocks(bufs@));
            }
            assert(self.contents() =~= Seq::<Update>::empty());
            assert(Seq::<Update>::empty().filter(pnot) =~= Seq::<Update>::empty()) by {
                reveal(Seq::filter);
            }
            assert(Seq::<Update>::empty().filter(pin) =~= Seq::<Update>::empty()) by {
                reveal(Seq::filter);
            }
            assert(bufs@.take(0) =~= Seq::<Vec<Update>>::empty());
            assert(blocks(bufs@.take(0)) =~= Seq::<Update>::empty());
            assert(Seq::<Update>::empty().to_multiset() =~= Multiset::<Update>::empty()) by {
                vstd::seq_lib::to_multiset_len(Seq::<Update>::empty());
            }
        }
        let ghost mut done: Seq<Update> = Seq::<Update>::empty();
        let mut bi: usize = 0;
        while bi < bufs.len()
            invariant
                self.stash_ok(),
                bi <= bufs@.len(),
                done == blocks(bufs@.take(bi as int)),
                sorter_contents(self.sorter) == done.filter(pin).to_multiset(),
                self.contents() == done.filter(pnot),
                pin == (|u: Update| in_interval(lower@, upper@, u.time)),
                pnot == (|u: Update| !in_interval(lower@, upper@, u.time)),
            decreases bufs@.len() - bi,
        {
            let blen = bufs[bi].len();
            proof {
                assert(bufs@[bi as int]@.take(0) =~= Seq::<Update>::empty());
                assert(done =~= blocks(bufs@.take(bi as int)) + bufs@[bi as int]@.take(0));
            }
            let mut j: usize = 0;
            while j < blen
                invariant
                    self.stash_ok(),
                    bi < bufs@.len(),
                    blen == bufs@[bi as int]@.len(),
                    j <= blen,
                    done == blocks(bufs@.take(bi as int)) + bufs@[bi as int]@.take(j as int),
                    sorter_contents(self.sorter) == done.filter(pin).to_multiset(),
                    self.contents() == done.filter(pnot),
                    pin == (|u: Update| in_interval(lower@, upper@, u.time)),
                    pnot == (|u: Update| !in_interval(lower@, upper@, u.time)),
                decreases blen - j,
            {
                let u = bufs[bi][j];
                let ghost done0 = done;
                proof {
                    done = done.push(u);
                    assert(bufs@[bi as int]@.take(j as int + 1) =~= bufs@[bi as int]@.take(
                        j as int,
                    ).push(u));
                    assert(done =~= blocks(bufs@.take(bi as int)) + bufs@[bi as int]@.take(
                        j as int + 1,
                    ));
                    lemma_filter_push(done0, pin, u);
                    lemma_filter_push(done0, pnot, u);
                    assert(pin(u) == in_interval(lower@, upper@, u.time));
                    assert(pnot(u) == !in_interval(lower@, upper@, u.time));
                }
                let inside = frontier_le_exec(lower, u.time) && !frontier_le_exec(upper, u.time);
                if inside {
                    sorter_push(&mut self.sorter, u);
                    proof {
                        vstd::seq_lib::to_multiset_build(done0.filter(pin), u);
                    }
                } else {
                    let ghost cb = self.contents();
                    self.buffer.push(u);
                    proof {
                        assert(self.contents() =~= cb.push(u));
                    }
                    if self.buffer.len() >= 1024 {
                        self.spill();
                    }
                }
                j += 1;
            }
            proof {
                lemma_blocks_take(bufs@, bi as int);
                assert(bufs@[bi as int]@.take(blen as int) =~= bufs@[bi as int]@);
            }
            bi += 1;
        }
        proof {
            assert(bufs@.take(bufs@.len() as int) =~= bufs@);
            assert(done == c0);
        }
        // return the spent buffers to the stash
        loop
            invariant
                self.stash_ok(),
                sorter_contents(self.sorter) == done.filter(pin).to_multiset(),
                self.contents() == done.filter(pnot),
            decreases bufs@.len(),
        {
            match bufs.pop() {
                Some(mut b) => {
                    b.clear();
                    self.stash.push(b);
                },
                None => {
                    break ;
                },
            }
        }
        // drain the sorter and consolidate what the interval captured
        let sorted_blocks = sorter_finish(&mut self.sorter);
        let staged = flatten_buffers(&sorted_blocks);
        let consolidated = consolidate(&staged);
        let ghost cv = consolidated@;
        let mut builder = LayerBuilder::new();
        proof {
            assert(builder.tuples@ =~= cv.take(0));
        }
        let mut i: usize = 0;
        while i < consolidated.len()
            invariant
                i <= cv.len(),
                consolidated@ == cv,
                canonical(cv),
                builder.tuples@ == cv.take(i as int),
            decreases cv.len() - i,
        {
            proof {
                if i > 0 {
                    assert(cv.take(i as int).last() == cv[i as int - 1]);
                    assert(upd_lt(cv[i as int - 1], cv[i as int]));
                }
            }
            builder.push(consolidated[i]);
            proof {
                assert(cv.take(i as int + 1) =~= cv.take(i as int).push(cv[i as int]));
            }
            i += 1;
        }
        proof {
            assert(cv.take(cv.len() as int) =~= cv);
            assert forall|x: u64| #[trigger] tid()(x) == x by {}
            assert forall|k: Key, t: u64|
                (in_interval(lower@, upper@, t) ==> #[trigger] weight(cv, k, t) == wrap(
                    weight(c0, k, t),
                )) && (!in_interval(lower@, upper@, t) ==> #[trigger] weight(cv, k, t) == 0) by {
                lemma_consolidate_weight(staged@, cv, k, t);
                lemma_gweight_multiset(staged@, c0.filter(pin), tid(), k, t);
                lemma_weight_time_filter(c0, pin, (|x: u64| in_interval(lower@, upper@, x)), k, t);
                if !in_interval(lower@, upper@, t) {
                    crate::update::lemma_wrap_fixed(0);
                }
            }
        }
        builder.done(lower, upper)
    }

    /// Recomputes the antichain of minimal times among everything buffered
    /// and returns its elements: empty exactly when nothing is buffered;
    /// every element is a held time; every held time lies at or beyond it.
    pub fn frontier(&mut self) -> (r: Vec<u64>)
        requires
            old(self).wf(),
        ensures
            final(self).wf(),
            final(self).contents() == old(self).contents(),
            r@.len() <= 1,
            (r@.len() == 0) == (old(self).contents().len() == 0),
            forall|j: int|
                0 <= j < old(self).contents().len() ==> frontier_le(
                    r@,
                    (#[trigger] old(self).contents()[j]).time,
                ),
            forall|i: int|
                0 <= i < r@.len() ==> time_held(old(self).contents(), #[trigger] r@[i]),
    {
        let ghost c0 = self.contents();
        let mut ac = Antichain::new();
        let ghost mut done: Seq<Update> = Seq::<Update>::empty();
        proof {
            assert(self.buffers@.take(0) =~= Seq::<Vec<Update>>::empty());
            assert(done =~= blocks(self.buffers@.take(0)));
        }
        let mut bi: usize = 0;
        while bi < self.buffers.len()
            invariant
                self.wf(),
                ac.wf(),
                ac@.len() <= 1,
                bi <= self.buffers@.len(),
                done == blocks(self.buffers@.take(bi as int)),
                (ac@.len() == 0) == (done.len() == 0),
                forall|l: int| 0 <= l < done.len() ==> frontier_le(ac@, (#[trigger] done[l]).time),
                forall|i: int| 0 <= i < ac@.len() ==> time_held(done, #[trigger] ac@[i]),
            decreases self.buffers@.len() - bi,
        {
            let blen = self.buffers[bi].len();
            proof {
                assert(self.buffers@[bi as int]@.take(0) =~= Seq::<Update>::empty());
                assert(done =~= blocks(self.buffers@.take(bi as int)) + self.buffers@[bi
                    as int]@.take(0));
            }
            let mut j: usize = 0;
            while j < blen
                invariant
                    self.wf(),
                    ac.wf(),
                    ac@.len() <= 1,
                    bi < self.buffers@.len(),
                    blen == self.buffers@[bi as int]@.len(),
                    j <= blen,
                    done == blocks(self.buffers@.take(bi as int)) + self.buffers@[bi as int]@.take(
                        j as int,
                    ),
                    (ac@.len() == 0) == (done.len() == 0),
                    forall|l: int|
                        0 <= l < done.len() ==> frontier_le(ac@, (#[trigger] done[l]).time),
                    forall|i: int| 0 <= i < ac@.len() ==> time_held(done, #[trigger] ac@[i]),
                decreases blen - j,
            {
                let u = self.buffers[bi][j];
                let ghost done0 = done;
                let ghost ac0 = ac@;
                ac.insert(u.time);
                proof {
                    done = done.push(u);
                    assert(self.buffers@[bi as int]@.take(j as int + 1) =~= self.buffers@[bi
                        as int]@.take(j as int).push(u));
                    assert(done =~= blocks(self.buffers@.take(bi as int)) + self.buffers@[bi
                        as int]@.take(j as int + 1));
                    lemma_antichain_step(ac0, ac@, done0, done, u);
                }
                j += 1;
            }
            proof {
                lemma_blocks_take(self.buffers@, bi as int);
                assert(self.buffers@[bi as int]@.take(blen as int) =~= self.buffers@[bi as int]@);
            }
            bi += 1;
        }
        proof {
            assert(self.buffers@.take(self.buffers@.len() as int) =~= self.buffers@);
            assert(self.buffer@.take(0) =~= Seq::<Update>::empty());
            assert(done =~= blocks(self.buffers@) + self.buffer@.take(0));
        }
        let blen = self.buffer.len();
        let mut j: usize = 0;
        while j < blen
            invariant
                self.wf(),
                ac.wf(),
                ac@.len() <= 1,
                blen == self.buffer@.len(),
                j <= blen,
                done == blocks(self.buffers@) + self.buffer@.take(j as int),
                (ac@.len() == 0) == (done.len() == 0),
                forall|l: int| 0 <= l < done.len() ==> frontier_le(ac@, (#[trigger] done[l]).time),
                forall|i: int| 0 <= i < ac@.len() ==> time_held(done, #[trigger] ac@[i]),
            decreases blen - j,
        {
            let u = self.buffer[j];
            let ghost done0 = done;
            let ghost ac0 = ac@;
            ac.insert(u.time);
            proof {
                done = done.push(u);
                assert(self.buffer@.take(j as int + 1) =~= self.buffer@.take(j as int).push(u));
                assert(done =~= blocks(self.buffers@) + self.buffer@.take(j as int + 1));
                lemma_antichain_step(ac0, ac@, done0, done, u);
            }
            j += 1;
        }
        proof {
            assert(self.buffer@.take(blen as int) =~= self.buffer@);
            assert(done == c0);
        }
        let r = crate::layer::copy_times(ac.elements());
        self.minima = ac;
        r
    }
}

/// One antichain insertion step keeps the bookkeeping of `frontier`: the new
/// antichain still lies at or before every processed time and holds only
/// processed times.
proof fn lemma_antichain_step(
    ac0: Seq<u64>,
    ac1: Seq<u64>,
    done0: Seq<Update>,
    done1: Seq<Update>,
    u: Update,
)
    requires
        done1 == done0.push(u),
        ac1.len() == 1,
        frontier_le(ac1, u.time),
        forall|x: u64| frontier_le(ac0, x) ==> frontier_le(ac1, x),
        forall|j: int| 0 <= j < ac1.len() ==> ac1[j] == u.time || ac0.contains(#[trigger] ac1[j]),
        forall|l: int| 0 <= l < done0.len() ==> frontier_le(ac0, (#[trigger] done0[l]).time),
        forall|i: int| 0 <= i < ac0.len() ==> time_held(done0, #[trigger] ac0[i]),
    ensures
        forall|l: int| 0 <= l < done1.len() ==> frontier_le(ac1, (#[trigger] done1[l]).time),
        forall|i: int| 0 <= i < ac1.len() ==> time_held(done1, #[trigger] ac1[i]),
{
    assert forall|l: int| 0 <= l < done1.len() implies frontier_le(
        ac1,
        (#[trigger] done1[l]).time,
    ) by {
        if l < done0.len() {
            assert(done1[l] == done0[l]);
            assert(frontier_le(ac0, done0[l].time));
        } else {
            assert(done1[l] == u);
        }
    }
    assert forall|i: int| 0 <= i < ac1.len() implies time_held(done1, #[trigger] ac1[i]) by {
        if ac1[i] == u.time {
            assert(done1[done1.len() - 1].time == u.time);
        } else {
            assert(ac0.contains(ac1[i]));
            let i0 = choose|i0: int| 0 <= i0 < ac0.len() && #[trigger] ac0[i0] == ac1[i];
            assert(time_held(done0, ac0[i0]));
            let l0 = choose|l: int| 0 <= l < done0.len() && ac0[i0] == (#[trigger] done0[l]).time;
            assert(done1[l0].time == ac1[i]);
        }
    }
}

/// Concatenates a sequence of buffers into one.
fn flatten_buffers(bufs: &Vec<Vec<Update>>) -> (r: Vec<Update>)
    ensures
        r@ == blocks(bufs@),
{
    let mut r: Vec<Update> = Vec::new();
    proof {
        assert(bufs@.take(0) =~= Seq::<Vec<Update>>::empty());
        assert(r@ =~= blocks(bufs@.take(0)));
    }
    let mut bi: usize = 0;
    while bi < bufs.len()
        invariant
            bi <= bufs@.len(),
            r@ == blocks(bufs@.take(bi as int)),
        decreases bufs@.len() - bi,
    {
        let blen = bufs[bi].len();
        proof {
            assert(bufs@[bi as int]@.take(0) =~= Seq::<Update>::empty());
            assert(r@ =~= blocks(bufs@.take(bi as int)) + bufs@[bi as int]@.take(0));
        }
        let mut j: usize = 0;
        while j < blen
            invariant
                bi < bufs@.len(),
                blen == bufs@[bi as int]@.len(),
                j <= blen,
                r@ == blocks(bufs@.take(bi as int)) + bufs@[bi as int]@.take(j as int),
            decreases blen - j,
        {
            r.push(bufs[bi][j]);
            proof {
                assert(bufs@[bi as int]@.take(j as int + 1) =~= bufs@[bi as int]@.take(
                    j as int,
                ).push(bufs@[bi as int]@[j as int]));
                assert(r@ =~= blocks(bufs@.take(bi as int)) + bufs@[bi as int]@.take(j as int + 1));
            }
            j += 1;
        }
        proof {
            lemma_blocks_take(bufs@, bi as int);
            assert(bufs@[bi as int]@.take(blen as int) =~= bufs@[bi as int]@);
        }
        bi += 1;
    }
    proof {
        assert(bufs@.take(bufs@.len() as int) =~= bufs@);
    }
    r
}

} // verus!
