//! Cursors: navigation over one immutable batch, and a merged navigation
//! over many batches that presents the least current key of all of them and
//! the concatenation of their (time, diff) runs at that key.
use vstd::prelude::*;

use crate::canon::canonical;
use crate::layer::Layer;
use crate::update::{key_lt, Key, Update};

verus! {

/// Non-strict order on keys.
pub open spec fn key_le(a: Key, b: Key) -> bool {
    key_lt(a, b) || a == b
}

/// Exec comparison deciding the strict key order.
pub fn key_before(a: &Key, b: &Key) -> (r: bool)
    ensures
        r == key_lt(*a, *b),
{
    a.hash < b.hash || (a.hash == b.hash && a.word < b.word)
}

/// Does position `i` hold an update with exactly the key `k`?
fn same_key_at(l: &Layer, i: usize, k: &Key) -> (r: bool)
    ensures
        r == (i < l.tuples@.len() && l.tuples@[i as int].key == *k),
{
    i < l.tuples.len() && l.tuples[i].key.hash == k.hash && l.tuples[i].key.word == k.word
}

/// Does position `i` hold an update whose key is strictly before `k`?
fn key_below_at(l: &Layer, i: usize, k: &Key) -> (r: bool)
    ensures
        r == (i < l.tuples@.len() && key_lt(l.tuples@[i as int].key, *k)),
{
    i < l.tuples.len() && (l.tuples[i].key.hash < k.hash || (l.tuples[i].key.hash == k.hash
        && l.tuples[i].key.word < k.word))
}

/// A cursor over one batch: `pos` stands at the start of the current key's
/// run of updates; the single unit value is "stepped past" by clearing
/// `val_ok`. The cursor borrows the batch it reads, so its observations are
/// stable: the spine cannot be mutated while cursors over its batches stand.
/// The reader handles by which a surrounding runtime would share a trace
/// across that boundary are its own affair, outside this engine.
#[derive(Clone, Copy)]
pub struct LayerCursor<'a> {
    /// The batch navigated; its updates are canonical.
    pub layer: &'a Layer,
    /// The start of the current key's run, or the length when exhausted.
    pub pos: usize,
    /// Whether the current key's unit value is still to be visited.
    pub val_ok: bool,
}

impl<'a> LayerCursor<'a> {
    /// The updates the cursor walks.
    pub open spec fn tuples(self) -> Seq<Update> {
        self.layer.tuples@
    }

    /// The cursor stands at a key-run boundary of a canonical batch.
    pub open spec fn wf(self) -> bool {
        &&& canonical(self.tuples())
        &&& self.pos <= self.tuples().len()
        &&& (self.pos == 0 || self.pos == self.tuples().len() || self.tuples()[self.pos
            - 1].key != self.tuples()[self.pos as int].key)
    }

    /// A cursor at the first key of a batch.
    pub fn new(layer: &'a Layer) -> (r: Self)
        requires
            layer.wf(),
        ensures
            r.wf(),
            r.layer == layer,
            r.pos == 0,
            r.val_ok,
    {
        LayerCursor { layer, pos: 0, val_ok: true }
    }

    /// Is the cursor at a key?
    pub fn key_valid(&self) -> (r: bool)
        ensures
            r == (self.pos < self.tuples().len()),
    {
        self.pos < self.layer.tuples.len()
    }

    /// The current key.
    pub fn key(&self) -> (r: Key)
        requires
            self.pos < self.tuples().len(),
        ensures
            r == self.tuples()[self.pos as int].key,
    {
        self.layer.tuples[self.pos].key
    }

    /// Is the cursor at a value of the current key? Each key carries one
    /// unit value.
    pub fn val_valid(&self) -> (r: bool)
        ensures
            r == self.val_ok,
    {
        self.val_ok
    }

    /// The current value: in this key-only layout every key carries the one
    /// unit value.
    pub fn val(&self) -> (r: ())
        ensures
            r == (),
    {
    }

    /// Seeks among the values of the current key: with a single unit value
    /// there is nowhere to move, so the cursor stands where it was.
    pub fn seek_val(&mut self, _v: &())
        ensures
            *final(self) == *old(self),
    {
    }

    /// The (time, difference) pairs of the current key, in time order.
    pub fn times(&self) -> (r: Vec<(u64, i64)>)
        requires
            self.wf(),
            self.pos < self.tuples().len(),
        ensures
            r@.len() >= 1,
            self.pos + r@.len() <= self.tuples().len(),
            forall|i: int|
                0 <= i < r@.len() ==> #[trigger] r@[i] == (
                    self.tuples()[self.pos + i].time,
                    self.tuples()[self.pos + i].diff,
                ) && self.tuples()[self.pos + i].key == self.tuples()[self.pos as int].key,
            self.pos + r@.len() == self.tuples().len() || self.tuples()[self.pos
                + r@.len()].key != self.tuples()[self.pos as int].key,
    {
        let mut r: Vec<(u64, i64)> = Vec::new();
        let mut i: usize = self.pos;
        let k = self.layer.tuples[self.pos].key;
        let mut go = same_key_at(self.layer, i, &k);
        while go
            invariant
                self.wf(),
                self.pos < self.tuples().len(),
                k == self.tuples()[self.pos as int].key,
                self.pos <= i <= self.tuples().len(),
                go == (i < self.tuples().len() && self.tuples()[i as int].key == k),
                r@.len() == i - self.pos,
                forall|j: int|
                    0 <= j < r@.len() ==> #[trigger] r@[j] == (
                        self.tuples()[self.pos + j].time,
                        self.tuples()[self.pos + j].diff,
                    ) && self.tuples()[self.pos + j].key == k,
            decreases self.tuples().len() - i,
        {
            r.push((self.layer.tuples[i].time, self.layer.tuples[i].diff));
            let n = self.layer.tuples.len();
            proof {
                assert(i < n);
            }
            i += 1;
            go = same_key_at(self.layer, i, &k);
        }
        r
    }

    /// Advances to the next key: past the whole run of the current key.
    pub fn step_key(&mut self)
        requires
            old(self).wf(),
            old(self).pos < old(self).tuples().len(),
        ensures
            final(self).wf(),
            final(self).layer == old(self).layer,
            final(self).val_ok,
            old(self).pos < final(self).pos <= final(self).tuples().len(),
            forall|j: int|
                old(self).pos <= j < final(self).pos ==> (#[trigger] final(self).tuples()[j]).key
                    == old(self).tuples()[old(self).pos as int].key,
            final(self).pos == final(self).tuples().len() || final(self).tuples()[final(self).pos
                as int].key != old(self).tuples()[old(self).pos as int].key,
    {
        let k = self.layer.tuples[self.pos].key;
        let mut i: usize = self.pos;
        let mut go = same_key_at(self.layer, i, &k);
        while go
            invariant
                self.wf(),
                self.pos < self.tuples().len(),
                k == self.tuples()[self.pos as int].key,
                self.pos <= i <= self.tuples().len(),
                go == (i < self.tuples().len() && self.tuples()[i as int].key == k),
                forall|j: int|
                    self.pos <= j < i ==> (#[trigger] self.tuples()[j]).key == k,
            decreases self.tuples().len() - i,
        {
            let n = self.layer.tuples.len();
            proof {
                assert(i < n);
            }
            i += 1;
            go = same_key_at(self.layer, i, &k);
        }
        self.pos = i;
        self.val_ok = true;
    }

    /// Advances to the first key at or past `k`, by hash then key word.
    pub fn seek_key(&mut self, k: &Key)
        requires
            old(self).wf(),
        ensures
            final(self).wf(),
            final(self).layer == old(self).layer,
            final(self).val_ok,
            old(self).pos <= final(self).pos <= final(self).tuples().len(),
            forall|j: int|
                old(self).pos <= j < final(self).pos ==> key_lt(
                    (#[trigger] final(self).tuples()[j]).key,
                    *k,
                ),
            final(self).pos == final(self).tuples().len() || !key_lt(
                final(self).tuples()[final(self).pos as int].key,
                *k,
            ),
    {
        let mut i: usize = self.pos;
        let mut go = key_below_at(self.layer, i, k);
        while go
            invariant
                self.wf(),
                self.pos <= i <= self.tuples().len(),
                go == (i < self.tuples().len() && key_lt(self.tuples()[i as int].key, *k)),
                forall|j: int| self.pos <= j < i ==> key_lt((#[trigger] self.tuples()[j]).key, *k),
            decreases self.tuples().len() - i,
        {
            let n = self.layer.tuples.len();
            proof {
                assert(i < n);
            }
            i += 1;
            go = key_below_at(self.layer, i, k);
        }
        proof {
            if self.pos < i {
                assert(key_lt(self.tuples()[i - 1].key, *k));
                if i < self.tuples().len() {
                    assert(crate::update::upd_lt(self.tuples()[i - 1], self.tuples()[i as int]));
                }
            }
        }
        self.pos = i;
        self.val_ok = true;
    }

    /// Steps past the single unit value of the current key.
    pub fn step_val(&mut self)
        ensures
            final(self).layer == old(self).layer,
            final(self).pos == old(self).pos,
            !final(self).val_ok,
    {
        self.val_ok = false;
    }

    /// Returns to the first key.
    pub fn rewind_keys(&mut self)
        requires
            old(self).wf(),
        ensures
            final(self).wf(),
            final(self).layer == old(self).layer,
            final(self).pos == 0,
            final(self).val_ok,
    {
        self.pos = 0;
        self.val_ok = true;
    }

    /// Returns to the single unit value of the current key.
    pub fn rewind_vals(&mut self)
        ensures
            final(self).layer == old(self).layer,
            final(self).pos == old(self).pos,
            final(self).val_ok,
    {
        self.val_ok = true;
    }
}

/// `k` is the least current key among the non-exhausted cursors, and some
/// cursor stands at it.
pub open spec fn is_min_key(cs: Seq<LayerCursor>, k: Key) -> bool {
    &&& (exists|i: int|
        0 <= i < cs.len() && (#[trigger] cs[i]).pos < cs[i].tuples().len() && cs[i].tuples()[cs[i].pos as int].key
            == k)
    &&& (forall|i: int|
        0 <= i < cs.len() && (#[trigger] cs[i]).pos < cs[i].tuples().len() ==> key_le(
            k,
            cs[i].tuples()[cs[i].pos as int].key,
        ))
}

/// The run of (time, diff) pairs a cursor contributes at key `k`: its current
/// run when it stands at `k`, nothing otherwise.
pub open spec fn run_at(c: LayerCursor, k: Key) -> Seq<(u64, i64)> {
    if c.pos < c.tuples().len() && c.tuples()[c.pos as int].key == k {
        Seq::new(
            run_len(c.tuples(), c.pos as int) as nat,
            |i: int| (c.tuples()[c.pos + i].time, c.tuples()[c.pos + i].diff),
        )
    } else {
        Seq::<(u64, i64)>::empty()
    }
}

/// The length of the key run starting at `p`.
pub open spec fn run_len(s: Seq<Update>, p: int) -> int
    decreases s.len() - p,
{
    if 0 <= p < s.len() {
        if p + 1 < s.len() && s[p + 1].key == s[p].key {
            1 + run_len(s, p + 1)
        } else {
            1
        }
    } else {
        0
    }
}

/// What the merged cursor enumerates at key `k`: the concatenation of every
/// cursor's run at `k`, oldest batch first.
pub open spec fn gathered(cs: Seq<LayerCursor>, k: Key) -> Seq<(u64, i64)>
    decreases cs.len(),
{
    if cs.len() == 0 {
        Seq::<(u64, i64)>::empty()
    } else {
        gathered(cs.drop_last(), k) + run_at(cs.last(), k)
    }
}

/// A merged view over any number of batch cursors: the current key is the
/// least current key of the non-exhausted cursors, and stepping advances
/// every cursor that stands at it.
pub struct CursorList<'a> {
    /// The cursors, one per batch, oldest batch first.
    pub cursors: Vec<LayerCursor<'a>>,
}

impl<'a> CursorList<'a> {
    pub open spec fn wf(self) -> bool {
        forall|i: int| 0 <= i < self.cursors@.len() ==> (#[trigger] self.cursors@[i]).wf()
    }

    /// Assembles the merged view.
    pub fn new(cursors: Vec<LayerCursor<'a>>) -> (r: Self)
        requires
            forall|i: int| 0 <= i < cursors@.len() ==> (#[trigger] cursors@[i]).wf(),
        ensures
            r.wf(),
            r.cursors@ == cursors@,
    {
        CursorList { cursors }
    }

    /// Does any cursor still stand at a key?
    pub fn key_valid(&self) -> (r: bool)
        ensures
            r == exists|i: int|
                0 <= i < self.cursors@.len() && (#[trigger] self.cursors@[i]).pos
                    < self.cursors@[i].tuples().len(),
    {
        let mut i: usize = 0;
        while i < self.cursors.len()
            invariant
                i <= self.cursors@.len(),
                forall|j: int|
                    0 <= j < i ==> (#[trigger] self.cursors@[j]).pos
                        >= self.cursors@[j].tuples().len(),
            decreases self.cursors@.len() - i,
        {
            if self.cursors[i].key_valid() {
                return true;
            }
            i += 1;
        }
        false
    }

    /// The least current key among the non-exhausted cursors.
    pub fn key(&self) -> (r: Key)
        requires
            self.wf(),
            exists|i: int|
                0 <= i < self.cursors@.len() && (#[trigger] self.cursors@[i]).pos
                    < self.cursors@[i].tuples().len(),
        ensures
            is_min_key(self.cursors@, r),
    {
        let mut best: Option<Key> = None;
        let mut i: usize = 0;
        while i < self.cursors.len()
            invariant
                self.wf(),
                i <= self.cursors@.len(),
                best is None ==> forall|j: int|
                    0 <= j < i ==> (#[trigger] self.cursors@[j]).pos
                        >= self.cursors@[j].tuples().len(),
                best is Some ==> exists|j: int|
                    0 <= j < i && (#[trigger] self.cursors@[j]).pos < self.cursors@[j].tuples().len()
                        && self.cursors@[j].tuples()[self.cursors@[j].pos as int].key
                        == best->Some_0,
                best is Some ==> forall|j: int|
                    0 <= j < i && (#[trigger] self.cursors@[j]).pos < self.cursors@[j].tuples().len()
                        ==> key_le(best->Some_0, self.cursors@[j].tuples()[self.cursors@[j].pos as int].key),
            decreases self.cursors@.len() - i,
        {
            if self.cursors[i].key_valid() {
                let ck = self.cursors[i].key();
                match best {
                    None => {
                        best = Some(ck);
                    },
                    Some(b) => {
                        if key_before(&ck, &b) {
                            best = Some(ck);
                        }
                    },
                }
            }
            i += 1;
        }
        match best {
            Some(b) => b,
            None => {
                proof {
                    assert(false);
                }
                Key { hash: 0, word: 0 }
            },
        }
    }

    /// Every (time, difference) pair at key `k` across all batches: each
    /// cursor standing at `k` contributes its whole run, oldest batch first.
    /// The caller consolidates if it needs distinct-time semantics.
    pub fn times(&self, k: &Key) -> (r: Vec<(u64, i64)>)
        requires
            self.wf(),
        ensures
            r@ == gathered(self.cursors@, *k),
    {
        let mut r: Vec<(u64, i64)> = Vec::new();
        proof {
            assert(self.cursors@.take(0) =~= Seq::<LayerCursor>::empty());
            assert(r@ =~= gathered(self.cursors@.take(0), *k));
        }
        let mut i: usize = 0;
        while i < self.cursors.len()
            invariant
                self.wf(),
                i <= self.cursors@.len(),
                r@ == gathered(self.cursors@.take(i as int), *k),
            decreases self.cursors@.len() - i,
        {
            let c = &self.cursors[i];
            let ghost r0 = r@;
            if c.key_valid() {
                let ck = c.key();
                if ck.hash == k.hash && ck.word == k.word {
                    let mut ts = c.times();
                    proof {
                        assert(ck == *k);
                        lemma_run_len(c.tuples(), c.pos as int);
                        let e1 = ts@.len() as int;
                        let e2 = run_len(c.tuples(), c.pos as int);
                        if e1 < e2 {
                            assert(c.tuples()[c.pos + e1].key == c.tuples()[c.pos as int].key);
                            assert(false);
                        }
                        if e2 < e1 {
                            // naming the pair at e2 brings in what times()
                            // said of it, against the run boundary
                            let pair = ts@[e2];
                            assert(c.tuples()[c.pos + e2].key == c.tuples()[c.pos as int].key);
                            assert(false);
                        }
                        assert(ts@ =~= run_at(*c, *k));
                    }
                    let mut j: usize = 0;
                    let tlen = ts.len();
                    while j < tlen
                        invariant
                            j <= tlen,
                            tlen == ts@.len(),
                            r@ == r0 + ts@.take(j as int),
                        decreases tlen - j,
                    {
                        r.push(ts[j]);
                        proof {
                            assert(ts@.take(j as int + 1) =~= ts@.take(j as int).push(
                                ts@[j as int],
                            ));
                            assert(r@ =~= r0 + ts@.take(j as int + 1));
                        }
                        j += 1;
                    }
                    proof {
                        assert(ts@.take(tlen as int) =~= ts@);
                    }
                }
            }
            proof {
                assert(self.cursors@.take(i as int + 1) =~= self.cursors@.take(i as int).push(
                    self.cursors@[i as int],
                ));
                lemma_gathered_push(self.cursors@.take(i as int), self.cursors@[i as int], *k);
                if !(c.pos < c.tuples().len() && c.tuples()[c.pos as int].key == *k) {
                    assert(run_at(*c, *k) =~= Seq::<(u64, i64)>::empty());
                    assert(r@ =~= r0 + run_at(*c, *k));
                }
            }
            i += 1;
        }
        proof {
            assert(self.cursors@.take(self.cursors@.len() as int) =~= self.cursors@);
        }
        r
    }

    /// Advances every cursor standing at key `k` past its run; the others
    /// stay put.
    pub fn step_key(&mut self, k: &Key)
        requires
            old(self).wf(),
        ensures
            final(self).wf(),
            final(self).cursors@.len() == old(self).cursors@.len(),
            forall|i: int|
                0 <= i < old(self).cursors@.len() ==> {
                    let c0 = old(self).cursors@[i];
                    let c1 = #[trigger] final(self).cursors@[i];
                    if c0.pos < c0.tuples().len() && c0.tuples()[c0.pos as int].key == *k {
                        c1.layer == c0.layer && c0.pos < c1.pos && (forall|j: int|
                            c0.pos <= j < c1.pos ==> (#[trigger] c1.tuples()[j]).key == *k) && (
                        c1.pos == c1.tuples().len() || c1.tuples()[c1.pos as int].key != *k)
                    } else {
                        c1 == c0
                    }
                },
    {
        let n = self.cursors.len();
        let mut out: Vec<LayerCursor<'a>> = Vec::new();
        let mut i: usize = 0;
        while i < n
            invariant
                old(self).wf(),
                self.cursors@ == old(self).cursors@,
                n == old(self).cursors@.len(),
                i <= n,
                out@.len() == i,
                forall|l: int|
                    0 <= l < i ==> {
                        let c0 = old(self).cursors@[l];
                        let c1 = #[trigger] out@[l];
                        c1.wf() && (if c0.pos < c0.tuples().len() && c0.tuples()[c0.pos as int].key
                            == *k {
                            c1.layer == c0.layer && c0.pos < c1.pos && (forall|j: int|
                                c0.pos <= j < c1.pos ==> (#[trigger] c1.tuples()[j]).key == *k) && (
                            c1.pos == c1.tuples().len() || c1.tuples()[c1.pos as int].key != *k)
                        } else {
                            c1 == c0
                        })
                    },
            decreases n - i,
        {
            let mut c = self.cursors[i];
            if c.key_valid() {
                let ck = c.key();
                if ck.hash == k.hash && ck.word == k.word {
                    c.step_key();
                }
            }
            out.push(c);
            i += 1;
        }
        self.cursors = out;
    }

    /// Returns every cursor to its first key.
    pub fn rewind_keys(&mut self)
        requires
            old(self).wf(),
        ensures
            final(self).wf(),
            final(self).cursors@.len() == old(self).cursors@.len(),
            forall|i: int|
                0 <= i < final(self).cursors@.len() ==> {
                    let c1 = #[trigger] final(self).cursors@[i];
                    c1.layer == old(self).cursors@[i].layer && c1.pos == 0 && c1.val_ok
                },
    {
        let n = self.cursors.len();
        let mut out: Vec<LayerCursor<'a>> = Vec::new();
        let mut i: usize = 0;
        while i < n
            invariant
                old(self).wf(),
                self.cursors@ == old(self).cursors@,
                n == old(self).cursors@.len(),
                i <= n,
                out@.len() == i,
                forall|l: int|
                    0 <= l < i ==> {
                        let c1 = #[trigger] out@[l];
                        c1.wf() && c1.layer == old(self).cursors@[l].layer && c1.pos == 0
                            && c1.val_ok
                    },
            decreases n - i,
        {
            let mut c = self.cursors[i];
            c.rewind_keys();
            out.push(c);
            i += 1;
        }
        self.cursors = out;
    }
}

/// The run length counts exactly the updates sharing the key at `p`.
pub proof fn lemma_run_len(s: Seq<Update>, p: int)
    requires
        0 <= p < s.len(),
    ensures
        1 <= run_len(s, p) <= s.len() - p,
        forall|j: int| p <= j < p + run_len(s, p) ==> (#[trigger] s[j]).key == s[p].key,
        p + run_len(s, p) == s.len() || s[p + run_len(s, p)].key != s[p].key,
    decreases s.len() - p,
{
    if p + 1 < s.len() && s[p + 1].key == s[p].key {
        lemma_run_len(s, p + 1);
    }
}

pub proof fn lemma_gathered_push(cs: Seq<LayerCursor>, c: LayerCursor, k: Key)
    ensures
        gathered(cs.push(c), k) == gathered(cs, k) + run_at(c, k),
{
    assert(cs.push(c).drop_last() =~= cs);
    assert(cs.push(c).last() == c);
}

} // verus!

use crate::spine::Spine;

verus! {

impl Layer {
    /// A cursor at the batch's first key.
    pub fn cursor(&self) -> (r: LayerCursor)
        requires
            self.wf(),
        ensures
            r.wf(),
            r.layer == self,
            r.pos == 0,
            r.val_ok,
    {
        LayerCursor::new(self)
    }
}

impl Spine {
    /// A merged cursor over the batches of the trace, oldest first. Every
    /// batch of a well-formed spine is nonempty, so all take part.
    pub fn cursor(&self) -> (r: CursorList)
        requires
            self.wf(),
        ensures
            r.wf(),
            r.cursors@.len() == self.layers@.len(),
            forall|i: int|
                0 <= i < r.cursors@.len() ==> {
                    let c = #[trigger] r.cursors@[i];
                    c.tuples() == self.layers@[i].tuples@ && c.pos == 0 && c.val_ok
                },
    {
        let mut cursors: Vec<LayerCursor> = Vec::new();
        let mut i: usize = 0;
        while i < self.layers.len()
            invariant
                self.wf(),
                i <= self.layers@.len(),
                cursors@.len() == i,
                forall|l: int|
                    0 <= l < i ==> {
                        let c = #[trigger] cursors@[l];
                        c.wf() && c.tuples() == self.layers@[l].tuples@ && c.pos == 0 && c.val_ok
                    },
            decreases self.layers@.len() - i,
        {
            cursors.push(LayerCursor::new(&self.layers[i]));
            i += 1;
        }
        CursorList::new(cursors)
    }
}

} // verus!

use crate::update::{lemma_gweight_concat, tid, weight};

verus! {

/// The summed weight, at (k0, t), of everything the cursors have not yet
/// passed: each cursor contributes its updates from its position on.
pub open spec fn rest_sum(cs: Seq<LayerCursor>, k0: Key, t: u64) -> int
    decreases cs.len(),
{
    if cs.len() == 0 {
        0
    } else {
        rest_sum(cs.drop_last(), k0, t) + weight(
            cs.last().tuples().skip(cs.last().pos as int),
            k0,
            t,
        )
    }
}

/// How many updates the cursors have not yet passed, in all.
pub open spec fn total_rest(cs: Seq<LayerCursor>) -> int
    decreases cs.len(),
{
    if cs.len() == 0 {
        0
    } else {
        total_rest(cs.drop_last()) + if cs.last().pos <= cs.last().tuples().len() {
            cs.last().tuples().len() - cs.last().pos
        } else {
            0
        }
    }
}

/// The (time, diff) pairs `ts` read back as updates of the key `k`.
pub open spec fn ups_of(ts: Seq<(u64, i64)>, k: Key) -> Seq<Update> {
    Seq::new(ts.len(), |i: int| Update { key: k, time: ts[i].0, diff: ts[i].1 })
}

/// Advancing cursors never increases the updates left, and advancing at
/// least one strictly decreases them.
proof fn lemma_total_rest_decreases(cs0: Seq<LayerCursor>, cs1: Seq<LayerCursor>, w: int)
    requires
        cs0.len() == cs1.len(),
        forall|i: int|
            0 <= i < cs0.len() ==> (#[trigger] cs1[i]).tuples() == cs0[i].tuples() && cs0[i].pos
                <= cs1[i].pos <= cs1[i].tuples().len(),
        0 <= w < cs0.len(),
        cs0[w].pos < cs1[w].pos,
    ensures
        total_rest(cs1) < total_rest(cs0),
    decreases cs0.len(),
{
    let a = cs0.drop_last();
    let b = cs1.drop_last();
    assert(forall|i: int| 0 <= i < a.len() ==> a[i] == cs0[i] && #[trigger] b[i] == cs1[i]);
    if w == cs0.len() - 1 {
        lemma_total_rest_le(a, b);
    } else {
        lemma_total_rest_decreases(a, b, w);
    }
}

proof fn lemma_total_rest_le(cs0: Seq<LayerCursor>, cs1: Seq<LayerCursor>)
    requires
        cs0.len() == cs1.len(),
        forall|i: int|
            0 <= i < cs0.len() ==> (#[trigger] cs1[i]).tuples() == cs0[i].tuples() && cs0[i].pos
                <= cs1[i].pos <= cs1[i].tuples().len(),
    ensures
        total_rest(cs1) <= total_rest(cs0),
    decreases cs0.len(),
{
    if cs0.len() > 0 {
        let a = cs0.drop_last();
        let b = cs1.drop_last();
        assert(forall|i: int| 0 <= i < a.len() ==> a[i] == cs0[i] && #[trigger] b[i] == cs1[i]);
        lemma_total_rest_le(a, b);
        assert(cs0[cs0.len() - 1] == cs0.last());
        assert(cs1[cs0.len() - 1] == cs1.last());
    }
}

/// What is left is never negative.
proof fn lemma_total_rest_nonneg(cs: Seq<LayerCursor>)
    ensures
        total_rest(cs) >= 0,
    decreases cs.len(),
{
    if cs.len() > 0 {
        lemma_total_rest_nonneg(cs.drop_last());
    }
}

/// Exhausted cursors have nothing left.
proof fn lemma_rest_sum_zero(cs: Seq<LayerCursor>, k0: Key, t: u64)
    requires
        forall|i: int| 0 <= i < cs.len() ==> (#[trigger] cs[i]).pos == cs[i].tuples().len(),
    ensures
        rest_sum(cs, k0, t) == 0,
    decreases cs.len(),
{
    if cs.len() > 0 {
        let a = cs.drop_last();
        assert(forall|i: int| 0 <= i < a.len() ==> #[trigger] a[i] == cs[i]);
        lemma_rest_sum_zero(a, k0, t);
        assert(cs[cs.len() - 1] == cs.last());
        assert(cs.last().tuples().skip(cs.last().pos as int) =~= Seq::<Update>::empty());
    }
}

/// One round of the merged walk, per cursor: what a cursor had left splits
/// into its run at the walked key and what it has left afterwards. Summed,
/// the stack's remainder splits into the gathered run and the new remainder.
proof fn lemma_gather_ledger(
    cs0: Seq<LayerCursor>,
    cs1: Seq<LayerCursor>,
    k: Key,
    k0: Key,
    t: u64,
)
    requires
        cs0.len() == cs1.len(),
        forall|i: int|
            0 <= i < cs0.len() ==> weight((#[trigger] cs0[i]).tuples().skip(cs0[i].pos as int), k0, t)
                == weight(ups_of(run_at(cs0[i], k), k), k0, t) + weight(
                cs1[i].tuples().skip(cs1[i].pos as int),
                k0,
                t,
            ),
    ensures
        rest_sum(cs0, k0, t) == weight(ups_of(gathered(cs0, k), k), k0, t) + rest_sum(cs1, k0, t),
    decreases cs0.len(),
{
    if cs0.len() == 0 {
        assert(gathered(cs0, k) =~= Seq::<(u64, i64)>::empty());
        assert(ups_of(gathered(cs0, k), k) =~= Seq::<Update>::empty());
    } else {
        let a = cs0.drop_last();
        let b = cs1.drop_last();
        assert(forall|i: int| 0 <= i < a.len() ==> a[i] == cs0[i] && #[trigger] b[i] == cs1[i]);
        lemma_gather_ledger(a, b, k, k0, t);
        assert(cs0[cs0.len() - 1] == cs0.last());
        assert(cs1[cs0.len() - 1] == cs1.last());
        assert(ups_of(gathered(cs0, k), k) =~= ups_of(gathered(a, k), k) + ups_of(
            run_at(cs0.last(), k),
            k,
        ));
        lemma_gweight_concat(
            ups_of(gathered(a, k), k),
            ups_of(run_at(cs0.last(), k), k),
            tid(),
            k0,
            t,
        );
    }
}

impl<'a> CursorList<'a> {
    /// Drains the merged view: every remaining update of every batch, keys
    /// in ascending order, each key's (time, diff) pairs concatenated across
    /// the batches. What comes out weighs, at every (key, time), exactly
    /// what the batches together still held: the same consolidated multiset
    /// that one batch merging them all would enumerate.
    pub fn read_all(&mut self) -> (r: Vec<Update>)
        requires
            old(self).wf(),
        ensures
            final(self).wf(),
            forall|k0: Key, t: u64|
                #[trigger] weight(r@, k0, t) == rest_sum(old(self).cursors@, k0, t),
    {
        let mut r: Vec<Update> = Vec::new();
        proof {
            assert forall|x: u64| #[trigger] tid()(x) == x by {}
        }
        while self.key_valid()
            invariant
                self.wf(),
                forall|k0: Key, t: u64|
                    #[trigger] weight(r@, k0, t) + rest_sum(self.cursors@, k0, t) == rest_sum(
                        old(self).cursors@,
                        k0,
                        t,
                    ),
            decreases total_rest(self.cursors@),
        {
            let ghost cs0 = self.cursors@;
            let k = self.key();
            let ts = self.times(&k);
            let ghost r0 = r@;
            let mut j: usize = 0;
            let tlen = ts.len();
            while j < tlen
                invariant
                    j <= tlen,
                    tlen == ts@.len(),
                    r@ == r0 + ups_of(ts@.take(j as int), k),
                decreases tlen - j,
            {
                let (t, d) = ts[j];
                r.push(Update { key: k, time: t, diff: d });
                proof {
                    assert(r@ =~= r0 + ups_of(ts@.take(j as int + 1), k));
                }
                j += 1;
            }
            proof {
                assert(ts@.take(tlen as int) =~= ts@);
                assert(r@ == r0 + ups_of(ts@, k));
            }
            self.step_key(&k);
            proof {
                let cs1 = self.cursors@;
                let w = choose|i: int|
                    0 <= i < cs0.len() && (#[trigger] cs0[i]).pos < cs0[i].tuples().len()
                        && cs0[i].tuples()[cs0[i].pos as int].key == k;
                assert(cs1[w].pos > cs0[w].pos);
                assert forall|i: int|
                    0 <= i < cs0.len() implies (#[trigger] cs1[i]).tuples() == cs0[i].tuples()
                    && cs0[i].pos <= cs1[i].pos <= cs1[i].tuples().len() by {
                    if cs0[i].pos < cs0[i].tuples().len() && cs0[i].tuples()[cs0[i].pos as int].key
                        == k {
                    } else {
                        assert(cs1[i] == cs0[i]);
                        assert(cs0[i].wf());
                    }
                }
                lemma_total_rest_decreases(cs0, cs1, w);
                lemma_total_rest_nonneg(cs1);
                assert forall|i: int, k0: Key, t: u64|
                    #![trigger weight(cs0[i].tuples().skip(cs0[i].pos as int), k0, t)]
                    0 <= i < cs0.len() implies weight(
                    cs0[i].tuples().skip(cs0[i].pos as int),
                    k0,
                    t,
                ) == weight(ups_of(run_at(cs0[i], k), k), k0, t) + weight(
                    cs1[i].tuples().skip(cs1[i].pos as int),
                    k0,
                    t,
                ) by {
                    let c0 = cs0[i];
                    let c1 = cs1[i];
                    if c0.pos < c0.tuples().len() && c0.tuples()[c0.pos as int].key == k {
                        // the cursor stood at k: its remainder splits at the
                        // run boundary, and the run is what it contributed
                        lemma_run_len(c0.tuples(), c0.pos as int);
                        let e = run_len(c0.tuples(), c0.pos as int);
                        assert(c1.pos == c0.pos + e) by {
                            if c1.pos < c0.pos + e {
                                assert(c0.tuples()[c1.pos as int].key == c0.tuples()[c0.pos
                                    as int].key);
                            }
                            if c1.pos > c0.pos + e {
                                assert(c0.pos <= c0.pos + e < c1.pos);
                                assert(c0.tuples()[c0.pos + e].key == k);
                            }
                        }
                        assert(c0.tuples().skip(c0.pos as int) =~= c0.tuples().subrange(
                            c0.pos as int,
                            c0.pos + e,
                        ) + c1.tuples().skip(c1.pos as int));
                        lemma_gweight_concat(
                            c0.tuples().subrange(c0.pos as int, c0.pos + e),
                            c1.tuples().skip(c1.pos as int),
                            tid(),
                            k0,
                            t,
                        );
                        assert(ups_of(run_at(c0, k), k) =~= c0.tuples().subrange(
                            c0.pos as int,
                            c0.pos + e,
                        ));
                    } else {
                        assert(c1 == c0);
                        assert(run_at(c0, k) =~= Seq::<(u64, i64)>::empty());
                        assert(ups_of(run_at(c0, k), k) =~= Seq::<Update>::empty());
                    }
                }
                assert forall|k0: Key, t: u64|
                    #[trigger] weight(r@, k0, t) + rest_sum(self.cursors@, k0, t) == rest_sum(
                        old(self).cursors@,
                        k0,
                        t,
                    ) by {
                    lemma_gather_ledger(cs0, cs1, k, k0, t);
                    lemma_gweight_concat(r0, ups_of(ts@, k), tid(), k0, t);
                    assert(ts@ == gathered(cs0, k));
                    assert(ups_of(ts@, k) =~= ups_of(gathered(cs0, k), k));
                    assert(weight(r0, k0, t) + rest_sum(cs0, k0, t) == rest_sum(
                        old(self).cursors@,
                        k0,
                        t,
                    ));
                    assert(weight(r@, k0, t) == weight(r0, k0, t) + weight(
                        ups_of(ts@, k),
                        k0,
                        t,
                    ));
                    assert(rest_sum(cs0, k0, t) == weight(ups_of(ts@, k), k0, t) + rest_sum(
                        cs1,
                        k0,
                        t,
                    ));
                }
            }
        }
        proof {
            assert forall|i: int|
                0 <= i < self.cursors@.len() implies (#[trigger] self.cursors@[i]).pos
                == self.cursors@[i].tuples().len() by {
                assert(self.cursors@[i].wf());
            }
            assert forall|k0: Key, t: u64|
                #[trigger] weight(r@, k0, t) == rest_sum(old(self).cursors@, k0, t) by {
                lemma_rest_sum_zero(self.cursors@, k0, t);
            }
        }
        r
    }
}

} // verus!
