//! Frontiers: sets of times that bound progress. A time is "beyond" a
//! frontier when some frontier element lies at or before it; advancing a time
//! by a frontier yields the least time beyond the frontier that is no
//! earlier. An `Antichain` accumulates the minimal elements of the times
//! inserted into it.
use vstd::prelude::*;

verus! {

/// Some element of the frontier lies at or before `t`.
pub open spec fn frontier_le(f: Seq<u64>, t: u64) -> bool {
    exists|i: int| 0 <= i < f.len() && #[trigger] f[i] <= t
}

/// The least element of a nonempty frontier.
pub open spec fn fmin(f: Seq<u64>) -> u64
    decreases f.len(),
{
    if f.len() <= 1 {
        f[0]
    } else if f[0] <= fmin(f.drop_first()) {
        f[0]
    } else {
        fmin(f.drop_first())
    }
}

pub proof fn lemma_fmin(f: Seq<u64>)
    requires
        f.len() > 0,
    ensures
        exists|i: int| 0 <= i < f.len() && #[trigger] f[i] == fmin(f),
        forall|i: int| 0 <= i < f.len() ==> fmin(f) <= #[trigger] f[i],
    decreases f.len(),
{
    if f.len() > 1 {
        lemma_fmin(f.drop_first());
        let d = f.drop_first();
        assert forall|i: int| 0 <= i < f.len() implies fmin(f) <= #[trigger] f[i] by {
            if i > 0 {
                assert(d[i - 1] == f[i]);
            }
        }
        if f[0] > fmin(d) {
            let j = choose|i: int| 0 <= i < d.len() && #[trigger] d[i] == fmin(d);
            assert(f[j + 1] == fmin(f));
        } else {
            assert(f[0] == fmin(f));
        }
    } else {
        assert(f[0] == fmin(f));
    }
}

/// The least time at or after `t` that is beyond the frontier: `t` itself if
/// `t` is already beyond it, else the least frontier element.
pub open spec fn adv_time(t: u64, f: Seq<u64>) -> u64 {
    if frontier_le(f, t) {
        t
    } else {
        fmin(f)
    }
}

/// Advancing never moves a time backwards, lands beyond the frontier, and is
/// idempotent.
pub proof fn lemma_adv_time(t: u64, f: Seq<u64>)
    requires
        f.len() > 0,
    ensures
        t <= adv_time(t, f),
        frontier_le(f, adv_time(t, f)),
        adv_time(adv_time(t, f), f) == adv_time(t, f),
{
    lemma_fmin(f);
    if !frontier_le(f, t) {
        let j = choose|i: int| 0 <= i < f.len() && #[trigger] f[i] == fmin(f);
        assert(f[j] <= fmin(f));
        if fmin(f) <= t {
            assert(false);
        }
    }
}

/// A frontier earlier than another advances no time past where the later one
/// would put it: advancing by `f` and then by `g` is advancing by `g`.
pub proof fn lemma_adv_time_chain(t: u64, f: Seq<u64>, g: Seq<u64>)
    requires
        f.len() > 0,
        g.len() > 0,
        forall|i: int| 0 <= i < g.len() ==> frontier_le(f, #[trigger] g[i]),
    ensures
        adv_time(adv_time(t, f), g) == adv_time(t, g),
{
    lemma_fmin(f);
    lemma_fmin(g);
    let a = adv_time(t, f);
    if frontier_le(f, t) {
    } else {
        // a is the least element of f; anything beyond g is beyond f.
        if frontier_le(g, t) {
            let i = choose|i: int| 0 <= i < g.len() && #[trigger] g[i] <= t;
            assert(frontier_le(f, g[i]));
            let j = choose|j: int| 0 <= j < f.len() && #[trigger] f[j] <= g[i];
            assert(f[j] <= t);
            assert(false);
        }
        if frontier_le(g, a) {
            let i = choose|i: int| 0 <= i < g.len() && #[trigger] g[i] <= a;
            assert(frontier_le(f, g[i]));
            let j = choose|j: int| 0 <= j < f.len() && #[trigger] f[j] <= g[i];
            assert(fmin(f) <= f[j]);
            assert(g[i] == a);
            assert(adv_time(a, g) == a);
            let jg = choose|j: int| 0 <= j < g.len() && #[trigger] g[j] == fmin(g);
            assert(frontier_le(f, g[jg]));
            let jf = choose|j: int| 0 <= j < f.len() && #[trigger] f[j] <= g[jg];
            assert(fmin(g) >= fmin(f));
            assert(fmin(g) <= g[i]);
            assert(adv_time(t, g) == fmin(g));
            assert(fmin(g) == a);
        } else {
            assert(adv_time(a, g) == fmin(g));
        }
    }
}

/// `t` lies in the half-open logical interval bounded by two frontiers.
pub open spec fn in_interval(lower: Seq<u64>, upper: Seq<u64>, t: u64) -> bool {
    frontier_le(lower, t) && !frontier_le(upper, t)
}

/// Exec test: is some element of `f` at or before `t`?
pub fn frontier_le_exec(f: &Vec<u64>, t: u64) -> (r: bool)
    ensures
        r == frontier_le(f@, t),
{
    let mut i: usize = 0;
    while i < f.len()
        invariant
            i <= f@.len(),
            forall|j: int| 0 <= j < i ==> !(#[trigger] f@[j] <= t),
        decreases f@.len() - i,
    {
        if f[i] <= t {
            return true;
        }
        i += 1;
    }
    false
}

/// Exec advancement of a single time by a nonempty frontier.
pub fn adv_time_exec(t: u64, f: &Vec<u64>) -> (r: u64)
    requires
        f@.len() > 0,
    ensures
        r == adv_time(t, f@),
{
    if frontier_le_exec(f, t) {
        return t;
    }
    let mut m: u64 = f[0];
    let mut i: usize = 1;
    while i < f.len()
        invariant
            1 <= i <= f@.len(),
            m == fmin(f@.take(i as int)),
        decreases f@.len() - i,
    {
        proof {
            lemma_fmin_take(f@, i as int);
        }
        if f[i] < m {
            m = f[i];
        }
        i += 1;
    }
    proof {
        assert(f@.take(f@.len() as int) =~= f@);
    }
    m
}

/// Extending a prefix by one element takes the minimum with that element.
proof fn lemma_fmin_take(f: Seq<u64>, i: int)
    requires
        1 <= i < f.len(),
    ensures
        fmin(f.take(i + 1)) == if f[i] < fmin(f.take(i)) {
            f[i]
        } else {
            fmin(f.take(i))
        },
    decreases i,
{
    let a = f.take(i + 1);
    let b = f.take(i);
    if i == 1 {
        assert(a.drop_first() =~= seq![f[1]]);
        assert(fmin(a.drop_first()) == f[1]);
        assert(b =~= seq![f[0]]);
    } else {
        assert(a.drop_first() =~= f.drop_first().take(i));
        assert(b.drop_first() =~= f.drop_first().take(i - 1));
        lemma_fmin_take(f.drop_first(), i - 1);
        assert(f.drop_first()[i - 1] == f[i]);
    }
}

/// An antichain of times under the total order on `u64`: it keeps the minimal
/// elements of everything inserted, so it holds at most one element.
pub struct Antichain {
    elems: Vec<u64>,
}

impl Antichain {
    /// The elements as a frontier.
    pub closed spec fn view(self) -> Seq<u64> {
        self.elems@
    }

    /// Minimality: no element lies at or before another.
    pub closed spec fn wf(self) -> bool {
        self@.len() <= 1
    }

    /// An empty antichain: no time inserted yet.
    pub fn new() -> (r: Self)
        ensures
            r.wf(),
            r@.len() == 0,
    {
        Antichain { elems: Vec::new() }
    }

    /// Inserts `t`: afterwards the antichain lies at or before `t`, still
    /// lies at or before everything it already covered, and holds only
    /// times that were inserted.
    pub fn insert(&mut self, t: u64)
        requires
            old(self).wf(),
        ensures
            final(self).wf(),
            final(self)@.len() == 1,
            frontier_le(final(self)@, t),
            forall|x: u64| frontier_le(old(self)@, x) ==> frontier_le(final(self)@, x),
            forall|j: int|
                0 <= j < final(self)@.len() ==> final(self)@[j] == t || old(self)@.contains(
                    #[trigger] final(self)@[j],
                ),
    {
        if self.elems.len() == 0 {
            self.elems.push(t);
            proof {
                assert(self@[0] == t);
            }
        } else if t < self.elems[0] {
            let ghost prev = self@;
            self.elems.clear();
            self.elems.push(t);
            proof {
                assert(self@[0] == t);
                assert forall|x: u64| frontier_le(prev, x) implies frontier_le(self@, x) by {
                    let i = choose|i: int| 0 <= i < prev.len() && #[trigger] prev[i] <= x;
                }
            }
        } else {
            proof {
                assert(self@[0] <= t);
            }
        }
    }

    /// The elements of the antichain, least times first.
    pub fn elements(&self) -> (r: &Vec<u64>)
        ensures
            r@ == self@,
    {
        &self.elems
    }
}

} // verus!
