//! The consolidator: it combines the differences of updates that share a
//! (key, time) coordinate by ring addition, drops the groups that sum to
//! zero, and emits the surviving groups in (key, time) order — the canonical
//! form of the input's signed multiset.
use vstd::prelude::*;
use vstd::seq_lib::group_to_multiset_ensures;

use crate::canon::{canonical, lemma_gweight_multiset, lemma_weight_at, sorted_le};
use crate::update::{
    diff_add, gweight, key_lt, lemma_gweight_absent, lemma_gweight_push, lemma_wrap_add_right,
    lemma_wrap_congruence, lemma_wrap_fixed, one_weight, tid, upd_eq, upd_le, upd_lt, weight,
    wrap, Key, Update,
};

verus! {

/// What consolidation promises: the output is canonical, no longer than the
/// input, assigns to every (key, time) — under every coarsening of times —
/// the wrapped sum of the input's differences there, and mentions no
/// coordinates that the input does not hold.
/// The (key, time) coordinates of `out[j]` occur somewhere in `inp`.
pub open spec fn kt_supported(out: Seq<Update>, inp: Seq<Update>, j: int) -> bool {
    exists|l: int| 0 <= l < inp.len() && upd_eq(out[j], #[trigger] inp[l])
}

pub open spec fn consolidate_rel(inp: Seq<Update>, out: Seq<Update>) -> bool {
    &&& canonical(out)
    &&& out.len() <= inp.len()
    &&& (forall|g: spec_fn(u64) -> u64, k: Key, t: u64|
        wrap(#[trigger] gweight(out, g, k, t)) == wrap(gweight(inp, g, k, t)))
    &&& (forall|j: int| 0 <= j < out.len() ==> #[trigger] kt_supported(out, inp, j))
}

/// Exec comparison deciding the strict (key, time) order.
pub fn upd_before(a: &Update, b: &Update) -> (r: bool)
    ensures
        r == upd_lt(*a, *b),
{
    a.key.hash < b.key.hash || (a.key.hash == b.key.hash && (a.key.word < b.key.word || (
    a.key.word == b.key.word && a.time < b.time)))
}

/// Selection sort by (key, time); keeps the multiset of updates intact.
fn sort_updates(input: &Vec<Update>) -> (out: Vec<Update>)
    ensures
        sorted_le(out@),
        out@.to_multiset() == input@.to_multiset(),
        out@.len() == input@.len(),
{
    broadcast use group_to_multiset_ensures;
    broadcast use vstd::multiset::group_multiset_axioms;

    let mut working: Vec<Update> = Vec::new();
    let mut c: usize = 0;
    while c < input.len()
        invariant
            c <= input@.len(),
            working@ == input@.take(c as int),
        decreases input@.len() - c,
    {
        working.push(input[c]);
        proof {
            assert(input@.take(c as int + 1) =~= input@.take(c as int).push(input@[c as int]));
        }
        c += 1;
    }
    proof {
        assert(input@.take(input@.len() as int) =~= input@);
    }
    let mut out: Vec<Update> = Vec::new();
    while working.len() > 0
        invariant
            out@.to_multiset().add(working@.to_multiset()) == input@.to_multiset(),
            out@.len() + working@.len() == input@.len(),
            sorted_le(out@),
            forall|p: int, q: int|
                0 <= p < out@.len() && 0 <= q < working@.len() ==> upd_le(
                    #[trigger] out@[p],
                    #[trigger] working@[q],
                ),
        decreases working@.len(),
    {
        let mut m: usize = 0;
        let mut idx: usize = 1;
        while idx < working.len()
            invariant
                0 < working@.len(),
                m < idx,
                idx <= working@.len(),
                forall|j: int| 0 <= j < idx ==> upd_le(working@[m as int], #[trigger] working@[j]),
            decreases working@.len() - idx,
        {
            if upd_before(&working[idx], &working[m]) {
                m = idx;
            }
            idx += 1;
        }
        let u = working[m];
        let ghost old_out = out@;
        let ghost old_work = working@;
        out.push(u);
        working.remove(m);
        proof {
            assert(out@ == old_out.push(u));
            vstd::seq_lib::to_multiset_build(old_out, u);
            assert(out@.to_multiset() == old_out.to_multiset().insert(u));
            assert(working@ == old_work.remove(m as int));
            vstd::seq_lib::to_multiset_remove(old_work, m as int);
            assert(working@.to_multiset() == old_work.to_multiset().remove(u));
            vstd::seq_lib::to_multiset_contains(old_work, u);
            assert(old_work[m as int] == u);
            assert(old_work.contains(u));
            assert(old_work.to_multiset().count(u) > 0);
            assert(out@.to_multiset().add(working@.to_multiset()) =~= input@.to_multiset()) by {
                assert forall|v: Update|
                    out@.to_multiset().add(working@.to_multiset()).count(v)
                        == input@.to_multiset().count(v) by {
                    assert(old_work.to_multiset().count(u) > 0) by {
                        assert(old_work[m as int] == u);
                        assert(old_work.contains(u));
                    }
                    assert(old_out.to_multiset().add(old_work.to_multiset()).count(v)
                        == input@.to_multiset().count(v));
                }
            }
            assert forall|p: int, q: int|
                0 <= p < out@.len() && 0 <= q < working@.len() implies upd_le(
                #[trigger] out@[p],
                #[trigger] working@[q],
            ) by {
                assert(working@[q] == old_work.remove(m as int)[q]);
                if q < m {
                    assert(working@[q] == old_work[q]);
                } else {
                    assert(working@[q] == old_work[q + 1]);
                }
                if p < old_out.len() {
                    assert(out@[p] == old_out[p]);
                } else {
                    assert(out@[p] == u);
                }
            }
            assert(sorted_le(out@)) by {
                assert forall|p: int, q: int| 0 <= p < q < out@.len() implies upd_le(
                    #[trigger] out@[p],
                    #[trigger] out@[q],
                ) by {
                    if q == out@.len() - 1 {
                        assert(out@[p] == old_out[p]);
                        assert(out@[q] == u);
                        assert(old_work[m as int] == u);
                    }
                }
            }
        }
    }
    proof {
        assert(working@.to_multiset().len() == 0);
        assert(out@.to_multiset() =~= input@.to_multiset()) by {
            assert forall|v: Update|
                out@.to_multiset().count(v) == input@.to_multiset().count(v) by {
                assert(out@.to_multiset().add(working@.to_multiset()).count(v) == input@
                    .to_multiset().count(v));
                assert(working@.to_multiset().count(v) == 0) by {
                    vstd::multiset::axiom_count_le_len(working@.to_multiset(), v);
                }
            }
        }
    }
    out
}

/// The pending, not yet emitted group's weight at (k, t) under `g`.
pub open spec fn pending(have: bool, ck: Key, ct: u64, acc: i64, g: spec_fn(u64) -> u64, k: Key, t: u64) -> int {
    if have && k == ck && g(ct) == t {
        acc as int
    } else {
        0
    }
}

/// Walks an ordered sequence, folds the differences of each (key, time) run
/// with ring addition, and emits the runs whose folded difference is nonzero.
fn coalesce(s: &Vec<Update>) -> (out: Vec<Update>)
    requires
        sorted_le(s@),
    ensures
        canonical(out@),
        out@.len() <= s@.len(),
        forall|g: spec_fn(u64) -> u64, k: Key, t: u64|
            wrap(#[trigger] gweight(out@, g, k, t)) == wrap(gweight(s@, g, k, t)),
        forall|j: int| 0 <= j < out@.len() ==> #[trigger] kt_supported(out@, s@, j),
{
    let ghost sv = s@;
    let mut out: Vec<Update> = Vec::new();
    let mut have: bool = false;
    let mut ck: Key = Key { hash: 0, word: 0 };
    let mut ct: u64 = 0;
    let mut acc: i64 = 0;
    let mut i: usize = 0;
    while i < s.len()
        invariant
            sorted_le(sv),
            s@ == sv,
            i <= sv.len(),
            !have ==> i == 0 && out@.len() == 0,
            have ==> 0 < i && ck == sv[i - 1].key && ct == sv[i - 1].time,
            have ==> out@.len() < i,
            canonical(out@),
            forall|j: int|
                0 <= j < out@.len() ==> key_lt(#[trigger] out@[j].key, ck) || (out@[j].key == ck
                    && out@[j].time < ct),
            forall|g: spec_fn(u64) -> u64, k: Key, t: u64|
                wrap(gweight(out@, g, k, t) + pending(have, ck, ct, acc, g, k, t)) == wrap(
                    #[trigger] gweight(sv.take(i as int), g, k, t),
                ),
            forall|j: int| 0 <= j < out@.len() ==> #[trigger] kt_supported(out@, sv, j),
        decreases sv.len() - i,
    {
        let u = s[i];
        let ghost old_out = out@;
        let ghost old_have = have;
        let ghost old_ck = ck;
        let ghost old_ct = ct;
        let ghost old_acc = acc;
        if have && u.key == ck && u.time == ct {
            acc = diff_add(acc, u.diff);
            proof {
                assert(sv.take(i as int + 1) =~= sv.take(i as int).push(sv[i as int]));
                assert forall|g: spec_fn(u64) -> u64, k: Key, t: u64|
                    wrap(gweight(out@, g, k, t) + pending(have, ck, ct, acc, g, k, t)) == wrap(
                        #[trigger] gweight(sv.take(i as int + 1), g, k, t),
                    ) by {
                    lemma_gweight_push(sv.take(i as int), u, g, k, t);
                    let w0 = gweight(out@, g, k, t);
                    let wt = gweight(sv.take(i as int), g, k, t);
                    if k == ck && g(ct) == t {
                        lemma_wrap_add_right(w0, old_acc as int + u.diff as int);
                        lemma_wrap_congruence(w0 + old_acc as int, wt, u.diff as int);
                    }
                }
            }
        } else {
            if have && acc != 0 {
                out.push(Update { key: ck, time: ct, diff: acc });
            }
            have = true;
            ck = u.key;
            ct = u.time;
            acc = u.diff;
            proof {
                if old_have {
                    assert(upd_le(sv[i - 1], sv[i as int]));
                    assert(upd_lt(sv[i - 1], sv[i as int]));
                }
                let w = Update { key: old_ck, time: old_ct, diff: old_acc };
                if old_have && old_acc != 0 {
                    assert(out@ == old_out.push(w));
                }
                assert forall|j: int| 0 <= j < out@.len() implies #[trigger] kt_supported(
                    out@,
                    sv,
                    j,
                ) by {
                    if j < old_out.len() {
                        assert(kt_supported(old_out, sv, j));
                        let l = choose|l: int|
                            0 <= l < sv.len() && upd_eq(old_out[j], #[trigger] sv[l]);
                        assert(out@[j] == old_out[j]);
                        assert(upd_eq(out@[j], sv[l]));
                    } else {
                        assert(out@[j] == w);
                        assert(upd_eq(out@[j], sv[i - 1]));
                    }
                }
                assert(canonical(out@) && forall|j: int|
                    0 <= j < out@.len() ==> key_lt(#[trigger] out@[j].key, ck) || (out@[j].key == ck
                        && out@[j].time < ct)) by {
                    assert forall|p: int, q: int| 0 <= p < q < out@.len() implies upd_lt(
                        #[trigger] out@[p],
                        #[trigger] out@[q],
                    ) by {
                        if q == old_out.len() {
                            assert(out@[p] == old_out[p]);
                        }
                    }
                }
                assert(sv.take(i as int + 1) =~= sv.take(i as int).push(sv[i as int]));
                assert forall|g: spec_fn(u64) -> u64, k: Key, t: u64|
                    wrap(gweight(out@, g, k, t) + pending(have, ck, ct, acc, g, k, t)) == wrap(
                        #[trigger] gweight(sv.take(i as int + 1), g, k, t),
                    ) by {
                    lemma_gweight_push(sv.take(i as int), u, g, k, t);
                    let w1 = gweight(out@, g, k, t);
                    let w0 = gweight(old_out, g, k, t);
                    let wt = gweight(sv.take(i as int), g, k, t);
                    let pd_old = pending(old_have, old_ck, old_ct, old_acc, g, k, t);
                    let pd_new = pending(have, ck, ct, acc, g, k, t);
                    if old_have && old_acc != 0 {
                        lemma_gweight_push(old_out, w, g, k, t);
                        assert(w1 == w0 + pd_old);
                    } else {
                        assert(w1 == w0 && pd_old == 0);
                    }
                    assert(pd_new == one_weight(u, g, k, t));
                    lemma_wrap_congruence(w0 + pd_old, wt, pd_new);
                }
            }
        }
        i += 1;
    }
    let ghost old_out = out@;
    let ghost old_have = have;
    if have && acc != 0 {
        out.push(Update { key: ck, time: ct, diff: acc });
    }
    proof {
        assert(sv.take(sv.len() as int) =~= sv);
        let w = Update { key: ck, time: ct, diff: acc };
        if have && acc != 0 {
            assert(out@ == old_out.push(w));
            assert forall|p: int, q: int| 0 <= p < q < out@.len() implies upd_lt(
                #[trigger] out@[p],
                #[trigger] out@[q],
            ) by {
                if q == old_out.len() {
                    assert(out@[p] == old_out[p]);
                }
            }
        }
        assert forall|j: int| 0 <= j < out@.len() implies #[trigger] kt_supported(out@, sv, j) by {
            if j < old_out.len() {
                assert(kt_supported(old_out, sv, j));
                let l = choose|l: int| 0 <= l < sv.len() && upd_eq(old_out[j], #[trigger] sv[l]);
                assert(out@[j] == old_out[j]);
                assert(upd_eq(out@[j], sv[l]));
            } else {
                assert(out@[j] == w);
                assert(upd_eq(out@[j], sv[i - 1]));
            }
        }
        assert forall|g: spec_fn(u64) -> u64, k: Key, t: u64|
            wrap(#[trigger] gweight(out@, g, k, t)) == wrap(gweight(sv, g, k, t)) by {
            let w1 = gweight(out@, g, k, t);
            let w0 = gweight(old_out, g, k, t);
            let pd = pending(old_have, ck, ct, acc, g, k, t);
            if have && acc != 0 {
                lemma_gweight_push(old_out, w, g, k, t);
                assert(w1 == w0 + pd);
            } else {
                assert(w1 == w0 && pd == 0);
            }
        }
    }
    out
}

/// Consolidates a batch of updates: equal (key, time) coordinates are summed
/// in the ring, zero sums are dropped, and the survivors come out in strictly
/// ascending (key, time) order.
pub fn consolidate(input: &Vec<Update>) -> (out: Vec<Update>)
    ensures
        consolidate_rel(input@, out@),
{
    broadcast use group_to_multiset_ensures;

    let sorted = sort_updates(input);
    let out = coalesce(&sorted);
    proof {
        assert forall|g: spec_fn(u64) -> u64, k: Key, t: u64|
            wrap(#[trigger] gweight(out@, g, k, t)) == wrap(gweight(input@, g, k, t)) by {
            lemma_gweight_multiset(sorted@, input@, g, k, t);
            assert(wrap(gweight(out@, g, k, t)) == wrap(gweight(sorted@, g, k, t)));
        }
        assert forall|j: int| 0 <= j < out@.len() implies #[trigger] kt_supported(
            out@,
            input@,
            j,
        ) by {
            assert(kt_supported(out@, sorted@, j));
            let l0 = choose|l: int| 0 <= l < sorted@.len() && upd_eq(out@[j], #[trigger] sorted@[l]);
            assert(sorted@.contains(sorted@[l0]));
            assert(sorted@.to_multiset().count(sorted@[l0]) > 0);
            assert(input@.to_multiset().count(sorted@[l0]) > 0);
            assert(input@.contains(sorted@[l0]));
            let l1 = choose|l: int| 0 <= l < input@.len() && #[trigger] input@[l] == sorted@[l0];
            assert(upd_eq(out@[j], input@[l1]));
        }
    }
    out
}

/// The plain-weight reading of consolidation: at every (key, time) the output
/// weighs the wrapped sum of the input's differences there.
pub proof fn lemma_consolidate_weight(inp: Seq<Update>, out: Seq<Update>, k: Key, t: u64)
    requires
        consolidate_rel(inp, out),
    ensures
        weight(out, k, t) == wrap(weight(inp, k, t)),
{
    assert forall|x: u64| #[trigger] tid()(x) == x by {}
    assert(wrap(gweight(out, tid(), k, t)) == wrap(gweight(inp, tid(), k, t)));
    if exists|j: int| 0 <= j < out.len() && #[trigger] out[j].key == k && out[j].time == t {
        let j = choose|j: int| 0 <= j < out.len() && #[trigger] out[j].key == k && out[j].time == t;
        lemma_weight_at(out, tid(), j, k, t);
        lemma_wrap_fixed(out[j].diff as int);
    } else {
        lemma_gweight_absent(out, tid(), k, t);
        lemma_wrap_fixed(0);
    }
}

} // verus!
