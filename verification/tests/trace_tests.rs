use rhh_trace::batcher::LayerBatcher;
use rhh_trace::consolidate::consolidate;
use rhh_trace::cursor::CursorList;
use rhh_trace::frontier::{adv_time_exec, frontier_le_exec, Antichain};
use rhh_trace::layer::{Layer, LayerBuilder};
use rhh_trace::spine::Spine;
use rhh_trace::update::{diff_add, Key, Update};

fn key(hash: u64, word: u64) -> Key {
    Key { hash, word }
}

fn upd(hash: u64, word: u64, time: u64, diff: i64) -> Update {
    Update { key: key(hash, word), time, diff }
}

fn batch_of(tuples: &[Update], lower: u64, upper: u64) -> Layer {
    let mut b = LayerBuilder::new();
    for u in tuples {
        b.push(*u);
    }
    b.done(&vec![lower], &vec![upper])
}

fn walk(cursors: CursorList) -> Vec<Update> {
    let mut cl = cursors;
    cl.read_all()
}

#[test]
fn consolidate_sums_and_sorts() {
    let input = vec![
        upd(2, 1, 5, 3),
        upd(1, 9, 2, -1),
        upd(2, 1, 5, 4),
        upd(1, 9, 2, 1),
        upd(1, 9, 3, 2),
    ];
    let out = consolidate(&input);
    assert_eq!(out, vec![upd(1, 9, 3, 2), upd(2, 1, 5, 7)]);
}

#[test]
fn consolidate_idempotent() {
    let input = vec![upd(3, 3, 1, 1), upd(1, 1, 1, 1), upd(3, 3, 1, -1), upd(2, 2, 9, 5)];
    let once = consolidate(&input);
    let twice = consolidate(&once);
    assert_eq!(once, twice);
}

#[test]
fn consolidate_empty() {
    let out = consolidate(&Vec::new());
    assert!(out.is_empty());
}

#[test]
fn diff_addition_wraps() {
    assert_eq!(diff_add(2, 3), 5);
    assert_eq!(diff_add(i64::MAX, 1), i64::MIN);
    assert_eq!(diff_add(i64::MIN, -1), i64::MAX);
}

#[test]
fn merge_commutative() {
    let a = batch_of(&[upd(1, 1, 1, 1), upd(2, 2, 3, 5)], 0, 4);
    let b = batch_of(&[upd(1, 1, 1, 2), upd(3, 3, 2, -5)], 0, 4);
    let ab = a.merge(&b);
    let ba = b.merge(&a);
    assert_eq!(ab.tuples, ba.tuples);
    assert_eq!(ab.tuples, vec![upd(1, 1, 1, 3), upd(2, 2, 3, 5), upd(3, 3, 2, -5)]);
    // the merged batch covers the union interval, compacted no further
    // than its own lower bound
    assert_eq!(ab.desc.lower, vec![0]);
    assert_eq!(ab.desc.upper, vec![4]);
    assert_eq!(ab.desc.since, vec![0]);
}

#[test]
fn merge_associative() {
    let a = batch_of(&[upd(1, 1, 1, 1)], 0, 9);
    let b = batch_of(&[upd(1, 1, 1, -1), upd(2, 2, 2, 2)], 0, 9);
    let c = batch_of(&[upd(2, 2, 2, -2), upd(3, 3, 3, 3)], 0, 9);
    let left = a.merge(&b).merge(&c);
    let right = a.merge(&b.merge(&c));
    assert_eq!(left.tuples, right.tuples);
    assert_eq!(left.tuples, vec![upd(3, 3, 3, 3)]);
}

#[test]
fn merge_cancels_zeros() {
    let a = batch_of(&[upd(5, 5, 7, 4)], 0, 8);
    let b = batch_of(&[upd(5, 5, 7, -4)], 0, 8);
    let m = a.merge(&b);
    assert_eq!(m.tuples.len(), 0);
}

#[test]
fn advance_coarsens_times() {
    // Times 1, 2, 3 all collapse onto the frontier at 5 and consolidate.
    let l = batch_of(&[upd(4, 4, 1, 1), upd(4, 4, 2, -1), upd(4, 4, 3, 1)], 0, 4);
    let a = Layer::advance_by(&l, &vec![5]);
    assert_eq!(a.tuples, vec![upd(4, 4, 5, 1)]);
    assert_eq!(a.desc.since, vec![5]);
    assert_eq!(a.desc.lower, vec![0]);
    assert_eq!(a.desc.upper, vec![4]);
}

#[test]
fn advance_idempotent() {
    let l = batch_of(&[upd(1, 1, 1, 1), upd(1, 1, 9, 2)], 0, 10);
    let once = Layer::advance_by(&l, &vec![5]);
    let twice = Layer::advance_by(&once, &vec![5]);
    assert_eq!(once.tuples, twice.tuples);
    assert_eq!(once.tuples, vec![upd(1, 1, 5, 1), upd(1, 1, 9, 2)]);
}

#[test]
fn advance_monotone() {
    let l = batch_of(&[upd(1, 1, 1, 1), upd(1, 1, 4, 1), upd(1, 1, 9, 2)], 0, 10);
    let via_f = Layer::advance_by(&Layer::advance_by(&l, &vec![3]), &vec![6]);
    let direct = Layer::advance_by(&l, &vec![6]);
    assert_eq!(via_f.tuples, direct.tuples);
}

#[test]
fn seal_partitions_by_interval() {
    // One update inside [0, 5), one beyond: the first is sealed, the second
    // stays buffered for a later seal.
    let mut batcher = LayerBatcher::new();
    batcher.push(upd(1, 1, 2, 1));
    batcher.push(upd(1, 1, 7, 1));
    let first = batcher.seal(&vec![0], &vec![5]);
    assert_eq!(first.tuples, vec![upd(1, 1, 2, 1)]);
    let second = batcher.seal(&vec![5], &vec![100]);
    assert_eq!(second.tuples, vec![upd(1, 1, 7, 1)]);
    let rest = batcher.seal(&vec![0], &vec![10000]);
    assert_eq!(rest.tuples.len(), 0);
}

#[test]
fn seal_cancels_opposite_diffs() {
    let mut batcher = LayerBatcher::new();
    batcher.push(upd(8, 8, 3, 1));
    batcher.push(upd(8, 8, 3, -1));
    let sealed = batcher.seal(&vec![0], &vec![10]);
    assert_eq!(sealed.tuples.len(), 0);
    assert_eq!(sealed.desc.lower, vec![0]);
    assert_eq!(sealed.desc.upper, vec![10]);
    assert_eq!(sealed.desc.since, vec![0]);
}

#[test]
fn hash_collision_keeps_both_keys_in_word_order() {
    // Two keys share a hash; both survive, ordered by the key itself.
    let mut batcher = LayerBatcher::new();
    batcher.push(upd(7, 2, 1, 1));
    batcher.push(upd(7, 1, 1, 1));
    let sealed = batcher.seal(&vec![0], &vec![5]);
    assert_eq!(sealed.tuples, vec![upd(7, 1, 1, 1), upd(7, 2, 1, 1)]);
}

#[test]
fn batcher_frontier_is_minimal_time() {
    let mut batcher = LayerBatcher::new();
    assert_eq!(batcher.frontier(), Vec::<u64>::new());
    batcher.push(upd(1, 1, 5, 1));
    batcher.push(upd(1, 2, 3, 1));
    batcher.push(upd(1, 3, 9, 1));
    assert_eq!(batcher.frontier(), vec![3]);
}

#[test]
fn antichain_keeps_minimal_times() {
    let mut ac = Antichain::new();
    assert!(ac.elements().is_empty());
    ac.insert(5);
    ac.insert(7);
    assert_eq!(ac.elements(), &vec![5]);
    ac.insert(3);
    assert_eq!(ac.elements(), &vec![3]);
}

#[test]
fn frontier_tests_and_advances() {
    assert!(frontier_le_exec(&vec![3], 3));
    assert!(frontier_le_exec(&vec![3], 9));
    assert!(!frontier_le_exec(&vec![3], 2));
    assert!(!frontier_le_exec(&Vec::new(), 2));
    assert_eq!(adv_time_exec(2, &vec![5]), 5);
    assert_eq!(adv_time_exec(7, &vec![5]), 7);
    assert_eq!(adv_time_exec(0, &vec![9, 4, 6]), 4);
}

#[test]
fn spine_size_tiers_collapse() {
    // Batches of sizes 4, 2, 1, 1: the fourth insert cascades everything
    // into a single batch of size 8.
    let mut spine = Spine::new(0);
    let b4 = batch_of(
        &[upd(1, 1, 1, 1), upd(1, 2, 1, 1), upd(1, 3, 1, 1), upd(1, 4, 1, 1)],
        0,
        2,
    );
    let b2 = batch_of(&[upd(2, 1, 2, 1), upd(2, 2, 2, 1)], 2, 3);
    let b1a = batch_of(&[upd(3, 1, 3, 1)], 3, 4);
    let b1b = batch_of(&[upd(4, 1, 4, 1)], 4, 5);
    spine.insert(b4);
    assert_eq!(spine.layers.len(), 1);
    spine.insert(b2);
    assert_eq!(spine.layers.len(), 2);
    spine.insert(b1a);
    assert_eq!(spine.layers.len(), 3);
    spine.insert(b1b);
    assert_eq!(spine.layers.len(), 1);
    assert_eq!(spine.layers[0].tuples.len(), 8);
}

#[test]
fn spine_keeps_tiered_sizes() {
    let mut spine = Spine::new(0);
    let mut w: u64 = 0;
    for round in 0..6u64 {
        let mut tuples = Vec::new();
        for _ in 0..(round + 1) {
            w += 1;
            tuples.push(upd(9, w, round, 1));
        }
        spine.insert(batch_of(&tuples, round, round + 1));
        for i in 1..spine.layers.len() {
            assert!(spine.layers[i - 1].tuples.len() >= 2 * spine.layers[i].tuples.len());
        }
    }
}

#[test]
fn spine_cursor_merges_batches() {
    let mut spine = Spine::new(0);
    spine.insert(batch_of(&[upd(1, 1, 1, 1), upd(2, 2, 1, 1)], 0, 2));
    spine.insert(batch_of(&[upd(1, 1, 2, 1)], 2, 3));
    let all = consolidate(&walk(spine.cursor()));
    assert_eq!(all, vec![upd(1, 1, 1, 1), upd(1, 1, 2, 1), upd(2, 2, 1, 1)]);
}

#[test]
fn insert_update_delete_trace() {
    // One person called frank, with a word per surname: pushed, corrected and
    // finally removed across five sealed intervals; the cursor over the whole
    // trace reads the full history.
    let frank: u64 = 100;
    let mcsherry: u64 = 1;
    let zappa: u64 = 2;
    let oz: u64 = 3;
    let mut spine = Spine::new(0);
    let mut batcher = LayerBatcher::new();

    batcher.push(upd(frank, mcsherry, 3, 1));
    spine.insert(batcher.seal(&vec![0], &vec![4]));

    batcher.push(upd(frank, zappa, 4, 1));
    batcher.push(upd(frank, mcsherry, 4, -1));
    spine.insert(batcher.seal(&vec![4], &vec![5]));

    batcher.push(upd(frank, zappa, 5, -1));
    spine.insert(batcher.seal(&vec![5], &vec![9]));

    batcher.push(upd(frank, oz, 9, 1));
    spine.insert(batcher.seal(&vec![9], &vec![10]));

    batcher.push(upd(frank, oz, 15, -1));
    spine.insert(batcher.seal(&vec![10], &vec![16]));

    let all = consolidate(&walk(spine.cursor()));
    let expected = vec![
        upd(frank, mcsherry, 3, 1),
        upd(frank, mcsherry, 4, -1),
        upd(frank, zappa, 4, 1),
        upd(frank, zappa, 5, -1),
        upd(frank, oz, 9, 1),
        upd(frank, oz, 15, -1),
    ];
    assert_eq!(all, expected);
}

#[test]
fn layer_cursor_navigation() {
    let l = batch_of(
        &[upd(1, 1, 1, 1), upd(1, 1, 2, 2), upd(2, 2, 3, 3), upd(3, 3, 4, 4)],
        0,
        5,
    );
    let mut c = l.cursor();
    assert!(c.key_valid());
    assert_eq!(c.key(), key(1, 1));
    assert!(c.val_valid());
    assert_eq!(c.val(), ());
    assert_eq!(c.times(), vec![(1, 1), (2, 2)]);
    c.step_val();
    assert!(!c.val_valid());
    c.rewind_vals();
    c.seek_val(&());
    assert!(c.val_valid());
    c.step_key();
    assert_eq!(c.key(), key(2, 2));
    c.seek_key(&key(3, 0));
    assert_eq!(c.key(), key(3, 3));
    c.step_key();
    assert!(!c.key_valid());
    c.rewind_keys();
    assert_eq!(c.key(), key(1, 1));
}

#[test]
fn merged_description_spans_the_pair() {
    // The newer batch merges atop the older: the result covers from the
    // older's lower bound to the newer's upper.
    let older = batch_of(&[upd(1, 1, 1, 1)], 0, 4);
    let newer = batch_of(&[upd(2, 2, 5, 1)], 4, 9);
    let m = newer.merge(&older);
    assert_eq!(m.desc.lower, vec![0]);
    assert_eq!(m.desc.upper, vec![9]);
    assert_eq!(m.desc.since, vec![0]);
}

#[test]
fn empty_insert_extends_coverage() {
    // An empty batch adds nothing to read, but the interval it covered is
    // folded into the top batch so the trace stays gapless.
    let mut spine = Spine::new(0);
    spine.insert(batch_of(&[upd(1, 1, 1, 1)], 0, 2));
    spine.insert(batch_of(&[], 2, 5));
    assert_eq!(spine.layers.len(), 1);
    assert_eq!(spine.layers[0].tuples, vec![upd(1, 1, 1, 1)]);
    assert_eq!(spine.layers[0].desc.lower, vec![0]);
    assert_eq!(spine.layers[0].desc.upper, vec![5]);
    spine.insert(batch_of(&[upd(1, 1, 6, 1)], 5, 9));
    assert_eq!(spine.layers.len(), 1);
    assert_eq!(spine.layers[0].desc.lower, vec![0]);
    assert_eq!(spine.layers[0].desc.upper, vec![9]);
}

#[test]
fn spine_advance_applies_at_bottom_merge() {
    let mut spine = Spine::new(0);
    spine.advance_by(&vec![10]);
    // Two batches of equal size force a cascade down to the bottom, where
    // the frontier at 10 collapses times 1 and 2.
    spine.insert(batch_of(&[upd(1, 1, 1, 1)], 0, 2));
    spine.insert(batch_of(&[upd(1, 1, 2, 1)], 2, 3));
    assert_eq!(spine.layers.len(), 1);
    assert_eq!(spine.layers[0].tuples, vec![upd(1, 1, 10, 2)]);
    assert_eq!(spine.layers[0].desc.since, vec![10]);
}

#[test]
fn empty_batch_is_not_stacked() {
    let mut spine = Spine::new(0);
    spine.insert(batch_of(&[], 0, 1));
    assert_eq!(spine.layers.len(), 0);
    let mut batcher = LayerBatcher::new();
    let sealed = batcher.seal(&vec![0], &vec![1]);
    spine.insert(sealed);
    assert_eq!(spine.layers.len(), 0);
}

#[test]
fn consolidate_wraps_differences() {
    // The ring of differences wraps at the width of i64.
    let input = vec![upd(1, 1, 1, i64::MAX), upd(1, 1, 1, 1)];
    let out = consolidate(&input);
    assert_eq!(out, vec![upd(1, 1, 1, i64::MIN)]);
}

#[test]
fn seal_with_empty_lower_takes_nothing() {
    // No element of an empty lower frontier lies before any time, so the
    // interval is empty and everything stays buffered.
    let mut batcher = LayerBatcher::new();
    batcher.push(upd(1, 1, 3, 1));
    let sealed = batcher.seal(&Vec::new(), &vec![10]);
    assert_eq!(sealed.tuples.len(), 0);
    let later = batcher.seal(&vec![0], &vec![10]);
    assert_eq!(later.tuples, vec![upd(1, 1, 3, 1)]);
}

#[test]
fn cursor_list_rewinds() {
    let a = batch_of(&[upd(1, 1, 1, 1)], 0, 2);
    let b = batch_of(&[upd(2, 2, 1, 1)], 0, 2);
    let mut cl = CursorList::new(vec![a.cursor(), b.cursor()]);
    let k1 = cl.key();
    assert_eq!(k1, key(1, 1));
    cl.step_key(&k1);
    assert_eq!(cl.key(), key(2, 2));
    cl.rewind_keys();
    assert_eq!(cl.key(), key(1, 1));
    assert_eq!(cl.times(&key(1, 1)), vec![(1, 1)]);
}

#[test]
fn spine_advance_by_replaces_frontier() {
    let mut spine = Spine::new(7);
    assert_eq!(spine.frontier, vec![7]);
    spine.advance_by(&vec![12]);
    assert_eq!(spine.frontier, vec![12]);
}
