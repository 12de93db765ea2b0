//! Accumulating point clouds into 100 ms blocks. A block that lies further
//! back than the threshold is finished: its clouds are merged into one cloud
//! stamped with the block's start and queued.

use vstd::prelude::*;
use std::collections::VecDeque;
use crate::pointcloud::{total_points, unix_time_millis, PointCloud, PointCloudView, PointMetaDataView};

verus! {

/// The start of the 100 ms block that a time falls in.
pub open spec fn block_of(time: u128) -> u128 {
    (time - time % 100) as u128
}

/// At `now`, the block lies more than `threshold` milliseconds back.
pub open spec fn is_block_old(block: u128, now: u128, threshold: u128) -> bool {
    now > block && now - block > threshold
}

/// All the points of the clouds, in order.
pub open spec fn all_points(cs: Seq<PointCloudView>) -> Seq<[u32; 4]>
    decreases cs.len(),
{
    if cs.len() == 0 {
        Seq::empty()
    } else {
        all_points(cs.drop_last()) + cs.last().points
    }
}

/// All the metadata of the clouds, in order.
pub open spec fn all_metadata(cs: Seq<PointCloudView>) -> Seq<PointMetaDataView>
    decreases cs.len(),
{
    if cs.len() == 0 {
        Seq::empty()
    } else {
        all_metadata(cs.drop_last()) + cs.last().metadata
    }
}

/// The clouds of a block merged into one cloud stamped with the block.
pub open spec fn merge_block(block: u128, cs: Seq<PointCloudView>) -> PointCloudView {
    PointCloudView { time: block, points: all_points(cs), metadata: all_metadata(cs) }
}

/// The blocks that stay open at `now`, in order.
pub open spec fn kept_blocks(bs: Seq<(u128, Seq<PointCloudView>)>, now: u128, threshold: u128) -> Seq<
    (u128, Seq<PointCloudView>),
>
    decreases bs.len(),
{
    if bs.len() == 0 {
        Seq::empty()
    } else {
        let rest = kept_blocks(bs.drop_last(), now, threshold);
        if is_block_old(bs.last().0, now, threshold) {
            rest
        } else {
            rest.push(bs.last())
        }
    }
}

/// The merged clouds of the blocks that are finished at `now`, in order.
pub open spec fn finished_blocks(bs: Seq<(u128, Seq<PointCloudView>)>, now: u128, threshold: u128) -> Seq<
    PointCloudView,
>
    decreases bs.len(),
{
    if bs.len() == 0 {
        Seq::empty()
    } else {
        let rest = finished_blocks(bs.drop_last(), now, threshold);
        if is_block_old(bs.last().0, now, threshold) && bs.last().1.len() > 0 {
            rest.push(merge_block(bs.last().0, bs.last().1))
        } else {
            rest
        }
    }
}

/// The keys of the blocks.
pub open spec fn block_keys(bs: Seq<(u128, Seq<PointCloudView>)>) -> Seq<u128> {
    bs.map_values(|b: (u128, Seq<PointCloudView>)| b.0)
}

/// How many of the keys lie below `k`.
pub open spec fn keys_below(ks: Seq<u128>, k: u128) -> nat
    decreases ks.len(),
{
    if ks.len() == 0 {
        0
    } else {
        keys_below(ks.drop_last(), k) + if ks.last() < k {
            1nat
        } else {
            0nat
        }
    }
}

/// The keys rise strictly.
pub open spec fn strictly_ascending(ks: Seq<u128>) -> bool {
    forall|i: int, j: int| 0 <= i < j < ks.len() ==> ks[i] < ks[j]
}

/// The times of the clouds.
pub open spec fn times(cs: Seq<PointCloudView>) -> Seq<u128> {
    cs.map_values(|c: PointCloudView| c.time)
}

/// The blocks rise by key, and each holds a cloud.
pub open spec fn wf_blocks(bs: Seq<(u128, Seq<PointCloudView>)>) -> bool {
    &&& strictly_ascending(block_keys(bs))
    &&& forall|i: int| 0 <= i < bs.len() ==> (#[trigger] bs[i]).1.len() > 0
}

/// The blocks after `item` has been filed in block `k`: appended to the
/// block's clouds, or in a new block in its place by key.
pub open spec fn filed(bs: Seq<(u128, Seq<PointCloudView>)>, k: u128, item: PointCloudView) -> Seq<
    (u128, Seq<PointCloudView>),
> {
    if block_keys(bs).contains(k) {
        let j = block_keys(bs).index_of(k);
        bs.update(j, (k, bs[j].1.push(item)))
    } else {
        bs.insert(keys_below(block_keys(bs), k) as int, (k, seq![item]))
    }
}

/// The blocks after filing each of `items` in turn, where `kept[i]` says
/// whether item `i` was filed or dropped.
pub open spec fn file_all(
    bs: Seq<(u128, Seq<PointCloudView>)>,
    items: Seq<PointCloudView>,
    kept: Seq<bool>,
) -> Seq<(u128, Seq<PointCloudView>)>
    decreases items.len(),
{
    if items.len() == 0 {
        bs
    } else {
        let mid = file_all(bs, items.drop_last(), kept.drop_last());
        if kept.last() {
            filed(mid, block_of(items.last().time), items.last())
        } else {
            mid
        }
    }
}


/// The blocks that stay open are blocks of before, and none of them is old.
proof fn lemma_kept_members(
    bs: Seq<(u128, Seq<PointCloudView>)>,
    now: u128,
    threshold: u128,
    x: (u128, Seq<PointCloudView>),
)
    requires
        kept_blocks(bs, now, threshold).contains(x),
    ensures
        bs.contains(x),
        !is_block_old(x.0, now, threshold),
    decreases bs.len(),
{
    let kb = kept_blocks(bs, now, threshold);
    let l = choose|l: int| 0 <= l < kb.len() && kb[l] == x;
    if bs.len() > 0 {
        let d = bs.drop_last();
        let rest = kept_blocks(d, now, threshold);
        if l < rest.len() {
            assert(rest[l] == x);
            lemma_kept_members(d, now, threshold, x);
            let m = choose|m: int| 0 <= m < d.len() && d[m] == x;
            assert(bs[m] == x);
        } else {
            assert(bs[bs.len() - 1] == x);
        }
    }
}

/// The finished clouds are stamped with keys of blocks that are old.
proof fn lemma_finished_members(bs: Seq<(u128, Seq<PointCloudView>)>, now: u128, threshold: u128, i: int)
    requires
        0 <= i < finished_blocks(bs, now, threshold).len(),
    ensures
        block_keys(bs).contains(finished_blocks(bs, now, threshold)[i].time),
        is_block_old(finished_blocks(bs, now, threshold)[i].time, now, threshold),
    decreases bs.len(),
{
    if bs.len() > 0 {
        let d = bs.drop_last();
        let rest = finished_blocks(d, now, threshold);
        if i < rest.len() {
            lemma_finished_members(d, now, threshold, i);
            let t = rest[i].time;
            let m = choose|m: int| 0 <= m < block_keys(d).len() && block_keys(d)[m] == t;
            assert(block_keys(bs)[m] == t);
        } else {
            assert(block_keys(bs)[bs.len() - 1] == bs.last().0);
        }
    }
}

proof fn lemma_wf_drop_last(bs: Seq<(u128, Seq<PointCloudView>)>)
    requires
        wf_blocks(bs),
        bs.len() > 0,
    ensures
        wf_blocks(bs.drop_last()),
        forall|i: int| 0 <= i < bs.len() - 1 ==> #[trigger] block_keys(bs.drop_last())[i] < bs.last().0,
{
    let d = bs.drop_last();
    assert(block_keys(d) =~= block_keys(bs).drop_last());
    assert forall|i: int| 0 <= i < bs.len() - 1 implies #[trigger] block_keys(d)[i] < bs.last().0 by {
        assert(block_keys(bs)[i] < block_keys(bs)[bs.len() - 1]);
    }
    assert forall|i: int| 0 <= i < d.len() implies (#[trigger] d[i]).1.len() > 0 by {
        assert(d[i] == bs[i]);
    }
}

/// Keeping some of the blocks keeps them rising by key and holding clouds.
proof fn lemma_kept_wf(bs: Seq<(u128, Seq<PointCloudView>)>, now: u128, threshold: u128)
    requires
        wf_blocks(bs),
    ensures
        wf_blocks(kept_blocks(bs, now, threshold)),
    decreases bs.len(),
{
    if bs.len() > 0 {
        let d = bs.drop_last();
        lemma_wf_drop_last(bs);
        lemma_kept_wf(d, now, threshold);
        let rest = kept_blocks(d, now, threshold);
        if !is_block_old(bs.last().0, now, threshold) {
            let k = bs.last().0;
            let kb = rest.push(bs.last());
            assert(block_keys(kb) =~= block_keys(rest).push(k));
            assert forall|i: int| 0 <= i < rest.len() implies #[trigger] block_keys(rest)[i] < k by {
                assert(rest.contains(rest[i]));
                lemma_kept_members(d, now, threshold, rest[i]);
                let m = choose|m: int| 0 <= m < d.len() && d[m] == rest[i];
                assert(block_keys(d)[m] < k);
            }
            assert forall|i: int, j: int| 0 <= i < j < block_keys(kb).len() implies block_keys(kb)[i] < block_keys(kb)[j] by {
                if j == rest.len() {
                    assert(block_keys(rest)[i] < k);
                } else {
                    assert(block_keys(rest)[i] < block_keys(rest)[j]);
                }
            }
            assert forall|i: int| 0 <= i < kb.len() implies (#[trigger] kb[i]).1.len() > 0 by {
                if i < rest.len() {
                    assert(kb[i] == rest[i]);
                }
            }
        }
    }
}

/// Of blocks rising by key, the finished clouds come out rising by time, and
/// every one of them is older than every block that stays open.
proof fn lemma_finished_sorted(bs: Seq<(u128, Seq<PointCloudView>)>, now: u128, threshold: u128)
    requires
        wf_blocks(bs),
    ensures
        strictly_ascending(times(finished_blocks(bs, now, threshold))),
        forall|i: int, j: int|
            0 <= i < finished_blocks(bs, now, threshold).len() && 0 <= j < kept_blocks(bs, now, threshold).len()
                ==> #[trigger] finished_blocks(bs, now, threshold)[i].time < #[trigger] kept_blocks(bs, now, threshold)[j].0,
    decreases bs.len(),
{
    if bs.len() > 0 {
        let d = bs.drop_last();
        let k = bs.last().0;
        lemma_wf_drop_last(bs);
        lemma_finished_sorted(d, now, threshold);
        let f = finished_blocks(d, now, threshold);
        let kd = kept_blocks(d, now, threshold);
        assert forall|i: int| 0 <= i < f.len() implies #[trigger] f[i].time < k by {
            lemma_finished_members(d, now, threshold, i);
            let m = choose|m: int| 0 <= m < block_keys(d).len() && block_keys(d)[m] == f[i].time;
            assert(block_keys(d)[m] < k);
        }
        if is_block_old(k, now, threshold) {
            assert(kd.len() == 0) by {
                if kd.len() > 0 {
                    assert(kd.contains(kd[0]));
                    lemma_kept_members(d, now, threshold, kd[0]);
                    let m = choose|m: int| 0 <= m < d.len() && d[m] == kd[0];
                    assert(block_keys(d)[m] < k);
                }
            }
            if bs.last().1.len() > 0 {
                let fb = f.push(merge_block(k, bs.last().1));
                assert(times(fb) =~= times(f).push(k));
                assert forall|i: int, j: int| 0 <= i < j < times(fb).len() implies times(fb)[i] < times(fb)[j] by {
                    if j == f.len() {
                        assert(times(fb)[i] == f[i].time);
                        assert(f[i].time < k);
                    } else {
                        assert(times(f)[i] < times(f)[j]);
                    }
                }
            }
        } else {
            let kb = kd.push(bs.last());
            assert forall|i: int, j: int| 0 <= i < f.len() && 0 <= j < kb.len() implies #[trigger] f[i].time < #[trigger] kb[j].0 by {
                if j == kd.len() {
                    assert(f[i].time < k);
                } else {
                    assert(f[i].time < kd[j].0);
                }
            }
        }
    }
}

/// Where the queue was ordered, appending the blocks finished at `now`
/// keeps it ordered against the blocks that stay open.
proof fn lemma_reorganize_keeps_order(
    f0: Seq<PointCloudView>,
    bs: Seq<(u128, Seq<PointCloudView>)>,
    now: u128,
    threshold: u128,
)
    requires
        wf_blocks(bs),
        strictly_ascending(times(f0)),
        forall|i: int, j: int| 0 <= i < f0.len() && 0 <= j < bs.len() ==> #[trigger] f0[i].time < #[trigger] bs[j].0,
    ensures
        strictly_ascending(times(f0 + finished_blocks(bs, now, threshold))),
        forall|i: int, j: int|
            0 <= i < (f0 + finished_blocks(bs, now, threshold)).len() && 0 <= j < kept_blocks(bs, now, threshold).len()
                ==> #[trigger] (f0 + finished_blocks(bs, now, threshold))[i].time < #[trigger] kept_blocks(
                bs,
                now,
                threshold,
            )[j].0,
{
    let fb = finished_blocks(bs, now, threshold);
    let kb = kept_blocks(bs, now, threshold);
    let all = f0 + fb;
    lemma_finished_sorted(bs, now, threshold);
    assert forall|i: int, j: int| 0 <= i < f0.len() && 0 <= j < fb.len() implies f0[i].time < fb[j].time by {
        lemma_finished_members(bs, now, threshold, j);
        let m = choose|m: int| 0 <= m < block_keys(bs).len() && block_keys(bs)[m] == fb[j].time;
        assert(f0[i].time < bs[m].0);
    }
    assert forall|a: int, c: int| 0 <= a < c < times(all).len() implies times(all)[a] < times(all)[c] by {
        if c < f0.len() {
            assert(times(f0)[a] < times(f0)[c]);
        } else if a < f0.len() {
            assert(f0[a].time < fb[c - f0.len()].time);
        } else {
            assert(times(fb)[a - f0.len()] < times(fb)[c - f0.len()]);
        }
    }
    assert forall|i: int, j: int| 0 <= i < all.len() && 0 <= j < kb.len() implies #[trigger] all[i].time < #[trigger] kb[j].0 by {
        if i < f0.len() {
            assert(kb.contains(kb[j]));
            lemma_kept_members(bs, now, threshold, kb[j]);
            let m = choose|m: int| 0 <= m < bs.len() && bs[m] == kb[j];
            assert(f0[i].time < bs[m].0);
        } else {
            assert(all[i] == fb[i - f0.len()]);
        }
    }
}

/// A cloud stamped at most `threshold - 99` ms before the clock reading at
/// which it is filed lies in a block that is not old, so it is kept; in
/// particular a cloud stamped with the very reading it is filed at is kept
/// whenever the threshold is at least 99 ms.
pub proof fn lemma_recent_cloud_is_kept(time: u128, now: u128, threshold: u128)
    requires
        time <= now,
        now - time + 99 <= threshold,
    ensures
        !is_block_old(block_of(time), now, threshold),
{
    assert(time % 100 <= 99);
}

/// How many points the blocks hold together.
pub open spec fn block_total(bs: Seq<(u128, Seq<PointCloudView>)>) -> int
    decreases bs.len(),
{
    if bs.len() == 0 {
        0
    } else {
        block_total(bs.drop_last()) + all_points(bs.last().1).len()
    }
}

/// Reorganizing loses no point: the blocks that stay open and the clouds
/// that are finished hold together every point that the blocks held.
pub proof fn lemma_reorganize_keeps_points(bs: Seq<(u128, Seq<PointCloudView>)>, now: u128, threshold: u128)
    ensures
        block_total(bs) == block_total(kept_blocks(bs, now, threshold)) + total_points(
            finished_blocks(bs, now, threshold),
        ),
    decreases bs.len(),
{
    if bs.len() > 0 {
        let d = bs.drop_last();
        let b = bs.last();
        lemma_reorganize_keeps_points(d, now, threshold);
        let k = kept_blocks(d, now, threshold);
        let f = finished_blocks(d, now, threshold);
        if is_block_old(b.0, now, threshold) {
            if b.1.len() > 0 {
                assert(f.push(merge_block(b.0, b.1)).drop_last() =~= f);
            } else {
                assert(all_points(b.1) == Seq::<[u32; 4]>::empty());
            }
        } else {
            assert(k.push(b).drop_last() =~= k);
        }
    }
}

proof fn lemma_all_points_push(cs: Seq<PointCloudView>, c: PointCloudView)
    ensures
        all_points(cs.push(c)) == all_points(cs) + c.points,
{
    assert(cs.push(c).drop_last() =~= cs);
}

proof fn lemma_block_total_update(bs: Seq<(u128, Seq<PointCloudView>)>, j: int, b: (u128, Seq<PointCloudView>))
    requires
        0 <= j < bs.len(),
    ensures
        block_total(bs.update(j, b)) == block_total(bs) - all_points(bs[j].1).len() + all_points(b.1).len(),
    decreases bs.len(),
{
    let u = bs.update(j, b);
    if j == bs.len() - 1 {
        assert(u.drop_last() =~= bs.drop_last());
    } else {
        assert(u.drop_last() =~= bs.drop_last().update(j, b));
        lemma_block_total_update(bs.drop_last(), j, b);
    }
}

proof fn lemma_block_total_insert(bs: Seq<(u128, Seq<PointCloudView>)>, p: int, b: (u128, Seq<PointCloudView>))
    requires
        0 <= p <= bs.len(),
    ensures
        block_total(bs.insert(p, b)) == block_total(bs) + all_points(b.1).len(),
    decreases bs.len(),
{
    let u = bs.insert(p, b);
    if p == bs.len() {
        assert(u.drop_last() =~= bs);
    } else {
        assert(u.drop_last() =~= bs.drop_last().insert(p, b));
        assert(u.last() == bs.last());
        lemma_block_total_insert(bs.drop_last(), p, b);
    }
}

proof fn lemma_keys_below_bounded(ks: Seq<u128>, k: u128)
    ensures
        keys_below(ks, k) <= ks.len(),
    decreases ks.len(),
{
    if ks.len() > 0 {
        lemma_keys_below_bounded(ks.drop_last(), k);
    }
}

/// Filing a cloud adds its points to the blocks.
pub proof fn lemma_filing_adds_points(bs: Seq<(u128, Seq<PointCloudView>)>, k: u128, item: PointCloudView)
    ensures
        block_total(filed(bs, k, item)) == block_total(bs) + item.points.len(),
{
    if block_keys(bs).contains(k) {
        let j = block_keys(bs).index_of(k);
        lemma_all_points_push(bs[j].1, item);
        lemma_block_total_update(bs, j, (k, bs[j].1.push(item)));
    } else {
        let b = (k, seq![item]);
        lemma_keys_below_bounded(block_keys(bs), k);
        lemma_block_total_insert(bs, keys_below(block_keys(bs), k) as int, b);
        assert(seq![item] == Seq::<PointCloudView>::empty().push(item));
        lemma_all_points_push(Seq::<PointCloudView>::empty(), item);
        assert(Seq::<[u32; 4]>::empty() + item.points =~= item.points);
    }
}

/// Where the keys below `j` lie under `k` and the others above it, `j`
/// keys lie below `k`.
proof fn lemma_keys_below_split(ks: Seq<u128>, k: u128, j: int)
    requires
        0 <= j <= ks.len(),
        forall|i: int| 0 <= i < j ==> ks[i] < k,
        forall|i: int| j <= i < ks.len() ==> ks[i] > k,
    ensures
        keys_below(ks, k) == j,
    decreases ks.len(),
{
    if ks.len() > 0 {
        let d = ks.drop_last();
        if ks.last() < k {
            assert(j == ks.len()) by {
                if j < ks.len() {
                    assert(ks[ks.len() - 1] > k);
                }
            }
            lemma_keys_below_split(d, k, j - 1);
        } else {
            lemma_keys_below_split(d, k, j);
        }
    }
}

/// Where the clock does not go back, a block that is still open when an
/// item is filed lies after every block that was finished before.
pub proof fn lemma_later_block_follows_finished(finished: u128, finished_at: u128, block: u128, filed_at: u128, threshold: u128)
    requires
        is_block_old(finished, finished_at, threshold),
        finished_at <= filed_at,
        !is_block_old(block, filed_at, threshold),
    ensures
        finished < block,
{
}

/// Merges the clouds of a block, in order, into the first one, stamped with
/// the block.
fn merge_clouds(clouds: Vec<PointCloud>, block: u128) -> (r: PointCloud)
    requires
        clouds@.len() > 0,
    ensures
        r@ == merge_block(block, clouds_view(clouds@)),
{
    let ghost cs = clouds_view(clouds@);
    let total = clouds.len();
    let mut clouds = clouds;
    let ghost c0 = clouds@[0];
    let mut first = clouds.remove(0);
    let mut i: usize = 1;
    proof {
        assert(first == c0);
        assert(cs[0] == first@);
        assert(cs.subrange(0, 1).last() == cs[0]);
        assert(cs.subrange(0, 1).drop_last() =~= Seq::<PointCloudView>::empty());
        let s1 = cs.subrange(0, 1);
        assert(all_points(s1.drop_last()) == Seq::<[u32; 4]>::empty());
        assert(all_metadata(s1.drop_last()) == Seq::<PointMetaDataView>::empty());
        assert(Seq::<[u32; 4]>::empty() + first@.points =~= first@.points);
        assert(Seq::<PointMetaDataView>::empty() + first@.metadata =~= first@.metadata);
        assert(all_points(s1) == first@.points);
        assert(all_metadata(s1) == first@.metadata);
    }
    while clouds.len() > 0
        invariant
            1 <= i <= cs.len(),
            total == cs.len(),
            clouds@.len() + i == cs.len(),
            forall|k: int| 0 <= k < clouds@.len() ==> #[trigger] clouds@[k]@ == cs[i + k],
            first@.points == all_points(cs.subrange(0, i as int)),
            first@.metadata == all_metadata(cs.subrange(0, i as int)),
        decreases clouds@.len(),
    {
        let mut next = clouds.remove(0);
        proof {
            let s = cs.subrange(0, i + 1);
            assert(s.drop_last() =~= cs.subrange(0, i as int));
            assert(s.last() == next@);
        }
        first.extend(&mut next);
        i += 1;
    }
    first.time = block;
    assert(cs.subrange(0, i as int) =~= cs);
    first
}

pub struct AccumulatorView {
    pub blocks: Seq<(u128, Seq<PointCloudView>)>,
    pub finished: Seq<PointCloudView>,
    pub threshold: u128,
    pub peeked: bool,
}

/// Gathers clouds into time blocks and queues each block once it is old.
///
/// The blocks are held in a vector that rises by key rather than in a hash
/// map: a hash map hands its keys out in no fixed order, and the finished
/// blocks are to queue oldest first.
pub struct Accumulator {
    blocks: Vec<(u128, Vec<PointCloud>)>,
    finished: VecDeque<PointCloud>,
    threshold: u128,
    peeked: bool,
}

pub open spec fn clouds_view(v: Seq<PointCloud>) -> Seq<PointCloudView> {
    v.map_values(|c: PointCloud| c@)
}

impl View for Accumulator {
    type V = AccumulatorView;

    closed spec fn view(&self) -> AccumulatorView {
        AccumulatorView {
            blocks: self.blocks@.map_values(|b: (u128, Vec<PointCloud>)| (b.0, clouds_view(b.1@))),
            finished: clouds_view(self.finished@),
            threshold: self.threshold,
            peeked: self.peeked,
        }
    }
}

impl Accumulator {
    /// The blocks rise by key, and each holds a cloud.
    pub open spec fn wf(&self) -> bool {
        wf_blocks(self@.blocks)
    }

    /// The finished clouds rise by time, oldest at the front, and all of
    /// them are older than every open block.
    pub open spec fn ordered(&self) -> bool {
        &&& strictly_ascending(times(self@.finished))
        &&& forall|i: int, j: int|
            0 <= i < self@.finished.len() && 0 <= j < self@.blocks.len() ==> #[trigger] self@.finished[i].time
                < #[trigger] self@.blocks[j].0
    }

    pub fn new(threshold: u128) -> (r: Accumulator)
        ensures
            r.wf(),
            r.ordered(),
            r@.blocks.len() == 0,
            r@.finished.len() == 0,
            r@.threshold == threshold,
            !r@.peeked,
    {
        let r = Accumulator { blocks: Vec::new(), finished: VecDeque::new(), threshold, peeked: false };
        assert(r@.blocks =~= Seq::<(u128, Seq<PointCloudView>)>::empty());
        assert(r@.finished =~= Seq::<PointCloudView>::empty());
        r
    }

    fn get_block_for_item(&self, item: &PointCloud) -> (r: u128)
        ensures
            r == block_of(item.time),
    {
        item.time - (item.time % 100)
    }

    fn is_block_old_at(&self, block: u128, now: u128) -> (r: bool)
        ensures
            r == is_block_old(block, now, self@.threshold),
    {
        (now > block) && (now - block > self.threshold)
    }

    /// At `now`, files the item in its block unless that block is already
    /// old, in which case the item is dropped. A new block takes its place
    /// by key.
    pub fn push_at(&mut self, item: PointCloud, now: u128)
        requires
            old(self).wf(),
        ensures
            final(self).wf(),
            final(self)@.finished == old(self)@.finished,
            final(self)@.threshold == old(self)@.threshold,
            final(self)@.peeked == old(self)@.peeked,
            final(self)@.blocks == if is_block_old(block_of(item@.time), now, old(self)@.threshold) {
                old(self)@.blocks
            } else {
                filed(old(self)@.blocks, block_of(item@.time), item@)
            },
            old(self).ordered() && (old(self)@.finished.len() == 0 || old(self)@.finished.last().time < block_of(
                item@.time,
            )) ==> final(self).ordered(),
    {
        let block = self.get_block_for_item(&item);
        if self.is_block_old_at(block, now) {
            return;
        }
        let ghost bs = self@.blocks;
        let ghost ks = block_keys(bs);
        let ghost iv = item@;
        let ghost was_ordered = self.ordered();
        let mut j: usize = 0;
        while j < self.blocks.len() && self.blocks[j].0 < block
            invariant
                0 <= j <= self.blocks@.len(),
                bs == self@.blocks,
                ks == block_keys(bs),
                forall|l: int| 0 <= l < j ==> #[trigger] ks[l] < block,
            decreases self.blocks@.len() - j,
        {
            j += 1;
        }
        proof {
            assert(ks.len() == bs.len());
            assert(bs.len() == self.blocks@.len());
        }
        if j < self.blocks.len() && self.blocks[j].0 == block {
            let (k, mut clouds) = self.blocks.remove(j);
            let ghost cv = clouds_view(clouds@);
            clouds.push(item);
            self.blocks.insert(j, (k, clouds));
            proof {
                assert(ks[j as int] == block);
                assert(ks.contains(block));
                assert(ks.index_of(block) == j) by {
                    let m = ks.index_of(block);
                    assert(ks[m] == block);
                    if m < j {
                        assert(ks[m] < ks[j as int]);
                    } else if m > j {
                        assert(ks[j as int] < ks[m]);
                    }
                }
                assert(clouds_view(clouds@) =~= cv.push(iv));
                assert(self@.blocks =~= filed(bs, block, iv));
                assert(block_keys(self@.blocks) =~= ks);
                assert forall|i: int| 0 <= i < self@.blocks.len() implies (#[trigger] self@.blocks[i]).1.len() > 0 by {
                    assert(bs[i].1.len() > 0);
                }
            }
        } else {
            let mut clouds: Vec<PointCloud> = Vec::new();
            clouds.push(item);
            self.blocks.insert(j, (block, clouds));
            proof {
                assert forall|i: int| j <= i < ks.len() implies ks[i] > block by {
                    if i > j {
                        assert(ks[j as int] < ks[i]);
                    }
                }
                assert(!ks.contains(block)) by {
                    if ks.contains(block) {
                        let l = choose|l: int| 0 <= l < ks.len() && ks[l] == block;
                        assert(ks[l] != block);
                    }
                }
                lemma_keys_below_split(ks, block, j as int);
                assert(clouds_view(clouds@) =~= seq![iv]);
                assert(self@.blocks =~= filed(bs, block, iv));
                let nk = block_keys(self@.blocks);
                assert(nk =~= ks.insert(j as int, block));
                assert forall|a: int, c: int| 0 <= a < c < nk.len() implies nk[a] < nk[c] by {
                    if c < j {
                        assert(ks[a] < ks[c]);
                    } else if c == j {
                        assert(ks[a] < block);
                    } else if a < j {
                        assert(ks[a] < block);
                        assert(ks[c - 1] > block);
                    } else if a == j {
                        assert(ks[c - 1] > block);
                    } else {
                        assert(ks[a - 1] < ks[c - 1]);
                    }
                }
                assert forall|i: int| 0 <= i < self@.blocks.len() implies (#[trigger] self@.blocks[i]).1.len() > 0 by {
                    if i < j {
                        assert(self@.blocks[i] == bs[i]);
                    } else if i > j {
                        assert(self@.blocks[i] == bs[i - 1]);
                    }
                }
                if was_ordered && (self@.finished.len() == 0 || self@.finished.last().time < block) {
                    let f = self@.finished;
                    assert forall|a: int, c: int| 0 <= a < f.len() && 0 <= c < self@.blocks.len() implies #[trigger] f[a].time
                        < #[trigger] self@.blocks[c].0 by {
                        if c < j {
                            assert(self@.blocks[c] == bs[c]);
                        } else if c > j {
                            assert(self@.blocks[c] == bs[c - 1]);
                        } else {
                            if a < f.len() - 1 {
                                assert(times(f)[a] < times(f)[f.len() - 1]);
                            }
                        }
                    }
                }
            }
        }
    }

    /// Files the item by the clock.
    pub fn push(&mut self, item: PointCloud)
        requires
            old(self).wf(),
        ensures
            final(self).wf(),
            final(self)@.finished == old(self)@.finished,
            final(self)@.threshold == old(self)@.threshold,
            final(self)@.peeked == old(self)@.peeked,
            exists|now: u128|
                final(self)@.blocks == if #[trigger] is_block_old(block_of(item@.time), now, old(self)@.threshold) {
                    old(self)@.blocks
                } else {
                    filed(old(self)@.blocks, block_of(item@.time), item@)
                },
            old(self).ordered() && (old(self)@.finished.len() == 0 || old(self)@.finished.last().time < block_of(
                item@.time,
            )) ==> final(self).ordered(),
    {
        self.push_at(item, unix_time_millis());
    }

    /// Files each item by the clock, in order.
    pub fn push_multiple(&mut self, items: Vec<PointCloud>)
        requires
            old(self).wf(),
        ensures
            final(self).wf(),
            final(self)@.finished == old(self)@.finished,
            final(self)@.threshold == old(self)@.threshold,
            final(self)@.peeked == old(self)@.peeked,
            exists|kept: Seq<bool>|
                kept.len() == items@.len() && final(self)@.blocks == #[trigger] file_all(
                    old(self)@.blocks,
                    clouds_view(items@),
                    kept,
                ),
            old(self).ordered() && (old(self)@.finished.len() == 0 || forall|i: int|
                0 <= i < items@.len() ==> old(self)@.finished.last().time < block_of(#[trigger] items@[i].time))
                ==> final(self).ordered(),
    {
        let ghost keeps_order = old(self).ordered() && (old(self)@.finished.len() == 0 || forall|i: int|
            0 <= i < items@.len() ==> old(self)@.finished.last().time < block_of(#[trigger] items@[i].time));
        let ghost all = clouds_view(items@);
        proof {
            assert forall|i: int| 0 <= i < items@.len() implies #[trigger] all[i].time == items@[i].time by {}
            if old(self)@.finished.len() > 0 {
                let t = old(self)@.finished.last().time;
                assert((forall|i: int| 0 <= i < items@.len() ==> t < block_of(#[trigger] items@[i].time)) == (
                forall|i: int| 0 <= i < all.len() ==> t < block_of(#[trigger] all[i].time))) by {
                    if forall|i: int| 0 <= i < items@.len() ==> t < block_of(#[trigger] items@[i].time) {
                        assert forall|i: int| 0 <= i < all.len() implies t < block_of(#[trigger] all[i].time) by {
                            assert(all[i].time == items@[i].time);
                        }
                    }
                    if forall|i: int| 0 <= i < all.len() ==> t < block_of(#[trigger] all[i].time) {
                        assert forall|i: int| 0 <= i < items@.len() implies t < block_of(#[trigger] items@[i].time) by {
                            assert(all[i].time == items@[i].time);
                        }
                    }
                }
            }
        }
        let mut items = items;
        let mut stack: Vec<PointCloud> = Vec::new();
        while items.len() > 0
            invariant
                items@.len() + stack@.len() == all.len(),
                forall|k: int| 0 <= k < items@.len() ==> #[trigger] items@[k]@ == all[k],
                forall|k: int| 0 <= k < stack@.len() ==> #[trigger] stack@[k]@ == all[all.len() - 1 - k],
            decreases items@.len(),
        {
            let item = items.pop().unwrap();
            stack.push(item);
        }
        let ghost mut done: int = 0;
        let ghost mut kept: Seq<bool> = Seq::empty();
        proof {
            assert(all.subrange(0, 0) =~= Seq::<PointCloudView>::empty());
        }
        while stack.len() > 0
            invariant
                self.wf(),
                self@.finished == old(self)@.finished,
                self@.threshold == old(self)@.threshold,
                self@.peeked == old(self)@.peeked,
                done + stack@.len() == all.len(),
                0 <= done <= all.len(),
                forall|k: int| 0 <= k < stack@.len() ==> #[trigger] stack@[k]@ == all[all.len() - 1 - k],
                kept.len() == done,
                self@.blocks == file_all(old(self)@.blocks, all.subrange(0, done), kept),
                keeps_order == (old(self).ordered() && (old(self)@.finished.len() == 0 || forall|i: int|
                    0 <= i < all.len() ==> old(self)@.finished.last().time < block_of(#[trigger] all[i].time))),
                keeps_order ==> self.ordered(),
            decreases stack@.len(),
        {
            let item = stack.pop().unwrap();
            let ghost mid = self@.blocks;
            let ghost iv = item@;
            proof {
                if keeps_order && self@.finished.len() > 0 {
                    assert(iv == all[done]);
                    assert(old(self)@.finished.last().time < block_of(all[done].time));
                }
            }
            self.push(item);
            proof {
                let next = all.subrange(0, done + 1);
                assert(next.drop_last() =~= all.subrange(0, done));
                assert(next.last() == iv);
                assert(self@.blocks == mid || self@.blocks == filed(mid, block_of(next.last().time), next.last()));
                let k = self@.blocks != mid;
                let kept2 = kept.push(k);
                assert(kept2.drop_last() =~= kept);
                assert(self@.blocks == file_all(old(self)@.blocks, next, kept2));
                kept = kept2;
                done = done + 1;
            }
        }
        proof {
            assert(all.subrange(0, done) =~= all);
            assert(self@.blocks == file_all(old(self)@.blocks, all, kept));
        }
    }

    /// At `now`, queues every block that is old, merged into one cloud,
    /// oldest block first; the other blocks stay open.
    pub fn reorganize_at(&mut self, now: u128)
        requires
            old(self).wf(),
        ensures
            final(self).wf(),
            final(self)@.blocks == kept_blocks(old(self)@.blocks, now, old(self)@.threshold),
            final(self)@.finished == old(self)@.finished + finished_blocks(
                old(self)@.blocks,
                now,
                old(self)@.threshold,
            ),
            final(self)@.threshold == old(self)@.threshold,
            final(self)@.peeked == (old(self)@.peeked && finished_blocks(
                old(self)@.blocks,
                now,
                old(self)@.threshold,
            ).len() == 0),
            strictly_ascending(times(finished_blocks(old(self)@.blocks, now, old(self)@.threshold))),
            forall|i: int, j: int|
                0 <= i < finished_blocks(old(self)@.blocks, now, old(self)@.threshold).len() && 0 <= j
                    < final(self)@.blocks.len() ==> #[trigger] finished_blocks(
                    old(self)@.blocks,
                    now,
                    old(self)@.threshold,
                )[i].time < #[trigger] final(self)@.blocks[j].0,
            old(self).ordered() ==> final(self).ordered(),
    {
        let ghost was_ordered = self.ordered();
        let ghost bs = self@.blocks;
        let ghost f0 = self@.finished;
        let ghost p0 = self@.peeked;
        let mut taken: Vec<(u128, Vec<PointCloud>)> = Vec::new();
        std::mem::swap(&mut taken, &mut self.blocks);
        let n_exec = taken.len();
        let ghost n = n_exec as nat;
        let mut stack: Vec<(u128, Vec<PointCloud>)> = Vec::new();
        while taken.len() > 0
            invariant
                taken@.len() + stack@.len() == n,
                n == bs.len(),
                forall|k: int| 0 <= k < taken@.len() ==> (#[trigger] taken@[k]).0 == bs[k].0 && clouds_view(taken@[k].1@) == bs[k].1,
                forall|k: int| 0 <= k < stack@.len() ==> (#[trigger] stack@[k]).0 == bs[n - 1 - k].0 && clouds_view(stack@[k].1@) == bs[n - 1 - k].1,
            decreases taken@.len(),
        {
            let b = taken.pop().unwrap();
            stack.push(b);
        }
        let mut kept: Vec<(u128, Vec<PointCloud>)> = Vec::new();
        let mut i: usize = 0;
        proof {
            assert(bs.subrange(0, 0) =~= Seq::<(u128, Seq<PointCloudView>)>::empty());
            assert(kept@.map_values(|b: (u128, Vec<PointCloud>)| (b.0, clouds_view(b.1@))) =~= kept_blocks(bs.subrange(0, 0), now, self.threshold));
            assert(self@.finished =~= f0 + finished_blocks(bs.subrange(0, 0), now, self.threshold));
        }
        while stack.len() > 0
            invariant
                n == bs.len(),
                n == n_exec,
                i + stack@.len() == n,
                forall|k: int| 0 <= k < stack@.len() ==> (#[trigger] stack@[k]).0 == bs[n - 1 - k].0 && clouds_view(stack@[k].1@) == bs[n - 1 - k].1,
                self.threshold == old(self)@.threshold,
                kept@.map_values(|b: (u128, Vec<PointCloud>)| (b.0, clouds_view(b.1@))) == kept_blocks(bs.subrange(0, i as int), now, self.threshold),
                self@.finished == f0 + finished_blocks(bs.subrange(0, i as int), now, self.threshold),
                self.peeked == (p0 && finished_blocks(bs.subrange(0, i as int), now, self.threshold).len() == 0),
            decreases stack@.len(),
        {
            let (block, clouds) = stack.pop().unwrap();
            let ghost sub = bs.subrange(0, i + 1);
            proof {
                assert(sub.drop_last() =~= bs.subrange(0, i as int));
                assert(sub.last() == bs[i as int]);
            }
            let ghost kv = kept@.map_values(|b: (u128, Vec<PointCloud>)| (b.0, clouds_view(b.1@)));
            let ghost fv = self@.finished;
            if self.is_block_old_at(block, now) {
                if clouds.len() > 0 {
                    let merged = merge_clouds(clouds, block);
                    self.finished.push_back(merged);
                    self.peeked = false;
                    proof {
                        assert(self@.finished =~= fv.push(merge_block(block, bs[i as int].1)));
                        assert(f0 + finished_blocks(sub.drop_last(), now, self.threshold).push(
                            merge_block(block, bs[i as int].1),
                        ) =~= fv.push(merge_block(block, bs[i as int].1)));
                    }
                }
            } else {
                let ghost bv = (block, clouds_view(clouds@));
                kept.push((block, clouds));
                proof {
                    assert(kept@.map_values(|b: (u128, Vec<PointCloud>)| (b.0, clouds_view(b.1@))) =~= kv.push(bv));
                }
            }
            i += 1;
        }
        proof {
            assert(bs.subrange(0, n as int) =~= bs);
        }
        self.blocks = kept;
        proof {
            lemma_kept_wf(bs, now, self.threshold);
            lemma_finished_sorted(bs, now, self.threshold);
            if was_ordered {
                lemma_reorganize_keeps_order(f0, bs, now, self.threshold);
            }
        }
    }

    /// Queues the old blocks by the clock, oldest first.
    pub fn reorganize(&mut self)
        requires
            old(self).wf(),
        ensures
            final(self).wf(),
            final(self)@.threshold == old(self)@.threshold,
            old(self).ordered() ==> final(self).ordered(),
            exists|now: u128|
                final(self)@.blocks == kept_blocks(old(self)@.blocks, now, old(self)@.threshold)
                    && final(self)@.finished == old(self)@.finished + #[trigger] finished_blocks(
                    old(self)@.blocks,
                    now,
                    old(self)@.threshold,
                ) && strictly_ascending(times(finished_blocks(old(self)@.blocks, now, old(self)@.threshold))),
    {
        let now = unix_time_millis();
        self.reorganize_at(now);
    }

    /// Hands over the queue of finished clouds, leaving it empty.
    pub fn pop_finished(&mut self) -> (r: VecDeque<PointCloud>)
        ensures
            clouds_view(r@) == old(self)@.finished,
            final(self)@.finished.len() == 0,
            final(self)@.blocks == old(self)@.blocks,
            final(self)@.threshold == old(self)@.threshold,
            final(self)@.peeked == old(self)@.peeked,
            final(self).wf() == old(self).wf(),
            final(self).ordered(),
    {
        let mut replacement = VecDeque::new();
        std::mem::swap(&mut replacement, &mut self.finished);
        assert(self@.finished =~= Seq::<PointCloudView>::empty());
        replacement
    }

    /// No cloud has been peeked at since the last one was queued.
    pub fn peekable(&self) -> (r: bool)
        ensures
            r == !self@.peeked,
    {
        !self.peeked
    }

    /// A copy of the newest finished cloud, if any, marking it peeked at.
    /// Peeking again before another cloud is queued would wait forever, so
    /// it is left out.
    pub fn peek(&mut self) -> (r: Option<PointCloud>)
        requires
            !old(self)@.peeked,
        ensures
            final(self)@.peeked,
            final(self)@.blocks == old(self)@.blocks,
            final(self)@.finished == old(self)@.finished,
            final(self)@.threshold == old(self)@.threshold,
            final(self).wf() == old(self).wf(),
            final(self).ordered() == old(self).ordered(),
            match r {
                Some(c) => old(self)@.finished.len() > 0 && c@ == old(self)@.finished.last(),
                None => old(self)@.finished.len() == 0,
            },
    {
        self.peeked = true;
        assert(self@.blocks =~= old(self)@.blocks);
        assert(self@.finished =~= old(self)@.finished);
        let len = self.finished.len();
        if len == 0 {
            None
        } else {
            let c = self.finished[len - 1].clone();
            Some(c)
        }
    }

    /// Takes the front of the queue off, which is the oldest finished cloud
    /// while the queue is ordered.
    pub fn pop_single_finished(&mut self) -> (r: Option<PointCloud>)
        ensures
            final(self)@.blocks == old(self)@.blocks,
            final(self)@.threshold == old(self)@.threshold,
            final(self)@.peeked == old(self)@.peeked,
            final(self).wf() == old(self).wf(),
            old(self).ordered() ==> final(self).ordered(),
            match r {
                Some(c) => old(self)@.finished.len() > 0 && c@ == old(self)@.finished[0]
                    && final(self)@.finished == old(self)@.finished.drop_first(),
                None => old(self)@.finished.len() == 0 && final(self)@.finished.len() == 0,
            },
    {
        let r = self.finished.pop_front();
        proof {
            if r is Some {
                assert(self@.finished =~= old(self)@.finished.drop_first());
                if old(self).ordered() {
                    let f = old(self)@.finished;
                    assert forall|a: int, c: int| 0 <= a < c < times(self@.finished).len() implies times(self@.finished)[a]
                        < times(self@.finished)[c] by {
                        assert(times(f)[a + 1] < times(f)[c + 1]);
                    }
                    assert forall|a: int, c: int| 0 <= a < self@.finished.len() && 0 <= c < self@.blocks.len() implies #[trigger] self@.finished[a].time
                        < #[trigger] self@.blocks[c].0 by {
                        assert(f[a + 1].time < old(self)@.blocks[c].0);
                    }
                }
            }
        }
        r
    }

}

} // verus!
