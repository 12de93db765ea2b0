//! Point clouds as the radars hand them on: a time in milliseconds, points,
//! and one metadata entry per point. Coordinates are carried as the IEEE-754
//! bit patterns of the `f32` values `x, y, z, velocity`.

use vstd::prelude::*;
use crate::ids::{decimal, push_decimal};
use crate::message::{Frame, Tlv, TlvBody};

verus! {

/// What is known about one point.
#[derive(Debug, PartialEq, Eq)]
pub struct PointMetaData {
    pub label: Option<String>,
    pub device: Option<String>,
}

pub struct PointMetaDataView {
    pub label: Option<Seq<char>>,
    pub device: Option<Seq<char>>,
}

pub open spec fn opt_view(o: Option<String>) -> Option<Seq<char>> {
    match o {
        Some(s) => Some(s@),
        None => None,
    }
}

impl View for PointMetaData {
    type V = PointMetaDataView;

    open spec fn view(&self) -> PointMetaDataView {
        PointMetaDataView { label: opt_view(self.label), device: opt_view(self.device) }
    }
}

/// A cloud of points taken at one time.
#[derive(Debug)]
pub struct PointCloud {
    pub time: u128,
    pub points: Vec<[u32; 4]>,
    pub metadata: Vec<PointMetaData>,
}

pub struct PointCloudView {
    pub time: u128,
    pub points: Seq<[u32; 4]>,
    pub metadata: Seq<PointMetaDataView>,
}

impl View for PointCloud {
    type V = PointCloudView;

    open spec fn view(&self) -> PointCloudView {
        PointCloudView {
            time: self.time,
            points: self.points@,
            metadata: self.metadata@.map_values(|m: PointMetaData| m@),
        }
    }
}

#[verifier::external_type_specification]
#[verifier::external_body]
pub struct ExSystemTime(std::time::SystemTime);

/// Calls `std::time::SystemTime::now`. Nothing is claimed of the value: it
/// is the time.
#[verifier::external_body]
fn system_now() -> std::time::SystemTime {
    std::time::SystemTime::now()
}

/// Calls `SystemTime::duration_since` with `UNIX_EPOCH`; absent where the
/// time lies before the epoch. Nothing is claimed of the value.
#[verifier::external_body]
fn since_unix_epoch(t: std::time::SystemTime) -> Option<std::time::Duration> {
    match t.duration_since(std::time::UNIX_EPOCH) {
        Ok(d) => Some(d),
        Err(_) => None,
    }
}

/// Calls `Duration::as_millis`. Nothing is claimed of the value, which the
/// library does not model.
#[verifier::external_body]
pub(crate) fn duration_millis(d: &std::time::Duration) -> u128 {
    d.as_millis()
}

/// The milliseconds since the Unix epoch on the system clock, 0 where the
/// clock stands before the epoch.
pub(crate) fn unix_time_millis() -> u128 {
    match since_unix_epoch(system_now()) {
        Some(d) => duration_millis(&d),
        None => 0,
    }
}

fn clone_opt_string(o: &Option<String>) -> (r: Option<String>)
    ensures
        opt_view(r) == opt_view(*o),
{
    match o {
        Some(s) => Some(s.clone()),
        None => None,
    }
}

impl Clone for PointMetaData {
    fn clone(&self) -> (r: PointMetaData)
        ensures
            r@ == self@,
    {
        PointMetaData { label: clone_opt_string(&self.label), device: clone_opt_string(&self.device) }
    }
}

impl Clone for PointCloud {
    fn clone(&self) -> (r: PointCloud)
        ensures
            r@ == self@,
    {
        let mut points: Vec<[u32; 4]> = Vec::new();
        let mut i: usize = 0;
        while i < self.points.len()
            invariant
                0 <= i <= self.points@.len(),
                points@ =~= self.points@.subrange(0, i as int),
            decreases self.points@.len() - i,
        {
            let p = self.points[i];
            points.push(p);
            i += 1;
        }
        let mut metadata: Vec<PointMetaData> = Vec::new();
        let mut j: usize = 0;
        while j < self.metadata.len()
            invariant
                0 <= j <= self.metadata@.len(),
                metadata@.len() == j,
                forall|k: int| 0 <= k < j ==> #[trigger] metadata@[k]@ == self.metadata@[k]@,
            decreases self.metadata@.len() - j,
        {
            let m = self.metadata[j].clone();
            metadata.push(m);
            j += 1;
        }
        let r = PointCloud { time: self.time, points, metadata };
        assert(r@.points =~= self@.points);
        assert(r@.metadata =~= self@.metadata);
        r
    }
}

impl PointCloud {
    /// An empty cloud whose time is the given clock reading modulo 100.
    pub fn empty_at(now_millis: u128) -> (r: PointCloud)
        ensures
            r@.time == now_millis % 100,
            r@.points.len() == 0,
            r@.metadata.len() == 0,
    {
        PointCloud { time: now_millis % 100, points: Vec::new(), metadata: Vec::new() }
    }

    /// Moves the points and metadata of `other` onto the end of this cloud,
    /// leaving `other` empty.
    pub fn extend(&mut self, other: &mut PointCloud)
        ensures
            final(self)@.time == old(self)@.time,
            final(self)@.points == old(self)@.points + old(other)@.points,
            final(self)@.metadata == old(self)@.metadata + old(other)@.metadata,
            final(other)@.time == old(other)@.time,
            final(other)@.points.len() == 0,
            final(other)@.metadata.len() == 0,
    {
        let ghost m1 = self.metadata@;
        let ghost m2 = other.metadata@;
        self.points.append(&mut other.points);
        self.metadata.append(&mut other.metadata);
        proof {
            assert(self.metadata@ == m1 + m2);
            assert(self.metadata@.map_values(|m: PointMetaData| m@) =~= m1.map_values(
                |m: PointMetaData| m@,
            ) + m2.map_values(|m: PointMetaData| m@));
            assert(other.metadata@.map_values(|m: PointMetaData| m@) =~= Seq::<PointMetaDataView>::empty());
        }
    }
}

impl Default for PointCloud {
    /// An empty cloud stamped with the clock's milliseconds modulo 100.
    fn default() -> (r: PointCloud)
        ensures
            r@.time < 100,
            r@.points.len() == 0,
            r@.metadata.len() == 0,
    {
        PointCloud::empty_at(unix_time_millis())
    }
}


/// The 100 ms bucket that a cloud falls in.
pub open spec fn bucket_of(c: PointCloudView) -> u128 {
    c.time / 100
}

/// The buckets that the clouds fall in, each once, in order of first
/// appearance.
pub open spec fn bucket_keys(cs: Seq<PointCloudView>) -> Seq<u128>
    decreases cs.len(),
{
    if cs.len() == 0 {
        Seq::empty()
    } else {
        let ks = bucket_keys(cs.drop_last());
        let k = bucket_of(cs.last());
        if ks.contains(k) {
            ks
        } else {
            ks.push(k)
        }
    }
}

/// The points of the clouds in bucket `k`, in order.
pub open spec fn bucket_points(cs: Seq<PointCloudView>, k: u128) -> Seq<[u32; 4]>
    decreases cs.len(),
{
    if cs.len() == 0 {
        Seq::empty()
    } else {
        let p = bucket_points(cs.drop_last(), k);
        if bucket_of(cs.last()) == k {
            p + cs.last().points
        } else {
            p
        }
    }
}

/// The metadata of the clouds in bucket `k`, in order.
pub open spec fn bucket_metadata(cs: Seq<PointCloudView>, k: u128) -> Seq<PointMetaDataView>
    decreases cs.len(),
{
    if cs.len() == 0 {
        Seq::empty()
    } else {
        let m = bucket_metadata(cs.drop_last(), k);
        if bucket_of(cs.last()) == k {
            m + cs.last().metadata
        } else {
            m
        }
    }
}

/// One cloud per bucket, stamped with the bucket's start, holding all the
/// points and metadata of the clouds in it.
pub open spec fn merged(cs: Seq<PointCloudView>) -> Seq<PointCloudView> {
    let ks = bucket_keys(cs);
    Seq::new(
        ks.len(),
        |j: int|
            PointCloudView {
                time: (ks[j] * 100) as u128,
                points: bucket_points(cs, ks[j]),
                metadata: bucket_metadata(cs, ks[j]),
            },
    )
}

/// A cloud once its points and metadata have been moved out.
pub open spec fn drained(c: PointCloudView) -> PointCloudView {
    PointCloudView { time: c.time, points: Seq::empty(), metadata: Seq::empty() }
}

/// Each bucket appears once among the keys.
pub proof fn lemma_bucket_keys_distinct(cs: Seq<PointCloudView>)
    ensures
        bucket_keys(cs).no_duplicates(),
    decreases cs.len(),
{
    if cs.len() > 0 {
        lemma_bucket_keys_distinct(cs.drop_last());
    }
}

/// Every bucket's start is a millisecond time.
pub proof fn lemma_bucket_keys_bounded(cs: Seq<PointCloudView>)
    ensures
        forall|l: int| 0 <= l < bucket_keys(cs).len() ==> #[trigger] bucket_keys(cs)[l] * 100 <= u128::MAX,
    decreases cs.len(),
{
    if cs.len() > 0 {
        lemma_bucket_keys_bounded(cs.drop_last());
        let t = cs.last().time;
        assert((t / 100) * 100 <= t) by (nonlinear_arith);
        let ks = bucket_keys(cs.drop_last());
        if !ks.contains(bucket_of(cs.last())) {
            assert forall|l: int| 0 <= l < bucket_keys(cs).len() implies #[trigger] bucket_keys(cs)[l] * 100 <= u128::MAX by {
                if l < ks.len() {
                    assert(bucket_keys(cs)[l] == ks[l]);
                }
            }
        }
    }
}

/// A bucket that no cloud falls in is empty.
pub proof fn lemma_absent_bucket_empty(cs: Seq<PointCloudView>, k: u128)
    requires
        !bucket_keys(cs).contains(k),
    ensures
        bucket_points(cs, k) == Seq::<[u32; 4]>::empty(),
        bucket_metadata(cs, k) == Seq::<PointMetaDataView>::empty(),
    decreases cs.len(),
{
    if cs.len() > 0 {
        let ks = bucket_keys(cs.drop_last());
        if ks.contains(k) {
            let l = choose|l: int| 0 <= l < ks.len() && ks[l] == k;
            assert(bucket_keys(cs)[l] == k);
            assert(bucket_keys(cs).contains(k));
        }
        lemma_absent_bucket_empty(cs.drop_last(), k);
        if bucket_of(cs.last()) == k {
            if ks.contains(bucket_of(cs.last())) {
            } else {
                assert(bucket_keys(cs).last() == k);
            }
        }
    }
}


/// How many points the clouds hold together.
pub open spec fn total_points(cs: Seq<PointCloudView>) -> int
    decreases cs.len(),
{
    if cs.len() == 0 {
        0
    } else {
        total_points(cs.drop_last()) + cs.last().points.len()
    }
}

proof fn lemma_total_points_update(cs: Seq<PointCloudView>, j: int, c: PointCloudView)
    requires
        0 <= j < cs.len(),
    ensures
        total_points(cs.update(j, c)) == total_points(cs) - cs[j].points.len() + c.points.len(),
    decreases cs.len(),
{
    let u = cs.update(j, c);
    if j == cs.len() - 1 {
        assert(u.drop_last() =~= cs.drop_last());
    } else {
        assert(u.drop_last() =~= cs.drop_last().update(j, c));
        lemma_total_points_update(cs.drop_last(), j, c);
    }
}

/// Merging keeps every point: the merged clouds hold as many points as the
/// clouds that went in.
pub proof fn lemma_merge_keeps_all_points(cs: Seq<PointCloudView>)
    ensures
        total_points(merged(cs)) == total_points(cs),
    decreases cs.len(),
{
    if cs.len() == 0 {
        assert(merged(cs).len() == 0);
    } else {
        let d = cs.drop_last();
        let c = cs.last();
        let k = bucket_of(c);
        lemma_merge_keeps_all_points(d);
        let ks = bucket_keys(d);
        let md = merged(d);
        lemma_bucket_keys_distinct(d);
        if ks.contains(k) {
            let j = choose|j: int| 0 <= j < ks.len() && ks[j] == k;
            let nb = PointCloudView {
                time: (k * 100) as u128,
                points: bucket_points(d, k) + c.points,
                metadata: bucket_metadata(d, k) + c.metadata,
            };
            assert forall|l: int| 0 <= l < ks.len() implies #[trigger] merged(cs)[l] == md.update(j, nb)[l] by {
                if l != j {
                    assert(ks[l] != k);
                }
            }
            assert(merged(cs) =~= md.update(j, nb));
            lemma_total_points_update(md, j, nb);
        } else {
            lemma_absent_bucket_empty(d, k);
            let nb = PointCloudView {
                time: (k * 100) as u128,
                points: Seq::<[u32; 4]>::empty() + c.points,
                metadata: Seq::<PointMetaDataView>::empty() + c.metadata,
            };
            assert forall|l: int| 0 <= l < ks.len() + 1 implies #[trigger] merged(cs)[l] == md.push(nb)[l] by {
                if l < ks.len() {
                    assert(ks[l] != k);
                }
            }
            assert(merged(cs) =~= md.push(nb));
            assert(md.push(nb).drop_last() =~= md);
            assert(nb.points.len() == c.points.len());
        }
    }
}

pub open spec fn cloud_views(v: Seq<PointCloud>) -> Seq<PointCloudView> {
    v.map_values(|c: PointCloud| c@)
}

/// Merges the clouds into one cloud per 100 ms bucket, moving every point
/// and its metadata into the cloud of its bucket.
///
/// The buckets are gathered in a vector, in the order their first cloud
/// comes, rather than in a hash map, whose order of keys is not fixed from
/// one process to the next; the merged clouds come out in that order.
pub fn merge_pointclouds(point_clouds: &mut Vec<PointCloud>) -> (r: Vec<PointCloud>)
    ensures
        cloud_views(r@) == merged(cloud_views(old(point_clouds)@)),
        final(point_clouds)@.len() == old(point_clouds)@.len(),
        forall|i: int|
            0 <= i < old(point_clouds)@.len() ==> #[trigger] final(point_clouds)@[i]@ == drained(
                old(point_clouds)@[i]@,
            ),
{
    let ghost cs = cloud_views(point_clouds@);
    let n_exec = point_clouds.len();
    let ghost n = n_exec as nat;
    let mut taken: Vec<PointCloud> = Vec::new();
    std::mem::swap(&mut taken, point_clouds);
    let mut stack: Vec<PointCloud> = Vec::new();
    while taken.len() > 0
        invariant
            cs == old(point_clouds)@.map_values(|c: PointCloud| c@),
            n == cs.len(),
            taken@.len() + stack@.len() == n,
            forall|k: int| 0 <= k < taken@.len() ==> #[trigger] taken@[k]@ == cs[k],
            forall|k: int| 0 <= k < stack@.len() ==> #[trigger] stack@[k]@ == cs[n - 1 - k],
        decreases taken@.len(),
    {
        let c = taken.pop().unwrap();
        stack.push(c);
    }
    let mut out: Vec<PointCloud> = Vec::new();
    let mut i: usize = 0;
    proof {
        assert(cs.subrange(0, 0) =~= Seq::<PointCloudView>::empty());
        assert(cloud_views(out@) =~= merged(cs.subrange(0, 0)));
    }
    while stack.len() > 0
        invariant
            n == cs.len(),
            n <= usize::MAX,
            i + stack@.len() == n,
            forall|k: int| 0 <= k < stack@.len() ==> #[trigger] stack@[k]@ == cs[n - 1 - k],
            point_clouds@.len() == i,
            forall|k: int| 0 <= k < i ==> #[trigger] point_clouds@[k]@ == drained(cs[k]),
            cloud_views(out@) == merged(cs.subrange(0, i as int)),
        decreases stack@.len(),
    {
        let mut c = stack.pop().unwrap();
        assert(c@ == cs[i as int]);
        let ghost before = cs.subrange(0, i as int);
        let ghost after = cs.subrange(0, i + 1);
        let ghost cv = c@;
        proof {
            assert(after.drop_last() =~= before);
            assert(after.last() == cv);
            lemma_bucket_keys_distinct(before);
            lemma_bucket_keys_bounded(before);
        }
        assert(cloud_views(out@).len() == out@.len());
        let key = c.time / 100;
        let start = key * 100;
        let mut j: usize = 0;
        while j < out.len() && out[j].time != start
            invariant
                0 <= j <= out@.len(),
                cloud_views(out@) == merged(before),
                out@.len() == bucket_keys(before).len(),
                start == key * 100,
                forall|l: int| 0 <= l < bucket_keys(before).len() ==> #[trigger] bucket_keys(before)[l] * 100 <= u128::MAX,
                forall|l: int| 0 <= l < j ==> bucket_keys(before)[l] != key,
            decreases out@.len() - j,
        {
            proof {
                assert(cloud_views(out@)[j as int] == out@[j as int]@);
                assert(bucket_keys(before)[j as int] * 100 <= u128::MAX);
            }
            j += 1;
        }
        let ghost ks = bucket_keys(before);
        if j < out.len() {
            assert(cloud_views(out@)[j as int] == out@[j as int]@);
            assert(ks[j as int] * 100 <= u128::MAX);
            assert(cloud_views(out@)[j as int] == merged(before)[j as int]);
            assert(ks[j as int] == key);
            let ghost old_out = cloud_views(out@);
            let mut bucket = out.remove(j);
            bucket.extend(&mut c);
            out.insert(j, bucket);
            proof {
                assert(ks.contains(key));
                assert(bucket_keys(after) == ks);
                assert forall|l: int| 0 <= l < ks.len() implies #[trigger] cloud_views(out@)[l] == merged(after)[l] by {
                    if l != j {
                        assert(ks[l] != key);
                        assert(cloud_views(out@)[l] == old_out[l]);
                    }
                }
                assert(cloud_views(out@) =~= merged(after));
            }
        } else {
            let mut bucket = PointCloud { time: start, points: Vec::new(), metadata: Vec::new() };
            bucket.extend(&mut c);
            let ghost old_out = cloud_views(out@);
            out.push(bucket);
            proof {
                assert(!ks.contains(key)) by {
                    if ks.contains(key) {
                        let l = choose|l: int| 0 <= l < ks.len() && ks[l] == key;
                        assert(bucket_keys(before)[l] != key);
                    }
                }
                lemma_absent_bucket_empty(before, key);
                assert(bucket_keys(after) == ks.push(key));
                assert forall|l: int| 0 <= l < ks.len() + 1 implies #[trigger] cloud_views(out@)[l] == merged(after)[l] by {
                    if l < ks.len() {
                        assert(ks[l] != key);
                        assert(cloud_views(out@)[l] == old_out[l]);
                    } else {
                        assert(Seq::<[u32; 4]>::empty() + cv.points =~= cv.points);
                        assert(Seq::<PointMetaDataView>::empty() + cv.metadata =~= cv.metadata);
                    }
                }
                assert(cloud_views(out@) =~= merged(after));
            }
        }
        assert(c@.points =~= Seq::<[u32; 4]>::empty());
        assert(c@.metadata =~= Seq::<PointMetaDataView>::empty());
        assert(c@ == drained(cs[i as int]));
        point_clouds.push(c);
        i += 1;
    }
    proof {
        assert(cs.subrange(0, n as int) =~= cs);
    }
    out
}


/// Values that can be turned into a point cloud.
pub trait IntoPointCloud: Sized {
    /// The points that the cloud will hold.
    spec fn spec_points(&self) -> Seq<[u32; 4]>;

    /// The metadata that the cloud will hold, one entry per point.
    spec fn spec_metadata(&self) -> Seq<PointMetaDataView>;

    fn into_point_cloud(self) -> (r: PointCloud)
        ensures
            r@.points == self.spec_points(),
            r@.metadata == self.spec_metadata(),
    ;
}

impl IntoPointCloud for PointCloud {
    open spec fn spec_points(&self) -> Seq<[u32; 4]> {
        self@.points
    }

    open spec fn spec_metadata(&self) -> Seq<PointMetaDataView> {
        self@.metadata
    }

    /// A cloud is already a cloud.
    fn into_point_cloud(self) -> (r: PointCloud)
        ensures
            r@ == self@,
    {
        self
    }
}

/// The points of the first point-cloud record among `tlvs`, if any.
pub open spec fn first_point_cloud(tlvs: Seq<Tlv>) -> Option<Seq<[u32; 4]>>
    decreases tlvs.len(),
{
    if tlvs.len() == 0 {
        None
    } else {
        match tlvs[0].tlv_body {
            TlvBody::PointCloud(v) => Some(v@),
            _ => first_point_cloud(tlvs.drop_first()),
        }
    }
}

/// The metadata that a radar frame gives each of its points.
pub open spec fn frame_point_metadata(version: u32) -> PointMetaDataView {
    PointMetaDataView { label: Some("mmwave"@), device: Some(decimal(version as nat)) }
}

impl IntoPointCloud for Frame {
    open spec fn spec_points(&self) -> Seq<[u32; 4]> {
        match first_point_cloud(self.frame_body.tlvs@) {
            Some(p) => p,
            None => Seq::empty(),
        }
    }

    open spec fn spec_metadata(&self) -> Seq<PointMetaDataView> {
        Seq::new(self.spec_points().len(), |i: int| frame_point_metadata(self.frame_header.version))
    }

    /// The points of the frame's first point-cloud record, each labelled
    /// `mmwave` with the frame's version as device, stamped with the clock;
    /// the other records are dropped.
    fn into_point_cloud(self) -> (r: PointCloud) {
        self.into_point_cloud_at(unix_time_millis())
    }
}

impl Frame {
    /// The cloud that the frame gives when the clock reads `now`
    /// milliseconds since the Unix epoch: the points of its first
    /// point-cloud record, each labelled `mmwave` with the frame's version
    /// as device, stamped `now`. A frame without such a record gives an
    /// empty cloud, stamped as a fresh cloud is at that reading.
    pub fn into_point_cloud_at(self, now: u128) -> (r: PointCloud)
        ensures
            r@.points == self.spec_points(),
            r@.metadata == self.spec_metadata(),
            r@.time == if first_point_cloud(self.frame_body.tlvs@) is Some {
                now
            } else {
                now % 100
            },
    {
        let version = self.frame_header.version;
        let mut tlvs = self.frame_body.tlvs;
        let ghost all = tlvs@;
        assert(all.subrange(0, all.len() as int) =~= all);
        let mut i: usize = 0;
        while i < tlvs.len()
            invariant
                tlvs@ == all,
                all == self.frame_body.tlvs@,
                version == self.frame_header.version,
                0 <= i <= all.len(),
                first_point_cloud(all) == first_point_cloud(all.subrange(i as int, all.len() as int)),
            decreases all.len() - i,
        {
            proof {
                assert(all.subrange(i as int, all.len() as int).drop_first() =~= all.subrange(
                    i + 1,
                    all.len() as int,
                ));
            }
            if let TlvBody::PointCloud(_) = &tlvs[i].tlv_body {
                let tlv = tlvs.remove(i);
                assert(tlv == all[i as int]);
                assert(all.subrange(i as int, all.len() as int)[0] == all[i as int]);
                if let TlvBody::PointCloud(points) = tlv.tlv_body {
                    assert(first_point_cloud(all) == Some(points@));
                    let mut metadata: Vec<PointMetaData> = Vec::new();
                    let mut k: usize = 0;
                    while k < points.len()
                        invariant
                            0 <= k <= points@.len(),
                            metadata@.len() == k,
                            forall|l: int| 0 <= l < k ==> #[trigger] metadata@[l]@ == frame_point_metadata(version),
                        decreases points@.len() - k,
                    {
                        let mut device = String::new();
                        push_decimal(&mut device, version as usize);
                        metadata.push(PointMetaData { label: Some(String::from_str("mmwave")), device: Some(device) });
                        k += 1;
                    }
                    let r = PointCloud { time: now, points, metadata };
                    assert(r@.metadata =~= Seq::new(r@.points.len(), |l: int| frame_point_metadata(version)));
                    return r;
                }
            }
            i += 1;
        }
        proof {
            assert(all.subrange(all.len() as int, all.len() as int).len() == 0);
        }
        let r = PointCloud::empty_at(now);
        assert(r@.points =~= Seq::<[u32; 4]>::empty());
        assert(r@.metadata =~= Seq::<PointMetaDataView>::empty());
        r
    }
}

/// Something that a point-cloud provider can hand on.
#[derive(Debug)]
pub enum PointCloudLike {
    PointCloud(PointCloud),
    AWRFrame(Frame),
    ZedCameraFrame,
}

impl IntoPointCloud for PointCloudLike {
    open spec fn spec_points(&self) -> Seq<[u32; 4]> {
        match self {
            PointCloudLike::PointCloud(pc) => pc.spec_points(),
            PointCloudLike::AWRFrame(f) => f.spec_points(),
            PointCloudLike::ZedCameraFrame => Seq::empty(),
        }
    }

    open spec fn spec_metadata(&self) -> Seq<PointMetaDataView> {
        match self {
            PointCloudLike::PointCloud(pc) => pc.spec_metadata(),
            PointCloudLike::AWRFrame(f) => f.spec_metadata(),
            PointCloudLike::ZedCameraFrame => Seq::empty(),
        }
    }

    /// A camera frame carries no points here.
    fn into_point_cloud(self) -> (r: PointCloud) {
        match self {
            PointCloudLike::PointCloud(pc) => pc.into_point_cloud(),
            PointCloudLike::AWRFrame(f) => f.into_point_cloud(),
            PointCloudLike::ZedCameraFrame => {
                let r = PointCloud::default();
                assert(r@.points =~= Seq::<[u32; 4]>::empty());
                assert(r@.metadata =~= Seq::<PointMetaDataView>::empty());
                r
            },
        }
    }
}

} // verus!
