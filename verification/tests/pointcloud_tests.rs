use mmwave::buffer::FrameBuffer;
use mmwave::ids::Id;
use mmwave::devices::plan_device_updates;
use mmwave::message::{Frame, FrameBody, FrameHeader, Tlv, TlvBody, TlvHeader, TlvType};
use mmwave::pointcloud::{merge_pointclouds, IntoPointCloud, PointCloud, PointCloudLike, PointMetaData};

fn meta(label: &str) -> PointMetaData {
    PointMetaData { label: Some(label.to_string()), device: None }
}

fn cloud(time: u128, pts: &[[u32; 4]], label: &str) -> PointCloud {
    PointCloud {
        time,
        points: pts.to_vec(),
        metadata: pts.iter().map(|_| meta(label)).collect(),
    }
}

#[test]
fn extend_moves_points_and_metadata() {
    let mut a = cloud(7, &[[1, 2, 3, 4]], "a");
    let mut b = cloud(9, &[[5, 6, 7, 8], [9, 9, 9, 9]], "b");
    a.extend(&mut b);
    assert_eq!(a.time, 7);
    assert_eq!(a.points, vec![[1, 2, 3, 4], [5, 6, 7, 8], [9, 9, 9, 9]]);
    assert_eq!(a.metadata, vec![meta("a"), meta("b"), meta("b")]);
    assert_eq!(b.time, 9);
    assert!(b.points.is_empty());
    assert!(b.metadata.is_empty());
}

#[test]
fn empty_and_default_clouds() {
    let c = PointCloud::empty_at(123_456);
    assert_eq!(c.time, 56);
    assert!(c.points.is_empty() && c.metadata.is_empty());
    let d = PointCloud::default();
    assert!(d.time < 100);
    assert!(d.points.is_empty() && d.metadata.is_empty());
}

#[test]
fn clone_keeps_everything() {
    let c = cloud(42, &[[1, 1, 1, 1]], "x");
    let d = c.clone();
    assert_eq!(d.time, 42);
    assert_eq!(d.points, c.points);
    assert_eq!(d.metadata, c.metadata);
}

#[test]
fn merge_groups_by_hundred_ms_bucket() {
    let mut clouds = vec![
        cloud(1_005, &[[1, 0, 0, 0]], "a"),
        cloud(1_210, &[[2, 0, 0, 0]], "b"),
        cloud(1_099, &[[3, 0, 0, 0], [4, 0, 0, 0]], "c"),
        cloud(1_200, &[], "d"),
    ];
    let merged = merge_pointclouds(&mut clouds);
    assert_eq!(merged.len(), 2);
    assert_eq!(merged[0].time, 1_000);
    assert_eq!(merged[0].points, vec![[1, 0, 0, 0], [3, 0, 0, 0], [4, 0, 0, 0]]);
    assert_eq!(merged[0].metadata, vec![meta("a"), meta("c"), meta("c")]);
    assert_eq!(merged[1].time, 1_200);
    assert_eq!(merged[1].points, vec![[2, 0, 0, 0]]);
    let total: usize = merged.iter().map(|c| c.points.len()).sum();
    assert_eq!(total, 4);

    // The inputs keep their times and lose their points.
    assert_eq!(clouds.len(), 4);
    assert_eq!(clouds[2].time, 1_099);
    assert!(clouds.iter().all(|c| c.points.is_empty() && c.metadata.is_empty()));
    assert!(merge_pointclouds(&mut Vec::new()).is_empty());
}

fn frame(version: u32, tlvs: Vec<Tlv>) -> Frame {
    Frame {
        frame_header: FrameHeader {
            magic_word: [0x0102, 0x0304, 0x0506, 0x0708],
            version,
            packet_length: 0,
            platform: 0,
            frame_number: 1,
            time: 0,
            num_detected: 0,
            num_tlvs: tlvs.len() as u32,
            subframe_num: 0,
        },
        frame_body: FrameBody { tlvs },
    }
}

fn tlv(t: TlvType, body: TlvBody) -> Tlv {
    Tlv { tlv_header: TlvHeader { tlv_type: t, length: 0 }, tlv_body: body }
}

#[test]
fn frame_into_point_cloud_takes_the_first_point_cloud_record() {
    let f = frame(
        0x0305,
        vec![
            tlv(TlvType::Statistics, TlvBody::Statistics([0; 6])),
            tlv(TlvType::PointCloud, TlvBody::PointCloud(vec![[1, 2, 3, 4], [5, 6, 7, 8]])),
            tlv(TlvType::PointCloud, TlvBody::PointCloud(vec![[9, 9, 9, 9]])),
        ],
    );
    let c = f.into_point_cloud();
    assert_eq!(c.points, vec![[1, 2, 3, 4], [5, 6, 7, 8]]);
    assert_eq!(c.metadata.len(), 2);
    for m in &c.metadata {
        assert_eq!(m.label.as_deref(), Some("mmwave"));
        assert_eq!(m.device.as_deref(), Some("773"));
    }

    let none = frame(1, vec![tlv(TlvType::Statistics, TlvBody::Statistics([0; 6]))]).into_point_cloud();
    assert!(none.points.is_empty() && none.metadata.is_empty());
}

#[test]
fn point_cloud_like_into_point_cloud() {
    let c = PointCloudLike::PointCloud(cloud(5, &[[1, 1, 1, 1]], "z")).into_point_cloud();
    assert_eq!(c.time, 5);
    assert_eq!(c.metadata, vec![meta("z")]);
    let c = PointCloudLike::ZedCameraFrame.into_point_cloud();
    assert!(c.points.is_empty());
    let f = frame(2, vec![tlv(TlvType::PointCloud, TlvBody::PointCloud(vec![[0, 0, 0, 1]]))]);
    let c = PointCloudLike::AWRFrame(f).into_point_cloud();
    assert_eq!(c.points, vec![[0, 0, 0, 1]]);
    assert_eq!(c.metadata[0].device.as_deref(), Some("2"));
}

#[test]
fn frame_buffer_rolls_over_after_its_duration() {
    let mut fb = FrameBuffer::new(1_000_000);
    assert_eq!(fb.buffer_duration, 1_000_000);
    let mut a = cloud(1, &[[1, 0, 0, 0]], "a");
    fb.push_frame(&mut a);
    assert!(a.points.is_empty());
    assert_eq!(fb.filling.points, vec![[1, 0, 0, 0]]);
    assert!(fb.get().points.is_empty());

    fb.reorganize_after(1_000_000);
    assert_eq!(fb.filling.points.len(), 1);
    fb.reorganize_after(1_000_001);
    assert_eq!(fb.finished.points, vec![[1, 0, 0, 0]]);
    assert!(fb.filling.points.is_empty());
    assert_eq!(fb.get().points, vec![[1, 0, 0, 0]]);

    let d = FrameBuffer::default();
    assert_eq!(d.buffer_duration, 100);
}

#[test]
fn device_update_plan() {
    let m = Id::Machine(1);
    let running = vec![Id::Device(1, 1), Id::Device(1, 2), Id::Device(2, 1)];
    let configured = vec![Id::Device(1, 2), Id::Device(1, 3), Id::Device(2, 5), Id::Device(1, 3)];
    let plan = plan_device_updates(&running, &configured, m);
    assert_eq!(plan.start, vec![Id::Device(1, 3)]);
    assert_eq!(plan.stop, vec![Id::Device(1, 1), Id::Device(2, 1)]);

    let plan = plan_device_updates(&Vec::new(), &configured, Id::Machine(2));
    assert_eq!(plan.start, vec![Id::Device(2, 5)]);
    assert!(plan.stop.is_empty());
}
