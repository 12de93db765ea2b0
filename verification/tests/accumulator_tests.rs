use mmwave::accumulator::Accumulator;
use mmwave::pointcloud::{PointCloud, PointMetaData};

fn cloud(time: u128, tag: u32, n: usize) -> PointCloud {
    PointCloud {
        time,
        points: (0..n).map(|i| [tag, i as u32, 0, 0]).collect(),
        metadata: (0..n)
            .map(|_| PointMetaData { label: Some(format!("p{}", tag)), device: None })
            .collect(),
    }
}

#[test]
fn old_blocks_are_merged_and_queued_in_order() {
    let mut acc = Accumulator::new(500);
    acc.push_at(cloud(1_010, 1, 2), 1_100);
    acc.push_at(cloud(1_250, 2, 1), 1_300);
    acc.push_at(cloud(1_099, 3, 1), 1_300);
    acc.push_at(cloud(2_000, 4, 1), 2_000);

    // At 1 650 only the block of 1 000 lies more than 500 ms back.
    acc.reorganize_at(1_650);
    let first = acc.pop_finished();
    assert_eq!(first.len(), 1);
    assert_eq!(first[0].time, 1_000);
    assert_eq!(first[0].points, vec![[1, 0, 0, 0], [1, 1, 0, 0], [3, 0, 0, 0]]);
    assert_eq!(first[0].metadata.len(), 3);
    assert_eq!(first[0].metadata[2].label.as_deref(), Some("p3"));

    acc.reorganize_at(10_000);
    let rest = acc.pop_finished();
    assert_eq!(rest.len(), 2);
    assert_eq!(rest[0].time, 1_200);
    assert_eq!(rest[0].points, vec![[2, 0, 0, 0]]);
    assert_eq!(rest[1].time, 2_000);
    assert!(acc.pop_finished().is_empty());
}

#[test]
fn items_of_old_blocks_are_dropped() {
    let mut acc = Accumulator::new(100);
    acc.push_at(cloud(1_000, 1, 1), 1_200);
    acc.push_at(cloud(1_000, 2, 1), 1_100);
    acc.reorganize_at(5_000);
    let done = acc.pop_finished();
    assert_eq!(done.len(), 1);
    assert_eq!(done[0].points, vec![[2, 0, 0, 0]]);
}

#[test]
fn a_block_exactly_at_the_threshold_stays_open() {
    let mut acc = Accumulator::new(300);
    acc.push_at(cloud(700, 1, 1), 700);
    acc.reorganize_at(1_000);
    assert!(acc.pop_finished().is_empty());
    acc.reorganize_at(1_001);
    assert_eq!(acc.pop_finished().len(), 1);
}

#[test]
fn peek_and_pop_single() {
    let mut acc = Accumulator::new(0);
    assert!(acc.peekable());
    assert!(acc.peek().is_none());
    assert!(!acc.peekable());

    acc.push_at(cloud(100, 1, 1), 100);
    acc.push_at(cloud(300, 2, 1), 300);
    acc.reorganize_at(1_000);
    assert!(acc.peekable());
    let newest = acc.peek().unwrap();
    assert_eq!(newest.time, 300);
    assert!(!acc.peekable());

    let oldest = acc.pop_single_finished().unwrap();
    assert_eq!(oldest.time, 100);
    assert_eq!(acc.pop_single_finished().unwrap().time, 300);
    assert!(acc.pop_single_finished().is_none());
}

#[test]
fn push_multiple_and_clock_driven_calls() {
    let mut acc = Accumulator::new(u128::MAX);
    acc.push_multiple(vec![cloud(0, 1, 1), cloud(50, 2, 1)]);
    acc.push(cloud(120, 3, 1));
    // Nothing is ever old with this threshold.
    acc.reorganize();
    assert!(acc.pop_finished().is_empty());
    acc.reorganize_at(u128::MAX);
    assert!(acc.pop_finished().is_empty());
}

#[test]
fn reorganizing_loses_no_point() {
    let mut acc = Accumulator::new(200);
    let times = [5u128, 130, 180, 260, 410, 415, 999];
    let mut pushed = 0;
    for (i, t) in times.iter().enumerate() {
        acc.push_at(cloud(*t, i as u32, i + 1), *t);
        pushed += i + 1;
    }
    let mut seen = 0;
    for now in [300u128, 500, 900, 5_000] {
        acc.reorganize_at(now);
        seen += acc.pop_finished().iter().map(|c| c.points.len()).sum::<usize>();
    }
    assert_eq!(seen, pushed);
}

#[test]
fn finished_blocks_queue_oldest_first() {
    let mut acc = Accumulator::new(1000);
    acc.push_at(cloud(250, 1, 1), 300);
    acc.push_at(cloud(150, 2, 1), 300);
    acc.push_at(cloud(80, 3, 1), 300);
    acc.reorganize_at(10_000);
    let done = acc.pop_finished();
    let times: Vec<u128> = done.iter().map(|c| c.time).collect();
    assert_eq!(times, vec![0, 100, 200]);

    let mut acc = Accumulator::new(100);
    acc.push_at(cloud(450, 1, 1), 450);
    acc.push_at(cloud(120, 2, 1), 120);
    acc.push_at(cloud(330, 3, 1), 330);
    acc.reorganize_at(1_000);
    assert_eq!(acc.pop_single_finished().unwrap().time, 100);
    assert_eq!(acc.pop_single_finished().unwrap().time, 300);
    assert_eq!(acc.pop_single_finished().unwrap().time, 400);
}
