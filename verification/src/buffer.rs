//! Double buffering of point clouds: clouds are gathered into the filling
//! cloud, which becomes the finished cloud once the buffer's duration has
//! passed since the last roll-over.

use vstd::prelude::*;
use crate::pointcloud::{duration_millis, PointCloud, PointCloudView};

verus! {

#[verifier::external_type_specification]
#[verifier::external_body]
pub struct ExInstant(std::time::Instant);

/// Calls `std::time::Instant::now`. Nothing is claimed of the value: it is
/// the time.
#[verifier::external_body]
fn instant_now() -> std::time::Instant {
    std::time::Instant::now()
}

/// Calls `Instant::elapsed`. Nothing is claimed of the value: it is the
/// time.
#[verifier::external_body]
fn instant_elapsed(t: &std::time::Instant) -> std::time::Duration {
    t.elapsed()
}

/// The whole milliseconds since `t` on the monotonic clock.
fn elapsed_millis(t: &std::time::Instant) -> u128 {
    duration_millis(&instant_elapsed(t))
}

/// Gathers clouds for a while, then hands them on as one.
#[derive(Debug)]
pub struct FrameBuffer {
    pub finished: PointCloud,
    pub filling: PointCloud,
    pub timer: std::time::Instant,
    pub buffer_duration: u128,
}

impl Default for FrameBuffer {
    /// Empty clouds, a timer started now, and a duration of 100 ms.
    fn default() -> (r: FrameBuffer)
        ensures
            r.finished@.points.len() == 0,
            r.filling@.points.len() == 0,
            r.buffer_duration == 100,
    {
        FrameBuffer {
            finished: PointCloud::default(),
            filling: PointCloud::default(),
            timer: instant_now(),
            buffer_duration: 100,
        }
    }
}

impl FrameBuffer {
    pub fn new(buffer_size: u128) -> (r: FrameBuffer)
        ensures
            r.finished@.points.len() == 0,
            r.filling@.points.len() == 0,
            r.buffer_duration == buffer_size,
    {
        FrameBuffer { buffer_duration: buffer_size, ..FrameBuffer::default() }
    }

    /// The roll-over after `elapsed` milliseconds: nothing happens until the
    /// duration has passed; then the filling cloud becomes the finished one,
    /// and a fresh empty cloud and timer start.
    pub fn reorganize_after(&mut self, elapsed: u128)
        ensures
            final(self).buffer_duration == old(self).buffer_duration,
            elapsed <= old(self).buffer_duration ==> final(self).finished@ == old(self).finished@
                && final(self).filling@ == old(self).filling@,
            elapsed > old(self).buffer_duration ==> final(self).finished@ == old(self).filling@
                && final(self).filling@.points.len() == 0 && final(self).filling@.metadata.len() == 0
                && final(self).filling@.time < 100,
    {
        if elapsed <= self.buffer_duration {
            return;
        }
        std::mem::swap(&mut self.filling, &mut self.finished);
        self.filling = PointCloud::default();
        self.timer = instant_now();
    }

    /// Rolls over if the buffer's duration has passed on its timer.
    pub fn reorganize(&mut self)
        ensures
            final(self).buffer_duration == old(self).buffer_duration,
            (final(self).finished@ == old(self).finished@ && final(self).filling@ == old(self).filling@)
                || (final(self).finished@ == old(self).filling@ && final(self).filling@.points.len()
                == 0 && final(self).filling@.metadata.len() == 0 && final(self).filling@.time < 100),
    {
        let elapsed = elapsed_millis(&self.timer);
        self.reorganize_after(elapsed);
    }

    /// Rolls over if due, then moves the frame's points into the filling
    /// cloud.
    pub fn push_frame(&mut self, frame: &mut PointCloud)
        ensures
            final(self).buffer_duration == old(self).buffer_duration,
            final(frame)@.points.len() == 0,
            final(frame)@.metadata.len() == 0,
            (final(self).finished@ == old(self).finished@ && final(self).filling@.points
                == old(self).filling@.points + old(frame)@.points && final(self).filling@.metadata
                == old(self).filling@.metadata + old(frame)@.metadata) || (final(self).finished@
                == old(self).filling@ && final(self).filling@.points == old(frame)@.points
                && final(self).filling@.metadata == old(frame)@.metadata),
    {
        self.reorganize();
        let ghost f = self.filling@;
        self.filling.extend(frame);
        proof {
            if self.finished@ != old(self).finished@ || f != old(self).filling@ {
                assert(f.points.len() == 0 && f.metadata.len() == 0);
                assert(f.points + old(frame)@.points =~= old(frame)@.points);
                assert(f.metadata + old(frame)@.metadata =~= old(frame)@.metadata);
            }
        }
    }

    /// Rolls over if due, then gives a copy of the finished cloud.
    pub fn get(&mut self) -> (r: PointCloud)
        ensures
            final(self).buffer_duration == old(self).buffer_duration,
            r@ == final(self).finished@,
            r@ == old(self).finished@ || r@ == old(self).filling@,
    {
        self.reorganize();
        self.finished.clone()
    }
}

} // verus!
