//! Orbit camera state: target, spherical position around it, projection
//! parameters and the dirty flag that drives accumulation resets.
//!
//! Angles, distances and positions are integers in millionths (microradians
//! and micro-units); the host program turns them into view and projection
//! matrices with its trigonometry and uploads the camera uniform when
//! [`CameraController::update`] reports a change.

use vstd::prelude::*;

verus! {

use crate::geom::{spec_trunc_rem, trunc_rem, Vec3i};

/// Pi in microradians.
pub const MICRO_PI: i64 = 3_141_593;

/// A full turn in microradians.
pub const MICRO_TWO_PI: i64 = 6_283_186;

/// Clearance kept between the view direction and the up axis (0.01 rad),
/// preventing gimbal collapse at the poles.
pub const ALTITUDE_DELTA_MICRO: i64 = 10_000;

/// Closest allowed orbit distance (0.1 world units).
pub const MIN_DISTANCE_MICRO: i64 = 100_000;

/// Farthest allowed orbit distance.
pub const MAX_DISTANCE_MICRO: i64 = 0x10_0000_0000_0000;

/// Bound on orbit target coordinates.
pub const TARGET_LIMIT_MICRO: i64 = 0x10_0000_0000_0000;

/// Bound on a single orbit, zoom or move delta; keeps the updates inside
/// `i64`.
pub const DELTA_LIMIT_MICRO: i64 = 0x4000_0000_0000_0000;

/// Default vertical field of view (pi / 3).
pub const DEFAULT_FOV_MICRO: i64 = 1_047_198;

/// Default altitude: on the equator, a quarter turn from the up axis.
pub const DEFAULT_ALTITUDE_MICRO: i64 = 1_570_796;

/// Default orbit distance (5 world units).
pub const DEFAULT_DISTANCE_MICRO: i64 = 5_000_000;

/// Orbit camera state in spherical coordinates around a target point.
#[derive(Clone, Copy, PartialEq, Eq, Structural, Debug)]
pub struct CameraController {
    pub target: Vec3i,
    /// Azimuth around the up axis, microradians, within one turn.
    pub yaw_micro: i64,
    /// Angle from the up axis, clamped away from the poles.
    pub altitude_micro: i64,
    pub distance_micro: i64,
    pub fov_micro: i64,
    /// Aspect ratio in millionths.
    pub aspect_micro: i64,
    pub near_micro: i64,
    /// Whether the matrices derived from this state are stale.
    pub is_dirty: bool,
}

/// The spherical state stays in its legal ranges: the altitude keeps its
/// clearance from the poles, the distance its minimum, and everything is
/// bounded.
pub open spec fn camera_wf(c: CameraController) -> bool {
    &&& ALTITUDE_DELTA_MICRO <= c.altitude_micro <= MICRO_PI - ALTITUDE_DELTA_MICRO
    &&& MIN_DISTANCE_MICRO <= c.distance_micro <= MAX_DISTANCE_MICRO
    &&& -MICRO_TWO_PI < c.yaw_micro < MICRO_TWO_PI
    &&& c.target.within(TARGET_LIMIT_MICRO as int)
}

/// `v` clamped to `[lo, hi]`.
pub open spec fn spec_clamp(v: int, lo: int, hi: int) -> int {
    if v < lo {
        lo
    } else if v > hi {
        hi
    } else {
        v
    }
}

impl CameraController {
    /// The default view: five units from the origin on the equator, looking
    /// at the origin, with matrices marked stale so the first update
    /// uploads them.
    pub fn new() -> (r: CameraController)
        ensures
            camera_wf(r),
            r.target == (Vec3i { x: 0, y: 0, z: 0 }),
            r.yaw_micro == 0,
            r.altitude_micro == DEFAULT_ALTITUDE_MICRO,
            r.distance_micro == DEFAULT_DISTANCE_MICRO,
            r.fov_micro == DEFAULT_FOV_MICRO,
            r.is_dirty,
    {
        CameraController {
            target: Vec3i { x: 0, y: 0, z: 0 },
            yaw_micro: 0,
            altitude_micro: DEFAULT_ALTITUDE_MICRO,
            distance_micro: DEFAULT_DISTANCE_MICRO,
            fov_micro: DEFAULT_FOV_MICRO,
            aspect_micro: 1_000_000,
            near_micro: 100_000,
            is_dirty: true,
        }
    }

    /// Rotate around the target: the yaw advances by `-dx` (wrapped to one
    /// turn), the altitude by `-dy` clamped to keep its clearance from the
    /// up axis. Marks the state dirty.
    pub fn orbit(&mut self, dx_micro: i64, dy_micro: i64)
        requires
            camera_wf(*old(self)),
            -DELTA_LIMIT_MICRO <= dx_micro <= DELTA_LIMIT_MICRO,
            -DELTA_LIMIT_MICRO <= dy_micro <= DELTA_LIMIT_MICRO,
        ensures
            camera_wf(*final(self)),
            final(self).yaw_micro as int == spec_trunc_rem(
                old(self).yaw_micro - dx_micro,
                MICRO_TWO_PI as int,
            ),
            final(self).altitude_micro as int == spec_clamp(
                old(self).altitude_micro - dy_micro,
                ALTITUDE_DELTA_MICRO as int,
                MICRO_PI - ALTITUDE_DELTA_MICRO,
            ),
            final(self).is_dirty,
            final(self).target == old(self).target,
            final(self).distance_micro == old(self).distance_micro,
            final(self).fov_micro == old(self).fov_micro,
            final(self).aspect_micro == old(self).aspect_micro,
            final(self).near_micro == old(self).near_micro,
    {
        self.yaw_micro = trunc_rem(self.yaw_micro - dx_micro, MICRO_TWO_PI);
        let a = self.altitude_micro - dy_micro;
        self.altitude_micro = if a < ALTITUDE_DELTA_MICRO {
            ALTITUDE_DELTA_MICRO
        } else if a > MICRO_PI - ALTITUDE_DELTA_MICRO {
            MICRO_PI - ALTITUDE_DELTA_MICRO
        } else {
            a
        };
        self.invalidate();
    }

    /// Move along the view direction: the distance shrinks by `delta`,
    /// clamped to the legal range. Marks the state dirty.
    pub fn zoom(&mut self, delta_micro: i64)
        requires
            camera_wf(*old(self)),
            -DELTA_LIMIT_MICRO <= delta_micro <= DELTA_LIMIT_MICRO,
        ensures
            camera_wf(*final(self)),
            final(self).distance_micro as int == spec_clamp(
                old(self).distance_micro - delta_micro,
                MIN_DISTANCE_MICRO as int,
                MAX_DISTANCE_MICRO as int,
            ),
            final(self).is_dirty,
            final(self).target == old(self).target,
            final(self).yaw_micro == old(self).yaw_micro,
            final(self).altitude_micro == old(self).altitude_micro,
    {
        let d = self.distance_micro - delta_micro;
        self.distance_micro = if d < MIN_DISTANCE_MICRO {
            MIN_DISTANCE_MICRO
        } else if d > MAX_DISTANCE_MICRO {
            MAX_DISTANCE_MICRO
        } else {
            d
        };
        self.invalidate();
    }

    /// Translate the orbit target by a world-space delta (the host converts
    /// an eye-space delta through its view matrix first), clamping each
    /// component to the target range. Marks the state dirty.
    pub fn move_target(&mut self, delta: Vec3i)
        requires
            camera_wf(*old(self)),
            delta.within(DELTA_LIMIT_MICRO as int),
        ensures
            camera_wf(*final(self)),
            final(self).target.x as int == spec_clamp(
                old(self).target.x + delta.x,
                -TARGET_LIMIT_MICRO as int,
                TARGET_LIMIT_MICRO as int,
            ),
            final(self).target.y as int == spec_clamp(
                old(self).target.y + delta.y,
                -TARGET_LIMIT_MICRO as int,
                TARGET_LIMIT_MICRO as int,
            ),
            final(self).target.z as int == spec_clamp(
                old(self).target.z + delta.z,
                -TARGET_LIMIT_MICRO as int,
                TARGET_LIMIT_MICRO as int,
            ),
            final(self).is_dirty,
            final(self).yaw_micro == old(self).yaw_micro,
            final(self).altitude_micro == old(self).altitude_micro,
            final(self).distance_micro == old(self).distance_micro,
    {
        let tx = self.target.x + delta.x;
        let ty = self.target.y + delta.y;
        let tz = self.target.z + delta.z;
        self.target = Vec3i {
            x: if tx < -TARGET_LIMIT_MICRO {
                -TARGET_LIMIT_MICRO
            } else if tx > TARGET_LIMIT_MICRO {
                TARGET_LIMIT_MICRO
            } else {
                tx
            },
            y: if ty < -TARGET_LIMIT_MICRO {
                -TARGET_LIMIT_MICRO
            } else if ty > TARGET_LIMIT_MICRO {
                TARGET_LIMIT_MICRO
            } else {
                ty
            },
            z: if tz < -TARGET_LIMIT_MICRO {
                -TARGET_LIMIT_MICRO
            } else if tz > TARGET_LIMIT_MICRO {
                TARGET_LIMIT_MICRO
            } else {
                tz
            },
        };
        self.invalidate();
    }

    /// Record a new aspect ratio after a surface resize. Marks the state
    /// dirty.
    pub fn resize(&mut self, aspect_micro: i64)
        requires
            aspect_micro > 0,
        ensures
            *final(self) == (CameraController {
                aspect_micro,
                is_dirty: true,
                ..*old(self)
            }),
    {
        self.aspect_micro = aspect_micro;
        self.invalidate();
    }

    /// Mark the derived matrices stale.
    pub fn invalidate(&mut self)
        ensures
            *final(self) == (CameraController { is_dirty: true, ..*old(self) }),
    {
        self.is_dirty = true;
    }

    /// Whether the camera changed since the last update: returns `true`
    /// exactly when the state was dirty, and clears the flag — the host
    /// recomputes and re-uploads the camera uniform precisely then, and a
    /// `true` return is what triggers path-tracer invalidation.
    pub fn update(&mut self) -> (r: bool)
        ensures
            r == old(self).is_dirty,
            *final(self) == (CameraController { is_dirty: false, ..*old(self) }),
    {
        let was_dirty = self.is_dirty;
        self.is_dirty = false;
        was_dirty
    }
}

} // verus!
