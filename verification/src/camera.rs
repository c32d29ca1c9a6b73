//! The state of an orbiting camera.
//!
//! The camera's own arithmetic runs in floating point and is the caller's.
//! What is kept here is what it must agree with: which part of the pose an
//! operation replaces, when the change flag is raised and when it falls,
//! and how far the pitch may go.
use vstd::prelude::*;

use crate::scalar::{Scalar, Vector3};

verus! {

/// The pattern of the least pitch, a tenth of a radian above straight down.
pub const PITCH_MIN: u32 = 0xBFBC_430E;

/// The pattern of the greatest pitch, a tenth of a radian below straight up.
pub const PITCH_MAX: u32 = 0x3FBC_430E;

/// The pattern of a quarter turn, the pitch of the pole.
pub const QUARTER_TURN: u32 = 0x3FC9_0FDB;

/// An eye that looks at a target, and a flag that tells a consumer of the
/// pose that it has changed.
#[derive(Clone, Copy, PartialEq, Eq, Structural, Debug)]
pub struct Camera {
    pub eye: Vector3,
    pub center: Vector3,
    pub up: Vector3,
    pub has_changed: bool,
}

/// The pitch kept off the poles.
pub open spec fn clamp_pitch_spec(pitch: Scalar) -> Scalar {
    pitch.clamp_spec(Scalar { bits: PITCH_MIN }, Scalar { bits: PITCH_MAX })
}

/// Keeps a pitch off the poles: one below the least pitch becomes the
/// least, one above the greatest becomes the greatest. Whatever number goes
/// in, what comes out lies strictly between the two poles.
#[verifier::when_used_as_spec(clamp_pitch_spec)]
pub fn clamp_pitch(pitch: Scalar) -> (clamped: Scalar)
    ensures
        clamped == clamp_pitch_spec(pitch),
        pitch.is_nan_spec() ==> clamped == pitch,
        !pitch.is_nan_spec() ==> {
            &&& !clamped.is_nan_spec()
            &&& (Scalar { bits: PITCH_MIN }).key() <= clamped.key() <= (Scalar { bits: PITCH_MAX }).key()
            &&& -(Scalar { bits: QUARTER_TURN }).key() < clamped.key() < (Scalar {
                bits: QUARTER_TURN,
            }).key()
        },
        !pitch.is_nan_spec() && (Scalar { bits: PITCH_MIN }).key() <= pitch.key() <= (Scalar {
            bits: PITCH_MAX,
        }).key() ==> clamped == pitch,
{
    pitch.clamp(Scalar::from_bits(PITCH_MIN), Scalar::from_bits(PITCH_MAX))
}

impl Camera {
    /// A camera at `eye` that looks at `center`. Its flag is raised, so
    /// that the first query reports a change.
    pub fn new(eye: Vector3, center: Vector3, up: Vector3) -> (camera: Camera)
        ensures
            camera == (Camera { eye, center, up, has_changed: true }),
    {
        Camera { eye, center, up, has_changed: true }
    }

    /// Places the eye on the horizontal circle round the target: `x` and
    /// `z` replace the eye's, its height stays. The flag is left as it is.
    pub fn rotate_around_target(&mut self, x: Scalar, z: Scalar)
        ensures
            *final(self) == (Camera { eye: Vector3 { x, y: old(self).eye.y, z }, ..*old(self) }),
    {
        self.eye.x = x;
        self.eye.z = z;
    }

    /// Completes an orbit: the eye moves to `eye`, where the rotation round
    /// the target has taken it, and the flag is raised.
    pub fn orbit(&mut self, eye: Vector3)
        ensures
            *final(self) == (Camera { eye, has_changed: true, ..*old(self) }),
    {
        self.eye = eye;
        self.has_changed = true;
    }

    /// Completes a pan: target and eye move to `center` and `eye`, and the
    /// flag is raised.
    pub fn move_center(&mut self, center: Vector3, eye: Vector3)
        ensures
            *final(self) == (Camera { eye, center, has_changed: true, ..*old(self) }),
    {
        self.center = center;
        self.eye = eye;
        self.has_changed = true;
    }

    /// Completes a zoom: the eye moves to `eye`, nearer to the target or
    /// further from it, and the flag is raised.
    pub fn zoom(&mut self, eye: Vector3)
        ensures
            *final(self) == (Camera { eye, has_changed: true, ..*old(self) }),
    {
        self.eye = eye;
        self.has_changed = true;
    }

    /// Reports whether the pose has changed since the last query, and
    /// lowers the flag: of two queries with no change between them, the
    /// second returns `false`.
    pub fn check_if_changed(&mut self) -> (changed: bool)
        ensures
            changed == old(self).has_changed,
            *final(self) == (Camera { has_changed: false, ..*old(self) }),
    {
        if self.has_changed {
            self.has_changed = false;
            true
        } else {
            false
        }
    }
}

} // verus!
