//! NAIF integer codes of the bodies in the JPL DE kernels.

use vstd::prelude::*;

verus! {

/// Solar-system barycentre.
pub const SSB: i32 = 0;

/// Mercury barycentre.
pub const MERCURY_BARYCENTER: i32 = 1;

/// Venus barycentre.
pub const VENUS_BARYCENTER: i32 = 2;

/// Earth-Moon barycentre.
pub const EMB: i32 = 3;

/// Mars barycentre.
pub const MARS_BARYCENTER: i32 = 4;

/// Jupiter barycentre.
pub const JUPITER_BARYCENTER: i32 = 5;

/// Saturn barycentre.
pub const SATURN_BARYCENTER: i32 = 6;

/// Uranus barycentre.
pub const URANUS_BARYCENTER: i32 = 7;

/// Neptune barycentre.
pub const NEPTUNE_BARYCENTER: i32 = 8;

/// Pluto barycentre.
pub const PLUTO_BARYCENTER: i32 = 9;

/// The Sun.
pub const SUN: i32 = 10;

/// The Moon.
pub const MOON: i32 = 301;

/// The Earth.
pub const EARTH: i32 = 399;

/// Mercury (body centre).
pub const MERCURY: i32 = 199;

/// Venus (body centre).
pub const VENUS: i32 = 299;

/// Mars (body centre).
pub const MARS: i32 = 499;

} // verus!
