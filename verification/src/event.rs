//! The event and data model shared by both samplers.

use vstd::prelude::*;

verus! {

/// A 2D integer cursor position, compared by coordinates.
#[derive(Clone, Copy, Debug, PartialEq, Eq, Structural)]
pub struct MousePos {
    pub x: i32,
    pub y: i32,
}

/// Integer luminance statistics of one captured frame.
///
/// The floating-point mean, median and standard deviation of the frame's
/// 8-bit gray values are fully determined by these integers:
/// `mean = sum / count`, `median = median_doubled / 2`, and
/// `stddev = sqrt((sum_sq - sum^2 / count) / count)` (population form).
#[derive(Clone, Copy, Debug, PartialEq, Eq, Structural)]
pub struct BrightnessSample {
    /// Number of pixels in the frame; always positive.
    pub count: u64,
    /// Sum of all gray values.
    pub sum: u64,
    /// Sum of the squares of all gray values.
    pub sum_sq: u64,
    /// Twice the median gray value: the sum of the two central values of
    /// the sorted gray sequence when `count` is even, twice the central
    /// value when `count` is odd.
    pub median_doubled: u16,
}

/// A discrete change event pushed to the external sink.
#[derive(Clone, Copy, Debug, PartialEq, Eq, Structural)]
pub enum Event {
    /// A key identified by `code` went from released to pressed.
    KeyDown { code: u32 },
    /// A key identified by `code` went from pressed to released.
    KeyUp { code: u32 },
    /// The cursor moved to `pos` since the previous tick.
    MouseMove { pos: MousePos },
    /// The cursor stayed at `pos` since the previous tick.
    MouseIdle { pos: MousePos },
    /// Luminance statistics of one display's captured frame.
    ScreenBrightness { sample: BrightnessSample },
}

} // verus!
