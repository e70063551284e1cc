//! Sampling-and-diffing engine for a desktop telemetry shell.
//!
//! Two independent samplers feed an external event sink: an input sampler
//! that diffs polled keyboard/mouse snapshots into edge-triggered events,
//! and a brightness sampler that reduces captured frames to luminance
//! statistics on a fixed cadence. Device polling, screen capture and the
//! sink itself are external collaborators; this crate holds the verified
//! decision and analysis logic.

mod brightness;
mod cadence;
mod event;
mod input;
mod keyset;

pub use brightness::PixelGrid;
pub use brightness::MAX_PIXELS;
pub use brightness::analyze_brightness;
pub use brightness::gray_value;
pub use brightness::grays_of_rgba;
pub use brightness::gray_sums;
pub use brightness::median_doubled;
pub use brightness::process_frames;
pub use brightness::sort_grays;
pub use cadence::CaptureCadence;
pub use cadence::DEFAULT_INTERVAL_MS;
pub use input::InputSampler;
pub use keyset::KeySet;
pub use event::Event;
pub use event::MousePos;
pub use event::BrightnessSample;
