//! Sprite-sheet video: a container of still images (a background per scene
//! and the changed areas of the other frames) placed on a timeline, the
//! segmentation and chunked encoding that build it, the compositor that
//! renders frames from it, and a minimal AVIF packager for raw AV1 frames.
use vstd::prelude::*;

pub mod asset;
pub mod bytes;
pub mod compositor;
pub mod container;
pub mod encoder;
pub mod frame;
pub mod packager;
pub mod playback;
pub mod progress;
pub mod regions;
pub mod segmenter;
pub mod timeline;

pub use asset::Asset;
pub use compositor::FrameCompositor;
pub use container::{Error, VaiContainer, VaiHeader};
pub use encoder::{ChunkedEncoder, EncodeError};
pub use frame::{Rgba, RgbaFrame};
pub use progress::ProgressTracker;
pub use regions::EncoderConfig;
pub use segmenter::{SceneDetector, SceneDetectorConfig, SceneSegment};
pub use timeline::TimelineEntry;

verus! {

} // verus!
