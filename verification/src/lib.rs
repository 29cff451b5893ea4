//! Non-voice timeline extraction for radio-play adaptation: the segment logic,
//! interval metrics, subtitle parsing and export formats, verified with Verus.
pub mod segment;
pub mod intervals;
pub mod compare;
pub mod segmenter;
pub mod text;
pub mod config;
pub mod merge;
pub mod srt;
pub mod fmt;
pub mod export;
pub mod goap;
pub mod gaps;
pub mod voice;
pub mod tri_state;
pub mod expand;
pub mod verification;
pub mod handlers;
pub mod review;
pub mod extract;
pub mod dataset;
pub mod learning;
pub mod framing;
pub mod assemble;
pub mod evidence;
pub mod passes;
