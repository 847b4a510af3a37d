//! Verified core of the astro-video tools: box blur, block matching,
//! frame-range planning and the geometry they rest on.

pub mod powers;
pub mod blur;
pub mod image;
pub mod blk_matching;
pub mod chunks;
pub mod quality;
pub mod histogram;
pub mod progress;
pub mod alignment;
