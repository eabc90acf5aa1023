//! Instanced-sprite batching engine.
//!
//! Groups visible sprites by shared rendering resource, packs their
//! per-instance attributes into fixed-capacity zero-padded buffers, and
//! manages a reusable pool of draw-call slots sized exactly to the demand
//! of the current frame.

pub mod record;
pub mod sizing;
pub mod pool;
pub mod encode;
pub mod group;
pub mod frame;
pub mod publish;
