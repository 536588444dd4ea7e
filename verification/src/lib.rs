//! Verified core of a terminal thumbnail browser: an adaptive grid engine,
//! a selection/navigation model over a filtered catalog, and the cache and
//! bookkeeping of an asynchronous thumbnail-encoding pipeline.

pub mod app;
pub mod catalog;
pub mod deps;
pub mod encoder;
pub mod grid;
pub mod text;
