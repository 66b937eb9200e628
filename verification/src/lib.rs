//! Fractal histogram engine: a supersampled accumulation grid, its
//! resolution reduction, weighted stochastic transform selection for the
//! chaos-game sampler, and the RGBA image the renderers write into.
//!
//! Generation and rendering are decoupled: a generator fills a `Histogram`
//! cell by cell, a renderer reduces it to one cell per output pixel and
//! writes an `Image`.

pub mod flame;
pub mod histogram;
pub mod image;
