//! Grouping and layered compositing of floating windows.

pub mod canvas;
pub mod forest;
pub mod geometry;
pub mod grouping;
pub mod layer;
pub mod partition;
pub mod reach;
pub mod runs;
pub mod silhouette;
pub mod window;
