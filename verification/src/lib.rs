//! Terminal graphics with Braille characters.
//!
//! A [`Canvas`] addresses individual dots of a grid of Unicode Braille
//! cells, each cell two dots wide and four dots tall. Lines, rectangles
//! and ellipses are rasterized to dot coordinates and drawn dot by dot;
//! the canvas serializes itself to text rows suitable for a terminal.

pub mod canvas;
pub mod cell;
pub mod paint;
pub mod palette;
pub mod raster;

pub use canvas::Canvas;
pub use colored::Color as PixelColor;
