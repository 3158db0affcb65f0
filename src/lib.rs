//! A CPU rasterizer for 2D vector shapes, stated and proved over integer pixel
//! coordinates: antialiased line coverage, scanline polygon fill, an RGB pixel
//! buffer with clipping, the text form of primitives, the segment map of a
//! vector font, and an ordered collection of drawable objects.
pub mod canvas;
pub mod collection;
pub mod glyph;
pub mod line;
pub mod scanline;
pub mod text;
