pub mod glyph_cache;
pub mod image_decode;
pub mod surface;
