//! Frame compositing: flattening layers and cels into RGBA images the way
//! Aseprite renders them.
pub mod blend;
pub mod render;
