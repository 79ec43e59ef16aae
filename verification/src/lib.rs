//! Verified core of the Qu interpreter's data-handling builtins: raster
//! images and their file formats, DEFLATE, canonical Huffman coding, line
//! coding, and the byte-level helpers they share.

pub mod text;
pub mod bytes;
pub mod comms;
pub mod image;
pub mod bmp;
pub mod inflate;
pub mod png;
pub mod huffman;
pub mod huffman_law;
pub mod image_tone;
pub mod components;
pub mod codecs;
pub mod buffers;
pub mod dispatch;
pub mod color;
pub mod font;
pub mod text_codec;
pub mod font_subset;
pub mod json_path;
pub mod byte_tools;
pub mod layout;
pub mod sha256;
pub mod cmap_law;
