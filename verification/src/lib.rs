//! Asset encoders for a PICO-8 cartridge builder: run-length and delta
//! coders, the EG-2 bit coder, frame helpers, animation block encoders,
//! macro-tile map compression and cartridge text sections.

pub mod rle;
pub mod eg2;
pub mod eg2_stream;
pub mod config;
pub mod frame;
pub mod sheet;
pub mod text;
pub mod animation;
pub mod anim_rle;
pub mod macrotile;
pub mod music;
pub mod cart;
