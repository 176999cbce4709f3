//! Terminal sprite pet: the verified core of a Codex-compatible animated pet
//! player for image-capable terminals.

pub mod bytes;
pub mod sixel;
pub mod sixel_reader;
pub mod animation;
pub mod animation_set;
pub mod catalog;
pub mod codec;
pub mod pet;
pub mod terminal;
pub mod playback;
