//! Cuts the raw byte stream of a container's console into frames for a terminal
//! emulator: whole lines where a `\n` comes in time, chunks of a bounded size that
//! never split a UTF-8 character where none does, with every `" \r"` turned into
//! `"\r\n"` so that a wrap guessed by the program ships at once.

pub mod frames;
pub mod rewrite;
pub mod utf8;

pub use frames::LineBuffer;
pub use rewrite::rewrite_space_cr;
pub use utf8::utf8_boundary;
