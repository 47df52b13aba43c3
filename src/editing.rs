//! Text editing.
pub mod textbuffer;
