//! Small verified text, character and arithmetic utilities, together with the
//! decision logic of a folder/FTP synchroniser and of a line-driven terminal.

pub mod chars;
pub mod overflow;
pub mod primes;
pub mod text;
pub mod location;
mod registry;
pub mod sync;
pub mod listing;
pub mod builder;
pub mod textproc;
pub mod canvas;
pub mod students;
pub mod terminal;
