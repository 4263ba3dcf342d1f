//! Verified text transformations behind small `cat`, `echo`, `head` and `grep`
//! tools: line splitting, line numbering, line and byte limits, source headers
//! and substring search, each stated over the characters of the text.
//!
//! A run is given its sources as the caller found them (`source`) and leaves
//! the text for the standard output and the standard error with an exit
//! status. What a display mode shows of a text is defined in `mode`, and what
//! holds of that for every text is proved in `laws`. The tools (`cat`, `echo`,
//! `head`, `grep`) are proved against these definitions. They rest on `lines`
//! (the lines of a text), `text` (search and blank lines), `decimal` (line
//! numbers) and `encoding` (characters and their UTF-8 bytes).

pub mod cat;
pub mod decimal;
pub mod echo;
pub mod encoding;
pub mod grep;
pub mod head;
pub mod laws;
pub mod lines;
pub mod mode;
pub mod source;
pub mod text;
