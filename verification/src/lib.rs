//! A verified log-trimming library.
//!
//! Given a log (a sequence of lines, each a raw byte record), a set of
//! keyword tokens, and the index of a whitespace-delimited column, the
//! library keeps exactly the lines whose category token — the token at
//! that column — is not prefixed by any keyword. Lines that are not
//! valid UTF-8, and lines too short to have the requested column, are
//! dropped. Callers that stream a file feed each line record through
//! [`classify::classify_line`]; batch callers use [`pipeline::trim_content`].
//!
//! Column indices are zero-based: column `c` selects the `c + 1`-th
//! whitespace-delimited token. Whitespace means the ASCII whitespace
//! bytes (the space, and the controls from tab through carriage
//! return).

pub mod classify;
pub mod keywords;
pub mod laws;
pub mod pipeline;
pub mod text;
