//! The session and search core of a multi-document text editor: which
//! files are open, which carry unsaved changes, where the in-buffer
//! search cursor sits, and how a query is located and rewritten across
//! one buffer or a whole directory tree. Text is held as sequences of
//! Unicode scalar values, so every offset in a contract is a character
//! offset. Rendering, dialogs and the filesystem stay outside: callers
//! hand in picked paths, loaded text and traversed files as plain
//! values, and receive the writes to perform as plain values back.

pub mod editor;
pub mod find;
pub mod key;
pub mod report;
pub mod session;
pub mod table;
pub mod text;
