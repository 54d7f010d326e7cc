//! Parser and linearizer for an indentation-sensitive notation of labelled
//! edge chains (`vertex ><fish> vertex ...`).
pub mod arch;
pub mod laws;
pub mod text;
pub mod parser;
