//! ANSI-aware text measuring, style collapsing and word wrapping for terminals.

pub mod chars;
pub mod collapse;
pub mod fit;
pub mod scan;
pub mod sgr;
pub mod text;
pub mod width;
pub mod wrap;
