//! Column alignment for delimited text that carries ANSI terminal escape
//! sequences.
//!
//! The core is a byte-stream filter that removes CSI escape sequences
//! (`ESC '['` up to a terminator byte) so that the visible width of a field
//! can be measured; around it sit the column-width bookkeeping and the
//! padded-output rendering.

pub mod ansi_filter;
pub mod columns;
pub mod csi_filter;
