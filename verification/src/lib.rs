//! Blend modes for overlapping colors and the layout of terminal color
//! swatches.
//!
//! The blend engine combines a backdrop and a source color channel by
//! channel, and takes the mean of their alphas. The swatch renderer decides
//! which cells of a character-cell canvas receive which color and which
//! text, and in which order the pieces of a preview are written out.
//!
//! Everything here works on whole numbers. Where a result is defined in
//! binary64 arithmetic, it is computed to the last bit by rounding whole
//! numbers as that arithmetic rounds. Drawing on a terminal and writing to
//! a stream are left to the caller, who replays the recorded drawing
//! commands.

pub mod alpha;
pub mod binary64;
pub mod blend;
pub mod canvas;
pub mod color;
pub mod output;
pub mod scaled;
pub mod selection;
