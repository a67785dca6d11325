//! A collection of simple tools: a line template formatter, a line-by-line
//! "screen" helper, a streaming JSON processor, progress rendering, an argument
//! scanner, and an infix calculation processor with a calculator of key
//! presses on top.

pub mod shared;
pub mod text;
pub mod ltemp;
pub mod json;
pub mod lblscreen;
pub mod progress;
pub mod calc;
pub mod calculator;
pub mod arg;
