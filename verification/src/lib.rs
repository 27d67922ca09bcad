//! Text processing, colour markup and report layout behind a system
//! information display.

pub mod text;
pub mod markup;
pub mod probe;
pub mod report;
