//! Locating, inserting and replacing documentation-comment blocks in source
//! files, and turning free-form generated text into a well-formed block.

pub mod grep;
pub mod harvest;
pub mod model;
pub mod order;
pub mod text;
pub mod util;
pub mod patch;
pub mod pipeline;
pub mod prompt;
pub mod regexes;
pub mod sanitize;
