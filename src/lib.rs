//! Fuzzy name matching for a cafeteria menu bot: a character-level edit
//! distance with a reconstructible trace, a word-level alignment score, and
//! the configuration and message rules around them.

pub mod command;
pub mod conf;
pub mod levenshtein;
pub mod menu;
pub mod text;
pub mod tg;
