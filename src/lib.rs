//! The spell-checking core of a text editor: finding the words of a text and placing them
//! in UTF-16 code units, deciding which of them to report, keeping the custom word list,
//! and locating a language's affix and dictionary files.
pub mod check;
pub mod greeting;
pub mod locate;
pub mod session;
pub mod startup;
pub mod text;
pub mod words;
