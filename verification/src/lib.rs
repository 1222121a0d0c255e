//! Core engine of a modal text editor: a relocatable-gap array, a
//! line-indexed UTF-8 text store, a vim-style motion grammar with word
//! boundary search, and the mode controller that drives them.

pub mod chars;
pub mod command_bar;
pub mod editor;
pub mod indent;
pub mod search;
pub mod gap_buffer;
pub mod text_buffer;
pub mod vim_commands;
pub mod utf8_walk;
