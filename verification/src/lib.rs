//! A modal text editor: buffers, selections, key handling and screen drawing.

pub mod buffer;
pub mod chains;
pub mod coord;
pub mod edit;
pub mod editor;
pub mod frames;
pub mod idx;
pub mod key_laws;
pub mod laws;
pub mod lines;
pub mod many;
pub mod mode;
pub mod one_line;
pub mod order;
pub mod paste_one;
pub mod picture;
pub mod rope;
pub mod selection;
pub mod state;
pub mod steps;
pub mod terminal;
pub mod writer;
