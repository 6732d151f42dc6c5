//! The pieces of the watch-mode front end that are plain logic: the
//! key-driven menu model.  The terminal loop itself lives outside the
//! library.

pub mod menu;
