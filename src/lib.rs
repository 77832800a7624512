//! A modal, vi-style text-editing core: key events are decoded into
//! commands by an ordered-alternative grammar, a mode state machine routes
//! them, and a dispatcher applies them to a line buffer, the cursor and a
//! yank register.
pub mod action;
pub mod buffer;
pub mod cmdline;
pub mod editor;
pub mod grammar;
