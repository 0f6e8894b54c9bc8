//! A scratchpad that lives beside the agents of a terminal tab: its text and
//! cursor, what it shows, where it is kept, and whom it is sent to.
pub mod agents;
pub mod app;
pub mod buffer;
pub mod clipboard;
pub mod input;
pub mod ipc;
pub mod json;
pub mod launch;
pub mod promises;
pub mod state;
pub mod text;
pub mod ui;
pub mod width;
