//! Invoking Falcon BMS callbacks from any networked device: the key files
//! that bind callbacks to keys, the keystrokes that strike a callback, and
//! the decisions of the program that receives callback names by UDP.
pub mod config;
pub mod emulator;
pub mod keyfile;
pub mod keys;
pub mod messages;
pub mod sender;
pub mod server;
pub mod text;
pub mod watcher;
