//! Turns an ordinary keyboard into a macro pad: exact sets of held keys are
//! matched against registered combinations, and the library decides which
//! user actions run, in which order, and whether listening goes on.

mod command;
mod keys;
mod listener;
mod trigger;

pub use command::{merge, merge_all, ListeningCmd};
pub use keycode::KeyMappingCode;
pub use keys::{combination, keymap};
pub use listener::Listener;
pub use trigger::{Callback, ConfigError, KeyboardTriggers, Triggers};
