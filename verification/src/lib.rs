//! Totem of Ket: a small terminal game in which the player prays to a totem.
//!
//! The library holds everything the game decides and computes: the player
//! record and its JSON file format, the menu state machine driven by key
//! presses and ticks, the classification of the load-or-new answer, and the
//! timing decisions of the input producer.  Terminal drawing, the keyboard,
//! the file system and the producer thread live outside the library and hand
//! it plain values.

pub mod codec;
pub mod input;
pub mod player;
pub mod state;
