//! The persisted player record.

use vstd::prelude::*;

verus! {

/// Mathematical model of a player record: the name as a character sequence
/// and the pray counter.
pub ghost struct RecordView {
    pub name: Seq<char>,
    pub prays: u32,
}

/// The player state that is kept across sessions: a name and the number of
/// times the player has prayed.
pub struct PlayerData {
    pub name: String,
    pub prays: u32,
}

impl View for PlayerData {
    type V = RecordView;

    open spec fn view(&self) -> RecordView {
        RecordView { name: self.name@, prays: self.prays }
    }
}

impl PlayerData {
    /// Builds a record from its two fields.
    pub fn new(name: String, prays: u32) -> (d: PlayerData)
        ensures
            d@ == (RecordView { name: name@, prays }),
    {
        PlayerData { name, prays }
    }

    /// Clones the record field by field.
    pub fn clone(&self) -> (d: PlayerData)
        ensures
            d@ == self@,
    {
        PlayerData { name: self.name.clone(), prays: self.prays }
    }
}

impl Default for PlayerData {
    /// The record used when no save file is loaded: the placeholder name and
    /// a counter of zero.
    fn default() -> (d: PlayerData)
        ensures
            d@ == (RecordView { name: "Player"@, prays: 0u32 }),
    {
        PlayerData { name: String::from_str("Player"), prays: 0 }
    }
}

/// Why a save file could not be loaded: the file could not be read, or its
/// contents are not a well-formed record.
#[derive(Clone, Copy, PartialEq, Eq, Structural, Debug)]
pub enum LoadSaveFileError {
    IoError,
    JsonError,
}

} // verus!
