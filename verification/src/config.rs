//! The configuration of a store: where its log lives and how records are framed.

use vstd::prelude::*;

verus! {

/// The three tokens that frame a record, as mathematical values.
pub struct Framing {
    pub separator: Seq<u8>,
    pub terminator: Seq<u8>,
    pub delete_marker: u8,
}

impl Framing {
    /// Both tokens are present. A scan cannot advance over an empty terminator,
    /// and an empty separator would stand in every key.
    pub open spec fn valid(self) -> bool {
        self.separator.len() > 0 && self.terminator.len() > 0
    }
}

/// A configuration as mathematical values.
pub struct ConfigView {
    pub database_path: Seq<char>,
    pub framing: Framing,
}

impl ConfigView {
    /// Every field is supplied: the path and both tokens are non-empty.
    pub open spec fn complete(self) -> bool {
        self.database_path.len() > 0 && self.framing.valid()
    }
}

/// What a store is configured with. Nothing has a default: each field is supplied.
#[derive(Clone, Debug)]
pub struct Config {
    /// Where the host keeps the log file.
    pub database_path: String,
    /// The token between a key and its value.
    pub key_value_separator: Vec<u8>,
    /// The token that closes a record.
    pub end_of_record: Vec<u8>,
    /// The byte that, first in the value segment, marks a deletion.
    pub delete_marker: u8,
}

impl View for Config {
    type V = ConfigView;

    open spec fn view(&self) -> ConfigView {
        ConfigView { database_path: self.database_path@, framing: self.framing() }
    }
}

impl Config {
    /// The framing tokens of this configuration.
    pub open spec fn framing(&self) -> Framing {
        Framing {
            separator: self.key_value_separator@,
            terminator: self.end_of_record@,
            delete_marker: self.delete_marker,
        }
    }

    /// Every field is supplied: the path and both tokens are non-empty.
    pub open spec fn complete(&self) -> bool {
        self@.complete()
    }

    /// Whether every field is supplied.
    pub fn is_complete(&self) -> (complete: bool)
        ensures
            complete == self.complete(),
    {
        !self.database_path.as_str().is_empty() && self.key_value_separator.len() > 0
            && self.end_of_record.len() > 0
    }
}

} // verus!
