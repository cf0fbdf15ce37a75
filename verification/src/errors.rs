//! The failures that the library reports.

use vstd::prelude::*;

verus! {

/// Every way in which an operation of this library can fail.
#[derive(Debug)]
pub enum Error {
    /// A read or write on a source, sink or storage failed.
    Io(String),
    /// A recomputed HMAC does not match the recorded one.
    InvalidHmac,
    /// The key registry has not been initialised.
    KdfListNotExists,
    /// The key registry has already been initialised.
    KdfListAlreadyExists,
    /// No entry of the key registry matches the passphrase.
    PassphraseNotInKdfList,
    /// No entry of the key registry has this name.
    KeyNotInKdfList(String),
    /// An entry of the key registry already has this name.
    KeyNameAlreadyInUse(String),
    /// No entry of the key registry carries this group.
    GroupNotInKdfList(String),
    /// Some entry of the key registry already carries this group.
    GroupNameAlreadyInUse(String),
    /// The entry already carries this group.
    KeyAlreadyInGroup(String),
    /// The entry or key chain does not carry this group.
    KeyNotInGroup(String),
    /// This group can never be taken away from an entry.
    CannotDisassocGroup(String),
    /// This group can never be destroyed.
    CannotDestroyGroup(String),
    /// The entry is the only one left.
    WouldRemoveLastKdfEntry,
    /// The entry (first) is the only one left that carries the group (second).
    WouldDisassocLastKeyFromGroup(String, String),
    /// No entry was named although the registry holds more than one.
    AnonChangeKeyButMultipleKdfEntries,
    /// The passphrase belongs to another entry than the one named.
    ChangeKeyWithPassphraseMismatch,
    /// Too many attempts to commit ran into a conflict.
    TooManyTxRetries,
    /// The stored key registry is malformed.
    Serialization,
}

/// The mathematical value of an `Error`: the same cases, with each name as
/// the sequence of its characters.
pub enum ErrorView {
    Io(Seq<char>),
    InvalidHmac,
    KdfListNotExists,
    KdfListAlreadyExists,
    PassphraseNotInKdfList,
    KeyNotInKdfList(Seq<char>),
    KeyNameAlreadyInUse(Seq<char>),
    GroupNotInKdfList(Seq<char>),
    GroupNameAlreadyInUse(Seq<char>),
    KeyAlreadyInGroup(Seq<char>),
    KeyNotInGroup(Seq<char>),
    CannotDisassocGroup(Seq<char>),
    CannotDestroyGroup(Seq<char>),
    WouldRemoveLastKdfEntry,
    WouldDisassocLastKeyFromGroup(Seq<char>, Seq<char>),
    AnonChangeKeyButMultipleKdfEntries,
    ChangeKeyWithPassphraseMismatch,
    TooManyTxRetries,
    Serialization,
}

impl View for Error {
    type V = ErrorView;

    open spec fn view(&self) -> ErrorView {
        match self {
            Error::Io(msg) => ErrorView::Io(msg@),
            Error::InvalidHmac => ErrorView::InvalidHmac,
            Error::KdfListNotExists => ErrorView::KdfListNotExists,
            Error::KdfListAlreadyExists => ErrorView::KdfListAlreadyExists,
            Error::PassphraseNotInKdfList => ErrorView::PassphraseNotInKdfList,
            Error::KeyNotInKdfList(name) => ErrorView::KeyNotInKdfList(name@),
            Error::KeyNameAlreadyInUse(name) => ErrorView::KeyNameAlreadyInUse(name@),
            Error::GroupNotInKdfList(name) => ErrorView::GroupNotInKdfList(name@),
            Error::GroupNameAlreadyInUse(name) => ErrorView::GroupNameAlreadyInUse(name@),
            Error::KeyAlreadyInGroup(name) => ErrorView::KeyAlreadyInGroup(name@),
            Error::KeyNotInGroup(name) => ErrorView::KeyNotInGroup(name@),
            Error::CannotDisassocGroup(name) => ErrorView::CannotDisassocGroup(name@),
            Error::CannotDestroyGroup(name) => ErrorView::CannotDestroyGroup(name@),
            Error::WouldRemoveLastKdfEntry => ErrorView::WouldRemoveLastKdfEntry,
            Error::WouldDisassocLastKeyFromGroup(key, group) => {
                ErrorView::WouldDisassocLastKeyFromGroup(key@, group@)
            },
            Error::AnonChangeKeyButMultipleKdfEntries => {
                ErrorView::AnonChangeKeyButMultipleKdfEntries
            },
            Error::ChangeKeyWithPassphraseMismatch => ErrorView::ChangeKeyWithPassphraseMismatch,
            Error::TooManyTxRetries => ErrorView::TooManyTxRetries,
            Error::Serialization => ErrorView::Serialization,
        }
    }
}

impl ErrorView {
    /// A short description of the failure: what kind of failure it is,
    /// without the names that it carries.
    pub open spec fn description(self) -> Seq<char> {
        match self {
            ErrorView::Io(_) => "I/O error"@,
            ErrorView::InvalidHmac => "HMAC does not match content"@,
            ErrorView::KdfListNotExists => "Key store not initialised"@,
            ErrorView::KdfListAlreadyExists => "Key store already initialised"@,
            ErrorView::PassphraseNotInKdfList => "Passphrase not found in key store"@,
            ErrorView::KeyNotInKdfList(_) => "Key not found in key store"@,
            ErrorView::KeyNameAlreadyInUse(_) => "Key name already in use"@,
            ErrorView::GroupNotInKdfList(_) => "Group not found in key store"@,
            ErrorView::GroupNameAlreadyInUse(_) => "Group name already in use"@,
            ErrorView::KeyAlreadyInGroup(_) => "Key already in group"@,
            ErrorView::KeyNotInGroup(_) => "Key not in group"@,
            ErrorView::CannotDisassocGroup(_) => "Cannot disassociate group"@,
            ErrorView::CannotDestroyGroup(_) => "Cannot destroy group"@,
            ErrorView::WouldRemoveLastKdfEntry => "Cannot remove last key from key store"@,
            ErrorView::WouldDisassocLastKeyFromGroup(_, _) => "Cannot disassociate last key from group"@,
            ErrorView::AnonChangeKeyButMultipleKdfEntries => "Key name required when the key store holds more than one key"@,
            ErrorView::ChangeKeyWithPassphraseMismatch => "Old passphrase is correct, but belongs to another key"@,
            ErrorView::TooManyTxRetries => "Too many failed transaction attempts"@,
            ErrorView::Serialization => "Malformed key store"@,
        }
    }
}

impl Error {
    /// A short description of the failure.
    pub fn description(&self) -> (text: &'static str)
        ensures
            text@ == self@.description(),
    {
        match self {
            Error::Io(_) => "I/O error",
            Error::InvalidHmac => "HMAC does not match content",
            Error::KdfListNotExists => "Key store not initialised",
            Error::KdfListAlreadyExists => "Key store already initialised",
            Error::PassphraseNotInKdfList => "Passphrase not found in key store",
            Error::KeyNotInKdfList(_) => "Key not found in key store",
            Error::KeyNameAlreadyInUse(_) => "Key name already in use",
            Error::GroupNotInKdfList(_) => "Group not found in key store",
            Error::GroupNameAlreadyInUse(_) => "Group name already in use",
            Error::KeyAlreadyInGroup(_) => "Key already in group",
            Error::KeyNotInGroup(_) => "Key not in group",
            Error::CannotDisassocGroup(_) => "Cannot disassociate group",
            Error::CannotDestroyGroup(_) => "Cannot destroy group",
            Error::WouldRemoveLastKdfEntry => "Cannot remove last key from key store",
            Error::WouldDisassocLastKeyFromGroup(_, _) => "Cannot disassociate last key from group",
            Error::AnonChangeKeyButMultipleKdfEntries => "Key name required when the key store holds more than one key",
            Error::ChangeKeyWithPassphraseMismatch => "Old passphrase is correct, but belongs to another key",
            Error::TooManyTxRetries => "Too many failed transaction attempts",
            Error::Serialization => "Malformed key store",
        }
    }
}

} // verus!
