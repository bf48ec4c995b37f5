use crate::nbt::{NbtCompound, Nbt};
use vanity_nbt::VanityError;
use vstd::prelude::*;

verus! {

/// The error that `vanity_nbt` gives for text that is not SNBT: carried, not read.
#[verifier::external_type_specification]
#[verifier::external_body]
pub struct ExVanityError(VanityError);

/// Why a log line could not be decoded.
#[derive(Debug)]
pub enum McLogError {
    /// The escaped line is too short to hold the identifier.
    NotEnoughForIdentifier(String),
    /// The escaped line ends before the SNBT payload starts.
    NotEnoughForSnbtStart(String),
    /// A field is absent; the compound it was looked up in comes with it.
    MissingField(&'static str, NbtCompound),
    /// A field holds a value of another type than the one named.
    MismatchedType(&'static str, Nbt),
    /// The `level` field names no known level.
    UnknownLevel(String),
    /// The payload is not SNBT.
    InvalidSnbt(VanityError),
}

/// An error, with its text as characters and its compound as entries.
pub enum McLogErrorView {
    NotEnoughForIdentifier(Seq<char>),
    NotEnoughForSnbtStart(Seq<char>),
    MissingField(Seq<char>, Seq<(String, Nbt)>),
    MismatchedType(Seq<char>, Nbt),
    UnknownLevel(Seq<char>),
    InvalidSnbt(VanityError),
}

impl View for McLogError {
    type V = McLogErrorView;

    open spec fn view(&self) -> McLogErrorView {
        match self {
            McLogError::NotEnoughForIdentifier(s) => McLogErrorView::NotEnoughForIdentifier(s@),
            McLogError::NotEnoughForSnbtStart(s) => McLogErrorView::NotEnoughForSnbtStart(s@),
            McLogError::MissingField(f, c) => McLogErrorView::MissingField(f@, c@),
            McLogError::MismatchedType(t, v) => McLogErrorView::MismatchedType(t@, *v),
            McLogError::UnknownLevel(s) => McLogErrorView::UnknownLevel(s@),
            McLogError::InvalidSnbt(e) => McLogErrorView::InvalidSnbt(*e),
        }
    }
}

} // verus!
