//! Which presentation a listing gets, and what is said instead of a listing
//! where the path cannot be listed.

use crate::paint::{colored, tinted_text, Tint};
use vstd::prelude::*;

verus! {

/// The four presentations. Exactly one is in force for a listing.
#[derive(Clone, Copy, Debug, PartialEq, Eq, Structural)]
pub enum Mode {
    /// A table of name, kind, size and modification date.
    Compact,
    /// The compact table with permissions and owner.
    Detailed,
    /// The detailed records in a machine-readable form.
    Structured,
    /// The directory hierarchy as an indented tree.
    Tree,
}

/// What is done for a path.
#[derive(Clone, Copy, Debug, PartialEq, Eq, Structural)]
pub enum Outcome {
    /// The path exists: it is listed in this mode.
    Show(Mode),
    /// The path does not exist: nothing is listed.
    Missing,
    /// Whether the path exists could not be found out: nothing is listed.
    Unreadable,
}

/// The mode for what was asked for: the tree before the structured form,
/// that before the detailed table, and the compact table where nothing was
/// asked for.
pub open spec fn mode_of(tree: bool, structured: bool, detailed: bool) -> Mode {
    if tree {
        Mode::Tree
    } else if structured {
        Mode::Structured
    } else if detailed {
        Mode::Detailed
    } else {
        Mode::Compact
    }
}

/// What is done for a path, given the answer to whether it exists (`None`
/// where that could not be found out) and what was asked for.
pub open spec fn outcome_of(
    exists: Option<bool>,
    tree: bool,
    structured: bool,
    detailed: bool,
) -> Outcome {
    match exists {
        Some(true) => Outcome::Show(mode_of(tree, structured, detailed)),
        Some(false) => Outcome::Missing,
        None => Outcome::Unreadable,
    }
}

/// The words said in place of a listing, before they are coloured.
pub open spec fn notice_words(outcome: Outcome) -> Option<Seq<char>> {
    match outcome {
        Outcome::Show(_) => None,
        Outcome::Missing => Some("Path does not exists"@),
        Outcome::Unreadable => Some("error reading directory"@),
    }
}

/// The message shown in place of a listing: the words in red.
pub open spec fn notice_of(outcome: Outcome) -> Option<Seq<char>> {
    match notice_words(outcome) {
        Some(words) => Some(tinted_text(words, Tint::Red)),
        None => None,
    }
}

pub fn select_mode(tree: bool, structured: bool, detailed: bool) -> (mode: Mode)
    ensures
        mode == mode_of(tree, structured, detailed),
{
    if tree {
        Mode::Tree
    } else if structured {
        Mode::Structured
    } else if detailed {
        Mode::Detailed
    } else {
        Mode::Compact
    }
}

pub fn decide(exists: Option<bool>, tree: bool, structured: bool, detailed: bool) -> (outcome:
    Outcome)
    ensures
        outcome == outcome_of(exists, tree, structured, detailed),
{
    match exists {
        Some(true) => Outcome::Show(select_mode(tree, structured, detailed)),
        Some(false) => Outcome::Missing,
        None => Outcome::Unreadable,
    }
}

/// The message to show in place of a listing; `None` where there is a
/// listing to show.
pub fn notice(outcome: Outcome) -> (message: Option<String>)
    ensures
        crate::text::text_view(message) == notice_of(outcome),
{
    match outcome {
        Outcome::Show(_) => None,
        Outcome::Missing => Some(colored("Path does not exists", Tint::Red)),
        Outcome::Unreadable => Some(colored("error reading directory", Tint::Red)),
    }
}

/// A path that does not exist is never listed, whatever was asked for, and
/// gets a message; a path that is listed gets none.
pub proof fn lemma_missing_path_is_only_reported(tree: bool, structured: bool, detailed: bool)
    ensures
        outcome_of(Some(false), tree, structured, detailed) == Outcome::Missing,
        notice_of(Outcome::Missing) is Some,
        notice_of(outcome_of(Some(true), tree, structured, detailed)) is None,
{
}

} // verus!
