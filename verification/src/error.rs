//! The ways in which a bulk rename can fail.

use vstd::prelude::*;
use vstd::string::StringExecFns;

verus! {

/// A failure of a bulk rename. Each one ends the run; none is retried.
#[derive(Debug, Clone, PartialEq, Eq)]
pub enum RenameError {
    /// The edited file holds another number of paths than the listing.
    LineCountMismatch,
    /// The edited file holds this path twice.
    NameClash(String),
    /// The files changed between listing and execution: this path is in one
    /// of the two listings only.
    FilesChanged(String),
    /// This destination exists already; it was not touched.
    AlreadyExists(String),
    /// The file system refused to create a directory or to rename; this is
    /// what it reported.
    Io(String),
    /// No unused temporary name was found for this file.
    NoFreePlaceholder(String),
}

impl RenameError {
    /// The text of [`RenameError::message`].
    pub open spec fn message_text(self) -> Seq<char> {
        match self {
            RenameError::LineCountMismatch =>
                "The number of files in the edited file does not match the original."@,
            RenameError::NameClash(_) => "There is a name clash in the edited files."@,
            RenameError::FilesChanged(_) =>
                "The files in the directory changed while you were editing them."@,
            RenameError::AlreadyExists(path) => "The file "@ + path@ + " already exists. Aborting."@,
            RenameError::Io(reason) => reason@,
            RenameError::NoFreePlaceholder(path) => "No unused temporary name found for "@ + path@,
        }
    }

    /// The text of [`RenameError::details`].
    pub open spec fn details_text(self) -> Seq<char> {
        match self {
            RenameError::NameClash(path) => self.message_text() + seq![' ', '('] + path@ + seq![')'],
            RenameError::FilesChanged(path) => self.message_text() + seq![' ', '('] + path@
                + seq![')'],
            _ => self.message_text(),
        }
    }

    /// What the user is told, with the path that the error is about where
    /// the message alone does not name it.
    pub fn details(&self) -> (text: String)
        ensures
            text@ == self.details_text(),
    {
        let mut text = self.message();
        match self {
            RenameError::NameClash(path) | RenameError::FilesChanged(path) => {
                proof {
                    reveal_strlit(" (");
                    reveal_strlit(")");
                    assert(" ("@ =~= seq![' ', '(']);
                    assert(")"@ =~= seq![')']);
                }
                text.append(" (");
                text.append(path.as_str());
                text.append(")");
            },
            _ => {},
        }
        text
    }

    /// A copy of the error.
    pub fn duplicate(&self) -> (copy: RenameError)
        ensures
            copy == *self,
    {
        match self {
            RenameError::LineCountMismatch => RenameError::LineCountMismatch,
            RenameError::NameClash(path) => RenameError::NameClash(path.clone()),
            RenameError::FilesChanged(path) => RenameError::FilesChanged(path.clone()),
            RenameError::AlreadyExists(path) => RenameError::AlreadyExists(path.clone()),
            RenameError::Io(reason) => RenameError::Io(reason.clone()),
            RenameError::NoFreePlaceholder(path) => RenameError::NoFreePlaceholder(path.clone()),
        }
    }

    /// What the user is told.
    pub fn message(&self) -> (text: String)
        ensures
            text@ == self.message_text(),
    {
        match self {
            RenameError::LineCountMismatch => String::from_str(
                "The number of files in the edited file does not match the original.",
            ),
            RenameError::NameClash(_) => String::from_str(
                "There is a name clash in the edited files.",
            ),
            RenameError::FilesChanged(_) => String::from_str(
                "The files in the directory changed while you were editing them.",
            ),
            RenameError::AlreadyExists(path) => {
                let mut text = String::from_str("The file ");
                text.append(path.as_str());
                text.append(" already exists. Aborting.");
                text
            },
            RenameError::Io(reason) => reason.clone(),
            RenameError::NoFreePlaceholder(path) => {
                let mut text = String::from_str("No unused temporary name found for ");
                text.append(path.as_str());
                text
            },
        }
    }
}

} // verus!
