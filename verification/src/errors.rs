//! Errors which can be caused by normal Gooseberry operation.
//! Those caused by external libraries are folded into the storage and
//! encoding kinds when they cross into the library.

use vstd::prelude::*;

verus! {

/// "It claimed to have 15 functions, although it appeared that at least ten
/// were apologizing for the useless manner in which it performed the others."
#[derive(Debug)]
pub enum Apologize {
    /// Thrown when trying to access an unrecorded tag
    TagNotFound { tag: String },
    /// Thrown when an annotation ID doesn't match any recorded annotations
    AnnotationNotFound { id: String },
    /// Thrown when trying to access an unrecorded group
    GroupNotFound { id: String },
    /// Thrown when explicit Y not received from user for destructive things
    DoingNothing,
    /// Thrown when $HOME is not set
    Homeless,
    /// Thrown when search doesn't work
    SearchError,
    /// Errors related to changing the configuration file
    ConfigError { message: String },
    /// Errors related to making the knowledge base
    KBError { message: String },
    /// Thrown when no text is returned from an external editor
    EditorError,
    /// Thrown when a record or tag holds a reserved character or a reserved
    /// tag literal, or a stored value cannot be decoded
    EncodingError,
    /// Thrown when the local storage engine fails
    StorageError,
    /// Catch-all for stuff that should never happen
    OutOfCheeseError { message: String },
}

impl Apologize {
    /// A human-readable description, in place of a `Display` impl.
    pub fn message(&self) -> (r: String)
        ensures
            match self {
                Apologize::TagNotFound { tag } => r@ == "You haven't tagged anything as this yet: "@
                    + tag@,
                Apologize::AnnotationNotFound { id } => r@
                    == "Couldn't find an annotation with ID "@ + id@,
                Apologize::GroupNotFound { id } => r@ == "Couldn't access group "@ + id@,
                Apologize::DoingNothing => r@ == "I'm a coward. Doing nothing."@,
                Apologize::Homeless => r@ == "Homeless: $HOME not set"@,
                Apologize::SearchError => r@ == "SearchError: Search failed"@,
                Apologize::ConfigError { message } => r@ == "ConfigError: "@ + message@,
                Apologize::KBError { message } => r@ == "KBError: "@ + message@,
                Apologize::EditorError => r@ == "EditorError"@,
                Apologize::EncodingError => r@ == "EncodingError: reserved character or malformed value"@,
                Apologize::StorageError => r@ == "StorageError: the local store failed"@,
                Apologize::OutOfCheeseError { message } => r@ == "OutOfCheeseError: "@ + message@,
            },
    {
        match self {
            Apologize::TagNotFound { tag } => {
                let mut m = String::new();
                m.append("You haven't tagged anything as this yet: ");
                m.append(tag.as_str());
                m
            },
            Apologize::AnnotationNotFound { id } => {
                let mut m = String::new();
                m.append("Couldn't find an annotation with ID ");
                m.append(id.as_str());
                m
            },
            Apologize::GroupNotFound { id } => {
                let mut m = String::new();
                m.append("Couldn't access group ");
                m.append(id.as_str());
                m
            },
            Apologize::DoingNothing => String::from_str("I'm a coward. Doing nothing."),
            Apologize::Homeless => String::from_str("Homeless: $HOME not set"),
            Apologize::SearchError => String::from_str("SearchError: Search failed"),
            Apologize::ConfigError { message } => {
                let mut m = String::new();
                m.append("ConfigError: ");
                m.append(message.as_str());
                m
            },
            Apologize::KBError { message } => {
                let mut m = String::new();
                m.append("KBError: ");
                m.append(message.as_str());
                m
            },
            Apologize::EditorError => String::from_str("EditorError"),
            Apologize::EncodingError => String::from_str(
                "EncodingError: reserved character or malformed value",
            ),
            Apologize::StorageError => String::from_str("StorageError: the local store failed"),
            Apologize::OutOfCheeseError { message } => {
                let mut m = String::new();
                m.append("OutOfCheeseError: ");
                m.append(message.as_str());
                m
            },
        }
    }
}

} // verus!
