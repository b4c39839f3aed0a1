//! Why a name map refuses a name.
use vstd::prelude::*;
use vstd::string::*;

verus! {

/// An allocation failed.
#[derive(Clone, Copy, Debug, PartialEq, Eq, Structural)]
pub struct OutOfMemory;

/// Why a name was refused.
#[derive(Debug)]
pub enum NameMapError {
    /// The name is not the name of a component import or export, for the
    /// reason given in `message`.
    InvalidName { name: String, message: String },
    /// The version of an interface name is neither full nor canonical.
    InvalidVersion { name: String },
    /// The name is defined already, and shadowing is not allowed.
    DefinedTwice { name: String },
    /// An allocation failed.
    OutOfMemory,
}

/// A [`NameMapError`] with its strings as sequences of characters.
pub enum NameMapErrorView {
    InvalidName { name: Seq<char>, message: Seq<char> },
    InvalidVersion { name: Seq<char> },
    DefinedTwice { name: Seq<char> },
    OutOfMemory,
}

impl View for NameMapError {
    type V = NameMapErrorView;

    open spec fn view(&self) -> NameMapErrorView {
        match self {
            NameMapError::InvalidName { name, message } => NameMapErrorView::InvalidName {
                name: name@,
                message: message@,
            },
            NameMapError::InvalidVersion { name } => NameMapErrorView::InvalidVersion {
                name: name@,
            },
            NameMapError::DefinedTwice { name } => NameMapErrorView::DefinedTwice { name: name@ },
            NameMapError::OutOfMemory => NameMapErrorView::OutOfMemory,
        }
    }
}

impl NameMapErrorView {
    /// What the error says.
    pub open spec fn text(self) -> Seq<char> {
        match self {
            NameMapErrorView::InvalidName { name, message } => {
                "invalid name `"@ + name + "`: "@ + message
            },
            NameMapErrorView::InvalidVersion { name } => {
                "invalid name `"@ + name + "`: version is neither a full nor canonical version"@
            },
            NameMapErrorView::DefinedTwice { name } => {
                "map entry `"@ + name + "` defined twice"@
            },
            NameMapErrorView::OutOfMemory => "out of memory"@,
        }
    }
}

impl NameMapError {
    /// What the error says.
    pub fn to_string(&self) -> (r: String)
        ensures
            r@ == self@.text(),
    {
        match self {
            NameMapError::InvalidName { name, message } => {
                let mut text = "invalid name `".to_owned();
                text.append(name.as_str());
                text.append("`: ");
                text.append(message.as_str());
                text
            },
            NameMapError::InvalidVersion { name } => {
                let mut text = "invalid name `".to_owned();
                text.append(name.as_str());
                text.append("`: version is neither a full nor canonical version");
                text
            },
            NameMapError::DefinedTwice { name } => {
                let mut text = "map entry `".to_owned();
                text.append(name.as_str());
                text.append("` defined twice");
                text
            },
            NameMapError::OutOfMemory => "out of memory".to_owned(),
        }
    }
}

/// What an error says: the name stands between backticks, and the message of
/// an invalid name at the end.
pub proof fn law_error_names_the_name(name: Seq<char>, message: Seq<char>)
    ensures
        (NameMapErrorView::InvalidName { name, message }).text() == "invalid name `"@ + name
            + "`: "@ + message,
        (NameMapErrorView::InvalidVersion { name }).text() == "invalid name `"@ + name
            + "`: "@ + "version is neither a full nor canonical version"@,
        (NameMapErrorView::DefinedTwice { name }).text() == "map entry `"@ + name
            + "` defined twice"@,
{
    reveal_strlit("`: ");
    reveal_strlit("`: version is neither a full nor canonical version");
    reveal_strlit("version is neither a full nor canonical version");
    assert("`: version is neither a full nor canonical version"@ =~= "`: "@
        + "version is neither a full nor canonical version"@);
    assert("invalid name `"@ + name + "`: version is neither a full nor canonical version"@
        =~= "invalid name `"@ + name + "`: "@ + "version is neither a full nor canonical version"@);
}

/// An error is seen with what it holds.
pub proof fn law_error_is_seen(name: String, message: String)
    ensures
        (NameMapError::InvalidName { name, message })@ == (NameMapErrorView::InvalidName {
            name: name@,
            message: message@,
        }),
        (NameMapError::InvalidVersion { name })@ == (NameMapErrorView::InvalidVersion {
            name: name@,
        }),
        (NameMapError::DefinedTwice { name })@ == (NameMapErrorView::DefinedTwice { name: name@ }),
        NameMapError::OutOfMemory@ == NameMapErrorView::OutOfMemory,
{
}

} // verus!
