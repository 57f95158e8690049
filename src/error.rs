use vstd::prelude::*;

verus! {

/// The failure of a whole build.
#[derive(Debug, PartialEq, Eq)]
pub enum Error {
    /// The events do not form a valid tree, or the tree has a forbidden shape.
    Parsing(String),
    /// A failure reported by a command-line front end.
    Cli(String),
}

impl Error {
    /// The text the error carries.
    pub open spec fn spec_message(&self) -> Seq<char> {
        match self {
            Error::Parsing(m) => m@,
            Error::Cli(m) => m@,
        }
    }

    /// The human-readable text of the error.
    pub fn message(&self) -> (r: String)
        ensures
            r@ == self.spec_message(),
    {
        match self {
            Error::Parsing(m) => m.clone(),
            Error::Cli(m) => m.clone(),
        }
    }
}

} // verus!
