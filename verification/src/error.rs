//! What can go wrong.
use vstd::prelude::*;
use crate::text::{debug_text, quoted_text};

verus! {

/// What can go wrong.
#[derive(Debug)]
pub enum Failure {
    /// An override leaves a bracket, a brace or an escape open.
    Override(String),
    /// The matcher for a set of globs cannot be built.
    Globs,
    /// The scanner thread is gone.
    Join,
    /// A path does not lie below the root.
    Prefix,
}

impl Failure {
    /// What the error says.
    pub open spec fn says(self) -> Seq<char> {
        match self {
            Failure::Override(pattern) => "invalid override glob "@ + debug_text(pattern@),
            Failure::Globs => "error parsing glob: unclosed character class"@,
            Failure::Join => "Failed to join scanner thread"@,
            Failure::Prefix => "prefix not found"@,
        }
    }

    /// What the error says.
    pub fn message(&self) -> (r: String)
        ensures
            r@ == self.says(),
    {
        match self {
            Failure::Override(pattern) => {
                let quoted = quoted_text(pattern.as_str());
                "invalid override glob ".to_owned().concat(quoted.as_str())
            },
            Failure::Globs => "error parsing glob: unclosed character class".to_owned(),
            Failure::Join => "Failed to join scanner thread".to_owned(),
            Failure::Prefix => "prefix not found".to_owned(),
        }
    }
}

/// The error of a scanner thread that is gone.
pub fn thread_join_error() -> (r: Failure)
    ensures
        r == Failure::Join,
{
    Failure::Join
}

/// Nothing has to be installed to report errors.
pub fn install_handler() -> (r: Result<(), Failure>)
    ensures
        r == Ok::<(), Failure>(()),
{
    Ok(())
}

} // verus!
