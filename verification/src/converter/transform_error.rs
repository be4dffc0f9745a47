use vstd::prelude::*;

use crate::text::push_str;

verus! {

/// Why a transform request failed.
#[derive(Debug, Clone, PartialEq, Eq)]
pub enum TransformError {
    /// No transform has the requested name.
    TransformNotFound(String),
}

/// The text of the message for a missing transform.
pub open spec fn not_found_message(name: Seq<char>) -> Seq<char> {
    "the transform `"@ + name + "` doesn't exist"@
}

impl TransformError {
    /// The error's message, as shown to users.
    pub fn message(&self) -> (r: String)
        ensures
            match self {
                TransformError::TransformNotFound(name) => r@ == not_found_message(name@),
            },
    {
        match self {
            TransformError::TransformNotFound(name) => {
                let mut out = String::new();
                push_str(&mut out, "the transform `");
                push_str(&mut out, name.as_str());
                push_str(&mut out, "` doesn't exist");
                assert(out@ =~= not_found_message(name@));
                out
            },
        }
    }
}

} // verus!
