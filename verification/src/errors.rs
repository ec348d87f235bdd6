use vstd::prelude::*;
use vstd::string::StringExecFns;

verus! {

/// The failures this library reports: a grid description holding a
/// character outside the format, and selection of the reserved follow
/// view mode.
#[derive(Debug, Clone, PartialEq, Eq, Structural)]
pub enum Error {
    /// The given character is neither of the two cell glyphs nor the
    /// comment marker.
    ParseGrid(char),
    /// The follow view mode is reserved and unimplemented; selecting it
    /// is rejected up front rather than silently redirected.
    UnimplementedView,
}

/// The single line of text that describes an error.
pub open spec fn error_text(e: Error) -> Seq<char> {
    match e {
        Error::ParseGrid(c) => "error: failed to parse Grid: unknown character: '"@ + seq![c] + "'\n"@,
        Error::UnimplementedView => "error: the 'follow' view mode is not implemented\n"@,
    }
}

impl Error {
    /// Render the chain of errors as text, one line per error; the errors
    /// of this library have no causes, so the chain is a single line.
    pub fn to_string_chain(&self) -> (r: String)
        ensures
            r@ == error_text(*self),
    {
        match self {
            Error::ParseGrid(c) => {
                let mut s = String::from_str("error: failed to parse Grid: unknown character: '");
                let cs = crate::text::string_from_chars(vec![*c]);
                s.append(cs.as_str());
                s.append("'\n");
                s
            },
            Error::UnimplementedView => String::from_str("error: the 'follow' view mode is not implemented\n"),
        }
    }
}

} // verus!
