use vstd::prelude::*;

verus! {

/// The error type of the policy engine.
///
/// `Io` carries the message of an input/output failure met by an adapter;
/// `Error` is a generic domain error (for example, saving with no backing
/// location configured); `ParsingFailure` reports a malformed expression,
/// a request whose arity does not match the model, or an unresolved symbol
/// met while evaluating a matcher.
#[derive(Debug)]
pub enum CasbinError {
    Io(String),
    Error(&'static str),
    ParsingFailure(&'static str),
}

impl CasbinError {
    /// The rendered message: the failure kind's prefix, then the
    /// carried text.
    pub fn message(&self) -> (r: String)
        ensures
            match self {
                CasbinError::Io(m) => r@ == "Casbin error, IO error: "@ + m@,
                CasbinError::Error(m) => r@ == "Casbin error: msg="@ + m@,
                CasbinError::ParsingFailure(m) => r@ == "Casbin error, Parsing failure: msg="@
                    + m@,
            },
    {
        match self {
            CasbinError::Io(m) => {
                let mut out = String::from_str("Casbin error, IO error: ");
                out.append(m.as_str());
                out
            },
            CasbinError::Error(m) => {
                let mut out = String::from_str("Casbin error: msg=");
                out.append(m);
                out
            },
            CasbinError::ParsingFailure(m) => {
                let mut out = String::from_str("Casbin error, Parsing failure: msg=");
                out.append(m);
                out
            },
        }
    }
}

} // verus!
