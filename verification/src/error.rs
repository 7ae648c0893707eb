//! Error type shared by the whole library.

use vstd::prelude::*;
use vstd::string::StringExecFns;

verus! {

/// `std::io::Error`, carried through unchanged.
#[verifier::external_type_specification]
#[verifier::external_body]
pub struct IoErrorType(std::io::Error);

/// `<std::io::Error as Display>::fmt`, collected into a string. The text comes
/// from the operating system, so nothing is stated about it.
#[verifier::external_body]
fn io_error_text(error: &std::io::Error) -> String {
    error.to_string()
}

#[derive(Debug)]
pub enum SteamError {
    /// No supported Steam installation could be detected.
    NotFound(String),
    /// A KeyValues file could not be parsed.
    Vdf { path: String, message: String },
    /// Filesystem failure, with the operation that failed.
    Io { context: String, source: std::io::Error },
    /// Anything else Steam related (bad state, refusing a dangerous write).
    Config(String),
}

impl SteamError {
    pub fn io(context: String, source: std::io::Error) -> (result: Self)
        ensures
            result matches SteamError::Io { context: c, .. } && c@ == context@,
    {
        SteamError::Io { context, source }
    }

    pub fn config(message: String) -> (result: Self)
        ensures
            result matches SteamError::Config(m) && m@ == message@,
    {
        SteamError::Config(message)
    }

    /// The message shown to the user; for a filesystem failure the text of
    /// the operating system error follows the context.
    pub fn to_string(&self) -> (result: String)
        ensures
            match self {
                SteamError::NotFound(m) => result@ == m@,
                SteamError::Vdf { path, message } => result@ == "Unable to parse "@ + path@ + ": "@ + message@,
                SteamError::Io { context, .. } => result@.len() >= context@.len() + 2 && result@.take(
                    context@.len() as int + 2,
                ) == context@ + ": "@,
                SteamError::Config(m) => result@ == m@,
            },
    {
        proof {
            reveal_strlit(": ");
            reveal_strlit("Unable to parse ");
        }
        match self {
            SteamError::NotFound(message) => message.clone(),
            SteamError::Vdf { path, message } => {
                let mut out = String::from_str("Unable to parse ");
                out.append(path.as_str());
                out.append(": ");
                out.append(message.as_str());
                out
            },
            SteamError::Io { context, source } => {
                let detail = io_error_text(source);
                let mut out = context.clone();
                out.append(": ");
                let ghost head = out@;
                out.append(detail.as_str());
                proof {
                    assert(out@.take(context@.len() as int + 2) =~= head);
                }
                out
            },
            SteamError::Config(message) => message.clone(),
        }
    }
}

} // verus!
