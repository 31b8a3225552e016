//! The errors of the application, with the kind that the interface shows and
//! the sentence that explains them.

use crate::text::{chars_of, text_of, append_chars};
use vstd::prelude::*;

verus! {

#[derive(Debug, Clone, PartialEq, Eq)]
pub enum AppError {
    Config(String),
    Auth { provider: String, detail: String },
    Remote { provider: String, detail: String },
    Data(String),
}

pub open spec fn kind_of(e: AppError) -> Seq<char> {
    match e {
        AppError::Config(_) => "config"@,
        AppError::Auth { .. } => "auth"@,
        AppError::Remote { .. } => "remote"@,
        AppError::Data(_) => "data"@,
    }
}

/// The sentence that the error displays.
pub open spec fn message_of(e: AppError) -> Seq<char> {
    match e {
        AppError::Config(d) => "configuration manquante ou invalide : "@ + d@,
        AppError::Auth { provider, detail } => provider@ + " a refusé l'authentification : "@
            + detail@,
        AppError::Remote { provider, detail } => provider@ + " indisponible : "@ + detail@,
        AppError::Data(d) => "données incohérentes : "@ + d@,
    }
}

impl AppError {
    pub fn kind(&self) -> (r: &'static str)
        ensures
            r@ == kind_of(*self),
    {
        match self {
            AppError::Config(_) => "config",
            AppError::Auth { .. } => "auth",
            AppError::Remote { .. } => "remote",
            AppError::Data(_) => "data",
        }
    }

    pub fn remote(provider: &str, detail: &str) -> (r: Self)
        ensures
            r matches AppError::Remote { provider: p, detail: d } && p@ == provider@ && d@
                == detail@,
    {
        AppError::Remote { provider: provider.to_string(), detail: detail.to_string() }
    }

    pub fn auth(provider: &str, detail: &str) -> (r: Self)
        ensures
            r matches AppError::Auth { provider: p, detail: d } && p@ == provider@ && d@
                == detail@,
    {
        AppError::Auth { provider: provider.to_string(), detail: detail.to_string() }
    }

    /// The sentence shown to the user.
    pub fn message(&self) -> (r: String)
        ensures
            r@ == message_of(*self),
    {
        let mut out: Vec<char> = Vec::new();
        match self {
            AppError::Config(d) => {
                append_chars(&mut out, &chars_of("configuration manquante ou invalide : "));
                append_chars(&mut out, &chars_of(d.as_str()));
            },
            AppError::Auth { provider, detail } => {
                append_chars(&mut out, &chars_of(provider.as_str()));
                append_chars(&mut out, &chars_of(" a refusé l'authentification : "));
                append_chars(&mut out, &chars_of(detail.as_str()));
            },
            AppError::Remote { provider, detail } => {
                append_chars(&mut out, &chars_of(provider.as_str()));
                append_chars(&mut out, &chars_of(" indisponible : "));
                append_chars(&mut out, &chars_of(detail.as_str()));
            },
            AppError::Data(d) => {
                append_chars(&mut out, &chars_of("données incohérentes : "));
                append_chars(&mut out, &chars_of(d.as_str()));
            },
        }
        text_of(&out)
    }
}

} // verus!
