//! The failure kinds of a reconciliation run. Every failure is terminal for
//! the run: nothing is retried, and the store is never written after one.

use vstd::prelude::*;

verus! {

/// One tag per failure kind, so that callers can branch on the category
/// instead of matching opaque strings.
#[derive(Debug)]
pub enum Error {
    /// No operating region could be determined before the exchange.
    RegionUnresolved,
    /// The exchange failed at the transport or protocol level.
    TransportError { detail: String },
    /// The service rejected the request; `message` is the service-provided
    /// human-readable message, or "unknown error" when it gave none.
    ServiceRejected { message: String },
    /// The exchange response reported success but lacked at least one of the
    /// three credential fields; no partial triple is ever used.
    IncompleteCredentials,
    /// The store file could not be read or written.
    StoreIoError { detail: String },
    /// The store file's content is not a multi-section key-value document.
    StoreFormatError { detail: String },
}

/// The stage a failure kind belongs to, as a short label.
pub open spec fn spec_stage_label(e: Error) -> Seq<char> {
    match e {
        Error::RegionUnresolved => "region resolution"@,
        Error::TransportError { .. } => "exchange"@,
        Error::ServiceRejected { .. } => "exchange"@,
        Error::IncompleteCredentials => "exchange"@,
        Error::StoreIoError { .. } => "credential store"@,
        Error::StoreFormatError { .. } => "credential store"@,
    }
}

/// The human-readable message of a failure: for kinds that carry a detail or
/// a service message, exactly that text; for the rest, a fixed description.
pub open spec fn spec_message(e: Error) -> Seq<char> {
    match e {
        Error::RegionUnresolved => "no default region could be resolved"@,
        Error::TransportError { detail } => detail@,
        Error::ServiceRejected { message } => message@,
        Error::IncompleteCredentials => "could not extract credentials"@,
        Error::StoreIoError { detail } => detail@,
        Error::StoreFormatError { detail } => detail@,
    }
}

impl Error {
    /// Which stage failed, for diagnostics.
    pub fn stage_label(&self) -> (r: String)
        ensures
            r@ == spec_stage_label(*self),
    {
        match self {
            Error::RegionUnresolved => String::from_str("region resolution"),
            Error::TransportError { .. } => String::from_str("exchange"),
            Error::ServiceRejected { .. } => String::from_str("exchange"),
            Error::IncompleteCredentials => String::from_str("exchange"),
            Error::StoreIoError { .. } => String::from_str("credential store"),
            Error::StoreFormatError { .. } => String::from_str("credential store"),
        }
    }

    /// The message to surface; for a service rejection this is exactly the
    /// service-provided message.
    pub fn message(&self) -> (r: String)
        ensures
            r@ == spec_message(*self),
    {
        match self {
            Error::RegionUnresolved => String::from_str("no default region could be resolved"),
            Error::TransportError { detail } => detail.clone(),
            Error::ServiceRejected { message } => message.clone(),
            Error::IncompleteCredentials => String::from_str("could not extract credentials"),
            Error::StoreIoError { detail } => detail.clone(),
            Error::StoreFormatError { detail } => detail.clone(),
        }
    }
}

} // verus!
