//! The credential exchange: what is sent, what came back, and how the raw
//! outcome of the service round trip becomes a validated credential triple
//! or a typed failure. The network call itself lives outside the library;
//! it hands its result in as plain values.

use vstd::prelude::*;
use crate::error::Error;

verus! {

/// The request of one exchange: built fresh per run, used once.
pub struct ExchangeRequest {
    pub role_identifier: String,
    pub mfa_serial: String,
    pub one_time_code: String,
    pub session_name: String,
}

/// The temporary credential triple. The three fields are only ever present
/// together: no partial triple is ever constructed.
pub struct CredentialTriple {
    pub access_key_id: String,
    pub secret_access_key: String,
    pub session_token: String,
}

/// The result of the service round trip, reduced to plain values.
pub enum ServiceOutcome {
    /// The call reported success; each credential field may still be absent.
    Credentials {
        access_key_id: Option<String>,
        secret_access_key: Option<String>,
        session_token: Option<String>,
    },
    /// The service rejected the request, optionally with a message.
    Rejected { message: Option<String> },
    /// The transport or protocol layer failed.
    TransportFailed { detail: String },
}

/// A successful outcome that carries all three credential fields.
pub open spec fn outcome_complete(o: ServiceOutcome) -> bool {
    match o {
        ServiceOutcome::Credentials { access_key_id, secret_access_key, session_token } => {
            &&& access_key_id is Some
            &&& secret_access_key is Some
            &&& session_token is Some
        },
        _ => false,
    }
}

/// The triple of a complete outcome: access key id, secret access key,
/// session token.
pub open spec fn outcome_triple(o: ServiceOutcome) -> (Seq<char>, Seq<char>, Seq<char>)
    recommends
        outcome_complete(o),
{
    match o {
        ServiceOutcome::Credentials { access_key_id, secret_access_key, session_token } => (
            access_key_id->0@,
            secret_access_key->0@,
            session_token->0@,
        ),
        _ => (Seq::empty(), Seq::empty(), Seq::empty()),
    }
}

/// The failure an incomplete outcome maps to: a missing field is
/// `IncompleteCredentials` even when the call itself reported success, a
/// rejection carries the service message or "unknown error", a transport
/// failure carries its diagnostic.
pub open spec fn outcome_error_matches(o: ServiceOutcome, e: Error) -> bool {
    match o {
        ServiceOutcome::Credentials { .. } => e is IncompleteCredentials,
        ServiceOutcome::Rejected { message } => match message {
            Some(m) => e matches Error::ServiceRejected { message: mm } && mm@ == m@,
            None => e matches Error::ServiceRejected { message: mm } && mm@ == "unknown error"@,
        },
        ServiceOutcome::TransportFailed { detail } => e matches Error::TransportError {
            detail: d,
        } && d@ == detail@,
    }
}

/// Build the request from the configured identity and the one-time code.
pub fn build_request(
    role_identifier: &str,
    mfa_serial: &str,
    session_name: &str,
    one_time_code: &str,
) -> (r: ExchangeRequest)
    ensures
        r.role_identifier@ == role_identifier@,
        r.mfa_serial@ == mfa_serial@,
        r.session_name@ == session_name@,
        r.one_time_code@ == one_time_code@,
{
    ExchangeRequest {
        role_identifier: role_identifier.to_owned(),
        mfa_serial: mfa_serial.to_owned(),
        one_time_code: one_time_code.to_owned(),
        session_name: session_name.to_owned(),
    }
}

/// An operating region must be resolved before any network call; a run
/// without one fails with `RegionUnresolved`.
pub fn resolve_region(region: Option<String>) -> (r: Result<String, Error>)
    ensures
        match region {
            Some(name) => r matches Ok(n) && n@ == name@,
            None => r matches Err(e) && e is RegionUnresolved,
        },
{
    match region {
        Some(name) => Ok(name),
        None => Err(Error::RegionUnresolved),
    }
}

/// All-or-nothing extraction: a triple is returned exactly when all three
/// fields are present; otherwise the run fails with
/// `IncompleteCredentials`, and no partial triple is ever returned.
pub fn extract_triple(
    access_key_id: Option<String>,
    secret_access_key: Option<String>,
    session_token: Option<String>,
) -> (r: Result<CredentialTriple, Error>)
    ensures
        match (access_key_id, secret_access_key, session_token) {
            (Some(a), Some(s), Some(t)) => r matches Ok(c) && c.access_key_id@ == a@
                && c.secret_access_key@ == s@ && c.session_token@ == t@,
            _ => r matches Err(e) && e is IncompleteCredentials,
        },
{
    match (access_key_id, secret_access_key, session_token) {
        (Some(a), Some(s), Some(t)) => Ok(
            CredentialTriple { access_key_id: a, secret_access_key: s, session_token: t },
        ),
        _ => Err(Error::IncompleteCredentials),
    }
}

/// Turn the raw outcome of the round trip into a validated triple or the
/// typed failure `outcome_error_matches` describes.
pub fn interpret_outcome(outcome: ServiceOutcome) -> (r: Result<CredentialTriple, Error>)
    ensures
        outcome_complete(outcome) ==> (r matches Ok(c) && (
        c.access_key_id@,
        c.secret_access_key@,
        c.session_token@,
        ) == outcome_triple(outcome)),
        !outcome_complete(outcome) ==> (r matches Err(e) && outcome_error_matches(outcome, e)),
{
    match outcome {
        ServiceOutcome::Credentials { access_key_id, secret_access_key, session_token } => {
            extract_triple(access_key_id, secret_access_key, session_token)
        },
        ServiceOutcome::Rejected { message } => {
            match message {
                Some(m) => Err(Error::ServiceRejected { message: m }),
                None => Err(
                    Error::ServiceRejected { message: String::from_str("unknown error") },
                ),
            }
        },
        ServiceOutcome::TransportFailed { detail } => Err(
            Error::TransportError { detail },
        ),
    }
}

} // verus!

