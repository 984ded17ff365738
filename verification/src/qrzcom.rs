//! The boundary to the callsign directory service.
//!
//! The directory is a black box reached over the network by the outer
//! program. The library's side of the contract is plain data: the request
//! body sent for one callsign, and the reduction of the directory's answer
//! — an optional callsign record plus an optional session error — to either
//! a record or an error.

use crate::coords::Coordinate;
use vstd::prelude::*;
use vstd::string::StringExecFns;

verus! {

/// What the directory reported for one callsign. Missing coordinates mean
/// the directory knows no location for the station.
#[derive(Debug)]
pub struct Callsign {
    pub call: Option<String>,
    pub lat: Option<Coordinate>,
    pub lon: Option<Coordinate>,
}

/// What can go wrong on one directory lookup: the request itself failed,
/// the answer could not be read, or the directory answered with an error of
/// its own. All three are recoverable: the record is dropped and the next
/// one is looked up.
#[derive(Debug)]
pub enum QRZComError {
    Request(String),
    Parsing(String),
    ApiError(String),
}

impl QRZComError {
    pub open spec fn spec_message(self) -> Seq<char> {
        match self {
            QRZComError::Request(e) => "Request error: "@ + e@,
            QRZComError::Parsing(e) => "Parsing error: "@ + e@,
            QRZComError::ApiError(e) => "API error: "@ + e@,
        }
    }

    pub fn message(&self) -> (r: String)
        ensures
            r@ == self.spec_message(),
    {
        match self {
            QRZComError::Request(e) => {
                let mut r = String::from_str("Request error: ");
                r.append(e.as_str());
                r
            },
            QRZComError::Parsing(e) => {
                let mut r = String::from_str("Parsing error: ");
                r.append(e.as_str());
                r
            },
            QRZComError::ApiError(e) => {
                let mut r = String::from_str("API error: ");
                r.append(e.as_str());
                r
            },
        }
    }
}

/// The body of one lookup request: the caller's credentials and the
/// callsign to resolve, as form fields.
pub fn build_request_body(username: &str, password: &str, callsign: &str) -> (r: String)
    ensures
        r@ == "username="@ + username@ + "&password="@ + password@ + "&callsign="@ + callsign@,
{
    let mut r = String::from_str("username=");
    r.append(username);
    r.append("&password=");
    r.append(password);
    r.append("&callsign=");
    r.append(callsign);
    r
}

/// Reduces the directory's answer to the lookup contract: the callsign
/// record when one came, else the session's error text as an application
/// error — empty when the directory gave none.
pub fn resolve_response(callsign: Option<Callsign>, session_error: Option<String>) -> (r: Result<
    Callsign,
    QRZComError,
>)
    ensures
        match callsign {
            Some(cs) => r == Ok::<Callsign, QRZComError>(cs),
            None => {
                &&& r matches Err(e)
                &&& (r->Err_0 matches QRZComError::ApiError(m) && m@ == (match session_error {
                    Some(s) => s@,
                    None => Seq::<char>::empty(),
                }))
            },
        },
{
    match callsign {
        Some(cs) => Ok(cs),
        None => match session_error {
            Some(s) => Err(QRZComError::ApiError(s)),
            None => Err(QRZComError::ApiError(String::new())),
        },
    }
}

} // verus!
