use qsomap::coords::Coordinate;
use qsomap::qrzcom::build_request_body;
use qsomap::qrzcom::resolve_response;
use qsomap::qrzcom::Callsign;
use qsomap::qrzcom::QRZComError;

#[test]
fn request_body_carries_credentials_and_callsign() {
    let body = build_request_body("user", "SECRET-REDACTED", "IS0GVH");
    assert_eq!(body, "username=user&password=SECRET-REDACTED&callsign=IS0GVH");
}

#[test]
fn a_callsign_record_resolves_to_itself() {
    let cs = Callsign {
        call: Some(String::from("IS0GVH")),
        lat: Some(Coordinate { nanodeg: 39_123_456_000 }),
        lon: Some(Coordinate { nanodeg: 9_654_321_000 }),
    };
    let r = resolve_response(Some(cs), None).unwrap();
    assert_eq!(r.call.as_deref(), Some("IS0GVH"));
    assert_eq!(r.lat.unwrap().nanodeg, 39_123_456_000);
    assert_eq!(r.lon.unwrap().nanodeg, 9_654_321_000);
}

#[test]
fn a_missing_record_resolves_to_the_session_error() {
    let r = resolve_response(None, Some(String::from("Not found: ISGVH")));
    match r {
        Err(QRZComError::ApiError(m)) => assert_eq!(m, "Not found: ISGVH"),
        _ => panic!("a missing record must resolve to an application error"),
    }
}

#[test]
fn a_missing_record_without_session_error_resolves_to_an_empty_error() {
    let r = resolve_response(None, None);
    match r {
        Err(QRZComError::ApiError(m)) => assert_eq!(m, ""),
        _ => panic!("a missing record must resolve to an application error"),
    }
}

#[test]
fn lookup_error_messages() {
    assert_eq!(
        QRZComError::Request(String::from("timed out")).message(),
        "Request error: timed out"
    );
    assert_eq!(QRZComError::Parsing(String::from("bad xml")).message(), "Parsing error: bad xml");
    assert_eq!(
        QRZComError::ApiError(String::from("Not found: ZZFAKE")).message(),
        "API error: Not found: ZZFAKE"
    );
}
