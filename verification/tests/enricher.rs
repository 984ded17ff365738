use qsomap::coords::Coordinate;
use qsomap::enricher::enrich_batch;
use qsomap::enricher::enrich_contact;
use qsomap::enricher::EnrichOutcome;
use qsomap::enricher::EnricherError;
use qsomap::qrzcom::Callsign;
use qsomap::qrzcom::QRZComError;
use qsomap::receiver::ContactInfo;

fn record(call: &str, band: &str) -> ContactInfo {
    ContactInfo { call: String::from(call), band: String::from(band) }
}

#[test]
fn successful_lookup_is_published_unchanged() {
    let lookup = Ok(Callsign {
        call: Some(String::from("IS0GVH")),
        lat: Some(Coordinate { nanodeg: 39_123_456_000 }),
        lon: Some(Coordinate { nanodeg: 9_654_321_000 }),
    });
    match enrich_contact(record("IS0GVH", "20m"), lookup) {
        EnrichOutcome::Publish { qso, location_unknown } => {
            assert_eq!(qso.call, "IS0GVH");
            assert_eq!(qso.band, "20m");
            assert_eq!(qso.latitude.nanodeg, 39_123_456_000);
            assert_eq!(qso.longitude.nanodeg, 9_654_321_000);
            assert!(!location_unknown);
        },
        EnrichOutcome::Skip { .. } => panic!("a successful lookup must publish"),
    }
}

#[test]
fn missing_coordinates_fall_back_to_the_sentinel() {
    let lookup = Ok(Callsign { call: Some(String::from("K1AA")), lat: None, lon: None });
    match enrich_contact(record("K1AA", "40m"), lookup) {
        EnrichOutcome::Publish { qso, location_unknown } => {
            assert_eq!(qso.latitude.nanodeg, 0);
            assert_eq!(qso.longitude.nanodeg, 0);
            assert!(location_unknown);
        },
        EnrichOutcome::Skip { .. } => panic!("a successful lookup must publish"),
    }
}

#[test]
fn coordinates_default_independently() {
    let lookup = Ok(Callsign {
        call: None,
        lat: Some(Coordinate { nanodeg: 39_000_000_000 }),
        lon: None,
    });
    match enrich_contact(record("K1AA", "40m"), lookup) {
        EnrichOutcome::Publish { qso, location_unknown } => {
            assert_eq!(qso.latitude.nanodeg, 39_000_000_000);
            assert_eq!(qso.longitude.nanodeg, 0);
            assert!(!location_unknown);
        },
        EnrichOutcome::Skip { .. } => panic!("a successful lookup must publish"),
    }
}

#[test]
fn failed_lookup_publishes_nothing() {
    let lookup = Err(QRZComError::Request(String::from("timed out")));
    match enrich_contact(record("K1AA", "40m"), lookup) {
        EnrichOutcome::Publish { .. } => panic!("a failed lookup must not publish"),
        EnrichOutcome::Skip { error } => {
            assert_eq!(error.message(), "QRZ.com error: Request error: timed out");
        },
    }
}

#[test]
fn not_found_lookup_publishes_nothing_for_that_record() {
    // The directory answers with an application error for ZZFAKE: nothing is
    // ever published for it, and the error text is carried out for the log.
    let lookup = Err(QRZComError::ApiError(String::from("Not found: ZZFAKE")));
    match enrich_contact(record("ZZFAKE", "20m"), lookup) {
        EnrichOutcome::Publish { .. } => panic!("a failed lookup must not publish"),
        EnrichOutcome::Skip { error } => {
            assert_eq!(error.message(), "QRZ.com error: API error: Not found: ZZFAKE");
        },
    }
}

#[test]
fn a_failed_lookup_does_not_stop_the_stream() {
    let contacts = vec![record("K1AA", "40m"), record("ZZFAKE", "20m"), record("DL1XYZ", "80m")];
    let lookups: Vec<Result<Callsign, QRZComError>> = vec![
        Ok(Callsign { call: None, lat: Some(Coordinate { nanodeg: 1 }), lon: None }),
        Err(QRZComError::ApiError(String::from("Not found: ZZFAKE"))),
        Ok(Callsign { call: None, lat: None, lon: Some(Coordinate { nanodeg: 2 }) }),
    ];
    let qsos = enrich_batch(contacts, lookups);
    assert_eq!(qsos.len(), 2);
    assert_eq!(qsos[0].call, "K1AA");
    assert_eq!(qsos[0].latitude.nanodeg, 1);
    assert_eq!(qsos[1].call, "DL1XYZ");
    assert_eq!(qsos[1].longitude.nanodeg, 2);
}

#[test]
fn qso_message_spells_the_contact() {
    let q = qsomap::enricher::QSO {
        call: String::from("IS0GVH"),
        band: String::from("20m"),
        latitude: Coordinate { nanodeg: 39_123_456_000 },
        longitude: Coordinate { nanodeg: 9_654_321_000 },
    };
    assert_eq!(q.message(), "IS0GVH (20m) [39.123456000 9.654321000]");
}

#[test]
fn enricher_error_from_lookup_error() {
    let e = EnricherError::from(QRZComError::Parsing(String::from("bad xml")));
    assert_eq!(e.message(), "QRZ.com error: Parsing error: bad xml");
    let e = EnricherError::RecvError(String::from("closed"));
    assert_eq!(e.message(), "Receive error: closed");
    let e = EnricherError::SendError(String::from("closed"));
    assert_eq!(e.message(), "Send error: closed");
}
