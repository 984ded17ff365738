//! The three stages composed: decode, enrich, fan out.

use qsomap::coords::parse_coordinate;
use qsomap::enricher::enrich_contact;
use qsomap::enricher::EnrichOutcome;
use qsomap::hub::Hub;
use qsomap::qrzcom::resolve_response;
use qsomap::qrzcom::Callsign;
use qsomap::receiver::parse_contact_info;

#[test]
fn a_contact_flows_to_every_subscriber_exactly_once() {
    // One datagram arrives, the directory answers with coordinates, and two
    // attached subscribers each observe the enriched contact exactly once.
    let record = parse_contact_info(
        "<ContactInfo><call>IS0GVH</call><band>20m</band></ContactInfo>",
    )
    .unwrap();

    let lookup = resolve_response(
        Some(Callsign {
            call: Some(String::from("IS0GVH")),
            lat: Some(parse_coordinate("39.123456").unwrap()),
            lon: Some(parse_coordinate("9.654321").unwrap()),
        }),
        None,
    );

    let qso = match enrich_contact(record, lookup) {
        EnrichOutcome::Publish { qso, location_unknown } => {
            assert!(!location_unknown);
            qso
        },
        EnrichOutcome::Skip { .. } => panic!("the lookup succeeded"),
    };

    let mut hub = Hub::new(10);
    let a = hub.attach();
    let b = hub.attach();
    hub.publish(&qso);

    for id in [a, b] {
        let got = hub.receive(id).unwrap();
        assert_eq!(got.call, "IS0GVH");
        assert_eq!(got.band, "20m");
        assert_eq!(got.latitude.nanodeg, 39_123_456_000);
        assert_eq!(got.longitude.nanodeg, 9_654_321_000);
        assert!(hub.receive(id).is_none());
    }
}

#[test]
fn a_not_found_lookup_never_reaches_the_hub() {
    let record = parse_contact_info(
        "<ContactInfo><call>ZZFAKE</call><band>20m</band></ContactInfo>",
    )
    .unwrap();
    let lookup = resolve_response(None, Some(String::from("Not found: ZZFAKE")));

    let mut hub = Hub::new(10);
    let a = hub.attach();
    match enrich_contact(record, lookup) {
        EnrichOutcome::Publish { .. } => panic!("a failed lookup must not publish"),
        EnrichOutcome::Skip { error } => {
            assert_eq!(error.message(), "QRZ.com error: API error: Not found: ZZFAKE");
        },
    }
    assert!(hub.receive(a).is_none());
}
