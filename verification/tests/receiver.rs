use qsomap::receiver::parse_contact_info;
use qsomap::receiver::process_datagrams;
use qsomap::receiver::ContactInfo;
use qsomap::receiver::ReceiverError;

#[test]
fn decodes_a_valid_datagram() {
    let r = parse_contact_info("<ContactInfo><call>IS0GVH</call><band>20m</band></ContactInfo>")
        .unwrap();
    assert_eq!(r.call, "IS0GVH");
    assert_eq!(r.band, "20m");
}

#[test]
fn decodes_an_empty_band() {
    let r = parse_contact_info("<ContactInfo><call>K1AA</call><band></band></ContactInfo>")
        .unwrap();
    assert_eq!(r.call, "K1AA");
    assert_eq!(r.band, "");
}

#[test]
fn rejects_an_empty_payload() {
    assert!(parse_contact_info("").is_err());
}

#[test]
fn rejects_an_empty_call() {
    assert!(parse_contact_info("<ContactInfo><call></call><band>20m</band></ContactInfo>")
        .is_err());
}

#[test]
fn rejects_junk_and_truncated_payloads() {
    assert!(parse_contact_info("not a record").is_err());
    assert!(parse_contact_info("<ContactInfo><call>IS0GVH</call>").is_err());
    assert!(parse_contact_info("<ContactInfo><call>IS0GVH</call><band>20m</band>").is_err());
    assert!(
        parse_contact_info("<ContactInfo><call>IS0GVH</call><band>20m</band></ContactInfo>x")
            .is_err()
    );
}

#[test]
fn malformed_error_has_the_parsing_variant() {
    let e = parse_contact_info("nope").unwrap_err();
    match e {
        ReceiverError::XMLParsing(m) => assert_eq!(m, "malformed contact record"),
        _ => panic!("wrong error variant"),
    }
}

#[test]
fn a_malformed_datagram_does_not_stop_the_stream() {
    // An empty payload arrives; the next valid datagram is still processed.
    let payloads = vec![
        String::from(""),
        String::from("<ContactInfo><call>IS0GVH</call><band>20m</band></ContactInfo>"),
    ];
    let records = process_datagrams(&payloads);
    assert_eq!(records.len(), 1);
    assert_eq!(records[0].call, "IS0GVH");
    assert_eq!(records[0].band, "20m");
}

#[test]
fn each_valid_datagram_forwards_exactly_one_record_in_order() {
    let payloads = vec![
        String::from("<ContactInfo><call>K1AA</call><band>40m</band></ContactInfo>"),
        String::from("garbage"),
        String::from("<ContactInfo><call>IS0GVH</call><band>20m</band></ContactInfo>"),
        String::from("<ContactInfo><call></call><band>20m</band></ContactInfo>"),
        String::from("<ContactInfo><call>DL1XYZ</call><band>80m</band></ContactInfo>"),
    ];
    let records = process_datagrams(&payloads);
    assert_eq!(records.len(), 3);
    assert_eq!(records[0].call, "K1AA");
    assert_eq!(records[1].call, "IS0GVH");
    assert_eq!(records[2].call, "DL1XYZ");
}

#[test]
fn contact_info_message_and_equality() {
    let a = ContactInfo { call: String::from("IS0GVH"), band: String::from("20m") };
    let b = ContactInfo { call: String::from("IS0GVH"), band: String::from("20m") };
    assert!(a == b);
    assert_eq!(a.message(), "IS0GVH (20m)");
}

#[test]
fn receiver_error_messages() {
    let e = ReceiverError::UDPSocket(String::from("bind refused"));
    assert_eq!(e.message(), "UDP Socket error: bind refused");
    let e = ReceiverError::XMLParsing(String::from("bad payload"));
    assert_eq!(e.message(), "XML Parsing error: bad payload");
    let e = ReceiverError::QueueSenderError(ContactInfo {
        call: String::from("K1AA"),
        band: String::from("40m"),
    });
    assert_eq!(e.message(), "Queue sender error: K1AA (40m)");
}
