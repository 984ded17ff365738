use qsomap::coords::Coordinate;
use qsomap::enricher::QSO;
use qsomap::hub::Hub;

fn qso(call: &str, band: &str, lat: i64, lon: i64) -> QSO {
    QSO {
        call: String::from(call),
        band: String::from(band),
        latitude: Coordinate { nanodeg: lat },
        longitude: Coordinate { nanodeg: lon },
    }
}

#[test]
fn two_subscribers_each_observe_a_published_item_exactly_once() {
    // The scenario of one enriched contact fanned out to two subscribers.
    let mut hub = Hub::new(10);
    let a = hub.attach();
    let b = hub.attach();
    let item = qso("IS0GVH", "20m", 39_123_456_000, 9_654_321_000);
    hub.publish(&item);
    for id in [a, b] {
        let got = hub.receive(id).unwrap();
        assert_eq!(got.call, "IS0GVH");
        assert_eq!(got.band, "20m");
        assert_eq!(got.latitude.nanodeg, 39_123_456_000);
        assert_eq!(got.longitude.nanodeg, 9_654_321_000);
        // exactly once: the buffer is empty again
        assert!(hub.receive(id).is_none());
    }
}

#[test]
fn items_arrive_in_publish_order_for_every_subscriber() {
    let mut hub = Hub::new(10);
    let a = hub.attach();
    let b = hub.attach();
    for k in 0..5 {
        hub.publish(&qso("CALL", "20m", k, 0));
    }
    for id in [a, b] {
        for k in 0..5 {
            assert_eq!(hub.receive(id).unwrap().latitude.nanodeg, k);
        }
        assert!(hub.receive(id).is_none());
    }
}

#[test]
fn a_late_subscriber_never_observes_earlier_items() {
    let mut hub = Hub::new(10);
    let early = hub.attach();
    hub.publish(&qso("BEFORE", "20m", 1, 1));
    let late = hub.attach();
    hub.publish(&qso("AFTER", "20m", 2, 2));
    assert_eq!(hub.receive(late).unwrap().call, "AFTER");
    assert!(hub.receive(late).is_none());
    assert_eq!(hub.receive(early).unwrap().call, "BEFORE");
    assert_eq!(hub.receive(early).unwrap().call, "AFTER");
}

#[test]
fn overflow_drops_the_oldest_item_for_the_lagger_only() {
    let mut hub = Hub::new(2);
    let lagger = hub.attach();
    let keeper = hub.attach();
    hub.publish(&qso("ONE", "20m", 1, 0));
    hub.publish(&qso("TWO", "20m", 2, 0));
    // the keeper drains, the lagger does not
    assert_eq!(hub.receive(keeper).unwrap().call, "ONE");
    assert_eq!(hub.receive(keeper).unwrap().call, "TWO");
    hub.publish(&qso("THREE", "20m", 3, 0));
    // the lagger was full: its oldest item is gone, order intact
    assert_eq!(hub.receive(lagger).unwrap().call, "TWO");
    assert_eq!(hub.receive(lagger).unwrap().call, "THREE");
    assert!(hub.receive(lagger).is_none());
    // the keeper saw everything
    assert_eq!(hub.receive(keeper).unwrap().call, "THREE");
}

#[test]
fn detaching_one_subscriber_leaves_the_others_alone() {
    let mut hub = Hub::new(10);
    let a = hub.attach();
    let b = hub.attach();
    hub.publish(&qso("ONE", "20m", 1, 0));
    hub.detach(a);
    hub.publish(&qso("TWO", "20m", 2, 0));
    assert_eq!(hub.receive(b).unwrap().call, "ONE");
    assert_eq!(hub.receive(b).unwrap().call, "TWO");
    assert!(hub.receive(b).is_none());
}

#[test]
fn an_empty_hub_hands_out_nothing() {
    let mut hub = Hub::new(10);
    let a = hub.attach();
    assert!(hub.receive(a).is_none());
}
