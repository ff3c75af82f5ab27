//! Limiting how much is in flight.
use river::config::internal::{OverloadConfig, Rejection};
use river::proxy::message::Header;
use river::proxy::overload::Overload;


fn limited(max: Option<usize>) -> Overload {
    Overload::new(OverloadConfig {
        max_concurrent_requests: max,
        rejection: Rejection {
            status: 503,
            body: None,
        },
        ..Default::default()
    })
}

#[test]
fn without_a_limit_everything_is_admitted() {
    let mut o = limited(None);
    for _ in 0..1000 {
        assert!(o.acquire());
    }
    // Nothing is counted, so there is nothing to give back
    assert_eq!(o.in_flight(), 0);
}

#[test]
fn requests_past_the_limit_are_shed() {
    let mut o = limited(Some(2));

    assert!(o.acquire());
    assert!(o.acquire());
    assert!(!o.acquire());
    assert_eq!(o.in_flight(), 2);
}

#[test]
fn a_shed_request_does_not_leak_a_slot() {
    let mut o = limited(Some(1));

    assert!(o.acquire());
    // Several rejections in a row must not push the count up, or the
    // service would never recover.
    for _ in 0..10 {
        assert!(!o.acquire());
    }
    assert_eq!(o.in_flight(), 1);

    o.release();
    assert_eq!(o.in_flight(), 0);
    assert!(o.acquire());
}

#[test]
fn releasing_makes_room_again() {
    let mut o = limited(Some(1));

    assert!(o.acquire());
    assert!(!o.acquire());
    o.release();
    assert!(o.acquire());
}

#[test]
fn what_is_taken_is_what_was_granted_less_what_came_back() {
    let mut o = limited(Some(3));
    let mut granted = 0;
    let mut returned = 0;
    for step in [true, true, false, true, true, true, false, false, true, false] {
        if step {
            granted += usize::from(o.acquire());
        } else {
            o.release();
            returned += 1;
        }
        assert_eq!(o.in_flight(), granted - returned);
    }
    assert_eq!((granted, returned), (5, 4));
}

fn header(name: &str, value: &str) -> Header {
    Header {
        name: name.to_string(),
        value: value.as_bytes().to_vec(),
    }
}

#[test]
fn headers_are_counted_and_measured() {
    let headers = vec![header("host", "example.com"), header("a", "12")];

    let counted = |max| {
        Overload::new(OverloadConfig {
            max_headers: Some(max),
            ..Default::default()
        })
        .header_within_limits(&headers)
    };
    assert!(counted(2));
    assert!(!counted(1));

    // 4 + 11 and 1 + 2 bytes
    let measured = |max| {
        Overload::new(OverloadConfig {
            max_header_bytes: Some(max),
            ..Default::default()
        })
        .header_within_limits(&headers)
    };
    assert!(measured(18));
    assert!(!measured(17));
}
