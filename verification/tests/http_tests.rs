use downmanager::error::Error;
use downmanager::http::{range_header_value, RangeRetry, RangeStep};
use downmanager::recover::writerecoveryinfo;

#[test]
fn range_header_text() {
    assert_eq!(range_header_value(0, 0), "bytes=0-0");
    assert_eq!(range_header_value(25, 49), "bytes=25-49");
    assert_eq!(
        range_header_value(u64::MAX - 1, u64::MAX),
        "bytes=18446744073709551614-18446744073709551615"
    );
}

#[test]
fn busy_server_waits_double_then_give_up() {
    let mut r = RangeRetry::new();
    let mut waits = Vec::new();
    while r.may_send().is_ok() {
        match r.on_status(429) {
            RangeStep::Retry(d) => waits.push(d),
            _ => panic!("expected a retry"),
        }
    }
    assert_eq!(waits, vec![1, 2, 4, 8, 16]);
    assert!(matches!(r.may_send(), Err(Error::RateLimited)));
}

#[test]
fn range_answers() {
    let mut r = RangeRetry::new();
    assert!(matches!(r.on_status(429), RangeStep::Retry(1)));
    assert!(matches!(r.on_status(206), RangeStep::Accept));
    assert!(matches!(r.on_status(200), RangeStep::Refuse(Error::NoRangeSupport)));
    assert!(matches!(r.on_status(503), RangeStep::Refuse(Error::NetworkStatus(503))));
    assert!(matches!(r.on_status(429), RangeStep::Retry(2)));
}

#[test]
fn recovery_info_is_a_no_op() {
    assert!(writerecoveryinfo().is_ok());
}
