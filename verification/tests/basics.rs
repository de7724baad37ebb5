use nadeo_api::json::{member, JsonDoc, JsonScalar};
use nadeo_api::ratelimit::{
    millis_between_exec, rate_limit_step, record_request_time, RateLimitStep, RequestTimes,
    RATE_WINDOW_MIN, REQ_TIMES_CAPACITY,
};
use nadeo_api::text::{bool_to_string, i64_to_string, parse_u64, u64_to_string};
use nadeo_api::time::UtcTime;

#[test]
fn decimal_rendering() {
    assert_eq!(u64_to_string(0), "0");
    assert_eq!(u64_to_string(u64::MAX), u64::MAX.to_string());
    assert_eq!(i64_to_string(i64::MIN), i64::MIN.to_string());
    assert_eq!(i64_to_string(-7), "-7");
    assert_eq!(bool_to_string(false), "false");
}

#[test]
fn decimal_parsing() {
    assert_eq!(parse_u64("0"), Some(0));
    assert_eq!(parse_u64("007"), Some(7));
    assert_eq!(parse_u64("+"), None);
    assert_eq!(parse_u64("-1"), None);
    assert_eq!(parse_u64(" 1"), None);
    for n in [0u64, 9, 10, 99, 1234567890, u64::MAX] {
        assert_eq!(parse_u64(&u64_to_string(n)), Some(n));
    }
}

#[test]
fn json_members() {
    let doc = JsonDoc::Object(
        vec![
            ("s".to_string(), JsonScalar::Str("x".to_string())),
            ("n".to_string(), JsonScalar::Number(Some(-3))),
            ("nul".to_string(), JsonScalar::Null),
            ("b".to_string(), JsonScalar::Other),
        ],
        r#"{"s":"x","n":-3,"nul":null,"b":true}"#.to_string(),
    );
    assert!(matches!(member(&doc, "s"), JsonScalar::Str(s) if s == "x"));
    assert!(matches!(member(&doc, "n"), JsonScalar::Number(Some(-3))));
    assert!(matches!(member(&doc, "nul"), JsonScalar::Null));
    assert!(matches!(member(&doc, "missing"), JsonScalar::Null));
    assert!(matches!(member(&doc, "b"), JsonScalar::Other));
    let arr = JsonDoc::Array(2, "[1,2]".to_string(), "Array [Number(1), Number(2)]".to_string());
    assert!(matches!(member(&arr, "s"), JsonScalar::Null));
}

fn t(secs: i64, nanos: u32) -> UtcTime {
    UtcTime { secs, nanos }
}

#[test]
fn millis_truncate_toward_zero() {
    assert_eq!(millis_between_exec(t(0, 0), t(1, 500_000)), 1000);
    assert_eq!(millis_between_exec(t(1, 500_000), t(0, 0)), -1000);
    assert_eq!(millis_between_exec(t(10, 999_999_999), t(11, 0)), 0);
    assert_eq!(millis_between_exec(t(0, 0), t(2, 2_000_000)), 2002);
}

#[test]
fn rate_limit_records_below_window() {
    let mut times = RequestTimes::for_client();
    assert_eq!(times.len(), 0);
    assert_eq!(times.rate_fraction(t(0, 0)), None);
    for i in 0..RATE_WINDOW_MIN {
        assert_eq!(rate_limit_step(&mut times, t(i as i64, 0)), RateLimitStep::Recorded);
    }
    assert_eq!(times.len(), RATE_WINDOW_MIN);
    assert_eq!(times.span(t(100, 0)), Some((RATE_WINDOW_MIN, 100_000)));
}

#[test]
fn rate_limit_waits_when_fast() {
    let mut times = RequestTimes::for_client();
    for _ in 0..RATE_WINDOW_MIN {
        rate_limit_step(&mut times, t(1000, 0));
    }
    // 500 requests over 100 s is 5 per second: too fast
    assert_eq!(times.rate_fraction(t(1100, 0)), Some((REQ_TIMES_CAPACITY, 100_000)));
    assert_eq!(rate_limit_step(&mut times, t(1100, 0)), RateLimitStep::Wait);
    // over 200 s it is 2.5 per second: fine
    assert_eq!(rate_limit_step(&mut times, t(1200, 0)), RateLimitStep::Proceed);
    assert_eq!(times.len(), RATE_WINDOW_MIN);
    record_request_time(&mut times, t(1200, 0));
    assert_eq!(times.len(), RATE_WINDOW_MIN + 1);
}

#[test]
fn request_times_drop_oldest_when_full() {
    let mut times = RequestTimes::for_client();
    for i in 0..REQ_TIMES_CAPACITY {
        record_request_time(&mut times, t(i as i64, 0));
    }
    assert_eq!(times.len(), REQ_TIMES_CAPACITY);
    record_request_time(&mut times, t(1000, 0));
    assert_eq!(times.len(), REQ_TIMES_CAPACITY);
    // the oldest is now the second time recorded
    assert_eq!(times.span(t(1, 0)), Some((REQ_TIMES_CAPACITY, 0)));
}
