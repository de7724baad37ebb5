use nadeo_api::auth::{
    get_token_body, get_token_body_audience, get_token_body_expiry, get_token_body_refresh_after,
    nadeo_authz_header, oauth_token_after_login, oauth_token_step, ubi_ticket_header_from, NadeoAudience, NadeoCredentials,
    NadeoToken, NadeoTokens, OAuthCredentials, OAuthToken, OAuthTokenStep, UserAgentDetails,
};
use nadeo_api::json::{JsonDoc, JsonScalar};
use nadeo_api::time::{i64_to_datetime, now_dt, UtcTime};

const PAYLOAD: &str = "eyJhdWQiOiJOYWRlb1NlcnZpY2VzIiwiZXhwIjoxNzAwMDAwMDAwLCJyYXQiOjE2OTk5OTAwMDB9";

fn token_with(payload: &str) -> String {
    format!("header.{}.signature", payload)
}

fn token(access: &str, refresh: &str, audience: NadeoAudience) -> NadeoToken {
    NadeoToken { audience, access_token: access.to_string(), refresh_token: refresh.to_string() }
}

#[test]
fn basic_auth_header_encodes_login_and_password() {
    let c = NadeoCredentials::dedicated_server("user", "pass");
    assert_eq!(c.get_basic_auth_header(), "Basic dXNlcjpwYXNz");
    let u = NadeoCredentials::ubisoft("é", "ü");
    assert_eq!(u.get_basic_auth_header(), "Basic w6k6w7w=");
}

#[test]
fn credentials_are_of_one_kind() {
    let d = NadeoCredentials::dedicated_server("u", "p");
    assert!(d.is_dedi() && !d.is_ubi());
    let u = NadeoCredentials::ubisoft("e", "p");
    assert!(u.is_ubi() && !u.is_dedi());
    match u {
        NadeoCredentials::Ubisoft { e, p } => assert_eq!((e.as_str(), p.as_str()), ("e", "p")),
        _ => panic!("expected ubisoft credentials"),
    }
}

#[test]
fn oauth_credentials_keep_their_fields() {
    let c = OAuthCredentials::new("id", "secret");
    assert_eq!(c.client_id, "id");
    assert_eq!(c.client_secret, "secret");
}

#[test]
fn user_agent_string_format() {
    let ua = UserAgentDetails::new("my_app", "me@example.com", "1.2.3");
    assert_eq!(ua.get_user_agent_string(), "my_app/1.2.3 (me@example.com)");
}

#[test]
fn audience_strings_round_trip() {
    assert_eq!(NadeoAudience::Core.get_audience_string(), "NadeoServices");
    assert_eq!(NadeoAudience::Live.get_audience_string(), "NadeoLiveServices");
    for a in [NadeoAudience::Core, NadeoAudience::Live] {
        assert_eq!(NadeoAudience::from_audience_string(a.get_audience_string()), Some(a));
    }
    assert_eq!(NadeoAudience::from_audience_string("NadeoClubServices"), None);
    assert_eq!(NadeoAudience::from_audience_string(""), None);
}

#[test]
fn token_body_reads_payload() {
    let t = token_with(PAYLOAD);
    let body = get_token_body(&t).unwrap();
    assert_eq!(get_token_body_audience(&body).unwrap(), "NadeoServices");
    assert_eq!(get_token_body_expiry(&body).unwrap(), 1700000000);
    assert_eq!(get_token_body_refresh_after(&body).unwrap(), 1699990000);
}

#[test]
fn token_body_with_two_parts_only() {
    let t = format!("header.{}", PAYLOAD);
    let body = get_token_body(&t).unwrap();
    assert_eq!(get_token_body_expiry(&body).unwrap(), 1700000000);
}

#[test]
fn token_body_errors() {
    assert_eq!(get_token_body(&"nodots".to_string()).unwrap_err(), "Token does not have 3 parts");
    assert!(get_token_body(&"a.!!!.c".to_string()).is_err());
    // "bm90IGpzb24" is the base64 of "not json"
    assert!(get_token_body(&"a.bm90IGpzb24.c".to_string()).is_err());
}

#[test]
fn token_body_member_errors() {
    let t = token_with("eyJhdWQiOjcsImV4cCI6InNvb24ifQ");
    let body = get_token_body(&t).unwrap();
    assert_eq!(get_token_body_audience(&body).unwrap_err(), "token.aud is not a string");
    assert_eq!(get_token_body_expiry(&body).unwrap_err(), "token.exp is not a i64");
    assert_eq!(get_token_body_refresh_after(&body).unwrap_err(), "token.rat is not a i64");
}

#[test]
fn nadeo_token_from_response() {
    let body = br#"{"accessToken":"a.b.c","refreshToken":"d.e.f"}"#;
    let t = NadeoToken::from_response(NadeoAudience::Live, body).unwrap();
    assert_eq!(t.access_token, "a.b.c");
    assert_eq!(t.refresh_token, "d.e.f");
    assert_eq!(t.get_access_authz_header(), "nadeo_v1 t=a.b.c");
    assert_eq!(t.get_refresh_authz_header(), "nadeo_v1 t=d.e.f");
    assert_eq!(t.get_live_authz_header(), Some("nadeo_v1 t=a.b.c".to_string()));
    assert_eq!(t.get_core_authz_header(), None);
}

#[test]
fn nadeo_token_errors() {
    let body = br#"{ "refreshToken" : "r" }"#;
    assert_eq!(
        NadeoToken::from_response(NadeoAudience::Core, body).unwrap_err(),
        r#"No accessToken in response; body: {"refreshToken":"r"}"#
    );
    let body = br#"{"accessToken":"a"}"#;
    assert_eq!(NadeoToken::from_response(NadeoAudience::Core, body).unwrap_err(), "No refreshToken in response");
    assert_eq!(
        NadeoToken::from_response(NadeoAudience::Core, b"[1,2]").unwrap_err(),
        "No accessToken in response; body: [1,2]"
    );
    assert!(NadeoToken::from_response(NadeoAudience::Core, b"not json").is_err());
}

#[test]
fn token_times() {
    let access = token_with(PAYLOAD);
    let t = token(&access, "no-dots", NadeoAudience::Core);
    assert_eq!(t.get_access_expiry_i64().unwrap(), 1700000000);
    assert_eq!(t.get_access_expiry().unwrap(), UtcTime { secs: 1700000000, nanos: 0 });
    assert_eq!(t.get_access_refresh_after().unwrap(), UtcTime { secs: 1699990000, nanos: 0 });
    assert!(t.get_refresh_expiry_i64().is_err());
    assert!(t.get_refresh_expiry().is_err());
    assert!(t.get_refresh_refresh_after().is_err());
    let before = UtcTime { secs: 1699980000, nanos: 0 };
    let between = UtcTime { secs: 1699995000, nanos: 0 };
    let after = UtcTime { secs: 1700000001, nanos: 0 };
    assert!(!t.can_refresh_at(before));
    assert!(t.can_refresh_at(between));
    assert!(!t.is_access_expired_at(between));
    assert!(t.is_access_expired_at(after));
    // an unreadable refresh token counts as expired
    assert!(t.is_refresh_expired_at(before));
    assert!(t.is_refresh_expired());
    assert!(!t.needs_refresh_at(before));
    assert!(t.needs_refresh_at(between));
    assert!(t.needs_refresh_at(after));
    // the token expired in 2023
    assert!(t.is_access_expired());
    assert!(t.can_refresh());
}

#[test]
fn apply_refresh_keeps_or_replaces_refresh_token() {
    let mut t = token("old-a", "old-r", NadeoAudience::Core);
    assert_eq!(t.apply_refresh_response(br#"{"accessToken":"new-a","refreshToken":null}"#), Some(false));
    assert_eq!((t.access_token.as_str(), t.refresh_token.as_str()), ("new-a", "old-r"));
    assert_eq!(t.apply_refresh_response(br#"{"accessToken":"newer-a","refreshToken":"new-r"}"#), Some(true));
    assert_eq!((t.access_token.as_str(), t.refresh_token.as_str()), ("newer-a", "new-r"));
    assert_eq!(t.apply_refresh_response(br#"{"accessToken":"x"}"#), Some(false));
    assert_eq!(t.refresh_token, "new-r");
    // answers whose tokens cannot be taken change nothing
    assert_eq!(t.apply_refresh_response(br#"{"refreshToken":"y"}"#), None);
    assert_eq!(t.apply_refresh_response(br#"{"accessToken":"z","refreshToken":5}"#), None);
    assert_eq!(t.apply_refresh_response(b"{"), None);
    assert_eq!((t.access_token.as_str(), t.refresh_token.as_str()), ("x", "new-r"));
}

#[test]
fn tokens_pair() {
    let ts = NadeoTokens::new(token("c", "cr", NadeoAudience::Core), token("l", "lr", NadeoAudience::Live));
    assert_eq!(ts.core.access_token, "c");
    assert_eq!(ts.live.audience, NadeoAudience::Live);
}

#[test]
fn nadeo_header_format() {
    assert_eq!(nadeo_authz_header("abc"), "nadeo_v1 t=abc");
}

#[test]
fn ubi_ticket() {
    assert_eq!(ubi_ticket_header_from(br#"{"ticket":"T"}"#).unwrap(), "ubi_v1 t=T");
    assert_eq!(ubi_ticket_header_from(br#"{"ticket":1}"#).unwrap_err(), "No ticket in response");
    assert!(ubi_ticket_header_from(b"").is_err());
}

fn oauth_token(expires_in: i64) -> OAuthToken {
    OAuthToken {
        token_type: "Bearer".to_string(),
        expires_in,
        access_token: "xyz".to_string(),
        expires_at: None,
    }
}

#[test]
fn oauth_token_header_and_expiry() {
    let mut t = oauth_token(3600);
    assert_eq!(t.get_authz_header(), "Bearer xyz");
    let now = UtcTime { secs: 1000, nanos: 5 };
    assert!(t.set_expires_at(now));
    assert_eq!(t.expires_at, Some(UtcTime { secs: 4600, nanos: 5 }));
    // set once only
    assert!(!t.set_expires_at(UtcTime { secs: 2000, nanos: 0 }));
    assert_eq!(t.expires_at, Some(UtcTime { secs: 4600, nanos: 5 }));
    assert!(!t.should_refresh_at(UtcTime { secs: 4540, nanos: 0 }));
    assert!(t.should_refresh_at(UtcTime { secs: 4540, nanos: 6 }));
    assert!(t.should_refresh_at(UtcTime { secs: 5000, nanos: 0 }));
    // a token that expires far in the future needs no refresh now
    let mut long = oauth_token(3600);
    assert!(long.set_expires_at(now_dt()));
    assert!(!long.should_refresh());
}

#[test]
fn oauth_token_expiry_out_of_range() {
    let mut t = oauth_token(i64::MAX);
    assert!(!t.set_expires_at(UtcTime { secs: 0, nanos: 0 }));
    assert_eq!(t.expires_at, None);
}

#[test]
fn oauth_token_steps() {
    let now = UtcTime { secs: 1000, nanos: 0 };
    assert_eq!(oauth_token_step(&None, now), OAuthTokenStep::Login);
    let mut t = oauth_token(3600);
    assert!(t.set_expires_at(now));
    assert_eq!(oauth_token_step(&Some(t.clone()), now), OAuthTokenStep::UseCached);
    assert_eq!(oauth_token_step(&Some(t), UtcTime { secs: 4590, nanos: 0 }), OAuthTokenStep::Login);
}

#[test]
fn oauth_token_cached_after_login() {
    let now = UtcTime { secs: 1000, nanos: 0 };
    let mut first = oauth_token(3600);
    assert!(first.set_expires_at(now));
    let mut cache: Option<OAuthToken> = None;
    let handed = oauth_token_after_login(&mut cache, Ok(first)).unwrap();
    assert_eq!(handed.access_token, "xyz");
    // a second request before the token is due is answered from the cache
    assert_eq!(oauth_token_step(&cache, UtcTime { secs: 2000, nanos: 0 }), OAuthTokenStep::UseCached);
    assert_eq!(cache.as_ref().unwrap().access_token, handed.access_token);
    // a failed login keeps the cached token
    let err = oauth_token_after_login(&mut cache, Err("denied".to_string())).unwrap_err();
    assert_eq!(err, "denied");
    assert_eq!(cache.as_ref().unwrap().expires_at, Some(UtcTime { secs: 4600, nanos: 0 }));
    // once due, the next request logs in again
    assert_eq!(oauth_token_step(&cache, UtcTime { secs: 4540, nanos: 1 }), OAuthTokenStep::Login);
}

#[test]
fn datetime_conversion() {
    assert_eq!(i64_to_datetime(0).unwrap(), UtcTime { secs: 0, nanos: 0 });
    assert_eq!(i64_to_datetime(i64::MAX).unwrap_err(), "Failed to convert i64 to DateTime");
    let now = now_dt();
    assert!(now.secs > 1_600_000_000);
    assert!(UtcTime { secs: 1, nanos: 0 }.is_before(&now));
}

#[test]
fn nadeo_token_from_parsed_document() {
    let doc = JsonDoc::Object(
        vec![
            ("accessToken".to_string(), JsonScalar::Str("a".to_string())),
            ("refreshToken".to_string(), JsonScalar::Str("r".to_string())),
        ],
        r#"{"accessToken":"a","refreshToken":"r"}"#.to_string(),
    );
    let t = NadeoToken::new(NadeoAudience::Core, &doc).unwrap();
    assert_eq!(t.get_core_authz_header(), Some("nadeo_v1 t=a".to_string()));
    assert!(NadeoToken::refresh_answer_usable(&doc));
    let scalar = JsonDoc::Scalar("3".to_string(), "Number(3)".to_string());
    assert_eq!(NadeoToken::new(NadeoAudience::Core, &scalar).unwrap_err(), "No accessToken in response; body: 3");
    assert!(!NadeoToken::refresh_answer_usable(&scalar));
}

#[test]
fn datetime_range_bounds() {
    let min = -8_334_601_228_800i64;
    let max = 8_210_266_876_799i64;
    assert_eq!(i64_to_datetime(min).unwrap(), UtcTime { secs: min, nanos: 0 });
    assert!(i64_to_datetime(min - 1).is_err());
    assert_eq!(i64_to_datetime(max).unwrap(), UtcTime { secs: max, nanos: 0 });
    assert!(i64_to_datetime(max + 1).is_err());
}

#[test]
fn oauth_expiry_on_a_leap_second() {
    // a receipt time within a leap second: the expiry keeps the nanoseconds, which chrono
    // accepts only on the last second of a minute
    let mut t = oauth_token(60);
    assert!(t.set_expires_at(UtcTime { secs: 59, nanos: 1_500_000_000 }));
    assert_eq!(t.expires_at, Some(UtcTime { secs: 119, nanos: 1_500_000_000 }));
    let mut u = oauth_token(61);
    assert!(!u.set_expires_at(UtcTime { secs: 59, nanos: 1_500_000_000 }));
    assert_eq!(u.expires_at, None);
}
