use matchstick::client::{
    kraken_api_sign, nonce_postdata, session_step, subscribe_request, validate_credentials,
    validate_token_response, ConnectionError, NonceCounter, SessionEvent, SessionState,
};
use matchstick::messages::{TokenResponse, TokenResponseResult};

// The exchange's published signing example: a fixed key, nonce and
// body with the signature its documentation states.
const EXAMPLE_SECRET: &str =
    "kQH5HW/8p1uGOVjbgWA7FunAmGO8lsSUXNsu3eow76sz84Q18fWxnyRzBHCd3pd5nE9qa99HAZtuZuj6F1huXg==";

#[test]
fn signature_matches_published_example() {
    let signed = kraken_api_sign(
        "/0/private/AddOrder",
        "1616492376594",
        "nonce=1616492376594&ordertype=limit&pair=XBTUSD&price=37500&type=buy&volume=1.25",
        EXAMPLE_SECRET,
    );
    assert_eq!(
        signed.as_deref(),
        Some("4/dpxb3iT4tp/ZCVEwSnEsLxx0bqyhLpdfOpc6fn7OR8+UClSV5n9E6aSS8MPtnRfp32bAb0nmbRn6H8ndwLUQ==")
    );
}

#[test]
fn signature_refuses_non_base64_secret() {
    assert_eq!(
        kraken_api_sign("/0/private/Token", "1", "nonce=1", "!!! not base64 !!!"),
        None
    );
}

#[test]
fn token_reply_errors_win() {
    let resp = TokenResponse {
        result: Some(TokenResponseResult {
            token: "tok".to_string(),
            expires: 900,
        }),
        error: vec!["EAPI:Invalid key".to_string(), "EGeneral:Temporary".to_string()],
    };
    match validate_token_response(resp) {
        Err(ConnectionError::ApiError(m)) => {
            assert_eq!(m, "EAPI:Invalid key, EGeneral:Temporary");
        }
        other => panic!("unexpected: {:?}", other),
    }
}

#[test]
fn token_reply_without_body_is_missing_token() {
    let resp = TokenResponse { result: None, error: vec![] };
    assert_eq!(
        validate_token_response(resp),
        Err(ConnectionError::MissingToken)
    );
}

#[test]
fn token_reply_yields_token() {
    let resp = TokenResponse {
        result: Some(TokenResponseResult {
            token: "WW91ciBhdXRoZW50aWNhdGlvbiB0b2tlbg".to_string(),
            expires: 900,
        }),
        error: vec![],
    };
    assert_eq!(
        validate_token_response(resp),
        Ok("WW91ciBhdXRoZW50aWNhdGlvbiB0b2tlbg".to_string())
    );
}

#[test]
fn nonce_postdata_renders_decimal() {
    assert_eq!(nonce_postdata(0), "nonce=0");
    assert_eq!(nonce_postdata(1616492376594), "nonce=1616492376594");
    assert_eq!(nonce_postdata(u64::MAX), "nonce=18446744073709551615");
}

#[test]
fn nonces_strictly_increase_within_one_millisecond() {
    let mut counter = NonceCounter::new();
    let a = counter.next(1700000000000);
    let b = counter.next(1700000000000);
    let c = counter.next(1700000000000);
    let d = counter.next(1700000000005);
    assert_eq!(a, 1700000000000);
    assert_eq!(b, 1700000000001);
    assert_eq!(c, 1700000000002);
    assert_eq!(d, 1700000000005);
}

#[test]
fn subscribe_request_names_channel_and_token() {
    let req = subscribe_request("BTC/USD".to_string(), 1000, "tok".to_string());
    assert_eq!(req.method, "subscribe");
    assert_eq!(req.params.channel, "level3");
    assert_eq!(req.params.symbol, vec!["BTC/USD".to_string()]);
    assert_eq!(req.params.depth, Some(1000));
    assert_eq!(req.params.snapshot, Some(true));
    assert_eq!(req.params.token, "tok");
    assert_eq!(req.params.req_id, None);
}

#[test]
fn session_lifecycle_advances_in_order() {
    let s0 = SessionState::Disconnected;
    let s1 = session_step(s0, SessionEvent::OpenRequested);
    assert_eq!(s1, SessionState::Connecting);
    let s2 = session_step(s1, SessionEvent::TransportReady);
    assert_eq!(s2, SessionState::Subscribed);
    let s3 = session_step(s2, SessionEvent::FrameReceived);
    assert_eq!(s3, SessionState::Streaming);
    assert_eq!(
        session_step(s3, SessionEvent::FrameReceived),
        SessionState::Streaming
    );
    // Out-of-order events change nothing.
    assert_eq!(
        session_step(s0, SessionEvent::FrameReceived),
        SessionState::Disconnected
    );
    assert_eq!(
        session_step(s3, SessionEvent::OpenRequested),
        SessionState::Streaming
    );
    // Losing the transport always grounds the session.
    assert_eq!(
        session_step(s2, SessionEvent::ConnectionLost),
        SessionState::Disconnected
    );
}

#[test]
fn token_reply_with_empty_token_is_missing_token() {
    let resp = TokenResponse {
        result: Some(TokenResponseResult {
            token: String::new(),
            expires: 900,
        }),
        error: vec![],
    };
    assert_eq!(
        validate_token_response(resp),
        Err(ConnectionError::MissingToken)
    );
}

#[test]
fn credentials_must_be_present_and_non_empty() {
    assert_eq!(
        validate_credentials(&Some("key".to_string()), &Some("secret".to_string())),
        Ok(())
    );
    assert_eq!(
        validate_credentials(&None, &Some("secret".to_string())),
        Err(ConnectionError::MissingApiKey)
    );
    assert_eq!(
        validate_credentials(&Some("key".to_string()), &None),
        Err(ConnectionError::MissingApiKey)
    );
    assert_eq!(
        validate_credentials(&Some(String::new()), &Some("secret".to_string())),
        Err(ConnectionError::MissingApiKey)
    );
    assert_eq!(
        validate_credentials(&Some("key".to_string()), &Some(String::new())),
        Err(ConnectionError::MissingApiKey)
    );
}
