//! The computations of the session bootstrap: the signed-handshake
//! request signature, the nonce source, the `nonce=` body, validation
//! of the token reply, and the subscribe control message. The network
//! itself stays outside; everything here is a function from plain
//! values to plain values.

use vstd::prelude::*;

use crate::messages::{SubscribeParams, SubscribeRequest, TokenResponse};

verus! {

use vstd::string::StrSliceExecFns;
use vstd::string::StringExecFns;
use vstd::string::StringSliceAdditionalSpecFns;

#[derive(PartialEq, Eq, Debug)]
pub enum ConnectionError {
    /// The streaming connection could not be opened.
    FailedToConnect(String),
    /// A credential is missing.
    MissingApiKey,
    /// The API secret is not base64.
    InvalidSecret,
    /// The token exchange failed at the transport.
    InvalidRequest(String),
    /// The token reply carried no token.
    MissingToken,
    /// The exchange reported errors.
    ApiError(String),
}

pub uninterp spec fn sha256_of(data: Seq<u8>) -> Seq<u8>;

pub uninterp spec fn hmac_sha512_of(key: Seq<u8>, data: Seq<u8>) -> Seq<u8>;

pub uninterp spec fn b64_decode_of(text: Seq<char>) -> Option<Seq<u8>>;

pub uninterp spec fn b64_encode_of(data: Seq<u8>) -> Seq<char>;

/// Relies on sha2's `Sha256::digest`: the digest of the input bytes
/// alone, 32 bytes long.
#[verifier::external_body]
fn sha256(data: &[u8]) -> (r: Vec<u8>)
    ensures
        r@ == sha256_of(data@),
        r@.len() == 32,
{
    <sha2::Sha256 as sha2::Digest>::digest(data).to_vec()
}

/// Relies on hmac's `Hmac` over sha2's `Sha512`: the MAC of the input
/// under the key, 64 bytes long; a key of any length is accepted.
#[verifier::external_body]
fn hmac_sha512(key: &[u8], data: &[u8]) -> (r: Vec<u8>)
    ensures
        r@ == hmac_sha512_of(key@, data@),
        r@.len() == 64,
{
    let mut mac = <hmac::Hmac<sha2::Sha512> as hmac::KeyInit>::new_from_slice(key)
        .expect("HMAC accepts keys of any length");
    hmac::Mac::update(&mut mac, data);
    hmac::Mac::finalize(mac).into_bytes().to_vec()
}

/// Relies on base64's standard-alphabet engine with padding:
/// `Engine::decode`, or nothing where the text is not base64.
#[verifier::external_body]
fn b64_decode(text: &str) -> (r: Option<Vec<u8>>)
    ensures
        match r {
            Some(v) => b64_decode_of(text@) == Some(v@),
            None => b64_decode_of(text@) is None,
        },
{
    match base64::Engine::decode(&base64::engine::general_purpose::STANDARD, text) {
        Ok(v) => Some(v),
        Err(_) => None,
    }
}

/// Relies on base64's standard-alphabet engine with padding:
/// `Engine::encode`; empty input encodes to empty text.
#[verifier::external_body]
fn b64_encode(data: &[u8]) -> (r: String)
    ensures
        r@ == b64_encode_of(data@),
        data@.len() == 0 ==> r@.len() == 0,
{
    base64::Engine::encode(&base64::engine::general_purpose::STANDARD, data)
}

/// Appends a byte slice to a byte vector.
fn push_all(dst: &mut Vec<u8>, src: &[u8])
    ensures
        final(dst)@ == old(dst)@ + src@,
{
    let mut i: usize = 0;
    while i < src.len()
        invariant
            i <= src@.len(),
            dst@ == old(dst)@ + src@.take(i as int),
        decreases src@.len() - i,
    {
        dst.push(src[i]);
        proof {
            assert(old(dst)@ + src@.take(i + 1) =~= (old(dst)@ + src@.take(i as int)).push(
                src@[i as int],
            ));
        }
        i += 1;
    }
    proof {
        assert(src@.take(src@.len() as int) =~= src@);
    }
}

/// The request signature of the token exchange, bit for bit: SHA-256
/// over nonce and body, the REST path bytes in front, HMAC-SHA512
/// under the base64-decoded secret, and the MAC base64-encoded again.
/// Nothing where the secret is not base64.
pub fn kraken_api_sign(path: &str, nonce: &str, postdata: &str, api_secret: &str) -> (r:
    Option<String>)
    ensures
        r is None <==> b64_decode_of(api_secret@) is None,
        r is Some ==> r.unwrap()@ == b64_encode_of(
            hmac_sha512_of(
                b64_decode_of(api_secret@).unwrap(),
                path.spec_bytes() + sha256_of(nonce.spec_bytes() + postdata.spec_bytes()),
            ),
        ),
{
    let secret = match b64_decode(api_secret) {
        Some(s) => s,
        None => {
            return None;
        },
    };
    let mut inner: Vec<u8> = Vec::new();
    push_all(&mut inner, nonce.as_bytes());
    push_all(&mut inner, postdata.as_bytes());
    proof {
        assert(inner@ =~= nonce.spec_bytes() + postdata.spec_bytes());
    }
    let hash = sha256(inner.as_slice());
    let mut message: Vec<u8> = Vec::new();
    push_all(&mut message, path.as_bytes());
    push_all(&mut message, hash.as_slice());
    proof {
        assert(message@ =~= path.spec_bytes() + sha256_of(
            nonce.spec_bytes() + postdata.spec_bytes(),
        ));
    }
    let mac = hmac_sha512(secret.as_slice(), message.as_slice());
    Some(b64_encode(mac.as_slice()))
}

/// The error strings of a token reply, joined by comma and space.
pub open spec fn join_comma(errs: Seq<Seq<char>>) -> Seq<char>
    decreases errs.len(),
{
    if errs.len() == 0 {
        Seq::empty()
    } else if errs.len() == 1 {
        errs[0]
    } else {
        errs[0] + ", "@ + join_comma(errs.drop_first())
    }
}

/// Joining one more string appends a separator and that string.
proof fn lemma_join_snoc(errs: Seq<Seq<char>>, i: int)
    requires
        1 <= i < errs.len(),
    ensures
        join_comma(errs.take(i + 1)) == join_comma(errs.take(i)) + ", "@ + errs[i],
    decreases i,
{
    if i == 1 {
        assert(errs.take(2)[0] == errs[0]);
        assert(errs.take(2).drop_first() =~= seq![errs[1]]);
        assert(errs.take(1) =~= seq![errs[0]]);
        assert(join_comma(seq![errs[1]]) == errs[1]);
    } else {
        assert(errs.take(i + 1).drop_first() =~= errs.drop_first().take(i));
        assert(errs.take(i).drop_first() =~= errs.drop_first().take(i - 1));
        assert(errs.drop_first()[i - 1] == errs[i]);
        lemma_join_snoc(errs.drop_first(), i - 1);
        assert(errs.take(i + 1)[0] == errs[0]);
        assert(errs.take(i)[0] == errs[0]);
        assert(errs.take(i + 1).len() > 1);
        assert(errs.take(i).len() > 1);
        assert((errs[0] + ", "@ + (join_comma(errs.drop_first().take(i - 1)) + ", "@
            + errs[i])) =~= (errs[0] + ", "@ + join_comma(errs.drop_first().take(i - 1)) + ", "@
            + errs[i]));
    }
}

/// Validates the token reply: reported errors win, then a missing or
/// empty token, and only then the token itself.
pub fn validate_token_response(resp: TokenResponse) -> (r: Result<String, ConnectionError>)
    ensures
        resp.error.deep_view().len() > 0 ==> (match r {
            Err(ConnectionError::ApiError(m)) => m@ == join_comma(resp.error.deep_view()),
            _ => false,
        }),
        resp.error.deep_view().len() == 0 && (resp.result is None
            || resp.result.unwrap().token@.len() == 0) ==> r == Err::<
            String,
            ConnectionError,
        >(ConnectionError::MissingToken),
        resp.error.deep_view().len() == 0 && resp.result is Some
            && resp.result.unwrap().token@.len() > 0 ==> (match r {
            Ok(t) => t@ == resp.result.unwrap().token@,
            _ => false,
        }),
{
    if resp.error.len() > 0 {
        let ghost views = resp.error.deep_view();
        let mut joined = String::new();
        joined.append(resp.error[0].as_str());
        proof {
            assert(views.take(1) =~= seq![views[0]]);
            assert(resp.error[0]@ == views[0]);
            assert(joined@ == join_comma(views.take(1)));
        }
        let mut i: usize = 1;
        while i < resp.error.len()
            invariant
                1 <= i <= resp.error@.len(),
                views == resp.error.deep_view(),
                views.len() == resp.error@.len(),
                joined@ == join_comma(views.take(i as int)),
            decreases resp.error@.len() - i,
        {
            joined.append(", ");
            joined.append(resp.error[i].as_str());
            proof {
                assert(resp.error[i as int]@ == views[i as int]);
                lemma_join_snoc(views, i as int);
            }
            i += 1;
        }
        proof {
            assert(views.take(views.len() as int) =~= views);
        }
        return Err(ConnectionError::ApiError(joined));
    }
    match resp.result {
        None => Err(ConnectionError::MissingToken),
        Some(body) => {
            if body.token.as_str().is_empty() {
                Err(ConnectionError::MissingToken)
            } else {
                Ok(body.token)
            }
        },
    }
}

/// Both credentials present and non-empty: what the bootstrap needs
/// before any signing or network work.
pub open spec fn credentials_ok(api_key: Option<String>, api_secret: Option<String>) -> bool {
    &&& api_key is Some && api_key.unwrap()@.len() > 0
    &&& api_secret is Some && api_secret.unwrap()@.len() > 0
}

/// The fail-fast credential check of the bootstrap: an unset or empty
/// key or secret stops the session before anything else runs.
pub fn validate_credentials(api_key: &Option<String>, api_secret: &Option<String>) -> (r:
    Result<(), ConnectionError>)
    ensures
        credentials_ok(*api_key, *api_secret) ==> r == Ok::<(), ConnectionError>(()),
        !credentials_ok(*api_key, *api_secret) ==> r == Err::<(), ConnectionError>(
            ConnectionError::MissingApiKey,
        ),
{
    match (api_key, api_secret) {
        (Some(key), Some(secret)) => {
            if !key.as_str().is_empty() && !secret.as_str().is_empty() {
                Ok(())
            } else {
                Err(ConnectionError::MissingApiKey)
            }
        },
        _ => Err(ConnectionError::MissingApiKey),
    }
}

/// The digit character of one decimal place.
pub open spec fn digit_char(d: nat) -> char {
    if d == 0 {
        '0'
    } else if d == 1 {
        '1'
    } else if d == 2 {
        '2'
    } else if d == 3 {
        '3'
    } else if d == 4 {
        '4'
    } else if d == 5 {
        '5'
    } else if d == 6 {
        '6'
    } else if d == 7 {
        '7'
    } else if d == 8 {
        '8'
    } else {
        '9'
    }
}

/// The decimal numeral of a number, most significant digit first.
pub open spec fn dec_digits(n: nat) -> Seq<char>
    decreases n,
{
    if n < 10 {
        seq![digit_char(n)]
    } else {
        dec_digits(n / 10).push(digit_char(n % 10))
    }
}

/// Appends one decimal digit character.
fn push_digit(out: &mut String, d: u64)
    requires
        d < 10,
    ensures
        final(out)@ == old(out)@.push(digit_char(d as nat)),
{
    proof {
        reveal_strlit("0");
        reveal_strlit("1");
        reveal_strlit("2");
        reveal_strlit("3");
        reveal_strlit("4");
        reveal_strlit("5");
        reveal_strlit("6");
        reveal_strlit("7");
        reveal_strlit("8");
        reveal_strlit("9");
    }
    let ghost pre = out@;
    if d == 0 {
        out.append("0");
    } else if d == 1 {
        out.append("1");
    } else if d == 2 {
        out.append("2");
    } else if d == 3 {
        out.append("3");
    } else if d == 4 {
        out.append("4");
    } else if d == 5 {
        out.append("5");
    } else if d == 6 {
        out.append("6");
    } else if d == 7 {
        out.append("7");
    } else if d == 8 {
        out.append("8");
    } else {
        out.append("9");
    }
    proof {
        assert(out@ =~= pre.push(digit_char(d as nat)));
    }
}

/// Appends the decimal numeral of a number.
fn push_u64_dec(out: &mut String, n: u64)
    ensures
        final(out)@ == old(out)@ + dec_digits(n as nat),
    decreases n,
{
    if n < 10 {
        push_digit(out, n);
        proof {
            assert(old(out)@.push(digit_char(n as nat)) =~= old(out)@ + dec_digits(n as nat));
        }
    } else {
        let ghost pre = out@;
        push_u64_dec(out, n / 10);
        push_digit(out, n % 10);
        proof {
            assert((pre + dec_digits((n / 10) as nat)).push(digit_char((n % 10) as nat)) =~= pre
                + dec_digits(n as nat));
        }
    }
}

/// The token-exchange body for a nonce: `nonce=` and the decimal
/// numeral.
pub fn nonce_postdata(nonce: u64) -> (r: String)
    ensures
        r@ == "nonce="@ + dec_digits(nonce as nat),
{
    let mut body = String::from_str("nonce=");
    push_u64_dec(&mut body, nonce);
    body
}

/// A strictly increasing nonce source: wall-clock milliseconds where
/// they lead, one past the last value otherwise, so that two signings
/// in the same millisecond never repeat a nonce.
pub struct NonceCounter {
    pub last: u64,
}

impl NonceCounter {
    pub fn new() -> (r: NonceCounter)
        ensures
            r.last == 0,
    {
        NonceCounter { last: 0 }
    }

    pub fn next(&mut self, now_ms: u64) -> (r: u64)
        requires
            old(self).last < u64::MAX,
        ensures
            r == final(self).last,
            r == (if now_ms > old(self).last {
                now_ms
            } else {
                (old(self).last + 1) as u64
            }),
            r > old(self).last,
            r >= now_ms,
    {
        if now_ms > self.last {
            self.last = now_ms;
        } else {
            self.last = self.last + 1;
        }
        self.last
    }
}

/// The feed connection's lifecycle, in the order the bootstrap drives
/// it: no connection, transport opening, subscribe sent, frames
/// flowing.
#[derive(Clone, Copy, PartialEq, Eq, Structural, Debug)]
pub enum SessionState {
    Disconnected,
    Connecting,
    Subscribed,
    Streaming,
}

/// What the transport reports while a session runs.
#[derive(Clone, Copy, PartialEq, Eq, Structural, Debug)]
pub enum SessionEvent {
    OpenRequested,
    TransportReady,
    FrameReceived,
    ConnectionLost,
}

/// Advances the lifecycle one step: opening starts only from the
/// ground state, readiness follows opening, the first frame starts
/// streaming and later frames keep it there, and any loss of the
/// transport drops the session back to the ground state. Every other
/// pairing leaves the state alone.
pub fn session_step(state: SessionState, event: SessionEvent) -> (r: SessionState)
    ensures
        event == SessionEvent::ConnectionLost ==> r == SessionState::Disconnected,
        event == SessionEvent::OpenRequested ==> r == (if state == SessionState::Disconnected {
            SessionState::Connecting
        } else {
            state
        }),
        event == SessionEvent::TransportReady ==> r == (if state == SessionState::Connecting {
            SessionState::Subscribed
        } else {
            state
        }),
        event == SessionEvent::FrameReceived ==> r == (if state == SessionState::Subscribed
            || state == SessionState::Streaming {
            SessionState::Streaming
        } else {
            state
        }),
{
    match event {
        SessionEvent::ConnectionLost => SessionState::Disconnected,
        SessionEvent::OpenRequested => {
            if state == SessionState::Disconnected {
                SessionState::Connecting
            } else {
                state
            }
        },
        SessionEvent::TransportReady => {
            if state == SessionState::Connecting {
                SessionState::Subscribed
            } else {
                state
            }
        },
        SessionEvent::FrameReceived => {
            if state == SessionState::Subscribed || state == SessionState::Streaming {
                SessionState::Streaming
            } else {
                state
            }
        },
    }
}

/// The one subscribe control message this client sends: the `level3`
/// channel, one symbol, a depth, snapshot on subscribe, the session's
/// token, and no request id.
pub fn subscribe_request(symbol: String, depth: u32, token: String) -> (r: SubscribeRequest)
    ensures
        r.method@ == "subscribe"@,
        r.params.channel@ == "level3"@,
        r.params.symbol.deep_view() =~= seq![symbol@],
        r.params.depth == Some(depth),
        r.params.snapshot == Some(true),
        r.params.token@ == token@,
        r.params.req_id is None,
{
    let mut symbols: Vec<String> = Vec::new();
    symbols.push(symbol);
    SubscribeRequest {
        method: String::from_str("subscribe"),
        params: SubscribeParams {
            channel: String::from_str("level3"),
            symbol: symbols,
            depth: Some(depth),
            snapshot: Some(true),
            token,
            req_id: None,
        },
    }
}

} // verus!
