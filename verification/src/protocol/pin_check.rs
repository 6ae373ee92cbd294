//! Looking a PIN up over HTTP.  A sender posts `{"pin": ...}` to each
//! receiver's `/verify-pin`; the receiver whose PIN it is answers with its
//! name, the others refuse.  Requests and responses travel through the
//! caller; this module decides what they mean.

use vstd::prelude::*;

use crate::discovery::advertiser::{ipv4_text_bytes, push_ipv4};
use crate::discovery::browser::DiscoveredReceiver;
use crate::text::{ascii_to_string, decimal_bytes, lemma_decimal_ascii, push_decimal};
use crate::ui::messages::BackendEvent;

verus! {

/// What serde_json makes of `text`: `None` when it is not JSON, otherwise
/// the string stored under `key` if the value is an object holding a string
/// there (`Some(None)` if not).
pub uninterp spec fn json_string_at(text: Seq<char>, key: Seq<char>) -> Option<Option<Seq<char>>>;

/// `serde_json::from_str::<Value>` on `text`, then `value[key].as_str()`.
/// Claimed: the outcome is the named one.
#[verifier::external_body]
fn parse_json_string_at(text: &str, key: &str) -> (r: Option<Option<String>>)
    ensures
        r is None <==> json_string_at(text@, key@) is None,
        r is Some ==> (r->0 is None <==> json_string_at(text@, key@)->0 is None),
        r is Some && r->0 is Some ==> json_string_at(text@, key@)->0->0 == r->0->0@,
{
    match serde_json::from_str::<serde_json::Value>(text) {
        Ok(v) => Some(v[key].as_str().map(|s| s.to_string())),
        Err(_) => None,
    }
}

/// The view of an optional optional string.
pub open spec fn opt_opt_view(x: Option<Option<String>>) -> Option<Option<Seq<char>>> {
    match x {
        Some(Some(s)) => Some(Some(s@)),
        Some(None) => Some(None),
        None => None,
    }
}

/// The answer of a receiver's PIN check.
#[derive(Debug, Clone, Copy, PartialEq, Eq, Structural)]
pub enum PinResponse {
    /// 200, with the receiver's name.
    Matched,
    /// 403: not this receiver's PIN.
    Forbidden,
    /// 400: the request body could not be read.
    BadRequest,
    /// 404: not a POST to `/verify-pin`.
    NotFound,
}

impl PinResponse {
    /// The HTTP status of the answer.
    pub fn status_code(self) -> (c: u16)
        ensures
            c == match self {
                PinResponse::Matched => 200u16,
                PinResponse::Forbidden => 403u16,
                PinResponse::BadRequest => 400u16,
                PinResponse::NotFound => 404u16,
            },
    {
        match self {
            PinResponse::Matched => 200,
            PinResponse::Forbidden => 403,
            PinResponse::BadRequest => 400,
            PinResponse::NotFound => 404,
        }
    }
}

/// The verdict on a parsed request body: a match when it is JSON holding
/// the current PIN as the string `pin`.
pub open spec fn pin_verdict(parsed: Option<Option<Seq<char>>>, current_pin: Seq<char>) -> PinResponse {
    if parsed == Some(Some(current_pin)) {
        PinResponse::Matched
    } else {
        PinResponse::Forbidden
    }
}

/// The answer to a request: anything but a POST to `/verify-pin` is not
/// found; an unreadable body is a bad request; otherwise the verdict on
/// the body.
pub open spec fn pin_response(
    is_post: bool,
    path: Seq<char>,
    body: Option<Seq<char>>,
    current_pin: Seq<char>,
) -> PinResponse {
    if !is_post || path != "/verify-pin"@ {
        PinResponse::NotFound
    } else {
        match body {
            None => PinResponse::BadRequest,
            Some(b) => pin_verdict(json_string_at(b, "pin"@), current_pin),
        }
    }
}

/// The verdict on a request body already parsed for its `pin` string.
pub fn verdict_on(parsed: Option<Option<String>>, current_pin: &str) -> (r: PinResponse)
    ensures
        r == pin_verdict(opt_opt_view(parsed), current_pin@),
{
    match parsed {
        Some(Some(pin)) => {
            if pin == current_pin.to_string() {
                PinResponse::Matched
            } else {
                PinResponse::Forbidden
            }
        },
        _ => PinResponse::Forbidden,
    }
}

/// A receiver's answer to a request to its PIN check: `is_post` and `path`
/// say what was asked, `body` is the request body (`None` when it could not
/// be read), `current_pin` the PIN it shows.
pub fn pin_check_response(is_post: bool, path: &str, body: Option<String>, current_pin: &str) -> (r:
    PinResponse)
    ensures
        r == pin_response(
            is_post,
            path@,
            match body {
                Some(b) => Some(b@),
                None => None,
            },
            current_pin@,
        ),
{
    if !is_post || path.to_string() != "/verify-pin".to_string() {
        return PinResponse::NotFound;
    }
    match body {
        None => PinResponse::BadRequest,
        Some(b) => {
            let parsed = parse_json_string_at(b.as_str(), "pin");
            proof {
                assert(opt_opt_view(parsed) == json_string_at(b@, "pin"@));
            }
            verdict_on(parsed, current_pin)
        },
    }
}

/// What a sender reports for a receiver's parsed answer: a match, named as
/// the answer's `device_name` or else as the receiver was found, when the
/// answer is JSON; nothing (ask the next receiver) otherwise.
pub open spec fn match_name(parsed: Option<Option<Seq<char>>>, found_name: Seq<char>) -> Option<Seq<char>> {
    match parsed {
        None => None,
        Some(Some(n)) => Some(n),
        Some(None) => Some(found_name),
    }
}

/// The event for a receiver's answer already parsed for `device_name`:
/// see `match_name`.
pub fn match_event<A: Copy, S>(device: &DiscoveredReceiver<A>, parsed: Option<Option<String>>) -> (e:
    Option<BackendEvent<A, S>>)
    ensures
        match_name(opt_opt_view(parsed), device.name@) is None ==> e is None,
        match_name(opt_opt_view(parsed), device.name@) is Some ==> e is Some && e->0 is PinMatched
            && e->0->device_name@ == match_name(opt_opt_view(parsed), device.name@)->0
            && e->0->addr == device.addr,
{
    match parsed {
        None => None,
        Some(field) => {
            let device_name = match field {
                Some(n) => n,
                None => device.name.clone(),
            };
            Some(BackendEvent::PinMatched { device_name, addr: device.addr })
        },
    }
}

/// The event for a receiver's answer to a PIN lookup: `reply` is the body
/// of a successful response, `None` when the request failed.  A match ends
/// the lookup; `None` means asking the next receiver.
pub fn pin_reply_event<A: Copy, S>(device: &DiscoveredReceiver<A>, reply: Option<String>) -> (e:
    Option<BackendEvent<A, S>>)
    ensures
        reply is None ==> e is None,
        reply is Some ==> {
            let m = match_name(json_string_at(reply->0@, "device_name"@), device.name@);
            &&& m is None ==> e is None
            &&& m is Some ==> e is Some && e->0 is PinMatched && e->0->device_name@ == m->0
                && e->0->addr == device.addr
        },
{
    match reply {
        None => None,
        Some(body) => {
            let parsed = parse_json_string_at(body.as_str(), "device_name");
            proof {
                assert(opt_opt_view(parsed) == json_string_at(body@, "device_name"@));
            }
            match_event(device, parsed)
        },
    }
}

/// The URL of the PIN check of a receiver at `ip`, port `port`, as bytes.
pub open spec fn verify_pin_url_bytes(ip: [u8; 4], port: u16) -> Seq<u8> {
    seq![104u8, 116u8, 116u8, 112u8, 58u8, 47u8, 47u8] + ipv4_text_bytes(ip) + seq![58u8]
        + decimal_bytes(port as nat) + seq![
        47u8,
        118u8,
        101u8,
        114u8,
        105u8,
        102u8,
        121u8,
        45u8,
        112u8,
        105u8,
        110u8,
    ]
}

/// `http://<ip>:<port>/verify-pin`.
pub fn verify_pin_url(ip: [u8; 4], port: u16) -> (url: String)
    ensures
        url@ == verify_pin_url_bytes(ip, port).map_values(|b: u8| b as char),
{
    let mut b: Vec<u8> = vec![104u8, 116u8, 116u8, 112u8, 58u8, 47u8, 47u8];
    push_ipv4(&mut b, ip);
    b.push(58u8);
    push_decimal(&mut b, port as u64);
    let tail: [u8; 11] = [47u8, 118u8, 101u8, 114u8, 105u8, 102u8, 121u8, 45u8, 112u8, 105u8, 110u8];
    let mut i: usize = 0;
    let ghost before = b@;
    while i < 11
        invariant
            i <= 11,
            b@ == before + tail@.take(i as int),
        decreases 11 - i,
    {
        b.push(tail[i]);
        i = i + 1;
        assert(b@ =~= before + tail@.take(i as int));
    }
    proof {
        assert(tail@.take(11) =~= tail@);
        assert(b@ =~= verify_pin_url_bytes(ip, port));
        crate::discovery::advertiser::lemma_ip_list_ascii(seq![ip]);
        lemma_decimal_ascii(port as nat);
        let t = ipv4_text_bytes(ip);
        let d = decimal_bytes(port as nat);
        assert forall|k: int| 0 <= k < b@.len() implies b@[k] < 128 by {
            if 7 <= k < 7 + t.len() {
                assert(b@[k] == t[k - 7]);
                assert(crate::discovery::advertiser::ip_list_bytes(seq![ip]) == t);
                assert(crate::discovery::advertiser::ip_list_bytes(seq![ip])[k - 7] < 128);
            } else if 8 + t.len() <= k < 8 + t.len() + d.len() {
                assert(b@[k] == d[k - 8 - t.len()]);
            }
        }
    }
    ascii_to_string(b)
}

} // verus!
