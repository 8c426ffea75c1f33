//! The control plane: what one accepted connection means.
//!
//! A peer sends a single framed request; the server validates it,
//! registers the subscriber on success, and replies in-band — an
//! unsupported command or a malformed frame earns an `Error` response,
//! never a torn-down connection.  The functions here are the whole of
//! that exchange between the bytes read and the bytes written back.

use vstd::prelude::*;

use crate::json::{parse_request, parse_request_chars, response_chars, serialize_response};
use crate::registry::{
    fresh_entry, has_addr, reg_wf, without_addr, Channel, SubscriberRegistry,
};
use crate::stock::{
    duplicate_texts, texts_view, ResponseView, StockRequest, StockResponse, StockResponseStatus,
};
use crate::text::str_eq;

verus! {

/// Bound on one framed control-plane request, in characters.
pub const MAX_REQUEST_LEN: usize = 1024;

/// The reply to a valid subscription.
pub open spec fn ok_response() -> ResponseView {
    ResponseView { status: StockResponseStatus::Okay, message: "ok"@ }
}

/// The reply to a request whose `kind` is not `"STREAM"`.
pub open spec fn unsupported_response() -> ResponseView {
    ResponseView { status: StockResponseStatus::Error, message: "Unsupported command"@ }
}

/// The reply to a frame that is oversized or names no request.
pub open spec fn malformed_response() -> ResponseView {
    ResponseView { status: StockResponseStatus::Error, message: "Malformed request"@ }
}

impl SubscriberRegistry {
    /// Validates one parsed request and applies it.  Only `"STREAM"` is
    /// supported: it registers the subscriber (replace semantics, the
    /// replaced channel handed back closed) and earns `Ok`.  Any other
    /// kind earns `Error`/`"Unsupported command"` and leaves the registry
    /// exactly as it was — no entry is created.
    pub fn handle_request(&mut self, req: &StockRequest, now: u64) -> (r: (
        StockResponse,
        Option<Channel>,
    ))
        requires
            reg_wf(old(self)@),
        ensures
            reg_wf(final(self)@),
            req.kind@ == "STREAM"@ ==> {
                &&& r.0@ == ok_response()
                &&& final(self)@ == without_addr(old(self)@, req.addr).push(
                    fresh_entry(req.addr, texts_view(req.tickers@), now),
                )
                &&& has_addr(old(self)@, req.addr) ==> {
                    &&& r.1 is Some
                    &&& !r.1.unwrap()@.is_open
                    &&& exists|i: int|
                        0 <= i < old(self)@.len() && old(self)@[i].addr == req.addr
                            && r.1.unwrap()@.msgs == (#[trigger] old(self)@[i]).chan.msgs && old(
                            self,
                        )@[i].chan.is_open
                }
                &&& !has_addr(old(self)@, req.addr) ==> r.1 is None
            },
            req.kind@ != "STREAM"@ ==> {
                &&& r.0@ == unsupported_response()
                &&& final(self)@ == old(self)@
                &&& r.1 is None
            },
    {
        if str_eq(req.kind.as_str(), "STREAM") {
            let tickers = duplicate_texts(&req.tickers);
            let replaced = self.register(req.addr, tickers, now);
            let resp = StockResponse {
                status: StockResponseStatus::Okay,
                message: String::from_str("ok"),
            };
            (resp, replaced)
        } else {
            let resp = StockResponse {
                status: StockResponseStatus::Error,
                message: String::from_str("Unsupported command"),
            };
            (resp, None)
        }
    }

    /// One whole control-plane exchange: reads the frame's text, applies
    /// it, and renders the reply to send back.  An oversized or
    /// unparseable frame earns `Error`/`"Malformed request"` and changes
    /// nothing.
    pub fn handle_control_message(&mut self, msg: &str, now: u64) -> (r: (String, Option<Channel>))
        requires
            reg_wf(old(self)@),
        ensures
            reg_wf(final(self)@),
            msg@.len() > MAX_REQUEST_LEN || parse_request_chars(msg@) is None ==> {
                &&& r.0@ == response_chars(malformed_response())
                &&& final(self)@ == old(self)@
                &&& r.1 is None
            },
            msg@.len() <= MAX_REQUEST_LEN && parse_request_chars(msg@) is Some ==> {
                let rq = parse_request_chars(msg@).unwrap();
                &&& rq.kind == "STREAM"@ ==> {
                    &&& r.0@ == response_chars(ok_response())
                    &&& final(self)@ == without_addr(old(self)@, rq.addr).push(
                        fresh_entry(rq.addr, rq.tickers, now),
                    )
                    &&& has_addr(old(self)@, rq.addr) ==> r.1 is Some && !r.1.unwrap()@.is_open
                    &&& !has_addr(old(self)@, rq.addr) ==> r.1 is None
                }
                &&& rq.kind != "STREAM"@ ==> {
                    &&& r.0@ == response_chars(unsupported_response())
                    &&& final(self)@ == old(self)@
                    &&& r.1 is None
                }
            },
    {
        if msg.unicode_len() > MAX_REQUEST_LEN {
            let resp = StockResponse {
                status: StockResponseStatus::Error,
                message: String::from_str("Malformed request"),
            };
            return (serialize_response(&resp), None);
        }
        match parse_request(msg) {
            Some(req) => {
                let (resp, replaced) = self.handle_request(&req, now);
                (serialize_response(&resp), replaced)
            },
            None => {
                let resp = StockResponse {
                    status: StockResponseStatus::Error,
                    message: String::from_str("Malformed request"),
                };
                (serialize_response(&resp), None)
            },
        }
    }
}

} // verus!
