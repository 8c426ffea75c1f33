//! The JSON wire format of the control plane and of the broadcast.
//!
//! Three messages travel as JSON: the subscription request
//! `{"addr":"…","kind":"…","tickers":["…",…]}`, the reply
//! `{"message":"…","status":"Ok"|"Error"}`, and the broadcast array of
//! quote objects.  Object keys stand in alphabetical order and strings
//! carry no escapes; text fields are therefore held to
//! `json_plain_chars`.
//! Each parser is specified against a spec-level parse function, and each
//! serializer against a spec-level text; the round-trip lemmas at the end
//! tie the two together.

use vstd::prelude::*;

use crate::addr::{addr_chars, format_addr, parse_addr, parse_addr_chars};
use crate::stock::{
    json_plain_chars, price_chars, quotes_view, render_price, texts_view, QuoteView, RequestView,
    ResponseView, StockQuote, StockRequest, StockResponse, StockResponseStatus,
};
use crate::text::{
    dec_digits, find_char, lemma_skip_head, lemma_split_exact, lemma_split_shape, split_at_char,
    u64_to_string,
};

verus! {

/// `"…"`: a string in quotes.
pub open spec fn json_string(s: Seq<char>) -> Seq<char> {
    seq!['"'] + s + seq!['"']
}

/// `{"addr":` — the head of a request.
pub open spec fn laddr() -> Seq<char> {
    seq!['{', '"', 'a', 'd', 'd', 'r', '"', ':']
}

/// `,"kind":`
pub open spec fn lkind() -> Seq<char> {
    seq![',', '"', 'k', 'i', 'n', 'd', '"', ':']
}

/// `,"tickers":[`
pub open spec fn ltickers() -> Seq<char> {
    seq![',', '"', 't', 'i', 'c', 'k', 'e', 'r', 's', '"', ':', '[']
}

/// `{"message":` — the head of a response.
pub open spec fn lmessage() -> Seq<char> {
    seq!['{', '"', 'm', 'e', 's', 's', 'a', 'g', 'e', '"', ':']
}

/// `,"status":"`
pub open spec fn lstatus() -> Seq<char> {
    seq![',', '"', 's', 't', 'a', 't', 'u', 's', '"', ':', '"']
}

/// The comma-separated ticker strings of a request, without the brackets.
pub open spec fn tickers_chars(ts: Seq<Seq<char>>) -> Seq<char>
    decreases ts.len(),
{
    if ts.len() == 0 {
        Seq::empty()
    } else if ts.len() == 1 {
        json_string(ts[0])
    } else {
        json_string(ts[0]) + seq![','] + tickers_chars(ts.skip(1))
    }
}

/// The canonical text of a request.
pub open spec fn request_chars(r: RequestView) -> Seq<char> {
    laddr() + json_string(addr_chars(r.addr)) + lkind() + json_string(r.kind) + ltickers()
        + tickers_chars(r.tickers) + seq![']', '}']
}

/// The text of a response status.
pub open spec fn status_chars(st: StockResponseStatus) -> Seq<char> {
    if st is Okay {
        seq!['O', 'k']
    } else {
        seq!['E', 'r', 'r', 'o', 'r']
    }
}

/// The canonical text of a response.
pub open spec fn response_chars(r: ResponseView) -> Seq<char> {
    lmessage() + json_string(r.message) + lstatus() + status_chars(r.status) + seq!['"', '}']
}

/// Reads a literal off the front of `s`.
pub open spec fn parse_lit(s: Seq<char>, lit: Seq<char>) -> Option<Seq<char>> {
    if s.len() >= lit.len() && s.subrange(0, lit.len() as int) == lit {
        Some(s.skip(lit.len() as int))
    } else {
        None
    }
}

/// Reads a quoted string off the front of `s`: its content and the rest.
pub open spec fn parse_json_string(s: Seq<char>) -> Option<(Seq<char>, Seq<char>)> {
    if s.len() > 0 && s[0] == '"' {
        split_at_char(s.skip(1), '"')
    } else {
        None
    }
}

/// Reads a non-empty ticker list and its closing bracket.
pub open spec fn parse_tickers_ne(s: Seq<char>) -> Option<(Seq<Seq<char>>, Seq<char>)>
    decreases s.len(),
    via parse_tickers_ne_dec
{
    match parse_json_string(s) {
        None => None,
        Some((t, r)) => {
            if r.len() > 0 && r[0] == ',' {
                match parse_tickers_ne(r.skip(1)) {
                    None => None,
                    Some((ts, r2)) => Some((seq![t] + ts, r2)),
                }
            } else if r.len() > 0 && r[0] == ']' {
                Some((seq![t], r.skip(1)))
            } else {
                None
            }
        },
    }
}

#[via_fn]
proof fn parse_tickers_ne_dec(s: Seq<char>) {
    if parse_json_string(s) is Some {
        let (t, r) = parse_json_string(s).unwrap();
        lemma_split_shape(s.skip(1), '"');
        assert(r.len() < s.len());
    }
}

/// Reads a ticker list (possibly empty) and its closing bracket.
pub open spec fn parse_tickers(s: Seq<char>) -> Option<(Seq<Seq<char>>, Seq<char>)> {
    if s.len() > 0 && s[0] == ']' {
        Some((Seq::empty(), s.skip(1)))
    } else {
        parse_tickers_ne(s)
    }
}

/// What request, if any, a full message names.
pub open spec fn parse_request_chars(s: Seq<char>) -> Option<RequestView> {
    match parse_lit(s, laddr()) {
        None => None,
        Some(s1) => match parse_json_string(s1) {
            None => None,
            Some((atext, s2)) => match parse_addr_chars(atext) {
                None => None,
                Some(ad) => match parse_lit(s2, lkind()) {
                    None => None,
                    Some(s3) => match parse_json_string(s3) {
                        None => None,
                        Some((kind, s4)) => match parse_lit(s4, ltickers()) {
                            None => None,
                            Some(s5) => match parse_tickers(s5) {
                                None => None,
                                Some((ts, s6)) => {
                                    if s6.len() == 1 && s6[0] == '}' {
                                        Some(RequestView { kind, addr: ad, tickers: ts })
                                    } else {
                                        None
                                    }
                                },
                            },
                        },
                    },
                },
            },
        },
    }
}

/// What response, if any, a full message names.
pub open spec fn parse_response_chars(s: Seq<char>) -> Option<ResponseView> {
    match parse_lit(s, lmessage()) {
        None => None,
        Some(s1) => match parse_json_string(s1) {
            None => None,
            Some((message, s2)) => match parse_lit(s2, lstatus()) {
                None => None,
                Some(s3) => {
                    if s3 == seq!['O', 'k', '"', '}'] {
                        Some(ResponseView { status: StockResponseStatus::Okay, message })
                    } else if s3 == seq!['E', 'r', 'r', 'o', 'r', '"', '}'] {
                        Some(ResponseView { status: StockResponseStatus::Error, message })
                    } else {
                        None
                    }
                },
            },
        },
    }
}

/// `{"price":` — the head of a quote object.
pub open spec fn lprice() -> Seq<char> {
    seq!['{', '"', 'p', 'r', 'i', 'c', 'e', '"', ':']
}

/// `,"ticker":`
pub open spec fn lticker() -> Seq<char> {
    seq![',', '"', 't', 'i', 'c', 'k', 'e', 'r', '"', ':']
}

/// `,"timestamp":`
pub open spec fn ltimestamp() -> Seq<char> {
    seq![',', '"', 't', 'i', 'm', 'e', 's', 't', 'a', 'm', 'p', '"', ':']
}

/// `,"volume":`
pub open spec fn lvolume() -> Seq<char> {
    seq![',', '"', 'v', 'o', 'l', 'u', 'm', 'e', '"', ':']
}

/// The JSON object of one quote, keys in alphabetical order, the price a
/// plain decimal.
pub open spec fn quote_obj_chars(q: QuoteView) -> Seq<char> {
    lprice() + price_chars(q.price) + lticker() + json_string(q.ticker) + ltimestamp()
        + dec_digits(q.timestamp as nat) + lvolume() + dec_digits(q.volume as nat) + seq!['}']
}

/// The comma-separated quote objects, without the brackets.
pub open spec fn quotes_list_chars(qs: Seq<QuoteView>) -> Seq<char>
    decreases qs.len(),
{
    if qs.len() == 0 {
        Seq::empty()
    } else if qs.len() == 1 {
        quote_obj_chars(qs[0])
    } else {
        quote_obj_chars(qs[0]) + seq![','] + quotes_list_chars(qs.skip(1))
    }
}

/// The broadcast datagram: a JSON array of quote objects; `[]` when the
/// filter left nothing.
pub open spec fn quotes_chars(qs: Seq<QuoteView>) -> Seq<char> {
    seq!['['] + quotes_list_chars(qs) + seq![']']
}

/// Renders one quote object.
fn serialize_quote(q: &StockQuote) -> (r: String)
    ensures
        r@ == quote_obj_chars(q@),
{
    let mut out = String::from_str("{\"price\":");
    let price = render_price(q.price);
    out.append(price.as_str());
    out.append(",\"ticker\":\"");
    out.append(q.ticker.as_str());
    out.append("\",\"timestamp\":");
    let ts = u64_to_string(q.timestamp);
    out.append(ts.as_str());
    out.append(",\"volume\":");
    let vol = u64_to_string(q.volume as u64);
    out.append(vol.as_str());
    out.append("}");
    proof {
        reveal_strlit("{\"price\":");
        reveal_strlit(",\"ticker\":\"");
        reveal_strlit("\",\"timestamp\":");
        reveal_strlit(",\"volume\":");
        reveal_strlit("}");
        assert(out@ =~= quote_obj_chars(q@));
    }
    out
}

/// Renders the tail of a quote list from `idx` on, comma separated.
fn serialize_quotes_from(qs: &Vec<StockQuote>, idx: usize) -> (r: String)
    requires
        idx <= qs@.len(),
    ensures
        r@ == quotes_list_chars(quotes_view(qs@).skip(idx as int)),
    decreases qs@.len() - idx,
{
    let ghost whole = quotes_view(qs@);
    if idx == qs.len() {
        proof {
            assert(whole.skip(idx as int) =~= Seq::<QuoteView>::empty());
        }
        String::new()
    } else {
        let mut out = serialize_quote(&qs[idx]);
        if idx + 1 < qs.len() {
            out.append(",");
            let rest = serialize_quotes_from(qs, idx + 1);
            out.append(rest.as_str());
        }
        proof {
            reveal_strlit(",");
            let part = whole.skip(idx as int);
            assert(part[0] == whole[idx as int]);
            if idx + 1 < qs.len() {
                assert(part.skip(1) =~= whole.skip(idx + 1));
                assert(out@ =~= quote_obj_chars(part[0]) + seq![','] + quotes_list_chars(
                    part.skip(1),
                ));
            } else {
                assert(part.len() == 1);
                assert(out@ =~= quote_obj_chars(part[0]));
            }
        }
        out
    }
}

/// Renders the broadcast datagram for a list of quotes.  An empty list
/// gives `[]`; nothing is suppressed.
pub fn serialize_quotes(qs: &Vec<StockQuote>) -> (r: String)
    ensures
        r@ == quotes_chars(quotes_view(qs@)),
{
    let mut out = String::from_str("[");
    let body = serialize_quotes_from(qs, 0);
    out.append(body.as_str());
    out.append("]");
    proof {
        reveal_strlit("[");
        reveal_strlit("]");
        assert(quotes_view(qs@).skip(0) =~= quotes_view(qs@));
        assert(out@ =~= quotes_chars(quotes_view(qs@)));
    }
    out
}

/// Reads one quote object off the front of `s`: the quote and the rest.
pub open spec fn parse_quote_obj(s: Seq<char>) -> Option<(QuoteView, Seq<char>)> {
    match parse_lit(s, lprice()) {
        None => None,
        Some(s1) => match crate::stock::parse_price_chars(s1) {
            None => None,
            Some((pv, s2)) => match parse_lit(s2, lticker()) {
                None => None,
                Some(s3) => match parse_json_string(s3) {
                    None => None,
                    Some((tick, s4)) => match parse_lit(s4, ltimestamp()) {
                        None => None,
                        Some(s5) => {
                            let (dt, s6) = crate::text::take_digits(s5);
                            if dt.len() == 0 || crate::text::digits_val(dt) > u64::MAX {
                                None
                            } else {
                                match parse_lit(s6, lvolume()) {
                                    None => None,
                                    Some(s7) => {
                                        let (dv, s8) = crate::text::take_digits(s7);
                                        if dv.len() == 0 || crate::text::digits_val(dv) > u32::MAX
                                            || s8.len() == 0 || s8[0] != '}' {
                                            None
                                        } else {
                                            Some(
                                                (
                                                    QuoteView {
                                                        ticker: tick,
                                                        price: pv,
                                                        volume: crate::text::digits_val(
                                                            dv,
                                                        ) as u32,
                                                        timestamp: crate::text::digits_val(
                                                            dt,
                                                        ) as u64,
                                                    },
                                                    s8.skip(1),
                                                ),
                                            )
                                        }
                                    },
                                }
                            }
                        },
                    },
                },
            },
        },
    }
}

/// A successful quote-object parse consumes at least one character.
proof fn lemma_parse_quote_obj_len(s: Seq<char>)
    requires
        parse_quote_obj(s) is Some,
    ensures
        parse_quote_obj(s).unwrap().1.len() < s.len(),
{
    let s1 = parse_lit(s, lprice()).unwrap();
    assert(s1.len() == s.len() - lprice().len());
    let (_pv, s2) = crate::stock::parse_price_chars(s1).unwrap();
    lemma_parse_price_len(s1);
    let s3 = parse_lit(s2, lticker()).unwrap();
    let (_t, s4) = parse_json_string(s3).unwrap();
    lemma_split_shape(s3.skip(1), '"');
    let s5 = parse_lit(s4, ltimestamp()).unwrap();
    let (_dt, s6) = crate::text::take_digits(s5);
    crate::text::lemma_take_digits_shape(s5);
    let s7 = parse_lit(s6, lvolume()).unwrap();
    let (_dv, s8) = crate::text::take_digits(s7);
    crate::text::lemma_take_digits_shape(s7);
}

/// A successful price parse consumes at least the dot.
proof fn lemma_parse_price_len(s: Seq<char>)
    requires
        crate::stock::parse_price_chars(s) is Some,
    ensures
        crate::stock::parse_price_chars(s).unwrap().1.len() < s.len(),
{
    let (di, r1) = crate::text::take_digits(s);
    crate::text::lemma_take_digits_shape(s);
    let (_df, r2) = crate::text::take_digits(r1.skip(1));
    crate::text::lemma_take_digits_shape(r1.skip(1));
}

/// Reads a non-empty quote list and its closing bracket.
pub open spec fn parse_quotes_ne(s: Seq<char>) -> Option<(Seq<QuoteView>, Seq<char>)>
    decreases s.len(),
    via parse_quotes_ne_dec
{
    match parse_quote_obj(s) {
        None => None,
        Some((q, r)) => {
            if r.len() > 0 && r[0] == ',' {
                match parse_quotes_ne(r.skip(1)) {
                    None => None,
                    Some((qs, r2)) => Some((seq![q] + qs, r2)),
                }
            } else if r.len() > 0 && r[0] == ']' {
                Some((seq![q], r.skip(1)))
            } else {
                None
            }
        },
    }
}

#[via_fn]
proof fn parse_quotes_ne_dec(s: Seq<char>) {
    if parse_quote_obj(s) is Some {
        lemma_parse_quote_obj_len(s);
    }
}

/// What quote list, if any, a full broadcast datagram names.
pub open spec fn parse_quotes_chars(s: Seq<char>) -> Option<Seq<QuoteView>> {
    if s.len() == 0 || s[0] != '[' {
        None
    } else {
        let t = s.skip(1);
        if t.len() == 1 && t[0] == ']' {
            Some(Seq::empty())
        } else {
            match parse_quotes_ne(t) {
                Some((qs, rest)) => if rest.len() == 0 {
                    Some(qs)
                } else {
                    None
                },
                None => None,
            }
        }
    }
}

/// A request whose text fields can stand on the wire unescaped.
pub open spec fn wf_request(r: RequestView) -> bool {
    &&& json_plain_chars(r.kind)
    &&& forall|i: int| 0 <= i < r.tickers.len() ==> json_plain_chars(#[trigger] r.tickers[i])
}

/// A response whose message can stand on the wire unescaped.
pub open spec fn wf_response(r: ResponseView) -> bool {
    json_plain_chars(r.message)
}

/// Reads one quote object at `pos`: the quote and the position after its
/// closing brace.
fn parse_quote_obj_at(s: &str, pos: usize) -> (r: Option<(StockQuote, usize)>)
    requires
        pos <= s@.len(),
    ensures
        match r {
            Some((q, p)) => {
                &&& parse_quote_obj(s@.skip(pos as int)) == Some((q@, s@.skip(p as int)))
                &&& pos < p <= s@.len()
            },
            None => parse_quote_obj(s@.skip(pos as int)) is None,
        },
{
    let len = s.unicode_len();
    proof {
        lit_views();
    }
    let p1 = match expect_lit(s, pos, "{\"price\":") {
        Some(p) => p,
        None => {
            return None;
        },
    };
    let (price, p2) = match crate::stock::parse_price_at(s, p1) {
        Some(v) => v,
        None => {
            return None;
        },
    };
    let p3 = match expect_lit(s, p2, ",\"ticker\":") {
        Some(p) => p,
        None => {
            return None;
        },
    };
    let (ticker, p4) = match parse_json_string_at(s, p3) {
        Some(v) => v,
        None => {
            return None;
        },
    };
    let p5 = match expect_lit(s, p4, ",\"timestamp\":") {
        Some(p) => p,
        None => {
            return None;
        },
    };
    let (timestamp, p6) = match crate::text::parse_bounded_at(s, p5, u64::MAX) {
        Some(v) => v,
        None => {
            return None;
        },
    };
    let p7 = match expect_lit(s, p6, ",\"volume\":") {
        Some(p) => p,
        None => {
            return None;
        },
    };
    let (volume, p8) = match crate::text::parse_bounded_at(s, p7, 0xffff_ffff) {
        Some(v) => v,
        None => {
            return None;
        },
    };
    proof {
        lemma_skip_head(s@, p8 as int);
    }
    if p8 == len || s.get_char(p8) != '}' {
        return None;
    }
    let q = StockQuote { ticker, price, volume: volume as u32, timestamp };
    Some((q, p8 + 1))
}

/// Reads a non-empty quote list and its closing bracket, from `pos` on.
fn parse_quotes_ne_at(s: &str, pos: usize) -> (r: Option<(Vec<StockQuote>, usize)>)
    requires
        pos <= s@.len(),
    ensures
        match r {
            Some((qs, p)) => {
                &&& parse_quotes_ne(s@.skip(pos as int)) == Some(
                    (quotes_view(qs@), s@.skip(p as int)),
                )
                &&& pos <= p <= s@.len()
            },
            None => parse_quotes_ne(s@.skip(pos as int)) is None,
        },
    decreases s@.len() - pos,
{
    let len = s.unicode_len();
    let (q, p1) = match parse_quote_obj_at(s, pos) {
        Some(v) => v,
        None => {
            return None;
        },
    };
    proof {
        lemma_skip_head(s@, p1 as int);
    }
    if p1 < len && s.get_char(p1) == ',' {
        let (mut qs, p2) = match parse_quotes_ne_at(s, p1 + 1) {
            Some(v) => v,
            None => {
                return None;
            },
        };
        qs.insert(0, q);
        proof {
            assert(quotes_view(qs@) =~= seq![q@] + quotes_view(qs@.skip(1)));
        }
        Some((qs, p2))
    } else if p1 < len && s.get_char(p1) == ']' {
        let mut qs: Vec<StockQuote> = Vec::new();
        qs.push(q);
        proof {
            assert(quotes_view(qs@) =~= seq![q@]);
        }
        Some((qs, p1 + 1))
    } else {
        None
    }
}

/// Reads a whole broadcast datagram back into its quotes; `None` exactly
/// when the text is not the canonical form of one.
pub fn parse_quotes(s: &str) -> (r: Option<Vec<StockQuote>>)
    ensures
        match r {
            Some(qs) => parse_quotes_chars(s@) == Some(quotes_view(qs@)),
            None => parse_quotes_chars(s@) is None,
        },
{
    let len = s.unicode_len();
    proof {
        assert(s@.skip(0) =~= s@);
        lemma_skip_head(s@, 0);
    }
    if len == 0 || s.get_char(0) != '[' {
        return None;
    }
    proof {
        lemma_skip_head(s@, 1);
    }
    if len == 2 && s.get_char(1) == ']' {
        let qs: Vec<StockQuote> = Vec::new();
        proof {
            assert(s@.skip(1).len() == 1);
            assert(s@.skip(1)[0] == ']');
            assert(quotes_view(qs@) =~= Seq::<QuoteView>::empty());
        }
        return Some(qs);
    }
    proof {
        if s@.skip(1).len() == 1 && s@.skip(1)[0] == ']' {
            assert(len == 2 && s@[1] == ']');
        }
    }
    match parse_quotes_ne_at(s, 1) {
        Some((qs, p)) => {
            if p == len {
                Some(qs)
            } else {
                None
            }
        },
        None => None,
    }
}

/// Matches `lit` at `pos`; the position after it, or `None` when the text
/// there differs.
fn expect_lit(s: &str, pos: usize, lit: &str) -> (r: Option<usize>)
    requires
        pos <= s@.len(),
    ensures
        match r {
            Some(p) => {
                &&& parse_lit(s@.skip(pos as int), lit@) == Some(s@.skip(p as int))
                &&& pos <= p <= s@.len()
                &&& p == pos + lit@.len()
            },
            None => parse_lit(s@.skip(pos as int), lit@) is None,
        },
{
    let len = s.unicode_len();
    let ll = lit.unicode_len();
    if ll > len - pos {
        return None;
    }
    let mut j: usize = 0;
    while j < ll
        invariant
            0 <= j <= ll,
            pos + ll <= len,
            len == s@.len(),
            ll == lit@.len(),
            forall|k: int| 0 <= k < j ==> s@[pos + k] == lit@[k],
        decreases ll - j,
    {
        if s.get_char(pos + j) != lit.get_char(j) {
            proof {
                let suf = s@.skip(pos as int);
                assert(suf.subrange(0, ll as int)[j as int] == s@[pos + j]);
            }
            return None;
        }
        j = j + 1;
    }
    proof {
        let suf = s@.skip(pos as int);
        assert(suf.subrange(0, ll as int) =~= lit@);
        assert(suf.skip(ll as int) =~= s@.skip(pos + ll));
    }
    Some(pos + ll)
}

/// Reads a quoted string at `pos`: its content and the position after the
/// closing quote.
fn parse_json_string_at(s: &str, pos: usize) -> (r: Option<(String, usize)>)
    requires
        pos <= s@.len(),
    ensures
        match r {
            Some((v, p)) => {
                &&& parse_json_string(s@.skip(pos as int)) == Some((v@, s@.skip(p as int)))
                &&& pos < p <= s@.len()
            },
            None => parse_json_string(s@.skip(pos as int)) is None,
        },
{
    let len = s.unicode_len();
    proof {
        lemma_skip_head(s@, pos as int);
    }
    if pos == len || s.get_char(pos) != '"' {
        return None;
    }
    match find_char(s, pos + 1, '"') {
        Some(i) => {
            let content = s.substring_char(pos + 1, i).to_owned();
            proof {
                assert(s@.skip(pos as int).skip(1) =~= s@.skip(pos + 1));
            }
            Some((content, i + 1))
        },
        None => {
            proof {
                assert(s@.skip(pos as int).skip(1) =~= s@.skip(pos + 1));
            }
            None
        },
    }
}

/// Reads a non-empty ticker list and its closing bracket, from `pos` on.
fn parse_tickers_ne_at(s: &str, pos: usize) -> (r: Option<(Vec<String>, usize)>)
    requires
        pos <= s@.len(),
    ensures
        match r {
            Some((ts, p)) => {
                &&& parse_tickers_ne(s@.skip(pos as int)) == Some(
                    (texts_view(ts@), s@.skip(p as int)),
                )
                &&& pos <= p <= s@.len()
            },
            None => parse_tickers_ne(s@.skip(pos as int)) is None,
        },
    decreases s@.len() - pos,
{
    let len = s.unicode_len();
    let (t, p1) = match parse_json_string_at(s, pos) {
        Some(v) => v,
        None => {
            return None;
        },
    };
    proof {
        lemma_skip_head(s@, p1 as int);
    }
    if p1 < len && s.get_char(p1) == ',' {
        let (mut ts, p2) = match parse_tickers_ne_at(s, p1 + 1) {
            Some(v) => v,
            None => {
                return None;
            },
        };
        ts.insert(0, t);
        proof {
            assert(texts_view(ts@) =~= seq![t@] + texts_view(ts@.skip(1)));
        }
        Some((ts, p2))
    } else if p1 < len && s.get_char(p1) == ']' {
        let mut ts: Vec<String> = Vec::new();
        ts.push(t);
        proof {
            assert(texts_view(ts@) =~= seq![t@]);
        }
        Some((ts, p1 + 1))
    } else {
        None
    }
}

/// Reads a ticker list (possibly empty) and its closing bracket.
fn parse_tickers_at(s: &str, pos: usize) -> (r: Option<(Vec<String>, usize)>)
    requires
        pos <= s@.len(),
    ensures
        match r {
            Some((ts, p)) => {
                &&& parse_tickers(s@.skip(pos as int)) == Some(
                    (texts_view(ts@), s@.skip(p as int)),
                )
                &&& pos <= p <= s@.len()
            },
            None => parse_tickers(s@.skip(pos as int)) is None,
        },
{
    let len = s.unicode_len();
    proof {
        lemma_skip_head(s@, pos as int);
    }
    if pos < len && s.get_char(pos) == ']' {
        let ts: Vec<String> = Vec::new();
        proof {
            assert(texts_view(ts@) =~= Seq::<Seq<char>>::empty());
        }
        Some((ts, pos + 1))
    } else {
        parse_tickers_ne_at(s, pos)
    }
}

/// Reads a subscription request from a full message; `None` exactly when
/// the text is not the canonical form of one.
pub fn parse_request(s: &str) -> (r: Option<StockRequest>)
    ensures
        match r {
            Some(req) => parse_request_chars(s@) == Some(req@),
            None => parse_request_chars(s@) is None,
        },
{
    let len = s.unicode_len();
    proof {
        assert(s@.skip(0) =~= s@);
        lit_views();
    }
    let p1 = match expect_lit(s, 0, "{\"addr\":") {
        Some(p) => p,
        None => {
            return None;
        },
    };
    let (atext, p2) = match parse_json_string_at(s, p1) {
        Some(v) => v,
        None => {
            return None;
        },
    };
    let ad = match parse_addr(atext.as_str()) {
        Some(a) => a,
        None => {
            return None;
        },
    };
    let p3 = match expect_lit(s, p2, ",\"kind\":") {
        Some(p) => p,
        None => {
            return None;
        },
    };
    let (kind, p4) = match parse_json_string_at(s, p3) {
        Some(v) => v,
        None => {
            return None;
        },
    };
    let p5 = match expect_lit(s, p4, ",\"tickers\":[") {
        Some(p) => p,
        None => {
            return None;
        },
    };
    let (tickers, p6) = match parse_tickers_at(s, p5) {
        Some(v) => v,
        None => {
            return None;
        },
    };
    proof {
        lemma_skip_head(s@, p6 as int);
    }
    if p6 < len && p6 + 1 == len && s.get_char(p6) == '}' {
        Some(StockRequest { kind, addr: ad, tickers })
    } else {
        None
    }
}

/// Reads a subscription response from a full message; `None` exactly when
/// the text is not the canonical form of one.
pub fn parse_response(s: &str) -> (r: Option<StockResponse>)
    ensures
        match r {
            Some(resp) => parse_response_chars(s@) == Some(resp@),
            None => parse_response_chars(s@) is None,
        },
{
    let len = s.unicode_len();
    proof {
        assert(s@.skip(0) =~= s@);
        lit_views();
    }
    let p1 = match expect_lit(s, 0, "{\"message\":") {
        Some(p) => p,
        None => {
            return None;
        },
    };
    let (message, p2) = match parse_json_string_at(s, p1) {
        Some(v) => v,
        None => {
            return None;
        },
    };
    let p3 = match expect_lit(s, p2, ",\"status\":\"") {
        Some(p) => p,
        None => {
            return None;
        },
    };
    let ghost s3 = s@.skip(p3 as int);
    match expect_lit(s, p3, "Ok\"}") {
        Some(p) => {
            if p == len {
                proof {
                    assert(s3 =~= seq!['O', 'k', '"', '}']);
                }
                return Some(
                    StockResponse { status: StockResponseStatus::Okay, message },
                );
            }
        },
        None => {},
    }
    match expect_lit(s, p3, "Error\"}") {
        Some(p) => {
            if p == len {
                proof {
                    assert(s3 =~= seq!['E', 'r', 'r', 'o', 'r', '"', '}']);
                }
                return Some(
                    StockResponse { status: StockResponseStatus::Error, message },
                );
            }
        },
        None => {},
    }
    proof {
        lemma_not_ok_not_error(s3);
    }
    None
}

/// When neither status text closes the message, no response stands in it.
proof fn lemma_not_ok_not_error(s3: Seq<char>)
    requires
        parse_lit(s3, "Ok\"}"@) is None || parse_lit(s3, "Ok\"}"@) != Some(Seq::<char>::empty()),
        parse_lit(s3, "Error\"}"@) is None || parse_lit(s3, "Error\"}"@) != Some(
            Seq::<char>::empty(),
        ),
    ensures
        s3 != seq!['O', 'k', '"', '}'],
        s3 != seq!['E', 'r', 'r', 'o', 'r', '"', '}'],
{
    lit_views();
    if s3 == seq!['O', 'k', '"', '}'] {
        assert(s3.subrange(0, 4) =~= "Ok\"}"@);
        assert(s3.skip(4) =~= Seq::<char>::empty());
    }
    if s3 == seq!['E', 'r', 'r', 'o', 'r', '"', '}'] {
        assert(s3.subrange(0, 7) =~= "Error\"}"@);
        assert(s3.skip(7) =~= Seq::<char>::empty());
    }
}

/// The views of the literal pieces of both messages.
proof fn lit_views()
    ensures
        "{\"addr\":"@ == laddr(),
        ",\"kind\":"@ == lkind(),
        ",\"tickers\":["@ == ltickers(),
        "{\"message\":"@ == lmessage(),
        ",\"status\":\""@ == lstatus(),
        "Ok\"}"@ == seq!['O', 'k', '"', '}'],
        "Error\"}"@ == seq!['E', 'r', 'r', 'o', 'r', '"', '}'],
        "Ok"@ == seq!['O', 'k'],
        "Error"@ == seq!['E', 'r', 'r', 'o', 'r'],
        "{\"price\":"@ == lprice(),
        ",\"ticker\":"@ == lticker(),
        ",\"timestamp\":"@ == ltimestamp(),
        ",\"volume\":"@ == lvolume(),
{
    reveal_strlit("{\"addr\":");
    reveal_strlit(",\"kind\":");
    reveal_strlit(",\"tickers\":[");
    reveal_strlit("{\"message\":");
    reveal_strlit(",\"status\":\"");
    reveal_strlit("Ok\"}");
    reveal_strlit("Error\"}");
    reveal_strlit("Ok");
    reveal_strlit("Error");
    reveal_strlit("{\"price\":");
    reveal_strlit(",\"ticker\":");
    reveal_strlit(",\"timestamp\":");
    reveal_strlit(",\"volume\":");
    assert("{\"price\":"@ =~= lprice());
    assert(",\"ticker\":"@ =~= lticker());
    assert(",\"timestamp\":"@ =~= ltimestamp());
    assert(",\"volume\":"@ =~= lvolume());
    assert("{\"addr\":"@ =~= laddr());
    assert(",\"kind\":"@ =~= lkind());
    assert(",\"tickers\":["@ =~= ltickers());
    assert("{\"message\":"@ =~= lmessage());
    assert(",\"status\":\""@ =~= lstatus());
    assert("Ok\"}"@ =~= seq!['O', 'k', '"', '}']);
    assert("Error\"}"@ =~= seq!['E', 'r', 'r', 'o', 'r', '"', '}']);
    assert("Ok"@ =~= seq!['O', 'k']);
    assert("Error"@ =~= seq!['E', 'r', 'r', 'o', 'r']);
}

/// Renders the tail of a ticker list from `idx` on, comma separated.
fn serialize_tickers(ts: &Vec<String>, idx: usize) -> (r: String)
    requires
        idx <= ts@.len(),
    ensures
        r@ == tickers_chars(texts_view(ts@).skip(idx as int)),
    decreases ts@.len() - idx,
{
    let ghost whole = texts_view(ts@);
    if idx == ts.len() {
        proof {
            assert(whole.skip(idx as int) =~= Seq::<Seq<char>>::empty());
        }
        String::new()
    } else {
        let mut out = String::from_str("\"");
        out.append(ts[idx].as_str());
        out.append("\"");
        if idx + 1 < ts.len() {
            out.append(",");
            let rest = serialize_tickers(ts, idx + 1);
            out.append(rest.as_str());
        }
        proof {
            reveal_strlit("\"");
            reveal_strlit(",");
            let part = whole.skip(idx as int);
            assert(part[0] == whole[idx as int]);
            if idx + 1 < ts.len() {
                assert(part.skip(1) =~= whole.skip(idx + 1));
                assert(out@ =~= json_string(part[0]) + seq![','] + tickers_chars(part.skip(1)));
            } else {
                assert(part.len() == 1);
                assert(out@ =~= json_string(part[0]));
            }
        }
        out
    }
}

/// Renders a request in its canonical text.
pub fn serialize_request(req: &StockRequest) -> (r: String)
    ensures
        r@ == request_chars(req@),
{
    let mut out = String::from_str("{\"addr\":\"");
    let at = format_addr(&req.addr);
    out.append(at.as_str());
    out.append("\",\"kind\":\"");
    out.append(req.kind.as_str());
    out.append("\",\"tickers\":[");
    let tl = serialize_tickers(&req.tickers, 0);
    out.append(tl.as_str());
    out.append("]}");
    proof {
        reveal_strlit("{\"addr\":\"");
        reveal_strlit("\",\"kind\":\"");
        reveal_strlit("\",\"tickers\":[");
        reveal_strlit("]}");
        assert(texts_view(req.tickers@).skip(0) =~= texts_view(req.tickers@));
        assert(out@ =~= request_chars(req@));
    }
    out
}

/// Renders a response in its canonical text.
pub fn serialize_response(resp: &StockResponse) -> (r: String)
    ensures
        r@ == response_chars(resp@),
{
    let mut out = String::from_str("{\"message\":\"");
    out.append(resp.message.as_str());
    out.append("\",\"status\":\"");
    match resp.status {
        StockResponseStatus::Okay => out.append("Ok"),
        StockResponseStatus::Error => out.append("Error"),
    }
    out.append("\"}");
    proof {
        reveal_strlit("{\"message\":\"");
        reveal_strlit("\",\"status\":\"");
        reveal_strlit("\"}");
        lit_views();
        assert(out@ =~= response_chars(resp@));
    }
    out
}

/// A literal at the head of composed text reads back off, leaving the
/// rest.
proof fn lemma_parse_lit_exact(lit: Seq<char>, rest: Seq<char>)
    ensures
        parse_lit(lit + rest, lit) == Some(rest),
{
    let s = lit + rest;
    assert(s.subrange(0, lit.len() as int) =~= lit);
    assert(s.skip(lit.len() as int) =~= rest);
}

/// A quoted plain string reads back off, leaving the rest.
proof fn lemma_json_string_exact(content: Seq<char>, rest: Seq<char>)
    requires
        json_plain_chars(content),
    ensures
        parse_json_string(json_string(content) + rest) == Some((content, rest)),
{
    let s = json_string(content) + rest;
    assert(s[0] == '"');
    assert(s.skip(1) =~= content + seq!['"'] + rest);
    assert(forall|i: int| 0 <= i < content.len() ==> #[trigger] content[i] != '"');
    lemma_split_exact(content, '"', rest);
}

/// A rendered ticker list with its bracket reads back off, leaving the
/// rest.
proof fn lemma_tickers_exact(ts: Seq<Seq<char>>, rest: Seq<char>)
    requires
        forall|i: int| 0 <= i < ts.len() ==> json_plain_chars(#[trigger] ts[i]),
    ensures
        parse_tickers(tickers_chars(ts) + seq![']'] + rest) == Some((ts, rest)),
    decreases ts.len(),
{
    let s = tickers_chars(ts) + seq![']'] + rest;
    if ts.len() == 0 {
        assert(s =~= seq![']'] + rest);
        assert(s[0] == ']');
        assert(s.skip(1) =~= rest);
        assert(parse_tickers(s).unwrap().0 =~= ts);
    } else if ts.len() == 1 {
        assert(s =~= json_string(ts[0]) + (seq![']'] + rest));
        lemma_json_string_exact(ts[0], seq![']'] + rest);
        assert(s[0] == '"');
        let r = (seq![']'] + rest);
        assert(r[0] == ']');
        assert(r.skip(1) =~= rest);
        assert(parse_tickers_ne(s).unwrap().0 =~= ts);
    } else {
        let tail = tickers_chars(ts.skip(1)) + seq![']'] + rest;
        assert(s =~= json_string(ts[0]) + (seq![','] + tail));
        lemma_json_string_exact(ts[0], seq![','] + tail);
        let r = seq![','] + tail;
        assert(r[0] == ',');
        assert(r.skip(1) =~= tail);
        lemma_tickers_exact(ts.skip(1), rest);
        // The tail list is non-empty, so its text starts with a quote, not
        // a bracket.
        assert(tickers_chars(ts.skip(1))[0] == '"');
        assert(tail[0] == '"');
        assert(parse_tickers_ne(tail) == parse_tickers(tail));
        assert(parse_tickers_ne(s).unwrap().0 =~= seq![ts[0]] + ts.skip(1));
        assert(seq![ts[0]] + ts.skip(1) =~= ts);
    }
}

/// One rendered quote object reads back off, leaving the rest.
#[verifier::rlimit(80)]
proof fn lemma_quote_obj_exact(q: QuoteView, rest: Seq<char>)
    requires
        json_plain_chars(q.ticker),
    ensures
        parse_quote_obj(quote_obj_chars(q) + rest) == Some((q, rest)),
{
    let s = quote_obj_chars(q) + rest;
    let after_price = lticker() + json_string(q.ticker) + ltimestamp() + dec_digits(
        q.timestamp as nat,
    ) + lvolume() + dec_digits(q.volume as nat) + seq!['}'] + rest;
    let after_ticker = ltimestamp() + dec_digits(q.timestamp as nat) + lvolume() + dec_digits(
        q.volume as nat,
    ) + seq!['}'] + rest;
    assert(s =~= lprice() + (price_chars(q.price) + after_price));
    lemma_parse_lit_exact(lprice(), price_chars(q.price) + after_price);
    assert(after_price[0] == ',');
    crate::stock::lemma_price_roundtrip(q.price, after_price);
    assert(after_price =~= lticker() + (json_string(q.ticker) + after_ticker));
    lemma_parse_lit_exact(lticker(), json_string(q.ticker) + after_ticker);
    lemma_json_string_exact(q.ticker, after_ticker);
    let after_ts_lit = dec_digits(q.timestamp as nat) + (lvolume() + dec_digits(q.volume as nat)
        + seq!['}'] + rest);
    assert(after_ticker =~= ltimestamp() + after_ts_lit);
    lemma_parse_lit_exact(ltimestamp(), after_ts_lit);
    crate::text::lemma_dec_digits_val(q.timestamp as nat);
    let after_ts = lvolume() + dec_digits(q.volume as nat) + seq!['}'] + rest;
    assert(after_ts[0] == ',');
    crate::text::lemma_take_digits_exact(dec_digits(q.timestamp as nat), after_ts);
    assert(dec_digits(q.timestamp as nat) + after_ts =~= after_ts_lit);
    let after_vol_lit = dec_digits(q.volume as nat) + (seq!['}'] + rest);
    assert(after_ts =~= lvolume() + after_vol_lit);
    lemma_parse_lit_exact(lvolume(), after_vol_lit);
    crate::text::lemma_dec_digits_val(q.volume as nat);
    assert((seq!['}'] + rest)[0] == '}');
    crate::text::lemma_take_digits_exact(dec_digits(q.volume as nat), seq!['}'] + rest);
    assert((seq!['}'] + rest).skip(1) =~= rest);
}

/// A rendered quote list with its bracket reads back off, leaving the
/// rest.
#[verifier::rlimit(80)]
proof fn lemma_quotes_list_exact(qs: Seq<QuoteView>, rest: Seq<char>)
    requires
        qs.len() >= 1,
        forall|i: int| 0 <= i < qs.len() ==> json_plain_chars((#[trigger] qs[i]).ticker),
    ensures
        parse_quotes_ne(quotes_list_chars(qs) + seq![']'] + rest) == Some((qs, rest)),
    decreases qs.len(),
{
    let s = quotes_list_chars(qs) + seq![']'] + rest;
    if qs.len() == 1 {
        assert(s =~= quote_obj_chars(qs[0]) + (seq![']'] + rest));
        lemma_quote_obj_exact(qs[0], seq![']'] + rest);
        let r = seq![']'] + rest;
        assert(r[0] == ']');
        assert(r.skip(1) =~= rest);
        assert(parse_quotes_ne(s).unwrap().0 =~= qs);
    } else {
        let tail = quotes_list_chars(qs.skip(1)) + seq![']'] + rest;
        assert(s =~= quote_obj_chars(qs[0]) + (seq![','] + tail));
        lemma_quote_obj_exact(qs[0], seq![','] + tail);
        let r = seq![','] + tail;
        assert(r[0] == ',');
        assert(r.skip(1) =~= tail);
        lemma_quotes_list_exact(qs.skip(1), rest);
        assert(parse_quotes_ne(s).unwrap().0 =~= seq![qs[0]] + qs.skip(1));
        assert(seq![qs[0]] + qs.skip(1) =~= qs);
    }
}

/// Serializing a broadcast datagram and parsing the text back yields the
/// quote list unchanged, quote for quote — including the empty list,
/// which travels as `[]`.
pub proof fn lemma_quotes_roundtrip(qs: Seq<QuoteView>)
    requires
        forall|i: int| 0 <= i < qs.len() ==> json_plain_chars((#[trigger] qs[i]).ticker),
    ensures
        parse_quotes_chars(quotes_chars(qs)) == Some(qs),
{
    let s = quotes_chars(qs);
    assert(s[0] == '[');
    let t = s.skip(1);
    if qs.len() == 0 {
        assert(t =~= seq![']']);
        assert(parse_quotes_chars(s).unwrap() =~= qs);
    } else {
        assert(t =~= quotes_list_chars(qs) + seq![']'] + Seq::<char>::empty());
        lemma_quotes_list_exact(qs, Seq::empty());
        // A non-empty list opens with a quote object, not the bracket.
        assert(quote_obj_chars(qs[0])[0] == '{');
        assert(quotes_list_chars(qs)[0] == '{');
        assert(t[0] == '{');
    }
}

/// Serializing a well-formed request and parsing the text back yields the
/// request unchanged, field for field.
pub proof fn lemma_request_roundtrip(r: RequestView)
    requires
        wf_request(r),
    ensures
        parse_request_chars(request_chars(r)) == Some(r),
{
    let s = request_chars(r);
    let after_addr = lkind() + json_string(r.kind) + ltickers() + tickers_chars(r.tickers) + seq![
        ']',
        '}',
    ];
    let after_kind = ltickers() + tickers_chars(r.tickers) + seq![']', '}'];
    crate::addr::lemma_addr_chars_plain(r.addr);
    assert(s =~= laddr() + (json_string(addr_chars(r.addr)) + after_addr));
    lemma_parse_lit_exact(laddr(), json_string(addr_chars(r.addr)) + after_addr);
    assert(json_string(addr_chars(r.addr)) + after_addr =~= json_string(addr_chars(r.addr))
        + after_addr);
    lemma_json_string_exact(addr_chars(r.addr), after_addr);
    lemma_addr_roundtrip_door(r.addr);
    assert(after_addr =~= lkind() + (json_string(r.kind) + after_kind));
    lemma_parse_lit_exact(lkind(), json_string(r.kind) + after_kind);
    lemma_json_string_exact(r.kind, after_kind);
    assert(after_kind =~= ltickers() + (tickers_chars(r.tickers) + seq![']'] + seq!['}']));
    lemma_parse_lit_exact(ltickers(), tickers_chars(r.tickers) + seq![']'] + seq!['}']);
    lemma_tickers_exact(r.tickers, seq!['}']);
}

/// A door to the address round trip, for the request proof.
proof fn lemma_addr_roundtrip_door(ad: crate::addr::Addr)
    ensures
        parse_addr_chars(addr_chars(ad)) == Some(ad),
{
    crate::addr::lemma_addr_roundtrip(ad);
}

/// Serializing a well-formed response and parsing the text back yields
/// the response unchanged, field for field.
pub proof fn lemma_response_roundtrip(r: ResponseView)
    requires
        wf_response(r),
    ensures
        parse_response_chars(response_chars(r)) == Some(r),
{
    let s = response_chars(r);
    let after_msg = lstatus() + status_chars(r.status) + seq!['"', '}'];
    assert(s =~= lmessage() + (json_string(r.message) + after_msg));
    lemma_parse_lit_exact(lmessage(), json_string(r.message) + after_msg);
    lemma_json_string_exact(r.message, after_msg);
    assert(after_msg =~= lstatus() + (status_chars(r.status) + seq!['"', '}']));
    lemma_parse_lit_exact(lstatus(), status_chars(r.status) + seq!['"', '}']);
    if r.status is Okay {
        assert(status_chars(r.status) + seq!['"', '}'] =~= seq!['O', 'k', '"', '}']);
    } else {
        assert(status_chars(r.status) + seq!['"', '}'] =~= seq!['E', 'r', 'r', 'o', 'r', '"', '}']);
        assert(seq!['E', 'r', 'r', 'o', 'r', '"', '}'] != seq!['O', 'k', '"', '}']);
    }
}

} // verus!

