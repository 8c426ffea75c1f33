//! The data model of the stream: quotes, subscription requests and
//! responses.
//!
//! A price is held in fixed point, `PRICE_SCALE` units to one currency
//! unit, so that the arithmetic of the generator and the text of the wire
//! formats are exact.  Its text form is a decimal with the trailing zeros
//! of the fraction trimmed, `"100.0"` or `"99.525"`.

use vstd::prelude::*;

use crate::addr::Addr;
use crate::text::{
    all_digits, dec_digits, digit_char, digit_val, digits_val, find_char, is_digit,
    lemma_dec_digits_val, lemma_digit_roundtrip, lemma_digits_val_bound, lemma_peel,
    lemma_skip_head, lemma_split_exact, lemma_take_digits_exact, p10, parse_bounded_at,
    skip_plus, split_at_char, take_digits, u64_to_string,
};

verus! {

/// Price units per currency unit: four decimal places.
pub const PRICE_SCALE: u64 = 10000;

/// One generated quote.  `price` is in units of `1 / PRICE_SCALE`.
#[derive(Clone, Debug)]
pub struct StockQuote {
    pub ticker: String,
    pub price: u64,
    pub volume: u32,
    pub timestamp: u64,
}

/// The spec-level image of a quote.
pub ghost struct QuoteView {
    pub ticker: Seq<char>,
    pub price: u64,
    pub volume: u32,
    pub timestamp: u64,
}

impl View for StockQuote {
    type V = QuoteView;

    open spec fn view(&self) -> QuoteView {
        QuoteView {
            ticker: self.ticker@,
            price: self.price,
            volume: self.volume,
            timestamp: self.timestamp,
        }
    }
}

/// A subscription request: the one control-plane message a peer sends.
#[derive(Debug)]
pub struct StockRequest {
    pub kind: String,
    pub addr: Addr,
    pub tickers: Vec<String>,
}

/// The spec-level image of a request.
pub ghost struct RequestView {
    pub kind: Seq<char>,
    pub addr: Addr,
    pub tickers: Seq<Seq<char>>,
}

impl View for StockRequest {
    type V = RequestView;

    open spec fn view(&self) -> RequestView {
        RequestView { kind: self.kind@, addr: self.addr, tickers: texts_view(self.tickers@) }
    }
}

/// Outcome of a subscription request.
#[derive(PartialEq, Eq, Structural, Clone, Copy, Debug)]
pub enum StockResponseStatus {
    Okay,
    Error,
}

/// The control-plane reply.
#[derive(Debug)]
pub struct StockResponse {
    pub status: StockResponseStatus,
    pub message: String,
}

/// The spec-level image of a response.
pub ghost struct ResponseView {
    pub status: StockResponseStatus,
    pub message: Seq<char>,
}

impl View for StockResponse {
    type V = ResponseView;

    open spec fn view(&self) -> ResponseView {
        ResponseView { status: self.status, message: self.message@ }
    }
}

/// Text that may stand inside a JSON string without escaping: free of
/// the quote and the backslash.
pub open spec fn json_plain_chars(s: Seq<char>) -> bool {
    forall|i: int| 0 <= i < s.len() ==> #[trigger] s[i] != '"' && s[i] != '\\'
}

/// Text that may stand inside a pipe-separated line: free of the
/// separator.
pub open spec fn pipe_plain_chars(s: Seq<char>) -> bool {
    forall|i: int| 0 <= i < s.len() ==> #[trigger] s[i] != '|'
}

/// Text that may stand in either wire format as it is.
pub open spec fn plain_chars(s: Seq<char>) -> bool {
    json_plain_chars(s) && pipe_plain_chars(s)
}

/// The texts of a sequence of strings.
pub open spec fn texts_view(v: Seq<String>) -> Seq<Seq<char>> {
    Seq::new(v.len(), |i: int| v[i]@)
}

/// The views of a sequence of quotes.
pub open spec fn quotes_view(v: Seq<StockQuote>) -> Seq<QuoteView> {
    Seq::new(v.len(), |i: int| v[i]@)
}

/// Plain text glues to plain text.
pub proof fn lemma_plain_concat(a: Seq<char>, b: Seq<char>)
    requires
        plain_chars(a),
        plain_chars(b),
    ensures
        plain_chars(a + b),
{
    assert forall|i: int| 0 <= i < (a + b).len() implies #[trigger] (a + b)[i] != '"' && (a
        + b)[i] != '\\' by {
        if i < a.len() {
            assert((a + b)[i] == a[i]);
        } else {
            assert((a + b)[i] == b[i - a.len()]);
        }
    }
    assert forall|i: int| 0 <= i < (a + b).len() implies #[trigger] (a + b)[i] != '|' by {
        if i < a.len() {
            assert((a + b)[i] == a[i]);
        } else {
            assert((a + b)[i] == b[i - a.len()]);
        }
    }
}

/// Digit runs are plain text.
pub proof fn lemma_digits_plain(ds: Seq<char>)
    requires
        all_digits(ds),
    ensures
        plain_chars(ds),
{
    assert forall|i: int| 0 <= i < ds.len() implies #[trigger] ds[i] != '"' && ds[i] != '\\' by {
        assert(is_digit(ds[i]));
    }
    assert forall|i: int| 0 <= i < ds.len() implies #[trigger] ds[i] != '|' by {
        assert(is_digit(ds[i]));
    }
}

/// The four digits of a fraction below `PRICE_SCALE`, most significant
/// first.
pub open spec fn frac4(f: nat) -> Seq<char> {
    seq![
        digit_char(f / 1000 % 10),
        digit_char(f / 100 % 10),
        digit_char(f / 10 % 10),
        digit_char(f % 10),
    ]
}

/// Drops trailing zeros, keeping at least one digit.
pub open spec fn trim_zeros(ds: Seq<char>) -> Seq<char>
    decreases ds.len(),
{
    if ds.len() <= 1 {
        ds
    } else if ds.last() == '0' {
        trim_zeros(ds.drop_last())
    } else {
        ds
    }
}

/// The canonical text of a price: integer part, a dot, and the trimmed
/// fraction.
pub open spec fn price_chars(p: u64) -> Seq<char> {
    dec_digits((p / PRICE_SCALE) as nat) + seq!['.'] + trim_zeros(frac4((p % PRICE_SCALE) as nat))
}

/// Renders a price in its canonical text form.
pub fn render_price(p: u64) -> (r: String)
    ensures
        r@ == price_chars(p),
{
    let mut out = u64_to_string(p / PRICE_SCALE);
    out.append(".");
    let f = p % PRICE_SCALE;
    let frac = render_frac(f);
    out.append(frac.as_str());
    proof {
        reveal_strlit(".");
        assert(out@ =~= price_chars(p));
    }
    out
}

/// The trimmed four-digit fraction of `f`.
fn render_frac(f: u64) -> (r: String)
    requires
        f < 10000,
    ensures
        r@ == trim_zeros(frac4(f as nat)),
{
    let d1 = ((f / 1000) % 10) as u8;
    let d2 = ((f / 100) % 10) as u8;
    let d3 = ((f / 10) % 10) as u8;
    let d4 = (f % 10) as u8;
    let ghost ds = frac4(f as nat);
    proof {
        assert(ds.len() == 4);
        lemma_digit_roundtrip(d1 as nat);
        lemma_digit_roundtrip(d2 as nat);
        lemma_digit_roundtrip(d3 as nat);
        lemma_digit_roundtrip(d4 as nat);
    }
    let mut out = crate::text::digit_str(d1);
    if d2 != 0 || d3 != 0 || d4 != 0 {
        let s2 = crate::text::digit_str(d2);
        out.append(s2.as_str());
        if d3 != 0 || d4 != 0 {
            let s3 = crate::text::digit_str(d3);
            out.append(s3.as_str());
            if d4 != 0 {
                let s4 = crate::text::digit_str(d4);
                out.append(s4.as_str());
            }
        }
    }
    proof {
        lemma_trim_cases(ds, d1 as nat, d2 as nat, d3 as nat, d4 as nat);
        assert(out@ =~= trim_zeros(ds));
    }
    out
}

/// How `trim_zeros` acts on a four-digit sequence, by which tail digits
/// are zero.
proof fn lemma_trim_cases(ds: Seq<char>, d1: nat, d2: nat, d3: nat, d4: nat)
    requires
        d1 < 10,
        d2 < 10,
        d3 < 10,
        d4 < 10,
        ds =~= seq![digit_char(d1), digit_char(d2), digit_char(d3), digit_char(d4)],
    ensures
        d4 != 0 ==> trim_zeros(ds) == ds,
        d4 == 0 && d3 != 0 ==> trim_zeros(ds) =~= seq![
            digit_char(d1),
            digit_char(d2),
            digit_char(d3),
        ],
        d4 == 0 && d3 == 0 && d2 != 0 ==> trim_zeros(ds) =~= seq![digit_char(d1), digit_char(d2)],
        d4 == 0 && d3 == 0 && d2 == 0 ==> trim_zeros(ds) =~= seq![digit_char(d1)],
{
    let t3 = seq![digit_char(d1), digit_char(d2), digit_char(d3)];
    let t2 = seq![digit_char(d1), digit_char(d2)];
    let t1 = seq![digit_char(d1)];
    assert(ds.drop_last() =~= t3);
    assert(t3.drop_last() =~= t2);
    assert(t2.drop_last() =~= t1);
    assert(digit_char(d4) == '0' <==> d4 == 0);
    assert(digit_char(d3) == '0' <==> d3 == 0);
    assert(digit_char(d2) == '0' <==> d2 == 0);
    if d4 == 0 {
        assert(trim_zeros(ds) == trim_zeros(t3));
        if d3 == 0 {
            assert(trim_zeros(t3) == trim_zeros(t2));
            if d2 == 0 {
                assert(trim_zeros(t2) == trim_zeros(t1));
                assert(trim_zeros(t1) == t1);
            } else {
                assert(trim_zeros(t2) == t2);
            }
        } else {
            assert(trim_zeros(t3) == t3);
        }
    }
}

/// The pipe-separated line of a quote:
/// `ticker|price|volume|timestamp`.
pub open spec fn quote_line_chars(q: QuoteView) -> Seq<char> {
    q.ticker + seq!['|'] + price_chars(q.price) + seq!['|'] + dec_digits(q.volume as nat)
        + seq!['|'] + dec_digits(q.timestamp as nat)
}

/// What quote, if any, a full line of text names.  The volume and the
/// timestamp take an optional leading plus sign, as the standard integer
/// parsers do.
pub open spec fn parse_quote_line_chars(s: Seq<char>) -> Option<QuoteView> {
    match split_at_char(s, '|') {
        None => None,
        Some((tick, r1)) => match parse_price_chars(r1) {
            None => None,
            Some((pv, r2)) => if r2.len() == 0 || r2[0] != '|' {
                None
            } else {
                let (dv, r3) = take_digits(skip_plus(r2.skip(1)));
                if dv.len() == 0 || digits_val(dv) > u32::MAX || r3.len() == 0 || r3[0] != '|' {
                    None
                } else {
                    let (dt, r4) = take_digits(skip_plus(r3.skip(1)));
                    if dt.len() == 0 || digits_val(dt) > u64::MAX || r4.len() != 0 {
                        None
                    } else {
                        Some(
                            QuoteView {
                                ticker: tick,
                                price: pv,
                                volume: digits_val(dv) as u32,
                                timestamp: digits_val(dt) as u64,
                            },
                        )
                    }
                }
            },
        },
    }
}

impl StockQuote {
    /// An exact copy, field for field.
    pub fn duplicate(&self) -> (r: StockQuote)
        ensures
            r@ == self@,
    {
        StockQuote {
            ticker: self.ticker.clone(),
            price: self.price,
            volume: self.volume,
            timestamp: self.timestamp,
        }
    }

    /// Renders the quote as its pipe-separated line.
    pub fn to_string(&self) -> (r: String)
        ensures
            r@ == quote_line_chars(self@),
    {
        let mut out = self.ticker.clone();
        out.append("|");
        let price = render_price(self.price);
        out.append(price.as_str());
        out.append("|");
        let vol = u64_to_string(self.volume as u64);
        out.append(vol.as_str());
        out.append("|");
        let ts = u64_to_string(self.timestamp);
        out.append(ts.as_str());
        proof {
            reveal_strlit("|");
            assert(out@ =~= quote_line_chars(self@));
        }
        out
    }

    /// Renders the quote line as bytes, UTF-8 encoded.
    pub fn to_bytes(&self) -> (r: Vec<u8>)
        ensures
            r@ == vstd::utf8::encode_utf8(quote_line_chars(self@)),
    {
        let line = self.to_string();
        line.as_str().as_bytes_vec()
    }

    /// Reads a quote back from a pipe-separated line; `None` exactly when
    /// the line does not name one.
    pub fn from_string(s: &str) -> (r: Option<StockQuote>)
        ensures
            match r {
                Some(q) => parse_quote_line_chars(s@) == Some(q@),
                None => parse_quote_line_chars(s@) is None,
            },
    {
        let len = s.unicode_len();
        proof {
            assert(s@.skip(0) =~= s@);
        }
        let bar1 = match find_char(s, 0, '|') {
            Some(i) => i,
            None => {
                return None;
            },
        };
        let ticker = s.substring_char(0, bar1).to_owned();
        let (pv, p2) = match parse_price_at(s, bar1 + 1) {
            Some(v) => v,
            None => {
                return None;
            },
        };
        proof {
            lemma_skip_head(s@, p2 as int);
        }
        if p2 == len || s.get_char(p2) != '|' {
            return None;
        }
        let v_start = if p2 + 1 < len && s.get_char(p2 + 1) == '+' {
            p2 + 2
        } else {
            p2 + 1
        };
        proof {
            lemma_skip_head(s@, p2 + 1);
            assert(skip_plus(s@.skip(p2 + 1)) =~= s@.skip(v_start as int));
        }
        let (vol, p3) = match parse_bounded_at(s, v_start, 0xffff_ffff) {
            Some(v) => v,
            None => {
                return None;
            },
        };
        proof {
            lemma_skip_head(s@, p3 as int);
        }
        if p3 == len || s.get_char(p3) != '|' {
            return None;
        }
        let t_start = if p3 + 1 < len && s.get_char(p3 + 1) == '+' {
            p3 + 2
        } else {
            p3 + 1
        };
        proof {
            lemma_skip_head(s@, p3 + 1);
            assert(skip_plus(s@.skip(p3 + 1)) =~= s@.skip(t_start as int));
        }
        let (ts, p4) = match parse_bounded_at(s, t_start, u64::MAX) {
            Some(v) => v,
            None => {
                return None;
            },
        };
        if p4 != len {
            return None;
        }
        Some(StockQuote { ticker, price: pv, volume: vol as u32, timestamp: ts })
    }
}

/// The pipe-separated line of a quote names that quote back, as long as
/// its ticker carries no separator of the format.
pub proof fn lemma_quote_line_roundtrip(q: QuoteView)
    requires
        pipe_plain_chars(q.ticker),
    ensures
        parse_quote_line_chars(quote_line_chars(q)) == Some(q),
{
    let s = quote_line_chars(q);
    let tail1 = price_chars(q.price) + seq!['|'] + dec_digits(q.volume as nat) + seq!['|']
        + dec_digits(q.timestamp as nat);
    assert(s =~= q.ticker + seq!['|'] + tail1);
    lemma_split_exact(q.ticker, '|', tail1);
    let tail2 = seq!['|'] + dec_digits(q.volume as nat) + seq!['|'] + dec_digits(q.timestamp as nat);
    assert(tail1 =~= price_chars(q.price) + tail2);
    assert(tail2[0] == '|');
    lemma_price_roundtrip(q.price, tail2);
    let tail3 = dec_digits(q.volume as nat) + seq!['|'] + dec_digits(q.timestamp as nat);
    assert(tail2.skip(1) =~= tail3);
    lemma_dec_digits_val(q.volume as nat);
    assert(is_digit(tail3[0]));
    assert(skip_plus(tail3) == tail3);
    lemma_peel(tail3, q.volume as nat, '|', dec_digits(q.timestamp as nat));
    lemma_dec_digits_val(q.timestamp as nat);
    assert(is_digit(dec_digits(q.timestamp as nat)[0]));
    assert(skip_plus(dec_digits(q.timestamp as nat)) == dec_digits(q.timestamp as nat));
    lemma_take_digits_exact(dec_digits(q.timestamp as nat), Seq::empty());
    assert(dec_digits(q.timestamp as nat) + Seq::<char>::empty() =~= dec_digits(
        q.timestamp as nat,
    ));
}

/// What price, if any, stands at the front of `s`: a decimal integer
/// part, optionally followed by a dot and one to four fraction digits — a
/// bare numeral is a whole price.  Yields the fixed-point value and the
/// rest of the text.
pub open spec fn parse_price_chars(s: Seq<char>) -> Option<(u64, Seq<char>)> {
    let (di, r1) = take_digits(s);
    if di.len() == 0 {
        None
    } else if r1.len() > 0 && r1[0] == '.' {
        let (df, r2) = take_digits(r1.skip(1));
        if df.len() == 0 || df.len() > 4 {
            None
        } else {
            let v = digits_val(di) * (PRICE_SCALE as nat) + digits_val(df) * p10(
                (4 - df.len()) as nat,
            );
            if v > u64::MAX {
                None
            } else {
                Some((v as u64, r2))
            }
        }
    } else {
        // A bare integer numeral names a whole price.
        let v = digits_val(di) * (PRICE_SCALE as nat);
        if v > u64::MAX {
            None
        } else {
            Some((v as u64, r1))
        }
    }
}

/// Reads a price from `pos` on; `None` exactly when no price of a
/// representable value stands there.
pub fn parse_price_at(s: &str, pos: usize) -> (r: Option<(u64, usize)>)
    requires
        pos <= s@.len(),
    ensures
        ({
            match r {
                Some((v, p2)) => {
                    &&& pos <= p2 <= s@.len()
                    &&& parse_price_chars(s@.skip(pos as int)) == Some((v, s@.skip(p2 as int)))
                },
                None => parse_price_chars(s@.skip(pos as int)) is None,
            }
        }),
{
    let len = s.unicode_len();
    let ghost suffix = s@.skip(pos as int);
    let (ip, p1) = match parse_bounded_at(s, pos, u64::MAX / PRICE_SCALE) {
        Some(v) => v,
        None => {
            proof {
                lemma_int_part_overflow(suffix);
            }
            return None;
        },
    };
    proof {
        lemma_skip_head(s@, p1 as int);
    }
    if p1 == len || s.get_char(p1) != '.' {
        proof {
            assert(ip * PRICE_SCALE <= (u64::MAX / PRICE_SCALE) * PRICE_SCALE <= u64::MAX)
                by (nonlinear_arith)
                requires
                    ip <= u64::MAX / PRICE_SCALE,
                    PRICE_SCALE == 10000,
            ;
        }
        return Some((ip * PRICE_SCALE, p1));
    }
    let (fv, p2) = match parse_bounded_at(s, p1 + 1, 9999) {
        Some(v) => v,
        None => {
            proof {
                lemma_frac_run_overflow(s@.skip(p1 + 1));
            }
            return None;
        },
    };
    let flen = p2 - (p1 + 1);
    if flen > 4 {
        return None;
    }
    proof {
        let (df, _r2) = take_digits(s@.skip(p1 + 1));
        crate::text::lemma_take_digits_shape(s@.skip(p1 + 1));
        lemma_digits_val_bound(df);
        lemma_p10_small(4 - df.len());
        lemma_p10_mul4(df.len());
        assert(ip * PRICE_SCALE <= (u64::MAX / PRICE_SCALE) * PRICE_SCALE <= u64::MAX) by (nonlinear_arith)
            requires
                ip <= u64::MAX / PRICE_SCALE,
                PRICE_SCALE == 10000,
        ;
        assert(fv * p10((4 - df.len()) as nat) < 10000) by (nonlinear_arith)
            requires
                fv < p10(df.len() as nat),
                p10(df.len() as nat) * p10((4 - df.len()) as nat) == 10000,
                p10((4 - df.len()) as nat) >= 1,
        ;
    }
    let scale = pow10_small(4 - flen as u32);
    let scaled = fv * scale;
    if ip > (u64::MAX - scaled) / PRICE_SCALE {
        return None;
    }
    Some((ip * PRICE_SCALE + scaled, p2))
}

/// Ten to a small power, executably.
fn pow10_small(k: u32) -> (r: u64)
    requires
        k <= 4,
    ensures
        r == p10(k as nat),
        r <= 10000,
{
    let r: u64 = if k == 0 {
        1
    } else if k == 1 {
        10
    } else if k == 2 {
        100
    } else if k == 3 {
        1000
    } else {
        10000
    };
    proof {
        lemma_p10_unfold(k as nat);
    }
    r
}

/// The first five powers of ten, spelled out.
proof fn lemma_p10_unfold(k: nat)
    requires
        k <= 4,
    ensures
        k == 0 ==> p10(k) == 1,
        k == 1 ==> p10(k) == 10,
        k == 2 ==> p10(k) == 100,
        k == 3 ==> p10(k) == 1000,
        k == 4 ==> p10(k) == 10000,
{
    assert(p10(0) == 1);
    assert(p10(1) == 10);
    assert(p10(2) == 100);
    assert(p10(3) == 1000);
    assert(p10(4) == 10000);
}

proof fn lemma_p10_small(k: int)
    requires
        0 <= k <= 4,
    ensures
        1 <= p10(k as nat) <= 10000,
{
    lemma_p10_unfold(k as nat);
}

/// A fraction run and the places it leaves open multiply to one whole
/// scale unit.
proof fn lemma_p10_mul4(l: nat)
    requires
        1 <= l <= 4,
    ensures
        p10(l) * p10((4 - l) as nat) == 10000,
{
    lemma_p10_unfold(l);
    lemma_p10_unfold((4 - l) as nat);
}

/// When the integer part overflows its bound, no price stands here: both
/// the whole-price and the fraction path carry at least that value.
proof fn lemma_int_part_overflow(s: Seq<char>)
    requires
        ({
            let (di, _r1) = take_digits(s);
            di.len() == 0 || digits_val(di) > u64::MAX / PRICE_SCALE
        }),
    ensures
        parse_price_chars(s) is None,
{
    let (di, _r1) = take_digits(s);
    if di.len() > 0 {
        assert(digits_val(di) * (PRICE_SCALE as nat) > u64::MAX) by (nonlinear_arith)
            requires
                digits_val(di) > u64::MAX / PRICE_SCALE,
                PRICE_SCALE == 10000,
        ;
    }
}

/// When the fraction run overflows 9999, it is longer than four digits, so
/// no price stands here.
proof fn lemma_frac_run_overflow(t: Seq<char>)
    requires
        ({
            let (df, _r) = take_digits(t);
            df.len() == 0 || digits_val(df) > 9999
        }),
    ensures
        ({
            let (df, _r) = take_digits(t);
            df.len() == 0 || df.len() > 4
        }),
{
    let (df, _r) = take_digits(t);
    if df.len() > 0 && df.len() <= 4 {
        crate::text::lemma_take_digits_shape(t);
        lemma_digits_val_bound(df);
        lemma_p10_small(df.len() as int);
        assert(p10(df.len()) <= p10(4)) by {
            lemma_p10_unfold(df.len());
            lemma_p10_unfold(4);
        }
    }
}

/// The trimmed fraction of `f` holds `f` scaled by the dropped places.
proof fn lemma_frac_value(f: nat)
    requires
        f < 10000,
    ensures
        ({
            let t = trim_zeros(frac4(f));
            &&& 1 <= t.len() <= 4
            &&& all_digits(t)
            &&& digits_val(t) * p10((4 - t.len()) as nat) == f
        }),
{
    let d1 = f / 1000 % 10;
    let d2 = f / 100 % 10;
    let d3 = f / 10 % 10;
    let d4 = f % 10;
    let ds = frac4(f);
    lemma_digit_roundtrip(d1);
    lemma_digit_roundtrip(d2);
    lemma_digit_roundtrip(d3);
    lemma_digit_roundtrip(d4);
    lemma_trim_cases(ds, d1, d2, d3, d4);
    lemma_p10_unfold(0);
    lemma_p10_unfold(1);
    lemma_p10_unfold(2);
    lemma_p10_unfold(3);
    assert(f == d1 * 1000 + d2 * 100 + d3 * 10 + d4) by (nonlinear_arith)
        requires
            f < 10000,
            d1 == f / 1000 % 10,
            d2 == f / 100 % 10,
            d3 == f / 10 % 10,
            d4 == f % 10,
    ;
    let t3 = seq![digit_char(d1), digit_char(d2), digit_char(d3)];
    let t2 = seq![digit_char(d1), digit_char(d2)];
    let t1 = seq![digit_char(d1)];
    assert(ds.drop_last() =~= t3);
    assert(t3.drop_last() =~= t2);
    assert(t2.drop_last() =~= t1);
    assert(t1.drop_last() =~= Seq::<char>::empty());
    assert(digits_val(Seq::<char>::empty()) == 0);
    assert(all_digits(t1));
    assert(all_digits(t2));
    assert(all_digits(t3));
    assert(all_digits(ds));
    assert(digits_val(t1) == d1);
    assert(digits_val(t2) == d1 * 10 + d2);
    assert(digits_val(t3) == (d1 * 10 + d2) * 10 + d3);
    assert(digits_val(ds) == ((d1 * 10 + d2) * 10 + d3) * 10 + d4);
    let t = trim_zeros(ds);
    if d4 != 0 {
        assert(t == ds);
        assert(digits_val(t) * p10((4 - t.len()) as nat) == digits_val(ds) * 1);
        assert(digits_val(ds) == f);
    } else if d3 != 0 {
        assert(t =~= t3);
        assert(t.len() == 3);
        assert(digits_val(t) * p10((4 - t.len()) as nat) == digits_val(t3) * 10);
        assert(digits_val(t3) * 10 == f);
    } else if d2 != 0 {
        assert(t =~= t2);
        assert(t.len() == 2);
        assert(digits_val(t) * p10((4 - t.len()) as nat) == digits_val(t2) * 100);
        assert(digits_val(t2) * 100 == f);
    } else {
        assert(t =~= t1);
        assert(t.len() == 1);
        assert(digits_val(t) * p10((4 - t.len()) as nat) == digits_val(t1) * 1000);
        assert(digits_val(t1) * 1000 == f);
    }
}

/// The canonical text of a price names that price back, whatever follows,
/// as long as what follows does not begin with a digit.
pub proof fn lemma_price_roundtrip(p: u64, rest: Seq<char>)
    requires
        rest.len() == 0 || !is_digit(rest[0]),
    ensures
        parse_price_chars(price_chars(p) + rest) == Some((p, rest)),
{
    let ip = (p / PRICE_SCALE) as nat;
    let f = (p % PRICE_SCALE) as nat;
    let t = trim_zeros(frac4(f));
    lemma_frac_value(f);
    lemma_dec_digits_val(ip);
    let s = price_chars(p) + rest;
    assert(s =~= dec_digits(ip) + seq!['.'] + (t + rest));
    lemma_peel(s, ip, '.', t + rest);
    assert((seq!['.'] + (t + rest)).skip(1) =~= t + rest);
    lemma_take_digits_exact(t, rest);
    assert(digits_val(dec_digits(ip)) * (PRICE_SCALE as nat) + digits_val(t) * p10(
        (4 - t.len()) as nat,
    ) == ip * (PRICE_SCALE as nat) + f);
    assert(ip * (PRICE_SCALE as nat) + f == p) by (nonlinear_arith)
        requires
            ip == (p / PRICE_SCALE) as nat,
            f == (p % PRICE_SCALE) as nat,
            PRICE_SCALE == 10000,
    ;
}

/// An exact copy of a list of strings.
pub fn duplicate_texts(v: &Vec<String>) -> (r: Vec<String>)
    ensures
        texts_view(r@) == texts_view(v@),
        r@.len() == v@.len(),
{
    let mut out: Vec<String> = Vec::new();
    let mut i: usize = 0;
    let n = v.len();
    while i < n
        invariant
            0 <= i <= n,
            n == v@.len(),
            out@.len() == i,
            forall|j: int| 0 <= j < i ==> (#[trigger] out@[j])@ == v@[j]@,
        decreases n - i,
    {
        out.push(v[i].clone());
        i = i + 1;
    }
    proof {
        assert(texts_view(out@) =~= texts_view(v@));
    }
    out
}

/// Whether a ticker list names this ticker.
pub open spec fn contains_text(ts: Seq<Seq<char>>, t: Seq<char>) -> bool {
    exists|i: int| 0 <= i < ts.len() && ts[i] == t
}

/// The quotes of a snapshot whose tickers the filter names, in their
/// order within the snapshot; a ticker outside the filter is dropped, a
/// filter entry outside the snapshot matches nothing.
pub open spec fn filter_view(qs: Seq<QuoteView>, ts: Seq<Seq<char>>) -> Seq<QuoteView>
    decreases qs.len(),
{
    if qs.len() == 0 {
        qs
    } else {
        let rest = filter_view(qs.drop_last(), ts);
        if contains_text(ts, qs.last().ticker) {
            rest.push(qs.last())
        } else {
            rest
        }
    }
}

/// Whether the ticker list names `t`, decided character-wise.
pub fn contains_ticker(ts: &Vec<String>, t: &str) -> (r: bool)
    ensures
        r == contains_text(texts_view(ts@), t@),
{
    let mut i: usize = 0;
    let n = ts.len();
    while i < n
        invariant
            0 <= i <= n,
            n == ts@.len(),
            forall|j: int| 0 <= j < i ==> texts_view(ts@)[j] != t@,
        decreases n - i,
    {
        if crate::text::str_eq(ts[i].as_str(), t) {
            proof {
                assert(texts_view(ts@)[i as int] == t@);
            }
            return true;
        }
        i = i + 1;
    }
    false
}

/// Filters one snapshot down to a subscriber's requested tickers: the
/// delivery-time step, applied per subscriber and never inside the
/// generator.  The result's content equals the snapshot's, restricted to
/// the filter.
pub fn filter_quotes(qs: &Vec<StockQuote>, ts: &Vec<String>) -> (r: Vec<StockQuote>)
    ensures
        quotes_view(r@) == filter_view(quotes_view(qs@), texts_view(ts@)),
{
    let ghost whole = quotes_view(qs@);
    let ghost fil = texts_view(ts@);
    let mut out: Vec<StockQuote> = Vec::new();
    let mut i: usize = 0;
    let n = qs.len();
    while i < n
        invariant
            0 <= i <= n,
            n == qs@.len(),
            whole == quotes_view(qs@),
            fil == texts_view(ts@),
            quotes_view(out@) == filter_view(whole.subrange(0, i as int), fil),
        decreases n - i,
    {
        let ghost pre = whole.subrange(0, i as int);
        let ghost post = whole.subrange(0, i + 1);
        proof {
            assert(post.drop_last() =~= pre);
            assert(post.last() == whole[i as int]);
        }
        if contains_ticker(ts, qs[i].ticker.as_str()) {
            let q = qs[i].duplicate();
            let ghost out0 = out@;
            out.push(q);
            proof {
                assert(quotes_view(out@) =~= quotes_view(out0).push(whole[i as int]));
            }
        }
        i = i + 1;
    }
    proof {
        assert(whole.subrange(0, n as int) =~= whole);
    }
    out
}

} // verus!
