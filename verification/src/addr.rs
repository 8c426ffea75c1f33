//! Subscriber addresses.
//!
//! A subscriber is keyed by the socket address it receives broadcasts on.
//! The library models such an address as four octets and a port, and owns
//! the `"a.b.c.d:port"` text form used on the wire and in liveness pings.

use vstd::prelude::*;

use crate::text::{
    dec_digits, digits_val, lemma_dec_digits_val, lemma_peel, lemma_skip_head,
    lemma_take_digits_exact, parse_bounded_at, take_digits, u64_to_string,
};

verus! {

/// An IPv4 socket address: the one kind of address this system speaks.
#[derive(PartialEq, Eq, Structural, Clone, Copy, Debug, Hash)]
pub struct Addr {
    pub o1: u8,
    pub o2: u8,
    pub o3: u8,
    pub o4: u8,
    pub port: u16,
}

/// Errors of the plain-value validators.
#[derive(PartialEq, Eq, Structural, Clone, Copy, Debug)]
pub enum ParseError {
    /// The text does not name a value of the expected shape or range.
    Malformed,
}

/// The canonical text of an address: `"a.b.c.d:port"`, each number in
/// canonical decimal.
pub open spec fn addr_chars(ad: Addr) -> Seq<char> {
    dec_digits(ad.o1 as nat) + seq!['.'] + dec_digits(ad.o2 as nat) + seq!['.'] + dec_digits(
        ad.o3 as nat,
    ) + seq!['.'] + dec_digits(ad.o4 as nat) + seq![':'] + dec_digits(ad.port as nat)
}

/// A digit run with a superfluous leading zero, which an octet may not
/// carry.
pub open spec fn zero_prefixed(d: Seq<char>) -> bool {
    d.len() > 1 && d[0] == '0'
}

/// What address, if any, a piece of text names: four decimal octets joined
/// by dots, a colon, and a decimal port, with nothing around them.
/// Octets may not have leading zeros; the port may.
pub open spec fn parse_addr_chars(s: Seq<char>) -> Option<Addr> {
    let (d1, r1) = take_digits(s);
    if d1.len() == 0 || zero_prefixed(d1) || digits_val(d1) > 255 || r1.len() == 0 || r1[0] != '.' {
        None
    } else {
        let (d2, r2) = take_digits(r1.skip(1));
        if d2.len() == 0 || zero_prefixed(d2) || digits_val(d2) > 255 || r2.len() == 0
            || r2[0] != '.' {
            None
        } else {
            let (d3, r3) = take_digits(r2.skip(1));
            if d3.len() == 0 || zero_prefixed(d3) || digits_val(d3) > 255 || r3.len() == 0
                || r3[0] != '.' {
                None
            } else {
                let (d4, r4) = take_digits(r3.skip(1));
                if d4.len() == 0 || zero_prefixed(d4) || digits_val(d4) > 255 || r4.len() == 0
                    || r4[0] != ':' {
                    None
                } else {
                    let (dp, rp) = take_digits(r4.skip(1));
                    if dp.len() == 0 || digits_val(dp) > 65535 || rp.len() != 0 {
                        None
                    } else {
                        Some(
                            Addr {
                                o1: digits_val(d1) as u8,
                                o2: digits_val(d2) as u8,
                                o3: digits_val(d3) as u8,
                                o4: digits_val(d4) as u8,
                                port: digits_val(dp) as u16,
                            },
                        )
                    }
                }
            }
        }
    }
}

/// Renders an address in its canonical text form.
pub fn format_addr(ad: &Addr) -> (r: String)
    ensures
        r@ == addr_chars(*ad),
{
    let mut out = u64_to_string(ad.o1 as u64);
    out.append(".");
    let o2 = u64_to_string(ad.o2 as u64);
    out.append(o2.as_str());
    out.append(".");
    let o3 = u64_to_string(ad.o3 as u64);
    out.append(o3.as_str());
    out.append(".");
    let o4 = u64_to_string(ad.o4 as u64);
    out.append(o4.as_str());
    out.append(":");
    let p = u64_to_string(ad.port as u64);
    out.append(p.as_str());
    proof {
        reveal_strlit(".");
        reveal_strlit(":");
        assert(out@ =~= addr_chars(*ad));
    }
    out
}

/// Reads an address from its text form; `None` exactly when the text does
/// not name one.
pub fn parse_addr(s: &str) -> (r: Option<Addr>)
    ensures
        r == parse_addr_chars(s@),
{
    let len = s.unicode_len();
    proof {
        assert(s@.skip(0) =~= s@);
    }
    let o1 = match parse_octet(s, 0) {
        Some(v) => v,
        None => {
            return None;
        },
    };
    let o2 = match parse_octet(s, o1.1) {
        Some(v) => v,
        None => {
            return None;
        },
    };
    let o3 = match parse_octet(s, o2.1) {
        Some(v) => v,
        None => {
            return None;
        },
    };
    // Fourth octet, then ':'.
    let (v4, p4) = match parse_bounded_at(s, o3.1, 255) {
        Some(v) => v,
        None => {
            return None;
        },
    };
    proof {
        crate::text::lemma_take_digits_shape(s@.skip(o3.1 as int));
        lemma_skip_head(s@, o3.1 as int);
    }
    if p4 - o3.1 > 1 && s.get_char(o3.1) == '0' {
        return None;
    }
    if p4 == len || s.get_char(p4) != ':' {
        proof {
            lemma_skip_head(s@, p4 as int);
        }
        return None;
    }
    proof {
        lemma_skip_head(s@, p4 as int);
    }
    let (vp, pp) = match parse_bounded_at(s, p4 + 1, 65535) {
        Some(v) => v,
        None => {
            return None;
        },
    };
    if pp != len {
        return None;
    }
    Some(
        Addr {
            o1: o1.0 as u8,
            o2: o2.0 as u8,
            o3: o3.0 as u8,
            o4: v4 as u8,
            port: vp as u16,
        },
    )
}

/// Reads one octet and the dot after it, from `pos` on.
fn parse_octet(s: &str, pos: usize) -> (r: Option<(u8, usize)>)
    requires
        pos <= s@.len(),
    ensures
        ({
            let (d, rest) = take_digits(s@.skip(pos as int));
            match r {
                Some((v, p2)) => {
                    &&& d.len() > 0
                    &&& !zero_prefixed(d)
                    &&& digits_val(d) == v
                    &&& v <= 255
                    &&& rest.len() > 0 && rest[0] == '.'
                    &&& pos < p2 <= s@.len()
                    &&& s@.skip(p2 as int) == rest.skip(1)
                },
                None => d.len() == 0 || zero_prefixed(d) || digits_val(d) > 255 || rest.len() == 0
                    || rest[0] != '.',
            }
        }),
{
    let len = s.unicode_len();
    let (v, p) = match parse_bounded_at(s, pos, 255) {
        Some(v) => v,
        None => {
            return None;
        },
    };
    proof {
        crate::text::lemma_take_digits_shape(s@.skip(pos as int));
        lemma_skip_head(s@, pos as int);
    }
    if p - pos > 1 && s.get_char(pos) == '0' {
        return None;
    }
    proof {
        lemma_skip_head(s@, p as int);
    }
    if p == len || s.get_char(p) != '.' {
        return None;
    }
    Some((v as u8, p + 1))
}

/// The canonical text of an address names that address back.
#[verifier::rlimit(60)]
pub proof fn lemma_addr_roundtrip(ad: Addr)
    ensures
        parse_addr_chars(addr_chars(ad)) == Some(ad),
{
    let t1 = dec_digits(ad.o2 as nat) + seq!['.'] + dec_digits(ad.o3 as nat) + seq!['.']
        + dec_digits(ad.o4 as nat) + seq![':'] + dec_digits(ad.port as nat);
    let t2 = dec_digits(ad.o3 as nat) + seq!['.'] + dec_digits(ad.o4 as nat) + seq![':']
        + dec_digits(ad.port as nat);
    let t3 = dec_digits(ad.o4 as nat) + seq![':'] + dec_digits(ad.port as nat);
    let t4 = dec_digits(ad.port as nat);
    lemma_dec_digits_val(ad.o1 as nat);
    lemma_dec_digits_val(ad.o2 as nat);
    lemma_dec_digits_val(ad.o3 as nat);
    lemma_dec_digits_val(ad.o4 as nat);
    lemma_dec_digits_val(ad.port as nat);
    crate::text::lemma_dec_digits_no_leading_zero(ad.o1 as nat);
    crate::text::lemma_dec_digits_no_leading_zero(ad.o2 as nat);
    crate::text::lemma_dec_digits_no_leading_zero(ad.o3 as nat);
    crate::text::lemma_dec_digits_no_leading_zero(ad.o4 as nat);
    lemma_peel(addr_chars(ad), ad.o1 as nat, '.', t1);
    lemma_peel(t1, ad.o2 as nat, '.', t2);
    lemma_peel(t2, ad.o3 as nat, '.', t3);
    lemma_peel(t3, ad.o4 as nat, ':', t4);
    lemma_take_digits_exact(dec_digits(ad.port as nat), Seq::empty());
    assert(t4 + Seq::<char>::empty() =~= t4);
}

/// The text of an address carries no wire-format delimiter.
pub proof fn lemma_addr_chars_plain(ad: Addr)
    ensures
        crate::stock::plain_chars(addr_chars(ad)),
{
    lemma_dec_digits_val(ad.o1 as nat);
    lemma_dec_digits_val(ad.o2 as nat);
    lemma_dec_digits_val(ad.o3 as nat);
    lemma_dec_digits_val(ad.o4 as nat);
    lemma_dec_digits_val(ad.port as nat);
    crate::stock::lemma_digits_plain(dec_digits(ad.o1 as nat));
    crate::stock::lemma_digits_plain(dec_digits(ad.o2 as nat));
    crate::stock::lemma_digits_plain(dec_digits(ad.o3 as nat));
    crate::stock::lemma_digits_plain(dec_digits(ad.o4 as nat));
    crate::stock::lemma_digits_plain(dec_digits(ad.port as nat));
    assert(crate::stock::plain_chars(seq!['.']));
    assert(crate::stock::plain_chars(seq![':']));
    crate::stock::lemma_plain_concat(dec_digits(ad.o1 as nat), seq!['.']);
    crate::stock::lemma_plain_concat(dec_digits(ad.o1 as nat) + seq!['.'], dec_digits(ad.o2 as nat));
    crate::stock::lemma_plain_concat(
        dec_digits(ad.o1 as nat) + seq!['.'] + dec_digits(ad.o2 as nat),
        seq!['.'],
    );
    crate::stock::lemma_plain_concat(
        dec_digits(ad.o1 as nat) + seq!['.'] + dec_digits(ad.o2 as nat) + seq!['.'],
        dec_digits(ad.o3 as nat),
    );
    crate::stock::lemma_plain_concat(
        dec_digits(ad.o1 as nat) + seq!['.'] + dec_digits(ad.o2 as nat) + seq!['.'] + dec_digits(
            ad.o3 as nat,
        ),
        seq!['.'],
    );
    crate::stock::lemma_plain_concat(
        dec_digits(ad.o1 as nat) + seq!['.'] + dec_digits(ad.o2 as nat) + seq!['.'] + dec_digits(
            ad.o3 as nat,
        ) + seq!['.'],
        dec_digits(ad.o4 as nat),
    );
    crate::stock::lemma_plain_concat(
        dec_digits(ad.o1 as nat) + seq!['.'] + dec_digits(ad.o2 as nat) + seq!['.'] + dec_digits(
            ad.o3 as nat,
        ) + seq!['.'] + dec_digits(ad.o4 as nat),
        seq![':'],
    );
    crate::stock::lemma_plain_concat(
        dec_digits(ad.o1 as nat) + seq!['.'] + dec_digits(ad.o2 as nat) + seq!['.'] + dec_digits(
            ad.o3 as nat,
        ) + seq!['.'] + dec_digits(ad.o4 as nat) + seq![':'],
        dec_digits(ad.port as nat),
    );
}

/// Checks that a string names a UDP/TCP port: an optional `+` sign and a
/// decimal number no greater than 65535, nothing else.
pub fn port_validation(s: &str) -> (r: Result<u16, ParseError>)
    ensures
        ({
            let (d, rest) = take_digits(crate::text::skip_plus(s@));
            match r {
                Ok(p) => d.len() > 0 && rest.len() == 0 && digits_val(d) == p,
                Err(_) => d.len() == 0 || rest.len() != 0 || digits_val(d) > 65535,
            }
        }),
{
    let len = s.unicode_len();
    let start: usize = if len > 0 && s.get_char(0) == '+' {
        1
    } else {
        0
    };
    proof {
        assert(s@.skip(0) =~= s@);
        assert(crate::text::skip_plus(s@) =~= s@.skip(start as int));
    }
    match parse_bounded_at(s, start, 65535) {
        Some((v, p)) => {
            if p == len {
                Ok(v as u16)
            } else {
                Err(ParseError::Malformed)
            }
        },
        None => Err(ParseError::Malformed),
    }
}

/// Checks that a string names a socket address in `"a.b.c.d:port"` form.
pub fn server_address_validation(s: &str) -> (r: Result<Addr, ParseError>)
    ensures
        ({
            match r {
                Ok(ad) => parse_addr_chars(s@) == Some(ad),
                Err(_) => parse_addr_chars(s@) is None,
            }
        }),
{
    match parse_addr(s) {
        Some(ad) => Ok(ad),
        None => Err(ParseError::Malformed),
    }
}

} // verus!
