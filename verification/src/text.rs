//! Characters, decimal numerals and plain string comparison.
//!
//! Every wire format of this crate (the control-plane JSON, the socket
//! address text, the pipe-separated quote line) spells numbers in decimal.
//! This module defines the one decimal numeral specification they all share,
//! executable rendering and parsing against it, and the round-trip facts the
//! codec proofs are built from.

use vstd::prelude::*;

verus! {

/// Numeric value of a digit character; 10 marks a non-digit.
pub open spec fn digit_val(c: char) -> nat {
    if c == '0' {
        0
    } else if c == '1' {
        1
    } else if c == '2' {
        2
    } else if c == '3' {
        3
    } else if c == '4' {
        4
    } else if c == '5' {
        5
    } else if c == '6' {
        6
    } else if c == '7' {
        7
    } else if c == '8' {
        8
    } else if c == '9' {
        9
    } else {
        10
    }
}

pub open spec fn is_digit(c: char) -> bool {
    digit_val(c) < 10
}

/// The digit character for a value below ten.
pub open spec fn digit_char(d: nat) -> char {
    if d == 0 {
        '0'
    } else if d == 1 {
        '1'
    } else if d == 2 {
        '2'
    } else if d == 3 {
        '3'
    } else if d == 4 {
        '4'
    } else if d == 5 {
        '5'
    } else if d == 6 {
        '6'
    } else if d == 7 {
        '7'
    } else if d == 8 {
        '8'
    } else {
        '9'
    }
}

/// The canonical decimal numeral of `n`: no sign, no leading zero.
pub open spec fn dec_digits(n: nat) -> Seq<char>
    decreases n,
{
    if n < 10 {
        seq![digit_char(n)]
    } else {
        dec_digits(n / 10).push(digit_char(n % 10))
    }
}

/// Value of a sequence of digit characters, most significant first.
pub open spec fn digits_val(ds: Seq<char>) -> nat
    decreases ds.len(),
{
    if ds.len() == 0 {
        0
    } else {
        digits_val(ds.drop_last()) * 10 + digit_val(ds.last())
    }
}

pub open spec fn all_digits(ds: Seq<char>) -> bool {
    forall|i: int| 0 <= i < ds.len() ==> is_digit(#[trigger] ds[i])
}

/// Splits a string into its maximal leading run of digits and the rest.
pub open spec fn take_digits(s: Seq<char>) -> (Seq<char>, Seq<char>)
    decreases s.len(),
{
    if s.len() > 0 && is_digit(s[0]) {
        let (d, r) = take_digits(s.skip(1));
        (seq![s[0]] + d, r)
    } else {
        (Seq::empty(), s)
    }
}

/// A digit character made from a small value names that value.
pub proof fn lemma_digit_roundtrip(d: nat)
    requires
        d < 10,
    ensures
        digit_val(digit_char(d)) == d,
        is_digit(digit_char(d)),
{
}

/// A decimal numeral names its value back.
pub proof fn lemma_dec_digits_val(n: nat)
    ensures
        digits_val(dec_digits(n)) == n,
        dec_digits(n).len() >= 1,
        all_digits(dec_digits(n)),
    decreases n,
{
    if n < 10 {
        lemma_digit_roundtrip(n);
        let ds = dec_digits(n);
        assert(ds =~= seq![digit_char(n)]);
        assert(ds.drop_last() =~= Seq::<char>::empty());
        assert(digits_val(ds.drop_last()) == 0);
        assert(ds.last() == digit_char(n));
        assert(digits_val(ds) == digits_val(ds.drop_last()) * 10 + digit_val(ds.last()));
    } else {
        lemma_digit_roundtrip(n % 10);
        lemma_dec_digits_val(n / 10);
        let ds = dec_digits(n);
        assert(ds.drop_last() =~= dec_digits(n / 10));
        assert(ds.last() == digit_char(n % 10));
        assert(digits_val(ds) == (n / 10) * 10 + (n % 10));
        assert((n / 10) * 10 + (n % 10) == n) by (nonlinear_arith);
        assert forall|i: int| 0 <= i < ds.len() implies is_digit(#[trigger] ds[i]) by {
            if i < ds.len() - 1 {
                assert(ds[i] == dec_digits(n / 10)[i]);
            }
        }
    }
}

/// The maximal digit run of `d + rest` is exactly `d` when `rest` does not
/// begin with a digit.
pub proof fn lemma_take_digits_exact(d: Seq<char>, rest: Seq<char>)
    requires
        all_digits(d),
        rest.len() == 0 || !is_digit(rest[0]),
    ensures
        take_digits(d + rest) == (d, rest),
    decreases d.len(),
{
    if d.len() == 0 {
        assert(d + rest =~= rest);
        if rest.len() > 0 {
            assert(!is_digit((d + rest)[0]));
        }
        assert(take_digits(d + rest).0 =~= d);
    } else {
        assert(is_digit((d + rest)[0]));
        assert((d + rest).skip(1) =~= d.skip(1) + rest);
        assert(all_digits(d.skip(1)));
        lemma_take_digits_exact(d.skip(1), rest);
        let (d2, r2) = take_digits((d + rest).skip(1));
        assert(d2 == d.skip(1) && r2 == rest);
        assert(seq![(d + rest)[0]] + d.skip(1) =~= d);
    }
}

/// The canonical numeral never starts with a superfluous zero.
pub proof fn lemma_dec_digits_no_leading_zero(n: nat)
    ensures
        dec_digits(n).len() > 1 ==> dec_digits(n)[0] != '0',
    decreases n,
{
    if n >= 10 {
        lemma_dec_digits_no_leading_zero(n / 10);
        lemma_dec_digits_val(n / 10);
        let head = dec_digits(n / 10);
        assert(dec_digits(n)[0] == head[0]);
        if n / 10 < 10 {
            assert(head == seq![digit_char(n / 10)]);
            assert(n / 10 >= 1);
            lemma_digit_roundtrip(n / 10);
            assert(digit_val('0') == 0);
        } else {
            lemma_dec_digits_val(n / 10 / 10);
            assert(head.len() > 1);
        }
    }
}

/// The text after an optional leading plus sign.
pub open spec fn skip_plus(s: Seq<char>) -> Seq<char> {
    if s.len() > 0 && s[0] == '+' {
        s.skip(1)
    } else {
        s
    }
}

/// A digit run evaluates to at least the value of any of its prefixes.
pub proof fn lemma_digits_val_prefix(ds: Seq<char>, k: int)
    requires
        0 <= k <= ds.len(),
    ensures
        digits_val(ds.subrange(0, k)) <= digits_val(ds),
    decreases ds.len() - k,
{
    if k == ds.len() {
        assert(ds.subrange(0, k) =~= ds);
    } else if k == ds.len() - 1 {
        assert(ds.subrange(0, k) =~= ds.drop_last());
        assert(digits_val(ds.drop_last()) <= digits_val(ds.drop_last()) * 10 + digit_val(
            ds.last(),
        )) by (nonlinear_arith);
    } else {
        lemma_digits_val_prefix(ds, k + 1);
        let p = ds.subrange(0, k + 1);
        assert(p.drop_last() =~= ds.subrange(0, k));
        assert(digits_val(p.drop_last()) <= digits_val(p.drop_last()) * 10 + digit_val(p.last()))
            by (nonlinear_arith);
    }
}

/// Ten to the `k`.
pub open spec fn p10(k: nat) -> nat
    decreases k,
{
    if k == 0 {
        1
    } else {
        10 * p10((k - 1) as nat)
    }
}

/// A run of `k` digits is worth less than ten to the `k`.
pub proof fn lemma_digits_val_bound(ds: Seq<char>)
    requires
        all_digits(ds),
    ensures
        digits_val(ds) < p10(ds.len()),
    decreases ds.len(),
{
    if ds.len() == 0 {
    } else {
        assert(all_digits(ds.drop_last()));
        lemma_digits_val_bound(ds.drop_last());
        let h = digits_val(ds.drop_last());
        let d = digit_val(ds.last());
        assert(is_digit(ds.last()));
        assert(h * 10 + d < 10 * p10((ds.len() - 1) as nat)) by (nonlinear_arith)
            requires
                h < p10((ds.len() - 1) as nat),
                d < 10,
        ;
    }
}

/// Peels the numeral of `v` and one separator off the front of `s`.
pub proof fn lemma_peel(s: Seq<char>, v: nat, sep: char, tail: Seq<char>)
    requires
        s =~= dec_digits(v) + seq![sep] + tail,
        !is_digit(sep),
    ensures
        take_digits(s) == (dec_digits(v), seq![sep] + tail),
        digits_val(take_digits(s).0) == v,
        (seq![sep] + tail).skip(1) =~= tail,
        (seq![sep] + tail)[0] == sep,
        (seq![sep] + tail).len() == tail.len() + 1,
{
    lemma_dec_digits_val(v);
    assert(s =~= dec_digits(v) + (seq![sep] + tail));
    assert((seq![sep] + tail)[0] == sep);
    lemma_take_digits_exact(dec_digits(v), seq![sep] + tail);
    assert((seq![sep] + tail).skip(1) =~= tail);
}

/// The head and tail of a suffix of `s`.
pub proof fn lemma_skip_head(s: Seq<char>, p: int)
    requires
        0 <= p <= s.len(),
    ensures
        p < s.len() ==> s.skip(p)[0] == s[p] && s.skip(p).skip(1) =~= s.skip(p + 1),
        s.skip(p).len() == s.len() - p,
{
    if p < s.len() {
        assert(s.skip(p).skip(1) =~= s.skip(p + 1));
    }
}

/// Renders `n` in decimal; the output is the canonical numeral.
pub fn u64_to_string(n: u64) -> (r: String)
    ensures
        r@ == dec_digits(n as nat),
    decreases n,
{
    if n < 10 {
        digit_str(n as u8)
    } else {
        let mut head = u64_to_string(n / 10);
        let tail = digit_str((n % 10) as u8);
        head.append(tail.as_str());
        proof {
            assert(head@ =~= dec_digits((n / 10) as nat) + seq![digit_char((n % 10) as nat)]);
            assert(dec_digits(n as nat) =~= dec_digits((n / 10) as nat).push(
                digit_char((n % 10) as nat),
            ));
            assert(dec_digits((n / 10) as nat).push(digit_char((n % 10) as nat)) =~= dec_digits(
                (n / 10) as nat,
            ) + seq![digit_char((n % 10) as nat)]);
        }
        head
    }
}

/// One digit as a string.
pub fn digit_str(d: u8) -> (r: String)
    requires
        d < 10,
    ensures
        r@ == seq![digit_char(d as nat)],
{
    let s: &str = match d {
        0 => "0",
        1 => "1",
        2 => "2",
        3 => "3",
        4 => "4",
        5 => "5",
        6 => "6",
        7 => "7",
        8 => "8",
        _ => "9",
    };
    proof {
        reveal_strlit("0");
        reveal_strlit("1");
        reveal_strlit("2");
        reveal_strlit("3");
        reveal_strlit("4");
        reveal_strlit("5");
        reveal_strlit("6");
        reveal_strlit("7");
        reveal_strlit("8");
        reveal_strlit("9");
        assert(s@ =~= seq![digit_char(d as nat)]);
    }
    String::from_str(s)
}

/// Digit value of a character, or 10 when it is not a digit.
fn char_digit(c: char) -> (r: u8)
    ensures
        r == digit_val(c),
{
    match c {
        '0' => 0,
        '1' => 1,
        '2' => 2,
        '3' => 3,
        '4' => 4,
        '5' => 5,
        '6' => 6,
        '7' => 7,
        '8' => 8,
        '9' => 9,
        _ => 10,
    }
}

/// Reads the maximal digit run of `s` from `pos` on as a number no greater
/// than `max`.  Returns the value and the position after the run, or `None`
/// when no digit stands at `pos` or the run's value exceeds `max`.
pub fn parse_bounded_at(s: &str, pos: usize, max: u64) -> (r: Option<(u64, usize)>)
    requires
        pos <= s@.len(),
    ensures
        ({
            let (d, rest) = take_digits(s@.skip(pos as int));
            match r {
                Some((v, p2)) => {
                    &&& d.len() > 0
                    &&& digits_val(d) == v
                    &&& v <= max
                    &&& pos <= p2 <= s@.len()
                    &&& p2 == pos + d.len()
                    &&& s@.skip(p2 as int) == rest
                },
                None => d.len() == 0 || digits_val(d) > max,
            }
        }),
{
    let ghost suffix = s@.skip(pos as int);
    let len = s.unicode_len();
    let mut i = pos;
    let mut acc: u64 = 0;
    let mut any = false;
    loop
        invariant
            pos <= i <= len,
            len == s@.len(),
            suffix == s@.skip(pos as int),
            all_digits(s@.subrange(pos as int, i as int)),
            acc == digits_val(s@.subrange(pos as int, i as int)),
            acc <= max,
            any == (i > pos),
        ensures
            pos <= i <= len,
            len == s@.len(),
            all_digits(s@.subrange(pos as int, i as int)),
            acc == digits_val(s@.subrange(pos as int, i as int)),
            acc <= max,
            any == (i > pos),
            i == len || !is_digit(s@[i as int]),
        decreases len - i,
    {
        if i == len {
            break ;
        }
        let c = s.get_char(i);
        let d = char_digit(c);
        if d >= 10 {
            break ;
        }
        // acc * 10 + d must stay within max.
        if (d as u64) > max || acc > (max - d as u64) / 10 {
            // The full run is worth at least this prefix, which overflows.
            proof {
                lemma_overflow_case(s@, pos as int, i as int, acc as nat, d as nat, max as nat);
            }
            return None;
        }
        proof {
            assert(acc * 10 + d <= max) by (nonlinear_arith)
                requires
                    d as u64 <= max,
                    acc <= (max - d as u64) / 10,
            ;
            let p = s@.subrange(pos as int, i + 1);
            assert(p.drop_last() =~= s@.subrange(pos as int, i as int));
            assert(p.last() == s@[i as int]);
        }
        acc = acc * 10 + d as u64;
        i = i + 1;
        any = true;
        proof {
            assert(all_digits(s@.subrange(pos as int, i as int)));
        }
    }
    proof {
        assert(s@.subrange(pos as int, i as int) + s@.skip(i as int) =~= suffix);
        assert(i == s@.len() || !is_digit(s@[i as int]));
        if i < s@.len() {
            assert(s@.skip(i as int)[0] == s@[i as int]);
        }
        lemma_take_digits_exact(s@.subrange(pos as int, i as int), s@.skip(i as int));
    }
    if any {
        Some((acc, i))
    } else {
        None
    }
}

/// In the overflow branch of `parse_bounded_at`, the whole digit run is
/// worth more than `max`.
proof fn lemma_overflow_case(s: Seq<char>, pos: int, i: int, acc: nat, d: nat, max: nat)
    requires
        0 <= pos <= i < s.len(),
        all_digits(s.subrange(pos, i)),
        is_digit(s[i]),
        d == digit_val(s[i]),
        acc == digits_val(s.subrange(pos, i)),
        d > max || acc > (max - d) / 10,
    ensures
        take_digits(s.skip(pos)).0.len() > 0,
        digits_val(take_digits(s.skip(pos)).0) > max,
{
    let run = take_digits(s.skip(pos)).0;
    let p = s.subrange(pos, i + 1);
    assert(p.drop_last() =~= s.subrange(pos, i));
    assert(p.last() == s[i]);
    assert(digits_val(p) == acc * 10 + d);
    if d > max {
        assert(acc * 10 + d > max) by (nonlinear_arith)
            requires
                d > max,
        ;
    } else {
        assert(acc * 10 + d > max) by (nonlinear_arith)
            requires
                acc > (max - d) / 10,
                d <= max,
        ;
    }
    // p is a prefix of the maximal digit run.
    let (full, rest) = take_digits(s.skip(pos));
    lemma_take_digits_shape(s.skip(pos));
    // full is the longest all-digit prefix; p (length i + 1 - pos) is all digits.
    assert(all_digits(p));
    lemma_take_digits_longest(s.skip(pos), (i + 1 - pos) as int);
    assert(full.len() >= i + 1 - pos);
    assert(p =~= full.subrange(0, i + 1 - pos));
    lemma_digits_val_prefix(full, i + 1 - pos);
}

/// The split of `take_digits`: an all-digit prefix, the rest starts with a
/// non-digit, and gluing them back gives the input.
pub proof fn lemma_take_digits_shape(s: Seq<char>)
    ensures
        ({
            let (d, rest) = take_digits(s);
            &&& all_digits(d)
            &&& d + rest =~= s
            &&& (rest.len() == 0 || !is_digit(rest[0]))
            &&& forall|i: int| 0 <= i < d.len() ==> d[i] == s[i]
        }),
    decreases s.len(),
{
    if s.len() > 0 && is_digit(s[0]) {
        lemma_take_digits_shape(s.skip(1));
        let (d2, r2) = take_digits(s.skip(1));
        assert(d2 + r2 =~= s.skip(1));
        assert forall|j: int| 0 <= j < s.len() implies ((seq![s[0]] + d2) + r2)[j] == s[j] by {
            if j > 0 {
                assert((d2 + r2)[j - 1] == s.skip(1)[j - 1]);
            }
        }
        assert((seq![s[0]] + d2) + r2 =~= s);
    } else {
        let (d, rest) = take_digits(s);
        assert(d + rest =~= s);
    }
}

/// If the first `k` characters of `s` are digits, the maximal run is at
/// least `k` long.
proof fn lemma_take_digits_longest(s: Seq<char>, k: int)
    requires
        0 <= k <= s.len(),
        forall|j: int| 0 <= j < k ==> is_digit(#[trigger] s[j]),
    ensures
        take_digits(s).0.len() >= k,
    decreases k,
{
    if k > 0 {
        assert(is_digit(s[0]));
        lemma_take_digits_longest(s.skip(1), k - 1);
    }
}

/// Splits `s` at the first occurrence of `c`: the part before it and the
/// part after it, or `None` when `c` does not occur.
pub open spec fn split_at_char(s: Seq<char>, c: char) -> Option<(Seq<char>, Seq<char>)>
    decreases s.len(),
{
    if s.len() == 0 {
        None
    } else if s[0] == c {
        Some((Seq::empty(), s.skip(1)))
    } else {
        match split_at_char(s.skip(1), c) {
            Some((a, b)) => Some((seq![s[0]] + a, b)),
            None => None,
        }
    }
}

/// Splitting `content + [c] + rest` at `c` gives back `content` and `rest`
/// when `content` itself is free of `c`.
pub proof fn lemma_split_exact(content: Seq<char>, c: char, rest: Seq<char>)
    requires
        forall|i: int| 0 <= i < content.len() ==> #[trigger] content[i] != c,
    ensures
        split_at_char(content + seq![c] + rest, c) == Some((content, rest)),
    decreases content.len(),
{
    let s = content + seq![c] + rest;
    if content.len() == 0 {
        assert(s[0] == c);
        assert(s.skip(1) =~= rest);
        assert(split_at_char(s, c).unwrap().0 =~= content);
    } else {
        assert(s[0] == content[0]);
        assert(s[0] != c);
        assert(s.skip(1) =~= content.skip(1) + seq![c] + rest);
        lemma_split_exact(content.skip(1), c, rest);
        assert(seq![s[0]] + content.skip(1) =~= content);
    }
}

/// The two halves of a successful split: the first is free of `c` and
/// gluing `first + [c] + second` gives the input back.
pub proof fn lemma_split_shape(s: Seq<char>, c: char)
    requires
        split_at_char(s, c) is Some,
    ensures
        ({
            let (a, b) = split_at_char(s, c).unwrap();
            &&& forall|i: int| 0 <= i < a.len() ==> #[trigger] a[i] != c
            &&& a + seq![c] + b =~= s
            &&& a.len() + 1 + b.len() == s.len()
        }),
    decreases s.len(),
{
    let (a, b) = split_at_char(s, c).unwrap();
    if s[0] == c {
        assert(a + seq![c] + b =~= s);
    } else {
        lemma_split_shape(s.skip(1), c);
        let (a2, b2) = split_at_char(s.skip(1), c).unwrap();
        assert(a =~= seq![s[0]] + a2);
        assert((seq![s[0]] + a2) + seq![c] + b2 =~= seq![s[0]] + (a2 + seq![c] + b2));
        assert(seq![s[0]] + s.skip(1) =~= s);
    }
}

/// Finds the first occurrence of `c` in `s` at or after `pos`.
pub fn find_char(s: &str, pos: usize, c: char) -> (r: Option<usize>)
    requires
        pos <= s@.len(),
    ensures
        ({
            let sp = split_at_char(s@.skip(pos as int), c);
            match r {
                Some(i) => {
                    &&& pos <= i < s@.len()
                    &&& sp == Some((s@.subrange(pos as int, i as int), s@.skip(i + 1)))
                },
                None => sp is None,
            }
        }),
{
    let len = s.unicode_len();
    let mut i = pos;
    loop
        invariant
            pos <= i <= len,
            len == s@.len(),
            forall|j: int| pos <= j < i ==> s@[j] != c,
        ensures
            pos <= i <= len,
            forall|j: int| pos <= j < i ==> s@[j] != c,
            i < len ==> s@[i as int] == c,
            i == len || s@[i as int] == c,
        decreases len - i,
    {
        if i == len {
            break ;
        }
        if s.get_char(i) == c {
            break ;
        }
        i = i + 1;
    }
    if i == len {
        proof {
            lemma_split_none(s@.skip(pos as int), c);
        }
        None
    } else {
        proof {
            assert(s@.subrange(pos as int, i as int) + seq![c] + s@.skip(i + 1) =~= s@.skip(
                pos as int,
            ));
            lemma_split_exact(s@.subrange(pos as int, i as int), c, s@.skip(i + 1));
        }
        Some(i)
    }
}

/// A sequence without `c` does not split at `c`.
proof fn lemma_split_none(s: Seq<char>, c: char)
    requires
        forall|i: int| 0 <= i < s.len() ==> #[trigger] s[i] != c,
    ensures
        split_at_char(s, c) is None,
    decreases s.len(),
{
    if s.len() > 0 {
        lemma_split_none(s.skip(1), c);
    }
}

/// Character-wise string equality, decided without any outside help.
pub fn str_eq(a: &str, b: &str) -> (r: bool)
    ensures
        r == (a@ == b@),
{
    let la = a.unicode_len();
    let lb = b.unicode_len();
    if la != lb {
        return false;
    }
    let mut i: usize = 0;
    while i < la
        invariant
            0 <= i <= la,
            la == a@.len(),
            la == b@.len(),
            forall|j: int| 0 <= j < i ==> a@[j] == b@[j],
        decreases la - i,
    {
        if a.get_char(i) != b.get_char(i) {
            return false;
        }
        i = i + 1;
    }
    proof {
        assert(a@ =~= b@);
    }
    true
}

} // verus!
