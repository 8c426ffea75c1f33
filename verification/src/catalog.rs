//! The ticker catalog: what the startup tickers file means.
//!
//! The file is a list of ticker symbols, one per line.  Each line is
//! trimmed of surrounding blanks; duplicates and ordering are preserved,
//! and an empty line stays an empty symbol that simply never matches a
//! quote.  Reading the file is the process's business; this module turns
//! its text into the catalog.

use vstd::prelude::*;

use crate::stock::texts_view;
use crate::text::{find_char, lemma_skip_head, lemma_split_shape, split_at_char};

verus! {

/// The blanks a line is trimmed of: the characters of the Unicode
/// `White_Space` property, as `str::trim` strips them.
pub open spec fn is_blank(c: char) -> bool {
    ||| c == '\u{0009}'
    ||| c == '\u{000A}'
    ||| c == '\u{000B}'
    ||| c == '\u{000C}'
    ||| c == '\u{000D}'
    ||| c == ' '
    ||| c == '\u{0085}'
    ||| c == '\u{00A0}'
    ||| c == '\u{1680}'
    ||| c == '\u{2000}'
    ||| c == '\u{2001}'
    ||| c == '\u{2002}'
    ||| c == '\u{2003}'
    ||| c == '\u{2004}'
    ||| c == '\u{2005}'
    ||| c == '\u{2006}'
    ||| c == '\u{2007}'
    ||| c == '\u{2008}'
    ||| c == '\u{2009}'
    ||| c == '\u{200A}'
    ||| c == '\u{2028}'
    ||| c == '\u{2029}'
    ||| c == '\u{202F}'
    ||| c == '\u{205F}'
    ||| c == '\u{3000}'
}

/// The lines of a text, `'\n'` read as a terminator: no phantom line
/// follows a final newline.
pub open spec fn split_lines(s: Seq<char>) -> Seq<Seq<char>>
    decreases s.len(),
    via split_lines_dec
{
    match split_at_char(s, '\n') {
        None => if s.len() == 0 {
            Seq::empty()
        } else {
            seq![s]
        },
        Some((a, b)) => seq![a] + split_lines(b),
    }
}

#[via_fn]
proof fn split_lines_dec(s: Seq<char>) {
    if split_at_char(s, '\n') is Some {
        lemma_split_shape(s, '\n');
    }
}

/// A line with its leading blanks dropped.
pub open spec fn trim_front(s: Seq<char>) -> Seq<char>
    decreases s.len(),
{
    if s.len() > 0 && is_blank(s[0]) {
        trim_front(s.skip(1))
    } else {
        s
    }
}

/// A line with its trailing blanks dropped.
pub open spec fn trim_back(s: Seq<char>) -> Seq<char>
    decreases s.len(),
{
    if s.len() > 0 && is_blank(s.last()) {
        trim_back(s.drop_last())
    } else {
        s
    }
}

/// A line trimmed on both sides.
pub open spec fn trimmed(s: Seq<char>) -> Seq<char> {
    trim_back(trim_front(s))
}

/// The catalog a text names: its lines, each trimmed.
pub open spec fn catalog_view(s: Seq<char>) -> Seq<Seq<char>> {
    split_lines(s).map_values(|l: Seq<char>| trimmed(l))
}

/// Dropping leading blanks keeps exactly the suffix from the first
/// non-blank character.
proof fn lemma_trim_front_exact(s: Seq<char>, k: int)
    requires
        0 <= k <= s.len(),
        forall|j: int| 0 <= j < k ==> is_blank(#[trigger] s[j]),
        k == s.len() || !is_blank(s[k]),
    ensures
        trim_front(s) == s.skip(k),
    decreases k,
{
    if k == 0 {
        assert(s.skip(0) =~= s);
    } else {
        assert(is_blank(s[0]));
        lemma_skip_head(s, 1);
        assert(s.skip(1).len() == s.len() - 1);
        assert(forall|j: int| 0 <= j < k - 1 ==> is_blank(#[trigger] s.skip(1)[j]));
        if k - 1 < s.skip(1).len() {
            assert(s.skip(1)[k - 1] == s[k]);
        }
        lemma_trim_front_exact(s.skip(1), k - 1);
        assert(s.skip(1).skip(k - 1) =~= s.skip(k));
    }
}

/// Dropping trailing blanks keeps exactly the prefix up to the last
/// non-blank character.
proof fn lemma_trim_back_exact(s: Seq<char>, m: int)
    requires
        0 <= m <= s.len(),
        forall|j: int| m <= j < s.len() ==> is_blank(#[trigger] s[j]),
        m == 0 || !is_blank(s[m - 1]),
    ensures
        trim_back(s) == s.subrange(0, m),
    decreases s.len() - m,
{
    if m == s.len() {
        if s.len() > 0 {
            assert(!is_blank(s.last()));
        }
        assert(s.subrange(0, m) =~= s);
    } else {
        assert(is_blank(s.last()));
        assert(forall|j: int| m <= j < s.drop_last().len() ==> is_blank(#[trigger] s.drop_last()[j]));
        if m > 0 {
            assert(s.drop_last()[m - 1] == s[m - 1]);
        }
        lemma_trim_back_exact(s.drop_last(), m);
        assert(s.drop_last().subrange(0, m) =~= s.subrange(0, m));
    }
}

/// One line of `s`, trimmed: the characters of `[lo, hi)` with blanks
/// dropped on both sides.
fn trim_line(s: &str, lo: usize, hi: usize) -> (r: String)
    requires
        lo <= hi <= s@.len(),
    ensures
        r@ == trimmed(s@.subrange(lo as int, hi as int)),
{
    let ghost line = s@.subrange(lo as int, hi as int);
    let mut a = lo;
    while a < hi && is_blank_char(s.get_char(a))
        invariant
            lo <= a <= hi,
            hi <= s@.len(),
            forall|j: int| lo <= j < a ==> is_blank(#[trigger] s@[j]),
        decreases hi - a,
    {
        a = a + 1;
    }
    proof {
        assert(forall|j: int| 0 <= j < a - lo ==> is_blank(#[trigger] line[j]));
        if a < hi {
            assert(line[a - lo] == s@[a as int]);
        }
        lemma_trim_front_exact(line, a - lo);
        assert(line.skip(a - lo) =~= s@.subrange(a as int, hi as int));
    }
    let ghost fronted = s@.subrange(a as int, hi as int);
    let mut b = hi;
    while b > a && is_blank_char(s.get_char(b - 1))
        invariant
            a <= b <= hi,
            hi <= s@.len(),
            forall|j: int| b <= j < hi ==> is_blank(#[trigger] s@[j]),
        decreases b - a,
    {
        b = b - 1;
    }
    proof {
        assert(forall|j: int| b - a <= j < fronted.len() ==> is_blank(#[trigger] fronted[j]));
        if b > a {
            assert(fronted[b - a - 1] == s@[b - 1]);
        }
        lemma_trim_back_exact(fronted, b - a);
        assert(fronted.subrange(0, b - a) =~= s@.subrange(a as int, b as int));
    }
    s.substring_char(a, b).to_owned()
}

/// Whether this character is a blank to trim.
fn is_blank_char(c: char) -> (r: bool)
    ensures
        r == is_blank(c),
{
    c == '\u{0009}' || c == '\u{000A}' || c == '\u{000B}' || c == '\u{000C}' || c == '\u{000D}'
        || c == ' ' || c == '\u{0085}' || c == '\u{00A0}' || c == '\u{1680}' || c == '\u{2000}'
        || c == '\u{2001}' || c == '\u{2002}' || c == '\u{2003}' || c == '\u{2004}'
        || c == '\u{2005}' || c == '\u{2006}' || c == '\u{2007}' || c == '\u{2008}'
        || c == '\u{2009}' || c == '\u{200A}' || c == '\u{2028}' || c == '\u{2029}'
        || c == '\u{202F}' || c == '\u{205F}' || c == '\u{3000}'
}

/// Reads a tickers text into the catalog: one symbol per trimmed line,
/// duplicates and ordering preserved.
pub fn parse_ticker_lines(s: &str) -> (r: Vec<String>)
    ensures
        texts_view(r@) == catalog_view(s@),
{
    let len = s.unicode_len();
    let mut out: Vec<String> = Vec::new();
    let mut pos: usize = 0;
    proof {
        assert(s@.skip(0) =~= s@);
        assert(texts_view(out@) =~= Seq::<Seq<char>>::empty());
        assert(catalog_view(s@) =~= texts_view(out@) + catalog_view(s@.skip(0)));
    }
    loop
        invariant
            0 <= pos <= len,
            len == s@.len(),
            catalog_view(s@) == texts_view(out@) + catalog_view(s@.skip(pos as int)),
        ensures
            pos == len,
            catalog_view(s@) == texts_view(out@) + catalog_view(s@.skip(pos as int)),
        decreases len - pos,
    {
        if pos == len {
            break ;
        }
        let ghost rest = s@.skip(pos as int);
        let ghost out0 = texts_view(out@);
        match find_char(s, pos, '\n') {
            Some(i) => {
                let line = trim_line(s, pos, i);
                out.push(line);
                proof {
                    let (a, b) = split_at_char(rest, '\n').unwrap();
                    assert(a == s@.subrange(pos as int, i as int));
                    assert(b == s@.skip(i + 1));
                    assert(split_lines(rest) =~= seq![a] + split_lines(b));
                    assert(catalog_view(rest) =~= seq![trimmed(a)] + catalog_view(b));
                    assert(texts_view(out@) =~= out0.push(trimmed(a)));
                    assert(texts_view(out@) + catalog_view(b) =~= out0 + catalog_view(rest));
                }
                pos = i + 1;
            },
            None => {
                let line = trim_line(s, pos, len);
                out.push(line);
                proof {
                    assert(rest =~= s@.subrange(pos as int, len as int));
                    assert(rest.len() > 0);
                    assert(split_lines(rest) =~= seq![rest]);
                    assert(catalog_view(rest) =~= seq![trimmed(rest)]);
                    assert(texts_view(out@) =~= out0.push(trimmed(rest)));
                    assert(s@.skip(len as int) =~= Seq::<char>::empty());
                    assert(catalog_view(s@.skip(len as int)) =~= Seq::<Seq<char>>::empty());
                    assert(texts_view(out@) + catalog_view(s@.skip(len as int)) =~= out0
                        + catalog_view(rest));
                }
                pos = len;
            },
        }
    }
    proof {
        assert(s@.skip(len as int) =~= Seq::<char>::empty());
        assert(catalog_view(s@.skip(len as int)) =~= Seq::<Seq<char>>::empty());
        assert(texts_view(out@) =~= texts_view(out@) + catalog_view(s@.skip(len as int)));
    }
    out
}

} // verus!
