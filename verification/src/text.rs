//! Unsigned numbers read from and written as text; padded labels.
use vstd::prelude::*;

verus! {

pub open spec fn is_ascii_digit(c: char) -> bool {
    '0' <= c && c <= '9'
}

/// The number written by the decimal digits `d` (most significant first).
pub open spec fn digits_value(d: Seq<char>) -> int
    decreases d.len(),
{
    if d.len() == 0 {
        0
    } else {
        digits_value(d.drop_last()) * 10 + (d.last() as int - '0' as int)
    }
}

/// Every character is an ASCII digit.
pub open spec fn all_digits(d: Seq<char>) -> bool {
    forall|i: int| 0 <= i < d.len() ==> is_ascii_digit(#[trigger] d[i])
}

/// The value of one or more ASCII digits and nothing else.
pub open spec fn digits_only_value(d: Seq<char>) -> Option<int> {
    if d.len() > 0 && all_digits(d) {
        Some(digits_value(d))
    } else {
        None
    }
}

/// The value of an unsigned integer literal as `str::parse` reads it: an
/// optional `+`, then one or more ASCII digits and nothing else.
pub open spec fn unsigned_text_value(s: Seq<char>) -> Option<int> {
    if s.len() > 0 && s[0] == '+' {
        digits_only_value(s.drop_first())
    } else {
        digits_only_value(s)
    }
}

/// What `str::parse` gives for an unsigned type whose largest value is `max`.
pub open spec fn parse_unsigned(s: Seq<char>, max: int) -> Option<int> {
    match unsigned_text_value(s) {
        Some(v) => if 0 <= v <= max {
            Some(v)
        } else {
            None
        },
        None => None,
    }
}

/// A longer run of digits is worth at least as much as its beginning.
proof fn lemma_digits_value_grows(d: Seq<char>, j: int)
    requires
        all_digits(d),
        0 <= j <= d.len(),
    ensures
        0 <= digits_value(d.take(j)) <= digits_value(d),
    decreases d.len(),
{
    if d.len() > 0 {
        let front = d.drop_last();
        assert(all_digits(front)) by {
            assert forall|i: int| 0 <= i < front.len() implies is_ascii_digit(#[trigger] front[i]) by {
                assert(front[i] == d[i]);
            }
        }
        assert(is_ascii_digit(d[d.len() - 1]));
        if j == d.len() {
            assert(d.take(j) =~= d);
            lemma_digits_value_grows(front, front.len() as int);
            assert(front.take(front.len() as int) =~= front);
        } else {
            lemma_digits_value_grows(front, j);
            assert(front.take(j) =~= d.take(j));
            lemma_digits_value_grows(front, front.len() as int);
            assert(front.take(front.len() as int) =~= front);
        }
    }
}

/// The characters of `s`, in order.
fn chars_vec(s: &str) -> (v: Vec<char>)
    ensures
        v@ == s@,
{
    let mut v: Vec<char> = Vec::new();
    for c in it: s.chars()
        invariant
            it.seq() == s@,
            v@ == it.seq().take(it.index() as int),
    {
        proof {
            assert(it.seq().take(it.index() + 1) =~= it.seq().take(it.index() as int).push(c));
        }
        v.push(c);
    }
    proof {
        assert(s@.take(s@.len() as int) =~= s@);
    }
    v
}

/// Reads an unsigned decimal number as `str::parse` does for an unsigned
/// type whose largest value is `max`: an optional `+`, then one or more
/// ASCII digits and nothing else, within `0..=max`.
fn parse_decimal(s: &str, max: u64) -> (r: Option<u64>)
    ensures
        match parse_unsigned(s@, max as int) {
            Some(v) => r == Some(v as u64),
            None => r is None,
        },
{
    let v = chars_vec(s);
    let start: usize = if v.len() > 0 && v[0] == '+' { 1 } else { 0 };
    let ghost d = if start == 1 { s@.drop_first() } else { s@ };
    proof {
        assert(d =~= s@.skip(start as int));
        assert(unsigned_text_value(s@) == digits_only_value(d));
    }
    if start == v.len() {
        return None;
    }
    let mut value: u64 = 0;
    let mut i: usize = start;
    while i < v.len()
        invariant
            start <= i <= v@.len(),
            v@ == s@,
            d == s@.skip(start as int),
            unsigned_text_value(s@) == digits_only_value(d),
            all_digits(d.take(i - start)),
            value as int == digits_value(d.take(i - start)),
            value <= max,
        decreases v@.len() - i,
    {
        let c = v[i];
        let k = i - start;
        proof {
            assert(d[k as int] == c);
        }
        if !('0' <= c && c <= '9') {
            proof {
                assert(!all_digits(d));
            }
            return None;
        }
        let next: u128 = value as u128 * 10 + (c as u32 - '0' as u32) as u128;
        proof {
            assert(d.take(k + 1).drop_last() =~= d.take(k as int));
            assert(d.take(k + 1).last() == c);
            assert(next == digits_value(d.take(k + 1)));
            assert(all_digits(d.take(k + 1))) by {
                assert forall|q: int| 0 <= q < k + 1 implies is_ascii_digit(#[trigger] d.take(k + 1)[q]) by {
                    if q < k {
                        assert(d.take(k + 1)[q] == d.take(k as int)[q]);
                    }
                }
            }
        }
        if next > max as u128 {
            proof {
                if all_digits(d) {
                    lemma_digits_value_grows(d, k + 1);
                }
            }
            return None;
        }
        value = next as u64;
        i += 1;
    }
    proof {
        assert(d.take(d.len() as int) =~= d);
    }
    Some(value)
}

/// `str::parse::<u32>`: an optional `+` followed by ASCII digits only,
/// within `u32`'s range; anything else is an error.
pub(crate) fn parse_u32(s: &str) -> (r: Option<u32>)
    ensures
        match parse_unsigned(s@, u32::MAX as int) {
            Some(v) => r == Some(v as u32),
            None => r is None,
        },
{
    match parse_decimal(s, u32::MAX as u64) {
        Some(v) => Some(v as u32),
        None => None,
    }
}

/// `str::parse::<u64>`: an optional `+` followed by ASCII digits only,
/// within `u64`'s range; anything else is an error.
pub(crate) fn parse_u64(s: &str) -> (r: Option<u64>)
    ensures
        match parse_unsigned(s@, u64::MAX as int) {
            Some(v) => r == Some(v as u64),
            None => r is None,
        },
{
    parse_decimal(s, u64::MAX)
}

/// `str::parse::<usize>`: an optional `+` followed by ASCII digits only,
/// within `usize`'s range; anything else is an error.
pub(crate) fn parse_usize(s: &str) -> (r: Option<usize>)
    ensures
        match parse_unsigned(s@, usize::MAX as int) {
            Some(v) => r == Some(v as usize),
            None => r is None,
        },
{
    match parse_decimal(s, usize::MAX as u64) {
        Some(v) => Some(v as usize),
        None => None,
    }
}

/// `s` and `lit` hold the same text.
pub fn is_text(s: &String, lit: &str) -> (r: bool)
    ensures
        r == (s@ == lit@),
{
    let t = String::from_str(lit);
    *s == t
}

/// `s` begins with a hyphen.
pub fn starts_with_hyphen(s: &String) -> (r: bool)
    ensures
        r == (s@.len() > 0 && s@[0] == '-'),
{
    let t = s.as_str();
    if t.is_empty() {
        false
    } else {
        t.get_char(0) == '-'
    }
}

/// `prefix` followed by `s`.
pub fn joined(prefix: &str, s: &str) -> (r: String)
    ensures
        r@ == prefix@ + s@,
{
    let mut r = String::from_str(prefix);
    r.append(s);
    r
}


/// The digits `0`-`9` then `a`-`f`.
pub const DIGITS: &'static str = "0123456789abcdef";

/// The decimal digits of `n`, most significant first, without leading zeros.
pub open spec fn decimal(n: nat) -> Seq<char>
    decreases n,
{
    if n < 10 {
        seq![DIGITS@[n as int]]
    } else {
        decimal(n / 10) + seq![DIGITS@[(n % 10) as int]]
    }
}

/// The lower-case hexadecimal digits of `n`, most significant first, without
/// leading zeros.
pub open spec fn hex_lower(n: nat) -> Seq<char>
    decreases n,
{
    if n < 16 {
        seq![DIGITS@[n as int]]
    } else {
        hex_lower(n / 16) + seq![DIGITS@[(n % 16) as int]]
    }
}

fn digit(d: u64) -> (r: &'static str)
    requires
        d < 16,
    ensures
        r@ == seq![DIGITS@[d as int]],
{
    proof {
        reveal_strlit("0123456789abcdef");
    }
    DIGITS.substring_char(d as usize, d as usize + 1)
}

/// `n` in decimal.
pub fn decimal_text(n: u64) -> (r: String)
    ensures
        r@ == decimal(n as nat),
    decreases n,
{
    if n < 10 {
        String::from_str(digit(n))
    } else {
        let mut r = decimal_text(n / 10);
        r.append(digit(n % 10));
        r
    }
}

/// `n` in lower-case hexadecimal.
pub fn hex_text(n: u64) -> (r: String)
    ensures
        r@ == hex_lower(n as nat),
    decreases n,
{
    if n < 16 {
        String::from_str(digit(n))
    } else {
        let mut r = hex_text(n / 16);
        r.append(digit(n % 16));
        r
    }
}

/// `s` followed by spaces up to `width` characters; longer text is kept whole.
pub open spec fn pad_right(s: Seq<char>, width: nat) -> Seq<char> {
    if s.len() < width {
        s + Seq::new((width - s.len()) as nat, |i: int| ' ')
    } else {
        s
    }
}

pub fn padded(s: &str, width: usize) -> (r: String)
    ensures
        r@ == pad_right(s@, width as nat),
{
    proof {
        reveal_strlit(" ");
    }
    let mut r = String::from_str(s);
    let mut len = s.unicode_len();
    while len < width
        invariant
            s@.len() <= len <= width || (len == s@.len() && len >= width),
            r@ == s@ + Seq::new((len - s@.len()) as nat, |i: int| ' '),
            " "@ == seq![' '],
        decreases width - len,
    {
        r.append(" ");
        len += 1;
        proof {
            assert(r@ =~= s@ + Seq::new((len - s@.len()) as nat, |i: int| ' '));
        }
    }
    proof {
        if s@.len() >= width {
            assert(r@ =~= s@);
        }
    }
    r
}

/// A control code (Unicode general category Cc): C0 controls, DEL and C1
/// controls. This is what `char::is_control` tests.
pub open spec fn is_control(c: char) -> bool {
    c <= '\u{1F}' || ('\u{7F}' <= c && c <= '\u{9F}')
}

/// The text with every control code replaced by U+FFFD, so that it cannot
/// move the cursor or change colours on a terminal.
pub open spec fn sanitized(s: Seq<char>) -> Seq<char> {
    s.map_values(|c: char| if is_control(c) { '\u{FFFD}' } else { c })
}

/// `String::push`: appends one character.
#[verifier::external_body]
fn push_char(s: &mut String, c: char)
    ensures
        final(s)@ == old(s)@.push(c),
{
    s.push(c);
}

pub fn safe_text(text: &str) -> (r: String)
    ensures
        r@ == sanitized(text@),
{
    let mut r = String::new();
    for c in it: text.chars()
        invariant
            it.seq() == text@,
            r@ == sanitized(it.seq().take(it.index() as int)),
    {
        let shown = if c <= '\u{1F}' || ('\u{7F}' <= c && c <= '\u{9F}') {
            '\u{FFFD}'
        } else {
            c
        };
        push_char(&mut r, shown);
        proof {
            let k = it.index() as int;
            assert(it.seq().take(k + 1) =~= it.seq().take(k).push(c));
            assert(sanitized(it.seq().take(k + 1)) =~= sanitized(it.seq().take(k)).push(shown));
        }
    }
    proof {
        assert(text@.take(text@.len() as int) =~= text@);
    }
    r
}

} // verus!
