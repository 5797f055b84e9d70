//! Text forms: decimal numerals, lowercase hex, and the trailing-zero test.

use vstd::prelude::*;
use vstd::string::*;
use vstd::utf8::*;

verus! {

/// The character for the digit `d`: `0` to `9`, then `a` to `f`.
pub open spec fn digit_char(d: int) -> char {
    if d == 0 {
        '0'
    } else if d == 1 {
        '1'
    } else if d == 2 {
        '2'
    } else if d == 3 {
        '3'
    } else if d == 4 {
        '4'
    } else if d == 5 {
        '5'
    } else if d == 6 {
        '6'
    } else if d == 7 {
        '7'
    } else if d == 8 {
        '8'
    } else if d == 9 {
        '9'
    } else if d == 10 {
        'a'
    } else if d == 11 {
        'b'
    } else if d == 12 {
        'c'
    } else if d == 13 {
        'd'
    } else if d == 14 {
        'e'
    } else {
        'f'
    }
}

/// The decimal numeral of `n`, most significant digit first, without leading
/// zeros (`0` is written "0").
pub open spec fn decimal_text(n: nat) -> Seq<char>
    decreases n,
{
    if n < 10 {
        seq![digit_char(n as int)]
    } else {
        decimal_text(n / 10).push(digit_char((n % 10) as int))
    }
}

/// One-character string for a digit below 16.
pub fn digit_str(d: u8) -> (s: &'static str)
    requires
        d < 16,
    ensures
        s@ == seq![digit_char(d as int)],
        s.is_ascii(),
{
    proof {
        reveal_strlit("0");
        reveal_strlit("1");
        reveal_strlit("2");
        reveal_strlit("3");
        reveal_strlit("4");
        reveal_strlit("5");
        reveal_strlit("6");
        reveal_strlit("7");
        reveal_strlit("8");
        reveal_strlit("9");
        reveal_strlit("a");
        reveal_strlit("b");
        reveal_strlit("c");
        reveal_strlit("d");
        reveal_strlit("e");
        reveal_strlit("f");
    }
    let s = if d == 0 {
        "0"
    } else if d == 1 {
        "1"
    } else if d == 2 {
        "2"
    } else if d == 3 {
        "3"
    } else if d == 4 {
        "4"
    } else if d == 5 {
        "5"
    } else if d == 6 {
        "6"
    } else if d == 7 {
        "7"
    } else if d == 8 {
        "8"
    } else if d == 9 {
        "9"
    } else if d == 10 {
        "a"
    } else if d == 11 {
        "b"
    } else if d == 12 {
        "c"
    } else if d == 13 {
        "d"
    } else if d == 14 {
        "e"
    } else {
        "f"
    };
    assert(s@ =~= seq![digit_char(d as int)]);
    s
}

/// Appends the decimal numeral of `n` to `out`.
pub fn push_decimal(out: &mut String, n: u64)
    ensures
        final(out)@ == old(out)@ + decimal_text(n as nat),
        old(out).is_ascii() ==> final(out).is_ascii(),
    decreases n,
{
    if n >= 10 {
        push_decimal(out, n / 10);
    }
    let ghost before = out@;
    let digit = digit_str((n % 10) as u8);
    out.append(digit);
    proof {
        is_ascii_chars_concat(out@, before, digit@);
        if n >= 10 {
            assert(decimal_text(n as nat) == decimal_text((n / 10) as nat) + digit@);
        }
    }
}

/// The decimal numeral of `n` as a string.
pub fn decimal_string(n: u64) -> (s: String)
    ensures
        s@ == decimal_text(n as nat),
        s.is_ascii(),
{
    let mut s = String::new();
    push_decimal(&mut s, n);
    s
}

/// The hex digit at position `i` of the lowercase hex form of `bytes`: the
/// high half of byte `i / 2` where `i` is even, its low half where `i` is odd.
pub open spec fn hex_digit_at(bytes: Seq<u8>, i: int) -> int {
    if i % 2 == 0 {
        bytes[i / 2] as int / 16
    } else {
        bytes[i / 2] as int % 16
    }
}

/// The lowercase hex form of `bytes`: two characters per byte, high half
/// first.
pub open spec fn hex_lower(bytes: Seq<u8>) -> Seq<char> {
    Seq::new(2 * bytes.len(), |i: int| digit_char(hex_digit_at(bytes, i)))
}

/// `text` ends with `zeros` characters `'0'`.
pub open spec fn ends_with_zeros(text: Seq<char>, zeros: nat) -> bool {
    &&& zeros <= text.len()
    &&& forall|i: int| text.len() - zeros <= i < text.len() ==> text[i] == '0'
}

/// The lowercase hex form of `bytes` as a string.
pub fn hex_string(bytes: &[u8]) -> (s: String)
    ensures
        s@ == hex_lower(bytes@),
{
    let mut s = String::new();
    let mut i: usize = 0;
    while i < bytes.len()
        invariant
            i <= bytes.len(),
            s@ == hex_lower(bytes@.take(i as int)),
        decreases bytes.len() - i,
    {
        let b = bytes[i];
        let ghost before = s@;
        s.append(digit_str(b / 16));
        s.append(digit_str(b % 16));
        proof {
            let shorter = bytes@.take(i as int);
            let longer = bytes@.take(i + 1);
            assert forall|k: int| 0 <= k < 2 * i implies hex_digit_at(longer, k) == hex_digit_at(
                shorter,
                k,
            ) by {
                assert(longer[k / 2] == shorter[k / 2]);
            }
            assert(hex_digit_at(longer, 2 * i) == b as int / 16);
            assert(hex_digit_at(longer, 2 * i + 1) == b as int % 16);
            assert(s@ =~= hex_lower(longer));
        }
        i += 1;
    }
    assert(bytes@.take(i as int) =~= bytes@);
    s
}

/// Whether the lowercase hex form of `bytes` ends with `zeros` characters
/// `'0'`, read off the bytes without writing the text.
pub fn has_trailing_zeros(bytes: &[u8], zeros: usize) -> (r: bool)
    ensures
        r == ends_with_zeros(hex_lower(bytes@), zeros as nat),
{
    let len = bytes.len();
    if zeros / 2 > len || (zeros / 2 == len && zeros % 2 == 1) {
        return false;
    }
    let ghost text = hex_lower(bytes@);
    let mut seen: usize = 0;
    while seen < zeros
        invariant
            seen <= zeros <= 2 * len,
            len == bytes@.len(),
            text == hex_lower(bytes@),
            forall|i: int| text.len() - seen <= i < text.len() ==> text[i] == '0',
        decreases zeros - seen,
    {
        let b = bytes[len - 1 - seen / 2];
        let digit = if seen % 2 == 0 {
            b % 16
        } else {
            b / 16
        };
        proof {
            let at = 2 * len - 1 - seen;
            assert(at / 2 == len - 1 - seen / 2);
            assert(hex_digit_at(bytes@, at) == digit);
            assert(text[at] == digit_char(digit as int));
        }
        if digit != 0 {
            return false;
        }
        seen += 1;
    }
    true
}

/// The line that reports a match: the candidate in decimal, a comma and a
/// space, then the digest between double quotes.
pub open spec fn line_text(candidate: nat, digest: Seq<char>) -> Seq<char> {
    decimal_text(candidate) + seq![',', ' ', '"'] + digest + seq!['"']
}

/// Writes the line that reports a match.
pub fn render_line(candidate: u64, digest: &str) -> (line: String)
    ensures
        line@ == line_text(candidate as nat, digest@),
{
    let mut line = decimal_string(candidate);
    proof {
        reveal_strlit(", \"");
        reveal_strlit("\"");
    }
    line.append(", \"");
    assert(", \""@ =~= seq![',', ' ', '"']);
    line.append(digest);
    line.append("\"");
    assert("\""@ =~= seq!['"']);
    line
}

} // verus!
