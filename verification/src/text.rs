//! Text helpers: the number formats used in display names, the order of
//! strings, and decimal parsing.

use vstd::prelude::*;
use vstd::std_specs::iter::IteratorSpec;
use vstd::string::StringExecFns;

verus! {

/// The character of one digit below sixteen, lower case.
pub open spec fn digit_char(d: int) -> char {
    if d == 0 {
        '0'
    } else if d == 1 {
        '1'
    } else if d == 2 {
        '2'
    } else if d == 3 {
        '3'
    } else if d == 4 {
        '4'
    } else if d == 5 {
        '5'
    } else if d == 6 {
        '6'
    } else if d == 7 {
        '7'
    } else if d == 8 {
        '8'
    } else if d == 9 {
        '9'
    } else if d == 10 {
        'a'
    } else if d == 11 {
        'b'
    } else if d == 12 {
        'c'
    } else if d == 13 {
        'd'
    } else if d == 14 {
        'e'
    } else {
        'f'
    }
}

/// The decimal digits of `n`, most significant first, without leading
/// zeros (a single `0` for zero).
pub open spec fn decimal_digits(n: nat) -> Seq<char>
    decreases n,
{
    if n < 10 {
        seq![digit_char(n as int)]
    } else {
        decimal_digits(n / 10).push(digit_char((n % 10) as int))
    }
}

/// The lower-case hexadecimal digits of `n`, most significant first,
/// without leading zeros (a single `0` for zero).
pub open spec fn hex_digits(n: nat) -> Seq<char>
    decreases n,
{
    if n < 16 {
        seq![digit_char(n as int)]
    } else {
        hex_digits(n / 16).push(digit_char((n % 16) as int))
    }
}

/// Decimal text of an integer, with a leading `-` for a negative one.
pub open spec fn decimal_text(n: int) -> Seq<char> {
    if n < 0 {
        seq!['-'] + decimal_digits((-n) as nat)
    } else {
        decimal_digits(n as nat)
    }
}

/// Lower-case hexadecimal text of a 64-bit integer, a negative one shown
/// by its two's complement bit pattern.
pub open spec fn hex_text(n: i64) -> Seq<char> {
    if n < 0 {
        hex_digits((n + 0x1_0000_0000_0000_0000) as nat)
    } else {
        hex_digits(n as nat)
    }
}

/// Whether `a` comes strictly before `b` in the order of strings:
/// character by character by code point, a proper prefix first.
pub open spec fn text_lt(a: Seq<char>, b: Seq<char>) -> bool
    decreases a.len(),
{
    if b.len() == 0 {
        false
    } else if a.len() == 0 {
        true
    } else if a[0] != b[0] {
        (a[0] as u32) < (b[0] as u32)
    } else {
        text_lt(a.skip(1), b.skip(1))
    }
}

/// The value of a run of decimal digits, most significant first.
pub open spec fn digits_value(s: Seq<char>) -> int
    decreases s.len(),
{
    if s.len() == 0 {
        0
    } else {
        digits_value(s.drop_last()) * 10 + (s.last() as int - 48)
    }
}

/// Whether every character is one of `0` to `9`.
pub open spec fn all_decimal_digits(s: Seq<char>) -> bool {
    forall|i: int| 0 <= i < s.len() ==> '0' <= #[trigger] s[i] <= '9'
}

/// The 64-bit integer that a text denotes: an optional sign, then at least
/// one decimal digit, the value within the range of `i64`.
pub open spec fn parsed_i64(s: Seq<char>) -> Option<i64> {
    let negative = s.len() > 0 && s[0] == '-';
    let signed = s.len() > 0 && (s[0] == '-' || s[0] == '+');
    let body = if signed {
        s.skip(1)
    } else {
        s
    };
    let value = if negative {
        -digits_value(body)
    } else {
        digits_value(body)
    };
    if body.len() > 0 && all_decimal_digits(body) && i64::MIN <= value <= i64::MAX {
        Some(value as i64)
    } else {
        None
    }
}

/// Whether two strings hold the same characters: they do exactly when
/// they hold the same bytes.
pub(crate) fn str_eq(a: &str, b: &str) -> (r: bool)
    ensures
        r == (a@ == b@),
{
    let x = a.as_bytes();
    let y = b.as_bytes();
    proof {
        vstd::utf8::encode_utf8_decode_utf8(a@);
        vstd::utf8::encode_utf8_decode_utf8(b@);
    }
    if x.len() != y.len() {
        return false;
    }
    let mut i: usize = 0;
    while i < x.len()
        invariant
            i <= x.len(),
            x.len() == y.len(),
            x@ == vstd::utf8::encode_utf8(a@),
            y@ == vstd::utf8::encode_utf8(b@),
            forall|j: int| 0 <= j < i ==> x@[j] == y@[j],
        decreases x.len() - i,
    {
        if x[i] != y[i] {
            return false;
        }
        i = i + 1;
    }
    assert(x@ =~= y@);
    true
}

/// Whether `a` comes strictly before `b` in the order of strings, which is
/// the order in which std compares them: character by character by code
/// point, a proper prefix first.
pub(crate) fn str_lt(a: &str, b: &str) -> (r: bool)
    ensures
        r == text_lt(a@, b@),
{
    broadcast use vstd::string::group_string_axioms;

    let mut x = a.chars();
    let mut y = b.chars();
    loop
        invariant
            x.obeys_prophetic_iter_laws(),
            y.obeys_prophetic_iter_laws(),
            x.decrease() is Some,
            text_lt(a@, b@) == text_lt(x.remaining(), y.remaining()),
        decreases x.decrease()->0,
    {
        proof {
            assert forall|s: Seq<char>| s.len() > 0 implies #[trigger] s.drop_first() == s.skip(
                1,
            ) by {
                assert(s.drop_first() =~= s.skip(1));
            }
        }
        let d = y.next();
        let c = x.next();
        match d {
            None => {
                return false;
            },
            Some(d) => match c {
                None => {
                    return true;
                },
                Some(c) => {
                    if c != d {
                        return (c as u32) < (d as u32);
                    }
                },
            },
        }
    }
}

/// The characters of digits given least significant first, most
/// significant first.
pub open spec fn backwards(low: Seq<u8>) -> Seq<char> {
    Seq::new(low.len(), |k: int| digit_char(low[low.len() - 1 - k] as int))
}

/// The digits of a number, to the base 16 or to the base 10.
pub open spec fn digits_of(n: nat, hex: bool) -> Seq<char> {
    if hex {
        hex_digits(n)
    } else {
        decimal_digits(n)
    }
}

/// The text of one digit below sixteen.
fn digit_text(d: u8) -> (r: &'static str)
    requires
        d < 16,
    ensures
        r@ == seq![digit_char(d as int)],
{
    proof {
        reveal_strlit("0");
        reveal_strlit("1");
        reveal_strlit("2");
        reveal_strlit("3");
        reveal_strlit("4");
        reveal_strlit("5");
        reveal_strlit("6");
        reveal_strlit("7");
        reveal_strlit("8");
        reveal_strlit("9");
        reveal_strlit("a");
        reveal_strlit("b");
        reveal_strlit("c");
        reveal_strlit("d");
        reveal_strlit("e");
        reveal_strlit("f");
    }
    let text = if d == 0 {
        "0"
    } else if d == 1 {
        "1"
    } else if d == 2 {
        "2"
    } else if d == 3 {
        "3"
    } else if d == 4 {
        "4"
    } else if d == 5 {
        "5"
    } else if d == 6 {
        "6"
    } else if d == 7 {
        "7"
    } else if d == 8 {
        "8"
    } else if d == 9 {
        "9"
    } else if d == 10 {
        "a"
    } else if d == 11 {
        "b"
    } else if d == 12 {
        "c"
    } else if d == 13 {
        "d"
    } else if d == 14 {
        "e"
    } else {
        "f"
    };
    assert(text@ =~= seq![digit_char(d as int)]);
    text
}

/// The digits of a number as text, to the base 16 or to the base 10.
fn digits_string(n: u128, hex: bool) -> (r: String)
    ensures
        r@ == digits_of(n as nat, hex),
{
    let mut low: Vec<u8> = Vec::new();
    let mut rest = n;
    assert(backwards(low@) =~= Seq::empty());
    while (hex && rest >= 16) || (!hex && rest >= 10)
        invariant
            digits_of(n as nat, hex) =~= digits_of(rest as nat, hex) + backwards(low@),
            forall|j: int| 0 <= j < low@.len() ==> low@[j] < 16,
        decreases rest,
    {
        let ghost before = low@;
        let d: u8 = if hex {
            (rest % 16) as u8
        } else {
            (rest % 10) as u8
        };
        low.push(d);
        assert(backwards(low@) =~= seq![digit_char(d as int)] + backwards(before));
        rest = if hex {
            rest / 16
        } else {
            rest / 10
        };
    }
    let ghost before = low@;
    low.push(rest as u8);
    assert(backwards(low@) =~= seq![digit_char(rest as int)] + backwards(before));
    assert(digits_of(n as nat, hex) =~= backwards(low@));
    let mut text = String::new();
    let mut i: usize = low.len();
    while i > 0
        invariant
            i <= low.len(),
            forall|j: int| 0 <= j < low@.len() ==> low@[j] < 16,
            text@ =~= backwards(low@).take(low.len() - i),
        decreases i,
    {
        i = i - 1;
        text.append(digit_text(low[i]));
        assert(backwards(low@).take(low.len() - i) =~= backwards(low@).take(low.len() - i - 1).push(
            digit_char(low@[i as int] as int),
        ));
    }
    assert(backwards(low@).take(low.len() as int) =~= backwards(low@));
    text
}

/// The decimal text of a number: its digits, after a `-` when negative.
pub(crate) fn decimal_string(n: i128) -> (r: String)
    ensures
        r@ == decimal_text(n as int),
{
    if n < 0 {
        let magnitude: u128 = (-(n + 1)) as u128 + 1;
        let digits = digits_string(magnitude, false);
        proof {
            reveal_strlit("-");
        }
        let mut text = String::from_str("-");
        text.append(digits.as_str());
        assert(text@ =~= seq!['-'] + decimal_digits((-n) as nat));
        text
    } else {
        digits_string(n as u128, false)
    }
}

/// The lower-case hexadecimal text of a number, a negative one as its
/// 64-bit two's complement.
pub(crate) fn hex_string(n: i64) -> (r: String)
    ensures
        r@ == hex_text(n),
{
    if n < 0 {
        digits_string((n as i128 + 0x1_0000_0000_0000_0000) as u128, true)
    } else {
        digits_string(n as u128, true)
    }
}

/// The value of the first digits of a run of decimal digits is no more
/// than the value of the run, and not negative.
pub proof fn lemma_digits_value_grows(s: Seq<char>, k: int)
    requires
        all_decimal_digits(s),
        0 <= k <= s.len(),
    ensures
        0 <= digits_value(s.take(k)) <= digits_value(s),
    decreases s.len() - k,
{
    if k < s.len() {
        lemma_digits_value_grows(s, k + 1);
        assert(s.take(k + 1).drop_last() =~= s.take(k));
        assert(s.take(k + 1).last() == s[k]);
        lemma_digits_value_positive(s.take(k));
    } else {
        assert(s.take(k) =~= s);
        lemma_digits_value_positive(s);
    }
}

/// The value of a run of decimal digits is not negative.
pub proof fn lemma_digits_value_positive(s: Seq<char>)
    requires
        all_decimal_digits(s),
    ensures
        0 <= digits_value(s),
    decreases s.len(),
{
    if s.len() > 0 {
        assert forall|i: int| 0 <= i < s.drop_last().len() implies '0' <= #[trigger] s.drop_last()[i]
            <= '9' by {
            assert(s.drop_last()[i] == s[i]);
        }
        lemma_digits_value_positive(s.drop_last());
    }
}

/// The 64-bit integer that a text denotes: an optional sign, then at least
/// one decimal digit, the value within the range of `i64`; nothing for any
/// other text.
pub(crate) fn parse_i64(s: &str) -> (r: Option<i64>)
    ensures
        r == parsed_i64(s@),
{
    let ghost text = s@;
    let ghost signed = text.len() > 0 && (text[0] == '-' || text[0] == '+');
    let ghost body = if signed {
        text.skip(1)
    } else {
        text
    };
    if !s.is_ascii() {
        proof {
            if parsed_i64(text) is Some {
                assert forall|i: int| 0 <= i < text.len() implies '\0' <= #[trigger] text[i]
                    <= '\u{7f}' by {
                    if signed {
                        if i > 0 {
                            assert(body[i - 1] == text[i]);
                        }
                    } else {
                        assert(body[i] == text[i]);
                    }
                }
            }
        }
        return None;
    }
    let bytes = s.as_bytes();
    proof {
        vstd::string::is_ascii_spec_bytes(s);
    }
    let len = bytes.len();
    assert(len == text.len());
    assert(forall|i: int| 0 <= i < len ==> bytes@[i] == text[i] as u8);
    let negative = len > 0 && bytes[0] == 45;
    let start: usize = if len > 0 && (bytes[0] == 45 || bytes[0] == 43) {
        1
    } else {
        0
    };
    assert(signed == (start == 1));
    if start == len {
        return None;
    }
    let mut acc: u128 = 0;
    let mut i: usize = start;
    proof {
        assert(body.take(0) =~= Seq::empty());
    }
    while i < len
        invariant
            start <= i <= len,
            text == s@,
            signed == (text.len() > 0 && (text[0] == '-' || text[0] == '+')),
            body == (if signed {
                text.skip(1)
            } else {
                text
            }),
            len == text.len(),
            len == bytes@.len(),
            body.len() == len - start,
            forall|j: int| 0 <= j < len ==> bytes@[j] == text[j] as u8,
            forall|j: int| 0 <= j < len ==> '\0' <= #[trigger] text[j] <= '\u{7f}',
            forall|j: int| 0 <= j < body.len() ==> body[j] == text[j + start],
            all_decimal_digits(body.take(i - start)),
            acc == digits_value(body.take(i - start)),
            acc <= 0x8000_0000_0000_0000,
        decreases len - i,
    {
        let b = bytes[i];
        let ghost k = i - start;
        proof {
            assert(body.take(k + 1).drop_last() =~= body.take(k));
            assert(body.take(k + 1).last() == text[i as int]);
            assert(body[k] == text[i as int]);
            assert(b == text[i as int] as u8);
            assert(b as int == text[i as int] as int);
        }
        if b < 48 || b > 57 {
            proof {
                assert('0' as int == 48 && '9' as int == 57);
                assert(!('0' <= body[k] <= '9'));
                assert(!all_decimal_digits(body));
                assert(parsed_i64(text) is None);
            }
            return None;
        }
        acc = acc * 10 + (b - 48) as u128;
        proof {
            assert forall|j: int| 0 <= j < k + 1 implies '0' <= #[trigger] body.take(k + 1)[j]
                <= '9' by {
                if j < k {
                    assert(body.take(k)[j] == body.take(k + 1)[j]);
                }
            }
        }
        if acc > 0x8000_0000_0000_0000 {
            proof {
                if all_decimal_digits(body) {
                    lemma_digits_value_grows(body, k + 1);
                    assert(digits_value(body) > 0x8000_0000_0000_0000);
                }
                assert(parsed_i64(text) is None);
            }
            return None;
        }
        i = i + 1;
    }
    proof {
        assert(body.take(len - start) =~= body);
    }
    if negative {
        Some((-(acc as i128)) as i64)
    } else if acc > 0x7fff_ffff_ffff_ffff {
        None
    } else {
        Some(acc as i64)
    }
}

/// The lines of a text given as bytes: what `BufRead::lines` yields, as
/// far as every line is valid UTF-8, else nothing.
pub uninterp spec fn lines_of(bytes: Seq<u8>) -> Option<Seq<Seq<char>>>;

/// The texts of a list of strings.
pub open spec fn texts(lines: Seq<String>) -> Seq<Seq<char>> {
    Seq::new(lines.len(), |i: int| lines[i]@)
}

/// `BufRead::lines` over the bytes, collected: the lines of the text
/// without their line ends, or nothing where a line is not valid UTF-8.
#[verifier::external_body]
pub(crate) fn split_lines(bytes: Vec<u8>) -> (r: Option<Vec<String>>)
    ensures
        r is Some == lines_of(bytes@) is Some,
        r is Some ==> texts(r.unwrap()@) == lines_of(bytes@).unwrap(),
{
    std::io::BufRead::lines(std::io::Cursor::new(bytes)).collect::<Result<Vec<String>, _>>().ok()
}

} // verus!
