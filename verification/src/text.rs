//! Character-level helpers shared by the parsers: characters of a string,
//! digits, white space, and unsigned decimal numbers.

use vstd::prelude::*;
use vstd::std_specs::iter::IteratorSpec;
use vstd::string::*;

verus! {

broadcast use vstd::string::group_string_axioms;

/// std `String::push`: the string afterwards is the old one with `c` added at the end.
#[verifier::external_body]
pub(crate) fn push_char(s: &mut String, c: char)
    ensures
        final(s)@ == old(s)@.push(c),
{
    s.push(c);
}

/// The characters of `s`, in order.
pub fn to_chars(s: &str) -> (res: Vec<char>)
    ensures
        res@ == s@,
{
    let mut res: Vec<char> = Vec::new();
    for c in it: s.chars()
        invariant
            res@ == it.seq().take(it.index() as int),
    {
        res.push(c);
    }
    res
}

/// The string made of the characters `chars[from..to]`.
pub fn string_of_range(chars: &[char], from: usize, to: usize) -> (res: String)
    requires
        from <= to <= chars@.len(),
    ensures
        res@ == chars@.subrange(from as int, to as int),
{
    let mut res = String::new();
    let mut i = from;
    while i < to
        invariant
            from <= i <= to <= chars@.len(),
            res@ == chars@.subrange(from as int, i as int),
        decreases to - i,
    {
        push_char(&mut res, chars[i]);
        i += 1;
    }
    res
}

/// The string made of all characters of `chars`.
pub fn string_of_chars(chars: &[char]) -> (res: String)
    ensures
        res@ == chars@,
{
    let res = string_of_range(chars, 0, chars.len());
    assert(chars@.subrange(0, chars@.len() as int) == chars@);
    res
}

/// `s` followed by `t`, as a new string.
pub fn concat(s: &str, t: &str) -> (res: String)
    ensures
        res@ == s@ + t@,
{
    let mut res = s.to_owned();
    res.append(t);
    res
}

/// Whether `c` is one of the ten ASCII digits.
pub open spec fn is_digit(c: char) -> bool {
    '0' <= c && c <= '9'
}

/// Every character of `s` is an ASCII digit (true of the empty sequence).
pub open spec fn all_digits(s: Seq<char>) -> bool {
    forall|i: int| 0 <= i < s.len() ==> #[trigger] is_digit(s[i])
}

/// The value of the digit `c`.
pub open spec fn digit_value(c: char) -> int {
    (c as int) - ('0' as int)
}

/// The value of the decimal numeral `s`, read most significant digit first.
pub open spec fn decimal_value(s: Seq<char>) -> int
    decreases s.len(),
{
    if s.len() == 0 {
        0
    } else {
        decimal_value(s.drop_last()) * 10 + digit_value(s.last())
    }
}

/// What std's `str::parse` gives for an unsigned integer type whose largest
/// value is `max`: one optional leading `+`, then at least one digit and
/// nothing else, and a value no larger than `max`.
pub open spec fn parse_unsigned_spec(s: Seq<char>, max: int) -> Option<int> {
    let digits = if s.len() > 0 && s[0] == '+' { s.skip(1) } else { s };
    if digits.len() == 0 || !all_digits(digits) {
        None
    } else if decimal_value(digits) > max {
        None
    } else {
        Some(decimal_value(digits))
    }
}

/// Whether `c` is an ASCII digit.
pub fn is_ascii_digit(c: char) -> (res: bool)
    ensures
        res == is_digit(c),
{
    '0' <= c && c <= '9'
}

/// The set of characters with the Unicode `White_Space` property.
pub open spec fn is_white_space(c: char) -> bool {
    ||| ('\u{9}' <= c && c <= '\u{d}')
    ||| c == ' '
    ||| c == '\u{85}'
    ||| c == '\u{a0}'
    ||| c == '\u{1680}'
    ||| ('\u{2000}' <= c && c <= '\u{200a}')
    ||| c == '\u{2028}'
    ||| c == '\u{2029}'
    ||| c == '\u{202f}'
    ||| c == '\u{205f}'
    ||| c == '\u{3000}'
}

/// Whether `c` is white space, as `char::is_whitespace` decides it.
pub fn is_whitespace(c: char) -> (res: bool)
    ensures
        res == is_white_space(c),
{
    ('\u{9}' <= c && c <= '\u{d}') || c == ' ' || c == '\u{85}' || c == '\u{a0}' || c
        == '\u{1680}' || ('\u{2000}' <= c && c <= '\u{200a}') || c == '\u{2028}' || c
        == '\u{2029}' || c == '\u{202f}' || c == '\u{205f}' || c == '\u{3000}'
}

/// A numeral is worth at least as much as any of its prefixes.
pub proof fn lemma_decimal_value_prefix(s: Seq<char>, k: int)
    requires
        0 <= k <= s.len(),
        all_digits(s),
    ensures
        decimal_value(s.take(k)) <= decimal_value(s),
        0 <= decimal_value(s),
    decreases s.len(),
{
    if s.len() > 0 {
        let t = s.drop_last();
        assert(all_digits(t)) by {
            assert forall|i: int| 0 <= i < t.len() implies #[trigger] is_digit(t[i]) by {
                assert(t[i] == s[i]);
            }
        }
        assert(is_digit(s[s.len() - 1]));
        if k < s.len() {
            assert(s.take(k) == t.take(k));
            lemma_decimal_value_prefix(t, k);
        } else {
            assert(s.take(k) == s);
            lemma_decimal_value_prefix(t, 0);
        }
    }
}

/// Parses `chars[from..to]` as std's `str::parse` parses an unsigned
/// integer type whose largest value is `max`.
#[verifier::loop_isolation(false)]
pub fn parse_unsigned_range(chars: &[char], from: usize, to: usize, max: usize) -> (res: Option<
    usize,
>)
    requires
        from <= to <= chars@.len(),
    ensures
        res is None <==> parse_unsigned_spec(chars@.subrange(from as int, to as int), max as int) is None,
        res matches Some(v) ==> parse_unsigned_spec(chars@.subrange(from as int, to as int), max as int)
            == Some(v as int),
{
    let ghost s = chars@.subrange(from as int, to as int);
    let mut i = from;
    if from < to && chars[from] == '+' {
        i = from + 1;
    }
    let ghost digits = chars@.subrange(i as int, to as int);
    assert(digits == (if s.len() > 0 && s[0] == '+' {
        s.skip(1)
    } else {
        s
    }));
    if i == to {
        return None;
    }
    let mut value: usize = 0;
    let mut j = i;
    while j < to
        invariant
            i <= j <= to <= chars@.len(),
            digits == chars@.subrange(i as int, to as int),
            all_digits(chars@.subrange(i as int, j as int)),
            value as int == decimal_value(chars@.subrange(i as int, j as int)),
        decreases to - j,
    {
        let c = chars[j];
        let ghost prefix = chars@.subrange(i as int, j as int);
        let ghost next = chars@.subrange(i as int, j + 1);
        assert(next.drop_last() == prefix);
        assert(next.last() == c);
        if !is_ascii_digit(c) {
            assert(!is_digit(digits[j - i]));
            return None;
        }
        assert(all_digits(next)) by {
            assert forall|k: int| 0 <= k < next.len() implies #[trigger] is_digit(next[k]) by {
                if k < prefix.len() {
                    assert(next[k] == prefix[k]);
                }
            }
        }
        let d = (c as u32 - '0' as u32) as usize;
        assert(d as int == digit_value(c));
        let ten = value.checked_mul(10);
        match ten {
            None => {
                proof {
                    lemma_overflow_rejects(chars@, i as int, j as int, to as int);
                }
                return None;
            },
            Some(t) => {
                match t.checked_add(d) {
                    None => {
                        proof {
                            lemma_overflow_rejects(chars@, i as int, j as int, to as int);
                        }
                        return None;
                    },
                    Some(v) => {
                        value = v;
                    },
                }
            },
        }
        j += 1;
    }
    assert(chars@.subrange(i as int, j as int) == digits);
    if value > max {
        None
    } else {
        Some(value)
    }
}

/// Once the numeral `chars[i..=j]` is worth more than `usize::MAX`, so is the
/// whole numeral `chars[i..to]`, if it is one.
proof fn lemma_overflow_rejects(chars: Seq<char>, i: int, j: int, to: int)
    requires
        0 <= i <= j < to <= chars.len(),
        decimal_value(chars.subrange(i, j + 1)) > usize::MAX,
    ensures
        all_digits(chars.subrange(i, to)) ==> decimal_value(chars.subrange(i, to)) > usize::MAX,
{
    let digits = chars.subrange(i, to);
    if all_digits(digits) {
        lemma_decimal_value_prefix(digits, j + 1 - i);
        assert(digits.take(j + 1 - i) == chars.subrange(i, j + 1));
    }
}

} // verus!
