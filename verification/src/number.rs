//! Recognising a number with a unit around it, such as `3kg`, `$12.50` or
//! `-4 m/s`.

use vstd::prelude::*;
use vstd::string::*;
use crate::text::{
    all_digits, concat, is_ascii_digit, is_digit, is_white_space, is_whitespace, string_of_range,
    to_chars,
};

verus! {

broadcast use vstd::string::group_string_axioms;

/// Whether a number may start at position `i` of `c`: a digit; a sign
/// followed by a digit or a point; or a point followed by a digit.
pub open spec fn number_starts_at(c: Seq<char>, i: int) -> bool {
    if is_digit(c[i]) {
        true
    } else if (c[i] == '+' || c[i] == '-') && i + 1 < c.len() {
        is_digit(c[i + 1]) || c[i + 1] == '.'
    } else {
        c[i] == '.' && i + 1 < c.len() && is_digit(c[i + 1])
    }
}

/// `s` without one leading sign, if it has one.
pub open spec fn unsigned_part(s: Seq<char>) -> Seq<char> {
    if s.len() > 0 && (s[0] == '+' || s[0] == '-') {
        s.skip(1)
    } else {
        s
    }
}

/// Digits only, or digits with one point among them, not the point alone.
pub open spec fn is_decimal_body(b: Seq<char>) -> bool {
    ||| b.len() > 0 && all_digits(b)
    ||| exists|p: int|
        0 <= p < b.len() && b[p] == '.' && all_digits(b.take(p)) && all_digits(#[trigger] b.skip(
            p + 1,
        )) && b.len() >= 2
}

/// An optional sign followed by a decimal body.
pub open spec fn is_valid_number(s: Seq<char>) -> bool {
    is_decimal_body(unsigned_part(s))
}

/// Whether a number may start at position `i` of `chars`.
pub fn looks_like_number_start(chars: &[char], i: usize) -> (res: bool)
    requires
        i < chars@.len(),
    ensures
        res == number_starts_at(chars@, i as int),
{
    let c = chars[i];
    if is_ascii_digit(c) {
        return true;
    }
    if (c == '+' || c == '-') && i + 1 < chars.len() {
        return is_ascii_digit(chars[i + 1]) || chars[i + 1] == '.';
    }
    c == '.' && i + 1 < chars.len() && is_ascii_digit(chars[i + 1])
}

/// Whether `chars[from..to]` is a number: an optional sign, then digits with
/// at most one point among them, and at least one digit.
pub fn valid_number_range(chars: &[char], from: usize, to: usize) -> (res: bool)
    requires
        from <= to <= chars@.len(),
    ensures
        res == is_valid_number(chars@.subrange(from as int, to as int)),
{
    let ghost s = chars@.subrange(from as int, to as int);
    if from == to {
        return false;
    }
    let mut i = from;
    if chars[from] == '+' || chars[from] == '-' {
        i = from + 1;
    }
    let ghost b = chars@.subrange(i as int, to as int);
    assert(b == unsigned_part(s));
    if i == to {
        return false;
    }
    let mut dot: Option<usize> = None;
    let mut j = i;
    while j < to
        invariant
            i <= j <= to <= chars@.len(),
            from <= i < to,
            b == chars@.subrange(i as int, to as int),
            b == unsigned_part(s),
            s == chars@.subrange(from as int, to as int),
            match dot {
                None => all_digits(chars@.subrange(i as int, j as int)),
                Some(d) => i <= d < j && chars@[d as int] == '.' && all_digits(
                    chars@.subrange(i as int, d as int),
                ) && all_digits(chars@.subrange(d + 1, j as int)),
            },
        decreases to - j,
    {
        let c = chars[j];
        if is_ascii_digit(c) {
            proof {
                match dot {
                    None => lemma_all_digits_extend(chars@, i as int, j as int),
                    Some(d) => lemma_all_digits_extend(chars@, d + 1, j as int),
                }
            }
        } else if c == '.' && dot.is_none() {
            dot = Some(j);
            assert(chars@.subrange(j + 1, j + 1).len() == 0);
        } else {
            proof {
                assert(b.take(j - i) == chars@.subrange(i as int, j as int));
                if let Some(d) = dot {
                    assert(b.take(d - i) == chars@.subrange(i as int, d as int));
                    assert(b.subrange(d - i + 1, j - i) == chars@.subrange(d + 1, j as int));
                }
                lemma_bad_char_rejects(b, j - i, dot, i as int, chars@);
            }
            return false;
        }
        j += 1;
    }
    match dot {
        None => {
            assert(chars@.subrange(i as int, j as int) == b);
            true
        },
        Some(d) => {
            let p = d - i;
            assert(b.take(p as int) == chars@.subrange(i as int, d as int));
            assert(b.skip(p + 1) == chars@.subrange(d + 1, j as int));
            if to - i >= 2 {
                assert(b[p as int] == '.');
                true
            } else {
                assert(b.len() == 1);
                proof {
                    assert(!all_digits(b)) by {
                        assert(!is_digit(b[0]));
                    }
                }
                false
            }
        },
    }
}

proof fn lemma_all_digits_extend(c: Seq<char>, lo: int, j: int)
    requires
        0 <= lo <= j < c.len(),
        all_digits(c.subrange(lo, j)),
        is_digit(c[j]),
    ensures
        all_digits(c.subrange(lo, j + 1)),
{
    let t = c.subrange(lo, j + 1);
    assert forall|k: int| 0 <= k < t.len() implies #[trigger] is_digit(t[k]) by {
        if k < j - lo {
            assert(t[k] == c.subrange(lo, j)[k]);
        }
    }
}

/// A body holding, at position `q`, a character that is neither a digit nor
/// the first point is no decimal body.
proof fn lemma_bad_char_rejects(b: Seq<char>, q: int, dot: Option<usize>, i: int, c: Seq<char>)
    requires
        0 <= q < b.len(),
        0 <= i,
        b == c.subrange(i, i + b.len()),
        i + b.len() <= c.len(),
        !is_digit(b[q]),
        match dot {
            None => b[q] != '.' && all_digits(b.take(q)),
            Some(d) => i <= d < i + q && b[d - i] == '.' && all_digits(b.take(d - i))
                && all_digits(b.subrange(d - i + 1, q)),
        },
    ensures
        !is_decimal_body(b),
{
    assert(!all_digits(b));
    assert forall|p: int|
        0 <= p < b.len() && b[p] == '.' && all_digits(b.take(p)) implies !all_digits(
        #[trigger] b.skip(p + 1),
    ) by {
        if p < q {
            assert(b.skip(p + 1)[q - p - 1] == b[q]);
        } else if p == q {
            match dot {
                None => {},
                Some(d) => {
                    assert(b.take(p)[d - i] == b[d - i]);
                },
            }
        } else {
            assert(b.take(p)[q] == b[q]);
        }
    }
}

/// Whether `s` is a number: an optional sign, then digits with at most one
/// point among them, and at least one digit.
pub fn valid_number(s: &str) -> (res: bool)
    ensures
        res == is_valid_number(s@),
{
    let chars = to_chars(s);
    assert(chars@.subrange(0, chars@.len() as int) == chars@);
    valid_number_range(chars.as_slice(), 0, chars.len())
}


/// What surrounds a number: the text before it and the text after it.
pub struct UnitSig {
    pub pre: String,
    pub post: String,
}

/// A value split into its number, still as text, and its unit.
pub struct ParsedValue {
    pub number: String,
    pub unit: UnitSig,
}

/// The content of a `UnitSig`.
pub struct UnitView {
    pub pre: Seq<char>,
    pub post: Seq<char>,
}

impl View for UnitSig {
    type V = UnitView;

    open spec fn view(&self) -> UnitView {
        UnitView { pre: self.pre@, post: self.post@ }
    }
}

/// The content of a `ParsedValue`.
pub struct ValueView {
    pub number: Seq<char>,
    pub unit: UnitView,
}

impl View for ParsedValue {
    type V = ValueView;

    open spec fn view(&self) -> ValueView {
        ValueView { number: self.number@, unit: self.unit@ }
    }
}

/// `s` with every white-space character removed.
pub open spec fn without_white_space(s: Seq<char>) -> Seq<char>
    decreases s.len(),
{
    if s.len() == 0 {
        s
    } else if is_white_space(s.last()) {
        without_white_space(s.drop_last())
    } else {
        without_white_space(s.drop_last()).push(s.last())
    }
}

/// The first position at or after `i` where a number may start.
pub open spec fn first_number_start(c: Seq<char>, i: int) -> Option<int>
    decreases c.len() - i,
{
    if i < 0 || i >= c.len() {
        None
    } else if number_starts_at(c, i) {
        Some(i)
    } else {
        first_number_start(c, i + 1)
    }
}

/// The largest end `e` with `start < e <= k` for which `c[start..e]` is a number.
pub open spec fn longest_number_end(c: Seq<char>, start: int, k: int) -> Option<int>
    decreases k - start,
{
    if k <= start {
        None
    } else if is_valid_number(c.subrange(start, k)) {
        Some(k)
    } else {
        longest_number_end(c, start, k - 1)
    }
}

/// Where the number of `c` lies: it starts at the first place where a
/// number may start, and it is the longest number that starts there.
pub open spec fn number_span(c: Seq<char>) -> Option<(int, int)> {
    match first_number_start(c, 0) {
        None => None,
        Some(start) => match longest_number_end(c, start, c.len() as int) {
            None => None,
            Some(end) => Some((start, end)),
        },
    }
}

/// The message of a value that holds no number.
pub open spec fn invalid_value_message(raw: Seq<char>) -> Seq<char> {
    "invalid numeric value: "@ + raw
}

/// A prefix of a decimal body of at least two characters is one too.
pub proof fn lemma_decimal_body_prefix(b: Seq<char>, k: int)
    requires
        is_decimal_body(b),
        2 <= k <= b.len(),
    ensures
        is_decimal_body(b.take(k)),
{
    let t = b.take(k);
    if all_digits(b) {
        assert forall|i: int| 0 <= i < t.len() implies #[trigger] is_digit(t[i]) by {
            assert(t[i] == b[i]);
        }
    } else {
        let p = choose|p: int|
            0 <= p < b.len() && b[p] == '.' && all_digits(b.take(p)) && all_digits(
                #[trigger] b.skip(p + 1),
            ) && b.len() >= 2;
        if p < k {
            assert(t.take(p) == b.take(p));
            let r = t.skip(p + 1);
            assert forall|i: int| 0 <= i < r.len() implies #[trigger] is_digit(r[i]) by {
                assert(r[i] == b.skip(p + 1)[i]);
            }
            assert(t[p] == '.');
        } else {
            assert forall|i: int| 0 <= i < t.len() implies #[trigger] is_digit(t[i]) by {
                assert(t[i] == b.take(p)[i]);
            }
        }
    }
}

/// Once a number that starts at `start` stops being one, no longer text
/// starting there is a number again.
pub proof fn lemma_numbers_are_contiguous(c: Seq<char>, start: int, k: int, m: int)
    requires
        0 <= start < k < m <= c.len(),
        is_valid_number(c.subrange(start, k)),
        !is_valid_number(c.subrange(start, k + 1)),
    ensures
        !is_valid_number(c.subrange(start, m)),
{
    if is_valid_number(c.subrange(start, m)) {
        let w = c.subrange(start, m);
        let t = c.subrange(start, k + 1);
        let u = c.subrange(start, k);
        let bw = unsigned_part(w);
        let off: int = if w[0] == '+' || w[0] == '-' { 1 } else { 0 };
        assert(u[0] == w[0] && t[0] == w[0]);
        assert(unsigned_part(u).len() > 0) by {
            if !all_digits(unsigned_part(u)) {
                let p = choose|p: int|
                    0 <= p < unsigned_part(u).len() && unsigned_part(u)[p] == '.' && all_digits(
                        unsigned_part(u).take(p),
                    ) && all_digits(#[trigger] unsigned_part(u).skip(p + 1))
                        && unsigned_part(u).len() >= 2;
            }
        }
        assert(unsigned_part(t) == bw.take(k + 1 - start - off));
        lemma_decimal_body_prefix(bw, k + 1 - start - off);
    }
}

/// With every length between `k` and `m` past the end of the number, the
/// longest number up to `m` is the one up to `k`.
proof fn lemma_longest_end_stable(c: Seq<char>, start: int, k: int, m: int)
    requires
        0 <= start < k <= m <= c.len(),
        forall|e: int| k < e <= m ==> !is_valid_number(#[trigger] c.subrange(start, e)),
    ensures
        longest_number_end(c, start, m) == longest_number_end(c, start, k),
    decreases m - k,
{
    if m > k {
        lemma_longest_end_stable(c, start, k, m - 1);
    }
}

/// `raw` with its white space removed.
pub fn remove_white_space(raw: &str) -> (res: Vec<char>)
    ensures
        res@ == without_white_space(raw@),
{
    let chars = to_chars(raw);
    let mut res: Vec<char> = Vec::new();
    let mut i: usize = 0;
    while i < chars.len()
        invariant
            i <= chars@.len(),
            chars@ == raw@,
            res@ == without_white_space(chars@.take(i as int)),
        decreases chars.len() - i,
    {
        assert(chars@.take(i + 1).drop_last() == chars@.take(i as int));
        if !is_whitespace(chars[i]) {
            res.push(chars[i]);
        }
        i += 1;
    }
    assert(chars@.take(chars@.len() as int) == chars@);
    res
}

/// How `raw` splits into the text before its number, the number and the
/// text after it, once its white space is removed; `Err` holds the message.
pub open spec fn value_parts(raw: Seq<char>) -> Result<ValueView, Seq<char>> {
    let c = without_white_space(raw);
    match number_span(c) {
        None => Err(invalid_value_message(raw)),
        Some((start, end)) => Ok(
            ValueView {
                number: c.subrange(start, end),
                unit: UnitView { pre: c.take(start), post: c.skip(end) },
            },
        ),
    }
}

/// Splits a value into the text before its number, the number and the text
/// after it, once its white space is removed; the number starts at the first
/// place where one may start and is the longest number that starts there.
pub fn parse_value(raw: &str) -> (res: Result<ParsedValue, String>)
    ensures
        match value_parts(raw@) {
            Ok(v) => res matches Ok(p) && p@ == v,
            Err(m) => res matches Err(e) && e@ == m,
        },
{
    let chars = remove_white_space(raw);
    let ghost c = chars@;
    let n = chars.len();
    let mut start: Option<usize> = None;
    let mut i: usize = 0;
    while i < n
        invariant_except_break
            i <= n == c.len(),
            chars@ == c,
            start is None,
            first_number_start(c, 0) == first_number_start(c, i as int),
        ensures
            chars@ == c,
            n == c.len(),
            first_number_start(c, 0) == match start {
                None => None::<int>,
                Some(s) => Some(s as int),
            },
            start matches Some(s) ==> s < n,
        decreases n - i,
    {
        let ch = chars[i];
        if is_ascii_digit(ch) || ch == '+' || ch == '-' || ch == '.' {
            if looks_like_number_start(chars.as_slice(), i) {
                start = Some(i);
                break;
            }
        }
        i += 1;
    }
    let s = match start {
        None => {
            return Err(concat("invalid numeric value: ", raw));
        },
        Some(s) => s,
    };
    let mut end: Option<usize> = None;
    let mut i: usize = s;
    while i < n
        invariant_except_break
            s <= i <= n == c.len(),
            s < n,
            chars@ == c,
            match end {
                None => longest_number_end(c, s as int, i as int) is None,
                Some(e) => longest_number_end(c, s as int, i as int) == Some(e as int) && e == i
                    && is_valid_number(c.subrange(s as int, e as int)),
            },
        ensures
            chars@ == c,
            longest_number_end(c, s as int, n as int) == match end {
                None => None::<int>,
                Some(e) => Some(e as int),
            },
            end matches Some(e) ==> s < e <= n,
        decreases n - i,
    {
        let k = i + 1;
        if valid_number_range(chars.as_slice(), s, k) {
            end = Some(k);
        } else if end.is_some() {
            proof {
                assert forall|e: int| i < e <= n implies !is_valid_number(
                    #[trigger] c.subrange(s as int, e),
                ) by {
                    if e > k {
                        lemma_numbers_are_contiguous(c, s as int, i as int, e);
                    }
                }
                lemma_longest_end_stable(c, s as int, i as int, n as int);
            }
            break;
        }
        i = k;
    }
    let e = match end {
        None => {
            return Err(concat("invalid numeric value: ", raw));
        },
        Some(e) => e,
    };
    let pre = string_of_range(chars.as_slice(), 0, s);
    let number = string_of_range(chars.as_slice(), s, e);
    let post = string_of_range(chars.as_slice(), e, n);
    proof {
        assert(c.take(s as int) == c.subrange(0, s as int));
        assert(c.skip(e as int) == c.subrange(e as int, n as int));
    }
    Ok(ParsedValue { number, unit: UnitSig { pre, post } })
}


/// The first place where a number may start is one, and no place before it is.
pub proof fn lemma_first_number_start(c: Seq<char>, i: int)
    requires
        0 <= i,
    ensures
        first_number_start(c, i) matches Some(s) ==> i <= s < c.len() && number_starts_at(c, s)
            && forall|k: int| i <= k < s ==> !number_starts_at(c, k),
        first_number_start(c, i) is None ==> forall|k: int| i <= k < c.len() ==> !number_starts_at(c, k),
    decreases c.len() - i,
{
    if i < c.len() && !number_starts_at(c, i) {
        lemma_first_number_start(c, i + 1);
    }
}

/// The longest number end found is a number end.
pub proof fn lemma_longest_number_end(c: Seq<char>, start: int, k: int)
    ensures
        longest_number_end(c, start, k) matches Some(e) ==> start < e <= k && is_valid_number(
            c.subrange(start, e),
        ),
        longest_number_end(c, start, k) is None ==> forall|e: int| start < e <= k ==> !is_valid_number(
            #[trigger] c.subrange(start, e),
        ),
    decreases k - start,
{
    if k > start {
        lemma_longest_number_end(c, start, k - 1);
    }
}

/// A value that parses falls apart into its unit's prefix, its number and
/// its unit's suffix, which together are the value without white space; the
/// number is a number, and no number may start within the prefix.
pub proof fn lemma_value_parts_reassemble(raw: Seq<char>)
    ensures
        value_parts(raw) matches Ok(v) ==> {
            &&& v.unit.pre + v.number + v.unit.post == without_white_space(raw)
            &&& is_valid_number(v.number)
            &&& forall|k: int| 0 <= k < v.unit.pre.len() ==> !number_starts_at(without_white_space(raw), k)
        },
{
    let c = without_white_space(raw);
    lemma_first_number_start(c, 0);
    if let Some(start) = first_number_start(c, 0) {
        lemma_longest_number_end(c, start, c.len() as int);
        if let Some(end) = longest_number_end(c, start, c.len() as int) {
            assert(c.take(start) + c.subrange(start, end) + c.skip(end) =~= c);
        }
    }
}

} // verus!
