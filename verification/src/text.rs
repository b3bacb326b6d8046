//! Character-level text handling: lines, whitespace trimming and decimal
//! integers, stated over the `Seq<char>` view of a string.
use vstd::prelude::*;
use vstd::string::{StrSliceExecFns, StringExecFns};

verus! {

/// The Unicode `White_Space` property, the set that `char::is_whitespace`
/// recognises.
pub open spec fn is_white_space(c: char) -> bool {
    let u = c as u32;
    ||| 0x9 <= u && u <= 0xD
    ||| u == 0x20
    ||| u == 0x85
    ||| u == 0xA0
    ||| u == 0x1680
    ||| 0x2000 <= u && u <= 0x200A
    ||| u == 0x2028
    ||| u == 0x2029
    ||| u == 0x202F
    ||| u == 0x205F
    ||| u == 0x3000
}

pub fn char_is_white_space(c: char) -> (r: bool)
    ensures
        r == is_white_space(c),
{
    let u = c as u32;
    (0x9 <= u && u <= 0xD) || u == 0x20 || u == 0x85 || u == 0xA0 || u == 0x1680 || (0x2000 <= u
        && u <= 0x200A) || u == 0x2028 || u == 0x2029 || u == 0x202F || u == 0x205F || u == 0x3000
}

/// The characters of `s`, in order.
pub fn collect_chars(s: &str) -> (v: Vec<char>)
    ensures
        v@ == s@,
{
    let mut v: Vec<char> = Vec::new();
    for c in it: s.chars()
        invariant
            v@ == it.seq().take(it.index() as int),
            it.seq() == s@,
    {
        v.push(c);
    }
    v
}

/// Index of the first occurrence of `c` in `s`, or `s.len()` when there is none.
pub open spec fn index_of_or_len(s: Seq<char>, c: char) -> nat
    decreases s.len(),
{
    if s.len() == 0 {
        0
    } else if s[0] == c {
        0
    } else {
        1 + index_of_or_len(s.drop_first(), c)
    }
}

pub proof fn lemma_index_of_or_len(s: Seq<char>, c: char, q: int)
    requires
        0 <= q <= s.len(),
        forall|k: int| 0 <= k < q ==> s[k] != c,
        q == s.len() || s[q] == c,
    ensures
        index_of_or_len(s, c) == q,
    decreases q,
{
    if q > 0 {
        assert forall|k: int| 0 <= k < q - 1 implies s.drop_first()[k] != c by {
            assert(s.drop_first()[k] == s[k + 1]);
        }
        lemma_index_of_or_len(s.drop_first(), c, q - 1);
    }
}

/// A line without the carriage return that ends it, if any.
pub open spec fn strip_cr(line: Seq<char>) -> Seq<char> {
    if line.len() > 0 && line.last() == '\r' {
        line.drop_last()
    } else {
        line
    }
}

/// The lines of a text as `str::lines` yields them: split after each `'\n'`,
/// a line so ended loses its `"\n"` or `"\r\n"`, the last line may lack a
/// newline (and then keeps a final `'\r'`), and a text that ends with
/// `'\n'` has no empty line after it.
pub open spec fn text_lines(s: Seq<char>) -> Seq<Seq<char>>
    decreases s.len(),
{
    if s.len() == 0 {
        seq![]
    } else {
        let p = index_of_or_len(s, '\n');
        if p < s.len() {
            seq![strip_cr(s.take(p as int))] + text_lines(s.skip(p + 1 as int))
        } else {
            seq![s]
        }
    }
}

/// Number of whitespace characters at the start of `s`.
pub open spec fn leading_white_space(s: Seq<char>) -> nat
    decreases s.len(),
{
    if s.len() == 0 {
        0
    } else if is_white_space(s[0]) {
        1 + leading_white_space(s.drop_first())
    } else {
        0
    }
}

/// Number of whitespace characters at the end of `s`.
pub open spec fn trailing_white_space(s: Seq<char>) -> nat
    decreases s.len(),
{
    if s.len() == 0 {
        0
    } else if is_white_space(s.last()) {
        1 + trailing_white_space(s.drop_last())
    } else {
        0
    }
}

/// `s` without its leading and trailing whitespace, as `str::trim` gives it.
pub open spec fn trim_white_space(s: Seq<char>) -> Seq<char> {
    let a = leading_white_space(s);
    if a == s.len() {
        seq![]
    } else {
        s.subrange(a as int, s.len() - trailing_white_space(s))
    }
}

pub proof fn lemma_leading_white_space(s: Seq<char>, a: int)
    requires
        0 <= a <= s.len(),
        forall|k: int| 0 <= k < a ==> is_white_space(s[k]),
        a == s.len() || !is_white_space(s[a]),
    ensures
        leading_white_space(s) == a,
    decreases a,
{
    if a > 0 {
        assert forall|k: int| 0 <= k < a - 1 implies is_white_space(s.drop_first()[k]) by {
            assert(s.drop_first()[k] == s[k + 1]);
        }
        lemma_leading_white_space(s.drop_first(), a - 1);
    }
}

pub proof fn lemma_trailing_white_space(s: Seq<char>, t: int)
    requires
        0 <= t <= s.len(),
        forall|k: int| s.len() - t <= k < s.len() ==> is_white_space(s[k]),
        t == s.len() || !is_white_space(s[s.len() - 1 - t]),
    ensures
        trailing_white_space(s) == t,
    decreases t,
{
    if t > 0 {
        let d = s.drop_last();
        assert forall|k: int| d.len() - (t - 1) <= k < d.len() implies is_white_space(d[k]) by {
            assert(d[k] == s[k]);
        }
        if t - 1 != d.len() {
            assert(d[d.len() - 1 - (t - 1)] == s[s.len() - 1 - t]);
        }
        lemma_trailing_white_space(d, t - 1);
    }
}

/// Bounds `(a, b)` of the trimmed part of `chars`: `chars[a..b]` is
/// `trim_white_space(chars)`.
pub fn trim_bounds(chars: &Vec<char>) -> (r: (usize, usize))
    ensures
        r.0 <= r.1 <= chars.len(),
        chars@.subrange(r.0 as int, r.1 as int) == trim_white_space(chars@),
{
    let n = chars.len();
    let mut a: usize = 0;
    while a < n && char_is_white_space(chars[a])
        invariant
            a <= n == chars.len(),
            forall|k: int| 0 <= k < a ==> is_white_space(chars@[k]),
        decreases n - a,
    {
        a += 1;
    }
    proof {
        lemma_leading_white_space(chars@, a as int);
    }
    if a == n {
        return (n, n);
    }
    let mut b: usize = n;
    while b > a && char_is_white_space(chars[b - 1])
        invariant
            a < n == chars.len(),
            a <= b <= n,
            !is_white_space(chars@[a as int]),
            forall|k: int| b <= k < n ==> is_white_space(chars@[k]),
        decreases b,
    {
        b -= 1;
    }
    proof {
        lemma_trailing_white_space(chars@, (n - b) as int);
    }
    (a, b)
}

/// Decimal value of a sequence of ASCII digits.
pub open spec fn digits_value(d: Seq<char>) -> nat
    decreases d.len(),
{
    if d.len() == 0 {
        0
    } else {
        digits_value(d.drop_last()) * 10 + ((d.last() as u32) - ('0' as u32)) as nat
    }
}

pub open spec fn is_ascii_digit(c: char) -> bool {
    '0' <= c && c <= '9'
}

pub open spec fn all_ascii_digits(d: Seq<char>) -> bool {
    forall|k: int| 0 <= k < d.len() ==> is_ascii_digit(#[trigger] d[k])
}

/// What `str::parse::<i64>` gives: an optional `'+'` or `'-'`, then one or
/// more ASCII digits, whose value must fit in an `i64`.
pub open spec fn parse_i64(s: Seq<char>) -> Option<i64> {
    if s.len() == 0 {
        None
    } else {
        let neg = s[0] == '-';
        let digits = if s[0] == '-' || s[0] == '+' {
            s.drop_first()
        } else {
            s
        };
        if digits.len() == 0 || !all_ascii_digits(digits) {
            None
        } else {
            let v: int = if neg {
                -(digits_value(digits) as int)
            } else {
                digits_value(digits) as int
            };
            if i64::MIN <= v && v <= i64::MAX {
                Some(v as i64)
            } else {
                None
            }
        }
    }
}

pub proof fn lemma_digits_value_monotone(d: Seq<char>, i: int)
    requires
        0 <= i <= d.len(),
    ensures
        digits_value(d.take(i)) <= digits_value(d),
    decreases d.len() - i,
{
    if i < d.len() {
        lemma_digits_value_monotone(d, i + 1);
        assert(d.take(i + 1).drop_last() == d.take(i));
        let v = digits_value(d.take(i));
        assert(v * 10 >= v) by (nonlinear_arith);
    } else {
        assert(d.take(i) == d);
    }
}

/// Parses `chars[start..end]` as `str::parse::<i64>` does.
pub fn parse_i64_range(chars: &Vec<char>, start: usize, end: usize) -> (r: Option<i64>)
    requires
        start <= end <= chars.len(),
    ensures
        r == parse_i64(chars@.subrange(start as int, end as int)),
{
    let ghost s = chars@.subrange(start as int, end as int);
    if start == end {
        return None;
    }
    let neg = chars[start] == '-';
    let first = if chars[start] == '-' || chars[start] == '+' {
        start + 1
    } else {
        start
    };
    let ghost digits = chars@.subrange(first as int, end as int);
    assert(digits == (if s[0] == '-' || s[0] == '+' {
        s.drop_first()
    } else {
        s
    }));
    if first == end {
        return None;
    }
    // magnitude of the digits read so far; its bound is 2^63
    let mut mag: u64 = 0;
    let mut i = first;
    let limit: u64 = 0x8000_0000_0000_0000;
    while i < end
        invariant
            first <= i <= end <= chars.len(),
            digits == chars@.subrange(first as int, end as int),
            limit == 0x8000_0000_0000_0000u64,
            s == chars@.subrange(start as int, end as int),
            s.len() > 0,
            digits == (if s[0] == '-' || s[0] == '+' {
                s.drop_first()
            } else {
                s
            }),
            forall|k: int| first <= k < i ==> is_ascii_digit(#[trigger] chars@[k]),
            mag as nat == digits_value(digits.take(i - first)),
            mag <= limit,
        decreases end - i,
    {
        let c = chars[i];
        assert(digits[i - first] == chars@[i as int]);
        if !('0' <= c && c <= '9') {
            assert(!is_ascii_digit(digits[i - first]));
            assert(!all_ascii_digits(digits));
            return None;
        }
        assert('0' as u32 <= c as u32 && c as u32 <= '9' as u32);
        let dv = (c as u32 - '0' as u32) as u64;
        assert(dv <= 9);
        assert(digits.take(i + 1 - first).drop_last() == digits.take(i - first));
        if mag > (limit - dv) / 10 {
            proof {
                assert(mag * 10 + dv > limit) by (nonlinear_arith)
                    requires
                        mag > (limit - dv) / 10,
                        dv <= 9,
                ;
                lemma_digits_value_monotone(digits, i + 1 - first);
                assert(digits.take(digits.len() as int) == digits);
            }
            return None;
        }
        assert(mag * 10 + dv <= limit) by (nonlinear_arith)
            requires
                mag <= (limit - dv) / 10,
                dv <= 9,
        ;
        mag = mag * 10 + dv;
        i += 1;
    }
    assert(digits.take(digits.len() as int) == digits);
    assert(all_ascii_digits(digits));
    if neg {
        if mag == limit {
            Some(i64::MIN)
        } else {
            Some(-(mag as i64))
        }
    } else if mag == limit {
        None
    } else {
        Some(mag as i64)
    }
}

/// `s` with each NUL character written as the two characters `\0`.
pub open spec fn escape_nul_spec(s: Seq<char>) -> Seq<char>
    decreases s.len(),
{
    if s.len() == 0 {
        seq![]
    } else {
        escape_nul_spec(s.drop_last()) + if s.last() == '\0' {
            seq!['\\', '0']
        } else {
            seq![s.last()]
        }
    }
}

/// `text` with each NUL character written as `\0`, so that it can stand
/// in a C string.
pub fn escape_nul(text: &str) -> (out: String)
    ensures
        out@ == escape_nul_spec(text@),
{
    let chars = collect_chars(text);
    let n = chars.len();
    let mut out = String::new();
    let mut start: usize = 0;
    let mut i: usize = 0;
    let esc = "\\0";
    proof {
        reveal_strlit("\\0");
    }
    assert(esc@ == seq!['\\', '0']);
    while i < n
        invariant
            start <= i <= n == chars@.len(),
            chars@ == text@,
            esc@ == seq!['\\', '0'],
            out@ + chars@.subrange(start as int, i as int) == escape_nul_spec(chars@.take(i as int)),
        decreases n - i,
    {
        assert(chars@.take(i + 1).drop_last() == chars@.take(i as int));
        assert(chars@.take(i + 1).last() == chars@[i as int]);
        if chars[i] == '\0' {
            let run = text.substring_char(start, i);
            out.append(run);
            out.append(esc);
            start = i + 1;
            assert(chars@.subrange(start as int, (i + 1) as int) == Seq::<char>::empty());
        } else {
            assert(chars@.subrange(start as int, i + 1) == chars@.subrange(start as int, i as int).push(
                chars@[i as int],
            ));
        }
        i += 1;
    }
    let run = text.substring_char(start, n);
    out.append(run);
    assert(chars@.take(n as int) == chars@);
    out
}

} // verus!
