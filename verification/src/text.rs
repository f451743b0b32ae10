//! Character-level text helpers shared by the parsers and the renderer.
//!
//! Everything here works on `char` sequences: a `&str` is turned into its
//! characters once, and the parsers walk positions in that sequence.
use vstd::prelude::*;

verus! {

/// The White_Space property of the Unicode Character Database, which is what
/// `char::is_whitespace` (and so `str::trim`) tests.
pub open spec fn is_space(c: char) -> bool {
    ||| '\u{9}' <= c <= '\u{d}'
    ||| c == ' '
    ||| c == '\u{85}'
    ||| c == '\u{a0}'
    ||| c == '\u{1680}'
    ||| '\u{2000}' <= c <= '\u{200a}'
    ||| c == '\u{2028}'
    ||| c == '\u{2029}'
    ||| c == '\u{202f}'
    ||| c == '\u{205f}'
    ||| c == '\u{3000}'
}

/// Whether `c` has the Unicode White_Space property (what
/// `char::is_whitespace` tests).
pub fn is_whitespace(c: char) -> (r: bool)
    ensures
        r == is_space(c),
{
    ('\u{9}' <= c && c <= '\u{d}') || c == ' ' || c == '\u{85}' || c == '\u{a0}' || c == '\u{1680}'
        || ('\u{2000}' <= c && c <= '\u{200a}') || c == '\u{2028}' || c == '\u{2029}' || c
        == '\u{202f}' || c == '\u{205f}' || c == '\u{3000}'
}

/// `String::push`: appends one character.
#[verifier::external_body]
pub fn push_char(s: &mut String, c: char)
    ensures
        final(s)@ == old(s)@.push(c),
{
    s.push(c);
}

/// `char::from_u32`: the character with that code point, unless the number is
/// a surrogate (0xD800..=0xDFFF) or above 0x10FFFF.
#[verifier::external_body]
pub fn char_from_u32(n: u32) -> (r: Option<char>)
    ensures
        r == (if is_scalar_value(n as int) { Some(n as char) } else { None::<char> }),
{
    char::from_u32(n)
}

/// A Unicode scalar value: any code point that is not a surrogate.
pub open spec fn is_scalar_value(n: int) -> bool {
    (0 <= n < 0xd800) || (0xe000 <= n <= 0x10ffff)
}

pub open spec fn is_ascii_digit(c: char) -> bool {
    '0' <= c <= '9'
}

/// The characters of a string slice, in order.
pub fn chars_of(s: &str) -> (v: Vec<char>)
    ensures
        v@ == s@,
{
    let mut v: Vec<char> = Vec::new();
    for c in it: s.chars()
        invariant
            v@ == it.seq().take(it.index() as int),
    {
        v.push(c);
    }
    v
}

/// A `String` holding exactly the given characters.
pub fn string_of(v: &[char]) -> (s: String)
    ensures
        s@ == v@,
{
    let mut s = String::new();
    let mut i: usize = 0;
    while i < v.len()
        invariant
            i <= v.len(),
            s@ == v@.take(i as int),
        decreases v.len() - i,
    {
        push_char(&mut s, v[i]);
        i = i + 1;
        assert(v@.take(i as int) =~= v@.take(i - 1).push(v@[i - 1]));
    }
    assert(v@.take(i as int) =~= v@);
    s
}

/// Appends `tail` to `v`.
pub fn extend_chars(v: &mut Vec<char>, tail: &[char])
    ensures
        final(v)@ == old(v)@ + tail@,
{
    let mut i: usize = 0;
    while i < tail.len()
        invariant
            i <= tail.len(),
            v@ == old(v)@ + tail@.take(i as int),
        decreases tail.len() - i,
    {
        v.push(tail[i]);
        i = i + 1;
        assert(tail@.take(i as int) =~= tail@.take(i - 1).push(tail@[i - 1]));
    }
    assert(tail@.take(i as int) =~= tail@);
}

/// The characters `v[a..b]`.
pub fn copy_range(v: &[char], a: usize, b: usize) -> (r: Vec<char>)
    requires
        a <= b <= v@.len(),
    ensures
        r@ == v@.subrange(a as int, b as int),
{
    let mut r: Vec<char> = Vec::new();
    let mut i: usize = a;
    while i < b
        invariant
            a <= i <= b <= v@.len(),
            r@ == v@.subrange(a as int, i as int),
        decreases b - i,
    {
        r.push(v[i]);
        i = i + 1;
        assert(v@.subrange(a as int, i as int) =~= v@.subrange(a as int, i - 1).push(v@[i - 1]));
    }
    r
}

/// Position of the first non-whitespace character at or after `i`
/// (`s.len()` if there is none): where `trim_start` would begin.
pub open spec fn skip_space(s: Seq<char>, i: int) -> int
    decreases s.len() - i,
{
    if 0 <= i < s.len() && is_space(s[i]) {
        skip_space(s, i + 1)
    } else {
        i
    }
}

/// Position of the first whitespace character at or after `i`, or `s.len()`.
pub open spec fn next_space(s: Seq<char>, i: int) -> int
    decreases s.len() - i,
{
    if 0 <= i < s.len() && !is_space(s[i]) {
        next_space(s, i + 1)
    } else {
        i
    }
}

/// End of `s[lo..j]` once trailing whitespace is dropped: where `trim_end`
/// would stop.
pub open spec fn trim_back(s: Seq<char>, lo: int, j: int) -> int
    decreases j - lo,
{
    if lo < j && j <= s.len() && is_space(s[j - 1]) {
        trim_back(s, lo, j - 1)
    } else {
        j
    }
}

/// `str::trim`: the text without leading and trailing whitespace.
pub open spec fn trim(s: Seq<char>) -> Seq<char> {
    let a = skip_space(s, 0);
    s.subrange(a, trim_back(s, a, s.len() as int))
}

pub proof fn lemma_skip_space(s: Seq<char>, i: int)
    requires
        0 <= i <= s.len(),
    ensures
        i <= skip_space(s, i) <= s.len(),
        forall|k: int| i <= k < skip_space(s, i) ==> is_space(#[trigger] s[k]),
        skip_space(s, i) < s.len() ==> !is_space(s[skip_space(s, i)]),
    decreases s.len() - i,
{
    if i < s.len() && is_space(s[i]) {
        lemma_skip_space(s, i + 1);
    }
}

pub proof fn lemma_next_space(s: Seq<char>, i: int)
    requires
        0 <= i <= s.len(),
    ensures
        i <= next_space(s, i) <= s.len(),
        forall|k: int| i <= k < next_space(s, i) ==> !is_space(#[trigger] s[k]),
        next_space(s, i) < s.len() ==> is_space(s[next_space(s, i)]),
    decreases s.len() - i,
{
    if i < s.len() && !is_space(s[i]) {
        lemma_next_space(s, i + 1);
    }
}

pub proof fn lemma_trim_back(s: Seq<char>, lo: int, j: int)
    requires
        0 <= lo <= j <= s.len(),
    ensures
        lo <= trim_back(s, lo, j) <= j,
        forall|k: int| trim_back(s, lo, j) <= k < j ==> is_space(#[trigger] s[k]),
        trim_back(s, lo, j) > lo ==> !is_space(s[trim_back(s, lo, j) - 1]),
    decreases j - lo,
{
    if lo < j && is_space(s[j - 1]) {
        lemma_trim_back(s, lo, j - 1);
    }
}

/// `skip_space(s, i)`, computed.
pub fn skip_space_at(s: &[char], i: usize) -> (r: usize)
    requires
        i <= s@.len(),
    ensures
        r == skip_space(s@, i as int),
        i <= r <= s@.len(),
{
    let mut j = i;
    while j < s.len() && is_whitespace(s[j])
        invariant
            i <= j <= s@.len(),
            skip_space(s@, j as int) == skip_space(s@, i as int),
        decreases s.len() - j,
    {
        j = j + 1;
    }
    j
}

/// `next_space(s, i)`, computed.
pub fn next_space_at(s: &[char], i: usize) -> (r: usize)
    requires
        i <= s@.len(),
    ensures
        r == next_space(s@, i as int),
        i <= r <= s@.len(),
{
    let mut j = i;
    while j < s.len() && !is_whitespace(s[j])
        invariant
            i <= j <= s@.len(),
            next_space(s@, j as int) == next_space(s@, i as int),
        decreases s.len() - j,
    {
        j = j + 1;
    }
    j
}

/// `trim_back(s, lo, j)`, computed.
pub fn trim_back_at(s: &[char], lo: usize, j: usize) -> (r: usize)
    requires
        lo <= j <= s@.len(),
    ensures
        r == trim_back(s@, lo as int, j as int),
        lo <= r <= j,
{
    let mut k = j;
    while k > lo && is_whitespace(s[k - 1])
        invariant
            lo <= k <= j <= s@.len(),
            trim_back(s@, lo as int, k as int) == trim_back(s@, lo as int, j as int),
        decreases k,
    {
        k = k - 1;
    }
    k
}

/// `str::trim`, on characters.
pub fn trim_chars(s: &[char]) -> (r: Vec<char>)
    ensures
        r@ == trim(s@),
{
    let a = skip_space_at(s, 0);
    let b = trim_back_at(s, a, s.len());
    copy_range(s, a, b)
}

/// End of the run of ASCII digits starting at `i`.
pub open spec fn digit_end(s: Seq<char>, i: int) -> int
    decreases s.len() - i,
{
    if 0 <= i < s.len() && is_ascii_digit(s[i]) {
        digit_end(s, i + 1)
    } else {
        i
    }
}

pub proof fn lemma_digit_end(s: Seq<char>, i: int)
    requires
        0 <= i <= s.len(),
    ensures
        i <= digit_end(s, i) <= s.len(),
        forall|k: int| i <= k < digit_end(s, i) ==> is_ascii_digit(#[trigger] s[k]),
    decreases s.len() - i,
{
    if i < s.len() && is_ascii_digit(s[i]) {
        lemma_digit_end(s, i + 1);
    }
}

/// `digit_end(s, i)`, computed.
pub fn digit_end_at(s: &[char], i: usize) -> (r: usize)
    requires
        i <= s@.len(),
    ensures
        r == digit_end(s@, i as int),
        i <= r <= s@.len(),
{
    let mut j = i;
    while j < s.len() && '0' <= s[j] && s[j] <= '9'
        invariant
            i <= j <= s@.len(),
            digit_end(s@, j as int) == digit_end(s@, i as int),
        decreases s.len() - j,
    {
        j = j + 1;
    }
    j
}

/// The number that a string of ASCII digits spells in decimal.
pub open spec fn decimal(d: Seq<char>) -> nat
    decreases d.len(),
{
    if d.len() == 0 {
        0
    } else {
        decimal(d.drop_last()) * 10 + (d.last() as int - '0' as int) as nat
    }
}

/// A longer string of digits never spells a smaller number.
pub proof fn lemma_decimal_prefix(d: Seq<char>, k: int)
    requires
        0 <= k <= d.len(),
        forall|j: int| 0 <= j < d.len() ==> is_ascii_digit(#[trigger] d[j]),
    ensures
        decimal(d.take(k)) <= decimal(d),
    decreases d.len(),
{
    if k < d.len() {
        assert(d.drop_last().take(k) =~= d.take(k));
        lemma_decimal_prefix(d.drop_last(), k);
    } else {
        assert(d.take(k) =~= d);
    }
}


/// `s[i..]` is a non-empty run of ASCII digits.
pub open spec fn all_digits_from(s: Seq<char>, i: int) -> bool {
    0 <= i < s.len() && digit_end(s, i) == s.len()
}

/// The text of an unsigned integer as `str::parse` reads it: an optional `+`
/// and at least one ASCII digit, nothing else. Its value, if that is the text.
pub open spec fn unsigned_text(s: Seq<char>) -> Option<nat> {
    let a: int = if s.len() > 0 && s[0] == '+' {
        1
    } else {
        0
    };
    if all_digits_from(s, a) {
        Some(decimal(s.subrange(a, s.len() as int)))
    } else {
        None
    }
}

/// The text of a signed integer as `str::parse` reads it: an optional `+` or
/// `-` and at least one ASCII digit. Its value, if that is the text.
pub open spec fn signed_text(s: Seq<char>) -> Option<int> {
    let a: int = if s.len() > 0 && (s[0] == '+' || s[0] == '-') {
        1
    } else {
        0
    };
    if all_digits_from(s, a) {
        let m = decimal(s.subrange(a, s.len() as int)) as int;
        Some(if a == 1 && s[0] == '-' { -m } else { m })
    } else {
        None
    }
}

/// Value of the digits `s[a..]`, or `None` when one is not a digit, there are
/// none, or the value passes `limit`.
fn digits_value(s: &[char], a: usize, limit: u64) -> (r: Option<u64>)
    requires
        a <= s@.len(),
    ensures
        match r {
            Some(v) => all_digits_from(s@, a as int) && v == decimal(s@.subrange(a as int, s@.len() as int)) && v <= limit,
            None => !all_digits_from(s@, a as int) || decimal(s@.subrange(a as int, s@.len() as int)) > limit,
        },
{
    let n = s.len();
    let e = digit_end_at(s, a);
    if e == a || e != n {
        return None;
    }
    proof {
        lemma_digit_end(s@, a as int);
    }
    let mut k = a;
    let mut value: u64 = 0;
    while k < n
        invariant
            n == s@.len(),
            a <= k <= n,
            forall|j: int| a <= j < n ==> is_ascii_digit(#[trigger] s@[j]),
            value == decimal(s@.subrange(a as int, k as int)),
            value <= limit,
        decreases n - k,
    {
        let digit = (s[k] as u32 - '0' as u32) as u64;
        let ghost d = s@.subrange(a as int, k + 1);
        assert(d.drop_last() =~= s@.subrange(a as int, k as int));
        if digit > limit || value > (limit - digit) / 10 {
            proof {
                assert(value * 10 + digit > limit) by (nonlinear_arith)
                    requires
                        digit > limit || value > (limit - digit) / 10,
                        value >= 0,
                ;
                let full = s@.subrange(a as int, n as int);
                assert forall|j: int| 0 <= j < full.len() implies is_ascii_digit(
                    #[trigger] full[j],
                ) by {
                    assert(full[j] == s@[a + j]);
                }
                assert(full.take(k + 1 - a) =~= d);
                lemma_decimal_prefix(full, k + 1 - a);
            }
            return None;
        }
        proof {
            assert(value * 10 + digit <= limit) by (nonlinear_arith)
                requires
                    value <= (limit - digit) / 10,
                    digit <= limit,
            ;
        }
        value = value * 10 + digit;
        k = k + 1;
    }
    Some(value)
}

/// `usize`'s `str::parse`.
pub fn parse_usize(s: &str) -> (r: Option<usize>)
    ensures
        match unsigned_text(s@) {
            Some(v) => if v <= usize::MAX {
                r == Some(v as usize)
            } else {
                r is None
            },
            None => r is None,
        },
{
    let c = chars_of(s);
    let a: usize = if c.len() > 0 && c[0] == '+' {
        1
    } else {
        0
    };
    match digits_value(c.as_slice(), a, usize::MAX as u64) {
        Some(v) => Some(v as usize),
        None => None,
    }
}

/// `i64`'s `str::parse`.
pub fn parse_i64(s: &str) -> (r: Option<i64>)
    ensures
        match signed_text(s@) {
            Some(v) => if i64::MIN <= v <= i64::MAX {
                r == Some(v as i64)
            } else {
                r is None
            },
            None => r is None,
        },
{
    let c = chars_of(s);
    let negative = c.len() > 0 && c[0] == '-';
    let a: usize = if c.len() > 0 && (c[0] == '+' || c[0] == '-') {
        1
    } else {
        0
    };
    let limit: u64 = if negative {
        0x8000_0000_0000_0000
    } else {
        0x7fff_ffff_ffff_ffff
    };
    match digits_value(c.as_slice(), a, limit) {
        Some(v) => if negative {
            if v == 0x8000_0000_0000_0000 {
                Some(i64::MIN)
            } else {
                Some(-(v as i64))
            }
        } else {
            Some(v as i64)
        },
        None => None,
    }
}

/// The decimal digits of `n`, without leading zeros (`0` is `"0"`).
pub open spec fn dec(n: nat) -> Seq<char>
    decreases n,
{
    if n < 10 {
        seq![(n + 48) as char]
    } else {
        dec(n / 10).push((n % 10 + 48) as char)
    }
}

/// Append the decimal digits of `n`.
pub fn push_decimal(out: &mut Vec<char>, n: u64)
    ensures
        final(out)@ == old(out)@ + dec(n as nat),
    decreases n,
{
    if n >= 10 {
        push_decimal(out, n / 10);
    }
    let d = (n % 10) as u8;
    out.push((d + 48u8) as char);
    proof {
        if n >= 10 {
            assert(old(out)@ + dec((n / 10) as nat) + seq![((n % 10) as nat + 48) as char] =~= old(
                out,
            )@ + dec(n as nat));
        } else {
            assert(old(out)@ + seq![(n as nat + 48) as char] =~= old(out)@ + dec(n as nat));
        }
    }
}

/// The decimal digits of an integer, with a leading `-` when it is negative.
pub open spec fn sdec(v: int) -> Seq<char> {
    if v < 0 {
        seq!['-'] + dec((-v) as nat)
    } else {
        dec(v as nat)
    }
}

/// Append the decimal digits of `v`, after a `-` when it is negative.
pub fn push_signed(out: &mut Vec<char>, v: i64)
    ensures
        final(out)@ == old(out)@ + sdec(v as int),
{
    if v < 0 {
        out.push('-');
        let mag: u64 = if v == i64::MIN {
            0x8000_0000_0000_0000
        } else {
            (-v) as u64
        };
        push_decimal(out, mag);
        assert(old(out)@.push('-') + dec(mag as nat) =~= old(out)@ + sdec(v as int));
    } else {
        push_decimal(out, v as u64);
    }
}

/// `dec(n)` is a non-empty run of ASCII digits.
pub proof fn lemma_dec_digits(n: nat)
    ensures
        dec(n).len() >= 1,
        forall|k: int| 0 <= k < dec(n).len() ==> is_ascii_digit(#[trigger] dec(n)[k]),
    decreases n,
{
    if n >= 10 {
        lemma_dec_digits(n / 10);
        assert forall|k: int| 0 <= k < dec(n).len() implies is_ascii_digit(#[trigger] dec(n)[k]) by {
            if k < dec(n / 10).len() {
                assert(dec(n)[k] == dec(n / 10)[k]);
            }
        }
    }
}

/// `decimal` reads back what `dec` writes.
pub proof fn lemma_decimal_dec(n: nat)
    ensures
        decimal(dec(n)) == n,
    decreases n,
{
    if n >= 10 {
        lemma_decimal_dec(n / 10);
        assert(dec(n).drop_last() =~= dec(n / 10));
        let c = ((n % 10 + 48) as char);
        assert(dec(n).last() == c);
        assert(c as int == n % 10 + 48);
        assert((n / 10) * 10 + n % 10 == n) by (nonlinear_arith);
        assert(decimal(dec(n)) == decimal(dec(n / 10)) * 10 + (c as int - '0' as int) as nat);
        assert('0' as int == 48);
        assert(decimal(dec(n)) == n);
    } else {
        let c = ((n + 48) as char);
        assert(dec(n).last() == c);
        assert(dec(n).drop_last() =~= Seq::<char>::empty());
        assert(c as int == n + 48);
        assert(decimal(dec(n)) == decimal(dec(n).drop_last()) * 10 + (c as int - '0' as int) as nat);
        assert(decimal(dec(n)) == n);
    }
}

/// A run of digits from `i` to the end of `s` is where `digit_end` stops.
pub proof fn lemma_digit_end_all(s: Seq<char>, i: int)
    requires
        0 <= i <= s.len(),
        forall|k: int| i <= k < s.len() ==> is_ascii_digit(#[trigger] s[k]),
    ensures
        digit_end(s, i) == s.len(),
    decreases s.len() - i,
{
    if i < s.len() {
        lemma_digit_end_all(s, i + 1);
    }
}

/// Digits from `i` up to `j`, then no digit: `digit_end` stops at `j`.
pub proof fn lemma_digit_end_at(s: Seq<char>, i: int, j: int)
    requires
        0 <= i <= j <= s.len(),
        forall|k: int| i <= k < j ==> is_ascii_digit(#[trigger] s[k]),
        j < s.len() ==> !is_ascii_digit(s[j]),
    ensures
        digit_end(s, i) == j,
    decreases j - i,
{
    if i < j {
        lemma_digit_end_at(s, i + 1, j);
    }
}

/// The decimal text of an integer reads back as that integer, and has no
/// whitespace around it.
pub proof fn lemma_sdec_reads_back(v: int)
    ensures
        signed_text(sdec(v)) == Some(v),
        trim(sdec(v)) == sdec(v),
        v >= 0 ==> unsigned_text(sdec(v)) == Some(v as nat),
{
    let d = sdec(v);
    let m: nat = if v < 0 { (-v) as nat } else { v as nat };
    lemma_dec_digits(m);
    lemma_decimal_dec(m);
    let a: int = if v < 0 { 1 } else { 0 };
    assert forall|k: int| a <= k < d.len() implies is_ascii_digit(#[trigger] d[k]) by {
        assert(d[k] == dec(m)[k - a]);
    }
    lemma_digit_end_all(d, a);
    assert(d.subrange(a, d.len() as int) =~= dec(m));
    assert(is_ascii_digit(d[d.len() - 1]));
    assert(!is_space(d[d.len() - 1]));
    assert(!is_space(d[0]));
    assert(skip_space(d, 0) == 0);
    assert(trim_back(d, 0, d.len() as int) == d.len());
    assert(d.subrange(0, d.len() as int) =~= d);
}

/// `needle` occurs in `hay`.
pub open spec fn contains(hay: Seq<char>, needle: Seq<char>) -> bool {
    exists|i: int| 0 <= i <= hay.len() - needle.len() && #[trigger] hay.subrange(i, i + needle.len()) == needle
}

/// `str::contains` for a string pattern, on characters.
pub fn contains_chars(hay: &[char], needle: &[char]) -> (r: bool)
    ensures
        r == contains(hay@, needle@),
{
    let n = hay.len();
    let m = needle.len();
    if m > n {
        assert forall|i: int| 0 <= i <= hay@.len() - needle@.len() implies #[trigger] hay@.subrange(i, i + needle@.len()) != needle@ by {}
        return false;
    }
    let mut i: usize = 0;
    while i <= n - m
        invariant
            n == hay@.len(),
            m == needle@.len(),
            m <= n,
            i <= n - m + 1,
            forall|j: int| 0 <= j < i ==> #[trigger] hay@.subrange(j, j + m) != needle@,
        decreases n - m + 1 - i,
    {
        let mut k: usize = 0;
        while k < m && hay[i + k] == needle[k]
            invariant
                n == hay@.len(),
                m == needle@.len(),
                i + m <= n,
                k <= m,
                forall|j: int| 0 <= j < k ==> hay@[i + j] == #[trigger] needle@[j],
            decreases m - k,
        {
            k = k + 1;
        }
        if k == m {
            assert(hay@.subrange(i as int, i + m) =~= needle@);
            return true;
        }
        assert(hay@.subrange(i as int, i + m)[k as int] != needle@[k as int]);
        i = i + 1;
    }
    false
}

/// What `str::to_lowercase` makes of a text (Unicode lowercase mapping).
pub uninterp spec fn lowercase(s: Seq<char>) -> Seq<char>;

/// `str::to_lowercase`: the result depends on the text alone.
#[verifier::external_body]
pub fn to_lowercase(s: &str) -> (r: String)
    ensures
        r@ == lowercase(s@),
{
    s.to_lowercase()
}

/// `==` on string slices: the same characters.
pub fn str_eq(a: &str, b: &str) -> (r: bool)
    ensures
        r == (a@ == b@),
{
    let x = chars_of(a);
    let y = chars_of(b);
    chars_equal(x.as_slice(), y.as_slice())
}

/// Two character sequences are the same.
pub fn chars_equal(a: &[char], b: &[char]) -> (r: bool)
    ensures
        r == (a@ == b@),
{
    if a.len() != b.len() {
        return false;
    }
    let mut k: usize = 0;
    while k < a.len()
        invariant
            a@.len() == b@.len(),
            k <= a@.len(),
            forall|n: int| 0 <= n < k ==> a@[n] == #[trigger] b@[n],
        decreases a.len() - k,
    {
        if a[k] != b[k] {
            return false;
        }
        k = k + 1;
    }
    assert(a@ =~= b@);
    true
}

} // verus!
