use vstd::prelude::*;

verus! {

/// The decimal digit character for `d` (0 <= d < 10).
pub open spec fn digit_char(d: int) -> char {
    ('0' as int + d) as char
}

/// Whether `c` is one of the ASCII digits '0'..='9'.
pub open spec fn is_digit(c: char) -> bool {
    '0' <= c && c <= '9'
}

/// The decimal form of `n`, without sign or leading zeros.
pub open spec fn decimal(n: nat) -> Seq<char>
    decreases n,
{
    if n < 10 {
        seq![digit_char(n as int)]
    } else {
        decimal(n / 10) + seq![digit_char((n % 10) as int)]
    }
}

/// The number that a sequence of ASCII digits denotes (most significant
/// first); the empty sequence denotes 0.
pub open spec fn digits_value(s: Seq<char>) -> nat
    decreases s.len(),
{
    if s.len() == 0 {
        0
    } else {
        digits_value(s.drop_last()) * 10 + (s.last() as int - '0' as int) as nat
    }
}

/// Whether `s` is a nonempty run of ASCII digits.
pub open spec fn all_digits(s: Seq<char>) -> bool {
    s.len() > 0 && forall|i: int| 0 <= i < s.len() ==> is_digit(#[trigger] s[i])
}

/// The digits of an unsigned number in text: an optional leading '+'
/// dropped.
pub open spec fn unsigned_digits(s: Seq<char>) -> Seq<char> {
    if s.len() > 0 && s[0] == '+' {
        s.drop_first()
    } else {
        s
    }
}

/// What parsing `s` as a `usize` in decimal gives: an optional '+', then
/// at least one ASCII digit and nothing else, of a value that fits.
pub open spec fn spec_parse_usize(s: Seq<char>) -> Option<usize> {
    let d = unsigned_digits(s);
    if all_digits(d) && digits_value(d) <= usize::MAX {
        Some(digits_value(d) as usize)
    } else {
        None
    }
}

/// What parsing `s` as an `i8` in decimal gives: an optional '+' or '-',
/// then at least one ASCII digit and nothing else, of a value in -128..=127.
pub open spec fn spec_parse_i8(s: Seq<char>) -> Option<i8> {
    let neg = s.len() > 0 && s[0] == '-';
    let d = if s.len() > 0 && (s[0] == '-' || s[0] == '+') {
        s.drop_first()
    } else {
        s
    };
    if all_digits(d) && neg && digits_value(d) <= 128 {
        Some((0 - digits_value(d)) as i8)
    } else if all_digits(d) && !neg && digits_value(d) <= 127 {
        Some(digits_value(d) as i8)
    } else {
        None
    }
}

/// The one-character text of a decimal digit.
fn digit_str(d: usize) -> (s: &'static str)
    requires
        d < 10,
    ensures
        s@ == seq![digit_char(d as int)],
{
    proof {
        reveal_strlit("0");
        reveal_strlit("1");
        reveal_strlit("2");
        reveal_strlit("3");
        reveal_strlit("4");
        reveal_strlit("5");
        reveal_strlit("6");
        reveal_strlit("7");
        reveal_strlit("8");
        reveal_strlit("9");
    }
    if d == 0 {
        "0"
    } else if d == 1 {
        "1"
    } else if d == 2 {
        "2"
    } else if d == 3 {
        "3"
    } else if d == 4 {
        "4"
    } else if d == 5 {
        "5"
    } else if d == 6 {
        "6"
    } else if d == 7 {
        "7"
    } else if d == 8 {
        "8"
    } else {
        "9"
    }
}

/// Appends the decimal form of `n` to `out`.
pub fn push_decimal(n: usize, out: &mut String)
    ensures
        final(out)@ == old(out)@ + decimal(n as nat),
    decreases n,
{
    if n >= 10 {
        push_decimal(n / 10, out);
    }
    out.append(digit_str(n % 10));
    proof {
        if n >= 10 {
            assert(old(out)@ + decimal(n as nat) == old(out)@ + decimal((n / 10) as nat) + seq![
                digit_char((n % 10) as int),
            ]);
        }
    }
}

/// The decimal form of `n`, as `n.to_string()` writes it.
pub fn usize_to_string(n: usize) -> (s: String)
    ensures
        s@ == decimal(n as nat),
{
    let mut s = String::new();
    push_decimal(n, &mut s);
    proof {
        assert(Seq::<char>::empty() + decimal(n as nat) == decimal(n as nat));
    }
    s
}

/// Whether two texts are the same.
pub fn str_eq(a: &str, b: &str) -> (r: bool)
    ensures
        r == (a@ == b@),
{
    let n = a.unicode_len();
    if n != b.unicode_len() {
        return false;
    }
    let mut i: usize = 0;
    while i < n
        invariant
            n == a@.len(),
            n == b@.len(),
            i <= n,
            forall|j: int| 0 <= j < i ==> a@[j] == b@[j],
        decreases n - i,
    {
        if a.get_char(i) != b.get_char(i) {
            return false;
        }
        i = i + 1;
    }
    proof {
        assert(a@ =~= b@);
    }
    true
}

/// The value of the digits of `s` from position `start` on, if they are all
/// ASCII digits, there is at least one, and the value is at most `limit`.
fn digits_from(s: &str, start: usize, limit: usize) -> (r: Option<usize>)
    requires
        start <= s@.len(),
    ensures
        r == (if all_digits(s@.skip(start as int)) && digits_value(s@.skip(start as int)) <= limit {
            Some(digits_value(s@.skip(start as int)) as usize)
        } else {
            None
        }),
{
    let n = s.unicode_len();
    if start == n {
        return None;
    }
    let ghost d = s@.skip(start as int);
    let mut acc: usize = 0;
    let mut over = false;
    let mut i: usize = start;
    while i < n
        invariant
            n == s@.len(),
            start < n,
            start <= i <= n,
            d == s@.skip(start as int),
            forall|j: int| start <= j < i ==> is_digit(#[trigger] s@[j]),
            !over ==> acc == digits_value(d.subrange(0, i - start)) && acc <= limit,
            over ==> digits_value(d.subrange(0, i - start)) > limit,
        decreases n - i,
    {
        let c = s.get_char(i);
        if !('0' <= c && c <= '9') {
            proof {
                assert(!is_digit(d[i - start]));
            }
            return None;
        }
        let digit = (c as u32 - '0' as u32) as usize;
        proof {
            assert(d.subrange(0, i + 1 - start).drop_last() == d.subrange(0, i - start));
            assert(d.subrange(0, i + 1 - start).last() == c);
        }
        proof {
            assert(digits_value(d.subrange(0, i + 1 - start)) == digits_value(
                d.subrange(0, i - start),
            ) * 10 + digit);
        }
        if !over {
            if digit > limit || acc > (limit - digit) / 10 {
                over = true;
                assert(acc * 10 + digit > limit) by (nonlinear_arith)
                    requires
                        digit > limit || acc > (limit - digit) / 10,
                        acc >= 0,
                ;
            } else {
                assert(acc * 10 + digit <= limit) by (nonlinear_arith)
                    requires
                        acc <= (limit - digit) / 10,
                        digit < 10,
                ;
                acc = acc * 10 + digit;
            }
        } else {
            let ghost x = digits_value(d.subrange(0, i - start));
            assert(x * 10 + digit > limit) by (nonlinear_arith)
                requires
                    x > limit,
                    limit >= 0,
            ;
        }
        i = i + 1;
    }
    proof {
        assert(d.subrange(0, i - start) == d);
    }
    if over {
        None
    } else {
        Some(acc)
    }
}

/// Parses `s` as Rust's `str::parse::<usize>` does; `None` where that fails.
pub fn parse_usize(s: &str) -> (r: Option<usize>)
    ensures
        r == spec_parse_usize(s@),
{
    let n = s.unicode_len();
    let start: usize = if n > 0 && s.get_char(0) == '+' {
        1
    } else {
        0
    };
    proof {
        assert(unsigned_digits(s@) == s@.skip(start as int));
    }
    digits_from(s, start, usize::MAX)
}

/// Parses `s` as Rust's `str::parse::<i8>` does; `None` where that fails.
pub fn parse_i8(s: &str) -> (r: Option<i8>)
    ensures
        r == spec_parse_i8(s@),
{
    let n = s.unicode_len();
    let neg = n > 0 && s.get_char(0) == '-';
    let start: usize = if n > 0 && (s.get_char(0) == '-' || s.get_char(0) == '+') {
        1
    } else {
        0
    };
    proof {
        let d = if s@.len() > 0 && (s@[0] == '-' || s@[0] == '+') {
            s@.drop_first()
        } else {
            s@
        };
        assert(d == s@.skip(start as int));
    }
    let limit: usize = if neg {
        128
    } else {
        127
    };
    match digits_from(s, start, limit) {
        Some(v) => {
            if neg {
                Some((0 - (v as i16)) as i8)
            } else {
                Some(v as i8)
            }
        },
        None => None,
    }
}

/// Whether `c` has the Unicode White_Space property (as `char::is_whitespace`
/// tests): U+0009..=U+000D, U+0020, U+0085, U+00A0, U+1680, U+2000..=U+200A,
/// U+2028, U+2029, U+202F, U+205F and U+3000.
pub open spec fn is_space(c: char) -> bool {
    let u = c as u32;
    ||| 0x9 <= u <= 0xd
    ||| u == 0x20
    ||| u == 0x85
    ||| u == 0xa0
    ||| u == 0x1680
    ||| 0x2000 <= u <= 0x200a
    ||| u == 0x2028
    ||| u == 0x2029
    ||| u == 0x202f
    ||| u == 0x205f
    ||| u == 0x3000
}

/// `s[a..b]` is `s` without its leading and trailing white space.
pub open spec fn trim_bounds(s: Seq<char>, a: int, b: int) -> bool {
    &&& 0 <= a <= b <= s.len()
    &&& forall|i: int| 0 <= i < a ==> is_space(#[trigger] s[i])
    &&& forall|i: int| b <= i < s.len() ==> is_space(#[trigger] s[i])
    &&& a < b ==> !is_space(s[a]) && !is_space(s[b - 1])
}

/// `s` without leading and trailing white space, as `str::trim` gives it.
pub open spec fn trimmed(s: Seq<char>) -> Seq<char> {
    let (a, b) = choose|a: int, b: int| trim_bounds(s, a, b);
    s.subrange(a, b)
}

/// Any two ways of trimming `s` give the same text.
proof fn lemma_trim_unique(s: Seq<char>, a: int, b: int, c: int, d: int)
    requires
        trim_bounds(s, a, b),
        trim_bounds(s, c, d),
    ensures
        s.subrange(a, b) == s.subrange(c, d),
{
    if a < b {
        if c < a {
            assert(is_space(s[c]));
        }
        if a < c {
            assert(is_space(s[a]));
        }
        if d < b {
            assert(is_space(s[b - 1]));
        }
        if b < d {
            assert(is_space(s[d - 1]));
        }
    } else if c < d {
        if c < a {
            assert(is_space(s[c]));
        } else {
            assert(is_space(s[c]));
        }
    }
}

/// Whether `c` is white space, as `char::is_whitespace` tells.
pub fn is_space_char(c: char) -> (r: bool)
    ensures
        r == is_space(c),
{
    let u = c as u32;
    (0x9 <= u && u <= 0xd) || u == 0x20 || u == 0x85 || u == 0xa0 || u == 0x1680 || (0x2000 <= u
        && u <= 0x200a) || u == 0x2028 || u == 0x2029 || u == 0x202f || u == 0x205f || u == 0x3000
}

/// `s` without leading and trailing white space (`str::trim`).
pub fn trim(s: &str) -> (r: &str)
    ensures
        r@ == trimmed(s@),
{
    let n = s.unicode_len();
    let mut a: usize = 0;
    while a < n && is_space_char(s.get_char(a))
        invariant
            n == s@.len(),
            a <= n,
            forall|i: int| 0 <= i < a ==> is_space(#[trigger] s@[i]),
        decreases n - a,
    {
        a = a + 1;
    }
    let mut b: usize = n;
    while b > a && is_space_char(s.get_char(b - 1))
        invariant
            n == s@.len(),
            a <= b <= n,
            forall|i: int| 0 <= i < a ==> is_space(#[trigger] s@[i]),
            forall|i: int| b <= i < n ==> is_space(#[trigger] s@[i]),
            a < n ==> !is_space(s@[a as int]),
        decreases b - a,
    {
        b = b - 1;
    }
    proof {
        assert(trim_bounds(s@, a as int, b as int));
        let (c, d) = choose|c: int, d: int| trim_bounds(s@, c, d);
        lemma_trim_unique(s@, a as int, b as int, c, d);
    }
    s.substring_char(a, b)
}

/// Where the first `sep` in `s` stands, if anywhere.
pub open spec fn first_sep(s: Seq<char>, sep: char, i: int) -> bool {
    0 <= i < s.len() && s[i] == sep && forall|j: int| 0 <= j < i ==> #[trigger] s[j] != sep
}

/// The first piece of `s.splitn(2, sep)`: `s` up to the first `sep`.
pub open spec fn split_head(s: Seq<char>, sep: char) -> Seq<char> {
    if exists|i: int| first_sep(s, sep, i) {
        s.take(choose|i: int| first_sep(s, sep, i))
    } else {
        s
    }
}

/// The second piece of `s.splitn(2, sep)`, if there is one: `s` after the
/// first `sep`.
pub open spec fn split_tail(s: Seq<char>, sep: char) -> Option<Seq<char>> {
    if exists|i: int| first_sep(s, sep, i) {
        Some(s.skip((choose|i: int| first_sep(s, sep, i)) + 1))
    } else {
        None
    }
}

/// Splits `s` at its first `sep` into at most two pieces (`str::splitn(2,
/// sep)`).
pub fn split_once_at<'a>(s: &'a str, sep: char) -> (r: (&'a str, Option<&'a str>))
    ensures
        r.0@ == split_head(s@, sep),
        match r.1 {
            Some(t) => split_tail(s@, sep) == Some(t@),
            None => split_tail(s@, sep) is None,
        },
{
    let n = s.unicode_len();
    let mut i: usize = 0;
    while i < n
        invariant
            n == s@.len(),
            i <= n,
            forall|j: int| 0 <= j < i ==> #[trigger] s@[j] != sep,
        decreases n - i,
    {
        if s.get_char(i) == sep {
            proof {
                assert(first_sep(s@, sep, i as int));
                let c = choose|c: int| first_sep(s@, sep, c);
                if c < i {
                    assert(s@[c] != sep);
                }
                if i < c {
                    assert(s@[i as int] != sep);
                }
            }
            return (s.substring_char(0, i), Some(s.substring_char(i + 1, n)));
        }
        i = i + 1;
    }
    proof {
        assert(s@.subrange(0, n as int) == s@);
    }
    (s.substring_char(0, n), None)
}

/// The text `format!("{:?}", s)` writes for a string: quoted, with special
/// characters escaped as `str`'s `Debug` escapes them.
pub uninterp spec fn debug_quoted(s: Seq<char>) -> Seq<char>;

/// The `Debug` form of a string (`format!("{:?}", s)`). Claimed of it: the
/// result is `debug_quoted(s)`, a function of the text alone; what the
/// quoting and escaping are is left to std.
#[verifier::external_body]
pub(crate) fn debug_string(s: &str) -> (r: String)
    ensures
        r@ == debug_quoted(s@),
{
    format!("{:?}", s)
}

/// The digit character for `k` is a digit of value `k`.
proof fn lemma_digit_char(k: int)
    requires
        0 <= k < 10,
    ensures
        digit_char(k) as int - '0' as int == k,
        is_digit(digit_char(k)),
{
    assert('0' as int == 48);
    assert(digit_char(k) as int == 48 + k);
}

/// The decimal form of `n` is a run of digits that denotes `n`.
pub proof fn lemma_decimal_digits(n: nat)
    ensures
        all_digits(decimal(n)),
        digits_value(decimal(n)) == n,
    decreases n,
{
    lemma_digit_char((n % 10) as int);
    if n < 10 {
        let d = decimal(n);
        assert(d.drop_last() =~= Seq::<char>::empty());
        assert(digits_value(Seq::<char>::empty()) == 0);
        assert(d.last() == digit_char(n as int));
        assert(digits_value(d) == digits_value(d.drop_last()) * 10 + (d.last() as int - '0' as int) as nat);
    } else {
        lemma_decimal_digits(n / 10);
        let d = decimal(n);
        assert(d.drop_last() =~= decimal(n / 10));
        assert(d.last() == digit_char((n % 10) as int));
        assert(digits_value(d) == digits_value(d.drop_last()) * 10 + (d.last() as int - '0' as int) as nat);
        assert(forall|i: int| 0 <= i < d.len() ==> is_digit(#[trigger] d[i])) by {
            assert forall|i: int| 0 <= i < d.len() implies is_digit(#[trigger] d[i]) by {
                if i < d.len() - 1 {
                    assert(d[i] == decimal(n / 10)[i]);
                }
            }
        }
        assert(n == (n / 10) * 10 + n % 10);
    }
}

/// Parsing the decimal form of a `usize` gives the number back.
pub proof fn lemma_parse_usize_decimal(n: usize)
    ensures
        spec_parse_usize(decimal(n as nat)) == Some(n),
{
    lemma_decimal_digits(n as nat);
    let d = decimal(n as nat);
    assert(is_digit(d[0]));
    assert(unsigned_digits(d) == d);
}

/// Different numbers have different decimal forms.
pub proof fn lemma_decimal_injective(a: nat, b: nat)
    requires
        a != b,
    ensures
        decimal(a) != decimal(b),
{
    lemma_decimal_digits(a);
    lemma_decimal_digits(b);
}

/// The first position at or after `x` that holds no white space, or the
/// length of `s`.
proof fn skip_space_from(s: Seq<char>, x: int) -> (r: int)
    requires
        0 <= x <= s.len(),
        forall|i: int| 0 <= i < x ==> is_space(#[trigger] s[i]),
    ensures
        x <= r <= s.len(),
        forall|i: int| 0 <= i < r ==> is_space(#[trigger] s[i]),
        r < s.len() ==> !is_space(s[r]),
    decreases s.len() - x,
{
    if x < s.len() && is_space(s[x]) {
        skip_space_from(s, x + 1)
    } else {
        x
    }
}

/// The end of the last run of non-white-space at or before `y`, not before
/// `x`.
proof fn skip_space_back(s: Seq<char>, x: int, y: int) -> (r: int)
    requires
        0 <= x <= y <= s.len(),
        forall|i: int| y <= i < s.len() ==> is_space(#[trigger] s[i]),
    ensures
        x <= r <= y,
        forall|i: int| r <= i < s.len() ==> is_space(#[trigger] s[i]),
        r > x ==> !is_space(s[r - 1]),
    decreases y - x,
{
    if y > x && is_space(s[y - 1]) {
        skip_space_back(s, x, y - 1)
    } else {
        y
    }
}

/// Every text can be trimmed.
proof fn lemma_trim_exists(s: Seq<char>) -> (r: (int, int))
    ensures
        trim_bounds(s, r.0, r.1),
        trimmed(s) == s.subrange(r.0, r.1),
{
    let x = skip_space_from(s, 0);
    let y = skip_space_back(s, x, s.len() as int);
    assert(trim_bounds(s, x, y));
    let (a, b) = choose|a: int, b: int| trim_bounds(s, a, b);
    lemma_trim_unique(s, a, b, x, y);
    (x, y)
}

/// Trimming a trimmed text changes nothing.
pub proof fn lemma_trim_idempotent(s: Seq<char>)
    ensures
        trimmed(trimmed(s)) == trimmed(s),
{
    let (x, y) = lemma_trim_exists(s);
    let t = s.subrange(x, y);
    assert(trim_bounds(t, 0, t.len() as int));
    let (c, d) = lemma_trim_exists(t);
    lemma_trim_unique(t, 0, t.len() as int, c, d);
    assert(t.subrange(0, t.len() as int) == t);
}

/// A text that neither starts nor ends with white space is its own trim.
pub proof fn lemma_trimmed_bare(s: Seq<char>)
    requires
        s.len() > 0,
        !is_space(s[0]),
        !is_space(s[s.len() - 1]),
    ensures
        trimmed(s) == s,
{
    let (x, y) = lemma_trim_exists(s);
    assert(trim_bounds(s, 0, s.len() as int));
    lemma_trim_unique(s, 0, s.len() as int, x, y);
    assert(s.subrange(0, s.len() as int) == s);
}

/// Split at `sep`, a word without `sep` followed by `sep` and a rest gives
/// back the word and the rest.
pub proof fn lemma_split_word(word: Seq<char>, sep: char, rest: Seq<char>)
    requires
        forall|i: int| 0 <= i < word.len() ==> #[trigger] word[i] != sep,
    ensures
        split_head(word.push(sep) + rest, sep) == word,
        split_tail(word.push(sep) + rest, sep) == Some(rest),
{
    let s = word.push(sep) + rest;
    let k = word.len() as int;
    assert(first_sep(s, sep, k));
    let c = choose|c: int| first_sep(s, sep, c);
    if c < k {
        assert(s[c] == word[c]);
    }
    if k < c {
        assert(s[k] != sep);
    }
    assert(s.take(k) =~= word);
    assert(s.skip(k + 1) =~= rest);
}

} // verus!
