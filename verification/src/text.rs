//! Character-level helpers shared by every module that builds text.

use vstd::prelude::*;

verus! {

/// The characters of `s`, in order.
pub fn chars_of(s: &str) -> (r: Vec<char>)
    ensures
        r@ == s@,
{
    let mut out: Vec<char> = Vec::new();
    for c in it: s.chars()
        invariant
            out@ == it.seq().take(it.index() as int),
            it.seq() == s@,
    {
        out.push(c);
    }
    out
}

/// Appends one character; calls `String::push`, which appends the character
/// at the end of the string and changes nothing else.
#[verifier::external_body]
pub(crate) fn push_char(s: &mut String, c: char)
    ensures
        final(s)@ == old(s)@.push(c),
{
    s.push(c);
}

/// Appends every character of `v` to `out`.
pub fn push_chars(out: &mut String, v: &[char])
    ensures
        final(out)@ == old(out)@ + v@,
{
    let ghost start = out@;
    let mut i: usize = 0;
    while i < v.len()
        invariant
            i <= v@.len(),
            out@ == start + v@.take(i as int),
        decreases v@.len() - i,
    {
        push_char(out, v[i]);
        assert(v@.take(i as int + 1) == v@.take(i as int).push(v@[i as int]));
        i = i + 1;
    }
    assert(v@.take(v@.len() as int) == v@);
}

/// A string holding exactly the characters of `v`.
pub fn string_of(v: &[char]) -> (r: String)
    ensures
        r@ == v@,
{
    let mut out = String::new();
    push_chars(&mut out, v);
    out
}

/// Appends `s` to `out`.
pub fn push_str(out: &mut String, s: &str)
    ensures
        final(out)@ == old(out)@ + s@,
{
    out.append(s);
}

/// Whether two character sequences are equal.
pub fn chars_eq(a: &[char], b: &[char]) -> (r: bool)
    ensures
        r == (a@ == b@),
{
    if a.len() != b.len() {
        return false;
    }
    let mut i: usize = 0;
    while i < a.len()
        invariant
            a@.len() == b@.len(),
            i <= a@.len(),
            forall|j: int| 0 <= j < i ==> a@[j] == b@[j],
        decreases a@.len() - i,
    {
        if a[i] != b[i] {
            return false;
        }
        i = i + 1;
    }
    assert(a@ =~= b@);
    true
}

/// Whether `s` equals the literal `lit`.
pub fn is_lit(s: &str, lit: &str) -> (r: bool)
    ensures
        r == (s@ == lit@),
{
    let a = chars_of(s);
    let b = chars_of(lit);
    chars_eq(a.as_slice(), b.as_slice())
}

/// The decimal digit `d` (taken modulo ten) as a character.
pub open spec fn digit_char(d: int) -> char {
    let d = d % 10;
    if d == 0 {
        '0'
    } else if d == 1 {
        '1'
    } else if d == 2 {
        '2'
    } else if d == 3 {
        '3'
    } else if d == 4 {
        '4'
    } else if d == 5 {
        '5'
    } else if d == 6 {
        '6'
    } else if d == 7 {
        '7'
    } else if d == 8 {
        '8'
    } else {
        '9'
    }
}

/// The decimal notation of `n`, without leading zeros.
pub open spec fn decimal(n: nat) -> Seq<char>
    decreases n,
{
    if n < 10 {
        seq![digit_char(n as int)]
    } else {
        decimal(n / 10).push(digit_char(n as int))
    }
}

/// The decimal notation of `n`, with a leading `-` when negative.
pub open spec fn signed_decimal(n: int) -> Seq<char> {
    if n < 0 {
        seq!['-'] + decimal((-n) as nat)
    } else {
        decimal(n as nat)
    }
}

fn digit(d: u64) -> (c: char)
    ensures
        c == digit_char(d as int),
{
    let d = d % 10;
    if d == 0 {
        '0'
    } else if d == 1 {
        '1'
    } else if d == 2 {
        '2'
    } else if d == 3 {
        '3'
    } else if d == 4 {
        '4'
    } else if d == 5 {
        '5'
    } else if d == 6 {
        '6'
    } else if d == 7 {
        '7'
    } else if d == 8 {
        '8'
    } else {
        '9'
    }
}

/// Appends the decimal notation of `n`.
pub fn push_decimal(out: &mut String, n: u64)
    ensures
        final(out)@ == old(out)@ + decimal(n as nat),
    decreases n,
{
    if n >= 10 {
        push_decimal(out, n / 10);
    }
    push_char(out, digit(n));
}

/// Appends the decimal notation of `n`, signed.
pub fn push_signed(out: &mut String, n: i64)
    ensures
        final(out)@ == old(out)@ + signed_decimal(n as int),
{
    if n < 0 {
        push_char(out, '-');
        let magnitude: u64 = if n == i64::MIN {
            9_223_372_036_854_775_808u64
        } else {
            (-n) as u64
        };
        push_decimal(out, magnitude);
    } else {
        push_decimal(out, n as u64);
    }
}

/// The decimal notation of `n`.
pub fn decimal_text(n: u64) -> (r: String)
    ensures
        r@ == decimal(n as nat),
{
    let mut out = String::new();
    push_decimal(&mut out, n);
    out
}

/// Lowercase hexadecimal digit for `d` in `0..16`.
pub open spec fn hex_char(d: int) -> char {
    if d < 10 {
        digit_char(d)
    } else if d == 10 {
        'a'
    } else if d == 11 {
        'b'
    } else if d == 12 {
        'c'
    } else if d == 13 {
        'd'
    } else if d == 14 {
        'e'
    } else {
        'f'
    }
}

/// A byte as two lowercase hexadecimal digits.
pub open spec fn hex2(b: u8) -> Seq<char> {
    seq![hex_char(b as int / 16), hex_char(b as int % 16)]
}

fn hex_digit(d: u8) -> (c: char)
    requires
        d < 16,
    ensures
        c == hex_char(d as int),
{
    if d < 10 {
        digit(d as u64)
    } else if d == 10 {
        'a'
    } else if d == 11 {
        'b'
    } else if d == 12 {
        'c'
    } else if d == 13 {
        'd'
    } else if d == 14 {
        'e'
    } else {
        'f'
    }
}

/// Appends `b` as two lowercase hexadecimal digits.
pub fn push_hex2(out: &mut String, b: u8)
    ensures
        final(out)@ == old(out)@ + hex2(b),
{
    let ghost start = out@;
    push_char(out, hex_digit(b / 16));
    push_char(out, hex_digit(b % 16));
    assert(out@ =~= start + hex2(b));
}

/// What `{:?}` prints for a string: the text in double quotes with Rust's
/// debug escapes applied.
pub uninterp spec fn debug_quoted(s: Seq<char>) -> Seq<char>;

/// `format!("{s:?}")`: the debug rendering of a string, used to quote
/// untrusted names inside messages. The escaping rules are std's own
/// (`char::escape_debug`); the contract ties the result to the argument only.
#[verifier::external_body]
pub(crate) fn debug_text(s: &str) -> (r: String)
    ensures
        r@ == debug_quoted(s@),
{
    format!("{s:?}")
}

/// First position of `x` in `v`.
pub open spec fn position_in<T>(v: Seq<T>, x: T) -> Option<int>
    decreases v.len(),
{
    if v.len() == 0 {
        None
    } else {
        match position_in(v.drop_last(), x) {
            Some(i) => Some(i),
            None => if v.last() == x {
                Some(v.len() - 1)
            } else {
                None
            },
        }
    }
}

/// What [`position_in`] means.
pub proof fn position_in_meaning<T>(v: Seq<T>, x: T)
    ensures
        match position_in(v, x) {
            Some(i) => 0 <= i < v.len() && v[i] == x && forall|j: int| 0 <= j < i ==> v[j] != x,
            None => !v.contains(x),
        },
    decreases v.len(),
{
    if v.len() > 0 {
        position_in_meaning(v.drop_last(), x);
        match position_in(v.drop_last(), x) {
            Some(i) => {
                assert(v[i] == v.drop_last()[i]);
                assert forall|j: int| 0 <= j < i implies v[j] != x by {
                    assert(v[j] == v.drop_last()[j]);
                }
            },
            None => {
                assert forall|j: int| 0 <= j < v.len() - 1 implies v[j] != x by {
                    assert(v[j] == v.drop_last()[j]);
                    if v[j] == x {
                        assert(v.drop_last().contains(x));
                    }
                }
            },
        }
    }
}

pub proof fn lemma_position_prefix<T>(v: Seq<T>, x: T, k: int)
    requires
        0 < k <= v.len(),
        position_in(v.take(k - 1), x) is None,
        v[k - 1] == x,
    ensures
        position_in(v, x) == Some(k - 1),
    decreases v.len(),
{
    if k < v.len() {
        assert(v.drop_last().take(k - 1) == v.take(k - 1));
        lemma_position_prefix(v.drop_last(), x, k);
    } else {
        assert(v.take(k - 1) == v.drop_last());
    }
}

/// First position of `c` in `v`.
pub fn first_char_position(v: &Vec<char>, c: char) -> (r: Option<usize>)
    ensures
        match position_in(v@, c) {
            Some(i) => r matches Some(x) && x as int == i,
            None => r is None,
        },
{
    let mut i: usize = 0;
    while i < v.len()
        invariant
            i <= v@.len(),
            position_in(v@.take(i as int), c) is None,
        decreases v@.len() - i,
    {
        assert(v@.take(i as int + 1).drop_last() == v@.take(i as int));
        if v[i] == c {
            proof {
                lemma_position_prefix(v@, c, i as int + 1);
            }
            return Some(i);
        }
        i = i + 1;
    }
    assert(v@.take(v@.len() as int) == v@);
    None
}

/// The characters of `v` from `from` up to (not including) `to`.
pub fn string_range(v: &Vec<char>, from: usize, to: usize) -> (r: String)
    requires
        from <= to <= v@.len(),
    ensures
        r@ == v@.subrange(from as int, to as int),
{
    let mut out = String::new();
    let mut i: usize = from;
    while i < to
        invariant
            from <= i <= to,
            to <= v@.len(),
            out@ == v@.subrange(from as int, i as int),
        decreases to - i,
    {
        push_char(&mut out, v[i]);
        assert(v@.subrange(from as int, i as int + 1) == v@.subrange(from as int, i as int).push(v@[i as int]));
        i = i + 1;
    }
    out
}

/// `char::is_whitespace`: the Unicode `White_Space` characters.
pub open spec fn is_ws(c: char) -> bool {
    let u = c as u32;
    (0x09 <= u <= 0x0d) || u == 0x20 || u == 0x85 || u == 0xa0 || u == 0x1680 || (0x2000 <= u
        <= 0x200a) || u == 0x2028 || u == 0x2029 || u == 0x202f || u == 0x205f || u == 0x3000
}

fn whitespace(c: char) -> (r: bool)
    ensures
        r == is_ws(c),
{
    let u = c as u32;
    (0x09 <= u && u <= 0x0d) || u == 0x20 || u == 0x85 || u == 0xa0 || u == 0x1680 || (0x2000
        <= u && u <= 0x200a) || u == 0x2028 || u == 0x2029 || u == 0x202f || u == 0x205f || u
        == 0x3000
}

/// `str::trim_start`: `s` without its leading whitespace.
pub open spec fn trim_start(s: Seq<char>) -> Seq<char>
    decreases s.len(),
{
    if s.len() > 0 && is_ws(s[0]) {
        trim_start(s.drop_first())
    } else {
        s
    }
}

/// `str::trim_end`: `s` without its trailing whitespace.
pub open spec fn trim_end(s: Seq<char>) -> Seq<char>
    decreases s.len(),
{
    if s.len() > 0 && is_ws(s.last()) {
        trim_end(s.drop_last())
    } else {
        s
    }
}

/// `str::trim`: `s` without leading and trailing whitespace.
pub open spec fn trim(s: Seq<char>) -> Seq<char> {
    trim_end(trim_start(s))
}

proof fn lemma_trim_start_at(s: Seq<char>, a: int)
    requires
        0 <= a <= s.len(),
        forall|j: int| 0 <= j < a ==> is_ws(#[trigger] s[j]),
        a == s.len() || !is_ws(s[a]),
    ensures
        trim_start(s) == s.skip(a),
    decreases a,
{
    if a > 0 {
        assert forall|j: int| 0 <= j < a - 1 implies is_ws(#[trigger] s.drop_first()[j]) by {
            assert(s.drop_first()[j] == s[j + 1]);
        }
        if a - 1 < s.drop_first().len() {
            assert(s.drop_first()[a - 1] == s[a]);
        }
        lemma_trim_start_at(s.drop_first(), a - 1);
        assert(s.drop_first().skip(a - 1) == s.skip(a));
    } else {
        assert(s.skip(0) == s);
    }
}

proof fn lemma_trim_end_at(s: Seq<char>, b: int)
    requires
        0 <= b <= s.len(),
        forall|j: int| b <= j < s.len() ==> is_ws(#[trigger] s[j]),
        b == 0 || !is_ws(s[b - 1]),
    ensures
        trim_end(s) == s.take(b),
    decreases s.len() - b,
{
    if b < s.len() {
        assert forall|j: int| b <= j < s.len() - 1 implies is_ws(#[trigger] s.drop_last()[j]) by {
            assert(s.drop_last()[j] == s[j]);
        }
        if b > 0 {
            assert(s.drop_last()[b - 1] == s[b - 1]);
        }
        lemma_trim_end_at(s.drop_last(), b);
        assert(s.drop_last().take(b) == s.take(b));
    } else {
        assert(s.take(b) == s);
    }
}

/// The characters of `s` without leading whitespace.
pub fn trimmed_start(s: &Vec<char>) -> (r: Vec<char>)
    ensures
        r@ == trim_start(s@),
{
    let mut a: usize = 0;
    while a < s.len() && whitespace(s[a])
        invariant
            a <= s@.len(),
            forall|j: int| 0 <= j < a ==> is_ws(#[trigger] s@[j]),
        decreases s@.len() - a,
    {
        a = a + 1;
    }
    proof {
        lemma_trim_start_at(s@, a as int);
    }
    let mut out: Vec<char> = Vec::new();
    let mut i: usize = a;
    while i < s.len()
        invariant
            a <= i <= s@.len(),
            out@ == s@.subrange(a as int, i as int),
        decreases s@.len() - i,
    {
        out.push(s[i]);
        assert(s@.subrange(a as int, i as int + 1) == s@.subrange(a as int, i as int).push(s@[i as int]));
        i = i + 1;
    }
    assert(s@.subrange(a as int, s@.len() as int) == s@.skip(a as int));
    out
}

/// `str::trim` of `s`.
pub fn trimmed(s: &str) -> (r: Vec<char>)
    ensures
        r@ == trim(s@),
{
    let chars = chars_of(s);
    let front = trimmed_start(&chars);
    let mut b: usize = front.len();
    while b > 0 && whitespace(front[b - 1])
        invariant
            b <= front@.len(),
            forall|j: int| b <= j < front@.len() ==> is_ws(#[trigger] front@[j]),
        decreases b,
    {
        b = b - 1;
    }
    proof {
        lemma_trim_end_at(front@, b as int);
    }
    let mut out: Vec<char> = Vec::new();
    let mut i: usize = 0;
    while i < b
        invariant
            i <= b <= front@.len(),
            out@ == front@.take(i as int),
        decreases b - i,
    {
        out.push(front[i]);
        assert(front@.take(i as int + 1) == front@.take(i as int).push(front@[i as int]));
        i = i + 1;
    }
    out
}

/// An ASCII decimal digit.
pub open spec fn is_digit(c: char) -> bool {
    48 <= c as u32 <= 57
}

/// The value of a string of decimal digits.
pub open spec fn digits_value(s: Seq<char>) -> nat
    decreases s.len(),
{
    if s.len() == 0 {
        0
    } else {
        digits_value(s.drop_last()) * 10 + ((s.last() as u32 - 48) as nat)
    }
}

/// `str::parse::<i64>`: an optional `+` or `-` sign followed by at least one
/// ASCII digit and nothing else, whose value fits in an `i64`.
pub open spec fn parse_i64(s: Seq<char>) -> Option<i64> {
    if s.len() == 0 {
        None
    } else {
        let digits = s.skip(sign_len(s));
        if digits.len() == 0 || !all_digits(digits) {
            None
        } else if s[0] == '-' {
            if digits_value(digits) <= 9223372036854775808 {
                Some((-(digits_value(digits) as int)) as i64)
            } else {
                None
            }
        } else {
            if digits_value(digits) <= 9223372036854775807 {
                Some(digits_value(digits) as i64)
            } else {
                None
            }
        }
    }
}

/// Length of a leading `+` or `-` sign.
pub open spec fn sign_len(s: Seq<char>) -> int {
    if s.len() > 0 && (s[0] == '-' || s[0] == '+') {
        1
    } else {
        0
    }
}

/// Every character is an ASCII digit.
pub open spec fn all_digits(s: Seq<char>) -> bool {
    forall|i: int| 0 <= i < s.len() ==> is_digit(#[trigger] s[i])
}

proof fn lemma_digits_grow(s: Seq<char>, i: int)
    requires
        0 <= i <= s.len(),
        forall|j: int| 0 <= j < s.len() ==> is_digit(#[trigger] s[j]),
    ensures
        digits_value(s) >= digits_value(s.take(i)),
    decreases s.len() - i,
{
    if i < s.len() {
        lemma_digits_grow(s, i + 1);
        assert(s.take(i + 1).drop_last() == s.take(i));
    } else {
        assert(s.take(i) == s);
    }
}

/// Parses `s` the way `str::parse::<i64>` does.
pub fn parse_i64_chars(s: &Vec<char>) -> (r: Option<i64>)
    ensures
        r == parse_i64(s@),
{
    if s.len() == 0 {
        return None;
    }
    let negative = s[0] == '-';
    let start: usize = if s[0] == '-' || s[0] == '+' {
        1
    } else {
        0
    };
    let ghost digits = s@.skip(start as int);
    assert(start as int == sign_len(s@));
    if start >= s.len() {
        return None;
    }
    let limit: u64 = if negative {
        9223372036854775808
    } else {
        9223372036854775807
    };
    let mut value: u64 = 0;
    let mut overflow = false;
    let mut i: usize = start;
    assert(digits.take(0) =~= Seq::<char>::empty());
    while i < s.len()
        invariant
            start <= i <= s@.len(),
            start <= 1,
            start as int == sign_len(s@),
            s@.len() > 0,
            negative == (s@[0] == '-'),
            start < s@.len(),
            digits == s@.skip(start as int),
            limit >= 9,
            forall|j: int| start <= j < i ==> is_digit(#[trigger] s@[j]),
            !overflow ==> value as nat == digits_value(digits.take(i - start)) && value <= limit,
            overflow ==> digits_value(digits.take(i - start)) > limit,
        decreases s@.len() - i,
    {
        let u = s[i] as u32;
        if !(48 <= u && u <= 57) {
            assert(i - start < digits.len());
            assert(digits[i - start] == s@[i as int]);
            assert(!is_digit(digits[i - start]));
            assert(!all_digits(digits));
            assert(digits == s@.skip(sign_len(s@)));
            assert(s@.len() != 0);
            assert(parse_i64(s@) is None);
            return None;
        }
        let ghost prev = digits_value(digits.take(i - start));
        assert(digits.take(i - start + 1).drop_last() == digits.take(i - start));
        assert(digits.take(i - start + 1).last() == s@[i as int]);
        let d = (u - 48) as u64;
        assert(digits_value(digits.take(i - start + 1)) == prev * 10 + d);
        if !overflow {
            if value > (limit - d) / 10 {
                overflow = true;
                assert(value * 10 + d > limit) by (nonlinear_arith)
                    requires
                        value > (limit - d) / 10,
                        d <= 9,
                        limit >= 9,
                ;
            } else {
                assert(value * 10 + d <= limit) by (nonlinear_arith)
                    requires
                        value <= (limit - d) / 10,
                        d <= 9,
                        limit >= 9,
                ;
                value = value * 10 + d;
            }
        } else {
            assert(prev * 10 + d >= prev) by (nonlinear_arith)
                requires
                    d >= 0,
                    prev >= 0,
            ;
        }
        i = i + 1;
    }
    assert(digits.take(i - start) == digits);
    assert forall|j: int| 0 <= j < digits.len() implies is_digit(#[trigger] digits[j]) by {
        assert(digits[j] == s@[j + start]);
    }
    assert(digits.len() > 0);
    assert(digits.len() != 0 && all_digits(digits));
    if overflow {
        assert(digits_value(digits) > limit);
        assert(parse_i64(s@) is None);
        return None;
    }
    assert(digits_value(digits) == value as nat);
    if negative {
        assert(s@[0] == '-');
        if value == 9223372036854775808 {
            assert((-(digits_value(digits) as int)) as i64 == i64::MIN);
            Some(i64::MIN)
        } else {
            assert((-(digits_value(digits) as int)) as i64 == -(value as i64));
            Some(-(value as i64))
        }
    } else {
        assert(s@[0] != '-');
        assert(digits_value(digits) <= 9223372036854775807);
        Some(value as i64)
    }
}

/// First position at which `pat` occurs in `s`, searching from `k` on.
pub open spec fn find_from(s: Seq<char>, pat: Seq<char>, k: int) -> Option<int>
    decreases s.len() + 1 - k,
{
    if k < 0 || k + pat.len() > s.len() {
        None
    } else if s.subrange(k, k + pat.len()) == pat {
        Some(k)
    } else {
        find_from(s, pat, k + 1)
    }
}

/// `str::find`: first position at which `pat` occurs in `s`.
pub open spec fn find_text(s: Seq<char>, pat: Seq<char>) -> Option<int> {
    find_from(s, pat, 0)
}

/// First position at which `pat` occurs in `s`.
pub fn find_chars(s: &Vec<char>, pat: &Vec<char>) -> (r: Option<usize>)
    ensures
        match find_text(s@, pat@) {
            Some(i) => r matches Some(x) && x as int == i && i + pat@.len() <= s@.len(),
            None => r is None,
        },
{
    if pat.len() > s.len() {
        return None;
    }
    let last = s.len() - pat.len();
    let n = s.len();
    assert(n == s@.len());
    let mut k: usize = 0;
    while k <= last
        invariant
            last == s@.len() - pat@.len(),
            s@.len() == n,
            k <= last + 1,
            find_text(s@, pat@) == find_from(s@, pat@, k as int),
        decreases last + 1 - k,
    {
        let mut j: usize = 0;
        let mut same = true;
        while j < pat.len()
            invariant
                j <= pat@.len(),
                k + pat@.len() <= s@.len(),
                s@.len() == n,
                same == (forall|m: int| 0 <= m < j ==> s@[k + m] == pat@[m]),
            decreases pat@.len() - j,
        {
            assert(k + j < s@.len());
            if s[k + j] != pat[j] {
                same = false;
            }
            j = j + 1;
        }
        if same {
            assert(s@.subrange(k as int, k + pat@.len()) =~= pat@);
            return Some(k);
        } else {
            assert(s@.subrange(k as int, k + pat@.len()) != pat@) by {
                let m = choose|m: int| 0 <= m < pat@.len() && s@[k + m] != pat@[m];
                assert(s@.subrange(k as int, k + pat@.len())[m] == s@[k + m]);
            }
        }
        if k == last {
            assert(find_from(s@, pat@, k as int + 1) is None);
            return None;
        }
        k = k + 1;
    }
    None
}

/// A name list viewed as the names it holds.
pub open spec fn views(v: Seq<String>) -> Seq<Seq<char>> {
    v.map_values(|s: String| s@)
}

/// Whether `name` is one of the strings in `v`.
pub fn contains_name(v: &Vec<String>, name: &String) -> (r: bool)
    ensures
        r == views(v@).contains(name@),
{
    let mut i: usize = 0;
    while i < v.len()
        invariant
            i <= v@.len(),
            forall|j: int| 0 <= j < i ==> v@[j]@ != name@,
        decreases v@.len() - i,
    {
        if v[i].eq(name) {
            assert(views(v@)[i as int] == name@);
            return true;
        }
        i = i + 1;
    }
    assert forall|j: int| 0 <= j < views(v@).len() implies views(v@)[j] != name@ by {
        assert(views(v@)[j] == v@[j]@);
    }
    false
}

/// Pushing a string adds its view to the set of views.
pub proof fn lemma_views_push(v: Seq<String>, s: String)
    ensures
        views(v.push(s)) == views(v).push(s@),
        views(v.push(s)).to_set() == views(v).to_set().insert(s@),
{
    assert(views(v.push(s)) =~= views(v).push(s@));
    let w = views(v).push(s@);
    assert forall|x: Seq<char>| w.contains(x) <==> views(v).contains(x) || x == s@ by {
        if w.contains(x) {
            let j = choose|j: int| 0 <= j < w.len() && w[j] == x;
            if j < views(v).len() {
                assert(views(v)[j] == x);
            }
        }
        if views(v).contains(x) {
            let j = choose|j: int| 0 <= j < views(v).len() && views(v)[j] == x;
            assert(w[j] == x);
        }
        if x == s@ {
            assert(w[views(v).len() as int] == x);
        }
    }
    assert(w.to_set() =~= views(v).to_set().insert(s@));
}

/// Adds `name` to a duplicate-free list unless it is already there; returns
/// whether it was added.
pub fn insert_name(v: &mut Vec<String>, name: String) -> (added: bool)
    requires
        views(old(v)@).no_duplicates(),
    ensures
        views(final(v)@).no_duplicates(),
        added == !views(old(v)@).contains(name@),
        added ==> final(v)@ == old(v)@.push(name),
        !added ==> final(v)@ == old(v)@,
        views(final(v)@).to_set() == views(old(v)@).to_set().insert(name@),
{
    if contains_name(v, &name) {
        assert(views(v@).to_set() =~= views(v@).to_set().insert(name@));
        false
    } else {
        let ghost before = v@;
        v.push(name);
        assert(views(v@) =~= views(before).push(name@));
        assert(views(v@).to_set() =~= views(before).to_set().insert(name@)) by {
            assert forall|x: Seq<char>| views(v@).contains(x) <==> views(before).contains(x) || x == name@ by {
                if views(v@).contains(x) {
                    let j = choose|j: int| 0 <= j < views(v@).len() && views(v@)[j] == x;
                    if j < views(before).len() {
                        assert(views(before)[j] == x);
                    }
                }
                if views(before).contains(x) {
                    let j = choose|j: int| 0 <= j < views(before).len() && views(before)[j] == x;
                    assert(views(v@)[j] == x);
                }
                if x == name@ {
                    assert(views(v@)[views(before).len() as int] == x);
                }
            }
        }
        true
    }
}

/// The concatenation of `parts`, in order.
pub open spec fn concat(parts: Seq<Seq<char>>) -> Seq<char>
    decreases parts.len(),
{
    if parts.len() == 0 {
        seq![]
    } else {
        concat(parts.drop_last()) + parts.last()
    }
}

/// One more part appends it to the concatenation.
pub proof fn lemma_concat_step(parts: Seq<Seq<char>>, k: int)
    requires
        0 <= k < parts.len(),
    ensures
        concat(parts.take(k + 1)) == concat(parts.take(k)) + parts[k],
{
    assert(parts.take(k + 1).drop_last() == parts.take(k));
}

/// The whole list is its longest prefix.
pub proof fn lemma_take_all<T>(s: Seq<T>)
    ensures
        s.take(s.len() as int) == s,
{
    assert(s.take(s.len() as int) =~= s);
}

/// Position of the first `c` at or after `from`.
pub fn position_from(v: &Vec<char>, from: usize, c: char) -> (r: Option<usize>)
    requires
        from <= v@.len(),
    ensures
        match position_in(v@.skip(from as int), c) {
            Some(p) => r matches Some(x) && x as int == from + p,
            None => r is None,
        },
{
    let ghost w = v@.skip(from as int);
    let mut i: usize = from;
    while i < v.len()
        invariant
            from <= i <= v@.len(),
            w == v@.skip(from as int),
            position_in(w.take(i - from), c) is None,
        decreases v@.len() - i,
    {
        assert(w.take(i - from + 1).drop_last() == w.take(i - from));
        assert(w[i - from] == v@[i as int]);
        if v[i] == c {
            proof {
                lemma_position_prefix(w, c, i - from + 1);
            }
            return Some(i);
        }
        i = i + 1;
    }
    assert(w.take(v@.len() - from) == w);
    None
}

} // verus!
