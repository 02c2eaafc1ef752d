//! Character-level helpers shared by the parsers and renderers: conversions
//! between strings and character vectors, decimal formatting and parsing,
//! ASCII classes, and the Unicode classes that std computes.
use vstd::prelude::*;
use vstd::string::*;

verus! {

// ---------------------------------------------------------------------------
// ASCII classes (a few lines each, stated over code points)
// ---------------------------------------------------------------------------

pub open spec fn is_ascii_digit_char(c: char) -> bool {
    '0' <= c && c <= '9'
}

pub open spec fn is_ascii_lower_char(c: char) -> bool {
    'a' <= c && c <= 'z'
}

pub open spec fn is_ascii_upper_char(c: char) -> bool {
    'A' <= c && c <= 'Z'
}

pub open spec fn is_ascii_alnum_char(c: char) -> bool {
    is_ascii_digit_char(c) || is_ascii_lower_char(c) || is_ascii_upper_char(c)
}

pub open spec fn is_ascii_char(c: char) -> bool {
    (c as u32) < 128
}

pub open spec fn is_ascii_whitespace_char(c: char) -> bool {
    c == ' ' || c == '\t' || c == '\n' || c == '\x0B' || c == '\x0C' || c == '\r'
}

pub fn is_ascii_digit(c: char) -> (r: bool)
    ensures
        r == is_ascii_digit_char(c),
{
    '0' <= c && c <= '9'
}

pub fn is_ascii_lowercase(c: char) -> (r: bool)
    ensures
        r == is_ascii_lower_char(c),
{
    'a' <= c && c <= 'z'
}

// ---------------------------------------------------------------------------
// Unicode classes computed by std
// ---------------------------------------------------------------------------

/// Whether std's `char::is_alphanumeric` holds of a character.
pub uninterp spec fn unicode_alphanumeric(c: char) -> bool;

/// Whether std's `char::is_whitespace` holds of a character.
pub uninterp spec fn unicode_whitespace(c: char) -> bool;

/// What std's `char::to_lowercase` yields for a character.
pub uninterp spec fn unicode_lowercase(c: char) -> Seq<char>;

/// Whether std's `char::is_uppercase` holds of a character.
pub uninterp spec fn unicode_uppercase(c: char) -> bool;

/// Calls `char::is_alphanumeric`. The contract names the result and states
/// what std documents for ASCII: exactly the ASCII letters and digits.
#[verifier::external_body]
pub(crate) fn is_alphanumeric(c: char) -> (r: bool)
    ensures
        r == unicode_alphanumeric(c),
        is_ascii_char(c) ==> (r <==> is_ascii_alnum_char(c)),
{
    c.is_alphanumeric()
}

/// Calls `char::is_whitespace`. The contract names the result and states
/// what std documents for ASCII: the space, tab, and the line and form feeds.
#[verifier::external_body]
pub(crate) fn is_whitespace(c: char) -> (r: bool)
    ensures
        r == unicode_whitespace(c),
        is_ascii_char(c) ==> (r <==> is_ascii_whitespace_char(c)),
{
    c.is_whitespace()
}

/// Calls `char::is_uppercase`. For ASCII, std documents exactly `A`..=`Z`.
#[verifier::external_body]
pub(crate) fn is_uppercase(c: char) -> (r: bool)
    ensures
        r == unicode_uppercase(c),
        is_ascii_char(c) ==> (r <==> is_ascii_upper_char(c)),
{
    c.is_uppercase()
}

/// Calls `char::to_lowercase` and collects what it yields. For an ASCII
/// character std documents the single character of `to_ascii_lowercase`.
#[verifier::external_body]
pub(crate) fn to_lowercase(c: char) -> (r: Vec<char>)
    ensures
        r@ == unicode_lowercase(c),
        is_ascii_char(c) ==> r@ == seq![ascii_lower(c)],
{
    c.to_lowercase().collect()
}

pub open spec fn ascii_lower(c: char) -> char {
    if is_ascii_upper_char(c) {
        ((c as u32) + 32) as char
    } else {
        c
    }
}

pub open spec fn ascii_upper(c: char) -> char {
    if is_ascii_lower_char(c) {
        ((c as u32) - 32) as char
    } else {
        c
    }
}

pub fn to_ascii_uppercase(c: char) -> (r: char)
    ensures
        r == ascii_upper(c),
{
    if 'a' <= c && c <= 'z' {
        let code: u32 = c as u32;
        let upper: u32 = code - 32;
        char_from_ascii_code(upper)
    } else {
        c
    }
}

pub fn to_ascii_lowercase(c: char) -> (r: char)
    ensures
        r == ascii_lower(c),
{
    if 'A' <= c && c <= 'Z' {
        let code: u32 = c as u32;
        let lower: u32 = code + 32;
        char_from_ascii_code(lower)
    } else {
        c
    }
}

/// Calls `char::from_u32` on an ASCII code point.
#[verifier::external_body]
pub(crate) fn char_from_ascii_code(code: u32) -> (r: char)
    requires
        code < 128,
    ensures
        r as u32 == code,
{
    char::from_u32(code).unwrap()
}

// ---------------------------------------------------------------------------
// Strings and character vectors
// ---------------------------------------------------------------------------

/// The characters of a string slice, in order.
pub fn chars_of(s: &str) -> (out: Vec<char>)
    ensures
        out@ == s@,
{
    let mut out: Vec<char> = Vec::new();
    for c in it: s.chars()
        invariant
            out@ == it.seq().take(it.index() as int),
            it.seq() == s@,
    {
        out.push(c);
    }
    out
}

/// Calls `String::push`.
#[verifier::external_body]
pub(crate) fn push_char(target: &mut String, c: char)
    ensures
        final(target)@ == old(target)@.push(c),
{
    target.push(c);
}

/// Appends a string slice to a string.
pub fn append_str(target: &mut String, suffix: &str)
    ensures
        final(target)@ == old(target)@ + suffix@,
{
    target.append(suffix);
}

/// Appends a run of characters to a string.
pub fn append_chars(target: &mut String, chars: &[char])
    ensures
        final(target)@ == old(target)@ + chars@,
{
    let ghost start = target@;
    let mut i: usize = 0;
    while i < chars.len()
        invariant
            i <= chars@.len(),
            target@ == start + chars@.subrange(0, i as int),
        decreases chars@.len() - i,
    {
        push_char(target, chars[i]);
        i += 1;
        assert(chars@.subrange(0, i as int) == chars@.subrange(0, i - 1).push(chars@[i - 1]));
    }
    assert(chars@.subrange(0, chars@.len() as int) == chars@);
}

/// A string made of the given characters.
pub fn string_of(chars: &[char]) -> (out: String)
    ensures
        out@ == chars@,
{
    let mut out = String::new();
    append_chars(&mut out, chars);
    out
}

/// A copy of a string slice as an owned string.
pub fn owned(s: &str) -> (out: String)
    ensures
        out@ == s@,
{
    s.to_owned()
}

/// Whether two character sequences are equal.
pub fn chars_eq(a: &[char], b: &[char]) -> (r: bool)
    ensures
        r == (a@ == b@),
{
    if a.len() != b.len() {
        return false;
    }
    let mut i: usize = 0;
    while i < a.len()
        invariant
            a@.len() == b@.len(),
            i <= a@.len(),
            forall|k: int| 0 <= k < i ==> a@[k] == b@[k],
        decreases a@.len() - i,
    {
        if a[i] != b[i] {
            return false;
        }
        i += 1;
    }
    assert(a@ =~= b@);
    true
}

/// Whether two strings hold the same characters.
pub fn str_eq(a: &str, b: &str) -> (r: bool)
    ensures
        r == (a@ == b@),
{
    let x = chars_of(a);
    let y = chars_of(b);
    chars_eq(x.as_slice(), y.as_slice())
}

/// Whether `s` begins with `prefix`.
pub open spec fn has_prefix(s: Seq<char>, prefix: Seq<char>) -> bool {
    prefix.len() <= s.len() && s.subrange(0, prefix.len() as int) == prefix
}

pub fn starts_with(s: &[char], prefix: &str) -> (r: bool)
    ensures
        r == has_prefix(s@, prefix@),
{
    let p = chars_of(prefix);
    if p.len() > s.len() {
        return false;
    }
    let mut i: usize = 0;
    while i < p.len()
        invariant
            p@ == prefix@,
            p@.len() <= s@.len(),
            i <= p@.len(),
            forall|k: int| 0 <= k < i ==> s@[k] == p@[k],
        decreases p@.len() - i,
    {
        if s[i] != p[i] {
            assert(s@.subrange(0, p@.len() as int)[i as int] != p@[i as int]);
            return false;
        }
        i += 1;
    }
    assert(s@.subrange(0, p@.len() as int) =~= p@);
    true
}

/// The characters `s[start..end]`.
pub fn slice_chars(s: &[char], start: usize, end: usize) -> (out: Vec<char>)
    requires
        start <= end <= s@.len(),
    ensures
        out@ == s@.subrange(start as int, end as int),
{
    let mut out: Vec<char> = Vec::new();
    let mut i: usize = start;
    while i < end
        invariant
            start <= i <= end <= s@.len(),
            out@ == s@.subrange(start as int, i as int),
        decreases end - i,
    {
        out.push(s[i]);
        i += 1;
        assert(s@.subrange(start as int, i as int) == s@.subrange(start as int, i - 1).push(
            s@[i - 1],
        ));
    }
    out
}

/// The index of the first occurrence of `c` at or after `from`, if any.
pub open spec fn first_index_from(s: Seq<char>, c: char, from: int) -> Option<int>
    decreases s.len() - from,
{
    if from < 0 || from >= s.len() {
        None
    } else if s[from] == c {
        Some(from)
    } else {
        first_index_from(s, c, from + 1)
    }
}

pub proof fn lemma_first_index_from(s: Seq<char>, c: char, from: int)
    requires
        0 <= from,
    ensures
        match first_index_from(s, c, from) {
            Some(i) => from <= i < s.len() && s[i] == c && forall|k: int|
                from <= k < i ==> s[k] != c,
            None => forall|k: int| from <= k < s.len() ==> s[k] != c,
        },
    decreases s.len() - from,
{
    if from < s.len() && s[from] != c {
        lemma_first_index_from(s, c, from + 1);
    }
}

/// Finds the first occurrence of `c` in `s`.
pub fn find_char(s: &[char], c: char) -> (r: Option<usize>)
    ensures
        match r {
            Some(i) => first_index_from(s@, c, 0) == Some(i as int),
            None => first_index_from(s@, c, 0) is None,
        },
{
    proof {
        lemma_first_index_from(s@, c, 0);
    }
    let mut i: usize = 0;
    while i < s.len()
        invariant
            i <= s@.len(),
            forall|k: int| 0 <= k < i ==> s@[k] != c,
            first_index_from(s@, c, 0) == first_index_from(s@, c, i as int),
        decreases s@.len() - i,
    {
        if s[i] == c {
            return Some(i);
        }
        i += 1;
    }
    None
}

/// Whether a sequence contains a character.
pub fn contains_char(s: &[char], c: char) -> (r: bool)
    ensures
        r == s@.contains(c),
{
    let mut i: usize = 0;
    while i < s.len()
        invariant
            i <= s@.len(),
            forall|k: int| 0 <= k < i ==> s@[k] != c,
        decreases s@.len() - i,
    {
        if s[i] == c {
            assert(s@[i as int] == c);
            return true;
        }
        i += 1;
    }
    false
}

// ---------------------------------------------------------------------------
// Trimming
// ---------------------------------------------------------------------------

/// The text without its leading whitespace.
pub open spec fn trim_start(s: Seq<char>) -> Seq<char>
    decreases s.len(),
{
    if s.len() > 0 && unicode_whitespace(s[0]) {
        trim_start(s.drop_first())
    } else {
        s
    }
}

/// The text without its trailing whitespace.
pub open spec fn trim_end(s: Seq<char>) -> Seq<char>
    decreases s.len(),
{
    if s.len() > 0 && unicode_whitespace(s.last()) {
        trim_end(s.drop_last())
    } else {
        s
    }
}

/// The text without leading and trailing whitespace, as `str::trim` gives it.
pub open spec fn trim(s: Seq<char>) -> Seq<char> {
    trim_end(trim_start(s))
}

/// The characters of `s` without leading whitespace.
pub fn trim_start_chars(s: &[char]) -> (out: Vec<char>)
    ensures
        out@ == trim_start(s@),
{
    let mut start: usize = 0;
    proof {
        assert(s@.subrange(0, s@.len() as int) =~= s@);
    }
    while start < s.len() && is_whitespace(s[start])
        invariant
            start <= s@.len(),
            trim_start(s@) == trim_start(s@.subrange(start as int, s@.len() as int)),
        decreases s@.len() - start,
    {
        proof {
            let rest = s@.subrange(start as int, s@.len() as int);
            assert(rest.drop_first() =~= s@.subrange(start + 1, s@.len() as int));
        }
        start += 1;
    }
    slice_chars(s, start, s.len())
}

/// The characters of `s` without leading and trailing whitespace.
pub fn trim_chars(s: &[char]) -> (out: Vec<char>)
    ensures
        out@ == trim(s@),
{
    let mut start: usize = 0;
    proof {
        assert(s@.subrange(0, s@.len() as int) =~= s@);
    }
    while start < s.len() && is_whitespace(s[start])
        invariant
            start <= s@.len(),
            trim_start(s@) == trim_start(s@.subrange(start as int, s@.len() as int)),
        decreases s@.len() - start,
    {
        proof {
            let rest = s@.subrange(start as int, s@.len() as int);
            assert(rest.drop_first() =~= s@.subrange(start + 1, s@.len() as int));
        }
        start += 1;
    }
    let mut end: usize = s.len();
    proof {
        let rest = s@.subrange(start as int, s@.len() as int);
        assert(trim_start(rest) == rest);
    }
    while end > start && is_whitespace(s[end - 1])
        invariant
            start <= end <= s@.len(),
            trim(s@) == trim_end(s@.subrange(start as int, end as int)),
        decreases end - start,
    {
        proof {
            let part = s@.subrange(start as int, end as int);
            assert(part.drop_last() =~= s@.subrange(start as int, end - 1));
            assert(part.last() == s@[end - 1]);
        }
        end -= 1;
    }
    proof {
        let part = s@.subrange(start as int, end as int);
        if part.len() > 0 {
            assert(part.last() == s@[end - 1]);
        }
    }
    slice_chars(s, start, end)
}

// ---------------------------------------------------------------------------
// Decimal numerals
// ---------------------------------------------------------------------------

pub open spec fn digit_char(d: int) -> char {
    if d == 0 {
        '0'
    } else if d == 1 {
        '1'
    } else if d == 2 {
        '2'
    } else if d == 3 {
        '3'
    } else if d == 4 {
        '4'
    } else if d == 5 {
        '5'
    } else if d == 6 {
        '6'
    } else if d == 7 {
        '7'
    } else if d == 8 {
        '8'
    } else {
        '9'
    }
}

pub open spec fn digit_value(c: char) -> int {
    if c == '1' {
        1
    } else if c == '2' {
        2
    } else if c == '3' {
        3
    } else if c == '4' {
        4
    } else if c == '5' {
        5
    } else if c == '6' {
        6
    } else if c == '7' {
        7
    } else if c == '8' {
        8
    } else if c == '9' {
        9
    } else {
        0
    }
}

fn digit_of(c: char) -> (d: u64)
    ensures
        d == digit_value(c),
        d <= 9,
{
    match c {
        '1' => 1,
        '2' => 2,
        '3' => 3,
        '4' => 4,
        '5' => 5,
        '6' => 6,
        '7' => 7,
        '8' => 8,
        '9' => 9,
        _ => 0,
    }
}

/// How many fill characters pad a text of `len` characters to `width`.
pub open spec fn pad_count(len: nat, width: nat) -> nat {
    if width > len {
        (width - len) as nat
    } else {
        0
    }
}

/// The decimal numeral of a natural number, without leading zeros.
pub open spec fn decimal(n: nat) -> Seq<char>
    decreases n,
{
    if n < 10 {
        seq![digit_char(n as int)]
    } else {
        decimal(n / 10).push(digit_char((n % 10) as int))
    }
}

/// The numeral `n`, left-padded with `0` to at least `width` characters.
pub open spec fn padded_decimal(n: nat, width: nat) -> Seq<char> {
    Seq::new(pad_count(decimal(n).len(), width), |i: int| '0') + decimal(n)
}

/// Rust's `{:0w}` rendering of a signed integer: the sign counts toward the width.
pub open spec fn padded_signed(n: int, width: nat) -> Seq<char> {
    if n < 0 {
        seq!['-'] + padded_decimal((-n) as nat, pad_count(1, width))
    } else {
        padded_decimal(n as nat, width)
    }
}

/// The value of a run of ASCII digits.
pub open spec fn digits_value(s: Seq<char>) -> nat
    decreases s.len(),
{
    if s.len() == 0 {
        0
    } else {
        (digits_value(s.drop_last()) * 10 + digit_value(s.last())) as nat
    }
}

pub open spec fn all_digits(s: Seq<char>) -> bool {
    forall|i: int| 0 <= i < s.len() ==> is_ascii_digit_char(#[trigger] s[i])
}

pub proof fn lemma_decimal_digits(n: nat)
    ensures
        decimal(n).len() >= 1,
        all_digits(decimal(n)),
        digits_value(decimal(n)) == n,
        n > 0 ==> decimal(n)[0] != '0',
        n == 0 ==> decimal(n) == seq!['0'],
    decreases n,
{
    if n >= 10 {
        lemma_decimal_digits(n / 10);
        let d = decimal(n);
        assert(d.drop_last() == decimal(n / 10));
        assert(d[0] == decimal(n / 10)[0]);
        assert(d.last() == digit_char((n % 10) as int));
        assert(digit_value(digit_char((n % 10) as int)) == n % 10);
        assert(d.len() > 0);
        assert(digits_value(d) == digits_value(d.drop_last()) * 10 + digit_value(d.last()));
        assert(n == (n / 10) * 10 + n % 10);
    } else {
        assert(decimal(n).drop_last() =~= Seq::<char>::empty());
        assert(digit_value(digit_char(n as int)) == n);
        let d = decimal(n);
        assert(d.last() == digit_char(n as int));
        assert(digits_value(d) == digits_value(d.drop_last()) * 10 + digit_value(d.last()));
    }
}

fn digit(d: u64) -> (c: char)
    requires
        d < 10,
    ensures
        c == digit_char(d as int),
{
    match d {
        0 => '0',
        1 => '1',
        2 => '2',
        3 => '3',
        4 => '4',
        5 => '5',
        6 => '6',
        7 => '7',
        8 => '8',
        _ => '9',
    }
}

/// The decimal numeral of `n`.
pub fn decimal_chars(n: u64) -> (out: Vec<char>)
    ensures
        out@ == decimal(n as nat),
    decreases n,
{
    if n < 10 {
        let mut out: Vec<char> = Vec::new();
        out.push(digit(n));
        out
    } else {
        let mut out = decimal_chars(n / 10);
        out.push(digit(n % 10));
        out
    }
}

/// Appends `n` in decimal, zero-padded to `width` characters.
pub fn push_padded(target: &mut String, n: u64, width: usize)
    ensures
        final(target)@ == old(target)@ + padded_decimal(n as nat, width as nat),
{
    let digits = decimal_chars(n);
    let ghost start = target@;
    let mut k: usize = digits.len();
    while k < width
        invariant
            digits@ == decimal(n as nat),
            digits@.len() <= k,
            k == digits@.len() || k <= width,
            target@ == start + Seq::new((k - digits@.len()) as nat, |i: int| '0'),
        decreases width - k,
    {
        push_char(target, '0');
        k += 1;
        assert(Seq::new((k - digits@.len()) as nat, |i: int| '0') =~= Seq::new(
            (k - 1 - digits@.len()) as nat,
            |i: int| '0',
        ).push('0'));
    }
    append_chars(target, digits.as_slice());
    assert(Seq::new((k - digits@.len()) as nat, |i: int| '0') =~= Seq::new(
        pad_count(decimal(n as nat).len(), width as nat),
        |i: int| '0',
    ));
}

/// Appends a signed integer as `{:0width}` renders it.
pub fn push_padded_signed(target: &mut String, n: i64, width: usize)
    ensures
        final(target)@ == old(target)@ + padded_signed(n as int, width as nat),
{
    if n < 0 {
        push_char(target, '-');
        let magnitude: u64 = if n == i64::MIN {
            9223372036854775808u64
        } else {
            (-n) as u64
        };
        let w: usize = if width == 0 {
            0
        } else {
            width - 1
        };
        push_padded(target, magnitude, w);
    } else {
        push_padded(target, n as u64, width);
    }
}

/// The decimal numeral of `n` as a string.
pub fn u64_to_string(n: u64) -> (out: String)
    ensures
        out@ == decimal(n as nat),
{
    let digits = decimal_chars(n);
    string_of(digits.as_slice())
}

/// Whether every character of `s` is an ASCII digit.
pub fn chars_all_digits(s: &[char]) -> (r: bool)
    ensures
        r == all_digits(s@),
{
    let mut i: usize = 0;
    while i < s.len()
        invariant
            i <= s@.len(),
            forall|k: int| 0 <= k < i ==> is_ascii_digit_char(#[trigger] s@[k]),
        decreases s@.len() - i,
    {
        if !is_ascii_digit(s[i]) {
            return false;
        }
        i += 1;
    }
    true
}

proof fn lemma_digits_value_step(s: Seq<char>, i: int)
    requires
        0 <= i < s.len(),
    ensures
        digits_value(s.subrange(0, i + 1)) == digits_value(s.subrange(0, i)) * 10
            + digit_value(s[i]),
{
    assert(s.subrange(0, i + 1).drop_last() == s.subrange(0, i));
    assert(s.subrange(0, i + 1).last() == s[i]);
}

pub proof fn lemma_digits_value_monotone(s: Seq<char>, i: int)
    requires
        all_digits(s),
        0 <= i <= s.len(),
    ensures
        digits_value(s.subrange(0, i)) <= digits_value(s),
    decreases s.len() - i,
{
    if i < s.len() {
        lemma_digits_value_monotone(s, i + 1);
        lemma_digits_value_step(s, i);
        assert(0 <= digit_value(s[i]));
    } else {
        assert(s.subrange(0, i) == s);
    }
}

/// A digit run without a superfluous leading zero is the numeral of its value.
pub proof fn lemma_decimal_of_digits(s: Seq<char>)
    requires
        s.len() > 0,
        all_digits(s),
        s == seq!['0'] || s[0] != '0',
    ensures
        decimal(digits_value(s)) == s,
    decreases s.len(),
{
    let c = s.last();
    assert(is_ascii_digit_char(s[s.len() - 1]));
    assert(0 <= digit_value(c) <= 9);
    assert(digit_char(digit_value(c)) == c);
    let prefix = s.drop_last();
    assert(digits_value(s) == digits_value(prefix) * 10 + digit_value(c));
    if prefix.len() == 0 {
        assert(s == seq![c]);
        assert(digits_value(prefix) == 0);
    } else {
        assert(prefix[0] == s[0]);
        assert(all_digits(prefix)) by {
            assert forall|i: int| 0 <= i < prefix.len() implies is_ascii_digit_char(
                #[trigger] prefix[i],
            ) by {
                assert(prefix[i] == s[i]);
            }
        }
        assert(s[0] != '0');
        lemma_decimal_of_digits(prefix);
        lemma_digits_value_monotone(prefix, 1);
        assert(prefix.subrange(0, 1).drop_last() =~= Seq::<char>::empty());
        let one = prefix.subrange(0, 1);
        assert(one.len() == 1);
        assert(one.last() == prefix[0]);
        assert(digits_value(one) == digits_value(one.drop_last()) * 10 + digit_value(one.last()));
        assert(digits_value(one) == digit_value(prefix[0]));
        assert(digit_value(prefix[0]) >= 1);
        let v = digits_value(s);
        assert(v >= 10);
        assert(v / 10 == digits_value(prefix));
        assert(v % 10 == digit_value(c));
        assert(decimal(v) == decimal(v / 10).push(digit_char((v % 10) as int)));
        assert(s == prefix.push(c));
    }
}

/// A leading zero does not change the value of a digit run.
pub proof fn lemma_digits_value_leading_zero(t: Seq<char>)
    requires
        t.len() >= 1,
        t[0] == '0',
    ensures
        digits_value(t) == digits_value(t.drop_first()),
    decreases t.len(),
{
    if t.len() == 1 {
        assert(t.drop_last().len() == 0);
        assert(t.drop_first().len() == 0);
        assert(t.last() == '0');
        assert(digits_value(t) == digits_value(t.drop_last()) * 10 + digit_value(t.last()));
    } else {
        let p = t.drop_last();
        let q = t.drop_first();
        assert(p[0] == '0');
        lemma_digits_value_leading_zero(p);
        assert(q.drop_last() =~= p.drop_first());
        assert(q.last() == t.last());
        assert(digits_value(t) == digits_value(p) * 10 + digit_value(t.last()));
        assert(digits_value(q) == digits_value(q.drop_last()) * 10 + digit_value(q.last()));
    }
}

pub proof fn lemma_all_digits_tail(t: Seq<char>)
    requires
        all_digits(t),
        t.len() >= 1,
    ensures
        all_digits(t.drop_first()),
        all_digits(t.drop_last()),
{
    assert forall|i: int| 0 <= i < t.drop_first().len() implies is_ascii_digit_char(
        #[trigger] t.drop_first()[i],
    ) by {
        assert(t.drop_first()[i] == t[i + 1]);
    }
    assert forall|i: int| 0 <= i < t.drop_last().len() implies is_ascii_digit_char(
        #[trigger] t.drop_last()[i],
    ) by {
        assert(t.drop_last()[i] == t[i]);
    }
}

/// A digit run is its value, zero-padded to its own length.
pub proof fn lemma_padded_of_digits(t: Seq<char>)
    requires
        t.len() >= 1,
        all_digits(t),
    ensures
        padded_decimal(digits_value(t), t.len()) == t,
        decimal(digits_value(t)).len() <= t.len(),
    decreases t.len(),
{
    if t[0] != '0' || t.len() == 1 {
        if t.len() == 1 && t[0] == '0' {
            assert(t =~= seq!['0']);
        }
        lemma_decimal_of_digits(t);
        assert(Seq::new(pad_count(t.len(), t.len()), |i: int| '0') =~= Seq::<char>::empty());
        assert(padded_decimal(digits_value(t), t.len()) =~= t);
    } else {
        let rest = t.drop_first();
        lemma_all_digits_tail(t);
        lemma_digits_value_leading_zero(t);
        lemma_padded_of_digits(rest);
        let v = digits_value(t);
        let dl = decimal(v).len();
        assert(pad_count(dl, t.len()) == pad_count(dl, rest.len()) + 1);
        assert(Seq::new(pad_count(dl, t.len()), |i: int| '0') =~= seq!['0'] + Seq::new(
            pad_count(dl, rest.len()),
            |i: int| '0',
        ));
        assert(t =~= seq!['0'] + rest);
        assert(padded_decimal(v, t.len()) =~= seq!['0'] + padded_decimal(v, rest.len()));
    }
}

/// The value of a zero-padded numeral is the number.
pub proof fn lemma_digits_value_padded(v: nat, w: nat)
    ensures
        digits_value(padded_decimal(v, w)) == v,
        all_digits(padded_decimal(v, w)),
        padded_decimal(v, w).len() >= w,
        padded_decimal(v, w).len() >= 1,
    decreases pad_count(decimal(v).len(), w),
{
    lemma_decimal_digits(v);
    let p = padded_decimal(v, w);
    if pad_count(decimal(v).len(), w) == 0 {
        assert(p =~= decimal(v));
    } else {
        lemma_digits_value_padded(v, (w - 1) as nat);
        let q = padded_decimal(v, (w - 1) as nat);
        assert(p =~= seq!['0'] + q);
        assert(p.drop_first() =~= q);
        lemma_digits_value_leading_zero(p);
        assert forall|i: int| 0 <= i < p.len() implies is_ascii_digit_char(#[trigger] p[i]) by {
            if i > 0 {
                assert(p[i] == q[i - 1]);
            }
        }
    }
}

/// Parses a run of ASCII digits whose value is at most `bound`.
/// Returns `None` when the value exceeds the bound.
pub fn parse_digits(s: &[char], bound: u64) -> (r: Option<u64>)
    requires
        all_digits(s@),
    ensures
        match r {
            Some(v) => v as nat == digits_value(s@) && v <= bound,
            None => digits_value(s@) > bound,
        },
{
    let mut value: u64 = 0;
    let mut i: usize = 0;
    while i < s.len()
        invariant
            all_digits(s@),
            i <= s@.len(),
            value as nat == digits_value(s@.subrange(0, i as int)),
            value <= bound,
        decreases s@.len() - i,
    {
        proof {
            lemma_digits_value_step(s@, i as int);
        }
        let d: u64 = digit_of(s[i]);
        if d > bound {
            proof {
                lemma_digits_value_monotone(s@, i + 1);
            }
            return None;
        }
        if value > (bound - d) / 10 {
            proof {
                lemma_digits_value_monotone(s@, i + 1);
                assert(value * 10 + d > bound) by (nonlinear_arith)
                    requires
                        value > (bound - d) / 10,
                        d <= bound,
                ;
            }
            return None;
        }
        assert(value * 10 + d <= bound) by (nonlinear_arith)
            requires
                value <= (bound - d) / 10,
                d <= bound,
        ;
        value = value * 10 + d;
        i += 1;
    }
    assert(s@.subrange(0, s@.len() as int) == s@);
    Some(value)
}

} // verus!
