//! Text primitives: what the wire formats of this crate are written with.
//!
//! Text is modelled as `Seq<char>`; the executable functions work on `&str`
//! and `String` and are stated over that model.

use vstd::prelude::*;
use vstd::utf8;

verus! {

/// `String::push` appends one character.
pub assume_specification[ String::push ](s: &mut String, c: char)
    ensures
        final(s)@ == old(s)@.push(c),
;

/// The text of an optional string.
pub open spec fn opt_text(s: Option<String>) -> Option<Seq<char>> {
    match s {
        Some(s) => Some(s@),
        None => None,
    }
}

/// The text of an optional string slice.
pub open spec fn opt_str(s: Option<&str>) -> Option<Seq<char>> {
    match s {
        Some(s) => Some(s@),
        None => None,
    }
}

/// A text, when it is there and not empty.
pub open spec fn non_empty(s: Option<Seq<char>>) -> Option<Seq<char>> {
    match s {
        Some(s) => if s.len() == 0 {
            None
        } else {
            Some(s)
        },
        None => None,
    }
}

/// Two strings are equal when their characters are.
pub fn text_eq(a: &str, b: &str) -> (r: bool)
    ensures
        r == (a@ == b@),
{
    let x = a.as_bytes();
    let y = b.as_bytes();
    proof {
        utf8::encode_utf8_decode_utf8(a@);
        utf8::encode_utf8_decode_utf8(b@);
    }
    if x.len() != y.len() {
        return false;
    }
    let mut i: usize = 0;
    while i < x.len()
        invariant
            x@ == utf8::encode_utf8(a@),
            y@ == utf8::encode_utf8(b@),
            x.len() == y.len(),
            i <= x.len(),
            forall|j: int| 0 <= j < i ==> x@[j] == y@[j],
        decreases x.len() - i,
    {
        if x[i] != y[i] {
            return false;
        }
        i += 1;
    }
    assert(x@ =~= y@);
    true
}

/// An optional string, copied.
pub fn opt_clone(s: &Option<String>) -> (r: Option<String>)
    ensures
        r == *s,
{
    match s {
        Some(s) => Some(s.clone()),
        None => None,
    }
}

/// The characters of a string.
pub fn chars_of(s: &str) -> (v: Vec<char>)
    ensures
        v@ == s@,
{
    let mut v: Vec<char> = Vec::new();
    for c in it: s.chars()
        invariant
            v@ == s@.take(it.index() as int),
            it.seq() == s@,
    {
        v.push(c);
    }
    v
}

/// The string of `chars[from..to]`.
pub fn string_of(chars: &Vec<char>, from: usize, to: usize) -> (s: String)
    requires
        from <= to <= chars.len(),
    ensures
        s@ == chars@.subrange(from as int, to as int),
{
    let mut s = String::new();
    let mut i: usize = from;
    while i < to
        invariant
            from <= i <= to <= chars.len(),
            s@ == chars@.subrange(from as int, i as int),
        decreases to - i,
    {
        s.push(chars[i]);
        i += 1;
        assert(chars@.subrange(from as int, i as int) =~= chars@.subrange(
            from as int,
            i - 1,
        ).push(chars@[i - 1]));
    }
    s
}

// ---------------------------------------------------------------------------
// Numbers
// ---------------------------------------------------------------------------

/// An ASCII digit.
pub open spec fn is_digit(c: char) -> bool {
    '0' <= c <= '9'
}

/// What a digit counts.
pub open spec fn digit_value(c: char) -> nat {
    (c as int - '0' as int) as nat
}

/// The digit that counts `d`.
pub open spec fn digit_char(d: nat) -> char {
    ('0' as int + d) as char
}

/// Only ASCII digits (true of the empty text).
pub open spec fn all_digits(s: Seq<char>) -> bool {
    forall|i: int| 0 <= i < s.len() ==> is_digit(#[trigger] s[i])
}

/// The number that a run of digits writes in base ten.
pub open spec fn digits_value(s: Seq<char>) -> nat
    decreases s.len(),
{
    if s.len() == 0 {
        0
    } else {
        digits_value(s.drop_last()) * 10 + digit_value(s.last())
    }
}

/// `n` in base ten, without leading zeros.
pub open spec fn decimal(n: nat) -> Seq<char>
    decreases n,
{
    if n < 10 {
        seq![digit_char(n)]
    } else {
        decimal(n / 10).push(digit_char(n % 10))
    }
}

/// A non-empty run of digits that fits a `u64`, and its value.
pub open spec fn digits_to_u64(s: Seq<char>) -> Option<u64> {
    if s.len() > 0 && all_digits(s) && digits_value(s) <= u64::MAX {
        Some(digits_value(s) as u64)
    } else {
        None
    }
}

/// What `str::parse::<u64>` accepts: digits, optionally after one `+`.
pub open spec fn text_to_u64(s: Seq<char>) -> Option<u64> {
    if s.len() > 0 && s[0] == '+' {
        digits_to_u64(s.skip(1))
    } else {
        digits_to_u64(s)
    }
}

/// What `str::parse::<usize>` accepts.
pub open spec fn text_to_usize(s: Seq<char>) -> Option<usize> {
    match text_to_u64(s) {
        Some(n) => if n <= usize::MAX {
            Some(n as usize)
        } else {
            None
        },
        None => None,
    }
}

/// A decimal writes its own number, in digits only, with no leading zero
/// unless it is `0` itself.
pub proof fn lemma_decimal(n: nat)
    ensures
        decimal(n).len() >= 1,
        all_digits(decimal(n)),
        digits_value(decimal(n)) == n,
        n > 0 ==> decimal(n)[0] != '0',
    decreases n,
{
    if n < 10 {
        let d = decimal(n);
        assert(d.drop_last() =~= Seq::<char>::empty());
        assert(digits_value(d.drop_last()) == 0);
        assert(d.last() == digit_char(n));
    } else {
        lemma_decimal(n / 10);
        let d = decimal(n);
        assert(d.drop_last() =~= decimal(n / 10));
        assert(d.last() == digit_char(n % 10));
        assert(d[0] == decimal(n / 10)[0]);
    }
}

/// Digits with no leading zero are the decimal of their value.
pub proof fn lemma_canonical_digits(s: Seq<char>)
    requires
        s.len() > 0,
        all_digits(s),
        s.len() == 1 || s[0] != '0',
    ensures
        decimal(digits_value(s)) == s,
        s[0] != '0' ==> digits_value(s) > 0,
    decreases s.len(),
{
    let rest = s.drop_last();
    let d = digit_value(s.last());
    assert(is_digit(s.last()));
    assert(d < 10 && digit_char(d) == s.last());
    if s.len() == 1 {
        assert(digits_value(rest) == 0);
        assert(s =~= seq![s[0]]);
    } else {
        assert forall|i: int| 0 <= i < rest.len() implies is_digit(#[trigger] rest[i]) by {
            assert(is_digit(s[i]));
        }
        assert(rest[0] == s[0]);
        lemma_canonical_digits(rest);
        let v = digits_value(rest);
        assert((v * 10 + d) / 10 == v && (v * 10 + d) % 10 == d) by (nonlinear_arith)
            requires
                d < 10,
        ;
        assert(s =~= rest.push(s.last()));
    }
}

/// Two numbers with one decimal are one number.
pub proof fn lemma_decimal_injective(a: nat, b: nat)
    requires
        decimal(a) == decimal(b),
    ensures
        a == b,
{
    lemma_decimal(a);
    lemma_decimal(b);
}

spec fn ten_to(width: nat) -> nat
    decreases width,
{
    if width == 0 {
        1
    } else {
        10 * ten_to((width - 1) as nat)
    }
}

proof fn lemma_decimal_width(n: nat, width: nat)
    requires
        n < ten_to(width),
        width >= 1,
    ensures
        decimal(n).len() <= width,
    decreases width,
{
    if n >= 10 {
        if width == 1 {
            reveal_with_fuel(ten_to, 2);
        } else {
            lemma_decimal_width(n / 10, (width - 1) as nat);
        }
    }
}

/// What fits a machine integer is written with few digits.
pub proof fn lemma_decimal_len(n: nat)
    ensures
        n <= u64::MAX ==> decimal(n).len() <= 20,
        n <= u128::MAX ==> decimal(n).len() <= 39,
{
    reveal_with_fuel(ten_to, 40);
    if n <= u64::MAX {
        lemma_decimal_width(n, 20);
    }
    if n <= u128::MAX {
        lemma_decimal_width(n, 39);
    }
}

/// More digits never make a smaller number.
proof fn lemma_digits_value_monotone(s: Seq<char>, n: int)
    requires
        0 <= n <= s.len(),
    ensures
        digits_value(s.take(n)) <= digits_value(s),
    decreases s.len() - n,
{
    if n < s.len() {
        lemma_digits_value_monotone(s, n + 1);
        assert(s.take(n + 1).drop_last() =~= s.take(n));
    } else {
        assert(s.take(n) =~= s);
    }
}

/// Whether a character is an ASCII digit.
pub fn is_digit_char(c: char) -> (r: bool)
    ensures
        r == is_digit(c),
{
    '0' <= c && c <= '9'
}

/// Append `n` in base ten.
pub fn push_decimal(out: &mut String, n: u128)
    ensures
        final(out)@ == old(out)@ + decimal(n as nat),
    decreases n,
{
    if n >= 10 {
        push_decimal(out, n / 10);
    }
    let d: u8 = (n % 10) as u8;
    let ghost before = out@;
    out.push((48u8 + d) as char);
    proof {
        assert(out@ =~= before + seq![digit_char((n % 10) as nat)]);
        if n >= 10 {
            assert(out@ =~= old(out)@ + decimal(n as nat));
        } else {
            assert(out@ =~= old(out)@ + decimal(n as nat));
        }
    }
}

/// `n` in base ten.
pub fn decimal_text(n: u128) -> (s: String)
    ensures
        s@ == decimal(n as nat),
{
    let mut s = String::new();
    push_decimal(&mut s, n);
    assert(s@ =~= decimal(n as nat));
    s
}

/// The number that `chars[from..to]` writes, when it is digits and fits.
pub fn parse_digits(chars: &Vec<char>, from: usize, to: usize) -> (r: Option<u64>)
    requires
        from <= to <= chars.len(),
    ensures
        r == digits_to_u64(chars@.subrange(from as int, to as int)),
{
    let ghost s = chars@.subrange(from as int, to as int);
    if from == to {
        return None;
    }
    let mut value: u64 = 0;
    let mut i: usize = from;
    assert(s.take(0) =~= Seq::<char>::empty());
    while i < to
        invariant
            from <= i <= to <= chars.len(),
            s == chars@.subrange(from as int, to as int),
            all_digits(s.take(i - from)),
            value == digits_value(s.take(i - from)),
        decreases to - i,
    {
        let c = chars[i];
        assert(c == s[i - from]);
        if !is_digit_char(c) {
            return None;
        }
        let d: u64 = (c as u32 - 48) as u64;
        assert(d == digit_value(c));
        proof {
            assert(s.take(i - from + 1).drop_last() =~= s.take(i - from));
            assert(s.take(i - from + 1).last() == c);
            lemma_digits_value_monotone(s, i - from + 1);
        }
        let next: u128 = value as u128 * 10 + d as u128;
        if next > 18446744073709551615u128 {
            return None;
        }
        value = next as u64;
        i += 1;
    }
    assert(s.take(to - from) =~= s);
    Some(value)
}

/// `str::parse::<u64>`, with `None` for its error.
pub fn parse_u64(s: &str) -> (r: Option<u64>)
    ensures
        r == text_to_u64(s@),
{
    let chars = chars_of(s);
    if chars.len() > 0 && chars[0] == '+' {
        assert(s@.skip(1) =~= chars@.subrange(1, chars.len() as int));
        parse_digits(&chars, 1, chars.len())
    } else {
        assert(s@ =~= chars@.subrange(0, chars.len() as int));
        parse_digits(&chars, 0, chars.len())
    }
}

/// `str::parse::<usize>`, with `None` for its error.
pub fn parse_usize(s: &str) -> (r: Option<usize>)
    ensures
        r == text_to_usize(s@),
{
    match parse_u64(s) {
        Some(n) => if n <= usize::MAX as u64 {
            Some(n as usize)
        } else {
            None
        },
        None => None,
    }
}

// ---------------------------------------------------------------------------
// White space
// ---------------------------------------------------------------------------

/// The Unicode `White_Space` property.
pub open spec fn is_white_space(c: char) -> bool {
    ||| '\u{9}' <= c <= '\u{d}'
    ||| c == ' '
    ||| c == '\u{85}'
    ||| c == '\u{a0}'
    ||| c == '\u{1680}'
    ||| '\u{2000}' <= c <= '\u{200a}'
    ||| c == '\u{2028}'
    ||| c == '\u{2029}'
    ||| c == '\u{202f}'
    ||| c == '\u{205f}'
    ||| c == '\u{3000}'
}

/// The text without its leading white space.
pub open spec fn trim_start(s: Seq<char>) -> Seq<char>
    decreases s.len(),
{
    if s.len() > 0 && is_white_space(s[0]) {
        trim_start(s.drop_first())
    } else {
        s
    }
}

/// What is left is no longer, and starts with no white space.
pub proof fn lemma_trim_start(s: Seq<char>)
    ensures
        trim_start(s).len() <= s.len(),
        trim_start(s).len() > 0 ==> !is_white_space(trim_start(s)[0]),
    decreases s.len(),
{
    if s.len() > 0 && is_white_space(s[0]) {
        lemma_trim_start(s.drop_first());
    }
}

/// The text without its trailing white space.
pub open spec fn trim_end(s: Seq<char>) -> Seq<char>
    decreases s.len(),
{
    if s.len() > 0 && is_white_space(s.last()) {
        trim_end(s.drop_last())
    } else {
        s
    }
}

/// The text without the white space around it.
pub open spec fn trim(s: Seq<char>) -> Seq<char> {
    trim_end(trim_start(s))
}

/// Whether a character is white space.
pub fn is_white_space_char(c: char) -> (r: bool)
    ensures
        r == is_white_space(c),
{
    ('\u{9}' <= c && c <= '\u{d}') || c == ' ' || c == '\u{85}' || c == '\u{a0}' || c
        == '\u{1680}' || ('\u{2000}' <= c && c <= '\u{200a}') || c == '\u{2028}' || c
        == '\u{2029}' || c == '\u{202f}' || c == '\u{205f}' || c == '\u{3000}'
}

/// Where the white space at the start of `chars[from..to]` ends.
pub fn skip_space(chars: &Vec<char>, from: usize, to: usize) -> (r: usize)
    requires
        from <= to <= chars.len(),
    ensures
        from <= r <= to,
        chars@.subrange(r as int, to as int) == trim_start(
            chars@.subrange(from as int, to as int),
        ),
{
    let mut i: usize = from;
    while i < to && is_white_space_char(chars[i])
        invariant
            from <= i <= to <= chars.len(),
            trim_start(chars@.subrange(i as int, to as int)) == trim_start(
                chars@.subrange(from as int, to as int),
            ),
        decreases to - i,
    {
        assert(chars@.subrange(i as int, to as int).drop_first() =~= chars@.subrange(
            i + 1,
            to as int,
        ));
        i += 1;
    }
    i
}

/// Where the white space at the end of `chars[from..to]` begins.
pub fn skip_space_back(chars: &Vec<char>, from: usize, to: usize) -> (r: usize)
    requires
        from <= to <= chars.len(),
    ensures
        from <= r <= to,
        chars@.subrange(from as int, r as int) == trim_end(chars@.subrange(from as int, to as int)),
{
    let mut i: usize = to;
    while i > from && is_white_space_char(chars[i - 1])
        invariant
            from <= i <= to <= chars.len(),
            trim_end(chars@.subrange(from as int, i as int)) == trim_end(
                chars@.subrange(from as int, to as int),
            ),
        decreases i,
    {
        assert(chars@.subrange(from as int, i as int).drop_last() =~= chars@.subrange(
            from as int,
            i - 1,
        ));
        i -= 1;
    }
    i
}

/// `str::trim`.
pub fn trimmed(s: &str) -> (r: &str)
    ensures
        r@ == trim(s@),
{
    let chars = chars_of(s);
    assert(chars@ =~= chars@.subrange(0, chars.len() as int));
    let from: usize = skip_space(&chars, 0, chars.len());
    let to: usize = skip_space_back(&chars, from, chars.len());
    s.substring_char(from, to)
}

// ---------------------------------------------------------------------------
// Search
// ---------------------------------------------------------------------------

/// How many characters stand before the first `c`: all of them when there
/// is none.
pub open spec fn span_until(s: Seq<char>, c: char) -> nat
    decreases s.len(),
{
    if s.len() == 0 || s[0] == c {
        0
    } else {
        1 + span_until(s.drop_first(), c)
    }
}

/// The span is where the first `c` stands, and nowhere else.
pub proof fn lemma_span_until(s: Seq<char>, c: char)
    ensures
        span_until(s, c) <= s.len(),
        forall|i: int| 0 <= i < span_until(s, c) ==> s[i] != c,
        span_until(s, c) < s.len() ==> s[span_until(s, c) as int] == c,
    decreases s.len(),
{
    if s.len() > 0 && s[0] != c {
        let rest = s.drop_first();
        lemma_span_until(rest, c);
        assert forall|i: int| 0 <= i < span_until(s, c) implies s[i] != c by {
            if i > 0 {
                assert(s[i] == rest[i - 1]);
            }
        }
    }
}

/// A span is known by what it ends at.
pub proof fn lemma_span_until_is(s: Seq<char>, c: char, n: int)
    requires
        0 <= n <= s.len(),
        forall|i: int| 0 <= i < n ==> s[i] != c,
        n < s.len() ==> s[n] == c,
    ensures
        span_until(s, c) == n,
{
    lemma_span_until(s, c);
    let m = span_until(s, c) as int;
    if m < n {
        assert(s[m] != c);
    } else if n < m {
        assert(s[n] != c);
    }
}

/// The position of the first `c` in `chars[from..to]`, or `to`.
pub fn find_char(chars: &Vec<char>, from: usize, to: usize, c: char) -> (r: usize)
    requires
        from <= to <= chars.len(),
    ensures
        from <= r <= to,
        r - from == span_until(chars@.subrange(from as int, to as int), c),
        r < to ==> chars@[r as int] == c,
{
    let ghost s = chars@.subrange(from as int, to as int);
    let mut i: usize = from;
    while i < to
        invariant
            from <= i <= to <= chars.len(),
            s == chars@.subrange(from as int, to as int),
            forall|j: int| 0 <= j < i - from ==> s[j] != c,
        decreases to - i,
    {
        assert(s[i - from] == chars@[i as int]);
        if chars[i] == c {
            proof {
                lemma_span_until_is(s, c, i - from);
            }
            return i;
        }
        i += 1;
    }
    proof {
        lemma_span_until_is(s, c, to - from);
    }
    to
}

/// Whether `chars[from..to]` is `key`.
pub fn range_eq(chars: &Vec<char>, from: usize, to: usize, key: &Vec<char>) -> (r: bool)
    requires
        from <= to <= chars.len(),
    ensures
        r == (chars@.subrange(from as int, to as int) == key@),
{
    let ghost s = chars@.subrange(from as int, to as int);
    if to - from != key.len() {
        return false;
    }
    let mut i: usize = 0;
    while i < key.len()
        invariant
            from <= to <= chars.len(),
            to - from == key.len(),
            i <= key.len(),
            s == chars@.subrange(from as int, to as int),
            forall|j: int| 0 <= j < i ==> s[j] == key@[j],
        decreases key.len() - i,
    {
        assert(s[i as int] == chars@[from + i]);
        if chars[from + i] != key[i] {
            return false;
        }
        i += 1;
    }
    assert(s =~= key@);
    true
}

/// The first position at or after `i` where `key` occurs in `s`.
pub open spec fn find_from(s: Seq<char>, key: Seq<char>, i: nat) -> Option<nat>
    decreases s.len() + 1 - i,
{
    if i + key.len() > s.len() {
        None
    } else if s.subrange(i as int, (i + key.len()) as int) == key {
        Some(i)
    } else {
        find_from(s, key, i + 1)
    }
}

/// `str::find` for a text, counted in characters.
pub fn find_text(chars: &Vec<char>, key: &Vec<char>) -> (r: Option<usize>)
    ensures
        match r {
            Some(i) => find_from(chars@, key@, 0) == Some(i as nat) && i + key.len() <= chars.len(),
            None => find_from(chars@, key@, 0) is None,
        },
{
    let n: usize = chars.len();
    let k: usize = key.len();
    if k > n {
        return None;
    }
    let mut i: usize = 0;
    while i <= n - k
        invariant
            n == chars.len(),
            k == key.len(),
            k <= n,
            i <= n - k + 1,
            find_from(chars@, key@, 0) == find_from(chars@, key@, i as nat),
        decreases n - k + 1 - i,
    {
        if range_eq(chars, i, i + k, key) {
            return Some(i);
        }
        if i == n - k {
            assert(find_from(chars@, key@, (i + 1) as nat) is None);
            return None;
        }
        i += 1;
    }
    None
}

// ---------------------------------------------------------------------------
// Lines
// ---------------------------------------------------------------------------

/// A character that ends a line.
pub open spec fn is_break(c: char) -> bool {
    c == '\n' || c == '\r'
}

/// No line ends inside this text.
pub open spec fn single_line(s: Seq<char>) -> bool {
    forall|i: int| 0 <= i < s.len() ==> !is_break(#[trigger] s[i])
}

/// The lines of `s`, the first of them continuing `line`. LF, CR LF and a
/// bare CR alike end a line.
pub open spec fn lines_from(line: Seq<char>, s: Seq<char>) -> Seq<Seq<char>>
    decreases s.len(),
{
    if s.len() == 0 {
        seq![line]
    } else if s.len() > 1 && s[0] == '\r' && s[1] == '\n' {
        seq![line] + lines_from(seq![], s.skip(2))
    } else if is_break(s[0]) {
        seq![line] + lines_from(seq![], s.skip(1))
    } else {
        lines_from(line.push(s[0]), s.skip(1))
    }
}

/// The lines of a text: one more than it has line breaks.
pub open spec fn lines(s: Seq<char>) -> Seq<Seq<char>> {
    lines_from(seq![], s)
}

/// Lines, each with its line feed.
pub open spec fn terminated(lines: Seq<Seq<char>>) -> Seq<char>
    decreases lines.len(),
{
    if lines.len() == 0 {
        seq![]
    } else {
        terminated(lines.drop_last()) + lines.last().push('\n')
    }
}

/// Lines with a line feed between one and the next.
pub open spec fn joined(lines: Seq<Seq<char>>) -> Seq<char> {
    terminated(lines).drop_last()
}

/// The texts of a list of strings.
pub open spec fn texts(list: Seq<String>) -> Seq<Seq<char>> {
    list.map_values(|s: String| s@)
}

/// A text has at least one line, and no line break inside any.
pub proof fn lemma_lines_from(line: Seq<char>, s: Seq<char>)
    requires
        single_line(line),
    ensures
        lines_from(line, s).len() >= 1,
        forall|i: int|
            0 <= i < lines_from(line, s).len() ==> single_line(#[trigger] lines_from(line, s)[i]),
    decreases s.len(),
{
    let all = lines_from(line, s);
    if s.len() == 0 {
    } else if is_break(s[0]) {
        let n: int = if s.len() > 1 && s[0] == '\r' && s[1] == '\n' {
            2
        } else {
            1
        };
        lemma_lines_from(seq![], s.skip(n));
        let rest = lines_from(seq![], s.skip(n));
        assert forall|i: int| 0 <= i < all.len() implies single_line(#[trigger] all[i]) by {
            if i > 0 {
                assert(all[i] == rest[i - 1]);
                assert(single_line(rest[i - 1]));
            }
        }
    } else {
        assert forall|i: int| 0 <= i < line.push(s[0]).len() implies !is_break(
            #[trigger] line.push(s[0])[i],
        ) by {
            if i < line.len() {
                assert(!is_break(line[i]));
            }
        }
        lemma_lines_from(line.push(s[0]), s.skip(1));
    }
}

/// Terminated lines concatenate.
pub proof fn lemma_terminated_concat(a: Seq<Seq<char>>, b: Seq<Seq<char>>)
    ensures
        terminated(a + b) == terminated(a) + terminated(b),
    decreases b.len(),
{
    if b.len() == 0 {
        assert(a + b =~= a);
        assert(terminated(a) + terminated(b) =~= terminated(a));
    } else {
        lemma_terminated_concat(a, b.drop_last());
        assert((a + b).drop_last() =~= a + b.drop_last());
        assert((a + b).last() == b.last());
        assert(terminated(a + b) =~= terminated(a) + terminated(b));
    }
}

/// One terminated line.
pub proof fn lemma_terminated_one(line: Seq<char>)
    ensures
        terminated(seq![line]) == line.push('\n'),
{
    let one = seq![line];
    assert(one.drop_last() =~= Seq::<Seq<char>>::empty());
    assert(terminated(one.drop_last()) =~= Seq::<char>::empty());
    assert(terminated(one) =~= line.push('\n'));
}

/// A text without carriage returns is its own lines joined.
pub proof fn lemma_join_lines_from(line: Seq<char>, s: Seq<char>)
    requires
        forall|i: int| 0 <= i < s.len() ==> s[i] != '\r',
    ensures
        terminated(lines_from(line, s)) == line + s.push('\n'),
    decreases s.len(),
{
    if s.len() == 0 {
        lemma_terminated_one(line);
        assert(line + s.push('\n') =~= line.push('\n'));
    } else {
        let rest = s.skip(1);
        assert forall|i: int| 0 <= i < rest.len() implies rest[i] != '\r' by {
            assert(rest[i] == s[i + 1]);
        }
        if is_break(s[0]) {
            lemma_join_lines_from(seq![], rest);
            lemma_terminated_concat(seq![line], lines_from(seq![], rest));
            lemma_terminated_one(line);
            assert(line.push('\n') + (Seq::<char>::empty() + rest.push('\n')) =~= line + s.push(
                '\n',
            ));
        } else {
            lemma_join_lines_from(line.push(s[0]), rest);
            assert(line.push(s[0]) + rest.push('\n') =~= line + s.push('\n'));
        }
    }
}

/// Joining the lines of a text gives the text back, but for its carriage
/// returns: a text that has none comes back as it is.
pub proof fn joined_lines_are_the_text(s: Seq<char>)
    requires
        forall|i: int| 0 <= i < s.len() ==> s[i] != '\r',
    ensures
        joined(lines(s)) == s,
{
    lemma_join_lines_from(seq![], s);
    assert((Seq::<char>::empty() + s.push('\n')).drop_last() =~= s);
}

/// The lines of a text.
pub fn split_lines(s: &str) -> (r: Vec<String>)
    ensures
        texts(r@) == lines(s@),
{
    let chars = chars_of(s);
    let n: usize = chars.len();
    let mut done: Vec<String> = Vec::new();
    let mut line = String::new();
    let mut i: usize = 0;
    assert(chars@.skip(0) =~= s@);
    assert(texts(done@) + lines_from(line@, chars@.skip(0)) =~= lines(s@));
    while i < n
        invariant
            n == chars.len(),
            i <= n,
            texts(done@) + lines_from(line@, chars@.skip(i as int)) == lines(s@),
        decreases n - i,
    {
        let c = chars[i];
        let ghost rest = chars@.skip(i as int);
        let ghost before = texts(done@);
        assert(rest[0] == c);
        assert(rest.len() > 1 ==> rest[1] == chars@[i + 1]);
        if c == '\r' || c == '\n' {
            let step: usize = if c == '\r' && i + 1 < n && chars[i + 1] == '\n' {
                2
            } else {
                1
            };
            let ghost ended = line@;
            let mut full = String::new();
            std::mem::swap(&mut full, &mut line);
            done.push(full);
            i += step;
            proof {
                assert(rest.skip(step as int) =~= chars@.skip(i as int));
                assert(line@ =~= Seq::<char>::empty());
                assert(texts(done@) =~= before.push(ended));
                assert(before + (seq![ended] + lines_from(seq![], chars@.skip(i as int)))
                    =~= before.push(ended) + lines_from(seq![], chars@.skip(i as int)));
            }
        } else {
            line.push(c);
            i += 1;
            assert(rest.skip(1) =~= chars@.skip(i as int));
        }
    }
    assert(chars@.skip(n as int) =~= Seq::<char>::empty());
    let ghost before = texts(done@);
    let ghost ended = line@;
    done.push(line);
    assert(texts(done@) =~= before + seq![ended]);
    done
}

// ---------------------------------------------------------------------------
// UTF-8
// ---------------------------------------------------------------------------

/// The encoding of a concatenation is the concatenation of the encodings.
pub proof fn lemma_encode_concat(a: Seq<char>, b: Seq<char>)
    ensures
        utf8::encode_utf8(a + b) == utf8::encode_utf8(a) + utf8::encode_utf8(b),
    decreases a.len(),
{
    if a.len() == 0 {
        assert(a + b =~= b);
        assert(utf8::encode_utf8(a) + utf8::encode_utf8(b) =~= utf8::encode_utf8(b));
    } else {
        lemma_encode_concat(a.drop_first(), b);
        assert((a + b).drop_first() =~= a.drop_first() + b);
        assert(utf8::encode_utf8(a + b) =~= utf8::encode_utf8(a) + utf8::encode_utf8(b));
    }
}

/// The bytes of a character outside ASCII are all above it.
proof fn lemma_scalar_high(c: u32)
    requires
        utf8::is_scalar(c),
        c >= 0x80,
    ensures
        forall|i: int|
            0 <= i < utf8::encode_scalar(c).len() ==> #[trigger] utf8::encode_scalar(c)[i] >= 0x80,
{
    assert(utf8::leading_byte_width_2(c) >= 0x80) by (bit_vector);
    assert(utf8::leading_byte_width_3(c) >= 0x80) by (bit_vector);
    assert(utf8::leading_byte_width_4(c) >= 0x80) by (bit_vector);
    assert(utf8::last_continuation_byte(c) >= 0x80) by (bit_vector);
    assert(utf8::second_last_continuation_byte(c) >= 0x80) by (bit_vector);
    assert(utf8::third_last_continuation_byte(c) >= 0x80) by (bit_vector);
}

/// An ASCII character is one byte, its own.
proof fn lemma_scalar_ascii(c: u32)
    requires
        c < 0x80,
    ensures
        utf8::encode_scalar(c) == seq![c as u8],
{
    assert(c as u8 == utf8::leading_byte_width_1(c)) by (bit_vector)
        requires
            c < 0x80,
    ;
}

/// An ASCII byte stands in the encoding of its own character only.
proof fn lemma_scalar_free_of(a: char, c: char)
    requires
        a != c,
        c < '\u{80}',
    ensures
        forall|i: int|
            0 <= i < utf8::encode_scalar(a as u32).len() ==> #[trigger] utf8::encode_scalar(
                a as u32,
            )[i] != c as u8,
{
    utf8::char_is_scalar(a);
    if 0x80 > a as u32 {
        lemma_scalar_ascii(a as u32);
    } else {
        lemma_scalar_high(a as u32);
    }
}

/// An ASCII byte stands in an encoding only where its character does.
pub proof fn lemma_encode_free_of(s: Seq<char>, c: char)
    requires
        c < '\u{80}',
        forall|i: int| 0 <= i < s.len() ==> s[i] != c,
    ensures
        forall|i: int|
            0 <= i < utf8::encode_utf8(s).len() ==> #[trigger] utf8::encode_utf8(s)[i] != c as u8,
    decreases s.len(),
{
    if s.len() > 0 {
        let rest = s.drop_first();
        assert forall|i: int| 0 <= i < rest.len() implies rest[i] != c by {
            assert(rest[i] == s[i + 1]);
        }
        lemma_encode_free_of(rest, c);
        let head = utf8::encode_scalar(s[0] as u32);
        assert(s[0] != c);
        lemma_scalar_free_of(s[0], c);
        assert forall|i: int| 0 <= i < utf8::encode_utf8(s).len() implies #[trigger] utf8::encode_utf8(
            s,
        )[i] != c as u8 by {
            if i < head.len() {
                assert(utf8::encode_utf8(s)[i] == head[i]);
            } else {
                assert(utf8::encode_utf8(s)[i] == utf8::encode_utf8(rest)[i - head.len()]);
            }
        }
    }
}

/// Every character takes at least one byte.
pub proof fn lemma_encode_len(s: Seq<char>)
    ensures
        s.len() <= utf8::encode_utf8(s).len(),
    decreases s.len(),
{
    if s.len() > 0 {
        lemma_encode_len(s.drop_first());
    }
}

/// A character is at most four bytes.
pub proof fn lemma_encode_len_bound(s: Seq<char>)
    ensures
        utf8::encode_utf8(s).len() <= 4 * s.len(),
    decreases s.len(),
{
    if s.len() > 0 {
        lemma_encode_len_bound(s.drop_first());
        lemma_scalar_len(s[0]);
    }
}

proof fn lemma_scalar_len(c: char)
    ensures
        utf8::encode_scalar(c as u32).len() <= 4,
{
    utf8::char_is_scalar(c);
}

/// One ASCII character encodes as its own byte.
pub proof fn lemma_encode_ascii_char(c: char)
    requires
        c < '\u{80}',
    ensures
        utf8::encode_utf8(seq![c]) == seq![c as u8],
{
    let s = seq![c];
    lemma_scalar_ascii(c as u32);
    assert(s.drop_first() =~= Seq::<char>::empty());
    assert(utf8::encode_utf8(s.drop_first()) =~= Seq::<u8>::empty());
    assert(utf8::encode_utf8(s) =~= seq![c as u8]);
}

/// Text of ASCII encodes as its own bytes.
pub proof fn lemma_encode_ascii(s: Seq<char>)
    requires
        forall|i: int| 0 <= i < s.len() ==> #[trigger] s[i] < '\u{80}',
    ensures
        utf8::encode_utf8(s) == Seq::new(s.len(), |i: int| s[i] as u8),
    decreases s.len(),
{
    let bytes = Seq::new(s.len(), |i: int| s[i] as u8);
    if s.len() > 0 {
        let first = seq![s[0]];
        let rest = s.drop_first();
        assert forall|i: int| 0 <= i < rest.len() implies #[trigger] rest[i] < '\u{80}' by {
            assert(s[i + 1] < '\u{80}');
        }
        lemma_encode_ascii(rest);
        assert(s =~= first + rest);
        lemma_encode_concat(first, rest);
        assert(s[0] < '\u{80}');
        lemma_encode_ascii_char(s[0]);
        assert(utf8::encode_utf8(s) =~= bytes);
    } else {
        assert(utf8::encode_utf8(s) =~= bytes);
    }
}

// ---------------------------------------------------------------------------
// Laws
// ---------------------------------------------------------------------------

/// Among the ASCII characters, white space is the space and the five controls
/// from the tab to the carriage return.
pub proof fn white_space_in_ascii(c: char)
    requires
        c < '\u{80}',
    ensures
        is_white_space(c) <==> c == ' ' || c == '\t' || c == '\n' || c == '\u{b}' || c == '\u{c}' || c
            == '\r',
{
}

/// What white space leads is what is left of it.
pub proof fn lemma_trim_start_is(a: Seq<char>, s: Seq<char>)
    requires
        forall|i: int| 0 <= i < a.len() ==> is_white_space(#[trigger] a[i]),
        s.len() > 0 ==> !is_white_space(s[0]),
    ensures
        trim_start(a + s) == s,
    decreases a.len(),
{
    if a.len() > 0 {
        let rest = a.drop_first();
        assert forall|i: int| 0 <= i < rest.len() implies is_white_space(#[trigger] rest[i]) by {
            assert(rest[i] == a[i + 1]);
        }
        lemma_trim_start_is(rest, s);
        assert(is_white_space(a[0]));
        assert((a + s).drop_first() =~= rest + s);
    } else {
        assert(a + s =~= s);
    }
}

proof fn lemma_trim_end_is(s: Seq<char>, b: Seq<char>)
    requires
        forall|i: int| 0 <= i < b.len() ==> is_white_space(#[trigger] b[i]),
        s.len() > 0 ==> !is_white_space(s.last()),
    ensures
        trim_end(s + b) == s,
    decreases b.len(),
{
    if b.len() > 0 {
        let rest = b.drop_last();
        assert forall|i: int| 0 <= i < rest.len() implies is_white_space(#[trigger] rest[i]) by {
            assert(rest[i] == b[i]);
        }
        lemma_trim_end_is(s, rest);
        assert(is_white_space(b[b.len() - 1]));
        assert((s + b).drop_last() =~= s + rest);
    } else {
        assert(s + b =~= s);
    }
}

/// Trimming takes the white space off both ends, all of it, and nothing else.
pub proof fn trimming_takes_white_space_off_the_ends(a: Seq<char>, s: Seq<char>, b: Seq<char>)
    requires
        forall|i: int| 0 <= i < a.len() ==> is_white_space(#[trigger] a[i]),
        forall|i: int| 0 <= i < b.len() ==> is_white_space(#[trigger] b[i]),
        s.len() > 0 ==> !is_white_space(s[0]) && !is_white_space(s.last()),
    ensures
        trim(a + s + b) == s,
        trim_start(a + s) == s,
        trim_end(s + b) == s,
{
    lemma_trim_start_is(a, s);
    lemma_trim_end_is(s, b);
    if s.len() > 0 {
        lemma_trim_start_is(a, s + b);
        assert(a + s + b =~= a + (s + b));
    } else {
        let all = a + s + b;
        assert forall|i: int| 0 <= i < all.len() implies is_white_space(#[trigger] all[i]) by {
            if i < a.len() {
                assert(is_white_space(a[i]));
            } else {
                assert(is_white_space(b[i - a.len()]));
            }
        }
        lemma_trim_start_is(all, s);
        assert(all + s =~= all);
    }
}

proof fn lemma_zeros_in_front(zeros: Seq<char>, d: Seq<char>)
    requires
        forall|i: int| 0 <= i < zeros.len() ==> #[trigger] zeros[i] == '0',
    ensures
        digits_value(zeros + d) == digits_value(d),
    decreases zeros.len() + d.len(),
{
    let s = zeros + d;
    if d.len() > 0 {
        lemma_zeros_in_front(zeros, d.drop_last());
        assert(s.drop_last() =~= zeros + d.drop_last());
    } else if zeros.len() > 0 {
        let most = zeros.drop_last();
        assert forall|i: int| 0 <= i < most.len() implies #[trigger] most[i] == '0' by {
            assert(most[i] == zeros[i]);
        }
        lemma_zeros_in_front(most, d);
        assert(s.drop_last() =~= most + d);
        assert(zeros[zeros.len() - 1] == '0');
    }
}

/// A number is read back from its decimal, with zeros in front or without, and
/// with a `+` in front of it where one may stand. What 64 bits do not hold is
/// not a number.
pub proof fn numbers_read_back(n: nat, zeros: Seq<char>)
    requires
        forall|i: int| 0 <= i < zeros.len() ==> #[trigger] zeros[i] == '0',
    ensures
        n <= 0xffff_ffff_ffff_ffff ==> digits_to_u64(zeros + decimal(n)) == Some(n as u64),
        n > 0xffff_ffff_ffff_ffff ==> digits_to_u64(zeros + decimal(n)) is None,
        text_to_u64(zeros + decimal(n)) == digits_to_u64(zeros + decimal(n)),
        text_to_u64(seq!['+'] + (zeros + decimal(n))) == digits_to_u64(zeros + decimal(n)),
        n <= usize::MAX && n <= u64::MAX ==> text_to_usize(zeros + decimal(n)) == Some(n as usize),
{
    let d = decimal(n);
    let s = zeros + d;
    lemma_decimal(n);
    lemma_zeros_in_front(zeros, d);
    assert forall|i: int| 0 <= i < s.len() implies is_digit(#[trigger] s[i]) by {
        if i < zeros.len() {
            assert(zeros[i] == '0');
        } else {
            assert(is_digit(d[i - zeros.len()]));
        }
    }
    assert(is_digit(s[0]));
    assert((seq!['+'] + s).skip(1) =~= s);
}

/// Nothing but digits is a number: not the empty text, and none with another
/// character in it, but for a `+` in front where one may stand.
pub proof fn only_digits_are_numbers(s: Seq<char>, i: int)
    requires
        s.len() == 0 || (0 <= i < s.len() && !('0' <= s[i] && s[i] <= '9')),
    ensures
        digits_to_u64(s) is None,
        s.len() == 0 || i > 0 || s[0] != '+' ==> text_to_u64(s) is None,
{
    if s.len() > 0 {
        assert(!is_digit(s[i]));
        if s[0] == '+' && i > 0 {
            assert(s.skip(1)[i - 1] == s[i]);
        }
    }
}

proof fn lemma_lines_from_plain(line: Seq<char>, s: Seq<char>, rest: Seq<char>)
    requires
        forall|i: int| 0 <= i < s.len() ==> s[i] != '\n' && #[trigger] s[i] != '\r',
    ensures
        lines_from(line, s + rest) == lines_from(line + s, rest),
    decreases s.len(),
{
    let all = s + rest;
    if s.len() > 0 {
        let most = s.skip(1);
        assert(s[0] != '\n' && s[0] != '\r');
        assert forall|i: int| 0 <= i < most.len() implies most[i] != '\n' && #[trigger] most[i]
            != '\r' by {
            assert(most[i] == s[i + 1]);
        }
        lemma_lines_from_plain(line.push(s[0]), most, rest);
        assert(all.skip(1) =~= most + rest);
        assert(line.push(s[0]) + most =~= line + s);
    } else {
        assert(all =~= rest);
        assert(line + s =~= line);
    }
}

/// A text is its lines: one without a line break is one line, and a line feed,
/// a carriage return and the two together each end one. A carriage return that
/// a line feed follows is no line break of its own.
pub proof fn line_breaks_end_lines(line: Seq<char>, rest: Seq<char>)
    requires
        forall|i: int| 0 <= i < line.len() ==> line[i] != '\n' && #[trigger] line[i] != '\r',
    ensures
        lines(line) == seq![line],
        lines(line + seq!['\n'] + rest) == seq![line] + lines(rest),
        lines(line + seq!['\r', '\n'] + rest) == seq![line] + lines(rest),
        rest.len() == 0 || rest[0] != '\n' ==> lines(line + seq!['\r'] + rest) == seq![line] + lines(
            rest,
        ),
{
    let none = Seq::<char>::empty();
    assert(none + line =~= line);
    lemma_lines_from_plain(none, line, none);
    assert(line + none =~= line);
    let a = seq!['\n'] + rest;
    lemma_lines_from_plain(none, line, a);
    assert(line + seq!['\n'] + rest =~= line + a);
    assert(a.skip(1) =~= rest);
    let b = seq!['\r', '\n'] + rest;
    lemma_lines_from_plain(none, line, b);
    assert(line + seq!['\r', '\n'] + rest =~= line + b);
    assert(b.skip(2) =~= rest);
    let c = seq!['\r'] + rest;
    lemma_lines_from_plain(none, line, c);
    assert(line + seq!['\r'] + rest =~= line + c);
    assert(c.skip(1) =~= rest);
}

/// A decimal ends in the digit of the ones, and what stands before it is the
/// decimal of the tens.
pub proof fn decimals_are_in_base_ten(n: nat)
    ensures
        decimal(n).last() as u32 == 48 + n % 10,
        n < 10 ==> decimal(n).len() == 1,
        n >= 10 ==> decimal(n).drop_last() == decimal(n / 10),
{
    if n >= 10 {
        assert(decimal(n).drop_last() =~= decimal(n / 10));
    }
}

} // verus!
