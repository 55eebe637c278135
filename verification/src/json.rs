//! The shape of JSON text: just enough to find the members of an object.
//! Names and strings are taken as they are written, escapes and all.

use crate::text;
use vstd::prelude::*;

verus! {

/// A text that starts with a character.
pub open spec fn starts(s: Seq<char>, c: char) -> bool {
    s.len() > 0 && s[0] == c
}

// ---------------------------------------------------------------------------
// Strings
// ---------------------------------------------------------------------------

/// A hexadecimal digit.
pub open spec fn is_hex(c: char) -> bool {
    text::is_digit(c) || 'a' <= c <= 'f' || 'A' <= c <= 'F'
}

/// A character that a backslash may precede, `u` aside.
pub open spec fn is_escaped(c: char) -> bool {
    c == '"' || c == '\\' || c == '/' || c == 'b' || c == 'f' || c == 'n' || c == 'r' || c == 't'
}

/// How many characters the next one of a string is written with, if it can
/// stand there: an escape, or any character but a quote, a backslash and the
/// controls.
pub open spec fn unit(s: Seq<char>) -> Option<nat> {
    if s.len() == 0 || s[0] == '"' || ' ' > s[0] {
        None
    } else if s[0] != '\\' {
        Some(1)
    } else if s.len() >= 2 && is_escaped(s[1]) {
        Some(2)
    } else if s.len() >= 6 && s[1] == 'u' && is_hex(s[2]) && is_hex(s[3]) && is_hex(s[4]) && is_hex(
        s[5],
    ) {
        Some(6)
    } else {
        None
    }
}

/// What follows a string, given what follows its opening quote.
pub open spec fn string_rest(s: Seq<char>) -> Option<Seq<char>>
    decreases s.len(),
{
    if starts(s, '"') {
        Some(s.skip(1))
    } else {
        match unit(s) {
            Some(n) => string_rest(s.skip(n as int)),
            None => None,
        }
    }
}

/// What follows the string that a text starts with.
pub open spec fn quoted_rest(s: Seq<char>) -> Option<Seq<char>> {
    if starts(s, '"') {
        string_rest(s.skip(1))
    } else {
        None
    }
}

proof fn lemma_string_rest(s: Seq<char>)
    ensures
        string_rest(s) matches Some(rest) ==> rest.len() < s.len(),
    decreases s.len(),
{
    if !starts(s, '"') {
        if let Some(n) = unit(s) {
            lemma_string_rest(s.skip(n as int));
        }
    }
}

/// What follows a string is shorter than what starts with it.
pub proof fn lemma_quoted_rest(s: Seq<char>)
    ensures
        quoted_rest(s) matches Some(rest) ==> rest.len() + 1 < s.len(),
{
    if starts(s, '"') {
        lemma_string_rest(s.skip(1));
    }
}

fn is_hex_char(c: char) -> (r: bool)
    ensures
        r == is_hex(c),
{
    text::is_digit_char(c) || ('a' <= c && c <= 'f') || ('A' <= c && c <= 'F')
}

fn is_escaped_char(c: char) -> (r: bool)
    ensures
        r == is_escaped(c),
{
    c == '"' || c == '\\' || c == '/' || c == 'b' || c == 'f' || c == 'n' || c == 'r' || c == 't'
}

/// Where the string that starts at `at` ends.
pub fn skip_string(chars: &Vec<char>, at: usize) -> (r: Option<usize>)
    requires
        at <= chars.len(),
    ensures
        match r {
            Some(end) => at < end <= chars.len() && quoted_rest(chars@.skip(at as int)) == Some(
                chars@.skip(end as int),
            ),
            None => quoted_rest(chars@.skip(at as int)) is None,
        },
{
    let n: usize = chars.len();
    if at >= n || chars[at] != '"' {
        return None;
    }
    let mut i: usize = at + 1;
    assert(chars@.skip(at as int).skip(1) =~= chars@.skip(i as int));
    while i < n && chars[i] != '"'
        invariant
            n == chars.len(),
            at < i <= n,
            quoted_rest(chars@.skip(at as int)) == string_rest(chars@.skip(i as int)),
        decreases n - i,
    {
        let ghost s = chars@.skip(i as int);
        let c = chars[i];
        assert(s[0] == c);
        assert(s.len() == n - i);
        let step: usize = if ' ' > c {
            return None;
        } else if c != '\\' {
            1
        } else if n - i >= 2 && is_escaped_char(chars[i + 1]) {
            2
        } else if n - i >= 6 && chars[i + 1] == 'u' && is_hex_char(chars[i + 2]) && is_hex_char(
            chars[i + 3],
        ) && is_hex_char(chars[i + 4]) && is_hex_char(chars[i + 5]) {
            6
        } else {
            return None;
        };
        assert(unit(s) == Some(step as nat));
        assert(s.skip(step as int) =~= chars@.skip(i + step));
        i += step;
    }
    if i < n {
        assert(chars@.skip(i as int).skip(1) =~= chars@.skip(i + 1));
        Some(i + 1)
    } else {
        None
    }
}

// ---------------------------------------------------------------------------
// Numbers and literals
// ---------------------------------------------------------------------------

/// How many digits a text starts with.
pub open spec fn digit_run(s: Seq<char>) -> nat
    decreases s.len(),
{
    if s.len() > 0 && text::is_digit(s[0]) {
        1 + digit_run(s.drop_first())
    } else {
        0
    }
}

/// At least one digit, and no more than digits.
pub open spec fn is_digits(s: Seq<char>) -> bool {
    s.len() > 0 && text::all_digits(s)
}

/// The exponent of a number, if it has one: `e`, a sign if there is one, and
/// digits.
pub open spec fn is_exponent(s: Seq<char>) -> bool {
    ||| s.len() == 0
    ||| (s[0] == 'e' || s[0] == 'E') && {
        let power = s.skip(1);
        if starts(power, '+') || starts(power, '-') {
            is_digits(power.skip(1))
        } else {
            is_digits(power)
        }
    }
}

/// What follows the whole part of a number: a fraction and an exponent, each
/// if it has one.
pub open spec fn is_number_tail(s: Seq<char>) -> bool {
    if starts(s, '.') {
        let digits = digit_run(s.skip(1));
        digits > 0 && is_exponent(s.skip(1).skip(digits as int))
    } else {
        is_exponent(s)
    }
}

/// A number without its sign: a whole part with no idle zero, and what
/// follows it.
pub open spec fn is_unsigned(s: Seq<char>) -> bool {
    let digits = digit_run(s);
    digits > 0 && (digits == 1 || s[0] != '0') && is_number_tail(s.skip(digits as int))
}

/// A number.
pub open spec fn is_number(s: Seq<char>) -> bool {
    if starts(s, '-') {
        is_unsigned(s.skip(1))
    } else {
        is_unsigned(s)
    }
}

/// A number, or one of the three words.
pub open spec fn is_literal(s: Seq<char>) -> bool {
    s == "true"@ || s == "false"@ || s == "null"@ || is_number(s)
}

/// A character that ends a number or a word.
pub open spec fn is_delimiter(c: char) -> bool {
    text::is_white_space(c) || c == ',' || c == ':' || c == '"' || c == '{' || c == '}' || c == '['
        || c == ']'
}

/// How many characters stand before the first delimiter.
pub open spec fn word_run(s: Seq<char>) -> nat
    decreases s.len(),
{
    if s.len() > 0 && !is_delimiter(s[0]) {
        1 + word_run(s.drop_first())
    } else {
        0
    }
}

/// A run of digits is part of its text, and digits.
pub proof fn lemma_digit_run(s: Seq<char>)
    ensures
        digit_run(s) <= s.len(),
        text::all_digits(s.take(digit_run(s) as int)),
        digit_run(s) < s.len() ==> !text::is_digit(s[digit_run(s) as int]),
    decreases s.len(),
{
    if s.len() > 0 && text::is_digit(s[0]) {
        let rest = s.drop_first();
        lemma_digit_run(rest);
        assert forall|i: int| 0 <= i < digit_run(s) implies text::is_digit(
            #[trigger] s.take(digit_run(s) as int)[i],
        ) by {
            if i > 0 {
                assert(s[i] == rest.take(digit_run(rest) as int)[i - 1]);
            }
        }
        if digit_run(s) < s.len() {
            assert(s[digit_run(s) as int] == rest[digit_run(rest) as int]);
        }
    }
}

/// Digits that are followed by something else are the run.
pub proof fn lemma_digit_run_is(d: Seq<char>, rest: Seq<char>)
    requires
        text::all_digits(d),
        rest.len() > 0 ==> !text::is_digit(rest[0]),
    ensures
        digit_run(d + rest) == d.len(),
    decreases d.len(),
{
    if d.len() > 0 {
        assert(text::is_digit(d[0]));
        assert((d + rest)[0] == d[0]);
        assert((d + rest).drop_first() =~= d.drop_first() + rest);
        assert forall|i: int| 0 <= i < d.drop_first().len() implies text::is_digit(
            #[trigger] d.drop_first()[i],
        ) by {
            assert(text::is_digit(d[i + 1]));
        }
        lemma_digit_run_is(d.drop_first(), rest);
    } else {
        assert(d + rest =~= rest);
    }
}

proof fn lemma_word_run(s: Seq<char>)
    ensures
        word_run(s) <= s.len(),
    decreases s.len(),
{
    if s.len() > 0 && !is_delimiter(s[0]) {
        lemma_word_run(s.drop_first());
    }
}

/// How many digits stand at `from` in `chars[from..to]`.
pub fn skip_digits(chars: &Vec<char>, from: usize, to: usize) -> (r: usize)
    requires
        from <= to <= chars.len(),
    ensures
        from <= r <= to,
        r - from == digit_run(chars@.subrange(from as int, to as int)),
{
    let ghost s = chars@.subrange(from as int, to as int);
    let mut i: usize = from;
    assert(s.skip(0) =~= s);
    while i < to && text::is_digit_char(chars[i])
        invariant
            from <= i <= to <= chars.len(),
            s == chars@.subrange(from as int, to as int),
            digit_run(s) == i - from + digit_run(s.skip(i - from)),
        decreases to - i,
    {
        assert(s.skip(i - from).drop_first() =~= s.skip(i + 1 - from));
        i += 1;
    }
    i
}

fn all_digits(chars: &Vec<char>, from: usize, to: usize) -> (r: bool)
    requires
        from <= to <= chars.len(),
    ensures
        r == is_digits(chars@.subrange(from as int, to as int)),
{
    let ghost s = chars@.subrange(from as int, to as int);
    let end: usize = skip_digits(chars, from, to);
    proof {
        lemma_digit_run(s);
        if end == to {
            assert(s.take(end - from) =~= s);
        } else {
            assert(!text::is_digit(s[end - from]));
        }
    }
    from < to && end == to
}

fn ends_as_number(chars: &Vec<char>, from: usize, to: usize) -> (r: bool)
    requires
        from <= to <= chars.len(),
    ensures
        r == is_exponent(chars@.subrange(from as int, to as int)),
{
    let ghost s = chars@.subrange(from as int, to as int);
    if from == to {
        return true;
    }
    if chars[from] != 'e' && chars[from] != 'E' {
        return false;
    }
    assert(s.skip(1) =~= chars@.subrange(from + 1, to as int));
    if from + 1 < to && (chars[from + 1] == '+' || chars[from + 1] == '-') {
        assert(s.skip(1).skip(1) =~= chars@.subrange(from + 2, to as int));
        all_digits(chars, from + 2, to)
    } else {
        all_digits(chars, from + 1, to)
    }
}

/// Whether `chars[from..to]` is a number.
pub fn reads_as_number(chars: &Vec<char>, from: usize, to: usize) -> (r: bool)
    requires
        from <= to <= chars.len(),
    ensures
        r == is_number(chars@.subrange(from as int, to as int)),
{
    let ghost s = chars@.subrange(from as int, to as int);
    let whole: usize = if from < to && chars[from] == '-' {
        from + 1
    } else {
        from
    };
    let ghost u = chars@.subrange(whole as int, to as int);
    assert(starts(s, '-') ==> s.skip(1) =~= u);
    let end: usize = skip_digits(chars, whole, to);
    if end == whole || (end - whole > 1 && chars[whole] == '0') {
        return false;
    }
    assert(u.skip(end - whole) =~= chars@.subrange(end as int, to as int));
    if end < to && chars[end] == '.' {
        let ghost t = chars@.subrange(end as int, to as int);
        assert(t.skip(1) =~= chars@.subrange(end + 1, to as int));
        let last: usize = skip_digits(chars, end + 1, to);
        assert(t.skip(1).skip(last - end - 1) =~= chars@.subrange(last as int, to as int));
        last > end + 1 && ends_as_number(chars, last, to)
    } else {
        ends_as_number(chars, end, to)
    }
}

fn is_delimiter_char(c: char) -> (r: bool)
    ensures
        r == is_delimiter(c),
{
    text::is_white_space_char(c) || c == ',' || c == ':' || c == '"' || c == '{' || c == '}' || c
        == '[' || c == ']'
}

// ---------------------------------------------------------------------------
// Values
// ---------------------------------------------------------------------------

/// What follows the string, number or word that a text starts with.
pub open spec fn scalar_rest(s: Seq<char>) -> Option<Seq<char>> {
    if starts(s, '"') {
        quoted_rest(s)
    } else if is_literal(s.take(word_run(s) as int)) {
        Some(s.skip(word_run(s) as int))
    } else {
        None
    }
}

/// What follows the name and the colon that a text starts with.
pub open spec fn name_rest(s: Seq<char>) -> Option<Seq<char>> {
    match quoted_rest(s) {
        Some(rest) => if starts(text::trim_start(rest), ':') {
            Some(text::trim_start(rest).skip(1))
        } else {
            None
        },
        None => None,
    }
}

/// What a reader expects next.
#[derive(Clone, Copy, PartialEq, Eq, Structural)]
pub enum Step {
    /// A value.
    Value,
    /// The first item of an array, or its end.
    FirstItem,
    /// The name of a member.
    Name,
    /// The name of the first member of an object, or its end.
    FirstName,
    /// A comma, or the end of what is open; nothing when nothing is.
    Next,
}

/// The bracket that closes one.
pub open spec fn closing(open: char) -> char {
    if open == '{' {
        '}'
    } else {
        ']'
    }
}

/// What follows a value, given the brackets that are open inside it and what
/// is expected next. White space may stand before anything that is expected.
pub open spec fn value_end(s: Seq<char>, open: Seq<char>, step: Step) -> Option<Seq<char>>
    decreases s.len(),
    via value_end_decreases
{
    let t = text::trim_start(s);
    match step {
        Step::Next => if open.len() == 0 {
            Some(s)
        } else if starts(t, ',') {
            value_end(
                t.skip(1),
                open,
                if open.last() == '{' {
                    Step::Name
                } else {
                    Step::Value
                },
            )
        } else if starts(t, closing(open.last())) {
            value_end(t.skip(1), open.drop_last(), Step::Next)
        } else {
            None
        },
        Step::Name | Step::FirstName => if step == Step::FirstName && starts(t, '}') {
            value_end(t.skip(1), open.drop_last(), Step::Next)
        } else {
            match name_rest(t) {
                Some(rest) => value_end(rest, open, Step::Value),
                None => None,
            }
        },
        Step::Value | Step::FirstItem => if step == Step::FirstItem && starts(t, ']') {
            value_end(t.skip(1), open.drop_last(), Step::Next)
        } else if starts(t, '{') {
            value_end(t.skip(1), open.push('{'), Step::FirstName)
        } else if starts(t, '[') {
            value_end(t.skip(1), open.push('['), Step::FirstItem)
        } else {
            match scalar_rest(t) {
                Some(rest) => value_end(rest, open, Step::Next),
                None => None,
            }
        },
    }
}

#[via_fn]
proof fn value_end_decreases(s: Seq<char>, open: Seq<char>, step: Step) {
    let t = text::trim_start(s);
    text::lemma_trim_start(s);
    lemma_name_rest(t);
    lemma_scalar_rest(t);
}

/// What follows the value that a text starts with.
pub open spec fn value_rest(s: Seq<char>) -> Option<Seq<char>> {
    value_end(s, seq![], Step::Value)
}

proof fn lemma_name_rest(s: Seq<char>)
    ensures
        name_rest(s) matches Some(rest) ==> rest.len() < s.len(),
{
    lemma_quoted_rest(s);
    if let Some(rest) = quoted_rest(s) {
        text::lemma_trim_start(rest);
    }
}

proof fn lemma_scalar_rest(s: Seq<char>)
    ensures
        scalar_rest(s) matches Some(rest) ==> rest.len() < s.len(),
{
    lemma_quoted_rest(s);
    lemma_word_run(s);
    if word_run(s) == 0 {
        reveal_strlit("true");
        reveal_strlit("false");
        reveal_strlit("null");
        assert(s.take(0).len() == 0);
    }
}

/// What follows a value is shorter than what starts with it.
proof fn lemma_value_end(s: Seq<char>, open: Seq<char>, step: Step)
    ensures
        value_end(s, open, step) matches Some(rest) ==> rest.len() <= s.len(),
        value_end(s, open, step) matches Some(rest) ==> step != Step::Next ==> rest.len() < s.len(),
    decreases s.len(),
{
    let t = text::trim_start(s);
    text::lemma_trim_start(s);
    lemma_name_rest(t);
    lemma_scalar_rest(t);
    match step {
        Step::Next => {
            if open.len() == 0 {
            } else if starts(t, ',') {
                lemma_value_end(
                    t.skip(1),
                    open,
                    if open.last() == '{' {
                        Step::Name
                    } else {
                        Step::Value
                    },
                );
            } else if starts(t, closing(open.last())) {
                lemma_value_end(t.skip(1), open.drop_last(), Step::Next);
            }
        },
        Step::Name | Step::FirstName => {
            if step == Step::FirstName && starts(t, '}') {
                lemma_value_end(t.skip(1), open.drop_last(), Step::Next);
            } else if let Some(rest) = name_rest(t) {
                lemma_value_end(rest, open, Step::Value);
            }
        },
        Step::Value | Step::FirstItem => {
            if step == Step::FirstItem && starts(t, ']') {
                lemma_value_end(t.skip(1), open.drop_last(), Step::Next);
            } else if starts(t, '{') {
                lemma_value_end(t.skip(1), open.push('{'), Step::FirstName);
            } else if starts(t, '[') {
                lemma_value_end(t.skip(1), open.push('['), Step::FirstItem);
            } else if let Some(rest) = scalar_rest(t) {
                lemma_value_end(rest, open, Step::Next);
            }
        },
    }
}

/// What follows a value is shorter than what starts with it.
pub proof fn lemma_value_rest(s: Seq<char>)
    ensures
        value_rest(s) matches Some(rest) ==> rest.len() < s.len(),
{
    lemma_value_end(s, seq![], Step::Value);
}

fn skip_scalar(chars: &Vec<char>, at: usize) -> (r: Option<usize>)
    requires
        at <= chars.len(),
    ensures
        match r {
            Some(end) => at < end <= chars.len() && scalar_rest(chars@.skip(at as int)) == Some(
                chars@.skip(end as int),
            ),
            None => scalar_rest(chars@.skip(at as int)) is None,
        },
{
    let n: usize = chars.len();
    let ghost s = chars@.skip(at as int);
    if at < n && chars[at] == '"' {
        return skip_string(chars, at);
    }
    let mut end: usize = at;
    assert(s.skip(0) =~= s);
    while end < n && !is_delimiter_char(chars[end])
        invariant
            n == chars.len(),
            at <= end <= n,
            s == chars@.skip(at as int),
            word_run(s) == end - at + word_run(s.skip(end - at)),
        decreases n - end,
    {
        assert(s.skip(end - at).drop_first() =~= s.skip(end + 1 - at));
        end += 1;
    }
    let word = text::string_of(chars, at, end);
    assert(word@ =~= s.take(end - at));
    assert(s.skip(end - at) =~= chars@.skip(end as int));
    proof {
        lemma_scalar_rest(s);
    }
    if text::text_eq(word.as_str(), "true") || text::text_eq(word.as_str(), "false")
        || text::text_eq(word.as_str(), "null") || reads_as_number(chars, at, end) {
        Some(end)
    } else {
        None
    }
}

/// Where the value that starts at `at` ends.
pub fn skip_value(chars: &Vec<char>, at: usize) -> (r: Option<usize>)
    requires
        at <= chars.len(),
    ensures
        match r {
            Some(end) => at < end <= chars.len() && value_rest(chars@.skip(at as int)) == Some(
                chars@.skip(end as int),
            ),
            None => value_rest(chars@.skip(at as int)) is None,
        },
{
    let n: usize = chars.len();
    let mut open: Vec<char> = Vec::new();
    let mut step = Step::Value;
    let mut i: usize = at;
    assert(open@ =~= seq![]);
    proof {
        lemma_value_rest(chars@.skip(at as int));
    }
    while step != Step::Next || open.len() > 0
        invariant
            n == chars.len(),
            at <= i <= n,
            step == Step::FirstName || step == Step::FirstItem ==> open.len() > 0,
            value_rest(chars@.skip(at as int)) == value_end(chars@.skip(i as int), open@, step),
        decreases n - i,
    {
        let ghost s = chars@.skip(i as int);
        let from: usize = text::skip_space(chars, i, n);
        let ghost t = chars@.skip(from as int);
        assert(t == text::trim_start(s));
        if from >= n {
            proof {
                lemma_nothing_starts(t);
            }
            return None;
        }
        let c = chars[from];
        assert(t[0] == c);
        assert(t.skip(1) =~= chars@.skip(from + 1));
        match step {
            Step::Next => {
                let last = open[open.len() - 1];
                if c == ',' {
                    step = if last == '{' {
                        Step::Name
                    } else {
                        Step::Value
                    };
                } else if (last == '{' && c == '}') || (last != '{' && c == ']') {
                    open.pop();
                } else {
                    return None;
                }
                i = from + 1;
            },
            Step::Name | Step::FirstName => {
                if step == Step::FirstName && c == '}' {
                    open.pop();
                    step = Step::Next;
                    i = from + 1;
                } else {
                    match skip_name(chars, from) {
                        Some(end) => {
                            step = Step::Value;
                            i = end;
                        },
                        None => {
                            return None;
                        },
                    }
                }
            },
            Step::Value | Step::FirstItem => {
                if step == Step::FirstItem && c == ']' {
                    open.pop();
                    step = Step::Next;
                    i = from + 1;
                } else if c == '{' {
                    open.push('{');
                    step = Step::FirstName;
                    i = from + 1;
                } else if c == '[' {
                    open.push('[');
                    step = Step::FirstItem;
                    i = from + 1;
                } else {
                    match skip_scalar(chars, from) {
                        Some(end) => {
                            step = Step::Next;
                            i = end;
                        },
                        None => {
                            return None;
                        },
                    }
                }
            },
        }
    }
    assert(chars@.skip(i as int).len() == n - i);
    Some(i)
}

/// Where the name and the colon that start at `at` end.
fn skip_name(chars: &Vec<char>, at: usize) -> (r: Option<usize>)
    requires
        at <= chars.len(),
    ensures
        match r {
            Some(end) => at < end <= chars.len() && name_rest(chars@.skip(at as int)) == Some(
                chars@.skip(end as int),
            ),
            None => name_rest(chars@.skip(at as int)) is None,
        },
{
    let n: usize = chars.len();
    match skip_string(chars, at) {
        Some(end) => {
            let colon: usize = text::skip_space(chars, end, n);
            if colon < n && chars[colon] == ':' {
                assert(chars@.skip(colon as int).skip(1) =~= chars@.skip(colon + 1));
                Some(colon + 1)
            } else {
                None
            }
        },
        None => None,
    }
}

/// Nothing is at the end of a text.
proof fn lemma_nothing_starts(t: Seq<char>)
    requires
        t.len() == 0,
    ensures
        name_rest(t) is None,
        scalar_rest(t) is None,
{
    lemma_scalar_rest(t);
    lemma_name_rest(t);
}

// ---------------------------------------------------------------------------
// Objects
// ---------------------------------------------------------------------------

/// A member of an object, as it is written: the name with its quotes, and the
/// value.
#[verifier::ext_equal]
pub struct Member {
    pub name: Seq<char>,
    pub value: Seq<char>,
}

/// What stands before the rest of a text.
pub open spec fn before(s: Seq<char>, rest: Seq<char>) -> Seq<char> {
    s.take(s.len() - rest.len())
}

/// The one member at the start of a text, white space aside, and what follows
/// it.
pub open spec fn member_at(s: Seq<char>) -> Option<(Member, Seq<char>)> {
    let t = text::trim_start(s);
    match (quoted_rest(t), name_rest(t)) {
        (Some(after_name), Some(after_colon)) => {
            let v = text::trim_start(after_colon);
            match value_rest(v) {
                Some(rest) => Some(
                    (Member { name: before(t, after_name), value: before(v, rest) }, rest),
                ),
                None => None,
            }
        },
        _ => None,
    }
}

/// The members of an object, given those before `s` and that another one has
/// to follow. Nothing but white space follows the object.
pub open spec fn members_from(done: Seq<Member>, s: Seq<char>) -> Option<Seq<Member>>
    decreases s.len(),
    via members_from_decreases
{
    match member_at(s) {
        Some((member, rest)) => {
            let t = text::trim_start(rest);
            if starts(t, ',') {
                members_from(done.push(member), t.skip(1))
            } else if starts(t, '}') && text::trim_start(t.skip(1)).len() == 0 {
                Some(done.push(member))
            } else {
                None
            }
        },
        None => None,
    }
}

#[via_fn]
proof fn members_from_decreases(done: Seq<Member>, s: Seq<char>) {
    lemma_member_at(s);
    if let Some((member, rest)) = member_at(s) {
        text::lemma_trim_start(rest);
    }
}

proof fn lemma_member_at(s: Seq<char>)
    ensures
        member_at(s) matches Some((member, rest)) ==> rest.len() < s.len(),
{
    let t = text::trim_start(s);
    text::lemma_trim_start(s);
    lemma_name_rest(t);
    if let Some(after_colon) = name_rest(t) {
        text::lemma_trim_start(after_colon);
        lemma_value_rest(text::trim_start(after_colon));
    }
}

/// The members of the object that a text is, in the order they are written.
pub open spec fn members(s: Seq<char>) -> Option<Seq<Member>> {
    let t = text::trim_start(s);
    let inside = text::trim_start(t.skip(1));
    if !starts(t, '{') {
        None
    } else if starts(inside, '}') {
        if text::trim_start(inside.skip(1)).len() == 0 {
            Some(seq![])
        } else {
            None
        }
    } else {
        members_from(seq![], t.skip(1))
    }
}

/// Whether a text is an object.
pub open spec fn is_object(s: Seq<char>) -> bool {
    members(s) is Some
}

/// The value of the first member with a name.
pub open spec fn first_named(members: Seq<Member>, quoted_key: Seq<char>) -> Option<Seq<char>>
    decreases members.len(),
{
    if members.len() == 0 {
        None
    } else {
        match first_named(members.drop_last(), quoted_key) {
            Some(value) => Some(value),
            None => if members.last().name == quoted_key {
                Some(members.last().value)
            } else {
                None
            },
        }
    }
}

/// The value of the first member with a name in the object that a text is.
pub open spec fn member_value(s: Seq<char>, quoted_key: Seq<char>) -> Option<Seq<char>> {
    match members(s) {
        Some(members) => first_named(members, quoted_key),
        None => None,
    }
}

/// Where a member's value stands in a text, if the text is an object.
#[derive(Clone, Copy)]
pub enum Found {
    /// The text is not an object.
    NoObject,
    /// No member has the name.
    NoMember,
    /// The value stands at `from..to`.
    Value {
        /// Where it begins.
        from: usize,
        /// Where it ends.
        to: usize,
    },
}

/// Where the value of the first member with a name stands in the object that
/// `chars` are.
pub fn find_value(chars: &Vec<char>, quoted_key: &Vec<char>) -> (r: Found)
    ensures
        match r {
            Found::NoObject => !is_object(chars@),
            Found::NoMember => is_object(chars@) && member_value(chars@, quoted_key@) is None,
            Found::Value { from, to } => is_object(chars@) && from <= to <= chars.len()
                && member_value(chars@, quoted_key@) == Some(
                chars@.subrange(from as int, to as int),
            ),
        },
{
    let n: usize = chars.len();
    assert(chars@.skip(0) =~= chars@);
    let brace: usize = text::skip_space(chars, 0, n);
    if brace >= n || chars[brace] != '{' {
        return Found::NoObject;
    }
    assert(chars@.skip(brace as int).skip(1) =~= chars@.skip(brace + 1));
    let inside: usize = text::skip_space(chars, brace + 1, n);
    if inside < n && chars[inside] == '}' {
        assert(first_named(seq![], quoted_key@) is None);
        let end: usize = text::skip_space(chars, inside + 1, n);
        assert(chars@.skip(inside as int).skip(1) =~= chars@.skip(inside + 1));
        if end < n {
            return Found::NoObject;
        }
        return Found::NoMember;
    }
    let mut found: Option<(usize, usize)> = None;
    let mut i: usize = brace + 1;
    let ghost mut done = Seq::<Member>::empty();
    loop
        invariant
            n == chars.len(),
            i <= n,
            members(chars@) == members_from(done, chars@.skip(i as int)),
            match found {
                Some((from, to)) => from <= to <= n && first_named(done, quoted_key@) == Some(
                    chars@.subrange(from as int, to as int),
                ),
                None => first_named(done, quoted_key@) is None,
            },
        decreases n - i,
    {
        let name: usize = text::skip_space(chars, i, n);
        let ghost t = chars@.skip(name as int);
        let name_end: usize = match skip_string(chars, name) {
            Some(end) => end,
            None => {
                return Found::NoObject;
            },
        };
        let colon: usize = match skip_name(chars, name) {
            Some(end) => end,
            None => {
                return Found::NoObject;
            },
        };
        let value: usize = text::skip_space(chars, colon, n);
        let ghost v = chars@.skip(value as int);
        let value_end: usize = match skip_value(chars, value) {
            Some(end) => end,
            None => {
                return Found::NoObject;
            },
        };
        let ghost member = Member {
            name: before(t, chars@.skip(name_end as int)),
            value: before(v, chars@.skip(value_end as int)),
        };
        proof {
            assert(member.name =~= chars@.subrange(name as int, name_end as int));
            assert(member.value =~= chars@.subrange(value as int, value_end as int));
            assert(done.push(member).drop_last() =~= done);
            done = done.push(member);
        }
        if found.is_none() && text::range_eq(chars, name, name_end, quoted_key) {
            found = Some((value, value_end));
        }
        let next: usize = text::skip_space(chars, value_end, n);
        if next >= n {
            return Found::NoObject;
        }
        assert(chars@.skip(next as int).skip(1) =~= chars@.skip(next + 1));
        if chars[next] == ',' {
            i = next + 1;
        } else if chars[next] == '}' {
            let end: usize = text::skip_space(chars, next + 1, n);
            if end < n {
                return Found::NoObject;
            }
            return match found {
                Some((from, to)) => Found::Value { from, to },
                None => Found::NoMember,
            };
        } else {
            return Found::NoObject;
        }
    }
}

// ---------------------------------------------------------------------------
// What is written reads back
// ---------------------------------------------------------------------------

/// A text that a string is written with as it is: no quote, no backslash and
/// no control.
pub open spec fn is_plain(word: Seq<char>) -> bool {
    forall|i: int| 0 <= i < word.len() ==> #[trigger] word[i] != '"' && word[i] != '\\' && word[i]
        >= ' '
}

/// A plain text as a string.
pub open spec fn quoted(word: Seq<char>) -> Seq<char> {
    seq!['"'] + word + seq!['"']
}

/// What may follow a value.
pub open spec fn is_end(rest: Seq<char>) -> bool {
    rest.len() == 0 || is_delimiter(rest[0])
}

/// A value that ends where it is written to end, before white space, a comma or
/// a bracket.
pub open spec fn is_value(v: Seq<char>) -> bool {
    &&& v.len() > 0
    &&& !text::is_white_space(v[0])
    &&& forall|rest: Seq<char>| is_end(rest) ==> #[trigger] value_rest(v + rest) == Some(rest)
}

/// A member as it is written.
pub open spec fn written(name: Seq<char>, value: Seq<char>) -> Seq<char> {
    quoted(name) + seq![':'] + value
}

proof fn lemma_plain_string(word: Seq<char>, rest: Seq<char>)
    requires
        is_plain(word),
    ensures
        string_rest(word + seq!['"'] + rest) == Some(rest),
    decreases word.len(),
{
    let s = word + seq!['"'] + rest;
    if word.len() == 0 {
        assert(s.skip(1) =~= rest);
    } else {
        let most = word.drop_first();
        assert forall|i: int| 0 <= i < most.len() implies #[trigger] most[i] != '"' && most[i]
            != '\\' && most[i] >= ' ' by {
            assert(most[i] == word[i + 1]);
        }
        lemma_plain_string(most, rest);
        assert(word[0] == s[0]);
        assert(s.skip(1) =~= most + seq!['"'] + rest);
    }
}

proof fn lemma_quoted(word: Seq<char>, rest: Seq<char>)
    requires
        is_plain(word),
    ensures
        quoted_rest(quoted(word) + rest) == Some(rest),
{
    lemma_plain_string(word, rest);
    assert((quoted(word) + rest).skip(1) =~= word + seq!['"'] + rest);
}

proof fn lemma_word_run_is(word: Seq<char>, rest: Seq<char>)
    requires
        forall|i: int| 0 <= i < word.len() ==> !is_delimiter(#[trigger] word[i]),
        is_end(rest),
    ensures
        word_run(word + rest) == word.len(),
    decreases word.len(),
{
    let s = word + rest;
    if word.len() > 0 {
        let most = word.drop_first();
        assert forall|i: int| 0 <= i < most.len() implies !is_delimiter(#[trigger] most[i]) by {
            assert(most[i] == word[i + 1]);
        }
        lemma_word_run_is(most, rest);
        assert(!is_delimiter(word[0]));
        assert(s.drop_first() =~= most + rest);
    } else {
        assert(s =~= rest);
    }
}

/// A number or a word is a value.
pub proof fn lemma_literal_is_value(word: Seq<char>)
    requires
        word.len() > 0,
        is_literal(word),
        forall|i: int| 0 <= i < word.len() ==> !is_delimiter(#[trigger] word[i]),
    ensures
        is_value(word),
{
    assert(!is_delimiter(word[0]));
    assert forall|rest: Seq<char>| is_end(rest) implies #[trigger] value_rest(word + rest) == Some(
        rest,
    ) by {
        let s = word + rest;
        lemma_word_run_is(word, rest);
        assert(s[0] == word[0]);
        assert(s.take(word.len() as int) =~= word);
        assert(s.skip(word.len() as int) =~= rest);
        assert(text::trim_start(s) == s);
        assert(value_end(rest, seq![], Step::Next) == Some(rest));
    }
}

/// A decimal is a value.
pub proof fn lemma_decimal_is_value(n: nat)
    ensures
        is_value(text::decimal(n)),
{
    let d = text::decimal(n);
    text::lemma_decimal(n);
    lemma_digit_run_is(d, seq![]);
    assert(d + Seq::<char>::empty() =~= d);
    assert(d.skip(d.len() as int) =~= Seq::<char>::empty());
    assert(text::is_digit(d[0]));
    if n < 10 {
        assert(d.len() == 1);
    } else {
        assert(d[0] != '0');
    }
    assert(is_unsigned(d));
    assert forall|i: int| 0 <= i < d.len() implies !is_delimiter(#[trigger] d[i]) by {
        assert(text::is_digit(d[i]));
    }
    lemma_literal_is_value(d);
}

/// `null` is a value.
pub proof fn lemma_null_is_value()
    ensures
        is_value("null"@),
{
    reveal_strlit("null");
    lemma_literal_is_value("null"@);
}

/// A plain string is a value.
pub proof fn lemma_quoted_is_value(word: Seq<char>)
    requires
        is_plain(word),
    ensures
        is_value(quoted(word)),
{
    let v = quoted(word);
    assert forall|rest: Seq<char>| is_end(rest) implies #[trigger] value_rest(v + rest) == Some(
        rest,
    ) by {
        let s = v + rest;
        lemma_quoted(word, rest);
        assert(s[0] == '"');
        assert(text::trim_start(s) == s);
        assert(value_end(rest, seq![], Step::Next) == Some(rest));
    }
}

proof fn lemma_written_member(name: Seq<char>, value: Seq<char>, rest: Seq<char>)
    requires
        is_plain(name),
        is_value(value),
        starts(rest, ',') || starts(rest, '}'),
    ensures
        member_at(written(name, value) + rest) == Some(
            (Member { name: quoted(name), value }, rest),
        ),
{
    let s = written(name, value) + rest;
    let after_name = seq![':'] + value + rest;
    assert(s =~= quoted(name) + after_name);
    lemma_quoted(name, after_name);
    assert(s[0] == '"');
    assert(text::trim_start(s) == s);
    assert(text::trim_start(after_name) == after_name);
    let v = value + rest;
    assert(after_name.skip(1) =~= v);
    assert(v[0] == value[0]);
    assert(text::trim_start(v) == v);
    assert(value_rest(value + rest) == Some(rest));
    assert(before(s, after_name) =~= quoted(name));
    assert(before(v, rest) =~= value);
}

/// An object of one member.
pub proof fn one_member_reads_back(name: Seq<char>, value: Seq<char>)
    requires
        is_plain(name),
        is_value(value),
    ensures
        members(seq!['{'] + written(name, value) + seq!['}']) == Some(
            seq![Member { name: quoted(name), value }],
        ),
{
    let s = seq!['{'] + written(name, value) + seq!['}'];
    let inside = written(name, value) + seq!['}'];
    assert(text::trim_start(s) == s);
    assert(s.skip(1) =~= inside);
    assert(inside[0] == '"');
    assert(text::trim_start(inside) == inside);
    lemma_written_member(name, value, seq!['}']);
    lemma_last(seq![], inside, Member { name: quoted(name), value });
    assert(Seq::<Member>::empty().push(Member { name: quoted(name), value }) =~= seq![
        Member { name: quoted(name), value },
    ]);
}

proof fn lemma_last(done: Seq<Member>, s: Seq<char>, member: Member)
    requires
        member_at(s) == Some((member, seq!['}'])),
    ensures
        members_from(done, s) == Some(done.push(member)),
{
    let end = seq!['}'];
    assert(text::trim_start(end) == end);
    assert(end.skip(1) =~= Seq::<char>::empty());
    assert(text::trim_start(end.skip(1)).len() == 0);
}

/// An object of two members.
pub proof fn two_members_read_back(
    name: Seq<char>,
    value: Seq<char>,
    other: Seq<char>,
    its_value: Seq<char>,
)
    requires
        is_plain(name),
        is_value(value),
        is_plain(other),
        is_value(its_value),
    ensures
        members(
            seq!['{'] + written(name, value) + seq![','] + written(other, its_value) + seq!['}'],
        ) == Some(
            seq![
                Member { name: quoted(name), value },
                Member { name: quoted(other), value: its_value },
            ],
        ),
{
    let s = seq!['{'] + written(name, value) + seq![','] + written(other, its_value) + seq!['}'];
    let second = written(other, its_value) + seq!['}'];
    let rest = seq![','] + second;
    let inside = written(name, value) + rest;
    let a = Member { name: quoted(name), value };
    let b = Member { name: quoted(other), value: its_value };
    assert(text::trim_start(s) == s);
    assert(s.skip(1) =~= inside);
    assert(inside[0] == '"');
    assert(text::trim_start(inside) == inside);
    lemma_written_member(name, value, rest);
    lemma_written_member(other, its_value, seq!['}']);
    assert(text::trim_start(rest) == rest);
    assert(rest.skip(1) =~= second);
    let done = Seq::<Member>::empty().push(a);
    lemma_last(done, second, b);
    assert(done.push(b) =~= seq![a, b]);
}

/// The value of a name among one or two members.
pub proof fn lemma_first_named(members: Seq<Member>, quoted_key: Seq<char>)
    requires
        1 <= members.len() <= 2,
    ensures
        first_named(members, quoted_key) == if members[0].name == quoted_key {
            Some(members[0].value)
        } else if members.len() == 2 && members[1].name == quoted_key {
            Some(members[1].value)
        } else {
            None
        },
{
    reveal_with_fuel(first_named, 3);
    assert(members.len() == 2 ==> members.drop_last().last() == members[0]);
}

// ---------------------------------------------------------------------------
// Laws
// ---------------------------------------------------------------------------

/// What a string may hold, one character after the other: any but a quote, a
/// backslash and the controls as it is; a backslash with one of eight
/// characters, or with `u` and four hexadecimal digits. A quote ends it, and a
/// string has to end.
pub proof fn what_a_string_may_hold(c: char, s: Seq<char>, hex: Seq<char>)
    requires
        hex.len() == 4,
        forall|i: int| 0 <= i < 4 ==> is_hex(#[trigger] hex[i]),
    ensures
        string_rest(seq!['"'] + s) == Some(s),
        string_rest(seq![]) is None,
        c != '"' && c != '\\' && c as u32 >= 32 ==> string_rest(seq![c] + s) == string_rest(s),
        (c as u32) < 32 ==> string_rest(seq![c] + s) is None,
        c == '"' || c == '\\' || c == '/' || c == 'b' || c == 'f' || c == 'n' || c == 'r' || c == 't'
            ==> string_rest(seq!['\\', c] + s) == string_rest(s),
        string_rest(seq!['\\', 'u'] + hex + s) == string_rest(s),
        !(c == '"' || c == '\\' || c == '/' || c == 'b' || c == 'f' || c == 'n' || c == 'r' || c
            == 't' || c == 'u') ==> string_rest(seq!['\\', c] + s) is None,
{
    assert((seq!['"'] + s).skip(1) =~= s);
    assert((seq![c] + s).skip(1) =~= s);
    assert((seq!['\\', c] + s).skip(2) =~= s);
    let u = seq!['\\', 'u'] + hex + s;
    assert(is_hex(hex[0]) && is_hex(hex[1]) && is_hex(hex[2]) && is_hex(hex[3]));
    assert(u[2] == hex[0] && u[3] == hex[1] && u[4] == hex[2] && u[5] == hex[3]);
    assert(u.skip(6) =~= s);
}

proof fn lemma_is_exponent(mark: Seq<char>, digits: Seq<char>)
    requires
        mark == seq!['e'] || mark == seq!['E'] || mark == seq!['e', '+'] || mark == seq!['e', '-']
            || mark == seq!['E', '+'] || mark == seq!['E', '-'],
        digits.len() > 0,
        text::all_digits(digits),
    ensures
        is_exponent(mark + digits),
        !text::is_digit((mark + digits)[0]),
{
    let s = mark + digits;
    assert(text::is_digit(digits[0]));
    if mark.len() == 1 {
        assert(s.skip(1) =~= digits);
    } else {
        assert(s.skip(1)[0] == mark[1]);
        assert(s.skip(1).skip(1) =~= digits);
    }
}

/// A number is its digits without an idle zero in front, a sign before them or
/// none, and a fraction and an exponent after them or neither.
pub proof fn numbers_are_written_so(
    n: nat,
    fraction: Seq<char>,
    mark: Seq<char>,
    exponent: Seq<char>,
)
    requires
        fraction.len() > 0 && text::all_digits(fraction),
        mark == seq!['e'] || mark == seq!['E'] || mark == seq!['e', '+'] || mark == seq!['e', '-']
            || mark == seq!['E', '+'] || mark == seq!['E', '-'],
        exponent.len() > 0 && text::all_digits(exponent),
    ensures
        ({
            let d = text::decimal(n);
            &&& is_number(d)
            &&& is_number(seq!['-'] + d)
            &&& is_number(d + (seq!['.'] + fraction))
            &&& is_number(d + (mark + exponent))
            &&& is_number(d + (seq!['.'] + fraction + (mark + exponent)))
            &&& !is_number(seq!['0'] + d)
            &&& !is_number(seq!['.'] + fraction)
            &&& !is_number(d + seq!['.'])
            &&& !is_number(seq![])
            &&& !is_number(seq!['+'] + d)
        }),
{
    let d = text::decimal(n);
    let e = mark + exponent;
    let none = Seq::<char>::empty();
    text::lemma_decimal(n);
    lemma_is_exponent(mark, exponent);
    assert(text::is_digit(d[0]));
    assert(n < 10 ==> d.len() == 1);
    assert(!starts(d, '-'));
    lemma_unsigned(d, none);
    assert(d + none =~= d);
    assert((seq!['-'] + d).skip(1) =~= d);
    let f = seq!['.'] + fraction;
    assert(f.skip(1) =~= fraction);
    lemma_digit_run_is(fraction, none);
    assert(fraction + none =~= fraction);
    assert(fraction.skip(fraction.len() as int) =~= none);
    assert(is_number_tail(f));
    lemma_unsigned(d, f);
    assert(is_number_tail(e)) by {
        assert(e[0] == mark[0]);
    }
    lemma_unsigned(d, e);
    let fe = f + e;
    assert(fe.skip(1) =~= fraction + e);
    lemma_digit_run_is(fraction, e);
    assert(fe.skip(1).skip(fraction.len() as int) =~= e);
    assert(is_number_tail(fe));
    lemma_unsigned(d, fe);
    let zd = seq!['0'] + d;
    assert forall|i: int| 0 <= i < zd.len() implies text::is_digit(#[trigger] zd[i]) by {
        if i > 0 {
            assert(text::is_digit(d[i - 1]));
        }
    }
    lemma_digit_run_is(zd, none);
    assert(zd + none =~= zd);
    let dot = d + seq!['.'];
    lemma_digit_run_is(d, seq!['.']);
    assert(dot.skip(d.len() as int) =~= seq!['.']);
    assert(seq!['.'].skip(1) =~= none);
}

proof fn lemma_unsigned(d: Seq<char>, tail: Seq<char>)
    requires
        d.len() > 0,
        text::all_digits(d),
        d.len() == 1 || d[0] != '0',
        tail.len() > 0 ==> !text::is_digit(tail[0]),
        is_number_tail(tail),
    ensures
        is_number(d + tail),
{
    let s = d + tail;
    lemma_digit_run_is(d, tail);
    assert(s.skip(d.len() as int) =~= tail);
    assert(s[0] == d[0]);
    assert(text::is_digit(d[0]));
}

/// A value inside another is read as it is alone: what is open around it does
/// not matter until it ends.
proof fn lemma_nested(s: Seq<char>, outer: Seq<char>, open: Seq<char>, step: Step)
    requires
        step == Step::FirstName || step == Step::FirstItem ==> open.len() > 0,
    ensures
        value_end(s, outer + open, step) == match value_end(s, open, step) {
            Some(rest) => value_end(rest, outer, Step::Next),
            None => None,
        },
    decreases s.len(),
{
    let both = outer + open;
    let t = text::trim_start(s);
    text::lemma_trim_start(s);
    lemma_name_rest(t);
    lemma_scalar_rest(t);
    if open.len() > 0 {
        assert(both.last() == open.last());
        assert(both.drop_last() =~= outer + open.drop_last());
    } else {
        assert(both =~= outer);
    }
    match step {
        Step::Next => {
            if open.len() == 0 {
            } else if starts(t, ',') {
                lemma_nested(
                    t.skip(1),
                    outer,
                    open,
                    if open.last() == '{' {
                        Step::Name
                    } else {
                        Step::Value
                    },
                );
            } else if starts(t, closing(open.last())) {
                lemma_nested(t.skip(1), outer, open.drop_last(), Step::Next);
            }
        },
        Step::Name | Step::FirstName => {
            if step == Step::FirstName && starts(t, '}') {
                lemma_nested(t.skip(1), outer, open.drop_last(), Step::Next);
            } else if let Some(rest) = name_rest(t) {
                lemma_nested(rest, outer, open, Step::Value);
            }
        },
        Step::Value | Step::FirstItem => {
            if step == Step::FirstItem && starts(t, ']') {
                lemma_nested(t.skip(1), outer, open.drop_last(), Step::Next);
            } else if starts(t, '{') {
                assert(both.push('{') =~= outer + open.push('{'));
                lemma_nested(t.skip(1), outer, open.push('{'), Step::FirstName);
            } else if starts(t, '[') {
                assert(both.push('[') =~= outer + open.push('['));
                lemma_nested(t.skip(1), outer, open.push('['), Step::FirstItem);
            } else if let Some(rest) = scalar_rest(t) {
                lemma_nested(rest, outer, open, Step::Next);
            }
        },
    }
}

/// Texts with a comma between one and the next.
pub open spec fn listed(items: Seq<Seq<char>>) -> Seq<char>
    decreases items.len(),
{
    if items.len() == 0 {
        seq![]
    } else if items.len() == 1 {
        items[0]
    } else {
        items[0] + seq![','] + listed(items.drop_first())
    }
}

/// Items of an array, after its bracket or a comma, up to its end.
proof fn lemma_items(items: Seq<Seq<char>>, rest: Seq<char>, first: bool)
    requires
        items.len() > 0,
        forall|i: int| 0 <= i < items.len() ==> is_value(#[trigger] items[i]),
    ensures
        value_end(
            listed(items) + seq![']'] + rest,
            seq!['['],
            if first {
                Step::FirstItem
            } else {
                Step::Value
            },
        ) == Some(rest),
    decreases items.len(),
{
    let open = seq!['['];
    let none = Seq::<char>::empty();
    let v = items[0];
    assert(is_value(items[0]));
    let s = listed(items) + seq![']'] + rest;
    let after = if items.len() == 1 {
        seq![']'] + rest
    } else {
        seq![','] + (listed(items.drop_first()) + seq![']'] + rest)
    };
    assert(s =~= v + after);
    assert(s[0] == v[0]);
    assert(text::trim_start(s) == s);
    assert(is_end(after));
    assert(value_rest(v + after) == Some(after));
    lemma_nested(s, open, none, Step::Value);
    assert(open + none =~= open);
    lemma_not_closing(v, after);
    assert(value_end(s, open, Step::FirstItem) == value_end(s, open, Step::Value));
    assert(text::trim_start(after) == after);
    if items.len() == 1 {
        assert(after.skip(1) =~= rest);
        assert(open.drop_last() =~= none);
        assert(value_end(rest, none, Step::Next) == Some(rest));
        assert(value_end(after, open, Step::Next) == Some(rest));
    } else {
        let less = items.drop_first();
        assert forall|i: int| 0 <= i < less.len() implies is_value(#[trigger] less[i]) by {
            assert(less[i] == items[i + 1]);
        }
        lemma_items(less, rest, false);
        assert(after.skip(1) =~= listed(less) + seq![']'] + rest);
    }
}

/// No value starts with a closing bracket.
proof fn lemma_not_closing(v: Seq<char>, rest: Seq<char>)
    requires
        is_value(v),
        is_end(rest),
    ensures
        v[0] != ']' && v[0] != '}' && v[0] != ',',
{
    let s = v + rest;
    assert(value_rest(v + rest) == Some(rest));
    assert(s[0] == v[0]);
    assert(text::trim_start(s) == s);
    if v[0] == ']' || v[0] == '}' || v[0] == ',' {
        assert(word_run(s) == 0);
        reveal_strlit("true");
        reveal_strlit("false");
        reveal_strlit("null");
        assert(s.take(0).len() == 0);
        assert(!is_number(s.take(0)));
    }
}

/// An array of values is a value, however deep they nest, and so is the empty
/// one.
pub proof fn arrays_are_values(items: Seq<Seq<char>>)
    requires
        forall|i: int| 0 <= i < items.len() ==> is_value(#[trigger] items[i]),
    ensures
        is_value(seq!['['] + listed(items) + seq![']']),
{
    let v = seq!['['] + listed(items) + seq![']'];
    let none = Seq::<char>::empty();
    assert forall|rest: Seq<char>| is_end(rest) implies #[trigger] value_rest(v + rest) == Some(
        rest,
    ) by {
        let s = v + rest;
        let inside = listed(items) + seq![']'] + rest;
        assert(s[0] == '[');
        assert(text::trim_start(s) == s);
        assert(s.skip(1) =~= inside);
        assert(none.push('[') =~= seq!['[']);
        if items.len() > 0 {
            lemma_items(items, rest, true);
        } else {
            assert(inside[0] == ']');
            assert(text::trim_start(inside) == inside);
            assert(inside.skip(1) =~= rest);
            assert(seq!['['].drop_last() =~= none);
            assert(value_end(rest, none, Step::Next) == Some(rest));
        }
    }
}

/// The members of an object as they are written, one after the other.
pub open spec fn all_written(names: Seq<Seq<char>>, values: Seq<Seq<char>>) -> Seq<Seq<char>> {
    Seq::new(names.len(), |i: int| written(names[i], values[i]))
}

proof fn lemma_object_members(
    names: Seq<Seq<char>>,
    values: Seq<Seq<char>>,
    rest: Seq<char>,
    first: bool,
)
    requires
        names.len() > 0,
        names.len() == values.len(),
        forall|i: int| 0 <= i < names.len() ==> is_plain(#[trigger] names[i]),
        forall|i: int| 0 <= i < values.len() ==> is_value(#[trigger] values[i]),
    ensures
        value_end(
            listed(all_written(names, values)) + seq!['}'] + rest,
            seq!['{'],
            if first {
                Step::FirstName
            } else {
                Step::Name
            },
        ) == Some(rest),
    decreases names.len(),
{
    let open = seq!['{'];
    let none = Seq::<char>::empty();
    let items = all_written(names, values);
    let name = names[0];
    let v = values[0];
    assert(is_plain(names[0]));
    assert(is_value(values[0]));
    let less_names = names.drop_first();
    let less_values = values.drop_first();
    assert(items.drop_first() =~= all_written(less_names, less_values));
    let s = listed(items) + seq!['}'] + rest;
    let after = if items.len() == 1 {
        seq!['}'] + rest
    } else {
        seq![','] + (listed(items.drop_first()) + seq!['}'] + rest)
    };
    assert(items[0] == written(name, v));
    assert(s =~= written(name, v) + after);
    let after_name = seq![':'] + (v + after);
    assert(s =~= quoted(name) + after_name);
    assert(s[0] == '"');
    assert(text::trim_start(s) == s);
    lemma_quoted(name, after_name);
    assert(text::trim_start(after_name) == after_name);
    assert(after_name.skip(1) =~= v + after);
    assert(name_rest(s) == Some(v + after));
    assert(is_end(after));
    assert(value_rest(v + after) == Some(after));
    lemma_nested(v + after, open, none, Step::Value);
    assert(open + none =~= open);
    assert(text::trim_start(after) == after);
    if items.len() == 1 {
        assert(after.skip(1) =~= rest);
        assert(open.drop_last() =~= none);
        assert(value_end(rest, none, Step::Next) == Some(rest));
        assert(value_end(after, open, Step::Next) == Some(rest));
    } else {
        assert forall|i: int| 0 <= i < less_names.len() implies is_plain(
            #[trigger] less_names[i],
        ) by {
            assert(less_names[i] == names[i + 1]);
        }
        assert forall|i: int| 0 <= i < less_values.len() implies is_value(
            #[trigger] less_values[i],
        ) by {
            assert(less_values[i] == values[i + 1]);
        }
        lemma_object_members(less_names, less_values, rest, false);
        assert(after.skip(1) =~= listed(items.drop_first()) + seq!['}'] + rest);
    }
}

/// An object of values is a value, however deep they nest, and so is the empty
/// one.
pub proof fn objects_are_values(names: Seq<Seq<char>>, values: Seq<Seq<char>>)
    requires
        names.len() == values.len(),
        forall|i: int| 0 <= i < names.len() ==> is_plain(#[trigger] names[i]),
        forall|i: int| 0 <= i < values.len() ==> is_value(#[trigger] values[i]),
    ensures
        is_value(seq!['{'] + listed(all_written(names, values)) + seq!['}']),
{
    let v = seq!['{'] + listed(all_written(names, values)) + seq!['}'];
    let none = Seq::<char>::empty();
    assert forall|rest: Seq<char>| is_end(rest) implies #[trigger] value_rest(v + rest) == Some(
        rest,
    ) by {
        let s = v + rest;
        let inside = listed(all_written(names, values)) + seq!['}'] + rest;
        assert(s[0] == '{');
        assert(text::trim_start(s) == s);
        assert(s.skip(1) =~= inside);
        assert(none.push('{') =~= seq!['{']);
        if names.len() > 0 {
            lemma_object_members(names, values, rest, true);
        } else {
            assert(inside[0] == '}');
            assert(text::trim_start(inside) == inside);
            assert(inside.skip(1) =~= rest);
            assert(seq!['{'].drop_last() =~= none);
            assert(value_end(rest, none, Step::Next) == Some(rest));
        }
    }
}

/// Only white space.
pub open spec fn is_blank(s: Seq<char>) -> bool {
    forall|i: int| 0 <= i < s.len() ==> text::is_white_space(#[trigger] s[i])
}

/// A member with white space wherever it may stand.
pub open spec fn written_loosely(
    name: Seq<char>,
    value: Seq<char>,
    a: Seq<char>,
    b: Seq<char>,
    c: Seq<char>,
    d: Seq<char>,
) -> Seq<char> {
    a + quoted(name) + b + seq![':'] + c + value + d
}

proof fn lemma_loose_member(
    name: Seq<char>,
    value: Seq<char>,
    a: Seq<char>,
    b: Seq<char>,
    c: Seq<char>,
    d: Seq<char>,
    rest: Seq<char>,
)
    requires
        is_plain(name),
        is_value(value),
        is_blank(a) && is_blank(b) && is_blank(c) && is_blank(d),
        starts(rest, ',') || starts(rest, '}'),
    ensures
        member_at(written_loosely(name, value, a, b, c, d) + rest) == Some(
            (Member { name: quoted(name), value }, d + rest),
        ),
        text::trim_start(d + rest) == rest,
{
    let s = written_loosely(name, value, a, b, c, d) + rest;
    let after = d + rest;
    let v = value + after;
    let after_colon = c + v;
    let after_name = b + (seq![':'] + after_colon);
    let t = quoted(name) + after_name;
    let none = Seq::<char>::empty();
    assert(s =~= a + t);
    assert(t[0] == '"');
    lemma_trim_blank(a, t);
    lemma_quoted(name, after_name);
    lemma_trim_blank(b, seq![':'] + after_colon);
    assert((seq![':'] + after_colon).skip(1) =~= after_colon);
    assert(v[0] == value[0]);
    lemma_trim_blank(c, v);
    lemma_trim_blank(d, rest);
    assert(is_end(after)) by {
        if d.len() > 0 {
            assert(text::is_white_space(d[0]));
            assert(after[0] == d[0]);
        } else {
            assert(after =~= rest);
        }
    }
    assert(value_rest(value + after) == Some(after));
    assert(before(t, after_name) =~= quoted(name));
    assert(before(v, after) =~= value);
}

proof fn lemma_trim_blank(a: Seq<char>, s: Seq<char>)
    requires
        is_blank(a),
        s.len() > 0 ==> !text::is_white_space(s[0]),
    ensures
        text::trim_start(a + s) == s,
    decreases a.len(),
{
    if a.len() > 0 {
        let less = a.drop_first();
        assert(text::is_white_space(a[0]));
        assert forall|i: int| 0 <= i < less.len() implies text::is_white_space(
            #[trigger] less[i],
        ) by {
            assert(less[i] == a[i + 1]);
        }
        lemma_trim_blank(less, s);
        assert((a + s).drop_first() =~= less + s);
    } else {
        assert(a + s =~= s);
    }
}

/// How a member is written: its name, its value and the white space around
/// them.
pub struct Piece {
    pub name: Seq<char>,
    pub value: Seq<char>,
    pub a: Seq<char>,
    pub b: Seq<char>,
    pub c: Seq<char>,
    pub d: Seq<char>,
}

impl Piece {
    /// The text.
    pub open spec fn text(self) -> Seq<char> {
        written_loosely(self.name, self.value, self.a, self.b, self.c, self.d)
    }

    /// A plain name, a value, and nothing but white space around them.
    pub open spec fn wf(self) -> bool {
        &&& is_plain(self.name)
        &&& is_value(self.value)
        &&& is_blank(self.a) && is_blank(self.b) && is_blank(self.c) && is_blank(self.d)
    }
}

/// The texts of pieces.
pub open spec fn piece_texts(pieces: Seq<Piece>) -> Seq<Seq<char>> {
    pieces.map_values(|p: Piece| p.text())
}

/// The members that pieces write.
pub open spec fn piece_members(pieces: Seq<Piece>) -> Seq<Member> {
    pieces.map_values(|p: Piece| Member { name: quoted(p.name), value: p.value })
}

proof fn lemma_pieces(done: Seq<Member>, pieces: Seq<Piece>, end: Seq<char>)
    requires
        pieces.len() > 0,
        forall|i: int| 0 <= i < pieces.len() ==> (#[trigger] pieces[i]).wf(),
        is_blank(end),
    ensures
        members_from(done, listed(piece_texts(pieces)) + seq!['}'] + end) == Some(
            done + piece_members(pieces),
        ),
    decreases pieces.len(),
{
    let p = pieces[0];
    assert(pieces[0].wf());
    let less = pieces.drop_first();
    let texts = piece_texts(pieces);
    assert(texts.drop_first() =~= piece_texts(less));
    let s = listed(texts) + seq!['}'] + end;
    let member = Member { name: quoted(p.name), value: p.value };
    let none = Seq::<char>::empty();
    let rest = if pieces.len() == 1 {
        seq!['}'] + end
    } else {
        seq![','] + (listed(texts.drop_first()) + seq!['}'] + end)
    };
    assert(texts[0] == p.text());
    assert(s =~= p.text() + rest);
    lemma_loose_member(p.name, p.value, p.a, p.b, p.c, p.d, rest);
    if pieces.len() == 1 {
        assert(rest.skip(1) =~= end);
        lemma_trim_blank(end, none);
        assert(end + none =~= end);
        assert(done.push(member) =~= done + piece_members(pieces));
    } else {
        assert forall|i: int| 0 <= i < less.len() implies (#[trigger] less[i]).wf() by {
            assert(less[i] == pieces[i + 1]);
        }
        lemma_pieces(done.push(member), less, end);
        assert(rest.skip(1) =~= listed(piece_texts(less)) + seq!['}'] + end);
        assert(done.push(member) + piece_members(less) =~= done + piece_members(pieces));
    }
}

/// An object reads back as the members it was written with, in order, whatever
/// their values and wherever there is white space; anything but white space
/// before or after it, and it is no object.
pub proof fn an_object_reads_back(
    pieces: Seq<Piece>,
    lead: Seq<char>,
    inside: Seq<char>,
    end: Seq<char>,
)
    requires
        forall|i: int| 0 <= i < pieces.len() ==> (#[trigger] pieces[i]).wf(),
        is_blank(lead) && is_blank(inside) && is_blank(end),
    ensures
        pieces.len() > 0 ==> members(
            lead + seq!['{'] + (listed(piece_texts(pieces)) + seq!['}'] + end),
        ) == Some(piece_members(pieces)),
        members(lead + seq!['{'] + (inside + seq!['}'] + end)) == Some(Seq::<Member>::empty()),
{
    let none = Seq::<char>::empty();
    lemma_trim_blank(end, none);
    assert(end + none =~= end);
    if pieces.len() > 0 {
        let body = listed(piece_texts(pieces)) + seq!['}'] + end;
        let t = seq!['{'] + body;
        assert(lead + seq!['{'] + body =~= lead + t);
        lemma_trim_blank(lead, t);
        assert(t.skip(1) =~= body);
        let p = pieces[0];
        assert(pieces[0].wf());
        let texts = piece_texts(pieces);
        assert(texts[0] == p.text());
        let rest = body.skip(p.a.len() as int);
        assert(listed(texts).len() >= texts[0].len());
        assert(body.take(texts[0].len() as int) =~= texts[0]) by {
            assert(listed(texts).take(texts[0].len() as int) =~= texts[0]);
        }
        assert forall|i: int| 0 <= i < p.a.len() implies body[i] == p.a[i] by {
            assert(body.take(texts[0].len() as int)[i] == body[i]);
        }
        assert(body =~= p.a + rest);
        assert(rest[0] == '"') by {
            assert(body.take(texts[0].len() as int)[p.a.len() as int] == body[p.a.len() as int]);
        }
        lemma_trim_blank(p.a, rest);
        lemma_pieces(Seq::empty(), pieces, end);
        assert(Seq::<Member>::empty() + piece_members(pieces) =~= piece_members(pieces));
    }
    let body = inside + seq!['}'] + end;
    let t = seq!['{'] + body;
    assert(lead + seq!['{'] + body =~= lead + t);
    lemma_trim_blank(lead, t);
    assert(t.skip(1) =~= body);
    assert(body =~= inside + (seq!['}'] + end));
    lemma_trim_blank(inside, seq!['}'] + end);
    assert((seq!['}'] + end).skip(1) =~= end);
}

/// What does not begin with a brace is no object.
pub proof fn an_object_begins_with_a_brace(lead: Seq<char>, s: Seq<char>)
    requires
        is_blank(lead),
        s.len() > 0 ==> !text::is_white_space(s[0]) && s[0] != '{',
    ensures
        !is_object(lead + s),
{
    lemma_trim_blank(lead, s);
}

/// The value of a name is that of the first member that has it.
pub proof fn the_first_of_a_name_counts(members: Seq<Member>, key: Seq<char>, i: int)
    ensures
        0 <= i < members.len() && members[i].name == key && (forall|j: int|
            0 <= j < i ==> (#[trigger] members[j]).name != key) ==> first_named(members, key)
            == Some(members[i].value),
        (forall|j: int| 0 <= j < members.len() ==> (#[trigger] members[j]).name != key)
            ==> first_named(members, key) is None,
    decreases members.len(),
{
    if members.len() > 0 {
        let most = members.drop_last();
        the_first_of_a_name_counts(most, key, i);
        assert(members.last() == members[members.len() - 1]);
        assert forall|j: int| 0 <= j < most.len() implies #[trigger] most[j] == members[j] by {}
    }
}

} // verus!
