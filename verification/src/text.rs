//! Texts: numbers in them, and the parts that they are made of.

use vstd::prelude::*;

verus! {

/// The decimal digit `d`.
pub open spec fn digit(d: nat) -> char {
    if d == 0 {
        '0'
    } else if d == 1 {
        '1'
    } else if d == 2 {
        '2'
    } else if d == 3 {
        '3'
    } else if d == 4 {
        '4'
    } else if d == 5 {
        '5'
    } else if d == 6 {
        '6'
    } else if d == 7 {
        '7'
    } else if d == 8 {
        '8'
    } else {
        '9'
    }
}

/// A number in decimal.
pub open spec fn decimal(n: nat) -> Seq<char>
    decreases n,
{
    if n < 10 {
        seq![digit(n)]
    } else {
        decimal(n / 10).push(digit(n % 10))
    }
}

fn digit_text(d: u64) -> (r: &'static str)
    requires
        d < 10,
    ensures
        r@ == seq![digit(d as nat)],
{
    proof {
        reveal_strlit("0");
        reveal_strlit("1");
        reveal_strlit("2");
        reveal_strlit("3");
        reveal_strlit("4");
        reveal_strlit("5");
        reveal_strlit("6");
        reveal_strlit("7");
        reveal_strlit("8");
        reveal_strlit("9");
    }
    let r = if d == 0 {
        "0"
    } else if d == 1 {
        "1"
    } else if d == 2 {
        "2"
    } else if d == 3 {
        "3"
    } else if d == 4 {
        "4"
    } else if d == 5 {
        "5"
    } else if d == 6 {
        "6"
    } else if d == 7 {
        "7"
    } else if d == 8 {
        "8"
    } else {
        "9"
    };
    assert(r@ =~= seq![digit(d as nat)]);
    r
}

/// A number in decimal.
pub fn decimal_text(n: u64) -> (r: String)
    ensures
        r@ == decimal(n as nat),
    decreases n,
{
    if n < 10 {
        digit_text(n).to_string()
    } else {
        let mut out = decimal_text(n / 10);
        out.append(digit_text(n % 10));
        assert(out@ =~= decimal(n as nat));
        out
    }
}

// White space.

/// Whether a character is white space, by its Unicode property.
pub open spec fn is_space(c: char) -> bool {
    let code = c as u32;
    ||| 0x9 <= code <= 0xd
    ||| code == 0x20
    ||| code == 0x85
    ||| code == 0xa0
    ||| code == 0x1680
    ||| 0x2000 <= code <= 0x200a
    ||| code == 0x2028
    ||| code == 0x2029
    ||| code == 0x202f
    ||| code == 0x205f
    ||| code == 0x3000
}

fn space(c: char) -> (r: bool)
    ensures
        r == is_space(c),
{
    let code = c as u32;
    (0x9 <= code && code <= 0xd) || code == 0x20 || code == 0x85 || code == 0xa0 || code == 0x1680
        || (0x2000 <= code && code <= 0x200a) || code == 0x2028 || code == 0x2029 || code == 0x202f
        || code == 0x205f || code == 0x3000
}

/// A text without the white space that it starts with.
pub open spec fn trimmed_start(s: Seq<char>) -> Seq<char>
    decreases s.len(),
{
    if s.len() > 0 && is_space(s[0]) {
        trimmed_start(s.skip(1))
    } else {
        s
    }
}

/// A text without the white space that it ends with.
pub open spec fn trimmed_end(s: Seq<char>) -> Seq<char>
    decreases s.len(),
{
    if s.len() > 0 && is_space(s.last()) {
        trimmed_end(s.drop_last())
    } else {
        s
    }
}

/// A text without the white space around it.
pub open spec fn trimmed(s: Seq<char>) -> Seq<char> {
    trimmed_end(trimmed_start(s))
}

/// Cuts off the white space around a text.
pub fn trim(s: &str) -> (r: String)
    ensures
        r@ == trimmed(s@),
{
    let length = s.unicode_len();
    let mut from: usize = 0;
    assert(s@.skip(0) =~= s@);
    while from < length && space(s.get_char(from))
        invariant
            from <= length,
            length == s@.len(),
            trimmed_start(s@) == trimmed_start(s@.skip(from as int)),
        decreases length - from,
    {
        assert(s@.skip(from as int).skip(1) =~= s@.skip(from + 1));
        from = from + 1;
    }
    let mut to: usize = length;
    assert(s@.subrange(from as int, to as int) =~= s@.skip(from as int));
    while to > from && space(s.get_char(to - 1))
        invariant
            from <= to <= length,
            length == s@.len(),
            trimmed(s@) == trimmed_end(s@.subrange(from as int, to as int)),
        decreases to,
    {
        assert(s@.subrange(from as int, to as int).drop_last() =~= s@.subrange(
            from as int,
            to - 1,
        ));
        to = to - 1;
    }
    s.substring_char(from, to).to_string()
}

/// Text that neither starts nor ends with white space stays as it is.
pub proof fn lemma_trimmed(s: Seq<char>)
    requires
        s.len() > 0 ==> !is_space(s[0]) && !is_space(s.last()),
    ensures
        trimmed(s) == s,
{
}

/// A trimmed text is what is left of the text between white space: it neither starts nor
/// ends with any, and what was cut off is nothing else.
pub proof fn trimming_cuts_off_white_space(s: Seq<char>) -> (r: (int, int))
    ensures
        0 <= r.0 <= r.1 <= s.len(),
        trimmed(s) == s.subrange(r.0, r.1),
        forall|k: int| 0 <= k < r.0 || r.1 <= k < s.len() ==> is_space(#[trigger] s[k]),
        trimmed(s).len() > 0 ==> !is_space(trimmed(s)[0]) && !is_space(trimmed(s).last()),
{
    let from = lemma_trimmed_start(s);
    let rest = trimmed_start(s);
    let length = lemma_trimmed_end(rest);
    assert(rest.take(length) =~= s.subrange(from, from + length));
    assert forall|k: int| 0 <= k < from || from + length <= k < s.len() implies is_space(
        #[trigger] s[k],
    ) by {
        if k >= from {
            assert(rest[k - from] == s[k]);
        }
    }
    (from, from + length)
}

proof fn lemma_trimmed_start(s: Seq<char>) -> (n: int)
    ensures
        0 <= n <= s.len(),
        trimmed_start(s) == s.skip(n),
        forall|k: int| 0 <= k < n ==> is_space(#[trigger] s[k]),
        n < s.len() ==> !is_space(s[n]),
    decreases s.len(),
{
    if s.len() > 0 && is_space(s[0]) {
        let n = lemma_trimmed_start(s.skip(1));
        assert(s.skip(1).skip(n) =~= s.skip(n + 1));
        assert forall|k: int| 0 <= k < n + 1 implies is_space(#[trigger] s[k]) by {
            if k > 0 {
                assert(s.skip(1)[k - 1] == s[k]);
            }
        }
        n + 1
    } else {
        assert(s.skip(0) =~= s);
        0
    }
}

proof fn lemma_trimmed_end(s: Seq<char>) -> (n: int)
    ensures
        0 <= n <= s.len(),
        trimmed_end(s) == s.take(n),
        forall|k: int| n <= k < s.len() ==> is_space(#[trigger] s[k]),
        n > 0 ==> !is_space(s[n - 1]),
    decreases s.len(),
{
    if s.len() > 0 && is_space(s.last()) {
        let n = lemma_trimmed_end(s.drop_last());
        assert(s.drop_last().take(n) =~= s.take(n));
        assert forall|k: int| n <= k < s.len() implies is_space(#[trigger] s[k]) by {
            if k < s.len() - 1 {
                assert(s.drop_last()[k] == s[k]);
            }
        }
        n
    } else {
        assert(s.take(s.len() as int) =~= s);
        s.len() as int
    }
}

// Pieces.

/// The pieces of a text between separators.
pub open spec fn pieces(s: Seq<char>, separator: char) -> Seq<Seq<char>>
    decreases s.len(),
{
    if s.len() == 0 {
        seq![seq![]]
    } else {
        let front = pieces(s.drop_last(), separator);
        if s.last() == separator {
            front.push(seq![])
        } else {
            front.drop_last().push(front.last().push(s.last()))
        }
    }
}

/// The views of a list of texts.
pub open spec fn text_views(texts: Seq<String>) -> Seq<Seq<char>> {
    texts.map_values(|text: String| text@)
}

/// Splits a text at its separators.
pub fn split(s: &str, separator: char) -> (r: Vec<String>)
    ensures
        text_views(r@) == pieces(s@, separator),
{
    let length = s.unicode_len();
    let mut out: Vec<String> = Vec::new();
    let mut from: usize = 0;
    let mut i: usize = 0;
    assert(text_views(out@).push(s@.subrange(0, 0)) =~= pieces(s@.take(0), separator)) by {
        assert(s@.subrange(0, 0) =~= seq![]);
        assert(s@.take(0) =~= seq![]);
    }
    while i < length
        invariant
            from <= i <= length,
            length == s@.len(),
            text_views(out@).push(s@.subrange(from as int, i as int)) == pieces(
                s@.take(i as int),
                separator,
            ),
        decreases length - i,
    {
        let ghost before = text_views(out@);
        let ghost piece = s@.subrange(from as int, i as int);
        let ghost front = pieces(s@.take(i as int), separator);
        assert(s@.take(i + 1).drop_last() =~= s@.take(i as int));
        assert(front.drop_last() =~= before);
        assert(front.last() == piece);
        if s.get_char(i) == separator {
            let text = s.substring_char(from, i).to_string();
            out.push(text);
            from = i + 1;
            assert(text_views(out@) =~= before.push(piece));
            assert(s@.subrange(from as int, i + 1) =~= seq![]);
        } else {
            assert(s@.subrange(from as int, i + 1) =~= piece.push(s@[i as int]));
        }
        i = i + 1;
        assert(text_views(out@).push(s@.subrange(from as int, i as int)) =~= pieces(
            s@.take(i as int),
            separator,
        ));
    }
    let ghost before = text_views(out@);
    let last = s.substring_char(from, length).to_string();
    let ghost view = last@;
    out.push(last);
    assert(s@.take(length as int) =~= s@);
    assert(text_views(out@) =~= before.push(view));
    out
}

/// A text without separators is one piece.
pub proof fn lemma_one_piece(s: Seq<char>, separator: char)
    requires
        !s.contains(separator),
    ensures
        pieces(s, separator) == seq![s],
    decreases s.len(),
{
    if s.len() > 0 {
        let front = s.drop_last();
        if front.contains(separator) {
            let k = choose|k: int| 0 <= k < front.len() && front[k] == separator;
            assert(s[k] == separator);
        }
        lemma_one_piece(front, separator);
        assert(s.contains(s.last())) by {
            assert(s[s.len() - 1] == s.last());
        }
        assert(front.push(s.last()) =~= s);
        assert(pieces(s, separator) =~= seq![s]);
    } else {
        assert(s =~= seq![]);
        assert(pieces(s, separator) =~= seq![s]);
    }
}

/// What follows a separator is split on its own.
pub proof fn lemma_next_piece(a: Seq<char>, separator: char, b: Seq<char>)
    ensures
        pieces(a.push(separator) + b, separator) == pieces(a, separator) + pieces(b, separator),
    decreases b.len(),
{
    let head = a.push(separator);
    if b.len() == 0 {
        assert(head + b =~= head);
        assert(head.drop_last() =~= a);
        assert(pieces(head, separator) =~= pieces(a, separator) + seq![seq![]]);
    } else {
        let all = head + b;
        let front = b.drop_last();
        lemma_next_piece(a, separator, front);
        assert(all.drop_last() =~= head + front);
        assert(all.last() == b.last());
        lemma_some_piece(front, separator);
        let left = pieces(a, separator);
        let right = pieces(front, separator);
        assert((left + right).drop_last() =~= left + right.drop_last());
        assert((left + right).last() == right.last());
        assert(pieces(all, separator) =~= left + pieces(b, separator));
    }
}

proof fn lemma_some_piece(s: Seq<char>, separator: char)
    ensures
        pieces(s, separator).len() > 0,
    decreases s.len(),
{
    if s.len() > 0 {
        lemma_some_piece(s.drop_last(), separator);
    }
}

/// Whether a text starts with another.
pub open spec fn starts_with(s: Seq<char>, prefix: Seq<char>) -> bool {
    s.len() >= prefix.len() && s.take(prefix.len() as int) == prefix
}

/// What follows a prefix, if the text starts with it.
pub fn strip_prefix(s: &str, prefix: &str) -> (r: Option<String>)
    ensures
        match r {
            Some(rest) => starts_with(s@, prefix@) && rest@ == s@.skip(prefix@.len() as int),
            None => !starts_with(s@, prefix@),
        },
{
    let length = s.unicode_len();
    let n = prefix.unicode_len();
    if length < n {
        return None;
    }
    if s.substring_char(0, n).to_string() == prefix.to_string() {
        assert(s@.subrange(0, n as int) =~= s@.take(n as int));
        let rest = s.substring_char(n, length).to_string();
        assert(rest@ =~= s@.skip(n as int));
        Some(rest)
    } else {
        assert(s@.subrange(0, n as int) =~= s@.take(n as int));
        None
    }
}

/// Whether two texts are equal.
pub fn same_text(a: &str, b: &str) -> (r: bool)
    ensures
        r == (a@ == b@),
{
    a.to_string() == b.to_string()
}

/// Pieces with separators between them.
pub open spec fn joined(parts: Seq<Seq<char>>, separator: char) -> Seq<char>
    decreases parts.len(),
{
    if parts.len() == 0 {
        seq![]
    } else if parts.len() == 1 {
        parts[0]
    } else {
        joined(parts.drop_last(), separator).push(separator) + parts.last()
    }
}

/// The pieces of a text are the text when they are put together again, and none of them has
/// a separator in it.
pub proof fn pieces_make_up_the_text(s: Seq<char>, separator: char)
    ensures
        pieces(s, separator).len() > 0,
        joined(pieces(s, separator), separator) == s,
        forall|k: int|
            0 <= k < pieces(s, separator).len() ==> !(#[trigger] pieces(s, separator)[k]).contains(
                separator,
            ),
    decreases s.len(),
{
    let all = pieces(s, separator);
    if s.len() == 0 {
        assert(all[0] =~= s);
    } else {
        let front = pieces(s.drop_last(), separator);
        pieces_make_up_the_text(s.drop_last(), separator);
        if s.last() == separator {
            assert(all.drop_last() =~= front);
            assert(joined(all, separator) =~= s);
        } else {
            let last = front.last().push(s.last());
            assert(all.drop_last() =~= front.drop_last());
            assert(all.last() == last);
            if front.len() == 1 {
                assert(joined(all, separator) =~= s);
            } else {
                assert(joined(all, separator) =~= joined(front, separator).push(s.last()));
                assert(joined(all, separator) =~= s);
            }
            assert forall|k: int| 0 <= k < all.len() implies !(#[trigger] all[k]).contains(
                separator,
            ) by {
                if k < front.len() - 1 {
                    assert(all[k] == front[k]);
                } else {
                    let old = front[front.len() - 1];
                    if last.contains(separator) {
                        let j = choose|j: int| 0 <= j < last.len() && last[j] == separator;
                        assert(old[j] == separator);
                    }
                }
            }
        }
    }
}

// Numbers.

/// The value of a decimal digit.
pub open spec fn digit_value(c: char) -> Option<nat> {
    if '0' <= c <= '9' {
        Some((c as u32 - '0' as u32) as nat)
    } else {
        None
    }
}

/// The number that decimal digits stand for, if they are digits.
pub open spec fn digits_value(s: Seq<char>) -> Option<nat>
    decreases s.len(),
{
    if s.len() == 0 {
        Some(0)
    } else {
        match (digits_value(s.drop_last()), digit_value(s.last())) {
            (Some(front), Some(last)) => Some(front * 10 + last),
            _ => None,
        }
    }
}

/// The number that a text stands for, if it is at most `max`: decimal digits,
/// with an optional plus sign before them.
pub open spec fn number(s: Seq<char>, max: nat) -> Option<nat> {
    let digits = if s.len() > 0 && s[0] == '+' {
        s.skip(1)
    } else {
        s
    };
    if digits.len() == 0 {
        None
    } else {
        match digits_value(digits) {
            Some(value) => if value <= max {
                Some(value)
            } else {
                None
            },
            None => None,
        }
    }
}

/// Why a text stands for no number.
#[derive(Clone, Copy, Debug, PartialEq, Eq, Structural)]
pub enum NumberFault {
    /// There is nothing in it.
    Empty,
    /// It has something other than a digit, or no digits at all.
    InvalidDigit,
    /// Its digits, up to the first character that is none, exceed the largest
    /// number.
    TooLarge,
}

impl NumberFault {
    /// The fault in words.
    pub open spec fn words(self) -> Seq<char> {
        match self {
            NumberFault::Empty => "cannot parse integer from empty string"@,
            NumberFault::InvalidDigit => "invalid digit found in string"@,
            NumberFault::TooLarge => "number too large to fit in target type"@,
        }
    }

    /// Says the fault in words.
    pub fn text(self) -> (r: String)
        ensures
            r@ == self.words(),
    {
        match self {
            NumberFault::Empty => "cannot parse integer from empty string".to_string(),
            NumberFault::InvalidDigit => "invalid digit found in string".to_string(),
            NumberFault::TooLarge => "number too large to fit in target type".to_string(),
        }
    }
}

/// Whether the first characters of a text are digits that stand for more than `max`.
pub open spec fn is_too_large(digits: Seq<char>, max: nat) -> bool {
    exists|n: int|
        0 <= n <= digits.len() && (#[trigger] digits_value(digits.take(n)) matches Some(value)
            && value > max)
}

/// Why a text stands for no number of at most `max`, if it does not.
pub open spec fn number_fault(s: Seq<char>, max: nat) -> NumberFault {
    let digits = if s.len() > 0 && s[0] == '+' {
        s.skip(1)
    } else {
        s
    };
    if s.len() == 0 {
        NumberFault::Empty
    } else if is_too_large(digits, max) {
        NumberFault::TooLarge
    } else {
        NumberFault::InvalidDigit
    }
}

/// Reads a number of at most `max`.
pub fn parse_number(s: &str, max: u64) -> (r: std::result::Result<u64, NumberFault>)
    ensures
        match r {
            Ok(value) => number(s@, max as nat) == Some(value as nat),
            Err(fault) => number(s@, max as nat) is None && fault == number_fault(s@, max as nat),
        },
{
    let length = s.unicode_len();
    if length == 0 {
        return Err(NumberFault::Empty);
    }
    let from: usize = if s.get_char(0) == '+' {
        1
    } else {
        0
    };
    let ghost digits = s@.skip(from as int);
    assert(s@.skip(0) =~= s@);
    assert(digits.take(0) =~= seq![]);
    if from == length {
        assert(!is_too_large(digits, max as nat));
        return Err(NumberFault::InvalidDigit);
    }
    let mut value: u64 = 0;
    let mut i: usize = from;
    while i < length
        invariant
            from <= i <= length,
            length == s@.len(),
            digits == s@.skip(from as int),
            digits.len() > 0,
            number(s@, max as nat) == match digits_value(digits) {
                Some(value) if value <= max => Some(value),
                _ => None,
            },
            number_fault(s@, max as nat) == if is_too_large(digits, max as nat) {
                NumberFault::TooLarge
            } else {
                NumberFault::InvalidDigit
            },
            digits_value(digits.take(i - from)) == Some(value as nat),
            value <= max,
        decreases length - i,
    {
        let c = s.get_char(i);
        proof {
            assert(digits.take(i - from + 1).drop_last() =~= digits.take(i - from));
            assert(digits.take(i - from + 1).last() == c);
            lemma_digits_grow(digits, i - from + 1);
        }
        if c < '0' || c > '9' {
            proof {
                lemma_not_too_large(digits, i - from, max as nat);
            }
            return Err(NumberFault::InvalidDigit);
        }
        let digit = (c as u32 - '0' as u32) as u64;
        if digit > max || value > max / 10 || value * 10 > max - digit {
            assert(value * 10 + digit > max) by {
                if value > max / 10 {
                    assert(value * 10 > max);
                }
            }
            assert(digits_value(digits.take(i - from + 1)) == Some((value * 10 + digit) as nat));
            assert(is_too_large(digits, max as nat));
            return Err(NumberFault::TooLarge);
        }
        value = value * 10 + digit;
        i = i + 1;
    }
    assert(digits.take(i - from) =~= digits);
    Ok(value)
}

/// Digits of a small number, followed by something else, are not too large.
proof fn lemma_not_too_large(digits: Seq<char>, n: int, max: nat)
    requires
        0 <= n < digits.len(),
        digits_value(digits.take(n)) matches Some(value) && value <= max,
        digits_value(digits.take(n + 1)) is None,
    ensures
        !is_too_large(digits, max),
{
    assert forall|k: int| 0 <= k <= digits.len() implies match #[trigger] digits_value(
        digits.take(k),
    ) {
        Some(value) => value <= max,
        None => true,
    } by {
        if k <= n {
            assert(digits.take(n).take(k) =~= digits.take(k));
            lemma_digits_grow(digits.take(n), k);
        } else {
            assert(digits.take(k).take(n + 1) =~= digits.take(n + 1));
            lemma_digits_grow(digits.take(k), n + 1);
        }
    }
}

/// More digits make no smaller number, and what is no number stays none.
proof fn lemma_digits_grow(s: Seq<char>, n: int)
    requires
        0 <= n <= s.len(),
    ensures
        match (digits_value(s.take(n)), digits_value(s)) {
            (Some(a), Some(b)) => a <= b,
            (None, b) => b is None,
            (Some(_), None) => true,
        },
    decreases s.len(),
{
    if n == s.len() {
        assert(s.take(n) =~= s);
    } else {
        lemma_digits_grow(s.drop_last(), n);
        assert(s.drop_last().take(n) =~= s.take(n));
    }
}

proof fn lemma_decimal_value(n: nat)
    ensures
        digits_value(decimal(n)) == Some(n),
        decimal(n).len() > 0,
        forall|k: int| 0 <= k < decimal(n).len() ==> '0' <= #[trigger] decimal(n)[k] <= '9',
    decreases n,
{
    reveal_with_fuel(digits_value, 2);
    if n < 10 {
        let s = seq![digit(n)];
        assert(s.drop_last() =~= seq![]);
        assert(digit_value(digit(n)) == Some(n));
    } else {
        lemma_decimal_value(n / 10);
        let s = decimal(n / 10).push(digit(n % 10));
        assert(s.drop_last() =~= decimal(n / 10));
        assert(digit_value(digit(n % 10)) == Some(n % 10));
    }
}

/// A number written in decimal is read back, and is made of digits.
pub proof fn decimal_round_trip(n: nat, max: nat)
    requires
        n <= max,
    ensures
        number(decimal(n), max) == Some(n),
        decimal(n).len() > 0,
        forall|k: int| 0 <= k < decimal(n).len() ==> '0' <= #[trigger] decimal(n)[k] <= '9',
{
    lemma_decimal_value(n);
}

} // verus!
