//! Text as a sequence of characters: numbers, separators and blanks.

use vstd::prelude::*;

pub mod operations;

verus! {

/// [`String::push`] appends one character.
pub assume_specification[ String::push ](text: &mut String, c: char)
    ensures
        final(text)@ == old(text)@.push(c),
;

/// Whether `c` has the Unicode property `White_Space`.
pub open spec fn is_white_space(c: char) -> bool {
    ||| '\u{9}' <= c <= '\u{d}'
    ||| c == '\u{20}'
    ||| c == '\u{85}'
    ||| c == '\u{a0}'
    ||| c == '\u{1680}'
    ||| '\u{2000}' <= c <= '\u{200a}'
    ||| c == '\u{2028}'
    ||| c == '\u{2029}'
    ||| c == '\u{202f}'
    ||| c == '\u{205f}'
    ||| c == '\u{3000}'
}

/// [`char::is_whitespace`] tells whether a character has the Unicode property
/// `White_Space`: whether it is one of those that [`is_white_space`] lists.
#[verifier::external_body]
fn white_space(c: char) -> (white: bool)
    ensures
        white == is_white_space(c),
{
    c.is_whitespace()
}

/// The characters of a text.
pub fn chars_of(text: &str) -> (chars: Vec<char>)
    ensures
        chars@ == text@,
{
    let mut chars: Vec<char> = Vec::new();
    let iter = text.chars();
    let ghost all = text@;
    assert(all.take(0) =~= Seq::<char>::empty());
    for c in it: iter
        invariant
            it.seq() == all,
            chars@ == all.take(it.index() as int),
    {
        chars.push(c);
        assert(all.take(it.index() + 1) =~= all.take(it.index() as int).push(c));
    }
    assert(all.take(all.len() as int) =~= all);
    chars
}

/// A text with the given characters.
pub fn text_of(chars: &Vec<char>) -> (text: String)
    ensures
        text@ == chars@,
{
    let mut text = String::new();
    assert(chars@.take(0) =~= Seq::<char>::empty());
    for i in 0..chars.len()
        invariant
            text@ == chars@.take(i as int),
    {
        text.push(chars[i]);
        assert(chars@.take(i + 1) =~= chars@.take(i as int).push(chars@[i as int]));
    }
    assert(chars@.take(chars@.len() as int) =~= chars@);
    text
}

/// Appends characters.
pub fn append_chars(chars: &mut Vec<char>, more: &Vec<char>)
    ensures
        final(chars)@ == old(chars)@ + more@,
{
    assert(more@.take(0) =~= Seq::<char>::empty());
    for i in 0..more.len()
        invariant
            chars@ == old(chars)@ + more@.take(i as int),
    {
        chars.push(more[i]);
        assert(more@.take(i + 1) =~= more@.take(i as int).push(more@[i as int]));
    }
    assert(more@.take(more@.len() as int) =~= more@);
}

/// The value of a decimal digit.
pub open spec fn digit_value(c: char) -> nat {
    (c as nat - '0' as nat) as nat
}

/// Whether a character is a decimal digit.
pub open spec fn is_digit(c: char) -> bool {
    '0' <= c <= '9'
}

/// Whether a text consists of decimal digits.
pub open spec fn all_digits(s: Seq<char>) -> bool {
    forall|i: int| 0 <= i < s.len() ==> is_digit(#[trigger] s[i])
}

/// The number that decimal digits denote.
pub open spec fn digits_value(s: Seq<char>) -> nat
    decreases s.len(),
{
    if s.len() == 0 {
        0
    } else {
        10 * digits_value(s.drop_last()) + digit_value(s.last())
    }
}

/// The number that a text denotes: digits, possibly after a plus sign.
pub open spec fn unsigned_value(s: Seq<char>) -> Option<nat> {
    let body = if s.len() > 0 && s[0] == '+' {
        s.skip(1)
    } else {
        s
    };
    if body.len() > 0 && all_digits(body) {
        Some(digits_value(body))
    } else {
        None
    }
}

/// The number that a text denotes: digits, possibly after a sign.
pub open spec fn signed_value(s: Seq<char>) -> Option<int> {
    if s.len() > 0 && s[0] == '-' {
        if s.len() > 1 && all_digits(s.skip(1)) {
            Some(-(digits_value(s.skip(1)) as int))
        } else {
            None
        }
    } else {
        match unsigned_value(s) {
            Some(value) => Some(value as int),
            None => None,
        }
    }
}

/// The decimal digits of a number.
pub open spec fn decimal(n: nat) -> Seq<char>
    decreases n,
{
    if n < 10 {
        seq![digit_char(n)]
    } else {
        decimal(n / 10).push(digit_char(n % 10))
    }
}

/// The decimal digit of a number below ten.
pub open spec fn digit_char(n: nat) -> char {
    ('0' as nat + n) as char
}

/// The decimal text of an integer.
pub open spec fn signed_decimal(z: int) -> Seq<char> {
    if z < 0 {
        seq!['-'] + decimal((-z) as nat)
    } else {
        decimal(z as nat)
    }
}

/// Writes a digit.
fn digit(n: u8) -> (c: char)
    requires
        n < 10,
    ensures
        c == digit_char(n as nat),
        is_digit(c),
        digit_value(c) == n,
{
    match n {
        0 => '0',
        1 => '1',
        2 => '2',
        3 => '3',
        4 => '4',
        5 => '5',
        6 => '6',
        7 => '7',
        8 => '8',
        _ => '9',
    }
}

/// Reads a digit.
fn value_of_digit(c: char) -> (value: Option<u8>)
    ensures
        match value {
            Some(value) => is_digit(c) && value == digit_value(c) && value < 10,
            None => !is_digit(c),
        },
{
    match c {
        '0' => Some(0),
        '1' => Some(1),
        '2' => Some(2),
        '3' => Some(3),
        '4' => Some(4),
        '5' => Some(5),
        '6' => Some(6),
        '7' => Some(7),
        '8' => Some(8),
        '9' => Some(9),
        _ => None,
    }
}

/// The value of a prefix is never above that of the whole.
proof fn lemma_digits_grow(s: Seq<char>, n: int)
    requires
        0 <= n <= s.len(),
    ensures
        digits_value(s.take(n)) <= digits_value(s),
    decreases s.len() - n,
{
    if n == s.len() {
        assert(s.take(n) =~= s);
    } else {
        lemma_digits_grow(s, n + 1);
        assert(s.take(n + 1).drop_last() =~= s.take(n));
    }
}

/// Reads the digits of `chars` from place `from` on.
fn read_digits(chars: &Vec<char>, from: usize) -> (value: Option<u128>)
    requires
        from <= chars@.len(),
    ensures
        value == {
            let body = chars@.skip(from as int);
            if body.len() > 0 && all_digits(body) && digits_value(body) <= u128::MAX {
                Some(digits_value(body) as u128)
            } else {
                None
            }
        },
{
    let ghost body = chars@.skip(from as int);
    if from == chars.len() {
        return None;
    }
    let mut value: u128 = 0;
    let mut i: usize = from;
    while i < chars.len()
        invariant
            from <= i <= chars@.len(),
            body == chars@.skip(from as int),
            all_digits(body.take(i - from)),
            value == digits_value(body.take(i - from)),
        decreases chars@.len() - i,
    {
        let ghost n = i - from;
        assert(body[n] == chars@[i as int]);
        assert(body.take(n + 1).drop_last() =~= body.take(n));
        assert(body.take(n + 1).last() == body[n]);
        match value_of_digit(chars[i]) {
            Some(d) => {
                let ghost next = 10 * value + d;
                assert(digits_value(body.take(n + 1)) == next);
                if value > (u128::MAX - d as u128) / 10 {
                    proof {
                        lemma_digits_grow(body, n + 1);
                        assert(next > u128::MAX);
                    }
                    return None;
                }
                value = value * 10 + d as u128;
                assert forall|j: int| 0 <= j < n + 1 implies is_digit(
                    #[trigger] body.take(n + 1)[j],
                ) by {
                    if j < n {
                        assert(body.take(n)[j] == body.take(n + 1)[j]);
                    }
                }
            },
            None => {
                assert(!is_digit(body[n]));
                return None;
            },
        }
        i = i + 1;
    }
    assert(body.take(body.len() as int) =~= body);
    Some(value)
}

/// Reads an unsigned integer as the number parser of the standard library
/// does: digits, possibly after a plus sign, as far as they fit.
pub fn parse_u128(chars: &Vec<char>) -> (value: Option<u128>)
    ensures
        value == match unsigned_value(chars@) {
            Some(n) => if n <= u128::MAX {
                Some(n as u128)
            } else {
                None
            },
            None => None,
        },
{
    if chars.len() > 0 && chars[0] == '+' {
        read_digits(chars, 1)
    } else {
        assert(chars@.skip(0) =~= chars@);
        read_digits(chars, 0)
    }
}

/// Reads an unsigned integer of 64 bits.
pub fn parse_u64(chars: &Vec<char>) -> (value: Option<u64>)
    ensures
        value == match unsigned_value(chars@) {
            Some(n) => if n <= u64::MAX {
                Some(n as u64)
            } else {
                None
            },
            None => None,
        },
{
    match parse_u128(chars) {
        Some(n) => if n <= u64::MAX as u128 {
            Some(n as u64)
        } else {
            None
        },
        None => None,
    }
}

/// Reads an unsigned integer of 16 bits.
pub fn parse_u16(chars: &Vec<char>) -> (value: Option<u16>)
    ensures
        value == match unsigned_value(chars@) {
            Some(n) => if n <= u16::MAX {
                Some(n as u16)
            } else {
                None
            },
            None => None,
        },
{
    match parse_u128(chars) {
        Some(n) => if n <= u16::MAX as u128 {
            Some(n as u16)
        } else {
            None
        },
        None => None,
    }
}

/// Reads a signed integer of 64 bits: digits, possibly after a sign, as far as
/// they fit.
pub fn parse_i64(chars: &Vec<char>) -> (value: Option<i64>)
    ensures
        value == match signed_value(chars@) {
            Some(z) => if i64::MIN <= z <= i64::MAX {
                Some(z as i64)
            } else {
                None
            },
            None => None,
        },
{
    if chars.len() > 0 && chars[0] == '-' {
        match read_digits(chars, 1) {
            Some(n) => if n <= 0x7fff_ffff_ffff_ffff {
                Some(-(n as i64))
            } else if n == 0x8000_0000_0000_0000 {
                Some(i64::MIN)
            } else {
                None
            },
            None => None,
        }
    } else {
        match parse_u128(chars) {
            Some(n) => if n <= 0x7fff_ffff_ffff_ffff {
                Some(n as i64)
            } else {
                None
            },
            None => None,
        }
    }
}

/// Writes a number in decimal digits.
pub fn format_u128(n: u128) -> (chars: Vec<char>)
    ensures
        chars@ == decimal(n as nat),
    decreases n,
{
    if n < 10 {
        let mut chars: Vec<char> = Vec::new();
        chars.push(digit(n as u8));
        assert(chars@ =~= decimal(n as nat));
        chars
    } else {
        let mut chars = format_u128(n / 10);
        chars.push(digit((n % 10) as u8));
        chars
    }
}

/// Writes an integer in decimal digits, with a sign if it is negative.
pub fn format_i64(z: i64) -> (chars: Vec<char>)
    ensures
        chars@ == signed_decimal(z as int),
{
    if z < 0 {
        let mut chars: Vec<char> = Vec::new();
        chars.push('-');
        let magnitude: u128 = if z == i64::MIN {
            0x8000_0000_0000_0000
        } else {
            (-z) as u128
        };
        let digits = format_u128(magnitude);
        append_chars(&mut chars, &digits);
        assert(chars@ =~= signed_decimal(z as int));
        chars
    } else {
        format_u128(z as u128)
    }
}

/// The digits of a number are digits, and denote it.
pub proof fn lemma_decimal(n: nat)
    ensures
        decimal(n).len() > 0,
        all_digits(decimal(n)),
        digits_value(decimal(n)) == n,
    decreases n,
{
    if n < 10 {
        let s = seq![digit_char(n)];
        assert(s.drop_last() =~= Seq::empty());
        assert(digits_value(Seq::<char>::empty()) == 0);
        assert(s.last() == digit_char(n));
    } else {
        lemma_decimal(n / 10);
        let s = decimal(n);
        assert(s.drop_last() =~= decimal(n / 10));
        assert(s.last() == digit_char(n % 10));
        assert forall|i: int| 0 <= i < s.len() implies is_digit(#[trigger] s[i]) by {
            if i < s.len() - 1 {
                assert(decimal(n / 10)[i] == s[i]);
            }
        }
    }
}

/// A number that is written and read again is the same.
pub proof fn law_numbers_are_read_back(n: nat, z: int)
    ensures
        unsigned_value(decimal(n)) == Some(n),
        signed_value(signed_decimal(z)) == Some(z),
{
    lemma_decimal(n);
    assert(is_digit(decimal(n)[0]));
    if z < 0 {
        lemma_decimal((-z) as nat);
        assert(signed_decimal(z).skip(1) =~= decimal((-z) as nat));
    } else {
        lemma_decimal(z as nat);
        assert(is_digit(decimal(z as nat)[0]));
    }
}

/// The pieces of a text between separators.
pub open spec fn split(s: Seq<char>, separator: char) -> Seq<Seq<char>>
    decreases s.len(),
{
    if s.len() == 0 {
        seq![Seq::empty()]
    } else {
        let before = split(s.drop_last(), separator);
        if s.last() == separator {
            before.push(Seq::empty())
        } else {
            before.drop_last().push(before.last().push(s.last()))
        }
    }
}

/// What follows the last separator of a text.
pub open spec fn last_piece(s: Seq<char>, separator: char) -> Seq<char> {
    split(s, separator).last()
}

/// The views of a list of texts.
pub open spec fn pieces_view(pieces: Seq<Vec<char>>) -> Seq<Seq<char>> {
    pieces.map_values(|piece: Vec<char>| piece@)
}

/// Splits a text at its separators.
pub fn split_chars(chars: &Vec<char>, separator: char) -> (pieces: Vec<Vec<char>>)
    ensures
        pieces_view(pieces@) == split(chars@, separator),
        pieces@.len() > 0,
{
    let mut pieces: Vec<Vec<char>> = Vec::new();
    let mut piece: Vec<char> = Vec::new();
    assert(chars@.take(0) =~= Seq::<char>::empty());
    assert(pieces_view(pieces@).push(piece@) =~= seq![Seq::<char>::empty()]);
    for i in 0..chars.len()
        invariant
            pieces_view(pieces@).push(piece@) == split(chars@.take(i as int), separator),
    {
        let ghost before = pieces_view(pieces@).push(piece@);
        let ghost finished = pieces_view(pieces@);
        let ghost open = piece@;
        proof {
            assert(chars@.take(i + 1).drop_last() =~= chars@.take(i as int));
            assert(chars@.take(i + 1).last() == chars@[i as int]);
            assert(before.drop_last() =~= finished);
            assert(before.last() == open);
        }
        if chars[i] == separator {
            let mut next: Vec<char> = Vec::new();
            std::mem::swap(&mut piece, &mut next);
            pieces.push(next);
            assert(pieces_view(pieces@) =~= finished.push(open));
        } else {
            piece.push(chars[i]);
        }
    }
    assert(chars@.take(chars@.len() as int) =~= chars@);
    let ghost finished = pieces_view(pieces@);
    pieces.push(piece);
    assert(pieces_view(pieces@) =~= finished.push(piece@));
    pieces
}

/// A text without a separator is one piece.
pub proof fn lemma_split_plain(s: Seq<char>, separator: char)
    requires
        !s.contains(separator),
    ensures
        split(s, separator) == seq![s],
    decreases s.len(),
{
    if s.len() > 0 {
        let front = s.drop_last();
        assert forall|i: int| 0 <= i < front.len() implies front[i] != separator by {
            assert(front[i] == s[i]);
            assert(s.contains(s[i]));
        }
        lemma_split_plain(front, separator);
        assert(s.contains(s[s.len() - 1]));
        assert(front.push(s.last()) =~= s);
        assert(split(s, separator) =~= seq![s]);
    } else {
        assert(s =~= Seq::empty());
    }
}

/// A separator and a text without one add a piece.
pub proof fn lemma_split_append(s: Seq<char>, separator: char, piece: Seq<char>)
    requires
        !piece.contains(separator),
    ensures
        split(s.push(separator) + piece, separator) == split(s, separator).push(piece),
    decreases piece.len(),
{
    let whole = s.push(separator) + piece;
    if piece.len() == 0 {
        assert(whole =~= s.push(separator));
        assert(whole.drop_last() =~= s);
        assert(piece =~= Seq::empty());
    } else {
        let front = piece.drop_last();
        assert forall|i: int| 0 <= i < front.len() implies front[i] != separator by {
            assert(front[i] == piece[i]);
            assert(piece.contains(piece[i]));
        }
        lemma_split_append(s, separator, front);
        assert(whole.drop_last() =~= s.push(separator) + front);
        assert(whole.last() == piece.last());
        assert(piece.contains(piece[piece.len() - 1]));
        let before = split(s, separator).push(front);
        assert(before.drop_last() =~= split(s, separator));
        assert(front.push(piece.last()) =~= piece);
    }
}

/// A text without the white space at its end.
pub open spec fn trimmed_end(s: Seq<char>) -> Seq<char>
    decreases s.len(),
{
    if s.len() > 0 && is_white_space(s.last()) {
        trimmed_end(s.drop_last())
    } else {
        s
    }
}

/// A text without the white space at its start.
pub open spec fn trimmed_start(s: Seq<char>) -> Seq<char>
    decreases s.len(),
{
    if s.len() > 0 && is_white_space(s[0]) {
        trimmed_start(s.drop_first())
    } else {
        s
    }
}

/// A text without the white space around it.
pub open spec fn trimmed(s: Seq<char>) -> Seq<char> {
    trimmed_end(trimmed_start(s))
}

/// Removes the white space around a text.
pub fn trim_chars(chars: &Vec<char>) -> (text: Vec<char>)
    ensures
        text@ == trimmed(chars@),
{
    let mut start: usize = 0;
    assert(chars@.skip(0) =~= chars@);
    while start < chars.len() && white_space(chars[start])
        invariant
            start <= chars@.len(),
            trimmed_start(chars@) == trimmed_start(chars@.skip(start as int)),
        decreases chars@.len() - start,
    {
        assert(chars@.skip(start as int).drop_first() =~= chars@.skip(start + 1));
        start = start + 1;
    }
    let ghost rest = chars@.skip(start as int);
    assert(trimmed_start(chars@) == rest);
    let mut end: usize = chars.len();
    assert(rest.take(rest.len() as int) =~= rest);
    while end > start && white_space(chars[end - 1])
        invariant
            start <= end <= chars@.len(),
            rest == chars@.skip(start as int),
            trimmed_end(rest) == trimmed_end(rest.take(end - start)),
        decreases end,
    {
        assert(rest.take(end - start).drop_last() =~= rest.take(end - start - 1));
        assert(rest.take(end - start).last() == chars@[end - 1]);
        end = end - 1;
    }
    assert(trimmed_end(rest) == rest.take(end - start));
    let mut text: Vec<char> = Vec::new();
    for i in start..end
        invariant
            start <= end <= chars@.len(),
            text@ == chars@.subrange(start as int, i as int),
    {
        text.push(chars[i]);
        assert(chars@.subrange(start as int, i + 1) =~= chars@.subrange(
            start as int,
            i as int,
        ).push(chars@[i as int]));
    }
    assert(text@ =~= rest.take(end - start));
    text
}

/// Compares characters with a text.
pub fn chars_equal(chars: &Vec<char>, text: &str) -> (equal: bool)
    ensures
        equal == (chars@ == text@),
{
    let other = chars_of(text);
    if chars.len() != other.len() {
        return false;
    }
    for i in 0..chars.len()
        invariant
            other@ == text@,
            chars@.len() == other@.len(),
            forall|j: int| 0 <= j < i ==> chars@[j] == other@[j],
    {
        if chars[i] != other[i] {
            return false;
        }
    }
    assert(chars@ =~= other@);
    true
}

} // verus!
