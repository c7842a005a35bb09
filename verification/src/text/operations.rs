//! What texts denote, what they are cut into, and how numbers are written.

use vstd::prelude::*;
use super::{
    all_digits, decimal, digit_char, digits_value, is_digit, is_white_space, last_piece,
    lemma_decimal, pieces_view, signed_decimal, signed_value, split, trimmed, trimmed_end,
    trimmed_start, unsigned_value,
};

verus! {

/// The characters that count as white space, by their code points.
pub proof fn law_white_space_characters(c: char)
    ensures
        is_white_space(c) <==> {
            let code = c as int;
            9 <= code <= 13 || code == 32 || code == 133 || code == 160 || code == 5760 || 8192
                <= code <= 8202 || code == 8232 || code == 8233 || code == 8239 || code == 8287
                || code == 12288
        },
{
}

/// A run of digits is read in base ten, the last digit being that of the units.
pub proof fn law_digits_are_read_in_base_ten(s: Seq<char>, c: char)
    ensures
        is_digit(c) <==> 48 <= c as int <= 57,
        digits_value(Seq::empty()) == 0,
        is_digit(c) ==> digits_value(s.push(c)) == 10 * digits_value(s) + (c as int - 48),
{
    assert(s.push(c).drop_last() =~= s);
}

/// A text denotes a number if it is a run of digits, at least one, and so it
/// does with a plus in front. Nothing else does.
pub proof fn law_unsigned_numbers(s: Seq<char>, i: int)
    ensures
        ({
            let digits = s.len() > 0 && forall|j: int|
                0 <= j < s.len() ==> 48 <= (#[trigger] s[j]) as int <= 57;
            let bad = 0 <= i < s.len() && !(48 <= s[i] as int <= 57) && (i > 0 || s[0] != '+');
            &&& digits ==> unsigned_value(s) == Some(digits_value(s))
            &&& digits ==> unsigned_value(seq!['+'] + s) == Some(digits_value(s))
            &&& bad ==> unsigned_value(s) is None
            &&& unsigned_value(Seq::empty()) is None
            &&& unsigned_value(seq!['+']) is None
        }),
{
    assert((seq!['+'] + s).skip(1) =~= s);
    assert(seq!['+'].skip(1) =~= Seq::<char>::empty());
    if s.len() > 0 && (forall|j: int| 0 <= j < s.len() ==> 48 <= (#[trigger] s[j]) as int <= 57) {
        assert(48 <= s[0] as int <= 57);
        assert(all_digits(s));
    }
    if 0 <= i < s.len() && !(48 <= s[i] as int <= 57) && (i > 0 || s[0] != '+') {
        if s[0] == '+' {
            assert(s.skip(1)[i - 1] == s[i]);
            assert(!is_digit(s.skip(1)[i - 1]));
        } else {
            assert(!is_digit(s[i]));
        }
    }
}

/// A signed number is an unsigned one, or a run of digits with a minus in
/// front, which denotes the negative. Nothing else is.
pub proof fn law_signed_numbers(s: Seq<char>, i: int)
    ensures
        ({
            let digits = s.len() > 0 && forall|j: int|
                0 <= j < s.len() ==> 48 <= (#[trigger] s[j]) as int <= 57;
            let bad = 0 <= i < s.len() && !(48 <= s[i] as int <= 57);
            &&& digits ==> signed_value(s) == Some(digits_value(s) as int)
            &&& digits ==> signed_value(seq!['+'] + s) == Some(digits_value(s) as int)
            &&& digits ==> signed_value(seq!['-'] + s) == Some(-(digits_value(s) as int))
            &&& bad ==> signed_value(seq!['-'] + s) is None
            &&& bad ==> signed_value(seq!['+'] + s) is None
            &&& bad && (i > 0 || (s[0] != '+' && s[0] != '-')) ==> signed_value(s) is None
            &&& signed_value(Seq::empty()) is None
            &&& signed_value(seq!['-']) is None
            &&& signed_value(seq!['+']) is None
        }),
{
    law_unsigned_numbers(s, i);
    law_unsigned_numbers(seq!['+'] + s, i + 1);
    assert((seq!['-'] + s).skip(1) =~= s);
    assert((seq!['+'] + s)[0] == '+');
    assert((seq!['-'] + s)[0] == '-');
    if s.len() > 0 && (forall|j: int| 0 <= j < s.len() ==> 48 <= (#[trigger] s[j]) as int <= 57) {
        assert(48 <= s[0] as int <= 57);
        assert(all_digits(s));
    }
    if 0 <= i < s.len() && !(48 <= s[i] as int <= 57) {
        assert(!is_digit(s[i]));
        assert((seq!['+'] + s)[i + 1] == s[i]);
        if s[0] == '-' && i > 0 {
            assert(s.skip(1)[i - 1] == s[i]);
            assert(!is_digit(s.skip(1)[i - 1]));
        }
    }
}

/// A number is written with digits only, so that they denote it, and without a
/// zero in front unless it is zero; a negative one has a minus in front.
pub proof fn law_numbers_are_written_in_decimal(n: nat, z: int)
    ensures
        all_digits(decimal(n)),
        digits_value(decimal(n)) == n,
        n > 0 ==> decimal(n)[0] != '0',
        decimal(0) == seq!['0'],
        z >= 0 ==> signed_decimal(z) == decimal(z as nat),
        z < 0 ==> signed_decimal(z) == seq!['-'] + decimal((-z) as nat),
    decreases n,
{
    lemma_decimal(n);
    assert(digit_char(0) == '0');
    if n > 0 {
        if n < 10 {
            assert(digit_char(n) != '0');
        } else {
            law_numbers_are_written_in_decimal(n / 10, z);
            lemma_decimal(n / 10);
            assert(decimal(n)[0] == decimal(n / 10)[0]);
        }
    }
}

/// The pieces with the separator between them.
pub open spec fn rejoined(pieces: Seq<Seq<char>>, separator: char) -> Seq<char>
    decreases pieces.len(),
{
    if pieces.len() == 0 {
        Seq::empty()
    } else if pieces.len() == 1 {
        pieces[0]
    } else {
        rejoined(pieces.drop_last(), separator).push(separator) + pieces.last()
    }
}

/// A text is cut at every separator and nowhere else: no piece holds one, and
/// the pieces with a separator between any two make up the text. There is
/// always a piece, and what follows the last separator is the last one.
pub proof fn law_text_is_cut_at_separators(s: Seq<char>, separator: char, i: int)
    ensures
        split(s, separator).len() > 0,
        0 <= i < split(s, separator).len() ==> !split(s, separator)[i].contains(separator),
        rejoined(split(s, separator), separator) == s,
        last_piece(s, separator) == split(s, separator)[split(s, separator).len() - 1],
    decreases s.len(),
{
    let pieces = split(s, separator);
    if s.len() == 0 {
        assert(pieces[0] =~= Seq::<char>::empty());
        assert(s =~= Seq::empty());
    } else {
        let before = split(s.drop_last(), separator);
        law_text_is_cut_at_separators(s.drop_last(), separator, i);
        law_text_is_cut_at_separators(s.drop_last(), separator, before.len() - 1);
        assert(s =~= s.drop_last().push(s.last()));
        if s.last() == separator {
            assert(pieces.drop_last() =~= before);
            assert(rejoined(pieces, separator) =~= s);
        } else {
            let piece = before.last().push(s.last());
            assert(!piece.contains(separator)) by {
                if piece.contains(separator) {
                    let k = choose|k: int| 0 <= k < piece.len() && piece[k] == separator;
                    assert(before.last()[k] == separator);
                }
            }
            assert(pieces.drop_last() =~= before.drop_last());
            assert(rejoined(pieces, separator) =~= s);
        }
    }
}

/// The pieces are seen as they are.
pub proof fn law_pieces_are_seen_as_they_are(pieces: Seq<Vec<char>>, i: int)
    ensures
        pieces_view(pieces).len() == pieces.len(),
        0 <= i < pieces.len() ==> pieces_view(pieces)[i] == pieces[i]@,
{
}

/// What is cut off at the end is white space, and what is left does not end in
/// it.
proof fn lemma_trimmed_end(s: Seq<char>)
    ensures
        trimmed_end(s).len() <= s.len(),
        trimmed_end(s) == s.take(trimmed_end(s).len() as int),
        forall|i: int| trimmed_end(s).len() <= i < s.len() ==> is_white_space(#[trigger] s[i]),
        trimmed_end(s).len() > 0 ==> !is_white_space(trimmed_end(s).last()),
    decreases s.len(),
{
    if s.len() > 0 && is_white_space(s.last()) {
        lemma_trimmed_end(s.drop_last());
        let n = trimmed_end(s).len() as int;
        assert(s.drop_last().take(n) =~= s.take(n));
        assert forall|i: int| n <= i < s.len() implies is_white_space(#[trigger] s[i]) by {
            if i < s.len() - 1 {
                assert(s.drop_last()[i] == s[i]);
            }
        }
    } else {
        assert(s.take(s.len() as int) =~= s);
    }
}

/// What is cut off at the start is white space, and what is left does not start
/// with it.
proof fn lemma_trimmed_start(s: Seq<char>)
    ensures
        trimmed_start(s).len() <= s.len(),
        trimmed_start(s) == s.skip(s.len() - trimmed_start(s).len()),
        forall|i: int|
            0 <= i < s.len() - trimmed_start(s).len() ==> is_white_space(#[trigger] s[i]),
        trimmed_start(s).len() > 0 ==> !is_white_space(trimmed_start(s)[0]),
    decreases s.len(),
{
    if s.len() > 0 && is_white_space(s[0]) {
        lemma_trimmed_start(s.drop_first());
        let n = s.len() - trimmed_start(s).len();
        assert(s.drop_first().skip(n - 1) =~= s.skip(n));
        assert forall|i: int| 0 <= i < n implies is_white_space(#[trigger] s[i]) by {
            if i > 0 {
                assert(s.drop_first()[i - 1] == s[i]);
            }
        }
    } else {
        assert(s.skip(0) =~= s);
    }
}

/// Trimming cuts off white space at both ends and nothing else; what is left
/// has none there.
pub proof fn law_trimming_cuts_off_white_space(s: Seq<char>) -> (at: int)
    ensures
        0 <= at <= at + trimmed(s).len() <= s.len(),
        trimmed(s) == s.subrange(at, at + trimmed(s).len()),
        forall|i: int| 0 <= i < at ==> is_white_space(#[trigger] s[i]),
        forall|i: int| at + trimmed(s).len() <= i < s.len() ==> is_white_space(#[trigger] s[i]),
        trimmed(s).len() > 0 ==> !is_white_space(trimmed(s)[0]),
        trimmed(s).len() > 0 ==> !is_white_space(trimmed(s).last()),
{
    let start = trimmed_start(s);
    lemma_trimmed_start(s);
    lemma_trimmed_end(start);
    let at = s.len() - start.len();
    let n = trimmed(s).len() as int;
    assert(start.take(n) =~= s.subrange(at, at + n));
    assert forall|i: int| at + n <= i < s.len() implies is_white_space(#[trigger] s[i]) by {
        assert(start[i - at] == s[i]);
    }
    at
}

} // verus!
