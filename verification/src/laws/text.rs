//! Text: searching, splitting, joining, and numbers in decimal.

use crate::text::{
    decimal, digit_char, find, find_from, is_digit, join, lemma_find_from, lemma_join_split,
    occurs_at, parse_u32, push_decimal, read_digits, read_u32, split, split_str, NumberError,
};
use vstd::arithmetic::power::{lemma_pow0, lemma_pow1, lemma_pow_adds, lemma_pow_positive, pow};
use vstd::prelude::*;

verus! {

/// A search finds the first place, from `from` on, at which the characters are those of the
/// pattern; it finds none where there is no such place.
pub proof fn law_find_is_first(s: &Vec<char>, pat: &Vec<char>, from: usize, r: Option<usize>)
    requires
        call_ensures(find, (s, pat, from), r),
    ensures
        r matches Some(i) ==> from <= i && i + pat.len() <= s.len() && s@.subrange(
            i as int,
            i + pat.len(),
        ) == pat@,
        forall|j: int|
            from <= j && j + pat.len() <= s.len() && #[trigger] s@.subrange(j, j + pat.len())
                == pat@ ==> r is Some && r->0 <= j,
{
    lemma_find_from(s@, pat@, from as int);
    assert forall|j: int|
        from <= j && j + pat.len() <= s.len() && #[trigger] s@.subrange(j, j + pat.len())
            == pat@ implies r is Some && r->0 <= j by {
        assert(occurs_at(s@, pat@, j));
    }
}

/// Joining puts the separator between each part and the next, and nowhere else.
pub proof fn law_join(parts: Seq<Seq<char>>, last: Seq<char>, sep: Seq<char>)
    ensures
        join(Seq::<Seq<char>>::empty(), sep) =~= Seq::<char>::empty(),
        join(parts.push(last), sep) =~= if parts.len() == 0 {
            last
        } else {
            join(parts, sep) + sep + last
        },
{
    assert(parts.push(last).drop_last() =~= parts);
}

/// The texts of strings.
pub open spec fn texts(parts: Seq<&str>) -> Seq<Seq<char>> {
    parts.map_values(|p: &str| p@)
}

/// Splitting takes a text apart at the pattern: the pieces joined with it are the text, and it
/// stands in none of them.
pub proof fn law_split(s: &str, pat: &str, r: Vec<&str>)
    requires
        pat@.len() > 0,
        call_ensures(split_str, (s, pat), r),
    ensures
        r.len() > 0,
        join(texts(r@), pat@) =~= s@,
        forall|i: int, j: int|
            0 <= i < r.len() && 0 <= j && j + pat@.len() <= r[i]@.len() ==> #[trigger] r[i]@.subrange(
                j,
                j + pat@.len(),
            ) != pat@,
{
    lemma_join_split(s@, pat@);
    assert(texts(r@) =~= split(s@, pat@));
    assert forall|i: int, j: int|
        0 <= i < r.len() && 0 <= j && j + pat@.len() <= r[i]@.len() implies #[trigger] r[i]@.subrange(
        j,
        j + pat@.len(),
    ) != pat@ by {
        lemma_pieces_lack_pattern(s@, pat@, i, j);
        assert(texts(r@)[i] == r[i]@);
    }
}

/// The pattern stands in none of the pieces.
proof fn lemma_pieces_lack_pattern(s: Seq<char>, pat: Seq<char>, i: int, j: int)
    requires
        pat.len() > 0,
        0 <= i < split(s, pat).len(),
    ensures
        !occurs_at(split(s, pat)[i], pat, j),
    decreases s.len(),
{
    lemma_find_from(s, pat, 0);
    match find_from(s, pat, 0) {
        Some(k) => {
            let rest = s.skip(k + pat.len());
            if i == 0 {
                let piece = s.take(k);
                if occurs_at(piece, pat, j) {
                    assert(s.subrange(j, j + pat.len()) =~= piece.subrange(j, j + pat.len()));
                    assert(occurs_at(s, pat, j));
                }
            } else {
                lemma_pieces_lack_pattern(rest, pat, i - 1, j);
                assert(split(s, pat)[i] == split(rest, pat)[i - 1]);
            }
        },
        None => {},
    }
}

/// The number that digits write to the base ten.
pub open spec fn number_of(digits: Seq<char>) -> int {
    digits.fold_left(0, |v: int, c: char| 10 * v + (c as int - '0' as int))
}

/// A number in decimal has at each place the digit that stands there, and no leading zero.
pub proof fn law_decimal_places(n: nat, place: nat)
    requires
        place < decimal(n).len(),
    ensures
        decimal(n)[decimal(n).len() - 1 - place] as int == '0' as int + n as int / pow(10, place)
            % 10,
        n < pow(10, decimal(n).len()),
        decimal(n).len() > 1 ==> decimal(n)[0] != '0',
    decreases n,
{
    lemma_pow0(10);
    lemma_pow1(10);
    let d = decimal(n);
    if n < 10 {
        assert(n as int / 1 == n);
    } else {
        let e = decimal(n / 10);
        assert(d =~= e.push(digit_char(n % 10)));
        crate::text::lemma_decimal_digits(n / 10);
        lemma_pow_adds(10, 1, e.len());
        law_decimal_places(n / 10, (e.len() - 1) as nat);
        vstd::arithmetic::mul::lemma_mul_inequality((n / 10 + 1) as int, pow(10, e.len()), 10);
        assert(d[0] == e[0]);
        if e.len() == 1 {
            assert(n / 10 < 10);
        }
        if place == 0 {
            assert(n as int / 1 == n);
        } else {
            let below = (place - 1) as nat;
            law_decimal_places(n / 10, below);
            lemma_pow_positive(10, below);
            lemma_pow_adds(10, 1, below);
            vstd::arithmetic::div_mod::lemma_div_denominator(n as int, 10, pow(10, below));
            assert(d[d.len() - 1 - place] == e[e.len() - 1 - below]);
        }
    }
}

/// A number is appended in decimal, and what stood before stays.
pub proof fn law_number_is_appended(out: &mut String, n: u64)
    requires
        call_ensures(push_decimal, (out, n), ()),
    ensures
        final(out)@ =~= old(out)@ + decimal(n as nat),
{
}

/// What reading digits makes of them.
proof fn lemma_read_digits(s: Seq<char>)
    ensures
        match read_digits(s) {
            Ok(n) => (forall|i: int| 0 <= i < s.len() ==> is_digit(#[trigger] s[i])) && n
                == number_of(s) && n <= u32::MAX,
            Err(e) => exists|i: int| #[trigger] fails_at(s, i, e),
        },
    decreases s.len(),
{
    if s.len() > 0 {
        let init = s.drop_last();
        lemma_read_digits(init);
        match read_digits(init) {
            Ok(v) => {
                assert(s.take(s.len() - 1) =~= init);
                assert forall|i: int| 0 <= i < init.len() implies is_digit(#[trigger] s[i]) by {
                    assert(init[i] == s[i]);
                    assert(is_digit(init[i]));
                }
                if let Err(e) = read_digits(s) {
                    assert(s.take(s.len() as int) =~= s);
                    assert forall|j: int| 0 <= j < s.len() - 1 implies '0' <= #[trigger] s[j]
                        <= '9' by {
                        assert(is_digit(s[j]));
                    }
                    assert(fails_at(s, s.len() - 1, e));
                }
            },
            Err(e) => {
                let i = choose|i: int| #[trigger] fails_at(init, i, e);
                assert(s.take(i) =~= init.take(i));
                assert(s.take(i + 1) =~= init.take(i + 1));
                assert forall|j: int| 0 <= j < i implies '0' <= #[trigger] s[j] <= '9' by {
                    assert(init[j] == s[j]);
                }
                assert(fails_at(s, i, e));
            },
        }
    }
}

/// Reading digits fails at `i` and not before: there stands no digit, or the number up to there has
/// more than 32 bits.
pub open spec fn fails_at(s: Seq<char>, i: int, e: NumberError) -> bool {
    &&& 0 <= i < s.len()
    &&& forall|j: int| 0 <= j < i ==> '0' <= #[trigger] s[j] <= '9'
    &&& number_of(s.take(i)) <= u32::MAX
    &&& match e {
        NumberError::Empty => false,
        NumberError::InvalidDigit => !('0' <= s[i] <= '9'),
        NumberError::TooLarge => '0' <= s[i] <= '9' && number_of(s.take(i + 1)) > u32::MAX,
    }
}

/// A text without the plus sign that may stand before digits.
pub open spec fn without_sign(s: Seq<char>) -> Seq<char> {
    if s.len() > 1 && s[0] == '+' {
        s.skip(1)
    } else {
        s
    }
}

/// `digits` are digits, and write the number `n`.
pub open spec fn writes(digits: Seq<char>, n: int) -> bool {
    &&& forall|i: int| 0 <= i < digits.len() ==> '0' <= #[trigger] digits[i] <= '9'
    &&& number_of(digits) == n
}

/// A number is read where a text is digits of a number of 32 bits, with one plus sign before them
/// or none, and it is the number that they write; else the first failure is told.
pub proof fn law_number_is_read(s: &str, r: Result<u32, NumberError>)
    requires
        call_ensures(parse_u32, (s,), r),
    ensures
        r == Err::<u32, NumberError>(NumberError::Empty) <==> s@.len() == 0,
        s@.len() > 0 ==> match r {
            Ok(n) => writes(without_sign(s@), n as int),
            Err(e) => exists|i: int| #[trigger] fails_at(without_sign(s@), i, e),
        },
{
    lemma_read_number(s@);
}

/// What reading a number makes of a text.
pub proof fn lemma_read_number(s: Seq<char>)
    ensures
        read_u32(s) == Err::<nat, NumberError>(NumberError::Empty) <==> s.len() == 0,
        s.len() > 0 ==> match read_u32(s) {
            Ok(n) => writes(without_sign(s), n as int) && n <= u32::MAX,
            Err(e) => exists|i: int| #[trigger] fails_at(without_sign(s), i, e),
        },
{
    lemma_read_digits(s);
    lemma_read_digits(s.skip(1));
    if s.len() > 0 {
        let digits = without_sign(s);
        assert(read_u32(s) == read_digits(digits));
        if read_u32(s) is Ok {
            assert forall|i: int| 0 <= i < digits.len() implies '0' <= #[trigger] digits[i]
                <= '9' by {
                assert(is_digit(digits[i]));
            }
        }
    }
}

/// What is said of a text that is no number.
pub proof fn law_number_errors(empty: &'static str, digit: &'static str, large: &'static str)
    requires
        call_ensures(NumberError::text, (NumberError::Empty,), empty),
        call_ensures(NumberError::text, (NumberError::InvalidDigit,), digit),
        call_ensures(NumberError::text, (NumberError::TooLarge,), large),
    ensures
        empty@ == "cannot parse integer from empty string"@,
        digit@ == "invalid digit found in string"@,
        large@ == "number too large to fit in target type"@,
{
}

} // verus!
