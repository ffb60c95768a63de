//! Text as sequences of characters: searching, splitting, joining, and decimal numbers.

use vstd::prelude::*;

verus! {

/// `pat` stands in `s` at position `i`.
pub open spec fn occurs_at(s: Seq<char>, pat: Seq<char>, i: int) -> bool {
    &&& 0 <= i
    &&& i + pat.len() <= s.len()
    &&& s.subrange(i, i + pat.len()) =~= pat
}

/// The first position, at or after `from`, at which `pat` stands in `s`.
pub open spec fn find_from(s: Seq<char>, pat: Seq<char>, from: int) -> Option<int>
    decreases s.len() - from + 1,
{
    if from < 0 || from + pat.len() > s.len() {
        None
    } else if occurs_at(s, pat, from) {
        Some(from)
    } else {
        find_from(s, pat, from + 1)
    }
}

/// What `find_from` finds: `Some(k)` is an occurrence with none before it, and `None` says that
/// there is none.
pub proof fn lemma_find_from(s: Seq<char>, pat: Seq<char>, from: int)
    requires
        0 <= from,
    ensures
        match find_from(s, pat, from) {
            Some(k) => from <= k && occurs_at(s, pat, k) && (forall|i: int|
                from <= i < k ==> !#[trigger] occurs_at(s, pat, i)),
            None => forall|i: int| from <= i ==> !#[trigger] occurs_at(s, pat, i),
        },
    decreases s.len() - from + 1,
{
    if from + pat.len() > s.len() {
    } else if occurs_at(s, pat, from) {
    } else {
        lemma_find_from(s, pat, from + 1);
    }
}

/// An occurrence with none before it is the one that `find_from` finds.
pub proof fn lemma_find_is(s: Seq<char>, pat: Seq<char>, from: int, k: int)
    requires
        0 <= from <= k,
        occurs_at(s, pat, k),
        forall|i: int| from <= i < k ==> !#[trigger] occurs_at(s, pat, i),
    ensures
        find_from(s, pat, from) == Some(k),
{
    lemma_find_from(s, pat, from);
}

/// Searching from `from` on is searching the text that starts there.
proof fn lemma_find_skip(s: Seq<char>, pat: Seq<char>, from: int)
    requires
        0 <= from <= s.len(),
    ensures
        find_from(s.skip(from), pat, 0) == match find_from(s, pat, from) {
            Some(k) => Some(k - from),
            None => None,
        },
{
    let t = s.skip(from);
    assert forall|i: int| 0 <= i implies #[trigger] occurs_at(t, pat, i) == occurs_at(
        s,
        pat,
        from + i,
    ) by {
        if i + pat.len() <= t.len() {
            assert(t.subrange(i, i + pat.len()) =~= s.subrange(from + i, from + i + pat.len()));
        }
    }
    lemma_find_from(s, pat, from);
    match find_from(s, pat, from) {
        Some(k) => {
            assert(occurs_at(t, pat, k - from));
            lemma_find_is(t, pat, 0, k - from);
        },
        None => {
            lemma_find_from(t, pat, 0);
            if let Some(k) = find_from(t, pat, 0) {
                assert(occurs_at(s, pat, from + k));
            }
        },
    }
}

/// The pieces of `s` between the occurrences of `pat`, which are taken from left to right and do
/// not overlap. There is always at least one piece.
pub open spec fn split(s: Seq<char>, pat: Seq<char>) -> Seq<Seq<char>>
    decreases s.len(),
    when pat.len() > 0
{
    match find_from(s, pat, 0) {
        Some(i) => {
            proof {
                lemma_find_from(s, pat, 0);
            }
            seq![s.take(i)] + split(s.skip(i + pat.len()), pat)
        },
        None => seq![s],
    }
}

/// The parts in order, with `sep` between each and the next.
pub open spec fn join(parts: Seq<Seq<char>>, sep: Seq<char>) -> Seq<char>
    decreases parts.len(),
{
    if parts.len() == 0 {
        Seq::empty()
    } else if parts.len() == 1 {
        parts[0]
    } else {
        join(parts.drop_last(), sep) + sep + parts.last()
    }
}

/// `join` read from the front.
pub proof fn lemma_join_first(parts: Seq<Seq<char>>, sep: Seq<char>)
    requires
        parts.len() > 1,
    ensures
        join(parts, sep) =~= parts[0] + sep + join(parts.drop_first(), sep),
    decreases parts.len(),
{
    if parts.len() == 2 {
        assert(parts.drop_last() =~= seq![parts[0]]);
        assert(parts.drop_first() =~= seq![parts[1]]);
        assert(join(parts.drop_last(), sep) == parts[0]);
        assert(join(parts.drop_first(), sep) == parts[1]);
    } else {
        lemma_join_first(parts.drop_last(), sep);
        assert(parts.drop_last().drop_first() =~= parts.drop_first().drop_last());
        assert(parts.drop_first().last() == parts.last());
    }
}

/// Joining the pieces of a text gives the text back.
pub proof fn lemma_join_split(s: Seq<char>, pat: Seq<char>)
    requires
        pat.len() > 0,
    ensures
        split(s, pat).len() > 0,
        join(split(s, pat), pat) =~= s,
    decreases s.len(),
{
    lemma_find_from(s, pat, 0);
    match find_from(s, pat, 0) {
        Some(i) => {
            let rest = s.skip(i + pat.len());
            lemma_join_split(rest, pat);
            let parts = split(s, pat);
            assert(parts.drop_first() =~= split(rest, pat));
            lemma_join_first(parts, pat);
            assert(s =~= s.take(i) + s.subrange(i, i + pat.len()) + rest);
        },
        None => {
            assert(split(s, pat) =~= seq![s]);
        },
    }
}

/// The first piece ends at the first occurrence.
pub proof fn lemma_split_at(a: Seq<char>, pat: Seq<char>, b: Seq<char>)
    requires
        pat.len() > 0,
        forall|i: int| 0 <= i < a.len() ==> !#[trigger] occurs_at(a + pat + b, pat, i),
    ensures
        split(a + pat + b, pat) =~= seq![a] + split(b, pat),
{
    let s = a + pat + b;
    assert(s.subrange(a.len() as int, (a.len() + pat.len()) as int) =~= pat);
    lemma_find_is(s, pat, 0, a.len() as int);
    assert(s.take(a.len() as int) =~= a);
    assert(s.skip((a.len() + pat.len()) as int) =~= b);
}

/// A text in which `pat` stands nowhere is one piece.
pub proof fn lemma_split_none(s: Seq<char>, pat: Seq<char>)
    requires
        pat.len() > 0,
        forall|i: int| 0 <= i ==> !#[trigger] occurs_at(s, pat, i),
    ensures
        split(s, pat) =~= seq![s],
{
    lemma_find_from(s, pat, 0);
}

/// Splitting at a character gives back parts that were joined with it, where there is a part and
/// the character stands in none of them.
pub proof fn lemma_split_join(parts: Seq<Seq<char>>, sep: char)
    requires
        parts.len() > 0,
        forall|i: int| 0 <= i < parts.len() ==> !(#[trigger] parts[i]).contains(sep),
    ensures
        split(join(parts, seq![sep]), seq![sep]) =~= parts,
    decreases parts.len(),
{
    let pat = seq![sep];
    let head = parts[0];
    if parts.len() == 1 {
        assert forall|i: int| 0 <= i implies !#[trigger] occurs_at(head, pat, i) by {
            lemma_occurs_char(head, sep, i);
        }
        lemma_split_none(head, pat);
    } else {
        let rest = parts.drop_first();
        lemma_join_first(parts, pat);
        assert forall|i: int| 0 <= i < rest.len() implies !(#[trigger] rest[i]).contains(sep) by {
            assert(rest[i] == parts[i + 1]);
        }
        lemma_split_join(rest, sep);
        let whole = head + pat + join(rest, pat);
        assert forall|i: int| 0 <= i < head.len() implies !#[trigger] occurs_at(whole, pat, i) by {
            lemma_occurs_char(whole, sep, i);
            assert(whole[i] == head[i]);
            assert(head.contains(head[i]));
        }
        lemma_split_at(head, pat, join(rest, pat));
    }
}

/// Appending text without the pattern's last character only makes the last piece longer.
pub proof fn lemma_split_suffix(s: Seq<char>, x: Seq<char>, pat: Seq<char>)
    requires
        pat.len() > 0,
        !x.contains(pat.last()),
    ensures
        split(s, pat).len() > 0,
        split(s + x, pat) =~= split(s, pat).drop_last().push(split(s, pat).last() + x),
    decreases s.len(),
{
    let t = s + x;
    assert forall|i: int| 0 <= i implies #[trigger] occurs_at(t, pat, i) == occurs_at(
        s,
        pat,
        i,
    ) by {
        if i + pat.len() <= s.len() {
            assert(t.subrange(i, i + pat.len()) =~= s.subrange(i, i + pat.len()));
        } else if i + pat.len() <= t.len() {
            let last = i + pat.len() - 1;
            assert(t[last] == x[last - s.len()]);
            assert(x.contains(x[last - s.len()]));
            assert(t.subrange(i, i + pat.len())[pat.len() - 1] == t[last]);
        }
    }
    lemma_find_from(s, pat, 0);
    lemma_find_from(t, pat, 0);
    match find_from(s, pat, 0) {
        Some(k) => {
            lemma_find_is(t, pat, 0, k);
            let rest = s.skip(k + pat.len());
            lemma_split_suffix(rest, x, pat);
            assert(t.skip(k + pat.len()) =~= rest + x);
            assert(t.take(k) =~= s.take(k));
            assert(split(s, pat).last() == split(rest, pat).last());
        },
        None => {
            if let Some(k) = find_from(t, pat, 0) {
                assert(occurs_at(s, pat, k));
            }
        },
    }
}

/// Splitting at a character gives pieces without it.
pub proof fn lemma_pieces_lack(s: Seq<char>, c: char)
    ensures
        forall|i: int|
            0 <= i < split(s, seq![c]).len() ==> !(#[trigger] split(s, seq![c])[i]).contains(c),
    decreases s.len(),
{
    let pat = seq![c];
    lemma_find_from(s, pat, 0);
    match find_from(s, pat, 0) {
        Some(k) => {
            let rest = s.skip(k + 1);
            lemma_pieces_lack(rest, c);
            assert forall|i: int| 0 <= i < split(s, pat).len() implies !(#[trigger] split(
                s,
                pat,
            )[i]).contains(c) by {
                if i == 0 {
                    if s.take(k).contains(c) {
                        let j = choose|j: int| 0 <= j < k && s.take(k)[j] == c;
                        lemma_occurs_char(s, c, j);
                    }
                } else {
                    assert(split(s, pat)[i] == split(rest, pat)[i - 1]);
                }
            }
        },
        None => {
            if s.contains(c) {
                let j = choose|j: int| 0 <= j < s.len() && s[j] == c;
                lemma_occurs_char(s, c, j);
            }
        },
    }
}

/// A text that holds the character has more than one piece.
pub proof fn lemma_pieces_many(s: Seq<char>, c: char)
    requires
        s.contains(c),
    ensures
        split(s, seq![c]).len() > 1,
{
    let pat = seq![c];
    let j = choose|j: int| 0 <= j < s.len() && s[j] == c;
    lemma_occurs_char(s, c, j);
    lemma_find_from(s, pat, 0);
    let k = find_from(s, pat, 0)->0;
    lemma_join_split(s.skip(k + 1), pat);
}

/// Splitting at a character that stands between two texts splits each of them.
pub proof fn lemma_split_concat(a: Seq<char>, c: char, b: Seq<char>)
    ensures
        split(a + seq![c] + b, seq![c]) =~= split(a, seq![c]) + split(b, seq![c]),
    decreases a.len(),
{
    let pat = seq![c];
    let whole = a + pat + b;
    lemma_find_from(a, pat, 0);
    match find_from(a, pat, 0) {
        Some(k) => {
            lemma_occurs_char(a, c, k);
            lemma_occurs_char(whole, c, k);
            assert forall|i: int| 0 <= i < k implies !#[trigger] occurs_at(whole, pat, i) by {
                lemma_occurs_char(whole, c, i);
                lemma_occurs_char(a, c, i);
            }
            lemma_find_is(whole, pat, 0, k);
            let rest = a.skip(k + 1);
            lemma_split_concat(rest, c, b);
            assert(whole.skip(k + 1) =~= rest + pat + b);
            assert(whole.take(k) =~= a.take(k));
        },
        None => {
            assert forall|i: int| 0 <= i < a.len() implies !#[trigger] occurs_at(
                whole,
                pat,
                i,
            ) by {
                lemma_occurs_char(whole, c, i);
                lemma_occurs_char(a, c, i);
            }
            lemma_split_at(a, pat, b);
        },
    }
}

/// Parts that were joined with a character are split into at least as many pieces, and into more
/// where one of them holds the character.
pub proof fn lemma_split_join_len(parts: Seq<Seq<char>>, c: char)
    requires
        parts.len() > 0,
    ensures
        split(join(parts, seq![c]), seq![c]).len() >= parts.len(),
        forall|i: int|
            0 <= i < parts.len() && (#[trigger] parts[i]).contains(c) ==> split(
                join(parts, seq![c]),
                seq![c],
            ).len() > parts.len(),
    decreases parts.len(),
{
    let pat = seq![c];
    let head = parts[0];
    lemma_join_split(head, pat);
    if head.contains(c) {
        lemma_pieces_many(head, c);
    }
    if parts.len() > 1 {
        let rest = parts.drop_first();
        lemma_split_join_len(rest, c);
        lemma_join_first(parts, pat);
        lemma_split_concat(head, c, join(rest, pat));
        assert forall|i: int| 0 <= i < parts.len() && (#[trigger] parts[i]).contains(
            c,
        ) implies split(join(parts, pat), pat).len() > parts.len() by {
            if i > 0 {
                assert(rest[i - 1] == parts[i]);
            }
        }
    }
}

/// A pattern of one character stands where that character does.
pub proof fn lemma_occurs_char(s: Seq<char>, c: char, i: int)
    ensures
        occurs_at(s, seq![c], i) <==> 0 <= i < s.len() && s[i] == c,
        occurs_at(s, seq![c], i) ==> s.contains(c),
{
    if 0 <= i < s.len() {
        assert(s.subrange(i, i + 1) =~= seq![s[i]]);
        assert(seq![s[i]][0] == s[i] && seq![c][0] == c);
    }
}

/// The characters of `s`.
pub fn chars_of(s: &str) -> (r: Vec<char>)
    ensures
        r@ == s@,
{
    let mut out: Vec<char> = Vec::new();
    for c in it: s.chars()
        invariant
            it.seq() == s@,
            out@ =~= s@.take(it.index() as int),
    {
        out.push(c);
    }
    out
}

/// Whether `pat` stands in `s` at position `i`.
pub fn stands_at(s: &Vec<char>, pat: &Vec<char>, i: usize) -> (r: bool)
    requires
        i + pat.len() <= s.len(),
    ensures
        r == occurs_at(s@, pat@, i as int),
{
    let mut j: usize = 0;
    while j < pat.len()
        invariant
            i + pat.len() <= s.len(),
            j <= pat.len(),
            forall|k: int| 0 <= k < j ==> s[i + k] == pat[k],
        decreases pat.len() - j,
    {
        if s[i + j] != pat[j] {
            proof {
                if occurs_at(s@, pat@, i as int) {
                    assert(s@.subrange(i as int, i + pat@.len())[j as int] == pat@[j as int]);
                }
            }
            return false;
        }
        j = j + 1;
    }
    true
}

/// The first position at or after `from` at which `pat` stands in `s`.
pub fn find(s: &Vec<char>, pat: &Vec<char>, from: usize) -> (r: Option<usize>)
    requires
        from <= s.len(),
    ensures
        match r {
            Some(i) => find_from(s@, pat@, from as int) == Some(i as int),
            None => find_from(s@, pat@, from as int) is None,
        },
{
    let mut i: usize = from;
    while i <= s.len() && pat.len() <= s.len() - i
        invariant
            from <= i <= s.len() + 1,
            find_from(s@, pat@, from as int) == find_from(s@, pat@, i as int),
        decreases s.len() + 1 - i,
    {
        if stands_at(s, pat, i) {
            return Some(i);
        }
        if i == s.len() {
            return None;
        }
        i = i + 1;
    }
    None
}

/// The pieces of `s` between the occurrences of `pat`.
pub fn split_str<'a>(s: &'a str, pat: &str) -> (r: Vec<&'a str>)
    requires
        pat@.len() > 0,
    ensures
        r@.len() > 0,
        r@.map_values(|p: &str| p@) =~= split(s@, pat@),
{
    let chars = chars_of(s);
    let pattern = chars_of(pat);
    let mut out: Vec<&'a str> = Vec::new();
    let mut start: usize = 0;
    assert(s@.skip(0) =~= s@);
    loop
        invariant
            chars@ == s@,
            pattern@ == pat@,
            pat@.len() > 0,
            start <= s@.len(),
            out@.map_values(|p: &str| p@) + split(s@.skip(start as int), pat@) =~= split(s@, pat@),
        decreases s@.len() - start,
    {
        proof {
            lemma_find_skip(s@, pat@, start as int);
            lemma_find_from(s@, pat@, start as int);
        }
        let ghost before = out@.map_values(|p: &str| p@);
        let ghost rest = s@.skip(start as int);
        match find(&chars, &pattern, start) {
            Some(i) => {
                let piece = s.substring_char(start, i);
                out.push(piece);
                proof {
                    assert(out@.map_values(|p: &str| p@) =~= before.push(piece@));
                    assert(piece@ =~= rest.take(i - start));
                    assert(rest.skip(i - start + pat@.len()) =~= s@.skip(i + pat@.len()));
                }
                start = i + pattern.len();
            },
            None => {
                let piece = s.substring_char(start, chars.len());
                out.push(piece);
                proof {
                    assert(piece@ =~= rest);
                    assert(out@.map_values(|p: &str| p@) =~= before.push(piece@));
                }
                return out;
            },
        }
    }
}

/// Why a text is no 32-bit number.
#[derive(Clone, Copy, Debug, PartialEq, Eq, Structural)]
pub enum NumberError {
    /// There is no character.
    Empty,
    /// A character is no digit.
    InvalidDigit,
    /// The digits so far exceed the largest 32-bit number.
    TooLarge,
}

/// What is said of `e`.
pub open spec fn number_error_text(e: NumberError) -> Seq<char> {
    match e {
        NumberError::Empty => "cannot parse integer from empty string"@,
        NumberError::InvalidDigit => "invalid digit found in string"@,
        NumberError::TooLarge => "number too large to fit in target type"@,
    }
}

impl NumberError {
    /// What is said of this error.
    pub fn text(self) -> (r: &'static str)
        ensures
            r@ == number_error_text(self),
    {
        match self {
            NumberError::Empty => "cannot parse integer from empty string",
            NumberError::InvalidDigit => "invalid digit found in string",
            NumberError::TooLarge => "number too large to fit in target type",
        }
    }
}

/// `c` is a decimal digit.
pub open spec fn is_digit(c: char) -> bool {
    '0' <= c <= '9'
}

/// The number that a digit stands for.
pub open spec fn digit_value(c: char) -> nat {
    (c as int - '0' as int) as nat
}

/// The digit that stands for `d`.
pub open spec fn digit_char(d: nat) -> char {
    ('0' as int + d) as char
}

/// `n` in decimal, without leading zeros.
pub open spec fn decimal(n: nat) -> Seq<char>
    decreases n,
{
    if n < 10 {
        seq![digit_char(n)]
    } else {
        decimal(n / 10).push(digit_char(n % 10))
    }
}

/// The number that `s` writes in digits, read from the left; or, at the first character where
/// reading fails, why.
pub open spec fn read_digits(s: Seq<char>) -> Result<nat, NumberError>
    decreases s.len(),
{
    if s.len() == 0 {
        Ok(0)
    } else {
        match read_digits(s.drop_last()) {
            Err(e) => Err(e),
            Ok(v) => if !is_digit(s.last()) {
                Err(NumberError::InvalidDigit)
            } else if 10 * v + digit_value(s.last()) > u32::MAX {
                Err(NumberError::TooLarge)
            } else {
                Ok(10 * v + digit_value(s.last()))
            },
        }
    }
}

/// The 32-bit number that `s` writes: digits, after one plus sign or none.
pub open spec fn read_u32(s: Seq<char>) -> Result<nat, NumberError> {
    if s.len() == 0 {
        Err(NumberError::Empty)
    } else if s[0] == '+' && s.len() > 1 {
        read_digits(s.skip(1))
    } else {
        read_digits(s)
    }
}

/// What `read_digits` makes of a text does not change after the first failure.
proof fn lemma_read_digits_prefix(s: Seq<char>, n: int)
    requires
        0 <= n <= s.len(),
        read_digits(s.take(n)) is Err,
    ensures
        read_digits(s) == read_digits(s.take(n)),
    decreases s.len(),
{
    if n == s.len() {
        assert(s.take(n) =~= s);
    } else {
        assert(s.drop_last().take(n) =~= s.take(n));
        lemma_read_digits_prefix(s.drop_last(), n);
    }
}

/// `decimal` writes digits and nothing else, and at least one.
pub proof fn lemma_decimal_digits(n: nat)
    ensures
        decimal(n).len() > 0,
        forall|i: int| 0 <= i < decimal(n).len() ==> is_digit(#[trigger] decimal(n)[i]),
    decreases n,
{
    if n >= 10 {
        lemma_decimal_digits(n / 10);
    }
}

/// A text that is a 32-bit number holds digits, and before them a plus sign or nothing.
pub proof fn lemma_number_chars(s: Seq<char>)
    ensures
        read_u32(s) matches Ok(n) ==> n <= u32::MAX && forall|i: int|
            0 <= i < s.len() ==> is_digit(#[trigger] s[i]) || s[i] == '+',
{
    if read_u32(s) is Ok {
        lemma_read_all_digits(s);
        let body = s.skip(1);
        lemma_read_all_digits(body);
        assert forall|i: int| 0 <= i < s.len() implies is_digit(#[trigger] s[i]) || s[i] == '+' by {
            if i > 0 {
                assert(body[i - 1] == s[i]);
            }
        }
    }
}

/// A text that is read as digits holds digits alone.
proof fn lemma_read_all_digits(s: Seq<char>)
    ensures
        read_digits(s) matches Ok(n) ==> n <= u32::MAX && forall|i: int|
            0 <= i < s.len() ==> is_digit(#[trigger] s[i]),
    decreases s.len(),
{
    if s.len() > 0 {
        let init = s.drop_last();
        lemma_read_all_digits(init);
        if read_digits(s) is Ok {
            assert forall|i: int| 0 <= i < s.len() implies is_digit(#[trigger] s[i]) by {
                if i < init.len() {
                    assert(init[i] == s[i]);
                }
            }
        }
    }
}

/// A 32-bit number is read back from its decimal digits.
pub proof fn lemma_read_decimal(n: nat)
    requires
        n <= u32::MAX,
    ensures
        read_digits(decimal(n)) == Ok::<nat, NumberError>(n),
        read_u32(decimal(n)) == Ok::<nat, NumberError>(n),
    decreases n,
{
    let s = decimal(n);
    if n >= 10 {
        lemma_read_decimal(n / 10);
        assert(s.drop_last() =~= decimal(n / 10));
    } else {
        assert(s.drop_last() =~= Seq::empty());
        assert(read_digits(s.drop_last()) == Ok::<nat, NumberError>(0));
    }
    assert(digit_value(s.last()) == n % 10);
    lemma_decimal_digits(n);
    assert(is_digit(s[0]));
}

/// The characters of one digit.
fn digit_str(d: u64) -> (r: &'static str)
    requires
        d < 10,
    ensures
        r@ =~= seq![digit_char(d as nat)],
{
    proof {
        reveal_strlit("0");
        reveal_strlit("1");
        reveal_strlit("2");
        reveal_strlit("3");
        reveal_strlit("4");
        reveal_strlit("5");
        reveal_strlit("6");
        reveal_strlit("7");
        reveal_strlit("8");
        reveal_strlit("9");
    }
    if d == 0 {
        "0"
    } else if d == 1 {
        "1"
    } else if d == 2 {
        "2"
    } else if d == 3 {
        "3"
    } else if d == 4 {
        "4"
    } else if d == 5 {
        "5"
    } else if d == 6 {
        "6"
    } else if d == 7 {
        "7"
    } else if d == 8 {
        "8"
    } else {
        "9"
    }
}

/// Appends `n` in decimal.
pub fn push_decimal(out: &mut String, n: u64)
    ensures
        final(out)@ =~= old(out)@ + decimal(n as nat),
    decreases n,
{
    if n >= 10 {
        push_decimal(out, n / 10);
    }
    out.append(digit_str(n % 10));
}

/// Reads a 32-bit number.
pub fn parse_u32(s: &str) -> (r: Result<u32, NumberError>)
    ensures
        match r {
            Ok(n) => read_u32(s@) == Ok::<nat, NumberError>(n as nat),
            Err(e) => read_u32(s@) == Err::<nat, NumberError>(e),
        },
{
    let chars = chars_of(s);
    if chars.len() == 0 {
        return Err(NumberError::Empty);
    }
    let start: usize = if chars[0] == '+' && chars.len() > 1 {
        1
    } else {
        0
    };
    let ghost body = s@.skip(start as int);
    assert(s@.skip(0) =~= s@);
    assert(read_u32(s@) == read_digits(body));
    let mut value: u32 = 0;
    let mut i: usize = start;
    assert(body.take(0) =~= Seq::empty());
    while i < chars.len()
        invariant
            chars@ == s@,
            start <= i <= chars.len(),
            body == s@.skip(start as int),
            read_u32(s@) == read_digits(body),
            read_digits(body.take(i - start)) == Ok::<nat, NumberError>(value as nat),
        decreases chars.len() - i,
    {
        let c = chars[i];
        let ghost next = body.take(i - start + 1);
        proof {
            assert(next.drop_last() =~= body.take(i - start));
            assert(next.last() == c);
        }
        if c < '0' || c > '9' {
            proof {
                lemma_read_digits_prefix(body, i - start + 1);
            }
            return Err(NumberError::InvalidDigit);
        }
        let d: u64 = (c as u64) - ('0' as u64);
        let grown: u64 = 10 * (value as u64) + d;
        if grown > u32::MAX as u64 {
            proof {
                lemma_read_digits_prefix(body, i - start + 1);
            }
            return Err(NumberError::TooLarge);
        }
        value = grown as u32;
        i = i + 1;
    }
    assert(body.take(i - start) =~= body);
    Ok(value)
}

} // verus!
