//! Text, read as a sequence of characters.

use vstd::prelude::*;
use vstd::string::*;

verus! {

/// The texts of a list of strings.
pub open spec fn texts(list: Seq<String>) -> Seq<Seq<char>> {
    Seq::new(list.len(), |i: int| list[i]@)
}

/// The text of an optional string.
pub open spec fn optional_text(text: Option<String>) -> Option<Seq<char>> {
    match text {
        Some(t) => Some(t@),
        None => None,
    }
}

/// Whether both hold the same characters.
pub(crate) fn same_text(a: &str, b: &str) -> (same: bool)
    ensures
        same == (a@ == b@),
{
    let left: String = a.to_owned();
    let right: String = b.to_owned();
    left == right
}

/// The decimal digit of a number below ten.
pub open spec fn digit(d: nat) -> char {
    (('0' as nat) + d) as char
}

/// A number in decimal notation, without leading zeros.
pub open spec fn decimal(n: nat) -> Seq<char>
    decreases n,
{
    if n < 10 {
        seq![digit(n)]
    } else {
        decimal(n / 10).push(digit(n % 10))
    }
}

/// Appends one decimal digit.
fn push_digit(text: &mut String, d: u128)
    requires
        d < 10,
    ensures
        final(text)@ == old(text)@.push(digit(d as nat)),
{
    proof {
        reveal_strlit("0");
        reveal_strlit("1");
        reveal_strlit("2");
        reveal_strlit("3");
        reveal_strlit("4");
        reveal_strlit("5");
        reveal_strlit("6");
        reveal_strlit("7");
        reveal_strlit("8");
        reveal_strlit("9");
    }
    let one: &str = match d {
        0 => "0",
        1 => "1",
        2 => "2",
        3 => "3",
        4 => "4",
        5 => "5",
        6 => "6",
        7 => "7",
        8 => "8",
        _ => "9",
    };
    assert(one@ =~= seq![digit(d as nat)]);
    text.append(one);
    assert(text@ =~= old(text)@.push(digit(d as nat)));
}

/// Writes a number in decimal notation.
pub fn to_decimal(n: u128) -> (text: String)
    ensures
        text@ == decimal(n as nat),
    decreases n,
{
    if n < 10 {
        let mut text: String = String::new();
        push_digit(&mut text, n);
        assert(text@ =~= seq![digit(n as nat)]);
        text
    } else {
        let mut text: String = to_decimal(n / 10);
        push_digit(&mut text, n % 10);
        text
    }
}

/// A number in decimal notation, after a minus sign if it is negative.
pub open spec fn signed_decimal(n: int) -> Seq<char> {
    if n < 0 {
        "-"@ + decimal((-n) as nat)
    } else {
        decimal(n as nat)
    }
}

/// Writes a number in decimal notation, after a minus sign if it is negative.
pub fn to_signed_decimal(n: i32) -> (text: String)
    ensures
        text@ == signed_decimal(n as int),
{
    if n < 0 {
        let mut text: String = "-".to_owned();
        let digits: String = to_decimal((-(n as i64)) as u128);
        text.append(digits.as_str());
        text
    } else {
        to_decimal(n as u128)
    }
}

/// One of the ten decimal digits.
pub open spec fn is_digit(c: char) -> bool {
    '0' as nat <= c as nat <= '9' as nat
}

/// The number that a sequence of digits stands for.
pub open spec fn number(digits: Seq<char>) -> nat
    decreases digits.len(),
{
    if digits.len() == 0 {
        0
    } else {
        10 * number(digits.drop_last()) + (digits.last() as nat - '0' as nat) as nat
    }
}

/// All characters are digits.
pub open spec fn all_digits(digits: Seq<char>) -> bool {
    forall|i: int| 0 <= i < digits.len() ==> is_digit(#[trigger] digits[i])
}

/// Why a text is not read as a number.
#[derive(Debug, Clone, Copy, PartialEq, Eq, Structural)]
pub enum NumberError {
    /// There is no text.
    Empty,
    /// A character is not a digit.
    InvalidDigit,
    /// The number is larger than what is asked for can hold.
    TooLarge,
}

impl NumberError {
    /// The error in words.
    pub open spec fn text(self) -> Seq<char> {
        match self {
            NumberError::Empty => "cannot parse integer from empty string"@,
            NumberError::InvalidDigit => "invalid digit found in string"@,
            NumberError::TooLarge => "number too large to fit in target type"@,
        }
    }

    /// The error in words.
    pub fn message(&self) -> (message: String)
        ensures
            message@ == self.text(),
    {
        match self {
            NumberError::Empty => "cannot parse integer from empty string".to_owned(),
            NumberError::InvalidDigit => "invalid digit found in string".to_owned(),
            NumberError::TooLarge => "number too large to fit in target type".to_owned(),
        }
    }
}

/// Digits read from left to right as a number of at most `max`. The first character
/// that cannot be taken decides what is wrong.
pub open spec fn scanned(digits: Seq<char>, max: nat) -> Result<nat, NumberError>
    decreases digits.len(),
{
    if digits.len() == 0 {
        Ok(0)
    } else {
        match scanned(digits.drop_last(), max) {
            Err(e) => Err(e),
            Ok(v) => {
                let c = digits.last();
                if !is_digit(c) {
                    Err(NumberError::InvalidDigit)
                } else if 10 * v + (c as nat - '0' as nat) > max {
                    Err(NumberError::TooLarge)
                } else {
                    Ok((10 * v + (c as nat - '0' as nat)) as nat)
                }
            },
        }
    }
}

/// A text read as a number of at most `max`: digits, after a plus sign if there is one.
pub open spec fn parsed(text: Seq<char>, max: nat) -> Result<nat, NumberError> {
    if text.len() == 0 {
        Err(NumberError::Empty)
    } else if text[0] == '+' {
        if text.len() == 1 {
            Err(NumberError::InvalidDigit)
        } else {
            scanned(text.skip(1), max)
        }
    } else {
        scanned(text, max)
    }
}

/// An error reached by some characters is the error of every longer text.
proof fn lemma_scanned_error(digits: Seq<char>, max: nat, k: int)
    requires
        0 <= k <= digits.len(),
        scanned(digits.take(k), max) is Err,
    ensures
        scanned(digits, max) == scanned(digits.take(k), max),
    decreases digits.len() - k,
{
    if k == digits.len() {
        assert(digits.take(k) =~= digits);
    } else {
        assert(digits.take(k + 1).drop_last() =~= digits.take(k));
        lemma_scanned_error(digits, max, k + 1);
    }
}

/// Reads a text as a number of at most `max`.
pub fn parse_number(text: &str, max: u64) -> (result: Result<u64, NumberError>)
    ensures
        match parsed(text@, max as nat) {
            Ok(n) => result matches Ok(r) && r == n,
            Err(e) => result == Err::<u64, NumberError>(e),
        },
{
    let len: usize = text.unicode_len();
    if len == 0 {
        return Err(NumberError::Empty);
    }
    let start: usize = if text.get_char(0) == '+' {
        1
    } else {
        0
    };
    if start == len {
        return Err(NumberError::InvalidDigit);
    }
    let ghost digits = text@.skip(start as int);
    let mut value: u64 = 0;
    let mut i: usize = start;
    proof {
        assert(text@.skip(0) =~= text@);
        assert(digits.take(0).len() == 0);
    }
    while i < len
        invariant
            len == text@.len(),
            start <= i <= len,
            digits == text@.skip(start as int),
            parsed(text@, max as nat) == scanned(digits, max as nat),
            value <= max,
            scanned(digits.take(i - start), max as nat) == Ok::<nat, NumberError>(value as nat),
        decreases len - i,
    {
        let c: char = text.get_char(i);
        proof {
            let k = i - start;
            assert(digits.take(k + 1).drop_last() =~= digits.take(k));
            assert(digits.take(k + 1).last() == c);
            if scanned(digits.take(k + 1), max as nat) is Err {
                lemma_scanned_error(digits, max as nat, k + 1);
            }
        }
        if !('0' <= c && c <= '9') {
            return Err(NumberError::InvalidDigit);
        }
        let d: u64 = (c as u32 - '0' as u32) as u64;
        if d > max || value > (max - d) / 10 {
            return Err(NumberError::TooLarge);
        }
        value = value * 10 + d;
        i = i + 1;
    }
    assert(digits.take(len - start) =~= digits);
    Ok(value)
}

/// A text is read as a number exactly if it consists of digits that stand for one that
/// is not too large.
pub proof fn law_digits_are_read(digits: Seq<char>, max: nat)
    ensures
        scanned(digits, max) is Ok <==> all_digits(digits) && number(digits) <= max,
        scanned(digits, max) matches Ok(n) ==> n == number(digits),
    decreases digits.len(),
{
    if digits.len() > 0 {
        let front = digits.drop_last();
        law_digits_are_read(front, max);
        assert(all_digits(digits) <==> all_digits(front) && is_digit(digits.last())) by {
            assert(digits =~= front.push(digits.last()));
            assert forall|i: int| 0 <= i < front.len() && all_digits(digits) implies is_digit(
                #[trigger] front[i],
            ) by {
                assert(front[i] == digits[i]);
            }
            if all_digits(front) && is_digit(digits.last()) {
                assert forall|i: int| 0 <= i < digits.len() implies is_digit(
                    #[trigger] digits[i],
                ) by {
                    if i < front.len() {
                        assert(front[i] == digits[i]);
                    }
                }
            }
        }
    }
}

/// A number in decimal notation is read as that number.
pub proof fn law_decimal_is_read_back(n: nat, max: nat)
    requires
        n <= max,
    ensures
        parsed(decimal(n), max) == Ok::<nat, NumberError>(n),
{
    lemma_decimal(n, max);
}

/// Decimal notation is made of digits, and stands for its number.
pub(crate) proof fn lemma_decimal(n: nat, max: nat)
    requires
        n <= max,
    ensures
        all_digits(decimal(n)),
        decimal(n).len() > 0,
        scanned(decimal(n), max) == Ok::<nat, NumberError>(n),
        parsed(decimal(n), max) == Ok::<nat, NumberError>(n),
    decreases n,
{
    if n < 10 {
        assert(decimal(n).drop_last() =~= Seq::empty());
        assert(decimal(n)[0] == digit(n));
        assert(scanned(decimal(n).drop_last(), max) == Ok::<nat, NumberError>(0));
    } else {
        lemma_decimal(n / 10, max);
        assert(decimal(n).drop_last() =~= decimal(n / 10));
        assert forall|i: int| 0 <= i < decimal(n).len() implies is_digit(
            #[trigger] decimal(n)[i],
        ) by {
            if i < decimal(n / 10).len() {
                assert(decimal(n)[i] == decimal(n / 10)[i]);
            }
        }
    }
    assert(is_digit(decimal(n)[0]));
}

/// Whether `text` begins with `prefix`.
pub(crate) fn begins_with(text: &str, prefix: &str) -> (begins: bool)
    ensures
        begins == prefix@.is_prefix_of(text@),
{
    let len: usize = prefix.unicode_len();
    if text.unicode_len() < len {
        return false;
    }
    let begins: bool = same_text(text.substring_char(0, len), prefix);
    assert(prefix@.is_prefix_of(text@) <==> text@.subrange(0, len as int) =~= prefix@);
    begins
}

/// What follows `prefix`, if `text` begins with it.
pub(crate) fn strip_prefix(text: &str, prefix: &str) -> (rest: Option<String>)
    ensures
        match rest {
            Some(r) => prefix@.is_prefix_of(text@) && r@ == text@.skip(prefix@.len() as int),
            None => !prefix@.is_prefix_of(text@),
        },
{
    if begins_with(text, prefix) {
        let rest: String = text.substring_char(
            prefix.unicode_len(),
            text.unicode_len(),
        ).to_owned();
        assert(rest@ =~= text@.skip(prefix@.len() as int));
        Some(rest)
    } else {
        None
    }
}

/// What stands before and behind the only colon.
pub open spec fn around_colon(text: Seq<char>) -> Option<(Seq<char>, Seq<char>)> {
    let i = text.index_of(':');
    if text.contains(':') && !text.take(i).contains(':') && !text.skip(i + 1).contains(':') {
        Some((text.take(i), text.skip(i + 1)))
    } else {
        None
    }
}

/// Two colon-free texts with a colon between them are what stands around it.
pub(crate) proof fn lemma_around_colon(before: Seq<char>, behind: Seq<char>)
    requires
        !before.contains(':'),
        !behind.contains(':'),
    ensures
        around_colon(before.push(':') + behind) == Some((before, behind)),
{
    let text = before.push(':') + behind;
    let at = before.len() as int;
    assert(text[at] == ':');
    let i = text.index_of(':');
    assert(text[i] == ':');
    if i < at {
        assert(before[i] == ':');
    } else if i > at {
        assert(behind[i - at - 1] == ':');
    }
    assert(text.take(at) =~= before);
    assert(text.skip(at + 1) =~= behind);
}

/// Splits a text at its only colon.
pub(crate) fn split_at_colon(text: &str) -> (parts: Option<(String, String)>)
    ensures
        match parts {
            Some((before, behind)) => around_colon(text@) == Some((before@, behind@)),
            None => around_colon(text@) is None,
        },
{
    let len: usize = text.unicode_len();
    let mut at: Option<usize> = None;
    let mut i: usize = 0;
    while i < len
        invariant
            len == text@.len(),
            i <= len,
            match at {
                Some(k) => k < i && text@[k as int] == ':' && forall|j: int|
                    0 <= j < i && j != k ==> #[trigger] text@[j] != ':',
                None => forall|j: int| 0 <= j < i ==> #[trigger] text@[j] != ':',
            },
        decreases len - i,
    {
        if text.get_char(i) == ':' {
            if let Some(k) = at {
                proof {
                    let m = text@.index_of(':');
                    assert(text@[k as int] == ':');
                    if k < m {
                        assert(text@.take(m)[k as int] == ':');
                    } else if i > m {
                        assert(text@.skip(m + 1)[i - m - 1] == ':');
                    }
                }
                return None;
            }
            at = Some(i);
        }
        i = i + 1;
    }
    match at {
        None => None,
        Some(k) => {
            let before: String = text.substring_char(0, k).to_owned();
            let behind: String = text.substring_char(k + 1, len).to_owned();
            proof {
                assert forall|j: int| 0 <= j < before@.len() implies before@[j] != ':' by {
                    assert(before@[j] == text@[j]);
                }
                assert forall|j: int| 0 <= j < behind@.len() implies behind@[j] != ':' by {
                    assert(behind@[j] == text@[k + 1 + j]);
                }
                lemma_around_colon(before@, behind@);
                assert(text@ =~= before@.push(':') + behind@);
            }
            Some((before, behind))
        },
    }
}

/// `text` with spaces behind it, so that it has at least `width` characters.
pub open spec fn padded(text: Seq<char>, width: nat) -> Seq<char> {
    if text.len() >= width {
        text
    } else {
        text + Seq::new((width - text.len()) as nat, |i: int| ' ')
    }
}

/// Puts spaces behind a text until it has at least `width` characters.
pub(crate) fn pad(text: &str, width: usize) -> (wide: String)
    ensures
        wide@ == padded(text@, width as nat),
{
    let mut wide: String = text.to_owned();
    let mut len: usize = text.unicode_len();
    assert(wide@ =~= text@ + Seq::new(0, |i: int| ' '));
    while len < width
        invariant
            len >= text@.len(),
            len <= width || len == text@.len(),
            wide@ == text@ + Seq::new((len - text@.len()) as nat, |i: int| ' '),
        decreases width - len,
    {
        let ghost before = wide@;
        wide.append(" ");
        proof {
            reveal_strlit(" ");
            assert(wide@ =~= text@ + Seq::new((len + 1 - text@.len()) as nat, |i: int| ' '));
        }
        len = len + 1;
    }
    assert(wide@ =~= padded(text@, width as nat));
    wide
}

} // verus!
