//! Numbers and messages.

use crate::config::ConfigError;
use crate::error::ProcessError;
use crate::text::{self, NumberError};
use crate::transport::TransportError;
use vstd::prelude::*;

verus! {

/// A number that is written in decimal notation is read back, if it is not larger than
/// what is asked for.
pub proof fn law_numbers_are_read_back(
    n: u128,
    written: String,
    again: &str,
    max: u64,
    result: Result<u64, NumberError>,
)
    requires
        call_ensures(text::to_decimal, (n,), written),
        again@ == written@,
        call_ensures(text::parse_number, (again, max), result),
        n <= max,
    ensures
        result matches Ok(r) && r == n,
{
    text::lemma_decimal(n as nat, max as nat);
}

/// Different numbers are written differently.
pub proof fn law_numbers_are_told_apart(n: u128, m: u128, one: String, two: String)
    requires
        call_ensures(text::to_decimal, (n,), one),
        call_ensures(text::to_decimal, (m,), two),
    ensures
        one@ == two@ ==> n == m,
{
    let max = u128::MAX as nat;
    text::lemma_decimal(n as nat, max);
    text::lemma_decimal(m as nat, max);
}

/// The last digit of a number is its remainder by ten, and what stands before it is the
/// number without that digit; a number below ten is one digit.
pub proof fn law_digits_of_a_number(n: u128, written: String, less: String)
    requires
        call_ensures(text::to_decimal, (n,), written),
        call_ensures(text::to_decimal, ((n / 10) as u128,), less),
    ensures
        written@.len() > 0,
        written@.last() as nat == '0' as nat + n % 10,
        n < 10 ==> written@.len() == 1,
        n >= 10 ==> written@.drop_last() == less@,
{
    if n >= 10 {
        assert(written@.drop_last() =~= less@);
    }
}

/// A negative number is written like the number without its sign, after a minus sign.
pub proof fn law_signed_numbers(n: i32, written: String, size: u128, plain: String)
    requires
        call_ensures(text::to_signed_decimal, (n,), written),
        size == (if n < 0 { -(n as int) } else { n as int }),
        call_ensures(text::to_decimal, (size,), plain),
    ensures
        n >= 0 ==> written@ == plain@,
        n < 0 ==> written@.len() == plain@.len() + 1 && written@[0] == '-' && written@.skip(1)
            == plain@,
{
    if n < 0 {
        reveal_strlit("-");
        assert(written@.skip(1) =~= plain@);
    }
}

/// One more digit makes ten times the number and the digit, unless that is too large.
pub proof fn law_one_more_digit(
    shorter: &str,
    longer: &str,
    max: u64,
    digit: u64,
    before: Result<u64, NumberError>,
    after: Result<u64, NumberError>,
)
    requires
        digit < 10,
        shorter@.len() > 0,
        longer@.len() == shorter@.len() + 1,
        shorter@.is_prefix_of(longer@),
        longer@.last() as nat == '0' as nat + digit,
        call_ensures(text::parse_number, (shorter, max), before),
        call_ensures(text::parse_number, (longer, max), after),
        before is Ok,
    ensures
        10 * before->Ok_0 + digit <= max ==> (after matches Ok(n) && n == 10 * before->Ok_0 + digit),
        10 * before->Ok_0 + digit > max ==> (after matches Err(NumberError::TooLarge)),
{
    assert(longer@.drop_last() =~= shorter@);
    assert(longer@[0] == shorter@[0]);
    if shorter@[0] == '+' {
        assert(longer@.skip(1).drop_last() =~= shorter@.skip(1));
        assert(longer@.skip(1).last() == longer@.last());
    }
}

/// Digits are never said to be missing once there is a text.
proof fn lemma_never_empty(digits: Seq<char>, max: nat)
    ensures
        text::scanned(digits, max) != Err::<nat, NumberError>(NumberError::Empty),
    decreases digits.len(),
{
    if digits.len() > 0 {
        lemma_never_empty(digits.drop_last(), max);
    }
}

/// Only digits are read, after a plus sign at most, and nothing above the limit.
pub proof fn law_only_digits_are_numbers(
    given: &str,
    max: u64,
    result: Result<u64, NumberError>,
    i: int,
)
    requires
        call_ensures(text::parse_number, (given, max), result),
    ensures
        given@.len() == 0 <==> (result matches Err(NumberError::Empty)),
        result matches Ok(n) ==> n <= max,
        result is Ok && 0 <= i < given@.len() ==> ('0' as nat <= given@[i] as nat <= '9' as nat)
            || (i == 0 && given@[i] == '+' && given@.len() > 1),
{
    let digits = given@.skip(1);
    text::law_digits_are_read(given@, max as nat);
    text::law_digits_are_read(digits, max as nat);
    lemma_never_empty(given@, max as nat);
    lemma_never_empty(digits, max as nat);
    if result is Ok && 0 <= i < given@.len() {
        if given@[0] == '+' {
            if i > 0 {
                assert(digits[i - 1] == given@[i]);
                assert(text::is_digit(digits[i - 1]));
            }
        } else {
            assert(text::is_digit(given@[i]));
        }
    }
}

/// An error names its program: errors of one kind read alike exactly if they are about
/// the same program.
pub proof fn law_errors_name_their_program(one: ProcessError, two: ProcessError, a: String, b: String)
    requires
        call_ensures(ProcessError::message, (&one,), a),
        call_ensures(ProcessError::message, (&two,), b),
    ensures
        one matches ProcessError::NotFound(n) ==> a@ == "Program "@ + n@ + " not found"@,
        one matches ProcessError::CommandSyntax(n) ==> a@ == "Failed to parse command for "@ + n@,
        one matches ProcessError::EmptyCommand(n) ==> a@ == "Empty command for "@ + n@,
        one matches ProcessError::Spawn(n) ==> a@ == "Failed to spawn process "@ + n@,
        one matches ProcessError::LogForwardDisabled(n) ==> a@
            == "Log forwarding is disabled for process '"@ + n@
            + "': set log_forward = true in its configuration to enable GetLogs/cironctl logs"@,
        one is NotFound && two is NotFound ==> (a@ == b@ <==> one->NotFound_0@ == two->NotFound_0@),
        one is CommandSyntax && two is CommandSyntax ==> (a@ == b@ <==> one->CommandSyntax_0@
            == two->CommandSyntax_0@),
        one is EmptyCommand && two is EmptyCommand ==> (a@ == b@ <==> one->EmptyCommand_0@
            == two->EmptyCommand_0@),
        one is Spawn && two is Spawn ==> (a@ == b@ <==> one->Spawn_0@ == two->Spawn_0@),
        one is LogForwardDisabled && two is LogForwardDisabled ==> (a@ == b@
            <==> one->LogForwardDisabled_0@ == two->LogForwardDisabled_0@),
{
    match (one, two) {
        (ProcessError::NotFound(n), ProcessError::NotFound(m)) => {
            lemma_between("Program "@, n@, m@, " not found"@);
        },
        (ProcessError::CommandSyntax(n), ProcessError::CommandSyntax(m)) => {
            lemma_behind("Failed to parse command for "@, n@, m@);
        },
        (ProcessError::EmptyCommand(n), ProcessError::EmptyCommand(m)) => {
            lemma_behind("Empty command for "@, n@, m@);
        },
        (ProcessError::Spawn(n), ProcessError::Spawn(m)) => {
            lemma_behind("Failed to spawn process "@, n@, m@);
        },
        (ProcessError::LogForwardDisabled(n), ProcessError::LogForwardDisabled(m)) => {
            lemma_between(
                "Log forwarding is disabled for process '"@,
                n@,
                m@,
                "': set log_forward = true in its configuration to enable GetLogs/cironctl logs"@,
            );
        },
        _ => {},
    }
}

/// What stands behind the same text can be told apart.
proof fn lemma_behind(before: Seq<char>, one: Seq<char>, two: Seq<char>)
    ensures
        before + one == before + two <==> one == two,
{
    lemma_between(before, one, two, Seq::empty());
    assert(before + one + Seq::empty() =~= before + one);
    assert(before + two + Seq::empty() =~= before + two);
}

/// What stands between the same texts can be told apart.
proof fn lemma_between(before: Seq<char>, one: Seq<char>, two: Seq<char>, behind: Seq<char>)
    ensures
        before + one + behind == before + two + behind <==> one == two,
{
    let a = before + one + behind;
    let b = before + two + behind;
    if a == b {
        assert(a.len() == b.len());
        assert(one =~= two) by {
            assert forall|i: int| 0 <= i < one.len() implies one[i] == two[i] by {
                assert(a[before.len() + i] == one[i]);
                assert(b[before.len() + i] == two[i]);
            }
        }
    }
}

/// The other errors in words.
pub proof fn law_other_errors_in_words(
    config: ConfigError,
    number: NumberError,
    transport: TransportError,
    a: String,
    b: String,
    c: String,
)
    requires
        call_ensures(ConfigError::message, (&config,), a),
        call_ensures(NumberError::message, (&number,), b),
        call_ensures(TransportError::message, (&transport,), c),
    ensures
        config is MissingPrograms ==> a@ == "missing field `program`"@,
        config matches ConfigError::MissingCommand(n) ==> a@
            == "missing field `command` for program "@ + n@,
        number is Empty ==> b@ == "cannot parse integer from empty string"@,
        number is InvalidDigit ==> b@ == "invalid digit found in string"@,
        number is TooLarge ==> b@ == "number too large to fit in target type"@,
        transport is NoneEnabled ==> c@ == "At least one transport must be enabled"@,
        transport == TransportError::Port(number) ==> c@ == b@,
        transport == TransportError::Cid(number) ==> c@ == b@,
{
}

} // verus!
