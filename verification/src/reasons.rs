//! The texts that say why a mirror failed.

use vstd::prelude::*;
use vstd::string::*;

verus! {

/// `n` in decimal, without leading zeros.
pub open spec fn decimal(n: nat) -> Seq<char>
    decreases n,
{
    let digit = ('0' as int + n % 10) as char;
    if n < 10 {
        seq![digit]
    } else {
        decimal(n / 10).push(digit)
    }
}

/// `user_data` as its debug output shows it.
pub open spec fn shown_user_data(user_data: Option<u64>) -> Seq<char> {
    match user_data {
        Some(id) => "Some("@ + decimal(id as nat) + ")"@,
        None => "None"@,
    }
}

/// The reason when the destination refuses a request: what was asked of it, for
/// which request, and the error it gave.
pub open spec fn submit_reason_text(
    label: Seq<char>,
    user_data: Option<u64>,
    error: Seq<char>,
) -> Seq<char> {
    "destination "@ + label + " submit failed for user_data "@ + shown_user_data(user_data) + ": "@
        + error
}

/// The reason when the destination completes a request with an error.
pub open spec fn completion_reason_text(user_data: u64) -> Seq<char> {
    "destination completion with user_data="@ + decimal(user_data as nat) + " failed"@
}

/// The reason when the copy worker gives up.
pub open spec fn copy_reason_text(error: Seq<char>) -> Seq<char> {
    "Copy worker failed: "@ + error
}

/// Appends one decimal digit.
fn push_digit(text: &mut String, digit: u64)
    requires
        digit < 10,
    ensures
        final(text)@ == old(text)@.push(('0' as int + digit) as char),
{
    let shown = match digit {
        0 => "0",
        1 => "1",
        2 => "2",
        3 => "3",
        4 => "4",
        5 => "5",
        6 => "6",
        7 => "7",
        8 => "8",
        _ => "9",
    };
    proof {
        reveal_strlit("0");
        reveal_strlit("1");
        reveal_strlit("2");
        reveal_strlit("3");
        reveal_strlit("4");
        reveal_strlit("5");
        reveal_strlit("6");
        reveal_strlit("7");
        reveal_strlit("8");
        reveal_strlit("9");
        assert(shown@ == seq![('0' as int + digit) as char]);
        assert(text@ + shown@ == text@.push(('0' as int + digit) as char));
    }
    text.append(shown);
}

/// Appends `n` in decimal.
fn push_decimal(text: &mut String, n: u64)
    ensures
        final(text)@ == old(text)@ + decimal(n as nat),
    decreases n,
{
    if n >= 10 {
        push_decimal(text, n / 10);
    }
    push_digit(text, n % 10);
    proof {
        assert(text@ == old(text)@ + decimal(n as nat));
    }
}

/// The reason when the destination refuses a request.
pub(crate) fn submit_reason(label: &str, user_data: Option<u64>, error: &str) -> (reason: String)
    ensures
        reason@ == submit_reason_text(label@, user_data, error@),
{
    let mut reason = String::new();
    reason.append("destination ");
    reason.append(label);
    reason.append(" submit failed for user_data ");
    match user_data {
        Some(id) => {
            reason.append("Some(");
            push_decimal(&mut reason, id);
            reason.append(")");
        },
        None => reason.append("None"),
    }
    reason.append(": ");
    reason.append(error);
    proof {
        assert(reason@ == submit_reason_text(label@, user_data, error@));
    }
    reason
}

/// The reason when the destination completes a request with an error.
pub(crate) fn completion_reason(user_data: u64) -> (reason: String)
    ensures
        reason@ == completion_reason_text(user_data),
{
    let mut reason = String::new();
    reason.append("destination completion with user_data=");
    push_decimal(&mut reason, user_data);
    reason.append(" failed");
    proof {
        assert(reason@ == completion_reason_text(user_data));
    }
    reason
}

/// The reason when the copy worker gives up.
pub(crate) fn copy_reason(error: &str) -> (reason: String)
    ensures
        reason@ == copy_reason_text(error@),
{
    let mut reason = String::new();
    reason.append("Copy worker failed: ");
    reason.append(error);
    proof {
        assert(reason@ == copy_reason_text(error@));
    }
    reason
}

/// Decimal texts: a digit alone for a number below ten, else the text of the
/// number without its last digit followed by that digit.
pub proof fn lemma_decimal_grows_by_a_digit(n: nat, digit: nat)
    requires
        digit < 10,
    ensures
        decimal(digit).len() == 1,
        decimal(digit)[0] as int == '0' as int + digit,
        n > 0 ==> decimal(10 * n + digit) == decimal(n) + decimal(digit),
{
    if n > 0 {
        assert((10 * n + digit) / 10 == n);
        assert((10 * n + digit) % 10 == digit);
        assert(decimal(10 * n + digit) =~= decimal(n) + decimal(digit));
    }
}

/// A decimal text names one number only, and begins with a zero for no other
/// number than zero.
pub proof fn lemma_decimal_is_unambiguous(a: nat, b: nat)
    ensures
        decimal(a).len() > 0,
        a > 0 ==> decimal(a)[0] != '0',
        decimal(a) == decimal(b) ==> a == b,
    decreases a + b,
{
    lemma_decimal_parts(a);
    lemma_decimal_parts(b);
    if a >= 10 {
        lemma_decimal_is_unambiguous(a / 10, 0);
    }
    if decimal(a) == decimal(b) {
        if a >= 10 && b >= 10 {
            lemma_decimal_is_unambiguous(a / 10, b / 10);
        }
        if b >= 10 {
            lemma_decimal_parts(b / 10);
        }
        if a >= 10 {
            lemma_decimal_parts(a / 10);
        }
    }
}

/// The last digit of a decimal text and what stands before it.
proof fn lemma_decimal_parts(n: nat)
    ensures
        decimal(n).len() > 0,
        decimal(n).last() as int == '0' as int + n % 10,
        n < 10 ==> decimal(n).len() == 1,
        n >= 10 ==> decimal(n).len() > 1 && decimal(n).drop_last() == decimal(n / 10)
            && decimal(n)[0] == decimal(n / 10)[0],
    decreases n,
{
    if n >= 10 {
        lemma_decimal_parts(n / 10);
        assert(decimal(n).drop_last() =~= decimal(n / 10));
    }
}

/// The texts of failures, whatever they speak of: each begins with the same
/// words, and names what it is about.
pub proof fn lemma_reasons_name_what_failed(
    label: Seq<char>,
    id: u64,
    error: Seq<char>,
)
    ensures
        submit_reason_text(label, Some(id), error) == "destination "@ + label
            + " submit failed for user_data "@ + "Some("@ + decimal(id as nat) + ")"@ + ": "@ + error,
        submit_reason_text(label, None, error) == "destination "@ + label
            + " submit failed for user_data "@ + "None"@ + ": "@ + error,
        completion_reason_text(id) == "destination completion with user_data="@ + decimal(
            id as nat,
        ) + " failed"@,
        copy_reason_text(error) == "Copy worker failed: "@ + error,
{
    assert(submit_reason_text(label, Some(id), error) =~= "destination "@ + label
        + " submit failed for user_data "@ + "Some("@ + decimal(id as nat) + ")"@ + ": "@ + error);
}

/// The texts keep the error they are made of to its last character: more text in
/// the error is more text at the end of the reason.
pub proof fn lemma_reasons_end_with_the_error(
    label: Seq<char>,
    user_data: Option<u64>,
    error: Seq<char>,
    more: Seq<char>,
)
    ensures
        submit_reason_text(label, user_data, error + more) == submit_reason_text(
            label,
            user_data,
            error,
        ) + more,
        copy_reason_text(error + more) == copy_reason_text(error) + more,
{
    assert(submit_reason_text(label, user_data, error + more) =~= submit_reason_text(
        label,
        user_data,
        error,
    ) + more);
    assert(copy_reason_text(error + more) =~= copy_reason_text(error) + more);
}

/// Failed completions of different requests have different reasons.
pub proof fn lemma_completion_reasons_differ(a: u64, b: u64)
    ensures
        completion_reason_text(a) == completion_reason_text(b) ==> a == b,
{
    if completion_reason_text(a) == completion_reason_text(b) {
        let before = "destination completion with user_data="@;
        let after = " failed"@;
        let n = completion_reason_text(a).len() - before.len() - after.len();
        assert(completion_reason_text(a).subrange(before.len() as int, before.len() + n)
            =~= decimal(a as nat));
        assert(completion_reason_text(b).subrange(before.len() as int, before.len() + n)
            =~= decimal(b as nat));
        lemma_decimal_is_unambiguous(a as nat, b as nat);
    }
}

} // verus!
