//! Text for the columns of a listing: numbers in decimal and octal, names
//! decoded from bytes, calendar dates and owners.

use std::fmt::Write;
use users::Users;
use vstd::prelude::*;
use vstd::string::StringExecFns;
use vstd::utf8::{decode_utf8, valid_utf8};

verus! {

/// The character that stands for a digit below ten.
pub open spec fn digit_char(d: nat) -> char {
    if d == 0 {
        '0'
    } else if d == 1 {
        '1'
    } else if d == 2 {
        '2'
    } else if d == 3 {
        '3'
    } else if d == 4 {
        '4'
    } else if d == 5 {
        '5'
    } else if d == 6 {
        '6'
    } else if d == 7 {
        '7'
    } else if d == 8 {
        '8'
    } else {
        '9'
    }
}

/// The digits of `n` in the given base, most significant first, without
/// leading zeros; zero is the single digit `0`.
pub open spec fn digits(n: nat, base: nat) -> Seq<char>
    recommends
        2 <= base <= 10,
    decreases n,
    via digits_decreases
{
    if base < 2 || n < base {
        seq![digit_char(n)]
    } else {
        digits(n / base, base).push(digit_char(n % base))
    }
}

#[via_fn]
proof fn digits_decreases(n: nat, base: nat) {
    if !(base < 2 || n < base) {
        lemma_quotient_smaller(n, base);
    }
}

proof fn lemma_quotient_smaller(n: nat, base: nat)
    requires
        2 <= base <= n,
    ensures
        n / base < n,
{
    assert(n / base < n) by (nonlinear_arith)
        requires
            2 <= base <= n,
    ;
}

fn digit_text(d: u64) -> (text: &'static str)
    requires
        d < 10,
    ensures
        text@ == seq![digit_char(d as nat)],
{
    proof {
        reveal_strlit("0");
        reveal_strlit("1");
        reveal_strlit("2");
        reveal_strlit("3");
        reveal_strlit("4");
        reveal_strlit("5");
        reveal_strlit("6");
        reveal_strlit("7");
        reveal_strlit("8");
        reveal_strlit("9");
    }
    let text = if d == 0 {
        "0"
    } else if d == 1 {
        "1"
    } else if d == 2 {
        "2"
    } else if d == 3 {
        "3"
    } else if d == 4 {
        "4"
    } else if d == 5 {
        "5"
    } else if d == 6 {
        "6"
    } else if d == 7 {
        "7"
    } else if d == 8 {
        "8"
    } else {
        "9"
    };
    assert(text@ =~= seq![digit_char(d as nat)]);
    text
}

/// Appends the digits of `n` in the given base to `out`.
fn push_digits(out: &mut String, n: u64, base: u64)
    requires
        2 <= base <= 10,
    ensures
        final(out)@ == old(out)@ + digits(n as nat, base as nat),
    decreases n,
{
    if n >= base {
        proof {
            lemma_quotient_smaller(n as nat, base as nat);
        }
        push_digits(out, n / base, base);
    }
    out.append(digit_text(n % base));
    proof {
        let b = base as nat;
        if n >= base {
            assert(digits(n as nat, b) == digits((n / base) as nat, b).push(
                digit_char((n % base) as nat),
            ));
            assert(old(out)@ + digits((n / base) as nat, b) + seq![digit_char((n % base) as nat)]
                =~= old(out)@ + digits(n as nat, b));
        } else {
            assert(n % base == n) by (nonlinear_arith)
                requires
                    0 <= n < base,
            ;
        }
    }
}

/// `n` written in decimal.
pub fn decimal(n: u64) -> (text: String)
    ensures
        text@ == digits(n as nat, 10),
{
    let mut text = String::new();
    push_digits(&mut text, n, 10);
    assert(Seq::<char>::empty() + digits(n as nat, 10) =~= digits(n as nat, 10));
    text
}

/// The nine permission bits of a mode word, as a number.
pub open spec fn permission_bits(mode: u32) -> nat {
    (mode % 512) as nat
}

/// The permission bits of a mode word, written in octal: `755`, `644`, `0`.
pub fn permission_text(mode: u32) -> (text: String)
    ensures
        text@ == digits(permission_bits(mode), 8),
{
    let bits: u32 = mode & 0o777;
    assert(bits == mode % 512) by (bit_vector)
        requires
            bits == mode & 0o777,
    ;
    let mut text = String::new();
    push_digits(&mut text, bits as u64, 8);
    assert(Seq::<char>::empty() + digits(bits as nat, 8) =~= digits(bits as nat, 8));
    text
}

/// The view of a text that may be absent.
pub open spec fn text_view(text: Option<String>) -> Option<Seq<char>> {
    match text {
        Some(t) => Some(t@),
        None => None,
    }
}

/// The name shown in place of one that is not valid UTF-8.
pub open spec fn placeholder_name() -> Seq<char> {
    "unknown name"@
}

/// The name an entry is shown under: its bytes decoded as UTF-8, or the
/// placeholder where they are not valid UTF-8.
pub open spec fn display_name_of(name: Seq<u8>) -> Seq<char> {
    if valid_utf8(name) {
        decode_utf8(name)
    } else {
        placeholder_name()
    }
}

/// `String::from_utf8` of the standard library: the bytes become a string
/// exactly when they are valid UTF-8, and the string then holds the
/// characters that they encode.
#[verifier::external_body]
fn decode_text(bytes: Vec<u8>) -> (text: Option<String>)
    ensures
        text is Some <==> valid_utf8(bytes@),
        text matches Some(t) ==> t@ == decode_utf8(bytes@),
{
    String::from_utf8(bytes).ok()
}

pub fn display_name(name: &Vec<u8>) -> (text: String)
    ensures
        text@ == display_name_of(name@),
{
    match decode_text(crate::entry::copy_bytes(name)) {
        Some(text) => text,
        None => String::from_str("unknown name"),
    }
}

/// The pattern modification dates are written in: abbreviated weekday and
/// month, day of the month padded with a space, year.
pub open spec fn date_pattern() -> Seq<char> {
    "%a %b %e %Y"@
}

/// What chrono writes for the moment `secs` seconds and `nanos` nanoseconds
/// after 1970-01-01T00:00:00Z, in UTC, under a strftime pattern; `None`
/// where chrono cannot represent the moment or rejects the pattern.
pub uninterp spec fn utc_formatted(secs: int, nanos: int, pattern: Seq<char>) -> Option<Seq<char>>;

/// `chrono::DateTime::from_timestamp` followed by `DateTime::format`: the
/// result is chrono's rendering of the moment in UTC, a function of the
/// three arguments alone. `None` stands for a moment out of chrono's range
/// and for a pattern that its formatter reports as an error.
#[verifier::external_body]
fn utc_format(secs: i64, nanos: u32, pattern: &str) -> (text: Option<String>)
    ensures
        text_view(text) == utc_formatted(secs as int, nanos as int, pattern@),
{
    let moment = chrono::DateTime::from_timestamp(secs, nanos)?;
    let mut text = String::new();
    match write!(text, "{}", moment.format(pattern)) {
        Ok(()) => Some(text),
        Err(_) => None,
    }
}

/// The text of a rendered date, blank where there is none.
pub open spec fn text_or_blank(text: Option<Seq<char>>) -> Seq<char> {
    match text {
        Some(t) => t,
        None => Seq::empty(),
    }
}

/// The date column for a rendering that may have failed: the rendering, or
/// the empty string.
pub fn date_or_blank(formatted: Option<String>) -> (text: String)
    ensures
        text@ == text_or_blank(text_view(formatted)),
{
    match formatted {
        Some(text) => text,
        None => String::new(),
    }
}

/// The date column of an entry: blank without a modification time, else the
/// UTC calendar date of that time.
pub open spec fn modified_text_of(stamp: Option<crate::entry::Timestamp>) -> Seq<char> {
    match stamp {
        Some(t) => text_or_blank(utc_formatted(t.secs as int, t.nanos as int, date_pattern())),
        None => Seq::empty(),
    }
}

pub fn modified_text(stamp: Option<crate::entry::Timestamp>) -> (text: String)
    ensures
        text@ == modified_text_of(stamp),
{
    match stamp {
        Some(t) => date_or_blank(utc_format(t.secs, t.nanos, "%a %b %e %Y")),
        None => String::new(),
    }
}

/// `users::UsersCache::new` and `Users::get_user_by_uid`: the name of the
/// account with this id in the system's user database, if the database has
/// one. Nothing is claimed of the answer: it depends on the machine.
#[verifier::external_body]
pub(crate) fn lookup_account(uid: u32) -> (name: Option<String>) {
    let cache = users::UsersCache::new();
    match cache.get_user_by_uid(uid) {
        Some(user) => Some(user.name().to_string_lossy().to_string()),
        None => None,
    }
}

/// The owner column: the account's name where the lookup found one, else
/// the numeric id in decimal.
pub open spec fn owner_of(uid: u32, account: Option<Seq<char>>) -> Seq<char> {
    match account {
        Some(name) => name,
        None => digits(uid as nat, 10),
    }
}

pub fn owner_text(uid: u32, account: Option<String>) -> (text: String)
    ensures
        text@ == owner_of(uid, text_view(account)),
{
    match account {
        Some(name) => name,
        None => decimal(uid as u64),
    }
}

} // verus!
