//! Month buckets: calendar months numbered as `year * 12 + month`, months counted
//! from zero, so that consecutive months are consecutive integers.

use vstd::prelude::*;

verus! {

/// The year (counted from 1 on either side of the era) and the month (counted
/// from 0) of the UTC calendar date that lies `secs` seconds after the Unix
/// epoch; `None` where that date is outside the years the calendar covers.
pub uninterp spec fn utc_year_month(secs: int) -> Option<(u32, u32)>;

/// The bucket of month `month0` (January is 0) of year `year`.
pub open spec fn month_bucket(year: u32, month0: u32) -> nat {
    (year * 12 + month0) as nat
}

/// The bucket of the month that holds the instant `secs`, if the calendar covers it.
pub open spec fn bucket_at(secs: int) -> Option<u64> {
    match utc_year_month(secs) {
        Some(ym) => Some(month_bucket(ym.0, ym.1) as u64),
        None => None,
    }
}

/// Trusted: calls chrono's `NaiveDateTime::from_timestamp_opt` and reads the date
/// it gives with `Datelike::year_ce` and `Datelike::month0`. The contract names the
/// result as a function of `secs` alone (the conversion is made in UTC) and
/// says nothing else of it.
#[allow(deprecated)]
#[verifier::external_body]
fn year_month_at(secs: i64) -> (r: Option<(u32, u32)>)
    ensures
        r == utc_year_month(secs as int),
{
    match chrono::NaiveDateTime::from_timestamp_opt(secs, 0) {
        Some(t) => Some((chrono::Datelike::year_ce(&t).1, chrono::Datelike::month0(&t))),
        None => None,
    }
}

/// The bucket of a month given by its year and its zero-based month.
pub fn bucket_of(year: u32, month0: u32) -> (r: u64)
    ensures
        r == month_bucket(year, month0),
{
    let y: u64 = year as u64;
    let m: u64 = month0 as u64;
    y * 12 + m
}

/// The bucket of the month in which a commit was made, from the commit's time
/// in seconds since the Unix epoch.
pub fn commit_bucket(secs: i64) -> (r: Option<u64>)
    ensures
        r == bucket_at(secs as int),
{
    match year_month_at(secs) {
        Some(ym) => Some(bucket_of(ym.0, ym.1)),
        None => None,
    }
}

/// Whether a character is a decimal digit.
pub open spec fn is_digit(c: char) -> bool {
    '0' <= c && c <= '9'
}

/// The value of a decimal digit.
pub open spec fn digit_value(c: char) -> nat {
    (c as u32 - '0' as u32) as nat
}

/// The number that a sequence of decimal digits writes.
pub open spec fn decimal(digits: Seq<char>) -> nat
    decreases digits.len(),
{
    if digits.len() == 0 {
        0
    } else {
        decimal(digits.drop_last()) * 10 + digit_value(digits.last())
    }
}

/// Whether every character of a text is a decimal digit.
pub open spec fn all_digits(text: Seq<char>) -> bool {
    forall|i: int| 0 <= i < text.len() ==> is_digit(#[trigger] text[i])
}

/// The number that a text writes: decimal digits, at least one, after an
/// optional `+`; `None` for any other text and for a number above `u32::MAX`.
pub open spec fn number(text: Seq<char>) -> Option<u32> {
    let digits = if text.len() > 0 && text[0] == '+' {
        text.skip(1)
    } else {
        text
    };
    if digits.len() > 0 && all_digits(digits) && decimal(digits) <= u32::MAX {
        Some(decimal(digits) as u32)
    } else {
        None
    }
}

/// The place of the first `-` of a text; the length of the text if it has none.
pub open spec fn first_dash(text: Seq<char>) -> int
    decreases text.len(),
{
    if text.len() == 0 {
        0
    } else if text[0] == '-' {
        0
    } else {
        1 + first_dash(text.skip(1))
    }
}

/// The month and the year that a text of the form `mm-yyyy` names: the month
/// counted from 0, so that `05-2015` is `(4, 2015)`. The text must hold exactly
/// one `-`, with a number on either side, and the month must not be 0.
pub open spec fn month_year(text: Seq<char>) -> Option<(u32, u32)> {
    let dash = first_dash(text);
    if dash < text.len() {
        match (number(text.subrange(0, dash)), number(text.subrange(dash + 1, text.len() as int))) {
            (Some(m), Some(y)) => if m >= 1 {
                Some(((m - 1) as u32, y))
            } else {
                None
            },
            _ => None,
        }
    } else {
        None
    }
}

/// A number does not get smaller when a digit is written behind it.
proof fn lemma_decimal_prefix(digits: Seq<char>, n: int)
    requires
        0 <= n <= digits.len(),
    ensures
        decimal(digits.take(n)) <= decimal(digits),
    decreases digits.len() - n,
{
    if n < digits.len() {
        assert(digits.take(n + 1).drop_last() =~= digits.take(n));
        lemma_decimal_prefix(digits, n + 1);
    } else {
        assert(digits.take(n) =~= digits);
    }
}

/// The first `-` of a text is where no `-` comes before.
proof fn lemma_first_dash(text: Seq<char>, i: int)
    requires
        0 <= i <= text.len(),
        forall|j: int| 0 <= j < i ==> text[j] != '-',
        i < text.len() ==> text[i] == '-',
    ensures
        first_dash(text) == i,
    decreases text.len(),
{
    if i > 0 {
        let rest = text.skip(1);
        assert forall|j: int| 0 <= j < i - 1 implies rest[j] != '-' by {
            assert(rest[j] == text[j + 1]);
        }
        if i < text.len() {
            assert(rest[i - 1] == text[i]);
        }
        lemma_first_dash(rest, i - 1);
    }
}

/// The number that the characters of a text from `from` up to `to` write.
fn parse_number(text: &str, from: usize, to: usize) -> (r: Option<u32>)
    requires
        from <= to <= text@.len(),
    ensures
        r == number(text@.subrange(from as int, to as int)),
{
    let ghost part = text@.subrange(from as int, to as int);
    let mut i = from;
    if i < to && text.get_char(i) == '+' {
        i = i + 1;
    }
    let ghost digits = text@.subrange(i as int, to as int);
    proof {
        if i > from {
            assert(part[0] == '+');
            assert(digits =~= part.skip(1));
        } else {
            if part.len() > 0 {
                assert(part[0] == text@[from as int]);
            }
            assert(digits =~= part);
        }
    }
    if i == to {
        return None;
    }
    let first = i;
    let mut value: u32 = 0;
    proof {
        assert(digits.take(0).len() == 0);
    }
    while i < to
        invariant
            first <= i <= to,
            from <= to <= text@.len(),
            first < to,
            digits == text@.subrange(first as int, to as int),
            number(text@.subrange(from as int, to as int)) == if all_digits(digits) && decimal(
                digits,
            ) <= u32::MAX {
                Some(decimal(digits) as u32)
            } else {
                None
            },
            all_digits(digits.take(i - first)),
            value == decimal(digits.take(i - first)),
        decreases to - i,
    {
        let c = text.get_char(i);
        let ghost k = i - first;
        proof {
            assert(digits[k] == c);
            assert(digits.take(k + 1).drop_last() =~= digits.take(k));
            assert(digits.take(k + 1).last() == c);
            lemma_decimal_prefix(digits, k + 1);
        }
        if c < '0' || c > '9' {
            proof {
                assert(!is_digit(digits[k]));
            }
            return None;
        }
        let d: u32 = c as u32 - '0' as u32;
        if value > (u32::MAX - d) / 10 {
            proof {
                assert(value * 10 + d > u32::MAX);
            }
            return None;
        }
        value = value * 10 + d;
        proof {
            assert forall|j: int| 0 <= j < k + 1 implies is_digit(
                #[trigger] digits.take(k + 1)[j],
            ) by {
                if j < k {
                    assert(digits.take(k)[j] == digits.take(k + 1)[j]);
                }
            }
        }
        i = i + 1;
    }
    proof {
        assert(digits.take(i - first) =~= digits);
    }
    Some(value)
}

/// Reads a month given as `mm-yyyy`: the month, counted from 0, and the year.
pub fn parse_month_year(text: &str) -> (r: Option<(u32, u32)>)
    ensures
        r == month_year(text@),
{
    let n = text.unicode_len();
    let mut dash: usize = 0;
    while dash < n && text.get_char(dash) != '-'
        invariant
            0 <= dash <= n,
            n == text@.len(),
            forall|j: int| 0 <= j < dash ==> text@[j] != '-',
        decreases n - dash,
    {
        dash = dash + 1;
    }
    proof {
        lemma_first_dash(text@, dash as int);
    }
    if dash == n {
        return None;
    }
    let month = parse_number(text, 0, dash);
    let year = parse_number(text, dash + 1, n);
    match (month, year) {
        (Some(m), Some(y)) => if m >= 1 {
            Some((m - 1, y))
        } else {
            None
        },
        _ => None,
    }
}

/// The character that writes a digit.
pub open spec fn digit_char(d: nat) -> char {
    if d == 0 {
        '0'
    } else if d == 1 {
        '1'
    } else if d == 2 {
        '2'
    } else if d == 3 {
        '3'
    } else if d == 4 {
        '4'
    } else if d == 5 {
        '5'
    } else if d == 6 {
        '6'
    } else if d == 7 {
        '7'
    } else if d == 8 {
        '8'
    } else {
        '9'
    }
}

/// The decimal digits that write a number, without leading zeros.
pub open spec fn digits_of(n: nat) -> Seq<char>
    decreases n,
{
    if n < 10 {
        seq![digit_char(n)]
    } else {
        digits_of(n / 10).push(digit_char(n % 10))
    }
}

/// The text that names the month of a bucket as `m-yyyy`: the month, counted
/// from 1, and the year.
pub open spec fn date_text(bucket: u64) -> Seq<char> {
    digits_of((bucket % 12 + 1) as nat) + seq!['-'] + digits_of((bucket / 12) as nat)
}

/// The text of one digit.
fn digit_text(d: u64) -> (text: &'static str)
    requires
        d < 10,
    ensures
        text@ == seq![digit_char(d as nat)],
{
    proof {
        reveal_strlit("0");
        reveal_strlit("1");
        reveal_strlit("2");
        reveal_strlit("3");
        reveal_strlit("4");
        reveal_strlit("5");
        reveal_strlit("6");
        reveal_strlit("7");
        reveal_strlit("8");
        reveal_strlit("9");
    }
    let text = if d == 0 {
        "0"
    } else if d == 1 {
        "1"
    } else if d == 2 {
        "2"
    } else if d == 3 {
        "3"
    } else if d == 4 {
        "4"
    } else if d == 5 {
        "5"
    } else if d == 6 {
        "6"
    } else if d == 7 {
        "7"
    } else if d == 8 {
        "8"
    } else {
        "9"
    };
    proof {
        assert(text@ =~= seq![digit_char(d as nat)]);
    }
    text
}

/// Writes a number in decimal digits.
pub fn decimal_text(n: u64) -> (text: String)
    ensures
        text@ == digits_of(n as nat),
    decreases n,
{
    if n < 10 {
        String::from_str(digit_text(n))
    } else {
        let text = decimal_text(n / 10).concat(digit_text(n % 10));
        proof {
            let front = digits_of((n / 10) as nat);
            assert(front + seq![digit_char((n % 10) as nat)] =~= front.push(
                digit_char((n % 10) as nat),
            ));
        }
        text
    }
}

/// Names the month of a bucket as `m-yyyy`: the month, counted from 1, and the
/// year.
pub fn format_month_year(bucket: u64) -> (text: String)
    ensures
        text@ == date_text(bucket),
{
    proof {
        reveal_strlit("-");
        assert("-"@ =~= seq!['-']);
    }
    decimal_text(bucket % 12 + 1).concat("-").concat(decimal_text(bucket / 12).as_str())
}

/// The digits of a number are digits, at least one, and write that number.
pub proof fn lemma_digits_of(n: nat)
    ensures
        digits_of(n).len() > 0,
        all_digits(digits_of(n)),
        decimal(digits_of(n)) == n,
    decreases n,
{
    if n < 10 {
        let one = digits_of(n);
        assert(one.drop_last() =~= Seq::<char>::empty());
        assert(decimal(one.drop_last()) == 0);
        assert(digit_value(one.last()) == n);
    } else {
        lemma_digits_of(n / 10);
        let front = digits_of(n / 10);
        let all = digits_of(n);
        assert(all.drop_last() =~= front);
        assert(digit_value(all.last()) == n % 10);
        assert forall|i: int| 0 <= i < all.len() implies is_digit(#[trigger] all[i]) by {
            if i < front.len() {
                assert(all[i] == front[i]);
            }
        }
    }
}

/// Reading and writing agree: the text that names the month of a bucket is
/// read as that month, counted from 0, and its year, and these give the bucket
/// again.
pub proof fn lemma_month_year_round_trip(bucket: u64)
    requires
        bucket / 12 <= u32::MAX,
    ensures
        month_year(date_text(bucket)) == Some(((bucket % 12) as u32, (bucket / 12) as u32)),
        month_bucket((bucket / 12) as u32, (bucket % 12) as u32) == bucket,
{
    let month = digits_of((bucket % 12 + 1) as nat);
    let year = digits_of((bucket / 12) as nat);
    let text = date_text(bucket);
    lemma_digits_of((bucket % 12 + 1) as nat);
    lemma_digits_of((bucket / 12) as nat);
    assert forall|j: int| 0 <= j < month.len() implies text[j] != '-' by {
        assert(text[j] == month[j]);
        assert(is_digit(month[j]));
    }
    assert(text[month.len() as int] == '-');
    lemma_first_dash(text, month.len() as int);
    assert(text.subrange(0, month.len() as int) =~= month);
    assert(text.subrange(month.len() as int + 1, text.len() as int) =~= year);
    assert(month[0] != '+') by {
        assert(is_digit(month[0]));
    }
    assert(year[0] != '+') by {
        assert(is_digit(year[0]));
    }
}

} // verus!
