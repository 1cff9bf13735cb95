//! Player-bar intents and how track lengths are shown.
use vstd::prelude::*;
use vstd::string::*;

verus! {

/// A transport intent raised by a player-bar button.
#[derive(Debug, Clone, Copy, PartialEq, Eq, Structural)]
pub enum PlayerAction {
    PlayPause,
    Next,
    Prev,
    ToggleShuffle,
    CycleRepeat,
}

/// The character of a decimal digit.
pub open spec fn digit_char(d: nat) -> char {
    if d == 0 {
        '0'
    } else if d == 1 {
        '1'
    } else if d == 2 {
        '2'
    } else if d == 3 {
        '3'
    } else if d == 4 {
        '4'
    } else if d == 5 {
        '5'
    } else if d == 6 {
        '6'
    } else if d == 7 {
        '7'
    } else if d == 8 {
        '8'
    } else {
        '9'
    }
}

/// Decimal notation of `n`, without leading zeros ("0" for zero).
pub open spec fn decimal(n: nat) -> Seq<char>
    decreases n,
{
    if n < 10 {
        seq![digit_char(n)]
    } else {
        decimal(n / 10).push(digit_char(n % 10))
    }
}

/// Decimal notation of `n` padded with a leading zero to two digits.
pub open spec fn two_digits(n: nat) -> Seq<char> {
    if n < 10 {
        seq!['0'] + decimal(n)
    } else {
        decimal(n)
    }
}

/// A track length given in milliseconds, as whole minutes and two-digit seconds.
pub open spec fn duration_text(ms: nat) -> Seq<char> {
    let secs = ms / 1000;
    decimal(secs / 60) + seq![':'] + two_digits(secs % 60)
}

/// The number a string of decimal digits stands for.
pub open spec fn digits_value(s: Seq<char>) -> int
    decreases s.len(),
{
    if s.len() == 0 {
        0
    } else {
        digits_value(s.drop_last()) * 10 + (s.last() as int - '0' as int)
    }
}

proof fn lemma_digit_value(d: nat)
    requires
        d < 10,
    ensures
        digit_char(d) as int - '0' as int == d,
        '0' <= digit_char(d) <= '9',
{
    assert('1' as int == '0' as int + 1 && '2' as int == '0' as int + 2 && '3' as int == '0' as int + 3);
    assert('4' as int == '0' as int + 4 && '5' as int == '0' as int + 5 && '6' as int == '0' as int + 6);
    assert('7' as int == '0' as int + 7 && '8' as int == '0' as int + 8 && '9' as int == '0' as int + 9);
}

/// Decimal notation is the usual one: every character is a digit, reading
/// the digits back gives the number, and there is no leading zero (only 0
/// itself starts with '0').
pub proof fn law_decimal_reads_back(n: nat)
    ensures
        decimal(n).len() >= 1,
        forall|i: int| 0 <= i < decimal(n).len() ==> '0' <= #[trigger] decimal(n)[i] <= '9',
        digits_value(decimal(n)) == n,
        (decimal(n)[0] == '0') == (n == 0),
    decreases n,
{
    if n < 10 {
        lemma_digit_value(n);
        assert(decimal(n) == seq![digit_char(n)]);
        assert(decimal(n).drop_last() =~= Seq::<char>::empty());
        assert(digits_value(Seq::<char>::empty()) == 0);
    } else {
        lemma_digit_value(n % 10);
        law_decimal_reads_back(n / 10);
        let p = decimal(n / 10);
        assert(decimal(n) == p.push(digit_char(n % 10)));
        assert(decimal(n).drop_last() =~= p);
        assert(decimal(n)[0] == p[0]);
        assert(n == (n / 10) * 10 + n % 10) by {
            vstd::arithmetic::div_mod::lemma_fundamental_div_mod(n as int, 10);
        }
        assert forall|i: int| 0 <= i < decimal(n).len() implies '0' <= #[trigger] decimal(n)[i] <= '9' by {
            if i < p.len() {
                assert(decimal(n)[i] == p[i]);
            }
        }
    }
}

/// A track length shows whole minutes, a colon, and the seconds within the
/// minute as exactly two digits (tens, then units), so 125 000 ms reads "2:05".
pub proof fn law_duration_seconds_two_digits(ms: nat)
    ensures
        duration_text(ms) == decimal(ms / 60000) + seq![
            ':',
            digit_char(((ms / 1000) % 60) / 10),
            digit_char((ms / 1000) % 10),
        ],
{
    let secs = ms / 1000;
    vstd::arithmetic::div_mod::lemma_div_denominator(ms as int, 1000, 60);
    assert(secs / 60 == ms / 60000);
    vstd::arithmetic::div_mod::lemma_mod_mod(secs as int, 10, 6);
    assert((secs % 60) % 10 == secs % 10);
    let r = secs % 60;
    if r < 10 {
        assert(two_digits(r) =~= seq!['0', digit_char(r)]);
        assert(r / 10 == 0);
    } else {
        assert(r / 10 < 10);
        assert(decimal(r / 10) == seq![digit_char(r / 10)]);
        assert(decimal(r) == decimal(r / 10).push(digit_char(r % 10)));
        assert(decimal(r) =~= seq![digit_char(r / 10), digit_char(r % 10)]);
    }
    assert(duration_text(ms) =~= decimal(ms / 60000) + seq![
        ':',
        digit_char(((ms / 1000) % 60) / 10),
        digit_char((ms / 1000) % 10),
    ]);
}

fn digit_str(d: u64) -> (r: &'static str)
    requires
        d < 10,
    ensures
        r@ == seq![digit_char(d as nat)],
{
    proof {
        reveal_strlit("0");
        reveal_strlit("1");
        reveal_strlit("2");
        reveal_strlit("3");
        reveal_strlit("4");
        reveal_strlit("5");
        reveal_strlit("6");
        reveal_strlit("7");
        reveal_strlit("8");
        reveal_strlit("9");
    }
    if d == 0 {
        "0"
    } else if d == 1 {
        "1"
    } else if d == 2 {
        "2"
    } else if d == 3 {
        "3"
    } else if d == 4 {
        "4"
    } else if d == 5 {
        "5"
    } else if d == 6 {
        "6"
    } else if d == 7 {
        "7"
    } else if d == 8 {
        "8"
    } else {
        "9"
    }
}

fn push_decimal(s: &mut String, n: u64)
    ensures
        final(s)@ == old(s)@ + decimal(n as nat),
    decreases n,
{
    if n >= 10 {
        push_decimal(s, n / 10);
    }
    s.append(digit_str(n % 10));
    proof {
        if n >= 10 {
            assert(old(s)@ + decimal(n as nat) =~= old(s)@ + decimal((n / 10) as nat) + seq![digit_char((n % 10) as nat)]);
        } else {
            assert(n % 10 == n);
        }
    }
}

/// `ms` as `m:ss`.
pub fn fmt_duration(ms: u64) -> (r: String)
    ensures
        r@ == duration_text(ms as nat),
{
    let secs = ms / 1000;
    let mut s = String::new();
    push_decimal(&mut s, secs / 60);
    s.append(":");
    let rem = secs % 60;
    if rem < 10 {
        s.append("0");
    }
    push_decimal(&mut s, rem);
    proof {
        reveal_strlit(":");
        reveal_strlit("0");
        assert(s@ =~= duration_text(ms as nat));
    }
    s
}

} // verus!
