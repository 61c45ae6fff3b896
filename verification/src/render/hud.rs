use vstd::prelude::*;
use crate::font::{draw_text, text_covers};
use crate::framebuffer::Framebuffer;

verus! {

/// The character of decimal digit `d`.
pub open spec fn digit_char(d: int) -> char {
    if d == 0 {
        '0'
    } else if d == 1 {
        '1'
    } else if d == 2 {
        '2'
    } else if d == 3 {
        '3'
    } else if d == 4 {
        '4'
    } else if d == 5 {
        '5'
    } else if d == 6 {
        '6'
    } else if d == 7 {
        '7'
    } else if d == 8 {
        '8'
    } else {
        '9'
    }
}

/// `n` written in decimal, without leading zeros.
pub open spec fn decimal(n: nat) -> Seq<char>
    decreases n,
{
    if n < 10 {
        seq![digit_char(n as int)]
    } else {
        decimal(n / 10).push(digit_char((n % 10) as int))
    }
}

/// `n` written in decimal with at least two digits (`{:02}`).
pub open spec fn two_digits(n: nat) -> Seq<char> {
    if n < 10 {
        seq!['0'] + decimal(n)
    } else {
        decimal(n)
    }
}

/// A time of `total` whole seconds as `MM:SS`.
pub open spec fn clock(total: nat) -> Seq<char> {
    two_digits(total / 60) + seq![':'] + two_digits(total % 60)
}

fn digit_str(d: u32) -> (s: &'static str)
    requires
        d < 10,
    ensures
        s@ == seq![digit_char(d as int)],
{
    proof {
        reveal_strlit("0");
        reveal_strlit("1");
        reveal_strlit("2");
        reveal_strlit("3");
        reveal_strlit("4");
        reveal_strlit("5");
        reveal_strlit("6");
        reveal_strlit("7");
        reveal_strlit("8");
        reveal_strlit("9");
    }
    if d == 0 {
        "0"
    } else if d == 1 {
        "1"
    } else if d == 2 {
        "2"
    } else if d == 3 {
        "3"
    } else if d == 4 {
        "4"
    } else if d == 5 {
        "5"
    } else if d == 6 {
        "6"
    } else if d == 7 {
        "7"
    } else if d == 8 {
        "8"
    } else {
        "9"
    }
}

/// Appends `n` in decimal to `s`.
pub fn push_decimal(s: &mut String, n: u32)
    ensures
        final(s)@ == old(s)@ + decimal(n as nat),
    decreases n,
{
    if n >= 10 {
        push_decimal(s, n / 10);
    }
    s.append(digit_str(n % 10));
    proof {
        if n >= 10 {
            assert(old(s)@ + decimal(n as nat) =~= old(s)@ + decimal((n / 10) as nat) + seq![digit_char((n % 10) as int)]);
        } else {
            assert(n % 10 == n);
        }
    }
}

/// `n` in decimal, at least two digits.
fn push_two_digits(s: &mut String, n: u32)
    ensures
        final(s)@ == old(s)@ + two_digits(n as nat),
{
    if n < 10 {
        proof {
            reveal_strlit("0");
        }
        s.append("0");
        push_decimal(s, n);
        assert(final(s)@ =~= old(s)@ + two_digits(n as nat));
    } else {
        push_decimal(s, n);
    }
}

/// A time of `total` whole seconds as `MM:SS`, as the timer and the end
/// screens show it.
pub fn format_clock(total: u32) -> (s: String)
    ensures
        s@ == clock(total as nat),
{
    let mut s = String::new();
    push_two_digits(&mut s, total / 60);
    proof {
        reveal_strlit(":");
    }
    s.append(":");
    push_two_digits(&mut s, total % 60);
    assert(s@ =~= clock(total as nat));
    s
}

/// The wall-hit counter text.
pub open spec fn collisions_text(collisions: nat) -> Seq<char> {
    "GOLPES "@ + decimal(collisions)
}

/// The wall-hit counter text, `GOLPES <n>`.
pub fn collisions_label(collisions: u32) -> (s: String)
    ensures
        s@ == collisions_text(collisions as nat),
{
    let mut s = String::from_str("GOLPES ");
    push_decimal(&mut s, collisions);
    s
}

/// The frame-rate text for a rounded rate.
pub open spec fn fps_text(fps: int) -> Seq<char> {
    if fps < 0 {
        "FPS:-"@ + decimal((-fps) as nat)
    } else {
        "FPS:"@ + decimal(fps as nat)
    }
}

/// The frame-rate text `FPS:<n>` for a rate rounded to a whole number.
pub fn fps_label(fps: i32) -> (s: String)
    ensures
        s@ == fps_text(fps as int),
{
    if fps < 0 {
        let mut s = String::from_str("FPS:-");
        let magnitude: u32 = if fps == i32::MIN { 2147483648u32 } else { (-fps) as u32 };
        push_decimal(&mut s, magnitude);
        s
    } else {
        let mut s = String::from_str("FPS:");
        push_decimal(&mut s, fps as u32);
        s
    }
}

/// Draws the wall-hit counter below the timer, at `(10, 46)`, in orange at
/// scale 2.
pub fn draw_collisions(framebuffer: &mut Framebuffer, collisions: u32)
    requires
        old(framebuffer).wf(),
    ensures
        final(framebuffer).current_color == 0xFFAA55,
        old(framebuffer).painted(
            &*final(framebuffer),
            |a: int, b: int| text_covers(collisions_text(collisions as nat), 10, 46, 2, a, b),
            0xFFAA55,
        ),
{
    let text = collisions_label(collisions);
    proof {
        lemma_decimal_len(collisions as nat);
        reveal_strlit("GOLPES ");
    }
    draw_text(framebuffer, 10, 46, text.as_str(), 0xFFAA55, 2);
}

/// A number below `10^k` has at most `k` digits; a `u32` has at most ten.
pub proof fn lemma_decimal_len(n: nat)
    ensures
        decimal(n).len() >= 1,
        n <= u32::MAX ==> decimal(n).len() <= 10,
    decreases n,
{
    if n >= 10 {
        lemma_decimal_len(n / 10);
    }
    if n <= u32::MAX {
        assert(vstd::arithmetic::power::pow(10, 10) == 10000000000) by {
            reveal_with_fuel(vstd::arithmetic::power::pow, 11);
        }
        lemma_decimal_len_bound(n, 10);
    }
}

proof fn lemma_decimal_len_bound(n: nat, k: nat)
    requires
        n < vstd::arithmetic::power::pow(10, k),
    ensures
        decimal(n).len() <= if k == 0 { 1 } else { k },
    decreases n,
{
    if n >= 10 {
        assert(k >= 2) by {
            if k <= 1 {
                vstd::arithmetic::power::lemma_pow1(10);
                vstd::arithmetic::power::lemma_pow0(10);
                if k == 0 {
                    assert(vstd::arithmetic::power::pow(10, 0) == 1);
                }
            }
        }
        vstd::arithmetic::power::lemma_pow_adds(10, 1, (k - 1) as nat);
        vstd::arithmetic::power::lemma_pow1(10);
        assert(n / 10 < vstd::arithmetic::power::pow(10, (k - 1) as nat)) by {
            vstd::arithmetic::div_mod::lemma_div_by_multiple_is_strongly_ordered(
                n as int, vstd::arithmetic::power::pow(10, k) as int, vstd::arithmetic::power::pow(10, (k - 1) as nat) as int, 10);
        }
        lemma_decimal_len_bound(n / 10, (k - 1) as nat);
    }
}

/// The value of a digit character.
pub open spec fn digit_value(c: char) -> int {
    (c as int) - ('0' as int)
}

/// The number a string of decimal digits stands for.
pub open spec fn decimal_value(s: Seq<char>) -> int
    decreases s.len(),
{
    if s.len() == 0 {
        0
    } else {
        decimal_value(s.drop_last()) * 10 + digit_value(s.last())
    }
}

proof fn lemma_digit(d: int)
    requires
        0 <= d < 10,
    ensures
        digit_value(digit_char(d)) == d,
        '0' <= digit_char(d) <= '9',
        d > 0 ==> digit_char(d) != '0',
{
}

/// Numbers read back: the digits written for `n` are decimal digits, the
/// first is not a superfluous zero, they stand for `n`, and the two-digit
/// form stands for `n` as well.
pub proof fn lemma_decimal_reads_back(n: nat)
    ensures
        forall|i: int| 0 <= i < decimal(n).len() ==> '0' <= #[trigger] decimal(n)[i] <= '9',
        decimal(n).len() > 1 ==> decimal(n)[0] != '0',
        decimal_value(decimal(n)) == n,
        decimal_value(two_digits(n)) == n,
        two_digits(n).len() >= 2,
    decreases n,
{
    lemma_decimal_len(n);
    if n >= 10 {
        lemma_decimal_reads_back(n / 10);
        lemma_digit((n % 10) as int);
        assert(decimal(n).drop_last() =~= decimal(n / 10));
        lemma_decimal_len(n / 10);
        assert(decimal(n)[0] == decimal(n / 10)[0]);
        if n / 10 < 10 {
            lemma_digit((n / 10) as int);
        }
        assert forall|i: int| 0 <= i < decimal(n).len() implies '0' <= #[trigger] decimal(n)[i] <= '9' by {
            if i < decimal(n).len() - 1 {
                assert(decimal(n)[i] == decimal(n / 10)[i]);
            }
        }
        assert(decimal_value(decimal(n)) == decimal_value(decimal(n / 10)) * 10 + digit_value(
            digit_char((n % 10) as int),
        ));
    } else {
        lemma_digit(n as int);
        assert(decimal(n).drop_last() =~= Seq::<char>::empty());
        let t = two_digits(n);
        assert(t.drop_last() =~= seq!['0']);
        assert(seq!['0'].drop_last() =~= Seq::<char>::empty());
        assert(decimal_value(Seq::<char>::empty()) == 0);
        assert(decimal_value(seq!['0']) == decimal_value(Seq::<char>::empty()) * 10 + digit_value('0'));
        assert(decimal_value(seq!['0']) == 0);
        assert(t.last() == digit_char(n as int));
    }
}

} // verus!
