//! Building text: repeated characters, spaces, and integers written with
//! `_` between groups of three digits.

use vstd::prelude::*;
use crate::text::push_char;
use vstd::string::StringExecFns;

verus! {

broadcast use vstd::string::group_string_axioms;

/// `n` copies of `c`.
pub open spec fn repeated(c: char, n: nat) -> Seq<char> {
    Seq::new(n, |_i: int| c)
}

/// `s` followed by `n` copies of `c`.
pub fn add_chars_n(s: String, c: char, n: u32) -> (r: String)
    ensures
        r@ == s@ + repeated(c, n as nat),
{
    let mut st = s;
    add_chars_n_ref(&mut st, c, n);
    st
}

/// Appends `n` copies of `c` to `s`.
pub fn add_chars_n_ref(s: &mut String, c: char, n: u32)
    ensures
        final(s)@ == old(s)@ + repeated(c, n as nat),
{
    let mut j: u32 = 0;
    while j < n
        invariant
            j <= n,
            s@ == old(s)@ + repeated(c, j as nat),
        decreases n - j,
    {
        push_char(s, c);
        assert(repeated(c, (j + 1) as nat) =~= repeated(c, j as nat).push(c));
        j = j + 1;
    }
}

/// Appends `n` spaces to `s`.
pub fn add_space(s: &mut String, n: u32)
    ensures
        final(s)@ == old(s)@ + repeated(' ', n as nat),
{
    add_chars_n_ref(s, ' ', n);
}

/// Appends the whole of `st` to `s`.
pub fn add_str2(s: &mut String, st: String)
    ensures
        final(s)@ == old(s)@ + st@,
{
    s.append(st.as_str());
}

/// Appends `st` to `s`.
pub fn add_str(s: &mut String, st: &str)
    ensures
        final(s)@ == old(s)@ + st@,
{
    s.append(st);
}

/// The decimal digit for `d` (taken modulo 10).
pub open spec fn digit_char(d: int) -> char {
    ((d % 10) + 48) as char
}

/// `n` in decimal without leading zeros; zero gives the empty text.
pub open spec fn decimal(n: nat) -> Seq<char>
    decreases n,
{
    if n == 0 {
        Seq::empty()
    } else {
        decimal(n / 10).push(digit_char(n as int))
    }
}

/// `n` in decimal with `_` before every group of three digits counted from
/// the right (`306_437_968`); zero gives the empty text.
pub open spec fn grouped(n: nat) -> Seq<char>
    decreases n,
{
    if n < 1000 {
        decimal(n)
    } else {
        grouped(n / 1000) + seq!['_', digit_char((n / 100) as int), digit_char((n / 10) as int), digit_char(n as int)]
    }
}

/// The test that drops the group separators.
pub open spec fn not_separator() -> spec_fn(char) -> bool {
    |c: char| c != '_'
}

proof fn lemma_decimal_has_no_separator(n: nat)
    ensures
        decimal(n).filter(not_separator()) == decimal(n),
    decreases n,
{
    reveal(Seq::filter);
    if n > 0 {
        lemma_decimal_has_no_separator(n / 10);
        let d = decimal(n);
        assert(d.drop_last() == decimal(n / 10));
        assert(not_separator()(d.last()));
    }
}

/// The grouped form of `n` holds the decimal digits of `n`, in order, with
/// only `_` added.
pub proof fn lemma_grouped_digits(n: nat)
    ensures
        grouped(n).filter(not_separator()) == decimal(n),
    decreases n,
{
    if n < 1000 {
        lemma_decimal_has_no_separator(n);
    } else {
        lemma_grouped_digits(n / 1000);
        let tail = seq!['_', digit_char((n / 100) as int), digit_char((n / 10) as int), digit_char(n as int)];
        Seq::filter_distributes_over_add(grouped(n / 1000), tail, not_separator());
        assert(tail.filter(not_separator()) =~= seq![digit_char((n / 100) as int), digit_char((n / 10) as int), digit_char(n as int)]) by {
            reveal_with_fuel(Seq::filter, 5);
            assert(tail.drop_last().drop_last().drop_last() =~= seq!['_']);
            assert(tail.drop_last().drop_last() =~= seq!['_', digit_char((n / 100) as int)]);
            assert(tail.drop_last() =~= seq!['_', digit_char((n / 100) as int), digit_char((n / 10) as int)]);
            assert(seq!['_'].drop_last() =~= Seq::<char>::empty());
            assert(Seq::<char>::empty().filter(not_separator()) =~= Seq::<char>::empty());
        }
        assert(n / 10 / 10 == n / 100);
        assert(n / 100 / 10 == n / 1000);
        assert(decimal((n / 100) as nat) == decimal((n / 1000) as nat).push(digit_char((n / 100) as int)));
        assert(decimal((n / 10) as nat) == decimal((n / 100) as nat).push(digit_char((n / 10) as int)));
        assert(decimal(n) == decimal((n / 10) as nat).push(digit_char(n as int)));
        assert(decimal(n) =~= decimal(n / 1000) + seq![digit_char((n / 100) as int), digit_char((n / 10) as int), digit_char(n as int)]);
    }
}

/// The digit character for `d < 10`.
fn digit(d: u32) -> (r: char)
    requires
        d < 10,
    ensures
        r == digit_char(d as int),
{
    let b: u8 = (d as u8) + 48;
    b as char
}

/// Appends `grouped(n)` to `s`.
fn push_grouped(s: &mut String, n: u32)
    ensures
        final(s)@ == old(s)@ + grouped(n as nat),
    decreases n,
{
    if n >= 1000 {
        push_grouped(s, n / 1000);
        let ghost s1 = s@;
        push_char(s, '_');
        push_char(s, digit((n / 100) % 10));
        push_char(s, digit((n / 10) % 10));
        push_char(s, digit(n % 10));
        assert(s@ =~= s1 + seq!['_', digit_char((n / 100) as int), digit_char((n / 10) as int), digit_char(n as int)]);
    } else {
        proof {
            reveal_with_fuel(decimal, 4);
        }
        let ghost s0 = s@;
        if n >= 100 {
            push_char(s, digit(n / 100));
        }
        if n >= 10 {
            push_char(s, digit((n / 10) % 10));
        }
        if n > 0 {
            push_char(s, digit(n % 10));
        }
        proof {
            assert(n / 10 / 10 == n / 100);
            assert(n / 100 / 10 == 0) by {
                assert(n < 1000);
            }
            if n >= 100 {
                assert(decimal((n / 100) as nat) =~= seq![digit_char((n / 100) as int)]);
                assert(decimal((n / 10) as nat) =~= seq![digit_char((n / 100) as int), digit_char((n / 10) as int)]);
                assert(decimal(n as nat) =~= seq![digit_char((n / 100) as int), digit_char((n / 10) as int), digit_char(n as int)]);
            } else if n >= 10 {
                assert(decimal((n / 10) as nat) =~= seq![digit_char((n / 10) as int)]);
                assert(decimal(n as nat) =~= seq![digit_char((n / 10) as int), digit_char(n as int)]);
            } else if n > 0 {
                assert(decimal(n as nat) =~= seq![digit_char(n as int)]);
            }
            assert(s@ =~= s0 + decimal(n as nat));
        }
    }
}

/// Appends `i` in decimal with `_` between groups of three digits
/// (`306437968` gives `306_437_968`); zero appends nothing.
pub fn add_integer(s: &mut String, i: u32)
    ensures
        final(s)@ == old(s)@ + grouped(i as nat),
{
    push_grouped(s, i);
}

} // verus!
