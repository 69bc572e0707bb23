//! A calendar date as plain values, together with the English weekday and
//! month names used in note headers.

use vstd::prelude::*;

verus! {

/// A calendar date plus its weekday, as plain numbers. The clock is read by
/// the surrounding binary; the library only ever works on values of this
/// type, so every function of it is deterministic in the date it is given.
#[derive(Clone, Copy, Debug, PartialEq, Eq, Structural)]
pub struct NoteDate {
    /// Full year, `0..=9999`.
    pub year: u16,
    /// Month of the year, `1..=12`.
    pub month: u8,
    /// Day of the month, `1..=31`.
    pub day: u8,
    /// Day of the week, `0..=6`, counted from Monday.
    pub weekday: u8,
}

impl NoteDate {
    /// The ranges every date handed to the library must lie in.
    pub open spec fn wf(self) -> bool {
        &&& self.year <= 9999
        &&& 1 <= self.month <= 12
        &&& 1 <= self.day <= 31
        &&& self.weekday <= 6
    }

    /// Builds a date after checking the field ranges.
    pub fn new(year: u16, month: u8, day: u8, weekday: u8) -> (r: Option<NoteDate>)
        ensures
            match r {
                Some(d) => d.wf() && d.year == year && d.month == month && d.day == day
                    && d.weekday == weekday,
                None => !(NoteDate { year, month, day, weekday }).wf(),
            },
    {
        if year <= 9999 && 1 <= month && month <= 12 && 1 <= day && day <= 31 && weekday <= 6 {
            Some(NoteDate { year, month, day, weekday })
        } else {
            None
        }
    }
}

/// The byte for a single decimal digit.
pub open spec fn digit(n: int) -> u8
    recommends
        0 <= n <= 9,
{
    (48 + n) as u8
}

/// A number below 100 as two zero-padded decimal digits.
pub open spec fn two_digits(n: int) -> Seq<u8>
    recommends
        0 <= n < 100,
{
    seq![digit(n / 10), digit(n % 10)]
}

/// A number below 10000 as four zero-padded decimal digits.
pub open spec fn four_digits(n: int) -> Seq<u8>
    recommends
        0 <= n < 10000,
{
    seq![digit(n / 1000), digit((n / 100) % 10), digit((n / 10) % 10), digit(n % 10)]
}

/// Two-digit renderings are ordered as their numbers, and equal exactly for
/// equal numbers.
pub proof fn lemma_two_digits_order(m: int, n: int)
    requires
        0 <= m < 100,
        0 <= n < 100,
    ensures
        crate::order::lex_lt(two_digits(m), two_digits(n)) == (m < n),
        (two_digits(m) == two_digits(n)) == (m == n),
{
    let a = seq![digit(m / 10)];
    let x = seq![digit(m % 10)];
    let b = seq![digit(n / 10)];
    let y = seq![digit(n % 10)];
    assert(two_digits(m) =~= a + x);
    assert(two_digits(n) =~= b + y);
    crate::order::lemma_lex_concat_eqlen(a, b, x, y);
    crate::order::lemma_lex_single(digit(m / 10), digit(n / 10));
    crate::order::lemma_lex_single(digit(m % 10), digit(n % 10));
    assert(digit(m / 10) == 48 + m / 10);
    assert(digit(m % 10) == 48 + m % 10);
    assert(digit(n / 10) == 48 + n / 10);
    assert(digit(n % 10) == 48 + n % 10);
    if a == b {
        assert(a[0] == b[0]);
    }
    assert((m < n) == (m / 10 < n / 10 || (m / 10 == n / 10 && m % 10 < n % 10)));
    assert((m == n) == (m / 10 == n / 10 && m % 10 == n % 10));
    if m / 10 == n / 10 && m % 10 == n % 10 {
        assert(two_digits(m) =~= two_digits(n));
    }
    if two_digits(m) == two_digits(n) {
        assert(two_digits(m)[0] == two_digits(n)[0]);
        assert(two_digits(m)[1] == two_digits(n)[1]);
    }
}

/// Four-digit renderings are ordered as their numbers, and equal exactly for
/// equal numbers.
pub proof fn lemma_four_digits_order(m: int, n: int)
    requires
        0 <= m < 10000,
        0 <= n < 10000,
    ensures
        crate::order::lex_lt(four_digits(m), four_digits(n)) == (m < n),
        (four_digits(m) == four_digits(n)) == (m == n),
{
    assert((m / 100) / 10 == m / 1000) by (nonlinear_arith)
        requires
            0 <= m < 10000,
    ;
    assert((m % 100) / 10 == (m / 10) % 10) by (nonlinear_arith)
        requires
            0 <= m < 10000,
    ;
    assert((m % 100) % 10 == m % 10) by (nonlinear_arith)
        requires
            0 <= m < 10000,
    ;
    assert((n / 100) / 10 == n / 1000) by (nonlinear_arith)
        requires
            0 <= n < 10000,
    ;
    assert((n % 100) / 10 == (n / 10) % 10) by (nonlinear_arith)
        requires
            0 <= n < 10000,
    ;
    assert((n % 100) % 10 == n % 10) by (nonlinear_arith)
        requires
            0 <= n < 10000,
    ;
    assert(four_digits(m) =~= two_digits(m / 100) + two_digits(m % 100));
    assert(four_digits(n) =~= two_digits(n / 100) + two_digits(n % 100));
    crate::order::lemma_lex_concat_eqlen(
        two_digits(m / 100),
        two_digits(n / 100),
        two_digits(m % 100),
        two_digits(n % 100),
    );
    lemma_two_digits_order(m / 100, n / 100);
    lemma_two_digits_order(m % 100, n % 100);
    assert((m < n) == (m / 100 < n / 100 || (m / 100 == n / 100 && m % 100 < n % 100))) by (
    nonlinear_arith)
        requires
            0 <= m < 10000,
            0 <= n < 10000,
    ;
    assert((m == n) == (m / 100 == n / 100 && m % 100 == n % 100)) by (nonlinear_arith)
        requires
            0 <= m < 10000,
            0 <= n < 10000,
    ;
    if four_digits(m) == four_digits(n) {
        assert(!crate::order::lex_lt(four_digits(m), four_digits(n)));
        assert(!crate::order::lex_lt(four_digits(n), four_digits(m)));
    }
}

/// Appends the two zero-padded decimal digits of `n` to `out`.
pub fn push_two_digits(out: &mut Vec<u8>, n: u8)
    requires
        n < 100,
    ensures
        final(out)@ == old(out)@ + two_digits(n as int),
{
    out.push(48 + n / 10);
    out.push(48 + n % 10);
    assert(out@ =~= old(out)@ + two_digits(n as int));
}

/// Appends the four zero-padded decimal digits of `n` to `out`.
pub fn push_four_digits(out: &mut Vec<u8>, n: u16)
    requires
        n < 10000,
    ensures
        final(out)@ == old(out)@ + four_digits(n as int),
{
    out.push(48 + (n / 1000) as u8);
    out.push(48 + ((n / 100) % 10) as u8);
    out.push(48 + ((n / 10) % 10) as u8);
    out.push(48 + (n % 10) as u8);
    assert(out@ =~= old(out)@ + four_digits(n as int));
}

} // verus!
