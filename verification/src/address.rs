//! Plain IPv4 addresses and their dotted-decimal text form.
//!
//! A peer is identified by its IPv4 address alone, so the address type is
//! four plain octets with structural equality. The text form is what the
//! wire format carries; formatting and parsing are verified inverses.

use vstd::prelude::*;

verus! {

/// An IPv4 address as four plain octets; the key that identifies a peer.
#[derive(Clone, Copy, Debug, PartialEq, Eq, Structural, Hash)]
pub struct Ipv4Address {
    pub o0: u8,
    pub o1: u8,
    pub o2: u8,
    pub o3: u8,
}

/// Relies on `String::push` of std: it appends exactly the given character.
pub assume_specification[ String::push ](s: &mut String, c: char)
    ensures
        final(s)@ == old(s)@.push(c),
;

/// The character for one decimal digit value.
pub open spec fn dec_digit(n: int) -> char {
    if n == 0 {
        '0'
    } else if n == 1 {
        '1'
    } else if n == 2 {
        '2'
    } else if n == 3 {
        '3'
    } else if n == 4 {
        '4'
    } else if n == 5 {
        '5'
    } else if n == 6 {
        '6'
    } else if n == 7 {
        '7'
    } else if n == 8 {
        '8'
    } else {
        '9'
    }
}

/// The decimal numeral of `n`: most significant digit first, no leading
/// zeros (a single `'0'` for zero).
pub open spec fn dec_rep(n: nat) -> Seq<char>
    decreases n,
{
    if n < 10 {
        seq![dec_digit(n as int)]
    } else {
        dec_rep(n / 10).push(dec_digit((n % 10) as int))
    }
}

/// Whether `c` is a decimal digit character.
pub open spec fn is_dec_digit(c: char) -> bool {
    '0' <= c && c <= '9'
}

/// The numeric value of a decimal digit character.
pub open spec fn digit_val(c: char) -> int {
    c as int - '0' as int
}

/// The value of a sequence of decimal digit characters, most significant
/// digit first.
pub open spec fn digits_val(d: Seq<char>) -> nat
    decreases d.len(),
{
    if d.len() == 0 {
        0
    } else {
        (digits_val(d.drop_last()) * 10 + digit_val(d.last())) as nat
    }
}

/// How many decimal digit characters stand at the front of `s`.
pub open spec fn digit_prefix_len(s: Seq<char>) -> nat
    decreases s.len(),
{
    if s.len() == 0 || !is_dec_digit(s[0]) {
        0
    } else {
        1 + digit_prefix_len(s.drop_first())
    }
}

/// The value of the maximal digit prefix of `s`.
pub open spec fn number_val(s: Seq<char>) -> nat {
    digits_val(s.take(digit_prefix_len(s) as int))
}

/// The dotted-decimal text of an address, as in `192.168.0.1`.
pub open spec fn dotted_rep(a: Ipv4Address) -> Seq<char> {
    dec_rep(a.o0 as nat) + seq!['.'] + dec_rep(a.o1 as nat) + seq!['.'] + dec_rep(
        a.o2 as nat,
    ) + seq!['.'] + dec_rep(a.o3 as nat)
}

/// Every character of a decimal numeral is a digit, the numeral is never
/// empty, and its value is the number it was formed from.
pub proof fn lemma_dec_rep_digits(n: nat)
    ensures
        dec_rep(n).len() >= 1,
        forall|i: int| 0 <= i < dec_rep(n).len() ==> is_dec_digit(#[trigger] dec_rep(n)[i]),
        digits_val(dec_rep(n)) == n,
    decreases n,
{
    if n < 10 {
        let d = seq![dec_digit(n as int)];
        assert(dec_rep(n) == d);
        assert(is_dec_digit(dec_digit(n as int)));
        assert(d.drop_last() =~= Seq::<char>::empty());
        assert(digits_val(d.drop_last()) == 0);
        assert(d.last() == dec_digit(n as int));
        assert(digits_val(d) == digit_val(dec_digit(n as int)));
    } else {
        lemma_dec_rep_digits(n / 10);
        let d = dec_rep(n / 10).push(dec_digit((n % 10) as int));
        assert(dec_rep(n) == d);
        assert(d.drop_last() == dec_rep(n / 10));
        assert(d.last() == dec_digit((n % 10) as int));
        assert(forall|i: int|
            0 <= i < d.len() ==> is_dec_digit(#[trigger] d[i])) by {
            assert(forall|i: int|
                0 <= i < d.len() - 1 ==> d[i] == #[trigger] dec_rep(n / 10)[i]);
            assert(is_dec_digit(dec_digit((n % 10) as int)));
        }
        assert(digits_val(d) == digits_val(dec_rep(n / 10)) * 10 + digit_val(d.last()));
        assert(digit_val(dec_digit((n % 10) as int)) == n % 10);
        assert((n / 10) * 10 + n % 10 == n) by (nonlinear_arith);
    }
}

/// The digit prefix of a numeral followed by a non-digit (or nothing) is
/// exactly the numeral.
pub proof fn lemma_digit_prefix_of_digits(d: Seq<char>, rest: Seq<char>)
    requires
        forall|i: int| 0 <= i < d.len() ==> is_dec_digit(#[trigger] d[i]),
        rest.len() == 0 || !is_dec_digit(rest[0]),
    ensures
        digit_prefix_len(d + rest) == d.len(),
        (d + rest).take(d.len() as int) == d,
        (d + rest).skip(d.len() as int) == rest,
    decreases d.len(),
{
    assert((d + rest).take(d.len() as int) =~= d);
    assert((d + rest).skip(d.len() as int) =~= rest);
    if d.len() == 0 {
        assert(d + rest =~= rest);
    } else {
        assert((d + rest)[0] == d[0]);
        assert(is_dec_digit((d + rest)[0]));
        assert((d + rest).drop_first() =~= d.drop_first() + rest);
        lemma_digit_prefix_of_digits(d.drop_first(), rest);
    }
}

/// Taking a prefix of a numeral never increases its value.
pub proof fn lemma_digits_val_prefix(d: Seq<char>, i: int)
    requires
        0 <= i <= d.len(),
        forall|j: int| 0 <= j < d.len() ==> is_dec_digit(#[trigger] d[j]),
    ensures
        digits_val(d.take(i)) <= digits_val(d),
    decreases d.len() - i,
{
    if i == d.len() {
        assert(d.take(i) =~= d);
    } else {
        lemma_digits_val_prefix(d, i + 1);
        let t = d.take(i + 1);
        assert(t.drop_last() =~= d.take(i));
        assert(t.last() == d[i]);
        assert(is_dec_digit(d[i]));
        assert(digits_val(t) == digits_val(d.take(i)) * 10 + digit_val(d[i]));
        assert(digits_val(d.take(i)) <= digits_val(d.take(i)) * 10) by (nonlinear_arith);
    }
}

/// A numeral followed by a non-digit parses back to the number it encodes.
pub proof fn lemma_number_round_trip(n: nat, rest: Seq<char>)
    requires
        rest.len() == 0 || !is_dec_digit(rest[0]),
    ensures
        digit_prefix_len(dec_rep(n) + rest) == dec_rep(n).len(),
        number_val(dec_rep(n) + rest) == n,
        (dec_rep(n) + rest).skip(dec_rep(n).len() as int) == rest,
{
    lemma_dec_rep_digits(n);
    lemma_digit_prefix_of_digits(dec_rep(n), rest);
}

/// Appends one decimal digit character; used by the numeral writer.
fn digit_char(n: u8) -> (c: char)
    requires
        n < 10,
    ensures
        c == dec_digit(n as int),
{
    if n == 0 {
        '0'
    } else if n == 1 {
        '1'
    } else if n == 2 {
        '2'
    } else if n == 3 {
        '3'
    } else if n == 4 {
        '4'
    } else if n == 5 {
        '5'
    } else if n == 6 {
        '6'
    } else if n == 7 {
        '7'
    } else if n == 8 {
        '8'
    } else {
        '9'
    }
}

/// Appends the decimal numeral of `n` to `out`.
pub fn push_decimal(out: &mut String, n: u64)
    ensures
        final(out)@ == old(out)@ + dec_rep(n as nat),
    decreases n,
{
    if n >= 10 {
        push_decimal(out, n / 10);
    }
    out.push(digit_char((n % 10) as u8));
    proof {
        if n < 10 {
            assert(old(out)@ + dec_rep(n as nat) =~= old(out)@.push(dec_digit(n as int)));
        } else {
            assert(old(out)@ + dec_rep(n as nat) =~= (old(out)@ + dec_rep((n / 10) as nat)).push(
                dec_digit((n % 10) as int),
            ));
        }
    }
}

/// Appends the dotted-decimal text of `a` to `out`.
pub fn push_dotted(out: &mut String, a: Ipv4Address)
    ensures
        final(out)@ == old(out)@ + dotted_rep(a),
{
    push_decimal(out, a.o0 as u64);
    out.push('.');
    push_decimal(out, a.o1 as u64);
    out.push('.');
    push_decimal(out, a.o2 as u64);
    out.push('.');
    push_decimal(out, a.o3 as u64);
    proof {
        assert(out@ =~= old(out)@ + dotted_rep(a));
    }
}

} // verus!
