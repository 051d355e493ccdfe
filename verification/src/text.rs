//! Text helpers: decimal digits of integers in both directions, ASCII bytes
//! as characters, and the debug text of strings.
use vstd::prelude::*;

verus! {

/// The ASCII decimal digits of `n`, most significant first, without leading zeros.
pub open spec fn nat_digits(n: nat) -> Seq<u8>
    decreases n,
{
    if n < 10 {
        seq![(48 + n) as u8]
    } else {
        nat_digits(n / 10).push((48 + n % 10) as u8)
    }
}

/// The decimal text of `v`, with a leading `-` when `v` is negative.
pub open spec fn int_text(v: int) -> Seq<u8> {
    if v < 0 {
        seq![45u8] + nat_digits((-v) as nat)
    } else {
        nat_digits(v as nat)
    }
}

/// The characters of an ASCII byte string.
pub open spec fn ascii_chars(s: Seq<u8>) -> Seq<char> {
    s.map_values(|b: u8| b as char)
}

pub open spec fn is_digit(b: u8) -> bool {
    48 <= b <= 57
}

pub open spec fn all_digits(s: Seq<u8>) -> bool {
    forall|i: int| 0 <= i < s.len() ==> is_digit(#[trigger] s[i])
}

/// The number that a string of decimal digits denotes.
pub open spec fn digits_value(s: Seq<u8>) -> nat
    decreases s.len(),
{
    if s.len() == 0 {
        0
    } else {
        digits_value(s.drop_last()) * 10 + (s.last() - 48) as nat
    }
}

/// Appends the decimal digits of `n` to `out`.
pub fn push_nat_digits(n: u64, out: &mut Vec<u8>)
    ensures
        final(out)@ == old(out)@ + nat_digits(n as nat),
    decreases n,
{
    if n >= 10 {
        push_nat_digits(n / 10, out);
    }
    out.push((48 + n % 10) as u8);
    proof {
        if n >= 10 {
            assert(nat_digits(n as nat) == nat_digits((n / 10) as nat).push((48 + n % 10) as u8));
        }
        assert(final(out)@ =~= old(out)@ + nat_digits(n as nat));
    }
}

/// Appends the decimal text of `v` to `out`.
pub fn push_int_text(v: i64, out: &mut Vec<u8>)
    ensures
        final(out)@ == old(out)@ + int_text(v as int),
{
    if v < 0 {
        out.push(45u8);
        let m: u64 = if v == i64::MIN {
            9223372036854775808u64
        } else {
            (-v) as u64
        };
        push_nat_digits(m, out);
        assert(out@ =~= old(out)@ + int_text(v as int));
    } else {
        push_nat_digits(v as u64, out);
    }
}

#[verifier::external_body]
/// Wraps `String::push`: appends the character `c` to `s`.
fn push_char(s: &mut String, c: char)
    ensures
        final(s)@ == old(s)@.push(c),
{
    s.push(c);
}

/// Appends the decimal digits of `n` to the string `s`.
pub fn push_nat_chars(n: u64, s: &mut String)
    ensures
        final(s)@ == old(s)@ + ascii_chars(nat_digits(n as nat)),
    decreases n,
{
    if n >= 10 {
        push_nat_chars(n / 10, s);
    }
    let d: u8 = (48 + n % 10) as u8;
    push_char(s, d as char);
    proof {
        if n >= 10 {
            assert(nat_digits(n as nat) == nat_digits((n / 10) as nat).push(d));
            assert(ascii_chars(nat_digits(n as nat)) =~= ascii_chars(
                nat_digits((n / 10) as nat),
            ).push(d as char));
        } else {
            assert(ascii_chars(nat_digits(n as nat)) =~= seq![d as char]);
        }
        assert(final(s)@ =~= old(s)@ + ascii_chars(nat_digits(n as nat)));
    }
}

/// Appends the characters of an ASCII byte string to `s`.
pub fn push_ascii(bytes: &[u8], s: &mut String)
    ensures
        final(s)@ == old(s)@ + ascii_chars(bytes@),
{
    let mut i: usize = 0;
    while i < bytes.len()
        invariant
            i <= bytes@.len(),
            s@ == old(s)@ + ascii_chars(bytes@.take(i as int)),
        decreases bytes@.len() - i,
    {
        push_char(s, bytes[i] as char);
        assert(ascii_chars(bytes@.take(i + 1)) =~= ascii_chars(bytes@.take(i as int)).push(
            bytes@[i as int] as char,
        ));
        i = i + 1;
    }
    assert(bytes@.take(i as int) =~= bytes@);
}

proof fn lemma_digits_value_take_step(s: Seq<u8>, i: int)
    requires
        0 <= i < s.len(),
    ensures
        digits_value(s.take(i + 1)) == digits_value(s.take(i)) * 10 + (s[i] - 48) as nat,
{
    assert(s.take(i + 1).drop_last() =~= s.take(i));
}

proof fn lemma_digits_value_mono(s: Seq<u8>, i: int, j: int)
    requires
        all_digits(s),
        0 <= i <= j <= s.len(),
    ensures
        digits_value(s.take(i)) <= digits_value(s.take(j)),
    decreases j - i,
{
    if i < j {
        lemma_digits_value_mono(s, i, j - 1);
        lemma_digits_value_take_step(s, j - 1);
        assert(is_digit(s[j - 1]));
        let a = digits_value(s.take(j - 1));
        assert(a * 10 >= a) by (nonlinear_arith);
    }
}

/// Reading back the digits written for `n` gives `n`.
pub proof fn lemma_digits_roundtrip(n: nat)
    ensures
        all_digits(nat_digits(n)),
        nat_digits(n).len() > 0,
        digits_value(nat_digits(n)) == n,
    decreases n,
{
    if n >= 10 {
        lemma_digits_roundtrip(n / 10);
        let d = nat_digits(n);
        assert(d.drop_last() =~= nat_digits(n / 10));
        assert(d.last() == (48 + n % 10) as u8);
        assert(n / 10 * 10 + n % 10 == n) by (nonlinear_arith);
        assert(digits_value(d) == digits_value(d.drop_last()) * 10 + (d.last() - 48) as nat);
    } else {
        let d = nat_digits(n);
        assert(d.drop_last() =~= Seq::<u8>::empty());
        assert(digits_value(d.drop_last()) == 0);
        assert(digits_value(d) == digits_value(d.drop_last()) * 10 + (d.last() - 48) as nat);
    }
}

/// The value of a string of decimal digits, when it is at most `limit`.
pub fn parse_decimal(s: &[u8], limit: u64) -> (r: Option<u64>)
    requires
        all_digits(s@),
    ensures
        r == (if digits_value(s@) <= limit {
            Some(digits_value(s@) as u64)
        } else {
            None::<u64>
        }),
{
    let mut acc: u64 = 0;
    let mut i: usize = 0;
    assert(s@.take(0) =~= Seq::<u8>::empty());
    while i < s.len()
        invariant
            i <= s@.len(),
            all_digits(s@),
            acc as nat == digits_value(s@.take(i as int)),
            acc <= limit,
        decreases s@.len() - i,
    {
        assert(is_digit(s@[i as int]));
        let d: u64 = (s[i] - 48) as u64;
        proof {
            lemma_digits_value_take_step(s@, i as int);
        }
        if d > limit || acc > (limit - d) / 10 {
            proof {
                assert(acc * 10 + d > limit) by (nonlinear_arith)
                    requires
                        d > limit || acc > (limit - d) / 10,
                        d <= 9,
                ;
                lemma_digits_value_mono(s@, i + 1, s@.len() as int);
                assert(s@.take(s@.len() as int) =~= s@);
            }
            return None;
        }
        assert(acc * 10 + d <= limit) by (nonlinear_arith)
            requires
                d <= limit,
                acc <= (limit - d) / 10,
        ;
        acc = acc * 10 + d;
        i = i + 1;
    }
    assert(s@.take(i as int) =~= s@);
    Some(acc)
}

/// Appends the decimal text of `v` to the string `s`.
pub fn push_int_chars(v: i64, s: &mut String)
    ensures
        final(s)@ == old(s)@ + ascii_chars(int_text(v as int)),
{
    if v < 0 {
        push_char(s, '-');
        let m: u64 = if v == i64::MIN {
            9223372036854775808u64
        } else {
            (-v) as u64
        };
        push_nat_chars(m, s);
        assert(ascii_chars(int_text(v as int)) =~= seq!['-'] + ascii_chars(nat_digits(m as nat)));
        assert(final(s)@ =~= old(s)@ + ascii_chars(int_text(v as int)));
    } else {
        push_nat_chars(v as u64, s);
    }
}

/// The text that `{:?}` gives for a string: the string in double quotes,
/// with quotes, backslashes and non-printable characters escaped.
pub uninterp spec fn debug_text(s: Seq<char>) -> Seq<char>;

/// Calls `format!("{:?}", s)`: the debug text of a string.
#[verifier::external_body]
pub(crate) fn debug_str(s: &str) -> (r: String)
    ensures
        r@ == debug_text(s@),
{
    format!("{:?}", s)
}

} // verus!
