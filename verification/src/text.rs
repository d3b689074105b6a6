//! Small verified text helpers: decimal and hexadecimal renderings of
//! integers appended to a `String`, and the characters of a string.
use vstd::prelude::*;
use vstd::string::StringExecFns;

verus! {

/// Lower-case hexadecimal digit for `d < 16`.
pub open spec fn hex_char(d: nat) -> char {
    if d == 0 {
        '0'
    } else if d == 1 {
        '1'
    } else if d == 2 {
        '2'
    } else if d == 3 {
        '3'
    } else if d == 4 {
        '4'
    } else if d == 5 {
        '5'
    } else if d == 6 {
        '6'
    } else if d == 7 {
        '7'
    } else if d == 8 {
        '8'
    } else if d == 9 {
        '9'
    } else if d == 10 {
        'a'
    } else if d == 11 {
        'b'
    } else if d == 12 {
        'c'
    } else if d == 13 {
        'd'
    } else if d == 14 {
        'e'
    } else {
        'f'
    }
}

/// Digits of `n` in base `b` (`b` is 10 or 16), most significant first,
/// without leading zeros (`0` renders as a single `0`).
pub open spec fn digits(n: nat, b: nat) -> Seq<char>
    recommends
        b == 10 || b == 16,
    decreases n,
{
    if b < 2 || n < b {
        seq![hex_char(n)]
    } else {
        proof {
            assert(n / b < n) by (nonlinear_arith)
                requires
                    b >= 2,
                    n >= b,
            ;
        }
        digits(n / b, b).push(hex_char(n % b))
    }
}

/// Decimal rendering of `n`, as `{}` formats an unsigned integer.
pub open spec fn decimal(n: nat) -> Seq<char> {
    digits(n, 10)
}

/// Lower-case hexadecimal rendering of `n`, left-padded with `0` to at least
/// `width` digits, as `{:0width$x}` formats an unsigned integer.
pub open spec fn hex_padded(n: nat, width: nat) -> Seq<char> {
    let d = digits(n, 16);
    if d.len() >= width {
        d
    } else {
        Seq::new((width - d.len()) as nat, |i: int| '0') + d
    }
}

/// `String::push`: appends `c`.
#[verifier::external_body]
pub(crate) fn push_char(s: &mut String, c: char)
    ensures
        final(s)@ == old(s)@.push(c),
{
    s.push(c);
}

/// Appends a string slice.
pub fn push_str(s: &mut String, t: &str)
    ensures
        final(s)@ == old(s)@ + t@,
{
    s.append(t);
}

fn digit_char(d: u64) -> (c: char)
    requires
        d < 16,
    ensures
        c == hex_char(d as nat),
{
    if d == 0 {
        '0'
    } else if d == 1 {
        '1'
    } else if d == 2 {
        '2'
    } else if d == 3 {
        '3'
    } else if d == 4 {
        '4'
    } else if d == 5 {
        '5'
    } else if d == 6 {
        '6'
    } else if d == 7 {
        '7'
    } else if d == 8 {
        '8'
    } else if d == 9 {
        '9'
    } else if d == 10 {
        'a'
    } else if d == 11 {
        'b'
    } else if d == 12 {
        'c'
    } else if d == 13 {
        'd'
    } else if d == 14 {
        'e'
    } else {
        'f'
    }
}

/// Appends the digits of `n` in base `b`.
pub fn push_digits(s: &mut String, n: u64, b: u64)
    requires
        b == 10 || b == 16,
    ensures
        final(s)@ == old(s)@ + digits(n as nat, b as nat),
    decreases n,
{
    if n < b {
        push_char(s, digit_char(n));
        assert(old(s)@.push(hex_char(n as nat)) =~= old(s)@ + seq![hex_char(n as nat)]);
    } else {
        push_digits(s, n / b, b);
        push_char(s, digit_char(n % b));
        assert(old(s)@ + digits(n as nat, b as nat) =~= (old(s)@ + digits((n / b) as nat, b as nat)).push(
            hex_char((n % b) as nat),
        ));
    }
}

/// Number of digits of `n` in base `b`.
pub fn digit_count(n: u64, b: u64) -> (c: usize)
    requires
        b == 10 || b == 16,
    ensures
        c == digits(n as nat, b as nat).len(),
        c <= 20,
    decreases n,
{
    if n < b {
        1
    } else {
        proof {
            lemma_digits_len_bound(n as nat, b as nat);
        }
        digit_count(n / b, b) + 1
    }
}

proof fn lemma_digits_len_bound(n: nat, b: nat)
    requires
        b == 10 || b == 16,
        n <= u64::MAX,
    ensures
        digits(n, b).len() <= 20,
{
    reveal_with_fuel(pow_nat, 21);
    assert(pow_nat(10, 20) == 100000000000000000000);
    assert(pow_nat(16, 20) == 1208925819614629174706176);
    lemma_digits_len_le(n, b, 20);
}

proof fn lemma_digits_len_le(n: nat, b: nat, k: nat)
    requires
        b == 10 || b == 16,
        n < pow_nat(b, k),
        k >= 1,
    ensures
        digits(n, b).len() <= k,
    decreases n,
{
    if n >= b {
        assert(n / b < pow_nat(b, (k - 1) as nat)) by (nonlinear_arith)
            requires
                n < pow_nat(b, k),
                pow_nat(b, k) == b * pow_nat(b, (k - 1) as nat),
                b >= 2,
        {
        }
        if k == 1 {
            assert(pow_nat(b, 0) == 1);
            assert(n / b < 1);
            assert(false) by (nonlinear_arith)
                requires
                    n >= b,
                    b >= 2,
                    n / b < 1,
            ;
        }
        assert(n / b < n) by (nonlinear_arith)
            requires
                b >= 2,
                n >= b,
        ;
        lemma_digits_len_le(n / b, b, (k - 1) as nat);
    }
}

/// `b^k`.
pub open spec fn pow_nat(b: nat, k: nat) -> nat
    decreases k,
{
    if k == 0 {
        1
    } else {
        b * pow_nat(b, (k - 1) as nat)
    }
}

/// Decimal rendering of `n`.
pub fn decimal_string(n: u64) -> (r: String)
    ensures
        r@ == decimal(n as nat),
{
    let mut s = String::new();
    push_digits(&mut s, n, 10);
    assert(Seq::<char>::empty() + digits(n as nat, 10) =~= digits(n as nat, 10));
    s
}

/// Appends `n` in lower-case hexadecimal, zero-padded to `width` digits.
pub fn push_hex_padded(s: &mut String, n: u64, width: usize)
    ensures
        final(s)@ == old(s)@ + hex_padded(n as nat, width as nat),
{
    let count = digit_count(n, 16);
    let ghost start = s@;
    let mut i: usize = count;
    while i < width
        invariant
            count <= i <= width || (count > width && i == count),
            s@ == start + Seq::new((i - count) as nat, |j: int| '0'),
        decreases width - i,
    {
        push_char(s, '0');
        assert(start + Seq::new((i + 1 - count) as nat, |j: int| '0') =~= (start + Seq::new(
            (i - count) as nat,
            |j: int| '0',
        )).push('0'));
        i += 1;
    }
    push_digits(s, n, 16);
    let ghost d = digits(n as nat, 16);
    if count >= width {
        assert(Seq::new((i - count) as nat, |j: int| '0') =~= Seq::<char>::empty());
        assert(s@ =~= start + d);
    } else {
        assert(s@ =~= start + (Seq::new((width - d.len()) as nat, |j: int| '0') + d));
    }
}

/// The characters of a string.
pub fn chars_of(s: &str) -> (r: Vec<char>)
    ensures
        r@ == s@,
{
    broadcast use vstd::string::group_string_axioms, vstd::string::next_postcondition;

    let mut out: Vec<char> = Vec::new();
    let ghost d = s@;
    let mut it = s.chars();
    proof {
        assert(d.skip(0) =~= d);
    }
    loop
        invariant
            vstd::std_specs::iter::IteratorSpec::remaining(&it) == d.skip(out.len() as int),
            d == s@,
            out.len() <= d.len(),
            out@ == d.take(out.len() as int),
        ensures
            out@ == d,
        decreases d.len() - out.len(),
    {
        let ghost k = out.len() as int;
        match it.next() {
            Some(c) => {
                proof {
                    assert(d.skip(k).len() > 0);
                    assert(c == d[k]);
                    assert(d.skip(k).drop_first() =~= d.skip(k + 1));
                    assert(d.take(k + 1) =~= d.take(k).push(c));
                }
                out.push(c);
            },
            None => {
                proof {
                    assert(d.skip(k).len() == 0);
                    assert(d.take(k) =~= d);
                }
                break;
            },
        }
    }
    out
}

} // verus!
