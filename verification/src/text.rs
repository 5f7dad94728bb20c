//! Decimal formatting helpers shared by the lexer, the parser and the
//! semantic analyzer, together with a few string utilities.

use vstd::prelude::*;
use vstd::string::StrSliceExecFns;

verus! {

/// The character for a single decimal digit `d < 10`.
pub open spec fn digit_char(d: u8) -> char {
    ((48 + d) as u8) as char
}

/// Decimal digits of `n` without the leading-zero case: empty for 0.
pub open spec fn dec_rec(n: nat) -> Seq<char>
    decreases n,
{
    if n == 0 {
        Seq::empty()
    } else {
        dec_rec(n / 10).push(digit_char((n % 10) as u8))
    }
}

/// Decimal representation of `n`, most significant digit first.
pub open spec fn dec_digits(n: nat) -> Seq<char> {
    if n == 0 {
        seq!['0']
    } else {
        dec_rec(n)
    }
}

/// Appends one character to a string.
///
/// Relies on String::push: it appends exactly the given character.
#[verifier::external_body]
pub fn push_char(s: &mut String, c: char)
    ensures
        final(s)@ == old(s)@.push(c),
{
    s.push(c);
}

fn append_dec_rec(out: &mut String, n: u128)
    ensures
        final(out)@ == old(out)@ + dec_rec(n as nat),
    decreases n,
{
    if n == 0 {
        proof {
            assert(out@ =~= out@ + dec_rec(0));
        }
        return ;
    }
    let q = n / 10;
    let d: u8 = (n % 10) as u8;
    append_dec_rec(out, q);
    push_char(out, (48 + d) as char);
    proof {
        assert(out@ =~= old(out)@ + dec_rec(n as nat));
    }
}

/// Writes the decimal representation of `n` at the end of `out`.
pub fn append_u128(out: &mut String, n: u128)
    ensures
        final(out)@ == old(out)@ + dec_digits(n as nat),
{
    if n == 0 {
        push_char(out, '0');
        proof {
            assert(out@ =~= old(out)@ + dec_digits(0));
        }
    } else {
        append_dec_rec(out, n);
    }
}

/// `n` with its trailing decimal zeros removed.
pub open spec fn trim_zeros(n: nat) -> nat
    decreases n,
{
    if n > 0 && n % 10 == 0 {
        trim_zeros(n / 10)
    } else {
        n
    }
}

/// How many trailing decimal zeros `n` has.
pub open spec fn zeros_trimmed(n: nat) -> nat
    decreases n,
{
    if n > 0 && n % 10 == 0 {
        1 + zeros_trimmed(n / 10)
    } else {
        0
    }
}

/// `k` zero characters.
pub open spec fn zero_chars(k: nat) -> Seq<char>
    decreases k,
{
    if k == 0 {
        Seq::empty()
    } else {
        zero_chars((k - 1) as nat).push('0')
    }
}

/// Ten to the `k`.
pub open spec fn ten_pow(k: nat) -> nat
    decreases k,
{
    if k == 0 {
        1
    } else {
        10 * ten_pow((k - 1) as nat)
    }
}

/// The number of digits in `n`'s decimal representation.
pub open spec fn dec_len(n: nat) -> nat
    decreases n,
{
    if n < 10 {
        1
    } else {
        1 + dec_len(n / 10)
    }
}

/// The fraction digits of `f` billionths with trailing zeros stripped,
/// zero-padded on the left out to the ninth place.  Meaningful for
/// `1 <= f < 1_000_000_000`.
pub open spec fn frac9_str(f: nat) -> Seq<char> {
    zero_chars((9 - zeros_trimmed(f) - dec_len(trim_zeros(f))) as nat) + dec_digits(trim_zeros(f))
}

/// A count of billionths rendered the way Rust displays the same decimal
/// number: the integer part, then a point and the fraction digits with
/// trailing zeros stripped, or no point at all for a whole number.
pub open spec fn nanos_str(v: nat) -> Seq<char> {
    dec_digits(v / 1_000_000_000) + if v % 1_000_000_000 == 0 {
        Seq::<char>::empty()
    } else {
        "."@ + frac9_str(v % 1_000_000_000)
    }
}

proof fn lemma_dec_len(n: nat)
    ensures
        dec_len(n) == dec_digits(n).len(),
        dec_len(n) == dec_rec(n).len() || n == 0,
    decreases n,
{
    if n >= 10 {
        lemma_dec_len(n / 10);
    } else if n > 0 {
        assert(dec_rec(n) == dec_rec(n / 10).push(digit_char((n % 10) as u8)));
        assert(dec_rec(0) == Seq::<char>::empty());
    }
}

proof fn lemma_dec_len_bound(n: nat, k: nat)
    requires
        n < ten_pow(k),
        k >= 1,
    ensures
        dec_len(n) <= k,
    decreases k,
{
    if n >= 10 {
        assert(ten_pow(k) == 10 * ten_pow((k - 1) as nat));
        lemma_dec_len_bound(n / 10, (k - 1) as nat);
    }
}

proof fn lemma_trim_decompose(n: nat)
    ensures
        n == trim_zeros(n) * ten_pow(zeros_trimmed(n)),
        n > 0 ==> trim_zeros(n) >= 1,
    decreases n,
{
    if n > 0 && n % 10 == 0 {
        lemma_trim_decompose(n / 10);
        let t = trim_zeros(n);
        let z = zeros_trimmed((n / 10) as nat);
        let b = (n / 10) as nat;
        let p = ten_pow(z);
        let w = zeros_trimmed(n);
        assert(w == z + 1);
        assert((w - 1) as nat == z);
        assert(ten_pow(w) == 10 * p);
        assert(n == b * 10);
        assert(b == t * p);
        assert(n == t * ten_pow(w)) by (nonlinear_arith)
            requires
                n == b * 10,
                b == t * p,
                ten_pow(w) == 10 * p,
        ;
    } else {
        assert(trim_zeros(n) == n);
        assert(zeros_trimmed(n) == 0);
        assert(ten_pow(0) == 1);
        assert(n == n * 1) by (nonlinear_arith);
    }
}

proof fn lemma_trim_bound(n: nat)
    requires
        1 <= n < 1_000_000_000,
    ensures
        zeros_trimmed(n) <= 8,
        trim_zeros(n) < ten_pow((9 - zeros_trimmed(n)) as nat),
        dec_len(trim_zeros(n)) <= 9 - zeros_trimmed(n),
{
    lemma_trim_decompose(n);
    let t = trim_zeros(n);
    let z = zeros_trimmed(n);
    assert(ten_pow(9) == 1_000_000_000) by {
        reveal_with_fuel(ten_pow, 11);
    }
    if z > 8 {
        lemma_ten_pow_mono(9, z);
        assert(t * ten_pow(z) >= 1 * ten_pow(z)) by (nonlinear_arith)
            requires
                t >= 1,
        ;
    }
    assert(z <= 8);
    let w = (9 - z) as nat;
    if t >= ten_pow(w) {
        lemma_ten_pow_split(w, z);
        assert(t * ten_pow(z) >= ten_pow(w) * ten_pow(z)) by (nonlinear_arith)
            requires
                t >= ten_pow(w),
        ;
    }
    lemma_dec_len_bound(t, w);
}

proof fn lemma_ten_pow_mono(a: nat, b: nat)
    requires
        a <= b,
    ensures
        ten_pow(a) <= ten_pow(b),
    decreases b,
{
    if a < b {
        lemma_ten_pow_mono(a, (b - 1) as nat);
        assert(ten_pow(b) == 10 * ten_pow((b - 1) as nat));
    }
}

proof fn lemma_ten_pow_split(a: nat, b: nat)
    ensures
        ten_pow(a + b) == ten_pow(a) * ten_pow(b),
    decreases b,
{
    if b > 0 {
        lemma_ten_pow_split(a, (b - 1) as nat);
        let x = ten_pow(a);
        let y = ten_pow((b - 1) as nat);
        assert(ten_pow(a + b) == 10 * ten_pow((a + b - 1) as nat));
        assert(ten_pow((a + b - 1) as nat) == x * y);
        assert(ten_pow(b) == 10 * y);
        assert(10 * (x * y) == x * (10 * y)) by (nonlinear_arith);
    } else {
        assert(ten_pow(0) == 1);
        assert(ten_pow(a) == ten_pow(a) * 1) by (nonlinear_arith);
    }
}

/// Writes `v` billionths at the end of `out` the way Rust displays the
/// same decimal number.
pub fn append_nanos(out: &mut String, v: u128)
    ensures
        final(out)@ == old(out)@ + nanos_str(v as nat),
{
    let ip = v / 1_000_000_000;
    append_u128(out, ip);
    let f = v % 1_000_000_000;
    if f == 0 {
        proof {
            assert(out@ =~= old(out)@ + nanos_str(v as nat));
        }
        return ;
    }
    push_char(out, '.');
    proof {
        reveal_strlit(".");
        assert(out@ =~= old(out)@ + dec_digits(ip as nat) + "."@);
    }
    // Strip the trailing zeros of the fraction.
    let mut t = f;
    let mut z: u32 = 0;
    while t % 10 == 0
        invariant
            1 <= t <= f < 1_000_000_000,
            trim_zeros(f as nat) == trim_zeros(t as nat),
            zeros_trimmed(f as nat) == z + zeros_trimmed(t as nat),
            z <= 8,
        decreases t,
    {
        proof {
            lemma_trim_bound(f as nat);
        }
        t = t / 10;
        z = z + 1;
    }
    proof {
        lemma_trim_bound(f as nat);
        assert(trim_zeros(t as nat) == t as nat);
        assert(t as nat == trim_zeros(f as nat));
        assert(z == zeros_trimmed(f as nat));
    }
    // Count the digits that remain.
    let mut m = t;
    let mut c: u32 = 0;
    while m > 0
        invariant
            m <= t,
            t >= 1,
            dec_len(t as nat) <= 9,
            m > 0 ==> dec_len(t as nat) == c + dec_len(m as nat),
            m == 0 ==> dec_len(t as nat) == c,
            c <= 9,
        decreases m,
    {
        m = m / 10;
        c = c + 1;
    }
    // Left-pad with zeros out to the ninth place.
    proof {
        lemma_trim_bound(f as nat);
    }
    let width = 9 - z;
    let mut pads = width - c;
    let ghost total_pads = pads;
    proof {
        assert(zero_chars(0) == Seq::<char>::empty());
        assert(out@ =~= old(out)@ + dec_digits(ip as nat) + "."@ + zero_chars(
            (total_pads - pads) as nat,
        ));
    }
    while pads > 0
        invariant
            pads <= total_pads,
            ip == v / 1_000_000_000,
            out@ == old(out)@ + dec_digits(ip as nat) + "."@ + zero_chars(
                (total_pads - pads) as nat,
            ),
        decreases pads,
    {
        push_char(out, '0');
        pads = pads - 1;
        proof {
            assert(out@ =~= old(out)@ + dec_digits(ip as nat) + "."@ + zero_chars(
                (total_pads - pads) as nat,
            ));
        }
    }
    append_u128(out, t);
    proof {
        lemma_trim_bound(f as nat);
        assert(total_pads == 9 - zeros_trimmed(f as nat) - dec_len(trim_zeros(f as nat)));
        lemma_dec_len(t as nat);
        assert(out@ =~= old(out)@ + nanos_str(v as nat));
    }
}

/// Whether two string slices hold the same characters.
pub fn str_eq_str(a: &str, b: &str) -> (r: bool)
    ensures
        r == (a@ == b@),
{
    let na = a.unicode_len();
    let nb = b.unicode_len();
    if na != nb {
        proof {
            assert(a@ != b@);
        }
        return false;
    }
    let mut i: usize = 0;
    while i < na
        invariant
            i <= na,
            na == a@.len(),
            na == b@.len(),
            forall|k: int| 0 <= k < i ==> a@[k] == b@[k],
        decreases na - i,
    {
        if a.get_char(i) != b.get_char(i) {
            proof {
                assert(a@[i as int] != b@[i as int]);
            }
            return false;
        }
        i = i + 1;
    }
    proof {
        assert(a@ =~= b@);
    }
    true
}

} // verus!
