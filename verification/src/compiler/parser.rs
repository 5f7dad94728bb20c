//! Syntax analysis of automaton descriptions.
//!
//! A recursive-descent parser consumes the lexer's tokens and builds an
//! abstract syntax tree that mirrors the grammar: a chain of states, each
//! with an optional distribution clause, followed by a chain of transitions
//! whose conditions combine with `&&` and `||`.  Parsing stops at the first
//! error; unknown state names are syntactically legal and only rejected by
//! the semantic analysis.

use vstd::prelude::*;
use crate::compiler::lexer::{Lexer, Token};
use crate::text::str_eq_str;
use vstd::string::StrSliceExecFns;

verus! {

/// Comparison operator of a quantity condition.
#[derive(Clone, Copy, PartialEq, Eq, Structural, Debug)]
pub enum ComparisonOperator {
    Greater,
    Lesser,
    GreaterOrEqual,
    LesserOrEqual,
    Equal,
    Different,
}

/// One of the eight Moore neighbors, `A` through `H`, in reading order:
/// `A B C` on the row above, `D` and `E` beside the cell, `F G H` below.
#[derive(Clone, Copy, PartialEq, Eq, Structural, Debug)]
pub enum NeighborCell {
    A,
    B,
    C,
    D,
    E,
    F,
    G,
    H,
}

/// Boolean connective between two conditions.
#[derive(Clone, Copy, PartialEq, Eq, Structural, Debug)]
pub enum BooleanOperator {
    And,
    Or,
}

/// What follows a condition: another condition under a connective, or the
/// rest of the transition list.
pub enum NextConditionNode {
    NextCondition(BooleanOperator, Box<ConditionNode>),
    NextTransition(Box<TransitionNode>),
}

/// One condition atom and its continuation.  A probability is stored in
/// billionths, so `1_000_000_000` stands for certainty.
pub enum ConditionNode {
    QuantityCondition(String, ComparisonOperator, u8, NextConditionNode),
    NeighborCondition(NeighborCell, String, NextConditionNode),
    RandomCondition(u32, NextConditionNode),
    True(NextConditionNode),
}

/// One transition `(origin, destination, optional delay, conditions)` or the
/// end of the transition list.
pub enum TransitionNode {
    Transition(String, String, Option<usize>, Box<ConditionNode>),
    End,
}

/// A state's distribution clause, each wrapping the rest of the state
/// chain.  A proportion is stored in billionths of the whole grid.
pub enum StateDistributionNode {
    Proportion(u32, Box<StateNode>),
    Quantity(usize, Box<StateNode>),
    Default(Box<StateNode>),
}

/// One state `(name, red, green, blue, distribution)` or the transition
/// chain that follows the state list.
pub enum StateNode {
    State(String, u8, u8, u8, StateDistributionNode),
    Next(TransitionNode),
}

/// The parsed description: the grid dimensions it is meant for and the
/// state chain.
pub struct Ast {
    pub world_size: (usize, usize),
    pub first_state: StateNode,
}

// ---------------------------------------------------------------------------
// Character and token classes
// ---------------------------------------------------------------------------
/// ASCII decimal digit.
pub open spec fn digit_char_p(c: char) -> bool {
    48 <= c as u32 <= 57
}

/// ASCII letter.
pub open spec fn alpha_char_p(c: char) -> bool {
    (65 <= c as u32 <= 90) || (97 <= c as u32 <= 122)
}

/// ASCII letter or digit.
pub open spec fn alnum_char_p(c: char) -> bool {
    alpha_char_p(c) || digit_char_p(c)
}

/// An identifier: letters and digits only, and not a pure digit string.
/// The empty text is no identifier.
pub open spec fn is_identifier_text(s: Seq<char>) -> bool {
    (forall|k: int| 0 <= k < s.len() ==> alnum_char_p(s[k])) && !(forall|k: int|
        0 <= k < s.len() ==> digit_char_p(s[k]))
}

/// Whether the token's text is an alphanumeric identifier.
pub fn is_identifier(token: &Token) -> (r: bool)
    ensures
        r == is_identifier_text(token.str@),
{
    let s = token.str.as_str();
    let n = s.unicode_len();
    let mut all_alnum = true;
    let mut all_digit = true;
    let mut i: usize = 0;
    while i < n
        invariant
            i <= n,
            n == s@.len(),
            all_alnum == (forall|k: int| 0 <= k < i ==> alnum_char_p(s@[k])),
            all_digit == (forall|k: int| 0 <= k < i ==> digit_char_p(s@[k])),
        decreases n - i,
    {
        let c = s.get_char(i);
        let u = c as u32;
        if !((48 <= u && u <= 57) || (65 <= u && u <= 90) || (97 <= u && u <= 122)) {
            all_alnum = false;
        }
        if !(48 <= u && u <= 57) {
            all_digit = false;
        }
        i = i + 1;
    }
    all_alnum && !all_digit
}

/// The boolean operator a token stands for, if any.
pub open spec fn boolean_operator_of(s: Seq<char>) -> Option<BooleanOperator> {
    if s == "&&"@ {
        Some(BooleanOperator::And)
    } else if s == "||"@ {
        Some(BooleanOperator::Or)
    } else {
        None
    }
}

/// Translates the token into a boolean operator, if possible.
pub fn to_boolean_operator(token: &Token) -> (r: Option<BooleanOperator>)
    ensures
        r == boolean_operator_of(token.str@),
{
    if str_eq_str(token.str.as_str(), "&&") {
        Some(BooleanOperator::And)
    } else if str_eq_str(token.str.as_str(), "||") {
        Some(BooleanOperator::Or)
    } else {
        None
    }
}

/// The neighbor cell a token names, if any.
pub open spec fn neighbor_cell_of(s: Seq<char>) -> Option<NeighborCell> {
    if s == "A"@ {
        Some(NeighborCell::A)
    } else if s == "B"@ {
        Some(NeighborCell::B)
    } else if s == "C"@ {
        Some(NeighborCell::C)
    } else if s == "D"@ {
        Some(NeighborCell::D)
    } else if s == "E"@ {
        Some(NeighborCell::E)
    } else if s == "F"@ {
        Some(NeighborCell::F)
    } else if s == "G"@ {
        Some(NeighborCell::G)
    } else if s == "H"@ {
        Some(NeighborCell::H)
    } else {
        None
    }
}

/// Translates the token into a neighbor cell identifier, if possible.
pub fn to_neighbor_cell(token: &Token) -> (r: Option<NeighborCell>)
    ensures
        r == neighbor_cell_of(token.str@),
{
    let s = token.str.as_str();
    if str_eq_str(s, "A") {
        Some(NeighborCell::A)
    } else if str_eq_str(s, "B") {
        Some(NeighborCell::B)
    } else if str_eq_str(s, "C") {
        Some(NeighborCell::C)
    } else if str_eq_str(s, "D") {
        Some(NeighborCell::D)
    } else if str_eq_str(s, "E") {
        Some(NeighborCell::E)
    } else if str_eq_str(s, "F") {
        Some(NeighborCell::F)
    } else if str_eq_str(s, "G") {
        Some(NeighborCell::G)
    } else if str_eq_str(s, "H") {
        Some(NeighborCell::H)
    } else {
        None
    }
}

// ---------------------------------------------------------------------------
// Numeric token values
// ---------------------------------------------------------------------------
/// Digits only.
pub open spec fn digits_only(s: Seq<char>) -> bool {
    forall|k: int| 0 <= k < s.len() ==> digit_char_p(s[k])
}

/// The numeric value of one digit character, 0 for anything else.
pub open spec fn char_digit_val(c: char) -> nat {
    if digit_char_p(c) {
        (c as u32 - 48) as nat
    } else {
        0
    }
}

/// The value of a digit string, read in base ten.
pub open spec fn uint_value(s: Seq<char>) -> nat
    decreases s.len(),
{
    if s.len() == 0 {
        0
    } else {
        uint_value(s.drop_last()) * 10 + char_digit_val(s.last())
    }
}

/// The digits after an optional leading plus sign, as Rust's unsigned
/// parsing reads them.
pub open spec fn core_of(s: Seq<char>) -> Seq<char> {
    if s.len() > 0 && s[0] == '+' {
        s.skip(1)
    } else {
        s
    }
}

/// Whether the text parses as an unsigned integer no greater than `max`.
pub open spec fn uint_parse_ok(s: Seq<char>, max: nat) -> bool {
    let core = core_of(s);
    core.len() > 0 && digits_only(core) && uint_value(core) <= max
}

/// Ten to the `n`.
pub open spec fn pow10(n: nat) -> nat
    decreases n,
{
    if n == 0 {
        1
    } else {
        10 * pow10((n - 1) as nat)
    }
}

proof fn lemma_uint_prefix(s: Seq<char>, i: int)
    requires
        0 <= i <= s.len(),
    ensures
        uint_value(s) >= uint_value(s.take(i)),
    decreases s.len(),
{
    if i == s.len() {
        assert(s.take(i) =~= s);
    } else {
        let dl = s.drop_last();
        assert(s.take(i) =~= dl.take(i));
        lemma_uint_prefix(dl, i);
    }
}

proof fn lemma_uint_upper(s: Seq<char>)
    requires
        digits_only(s),
    ensures
        uint_value(s) < pow10(s.len() as nat),
    decreases s.len(),
{
    if s.len() > 0 {
        let dl = s.drop_last();
        assert(digits_only(dl));
        lemma_uint_upper(dl);
        assert(char_digit_val(s.last()) <= 9);
    }
}

/// Parses `s` as an unsigned integer, as Rust's `parse` for unsigned types
/// does: an optional leading `+`, then one or more digits, rejecting values
/// above `max`.
fn parse_uint(s: &str, max: u64) -> (r: Option<u64>)
    ensures
        r is Some <==> uint_parse_ok(s@, max as nat),
        r is Some ==> r->Some_0 == uint_value(core_of(s@)),
{
    let n = s.unicode_len();
    let start: usize = if n > 0 && s.get_char(0) == '+' {
        1
    } else {
        0
    };
    let ghost core = core_of(s@);
    proof {
        assert(core =~= s@.subrange(start as int, n as int));
    }
    if start >= n {
        proof {
            assert(core.len() == 0);
        }
        return None;
    }
    let mut acc: u64 = 0;
    let mut i: usize = start;
    while i < n
        invariant
            start <= i <= n,
            n == s@.len(),
            core == core_of(s@),
            core =~= s@.subrange(start as int, n as int),
            digits_only(s@.subrange(start as int, i as int)),
            acc == uint_value(s@.subrange(start as int, i as int)),
            acc <= max,
        decreases n - i,
    {
        let c = s.get_char(i);
        let u = c as u32;
        if !(48 <= u && u <= 57) {
            proof {
                assert(!digit_char_p(core[i - start]));
            }
            return None;
        }
        let d = (u - 48) as u64;
        let ghost pre = s@.subrange(start as int, i as int);
        let ghost pre2 = s@.subrange(start as int, i + 1);
        proof {
            assert(pre2.drop_last() =~= pre);
            assert(uint_value(pre2) == uint_value(pre) * 10 + char_digit_val(s@[i as int]));
        }
        if acc > max / 10 || (acc == max / 10 && d > max % 10) {
            proof {
                assert(uint_value(pre2) > max);
                assert(pre2 =~= core.take(i + 1 - start));
                lemma_uint_prefix(core, i + 1 - start);
            }
            return None;
        }
        acc = acc * 10 + d;
        i = i + 1;
    }
    proof {
        assert(s@.subrange(start as int, n as int) =~= core);
    }
    Some(acc)
}

/// Writing a number in decimal and reading it back yields the number:
/// the digits are digits, and their value is the value written.
pub proof fn lemma_uint_value_round_trip(n: nat)
    ensures
        digits_only(crate::text::dec_digits(n)),
        uint_value(crate::text::dec_digits(n)) == n,
{
    lemma_uint_value_of_rec(n);
    if n == 0 {
        let s = crate::text::dec_digits(0);
        assert(s.drop_last() =~= Seq::<char>::empty());
        assert(uint_value(Seq::<char>::empty()) == 0);
        assert(s.last() == '0');
        assert(uint_value(s) == char_digit_val('0'));
    }
}

proof fn lemma_uint_value_of_rec(n: nat)
    ensures
        digits_only(crate::text::dec_rec(n)),
        n > 0 ==> uint_value(crate::text::dec_rec(n)) == n,
    decreases n,
{
    if n > 0 {
        lemma_uint_value_of_rec(n / 10);
        let s = crate::text::dec_rec(n);
        let d = crate::text::digit_char((n % 10) as u8);
        assert(s.drop_last() =~= crate::text::dec_rec(n / 10));
        assert(digit_char_p(d) && char_digit_val(d) == n % 10);
        assert(forall|k: int|
            0 <= k < s.len() - 1 ==> #[trigger] s[k] == crate::text::dec_rec(n / 10)[k]);
        if n / 10 == 0 {
            assert(crate::text::dec_rec(n / 10) =~= Seq::<char>::empty());
            assert(uint_value(Seq::<char>::empty()) == 0);
            assert(uint_value(s) == n % 10);
        } else {
            assert(uint_value(s) == (n / 10) * 10 + n % 10);
        }
        vstd::arithmetic::div_mod::lemma_fundamental_div_mod(n as int, 10);
    }
}

/// The index of the first decimal point, or the length when there is none.
pub open spec fn first_dot(s: Seq<char>) -> int
    decreases s.len(),
{
    if s.len() == 0 {
        0
    } else if s[0] == '.' {
        0
    } else {
        1 + first_dot(s.skip(1))
    }
}

/// The integer digits of a decimal literal.
pub open spec fn int_part(s: Seq<char>) -> Seq<char> {
    s.take(first_dot(s))
}

/// The fraction digits of a decimal literal, empty when there is no point.
pub open spec fn frac_part(s: Seq<char>) -> Seq<char> {
    if first_dot(s) < s.len() {
        s.skip(first_dot(s) + 1)
    } else {
        Seq::empty()
    }
}

/// The value of the fraction digits in billionths, keeping the first nine
/// digits.
pub open spec fn frac_nanos(s: Seq<char>) -> nat {
    if s.len() >= 9 {
        uint_value(s.take(9))
    } else {
        uint_value(s) * pow10((9 - s.len()) as nat)
    }
}

/// Whether the text parses as a decimal number in `[0, 1]`, and its value
/// in billionths.  The syntax is that of Rust's `f64` parsing restricted to
/// plain decimals: an optional `+`, digits, an optional point, more digits,
/// with at least one digit in all; fraction digits beyond the ninth do not
/// contribute to the value.
pub open spec fn proportion_syntax_ok(s: Seq<char>) -> bool {
    let core = core_of(s);
    &&& digits_only(int_part(core))
    &&& digits_only(frac_part(core))
    &&& int_part(core).len() + frac_part(core).len() > 0
}

/// The value of a decimal literal in billionths.
pub open spec fn proportion_nanos(s: Seq<char>) -> nat {
    let core = core_of(s);
    uint_value(int_part(core)) * 1_000_000_000 + frac_nanos(frac_part(core))
}

/// Whether the text is a proportion: a decimal number between 0 and 1.
pub open spec fn proportion_parse_ok(s: Seq<char>) -> bool {
    proportion_syntax_ok(s) && proportion_nanos(s) <= 1_000_000_000
}

proof fn lemma_first_dot_bounds(s: Seq<char>)
    ensures
        0 <= first_dot(s) <= s.len(),
        first_dot(s) < s.len() ==> s[first_dot(s)] == '.',
        forall|k: int| 0 <= k < first_dot(s) ==> s[k] != '.',
    decreases s.len(),
{
    if s.len() > 0 && s[0] != '.' {
        lemma_first_dot_bounds(s.skip(1));
        assert forall|k: int| 0 <= k < first_dot(s) implies s[k] != '.' by {
            if k > 0 {
                assert(s.skip(1)[k - 1] != '.');
            }
        }
    }
}

proof fn lemma_first_dot_lb(s: Seq<char>, j: int)
    requires
        0 <= j <= s.len(),
        forall|k: int| 0 <= k < j ==> s[k] != '.',
    ensures
        j <= first_dot(s) <= s.len(),
{
    lemma_first_dot_bounds(s);
    if first_dot(s) < j {
        assert(s[first_dot(s)] == '.');
    }
}

/// Parses `s` as a decimal proportion in `[0, 1]`, yielding billionths.
#[verifier::spinoff_prover]
fn parse_proportion(s: &str) -> (r: Option<u32>)
    ensures
        r is Some <==> proportion_parse_ok(s@),
        r is Some ==> r->Some_0 == proportion_nanos(s@),
{
    let n = s.unicode_len();
    let start: usize = if n > 0 && s.get_char(0) == '+' {
        1
    } else {
        0
    };
    let ghost core = core_of(s@);
    proof {
        assert(core =~= s@.subrange(start as int, n as int));
    }
    if start >= n {
        proof {
            assert(core.len() == 0);
            assert(int_part(core) =~= Seq::<char>::empty());
            assert(frac_part(core) =~= Seq::<char>::empty());
        }
        return None;
    }
    // Integer digits, up to the decimal point.
    let mut acc1: u64 = 0;
    let mut i: usize = start;
    let mut saw_dot = false;
    while i < n && !saw_dot
        invariant
            start <= i <= n,
            n == s@.len(),
            core == core_of(s@),
            core =~= s@.subrange(start as int, n as int),
            !saw_dot ==> forall|k: int| 0 <= k < i - start ==> core[k] != '.',
            !saw_dot ==> digits_only(core.take(i - start)),
            !saw_dot ==> acc1 == uint_value(core.take(i - start)),
            saw_dot ==> i > start,
            saw_dot ==> first_dot(core) == i - 1 - start,
            saw_dot ==> digits_only(int_part(core)),
            saw_dot ==> acc1 == uint_value(int_part(core)),
            acc1 <= 1,
        decreases n - i,
    {
        let c = s.get_char(i);
        let u = c as u32;
        if u == 46 {
            proof {
                lemma_first_dot_at(core, i - start);
                assert(int_part(core) =~= core.take(i - start));
            }
            saw_dot = true;
            i = i + 1;
        } else if !(48 <= u && u <= 57) {
            proof {
                lemma_first_dot_lb(core, i + 1 - start);
                assert(int_part(core)[i - start] == core[i - start]);
                assert(!digit_char_p(int_part(core)[i - start]));
            }
            return None;
        } else {
            let d = (u - 48) as u64;
            let ghost pre = core.take(i - start);
            let ghost pre2 = core.take(i + 1 - start);
            proof {
                assert(pre2.drop_last() =~= pre);
                assert(uint_value(pre2) == uint_value(pre) * 10 + char_digit_val(core[i - start]));
            }
            if acc1 > 0 || d > 1 {
                proof {
                    assert(uint_value(pre2) > 1);
                    lemma_first_dot_lb(core, i + 1 - start);
                    assert(pre2 =~= int_part(core).take(i + 1 - start));
                    lemma_uint_prefix(int_part(core), i + 1 - start);
                    assert(uint_value(int_part(core)) >= 2);
                }
                return None;
            }
            acc1 = acc1 * 10 + d;
            i = i + 1;
        }
    }
    let ghost ip = int_part(core);
    let ghost fp = frac_part(core);
    if !saw_dot {
        proof {
            lemma_first_dot_at(core, n as int - start);
            assert(ip =~= core.take(n as int - start));
            assert(ip =~= core);
            assert(fp =~= Seq::<char>::empty());
        }
        if i == start {
            return None;
        }
        let total: u64 = acc1 * 1_000_000_000;
        proof {
            assert(uint_value(Seq::<char>::empty()) == 0);
        }
        if total > 1_000_000_000 {
            return None;
        }
        return Some(total as u32);
    }
    // Fraction digits; only the first nine contribute to the value.
    let ghost di = i as int - 1;
    proof {
        assert(fp =~= core.skip(di - start + 1));
    }
    let mut acc2: u32 = 0;
    let mut k: usize = 0;
    let mut j: usize = i;
    while j < n
        invariant
            i <= j <= n,
            n == s@.len(),
            core == core_of(s@),
            core =~= s@.subrange(start as int, n as int),
            start <= di < i <= n,
            i == di + 1,
            fp == frac_part(core),
            fp =~= core.skip(di - start + 1),
            digits_only(fp.take(j - i)),
            k == if j - i <= 9 {
                j - i
            } else {
                9int
            },
            acc2 == uint_value(fp.take(k as int)),
            acc2 < pow10(k as nat),
            k <= 9,
        decreases n - j,
    {
        let c = s.get_char(j);
        let u = c as u32;
        if !(48 <= u && u <= 57) {
            proof {
                assert(fp[j - i] == core[j as int - start]);
                assert(!digit_char_p(fp.take(j - i + 1)[j - i]));
            }
            return None;
        }
        let d = (u - 48) as u32;
        proof {
            assert(fp.take(j - i + 1).drop_last() =~= fp.take(j - i));
        }
        if k < 9 {
            proof {
                assert(pow10(k as nat) <= pow10(8)) by {
                    lemma_pow10_mono(k as nat, 8);
                }
                lemma_pow10_value();
                assert(fp.take(k as int) =~= fp.take(j - i));
                assert(uint_value(fp.take(j - i + 1)) == uint_value(fp.take(j - i)) * 10
                    + char_digit_val(fp[j - i]));
                assert(pow10((k + 1) as nat) == 10 * pow10(k as nat));
            }
            acc2 = acc2 * 10 + d;
            k = k + 1;
        } else {
            proof {
                assert(fp.take(k as int) =~= fp.take(9));
            }
        }
        j = j + 1;
    }
    proof {
        assert(fp.take(n as int - i) =~= fp);
        assert(digits_only(fp));
        if fp.len() >= 9 {
            assert(k == 9);
            assert(acc2 == frac_nanos(fp));
        }
    }
    // Pad a short fraction out to nine digits.
    let ghost flen = fp.len();
    proof {
        if flen < 9 {
            assert(flen == n - i);
            assert(k == flen);
            assert(fp.take(k as int) =~= fp);
            assert(acc2 == uint_value(fp));
            assert((k - flen) as nat == 0);
            assert(pow10((k - flen) as nat) == 1);
            assert(acc2 == uint_value(fp) * pow10((k - flen) as nat));
        }
    }
    while k < 9
        invariant
            k <= 9,
            flen == fp.len(),
            flen < 9 ==> flen <= k && acc2 == uint_value(fp) * pow10((k - flen) as nat),
            flen >= 9 ==> k == 9 && acc2 == frac_nanos(fp),
            acc2 < pow10(k as nat),
        decreases 9 - k,
    {
        proof {
            assert(pow10(k as nat) <= pow10(8)) by {
                lemma_pow10_mono(k as nat, 8);
            }
            lemma_pow10_value();
            assert(pow10((k + 1) as nat) == 10 * pow10(k as nat));
            if flen < 9 {
                assert(pow10((k + 1 - flen) as nat) == 10 * pow10((k - flen) as nat));
                assert(uint_value(fp) * pow10((k - flen) as nat) * 10 == uint_value(fp) * (pow10(
                    (k - flen) as nat,
                ) * 10)) by (nonlinear_arith);
            }
        }
        acc2 = acc2 * 10;
        k = k + 1;
    }
    proof {
        lemma_pow10_value();
        assert(acc2 == frac_nanos(fp));
    }
    if i == start + 1 && i >= n {
        // A bare point with no digits on either side of it.
        proof {
            assert(ip.len() == 0 && fp.len() == 0);
        }
        return None;
    }
    proof {
        assert(ip.len() + fp.len() > 0);
    }
    let total: u64 = acc1 * 1_000_000_000 + acc2 as u64;
    if total > 1_000_000_000 {
        return None;
    }
    Some(total as u32)
}

proof fn lemma_pow10_value()
    ensures
        pow10(8) == 100_000_000,
        pow10(9) == 1_000_000_000,
{
    reveal_with_fuel(pow10, 11);
}

proof fn lemma_pow10_mono(a: nat, b: nat)
    requires
        a <= b,
    ensures
        pow10(a) <= pow10(b),
    decreases b,
{
    if a < b {
        lemma_pow10_mono(a, (b - 1) as nat);
        assert(pow10(b) == 10 * pow10((b - 1) as nat));
    }
}

proof fn lemma_first_dot_at(s: Seq<char>, j: int)
    requires
        0 <= j <= s.len(),
        forall|k: int| 0 <= k < j ==> s[k] != '.',
        j < s.len() ==> s[j] == '.',
    ensures
        first_dot(s) == j,
    decreases s.len(),
{
    if s.len() > 0 && s[0] != '.' {
        lemma_first_dot_at(s.skip(1), j - 1);
    }
}

// ---------------------------------------------------------------------------
// Token expectations
// ---------------------------------------------------------------------------
/// The text wrapped in double quotes.
pub open spec fn quote_text(x: Seq<char>) -> Seq<char> {
    "\""@ + x + "\""@
}

/// The quoted alternatives joined with ` or `.
pub open spec fn join_expected(xs: Seq<Seq<char>>) -> Seq<char>
    decreases xs.len(),
{
    if xs.len() == 0 {
        Seq::empty()
    } else if xs.len() == 1 {
        quote_text(xs[0])
    } else {
        join_expected(xs.drop_last()) + " or "@ + quote_text(xs.last())
    }
}

/// The views of the expected token texts.
pub open spec fn views_of(es: Seq<&str>) -> Seq<Seq<char>> {
    es.map(|_i: int, e: &str| e@)
}

/// An error of the shape `{lead}{token display}.`.
pub open spec fn found_error_at(lead: Seq<char>, text: Seq<char>, line: u32, column: u32) -> Seq<
    char,
> {
    lead + crate::compiler::lexer::token_display_spec(text, line, column) + "."@
}

/// The same error, read off a token value.
pub open spec fn found_error_spec(lead: Seq<char>, t: Token) -> Seq<char> {
    found_error_at(lead, t.str@, t.line, t.column)
}

/// The message given when none of the expected tokens was found.
pub open spec fn expect_error_spec(xs: Seq<Seq<char>>, t: Token) -> Seq<char> {
    found_error_spec("Expected "@ + join_expected(xs) + ", found "@, t)
}

/// The token read by one lexer step from position `p0` to `p1`.
pub open spec fn token_read(src: Seq<u8>, p0: int, tok: Token, p1: int) -> bool {
    crate::compiler::lexer::next_token_post(src, p0, Ok(tok), p1)
}

/// The lexer failed in one step from position `p0` to `p1` with message `m`.
pub open spec fn lexer_failed(src: Seq<u8>, p0: int, m: Seq<char>, p1: int) -> bool {
    exists|e: String|
        #![auto]
        e@ == m && crate::compiler::lexer::next_token_post(src, p0, Err(e), p1)
}

fn found_message(lead: &str, t: &Token) -> (m: String)
    ensures
        m@ == found_error_spec(lead@, *t),
{
    let mut m = String::new();
    m.append(lead);
    let d = t.display_string();
    m.append(d.as_str());
    m.append(".");
    m
}

/// Returns the next token if it is one of the expected tokens, or raises an
/// error naming the alternatives.
fn expect(lexer: &mut Lexer, expected: Vec<&str>) -> (r: Result<String, String>)
    requires
        old(lexer).wf(),
        forall|i: int| 0 <= i < expected@.len() ==> (#[trigger] expected@[i])@.len() > 0,
    ensures
        final(lexer).wf(),
        final(lexer).bytes() == old(lexer).bytes(),
        old(lexer).at() <= final(lexer).at() <= final(lexer).bytes().len(),
        r is Ok ==> final(lexer).at() > old(lexer).at(),
        r is Ok ==> exists|tok: Token, i: int|
            #![auto]
            token_read(old(lexer).bytes(), old(lexer).at(), tok, final(lexer).at()) && r->Ok_0@
                == tok.str@ && 0 <= i < expected@.len() && tok.str@ == expected@[i]@,
        r is Err ==> lexer_failed(old(lexer).bytes(), old(lexer).at(), r->Err_0@, final(lexer).at())
            || exists|tok: Token|
            #![auto]
            token_read(old(lexer).bytes(), old(lexer).at(), tok, final(lexer).at()) && (forall|
                i: int,
            |
                0 <= i < expected@.len() ==> tok.str@ != (#[trigger] expected@[i])@) && r->Err_0@
                == expect_error_spec(views_of(expected@), tok),        ({
            let sp = sp_expect(old(lexer).bytes(), old(lexer).at(), views_of(expected@));
            &&& (r is Ok <==> sp is Done)
            &&& r is Ok ==> sp == PStep::Done(r->Ok_0@, final(lexer).at() as int)
            &&& r is Err ==> (sp matches PStep::Fault(m) && m == r->Err_0@)
        }),
{
    proof {
        reveal(sp_expect);
    }
    let ghost src = old(lexer).bytes();
    let ghost p0 = old(lexer).at();
    let ghost src0 = old(lexer).bytes();
    let ghost pp0 = old(lexer).at();
    proof {
        lexer.lemma_wf_bounds();
    }
    let token = match lexer.get_next_token() {
        Ok(t) => t,
        Err(e) => {
            proof {
                crate::compiler::lexer::lemma_next_token_fun(
                    src0,
                    pp0,
                    Err(e),
                    lexer.at(),
                );
            }
            return Err(e);
        },
    };
    proof {
        assert(token_read(src0, pp0, token, lexer.at()));
        crate::compiler::lexer::lemma_next_token_fun(src0, pp0, Ok(token), lexer.at());
    }
    let mut sentence = String::new();
    let n = expected.len();
    let mut i: usize = 0;
    while i < n
        invariant
            i <= n,
            n == expected@.len(),
            lexer.wf(),
            lexer.bytes() == src,
            src == old(lexer).bytes(),
            p0 == old(lexer).at(),
            0 <= p0,
            p0 <= lexer.at() <= src.len(),
            token_read(src, p0, token, lexer.at()),
            token.str@.len() > 0 ==> lexer.at() > p0,
            forall|k: int| 0 <= k < n ==> (#[trigger] expected@[k])@.len() > 0,
            sentence@ == join_expected(views_of(expected@).take(i as int)),
            forall|k: int| 0 <= k < i ==> token.str@ != (#[trigger] expected@[k])@,
        decreases n - i,
    {
        if str_eq_str(token.str.as_str(), expected[i]) {
            proof {
                reveal(sp_expect);
                assert(token.str@.len() > 0);
                crate::compiler::lexer::lemma_next_token_fun(src, p0, Ok(token), lexer.at());
                let sp = sp_expect(src, p0, views_of(expected@));
                assert(views_of(expected@)[i as int] == token.str@);
                assert(sp == PStep::Done(token.str@, lexer.at() as int));
            }
            return Ok(token.str);
        }
        if i != 0 {
            sentence.append(" or ");
        }
        sentence.append("\"");
        sentence.append(expected[i]);
        sentence.append("\"");
        proof {
            let vs = views_of(expected@);
            assert(vs.take(i + 1).drop_last() =~= vs.take(i as int));
            assert(vs.take(i + 1).last() == vs[i as int]);
            if i == 0 {
                assert(sentence@ =~= quote_text(vs[0]));
            } else {
                assert(sentence@ =~= join_expected(vs.take(i as int)) + " or "@ + quote_text(
                    vs[i as int],
                ));
            }
        }
        i = i + 1;
    }
    proof {
        assert(views_of(expected@).take(n as int) =~= views_of(expected@));
    }
    let mut m = String::new();
    m.append("Expected ");
    m.append(sentence.as_str());
    m.append(", found ");
    let d = token.display_string();
    m.append(d.as_str());
    m.append(".");
    proof {
        assert(m@ =~= expect_error_spec(views_of(expected@), token));
        assert(token_read(src, p0, token, lexer.at()) && (forall|i: int|
            0 <= i < expected@.len() ==> token.str@ != (#[trigger] expected@[i])@) && m@
            == expect_error_spec(views_of(expected@), token));
    }
    Err(m)
}

/// The comparison operator a token stands for, if any.
pub open spec fn comparison_of(s: Seq<char>) -> Option<ComparisonOperator> {
    if s == "<"@ {
        Some(ComparisonOperator::Lesser)
    } else if s == ">"@ {
        Some(ComparisonOperator::Greater)
    } else if s == "<="@ {
        Some(ComparisonOperator::LesserOrEqual)
    } else if s == ">="@ {
        Some(ComparisonOperator::GreaterOrEqual)
    } else if s == "=="@ {
        Some(ComparisonOperator::Equal)
    } else if s == "!="@ {
        Some(ComparisonOperator::Different)
    } else {
        None
    }
}

/// Returns the next token if it is an alphanumeric identifier, or raises an
/// error.
fn expect_identifier(lexer: &mut Lexer) -> (r: Result<String, String>)
    requires
        old(lexer).wf(),
    ensures
        final(lexer).wf(),
        final(lexer).bytes() == old(lexer).bytes(),
        old(lexer).at() <= final(lexer).at() <= final(lexer).bytes().len(),
        r is Ok ==> final(lexer).at() > old(lexer).at(),
        r is Ok ==> is_identifier_text(r->Ok_0@),
        r is Ok ==> exists|tok: Token|
            #![auto]
            token_read(old(lexer).bytes(), old(lexer).at(), tok, final(lexer).at()) && r->Ok_0@
                == tok.str@,
        r is Err ==> lexer_failed(old(lexer).bytes(), old(lexer).at(), r->Err_0@, final(lexer).at())
            || exists|tok: Token|
            #![auto]
            token_read(old(lexer).bytes(), old(lexer).at(), tok, final(lexer).at())
                && !is_identifier_text(tok.str@) && r->Err_0@ == found_error_spec(
                "Expected an alphanumeric identifier, found "@,
                tok,
            ),        ({
            let sp = sp_identifier(old(lexer).bytes(), old(lexer).at());
            &&& (r is Ok <==> sp is Done)
            &&& r is Ok ==> sp == PStep::Done(r->Ok_0@, final(lexer).at() as int)
            &&& r is Err ==> (sp matches PStep::Fault(m) && m == r->Err_0@)
        }),
{
    proof {
        reveal(sp_identifier);
    }
    let ghost src0 = old(lexer).bytes();
    let ghost pp0 = old(lexer).at();
    proof {
        lexer.lemma_wf_bounds();
    }
    let token = match lexer.get_next_token() {
        Ok(t) => t,
        Err(e) => {
            proof {
                crate::compiler::lexer::lemma_next_token_fun(
                    src0,
                    pp0,
                    Err(e),
                    lexer.at(),
                );
            }
            return Err(e);
        },
    };
    proof {
        assert(token_read(src0, pp0, token, lexer.at()));
        crate::compiler::lexer::lemma_next_token_fun(src0, pp0, Ok(token), lexer.at());
    }
    if is_identifier(&token) {
        proof {
            if token.str@.len() == 0 {
                assert(forall|k: int|
                    0 <= k < token.str@.len() ==> digit_char_p(token.str@[k]));
            }
        }
        Ok(token.str)
    } else {
        Err(found_message("Expected an alphanumeric identifier, found ", &token))
    }
}

/// Returns the next token as an integer between 0 and 255, or raises an
/// error.
fn expect_u8(lexer: &mut Lexer) -> (r: Result<u8, String>)
    requires
        old(lexer).wf(),
    ensures
        final(lexer).wf(),
        final(lexer).bytes() == old(lexer).bytes(),
        old(lexer).at() <= final(lexer).at() <= final(lexer).bytes().len(),
        r is Ok ==> final(lexer).at() > old(lexer).at(),
        r is Ok ==> exists|tok: Token|
            #![auto]
            token_read(old(lexer).bytes(), old(lexer).at(), tok, final(lexer).at())
                && uint_parse_ok(tok.str@, 255) && r->Ok_0 == uint_value(core_of(tok.str@)),
        r is Err ==> lexer_failed(old(lexer).bytes(), old(lexer).at(), r->Err_0@, final(lexer).at())
            || exists|tok: Token|
            #![auto]
            token_read(old(lexer).bytes(), old(lexer).at(), tok, final(lexer).at())
                && !uint_parse_ok(tok.str@, 255) && r->Err_0@ == found_error_spec(
                "Expected an integer between 0 and 255, found "@,
                tok,
            ),        ({
            let sp = sp_u8(old(lexer).bytes(), old(lexer).at());
            &&& (r is Ok <==> sp is Done)
            &&& r is Ok ==> sp == PStep::Done(r->Ok_0, final(lexer).at() as int)
            &&& r is Err ==> (sp matches PStep::Fault(m) && m == r->Err_0@)
        }),
{
    proof {
        reveal(sp_u8);
    }
    let ghost src0 = old(lexer).bytes();
    let ghost pp0 = old(lexer).at();
    proof {
        lexer.lemma_wf_bounds();
    }
    let token = match lexer.get_next_token() {
        Ok(t) => t,
        Err(e) => {
            proof {
                crate::compiler::lexer::lemma_next_token_fun(
                    src0,
                    pp0,
                    Err(e),
                    lexer.at(),
                );
            }
            return Err(e);
        },
    };
    proof {
        assert(token_read(src0, pp0, token, lexer.at()));
        crate::compiler::lexer::lemma_next_token_fun(src0, pp0, Ok(token), lexer.at());
    }
    match parse_uint(token.str.as_str(), 255) {
        Some(v) => {
            proof {
                assert(token.str@.len() > 0);
            }
            Ok(v as u8)
        },
        None => Err(found_message("Expected an integer between 0 and 255, found ", &token)),
    }
}

/// Returns the next token as an integer between 0 and 8, or raises an
/// error.
fn expect_neighbor_number(lexer: &mut Lexer) -> (r: Result<u8, String>)
    requires
        old(lexer).wf(),
    ensures
        final(lexer).wf(),
        final(lexer).bytes() == old(lexer).bytes(),
        old(lexer).at() <= final(lexer).at() <= final(lexer).bytes().len(),
        r is Ok ==> final(lexer).at() > old(lexer).at(),
        r is Ok ==> r->Ok_0 <= 8,
        r is Ok ==> exists|tok: Token|
            #![auto]
            token_read(old(lexer).bytes(), old(lexer).at(), tok, final(lexer).at())
                && uint_parse_ok(tok.str@, 8) && r->Ok_0 == uint_value(core_of(tok.str@)),
        r is Err ==> lexer_failed(old(lexer).bytes(), old(lexer).at(), r->Err_0@, final(lexer).at())
            || exists|tok: Token|
            #![auto]
            token_read(old(lexer).bytes(), old(lexer).at(), tok, final(lexer).at())
                && !uint_parse_ok(tok.str@, 8) && r->Err_0@ == found_error_spec(
                "Expected an integer between 0 and 8, found "@,
                tok,
            ),        ({
            let sp = sp_neighbor_number(old(lexer).bytes(), old(lexer).at());
            &&& (r is Ok <==> sp is Done)
            &&& r is Ok ==> sp == PStep::Done(r->Ok_0, final(lexer).at() as int)
            &&& r is Err ==> (sp matches PStep::Fault(m) && m == r->Err_0@)
        }),
{
    proof {
        reveal(sp_neighbor_number);
    }
    let ghost src0 = old(lexer).bytes();
    let ghost pp0 = old(lexer).at();
    proof {
        lexer.lemma_wf_bounds();
    }
    let token = match lexer.get_next_token() {
        Ok(t) => t,
        Err(e) => {
            proof {
                crate::compiler::lexer::lemma_next_token_fun(
                    src0,
                    pp0,
                    Err(e),
                    lexer.at(),
                );
            }
            return Err(e);
        },
    };
    proof {
        assert(token_read(src0, pp0, token, lexer.at()));
        crate::compiler::lexer::lemma_next_token_fun(src0, pp0, Ok(token), lexer.at());
    }
    match parse_uint(token.str.as_str(), 8) {
        Some(v) => {
            proof {
                assert(token.str@.len() > 0);
            }
            Ok(v as u8)
        },
        None => Err(found_message("Expected an integer between 0 and 8, found ", &token)),
    }
}

/// Returns the next token as an unsigned integer, or raises an error.
fn expect_usize(lexer: &mut Lexer) -> (r: Result<usize, String>)
    requires
        old(lexer).wf(),
    ensures
        final(lexer).wf(),
        final(lexer).bytes() == old(lexer).bytes(),
        old(lexer).at() <= final(lexer).at() <= final(lexer).bytes().len(),
        r is Ok ==> final(lexer).at() > old(lexer).at(),
        r is Ok ==> exists|tok: Token|
            #![auto]
            token_read(old(lexer).bytes(), old(lexer).at(), tok, final(lexer).at())
                && uint_parse_ok(tok.str@, usize::MAX as nat) && r->Ok_0 == uint_value(
                core_of(tok.str@),
            ),
        r is Err ==> lexer_failed(old(lexer).bytes(), old(lexer).at(), r->Err_0@, final(lexer).at())
            || exists|tok: Token|
            #![auto]
            token_read(old(lexer).bytes(), old(lexer).at(), tok, final(lexer).at())
                && !uint_parse_ok(tok.str@, usize::MAX as nat) && r->Err_0@ == found_error_spec(
                "Expected an unsigned integer, found "@,
                tok,
            ),        ({
            let sp = sp_usize(old(lexer).bytes(), old(lexer).at());
            &&& (r is Ok <==> sp is Done)
            &&& r is Ok ==> sp == PStep::Done(r->Ok_0, final(lexer).at() as int)
            &&& r is Err ==> (sp matches PStep::Fault(m) && m == r->Err_0@)
        }),
{
    proof {
        reveal(sp_usize);
    }
    let ghost src0 = old(lexer).bytes();
    let ghost pp0 = old(lexer).at();
    proof {
        lexer.lemma_wf_bounds();
    }
    let token = match lexer.get_next_token() {
        Ok(t) => t,
        Err(e) => {
            proof {
                crate::compiler::lexer::lemma_next_token_fun(
                    src0,
                    pp0,
                    Err(e),
                    lexer.at(),
                );
            }
            return Err(e);
        },
    };
    proof {
        assert(token_read(src0, pp0, token, lexer.at()));
        crate::compiler::lexer::lemma_next_token_fun(src0, pp0, Ok(token), lexer.at());
    }
    match parse_uint(token.str.as_str(), usize::MAX as u64) {
        Some(v) => {
            proof {
                assert(token.str@.len() > 0);
            }
            Ok(v as usize)
        },
        None => Err(found_message("Expected an unsigned integer, found ", &token)),
    }
}

/// Returns the next token as a proportion in billionths, or raises an
/// error.
fn expect_proportion(lexer: &mut Lexer) -> (r: Result<u32, String>)
    requires
        old(lexer).wf(),
    ensures
        final(lexer).wf(),
        final(lexer).bytes() == old(lexer).bytes(),
        old(lexer).at() <= final(lexer).at() <= final(lexer).bytes().len(),
        r is Ok ==> final(lexer).at() > old(lexer).at(),
        r is Ok ==> r->Ok_0 <= 1_000_000_000,
        r is Ok ==> exists|tok: Token|
            #![auto]
            token_read(old(lexer).bytes(), old(lexer).at(), tok, final(lexer).at())
                && proportion_parse_ok(tok.str@) && r->Ok_0 == proportion_nanos(tok.str@),
        r is Err ==> lexer_failed(old(lexer).bytes(), old(lexer).at(), r->Err_0@, final(lexer).at())
            || exists|tok: Token|
            #![auto]
            token_read(old(lexer).bytes(), old(lexer).at(), tok, final(lexer).at())
                && !proportion_parse_ok(tok.str@) && r->Err_0@ == found_error_spec(
                "Expected a floating number between 0 and 1, found "@,
                tok,
            ),        ({
            let sp = sp_proportion(old(lexer).bytes(), old(lexer).at());
            &&& (r is Ok <==> sp is Done)
            &&& r is Ok ==> sp == PStep::Done(r->Ok_0, final(lexer).at() as int)
            &&& r is Err ==> (sp matches PStep::Fault(m) && m == r->Err_0@)
        }),
{
    proof {
        reveal(sp_proportion);
    }
    let ghost src0 = old(lexer).bytes();
    let ghost pp0 = old(lexer).at();
    proof {
        lexer.lemma_wf_bounds();
    }
    let token = match lexer.get_next_token() {
        Ok(t) => t,
        Err(e) => {
            proof {
                crate::compiler::lexer::lemma_next_token_fun(
                    src0,
                    pp0,
                    Err(e),
                    lexer.at(),
                );
            }
            return Err(e);
        },
    };
    proof {
        assert(token_read(src0, pp0, token, lexer.at()));
        crate::compiler::lexer::lemma_next_token_fun(src0, pp0, Ok(token), lexer.at());
    }
    match parse_proportion(token.str.as_str()) {
        Some(v) => {
            proof {
                let s = token.str@;
                let core = core_of(s);
                if s.len() == 0 {
                    assert(int_part(core).len() + frac_part(core).len() == 0);
                }
            }
            Ok(v)
        },
        None => Err(
            found_message("Expected a floating number between 0 and 1, found ", &token),
        ),
    }
}

/// Returns a comparison operator if the next token represents one, or
/// raises an error.
fn expect_comparison_operator(lexer: &mut Lexer) -> (r: Result<ComparisonOperator, String>)
    requires
        old(lexer).wf(),
    ensures
        final(lexer).wf(),
        final(lexer).bytes() == old(lexer).bytes(),
        old(lexer).at() <= final(lexer).at() <= final(lexer).bytes().len(),
        r is Ok ==> final(lexer).at() > old(lexer).at(),
        r is Ok ==> exists|tok: Token|
            #![auto]
            token_read(old(lexer).bytes(), old(lexer).at(), tok, final(lexer).at())
                && comparison_of(tok.str@) == Some(r->Ok_0),
        r is Err ==> lexer_failed(old(lexer).bytes(), old(lexer).at(), r->Err_0@, final(lexer).at())
            || exists|tok: Token|
            #![auto]
            token_read(old(lexer).bytes(), old(lexer).at(), tok, final(lexer).at())
                && comparison_of(tok.str@) is None && r->Err_0@ == found_error_spec(
                "Expected one of \"<\", \">\", \"<=\", \">=\", \"==\", or \"!=\" tokens, found "@,
                tok,
            ),        ({
            let sp = sp_comparison(old(lexer).bytes(), old(lexer).at());
            &&& (r is Ok <==> sp is Done)
            &&& r is Ok ==> sp == PStep::Done(r->Ok_0, final(lexer).at() as int)
            &&& r is Err ==> (sp matches PStep::Fault(m) && m == r->Err_0@)
        }),
{
    proof {
        reveal(sp_comparison);
    }
    let ghost src0 = old(lexer).bytes();
    let ghost pp0 = old(lexer).at();
    proof {
        lexer.lemma_wf_bounds();
    }
    let token = match lexer.get_next_token() {
        Ok(t) => t,
        Err(e) => {
            proof {
                crate::compiler::lexer::lemma_next_token_fun(
                    src0,
                    pp0,
                    Err(e),
                    lexer.at(),
                );
            }
            return Err(e);
        },
    };
    proof {
        assert(token_read(src0, pp0, token, lexer.at()));
        crate::compiler::lexer::lemma_next_token_fun(src0, pp0, Ok(token), lexer.at());
    }
    proof {
        reveal_strlit("<");
        reveal_strlit(">");
        reveal_strlit("<=");
        reveal_strlit(">=");
        reveal_strlit("==");
        reveal_strlit("!=");
    }
    let s = token.str.as_str();
    if str_eq_str(s, "<") {
        Ok(ComparisonOperator::Lesser)
    } else if str_eq_str(s, ">") {
        Ok(ComparisonOperator::Greater)
    } else if str_eq_str(s, "<=") {
        Ok(ComparisonOperator::LesserOrEqual)
    } else if str_eq_str(s, ">=") {
        Ok(ComparisonOperator::GreaterOrEqual)
    } else if str_eq_str(s, "==") {
        Ok(ComparisonOperator::Equal)
    } else if str_eq_str(s, "!=") {
        Ok(ComparisonOperator::Different)
    } else {
        Err(
            found_message(
                "Expected one of \"<\", \">\", \"<=\", \">=\", \"==\", or \"!=\" tokens, found ",
                &token,
            ),
        )
    }
}

// ---------------------------------------------------------------------------
// The syntax tree and the parse, as plain values
// ---------------------------------------------------------------------------
/// The state chain with names as plain character sequences.
pub enum StateNodeV {
    StateV(Seq<char>, u8, u8, u8, StateDistV),
    NextV(TransitionNodeV),
}

/// A distribution clause over the plain state chain.
pub enum StateDistV {
    ProportionV(u32, Box<StateNodeV>),
    QuantityV(usize, Box<StateNodeV>),
    DefaultV(Box<StateNodeV>),
}

/// A transition over plain names.
pub enum TransitionNodeV {
    TransitionV(Seq<char>, Seq<char>, Option<usize>, Box<ConditionNodeV>),
    EndV,
}

/// A condition over plain names.
pub enum ConditionNodeV {
    QuantityCondV(Seq<char>, ComparisonOperator, u8, NextCondV),
    NeighborCondV(NeighborCell, Seq<char>, NextCondV),
    RandomCondV(u32, NextCondV),
    TrueV(NextCondV),
}

/// A condition's continuation over plain names.
pub enum NextCondV {
    NextConditionV(BooleanOperator, Box<ConditionNodeV>),
    NextTransitionV(Box<TransitionNodeV>),
}

/// The plain-value view of a state chain.
pub open spec fn state_node_view(n: StateNode) -> StateNodeV
    decreases n,
{
    match n {
        StateNode::State(name, r, g, b, d) => StateNodeV::StateV(name@, r, g, b, dist_node_view(d)),
        StateNode::Next(t) => StateNodeV::NextV(transition_node_view(t)),
    }
}

/// The plain-value view of a distribution clause.
pub open spec fn dist_node_view(d: StateDistributionNode) -> StateDistV
    decreases d,
{
    match d {
        StateDistributionNode::Proportion(pr, nx) => StateDistV::ProportionV(
            pr,
            Box::new(state_node_view(*nx)),
        ),
        StateDistributionNode::Quantity(q, nx) => StateDistV::QuantityV(
            q,
            Box::new(state_node_view(*nx)),
        ),
        StateDistributionNode::Default(nx) => StateDistV::DefaultV(Box::new(state_node_view(*nx))),
    }
}

/// The plain-value view of a transition chain.
pub open spec fn transition_node_view(t: TransitionNode) -> TransitionNodeV
    decreases t,
{
    match t {
        TransitionNode::Transition(o, d, delay, c) => TransitionNodeV::TransitionV(
            o@,
            d@,
            delay,
            Box::new(condition_node_view(*c)),
        ),
        TransitionNode::End => TransitionNodeV::EndV,
    }
}

/// The plain-value view of a condition chain.
pub open spec fn condition_node_view(c: ConditionNode) -> ConditionNodeV
    decreases c,
{
    match c {
        ConditionNode::QuantityCondition(name, op, q, next) => ConditionNodeV::QuantityCondV(
            name@,
            op,
            q,
            next_condition_view(next),
        ),
        ConditionNode::NeighborCondition(cell, name, next) => ConditionNodeV::NeighborCondV(
            cell,
            name@,
            next_condition_view(next),
        ),
        ConditionNode::RandomCondition(pr, next) => ConditionNodeV::RandomCondV(
            pr,
            next_condition_view(next),
        ),
        ConditionNode::True(next) => ConditionNodeV::TrueV(next_condition_view(next)),
    }
}

/// The plain-value view of a condition continuation.
pub open spec fn next_condition_view(n: NextConditionNode) -> NextCondV
    decreases n,
{
    match n {
        NextConditionNode::NextCondition(op, c2) => NextCondV::NextConditionV(
            op,
            Box::new(condition_node_view(*c2)),
        ),
        NextConditionNode::NextTransition(t) => NextCondV::NextTransitionV(
            Box::new(transition_node_view(*t)),
        ),
    }
}

/// One step of the specified parse: a value and the position after it, or
/// the message the parse stops with.
pub enum PStep<T> {
    Done(T, int),
    Fault(Seq<char>),
}

/// What expecting one of the given tokens at `p` yields.
#[verifier::opaque]
pub open spec fn sp_expect(src: Seq<u8>, p: int, xs: Seq<Seq<char>>) -> PStep<Seq<char>> {
    let t = crate::compiler::lexer::tok(src, p);
    if !t.ok {
        PStep::Fault(t.err)
    } else if exists|i: int| 0 <= i < xs.len() && xs[i] == t.text {
        PStep::Done(t.text, t.next)
    } else {
        PStep::Fault(
            found_error_at(
                "Expected "@ + join_expected(xs) + ", found "@,
                t.text,
                t.line as u32,
                t.col as u32,
            ),
        )
    }
}

/// What expecting an identifier at `p` yields.
#[verifier::opaque]
pub open spec fn sp_identifier(src: Seq<u8>, p: int) -> PStep<Seq<char>> {
    let t = crate::compiler::lexer::tok(src, p);
    if !t.ok {
        PStep::Fault(t.err)
    } else if is_identifier_text(t.text) {
        PStep::Done(t.text, t.next)
    } else {
        PStep::Fault(
            found_error_at(
                "Expected an alphanumeric identifier, found "@,
                t.text,
                t.line as u32,
                t.col as u32,
            ),
        )
    }
}

/// What expecting an integer up to 255 at `p` yields.
#[verifier::opaque]
pub open spec fn sp_u8(src: Seq<u8>, p: int) -> PStep<u8> {
    let t = crate::compiler::lexer::tok(src, p);
    if !t.ok {
        PStep::Fault(t.err)
    } else if uint_parse_ok(t.text, 255) {
        PStep::Done(uint_value(core_of(t.text)) as u8, t.next)
    } else {
        PStep::Fault(
            found_error_at(
                "Expected an integer between 0 and 255, found "@,
                t.text,
                t.line as u32,
                t.col as u32,
            ),
        )
    }
}

/// What expecting a neighbor count up to 8 at `p` yields.
#[verifier::opaque]
pub open spec fn sp_neighbor_number(src: Seq<u8>, p: int) -> PStep<u8> {
    let t = crate::compiler::lexer::tok(src, p);
    if !t.ok {
        PStep::Fault(t.err)
    } else if uint_parse_ok(t.text, 8) {
        PStep::Done(uint_value(core_of(t.text)) as u8, t.next)
    } else {
        PStep::Fault(
            found_error_at(
                "Expected an integer between 0 and 8, found "@,
                t.text,
                t.line as u32,
                t.col as u32,
            ),
        )
    }
}

/// What expecting an unsigned integer at `p` yields.
#[verifier::opaque]
pub open spec fn sp_usize(src: Seq<u8>, p: int) -> PStep<usize> {
    let t = crate::compiler::lexer::tok(src, p);
    if !t.ok {
        PStep::Fault(t.err)
    } else if uint_parse_ok(t.text, usize::MAX as nat) {
        PStep::Done(uint_value(core_of(t.text)) as usize, t.next)
    } else {
        PStep::Fault(
            found_error_at(
                "Expected an unsigned integer, found "@,
                t.text,
                t.line as u32,
                t.col as u32,
            ),
        )
    }
}

/// What expecting a proportion at `p` yields, in billionths.
#[verifier::opaque]
pub open spec fn sp_proportion(src: Seq<u8>, p: int) -> PStep<u32> {
    let t = crate::compiler::lexer::tok(src, p);
    if !t.ok {
        PStep::Fault(t.err)
    } else if proportion_parse_ok(t.text) {
        PStep::Done(proportion_nanos(t.text) as u32, t.next)
    } else {
        PStep::Fault(
            found_error_at(
                "Expected a floating number between 0 and 1, found "@,
                t.text,
                t.line as u32,
                t.col as u32,
            ),
        )
    }
}

/// What expecting a comparison operator at `p` yields.
#[verifier::opaque]
pub open spec fn sp_comparison(src: Seq<u8>, p: int) -> PStep<ComparisonOperator> {
    let t = crate::compiler::lexer::tok(src, p);
    if !t.ok {
        PStep::Fault(t.err)
    } else {
        match comparison_of(t.text) {
            Some(c) => PStep::Done(c, t.next),
            None => PStep::Fault(
                found_error_at(
                    "Expected one of \"<\", \">\", \"<=\", \">=\", \"==\", or \"!=\" tokens, found "@,
                    t.text,
                    t.line as u32,
                    t.col as u32,
                ),
            ),
        }
    }
}

/// The specified parse of a state chain from `p`.  In every spec parse
/// function below, a position guard protects each recursive call so that
/// the positions decrease; a matched token always advances the position,
/// so the guards' fallback arms are never the parse of any source.
#[verifier::opaque]
pub open spec fn sp_state(src: Seq<u8>, p: int) -> PStep<StateNodeV>
    decreases src.len() - p, 9int,
{
    match sp_expect(src, p, seq!["("@, "}"@]) {
        PStep::Fault(m) => PStep::Fault(m),
        PStep::Done(t, p1) => if t == "("@ {
            match sp_identifier(src, p1) {
                PStep::Fault(m) => PStep::Fault(m),
                PStep::Done(name, p2) => match sp_expect(src, p2, seq![","@]) {
                    PStep::Fault(m) => PStep::Fault(m),
                    PStep::Done(_c1, p3) => match sp_u8(src, p3) {
                        PStep::Fault(m) => PStep::Fault(m),
                        PStep::Done(red, p4) => match sp_expect(src, p4, seq![","@]) {
                            PStep::Fault(m) => PStep::Fault(m),
                            PStep::Done(_c2, p5) => match sp_u8(src, p5) {
                                PStep::Fault(m) => PStep::Fault(m),
                                PStep::Done(green, p6) => match sp_expect(src, p6, seq![","@]) {
                                    PStep::Fault(m) => PStep::Fault(m),
                                    PStep::Done(_c3, p7) => match sp_u8(src, p7) {
                                        PStep::Fault(m) => PStep::Fault(m),
                                        PStep::Done(blue, p8) => if p <= p8 && p8 <= src.len() {
                                            match sp_state_distribution(src, p8) {
                                                PStep::Fault(m) => PStep::Fault(m),
                                                PStep::Done(dist, p9) => PStep::Done(
                                                    StateNodeV::StateV(name, red, green, blue, dist),
                                                    p9,
                                                ),
                                            }
                                        } else {
                                            PStep::Fault(Seq::empty())
                                        },
                                    },
                                },
                            },
                        },
                    },
                },
            }
        } else {
            match sp_expect(src, p1, seq!["transitions"@]) {
                PStep::Fault(m) => PStep::Fault(m),
                PStep::Done(_t1, p2) => match sp_expect(src, p2, seq!["{"@]) {
                    PStep::Fault(m) => PStep::Fault(m),
                    PStep::Done(_t2, p3) => if p <= p3 && p3 <= src.len() {
                        match sp_transitions(src, p3) {
                            PStep::Fault(m) => PStep::Fault(m),
                            PStep::Done(t2, p4) => PStep::Done(StateNodeV::NextV(t2), p4),
                        }
                    } else {
                        PStep::Fault(Seq::empty())
                    },
                },
            }
        },
    }
}

/// The specified parse of a distribution clause from `p`.
#[verifier::opaque]
pub open spec fn sp_state_distribution(src: Seq<u8>, p: int) -> PStep<StateDistV>
    decreases src.len() - p, 8int,
{
    match sp_expect(src, p, seq![")"@, ","@]) {
        PStep::Fault(m) => PStep::Fault(m),
        PStep::Done(t, p1) => if t == ")"@ {
            match sp_expect(src, p1, seq![","@]) {
                PStep::Fault(m) => PStep::Fault(m),
                PStep::Done(_c, p2) => if p < p2 && p2 <= src.len() {
                    match sp_state(src, p2) {
                        PStep::Fault(m) => PStep::Fault(m),
                        PStep::Done(nx, p3) => PStep::Done(
                            StateDistV::DefaultV(Box::new(nx)),
                            p3,
                        ),
                    }
                } else {
                    PStep::Fault(Seq::empty())
                },
            }
        } else {
            match sp_expect(src, p1, seq!["proportion"@, "quantity"@]) {
                PStep::Fault(m) => PStep::Fault(m),
                PStep::Done(t2, p2) => if t2 == "proportion"@ {
                    match sp_proportion(src, p2) {
                        PStep::Fault(m) => PStep::Fault(m),
                        PStep::Done(prop, p3) => match sp_expect(src, p3, seq![")"@]) {
                            PStep::Fault(m) => PStep::Fault(m),
                            PStep::Done(_c1, p4) => match sp_expect(src, p4, seq![","@]) {
                                PStep::Fault(m) => PStep::Fault(m),
                                PStep::Done(_c2, p5) => if p < p5 && p5 <= src.len() {
                                    match sp_state(src, p5) {
                                        PStep::Fault(m) => PStep::Fault(m),
                                        PStep::Done(nx, p6) => PStep::Done(
                                            StateDistV::ProportionV(prop, Box::new(nx)),
                                            p6,
                                        ),
                                    }
                                } else {
                                    PStep::Fault(Seq::empty())
                                },
                            },
                        },
                    }
                } else {
                    match sp_usize(src, p2) {
                        PStep::Fault(m) => PStep::Fault(m),
                        PStep::Done(q, p3) => match sp_expect(src, p3, seq![")"@]) {
                            PStep::Fault(m) => PStep::Fault(m),
                            PStep::Done(_c1, p4) => match sp_expect(src, p4, seq![","@]) {
                                PStep::Fault(m) => PStep::Fault(m),
                                PStep::Done(_c2, p5) => if p < p5 && p5 <= src.len() {
                                    match sp_state(src, p5) {
                                        PStep::Fault(m) => PStep::Fault(m),
                                        PStep::Done(nx, p6) => PStep::Done(
                                            StateDistV::QuantityV(q, Box::new(nx)),
                                            p6,
                                        ),
                                    }
                                } else {
                                    PStep::Fault(Seq::empty())
                                },
                            },
                        },
                    }
                },
            }
        },
    }
}

/// The specified parse of a transition chain from `p`.
#[verifier::opaque]
pub open spec fn sp_transitions(src: Seq<u8>, p: int) -> PStep<TransitionNodeV>
    decreases src.len() - p, 7int,
{
    match sp_expect(src, p, seq!["("@, "}"@]) {
        PStep::Fault(m) => PStep::Fault(m),
        PStep::Done(t, p1) => if t == "("@ {
            match sp_identifier(src, p1) {
                PStep::Fault(m) => PStep::Fault(m),
                PStep::Done(origin, p2) => match sp_expect(src, p2, seq![","@]) {
                    PStep::Fault(m) => PStep::Fault(m),
                    PStep::Done(_c1, p3) => match sp_identifier(src, p3) {
                        PStep::Fault(m) => PStep::Fault(m),
                        PStep::Done(dest, p4) => match sp_expect(src, p4, seq![","@]) {
                            PStep::Fault(m) => PStep::Fault(m),
                            PStep::Done(_c2, p5) => {
                                let t1 = crate::compiler::lexer::tok(src, p5);
                                if !t1.ok {
                                    PStep::Fault(t1.err)
                                } else if t1.text == "delay"@ {
                                    match sp_expect(src, t1.next, seq![","@]) {
                                        PStep::Fault(m) => PStep::Fault(m),
                                        PStep::Done(_c3, p6) => match sp_usize(src, p6) {
                                            PStep::Fault(m) => PStep::Fault(m),
                                            PStep::Done(d, p7) => match sp_expect(
                                                src,
                                                p7,
                                                seq![","@],
                                            ) {
                                                PStep::Fault(m) => PStep::Fault(m),
                                                PStep::Done(_c4, p8) => {
                                                    let t2 = crate::compiler::lexer::tok(src, p8);
                                                    if !t2.ok {
                                                        PStep::Fault(t2.err)
                                                    } else if p <= t2.next && t2.next <= src.len() {
                                                        match sp_condition(
                                                            src,
                                                            t2.text,
                                                            t2.line,
                                                            t2.col,
                                                            t2.next,
                                                        ) {
                                                            PStep::Fault(m) => PStep::Fault(m),
                                                            PStep::Done(c, p9) => PStep::Done(
                                                                TransitionNodeV::TransitionV(
                                                                    origin,
                                                                    dest,
                                                                    Some(d),
                                                                    Box::new(c),
                                                                ),
                                                                p9,
                                                            ),
                                                        }
                                                    } else {
                                                        PStep::Fault(Seq::empty())
                                                    }
                                                },
                                            },
                                        },
                                    }
                                } else if p <= t1.next && t1.next <= src.len() {
                                    match sp_condition(src, t1.text, t1.line, t1.col, t1.next) {
                                        PStep::Fault(m) => PStep::Fault(m),
                                        PStep::Done(c, p9) => PStep::Done(
                                            TransitionNodeV::TransitionV(
                                                origin,
                                                dest,
                                                None,
                                                Box::new(c),
                                            ),
                                            p9,
                                        ),
                                    }
                                } else {
                                    PStep::Fault(Seq::empty())
                                }
                            },
                        },
                    },
                },
            }
        } else {
            PStep::Done(TransitionNodeV::EndV, p1)
        },
    }
}

/// The specified parse of one condition whose first token, already read,
/// had the given text and position; `p` is the position after it.
#[verifier::opaque]
pub open spec fn sp_condition(src: Seq<u8>, text: Seq<char>, line: int, col: int, p: int) -> PStep<
    ConditionNodeV,
>
    decreases src.len() - p, 2int,
{
    if text == "true"@ {
        if 0 <= p <= src.len() {
            match sp_next_condition(src, p) {
                PStep::Fault(m) => PStep::Fault(m),
                PStep::Done(nx, p1) => PStep::Done(ConditionNodeV::TrueV(nx), p1),
            }
        } else {
            PStep::Fault(Seq::empty())
        }
    } else if neighbor_cell_of(text) is Some {
        let cell = neighbor_cell_of(text)->0;
        match sp_expect(src, p, seq!["is"@]) {
            PStep::Fault(m) => PStep::Fault(m),
            PStep::Done(_t, p1) => match sp_identifier(src, p1) {
                PStep::Fault(m) => PStep::Fault(m),
                PStep::Done(name, p2) => if p <= p2 && p2 <= src.len() {
                    match sp_next_condition(src, p2) {
                        PStep::Fault(m) => PStep::Fault(m),
                        PStep::Done(nx, p3) => PStep::Done(
                            ConditionNodeV::NeighborCondV(cell, name, nx),
                            p3,
                        ),
                    }
                } else {
                    PStep::Fault(Seq::empty())
                },
            },
        }
    } else if text == "random"@ {
        match sp_proportion(src, p) {
            PStep::Fault(m) => PStep::Fault(m),
            PStep::Done(prob, p1) => if p <= p1 && p1 <= src.len() {
                match sp_next_condition(src, p1) {
                    PStep::Fault(m) => PStep::Fault(m),
                    PStep::Done(nx, p2) => PStep::Done(
                        ConditionNodeV::RandomCondV(prob, nx),
                        p2,
                    ),
                }
            } else {
                PStep::Fault(Seq::empty())
            },
        }
    } else if is_identifier_text(text) {
        match sp_comparison(src, p) {
            PStep::Fault(m) => PStep::Fault(m),
            PStep::Done(cmp, p1) => match sp_neighbor_number(src, p1) {
                PStep::Fault(m) => PStep::Fault(m),
                PStep::Done(count, p2) => if p <= p2 && p2 <= src.len() {
                    match sp_next_condition(src, p2) {
                        PStep::Fault(m) => PStep::Fault(m),
                        PStep::Done(nx, p3) => PStep::Done(
                            ConditionNodeV::QuantityCondV(text, cmp, count, nx),
                            p3,
                        ),
                    }
                } else {
                    PStep::Fault(Seq::empty())
                },
            },
        }
    } else {
        PStep::Fault(
            found_error_at(
                "Expected either token \"true\", a neighbor cell identifier (one of \"A\", \"B\", \"C\", \"D\", \"E\", \"F\", \"H\"), or an alphanumeric identifier, but found "@,
                text,
                line as u32,
                col as u32,
            ),
        )
    }
}

/// The specified parse of a condition continuation from `p`.
#[verifier::opaque]
pub open spec fn sp_next_condition(src: Seq<u8>, p: int) -> PStep<NextCondV>
    decreases src.len() - p, 1int,
{
    let t = crate::compiler::lexer::tok(src, p);
    if !t.ok {
        PStep::Fault(t.err)
    } else if boolean_operator_of(t.text) is Some {
        let op = boolean_operator_of(t.text)->0;
        let t2 = crate::compiler::lexer::tok(src, t.next);
        if !t2.ok {
            PStep::Fault(t2.err)
        } else if p < t2.next && t2.next <= src.len() {
            match sp_condition(src, t2.text, t2.line, t2.col, t2.next) {
                PStep::Fault(m) => PStep::Fault(m),
                PStep::Done(c, p1) => PStep::Done(
                    NextCondV::NextConditionV(op, Box::new(c)),
                    p1,
                ),
            }
        } else {
            PStep::Fault(Seq::empty())
        }
    } else if t.text == ")"@ {
        match sp_expect(src, t.next, seq![","@]) {
            PStep::Fault(m) => PStep::Fault(m),
            PStep::Done(_c, p1) => if p < p1 && p1 <= src.len() {
                match sp_transitions(src, p1) {
                    PStep::Fault(m) => PStep::Fault(m),
                    PStep::Done(tr, p2) => PStep::Done(
                        NextCondV::NextTransitionV(Box::new(tr)),
                        p2,
                    ),
                }
            } else {
                PStep::Fault(Seq::empty())
            },
        }
    } else {
        PStep::Fault(
            found_error_at(
                "Expected either a boolean operator \"&&\", \"||\" or a \")\" token, found "@,
                t.text,
                t.line as u32,
                t.col as u32,
            ),
        )
    }
}

/// The specified parse of a whole description: the `states` header, then
/// the state chain.
#[verifier::opaque]
pub open spec fn sp_parse(src: Seq<u8>) -> PStep<StateNodeV> {
    match sp_expect(src, 0, seq!["states"@]) {
        PStep::Fault(m) => PStep::Fault(m),
        PStep::Done(_s, p1) => match sp_expect(src, p1, seq!["{"@]) {
            PStep::Fault(m) => PStep::Fault(m),
            PStep::Done(_b, p2) => if 0 <= p2 {
                sp_state(src, p2)
            } else {
                PStep::Fault(Seq::empty())
            },
        },
    }
}

// ---------------------------------------------------------------------------
// Well-formedness of the tree the parser builds
// ---------------------------------------------------------------------------
/// Every state name is an identifier and every numeric field is in range.
pub open spec fn state_node_wf(n: StateNode) -> bool
    decreases n,
{
    match n {
        StateNode::State(name, _r, _g, _b, d) => is_identifier_text(name@) && dist_node_wf(d),
        StateNode::Next(t) => transition_node_wf(t),
    }
}

/// Proportions are at most one; the rest of the chain is well formed.
pub open spec fn dist_node_wf(d: StateDistributionNode) -> bool
    decreases d,
{
    match d {
        StateDistributionNode::Proportion(p, next) => p <= 1_000_000_000 && state_node_wf(*next),
        StateDistributionNode::Quantity(_q, next) => state_node_wf(*next),
        StateDistributionNode::Default(next) => state_node_wf(*next),
    }
}

/// Origin and destination are identifiers; the conditions are well formed.
pub open spec fn transition_node_wf(t: TransitionNode) -> bool
    decreases t,
{
    match t {
        TransitionNode::Transition(o, d, _delay, c) => is_identifier_text(o@)
            && is_identifier_text(d@) && condition_node_wf(*c),
        TransitionNode::End => true,
    }
}

/// Names are identifiers, neighbor counts are at most eight, probabilities
/// at most one.
pub open spec fn condition_node_wf(c: ConditionNode) -> bool
    decreases c,
{
    match c {
        ConditionNode::QuantityCondition(name, _cmp, q, next) => is_identifier_text(name@) && q <= 8
            && next_condition_wf(next),
        ConditionNode::NeighborCondition(_cell, name, next) => is_identifier_text(name@)
            && next_condition_wf(next),
        ConditionNode::RandomCondition(p, next) => p <= 1_000_000_000 && next_condition_wf(next),
        ConditionNode::True(next) => next_condition_wf(next),
    }
}

/// The continuation of a condition is well formed.
pub open spec fn next_condition_wf(n: NextConditionNode) -> bool
    decreases n,
{
    match n {
        NextConditionNode::NextCondition(_op, c) => condition_node_wf(*c),
        NextConditionNode::NextTransition(t) => transition_node_wf(*t),
    }
}

// ---------------------------------------------------------------------------
// The parser
// ---------------------------------------------------------------------------
fn list1<'a>(a: &'a str) -> (v: Vec<&'a str>)
    ensures
        v@.len() == 1,
        v@[0] == a,
        views_of(v@) == seq![a@],
{
    let mut v: Vec<&'a str> = Vec::new();
    v.push(a);
    proof {
        assert(views_of(v@) =~= seq![a@]);
    }
    v
}

fn list2<'a>(a: &'a str, b: &'a str) -> (v: Vec<&'a str>)
    ensures
        v@.len() == 2,
        v@[0] == a,
        v@[1] == b,
        views_of(v@) == seq![a@, b@],
{
    let mut v: Vec<&'a str> = Vec::new();
    v.push(a);
    v.push(b);
    proof {
        assert(views_of(v@) =~= seq![a@, b@]);
    }
    v
}

#[verifier::rlimit(100)]
#[verifier::spinoff_prover]
fn parse_state(lexer: &mut Lexer) -> (r: Result<StateNode, String>)
    requires
        old(lexer).wf(),
    ensures
        final(lexer).wf(),
        final(lexer).bytes() == old(lexer).bytes(),
        old(lexer).at() <= final(lexer).at() <= final(lexer).bytes().len(),
        r is Ok ==> state_node_wf(r->Ok_0),
        ({
            let sp = sp_state(old(lexer).bytes(), old(lexer).at());
            &&& (r is Ok <==> sp is Done)
            &&& r is Ok ==> sp == PStep::Done(state_node_view(r->Ok_0), final(lexer).at() as int)
            &&& r is Err ==> (sp matches PStep::Fault(m) && m == r->Err_0@)
        }),
    decreases old(lexer).bytes().len() - old(lexer).at(), 9int,
{
    proof {
        reveal(sp_state);
    }
    proof {
        reveal_strlit("(");
        reveal_strlit("}");
        reveal_strlit(",");
        reveal_strlit("transitions");
        reveal_strlit("{");
    }
    let token = match expect(lexer, list2("(", "}")) {
        Ok(t) => t,
        Err(e) => {
            return Err(e);
        },
    };
    if str_eq_str(token.as_str(), "(") {
        let state_name = match expect_identifier(lexer) {
            Ok(t) => t,
            Err(e) => {
                return Err(e);
            },
        };
        match expect(lexer, list1(",")) {
            Ok(_) => (),
            Err(e) => {
                return Err(e);
            },
        };
        let red = match expect_u8(lexer) {
            Ok(t) => t,
            Err(e) => {
                return Err(e);
            },
        };
        match expect(lexer, list1(",")) {
            Ok(_) => (),
            Err(e) => {
                return Err(e);
            },
        };
        let green = match expect_u8(lexer) {
            Ok(t) => t,
            Err(e) => {
                return Err(e);
            },
        };
        match expect(lexer, list1(",")) {
            Ok(_) => (),
            Err(e) => {
                return Err(e);
            },
        };
        let blue = match expect_u8(lexer) {
            Ok(t) => t,
            Err(e) => {
                return Err(e);
            },
        };
        let dist = match parse_state_distribution(lexer) {
            Ok(t) => t,
            Err(e) => {
                return Err(e);
            },
        };
        Ok(StateNode::State(state_name, red, green, blue, dist))
    } else {
        match expect(lexer, list1("transitions")) {
            Ok(_) => (),
            Err(e) => {
                return Err(e);
            },
        };
        match expect(lexer, list1("{")) {
            Ok(_) => (),
            Err(e) => {
                return Err(e);
            },
        };
        let t = match parse_transitions(lexer) {
            Ok(t) => t,
            Err(e) => {
                return Err(e);
            },
        };
        Ok(StateNode::Next(t))
    }
}

#[verifier::rlimit(100)]
#[verifier::spinoff_prover]
fn parse_state_distribution(lexer: &mut Lexer) -> (r: Result<StateDistributionNode, String>)
    requires
        old(lexer).wf(),
    ensures
        final(lexer).wf(),
        final(lexer).bytes() == old(lexer).bytes(),
        old(lexer).at() <= final(lexer).at() <= final(lexer).bytes().len(),
        r is Ok ==> dist_node_wf(r->Ok_0),
        ({
            let sp = sp_state_distribution(old(lexer).bytes(), old(lexer).at());
            &&& (r is Ok <==> sp is Done)
            &&& r is Ok ==> sp == PStep::Done(dist_node_view(r->Ok_0), final(lexer).at() as int)
            &&& r is Err ==> (sp matches PStep::Fault(m) && m == r->Err_0@)
        }),
    decreases old(lexer).bytes().len() - old(lexer).at(), 8int,
{
    proof {
        reveal(sp_state_distribution);
    }
    proof {
        reveal_strlit(")");
        reveal_strlit(",");
        reveal_strlit("proportion");
        reveal_strlit("quantity");
    }
    let token = match expect(lexer, list2(")", ",")) {
        Ok(t) => t,
        Err(e) => {
            return Err(e);
        },
    };
    if str_eq_str(token.as_str(), ")") {
        match expect(lexer, list1(",")) {
            Ok(_) => (),
            Err(e) => {
                return Err(e);
            },
        };
        let next = match parse_state(lexer) {
            Ok(t) => t,
            Err(e) => {
                return Err(e);
            },
        };
        Ok(StateDistributionNode::Default(Box::new(next)))
    } else {
        let token2 = match expect(lexer, list2("proportion", "quantity")) {
            Ok(t) => t,
            Err(e) => {
                return Err(e);
            },
        };
        if str_eq_str(token2.as_str(), "proportion") {
            let proportion = match expect_proportion(lexer) {
                Ok(t) => t,
                Err(e) => {
                    return Err(e);
                },
            };
            match expect(lexer, list1(")")) {
                Ok(_) => (),
                Err(e) => {
                    return Err(e);
                },
            };
            match expect(lexer, list1(",")) {
                Ok(_) => (),
                Err(e) => {
                    return Err(e);
                },
            };
            let next = match parse_state(lexer) {
                Ok(t) => t,
                Err(e) => {
                    return Err(e);
                },
            };
            Ok(StateDistributionNode::Proportion(proportion, Box::new(next)))
        } else {
            let quantity = match expect_usize(lexer) {
                Ok(t) => t,
                Err(e) => {
                    return Err(e);
                },
            };
            match expect(lexer, list1(")")) {
                Ok(_) => (),
                Err(e) => {
                    return Err(e);
                },
            };
            match expect(lexer, list1(",")) {
                Ok(_) => (),
                Err(e) => {
                    return Err(e);
                },
            };
            let next = match parse_state(lexer) {
                Ok(t) => t,
                Err(e) => {
                    return Err(e);
                },
            };
            Ok(StateDistributionNode::Quantity(quantity, Box::new(next)))
        }
    }
}

#[verifier::rlimit(100)]
#[verifier::spinoff_prover]
fn parse_transitions(lexer: &mut Lexer) -> (r: Result<TransitionNode, String>)
    requires
        old(lexer).wf(),
    ensures
        final(lexer).wf(),
        final(lexer).bytes() == old(lexer).bytes(),
        old(lexer).at() <= final(lexer).at() <= final(lexer).bytes().len(),
        r is Ok ==> transition_node_wf(r->Ok_0),
        ({
            let sp = sp_transitions(old(lexer).bytes(), old(lexer).at());
            &&& (r is Ok <==> sp is Done)
            &&& r is Ok ==> sp == PStep::Done(
                transition_node_view(r->Ok_0),
                final(lexer).at() as int,
            )
            &&& r is Err ==> (sp matches PStep::Fault(m) && m == r->Err_0@)
        }),
    decreases old(lexer).bytes().len() - old(lexer).at(), 7int,
{
    proof {
        reveal(sp_transitions);
    }
    proof {
        reveal_strlit("(");
        reveal_strlit("}");
        reveal_strlit(",");
        reveal_strlit("delay");
    }
    let token = match expect(lexer, list2("(", "}")) {
        Ok(t) => t,
        Err(e) => {
            return Err(e);
        },
    };
    if str_eq_str(token.as_str(), "(") {
        let initial_state_name = match expect_identifier(lexer) {
            Ok(t) => t,
            Err(e) => {
                return Err(e);
            },
        };
        match expect(lexer, list1(",")) {
            Ok(_) => (),
            Err(e) => {
                return Err(e);
            },
        };
        let next_state_name = match expect_identifier(lexer) {
            Ok(t) => t,
            Err(e) => {
                return Err(e);
            },
        };
        match expect(lexer, list1(",")) {
            Ok(_) => (),
            Err(e) => {
                return Err(e);
            },
        };
        proof {
            lexer.lemma_wf_bounds();
        }
        let ghost p5 = lexer.at();
        let first = match lexer.get_next_token() {
            Ok(t) => t,
            Err(e) => {
                proof {
                    crate::compiler::lexer::lemma_next_token_fun(
                        old(lexer).bytes(),
                        p5,
                        Err(e),
                        lexer.at(),
                    );
                }
                return Err(e);
            },
        };
        proof {
            crate::compiler::lexer::lemma_next_token_fun(
                old(lexer).bytes(),
                p5,
                Ok(first),
                lexer.at(),
            );
        }
        let mut delay: Option<usize> = None;
        let cond_token: Token;
        if str_eq_str(first.str.as_str(), "delay") {
            match expect(lexer, list1(",")) {
                Ok(_) => (),
                Err(e) => {
                    return Err(e);
                },
            };
            let d = match expect_usize(lexer) {
                Ok(t) => t,
                Err(e) => {
                    return Err(e);
                },
            };
            match expect(lexer, list1(",")) {
                Ok(_) => (),
                Err(e) => {
                    return Err(e);
                },
            };
            delay = Some(d);
            proof {
                lexer.lemma_wf_bounds();
            }
            let ghost p8 = lexer.at();
            cond_token = match lexer.get_next_token() {
                Ok(t) => t,
                Err(e) => {
                    proof {
                        crate::compiler::lexer::lemma_next_token_fun(
                            old(lexer).bytes(),
                            p8,
                            Err(e),
                            lexer.at(),
                        );
                    }
                    return Err(e);
                },
            };
            proof {
                crate::compiler::lexer::lemma_next_token_fun(
                    old(lexer).bytes(),
                    p8,
                    Ok(cond_token),
                    lexer.at(),
                );
            }
        } else {
            cond_token = first;
        }
        let cond = match parse_condition(lexer, cond_token) {
            Ok(t) => t,
            Err(e) => {
                return Err(e);
            },
        };
        Ok(
            TransitionNode::Transition(
                initial_state_name,
                next_state_name,
                delay,
                Box::new(cond),
            ),
        )
    } else {
        Ok(TransitionNode::End)
    }
}

#[verifier::rlimit(100)]
#[verifier::spinoff_prover]
fn parse_condition(lexer: &mut Lexer, token: Token) -> (r: Result<ConditionNode, String>)
    requires
        old(lexer).wf(),
    ensures
        final(lexer).wf(),
        final(lexer).bytes() == old(lexer).bytes(),
        old(lexer).at() <= final(lexer).at() <= final(lexer).bytes().len(),
        r is Ok ==> condition_node_wf(r->Ok_0),
        ({
            let sp = sp_condition(
                old(lexer).bytes(),
                token.str@,
                token.line as int,
                token.column as int,
                old(lexer).at(),
            );
            &&& (r is Ok <==> sp is Done)
            &&& r is Ok ==> sp == PStep::Done(
                condition_node_view(r->Ok_0),
                final(lexer).at() as int,
            )
            &&& r is Err ==> (sp matches PStep::Fault(m) && m == r->Err_0@)
        }),
    decreases old(lexer).bytes().len() - old(lexer).at(), 2int,
{
    proof {
        reveal(sp_condition);
    }
    proof {
        reveal_strlit("true");
        reveal_strlit("random");
        reveal_strlit("is");
        lexer.lemma_wf_bounds();
    }
    if str_eq_str(token.str.as_str(), "true") {
        let next = match parse_next_condition(lexer) {
            Ok(t) => t,
            Err(e) => {
                return Err(e);
            },
        };
        return Ok(ConditionNode::True(next));
    }
    let neighbor = to_neighbor_cell(&token);
    if let Some(neighbor_cell) = neighbor {
        match expect(lexer, list1("is")) {
            Ok(_) => (),
            Err(e) => {
                return Err(e);
            },
        };
        let state_name = match expect_identifier(lexer) {
            Ok(t) => t,
            Err(e) => {
                return Err(e);
            },
        };
        let next = match parse_next_condition(lexer) {
            Ok(t) => t,
            Err(e) => {
                return Err(e);
            },
        };
        return Ok(ConditionNode::NeighborCondition(neighbor_cell, state_name, next));
    }
    if str_eq_str(token.str.as_str(), "random") {
        let probability = match expect_proportion(lexer) {
            Ok(t) => t,
            Err(e) => {
                return Err(e);
            },
        };
        let next = match parse_next_condition(lexer) {
            Ok(t) => t,
            Err(e) => {
                return Err(e);
            },
        };
        return Ok(ConditionNode::RandomCondition(probability, next));
    }
    if is_identifier(&token) {
        let comparison_operator = match expect_comparison_operator(lexer) {
            Ok(t) => t,
            Err(e) => {
                return Err(e);
            },
        };
        let number = match expect_neighbor_number(lexer) {
            Ok(t) => t,
            Err(e) => {
                return Err(e);
            },
        };
        let next = match parse_next_condition(lexer) {
            Ok(t) => t,
            Err(e) => {
                return Err(e);
            },
        };
        return Ok(ConditionNode::QuantityCondition(token.str, comparison_operator, number, next));
    }
    Err(
        found_message(
            "Expected either token \"true\", a neighbor cell identifier (one of \"A\", \"B\", \"C\", \"D\", \"E\", \"F\", \"H\"), or an alphanumeric identifier, but found ",
            &token,
        ),
    )
}

#[verifier::rlimit(100)]
#[verifier::spinoff_prover]
fn parse_next_condition(lexer: &mut Lexer) -> (r: Result<NextConditionNode, String>)
    requires
        old(lexer).wf(),
    ensures
        final(lexer).wf(),
        final(lexer).bytes() == old(lexer).bytes(),
        old(lexer).at() <= final(lexer).at() <= final(lexer).bytes().len(),
        r is Ok ==> next_condition_wf(r->Ok_0),
        ({
            let sp = sp_next_condition(old(lexer).bytes(), old(lexer).at());
            &&& (r is Ok <==> sp is Done)
            &&& r is Ok ==> sp == PStep::Done(
                next_condition_view(r->Ok_0),
                final(lexer).at() as int,
            )
            &&& r is Err ==> (sp matches PStep::Fault(m) && m == r->Err_0@)
        }),
    decreases old(lexer).bytes().len() - old(lexer).at(), 1int,
{
    proof {
        reveal(sp_next_condition);
    }
    proof {
        reveal_strlit("&&");
        reveal_strlit("||");
        reveal_strlit(")");
        reveal_strlit(",");
    }
    proof {
        lexer.lemma_wf_bounds();
    }
    let ghost pn0 = lexer.at();
    let token = match lexer.get_next_token() {
        Ok(t) => t,
        Err(e) => {
            proof {
                crate::compiler::lexer::lemma_next_token_fun(
                    old(lexer).bytes(),
                    pn0,
                    Err(e),
                    lexer.at(),
                );
            }
            return Err(e);
        },
    };
    proof {
        crate::compiler::lexer::lemma_next_token_fun(
            old(lexer).bytes(),
            pn0,
            Ok(token),
            lexer.at(),
        );
    }
    let op = to_boolean_operator(&token);
    if let Some(boolean_operator) = op {
        proof {
            lexer.lemma_wf_bounds();
        }
        let ghost pn1 = lexer.at();
        let token2 = match lexer.get_next_token() {
            Ok(t) => t,
            Err(e) => {
                proof {
                    crate::compiler::lexer::lemma_next_token_fun(
                        old(lexer).bytes(),
                        pn1,
                        Err(e),
                        lexer.at(),
                    );
                }
                return Err(e);
            },
        };
        proof {
            crate::compiler::lexer::lemma_next_token_fun(
                old(lexer).bytes(),
                pn1,
                Ok(token2),
                lexer.at(),
            );
        }
        let c = match parse_condition(lexer, token2) {
            Ok(t) => t,
            Err(e) => {
                return Err(e);
            },
        };
        return Ok(NextConditionNode::NextCondition(boolean_operator, Box::new(c)));
    }
    if str_eq_str(token.str.as_str(), ")") {
        match expect(lexer, list1(",")) {
            Ok(_) => (),
            Err(e) => {
                return Err(e);
            },
        };
        let t = match parse_transitions(lexer) {
            Ok(t) => t,
            Err(e) => {
                return Err(e);
            },
        };
        return Ok(NextConditionNode::NextTransition(Box::new(t)));
    }
    Err(
        found_message(
            "Expected either a boolean operator \"&&\", \"||\" or a \")\" token, found ",
            &token,
        ),
    )
}

/// Parses the source text against the automaton description grammar,
/// producing the syntax tree or the first lexical or syntax error; input
/// after the closing transition list is never read.
#[verifier::rlimit(100)]
#[verifier::spinoff_prover]
pub fn parse(source: Vec<u8>, world_size: (usize, usize)) -> (r: Result<Ast, String>)
    requires
        source@.len() < u32::MAX,
    ensures
        r is Ok ==> state_node_wf(r->Ok_0.first_state) && r->Ok_0.world_size == world_size,        ({
            let sp = sp_parse(source@);
            &&& (r is Ok <==> sp is Done)
            &&& r is Ok ==> (sp matches PStep::Done(v, _p) && v == state_node_view(
                r->Ok_0.first_state,
            ))
            &&& r is Err ==> (sp matches PStep::Fault(m) && m == r->Err_0@)
        }),

{
    proof {
        reveal(sp_parse);
    }
    proof {
        reveal_strlit("states");
        reveal_strlit("{");
    }
    let mut lexer = Lexer::new(source);
    match expect(&mut lexer, list1("states")) {
        Ok(_) => (),
        Err(e) => {
            return Err(e);
        },
    };
    match expect(&mut lexer, list1("{")) {
        Ok(_) => (),
        Err(e) => {
            return Err(e);
        },
    };
    let first_state = match parse_state(&mut lexer) {
        Ok(t) => t,
        Err(e) => {
            return Err(e);
        },
    };
    Ok(Ast { world_size, first_state })
}

} // verus!
