//! Lexical analysis of automaton descriptions.
//!
//! The lexer walks an in-memory byte buffer and cuts it into tokens: single
//! delimiter characters, comparison and boolean operators, numbers and
//! identifiers.  Each token carries the line and column of its last
//! character.  A byte value `0` acts as an end-of-input sentinel, and
//! reading past the end yields an empty token.

use vstd::prelude::*;

verus! {

// ---------------------------------------------------------------------------
// Byte classes
// ---------------------------------------------------------------------------
/// ASCII whitespace, as `u8::is_ascii_whitespace` defines it.
pub open spec fn ws_byte(b: u8) -> bool {
    b == 32 || b == 9 || b == 10 || b == 12 || b == 13
}

/// ASCII decimal digit.
pub open spec fn digit_byte(b: u8) -> bool {
    48 <= b <= 57
}

/// ASCII letter.
pub open spec fn alpha_byte(b: u8) -> bool {
    (65 <= b <= 90) || (97 <= b <= 122)
}

/// ASCII letter or digit.
pub open spec fn alnum_byte(b: u8) -> bool {
    alpha_byte(b) || digit_byte(b)
}

/// One of the single-character delimiters `{ } ( ) ,`.
pub open spec fn delim_byte(b: u8) -> bool {
    b == 123 || b == 125 || b == 40 || b == 41 || b == 44
}

/// A character that can start an operator: `& | = ! < >`.
pub open spec fn op_first_byte(b: u8) -> bool {
    b == 38 || b == 124 || b == 61 || b == 33 || b == 60 || b == 62
}

/// The second character that completes a two-character operator starting
/// with `b`: `!= <= >=`, or the doubled character for `& | =`.
pub open spec fn op_second_byte(b: u8) -> u8 {
    if b == 33 || b == 60 || b == 62 {
        61
    } else {
        b
    }
}

fn is_ws(b: u8) -> (r: bool)
    ensures
        r == ws_byte(b),
{
    b == 32 || b == 9 || b == 10 || b == 12 || b == 13
}

fn is_digit(b: u8) -> (r: bool)
    ensures
        r == digit_byte(b),
{
    48 <= b && b <= 57
}

fn is_alpha(b: u8) -> (r: bool)
    ensures
        r == alpha_byte(b),
{
    (65 <= b && b <= 90) || (97 <= b && b <= 122)
}

fn is_alnum(b: u8) -> (r: bool)
    ensures
        r == alnum_byte(b),
{
    is_alpha(b) || is_digit(b)
}

fn is_delim(b: u8) -> (r: bool)
    ensures
        r == delim_byte(b),
{
    b == 123 || b == 125 || b == 40 || b == 41 || b == 44
}

fn is_op_first(b: u8) -> (r: bool)
    ensures
        r == op_first_byte(b),
{
    b == 38 || b == 124 || b == 61 || b == 33 || b == 60 || b == 62
}

// ---------------------------------------------------------------------------
// Positions in the source
// ---------------------------------------------------------------------------
/// Number of line feeds among the first `p` bytes.
pub open spec fn nl_count(src: Seq<u8>, p: int) -> int
    decreases p,
{
    if p <= 0 {
        0
    } else {
        nl_count(src, p - 1) + if src[p - 1] == 10 {
            1int
        } else {
            0int
        }
    }
}

/// Index of the first byte of the line that the boundary `p` lies on.
pub open spec fn line_start(src: Seq<u8>, p: int) -> int
    decreases p,
{
    if p <= 0 {
        0
    } else if src[p - 1] == 10 {
        p
    } else {
        line_start(src, p - 1)
    }
}

/// The line number reported for a token whose last character sits at `j`.
pub open spec fn line_at(src: Seq<u8>, j: int) -> int {
    1 + nl_count(src, j + 1)
}

/// The column number reported for a token whose last character sits at `j`.
pub open spec fn col_at(src: Seq<u8>, j: int) -> int {
    j + 1 - line_start(src, j + 1)
}

// ---------------------------------------------------------------------------
// Token boundaries
// ---------------------------------------------------------------------------
/// Whether position `i` is the end of the input: past the buffer, or at the
/// `0` sentinel byte.
pub open spec fn at_end(src: Seq<u8>, i: int) -> bool {
    i >= src.len() || src[i] == 0
}

/// The first position at or after `i` that is not whitespace (or the end).
pub open spec fn skip_ws_end(src: Seq<u8>, i: int) -> int
    decreases src.len() - i,
{
    if at_end(src, i) || !ws_byte(src[i]) {
        i
    } else {
        skip_ws_end(src, i + 1)
    }
}

/// Whether a number or identifier scan stops just before position `i`.
/// Whitespace and the end always stop it; delimiters and operator starters
/// stop it only when the token began with a digit or a letter (`special`).
pub open spec fn scan_stop(src: Seq<u8>, i: int, special: bool) -> bool {
    at_end(src, i) || ws_byte(src[i]) || (special && (delim_byte(src[i]) || op_first_byte(src[i])))
}

/// The end of a number/identifier token whose second character would sit at
/// `i`: the first stopping position at or after `i`.
pub open spec fn scan_end(src: Seq<u8>, i: int, special: bool) -> int
    decreases src.len() - i,
{
    if scan_stop(src, i, special) {
        i
    } else {
        scan_end(src, i + 1, special)
    }
}

/// The characters of a byte range, one character per byte.
pub open spec fn chars_of(s: Seq<u8>) -> Seq<char> {
    s.map(|_i: int, b: u8| b as char)
}

/// Digits and at most one decimal point.
pub open spec fn number_ok(s: Seq<u8>) -> bool {
    (forall|k: int| 0 <= k < s.len() ==> digit_byte(s[k]) || s[k] == 46) && dots(s) <= 1
}

/// Letters and digits only.
pub open spec fn ident_ok(s: Seq<u8>) -> bool {
    forall|k: int| 0 <= k < s.len() ==> alnum_byte(s[k])
}

/// Number of decimal points in the byte sequence.
pub open spec fn dots(s: Seq<u8>) -> nat
    decreases s.len(),
{
    if s.len() == 0 {
        0
    } else {
        dots(s.drop_last()) + if s.last() == 46 {
            1nat
        } else {
            0nat
        }
    }
}

/// A number scan went wrong: a byte that is neither digit nor point, or a
/// second point.
pub open spec fn number_bad(s: Seq<u8>) -> bool {
    (exists|k: int| 0 <= k < s.len() && !digit_byte(s[k]) && s[k] != 46) || dots(s) >= 2
}

/// An identifier scan went wrong: a byte that is neither letter nor digit.
pub open spec fn ident_bad(s: Seq<u8>) -> bool {
    exists|k: int| 0 <= k < s.len() && !alnum_byte(s[k])
}

proof fn lemma_number_classification(s: Seq<u8>)
    ensures
        number_ok(s) <==> !number_bad(s),
{
}

proof fn lemma_skip_ws_end_range(src: Seq<u8>, i: int)
    requires
        0 <= i <= src.len(),
    ensures
        i <= skip_ws_end(src, i) <= src.len(),
        at_end(src, skip_ws_end(src, i)) || !ws_byte(src[skip_ws_end(src, i)]),
    decreases src.len() - i,
{
    if !(at_end(src, i) || !ws_byte(src[i])) {
        lemma_skip_ws_end_range(src, i + 1);
    }
}

proof fn lemma_scan_end_range(src: Seq<u8>, i: int, special: bool)
    requires
        0 <= i <= src.len(),
    ensures
        i <= scan_end(src, i, special) <= src.len(),
        scan_stop(src, scan_end(src, i, special), special),
    decreases src.len() - i,
{
    if !scan_stop(src, i, special) {
        lemma_scan_end_range(src, i + 1, special);
    }
}

// ---------------------------------------------------------------------------
// Tokens
// ---------------------------------------------------------------------------
/// A lexical token and the position of its last character in the source.
pub struct Token {
    pub str: String,
    pub line: u32,
    pub column: u32,
}

/// How a token is rendered inside error messages.
pub open spec fn token_display_spec(text: Seq<char>, line: u32, column: u32) -> Seq<char> {
    "\""@ + text + "\" - line "@ + crate::text::dec_digits(line as nat) + ", column "@
        + crate::text::dec_digits(column as nat)
}

/// The message for an operator that is neither a single `<`/`>` nor a valid
/// two-character operator.
pub open spec fn operator_error_spec(text: Seq<char>, line: u32, column: u32) -> Seq<char> {
    "Invalid token "@ + token_display_spec(text, line, column)
        + ". Note : recognized operators are ['<', '>'] and [\"&&\", \"||\", \"==\", \"!=\", \"<=\", \">=\"]."@
}

/// The message for a token that starts with a digit but is not a number.
pub open spec fn number_error_spec(text: Seq<char>, line: u32, column: u32) -> Seq<char> {
    "Invalid token "@ + token_display_spec(text, line, column)
        + ". It starts with a digit but is not a number."@
}

/// The message for an identifier holding a character that is neither a
/// letter nor a digit.
pub open spec fn identifier_error_spec(text: Seq<char>, line: u32, column: u32) -> Seq<char> {
    "Invalid token "@ + token_display_spec(text, line, column)
        + ". It contains illegal characters."@
}

impl Token {
    /// Renders the token as `"text" - line L, column C` for error messages.
    pub fn display_string(&self) -> (s: String)
        ensures
            s@ == token_display_spec(self.str@, self.line, self.column),
    {
        let mut s = String::new();
        s.append("\"");
        s.append(self.str.as_str());
        s.append("\" - line ");
        crate::text::append_u128(&mut s, self.line as u128);
        s.append(", column ");
        crate::text::append_u128(&mut s, self.column as u128);
        s
    }
}

// ---------------------------------------------------------------------------
// The lexer
// ---------------------------------------------------------------------------
/// Streams tokens out of an in-memory source buffer, tracking the line and
/// column of the reading position as it goes.
pub struct Lexer {
    src: Vec<u8>,
    pos: usize,
    line: u32,
    col: u32,
}

proof fn lemma_position_bounds(src: Seq<u8>, p: int)
    requires
        0 <= p,
    ensures
        0 <= nl_count(src, p) <= p,
        0 <= line_start(src, p) <= p,
    decreases p,
{
    if p > 0 {
        lemma_position_bounds(src, p - 1);
    }
}

impl Lexer {
    /// The source bytes being tokenized.
    pub closed spec fn bytes(&self) -> Seq<u8> {
        self.src@
    }

    /// The current reading position.
    pub closed spec fn at(&self) -> int {
        self.pos as int
    }

    /// The lexer's position counters agree with the source.
    pub closed spec fn wf(&self) -> bool {
        &&& self.pos <= self.src@.len()
        &&& self.src@.len() < u32::MAX
        &&& self.line == 1 + nl_count(self.src@, self.pos as int)
        &&& self.col == self.pos - line_start(self.src@, self.pos as int)
    }

    /// A well-formed lexer's position lies within its source.
    pub proof fn lemma_wf_bounds(&self)
        requires
            self.wf(),
        ensures
            0 <= self.at() <= self.bytes().len(),
    {
    }

    /// Starts tokenizing the given source text.
    pub fn new(source: Vec<u8>) -> (l: Lexer)
        requires
            source@.len() < u32::MAX,
        ensures
            l.wf(),
            l.bytes() == source@,
            l.at() == 0,
    {
        Lexer { src: source, pos: 0, line: 1, col: 0 }
    }

    fn at_end_now(&self) -> (r: bool)
        requires
            self.wf(),
        ensures
            r == at_end(self.bytes(), self.at()),
    {
        self.pos >= self.src.len() || self.src[self.pos] == 0
    }

    fn cur(&self) -> (b: u8)
        requires
            self.wf(),
            self.at() < self.bytes().len(),
        ensures
            b == self.bytes()[self.at()],
    {
        self.src[self.pos]
    }

    fn advance(&mut self)
        requires
            old(self).wf(),
            old(self).at() < old(self).bytes().len(),
        ensures
            final(self).wf(),
            final(self).bytes() == old(self).bytes(),
            final(self).at() == old(self).at() + 1,
            final(self).line == line_at(final(self).bytes(), old(self).at()),
            final(self).col == col_at(final(self).bytes(), old(self).at()),
    {
        proof {
            lemma_position_bounds(self.src@, self.pos as int);
        }
        let b = self.src[self.pos];
        self.pos = self.pos + 1;
        if b == 10 {
            self.line = self.line + 1;
            self.col = 0;
        } else {
            self.col = self.col + 1;
        }
    }
}

// ---------------------------------------------------------------------------
// What each scanning step yields
// ---------------------------------------------------------------------------
/// The token holds exactly this text and position.
pub open spec fn token_is(t: Token, text: Seq<char>, line: int, column: int) -> bool {
    t.str@ == text && t.line == line && t.column == column
}

/// An operator-starting character at `p` that does not complete a
/// two-character operator still stands alone when it is `<` or `>` followed
/// by the end, whitespace, a letter or digit, a delimiter, or another
/// operator character.
pub open spec fn op_single_ok(src: Seq<u8>, p: int) -> bool {
    &&& (src[p] == 60 || src[p] == 62)
    &&& (at_end(src, p + 1) || ws_byte(src[p + 1]) || alnum_byte(src[p + 1]) || delim_byte(
        src[p + 1],
    ) || op_first_byte(src[p + 1]))
}

/// What scanning an operator at position `p` produces: the two-character
/// operator when its completion follows, a lone `<`/`>` when that reads as a
/// single operator, and otherwise an error naming the malformed token.
pub open spec fn op_token_post(src: Seq<u8>, p: int, r: Result<Token, String>, p1: int) -> bool {
    let b = src[p];
    let exp = op_second_byte(b);
    if !at_end(src, p + 1) && src[p + 1] == exp {
        &&& r is Ok
        &&& token_is(r->Ok_0, seq![b as char, exp as char], line_at(src, p + 1), col_at(src, p + 1))
        &&& p1 == p + 2
    } else if op_single_ok(src, p) {
        &&& r is Ok
        &&& token_is(r->Ok_0, seq![b as char], line_at(src, p), col_at(src, p))
        &&& p1 == p + 1
    } else if at_end(src, p + 1) {
        &&& r is Err
        &&& r->Err_0@ == operator_error_spec(
            seq![b as char],
            line_at(src, p) as u32,
            col_at(src, p) as u32,
        )
        &&& p1 == p + 1
    } else {
        let b2 = src[p + 1];
        let jl = if ws_byte(b2) {
            line_at(src, p)
        } else {
            line_at(src, p + 1)
        };
        let jc = if ws_byte(b2) {
            col_at(src, p)
        } else {
            col_at(src, p + 1)
        };
        &&& r is Err
        &&& r->Err_0@ == operator_error_spec(seq![b as char, b2 as char], jl as u32, jc as u32)
        &&& p1 == p + 2
    }
}

impl Lexer {
    fn get_operator_token(&mut self) -> (r: Result<Token, String>)
        requires
            old(self).wf(),
            old(self).at() < old(self).bytes().len(),
            op_first_byte(old(self).bytes()[old(self).at()]),
        ensures
            final(self).wf(),
            final(self).bytes() == old(self).bytes(),
            op_token_post(old(self).bytes(), old(self).at(), r, final(self).at()),
    {
        let b = self.cur();
        let exp: u8 = if b == 33 || b == 60 || b == 62 {
            61
        } else {
            b
        };
        self.advance();
        let l1 = self.line;
        let c1 = self.col;
        if !self.at_end_now() && self.cur() == exp {
            self.advance();
            let mut text = String::new();
            push_char_pair(&mut text, b, exp);
            return Ok(Token { str: text, line: self.line, column: self.col });
        }
        let end2 = self.at_end_now();
        if (b == 60 || b == 62) && (end2 || {
            let b2 = self.cur();
            is_ws(b2) || is_alnum(b2) || is_delim(b2) || is_op_first(b2)
        }) {
            let mut text = String::new();
            crate::text::push_char(&mut text, b as char);
            return Ok(Token { str: text, line: l1, column: c1 });
        }
        if end2 {
            let mut text = String::new();
            crate::text::push_char(&mut text, b as char);
            let t = Token { str: text, line: l1, column: c1 };
            return Err(operator_error_message(&t));
        }
        let b2 = self.cur();
        self.advance();
        let mut text = String::new();
        push_char_pair(&mut text, b, b2);
        let t = if is_ws(b2) {
            Token { str: text, line: l1, column: c1 }
        } else {
            Token { str: text, line: self.line, column: self.col }
        };
        Err(operator_error_message(&t))
    }
}

fn push_char_pair(s: &mut String, b1: u8, b2: u8)
    ensures
        final(s)@ == old(s)@ + seq![b1 as char, b2 as char],
{
    crate::text::push_char(s, b1 as char);
    crate::text::push_char(s, b2 as char);
    proof {
        assert(s@ =~= old(s)@ + seq![b1 as char, b2 as char]);
    }
}

/// What scanning a number, identifier or other word at position `p`
/// produces.  The scan runs to the first stopping position; a word that
/// began with a digit must be a number, one that began with a letter must
/// be alphanumeric, and any other word is passed through for the parser to
/// reject.
pub open spec fn scan_token_post(src: Seq<u8>, p: int, r: Result<Token, String>, p1: int) -> bool {
    let b = src[p];
    let special = digit_byte(b) || alpha_byte(b);
    let e = scan_end(src, p + 1, special);
    let text = chars_of(src.subrange(p, e));
    let line = line_at(src, e - 1);
    let col = col_at(src, e - 1);
    &&& p1 == e
    &&& if digit_byte(b) {
        if number_ok(src.subrange(p, e)) {
            r is Ok && token_is(r->Ok_0, text, line, col)
        } else {
            r is Err && r->Err_0@ == number_error_spec(text, line as u32, col as u32)
        }
    } else if alpha_byte(b) {
        if ident_ok(src.subrange(p, e)) {
            r is Ok && token_is(r->Ok_0, text, line, col)
        } else {
            r is Err && r->Err_0@ == identifier_error_spec(text, line as u32, col as u32)
        }
    } else {
        r is Ok && token_is(r->Ok_0, text, line, col)
    }
}

impl Lexer {
    fn get_number_or_id_token(&mut self) -> (r: Result<Token, String>)
        requires
            old(self).wf(),
            old(self).at() < old(self).bytes().len(),
            !ws_byte(old(self).bytes()[old(self).at()]),
            old(self).bytes()[old(self).at()] != 0,
            !delim_byte(old(self).bytes()[old(self).at()]),
            !op_first_byte(old(self).bytes()[old(self).at()]),
        ensures
            final(self).wf(),
            final(self).bytes() == old(self).bytes(),
            scan_token_post(old(self).bytes(), old(self).at(), r, final(self).at()),
    {
        let ghost src = old(self).bytes();
        let ghost p = old(self).at();
        let b0 = self.cur();
        let number = is_digit(b0);
        let ident = is_alpha(b0);
        let special = number || ident;
        self.advance();
        let mut text = String::new();
        crate::text::push_char(&mut text, b0 as char);
        let mut tline = self.line;
        let mut tcol = self.col;
        let mut dot_seen = false;
        let mut failure = false;
        proof {
            assert(src.subrange(p, p + 1) =~= seq![src[p]]);
            assert(text@ =~= chars_of(src.subrange(p, p + 1)));
            assert(dots(src.subrange(p, p + 1)) == if b0 == 46 {
                1nat
            } else {
                0nat
            }) by {
                assert(src.subrange(p, p + 1).drop_last() =~= Seq::<u8>::empty());
                assert(dots(Seq::<u8>::empty()) == 0);
            }
        }
        loop
            invariant
                self.wf(),
                self.bytes() == src,
                0 <= p,
                p + 1 <= self.at() <= src.len(),
                scan_end(src, p + 1, special) == scan_end(src, self.at(), special),
                text@ == chars_of(src.subrange(p, self.at())),
                tline == line_at(src, self.at() - 1),
                tcol == col_at(src, self.at() - 1),
                number ==> dot_seen == (dots(src.subrange(p, self.at())) >= 1),
                failure == ((number && number_bad(src.subrange(p, self.at()))) || (ident
                    && ident_bad(src.subrange(p, self.at())))),
                number == digit_byte(src[p]),
                ident == alpha_byte(src[p]),
                special == (number || ident),
            ensures
                self.wf(),
                self.bytes() == src,
                p + 1 <= self.at() <= src.len(),
                self.at() == scan_end(src, p + 1, special),
                text@ == chars_of(src.subrange(p, self.at())),
                tline == line_at(src, self.at() - 1),
                tcol == col_at(src, self.at() - 1),
                failure == ((number && number_bad(src.subrange(p, self.at()))) || (ident
                    && ident_bad(src.subrange(p, self.at())))),
            decreases src.len() - self.at(),
        {
            if self.at_end_now() {
                break ;
            }
            let b = self.cur();
            if is_ws(b) {
                break ;
            }
            if special && (is_delim(b) || is_op_first(b)) {
                break ;
            }
            let ghost q = self.at();
            let ghost sub = src.subrange(p, q);
            self.advance();
            crate::text::push_char(&mut text, b as char);
            tline = self.line;
            tcol = self.col;
            proof {
                let sub2 = src.subrange(p, q + 1);
                assert(sub2 =~= sub.push(b));
                assert(chars_of(sub.push(b)) =~= chars_of(sub).push(b as char));
                assert(sub2.drop_last() =~= sub);
                assert(dots(sub2) == dots(sub) + if b == 46 {
                    1nat
                } else {
                    0nat
                });
            }
            if number && !is_digit(b) {
                if b == 46 && !dot_seen {
                    dot_seen = true;
                    proof {
                        let sub2 = src.subrange(p, q + 1);
                        if !failure {
                            assert(!number_bad(sub2)) by {
                                assert(forall|k: int|
                                    0 <= k < sub2.len() ==> digit_byte(sub2[k]) || sub2[k] == 46);
                            }
                        } else {
                            assert(number_bad(sub2));
                        }
                    }
                } else {
                    failure = true;
                    proof {
                        let sub2 = src.subrange(p, q + 1);
                        if b != 46 {
                            assert(!digit_byte(sub2[sub2.len() - 1]) && sub2[sub2.len() - 1]
                                != 46);
                            assert(number_bad(sub2));
                        } else {
                            assert(dots(sub2) >= 2);
                        }
                    }
                }
            } else {
                proof {
                    let sub2 = src.subrange(p, q + 1);
                    if number {
                        if !failure {
                            assert(!number_bad(sub2)) by {
                                assert(forall|k: int|
                                    0 <= k < sub2.len() ==> digit_byte(sub2[k]) || sub2[k] == 46);
                            }
                        }
                    }
                }
            }
            if ident && !is_alnum(b) {
                failure = true;
                proof {
                    let sub2 = src.subrange(p, q + 1);
                    assert(!alnum_byte(sub2[sub2.len() - 1]));
                    assert(ident_bad(sub2));
                }
            } else {
                proof {
                    let sub2 = src.subrange(p, q + 1);
                    if ident && !failure {
                        assert(!ident_bad(sub2)) by {
                            assert(forall|k: int| 0 <= k < sub2.len() ==> alnum_byte(sub2[k]));
                        }
                    }
                }
            }
        }
        proof {
            lemma_number_classification(src.subrange(p, self.at()));
        }
        if failure {
            let t = Token { str: text, line: tline, column: tcol };
            if number {
                return Err(number_error_message(&t));
            }
            return Err(identifier_error_message(&t));
        }
        Ok(Token { str: text, line: tline, column: tcol })
    }
}

/// What one `get_next_token` call yields, given the source and the position
/// `p0` it started from: whitespace is skipped, the end yields the empty
/// sentinel token, and otherwise the token starting at the first
/// non-whitespace byte is scanned as a delimiter, an operator, or a
/// number/identifier/word.
pub open spec fn next_token_post(
    src: Seq<u8>,
    p0: int,
    r: Result<Token, String>,
    p1: int,
) -> bool {
    let p = skip_ws_end(src, p0);
    if at_end(src, p) {
        &&& r is Ok
        &&& r->Ok_0.str@ == Seq::<char>::empty()
        &&& r->Ok_0.line == 1 + nl_count(src, p)
        &&& r->Ok_0.column == p - line_start(src, p)
        &&& p1 == p
    } else {
        let b = src[p];
        if delim_byte(b) {
            &&& r is Ok
            &&& token_is(r->Ok_0, seq![b as char], line_at(src, p), col_at(src, p))
            &&& p1 == p + 1
        } else if op_first_byte(b) {
            op_token_post(src, p, r, p1)
        } else {
            scan_token_post(src, p, r, p1)
        }
    }
}

// ---------------------------------------------------------------------------
// The tokenizer as a function
// ---------------------------------------------------------------------------
/// What one scan yields, as plain values: whether a token came out, its
/// text and reported position, the message otherwise, and where the next
/// scan starts.
pub struct TokOut {
    pub ok: bool,
    pub text: Seq<char>,
    pub line: int,
    pub col: int,
    pub err: Seq<char>,
    pub next: int,
}

/// The scan at `p0`, as a function of the source alone.  This is the same
/// case analysis as [`next_token_post`], which `lemma_next_token_fun`
/// proves; the syntax analysis is specified against this functional form.
#[verifier::opaque]
pub open spec fn tok(src: Seq<u8>, p0: int) -> TokOut {
    let p = skip_ws_end(src, p0);
    if at_end(src, p) {
        TokOut {
            ok: true,
            text: Seq::empty(),
            line: 1 + nl_count(src, p),
            col: p - line_start(src, p),
            err: Seq::empty(),
            next: p,
        }
    } else {
        let b = src[p];
        if delim_byte(b) {
            TokOut {
                ok: true,
                text: seq![b as char],
                line: line_at(src, p),
                col: col_at(src, p),
                err: Seq::empty(),
                next: p + 1,
            }
        } else if op_first_byte(b) {
            let exp = op_second_byte(b);
            if !at_end(src, p + 1) && src[p + 1] == exp {
                TokOut {
                    ok: true,
                    text: seq![b as char, exp as char],
                    line: line_at(src, p + 1),
                    col: col_at(src, p + 1),
                    err: Seq::empty(),
                    next: p + 2,
                }
            } else if op_single_ok(src, p) {
                TokOut {
                    ok: true,
                    text: seq![b as char],
                    line: line_at(src, p),
                    col: col_at(src, p),
                    err: Seq::empty(),
                    next: p + 1,
                }
            } else if at_end(src, p + 1) {
                TokOut {
                    ok: false,
                    text: Seq::empty(),
                    line: 0,
                    col: 0,
                    err: operator_error_spec(
                        seq![b as char],
                        line_at(src, p) as u32,
                        col_at(src, p) as u32,
                    ),
                    next: p + 1,
                }
            } else {
                let b2 = src[p + 1];
                let jl = if ws_byte(b2) {
                    line_at(src, p)
                } else {
                    line_at(src, p + 1)
                };
                let jc = if ws_byte(b2) {
                    col_at(src, p)
                } else {
                    col_at(src, p + 1)
                };
                TokOut {
                    ok: false,
                    text: Seq::empty(),
                    line: 0,
                    col: 0,
                    err: operator_error_spec(seq![b as char, b2 as char], jl as u32, jc as u32),
                    next: p + 2,
                }
            }
        } else {
            let special = digit_byte(b) || alpha_byte(b);
            let e = scan_end(src, p + 1, special);
            let text = chars_of(src.subrange(p, e));
            let line = line_at(src, e - 1);
            let col = col_at(src, e - 1);
            if digit_byte(b) && !number_ok(src.subrange(p, e)) {
                TokOut {
                    ok: false,
                    text: Seq::empty(),
                    line: 0,
                    col: 0,
                    err: number_error_spec(text, line as u32, col as u32),
                    next: e,
                }
            } else if alpha_byte(b) && !ident_ok(src.subrange(p, e)) {
                TokOut {
                    ok: false,
                    text: Seq::empty(),
                    line: 0,
                    col: 0,
                    err: identifier_error_spec(text, line as u32, col as u32),
                    next: e,
                }
            } else {
                TokOut { ok: true, text, line, col, err: Seq::empty(), next: e }
            }
        }
    }
}

/// The relational contract of `get_next_token` determines the functional
/// scan: both sides agree on success, text, position and message.
pub proof fn lemma_next_token_fun(src: Seq<u8>, p0: int, r: Result<Token, String>, p1: int)
    requires
        0 <= p0 <= src.len(),
        next_token_post(src, p0, r, p1),
    ensures
        p1 == tok(src, p0).next,
        r is Ok <==> tok(src, p0).ok,
        r is Ok ==> r->Ok_0.str@ == tok(src, p0).text && r->Ok_0.line == tok(src, p0).line
            && r->Ok_0.column == tok(src, p0).col,
        r is Err ==> r->Err_0@ == tok(src, p0).err,
{
    reveal(tok);
    lemma_skip_ws_end_range(src, p0);
    let p = skip_ws_end(src, p0);
    if !at_end(src, p) {
        let b = src[p];
        if !delim_byte(b) && !op_first_byte(b) {
            lemma_scan_end_range(src, p + 1, digit_byte(b) || alpha_byte(b));
            let e = scan_end(src, p + 1, digit_byte(b) || alpha_byte(b));
            assert(src.subrange(p, e).len() == e - p);
        }
    }
}

impl Lexer {
    /// Reads the next token.  Whitespace separates tokens; the end of the
    /// input yields an empty token; a malformed operator or a word that
    /// starts with a digit without being a number, or with a letter while
    /// holding an illegal character, yields an error naming the token and
    /// its position.
    pub fn get_next_token(&mut self) -> (r: Result<Token, String>)
        requires
            old(self).wf(),
        ensures
            final(self).wf(),
            final(self).bytes() == old(self).bytes(),
            old(self).at() <= final(self).at() <= final(self).bytes().len(),
            next_token_post(old(self).bytes(), old(self).at(), r, final(self).at()),
            r is Ok && r->Ok_0.str@.len() > 0 ==> final(self).at() > old(self).at(),
    {
        let ghost src = old(self).bytes();
        let ghost p0 = old(self).at();
        loop
            invariant
                self.wf(),
                self.bytes() == src,
                0 <= p0 <= self.at() <= src.len(),
                skip_ws_end(src, p0) == skip_ws_end(src, self.at()),
            ensures
                self.wf(),
                self.bytes() == src,
                p0 <= self.at() <= src.len(),
                self.at() == skip_ws_end(src, p0),
                at_end(src, self.at()) || !ws_byte(src[self.at()]),
            decreases src.len() - self.at(),
        {
            if self.at_end_now() {
                break ;
            }
            if !is_ws(self.cur()) {
                break ;
            }
            self.advance();
        }
        let ghost p = self.at();
        if self.at_end_now() {
            return Ok(Token { str: String::new(), line: self.line, column: self.col });
        }
        let b = self.cur();
        if is_delim(b) {
            self.advance();
            let mut text = String::new();
            crate::text::push_char(&mut text, b as char);
            proof {
                assert(text@ =~= seq![b as char]);
            }
            return Ok(Token { str: text, line: self.line, column: self.col });
        }
        if is_op_first(b) {
            let r = self.get_operator_token();
            proof {
                if r is Ok && r->Ok_0.str@.len() > 0 {
                    assert(self.at() > p0);
                }
            }
            return r;
        }
        let r = self.get_number_or_id_token();
        proof {
            lemma_scan_end_range(src, p + 1, digit_byte(src[p]) || alpha_byte(src[p]));
        }
        r
    }
}

fn number_error_message(t: &Token) -> (m: String)
    ensures
        m@ == number_error_spec(t.str@, t.line, t.column),
{
    let mut m = String::new();
    m.append("Invalid token ");
    let d = t.display_string();
    m.append(d.as_str());
    m.append(". It starts with a digit but is not a number.");
    m
}

fn identifier_error_message(t: &Token) -> (m: String)
    ensures
        m@ == identifier_error_spec(t.str@, t.line, t.column),
{
    let mut m = String::new();
    m.append("Invalid token ");
    let d = t.display_string();
    m.append(d.as_str());
    m.append(". It contains illegal characters.");
    m
}

fn operator_error_message(t: &Token) -> (m: String)
    ensures
        m@ == operator_error_spec(t.str@, t.line, t.column),
{
    let mut m = String::new();
    m.append("Invalid token ");
    let d = t.display_string();
    m.append(d.as_str());
    m.append(
        ". Note : recognized operators are ['<', '>'] and [\"&&\", \"||\", \"==\", \"!=\", \"<=\", \">=\"].",
    );
    m
}

} // verus!
