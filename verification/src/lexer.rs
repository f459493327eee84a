//! The tokenizer: text to a stream of symbols. Numbers carry an exact
//! fraction: an integer literal becomes n/1, and a decimal literal with k
//! fractional digits becomes its exact value over 10^k. A malformed or
//! overflowing numeric literal falls back to the zero fraction, and an
//! unrecognized character ends the stream.

use vstd::prelude::*;
use crate::fraction::{spec_reduce, Fraction};

verus! {

/// A lexical symbol.
#[derive(Debug)]
pub enum Token {
    Number(Fraction),
    Variable(String),
    Plus,
    Minus,
    Multiply,
    Divide,
    Power,
    Equal,
    OpenParen,
    CloseParen,
    EOF,
}

/// The model of a lexical symbol.
pub enum SToken {
    Number(Fraction),
    Variable(Seq<char>),
    Plus,
    Minus,
    Multiply,
    Divide,
    Power,
    Equal,
    OpenParen,
    CloseParen,
    EOF,
}

impl View for Token {
    type V = SToken;

    open spec fn view(&self) -> SToken {
        match self {
            Token::Number(f) => SToken::Number(*f),
            Token::Variable(v) => SToken::Variable(v@),
            Token::Plus => SToken::Plus,
            Token::Minus => SToken::Minus,
            Token::Multiply => SToken::Multiply,
            Token::Divide => SToken::Divide,
            Token::Power => SToken::Power,
            Token::Equal => SToken::Equal,
            Token::OpenParen => SToken::OpenParen,
            Token::CloseParen => SToken::CloseParen,
            Token::EOF => SToken::EOF,
        }
    }
}

/// ASCII whitespace.
pub open spec fn is_space_char(c: char) -> bool {
    c == ' ' || c == '\t' || c == '\n' || c == '\r'
}

/// ASCII decimal digit.
pub open spec fn is_digit_char(c: char) -> bool {
    48 <= c as u32 <= 57
}

/// ASCII letter.
pub open spec fn is_alpha_char(c: char) -> bool {
    (65 <= c as u32 <= 90) || (97 <= c as u32 <= 122)
}

/// ASCII letter or digit.
pub open spec fn is_alnum_char(c: char) -> bool {
    is_alpha_char(c) || is_digit_char(c)
}

/// Digit or decimal point: a character of a numeric literal.
pub open spec fn is_numchar(c: char) -> bool {
    is_digit_char(c) || c == '.'
}

/// First position at or after `pos` holding no whitespace.
pub open spec fn skip_ws(input: Seq<char>, pos: nat) -> nat
    decreases input.len() - pos,
{
    if pos < input.len() && is_space_char(input[pos as int]) {
        skip_ws(input, pos + 1)
    } else {
        pos
    }
}

/// First position at or after `pos` past the numeric literal characters.
pub open spec fn scan_num_end(input: Seq<char>, pos: nat) -> nat
    decreases input.len() - pos,
{
    if pos < input.len() && is_numchar(input[pos as int]) {
        scan_num_end(input, pos + 1)
    } else {
        pos
    }
}

/// First position at or after `pos` past the letters and digits.
pub open spec fn scan_alnum_end(input: Seq<char>, pos: nat) -> nat
    decreases input.len() - pos,
{
    if pos < input.len() && is_alnum_char(input[pos as int]) {
        scan_alnum_end(input, pos + 1)
    } else {
        pos
    }
}

/// State of the numeric-literal reader.
pub struct NumSt {
    /// The literal is still well-formed and within range.
    pub ok: bool,
    /// Digits read so far, as one integer.
    pub val: int,
    /// A decimal point has been read.
    pub dotted: bool,
    /// Digits read after the decimal point.
    pub fdigits: nat,
}

/// Powers of ten.
pub open spec fn pow10(k: nat) -> int
    decreases k,
{
    if k == 0 {
        1
    } else {
        10 * pow10((k - 1) as nat)
    }
}

/// Read one character of a numeric literal: a second decimal point, a
/// 19th fractional digit or a value beyond the 64-bit range spoils it.
pub open spec fn num_step(st: NumSt, c: char) -> NumSt {
    if !st.ok {
        st
    } else if c == '.' {
        if st.dotted {
            NumSt { ok: false, ..st }
        } else {
            NumSt { dotted: true, ..st }
        }
    } else {
        let d = c as u32 - 48;
        let v2 = st.val * 10 + d;
        if v2 > i64::MAX {
            NumSt { ok: false, ..st }
        } else if st.dotted {
            if st.fdigits >= 18 {
                NumSt { ok: false, ..st }
            } else {
                NumSt { val: v2, fdigits: st.fdigits + 1, ..st }
            }
        } else {
            NumSt { val: v2, ..st }
        }
    }
}

/// Read a run of numeric-literal characters, left to right.
pub open spec fn num_run(st: NumSt, chars: Seq<char>) -> NumSt
    decreases chars.len(),
{
    if chars.len() == 0 {
        st
    } else {
        num_run(num_step(st, chars[0]), chars.skip(1))
    }
}

/// The initial reader state.
pub open spec fn num_init() -> NumSt {
    NumSt { ok: true, val: 0, dotted: false, fdigits: 0 }
}

/// The exact fraction of a numeric literal: the digits over ten to the
/// number of fractional digits, reduced; zero for a spoiled literal.
pub open spec fn num_token_value(chars: Seq<char>) -> Fraction {
    let st = num_run(num_init(), chars);
    if st.ok {
        spec_reduce(st.val, pow10(st.fdigits))
    } else {
        Fraction { num: 0, den: 1 }
    }
}

/// The next symbol of the input from `pos`, and the position after it.
pub open spec fn spec_next_token(input: Seq<char>, pos: nat) -> (SToken, nat) {
    let p = skip_ws(input, pos);
    if p >= input.len() {
        (SToken::EOF, p)
    } else {
        let c = input[p as int];
        if is_numchar(c) {
            let end = scan_num_end(input, p);
            (SToken::Number(num_token_value(input.subrange(p as int, end as int))), end)
        } else if is_alpha_char(c) {
            let end = scan_alnum_end(input, p);
            (SToken::Variable(input.subrange(p as int, end as int)), end)
        } else if c == '+' {
            (SToken::Plus, p + 1)
        } else if c == '-' {
            (SToken::Minus, p + 1)
        } else if c == '*' {
            (SToken::Multiply, p + 1)
        } else if c == '/' {
            (SToken::Divide, p + 1)
        } else if c == '(' {
            (SToken::OpenParen, p + 1)
        } else if c == ')' {
            (SToken::CloseParen, p + 1)
        } else if c == '^' {
            (SToken::Power, p + 1)
        } else if c == '=' {
            (SToken::Equal, p + 1)
        } else {
            (SToken::EOF, p + 1)
        }
    }
}

/// Positions never move backwards, and stay within the input.
pub proof fn lemma_skip_ws_bounds(input: Seq<char>, pos: nat)
    requires
        pos <= input.len(),
    ensures
        pos <= skip_ws(input, pos) <= input.len(),
    decreases input.len() - pos,
{
    if pos < input.len() && is_space_char(input[pos as int]) {
        lemma_skip_ws_bounds(input, pos + 1);
    }
}

/// Numeric scans never move backwards, and stay within the input.
pub proof fn lemma_scan_num_bounds(input: Seq<char>, pos: nat)
    requires
        pos <= input.len(),
    ensures
        pos <= scan_num_end(input, pos) <= input.len(),
    decreases input.len() - pos,
{
    if pos < input.len() && is_numchar(input[pos as int]) {
        lemma_scan_num_bounds(input, pos + 1);
    }
}

/// Name scans never move backwards, and stay within the input.
pub proof fn lemma_scan_alnum_bounds(input: Seq<char>, pos: nat)
    requires
        pos <= input.len(),
    ensures
        pos <= scan_alnum_end(input, pos) <= input.len(),
    decreases input.len() - pos,
{
    if pos < input.len() && is_alnum_char(input[pos as int]) {
        lemma_scan_alnum_bounds(input, pos + 1);
    }
}

/// The next token never moves backwards, ends inside the input, and
/// advances whenever it is not the end marker.
pub proof fn lemma_next_token_advances(input: Seq<char>, pos: nat)
    requires
        pos <= input.len(),
    ensures
        pos <= spec_next_token(input, pos).1 <= input.len(),
        !(spec_next_token(input, pos).0 is EOF) ==> spec_next_token(input, pos).1 > pos,
{
    lemma_skip_ws_bounds(input, pos);
    let p = skip_ws(input, pos);
    if p < input.len() {
        let c = input[p as int];
        if is_numchar(c) {
            lemma_scan_num_bounds(input, p);
            assert(scan_num_end(input, p) == scan_num_end(input, p + 1));
            lemma_scan_num_bounds(input, p + 1);
        } else if is_alpha_char(c) {
            lemma_scan_alnum_bounds(input, p);
            assert(scan_alnum_end(input, p) == scan_alnum_end(input, p + 1));
            lemma_scan_alnum_bounds(input, p + 1);
        }
    }
}

/// The token stream from `pos`: every symbol up to and including the end
/// marker.
pub open spec fn spec_tokenize(input: Seq<char>, pos: nat) -> Seq<SToken>
    decreases input.len() - pos,
    when pos <= input.len()
    via spec_tokenize_decreases
{
    let (t, np) = spec_next_token(input, pos);
    if t is EOF {
        seq![t]
    } else {
        seq![t] + spec_tokenize(input, np)
    }
}

#[via_fn]
proof fn spec_tokenize_decreases(input: Seq<char>, pos: nat) {
    lemma_next_token_advances(input, pos);
}

/// How many symbols precede the end marker.
pub open spec fn spec_count(input: Seq<char>, pos: nat) -> nat
    decreases input.len() - pos,
    when pos <= input.len()
    via spec_count_decreases
{
    let (t, np) = spec_next_token(input, pos);
    if t is EOF {
        0
    } else {
        1 + spec_count(input, np)
    }
}

#[via_fn]
proof fn spec_count_decreases(input: Seq<char>, pos: nat) {
    lemma_next_token_advances(input, pos);
}

/// Relies on `String::push`: appends exactly one character at the end.
#[verifier::external_body]
fn push_char(s: &mut String, c: char)
    ensures
        final(s)@ == old(s)@.push(c),
{
    s.push(c)
}

/// The characters of a string slice, in order.
fn str_to_chars(s: &str) -> (r: Vec<char>)
    ensures
        r@ == s@,
{
    let n = s.unicode_len();
    let mut out: Vec<char> = Vec::new();
    let mut i: usize = 0;
    while i < n
        invariant
            i <= n,
            n == s@.len(),
            out@ == s@.take(i as int),
        decreases n - i,
    {
        let c = s.get_char(i);
        out.push(c);
        proof {
            assert(out@ =~= s@.take(i + 1));
        }
        i = i + 1;
    }
    proof {
        assert(out@ =~= s@);
    }
    out
}

/// The tokenizer's cursor over the input characters.
pub struct Lexer {
    /// The input, one character per cell.
    pub input: Vec<char>,
    /// The cursor: the next character to read.
    pub pos: usize,
}

impl Lexer {
    /// A lexer at the start of the given text.
    pub fn new(input: &str) -> (r: Lexer)
        ensures
            r.input@ == input@,
            r.pos == 0,
    {
        Lexer { input: str_to_chars(input), pos: 0 }
    }

    /// Read the next symbol and move the cursor past it.
    pub fn next_token(&mut self) -> (t: Token)
        requires
            old(self).pos <= old(self).input@.len(),
        ensures
            final(self).input@ == old(self).input@,
            t@ == spec_next_token(old(self).input@, old(self).pos as nat).0,
            final(self).pos == spec_next_token(old(self).input@, old(self).pos as nat).1,
            final(self).pos <= final(self).input@.len(),
    {
        proof {
            lemma_next_token_advances(self.input@, self.pos as nat);
        }
        let ghost input = self.input@;
        let len = self.input.len();
        while self.pos < len && is_space_exec(self.input[self.pos])
            invariant
                self.input@ == input,
                len == input.len(),
                self.pos <= len,
                skip_ws(input, self.pos as nat) == skip_ws(input, old(self).pos as nat),
            decreases len - self.pos,
        {
            self.pos = self.pos + 1;
        }
        let p = self.pos;
        proof {
            assert(p as nat == skip_ws(input, old(self).pos as nat));
        }
        if p >= len {
            return Token::EOF;
        }
        let c = self.input[p];
        if is_num_exec(c) {
            let f = self.read_number();
            proof {
                lemma_next_token_advances(input, old(self).pos as nat);
            }
            Token::Number(f)
        } else if is_alpha_exec(c) {
            let name = self.read_name();
            Token::Variable(name)
        } else {
            self.pos = p + 1;
            if c == '+' {
                Token::Plus
            } else if c == '-' {
                Token::Minus
            } else if c == '*' {
                Token::Multiply
            } else if c == '/' {
                Token::Divide
            } else if c == '(' {
                Token::OpenParen
            } else if c == ')' {
                Token::CloseParen
            } else if c == '^' {
                Token::Power
            } else if c == '=' {
                Token::Equal
            } else {
                Token::EOF
            }
        }
    }

    /// Read one numeric literal at the cursor into its exact fraction.
    fn read_number(&mut self) -> (f: Fraction)
        requires
            old(self).pos < old(self).input@.len(),
            is_numchar(old(self).input@[old(self).pos as int]),
        ensures
            final(self).input@ == old(self).input@,
            final(self).pos == scan_num_end(old(self).input@, old(self).pos as nat),
            f == num_token_value(
                old(self).input@.subrange(
                    old(self).pos as int,
                    scan_num_end(old(self).input@, old(self).pos as nat) as int,
                ),
            ),
    {
        let ghost input = self.input@;
        let ghost p0 = self.pos as nat;
        let ghost end = scan_num_end(input, p0);
        proof {
            lemma_scan_num_bounds(input, p0);
        }
        let len = self.input.len();
        let mut ok = true;
        let mut val: i64 = 0;
        let mut dotted = false;
        let mut fdigits: u32 = 0;
        while self.pos < len && is_num_exec(self.input[self.pos])
            invariant
                self.input@ == input,
                len == input.len(),
                p0 <= self.pos as nat && self.pos as nat <= len,
                self.pos as nat <= end <= len,
                scan_num_end(input, self.pos as nat) == end,
                fdigits <= 18,
                val >= 0,
                num_run(num_init(), input.subrange(p0 as int, end as int)) == num_run(
                    NumSt { ok: ok, val: val as int, dotted: dotted, fdigits: fdigits as nat },
                    input.subrange(self.pos as int, end as int),
                ),
            decreases len - self.pos,
        {
            let c = self.input[self.pos];
            let ghost st_pre = NumSt {
                ok: ok,
                val: val as int,
                dotted: dotted,
                fdigits: fdigits as nat,
            };
            proof {
                assert(scan_num_end(input, self.pos as nat) == scan_num_end(
                    input,
                    self.pos as nat + 1,
                ));
                lemma_scan_num_bounds(input, self.pos as nat + 1);
                assert((self.pos as nat) < end);
                let rem = input.subrange(self.pos as int, end as int);
                assert(rem[0] == c);
                assert(rem.skip(1) =~= input.subrange(self.pos as int + 1, end as int));
                assert(num_run(st_pre, rem) == num_run(num_step(st_pre, c), rem.skip(1)));
            }
            if ok {
                if c == '.' {
                    if dotted {
                        ok = false;
                    } else {
                        dotted = true;
                    }
                } else {
                    let d = (c as u32 - 48) as i64;
                    let v2: i128 = (val as i128) * 10 + (d as i128);
                    if v2 > i64::MAX as i128 {
                        ok = false;
                    } else if dotted {
                        if fdigits >= 18 {
                            ok = false;
                        } else {
                            val = v2 as i64;
                            fdigits = fdigits + 1;
                        }
                    } else {
                        val = v2 as i64;
                    }
                }
            }
            self.pos = self.pos + 1;
        }
        proof {
            assert(self.pos as nat == end);
            assert(input.subrange(end as int, end as int) =~= Seq::<char>::empty());
        }
        let ghost run = input.subrange(p0 as int, end as int);
        let ghost st = num_run(num_init(), run);
        proof {
            assert(st == NumSt { ok: ok, val: val as int, dotted: dotted, fdigits: fdigits as nat });
        }
        if ok {
            proof {
                lemma_pow10_bounds(fdigits as nat);
            }
            let m = pow10_exec(fdigits);
            let r = Fraction::new(val, m);
            r
        } else {
            proof {
                crate::fraction::lemma_wf_unit_den(0);
            }
            Fraction { num: 0, den: 1 }
        }
    }

    /// Read one name (letters then letters-or-digits) at the cursor.
    fn read_name(&mut self) -> (name: String)
        requires
            old(self).pos < old(self).input@.len(),
        ensures
            final(self).input@ == old(self).input@,
            final(self).pos == scan_alnum_end(old(self).input@, old(self).pos as nat),
            name@ == old(self).input@.subrange(
                old(self).pos as int,
                scan_alnum_end(old(self).input@, old(self).pos as nat) as int,
            ),
    {
        let ghost input = self.input@;
        let ghost p0 = self.pos as nat;
        proof {
            lemma_scan_alnum_bounds(input, p0);
        }
        let len = self.input.len();
        let mut name = String::new();
        while self.pos < len && is_alnum_exec(self.input[self.pos])
            invariant
                self.input@ == input,
                len == input.len(),
                p0 <= self.pos as nat && self.pos as nat <= len,
                scan_alnum_end(input, self.pos as nat) == scan_alnum_end(input, p0),
                name@ == input.subrange(p0 as int, self.pos as int),
            decreases len - self.pos,
        {
            let c = self.input[self.pos];
            push_char(&mut name, c);
            proof {
                assert(name@ =~= input.subrange(p0 as int, self.pos as int + 1));
            }
            self.pos = self.pos + 1;
        }
        name
    }

    /// All symbols up to and including the end marker.
    pub fn tokenize(&mut self) -> (r: Vec<Token>)
        requires
            old(self).pos <= old(self).input@.len(),
        ensures
            final(self).input@ == old(self).input@,
            final(self).pos <= final(self).input@.len(),
            tok_views(r@) == spec_tokenize(old(self).input@, old(self).pos as nat),
    {
        let ghost input = self.input@;
        let ghost p0 = self.pos as nat;
        let mut out: Vec<Token> = Vec::new();
        proof {
            assert(tok_views(out@) =~= Seq::<SToken>::empty());
            assert(tok_views(out@) + spec_tokenize(input, self.pos as nat) =~= spec_tokenize(
                input,
                p0,
            ));
        }
        loop
            invariant
                input == old(self).input@,
                p0 == old(self).pos as nat,
                self.input@ == input,
                self.pos <= input.len(),
                tok_views(out@) + spec_tokenize(input, self.pos as nat) == spec_tokenize(
                    input,
                    p0,
                ),
            decreases input.len() - self.pos,
        {
            let ghost pos_pre = self.pos as nat;
            let ghost out_pre = tok_views(out@);
            let t = self.next_token();
            proof {
                lemma_next_token_advances(input, pos_pre);
            }
            let stop = is_eof(&t);
            out.push(t);
            proof {
                assert(tok_views(out@) =~= out_pre.push(
                    spec_next_token(input, pos_pre).0,
                ));
            }
            if stop {
                proof {
                    assert(spec_tokenize(input, pos_pre) == seq![
                        spec_next_token(input, pos_pre).0,
                    ]);
                    assert(tok_views(out@) =~= out_pre + spec_tokenize(input, pos_pre));
                }
                return out;
            }
            proof {
                assert(spec_tokenize(input, pos_pre) == seq![
                    spec_next_token(input, pos_pre).0,
                ] + spec_tokenize(input, self.pos as nat));
                assert(tok_views(out@) + spec_tokenize(input, self.pos as nat) =~= out_pre
                    + spec_tokenize(input, pos_pre));
            }
        }
    }
}

/// Whether the token is the end marker.
pub fn is_eof(t: &Token) -> (r: bool)
    ensures
        r <==> t@ is EOF,
{
    match t {
        Token::EOF => true,
        _ => false,
    }
}

/// The models of a vector of tokens.
pub open spec fn tok_views(s: Seq<Token>) -> Seq<SToken> {
    s.map_values(|t: Token| t@)
}

/// Powers of ten stay within the 64-bit range up to the 18th.
proof fn lemma_pow10_bounds(k: nat)
    requires
        k <= 18,
    ensures
        1 <= pow10(k) <= 1_000_000_000_000_000_000,
    decreases k,
{
    reveal_with_fuel(pow10, 19);
    if k > 0 {
        lemma_pow10_bounds((k - 1) as nat);
        if k < 18 {
            assert(pow10(k) <= 1_000_000_000_000_000_00) by {
                lemma_pow10_le_rec(k, 17);
            }
        } else {
            lemma_pow10_le_rec(k, 18);
        }
    }
}

/// Powers of ten grow with the exponent.
proof fn lemma_pow10_le_rec(a: nat, b: nat)
    requires
        a <= b,
    ensures
        pow10(a) <= pow10(b),
        pow10(a) >= 1,
    decreases b,
{
    if a == b {
        lemma_pow10_pos(a);
    } else {
        lemma_pow10_le_rec(a, (b - 1) as nat);
    }
}

/// Powers of ten are positive.
proof fn lemma_pow10_pos(k: nat)
    ensures
        pow10(k) >= 1,
    decreases k,
{
    if k > 0 {
        lemma_pow10_pos((k - 1) as nat);
    }
}

/// Ten raised to a small power.
fn pow10_exec(k: u32) -> (r: i64)
    requires
        k <= 18,
    ensures
        r as int == pow10(k as nat),
{
    proof {
        lemma_pow10_bounds(k as nat);
    }
    let mut m: i64 = 1;
    let mut i: u32 = 0;
    while i < k
        invariant
            i <= k <= 18,
            m as int == pow10(i as nat),
        decreases k - i,
    {
        proof {
            lemma_pow10_bounds(i as nat + 1);
        }
        m = m * 10;
        i = i + 1;
    }
    m
}

/// ASCII whitespace test.
fn is_space_exec(c: char) -> (r: bool)
    ensures
        r == is_space_char(c),
{
    c == ' ' || c == '\t' || c == '\n' || c == '\r'
}

/// Numeric-literal character test.
fn is_num_exec(c: char) -> (r: bool)
    ensures
        r == is_numchar(c),
{
    let u = c as u32;
    (48 <= u && u <= 57) || c == '.'
}

/// Letter test.
fn is_alpha_exec(c: char) -> (r: bool)
    ensures
        r == is_alpha_char(c),
{
    let u = c as u32;
    (65 <= u && u <= 90) || (97 <= u && u <= 122)
}

/// Letter-or-digit test.
fn is_alnum_exec(c: char) -> (r: bool)
    ensures
        r == is_alnum_char(c),
{
    let u = c as u32;
    (65 <= u && u <= 90) || (97 <= u && u <= 122) || (48 <= u && u <= 57)
}

} // verus!
