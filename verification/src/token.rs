use vstd::prelude::*;

use vstd::string::StrSliceExecFns;

use vstd::arithmetic::power::{
    pow, lemma_pow_adds, lemma_pow_positive, lemma_pow1, lemma_pow_increases, lemma0_pow,
    lemma1_pow,
};

use crate::{ASSOC_LEFT, ASSOC_RIGHT};

verus! {

/// One lexical unit of an arithmetic expression: a number literal, a binary
/// operator, or a parenthesis.
#[derive(Debug, Clone, Copy, PartialEq, Eq, Structural)]
pub enum Token {
    Number(i32),
    Plus,
    Minus,
    Multiply,
    Divide,
    Power,
    LeftParen,
    RightParen,
}

/// Whether a token is a binary operator.
pub open spec fn spec_is_operator(t: Token) -> bool {
    match t {
        Token::Plus | Token::Minus | Token::Multiply | Token::Divide | Token::Power => true,
        _ => false,
    }
}

/// The precedence of an operator token; higher binds tighter.
/// Non-operator tokens have precedence 0, below every operator.
pub open spec fn spec_precedence(t: Token) -> int {
    match t {
        Token::Plus | Token::Minus => 1,
        Token::Multiply | Token::Divide => 2,
        Token::Power => 3,
        _ => 0,
    }
}

/// The associativity of an operator token: `ASSOC_RIGHT` only for `^`.
pub open spec fn spec_assoc(t: Token) -> i32 {
    match t {
        Token::Power => ASSOC_RIGHT,
        _ => ASSOC_LEFT,
    }
}

/// Whether a character is whitespace between tokens.
pub open spec fn is_space_char(c: char) -> bool {
    c == ' ' || c == '\t' || c == '\n' || c == '\r'
}

/// Whether a character is a decimal digit.
pub open spec fn is_digit_char(c: char) -> bool {
    '0' as int <= c as int && c as int <= '9' as int
}

/// The numeric value of a decimal digit character.
pub open spec fn digit_value(c: char) -> int {
    c as int - '0' as int
}

/// Whether a character is an operator or parenthesis symbol.
pub open spec fn is_symbol_char(c: char) -> bool {
    c == '+' || c == '-' || c == '*' || c == '/' || c == '^' || c == '(' || c == ')'
}

/// The token a symbol character stands for.
pub open spec fn symbol_token(c: char) -> Token {
    if c == '+' {
        Token::Plus
    } else if c == '-' {
        Token::Minus
    } else if c == '*' {
        Token::Multiply
    } else if c == '/' {
        Token::Divide
    } else if c == '^' {
        Token::Power
    } else if c == '(' {
        Token::LeftParen
    } else {
        Token::RightParen
    }
}

/// The token sequence of a character sequence.
///
/// Whitespace before a token is skipped; a digit starts a maximal digit run
/// read as a base-10 number; a symbol stands for its token. The sequence ends
/// at the end of the characters, at the first unrecognized character, or at a
/// number too large for `i32` (its `Number` token is not produced either).
pub open spec fn spec_tokenize(s: Seq<char>) -> Seq<Token>
    decreases s.len(), 0int,
{
    if s.len() == 0 {
        Seq::empty()
    } else if is_space_char(s[0]) {
        spec_tokenize(s.drop_first())
    } else if is_digit_char(s[0]) {
        spec_scan_number(s.drop_first(), digit_value(s[0]))
    } else if is_symbol_char(s[0]) {
        seq![symbol_token(s[0])] + spec_tokenize(s.drop_first())
    } else {
        Seq::empty()
    }
}

/// The token sequence after the digits of a number read so far have the value
/// `acc`. Once `acc` exceeds `i32::MAX` the whole sequence ends: appending
/// further digits can only make the number larger.
pub open spec fn spec_scan_number(s: Seq<char>, acc: int) -> Seq<Token>
    decreases s.len(), 1int,
{
    if acc > i32::MAX as int {
        Seq::empty()
    } else if s.len() > 0 && is_digit_char(s[0]) {
        spec_scan_number(s.drop_first(), acc * 10 + digit_value(s[0]))
    } else {
        seq![Token::Number(acc as i32)] + spec_tokenize(s)
    }
}

/// Whitespace before a token is insignificant: a whitespace character in
/// front of a character sequence never changes its token sequence.
pub proof fn lemma_leading_space_skipped(c: char, s: Seq<char>)
    requires
        is_space_char(c),
    ensures
        spec_tokenize(seq![c] + s) == spec_tokenize(s),
{
    assert((seq![c] + s).drop_first() =~= s);
}

/// The absolute value of an integer.
pub open spec fn abs_of(x: int) -> int {
    if x < 0 {
        -x
    } else {
        x
    }
}

/// `l` raised to the power `r`, as a checked operation: no value for a
/// negative exponent or for a result outside the `i32` range.
pub open spec fn spec_power(l: i32, r: i32) -> Option<i32> {
    if r < 0 {
        None
    } else if i32::MIN <= pow(l as int, r as nat) <= i32::MAX {
        Some(pow(l as int, r as nat) as i32)
    } else {
        None
    }
}

/// The binary compute rule of an operator token: which value, if any,
/// `l <op> r` produces. All arithmetic is checked `i32` arithmetic: there is
/// no value for a non-operator token, for division by zero, for a negative
/// exponent, or for a result outside the `i32` range.
pub open spec fn spec_compute(t: Token, l: i32, r: i32) -> Option<i32> {
    match t {
        Token::Plus => l.checked_add(r),
        Token::Minus => l.checked_sub(r),
        Token::Multiply => l.checked_mul(r),
        Token::Divide => l.checked_div(r),
        Token::Power => spec_power(l, r),
        _ => None,
    }
}

/// The absolute value of a product is the product of the absolute values.
proof fn lemma_abs_mul(a: int, b: int)
    ensures
        abs_of(a * b) == abs_of(a) * abs_of(b),
{
    if a >= 0 && b >= 0 {
        assert(a * b >= 0) by (nonlinear_arith)
            requires
                a >= 0,
                b >= 0,
        ;
    } else if a < 0 && b >= 0 {
        assert(a * b <= 0 && -(a * b) == (-a) * b) by (nonlinear_arith)
            requires
                a < 0,
                b >= 0,
        ;
    } else if a >= 0 && b < 0 {
        assert(a * b <= 0 && -(a * b) == a * (-b)) by (nonlinear_arith)
            requires
                a >= 0,
                b < 0,
        ;
    } else {
        assert(a * b >= 0 && a * b == (-a) * (-b)) by (nonlinear_arith)
            requires
                a < 0,
                b < 0,
        ;
    }
}

/// The absolute value of a power is the power of the absolute value.
proof fn lemma_abs_pow(b: int, e: nat)
    ensures
        abs_of(pow(b, e)) == pow(abs_of(b), e),
    decreases e,
{
    reveal(pow);
    if e > 0 {
        lemma_abs_pow(b, (e - 1) as nat);
        lemma_abs_mul(b, pow(b, (e - 1) as nat));
    }
}

/// For a base of at least 2, each further exponent step at least doubles.
proof fn lemma_pow_grows(b: int, e1: nat, e2: nat)
    requires
        b >= 2,
        e1 < e2,
    ensures
        pow(b, e2) >= 2 * pow(b, e1),
{
    lemma_pow_adds(b, (e2 - e1) as nat, e1);
    lemma_pow_positive(b, e1);
    lemma_pow1(b);
    lemma_pow_increases(b as nat, 1, (e2 - e1) as nat);
    let a = pow(b, (e2 - e1) as nat);
    let p = pow(b, e1);
    assert(a * p >= 2 * p) by (nonlinear_arith)
        requires
            a >= 2,
            p >= 1,
    ;
}

/// Checked exponentiation by repeated multiplication. When a step overflows,
/// the final power is outside the `i32` range as well, so `None` is correct.
fn power_checked(l: i32, r: i32) -> (res: Option<i32>)
    ensures
        res == spec_power(l, r),
{
    if r < 0 {
        return None;
    }
    let mut acc: i32 = 1;
    let mut k: i32 = 0;
    proof {
        reveal(pow);
    }
    while k < r
        invariant
            0 <= k <= r,
            acc as int == pow(l as int, k as nat),
        decreases r - k,
    {
        let ghost kk = k as nat;
        match acc.checked_mul(l) {
            Some(a2) => {
                acc = a2;
                k = k + 1;
                proof {
                    reveal(pow);
                    assert(pow(l as int, (kk + 1) as nat) == l as int * pow(l as int, kk));
                }
            },
            None => {
                proof {
                    let li = l as int;
                    let p1 = pow(li, (kk + 1) as nat);
                    assert(p1 == li * pow(li, kk)) by {
                        reveal(pow);
                    }
                    assert(p1 > i32::MAX || p1 < i32::MIN);
                    assert(abs_of(p1) >= 0x8000_0000);
                    lemma_abs_pow(li, (kk + 1) as nat);
                    if abs_of(li) == 0 {
                        lemma0_pow((kk + 1) as nat);
                        assert(false);
                    }
                    if abs_of(li) == 1 {
                        lemma1_pow((kk + 1) as nat);
                        assert(false);
                    }
                    if r as nat > kk + 1 {
                        lemma_pow_grows(abs_of(li), (kk + 1) as nat, r as nat);
                        lemma_abs_pow(li, r as nat);
                    }
                    assert(pow(li, r as nat) > i32::MAX || pow(li, r as nat) < i32::MIN);
                }
                return None;
            },
        }
    }
    Some(acc)
}

impl Token {
    /// Whether this token is a binary operator.
    pub fn is_operator(&self) -> (r: bool)
        ensures
            r == spec_is_operator(*self),
    {
        match self {
            Token::Plus | Token::Minus | Token::Multiply | Token::Divide | Token::Power => true,
            _ => false,
        }
    }

    /// The precedence of this operator; higher binds tighter.
    pub fn precedence(&self) -> (r: i32)
        ensures
            r as int == spec_precedence(*self),
    {
        match self {
            Token::Plus | Token::Minus => 1,
            Token::Multiply | Token::Divide => 2,
            Token::Power => 3,
            _ => 0,
        }
    }

    /// The associativity of this operator: `ASSOC_RIGHT` only for `^`.
    pub fn assoc(&self) -> (r: i32)
        ensures
            r == spec_assoc(*self),
    {
        match self {
            Token::Power => ASSOC_RIGHT,
            _ => ASSOC_LEFT,
        }
    }

    /// Apply this operator's binary compute rule to `l` and `r`, with checked
    /// `i32` arithmetic; `None` for a non-operator token or a failing rule.
    pub fn compute(&self, l: i32, r: i32) -> (res: Option<i32>)
        ensures
            res == spec_compute(*self, l, r),
    {
        match self {
            Token::Plus => l.checked_add(r),
            Token::Minus => l.checked_sub(r),
            Token::Multiply => l.checked_mul(r),
            Token::Divide => l.checked_div(r),
            Token::Power => power_checked(l, r),
            _ => None,
        }
    }
}

/// Whether `c` is whitespace between tokens.
fn is_space(c: char) -> (r: bool)
    ensures
        r == is_space_char(c),
{
    c == ' ' || c == '\t' || c == '\n' || c == '\r'
}

/// Whether `c` is a decimal digit.
fn is_digit(c: char) -> (r: bool)
    ensures
        r == is_digit_char(c),
{
    let u = c as u32;
    48 <= u && u <= 57
}

/// Consuming one more character shortens the remainder by dropping its first.
proof fn lemma_skip_step(s: Seq<char>, p: int)
    requires
        0 <= p < s.len(),
    ensures
        s.skip(p).len() == s.len() - p,
        s.skip(p)[0] == s[p],
        s.skip(p).drop_first() == s.skip(p + 1),
{
    assert(s.skip(p).drop_first() =~= s.skip(p + 1));
}

/// Tokenizer state: the source characters and a cursor that only moves
/// forward. The characters before the cursor have been consumed.
pub struct Tokenizer {
    chars: Vec<char>,
    pos: usize,
}

impl Tokenizer {
    /// The cursor never passes the end of the source.
    pub closed spec fn wf(self) -> bool {
        self.pos <= self.chars.len()
    }

    /// The characters not yet consumed.
    pub closed spec fn remaining(self) -> Seq<char> {
        self.chars@.skip(self.pos as int)
    }

    /// A tokenizer over the characters of `expr`, positioned at the start.
    pub fn new(expr: &str) -> (t: Tokenizer)
        ensures
            t.wf(),
            t.remaining() == expr@,
    {
        let n = expr.unicode_len();
        let mut chars: Vec<char> = Vec::new();
        let mut i: usize = 0;
        while i < n
            invariant
                i <= n,
                n == expr@.len(),
                chars@ == expr@.take(i as int),
            decreases n - i,
        {
            let c = expr.get_char(i);
            chars.push(c);
            i = i + 1;
            proof {
                assert(chars@ =~= expr@.take(i as int));
            }
        }
        let t = Tokenizer { chars, pos: 0 };
        proof {
            assert(t.remaining() =~= expr@);
        }
        t
    }

    /// Consume the whole run of whitespace characters at the cursor.
    fn trim_left(&mut self)
        requires
            old(self).wf(),
        ensures
            final(self).wf(),
            final(self).chars == old(self).chars,
            old(self).pos <= final(self).pos,
            spec_tokenize(final(self).remaining()) == spec_tokenize(old(self).remaining()),
            final(self).pos < final(self).chars.len() ==> !is_space_char(
                final(self).chars@[final(self).pos as int],
            ),
    {
        loop
            invariant
                self.wf(),
                self.chars == old(self).chars,
                old(self).pos <= self.pos,
                spec_tokenize(self.remaining()) == spec_tokenize(old(self).remaining()),
            ensures
                self.pos < self.chars.len() ==> !is_space_char(self.chars@[self.pos as int]),
            decreases self.chars.len() - self.pos,
        {
            if self.pos >= self.chars.len() {
                break;
            }
            let c = self.chars[self.pos];
            if !is_space(c) {
                break;
            }
            proof {
                lemma_skip_step(self.chars@, self.pos as int);
            }
            self.pos = self.pos + 1;
        }
    }

    /// Scan the maximal digit run at the cursor into a `Number` token, or
    /// `None` when the number does not fit in an `i32` (the token stream
    /// ends there).
    fn scan_number(&mut self) -> (r: Option<Token>)
        requires
            old(self).wf(),
            old(self).pos < old(self).chars.len(),
            is_digit_char(old(self).chars@[old(self).pos as int]),
        ensures
            final(self).wf(),
            final(self).chars == old(self).chars,
            old(self).pos <= final(self).pos,
            match r {
                Some(t) => spec_tokenize(old(self).remaining()) == seq![t] + spec_tokenize(
                    final(self).remaining(),
                ) && old(self).pos < final(self).pos,
                None => spec_tokenize(old(self).remaining()) == Seq::<Token>::empty(),
            },
    {
        proof {
            lemma_skip_step(self.chars@, self.pos as int);
        }
        let c = self.chars[self.pos];
        let mut val: i32 = ((c as u32) - 48) as i32;
        self.pos = self.pos + 1;
        loop
            invariant
                self.wf(),
                self.chars == old(self).chars,
                old(self).pos < self.pos,
                0 <= val,
                spec_tokenize(old(self).remaining()) == spec_scan_number(
                    self.remaining(),
                    val as int,
                ),
            ensures
                self.wf(),
                self.chars == old(self).chars,
                old(self).pos < self.pos,
                0 <= val,
                spec_tokenize(old(self).remaining()) == spec_scan_number(
                    self.remaining(),
                    val as int,
                ),
                self.pos == self.chars.len() || !is_digit_char(self.chars@[self.pos as int]),
            decreases self.chars.len() - self.pos,
        {
            if self.pos >= self.chars.len() {
                break;
            }
            let c2 = self.chars[self.pos];
            if !is_digit(c2) {
                break;
            }
            proof {
                lemma_skip_step(self.chars@, self.pos as int);
            }
            let d: i32 = ((c2 as u32) - 48) as i32;
            let step = match val.checked_mul(10) {
                Some(v10) => v10.checked_add(d),
                None => None,
            };
            match step {
                Some(v) => {
                    val = v;
                    self.pos = self.pos + 1;
                },
                None => {
                    assert(val * 10 + d > i32::MAX) by (nonlinear_arith)
                        requires
                            0 <= val,
                            0 <= d,
                            val * 10 > i32::MAX || val * 10 + d > i32::MAX,
                    ;
                    proof {
                        let s = self.remaining();
                        let acc2 = val as int * 10 + digit_value(s[0]);
                        assert(spec_scan_number(s, val as int) == spec_scan_number(
                            s.drop_first(),
                            acc2,
                        ));
                        assert(spec_scan_number(s.drop_first(), acc2) == Seq::<Token>::empty());
                    }
                    return None;
                },
            }
        }
        proof {
            if self.pos < self.chars.len() {
                lemma_skip_step(self.chars@, self.pos as int);
            }
        }
        Some(Token::Number(val))
    }

    /// Consume one symbol character and produce its token; `None` for an
    /// unrecognized character (the token stream ends there).
    fn scan_operator(&mut self) -> (r: Option<Token>)
        requires
            old(self).wf(),
            old(self).pos < old(self).chars.len(),
            !is_space_char(old(self).chars@[old(self).pos as int]),
            !is_digit_char(old(self).chars@[old(self).pos as int]),
        ensures
            final(self).wf(),
            final(self).chars == old(self).chars,
            old(self).pos <= final(self).pos,
            match r {
                Some(t) => spec_tokenize(old(self).remaining()) == seq![t] + spec_tokenize(
                    final(self).remaining(),
                ) && old(self).pos < final(self).pos,
                None => spec_tokenize(old(self).remaining()) == Seq::<Token>::empty(),
            },
    {
        proof {
            lemma_skip_step(self.chars@, self.pos as int);
        }
        let c = self.chars[self.pos];
        let t = match c {
            '+' => Token::Plus,
            '-' => Token::Minus,
            '*' => Token::Multiply,
            '/' => Token::Divide,
            '^' => Token::Power,
            '(' => Token::LeftParen,
            ')' => Token::RightParen,
            _ => {
                return None;
            },
        };
        self.pos = self.pos + 1;
        Some(t)
    }

    /// Produce the next token, or `None` when the stream has ended.
    pub fn next(&mut self) -> (r: Option<Token>)
        requires
            old(self).wf(),
        ensures
            final(self).wf(),
            match r {
                Some(t) => spec_tokenize(old(self).remaining()) == seq![t] + spec_tokenize(
                    final(self).remaining(),
                ) && final(self).remaining().len() < old(self).remaining().len(),
                None => spec_tokenize(old(self).remaining()) == Seq::<Token>::empty(),
            },
    {
        self.trim_left();
        if self.pos >= self.chars.len() {
            return None;
        }
        let c = self.chars[self.pos];
        if is_digit(c) {
            self.scan_number()
        } else {
            self.scan_operator()
        }
    }
}

} // verus!
